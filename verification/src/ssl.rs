//! The parts of local HTTPS certificates that are text: certificate file
//! names, the names a certificate is issued for, and the CA bundle PHP reads.
use vstd::prelude::*;

use crate::text::{
    ascii_lower_seq, ascii_lowercase, chars_of, push_all, string_of, sub_vec, trim, trim_bounds,
    lemma_subrange_whole,
};

verus! {

/// Characters kept in certificate file names; others become `_`.
pub open spec fn safe_file_char(c: char) -> bool {
    ('A' <= c && c <= 'Z') || ('a' <= c && c <= 'z') || ('0' <= c && c <= '9') || c == '.' || c
        == '-' || c == '_'
}

pub open spec fn spec_sanitize(s: Seq<char>) -> Seq<char> {
    s.map_values(|c: char| if safe_file_char(c) { c } else { '_' })
}

/// A file name made from a server name: ASCII letters, digits, `.`, `-`
/// and `_` kept, every other character replaced by `_`.
pub fn sanitize_filename(name: &str) -> (out: String)
    ensures
        out@ == spec_sanitize(name@),
{
    let v = chars_of(name);
    let mut out: Vec<char> = Vec::new();
    let mut i: usize = 0;
    while i < v.len()
        invariant
            i <= v.len(),
            out@ == spec_sanitize(v@.take(i as int)),
        decreases v.len() - i,
    {
        let c = v[i];
        let keep = ('A' <= c && c <= 'Z') || ('a' <= c && c <= 'z') || ('0' <= c && c <= '9') || c
            == '.' || c == '-' || c == '_';
        out.push(if keep { c } else { '_' });
        assert(spec_sanitize(v@.take(i + 1)) =~= spec_sanitize(v@.take(i as int)).push(
            if safe_file_char(v@[i as int]) { v@[i as int] } else { '_' },
        ));
        i = i + 1;
    }
    assert(v@.take(v.len() as int) =~= v@);
    string_of(out.as_slice())
}

/// `\n` unless the text ends with one.
pub open spec fn line_end(s: Seq<char>) -> Seq<char> {
    if s.len() > 0 && s.last() == '\n' {
        seq![]
    } else {
        seq!['\n']
    }
}

pub open spec fn spec_cabundle(base: Seq<char>, ca_pem: Seq<char>) -> Seq<char> {
    base + line_end(base) + "\n# === NaxOne Local Dev CA ===\n"@ + ca_pem + line_end(ca_pem)
}

/// The CA bundle PHP is pointed at: the Mozilla bundle, a marker line, then
/// the local CA, each ending in a line break.
pub fn cabundle_text(base: &str, ca_pem: &str) -> (bundle: String)
    ensures
        bundle@ == spec_cabundle(base@, ca_pem@),
{
    let b = chars_of(base);
    let c = chars_of(ca_pem);
    let mut out: Vec<char> = Vec::new();
    push_all(&mut out, b.as_slice());
    if !(b.len() > 0 && b[b.len() - 1] == '\n') {
        out.push('\n');
    }
    push_all(&mut out, chars_of("\n# === NaxOne Local Dev CA ===\n").as_slice());
    push_all(&mut out, c.as_slice());
    if !(c.len() > 0 && c[c.len() - 1] == '\n') {
        out.push('\n');
    }
    assert(out@ =~= spec_cabundle(base@, ca_pem@));
    string_of(out.as_slice())
}

/// All characters below 128.
pub open spec fn all_ascii(s: Seq<char>) -> bool {
    forall|i: int| 0 <= i < s.len() ==> (#[trigger] s[i]) < '\u{80}'
}

/// One more DNS name for a certificate: trimmed and lower-cased; empty names
/// and names seen before are skipped, and names that are not ASCII (which
/// an IA5 string cannot hold) are left out.
pub open spec fn add_dns(acc: (Seq<Seq<char>>, Seq<Seq<char>>), name: Seq<char>) -> (
    Seq<Seq<char>>,
    Seq<Seq<char>>,
) {
    let n = ascii_lower_seq(trim(name));
    if n.len() == 0 || acc.1.contains(n) {
        acc
    } else if all_ascii(n) {
        (acc.0.push(n), acc.1.push(n))
    } else {
        (acc.0, acc.1.push(n))
    }
}

pub open spec fn add_all_dns(acc: (Seq<Seq<char>>, Seq<Seq<char>>), names: Seq<Seq<char>>) -> (
    Seq<Seq<char>>,
    Seq<Seq<char>>,
)
    decreases names.len(),
{
    if names.len() == 0 {
        acc
    } else {
        add_dns(add_all_dns(acc, names.drop_last()), names.last())
    }
}

pub open spec fn strings_view(v: Seq<String>) -> Seq<Seq<char>> {
    v.map_values(|s: String| s@)
}

/// The DNS names of a vhost certificate, in order: the server name, the
/// aliases, then `localhost`.
pub open spec fn spec_san_dns_names(server_name: Seq<char>, aliases: Seq<Seq<char>>) -> Seq<
    Seq<char>,
> {
    add_all_dns((seq![], seq![]), seq![server_name] + aliases + seq!["localhost"@]).0
}

fn normalized_name(name: &str) -> (n: Vec<char>)
    ensures
        n@ == ascii_lower_seq(trim(name@)),
{
    let v = chars_of(name);
    let (a, b) = trim_bounds(v.as_slice(), 0, v.len());
    proof {
        lemma_subrange_whole(v@);
    }
    ascii_lowercase(sub_vec(v.as_slice(), a, b).as_slice())
}

fn seen_before(seen: &Vec<Vec<char>>, n: &Vec<char>) -> (b: bool)
    ensures
        b == seen@.map_values(|x: Vec<char>| x@).contains(n@),
{
    let ghost sv = seen@.map_values(|x: Vec<char>| x@);
    let mut k: usize = 0;
    while k < seen.len()
        invariant
            k <= seen.len(),
            sv == seen@.map_values(|x: Vec<char>| x@),
            forall|j: int| 0 <= j < k ==> sv[j] != n@,
        decreases seen.len() - k,
    {
        if crate::text::chars_equal(seen[k].as_slice(), n.as_slice()) {
            assert(sv[k as int] == n@);
            return true;
        }
        k = k + 1;
    }
    false
}

fn is_ascii_chars(n: &Vec<char>) -> (b: bool)
    ensures
        b == all_ascii(n@),
{
    let mut k: usize = 0;
    while k < n.len()
        invariant
            k <= n.len(),
            forall|j: int| 0 <= j < k ==> (#[trigger] n@[j]) < '\u{80}',
        decreases n.len() - k,
    {
        if n[k] >= '\u{80}' {
            return false;
        }
        k = k + 1;
    }
    true
}

fn add_dns_exec(names: &mut Vec<String>, seen: &mut Vec<Vec<char>>, name: &str)
    ensures
        (strings_view(final(names)@), final(seen)@.map_values(|x: Vec<char>| x@)) == add_dns(
            (strings_view(old(names)@), old(seen)@.map_values(|x: Vec<char>| x@)),
            name@,
        ),
{
    let n = normalized_name(name);
    if n.len() == 0 || seen_before(seen, &n) {
        return;
    }
    let ghost s0 = seen@.map_values(|x: Vec<char>| x@);
    let ghost n0 = strings_view(names@);
    if is_ascii_chars(&n) {
        names.push(string_of(n.as_slice()));
        assert(strings_view(names@) =~= n0.push(n@));
    }
    seen.push(n);
    assert(seen@.map_values(|x: Vec<char>| x@) =~= s0.push(n@));
}

/// The DNS names a vhost certificate is issued for (the address 127.0.0.1
/// is added beside them).
pub fn san_dns_names(server_name: &str, aliases: &[String]) -> (names: Vec<String>)
    ensures
        strings_view(names@) == spec_san_dns_names(server_name@, strings_view(aliases@)),
{
    let ghost all = seq![server_name@] + strings_view(aliases@) + seq!["localhost"@];
    let mut names: Vec<String> = Vec::new();
    let mut seen: Vec<Vec<char>> = Vec::new();
    assert(strings_view(names@) =~= seq![]);
    assert(seen@.map_values(|x: Vec<char>| x@) =~= seq![]);
    add_dns_exec(&mut names, &mut seen, server_name);
    assert(all.take(1).drop_last() =~= seq![]);
    assert(all.take(1).last() == server_name@);
    assert(add_all_dns((seq![], seq![]), all.take(1).drop_last()) == (
        Seq::<Seq<char>>::empty(),
        Seq::<Seq<char>>::empty(),
    ));
    assert(add_all_dns((seq![], seq![]), all.take(1)) == add_dns((seq![], seq![]), server_name@));
    let mut i: usize = 0;
    while i < aliases.len()
        invariant
            i <= aliases.len(),
            all == seq![server_name@] + strings_view(aliases@) + seq!["localhost"@],
            (strings_view(names@), seen@.map_values(|x: Vec<char>| x@)) == add_all_dns(
                (seq![], seq![]),
                all.take(i + 1),
            ),
        decreases aliases.len() - i,
    {
        assert(all.take(i + 2).drop_last() =~= all.take(i + 1));
        assert(all.take(i + 2).last() == aliases@[i as int]@);
        add_dns_exec(&mut names, &mut seen, aliases[i].as_str());
        i = i + 1;
    }
    assert(all.take(aliases.len() + 2).drop_last() =~= all.take(aliases.len() + 1));
    add_dns_exec(&mut names, &mut seen, "localhost");
    assert(all.take(aliases.len() + 2) =~= all);
    names
}

/// Whether `certutil` is run to trust the local CA: not where the user asked
/// to skip it, nor where an earlier run succeeded.
pub fn try_install_ca_trust(skip_requested: bool, already_installed: bool) -> (run: bool)
    ensures
        run == (!skip_requested && !already_installed),
{
    !skip_requested && !already_installed
}


/// A sanitized file name has the length of the name and only safe characters.
pub proof fn sanitized_names_are_safe(s: Seq<char>)
    ensures
        spec_sanitize(s).len() == s.len(),
        forall|i: int| 0 <= i < s.len() ==> safe_file_char(#[trigger] spec_sanitize(s)[i]),
{
}

proof fn lemma_names_seen(acc: (Seq<Seq<char>>, Seq<Seq<char>>), names: Seq<Seq<char>>)
    requires
        forall|i: int, j: int| 0 <= i < j < acc.0.len() ==> acc.0[i] != acc.0[j],
        forall|i: int| 0 <= i < acc.0.len() ==> acc.1.contains(#[trigger] acc.0[i]),
    ensures
        ({
            let r = add_all_dns(acc, names);
            &&& forall|i: int, j: int| 0 <= i < j < r.0.len() ==> r.0[i] != r.0[j]
            &&& forall|i: int| 0 <= i < r.0.len() ==> r.1.contains(#[trigger] r.0[i])
        }),
    decreases names.len(),
{
    if names.len() > 0 {
        lemma_names_seen(acc, names.drop_last());
        let p = add_all_dns(acc, names.drop_last());
        let r = add_dns(p, names.last());
        let n = ascii_lower_seq(trim(names.last()));
        if !(n.len() == 0 || p.1.contains(n)) {
            assert forall|i: int| 0 <= i < r.0.len() implies r.1.contains(#[trigger] r.0[i]) by {
                if i < p.0.len() {
                    assert(r.0[i] == p.0[i]);
                    let k = choose|k: int| 0 <= k < p.1.len() && p.1[k] == p.0[i];
                    assert(r.1[k] == p.1[k]);
                } else {
                    assert(r.1[r.1.len() - 1] == n);
                }
            }
            assert forall|i: int, j: int| 0 <= i < j < r.0.len() implies r.0[i] != r.0[j] by {
                if j == p.0.len() && all_ascii(n) {
                    assert(r.0[j] == n);
                    assert(p.1.contains(p.0[i]));
                }
            }
        }
    }
}

/// A certificate names each DNS name once, never empty.
pub proof fn san_names_distinct(server_name: Seq<char>, aliases: Seq<Seq<char>>)
    ensures
        forall|i: int, j: int|
            0 <= i < j < spec_san_dns_names(server_name, aliases).len() ==> spec_san_dns_names(
                server_name,
                aliases,
            )[i] != spec_san_dns_names(server_name, aliases)[j],
{
    lemma_names_seen((seq![], seq![]), seq![server_name] + aliases + seq!["localhost"@]);
}

} // verus!
