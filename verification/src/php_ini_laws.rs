//! What the `php.ini` edits promise over repeated runs: giving an ini the
//! default configuration twice is giving it once, and an ini that is
//! already configured is left alone; hardening enables every core
//! extension, and hardening twice is hardening once;
//! setting a directive twice only rejoins the first result's lines.
use vstd::prelude::*;

use crate::php_ini::{
    active_value, commented_value, core_extensions, directive_line, enables, extension_line,
    harden_ext_dir, harden_one, harden_upto, injected_note, is_comment,
    lemma_enable_extension_dir_sets, lemma_enable_extension_loads, loads_extension,
    names_directive, newline_unless_ended, offers_extension, php_default_extensions,
    separator_after, set_line, sets_extension_dir, spec_enable_extension,
    spec_enable_extension_dir, spec_harden_php_ini, spec_php_ini_with_defaults,
    spec_set_ini_directive, sets_directive, starts_extension_dir, comments_out, uncomment_piece, unquote,
    without_at, line_body,
    value_for, without_comment,
    with_defaults_upto,
};
use crate::text::{
    first_index, has_prefix, index_of, is_char, is_ws, join_lines, lacks, lead_ws,
    lemma_first_index, lemma_first_index_found, lemma_index_of, lemma_lead_count_unique,
    lemma_lead_ws, lemma_lead_ws_unique, lemma_lines_lack_newline, lemma_split_join,
    lemma_split_on_extend, lemma_split_on_len, lemma_trail_count_unique, lemma_trail_ws,
    lemma_trail_ws_unique, lines, replace_char, split_on, strip_cr, trail_ws, trim,
    lemma_split_pieces_lack,
    trim_by, trim_start,
};

verus! {

/// Splitting a concatenation: the pieces of `s`, the last one continued by
/// the first piece of `r`, then the other pieces of `r`.
proof fn lemma_split_concat(s: Seq<char>, r: Seq<char>, sep: char)
    ensures
        split_on(s + r, sep) == split_on(s, sep).drop_last() + seq![
            split_on(s, sep).last() + split_on(r, sep)[0],
        ] + split_on(r, sep).skip(1),
    decreases r.len(),
{
    lemma_split_on_len(s, sep);
    lemma_split_on_len(r, sep);
    let p = split_on(s, sep);
    if r.len() == 0 {
        assert(s + r =~= s);
        assert(split_on(r, sep) =~= seq![Seq::<char>::empty()]);
        assert(p.last() + Seq::<char>::empty() =~= p.last());
        assert(p.drop_last() + seq![p.last()] + seq![Seq::<char>::empty()].skip(1) =~= p);
    } else {
        let r0 = r.drop_last();
        let x = r.last();
        lemma_split_concat(s, r0, sep);
        lemma_split_on_len(r0, sep);
        assert((s + r).drop_last() =~= s + r0);
        assert((s + r).last() == x);
        let q0 = split_on(r0, sep);
        let lhs0 = split_on(s + r0, sep);
        if x == sep {
            assert(split_on(r, sep) == q0.push(seq![]));
            assert(split_on(r, sep)[0] == q0[0]);
            assert(split_on(r, sep).skip(1) =~= q0.skip(1).push(seq![]));
            assert(split_on(s + r, sep) == lhs0.push(seq![]));
            assert(p.drop_last() + seq![p.last() + q0[0]] + q0.skip(1).push(seq![]) =~= (p.drop_last()
                + seq![p.last() + q0[0]] + q0.skip(1)).push(seq![]));
        } else {
            let q = q0.update(q0.len() - 1, q0.last().push(x));
            assert(split_on(r, sep) == q);
            assert(split_on(s + r, sep) == lhs0.update(lhs0.len() - 1, lhs0.last().push(x)));
            if q0.len() == 1 {
                assert(q[0] == q0[0].push(x));
                assert(q.skip(1) =~= q0.skip(1));
                assert((p.last() + q0[0]).push(x) =~= p.last() + q0[0].push(x));
                assert(split_on(s + r, sep) =~= p.drop_last() + seq![p.last() + q[0]] + q.skip(1));
            } else {
                assert(q[0] == q0[0]);
                assert(q.skip(1) =~= q0.skip(1).update(q0.len() - 2, q0.last().push(x)));
                assert(split_on(s + r, sep) =~= p.drop_last() + seq![p.last() + q[0]] + q.skip(1));
            }
        }
    }
}

/// A line predicate that the edits of hardening cannot undo: it holds only
/// of non-empty lines not commented out with `;` (the only lines an edit
/// touches), and a final `\r` does not matter.
pub open spec fn survives_edits(p: spec_fn(Seq<char>) -> bool) -> bool {
    &&& forall|l: Seq<char>| #[trigger] p(l) ==> l.len() > 0 && !has_prefix(trim_start(l), ";"@)
    &&& forall|x: Seq<char>| #[trigger] p(strip_cr(x)) == p(x)
}

proof fn lemma_ext_dir_survives()
    ensures
        survives_edits(starts_extension_dir()),
{
    reveal_strlit("extension_dir");
    assert forall|x: Seq<char>| #[trigger] starts_extension_dir()(strip_cr(x))
        == starts_extension_dir()(x) by {
        lemma_ext_dir_strip_cr(x);
    }
    assert forall|l: Seq<char>| #[trigger] starts_extension_dir()(l) implies l.len() > 0 && !has_prefix(
        trim_start(l),
        ";"@,
    ) by {
        if l.len() == 0 {
            assert(l =~= Seq::<char>::empty());
            assert(lead_ws(l) == 0);
            assert(trim_start(l) =~= Seq::<char>::empty());
        }
    }
}

/// Dropping a final `\r` (a blank) changes neither the start-trimmed text's
/// first characters nor the trimmed text.
proof fn lemma_strip_cr_trims(x: Seq<char>)
    requires
        x.len() > 0,
        x.last() == '\r',
    ensures
        trim(x.drop_last()) == trim(x),
        lead_ws(x) < x.len() ==> trim_start(x.drop_last()) == trim_start(x).drop_last(),
        lead_ws(x) == x.len() ==> trim_start(x.drop_last()).len() == 0 && trim_start(x).len() == 0,
{
    let y = x.drop_last();
    assert(is_ws('\r'));
    lemma_lead_ws(x);
    let a = lead_ws(x) as int;
    if a < x.len() {
        assert(a < x.len() - 1) by {
            if a == x.len() - 1 {
                assert(!is_ws(x[a]));
            }
        }
        assert forall|i: int| 0 <= i < a implies is_ws(#[trigger] y[i]) by {
            assert(y[i] == x[i]);
        }
        assert(y[a] == x[a]);
        lemma_lead_ws_unique(y, a);
        let u = trim_start(x);
        let uy = trim_start(y);
        assert(uy =~= u.drop_last());
        assert(u.len() > 0 && is_ws(u.last()));
        assert(trail_ws(u) == 1 + trail_ws(u.drop_last()));
        lemma_trail_ws(uy);
        let k = uy.len() - trail_ws(uy);
        assert(trim(y) == uy.take(k));
        assert(trim(x) == u.take(k));
        assert(trim(x) =~= trim(y));
    } else {
        assert forall|i: int| 0 <= i < y.len() implies is_ws(#[trigger] y[i]) by {
            assert(y[i] == x[i]);
        }
        lemma_lead_ws_unique(y, y.len() as int);
        assert(trim_start(x) =~= Seq::<char>::empty());
        assert(trim_start(y) =~= Seq::<char>::empty());
        assert(trail_ws(Seq::<char>::empty()) == 0);
        assert(trim(x) =~= trim(y));
    }
}

/// Whether a line sets `extension_dir` does not depend on a final `\r`.
proof fn lemma_ext_dir_strip_cr(x: Seq<char>)
    ensures
        starts_extension_dir()(strip_cr(x)) == starts_extension_dir()(x),
{
    reveal_strlit("extension_dir");
    reveal_strlit(";");
    if x.len() > 0 && x.last() == '\r' {
        lemma_strip_cr_trims(x);
        let u = trim_start(x);
        let uy = trim_start(x.drop_last());
        lemma_lead_ws(x);
        if lead_ws(x) < x.len() {
            assert(u.last() == '\r');
            if has_prefix(uy, "extension_dir"@) {
                assert(u.take(13) =~= uy.take(13));
            }
            if has_prefix(u, "extension_dir"@) {
                assert(u.len() > 13) by {
                    if u.len() == 13 {
                        assert(u.take(13)[12] == 'r');
                    }
                }
                assert(uy.take(13) =~= u.take(13));
            }
            if has_prefix(uy, ";"@) {
                assert(u.take(1) =~= uy.take(1));
            }
            if has_prefix(u, ";"@) {
                assert(u.len() > 1) by {
                    if u.len() == 1 {
                        assert(u.take(1)[0] == ';');
                    }
                }
                assert(uy.take(1) =~= u.take(1));
            }
        }
    }
}

proof fn lemma_split_single(c: char)
    requires
        c != '\n',
    ensures
        split_on(seq![c], '\n') == seq![seq![c]],
{
    let s = seq![c];
    assert(s.drop_last() =~= Seq::<char>::empty());
    assert(split_on(Seq::<char>::empty(), '\n') == seq![Seq::<char>::empty()]);
    assert(Seq::<char>::empty().push(c) =~= seq![c]);
    assert(split_on(s, '\n') =~= seq![seq![c]]);
}

proof fn lemma_split_newline()
    ensures
        split_on(seq!['\n'], '\n') == seq![Seq::<char>::empty(), Seq::<char>::empty()],
{
    let s = seq!['\n'];
    assert(s.drop_last() =~= Seq::<char>::empty());
    assert(split_on(Seq::<char>::empty(), '\n') == seq![Seq::<char>::empty()]);
    assert(s.last() == '\n');
    assert(split_on(s, '\n') =~= seq![Seq::<char>::empty()].push(Seq::<char>::empty()));
}

/// Where `text` has a line satisfying `p`, so has `text` with the line
/// `pat` appended after a line break.
proof fn lemma_append_keeps(text: Seq<char>, pat: Seq<char>, p: spec_fn(Seq<char>) -> bool)
    requires
        survives_edits(p),
        lacks(pat, '\n'),
        first_index(lines(text), p) is Some,
    ensures
        first_index(lines(text + seq!['\n'] + pat + seq!['\n']), p) is Some,
{
    lemma_first_index_found(lines(text), p);
    let j = first_index(lines(text), p)->0;
    let s1 = split_on(text, '\n');
    lemma_split_on_len(text, '\n');
    let l1 = lines(text);
    let r = seq!['\n'] + pat + seq!['\n'];
    let t2 = text + seq!['\n'] + pat + seq!['\n'];
    assert(t2 =~= text + r);
    lemma_split_newline();
    lemma_split_on_extend(seq!['\n'], pat, '\n');
    assert(split_on(seq!['\n'] + pat, '\n') =~= seq![Seq::<char>::empty(), pat]) by {
        assert(Seq::<char>::empty() + pat =~= pat);
    }
    assert(r.drop_last() =~= seq!['\n'] + pat);
    assert(split_on(r, '\n') =~= seq![Seq::<char>::empty(), pat, Seq::<char>::empty()]);
    lemma_split_concat(text, r, '\n');
    let s2 = split_on(t2, '\n');
    let n = s1.len();
    assert(s1.last() + Seq::<char>::empty() =~= s1.last());
    assert(s2 =~= s1.push(pat).push(Seq::<char>::empty()));
    let l2 = lines(t2);
    assert(l2 =~= s1.push(pat).map_values(|x: Seq<char>| strip_cr(x)));
    if j < n - 1 {
        assert(l1[j] == strip_cr(s1[j]));
        assert(l2[j] == strip_cr(s1[j]));
    } else {
        assert(l1[j] == s1[n - 1]);
        assert(l2[j] == strip_cr(s1[n - 1]));
        assert(p(strip_cr(s1[n - 1])) == p(s1[n - 1]));
    }
    assert(p(l2[j]));
    lemma_first_index_found(l2, p);
}

/// A text whose trimmed form opens with `;` has an empty body.
proof fn lemma_commented_body_empty(l: Seq<char>)
    requires
        has_prefix(trim_start(l), ";"@),
    ensures
        line_body(l).len() == 0,
{
    reveal_strlit(";");
    let u = trim_start(l);
    assert(u.take(1)[0] == u[0]);
    assert(u[0] == ';');
    lemma_trail_ws(u);
    assert(!is_ws(';'));
    assert(trail_ws(u) < u.len()) by {
        if trail_ws(u) == u.len() {
            assert(is_ws(u[0]));
        }
    }
    let t = trim(l);
    assert(t == u.take(u.len() - trail_ws(u)));
    assert(t.len() > 0 && t[0] == ';');
    lemma_index_of(t, ';', 0);
    assert(without_comment(t) =~= Seq::<char>::empty());
    assert(lead_ws(Seq::<char>::empty()) == 0);
    assert(trim_start(Seq::<char>::empty()) =~= Seq::<char>::empty());
}

/// Enabling an extension is a line property the edits of hardening keep.
proof fn lemma_enables_survives(e: Seq<char>)
    ensures
        survives_edits(enables(e)),
{
    reveal_strlit("extension=");
    reveal_strlit("=");
    assert forall|l: Seq<char>| #[trigger] enables(e)(l) implies l.len() > 0 && !has_prefix(
        trim_start(l),
        ";"@,
    ) by {
        if has_prefix(trim_start(l), ";"@) {
            lemma_commented_body_empty(l);
        }
        if l.len() == 0 {
            assert(l =~= Seq::<char>::empty());
            assert(lead_ws(l) == 0);
            assert(trim_start(l) =~= Seq::<char>::empty());
            assert(trail_ws(Seq::<char>::empty()) == 0);
            assert(trim(l) =~= Seq::<char>::empty());
            assert(index_of(Seq::<char>::empty(), ';') is None);
            assert(without_comment(trim(l)) =~= Seq::<char>::empty());
            assert(line_body(l) =~= Seq::<char>::empty());
        }
    }
    assert forall|x: Seq<char>| #[trigger] enables(e)(strip_cr(x)) == enables(e)(x) by {
        if x.len() > 0 && x.last() == '\r' {
            lemma_strip_cr_trims(x);
            assert(line_body(strip_cr(x)) == line_body(x));
        }
    }
}

/// Blanks before a text do not change its trimmed form.
proof fn lemma_trim_after_blanks(a: Seq<char>, y: Seq<char>)
    requires
        forall|i: int| 0 <= i < a.len() ==> is_ws(#[trigger] a[i]),
    ensures
        trim(a + y) == trim(y),
{
    lemma_lead_ws(y);
    let s = a + y;
    let k: int = (a.len() + lead_ws(y)) as int;
    assert forall|i: int| 0 <= i < k implies is_ws(#[trigger] s[i]) by {
        if i >= a.len() {
            assert(s[i] == y[i - a.len()]);
        }
    }
    if k < s.len() {
        assert(s[k] == y[lead_ws(y) as int]);
    }
    lemma_lead_ws_unique(s, k);
    assert(trim_start(s) =~= trim_start(y));
}

/// Where `text` has a line satisfying `p`, so has the text with the `;`
/// opening its `i`-th line removed.
#[verifier::rlimit(40)]
proof fn lemma_uncomment_piece_keeps(text: Seq<char>, i: int, p: spec_fn(Seq<char>) -> bool)
    requires
        survives_edits(p),
        0 <= i < split_on(text, '\n').len(),
        has_prefix(trim_start(split_on(text, '\n')[i]), ";"@),
        first_index(lines(text), p) is Some,
    ensures
        first_index(lines(uncomment_piece(text, i)), p) is Some,
{
    lemma_first_index_found(lines(text), p);
    let j = first_index(lines(text), p)->0;
    let ps = split_on(text, '\n');
    lemma_split_on_len(text, '\n');
    lemma_split_pieces_lack(text, '\n');
    let o = lead_ws(ps[i]) as int;
    lemma_lead_ws(ps[i]);
    assert(o < ps[i].len()) by {
        reveal_strlit(";");
        assert(trim_start(ps[i]).len() >= 1);
    }
    let np = without_at(ps[i], o);
    let qs = ps.update(i, np);
    assert(lacks(np, '\n')) by {
        assert(lacks(ps[i], '\n'));
        assert forall|m: int| 0 <= m < np.len() implies np[m] != '\n' by {
            if m < o {
                assert(np[m] == ps[i][m]);
            } else {
                assert(np[m] == ps[i][m + 1]);
            }
        }
    }
    assert forall|m: int| 0 <= m < qs.len() implies lacks(#[trigger] qs[m], '\n') by {
        if m != i {
            assert(qs[m] == ps[m]);
        }
    }
    lemma_split_join(qs);
    let t2 = uncomment_piece(text, i);
    assert(split_on(t2, '\n') == qs);
    let l1 = lines(text);
    let l2 = lines(t2);
    let n = ps.len();
    if j < n - 1 {
        assert(l1[j] == strip_cr(ps[j]));
        assert(p(strip_cr(ps[j])) == p(ps[j]));
        assert(j != i);
        assert(qs[j] == ps[j]);
        assert(l2[j] == strip_cr(qs[j]));
    } else {
        assert(ps.last().len() > 0);
        assert(l1[j] == ps[n - 1]);
        assert(j != i);
        assert(qs[n - 1] == ps[n - 1]);
        assert(l2[j] == qs[n - 1]);
    }
    assert(p(l2[j]));
    lemma_first_index_found(l2, p);
}

/// The lines of a text with a line `pat` appended after a line break: the
/// old pieces, then `pat`.
proof fn lemma_append_line(text: Seq<char>, pat: Seq<char>)
    requires
        lacks(pat, '\n'),
    ensures
        lines(text + seq!['\n'] + pat + seq!['\n']) == split_on(text, '\n').push(pat).map_values(
            |x: Seq<char>| strip_cr(x),
        ),
{
    let s1 = split_on(text, '\n');
    lemma_split_on_len(text, '\n');
    let r = seq!['\n'] + pat + seq!['\n'];
    let t2 = text + seq!['\n'] + pat + seq!['\n'];
    assert(t2 =~= text + r);
    lemma_split_newline();
    lemma_split_on_extend(seq!['\n'], pat, '\n');
    assert(split_on(seq!['\n'] + pat, '\n') =~= seq![Seq::<char>::empty(), pat]) by {
        assert(Seq::<char>::empty() + pat =~= pat);
    }
    assert(r.drop_last() =~= seq!['\n'] + pat);
    assert(split_on(r, '\n') =~= seq![Seq::<char>::empty(), pat, Seq::<char>::empty()]);
    lemma_split_concat(text, r, '\n');
    assert(s1.last() + Seq::<char>::empty() =~= s1.last());
    assert(split_on(t2, '\n') =~= s1.push(pat).push(Seq::<char>::empty()));
    assert(lines(t2) =~= s1.push(pat).map_values(|x: Seq<char>| strip_cr(x)));
}

proof fn lemma_harden_one_keeps(text: Seq<char>, e: Seq<char>, p: spec_fn(Seq<char>) -> bool)
    requires
        survives_edits(p),
        lacks(e, '\n'),
        first_index(lines(text), p) is Some,
    ensures
        first_index(lines(harden_one(text, e)), p) is Some,
{
    if first_index(lines(text), enables(e)) is None {
        reveal_strlit("extension=");
        let pat = "extension="@ + e;
        let ps = split_on(text, '\n');
        lemma_first_index_found(ps, comments_out(e));
        match first_index(ps, comments_out(e)) {
            Some(i) => {
                lemma_uncomment_piece_keeps(text, i, p);
            },
            None => {
                assert(lacks(pat, '\n')) by {
                    assert forall|i: int| 0 <= i < pat.len() implies pat[i] != '\n' by {
                        if i >= 10 {
                            assert(pat[i] == e[i - 10]);
                        }
                    }
                }
                lemma_append_keeps(text, pat, p);
            },
        }
    }
}

/// `extension=<e>` enables `e`, for a plain name `e`.
proof fn lemma_extension_line_enables(e: Seq<char>)
    requires
        plain_name(e),
    ensures
        enables(e)("extension="@ + e),
        lacks("extension="@ + e, '\n'),
        strip_cr("extension="@ + e) == "extension="@ + e,
{
    reveal_strlit("extension=");
    lemma_plain_name_unquoted(e);
    let pat = "extension="@ + e;
    assert forall|i: int| 0 <= i < pat.len() implies !is_ws(#[trigger] pat[i]) && pat[i] != ';'
        && pat[i] != '\n' by {
        if i >= 10 {
            assert(pat[i] == e[i - 10]);
            let c = e[i - 10];
            assert(('a' <= c && c <= 'z') || ('0' <= c && c <= '9') || c == '_');
        }
    }
    lemma_lead_ws_unique(pat, 0);
    assert(trim_start(pat) =~= pat);
    lemma_trail_ws_unique(pat, 0);
    assert(trim(pat) =~= pat);
    assert(index_of(pat, ';') is None);
    assert(without_comment(pat) == pat);
    assert(line_body(pat) == pat);
    assert(pat.last() != '\r');
}

/// Hardening one extension leaves a line that enables it.
#[verifier::rlimit(40)]
proof fn lemma_harden_one_enables(text: Seq<char>, e: Seq<char>)
    requires
        plain_name(e),
    ensures
        first_index(lines(harden_one(text, e)), enables(e)) is Some,
{
    if first_index(lines(text), enables(e)) is None {
        reveal_strlit("extension=");
        lemma_enables_survives(e);
        lemma_extension_line_enables(e);
        let pat = "extension="@ + e;
        let ps = split_on(text, '\n');
        lemma_split_on_len(text, '\n');
        lemma_first_index_found(ps, comments_out(e));
        match first_index(ps, comments_out(e)) {
            Some(i) => {
                lemma_split_pieces_lack(text, '\n');
                let o = lead_ws(ps[i]) as int;
                lemma_lead_ws(ps[i]);
                assert(o < ps[i].len()) by {
                    reveal_strlit(";");
                    assert(trim_start(ps[i]).len() >= 1);
                }
                let np = without_at(ps[i], o);
                let y = trim_start(ps[i]).skip(1);
                assert(np =~= ps[i].take(o) + y);
                lemma_trim_after_blanks(ps[i].take(o), y);
                assert(line_body(np) == line_body(y));
                assert(enables(e)(np));
                let qs = ps.update(i, np);
                assert(lacks(np, '\n')) by {
                    assert(lacks(ps[i], '\n'));
                    assert forall|m: int| 0 <= m < np.len() implies np[m] != '\n' by {
                        if m < o {
                            assert(np[m] == ps[i][m]);
                        } else {
                            assert(np[m] == ps[i][m + 1]);
                        }
                    }
                }
                assert forall|m: int| 0 <= m < qs.len() implies lacks(#[trigger] qs[m], '\n') by {
                    if m != i {
                        assert(qs[m] == ps[m]);
                    }
                }
                lemma_split_join(qs);
                let t2 = uncomment_piece(text, i);
                assert(split_on(t2, '\n') == qs);
                let l2 = lines(t2);
                if i < qs.len() - 1 {
                    assert(l2[i] == strip_cr(np));
                    assert(enables(e)(strip_cr(np)) == enables(e)(np));
                } else {
                    assert(np.len() > 0);
                    assert(l2[i] == np);
                }
                assert(enables(e)(l2[i]));
                lemma_first_index_found(l2, enables(e));
            },
            None => {
                lemma_append_line(text, pat);
                let l2 = lines(text + seq!['\n'] + pat + seq!['\n']);
                assert(l2[ps.len() as int] == strip_cr(pat));
                assert(enables(e)(l2[ps.len() as int]));
                lemma_first_index_found(l2, enables(e));
            },
        }
    }
}

/// The core extension names are plain: neither `;`, blanks nor line breaks.
proof fn lemma_core_names()
    ensures
        core_extensions().len() == 8,
        forall|k: int|
            0 <= k < 8 ==> lacks(#[trigger] core_extensions()[k], ';') && lacks(
                core_extensions()[k],
                '\n',
            ) && plain_name(core_extensions()[k]),
{
    reveal_strlit("openssl");
    reveal_strlit("curl");
    reveal_strlit("mbstring");
    reveal_strlit("fileinfo");
    reveal_strlit("zip");
    reveal_strlit("intl");
    reveal_strlit("gd");
    reveal_strlit("exif");
}

/// After a line break, text that starts with a line piece `h` gives a line
/// that is `h` followed by the rest of that line.
proof fn lemma_line_after_break(y: Seq<char>, h: Seq<char>, rest: Seq<char>)
    requires
        y.len() > 0,
        y.last() == '\n',
        lacks(h, '\n'),
        rest.len() > 0,
        rest.last() == '\n',
    ensures
        exists|i: int|
            0 <= i < lines(y + (h + rest)).len() && #[trigger] lines(y + (h + rest))[i] == strip_cr(
                h + split_on(rest, '\n')[0],
            ),
{
    let x = h + rest;
    let t = y + x;
    lemma_split_on_len(y.drop_last(), '\n');
    assert(split_on(y, '\n') == split_on(y.drop_last(), '\n').push(Seq::<char>::empty()));
    let sy = split_on(y, '\n');
    lemma_split_on_extend(Seq::<char>::empty(), h, '\n');
    assert(Seq::<char>::empty() + h =~= h);
    assert(split_on(h, '\n') =~= seq![h]) by {
        assert(split_on(Seq::<char>::empty(), '\n') == seq![Seq::<char>::empty()]);
    }
    lemma_split_concat(h, rest, '\n');
    lemma_split_on_len(rest, '\n');
    let sr = split_on(rest, '\n');
    let sx = split_on(x, '\n');
    assert(sx =~= seq![h + sr[0]] + sr.skip(1));
    lemma_split_on_len(rest.drop_last(), '\n');
    assert(sr.len() >= 2);
    lemma_split_concat(y, x, '\n');
    let st = split_on(t, '\n');
    assert(Seq::<char>::empty() + (h + sr[0]) =~= h + sr[0]);
    assert(st =~= sy.drop_last() + seq![h + sr[0]] + sx.skip(1));
    let idx = sy.len() - 1;
    assert(st[idx] == h + sr[0]);
    assert(idx < st.len() - 1);
    let lt = lines(t);
    assert(lt[idx] == strip_cr(st[idx]));
    assert(0 <= idx < lt.len());
}

/// After the first step of hardening, a line sets `extension_dir`.
proof fn lemma_ext_dir_set(raw: Seq<char>, ext_dir: Seq<char>)
    ensures
        first_index(lines(harden_ext_dir(raw, ext_dir)), starts_extension_dir()) is Some,
{
    if first_index(lines(raw), starts_extension_dir()) is None {
        let marker = "\n; --- NaxOne harden ---\n"@;
        let h = "extension_dir = \""@;
        assert(marker.len() > 0 && marker.last() == '\n') by {
            reveal_strlit("\n; --- NaxOne harden ---\n");
        }
        assert(h.len() == 17 && lacks(h, '\n') && h.take(13) == "extension_dir"@ && h[0] == 'e') by {
            reveal_strlit("extension_dir = \"");
            reveal_strlit("extension_dir");
            assert(h.take(13) =~= "extension_dir"@);
        }
        let y = raw + marker;
        let rest = replace_char(ext_dir, '\\', '/') + "\""@ + seq!['\n'];
        let t = harden_ext_dir(raw, ext_dir);
        assert(t =~= y + (h + rest));
        lemma_line_after_break(y, h, rest);
        let lt = lines(t);
        let line = h + split_on(rest, '\n')[0];
        let i = choose|i: int| 0 <= i < lt.len() && #[trigger] lt[i] == strip_cr(line);
        assert(!is_ws(line[0]));
        lemma_lead_ws_unique(line, 0);
        assert(trim_start(line) =~= line);
        assert(line.take(13) =~= "extension_dir"@);
        assert(!has_prefix(line, ";"@)) by {
            reveal_strlit(";");
            if has_prefix(line, ";"@) {
                assert(line.take(1)[0] == line[0]);
            }
        }
        assert(starts_extension_dir()(line));
        lemma_ext_dir_strip_cr(line);
        assert(starts_extension_dir()(lt[i]));
        lemma_first_index_found(lt, starts_extension_dir());
    }
}

/// A `php.ini` text that sets `extension_dir` and enables every core
/// extension.
pub open spec fn is_hardened(text: Seq<char>) -> bool {
    &&& first_index(lines(text), starts_extension_dir()) is Some
    &&& forall|k: int|
        0 <= k < 8 ==> #[trigger] first_index(lines(text), enables(core_extensions()[k])) is Some
}

/// After the first `k` hardening steps on a text that sets `extension_dir`,
/// it still does, and each of the first `k` core extensions is enabled.
proof fn lemma_upto_hardens(d0: Seq<char>, k: int)
    requires
        0 <= k <= 8,
        first_index(lines(d0), starts_extension_dir()) is Some,
    ensures
        first_index(lines(harden_upto(d0, k)), starts_extension_dir()) is Some,
        forall|m: int|
            0 <= m < k ==> #[trigger] first_index(lines(harden_upto(d0, k)), enables(core_extensions()[m]))
                is Some,
    decreases k,
{
    if k > 0 {
        lemma_upto_hardens(d0, k - 1);
        let x = harden_upto(d0, k - 1);
        let e = core_extensions()[k - 1];
        assert(harden_upto(d0, k) == harden_one(x, e));
        lemma_core_names();
        lemma_ext_dir_survives();
        lemma_harden_one_keeps(x, e, starts_extension_dir());
        lemma_harden_one_enables(x, e);
        assert forall|m: int| 0 <= m < k implies #[trigger] first_index(
            lines(harden_upto(d0, k)),
            enables(core_extensions()[m]),
        ) is Some by {
            if m < k - 1 {
                lemma_enables_survives(core_extensions()[m]);
                assert(first_index(lines(x), enables(core_extensions()[m])) is Some);
                lemma_harden_one_keeps(x, e, enables(core_extensions()[m]));
            }
        }
    }
}

proof fn lemma_upto_fixed(x: Seq<char>, k: int)
    requires
        0 <= k <= 8,
        is_hardened(x),
    ensures
        harden_upto(x, k) == x,
    decreases k,
{
    if k > 0 {
        lemma_upto_fixed(x, k - 1);
        assert(first_index(lines(x), enables(core_extensions()[k - 1])) is Some);
    }
}

/// Hardening leaves a `php.ini` alone that already sets `extension_dir`
/// and enables every core extension.
pub proof fn hardening_keeps_hardened_text(text: Seq<char>, ext_dir: Seq<char>)
    requires
        is_hardened(text),
    ensures
        spec_harden_php_ini(text, ext_dir) == text,
{
    assert(harden_ext_dir(text, ext_dir) == text);
    lemma_core_names();
    lemma_upto_fixed(text, 8);
}

/// Hardening gives every `php.ini` a line setting `extension_dir` and a
/// line enabling each core extension.
pub proof fn hardening_enables_every_core(raw: Seq<char>, ext_dir: Seq<char>)
    ensures
        is_hardened(spec_harden_php_ini(raw, ext_dir)),
{
    let d0 = harden_ext_dir(raw, ext_dir);
    lemma_ext_dir_set(raw, ext_dir);
    lemma_core_names();
    lemma_upto_hardens(d0, 8);
}

/// Hardening twice is hardening once: the second run changes nothing.
pub proof fn harden_twice_is_harden_once(raw: Seq<char>, ext_dir: Seq<char>)
    ensures
        spec_harden_php_ini(spec_harden_php_ini(raw, ext_dir), ext_dir) == spec_harden_php_ini(
            raw,
            ext_dir,
        ),
{
    hardening_enables_every_core(raw, ext_dir);
    hardening_keeps_hardened_text(spec_harden_php_ini(raw, ext_dir), ext_dir);
}

/// A `php.ini` that loads every default extension whose DLL is present.
pub open spec fn loads_present_defaults(content: Seq<char>, present: Seq<bool>) -> bool {
    forall|k: int|
        0 <= k < php_default_extensions().len() && k < present.len() && present[k]
            ==> #[trigger] first_index(lines(content), loads_extension(php_default_extensions()[k]))
            is Some
}

proof fn lemma_defaults_upto_fixed(content: Seq<char>, present: Seq<bool>, k: int)
    requires
        0 <= k <= php_default_extensions().len(),
        loads_present_defaults(content, present),
    ensures
        with_defaults_upto(content, present, k) == content,
    decreases k,
{
    if k > 0 {
        lemma_defaults_upto_fixed(content, present, k - 1);
        if k - 1 < present.len() && present[k - 1] {
            assert(first_index(lines(content), loads_extension(php_default_extensions()[k - 1])) is Some);
            assert(spec_enable_extension(content, php_default_extensions()[k - 1]) == content);
        }
    }
}

/// A `php.ini` that already sets `extension_dir` on an active line and
/// loads every default extension whose DLL is present is not changed.
pub proof fn configured_ini_is_left_alone(content: Seq<char>, present: Seq<bool>)
    requires
        first_index(lines(content), sets_extension_dir()) is Some,
        loads_present_defaults(content, present),
    ensures
        spec_php_ini_with_defaults(content, present) == content,
{
    lemma_defaults_upto_fixed(content, present, php_default_extensions().len() as int);
}

/// A predicate of active lines: blind to a final `\r`, and only true of
/// non-empty lines that are not commented out with `;`.
pub open spec fn active_line_pred(p: spec_fn(Seq<char>) -> bool) -> bool {
    &&& forall|x: Seq<char>| #[trigger] p(strip_cr(x)) == p(x)
    &&& forall|l: Seq<char>|
        #[trigger] p(l) ==> l.len() > 0 && !(trim_start(l).len() > 0 && trim_start(l)[0] == ';')
}

proof fn lemma_index_of_drop_last(t: Seq<char>, c: char)
    requires
        t.len() > 0,
        t.last() != c,
    ensures
        index_of(t, c) == index_of(t.drop_last(), c),
{
    let y = t.drop_last();
    if exists|i: int| 0 <= i < t.len() && t[i] == c {
        let w = choose|i: int| 0 <= i < t.len() && t[i] == c;
        let k = first_char_at(t, c, w);
        lemma_index_of(t, c, k);
        assert(k < y.len());
        assert forall|j: int| 0 <= j < k implies y[j] != c by {
            assert(y[j] == t[j]);
        }
        lemma_index_of(y, c, k);
    } else {
        assert(!exists|i: int| 0 <= i < y.len() && y[i] == c) by {
            if exists|i: int| 0 <= i < y.len() && y[i] == c {
                let i = choose|i: int| 0 <= i < y.len() && y[i] == c;
                assert(t[i] == c);
            }
        }
    }
}

/// The first position of `c` at or before `w`, where `t[w] == c`.
proof fn first_char_at(t: Seq<char>, c: char, w: int) -> (k: int)
    requires
        0 <= w < t.len(),
        t[w] == c,
    ensures
        0 <= k <= w,
        t[k] == c,
        forall|j: int| 0 <= j < k ==> t[j] != c,
    decreases w,
{
    if exists|j: int| 0 <= j < w && t[j] == c {
        let j = choose|j: int| 0 <= j < w && t[j] == c;
        first_char_at(t, c, j)
    } else {
        w
    }
}

/// A `key = value` text read with or without a final `\r`: the same key,
/// the value with or without that `\r`.
proof fn lemma_value_for_strip_cr(t: Seq<char>, key: Seq<char>)
    requires
        t.len() > 0,
        t.last() == '\r',
    ensures
        value_for(t.drop_last(), key) is Some == value_for(t, key) is Some,
        value_for(t, key) matches Some(v) ==> v.len() > 0 && v.last() == '\r' && value_for(
            t.drop_last(),
            key,
        ) == Some(v.drop_last()),
{
    let ty = t.drop_last();
    lemma_index_of_drop_last(t, '=');
    if exists|j: int| 0 <= j < t.len() && t[j] == '=' {
        let w = choose|j: int| 0 <= j < t.len() && t[j] == '=';
        let i = first_char_at(t, '=', w);
        lemma_index_of(t, '=', i);
        assert(i < t.len() - 1);
        assert(ty.take(i) =~= t.take(i));
        let v = t.skip(i + 1);
        assert(ty.skip(i + 1) =~= v.drop_last());
        assert(v.len() > 0 && v.last() == '\r');
    } else {
        assert(index_of(t, '=') is None);
    }
}

/// An active `key = value` line read with or without a final `\r`: the
/// same key, the value with or without that `\r`.
proof fn lemma_active_value_strip_cr(x: Seq<char>, key: Seq<char>)
    requires
        x.len() > 0,
        x.last() == '\r',
    ensures
        active_value(x.drop_last(), key) is Some == active_value(x, key) is Some,
        active_value(x, key) matches Some(v) ==> v.len() > 0 && v.last() == '\r' && active_value(
            x.drop_last(),
            key,
        ) == Some(v.drop_last()),
{
    let y = x.drop_last();
    lemma_strip_cr_trims(x);
    lemma_lead_ws(x);
    if lead_ws(x) < x.len() {
        let t = trim_start(x);
        let ty = trim_start(y);
        assert(ty == t.drop_last());
        assert(t.last() == '\r');
        assert(t.len() >= 2) by {
            assert(!is_ws(t[0]));
            assert(is_ws('\r'));
        }
        assert(ty[0] == t[0]);
        assert(is_comment(ty) == is_comment(t));
        lemma_value_for_strip_cr(t, key);
    } else {
        assert(trim_start(x) =~= Seq::<char>::empty());
        assert(trim_start(y) =~= Seq::<char>::empty());
        assert(index_of(Seq::<char>::empty(), '=') is None);
    }
}

proof fn lemma_active_line_shape(l: Seq<char>, key: Seq<char>)
    requires
        active_value(l, key) is Some,
    ensures
        l.len() > 0,
        !(trim_start(l).len() > 0 && trim_start(l)[0] == ';'),
{
    let t = trim_start(l);
    if t.len() == 0 {
        assert(t =~= Seq::<char>::empty());
        assert(index_of(t, '=') is None);
    }
    lemma_lead_ws(l);
}

proof fn lemma_first_char(s: Seq<char>, c: char, k: int)
    requires
        0 <= k < s.len(),
        s[k] == c,
    ensures
        exists|i: int|
            0 <= i < s.len() && s[i] == c && forall|j: int| 0 <= j < i ==> #[trigger] s[j] != c,
    decreases k,
{
    if exists|j: int| 0 <= j < k && s[j] == c {
        let j = choose|j: int| 0 <= j < k && s[j] == c;
        lemma_first_char(s, c, j);
    } else {
        assert(0 <= k < s.len() && s[k] == c && forall|j: int| 0 <= j < k ==> #[trigger] s[j] != c);
    }
}

/// Where `index_of` finds `c`, it gives its first position.
proof fn lemma_index_of_found(s: Seq<char>, c: char)
    requires
        index_of(s, c) is Some,
    ensures
        0 <= index_of(s, c)->0 < s.len(),
        s[index_of(s, c)->0] == c,
        forall|j: int| 0 <= j < index_of(s, c)->0 ==> s[j] != c,
{
    let w = choose|i: int| 0 <= i < s.len() && s[i] == c;
    lemma_first_char(s, c, w);
}

/// Whether a value names an extension does not depend on a final `\r`.
proof fn lemma_without_comment_strip_cr(v: Seq<char>)
    requires
        v.len() > 0,
        v.last() == '\r',
    ensures
        unquote(without_comment(v.drop_last())) == unquote(without_comment(v)),
{
    let y = v.drop_last();
    match index_of(v, ';') {
        Some(i) => {
            lemma_index_of_found(v, ';');
            assert(i < v.len() - 1);
            assert forall|j: int| 0 <= j < i implies y[j] != ';' by {
                assert(y[j] == v[j]);
            }
            lemma_index_of(y, ';', i);
            assert(y.take(i) =~= v.take(i));
        },
        None => {
            assert forall|j: int| 0 <= j < y.len() implies y[j] != ';' by {
                assert(y[j] == v[j]);
            }
            assert(index_of(y, ';') is None);
            lemma_strip_cr_trims(v);
        },
    }
}

proof fn lemma_loads_active(name: Seq<char>)
    ensures
        active_line_pred(loads_extension(name)),
{
    let p = loads_extension(name);
    assert forall|x: Seq<char>| #[trigger] p(strip_cr(x)) == p(x) by {
        if x.len() > 0 && x.last() == '\r' {
            lemma_active_value_strip_cr(x, "extension"@);
            match active_value(x, "extension"@) {
                Some(v) => {
                    lemma_without_comment_strip_cr(v);
                },
                None => {},
            }
        }
    }
    assert forall|l: Seq<char>| #[trigger] p(l) implies l.len() > 0 && !(trim_start(l).len() > 0
        && trim_start(l)[0] == ';') by {
        lemma_active_line_shape(l, "extension"@);
    }
}

proof fn lemma_sets_ext_dir_active()
    ensures
        active_line_pred(sets_extension_dir()),
{
    let p = sets_extension_dir();
    assert forall|x: Seq<char>| #[trigger] p(strip_cr(x)) == p(x) by {
        if x.len() > 0 && x.last() == '\r' {
            lemma_active_value_strip_cr(x, "extension_dir"@);
        }
    }
    assert forall|l: Seq<char>| #[trigger] p(l) implies l.len() > 0 && !(trim_start(l).len() > 0
        && trim_start(l)[0] == ';') by {
        lemma_active_line_shape(l, "extension_dir"@);
    }
}

/// Where some line satisfies `p`, so does a line of the text with another
/// line `i` (one that does not satisfy `p`) replaced by `e`.
proof fn lemma_replace_keeps(content: Seq<char>, i: int, e: Seq<char>, p: spec_fn(Seq<char>) -> bool)
    requires
        active_line_pred(p),
        lacks(e, '\n'),
        0 <= i < lines(content).len(),
        !p(lines(content)[i]),
        first_index(lines(content), p) is Some,
    ensures
        first_index(lines(join_lines(lines(content).update(i, e))), p) is Some,
{
    let ls = lines(content);
    lemma_first_index_found(ls, p);
    let j = first_index(ls, p)->0;
    assert(j != i);
    let l2 = ls.update(i, e);
    lemma_lines_lack_newline(content);
    assert forall|k: int| 0 <= k < l2.len() implies lacks(#[trigger] l2[k], '\n') by {
        if k != i {
            assert(l2[k] == ls[k]);
        }
    }
    lemma_split_join(l2);
    let out = lines(join_lines(l2));
    if j < l2.len() - 1 {
        assert(out[j] == strip_cr(l2[j]));
        assert(p(strip_cr(ls[j])) == p(ls[j]));
    } else {
        assert(ls[j].len() > 0);
        assert(out[j] == l2[j]);
    }
    assert(p(out[j]));
    lemma_first_index_found(out, p);
}

/// Where some line satisfies `p`, so does a line of the text with line `e`
/// appended.
proof fn lemma_append_line_keeps(content: Seq<char>, e: Seq<char>, p: spec_fn(Seq<char>) -> bool)
    requires
        active_line_pred(p),
        lacks(e, '\n'),
        first_index(lines(content), p) is Some,
    ensures
        first_index(lines(content + newline_unless_ended(content) + e + seq!['\n']), p) is Some,
{
    let ls = lines(content);
    lemma_first_index_found(ls, p);
    let j = first_index(ls, p)->0;
    let sc = split_on(content, '\n');
    lemma_split_on_len(content, '\n');
    let y = content + newline_unless_ended(content);
    let t = y + e + seq!['\n'];
    assert(y.len() > 0 && y.last() == '\n');
    lemma_split_on_len(y.drop_last(), '\n');
    assert(split_on(y, '\n') == split_on(y.drop_last(), '\n').push(Seq::<char>::empty()));
    let sy = split_on(y, '\n');
    lemma_split_on_extend(y, e, '\n');
    let q = sy.update(sy.len() - 1, sy.last() + e);
    assert(split_on(y + e, '\n') == q);
    assert(t.drop_last() =~= y + e);
    assert(split_on(t, '\n') == q.push(Seq::<char>::empty()));
    let out = lines(t);
    assert(out =~= q.map_values(|x: Seq<char>| strip_cr(x)));
    if content.len() > 0 && content.last() == '\n' {
        assert(y =~= content);
        assert(sc.last().len() == 0);
        assert(j < sc.len() - 1);
        assert(ls[j] == strip_cr(sc[j]));
        assert(out[j] == strip_cr(q[j]));
        assert(q[j] == sc[j]);
    } else {
        assert(y.drop_last() =~= content);
        assert(sy == sc.push(Seq::<char>::empty()));
        assert(q[j] == sc[j]);
        assert(out[j] == strip_cr(sc[j]));
        if j < sc.len() - 1 {
            assert(ls[j] == strip_cr(sc[j]));
        } else {
            assert(ls[j] == sc[j]);
            assert(p(strip_cr(sc[j])) == p(sc[j]));
        }
    }
    assert(p(out[j]));
    lemma_first_index_found(out, p);
}

/// Enabling one extension keeps every active line property `p` the text had.
proof fn lemma_enable_keeps(content: Seq<char>, name: Seq<char>, p: spec_fn(Seq<char>) -> bool)
    requires
        active_line_pred(p),
        lacks(name, '\n'),
        first_index(lines(content), p) is Some,
    ensures
        first_index(lines(spec_enable_extension(content, name)), p) is Some,
{
    reveal_strlit("extension=");
    let e = extension_line(name);
    assert(lacks(e, '\n')) by {
        assert forall|k: int| 0 <= k < e.len() implies e[k] != '\n' by {
            if k >= 10 {
                assert(e[k] == name[k - 10]);
            }
        }
    }
    let ls = lines(content);
    if first_index(ls, loads_extension(name)) is None {
        match first_index(ls, offers_extension(name)) {
            Some(i) => {
                lemma_first_index_found(ls, offers_extension(name));
                assert(commented_value(ls[i], "extension"@) is Some);
                assert(!p(ls[i]));
                lemma_replace_keeps(content, i, e, p);
            },
            None => {
                lemma_append_line_keeps(content, e, p);
            },
        }
    }
}

/// A name made of letters, digits and `_` (no blanks, quotes or line
/// breaks).
pub open spec fn plain_name(name: Seq<char>) -> bool {
    name.len() > 0 && forall|i: int|
        0 <= i < name.len() ==> {
            let c = #[trigger] name[i];
            ('a' <= c && c <= 'z') || ('0' <= c && c <= '9') || c == '_'
        }
}

proof fn lemma_plain_name_unquoted(name: Seq<char>)
    requires
        plain_name(name),
    ensures
        unquote(name) == name,
        lacks(name, '\n'),
        lacks(name, ';'),
{
    assert forall|i: int| 0 <= i < name.len() implies !is_ws(#[trigger] name[i]) && name[i] != '"'
        && name[i] != '\'' && name[i] != '\n' && name[i] != ';' by {
        let c = name[i];
        assert(('a' <= c && c <= 'z') || ('0' <= c && c <= '9') || c == '_');
    }
    lemma_lead_ws_unique(name, 0);
    assert(trim_start(name) =~= name);
    lemma_trail_ws_unique(name, 0);
    assert(trim(name) =~= name);
    lemma_lead_count_unique(name, is_char('"'), 0);
    lemma_trail_count_unique(name, is_char('"'), 0);
    assert(trim_by(name, is_char('"')) =~= name);
    lemma_lead_count_unique(name, is_char('\''), 0);
    lemma_trail_count_unique(name, is_char('\''), 0);
    assert(trim_by(name, is_char('\'')) =~= name);
}

/// The default extension names are plain.
proof fn lemma_default_names()
    ensures
        php_default_extensions().len() == 17,
        forall|k: int| 0 <= k < 17 ==> plain_name(#[trigger] php_default_extensions()[k]),
{
    reveal_strlit("openssl");
    reveal_strlit("mbstring");
    reveal_strlit("curl");
    reveal_strlit("mysqli");
    reveal_strlit("pdo_mysql");
    reveal_strlit("pdo_sqlite");
    reveal_strlit("sqlite3");
    reveal_strlit("fileinfo");
    reveal_strlit("gd");
    reveal_strlit("zip");
    reveal_strlit("bz2");
    reveal_strlit("intl");
    reveal_strlit("exif");
    reveal_strlit("sockets");
    reveal_strlit("gettext");
    reveal_strlit("soap");
    reveal_strlit("xsl");
}

proof fn lemma_defaults_keep(c: Seq<char>, present: Seq<bool>, k: int)
    requires
        0 <= k <= 17,
        first_index(lines(c), sets_extension_dir()) is Some,
    ensures
        first_index(lines(with_defaults_upto(c, present, k)), sets_extension_dir()) is Some,
        forall|i: int|
            0 <= i < k && i < present.len() && present[i] ==> #[trigger] first_index(
                lines(with_defaults_upto(c, present, k)),
                loads_extension(php_default_extensions()[i]),
            ) is Some,
    decreases k,
{
    if k > 0 {
        lemma_defaults_keep(c, present, k - 1);
        lemma_default_names();
        let x = with_defaults_upto(c, present, k - 1);
        if k - 1 < present.len() && present[k - 1] {
            let name = php_default_extensions()[k - 1];
            lemma_plain_name_unquoted(name);
            assert(with_defaults_upto(c, present, k) == spec_enable_extension(x, name));
            lemma_sets_ext_dir_active();
            lemma_enable_keeps(x, name, sets_extension_dir());
            lemma_enable_extension_loads(x, name);
            assert forall|i: int|
                0 <= i < k && i < present.len() && present[i] implies #[trigger] first_index(
                lines(with_defaults_upto(c, present, k)),
                loads_extension(php_default_extensions()[i]),
            ) is Some by {
                if i < k - 1 {
                    lemma_loads_active(php_default_extensions()[i]);
                    lemma_enable_keeps(x, name, loads_extension(php_default_extensions()[i]));
                }
            }
        } else {
            assert(with_defaults_upto(c, present, k) == x);
        }
    }
}

/// Giving a `php.ini` the default configuration (`extension_dir` and the
/// default extensions whose DLL is present) a second time changes nothing.
pub proof fn defaults_twice_is_defaults_once(content: Seq<char>, present: Seq<bool>)
    ensures
        spec_php_ini_with_defaults(spec_php_ini_with_defaults(content, present), present)
            == spec_php_ini_with_defaults(content, present),
{
    let c1 = if first_index(lines(content), sets_extension_dir()) is Some {
        content
    } else {
        spec_enable_extension_dir(content)
    };
    if first_index(lines(content), sets_extension_dir()) is None {
        lemma_enable_extension_dir_sets(content);
    }
    lemma_default_names();
    lemma_defaults_keep(c1, present, 17);
    let f = spec_php_ini_with_defaults(content, present);
    assert(f == with_defaults_upto(c1, present, 17));
    assert(loads_present_defaults(f, present));
    configured_ini_is_left_alone(f, present);
}

/// A `;key = value` line read with or without a final `\r`.
proof fn lemma_commented_value_strip_cr(x: Seq<char>, key: Seq<char>)
    requires
        x.len() > 0,
        x.last() == '\r',
    ensures
        commented_value(x.drop_last(), key) is Some == commented_value(x, key) is Some,
{
    let y = x.drop_last();
    lemma_strip_cr_trims(x);
    lemma_lead_ws(x);
    if lead_ws(x) < x.len() {
        let t = trim_start(x);
        let ty = trim_start(y);
        assert(ty == t.drop_last());
        assert(t.len() >= 2) by {
            assert(!is_ws(t[0]));
            assert(is_ws('\r'));
        }
        assert(ty[0] == t[0]);
        let w = t.drop_first();
        assert(ty.drop_first() =~= w.drop_last());
        assert(w.last() == '\r');
        lemma_strip_cr_trims(w);
        lemma_lead_ws(w);
        if lead_ws(w) < w.len() {
            let u = trim_start(w);
            assert(u.last() == '\r');
            lemma_value_for_strip_cr(u, key);
        } else {
            assert(trim_start(w) =~= Seq::<char>::empty());
            assert(trim_start(w.drop_last()) =~= Seq::<char>::empty());
        }
    } else {
        assert(trim_start(x) =~= Seq::<char>::empty());
        assert(trim_start(y) =~= Seq::<char>::empty());
    }
}

/// Whether a line names a directive does not depend on a final `\r`.
proof fn lemma_names_strip_cr(x: Seq<char>, key: Seq<char>)
    ensures
        names_directive(key)(strip_cr(x)) == names_directive(key)(x),
{
    if x.len() > 0 && x.last() == '\r' {
        lemma_active_value_strip_cr(x, key);
        lemma_commented_value_strip_cr(x, key);
    }
}

/// An active line for `key` that already holds `value`.
pub open spec fn holds_value(key: Seq<char>, value: Seq<char>) -> spec_fn(Seq<char>) -> bool {
    |l: Seq<char>|
        match active_value(l, key) {
            Some(v) => unquote(v) == value,
            None => false,
        }
}

proof fn lemma_holds_strip_cr(x: Seq<char>, key: Seq<char>, value: Seq<char>)
    ensures
        holds_value(key, value)(strip_cr(x)) == holds_value(key, value)(x),
{
    if x.len() > 0 && x.last() == '\r' {
        lemma_active_value_strip_cr(x, key);
        match active_value(x, key) {
            Some(v) => {
                lemma_strip_cr_trims(v);
                assert(unquote(v.drop_last()) == unquote(v));
            },
            None => {},
        }
    }
}

/// The written line `key = "value"` reads back as `value`, on one line.
pub open spec fn reads_back(key: Seq<char>, value: Seq<char>) -> bool {
    &&& holds_value(key, value)(directive_line(key, value))
    &&& lacks(key, '\n')
    &&& lacks(value, '\n')
}

proof fn lemma_directive_line_shape(key: Seq<char>, value: Seq<char>)
    requires
        lacks(key, '\n'),
        lacks(value, '\n'),
    ensures
        lacks(directive_line(key, value), '\n'),
        directive_line(key, value).len() > 0,
        directive_line(key, value).last() == '"',
{
    reveal_strlit(" = \"");
    reveal_strlit("\"");
    let d = directive_line(key, value);
    assert forall|k: int| 0 <= k < d.len() implies d[k] != '\n' by {
        if k < key.len() {
            assert(d[k] == key[k]);
        } else if k < key.len() + 4 {
        } else if k < key.len() + 4 + value.len() {
            assert(d[k] == value[k - key.len() - 4]);
        }
    }
}

proof fn lemma_set_line_holds(line: Seq<char>, key: Seq<char>, value: Seq<char>)
    requires
        reads_back(key, value),
        lacks(line, '\n'),
    ensures
        holds_value(key, value)(set_line(line, key, value)),
        lacks(set_line(line, key, value), '\n'),
{
    lemma_directive_line_shape(key, value);
}

/// The lines for `key` that are active (not commented out).
proof fn lemma_sets_strip_cr(x: Seq<char>, key: Seq<char>)
    ensures
        sets_directive(key)(strip_cr(x)) == sets_directive(key)(x),
{
    if x.len() > 0 && x.last() == '\r' {
        lemma_active_value_strip_cr(x, key);
    }
}

/// After line `i` is replaced by `s` (an active line that holds the value),
/// where no earlier line is active for `key`, the text's first active line
/// for `key` is `i`, and it holds the value.
proof fn lemma_replaced_first(content: Seq<char>, key: Seq<char>, value: Seq<char>, i: int, s: Seq<char>)
    requires
        0 <= i < lines(content).len(),
        forall|j: int| 0 <= j < i ==> !sets_directive(key)(#[trigger] lines(content)[j]),
        holds_value(key, value)(s),
        lacks(s, '\n'),
    ensures
        first_index(lines(join_lines(lines(content).update(i, s))), sets_directive(key)) == Some(i),
        holds_value(key, value)(lines(join_lines(lines(content).update(i, s)))[i]),
{
    let ls = lines(content);
    let act = sets_directive(key);
    let hv = holds_value(key, value);
    lemma_lines_lack_newline(content);
    let l2 = ls.update(i, s);
    assert forall|k: int| 0 <= k < l2.len() implies lacks(#[trigger] l2[k], '\n') by {
        if k != i {
            assert(l2[k] == ls[k]);
        }
    }
    lemma_split_join(l2);
    let ly = lines(join_lines(l2));
    assert forall|j: int| 0 <= j < i implies !act(#[trigger] ly[j]) by {
        assert(ly[j] == strip_cr(ls[j]));
        assert(!act(ls[j]));
        lemma_sets_strip_cr(ls[j], key);
    }
    if i < l2.len() - 1 {
        assert(ly[i] == strip_cr(s));
        lemma_holds_strip_cr(s, key, value);
    } else {
        assert(ly[i] == s);
    }
    assert(hv(ly[i]));
    assert(act(ly[i]));
    lemma_first_index(ly, act, i);
}

/// After the first set, the first active line for `key` is `i` and holds
/// the value, so setting it again only joins the lines.
proof fn lemma_second_set(y: Seq<char>, key: Seq<char>, value: Seq<char>, i: int)
    requires
        first_index(lines(y), sets_directive(key)) == Some(i),
        holds_value(key, value)(lines(y)[i]),
    ensures
        spec_set_ini_directive(y, key, value) == join_lines(lines(y)),
{
    let ly = lines(y);
    lemma_first_index_found(ly, sets_directive(key));
    assert(set_line(ly[i], key, value) == ly[i]);
    assert(ly.update(i, ly[i]) =~= ly);
}

/// Where the text has an active line for the directive: after setting it,
/// that line holds the value, so setting it again only joins the lines.
proof fn lemma_set_active_twice(content: Seq<char>, key: Seq<char>, value: Seq<char>)
    requires
        reads_back(key, value),
        first_index(lines(content), sets_directive(key)) is Some,
    ensures
        spec_set_ini_directive(spec_set_ini_directive(content, key, value), key, value)
            == join_lines(lines(spec_set_ini_directive(content, key, value))),
{
    let ls = lines(content);
    let act = sets_directive(key);
    lemma_first_index_found(ls, act);
    let i = first_index(ls, act)->0;
    lemma_lines_lack_newline(content);
    let s = set_line(ls[i], key, value);
    lemma_set_line_holds(ls[i], key, value);
    lemma_replaced_first(content, key, value, i, s);
    let y = spec_set_ini_directive(content, key, value);
    assert(y == join_lines(ls.update(i, s)));
    lemma_second_set(y, key, value, i);
}

/// Where the text has only a commented-out line for the directive: that
/// line becomes `key = "value"`, the first active one, so setting it again
/// only joins the lines.
proof fn lemma_set_commented_twice(content: Seq<char>, key: Seq<char>, value: Seq<char>)
    requires
        reads_back(key, value),
        first_index(lines(content), sets_directive(key)) is None,
        first_index(lines(content), names_directive(key)) is Some,
    ensures
        spec_set_ini_directive(spec_set_ini_directive(content, key, value), key, value)
            == join_lines(lines(spec_set_ini_directive(content, key, value))),
{
    let ls = lines(content);
    let act = sets_directive(key);
    lemma_first_index_found(ls, names_directive(key));
    let i = first_index(ls, names_directive(key))->0;
    lemma_first_index_found(ls, act);
    let d = directive_line(key, value);
    lemma_directive_line_shape(key, value);
    lemma_replaced_first(content, key, value, i, d);
    let y = spec_set_ini_directive(content, key, value);
    assert(y == join_lines(ls.update(i, d)));
    lemma_second_set(y, key, value, i);
}

/// The note line above an appended directive names no directive.
proof fn lemma_note_shape()
    ensures
        injected_note().len() >= 2,
        injected_note()[0] == '\n',
        injected_note().last() == '\n',
        lacks(injected_note().subrange(1, injected_note().len() - 1), '\n'),
        lacks(injected_note().subrange(1, injected_note().len() - 1), '='),
        injected_note()[1] == ';',
        injected_note()[injected_note().len() - 2] == 'A',
{
    reveal_strlit("\n; ↓ NaxOne 注入：让 PHP curl / OpenSSL 信任本地 dev CA\n");
}

proof fn lemma_no_equals_names_nothing(l: Seq<char>, key: Seq<char>)
    requires
        lacks(l, '='),
    ensures
        !names_directive(key)(l),
{
    let t = trim_start(l);
    lemma_lead_ws(l);
    assert(lacks(t, '=')) by {
        assert forall|k: int| 0 <= k < t.len() implies t[k] != '=' by {
            assert(t[k] == l[k + lead_ws(l)]);
        }
    }
    assert(index_of(t, '=') is None);
    if t.len() > 0 && t[0] == ';' {
        let w = trim_start(t.drop_first());
        lemma_lead_ws(t.drop_first());
        assert(lacks(w, '=')) by {
            assert forall|k: int| 0 <= k < w.len() implies w[k] != '=' by {
                assert(w[k] == t.drop_first()[k + lead_ws(t.drop_first())]);
            }
        }
        assert(index_of(w, '=') is None);
    }
}

/// Pieces joined by line breaks, with a final line break, split into the
/// pieces and an empty one.
proof fn lemma_split_join_newline(ps: Seq<Seq<char>>)
    requires
        ps.len() > 0,
        forall|i: int| 0 <= i < ps.len() ==> lacks(#[trigger] ps[i], '\n'),
    ensures
        split_on(join_lines(ps) + seq!['\n'], '\n') == ps.push(Seq::<char>::empty()),
{
    lemma_split_join(ps);
    let j = join_lines(ps);
    assert((j + seq!['\n']).drop_last() =~= j);
}

/// Where the text does not name the directive: the appended line is the
/// first to name it and holds the value, so setting it again only joins
/// the lines.
#[verifier::rlimit(40)]
proof fn lemma_set_unnamed_twice(content: Seq<char>, key: Seq<char>, value: Seq<char>)
    requires
        reads_back(key, value),
        first_index(lines(content), sets_directive(key)) is None,
        first_index(lines(content), names_directive(key)) is None,
    ensures
        spec_set_ini_directive(spec_set_ini_directive(content, key, value), key, value)
            == join_lines(lines(spec_set_ini_directive(content, key, value))),
{
    let nd = names_directive(key);
    let hv = holds_value(key, value);
    let d = directive_line(key, value);
    lemma_directive_line_shape(key, value);
    lemma_note_shape();
    let note = injected_note();
    let nl = note.subrange(1, note.len() - 1);
    assert(note =~= seq!['\n'] + nl + seq!['\n']);
    let sep = separator_after(content);
    let y = spec_set_ini_directive(content, key, value);
    let empty = Seq::<char>::empty();
    let ps: Seq<Seq<char>> = if sep.len() == 0 {
        seq![empty, nl, d]
    } else {
        seq![empty, empty, nl, d]
    };
    assert(forall|i: int| 0 <= i < ps.len() ==> lacks(#[trigger] ps[i], '\n'));
    let r = sep + note + d + seq!['\n'];
    assert(join_lines(ps) + seq!['\n'] =~= r) by {
        if sep.len() == 0 {
            assert(join_lines(seq![empty]) == empty);
            assert(seq![empty, nl].drop_last() =~= seq![empty]);
            assert(join_lines(seq![empty, nl]) =~= seq!['\n'] + nl);
            assert(ps.drop_last() =~= seq![empty, nl]);
        } else {
            assert(join_lines(seq![empty]) == empty);
            assert(seq![empty, empty].drop_last() =~= seq![empty]);
            assert(join_lines(seq![empty, empty]) =~= seq!['\n']);
            assert(seq![empty, empty, nl].drop_last() =~= seq![empty, empty]);
            assert(join_lines(seq![empty, empty, nl]) =~= seq!['\n', '\n'] + nl);
            assert(ps.drop_last() =~= seq![empty, empty, nl]);
        }
    }
    lemma_split_join_newline(ps);
    assert(y =~= content + r);
    lemma_split_concat(content, r, '\n');
    lemma_split_on_len(content, '\n');
    let sc = split_on(content, '\n');
    let sy = split_on(y, '\n');
    assert(sc.last() + empty =~= sc.last());
    assert(sy =~= sc + ps.skip(1).push(empty));
    let ly = lines(y);
    assert(ly =~= (sc + ps.skip(1)).map_values(|x: Seq<char>| strip_cr(x)));
    let m = sc.len() + ps.len() - 2;
    assert(ly[m] == strip_cr(d));
    assert(strip_cr(d) == d);
    assert(hv(d));
    lemma_active_line_shape(d, key);
    assert(nd(d));
    let lc = lines(content);
    lemma_first_index_found(lc, nd);
    lemma_no_equals_names_nothing(nl, key);
    lemma_no_equals_names_nothing(empty, key);
    assert forall|j: int| 0 <= j < m implies !nd(#[trigger] ly[j]) by {
        if j < sc.len() {
            assert(ly[j] == strip_cr(sc[j]));
            lemma_names_strip_cr(sc[j], key);
            if j < sc.len() - 1 {
                assert(lc[j] == strip_cr(sc[j]));
            } else if sc[j].len() > 0 {
                assert(lc[j] == sc[j]);
            } else {
                assert(sc[j] =~= empty);
            }
        } else {
            assert(ly[j] == strip_cr(ps[j - sc.len() + 1]));
            assert(ps[j - sc.len() + 1] == nl || ps[j - sc.len() + 1] == empty);
            assert(nl.last() == note[note.len() - 2]);
            assert(strip_cr(nl) == nl);
            assert(strip_cr(empty) == empty);
        }
    }
    let act = sets_directive(key);
    assert forall|j: int| 0 <= j < m implies !act(#[trigger] ly[j]) by {
        assert(!nd(ly[j]));
    }
    lemma_first_index(ly, act, m);
    lemma_second_set(y, key, value, m);
}

/// Setting a directive a second time changes nothing but line breaks: it
/// gives the lines of the first result joined by `\n` (so a first result
/// without a final line break, or `\r`, stays as it is). This holds where
/// the written line `key = "value"` reads back as the value.
pub proof fn set_directive_twice(content: Seq<char>, key: Seq<char>, value: Seq<char>)
    requires
        reads_back(key, value),
    ensures
        spec_set_ini_directive(spec_set_ini_directive(content, key, value), key, value)
            == join_lines(lines(spec_set_ini_directive(content, key, value))),
{
    if first_index(lines(content), sets_directive(key)) is Some {
        lemma_set_active_twice(content, key, value);
    } else if first_index(lines(content), names_directive(key)) is Some {
        lemma_set_commented_twice(content, key, value);
    } else {
        lemma_set_unnamed_twice(content, key, value);
    }
}

} // verus!
