//! Ordering of dotted version strings.
use std::cmp::Ordering;
use vstd::prelude::*;

use crate::text::{
    chars_of, lemma_subrange_whole, parse_unsigned, spec_parse_unsigned, split_chars, split_on,
};
use crate::tool_detect::{views, MysqlInstall};
use crate::version_nums::{numbers_of, version_numbers};

verus! {

/// Lexicographic order of number sequences (a proper prefix comes first).
pub open spec fn lex_order(a: Seq<u32>, b: Seq<u32>) -> Ordering
    decreases a.len(),
{
    if a.len() == 0 && b.len() == 0 {
        Ordering::Equal
    } else if a.len() == 0 {
        Ordering::Less
    } else if b.len() == 0 {
        Ordering::Greater
    } else if a[0] < b[0] {
        Ordering::Less
    } else if a[0] > b[0] {
        Ordering::Greater
    } else {
        lex_order(a.drop_first(), b.drop_first())
    }
}

fn lex_compare(a: &Vec<u32>, b: &Vec<u32>) -> (r: Ordering)
    ensures
        r == lex_order(a@, b@),
{
    let mut i: usize = 0;
    let ghost mut gi: int = 0;
    assert(a@.skip(0) =~= a@ && b@.skip(0) =~= b@);
    while i < a.len() && i < b.len() && a[i] == b[i]
        invariant
            gi == i,
            i <= a.len(),
            i <= b.len(),
            lex_order(a@, b@) == lex_order(a@.skip(gi), b@.skip(gi)),
        decreases a.len() - i,
    {
        assert(a@.skip(gi).drop_first() =~= a@.skip(gi + 1));
        assert(b@.skip(gi).drop_first() =~= b@.skip(gi + 1));
        i = i + 1;
        proof {
            gi = gi + 1;
        }
    }
    if i == a.len() && i == b.len() {
        Ordering::Equal
    } else if i == a.len() {
        Ordering::Less
    } else if i == b.len() {
        Ordering::Greater
    } else if a[i] < b[i] {
        Ordering::Less
    } else {
        Ordering::Greater
    }
}

/// Compares two dotted versions by their numeric parts; parts that are not
/// numbers are left out of the comparison.
pub fn cmp_semver(a: &str, b: &str) -> (r: Ordering)
    ensures
        r == lex_order(version_numbers(a@), version_numbers(b@)),
{
    let pa = numbers_of(a);
    let pb = numbers_of(b);
    lex_compare(&pa, &pb)
}

/// Index before which `x` goes in the newest-first list `t`: after every
/// version that is not older than it.
pub open spec fn desc_slot(t: Seq<Seq<char>>, x: Seq<char>) -> int
    decreases t.len(),
{
    if t.len() == 0 {
        0
    } else if lex_order(version_numbers(x), version_numbers(t[0])) == Ordering::Greater {
        0
    } else {
        1 + desc_slot(t.drop_first(), x)
    }
}

/// Stable sort, newest version first.
pub open spec fn sort_desc(s: Seq<Seq<char>>) -> Seq<Seq<char>>
    decreases s.len(),
{
    if s.len() == 0 {
        s
    } else {
        let t = sort_desc(s.drop_last());
        let k = desc_slot(t, s.last());
        t.take(k) + seq![s.last()] + t.skip(k)
    }
}

/// Sorts version strings newest first (equal versions keep their order).
pub fn sort_versions_desc(versions: Vec<String>) -> (out: Vec<String>)
    ensures
        views(out@) == sort_desc(views(versions@)),
{
    let mut out: Vec<String> = Vec::new();
    let mut i: usize = 0;
    let ghost mut gi: int = 0;
    while i < versions.len()
        invariant
            gi == i,
            i <= versions.len(),
            views(out@) == sort_desc(views(versions@).take(gi)),
        decreases versions.len() - i,
    {
        let x = versions[i].clone();
        let ghost t = views(out@);
        let mut k: usize = 0;
        let ghost mut gk: int = 0;
        assert(t.skip(0) =~= t);
        while k < out.len()
            invariant
                gk == k,
                k <= out.len(),
                t == views(out@),
                desc_slot(t, x@) == gk + desc_slot(t.skip(gk), x@),
            ensures
                k == out.len() || lex_order(version_numbers(x@), version_numbers(t[gk]))
                    == Ordering::Greater,
            decreases out.len() - k,
        {
            match cmp_semver(x.as_str(), out[k].as_str()) {
                Ordering::Greater => break,
                _ => {},
            }
            assert(t.skip(gk)[0] == t[gk]);
            assert(t.skip(gk).drop_first() =~= t.skip(gk + 1));
            k = k + 1;
            proof {
                gk = gk + 1;
            }
        }
        proof {
            if k < out.len() {
                assert(t.skip(gk)[0] == t[gk]);
            }
            assert(views(versions@).take(gi + 1).drop_last() =~= views(versions@).take(gi));
            assert(views(versions@).take(gi + 1).last() == x@);
        }
        out.insert(k, x);
        proof {
            assert(views(out@) =~= t.take(gk) + seq![x@] + t.skip(gk));
        }
        i = i + 1;
        proof {
            gi = gi + 1;
        }
    }
    assert(views(versions@).take(gi) =~= views(versions@));
    out
}

pub open spec fn mysql_keys(v: Seq<MysqlInstall>) -> Seq<Seq<char>> {
    v.map_values(|m: MysqlInstall| m.version@)
}

/// Sorts MySQL installs newest version first (equal versions keep their order).
pub fn sort_mysql_desc(installs: Vec<MysqlInstall>) -> (out: Vec<MysqlInstall>)
    ensures
        mysql_keys(out@) == sort_desc(mysql_keys(installs@)),
{
    let ghost keys = mysql_keys(installs@);
    let ghost all = installs@;
    let mut rest = installs;
    let mut out: Vec<MysqlInstall> = Vec::new();
    let n = rest.len();
    let mut i: usize = 0;
    let ghost mut gi: int = 0;
    while i < n
        invariant
            gi == i,
            i <= n,
            n == all.len(),
            keys == mysql_keys(all),
            rest@ == all.skip(gi),
            mysql_keys(out@) == sort_desc(keys.take(gi)),
        decreases n - i,
    {
        let x = rest.remove(0);
        assert(x == all[gi]);
        assert(rest@ =~= all.skip(gi + 1));
        let ghost t = mysql_keys(out@);
        let mut k: usize = 0;
        let ghost mut gk: int = 0;
        assert(t.skip(0) =~= t);
        while k < out.len()
            invariant
                gk == k,
                k <= out.len(),
                t == mysql_keys(out@),
                desc_slot(t, x.version@) == gk + desc_slot(t.skip(gk), x.version@),
            ensures
                k == out.len() || lex_order(version_numbers(x.version@), version_numbers(t[gk]))
                    == Ordering::Greater,
            decreases out.len() - k,
        {
            match cmp_semver(x.version.as_str(), out[k].version.as_str()) {
                Ordering::Greater => break,
                _ => {},
            }
            assert(t.skip(gk)[0] == t[gk]);
            assert(t.skip(gk).drop_first() =~= t.skip(gk + 1));
            k = k + 1;
            proof {
                gk = gk + 1;
            }
        }
        proof {
            if k < out.len() {
                assert(t.skip(gk)[0] == t[gk]);
            }
            assert(keys.take(gi + 1).drop_last() =~= keys.take(gi));
            assert(keys.take(gi + 1).last() == x.version@);
        }
        let ghost xv = x.version@;
        out.insert(k, x);
        proof {
            assert(mysql_keys(out@) =~= t.take(gk) + seq![xv] + t.skip(gk));
        }
        i = i + 1;
        proof {
            gi = gi + 1;
        }
    }
    assert(keys.take(gi) =~= keys);
    out
}

/// `Ord` of strings: code point by code point, a proper prefix first.
pub open spec fn str_order(a: Seq<char>, b: Seq<char>) -> Ordering
    decreases a.len(),
{
    if a.len() == 0 && b.len() == 0 {
        Ordering::Equal
    } else if a.len() == 0 {
        Ordering::Less
    } else if b.len() == 0 {
        Ordering::Greater
    } else if a[0] < b[0] {
        Ordering::Less
    } else if a[0] > b[0] {
        Ordering::Greater
    } else {
        str_order(a.drop_first(), b.drop_first())
    }
}

/// The order in which the package list shows two versions: part by part,
/// the larger number first; where a part is not a `u32` on either side, the
/// larger string first; a version with more parts before its prefix.
pub open spec fn desc_order(a: Seq<Seq<char>>, b: Seq<Seq<char>>) -> Ordering
    decreases a.len(),
{
    if a.len() == 0 && b.len() == 0 {
        Ordering::Equal
    } else if b.len() == 0 {
        Ordering::Less
    } else if a.len() == 0 {
        Ordering::Greater
    } else {
        match (spec_parse_unsigned(a[0], 0xffff_ffff), spec_parse_unsigned(b[0], 0xffff_ffff)) {
            (Some(x), Some(y)) => if x > y {
                Ordering::Less
            } else if x < y {
                Ordering::Greater
            } else {
                desc_order(a.drop_first(), b.drop_first())
            },
            _ => if str_order(b[0], a[0]) != Ordering::Equal {
                str_order(b[0], a[0])
            } else {
                desc_order(a.drop_first(), b.drop_first())
            },
        }
    }
}

fn str_compare(a: &Vec<char>, b: &Vec<char>) -> (r: Ordering)
    ensures
        r == str_order(a@, b@),
{
    let mut i: usize = 0;
    let ghost mut gi: int = 0;
    assert(a@.skip(0) =~= a@ && b@.skip(0) =~= b@);
    while i < a.len() && i < b.len() && a[i] == b[i]
        invariant
            gi == i,
            i <= a.len(),
            i <= b.len(),
            str_order(a@, b@) == str_order(a@.skip(gi), b@.skip(gi)),
        decreases a.len() - i,
    {
        assert(a@.skip(gi).drop_first() =~= a@.skip(gi + 1));
        assert(b@.skip(gi).drop_first() =~= b@.skip(gi + 1));
        i = i + 1;
        proof {
            gi = gi + 1;
        }
    }
    if i == a.len() && i == b.len() {
        Ordering::Equal
    } else if i == a.len() {
        Ordering::Less
    } else if i == b.len() {
        Ordering::Greater
    } else if a[i] < b[i] {
        Ordering::Less
    } else {
        Ordering::Greater
    }
}

/// Compares two versions for a newest-first list (see `desc_order`).
pub fn semver_cmp_desc(a: &str, b: &str) -> (r: Ordering)
    ensures
        r == desc_order(split_on(a@, '.'), split_on(b@, '.')),
{
    let va = chars_of(a);
    let vb = chars_of(b);
    let pa = split_chars(va.as_slice(), '.');
    let pb = split_chars(vb.as_slice(), '.');
    let ghost sa = split_on(a@, '.');
    let ghost sb = split_on(b@, '.');
    let mut i: usize = 0;
    let ghost mut gi: int = 0;
    assert(sa.skip(0) =~= sa && sb.skip(0) =~= sb);
    while i < pa.len() || i < pb.len()
        invariant
            gi == i,
            sa == split_on(a@, '.'),
            sb == split_on(b@, '.'),
            pa@.map_values(|x: Vec<char>| x@) == sa,
            pb@.map_values(|x: Vec<char>| x@) == sb,
            i <= pa.len(),
            i <= pb.len(),
            desc_order(sa, sb) == desc_order(sa.skip(gi), sb.skip(gi)),
        decreases pa.len() - i,
    {
        if i >= pb.len() {
            assert(sb.skip(gi).len() == 0 && sa.skip(gi).len() > 0);
            return Ordering::Less;
        }
        if i >= pa.len() {
            assert(sa.skip(gi).len() == 0 && sb.skip(gi).len() > 0);
            return Ordering::Greater;
        }
        let x = &pa[i];
        let y = &pb[i];
        assert(x@ == sa[gi] && y@ == sb[gi]);
        assert(sa.skip(gi)[0] == sa[gi] && sb.skip(gi)[0] == sb[gi]);
        assert(sa.skip(gi).drop_first() =~= sa.skip(gi + 1));
        assert(sb.skip(gi).drop_first() =~= sb.skip(gi + 1));
        proof {
            lemma_subrange_whole(x@);
            lemma_subrange_whole(y@);
        }
        let xn = parse_unsigned(x.as_slice(), 0, x.len(), 0xffff_ffff);
        let yn = parse_unsigned(y.as_slice(), 0, y.len(), 0xffff_ffff);
        match (xn, yn) {
            (Some(p), Some(q)) => {
                if p > q {
                    return Ordering::Less;
                } else if p < q {
                    return Ordering::Greater;
                }
            },
            _ => {
                match str_compare(y, x) {
                    Ordering::Less => return Ordering::Less,
                    Ordering::Greater => return Ordering::Greater,
                    Ordering::Equal => {},
                }
            },
        }
        i = i + 1;
        proof {
            gi = gi + 1;
        }
    }
    assert(sa.skip(gi).len() == 0 && sb.skip(gi).len() == 0);
    Ordering::Equal
}


/// Comparing the other way round gives the opposite answer.
pub proof fn lex_order_antisymmetric(a: Seq<u32>, b: Seq<u32>)
    ensures
        lex_order(a, b) == Ordering::Less <==> lex_order(b, a) == Ordering::Greater,
        lex_order(a, b) == Ordering::Equal <==> lex_order(b, a) == Ordering::Equal,
        lex_order(a, b) == Ordering::Equal <==> a == b,
    decreases a.len(),
{
    if a.len() > 0 && b.len() > 0 && a[0] == b[0] {
        lex_order_antisymmetric(a.drop_first(), b.drop_first());
        if a.drop_first() == b.drop_first() {
            assert(a =~= seq![a[0]] + a.drop_first());
            assert(b =~= seq![b[0]] + b.drop_first());
        }
    }
    if a.len() == 0 && b.len() == 0 {
        assert(a =~= b);
    }
}

/// Order by numeric parts is transitive.
pub proof fn lex_order_transitive(a: Seq<u32>, b: Seq<u32>, c: Seq<u32>)
    requires
        lex_order(a, b) != Ordering::Greater,
        lex_order(b, c) != Ordering::Greater,
    ensures
        lex_order(a, c) != Ordering::Greater,
        lex_order(a, b) == Ordering::Less || lex_order(b, c) == Ordering::Less ==> lex_order(a, c)
            == Ordering::Less,
    decreases a.len(),
{
    if a.len() > 0 && b.len() > 0 && c.len() > 0 && a[0] == b[0] && b[0] == c[0] {
        lex_order_transitive(a.drop_first(), b.drop_first(), c.drop_first());
    }
}

/// Two dotted versions compare the opposite way round in `cmp_semver`.
pub proof fn cmp_semver_antisymmetric(a: Seq<char>, b: Seq<char>)
    ensures
        lex_order(version_numbers(a), version_numbers(b)) == Ordering::Less <==> lex_order(
            version_numbers(b),
            version_numbers(a),
        ) == Ordering::Greater,
{
    lex_order_antisymmetric(version_numbers(a), version_numbers(b));
}

/// Newest first: no version in `s` is older than one after it.
pub open spec fn newest_first(s: Seq<Seq<char>>) -> bool {
    forall|i: int, j: int|
        0 <= i < j < s.len() ==> lex_order(version_numbers(#[trigger] s[i]), version_numbers(
            #[trigger] s[j],
        )) != Ordering::Less
}

proof fn lemma_desc_slot(t: Seq<Seq<char>>, x: Seq<char>)
    requires
        newest_first(t),
    ensures
        0 <= desc_slot(t, x) <= t.len(),
        forall|j: int|
            0 <= j < desc_slot(t, x) ==> lex_order(version_numbers(#[trigger] t[j]), version_numbers(x))
                != Ordering::Less,
        forall|j: int|
            desc_slot(t, x) <= j < t.len() ==> lex_order(version_numbers(x), version_numbers(#[trigger] t[j]))
                == Ordering::Greater,
    decreases t.len(),
{
    if t.len() == 0 {
    } else if lex_order(version_numbers(x), version_numbers(t[0])) == Ordering::Greater {
        assert forall|j: int| 0 <= j < t.len() implies lex_order(
            version_numbers(x),
            version_numbers(#[trigger] t[j]),
        ) == Ordering::Greater by {
            if j > 0 {
                assert(lex_order(version_numbers(t[0]), version_numbers(t[j])) != Ordering::Less);
                lex_order_antisymmetric(version_numbers(t[0]), version_numbers(t[j]));
                lex_order_antisymmetric(version_numbers(x), version_numbers(t[0]));
                lex_order_transitive(version_numbers(t[j]), version_numbers(t[0]), version_numbers(x));
                lex_order_antisymmetric(version_numbers(t[j]), version_numbers(x));
            }
        }
    } else {
        let r = t.drop_first();
        assert forall|i: int, j: int| 0 <= i < j < r.len() implies lex_order(
            version_numbers(#[trigger] r[i]),
            version_numbers(#[trigger] r[j]),
        ) != Ordering::Less by {
            assert(r[i] == t[i + 1] && r[j] == t[j + 1]);
        }
        lemma_desc_slot(r, x);
        assert forall|j: int| 0 <= j < desc_slot(t, x) implies lex_order(
            version_numbers(#[trigger] t[j]),
            version_numbers(x),
        ) != Ordering::Less by {
            if j == 0 {
                lex_order_antisymmetric(version_numbers(x), version_numbers(t[0]));
            } else {
                assert(t[j] == r[j - 1]);
            }
        }
        assert forall|j: int| desc_slot(t, x) <= j < t.len() implies lex_order(
            version_numbers(x),
            version_numbers(#[trigger] t[j]),
        ) == Ordering::Greater by {
            assert(t[j] == r[j - 1]);
        }
    }
}

/// `sort_desc` puts newer versions before older ones.
pub proof fn sort_desc_newest_first(s: Seq<Seq<char>>)
    ensures
        newest_first(sort_desc(s)),
        sort_desc(s).len() == s.len(),
    decreases s.len(),
{
    if s.len() > 0 {
        let t = sort_desc(s.drop_last());
        sort_desc_newest_first(s.drop_last());
        let x = s.last();
        lemma_desc_slot(t, x);
        let k = desc_slot(t, x);
        let u = t.take(k) + seq![x] + t.skip(k);
        assert(sort_desc(s) == u);
        assert forall|i: int, j: int| 0 <= i < j < u.len() implies lex_order(
            version_numbers(#[trigger] u[i]),
            version_numbers(#[trigger] u[j]),
        ) != Ordering::Less by {
            if j < k {
                assert(u[i] == t[i] && u[j] == t[j]);
            } else if j == k {
                assert(u[j] == x && u[i] == t[i]);
            } else if i == k {
                assert(u[i] == x && u[j] == t[j - 1]);
                lex_order_antisymmetric(version_numbers(x), version_numbers(t[j - 1]));
            } else if i < k {
                assert(u[i] == t[i] && u[j] == t[j - 1]);
            } else {
                assert(u[i] == t[i - 1] && u[j] == t[j - 1]);
            }
        }
    }
}

} // verus!
