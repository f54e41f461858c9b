//! Character-level text helpers shared by the parsers: whitespace, digits,
//! trimming, splitting, line breaking, decimal numbers.
use vstd::prelude::*;

verus! {

/// The characters of a string slice, in order.
pub fn chars_of(s: &str) -> (out: Vec<char>)
    ensures
        out@ == s@,
{
    let mut out: Vec<char> = Vec::new();
    for c in it: s.chars()
        invariant
            out@ == it.seq().take(it.index() as int),
    {
        out.push(c);
    }
    out
}

/// `String::push`: appends one character.
#[verifier::external_body]
pub(crate) fn push_char(s: &mut String, c: char)
    ensures
        final(s)@ == old(s)@.push(c),
{
    s.push(c);
}

/// A string holding exactly the given characters.
pub fn string_of(v: &[char]) -> (s: String)
    ensures
        s@ == v@,
{
    let mut s = String::new();
    let mut i: usize = 0;
    while i < v.len()
        invariant
            i <= v.len(),
            s@ == v@.take(i as int),
        decreases v.len() - i,
    {
        push_char(&mut s, v[i]);
        assert(v@.take(i + 1) =~= v@.take(i as int).push(v@[i as int]));
        i = i + 1;
    }
    assert(v@.take(v.len() as int) =~= v@);
    s
}

/// A string holding the characters of `s` from `start` (inclusive) to `end`.
pub fn string_of_range(v: &[char], start: usize, end: usize) -> (s: String)
    requires
        start <= end <= v.len(),
    ensures
        s@ == v@.subrange(start as int, end as int),
{
    let mut s = String::new();
    let mut i: usize = start;
    while i < end
        invariant
            start <= i <= end,
            end <= v.len(),
            s@ == v@.subrange(start as int, i as int),
        decreases end - i,
    {
        push_char(&mut s, v[i]);
        assert(v@.subrange(start as int, i + 1) =~= v@.subrange(start as int, i as int).push(
            v@[i as int],
        ));
        i = i + 1;
    }
    s
}

/// Unicode `White_Space`, the set `char::is_whitespace` tests.
pub open spec fn is_ws(c: char) -> bool {
    let u = c as u32;
    ||| (0x09 <= u && u <= 0x0D)
    ||| u == 0x20
    ||| u == 0x85
    ||| u == 0xA0
    ||| u == 0x1680
    ||| (0x2000 <= u && u <= 0x200A)
    ||| u == 0x2028
    ||| u == 0x2029
    ||| u == 0x202F
    ||| u == 0x205F
    ||| u == 0x3000
}

pub fn is_whitespace(c: char) -> (b: bool)
    ensures
        b == is_ws(c),
{
    let u = c as u32;
    (0x09 <= u && u <= 0x0D) || u == 0x20 || u == 0x85 || u == 0xA0 || u == 0x1680 || (0x2000 <= u
        && u <= 0x200A) || u == 0x2028 || u == 0x2029 || u == 0x202F || u == 0x205F || u == 0x3000
}

pub open spec fn is_digit(c: char) -> bool {
    '0' <= c && c <= '9'
}

/// Number of leading whitespace characters.
pub open spec fn lead_ws(s: Seq<char>) -> nat
    decreases s.len(),
{
    if s.len() > 0 && is_ws(s[0]) {
        1 + lead_ws(s.drop_first())
    } else {
        0
    }
}

/// Number of trailing whitespace characters.
pub open spec fn trail_ws(s: Seq<char>) -> nat
    decreases s.len(),
{
    if s.len() > 0 && is_ws(s.last()) {
        1 + trail_ws(s.drop_last())
    } else {
        0
    }
}

pub open spec fn trim_start(s: Seq<char>) -> Seq<char> {
    s.skip(lead_ws(s) as int)
}

pub open spec fn trim_end(s: Seq<char>) -> Seq<char> {
    s.take(s.len() - trail_ws(s))
}

/// `str::trim`: whitespace removed at both ends.
pub open spec fn trim(s: Seq<char>) -> Seq<char> {
    trim_end(trim_start(s))
}

pub proof fn lemma_lead_ws(s: Seq<char>)
    ensures
        lead_ws(s) <= s.len(),
        forall|i: int| 0 <= i < lead_ws(s) ==> is_ws(#[trigger] s[i]),
        lead_ws(s) < s.len() ==> !is_ws(s[lead_ws(s) as int]),
    decreases s.len(),
{
    if s.len() > 0 && is_ws(s[0]) {
        lemma_lead_ws(s.drop_first());
        assert forall|i: int| 0 <= i < lead_ws(s) implies is_ws(#[trigger] s[i]) by {
            if i > 0 {
                assert(s[i] == s.drop_first()[i - 1]);
            }
        }
    }
}

pub proof fn lemma_trail_ws(s: Seq<char>)
    ensures
        trail_ws(s) <= s.len(),
        forall|i: int| s.len() - trail_ws(s) <= i < s.len() ==> is_ws(#[trigger] s[i]),
        trail_ws(s) < s.len() ==> !is_ws(s[s.len() - trail_ws(s) - 1]),
    decreases s.len(),
{
    if s.len() > 0 && is_ws(s.last()) {
        lemma_trail_ws(s.drop_last());
        assert forall|i: int| s.len() - trail_ws(s) <= i < s.len() implies is_ws(#[trigger] s[i]) by {
            if i < s.len() - 1 {
                assert(s[i] == s.drop_last()[i]);
            }
        }
    }
}

/// `lead_ws` is the number of leading whitespace characters.
pub proof fn lemma_lead_ws_unique(s: Seq<char>, k: int)
    requires
        0 <= k <= s.len(),
        forall|i: int| 0 <= i < k ==> is_ws(#[trigger] s[i]),
        k < s.len() ==> !is_ws(s[k]),
    ensures
        lead_ws(s) == k,
    decreases s.len(),
{
    if k > 0 {
        assert(is_ws(s[0]));
        assert forall|i: int| 0 <= i < k - 1 implies is_ws(#[trigger] s.drop_first()[i]) by {
            assert(s.drop_first()[i] == s[i + 1]);
        }
        if k < s.len() {
            assert(s.drop_first()[k - 1] == s[k]);
        }
        lemma_lead_ws_unique(s.drop_first(), k - 1);
    } else if s.len() > 0 {
        assert(!is_ws(s[0]));
    }
}

pub proof fn lemma_trail_ws_unique(s: Seq<char>, k: int)
    requires
        0 <= k <= s.len(),
        forall|i: int| s.len() - k <= i < s.len() ==> is_ws(#[trigger] s[i]),
        k < s.len() ==> !is_ws(s[s.len() - k - 1]),
    ensures
        trail_ws(s) == k,
    decreases s.len(),
{
    if k > 0 {
        assert(is_ws(s[s.len() - 1]));
        assert forall|i: int| s.drop_last().len() - (k - 1) <= i < s.drop_last().len() implies is_ws(
            #[trigger] s.drop_last()[i],
        ) by {
            assert(s.drop_last()[i] == s[i]);
        }
        if k < s.len() {
            assert(s.drop_last()[s.drop_last().len() - (k - 1) - 1] == s[s.len() - k - 1]);
        }
        lemma_trail_ws_unique(s.drop_last(), k - 1);
    } else if s.len() > 0 {
        assert(!is_ws(s[s.len() - 1]));
    }
}

/// The bounds `[start, end)` of `s[from..to]` with whitespace trimmed on both sides.
pub fn trim_bounds(v: &[char], from: usize, to: usize) -> (r: (usize, usize))
    requires
        from <= to <= v.len(),
    ensures
        from <= r.0 <= r.1 <= to,
        v@.subrange(r.0 as int, r.1 as int) == trim(v@.subrange(from as int, to as int)),
        v@.subrange(r.0 as int, to as int) == trim_start(v@.subrange(from as int, to as int)),
{
    let ghost s = v@.subrange(from as int, to as int);
    let mut a: usize = from;
    while a < to && is_whitespace(v[a])
        invariant
            from <= a <= to,
            to <= v.len(),
            forall|i: int| from <= i < a ==> is_ws(#[trigger] v@[i]),
        decreases to - a,
    {
        a = a + 1;
    }
    proof {
        assert forall|i: int| 0 <= i < a - from implies is_ws(#[trigger] s[i]) by {
            assert(s[i] == v@[from + i]);
        }
        if a < to {
            assert(s[a - from] == v@[a as int]);
        }
        lemma_lead_ws_unique(s, a - from);
        assert(trim_start(s) =~= v@.subrange(a as int, to as int));
    }
    let ghost t = v@.subrange(a as int, to as int);
    let mut b: usize = to;
    while b > a && is_whitespace(v[b - 1])
        invariant
            a <= b <= to,
            to <= v.len(),
            forall|i: int| b <= i < to ==> is_ws(#[trigger] v@[i]),
        decreases b - a,
    {
        b = b - 1;
    }
    proof {
        assert forall|i: int| t.len() - (to - b) <= i < t.len() implies is_ws(#[trigger] t[i]) by {
            assert(t[i] == v@[a + i]);
        }
        if b > a {
            assert(t[t.len() - (to - b) - 1] == v@[b - 1]);
        }
        lemma_trail_ws_unique(t, to - b);
        assert(trim_end(t) =~= v@.subrange(a as int, b as int));
    }
    (a, b)
}

/// Decimal digits of `n`, most significant first (`"0"` for zero).
pub open spec fn spec_decimal(n: nat) -> Seq<char>
    decreases n,
{
    if n < 10 {
        seq![digit_char(n)]
    } else {
        spec_decimal(n / 10).push(digit_char(n % 10))
    }
}

pub open spec fn digit_char(d: nat) -> char {
    if d == 0 {
        '0'
    } else if d == 1 {
        '1'
    } else if d == 2 {
        '2'
    } else if d == 3 {
        '3'
    } else if d == 4 {
        '4'
    } else if d == 5 {
        '5'
    } else if d == 6 {
        '6'
    } else if d == 7 {
        '7'
    } else if d == 8 {
        '8'
    } else {
        '9'
    }
}

fn digit_to_char(d: u64) -> (c: char)
    requires
        d < 10,
    ensures
        c == digit_char(d as nat),
{
    if d == 0 {
        '0'
    } else if d == 1 {
        '1'
    } else if d == 2 {
        '2'
    } else if d == 3 {
        '3'
    } else if d == 4 {
        '4'
    } else if d == 5 {
        '5'
    } else if d == 6 {
        '6'
    } else if d == 7 {
        '7'
    } else if d == 8 {
        '8'
    } else {
        '9'
    }
}

/// Appends the decimal form of `n` (as `{}` prints an unsigned integer).
pub fn push_decimal(s: &mut String, n: u64)
    ensures
        final(s)@ == old(s)@ + spec_decimal(n as nat),
    decreases n,
{
    if n < 10 {
        push_char(s, digit_to_char(n));
        assert(old(s)@ + spec_decimal(n as nat) =~= old(s)@.push(digit_char(n as nat)));
    } else {
        push_decimal(s, n / 10);
        push_char(s, digit_to_char(n % 10));
        assert(old(s)@ + spec_decimal(n as nat) =~= (old(s)@ + spec_decimal((n / 10) as nat)).push(
            digit_char((n % 10) as nat),
        ));
    }
}

/// The numeric value of a digit character.
pub open spec fn digit_value(c: char) -> nat {
    ((c as u32) - ('0' as u32)) as nat
}

/// The value of a run of decimal digits.
pub open spec fn digits_value(s: Seq<char>) -> nat
    decreases s.len(),
{
    if s.len() == 0 {
        0
    } else {
        digits_value(s.drop_last()) * 10 + digit_value(s.last())
    }
}

pub open spec fn all_digits(s: Seq<char>) -> bool {
    forall|i: int| 0 <= i < s.len() ==> is_digit(#[trigger] s[i])
}

/// `str::parse` for an unsigned integer no larger than `max`: an optional
/// `+`, then one or more ASCII digits whose value fits.
pub open spec fn spec_parse_unsigned(s: Seq<char>, max: nat) -> Option<nat> {
    let d = if s.len() > 0 && s[0] == '+' {
        s.drop_first()
    } else {
        s
    };
    if d.len() > 0 && all_digits(d) && digits_value(d) <= max {
        Some(digits_value(d))
    } else {
        None
    }
}

proof fn lemma_digits_value_monotone(s: Seq<char>, t: Seq<char>)
    requires
        all_digits(s),
        all_digits(t),
        s.len() <= t.len(),
        s == t.take(s.len() as int),
    ensures
        digits_value(s) <= digits_value(t),
    decreases t.len(),
{
    if s.len() < t.len() {
        assert(t.drop_last().take(s.len() as int) =~= t.take(s.len() as int));
        assert(all_digits(t.drop_last())) by {
            assert forall|i: int| 0 <= i < t.drop_last().len() implies is_digit(
                #[trigger] t.drop_last()[i],
            ) by {
                assert(t.drop_last()[i] == t[i]);
            }
        }
        lemma_digits_value_monotone(s, t.drop_last());
    } else {
        assert(s =~= t);
    }
}

/// A sequence is its own subrange from the start to its length.
pub proof fn lemma_subrange_whole<T>(s: Seq<T>)
    ensures
        s.subrange(0, s.len() as int) == s,
{
    assert(s.subrange(0, s.len() as int) =~= s);
}

/// Parses `v[from..to]` as an unsigned integer no larger than `max`.
pub fn parse_unsigned(v: &[char], from: usize, to: usize, max: u64) -> (r: Option<u64>)
    requires
        from <= to <= v.len(),
    ensures
        match spec_parse_unsigned(v@.subrange(from as int, to as int), max as nat) {
            Some(n) => r == Some(n as u64),
            None => r is None,
        },
{
    let ghost s = v@.subrange(from as int, to as int);
    let mut start = from;
    if start < to && v[start] == '+' {
        start = start + 1;
    }
    let ghost d = v@.subrange(start as int, to as int);
    assert(d =~= if s.len() > 0 && s[0] == '+' {
        s.drop_first()
    } else {
        s
    });
    if start >= to {
        return None;
    }
    let mut value: u64 = 0;
    let mut i = start;
    while i < to
        invariant
            start <= i <= to,
            to <= v.len(),
            d == v@.subrange(start as int, to as int),
            from <= start,
            spec_parse_unsigned(v@.subrange(from as int, to as int), max as nat) == (if d.len() > 0
                && all_digits(d) && digits_value(d) <= max {
                Some(digits_value(d))
            } else {
                None
            }),
            value as nat == digits_value(v@.subrange(start as int, i as int)),
            all_digits(v@.subrange(start as int, i as int)),
            value <= max,
        decreases to - i,
    {
        let c = v[i];
        assert(v@.subrange(start as int, i + 1).drop_last() =~= v@.subrange(start as int, i as int));
        if !('0' <= c && c <= '9') {
            proof {
                assert(d[i - start] == c);
            }
            return None;
        }
        let digit = (c as u32 - '0' as u32) as u64;
        if digit > max || value > (max - digit) / 10 {
            proof {
                if digit <= max {
                    assert(value * 10 + digit > max) by (nonlinear_arith)
                        requires
                            value > (max - digit) / 10,
                            max >= digit,
                    ;
                }
                assert(all_digits(v@.subrange(start as int, i + 1)));
                assert(v@.subrange(start as int, i + 1) == d.take(i + 1 - start));
                assert(all_digits(d) ==> digits_value(v@.subrange(start as int, i + 1))
                    <= digits_value(d)) by {
                    if all_digits(d) {
                        lemma_digits_value_monotone(v@.subrange(start as int, i + 1), d);
                    }
                }
            }
            return None;
        }
        proof {
            assert(value * 10 + digit <= max) by (nonlinear_arith)
                requires
                    value <= (max - digit) / 10,
                    max >= digit,
            ;
        }
        value = value * 10 + digit;
        i = i + 1;
    }
    Some(value)
}

/// `s` splits at every `sep` into pieces (one more piece than separators).
pub open spec fn split_on(s: Seq<char>, sep: char) -> Seq<Seq<char>>
    decreases s.len(),
{
    if s.len() == 0 {
        seq![seq![]]
    } else {
        let p = split_on(s.drop_last(), sep);
        if s.last() == sep {
            p.push(seq![])
        } else {
            p.update(p.len() - 1, p.last().push(s.last()))
        }
    }
}

pub proof fn lemma_split_on_len(s: Seq<char>, sep: char)
    ensures
        split_on(s, sep).len() >= 1,
    decreases s.len(),
{
    if s.len() > 0 {
        lemma_split_on_len(s.drop_last(), sep);
    }
}

/// `s.split(sep)`: the pieces between separators.
pub fn split_chars(v: &[char], sep: char) -> (out: Vec<Vec<char>>)
    ensures
        out@.map_values(|x: Vec<char>| x@) == split_on(v@, sep),
{
    let mut done: Vec<Vec<char>> = Vec::new();
    let mut cur: Vec<char> = Vec::new();
    let mut i: usize = 0;
    while i < v.len()
        invariant
            i <= v.len(),
            done@.map_values(|x: Vec<char>| x@).push(cur@) == split_on(v@.take(i as int), sep),
        decreases v.len() - i,
    {
        proof {
            lemma_split_on_len(v@.take(i as int), sep);
            assert(v@.take(i + 1).drop_last() =~= v@.take(i as int));
        }
        let c = v[i];
        if c == sep {
            let ghost prev = done@.map_values(|x: Vec<char>| x@);
            let finished = cur;
            done.push(finished);
            cur = Vec::new();
            proof {
                assert(done@.map_values(|x: Vec<char>| x@) =~= prev.push(finished@));
            }
        } else {
            let ghost prev = done@.map_values(|x: Vec<char>| x@);
            cur.push(c);
            proof {
                assert(done@.map_values(|x: Vec<char>| x@) == prev);
                assert(prev.push(cur@) =~= prev.push(cur@.drop_last()).update(
                    prev.len() as int,
                    cur@,
                ));
            }
        }
        i = i + 1;
    }
    assert(v@.take(v.len() as int) =~= v@);
    let ghost prev = done@.map_values(|x: Vec<char>| x@);
    let last = cur;
    done.push(last);
    assert(done@.map_values(|x: Vec<char>| x@) =~= prev.push(last@));
    done
}

/// `s` without one trailing `\r`.
pub open spec fn strip_cr(s: Seq<char>) -> Seq<char> {
    if s.len() > 0 && s.last() == '\r' {
        s.drop_last()
    } else {
        s
    }
}

/// `str::lines`: split at `\n`, a `\r` directly before a `\n` removed, and no
/// empty piece after a final `\n`.
pub open spec fn lines(s: Seq<char>) -> Seq<Seq<char>> {
    let p = split_on(s, '\n');
    let terminated = p.drop_last().map_values(|x: Seq<char>| strip_cr(x));
    if p.last().len() == 0 {
        terminated
    } else {
        terminated.push(p.last())
    }
}

/// The lines of `v`, as `str::lines` yields them.
pub fn lines_of(v: &[char]) -> (out: Vec<Vec<char>>)
    ensures
        out@.map_values(|x: Vec<char>| x@) == lines(v@),
{
    let pieces = split_chars(v, '\n');
    let ghost p = split_on(v@, '\n');
    proof {
        lemma_split_on_len(v@, '\n');
        assert(pieces@.len() == p.len());
    }
    let mut out: Vec<Vec<char>> = Vec::new();
    let n = pieces.len();
    let mut i: usize = 0;
    while i + 1 < n
        invariant
            n == pieces@.len(),
            n >= 1,
            i + 1 <= n,
            pieces@.map_values(|x: Vec<char>| x@) == p,
            out@.map_values(|x: Vec<char>| x@) == p.take(i as int).map_values(
                |x: Seq<char>| strip_cr(x),
            ),
        decreases n - i,
    {
        let piece = &pieces[i];
        let mut line: Vec<char> = piece.clone();
        assert(line@ == p[i as int]);
        if line.len() > 0 && line[line.len() - 1] == '\r' {
            line.pop();
        }
        let ghost prev = out@.map_values(|x: Vec<char>| x@);
        out.push(line);
        proof {
            assert(out@.map_values(|x: Vec<char>| x@) =~= prev.push(line@));
            assert(p.take(i + 1).map_values(|x: Seq<char>| strip_cr(x)) =~= p.take(
                i as int,
            ).map_values(|x: Seq<char>| strip_cr(x)).push(strip_cr(p[i as int])));
        }
        i = i + 1;
    }
    assert(p.take(i as int) =~= p.drop_last());
    let last = &pieces[n - 1];
    assert(last@ == p.last());
    if last.len() > 0 {
        let ghost prev = out@.map_values(|x: Vec<char>| x@);
        out.push(last.clone());
        assert(out@.map_values(|x: Vec<char>| x@) =~= prev.push(p.last()));
    }
    out
}

/// `p` is a prefix of `s`.
pub open spec fn has_prefix(s: Seq<char>, p: Seq<char>) -> bool {
    p.len() <= s.len() && s.take(p.len() as int) == p
}

/// `p` is a suffix of `s`.
pub open spec fn has_suffix(s: Seq<char>, p: Seq<char>) -> bool {
    p.len() <= s.len() && s.skip(s.len() - p.len()) == p
}

/// Whether `v[from..]` starts with `p`.
pub fn starts_with_at(v: &[char], from: usize, p: &[char]) -> (b: bool)
    requires
        from <= v.len(),
    ensures
        b == has_prefix(v@.skip(from as int), p@),
{
    if p.len() > v.len() - from {
        return false;
    }
    let mut i: usize = 0;
    while i < p.len()
        invariant
            i <= p.len(),
            p.len() <= v.len() - from,
            from <= v.len(),
            forall|j: int| 0 <= j < i ==> v@[from + j] == p@[j],
        decreases p.len() - i,
    {
        if v[from + i] != p[i] {
            proof {
                assert(v@.skip(from as int).take(p.len() as int)[i as int] != p@[i as int]);
            }
            return false;
        }
        i = i + 1;
    }
    assert(v@.skip(from as int).take(p.len() as int) =~= p@);
    true
}

/// Whether `v` ends with `p`.
pub fn ends_with_chars(v: &[char], p: &[char]) -> (b: bool)
    ensures
        b == has_suffix(v@, p@),
{
    if p.len() > v.len() {
        return false;
    }
    let from = v.len() - p.len();
    let b = starts_with_at(v, from, p);
    assert(v@.skip(from as int).take(p.len() as int) =~= v@.skip(from as int));
    b
}

/// `p` occurs in `s` starting at `i`.
pub open spec fn occurs_at(s: Seq<char>, p: Seq<char>, i: int) -> bool {
    0 <= i && i + p.len() <= s.len() && s.subrange(i, i + p.len()) == p
}

/// The first position where `p` occurs in `s`.
#[verifier::opaque]
pub open spec fn find_sub(s: Seq<char>, p: Seq<char>) -> Option<int> {
    if exists|i: int| occurs_at(s, p, i) {
        Some(choose|i: int| occurs_at(s, p, i) && forall|j: int| 0 <= j < i ==> !occurs_at(s, p, j))
    } else {
        None
    }
}

/// Position of the first occurrence of `p` in `v` at or after `from`.
pub fn find_chars(v: &[char], p: &[char], from: usize) -> (r: Option<usize>)
    requires
        from <= v.len(),
    ensures
        match r {
            Some(i) => from <= i && occurs_at(v@, p@, i as int) && forall|j: int|
                from <= j < i ==> !occurs_at(v@, p@, j),
            None => forall|j: int| from <= j ==> !occurs_at(v@, p@, j),
        },
{
    let mut i: usize = from;
    loop
        invariant
            from <= i <= v.len(),
            forall|j: int| from <= j < i ==> !occurs_at(v@, p@, j),
        decreases v.len() - i,
    {
        let b = starts_with_at(v, i, p);
        if b {
            assert(v@.skip(i as int).take(p.len() as int) =~= v@.subrange(i as int, i + p.len()));
            return Some(i);
        }
        proof {
            if occurs_at(v@, p@, i as int) {
                assert(v@.skip(i as int).take(p.len() as int) =~= v@.subrange(i as int, i + p.len()));
            }
        }
        if i == v.len() {
            proof {
                assert forall|j: int| from <= j implies !occurs_at(v@, p@, j) by {
                    if j > v.len() {
                    }
                }
            }
            return None;
        }
        i = i + 1;
    }
}

/// The first occurrence from the start, in terms of `find_sub`.
pub fn find_first(v: &[char], p: &[char]) -> (r: Option<usize>)
    ensures
        match find_sub(v@, p@) {
            Some(i) => r is Some && r->0 == i && occurs_at(v@, p@, i),
            None => r is None,
        },
{
    reveal(find_sub);
    let r = find_chars(v, p, 0);
    match r {
        Some(i) => {
            proof {
                let k = find_sub(v@, p@)->0;
                assert(occurs_at(v@, p@, i as int));
                if k < i {
                    assert(!occurs_at(v@, p@, k));
                }
                if k > i {
                    assert(occurs_at(v@, p@, i as int));
                }
            }
        },
        None => {},
    }
    r
}

/// Whether `p` occurs anywhere in `v`.
pub fn contains_chars(v: &[char], p: &[char]) -> (b: bool)
    ensures
        b == exists|i: int| occurs_at(v@, p@, i),
{
    match find_chars(v, p, 0) {
        Some(_) => true,
        None => false,
    }
}

/// ASCII lower-casing of one character.
pub open spec fn ascii_lower(c: char) -> char {
    if 'A' <= c && c <= 'Z' {
        ((c as u32) + 32) as char
    } else {
        c
    }
}

pub fn to_ascii_lower(c: char) -> (r: char)
    ensures
        r == ascii_lower(c),
{
    if 'A' <= c && c <= 'Z' {
        ((c as u8) + 32) as char
    } else {
        c
    }
}

/// Every character of `s` is ASCII.
pub open spec fn all_ascii(s: Seq<char>) -> bool {
    forall|i: int| 0 <= i < s.len() ==> (#[trigger] s[i] as u32) < 128
}

pub open spec fn ascii_lower_seq(s: Seq<char>) -> Seq<char> {
    s.map_values(|c: char| ascii_lower(c))
}

/// `str::to_ascii_lowercase` on a character vector.
pub fn ascii_lowercase(v: &[char]) -> (out: Vec<char>)
    ensures
        out@ == ascii_lower_seq(v@),
{
    let mut out: Vec<char> = Vec::new();
    let mut i: usize = 0;
    while i < v.len()
        invariant
            i <= v.len(),
            out@ == ascii_lower_seq(v@.take(i as int)),
        decreases v.len() - i,
    {
        out.push(to_ascii_lower(v[i]));
        assert(ascii_lower_seq(v@.take(i + 1)) =~= ascii_lower_seq(v@.take(i as int)).push(
            ascii_lower(v@[i as int]),
        ));
        i = i + 1;
    }
    assert(v@.take(v.len() as int) =~= v@);
    out
}

/// Equal ignoring ASCII case.
pub open spec fn eq_ignore_ascii_case(a: Seq<char>, b: Seq<char>) -> bool {
    ascii_lower_seq(a) == ascii_lower_seq(b)
}

pub fn chars_eq_ignore_ascii_case(a: &[char], b: &[char]) -> (r: bool)
    ensures
        r == eq_ignore_ascii_case(a@, b@),
{
    if a.len() != b.len() {
        assert(ascii_lower_seq(a@).len() != ascii_lower_seq(b@).len());
        return false;
    }
    let mut i: usize = 0;
    while i < a.len()
        invariant
            i <= a.len(),
            a.len() == b.len(),
            forall|j: int| 0 <= j < i ==> ascii_lower(a@[j]) == ascii_lower(b@[j]),
        decreases a.len() - i,
    {
        if to_ascii_lower(a[i]) != to_ascii_lower(b[i]) {
            assert(ascii_lower_seq(a@)[i as int] != ascii_lower_seq(b@)[i as int]);
            return false;
        }
        i = i + 1;
    }
    assert(ascii_lower_seq(a@) =~= ascii_lower_seq(b@));
    true
}

/// Every `from` character replaced by `to`.
pub open spec fn replace_char(s: Seq<char>, from: char, to: char) -> Seq<char> {
    s.map_values(|c: char| if c == from { to } else { c })
}

pub fn replace_chars(v: &[char], from: char, to: char) -> (out: Vec<char>)
    ensures
        out@ == replace_char(v@, from, to),
{
    let mut out: Vec<char> = Vec::new();
    let mut i: usize = 0;
    while i < v.len()
        invariant
            i <= v.len(),
            out@ == replace_char(v@.take(i as int), from, to),
        decreases v.len() - i,
    {
        let c = v[i];
        out.push(if c == from { to } else { c });
        assert(replace_char(v@.take(i + 1), from, to) =~= replace_char(v@.take(i as int), from, to).push(
            if v@[i as int] == from { to } else { v@[i as int] },
        ));
        i = i + 1;
    }
    assert(v@.take(v.len() as int) =~= v@);
    out
}

/// A copy of `v[from..to]`.
pub fn sub_vec(v: &[char], from: usize, to: usize) -> (out: Vec<char>)
    requires
        from <= to <= v.len(),
    ensures
        out@ == v@.subrange(from as int, to as int),
{
    let mut out: Vec<char> = Vec::new();
    let mut i = from;
    while i < to
        invariant
            from <= i <= to,
            to <= v.len(),
            out@ == v@.subrange(from as int, i as int),
        decreases to - i,
    {
        out.push(v[i]);
        assert(v@.subrange(from as int, i + 1) =~= v@.subrange(from as int, i as int).push(
            v@[i as int],
        ));
        i = i + 1;
    }
    out
}

pub open spec fn lead_count(s: Seq<char>, p: spec_fn(char) -> bool) -> nat
    decreases s.len(),
{
    if s.len() > 0 && p(s[0]) {
        1 + lead_count(s.drop_first(), p)
    } else {
        0
    }
}

pub open spec fn trail_count(s: Seq<char>, p: spec_fn(char) -> bool) -> nat
    decreases s.len(),
{
    if s.len() > 0 && p(s.last()) {
        1 + trail_count(s.drop_last(), p)
    } else {
        0
    }
}

pub proof fn lemma_lead_count(s: Seq<char>, p: spec_fn(char) -> bool)
    ensures
        lead_count(s, p) <= s.len(),
        forall|i: int| 0 <= i < lead_count(s, p) ==> p(#[trigger] s[i]),
        lead_count(s, p) < s.len() ==> !p(s[lead_count(s, p) as int]),
    decreases s.len(),
{
    if s.len() > 0 && p(s[0]) {
        lemma_lead_count(s.drop_first(), p);
        assert forall|i: int| 0 <= i < lead_count(s, p) implies p(#[trigger] s[i]) by {
            if i > 0 {
                assert(s[i] == s.drop_first()[i - 1]);
            }
        }
    }
}

pub proof fn lemma_trail_count(s: Seq<char>, p: spec_fn(char) -> bool)
    ensures
        trail_count(s, p) <= s.len(),
        forall|i: int| s.len() - trail_count(s, p) <= i < s.len() ==> p(#[trigger] s[i]),
        trail_count(s, p) < s.len() ==> !p(s[s.len() - trail_count(s, p) - 1]),
    decreases s.len(),
{
    if s.len() > 0 && p(s.last()) {
        lemma_trail_count(s.drop_last(), p);
        assert forall|i: int| s.len() - trail_count(s, p) <= i < s.len() implies p(#[trigger] s[i]) by {
            if i < s.len() - 1 {
                assert(s[i] == s.drop_last()[i]);
            }
        }
    }
}

pub proof fn lemma_lead_count_unique(s: Seq<char>, p: spec_fn(char) -> bool, k: int)
    requires
        0 <= k <= s.len(),
        forall|i: int| 0 <= i < k ==> p(#[trigger] s[i]),
        k < s.len() ==> !p(s[k]),
    ensures
        lead_count(s, p) == k,
    decreases s.len(),
{
    if k > 0 {
        assert(p(s[0]));
        assert forall|i: int| 0 <= i < k - 1 implies p(#[trigger] s.drop_first()[i]) by {
            assert(s.drop_first()[i] == s[i + 1]);
        }
        if k < s.len() {
            assert(s.drop_first()[k - 1] == s[k]);
        }
        lemma_lead_count_unique(s.drop_first(), p, k - 1);
    } else if s.len() > 0 {
        assert(!p(s[0]));
    }
}

pub proof fn lemma_trail_count_unique(s: Seq<char>, p: spec_fn(char) -> bool, k: int)
    requires
        0 <= k <= s.len(),
        forall|i: int| s.len() - k <= i < s.len() ==> p(#[trigger] s[i]),
        k < s.len() ==> !p(s[s.len() - k - 1]),
    ensures
        trail_count(s, p) == k,
    decreases s.len(),
{
    if k > 0 {
        assert(p(s[s.len() - 1]));
        assert forall|i: int| s.drop_last().len() - (k - 1) <= i < s.drop_last().len() implies p(
            #[trigger] s.drop_last()[i],
        ) by {
            assert(s.drop_last()[i] == s[i]);
        }
        if k < s.len() {
            assert(s.drop_last()[s.drop_last().len() - (k - 1) - 1] == s[s.len() - k - 1]);
        }
        lemma_trail_count_unique(s.drop_last(), p, k - 1);
    } else if s.len() > 0 {
        assert(!p(s[s.len() - 1]));
    }
}

/// `s` with leading and trailing characters satisfying `p` removed.
pub open spec fn trim_by(s: Seq<char>, p: spec_fn(char) -> bool) -> Seq<char> {
    let t = s.skip(lead_count(s, p) as int);
    t.take(t.len() - trail_count(t, p))
}

/// Trimming twice is trimming once.
pub proof fn lemma_trim_idempotent(s: Seq<char>)
    ensures
        trim(trim(s)) == trim(s),
{
    let u = trim_start(s);
    lemma_lead_ws(s);
    lemma_trail_ws(u);
    let t = trim(s);
    assert(t == u.take(u.len() - trail_ws(u)));
    if t.len() > 0 {
        // the first character of `t` is the first non-whitespace of `s`
        assert(t[0] == s[lead_ws(s) as int]);
        assert(!is_ws(t[0]));
        lemma_lead_ws_unique(t, 0);
        assert(t.skip(0) =~= t);
        assert(t[t.len() - 1] == u[u.len() - trail_ws(u) - 1]);
        lemma_trail_ws_unique(t, 0);
        assert(t.take(t.len() as int) =~= t);
    } else {
        assert(lead_ws(t) == 0);
        assert(trail_ws(t.skip(0)) == 0);
        assert(trim(t) =~= t);
    }
}


/// The predicate "equals `c`".
pub open spec fn is_char(c: char) -> spec_fn(char) -> bool {
    |x: char| x == c
}

/// `str::trim_matches(c)`: every leading and trailing `c` removed.
pub fn trim_matching(v: &[char], c: char) -> (out: Vec<char>)
    ensures
        out@ == trim_by(v@, is_char(c)),
{
    let mut a: usize = 0;
    while a < v.len() && v[a] == c
        invariant
            a <= v.len(),
            forall|i: int| 0 <= i < a ==> v@[i] == c,
        decreases v.len() - a,
    {
        a = a + 1;
    }
    proof {
        assert forall|i: int| 0 <= i < a implies is_char(c)(#[trigger] v@[i]) by {}
        lemma_lead_count_unique(v@, is_char(c), a as int);
    }
    let ghost t = v@.skip(a as int);
    let mut b: usize = v.len();
    while b > a && v[b - 1] == c
        invariant
            a <= b <= v.len(),
            forall|i: int| b <= i < v.len() ==> v@[i] == c,
        decreases b - a,
    {
        b = b - 1;
    }
    proof {
        assert forall|i: int| t.len() - (v.len() - b) <= i < t.len() implies is_char(c)(
            #[trigger] t[i],
        ) by {
            assert(t[i] == v@[a + i]);
        }
        if b > a {
            assert(t[t.len() - (v.len() - b) - 1] == v@[b - 1]);
        }
        lemma_trail_count_unique(t, is_char(c), v.len() - b);
        assert(t.take(t.len() - (v.len() - b)) =~= v@.subrange(a as int, b as int));
    }
    sub_vec(v, a, b)
}

/// Appends the characters of `v` to `out`.
pub fn push_all(out: &mut Vec<char>, v: &[char])
    ensures
        final(out)@ == old(out)@ + v@,
{
    let mut i: usize = 0;
    while i < v.len()
        invariant
            i <= v.len(),
            out@ == old(out)@ + v@.take(i as int),
        decreases v.len() - i,
    {
        out.push(v[i]);
        assert(old(out)@ + v@.take(i + 1) =~= old(out)@ + v@.take(i as int) + seq![v@[i as int]]);
        i = i + 1;
    }
    assert(v@.take(v.len() as int) =~= v@);
}

/// Pieces joined with `\n` between them (`[..].join("\n")`).
pub open spec fn join_lines(ls: Seq<Seq<char>>) -> Seq<char>
    decreases ls.len(),
{
    if ls.len() == 0 {
        seq![]
    } else if ls.len() == 1 {
        ls[0]
    } else {
        join_lines(ls.drop_last()) + seq!['\n'] + ls.last()
    }
}

pub open spec fn char_views(ls: Seq<Vec<char>>) -> Seq<Seq<char>> {
    ls.map_values(|x: Vec<char>| x@)
}

/// The lines joined with `\n` between them.
pub fn join_with_newlines(ls: &Vec<Vec<char>>) -> (out: Vec<char>)
    ensures
        out@ == join_lines(char_views(ls@)),
{
    let ghost vs = char_views(ls@);
    let mut out: Vec<char> = Vec::new();
    let mut i: usize = 0;
    while i < ls.len()
        invariant
            i <= ls.len(),
            vs == char_views(ls@),
            out@ == join_lines(vs.take(i as int)),
        decreases ls.len() - i,
    {
        assert(vs.take(i + 1).drop_last() =~= vs.take(i as int));
        assert(vs.take(i + 1).last() == ls@[i as int]@);
        if i > 0 {
            out.push('\n');
        }
        push_all(&mut out, ls[i].as_slice());
        proof {
            if i == 0 {
                assert(out@ =~= vs.take(1)[0]);
            }
        }
        i = i + 1;
    }
    assert(vs.take(ls.len() as int) =~= vs);
    out
}

/// Index of the first piece that satisfies `p`.
#[verifier::opaque]
pub open spec fn first_index(ls: Seq<Seq<char>>, p: spec_fn(Seq<char>) -> bool) -> Option<int> {
    if exists|i: int| 0 <= i < ls.len() && p(ls[i]) {
        Some(
            choose|i: int|
                0 <= i < ls.len() && p(ls[i]) && forall|j: int| 0 <= j < i ==> !p(#[trigger] ls[j]),
        )
    } else {
        None
    }
}

/// The first index is the one that nothing before it satisfies.
pub proof fn lemma_first_index(ls: Seq<Seq<char>>, p: spec_fn(Seq<char>) -> bool, i: int)
    requires
        0 <= i <= ls.len(),
        forall|j: int| 0 <= j < i ==> !p(#[trigger] ls[j]),
        i < ls.len() ==> p(ls[i]),
    ensures
        first_index(ls, p) == (if i < ls.len() {
            Some(i)
        } else {
            None::<int>
        }),
{
    reveal(first_index);
    if i < ls.len() {
        assert(0 <= i < ls.len() && p(ls[i]) && forall|j: int| 0 <= j < i ==> !p(#[trigger] ls[j]));
        let k = choose|k: int|
            0 <= k < ls.len() && p(ls[k]) && forall|j: int| 0 <= j < k ==> !p(#[trigger] ls[j]);
        if k < i {
            assert(!p(ls[k]));
        }
        if k > i {
            assert(!p(ls[i]));
        }
    }
}


/// Position of the first `c` in `s`.
pub open spec fn index_of(s: Seq<char>, c: char) -> Option<int> {
    if exists|i: int| 0 <= i < s.len() && s[i] == c {
        Some(
            choose|i: int|
                0 <= i < s.len() && s[i] == c && forall|j: int| 0 <= j < i ==> #[trigger] s[j] != c,
        )
    } else {
        None
    }
}

/// Position of the first `c` in `v`.
pub fn find_char(v: &[char], c: char) -> (r: Option<usize>)
    ensures
        match index_of(v@, c) {
            Some(i) => r == Some(i as usize) && 0 <= i < v.len() && v@[i] == c,
            None => r is None,
        },
{
    let mut i: usize = 0;
    while i < v.len()
        invariant
            i <= v.len(),
            forall|j: int| 0 <= j < i ==> #[trigger] v@[j] != c,
        decreases v.len() - i,
    {
        if v[i] == c {
            proof {
                assert(0 <= i < v.len() && v@[i as int] == c && forall|j: int|
                    0 <= j < i ==> #[trigger] v@[j] != c);
                let k = choose|k: int|
                    0 <= k < v.len() && v@[k] == c && forall|j: int| 0 <= j < k ==> #[trigger] v@[j] != c;
                if k < i {
                    assert(v@[k] != c);
                }
                if k > i {
                    assert(v@[i as int] != c);
                }
            }
            return Some(i);
        }
        i = i + 1;
    }
    None
}

/// Whether two character slices are equal.
pub fn chars_equal(a: &[char], b: &[char]) -> (r: bool)
    ensures
        r == (a@ == b@),
{
    if a.len() != b.len() {
        return false;
    }
    let mut i: usize = 0;
    while i < a.len()
        invariant
            i <= a.len(),
            a.len() == b.len(),
            forall|j: int| 0 <= j < i ==> a@[j] == b@[j],
        decreases a.len() - i,
    {
        if a[i] != b[i] {
            return false;
        }
        i = i + 1;
    }
    assert(a@ =~= b@);
    true
}

/// Whether two string slices hold the same characters.
pub fn str_eq(a: &str, b: &str) -> (r: bool)
    ensures
        r == (a@ == b@),
{
    let av = chars_of(a);
    let bv = chars_of(b);
    chars_equal(av.as_slice(), bv.as_slice())
}


/// Two strings one after the other.
pub fn concat2(a: &str, b: &str) -> (s: String)
    ensures
        s@ == a@ + b@,
{
    let mut out = chars_of(a);
    let bv = chars_of(b);
    push_all(&mut out, bv.as_slice());
    string_of(out.as_slice())
}

/// Three strings one after another.
pub fn concat3(a: &str, b: &str, c: &str) -> (s: String)
    ensures
        s@ == a@ + b@ + c@,
{
    let mut out = chars_of(a);
    push_all(&mut out, chars_of(b).as_slice());
    push_all(&mut out, chars_of(c).as_slice());
    string_of(out.as_slice())
}

/// Four strings one after another.
pub fn concat4(a: &str, b: &str, c: &str, d: &str) -> (s: String)
    ensures
        s@ == a@ + b@ + c@ + d@,
{
    let mut out = chars_of(a);
    push_all(&mut out, chars_of(b).as_slice());
    push_all(&mut out, chars_of(c).as_slice());
    push_all(&mut out, chars_of(d).as_slice());
    string_of(out.as_slice())
}

/// Five strings one after another.
pub fn concat5(a: &str, b: &str, c: &str, d: &str, e: &str) -> (s: String)
    ensures
        s@ == a@ + b@ + c@ + d@ + e@,
{
    let mut out = chars_of(a);
    push_all(&mut out, chars_of(b).as_slice());
    push_all(&mut out, chars_of(c).as_slice());
    push_all(&mut out, chars_of(d).as_slice());
    push_all(&mut out, chars_of(e).as_slice());
    string_of(out.as_slice())
}


/// The decimal form of `n`, as a new string.
pub fn decimal(n: u64) -> (s: String)
    ensures
        s@ == spec_decimal(n as nat),
{
    let mut s = String::new();
    push_decimal(&mut s, n);
    s
}

/// The decimal form of a signed number: a `-` before negative ones.
pub open spec fn spec_signed_decimal(i: int) -> Seq<char> {
    if i < 0 {
        seq!['-'] + spec_decimal((-i) as nat)
    } else {
        spec_decimal(i as nat)
    }
}

/// The decimal form of `i` (as `{}` prints a signed integer).
pub fn signed_decimal(i: i32) -> (s: String)
    ensures
        s@ == spec_signed_decimal(i as int),
{
    let mut s = String::new();
    if i < 0 {
        push_char(&mut s, '-');
        let m: i64 = -(i as i64);
        push_decimal(&mut s, m as u64);
        assert(s@ =~= seq!['-'] + spec_decimal((-(i as int)) as nat));
    } else {
        push_decimal(&mut s, i as u64);
    }
    s
}


/// `s` does not hold `c`.
pub open spec fn lacks(s: Seq<char>, c: char) -> bool {
    forall|i: int| 0 <= i < s.len() ==> s[i] != c
}

/// Appending text without separators extends the last piece.
pub proof fn lemma_split_on_extend(s: Seq<char>, t: Seq<char>, sep: char)
    requires
        lacks(t, sep),
    ensures
        split_on(s + t, sep) == split_on(s, sep).update(
            split_on(s, sep).len() - 1,
            split_on(s, sep).last() + t,
        ),
    decreases t.len(),
{
    lemma_split_on_len(s, sep);
    if t.len() == 0 {
        assert(s + t =~= s);
        assert(split_on(s, sep).last() + t =~= split_on(s, sep).last());
        assert(split_on(s, sep).update(split_on(s, sep).len() - 1, split_on(s, sep).last())
            =~= split_on(s, sep));
    } else {
        let t0 = t.drop_last();
        assert(lacks(t0, sep));
        lemma_split_on_extend(s, t0, sep);
        assert((s + t).drop_last() =~= s + t0);
        assert((s + t).last() == t.last());
        assert(t.last() != sep);
        lemma_split_on_len(s + t0, sep);
        let p = split_on(s, sep);
        assert(p.last() + t =~= (p.last() + t0).push(t.last()));
        assert(split_on(s + t, sep) =~= p.update(p.len() - 1, p.last() + t));
    }
}

/// Pieces joined with `\n` split back into the same pieces.
pub proof fn lemma_split_join(ls: Seq<Seq<char>>)
    requires
        ls.len() > 0,
        forall|i: int| 0 <= i < ls.len() ==> lacks(#[trigger] ls[i], '\n'),
    ensures
        split_on(join_lines(ls), '\n') == ls,
    decreases ls.len(),
{
    if ls.len() == 1 {
        assert(lacks(ls[0], '\n'));
        lemma_split_on_extend(Seq::<char>::empty(), ls[0], '\n');
        assert(Seq::<char>::empty() + ls[0] =~= ls[0]);
        assert(seq![Seq::<char>::empty()].update(0, Seq::<char>::empty() + ls[0]) =~= ls);
    } else {
        let r = ls.drop_last();
        assert forall|i: int| 0 <= i < r.len() implies lacks(#[trigger] r[i], '\n') by {
            assert(r[i] == ls[i]);
        }
        lemma_split_join(r);
        let j = join_lines(r);
        let jn = j + seq!['\n'];
        assert(jn.drop_last() =~= j);
        lemma_split_on_len(j, '\n');
        assert(split_on(jn, '\n') == r.push(Seq::<char>::empty()));
        assert(lacks(ls.last(), '\n'));
        lemma_split_on_extend(jn, ls.last(), '\n');
        assert(join_lines(ls) =~= jn + ls.last());
        assert(Seq::<char>::empty() + ls.last() =~= ls.last());
        assert(r.push(Seq::<char>::empty()).update(r.len() as int, ls.last()) =~= ls);
    }
}

/// No piece of a split holds the separator.
pub proof fn lemma_split_pieces_lack(s: Seq<char>, sep: char)
    ensures
        forall|i: int| 0 <= i < split_on(s, sep).len() ==> lacks(#[trigger] split_on(s, sep)[i], sep),
    decreases s.len(),
{
    if s.len() > 0 {
        lemma_split_pieces_lack(s.drop_last(), sep);
        lemma_split_on_len(s.drop_last(), sep);
        let p = split_on(s.drop_last(), sep);
        if s.last() != sep {
            assert forall|i: int| 0 <= i < split_on(s, sep).len() implies lacks(
                #[trigger] split_on(s, sep)[i],
                sep,
            ) by {
                if i == p.len() - 1 {
                    assert(lacks(p[i], sep));
                    assert forall|k: int| 0 <= k < p[i].push(s.last()).len() implies p[i].push(
                        s.last(),
                    )[k] != sep by {
                        if k < p[i].len() {
                            assert(p[i].push(s.last())[k] == p[i][k]);
                        }
                    }
                }
            }
        }
    }
}

/// No line holds a line break.
pub proof fn lemma_lines_lack_newline(s: Seq<char>)
    ensures
        forall|i: int| 0 <= i < lines(s).len() ==> lacks(#[trigger] lines(s)[i], '\n'),
{
    lemma_split_pieces_lack(s, '\n');
    lemma_split_on_len(s, '\n');
    let p = split_on(s, '\n');
    assert forall|i: int| 0 <= i < lines(s).len() implies lacks(#[trigger] lines(s)[i], '\n') by {
        if i < p.len() - 1 {
            assert(lines(s)[i] == strip_cr(p[i]));
            assert(lacks(p[i], '\n'));
            assert forall|k: int| 0 <= k < strip_cr(p[i]).len() implies strip_cr(p[i])[k] != '\n' by {
                assert(strip_cr(p[i])[k] == p[i][k]);
            }
        } else {
            assert(lines(s)[i] == p.last());
            assert(lacks(p[p.len() - 1], '\n'));
        }
    }
}


/// The first `c` is at `i` when it is there and nowhere before.
pub proof fn lemma_index_of(s: Seq<char>, c: char, i: int)
    requires
        0 <= i < s.len(),
        s[i] == c,
        forall|j: int| 0 <= j < i ==> s[j] != c,
    ensures
        index_of(s, c) == Some(i),
{
    assert(0 <= i < s.len() && s[i] == c && forall|j: int| 0 <= j < i ==> #[trigger] s[j] != c);
    let k = choose|k: int|
        0 <= k < s.len() && s[k] == c && forall|j: int| 0 <= j < k ==> #[trigger] s[j] != c;
    if k < i {
        assert(s[k] != c);
    }
    if k > i {
        assert(s[i] != c);
    }
}

/// Trimming by a predicate never makes a sequence longer.
pub proof fn lemma_trim_by_len(s: Seq<char>, p: spec_fn(char) -> bool)
    ensures
        trim_by(s, p).len() <= s.len(),
{
    lemma_lead_count(s, p);
    lemma_trail_count(s.skip(lead_count(s, p) as int), p);
}

/// A sequence that trimming leaves alone does not end in whitespace.
pub proof fn lemma_trim_keeps_end(s: Seq<char>)
    requires
        trim(s).len() == s.len(),
        s.len() > 0,
    ensures
        !is_ws(s.last()),
{
    lemma_lead_ws(s);
    let u = trim_start(s);
    lemma_trail_ws(u);
    if lead_ws(s) > 0 {
        assert(trim(s).len() <= u.len());
    } else {
        assert(u =~= s);
        if is_ws(s.last()) {
            assert(trail_ws(u) > 0);
        }
    }
}


/// What `first_index` gives: the first index whose piece satisfies `p`, or
/// none where no piece does.
pub proof fn lemma_first_index_found(ls: Seq<Seq<char>>, p: spec_fn(Seq<char>) -> bool)
    ensures
        match first_index(ls, p) {
            Some(i) => 0 <= i < ls.len() && p(ls[i]) && forall|j: int| 0 <= j < i ==> !p(#[trigger] ls[j]),
            None => forall|j: int| 0 <= j < ls.len() ==> !p(#[trigger] ls[j]),
        },
{
    reveal(first_index);
    if exists|i: int| 0 <= i < ls.len() && p(ls[i]) {
        let i = choose|i: int| 0 <= i < ls.len() && p(ls[i]);
        lemma_first_exists(ls, p, i);
    }
}

proof fn lemma_first_exists(ls: Seq<Seq<char>>, p: spec_fn(Seq<char>) -> bool, i: int)
    requires
        0 <= i < ls.len(),
        p(ls[i]),
    ensures
        exists|k: int|
            0 <= k < ls.len() && p(ls[k]) && forall|j: int| 0 <= j < k ==> !p(#[trigger] ls[j]),
    decreases i,
{
    if exists|j: int| 0 <= j < i && p(ls[j]) {
        let j = choose|j: int| 0 <= j < i && p(ls[j]);
        lemma_first_exists(ls, p, j);
    } else {
        assert(0 <= i < ls.len() && p(ls[i]) && forall|j: int| 0 <= j < i ==> !p(#[trigger] ls[j]));
    }
}

} // verus!
