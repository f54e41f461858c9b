//! The numeric parts of dotted version strings.
use vstd::prelude::*;

use crate::text::{chars_of, parse_unsigned, spec_parse_unsigned, split_chars, split_on};

verus! {

/// The dot-separated parts of `s` that parse as `u32`, in order; the
/// others are skipped.
pub open spec fn numeric_parts(parts: Seq<Seq<char>>) -> Seq<u32>
    decreases parts.len(),
{
    if parts.len() == 0 {
        seq![]
    } else {
        let rest = numeric_parts(parts.drop_last());
        match spec_parse_unsigned(parts.last(), 0xffff_ffff) {
            Some(n) => rest.push(n as u32),
            None => rest,
        }
    }
}

pub open spec fn version_numbers(s: Seq<char>) -> Seq<u32> {
    numeric_parts(split_on(s, '.'))
}

/// The numbers of a dotted version string: each dot-separated part that
/// parses as `u32`, in order.
pub fn numbers_of(s: &str) -> (out: Vec<u32>)
    ensures
        out@ == version_numbers(s@),
{
    let v = chars_of(s);
    let parts = split_chars(v.as_slice(), '.');
    let ghost ps = split_on(v@, '.');
    let mut out: Vec<u32> = Vec::new();
    let mut i: usize = 0;
    while i < parts.len()
        invariant
            i <= parts.len(),
            parts@.map_values(|x: Vec<char>| x@) == ps,
            out@ == numeric_parts(ps.take(i as int)),
        decreases parts.len() - i,
    {
        let p = &parts[i];
        assert(p@ == ps[i as int]);
        assert(ps.take(i + 1).drop_last() =~= ps.take(i as int));
        assert(p@.subrange(0, p@.len() as int) =~= p@);
        match parse_unsigned(p.as_slice(), 0, p.len(), 0xffff_ffff) {
            Some(n) => out.push(n as u32),
            None => {},
        }
        i = i + 1;
    }
    assert(ps.take(parts.len() as int) =~= ps);
    out
}

} // verus!
