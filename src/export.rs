use vstd::prelude::*;
use crate::text::push_char;

verus! {

pub open spec fn is_blank(c: char) -> bool {
    c == ' ' || c == '\t' || c == '\n' || c == '\r' || c == '\x0B' || c == '\x0C'
}

pub open spec fn id_char(c: char) -> char {
    if is_blank(c) {
        '_'
    } else {
        c
    }
}

/// The label as a diagram identifier: each ASCII whitespace character becomes `_`.
pub fn dot_id(label: &str) -> (r: String)
    ensures
        r@ == label@.map_values(|c: char| id_char(c)),
{
    let n = label.unicode_len();
    let mut r = String::new();
    let mut i: usize = 0;
    while i < n
        invariant
            n == label@.len(),
            i <= n,
            r@ == label@.subrange(0, i as int).map_values(|c: char| id_char(c)),
        decreases n - i,
    {
        let c = label.get_char(i);
        let d = if c == ' ' || c == '\t' || c == '\n' || c == '\r' || c == '\x0B' || c == '\x0C' {
            '_'
        } else {
            c
        };
        push_char(&mut r, d);
        i = i + 1;
        proof {
            assert(r@ =~= label@.subrange(0, i as int).map_values(|c: char| id_char(c)));
        }
    }
    proof {
        assert(label@.subrange(0, n as int) =~= label@);
    }
    r
}

} // verus!
