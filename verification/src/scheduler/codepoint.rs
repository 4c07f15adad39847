//! Tasks are named by a character and stored under its code point.

use vstd::prelude::*;

verus! {

/// The code point of `c`, under which the graph stores the task `c`.
pub open spec fn code(c: char) -> u32 {
    c as u32
}

/// A code point names one character only.
pub broadcast proof fn lemma_code_names_one(c: char)
    ensures
        (#[trigger] code(c)) <= 0x10FFFF,
        code(c) as char == c,
{
}

/// There are no more characters than code points.
pub proof fn lemma_char_set_bound(s: Set<char>)
    requires
        s.finite(),
    ensures
        s.len() <= 0x110000,
{
    let f = |c: char| code(c) as int;
    let image = s.map(f);
    assert forall|a: char, b: char| s.contains(a) && s.contains(b) && #[trigger] f(a) == #[trigger] f(b) implies a
        == b by {
        lemma_code_names_one(a);
        lemma_code_names_one(b);
    }
    vstd::set_lib::lemma_map_size(s, image, f);
    let all = vstd::set_lib::set_int_range(0, 0x110000);
    assert forall|x: int| image.contains(x) implies all.contains(x) by {
        let c = choose|c: char| s.contains(c) && f(c) == x;
        lemma_code_names_one(c);
    }
    vstd::set_lib::lemma_int_range(0, 0x110000);
    vstd::set_lib::lemma_len_subset(image, all);
}

} // verus!
