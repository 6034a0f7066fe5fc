//! A ready-made alphabet of English letters.
use vstd::prelude::*;
use crate::pattern::chars_of;

verus! {

/// The letters `a` to `y`, then `A` to `Y` (character codes 97 to 121 and
/// 65 to 89).
pub fn get_english() -> (r: Vec<char>)
    ensures
        r@ == "abcdefghijklmnopqrstuvwxy"@ + "ABCDEFGHIJKLMNOPQRSTUVWXY"@,
{
    let mut r = chars_of("abcdefghijklmnopqrstuvwxy");
    let upper = chars_of("ABCDEFGHIJKLMNOPQRSTUVWXY");
    let ghost lower = r@;
    let mut i: usize = 0;
    while i < upper.len()
        invariant
            i <= upper.len(),
            r@ == lower + upper@.take(i as int),
        decreases upper.len() - i,
    {
        r.push(upper[i]);
        proof {
            assert(upper@.take(i + 1) == upper@.take(i as int).push(upper@[i as int]));
        }
        i = i + 1;
    }
    proof {
        assert(upper@.take(i as int) == upper@);
    }
    r
}

} // verus!
