use vstd::prelude::*;
use rand::Rng;
use std::ops::Range;

verus! {

/// `Rng::gen_range` on the thread's generator: some number of the half-open
/// range from `low` to `high`, which must not be empty.
#[verifier::external_body]
fn random_between(low: usize, high: usize) -> (n: usize)
    requires
        low < high,
    ensures
        low <= n < high,
{
    rand::thread_rng().gen_range(low..high)
}

/// A random number of `range`; the start of the range where it is empty.
pub fn get_random(range: Range<usize>) -> (n: usize)
    ensures
        range.start < range.end ==> range.start <= n < range.end,
        range.start >= range.end ==> n == range.start,
{
    if range.start >= range.end {
        return range.start;
    }
    random_between(range.start, range.end)
}

/// The number that a draw `drawn` from the range shortened by one stands
/// for, when `exclude` is left out of the full range: draws below `exclude`
/// stand for themselves, the others for their successor.
pub fn skip_excluded(drawn: usize, exclude: usize) -> (n: usize)
    requires
        drawn < usize::MAX,
    ensures
        n == if drawn < exclude {
            drawn as int
        } else {
            drawn + 1
        },
{
    if drawn < exclude {
        drawn
    } else {
        drawn + 1
    }
}

/// `range` holds a number other than `exclude`.
pub open spec fn has_other(range: Range<usize>, exclude: usize) -> bool {
    range.start < range.end && !(range.end - range.start == 1 && range.start == exclude)
}

/// A random number of `range` other than `exclude`, each with the same
/// chance.
pub fn get_random_excluding(range: Range<usize>, exclude: usize) -> (n: usize)
    requires
        has_other(range, exclude),
    ensures
        range.start <= n < range.end,
        n != exclude,
{
    if range.start <= exclude && exclude < range.end {
        let drawn = random_between(range.start, range.end - 1);
        skip_excluded(drawn, exclude)
    } else {
        random_between(range.start, range.end)
    }
}

} // verus!
