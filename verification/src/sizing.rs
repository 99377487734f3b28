//! Size policy: rounding up integer division and the normal-size threshold.

use vstd::prelude::*;
use vstd::arithmetic::div_mod::lemma_fundamental_div_mod;
use vstd::arithmetic::div_mod::lemma_div_plus_one;

verus! {

/// The quotient of `x` by `y`, rounded up.
pub open spec fn ceil_div_spec(x: int, y: int) -> int {
    (x + y - 1) / y
}

/// `ceil_div_spec(x, y)` is the least `q` with `x <= q * y`.
pub proof fn lemma_ceil_div_is_least(x: int, y: int)
    requires
        0 <= x,
        0 < y,
    ensures
        0 <= ceil_div_spec(x, y),
        x <= ceil_div_spec(x, y) * y,
        (ceil_div_spec(x, y) - 1) * y < x || (x == 0 && ceil_div_spec(x, y) == 0),
{
    let q = ceil_div_spec(x, y);
    lemma_fundamental_div_mod(x + y - 1, y);
    assert(q * y == y * q) by (nonlinear_arith);
    assert((q - 1) * y == q * y - y) by (nonlinear_arith);
    if x == 0 {
        assert(q == 0) by (nonlinear_arith)
            requires
                y * q + (y - 1) % y == y - 1,
                0 <= (y - 1) % y < y,
                0 < y,
        ;
    }
    assert(0 <= q) by (nonlinear_arith)
        requires
            y * q + (x + y - 1) % y == x + y - 1,
            0 <= (x + y - 1) % y < y,
            0 < y,
            0 <= x,
    ;
}

/// Integer division that rounds up instead of down.
pub fn ceil_div(x: usize, y: usize) -> (q: usize)
    requires
        y > 0,
    ensures
        q == ceil_div_spec(x as int, y as int),
{
    if x == 0 {
        proof {
            lemma_ceil_div_is_least(0, y as int);
        }
        0
    } else {
        let q: usize = (x - 1) / y;
        proof {
            lemma_div_plus_one((x - 1) as int, y as int);
        }
        q + 1
    }
}

/// The normal size: the number of bytes from the start of a window after which
/// the search for a boundary turns from the strict mask to the loose one.
///
/// The minimum plus half of it (rounded up) is taken off the average, never
/// more than the average itself, and the result is capped at the window.
pub open spec fn center_size_spec(average: int, minimum: int, source_size: int) -> int {
    let wanted = minimum + ceil_div_spec(minimum, 2);
    let offset = if wanted > average { average } else { wanted };
    let size = average - offset;
    if size > source_size { source_size } else { size }
}

/// Where the normal size lies: never above the average or the window, and
/// strictly between minimum and average once the average leaves room for it.
pub proof fn lemma_center_size_range(average: int, minimum: int, source_size: int)
    requires
        0 <= average,
        0 <= minimum,
        0 <= source_size,
    ensures
        0 <= center_size_spec(average, minimum, source_size) <= average,
        center_size_spec(average, minimum, source_size) <= source_size,
        0 < minimum && 2 * minimum + ceil_div_spec(minimum, 2) < average && average
            <= source_size ==> minimum < center_size_spec(average, minimum, source_size)
            < average,
{
    lemma_ceil_div_is_least(minimum, 2);
}

/// Find the middle of the desired chunk size, the "normal size".
pub fn center_size(average: usize, minimum: usize, source_size: usize) -> (size: usize)
    ensures
        size == center_size_spec(average as int, minimum as int, source_size as int),
        size <= average,
        size <= source_size,
        0 < minimum && 2 * minimum + ceil_div_spec(minimum as int, 2) < average && average
            <= source_size ==> minimum < size < average,
{
    let half: usize = ceil_div(minimum, 2);
    proof {
        lemma_ceil_div_is_least(minimum as int, 2);
        lemma_center_size_range(average as int, minimum as int, source_size as int);
    }
    // `minimum + half` may not fit; where it would pass `average` it is cut
    // down to `average` anyway.
    let offset: usize = if half > average || minimum > average - half {
        average
    } else {
        minimum + half
    };
    let size: usize = average - offset;
    if size > source_size {
        source_size
    } else {
        size
    }
}

} // verus!
