use vstd::prelude::*;

verus! {

/// `y(x) = 2x^2 - x^3` at the grid point `x = k / denominator`, scaled by
/// `denominator^3` (a positive factor, so comparisons are unchanged).
pub open spec fn bump_scaled(k: int, denominator: int) -> int {
    2 * k * k * denominator - k * k * k
}

/// Grid point `k` is higher than both of its neighbours.
pub open spec fn is_peak(k: int, denominator: int) -> bool {
    bump_scaled(k, denominator) > bump_scaled(k - 1, denominator) && bump_scaled(k, denominator)
        > bump_scaled(k + 1, denominator)
}

/// The last middle point of the three-point bracket that a search over
/// `0..=steps` examines.
pub open spec fn last_middle(steps: int) -> int {
    if steps >= 2 {
        steps - 1
    } else {
        1
    }
}

fn bump_at(k: u64, denominator: u64) -> (r: i128)
    requires
        k < 0x1_0000_0000,
        denominator < 0x1_0000_0000,
    ensures
        r == bump_scaled(k as int, denominator as int),
{
    let k = k as i128;
    let d = denominator as i128;
    assert(0 <= k * k <= 0x1_0000_0000 * 0x1_0000_0000) by (nonlinear_arith)
        requires
            0 <= k < 0x1_0000_0000,
    ;
    assert(0 <= k * k * d <= 0x1_0000_0000 * 0x1_0000_0000 * 0x1_0000_0000) by (nonlinear_arith)
        requires
            0 <= k * k <= 0x1_0000_0000 * 0x1_0000_0000,
            0 <= d < 0x1_0000_0000,
    ;
    assert(0 <= k * k * k <= 0x1_0000_0000 * 0x1_0000_0000 * 0x1_0000_0000) by (nonlinear_arith)
        requires
            0 <= k * k <= 0x1_0000_0000 * 0x1_0000_0000,
            0 <= k < 0x1_0000_0000,
    ;
    let square = k * k;
    let scaled = square * d;
    let cube = square * k;
    assert(2 * scaled - cube == 2 * k * k * d - k * k * k) by (nonlinear_arith)
        requires
            square == k * k,
            scaled == square * d,
            cube == square * k,
    ;
    2 * scaled - cube
}

/// Exhaustive three-point bracket search for the maximum of
/// `y(x) = 2x^2 - x^3` over the grid `x = k / denominator`, `0 <= k <= steps`.
/// The bracket starts at points `0, 1, 2` and moves one step at a time; the
/// first middle point higher than both ends is returned. `None` when the
/// bracket leaves the grid without finding one.
pub fn bracket_peak(denominator: u64, steps: u64) -> (r: Option<u64>)
    requires
        steps < 0xffff_ffff,
        denominator < 0x1_0000_0000,
    ensures
        match r {
            Some(k) => 1 <= k <= last_middle(steps as int) && is_peak(k as int, denominator as int)
                && forall|j: int| 1 <= j < k ==> !is_peak(j, denominator as int),
            None => forall|j: int|
                1 <= j <= last_middle(steps as int) ==> !is_peak(j, denominator as int),
        },
{
    let mut middle: u64 = 1;
    loop
        invariant
            1 <= middle <= last_middle(steps as int),
            steps < 0xffff_ffff,
            denominator < 0x1_0000_0000,
            forall|j: int| 1 <= j < middle ==> !is_peak(j, denominator as int),
        decreases last_middle(steps as int) - middle,
    {
        let low = bump_at(middle - 1, denominator);
        let mid = bump_at(middle, denominator);
        let high = bump_at(middle + 1, denominator);
        if mid > low && mid > high {
            return Some(middle);
        }
        middle = middle + 1;
        if middle + 1 > steps {
            return None;
        }
    }
}

} // verus!
