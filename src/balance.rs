use vstd::prelude::*;
use crate::error::AppError;

verus! {

/// `n` rounded up to the next even number.
pub open spec fn even_up(n: int) -> int {
    if n % 2 == 1 { n + 1 } else { n }
}

/// `n` rounded down to the previous even number.
pub open spec fn even_down(n: int) -> int {
    n - n % 2
}

/// Whether `total` can be split into even buckets that hold the fixed
/// counts and absorb the whole flexible pool.
pub open spec fn split_feasible(total: int, am_fixed: int, pm_fixed: int, any_flex: int) -> bool {
    &&& total == am_fixed + pm_fixed + any_flex
    &&& total % 2 == 0
    &&& even_up(am_fixed) + even_up(pm_fixed) <= total
}

/// Two buckets: as close to `total / 2` each as the fixed counts allow;
/// when half of `total` is odd, the afternoon bucket takes the larger share.
pub open spec fn split_two(total: int, am_fixed: int, pm_fixed: int) -> (int, int) {
    split_two_floors(total, even_up(am_fixed), even_up(pm_fixed))
}

/// Two buckets with even floors `fx` and `fy`.
pub open spec fn split_two_floors(total: int, fx: int, fy: int) -> (int, int) {
    let x0 = even_down(total / 2);
    let y0 = total - x0;
    if fx > x0 {
        (fx, total - fx)
    } else if fy > y0 {
        (total - fy, fy)
    } else {
        (x0, y0)
    }
}

/// Seats used when every bucket is raised to `level`, none below its floor.
pub open spec fn fill_to(fx: int, fy: int, level: int) -> int {
    (if fx > level { fx } else { level }) + (if fy > level { fy } else { level }) + level
}

/// The highest even level, from `level` upwards in steps of two, that
/// `total` seats can fill.
pub open spec fn water_level(fx: int, fy: int, total: int, level: int) -> int
    decreases total - level,
{
    if level + 2 <= total && fill_to(fx, fy, level + 2) <= total {
        water_level(fx, fy, total, level + 2)
    } else {
        level
    }
}

/// Three buckets (morning, afternoon, any), filled like water: every bucket
/// is raised to one common even level, none below its fixed floor, and what
/// is left over goes two at a time to the buckets at that level, morning
/// first, then afternoon, the rest to the any bucket.
pub open spec fn split_three(total: int, am_fixed: int, pm_fixed: int) -> (int, int, int) {
    split_three_floors(total, even_up(am_fixed), even_up(pm_fixed))
}

/// Three buckets with even floors `fx`, `fy` and zero.
pub open spec fn split_three_floors(total: int, fx: int, fy: int) -> (int, int, int) {
    let l = water_level(fx, fy, total, 0);
    let rest = total - fill_to(fx, fy, l);
    let gx = if fx <= l && rest >= 2 { 2int } else { 0int };
    let gy = if fy <= l && rest - gx >= 2 { 2int } else { 0int };
    (
        (if fx > l { fx } else { l }) + gx,
        (if fy > l { fy } else { l }) + gy,
        l + rest - gx - gy,
    )
}

/// The error of `even_split`, where there is one.
pub open spec fn split_error(
    total: int,
    am_fixed: int,
    pm_fixed: int,
    any_flex: int,
    any_cap: int,
) -> Option<AppError> {
    if any_cap > 0 && any_flex > any_cap {
        Some(AppError::CapacityExceeded { supply: any_flex as usize, capacity: any_cap as usize })
    } else if !split_feasible(total, am_fixed, pm_fixed, any_flex) {
        Some(AppError::ImbalanceUnresolved)
    } else {
        None
    }
}

/// The three bucket totals of `even_split`: with no flexible circuits
/// (`any_cap == 0`) the any bucket is empty.
pub open spec fn split_of(total: int, am_fixed: int, pm_fixed: int, any_cap: int) -> (int, int, int) {
    if any_cap == 0 {
        (split_two(total, am_fixed, pm_fixed).0, split_two(total, am_fixed, pm_fixed).1, 0)
    } else {
        split_three(total, am_fixed, pm_fixed)
    }
}

/// Whether `n` is odd.
pub fn is_odd(n: usize) -> (r: bool)
    ensures
        r == (n % 2 == 1),
{
    assert((n & 1usize) == n % 2) by (bit_vector);
    n & 1 != 0
}

fn round_up_even(n: usize) -> (r: usize)
    requires
        n < usize::MAX,
    ensures
        r == even_up(n as int),
{
    if is_odd(n) { n + 1 } else { n }
}

/// Whether raising every bucket to `level` fits in `total` seats.
fn fits(fx: usize, fy: usize, level: usize, total: usize) -> (r: bool)
    ensures
        r == (fill_to(fx as int, fy as int, level as int) <= total),
{
    let a: usize = if fx > level { fx } else { level };
    let b: usize = if fy > level { fy } else { level };
    if a > total {
        return false;
    }
    if b > total - a {
        return false;
    }
    level <= total - a - b
}

proof fn lemma_water_level(fx: int, fy: int, total: int, level: int)
    requires
        level % 2 == 0,
        0 <= level <= total,
        fill_to(fx, fy, level) <= total,
    ensures
        water_level(fx, fy, total, level) % 2 == 0,
        level <= water_level(fx, fy, total, level) <= total,
        fill_to(fx, fy, water_level(fx, fy, total, level)) <= total,
    decreases total - level,
{
    if level + 2 <= total && fill_to(fx, fy, level + 2) <= total {
        lemma_water_level(fx, fy, total, level + 2);
    }
}

/// Splits `total` people into morning, afternoon and (where flexible
/// circuits exist, `any_cap > 0`) any buckets, every bucket even and holding
/// its fixed people, the flexible pool spread as evenly as the fixed counts
/// allow. Returns the three bucket totals and how many flexible people each
/// bucket absorbed.
pub fn even_split(
    total_count: usize,
    am_fixed: usize,
    pm_fixed: usize,
    any_flex: usize,
    any_cap: usize,
) -> (r: Result<(usize, usize, usize, usize, usize, usize), AppError>)
    ensures
        r is Err <==> split_error(total_count as int, am_fixed as int, pm_fixed as int, any_flex as int, any_cap as int) is Some,
        r is Err ==> Some(r->Err_0) == split_error(total_count as int, am_fixed as int, pm_fixed as int, any_flex as int, any_cap as int),
        r is Ok ==> ({
            let (x, y, z, dx, dy, dz) = r->Ok_0;
            let s = split_of(total_count as int, am_fixed as int, pm_fixed as int, any_cap as int);
            &&& x == s.0 && y == s.1 && z == s.2
            &&& dx == x - am_fixed && dy == y - pm_fixed && dz == z
        }),
{
    if any_cap > 0 && any_flex > any_cap {
        return Err(AppError::CapacityExceeded { supply: any_flex, capacity: any_cap });
    }
    if am_fixed > total_count || pm_fixed > total_count - am_fixed
        || any_flex != total_count - am_fixed - pm_fixed || is_odd(total_count) {
        return Err(AppError::ImbalanceUnresolved);
    }
    // total_count is even and at least am_fixed, so rounding up cannot overflow
    let fx = round_up_even(am_fixed);
    let fy = round_up_even(pm_fixed);
    if fx > total_count || fy > total_count - fx {
        return Err(AppError::ImbalanceUnresolved);
    }
    if any_cap == 0 {
        let (x, y) = two_buckets(total_count, fx, fy);
        Ok((x, y, 0, x - am_fixed, y - pm_fixed, 0))
    } else {
        let (x, y, z) = three_buckets(total_count, fx, fy);
        Ok((x, y, z, x - am_fixed, y - pm_fixed, z))
    }
}

/// Every bucket total of a successful `even_split` is even and holds the
/// bucket's fixed people, and the flexible people that the buckets absorb add
/// up to exactly the flexible pool.
pub proof fn lemma_even_split_even_and_conserving(
    total: int,
    am_fixed: int,
    pm_fixed: int,
    any_flex: int,
    any_cap: int,
)
    requires
        0 <= am_fixed,
        0 <= pm_fixed,
        0 <= any_flex,
        0 <= any_cap,
        split_error(total, am_fixed, pm_fixed, any_flex, any_cap) is None,
    ensures
        ({
            let s = split_of(total, am_fixed, pm_fixed, any_cap);
            &&& s.0 % 2 == 0 && s.1 % 2 == 0 && s.2 % 2 == 0
            &&& s.0 >= am_fixed && s.1 >= pm_fixed && s.2 >= 0
            &&& (s.0 - am_fixed) + (s.1 - pm_fixed) + s.2 == any_flex
        }),
{
    let fx = even_up(am_fixed);
    let fy = even_up(pm_fixed);
    if any_cap != 0 {
        lemma_water_level(fx, fy, total, 0);
    }
}

fn two_buckets(total: usize, fx: usize, fy: usize) -> (r: (usize, usize))
    requires
        total % 2 == 0,
        fx % 2 == 0,
        fy % 2 == 0,
        fx + fy <= total,
    ensures
        r.0 == split_two_floors(total as int, fx as int, fy as int).0,
        r.1 == split_two_floors(total as int, fx as int, fy as int).1,
{
    let half = total / 2;
    let x0 = if is_odd(half) { half - 1 } else { half };
    let y0 = total - x0;
    if fx > x0 {
        (fx, total - fx)
    } else if fy > y0 {
        (total - fy, fy)
    } else {
        (x0, y0)
    }
}

fn three_buckets(total: usize, fx: usize, fy: usize) -> (r: (usize, usize, usize))
    requires
        total % 2 == 0,
        fx % 2 == 0,
        fy % 2 == 0,
        fx + fy <= total,
    ensures
        r.0 == split_three_floors(total as int, fx as int, fy as int).0,
        r.1 == split_three_floors(total as int, fx as int, fy as int).1,
        r.2 == split_three_floors(total as int, fx as int, fy as int).2,
{
    let mut level: usize = 0;
    while total >= 2 && level <= total - 2 && fits(fx, fy, level + 2, total)
        invariant
            total % 2 == 0,
            fx + fy <= total,
            level % 2 == 0,
            level <= total,
            fill_to(fx as int, fy as int, level as int) <= total,
            water_level(fx as int, fy as int, total as int, level as int)
                == water_level(fx as int, fy as int, total as int, 0),
        decreases total - level,
    {
        level = level + 2;
    }
    let a: usize = if fx > level { fx } else { level };
    let b: usize = if fy > level { fy } else { level };
    let mut rest: usize = total - a - b - level;
    let mut x = a;
    let mut y = b;
    if fx <= level && rest >= 2 {
        x = x + 2;
        rest = rest - 2;
    }
    if fy <= level && rest >= 2 {
        y = y + 2;
        rest = rest - 2;
    }
    (x, y, level + rest)
}

} // verus!
