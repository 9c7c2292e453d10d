//! The aggregate behind the calorie endpoint: summing the per-ingredient
//! calorie values that the store's join rows yield.

use vstd::prelude::*;

verus! {

/// The mathematical sum of a sequence of 32-bit values.
pub open spec fn sum_of(s: Seq<i32>) -> int
    decreases s.len(),
{
    if s.len() == 0 {
        0
    } else {
        sum_of(s.drop_last()) + s.last()
    }
}

/// Sums the per-ingredient calorie values of one item.
///
/// Returns the exact sum whenever it fits a 32-bit result, and `None` on
/// overflow instead of wrapping or panicking.
pub fn total_calorie(parts: &Vec<i32>) -> (r: Option<i32>)
    ensures
        match r {
            Option::Some(total) => total == sum_of(parts@),
            Option::None => !(i32::MIN <= sum_of(parts@) <= i32::MAX),
        },
{
    let plen: usize = parts.len();
    let mut acc: i128 = 0;
    let mut i: usize = 0;
    while i < parts.len()
        invariant
            i <= parts@.len(),
            parts@.len() == plen,
            acc == sum_of(parts@.take(i as int)),
            -(i as int) * 0x8000_0000 <= acc <= (i as int) * 0x7fff_ffff,
        decreases parts@.len() - i,
    {
        proof {
            assert(parts@.take(i as int + 1).drop_last() =~= parts@.take(i as int));
            assert(parts@.take(i as int + 1).last() == parts@[i as int]);
            assert(-(i as int + 1) * 0x8000_0000 <= acc + parts@[i as int] <= (i as int + 1)
                * 0x7fff_ffff) by (nonlinear_arith)
                requires
                    -(i as int) * 0x8000_0000 <= acc <= (i as int) * 0x7fff_ffff,
                    -0x8000_0000 <= parts@[i as int] <= 0x7fff_ffff,
            ;
            assert((i as int + 1) * 0x7fff_ffff < i128::MAX && -(i as int + 1) * 0x8000_0000
                > i128::MIN) by (nonlinear_arith)
                requires
                    i as int + 1 <= 0x1_0000_0000_0000_0000,
            ;
        }
        acc = acc + parts[i] as i128;
        i = i + 1;
    }
    proof {
        assert(parts@.take(parts@.len() as int) =~= parts@);
    }
    if acc < -0x8000_0000i128 || acc > 0x7fff_ffffi128 {
        None
    } else {
        Some(acc as i32)
    }
}

} // verus!
