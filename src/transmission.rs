use vstd::prelude::*;
use vstd::arithmetic::div_mod::{lemma_div_by_multiple, lemma_div_is_ordered};
use crate::types::{Fraction, HazeError};

verus! {

/// The transmission value of one darkness value: `255 - floor(d * omega)`.
pub open spec fn transmission_of(d: int, omega: Fraction) -> int {
    255 - (d * omega.num as int) / (omega.den as int)
}

/// Converts a darkness map into a transmission map, entry by entry.
pub fn transmission_map(dark_map: Vec<u8>, omega: Fraction) -> (r: Result<Vec<u8>, HazeError>)
    ensures
        match r {
            Ok(t) => {
                &&& t@.len() == dark_map@.len()
                &&& forall|i: int|
                    0 <= i < t@.len() ==> #[trigger] t@[i] as int == transmission_of(
                        dark_map@[i] as int,
                        omega,
                    )
            },
            Err(e) => e == HazeError::InvalidDimensions && dark_map@.len() == 0 || e
                == HazeError::InvalidParameter && dark_map@.len() > 0 && !omega.in_open_unit(),
        },
        r.is_ok() <==> dark_map@.len() > 0 && omega.in_open_unit(),
{
    if dark_map.len() == 0 {
        return Err(HazeError::InvalidDimensions);
    }
    if !(0 < omega.num && omega.num < omega.den) {
        return Err(HazeError::InvalidParameter);
    }
    let mut t = dark_map;
    let ghost d0 = t@;
    let mut i: usize = 0;
    while i < t.len()
        invariant
            t@.len() == d0.len(),
            0 <= i <= t@.len(),
            omega.in_open_unit(),
            forall|j: int| 0 <= j < i ==> #[trigger] t@[j] as int == transmission_of(d0[j] as int, omega),
            forall|j: int| i <= j < t@.len() ==> #[trigger] t@[j] == d0[j],
        decreases t@.len() - i,
    {
        let d = t[i] as u64;
        let num = omega.num as u64;
        let den = omega.den as u64;
        proof {
            let (di, ni, ei) = (d as int, num as int, den as int);
            assert(di * ni <= di * ei) by (nonlinear_arith)
                requires 0 <= di, ni < ei;
            assert(di * ei <= 255 * ei) by (nonlinear_arith)
                requires di <= 255, 0 < ei;
            lemma_div_is_ordered(di * ni, di * ei, ei);
            lemma_div_by_multiple(di, ei);
        }
        let v = 255 - d * num / den;
        t.set(i, v as u8);
        i = i + 1;
    }
    Ok(t)
}

/// Every transmission value lies in `[1, 255]`.
pub proof fn lemma_transmission_in_range(d: u8, omega: Fraction)
    requires
        omega.in_open_unit(),
    ensures
        1 <= transmission_of(d as int, omega) <= 255,
{
    let (di, ni, ei) = (d as int, omega.num as int, omega.den as int);
    assert(di * ni <= di * ei) by (nonlinear_arith)
        requires 0 <= di, ni < ei;
    assert(di * ni >= 0) by (nonlinear_arith)
        requires 0 <= di, 0 <= ni;
    vstd::arithmetic::div_mod::lemma_div_pos_is_pos(di * ni, ei);
    if di > 0 {
        assert(di * ni <= di * ei - 1 && di * ei - 1 == ei * (di - 1) + (ei - 1)) by (nonlinear_arith)
            requires 0 < di, ni < ei;
        lemma_div_is_ordered(di * ni, di * ei - 1, ei);
        vstd::arithmetic::div_mod::lemma_fundamental_div_mod_converse(di * ei - 1, ei, di - 1, ei - 1);
    } else {
        assert(di * ni == 0) by (nonlinear_arith)
            requires di == 0;
    }
}

} // verus!
