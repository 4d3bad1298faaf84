use vstd::prelude::*;
use crate::types::{Fraction, HazeError, Image, Rgb};
use crate::dark::{dark_channel, is_dark_map};
use crate::transmission::{transmission_map, transmission_of};
use crate::atmosphere::{get_atmospheric, is_ranking, atmospheric_of, candidate_count};
use crate::radiance::{reconstruct, is_reconstruction};

verus! {

/// The tuning constants of the pipeline.
#[derive(Debug, Clone, Copy, PartialEq, Eq, Structural)]
pub struct HazeParams {
    /// Edge of the square window of the dark channel.
    pub patch_size: u32,
    /// Share of the haze that is removed, in `(0, 1)`.
    pub omega: Fraction,
    /// Floor of the transmission, in `(0, 1)`.
    pub t_0: Fraction,
    /// Share of the pixels that are candidates for the atmospheric light, in `(0, 1]`.
    pub a_proportion: Fraction,
}

impl HazeParams {
    pub open spec fn valid(self) -> bool {
        &&& self.patch_size >= 1
        &&& self.omega.in_open_unit()
        &&& self.t_0.in_open_unit()
        &&& self.a_proportion.in_half_open_unit()
    }
}

impl Default for HazeParams {
    /// Windows of 5, omega 0.95, floor 0.1 and candidates 0.002.
    fn default() -> (r: HazeParams)
        ensures
            r.patch_size == 5,
            r.omega == (Fraction { num: 19, den: 20 }),
            r.t_0 == (Fraction { num: 1, den: 10 }),
            r.a_proportion == (Fraction { num: 1, den: 500 }),
    {
        HazeParams {
            patch_size: 5,
            omega: Fraction { num: 19, den: 20 },
            t_0: Fraction { num: 1, den: 10 },
            a_proportion: Fraction { num: 1, den: 500 },
        }
    }
}

/// What the pipeline yields: the transmission map, the atmospheric light and
/// the recovered image, three samples per pixel.
pub struct Dehazed {
    pub transmission: Vec<u8>,
    pub atmospheric: Rgb,
    pub radiance: Vec<u8>,
}

/// Runs the four stages on `image`.
pub fn dehaze(image: &Image, params: HazeParams) -> (r: Result<Dehazed, HazeError>)
    ensures
        match r {
            Ok(out) => exists|dark: Seq<u8>, order: Seq<usize>| {
                &&& is_dark_map(image, params.patch_size as int, dark)
                &&& is_ranking(dark, order)
                &&& out.atmospheric == atmospheric_of(
                    image.pixels@,
                    order,
                    candidate_count(dark.len() as int, params.a_proportion),
                )
                &&& out.transmission@.len() == dark.len()
                &&& forall|i: int| 0 <= i < dark.len() ==>
                    #[trigger] out.transmission@[i] as int == transmission_of(dark[i] as int, params.omega)
                &&& is_reconstruction(image.pixels@, out.atmospheric, out.transmission@, params.t_0, out.radiance@)
            },
            Err(e) => if !image.wf() {
                e == HazeError::InvalidDimensions
            } else {
                e == HazeError::InvalidParameter && !params.valid()
            },
        },
        r.is_ok() <==> image.wf() && params.valid(),
{
    if !image.is_valid() {
        return Err(HazeError::InvalidDimensions);
    }
    if !(params.omega.num > 0 && params.omega.num < params.omega.den) || !(params.t_0.num > 0
        && params.t_0.num < params.t_0.den) {
        return Err(HazeError::InvalidParameter);
    }
    let dark = match dark_channel(image, params.patch_size) {
        Ok(d) => d,
        Err(e) => return Err(e),
    };
    assert(dark@.len() == image.pixels@.len());
    assert(image.w() * image.h() > 0) by (nonlinear_arith)
        requires image.w() > 0, image.h() > 0;
    let atmospheric = match get_atmospheric(&dark, image, params.a_proportion) {
        Ok(a) => a,
        Err(e) => return Err(e),
    };
    let ghost dark_v = dark@;
    let transmission = match transmission_map(dark, params.omega) {
        Ok(t) => t,
        Err(e) => return Err(e),
    };
    let radiance = match reconstruct(image, &atmospheric, &transmission, params.t_0) {
        Ok(o) => o,
        Err(e) => return Err(e),
    };
    let out = Dehazed { transmission, atmospheric, radiance };
    proof {
        let order = choose|order: Seq<usize>|
            is_ranking(dark_v, order) && atmospheric == atmospheric_of(
                image.pixels@,
                order,
                candidate_count(dark_v.len() as int, params.a_proportion),
            );
        assert(is_dark_map(image, params.patch_size as int, dark_v));
        assert(is_ranking(dark_v, order));
    }
    Ok(out)
}

} // verus!
