//! Surface materials. A material turns an incident ray and a surface
//! normal into an attenuation colour and a scattered ray; the scattering
//! computation itself runs on floating-point vectors outside this
//! library, parameterised by the material's data held here.

use vstd::prelude::*;
use crate::color::Color;

verus! {

/// A Lambertian (diffuse) material: it always scatters, attenuating by
/// its albedo.
pub struct Lambertian<T> {
    pub albedo: Color<T>,
}

impl<T> Lambertian<T> {
    pub fn new(albedo: Color<T>) -> (m: Self)
        ensures
            m.albedo == albedo,
    {
        Self { albedo }
    }
}

} // verus!
