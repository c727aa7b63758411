//! Surface materials and the catalogue the scene uses.
use crate::util::fixed::Fixed;
use crate::util::vec3::Vec3;
use vstd::prelude::*;

verus! {

/// How a surface answers to light.
///
/// The four albedo weights scale, in this order, the diffuse term, the
/// specular term, the reflected ray and the refracted ray.  They need not
/// sum to one, and the shader never normalises them.
#[derive(Clone, Copy, Debug)]
pub struct Material {
    pub refractive_index: Fixed,
    pub albedo: [Fixed; 4],
    pub diffuse_color: Vec3,
    pub specular_exponent: u32,
}

/// Ivory: index 1, albedo (0.9, 0.5, 0.1, 0), colour (0.4, 0.4, 0.3), exponent 50.
pub open spec fn ivory_spec() -> Material {
    Material {
        refractive_index: Fixed::ratio(1, 1),
        albedo: [Fixed::ratio(9, 10), Fixed::ratio(5, 10), Fixed::ratio(1, 10), Fixed::ratio(0, 1)],
        diffuse_color: Vec3 {
            x: Fixed::ratio(4, 10),
            y: Fixed::ratio(4, 10),
            z: Fixed::ratio(3, 10),
        },
        specular_exponent: 50,
    }
}

/// Glass: index 1.5, albedo (0, 0.9, 0.1, 0.8), colour (0.6, 0.7, 0.8), exponent 125.
pub open spec fn glass_spec() -> Material {
    Material {
        refractive_index: Fixed::ratio(3, 2),
        albedo: [Fixed::ratio(0, 1), Fixed::ratio(9, 10), Fixed::ratio(1, 10), Fixed::ratio(8, 10)],
        diffuse_color: Vec3 {
            x: Fixed::ratio(6, 10),
            y: Fixed::ratio(7, 10),
            z: Fixed::ratio(8, 10),
        },
        specular_exponent: 125,
    }
}

/// Red rubber: index 1, albedo (1.4, 0.3, 0, 0), colour (0.3, 0.1, 0.1), exponent 10.
pub open spec fn red_rubber_spec() -> Material {
    Material {
        refractive_index: Fixed::ratio(1, 1),
        albedo: [Fixed::ratio(14, 10), Fixed::ratio(3, 10), Fixed::ratio(0, 1), Fixed::ratio(0, 1)],
        diffuse_color: Vec3 {
            x: Fixed::ratio(3, 10),
            y: Fixed::ratio(1, 10),
            z: Fixed::ratio(1, 10),
        },
        specular_exponent: 10,
    }
}

/// Mirror: index 1, albedo (0, 16, 0.8, 0), colour (1, 1, 1), exponent 1425.
pub open spec fn mirror_spec() -> Material {
    Material {
        refractive_index: Fixed::ratio(1, 1),
        albedo: [Fixed::ratio(0, 1), Fixed::ratio(16, 1), Fixed::ratio(8, 10), Fixed::ratio(0, 1)],
        diffuse_color: Vec3 { x: Fixed::ratio(1, 1), y: Fixed::ratio(1, 1), z: Fixed::ratio(1, 1) },
        specular_exponent: 1425,
    }
}

/// The floor: index 1, albedo (2, 0, 0, 0), exponent 0, and the colour of
/// the tile that was hit.
pub open spec fn floor_spec(color: Vec3) -> Material {
    Material {
        refractive_index: Fixed::ratio(1, 1),
        albedo: [Fixed::ratio(2, 1), Fixed::ratio(0, 1), Fixed::ratio(0, 1), Fixed::ratio(0, 1)],
        diffuse_color: color,
        specular_exponent: 0,
    }
}

/// Ivory.
pub fn ivory() -> (m: Material)
    ensures
        m == ivory_spec(),
{
    Material {
        refractive_index: Fixed::from_ratio(1, 1),
        albedo: [
            Fixed::from_ratio(9, 10),
            Fixed::from_ratio(5, 10),
            Fixed::from_ratio(1, 10),
            Fixed::from_ratio(0, 1),
        ],
        diffuse_color: Vec3 {
            x: Fixed::from_ratio(4, 10),
            y: Fixed::from_ratio(4, 10),
            z: Fixed::from_ratio(3, 10),
        },
        specular_exponent: 50,
    }
}

/// Glass.
pub fn glass() -> (m: Material)
    ensures
        m == glass_spec(),
{
    Material {
        refractive_index: Fixed::from_ratio(3, 2),
        albedo: [
            Fixed::from_ratio(0, 1),
            Fixed::from_ratio(9, 10),
            Fixed::from_ratio(1, 10),
            Fixed::from_ratio(8, 10),
        ],
        diffuse_color: Vec3 {
            x: Fixed::from_ratio(6, 10),
            y: Fixed::from_ratio(7, 10),
            z: Fixed::from_ratio(8, 10),
        },
        specular_exponent: 125,
    }
}

/// Red rubber.
pub fn red_rubber() -> (m: Material)
    ensures
        m == red_rubber_spec(),
{
    Material {
        refractive_index: Fixed::from_ratio(1, 1),
        albedo: [
            Fixed::from_ratio(14, 10),
            Fixed::from_ratio(3, 10),
            Fixed::from_ratio(0, 1),
            Fixed::from_ratio(0, 1),
        ],
        diffuse_color: Vec3 {
            x: Fixed::from_ratio(3, 10),
            y: Fixed::from_ratio(1, 10),
            z: Fixed::from_ratio(1, 10),
        },
        specular_exponent: 10,
    }
}

/// Mirror.
pub fn mirror() -> (m: Material)
    ensures
        m == mirror_spec(),
{
    Material {
        refractive_index: Fixed::from_ratio(1, 1),
        albedo: [
            Fixed::from_ratio(0, 1),
            Fixed::from_ratio(16, 1),
            Fixed::from_ratio(8, 10),
            Fixed::from_ratio(0, 1),
        ],
        diffuse_color: Vec3 {
            x: Fixed::from_ratio(1, 1),
            y: Fixed::from_ratio(1, 1),
            z: Fixed::from_ratio(1, 1),
        },
        specular_exponent: 1425,
    }
}

/// The material of a floor tile of the given colour.
pub fn floor(color: Vec3) -> (m: Material)
    ensures
        m == floor_spec(color),
{
    Material {
        refractive_index: Fixed::from_ratio(1, 1),
        albedo: [
            Fixed::from_ratio(2, 1),
            Fixed::from_ratio(0, 1),
            Fixed::from_ratio(0, 1),
            Fixed::from_ratio(0, 1),
        ],
        diffuse_color: color,
        specular_exponent: 0,
    }
}

} // verus!
