//! Random sites and colors, on top of the process-wide random generator.

use vstd::prelude::*;

use crate::geom::Color;
use crate::geom::Site;
use crate::geom::COLOR_MAX;
use crate::geom::MAX_COORD;

verus! {

/// Relies on `rand::random`: a freshly drawn value of the standard
/// distribution; nothing is promised of it.
pub assume_specification<T>[ rand::random::<T> ]() -> (r: T)
    where
        rand::distr::StandardUniform: rand::distr::Distribution<T>,
;

/// A random value below `n`; only the bound is promised.
fn rand_below(n: u64) -> (r: u64)
    requires
        n > 0,
    ensures
        r < n,
{
    let v: u64 = rand::random::<u64>();
    v % n
}

/// A freshly sampled opaque color: every channel within range, full alpha.
pub fn random_color() -> (c: Color)
    ensures
        c.ok(),
        c.a == COLOR_MAX,
{
    Color {
        r: rand_below(COLOR_MAX as u64) as u32,
        g: rand_below(COLOR_MAX as u64) as u32,
        b: rand_below(COLOR_MAX as u64) as u32,
        a: COLOR_MAX,
    }
}

/// A freshly sampled site within `[0, width) x [0, height)` micro-units.
pub fn random_site(width: i64, height: i64) -> (s: Site)
    requires
        0 < width <= MAX_COORD,
        0 < height <= MAX_COORD,
    ensures
        s.ok(),
        0 <= s.x < width,
        0 <= s.y < height,
{
    Site { x: rand_below(width as u64) as i64, y: rand_below(height as u64) as i64 }
}

} // verus!
