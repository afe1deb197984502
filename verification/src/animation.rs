//! Time-driven colour pulsing for the renderer: a triangle wave over the
//! wall clock, scaled into a `[bottom, top)` colour-component band.

use vstd::prelude::*;
use vstd::arithmetic::div_mod::{lemma_add_mod_noop, lemma_div_is_ordered, lemma_mod_division_less_than_divisor};
use vstd::arithmetic::mul::lemma_mul_inequality;

verus! {

/// The absolute difference of two integers.
pub open spec fn dist(a: int, b: int) -> int {
    if a >= b {
        a - b
    } else {
        b - a
    }
}

/// The pulse value at clock reading `ms`: how far the phase
/// `(ms + offset) % duration` sits from the middle of the period, scaled
/// from `[0, duration/2]` into a band starting at `bottom`.
pub open spec fn color_component_spec(
    ms: int,
    offset: int,
    duration: int,
    bottom: int,
    top: int,
) -> int {
    let m = dist((ms + offset) % duration, duration / 2);
    bottom + ((m / (duration / 256)) * (top - bottom)) / 256
}

/// The largest value the pulse can take for given pacing parameters.
pub open spec fn color_component_max(duration: int, bottom: int, top: int) -> int {
    bottom + (((duration / 2) / (duration / 256)) * (top - bottom)) / 256
}

/// Derives pulsing colour components from the wall clock.
pub struct ColorGenerator {}

impl ColorGenerator {
    /// Relies on std's `SystemTime`: the milliseconds since the Unix epoch.
    /// A clock that reads before the epoch comes out as zero milliseconds.
    /// Nothing is assumed of the value returned.
    #[verifier::external_body]
    pub fn get_milliseconds() -> u128 {
        std::time::SystemTime::now()
            .duration_since(std::time::UNIX_EPOCH)
            .map(|d| d.as_millis())
            .unwrap_or(0)
    }

    /// The pulse value for the clock as it reads now: some reading's pulse,
    /// always inside the band.
    pub fn get_color_component(offset: u32, duration: u32, bottom: u8, top: u8) -> (r: u8)
        requires
            duration >= 256,
            bottom <= top,
            color_component_max(duration as int, bottom as int, top as int) <= 255,
        ensures
            bottom <= r,
            exists|ms: int|
                0 <= ms && r == color_component_spec(
                    ms,
                    offset as int,
                    duration as int,
                    bottom as int,
                    top as int,
                ),
    {
        let ms = Self::get_milliseconds();
        let r = Self::color_component_at(ms, offset, duration, bottom, top);
        proof {
            assert(0 <= ms as int && r == color_component_spec(
                ms as int,
                offset as int,
                duration as int,
                bottom as int,
                top as int,
            ));
        }
        r
    }

    /// The pulse value at one clock reading, computed exactly as the spec
    /// formula says.
    pub fn color_component_at(ms: u128, offset: u32, duration: u32, bottom: u8, top: u8) -> (r: u8)
        requires
            duration >= 256,
            bottom <= top,
            color_component_max(duration as int, bottom as int, top as int) <= 255,
        ensures
            bottom <= r,
            r == color_component_spec(
                ms as int,
                offset as int,
                duration as int,
                bottom as int,
                top as int,
            ),
    {
        let d: u64 = duration as u64;
        let m0: u64 = (ms % (duration as u128)) as u64;
        let t: u64 = (m0 + (offset as u64) % d) % d;
        proof {
            lemma_add_mod_noop(ms as int, offset as int, d as int);
            lemma_mod_division_less_than_divisor(ms as int + offset as int, d as int);
            assert(t == (ms as int + offset as int) % (d as int));
        }
        let half: u64 = d / 2;
        let m: u64 = if t >= half {
            t - half
        } else {
            half - t
        };
        let divider: u64 = d / 256;
        let range: u64 = (top - bottom) as u64;
        proof {
            assert(m as int / divider as int <= m as int && (m as int / divider as int) * (
            range as int) <= m as int * 256) by (nonlinear_arith)
                requires
                    divider >= 1,
                    0 <= m,
                    range <= 255,
            ;
        }
        let value: u64 = ((m / divider) * range) / 256;
        proof {
            assert(m <= half);
            lemma_div_is_ordered(m as int, half as int, divider as int);
            lemma_mul_inequality(m as int / divider as int, half as int / divider as int,
                range as int);
            lemma_div_is_ordered(
                (m as int / divider as int) * range as int,
                (half as int / divider as int) * range as int,
                256,
            );
            assert(value <= (half as int / divider as int) * range as int / 256);
        }
        bottom + (value as u8)
    }
}

} // verus!
