//! The directions of the rays.
//!
//! The rays of a detection fan out from its center at equal angles. Ray zero
//! points along the columns; the next rays turn toward the rows. A direction
//! is the pair `(sine, cosine)` of the ray's angle in fixed point, rounded to
//! the nearest unit of `1 / DIRECTION_ONE`.
use crate::error::InputError;
use crate::geometry::polygon::{is_bounded_ray, DIRECTION_ONE};
use vstd::prelude::*;

verus! {

/// The scale that leaves a direction as it is.
pub const SCALE_ONE: u32 = 0x1_0000;

/// How far the squared length of a direction, and the products of two
/// neighboring directions, may be off through rounding, in units of
/// `1 / DIRECTION_ONE`.
pub const FAN_SLACK: i64 = 2;

/// The squared length of a direction minus that of a unit direction.
pub open spec fn length_error(ray: (i32, i32)) -> int {
    ray.0 * ray.0 + ray.1 * ray.1 - DIRECTION_ONE * DIRECTION_ONE
}

/// The cosine of the angle from `a` to `b`, times the two lengths.
pub open spec fn dot(a: (i32, i32), b: (i32, i32)) -> int {
    a.0 * b.0 + a.1 * b.1
}

/// The sine of the angle from `a` to `b`, times the two lengths: positive
/// where `b` lies less than half a turn beyond `a`, from the columns toward
/// the rows.
pub open spec fn cross(a: (i32, i32), b: (i32, i32)) -> int {
    a.1 * b.0 - a.0 * b.1
}

/// The ray after ray `i`, around the fan.
pub open spec fn next_ray(i: int, n: int) -> int {
    if i + 1 == n {
        0
    } else {
        i + 1
    }
}

/// Ray `i` has its place in a fan of equal angles: it is of unit length, it
/// lies on the side of the columns' axis that its half of the fan lies on,
/// and the turn from it to the next ray is the turn from ray zero to ray one,
/// all within rounding.
pub open spec fn is_fan_ray(fan: Seq<(i32, i32)>, i: int) -> bool {
    let n = fan.len() as int;
    let j = next_ray(i, n);
    &&& -FAN_SLACK * DIRECTION_ONE <= length_error(fan[i]) <= FAN_SLACK * DIRECTION_ONE
    &&& 0 < 2 * i < n ==> fan[i].0 > 0
    &&& n < 2 * i ==> fan[i].0 < 0
    &&& cross(fan[i], fan[j]) > 0
    &&& -FAN_SLACK * DIRECTION_ONE <= dot(fan[i], fan[j]) - dot(fan[0], fan[1]) <= FAN_SLACK
        * DIRECTION_ONE
    &&& -FAN_SLACK * DIRECTION_ONE <= cross(fan[i], fan[j]) - cross(fan[0], fan[1]) <= FAN_SLACK
        * DIRECTION_ONE
}

/// The directions form a fan of equal angles that goes around once: ray
/// zero points along the columns, every ray is of unit length, each ray is
/// turned against the one before it by the same angle toward the rows, and
/// the first half of the fan lies on the side of the positive rows, the
/// second on the other.
///
/// Up to rounding, ray `i` of `n` is thus `(sin(i * 2 * pi / n),
/// cos(i * 2 * pi / n))`.
pub open spec fn is_fan(fan: Seq<(i32, i32)>) -> bool {
    &&& fan.len() >= 3
    &&& fan[0] == (0i32, DIRECTION_ONE)
    &&& forall|i: int| 0 <= i < fan.len() ==> #[trigger] is_fan_ray(fan, i)
}

/// Turning two directions by a quarter changes neither the length of the
/// first nor the angle between them.
proof fn lemma_quarter_turn(a: (i32, i32), b: (i32, i32), ta: (i32, i32), tb: (i32, i32))
    requires
        ta.0 == a.1,
        ta.1 == -a.0,
        tb.0 == b.1,
        tb.1 == -b.0,
    ensures
        length_error(ta) == length_error(a),
        dot(ta, tb) == dot(a, b),
        cross(ta, tb) == cross(a, b),
{
    assert(ta.0 * ta.0 + ta.1 * ta.1 == a.0 * a.0 + a.1 * a.1) by (nonlinear_arith)
        requires
            ta.0 == a.1,
            ta.1 == -a.0,
    ;
    assert(ta.0 * tb.0 + ta.1 * tb.1 == a.0 * b.0 + a.1 * b.1) by (nonlinear_arith)
        requires
            ta.0 == a.1,
            ta.1 == -a.0,
            tb.0 == b.1,
            tb.1 == -b.0,
    ;
    assert(ta.1 * tb.0 - ta.0 * tb.1 == a.1 * b.0 - a.0 * b.1) by (nonlinear_arith)
        requires
            ta.0 == a.1,
            ta.1 == -a.0,
            tb.0 == b.1,
            tb.1 == -b.0,
    ;
}

/// No ray of a fan has a component longer than one.
pub proof fn lemma_fan_is_bounded(fan: Seq<(i32, i32)>, i: int)
    requires
        is_fan(fan),
        0 <= i < fan.len(),
    ensures
        is_bounded_ray(fan[i]),
{
    let s = fan[i].0 as int;
    let c = fan[i].1 as int;
    let one = DIRECTION_ONE as int;
    assert(is_fan_ray(fan, i));
    assert(-one <= s <= one && -one <= c <= one) by (nonlinear_arith)
        requires
            s * s + c * c - one * one <= 2 * one,
            one == 0x100_0000,
    ;
}

/// The directions of a fan of 32 rays: the pairs `(sin(i * 2 * pi / 32),
/// cos(i * 2 * pi / 32))` times [`DIRECTION_ONE`], each rounded to the
/// nearest integer.
pub open spec fn fan_of_32() -> Seq<(i32, i32)> {
    seq![
        (0i32, 16777216i32),
        (3273072i32, 16454846i32),
        (6420363i32, 15500126i32),
        (9320922i32, 13949745i32),
        (11863283i32, 11863283i32),
        (13949745i32, 9320922i32),
        (15500126i32, 6420363i32),
        (16454846i32, 3273072i32),
        (16777216i32, 0i32),
        (16454846i32, -3273072i32),
        (15500126i32, -6420363i32),
        (13949745i32, -9320922i32),
        (11863283i32, -11863283i32),
        (9320922i32, -13949745i32),
        (6420363i32, -15500126i32),
        (3273072i32, -16454846i32),
        (0i32, -16777216i32),
        (-3273072i32, -16454846i32),
        (-6420363i32, -15500126i32),
        (-9320922i32, -13949745i32),
        (-11863283i32, -11863283i32),
        (-13949745i32, -9320922i32),
        (-15500126i32, -6420363i32),
        (-16454846i32, -3273072i32),
        (-16777216i32, 0i32),
        (-16454846i32, 3273072i32),
        (-15500126i32, 6420363i32),
        (-13949745i32, 9320922i32),
        (-11863283i32, 11863283i32),
        (-9320922i32, 13949745i32),
        (-6420363i32, 15500126i32),
        (-3273072i32, 16454846i32),
    ]
}

/// The 32 directions form a fan of equal angles that goes around once.
pub proof fn lemma_fan_of_32()
    ensures
        fan_of_32().len() == 32,
        is_fan(fan_of_32()),
{
    let fan = fan_of_32();
    assert(is_fan_ray(fan, 0)) by {
        let a = fan[0];
        let b = fan[1];
        assert(a == (0i32, 16777216i32) && b == (3273072i32, 16454846i32));
        assert(length_error(a) == 0 && dot(a, b) == 276066505588736 && cross(a, b) == 54913035927552)
            by (nonlinear_arith)
            requires
                a.0 == 0,
                a.1 == 16777216,
                b.0 == 3273072,
                b.1 == 16454846,
        ;
    }
    assert(is_fan_ray(fan, 1)) by {
        let a = fan[1];
        let b = fan[2];
        assert(a == (3273072i32, 16454846i32) && b == (6420363i32, 15500126i32));
        assert(length_error(a) == -19509756 && dot(a, b) == 276066496675732 && cross(a, b) == 54913056022026)
            by (nonlinear_arith)
            requires
                a.0 == 3273072,
                a.1 == 16454846,
                b.0 == 6420363,
                b.1 == 15500126,
        ;
    }
    assert(is_fan_ray(fan, 2)) by {
        let a = fan[2];
        let b = fan[3];
        assert(a == (6420363i32, 15500126i32) && b == (9320922i32, 13949745i32));
        assert(length_error(a) == -9643011 && dot(a, b) == 276066507902556 && cross(a, b) == 54913038778737)
            by (nonlinear_arith)
            requires
                a.0 == 6420363,
                a.1 == 15500126,
                b.0 == 9320922,
                b.1 == 13949745,
        ;
    }
    assert(is_fan_ray(fan, 3)) by {
        let a = fan[3];
        let b = fan[4];
        assert(a == (9320922i32, 13949745i32) && b == (11863283i32, 11863283i32));
        assert(length_error(a) == -4215547 && dot(a, b) == 276066508219761 && cross(a, b) == 54913037205909)
            by (nonlinear_arith)
            requires
                a.0 == 9320922,
                a.1 == 13949745,
                b.0 == 11863283,
                b.1 == 11863283,
        ;
    }
    assert(is_fan_ray(fan, 4)) by {
        let a = fan[4];
        let b = fan[5];
        assert(a == (11863283i32, 11863283i32) && b == (13949745i32, 9320922i32));
        assert(length_error(a) == -9634478 && dot(a, b) == 276066508219761 && cross(a, b) == 54913037205909)
            by (nonlinear_arith)
            requires
                a.0 == 11863283,
                a.1 == 11863283,
                b.0 == 13949745,
                b.1 == 9320922,
        ;
    }
    assert(is_fan_ray(fan, 5)) by {
        let a = fan[5];
        let b = fan[6];
        assert(a == (13949745i32, 9320922i32) && b == (15500126i32, 6420363i32));
        assert(length_error(a) == -4215547 && dot(a, b) == 276066507902556 && cross(a, b) == 54913038778737)
            by (nonlinear_arith)
            requires
                a.0 == 13949745,
                a.1 == 9320922,
                b.0 == 15500126,
                b.1 == 6420363,
        ;
    }
    assert(is_fan_ray(fan, 6)) by {
        let a = fan[6];
        let b = fan[7];
        assert(a == (15500126i32, 6420363i32) && b == (16454846i32, 3273072i32));
        assert(length_error(a) == -9643011 && dot(a, b) == 276066496675732 && cross(a, b) == 54913056022026)
            by (nonlinear_arith)
            requires
                a.0 == 15500126,
                a.1 == 6420363,
                b.0 == 16454846,
                b.1 == 3273072,
        ;
    }
    assert(is_fan_ray(fan, 7)) by {
        let a = fan[7];
        let b = fan[8];
        assert(a == (16454846i32, 3273072i32) && b == (16777216i32, 0i32));
        assert(length_error(a) == -19509756 && dot(a, b) == 276066505588736 && cross(a, b) == 54913035927552)
            by (nonlinear_arith)
            requires
                a.0 == 16454846,
                a.1 == 3273072,
                b.0 == 16777216,
                b.1 == 0,
        ;
    }
    assert(is_fan_ray(fan, 8)) by {
        lemma_quarter_turn(fan[0], fan[1], fan[8], fan[9]);
    }
    assert(is_fan_ray(fan, 9)) by {
        lemma_quarter_turn(fan[1], fan[2], fan[9], fan[10]);
    }
    assert(is_fan_ray(fan, 10)) by {
        lemma_quarter_turn(fan[2], fan[3], fan[10], fan[11]);
    }
    assert(is_fan_ray(fan, 11)) by {
        lemma_quarter_turn(fan[3], fan[4], fan[11], fan[12]);
    }
    assert(is_fan_ray(fan, 12)) by {
        lemma_quarter_turn(fan[4], fan[5], fan[12], fan[13]);
    }
    assert(is_fan_ray(fan, 13)) by {
        lemma_quarter_turn(fan[5], fan[6], fan[13], fan[14]);
    }
    assert(is_fan_ray(fan, 14)) by {
        lemma_quarter_turn(fan[6], fan[7], fan[14], fan[15]);
    }
    assert(is_fan_ray(fan, 15)) by {
        lemma_quarter_turn(fan[7], fan[8], fan[15], fan[16]);
    }
    assert(is_fan_ray(fan, 16)) by {
        lemma_quarter_turn(fan[8], fan[9], fan[16], fan[17]);
    }
    assert(is_fan_ray(fan, 17)) by {
        lemma_quarter_turn(fan[9], fan[10], fan[17], fan[18]);
    }
    assert(is_fan_ray(fan, 18)) by {
        lemma_quarter_turn(fan[10], fan[11], fan[18], fan[19]);
    }
    assert(is_fan_ray(fan, 19)) by {
        lemma_quarter_turn(fan[11], fan[12], fan[19], fan[20]);
    }
    assert(is_fan_ray(fan, 20)) by {
        lemma_quarter_turn(fan[12], fan[13], fan[20], fan[21]);
    }
    assert(is_fan_ray(fan, 21)) by {
        lemma_quarter_turn(fan[13], fan[14], fan[21], fan[22]);
    }
    assert(is_fan_ray(fan, 22)) by {
        lemma_quarter_turn(fan[14], fan[15], fan[22], fan[23]);
    }
    assert(is_fan_ray(fan, 23)) by {
        lemma_quarter_turn(fan[15], fan[16], fan[23], fan[24]);
    }
    assert(is_fan_ray(fan, 24)) by {
        lemma_quarter_turn(fan[16], fan[17], fan[24], fan[25]);
    }
    assert(is_fan_ray(fan, 25)) by {
        lemma_quarter_turn(fan[17], fan[18], fan[25], fan[26]);
    }
    assert(is_fan_ray(fan, 26)) by {
        lemma_quarter_turn(fan[18], fan[19], fan[26], fan[27]);
    }
    assert(is_fan_ray(fan, 27)) by {
        lemma_quarter_turn(fan[19], fan[20], fan[27], fan[28]);
    }
    assert(is_fan_ray(fan, 28)) by {
        lemma_quarter_turn(fan[20], fan[21], fan[28], fan[29]);
    }
    assert(is_fan_ray(fan, 29)) by {
        lemma_quarter_turn(fan[21], fan[22], fan[29], fan[30]);
    }
    assert(is_fan_ray(fan, 30)) by {
        lemma_quarter_turn(fan[22], fan[23], fan[30], fan[31]);
    }
    assert(is_fan_ray(fan, 31)) by {
        lemma_quarter_turn(fan[23], fan[24], fan[31], fan[0]);
    }
}

/// The directions of a fan of 32 rays.
pub fn ray_directions() -> (fan: Vec<(i32, i32)>)
    ensures
        fan@ == fan_of_32(),
        fan@.len() == 32,
        is_fan(fan@),
{
    let fan: Vec<(i32, i32)> = vec![
        (0, 16777216),
        (3273072, 16454846),
        (6420363, 15500126),
        (9320922, 13949745),
        (11863283, 11863283),
        (13949745, 9320922),
        (15500126, 6420363),
        (16454846, 3273072),
        (16777216, 0),
        (16454846, -3273072),
        (15500126, -6420363),
        (13949745, -9320922),
        (11863283, -11863283),
        (9320922, -13949745),
        (6420363, -15500126),
        (3273072, -16454846),
        (0, -16777216),
        (-3273072, -16454846),
        (-6420363, -15500126),
        (-9320922, -13949745),
        (-11863283, -11863283),
        (-13949745, -9320922),
        (-15500126, -6420363),
        (-16454846, -3273072),
        (-16777216, 0),
        (-16454846, 3273072),
        (-15500126, 6420363),
        (-13949745, 9320922),
        (-11863283, 11863283),
        (-9320922, 13949745),
        (-6420363, 15500126),
        (-3273072, 16454846),
    ];
    proof {
        assert(fan@ =~= fan_of_32());
        lemma_fan_of_32();
    }
    fan
}

/// One component of a direction, scaled: their product over [`SCALE_ONE`],
/// rounded to the nearest unit (a half rounds up).
pub open spec fn scaled_component(direction: i32, scale: u32) -> int {
    (direction * scale + SCALE_ONE / 2) / (SCALE_ONE as int)
}

/// The direction, scaled along the rows and along the columns, can be
/// stored.
pub open spec fn scale_fits(ray: (i32, i32), scale: (u32, u32)) -> bool {
    &&& i32::MIN <= scaled_component(ray.0, scale.0) <= i32::MAX
    &&& i32::MIN <= scaled_component(ray.1, scale.1) <= i32::MAX
}

/// Every direction, scaled, can be stored.
pub open spec fn scales_fit(rays: Seq<(i32, i32)>, scale: (u32, u32)) -> bool {
    forall|r: int| 0 <= r < rays.len() ==> scale_fits(#[trigger] rays[r], scale)
}

/// One component of a direction, scaled, or `None` where it cannot be
/// stored.
fn scale_component(direction: i32, scale: u32) -> (result: Option<i32>)
    ensures
        result is Some <==> i32::MIN <= scaled_component(direction, scale) <= i32::MAX,
        result matches Some(c) ==> c == scaled_component(direction, scale),
{
    let d: i128 = direction as i128;
    let s: i128 = scale as i128;
    assert(-0x8000_0000_0000_0000 <= d * s <= 0x8000_0000_0000_0000) by (nonlinear_arith)
        requires
            -0x8000_0000 <= d < 0x8000_0000,
            0 <= s < 0x1_0000_0000,
    ;
    let one: u128 = SCALE_ONE as u128;
    let num: i128 = d * s + (SCALE_ONE / 2) as i128;
    // the quotient rounded toward minus infinity
    let scaled: i128 = if num >= 0 {
        ((num as u128) / one) as i128
    } else {
        -((((-num) as u128 + (one - 1)) / one) as i128)
    };
    if scaled < i32::MIN as i128 || scaled > i32::MAX as i128 {
        None
    } else {
        Some(scaled as i32)
    }
}

/// Stretch the directions along the rows by `scale.0` and along the columns
/// by `scale.1`, both over [`SCALE_ONE`]. A polygon decoded along the
/// stretched directions is the polygon with its distances scaled per axis.
///
/// Fails with `OutOfRange` where a scaled direction cannot be stored.
pub fn scale_rays(rays: &Vec<(i32, i32)>, scale: (u32, u32)) -> (result: Result<Vec<(i32, i32)>, InputError>)
    ensures
        match result {
            Ok(scaled) => {
                &&& scales_fit(rays@, scale)
                &&& scaled@.len() == rays@.len()
                &&& forall|r: int|
                    0 <= r < rays@.len() ==> (#[trigger] scaled@[r]).0 == scaled_component(
                        rays@[r].0,
                        scale.0,
                    ) && scaled@[r].1 == scaled_component(rays@[r].1, scale.1)
            },
            Err(InputError::OutOfRange) => !scales_fit(rays@, scale),
            Err(_) => false,
        },
{
    let n = rays.len();
    let mut scaled: Vec<(i32, i32)> = Vec::with_capacity(n);
    let mut r: usize = 0;
    while r < n
        invariant
            r <= n,
            n == rays@.len(),
            scaled@.len() == r,
            forall|k: int| 0 <= k < r ==> scale_fits(#[trigger] rays@[k], scale),
            forall|k: int|
                0 <= k < r ==> (#[trigger] scaled@[k]).0 == scaled_component(rays@[k].0, scale.0)
                    && scaled@[k].1 == scaled_component(rays@[k].1, scale.1),
        decreases n - r,
    {
        let ray = rays[r];
        match (scale_component(ray.0, scale.0), scale_component(ray.1, scale.1)) {
            (Some(y), Some(x)) => {
                scaled.push((y, x));
            },
            _ => {
                assert(!scale_fits(rays@[r as int], scale));
                return Err(InputError::OutOfRange);
            },
        }
        r += 1;
    }
    Ok(scaled)
}

} // verus!
