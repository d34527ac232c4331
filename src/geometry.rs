//! Projection of a stroke's keyframes onto a circular pitch diagram.
//!
//! Angles are measured in the game's own direction units, `REVOLUTION` of
//! them to a full turn, anticlockwise from the direction straight behind the
//! batsman. Radii are in the units of the pitch radius given by the caller.
use vstd::prelude::*;
use vstd::arithmetic::div_mod::lemma_fundamental_div_mod_converse;
use crate::strokes::{Stroke, StrokeTiming};

verus! {

/// Direction units in one full turn.
pub const REVOLUTION: u64 = 269_070_000;

/// The direction that points straight behind the batsman.
pub const BEHIND_BATSMAN: u64 = 60_000;

/// The power that reaches the edge of the pitch.
pub const POWER_SCALE: u64 = 4_500_000;

/// The area that one keyframe's shot may reach: an angular range from
/// `angle_start` anticlockwise to `angle_end` (crossing angle zero where
/// `angle_start > angle_end`), between the radii of the weakest and the
/// strongest shot.
#[derive(Clone, Copy, Debug, PartialEq, Eq, Structural)]
pub struct ShotWedge {
    pub angle_start: u64,
    pub angle_end: u64,
    pub inner_radius: i128,
    pub outer_radius: i128,
}

/// An angle brought into `[0, REVOLUTION)`; negative angles wrap forward.
pub open spec fn normalize(x: int) -> int {
    x % (REVOLUTION as int)
}

/// The centre line of the shot, before normalising.
pub open spec fn shot_angle(t: StrokeTiming) -> int {
    t.direction - BEHIND_BATSMAN
}

/// `power` scaled so that `POWER_SCALE` reaches `pitch_radius`, rounded
/// toward zero.
pub open spec fn scaled_radius(pitch_radius: int, power: int) -> int {
    if power >= 0 {
        pitch_radius * power / (POWER_SCALE as int)
    } else {
        -(pitch_radius * -power / (POWER_SCALE as int))
    }
}

/// The wedge of one keyframe on a pitch of the given radius.
pub open spec fn wedge_of(t: StrokeTiming, pitch_radius: int) -> ShotWedge {
    ShotWedge {
        angle_start: normalize(shot_angle(t) - t.direction_area) as u64,
        angle_end: normalize(shot_angle(t) + t.direction_area) as u64,
        inner_radius: scaled_radius(pitch_radius, t.power - t.power_area) as i128,
        outer_radius: scaled_radius(pitch_radius, t.power + t.power_area) as i128,
    }
}

proof fn lemma_shift_mod(x: int, y: int, k: int)
    requires
        x == y + k * REVOLUTION,
        y >= 0,
    ensures
        normalize(x) == y % (REVOLUTION as int),
{
    lemma_fundamental_div_mod_converse(
        x,
        REVOLUTION as int,
        k + y / (REVOLUTION as int),
        y % (REVOLUTION as int),
    );
}

fn scale(pitch_radius: u32, magnitude: u128) -> (r: u128)
    requires
        magnitude <= 2 * (u64::MAX as int),
    ensures
        r == pitch_radius * magnitude / (POWER_SCALE as int),
        r <= (u32::MAX as int) * (2 * (u64::MAX as int)),
{
    assert(0 <= pitch_radius * magnitude <= (u32::MAX as int) * (2 * (u64::MAX as int))) by (nonlinear_arith)
        requires
            magnitude <= 2 * (u64::MAX as int),
            pitch_radius <= u32::MAX,
    ;
    (pitch_radius as u128 * magnitude) / (POWER_SCALE as u128)
}

/// The wedge of one keyframe on a pitch of radius `pitch_radius`.
pub fn shot_wedge(t: &StrokeTiming, pitch_radius: u32) -> (w: ShotWedge)
    ensures
        w == wedge_of(*t, pitch_radius as int),
        w.angle_start < REVOLUTION,
        w.angle_end < REVOLUTION,
{
    let dm = t.direction % REVOLUTION;
    let am = t.direction_area % REVOLUTION;
    let start = (dm + 2 * REVOLUTION - BEHIND_BATSMAN - am) % REVOLUTION;
    let end = (dm + REVOLUTION - BEHIND_BATSMAN + am) % REVOLUTION;
    proof {
        let qd = t.direction as int / REVOLUTION as int;
        let qa = t.direction_area as int / REVOLUTION as int;
        lemma_shift_mod(
            shot_angle(*t) - t.direction_area,
            dm + 2 * REVOLUTION - BEHIND_BATSMAN - am,
            qd - qa - 2,
        );
        lemma_shift_mod(
            shot_angle(*t) + t.direction_area,
            dm + REVOLUTION - BEHIND_BATSMAN + am,
            qd + qa - 1,
        );
    }
    let high = t.power as u128 + t.power_area as u128;
    let outer = scale(pitch_radius, high) as i128;
    let inner = if t.power >= t.power_area {
        scale(pitch_radius, (t.power - t.power_area) as u128) as i128
    } else {
        -(scale(pitch_radius, (t.power_area - t.power) as u128) as i128)
    };
    ShotWedge { angle_start: start, angle_end: end, inner_radius: inner, outer_radius: outer }
}

/// A keyframe without a spread of direction gives a single ray, one without a
/// spread of power gives equal radii, and both angles of every wedge lie in
/// `[0, REVOLUTION)`.
pub proof fn lemma_wedge_degenerate_cases(t: StrokeTiming, pitch_radius: u32)
    ensures
        t.direction_area == 0 ==> wedge_of(t, pitch_radius as int).angle_start == wedge_of(
            t,
            pitch_radius as int,
        ).angle_end,
        t.power_area == 0 ==> wedge_of(t, pitch_radius as int).inner_radius == wedge_of(
            t,
            pitch_radius as int,
        ).outer_radius,
        0 <= normalize(shot_angle(t) - t.direction_area) < REVOLUTION,
        0 <= normalize(shot_angle(t) + t.direction_area) < REVOLUTION,
        wedge_of(t, pitch_radius as int).angle_start == normalize(shot_angle(t) - t.direction_area),
        wedge_of(t, pitch_radius as int).angle_end == normalize(shot_angle(t) + t.direction_area),
{
}

/// The five keyframes of normal play, or of six-hit play.
pub open spec fn timings_of(s: Stroke, six_hit: bool) -> Seq<StrokeTiming> {
    if six_hit {
        s.timings_hit6@
    } else {
        s.timings_normal@
    }
}

/// The wedges of the five keyframes of one mode of a stroke, in keyframe order.
pub fn stroke_wedges(stroke: &Stroke, six_hit: bool, pitch_radius: u32) -> (r: Vec<ShotWedge>)
    ensures
        r@.len() == 5,
        forall|i: int| 0 <= i < 5 ==> r@[i] == wedge_of(timings_of(*stroke, six_hit)[i], pitch_radius as int),
{
    let timings = if six_hit {
        &stroke.timings_hit6
    } else {
        &stroke.timings_normal
    };
    let mut r: Vec<ShotWedge> = Vec::new();
    let mut i: usize = 0;
    while i < 5
        invariant
            i <= 5,
            timings@ == timings_of(*stroke, six_hit),
            r@.len() == i,
            forall|j: int| 0 <= j < i ==> r@[j] == wedge_of(timings_of(*stroke, six_hit)[j], pitch_radius as int),
        decreases 5 - i,
    {
        r.push(shot_wedge(&timings[i], pitch_radius));
        i = i + 1;
    }
    r
}

/// The pitch circle drawn inside a rectangle: centred, and `padding` short of
/// the nearer pair of sides.
#[derive(Clone, Copy, Debug, PartialEq, Eq, Structural)]
pub struct PitchCircle {
    pub centre_x: i64,
    pub centre_y: i64,
    pub radius: i64,
}

/// Half of `x`, rounded toward zero.
pub open spec fn half_toward_zero(x: int) -> int {
    if x >= 0 {
        x / 2
    } else {
        -((-x) / 2)
    }
}

pub open spec fn pitch_circle_of(left: int, top: int, right: int, bottom: int, padding: int) -> PitchCircle {
    let half = if bottom - top <= right - left {
        half_toward_zero(bottom - top)
    } else {
        half_toward_zero(right - left)
    };
    PitchCircle {
        centre_x: half_toward_zero(left + right) as i64,
        centre_y: half_toward_zero(top + bottom) as i64,
        radius: (half - padding) as i64,
    }
}

/// The pitch circle of the rectangle from (`left`, `top`) to (`right`,
/// `bottom`); an inverted rectangle gives a negative radius.
pub fn pitch_circle(left: i32, top: i32, right: i32, bottom: i32, padding: i32) -> (c: PitchCircle)
    ensures
        c == pitch_circle_of(left as int, top as int, right as int, bottom as int, padding as int),
{
    let width = right as i64 - left as i64;
    let height = bottom as i64 - top as i64;
    let shorter = if height <= width {
        height
    } else {
        width
    };
    PitchCircle {
        centre_x: (left as i64 + right as i64) / 2,
        centre_y: (top as i64 + bottom as i64) / 2,
        radius: shorter / 2 - padding as i64,
    }
}

} // verus!
