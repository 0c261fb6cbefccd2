//! What the calls of a frame make of a session, and what they leave as it is.

use vstd::prelude::*;
use crate::bank::{clack_place_of, stereo, stereo_file, whoosh_place_of};
use crate::config::Config;
use crate::cradle::{Ball, Impact, Sweep, meet, omegas, resolved, sweep_once, swept, swung, swung_row};
use crate::dust::{Chance, aged, dusted};
use crate::file_laws::{headers_describe_the_samples, read_bytes};
use crate::float::{Float, dec};
use crate::frame_laws::hard_impacts_are_heard;
use crate::hand_laws::rows_are_hung_around_the_middle;
use crate::near::{abs, near, num, lemma_compare, lemma_dec_near, lemma_int_num, lemma_num_order, lemma_times_dec, lemma_tiny, lemma_abs_product, lemma_add_near, lemma_mul_near, lemma_sub_near};
use crate::noise::noise_at;
use crate::scene::{Caption, notice};
use crate::scene_laws::{on_screen, slack, tint, tinted, words, lemma_beside, lemma_shade};
use crate::session::{Keys, Mouse, State, Times, after_keys, after_rebuild, after_saving, beginning, calmed, clack, dragged, dusty, extended, fitted, gripped, impact_before, knocked, knocked_state, left, moused, passed, pressed, rush, rush_voice, shaken, shakes, strike_voice, struck, sweep, swung_state, tuned, turned, unsaved, watched};
use crate::tone_laws::{pitches_rise_in_even_steps, positions_go_from_left_to_right};
use crate::vector::Vec2;
use crate::wav::{data_bytes, header, level, read_i16, samples_read_back};
use crate::whoosh::{band_pass, envelope, memory_after, raw_whoosh, whoosh_samples, whoosh_seed};

verus! {

/// In a step every ball swings but for the one that is held, which stays as it is.
pub proof fn all_but_the_held_ball_swing(
    balls: Seq<Ball>,
    sines: Seq<Float>,
    dragging: Option<usize>,
    damping: Float,
    dt: Float,
    i: usize,
)
    requires
        i < balls.len() == sines.len(),
    ensures
        swung_row(balls, sines, dragging, damping, dt).len() == balls.len(),
        dragging == Some(i) ==> swung_row(balls, sines, dragging, damping, dt)[i as int] == balls[i as int],
        dragging != Some(i) ==> swung_row(balls, sines, dragging, damping, dt)[i as int] == swung(
            balls[i as int],
            sines[i as int],
            damping,
            dt,
        ),
{
}

/// The keys change the row and the settings they are for, and one stops and starts time; they
/// change nothing else.
pub proof fn keys_change_only_what_they_are_for(s: State, keys: Keys, sw: Float)
    requires
        3 <= s.config.n_balls <= 7,
    ensures
        ({
            let t = pressed(s, keys, sw);
            let r = after_keys(s.row(), keys, sw);
            &&& t.paused == if keys.pause {
                !s.paused
            } else {
                s.paused
            }
            &&& t.balls == r.balls && t.dragging == r.dragging && t.config.n_balls == r.n
            &&& t.config.damping == s.config.damping && t.config.room == s.config.room
            &&& t.config.volume == tuned(s.config, keys).volume
            &&& t.config.time_scale == tuned(s.config, keys).time_scale
            &&& t.config.mute == tuned(s.config, keys).mute
            &&& t.last_saved == s.last_saved && t.trails == s.trails && t.prev_theta == s.prev_theta
            &&& t.particles == s.particles && t.active_slider == s.active_slider
            &&& t.need_rebuild == s.need_rebuild && t.shake == s.shake
        }),
{
}

/// Only the key for it leaves, and the settings as they are then are to be saved.
pub proof fn leaving_saves_the_settings(s: State, keys: Keys)
    ensures
        left(s, keys) is Some <==> keys.quit,
        keys.quit ==> left(s, keys) == Some(s.config),
{
}

/// A sweep is heard where a ball has crossed the bottom faster than 260 pixels per second and
/// none is held.
pub proof fn fast_balls_are_heard(s: State, places: Seq<Vec2>, sw: Float)
    requires
        rush(s.prev_theta, s.balls, places, sw, s.balls.len()).0.finite(),
    ensures
        ({
            let r = rush(s.prev_theta, s.balls, places, sw, s.balls.len());
            &&& rush_voice(s, places, sw) is Some <==> num(r.0) > 260real && s.dragging is None
            &&& rush_voice(s, places, sw) is Some ==> rush_voice(s, places, sw) == Some(
                sweep(r.0, r.1, sw, s.config),
            )
        }),
{
    lemma_int_num(260);
    lemma_compare(dec(260, 1), rush(s.prev_theta, s.balls, places, sw, s.balls.len()).0);
}

/// There is a trail for every ball: where there are as many as balls nothing changes, else
/// all trails start anew, and with them the angles that are remembered.
pub proof fn every_ball_has_a_trail(s: State)
    requires
        s.balls.len() == s.config.n_balls,
    ensures
        fitted(s).trails.len() == s.balls.len(),
        s.trails.len() == s.balls.len() ==> fitted(s) == s,
        s.trails.len() != s.balls.len() ==> {
            &&& forall|i: int| 0 <= i < s.balls.len() ==> (#[trigger] fitted(s).trails[i]).len() == 0
            &&& fitted(s).prev_theta.len() == s.balls.len()
            &&& forall|i: int|
                0 <= i < s.balls.len() ==> #[trigger] fitted(s).prev_theta[i] == s.balls[i].theta
            &&& fitted(s).balls == s.balls && fitted(s).config == s.config && fitted(s).particles
                == s.particles && fitted(s).dragging == s.dragging && fitted(s).shake == s.shake
        },
{
}

/// Whether the numbers among settings are finite.
pub open spec fn numbered(c: Config) -> bool {
    c.damping.finite() && c.room.finite() && c.time_scale.finite() && c.volume.finite()
}

/// Settings are saved where one of them differs from what was saved and no slider is held.
pub proof fn changed_settings_are_saved(s: State)
    requires
        numbered(s.config),
        numbered(s.last_saved),
    ensures
        ({
            let (a, b) = (s.config, s.last_saved);
            let same = num(a.damping) == num(b.damping) && num(a.room) == num(b.room) && num(a.time_scale)
                == num(b.time_scale) && num(a.volume) == num(b.volume) && a.mute == b.mute && a.n_balls
                == b.n_balls;
            &&& unsaved(s) is Some <==> !same && s.active_slider is None
            &&& unsaved(s) is Some ==> unsaved(s) == Some(s.config)
        }),
{
    let (a, b) = (s.config, s.last_saved);
    lemma_num_order(a.damping, b.damping);
    lemma_num_order(a.room, b.room);
    lemma_num_order(a.time_scale, b.time_scale);
    lemma_num_order(a.volume, b.volume);
    reveal(Float::spec_same);
}

/// Shaking is seen where it is more than a tenth of a pixel.
pub proof fn strong_shaking_is_seen(shake: Float)
    requires
        shake.finite(),
    ensures
        num(shake) >= 100001real / 1000000real ==> shakes(shake),
        num(shake) <= 99999real / 1000000real ==> !shakes(shake),
{
    lemma_tiny();
    lemma_dec_near(1, 10);
    lemma_compare(dec(1, 10), shake);
}

/// Before a frame there is no impact, and where it would be is the middle of the screen.
pub proof fn frames_start_without_impact(sw: Float, sh: Float)
    requires
        sw.finite() && abs(num(sw)) <= 0x1_0000real,
        sh.finite() && abs(num(sh)) <= 0x1_0000real,
    ensures
        num(impact_before(sw, sh).speed) == 0real,
        near(impact_before(sw, sh).at.x, num(sw) / 2real, 1real / 50real),
        near(impact_before(sw, sh).at.y, num(sh) / 2real, 1real / 50real),
{
    lemma_tiny();
    lemma_int_num(0);
    lemma_times_dec(5, 10, sw);
    lemma_times_dec(5, 10, sh);
}

/// What the sliders and the captions show is what the settings are.
pub proof fn settings_are_shown(s: State)
    ensures
        s.ui().damping == s.config.damping,
        s.ui().room == s.config.room,
        s.ui().time_scale == s.config.time_scale,
        s.ui().volume == s.config.volume,
        s.ui().mute == s.config.mute,
        s.ui().paused == s.paused,
{
}

/// The banks are laid out by pitch, and for each pitch from left to right.
pub proof fn banks_are_laid_out_by_pitch_and_position(n: nat)
    ensures
        n < 60 ==> near(clack_place_of(n).0, 720real + 780real * (n / 5) as real / 11real, 1real / 100real)
            && near(clack_place_of(n).1, (n % 5) as real / 2real - 1real, 1real / 100000real),
        n < 25 ==> near(whoosh_place_of(n).0, 380real + 180real * (n / 5) as real, 1real / 100real) && near(
            whoosh_place_of(n).1,
            (n % 5) as real / 2real - 1real,
            1real / 100000real,
        ),
{
    pitches_rise_in_even_steps(n / 5);
    positions_go_from_left_to_right(n % 5);
}

/// What stands behind the header of a file, and in it.
proof fn lemma_behind(h: Seq<u8>, d: Seq<u8>, k: int)
    requires
        h.len() == 44,
        0 <= k,
        k + 3 < d.len(),
    ensures
        (h + d).subrange(22, 24) == h.subrange(22, 24),
        (h + d).subrange(24, 28) == h.subrange(24, 28),
        (h + d).subrange(40, 44) == h.subrange(40, 44),
        (h + d)[44 + k] == d[k] && (h + d)[45 + k] == d[k + 1],
        (h + d)[46 + k] == d[k + 2] && (h + d)[47 + k] == d[k + 3],
{
    assert((h + d).subrange(22, 24) =~= h.subrange(22, 24));
    assert((h + d).subrange(24, 28) =~= h.subrange(24, 28));
    assert((h + d).subrange(40, 44) =~= h.subrange(40, 44));
}

/// A sound as a file is on two channels at 44100 samples per second, and its samples are those
/// of the left and the right channel in turn.
pub proof fn sound_files_hold_both_channels(mono: Seq<Float>, lg: Float, rg: Float, i: int)
    requires
        36 + 4 * mono.len() <= u32::MAX,
        0 <= i < mono.len(),
    ensures
        ({
            let f = stereo_file(mono, lg, rg);
            &&& f.len() == 44 + 4 * mono.len()
            &&& read_bytes(f.subrange(22, 24)) == 2
            &&& read_bytes(f.subrange(24, 28)) == 44100
            &&& read_bytes(f.subrange(40, 44)) == 4 * mono.len()
            &&& read_i16(f[44 + 4 * i], f[45 + 4 * i]) == level(mono[i].mul(lg))
            &&& read_i16(f[46 + 4 * i], f[47 + 4 * i]) == level(mono[i].mul(rg))
        }),
{
    let h = header(2 * mono.len(), 44100, 2);
    let s = stereo(mono, lg, rg);
    let d = data_bytes(s);
    assert(h.len() == 44 && read_bytes(h.subrange(22, 24)) == 2 && read_bytes(h.subrange(24, 28))
        == 44100 && read_bytes(h.subrange(40, 44)) == 4 * mono.len()) by {
        headers_describe_the_samples(2 * mono.len(), 44100, 2);
    }
    assert(d.len() == 4 * mono.len());
    assert(s[2 * i] == mono[i].mul(lg) && s[2 * i + 1] == mono[i].mul(rg));
    samples_read_back(s, 2 * i);
    samples_read_back(s, 2 * i + 1);
    lemma_behind(h, d, 4 * i);
}

/// The filter of a sweep starts from silence, takes the noise in sample by sample, and
/// remembers its last two inputs and outputs.
pub proof fn filters_remember_two_samples(seed: u32, sw: Seq<Float>, cw: Seq<Float>, n: nat)
    ensures
        ({
            let (a, b) = (memory_after(seed, sw, cw, n), memory_after(seed, sw, cw, n + 1));
            &&& b.x1 == noise_at(seed, n)
            &&& b.x2 == a.x1
            &&& b.y2 == a.y1
            &&& b.y1 == band_pass(a, noise_at(seed, n), sw[n as int], cw[n as int])
        }),
        ({
            let m = memory_after(seed, sw, cw, 0);
            num(m.x1) == 0real && num(m.x2) == 0real && num(m.y1) == 0real && num(m.y2) == 0real
        }),
{
    lemma_int_num(0);
}

/// A sample of a sweep is what the filter gives for it, as loud as its envelope.
pub proof fn sweeps_are_shaped_by_their_envelope(center: Float, sw: Seq<Float>, cw: Seq<Float>, arc: Seq<Float>, i: int)
    requires
        0 <= i < whoosh_samples(),
        ({
            let y = memory_after(whoosh_seed(center), sw, cw, (i + 1) as nat).y1;
            y.finite() && abs(num(y)) <= 16real
        }),
        envelope(arc[i], i as nat).finite() && abs(num(envelope(arc[i], i as nat))) <= 2real,
    ensures
        raw_whoosh(center, sw, cw, arc).len() == whoosh_samples(),
        near(
            raw_whoosh(center, sw, cw, arc)[i],
            num(memory_after(whoosh_seed(center), sw, cw, (i + 1) as nat).y1) * num(
                envelope(arc[i], i as nat),
            ),
            1real / 100000real,
        ),
{
    lemma_tiny();
    let (y, e) = (memory_after(whoosh_seed(center), sw, cw, (i + 1) as nat).y1, envelope(arc[i], i as nat));
    lemma_abs_product(num(y), num(e), 16real, 2real);
    lemma_mul_near(y, e);
}

/// The mouse changes what it holds, the settings that a slider is for and whether sounds are
/// rendered anew; it changes nothing else.
pub proof fn mouse_changes_only_what_it_holds(s: State, mouse: Mouse, places: Seq<Vec2>)
    ensures
        ({
            let t = moused(s, mouse, places);
            let g = gripped(s.grip(), mouse, places);
            &&& t.config == g.config && t.dragging == g.dragging && t.active_slider == g.active_slider
            &&& t.need_rebuild == g.need_rebuild
            &&& t.balls == s.balls && t.paused == s.paused && t.last_saved == s.last_saved && t.trails
                == s.trails && t.prev_theta == s.prev_theta && t.particles == s.particles && t.shake == s.shake
        }),
{
}

/// Dragging turns the held ball, and no other.
pub proof fn dragging_turns_the_held_ball(s: State, angle: Float, i: usize)
    requires
        s.dragging matches Some(d) ==> d < s.balls.len(),
        i < s.balls.len(),
    ensures
        dragged(s, angle).balls.len() == s.balls.len(),
        s.dragging == Some(i) ==> dragged(s, angle).balls[i as int] == turned(s.balls[i as int], angle),
        s.dragging != Some(i) ==> dragged(s, angle).balls[i as int] == s.balls[i as int],
        dragged(s, angle).config == s.config && dragged(s, angle).dragging == s.dragging,
{
}

/// A step swings the row under the damping of the settings.
pub proof fn steps_swing_the_row(s: State, sines: Seq<Float>, dt: Float, i: usize)
    requires
        i < s.balls.len() == sines.len(),
    ensures
        swung_state(s, sines, dt).balls.len() == s.balls.len(),
        s.dragging == Some(i) ==> swung_state(s, sines, dt).balls[i as int] == s.balls[i as int],
        s.dragging != Some(i) ==> swung_state(s, sines, dt).balls[i as int] == swung(
            s.balls[i as int],
            sines[i as int],
            s.config.damping,
            dt,
        ),
        swung_state(s, sines, dt).config == s.config && swung_state(s, sines, dt).dragging == s.dragging,
{
}

/// Collisions are looked for pair by pair from the left, sweep by sweep until one finds
/// nothing, and at most as many sweeps as there are balls.
pub proof fn collisions_are_resolved_pair_by_pair(
    places: Seq<Vec2>,
    dragging: Option<usize>,
    s: Sweep,
    k: nat,
    state: State,
    impact: Impact,
)
    requires
        s.omegas.len() >= 1,
    ensures
        swept(places, dragging, s, 0) == s,
        swept(places, dragging, s, k + 1) == meet(places, dragging, swept(places, dragging, s, k), k as int),
        sweep_once(places, dragging, s) == swept(
            places,
            dragging,
            Sweep { omegas: s.omegas, impact: s.impact, any: false },
            (s.omegas.len() - 1) as nat,
        ),
        resolved(places, dragging, s, 0) == s,
        sweep_once(places, dragging, s).any ==> resolved(places, dragging, s, k + 1) == resolved(
            places,
            dragging,
            sweep_once(places, dragging, s),
            k,
        ),
        !sweep_once(places, dragging, s).any ==> resolved(places, dragging, s, k + 1) == sweep_once(
            places,
            dragging,
            s,
        ),
        ({
            let start = Sweep { omegas: omegas(state.balls), impact, any: false };
            &&& knocked(state, places, impact) == resolved(
                places,
                state.dragging,
                start,
                state.balls.len(),
            )
            &&& start.omegas.len() == state.balls.len()
            &&& forall|i: int|
                0 <= i < state.balls.len() ==> #[trigger] start.omegas[i] == state.balls[i].omega
        }),
{
}

/// An impact is heard and shakes the screen where it is faster than 40 pixels per second and no
/// ball is held; else nothing comes of it.
pub proof fn impacts_are_heard_and_seen(s: State, impact: Impact, sw: Float)
    requires
        impact.speed.finite(),
    ensures
        ({
            let loud = num(impact.speed) > 40real && s.dragging is None;
            &&& loud ==> strike_voice(s, impact, sw) == Some(clack(impact, sw, s.config))
            &&& loud ==> struck(s, impact).shake == shaken(s.shake, impact.speed)
            &&& !loud ==> strike_voice(s, impact, sw) is None && struck(s, impact) == s
            &&& struck(s, impact).balls == s.balls && struck(s, impact).config == s.config
            &&& struck(s, impact).particles == s.particles
        }),
{
    hard_impacts_are_heard(impact, s.dragging);
}

/// When a frame has passed every trail has one more place, the particles have aged by the time
/// of the toy, and the shaking has calmed by the time that has really passed.
pub proof fn frames_pass(s: State, places: Seq<Vec2>, t: Times, i: int)
    requires
        s.trails.len() == places.len(),
        0 <= i < s.trails.len(),
    ensures
        passed(s, places, t).trails.len() == s.trails.len(),
        passed(s, places, t).trails[i] == extended(s.trails[i], places[i]),
        passed(s, places, t).particles == aged(s.particles, t.sim_dt),
        passed(s, places, t).shake == calmed(s.shake, t.real_dt),
        passed(s, places, t).balls == s.balls && passed(s, places, t).config == s.config,
{
}

/// While the sounds are rendered anew a notice stands in the middle of the dark screen.
pub proof fn notices_stand_in_the_middle(sw: Float, sh: Float)
    requires
        on_screen(sw),
        on_screen(sh),
    ensures
        notice(sw, sh).len() == 2,
        notice(sw, sh)[0] is Clear,
        tinted(tint(notice(sw, sh)[0]), 8real / 100real, 9real / 100real, 12real / 100real, 1real),
        words(
            notice(sw, sh)[1],
            Caption::Updating,
            num(sw) / 2real - 150real,
            num(sh) / 2real,
            28real,
            slack(sw) + slack(sh),
        ),
        tinted(tint(notice(sw, sh)[1]), 85real / 100real, 87real / 100real, 95real / 100real, 1real),
{
    lemma_tiny();
    lemma_int_num(28);
    lemma_times_dec(5, 10, sw);
    lemma_times_dec(5, 10, sh);
    lemma_beside(sw.mul(dec(5, 10)), 150);
    lemma_shade(8, 9, 12, 100);
    lemma_shade(85, 87, 95, 100);
}

/// A session begins with its settings, one ball pulled aside, nothing held, nothing in the air,
/// nothing to save and no shaking.
pub proof fn sessions_begin_with_one_ball_pulled(c: Config, sw: Float, i: int)
    requires
        3 <= c.n_balls <= 7,
        0 <= i < c.n_balls,
        sw.finite() && abs(num(sw)) <= 0x1_0000real,
    ensures
        ({
            let s = beginning(c, sw);
            &&& s.config == c && s.last_saved == c && !s.paused && !s.need_rebuild
            &&& s.dragging is None && s.active_slider is None && s.particles.len() == 0
            &&& num(s.shake) == 0real
            &&& s.balls.len() == c.n_balls && s.trails.len() == c.n_balls && s.prev_theta.len() == c.n_balls
            &&& s.trails[i].len() == 0 && num(s.prev_theta[i]) == 0real
            &&& near(
                s.balls[i].pivot_x,
                num(sw) / 2real + 28real * (2real * i as real + 1real - c.n_balls as real),
                (abs(num(sw)) + 1000real) / 0x10_0000real,
            )
            &&& i == 0 ==> near(s.balls[i].theta, -9real / 10real, 1real / 10000000real)
            &&& i > 0 ==> s.balls[i].theta.value() == 0
            &&& s.balls[i].omega.value() == 0
        }),
{
    lemma_int_num(0);
    rows_are_hung_around_the_middle(c.n_balls as nat, sw, 1, i as nat);
}

/// Collisions change the velocities of the balls, and leave where they are and all else.
pub proof fn collisions_change_only_velocities(s: State, places: Seq<Vec2>, impact: Impact, i: int)
    requires
        0 <= i < s.balls.len(),
    ensures
        ({
            let t = knocked_state(s, places, impact);
            &&& t.balls.len() == s.balls.len()
            &&& t.balls[i].omega == knocked(s, places, impact).omegas[i]
            &&& t.balls[i].theta == s.balls[i].theta && t.balls[i].pivot_x == s.balls[i].pivot_x
            &&& t.config == s.config && t.dragging == s.dragging && t.particles == s.particles
            &&& t.trails == s.trails && t.shake == s.shake && t.prev_theta == s.prev_theta
        }),
{
}

/// The dust of an impact rises where it happens, by its speed, and nothing else changes.
pub proof fn impacts_raise_dust(s: State, impact: Impact, chances: Seq<Chance>)
    ensures
        dusty(s, impact, chances).particles == dusted(s.particles, impact.at, impact.speed, chances),
        dusty(s, impact, chances).balls == s.balls && dusty(s, impact, chances).config == s.config,
        dusty(s, impact, chances).shake == s.shake && dusty(s, impact, chances).trails == s.trails,
{
}

/// After a frame the angle of every ball is remembered, and nothing else has changed.
pub proof fn balls_are_watched(s: State, i: int)
    requires
        0 <= i < s.balls.len(),
    ensures
        watched(s).prev_theta.len() == s.balls.len(),
        watched(s).prev_theta[i] == s.balls[i].theta,
        watched(s).balls == s.balls && watched(s).config == s.config && watched(s).dragging == s.dragging,
        watched(s).particles == s.particles && watched(s).trails == s.trails,
{
}

/// What has been saved need not be saved again, and what has been rendered anew need not be
/// rendered again; neither changes the settings or the row.
pub proof fn saving_and_rendering_are_done_once(s: State)
    requires
        numbered(s.config),
    ensures
        unsaved(after_saving(s)) is None,
        unsaved(s) is Some ==> after_saving(s).last_saved == s.config,
        unsaved(s) is None ==> after_saving(s) == s,
        after_saving(s).config == s.config && after_saving(s).balls == s.balls,
        after_saving(s).need_rebuild == s.need_rebuild && after_saving(s).paused == s.paused,
        !after_rebuild(s).need_rebuild,
        after_rebuild(s).config == s.config && after_rebuild(s).balls == s.balls,
        after_rebuild(s).last_saved == s.last_saved && after_rebuild(s).paused == s.paused,
{
    let c = s.config;
    lemma_num_order(c.damping, c.damping);
    lemma_num_order(c.room, c.room);
    lemma_num_order(c.time_scale, c.time_scale);
    lemma_num_order(c.volume, c.volume);
    reveal(Float::spec_same);
}

/// Vectors are added and scaled by components.
pub proof fn vectors_go_by_components(a: Vec2, b: Vec2, k: Float)
    requires
        on_screen(a.x) && on_screen(a.y) && on_screen(b.x) && on_screen(b.y) && on_screen(k),
    ensures
        near(a.add(b).x, num(a.x) + num(b.x), 1real / 64real),
        near(a.add(b).y, num(a.y) + num(b.y), 1real / 64real),
        near(a.sub(b).x, num(a.x) - num(b.x), 1real / 64real),
        near(a.sub(b).y, num(a.y) - num(b.y), 1real / 64real),
        near(
            a.scale(k).x,
            num(a.x) * num(k),
            abs(num(a.x) * num(k)) / 0x100_0000real + 1real / 1000000real,
        ),
        near(
            a.scale(k).y,
            num(a.y) * num(k),
            abs(num(a.y) * num(k)) / 0x100_0000real + 1real / 1000000real,
        ),
{
    lemma_tiny();
    lemma_add_near(a.x, b.x);
    lemma_add_near(a.y, b.y);
    lemma_sub_near(a.x, b.x);
    lemma_sub_near(a.y, b.y);
    lemma_abs_product(num(a.x), num(k), 0x1_0000real, 0x1_0000real);
    lemma_abs_product(num(a.y), num(k), 0x1_0000real, 0x1_0000real);
    lemma_mul_near(a.x, k);
    lemma_mul_near(a.y, k);
}

} // verus!
