//! What holds of the settings whatever the user does.

use vstd::prelude::*;
use crate::bounds::{lemma_clamp, lemma_dec_order};
use crate::config::{Config, NumberTexts, config_text, initial, loaded, plain, same_settings, saved_settings_load_back, text_settings};
use crate::exact::lemma_dec_int;
use crate::float::{Float, dec};
use crate::session::{Grip, Keys, Mouse, State, gripped, nudged, slid, tuned};
use crate::slider_laws::{lemma_slider, lemma_spans};
use crate::sliders::{SLIDERS, slider, slider_at, slider_value_from_mouse, slider_w, slider_x};
use crate::vector::Vec2;

verus! {

/// The ends of every range are in order.
proof fn lemma_ranges()
    ensures
        dec(0, 1).finite() && dec(25, 100).finite() && dec(0, 1).value() <= dec(25, 100).value(),
        dec(4, 10).finite() && dec(18, 10).finite() && dec(4, 10).value() <= dec(18, 10).value(),
        dec(5, 100).finite() && dec(2, 1).finite() && dec(5, 100).value() <= dec(2, 1).value(),
        dec(0, 1).finite() && dec(1, 1).finite() && dec(0, 1).value() <= dec(1, 1).value(),
{
    lemma_dec_order(0, 1, 25, 100);
    lemma_dec_order(4, 10, 18, 10);
    lemma_dec_order(5, 100, 2, 1);
    lemma_dec_order(0, 1, 1, 1);
}

/// Settings that were brought into range stay as they are.
pub proof fn clamping_settles(c: Config)
    ensures
        c.clamped().clamped() == c.clamped(),
{
    lemma_ranges();
    lemma_clamp(c.damping, dec(0, 1), dec(25, 100));
    lemma_clamp(c.room, dec(4, 10), dec(18, 10));
    lemma_clamp(c.time_scale, dec(5, 100), dec(2, 1));
    lemma_clamp(c.volume, dec(0, 1), dec(1, 1));
}

/// Settings that are numbers lie in their ranges once they were brought there.
pub proof fn clamped_settings_lie_in_range(c: Config)
    requires
        !c.damping.nan(),
        !c.room.nan(),
        !c.time_scale.nan(),
        !c.volume.nan(),
    ensures
        dec(0, 1).le(c.clamped().damping) && c.clamped().damping.le(dec(25, 100)),
        dec(4, 10).le(c.clamped().room) && c.clamped().room.le(dec(18, 10)),
        dec(5, 100).le(c.clamped().time_scale) && c.clamped().time_scale.le(dec(2, 1)),
        dec(0, 1).le(c.clamped().volume) && c.clamped().volume.le(dec(1, 1)),
        3 <= c.clamped().n_balls <= 7,
{
    lemma_ranges();
    lemma_clamp(c.damping, dec(0, 1), dec(25, 100));
    lemma_clamp(c.room, dec(4, 10), dec(18, 10));
    lemma_clamp(c.time_scale, dec(5, 100), dec(2, 1));
    lemma_clamp(c.volume, dec(0, 1), dec(1, 1));
    reveal(Float::spec_le);
}

/// The settings of a first run are in range.
pub proof fn first_settings_are_in_range()
    ensures
        initial().clamped() == initial(),
{
    lemma_ranges();
    lemma_dec_order(0, 1, 4, 100);
    lemma_dec_order(4, 100, 25, 100);
    lemma_dec_order(4, 10, 1, 1);
    lemma_dec_order(1, 1, 18, 10);
    lemma_dec_order(5, 100, 1, 1);
    lemma_dec_order(1, 1, 2, 1);
    lemma_dec_order(0, 1, 8, 10);
    lemma_dec_order(8, 10, 1, 1);
    lemma_clamp(dec(4, 100), dec(0, 1), dec(25, 100));
    lemma_clamp(dec(1, 1), dec(4, 10), dec(18, 10));
    lemma_clamp(dec(1, 1), dec(5, 100), dec(2, 1));
    lemma_clamp(dec(8, 10), dec(0, 1), dec(1, 1));
}

/// Settings that are numbers equal themselves, so what was saved is not saved again.
pub proof fn saved_settings_are_not_saved_again(c: Config)
    requires
        !c.damping.nan(),
        !c.room.nan(),
        !c.time_scale.nan(),
        !c.volume.nan(),
    ensures
        same_settings(c, c),
{
    reveal(Float::spec_same);
}

proof fn lemma_nudged(x: Float, down: bool, up: bool, by: Float, lo: Float, hi: Float)
    requires
        lo.finite(),
        hi.finite(),
        lo.value() <= hi.value(),
        x.clamp(lo, hi) == x,
    ensures
        nudged(x, down, up, by, lo, hi).clamp(lo, hi) == nudged(x, down, up, by, lo, hi),
{
    lemma_clamp(x.sub(by), lo, hi);
    let y = if down {
        x.sub(by).clamp(lo, hi)
    } else {
        x
    };
    lemma_clamp(y.add(by), lo, hi);
}

/// Keys keep the settings in range, whichever are pressed.
pub proof fn keys_keep_settings_in_range(c: Config, keys: Keys, n: usize)
    requires
        c.clamped() == c,
        3 <= n <= 7,
    ensures
        ({
            let d = Config { n_balls: n, ..tuned(c, keys) };
            d.clamped() == d
        }),
{
    lemma_ranges();
    lemma_nudged(c.volume, keys.softer, keys.louder, dec(5, 100), dec(0, 1), dec(1, 1));
    lemma_nudged(c.time_scale, keys.slower, keys.faster, dec(1, 10), dec(5, 100), dec(2, 1));
}

/// Sliders keep the settings in range, wherever the mouse is.
pub proof fn sliders_keep_settings_in_range(c: Config, active: Option<usize>, x: Float)
    requires
        c.clamped() == c,
        active matches Some(i) ==> i < SLIDERS,
    ensures
        slid(c, active, x).clamped() == slid(c, active, x),
{
    if let Some(i) = active {
        lemma_ranges();
        let raw = x.sub(slider_x()).div(slider_w());
        let frac = raw.clamp(dec(0, 1), dec(1, 1));
        lemma_dec_int(0);
        lemma_clamp(raw, dec(0, 1), dec(1, 1));
        let s = slider(i);
        lemma_spans(i);
        lemma_slider(s.lo, s.hi, frac);
        lemma_clamp(slider_value_from_mouse(i, x), s.lo, s.hi);
    }
}

/// The mouse keeps the settings in range, wherever it is and whatever it does.
pub proof fn mouse_keeps_settings_in_range(g: Grip, mouse: Mouse, places: Seq<Vec2>)
    requires
        g.config.clamped() == g.config,
        g.active_slider matches Some(i) ==> i < SLIDERS,
    ensures
        gripped(g, mouse, places).config.clamped() == gripped(g, mouse, places).config,
{
    let active = if mouse.pressed {
        slider_at(mouse.at)
    } else {
        g.active_slider
    };
    sliders_keep_settings_in_range(g.config, active, mouse.at.x);
}

/// The settings of a running session come back in the next run, where each number reads
/// as itself.
pub proof fn settings_of_a_session_come_back(s: State, t: NumberTexts, numbers: Seq<Option<Float>>)
    requires
        s.sound(),
        plain(t.damping@),
        plain(t.room@),
        plain(t.time_scale@),
        plain(t.volume@),
        numbers.len() == 6,
        numbers[0] == Some(s.config.damping),
        numbers[1] == Some(s.config.room),
        numbers[2] == Some(s.config.time_scale),
        numbers[3] == Some(s.config.volume),
    ensures
        loaded(text_settings(config_text(s.config, t)), numbers) == s.config,
{
    saved_settings_load_back(s.config, t, numbers);
}

} // verus!
