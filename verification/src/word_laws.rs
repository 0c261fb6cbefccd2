//! What holds of the text of the settings and of the captions.

use vstd::prelude::*;
use crate::captions::{figures_of, words_of};
use crate::config::{Config, Setting, line_settings, loaded, set_all, text_settings};
use crate::float::Float;
use crate::scene::Caption;
use crate::text::{decimal, first_of, is_count, is_digit, is_white, trim, trim_end, trim_start, trimmed};

verus! {

/// White space is what has these numbers among all characters; digits are the ten in a row.
pub proof fn white_space_and_digits_by_number(c: char)
    ensures
        ({
            let n = c as int;
            &&& is_white(c) <==> {
                ||| 9 <= n <= 13
                ||| 8192 <= n <= 8202
                ||| seq![32int, 133, 160, 5760, 8232, 8233, 8239, 8287, 12288].contains(n)
            }
            &&& is_digit(c) <==> 48 <= n <= 57
        }),
{
    let n = c as int;
    let s = seq![32int, 133, 160, 5760, 8232, 8233, 8239, 8287, 12288];
    assert(s[0] == 32 && s[1] == 133 && s[2] == 160 && s[3] == 5760 && s[4] == 8232 && s[5] == 8233
        && s[6] == 8239 && s[7] == 8287 && s[8] == 12288);
    assert(s.contains(n) <==> {
        ||| n == 32 || n == 133 || n == 160
        ||| n == 5760 || n == 8232 || n == 8233
        ||| n == 8239 || n == 8287 || n == 12288
    });
}

/// A character is found at its first place, or not at all.
pub proof fn characters_are_found_where_they_first_stand(s: Seq<char>, c: char)
    ensures
        first_of(s, c) <= s.len(),
        forall|j: int| 0 <= j < first_of(s, c) ==> #[trigger] s[j] != c,
        first_of(s, c) < s.len() ==> s[first_of(s, c) as int] == c,
        first_of(s, c) == s.len() <==> !s.contains(c),
    decreases s.len(),
{
    if s.len() > 0 && s[0] != c {
        let t = s.drop_first();
        characters_are_found_where_they_first_stand(t, c);
        assert forall|j: int| 0 <= j < first_of(s, c) implies #[trigger] s[j] != c by {
            if j > 0 {
                assert(t[j - 1] == s[j]);
            }
        }
    }
    if first_of(s, c) < s.len() {
        assert(s.contains(s[first_of(s, c) as int]));
    }
}

/// What is taken away in front is white space.
proof fn lemma_start(s: Seq<char>)
    ensures
        trim_start(s).len() <= s.len(),
        trim_start(s) == s.skip(s.len() - trim_start(s).len()),
        trim_start(s).len() > 0 ==> !is_white(trim_start(s)[0]),
        forall|j: int| 0 <= j < s.len() - trim_start(s).len() ==> is_white(#[trigger] s[j]),
    decreases s.len(),
{
    if s.len() > 0 && is_white(s[0]) {
        let t = s.drop_first();
        lemma_start(t);
        assert(trim_start(s) =~= s.skip(s.len() - trim_start(s).len()));
        assert forall|j: int| 0 <= j < s.len() - trim_start(s).len() implies is_white(
            #[trigger] s[j],
        ) by {
            if j > 0 {
                assert(t[j - 1] == s[j]);
            }
        }
    } else {
        assert(s.skip(0) =~= s);
    }
}

/// What is taken away behind is white space.
proof fn lemma_end(s: Seq<char>)
    ensures
        trim_end(s).len() <= s.len(),
        trim_end(s) == s.take(trim_end(s).len() as int),
        trim_end(s).len() > 0 ==> !is_white(trim_end(s).last()),
        forall|j: int| trim_end(s).len() <= j < s.len() ==> is_white(#[trigger] s[j]),
    decreases s.len(),
{
    if s.len() > 0 && is_white(s.last()) {
        let t = s.drop_last();
        lemma_end(t);
        assert(trim_end(s) =~= s.take(trim_end(s).len() as int));
        assert forall|j: int| trim_end(s).len() <= j < s.len() implies is_white(#[trigger] s[j]) by {
            if j < s.len() - 1 {
                assert(t[j] == s[j]);
            }
        }
    } else {
        assert(s.take(s.len() as int) =~= s);
    }
}

/// Trimming takes away white space at both ends, all of it, and nothing else.
pub proof fn trimming_takes_the_white_space_around(s: Seq<char>) -> (cut: (int, int))
    ensures
        0 <= cut.0 <= cut.1 <= s.len(),
        trim(s) == s.subrange(cut.0, cut.1),
        trimmed(trim(s)),
        forall|j: int| 0 <= j < cut.0 ==> is_white(#[trigger] s[j]),
        forall|j: int| cut.1 <= j < s.len() ==> is_white(#[trigger] s[j]),
{
    let t = trim_start(s);
    let a = s.len() - t.len();
    lemma_start(s);
    lemma_end(t);
    let b = a + trim(s).len();
    assert(trim(s) =~= s.subrange(a, b));
    assert forall|j: int| b <= j < s.len() implies is_white(#[trigger] s[j]) by {
        assert(t[j - a] == s[j]);
    }
    (a, b)
}

/// A line with no equals sign sets nothing; one line sets one thing at most, and its value is
/// what stands behind the first equals sign.
pub proof fn lines_set_what_stands_behind_the_sign(before: Seq<char>, behind: Seq<char>)
    requires
        !before.contains('='),
    ensures
        line_settings(before).len() == 0,
        line_settings(before + seq!['='] + behind).len() <= 1,
        line_settings(before + seq!['='] + behind).len() == 1
            ==> line_settings(before + seq!['='] + behind)[0].value == trim(behind),
{
    let line = before + seq!['='] + behind;
    let k = before.len() as int;
    characters_are_found_where_they_first_stand(before, '=');
    characters_are_found_where_they_first_stand(line, '=');
    let f = first_of(line, '=') as int;
    assert(line[k] == '=');
    if f < k {
        assert(before.contains(before[f]));
        assert(line[f] == before[f]);
    }
    assert(f == k);
    assert(line.skip(k + 1) =~= behind);
}

/// The lines of a text set one after the other.
pub proof fn texts_are_read_line_by_line(line: Seq<char>, rest: Seq<char>)
    requires
        !line.contains('\n'),
    ensures
        text_settings(line) == line_settings(line),
        text_settings(line + seq!['\n'] + rest) == line_settings(line) + text_settings(rest),
{
    let text = line + seq!['\n'] + rest;
    let k = line.len() as int;
    characters_are_found_where_they_first_stand(line, '\n');
    characters_are_found_where_they_first_stand(text, '\n');
    let f = first_of(text, '\n') as int;
    assert(text[k] == '\n');
    if f < k {
        assert(line.contains(line[f]));
        assert(text[f] == line[f]);
    }
    assert(f == k);
    assert(text.take(k) =~= line);
    assert(text.skip(k + 1) =~= rest);
}

/// A line sets the one thing that its key is for; the number stands as it was read.
pub proof fn lines_set_one_thing(c: Config, s: Setting, number: Option<Float>)
    ensures
        ({
            let d = crate::config::set(c, s, number);
            &&& d.damping == if s.key is Damping && number is Some { number->0 } else { c.damping }
            &&& d.room == if s.key is Room && number is Some { number->0 } else { c.room }
            &&& d.time_scale == if s.key is Time && number is Some { number->0 } else { c.time_scale }
            &&& d.volume == if s.key is Volume && number is Some { number->0 } else { c.volume }
            &&& s.key is Mute ==> (d.mute <==> s.value == "1"@ || s.value == "true"@)
            &&& s.key !is Mute ==> d.mute == c.mute
            &&& s.key !is Balls || !is_count(s.value) ==> d.n_balls == c.n_balls
        }),
{
}

/// A later line undoes an earlier one on the same thing, where both can be read.
pub proof fn later_lines_win(c: Config, a: Setting, b: Setting, x: Option<Float>, y: Option<Float>)
    requires
        a.key == b.key,
        b.key is Mute || b.key is Balls && is_count(b.value) || b.key !is Balls && y is Some,
    ensures
        crate::config::set(crate::config::set(c, a, x), b, y) == crate::config::set(c, b, y),
{
}

/// Settings are loaded line by line, and at the end each is brought into its range.
pub proof fn settings_are_loaded_in_order(s: Seq<Setting>, numbers: Seq<Option<Float>>, k: nat, c: Config)
    ensures
        set_all(c, s, numbers, 0) == c,
        set_all(c, s, numbers, k + 1) == crate::config::set(
            set_all(c, s, numbers, k),
            s[k as int],
            numbers[k as int],
        ),
        3 <= loaded(s, numbers).n_balls <= 7,
{
}

/// Digits weigh ten times what the digit behind them weighs.
pub proof fn digits_weigh_by_ten(s: Seq<char>, d: char)
    requires
        '0' <= d <= '9',
    ensures
        decimal(s.push(d)) == 10 * decimal(s) + (d as nat - 48),
{
    assert(s.push(d).drop_last() =~= s);
}

/// Each caption has the numbers that it shows: the loudness, the energies and the momentum
/// in whole numbers, the momentum always with its sign; a slider with two decimals, that of
/// the damping with three.
pub proof fn captions_have_their_numbers(a: Float, b: Float, mute: bool, paused: bool, i: usize)
    ensures
        ({
            let v = figures_of(Caption::Volume { percent: a, mute, paused });
            &&& v.len() == 1 && v[0].value == a && v[0].decimals == 0 && !v[0].plus
        }),
        ({
            let v = figures_of(Caption::Energies { kinetic: a, potential: b });
            &&& v.len() == 2 && v[0].value == a && v[1].value == b
            &&& v[0].decimals == 0 && v[1].decimals == 0 && !v[0].plus && !v[1].plus
        }),
        ({
            let v = figures_of(Caption::Momentum { value: a });
            &&& v.len() == 1 && v[0].value == a && v[0].decimals == 0 && v[0].plus
        }),
        ({
            let v = figures_of(Caption::Slider { index: i, value: a });
            &&& v.len() == 1 && v[0].value == a && !v[0].plus
            &&& v[0].decimals == 2int + if i == 0 { 1int } else { 0int }
        }),
{
}

/// A caption that says whether the sound is off tells so; the same holds of the pause.
pub proof fn captions_tell_mute_and_pause(a: Float, texts: Seq<String>, mute: bool, paused: bool)
    ensures
        ({
            let plain = words_of(Caption::Volume { percent: a, mute: false, paused: false }, texts);
            let off = words_of(Caption::Volume { percent: a, mute: true, paused: false }, texts);
            let still = words_of(Caption::Volume { percent: a, mute, paused: true }, texts);
            let moving = words_of(Caption::Volume { percent: a, mute, paused: false }, texts);
            &&& plain.len() == texts[0]@.len() + 8
            &&& off.len() == plain.len() + 8
            &&& still == moving + "PAUSED"@
            &&& plain.subrange(4, 4int + texts[0]@.len()) == texts[0]@
        }),
{
    reveal_strlit("vol ");
    reveal_strlit("%");
    reveal_strlit(" (muted)");
    reveal_strlit("");
    reveal_strlit("   ");
    reveal_strlit("PAUSED");
    let plain = words_of(Caption::Volume { percent: a, mute: false, paused: false }, texts);
    assert(plain.subrange(4, 4int + texts[0]@.len()) =~= texts[0]@);
    assert(words_of(Caption::Volume { percent: a, mute, paused: true }, texts) =~= words_of(
        Caption::Volume { percent: a, mute, paused: false },
        texts,
    ) + "PAUSED"@);
}

} // verus!
