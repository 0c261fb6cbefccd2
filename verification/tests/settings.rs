//! The settings: ranges, reading and writing.

use newtons_cradle::config::{load_config, read_settings, save_config, Config, Key, NumberTexts};
use newtons_cradle::float::{fl, Float};
use newtons_cradle::text::{chars_of, decimal_text, is_digit, is_white, parse_usize};

fn f(x: f32) -> Float {
    fl(x.to_bits())
}

fn back(x: Float) -> f32 {
    f32::from_bits(x.bits)
}

fn load(text: &str) -> Config {
    let entries = read_settings(text);
    let numbers = entries.iter().map(|e| e.value.parse::<f32>().ok().map(f)).collect();
    load_config(&entries, &numbers)
}

fn save(c: &Config) -> String {
    let t = |x: Float| format!("{}", back(x));
    save_config(
        c,
        &NumberTexts { damping: t(c.damping), room: t(c.room), time_scale: t(c.time_scale), volume: t(c.volume) },
    )
}

fn fields(c: &Config) -> (f32, f32, f32, f32, bool, usize) {
    (back(c.damping), back(c.room), back(c.time_scale), back(c.volume), c.mute, c.n_balls)
}

#[test]
fn first_run_settings() {
    let c = Config::default();
    assert_eq!(fields(&c), (0.04, 1.0, 1.0, 0.8, false, 5));
    assert!(c.clamped() == c);
    assert!(load("") == c);
}

#[test]
fn settings_are_brought_into_range() {
    let high = Config { damping: f(9.0), room: f(9.0), time_scale: f(9.0), volume: f(9.0), mute: true, n_balls: 99 };
    assert_eq!(fields(&high.clamped()), (0.25, 1.8, 2.0, 1.0, true, 7));
    let low = Config { damping: f(-9.0), room: f(-9.0), time_scale: f(-9.0), volume: f(-9.0), mute: false, n_balls: 0 };
    assert_eq!(fields(&low.clamped()), (0.0, 0.4, 0.05, 0.0, false, 3));
    assert!(high.clamped().clamped() == high.clamped());
    let odd = Config { room: f(f32::NAN), ..Config::default() };
    assert!(back(odd.clamped().room).is_nan());
}

#[test]
fn settings_compare_number_by_number() {
    let c = Config::default();
    assert!(c == c);
    assert!(c != Config { mute: true, ..c });
    assert!(c != Config { n_balls: 6, ..c });
    assert!(c != Config { volume: f(0.5), ..c });
    assert!(Config { damping: f(0.0), ..c } == Config { damping: f(-0.0), ..c });
    let odd = Config { room: f(f32::NAN), ..c };
    assert!(odd != odd);
}

#[test]
fn lines_are_split_and_trimmed() {
    let e = read_settings("damping=0.1\n # note\n\n  room =\t1.5 \r\nbogus=3\nmute=a=b\n=1\nballs\nballs=7");
    let got: Vec<(Key, &str)> = e.iter().map(|e| (e.key, e.value.as_str())).collect();
    assert_eq!(
        got,
        vec![(Key::Damping, "0.1"), (Key::Room, "1.5"), (Key::Mute, "a=b"), (Key::Balls, "7")]
    );
    assert_eq!(read_settings("").len(), 0);
    assert_eq!(read_settings("\u{3000}time\u{a0}=\u{2003}0.5\u{85}")[0].value, "0.5");
}

#[test]
fn a_text_sets_what_it_names() {
    let c = load("damping=0.1\nroom=1.5\ntime=0.5\nvolume=0.25\nmute=1\nballs=7\n");
    assert_eq!(fields(&c), (0.1, 1.5, 0.5, 0.25, true, 7));
    assert!(load("mute=true").mute);
    assert!(!load("mute=1\nmute=yes").mute);
    assert_eq!(load("balls=4\nballs=6").n_balls, 6);
}

#[test]
fn what_does_not_read_changes_nothing() {
    let c = load("damping=x\nroom=\ntime=1..2\nvolume=--1\nballs=six\n");
    assert!(c == Config::default());
    assert_eq!(load("balls=6\nballs=-1").n_balls, 6);
    assert_eq!(load("balls=6\nballs=99999999999999999999999").n_balls, 6);
    assert_eq!(load("balls=+4").n_balls, 4);
    assert_eq!(back(load("volume=0.5\nvolume=loud").volume), 0.5);
}

#[test]
fn what_is_out_of_range_is_held_back() {
    let c = load("damping=inf\nroom=-inf\ntime=1e9\nvolume=-0.5\nballs=100\n");
    assert_eq!(fields(&c), (0.25, 0.4, 2.0, 0.0, false, 7));
    assert!(back(load("room=nan").room).is_nan());
}

#[test]
fn the_saved_text_is_exact() {
    assert_eq!(
        save(&Config::default()),
        "damping=0.04\nroom=1\ntime=1\nvolume=0.8\nmute=0\nballs=5\n"
    );
    assert_eq!(
        save(&Config { mute: true, n_balls: 7, damping: f(0.123), ..Config::default() }),
        "damping=0.123\nroom=1\ntime=1\nvolume=0.8\nmute=1\nballs=7\n"
    );
}

#[test]
fn saved_settings_come_back() {
    for i in 0..200u32 {
        let x = i as f32 / 199.0;
        let c = Config {
            damping: f(x * 0.25),
            room: f(0.4 + x * 1.4),
            time_scale: f(0.05 + x * 1.95),
            volume: f(x),
            mute: i % 3 == 0,
            n_balls: 3 + i as usize % 5,
        }
        .clamped();
        let d = load(&save(&c));
        assert_eq!(fields(&c), fields(&d));
    }
}

#[test]
fn settings_out_of_range_come_back_in_range() {
    let c = Config { damping: f(3.0), room: f(-1.0), time_scale: f(9.0), volume: f(0.5), mute: true, n_balls: 99 };
    assert!(load(&save(&c)) == c.clamped());
}

#[test]
fn counts_read_as_the_machine_reads_them() {
    for s in [
        "", "+", "-", "0", "7", "+7", "++7", "-7", "007", "12a", " 5", "4294967295", "4294967296",
        "18446744073709551615", "18446744073709551616", "99999999999999999999999999", "\u{0664}", "1_000", "1.0",
    ] {
        assert_eq!(parse_usize(s), s.parse::<usize>().ok(), "{:?}", s);
    }
}

#[test]
fn counts_write_as_the_machine_writes_them() {
    for n in [0usize, 1, 9, 10, 11, 99, 100, 1234567890, usize::MAX] {
        assert_eq!(decimal_text(n), format!("{}", n));
        assert_eq!(parse_usize(&decimal_text(n)), Some(n));
    }
}

#[test]
fn white_space_is_that_of_unicode() {
    for i in 0..=0x10ffffu32 {
        if let Some(c) = char::from_u32(i) {
            assert_eq!(is_white(c), c.is_whitespace(), "{:x}", i);
            assert_eq!(is_digit(c), c.is_ascii_digit());
        }
    }
    assert_eq!(chars_of("a\u{e9}\u{1f600}"), vec!['a', '\u{e9}', '\u{1f600}']);
}
