//! The settings that a user can change, and the text that keeps them between runs.

use vstd::prelude::*;
use vstd::string::*;
use crate::float::{Float, dec};
use crate::settings_laws::clamping_settles;
use crate::text::{chars_of, decimal, decimal_text, digits_of, first_of, is_count, is_white, lemma_first_of, lemma_trimmed, parse_usize, trim, trim_end, trim_start, trimmed, unsigned, written_count_reads_back};

verus! {

/// The settings.
#[derive(Clone, Copy, Debug)]
pub struct Config {
    pub damping: Float,
    pub room: Float,
    pub time_scale: Float,
    pub volume: Float,
    pub mute: bool,
    pub n_balls: usize,
}

/// Whether two sets of settings are equal, number by number.
pub open spec fn same_settings(a: Config, b: Config) -> bool {
    a.damping.same(b.damping) && a.room.same(b.room) && a.time_scale.same(b.time_scale)
        && a.volume.same(b.volume) && a.mute == b.mute && a.n_balls == b.n_balls
}

impl PartialEq for Config {
    fn eq(&self, other: &Config) -> (r: bool) {
        self.damping.same(other.damping) && self.room.same(other.room) && self.time_scale.same(
            other.time_scale,
        ) && self.volume.same(other.volume) && self.mute == other.mute && self.n_balls
            == other.n_balls
    }
}

impl vstd::std_specs::cmp::PartialEqSpecImpl for Config {
    open spec fn obeys_eq_spec() -> bool {
        true
    }

    open spec fn eq_spec(&self, other: &Config) -> bool {
        same_settings(*self, *other)
    }
}

/// The settings of a first run.
pub open spec fn initial() -> Config {
    Config {
        damping: dec(4, 100),
        room: dec(1, 1),
        time_scale: dec(1, 1),
        volume: dec(8, 10),
        mute: false,
        n_balls: 5,
    }
}

impl Default for Config {
    /// The settings of a first run.
    fn default() -> (c: Config)
        ensures
            c == initial(),
    {
        Config {
            damping: dec(4, 100),
            room: dec(1, 1),
            time_scale: dec(1, 1),
            volume: dec(8, 10),
            mute: false,
            n_balls: 5,
        }
    }
}

impl Config {
    pub open spec fn spec_clamped(self) -> Config {
        Config {
            damping: self.damping.clamp(dec(0, 1), dec(25, 100)),
            room: self.room.clamp(dec(4, 10), dec(18, 10)),
            time_scale: self.time_scale.clamp(dec(5, 100), dec(2, 1)),
            volume: self.volume.clamp(dec(0, 1), dec(1, 1)),
            mute: self.mute,
            n_balls: if self.n_balls < 3 {
                3
            } else if self.n_balls > 7 {
                7
            } else {
                self.n_balls
            },
        }
    }

    /// The settings, each brought into its range.
    #[verifier::when_used_as_spec(spec_clamped)]
    pub fn clamped(self) -> (c: Config)
        ensures
            c == self.spec_clamped(),
            3 <= c.n_balls <= 7,
    {
        Config {
            damping: self.damping.clamp(dec(0, 1), dec(25, 100)),
            room: self.room.clamp(dec(4, 10), dec(18, 10)),
            time_scale: self.time_scale.clamp(dec(5, 100), dec(2, 1)),
            volume: self.volume.clamp(dec(0, 1), dec(1, 1)),
            mute: self.mute,
            n_balls: if self.n_balls < 3 {
                3
            } else if self.n_balls > 7 {
                7
            } else {
                self.n_balls
            },
        }
    }
}

/// What a line of the text can set.
#[derive(Clone, Copy, Debug, PartialEq, Eq, Structural)]
pub enum Key {
    Damping,
    Room,
    Time,
    Volume,
    Mute,
    Balls,
}

/// One line of the text: what it sets, and to what.
#[derive(Debug)]
pub struct Entry {
    pub key: Key,
    pub value: String,
}

/// What an `Entry` holds.
pub struct Setting {
    pub key: Key,
    pub value: Seq<char>,
}

impl View for Entry {
    type V = Setting;

    open spec fn view(&self) -> Setting {
        Setting { key: self.key, value: self.value@ }
    }
}

/// What a list of entries holds.
pub open spec fn settings(entries: Seq<Entry>) -> Seq<Setting> {
    Seq::new(entries.len(), |i: int| entries[i]@)
}

/// What one line has set, if anything.
pub open spec fn setting(entry: Option<Entry>) -> Seq<Setting> {
    match entry {
        Some(e) => seq![e@],
        None => Seq::empty(),
    }
}

/// The key with this name.
pub open spec fn key_named(name: Seq<char>) -> Option<Key> {
    if name == "damping"@ {
        Some(Key::Damping)
    } else if name == "room"@ {
        Some(Key::Room)
    } else if name == "time"@ {
        Some(Key::Time)
    } else if name == "volume"@ {
        Some(Key::Volume)
    } else if name == "mute"@ {
        Some(Key::Mute)
    } else if name == "balls"@ {
        Some(Key::Balls)
    } else {
        None
    }
}

/// What a line sets: at most one thing, the key before the first equals sign to the
/// value behind it, both trimmed.
pub open spec fn line_settings(line: Seq<char>) -> Seq<Setting> {
    let eq = first_of(line, '=') as int;
    if eq == line.len() {
        Seq::empty()
    } else {
        match key_named(trim(line.take(eq))) {
            Some(key) => seq![Setting { key, value: trim(line.skip(eq + 1)) }],
            None => Seq::empty(),
        }
    }
}

/// What a text sets, line by line.
pub open spec fn text_settings(text: Seq<char>) -> Seq<Setting>
    decreases text.len(),
{
    let end = first_of(text, '\n') as int;
    if end >= text.len() {
        line_settings(text)
    } else {
        line_settings(text.take(end)) + text_settings(text.skip(end + 1))
    }
}

/// The settings after one line. Where a value is to be a number, `number` is what it
/// reads as, if it reads as one; what does not read as a number changes nothing.
pub open spec fn set(c: Config, s: Setting, number: Option<Float>) -> Config {
    match s.key {
        Key::Damping => match number {
            Some(x) => Config { damping: x, ..c },
            None => c,
        },
        Key::Room => match number {
            Some(x) => Config { room: x, ..c },
            None => c,
        },
        Key::Time => match number {
            Some(x) => Config { time_scale: x, ..c },
            None => c,
        },
        Key::Volume => match number {
            Some(x) => Config { volume: x, ..c },
            None => c,
        },
        Key::Mute => Config { mute: s.value == "1"@ || s.value == "true"@, ..c },
        Key::Balls => if is_count(s.value) {
            Config { n_balls: decimal(unsigned(s.value)) as usize, ..c }
        } else {
            c
        },
    }
}

/// The settings after the first `k` lines.
pub open spec fn set_all(c: Config, s: Seq<Setting>, numbers: Seq<Option<Float>>, k: nat) -> Config
    decreases k,
{
    if k == 0 {
        c
    } else {
        set(set_all(c, s, numbers, (k - 1) as nat), s[k - 1], numbers[k - 1])
    }
}

/// The settings that a text leads to.
pub open spec fn loaded(s: Seq<Setting>, numbers: Seq<Option<Float>>) -> Config {
    set_all(initial(), s, numbers, s.len()).clamped()
}

/// The first `c` between `from` and `to`, or `to`.
fn find(v: &Vec<char>, from: usize, to: usize, c: char) -> (r: usize)
    requires
        from <= to <= v@.len(),
    ensures
        from <= r <= to,
        r - from == first_of(v@.subrange(from as int, to as int), c),
{
    let ghost s = v@.subrange(from as int, to as int);
    let mut r = from;
    while r < to && v[r] != c
        invariant
            from <= r <= to <= v@.len(),
            s == v@.subrange(from as int, to as int),
            forall|j: int| 0 <= j < r - from ==> s[j] != c,
        decreases to - r,
    {
        r = r + 1;
    }
    proof {
        lemma_first_of(s, c, (r - from) as nat);
    }
    r
}

/// The bounds of what is left between `from` and `to` without the white space around it.
fn trim_range(v: &Vec<char>, from: usize, to: usize) -> (r: (usize, usize))
    requires
        from <= to <= v@.len(),
    ensures
        from <= r.0 <= r.1 <= to,
        v@.subrange(r.0 as int, r.1 as int) == trim(v@.subrange(from as int, to as int)),
{
    let ghost s = v@.subrange(from as int, to as int);
    let mut lo = from;
    while lo < to && is_white(v[lo])
        invariant
            from <= lo <= to <= v@.len(),
            trim_start(s) == trim_start(v@.subrange(lo as int, to as int)),
        decreases to - lo,
    {
        assert(v@.subrange(lo as int, to as int).drop_first() =~= v@.subrange(lo + 1, to as int));
        lo = lo + 1;
    }
    let ghost t = v@.subrange(lo as int, to as int);
    assert(trim_start(t) == t);
    let mut hi = to;
    while lo < hi && is_white(v[hi - 1])
        invariant
            lo <= hi <= to <= v@.len(),
            trim_end(t) == trim_end(v@.subrange(lo as int, hi as int)),
        decreases hi - lo,
    {
        assert(v@.subrange(lo as int, hi as int).drop_last() =~= v@.subrange(lo as int, hi - 1));
        hi = hi - 1;
    }
    (lo, hi)
}

/// The key with this name.
fn key_of(name: &String) -> (r: Option<Key>)
    ensures
        r == key_named(name@),
{
    if *name == "damping".to_owned() {
        Some(Key::Damping)
    } else if *name == "room".to_owned() {
        Some(Key::Room)
    } else if *name == "time".to_owned() {
        Some(Key::Time)
    } else if *name == "volume".to_owned() {
        Some(Key::Volume)
    } else if *name == "mute".to_owned() {
        Some(Key::Mute)
    } else if *name == "balls".to_owned() {
        Some(Key::Balls)
    } else {
        None
    }
}

/// What the line between `from` and `to` sets.
fn read_line(text: &str, v: &Vec<char>, from: usize, to: usize) -> (r: Option<Entry>)
    requires
        v@ == text@,
        from <= to <= v@.len(),
    ensures
        line_settings(text@.subrange(from as int, to as int)) == setting(r),
{
    let ghost line = text@.subrange(from as int, to as int);
    let eq = find(v, from, to, '=');
    if eq == to {
        return None;
    }
    let k = trim_range(v, from, eq);
    assert(v@.subrange(from as int, eq as int) =~= line.take(eq - from));
    assert(v@.subrange(eq + 1, to as int) =~= line.skip(eq - from + 1));
    let name = text.substring_char(k.0, k.1).to_owned();
    match key_of(&name) {
        Some(key) => {
            let b = trim_range(v, eq + 1, to);
            let value = text.substring_char(b.0, b.1).to_owned();
            Some(Entry { key, value })
        },
        None => None,
    }
}

/// What a text sets, line by line.
pub fn read_settings(text: &str) -> (entries: Vec<Entry>)
    ensures
        settings(entries@) == text_settings(text@),
{
    let v = chars_of(text);
    let n = v.len();
    let mut entries: Vec<Entry> = Vec::new();
    let mut from: usize = 0;
    assert(settings(entries@) + text_settings(text@.skip(0)) =~= text_settings(text@)) by {
        assert(text@.skip(0) =~= text@);
    }
    loop
        invariant_except_break
            settings(entries@) + text_settings(text@.skip(from as int)) == text_settings(text@),
        invariant
            n == v@.len(),
            v@ == text@,
            from <= n,
        ensures
            settings(entries@) == text_settings(text@),
        decreases n - from,
    {
        let end = find(&v, from, n, '\n');
        let ghost rest = text@.skip(from as int);
        let ghost before = settings(entries@);
        assert(rest =~= v@.subrange(from as int, n as int));
        let line = read_line(text, &v, from, end);
        let ghost found = setting(line);
        match line {
            Some(e) => {
                entries.push(e);
            },
            None => {},
        }
        assert(settings(entries@) =~= before + found);
        if end == n {
            assert(text@.subrange(from as int, end as int) =~= rest);
            break;
        }
        assert(text@.subrange(from as int, end as int) =~= rest.take(end - from));
        assert(rest.skip(end - from + 1) =~= text@.skip(end + 1));
        assert(before + (found + text_settings(text@.skip(end + 1))) =~= before + found + text_settings(
            text@.skip(end + 1),
        ));
        from = end + 1;
    }
    entries
}

/// The settings that a text leads to. `numbers` gives for every entry what its value
/// reads as, if it reads as a number.
pub fn load_config(entries: &Vec<Entry>, numbers: &Vec<Option<Float>>) -> (c: Config)
    requires
        entries@.len() == numbers@.len(),
    ensures
        c == loaded(settings(entries@), numbers@),
        c.clamped() == c,
        3 <= c.n_balls <= 7,
{
    let mut c: Config = Config::default();
    let n = entries.len();
    let ghost s = settings(entries@);
    for i in 0..n
        invariant
            n == entries@.len() == numbers@.len(),
            s == settings(entries@),
            c == set_all(initial(), s, numbers@, i as nat),
    {
        let e = &entries[i];
        let number = numbers[i];
        assert(s[i as int] == e@);
        match e.key {
            Key::Damping => if let Some(x) = number {
                c.damping = x;
            },
            Key::Room => if let Some(x) = number {
                c.room = x;
            },
            Key::Time => if let Some(x) = number {
                c.time_scale = x;
            },
            Key::Volume => if let Some(x) = number {
                c.volume = x;
            },
            Key::Mute => {
                c.mute = e.value == "1".to_owned() || e.value == "true".to_owned();
            },
            Key::Balls => if let Some(x) = parse_usize(e.value.as_str()) {
                c.n_balls = x;
            },
        }
    }
    proof {
        clamping_settles(c);
    }
    c.clamped()
}

/// A line that sets `name` to `value`.
pub open spec fn assignment(name: Seq<char>, value: Seq<char>) -> Seq<char> {
    name + seq!['='] + value + seq!['\n']
}

/// A flag as it stands in the text.
pub open spec fn flag_text(b: bool) -> Seq<char> {
    if b {
        "1"@
    } else {
        "0"@
    }
}

/// The numbers of the settings as they are written.
#[derive(Debug)]
pub struct NumberTexts {
    pub damping: String,
    pub room: String,
    pub time_scale: String,
    pub volume: String,
}

/// The text that keeps the settings, where the numbers are written as in `t`.
pub open spec fn config_text(c: Config, t: NumberTexts) -> Seq<char> {
    assignment("damping"@, t.damping@) + (assignment("room"@, t.room@) + (assignment(
        "time"@,
        t.time_scale@,
    ) + (assignment("volume"@, t.volume@) + (assignment("mute"@, flag_text(c.mute)) + assignment(
        "balls"@,
        digits_of(c.n_balls as nat),
    )))))
}

fn append_line(s: &mut String, name: &str, value: &str)
    ensures
        final(s)@ == old(s)@ + assignment(name@, value@),
{
    proof {
        reveal_strlit("=");
        reveal_strlit("\n");
    }
    s.append(name);
    s.append("=");
    s.append(value);
    s.append("\n");
    assert("="@ =~= seq!['=']);
    assert("\n"@ =~= seq!['\n']);
    assert(s@ =~= old(s)@ + assignment(name@, value@));
}

/// The text that keeps the settings, where the numbers are written as in `t`.
pub fn save_config(c: &Config, t: &NumberTexts) -> (s: String)
    ensures
        s@ == config_text(*c, *t),
{
    let mut s = String::new();
    append_line(&mut s, "damping", t.damping.as_str());
    append_line(&mut s, "room", t.room.as_str());
    append_line(&mut s, "time", t.time_scale.as_str());
    append_line(&mut s, "volume", t.volume.as_str());
    append_line(
        &mut s,
        "mute",
        if c.mute {
            "1"
        } else {
            "0"
        },
    );
    append_line(&mut s, "balls", decimal_text(c.n_balls).as_str());
    assert(s@ =~= config_text(*c, *t));
    s
}

/// A text is read line by line.
proof fn lemma_lines(line: Seq<char>, rest: Seq<char>)
    requires
        !line.contains('\n'),
    ensures
        text_settings(line + seq!['\n'] + rest) == line_settings(line) + text_settings(rest),
{
    let text = line + seq!['\n'] + rest;
    assert forall|j: int| 0 <= j < line.len() implies text[j] != '\n' by {
        assert(line.contains(line[j]));
    }
    lemma_first_of(text, '\n', line.len());
    assert(text.take(line.len() as int) =~= line);
    assert(text.skip(line.len() as int + 1) =~= rest);
}

/// An assignment sets what it names.
proof fn lemma_assignment(name: Seq<char>, value: Seq<char>, rest: Seq<char>, key: Key)
    requires
        key_named(name) == Some(key),
        trimmed(name),
        trimmed(value),
        !name.contains('='),
        !name.contains('\n'),
        !value.contains('\n'),
    ensures
        text_settings(assignment(name, value) + rest) == seq![Setting { key, value }] + text_settings(
            rest,
        ),
{
    let line = name + seq!['='] + value;
    assert forall|j: int| 0 <= j < name.len() implies line[j] != '=' by {
        assert(name.contains(name[j]));
    }
    lemma_first_of(line, '=', name.len());
    assert(line.take(name.len() as int) =~= name);
    assert(line.skip(name.len() as int + 1) =~= value);
    lemma_trimmed(name);
    lemma_trimmed(value);
    assert(!line.contains('\n')) by {
        if line.contains('\n') {
            let j = line.index_of('\n');
            if j < name.len() {
                assert(name.contains(name[j]));
            } else if j > name.len() {
                assert(value.contains(value[j - name.len() - 1]));
            }
        }
    }
    lemma_lines(line, rest);
    assert(assignment(name, value) + rest =~= line + seq!['\n'] + rest);
}

/// Whether a text can stand as a value: on one line, without white space around it.
pub open spec fn plain(s: Seq<char>) -> bool {
    trimmed(s) && !s.contains('\n')
}

/// The names of the keys are all different, and plain.
proof fn lemma_names()
    ensures
        key_named("damping"@) == Some(Key::Damping),
        key_named("room"@) == Some(Key::Room),
        key_named("time"@) == Some(Key::Time),
        key_named("volume"@) == Some(Key::Volume),
        key_named("mute"@) == Some(Key::Mute),
        key_named("balls"@) == Some(Key::Balls),
        plain("damping"@) && !"damping"@.contains('='),
        plain("room"@) && !"room"@.contains('='),
        plain("time"@) && !"time"@.contains('='),
        plain("volume"@) && !"volume"@.contains('='),
        plain("mute"@) && !"mute"@.contains('='),
        plain("balls"@) && !"balls"@.contains('='),
        plain("0"@) && plain("1"@),
        "0"@ != "1"@ && "0"@ != "true"@,
{
    reveal_strlit("damping");
    reveal_strlit("room");
    reveal_strlit("time");
    reveal_strlit("volume");
    reveal_strlit("mute");
    reveal_strlit("balls");
    reveal_strlit("0");
    reveal_strlit("1");
    reveal_strlit("true");
    assert("damping"@.len() == 7 && "volume"@.len() == 6 && "balls"@.len() == 5);
    assert("room"@.len() == 4 && "time"@.len() == 4 && "mute"@.len() == 4);
    assert("room"@[0] == 'r' && "time"@[0] == 't' && "mute"@[0] == 'm');
    assert("0"@[0] == '0' && "1"@[0] == '1');
}

/// The lines of a saved text.
pub open spec fn saved(c: Config, t: NumberTexts) -> Seq<Setting> {
    seq![
        Setting { key: Key::Damping, value: t.damping@ },
        Setting { key: Key::Room, value: t.room@ },
        Setting { key: Key::Time, value: t.time_scale@ },
        Setting { key: Key::Volume, value: t.volume@ },
        Setting { key: Key::Mute, value: flag_text(c.mute) },
        Setting { key: Key::Balls, value: digits_of(c.n_balls as nat) },
    ]
}

proof fn lemma_damping_line(value: Seq<char>, rest: Seq<char>)
    requires
        plain(value),
    ensures
        text_settings(assignment("damping"@, value) + rest) == seq![
            Setting { key: Key::Damping, value },
        ] + text_settings(rest),
{
    lemma_names();
    lemma_assignment("damping"@, value, rest, Key::Damping);
}

proof fn lemma_room_line(value: Seq<char>, rest: Seq<char>)
    requires
        plain(value),
    ensures
        text_settings(assignment("room"@, value) + rest) == seq![
            Setting { key: Key::Room, value },
        ] + text_settings(rest),
{
    lemma_names();
    lemma_assignment("room"@, value, rest, Key::Room);
}

proof fn lemma_time_line(value: Seq<char>, rest: Seq<char>)
    requires
        plain(value),
    ensures
        text_settings(assignment("time"@, value) + rest) == seq![
            Setting { key: Key::Time, value },
        ] + text_settings(rest),
{
    lemma_names();
    lemma_assignment("time"@, value, rest, Key::Time);
}

proof fn lemma_volume_line(value: Seq<char>, rest: Seq<char>)
    requires
        plain(value),
    ensures
        text_settings(assignment("volume"@, value) + rest) == seq![
            Setting { key: Key::Volume, value },
        ] + text_settings(rest),
{
    lemma_names();
    lemma_assignment("volume"@, value, rest, Key::Volume);
}

proof fn lemma_mute_line(value: Seq<char>, rest: Seq<char>)
    requires
        plain(value),
    ensures
        text_settings(assignment("mute"@, value) + rest) == seq![
            Setting { key: Key::Mute, value },
        ] + text_settings(rest),
{
    lemma_names();
    lemma_assignment("mute"@, value, rest, Key::Mute);
}

proof fn lemma_balls_line(value: Seq<char>, rest: Seq<char>)
    requires
        plain(value),
    ensures
        text_settings(assignment("balls"@, value) + rest) == seq![
            Setting { key: Key::Balls, value },
        ] + text_settings(rest),
{
    lemma_names();
    lemma_assignment("balls"@, value, rest, Key::Balls);
}

/// Nothing sets nothing.
proof fn lemma_no_line()
    ensures
        text_settings(Seq::<char>::empty()) == Seq::<Setting>::empty(),
{
    let none = Seq::<char>::empty();
    assert(first_of(none, '\n') == 0);
    assert(first_of(none, '=') == 0);
}

/// The last two lines, which hold no number from outside.
proof fn lemma_last_lines(c: Config)
    ensures
        text_settings(
            assignment("mute"@, flag_text(c.mute)) + assignment("balls"@, digits_of(c.n_balls as nat)),
        ) == seq![
            Setting { key: Key::Mute, value: flag_text(c.mute) },
            Setting { key: Key::Balls, value: digits_of(c.n_balls as nat) },
        ],
{
    let count = digits_of(c.n_balls as nat);
    let none = Seq::<char>::empty();
    let last = assignment("balls"@, count);
    assert(plain(flag_text(c.mute))) by {
        lemma_names();
    }
    written_count_reads_back(c.n_balls as nat);
    lemma_no_line();
    lemma_balls_line(count, none);
    assert(last + none =~= last);
    lemma_mute_line(flag_text(c.mute), last);
    assert(seq![Setting { key: Key::Mute, value: flag_text(c.mute) }] + (seq![
        Setting { key: Key::Balls, value: count },
    ] + Seq::<Setting>::empty()) =~= seq![
        Setting { key: Key::Mute, value: flag_text(c.mute) },
        Setting { key: Key::Balls, value: count },
    ]);
}

proof fn lemma_saved_lines(c: Config, t: NumberTexts)
    requires
        plain(t.damping@),
        plain(t.room@),
        plain(t.time_scale@),
        plain(t.volume@),
    ensures
        text_settings(config_text(c, t)) == saved(c, t),
{
    let l5 = assignment("mute"@, flag_text(c.mute)) + assignment(
        "balls"@,
        digits_of(c.n_balls as nat),
    );
    let l4 = assignment("volume"@, t.volume@) + l5;
    let l3 = assignment("time"@, t.time_scale@) + l4;
    let l2 = assignment("room"@, t.room@) + l3;
    lemma_last_lines(c);
    lemma_volume_line(t.volume@, l5);
    lemma_time_line(t.time_scale@, l4);
    lemma_room_line(t.room@, l3);
    lemma_damping_line(t.damping@, l2);
    assert(text_settings(config_text(c, t)) =~= saved(c, t));
}

proof fn lemma_saved_values(c: Config, t: NumberTexts, numbers: Seq<Option<Float>>)
    requires
        numbers.len() == 6,
        numbers[0] == Some(c.damping),
        numbers[1] == Some(c.room),
        numbers[2] == Some(c.time_scale),
        numbers[3] == Some(c.volume),
    ensures
        loaded(saved(c, t), numbers) == c.clamped(),
{
    lemma_names();
    written_count_reads_back(c.n_balls as nat);
    let s = saved(c, t);
    let c0 = initial();
    let c1 = Config { damping: c.damping, ..c0 };
    let c2 = Config { room: c.room, ..c1 };
    let c3 = Config { time_scale: c.time_scale, ..c2 };
    let c4 = Config { volume: c.volume, ..c3 };
    let c5 = Config { mute: c.mute, ..c4 };
    assert(set_all(c0, s, numbers, 0) == c0);
    assert(set_all(c0, s, numbers, 1) == c1);
    assert(set_all(c0, s, numbers, 2) == c2);
    assert(set_all(c0, s, numbers, 3) == c3);
    assert(set_all(c0, s, numbers, 4) == c4);
    assert(set_all(c0, s, numbers, 5) == c5);
    assert(set_all(c0, s, numbers, 6) == c);
}

/// Settings that were saved load back: where each number reads as itself, the text
/// that `save_config` writes leads `load_config` to the same settings, each brought into
/// its range. Settings that are in range come back as they were.
pub proof fn saved_settings_load_back(c: Config, t: NumberTexts, numbers: Seq<Option<Float>>)
    requires
        plain(t.damping@),
        plain(t.room@),
        plain(t.time_scale@),
        plain(t.volume@),
        numbers.len() == 6,
        numbers[0] == Some(c.damping),
        numbers[1] == Some(c.room),
        numbers[2] == Some(c.time_scale),
        numbers[3] == Some(c.volume),
    ensures
        text_settings(config_text(c, t)) == saved(c, t),
        loaded(text_settings(config_text(c, t)), numbers) == c.clamped(),
{
    lemma_saved_lines(c, t);
    lemma_saved_values(c, t, numbers);
}

} // verus!
