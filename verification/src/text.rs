//! Lines, trimming and decimal numbers, on characters.

use vstd::prelude::*;
use vstd::string::*;

verus! {

/// Where `c` first stands in `s`, or the length of `s`.
pub open spec fn first_of(s: Seq<char>, c: char) -> nat
    decreases s.len(),
{
    if s.len() == 0 || s[0] == c {
        0
    } else {
        1 + first_of(s.drop_first(), c)
    }
}

/// The first place of `c` is the one with no `c` before it.
pub proof fn lemma_first_of(s: Seq<char>, c: char, k: nat)
    requires
        k <= s.len(),
        forall|j: int| 0 <= j < k ==> s[j] != c,
        k < s.len() ==> s[k as int] == c,
    ensures
        first_of(s, c) == k,
    decreases s.len(),
{
    if k > 0 {
        let t = s.drop_first();
        assert forall|j: int| 0 <= j < k - 1 implies t[j] != c by {
            assert(t[j] == s[j + 1]);
        }
        lemma_first_of(t, c, (k - 1) as nat);
    }
}

/// Whether a character is white space in the sense of Unicode.
#[verifier::allow_in_spec]
pub fn is_white(c: char) -> bool
    returns
        ('\u{9}' <= c && c <= '\u{d}' || c == ' ' || c == '\u{85}' || c == '\u{a0}' || c == '\u{1680}'
            || '\u{2000}' <= c && c <= '\u{200a}' || c == '\u{2028}' || c == '\u{2029}' || c
            == '\u{202f}' || c == '\u{205f}' || c == '\u{3000}'),
{
    '\u{9}' <= c && c <= '\u{d}' || c == ' ' || c == '\u{85}' || c == '\u{a0}' || c == '\u{1680}'
        || '\u{2000}' <= c && c <= '\u{200a}' || c == '\u{2028}' || c == '\u{2029}' || c
        == '\u{202f}' || c == '\u{205f}' || c == '\u{3000}'
}

/// `s` without the white space in front.
pub open spec fn trim_start(s: Seq<char>) -> Seq<char>
    decreases s.len(),
{
    if s.len() > 0 && is_white(s[0]) {
        trim_start(s.drop_first())
    } else {
        s
    }
}

/// `s` without the white space behind.
pub open spec fn trim_end(s: Seq<char>) -> Seq<char>
    decreases s.len(),
{
    if s.len() > 0 && is_white(s.last()) {
        trim_end(s.drop_last())
    } else {
        s
    }
}

/// `s` without the white space around it.
pub open spec fn trim(s: Seq<char>) -> Seq<char> {
    trim_end(trim_start(s))
}

/// Whether `s` neither begins nor ends with white space.
pub open spec fn trimmed(s: Seq<char>) -> bool {
    s.len() > 0 ==> !is_white(s[0]) && !is_white(s.last())
}

/// Trimming leaves alone what has no white space around it.
pub proof fn lemma_trimmed(s: Seq<char>)
    requires
        trimmed(s),
    ensures
        trim(s) == s,
{
}

/// The value of a string of digits.
pub open spec fn decimal(s: Seq<char>) -> nat
    decreases s.len(),
{
    if s.len() == 0 {
        0
    } else {
        decimal(s.drop_last()) * 10 + (s.last() as nat - '0' as nat) as nat
    }
}

/// Whether a character is a digit.
#[verifier::allow_in_spec]
pub fn is_digit(c: char) -> bool
    returns
        ('0' <= c && c <= '9'),
{
    '0' <= c && c <= '9'
}

/// `s` without the plus sign that a number may begin with.
pub open spec fn unsigned(s: Seq<char>) -> Seq<char> {
    if s.len() > 0 && s[0] == '+' {
        s.drop_first()
    } else {
        s
    }
}

/// Whether `s` is a whole number that a `usize` can hold.
pub open spec fn is_count(s: Seq<char>) -> bool {
    &&& unsigned(s).len() > 0
    &&& forall|i: int| 0 <= i < unsigned(s).len() ==> is_digit(#[trigger] unsigned(s)[i])
    &&& decimal(unsigned(s)) <= usize::MAX
}

/// The characters of a text.
pub fn chars_of(text: &str) -> (v: Vec<char>)
    ensures
        v@ == text@,
{
    let mut v: Vec<char> = Vec::new();
    for c in it: text.chars()
        invariant
            it.seq() == text@,
            v@ == text@.take(it.index()),
    {
        assert(text@.take(it.index() + 1) =~= text@.take(it.index()).push(text@[it.index()]));
        v.push(c);
    }
    assert(text@.take(text@.len() as int) =~= text@);
    v
}

/// A longer string of digits is worth no less.
proof fn lemma_decimal_grows(s: Seq<char>, k: int)
    requires
        0 <= k <= s.len(),
        forall|i: int| 0 <= i < s.len() ==> is_digit(#[trigger] s[i]),
    ensures
        decimal(s.take(k)) <= decimal(s),
    decreases s.len(),
{
    if k < s.len() {
        let t = s.drop_last();
        assert forall|i: int| 0 <= i < t.len() implies is_digit(#[trigger] t[i]) by {
            assert(t[i] == s[i]);
        }
        lemma_decimal_grows(t, k);
        assert(t.take(k) =~= s.take(k));
    } else {
        assert(s.take(k) =~= s);
    }
}

/// The whole number that a text stands for: digits, maybe behind a plus sign.
/// Nothing where there is anything else, or where the number is too large.
pub fn parse_usize(text: &str) -> (r: Option<usize>)
    ensures
        match r {
            Some(n) => is_count(text@) && n == decimal(unsigned(text@)),
            None => !is_count(text@),
        },
{
    let v = chars_of(text);
    let n = v.len();
    let from: usize = if n > 0 && v[0] == '+' {
        1
    } else {
        0
    };
    let ghost digits = unsigned(text@);
    assert(digits =~= v@.skip(from as int));
    if from == n {
        return None;
    }
    let mut value: usize = 0;
    let mut i = from;
    while i < n
        invariant
            n == v@.len(),
            from <= i <= n,
            from < n,
            v@ == text@,
            digits == unsigned(text@),
            digits =~= v@.skip(from as int),
            value == decimal(digits.take(i - from)),
            forall|j: int| 0 <= j < i - from ==> is_digit(#[trigger] digits[j]),
        decreases n - i,
    {
        let c = v[i];
        let ghost k = i - from;
        assert(digits[k] == c);
        if !is_digit(c) {
            return None;
        }
        let d = c as u32 - '0' as u32;
        assert(digits.take(k + 1).drop_last() =~= digits.take(k));
        assert(digits.take(k + 1).last() == c);
        assert(decimal(digits.take(k + 1)) == value * 10 + d);
        let next = match value.checked_mul(10) {
            Some(x) => x.checked_add(d as usize),
            None => None,
        };
        match next {
            Some(x) => {
                value = x;
            },
            None => {
                proof {
                    if is_count(text@) {
                        lemma_decimal_grows(digits, k + 1);
                    }
                }
                return None;
            },
        }
        i = i + 1;
    }
    assert(digits.take(n - from) =~= digits);
    Some(value)
}

/// The digit of a number below ten.
pub open spec fn digit(d: nat) -> char {
    ('0' as nat + d) as char
}

/// A number in decimal digits.
pub open spec fn digits_of(n: nat) -> Seq<char>
    decreases n,
{
    if n < 10 {
        seq![digit(n)]
    } else {
        digits_of(n / 10).push(digit(n % 10))
    }
}

fn digit_text(d: usize) -> (s: &'static str)
    requires
        d < 10,
    ensures
        s@ == seq![digit(d as nat)],
{
    proof {
        reveal_strlit("0");
        reveal_strlit("1");
        reveal_strlit("2");
        reveal_strlit("3");
        reveal_strlit("4");
        reveal_strlit("5");
        reveal_strlit("6");
        reveal_strlit("7");
        reveal_strlit("8");
        reveal_strlit("9");
    }
    let s = if d == 0 {
        "0"
    } else if d == 1 {
        "1"
    } else if d == 2 {
        "2"
    } else if d == 3 {
        "3"
    } else if d == 4 {
        "4"
    } else if d == 5 {
        "5"
    } else if d == 6 {
        "6"
    } else if d == 7 {
        "7"
    } else if d == 8 {
        "8"
    } else {
        "9"
    };
    assert(s@ =~= seq![digit(d as nat)]);
    s
}

/// A number in decimal digits.
pub fn decimal_text(n: usize) -> (s: String)
    ensures
        s@ == digits_of(n as nat),
    decreases n,
{
    if n < 10 {
        digit_text(n).to_owned()
    } else {
        let mut s = decimal_text(n / 10);
        s.append(digit_text(n % 10));
        assert(s@ =~= digits_of(n as nat));
        s
    }
}

/// The digits of a number are digits, and there is one.
proof fn lemma_digits(n: nat)
    ensures
        digits_of(n).len() > 0,
        forall|i: int| 0 <= i < digits_of(n).len() ==> is_digit(#[trigger] digits_of(n)[i]),
    decreases n,
{
    if n >= 10 {
        lemma_digits(n / 10);
    }
}

/// The digits of a number are worth the number.
proof fn lemma_decimal_of_digits(n: nat)
    ensures
        decimal(digits_of(n)) == n,
    decreases n,
{
    let s = digits_of(n);
    if n < 10 {
        assert(s.drop_last() =~= Seq::empty());
        assert(decimal(s.drop_last()) == 0);
        assert(s.last() == digit(n));
    } else {
        lemma_decimal_of_digits(n / 10);
        assert(s.drop_last() =~= digits_of(n / 10));
        assert(s.last() == digit(n % 10));
    }
    assert(s.len() > 0);
}

/// A number that is written in digits is read back.
pub proof fn written_count_reads_back(n: nat)
    requires
        n <= usize::MAX,
    ensures
        is_count(digits_of(n)),
        decimal(unsigned(digits_of(n))) == n,
        trimmed(digits_of(n)),
        !digits_of(n).contains('\n'),
{
    lemma_digits(n);
    lemma_decimal_of_digits(n);
    let s = digits_of(n);
    assert(is_digit(s[0]) && is_digit(s.last()));
}

} // verus!
