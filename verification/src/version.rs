//! Package versions: three numbers, ordered from the most significant down.

use vstd::prelude::*;
use vstd::string::*;
use crate::text::{chars_of, clean, lemma_clean_dotted};

verus! {

/// The character that stands for a digit below ten.
pub open spec fn digit_char(d: nat) -> char {
    if d == 0 {
        '0'
    } else if d == 1 {
        '1'
    } else if d == 2 {
        '2'
    } else if d == 3 {
        '3'
    } else if d == 4 {
        '4'
    } else if d == 5 {
        '5'
    } else if d == 6 {
        '6'
    } else if d == 7 {
        '7'
    } else if d == 8 {
        '8'
    } else {
        '9'
    }
}

/// A number written in base ten, without leading zeros.
pub open spec fn decimal(n: nat) -> Seq<char>
    decreases n,
{
    if n < 10 {
        seq![digit_char(n)]
    } else {
        decimal(n / 10).push(digit_char(n % 10))
    }
}

/// A version of a package.
#[derive(Clone, Copy, Debug, PartialEq, Eq, Structural)]
pub struct PackageVersion {
    pub major: u64,
    pub minor: u64,
    pub patch: u64,
}

impl PackageVersion {
    /// The version as it is written: the three numbers with dots between.
    pub open spec fn text(self) -> Seq<char> {
        decimal(self.major as nat) + seq!['.'] + decimal(self.minor as nat) + seq!['.'] + decimal(
            self.patch as nat,
        )
    }

    /// `self` comes before `other`.
    pub open spec fn before(self, other: PackageVersion) -> bool {
        ||| self.major < other.major
        ||| self.major == other.major && self.minor < other.minor
        ||| self.major == other.major && self.minor == other.minor && self.patch < other.patch
    }

    pub fn new(major: u64, minor: u64, patch: u64) -> (version: PackageVersion)
        ensures
            version == (PackageVersion { major, minor, patch }),
    {
        PackageVersion { major, minor, patch }
    }

    /// Whether `self` comes before `other`.
    pub fn is_before(&self, other: &PackageVersion) -> (earlier: bool)
        ensures
            earlier == self.before(*other),
    {
        if self.major != other.major {
            self.major < other.major
        } else if self.minor != other.minor {
            self.minor < other.minor
        } else {
            self.patch < other.patch
        }
    }

    /// Reads a version from the way it is written. There is a version to
    /// return exactly when `text` is the writing of one; any other text, also
    /// one with a number too large or with a zero in front of it, gives `None`.
    pub fn parse(text: &str) -> (parsed: Option<PackageVersion>)
        ensures
            parsed matches Some(version) ==> version.text() == text@,
            parsed is None ==> forall|version: PackageVersion| version.text() != text@,
    {
        let chars = chars_of(text);
        let ghost s = chars@;
        let (major, after_major) = match read_number(&chars, 0) {
            Some(read) => read,
            None => {
                assert forall|v: PackageVersion| v.text() != s by {
                    lemma_shape(v);
                }
                return None;
            },
        };
        if after_major >= chars.len() || chars[after_major] != '.' {
            assert forall|v: PackageVersion| v.text() != s by {
                lemma_shape(v);
                if v.text() == s {
                    lemma_one_number(s, 0, major as nat, after_major as int, v.major as nat, first_dot(v));
                }
            }
            return None;
        }
        let (minor, after_minor) = match read_number(&chars, after_major + 1) {
            Some(read) => read,
            None => {
                assert forall|v: PackageVersion| v.text() != s by {
                    lemma_shape(v);
                    if v.text() == s {
                        lemma_one_number(s, 0, major as nat, after_major as int, v.major as nat, first_dot(v));
                    }
                }
                return None;
            },
        };
        if after_minor >= chars.len() || chars[after_minor] != '.' {
            assert forall|v: PackageVersion| v.text() != s by {
                lemma_shape(v);
                if v.text() == s {
                    lemma_one_number(s, 0, major as nat, after_major as int, v.major as nat, first_dot(v));
                    lemma_one_number(s, after_major + 1, minor as nat, after_minor as int, v.minor as nat, second_dot(v));
                }
            }
            return None;
        }
        let (patch, end) = match read_number(&chars, after_minor + 1) {
            Some(read) => read,
            None => {
                assert forall|v: PackageVersion| v.text() != s by {
                    lemma_shape(v);
                    if v.text() == s {
                        lemma_one_number(s, 0, major as nat, after_major as int, v.major as nat, first_dot(v));
                        lemma_one_number(s, after_major + 1, minor as nat, after_minor as int, v.minor as nat, second_dot(v));
                    }
                }
                return None;
            },
        };
        if end != chars.len() {
            assert forall|v: PackageVersion| v.text() != s by {
                lemma_shape(v);
                if v.text() == s {
                    lemma_one_number(s, 0, major as nat, after_major as int, v.major as nat, first_dot(v));
                    lemma_one_number(s, after_major + 1, minor as nat, after_minor as int, v.minor as nat, second_dot(v));
                    lemma_one_number(s, after_minor + 1, patch as nat, end as int, v.patch as nat, s.len() as int);
                }
            }
            return None;
        }
        let version = PackageVersion { major, minor, patch };
        proof {
            let a = s.subrange(0, after_major as int);
            let b = s.subrange(after_major + 1, after_minor as int);
            let c = s.subrange(after_minor + 1, end as int);
            assert(s =~= a + seq!['.'] + b + seq!['.'] + c);
        }
        Some(version)
    }

    /// Writes the version out.
    pub fn to_text(&self) -> (text: String)
        ensures
            text@ == self.text(),
    {
        let mut text = String::new();
        append_decimal(&mut text, self.major);
        text.append(".");
        append_decimal(&mut text, self.minor);
        text.append(".");
        append_decimal(&mut text, self.patch);
        proof {
            reveal_strlit(".");
            assert("."@ =~= seq!['.']);
        }
        text
    }
}

/// The text of one digit.
fn digit_text(d: u64) -> (text: &'static str)
    requires
        d < 10,
    ensures
        text@ == seq![digit_char(d as nat)],
{
    proof {
        reveal_strlit("0");
        reveal_strlit("1");
        reveal_strlit("2");
        reveal_strlit("3");
        reveal_strlit("4");
        reveal_strlit("5");
        reveal_strlit("6");
        reveal_strlit("7");
        reveal_strlit("8");
        reveal_strlit("9");
    }
    let text = if d == 0 {
        "0"
    } else if d == 1 {
        "1"
    } else if d == 2 {
        "2"
    } else if d == 3 {
        "3"
    } else if d == 4 {
        "4"
    } else if d == 5 {
        "5"
    } else if d == 6 {
        "6"
    } else if d == 7 {
        "7"
    } else if d == 8 {
        "8"
    } else {
        "9"
    };
    assert(text@ =~= seq![digit_char(d as nat)]);
    text
}

/// Appends a number in base ten to `out`.
pub fn append_decimal(out: &mut String, n: u64)
    ensures
        final(out)@ == old(out)@ + decimal(n as nat),
    decreases n,
{
    if n >= 10 {
        append_decimal(out, n / 10);
    }
    out.append(digit_text(n % 10));
    assert(out@ =~= old(out)@ + decimal(n as nat));
}

/// The character is one of the ten digits.
pub open spec fn is_digit(c: char) -> bool {
    c == '0' || c == '1' || c == '2' || c == '3' || c == '4' || c == '5' || c == '6' || c == '7'
        || c == '8' || c == '9'
}

/// The number that a digit stands for.
pub open spec fn digit_value(c: char) -> nat {
    if c == '0' {
        0
    } else if c == '1' {
        1
    } else if c == '2' {
        2
    } else if c == '3' {
        3
    } else if c == '4' {
        4
    } else if c == '5' {
        5
    } else if c == '6' {
        6
    } else if c == '7' {
        7
    } else if c == '8' {
        8
    } else {
        9
    }
}

/// Every character is a digit.
pub open spec fn all_digits(s: Seq<char>) -> bool {
    forall|i: int| 0 <= i < s.len() ==> is_digit(#[trigger] s[i])
}

/// The number that a sequence of digits stands for in base ten.
pub open spec fn decimal_value(s: Seq<char>) -> nat
    decreases s.len(),
{
    if s.len() == 0 {
        0
    } else {
        decimal_value(s.drop_last()) * 10 + digit_value(s.last())
    }
}

/// The way a number is written: digits only, at least one, and no zero in
/// front of another digit.
pub open spec fn canonical(s: Seq<char>) -> bool {
    &&& s.len() > 0
    &&& all_digits(s)
    &&& s.len() > 1 ==> s[0] != '0'
}

/// A number is written in the canonical way, and what is written stands for it.
pub proof fn lemma_decimal(n: nat)
    ensures
        canonical(decimal(n)),
        decimal_value(decimal(n)) == n,
    decreases n,
{
    if n < 10 {
        let s = decimal(n);
        assert(s.len() == 1);
        assert(s[0] == digit_char(n));
        assert(s.drop_last().len() == 0);
        assert(decimal_value(s.drop_last()) == 0);
        assert(s.last() == digit_char(n));
    } else {
        lemma_decimal(n / 10);
        let front = decimal(n / 10);
        let s = decimal(n);
        assert(s == front.push(digit_char(n % 10)));
        assert(s.drop_last() =~= front);
        assert(s.last() == digit_char(n % 10));
        assert forall|i: int| 0 <= i < s.len() implies is_digit(#[trigger] s[i]) by {
            if i < front.len() {
                assert(s[i] == front[i]);
            }
        }
        assert(s[0] == front[0]);
        if front.len() == 1 {
            assert(front.drop_last().len() == 0);
            assert(decimal_value(front.drop_last()) == 0);
            assert(front.last() == front[0]);
            assert(decimal_value(front) == digit_value(front[0]));
        }
    }
}

/// A number has one way of being written.
pub proof fn lemma_decimal_injective(a: nat, b: nat)
    requires
        decimal(a) == decimal(b),
    ensures
        a == b,
{
    lemma_decimal(a);
    lemma_decimal(b);
}

/// What is written in the canonical way is the writing of the number it stands for.
pub proof fn lemma_canonical_is_decimal(s: Seq<char>)
    requires
        canonical(s),
    ensures
        decimal(decimal_value(s)) == s,
    decreases s.len(),
{
    let n = decimal_value(s);
    let d = digit_value(s.last());
    assert(is_digit(s.last()));
    assert(digit_char(d) == s.last());
    if s.len() == 1 {
        assert(s.drop_last().len() == 0);
        assert(decimal_value(s.drop_last()) == 0);
        assert(n == d);
        assert(decimal(n) =~= s);
    } else {
        let front = s.drop_last();
        assert forall|i: int| 0 <= i < front.len() implies is_digit(#[trigger] front[i]) by {
            assert(front[i] == s[i]);
        }
        assert(front[0] == s[0]);
        lemma_canonical_is_decimal(front);
        lemma_leading_digit(front);
        let m = decimal_value(front);
        assert(m >= 1);
        assert(n == m * 10 + d);
        assert(n >= 10);
        assert(n / 10 == m && n % 10 == d);
        assert(decimal(n) =~= s);
    }
}

/// Digits that do not begin with a zero stand for a number that is not zero.
pub proof fn lemma_leading_digit(s: Seq<char>)
    requires
        s.len() > 0,
        all_digits(s),
        s[0] != '0',
    ensures
        decimal_value(s) >= 1,
    decreases s.len(),
{
    if s.len() == 1 {
        assert(s.drop_last().len() == 0);
        assert(decimal_value(s.drop_last()) == 0);
        assert(is_digit(s[0]));
        assert(s.last() == s[0]);
    } else {
        let front = s.drop_last();
        assert forall|i: int| 0 <= i < front.len() implies is_digit(#[trigger] front[i]) by {
            assert(front[i] == s[i]);
        }
        assert(front[0] == s[0]);
        lemma_leading_digit(front);
    }
}

/// Digits stand for no less than any of their beginnings.
pub proof fn lemma_value_grows(s: Seq<char>, k: int)
    requires
        0 <= k <= s.len(),
    ensures
        decimal_value(s.take(k)) <= decimal_value(s),
    decreases s.len() - k,
{
    if k == s.len() {
        assert(s.take(k) =~= s);
    } else {
        lemma_value_grows(s, k + 1);
        assert(s.take(k + 1).drop_last() =~= s.take(k));
    }
}

/// A number as it is written is a clean name.
pub proof fn lemma_decimal_clean(n: nat)
    ensures
        clean(decimal(n)),
{
    lemma_decimal(n);
    let s = decimal(n);
    assert(is_digit(s[0]));
    assert(is_digit(s[s.len() - 1]));
    assert forall|i: int| 0 <= i < s.len() implies s[i] != '/' && s[i] != '\\' by {
        assert(is_digit(s[i]));
    }
    assert forall|i: int| 0 < i < s.len() implies !(s[i - 1] == '.' && #[trigger] s[i] == '.') by {
        assert(is_digit(s[i]));
    }
}

/// A version as it is written is a clean name.
pub proof fn lemma_text_clean(v: PackageVersion)
    ensures
        clean(v.text()),
{
    lemma_decimal_clean(v.major as nat);
    lemma_decimal_clean(v.minor as nat);
    lemma_decimal_clean(v.patch as nat);
    lemma_clean_dotted(decimal(v.major as nat), decimal(v.minor as nat));
    lemma_clean_dotted(
        decimal(v.major as nat) + seq!['.'] + decimal(v.minor as nat),
        decimal(v.patch as nat),
    );
}

/// Two texts that are cut at their first dot are equal only if both parts are.
pub proof fn lemma_cut_at_dot(a: Seq<char>, rest_a: Seq<char>, b: Seq<char>, rest_b: Seq<char>)
    requires
        all_digits(a),
        all_digits(b),
        a + seq!['.'] + rest_a == b + seq!['.'] + rest_b,
    ensures
        a == b,
        rest_a == rest_b,
{
    let ta = a + seq!['.'] + rest_a;
    let tb = b + seq!['.'] + rest_b;
    if a.len() < b.len() {
        assert(ta[a.len() as int] == '.');
        assert(tb[a.len() as int] == b[a.len() as int]);
        assert(is_digit(b[a.len() as int]));
    }
    if b.len() < a.len() {
        assert(tb[b.len() as int] == '.');
        assert(ta[b.len() as int] == a[b.len() as int]);
        assert(is_digit(a[b.len() as int]));
    }
    assert(a.len() == b.len());
    assert forall|i: int| 0 <= i < a.len() implies a[i] == b[i] by {
        assert(ta[i] == a[i]);
        assert(tb[i] == b[i]);
    }
    assert(a =~= b);
    assert(ta.len() == a.len() + 1 + rest_a.len());
    assert(tb.len() == b.len() + 1 + rest_b.len());
    assert(rest_a.len() == rest_b.len());
    assert forall|i: int| 0 <= i < rest_a.len() implies rest_a[i] == rest_b[i] by {
        assert(ta[a.len() + 1 + i] == rest_a[i]);
        assert(tb[b.len() + 1 + i] == rest_b[i]);
    }
    assert(rest_a =~= rest_b);
}

/// A version has one way of being written.
pub proof fn lemma_text_injective(a: PackageVersion, b: PackageVersion)
    requires
        a.text() == b.text(),
    ensures
        a == b,
{
    let (a1, a2, a3) = (decimal(a.major as nat), decimal(a.minor as nat), decimal(a.patch as nat));
    let (b1, b2, b3) = (decimal(b.major as nat), decimal(b.minor as nat), decimal(b.patch as nat));
    lemma_decimal(a.major as nat);
    lemma_decimal(a.minor as nat);
    lemma_decimal(a.patch as nat);
    lemma_decimal(b.major as nat);
    lemma_decimal(b.minor as nat);
    lemma_decimal(b.patch as nat);
    assert(a.text() =~= a1 + seq!['.'] + (a2 + seq!['.'] + a3));
    assert(b.text() =~= b1 + seq!['.'] + (b2 + seq!['.'] + b3));
    lemma_cut_at_dot(a1, a2 + seq!['.'] + a3, b1, b2 + seq!['.'] + b3);
    lemma_cut_at_dot(a2, a3, b2, b3);
}

/// The digits that begin at `start` stop at `end`: a character that is no
/// digit, or the end of the text.
spec fn digits_end(s: Seq<char>, start: int, end: int) -> bool {
    &&& 0 <= start <= end <= s.len()
    &&& all_digits(s.subrange(start, end))
    &&& end < s.len() ==> !is_digit(s[end])
}

/// The digits that begin at `start` stop at `end` and are the writing of `n`.
spec fn number_at(s: Seq<char>, start: int, n: nat, end: int) -> bool {
    digits_end(s, start, end) && s.subrange(start, end) == decimal(n)
}

/// Where the first dot of a written version stands.
spec fn first_dot(v: PackageVersion) -> int {
    decimal(v.major as nat).len() as int
}

/// Where the second dot of a written version stands.
spec fn second_dot(v: PackageVersion) -> int {
    first_dot(v) + 1 + decimal(v.minor as nat).len()
}

/// How a written version is made up: three numbers, and a dot after the
/// first and after the second.
proof fn lemma_shape(v: PackageVersion)
    ensures
        number_at(v.text(), 0, v.major as nat, first_dot(v)),
        first_dot(v) < v.text().len(),
        v.text()[first_dot(v)] == '.',
        number_at(v.text(), first_dot(v) + 1, v.minor as nat, second_dot(v)),
        second_dot(v) < v.text().len(),
        v.text()[second_dot(v)] == '.',
        number_at(v.text(), second_dot(v) + 1, v.patch as nat, v.text().len() as int),
{
    let s = v.text();
    let a = decimal(v.major as nat);
    let b = decimal(v.minor as nat);
    let c = decimal(v.patch as nat);
    lemma_decimal(v.major as nat);
    lemma_decimal(v.minor as nat);
    lemma_decimal(v.patch as nat);
    assert(s.subrange(0, first_dot(v)) =~= a);
    assert(s.subrange(first_dot(v) + 1, second_dot(v)) =~= b);
    assert(s.subrange(second_dot(v) + 1, s.len() as int) =~= c);
}

/// Digits that begin at one place stop at one place, and stand for one number.
proof fn lemma_one_number(s: Seq<char>, start: int, n: nat, end: int, m: nat, other: int)
    requires
        number_at(s, start, n, end),
        number_at(s, start, m, other),
    ensures
        end == other,
        n == m,
{
    if end < other {
        assert(s.subrange(start, other)[end - start] == s[end]);
    }
    if other < end {
        assert(s.subrange(start, end)[other - start] == s[other]);
    }
    lemma_decimal_injective(n, m);
}

/// Where digits stand from `start` up to and with `i`, they stop after `i`.
proof fn lemma_stops_later(s: Seq<char>, start: int, end: int, i: int)
    requires
        digits_end(s, start, end),
        start <= i < s.len(),
        forall|k: int| start <= k <= i ==> is_digit(#[trigger] s[k]),
    ensures
        i < end,
{
}

/// The number that a digit stands for, if the character is one.
fn digit_of(c: char) -> (digit: Option<u64>)
    ensures
        digit is Some <==> is_digit(c),
        digit matches Some(d) ==> d == digit_value(c) && d < 10,
{
    if c == '0' {
        Some(0)
    } else if c == '1' {
        Some(1)
    } else if c == '2' {
        Some(2)
    } else if c == '3' {
        Some(3)
    } else if c == '4' {
        Some(4)
    } else if c == '5' {
        Some(5)
    } else if c == '6' {
        Some(6)
    } else if c == '7' {
        Some(7)
    } else if c == '8' {
        Some(8)
    } else if c == '9' {
        Some(9)
    } else {
        None
    }
}

/// Reads the number whose digits begin at `start`, and says where they stop.
/// There is none where no digit stands at `start`, where a zero stands in
/// front of another digit, and where the number is too large.
fn read_number(chars: &Vec<char>, start: usize) -> (read: Option<(u64, usize)>)
    requires
        start <= chars.len(),
    ensures
        read matches Some((n, end)) ==> number_at(chars@, start as int, n as nat, end as int),
        read is None ==> forall|n: u64, end: int| !number_at(chars@, start as int, n as nat, end),
{
    let ghost s = chars@;
    let mut i: usize = start;
    let mut n: u64 = 0;
    while i < chars.len() && digit_of(chars[i]).is_some()
        invariant
            s == chars@,
            start <= i <= chars.len(),
            all_digits(s.subrange(start as int, i as int)),
            n == decimal_value(s.subrange(start as int, i as int)),
            i >= start + 2 ==> s[start as int] != '0',
        decreases chars.len() - i,
    {
        let ghost read = s.subrange(start as int, i as int);
        let ghost more = s.subrange(start as int, i + 1);
        let d = match digit_of(chars[i]) {
            Some(d) => d,
            None => 0,
        };
        proof {
            assert(more.drop_last() =~= read);
            assert(more.last() == s[i as int]);
            assert forall|k: int| start <= k <= i implies is_digit(#[trigger] s[k]) by {
                if k < i {
                    assert(read[k - start] == s[k]);
                }
            }
            assert forall|k: int| 0 <= k < more.len() implies is_digit(#[trigger] more[k]) by {
                assert(more[k] == s[start + k]);
            }
        }
        if i == start + 1 && n == 0 {
            assert forall|m: u64, end: int| !number_at(s, start as int, m as nat, end) by {
                if number_at(s, start as int, m as nat, end) {
                    lemma_stops_later(s, start as int, end, i as int);
                    lemma_decimal(m as nat);
                    assert(read.drop_last().len() == 0);
                    assert(decimal_value(read.drop_last()) == 0);
                    assert(read.last() == s[start as int]);
                    assert(is_digit(s[start as int]));
                    assert(s.subrange(start as int, end)[0] == s[start as int]);
                }
            }
            return None;
        }
        if n > (u64::MAX - d) / 10 {
            assert forall|m: u64, end: int| !number_at(s, start as int, m as nat, end) by {
                if number_at(s, start as int, m as nat, end) {
                    lemma_stops_later(s, start as int, end, i as int);
                    lemma_decimal(m as nat);
                    let whole = s.subrange(start as int, end);
                    lemma_value_grows(whole, i + 1 - start);
                    assert(whole.take(i + 1 - start) =~= more);
                }
            }
            return None;
        }
        proof {
            if i >= start + 1 {
                assert(read[0] == s[start as int]);
                if i == start + 1 {
                    assert(read.drop_last().len() == 0);
                    assert(decimal_value(read.drop_last()) == 0);
                    assert(read.last() == s[start as int]);
                    assert(is_digit(s[start as int]));
                }
            }
        }
        n = n * 10 + d;
        i = i + 1;
    }
    let ghost read = s.subrange(start as int, i as int);
    if i == start {
        assert forall|m: u64, end: int| !number_at(s, start as int, m as nat, end) by {
            if number_at(s, start as int, m as nat, end) {
                lemma_decimal(m as nat);
                assert(s.subrange(start as int, end)[0] == s[start as int]);
            }
        }
        return None;
    }
    proof {
        assert(read[0] == s[start as int]);
        lemma_canonical_is_decimal(read);
    }
    Some((n, i))
}

} // verus!
