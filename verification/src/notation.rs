//! Settings written in scientific notation, such as `3.5e-1`.

use crate::ratio::Decimal;
#[allow(unused_imports)]
use crate::ratio::scientific;
use vstd::prelude::*;

verus! {

/// The largest exponent that is read.
pub const MAX_EXPONENT: u64 = 1_000_000;

pub open spec fn is_digit(c: u8) -> bool {
    48 <= c <= 57
}

pub open spec fn all_digits(s: Seq<u8>) -> bool {
    forall|i: int| 0 <= i < s.len() ==> is_digit(#[trigger] s[i])
}

/// The number that a row of decimal digits stands for.
pub open spec fn digits_value(s: Seq<u8>) -> nat
    decreases s.len(),
{
    if s.len() == 0 {
        0
    } else {
        (10 * digits_value(s.drop_last()) + (s.last() - 48)) as nat
    }
}

/// A number in scientific notation: digits, a point and more digits where there
/// are any, the letter `e`, and an exponent that may be negative.
#[verifier::ext_equal]
pub struct Notation {
    pub whole: Seq<u8>,
    pub fraction: Seq<u8>,
    pub negative: bool,
    pub exponent: Seq<u8>,
}

impl Notation {
    pub open spec fn wf(self) -> bool {
        &&& self.whole.len() > 0 && all_digits(self.whole)
        &&& all_digits(self.fraction)
        &&& self.exponent.len() > 0 && all_digits(self.exponent)
    }

    /// What follows the letter.
    pub open spec fn power_text(self) -> Seq<u8> {
        if self.negative {
            seq![45u8] + self.exponent
        } else {
            self.exponent
        }
    }

    /// What follows the whole digits.
    pub open spec fn tail(self) -> Seq<u8> {
        if self.fraction.len() > 0 {
            seq![46u8] + (self.fraction + (seq![101u8] + self.power_text()))
        } else {
            seq![101u8] + self.power_text()
        }
    }

    /// The text of the number.
    pub open spec fn text(self) -> Seq<u8> {
        self.whole + self.tail()
    }

    /// The digits without the point.
    pub open spec fn digits(self) -> nat {
        digits_value(self.whole + self.fraction)
    }

    /// The power of ten that the digits are multiplied by.
    pub open spec fn power(self) -> int {
        (if self.negative {
            -(digits_value(self.exponent) as int)
        } else {
            digits_value(self.exponent) as int
        }) - self.fraction.len()
    }

    /// Whether the number is one that a setting can be: it lies between zero and
    /// one, and its digits and decimal places can be held.
    pub open spec fn is_setting(self) -> bool {
        &&& self.digits() <= u64::MAX
        &&& digits_value(self.exponent) <= MAX_EXPONENT
        &&& self.fraction.len() <= MAX_EXPONENT
        &&& scientific(self.digits() as u64, self.power()) <= 1real
        &&& self.digits() == 0 || self.power() >= -0xffff
    }
}

/// The end of the digits that begin at `from`.
fn digits_end(text: &[u8], from: usize) -> (end: usize)
    requires
        from <= text@.len(),
    ensures
        from <= end <= text@.len(),
        all_digits(text@.subrange(from as int, end as int)),
        end < text@.len() ==> !is_digit(text@[end as int]),
{
    let mut end: usize = from;
    while end < text.len() && 48 <= text[end] && text[end] <= 57
        invariant
            from <= end <= text@.len(),
            forall|i: int| from <= i < end ==> is_digit(#[trigger] text@[i]),
        decreases text@.len() - end,
    {
        end = end + 1;
    }
    end
}

/// The number that a row of digits stands for, where it can be held.
fn read_digits(digits: &[u8]) -> (r: Option<u64>)
    requires
        all_digits(digits@),
    ensures
        match r {
            Some(n) => n == digits_value(digits@),
            None => digits_value(digits@) > u64::MAX,
        },
{
    let mut n: u64 = 0;
    let mut i: usize = 0;
    while i < digits.len()
        invariant
            all_digits(digits@),
            i <= digits@.len(),
            n == digits_value(digits@.take(i as int)),
        decreases digits@.len() - i,
    {
        let ghost more = digits@.take(i + 1);
        proof {
            assert(more.drop_last() =~= digits@.take(i as int));
            assert(is_digit(digits@[i as int]));
            lemma_digits_grow(digits@, i + 1);
        }
        let digit: u64 = (digits[i] - 48) as u64;
        if n > (u64::MAX - digit) / 10 {
            return None;
        }
        n = n * 10 + digit;
        i = i + 1;
    }
    assert(digits@.take(i as int) =~= digits@);
    Some(n)
}

/// More digits never make a smaller number.
proof fn lemma_digits_grow(s: Seq<u8>, i: int)
    requires
        all_digits(s),
        0 <= i <= s.len(),
    ensures
        digits_value(s.take(i)) <= digits_value(s),
    decreases s.len(),
{
    if i == s.len() {
        assert(s.take(i) =~= s);
    } else {
        let rest = s.drop_last();
        assert(all_digits(rest)) by {
            assert forall|k: int| 0 <= k < rest.len() implies is_digit(#[trigger] rest[k]) by {
                assert(rest[k] == s[k]);
            }
        }
        lemma_digits_grow(rest, i);
        assert(rest.take(i) =~= s.take(i));
        assert(is_digit(s[s.len() - 1]));
    }
}

/// A row of digits before something else ends where the first other character
/// stands.
proof fn lemma_run(digits: Seq<u8>, tail: Seq<u8>, text: Seq<u8>, end: int)
    requires
        text == digits + tail,
        all_digits(digits),
        tail.len() > 0 ==> !is_digit(tail[0]),
        0 <= end <= text.len(),
        all_digits(text.take(end)),
        end < text.len() ==> !is_digit(text[end]),
    ensures
        end == digits.len(),
        digits == text.take(end),
        tail == text.skip(end),
{
    if end < digits.len() {
        assert(text[end] == digits[end]);
        assert(is_digit(digits[end]));
    }
    if end > digits.len() {
        assert(text.take(end)[digits.len() as int] == tail[0]);
        assert(is_digit(text.take(end)[digits.len() as int]));
    }
    assert(digits =~= text.take(end));
    assert(tail =~= text.skip(end));
}

/// Whether `n` is a way to read `text`.
pub open spec fn reads(text: Seq<u8>, n: Notation) -> bool {
    n.wf() && n.text() == text
}

/// There is at most one way to read a text.
proof fn lemma_unique(text: Seq<u8>, a: Notation, b: Notation)
    requires
        reads(text, a),
        reads(text, b),
    ensures
        a == b,
{
    lemma_starts(a);
    lemma_starts(b);
    let i = a.whole.len() as int;
    assert(text.take(i) =~= a.whole);
    assert(text[i] == a.tail()[0]);
    lemma_run(b.whole, b.tail(), text, i);
    assert(a.tail() =~= text.skip(i));
    lemma_same_fraction(a, b);
    lemma_same_power(a, b);
    assert(a =~= b);
}

proof fn lemma_same_fraction(a: Notation, b: Notation)
    requires
        a.wf(),
        b.wf(),
        a.tail() == b.tail(),
    ensures
        a.fraction == b.fraction,
        a.power_text() == b.power_text(),
{
    lemma_starts(a);
    lemma_starts(b);
    let tail = a.tail();
    let (x, y) = (seq![101u8] + a.power_text(), seq![101u8] + b.power_text());
    if a.fraction.len() > 0 {
        let rest = tail.skip(1);
        assert((a.fraction + x) =~= rest);
        assert((b.fraction + y) =~= rest);
        let j = a.fraction.len() as int;
        assert(rest.take(j) =~= a.fraction);
        assert(rest[j] == x[0]);
        lemma_run(b.fraction, y, rest, j);
        assert(x =~= rest.skip(j));
    } else {
        assert(a.fraction =~= b.fraction);
    }
    assert(x == y);
    assert(x.skip(1) =~= a.power_text());
    assert(y.skip(1) =~= b.power_text());
}

proof fn lemma_same_power(a: Notation, b: Notation)
    requires
        a.wf(),
        b.wf(),
        a.power_text() == b.power_text(),
    ensures
        a.negative == b.negative,
        a.exponent == b.exponent,
{
    let power = a.power_text();
    assert(is_digit(a.exponent[0]) && is_digit(b.exponent[0]));
    if a.negative {
        assert(power[0] == 45);
        assert(power.skip(1) =~= a.exponent);
    }
    if b.negative {
        assert(power[0] == 45);
        assert(power.skip(1) =~= b.exponent);
    }
}

/// What follows the whole digits begins with something else.
proof fn lemma_starts(n: Notation)
    ensures
        n.tail().len() > 0,
        n.tail()[0] == (if n.fraction.len() > 0 {
            46u8
        } else {
            101u8
        }),
{
}

/// `i` ends the digits that `t` begins with.
spec fn ends_whole(t: Seq<u8>, i: int) -> bool {
    &&& 0 <= i <= t.len()
    &&& all_digits(t.take(i))
    &&& i < t.len() ==> !is_digit(t[i])
}

/// The digits from `f` to `j` follow a point at `i`, if there is one.
spec fn ends_fraction(t: Seq<u8>, i: int, f: int, j: int) -> bool {
    &&& ends_whole(t, i)
    &&& i < t.len()
    &&& if t[i] == 46 {
        &&& f == i + 1
        &&& f <= j <= t.len()
        &&& all_digits(t.subrange(f, j))
        &&& j < t.len() ==> !is_digit(t[j])
    } else {
        f == i && j == i
    }
}

proof fn lemma_whole(t: Seq<u8>, i: int, n: Notation)
    requires
        ends_whole(t, i),
        reads(t, n),
    ensures
        n.whole == t.take(i),
        n.tail() == t.skip(i),
        0 < i < t.len(),
        t[i] == (if n.fraction.len() > 0 {
            46u8
        } else {
            101u8
        }),
{
    lemma_starts(n);
    lemma_run(n.whole, n.tail(), t, i);
    assert(n.tail()[0] == t[i]);
}

proof fn lemma_fraction(t: Seq<u8>, i: int, f: int, j: int, n: Notation)
    requires
        ends_fraction(t, i, f, j),
        reads(t, n),
    ensures
        n.fraction == t.subrange(f, j),
        t[i] == 46 ==> f < j,
        j < t.len(),
        t[j] == 101,
        n.power_text() == t.skip(j + 1),
{
    lemma_whole(t, i, n);
    let x = seq![101u8] + n.power_text();
    if n.fraction.len() > 0 {
        let rest = t.skip(f);
        assert(n.fraction + x =~= n.tail().skip(1));
        assert(n.tail().skip(1) =~= rest);
        assert(rest.take(j - f) =~= t.subrange(f, j));
        assert(j < t.len() ==> rest[j - f] == t[j]);
        lemma_run(n.fraction, x, rest, j - f);
        assert(rest.skip(j - f) =~= t.skip(j));
    } else {
        assert(n.fraction =~= t.subrange(f, j));
    }
    assert(x == t.skip(j));
    assert(x[0] == 101);
    assert(t.skip(j)[0] == t[j]);
    assert(x.skip(1) =~= n.power_text());
    assert(t.skip(j).skip(1) =~= t.skip(j + 1));
}

proof fn lemma_exponent(t: Seq<u8>, i: int, f: int, j: int, e: int, n: Notation)
    requires
        ends_fraction(t, i, f, j),
        reads(t, n),
        e == (if j + 1 < t.len() && t[j + 1] == 45 {
            j + 2
        } else {
            j + 1
        }),
    ensures
        e < t.len(),
        all_digits(t.skip(e)),
{
    lemma_fraction(t, i, f, j, n);
    let power = t.skip(j + 1);
    assert(power.len() > 0);
    assert(power[0] == t[j + 1]);
    if n.negative {
        assert(power.skip(1) =~= n.exponent);
        assert(power.skip(1) =~= t.skip(j + 2));
    } else {
        assert(is_digit(n.exponent[0]));
    }
}

/// Parts that fit together are a way to read the text.
proof fn lemma_reads(t: Seq<u8>, i: int, f: int, j: int, e: int)
    requires
        ends_fraction(t, i, f, j),
        0 < i,
        t[i] == 46 ==> f < j,
        j < t.len(),
        t[j] == 101,
        e == j + 1 || (e == j + 2 && j + 1 < t.len() && t[j + 1] == 45),
        e < t.len(),
        all_digits(t.skip(e)),
    ensures
        reads(
            t,
            (Notation {
                whole: t.take(i),
                fraction: t.subrange(f, j),
                negative: e == j + 2,
                exponent: t.skip(e),
            }),
        ),
{
    let fraction = t.subrange(f, j);
    let n = Notation { whole: t.take(i), fraction, negative: e == j + 2, exponent: t.skip(e) };
    assert(n.power_text() =~= t.skip(j + 1));
    assert(seq![101u8] + n.power_text() =~= t.skip(j));
    if fraction.len() > 0 {
        assert(fraction + t.skip(j) =~= t.skip(f));
        assert(seq![46u8] + t.skip(f) =~= t.skip(i));
    }
    assert(n.tail() =~= t.skip(i));
    assert(n.text() =~= t);
}

/// The parts of a text in scientific notation: the end of the whole digits, the
/// begin and end of the fraction, and the begin of the exponent's digits.
fn split(text: &[u8]) -> (r: Option<(usize, usize, usize, usize)>)
    ensures
        match r {
            Some((i, f, j, e)) => {
                &&& i <= f <= j < e <= text@.len()
                &&& e == j + 1 || e == j + 2
                &&& reads(
                    text@,
                    (Notation {
                        whole: text@.take(i as int),
                        fraction: text@.subrange(f as int, j as int),
                        negative: e == j + 2,
                        exponent: text@.skip(e as int),
                    }),
                )
            },
            None => forall|n: Notation| !#[trigger] reads(text@, n),
        },
{
    let len: usize = text.len();
    let ghost t = text@;
    let i: usize = digits_end(text, 0);
    assert(t.subrange(0, i as int) =~= t.take(i as int));
    if i == 0 || i >= len {
        assert forall|n: Notation| !#[trigger] reads(t, n) by {
            if reads(t, n) {
                lemma_whole(t, i as int, n);
            }
        }
        return None;
    }
    let point: bool = text[i] == 46;
    let f: usize = if point {
        i + 1
    } else {
        i
    };
    let j: usize = if point {
        digits_end(text, f)
    } else {
        i
    };
    assert(ends_fraction(t, i as int, f as int, j as int));
    if (point && j == f) || j >= len || text[j] != 101 {
        assert forall|n: Notation| !#[trigger] reads(t, n) by {
            if reads(t, n) {
                lemma_fraction(t, i as int, f as int, j as int, n);
            }
        }
        return None;
    }
    let e: usize = if j + 1 < len && text[j + 1] == 45 {
        j + 2
    } else {
        j + 1
    };
    let end: usize = digits_end(text, e);
    if e >= len || end < len {
        assert forall|n: Notation| !#[trigger] reads(t, n) by {
            if reads(t, n) {
                lemma_exponent(t, i as int, f as int, j as int, e as int, n);
                if end < len {
                    assert(t.skip(e as int)[end - e] == t[end as int]);
                }
            }
        }
        return None;
    }
    proof {
        assert(t.skip(e as int) =~= t.subrange(e as int, end as int));
        lemma_reads(t, i as int, f as int, j as int, e as int);
    }
    Some((i, f, j, e))
}

fn append(to: &mut Vec<u8>, text: &[u8], from: usize, end: usize)
    requires
        from <= end <= text@.len(),
    ensures
        final(to)@ == old(to)@ + text@.subrange(from as int, end as int),
{
    let mut i: usize = from;
    while i < end
        invariant
            from <= i <= end <= text@.len(),
            to@ == old(to)@ + text@.subrange(from as int, i as int),
        decreases end - i,
    {
        to.push(text[i]);
        i = i + 1;
        assert(to@ =~= old(to)@ + text@.subrange(from as int, i as int));
    }
}

/// Reads a setting between zero and one that is written in scientific notation.
pub fn parse_setting(text: &[u8]) -> (r: Option<Decimal>)
    ensures
        match r {
            Some(d) => exists|n: Notation| #[trigger]
                reads(text@, n) && n.is_setting() && d.in_unit() && d.value() == scientific(
                    n.digits() as u64,
                    n.power(),
                ),
            None => forall|n: Notation| #[trigger] reads(text@, n) ==> !n.is_setting(),
        },
{
    let (i, f, j, e) = match split(text) {
        Some(parts) => parts,
        None => {
            return None;
        },
    };
    let ghost t = text@;
    let ghost n = Notation {
        whole: t.take(i as int),
        fraction: t.subrange(f as int, j as int),
        negative: e == j + 2,
        exponent: t.skip(e as int),
    };
    assert forall|other: Notation| #[trigger] reads(t, other) implies other == n by {
        lemma_unique(t, other, n);
    }
    let mut digits: Vec<u8> = Vec::new();
    append(&mut digits, text, 0, i);
    append(&mut digits, text, f, j);
    let mut exponent: Vec<u8> = Vec::new();
    append(&mut exponent, text, e, text.len());
    proof {
        assert(exponent@ =~= n.exponent);
        assert(digits@ =~= n.whole + n.fraction);
        assert forall|k: int| 0 <= k < digits@.len() implies is_digit(#[trigger] digits@[k]) by {
            if k < i {
                assert(is_digit(n.whole[k]));
            } else {
                assert(is_digit(n.fraction[k - i]));
            }
        }
    }
    match (read_digits(digits.as_slice()), read_digits(exponent.as_slice())) {
        (Some(value), Some(power)) => {
            if power > MAX_EXPONENT || (j - f) as u64 > MAX_EXPONENT {
                return None;
            }
            let signed: i32 = if e == j + 2 {
                -(power as i32)
            } else {
                power as i32
            };
            Decimal::from_scientific(value, signed - (j - f) as i32)
        },
        _ => None,
    }
}

/// What is read is what stands in the text: the whole digits, a point and the
/// fraction where there is one, the letter, a minus sign where the exponent is
/// negative, and its digits.
pub proof fn law_reading_follows_the_text(text: Seq<u8>, n: Notation)
    requires
        reads(text, n),
    ensures
        n.fraction.len() > 0 && n.negative ==> text == n.whole + seq![46u8] + n.fraction + seq![
            101u8,
            45u8,
        ] + n.exponent,
        n.fraction.len() > 0 && !n.negative ==> text == n.whole + seq![46u8] + n.fraction + seq![
            101u8,
        ] + n.exponent,
        n.fraction.len() == 0 && n.negative ==> text == n.whole + seq![101u8, 45u8] + n.exponent,
        n.fraction.len() == 0 && !n.negative ==> text == n.whole + seq![101u8] + n.exponent,
        forall|i: int| 0 <= i < n.whole.len() ==> 48 <= #[trigger] n.whole[i] <= 57,
        forall|i: int| 0 <= i < n.fraction.len() ==> 48 <= #[trigger] n.fraction[i] <= 57,
        forall|i: int| 0 <= i < n.exponent.len() ==> 48 <= #[trigger] n.exponent[i] <= 57,
        n.digits() == digits_value(n.whole + n.fraction),
        n.negative ==> n.power() + n.fraction.len() + digits_value(n.exponent) == 0,
        !n.negative ==> n.power() + n.fraction.len() == digits_value(n.exponent),
{
    assert forall|i: int| 0 <= i < n.whole.len() implies 48 <= #[trigger] n.whole[i] <= 57 by {
        assert(is_digit(n.whole[i]));
    }
    assert forall|i: int| 0 <= i < n.fraction.len() implies 48 <= #[trigger] n.fraction[i] <= 57 by {
        assert(is_digit(n.fraction[i]));
    }
    assert forall|i: int| 0 <= i < n.exponent.len() implies 48 <= #[trigger] n.exponent[i] <= 57 by {
        assert(is_digit(n.exponent[i]));
    }
    if n.fraction.len() > 0 {
        if n.negative {
            assert(text =~= n.whole + seq![46u8] + n.fraction + seq![101u8, 45u8] + n.exponent);
        } else {
            assert(text =~= n.whole + seq![46u8] + n.fraction + seq![101u8] + n.exponent);
        }
    } else if n.negative {
        assert(text =~= n.whole + seq![101u8, 45u8] + n.exponent);
    } else {
        assert(text =~= n.whole + seq![101u8] + n.exponent);
    }
}

/// A digit put behind others multiplies them by ten and adds itself, and a number in
/// scientific notation is its digits times the power of ten.
pub proof fn law_digits_are_decimal(s: Seq<u8>, c: u8, digits: u64, exponent: nat)
    requires
        48 <= c <= 57,
    ensures
        digits_value(Seq::empty()) == 0,
        digits_value(s.push(c)) == 10 * digits_value(s) + (c - 48),
        scientific(digits, exponent as int) == (digits * crate::natural::ten_to(exponent)) as real,
        exponent > 0 ==> scientific(digits, -(exponent as int)) * (crate::natural::ten_to(
            exponent,
        ) as real) == digits as real,
{
    assert(s.push(c).drop_last() =~= s);
    crate::natural::lemma_ten_to_positive(exponent);
    crate::fraction::lemma_give_back(
        digits as real,
        crate::natural::ten_to(exponent) as real,
    );
}

} // verus!
