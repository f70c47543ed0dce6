//! Periods: a year and a month, written `YYYY-MM`.

use vstd::prelude::*;
use vstd::string::StringExecFns;
use vstd::string::StringSliceAdditionalSpecFns;

verus! {

/// A period: a year and a month.
#[derive(Clone, Copy, Debug, PartialEq, Eq, Structural)]
pub struct Date {
    pub year: u32,
    pub month: u32,
}

/// Whether `c` is an ASCII decimal digit.
pub open spec fn is_digit(c: u8) -> bool {
    48 <= c <= 57
}

/// The number that a run of decimal digits writes.
pub open spec fn dec_value(b: Seq<u8>) -> nat
    decreases b.len(),
{
    if b.len() == 0 {
        0
    } else {
        dec_value(b.drop_last()) * 10 + (b.last() - 48) as nat
    }
}

/// `b` without the `+` that it may start with.
pub open spec fn strip_sign(b: Seq<u8>) -> Seq<u8> {
    if b.len() > 0 && b[0] == 43 {
        b.drop_first()
    } else {
        b
    }
}

/// The number written by `b`: an optional `+`, then one or more decimal
/// digits, whose value fits in 32 bits. `None` for any other text.
pub open spec fn number_of(b: Seq<u8>) -> Option<u32> {
    let d = strip_sign(b);
    if d.len() > 0 && (forall|i: int| 0 <= i < d.len() ==> is_digit(#[trigger] d[i])) && dec_value(d)
        <= u32::MAX {
        Some(dec_value(d) as u32)
    } else {
        None
    }
}

/// The position of the first `-` at or after `from`, or the length of `b`
/// when there is none.
pub open spec fn field_end(b: Seq<u8>, from: int) -> int
    decreases b.len() - from,
{
    if from >= b.len() {
        b.len() as int
    } else if b[from] == 45 {
        from
    } else {
        field_end(b, from + 1)
    }
}

/// The period that `b` writes: the text is cut at each `-`, there are at
/// least two pieces, and the first two are numbers, the year and the month.
pub open spec fn date_of(b: Seq<u8>) -> Option<Date> {
    let e0 = field_end(b, 0);
    if e0 >= b.len() {
        None
    } else {
        let e1 = field_end(b, e0 + 1);
        match (number_of(b.subrange(0, e0)), number_of(b.subrange(e0 + 1, e1))) {
            (Some(y), Some(m)) => Some(Date { year: y, month: m }),
            _ => None,
        }
    }
}

/// The character that writes the digit `d`.
pub open spec fn digit_char(d: nat) -> char {
    if d == 0 {
        '0'
    } else if d == 1 {
        '1'
    } else if d == 2 {
        '2'
    } else if d == 3 {
        '3'
    } else if d == 4 {
        '4'
    } else if d == 5 {
        '5'
    } else if d == 6 {
        '6'
    } else if d == 7 {
        '7'
    } else if d == 8 {
        '8'
    } else {
        '9'
    }
}

/// The decimal digits of `n`, without leading zeros; `0` for zero.
pub open spec fn dec_text(n: nat) -> Seq<char>
    decreases n,
{
    if n < 10 {
        seq![digit_char(n)]
    } else {
        dec_text(n / 10).push(digit_char(n % 10))
    }
}

/// How a period is written: the year, `-`, and the month in at least two digits.
pub open spec fn date_text(d: Date) -> Seq<char> {
    dec_text(d.year as nat) + seq!['-'] + (if d.month < 10 {
        seq!['0'] + dec_text(d.month as nat)
    } else {
        dec_text(d.month as nat)
    })
}

/// Adding a digit to a run of digits does not make its value smaller.
pub proof fn lemma_dec_value_prefix(b: Seq<u8>, k: int)
    requires
        0 <= k <= b.len(),
        forall|i: int| 0 <= i < b.len() ==> is_digit(#[trigger] b[i]),
    ensures
        dec_value(b.subrange(0, k)) <= dec_value(b),
    decreases b.len() - k,
{
    if k == b.len() {
        assert(b.subrange(0, k) =~= b);
    } else {
        lemma_dec_value_prefix(b, k + 1);
        let c = b.subrange(0, k + 1);
        assert(c.drop_last() =~= b.subrange(0, k));
        assert(is_digit(b[k]));
        assert(c.last() == b[k]);
    }
}

/// The end of the field that starts at `from`.
fn find_end(b: &[u8], from: usize) -> (e: usize)
    requires
        from <= b@.len(),
    ensures
        e == field_end(b@, from as int),
        from <= e <= b@.len(),
{
    let mut e: usize = from;
    while e < b.len() && b[e] != 45
        invariant
            from <= e <= b@.len(),
            field_end(b@, e as int) == field_end(b@, from as int),
        decreases b@.len() - e,
    {
        e += 1;
    }
    e
}

/// Reads the number written in `b[from..to]`.
fn read_number(b: &[u8], from: usize, to: usize) -> (r: Option<u32>)
    requires
        from <= to <= b@.len(),
    ensures
        r == number_of(b@.subrange(from as int, to as int)),
{
    let ghost whole = b@.subrange(from as int, to as int);
    let mut i: usize = from;
    if i < to && b[i] == 43 {
        i += 1;
    }
    let start: usize = i;
    let ghost d = b@.subrange(start as int, to as int);
    proof {
        if start > from {
            assert(whole[0] == 43);
            assert(whole.drop_first() =~= d);
        } else {
            assert(whole =~= d);
            assert(whole.len() > 0 ==> whole[0] == b@[from as int]);
        }
    }
    assert(strip_sign(whole) == d);
    if start == to {
        return None;
    }
    let mut acc: u32 = 0;
    while i < to
        invariant
            start <= i <= to <= b@.len(),
            whole == b@.subrange(from as int, to as int),
            strip_sign(whole) == d,
            d == b@.subrange(start as int, to as int),
            forall|j: int| 0 <= j < i - start ==> is_digit(#[trigger] d[j]),
            acc == dec_value(d.subrange(0, i - start)),
        decreases to - i,
    {
        let c: u8 = b[i];
        if c < 48 || c > 57 {
            proof {
                assert(d[i - start] == c);
            }
            return None;
        }
        let ghost next = d.subrange(0, i - start + 1);
        proof {
            assert(next.drop_last() =~= d.subrange(0, i - start));
            assert(next.last() == c);
            assert(d[i - start] == c);
        }
        let digit: u32 = (c - 48) as u32;
        if acc > (u32::MAX - digit) / 10 {
            proof {
                assert(dec_value(next) > u32::MAX);
                if forall|j: int| 0 <= j < d.len() ==> is_digit(#[trigger] d[j]) {
                    lemma_dec_value_prefix(d, i - start + 1);
                }
            }
            return None;
        }
        acc = acc * 10 + digit;
        i += 1;
    }
    proof {
        assert(d.subrange(0, to - start) =~= d);
    }
    Some(acc)
}

/// The text of one decimal digit.
fn digit_str(d: u32) -> (r: &'static str)
    requires
        d < 10,
    ensures
        r@ == seq![digit_char(d as nat)],
{
    proof {
        reveal_strlit("0");
        reveal_strlit("1");
        reveal_strlit("2");
        reveal_strlit("3");
        reveal_strlit("4");
        reveal_strlit("5");
        reveal_strlit("6");
        reveal_strlit("7");
        reveal_strlit("8");
        reveal_strlit("9");
    }
    let r = if d == 0 {
        "0"
    } else if d == 1 {
        "1"
    } else if d == 2 {
        "2"
    } else if d == 3 {
        "3"
    } else if d == 4 {
        "4"
    } else if d == 5 {
        "5"
    } else if d == 6 {
        "6"
    } else if d == 7 {
        "7"
    } else if d == 8 {
        "8"
    } else {
        "9"
    };
    assert(r@ =~= seq![digit_char(d as nat)]);
    r
}

/// The number `n` in decimal digits.
fn dec_string(n: u32) -> (r: String)
    ensures
        r@ == dec_text(n as nat),
    decreases n,
{
    if n < 10 {
        String::from_str(digit_str(n))
    } else {
        let mut r = dec_string(n / 10);
        r.append(digit_str(n % 10));
        assert(r@ =~= dec_text(n as nat));
        r
    }
}

impl Date {
    /// Reads a period; `None` where the text does not write one.
    pub fn parse(s: &str) -> (r: Option<Date>)
        ensures
            r == date_of(s.spec_bytes()),
    {
        let b = s.as_bytes();
        let e0 = find_end(b, 0);
        if e0 >= b.len() {
            return None;
        }
        let e1 = find_end(b, e0 + 1);
        let year = read_number(b, 0, e0);
        let month = read_number(b, e0 + 1, e1);
        match (year, month) {
            (Some(y), Some(m)) => Some(Date { year: y, month: m }),
            _ => None,
        }
    }

    /// Reads a period from a text that writes one.
    pub fn from(s: &str) -> (r: Date)
        requires
            date_of(s.spec_bytes()) is Some,
        ensures
            Some(r) == date_of(s.spec_bytes()),
    {
        let b = s.as_bytes();
        let e0 = find_end(b, 0);
        assert(e0 < b.len());
        let e1 = find_end(b, e0 + 1);
        let year = read_number(b, 0, e0);
        let month = read_number(b, e0 + 1, e1);
        Date { year: year.unwrap(), month: month.unwrap() }
    }

    /// Whether this period comes strictly later than `o`.
    pub fn after(&self, o: &Date) -> (r: bool)
        ensures
            r == (self.year > o.year || (self.year == o.year && self.month > o.month)),
    {
        self.year > o.year || (self.year == o.year && self.month > o.month)
    }

    /// The period as text: the year, `-`, and the month in at least two digits.
    pub fn to_string(&self) -> (r: String)
        ensures
            r@ == date_text(*self),
    {
        let mut r = dec_string(self.year);
        proof {
            reveal_strlit("-");
            reveal_strlit("0");
        }
        r.append("-");
        assert("-"@ =~= seq!['-']);
        if self.month < 10 {
            r.append("0");
            assert("0"@ =~= seq!['0']);
        }
        let m = dec_string(self.month);
        r.append(m.as_str());
        assert(r@ =~= date_text(*self));
        r
    }
}

/// The bytes of a text of ASCII characters.
pub open spec fn ascii(s: Seq<char>) -> Seq<u8> {
    Seq::new(s.len(), |i: int| s[i] as u8)
}

/// The character of a digit is the ASCII digit.
pub proof fn lemma_digit_char(k: nat)
    requires
        k < 10,
    ensures
        digit_char(k) as u8 == 48 + k,
{
    assert('0' as u8 == 48u8);
    assert('1' as u8 == 49u8);
    assert('2' as u8 == 50u8);
    assert('3' as u8 == 51u8);
    assert('4' as u8 == 52u8);
    assert('5' as u8 == 53u8);
    assert('6' as u8 == 54u8);
    assert('7' as u8 == 55u8);
    assert('8' as u8 == 56u8);
    assert('9' as u8 == 57u8);
}

/// The digits that write a number are digits, at least one, and write that number.
pub proof fn lemma_dec_text(n: nat)
    ensures
        ascii(dec_text(n)).len() >= 1,
        forall|i: int| 0 <= i < ascii(dec_text(n)).len() ==> is_digit(#[trigger] ascii(dec_text(n))[i]),
        dec_value(ascii(dec_text(n))) == n,
    decreases n,
{
    let b = ascii(dec_text(n));
    if n < 10 {
        lemma_digit_char(n);
        assert(b =~= seq![(48 + n) as u8]);
        assert(b.drop_last() =~= Seq::<u8>::empty());
        reveal_with_fuel(dec_value, 2);
    } else {
        lemma_dec_text(n / 10);
        lemma_digit_char(n % 10);
        let front = ascii(dec_text(n / 10));
        assert(b =~= front.push((48 + n % 10) as u8));
        assert(b.drop_last() =~= front);
        assert forall|i: int| 0 <= i < b.len() implies is_digit(#[trigger] b[i]) by {
            if i < front.len() {
                assert(b[i] == front[i]);
            }
        }
    }
}

/// Where no `-` stands from `from` up to `e`, and `e` is the end of the
/// text or a `-`, the field that starts at `from` ends at `e`.
pub proof fn lemma_field_end(b: Seq<u8>, from: int, e: int)
    requires
        0 <= from <= e <= b.len(),
        forall|k: int| from <= k < e ==> b[k] != 45,
        e == b.len() || b[e] == 45,
    ensures
        field_end(b, from) == e,
    decreases e - from,
{
    if from < e {
        lemma_field_end(b, from + 1, e);
    }
}

/// A period that is written and read back is the same period.
pub proof fn law_date_text_reads_back(d: Date)
    ensures
        date_of(ascii(date_text(d))) == Some(d),
{
    let y = ascii(dec_text(d.year as nat));
    let m = ascii(dec_text(d.month as nat));
    let tail = if d.month < 10 {
        seq![48u8] + m
    } else {
        m
    };
    let b = ascii(date_text(d));
    lemma_dec_text(d.year as nat);
    lemma_dec_text(d.month as nat);
    assert('-' as u8 == 45u8);
    assert('0' as u8 == 48u8);
    assert(b =~= y + seq![45u8] + tail);
    let e0 = y.len() as int;
    assert forall|k: int| 0 <= k < e0 implies b[k] != 45 by {
        assert(b[k] == y[k]);
        assert(is_digit(y[k]));
    }
    lemma_field_end(b, 0, e0);
    assert forall|k: int| e0 + 1 <= k < b.len() implies b[k] != 45 by {
        assert(b[k] == tail[k - e0 - 1]);
        if d.month < 10 {
            if k > e0 + 1 {
                assert(tail[k - e0 - 1] == m[k - e0 - 2]);
                assert(is_digit(m[k - e0 - 2]));
            }
        } else {
            assert(is_digit(m[k - e0 - 1]));
        }
    }
    lemma_field_end(b, e0 + 1, b.len() as int);
    assert(b.subrange(0, e0) =~= y);
    assert(b.subrange(e0 + 1, b.len() as int) =~= tail);
    assert(is_digit(y[0]));
    assert(strip_sign(y) == y);
    assert(number_of(y) == Some(d.year));
    if d.month < 10 {
        lemma_digit_char(d.month as nat);
        assert(m =~= seq![(48 + d.month) as u8]);
        assert(tail =~= seq![48u8, (48 + d.month) as u8]);
        assert(tail.drop_last() =~= seq![48u8]);
        assert(seq![48u8].drop_last() =~= Seq::<u8>::empty());
        reveal_with_fuel(dec_value, 3);
        assert(dec_value(tail) == d.month);
        assert(strip_sign(tail) == tail);
        assert forall|i: int| 0 <= i < tail.len() implies is_digit(#[trigger] tail[i]) by {}
        assert(number_of(tail) == Some(d.month));
    } else {
        assert(is_digit(m[0]));
        assert(strip_sign(m) == m);
        assert(number_of(m) == Some(d.month));
    }
}

} // verus!
