//! The text form of a metadata record: the reference time and the retry
//! count as decimal numbers with a colon between them, as in `1700000000:2`.
//!
//! A record is written in whole ticks. When one is read, the reference time
//! may carry a decimal fraction, which is dropped, and whatever follows a
//! second colon is left unread.

use vstd::prelude::*;
use crate::selection::Metadata;

verus! {

/// The byte that parts the two numbers of a record.
pub const SEPARATOR: u8 = 0x3a;

pub open spec fn is_digit(b: u8) -> bool {
    0x30 <= b <= 0x39
}

pub open spec fn all_digits(text: Seq<u8>) -> bool {
    forall|i: int| 0 <= i < text.len() ==> is_digit(#[trigger] text[i])
}

/// The number that a sequence of decimal digits writes.
pub open spec fn decimal_value(digits: Seq<u8>) -> nat
    decreases digits.len(),
{
    if digits.len() == 0 {
        0
    } else {
        decimal_value(digits.drop_last()) * 10 + (digits.last() - 0x30) as nat
    }
}

/// The decimal digits of `n`, without leading zeros.
pub open spec fn decimal_digits(n: nat) -> Seq<u8>
    decreases n,
{
    if n < 10 {
        seq![(0x30 + n) as u8]
    } else {
        decimal_digits(n / 10).push((0x30 + n % 10) as u8)
    }
}

/// `text` is a number that is at most `limit`: one digit or more, nothing
/// else.
pub open spec fn is_number(text: Seq<u8>, limit: nat) -> bool {
    text.len() >= 1 && all_digits(text) && decimal_value(text) <= limit
}

/// The byte that starts the fraction of a reference time.
pub const POINT: u8 = 0x2e;

/// The end of the run of digits that starts at `from`.
pub open spec fn digits_end(text: Seq<u8>, from: int) -> int
    decreases text.len() - from,
{
    if 0 <= from < text.len() && is_digit(text[from]) {
        digits_end(text, from + 1)
    } else {
        from
    }
}

/// The end of the reference time's whole part, which starts the text.
pub open spec fn whole_end(text: Seq<u8>) -> int {
    digits_end(text, 0)
}

/// The end of the reference time: that of its fraction where it has one.
pub open spec fn time_end(text: Seq<u8>) -> int {
    let d = whole_end(text);
    if d < text.len() && text[d] == POINT {
        digits_end(text, d + 1)
    } else {
        d
    }
}

/// The end of the retry count, which starts behind the separator.
pub open spec fn count_end(text: Seq<u8>) -> int {
    digits_end(text, time_end(text) + 1)
}

/// What `text` is a record of, or `None` where it is a record of nothing.
///
/// A record starts with the reference time: a number that fits 64 bits, with
/// or without a point and further digits behind it. The separator follows,
/// then the retry count, a number that fits 32 bits. The text ends there or
/// goes on with another separator.
pub open spec fn decoded(text: Seq<u8>) -> Option<Metadata> {
    let d = whole_end(text);
    let f = time_end(text);
    let e = count_end(text);
    let time = text.subrange(0, d);
    let count = text.subrange(f + 1, e);
    if f < text.len() && text[f] == SEPARATOR && (e == text.len() || text[e] == SEPARATOR)
        && is_number(time, u64::MAX as nat) && is_number(count, u32::MAX as nat) {
        Some(
            Metadata {
                reference_time: decimal_value(time) as u64,
                retry_count: decimal_value(count) as u32,
            },
        )
    } else {
        None
    }
}

/// The record that is written for `m`.
pub open spec fn encoded(m: Metadata) -> Seq<u8> {
    decimal_digits(m.reference_time as nat) + seq![SEPARATOR] + decimal_digits(m.retry_count as nat)
}

/// The digits written for a number are digits, and they write that number.
pub proof fn lemma_digits_write_the_number(n: nat)
    ensures
        decimal_digits(n).len() >= 1,
        all_digits(decimal_digits(n)),
        decimal_value(decimal_digits(n)) == n,
    decreases n,
{
    let d = decimal_digits(n);
    if n < 10 {
        assert(d.drop_last() =~= Seq::<u8>::empty());
        assert(decimal_value(d.drop_last()) == 0);
    } else {
        lemma_digits_write_the_number(n / 10);
        assert(d.drop_last() =~= decimal_digits(n / 10));
    }
}

/// A run of digits that starts at `from` ends at `to` where every byte
/// between them is a digit and the one at `to`, if there is one, is none.
pub proof fn lemma_digits_end(text: Seq<u8>, from: int, to: int)
    requires
        0 <= from <= to <= text.len(),
        forall|j: int| from <= j < to ==> is_digit(#[trigger] text[j]),
        to < text.len() ==> !is_digit(text[to]),
    ensures
        digits_end(text, from) == to,
    decreases to - from,
{
    if from < to {
        lemma_digits_end(text, from + 1, to);
    }
}

/// What was written is read back.
pub proof fn lemma_encoded_decodes(m: Metadata)
    ensures
        decoded(encoded(m)) == Some(m),
{
    let time = decimal_digits(m.reference_time as nat);
    let count = decimal_digits(m.retry_count as nat);
    let text = encoded(m);
    lemma_digits_write_the_number(m.reference_time as nat);
    lemma_digits_write_the_number(m.retry_count as nat);
    let k = time.len() as int;
    assert forall|j: int| 0 <= j < k implies is_digit(#[trigger] text[j]) by {
        assert(text[j] == time[j]);
    }
    assert(text[k] == SEPARATOR);
    lemma_digits_end(text, 0, k);
    assert forall|j: int| k + 1 <= j < text.len() implies is_digit(#[trigger] text[j]) by {
        assert(text[j] == count[j - k - 1]);
    }
    lemma_digits_end(text, k + 1, text.len() as int);
    assert(text.subrange(0, k) =~= time);
    assert(text.subrange(k + 1, text.len() as int) =~= count);
}

fn push_decimal(out: &mut Vec<u8>, n: u64)
    ensures
        final(out)@ == old(out)@ + decimal_digits(n as nat),
    decreases n,
{
    if n >= 10 {
        push_decimal(out, n / 10);
    }
    let digit: u8 = (n % 10) as u8;
    out.push(0x30 + digit);
    proof {
        assert(final(out)@ =~= old(out)@ + decimal_digits(n as nat));
    }
}

fn parse_decimal(text: &[u8], start: usize, end: usize, limit: u64) -> (r: Option<u64>)
    requires
        start <= end <= text.len(),
    ensures
        r is Some <==> is_number(text@.subrange(start as int, end as int), limit as nat),
        r is Some ==> r->0 == decimal_value(text@.subrange(start as int, end as int)),
{
    if start == end {
        return None;
    }
    let mut value: u64 = 0;
    let mut over = false;
    let mut i: usize = start;
    proof {
        assert(text@.subrange(start as int, start as int) =~= Seq::<u8>::empty());
    }
    while i < end
        invariant
            start <= i <= end <= text.len(),
            all_digits(text@.subrange(start as int, i as int)),
            !over ==> value == decimal_value(text@.subrange(start as int, i as int)) && value <= limit,
            over ==> decimal_value(text@.subrange(start as int, i as int)) > limit,
        decreases end - i,
    {
        let b = text[i];
        let ghost before = text@.subrange(start as int, i as int);
        let ghost after = text@.subrange(start as int, i + 1);
        proof {
            assert(after.drop_last() =~= before);
            assert(after.last() == b);
        }
        if b < 0x30 || b > 0x39 {
            proof {
                let whole = text@.subrange(start as int, end as int);
                assert(whole[i - start] == b);
            }
            return None;
        }
        let digit: u64 = (b - 0x30) as u64;
        if !over {
            if digit > limit || value > (limit - digit) / 10 {
                over = true;
            } else {
                value = value * 10 + digit;
            }
        }
        i = i + 1;
        proof {
            assert forall|j: int| 0 <= j < after.len() implies is_digit(#[trigger] after[j]) by {
                if j < before.len() {
                    assert(after[j] == before[j]);
                }
            }
        }
    }
    if over {
        None
    } else {
        Some(value)
    }
}

impl Metadata {
    /// Writes the record of this metadata.
    pub fn encode(&self) -> (text: Vec<u8>)
        ensures
            text@ == encoded(*self),
    {
        let mut text: Vec<u8> = Vec::new();
        push_decimal(&mut text, self.reference_time);
        text.push(SEPARATOR);
        push_decimal(&mut text, self.retry_count as u64);
        proof {
            assert(text@ =~= encoded(*self));
        }
        text
    }

    /// Reads a record: returns the metadata that `text` is a record of, or
    /// `None` where it is a record of none.
    pub fn decode(text: &[u8]) -> (r: Option<Metadata>)
        ensures
            r == decoded(text@),
    {
        let d = scan_digits(text, 0);
        let f = if d < text.len() && text[d] == POINT {
            scan_digits(text, d + 1)
        } else {
            d
        };
        if f >= text.len() || text[f] != SEPARATOR {
            return None;
        }
        let e = scan_digits(text, f + 1);
        if e < text.len() && text[e] != SEPARATOR {
            return None;
        }
        let time = parse_decimal(text, 0, d, u64::MAX);
        let count = parse_decimal(text, f + 1, e, 0xFFFF_FFFF);
        match (time, count) {
            (Some(reference_time), Some(retry_count)) => Some(
                Metadata { reference_time, retry_count: retry_count as u32 },
            ),
            _ => None,
        }
    }
}

fn scan_digits(text: &[u8], from: usize) -> (to: usize)
    requires
        from <= text.len(),
    ensures
        from <= to <= text.len(),
        to == digits_end(text@, from as int),
{
    let mut i: usize = from;
    while i < text.len() && text[i] >= 0x30 && text[i] <= 0x39
        invariant
            from <= i <= text.len(),
            digits_end(text@, from as int) == digits_end(text@, i as int),
        decreases text.len() - i,
    {
        i = i + 1;
    }
    i
}

} // verus!
