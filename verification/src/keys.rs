//! The numbers in a transcript id.
//!
//! An id such as `STRG.12.3` is read as fields parted by dots. Its second
//! field is the gene number; its second and third fields, read as the whole
//! and the fractional digits of one decimal number, are the key by which rows
//! are put in order for output.

use vstd::prelude::*;
use vstd::string::*;
use crate::model::text_bytes;

verus! {

/// The byte that parts the fields of an id.
pub const DOT: u8 = 46;

/// The greatest gene number read.
pub const GENE_LIMIT: u64 = 0xFFFF_FFFF;

/// The most fractional digits read.
pub const FRACTION_DIGITS: usize = 9;

/// The position of the first dot at or after `from`, or the length of `text`
/// where there is none.
pub open spec fn next_dot(text: Seq<u8>, from: int) -> int
    decreases text.len() - from,
{
    if from < 0 || from >= text.len() {
        text.len() as int
    } else if text[from] == DOT {
        from
    } else {
        next_dot(text, from + 1)
    }
}

/// The second field of `text`, where `text` has a dot.
pub open spec fn gene_field(text: Seq<u8>) -> Option<Seq<u8>> {
    let first = next_dot(text, 0);
    if first < text.len() {
        Some(text.subrange(first + 1, next_dot(text, first + 1)))
    } else {
        None
    }
}

/// The third field of `text`, where `text` has two dots.
pub open spec fn transcript_field(text: Seq<u8>) -> Option<Seq<u8>> {
    let first = next_dot(text, 0);
    let second = next_dot(text, first + 1);
    if second < text.len() {
        Some(text.subrange(second + 1, next_dot(text, second + 1)))
    } else {
        None
    }
}

/// `digits` is a string of one or more decimal digits.
pub open spec fn is_digits(digits: Seq<u8>) -> bool {
    digits.len() > 0 && forall|i: int| 0 <= i < digits.len() ==> 48 <= #[trigger] digits[i] <= 57
}

/// The number that a string of decimal digits stands for.
pub open spec fn decimal(digits: Seq<u8>) -> nat
    decreases digits.len(),
{
    if digits.len() == 0 {
        0
    } else {
        decimal(digits.drop_last()) * 10 + (digits.last() - 48) as nat
    }
}

/// Ten to the power `n`.
pub open spec fn pow10(n: nat) -> nat
    decreases n,
{
    if n == 0 {
        1
    } else {
        10 * pow10((n - 1) as nat)
    }
}

/// The number `digits` stands for, where it is a string of digits and the
/// number is at most `limit`.
pub open spec fn number_in(digits: Seq<u8>, limit: u64) -> Option<u64> {
    if is_digits(digits) && decimal(digits) <= limit {
        Some(decimal(digits) as u64)
    } else {
        None
    }
}

/// The gene number of an id: its second field, read as a number.
pub open spec fn gene_number(text: Seq<u8>) -> Option<u64> {
    match gene_field(text) {
        Some(field) => number_in(field, GENE_LIMIT),
        None => None,
    }
}

/// The output key of an id: its gene number followed by its third field as
/// fractional digits, scaled to a whole number. `STRG.12.3` has the key of
/// 12.3, `STRG.12.10` that of 12.10, and so the same as `STRG.12.1`.
pub open spec fn emission_key(text: Seq<u8>) -> Option<u64> {
    match (gene_number(text), transcript_field(text)) {
        (Some(gene), Some(field)) => if is_digits(field) && field.len() <= FRACTION_DIGITS {
            Some(
                (gene * pow10(FRACTION_DIGITS as nat) + decimal(field) * pow10(
                    (FRACTION_DIGITS - field.len()) as nat,
                )) as u64,
            )
        } else {
            None
        },
        _ => None,
    }
}

proof fn lemma_next_dot_is(text: Seq<u8>, from: int, at: int)
    requires
        0 <= from <= at <= text.len(),
        at < text.len() ==> text[at] == DOT,
        forall|i: int| from <= i < at ==> text[i] != DOT,
    ensures
        next_dot(text, from) == at,
    decreases at - from,
{
    if from < at {
        lemma_next_dot_is(text, from + 1, at);
    }
}

proof fn lemma_decimal_grows(digits: Seq<u8>, upto: int)
    requires
        is_digits(digits),
        0 <= upto <= digits.len(),
    ensures
        decimal(digits.take(upto)) <= decimal(digits),
    decreases digits.len() - upto,
{
    if upto < digits.len() {
        lemma_decimal_grows(digits, upto + 1);
        assert(digits.take(upto + 1).drop_last() =~= digits.take(upto));
    } else {
        assert(digits.take(upto) =~= digits);
    }
}

proof fn lemma_decimal_bound(digits: Seq<u8>)
    requires
        forall|i: int| 0 <= i < digits.len() ==> 48 <= #[trigger] digits[i] <= 57,
    ensures
        decimal(digits) < pow10(digits.len()),
    decreases digits.len(),
{
    if digits.len() > 0 {
        lemma_decimal_bound(digits.drop_last());
    }
}

proof fn lemma_pow10_values()
    ensures
        pow10(0) == 1,
        pow10(1) == 10,
        pow10(2) == 100,
        pow10(3) == 1_000,
        pow10(4) == 10_000,
        pow10(5) == 100_000,
        pow10(6) == 1_000_000,
        pow10(7) == 10_000_000,
        pow10(8) == 100_000_000,
        pow10(9) == 1_000_000_000,
{
    reveal_with_fuel(pow10, 10);
}

/// The position of the first dot at or after `from`.
fn find_dot(text: &[u8], from: usize) -> (at: usize)
    requires
        from <= text@.len(),
    ensures
        at == next_dot(text@, from as int),
        from <= at <= text@.len(),
{
    let mut at: usize = from;
    while at < text.len() && text[at] != DOT
        invariant
            from <= at <= text@.len(),
            forall|i: int| from <= i < at ==> text@[i] != DOT,
        decreases text@.len() - at,
    {
        at = at + 1;
    }
    proof {
        lemma_next_dot_is(text@, from as int, at as int);
    }
    at
}

/// The number that the bytes from `from` up to `to` stand for.
fn parse_digits(text: &[u8], from: usize, to: usize, limit: u64) -> (value: Option<u64>)
    requires
        from <= to <= text@.len(),
        limit <= GENE_LIMIT,
    ensures
        value == number_in(text@.subrange(from as int, to as int), limit),
{
    let ghost digits = text@.subrange(from as int, to as int);
    if from == to {
        return None;
    }
    let mut value: u64 = 0;
    let mut at: usize = from;
    while at < to
        invariant
            from <= at <= to <= text@.len(),
            limit <= GENE_LIMIT,
            digits == text@.subrange(from as int, to as int),
            value <= limit,
            value == decimal(digits.take(at - from)),
            forall|i: int| 0 <= i < at - from ==> 48 <= #[trigger] digits[i] <= 57,
        decreases to - at,
    {
        let byte = text[at];
        if byte < 48 || byte > 57 {
            assert(digits[at - from] == byte);
            return None;
        }
        assert(digits.take(at - from + 1).drop_last() =~= digits.take(at - from));
        let next: u64 = value * 10 + (byte - 48) as u64;
        if next > limit {
            proof {
                if is_digits(digits) {
                    lemma_decimal_grows(digits, at - from + 1);
                }
            }
            return None;
        }
        value = next;
        at = at + 1;
    }
    assert(digits.take(to - from) =~= digits);
    Some(value)
}

/// The gene number of the id `text`.
pub fn gene_number_of(text: &[u8]) -> (number: Option<u64>)
    ensures
        number == gene_number(text@),
{
    let first = find_dot(text, 0);
    if first >= text.len() {
        return None;
    }
    let second = find_dot(text, first + 1);
    parse_digits(text, first + 1, second, GENE_LIMIT)
}

/// The output key of the id `text`.
pub fn emission_key_of(text: &[u8]) -> (key: Option<u64>)
    ensures
        key == emission_key(text@),
{
    let first = find_dot(text, 0);
    if first >= text.len() {
        return None;
    }
    let second = find_dot(text, first + 1);
    let gene = parse_digits(text, first + 1, second, GENE_LIMIT);
    if second >= text.len() {
        return None;
    }
    let third = find_dot(text, second + 1);
    let ghost field = text@.subrange(second + 1, third as int);
    if third - (second + 1) > FRACTION_DIGITS {
        return None;
    }
    let fraction = parse_digits(text, second + 1, third, 999_999_999);
    proof {
        lemma_pow10_values();
        if is_digits(field) {
            lemma_decimal_bound(field);
        }
    }
    match (gene, fraction) {
        (Some(gene), Some(fraction)) => {
            let mut scaled: u64 = fraction;
            let mut digits: usize = third - (second + 1);
            proof {
                assert(fraction * pow10(0) == fraction) by (nonlinear_arith)
                    requires
                        pow10(0) == 1,
                ;
            }
            while digits < FRACTION_DIGITS
                invariant
                    digits <= FRACTION_DIGITS,
                    field.len() <= digits,
                    scaled == fraction * pow10((digits - field.len()) as nat),
                    scaled < pow10(digits as nat),
                    fraction < pow10(field.len()),
                decreases FRACTION_DIGITS - digits,
            {
                proof {
                    lemma_pow10_values();
                    assert(fraction * (10 * pow10((digits - field.len()) as nat)) == 10 * (fraction
                        * pow10((digits - field.len()) as nat))) by (nonlinear_arith);
                }
                scaled = scaled * 10;
                digits = digits + 1;
            }
            Some(gene * 1_000_000_000 + scaled)
        },
        _ => None,
    }
}

/// The gene number of an id.
pub fn gene_number_of_id(id: &String) -> (number: Option<u64>)
    ensures
        number == gene_number(text_bytes(id@)),
{
    gene_number_of(id.as_str().as_bytes())
}

/// The output key of an id.
pub fn emission_key_of_id(id: &String) -> (key: Option<u64>)
    ensures
        key == emission_key(text_bytes(id@)),
{
    emission_key_of(id.as_str().as_bytes())
}

} // verus!
