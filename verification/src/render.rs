//! A piece as text: its commitment in hexadecimal and its size in decimal.

use crate::types::PieceInfo;
use vstd::arithmetic::div_mod::{lemma_div_denominator, lemma_fundamental_div_mod};
use vstd::arithmetic::mul::{lemma_mul_inequality, lemma_mul_is_commutative};
use vstd::prelude::*;
use vstd::string::StringExecFns;

verus! {

/// The digits of base 16, and of base 10 before them.
pub open spec fn digits() -> Seq<char> {
    seq!['0', '1', '2', '3', '4', '5', '6', '7', '8', '9', 'a', 'b', 'c', 'd', 'e', 'f']
}

/// Two digits of base 16 for every byte, the high half of the byte first.
pub open spec fn hex_of(bytes: Seq<u8>) -> Seq<char> {
    Seq::new(
        2 * bytes.len(),
        |i: int|
            if i % 2 == 0 {
                digits()[(bytes[i / 2] >> 4) as int]
            } else {
                digits()[(bytes[i / 2] & 0x0f) as int]
            },
    )
}

/// The digits of `n` in base 10, without leading zeros.
pub open spec fn decimal_of(n: nat) -> Seq<char>
    decreases n,
{
    if n < 10 {
        seq![digits()[n as int]]
    } else {
        decimal_of(n / 10).push(digits()[(n % 10) as int])
    }
}

/// A piece as it is shown: the name of its type, its commitment in
/// hexadecimal between quotes, and its size in decimal.
pub open spec fn piece_text(commitment: Seq<u8>, size: nat) -> Seq<char> {
    "PieceInfo { commitment: \""@ + hex_of(commitment) + "\", size: UnpaddedBytesAmount("@
        + decimal_of(size) + ") }"@
}

/// Encodes `bytes` with `hex::encode`.
///
/// Trusted: the text has two lowercase digits of base 16 for every byte, in
/// the order of the bytes, the high half of each byte first.
#[verifier::external_body]
fn hex_encode(bytes: &[u8]) -> (text: String)
    ensures
        text@ == hex_of(bytes@),
{
    hex::encode(bytes)
}

/// Appends a character with `String::push`.
///
/// Trusted: the text is what it was, with `c` after it.
#[verifier::external_body]
fn push_char(text: &mut String, c: char)
    ensures
        final(text)@ == old(text)@.push(c),
{
    text.push(c)
}

/// The digit of base 10 for `value`.
fn decimal_digit(value: u8) -> (digit: char)
    requires
        value < 10,
    ensures
        digit == digits()[value as int],
{
    match value {
        0 => '0',
        1 => '1',
        2 => '2',
        3 => '3',
        4 => '4',
        5 => '5',
        6 => '6',
        7 => '7',
        8 => '8',
        _ => '9',
    }
}

/// `n` is a power of ten.
pub open spec fn is_power_of_ten(n: nat) -> bool
    decreases n,
{
    n == 1 || (n >= 10 && n % 10 == 0 && is_power_of_ten(n / 10))
}

/// How `n` compares with ten times a number that goes into it ten times,
/// and with the tenth of a multiple of ten.
proof fn lemma_tenfold(n: nat, scale: nat)
    requires
        scale >= 1,
    ensures
        n / scale >= 10 ==> 10 * scale <= n,
        scale <= n ==> n / scale >= 1,
        scale % 10 == 0 ==> (n / (scale / 10)) / 10 == n / scale,
{
    lemma_fundamental_div_mod(n as int, scale as int);
    if n / scale >= 10 {
        lemma_mul_inequality(10, (n / scale) as int, scale as int);
        lemma_mul_is_commutative(scale as int, (n / scale) as int);
    }
    if scale <= n && n / scale < 1 {
        assert(scale * (n / scale) == 0);
    }
    if scale % 10 == 0 {
        lemma_div_denominator(n as int, (scale / 10) as int, 10);
        assert((scale / 10) * 10 == scale);
    }
}

/// Appends the digits of `n` in base 10 to `text`.
fn append_decimal(text: &mut String, n: u64)
    ensures
        final(text)@ == old(text)@ + decimal_of(n as nat),
{
    let mut scale: u64 = 1;
    while n / scale >= 10
        invariant
            is_power_of_ten(scale as nat),
            scale == 1 || scale <= n,
        decreases n - scale,
    {
        proof {
            lemma_tenfold(n as nat, scale as nat);
            assert((10 * scale) / 10 == scale);
        }
        scale = scale * 10;
    }
    push_char(text, decimal_digit((n / scale) as u8));
    assert(text@ =~= old(text)@ + decimal_of((n / scale) as nat));
    while scale > 1
        invariant
            is_power_of_ten(scale as nat),
            scale == 1 || scale <= n,
            text@ == old(text)@ + decimal_of((n / scale) as nat),
        decreases scale,
    {
        let next = scale / 10;
        let value = n / next;
        proof {
            lemma_tenfold(n as nat, scale as nat);
        }
        push_char(text, decimal_digit((value % 10) as u8));
        assert(text@ =~= old(text)@ + decimal_of(value as nat));
        scale = next;
    }
}

impl PieceInfo {
    /// The commitment in hexadecimal.
    pub fn commitment_hex(&self) -> (text: String)
        ensures
            text@ == hex_of(self.commitment@),
    {
        hex_encode(self.commitment.as_slice())
    }

    /// The piece as it is shown to a reader.
    pub fn debug_string(&self) -> (text: String)
        ensures
            text@ == piece_text(self.commitment@, self.size@),
    {
        let mut text = String::from_str("PieceInfo { commitment: \"");
        let hex = self.commitment_hex();
        text.append(hex.as_str());
        text.append("\", size: UnpaddedBytesAmount(");
        append_decimal(&mut text, self.size.0);
        text.append(") }");
        text
    }
}

} // verus!
