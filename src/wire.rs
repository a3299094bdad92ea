//! Byte-level vocabulary of the wire format: decimal numerals and the
//! encodings of replies.
use vstd::prelude::*;

verus! {

pub const CR: u8 = 13;

pub const LF: u8 = 10;

/// The two-byte line terminator.
pub open spec fn crlf() -> Seq<u8> {
    seq![CR, LF]
}

pub open spec fn is_digit(b: u8) -> bool {
    48 <= b <= 57
}

/// The canonical decimal numeral of `n`: no sign, no leading zeros.
pub open spec fn decimal(n: nat) -> Seq<u8>
    decreases n,
{
    if n < 10 {
        seq![(48 + n) as u8]
    } else {
        decimal(n / 10).push((48 + n % 10) as u8)
    }
}

/// The number that a run of decimal digits denotes.
pub open spec fn digits_value(s: Seq<u8>) -> nat
    decreases s.len(),
{
    if s.len() == 0 {
        0
    } else {
        digits_value(s.drop_last()) * 10 + (s.last() - 48) as nat
    }
}

/// Wire form of a bulk string: `$<len>\r\n<bytes>\r\n`.
pub open spec fn bulk_bytes(b: Seq<u8>) -> Seq<u8> {
    seq![36u8] + decimal(b.len()) + crlf() + b + crlf()
}

/// Wire form of a simple string: `+<text>\r\n`.
pub open spec fn simple_bytes(t: Seq<u8>) -> Seq<u8> {
    seq![43u8] + t + crlf()
}

/// Wire form of an integer: `:<number>\r\n`, with a `-` before a negative one.
pub open spec fn integer_bytes(n: int) -> Seq<u8> {
    if n < 0 {
        seq![58u8, 45u8] + decimal((-n) as nat) + crlf()
    } else {
        seq![58u8] + decimal(n as nat) + crlf()
    }
}

/// Wire form of an error reply: `-<text>\r\n`.
pub open spec fn error_bytes(t: Seq<u8>) -> Seq<u8> {
    seq![45u8] + t + crlf()
}

/// Wire form of the absent value: `$-1\r\n`.
pub open spec fn nil_bytes() -> Seq<u8> {
    seq![36u8, 45u8, 49u8, CR, LF]
}

pub proof fn lemma_decimal_shape(n: nat)
    ensures
        decimal(n).len() >= 1,
        decimal(n).len() == 1 <==> n < 10,
        forall|j: int| 0 <= j < decimal(n).len() ==> is_digit(#[trigger] decimal(n)[j]),
        decimal(n).len() > 1 ==> decimal(n)[0] != 48u8,
        digits_value(decimal(n)) == n,
    decreases n,
{
    if n < 10 {
        assert(decimal(n).drop_last() =~= Seq::<u8>::empty());
        assert(digits_value(decimal(n)) == digits_value(Seq::<u8>::empty()) * 10 + n);
    } else {
        lemma_decimal_shape(n / 10);
        let d = decimal(n / 10);
        assert(decimal(n) == d.push((48 + n % 10) as u8));
        assert(decimal(n).drop_last() =~= d);
        if d.len() == 1 {
            assert(n / 10 >= 1);
            assert(d[0] != 48u8);
        }
        assert(decimal(n)[0] == d[0]);
        assert(digits_value(decimal(n)) == digits_value(d) * 10 + n % 10);
    }
}

/// Appends the decimal numeral of `n` to `out`.
pub fn push_decimal(out: &mut Vec<u8>, n: u64)
    ensures
        final(out)@ == old(out)@ + decimal(n as nat),
    decreases n,
{
    if n >= 10 {
        push_decimal(out, n / 10);
    }
    let d: u8 = (n % 10) as u8;
    out.push(48 + d);
    assert(final(out)@ =~= old(out)@ + decimal(n as nat));
}

fn push_crlf(out: &mut Vec<u8>)
    ensures
        final(out)@ == old(out)@ + crlf(),
{
    out.push(CR);
    out.push(LF);
    assert(final(out)@ =~= old(out)@ + crlf());
}

fn push_all(out: &mut Vec<u8>, b: &[u8])
    ensures
        final(out)@ == old(out)@ + b@,
{
    let mut i: usize = 0;
    while i < b.len()
        invariant
            i <= b@.len(),
            out@ == old(out)@ + b@.subrange(0, i as int),
        decreases b@.len() - i,
    {
        out.push(b[i]);
        i = i + 1;
        assert(out@ =~= old(out)@ + b@.subrange(0, i as int));
    }
    assert(b@.subrange(0, b@.len() as int) =~= b@);
}

/// Encodes a bulk string.
pub fn encode_bulk(b: &[u8]) -> (r: Vec<u8>)
    ensures
        r@ == bulk_bytes(b@),
{
    let mut out: Vec<u8> = Vec::new();
    out.push(36);
    push_decimal(&mut out, b.len() as u64);
    push_crlf(&mut out);
    push_all(&mut out, b);
    push_crlf(&mut out);
    assert(out@ =~= bulk_bytes(b@));
    out
}

/// Encodes a simple string.
pub fn encode_simple(t: &[u8]) -> (r: Vec<u8>)
    ensures
        r@ == simple_bytes(t@),
{
    let mut out: Vec<u8> = Vec::new();
    out.push(43);
    push_all(&mut out, t);
    push_crlf(&mut out);
    assert(out@ =~= simple_bytes(t@));
    out
}

/// Encodes an integer.
pub fn encode_integer(n: i64) -> (r: Vec<u8>)
    ensures
        r@ == integer_bytes(n as int),
{
    let mut out: Vec<u8> = Vec::new();
    out.push(58);
    if n < 0 {
        out.push(45);
        let m: u64 = if n == i64::MIN {
            9223372036854775808u64
        } else {
            (-n) as u64
        };
        push_decimal(&mut out, m);
    } else {
        push_decimal(&mut out, n as u64);
    }
    push_crlf(&mut out);
    assert(out@ =~= integer_bytes(n as int));
    out
}

/// Encodes an error reply.
pub fn encode_error(t: &[u8]) -> (r: Vec<u8>)
    ensures
        r@ == error_bytes(t@),
{
    let mut out: Vec<u8> = Vec::new();
    out.push(45);
    push_all(&mut out, t);
    push_crlf(&mut out);
    assert(out@ =~= error_bytes(t@));
    out
}

/// Encodes the absent value.
pub fn encode_nil() -> (r: Vec<u8>)
    ensures
        r@ == nil_bytes(),
{
    let mut out: Vec<u8> = Vec::new();
    out.push(36);
    out.push(45);
    out.push(49);
    push_crlf(&mut out);
    assert(out@ =~= nil_bytes());
    out
}

} // verus!
