//! Signed 16-bit arithmetic on machine words.

use vstd::prelude::*;

verus! {

/// The two's-complement value of a word.
pub open spec fn signed_of(v: u16) -> int {
    if v >= 0x8000 {
        v as int - 0x10000
    } else {
        v as int
    }
}

/// The word that holds `n` in two's complement, wrapping outside -32768..=32767.
pub open spec fn word_of_int(n: int) -> u16 {
    (n % 0x10000) as u16
}

/// The quotient of `a` by `b`, rounded toward zero.
pub open spec fn trunc_div(a: int, b: int) -> int
    recommends
        b != 0,
{
    if (a >= 0) == (b > 0) {
        abs(a) / abs(b)
    } else {
        -(abs(a) / abs(b))
    }
}

/// The remainder that goes with `trunc_div`: it has the sign of `a`.
pub open spec fn trunc_rem(a: int, b: int) -> int
    recommends
        b != 0,
{
    if a >= 0 {
        abs(a) % abs(b)
    } else {
        -(abs(a) % abs(b))
    }
}

pub open spec fn abs(a: int) -> int {
    if a >= 0 {
        a
    } else {
        -a
    }
}

/// Reads a word as a signed number.
pub fn to_signed(v: u16) -> (r: i16)
    ensures
        r == signed_of(v),
{
    if v >= 0x8000 {
        ((v as i32) - 0x10000) as i16
    } else {
        v as i16
    }
}

/// Stores a signed number as a word.
pub fn from_signed(n: i16) -> (r: u16)
    ensures
        signed_of(r) == n,
        r == word_of_int(n as int),
{
    if n < 0 {
        ((n as i32) + 0x10000) as u16
    } else {
        n as u16
    }
}

fn wrap(n: i32) -> (r: u16)
    requires
        -0x4000_0000 <= n <= 0x4000_0000,
    ensures
        r == word_of_int(n as int),
{
    let m: i32 = n % 0x10000;
    if m < 0 {
        (m + 0x10000) as u16
    } else {
        m as u16
    }
}

fn magnitude(n: i16) -> (r: u32)
    ensures
        r == abs(n as int),
{
    if n < 0 {
        (-(n as i32)) as u32
    } else {
        n as u32
    }
}

/// Sum of two words, wrapping.
pub fn add_words(a: u16, b: u16) -> (r: u16)
    ensures
        r == word_of_int(signed_of(a) + signed_of(b)),
        r == word_of_int(a + b),
{
    wrap(to_signed(a) as i32 + to_signed(b) as i32)
}

/// Difference of two words, wrapping.
pub fn sub_words(a: u16, b: u16) -> (r: u16)
    ensures
        r == word_of_int(signed_of(a) - signed_of(b)),
        r == word_of_int(a - b),
{
    wrap(to_signed(a) as i32 - to_signed(b) as i32)
}

/// Signed product of two words, wrapping.
pub fn mul_words(a: u16, b: u16) -> (r: u16)
    ensures
        r == word_of_int(signed_of(a) * signed_of(b)),
{
    let x: i32 = to_signed(a) as i32;
    let y: i32 = to_signed(b) as i32;
    assert(-0x4000_0000 <= x * y <= 0x4000_0000) by (nonlinear_arith)
        requires
            -0x8000 <= x <= 0x7fff,
            -0x8000 <= y <= 0x7fff,
    ;
    wrap(x * y)
}

/// Signed quotient of two words, rounded toward zero and wrapping; `None` when
/// the divisor is zero.
pub fn div_words(a: u16, b: u16) -> (r: Option<u16>)
    ensures
        r == if b == 0 {
            None
        } else {
            Some(word_of_int(trunc_div(signed_of(a), signed_of(b))))
        },
{
    if b == 0 {
        return None;
    }
    let x = to_signed(a);
    let y = to_signed(b);
    let q: u32 = magnitude(x) / magnitude(y);
    assert(q <= 0x8000);
    if (x >= 0) == (y > 0) {
        Some(wrap(q as i32))
    } else {
        Some(wrap(-(q as i32)))
    }
}

/// Signed remainder of two words, with the sign of the dividend; `None` when
/// the divisor is zero.
pub fn mod_words(a: u16, b: u16) -> (r: Option<u16>)
    ensures
        r == if b == 0 {
            None
        } else {
            Some(word_of_int(trunc_rem(signed_of(a), signed_of(b))))
        },
{
    if b == 0 {
        return None;
    }
    let x = to_signed(a);
    let y = to_signed(b);
    let m: u32 = magnitude(x) % magnitude(y);
    if x >= 0 {
        Some(wrap(m as i32))
    } else {
        Some(wrap(-(m as i32)))
    }
}

/// A word read as a signed number.
#[derive(Clone, Copy, Debug)]
pub struct ZSigned(pub u16);

impl From<u16> for ZSigned {
    fn from(o: u16) -> (r: ZSigned) {
        ZSigned(o)
    }
}

impl vstd::std_specs::convert::FromSpecImpl<u16> for ZSigned {
    open spec fn obeys_from_spec() -> bool {
        true
    }

    open spec fn from_spec(o: u16) -> ZSigned {
        ZSigned(o)
    }
}

impl ZSigned {
    /// The number that the word holds in two's complement.
    pub fn value(&self) -> (r: i16)
        ensures
            r == signed_of(self.0),
    {
        to_signed(self.0)
    }
}

} // verus!
