use vstd::prelude::*;
use vstd::slice::slice_subrange;

verus! {

/// The unsigned integer that `s` encodes in little-endian order: `s[0]` is
/// the least significant byte.
pub open spec fn le_value(s: Seq<u8>) -> nat
    decreases s.len(),
{
    if s.len() == 0 {
        0
    } else {
        (s[0] + 256 * le_value(s.drop_first())) as nat
    }
}

/// `256` raised to the power `n`.
pub open spec fn pow256(n: nat) -> nat
    decreases n,
{
    if n == 0 {
        1
    } else {
        256 * pow256((n - 1) as nat)
    }
}

pub proof fn lemma_pow256_monotonic(a: nat, b: nat)
    requires
        a <= b,
    ensures
        pow256(a) <= pow256(b),
    decreases b,
{
    if a < b {
        lemma_pow256_monotonic(a, (b - 1) as nat);
    }
}

/// Seven bytes hold the values below `2^56`.
pub proof fn lemma_pow256_seven()
    ensures
        pow256(7) == 0x100_0000_0000_0000,
{
    reveal_with_fuel(pow256, 8);
}

/// A little-endian value of `n` bytes is below `256^n`.
pub proof fn lemma_le_value_bound(s: Seq<u8>)
    ensures
        le_value(s) < pow256(s.len()),
    decreases s.len(),
{
    if s.len() > 0 {
        lemma_le_value_bound(s.drop_first());
    }
}

/// The value of four little-endian bytes, written out.
pub proof fn lemma_le_value_four(s: Seq<u8>)
    requires
        s.len() == 4,
    ensures
        le_value(s) == s[0] + 256 * s[1] + 65536 * s[2] + 16777216 * s[3],
{
    let s1 = s.drop_first();
    let s2 = s1.drop_first();
    let s3 = s2.drop_first();
    let s4 = s3.drop_first();
    assert(s4.len() == 0);
    assert(le_value(s3) == s3[0] + 256 * le_value(s4));
    assert(le_value(s2) == s2[0] + 256 * le_value(s3));
    assert(le_value(s1) == s1[0] + 256 * le_value(s2));
    assert(le_value(s) == s[0] + 256 * le_value(s1));
}

/// A forward-only cursor over a borrowed byte buffer: it holds the bytes
/// that have not been consumed yet. Every read either consumes exactly the
/// bytes it returns or fails and consumes nothing.
#[derive(Clone, Copy)]
pub struct ForwardByteParser<'a>(&'a [u8]);

/// Failure of a primitive read.
#[derive(Debug, PartialEq, Eq, Structural)]
pub enum ParserError {
    /// Fewer bytes remain than the read asks for.
    NotEnoughBytes,
}

impl<'a> ForwardByteParser<'a> {
    /// The bytes not yet consumed.
    pub closed spec fn view(&self) -> Seq<u8> {
        self.0@
    }

    pub fn new(data: &'a [u8]) -> (r: Self)
        ensures
            r@ == data@,
    {
        Self(data)
    }

    /// Consumes and returns the next byte; `None` when the input is exhausted.
    pub fn u8(&mut self) -> (r: Option<u8>)
        ensures
            old(self)@.len() == 0 ==> r is None && final(self)@ == old(self)@,
            old(self)@.len() > 0 ==> r == Some(old(self)@[0]) && final(self)@ == old(
                self,
            )@.subrange(1, old(self)@.len() as int),
    {
        if self.0.len() == 0 {
            return None;
        }
        let first = self.0[0];
        self.0 = slice_subrange(self.0, 1, self.0.len());
        Some(first)
    }

    /// Return the number of bytes still unparsed
    pub fn len(&self) -> (r: usize)
        ensures
            r == self@.len(),
    {
        self.0.len()
    }

    /// Check if the input is exhausted
    pub fn is_empty(&self) -> (r: bool)
        ensures
            r == (self@.len() == 0),
    {
        self.len() == 0
    }

    /// Extract `len` bytes as a slice
    pub fn slice(&mut self, len: usize) -> (r: Option<&'a [u8]>)
        ensures
            len > old(self)@.len() ==> r is None && final(self)@ == old(self)@,
            len <= old(self)@.len() ==> (r matches Some(v) && v@ == old(self)@.subrange(0, len as int))
                && final(self)@ == old(self)@.subrange(len as int, old(self)@.len() as int),
    {
        if self.len() >= len {
            let result = slice_subrange(self.0, 0, len);
            self.0 = slice_subrange(self.0, len, self.0.len());
            return Some(result);
        }
        None
    }

    /// Consume and return a u32 in little-endian format
    pub fn le_u32(&mut self) -> (r: Result<u32, ParserError>)
        ensures
            old(self)@.len() < 4 ==> r == Err::<u32, ParserError>(ParserError::NotEnoughBytes)
                && final(self)@ == old(self)@,
            old(self)@.len() >= 4 ==> r == Ok::<u32, ParserError>(
                le_value(old(self)@.subrange(0, 4)) as u32,
            ) && final(self)@ == old(self)@.subrange(4, old(self)@.len() as int),
    {
        match self.slice(4) {
            Some(bytes) => {
                proof {
                    lemma_le_value_four(bytes@);
                }
                let value: u32 = bytes[0] as u32 + (bytes[1] as u32) * 256 + (bytes[2] as u32)
                    * 65536 + (bytes[3] as u32) * 16777216;
                Ok(value)
            },
            None => Err(ParserError::NotEnoughBytes),
        }
    }
}

} // verus!
