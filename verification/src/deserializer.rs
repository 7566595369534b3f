//! The byte cursor with a length budget: every read first reserves its byte
//! cost against the record's declared length, so over-reads are caught
//! independently of the source's own end.

use vstd::prelude::*;
use vstd::utf8::{decode_utf8, valid_utf8};
use crate::wire::{le_dec, pow256};
use crate::wire::{lemma_le_dec_bound, lemma_pow256_pos};

verus! {

/// Everything that can go wrong while decoding a record or walking a container.
#[derive(Clone, Copy, PartialEq, Eq, Structural, Debug)]
pub enum Error {
    /// A field would read past the record's declared length.
    BudgetExceeded,
    /// The byte source could not supply bytes the budget had already approved.
    IoError,
    /// A string field held bytes that are not valid UTF-8.
    EncodingError,
    /// The decode consumed fewer bytes than the record declared.
    SchemaMismatch,
    /// The shape asks for a field kind the decoder does not implement.
    UnsupportedShape,
    /// The container adapter could not open or walk the container.
    ContainerOpenError,
}

/// A sequential byte source together with the number of bytes the current
/// record is still allowed to consume.
pub struct Deserializer {
    bytes: Vec<u8>,
    pos: usize,
    length: u32,
}

impl Deserializer {
    /// The whole underlying byte source.
    pub closed spec fn source(self) -> Seq<u8> {
        self.bytes@
    }

    /// How many bytes of the source have been consumed so far.
    pub closed spec fn position(self) -> int {
        self.pos as int
    }

    /// How many bytes the current record may still consume.
    pub closed spec fn budget(self) -> int {
        self.length as int
    }

    pub open spec fn wf(self) -> bool {
        0 <= self.position() <= self.source().len() && 0 <= self.budget() <= u32::MAX as int
    }

    /// The bytes not yet consumed.
    pub open spec fn rest(self) -> Seq<u8> {
        self.source().skip(self.position())
    }

    pub fn new(bytes: Vec<u8>, expected_length: u32) -> (d: Deserializer)
        ensures
            d.wf(),
            d.source() == bytes@,
            d.position() == 0,
            d.budget() == expected_length as int,
    {
        Deserializer { bytes, pos: 0, length: expected_length }
    }

    /// Hands the byte source back.
    pub fn into_inner(self) -> (r: Vec<u8>)
        ensures
            r@ == self.source(),
    {
        self.bytes
    }

    /// True exactly when the budget is used up: after a top-level decode this
    /// must hold, or the shape consumed fewer bytes than the record declared.
    pub fn is_fully_read(&self) -> (b: bool)
        ensures
            b == (self.budget() == 0),
    {
        self.length == 0
    }

    /// Deducts `size` bytes from the budget, or refuses without deducting
    /// anything when fewer than `size` bytes are left.
    pub fn reserve_bytes(&mut self, size: u32) -> (r: Result<(), Error>)
        ensures
            final(self).source() == old(self).source(),
            final(self).position() == old(self).position(),
            r is Ok <==> size as int <= old(self).budget(),
            r is Ok ==> final(self).budget() == old(self).budget() - size as int,
            r is Err ==> *final(self) == *old(self) && r == Err::<(), Error>(
                Error::BudgetExceeded,
            ),
    {
        if size > self.length {
            return Err(Error::BudgetExceeded);
        }
        self.length = self.length - size;
        Ok(())
    }

    /// Reserves and reads the next `n` bytes as a little-endian integer.
    /// On `BudgetExceeded` nothing changes; on `IoError` the budget was
    /// already deducted but no bytes were consumed.
    pub fn read_le(&mut self, n: u32) -> (r: Result<u64, Error>)
        requires
            old(self).wf(),
            n <= 8,
        ensures
            final(self).wf(),
            final(self).source() == old(self).source(),
            r is Ok <==> n as int <= old(self).budget() && n as int <= old(self).rest().len(),
            r is Ok ==> final(self).position() == old(self).position() + n as int
                && final(self).budget() == old(self).budget() - n as int
                && r.unwrap() as int == le_dec(old(self).rest().take(n as int)),
            r == Err::<u64, Error>(Error::BudgetExceeded) <==> n as int > old(self).budget(),
            r == Err::<u64, Error>(Error::BudgetExceeded) ==> *final(self) == *old(self),
            r == Err::<u64, Error>(Error::IoError) <==> n as int <= old(self).budget()
                && n as int > old(self).rest().len(),
            r == Err::<u64, Error>(Error::IoError) ==> final(self).position() == old(
                self,
            ).position() && final(self).budget() == old(self).budget() - n as int,
            old(self).budget() <= old(self).rest().len() ==> final(self).budget() <= final(self).rest().len(),
    {
        self.reserve_bytes(n)?;
        if (n as usize) > self.bytes.len() - self.pos {
            return Err(Error::IoError);
        }
        let window = Ghost(self.rest().take(n as int));
        let mut acc: u64 = 0;
        let mut i: u32 = n;
        while i > 0
            invariant
                i <= n <= 8,
                self.wf(),
                self.position() + n as int <= self.source().len(),
                self.source().len() <= usize::MAX as int,
                window@ == self.rest().take(n as int),
                window@.len() == n as int,
                acc as int == le_dec(window@.skip(i as int)),
                0 <= acc < pow256((n - i) as nat),
            decreases i,
        {
            proof {
                lemma_le_dec_bound(window@.skip(i as int));
                lemma_pow256_pos((i - 1) as nat);
                assert(pow256(7nat) == 0x100000000000000) by {
                    reveal_with_fuel(pow256, 8);
                };
                assert(pow256((n - i + 1) as nat) == 256 * pow256((n - i) as nat));
                assert(pow256((n - i) as nat) <= pow256(7nat)) by {
                    lemma_pow256_mono((n - i) as nat, 7nat);
                };
            }
            let b = self.bytes[self.pos + (i as usize) - 1];
            proof {
                assert(window@.skip(i as int - 1).drop_first() =~= window@.skip(i as int));
                assert(window@.skip(i as int - 1)[0] == window@[i as int - 1]);
                assert(window@[i as int - 1] == self.source()[self.position() + i as int - 1]);
            }
            acc = acc * 256 + (b as u64);
            i = i - 1;
        }
        proof {
            assert(window@.skip(0) =~= window@);
        }
        self.pos = self.pos + (n as usize);
        Ok(acc)
    }

    pub fn read_u8(&mut self) -> (r: Result<u8, Error>)
        requires
            old(self).wf(),
        ensures
            final(self).wf(),
            final(self).source() == old(self).source(),
            r is Ok <==> 1 <= old(self).budget() && 1 <= old(self).rest().len(),
            r is Ok ==> final(self).position() == old(self).position() + 1 && final(self).budget()
                == old(self).budget() - 1 && r.unwrap() as int == le_dec(old(self).rest().take(1)),
            r is Err ==> final(self).position() == old(self).position(),
            r == Err::<u8, Error>(Error::BudgetExceeded) <==> 1 > old(self).budget(),
            r == Err::<u8, Error>(Error::BudgetExceeded) ==> *final(self) == *old(self),
            r == Err::<u8, Error>(Error::IoError) <==> 1 <= old(self).budget() && 1 > old(
                self,
            ).rest().len(),
            old(self).budget() <= old(self).rest().len() ==> final(self).budget() <= final(self).rest().len(),
    {
        let x = self.read_le(1)?;
        proof {
            lemma_le_dec_bound(old(self).rest().take(1));
            reveal_with_fuel(pow256, 2);
        }
        Ok(x as u8)
    }

    pub fn read_i8(&mut self) -> (r: Result<i8, Error>)
        requires
            old(self).wf(),
        ensures
            final(self).wf(),
            final(self).source() == old(self).source(),
            r is Ok <==> 1 <= old(self).budget() && 1 <= old(self).rest().len(),
            r is Ok ==> final(self).position() == old(self).position() + 1 && final(self).budget()
                == old(self).budget() - 1 && (r.unwrap() as u8) as int == le_dec(
                old(self).rest().take(1),
            ),
            r is Err ==> final(self).position() == old(self).position(),
            r == Err::<i8, Error>(Error::BudgetExceeded) <==> 1 > old(self).budget(),
            r == Err::<i8, Error>(Error::BudgetExceeded) ==> *final(self) == *old(self),
            r == Err::<i8, Error>(Error::IoError) <==> 1 <= old(self).budget() && 1 > old(
                self,
            ).rest().len(),
            old(self).budget() <= old(self).rest().len() ==> final(self).budget() <= final(self).rest().len(),
    {
        let x = self.read_u8()?;
        proof {
            assert(((x as i8) as u8) == x) by (bit_vector);
        }
        Ok(#[verifier::truncate] (x as i8))
    }

    pub fn read_u16(&mut self) -> (r: Result<u16, Error>)
        requires
            old(self).wf(),
        ensures
            final(self).wf(),
            final(self).source() == old(self).source(),
            r is Ok <==> 2 <= old(self).budget() && 2 <= old(self).rest().len(),
            r is Ok ==> final(self).position() == old(self).position() + 2 && final(self).budget()
                == old(self).budget() - 2 && r.unwrap() as int == le_dec(old(self).rest().take(2)),
            r is Err ==> final(self).position() == old(self).position(),
            r == Err::<u16, Error>(Error::BudgetExceeded) <==> 2 > old(self).budget(),
            r == Err::<u16, Error>(Error::BudgetExceeded) ==> *final(self) == *old(self),
            r == Err::<u16, Error>(Error::IoError) <==> 2 <= old(self).budget() && 2 > old(
                self,
            ).rest().len(),
            old(self).budget() <= old(self).rest().len() ==> final(self).budget() <= final(self).rest().len(),
    {
        let x = self.read_le(2)?;
        proof {
            lemma_le_dec_bound(old(self).rest().take(2));
            reveal_with_fuel(pow256, 3);
        }
        Ok(x as u16)
    }

    pub fn read_i16(&mut self) -> (r: Result<i16, Error>)
        requires
            old(self).wf(),
        ensures
            final(self).wf(),
            final(self).source() == old(self).source(),
            r is Ok <==> 2 <= old(self).budget() && 2 <= old(self).rest().len(),
            r is Ok ==> final(self).position() == old(self).position() + 2 && final(self).budget()
                == old(self).budget() - 2 && (r.unwrap() as u16) as int == le_dec(
                old(self).rest().take(2),
            ),
            r is Err ==> final(self).position() == old(self).position(),
            r == Err::<i16, Error>(Error::BudgetExceeded) <==> 2 > old(self).budget(),
            r == Err::<i16, Error>(Error::BudgetExceeded) ==> *final(self) == *old(self),
            r == Err::<i16, Error>(Error::IoError) <==> 2 <= old(self).budget() && 2 > old(
                self,
            ).rest().len(),
            old(self).budget() <= old(self).rest().len() ==> final(self).budget() <= final(self).rest().len(),
    {
        let x = self.read_u16()?;
        proof {
            assert(((x as i16) as u16) == x) by (bit_vector);
        }
        Ok(#[verifier::truncate] (x as i16))
    }

    pub fn read_u32(&mut self) -> (r: Result<u32, Error>)
        requires
            old(self).wf(),
        ensures
            final(self).wf(),
            final(self).source() == old(self).source(),
            r is Ok <==> 4 <= old(self).budget() && 4 <= old(self).rest().len(),
            r is Ok ==> final(self).position() == old(self).position() + 4 && final(self).budget()
                == old(self).budget() - 4 && r.unwrap() as int == le_dec(old(self).rest().take(4)),
            r is Err ==> final(self).position() == old(self).position(),
            r == Err::<u32, Error>(Error::BudgetExceeded) <==> 4 > old(self).budget(),
            r == Err::<u32, Error>(Error::BudgetExceeded) ==> *final(self) == *old(self),
            r == Err::<u32, Error>(Error::IoError) <==> 4 <= old(self).budget() && 4 > old(
                self,
            ).rest().len(),
            old(self).budget() <= old(self).rest().len() ==> final(self).budget() <= final(self).rest().len(),
    {
        let x = self.read_le(4)?;
        proof {
            lemma_le_dec_bound(old(self).rest().take(4));
            reveal_with_fuel(pow256, 5);
        }
        Ok(x as u32)
    }

    pub fn read_i32(&mut self) -> (r: Result<i32, Error>)
        requires
            old(self).wf(),
        ensures
            final(self).wf(),
            final(self).source() == old(self).source(),
            r is Ok <==> 4 <= old(self).budget() && 4 <= old(self).rest().len(),
            r is Ok ==> final(self).position() == old(self).position() + 4 && final(self).budget()
                == old(self).budget() - 4 && (r.unwrap() as u32) as int == le_dec(
                old(self).rest().take(4),
            ),
            r is Err ==> final(self).position() == old(self).position(),
            r == Err::<i32, Error>(Error::BudgetExceeded) <==> 4 > old(self).budget(),
            r == Err::<i32, Error>(Error::BudgetExceeded) ==> *final(self) == *old(self),
            r == Err::<i32, Error>(Error::IoError) <==> 4 <= old(self).budget() && 4 > old(
                self,
            ).rest().len(),
            old(self).budget() <= old(self).rest().len() ==> final(self).budget() <= final(self).rest().len(),
    {
        let x = self.read_u32()?;
        proof {
            assert(((x as i32) as u32) == x) by (bit_vector);
        }
        Ok(#[verifier::truncate] (x as i32))
    }

    pub fn read_u64(&mut self) -> (r: Result<u64, Error>)
        requires
            old(self).wf(),
        ensures
            final(self).wf(),
            final(self).source() == old(self).source(),
            r is Ok <==> 8 <= old(self).budget() && 8 <= old(self).rest().len(),
            r is Ok ==> final(self).position() == old(self).position() + 8 && final(self).budget()
                == old(self).budget() - 8 && r.unwrap() as int == le_dec(old(self).rest().take(8)),
            r is Err ==> final(self).position() == old(self).position(),
            r == Err::<u64, Error>(Error::BudgetExceeded) <==> 8 > old(self).budget(),
            r == Err::<u64, Error>(Error::BudgetExceeded) ==> *final(self) == *old(self),
            r == Err::<u64, Error>(Error::IoError) <==> 8 <= old(self).budget() && 8 > old(
                self,
            ).rest().len(),
            old(self).budget() <= old(self).rest().len() ==> final(self).budget() <= final(self).rest().len(),
    {
        self.read_le(8)
    }

    pub fn read_i64(&mut self) -> (r: Result<i64, Error>)
        requires
            old(self).wf(),
        ensures
            final(self).wf(),
            final(self).source() == old(self).source(),
            r is Ok <==> 8 <= old(self).budget() && 8 <= old(self).rest().len(),
            r is Ok ==> final(self).position() == old(self).position() + 8 && final(self).budget()
                == old(self).budget() - 8 && (r.unwrap() as u64) as int == le_dec(
                old(self).rest().take(8),
            ),
            r is Err ==> final(self).position() == old(self).position(),
            r == Err::<i64, Error>(Error::BudgetExceeded) <==> 8 > old(self).budget(),
            r == Err::<i64, Error>(Error::BudgetExceeded) ==> *final(self) == *old(self),
            r == Err::<i64, Error>(Error::IoError) <==> 8 <= old(self).budget() && 8 > old(
                self,
            ).rest().len(),
            old(self).budget() <= old(self).rest().len() ==> final(self).budget() <= final(self).rest().len(),
    {
        let x = self.read_le(8)?;
        proof {
            assert(((x as i64) as u64) == x) by (bit_vector);
        }
        Ok(#[verifier::truncate] (x as i64))
    }

    /// Reads the 4-byte little-endian count that prefixes a string or sequence.
    pub fn pop_length(&mut self) -> (r: Result<u32, Error>)
        requires
            old(self).wf(),
        ensures
            final(self).wf(),
            final(self).source() == old(self).source(),
            r is Ok <==> 4 <= old(self).budget() && 4 <= old(self).rest().len(),
            r is Ok ==> final(self).position() == old(self).position() + 4 && final(self).budget()
                == old(self).budget() - 4 && r.unwrap() as int == le_dec(old(self).rest().take(4)),
            r is Err ==> final(self).position() == old(self).position(),
            r == Err::<u32, Error>(Error::BudgetExceeded) <==> 4 > old(self).budget(),
            r == Err::<u32, Error>(Error::BudgetExceeded) ==> *final(self) == *old(self),
            r == Err::<u32, Error>(Error::IoError) <==> 4 <= old(self).budget() && 4 > old(
                self,
            ).rest().len(),
            old(self).budget() <= old(self).rest().len() ==> final(self).budget() <= final(self).rest().len(),
    {
        self.read_u32()
    }

    /// Reads a length-prefixed UTF-8 string: a 4-byte count, then that many
    /// bytes, which must be valid UTF-8.
    pub fn get_string(&mut self) -> (r: Result<String, Error>)
        requires
            old(self).wf(),
        ensures
            final(self).wf(),
            final(self).source() == old(self).source(),
            r is Ok <==> ({
                let k = le_dec(old(self).rest().take(4));
                &&& 4 <= old(self).budget()
                &&& 4 <= old(self).rest().len()
                &&& k + 4 <= old(self).budget()
                &&& k + 4 <= old(self).rest().len()
                &&& valid_utf8(old(self).rest().subrange(4, 4 + k))
            }),
            r is Ok ==> ({
                let k = le_dec(old(self).rest().take(4));
                &&& final(self).position() == old(self).position() + 4 + k
                &&& final(self).budget() == old(self).budget() - 4 - k
                &&& r.unwrap()@ == decode_utf8(old(self).rest().subrange(4, 4 + k))
            }),
            r == Err::<String, Error>(Error::BudgetExceeded) <==> 4 > old(self).budget() || (4
                <= old(self).rest().len() && le_dec(old(self).rest().take(4)) + 4 > old(
                self,
            ).budget()),
            r == Err::<String, Error>(Error::IoError) <==> 4 <= old(self).budget() && (4 > old(
                self,
            ).rest().len() || (le_dec(old(self).rest().take(4)) + 4 <= old(self).budget() && le_dec(
                old(self).rest().take(4),
            ) + 4 > old(self).rest().len())),
            old(self).budget() <= old(self).rest().len() ==> final(self).budget() <= final(self).rest().len(),
            r != Err::<String, Error>(Error::SchemaMismatch),
            r == Err::<String, Error>(Error::EncodingError) <==> ({
                let k = le_dec(old(self).rest().take(4));
                &&& 4 <= old(self).budget()
                &&& 4 <= old(self).rest().len()
                &&& k + 4 <= old(self).budget()
                &&& k + 4 <= old(self).rest().len()
                &&& !valid_utf8(old(self).rest().subrange(4, 4 + k))
            }),
            r == Err::<String, Error>(Error::EncodingError) ==> ({
                let k = le_dec(old(self).rest().take(4));
                final(self).position() == old(self).position() + 4 + k && final(self).budget()
                    == old(self).budget() - 4 - k
            }),
            4 > old(self).budget() ==> *final(self) == *old(self),
            r == Err::<String, Error>(Error::BudgetExceeded) && 4 <= old(self).budget() ==> final(self).position() == old(self).position() + 4 && final(self).budget() == old(self).budget() - 4,
    {
        let ghost first = old(self).rest();
        let k = self.pop_length()?;
        self.reserve_bytes(k)?;
        if (k as usize) > self.bytes.len() - self.pos {
            return Err(Error::IoError);
        }
        let ghost start = self.position();
        let mut buf: Vec<u8> = Vec::new();
        let mut i: usize = 0;
        while i < k as usize
            invariant
                i <= k as usize,
                self.wf(),
                self.source() == old(self).source(),
                self.position() == start,
                self.budget() == old(self).budget() - 4 - k as int,
                start == old(self).position() + 4,
                start + k as int <= self.source().len(),
                self.source().len() <= usize::MAX as int,
                buf@ == self.source().subrange(start, start + i as int),
            decreases k as usize - i,
        {
            let b = self.bytes[self.pos + i];
            buf.push(b);
            proof {
                assert(buf@ =~= self.source().subrange(start, start + i as int + 1));
            }
            i = i + 1;
        }
        proof {
            assert(self.source().subrange(start, start + k as int) =~= first.subrange(
                4,
                4 + k as int,
            ));
        }
        self.pos = self.pos + (k as usize);
        match string_from_utf8(buf) {
            Some(s) => Ok(s),
            None => Err(Error::EncodingError),
        }
    }
}

/// Relies on String::from_utf8: it succeeds exactly on valid UTF-8 input and
/// returns the string those bytes encode.
#[verifier::external_body]
fn string_from_utf8(bytes: Vec<u8>) -> (r: Option<String>)
    ensures
        r is Some <==> valid_utf8(bytes@),
        r is Some ==> r.unwrap()@ == decode_utf8(bytes@),
{
    String::from_utf8(bytes).ok()
}

/// What the budget is after a run of reservation requests, each granted
/// exactly when it fits the budget of its moment and refused without any
/// deduction otherwise: the discipline `reserve_bytes` implements.
pub open spec fn budget_after(b: int, requests: Seq<int>) -> int
    decreases requests.len(),
{
    if requests.len() == 0 {
        b
    } else {
        budget_after(
            if 0 <= requests[0] <= b {
                b - requests[0]
            } else {
                b
            },
            requests.drop_first(),
        )
    }
}

/// Budget monotonicity: whatever reservations are asked of a cursor that
/// starts with budget `b`, the budget never goes below zero and never above
/// where it started, so the granted total never exceeds `b`.
pub proof fn lemma_budget_monotonic(b: int, requests: Seq<int>)
    requires
        b >= 0,
    ensures
        0 <= budget_after(b, requests) <= b,
    decreases requests.len(),
{
    if requests.len() > 0 {
        let b1 = if 0 <= requests[0] <= b {
            b - requests[0]
        } else {
            b
        };
        lemma_budget_monotonic(b1, requests.drop_first());
    }
}

/// 256^a <= 256^b when a <= b.
pub proof fn lemma_pow256_mono(a: nat, b: nat)
    requires
        a <= b,
    ensures
        pow256(a) <= pow256(b),
    decreases b,
{
    if a < b {
        lemma_pow256_mono(a, (b - 1) as nat);
        lemma_pow256_pos((b - 1) as nat);
    }
}

} // verus!
