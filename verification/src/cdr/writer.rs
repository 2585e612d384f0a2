//! Writing CDR bodies.
use super::layout::{digits, low32, padded, padding, put, put_word, Field};
use super::reader::{lemma_padding, F32, F64};
use vstd::prelude::*;
use vstd::utf8::encode_utf8;

verus! {

/// Builds a little-endian CDR body, padding each primitive to its own size.
///
/// Alignment is measured from the start of the body, so the 4-byte encapsulation header is only
/// prepended by `finish`.
pub struct Writer {
    pub body: Vec<u8>,
}

impl Default for Writer {
    fn default() -> (writer: Self)
        ensures
            writer.body@ == Seq::<u8>::empty(),
    {
        Writer { body: Vec::new() }
    }
}

/// The encapsulation header for a little-endian body: the second byte's low bit is the endianness
/// flag.
pub open spec fn header_le() -> Seq<u8> {
    seq![0u8, 1u8, 0u8, 0u8]
}

impl Writer {
    /// Adds zeros up to the next multiple of `alignment`.
    pub fn align(&mut self, alignment: usize)
        requires
            alignment > 0,
        ensures
            final(self).body@ == padded(old(self).body@, alignment as nat),
    {
        let excess: usize = self.body.len() % alignment;
        proof {
            lemma_padding(self.body@.len(), alignment as nat);
        }
        if excess > 0 {
            let missing: usize = alignment - excess;
            let mut added: usize = 0;
            while added < missing
                invariant
                    added <= missing,
                    missing == padding(old(self).body@.len(), alignment as nat),
                    self.body@ == old(self).body@ + Seq::new(added as nat, |i: int| 0u8),
                decreases missing - added,
            {
                self.body.push(0);
                added = added + 1;
                assert(self.body@ =~= old(self).body@ + Seq::new(added as nat, |i: int| 0u8));
            }
        }
        assert(self.body@ =~= padded(old(self).body@, alignment as nat));
    }

    pub fn u8(&mut self, value: u8) -> (r: &mut Self)
        ensures
            r.body@ == put(old(self).body@, Field::U8(value)),
            *final(self) == *final(r),
    {
        self.body.push(value);
        self
    }

    pub fn bool(&mut self, value: bool) -> (r: &mut Self)
        ensures
            r.body@ == put(old(self).body@, Field::Bool(value)),
            *final(self) == *final(r),
    {
        self.body.push(if value {
            1
        } else {
            0
        });
        self
    }

    pub fn u32(&mut self, value: u32) -> (r: &mut Self)
        ensures
            r.body@ == put_word(old(self).body@, value as nat),
            *final(self) == *final(r),
    {
        self.align(4);
        push_digits(&mut self.body, value as u64, 4);
        self
    }

    pub fn i32(&mut self, value: i32) -> (r: &mut Self)
        ensures
            r.body@ == put(old(self).body@, Field::I32(value)),
            *final(self) == *final(r),
    {
        self.u32(value as u32)
    }

    pub fn float(&mut self, value: F32) -> (r: &mut Self)
        ensures
            r.body@ == put(old(self).body@, Field::F32(value.bits)),
            *final(self) == *final(r),
    {
        self.u32(value.bits)
    }

    pub fn double(&mut self, value: F64) -> (r: &mut Self)
        ensures
            r.body@ == put(old(self).body@, Field::F64(value.bits)),
            *final(self) == *final(r),
    {
        self.align(8);
        push_digits(&mut self.body, value.bits, 8);
        self
    }

    /// Length-prefixed and null-terminated; the length counts the null.
    pub fn string(&mut self, value: &str) -> (r: &mut Self)
        requires
            low32(encode_utf8(value@).len()) < 0xffff_ffff,
        ensures
            r.body@ == put(old(self).body@, Field::Text(value@)),
            *final(self) == *final(r),
    {
        let bytes: &[u8] = value.as_bytes();
        let length: u32 = (bytes.len() as u64 % 0x1_0000_0000) as u32;
        self.u32(length + 1);
        push_all(&mut self.body, bytes);
        self.body.push(0);
        self
    }

    pub fn bytes(&mut self, value: &[u8]) -> (r: &mut Self)
        ensures
            r.body@ == put(old(self).body@, Field::Bytes(value@)),
            *final(self) == *final(r),
    {
        self.count(value.len());
        push_all(&mut self.body, value);
        self
    }

    /// A count or a length: its lowest 32 bits.
    pub fn count(&mut self, value: usize) -> (r: &mut Self)
        ensures
            r.body@ == put_word(old(self).body@, low32(value as nat)),
            *final(self) == *final(r),
    {
        self.u32((value as u64 % 0x1_0000_0000) as u32)
    }

    /// The payload: the encapsulation header, then the body.
    pub fn finish(&self) -> (payload: Vec<u8>)
        ensures
            payload@ == header_le() + self.body@,
    {
        let mut payload: Vec<u8> = vec![0, 1, 0, 0];
        assert(payload@ =~= header_le());
        push_all(&mut payload, self.body.as_slice());
        payload
    }
}

fn push_all(out: &mut Vec<u8>, bytes: &[u8])
    ensures
        final(out)@ == old(out)@ + bytes@,
{
    out.extend_from_slice(bytes);
    assert(out@ =~= old(out)@ + bytes@);
}

fn push_digits(out: &mut Vec<u8>, value: u64, width: usize)
    ensures
        final(out)@ == old(out)@ + digits(value as nat, width as nat),
{
    let mut rest: u64 = value;
    let mut left: usize = width;
    while left > 0
        invariant
            left <= width,
            out@ + digits(rest as nat, left as nat) == old(out)@ + digits(value as nat, width as nat),
        decreases left,
    {
        let ghost before = out@;
        out.push((rest % 256) as u8);
        assert(out@ + digits((rest / 256) as nat, (left - 1) as nat) =~= before + digits(
            rest as nat,
            left as nat,
        ));
        rest = rest / 256;
        left = left - 1;
    }
    assert(out@ =~= out@ + digits(rest as nat, 0));
}

} // verus!
