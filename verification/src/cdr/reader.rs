//! Reading CDR bodies.
use super::layout::{
    aligned, counted_stop, lemma_capacities, lemma_number_fits, lossy_text, number, padding, read,
    read_counted, read_number, stop, without_null, word, Field, Kind,
};
use super::CdrError;
use vstd::prelude::*;
use vstd::slice::{slice_subrange, slice_to_vec};
use vstd::utf8::{decode_utf8, valid_utf8};

verus! {

/// A float, held as the 64 bits of its IEEE 754 form.
#[derive(Clone, Copy, Debug, PartialEq, Eq, Structural)]
pub struct F64 {
    pub bits: u64,
}

/// A float, held as the 32 bits of its IEEE 754 form.
#[derive(Clone, Copy, Debug, PartialEq, Eq, Structural)]
pub struct F32 {
    pub bits: u32,
}

/// `String::from_utf8_lossy`: the text that bytes spell. Valid UTF-8 comes out as it is; what
/// replaces the invalid parts of any other input is only named.
#[verifier::external_body]
fn from_utf8_lossy(bytes: &[u8]) -> (text: String)
    ensures
        text@ == (if valid_utf8(bytes@) {
            decode_utf8(bytes@)
        } else {
            lossy_text(bytes@)
        }),
{
    String::from_utf8_lossy(bytes).into_owned()
}

/// A CDR body plus the endianness its encapsulation header declared.
///
/// Primitives align to their own size relative to the start of the body, which is why the 4-byte
/// encapsulation header is stripped up front.
pub struct Reader<'a> {
    pub body: &'a [u8],
    pub position: usize,
    pub little_endian: bool,
}

/// The body of a payload: what follows the 4-byte encapsulation header.
pub open spec fn body_of(payload: Seq<u8>) -> Seq<u8> {
    payload.skip(4)
}

/// Whether the encapsulation header of a payload declares little-endian fields.
pub open spec fn declares_little_endian(payload: Seq<u8>) -> bool {
    payload[1] % 2 == 1
}

impl<'a> Reader<'a> {
    /// The field of type `kind` at the position, and where it ends.
    pub open spec fn next(&self, kind: Kind) -> Option<(Field, nat)> {
        read(self.body@, self.little_endian, self.position as nat, kind)
    }

    /// Where reading a field of type `kind` at the position stops when the body ends first.
    pub open spec fn stop(&self, kind: Kind) -> nat {
        stop(self.body@, self.little_endian, self.position as nat, kind)
    }

    /// Whether a read left the body as it was, and stands at `end`.
    pub open spec fn moved(&self, before: &Self, end: nat) -> bool {
        &&& self.body == before.body
        &&& self.little_endian == before.little_endian
        &&& self.position == end
    }

    /// Whether a read that failed left the body as it was, and stands where it stopped. Only where no
    /// index reaches that far, which takes a body as long as all of memory, it stands anywhere.
    pub open spec fn stopped(&self, before: &Self, place: nat) -> bool {
        &&& self.body == before.body
        &&& self.little_endian == before.little_endian
        &&& place <= usize::MAX ==> self.position == place
    }

    /// Strips the encapsulation header off a payload.
    pub fn new(payload: &'a [u8]) -> (r: Result<Self, CdrError>)
        ensures
            match r {
                Ok(reader) => {
                    &&& payload@.len() >= 4
                    &&& reader.body@ == body_of(payload@)
                    &&& reader.position == 0
                    &&& reader.little_endian == declares_little_endian(payload@)
                },
                Err(error) => payload@.len() < 4 && error == CdrError::HeaderTooShort,
            },
    {
        if payload.len() < 4 {
            return Err(CdrError::HeaderTooShort);
        }
        let body: &'a [u8] = slice_subrange(payload, 4, payload.len());
        assert(body@ =~= body_of(payload@));
        Ok(Reader { body, position: 0, little_endian: payload[1] % 2 == 1 })
    }

    /// The next `count` bytes behind the padding to `alignment`.
    pub fn take(&mut self, count: usize, alignment: usize) -> (r: Result<&'a [u8], CdrError>)
        requires
            alignment > 0,
        ensures
            ({
                let start = aligned(old(self).position as nat, alignment as nat);
                match r {
                    Ok(bytes) => {
                        &&& start + count <= old(self).body@.len()
                        &&& bytes@ == old(self).body@.subrange(start as int, start + count)
                        &&& final(self).moved(old(self), start + count as nat)
                    },
                    Err(error) => {
                        &&& start + count > old(self).body@.len()
                        &&& error == CdrError::EndedEarly
                        &&& final(self).stopped(old(self), start)
                    },
                }
            }),
    {
        let excess: usize = self.position % alignment;
        let skip: usize = if excess == 0 {
            0
        } else {
            alignment - excess
        };
        proof {
            lemma_padding(self.position as nat, alignment as nat);
        }
        let length: usize = self.body.len();
        let start: usize = match self.position.checked_add(skip) {
            Some(start) => start,
            None => {
                return Err(CdrError::EndedEarly);
            },
        };
        self.position = start;
        if start > length || length - start < count {
            return Err(CdrError::EndedEarly);
        }
        let end: usize = start + count;
        let bytes: &'a [u8] = slice_subrange(self.body, start, end);
        self.position = end;
        Ok(bytes)
    }

    pub fn u8(&mut self) -> (r: Result<u8, CdrError>)
        ensures
            match old(self).next(Kind::U8) {
                Some((field, end)) => {
                    &&& r matches Ok(value) && field == Field::U8(value)
                    &&& final(self).moved(old(self), end)
                },
                None => {
                    &&& r == Err::<u8, _>(CdrError::EndedEarly)
                    &&& final(self).stopped(old(self), old(self).stop(Kind::U8))
                },
            },
    {
        reveal(read);
        reveal(stop);
        proof {
            lemma_padding(self.position as nat, 1);
        }
        let bytes: &'a [u8] = self.take(1, 1)?;
        Ok(bytes[0])
    }

    pub fn bool(&mut self) -> (r: Result<bool, CdrError>)
        ensures
            match old(self).next(Kind::Bool) {
                Some((field, end)) => {
                    &&& r matches Ok(value) && field == Field::Bool(value)
                    &&& final(self).moved(old(self), end)
                },
                None => {
                    &&& r == Err::<bool, _>(CdrError::EndedEarly)
                    &&& final(self).stopped(old(self), old(self).stop(Kind::Bool))
                },
            },
    {
        reveal(read);
        reveal(stop);
        let byte: u8 = self.u8()?;
        Ok(byte != 0)
    }

    pub fn u32(&mut self) -> (r: Result<u32, CdrError>)
        ensures
            match read_number(
                old(self).body@,
                old(self).little_endian,
                old(self).position as nat,
                4,
            ) {
                Some((value, end)) => {
                    &&& r matches Ok(v) && v == value
                    &&& final(self).moved(old(self), end)
                },
                None => {
                    &&& r == Err::<u32, _>(CdrError::EndedEarly)
                    &&& final(self).stopped(old(self), aligned(old(self).position as nat, 4))
                },
            },
    {
        let bytes: &'a [u8] = self.take(4, 4)?;
        Ok(word32(bytes, self.little_endian))
    }

    pub fn i32(&mut self) -> (r: Result<i32, CdrError>)
        ensures
            match old(self).next(Kind::I32) {
                Some((field, end)) => {
                    &&& r matches Ok(value) && field == Field::I32(value)
                    &&& final(self).moved(old(self), end)
                },
                None => {
                    &&& r == Err::<i32, _>(CdrError::EndedEarly)
                    &&& final(self).stopped(old(self), old(self).stop(Kind::I32))
                },
            },
    {
        reveal(read);
        reveal(stop);
        let value: u32 = self.u32()?;
        Ok(value as i32)
    }

    pub fn float(&mut self) -> (r: Result<F32, CdrError>)
        ensures
            match old(self).next(Kind::F32) {
                Some((field, end)) => {
                    &&& r matches Ok(value) && field == Field::F32(value.bits)
                    &&& final(self).moved(old(self), end)
                },
                None => {
                    &&& r == Err::<F32, _>(CdrError::EndedEarly)
                    &&& final(self).stopped(old(self), old(self).stop(Kind::F32))
                },
            },
    {
        reveal(read);
        reveal(stop);
        let bits: u32 = self.u32()?;
        Ok(F32 { bits })
    }

    pub fn double(&mut self) -> (r: Result<F64, CdrError>)
        ensures
            match old(self).next(Kind::F64) {
                Some((field, end)) => {
                    &&& r matches Ok(value) && field == Field::F64(value.bits)
                    &&& final(self).moved(old(self), end)
                },
                None => {
                    &&& r == Err::<F64, _>(CdrError::EndedEarly)
                    &&& final(self).stopped(old(self), old(self).stop(Kind::F64))
                },
            },
    {
        reveal(read);
        reveal(stop);
        let bytes: &'a [u8] = self.take(8, 8)?;
        Ok(F64 { bits: word64(bytes, self.little_endian) })
    }

    /// Length-prefixed and null-terminated; the null is not part of the value.
    pub fn string(&mut self) -> (r: Result<String, CdrError>)
        ensures
            match old(self).next(Kind::Text) {
                Some((field, end)) => {
                    &&& r matches Ok(value) && field == Field::Text(value@)
                    &&& final(self).moved(old(self), end)
                },
                None => {
                    &&& r matches Err(error) && error == CdrError::EndedEarly
                    &&& final(self).stopped(old(self), old(self).stop(Kind::Text))
                },
            },
    {
        reveal(read);
        reveal(stop);
        let bytes: &'a [u8] = self.counted()?;
        let n: usize = bytes.len();
        if n > 0 && bytes[n - 1] == 0 {
            let text: &[u8] = slice_subrange(bytes, 0, n - 1);
            assert(text@ =~= without_null(bytes@));
            Ok(from_utf8_lossy(text))
        } else {
            Ok(from_utf8_lossy(bytes))
        }
    }

    /// A count or a length.
    pub fn count(&mut self) -> (r: Result<usize, CdrError>)
        ensures
            match read_number(
                old(self).body@,
                old(self).little_endian,
                old(self).position as nat,
                4,
            ) {
                Some((value, end)) => {
                    &&& r matches Ok(v) && v == value
                    &&& final(self).moved(old(self), end)
                },
                None => {
                    &&& r == Err::<usize, _>(CdrError::EndedEarly)
                    &&& final(self).stopped(old(self), aligned(old(self).position as nat, 4))
                },
            },
    {
        let value: u32 = self.u32()?;
        Ok(value as usize)
    }

    fn counted(&mut self) -> (r: Result<&'a [u8], CdrError>)
        ensures
            match read_counted(old(self).body@, old(self).little_endian, old(self).position as nat) {
                Some((bytes, end)) => {
                    &&& r matches Ok(b) && b@ == bytes
                    &&& final(self).moved(old(self), end)
                },
                None => {
                    &&& r matches Err(error) && error == CdrError::EndedEarly
                    &&& final(self).stopped(
                        old(self),
                        counted_stop(
                            old(self).body@,
                            old(self).little_endian,
                            old(self).position as nat,
                        ),
                    )
                },
            },
    {
        let length: usize = self.count()?;
        proof {
            lemma_padding(self.position as nat, 1);
        }
        self.take(length, 1)
    }

    pub fn bytes(&mut self) -> (r: Result<Vec<u8>, CdrError>)
        ensures
            match old(self).next(Kind::Bytes) {
                Some((field, end)) => {
                    &&& r matches Ok(value) && field == Field::Bytes(value@)
                    &&& final(self).moved(old(self), end)
                },
                None => {
                    &&& r matches Err(error) && error == CdrError::EndedEarly
                    &&& final(self).stopped(old(self), old(self).stop(Kind::Bytes))
                },
            },
    {
        reveal(read);
        reveal(stop);
        let bytes: &'a [u8] = self.counted()?;
        Ok(slice_to_vec(bytes))
    }
}

/// `padding` is what brings a position to the next multiple.
pub proof fn lemma_padding(position: nat, alignment: nat)
    requires
        alignment > 0,
    ensures
        padding(position, alignment) == (if position % alignment == 0 {
            0
        } else {
            (alignment - position % alignment) as nat
        }),
{
    let excess = position % alignment;
    vstd::arithmetic::div_mod::lemma_mod_bound(position as int, alignment as int);
    if excess == 0 {
        vstd::arithmetic::div_mod::lemma_mod_self_0(alignment as int);
    } else {
        vstd::arithmetic::div_mod::lemma_small_mod((alignment - excess) as nat, alignment);
    }
}

pub fn word32(bytes: &[u8], little_endian: bool) -> (value: u32)
    requires
        bytes@.len() == 4,
    ensures
        value == word(bytes@, little_endian),
{
    let ghost ordered = if little_endian {
        bytes@
    } else {
        bytes@.reverse()
    };
    let (a, b, c, d): (u8, u8, u8, u8) = if little_endian {
        (bytes[0], bytes[1], bytes[2], bytes[3])
    } else {
        (bytes[3], bytes[2], bytes[1], bytes[0])
    };
    proof {
        lemma_spell4(ordered);
    }
    a as u32 + 256 * b as u32 + 65536 * c as u32 + 16777216 * d as u32
}

pub proof fn lemma_spell4(bytes: Seq<u8>)
    requires
        bytes.len() == 4,
    ensures
        number(bytes) == bytes[0] + 256 * bytes[1] + 65536 * bytes[2] + 16777216 * bytes[3],
{
    reveal_with_fuel(number, 5);
}

pub fn word64(bytes: &[u8], little_endian: bool) -> (value: u64)
    requires
        bytes@.len() == 8,
    ensures
        value == word(bytes@, little_endian),
{
    let first: &[u8] = slice_subrange(bytes, 0, 4);
    let second: &[u8] = slice_subrange(bytes, 4, 8);
    let (low, high): (u32, u32) = if little_endian {
        (word32(first, true), word32(second, true))
    } else {
        (word32(second, false), word32(first, false))
    };
    proof {
        let ordered = if little_endian {
            bytes@
        } else {
            bytes@.reverse()
        };
        lemma_spell8(ordered);
        if little_endian {
            assert(first@ =~= ordered.take(4));
            assert(second@ =~= ordered.skip(4));
        } else {
            assert(second@.reverse() =~= ordered.take(4));
            assert(first@.reverse() =~= ordered.skip(4));
        }
    }
    low as u64 + 0x1_0000_0000 * high as u64
}

proof fn lemma_spell8(bytes: Seq<u8>)
    requires
        bytes.len() == 8,
    ensures
        number(bytes) == number(bytes.take(4)) + 0x1_0000_0000 * number(bytes.skip(4)),
        number(bytes.take(4)) < 0x1_0000_0000,
        number(bytes.skip(4)) < 0x1_0000_0000,
{
    lemma_capacities();
    lemma_number_fits(bytes.take(4));
    lemma_number_fits(bytes.skip(4));
    lemma_spell4(bytes.take(4));
    let a = bytes.drop_first();
    let b = a.drop_first();
    let c = b.drop_first();
    let d = c.drop_first();
    assert(d =~= bytes.skip(4));
    assert(number(bytes) == bytes[0] + 256 * number(a));
    assert(number(a) == bytes[1] + 256 * number(b));
    assert(number(b) == bytes[2] + 256 * number(c));
    assert(number(c) == bytes[3] + 256 * number(d));
}

} // verus!
