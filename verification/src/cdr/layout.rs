//! The CDR format: what the bytes of a message body are, given its fields.
//!
//! A message is a list of parts, each either a run of fields or a counted sequence of equal runs.
//! Every primitive is aligned to its own size, counted from the start of the body. `put_chunks`
//! says which bytes a message becomes and `read_parts` which message some bytes hold;
//! `law_written_messages_read_back` says that the second undoes the first.
use vstd::prelude::*;
use vstd::utf8::{
    decode_utf8, encode_utf8, encode_utf8_decode_utf8, encode_utf8_valid_utf8, valid_utf8,
};

verus! {

/// What `String::from_utf8_lossy` makes of bytes that are not valid UTF-8.
pub uninterp spec fn lossy_text(bytes: Seq<u8>) -> Seq<char>;

/// The type of one field.
pub enum Kind {
    U8,
    Bool,
    I32,
    F32,
    F64,
    Text,
    Bytes,
}

/// One field with its value. Floats are held as their bits.
pub enum Field {
    U8(u8),
    Bool(bool),
    I32(i32),
    F32(u32),
    F64(u64),
    Text(Seq<char>),
    Bytes(Seq<u8>),
}

/// The types of one part of a message.
pub enum Part {
    /// Fields one after the other.
    Run(Seq<Kind>),
    /// A count, then that many equal runs.
    Many(Seq<Kind>),
}

/// The values of one part of a message.
pub enum Chunk {
    Run(Seq<Field>),
    Many(Seq<Seq<Field>>),
}

// -------------------------------------------------------------------- numbers
/// The number that bytes spell, least significant first.
pub open spec fn number(bytes: Seq<u8>) -> nat
    decreases bytes.len(),
{
    if bytes.len() == 0 {
        0
    } else {
        bytes[0] as nat + 256 * number(bytes.drop_first())
    }
}

/// The lowest `width` bytes of a number, least significant first.
pub open spec fn digits(n: nat, width: nat) -> Seq<u8>
    decreases width,
{
    if width == 0 {
        Seq::empty()
    } else {
        seq![(n % 256) as u8] + digits(n / 256, (width - 1) as nat)
    }
}

/// The number that bytes spell in either byte order.
pub open spec fn word(bytes: Seq<u8>, little_endian: bool) -> nat {
    if little_endian {
        number(bytes)
    } else {
        number(bytes.reverse())
    }
}

/// How many values `width` bytes can hold.
pub open spec fn capacity(width: nat) -> nat
    decreases width,
{
    if width == 0 {
        1
    } else {
        256 * capacity((width - 1) as nat)
    }
}

/// Writing a number that fits and reading it back gives the number.
pub proof fn lemma_digits_number(n: nat, width: nat)
    requires
        n < capacity(width),
    ensures
        digits(n, width).len() == width,
        number(digits(n, width)) == n,
    decreases width,
{
    if width > 0 {
        lemma_digits_number(n / 256, (width - 1) as nat);
        assert(digits(n, width).drop_first() =~= digits(n / 256, (width - 1) as nat));
    }
}

pub proof fn lemma_digits_len(n: nat, width: nat)
    ensures
        digits(n, width).len() == width,
    decreases width,
{
    if width > 0 {
        lemma_digits_len(n / 256, (width - 1) as nat);
    }
}

/// The number that bytes spell is one that as many bytes can hold.
pub proof fn lemma_number_fits(bytes: Seq<u8>)
    ensures
        number(bytes) < capacity(bytes.len()),
    decreases bytes.len(),
{
    if bytes.len() > 0 {
        lemma_number_fits(bytes.drop_first());
    }
}

pub proof fn lemma_capacities()
    ensures
        capacity(4) == 0x1_0000_0000,
        capacity(8) == 0x1_0000_0000_0000_0000,
{
    reveal_with_fuel(capacity, 9);
}

// ------------------------------------------------------------------ alignment
/// How many bytes lie between `position` and the next multiple of `alignment`.
pub open spec fn padding(position: nat, alignment: nat) -> nat {
    ((alignment - position % alignment) % alignment as int) as nat
}

/// The first multiple of `alignment` at or after `position`.
pub open spec fn aligned(position: nat, alignment: nat) -> nat {
    position + padding(position, alignment)
}

/// A body with zeros added up to the next multiple of `alignment`.
pub open spec fn padded(body: Seq<u8>, alignment: nat) -> Seq<u8> {
    body + Seq::new(padding(body.len(), alignment), |i: int| 0u8)
}

// -------------------------------------------------------------------- writing
/// A body with a 32-bit number added.
pub open spec fn put_word(body: Seq<u8>, value: nat) -> Seq<u8> {
    padded(body, 4) + digits(value, 4)
}

/// The length a count is written as: its lowest 32 bits.
pub open spec fn low32(n: nat) -> nat {
    n % 0x1_0000_0000
}

/// A body with one field added.
pub open spec fn put(body: Seq<u8>, field: Field) -> Seq<u8> {
    match field {
        Field::U8(value) => body.push(value),
        Field::Bool(value) => body.push(if value { 1u8 } else { 0u8 }),
        Field::I32(value) => put_word(body, value as u32 as nat),
        Field::F32(bits) => put_word(body, bits as nat),
        Field::F64(bits) => padded(body, 8) + digits(bits as nat, 8),
        // Length-prefixed and null-terminated; the length counts the null.
        Field::Text(text) => {
            let bytes = encode_utf8(text);
            (put_word(body, low32(bytes.len()) + 1) + bytes).push(0u8)
        },
        Field::Bytes(bytes) => put_word(body, low32(bytes.len())) + bytes,
    }
}

/// A body with a run of fields added.
#[verifier::opaque]
pub open spec fn put_run(body: Seq<u8>, fields: Seq<Field>) -> Seq<u8>
    decreases fields.len(),
{
    if fields.len() == 0 {
        body
    } else {
        put(put_run(body, fields.drop_last()), fields.last())
    }
}

/// A body with runs added one after the other.
pub open spec fn put_items(body: Seq<u8>, items: Seq<Seq<Field>>) -> Seq<u8>
    decreases items.len(),
{
    if items.len() == 0 {
        body
    } else {
        put_run(put_items(body, items.drop_last()), items.last())
    }
}

/// A body with one part added.
pub open spec fn put_chunk(body: Seq<u8>, chunk: Chunk) -> Seq<u8> {
    match chunk {
        Chunk::Run(fields) => put_run(body, fields),
        Chunk::Many(items) => put_items(put_word(body, low32(items.len())), items),
    }
}

/// A body with the parts of a message added.
#[verifier::opaque]
pub open spec fn put_chunks(body: Seq<u8>, chunks: Seq<Chunk>) -> Seq<u8>
    decreases chunks.len(),
{
    if chunks.len() == 0 {
        body
    } else {
        put_chunk(put_chunks(body, chunks.drop_last()), chunks.last())
    }
}

// -------------------------------------------------------------------- reading
/// The bytes of a number of `width` bytes at `position`, and where they end.
pub open spec fn read_number(body: Seq<u8>, little_endian: bool, position: nat, width: nat) -> Option<
    (nat, nat),
> {
    let start = aligned(position, width);
    if start + width <= body.len() {
        Some((word(body.subrange(start as int, (start + width) as int), little_endian), start + width))
    } else {
        None
    }
}

/// The bytes behind a length, and where they end.
pub open spec fn read_counted(body: Seq<u8>, little_endian: bool, position: nat) -> Option<
    (Seq<u8>, nat),
> {
    match read_number(body, little_endian, position, 4) {
        Some((n, start)) => if start + n <= body.len() {
            Some((body.subrange(start as int, (start + n) as int), start + n))
        } else {
            None
        },
        None => None,
    }
}

/// The bytes of a string without the null that ends it.
pub open spec fn without_null(bytes: Seq<u8>) -> Seq<u8> {
    if bytes.len() > 0 && bytes.last() == 0 {
        bytes.drop_last()
    } else {
        bytes
    }
}

/// The text that bytes spell: their UTF-8 reading, or what is left of it when they are not valid.
pub open spec fn text_of(bytes: Seq<u8>) -> Seq<char> {
    if valid_utf8(bytes) {
        decode_utf8(bytes)
    } else {
        lossy_text(bytes)
    }
}

/// The field at `position`, and where it ends; `None` when the body ends first.
#[verifier::opaque]
pub open spec fn read(body: Seq<u8>, little_endian: bool, position: nat, kind: Kind) -> Option<
    (Field, nat),
> {
    match kind {
        Kind::U8 => if position < body.len() {
            Some((Field::U8(body[position as int]), position + 1))
        } else {
            None
        },
        Kind::Bool => if position < body.len() {
            Some((Field::Bool(body[position as int] != 0), position + 1))
        } else {
            None
        },
        Kind::I32 => match read_number(body, little_endian, position, 4) {
            Some((n, end)) => Some((Field::I32(n as u32 as i32), end)),
            None => None,
        },
        Kind::F32 => match read_number(body, little_endian, position, 4) {
            Some((n, end)) => Some((Field::F32(n as u32), end)),
            None => None,
        },
        Kind::F64 => match read_number(body, little_endian, position, 8) {
            Some((n, end)) => Some((Field::F64(n as u64), end)),
            None => None,
        },
        Kind::Text => match read_counted(body, little_endian, position) {
            Some((bytes, end)) => Some((Field::Text(text_of(without_null(bytes))), end)),
            None => None,
        },
        Kind::Bytes => match read_counted(body, little_endian, position) {
            Some((bytes, end)) => Some((Field::Bytes(bytes), end)),
            None => None,
        },
    }
}

/// A run of fields at `position`, and where it ends.
#[verifier::opaque]
pub open spec fn read_run(
    body: Seq<u8>,
    little_endian: bool,
    position: nat,
    kinds: Seq<Kind>,
) -> Option<(Seq<Field>, nat)>
    decreases kinds.len(),
{
    if kinds.len() == 0 {
        Some((Seq::empty(), position))
    } else {
        match read_run(body, little_endian, position, kinds.drop_last()) {
            Some((fields, middle)) => match read(body, little_endian, middle, kinds.last()) {
                Some((field, end)) => Some((fields.push(field), end)),
                None => None,
            },
            None => None,
        }
    }
}

/// `count` runs at `position`, and where they end.
#[verifier::opaque]
pub open spec fn read_items(
    body: Seq<u8>,
    little_endian: bool,
    position: nat,
    kinds: Seq<Kind>,
    count: nat,
) -> Option<(Seq<Seq<Field>>, nat)>
    decreases count,
{
    if count == 0 {
        Some((Seq::empty(), position))
    } else {
        match read_items(body, little_endian, position, kinds, (count - 1) as nat) {
            Some((items, middle)) => match read_run(body, little_endian, middle, kinds) {
                Some((item, end)) => Some((items.push(item), end)),
                None => None,
            },
            None => None,
        }
    }
}

/// One part at `position`, and where it ends.
pub open spec fn read_part(body: Seq<u8>, little_endian: bool, position: nat, part: Part) -> Option<
    (Chunk, nat),
> {
    match part {
        Part::Run(kinds) => match read_run(body, little_endian, position, kinds) {
            Some((fields, end)) => Some((Chunk::Run(fields), end)),
            None => None,
        },
        Part::Many(kinds) => match read_number(body, little_endian, position, 4) {
            Some((count, start)) => match read_items(body, little_endian, start, kinds, count) {
                Some((items, end)) => Some((Chunk::Many(items), end)),
                None => None,
            },
            None => None,
        },
    }
}

/// The parts of a message at `position`, and where they end.
#[verifier::opaque]
pub open spec fn read_parts(
    body: Seq<u8>,
    little_endian: bool,
    position: nat,
    parts: Seq<Part>,
) -> Option<(Seq<Chunk>, nat)>
    decreases parts.len(),
{
    if parts.len() == 0 {
        Some((Seq::empty(), position))
    } else {
        match read_parts(body, little_endian, position, parts.drop_last()) {
            Some((chunks, middle)) => match read_part(body, little_endian, middle, parts.last()) {
                Some((chunk, end)) => Some((chunks.push(chunk), end)),
                None => None,
            },
            None => None,
        }
    }
}

// ------------------------------------------------------------------- stopping
/// Where reading bytes behind a length stops when the body ends first: behind the padding of the length,
/// or behind the length.
pub open spec fn counted_stop(body: Seq<u8>, little_endian: bool, position: nat) -> nat {
    match read_number(body, little_endian, position, 4) {
        Some((_, start)) => start,
        None => aligned(position, 4),
    }
}

/// Where reading a field stops when the body ends first: behind its padding, and behind its length if it
/// has one that can be read.
#[verifier::opaque]
pub open spec fn stop(body: Seq<u8>, little_endian: bool, position: nat, kind: Kind) -> nat {
    match kind {
        Kind::U8 => position,
        Kind::Bool => position,
        Kind::I32 => aligned(position, 4),
        Kind::F32 => aligned(position, 4),
        Kind::F64 => aligned(position, 8),
        Kind::Text => counted_stop(body, little_endian, position),
        Kind::Bytes => counted_stop(body, little_endian, position),
    }
}

/// Where reading a run stops when the body ends first: at the first field that cannot be read.
#[verifier::opaque]
pub open spec fn run_stop(
    body: Seq<u8>,
    little_endian: bool,
    position: nat,
    kinds: Seq<Kind>,
) -> nat
    decreases kinds.len(),
{
    if kinds.len() == 0 {
        position
    } else {
        match read_run(body, little_endian, position, kinds.drop_last()) {
            Some((_, middle)) => stop(body, little_endian, middle, kinds.last()),
            None => run_stop(body, little_endian, position, kinds.drop_last()),
        }
    }
}

/// Where reading `count` runs stops when the body ends first: in the first that cannot be read.
#[verifier::opaque]
pub open spec fn items_stop(
    body: Seq<u8>,
    little_endian: bool,
    position: nat,
    kinds: Seq<Kind>,
    count: nat,
) -> nat
    decreases count,
{
    if count == 0 {
        position
    } else {
        match read_items(body, little_endian, position, kinds, (count - 1) as nat) {
            Some((_, middle)) => run_stop(body, little_endian, middle, kinds),
            None => items_stop(body, little_endian, position, kinds, (count - 1) as nat),
        }
    }
}

/// Where reading a part stops when the body ends first.
pub open spec fn part_stop(body: Seq<u8>, little_endian: bool, position: nat, part: Part) -> nat {
    match part {
        Part::Run(kinds) => run_stop(body, little_endian, position, kinds),
        Part::Many(kinds) => match read_number(body, little_endian, position, 4) {
            Some((count, start)) => items_stop(body, little_endian, start, kinds, count),
            None => aligned(position, 4),
        },
    }
}

/// Where reading the parts of a message stops when the body ends first: in the first that cannot be read.
#[verifier::opaque]
pub open spec fn parts_stop(
    body: Seq<u8>,
    little_endian: bool,
    position: nat,
    parts: Seq<Part>,
) -> nat
    decreases parts.len(),
{
    if parts.len() == 0 {
        position
    } else {
        match read_parts(body, little_endian, position, parts.drop_last()) {
            Some((_, middle)) => part_stop(body, little_endian, middle, parts.last()),
            None => parts_stop(body, little_endian, position, parts.drop_last()),
        }
    }
}

// ----------------------------------------------------------------------- laws
/// The type of a field.
pub open spec fn kind_of(field: Field) -> Kind {
    match field {
        Field::U8(_) => Kind::U8,
        Field::Bool(_) => Kind::Bool,
        Field::I32(_) => Kind::I32,
        Field::F32(_) => Kind::F32,
        Field::F64(_) => Kind::F64,
        Field::Text(_) => Kind::Text,
        Field::Bytes(_) => Kind::Bytes,
    }
}

/// The types of a run of fields.
pub open spec fn kinds_of(fields: Seq<Field>) -> Seq<Kind> {
    fields.map_values(|f: Field| kind_of(f))
}

/// Whether the length of a field's value fits the 32 bits it is written in.
pub open spec fn fits(field: Field) -> bool {
    match field {
        Field::Text(text) => encode_utf8(text).len() < 0xffff_ffff,
        Field::Bytes(bytes) => bytes.len() <= 0xffff_ffff,
        _ => true,
    }
}

/// Whether a run is one of these types, with every length in range.
pub open spec fn run_fits(fields: Seq<Field>, kinds: Seq<Kind>) -> bool {
    &&& kinds_of(fields) == kinds
    &&& forall|i: int| 0 <= i < fields.len() ==> fits(#[trigger] fields[i])
}

/// Whether a part is of this type, with every length and count in range.
pub open spec fn chunk_fits(chunk: Chunk, part: Part) -> bool {
    match (chunk, part) {
        (Chunk::Run(fields), Part::Run(kinds)) => run_fits(fields, kinds),
        (Chunk::Many(items), Part::Many(kinds)) => {
            &&& items.len() <= 0xffff_ffff
            &&& forall|i: int| 0 <= i < items.len() ==> run_fits(#[trigger] items[i], kinds)
        },
        _ => false,
    }
}

/// Whether every length and count in a part fits the 32 bits it is written in.
pub open spec fn chunk_small(chunk: Chunk) -> bool {
    match chunk {
        Chunk::Run(fields) => forall|i: int| 0 <= i < fields.len() ==> fits(#[trigger] fields[i]),
        Chunk::Many(items) => {
            &&& items.len() <= 0xffff_ffff
            &&& forall|i: int, j: int|
                0 <= i < items.len() && 0 <= j < items[i].len() ==> fits(#[trigger] items[i][j])
        },
    }
}

/// Whether every length and count in a message fits the 32 bits it is written in.
pub open spec fn small(chunks: Seq<Chunk>) -> bool {
    forall|i: int| 0 <= i < chunks.len() ==> chunk_small(#[trigger] chunks[i])
}

/// Whether a message is of this type, with every length and count in range.
pub open spec fn chunks_fit(chunks: Seq<Chunk>, parts: Seq<Part>) -> bool {
    &&& chunks.len() == parts.len()
    &&& forall|i: int| 0 <= i < chunks.len() ==> chunk_fits(#[trigger] chunks[i], parts[i])
}

proof fn lemma_put_word_extends(body: Seq<u8>, value: nat)
    ensures
        body.is_prefix_of(put_word(body, value)),
        put_word(body, value).len() == aligned(body.len(), 4) + 4,
{
    lemma_digits_len(value, 4);
}

proof fn lemma_put_extends(body: Seq<u8>, field: Field)
    ensures
        body.is_prefix_of(put(body, field)),
{
    match field {
        Field::I32(value) => lemma_put_word_extends(body, value as u32 as nat),
        Field::F32(bits) => lemma_put_word_extends(body, bits as nat),
        Field::F64(bits) => lemma_digits_len(bits as nat, 8),
        Field::Text(text) => lemma_put_word_extends(body, low32(encode_utf8(text).len()) + 1),
        Field::Bytes(bytes) => lemma_put_word_extends(body, low32(bytes.len())),
        _ => {},
    }
}

proof fn lemma_prefix_transitive(a: Seq<u8>, b: Seq<u8>, c: Seq<u8>)
    requires
        a.is_prefix_of(b),
        b.is_prefix_of(c),
    ensures
        a.is_prefix_of(c),
{
    assert(a =~= c.subrange(0, a.len() as int)) by {
        assert forall|i: int| 0 <= i < a.len() implies a[i] == c[i] by {
            assert(a[i] == b.subrange(0, a.len() as int)[i]);
            assert(b[i] == c.subrange(0, b.len() as int)[i]);
        }
    }
}

proof fn lemma_put_run_extends(body: Seq<u8>, fields: Seq<Field>)
    ensures
        body.is_prefix_of(put_run(body, fields)),
    decreases fields.len(),
{
    reveal(put_run);
    if fields.len() > 0 {
        let middle = put_run(body, fields.drop_last());
        lemma_put_run_extends(body, fields.drop_last());
        lemma_put_extends(middle, fields.last());
        lemma_prefix_transitive(body, middle, put_run(body, fields));
    }
}

proof fn lemma_put_items_extends(body: Seq<u8>, items: Seq<Seq<Field>>)
    ensures
        body.is_prefix_of(put_items(body, items)),
    decreases items.len(),
{
    if items.len() > 0 {
        let middle = put_items(body, items.drop_last());
        lemma_put_items_extends(body, items.drop_last());
        lemma_put_run_extends(middle, items.last());
        lemma_prefix_transitive(body, middle, put_items(body, items));
    }
}

proof fn lemma_put_chunk_extends(body: Seq<u8>, chunk: Chunk)
    ensures
        body.is_prefix_of(put_chunk(body, chunk)),
{
    match chunk {
        Chunk::Run(fields) => lemma_put_run_extends(body, fields),
        Chunk::Many(items) => {
            let middle = put_word(body, low32(items.len()));
            lemma_put_word_extends(body, low32(items.len()));
            lemma_put_items_extends(middle, items);
            lemma_prefix_transitive(body, middle, put_chunk(body, chunk));
        },
    }
}

proof fn lemma_word_reads_back(body: Seq<u8>, value: nat, whole: Seq<u8>)
    requires
        value < 0x1_0000_0000,
        put_word(body, value).is_prefix_of(whole),
    ensures
        read_number(whole, true, body.len(), 4) == Some((value, put_word(body, value).len())),
{
    lemma_capacities();
    lemma_digits_number(value, 4);
    let start = aligned(body.len(), 4);
    let put = put_word(body, value);
    assert(put == whole.subrange(0, put.len() as int));
    assert(whole.subrange(start as int, (start + 4) as int) =~= digits(value, 4)) by {
        assert forall|i: int| 0 <= i < 4 implies whole[start + i] == digits(value, 4)[i] by {
            assert(whole[start + i] == put[start + i]);
        }
    }
}

proof fn lemma_field_reads_back(body: Seq<u8>, field: Field, whole: Seq<u8>)
    requires
        fits(field),
        put(body, field).is_prefix_of(whole),
    ensures
        read(whole, true, body.len(), kind_of(field)) == Some((field, put(body, field).len())),
{
    reveal(read);
    let after = put(body, field);
    assert(after == whole.subrange(0, after.len() as int));
    match field {
        Field::U8(value) => {
            assert(whole[body.len() as int] == after[body.len() as int]);
        },
        Field::Bool(value) => {
            assert(whole[body.len() as int] == after[body.len() as int]);
        },
        Field::I32(value) => {
            lemma_word_reads_back(body, value as u32 as nat, whole);
            assert(value as u32 as i32 == value) by (bit_vector);
        },
        Field::F32(bits) => {
            lemma_word_reads_back(body, bits as nat, whole);
        },
        Field::F64(bits) => {
            lemma_capacities();
            lemma_digits_number(bits as nat, 8);
            let start = aligned(body.len(), 8);
            assert(whole.subrange(start as int, (start + 8) as int) =~= digits(bits as nat, 8)) by {
                assert forall|i: int| 0 <= i < 8 implies whole[start + i] == digits(
                    bits as nat,
                    8,
                )[i] by {
                    assert(whole[start + i] == after[start + i]);
                }
            }
        },
        Field::Text(text) => {
            let bytes = encode_utf8(text);
            let middle = put_word(body, bytes.len() + 1);
            assert(low32(bytes.len()) == bytes.len());
            assert(middle =~= after.subrange(0, middle.len() as int));
            lemma_prefix_transitive(middle, after, whole);
            lemma_word_reads_back(body, bytes.len() + 1, whole);
            let start = middle.len() as int;
            let held = whole.subrange(start, start + bytes.len() + 1);
            assert(held =~= bytes.push(0u8)) by {
                assert forall|i: int| 0 <= i < bytes.len() + 1 implies held[i] == bytes.push(0u8)[i] by {
                    assert(whole[start + i] == after[start + i]);
                }
            }
            assert(without_null(held) =~= bytes);
            encode_utf8_valid_utf8(text);
            encode_utf8_decode_utf8(text);
        },
        Field::Bytes(bytes) => {
            let middle = put_word(body, bytes.len());
            assert(low32(bytes.len()) == bytes.len());
            assert(middle =~= after.subrange(0, middle.len() as int));
            lemma_prefix_transitive(middle, after, whole);
            lemma_word_reads_back(body, bytes.len(), whole);
            let start = middle.len() as int;
            assert(whole.subrange(start, start + bytes.len()) =~= bytes) by {
                assert forall|i: int| 0 <= i < bytes.len() implies whole[start + i] == bytes[i] by {
                    assert(whole[start + i] == after[start + i]);
                }
            }
        },
    }
}

proof fn lemma_run_reads_back(body: Seq<u8>, fields: Seq<Field>, kinds: Seq<Kind>, whole: Seq<u8>)
    requires
        run_fits(fields, kinds),
        put_run(body, fields).is_prefix_of(whole),
    ensures
        read_run(whole, true, body.len(), kinds) == Some((fields, put_run(body, fields).len())),
    decreases fields.len(),
{
    reveal(put_run);
    reveal(read_run);
    if fields.len() == 0 {
        assert(fields =~= Seq::empty());
    } else {
        let rest = fields.drop_last();
        let middle = put_run(body, rest);
        assert(kinds_of(rest) =~= kinds.drop_last());
        lemma_put_extends(middle, fields.last());
        lemma_prefix_transitive(middle, put_run(body, fields), whole);
        lemma_run_reads_back(body, rest, kinds.drop_last(), whole);
        lemma_field_reads_back(middle, fields.last(), whole);
        assert(kinds.last() == kind_of(fields.last()));
        assert(rest.push(fields.last()) =~= fields);
    }
}

proof fn lemma_items_read_back(
    body: Seq<u8>,
    items: Seq<Seq<Field>>,
    kinds: Seq<Kind>,
    whole: Seq<u8>,
)
    requires
        forall|i: int| 0 <= i < items.len() ==> run_fits(#[trigger] items[i], kinds),
        put_items(body, items).is_prefix_of(whole),
    ensures
        read_items(whole, true, body.len(), kinds, items.len()) == Some(
            (items, put_items(body, items).len()),
        ),
    decreases items.len(),
{
    reveal(read_items);
    if items.len() == 0 {
        assert(items =~= Seq::empty());
    } else {
        let rest = items.drop_last();
        let middle = put_items(body, rest);
        lemma_put_run_extends(middle, items.last());
        lemma_prefix_transitive(middle, put_items(body, items), whole);
        lemma_items_read_back(body, rest, kinds, whole);
        lemma_run_reads_back(middle, items.last(), kinds, whole);
        assert(rest.push(items.last()) =~= items);
    }
}

proof fn lemma_chunk_reads_back(body: Seq<u8>, chunk: Chunk, part: Part, whole: Seq<u8>)
    requires
        chunk_fits(chunk, part),
        put_chunk(body, chunk).is_prefix_of(whole),
    ensures
        read_part(whole, true, body.len(), part) == Some((chunk, put_chunk(body, chunk).len())),
{
    match (chunk, part) {
        (Chunk::Run(fields), Part::Run(kinds)) => {
            lemma_run_reads_back(body, fields, kinds, whole);
        },
        (Chunk::Many(items), Part::Many(kinds)) => {
            let middle = put_word(body, items.len());
            assert(low32(items.len()) == items.len());
            lemma_put_items_extends(middle, items);
            lemma_prefix_transitive(middle, put_chunk(body, chunk), whole);
            lemma_word_reads_back(body, items.len(), whole);
            lemma_items_read_back(middle, items, kinds, whole);
        },
        _ => {},
    }
}

/// Reading a written body by its own type gives the message back, and ends where the writing did.
/// The reading is not disturbed by what stands behind it.
pub proof fn law_written_messages_read_back(
    body: Seq<u8>,
    chunks: Seq<Chunk>,
    parts: Seq<Part>,
    whole: Seq<u8>,
)
    requires
        chunks_fit(chunks, parts),
        put_chunks(body, chunks).is_prefix_of(whole),
    ensures
        read_parts(whole, true, body.len(), parts) == Some(
            (chunks, put_chunks(body, chunks).len()),
        ),
    decreases chunks.len(),
{
    reveal(put_chunks);
    reveal(read_parts);
    if chunks.len() == 0 {
        assert(chunks =~= Seq::empty());
    } else {
        let rest = chunks.drop_last();
        let middle = put_chunks(body, rest);
        lemma_put_chunk_extends(middle, chunks.last());
        lemma_prefix_transitive(middle, put_chunks(body, chunks), whole);
        assert forall|i: int| 0 <= i < rest.len() implies chunk_fits(
            #[trigger] rest[i],
            parts.drop_last()[i],
        ) by {
            assert(rest[i] == chunks[i]);
        }
        law_written_messages_read_back(body, rest, parts.drop_last(), whole);
        assert(chunk_fits(chunks[chunks.len() - 1], parts[chunks.len() - 1]));
        lemma_chunk_reads_back(middle, chunks.last(), parts.last(), whole);
        assert(rest.push(chunks.last()) =~= chunks);
    }
}

// ---------------------------------------------------------------- cut bodies
proof fn lemma_same_bytes(short: Seq<u8>, whole: Seq<u8>, start: int, end: int)
    requires
        short.is_prefix_of(whole),
        0 <= start <= end <= short.len(),
    ensures
        short.subrange(start, end) == whole.subrange(start, end),
{
    assert forall|i: int| start <= i < end implies short[i] == whole[i] by {
        assert(short[i] == whole.subrange(0, short.len() as int)[i]);
    }
    assert(short.subrange(start, end) =~= whole.subrange(start, end));
}

proof fn lemma_number_of_cut(
    short: Seq<u8>,
    whole: Seq<u8>,
    little_endian: bool,
    position: nat,
    width: nat,
)
    requires
        short.is_prefix_of(whole),
    ensures
        read_number(short, little_endian, position, width) matches Some((_, end)) ==> read_number(
            whole,
            little_endian,
            position,
            width,
        ) == read_number(short, little_endian, position, width) && end <= short.len(),
{
    let start = aligned(position, width);
    if start + width <= short.len() {
        lemma_same_bytes(short, whole, start as int, (start + width) as int);
    }
}

proof fn lemma_field_of_cut(
    short: Seq<u8>,
    whole: Seq<u8>,
    little_endian: bool,
    position: nat,
    kind: Kind,
)
    requires
        short.is_prefix_of(whole),
    ensures
        read(short, little_endian, position, kind) matches Some((_, end)) ==> read(
            whole,
            little_endian,
            position,
            kind,
        ) == read(short, little_endian, position, kind) && end <= short.len(),
{
    reveal(read);
    lemma_number_of_cut(short, whole, little_endian, position, 4);
    lemma_number_of_cut(short, whole, little_endian, position, 8);
    if position < short.len() {
        assert(short[position as int] == whole.subrange(0, short.len() as int)[position as int]);
    }
    if let Some((n, start)) = read_number(short, little_endian, position, 4) {
        if start + n <= short.len() {
            lemma_same_bytes(short, whole, start as int, (start + n) as int);
        }
    }
}

proof fn lemma_run_of_cut(
    short: Seq<u8>,
    whole: Seq<u8>,
    little_endian: bool,
    position: nat,
    kinds: Seq<Kind>,
)
    requires
        short.is_prefix_of(whole),
        position <= short.len(),
    ensures
        read_run(short, little_endian, position, kinds) matches Some((_, end)) ==> read_run(
            whole,
            little_endian,
            position,
            kinds,
        ) == read_run(short, little_endian, position, kinds) && end <= short.len(),
    decreases kinds.len(),
{
    reveal(read_run);
    if kinds.len() > 0 {
        lemma_run_of_cut(short, whole, little_endian, position, kinds.drop_last());
        if let Some((_, middle)) = read_run(short, little_endian, position, kinds.drop_last()) {
            lemma_field_of_cut(short, whole, little_endian, middle, kinds.last());
        }
    }
}

proof fn lemma_items_of_cut(
    short: Seq<u8>,
    whole: Seq<u8>,
    little_endian: bool,
    position: nat,
    kinds: Seq<Kind>,
    count: nat,
)
    requires
        short.is_prefix_of(whole),
        position <= short.len(),
    ensures
        read_items(short, little_endian, position, kinds, count) matches Some((_, end))
            ==> read_items(whole, little_endian, position, kinds, count) == read_items(
            short,
            little_endian,
            position,
            kinds,
            count,
        ) && end <= short.len(),
    decreases count,
{
    reveal(read_items);
    if count > 0 {
        let fewer = (count - 1) as nat;
        lemma_items_of_cut(short, whole, little_endian, position, kinds, fewer);
        if let Some((_, middle)) = read_items(short, little_endian, position, kinds, fewer) {
            lemma_run_of_cut(short, whole, little_endian, middle, kinds);
        }
    }
}

/// A message that can be read from a body is read the same from a longer one, and ends where the shorter
/// body does at the latest.
pub proof fn law_messages_are_read_from_no_more_than_they_need(
    short: Seq<u8>,
    whole: Seq<u8>,
    little_endian: bool,
    position: nat,
    parts: Seq<Part>,
)
    requires
        short.is_prefix_of(whole),
        position <= short.len(),
    ensures
        read_parts(short, little_endian, position, parts) matches Some((_, end)) ==> read_parts(
            whole,
            little_endian,
            position,
            parts,
        ) == read_parts(short, little_endian, position, parts) && end <= short.len(),
    decreases parts.len(),
{
    reveal(read_parts);
    if parts.len() > 0 {
        let rest = parts.drop_last();
        law_messages_are_read_from_no_more_than_they_need(
            short,
            whole,
            little_endian,
            position,
            rest,
        );
        if let Some((_, middle)) = read_parts(short, little_endian, position, rest) {
            match parts.last() {
                Part::Run(kinds) => lemma_run_of_cut(short, whole, little_endian, middle, kinds),
                Part::Many(kinds) => {
                    lemma_number_of_cut(short, whole, little_endian, middle, 4);
                    if let Some((count, start)) = read_number(short, little_endian, middle, 4) {
                        lemma_items_of_cut(short, whole, little_endian, start, kinds, count);
                    }
                },
            }
        }
    }
}

// ------------------------------------------------------------- composing runs
/// A run of one field type.
pub open spec fn one(kind: Kind) -> Seq<Kind> {
    seq![kind]
}

/// A run of one field.
pub open spec fn just(field: Field) -> Seq<Field> {
    seq![field]
}

/// Reading one run behind another reads the two in turn.
pub broadcast proof fn lemma_read_run_concat(
    body: Seq<u8>,
    little_endian: bool,
    position: nat,
    first: Seq<Kind>,
    second: Seq<Kind>,
)
    ensures
        #[trigger] read_run(body, little_endian, position, first + second) == (match read_run(
            body,
            little_endian,
            position,
            first,
        ) {
            Some((a, middle)) => match read_run(body, little_endian, middle, second) {
                Some((b, end)) => Some((a + b, end)),
                None => None,
            },
            None => None,
        }),
    decreases second.len(),
{
    reveal(read_run);
    if second.len() == 0 {
        assert(first + second =~= first);
        if let Some((a, middle)) = read_run(body, little_endian, position, first) {
            assert(a + Seq::<Field>::empty() =~= a);
        }
    } else {
        assert((first + second).drop_last() =~= first + second.drop_last());
        lemma_read_run_concat(body, little_endian, position, first, second.drop_last());
        if let Some((a, middle)) = read_run(body, little_endian, position, first) {
            if let Some((b, late)) = read_run(body, little_endian, middle, second.drop_last()) {
                if let Some((field, end)) = read(body, little_endian, late, second.last()) {
                    assert((a + b).push(field) =~= a + b.push(field));
                }
            }
        }
    }
}

/// Reading a run of one field reads that field.
pub broadcast proof fn lemma_read_run_one(
    body: Seq<u8>,
    little_endian: bool,
    position: nat,
    kind: Kind,
)
    ensures
        #[trigger] read_run(body, little_endian, position, one(kind)) == (match read(
            body,
            little_endian,
            position,
            kind,
        ) {
            Some((field, end)) => Some((just(field), end)),
            None => None,
        }),
{
    assert(one(kind).drop_last() =~= Seq::empty());
    reveal_with_fuel(read_run, 2);
    if let Some((field, end)) = read(body, little_endian, position, kind) {
        assert(Seq::<Field>::empty().push(field) =~= just(field));
    }
}

/// Where reading one run behind another stops.
pub broadcast proof fn lemma_run_stop_concat(
    body: Seq<u8>,
    little_endian: bool,
    position: nat,
    first: Seq<Kind>,
    second: Seq<Kind>,
)
    requires
        read_run(body, little_endian, position, first + second) is None,
    ensures
        #[trigger] run_stop(body, little_endian, position, first + second) == (match read_run(
            body,
            little_endian,
            position,
            first,
        ) {
            Some((_, middle)) => run_stop(body, little_endian, middle, second),
            None => run_stop(body, little_endian, position, first),
        }),
    decreases second.len(),
{
    reveal(read_run);
    reveal(run_stop);
    lemma_read_run_concat(body, little_endian, position, first, second);
    if second.len() == 0 {
        assert(first + second =~= first);
    } else {
        let rest = second.drop_last();
        assert((first + second).drop_last() =~= first + rest);
        lemma_read_run_concat(body, little_endian, position, first, rest);
        if read_run(body, little_endian, position, first + rest) is None {
            lemma_run_stop_concat(body, little_endian, position, first, rest);
        }
    }
}

/// Where reading a run of one field stops.
pub broadcast proof fn lemma_run_stop_one(
    body: Seq<u8>,
    little_endian: bool,
    position: nat,
    kind: Kind,
)
    ensures
        #[trigger] run_stop(body, little_endian, position, one(kind)) == stop(
            body,
            little_endian,
            position,
            kind,
        ),
{
    assert(one(kind).drop_last() =~= Seq::empty());
    reveal_with_fuel(read_run, 2);
    reveal_with_fuel(run_stop, 2);
}

/// Writing one run behind another writes the two in turn.
pub broadcast proof fn lemma_put_run_concat(body: Seq<u8>, first: Seq<Field>, second: Seq<Field>)
    ensures
        #[trigger] put_run(body, first + second) == put_run(put_run(body, first), second),
    decreases second.len(),
{
    reveal(put_run);
    if second.len() == 0 {
        assert(first + second =~= first);
    } else {
        assert((first + second).drop_last() =~= first + second.drop_last());
        lemma_put_run_concat(body, first, second.drop_last());
    }
}

/// Writing a run of one field writes that field.
pub broadcast proof fn lemma_put_run_one(body: Seq<u8>, field: Field)
    ensures
        #[trigger] put_run(body, just(field)) == put(body, field),
{
    assert(just(field).drop_last() =~= Seq::empty());
    reveal_with_fuel(put_run, 2);
}

/// The types of one run behind another are the types of the two in turn.
pub broadcast proof fn lemma_kinds_of_concat(first: Seq<Field>, second: Seq<Field>)
    ensures
        #[trigger] kinds_of(first + second) == kinds_of(first) + kinds_of(second),
{
    assert(kinds_of(first + second) =~= kinds_of(first) + kinds_of(second));
}

/// The type of a run of one field.
pub broadcast proof fn lemma_kinds_of_one(field: Field)
    ensures
        #[trigger] kinds_of(just(field)) == one(kind_of(field)),
{
    assert(kinds_of(just(field)) =~= one(kind_of(field)));
}

pub broadcast group group_runs {
    lemma_read_run_concat,
    lemma_read_run_one,
    lemma_run_stop_concat,
    lemma_run_stop_one,
    lemma_put_run_concat,
    lemma_put_run_one,
    lemma_kinds_of_concat,
    lemma_kinds_of_one,
}

// ------------------------------------------------------------ composing parts
/// A list of one part type.
pub open spec fn part(part: Part) -> Seq<Part> {
    seq![part]
}

/// A list of one part.
pub open spec fn chunk(chunk: Chunk) -> Seq<Chunk> {
    seq![chunk]
}

/// Reading parts behind others reads the two lists in turn.
pub broadcast proof fn lemma_read_parts_concat(
    body: Seq<u8>,
    little_endian: bool,
    position: nat,
    first: Seq<Part>,
    second: Seq<Part>,
)
    ensures
        #[trigger] read_parts(body, little_endian, position, first + second) == (match read_parts(
            body,
            little_endian,
            position,
            first,
        ) {
            Some((a, middle)) => match read_parts(body, little_endian, middle, second) {
                Some((b, end)) => Some((a + b, end)),
                None => None,
            },
            None => None,
        }),
    decreases second.len(),
{
    reveal(read_parts);
    if second.len() == 0 {
        assert(first + second =~= first);
        if let Some((a, middle)) = read_parts(body, little_endian, position, first) {
            assert(a + Seq::<Chunk>::empty() =~= a);
        }
    } else {
        assert((first + second).drop_last() =~= first + second.drop_last());
        lemma_read_parts_concat(body, little_endian, position, first, second.drop_last());
        if let Some((a, middle)) = read_parts(body, little_endian, position, first) {
            if let Some((b, late)) = read_parts(body, little_endian, middle, second.drop_last()) {
                if let Some((c, end)) = read_part(body, little_endian, late, second.last()) {
                    assert((a + b).push(c) =~= a + b.push(c));
                }
            }
        }
    }
}

/// Reading a list of one part reads that part.
pub broadcast proof fn lemma_read_parts_one(
    body: Seq<u8>,
    little_endian: bool,
    position: nat,
    p: Part,
)
    ensures
        #[trigger] read_parts(body, little_endian, position, part(p)) == (match read_part(
            body,
            little_endian,
            position,
            p,
        ) {
            Some((c, end)) => Some((chunk(c), end)),
            None => None,
        }),
{
    assert(part(p).drop_last() =~= Seq::empty());
    reveal_with_fuel(read_parts, 2);
    if let Some((c, end)) = read_part(body, little_endian, position, p) {
        assert(Seq::<Chunk>::empty().push(c) =~= chunk(c));
    }
}

/// Where reading parts behind others stops.
pub broadcast proof fn lemma_parts_stop_concat(
    body: Seq<u8>,
    little_endian: bool,
    position: nat,
    first: Seq<Part>,
    second: Seq<Part>,
)
    requires
        read_parts(body, little_endian, position, first + second) is None,
    ensures
        #[trigger] parts_stop(body, little_endian, position, first + second) == (match read_parts(
            body,
            little_endian,
            position,
            first,
        ) {
            Some((_, middle)) => parts_stop(body, little_endian, middle, second),
            None => parts_stop(body, little_endian, position, first),
        }),
    decreases second.len(),
{
    reveal(read_parts);
    reveal(parts_stop);
    lemma_read_parts_concat(body, little_endian, position, first, second);
    if second.len() == 0 {
        assert(first + second =~= first);
    } else {
        let rest = second.drop_last();
        assert((first + second).drop_last() =~= first + rest);
        lemma_read_parts_concat(body, little_endian, position, first, rest);
        if read_parts(body, little_endian, position, first + rest) is None {
            lemma_parts_stop_concat(body, little_endian, position, first, rest);
        }
    }
}

/// Where reading a list of one part stops.
pub broadcast proof fn lemma_parts_stop_one(
    body: Seq<u8>,
    little_endian: bool,
    position: nat,
    p: Part,
)
    ensures
        #[trigger] parts_stop(body, little_endian, position, part(p)) == part_stop(
            body,
            little_endian,
            position,
            p,
        ),
{
    assert(part(p).drop_last() =~= Seq::empty());
    reveal_with_fuel(read_parts, 2);
    reveal_with_fuel(parts_stop, 2);
}

/// Writing parts behind others writes the two lists in turn.
pub broadcast proof fn lemma_put_chunks_concat(body: Seq<u8>, first: Seq<Chunk>, second: Seq<Chunk>)
    ensures
        #[trigger] put_chunks(body, first + second) == put_chunks(put_chunks(body, first), second),
    decreases second.len(),
{
    reveal(put_chunks);
    if second.len() == 0 {
        assert(first + second =~= first);
    } else {
        assert((first + second).drop_last() =~= first + second.drop_last());
        lemma_put_chunks_concat(body, first, second.drop_last());
    }
}

/// Writing a list of one part writes that part.
pub broadcast proof fn lemma_put_chunks_one(body: Seq<u8>, c: Chunk)
    ensures
        #[trigger] put_chunks(body, chunk(c)) == put_chunk(body, c),
{
    assert(chunk(c).drop_last() =~= Seq::empty());
    reveal_with_fuel(put_chunks, 2);
}

pub broadcast group group_parts {
    lemma_read_parts_concat,
    lemma_read_parts_one,
    lemma_parts_stop_concat,
    lemma_parts_stop_one,
    lemma_put_chunks_concat,
    lemma_put_chunks_one,
}

/// When `count` runs cannot be read, more cannot either, and reading them stops at the same place.
pub proof fn lemma_items_stay_unread(
    body: Seq<u8>,
    little_endian: bool,
    position: nat,
    kinds: Seq<Kind>,
    count: nat,
    more: nat,
)
    requires
        read_items(body, little_endian, position, kinds, count) is None,
        count <= more,
    ensures
        read_items(body, little_endian, position, kinds, more) is None,
        items_stop(body, little_endian, position, kinds, more) == items_stop(
            body,
            little_endian,
            position,
            kinds,
            count,
        ),
    decreases more,
{
    reveal(read_items);
    reveal(items_stop);
    if count < more {
        lemma_items_stay_unread(body, little_endian, position, kinds, count, (more - 1) as nat);
    }
}

/// A run of `n` 64-bit floats.
pub open spec fn doubles(n: nat) -> Seq<Kind> {
    Seq::new(n, |i: int| Kind::F64)
}

/// When `n` floats cannot be read, more cannot either, and reading them stops at the same place.
pub proof fn lemma_doubles_stay_unread(
    body: Seq<u8>,
    little_endian: bool,
    position: nat,
    n: nat,
    more: nat,
)
    requires
        read_run(body, little_endian, position, doubles(n)) is None,
        n <= more,
    ensures
        read_run(body, little_endian, position, doubles(more)) is None,
        run_stop(body, little_endian, position, doubles(more)) == run_stop(
            body,
            little_endian,
            position,
            doubles(n),
        ),
    decreases more,
{
    reveal(read_run);
    reveal(run_stop);
    if n < more {
        lemma_doubles_stay_unread(body, little_endian, position, n, (more - 1) as nat);
        assert(doubles(more).drop_last() =~= doubles((more - 1) as nat));
    }
}

} // verus!
