//! Where in a payload each member of a message stands, byte by byte.
use super::layout::{
    aligned, capacity, chunk, digits, doubles, group_parts, just, lemma_capacities, lemma_digits_number,
    low32, number, one, padded, part, part_stop, parts_stop, put, read, read_items, read_part, read_parts,
    read_run, run_stop, stop, without_null, word, Chunk, Field, Kind, Part,
};
use super::messages::{
    double_fields, items_of, CameraInfo, CompressedImage, Header, Image, Imu, JointState, LaserScan,
    Odometry, Path, Point, PointCloud2, PointField, Pose, PoseStamped, Quaternion, RegionOfInterest, Run,
    TFMessage, Transform, TransformStamped, Twist, Vector3,
};
use super::reader::{body_of, lemma_padding, lemma_spell4, F32, F64};
use super::transcoded;
use super::types::Message;
use vstd::prelude::*;
use vstd::utf8::{decode_utf8_encode_utf8, encode_utf8, valid_utf8};

verus! {

// --------------------------------------------------------------------- places
/// The first multiple of four at or after a place.
#[verifier::opaque]
pub open spec fn up4(p: nat) -> nat {
    ((p + 3) / 4 * 4) as nat
}

/// The first multiple of eight at or after a place.
#[verifier::opaque]
pub open spec fn up8(p: nat) -> nat {
    ((p + 7) / 8 * 8) as nat
}

/// The byte at a place.
pub open spec fn byte(b: Seq<u8>, at: nat) -> nat {
    b[at as int] as nat
}

/// The number that the four bytes at a place spell, the least significant first or last.
#[verifier::opaque]
pub open spec fn num4(b: Seq<u8>, le: bool, at: nat) -> nat {
    if le {
        byte(b, at) + 0x100 * byte(b, at + 1) + 0x1_0000 * byte(b, at + 2) + 0x100_0000 * byte(
            b,
            at + 3,
        )
    } else {
        byte(b, at + 3) + 0x100 * byte(b, at + 2) + 0x1_0000 * byte(b, at + 1) + 0x100_0000 * byte(
            b,
            at,
        )
    }
}

/// The number that the eight bytes at a place spell, the least significant first or last.
#[verifier::opaque]
pub open spec fn num8(b: Seq<u8>, le: bool, at: nat) -> nat {
    if le {
        num4(b, le, at) + 0x1_0000_0000 * num4(b, le, at + 4)
    } else {
        num4(b, le, at + 4) + 0x1_0000_0000 * num4(b, le, at)
    }
}

/// Whether the whole number behind the padding to a multiple of four is this one.
pub open spec fn int_at(b: Seq<u8>, le: bool, p: nat, value: i32) -> bool {
    &&& up4(p) + 4 <= b.len()
    &&& num4(b, le, up4(p)) == value as u32
}

/// Whether the 32-bit float behind the padding to a multiple of four is this one.
pub open spec fn float_at(b: Seq<u8>, le: bool, p: nat, value: F32) -> bool {
    &&& up4(p) + 4 <= b.len()
    &&& num4(b, le, up4(p)) == value.bits
}

/// Whether the 64-bit float at a place is this one.
pub open spec fn double_at(b: Seq<u8>, le: bool, at: nat, value: F64) -> bool {
    &&& at + 8 <= b.len()
    &&& num8(b, le, at) == value.bits
}

/// Whether the 64-bit floats from a place on are these.
pub open spec fn doubles_at(b: Seq<u8>, le: bool, at: nat, values: Seq<F64>) -> bool {
    forall|j: int|
        0 <= j < values.len() ==> double_at(b, le, (at + 8 * j) as nat, #[trigger] values[j])
}

/// Where what has a length in front of it ends.
pub open spec fn counted_end(b: Seq<u8>, le: bool, p: nat) -> nat {
    up4(p) + 4 + num4(b, le, up4(p))
}

/// Whether the bytes behind a length are these.
pub open spec fn bytes_at(b: Seq<u8>, le: bool, p: nat, data: Seq<u8>) -> bool {
    let start = up4(p) + 4;
    &&& counted_end(b, le, p) <= b.len()
    &&& data.len() == num4(b, le, up4(p))
    &&& forall|j: int| 0 <= j < data.len() ==> #[trigger] data[j] == b[start + j]
}

/// Whether the text behind a length is this one: its UTF-8 bytes, and perhaps a null. What becomes of
/// bytes that are not valid UTF-8 is left open.
pub open spec fn text_at(b: Seq<u8>, le: bool, p: nat, text: Seq<char>) -> bool {
    let start = (up4(p) + 4) as int;
    let end = counted_end(b, le, p) as int;
    let bytes = if end > start && b[end - 1] == 0 {
        b.subrange(start, end - 1)
    } else {
        b.subrange(start, end)
    };
    &&& end <= b.len()
    &&& valid_utf8(bytes) ==> encode_utf8(text) == bytes
}

// ------------------------------------------------------------ fields by number
#[verifier::spinoff_prover]
proof fn lemma_up(p: nat)
    ensures
        aligned(p, 4) == up4(p),
        aligned(p, 8) == up8(p),
        p <= up4(p) < p + 4,
        p <= up8(p) < p + 8,
        up4(p) % 4 == 0,
        up8(p) % 8 == 0,
        p % 4 == 0 ==> up4(p) == p,
        p % 8 == 0 ==> up8(p) == p,
{
    reveal(up4);
    reveal(up8);
    lemma_padding(p, 4);
    lemma_padding(p, 8);
}

proof fn lemma_multiple(p: nat)
    ensures
        up4(p) % 4 == 0,
        up8(p) % 8 == 0,
        p % 4 == 0 ==> up4(p) == p,
        p % 8 == 0 ==> up8(p) == p,
{
    reveal(up4);
    reveal(up8);
}

proof fn lemma_grid(q: nat, n: nat)
    ensures
        up4(up4(q) + 4 * n) == up4(q) + 4 * n,
{
    lemma_multiple(q);
    lemma_multiple(up4(q) + 4 * n);
}

proof fn lemma_grid8(q: nat, n: nat)
    ensures
        up8(up8(q) + 8 * n) == up8(q) + 8 * n,
{
    lemma_multiple(q);
    lemma_multiple(up8(q) + 8 * n);
}

proof fn lemma_fours_after_eights(q: nat, n: nat)
    ensures
        up4(up8(q) + 4 * n) == up8(q) + 4 * n,
{
    lemma_multiple(q);
    lemma_multiple(up8(q) + 4 * n);
}

proof fn lemma_num4(b: Seq<u8>, le: bool, at: nat)
    requires
        at + 4 <= b.len(),
    ensures
        word(b.subrange(at as int, at as int + 4), le) == num4(b, le, at),
        num4(b, le, at) < 0x1_0000_0000,
{
    reveal(num4);
    let bytes = b.subrange(at as int, at as int + 4);
    if le {
        lemma_spell4(bytes);
    } else {
        lemma_spell4(bytes.reverse());
    }
}

proof fn lemma_num8(b: Seq<u8>, le: bool, at: nat)
    requires
        at + 8 <= b.len(),
    ensures
        word(b.subrange(at as int, at as int + 8), le) == num8(b, le, at),
        num8(b, le, at) < 0x1_0000_0000_0000_0000,
{
    reveal(num4);
    reveal(num8);
    let bytes = b.subrange(at as int, at as int + 8);
    let ordered = if le {
        bytes
    } else {
        bytes.reverse()
    };
    lemma_num4(b, le, at);
    lemma_num4(b, le, at + 4);
    let c = ordered.drop_first();
    let d = c.drop_first();
    let e = d.drop_first();
    let f = e.drop_first();
    assert(f =~= ordered.skip(4));
    assert(number(ordered) == ordered[0] + 256 * number(c));
    assert(number(c) == ordered[1] + 256 * number(d));
    assert(number(d) == ordered[2] + 256 * number(e));
    assert(number(e) == ordered[3] + 256 * number(f));
    lemma_spell4(f);
}

/// What is read at a place, in bytes.
proof fn lemma_read(b: Seq<u8>, le: bool, p: nat, kind: Kind)
    requires
        read(b, le, p, kind) is Some,
    ensures
        ({
            let (field, end) = read(b, le, p, kind)->0;
            &&& end <= b.len()
            &&& match kind {
                Kind::U8 => end == p + 1 && field == Field::U8(b[p as int]),
                Kind::Bool => end == p + 1 && field == Field::Bool(b[p as int] != 0),
                Kind::I32 => end == up4(p) + 4 && (field matches Field::I32(v) && int_at(b, le, p, v)),
                Kind::F32 => end == up4(p) + 4 && (field matches Field::F32(v) && float_at(
                    b,
                    le,
                    p,
                    F32 { bits: v },
                )),
                Kind::F64 => end == up8(p) + 8 && (field matches Field::F64(v) && double_at(
                    b,
                    le,
                    up8(p),
                    F64 { bits: v },
                )),
                Kind::Text => end == counted_end(b, le, p) && (field matches Field::Text(t) && text_at(
                    b,
                    le,
                    p,
                    t,
                )),
                Kind::Bytes => end == counted_end(b, le, p) && (field matches Field::Bytes(d)
                    && bytes_at(b, le, p, d)),
            }
        }),
{
    reveal(read);
    lemma_up(p);
    match kind {
        Kind::F64 => {
            lemma_num8(b, le, up8(p));
        },
        Kind::I32 => {
            lemma_num4(b, le, up4(p));
            let n = num4(b, le, up4(p)) as u32;
            assert(n as i32 as u32 == n) by (bit_vector);
        },
        Kind::F32 => {
            lemma_num4(b, le, up4(p));
        },
        Kind::Text => {
            lemma_num4(b, le, up4(p));
            let start = (up4(p) + 4) as int;
            let end = counted_end(b, le, p) as int;
            let bytes = b.subrange(start, end);
            if end > start && b[end - 1] == 0 {
                assert(bytes.drop_last() =~= b.subrange(start, end - 1));
                assert(bytes.last() == b[end - 1]);
            }
            if valid_utf8(without_null(bytes)) {
                decode_utf8_encode_utf8(without_null(bytes));
            }
        },
        Kind::Bytes => {
            lemma_num4(b, le, up4(p));
        },
        _ => {},
    }
}

/// Where the `i`-th field of a run starts to be looked for.
spec fn place(b: Seq<u8>, le: bool, p: nat, kinds: Seq<Kind>, i: int) -> nat {
    match read_run(b, le, p, kinds.take(i)) {
        Some((_, end)) => end,
        None => 0,
    }
}

/// The fields of a run that can be read.
spec fn run_fields(b: Seq<u8>, le: bool, p: nat, kinds: Seq<Kind>) -> Seq<Field> {
    match read_run(b, le, p, kinds) {
        Some((fields, _)) => fields,
        None => Seq::empty(),
    }
}

/// Each field of a run is read where the one before it ends.
proof fn lemma_nth(b: Seq<u8>, le: bool, p: nat, kinds: Seq<Kind>, i: int)
    requires
        read_run(b, le, p, kinds) is Some,
        0 <= i < kinds.len(),
    ensures
        ({
            let (fields, end) = read_run(b, le, p, kinds)->0;
            &&& fields.len() == kinds.len()
            &&& read(b, le, place(b, le, p, kinds, i), kinds[i]) == Some(
                (fields[i], place(b, le, p, kinds, i + 1)),
            )
            &&& place(b, le, p, kinds, 0) == p
            &&& place(b, le, p, kinds, kinds.len() as int) == end
        }),
    decreases kinds.len(),
{
    reveal(read_run);
    let rest = kinds.drop_last();
    let n = kinds.len() as int;
    assert(kinds.take(n) =~= kinds);
    assert(kinds.take(n - 1) =~= rest);
    assert(kinds.take(0) =~= Seq::empty());
    if n > 1 {
        let k = if i < n - 1 {
            i
        } else {
            0
        };
        lemma_nth(b, le, p, rest, k);
        assert(rest.take(k) =~= kinds.take(k));
        assert(rest.take(k + 1) =~= kinds.take(k + 1));
    } else {
        assert(rest =~= Seq::empty());
    }
}

/// 64-bit floats that follow each other in a run stand side by side.
proof fn lemma_doubles(b: Seq<u8>, le: bool, p: nat, kinds: Seq<Kind>, a: int, n: int)
    requires
        read_run(b, le, p, kinds) is Some,
        0 <= a,
        0 < n,
        a + n <= kinds.len(),
        forall|j: int| a <= j < a + n ==> #[trigger] kinds[j] == Kind::F64,
    ensures
        place(b, le, p, kinds, a + n) == up8(place(b, le, p, kinds, a)) + 8 * n,
        up8(place(b, le, p, kinds, a)) + 8 * n <= b.len(),
        forall|j: int|
            #![trigger run_fields(b, le, p, kinds)[a + j]]
            0 <= j < n ==> (run_fields(b, le, p, kinds)[a + j] matches Field::F64(bits)
                && double_at(
                b,
                le,
                (up8(place(b, le, p, kinds, a)) + 8 * j) as nat,
                F64 { bits },
            )),
    decreases n,
{
    let at = up8(place(b, le, p, kinds, a));
    let i = a + n - 1;
    lemma_nth(b, le, p, kinds, i);
    assert(kinds[i] == Kind::F64);
    lemma_read(b, le, place(b, le, p, kinds, i), Kind::F64);
    lemma_grid8(place(b, le, p, kinds, a), (n - 1) as nat);
    if n > 1 {
        lemma_doubles(b, le, p, kinds, a, n - 1);
    }
    assert forall|j: int|
        #![trigger run_fields(b, le, p, kinds)[a + j]]
        0 <= j < n implies (run_fields(b, le, p, kinds)[a + j] matches Field::F64(bits)
        && double_at(b, le, (at + 8 * j) as nat, F64 { bits })) by {
        if j == n - 1 {
            assert(up8(place(b, le, p, kinds, i)) == at + 8 * j);
        }
    }
}

// ------------------------------------------------------------- parts by number
spec fn part_place(b: Seq<u8>, le: bool, p: nat, parts: Seq<Part>, i: int) -> nat {
    match read_parts(b, le, p, parts.take(i)) {
        Some((_, end)) => end,
        None => 0,
    }
}

proof fn lemma_nth_part(b: Seq<u8>, le: bool, p: nat, parts: Seq<Part>, i: int)
    requires
        read_parts(b, le, p, parts) is Some,
        0 <= i < parts.len(),
    ensures
        ({
            let (chunks, end) = read_parts(b, le, p, parts)->0;
            &&& chunks.len() == parts.len()
            &&& read_part(b, le, part_place(b, le, p, parts, i), parts[i]) == Some(
                (chunks[i], part_place(b, le, p, parts, i + 1)),
            )
            &&& part_place(b, le, p, parts, 0) == p
            &&& part_place(b, le, p, parts, parts.len() as int) == end
        }),
    decreases parts.len(),
{
    reveal(read_parts);
    let rest = parts.drop_last();
    let n = parts.len() as int;
    assert(parts.take(n) =~= parts);
    assert(parts.take(n - 1) =~= rest);
    assert(parts.take(0) =~= Seq::empty());
    if n > 1 {
        let k = if i < n - 1 {
            i
        } else {
            0
        };
        lemma_nth_part(b, le, p, rest, k);
        assert(rest.take(k) =~= parts.take(k));
        assert(rest.take(k + 1) =~= parts.take(k + 1));
    } else {
        assert(rest =~= Seq::empty());
    }
}

spec fn item_place(b: Seq<u8>, le: bool, p: nat, kinds: Seq<Kind>, i: int) -> nat {
    match read_items(b, le, p, kinds, i as nat) {
        Some((_, end)) => end,
        None => 0,
    }
}

proof fn lemma_nth_item(b: Seq<u8>, le: bool, p: nat, kinds: Seq<Kind>, count: nat, i: int)
    requires
        read_items(b, le, p, kinds, count) is Some,
        0 <= i < count,
    ensures
        ({
            let (items, end) = read_items(b, le, p, kinds, count)->0;
            &&& items.len() == count
            &&& read_run(b, le, item_place(b, le, p, kinds, i), kinds) == Some(
                (items[i], item_place(b, le, p, kinds, i + 1)),
            )
            &&& item_place(b, le, p, kinds, 0) == p
            &&& item_place(b, le, p, kinds, count as int) == end
        }),
    decreases count,
{
    reveal(read_items);
    if count > 1 {
        let k = if i < count - 1 {
            i
        } else {
            0
        };
        lemma_nth_item(b, le, p, kinds, (count - 1) as nat, k);
    }
}

proof fn lemma_no_items(b: Seq<u8>, le: bool, p: nat, kinds: Seq<Kind>)
    ensures
        read_items(b, le, p, kinds, 0) == Some((Seq::<Seq<Field>>::empty(), p)),
{
    reveal(read_items);
}

/// A counted part: the count, and where its runs start.
proof fn lemma_many(b: Seq<u8>, le: bool, p: nat, kinds: Seq<Kind>)
    requires
        read_part(b, le, p, Part::Many(kinds)) is Some,
    ensures
        ({
            let (chunk, end) = read_part(b, le, p, Part::Many(kinds))->0;
            &&& up4(p) + 4 <= b.len()
            &&& chunk is Many
            &&& read_items(b, le, up4(p) + 4, kinds, num4(b, le, up4(p))) == Some(
                (chunk->Many_0, end),
            )
            &&& chunk->Many_0.len() == num4(b, le, up4(p))
        }),
{
    lemma_up(p);
    lemma_num4(b, le, up4(p));
    let count = num4(b, le, up4(p));
    if count > 0 {
        lemma_nth_item(b, le, up4(p) + 4, kinds, count, 0);
    } else {
        lemma_no_items(b, le, up4(p) + 4, kinds);
    }
}

// ------------------------------------------------------------- shared members
/// Whether a header stands at a place: its stamp and its frame.
pub open spec fn header_at(b: Seq<u8>, le: bool, p: nat, header: Header) -> bool {
    &&& int_at(b, le, p, header.stamp.sec)
    &&& int_at(b, le, up4(p) + 4, header.stamp.nsec)
    &&& text_at(b, le, up4(p) + 8, header.frame_id@)
}

/// Where a header ends.
pub open spec fn header_end(b: Seq<u8>, le: bool, p: nat) -> nat {
    counted_end(b, le, up4(p) + 8)
}

/// Whether a vector stands at a place.
pub open spec fn vector_at(b: Seq<u8>, le: bool, at: nat, v: Vector3) -> bool {
    double_at(b, le, at, v.x) && double_at(b, le, at + 8, v.y) && double_at(b, le, at + 16, v.z)
}

/// Whether a point stands at a place.
pub open spec fn point_at(b: Seq<u8>, le: bool, at: nat, v: Point) -> bool {
    double_at(b, le, at, v.x) && double_at(b, le, at + 8, v.y) && double_at(b, le, at + 16, v.z)
}

/// Whether a quaternion stands at a place.
pub open spec fn quaternion_at(b: Seq<u8>, le: bool, at: nat, q: Quaternion) -> bool {
    &&& double_at(b, le, at, q.x)
    &&& double_at(b, le, at + 8, q.y)
    &&& double_at(b, le, at + 16, q.z)
    &&& double_at(b, le, at + 24, q.w)
}

/// Whether a pose stands at a place.
pub open spec fn pose_at(b: Seq<u8>, le: bool, at: nat, pose: Pose) -> bool {
    point_at(b, le, at, pose.position) && quaternion_at(b, le, at + 24, pose.orientation)
}

/// Whether a transform stands at a place.
pub open spec fn transform_at(b: Seq<u8>, le: bool, at: nat, t: Transform) -> bool {
    vector_at(b, le, at, t.translation) && quaternion_at(b, le, at + 24, t.rotation)
}

/// Whether a twist stands at a place.
pub open spec fn twist_at(b: Seq<u8>, le: bool, at: nat, t: Twist) -> bool {
    vector_at(b, le, at, t.linear) && vector_at(b, le, at + 24, t.angular)
}

/// Whether a stamped pose stands at a place.
pub open spec fn pose_stamped_at(b: Seq<u8>, le: bool, p: nat, pose: PoseStamped) -> bool {
    &&& header_at(b, le, p, pose.header)
    &&& pose_at(b, le, up8(header_end(b, le, p)), pose.pose)
}

/// Where a stamped pose ends.
pub open spec fn pose_stamped_end(b: Seq<u8>, le: bool, p: nat) -> nat {
    up8(header_end(b, le, p)) + 56
}

/// Whether a stamped transform stands at a place.
pub open spec fn transform_stamped_at(b: Seq<u8>, le: bool, p: nat, t: TransformStamped) -> bool {
    let child = header_end(b, le, p);
    &&& header_at(b, le, p, t.header)
    &&& text_at(b, le, child, t.child_frame_id@)
    &&& transform_at(b, le, up8(counted_end(b, le, child)), t.transform)
}

/// Where a stamped transform ends.
pub open spec fn transform_stamped_end(b: Seq<u8>, le: bool, p: nat) -> nat {
    up8(counted_end(b, le, header_end(b, le, p))) + 56
}

/// Whether a field of a point cloud stands at a place.
pub open spec fn point_field_at(b: Seq<u8>, le: bool, p: nat, field: PointField) -> bool {
    let offset = counted_end(b, le, p);
    let datatype = up4(offset) + 4;
    &&& text_at(b, le, p, field.name@)
    &&& int_at(b, le, offset, field.offset)
    &&& byte(b, datatype) == field.datatype
    &&& int_at(b, le, datatype + 1, field.count)
}

/// Where a field of a point cloud ends.
pub open spec fn point_field_end(b: Seq<u8>, le: bool, p: nat) -> nat {
    up4(up4(counted_end(b, le, p)) + 5) + 4
}

// ----------------------------------------------------------------------- lists
/// Whether a list of 64-bit floats stands at a place, behind its count.
pub open spec fn double_list_at(b: Seq<u8>, le: bool, p: nat, values: Seq<F64>) -> bool {
    &&& values.len() == num4(b, le, up4(p))
    &&& doubles_at(b, le, up8(up4(p) + 4), values)
}

/// Where a list of 64-bit floats ends.
pub open spec fn double_list_end(b: Seq<u8>, le: bool, p: nat) -> nat {
    let count = num4(b, le, up4(p));
    if count == 0 {
        up4(p) + 4
    } else {
        up8(up4(p) + 4) + 8 * count
    }
}

/// Whether a list of 32-bit floats stands at a place, behind its count.
pub open spec fn float_list_at(b: Seq<u8>, le: bool, p: nat, values: Seq<F32>) -> bool {
    &&& values.len() == num4(b, le, up4(p))
    &&& forall|j: int|
        0 <= j < values.len() ==> float_at(b, le, (up4(p) + 4 + 4 * j) as nat, #[trigger] values[j])
}

/// Where a list of 32-bit floats ends.
pub open spec fn float_list_end(b: Seq<u8>, le: bool, p: nat) -> nat {
    up4(p) + 4 + 4 * num4(b, le, up4(p))
}

/// Where so many texts that follow each other end.
pub open spec fn texts_end(b: Seq<u8>, le: bool, p: nat, n: nat) -> nat
    decreases n,
{
    if n == 0 {
        p
    } else {
        counted_end(b, le, texts_end(b, le, p, (n - 1) as nat))
    }
}

/// Whether a list of texts stands at a place, behind its count: each text where the one before it ends.
pub open spec fn text_list_at(b: Seq<u8>, le: bool, p: nat, texts: Seq<String>) -> bool {
    &&& texts.len() == num4(b, le, up4(p))
    &&& forall|j: int|
        0 <= j < texts.len() ==> text_at(
            b,
            le,
            texts_end(b, le, up4(p) + 4, j as nat),
            (#[trigger] texts[j])@,
        )
}

/// Where so many stamped poses that follow each other end.
pub open spec fn poses_end(b: Seq<u8>, le: bool, p: nat, n: nat) -> nat
    decreases n,
{
    if n == 0 {
        p
    } else {
        pose_stamped_end(b, le, poses_end(b, le, p, (n - 1) as nat))
    }
}

/// Where so many stamped transforms that follow each other end.
pub open spec fn transforms_end(b: Seq<u8>, le: bool, p: nat, n: nat) -> nat
    decreases n,
{
    if n == 0 {
        p
    } else {
        transform_stamped_end(b, le, transforms_end(b, le, p, (n - 1) as nat))
    }
}

/// Where so many fields of a point cloud that follow each other end.
pub open spec fn point_fields_end(b: Seq<u8>, le: bool, p: nat, n: nat) -> nat
    decreases n,
{
    if n == 0 {
        p
    } else {
        point_field_end(b, le, point_fields_end(b, le, p, (n - 1) as nat))
    }
}

// -------------------------------------------------------------------- messages
/// Whether an odometry message stands at the start of these bytes.
pub open spec fn odometry_at(b: Seq<u8>, le: bool, message: Odometry) -> bool {
    let child = header_end(b, le, 0);
    let at = up8(counted_end(b, le, child));
    &&& header_at(b, le, 0, message.header)
    &&& text_at(b, le, child, message.child_frame_id@)
    &&& pose_at(b, le, at, message.pose.pose)
    &&& doubles_at(b, le, at + 56, message.pose.covariance@)
    &&& twist_at(b, le, at + 344, message.twist.twist)
    &&& doubles_at(b, le, at + 392, message.twist.covariance@)
}

/// Whether the matrices, the binning and the region of interest of a camera stand at a place.
pub open spec fn camera_matrices_at(b: Seq<u8>, le: bool, at: nat, message: CameraInfo) -> bool {
    &&& doubles_at(b, le, at, message.k@)
    &&& doubles_at(b, le, at + 72, message.r@)
    &&& doubles_at(b, le, at + 144, message.p@)
    &&& int_at(b, le, at + 240, message.binning_x)
    &&& int_at(b, le, at + 244, message.binning_y)
    &&& int_at(b, le, at + 248, message.roi.x_offset)
    &&& int_at(b, le, at + 252, message.roi.y_offset)
    &&& int_at(b, le, at + 256, message.roi.height)
    &&& int_at(b, le, at + 260, message.roi.width)
    &&& message.roi.do_rectify <==> byte(b, at + 264) != 0
}

/// Whether an inertial message stands at the start of these bytes.
pub open spec fn imu_at(b: Seq<u8>, le: bool, message: Imu) -> bool {
    let at = up8(header_end(b, le, 0));
    &&& header_at(b, le, 0, message.header)
    &&& quaternion_at(b, le, at, message.orientation)
    &&& doubles_at(b, le, at + 32, message.orientation_covariance@)
    &&& vector_at(b, le, at + 104, message.angular_velocity)
    &&& doubles_at(b, le, at + 128, message.angular_velocity_covariance@)
    &&& vector_at(b, le, at + 200, message.linear_acceleration)
    &&& doubles_at(b, le, at + 224, message.linear_acceleration_covariance@)
}

/// Whether an image stands at the start of these bytes.
pub open spec fn image_at(b: Seq<u8>, le: bool, message: Image) -> bool {
    let at = up4(header_end(b, le, 0));
    let order = counted_end(b, le, at + 8);
    &&& header_at(b, le, 0, message.header)
    &&& int_at(b, le, at, message.height)
    &&& int_at(b, le, at + 4, message.width)
    &&& text_at(b, le, at + 8, message.encoding@)
    &&& byte(b, order) == message.is_bigendian
    &&& int_at(b, le, order + 1, message.step)
    &&& bytes_at(b, le, up4(order + 1) + 4, message.data@)
}

/// Whether a compressed image stands at the start of these bytes.
pub open spec fn compressed_image_at(b: Seq<u8>, le: bool, message: CompressedImage) -> bool {
    let at = header_end(b, le, 0);
    &&& header_at(b, le, 0, message.header)
    &&& text_at(b, le, at, message.format@)
    &&& bytes_at(b, le, counted_end(b, le, at), message.data@)
}

/// Whether a path stands at the start of these bytes.
pub open spec fn path_at(b: Seq<u8>, le: bool, message: Path) -> bool {
    let at = up4(header_end(b, le, 0));
    &&& header_at(b, le, 0, message.header)
    &&& message.poses@.len() == num4(b, le, at)
    &&& forall|i: int|
        0 <= i < message.poses@.len() ==> pose_stamped_at(
            b,
            le,
            poses_end(b, le, at + 4, i as nat),
            #[trigger] message.poses@[i],
        )
}

/// Whether a `tf` message stands at the start of these bytes.
pub open spec fn tf_message_at(b: Seq<u8>, le: bool, message: TFMessage) -> bool {
    &&& message.transforms@.len() == num4(b, le, 0)
    &&& forall|i: int|
        0 <= i < message.transforms@.len() ==> transform_stamped_at(
            b,
            le,
            transforms_end(b, le, 4, i as nat),
            #[trigger] message.transforms@[i],
        )
}

/// Whether the state of joints stands at the start of these bytes.
pub open spec fn joint_state_at(b: Seq<u8>, le: bool, message: JointState) -> bool {
    let names = header_end(b, le, 0);
    let positions = texts_end(b, le, up4(names) + 4, num4(b, le, up4(names)));
    let velocities = double_list_end(b, le, positions);
    let efforts = double_list_end(b, le, velocities);
    &&& header_at(b, le, 0, message.header)
    &&& text_list_at(b, le, names, message.name@)
    &&& double_list_at(b, le, positions, message.position@)
    &&& double_list_at(b, le, velocities, message.velocity@)
    &&& double_list_at(b, le, efforts, message.effort@)
}

/// Whether a laser scan stands at the start of these bytes.
pub open spec fn laser_scan_at(b: Seq<u8>, le: bool, message: LaserScan) -> bool {
    let at = up4(header_end(b, le, 0));
    let intensities = float_list_end(b, le, at + 28);
    &&& header_at(b, le, 0, message.header)
    &&& float_at(b, le, at, message.angle_min)
    &&& float_at(b, le, at + 4, message.angle_max)
    &&& float_at(b, le, at + 8, message.angle_increment)
    &&& float_at(b, le, at + 12, message.time_increment)
    &&& float_at(b, le, at + 16, message.scan_time)
    &&& float_at(b, le, at + 20, message.range_min)
    &&& float_at(b, le, at + 24, message.range_max)
    &&& float_list_at(b, le, at + 28, message.ranges@)
    &&& float_list_at(b, le, intensities, message.intensities@)
}

/// Whether a point cloud stands at the start of these bytes.
pub open spec fn point_cloud_at(b: Seq<u8>, le: bool, message: PointCloud2) -> bool {
    let at = up4(header_end(b, le, 0));
    let order = point_fields_end(b, le, at + 12, num4(b, le, at + 8));
    let steps = up4(order + 1);
    &&& header_at(b, le, 0, message.header)
    &&& int_at(b, le, at, message.height)
    &&& int_at(b, le, at + 4, message.width)
    &&& message.fields@.len() == num4(b, le, at + 8)
    &&& forall|i: int|
        0 <= i < message.fields@.len() ==> point_field_at(
            b,
            le,
            point_fields_end(b, le, at + 12, i as nat),
            #[trigger] message.fields@[i],
        )
    &&& message.is_bigendian <==> byte(b, order) != 0
    &&& int_at(b, le, steps, message.point_step)
    &&& int_at(b, le, steps + 4, message.row_step)
    &&& bytes_at(b, le, steps + 8, message.data@)
    &&& message.is_dense <==> byte(b, counted_end(b, le, steps + 8)) != 0
}

/// Whether what is known of a camera stands at the start of these bytes.
pub open spec fn camera_info_at(b: Seq<u8>, le: bool, message: CameraInfo) -> bool {
    let start = up4(header_end(b, le, 0));
    let params = counted_end(b, le, start + 8);
    let at = up8(double_list_end(b, le, params));
    &&& header_at(b, le, 0, message.header)
    &&& int_at(b, le, start, message.height)
    &&& int_at(b, le, start + 4, message.width)
    &&& text_at(b, le, start + 8, message.distortion_model@)
    &&& double_list_at(b, le, params, message.d@)
    &&& camera_matrices_at(b, le, at, message)
}

/// Whether a message stands in a payload, each of its members where its definition puts it.
pub open spec fn stands_in(payload: Seq<u8>, message: Message) -> bool {
    let (b, le) = (body(payload), little(payload));
    match message {
        Message::PoseStamped(message) => pose_stamped_at(b, le, 0, message),
        Message::TransformStamped(message) => transform_stamped_at(b, le, 0, message),
        Message::Odometry(message) => odometry_at(b, le, message),
        Message::Path(message) => path_at(b, le, message),
        Message::CameraInfo(message) => camera_info_at(b, le, message),
        Message::CompressedImage(message) => compressed_image_at(b, le, message),
        Message::Image(message) => image_at(b, le, message),
        Message::Imu(message) => imu_at(b, le, message),
        Message::JointState(message) => joint_state_at(b, le, message),
        Message::LaserScan(message) => laser_scan_at(b, le, message),
        Message::PointCloud2(message) => point_cloud_at(b, le, message),
        Message::TFMessage(message) => tf_message_at(b, le, message),
    }
}

// -------------------------------------------------------------------- the runs
proof fn step_int(
    b: Seq<u8>,
    le: bool,
    p: nat,
    kinds: Seq<Kind>,
    i: int,
    q: nat,
    value: i32,
)
    requires
        read_run(b, le, p, kinds) is Some,
        0 <= i < kinds.len(),
        kinds[i] == Kind::I32,
        run_fields(b, le, p, kinds)[i] == Field::I32(value),
        place(b, le, p, kinds, i) == q,
    ensures
        int_at(b, le, q, value),
        place(b, le, p, kinds, i + 1) == up4(q) + 4,
{
    lemma_nth(b, le, p, kinds, i);
    lemma_read(b, le, q, Kind::I32);
}

proof fn step_float(
    b: Seq<u8>,
    le: bool,
    p: nat,
    kinds: Seq<Kind>,
    i: int,
    q: nat,
    value: F32,
)
    requires
        read_run(b, le, p, kinds) is Some,
        0 <= i < kinds.len(),
        kinds[i] == Kind::F32,
        run_fields(b, le, p, kinds)[i] == Field::F32(value.bits),
        place(b, le, p, kinds, i) == q,
    ensures
        float_at(b, le, q, value),
        place(b, le, p, kinds, i + 1) == up4(q) + 4,
{
    lemma_nth(b, le, p, kinds, i);
    lemma_read(b, le, q, Kind::F32);
}

proof fn step_text(
    b: Seq<u8>,
    le: bool,
    p: nat,
    kinds: Seq<Kind>,
    i: int,
    q: nat,
    value: Seq<char>,
)
    requires
        read_run(b, le, p, kinds) is Some,
        0 <= i < kinds.len(),
        kinds[i] == Kind::Text,
        run_fields(b, le, p, kinds)[i] == Field::Text(value),
        place(b, le, p, kinds, i) == q,
    ensures
        text_at(b, le, q, value),
        place(b, le, p, kinds, i + 1) == counted_end(b, le, q),
{
    lemma_nth(b, le, p, kinds, i);
    lemma_read(b, le, q, Kind::Text);
}

proof fn step_bytes(
    b: Seq<u8>,
    le: bool,
    p: nat,
    kinds: Seq<Kind>,
    i: int,
    q: nat,
    value: Seq<u8>,
)
    requires
        read_run(b, le, p, kinds) is Some,
        0 <= i < kinds.len(),
        kinds[i] == Kind::Bytes,
        run_fields(b, le, p, kinds)[i] == Field::Bytes(value),
        place(b, le, p, kinds, i) == q,
    ensures
        bytes_at(b, le, q, value),
        place(b, le, p, kinds, i + 1) == counted_end(b, le, q),
{
    lemma_nth(b, le, p, kinds, i);
    lemma_read(b, le, q, Kind::Bytes);
}

proof fn step_byte(
    b: Seq<u8>,
    le: bool,
    p: nat,
    kinds: Seq<Kind>,
    i: int,
    q: nat,
    value: u8,
)
    requires
        read_run(b, le, p, kinds) is Some,
        0 <= i < kinds.len(),
        kinds[i] == Kind::U8,
        run_fields(b, le, p, kinds)[i] == Field::U8(value),
        place(b, le, p, kinds, i) == q,
    ensures
        byte(b, q) == value,
        place(b, le, p, kinds, i + 1) == q + 1,
{
    lemma_nth(b, le, p, kinds, i);
    lemma_read(b, le, q, Kind::U8);
}

proof fn step_flag(
    b: Seq<u8>,
    le: bool,
    p: nat,
    kinds: Seq<Kind>,
    i: int,
    q: nat,
    value: bool,
)
    requires
        read_run(b, le, p, kinds) is Some,
        0 <= i < kinds.len(),
        kinds[i] == Kind::Bool,
        run_fields(b, le, p, kinds)[i] == Field::Bool(value),
        place(b, le, p, kinds, i) == q,
    ensures
        value <==> byte(b, q) != 0,
        place(b, le, p, kinds, i + 1) == q + 1,
{
    lemma_nth(b, le, p, kinds, i);
    lemma_read(b, le, q, Kind::Bool);
}

/// The header that opens a run.
proof fn lemma_header(b: Seq<u8>, le: bool, p: nat, kinds: Seq<Kind>, header: Header)
    requires
        read_run(b, le, p, kinds) is Some,
        kinds.len() >= 3,
        kinds[0] == Kind::I32,
        kinds[1] == Kind::I32,
        kinds[2] == Kind::Text,
        run_fields(b, le, p, kinds)[0] == Field::I32(header.stamp.sec),
        run_fields(b, le, p, kinds)[1] == Field::I32(header.stamp.nsec),
        run_fields(b, le, p, kinds)[2] == Field::Text(header.frame_id@),
    ensures
        header_at(b, le, p, header),
        place(b, le, p, kinds, 3) == header_end(b, le, p),
{
    lemma_grid(p, 1);
    lemma_grid(p, 2);
    lemma_nth(b, le, p, kinds, 0);
    lemma_nth(b, le, p, kinds, 1);
    lemma_nth(b, le, p, kinds, 2);
    lemma_read(b, le, p, Kind::I32);
    lemma_read(b, le, up4(p) + 4, Kind::I32);
    lemma_read(b, le, up4(p) + 8, Kind::Text);
}

proof fn lemma_pose_stamped(b: Seq<u8>, le: bool, p: nat, pose: PoseStamped, end: nat)
    requires
        read_run(b, le, p, PoseStamped::kinds()) == Some((pose.fields(), end)),
    ensures
        pose_stamped_at(b, le, p, pose),
        end == pose_stamped_end(b, le, p),
{
    let kinds = PoseStamped::kinds();
    let f = pose.fields();
    lemma_header(b, le, p, kinds, pose.header);
    lemma_doubles(b, le, p, kinds, 3, 7);
    lemma_nth(b, le, p, kinds, 0);
    assert(f[3int + 0] is F64 && f[3int + 1] is F64 && f[3int + 2] is F64);
    assert(f[3int + 3] is F64 && f[3int + 4] is F64 && f[3int + 5] is F64 && f[3int + 6] is F64);
}

proof fn lemma_transform_stamped(b: Seq<u8>, le: bool, p: nat, t: TransformStamped, end: nat)
    requires
        read_run(b, le, p, TransformStamped::kinds()) == Some((t.fields(), end)),
    ensures
        transform_stamped_at(b, le, p, t),
        end == transform_stamped_end(b, le, p),
{
    let kinds = TransformStamped::kinds();
    let f = t.fields();
    lemma_header(b, le, p, kinds, t.header);
    lemma_nth(b, le, p, kinds, 3);
    lemma_read(b, le, header_end(b, le, p), Kind::Text);
    lemma_doubles(b, le, p, kinds, 4, 7);
    assert(f[4int + 0] is F64 && f[4int + 1] is F64 && f[4int + 2] is F64);
    assert(f[4int + 3] is F64 && f[4int + 4] is F64 && f[4int + 5] is F64 && f[4int + 6] is F64);
}

proof fn lemma_point_field(b: Seq<u8>, le: bool, p: nat, field: PointField, end: nat)
    requires
        read_run(b, le, p, PointField::kinds()) == Some((field.fields(), end)),
    ensures
        point_field_at(b, le, p, field),
        end == point_field_end(b, le, p),
{
    let kinds = PointField::kinds();
    lemma_nth(b, le, p, kinds, 0);
    lemma_nth(b, le, p, kinds, 1);
    lemma_nth(b, le, p, kinds, 2);
    lemma_nth(b, le, p, kinds, 3);
    let q = counted_end(b, le, p);
    lemma_read(b, le, p, Kind::Text);
    lemma_read(b, le, q, Kind::I32);
    lemma_read(b, le, up4(q) + 4, Kind::U8);
    lemma_read(b, le, up4(q) + 5, Kind::I32);
}

// ------------------------------------------------------------------- the lists
proof fn lemma_double_list(b: Seq<u8>, le: bool, p: nat, values: Seq<F64>, end: nat)
    requires
        read_part(b, le, p, Part::Many(F64::kinds())) == Some(
            (Chunk::Many(items_of(values)), end),
        ),
    ensures
        double_list_at(b, le, p, values),
        end == double_list_end(b, le, p),
{
    let kinds = F64::kinds();
    let start = up4(p) + 4;
    let count = num4(b, le, up4(p));
    lemma_many(b, le, p, kinds);
    assert(items_of(values).len() == values.len());
    lemma_doubles_in_list(b, le, start, values, count);
    lemma_no_items(b, le, start, kinds);
    if count > 0 {
        lemma_nth_item(b, le, start, kinds, count, 0);
    }
    assert forall|j: int| 0 <= j < values.len() implies double_at(
        b,
        le,
        (up8(start) + 8 * j) as nat,
        #[trigger] values[j],
    ) by {
        lemma_doubles_in_list(b, le, start, values, j as nat);
        lemma_nth_item(b, le, start, kinds, count, j);
        assert(items_of(values)[j] == values[j].fields());
        let q = item_place(b, le, start, kinds, j);
        lemma_nth(b, le, q, kinds, 0);
        lemma_read(b, le, q, Kind::F64);
        lemma_grid8(start, j as nat);
        assert(up8(q) == up8(start) + 8 * j);
    }
}

/// Where a 64-bit float of a list starts to be looked for.
proof fn lemma_doubles_in_list(b: Seq<u8>, le: bool, start: nat, values: Seq<F64>, j: nat)
    requires
        read_items(b, le, start, F64::kinds(), values.len()) is Some,
        j <= values.len(),
    ensures
        item_place(b, le, start, F64::kinds(), j as int) == (if j == 0 {
            start
        } else {
            up8(start) + 8 * j
        }),
    decreases j,
{
    let kinds = F64::kinds();
    lemma_no_items(b, le, start, kinds);
    if j > 0 {
        lemma_doubles_in_list(b, le, start, values, (j - 1) as nat);
        lemma_nth_item(b, le, start, kinds, values.len(), j - 1);
        let q = item_place(b, le, start, kinds, j - 1);
        lemma_nth(b, le, q, kinds, 0);
        lemma_read(b, le, q, Kind::F64);
        lemma_grid8(start, (j - 1) as nat);
    }
}

proof fn lemma_float_list(b: Seq<u8>, le: bool, p: nat, values: Seq<F32>, end: nat)
    requires
        read_part(b, le, p, Part::Many(F32::kinds())) == Some(
            (Chunk::Many(items_of(values)), end),
        ),
    ensures
        float_list_at(b, le, p, values),
        end == float_list_end(b, le, p),
{
    let kinds = F32::kinds();
    let start = up4(p) + 4;
    lemma_up(p);
    let count = num4(b, le, up4(p));
    lemma_many(b, le, p, kinds);
    assert(items_of(values).len() == values.len());
    lemma_floats_in_list(b, le, start, values, count);
    lemma_no_items(b, le, start, kinds);
    if count > 0 {
        lemma_nth_item(b, le, start, kinds, count, 0);
    }
    assert forall|j: int| 0 <= j < values.len() implies float_at(
        b,
        le,
        (start + 4 * j) as nat,
        #[trigger] values[j],
    ) by {
        lemma_floats_in_list(b, le, start, values, j as nat);
        lemma_nth_item(b, le, start, kinds, count, j);
        assert(items_of(values)[j] == values[j].fields());
        let q = item_place(b, le, start, kinds, j);
        lemma_nth(b, le, q, kinds, 0);
        lemma_read(b, le, q, Kind::F32);
    }
}

/// Where a 32-bit float of a list stands.
proof fn lemma_floats_in_list(b: Seq<u8>, le: bool, start: nat, values: Seq<F32>, j: nat)
    requires
        read_items(b, le, start, F32::kinds(), values.len()) is Some,
        j <= values.len(),
        start % 4 == 0,
    ensures
        item_place(b, le, start, F32::kinds(), j as int) == start + 4 * j,
    decreases j,
{
    let kinds = F32::kinds();
    lemma_no_items(b, le, start, kinds);
    if j > 0 {
        lemma_floats_in_list(b, le, start, values, (j - 1) as nat);
        lemma_nth_item(b, le, start, kinds, values.len(), j - 1);
        let q = item_place(b, le, start, kinds, j - 1);
        lemma_nth(b, le, q, kinds, 0);
        lemma_read(b, le, q, Kind::F32);
        lemma_up(q);
    }
}

proof fn lemma_text_list(b: Seq<u8>, le: bool, p: nat, texts: Seq<String>, end: nat)
    requires
        read_part(b, le, p, Part::Many(String::kinds())) == Some(
            (Chunk::Many(items_of(texts)), end),
        ),
    ensures
        text_list_at(b, le, p, texts),
        end == texts_end(b, le, up4(p) + 4, texts.len()),
{
    let kinds = String::kinds();
    let start = up4(p) + 4;
    let count = num4(b, le, up4(p));
    lemma_many(b, le, p, kinds);
    assert(items_of(texts).len() == texts.len());
    lemma_texts_in_list(b, le, start, count, count);
    lemma_no_items(b, le, start, kinds);
    if count > 0 {
        lemma_nth_item(b, le, start, kinds, count, 0);
    }
    assert forall|j: int| 0 <= j < texts.len() implies text_at(
        b,
        le,
        texts_end(b, le, start, j as nat),
        (#[trigger] texts[j])@,
    ) by {
        lemma_texts_in_list(b, le, start, count, j as nat);
        lemma_nth_item(b, le, start, kinds, count, j);
        assert(items_of(texts)[j] == texts[j].fields());
        let q = item_place(b, le, start, kinds, j);
        lemma_nth(b, le, q, kinds, 0);
        lemma_read(b, le, q, Kind::Text);
    }
}

proof fn lemma_texts_in_list(b: Seq<u8>, le: bool, start: nat, count: nat, j: nat)
    requires
        read_items(b, le, start, String::kinds(), count) is Some,
        j <= count,
    ensures
        item_place(b, le, start, String::kinds(), j as int) == texts_end(b, le, start, j),
    decreases j,
{
    let kinds = String::kinds();
    lemma_no_items(b, le, start, kinds);
    if j > 0 {
        lemma_texts_in_list(b, le, start, count, (j - 1) as nat);
        lemma_nth_item(b, le, start, kinds, count, j - 1);
        let q = item_place(b, le, start, kinds, j - 1);
        lemma_nth(b, le, q, kinds, 0);
        lemma_read(b, le, q, Kind::Text);
    }
}

proof fn lemma_poses_in_list(b: Seq<u8>, le: bool, start: nat, poses: Seq<PoseStamped>, j: nat)
    requires
        read_items(b, le, start, PoseStamped::kinds(), poses.len()) matches Some((items, _)) && items
            == items_of(poses),
        j <= poses.len(),
    ensures
        item_place(b, le, start, PoseStamped::kinds(), j as int) == poses_end(b, le, start, j),
        forall|i: int|
            0 <= i < j ==> pose_stamped_at(
                b,
                le,
                poses_end(b, le, start, i as nat),
                #[trigger] poses[i],
            ),
    decreases j,
{
    let kinds = PoseStamped::kinds();
    lemma_no_items(b, le, start, kinds);
    if j > 0 {
        lemma_poses_in_list(b, le, start, poses, (j - 1) as nat);
        lemma_nth_item(b, le, start, kinds, poses.len(), j - 1);
        assert(items_of(poses)[j - 1] == poses[j - 1].fields());
        lemma_pose_stamped(
            b,
            le,
            item_place(b, le, start, kinds, j - 1),
            poses[j - 1],
            item_place(b, le, start, kinds, j as int),
        );
    }
}

proof fn lemma_transforms_in_list(
    b: Seq<u8>,
    le: bool,
    start: nat,
    list: Seq<TransformStamped>,
    j: nat,
)
    requires
        read_items(b, le, start, TransformStamped::kinds(), list.len()) matches Some((items, _))
            && items == items_of(list),
        j <= list.len(),
    ensures
        item_place(b, le, start, TransformStamped::kinds(), j as int) == transforms_end(
            b,
            le,
            start,
            j,
        ),
        forall|i: int|
            0 <= i < j ==> transform_stamped_at(
                b,
                le,
                transforms_end(b, le, start, i as nat),
                #[trigger] list[i],
            ),
    decreases j,
{
    let kinds = TransformStamped::kinds();
    lemma_no_items(b, le, start, kinds);
    if j > 0 {
        lemma_transforms_in_list(b, le, start, list, (j - 1) as nat);
        lemma_nth_item(b, le, start, kinds, list.len(), j - 1);
        assert(items_of(list)[j - 1] == list[j - 1].fields());
        lemma_transform_stamped(
            b,
            le,
            item_place(b, le, start, kinds, j - 1),
            list[j - 1],
            item_place(b, le, start, kinds, j as int),
        );
    }
}

proof fn lemma_point_fields_in_list(
    b: Seq<u8>,
    le: bool,
    start: nat,
    list: Seq<PointField>,
    j: nat,
)
    requires
        read_items(b, le, start, PointField::kinds(), list.len()) matches Some((items, _)) && items
            == items_of(list),
        j <= list.len(),
    ensures
        item_place(b, le, start, PointField::kinds(), j as int) == point_fields_end(b, le, start, j),
        forall|i: int|
            0 <= i < j ==> point_field_at(
                b,
                le,
                point_fields_end(b, le, start, i as nat),
                #[trigger] list[i],
            ),
    decreases j,
{
    let kinds = PointField::kinds();
    lemma_no_items(b, le, start, kinds);
    if j > 0 {
        lemma_point_fields_in_list(b, le, start, list, (j - 1) as nat);
        lemma_nth_item(b, le, start, kinds, list.len(), j - 1);
        assert(items_of(list)[j - 1] == list[j - 1].fields());
        lemma_point_field(
            b,
            le,
            item_place(b, le, start, kinds, j - 1),
            list[j - 1],
            item_place(b, le, start, kinds, j as int),
        );
    }
}

// ----------------------------------------------------------------------- laws
/// Whether a payload is read as this message.
pub open spec fn holds(payload: Seq<u8>, message: Message) -> bool {
    transcoded(message.message_type(), payload) == Some(message.content())
}

/// What follows the header that says in which order the bytes of a number come.
pub open spec fn body(payload: Seq<u8>) -> Seq<u8> {
    payload.subrange(4, payload.len() as int)
}

/// Whether the least significant byte of a number comes first.
pub open spec fn little(payload: Seq<u8>) -> bool {
    payload[1] % 2 == 1
}

/// A message that is one run of fields.
proof fn lemma_one_run(payload: Seq<u8>, message: Message, kinds: Seq<Kind>, fields: Seq<Field>)
    requires
        payload.len() >= 4,
        holds(payload, message),
        message.message_type().parts() == part(Part::Run(kinds)),
        message.content() == chunk(Chunk::Run(fields)),
    ensures
        read_run(body(payload), little(payload), 0, kinds) matches Some((f, _)) && f == fields,
{
    broadcast use group_parts;

    assert(body_of(payload) =~= body(payload));
    let content = message.content();
    assert(content[0] == Chunk::Run(fields));
    assert(forall|c: Chunk| #[trigger] chunk(c)[0] == c);
}

/// A message of several parts.
proof fn lemma_parts(payload: Seq<u8>, message: Message)
    requires
        payload.len() >= 4,
        holds(payload, message),
    ensures
        read_parts(body(payload), little(payload), 0, message.message_type().parts()) matches Some(
            (c, _),
        ) && c == message.content(),
{
    assert(body_of(payload) =~= body(payload));
}

/// A stamped pose: the header, the position and the orientation.
pub proof fn law_members_of_a_pose_stamped(payload: Seq<u8>, message: PoseStamped)
    requires
        payload.len() >= 4,
        holds(payload, Message::PoseStamped(message)),
    ensures
        pose_stamped_at(body(payload), little(payload), 0, message),
{
    let (b, le) = (body(payload), little(payload));
    let kinds = PoseStamped::kinds();
    lemma_one_run(payload, Message::PoseStamped(message), kinds, message.fields());
    lemma_nth(b, le, 0, kinds, 0);
    lemma_pose_stamped(b, le, 0, message, place(b, le, 0, kinds, kinds.len() as int));
}

/// A stamped transform: the header, the child frame, the translation and the rotation.
pub proof fn law_members_of_a_transform_stamped(payload: Seq<u8>, message: TransformStamped)
    requires
        payload.len() >= 4,
        holds(payload, Message::TransformStamped(message)),
    ensures
        transform_stamped_at(body(payload), little(payload), 0, message),
{
    let (b, le) = (body(payload), little(payload));
    let kinds = TransformStamped::kinds();
    lemma_one_run(payload, Message::TransformStamped(message), kinds, message.fields());
    lemma_nth(b, le, 0, kinds, 0);
    lemma_transform_stamped(b, le, 0, message, place(b, le, 0, kinds, kinds.len() as int));
}

proof fn lemma_odometry_fields(m: Odometry)
    ensures
        Odometry::kinds().len() == 89,
        Odometry::kinds()[0] == Kind::I32,
        Odometry::kinds()[1] == Kind::I32,
        Odometry::kinds()[2] == Kind::Text,
        Odometry::kinds()[3] == Kind::Text,
        forall|j: int| 4 <= j < 89 ==> #[trigger] Odometry::kinds()[j] == Kind::F64,
        m.fields()[0] == Field::I32(m.header.stamp.sec),
        m.fields()[1] == Field::I32(m.header.stamp.nsec),
        m.fields()[2] == Field::Text(m.header.frame_id@),
        m.fields()[3] == Field::Text(m.child_frame_id@),
        m.fields()[4] == Field::F64(m.pose.pose.position.x.bits),
        m.fields()[5] == Field::F64(m.pose.pose.position.y.bits),
        m.fields()[6] == Field::F64(m.pose.pose.position.z.bits),
        m.fields()[7] == Field::F64(m.pose.pose.orientation.x.bits),
        m.fields()[8] == Field::F64(m.pose.pose.orientation.y.bits),
        m.fields()[9] == Field::F64(m.pose.pose.orientation.z.bits),
        m.fields()[10] == Field::F64(m.pose.pose.orientation.w.bits),
        forall|j: int|
            11 <= j < 47 ==> #[trigger] m.fields()[j] == Field::F64(m.pose.covariance@[j - 11].bits),
        m.fields()[47] == Field::F64(m.twist.twist.linear.x.bits),
        m.fields()[48] == Field::F64(m.twist.twist.linear.y.bits),
        m.fields()[49] == Field::F64(m.twist.twist.linear.z.bits),
        m.fields()[50] == Field::F64(m.twist.twist.angular.x.bits),
        m.fields()[51] == Field::F64(m.twist.twist.angular.y.bits),
        m.fields()[52] == Field::F64(m.twist.twist.angular.z.bits),
        forall|j: int|
            53 <= j < 89 ==> #[trigger] m.fields()[j] == Field::F64(
                m.twist.covariance@[j - 53].bits,
            ),
{
    assert(m.pose.covariance@.len() == 36 && m.twist.covariance@.len() == 36);
}

proof fn lemma_odometry(b: Seq<u8>, le: bool, kinds: Seq<Kind>, f: Seq<Field>, m: Odometry)
    requires
        kinds == Odometry::kinds(),
        f == m.fields(),
        read_run(b, le, 0, kinds) matches Some((g, _)) && g == f,
    ensures
        odometry_at(b, le, m),
{
    lemma_odometry_fields(m);
    lemma_header(b, le, 0, kinds, m.header);
    step_text(b, le, 0, kinds, 3, header_end(b, le, 0), m.child_frame_id@);
    lemma_doubles(b, le, 0, kinds, 4, 85);
    let at = up8(place(b, le, 0, kinds, 4));
    assert(f[4int + 0] is F64 && f[4int + 1] is F64 && f[4int + 2] is F64);
    assert(f[4int + 3] is F64 && f[4int + 4] is F64 && f[4int + 5] is F64 && f[4int + 6] is F64);
    assert(f[4int + 43] is F64 && f[4int + 44] is F64 && f[4int + 45] is F64);
    assert(f[4int + 46] is F64 && f[4int + 47] is F64 && f[4int + 48] is F64);
    assert forall|j: int| 0 <= j < 36 implies double_at(
        b,
        le,
        (at + 56 + 8 * j) as nat,
        #[trigger] m.pose.covariance@[j],
    ) by {
        assert(f[4 + (7 + j)] == Field::F64(m.pose.covariance@[j].bits));
    }
    assert forall|j: int| 0 <= j < 36 implies double_at(
        b,
        le,
        (at + 392 + 8 * j) as nat,
        #[trigger] m.twist.covariance@[j],
    ) by {
        assert(f[4 + (49 + j)] == Field::F64(m.twist.covariance@[j].bits));
    }
}

/// An odometry message: the header, the child frame, the pose with the 36 numbers of its covariance, and
/// the twist with the 36 of its own, the linear part before the angular one.
pub proof fn law_members_of_an_odometry(payload: Seq<u8>, message: Odometry)
    requires
        payload.len() >= 4,
        holds(payload, Message::Odometry(message)),
    ensures
        odometry_at(body(payload), little(payload), message),
{
    let (b, le) = (body(payload), little(payload));
    lemma_one_run(payload, Message::Odometry(message), Odometry::kinds(), message.fields());
    lemma_odometry(b, le, Odometry::kinds(), message.fields(), message);
}

/// An inertial message: behind the header come the orientation and its covariance, then the angular
/// velocity, from the 14th number on, and its covariance, then the linear acceleration, from the 26th on,
/// and its covariance.
pub proof fn law_members_of_an_imu(payload: Seq<u8>, message: Imu)
    requires
        payload.len() >= 4,
        holds(payload, Message::Imu(message)),
    ensures
        imu_at(body(payload), little(payload), message),
{
    let (b, le) = (body(payload), little(payload));
    let kinds = Imu::kinds();
    let f = message.fields();
    lemma_one_run(payload, Message::Imu(message), kinds, f);
    lemma_header(b, le, 0, kinds, message.header);
    lemma_doubles(b, le, 0, kinds, 3, 37);
    assert(f[3int + 0] is F64 && f[3int + 1] is F64 && f[3int + 2] is F64 && f[3int + 3] is F64);
    assert(f[3int + 13] is F64 && f[3int + 14] is F64 && f[3int + 15] is F64);
    assert(f[3int + 25] is F64 && f[3int + 26] is F64 && f[3int + 27] is F64);
    let at = up8(place(b, le, 0, kinds, 3));
    assert forall|j: int| 0 <= j < 9 implies double_at(
        b,
        le,
        (at + 32 + 8 * j) as nat,
        #[trigger] message.orientation_covariance@[j],
    ) by {
        assert(f[3 + (4 + j)] == Field::F64(message.orientation_covariance@[j].bits));
    }
    assert forall|j: int| 0 <= j < 9 implies double_at(
        b,
        le,
        (at + 128 + 8 * j) as nat,
        #[trigger] message.angular_velocity_covariance@[j],
    ) by {
        assert(f[3 + (16 + j)] == Field::F64(message.angular_velocity_covariance@[j].bits));
    }
    assert forall|j: int| 0 <= j < 9 implies double_at(
        b,
        le,
        (at + 224 + 8 * j) as nat,
        #[trigger] message.linear_acceleration_covariance@[j],
    ) by {
        assert(f[3 + (28 + j)] == Field::F64(message.linear_acceleration_covariance@[j].bits));
    }
}

/// An image: the header, the height, the width, the encoding, the byte order, the step and the pixels.
pub proof fn law_members_of_an_image(payload: Seq<u8>, message: Image)
    requires
        payload.len() >= 4,
        holds(payload, Message::Image(message)),
    ensures
        image_at(body(payload), little(payload), message),
{
    let (b, le) = (body(payload), little(payload));
    let kinds = Image::kinds();
    lemma_one_run(payload, Message::Image(message), kinds, message.fields());
    lemma_header(b, le, 0, kinds, message.header);
    let end = header_end(b, le, 0);
    let at = up4(end);
    let order = counted_end(b, le, at + 8);
    lemma_grid(end, 0);
    lemma_grid(end, 1);
    lemma_grid(end, 2);
    step_int(b, le, 0, kinds, 3, end, message.height);
    step_int(b, le, 0, kinds, 4, at + 4, message.width);
    step_text(b, le, 0, kinds, 5, at + 8, message.encoding@);
    step_byte(b, le, 0, kinds, 6, order, message.is_bigendian);
    step_int(b, le, 0, kinds, 7, order + 1, message.step);
    step_bytes(b, le, 0, kinds, 8, up4(order + 1) + 4, message.data@);
}

/// A compressed image: the header, the format and the bytes.
pub proof fn law_members_of_a_compressed_image(payload: Seq<u8>, message: CompressedImage)
    requires
        payload.len() >= 4,
        holds(payload, Message::CompressedImage(message)),
    ensures
        compressed_image_at(body(payload), little(payload), message),
{
    let (b, le) = (body(payload), little(payload));
    let kinds = CompressedImage::kinds();
    lemma_one_run(payload, Message::CompressedImage(message), kinds, message.fields());
    lemma_header(b, le, 0, kinds, message.header);
    let at = header_end(b, le, 0);
    lemma_nth(b, le, 0, kinds, 3);
    lemma_nth(b, le, 0, kinds, 4);
    lemma_read(b, le, at, Kind::Text);
    lemma_read(b, le, counted_end(b, le, at), Kind::Bytes);
}

/// A path: the header, and the poses behind their count.
pub proof fn law_members_of_a_path(payload: Seq<u8>, message: Path)
    requires
        payload.len() >= 4,
        holds(payload, Message::Path(message)),
    ensures
        path_at(body(payload), little(payload), message),
{
    let (b, le) = (body(payload), little(payload));
    let parts = Path::parts();
    lemma_parts(payload, Message::Path(message));
    lemma_nth_part(b, le, 0, parts, 0);
    lemma_nth_part(b, le, 0, parts, 1);
    lemma_nth(b, le, 0, Header::kinds(), 0);
    lemma_header(b, le, 0, Header::kinds(), message.header);
    lemma_many(b, le, header_end(b, le, 0), PoseStamped::kinds());
    assert(message.content()[1] == Chunk::Many(items_of(message.poses@)));
    assert(items_of(message.poses@).len() == message.poses@.len());
    lemma_poses_in_list(
        b,
        le,
        up4(header_end(b, le, 0)) + 4,
        message.poses@,
        message.poses@.len(),
    );
}

/// A `tf` message: the transforms behind their count.
pub proof fn law_members_of_a_tf_message(payload: Seq<u8>, message: TFMessage)
    requires
        payload.len() >= 4,
        holds(payload, Message::TFMessage(message)),
    ensures
        tf_message_at(body(payload), little(payload), message),
{
    let (b, le) = (body(payload), little(payload));
    let parts = TFMessage::parts();
    lemma_parts(payload, Message::TFMessage(message));
    lemma_nth_part(b, le, 0, parts, 0);
    lemma_up(0);
    lemma_many(b, le, 0, TransformStamped::kinds());
    assert(message.content()[0] == Chunk::Many(items_of(message.transforms@)));
    assert(items_of(message.transforms@).len() == message.transforms@.len());
    lemma_transforms_in_list(b, le, 4, message.transforms@, message.transforms@.len());
}

/// The state of joints: the header, and the lists of names, positions, velocities and efforts.
pub proof fn law_members_of_a_joint_state(payload: Seq<u8>, message: JointState)
    requires
        payload.len() >= 4,
        holds(payload, Message::JointState(message)),
    ensures
        joint_state_at(body(payload), little(payload), message),
{
    let (b, le) = (body(payload), little(payload));
    let parts = JointState::parts();
    let content = message.content();
    lemma_parts(payload, Message::JointState(message));
    lemma_nth_part(b, le, 0, parts, 0);
    lemma_nth_part(b, le, 0, parts, 1);
    lemma_nth_part(b, le, 0, parts, 2);
    lemma_nth_part(b, le, 0, parts, 3);
    lemma_nth_part(b, le, 0, parts, 4);
    lemma_nth(b, le, 0, Header::kinds(), 0);
    lemma_header(b, le, 0, Header::kinds(), message.header);
    assert(content[1] == Chunk::Many(items_of(message.name@)));
    assert(content[2] == Chunk::Many(items_of(message.position@)));
    assert(content[3] == Chunk::Many(items_of(message.velocity@)));
    assert(content[4] == Chunk::Many(items_of(message.effort@)));
    let p1 = part_place(b, le, 0, parts, 1);
    let p2 = part_place(b, le, 0, parts, 2);
    let p3 = part_place(b, le, 0, parts, 3);
    let p4 = part_place(b, le, 0, parts, 4);
    lemma_text_list(b, le, p1, message.name@, p2);
    lemma_double_list(b, le, p2, message.position@, p3);
    lemma_double_list(b, le, p3, message.velocity@, p4);
    lemma_double_list(b, le, p4, message.effort@, part_place(b, le, 0, parts, 5));
}

/// A laser scan: the header, the angles, the times and the range limits, and the lists of ranges and
/// intensities.
pub proof fn law_members_of_a_laser_scan(payload: Seq<u8>, message: LaserScan)
    requires
        payload.len() >= 4,
        holds(payload, Message::LaserScan(message)),
    ensures
        laser_scan_at(body(payload), little(payload), message),
{
    let (b, le) = (body(payload), little(payload));
    let parts = LaserScan::parts();
    let content = message.content();
    lemma_parts(payload, Message::LaserScan(message));
    lemma_nth_part(b, le, 0, parts, 0);
    lemma_nth_part(b, le, 0, parts, 1);
    lemma_nth_part(b, le, 0, parts, 2);
    let kinds = parts[0]->Run_0;
    assert(content[0] is Run);
    assert(content[1] == Chunk::Many(items_of(message.ranges@)));
    assert(content[2] == Chunk::Many(items_of(message.intensities@)));
    lemma_nth(b, le, 0, kinds, 0);
    lemma_header(b, le, 0, kinds, message.header);
    let end = header_end(b, le, 0);
    let at = up4(end);
    lemma_grid(end, 0);
    lemma_grid(end, 1);
    lemma_grid(end, 2);
    lemma_grid(end, 3);
    lemma_grid(end, 4);
    lemma_grid(end, 5);
    lemma_grid(end, 6);
    lemma_grid(end, 7);
    step_float(b, le, 0, kinds, 3, end, message.angle_min);
    step_float(b, le, 0, kinds, 4, at + 4, message.angle_max);
    step_float(b, le, 0, kinds, 5, at + 8, message.angle_increment);
    step_float(b, le, 0, kinds, 6, at + 12, message.time_increment);
    step_float(b, le, 0, kinds, 7, at + 16, message.scan_time);
    step_float(b, le, 0, kinds, 8, at + 20, message.range_min);
    step_float(b, le, 0, kinds, 9, at + 24, message.range_max);
    let p1 = part_place(b, le, 0, parts, 1);
    let p2 = part_place(b, le, 0, parts, 2);
    lemma_float_list(b, le, p1, message.ranges@, p2);
    lemma_float_list(b, le, p2, message.intensities@, part_place(b, le, 0, parts, 3));
}

/// A point cloud: the header, the height and the width, the list of fields, the byte order, the steps of
/// a point and of a row, the points, and whether all of them are valid.
pub proof fn law_members_of_a_point_cloud(payload: Seq<u8>, message: PointCloud2)
    requires
        payload.len() >= 4,
        holds(payload, Message::PointCloud2(message)),
    ensures
        point_cloud_at(body(payload), little(payload), message),
{
    let (b, le) = (body(payload), little(payload));
    let parts = PointCloud2::parts();
    let content = message.content();
    lemma_parts(payload, Message::PointCloud2(message));
    lemma_nth_part(b, le, 0, parts, 0);
    lemma_nth_part(b, le, 0, parts, 1);
    lemma_nth_part(b, le, 0, parts, 2);
    let kinds = parts[0]->Run_0;
    assert(content[0] is Run);
    assert(content[1] == Chunk::Many(items_of(message.fields@)));
    assert(content[2] is Run);
    lemma_nth(b, le, 0, kinds, 0);
    lemma_header(b, le, 0, kinds, message.header);
    let end = header_end(b, le, 0);
    let at = up4(end);
    lemma_grid(end, 0);
    lemma_grid(end, 1);
    lemma_grid(end, 2);
    step_int(b, le, 0, kinds, 3, end, message.height);
    step_int(b, le, 0, kinds, 4, at + 4, message.width);
    lemma_many(b, le, at + 8, PointField::kinds());
    assert(items_of(message.fields@).len() == message.fields@.len());
    lemma_point_fields_in_list(b, le, at + 12, message.fields@, message.fields@.len());
    let count = message.fields@.len();
    if count > 0 {
        lemma_nth_item(b, le, at + 12, PointField::kinds(), count, 0);
    } else {
        lemma_no_items(b, le, at + 12, PointField::kinds());
    }
    let order = part_place(b, le, 0, parts, 2);
    let rest = parts[2]->Run_0;
    let steps = up4(order + 1);
    lemma_nth(b, le, order, rest, 0);
    lemma_grid(order + 1, 0);
    lemma_grid(order + 1, 1);
    lemma_grid(order + 1, 2);
    step_flag(b, le, order, rest, 0, order, message.is_bigendian);
    step_int(b, le, order, rest, 1, order + 1, message.point_step);
    step_int(b, le, order, rest, 2, steps + 4, message.row_step);
    step_bytes(b, le, order, rest, 3, steps + 8, message.data@);
    step_flag(b, le, order, rest, 4, counted_end(b, le, steps + 8), message.is_dense);
}

/// The last run of what is known of a camera.
#[verifier::opaque]
spec fn camera_kinds() -> Seq<Kind> {
    doubles(9) + doubles(9) + doubles(12) + one(Kind::I32) + one(Kind::I32)
        + RegionOfInterest::kinds()
}

#[verifier::opaque]
spec fn camera_fields(message: CameraInfo) -> Seq<Field> {
    double_fields(message.k@) + double_fields(message.r@) + double_fields(message.p@) + just(
        Field::I32(message.binning_x),
    ) + just(Field::I32(message.binning_y)) + message.roi.fields()
}

proof fn lemma_camera_fields(message: CameraInfo)
    ensures
        camera_kinds().len() == 37,
        forall|j: int| 0 <= j < 30 ==> #[trigger] camera_kinds()[j] == Kind::F64,
        forall|j: int| 30 <= j < 36 ==> #[trigger] camera_kinds()[j] == Kind::I32,
        camera_kinds()[36] == Kind::Bool,
        forall|j: int|
            0 <= j < 9 ==> #[trigger] camera_fields(message)[j] == Field::F64(message.k@[j].bits),
        forall|j: int|
            9 <= j < 18 ==> #[trigger] camera_fields(message)[j] == Field::F64(
                message.r@[j - 9].bits,
            ),
        forall|j: int|
            18 <= j < 30 ==> #[trigger] camera_fields(message)[j] == Field::F64(
                message.p@[j - 18].bits,
            ),
        camera_fields(message)[30] == Field::I32(message.binning_x),
        camera_fields(message)[31] == Field::I32(message.binning_y),
        camera_fields(message)[32] == Field::I32(message.roi.x_offset),
        camera_fields(message)[33] == Field::I32(message.roi.y_offset),
        camera_fields(message)[34] == Field::I32(message.roi.height),
        camera_fields(message)[35] == Field::I32(message.roi.width),
        camera_fields(message)[36] == Field::Bool(message.roi.do_rectify),
{
    reveal(camera_kinds);
    reveal(camera_fields);
    assert(message.k@.len() == 9 && message.r@.len() == 9 && message.p@.len() == 12);
}

proof fn lemma_camera_matrices(b: Seq<u8>, le: bool, p: nat, message: CameraInfo)
    requires
        read_run(b, le, p, camera_kinds()) matches Some((f, _)) && f == camera_fields(message),
    ensures
        camera_matrices_at(b, le, up8(p), message),
{
    let kinds = camera_kinds();
    let f = camera_fields(message);
    let at = up8(p);
    lemma_camera_fields(message);
    lemma_nth(b, le, p, kinds, 0);
    lemma_doubles(b, le, p, kinds, 0, 30);
    assert forall|j: int| 0 <= j < 9 implies double_at(
        b,
        le,
        (at + 8 * j) as nat,
        #[trigger] message.k@[j],
    ) by {
        assert(f[0 + j] == Field::F64(message.k@[j].bits));
    }
    assert forall|j: int| 0 <= j < 9 implies double_at(
        b,
        le,
        (at + 72 + 8 * j) as nat,
        #[trigger] message.r@[j],
    ) by {
        assert(f[0 + (9 + j)] == Field::F64(message.r@[j].bits));
    }
    assert forall|j: int| 0 <= j < 12 implies double_at(
        b,
        le,
        (at + 144 + 8 * j) as nat,
        #[trigger] message.p@[j],
    ) by {
        assert(f[0 + (18 + j)] == Field::F64(message.p@[j].bits));
    }
    lemma_fours_after_eights(p, 60);
    lemma_fours_after_eights(p, 61);
    lemma_fours_after_eights(p, 62);
    lemma_fours_after_eights(p, 63);
    lemma_fours_after_eights(p, 64);
    lemma_fours_after_eights(p, 65);
    step_int(b, le, p, kinds, 30, at + 240, message.binning_x);
    step_int(b, le, p, kinds, 31, at + 244, message.binning_y);
    step_int(b, le, p, kinds, 32, at + 248, message.roi.x_offset);
    step_int(b, le, p, kinds, 33, at + 252, message.roi.y_offset);
    step_int(b, le, p, kinds, 34, at + 256, message.roi.height);
    step_int(b, le, p, kinds, 35, at + 260, message.roi.width);
    step_flag(b, le, p, kinds, 36, at + 264, message.roi.do_rectify);
}

/// What is known of a camera: the header, the height and the width, the distortion model and the list of
/// its parameters, the three matrices, the binning, and the region of interest.
pub proof fn law_members_of_a_camera_info(payload: Seq<u8>, message: CameraInfo)
    requires
        payload.len() >= 4,
        holds(payload, Message::CameraInfo(message)),
    ensures
        camera_info_at(body(payload), little(payload), message),
{
    reveal(camera_kinds);
    reveal(camera_fields);
    let (b, le) = (body(payload), little(payload));
    let parts = CameraInfo::parts();
    let content = message.content();
    lemma_parts(payload, Message::CameraInfo(message));
    lemma_nth_part(b, le, 0, parts, 0);
    lemma_nth_part(b, le, 0, parts, 1);
    lemma_nth_part(b, le, 0, parts, 2);
    let kinds = parts[0]->Run_0;
    assert(content[0] is Run);
    assert(content[1] == Chunk::Many(items_of(message.d@)));
    assert(content[2] is Run);
    lemma_nth(b, le, 0, kinds, 0);
    lemma_header(b, le, 0, kinds, message.header);
    let end = header_end(b, le, 0);
    let start = up4(end);
    lemma_grid(end, 0);
    lemma_grid(end, 1);
    lemma_grid(end, 2);
    step_int(b, le, 0, kinds, 3, end, message.height);
    step_int(b, le, 0, kinds, 4, start + 4, message.width);
    step_text(b, le, 0, kinds, 5, start + 8, message.distortion_model@);
    let params = part_place(b, le, 0, parts, 1);
    let rest_at = part_place(b, le, 0, parts, 2);
    lemma_double_list(b, le, params, message.d@, rest_at);
    lemma_camera_matrices(b, le, rest_at, message);
}

/// Whatever is read from a payload stands in it, member by member.
pub proof fn law_messages_stand_in_the_payload(payload: Seq<u8>, message: Message)
    requires
        payload.len() >= 4,
        holds(payload, message),
    ensures
        stands_in(payload, message),
{
    match message {
        Message::PoseStamped(m) => law_members_of_a_pose_stamped(payload, m),
        Message::TransformStamped(m) => law_members_of_a_transform_stamped(payload, m),
        Message::Odometry(m) => law_members_of_an_odometry(payload, m),
        Message::Path(m) => law_members_of_a_path(payload, m),
        Message::CameraInfo(m) => law_members_of_a_camera_info(payload, m),
        Message::CompressedImage(m) => law_members_of_a_compressed_image(payload, m),
        Message::Image(m) => law_members_of_an_image(payload, m),
        Message::Imu(m) => law_members_of_an_imu(payload, m),
        Message::JointState(m) => law_members_of_a_joint_state(payload, m),
        Message::LaserScan(m) => law_members_of_a_laser_scan(payload, m),
        Message::PointCloud2(m) => law_members_of_a_point_cloud(payload, m),
        Message::TFMessage(m) => law_members_of_a_tf_message(payload, m),
    }
}

/// ROS headers have no sequence number: messages are read with none.
pub proof fn law_messages_are_read_without_a_sequence_number(message: Message)
    requires
        message.unsequenced(),
    ensures
        match message {
            Message::PoseStamped(m) => m.header.seq == 0,
            Message::TransformStamped(m) => m.header.seq == 0,
            Message::Odometry(m) => m.header.seq == 0,
            Message::Path(m) => m.header.seq == 0 && forall|i: int|
                0 <= i < m.poses@.len() ==> (#[trigger] m.poses@[i]).header.seq == 0,
            Message::CameraInfo(m) => m.header.seq == 0,
            Message::CompressedImage(m) => m.header.seq == 0,
            Message::Image(m) => m.header.seq == 0,
            Message::Imu(m) => m.header.seq == 0,
            Message::JointState(m) => m.header.seq == 0,
            Message::LaserScan(m) => m.header.seq == 0,
            Message::PointCloud2(m) => m.header.seq == 0,
            Message::TFMessage(m) => forall|i: int|
                0 <= i < m.transforms@.len() ==> (#[trigger] m.transforms@[i]).header.seq == 0,
        },
{
}

/// A field is read when all of its bytes are there: one for a byte or a flag, four or eight behind the
/// padding for a number, and the length and what it counts for a text or for bytes.
pub proof fn law_fields_are_read_when_their_bytes_are_there(b: Seq<u8>, le: bool, p: nat, kind: Kind)
    ensures
        read(b, le, p, kind) is Some <==> match kind {
            Kind::U8 | Kind::Bool => p + 1 <= b.len(),
            Kind::I32 | Kind::F32 => up4(p) + 4 <= b.len(),
            Kind::F64 => up8(p) + 8 <= b.len(),
            Kind::Text | Kind::Bytes => up4(p) + 4 <= b.len() && counted_end(b, le, p) <= b.len(),
        },
{
    reveal(read);
    lemma_up(p);
    if up4(p) + 4 <= b.len() {
        lemma_num4(b, le, up4(p));
    }
    if up8(p) + 8 <= b.len() {
        lemma_num8(b, le, up8(p));
    }
}

proof fn lemma_put_number(body: Seq<u8>, value: nat, width: nat, more: Seq<u8>)
    requires
        width == 4 || width == 8,
        value < capacity(width),
    ensures
        ({
            let w = padded(body, width) + digits(value, width) + more;
            let start = aligned(body.len(), width);
            &&& w.len() == start + width + more.len()
            &&& w.take(body.len() as int) == body
            &&& forall|i: int| body.len() <= i < start ==> #[trigger] w[i] == 0
            &&& w.skip((start + width) as int) == more
            &&& width == 4 ==> num4(w, true, start) == value
            &&& width == 8 ==> num8(w, true, start) == value
        }),
{
    let w = padded(body, width) + digits(value, width) + more;
    let start = aligned(body.len(), width);
    lemma_digits_number(value, width);
    lemma_up(body.len());
    assert(w.take(body.len() as int) =~= body);
    assert(w.skip((start + width) as int) =~= more);
    assert(w.subrange(start as int, (start + width) as int) =~= digits(value, width));
    if width == 4 {
        lemma_num4(w, true, start);
    } else {
        lemma_num8(w, true, start);
    }
}

/// A field is written behind what stands there already, which is left alone: a byte or a flag right
/// behind it, a number after zeros up to a multiple of its width, the least significant byte first. A
/// text is written behind a length that counts the null at its end, bytes behind their own length.
pub proof fn law_fields_are_written_behind_zeros(body: Seq<u8>, field: Field)
    requires
        field matches Field::Text(text) ==> encode_utf8(text).len() < 0xffff_ffff,
        field matches Field::Bytes(bytes) ==> bytes.len() < 0x1_0000_0000,
    ensures
        ({
            let w = put(body, field);
            let start = match field {
                Field::U8(_) | Field::Bool(_) => body.len(),
                Field::F64(_) => up8(body.len()),
                _ => up4(body.len()),
            };
            &&& w.len() > start
            &&& w.take(body.len() as int) == body
            &&& forall|i: int| body.len() <= i < start ==> #[trigger] w[i] == 0
            &&& match field {
                Field::U8(value) => w.len() == start + 1 && w.last() == value,
                Field::Bool(value) => w.len() == start + 1 && w.last() == (if value {
                    1u8
                } else {
                    0u8
                }),
                Field::I32(value) => w.len() == start + 4 && num4(w, true, start) == value as u32,
                Field::F32(bits) => w.len() == start + 4 && num4(w, true, start) == bits,
                Field::F64(bits) => w.len() == start + 8 && num8(w, true, start) == bits,
                Field::Text(text) => {
                    let bytes = encode_utf8(text);
                    &&& num4(w, true, start) == bytes.len() + 1
                    &&& w.skip(start as int + 4) == bytes.push(0)
                },
                Field::Bytes(bytes) => {
                    &&& num4(w, true, start) == bytes.len()
                    &&& w.skip(start as int + 4) == bytes
                },
            }
        }),
{
    let w = put(body, field);
    let none = Seq::<u8>::empty();
    lemma_up(body.len());
    lemma_capacities();
    match field {
        Field::U8(_) | Field::Bool(_) => {
            assert(w.take(body.len() as int) =~= body);
        },
        Field::I32(value) => {
            lemma_put_number(body, value as u32 as nat, 4, none);
            assert(w =~= padded(body, 4) + digits(value as u32 as nat, 4) + none);
        },
        Field::F32(bits) => {
            lemma_put_number(body, bits as nat, 4, none);
            assert(w =~= padded(body, 4) + digits(bits as nat, 4) + none);
        },
        Field::F64(bits) => {
            lemma_put_number(body, bits as nat, 8, none);
            assert(w =~= padded(body, 8) + digits(bits as nat, 8) + none);
        },
        Field::Text(text) => {
            let bytes = encode_utf8(text);
            let n = bytes.len() + 1;
            lemma_put_number(body, n, 4, bytes.push(0));
            assert(low32(bytes.len()) == bytes.len());
            assert(w =~= padded(body, 4) + digits(n, 4) + bytes.push(0));
        },
        Field::Bytes(bytes) => {
            lemma_put_number(body, bytes.len(), 4, bytes);
            assert(low32(bytes.len()) == bytes.len());
            assert(w =~= padded(body, 4) + digits(bytes.len(), 4) + bytes);
        },
    }
}

/// Reading a field whose bytes are not all there stops behind its padding, or behind its length where that
/// is there.
pub proof fn law_a_field_that_is_not_there_is_stopped_at(b: Seq<u8>, le: bool, p: nat, kind: Kind)
    ensures
        stop(b, le, p, kind) == match kind {
            Kind::U8 | Kind::Bool => p,
            Kind::I32 | Kind::F32 => up4(p),
            Kind::F64 => up8(p),
            Kind::Text | Kind::Bytes => if up4(p) + 4 <= b.len() {
                up4(p) + 4
            } else {
                up4(p)
            },
        },
{
    reveal(stop);
    lemma_up(p);
}

/// Reading a run stops at the first of its fields that cannot be read.
pub proof fn law_a_run_is_read_up_to_the_first_field_that_is_not_there(
    b: Seq<u8>,
    le: bool,
    p: nat,
    kinds: Seq<Kind>,
    i: int,
    middle: nat,
)
    requires
        0 <= i < kinds.len(),
        read_run(b, le, p, kinds.take(i)) matches Some((_, end)) && end == middle,
        read(b, le, middle, kinds[i]) is None,
    ensures
        read_run(b, le, p, kinds) is None,
        run_stop(b, le, p, kinds) == stop(b, le, middle, kinds[i]),
    decreases kinds.len(),
{
    reveal(read_run);
    reveal(run_stop);
    let rest = kinds.drop_last();
    if i == kinds.len() - 1 {
        assert(kinds.take(i) =~= rest);
    } else {
        assert(rest.take(i) =~= kinds.take(i));
        assert(rest[i] == kinds[i]);
        law_a_run_is_read_up_to_the_first_field_that_is_not_there(b, le, p, rest, i, middle);
    }
}

/// Reading a message stops in the first of its parts that cannot be read.
pub proof fn law_a_message_is_read_up_to_the_first_part_that_is_not_there(
    b: Seq<u8>,
    le: bool,
    p: nat,
    parts: Seq<Part>,
    i: int,
    middle: nat,
)
    requires
        0 <= i < parts.len(),
        read_parts(b, le, p, parts.take(i)) matches Some((_, end)) && end == middle,
        read_part(b, le, middle, parts[i]) is None,
    ensures
        read_parts(b, le, p, parts) is None,
        parts_stop(b, le, p, parts) == part_stop(b, le, middle, parts[i]),
    decreases parts.len(),
{
    reveal(read_parts);
    reveal(parts_stop);
    let rest = parts.drop_last();
    if i == parts.len() - 1 {
        assert(parts.take(i) =~= rest);
    } else {
        assert(rest.take(i) =~= parts.take(i));
        assert(rest[i] == parts[i]);
        law_a_message_is_read_up_to_the_first_part_that_is_not_there(b, le, p, rest, i, middle);
    }
}

} // verus!
