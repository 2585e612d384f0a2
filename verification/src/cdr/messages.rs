//! The message types, their layout, and reading and writing each of them.
//!
//! A type made of fields alone is a `Run`; a message is a list of parts. Every `header.seq` is
//! left at 0 when a message is read and not written at all: the format has no such field.
use super::layout::{
    chunk, doubles, group_parts, group_runs, items_stop, just, kinds_of, lemma_doubles_stay_unread,
    lemma_items_stay_unread, low32, one, part, part_stop, parts_stop, put, put_chunks, put_items,
    put_run, read, read_items, read_number, read_part, read_parts, read_run, run_stop, Chunk, Field,
    Kind, Part,
};
use super::reader::{Reader, F32, F64};
use super::writer::Writer;
use super::CdrError;
use vstd::prelude::*;
use vstd::utf8::encode_utf8;

verus! {

/// Whether every text of a run can be given a length that counts its null.
pub open spec fn run_writable(fields: Seq<Field>) -> bool {
    forall|i: int|
        0 <= i < fields.len() ==> ((#[trigger] fields[i]) matches Field::Text(text) ==> low32(
            encode_utf8(text).len(),
        ) < 0xffff_ffff)
}

/// A type made of fields alone.
pub trait Run: Sized {
    /// The types of its fields, in order.
    spec fn kinds() -> Seq<Kind>;

    /// Its fields, in order.
    spec fn fields(&self) -> Seq<Field>;

    /// Whether every `header.seq` in it is 0.
    spec fn unsequenced(&self) -> bool;

    proof fn lemma_kinds(&self)
        ensures
            kinds_of(self.fields()) == Self::kinds(),
    ;

    fn read(reader: &mut Reader) -> (r: Result<Self, CdrError>)
        ensures
            match read_run(
                old(reader).body@,
                old(reader).little_endian,
                old(reader).position as nat,
                Self::kinds(),
            ) {
                Some((fields, end)) => {
                    &&& r matches Ok(value) && value.fields() == fields && value.unsequenced()
                    &&& final(reader).moved(old(reader), end)
                },
                None => {
                    &&& r matches Err(error) && error == CdrError::EndedEarly
                    &&& final(reader).stopped(
                        old(reader),
                        run_stop(
                            old(reader).body@,
                            old(reader).little_endian,
                            old(reader).position as nat,
                            Self::kinds(),
                        ),
                    )
                },
            },
    ;

    fn put(&self, writer: &mut Writer)
        requires
            run_writable(self.fields()),
        ensures
            final(writer).body@ == put_run(old(writer).body@, self.fields()),
    ;
}

broadcast proof fn lemma_writable_concat(first: Seq<Field>, second: Seq<Field>)
    ensures
        #[trigger] run_writable(first + second) == (run_writable(first) && run_writable(second)),
{
    if run_writable(first + second) {
        assert forall|i: int| 0 <= i < first.len() implies ((
        #[trigger] first[i]) matches Field::Text(text) ==> low32(encode_utf8(text).len())
            < 0xffff_ffff) by {
            assert((first + second)[i] == first[i]);
        }
        assert forall|i: int| 0 <= i < second.len() implies ((
        #[trigger] second[i]) matches Field::Text(text) ==> low32(encode_utf8(text).len())
            < 0xffff_ffff) by {
            assert((first + second)[first.len() + i] == second[i]);
        }
    }
}

broadcast proof fn lemma_writable_one(field: Field)
    ensures
        #[trigger] run_writable(just(field)) == (field matches Field::Text(text) ==> low32(
            encode_utf8(text).len(),
        ) < 0xffff_ffff),
{
    assert(just(field)[0] == field);
}

broadcast group group_writable {
    lemma_writable_concat,
    lemma_writable_one,
}

// --------------------------------------------------------------- counted runs
/// The fields of each element of a sequence.
pub open spec fn items_of<T: Run>(values: Seq<T>) -> Seq<Seq<Field>> {
    values.map_values(|v: T| v.fields())
}

/// Whether every text in a part can be given a length that counts its null.
pub open spec fn chunk_writable(chunk: Chunk) -> bool {
    match chunk {
        Chunk::Run(fields) => run_writable(fields),
        Chunk::Many(items) => forall|j: int|
            0 <= j < items.len() ==> #[trigger] run_writable(items[j]),
    }
}

proof fn lemma_item_writable(items: Seq<Seq<Field>>, i: int)
    requires
        chunk_writable(Chunk::Many(items)),
        0 <= i < items.len(),
    ensures
        run_writable(items[i]),
{
    let chunk = Chunk::Many(items);
    assert(run_writable(chunk->Many_0[i]));
}

fn read_many<T: Run>(reader: &mut Reader) -> (r: Result<Vec<T>, CdrError>)
    ensures
        match read_part(
            old(reader).body@,
            old(reader).little_endian,
            old(reader).position as nat,
            Part::Many(T::kinds()),
        ) {
            Some((chunk, end)) => {
                &&& r matches Ok(values) && chunk == Chunk::Many(items_of(values@)) && (forall|
                    i: int,
                |
                    0 <= i < values@.len() ==> (#[trigger] values@[i]).unsequenced())
                &&& final(reader).moved(old(reader), end)
            },
            None => {
                &&& r matches Err(error) && error == CdrError::EndedEarly
                &&& final(reader).stopped(
                    old(reader),
                    part_stop(
                        old(reader).body@,
                        old(reader).little_endian,
                        old(reader).position as nat,
                        Part::Many(T::kinds()),
                    ),
                )
            },
        },
{
    reveal(read_items);
    reveal(items_stop);
    let count: usize = reader.count()?;
    let ghost start = *reader;
    let mut values: Vec<T> = Vec::new();
    assert(items_of(values@) =~= Seq::empty());
    let mut i: usize = 0;
    while i < count
        invariant
            i <= count,
            reader.body == start.body,
            reader.little_endian == start.little_endian,
            start.body == old(reader).body,
            start.little_endian == old(reader).little_endian,
            read_number(
                old(reader).body@,
                old(reader).little_endian,
                old(reader).position as nat,
                4,
            ) == Some((count as nat, start.position as nat)),
            read_items(
                start.body@,
                start.little_endian,
                start.position as nat,
                T::kinds(),
                i as nat,
            ) == Some((items_of(values@), reader.position as nat)),
            forall|j: int| 0 <= j < values@.len() ==> (#[trigger] values@[j]).unsequenced(),
        decreases count - i,
    {
        reveal(read_items);
        reveal(items_stop);
        let ghost done = values@;
        match T::read(reader) {
            Ok(value) => {
                values.push(value);
                assert(items_of(values@) =~= items_of(done).push(value.fields()));
            },
            Err(error) => {
                proof {
                    lemma_items_stay_unread(
                        start.body@,
                        start.little_endian,
                        start.position as nat,
                        T::kinds(),
                        (i + 1) as nat,
                        count as nat,
                    );
                }
                return Err(error);
            },
        }
        i = i + 1;
    }
    Ok(values)
}

fn put_many<T: Run>(writer: &mut Writer, values: &Vec<T>)
    requires
        chunk_writable(Chunk::Many(items_of(values@))),
    ensures
        final(writer).body@ == put_chunks(
            old(writer).body@,
            chunk(Chunk::Many(items_of(values@))),
        ),
{
    broadcast use group_parts;

    let ghost items = items_of(values@);
    writer.count(values.len());
    let ghost start = writer.body@;
    let mut i: usize = 0;
    assert(items.take(0) =~= Seq::empty());
    while i < values.len()
        invariant
            i <= values.len(),
            items == items_of(values@),
            chunk_writable(Chunk::Many(items)),
            writer.body@ == put_items(start, items.take(i as int)),
        decreases values.len() - i,
    {
        assert(items[i as int] == values@[i as int].fields());
        proof {
            lemma_item_writable(items, i as int);
        }
        values[i].put(writer);
        assert(items.take(i + 1).drop_last() =~= items.take(i as int));
        i = i + 1;
    }
    assert(items.take(i as int) =~= items);
}

impl Run for String {
    open spec fn kinds() -> Seq<Kind> {
        one(Kind::Text)
    }

    open spec fn fields(&self) -> Seq<Field> {
        just(Field::Text(self@))
    }

    open spec fn unsequenced(&self) -> bool {
        true
    }

    proof fn lemma_kinds(&self) {
        broadcast use group_runs;

    }

    fn read(reader: &mut Reader) -> (r: Result<Self, CdrError>) {
        broadcast use group_runs;

        reader.string()
    }

    fn put(&self, writer: &mut Writer) {
        broadcast use {group_runs, group_writable};

        writer.string(self.as_str());
    }
}

impl Run for F64 {
    open spec fn kinds() -> Seq<Kind> {
        one(Kind::F64)
    }

    open spec fn fields(&self) -> Seq<Field> {
        just(Field::F64(self.bits))
    }

    open spec fn unsequenced(&self) -> bool {
        true
    }

    proof fn lemma_kinds(&self) {
        broadcast use group_runs;

    }

    fn read(reader: &mut Reader) -> (r: Result<Self, CdrError>) {
        broadcast use group_runs;

        reader.double()
    }

    fn put(&self, writer: &mut Writer) {
        broadcast use group_runs;

        writer.double(*self);
    }
}

impl Run for F32 {
    open spec fn kinds() -> Seq<Kind> {
        one(Kind::F32)
    }

    open spec fn fields(&self) -> Seq<Field> {
        just(Field::F32(self.bits))
    }

    open spec fn unsequenced(&self) -> bool {
        true
    }

    proof fn lemma_kinds(&self) {
        broadcast use group_runs;

    }

    fn read(reader: &mut Reader) -> (r: Result<Self, CdrError>) {
        broadcast use group_runs;

        reader.float()
    }

    fn put(&self, writer: &mut Writer) {
        broadcast use group_runs;

        writer.float(*self);
    }
}

// --------------------------------------------------------------- fixed arrays
/// The fields of an array of 64-bit floats.
pub open spec fn double_fields(values: Seq<F64>) -> Seq<Field> {
    values.map_values(|v: F64| Field::F64(v.bits))
}

pub proof fn lemma_double_kinds(values: Seq<F64>)
    ensures
        kinds_of(double_fields(values)) == doubles(values.len()),
{
    assert(kinds_of(double_fields(values)) =~= doubles(values.len()));
}

fn read_doubles<const N: usize>(reader: &mut Reader) -> (r: Result<[F64; N], CdrError>)
    ensures
        match read_run(
            old(reader).body@,
            old(reader).little_endian,
            old(reader).position as nat,
            doubles(N as nat),
        ) {
            Some((fields, end)) => {
                &&& r matches Ok(values) && double_fields(values@) == fields
                &&& final(reader).moved(old(reader), end)
            },
            None => {
                &&& r matches Err(error) && error == CdrError::EndedEarly
                &&& final(reader).stopped(
                    old(reader),
                    run_stop(
                        old(reader).body@,
                        old(reader).little_endian,
                        old(reader).position as nat,
                        doubles(N as nat),
                    ),
                )
            },
        },
{
    reveal(read_run);
    let mut values: [F64; N] = [F64 { bits: 0 };N];
    let mut i: usize = 0;
    assert(double_fields(values@.take(0)) =~= Seq::empty());
    while i < N
        invariant
            i <= N,
            reader.body == old(reader).body,
            reader.little_endian == old(reader).little_endian,
            read_run(
                old(reader).body@,
                old(reader).little_endian,
                old(reader).position as nat,
                doubles(i as nat),
            ) == Some((double_fields(values@.take(i as int)), reader.position as nat)),
        decreases N - i,
    {
        reveal(read_run);
        reveal(run_stop);
        assert(doubles((i + 1) as nat).drop_last() =~= doubles(i as nat));
        let ghost done = values@.take(i as int);
        match reader.double() {
            Ok(value) => {
                values[i] = value;
                assert(values@.take(i as int) =~= done);
                assert(double_fields(values@.take(i + 1)) =~= double_fields(done).push(
                    Field::F64(value.bits),
                ));
            },
            Err(error) => {
                proof {
                    lemma_doubles_stay_unread(
                        old(reader).body@,
                        old(reader).little_endian,
                        old(reader).position as nat,
                        (i + 1) as nat,
                        N as nat,
                    );
                }
                return Err(error);
            },
        }
        i = i + 1;
    }
    assert(values@.take(i as int) =~= values@);
    Ok(values)
}

fn put_doubles<const N: usize>(writer: &mut Writer, values: &[F64; N])
    ensures
        final(writer).body@ == put_run(old(writer).body@, double_fields(values@)),
{
    let mut i: usize = 0;
    reveal(put_run);
    assert(double_fields(values@).take(0) =~= Seq::empty());
    while i < N
        invariant
            i <= N,
            writer.body@ == put_run(old(writer).body@, double_fields(values@).take(i as int)),
        decreases N - i,
    {
        reveal(put_run);
        writer.double(values[i]);
        assert(double_fields(values@).take(i + 1).drop_last() =~= double_fields(values@).take(
            i as int,
        ));
        i = i + 1;
    }
    assert(double_fields(values@).take(i as int) =~= double_fields(values@));
}

// -------------------------------------------------------------- shared pieces
#[derive(Clone, Copy, Debug, PartialEq, Eq)]
pub struct Time {
    pub sec: i32,
    pub nsec: i32,
}

#[derive(Debug, PartialEq, Eq)]
pub struct Header {
    pub seq: i32,
    pub stamp: Time,
    pub frame_id: String,
}

impl Run for Header {
    open spec fn kinds() -> Seq<Kind> {
        one(Kind::I32) + one(Kind::I32) + one(Kind::Text)
    }

    open spec fn fields(&self) -> Seq<Field> {
        just(Field::I32(self.stamp.sec)) + just(Field::I32(self.stamp.nsec)) + just(
            Field::Text(self.frame_id@),
        )
    }

    open spec fn unsequenced(&self) -> bool {
        self.seq == 0
    }

    proof fn lemma_kinds(&self) {
        broadcast use group_runs;

    }

    fn read(reader: &mut Reader) -> (r: Result<Self, CdrError>) {
        broadcast use group_runs;

        let sec: i32 = reader.i32()?;
        let nsec: i32 = reader.i32()?;
        let frame_id: String = reader.string()?;
        Ok(Header { seq: 0, stamp: Time { sec, nsec }, frame_id })
    }

    fn put(&self, writer: &mut Writer) {
        broadcast use {group_runs, group_writable};

        writer.i32(self.stamp.sec);
        writer.i32(self.stamp.nsec);
        writer.string(self.frame_id.as_str());
    }
}


#[derive(Clone, Copy, Debug, PartialEq, Eq)]
pub struct Vector3 {
    pub x: F64,
    pub y: F64,
    pub z: F64,
}

impl Run for Vector3 {
    open spec fn kinds() -> Seq<Kind> {
        one(Kind::F64) + one(Kind::F64) + one(Kind::F64)
    }

    open spec fn fields(&self) -> Seq<Field> {
        just(Field::F64(self.x.bits))
            + just(Field::F64(self.y.bits))
            + just(Field::F64(self.z.bits))
    }

    open spec fn unsequenced(&self) -> bool {
        true
    }

    proof fn lemma_kinds(&self) {
        broadcast use group_runs;

    }

    fn read(reader: &mut Reader) -> (r: Result<Self, CdrError>) {
        broadcast use group_runs;

        let x: F64 = reader.double()?;
        let y: F64 = reader.double()?;
        let z: F64 = reader.double()?;
        Ok(Vector3 { x, y, z })
    }

    fn put(&self, writer: &mut Writer) {
        broadcast use {group_runs, group_writable};

        writer.double(self.x);
        writer.double(self.y);
        writer.double(self.z);
    }
}

#[derive(Clone, Copy, Debug, PartialEq, Eq)]
pub struct Point {
    pub x: F64,
    pub y: F64,
    pub z: F64,
}

impl Run for Point {
    open spec fn kinds() -> Seq<Kind> {
        one(Kind::F64) + one(Kind::F64) + one(Kind::F64)
    }

    open spec fn fields(&self) -> Seq<Field> {
        just(Field::F64(self.x.bits))
            + just(Field::F64(self.y.bits))
            + just(Field::F64(self.z.bits))
    }

    open spec fn unsequenced(&self) -> bool {
        true
    }

    proof fn lemma_kinds(&self) {
        broadcast use group_runs;

    }

    fn read(reader: &mut Reader) -> (r: Result<Self, CdrError>) {
        broadcast use group_runs;

        let x: F64 = reader.double()?;
        let y: F64 = reader.double()?;
        let z: F64 = reader.double()?;
        Ok(Point { x, y, z })
    }

    fn put(&self, writer: &mut Writer) {
        broadcast use {group_runs, group_writable};

        writer.double(self.x);
        writer.double(self.y);
        writer.double(self.z);
    }
}

#[derive(Clone, Copy, Debug, PartialEq, Eq)]
pub struct Quaternion {
    pub x: F64,
    pub y: F64,
    pub z: F64,
    pub w: F64,
}

impl Run for Quaternion {
    open spec fn kinds() -> Seq<Kind> {
        one(Kind::F64) + one(Kind::F64) + one(Kind::F64) + one(Kind::F64)
    }

    open spec fn fields(&self) -> Seq<Field> {
        just(Field::F64(self.x.bits))
            + just(Field::F64(self.y.bits))
            + just(Field::F64(self.z.bits))
            + just(Field::F64(self.w.bits))
    }

    open spec fn unsequenced(&self) -> bool {
        true
    }

    proof fn lemma_kinds(&self) {
        broadcast use group_runs;

    }

    fn read(reader: &mut Reader) -> (r: Result<Self, CdrError>) {
        broadcast use group_runs;

        let x: F64 = reader.double()?;
        let y: F64 = reader.double()?;
        let z: F64 = reader.double()?;
        let w: F64 = reader.double()?;
        Ok(Quaternion { x, y, z, w })
    }

    fn put(&self, writer: &mut Writer) {
        broadcast use {group_runs, group_writable};

        writer.double(self.x);
        writer.double(self.y);
        writer.double(self.z);
        writer.double(self.w);
    }
}

#[derive(Clone, Copy, Debug, PartialEq, Eq)]
pub struct Pose {
    pub position: Point,
    pub orientation: Quaternion,
}

impl Run for Pose {
    open spec fn kinds() -> Seq<Kind> {
        Point::kinds() + Quaternion::kinds()
    }

    open spec fn fields(&self) -> Seq<Field> {
        self.position.fields() + self.orientation.fields()
    }

    open spec fn unsequenced(&self) -> bool {
        true
    }

    proof fn lemma_kinds(&self) {
        broadcast use group_runs;

        self.position.lemma_kinds();
        self.orientation.lemma_kinds();
    }

    fn read(reader: &mut Reader) -> (r: Result<Self, CdrError>) {
        broadcast use group_runs;

        let position: Point = Point::read(reader)?;
        let orientation: Quaternion = Quaternion::read(reader)?;
        Ok(Pose { position, orientation })
    }

    fn put(&self, writer: &mut Writer) {
        broadcast use {group_runs, group_writable};

        self.position.put(writer);
        self.orientation.put(writer);
    }
}

#[derive(Clone, Copy, Debug, PartialEq, Eq)]
pub struct Twist {
    pub linear: Vector3,
    pub angular: Vector3,
}

impl Run for Twist {
    open spec fn kinds() -> Seq<Kind> {
        Vector3::kinds() + Vector3::kinds()
    }

    open spec fn fields(&self) -> Seq<Field> {
        self.linear.fields() + self.angular.fields()
    }

    open spec fn unsequenced(&self) -> bool {
        true
    }

    proof fn lemma_kinds(&self) {
        broadcast use group_runs;

        self.linear.lemma_kinds();
        self.angular.lemma_kinds();
    }

    fn read(reader: &mut Reader) -> (r: Result<Self, CdrError>) {
        broadcast use group_runs;

        let linear: Vector3 = Vector3::read(reader)?;
        let angular: Vector3 = Vector3::read(reader)?;
        Ok(Twist { linear, angular })
    }

    fn put(&self, writer: &mut Writer) {
        broadcast use {group_runs, group_writable};

        self.linear.put(writer);
        self.angular.put(writer);
    }
}

#[derive(Clone, Copy, Debug, PartialEq, Eq)]
pub struct Transform {
    pub translation: Vector3,
    pub rotation: Quaternion,
}

impl Run for Transform {
    open spec fn kinds() -> Seq<Kind> {
        Vector3::kinds() + Quaternion::kinds()
    }

    open spec fn fields(&self) -> Seq<Field> {
        self.translation.fields() + self.rotation.fields()
    }

    open spec fn unsequenced(&self) -> bool {
        true
    }

    proof fn lemma_kinds(&self) {
        broadcast use group_runs;

        self.translation.lemma_kinds();
        self.rotation.lemma_kinds();
    }

    fn read(reader: &mut Reader) -> (r: Result<Self, CdrError>) {
        broadcast use group_runs;

        let translation: Vector3 = Vector3::read(reader)?;
        let rotation: Quaternion = Quaternion::read(reader)?;
        Ok(Transform { translation, rotation })
    }

    fn put(&self, writer: &mut Writer) {
        broadcast use {group_runs, group_writable};

        self.translation.put(writer);
        self.rotation.put(writer);
    }
}

#[derive(Debug, PartialEq, Eq)]
pub struct PoseStamped {
    pub header: Header,
    pub pose: Pose,
}

impl Run for PoseStamped {
    open spec fn kinds() -> Seq<Kind> {
        Header::kinds() + Pose::kinds()
    }

    open spec fn fields(&self) -> Seq<Field> {
        self.header.fields() + self.pose.fields()
    }

    open spec fn unsequenced(&self) -> bool {
        self.header.unsequenced()
    }

    proof fn lemma_kinds(&self) {
        broadcast use group_runs;

        self.header.lemma_kinds();
        self.pose.lemma_kinds();
    }

    fn read(reader: &mut Reader) -> (r: Result<Self, CdrError>) {
        broadcast use group_runs;

        let header: Header = Header::read(reader)?;
        let pose: Pose = Pose::read(reader)?;
        Ok(PoseStamped { header, pose })
    }

    fn put(&self, writer: &mut Writer) {
        broadcast use {group_runs, group_writable};

        self.header.put(writer);
        self.pose.put(writer);
    }
}

#[derive(Debug, PartialEq, Eq)]
pub struct TransformStamped {
    pub header: Header,
    pub child_frame_id: String,
    pub transform: Transform,
}

impl Run for TransformStamped {
    open spec fn kinds() -> Seq<Kind> {
        Header::kinds() + one(Kind::Text) + Transform::kinds()
    }

    open spec fn fields(&self) -> Seq<Field> {
        self.header.fields() + just(Field::Text(self.child_frame_id@)) + self.transform.fields()
    }

    open spec fn unsequenced(&self) -> bool {
        self.header.unsequenced()
    }

    proof fn lemma_kinds(&self) {
        broadcast use group_runs;

        self.header.lemma_kinds();
        self.transform.lemma_kinds();
    }

    fn read(reader: &mut Reader) -> (r: Result<Self, CdrError>) {
        broadcast use group_runs;

        let header: Header = Header::read(reader)?;
        let child_frame_id: String = reader.string()?;
        let transform: Transform = Transform::read(reader)?;
        Ok(TransformStamped { header, child_frame_id, transform })
    }

    fn put(&self, writer: &mut Writer) {
        broadcast use {group_runs, group_writable};

        self.header.put(writer);
        writer.string(self.child_frame_id.as_str());
        self.transform.put(writer);
    }
}

#[derive(Clone, Copy, Debug, PartialEq, Eq)]
pub struct PoseWithCovariance {
    pub pose: Pose,
    pub covariance: [F64; 36],
}

impl Run for PoseWithCovariance {
    open spec fn kinds() -> Seq<Kind> {
        Pose::kinds() + doubles(36)
    }

    open spec fn fields(&self) -> Seq<Field> {
        self.pose.fields() + double_fields(self.covariance@)
    }

    open spec fn unsequenced(&self) -> bool {
        true
    }

    proof fn lemma_kinds(&self) {
        broadcast use group_runs;

        lemma_double_kinds(self.covariance@);
        self.pose.lemma_kinds();
    }

    fn read(reader: &mut Reader) -> (r: Result<Self, CdrError>) {
        broadcast use group_runs;

        let pose: Pose = Pose::read(reader)?;
        let covariance: [F64; 36] = read_doubles::<36>(reader)?;
        Ok(PoseWithCovariance { pose, covariance })
    }

    fn put(&self, writer: &mut Writer) {
        broadcast use {group_runs, group_writable};

        self.pose.put(writer);
        put_doubles(writer, &self.covariance);
    }
}

#[derive(Clone, Copy, Debug, PartialEq, Eq)]
pub struct TwistWithCovariance {
    pub twist: Twist,
    pub covariance: [F64; 36],
}

impl Run for TwistWithCovariance {
    open spec fn kinds() -> Seq<Kind> {
        Twist::kinds() + doubles(36)
    }

    open spec fn fields(&self) -> Seq<Field> {
        self.twist.fields() + double_fields(self.covariance@)
    }

    open spec fn unsequenced(&self) -> bool {
        true
    }

    proof fn lemma_kinds(&self) {
        broadcast use group_runs;

        lemma_double_kinds(self.covariance@);
        self.twist.lemma_kinds();
    }

    fn read(reader: &mut Reader) -> (r: Result<Self, CdrError>) {
        broadcast use group_runs;

        let twist: Twist = Twist::read(reader)?;
        let covariance: [F64; 36] = read_doubles::<36>(reader)?;
        Ok(TwistWithCovariance { twist, covariance })
    }

    fn put(&self, writer: &mut Writer) {
        broadcast use {group_runs, group_writable};

        self.twist.put(writer);
        put_doubles(writer, &self.covariance);
    }
}

#[derive(Debug, PartialEq, Eq)]
pub struct Odometry {
    pub header: Header,
    pub child_frame_id: String,
    pub pose: PoseWithCovariance,
    pub twist: TwistWithCovariance,
}

impl Run for Odometry {
    open spec fn kinds() -> Seq<Kind> {
        Header::kinds()
            + one(Kind::Text)
            + PoseWithCovariance::kinds()
            + TwistWithCovariance::kinds()
    }

    open spec fn fields(&self) -> Seq<Field> {
        self.header.fields()
            + just(Field::Text(self.child_frame_id@))
            + self.pose.fields()
            + self.twist.fields()
    }

    open spec fn unsequenced(&self) -> bool {
        self.header.unsequenced()
    }

    proof fn lemma_kinds(&self) {
        broadcast use group_runs;

        self.header.lemma_kinds();
        self.pose.lemma_kinds();
        self.twist.lemma_kinds();
    }

    fn read(reader: &mut Reader) -> (r: Result<Self, CdrError>) {
        broadcast use group_runs;

        let header: Header = Header::read(reader)?;
        let child_frame_id: String = reader.string()?;
        let pose: PoseWithCovariance = PoseWithCovariance::read(reader)?;
        let twist: TwistWithCovariance = TwistWithCovariance::read(reader)?;
        Ok(Odometry { header, child_frame_id, pose, twist })
    }

    fn put(&self, writer: &mut Writer) {
        broadcast use {group_runs, group_writable};

        self.header.put(writer);
        writer.string(self.child_frame_id.as_str());
        self.pose.put(writer);
        self.twist.put(writer);
    }
}

#[derive(Debug, PartialEq, Eq)]
pub struct Imu {
    pub header: Header,
    pub orientation: Quaternion,
    pub orientation_covariance: [F64; 9],
    pub angular_velocity: Vector3,
    pub angular_velocity_covariance: [F64; 9],
    pub linear_acceleration: Vector3,
    pub linear_acceleration_covariance: [F64; 9],
}

impl Run for Imu {
    open spec fn kinds() -> Seq<Kind> {
        Header::kinds()
            + Quaternion::kinds()
            + doubles(9)
            + Vector3::kinds()
            + doubles(9)
            + Vector3::kinds()
            + doubles(9)
    }

    open spec fn fields(&self) -> Seq<Field> {
        self.header.fields()
            + self.orientation.fields()
            + double_fields(self.orientation_covariance@)
            + self.angular_velocity.fields()
            + double_fields(self.angular_velocity_covariance@)
            + self.linear_acceleration.fields()
            + double_fields(self.linear_acceleration_covariance@)
    }

    open spec fn unsequenced(&self) -> bool {
        self.header.unsequenced()
    }

    proof fn lemma_kinds(&self) {
        broadcast use group_runs;

        lemma_double_kinds(self.orientation_covariance@);
        lemma_double_kinds(self.angular_velocity_covariance@);
        lemma_double_kinds(self.linear_acceleration_covariance@);
        self.header.lemma_kinds();
        self.orientation.lemma_kinds();
        self.angular_velocity.lemma_kinds();
        self.linear_acceleration.lemma_kinds();
    }

    fn read(reader: &mut Reader) -> (r: Result<Self, CdrError>) {
        broadcast use group_runs;

        let header: Header = Header::read(reader)?;
        let orientation: Quaternion = Quaternion::read(reader)?;
        let orientation_covariance: [F64; 9] = read_doubles::<9>(reader)?;
        let angular_velocity: Vector3 = Vector3::read(reader)?;
        let angular_velocity_covariance: [F64; 9] = read_doubles::<9>(reader)?;
        let linear_acceleration: Vector3 = Vector3::read(reader)?;
        let linear_acceleration_covariance: [F64; 9] = read_doubles::<9>(reader)?;
        Ok(
            Imu {
                header,
                orientation,
                orientation_covariance,
                angular_velocity,
                angular_velocity_covariance,
                linear_acceleration,
                linear_acceleration_covariance,
            },
        )
    }

    fn put(&self, writer: &mut Writer) {
        broadcast use {group_runs, group_writable};

        self.header.put(writer);
        self.orientation.put(writer);
        put_doubles(writer, &self.orientation_covariance);
        self.angular_velocity.put(writer);
        put_doubles(writer, &self.angular_velocity_covariance);
        self.linear_acceleration.put(writer);
        put_doubles(writer, &self.linear_acceleration_covariance);
    }
}

#[derive(Debug, PartialEq, Eq)]
pub struct Image {
    pub header: Header,
    pub height: i32,
    pub width: i32,
    pub encoding: String,
    pub is_bigendian: u8,
    pub step: i32,
    pub data: Vec<u8>,
}

impl Run for Image {
    open spec fn kinds() -> Seq<Kind> {
        Header::kinds()
            + one(Kind::I32)
            + one(Kind::I32)
            + one(Kind::Text)
            + one(Kind::U8)
            + one(Kind::I32)
            + one(Kind::Bytes)
    }

    open spec fn fields(&self) -> Seq<Field> {
        self.header.fields()
            + just(Field::I32(self.height))
            + just(Field::I32(self.width))
            + just(Field::Text(self.encoding@))
            + just(Field::U8(self.is_bigendian))
            + just(Field::I32(self.step))
            + just(Field::Bytes(self.data@))
    }

    open spec fn unsequenced(&self) -> bool {
        self.header.unsequenced()
    }

    proof fn lemma_kinds(&self) {
        broadcast use group_runs;

        self.header.lemma_kinds();
    }

    #[verifier::rlimit(60)]
    #[verifier::spinoff_prover]
    fn read(reader: &mut Reader) -> (r: Result<Self, CdrError>) {
        broadcast use group_runs;

        let header: Header = Header::read(reader)?;
        let height: i32 = reader.i32()?;
        let width: i32 = reader.i32()?;
        let encoding: String = reader.string()?;
        let is_bigendian: u8 = reader.u8()?;
        let step: i32 = reader.i32()?;
        let data: Vec<u8> = reader.bytes()?;
        Ok(Image { header, height, width, encoding, is_bigendian, step, data })
    }

    fn put(&self, writer: &mut Writer) {
        broadcast use {group_runs, group_writable};

        self.header.put(writer);
        writer.i32(self.height);
        writer.i32(self.width);
        writer.string(self.encoding.as_str());
        writer.u8(self.is_bigendian);
        writer.i32(self.step);
        writer.bytes(self.data.as_slice());
    }
}

#[derive(Debug, PartialEq, Eq)]
pub struct CompressedImage {
    pub header: Header,
    pub format: String,
    pub data: Vec<u8>,
}

impl Run for CompressedImage {
    open spec fn kinds() -> Seq<Kind> {
        Header::kinds() + one(Kind::Text) + one(Kind::Bytes)
    }

    open spec fn fields(&self) -> Seq<Field> {
        self.header.fields() + just(Field::Text(self.format@)) + just(Field::Bytes(self.data@))
    }

    open spec fn unsequenced(&self) -> bool {
        self.header.unsequenced()
    }

    proof fn lemma_kinds(&self) {
        broadcast use group_runs;

        self.header.lemma_kinds();
    }

    fn read(reader: &mut Reader) -> (r: Result<Self, CdrError>) {
        broadcast use group_runs;

        let header: Header = Header::read(reader)?;
        let format: String = reader.string()?;
        let data: Vec<u8> = reader.bytes()?;
        Ok(CompressedImage { header, format, data })
    }

    fn put(&self, writer: &mut Writer) {
        broadcast use {group_runs, group_writable};

        self.header.put(writer);
        writer.string(self.format.as_str());
        writer.bytes(self.data.as_slice());
    }
}

#[derive(Clone, Copy, Debug, PartialEq, Eq)]
pub struct RegionOfInterest {
    pub x_offset: i32,
    pub y_offset: i32,
    pub height: i32,
    pub width: i32,
    pub do_rectify: bool,
}

impl Run for RegionOfInterest {
    open spec fn kinds() -> Seq<Kind> {
        one(Kind::I32) + one(Kind::I32) + one(Kind::I32) + one(Kind::I32) + one(Kind::Bool)
    }

    open spec fn fields(&self) -> Seq<Field> {
        just(Field::I32(self.x_offset))
            + just(Field::I32(self.y_offset))
            + just(Field::I32(self.height))
            + just(Field::I32(self.width))
            + just(Field::Bool(self.do_rectify))
    }

    open spec fn unsequenced(&self) -> bool {
        true
    }

    proof fn lemma_kinds(&self) {
        broadcast use group_runs;

    }

    fn read(reader: &mut Reader) -> (r: Result<Self, CdrError>) {
        broadcast use group_runs;

        let x_offset: i32 = reader.i32()?;
        let y_offset: i32 = reader.i32()?;
        let height: i32 = reader.i32()?;
        let width: i32 = reader.i32()?;
        let do_rectify: bool = reader.bool()?;
        Ok(RegionOfInterest { x_offset, y_offset, height, width, do_rectify })
    }

    fn put(&self, writer: &mut Writer) {
        broadcast use {group_runs, group_writable};

        writer.i32(self.x_offset);
        writer.i32(self.y_offset);
        writer.i32(self.height);
        writer.i32(self.width);
        writer.bool(self.do_rectify);
    }
}

#[derive(Debug, PartialEq, Eq)]
pub struct PointField {
    pub name: String,
    pub offset: i32,
    pub datatype: u8,
    pub count: i32,
}

impl Run for PointField {
    open spec fn kinds() -> Seq<Kind> {
        one(Kind::Text) + one(Kind::I32) + one(Kind::U8) + one(Kind::I32)
    }

    open spec fn fields(&self) -> Seq<Field> {
        just(Field::Text(self.name@))
            + just(Field::I32(self.offset))
            + just(Field::U8(self.datatype))
            + just(Field::I32(self.count))
    }

    open spec fn unsequenced(&self) -> bool {
        true
    }

    proof fn lemma_kinds(&self) {
        broadcast use group_runs;

    }

    fn read(reader: &mut Reader) -> (r: Result<Self, CdrError>) {
        broadcast use group_runs;

        let name: String = reader.string()?;
        let offset: i32 = reader.i32()?;
        let datatype: u8 = reader.u8()?;
        let count: i32 = reader.i32()?;
        Ok(PointField { name, offset, datatype, count })
    }

    fn put(&self, writer: &mut Writer) {
        broadcast use {group_runs, group_writable};

        writer.string(self.name.as_str());
        writer.i32(self.offset);
        writer.u8(self.datatype);
        writer.i32(self.count);
    }
}


// ------------------------------------------------------------ counted messages
/// Whether every text in a message can be given a length that counts its null.
pub open spec fn writable(chunks: Seq<Chunk>) -> bool {
    forall|i: int| 0 <= i < chunks.len() ==> chunk_writable(#[trigger] chunks[i])
}

broadcast proof fn lemma_writable_parts_concat(first: Seq<Chunk>, second: Seq<Chunk>)
    ensures
        #[trigger] writable(first + second) == (writable(first) && writable(second)),
{
    if writable(first + second) {
        assert forall|i: int| 0 <= i < first.len() implies chunk_writable(#[trigger] first[i]) by {
            assert((first + second)[i] == first[i]);
        }
        assert forall|i: int| 0 <= i < second.len() implies chunk_writable(#[trigger] second[i]) by {
            assert((first + second)[first.len() + i] == second[i]);
        }
    }
}

broadcast proof fn lemma_writable_part_one(c: Chunk)
    ensures
        #[trigger] writable(chunk(c)) == chunk_writable(c),
{
    assert(chunk(c)[0] == c);
}

broadcast group group_writable_parts {
    lemma_writable_parts_concat,
    lemma_writable_part_one,
}

#[derive(Debug, PartialEq, Eq)]
pub struct TFMessage {
    pub transforms: Vec<TransformStamped>,
}

impl TFMessage {
    pub open spec fn parts() -> Seq<Part> {
        part(Part::Many(TransformStamped::kinds()))
    }

    pub open spec fn content(&self) -> Seq<Chunk> {
        chunk(Chunk::Many(items_of(self.transforms@)))
    }

    pub open spec fn unsequenced(&self) -> bool {
        &&& forall|i: int|
            0 <= i < self.transforms@.len() ==> (#[trigger] self.transforms@[i]).unsequenced()
    }

    pub fn read(reader: &mut Reader) -> (r: Result<Self, CdrError>)
        ensures
            match read_parts(
                old(reader).body@,
                old(reader).little_endian,
                old(reader).position as nat,
                Self::parts(),
            ) {
                Some((content, end)) => {
                    &&& r matches Ok(value) && value.content() == content && value.unsequenced()
                    &&& final(reader).moved(old(reader), end)
                },
                None => {
                    &&& r matches Err(error) && error == CdrError::EndedEarly
                    &&& final(reader).stopped(
                        old(reader),
                        parts_stop(
                            old(reader).body@,
                            old(reader).little_endian,
                            old(reader).position as nat,
                            Self::parts(),
                        ),
                    )
                },
            },
    {
        broadcast use {group_runs, group_parts};

        let transforms: Vec<TransformStamped> = read_many::<TransformStamped>(reader)?;
        Ok(TFMessage { transforms })
    }

    pub fn put(&self, writer: &mut Writer)
        requires
            writable(self.content()),
        ensures
            final(writer).body@ == put_chunks(old(writer).body@, self.content()),
    {
        broadcast use {group_runs, group_parts, group_writable, group_writable_parts};

        put_many(writer, &self.transforms);
    }
}

#[derive(Debug, PartialEq, Eq)]
pub struct Path {
    pub header: Header,
    pub poses: Vec<PoseStamped>,
}

impl Path {
    pub open spec fn parts() -> Seq<Part> {
        part(Part::Run(Header::kinds())) + part(Part::Many(PoseStamped::kinds()))
    }

    pub open spec fn content(&self) -> Seq<Chunk> {
        chunk(Chunk::Run(self.header.fields())) + chunk(Chunk::Many(items_of(self.poses@)))
    }

    pub open spec fn unsequenced(&self) -> bool {
        &&& self.header.unsequenced()
        &&& forall|i: int|
            0 <= i < self.poses@.len() ==> (#[trigger] self.poses@[i]).unsequenced()
    }

    pub fn read(reader: &mut Reader) -> (r: Result<Self, CdrError>)
        ensures
            match read_parts(
                old(reader).body@,
                old(reader).little_endian,
                old(reader).position as nat,
                Self::parts(),
            ) {
                Some((content, end)) => {
                    &&& r matches Ok(value) && value.content() == content && value.unsequenced()
                    &&& final(reader).moved(old(reader), end)
                },
                None => {
                    &&& r matches Err(error) && error == CdrError::EndedEarly
                    &&& final(reader).stopped(
                        old(reader),
                        parts_stop(
                            old(reader).body@,
                            old(reader).little_endian,
                            old(reader).position as nat,
                            Self::parts(),
                        ),
                    )
                },
            },
    {
        broadcast use {group_runs, group_parts};

        let header: Header = Header::read(reader)?;
        let poses: Vec<PoseStamped> = read_many::<PoseStamped>(reader)?;
        Ok(Path { header, poses })
    }

    pub fn put(&self, writer: &mut Writer)
        requires
            writable(self.content()),
        ensures
            final(writer).body@ == put_chunks(old(writer).body@, self.content()),
    {
        broadcast use {group_runs, group_parts, group_writable, group_writable_parts};

        self.header.put(writer);
        put_many(writer, &self.poses);
    }
}

#[derive(Debug, PartialEq, Eq)]
pub struct CameraInfo {
    pub header: Header,
    pub height: i32,
    pub width: i32,
    pub distortion_model: String,
    pub d: Vec<F64>,
    pub k: [F64; 9],
    pub r: [F64; 9],
    pub p: [F64; 12],
    pub binning_x: i32,
    pub binning_y: i32,
    pub roi: RegionOfInterest,
}

impl CameraInfo {
    pub open spec fn parts() -> Seq<Part> {
        part(Part::Run(Header::kinds() + one(Kind::I32) + one(Kind::I32) + one(Kind::Text)))
            + part(Part::Many(F64::kinds()))
            + part(
                Part::Run(
                    doubles(9)
                        + doubles(9)
                        + doubles(12)
                        + one(Kind::I32)
                        + one(Kind::I32)
                        + RegionOfInterest::kinds(),
                ),
            )
    }

    pub open spec fn content(&self) -> Seq<Chunk> {
        chunk(
            Chunk::Run(
                self.header.fields()
                    + just(Field::I32(self.height))
                    + just(Field::I32(self.width))
                    + just(Field::Text(self.distortion_model@)),
            ),
        )
            + chunk(Chunk::Many(items_of(self.d@)))
            + chunk(
                Chunk::Run(
                    double_fields(self.k@)
                        + double_fields(self.r@)
                        + double_fields(self.p@)
                        + just(Field::I32(self.binning_x))
                        + just(Field::I32(self.binning_y))
                        + self.roi.fields(),
                ),
            )
    }

    pub open spec fn unsequenced(&self) -> bool {
        &&& self.header.unsequenced()
    }

    #[verifier::rlimit(60)]
    #[verifier::spinoff_prover]
    pub fn read(reader: &mut Reader) -> (r: Result<Self, CdrError>)
        ensures
            match read_parts(
                old(reader).body@,
                old(reader).little_endian,
                old(reader).position as nat,
                Self::parts(),
            ) {
                Some((content, end)) => {
                    &&& r matches Ok(value) && value.content() == content && value.unsequenced()
                    &&& final(reader).moved(old(reader), end)
                },
                None => {
                    &&& r matches Err(error) && error == CdrError::EndedEarly
                    &&& final(reader).stopped(
                        old(reader),
                        parts_stop(
                            old(reader).body@,
                            old(reader).little_endian,
                            old(reader).position as nat,
                            Self::parts(),
                        ),
                    )
                },
            },
    {
        broadcast use {group_runs, group_parts};

        let header: Header = Header::read(reader)?;
        let height: i32 = reader.i32()?;
        let width: i32 = reader.i32()?;
        let distortion_model: String = reader.string()?;
        let d: Vec<F64> = read_many::<F64>(reader)?;
        let k: [F64; 9] = read_doubles::<9>(reader)?;
        let r: [F64; 9] = read_doubles::<9>(reader)?;
        let p: [F64; 12] = read_doubles::<12>(reader)?;
        let binning_x: i32 = reader.i32()?;
        let binning_y: i32 = reader.i32()?;
        let roi: RegionOfInterest = RegionOfInterest::read(reader)?;
        Ok(
            CameraInfo {
                header,
                height,
                width,
                distortion_model,
                d,
                k,
                r,
                p,
                binning_x,
                binning_y,
                roi,
            },
        )
    }

    pub fn put(&self, writer: &mut Writer)
        requires
            writable(self.content()),
        ensures
            final(writer).body@ == put_chunks(old(writer).body@, self.content()),
    {
        broadcast use {group_runs, group_parts, group_writable, group_writable_parts};

        self.header.put(writer);
        writer.i32(self.height);
        writer.i32(self.width);
        writer.string(self.distortion_model.as_str());
        put_many(writer, &self.d);
        put_doubles(writer, &self.k);
        put_doubles(writer, &self.r);
        put_doubles(writer, &self.p);
        writer.i32(self.binning_x);
        writer.i32(self.binning_y);
        self.roi.put(writer);
    }
}

#[derive(Debug, PartialEq, Eq)]
pub struct PointCloud2 {
    pub header: Header,
    pub height: i32,
    pub width: i32,
    pub fields: Vec<PointField>,
    pub is_bigendian: bool,
    pub point_step: i32,
    pub row_step: i32,
    pub data: Vec<u8>,
    pub is_dense: bool,
}

impl PointCloud2 {
    pub open spec fn parts() -> Seq<Part> {
        part(Part::Run(Header::kinds() + one(Kind::I32) + one(Kind::I32)))
            + part(Part::Many(PointField::kinds()))
            + part(
                Part::Run(
                    one(Kind::Bool)
                        + one(Kind::I32)
                        + one(Kind::I32)
                        + one(Kind::Bytes)
                        + one(Kind::Bool),
                ),
            )
    }

    pub open spec fn content(&self) -> Seq<Chunk> {
        chunk(
            Chunk::Run(
                self.header.fields()
                    + just(Field::I32(self.height))
                    + just(Field::I32(self.width)),
            ),
        )
            + chunk(Chunk::Many(items_of(self.fields@)))
            + chunk(
                Chunk::Run(
                    just(Field::Bool(self.is_bigendian))
                        + just(Field::I32(self.point_step))
                        + just(Field::I32(self.row_step))
                        + just(Field::Bytes(self.data@))
                        + just(Field::Bool(self.is_dense)),
                ),
            )
    }

    pub open spec fn unsequenced(&self) -> bool {
        &&& self.header.unsequenced()
    }

    #[verifier::rlimit(60)]
    #[verifier::spinoff_prover]
    pub fn read(reader: &mut Reader) -> (r: Result<Self, CdrError>)
        ensures
            match read_parts(
                old(reader).body@,
                old(reader).little_endian,
                old(reader).position as nat,
                Self::parts(),
            ) {
                Some((content, end)) => {
                    &&& r matches Ok(value) && value.content() == content && value.unsequenced()
                    &&& final(reader).moved(old(reader), end)
                },
                None => {
                    &&& r matches Err(error) && error == CdrError::EndedEarly
                    &&& final(reader).stopped(
                        old(reader),
                        parts_stop(
                            old(reader).body@,
                            old(reader).little_endian,
                            old(reader).position as nat,
                            Self::parts(),
                        ),
                    )
                },
            },
    {
        broadcast use {group_runs, group_parts};

        let header: Header = Header::read(reader)?;
        let height: i32 = reader.i32()?;
        let width: i32 = reader.i32()?;
        let fields: Vec<PointField> = read_many::<PointField>(reader)?;
        let is_bigendian: bool = reader.bool()?;
        let point_step: i32 = reader.i32()?;
        let row_step: i32 = reader.i32()?;
        let data: Vec<u8> = reader.bytes()?;
        let is_dense: bool = reader.bool()?;
        Ok(
            PointCloud2 {
                header,
                height,
                width,
                fields,
                is_bigendian,
                point_step,
                row_step,
                data,
                is_dense,
            },
        )
    }

    pub fn put(&self, writer: &mut Writer)
        requires
            writable(self.content()),
        ensures
            final(writer).body@ == put_chunks(old(writer).body@, self.content()),
    {
        broadcast use {group_runs, group_parts, group_writable, group_writable_parts};

        self.header.put(writer);
        writer.i32(self.height);
        writer.i32(self.width);
        put_many(writer, &self.fields);
        writer.bool(self.is_bigendian);
        writer.i32(self.point_step);
        writer.i32(self.row_step);
        writer.bytes(self.data.as_slice());
        writer.bool(self.is_dense);
    }
}

#[derive(Debug, PartialEq, Eq)]
pub struct JointState {
    pub header: Header,
    pub name: Vec<String>,
    pub position: Vec<F64>,
    pub velocity: Vec<F64>,
    pub effort: Vec<F64>,
}

impl JointState {
    pub open spec fn parts() -> Seq<Part> {
        part(Part::Run(Header::kinds()))
            + part(Part::Many(String::kinds()))
            + part(Part::Many(F64::kinds()))
            + part(Part::Many(F64::kinds()))
            + part(Part::Many(F64::kinds()))
    }

    pub open spec fn content(&self) -> Seq<Chunk> {
        chunk(Chunk::Run(self.header.fields()))
            + chunk(Chunk::Many(items_of(self.name@)))
            + chunk(Chunk::Many(items_of(self.position@)))
            + chunk(Chunk::Many(items_of(self.velocity@)))
            + chunk(Chunk::Many(items_of(self.effort@)))
    }

    pub open spec fn unsequenced(&self) -> bool {
        &&& self.header.unsequenced()
    }

    pub fn read(reader: &mut Reader) -> (r: Result<Self, CdrError>)
        ensures
            match read_parts(
                old(reader).body@,
                old(reader).little_endian,
                old(reader).position as nat,
                Self::parts(),
            ) {
                Some((content, end)) => {
                    &&& r matches Ok(value) && value.content() == content && value.unsequenced()
                    &&& final(reader).moved(old(reader), end)
                },
                None => {
                    &&& r matches Err(error) && error == CdrError::EndedEarly
                    &&& final(reader).stopped(
                        old(reader),
                        parts_stop(
                            old(reader).body@,
                            old(reader).little_endian,
                            old(reader).position as nat,
                            Self::parts(),
                        ),
                    )
                },
            },
    {
        broadcast use {group_runs, group_parts};

        let header: Header = Header::read(reader)?;
        let name: Vec<String> = read_many::<String>(reader)?;
        let position: Vec<F64> = read_many::<F64>(reader)?;
        let velocity: Vec<F64> = read_many::<F64>(reader)?;
        let effort: Vec<F64> = read_many::<F64>(reader)?;
        Ok(JointState { header, name, position, velocity, effort })
    }

    pub fn put(&self, writer: &mut Writer)
        requires
            writable(self.content()),
        ensures
            final(writer).body@ == put_chunks(old(writer).body@, self.content()),
    {
        broadcast use {group_runs, group_parts, group_writable, group_writable_parts};

        self.header.put(writer);
        put_many(writer, &self.name);
        put_many(writer, &self.position);
        put_many(writer, &self.velocity);
        put_many(writer, &self.effort);
    }
}

#[derive(Debug, PartialEq, Eq)]
pub struct LaserScan {
    pub header: Header,
    pub angle_min: F32,
    pub angle_max: F32,
    pub angle_increment: F32,
    pub time_increment: F32,
    pub scan_time: F32,
    pub range_min: F32,
    pub range_max: F32,
    pub ranges: Vec<F32>,
    pub intensities: Vec<F32>,
}

impl LaserScan {
    pub open spec fn parts() -> Seq<Part> {
        part(
            Part::Run(
                Header::kinds()
                    + one(Kind::F32)
                    + one(Kind::F32)
                    + one(Kind::F32)
                    + one(Kind::F32)
                    + one(Kind::F32)
                    + one(Kind::F32)
                    + one(Kind::F32),
            ),
        )
            + part(Part::Many(F32::kinds()))
            + part(Part::Many(F32::kinds()))
    }

    pub open spec fn content(&self) -> Seq<Chunk> {
        chunk(
            Chunk::Run(
                self.header.fields()
                    + just(Field::F32(self.angle_min.bits))
                    + just(Field::F32(self.angle_max.bits))
                    + just(Field::F32(self.angle_increment.bits))
                    + just(Field::F32(self.time_increment.bits))
                    + just(Field::F32(self.scan_time.bits))
                    + just(Field::F32(self.range_min.bits))
                    + just(Field::F32(self.range_max.bits)),
            ),
        )
            + chunk(Chunk::Many(items_of(self.ranges@)))
            + chunk(Chunk::Many(items_of(self.intensities@)))
    }

    pub open spec fn unsequenced(&self) -> bool {
        &&& self.header.unsequenced()
    }

    #[verifier::rlimit(60)]
    #[verifier::spinoff_prover]
    pub fn read(reader: &mut Reader) -> (r: Result<Self, CdrError>)
        ensures
            match read_parts(
                old(reader).body@,
                old(reader).little_endian,
                old(reader).position as nat,
                Self::parts(),
            ) {
                Some((content, end)) => {
                    &&& r matches Ok(value) && value.content() == content && value.unsequenced()
                    &&& final(reader).moved(old(reader), end)
                },
                None => {
                    &&& r matches Err(error) && error == CdrError::EndedEarly
                    &&& final(reader).stopped(
                        old(reader),
                        parts_stop(
                            old(reader).body@,
                            old(reader).little_endian,
                            old(reader).position as nat,
                            Self::parts(),
                        ),
                    )
                },
            },
    {
        broadcast use {group_runs, group_parts};

        let header: Header = Header::read(reader)?;
        let angle_min: F32 = reader.float()?;
        let angle_max: F32 = reader.float()?;
        let angle_increment: F32 = reader.float()?;
        let time_increment: F32 = reader.float()?;
        let scan_time: F32 = reader.float()?;
        let range_min: F32 = reader.float()?;
        let range_max: F32 = reader.float()?;
        let ranges: Vec<F32> = read_many::<F32>(reader)?;
        let intensities: Vec<F32> = read_many::<F32>(reader)?;
        Ok(
            LaserScan {
                header,
                angle_min,
                angle_max,
                angle_increment,
                time_increment,
                scan_time,
                range_min,
                range_max,
                ranges,
                intensities,
            },
        )
    }

    pub fn put(&self, writer: &mut Writer)
        requires
            writable(self.content()),
        ensures
            final(writer).body@ == put_chunks(old(writer).body@, self.content()),
    {
        broadcast use {group_runs, group_parts, group_writable, group_writable_parts};

        self.header.put(writer);
        writer.float(self.angle_min);
        writer.float(self.angle_max);
        writer.float(self.angle_increment);
        writer.float(self.time_increment);
        writer.float(self.scan_time);
        writer.float(self.range_min);
        writer.float(self.range_max);
        put_many(writer, &self.ranges);
        put_many(writer, &self.intensities);
    }
}

} // verus!
