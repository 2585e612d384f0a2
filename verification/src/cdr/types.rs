//! The types that have a CDR layout, and a message of any of them.
use super::layout::{
    chunk, chunk_fits, chunk_small, chunks_fit, group_parts, group_runs, part, parts_stop, put_chunks,
    read_parts, run_fits, small, Chunk, Part,
};
use super::messages::{
    chunk_writable, items_of, lemma_double_kinds, writable, CameraInfo, CompressedImage, Image,
    Imu, JointState, LaserScan, Odometry, Path, PointCloud2, PoseStamped, Run, TFMessage,
    TransformStamped,
};
use super::reader::Reader;
use super::writer::Writer;
use super::CdrError;
use crate::text::same;
use vstd::prelude::*;

verus! {

/// A message type that has a CDR layout.
#[derive(Clone, Copy, Debug, PartialEq, Eq, Structural)]
pub enum MessageType {
    PoseStamped,
    TransformStamped,
    Odometry,
    Path,
    CameraInfo,
    CompressedImage,
    Image,
    Imu,
    JointState,
    LaserScan,
    PointCloud2,
    TFMessage,
}

/// The type that goes by a name such as `sensor_msgs.Imu`.
pub open spec fn type_named(name: Seq<char>) -> Option<MessageType> {
    if name == "geometry_msgs.PoseStamped"@ {
        Some(MessageType::PoseStamped)
    }     else if name == "geometry_msgs.TransformStamped"@ {
        Some(MessageType::TransformStamped)
    }     else if name == "nav_msgs.Odometry"@ {
        Some(MessageType::Odometry)
    }     else if name == "nav_msgs.Path"@ {
        Some(MessageType::Path)
    }     else if name == "sensor_msgs.CameraInfo"@ {
        Some(MessageType::CameraInfo)
    }     else if name == "sensor_msgs.CompressedImage"@ {
        Some(MessageType::CompressedImage)
    }     else if name == "sensor_msgs.Image"@ {
        Some(MessageType::Image)
    }     else if name == "sensor_msgs.Imu"@ {
        Some(MessageType::Imu)
    }     else if name == "sensor_msgs.JointState"@ {
        Some(MessageType::JointState)
    }     else if name == "sensor_msgs.LaserScan"@ {
        Some(MessageType::LaserScan)
    }     else if name == "sensor_msgs.PointCloud2"@ {
        Some(MessageType::PointCloud2)
    }     else if name == "tf2_msgs.TFMessage"@ {
        Some(MessageType::TFMessage)
    } else {
        None
    }
}

impl MessageType {
    /// The name that the type goes by.
    pub open spec fn name(self) -> Seq<char> {
        match self {
            MessageType::PoseStamped => "geometry_msgs.PoseStamped"@,
            MessageType::TransformStamped => "geometry_msgs.TransformStamped"@,
            MessageType::Odometry => "nav_msgs.Odometry"@,
            MessageType::Path => "nav_msgs.Path"@,
            MessageType::CameraInfo => "sensor_msgs.CameraInfo"@,
            MessageType::CompressedImage => "sensor_msgs.CompressedImage"@,
            MessageType::Image => "sensor_msgs.Image"@,
            MessageType::Imu => "sensor_msgs.Imu"@,
            MessageType::JointState => "sensor_msgs.JointState"@,
            MessageType::LaserScan => "sensor_msgs.LaserScan"@,
            MessageType::PointCloud2 => "sensor_msgs.PointCloud2"@,
            MessageType::TFMessage => "tf2_msgs.TFMessage"@,
        }
    }

    /// The layout of a message of the type.
    pub open spec fn parts(self) -> Seq<Part> {
        match self {
            MessageType::PoseStamped => part(Part::Run(PoseStamped::kinds())),
            MessageType::TransformStamped => part(Part::Run(TransformStamped::kinds())),
            MessageType::Odometry => part(Part::Run(Odometry::kinds())),
            MessageType::Path => Path::parts(),
            MessageType::CameraInfo => CameraInfo::parts(),
            MessageType::CompressedImage => part(Part::Run(CompressedImage::kinds())),
            MessageType::Image => part(Part::Run(Image::kinds())),
            MessageType::Imu => part(Part::Run(Imu::kinds())),
            MessageType::JointState => JointState::parts(),
            MessageType::LaserScan => LaserScan::parts(),
            MessageType::PointCloud2 => PointCloud2::parts(),
            MessageType::TFMessage => TFMessage::parts(),
        }
    }

    pub fn named(name: &str) -> (r: Option<MessageType>)
        ensures
            r == type_named(name@),
    {
        if same(name, "geometry_msgs.PoseStamped") {
            Some(MessageType::PoseStamped)
        }         else if same(name, "geometry_msgs.TransformStamped") {
            Some(MessageType::TransformStamped)
        }         else if same(name, "nav_msgs.Odometry") {
            Some(MessageType::Odometry)
        }         else if same(name, "nav_msgs.Path") {
            Some(MessageType::Path)
        }         else if same(name, "sensor_msgs.CameraInfo") {
            Some(MessageType::CameraInfo)
        }         else if same(name, "sensor_msgs.CompressedImage") {
            Some(MessageType::CompressedImage)
        }         else if same(name, "sensor_msgs.Image") {
            Some(MessageType::Image)
        }         else if same(name, "sensor_msgs.Imu") {
            Some(MessageType::Imu)
        }         else if same(name, "sensor_msgs.JointState") {
            Some(MessageType::JointState)
        }         else if same(name, "sensor_msgs.LaserScan") {
            Some(MessageType::LaserScan)
        }         else if same(name, "sensor_msgs.PointCloud2") {
            Some(MessageType::PointCloud2)
        }         else if same(name, "tf2_msgs.TFMessage") {
            Some(MessageType::TFMessage)
        } else {
            None
        }
    }
}

/// Every type is found again by its name, and by no other.
pub proof fn law_types_have_one_name_each(message_type: MessageType, name: Seq<char>)
    ensures
        type_named(message_type.name()) == Some(message_type),
        type_named(name) == Some(message_type) ==> name == message_type.name(),
{
    reveal_strlit("geometry_msgs.PoseStamped");
    reveal_strlit("geometry_msgs.TransformStamped");
    reveal_strlit("nav_msgs.Odometry");
    reveal_strlit("nav_msgs.Path");
    reveal_strlit("sensor_msgs.CameraInfo");
    reveal_strlit("sensor_msgs.CompressedImage");
    reveal_strlit("sensor_msgs.Image");
    reveal_strlit("sensor_msgs.Imu");
    reveal_strlit("sensor_msgs.JointState");
    reveal_strlit("sensor_msgs.LaserScan");
    reveal_strlit("sensor_msgs.PointCloud2");
    reveal_strlit("tf2_msgs.TFMessage");
    assert("geometry_msgs.PoseStamped"@.len() == 25);
    assert("geometry_msgs.TransformStamped"@.len() == 30);
    assert("nav_msgs.Odometry"@.len() == 17);
    assert("nav_msgs.Path"@.len() == 13);
    assert("sensor_msgs.CameraInfo"@.len() == 22);
    assert("sensor_msgs.CompressedImage"@.len() == 27);
    assert("sensor_msgs.Image"@.len() == 17);
    assert("sensor_msgs.Imu"@.len() == 15);
    assert("sensor_msgs.JointState"@.len() == 22);
    assert("sensor_msgs.LaserScan"@.len() == 21);
    assert("sensor_msgs.PointCloud2"@.len() == 23);
    assert("tf2_msgs.TFMessage"@.len() == 18);
    assert("sensor_msgs.Image"@[0] != "nav_msgs.Odometry"@[0]);
    assert("sensor_msgs.JointState"@[12] != "sensor_msgs.CameraInfo"@[12]);
}

/// A message of one of the types.
#[derive(Debug, PartialEq, Eq)]
pub enum Message {
    PoseStamped(PoseStamped),
    TransformStamped(TransformStamped),
    Odometry(Odometry),
    Path(Path),
    CameraInfo(CameraInfo),
    CompressedImage(CompressedImage),
    Image(Image),
    Imu(Imu),
    JointState(JointState),
    LaserScan(LaserScan),
    PointCloud2(PointCloud2),
    TFMessage(TFMessage),
}

impl Message {
    /// The type of the message.
    pub open spec fn message_type(self) -> MessageType {
        match self {
            Message::PoseStamped(_) => MessageType::PoseStamped,
            Message::TransformStamped(_) => MessageType::TransformStamped,
            Message::Odometry(_) => MessageType::Odometry,
            Message::Path(_) => MessageType::Path,
            Message::CameraInfo(_) => MessageType::CameraInfo,
            Message::CompressedImage(_) => MessageType::CompressedImage,
            Message::Image(_) => MessageType::Image,
            Message::Imu(_) => MessageType::Imu,
            Message::JointState(_) => MessageType::JointState,
            Message::LaserScan(_) => MessageType::LaserScan,
            Message::PointCloud2(_) => MessageType::PointCloud2,
            Message::TFMessage(_) => MessageType::TFMessage,
        }
    }

    /// The fields of the message, in the order of its layout.
    pub open spec fn content(self) -> Seq<Chunk> {
        match self {
            Message::PoseStamped(message) => chunk(Chunk::Run(message.fields())),
            Message::TransformStamped(message) => chunk(Chunk::Run(message.fields())),
            Message::Odometry(message) => chunk(Chunk::Run(message.fields())),
            Message::Path(message) => message.content(),
            Message::CameraInfo(message) => message.content(),
            Message::CompressedImage(message) => chunk(Chunk::Run(message.fields())),
            Message::Image(message) => chunk(Chunk::Run(message.fields())),
            Message::Imu(message) => chunk(Chunk::Run(message.fields())),
            Message::JointState(message) => message.content(),
            Message::LaserScan(message) => message.content(),
            Message::PointCloud2(message) => message.content(),
            Message::TFMessage(message) => message.content(),
        }
    }

    /// Whether every `header.seq` in it is 0.
    pub open spec fn unsequenced(self) -> bool {
        match self {
            Message::PoseStamped(message) => message.unsequenced(),
            Message::TransformStamped(message) => message.unsequenced(),
            Message::Odometry(message) => message.unsequenced(),
            Message::Path(message) => message.unsequenced(),
            Message::CameraInfo(message) => message.unsequenced(),
            Message::CompressedImage(message) => message.unsequenced(),
            Message::Image(message) => message.unsequenced(),
            Message::Imu(message) => message.unsequenced(),
            Message::JointState(message) => message.unsequenced(),
            Message::LaserScan(message) => message.unsequenced(),
            Message::PointCloud2(message) => message.unsequenced(),
            Message::TFMessage(message) => message.unsequenced(),
        }
    }

    /// Whether the message is of the given type.
    pub fn is_a(&self, message_type: MessageType) -> (r: bool)
        ensures
            r == (self.message_type() == message_type),
    {
        match (self, message_type) {
            (Message::PoseStamped(_), MessageType::PoseStamped) => true,
            (Message::TransformStamped(_), MessageType::TransformStamped) => true,
            (Message::Odometry(_), MessageType::Odometry) => true,
            (Message::Path(_), MessageType::Path) => true,
            (Message::CameraInfo(_), MessageType::CameraInfo) => true,
            (Message::CompressedImage(_), MessageType::CompressedImage) => true,
            (Message::Image(_), MessageType::Image) => true,
            (Message::Imu(_), MessageType::Imu) => true,
            (Message::JointState(_), MessageType::JointState) => true,
            (Message::LaserScan(_), MessageType::LaserScan) => true,
            (Message::PointCloud2(_), MessageType::PointCloud2) => true,
            (Message::TFMessage(_), MessageType::TFMessage) => true,
            _ => false,
        }
    }

    /// Reads a message of the given type.
    pub fn read(message_type: MessageType, reader: &mut Reader) -> (r: Result<Message, CdrError>)
        ensures
            match read_parts(
                old(reader).body@,
                old(reader).little_endian,
                old(reader).position as nat,
                message_type.parts(),
            ) {
                Some((content, end)) => {
                    &&& r matches Ok(message) && message.message_type() == message_type
                        && message.content() == content && message.unsequenced()
                    &&& final(reader).moved(old(reader), end)
                },
                None => {
                    &&& r matches Err(error) && error == CdrError::EndedEarly
                    &&& final(reader).stopped(
                        old(reader),
                        parts_stop(
                            old(reader).body@,
                            old(reader).little_endian,
                            old(reader).position as nat,
                            message_type.parts(),
                        ),
                    )
                },
            },
    {
        broadcast use group_parts;

        let message: Message = match message_type {
            MessageType::PoseStamped => Message::PoseStamped(PoseStamped::read(reader)?),
            MessageType::TransformStamped => Message::TransformStamped(TransformStamped::read(reader)?),
            MessageType::Odometry => Message::Odometry(Odometry::read(reader)?),
            MessageType::Path => Message::Path(Path::read(reader)?),
            MessageType::CameraInfo => Message::CameraInfo(CameraInfo::read(reader)?),
            MessageType::CompressedImage => Message::CompressedImage(CompressedImage::read(reader)?),
            MessageType::Image => Message::Image(Image::read(reader)?),
            MessageType::Imu => Message::Imu(Imu::read(reader)?),
            MessageType::JointState => Message::JointState(JointState::read(reader)?),
            MessageType::LaserScan => Message::LaserScan(LaserScan::read(reader)?),
            MessageType::PointCloud2 => Message::PointCloud2(PointCloud2::read(reader)?),
            MessageType::TFMessage => Message::TFMessage(TFMessage::read(reader)?),
        };
        Ok(message)
    }

    /// Writes the message.
    pub fn put(&self, writer: &mut Writer)
        requires
            writable(self.content()),
        ensures
            final(writer).body@ == put_chunks(old(writer).body@, self.content()),
    {
        broadcast use group_parts;

        assert(forall|c: Chunk| #[trigger] writable(chunk(c)) ==> chunk_writable(chunk(c)[0]));
        match self {
            Message::PoseStamped(message) => message.put(writer),
            Message::TransformStamped(message) => message.put(writer),
            Message::Odometry(message) => message.put(writer),
            Message::Path(message) => message.put(writer),
            Message::CameraInfo(message) => message.put(writer),
            Message::CompressedImage(message) => message.put(writer),
            Message::Image(message) => message.put(writer),
            Message::Imu(message) => message.put(writer),
            Message::JointState(message) => message.put(writer),
            Message::LaserScan(message) => message.put(writer),
            Message::PointCloud2(message) => message.put(writer),
            Message::TFMessage(message) => message.put(writer),
        }
    }
}

/// A run of which every length is in range is one of its own type.
proof fn lemma_run_fits<T: Run>(value: T)
    requires
        chunk_small(Chunk::Run(value.fields())),
    ensures
        chunk_fits(Chunk::Run(value.fields()), Part::Run(T::kinds())),
{
    value.lemma_kinds();
}

/// A sequence of which every length and its count are in range is one of its own type.
proof fn lemma_items_fit<T: Run>(values: Seq<T>)
    requires
        chunk_small(Chunk::Many(items_of(values))),
    ensures
        chunk_fits(Chunk::Many(items_of(values)), Part::Many(T::kinds())),
{
    let items = items_of(values);
    assert forall|i: int| 0 <= i < items.len() implies run_fits(#[trigger] items[i], T::kinds()) by {
        values[i].lemma_kinds();
        assert(items[i] == values[i].fields());
    }
}

/// Every message has the layout of its type.
pub proof fn lemma_message_fits(message: Message)
    requires
        small(message.content()),
    ensures
        chunks_fit(message.content(), message.message_type().parts()),
{
    broadcast use group_runs;

    let content = message.content();
    assert(content.len() > 0 ==> chunk_small(content[0]));
    assert(content.len() > 1 ==> chunk_small(content[1]));
    assert(content.len() > 2 ==> chunk_small(content[2]));
    assert(content.len() > 3 ==> chunk_small(content[3]));
    assert(content.len() > 4 ==> chunk_small(content[4]));
    match message {
        Message::PoseStamped(m) => lemma_run_fits(m),
        Message::TransformStamped(m) => lemma_run_fits(m),
        Message::Odometry(m) => lemma_run_fits(m),
        Message::Path(m) => {
            lemma_run_fits(m.header);
            lemma_items_fit(m.poses@);
        },
        Message::CameraInfo(m) => {
            m.header.lemma_kinds();
            lemma_items_fit(m.d@);
            lemma_double_kinds(m.k@);
            lemma_double_kinds(m.r@);
            lemma_double_kinds(m.p@);
            m.roi.lemma_kinds();
        },
        Message::CompressedImage(m) => lemma_run_fits(m),
        Message::Image(m) => lemma_run_fits(m),
        Message::Imu(m) => lemma_run_fits(m),
        Message::JointState(m) => {
            m.header.lemma_kinds();
            lemma_items_fit(m.name@);
            lemma_items_fit(m.position@);
            lemma_items_fit(m.velocity@);
            lemma_items_fit(m.effort@);
        },
        Message::LaserScan(m) => {
            m.header.lemma_kinds();
            lemma_items_fit(m.ranges@);
            lemma_items_fit(m.intensities@);
        },
        Message::PointCloud2(m) => {
            m.header.lemma_kinds();
            lemma_items_fit(m.fields@);
        },
        Message::TFMessage(m) => {
            lemma_items_fit(m.transforms@);
        },
    }
}

} // verus!
