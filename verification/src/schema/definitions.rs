//! The definitions behind the schema texts: what each ROS type declares, how that is written down, and
//! what it lays out on the wire.
use super::schema_text_of;
use super::texts::{
    lemma_text_of_camera_info, lemma_text_of_compressed_image, lemma_text_of_image, lemma_text_of_imu,
    lemma_text_of_joint_state, lemma_text_of_laser_scan, lemma_text_of_odometry, lemma_text_of_path,
    lemma_text_of_point_cloud2, lemma_text_of_pose_stamped, lemma_text_of_tf_message,
    lemma_text_of_transform_stamped,
};
use crate::cdr::layout::{doubles, one, part, Kind, Part};
use crate::cdr::messages::{
    CameraInfo, CompressedImage, Header, Image, Imu, JointState, LaserScan, Odometry, Path, Point,
    PointCloud2, PointField, Pose, PoseStamped, PoseWithCovariance, Quaternion, RegionOfInterest, Run,
    TFMessage, Transform, TransformStamped, Twist, TwistWithCovariance, Vector3,
};
use crate::cdr::reader::{F32, F64};
use crate::cdr::types::MessageType;
use crate::text::decimal;
use vstd::prelude::*;

verus! {

// --------------------------------------------------------------- declarations
/// A ROS type.
pub enum Ros {
    Bool,
    Uint8,
    Int32,
    Uint32,
    Float32,
    Float64,
    Text,
    Time,
    Header,
    Point,
    Vector3,
    Quaternion,
    Pose,
    Twist,
    Transform,
    PoseWithCovariance,
    TwistWithCovariance,
    RegionOfInterest,
    PointField,
    PoseStamped,
    TransformStamped,
    Odometry,
    Path,
    CameraInfo,
    CompressedImage,
    Image,
    Imu,
    JointState,
    LaserScan,
    PointCloud2,
    TFMessage,
}

/// How many values a member has.
pub enum Count {
    One,
    Exactly(nat),
    Any,
}

/// One member of a ROS type.
pub struct Declared {
    pub ros: Ros,
    pub count: Count,
    pub name: Seq<char>,
}

/// One value.
pub open spec fn member(ros: Ros, name: Seq<char>) -> Seq<Declared> {
    seq![Declared { ros, count: Count::One, name }]
}

/// A fixed number of values.
pub open spec fn array(ros: Ros, n: nat, name: Seq<char>) -> Seq<Declared> {
    seq![Declared { ros, count: Count::Exactly(n), name }]
}

/// Any number of values.
pub open spec fn list(ros: Ros, name: Seq<char>) -> Seq<Declared> {
    seq![Declared { ros, count: Count::Any, name }]
}

/// Whether a type has no members.
pub open spec fn is_plain(ros: Ros) -> bool {
    match ros {
        Ros::Bool | Ros::Uint8 | Ros::Int32 | Ros::Uint32 | Ros::Float32 | Ros::Float64 | Ros::Text => true,
        _ => false,
    }
}

/// What a definition calls the type.
pub open spec fn ros_name(ros: Ros) -> Seq<char> {
    match ros {
        Ros::Bool => "bool"@,
        Ros::Uint8 => "uint8"@,
        Ros::Int32 => "int32"@,
        Ros::Uint32 => "uint32"@,
        Ros::Float32 => "float32"@,
        Ros::Float64 => "float64"@,
        Ros::Text => "string"@,
        Ros::Time => "builtin_interfaces/Time"@,
        Ros::Header => "std_msgs/Header"@,
        Ros::Point => "geometry_msgs/Point"@,
        Ros::Vector3 => "geometry_msgs/Vector3"@,
        Ros::Quaternion => "geometry_msgs/Quaternion"@,
        Ros::Pose => "geometry_msgs/Pose"@,
        Ros::Twist => "geometry_msgs/Twist"@,
        Ros::Transform => "geometry_msgs/Transform"@,
        Ros::PoseWithCovariance => "geometry_msgs/PoseWithCovariance"@,
        Ros::TwistWithCovariance => "geometry_msgs/TwistWithCovariance"@,
        Ros::RegionOfInterest => "sensor_msgs/RegionOfInterest"@,
        Ros::PointField => "sensor_msgs/PointField"@,
        Ros::PoseStamped => "geometry_msgs/PoseStamped"@,
        Ros::TransformStamped => "geometry_msgs/TransformStamped"@,
        Ros::Odometry => "nav_msgs/Odometry"@,
        Ros::Path => "nav_msgs/Path"@,
        Ros::CameraInfo => "sensor_msgs/CameraInfo"@,
        Ros::CompressedImage => "sensor_msgs/CompressedImage"@,
        Ros::Image => "sensor_msgs/Image"@,
        Ros::Imu => "sensor_msgs/Imu"@,
        Ros::JointState => "sensor_msgs/JointState"@,
        Ros::LaserScan => "sensor_msgs/LaserScan"@,
        Ros::PointCloud2 => "sensor_msgs/PointCloud2"@,
        Ros::TFMessage => "tf2_msgs/TFMessage"@,
    }
}

/// The members of a type, in order.
pub open spec fn declares(ros: Ros) -> Seq<Declared> {
    match ros {
        Ros::Time => member(Ros::Int32, "sec"@)
            + member(Ros::Uint32, "nanosec"@),
        Ros::Header => member(Ros::Time, "stamp"@)
            + member(Ros::Text, "frame_id"@),
        Ros::Point => member(Ros::Float64, "x"@)
            + member(Ros::Float64, "y"@)
            + member(Ros::Float64, "z"@),
        Ros::Vector3 => member(Ros::Float64, "x"@)
            + member(Ros::Float64, "y"@)
            + member(Ros::Float64, "z"@),
        Ros::Quaternion => member(Ros::Float64, "x"@)
            + member(Ros::Float64, "y"@)
            + member(Ros::Float64, "z"@)
            + member(Ros::Float64, "w"@),
        Ros::Pose => member(Ros::Point, "position"@)
            + member(Ros::Quaternion, "orientation"@),
        Ros::Twist => member(Ros::Vector3, "linear"@)
            + member(Ros::Vector3, "angular"@),
        Ros::Transform => member(Ros::Vector3, "translation"@)
            + member(Ros::Quaternion, "rotation"@),
        Ros::PoseWithCovariance => member(Ros::Pose, "pose"@)
            + array(Ros::Float64, 36, "covariance"@),
        Ros::TwistWithCovariance => member(Ros::Twist, "twist"@)
            + array(Ros::Float64, 36, "covariance"@),
        Ros::RegionOfInterest => member(Ros::Uint32, "x_offset"@)
            + member(Ros::Uint32, "y_offset"@)
            + member(Ros::Uint32, "height"@)
            + member(Ros::Uint32, "width"@)
            + member(Ros::Bool, "do_rectify"@),
        Ros::PointField => member(Ros::Text, "name"@)
            + member(Ros::Uint32, "offset"@)
            + member(Ros::Uint8, "datatype"@)
            + member(Ros::Uint32, "count"@),
        Ros::PoseStamped => member(Ros::Header, "header"@)
            + member(Ros::Pose, "pose"@),
        Ros::TransformStamped => member(Ros::Header, "header"@)
            + member(Ros::Text, "child_frame_id"@)
            + member(Ros::Transform, "transform"@),
        Ros::Odometry => member(Ros::Header, "header"@)
            + member(Ros::Text, "child_frame_id"@)
            + member(Ros::PoseWithCovariance, "pose"@)
            + member(Ros::TwistWithCovariance, "twist"@),
        Ros::Path => member(Ros::Header, "header"@)
            + list(Ros::PoseStamped, "poses"@),
        Ros::CameraInfo => member(Ros::Header, "header"@)
            + member(Ros::Uint32, "height"@)
            + member(Ros::Uint32, "width"@)
            + member(Ros::Text, "distortion_model"@)
            + list(Ros::Float64, "d"@)
            + array(Ros::Float64, 9, "k"@)
            + array(Ros::Float64, 9, "r"@)
            + array(Ros::Float64, 12, "p"@)
            + member(Ros::Uint32, "binning_x"@)
            + member(Ros::Uint32, "binning_y"@)
            + member(Ros::RegionOfInterest, "roi"@),
        Ros::CompressedImage => member(Ros::Header, "header"@)
            + member(Ros::Text, "format"@)
            + list(Ros::Uint8, "data"@),
        Ros::Image => member(Ros::Header, "header"@)
            + member(Ros::Uint32, "height"@)
            + member(Ros::Uint32, "width"@)
            + member(Ros::Text, "encoding"@)
            + member(Ros::Uint8, "is_bigendian"@)
            + member(Ros::Uint32, "step"@)
            + list(Ros::Uint8, "data"@),
        Ros::Imu => member(Ros::Header, "header"@)
            + member(Ros::Quaternion, "orientation"@)
            + array(Ros::Float64, 9, "orientation_covariance"@)
            + member(Ros::Vector3, "angular_velocity"@)
            + array(Ros::Float64, 9, "angular_velocity_covariance"@)
            + member(Ros::Vector3, "linear_acceleration"@)
            + array(Ros::Float64, 9, "linear_acceleration_covariance"@),
        Ros::JointState => member(Ros::Header, "header"@)
            + list(Ros::Text, "name"@)
            + list(Ros::Float64, "position"@)
            + list(Ros::Float64, "velocity"@)
            + list(Ros::Float64, "effort"@),
        Ros::LaserScan => member(Ros::Header, "header"@)
            + member(Ros::Float32, "angle_min"@)
            + member(Ros::Float32, "angle_max"@)
            + member(Ros::Float32, "angle_increment"@)
            + member(Ros::Float32, "time_increment"@)
            + member(Ros::Float32, "scan_time"@)
            + member(Ros::Float32, "range_min"@)
            + member(Ros::Float32, "range_max"@)
            + list(Ros::Float32, "ranges"@)
            + list(Ros::Float32, "intensities"@),
        Ros::PointCloud2 => member(Ros::Header, "header"@)
            + member(Ros::Uint32, "height"@)
            + member(Ros::Uint32, "width"@)
            + list(Ros::PointField, "fields"@)
            + member(Ros::Bool, "is_bigendian"@)
            + member(Ros::Uint32, "point_step"@)
            + member(Ros::Uint32, "row_step"@)
            + list(Ros::Uint8, "data"@)
            + member(Ros::Bool, "is_dense"@),
        Ros::TFMessage => list(Ros::TransformStamped, "transforms"@),
        _ => Seq::empty(),
    }
}

/// The ROS type of a message.
pub open spec fn ros_of(message_type: MessageType) -> Ros {
    match message_type {
        MessageType::PoseStamped => Ros::PoseStamped,
        MessageType::TransformStamped => Ros::TransformStamped,
        MessageType::Odometry => Ros::Odometry,
        MessageType::Path => Ros::Path,
        MessageType::CameraInfo => Ros::CameraInfo,
        MessageType::CompressedImage => Ros::CompressedImage,
        MessageType::Image => Ros::Image,
        MessageType::Imu => Ros::Imu,
        MessageType::JointState => Ros::JointState,
        MessageType::LaserScan => Ros::LaserScan,
        MessageType::PointCloud2 => Ros::PointCloud2,
        MessageType::TFMessage => Ros::TFMessage,
    }
}

/// A list of one type.
pub open spec fn needs(ros: Ros) -> Seq<Ros> {
    seq![ros]
}

/// The types that the definition of a message has to explain, in the order in which it does.
pub open spec fn explained(message_type: MessageType) -> Seq<Ros> {
    match message_type {
        MessageType::PoseStamped => needs(Ros::Header)
            + needs(Ros::Time)
            + needs(Ros::Pose)
            + needs(Ros::Point)
            + needs(Ros::Quaternion),
        MessageType::TransformStamped => needs(Ros::Header)
            + needs(Ros::Time)
            + needs(Ros::Transform)
            + needs(Ros::Vector3)
            + needs(Ros::Quaternion),
        MessageType::Odometry => needs(Ros::Header)
            + needs(Ros::Time)
            + needs(Ros::PoseWithCovariance)
            + needs(Ros::Pose)
            + needs(Ros::Point)
            + needs(Ros::Quaternion)
            + needs(Ros::TwistWithCovariance)
            + needs(Ros::Twist)
            + needs(Ros::Vector3),
        MessageType::Path => needs(Ros::Header)
            + needs(Ros::Time)
            + needs(Ros::PoseStamped)
            + needs(Ros::Pose)
            + needs(Ros::Point)
            + needs(Ros::Quaternion),
        MessageType::CameraInfo => needs(Ros::Header)
            + needs(Ros::Time)
            + needs(Ros::RegionOfInterest),
        MessageType::CompressedImage => needs(Ros::Header)
            + needs(Ros::Time),
        MessageType::Image => needs(Ros::Header)
            + needs(Ros::Time),
        MessageType::Imu => needs(Ros::Header)
            + needs(Ros::Time)
            + needs(Ros::Quaternion)
            + needs(Ros::Vector3),
        MessageType::JointState => needs(Ros::Header)
            + needs(Ros::Time),
        MessageType::LaserScan => needs(Ros::Header)
            + needs(Ros::Time),
        MessageType::PointCloud2 => needs(Ros::Header)
            + needs(Ros::Time)
            + needs(Ros::PointField),
        MessageType::TFMessage => needs(Ros::TransformStamped)
            + needs(Ros::Header)
            + needs(Ros::Time)
            + needs(Ros::Transform)
            + needs(Ros::Vector3)
            + needs(Ros::Quaternion),
    }
}

// ----------------------------------------------------------------------- text
/// How a definition writes the number of values.
pub open spec fn count_text(count: Count) -> Seq<char> {
    match count {
        Count::One => Seq::empty(),
        Count::Exactly(n) => "["@ + decimal(n) + "]"@,
        Count::Any => "[]"@,
    }
}

/// The line that declares a member.
pub open spec fn line(declared: Declared) -> Seq<char> {
    ros_name(declared.ros) + count_text(declared.count) + " "@ + declared.name + "\n"@
}

/// The lines that declare members.
pub open spec fn lines(list: Seq<Declared>) -> Seq<char>
    decreases list.len(),
{
    if list.len() == 0 {
        Seq::empty()
    } else {
        lines(list.drop_last()) + line(list.last())
    }
}

/// The named values that go before the members of a type.
pub open spec fn constants(ros: Ros) -> Seq<char> {
    match ros {
        Ros::PointField => "uint8 INT8=1\n"@
            + "uint8 UINT8=2\n"@
            + "uint8 INT16=3\n"@
            + "uint8 UINT16=4\n"@
            + "uint8 INT32=5\n"@
            + "uint8 UINT32=6\n"@
            + "uint8 FLOAT32=7\n"@
            + "uint8 FLOAT64=8\n"@,
        _ => Seq::empty(),
    }
}

/// The definition of one type.
#[verifier::opaque]
pub open spec fn definition(ros: Ros) -> Seq<char> {
    constants(ros) + lines(declares(ros))
}

/// The definition of a type that another one uses, under its heading.
#[verifier::opaque]
pub open spec fn block(ros: Ros) -> Seq<char> {
    "================================================================================\n"@
        + "MSG: "@ + ros_name(ros) + "\n"@ + definition(ros)
}

/// The definitions of types that another one uses.
pub open spec fn blocks(list: Seq<Ros>) -> Seq<char>
    decreases list.len(),
{
    if list.len() == 0 {
        Seq::empty()
    } else {
        blocks(list.drop_last()) + block(list.last())
    }
}

// --------------------------------------------------------------------- layout
/// One place of a layout: a field, or a counted list of equal layouts.
pub enum Slot {
    Plain(Kind),
    Counted(Seq<Slot>),
}

/// A layout of one place.
pub open spec fn slot(slot: Slot) -> Seq<Slot> {
    seq![slot]
}

/// So many copies of one layout.
pub open spec fn copies(layout: Seq<Slot>, n: nat) -> Seq<Slot>
    decreases n,
{
    if n == 0 {
        Seq::empty()
    } else {
        copies(layout, (n - 1) as nat) + layout
    }
}

/// The layout of a type whose members nest at most so deep.
pub open spec fn laid_out(ros: Ros, depth: nat) -> Seq<Slot>
    decreases depth, 0nat,
{
    match ros {
        Ros::Bool => slot(Slot::Plain(Kind::Bool)),
        Ros::Uint8 => slot(Slot::Plain(Kind::U8)),
        Ros::Int32 | Ros::Uint32 => slot(Slot::Plain(Kind::I32)),
        Ros::Float32 => slot(Slot::Plain(Kind::F32)),
        Ros::Float64 => slot(Slot::Plain(Kind::F64)),
        Ros::Text => slot(Slot::Plain(Kind::Text)),
        _ => if depth == 0 {
            Seq::empty()
        } else {
            all_laid_out(declares(ros), (depth - 1) as nat)
        },
    }
}

/// The layout of a member: bytes of any number are one field.
pub open spec fn member_laid_out(declared: Declared, depth: nat) -> Seq<Slot>
    decreases depth, 1nat,
{
    let layout = laid_out(declared.ros, depth);
    match declared.count {
        Count::One => layout,
        Count::Exactly(n) => copies(layout, n),
        Count::Any => if declared.ros is Uint8 {
            slot(Slot::Plain(Kind::Bytes))
        } else {
            slot(Slot::Counted(layout))
        },
    }
}

/// The layout of members that follow each other.
pub open spec fn all_laid_out(list: Seq<Declared>, depth: nat) -> Seq<Slot>
    decreases depth, 2nat + list.len(),
{
    if list.len() == 0 {
        Seq::empty()
    } else {
        all_laid_out(list.drop_last(), depth) + member_laid_out(list.last(), depth)
    }
}

/// A run of fields as a layout.
pub open spec fn plainly(kinds: Seq<Kind>) -> Seq<Slot> {
    Seq::new(kinds.len(), |i: int| Slot::Plain(kinds[i]))
}

/// The parts of a message as a layout.
pub open spec fn flat(parts: Seq<Part>) -> Seq<Slot>
    decreases parts.len(),
{
    if parts.len() == 0 {
        Seq::empty()
    } else {
        flat(parts.drop_last()) + (match parts.last() {
            Part::Run(kinds) => plainly(kinds),
            Part::Many(kinds) => slot(Slot::Counted(plainly(kinds))),
        })
    }
}

// ----------------------------------------------------------------- composition
pub broadcast proof fn lemma_lines_concat(a: Seq<Declared>, b: Seq<Declared>)
    ensures
        #[trigger] lines(a + b) == lines(a) + lines(b),
    decreases b.len(),
{
    if b.len() == 0 {
        assert(a + b =~= a);
        assert(lines(a) + Seq::<char>::empty() =~= lines(a));
    } else {
        assert((a + b).drop_last() =~= a + b.drop_last());
        lemma_lines_concat(a, b.drop_last());
        assert(lines(a) + lines(b.drop_last()) + line(b.last()) =~= lines(a) + lines(b));
    }
}

proof fn lemma_lines_one(d: Declared)
    ensures
        lines(seq![d]) == line(d),
{
    assert(seq![d].drop_last() =~= Seq::empty());
    assert(lines(Seq::empty()) =~= Seq::empty());
    assert(Seq::<char>::empty() + line(d) =~= line(d));
}

pub broadcast proof fn lemma_lines_member(ros: Ros, name: Seq<char>)
    ensures
        #[trigger] lines(member(ros, name)) == line(Declared { ros, count: Count::One, name }),
{
    lemma_lines_one(Declared { ros, count: Count::One, name });
}

pub broadcast proof fn lemma_lines_array(ros: Ros, n: nat, name: Seq<char>)
    ensures
        #[trigger] lines(array(ros, n, name)) == line(
            Declared { ros, count: Count::Exactly(n), name },
        ),
{
    lemma_lines_one(Declared { ros, count: Count::Exactly(n), name });
}

pub broadcast proof fn lemma_lines_list(ros: Ros, name: Seq<char>)
    ensures
        #[trigger] lines(list(ros, name)) == line(Declared { ros, count: Count::Any, name }),
{
    lemma_lines_one(Declared { ros, count: Count::Any, name });
}

pub broadcast proof fn lemma_blocks_concat(a: Seq<Ros>, b: Seq<Ros>)
    ensures
        #[trigger] blocks(a + b) == blocks(a) + blocks(b),
    decreases b.len(),
{
    if b.len() == 0 {
        assert(a + b =~= a);
        assert(blocks(a) + Seq::<char>::empty() =~= blocks(a));
    } else {
        assert((a + b).drop_last() =~= a + b.drop_last());
        lemma_blocks_concat(a, b.drop_last());
        assert(blocks(a) + blocks(b.drop_last()) + block(b.last()) =~= blocks(a) + blocks(b));
    }
}

pub broadcast proof fn lemma_blocks_one(ros: Ros)
    ensures
        #[trigger] blocks(needs(ros)) == block(ros),
{
    assert(needs(ros).drop_last() =~= Seq::empty());
    assert(blocks(Seq::empty()) =~= Seq::empty());
    assert(Seq::<char>::empty() + block(ros) =~= block(ros));
}

pub broadcast group group_texts {
    lemma_lines_concat,
    lemma_lines_member,
    lemma_lines_array,
    lemma_lines_list,
    lemma_blocks_concat,
    lemma_blocks_one,
}

proof fn lemma_members_laid_out(ros: Ros, depth: nat)
    requires
        !is_plain(ros),
        depth > 0,
    ensures
        laid_out(ros, depth) == all_laid_out(declares(ros), (depth - 1) as nat),
{
}

pub broadcast proof fn lemma_all_concat(a: Seq<Declared>, b: Seq<Declared>, depth: nat)
    ensures
        #[trigger] all_laid_out(a + b, depth) == all_laid_out(a, depth) + all_laid_out(b, depth),
    decreases b.len(),
{
    let left = all_laid_out(a, depth);
    if b.len() == 0 {
        assert(a + b =~= a);
        assert(left + Seq::<Slot>::empty() =~= left);
    } else {
        assert((a + b).drop_last() =~= a + b.drop_last());
        lemma_all_concat(a, b.drop_last(), depth);
        assert(left + all_laid_out(b.drop_last(), depth) + member_laid_out(b.last(), depth) =~= left
            + all_laid_out(b, depth));
    }
}

proof fn lemma_all_one(d: Declared, depth: nat)
    ensures
        all_laid_out(seq![d], depth) == member_laid_out(d, depth),
{
    assert(seq![d].drop_last() =~= Seq::empty());
    assert(all_laid_out(Seq::empty(), depth) =~= Seq::empty());
    assert(Seq::<Slot>::empty() + member_laid_out(d, depth) =~= member_laid_out(d, depth));
}

pub broadcast proof fn lemma_all_member(ros: Ros, name: Seq<char>, depth: nat)
    ensures
        #[trigger] all_laid_out(member(ros, name), depth) == laid_out(ros, depth),
{
    lemma_all_one(Declared { ros, count: Count::One, name }, depth);
}

pub broadcast proof fn lemma_all_array(ros: Ros, n: nat, name: Seq<char>, depth: nat)
    ensures
        #[trigger] all_laid_out(array(ros, n, name), depth) == copies(laid_out(ros, depth), n),
{
    lemma_all_one(Declared { ros, count: Count::Exactly(n), name }, depth);
}

pub broadcast proof fn lemma_all_list(ros: Ros, name: Seq<char>, depth: nat)
    ensures
        #[trigger] all_laid_out(list(ros, name), depth) == if ros is Uint8 {
            slot(Slot::Plain(Kind::Bytes))
        } else {
            slot(Slot::Counted(laid_out(ros, depth)))
        },
{
    lemma_all_one(Declared { ros, count: Count::Any, name }, depth);
}

pub broadcast proof fn lemma_copies(n: nat)
    ensures
        #[trigger] copies(slot(Slot::Plain(Kind::F64)), n) == plainly(doubles(n)),
    decreases n,
{
    if n > 0 {
        lemma_copies((n - 1) as nat);
        assert(plainly(doubles((n - 1) as nat)) + slot(Slot::Plain(Kind::F64)) =~= plainly(
            doubles(n),
        ));
    } else {
        assert(plainly(doubles(0)) =~= Seq::empty());
    }
}

pub broadcast proof fn lemma_flat_concat(a: Seq<Part>, b: Seq<Part>)
    ensures
        #[trigger] flat(a + b) == flat(a) + flat(b),
    decreases b.len(),
{
    if b.len() == 0 {
        assert(a + b =~= a);
        assert(flat(a) + Seq::<Slot>::empty() =~= flat(a));
    } else {
        assert((a + b).drop_last() =~= a + b.drop_last());
        lemma_flat_concat(a, b.drop_last());
        let last = match b.last() {
            Part::Run(kinds) => plainly(kinds),
            Part::Many(kinds) => slot(Slot::Counted(plainly(kinds))),
        };
        assert(flat(a) + flat(b.drop_last()) + last =~= flat(a) + flat(b));
    }
}

pub broadcast proof fn lemma_flat_one(p: Part)
    ensures
        #[trigger] flat(part(p)) == (match p {
            Part::Run(kinds) => plainly(kinds),
            Part::Many(kinds) => slot(Slot::Counted(plainly(kinds))),
        }),
{
    assert(part(p).drop_last() =~= Seq::empty());
    assert(flat(Seq::empty()) =~= Seq::empty());
    let last = match p {
        Part::Run(kinds) => plainly(kinds),
        Part::Many(kinds) => slot(Slot::Counted(plainly(kinds))),
    };
    assert(Seq::<Slot>::empty() + last =~= last);
}

pub broadcast group group_layouts {
    lemma_all_concat,
    lemma_all_member,
    lemma_all_array,
    lemma_all_list,
    lemma_copies,
    lemma_flat_concat,
    lemma_flat_one,
}

// ------------------------------------------------------------------ the layouts
proof fn lemma_layout_of_time(depth: nat)
    requires
        depth >= 1,
    ensures
        laid_out(Ros::Time, depth) == plainly(one(Kind::I32) + one(Kind::I32)),
{
    broadcast use group_layouts;

    lemma_members_laid_out(Ros::Time, depth);
    assert(laid_out(Ros::Time, depth) =~= plainly(one(Kind::I32) + one(Kind::I32)));
}

proof fn lemma_layout_of_header(depth: nat)
    requires
        depth >= 2,
    ensures
        laid_out(Ros::Header, depth) == plainly(Header::kinds()),
{
    broadcast use group_layouts;

    lemma_members_laid_out(Ros::Header, depth);
    lemma_layout_of_time((depth - 1) as nat);
    assert(laid_out(Ros::Header, depth) =~= plainly(Header::kinds()));
}

proof fn lemma_layout_of_point(depth: nat)
    requires
        depth >= 1,
    ensures
        laid_out(Ros::Point, depth) == plainly(Point::kinds()),
{
    broadcast use group_layouts;

    lemma_members_laid_out(Ros::Point, depth);
    assert(laid_out(Ros::Point, depth) =~= plainly(Point::kinds()));
}

proof fn lemma_layout_of_vector3(depth: nat)
    requires
        depth >= 1,
    ensures
        laid_out(Ros::Vector3, depth) == plainly(Vector3::kinds()),
{
    broadcast use group_layouts;

    lemma_members_laid_out(Ros::Vector3, depth);
    assert(laid_out(Ros::Vector3, depth) =~= plainly(Vector3::kinds()));
}

proof fn lemma_layout_of_quaternion(depth: nat)
    requires
        depth >= 1,
    ensures
        laid_out(Ros::Quaternion, depth) == plainly(Quaternion::kinds()),
{
    broadcast use group_layouts;

    lemma_members_laid_out(Ros::Quaternion, depth);
    assert(laid_out(Ros::Quaternion, depth) =~= plainly(Quaternion::kinds()));
}

proof fn lemma_layout_of_pose(depth: nat)
    requires
        depth >= 2,
    ensures
        laid_out(Ros::Pose, depth) == plainly(Pose::kinds()),
{
    broadcast use group_layouts;

    lemma_members_laid_out(Ros::Pose, depth);
    lemma_layout_of_point((depth - 1) as nat);
    lemma_layout_of_quaternion((depth - 1) as nat);
    assert(laid_out(Ros::Pose, depth) =~= plainly(Pose::kinds()));
}

proof fn lemma_layout_of_twist(depth: nat)
    requires
        depth >= 2,
    ensures
        laid_out(Ros::Twist, depth) == plainly(Twist::kinds()),
{
    broadcast use group_layouts;

    lemma_members_laid_out(Ros::Twist, depth);
    lemma_layout_of_vector3((depth - 1) as nat);
    assert(laid_out(Ros::Twist, depth) =~= plainly(Twist::kinds()));
}

proof fn lemma_layout_of_transform(depth: nat)
    requires
        depth >= 2,
    ensures
        laid_out(Ros::Transform, depth) == plainly(Transform::kinds()),
{
    broadcast use group_layouts;

    lemma_members_laid_out(Ros::Transform, depth);
    lemma_layout_of_vector3((depth - 1) as nat);
    lemma_layout_of_quaternion((depth - 1) as nat);
    assert(laid_out(Ros::Transform, depth) =~= plainly(Transform::kinds()));
}

proof fn lemma_layout_of_pose_with_covariance(depth: nat)
    requires
        depth >= 3,
    ensures
        laid_out(Ros::PoseWithCovariance, depth) == plainly(PoseWithCovariance::kinds()),
{
    broadcast use group_layouts;

    lemma_members_laid_out(Ros::PoseWithCovariance, depth);
    lemma_layout_of_pose((depth - 1) as nat);
    assert(laid_out(Ros::PoseWithCovariance, depth) =~= plainly(PoseWithCovariance::kinds()));
}

proof fn lemma_layout_of_twist_with_covariance(depth: nat)
    requires
        depth >= 3,
    ensures
        laid_out(Ros::TwistWithCovariance, depth) == plainly(TwistWithCovariance::kinds()),
{
    broadcast use group_layouts;

    lemma_members_laid_out(Ros::TwistWithCovariance, depth);
    lemma_layout_of_twist((depth - 1) as nat);
    assert(laid_out(Ros::TwistWithCovariance, depth) =~= plainly(TwistWithCovariance::kinds()));
}

proof fn lemma_layout_of_region_of_interest(depth: nat)
    requires
        depth >= 1,
    ensures
        laid_out(Ros::RegionOfInterest, depth) == plainly(RegionOfInterest::kinds()),
{
    broadcast use group_layouts;

    lemma_members_laid_out(Ros::RegionOfInterest, depth);
    assert(laid_out(Ros::RegionOfInterest, depth) =~= plainly(RegionOfInterest::kinds()));
}

proof fn lemma_layout_of_point_field(depth: nat)
    requires
        depth >= 1,
    ensures
        laid_out(Ros::PointField, depth) == plainly(PointField::kinds()),
{
    broadcast use group_layouts;

    lemma_members_laid_out(Ros::PointField, depth);
    assert(laid_out(Ros::PointField, depth) =~= plainly(PointField::kinds()));
}

proof fn lemma_layout_of_pose_stamped(depth: nat)
    requires
        depth >= 3,
    ensures
        laid_out(Ros::PoseStamped, depth) == plainly(PoseStamped::kinds()),
{
    broadcast use group_layouts;

    lemma_members_laid_out(Ros::PoseStamped, depth);
    lemma_layout_of_header((depth - 1) as nat);
    lemma_layout_of_pose((depth - 1) as nat);
    assert(laid_out(Ros::PoseStamped, depth) =~= plainly(PoseStamped::kinds()));
}

proof fn lemma_layout_of_transform_stamped(depth: nat)
    requires
        depth >= 3,
    ensures
        laid_out(Ros::TransformStamped, depth) == plainly(TransformStamped::kinds()),
{
    broadcast use group_layouts;

    lemma_members_laid_out(Ros::TransformStamped, depth);
    lemma_layout_of_header((depth - 1) as nat);
    lemma_layout_of_transform((depth - 1) as nat);
    assert(laid_out(Ros::TransformStamped, depth) =~= plainly(TransformStamped::kinds()));
}

proof fn lemma_layout_of_odometry(depth: nat)
    requires
        depth >= 4,
    ensures
        laid_out(Ros::Odometry, depth) == plainly(Odometry::kinds()),
{
    broadcast use group_layouts;

    lemma_members_laid_out(Ros::Odometry, depth);
    lemma_layout_of_header((depth - 1) as nat);
    lemma_layout_of_pose_with_covariance((depth - 1) as nat);
    lemma_layout_of_twist_with_covariance((depth - 1) as nat);
    assert(laid_out(Ros::Odometry, depth) =~= plainly(Odometry::kinds()));
}

proof fn lemma_layout_of_path(depth: nat)
    requires
        depth >= 4,
    ensures
        laid_out(Ros::Path, depth) == flat(Path::parts()),
{
    broadcast use group_layouts;

    lemma_members_laid_out(Ros::Path, depth);
    lemma_layout_of_header((depth - 1) as nat);
    lemma_layout_of_pose_stamped((depth - 1) as nat);
    assert(laid_out(Ros::Path, depth) =~= flat(Path::parts()));
}

proof fn lemma_layout_of_camera_info(depth: nat)
    requires
        depth >= 3,
    ensures
        laid_out(Ros::CameraInfo, depth) == flat(CameraInfo::parts()),
{
    broadcast use group_layouts;

    lemma_members_laid_out(Ros::CameraInfo, depth);
    lemma_layout_of_header((depth - 1) as nat);
    lemma_layout_of_region_of_interest((depth - 1) as nat);
    assert(plainly(F64::kinds()) =~= slot(Slot::Plain(Kind::F64)));
    assert(laid_out(Ros::CameraInfo, depth) =~= flat(CameraInfo::parts()));
}

proof fn lemma_layout_of_compressed_image(depth: nat)
    requires
        depth >= 3,
    ensures
        laid_out(Ros::CompressedImage, depth) == plainly(CompressedImage::kinds()),
{
    broadcast use group_layouts;

    lemma_members_laid_out(Ros::CompressedImage, depth);
    lemma_layout_of_header((depth - 1) as nat);
    assert(laid_out(Ros::CompressedImage, depth) =~= plainly(CompressedImage::kinds()));
}

proof fn lemma_layout_of_image(depth: nat)
    requires
        depth >= 3,
    ensures
        laid_out(Ros::Image, depth) == plainly(Image::kinds()),
{
    broadcast use group_layouts;

    lemma_members_laid_out(Ros::Image, depth);
    lemma_layout_of_header((depth - 1) as nat);
    assert(laid_out(Ros::Image, depth) =~= plainly(Image::kinds()));
}

proof fn lemma_layout_of_imu(depth: nat)
    requires
        depth >= 3,
    ensures
        laid_out(Ros::Imu, depth) == plainly(Imu::kinds()),
{
    broadcast use group_layouts;

    lemma_members_laid_out(Ros::Imu, depth);
    lemma_layout_of_header((depth - 1) as nat);
    lemma_layout_of_quaternion((depth - 1) as nat);
    lemma_layout_of_vector3((depth - 1) as nat);
    assert(laid_out(Ros::Imu, depth) =~= plainly(Imu::kinds()));
}

proof fn lemma_layout_of_joint_state(depth: nat)
    requires
        depth >= 3,
    ensures
        laid_out(Ros::JointState, depth) == flat(JointState::parts()),
{
    broadcast use group_layouts;

    lemma_members_laid_out(Ros::JointState, depth);
    lemma_layout_of_header((depth - 1) as nat);
    assert(plainly(String::kinds()) =~= slot(Slot::Plain(Kind::Text)));
    assert(plainly(F64::kinds()) =~= slot(Slot::Plain(Kind::F64)));
    assert(laid_out(Ros::JointState, depth) =~= flat(JointState::parts()));
}

proof fn lemma_layout_of_laser_scan(depth: nat)
    requires
        depth >= 3,
    ensures
        laid_out(Ros::LaserScan, depth) == flat(LaserScan::parts()),
{
    broadcast use group_layouts;

    lemma_members_laid_out(Ros::LaserScan, depth);
    lemma_layout_of_header((depth - 1) as nat);
    assert(plainly(F32::kinds()) =~= slot(Slot::Plain(Kind::F32)));
    assert(laid_out(Ros::LaserScan, depth) =~= flat(LaserScan::parts()));
}

proof fn lemma_layout_of_point_cloud2(depth: nat)
    requires
        depth >= 3,
    ensures
        laid_out(Ros::PointCloud2, depth) == flat(PointCloud2::parts()),
{
    broadcast use group_layouts;

    lemma_members_laid_out(Ros::PointCloud2, depth);
    lemma_layout_of_header((depth - 1) as nat);
    lemma_layout_of_point_field((depth - 1) as nat);
    assert(laid_out(Ros::PointCloud2, depth) =~= flat(PointCloud2::parts()));
}

proof fn lemma_layout_of_tf_message(depth: nat)
    requires
        depth >= 4,
    ensures
        laid_out(Ros::TFMessage, depth) == flat(TFMessage::parts()),
{
    broadcast use group_layouts;

    lemma_members_laid_out(Ros::TFMessage, depth);
    lemma_layout_of_transform_stamped((depth - 1) as nat);
    assert(laid_out(Ros::TFMessage, depth) =~= flat(TFMessage::parts()));
}

// ----------------------------------------------------------------------- laws
/// The schema of a type is its definition, and then the definition of each type that it needs, each
/// under a line of `=` and a line that names it.
pub proof fn law_schemas_are_written_from_their_declarations(message_type: MessageType)
    ensures
        schema_text_of(message_type) == definition(ros_of(message_type)) + blocks(
            explained(message_type),
        ),
{
    match message_type {
        MessageType::PoseStamped => lemma_text_of_pose_stamped(),
        MessageType::TransformStamped => lemma_text_of_transform_stamped(),
        MessageType::Odometry => lemma_text_of_odometry(),
        MessageType::Path => lemma_text_of_path(),
        MessageType::CameraInfo => lemma_text_of_camera_info(),
        MessageType::CompressedImage => lemma_text_of_compressed_image(),
        MessageType::Image => lemma_text_of_image(),
        MessageType::Imu => lemma_text_of_imu(),
        MessageType::JointState => lemma_text_of_joint_state(),
        MessageType::LaserScan => lemma_text_of_laser_scan(),
        MessageType::PointCloud2 => lemma_text_of_point_cloud2(),
        MessageType::TFMessage => lemma_text_of_tf_message(),
    }
}

/// How long the schema of a type is.
spec fn length_of(message_type: MessageType) -> nat {
    match message_type {
        MessageType::PoseStamped => 788,
        MessageType::TransformStamped => 829,
        MessageType::Odometry => 1502,
        MessageType::Path => 957,
        MessageType::CameraInfo => 666,
        MessageType::CompressedImage => 333,
        MessageType::Image => 393,
        MessageType::Imu => 828,
        MessageType::JointState => 375,
        MessageType::LaserScan => 482,
        MessageType::PointCloud2 => 724,
        MessageType::TFMessage => 990,
    }
}

proof fn lemma_length(message_type: MessageType)
    ensures
        schema_text_of(message_type).len() == length_of(message_type),
{
    match message_type {
        MessageType::PoseStamped => lemma_text_of_pose_stamped(),
        MessageType::TransformStamped => lemma_text_of_transform_stamped(),
        MessageType::Odometry => lemma_text_of_odometry(),
        MessageType::Path => lemma_text_of_path(),
        MessageType::CameraInfo => lemma_text_of_camera_info(),
        MessageType::CompressedImage => lemma_text_of_compressed_image(),
        MessageType::Image => lemma_text_of_image(),
        MessageType::Imu => lemma_text_of_imu(),
        MessageType::JointState => lemma_text_of_joint_state(),
        MessageType::LaserScan => lemma_text_of_laser_scan(),
        MessageType::PointCloud2 => lemma_text_of_point_cloud2(),
        MessageType::TFMessage => lemma_text_of_tf_message(),
    }
}

/// Different types have different schemas.
pub proof fn law_schemas_differ(a: MessageType, b: MessageType)
    requires
        a != b,
    ensures
        schema_text_of(a) != schema_text_of(b),
{
    lemma_length(a);
    lemma_length(b);
}

/// What the members of a type's definition lay out, those of the types that it needs put in their place,
/// is what is read and written: the same fields in the same order, the same lists.
pub proof fn law_schemas_describe_what_is_written(message_type: MessageType)
    ensures
        laid_out(ros_of(message_type), 4) == flat(message_type.parts()),
{
    broadcast use group_layouts;

    match message_type {
        MessageType::PoseStamped => lemma_layout_of_pose_stamped(4),
        MessageType::TransformStamped => lemma_layout_of_transform_stamped(4),
        MessageType::Odometry => lemma_layout_of_odometry(4),
        MessageType::Path => lemma_layout_of_path(4),
        MessageType::CameraInfo => lemma_layout_of_camera_info(4),
        MessageType::CompressedImage => lemma_layout_of_compressed_image(4),
        MessageType::Image => lemma_layout_of_image(4),
        MessageType::Imu => lemma_layout_of_imu(4),
        MessageType::JointState => lemma_layout_of_joint_state(4),
        MessageType::LaserScan => lemma_layout_of_laser_scan(4),
        MessageType::PointCloud2 => lemma_layout_of_point_cloud2(4),
        MessageType::TFMessage => lemma_layout_of_tf_message(4),
    }
}

/// Whether the `i`-th member of a type has this name, with so many places of the layout in front of it.
pub open spec fn stands(ros: Ros, i: int, name: Seq<char>, before: nat) -> bool {
    &&& 0 <= i < declares(ros).len()
    &&& declares(ros)[i].name == name
    &&& all_laid_out(declares(ros).take(i), 4).len() == before
}

proof fn lemma_places_in_time()
    ensures
        declares(Ros::Time).len() == 2,
        stands(Ros::Time, 0, "sec"@, 0),
        stands(Ros::Time, 1, "nanosec"@, 1),
{
    broadcast use group_layouts;

    let all = declares(Ros::Time);
    assert(all.take(0) =~= Seq::empty());
    assert(all_laid_out(Seq::empty(), 4) =~= Seq::empty());
    let a1 = member(Ros::Int32, "sec"@);
    assert(all.take(1) =~= a1);
}

proof fn lemma_places_in_header()
    ensures
        declares(Ros::Header).len() == 2,
        stands(Ros::Header, 0, "stamp"@, 0),
        stands(Ros::Header, 1, "frame_id"@, 2),
{
    broadcast use group_layouts;

    lemma_layout_of_time(4);
    let all = declares(Ros::Header);
    assert(all.take(0) =~= Seq::empty());
    assert(all_laid_out(Seq::empty(), 4) =~= Seq::empty());
    let a1 = member(Ros::Time, "stamp"@);
    assert(all.take(1) =~= a1);
}

proof fn lemma_places_in_point()
    ensures
        declares(Ros::Point).len() == 3,
        stands(Ros::Point, 0, "x"@, 0),
        stands(Ros::Point, 1, "y"@, 1),
        stands(Ros::Point, 2, "z"@, 2),
{
    broadcast use group_layouts;

    let all = declares(Ros::Point);
    assert(all.take(0) =~= Seq::empty());
    assert(all_laid_out(Seq::empty(), 4) =~= Seq::empty());
    let a1 = member(Ros::Float64, "x"@);
    assert(all.take(1) =~= a1);
    let a2 = a1 + member(Ros::Float64, "y"@);
    assert(all.take(2) =~= a2);
}

proof fn lemma_places_in_vector3()
    ensures
        declares(Ros::Vector3).len() == 3,
        stands(Ros::Vector3, 0, "x"@, 0),
        stands(Ros::Vector3, 1, "y"@, 1),
        stands(Ros::Vector3, 2, "z"@, 2),
{
    broadcast use group_layouts;

    let all = declares(Ros::Vector3);
    assert(all.take(0) =~= Seq::empty());
    assert(all_laid_out(Seq::empty(), 4) =~= Seq::empty());
    let a1 = member(Ros::Float64, "x"@);
    assert(all.take(1) =~= a1);
    let a2 = a1 + member(Ros::Float64, "y"@);
    assert(all.take(2) =~= a2);
}

proof fn lemma_places_in_quaternion()
    ensures
        declares(Ros::Quaternion).len() == 4,
        stands(Ros::Quaternion, 0, "x"@, 0),
        stands(Ros::Quaternion, 1, "y"@, 1),
        stands(Ros::Quaternion, 2, "z"@, 2),
        stands(Ros::Quaternion, 3, "w"@, 3),
{
    broadcast use group_layouts;

    let all = declares(Ros::Quaternion);
    assert(all.take(0) =~= Seq::empty());
    assert(all_laid_out(Seq::empty(), 4) =~= Seq::empty());
    let a1 = member(Ros::Float64, "x"@);
    assert(all.take(1) =~= a1);
    let a2 = a1 + member(Ros::Float64, "y"@);
    assert(all.take(2) =~= a2);
    let a3 = a2 + member(Ros::Float64, "z"@);
    assert(all.take(3) =~= a3);
}

proof fn lemma_places_in_pose()
    ensures
        declares(Ros::Pose).len() == 2,
        stands(Ros::Pose, 0, "position"@, 0),
        stands(Ros::Pose, 1, "orientation"@, 3),
{
    broadcast use group_layouts;

    lemma_layout_of_point(4);
    lemma_layout_of_quaternion(4);
    let all = declares(Ros::Pose);
    assert(all.take(0) =~= Seq::empty());
    assert(all_laid_out(Seq::empty(), 4) =~= Seq::empty());
    let a1 = member(Ros::Point, "position"@);
    assert(all.take(1) =~= a1);
}

proof fn lemma_places_in_twist()
    ensures
        declares(Ros::Twist).len() == 2,
        stands(Ros::Twist, 0, "linear"@, 0),
        stands(Ros::Twist, 1, "angular"@, 3),
{
    broadcast use group_layouts;

    lemma_layout_of_vector3(4);
    let all = declares(Ros::Twist);
    assert(all.take(0) =~= Seq::empty());
    assert(all_laid_out(Seq::empty(), 4) =~= Seq::empty());
    let a1 = member(Ros::Vector3, "linear"@);
    assert(all.take(1) =~= a1);
}

proof fn lemma_places_in_transform()
    ensures
        declares(Ros::Transform).len() == 2,
        stands(Ros::Transform, 0, "translation"@, 0),
        stands(Ros::Transform, 1, "rotation"@, 3),
{
    broadcast use group_layouts;

    lemma_layout_of_vector3(4);
    lemma_layout_of_quaternion(4);
    let all = declares(Ros::Transform);
    assert(all.take(0) =~= Seq::empty());
    assert(all_laid_out(Seq::empty(), 4) =~= Seq::empty());
    let a1 = member(Ros::Vector3, "translation"@);
    assert(all.take(1) =~= a1);
}

proof fn lemma_places_in_pose_with_covariance()
    ensures
        declares(Ros::PoseWithCovariance).len() == 2,
        stands(Ros::PoseWithCovariance, 0, "pose"@, 0),
        stands(Ros::PoseWithCovariance, 1, "covariance"@, 7),
{
    broadcast use group_layouts;

    lemma_layout_of_pose(4);
    let all = declares(Ros::PoseWithCovariance);
    assert(all.take(0) =~= Seq::empty());
    assert(all_laid_out(Seq::empty(), 4) =~= Seq::empty());
    let a1 = member(Ros::Pose, "pose"@);
    assert(all.take(1) =~= a1);
}

proof fn lemma_places_in_twist_with_covariance()
    ensures
        declares(Ros::TwistWithCovariance).len() == 2,
        stands(Ros::TwistWithCovariance, 0, "twist"@, 0),
        stands(Ros::TwistWithCovariance, 1, "covariance"@, 6),
{
    broadcast use group_layouts;

    lemma_layout_of_twist(4);
    let all = declares(Ros::TwistWithCovariance);
    assert(all.take(0) =~= Seq::empty());
    assert(all_laid_out(Seq::empty(), 4) =~= Seq::empty());
    let a1 = member(Ros::Twist, "twist"@);
    assert(all.take(1) =~= a1);
}

proof fn lemma_places_in_region_of_interest()
    ensures
        declares(Ros::RegionOfInterest).len() == 5,
        stands(Ros::RegionOfInterest, 0, "x_offset"@, 0),
        stands(Ros::RegionOfInterest, 1, "y_offset"@, 1),
        stands(Ros::RegionOfInterest, 2, "height"@, 2),
        stands(Ros::RegionOfInterest, 3, "width"@, 3),
        stands(Ros::RegionOfInterest, 4, "do_rectify"@, 4),
{
    broadcast use group_layouts;

    let all = declares(Ros::RegionOfInterest);
    assert(all.take(0) =~= Seq::empty());
    assert(all_laid_out(Seq::empty(), 4) =~= Seq::empty());
    let a1 = member(Ros::Uint32, "x_offset"@);
    assert(all.take(1) =~= a1);
    let a2 = a1 + member(Ros::Uint32, "y_offset"@);
    assert(all.take(2) =~= a2);
    let a3 = a2 + member(Ros::Uint32, "height"@);
    assert(all.take(3) =~= a3);
    let a4 = a3 + member(Ros::Uint32, "width"@);
    assert(all.take(4) =~= a4);
}

proof fn lemma_places_in_point_field()
    ensures
        declares(Ros::PointField).len() == 4,
        stands(Ros::PointField, 0, "name"@, 0),
        stands(Ros::PointField, 1, "offset"@, 1),
        stands(Ros::PointField, 2, "datatype"@, 2),
        stands(Ros::PointField, 3, "count"@, 3),
{
    broadcast use group_layouts;

    let all = declares(Ros::PointField);
    assert(all.take(0) =~= Seq::empty());
    assert(all_laid_out(Seq::empty(), 4) =~= Seq::empty());
    let a1 = member(Ros::Text, "name"@);
    assert(all.take(1) =~= a1);
    let a2 = a1 + member(Ros::Uint32, "offset"@);
    assert(all.take(2) =~= a2);
    let a3 = a2 + member(Ros::Uint8, "datatype"@);
    assert(all.take(3) =~= a3);
}

proof fn lemma_places_in_pose_stamped()
    ensures
        declares(Ros::PoseStamped).len() == 2,
        stands(Ros::PoseStamped, 0, "header"@, 0),
        stands(Ros::PoseStamped, 1, "pose"@, 3),
{
    broadcast use group_layouts;

    lemma_layout_of_header(4);
    lemma_layout_of_pose(4);
    let all = declares(Ros::PoseStamped);
    assert(all.take(0) =~= Seq::empty());
    assert(all_laid_out(Seq::empty(), 4) =~= Seq::empty());
    let a1 = member(Ros::Header, "header"@);
    assert(all.take(1) =~= a1);
}

proof fn lemma_places_in_transform_stamped()
    ensures
        declares(Ros::TransformStamped).len() == 3,
        stands(Ros::TransformStamped, 0, "header"@, 0),
        stands(Ros::TransformStamped, 1, "child_frame_id"@, 3),
        stands(Ros::TransformStamped, 2, "transform"@, 4),
{
    broadcast use group_layouts;

    lemma_layout_of_header(4);
    lemma_layout_of_transform(4);
    let all = declares(Ros::TransformStamped);
    assert(all.take(0) =~= Seq::empty());
    assert(all_laid_out(Seq::empty(), 4) =~= Seq::empty());
    let a1 = member(Ros::Header, "header"@);
    assert(all.take(1) =~= a1);
    let a2 = a1 + member(Ros::Text, "child_frame_id"@);
    assert(all.take(2) =~= a2);
}

proof fn lemma_places_in_odometry()
    ensures
        declares(Ros::Odometry).len() == 4,
        stands(Ros::Odometry, 0, "header"@, 0),
        stands(Ros::Odometry, 1, "child_frame_id"@, 3),
        stands(Ros::Odometry, 2, "pose"@, 4),
        stands(Ros::Odometry, 3, "twist"@, 47),
{
    broadcast use group_layouts;

    lemma_layout_of_header(4);
    lemma_layout_of_pose_with_covariance(4);
    lemma_layout_of_twist_with_covariance(4);
    let all = declares(Ros::Odometry);
    assert(all.take(0) =~= Seq::empty());
    assert(all_laid_out(Seq::empty(), 4) =~= Seq::empty());
    let a1 = member(Ros::Header, "header"@);
    assert(all.take(1) =~= a1);
    let a2 = a1 + member(Ros::Text, "child_frame_id"@);
    assert(all.take(2) =~= a2);
    let a3 = a2 + member(Ros::PoseWithCovariance, "pose"@);
    assert(all.take(3) =~= a3);
}

proof fn lemma_places_in_path()
    ensures
        declares(Ros::Path).len() == 2,
        stands(Ros::Path, 0, "header"@, 0),
        stands(Ros::Path, 1, "poses"@, 3),
{
    broadcast use group_layouts;

    lemma_layout_of_header(4);
    lemma_layout_of_pose_stamped(4);
    let all = declares(Ros::Path);
    assert(all.take(0) =~= Seq::empty());
    assert(all_laid_out(Seq::empty(), 4) =~= Seq::empty());
    let a1 = member(Ros::Header, "header"@);
    assert(all.take(1) =~= a1);
}

proof fn lemma_places_in_camera_info()
    ensures
        declares(Ros::CameraInfo).len() == 11,
        stands(Ros::CameraInfo, 0, "header"@, 0),
        stands(Ros::CameraInfo, 1, "height"@, 3),
        stands(Ros::CameraInfo, 2, "width"@, 4),
        stands(Ros::CameraInfo, 3, "distortion_model"@, 5),
        stands(Ros::CameraInfo, 4, "d"@, 6),
        stands(Ros::CameraInfo, 5, "k"@, 7),
        stands(Ros::CameraInfo, 6, "r"@, 16),
        stands(Ros::CameraInfo, 7, "p"@, 25),
        stands(Ros::CameraInfo, 8, "binning_x"@, 37),
        stands(Ros::CameraInfo, 9, "binning_y"@, 38),
        stands(Ros::CameraInfo, 10, "roi"@, 39),
{
    broadcast use group_layouts;

    lemma_layout_of_header(4);
    lemma_layout_of_region_of_interest(4);
    let all = declares(Ros::CameraInfo);
    assert(all.take(0) =~= Seq::empty());
    assert(all_laid_out(Seq::empty(), 4) =~= Seq::empty());
    let a1 = member(Ros::Header, "header"@);
    assert(all.take(1) =~= a1);
    let a2 = a1 + member(Ros::Uint32, "height"@);
    assert(all.take(2) =~= a2);
    let a3 = a2 + member(Ros::Uint32, "width"@);
    assert(all.take(3) =~= a3);
    let a4 = a3 + member(Ros::Text, "distortion_model"@);
    assert(all.take(4) =~= a4);
    let a5 = a4 + list(Ros::Float64, "d"@);
    assert(all.take(5) =~= a5);
    let a6 = a5 + array(Ros::Float64, 9, "k"@);
    assert(all.take(6) =~= a6);
    let a7 = a6 + array(Ros::Float64, 9, "r"@);
    assert(all.take(7) =~= a7);
    let a8 = a7 + array(Ros::Float64, 12, "p"@);
    assert(all.take(8) =~= a8);
    let a9 = a8 + member(Ros::Uint32, "binning_x"@);
    assert(all.take(9) =~= a9);
    let a10 = a9 + member(Ros::Uint32, "binning_y"@);
    assert(all.take(10) =~= a10);
}

proof fn lemma_places_in_compressed_image()
    ensures
        declares(Ros::CompressedImage).len() == 3,
        stands(Ros::CompressedImage, 0, "header"@, 0),
        stands(Ros::CompressedImage, 1, "format"@, 3),
        stands(Ros::CompressedImage, 2, "data"@, 4),
{
    broadcast use group_layouts;

    lemma_layout_of_header(4);
    let all = declares(Ros::CompressedImage);
    assert(all.take(0) =~= Seq::empty());
    assert(all_laid_out(Seq::empty(), 4) =~= Seq::empty());
    let a1 = member(Ros::Header, "header"@);
    assert(all.take(1) =~= a1);
    let a2 = a1 + member(Ros::Text, "format"@);
    assert(all.take(2) =~= a2);
}

proof fn lemma_places_in_image()
    ensures
        declares(Ros::Image).len() == 7,
        stands(Ros::Image, 0, "header"@, 0),
        stands(Ros::Image, 1, "height"@, 3),
        stands(Ros::Image, 2, "width"@, 4),
        stands(Ros::Image, 3, "encoding"@, 5),
        stands(Ros::Image, 4, "is_bigendian"@, 6),
        stands(Ros::Image, 5, "step"@, 7),
        stands(Ros::Image, 6, "data"@, 8),
{
    broadcast use group_layouts;

    lemma_layout_of_header(4);
    let all = declares(Ros::Image);
    assert(all.take(0) =~= Seq::empty());
    assert(all_laid_out(Seq::empty(), 4) =~= Seq::empty());
    let a1 = member(Ros::Header, "header"@);
    assert(all.take(1) =~= a1);
    let a2 = a1 + member(Ros::Uint32, "height"@);
    assert(all.take(2) =~= a2);
    let a3 = a2 + member(Ros::Uint32, "width"@);
    assert(all.take(3) =~= a3);
    let a4 = a3 + member(Ros::Text, "encoding"@);
    assert(all.take(4) =~= a4);
    let a5 = a4 + member(Ros::Uint8, "is_bigendian"@);
    assert(all.take(5) =~= a5);
    let a6 = a5 + member(Ros::Uint32, "step"@);
    assert(all.take(6) =~= a6);
}

proof fn lemma_places_in_imu()
    ensures
        declares(Ros::Imu).len() == 7,
        stands(Ros::Imu, 0, "header"@, 0),
        stands(Ros::Imu, 1, "orientation"@, 3),
        stands(Ros::Imu, 2, "orientation_covariance"@, 7),
        stands(Ros::Imu, 3, "angular_velocity"@, 16),
        stands(Ros::Imu, 4, "angular_velocity_covariance"@, 19),
        stands(Ros::Imu, 5, "linear_acceleration"@, 28),
        stands(Ros::Imu, 6, "linear_acceleration_covariance"@, 31),
{
    broadcast use group_layouts;

    lemma_layout_of_header(4);
    lemma_layout_of_quaternion(4);
    lemma_layout_of_vector3(4);
    let all = declares(Ros::Imu);
    assert(all.take(0) =~= Seq::empty());
    assert(all_laid_out(Seq::empty(), 4) =~= Seq::empty());
    let a1 = member(Ros::Header, "header"@);
    assert(all.take(1) =~= a1);
    let a2 = a1 + member(Ros::Quaternion, "orientation"@);
    assert(all.take(2) =~= a2);
    let a3 = a2 + array(Ros::Float64, 9, "orientation_covariance"@);
    assert(all.take(3) =~= a3);
    let a4 = a3 + member(Ros::Vector3, "angular_velocity"@);
    assert(all.take(4) =~= a4);
    let a5 = a4 + array(Ros::Float64, 9, "angular_velocity_covariance"@);
    assert(all.take(5) =~= a5);
    let a6 = a5 + member(Ros::Vector3, "linear_acceleration"@);
    assert(all.take(6) =~= a6);
}

proof fn lemma_places_in_joint_state()
    ensures
        declares(Ros::JointState).len() == 5,
        stands(Ros::JointState, 0, "header"@, 0),
        stands(Ros::JointState, 1, "name"@, 3),
        stands(Ros::JointState, 2, "position"@, 4),
        stands(Ros::JointState, 3, "velocity"@, 5),
        stands(Ros::JointState, 4, "effort"@, 6),
{
    broadcast use group_layouts;

    lemma_layout_of_header(4);
    let all = declares(Ros::JointState);
    assert(all.take(0) =~= Seq::empty());
    assert(all_laid_out(Seq::empty(), 4) =~= Seq::empty());
    let a1 = member(Ros::Header, "header"@);
    assert(all.take(1) =~= a1);
    let a2 = a1 + list(Ros::Text, "name"@);
    assert(all.take(2) =~= a2);
    let a3 = a2 + list(Ros::Float64, "position"@);
    assert(all.take(3) =~= a3);
    let a4 = a3 + list(Ros::Float64, "velocity"@);
    assert(all.take(4) =~= a4);
}

proof fn lemma_places_in_laser_scan()
    ensures
        declares(Ros::LaserScan).len() == 10,
        stands(Ros::LaserScan, 0, "header"@, 0),
        stands(Ros::LaserScan, 1, "angle_min"@, 3),
        stands(Ros::LaserScan, 2, "angle_max"@, 4),
        stands(Ros::LaserScan, 3, "angle_increment"@, 5),
        stands(Ros::LaserScan, 4, "time_increment"@, 6),
        stands(Ros::LaserScan, 5, "scan_time"@, 7),
        stands(Ros::LaserScan, 6, "range_min"@, 8),
        stands(Ros::LaserScan, 7, "range_max"@, 9),
        stands(Ros::LaserScan, 8, "ranges"@, 10),
        stands(Ros::LaserScan, 9, "intensities"@, 11),
{
    broadcast use group_layouts;

    lemma_layout_of_header(4);
    let all = declares(Ros::LaserScan);
    assert(all.take(0) =~= Seq::empty());
    assert(all_laid_out(Seq::empty(), 4) =~= Seq::empty());
    let a1 = member(Ros::Header, "header"@);
    assert(all.take(1) =~= a1);
    let a2 = a1 + member(Ros::Float32, "angle_min"@);
    assert(all.take(2) =~= a2);
    let a3 = a2 + member(Ros::Float32, "angle_max"@);
    assert(all.take(3) =~= a3);
    let a4 = a3 + member(Ros::Float32, "angle_increment"@);
    assert(all.take(4) =~= a4);
    let a5 = a4 + member(Ros::Float32, "time_increment"@);
    assert(all.take(5) =~= a5);
    let a6 = a5 + member(Ros::Float32, "scan_time"@);
    assert(all.take(6) =~= a6);
    let a7 = a6 + member(Ros::Float32, "range_min"@);
    assert(all.take(7) =~= a7);
    let a8 = a7 + member(Ros::Float32, "range_max"@);
    assert(all.take(8) =~= a8);
    let a9 = a8 + list(Ros::Float32, "ranges"@);
    assert(all.take(9) =~= a9);
}

proof fn lemma_places_in_point_cloud2()
    ensures
        declares(Ros::PointCloud2).len() == 9,
        stands(Ros::PointCloud2, 0, "header"@, 0),
        stands(Ros::PointCloud2, 1, "height"@, 3),
        stands(Ros::PointCloud2, 2, "width"@, 4),
        stands(Ros::PointCloud2, 3, "fields"@, 5),
        stands(Ros::PointCloud2, 4, "is_bigendian"@, 6),
        stands(Ros::PointCloud2, 5, "point_step"@, 7),
        stands(Ros::PointCloud2, 6, "row_step"@, 8),
        stands(Ros::PointCloud2, 7, "data"@, 9),
        stands(Ros::PointCloud2, 8, "is_dense"@, 10),
{
    broadcast use group_layouts;

    lemma_layout_of_header(4);
    lemma_layout_of_point_field(4);
    let all = declares(Ros::PointCloud2);
    assert(all.take(0) =~= Seq::empty());
    assert(all_laid_out(Seq::empty(), 4) =~= Seq::empty());
    let a1 = member(Ros::Header, "header"@);
    assert(all.take(1) =~= a1);
    let a2 = a1 + member(Ros::Uint32, "height"@);
    assert(all.take(2) =~= a2);
    let a3 = a2 + member(Ros::Uint32, "width"@);
    assert(all.take(3) =~= a3);
    let a4 = a3 + list(Ros::PointField, "fields"@);
    assert(all.take(4) =~= a4);
    let a5 = a4 + member(Ros::Bool, "is_bigendian"@);
    assert(all.take(5) =~= a5);
    let a6 = a5 + member(Ros::Uint32, "point_step"@);
    assert(all.take(6) =~= a6);
    let a7 = a6 + member(Ros::Uint32, "row_step"@);
    assert(all.take(7) =~= a7);
    let a8 = a7 + list(Ros::Uint8, "data"@);
    assert(all.take(8) =~= a8);
}

proof fn lemma_places_in_tf_message()
    ensures
        declares(Ros::TFMessage).len() == 1,
        stands(Ros::TFMessage, 0, "transforms"@, 0),
{
    broadcast use group_layouts;

    lemma_layout_of_transform_stamped(4);
    let all = declares(Ros::TFMessage);
    assert(all.take(0) =~= Seq::empty());
    assert(all_laid_out(Seq::empty(), 4) =~= Seq::empty());
}

/// The members of each type by their names, in the order in which they are laid out, each with the number
/// of places in front of it: the angular velocity of an inertial message starts at its seventeenth place,
/// the linear acceleration at its twenty-ninth.
pub proof fn law_members_stand_in_this_order(ros: Ros)
    ensures
        match ros {
            Ros::Time => {
                &&& declares(ros).len() == 2
                &&& stands(ros, 0, "sec"@, 0)
                &&& stands(ros, 1, "nanosec"@, 1)
            },
            Ros::Header => {
                &&& declares(ros).len() == 2
                &&& stands(ros, 0, "stamp"@, 0)
                &&& stands(ros, 1, "frame_id"@, 2)
            },
            Ros::Point => {
                &&& declares(ros).len() == 3
                &&& stands(ros, 0, "x"@, 0)
                &&& stands(ros, 1, "y"@, 1)
                &&& stands(ros, 2, "z"@, 2)
            },
            Ros::Vector3 => {
                &&& declares(ros).len() == 3
                &&& stands(ros, 0, "x"@, 0)
                &&& stands(ros, 1, "y"@, 1)
                &&& stands(ros, 2, "z"@, 2)
            },
            Ros::Quaternion => {
                &&& declares(ros).len() == 4
                &&& stands(ros, 0, "x"@, 0)
                &&& stands(ros, 1, "y"@, 1)
                &&& stands(ros, 2, "z"@, 2)
                &&& stands(ros, 3, "w"@, 3)
            },
            Ros::Pose => {
                &&& declares(ros).len() == 2
                &&& stands(ros, 0, "position"@, 0)
                &&& stands(ros, 1, "orientation"@, 3)
            },
            Ros::Twist => {
                &&& declares(ros).len() == 2
                &&& stands(ros, 0, "linear"@, 0)
                &&& stands(ros, 1, "angular"@, 3)
            },
            Ros::Transform => {
                &&& declares(ros).len() == 2
                &&& stands(ros, 0, "translation"@, 0)
                &&& stands(ros, 1, "rotation"@, 3)
            },
            Ros::PoseWithCovariance => {
                &&& declares(ros).len() == 2
                &&& stands(ros, 0, "pose"@, 0)
                &&& stands(ros, 1, "covariance"@, 7)
            },
            Ros::TwistWithCovariance => {
                &&& declares(ros).len() == 2
                &&& stands(ros, 0, "twist"@, 0)
                &&& stands(ros, 1, "covariance"@, 6)
            },
            Ros::RegionOfInterest => {
                &&& declares(ros).len() == 5
                &&& stands(ros, 0, "x_offset"@, 0)
                &&& stands(ros, 1, "y_offset"@, 1)
                &&& stands(ros, 2, "height"@, 2)
                &&& stands(ros, 3, "width"@, 3)
                &&& stands(ros, 4, "do_rectify"@, 4)
            },
            Ros::PointField => {
                &&& declares(ros).len() == 4
                &&& stands(ros, 0, "name"@, 0)
                &&& stands(ros, 1, "offset"@, 1)
                &&& stands(ros, 2, "datatype"@, 2)
                &&& stands(ros, 3, "count"@, 3)
            },
            Ros::PoseStamped => {
                &&& declares(ros).len() == 2
                &&& stands(ros, 0, "header"@, 0)
                &&& stands(ros, 1, "pose"@, 3)
            },
            Ros::TransformStamped => {
                &&& declares(ros).len() == 3
                &&& stands(ros, 0, "header"@, 0)
                &&& stands(ros, 1, "child_frame_id"@, 3)
                &&& stands(ros, 2, "transform"@, 4)
            },
            Ros::Odometry => {
                &&& declares(ros).len() == 4
                &&& stands(ros, 0, "header"@, 0)
                &&& stands(ros, 1, "child_frame_id"@, 3)
                &&& stands(ros, 2, "pose"@, 4)
                &&& stands(ros, 3, "twist"@, 47)
            },
            Ros::Path => {
                &&& declares(ros).len() == 2
                &&& stands(ros, 0, "header"@, 0)
                &&& stands(ros, 1, "poses"@, 3)
            },
            Ros::CameraInfo => {
                &&& declares(ros).len() == 11
                &&& stands(ros, 0, "header"@, 0)
                &&& stands(ros, 1, "height"@, 3)
                &&& stands(ros, 2, "width"@, 4)
                &&& stands(ros, 3, "distortion_model"@, 5)
                &&& stands(ros, 4, "d"@, 6)
                &&& stands(ros, 5, "k"@, 7)
                &&& stands(ros, 6, "r"@, 16)
                &&& stands(ros, 7, "p"@, 25)
                &&& stands(ros, 8, "binning_x"@, 37)
                &&& stands(ros, 9, "binning_y"@, 38)
                &&& stands(ros, 10, "roi"@, 39)
            },
            Ros::CompressedImage => {
                &&& declares(ros).len() == 3
                &&& stands(ros, 0, "header"@, 0)
                &&& stands(ros, 1, "format"@, 3)
                &&& stands(ros, 2, "data"@, 4)
            },
            Ros::Image => {
                &&& declares(ros).len() == 7
                &&& stands(ros, 0, "header"@, 0)
                &&& stands(ros, 1, "height"@, 3)
                &&& stands(ros, 2, "width"@, 4)
                &&& stands(ros, 3, "encoding"@, 5)
                &&& stands(ros, 4, "is_bigendian"@, 6)
                &&& stands(ros, 5, "step"@, 7)
                &&& stands(ros, 6, "data"@, 8)
            },
            Ros::Imu => {
                &&& declares(ros).len() == 7
                &&& stands(ros, 0, "header"@, 0)
                &&& stands(ros, 1, "orientation"@, 3)
                &&& stands(ros, 2, "orientation_covariance"@, 7)
                &&& stands(ros, 3, "angular_velocity"@, 16)
                &&& stands(ros, 4, "angular_velocity_covariance"@, 19)
                &&& stands(ros, 5, "linear_acceleration"@, 28)
                &&& stands(ros, 6, "linear_acceleration_covariance"@, 31)
            },
            Ros::JointState => {
                &&& declares(ros).len() == 5
                &&& stands(ros, 0, "header"@, 0)
                &&& stands(ros, 1, "name"@, 3)
                &&& stands(ros, 2, "position"@, 4)
                &&& stands(ros, 3, "velocity"@, 5)
                &&& stands(ros, 4, "effort"@, 6)
            },
            Ros::LaserScan => {
                &&& declares(ros).len() == 10
                &&& stands(ros, 0, "header"@, 0)
                &&& stands(ros, 1, "angle_min"@, 3)
                &&& stands(ros, 2, "angle_max"@, 4)
                &&& stands(ros, 3, "angle_increment"@, 5)
                &&& stands(ros, 4, "time_increment"@, 6)
                &&& stands(ros, 5, "scan_time"@, 7)
                &&& stands(ros, 6, "range_min"@, 8)
                &&& stands(ros, 7, "range_max"@, 9)
                &&& stands(ros, 8, "ranges"@, 10)
                &&& stands(ros, 9, "intensities"@, 11)
            },
            Ros::PointCloud2 => {
                &&& declares(ros).len() == 9
                &&& stands(ros, 0, "header"@, 0)
                &&& stands(ros, 1, "height"@, 3)
                &&& stands(ros, 2, "width"@, 4)
                &&& stands(ros, 3, "fields"@, 5)
                &&& stands(ros, 4, "is_bigendian"@, 6)
                &&& stands(ros, 5, "point_step"@, 7)
                &&& stands(ros, 6, "row_step"@, 8)
                &&& stands(ros, 7, "data"@, 9)
                &&& stands(ros, 8, "is_dense"@, 10)
            },
            Ros::TFMessage => {
                &&& declares(ros).len() == 1
                &&& stands(ros, 0, "transforms"@, 0)
            },
            _ => declares(ros).len() == 0,
        },
{
    match ros {
        Ros::Time => lemma_places_in_time(),
        Ros::Header => lemma_places_in_header(),
        Ros::Point => lemma_places_in_point(),
        Ros::Vector3 => lemma_places_in_vector3(),
        Ros::Quaternion => lemma_places_in_quaternion(),
        Ros::Pose => lemma_places_in_pose(),
        Ros::Twist => lemma_places_in_twist(),
        Ros::Transform => lemma_places_in_transform(),
        Ros::PoseWithCovariance => lemma_places_in_pose_with_covariance(),
        Ros::TwistWithCovariance => lemma_places_in_twist_with_covariance(),
        Ros::RegionOfInterest => lemma_places_in_region_of_interest(),
        Ros::PointField => lemma_places_in_point_field(),
        Ros::PoseStamped => lemma_places_in_pose_stamped(),
        Ros::TransformStamped => lemma_places_in_transform_stamped(),
        Ros::Odometry => lemma_places_in_odometry(),
        Ros::Path => lemma_places_in_path(),
        Ros::CameraInfo => lemma_places_in_camera_info(),
        Ros::CompressedImage => lemma_places_in_compressed_image(),
        Ros::Image => lemma_places_in_image(),
        Ros::Imu => lemma_places_in_imu(),
        Ros::JointState => lemma_places_in_joint_state(),
        Ros::LaserScan => lemma_places_in_laser_scan(),
        Ros::PointCloud2 => lemma_places_in_point_cloud2(),
        Ros::TFMessage => lemma_places_in_tf_message(),
        _ => {},
    }
}

/// Whether a definition can be read: every type that a member of this one has is plain or explained.
pub open spec fn readable(message_type: MessageType, ros: Ros) -> bool {
    forall|i: int|
        0 <= i < declares(ros).len() ==> is_plain((#[trigger] declares(ros)[i]).ros) || explained(
            message_type,
        ).contains(declares(ros)[i].ros)
}

/// A schema explains every type that it uses.
pub proof fn law_schemas_explain_what_they_use(message_type: MessageType)
    ensures
        readable(message_type, ros_of(message_type)),
        forall|j: int|
            0 <= j < explained(message_type).len() ==> readable(
                message_type,
                #[trigger] explained(message_type)[j],
            ),
{
    let list = explained(message_type);
    match message_type {
        MessageType::PoseStamped => {
            assert(list[0] == Ros::Header);
            assert(list[1] == Ros::Time);
            assert(list[2] == Ros::Pose);
            assert(list[3] == Ros::Point);
            assert(list[4] == Ros::Quaternion);
        },
        MessageType::TransformStamped => {
            assert(list[0] == Ros::Header);
            assert(list[1] == Ros::Time);
            assert(list[2] == Ros::Transform);
            assert(list[3] == Ros::Vector3);
            assert(list[4] == Ros::Quaternion);
        },
        MessageType::Odometry => {
            assert(list[0] == Ros::Header);
            assert(list[1] == Ros::Time);
            assert(list[2] == Ros::PoseWithCovariance);
            assert(list[3] == Ros::Pose);
            assert(list[4] == Ros::Point);
            assert(list[5] == Ros::Quaternion);
            assert(list[6] == Ros::TwistWithCovariance);
            assert(list[7] == Ros::Twist);
            assert(list[8] == Ros::Vector3);
        },
        MessageType::Path => {
            assert(list[0] == Ros::Header);
            assert(list[1] == Ros::Time);
            assert(list[2] == Ros::PoseStamped);
            assert(list[3] == Ros::Pose);
            assert(list[4] == Ros::Point);
            assert(list[5] == Ros::Quaternion);
        },
        MessageType::CameraInfo => {
            assert(list[0] == Ros::Header);
            assert(list[1] == Ros::Time);
            assert(list[2] == Ros::RegionOfInterest);
        },
        MessageType::CompressedImage => {
            assert(list[0] == Ros::Header);
            assert(list[1] == Ros::Time);
        },
        MessageType::Image => {
            assert(list[0] == Ros::Header);
            assert(list[1] == Ros::Time);
        },
        MessageType::Imu => {
            assert(list[0] == Ros::Header);
            assert(list[1] == Ros::Time);
            assert(list[2] == Ros::Quaternion);
            assert(list[3] == Ros::Vector3);
        },
        MessageType::JointState => {
            assert(list[0] == Ros::Header);
            assert(list[1] == Ros::Time);
        },
        MessageType::LaserScan => {
            assert(list[0] == Ros::Header);
            assert(list[1] == Ros::Time);
        },
        MessageType::PointCloud2 => {
            assert(list[0] == Ros::Header);
            assert(list[1] == Ros::Time);
            assert(list[2] == Ros::PointField);
        },
        MessageType::TFMessage => {
            assert(list[0] == Ros::TransformStamped);
            assert(list[1] == Ros::Header);
            assert(list[2] == Ros::Time);
            assert(list[3] == Ros::Transform);
            assert(list[4] == Ros::Vector3);
            assert(list[5] == Ros::Quaternion);
        },
    }
}

/// A schema calls its type by the name of the message, with a slash for the dot.
pub proof fn law_schemas_go_by_the_name_of_their_type(message_type: MessageType)
    ensures
        ros_name(ros_of(message_type)).len() == message_type.name().len(),
        forall|i: int|
            0 <= i < message_type.name().len() ==> #[trigger] ros_name(ros_of(message_type))[i] == (
            if message_type.name()[i] == '.' {
                '/'
            } else {
                message_type.name()[i]
            }),
{
    match message_type {
        MessageType::PoseStamped => {
            reveal_strlit("geometry_msgs/PoseStamped");
            reveal_strlit("geometry_msgs.PoseStamped");
        },
        MessageType::TransformStamped => {
            reveal_strlit("geometry_msgs/TransformStamped");
            reveal_strlit("geometry_msgs.TransformStamped");
        },
        MessageType::Odometry => {
            reveal_strlit("nav_msgs/Odometry");
            reveal_strlit("nav_msgs.Odometry");
        },
        MessageType::Path => {
            reveal_strlit("nav_msgs/Path");
            reveal_strlit("nav_msgs.Path");
        },
        MessageType::CameraInfo => {
            reveal_strlit("sensor_msgs/CameraInfo");
            reveal_strlit("sensor_msgs.CameraInfo");
        },
        MessageType::CompressedImage => {
            reveal_strlit("sensor_msgs/CompressedImage");
            reveal_strlit("sensor_msgs.CompressedImage");
        },
        MessageType::Image => {
            reveal_strlit("sensor_msgs/Image");
            reveal_strlit("sensor_msgs.Image");
        },
        MessageType::Imu => {
            reveal_strlit("sensor_msgs/Imu");
            reveal_strlit("sensor_msgs.Imu");
        },
        MessageType::JointState => {
            reveal_strlit("sensor_msgs/JointState");
            reveal_strlit("sensor_msgs.JointState");
        },
        MessageType::LaserScan => {
            reveal_strlit("sensor_msgs/LaserScan");
            reveal_strlit("sensor_msgs.LaserScan");
        },
        MessageType::PointCloud2 => {
            reveal_strlit("sensor_msgs/PointCloud2");
            reveal_strlit("sensor_msgs.PointCloud2");
        },
        MessageType::TFMessage => {
            reveal_strlit("tf2_msgs/TFMessage");
            reveal_strlit("tf2_msgs.TFMessage");
        },
    }
}

} // verus!
