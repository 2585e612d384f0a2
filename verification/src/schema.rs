//! ROS 2 `.msg` definitions for the types that can be written as CDR.
//!
//! A viewer decodes a CDR channel by parsing the schema text stored beside it; it carries no ROS
//! message definitions of its own. Each entry is the concatenated form ROS 2 tooling emits: the type
//! itself, then every nested type after a line of `=`.
pub mod definitions;
pub mod texts;
use crate::cdr::types::{type_named, MessageType};
use crate::cdr::{dotted, schema_type, slashed, tells};
use definitions::{
    blocks, definition, explained, flat, laid_out, law_schemas_are_written_from_their_declarations,
    law_schemas_describe_what_is_written, ros_of,
};
use crate::text::{lemma_first_index, option_view, pieces, without_trailing};
use vstd::prelude::*;

verus! {

/// The name of a type's ROS schema.
pub open spec fn schema_name_of(message_type: MessageType) -> Seq<char> {
    match message_type {
        MessageType::PoseStamped => "geometry_msgs/msg/PoseStamped"@,
        MessageType::TransformStamped => "geometry_msgs/msg/TransformStamped"@,
        MessageType::Odometry => "nav_msgs/msg/Odometry"@,
        MessageType::Path => "nav_msgs/msg/Path"@,
        MessageType::CameraInfo => "sensor_msgs/msg/CameraInfo"@,
        MessageType::CompressedImage => "sensor_msgs/msg/CompressedImage"@,
        MessageType::Image => "sensor_msgs/msg/Image"@,
        MessageType::Imu => "sensor_msgs/msg/Imu"@,
        MessageType::JointState => "sensor_msgs/msg/JointState"@,
        MessageType::LaserScan => "sensor_msgs/msg/LaserScan"@,
        MessageType::PointCloud2 => "sensor_msgs/msg/PointCloud2"@,
        MessageType::TFMessage => "tf2_msgs/msg/TFMessage"@,
    }
}

/// The text of a type's ROS schema.
pub open spec fn schema_text_of(message_type: MessageType) -> Seq<char> {
    match message_type {
        MessageType::PoseStamped => GEOMETRY_MSGS_POSESTAMPED@,
        MessageType::TransformStamped => GEOMETRY_MSGS_TRANSFORMSTAMPED@,
        MessageType::Odometry => NAV_MSGS_ODOMETRY@,
        MessageType::Path => NAV_MSGS_PATH@,
        MessageType::CameraInfo => SENSOR_MSGS_CAMERAINFO@,
        MessageType::CompressedImage => SENSOR_MSGS_COMPRESSEDIMAGE@,
        MessageType::Image => SENSOR_MSGS_IMAGE@,
        MessageType::Imu => SENSOR_MSGS_IMU@,
        MessageType::JointState => SENSOR_MSGS_JOINTSTATE@,
        MessageType::LaserScan => SENSOR_MSGS_LASERSCAN@,
        MessageType::PointCloud2 => SENSOR_MSGS_POINTCLOUD2@,
        MessageType::TFMessage => TF2_MSGS_TFMESSAGE@,
    }
}

/// The ROS schema name for a type name, e.g. `sensor_msgs.Image` -> `sensor_msgs/msg/Image`. This is
/// the name that viewers match their renderers on.
pub fn schema_name(msg_name: &str) -> (r: Option<&'static str>)
    ensures
        option_view(r) == (match type_named(msg_name@) {
            Some(message_type) => Some(schema_name_of(message_type)),
            None => None,
        }),
{
    match MessageType::named(msg_name) {
        Some(message_type) => Some(
            match message_type {
                MessageType::PoseStamped => "geometry_msgs/msg/PoseStamped",
                MessageType::TransformStamped => "geometry_msgs/msg/TransformStamped",
                MessageType::Odometry => "nav_msgs/msg/Odometry",
                MessageType::Path => "nav_msgs/msg/Path",
                MessageType::CameraInfo => "sensor_msgs/msg/CameraInfo",
                MessageType::CompressedImage => "sensor_msgs/msg/CompressedImage",
                MessageType::Image => "sensor_msgs/msg/Image",
                MessageType::Imu => "sensor_msgs/msg/Imu",
                MessageType::JointState => "sensor_msgs/msg/JointState",
                MessageType::LaserScan => "sensor_msgs/msg/LaserScan",
                MessageType::PointCloud2 => "sensor_msgs/msg/PointCloud2",
                MessageType::TFMessage => "tf2_msgs/msg/TFMessage",
            },
        ),
        None => None,
    }
}

/// The `ros2msg` schema text for a type name.
pub fn schema_text(msg_name: &str) -> (r: Option<&'static str>)
    ensures
        option_view(r) == (match type_named(msg_name@) {
            Some(message_type) => Some(schema_text_of(message_type)),
            None => None,
        }),
        r matches Some(text) ==> (type_named(msg_name@) matches Some(message_type) && text@
            == definition(ros_of(message_type)) + blocks(explained(message_type)) && laid_out(
            ros_of(message_type),
            4,
        ) == flat(message_type.parts())),
{
    proof {
        if let Some(message_type) = type_named(msg_name@) {
            law_schemas_are_written_from_their_declarations(message_type);
            law_schemas_describe_what_is_written(message_type);
        }
    }
    match MessageType::named(msg_name) {
        Some(message_type) => Some(
            match message_type {
                MessageType::PoseStamped => GEOMETRY_MSGS_POSESTAMPED,
                MessageType::TransformStamped => GEOMETRY_MSGS_TRANSFORMSTAMPED,
                MessageType::Odometry => NAV_MSGS_ODOMETRY,
                MessageType::Path => NAV_MSGS_PATH,
                MessageType::CameraInfo => SENSOR_MSGS_CAMERAINFO,
                MessageType::CompressedImage => SENSOR_MSGS_COMPRESSEDIMAGE,
                MessageType::Image => SENSOR_MSGS_IMAGE,
                MessageType::Imu => SENSOR_MSGS_IMU,
                MessageType::JointState => SENSOR_MSGS_JOINTSTATE,
                MessageType::LaserScan => SENSOR_MSGS_LASERSCAN,
                MessageType::PointCloud2 => SENSOR_MSGS_POINTCLOUD2,
                MessageType::TFMessage => TF2_MSGS_TFMESSAGE,
            },
        ),
        None => None,
    }
}

// ----------------------------------------------------------------------- laws
proof fn lemma_nothing_to_slash(s: Seq<char>)
    requires
        !s.contains(':'),
    ensures
        slashed(s) == s,
    decreases s.len(),
{
    if s.len() > 0 {
        let rest = s.skip(1);
        assert(s.contains(s[0]));
        assert forall|i: int| 0 <= i < rest.len() implies rest[i] != ':' by {
            assert(rest[i] == s[i + 1]);
            assert(s.contains(s[i + 1]));
        }
        lemma_nothing_to_slash(rest);
        assert(seq![s[0]] + rest =~= s);
    }
}

proof fn lemma_first_piece(piece: Seq<char>, rest: Seq<char>)
    requires
        !piece.contains('/'),
    ensures
        pieces(piece.push('/') + rest, '/') == seq![piece] + pieces(rest, '/'),
{
    let whole = piece.push('/') + rest;
    let i = piece.len() as int;
    assert(whole[i] == '/');
    assert forall|j: int| 0 <= j < i implies whole[j] != '/' by {
        assert(whole[j] == piece[j]);
        assert(piece.contains(piece[j]));
    }
    lemma_first_index(whole, '/', i);
    assert(whole.take(i) =~= piece);
    assert(whole.skip(i + 1) =~= rest);
}

/// A schema name of three segments, with `msg` in the middle, names its type.
proof fn lemma_schema_type(package: Seq<char>, kind: Seq<char>)
    requires
        !package.contains('/'),
        !package.contains(':'),
        !kind.contains('/'),
        !kind.contains(':'),
        tells(package),
        tells(kind),
        kind.len() > 0,
        kind.last() != '_',
    ensures
        schema_type(package + "/msg/"@ + kind) == package + seq!['.'] + kind,
{
    reveal_strlit("/msg/");
    reveal_strlit("msg");
    let name = package + "/msg/"@ + kind;
    assert forall|i: int| 0 <= i < name.len() implies name[i] != ':' by {
        if i < package.len() {
            assert(package.contains(package[i]));
        } else if i >= package.len() + 5 {
            assert(kind.contains(kind[i - package.len() - 5]));
        }
    }
    lemma_nothing_to_slash(name);
    assert(name =~= package.push('/') + ("msg"@.push('/') + kind));
    lemma_first_piece(package, "msg"@.push('/') + kind);
    lemma_first_piece("msg"@, kind);
    assert(pieces(kind, '/') =~= seq![kind]);
    let segments = pieces(name, '/');
    assert(segments =~= seq![package, "msg"@, kind]);
    let keep = |p: Seq<char>| tells(p);
    let one = segments.drop_last();
    let two = one.drop_last();
    let three = two.drop_last();
    assert(two =~= seq![package]);
    reveal(Seq::filter);
    assert(three.filter(keep) =~= Seq::empty());
    assert(two.filter(keep) =~= seq![package]);
    assert(one.filter(keep) =~= seq![package]);
    assert(segments.filter(keep) =~= seq![package, kind]);
}

proof fn lemma_slashed_behind(front: Seq<char>, rest: Seq<char>)
    requires
        !front.contains(':'),
    ensures
        slashed(front + seq![':', ':'] + rest) == front + seq!['/'] + slashed(rest),
    decreases front.len(),
{
    let whole = front + seq![':', ':'] + rest;
    if front.len() == 0 {
        assert(whole.skip(2) =~= rest);
        assert(seq!['/'] + slashed(rest) =~= front + seq!['/'] + slashed(rest));
    } else {
        let less = front.skip(1);
        assert(front.contains(front[0]));
        assert forall|j: int| 0 <= j < less.len() implies less[j] != ':' by {
            assert(front.contains(front[j + 1]));
        }
        lemma_slashed_behind(less, rest);
        assert(whole.skip(1) =~= less + seq![':', ':'] + rest);
        assert(seq![front[0]] + (less + seq!['/'] + slashed(rest)) =~= front + seq!['/'] + slashed(
            rest,
        ));
    }
}

/// A schema name in the spelling of ROS, `package/msg/Kind`, and one in the spelling of IDL,
/// `package::msg::dds_::Kind_`, name the same type, `package.Kind`.
pub proof fn law_both_spellings_name_the_type(package: Seq<char>, kind: Seq<char>)
    requires
        !package.contains('/'),
        !package.contains(':'),
        !kind.contains('/'),
        !kind.contains(':'),
        package != seq!['m', 's', 'g'],
        package != seq!['d', 'd', 's', '_'],
        kind != seq!['m', 's', 'g'],
        kind != seq!['d', 'd', 's'],
        kind.len() > 0,
        kind.last() != '_',
    ensures
        schema_type(package + "/msg/"@ + kind) == package + seq!['.'] + kind,
        schema_type(package + "::msg::dds_::"@ + kind + "_"@) == package + seq!['.'] + kind,
{
    reveal_strlit("msg");
    reveal_strlit("dds_");
    reveal_strlit("_");
    reveal_strlit("::msg::dds_::");
    assert("msg"@ =~= seq!['m', 's', 'g']);
    assert("dds_"@ =~= seq!['d', 'd', 's', '_']);
    assert(kind != "dds_"@) by {
        assert("dds_"@.last() == '_');
    }
    lemma_schema_type(package, kind);
    let last = kind.push('_');
    let name = package + "::msg::dds_::"@ + kind + "_"@;
    let after_dds = last;
    let after_msg = "dds_"@ + seq![':', ':'] + after_dds;
    let after_package = "msg"@ + seq![':', ':'] + after_msg;
    assert(name =~= package + seq![':', ':'] + after_package);
    assert forall|j: int| 0 <= j < last.len() implies last[j] != ':' && last[j] != '/' by {
        if j < kind.len() {
            assert(kind.contains(kind[j]));
        }
    }
    lemma_slashed_behind(package, after_package);
    lemma_slashed_behind("msg"@, after_msg);
    lemma_slashed_behind("dds_"@, after_dds);
    lemma_nothing_to_slash(last);
    let flat = slashed(name);
    assert(flat =~= package.push('/') + ("msg"@.push('/') + ("dds_"@.push('/') + last)));
    lemma_first_piece(package, "msg"@.push('/') + ("dds_"@.push('/') + last));
    lemma_first_piece("msg"@, "dds_"@.push('/') + last);
    lemma_first_piece("dds_"@, last);
    assert(pieces(last, '/') =~= seq![last]);
    let segments = pieces(flat, '/');
    assert(segments =~= seq![package, "msg"@, "dds_"@, last]);
    assert(tells(last)) by {
        if last == "dds_"@ {
            assert(last.drop_last() =~= kind);
            assert("dds_"@.drop_last() =~= seq!['d', 'd', 's']);
        }
        assert(last.last() == '_' && "msg"@.last() == 'g');
    }
    let keep = |p: Seq<char>| tells(p);
    let one = segments.drop_last();
    let two = one.drop_last();
    let three = two.drop_last();
    assert(three =~= seq![package]);
    reveal(Seq::filter);
    assert(three.drop_last().filter(keep) =~= Seq::empty());
    assert(three.filter(keep) =~= seq![package]);
    assert(two.filter(keep) =~= seq![package]);
    assert(one.filter(keep) =~= seq![package]);
    assert(segments.filter(keep) =~= seq![package, last]);
    assert(last.drop_last() =~= kind);
    assert(without_trailing(last, '_') == without_trailing(kind, '_'));
}

/// A schema name of two segments names its type as well, and one of a single segment is the type.
pub proof fn law_short_schema_names_name_the_type(package: Seq<char>, kind: Seq<char>)
    requires
        !package.contains('/'),
        !package.contains(':'),
        !kind.contains('/'),
        !kind.contains(':'),
        tells(package),
        tells(kind),
        kind.len() > 0,
        kind.last() != '_',
    ensures
        schema_type(package + seq!['/'] + kind) == package + seq!['.'] + kind,
        schema_type(kind) == kind,
{
    let name = package + seq!['/'] + kind;
    assert forall|i: int| 0 <= i < name.len() implies name[i] != ':' by {
        if i < package.len() {
            assert(package.contains(package[i]));
        } else if i > package.len() {
            assert(kind.contains(kind[i - package.len() - 1]));
        }
    }
    lemma_nothing_to_slash(name);
    lemma_nothing_to_slash(kind);
    assert(name =~= package.push('/') + kind);
    lemma_first_piece(package, kind);
    assert(pieces(kind, '/') =~= seq![kind]);
    let segments = pieces(name, '/');
    assert(segments =~= seq![package, kind]);
    let keep = |p: Seq<char>| tells(p);
    reveal(Seq::filter);
    assert(segments.drop_last() =~= seq![package]);
    assert(seq![package].drop_last() =~= Seq::empty());
    assert(seq![kind].drop_last() =~= Seq::empty());
    assert(Seq::<Seq<char>>::empty().filter(keep) =~= Seq::empty());
    assert(seq![package].filter(keep) =~= seq![package]);
    assert(segments.filter(keep) =~= seq![package, kind]);
    assert(seq![kind].filter(keep) =~= seq![kind]);
    assert(dotted(kind) =~= kind) by {
        assert forall|i: int| 0 <= i < kind.len() implies dotted(kind)[i] == kind[i] by {
            assert(kind.contains(kind[i]));
        }
    }
}

/// The name of a type's schema names that type.
pub proof fn law_schema_names_name_their_type(message_type: MessageType)
    ensures
        schema_type(schema_name_of(message_type)) == message_type.name(),
{
    reveal_strlit("/msg/");
    reveal_strlit("msg");
    reveal_strlit("dds_");
    assert("msg"@.len() == 3);
    assert("dds_"@.len() == 4);
    match message_type {
        MessageType::PoseStamped => {
            reveal_strlit("geometry_msgs.PoseStamped");
            reveal_strlit("geometry_msgs/msg/PoseStamped");
            reveal_strlit("geometry_msgs");
            reveal_strlit("PoseStamped");
            assert("geometry_msgs/msg/PoseStamped"@ =~= "geometry_msgs"@ + "/msg/"@ + "PoseStamped"@);
            assert("geometry_msgs.PoseStamped"@ =~= "geometry_msgs"@ + seq!['.'] + "PoseStamped"@);
            lemma_schema_type("geometry_msgs"@, "PoseStamped"@);
        },
        MessageType::TransformStamped => {
            reveal_strlit("geometry_msgs.TransformStamped");
            reveal_strlit("geometry_msgs/msg/TransformStamped");
            reveal_strlit("geometry_msgs");
            reveal_strlit("TransformStamped");
            assert("geometry_msgs/msg/TransformStamped"@ =~= "geometry_msgs"@ + "/msg/"@ + "TransformStamped"@);
            assert("geometry_msgs.TransformStamped"@ =~= "geometry_msgs"@ + seq!['.'] + "TransformStamped"@);
            lemma_schema_type("geometry_msgs"@, "TransformStamped"@);
        },
        MessageType::Odometry => {
            reveal_strlit("nav_msgs.Odometry");
            reveal_strlit("nav_msgs/msg/Odometry");
            reveal_strlit("nav_msgs");
            reveal_strlit("Odometry");
            assert("nav_msgs/msg/Odometry"@ =~= "nav_msgs"@ + "/msg/"@ + "Odometry"@);
            assert("nav_msgs.Odometry"@ =~= "nav_msgs"@ + seq!['.'] + "Odometry"@);
            lemma_schema_type("nav_msgs"@, "Odometry"@);
        },
        MessageType::Path => {
            reveal_strlit("nav_msgs.Path");
            reveal_strlit("nav_msgs/msg/Path");
            reveal_strlit("nav_msgs");
            reveal_strlit("Path");
            assert("nav_msgs/msg/Path"@ =~= "nav_msgs"@ + "/msg/"@ + "Path"@);
            assert("nav_msgs.Path"@ =~= "nav_msgs"@ + seq!['.'] + "Path"@);
            assert("Path"@[0] != "dds_"@[0]);
            lemma_schema_type("nav_msgs"@, "Path"@);
        },
        MessageType::CameraInfo => {
            reveal_strlit("sensor_msgs.CameraInfo");
            reveal_strlit("sensor_msgs/msg/CameraInfo");
            reveal_strlit("sensor_msgs");
            reveal_strlit("CameraInfo");
            assert("sensor_msgs/msg/CameraInfo"@ =~= "sensor_msgs"@ + "/msg/"@ + "CameraInfo"@);
            assert("sensor_msgs.CameraInfo"@ =~= "sensor_msgs"@ + seq!['.'] + "CameraInfo"@);
            lemma_schema_type("sensor_msgs"@, "CameraInfo"@);
        },
        MessageType::CompressedImage => {
            reveal_strlit("sensor_msgs.CompressedImage");
            reveal_strlit("sensor_msgs/msg/CompressedImage");
            reveal_strlit("sensor_msgs");
            reveal_strlit("CompressedImage");
            assert("sensor_msgs/msg/CompressedImage"@ =~= "sensor_msgs"@ + "/msg/"@ + "CompressedImage"@);
            assert("sensor_msgs.CompressedImage"@ =~= "sensor_msgs"@ + seq!['.'] + "CompressedImage"@);
            lemma_schema_type("sensor_msgs"@, "CompressedImage"@);
        },
        MessageType::Image => {
            reveal_strlit("sensor_msgs.Image");
            reveal_strlit("sensor_msgs/msg/Image");
            reveal_strlit("sensor_msgs");
            reveal_strlit("Image");
            assert("sensor_msgs/msg/Image"@ =~= "sensor_msgs"@ + "/msg/"@ + "Image"@);
            assert("sensor_msgs.Image"@ =~= "sensor_msgs"@ + seq!['.'] + "Image"@);
            lemma_schema_type("sensor_msgs"@, "Image"@);
        },
        MessageType::Imu => {
            reveal_strlit("sensor_msgs.Imu");
            reveal_strlit("sensor_msgs/msg/Imu");
            reveal_strlit("sensor_msgs");
            reveal_strlit("Imu");
            assert("sensor_msgs/msg/Imu"@ =~= "sensor_msgs"@ + "/msg/"@ + "Imu"@);
            assert("sensor_msgs.Imu"@ =~= "sensor_msgs"@ + seq!['.'] + "Imu"@);
            assert("Imu"@[0] != "msg"@[0]);
            lemma_schema_type("sensor_msgs"@, "Imu"@);
        },
        MessageType::JointState => {
            reveal_strlit("sensor_msgs.JointState");
            reveal_strlit("sensor_msgs/msg/JointState");
            reveal_strlit("sensor_msgs");
            reveal_strlit("JointState");
            assert("sensor_msgs/msg/JointState"@ =~= "sensor_msgs"@ + "/msg/"@ + "JointState"@);
            assert("sensor_msgs.JointState"@ =~= "sensor_msgs"@ + seq!['.'] + "JointState"@);
            lemma_schema_type("sensor_msgs"@, "JointState"@);
        },
        MessageType::LaserScan => {
            reveal_strlit("sensor_msgs.LaserScan");
            reveal_strlit("sensor_msgs/msg/LaserScan");
            reveal_strlit("sensor_msgs");
            reveal_strlit("LaserScan");
            assert("sensor_msgs/msg/LaserScan"@ =~= "sensor_msgs"@ + "/msg/"@ + "LaserScan"@);
            assert("sensor_msgs.LaserScan"@ =~= "sensor_msgs"@ + seq!['.'] + "LaserScan"@);
            lemma_schema_type("sensor_msgs"@, "LaserScan"@);
        },
        MessageType::PointCloud2 => {
            reveal_strlit("sensor_msgs.PointCloud2");
            reveal_strlit("sensor_msgs/msg/PointCloud2");
            reveal_strlit("sensor_msgs");
            reveal_strlit("PointCloud2");
            assert("sensor_msgs/msg/PointCloud2"@ =~= "sensor_msgs"@ + "/msg/"@ + "PointCloud2"@);
            assert("sensor_msgs.PointCloud2"@ =~= "sensor_msgs"@ + seq!['.'] + "PointCloud2"@);
            lemma_schema_type("sensor_msgs"@, "PointCloud2"@);
        },
        MessageType::TFMessage => {
            reveal_strlit("tf2_msgs.TFMessage");
            reveal_strlit("tf2_msgs/msg/TFMessage");
            reveal_strlit("tf2_msgs");
            reveal_strlit("TFMessage");
            assert("tf2_msgs/msg/TFMessage"@ =~= "tf2_msgs"@ + "/msg/"@ + "TFMessage"@);
            assert("tf2_msgs.TFMessage"@ =~= "tf2_msgs"@ + seq!['.'] + "TFMessage"@);
            lemma_schema_type("tf2_msgs"@, "TFMessage"@);
        },
    }
}

pub const GEOMETRY_MSGS_POSESTAMPED: &'static str = r#"std_msgs/Header header
geometry_msgs/Pose pose
================================================================================
MSG: std_msgs/Header
builtin_interfaces/Time stamp
string frame_id
================================================================================
MSG: builtin_interfaces/Time
int32 sec
uint32 nanosec
================================================================================
MSG: geometry_msgs/Pose
geometry_msgs/Point position
geometry_msgs/Quaternion orientation
================================================================================
MSG: geometry_msgs/Point
float64 x
float64 y
float64 z
================================================================================
MSG: geometry_msgs/Quaternion
float64 x
float64 y
float64 z
float64 w
"#;

pub const GEOMETRY_MSGS_TRANSFORMSTAMPED: &'static str = r#"std_msgs/Header header
string child_frame_id
geometry_msgs/Transform transform
================================================================================
MSG: std_msgs/Header
builtin_interfaces/Time stamp
string frame_id
================================================================================
MSG: builtin_interfaces/Time
int32 sec
uint32 nanosec
================================================================================
MSG: geometry_msgs/Transform
geometry_msgs/Vector3 translation
geometry_msgs/Quaternion rotation
================================================================================
MSG: geometry_msgs/Vector3
float64 x
float64 y
float64 z
================================================================================
MSG: geometry_msgs/Quaternion
float64 x
float64 y
float64 z
float64 w
"#;

pub const NAV_MSGS_ODOMETRY: &'static str = r#"std_msgs/Header header
string child_frame_id
geometry_msgs/PoseWithCovariance pose
geometry_msgs/TwistWithCovariance twist
================================================================================
MSG: std_msgs/Header
builtin_interfaces/Time stamp
string frame_id
================================================================================
MSG: builtin_interfaces/Time
int32 sec
uint32 nanosec
================================================================================
MSG: geometry_msgs/PoseWithCovariance
geometry_msgs/Pose pose
float64[36] covariance
================================================================================
MSG: geometry_msgs/Pose
geometry_msgs/Point position
geometry_msgs/Quaternion orientation
================================================================================
MSG: geometry_msgs/Point
float64 x
float64 y
float64 z
================================================================================
MSG: geometry_msgs/Quaternion
float64 x
float64 y
float64 z
float64 w
================================================================================
MSG: geometry_msgs/TwistWithCovariance
geometry_msgs/Twist twist
float64[36] covariance
================================================================================
MSG: geometry_msgs/Twist
geometry_msgs/Vector3 linear
geometry_msgs/Vector3 angular
================================================================================
MSG: geometry_msgs/Vector3
float64 x
float64 y
float64 z
"#;

pub const NAV_MSGS_PATH: &'static str = r#"std_msgs/Header header
geometry_msgs/PoseStamped[] poses
================================================================================
MSG: std_msgs/Header
builtin_interfaces/Time stamp
string frame_id
================================================================================
MSG: builtin_interfaces/Time
int32 sec
uint32 nanosec
================================================================================
MSG: geometry_msgs/PoseStamped
std_msgs/Header header
geometry_msgs/Pose pose
================================================================================
MSG: geometry_msgs/Pose
geometry_msgs/Point position
geometry_msgs/Quaternion orientation
================================================================================
MSG: geometry_msgs/Point
float64 x
float64 y
float64 z
================================================================================
MSG: geometry_msgs/Quaternion
float64 x
float64 y
float64 z
float64 w
"#;

pub const SENSOR_MSGS_CAMERAINFO: &'static str = r#"std_msgs/Header header
uint32 height
uint32 width
string distortion_model
float64[] d
float64[9] k
float64[9] r
float64[12] p
uint32 binning_x
uint32 binning_y
sensor_msgs/RegionOfInterest roi
================================================================================
MSG: std_msgs/Header
builtin_interfaces/Time stamp
string frame_id
================================================================================
MSG: builtin_interfaces/Time
int32 sec
uint32 nanosec
================================================================================
MSG: sensor_msgs/RegionOfInterest
uint32 x_offset
uint32 y_offset
uint32 height
uint32 width
bool do_rectify
"#;

pub const SENSOR_MSGS_COMPRESSEDIMAGE: &'static str = r#"std_msgs/Header header
string format
uint8[] data
================================================================================
MSG: std_msgs/Header
builtin_interfaces/Time stamp
string frame_id
================================================================================
MSG: builtin_interfaces/Time
int32 sec
uint32 nanosec
"#;

pub const SENSOR_MSGS_IMAGE: &'static str = r#"std_msgs/Header header
uint32 height
uint32 width
string encoding
uint8 is_bigendian
uint32 step
uint8[] data
================================================================================
MSG: std_msgs/Header
builtin_interfaces/Time stamp
string frame_id
================================================================================
MSG: builtin_interfaces/Time
int32 sec
uint32 nanosec
"#;

pub const SENSOR_MSGS_IMU: &'static str = r#"std_msgs/Header header
geometry_msgs/Quaternion orientation
float64[9] orientation_covariance
geometry_msgs/Vector3 angular_velocity
float64[9] angular_velocity_covariance
geometry_msgs/Vector3 linear_acceleration
float64[9] linear_acceleration_covariance
================================================================================
MSG: std_msgs/Header
builtin_interfaces/Time stamp
string frame_id
================================================================================
MSG: builtin_interfaces/Time
int32 sec
uint32 nanosec
================================================================================
MSG: geometry_msgs/Quaternion
float64 x
float64 y
float64 z
float64 w
================================================================================
MSG: geometry_msgs/Vector3
float64 x
float64 y
float64 z
"#;

pub const SENSOR_MSGS_JOINTSTATE: &'static str = r#"std_msgs/Header header
string[] name
float64[] position
float64[] velocity
float64[] effort
================================================================================
MSG: std_msgs/Header
builtin_interfaces/Time stamp
string frame_id
================================================================================
MSG: builtin_interfaces/Time
int32 sec
uint32 nanosec
"#;

pub const SENSOR_MSGS_LASERSCAN: &'static str = r#"std_msgs/Header header
float32 angle_min
float32 angle_max
float32 angle_increment
float32 time_increment
float32 scan_time
float32 range_min
float32 range_max
float32[] ranges
float32[] intensities
================================================================================
MSG: std_msgs/Header
builtin_interfaces/Time stamp
string frame_id
================================================================================
MSG: builtin_interfaces/Time
int32 sec
uint32 nanosec
"#;

pub const SENSOR_MSGS_POINTCLOUD2: &'static str = r#"std_msgs/Header header
uint32 height
uint32 width
sensor_msgs/PointField[] fields
bool is_bigendian
uint32 point_step
uint32 row_step
uint8[] data
bool is_dense
================================================================================
MSG: std_msgs/Header
builtin_interfaces/Time stamp
string frame_id
================================================================================
MSG: builtin_interfaces/Time
int32 sec
uint32 nanosec
================================================================================
MSG: sensor_msgs/PointField
uint8 INT8=1
uint8 UINT8=2
uint8 INT16=3
uint8 UINT16=4
uint8 INT32=5
uint8 UINT32=6
uint8 FLOAT32=7
uint8 FLOAT64=8
string name
uint32 offset
uint8 datatype
uint32 count
"#;

pub const TF2_MSGS_TFMESSAGE: &'static str = r#"geometry_msgs/TransformStamped[] transforms
================================================================================
MSG: geometry_msgs/TransformStamped
std_msgs/Header header
string child_frame_id
geometry_msgs/Transform transform
================================================================================
MSG: std_msgs/Header
builtin_interfaces/Time stamp
string frame_id
================================================================================
MSG: builtin_interfaces/Time
int32 sec
uint32 nanosec
================================================================================
MSG: geometry_msgs/Transform
geometry_msgs/Vector3 translation
geometry_msgs/Quaternion rotation
================================================================================
MSG: geometry_msgs/Vector3
float64 x
float64 y
float64 z
================================================================================
MSG: geometry_msgs/Quaternion
float64 x
float64 y
float64 z
float64 w
"#;

} // verus!
