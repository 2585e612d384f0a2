//! The schema texts, taken apart into the lines of the definitions.
use super::definitions::{block, blocks, definition, explained, group_texts, Ros};
use super::{
    GEOMETRY_MSGS_POSESTAMPED, GEOMETRY_MSGS_TRANSFORMSTAMPED, NAV_MSGS_ODOMETRY, NAV_MSGS_PATH,
    SENSOR_MSGS_CAMERAINFO, SENSOR_MSGS_COMPRESSEDIMAGE, SENSOR_MSGS_IMAGE, SENSOR_MSGS_IMU,
    SENSOR_MSGS_JOINTSTATE, SENSOR_MSGS_LASERSCAN, SENSOR_MSGS_POINTCLOUD2, TF2_MSGS_TFMESSAGE,
};
use crate::cdr::types::MessageType;
use crate::text::decimal;
use vstd::prelude::*;

verus! {

// ------------------------------------------------------------- one definition
proof fn lemma_definition_of_time()
    ensures
        definition(Ros::Time) == r#"int32 sec
uint32 nanosec
"#@,
{
    broadcast use group_texts;

    reveal(definition);
    reveal_strlit("int32");
    reveal_strlit("sec");
    reveal_strlit("uint32");
    reveal_strlit("nanosec");
    reveal_strlit(" ");
    reveal_strlit("\n");
    reveal_strlit(r#"int32 sec
uint32 nanosec
"#);
}

proof fn lemma_definition_of_header()
    ensures
        definition(Ros::Header) == r#"builtin_interfaces/Time stamp
string frame_id
"#@,
{
    broadcast use group_texts;

    reveal(definition);
    reveal_strlit("builtin_interfaces/Time");
    reveal_strlit("stamp");
    reveal_strlit("string");
    reveal_strlit("frame_id");
    reveal_strlit(" ");
    reveal_strlit("\n");
    reveal_strlit(r#"builtin_interfaces/Time stamp
string frame_id
"#);
}

proof fn lemma_definition_of_point()
    ensures
        definition(Ros::Point) == r#"float64 x
float64 y
float64 z
"#@,
{
    broadcast use group_texts;

    reveal(definition);
    reveal_strlit("float64");
    reveal_strlit("x");
    reveal_strlit("y");
    reveal_strlit("z");
    reveal_strlit(" ");
    reveal_strlit("\n");
    reveal_strlit(r#"float64 x
float64 y
float64 z
"#);
}

proof fn lemma_definition_of_vector3()
    ensures
        definition(Ros::Vector3) == r#"float64 x
float64 y
float64 z
"#@,
{
    broadcast use group_texts;

    reveal(definition);
    reveal_strlit("float64");
    reveal_strlit("x");
    reveal_strlit("y");
    reveal_strlit("z");
    reveal_strlit(" ");
    reveal_strlit("\n");
    reveal_strlit(r#"float64 x
float64 y
float64 z
"#);
}

proof fn lemma_definition_of_quaternion()
    ensures
        definition(Ros::Quaternion) == r#"float64 x
float64 y
float64 z
float64 w
"#@,
{
    broadcast use group_texts;

    reveal(definition);
    reveal_strlit("float64");
    reveal_strlit("x");
    reveal_strlit("y");
    reveal_strlit("z");
    reveal_strlit("w");
    reveal_strlit(" ");
    reveal_strlit("\n");
    reveal_strlit(r#"float64 x
float64 y
float64 z
float64 w
"#);
}

proof fn lemma_definition_of_pose()
    ensures
        definition(Ros::Pose) == r#"geometry_msgs/Point position
geometry_msgs/Quaternion orientation
"#@,
{
    broadcast use group_texts;

    reveal(definition);
    reveal_strlit("geometry_msgs/Point");
    reveal_strlit("position");
    reveal_strlit("geometry_msgs/Quaternion");
    reveal_strlit("orientation");
    reveal_strlit(" ");
    reveal_strlit("\n");
    reveal_strlit(r#"geometry_msgs/Point position
geometry_msgs/Quaternion orientation
"#);
}

proof fn lemma_definition_of_twist()
    ensures
        definition(Ros::Twist) == r#"geometry_msgs/Vector3 linear
geometry_msgs/Vector3 angular
"#@,
{
    broadcast use group_texts;

    reveal(definition);
    reveal_strlit("geometry_msgs/Vector3");
    reveal_strlit("linear");
    reveal_strlit("angular");
    reveal_strlit(" ");
    reveal_strlit("\n");
    reveal_strlit(r#"geometry_msgs/Vector3 linear
geometry_msgs/Vector3 angular
"#);
}

proof fn lemma_definition_of_transform()
    ensures
        definition(Ros::Transform) == r#"geometry_msgs/Vector3 translation
geometry_msgs/Quaternion rotation
"#@,
{
    broadcast use group_texts;

    reveal(definition);
    reveal_strlit("geometry_msgs/Vector3");
    reveal_strlit("translation");
    reveal_strlit("geometry_msgs/Quaternion");
    reveal_strlit("rotation");
    reveal_strlit(" ");
    reveal_strlit("\n");
    reveal_strlit(r#"geometry_msgs/Vector3 translation
geometry_msgs/Quaternion rotation
"#);
}

proof fn lemma_definition_of_pose_with_covariance()
    ensures
        definition(Ros::PoseWithCovariance) == r#"geometry_msgs/Pose pose
float64[36] covariance
"#@,
{
    broadcast use group_texts;

    reveal(definition);
    reveal_with_fuel(decimal, 2);
    reveal_strlit("geometry_msgs/Pose");
    reveal_strlit("pose");
    reveal_strlit("float64");
    reveal_strlit("[");
    reveal_strlit("]");
    reveal_strlit("covariance");
    reveal_strlit(" ");
    reveal_strlit("\n");
    reveal_strlit(r#"geometry_msgs/Pose pose
float64[36] covariance
"#);
}

proof fn lemma_definition_of_twist_with_covariance()
    ensures
        definition(Ros::TwistWithCovariance) == r#"geometry_msgs/Twist twist
float64[36] covariance
"#@,
{
    broadcast use group_texts;

    reveal(definition);
    reveal_with_fuel(decimal, 2);
    reveal_strlit("geometry_msgs/Twist");
    reveal_strlit("twist");
    reveal_strlit("float64");
    reveal_strlit("[");
    reveal_strlit("]");
    reveal_strlit("covariance");
    reveal_strlit(" ");
    reveal_strlit("\n");
    reveal_strlit(r#"geometry_msgs/Twist twist
float64[36] covariance
"#);
}

proof fn lemma_definition_of_region_of_interest()
    ensures
        definition(Ros::RegionOfInterest) == r#"uint32 x_offset
uint32 y_offset
uint32 height
uint32 width
bool do_rectify
"#@,
{
    broadcast use group_texts;

    reveal(definition);
    reveal_strlit("uint32");
    reveal_strlit("x_offset");
    reveal_strlit("y_offset");
    reveal_strlit("height");
    reveal_strlit("width");
    reveal_strlit("bool");
    reveal_strlit("do_rectify");
    reveal_strlit(" ");
    reveal_strlit("\n");
    reveal_strlit(r#"uint32 x_offset
uint32 y_offset
uint32 height
uint32 width
bool do_rectify
"#);
}

proof fn lemma_definition_of_point_field()
    ensures
        definition(Ros::PointField) == r#"uint8 INT8=1
uint8 UINT8=2
uint8 INT16=3
uint8 UINT16=4
uint8 INT32=5
uint8 UINT32=6
uint8 FLOAT32=7
uint8 FLOAT64=8
string name
uint32 offset
uint8 datatype
uint32 count
"#@,
{
    broadcast use group_texts;

    reveal(definition);
    reveal_strlit("uint8 INT8=1\n");
    reveal_strlit("uint8 UINT8=2\n");
    reveal_strlit("uint8 INT16=3\n");
    reveal_strlit("uint8 UINT16=4\n");
    reveal_strlit("uint8 INT32=5\n");
    reveal_strlit("uint8 UINT32=6\n");
    reveal_strlit("uint8 FLOAT32=7\n");
    reveal_strlit("uint8 FLOAT64=8\n");
    reveal_strlit("string");
    reveal_strlit("name");
    reveal_strlit("uint32");
    reveal_strlit("offset");
    reveal_strlit("uint8");
    reveal_strlit("datatype");
    reveal_strlit("count");
    reveal_strlit(" ");
    reveal_strlit("\n");
    reveal_strlit(r#"uint8 INT8=1
uint8 UINT8=2
uint8 INT16=3
uint8 UINT16=4
uint8 INT32=5
uint8 UINT32=6
uint8 FLOAT32=7
uint8 FLOAT64=8
string name
uint32 offset
uint8 datatype
uint32 count
"#);
}

proof fn lemma_definition_of_pose_stamped()
    ensures
        definition(Ros::PoseStamped) == r#"std_msgs/Header header
geometry_msgs/Pose pose
"#@,
{
    broadcast use group_texts;

    reveal(definition);
    reveal_strlit("std_msgs/Header");
    reveal_strlit("header");
    reveal_strlit("geometry_msgs/Pose");
    reveal_strlit("pose");
    reveal_strlit(" ");
    reveal_strlit("\n");
    reveal_strlit(r#"std_msgs/Header header
geometry_msgs/Pose pose
"#);
}

proof fn lemma_definition_of_transform_stamped()
    ensures
        definition(Ros::TransformStamped) == r#"std_msgs/Header header
string child_frame_id
geometry_msgs/Transform transform
"#@,
{
    broadcast use group_texts;

    reveal(definition);
    reveal_strlit("std_msgs/Header");
    reveal_strlit("header");
    reveal_strlit("string");
    reveal_strlit("child_frame_id");
    reveal_strlit("geometry_msgs/Transform");
    reveal_strlit("transform");
    reveal_strlit(" ");
    reveal_strlit("\n");
    reveal_strlit(r#"std_msgs/Header header
string child_frame_id
geometry_msgs/Transform transform
"#);
}

proof fn lemma_definition_of_odometry()
    ensures
        definition(Ros::Odometry) == r#"std_msgs/Header header
string child_frame_id
geometry_msgs/PoseWithCovariance pose
geometry_msgs/TwistWithCovariance twist
"#@,
{
    broadcast use group_texts;

    reveal(definition);
    reveal_strlit("std_msgs/Header");
    reveal_strlit("header");
    reveal_strlit("string");
    reveal_strlit("child_frame_id");
    reveal_strlit("geometry_msgs/PoseWithCovariance");
    reveal_strlit("pose");
    reveal_strlit("geometry_msgs/TwistWithCovariance");
    reveal_strlit("twist");
    reveal_strlit(" ");
    reveal_strlit("\n");
    reveal_strlit(r#"std_msgs/Header header
string child_frame_id
geometry_msgs/PoseWithCovariance pose
geometry_msgs/TwistWithCovariance twist
"#);
}

proof fn lemma_definition_of_path()
    ensures
        definition(Ros::Path) == r#"std_msgs/Header header
geometry_msgs/PoseStamped[] poses
"#@,
{
    broadcast use group_texts;

    reveal(definition);
    reveal_strlit("std_msgs/Header");
    reveal_strlit("header");
    reveal_strlit("geometry_msgs/PoseStamped");
    reveal_strlit("[]");
    reveal_strlit("poses");
    reveal_strlit(" ");
    reveal_strlit("\n");
    reveal_strlit(r#"std_msgs/Header header
geometry_msgs/PoseStamped[] poses
"#);
}

proof fn lemma_definition_of_camera_info()
    ensures
        definition(Ros::CameraInfo) == r#"std_msgs/Header header
uint32 height
uint32 width
string distortion_model
float64[] d
float64[9] k
float64[9] r
float64[12] p
uint32 binning_x
uint32 binning_y
sensor_msgs/RegionOfInterest roi
"#@,
{
    broadcast use group_texts;

    reveal(definition);
    reveal_with_fuel(decimal, 2);
    reveal_strlit("std_msgs/Header");
    reveal_strlit("header");
    reveal_strlit("uint32");
    reveal_strlit("height");
    reveal_strlit("width");
    reveal_strlit("string");
    reveal_strlit("distortion_model");
    reveal_strlit("float64");
    reveal_strlit("[]");
    reveal_strlit("d");
    reveal_strlit("[");
    reveal_strlit("]");
    reveal_strlit("k");
    reveal_strlit("r");
    reveal_strlit("p");
    reveal_strlit("binning_x");
    reveal_strlit("binning_y");
    reveal_strlit("sensor_msgs/RegionOfInterest");
    reveal_strlit("roi");
    reveal_strlit(" ");
    reveal_strlit("\n");
    reveal_strlit(r#"std_msgs/Header header
uint32 height
uint32 width
string distortion_model
float64[] d
float64[9] k
float64[9] r
float64[12] p
uint32 binning_x
uint32 binning_y
sensor_msgs/RegionOfInterest roi
"#);
}

proof fn lemma_definition_of_compressed_image()
    ensures
        definition(Ros::CompressedImage) == r#"std_msgs/Header header
string format
uint8[] data
"#@,
{
    broadcast use group_texts;

    reveal(definition);
    reveal_strlit("std_msgs/Header");
    reveal_strlit("header");
    reveal_strlit("string");
    reveal_strlit("format");
    reveal_strlit("uint8");
    reveal_strlit("[]");
    reveal_strlit("data");
    reveal_strlit(" ");
    reveal_strlit("\n");
    reveal_strlit(r#"std_msgs/Header header
string format
uint8[] data
"#);
}

proof fn lemma_definition_of_image()
    ensures
        definition(Ros::Image) == r#"std_msgs/Header header
uint32 height
uint32 width
string encoding
uint8 is_bigendian
uint32 step
uint8[] data
"#@,
{
    broadcast use group_texts;

    reveal(definition);
    reveal_strlit("std_msgs/Header");
    reveal_strlit("header");
    reveal_strlit("uint32");
    reveal_strlit("height");
    reveal_strlit("width");
    reveal_strlit("string");
    reveal_strlit("encoding");
    reveal_strlit("uint8");
    reveal_strlit("is_bigendian");
    reveal_strlit("step");
    reveal_strlit("[]");
    reveal_strlit("data");
    reveal_strlit(" ");
    reveal_strlit("\n");
    reveal_strlit(r#"std_msgs/Header header
uint32 height
uint32 width
string encoding
uint8 is_bigendian
uint32 step
uint8[] data
"#);
}

proof fn lemma_definition_of_imu()
    ensures
        definition(Ros::Imu) == r#"std_msgs/Header header
geometry_msgs/Quaternion orientation
float64[9] orientation_covariance
geometry_msgs/Vector3 angular_velocity
float64[9] angular_velocity_covariance
geometry_msgs/Vector3 linear_acceleration
float64[9] linear_acceleration_covariance
"#@,
{
    broadcast use group_texts;

    reveal(definition);
    reveal_with_fuel(decimal, 2);
    reveal_strlit("std_msgs/Header");
    reveal_strlit("header");
    reveal_strlit("geometry_msgs/Quaternion");
    reveal_strlit("orientation");
    reveal_strlit("float64");
    reveal_strlit("[");
    reveal_strlit("]");
    reveal_strlit("orientation_covariance");
    reveal_strlit("geometry_msgs/Vector3");
    reveal_strlit("angular_velocity");
    reveal_strlit("angular_velocity_covariance");
    reveal_strlit("linear_acceleration");
    reveal_strlit("linear_acceleration_covariance");
    reveal_strlit(" ");
    reveal_strlit("\n");
    reveal_strlit(r#"std_msgs/Header header
geometry_msgs/Quaternion orientation
float64[9] orientation_covariance
geometry_msgs/Vector3 angular_velocity
float64[9] angular_velocity_covariance
geometry_msgs/Vector3 linear_acceleration
float64[9] linear_acceleration_covariance
"#);
}

proof fn lemma_definition_of_joint_state()
    ensures
        definition(Ros::JointState) == r#"std_msgs/Header header
string[] name
float64[] position
float64[] velocity
float64[] effort
"#@,
{
    broadcast use group_texts;

    reveal(definition);
    reveal_strlit("std_msgs/Header");
    reveal_strlit("header");
    reveal_strlit("string");
    reveal_strlit("[]");
    reveal_strlit("name");
    reveal_strlit("float64");
    reveal_strlit("position");
    reveal_strlit("velocity");
    reveal_strlit("effort");
    reveal_strlit(" ");
    reveal_strlit("\n");
    reveal_strlit(r#"std_msgs/Header header
string[] name
float64[] position
float64[] velocity
float64[] effort
"#);
}

proof fn lemma_definition_of_laser_scan()
    ensures
        definition(Ros::LaserScan) == r#"std_msgs/Header header
float32 angle_min
float32 angle_max
float32 angle_increment
float32 time_increment
float32 scan_time
float32 range_min
float32 range_max
float32[] ranges
float32[] intensities
"#@,
{
    broadcast use group_texts;

    reveal(definition);
    reveal_strlit("std_msgs/Header");
    reveal_strlit("header");
    reveal_strlit("float32");
    reveal_strlit("angle_min");
    reveal_strlit("angle_max");
    reveal_strlit("angle_increment");
    reveal_strlit("time_increment");
    reveal_strlit("scan_time");
    reveal_strlit("range_min");
    reveal_strlit("range_max");
    reveal_strlit("[]");
    reveal_strlit("ranges");
    reveal_strlit("intensities");
    reveal_strlit(" ");
    reveal_strlit("\n");
    reveal_strlit(r#"std_msgs/Header header
float32 angle_min
float32 angle_max
float32 angle_increment
float32 time_increment
float32 scan_time
float32 range_min
float32 range_max
float32[] ranges
float32[] intensities
"#);
}

proof fn lemma_definition_of_point_cloud2()
    ensures
        definition(Ros::PointCloud2) == r#"std_msgs/Header header
uint32 height
uint32 width
sensor_msgs/PointField[] fields
bool is_bigendian
uint32 point_step
uint32 row_step
uint8[] data
bool is_dense
"#@,
{
    broadcast use group_texts;

    reveal(definition);
    reveal_strlit("std_msgs/Header");
    reveal_strlit("header");
    reveal_strlit("uint32");
    reveal_strlit("height");
    reveal_strlit("width");
    reveal_strlit("sensor_msgs/PointField");
    reveal_strlit("[]");
    reveal_strlit("fields");
    reveal_strlit("bool");
    reveal_strlit("is_bigendian");
    reveal_strlit("point_step");
    reveal_strlit("row_step");
    reveal_strlit("uint8");
    reveal_strlit("data");
    reveal_strlit("is_dense");
    reveal_strlit(" ");
    reveal_strlit("\n");
    reveal_strlit(r#"std_msgs/Header header
uint32 height
uint32 width
sensor_msgs/PointField[] fields
bool is_bigendian
uint32 point_step
uint32 row_step
uint8[] data
bool is_dense
"#);
}

proof fn lemma_definition_of_tf_message()
    ensures
        definition(Ros::TFMessage) == r#"geometry_msgs/TransformStamped[] transforms
"#@,
{
    broadcast use group_texts;

    reveal(definition);
    reveal_strlit("geometry_msgs/TransformStamped");
    reveal_strlit("[]");
    reveal_strlit("transforms");
    reveal_strlit(" ");
    reveal_strlit("\n");
    reveal_strlit(r#"geometry_msgs/TransformStamped[] transforms
"#);
}

// ------------------------------------------------------------------ one block
proof fn lemma_block_of_time()
    ensures
        block(Ros::Time) == r#"================================================================================
MSG: builtin_interfaces/Time
int32 sec
uint32 nanosec
"#@,
{
    reveal(block);
    lemma_definition_of_time();
    reveal_strlit("================================================================================\n");
    reveal_strlit("MSG: ");
    reveal_strlit("builtin_interfaces/Time");
    reveal_strlit("\n");
    reveal_strlit(r#"int32 sec
uint32 nanosec
"#);
    reveal_strlit(r#"================================================================================
MSG: builtin_interfaces/Time
int32 sec
uint32 nanosec
"#);
}

proof fn lemma_block_of_header()
    ensures
        block(Ros::Header) == r#"================================================================================
MSG: std_msgs/Header
builtin_interfaces/Time stamp
string frame_id
"#@,
{
    reveal(block);
    lemma_definition_of_header();
    reveal_strlit("================================================================================\n");
    reveal_strlit("MSG: ");
    reveal_strlit("std_msgs/Header");
    reveal_strlit("\n");
    reveal_strlit(r#"builtin_interfaces/Time stamp
string frame_id
"#);
    reveal_strlit(r#"================================================================================
MSG: std_msgs/Header
builtin_interfaces/Time stamp
string frame_id
"#);
}

proof fn lemma_block_of_point()
    ensures
        block(Ros::Point) == r#"================================================================================
MSG: geometry_msgs/Point
float64 x
float64 y
float64 z
"#@,
{
    reveal(block);
    lemma_definition_of_point();
    reveal_strlit("================================================================================\n");
    reveal_strlit("MSG: ");
    reveal_strlit("geometry_msgs/Point");
    reveal_strlit("\n");
    reveal_strlit(r#"float64 x
float64 y
float64 z
"#);
    reveal_strlit(r#"================================================================================
MSG: geometry_msgs/Point
float64 x
float64 y
float64 z
"#);
}

proof fn lemma_block_of_vector3()
    ensures
        block(Ros::Vector3) == r#"================================================================================
MSG: geometry_msgs/Vector3
float64 x
float64 y
float64 z
"#@,
{
    reveal(block);
    lemma_definition_of_vector3();
    reveal_strlit("================================================================================\n");
    reveal_strlit("MSG: ");
    reveal_strlit("geometry_msgs/Vector3");
    reveal_strlit("\n");
    reveal_strlit(r#"float64 x
float64 y
float64 z
"#);
    reveal_strlit(r#"================================================================================
MSG: geometry_msgs/Vector3
float64 x
float64 y
float64 z
"#);
}

proof fn lemma_block_of_quaternion()
    ensures
        block(Ros::Quaternion) == r#"================================================================================
MSG: geometry_msgs/Quaternion
float64 x
float64 y
float64 z
float64 w
"#@,
{
    reveal(block);
    lemma_definition_of_quaternion();
    reveal_strlit("================================================================================\n");
    reveal_strlit("MSG: ");
    reveal_strlit("geometry_msgs/Quaternion");
    reveal_strlit("\n");
    reveal_strlit(r#"float64 x
float64 y
float64 z
float64 w
"#);
    reveal_strlit(r#"================================================================================
MSG: geometry_msgs/Quaternion
float64 x
float64 y
float64 z
float64 w
"#);
}

proof fn lemma_block_of_pose()
    ensures
        block(Ros::Pose) == r#"================================================================================
MSG: geometry_msgs/Pose
geometry_msgs/Point position
geometry_msgs/Quaternion orientation
"#@,
{
    reveal(block);
    lemma_definition_of_pose();
    reveal_strlit("================================================================================\n");
    reveal_strlit("MSG: ");
    reveal_strlit("geometry_msgs/Pose");
    reveal_strlit("\n");
    reveal_strlit(r#"geometry_msgs/Point position
geometry_msgs/Quaternion orientation
"#);
    reveal_strlit(r#"================================================================================
MSG: geometry_msgs/Pose
geometry_msgs/Point position
geometry_msgs/Quaternion orientation
"#);
}

proof fn lemma_block_of_twist()
    ensures
        block(Ros::Twist) == r#"================================================================================
MSG: geometry_msgs/Twist
geometry_msgs/Vector3 linear
geometry_msgs/Vector3 angular
"#@,
{
    reveal(block);
    lemma_definition_of_twist();
    reveal_strlit("================================================================================\n");
    reveal_strlit("MSG: ");
    reveal_strlit("geometry_msgs/Twist");
    reveal_strlit("\n");
    reveal_strlit(r#"geometry_msgs/Vector3 linear
geometry_msgs/Vector3 angular
"#);
    reveal_strlit(r#"================================================================================
MSG: geometry_msgs/Twist
geometry_msgs/Vector3 linear
geometry_msgs/Vector3 angular
"#);
}

proof fn lemma_block_of_transform()
    ensures
        block(Ros::Transform) == r#"================================================================================
MSG: geometry_msgs/Transform
geometry_msgs/Vector3 translation
geometry_msgs/Quaternion rotation
"#@,
{
    reveal(block);
    lemma_definition_of_transform();
    reveal_strlit("================================================================================\n");
    reveal_strlit("MSG: ");
    reveal_strlit("geometry_msgs/Transform");
    reveal_strlit("\n");
    reveal_strlit(r#"geometry_msgs/Vector3 translation
geometry_msgs/Quaternion rotation
"#);
    reveal_strlit(r#"================================================================================
MSG: geometry_msgs/Transform
geometry_msgs/Vector3 translation
geometry_msgs/Quaternion rotation
"#);
}

proof fn lemma_block_of_pose_with_covariance()
    ensures
        block(Ros::PoseWithCovariance) == r#"================================================================================
MSG: geometry_msgs/PoseWithCovariance
geometry_msgs/Pose pose
float64[36] covariance
"#@,
{
    reveal(block);
    lemma_definition_of_pose_with_covariance();
    reveal_strlit("================================================================================\n");
    reveal_strlit("MSG: ");
    reveal_strlit("geometry_msgs/PoseWithCovariance");
    reveal_strlit("\n");
    reveal_strlit(r#"geometry_msgs/Pose pose
float64[36] covariance
"#);
    reveal_strlit(r#"================================================================================
MSG: geometry_msgs/PoseWithCovariance
geometry_msgs/Pose pose
float64[36] covariance
"#);
}

proof fn lemma_block_of_twist_with_covariance()
    ensures
        block(Ros::TwistWithCovariance) == r#"================================================================================
MSG: geometry_msgs/TwistWithCovariance
geometry_msgs/Twist twist
float64[36] covariance
"#@,
{
    reveal(block);
    lemma_definition_of_twist_with_covariance();
    reveal_strlit("================================================================================\n");
    reveal_strlit("MSG: ");
    reveal_strlit("geometry_msgs/TwistWithCovariance");
    reveal_strlit("\n");
    reveal_strlit(r#"geometry_msgs/Twist twist
float64[36] covariance
"#);
    reveal_strlit(r#"================================================================================
MSG: geometry_msgs/TwistWithCovariance
geometry_msgs/Twist twist
float64[36] covariance
"#);
}

proof fn lemma_block_of_region_of_interest()
    ensures
        block(Ros::RegionOfInterest) == r#"================================================================================
MSG: sensor_msgs/RegionOfInterest
uint32 x_offset
uint32 y_offset
uint32 height
uint32 width
bool do_rectify
"#@,
{
    reveal(block);
    lemma_definition_of_region_of_interest();
    reveal_strlit("================================================================================\n");
    reveal_strlit("MSG: ");
    reveal_strlit("sensor_msgs/RegionOfInterest");
    reveal_strlit("\n");
    reveal_strlit(r#"uint32 x_offset
uint32 y_offset
uint32 height
uint32 width
bool do_rectify
"#);
    reveal_strlit(r#"================================================================================
MSG: sensor_msgs/RegionOfInterest
uint32 x_offset
uint32 y_offset
uint32 height
uint32 width
bool do_rectify
"#);
}

proof fn lemma_block_of_point_field()
    ensures
        block(Ros::PointField) == r#"================================================================================
MSG: sensor_msgs/PointField
uint8 INT8=1
uint8 UINT8=2
uint8 INT16=3
uint8 UINT16=4
uint8 INT32=5
uint8 UINT32=6
uint8 FLOAT32=7
uint8 FLOAT64=8
string name
uint32 offset
uint8 datatype
uint32 count
"#@,
{
    reveal(block);
    lemma_definition_of_point_field();
    reveal_strlit("================================================================================\n");
    reveal_strlit("MSG: ");
    reveal_strlit("sensor_msgs/PointField");
    reveal_strlit("\n");
    reveal_strlit(r#"uint8 INT8=1
uint8 UINT8=2
uint8 INT16=3
uint8 UINT16=4
uint8 INT32=5
uint8 UINT32=6
uint8 FLOAT32=7
uint8 FLOAT64=8
string name
uint32 offset
uint8 datatype
uint32 count
"#);
    reveal_strlit(r#"================================================================================
MSG: sensor_msgs/PointField
uint8 INT8=1
uint8 UINT8=2
uint8 INT16=3
uint8 UINT16=4
uint8 INT32=5
uint8 UINT32=6
uint8 FLOAT32=7
uint8 FLOAT64=8
string name
uint32 offset
uint8 datatype
uint32 count
"#);
}

proof fn lemma_block_of_pose_stamped()
    ensures
        block(Ros::PoseStamped) == r#"================================================================================
MSG: geometry_msgs/PoseStamped
std_msgs/Header header
geometry_msgs/Pose pose
"#@,
{
    reveal(block);
    lemma_definition_of_pose_stamped();
    reveal_strlit("================================================================================\n");
    reveal_strlit("MSG: ");
    reveal_strlit("geometry_msgs/PoseStamped");
    reveal_strlit("\n");
    reveal_strlit(r#"std_msgs/Header header
geometry_msgs/Pose pose
"#);
    reveal_strlit(r#"================================================================================
MSG: geometry_msgs/PoseStamped
std_msgs/Header header
geometry_msgs/Pose pose
"#);
}

proof fn lemma_block_of_transform_stamped()
    ensures
        block(Ros::TransformStamped) == r#"================================================================================
MSG: geometry_msgs/TransformStamped
std_msgs/Header header
string child_frame_id
geometry_msgs/Transform transform
"#@,
{
    reveal(block);
    lemma_definition_of_transform_stamped();
    reveal_strlit("================================================================================\n");
    reveal_strlit("MSG: ");
    reveal_strlit("geometry_msgs/TransformStamped");
    reveal_strlit("\n");
    reveal_strlit(r#"std_msgs/Header header
string child_frame_id
geometry_msgs/Transform transform
"#);
    reveal_strlit(r#"================================================================================
MSG: geometry_msgs/TransformStamped
std_msgs/Header header
string child_frame_id
geometry_msgs/Transform transform
"#);
}

// ------------------------------------------------------------------- one text
proof fn lemma_blocks_of_pose_stamped()
    ensures
        blocks(explained(MessageType::PoseStamped)) == block(Ros::Header)
            + block(Ros::Time)
            + block(Ros::Pose)
            + block(Ros::Point)
            + block(Ros::Quaternion),
{
    broadcast use group_texts;

}

pub proof fn lemma_text_of_pose_stamped()
    ensures
        GEOMETRY_MSGS_POSESTAMPED@ == definition(Ros::PoseStamped) + blocks(explained(MessageType::PoseStamped)),
        GEOMETRY_MSGS_POSESTAMPED@.len() == 788,
{
    lemma_blocks_of_pose_stamped();
    lemma_definition_of_pose_stamped();
    lemma_block_of_header();
    lemma_block_of_time();
    lemma_block_of_pose();
    lemma_block_of_point();
    lemma_block_of_quaternion();
    reveal_strlit(r#"std_msgs/Header header
geometry_msgs/Pose pose
"#);
    reveal_strlit(r#"================================================================================
MSG: std_msgs/Header
builtin_interfaces/Time stamp
string frame_id
"#);
    reveal_strlit(r#"================================================================================
MSG: builtin_interfaces/Time
int32 sec
uint32 nanosec
"#);
    reveal_strlit(r#"================================================================================
MSG: geometry_msgs/Pose
geometry_msgs/Point position
geometry_msgs/Quaternion orientation
"#);
    reveal_strlit(r#"================================================================================
MSG: geometry_msgs/Point
float64 x
float64 y
float64 z
"#);
    reveal_strlit(r#"================================================================================
MSG: geometry_msgs/Quaternion
float64 x
float64 y
float64 z
float64 w
"#);
    reveal_strlit(r#"std_msgs/Header header
geometry_msgs/Pose pose
================================================================================
MSG: std_msgs/Header
builtin_interfaces/Time stamp
string frame_id
================================================================================
MSG: builtin_interfaces/Time
int32 sec
uint32 nanosec
================================================================================
MSG: geometry_msgs/Pose
geometry_msgs/Point position
geometry_msgs/Quaternion orientation
================================================================================
MSG: geometry_msgs/Point
float64 x
float64 y
float64 z
================================================================================
MSG: geometry_msgs/Quaternion
float64 x
float64 y
float64 z
float64 w
"#);
    assert(GEOMETRY_MSGS_POSESTAMPED@ =~= definition(Ros::PoseStamped) + blocks(explained(MessageType::PoseStamped)));
}

proof fn lemma_blocks_of_transform_stamped()
    ensures
        blocks(explained(MessageType::TransformStamped)) == block(Ros::Header)
            + block(Ros::Time)
            + block(Ros::Transform)
            + block(Ros::Vector3)
            + block(Ros::Quaternion),
{
    broadcast use group_texts;

}

pub proof fn lemma_text_of_transform_stamped()
    ensures
        GEOMETRY_MSGS_TRANSFORMSTAMPED@ == definition(Ros::TransformStamped) + blocks(explained(MessageType::TransformStamped)),
        GEOMETRY_MSGS_TRANSFORMSTAMPED@.len() == 829,
{
    lemma_blocks_of_transform_stamped();
    lemma_definition_of_transform_stamped();
    lemma_block_of_header();
    lemma_block_of_time();
    lemma_block_of_transform();
    lemma_block_of_vector3();
    lemma_block_of_quaternion();
    reveal_strlit(r#"std_msgs/Header header
string child_frame_id
geometry_msgs/Transform transform
"#);
    reveal_strlit(r#"================================================================================
MSG: std_msgs/Header
builtin_interfaces/Time stamp
string frame_id
"#);
    reveal_strlit(r#"================================================================================
MSG: builtin_interfaces/Time
int32 sec
uint32 nanosec
"#);
    reveal_strlit(r#"================================================================================
MSG: geometry_msgs/Transform
geometry_msgs/Vector3 translation
geometry_msgs/Quaternion rotation
"#);
    reveal_strlit(r#"================================================================================
MSG: geometry_msgs/Vector3
float64 x
float64 y
float64 z
"#);
    reveal_strlit(r#"================================================================================
MSG: geometry_msgs/Quaternion
float64 x
float64 y
float64 z
float64 w
"#);
    reveal_strlit(r#"std_msgs/Header header
string child_frame_id
geometry_msgs/Transform transform
================================================================================
MSG: std_msgs/Header
builtin_interfaces/Time stamp
string frame_id
================================================================================
MSG: builtin_interfaces/Time
int32 sec
uint32 nanosec
================================================================================
MSG: geometry_msgs/Transform
geometry_msgs/Vector3 translation
geometry_msgs/Quaternion rotation
================================================================================
MSG: geometry_msgs/Vector3
float64 x
float64 y
float64 z
================================================================================
MSG: geometry_msgs/Quaternion
float64 x
float64 y
float64 z
float64 w
"#);
    assert(GEOMETRY_MSGS_TRANSFORMSTAMPED@ =~= definition(Ros::TransformStamped) + blocks(explained(MessageType::TransformStamped)));
}

proof fn lemma_blocks_of_odometry()
    ensures
        blocks(explained(MessageType::Odometry)) == block(Ros::Header)
            + block(Ros::Time)
            + block(Ros::PoseWithCovariance)
            + block(Ros::Pose)
            + block(Ros::Point)
            + block(Ros::Quaternion)
            + block(Ros::TwistWithCovariance)
            + block(Ros::Twist)
            + block(Ros::Vector3),
{
    broadcast use group_texts;

}

#[verifier::rlimit(60)]
#[verifier::spinoff_prover]
pub proof fn lemma_text_of_odometry()
    ensures
        NAV_MSGS_ODOMETRY@ == definition(Ros::Odometry) + blocks(explained(MessageType::Odometry)),
        NAV_MSGS_ODOMETRY@.len() == 1502,
{
    lemma_blocks_of_odometry();
    lemma_definition_of_odometry();
    lemma_block_of_header();
    lemma_block_of_time();
    lemma_block_of_pose_with_covariance();
    lemma_block_of_pose();
    lemma_block_of_point();
    lemma_block_of_quaternion();
    lemma_block_of_twist_with_covariance();
    lemma_block_of_twist();
    lemma_block_of_vector3();
    reveal_strlit(r#"std_msgs/Header header
string child_frame_id
geometry_msgs/PoseWithCovariance pose
geometry_msgs/TwistWithCovariance twist
"#);
    reveal_strlit(r#"================================================================================
MSG: std_msgs/Header
builtin_interfaces/Time stamp
string frame_id
"#);
    reveal_strlit(r#"================================================================================
MSG: builtin_interfaces/Time
int32 sec
uint32 nanosec
"#);
    reveal_strlit(r#"================================================================================
MSG: geometry_msgs/PoseWithCovariance
geometry_msgs/Pose pose
float64[36] covariance
"#);
    reveal_strlit(r#"================================================================================
MSG: geometry_msgs/Pose
geometry_msgs/Point position
geometry_msgs/Quaternion orientation
"#);
    reveal_strlit(r#"================================================================================
MSG: geometry_msgs/Point
float64 x
float64 y
float64 z
"#);
    reveal_strlit(r#"================================================================================
MSG: geometry_msgs/Quaternion
float64 x
float64 y
float64 z
float64 w
"#);
    reveal_strlit(r#"================================================================================
MSG: geometry_msgs/TwistWithCovariance
geometry_msgs/Twist twist
float64[36] covariance
"#);
    reveal_strlit(r#"================================================================================
MSG: geometry_msgs/Twist
geometry_msgs/Vector3 linear
geometry_msgs/Vector3 angular
"#);
    reveal_strlit(r#"================================================================================
MSG: geometry_msgs/Vector3
float64 x
float64 y
float64 z
"#);
    reveal_strlit(r#"std_msgs/Header header
string child_frame_id
geometry_msgs/PoseWithCovariance pose
geometry_msgs/TwistWithCovariance twist
================================================================================
MSG: std_msgs/Header
builtin_interfaces/Time stamp
string frame_id
================================================================================
MSG: builtin_interfaces/Time
int32 sec
uint32 nanosec
================================================================================
MSG: geometry_msgs/PoseWithCovariance
geometry_msgs/Pose pose
float64[36] covariance
================================================================================
MSG: geometry_msgs/Pose
geometry_msgs/Point position
geometry_msgs/Quaternion orientation
================================================================================
MSG: geometry_msgs/Point
float64 x
float64 y
float64 z
================================================================================
MSG: geometry_msgs/Quaternion
float64 x
float64 y
float64 z
float64 w
================================================================================
MSG: geometry_msgs/TwistWithCovariance
geometry_msgs/Twist twist
float64[36] covariance
================================================================================
MSG: geometry_msgs/Twist
geometry_msgs/Vector3 linear
geometry_msgs/Vector3 angular
================================================================================
MSG: geometry_msgs/Vector3
float64 x
float64 y
float64 z
"#);
    assert(NAV_MSGS_ODOMETRY@ =~= definition(Ros::Odometry) + blocks(explained(MessageType::Odometry)));
}

proof fn lemma_blocks_of_path()
    ensures
        blocks(explained(MessageType::Path)) == block(Ros::Header)
            + block(Ros::Time)
            + block(Ros::PoseStamped)
            + block(Ros::Pose)
            + block(Ros::Point)
            + block(Ros::Quaternion),
{
    broadcast use group_texts;

}

pub proof fn lemma_text_of_path()
    ensures
        NAV_MSGS_PATH@ == definition(Ros::Path) + blocks(explained(MessageType::Path)),
        NAV_MSGS_PATH@.len() == 957,
{
    lemma_blocks_of_path();
    lemma_definition_of_path();
    lemma_block_of_header();
    lemma_block_of_time();
    lemma_block_of_pose_stamped();
    lemma_block_of_pose();
    lemma_block_of_point();
    lemma_block_of_quaternion();
    reveal_strlit(r#"std_msgs/Header header
geometry_msgs/PoseStamped[] poses
"#);
    reveal_strlit(r#"================================================================================
MSG: std_msgs/Header
builtin_interfaces/Time stamp
string frame_id
"#);
    reveal_strlit(r#"================================================================================
MSG: builtin_interfaces/Time
int32 sec
uint32 nanosec
"#);
    reveal_strlit(r#"================================================================================
MSG: geometry_msgs/PoseStamped
std_msgs/Header header
geometry_msgs/Pose pose
"#);
    reveal_strlit(r#"================================================================================
MSG: geometry_msgs/Pose
geometry_msgs/Point position
geometry_msgs/Quaternion orientation
"#);
    reveal_strlit(r#"================================================================================
MSG: geometry_msgs/Point
float64 x
float64 y
float64 z
"#);
    reveal_strlit(r#"================================================================================
MSG: geometry_msgs/Quaternion
float64 x
float64 y
float64 z
float64 w
"#);
    reveal_strlit(r#"std_msgs/Header header
geometry_msgs/PoseStamped[] poses
================================================================================
MSG: std_msgs/Header
builtin_interfaces/Time stamp
string frame_id
================================================================================
MSG: builtin_interfaces/Time
int32 sec
uint32 nanosec
================================================================================
MSG: geometry_msgs/PoseStamped
std_msgs/Header header
geometry_msgs/Pose pose
================================================================================
MSG: geometry_msgs/Pose
geometry_msgs/Point position
geometry_msgs/Quaternion orientation
================================================================================
MSG: geometry_msgs/Point
float64 x
float64 y
float64 z
================================================================================
MSG: geometry_msgs/Quaternion
float64 x
float64 y
float64 z
float64 w
"#);
    assert(NAV_MSGS_PATH@ =~= definition(Ros::Path) + blocks(explained(MessageType::Path)));
}

proof fn lemma_blocks_of_camera_info()
    ensures
        blocks(explained(MessageType::CameraInfo)) == block(Ros::Header)
            + block(Ros::Time)
            + block(Ros::RegionOfInterest),
{
    broadcast use group_texts;

}

pub proof fn lemma_text_of_camera_info()
    ensures
        SENSOR_MSGS_CAMERAINFO@ == definition(Ros::CameraInfo) + blocks(explained(MessageType::CameraInfo)),
        SENSOR_MSGS_CAMERAINFO@.len() == 666,
{
    lemma_blocks_of_camera_info();
    lemma_definition_of_camera_info();
    lemma_block_of_header();
    lemma_block_of_time();
    lemma_block_of_region_of_interest();
    reveal_strlit(r#"std_msgs/Header header
uint32 height
uint32 width
string distortion_model
float64[] d
float64[9] k
float64[9] r
float64[12] p
uint32 binning_x
uint32 binning_y
sensor_msgs/RegionOfInterest roi
"#);
    reveal_strlit(r#"================================================================================
MSG: std_msgs/Header
builtin_interfaces/Time stamp
string frame_id
"#);
    reveal_strlit(r#"================================================================================
MSG: builtin_interfaces/Time
int32 sec
uint32 nanosec
"#);
    reveal_strlit(r#"================================================================================
MSG: sensor_msgs/RegionOfInterest
uint32 x_offset
uint32 y_offset
uint32 height
uint32 width
bool do_rectify
"#);
    reveal_strlit(r#"std_msgs/Header header
uint32 height
uint32 width
string distortion_model
float64[] d
float64[9] k
float64[9] r
float64[12] p
uint32 binning_x
uint32 binning_y
sensor_msgs/RegionOfInterest roi
================================================================================
MSG: std_msgs/Header
builtin_interfaces/Time stamp
string frame_id
================================================================================
MSG: builtin_interfaces/Time
int32 sec
uint32 nanosec
================================================================================
MSG: sensor_msgs/RegionOfInterest
uint32 x_offset
uint32 y_offset
uint32 height
uint32 width
bool do_rectify
"#);
    assert(SENSOR_MSGS_CAMERAINFO@ =~= definition(Ros::CameraInfo) + blocks(explained(MessageType::CameraInfo)));
}

proof fn lemma_blocks_of_compressed_image()
    ensures
        blocks(explained(MessageType::CompressedImage)) == block(Ros::Header)
            + block(Ros::Time),
{
    broadcast use group_texts;

}

pub proof fn lemma_text_of_compressed_image()
    ensures
        SENSOR_MSGS_COMPRESSEDIMAGE@ == definition(Ros::CompressedImage) + blocks(explained(MessageType::CompressedImage)),
        SENSOR_MSGS_COMPRESSEDIMAGE@.len() == 333,
{
    lemma_blocks_of_compressed_image();
    lemma_definition_of_compressed_image();
    lemma_block_of_header();
    lemma_block_of_time();
    reveal_strlit(r#"std_msgs/Header header
string format
uint8[] data
"#);
    reveal_strlit(r#"================================================================================
MSG: std_msgs/Header
builtin_interfaces/Time stamp
string frame_id
"#);
    reveal_strlit(r#"================================================================================
MSG: builtin_interfaces/Time
int32 sec
uint32 nanosec
"#);
    reveal_strlit(r#"std_msgs/Header header
string format
uint8[] data
================================================================================
MSG: std_msgs/Header
builtin_interfaces/Time stamp
string frame_id
================================================================================
MSG: builtin_interfaces/Time
int32 sec
uint32 nanosec
"#);
    assert(SENSOR_MSGS_COMPRESSEDIMAGE@ =~= definition(Ros::CompressedImage) + blocks(explained(MessageType::CompressedImage)));
}

proof fn lemma_blocks_of_image()
    ensures
        blocks(explained(MessageType::Image)) == block(Ros::Header)
            + block(Ros::Time),
{
    broadcast use group_texts;

}

pub proof fn lemma_text_of_image()
    ensures
        SENSOR_MSGS_IMAGE@ == definition(Ros::Image) + blocks(explained(MessageType::Image)),
        SENSOR_MSGS_IMAGE@.len() == 393,
{
    lemma_blocks_of_image();
    lemma_definition_of_image();
    lemma_block_of_header();
    lemma_block_of_time();
    reveal_strlit(r#"std_msgs/Header header
uint32 height
uint32 width
string encoding
uint8 is_bigendian
uint32 step
uint8[] data
"#);
    reveal_strlit(r#"================================================================================
MSG: std_msgs/Header
builtin_interfaces/Time stamp
string frame_id
"#);
    reveal_strlit(r#"================================================================================
MSG: builtin_interfaces/Time
int32 sec
uint32 nanosec
"#);
    reveal_strlit(r#"std_msgs/Header header
uint32 height
uint32 width
string encoding
uint8 is_bigendian
uint32 step
uint8[] data
================================================================================
MSG: std_msgs/Header
builtin_interfaces/Time stamp
string frame_id
================================================================================
MSG: builtin_interfaces/Time
int32 sec
uint32 nanosec
"#);
    assert(SENSOR_MSGS_IMAGE@ =~= definition(Ros::Image) + blocks(explained(MessageType::Image)));
}

proof fn lemma_blocks_of_imu()
    ensures
        blocks(explained(MessageType::Imu)) == block(Ros::Header)
            + block(Ros::Time)
            + block(Ros::Quaternion)
            + block(Ros::Vector3),
{
    broadcast use group_texts;

}

pub proof fn lemma_text_of_imu()
    ensures
        SENSOR_MSGS_IMU@ == definition(Ros::Imu) + blocks(explained(MessageType::Imu)),
        SENSOR_MSGS_IMU@.len() == 828,
{
    lemma_blocks_of_imu();
    lemma_definition_of_imu();
    lemma_block_of_header();
    lemma_block_of_time();
    lemma_block_of_quaternion();
    lemma_block_of_vector3();
    reveal_strlit(r#"std_msgs/Header header
geometry_msgs/Quaternion orientation
float64[9] orientation_covariance
geometry_msgs/Vector3 angular_velocity
float64[9] angular_velocity_covariance
geometry_msgs/Vector3 linear_acceleration
float64[9] linear_acceleration_covariance
"#);
    reveal_strlit(r#"================================================================================
MSG: std_msgs/Header
builtin_interfaces/Time stamp
string frame_id
"#);
    reveal_strlit(r#"================================================================================
MSG: builtin_interfaces/Time
int32 sec
uint32 nanosec
"#);
    reveal_strlit(r#"================================================================================
MSG: geometry_msgs/Quaternion
float64 x
float64 y
float64 z
float64 w
"#);
    reveal_strlit(r#"================================================================================
MSG: geometry_msgs/Vector3
float64 x
float64 y
float64 z
"#);
    reveal_strlit(r#"std_msgs/Header header
geometry_msgs/Quaternion orientation
float64[9] orientation_covariance
geometry_msgs/Vector3 angular_velocity
float64[9] angular_velocity_covariance
geometry_msgs/Vector3 linear_acceleration
float64[9] linear_acceleration_covariance
================================================================================
MSG: std_msgs/Header
builtin_interfaces/Time stamp
string frame_id
================================================================================
MSG: builtin_interfaces/Time
int32 sec
uint32 nanosec
================================================================================
MSG: geometry_msgs/Quaternion
float64 x
float64 y
float64 z
float64 w
================================================================================
MSG: geometry_msgs/Vector3
float64 x
float64 y
float64 z
"#);
    assert(SENSOR_MSGS_IMU@ =~= definition(Ros::Imu) + blocks(explained(MessageType::Imu)));
}

proof fn lemma_blocks_of_joint_state()
    ensures
        blocks(explained(MessageType::JointState)) == block(Ros::Header)
            + block(Ros::Time),
{
    broadcast use group_texts;

}

pub proof fn lemma_text_of_joint_state()
    ensures
        SENSOR_MSGS_JOINTSTATE@ == definition(Ros::JointState) + blocks(explained(MessageType::JointState)),
        SENSOR_MSGS_JOINTSTATE@.len() == 375,
{
    lemma_blocks_of_joint_state();
    lemma_definition_of_joint_state();
    lemma_block_of_header();
    lemma_block_of_time();
    reveal_strlit(r#"std_msgs/Header header
string[] name
float64[] position
float64[] velocity
float64[] effort
"#);
    reveal_strlit(r#"================================================================================
MSG: std_msgs/Header
builtin_interfaces/Time stamp
string frame_id
"#);
    reveal_strlit(r#"================================================================================
MSG: builtin_interfaces/Time
int32 sec
uint32 nanosec
"#);
    reveal_strlit(r#"std_msgs/Header header
string[] name
float64[] position
float64[] velocity
float64[] effort
================================================================================
MSG: std_msgs/Header
builtin_interfaces/Time stamp
string frame_id
================================================================================
MSG: builtin_interfaces/Time
int32 sec
uint32 nanosec
"#);
    assert(SENSOR_MSGS_JOINTSTATE@ =~= definition(Ros::JointState) + blocks(explained(MessageType::JointState)));
}

proof fn lemma_blocks_of_laser_scan()
    ensures
        blocks(explained(MessageType::LaserScan)) == block(Ros::Header)
            + block(Ros::Time),
{
    broadcast use group_texts;

}

pub proof fn lemma_text_of_laser_scan()
    ensures
        SENSOR_MSGS_LASERSCAN@ == definition(Ros::LaserScan) + blocks(explained(MessageType::LaserScan)),
        SENSOR_MSGS_LASERSCAN@.len() == 482,
{
    lemma_blocks_of_laser_scan();
    lemma_definition_of_laser_scan();
    lemma_block_of_header();
    lemma_block_of_time();
    reveal_strlit(r#"std_msgs/Header header
float32 angle_min
float32 angle_max
float32 angle_increment
float32 time_increment
float32 scan_time
float32 range_min
float32 range_max
float32[] ranges
float32[] intensities
"#);
    reveal_strlit(r#"================================================================================
MSG: std_msgs/Header
builtin_interfaces/Time stamp
string frame_id
"#);
    reveal_strlit(r#"================================================================================
MSG: builtin_interfaces/Time
int32 sec
uint32 nanosec
"#);
    reveal_strlit(r#"std_msgs/Header header
float32 angle_min
float32 angle_max
float32 angle_increment
float32 time_increment
float32 scan_time
float32 range_min
float32 range_max
float32[] ranges
float32[] intensities
================================================================================
MSG: std_msgs/Header
builtin_interfaces/Time stamp
string frame_id
================================================================================
MSG: builtin_interfaces/Time
int32 sec
uint32 nanosec
"#);
    assert(SENSOR_MSGS_LASERSCAN@ =~= definition(Ros::LaserScan) + blocks(explained(MessageType::LaserScan)));
}

proof fn lemma_blocks_of_point_cloud2()
    ensures
        blocks(explained(MessageType::PointCloud2)) == block(Ros::Header)
            + block(Ros::Time)
            + block(Ros::PointField),
{
    broadcast use group_texts;

}

pub proof fn lemma_text_of_point_cloud2()
    ensures
        SENSOR_MSGS_POINTCLOUD2@ == definition(Ros::PointCloud2) + blocks(explained(MessageType::PointCloud2)),
        SENSOR_MSGS_POINTCLOUD2@.len() == 724,
{
    lemma_blocks_of_point_cloud2();
    lemma_definition_of_point_cloud2();
    lemma_block_of_header();
    lemma_block_of_time();
    lemma_block_of_point_field();
    reveal_strlit(r#"std_msgs/Header header
uint32 height
uint32 width
sensor_msgs/PointField[] fields
bool is_bigendian
uint32 point_step
uint32 row_step
uint8[] data
bool is_dense
"#);
    reveal_strlit(r#"================================================================================
MSG: std_msgs/Header
builtin_interfaces/Time stamp
string frame_id
"#);
    reveal_strlit(r#"================================================================================
MSG: builtin_interfaces/Time
int32 sec
uint32 nanosec
"#);
    reveal_strlit(r#"================================================================================
MSG: sensor_msgs/PointField
uint8 INT8=1
uint8 UINT8=2
uint8 INT16=3
uint8 UINT16=4
uint8 INT32=5
uint8 UINT32=6
uint8 FLOAT32=7
uint8 FLOAT64=8
string name
uint32 offset
uint8 datatype
uint32 count
"#);
    reveal_strlit(r#"std_msgs/Header header
uint32 height
uint32 width
sensor_msgs/PointField[] fields
bool is_bigendian
uint32 point_step
uint32 row_step
uint8[] data
bool is_dense
================================================================================
MSG: std_msgs/Header
builtin_interfaces/Time stamp
string frame_id
================================================================================
MSG: builtin_interfaces/Time
int32 sec
uint32 nanosec
================================================================================
MSG: sensor_msgs/PointField
uint8 INT8=1
uint8 UINT8=2
uint8 INT16=3
uint8 UINT16=4
uint8 INT32=5
uint8 UINT32=6
uint8 FLOAT32=7
uint8 FLOAT64=8
string name
uint32 offset
uint8 datatype
uint32 count
"#);
    assert(SENSOR_MSGS_POINTCLOUD2@ =~= definition(Ros::PointCloud2) + blocks(explained(MessageType::PointCloud2)));
}

proof fn lemma_blocks_of_tf_message()
    ensures
        blocks(explained(MessageType::TFMessage)) == block(Ros::TransformStamped)
            + block(Ros::Header)
            + block(Ros::Time)
            + block(Ros::Transform)
            + block(Ros::Vector3)
            + block(Ros::Quaternion),
{
    broadcast use group_texts;

}

pub proof fn lemma_text_of_tf_message()
    ensures
        TF2_MSGS_TFMESSAGE@ == definition(Ros::TFMessage) + blocks(explained(MessageType::TFMessage)),
        TF2_MSGS_TFMESSAGE@.len() == 990,
{
    lemma_blocks_of_tf_message();
    lemma_definition_of_tf_message();
    lemma_block_of_transform_stamped();
    lemma_block_of_header();
    lemma_block_of_time();
    lemma_block_of_transform();
    lemma_block_of_vector3();
    lemma_block_of_quaternion();
    reveal_strlit(r#"geometry_msgs/TransformStamped[] transforms
"#);
    reveal_strlit(r#"================================================================================
MSG: geometry_msgs/TransformStamped
std_msgs/Header header
string child_frame_id
geometry_msgs/Transform transform
"#);
    reveal_strlit(r#"================================================================================
MSG: std_msgs/Header
builtin_interfaces/Time stamp
string frame_id
"#);
    reveal_strlit(r#"================================================================================
MSG: builtin_interfaces/Time
int32 sec
uint32 nanosec
"#);
    reveal_strlit(r#"================================================================================
MSG: geometry_msgs/Transform
geometry_msgs/Vector3 translation
geometry_msgs/Quaternion rotation
"#);
    reveal_strlit(r#"================================================================================
MSG: geometry_msgs/Vector3
float64 x
float64 y
float64 z
"#);
    reveal_strlit(r#"================================================================================
MSG: geometry_msgs/Quaternion
float64 x
float64 y
float64 z
float64 w
"#);
    reveal_strlit(r#"geometry_msgs/TransformStamped[] transforms
================================================================================
MSG: geometry_msgs/TransformStamped
std_msgs/Header header
string child_frame_id
geometry_msgs/Transform transform
================================================================================
MSG: std_msgs/Header
builtin_interfaces/Time stamp
string frame_id
================================================================================
MSG: builtin_interfaces/Time
int32 sec
uint32 nanosec
================================================================================
MSG: geometry_msgs/Transform
geometry_msgs/Vector3 translation
geometry_msgs/Quaternion rotation
================================================================================
MSG: geometry_msgs/Vector3
float64 x
float64 y
float64 z
================================================================================
MSG: geometry_msgs/Quaternion
float64 x
float64 y
float64 z
float64 w
"#);
    assert(TF2_MSGS_TFMESSAGE@ =~= definition(Ros::TFMessage) + blocks(explained(MessageType::TFMessage)));
}

} // verus!
