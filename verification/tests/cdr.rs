use rapid_rust_replay::cdr::messages::{
    CompressedImage, Header, Image, PoseStamped, TFMessage, Time,
};
use rapid_rust_replay::cdr::reader::{Reader, F32, F64};
use rapid_rust_replay::cdr::types::{Message, MessageType};
use rapid_rust_replay::cdr::writer::Writer;
use rapid_rust_replay::cdr::{
    container_format, msg_name_from_schema, supports, to_cdr, to_lcm, CdrError, Container, Encoded,
};
use rapid_rust_replay::schema::{schema_name, schema_text};

const SUPPORTED: [&str; 12] = [
    "geometry_msgs.PoseStamped",
    "geometry_msgs.TransformStamped",
    "nav_msgs.Odometry",
    "nav_msgs.Path",
    "sensor_msgs.CameraInfo",
    "sensor_msgs.CompressedImage",
    "sensor_msgs.Image",
    "sensor_msgs.Imu",
    "sensor_msgs.JointState",
    "sensor_msgs.LaserScan",
    "sensor_msgs.PointCloud2",
    "tf2_msgs.TFMessage",
];

fn wide(value: f64) -> F64 {
    F64 { bits: value.to_bits() }
}

fn narrow(value: f32) -> F32 {
    F32 { bits: value.to_bits() }
}

fn with_header<'a>(writer: &'a mut Writer, sec: i32, nsec: i32, frame: &str) -> &'a mut Writer {
    writer.i32(sec).i32(nsec).string(frame)
}

fn pose_stamped(message: Message) -> PoseStamped {
    match message {
        Message::PoseStamped(value) => value,
        other => panic!("{other:?} is not a PoseStamped"),
    }
}

fn image_of(message: Message) -> Image {
    match message {
        Message::Image(value) => value,
        other => panic!("{other:?} is not an Image"),
    }
}

fn compressed_of(message: Message) -> CompressedImage {
    match message {
        Message::CompressedImage(value) => value,
        other => panic!("{other:?} is not a CompressedImage"),
    }
}

#[test]
fn schema_names_lose_the_ros_msg_segment() {
    assert_eq!(msg_name_from_schema("sensor_msgs/msg/Imu"), "sensor_msgs.Imu");
    assert_eq!(msg_name_from_schema("sensor_msgs/Imu"), "sensor_msgs.Imu");
    assert_eq!(msg_name_from_schema("tf2_msgs/msg/TFMessage"), "tf2_msgs.TFMessage");
    assert_eq!(msg_name_from_schema("sensor_msgs::msg::dds_::Imu_"), "sensor_msgs.Imu");
    assert_eq!(msg_name_from_schema("unitree_go::msg::dds_::LowState_"), "unitree_go.LowState");
}

#[test]
fn schema_names_without_two_telling_segments_only_change_separators() {
    assert_eq!(msg_name_from_schema(""), "");
    assert_eq!(msg_name_from_schema("Imu"), "Imu");
    assert_eq!(msg_name_from_schema("msg/Imu_"), "msg.Imu_");
    assert_eq!(msg_name_from_schema("a:::b"), "a.:b");
    assert_eq!(msg_name_from_schema("/a/b/c"), ".a");
}

#[test]
fn pose_stamped_round_trips_through_the_lcm_encoder() {
    let mut writer = Writer::default();
    with_header(&mut writer, 1700000000, 250_000_000, "odom");
    for value in [1.0, 2.0, 3.0, 0.0, 0.0, 0.0, 1.0] {
        writer.double(wide(value));
    }

    let decoded = pose_stamped(to_lcm("geometry_msgs.PoseStamped", &writer.finish()).unwrap());
    assert_eq!(decoded.header.seq, 0);
    assert_eq!(decoded.header.stamp.sec, 1700000000);
    assert_eq!(decoded.header.stamp.nsec, 250_000_000);
    assert_eq!(decoded.header.frame_id, "odom");
    assert_eq!(decoded.pose.position.x, wide(1.0));
    assert_eq!(decoded.pose.position.z, wide(3.0));
    assert_eq!(decoded.pose.orientation.w, wide(1.0));
}

/// `frame_id` leaves the cursor at an odd offset, so the doubles that follow only land correctly if
/// 8-byte alignment padding is skipped.
#[test]
fn odd_length_frame_ids_still_align_the_doubles() {
    let mut writer = Writer::default();
    with_header(&mut writer, 5, 6, "a");
    for value in [9.5, 0.0, 0.0, 0.0, 0.0, 0.0, 1.0] {
        writer.double(wide(value));
    }

    let decoded = pose_stamped(to_lcm("geometry_msgs.PoseStamped", &writer.finish()).unwrap());
    assert_eq!(decoded.pose.position.x, wide(9.5));
}

#[test]
fn image_payload_survives_transcoding() {
    let pixels: Vec<u8> = (0..48).collect();
    let mut writer = Writer::default();
    with_header(&mut writer, 7, 8, "camera");
    writer.i32(4).i32(4).string("rgb8").u8(0).i32(12).bytes(&pixels);

    let decoded = image_of(to_lcm("sensor_msgs.Image", &writer.finish()).unwrap());
    assert_eq!(decoded.height, 4);
    assert_eq!(decoded.width, 4);
    assert_eq!(decoded.encoding, "rgb8");
    assert_eq!(decoded.step, 12);
    assert_eq!(decoded.data, pixels);
}

#[test]
fn tf_message_keeps_every_transform() {
    let mut writer = Writer::default();
    writer.u32(2);
    with_header(&mut writer, 1, 2, "world").string("base");
    for value in [1.0, 0.0, 0.0, 0.0, 0.0, 0.0, 1.0] {
        writer.double(wide(value));
    }
    with_header(&mut writer, 3, 4, "base").string("lidar");
    for value in [0.0, 2.0, 0.0, 0.0, 0.0, 0.0, 1.0] {
        writer.double(wide(value));
    }

    let decoded = match to_lcm("tf2_msgs.TFMessage", &writer.finish()).unwrap() {
        Message::TFMessage(value) => value,
        other => panic!("{other:?} is not a TFMessage"),
    };
    assert_eq!(decoded.transforms.len(), 2);
    assert_eq!(decoded.transforms[0].child_frame_id, "base");
    assert_eq!(decoded.transforms[0].transform.translation.x, wide(1.0));
    assert_eq!(decoded.transforms[1].header.frame_id, "base");
    assert_eq!(decoded.transforms[1].transform.translation.y, wide(2.0));
}

#[test]
fn point_cloud2_fields_and_data_come_through() {
    let points: Vec<u8> = (0..24).collect();
    let mut writer = Writer::default();
    with_header(&mut writer, 11, 12, "lidar");
    writer.i32(1).i32(2).u32(1).string("x").u32(0).u8(7).u32(1);
    writer.u8(0).u32(12).u32(24).bytes(&points).u8(1);

    let decoded = match to_lcm("sensor_msgs.PointCloud2", &writer.finish()).unwrap() {
        Message::PointCloud2(value) => value,
        other => panic!("{other:?} is not a PointCloud2"),
    };
    assert_eq!(decoded.width, 2);
    assert_eq!(decoded.fields.len(), 1);
    assert_eq!(decoded.fields[0].name, "x");
    assert_eq!(decoded.fields[0].datatype, 7);
    assert_eq!(decoded.point_step, 12);
    assert_eq!(decoded.data, points);
    assert!(decoded.is_dense);
    assert!(!decoded.is_bigendian);
}

#[test]
fn big_endian_payloads_are_read_with_the_declared_endianness() {
    let mut body = Vec::new();
    body.extend_from_slice(&13i32.to_be_bytes());
    body.extend_from_slice(&14i32.to_be_bytes());
    body.extend_from_slice(&2u32.to_be_bytes());
    body.extend_from_slice(b"m\0");
    // 14 bytes so far; the doubles that follow align to 16.
    body.extend_from_slice(&[0, 0]);
    for value in [4.25f64, 0.0, 0.0, 0.0, 0.0, 0.0, 1.0] {
        body.extend_from_slice(&value.to_be_bytes());
    }
    let mut payload = vec![0x00, 0x00, 0x00, 0x00];
    payload.extend_from_slice(&body);

    let decoded = pose_stamped(to_lcm("geometry_msgs.PoseStamped", &payload).unwrap());
    assert_eq!(decoded.header.stamp.sec, 13);
    assert_eq!(decoded.header.frame_id, "m");
    assert_eq!(decoded.pose.position.x, wide(4.25));
}

/// Covers the float and string sequence readers, which no other test hits.
#[test]
fn laser_scan_sequences_keep_their_lengths_and_values() {
    let mut writer = Writer::default();
    with_header(&mut writer, 21, 22, "laser");
    for value in [-1.5f32, 1.5, 0.25, 0.0, 0.1, 0.05, 30.0] {
        writer.float(narrow(value));
    }
    writer.u32(3).float(narrow(1.0)).float(narrow(2.0)).float(narrow(3.0));
    writer.u32(0);

    let decoded = match to_lcm("sensor_msgs.LaserScan", &writer.finish()).unwrap() {
        Message::LaserScan(value) => value,
        other => panic!("{other:?} is not a LaserScan"),
    };
    assert_eq!(decoded.angle_min, narrow(-1.5));
    assert_eq!(decoded.range_max, narrow(30.0));
    assert_eq!(decoded.ranges, vec![narrow(1.0), narrow(2.0), narrow(3.0)]);
    assert!(decoded.intensities.is_empty());
}

#[test]
fn joint_state_reads_a_sequence_of_strings() {
    let mut writer = Writer::default();
    with_header(&mut writer, 31, 32, "body");
    writer.u32(2).string("hip").string("knee");
    writer.u32(2).double(wide(0.5)).double(wide(-0.25));
    writer.u32(0);
    writer.u32(0);

    let decoded = match to_lcm("sensor_msgs.JointState", &writer.finish()).unwrap() {
        Message::JointState(value) => value,
        other => panic!("{other:?} is not a JointState"),
    };
    assert_eq!(decoded.name, vec!["hip", "knee"]);
    assert_eq!(decoded.position, vec![wide(0.5), wide(-0.25)]);
    assert!(decoded.velocity.is_empty());
    assert!(decoded.effort.is_empty());
}

/// The encoder has to write exactly the layout the decoder reads, so a CDR payload that survives a
/// trip through a message and back has to come out byte for byte identical. Each case is built by hand
/// rather than derived from the encoder, so a matching mistake in both directions cannot hide here.
fn round_trips(msg_name: &str, cdr: &[u8]) {
    let message =
        to_lcm(msg_name, cdr).unwrap_or_else(|e| panic!("{msg_name} to_lcm: {}", e.message()));
    let again = to_cdr(msg_name, Ok(message))
        .unwrap_or_else(|e| panic!("{msg_name} to_cdr: {}", e.message()));
    assert_eq!(again.msg_name, msg_name, "{msg_name} was retyped");
    assert_eq!(again.data, cdr, "{msg_name} did not survive the round trip");
}

/// Fills the covariance-style fixed arrays with distinguishable values, so a writer that emitted them
/// in the wrong order would not still pass.
fn ramp(writer: &mut Writer, count: usize, start: f64) {
    for step in 0..count {
        writer.double(wide(start + step as f64));
    }
}

#[test]
fn pose_stamped_round_trips_back_to_the_same_cdr() {
    let mut writer = Writer::default();
    with_header(&mut writer, 100, 200, "odom");
    ramp(&mut writer, 7, 1.0);
    round_trips("geometry_msgs.PoseStamped", &writer.finish());
}

#[test]
fn transform_stamped_round_trips_back_to_the_same_cdr() {
    let mut writer = Writer::default();
    with_header(&mut writer, 1, 2, "base_link").string("camera_link");
    ramp(&mut writer, 7, 3.0);
    round_trips("geometry_msgs.TransformStamped", &writer.finish());
}

#[test]
fn tf_message_round_trips_back_to_the_same_cdr() {
    let mut writer = Writer::default();
    writer.count(2);
    with_header(&mut writer, 1, 2, "world").string("base");
    ramp(&mut writer, 7, 1.0);
    with_header(&mut writer, 3, 4, "base").string("lidar");
    ramp(&mut writer, 7, 8.0);
    round_trips("tf2_msgs.TFMessage", &writer.finish());
}

/// The two 36-value covariance blocks are the easiest thing to transpose.
#[test]
fn odometry_round_trips_back_to_the_same_cdr() {
    let mut writer = Writer::default();
    with_header(&mut writer, 11, 12, "odom").string("base_link");
    ramp(&mut writer, 7, 1.0);
    ramp(&mut writer, 36, 100.0);
    ramp(&mut writer, 6, 50.0);
    ramp(&mut writer, 36, 200.0);
    round_trips("nav_msgs.Odometry", &writer.finish());
}

#[test]
fn path_round_trips_back_to_the_same_cdr() {
    let mut writer = Writer::default();
    with_header(&mut writer, 5, 6, "map");
    writer.count(2);
    with_header(&mut writer, 7, 8, "map");
    ramp(&mut writer, 7, 1.0);
    with_header(&mut writer, 9, 10, "map");
    ramp(&mut writer, 7, 20.0);
    round_trips("nav_msgs.Path", &writer.finish());
}

#[test]
fn imu_round_trips_back_to_the_same_cdr() {
    let mut writer = Writer::default();
    with_header(&mut writer, 13, 14, "imu_link");
    ramp(&mut writer, 4, 1.0);
    ramp(&mut writer, 9, 10.0);
    ramp(&mut writer, 3, 20.0);
    ramp(&mut writer, 9, 30.0);
    ramp(&mut writer, 3, 40.0);
    ramp(&mut writer, 9, 50.0);
    round_trips("sensor_msgs.Imu", &writer.finish());
}

#[test]
fn image_round_trips_back_to_the_same_cdr() {
    let pixels: Vec<u8> = (0..48).collect();
    let mut writer = Writer::default();
    with_header(&mut writer, 7, 8, "camera");
    writer.i32(4).i32(4).string("rgb8").u8(0).i32(12).bytes(&pixels);
    round_trips("sensor_msgs.Image", &writer.finish());
}

#[test]
fn compressed_image_round_trips_back_to_the_same_cdr() {
    let mut writer = Writer::default();
    with_header(&mut writer, 15, 16, "camera");
    writer.string("jpeg").bytes(&[0xff, 0xd8, 0xff, 0xe0, 0x00]);
    round_trips("sensor_msgs.CompressedImage", &writer.finish());
}

/// Builds an Image with the given shape and runs it back through the recording encoder, which is where
/// the raw-or-container question is settled.
fn recorded_image(encoding: &str, height: i32, step: i32, data: &[u8]) -> Encoded<'static> {
    let mut writer = Writer::default();
    with_header(&mut writer, 3, 4, "camera");
    writer.i32(height).i32(640).string(encoding).u8(0).i32(step).bytes(data);
    let message = to_lcm("sensor_msgs.Image", &writer.finish()).expect("to_lcm");
    to_cdr("sensor_msgs.Image", Ok(message)).expect("to_cdr")
}

#[test]
fn a_codec_carrying_image_is_recorded_as_a_compressed_image() {
    let jpeg = [0xFFu8, 0xD8, 0xFF, 0xE0, 0x00, 0x10];
    let encoded = recorded_image("jpeg", 480, 0, &jpeg);
    assert_eq!(encoded.msg_name, "sensor_msgs.CompressedImage");
    let decoded =
        compressed_of(to_lcm("sensor_msgs.CompressedImage", &encoded.data).expect("to_lcm"));
    assert_eq!(decoded.format, "jpeg");
    assert_eq!(decoded.data, jpeg, "the codec stream must pass through untouched");

    let png = [0x89u8, b'P', b'N', b'G', 0x0D, 0x0A, 0x1A, 0x0A, 0x00];
    let encoded = recorded_image("png", 480, 0, &png);
    assert_eq!(encoded.msg_name, "sensor_msgs.CompressedImage");
    let decoded =
        compressed_of(to_lcm("sensor_msgs.CompressedImage", &encoded.data).expect("to_lcm"));
    assert_eq!(decoded.format, "png");
}

/// A saturated mono8 row can genuinely open with the jpeg magic, so the size invariant has to outrank
/// the sniff or a bright scene gets mislabelled.
#[test]
fn a_full_size_raw_frame_stays_an_image_despite_jpeg_magic() {
    let pixels = [0xFFu8, 0xD8, 0xFF, 0x01, 0x02, 0x03];
    assert_eq!(recorded_image("jpeg", 2, 3, &pixels).msg_name, "sensor_msgs.Image");
}

/// A raw frame whose `encoding` is an ordinary pixel layout is never sniffed at all, so it cannot be
/// retyped no matter what its first bytes look like.
#[test]
fn a_pixel_layout_encoding_is_never_treated_as_a_container() {
    let pixels = [0xFFu8, 0xD8, 0xFF, 0x01, 0x02, 0x03];
    assert_eq!(recorded_image("mono8", 480, 0, &pixels).msg_name, "sensor_msgs.Image");
}

/// `encoding` names a codec and the byte count rules out raw pixels, but no magic matches. Guessing a
/// container would corrupt the stream, so the frame goes out unchanged, and is reported.
#[test]
fn an_unidentifiable_container_is_forwarded_but_reported() {
    let mystery = [0x00u8, 0x01, 0x02, 0x03];
    let encoded = recorded_image("jpeg", 480, 0, &mystery);
    assert_eq!(encoded.msg_name, "sensor_msgs.Image", "we must not guess a container");
    let defect = encoded.defect.expect("an unrenderable frame has to be reported");
    assert!(defect.contains("encoding=\"jpeg\""), "{defect}");
    assert!(defect.contains("step=0"), "{defect}");
    assert!(defect.contains("len=4"), "{defect}");
    assert_eq!(
        defect,
        "encoding=\"jpeg\" height=480 step=0 len=4 is neither raw pixels nor a container we \
         recognise; forwarded as-is"
    );

    let pixels = [0xFFu8, 0xD8, 0xFF, 0x01, 0x02, 0x03];
    assert_eq!(recorded_image("jpeg", 2, 3, &pixels).defect, None, "a raw frame is fine");
    assert_eq!(recorded_image("mono8", 480, 0, &pixels).defect, None, "a raw frame is fine");
    assert_eq!(recorded_image("jpeg", 480, 0, &[0xFF, 0xD8, 0xFF]).defect, None);
}

/// Frames in the shape that a camera driver with a jpeg encoder sends them: `encoding: "jpeg"`,
/// `step: 0`, a full jpeg in `data`.
#[test]
fn jpeg_frames_stay_whole_through_the_recording_path() {
    for length in [0usize, 1, 61_337] {
        let mut jpeg = vec![0xFFu8, 0xD8, 0xFF, 0xE0];
        jpeg.extend((0..length).map(|byte| (byte * 7) as u8));
        jpeg.extend_from_slice(&[0xFF, 0xD9]);
        let encoded = recorded_image("jpeg", 480, 0, &jpeg);
        assert_eq!(encoded.msg_name, "sensor_msgs.CompressedImage", "{length}");
        let decoded =
            compressed_of(to_lcm("sensor_msgs.CompressedImage", &encoded.data).expect("to_lcm"));
        assert_eq!(decoded.header.frame_id, "camera");
        assert_eq!(decoded.header.stamp, Time { sec: 3, nsec: 4 });
        assert_eq!(decoded.format, "jpeg", "{length}");
        assert_eq!(decoded.data, jpeg, "{length}: the jpeg was altered");
    }
}

#[test]
fn the_size_of_an_image_decides_before_its_magic() {
    let shaped = |encoding: &str, height: i32, step: i32, data: &[u8]| Image {
        header: Header { seq: 3, stamp: Time { sec: 1, nsec: 2 }, frame_id: "c".to_string() },
        height,
        width: 1,
        encoding: encoding.to_string(),
        is_bigendian: 0,
        step,
        data: data.to_vec(),
    };
    let jpeg = [0xFFu8, 0xD8, 0xFF, 0xE0];
    assert_eq!(container_format(&shaped("jpeg", 2, 2, &jpeg)), Container::Raw);
    assert_eq!(container_format(&shaped("jpeg", -1, 0, &jpeg)), Container::Raw);
    assert_eq!(container_format(&shaped("jpeg", 1, -1, &jpeg)), Container::Raw);
    assert_eq!(container_format(&shaped("jpeg", 0, 0, &[])), Container::Unrecognised);
    assert_eq!(container_format(&shaped("jpg", 480, 0, &jpeg)), Container::Jpeg);
    assert_eq!(container_format(&shaped("png", i32::MAX, i32::MAX, &jpeg)), Container::Jpeg);
    assert_eq!(container_format(&shaped("png", 480, 0, &[0x89, b'P'])), Container::Unrecognised);
}

/// `D` is a sequence while `K`, `R` and `P` are fixed arrays of three different lengths, so a writer
/// that confused the two would be caught.
#[test]
fn camera_info_round_trips_back_to_the_same_cdr() {
    let mut writer = Writer::default();
    with_header(&mut writer, 17, 18, "camera_optical");
    writer.i32(480).i32(640).string("plumb_bob");
    writer.count(5);
    ramp(&mut writer, 5, 0.5);
    ramp(&mut writer, 9, 10.0);
    ramp(&mut writer, 9, 30.0);
    ramp(&mut writer, 12, 50.0);
    writer.i32(1).i32(2).i32(3).i32(4).i32(5).i32(6).u8(1);
    round_trips("sensor_msgs.CameraInfo", &writer.finish());
}

#[test]
fn point_cloud2_round_trips_back_to_the_same_cdr() {
    let points: Vec<u8> = (0..24).collect();
    let mut writer = Writer::default();
    with_header(&mut writer, 11, 12, "lidar");
    writer.i32(1).i32(2).count(2);
    writer.string("x").i32(0).u8(7).i32(1);
    writer.string("intensity").i32(12).u8(7).i32(1);
    writer.u8(0).i32(12).i32(24).bytes(&points).u8(1);
    round_trips("sensor_msgs.PointCloud2", &writer.finish());
}

#[test]
fn laser_scan_round_trips_back_to_the_same_cdr() {
    let mut writer = Writer::default();
    with_header(&mut writer, 21, 22, "laser");
    for value in [-1.5f32, 1.5, 0.25, 0.0, 0.1, 0.05, 30.0] {
        writer.float(narrow(value));
    }
    writer.count(3).float(narrow(1.0)).float(narrow(2.0)).float(narrow(3.0));
    writer.count(2).float(narrow(9.0)).float(narrow(8.0));
    round_trips("sensor_msgs.LaserScan", &writer.finish());
}

#[test]
fn joint_state_round_trips_back_to_the_same_cdr() {
    let mut writer = Writer::default();
    with_header(&mut writer, 31, 32, "body");
    writer.count(2).string("hip").string("knee");
    writer.count(2).double(wide(0.5)).double(wide(-0.25));
    writer.count(2).double(wide(1.5)).double(wide(-1.25));
    writer.count(0);
    round_trips("sensor_msgs.JointState", &writer.finish());
}

/// Every type `supports()` claims has to have both directions and a schema, so adding one to the list
/// without wiring it up fails here rather than silently recording an unreadable channel.
#[test]
fn every_supported_type_can_be_encoded_and_has_a_schema() {
    for msg_name in SUPPORTED {
        assert!(supports(msg_name), "{msg_name} dropped out of supports()");
        assert!(schema_text(msg_name).is_some(), "{msg_name} has no schema");
        assert!(schema_name(msg_name).is_some(), "{msg_name} has no name");
        // An empty payload is not encodable, but "no encoder" is a different error and is the one this
        // is looking for.
        let complaint =
            to_cdr(msg_name, Err("unexpected end of file".to_string())).unwrap_err().message();
        assert!(!complaint.contains("no CDR encoder"), "{msg_name} has no encoder");
        assert_eq!(complaint, "unexpected end of file");
    }
}

#[test]
fn an_unsupported_type_is_an_error_in_both_directions() {
    assert!(to_cdr("unitree_go.LowState", Err("bad".to_string())).is_err());
    assert!(to_lcm("unitree_go.LowState", &[1, 2, 3]).is_err());
}

#[test]
fn truncated_payloads_are_an_error_rather_than_a_panic() {
    let payload = vec![0x00, 0x01, 0x00, 0x00, 1, 2, 3];
    assert!(to_lcm("sensor_msgs.Imu", &payload).is_err());
}

#[test]
fn every_error_says_what_went_wrong() {
    assert_eq!(to_lcm("sensor_msgs.Imu", &[0, 1, 0]), Err(CdrError::HeaderTooShort));
    // The header is looked at before the type.
    assert_eq!(to_lcm("unitree_go.LowState", &[0, 1, 0]), Err(CdrError::HeaderTooShort));
    let error = to_lcm("unitree_go.LowState", &[0, 1, 0, 0]).unwrap_err();
    assert_eq!(error, CdrError::NoTranscoder("unitree_go.LowState".to_string()));
    assert_eq!(error.message(), "no CDR transcoder for unitree_go.LowState");
    let error = to_lcm("sensor_msgs.Imu", &[0, 1, 0, 0]).unwrap_err();
    assert_eq!(error, CdrError::EndedEarly);
    assert_eq!(error.message(), "CDR payload ended early");
    assert_eq!(CdrError::HeaderTooShort.message(), "CDR payload is too short for its header");

    let error = to_cdr("unitree_go.LowState", Err("bad".to_string())).unwrap_err();
    assert_eq!(error.message(), "no CDR encoder for unitree_go.LowState");
    let empty = || Message::TFMessage(TFMessage { transforms: Vec::new() });
    assert_eq!(to_cdr("sensor_msgs.Imu", Ok(empty())), Err(CdrError::Mismatched));
    assert_eq!(CdrError::Mismatched.message(), "decoded as another type");
    assert_eq!(to_cdr("tf2_msgs.TFMessage", Ok(empty())).unwrap().data, [0, 1, 0, 0, 0, 0, 0, 0]);
}

/// A payload cut short anywhere is an error, and one with bytes behind it is not.
#[test]
fn every_truncation_of_a_payload_is_an_error() {
    let mut writer = Writer::default();
    with_header(&mut writer, 5, 6, "map");
    writer.count(2);
    with_header(&mut writer, 7, 8, "map");
    ramp(&mut writer, 7, 1.0);
    with_header(&mut writer, 9, 10, "m");
    ramp(&mut writer, 7, 20.0);
    let whole = writer.finish();
    for length in 0..whole.len() {
        assert!(to_lcm("nav_msgs.Path", &whole[..length]).is_err(), "{length}");
    }
    let mut longer = whole.clone();
    longer.push(9);
    assert_eq!(to_lcm("nav_msgs.Path", &longer), to_lcm("nav_msgs.Path", &whole));
}

/// A huge count in a short payload is an error, not an allocation.
#[test]
fn a_count_beyond_the_payload_is_an_error() {
    let mut writer = Writer::default();
    writer.u32(u32::MAX);
    assert_eq!(to_lcm("tf2_msgs.TFMessage", &writer.finish()), Err(CdrError::EndedEarly));
}

#[test]
fn strings_lose_one_null_and_bad_text_is_replaced() {
    let read = |bytes: &[u8]| {
        let mut payload = vec![0, 1, 0, 0];
        payload.extend_from_slice(&(bytes.len() as u32).to_le_bytes());
        payload.extend_from_slice(bytes);
        Reader::new(&payload).unwrap().string().unwrap()
    };
    assert_eq!(read(b"odom\0"), "odom");
    assert_eq!(read(b"odom"), "odom");
    assert_eq!(read(b"odom\0\0"), "odom\0");
    assert_eq!(read(b""), "");
    assert_eq!(read("grün\0".as_bytes()), "grün");
    assert_eq!(read(&[b'a', 0xFF, b'b', 0]), "a\u{FFFD}b");
}

#[test]
fn the_writer_pads_each_primitive_to_its_own_size() {
    let mut writer = Writer::default();
    writer.u8(1).i32(-2).bool(true).double(wide(1.0)).string("ab").bytes(&[7]).float(narrow(1.0));
    let mut expected = vec![0u8, 1, 0, 0];
    expected.extend_from_slice(&[1, 0, 0, 0, 0xFE, 0xFF, 0xFF, 0xFF, 1, 0, 0, 0, 0, 0, 0, 0]);
    expected.extend_from_slice(&1.0f64.to_le_bytes());
    expected.extend_from_slice(&[3, 0, 0, 0, b'a', b'b', 0, 0, 1, 0, 0, 0, 7, 0, 0, 0]);
    expected.extend_from_slice(&1.0f32.to_le_bytes());
    assert_eq!(writer.finish(), expected);
}

#[test]
fn the_reader_reads_what_the_writer_wrote() {
    let mut writer = Writer::default();
    writer.u8(9).u32(77).bool(false).i32(i32::MIN).float(narrow(-0.0)).double(wide(f64::NAN));
    writer.count(3).bytes(&[1, 2, 3]);
    let payload = writer.finish();
    let mut reader = Reader::new(&payload).unwrap();
    assert_eq!(reader.u8(), Ok(9));
    assert_eq!(reader.u32(), Ok(77));
    assert_eq!(reader.bool(), Ok(false));
    assert_eq!(reader.i32(), Ok(i32::MIN));
    assert_eq!(reader.float(), Ok(narrow(-0.0)));
    assert_eq!(reader.double(), Ok(wide(f64::NAN)));
    assert_eq!(reader.count(), Ok(3));
    assert_eq!(reader.bytes(), Ok(vec![1, 2, 3]));
    assert_eq!(reader.u8(), Err(CdrError::EndedEarly));
}

/// A read that fails stops behind the padding, and behind a length if there is one.
#[test]
fn a_failed_read_stops_where_the_body_ended() {
    let payload = [0, 1, 0, 0, 9, 2, 0, 0, 3, 0, 0, 0, 7];
    let at = |position: usize| Reader { position, ..Reader::new(&payload).unwrap() };
    let early = CdrError::EndedEarly;
    for start in [6, 7, 8] {
        let mut reader = at(start);
        assert_eq!(reader.double(), Err(CdrError::EndedEarly));
        assert_eq!(reader.position, 8);
        let mut reader = at(start);
        assert_eq!(reader.u32(), Err(CdrError::EndedEarly));
        assert_eq!(reader.position, 8);
        assert_eq!(reader.i32(), Err(CdrError::EndedEarly));
        assert_eq!(reader.float(), Err(CdrError::EndedEarly));
        assert_eq!(reader.count(), Err(CdrError::EndedEarly));
        assert_eq!(reader.position, 8);
    }
    let mut reader = at(9);
    assert_eq!(reader.u8(), Err(CdrError::EndedEarly));
    assert_eq!(reader.bool(), Err(CdrError::EndedEarly));
    assert_eq!(reader.position, 9);
    assert_eq!(reader.double(), Err(CdrError::EndedEarly));
    assert_eq!(reader.position, 16);
    assert_eq!(reader.take(0, 1), Err(CdrError::EndedEarly));
    assert_eq!(reader.take(0, 10), Err(CdrError::EndedEarly));
    assert_eq!(reader.position, 20);
    // A length of three, with one byte behind it.
    let mut reader = at(1);
    assert_eq!(reader.string(), Err(CdrError::EndedEarly));
    assert_eq!(reader.position, 8);
    let mut reader = at(1);
    assert_eq!(reader.bytes(), Err(early));
    assert_eq!(reader.position, 8);
}

/// A message that ends early leaves the reader at the field that could not be read.
#[test]
fn a_failed_message_stops_at_its_first_missing_field() {
    let mut writer = Writer::default();
    with_header(&mut writer, 5, 6, "map");
    writer.count(2);
    with_header(&mut writer, 7, 8, "map");
    let payload = writer.finish();
    let mut reader = Reader::new(&payload).unwrap();
    assert_eq!(Message::read(MessageType::Path, &mut reader), Err(CdrError::EndedEarly));
    // The pose behind the second header starts with a double.
    assert_eq!(reader.position, (payload.len() - 4).next_multiple_of(8));
}

#[test]
fn types_go_by_one_name_and_schemas_name_their_type() {
    for msg_name in SUPPORTED {
        let schema = schema_name(msg_name).unwrap();
        assert_eq!(msg_name_from_schema(schema), msg_name);
        assert!(MessageType::named(msg_name).is_some());
    }
    assert_eq!(schema_name("sensor_msgs.Image"), Some("sensor_msgs/msg/Image"));
    assert_eq!(MessageType::named("sensor_msgs.Imu"), Some(MessageType::Imu));
    assert_eq!(MessageType::named("Imu"), None);
    assert_eq!(schema_name(""), None);
    assert_eq!(schema_text("sensor_msgs.Joy"), None);
    assert!(!supports("sensor_msgs.Joy"));
}

/// The `header.seq` that ROS 2 has no place for is dropped.
#[test]
fn the_sequence_number_of_a_header_is_dropped() {
    let image = |seq: i32| {
        Message::CompressedImage(CompressedImage {
            header: Header { seq, stamp: Time { sec: 1, nsec: 2 }, frame_id: "c".to_string() },
            format: "png".to_string(),
            data: vec![1],
        })
    };
    let first = to_cdr("sensor_msgs.CompressedImage", Ok(image(5))).unwrap();
    let second = to_cdr("sensor_msgs.CompressedImage", Ok(image(0))).unwrap();
    assert_eq!(first, second);
    assert_eq!(to_lcm("sensor_msgs.CompressedImage", &first.data), Ok(image(0)));
}
