use rapid_rust_replay::cdr::messages::{CompressedImage, Header, Image, Time};
use rapid_rust_replay::cdr::types::Message;
use rapid_rust_replay::order::Table;
use rapid_rust_replay::record::log::{
    heard, note_published, take_in, Captured, Log, MessageHeader, Step,
};
use rapid_rust_replay::record::loopback::SelfPublished;
use rapid_rust_replay::record::{
    channel_metadata, codec_overrides, free_bytes, low_on_disk, payload_module, profile, schema_for,
    split_channel, Codec, EncodeError, OverrideError, Selection,
};
use rapid_rust_replay::sink;
use rapid_rust_replay::source::{
    msg_name_from_payload_module, to_wire, ChannelInfo, Storage, Stream, Wire,
};
use rapid_rust_replay::stamp::Support;

fn specs(specs: &[&str]) -> Vec<String> {
    specs.iter().map(|spec| (*spec).to_string()).collect()
}

fn entry(table: &Table<String>, key: &str) -> Option<String> {
    table.find(key).map(|at| table.vals[at].clone())
}

#[test]
fn record_takes_a_json_array() {
    let selection = Selection::new(&specs(&[r#"["color_image", "lidar"]"#]), &[]).unwrap();
    assert!(selection.wants("color_image"));
    assert!(selection.wants("lidar"));
    assert!(!selection.wants("wheel_odometry"));
}

#[test]
fn record_also_takes_bare_and_comma_separated_names() {
    let selection = Selection::new(&specs(&["color_image,lidar"]), &[]).unwrap();
    assert!(selection.wants("lidar"));
    let selection = Selection::new(&specs(&["color_image", "lidar"]), &[]).unwrap();
    assert!(selection.wants("lidar"));
}

#[test]
fn an_empty_selection_records_everything() {
    let selection = Selection::new(&specs(&["[]"]), &[]).unwrap();
    assert!(selection.wants("anything_at_all"));
}

#[test]
fn record_all_but_is_a_deny_list_over_everything() {
    let selection = Selection::new(&[], &specs(&[r#"["lidar"]"#])).unwrap();
    assert!(selection.wants("color_image"));
    assert!(!selection.wants("lidar"));
}

/// The deny list wins, which is what makes an allow list of `infrared_*` with a deny list of
/// `infrared_right` a way to say "the pair minus one".
#[test]
fn the_deny_list_narrows_the_allow_list() {
    let selection = Selection::new(&specs(&["infrared_*"]), &specs(&["infrared_right"])).unwrap();
    assert!(selection.wants("infrared_left"));
    assert!(!selection.wants("infrared_right"));
    assert!(!selection.wants("color_image"));
}

#[test]
fn a_selection_that_is_not_json_is_an_error() {
    assert!(Selection::new(&specs(&["[color_image"]), &[]).is_err());
}

#[test]
fn names_come_without_the_space_around_them() {
    let selection =
        Selection::new(&specs(&["  [\"a b\"] ", " c , ,d,", ""]), &specs(&["x"])).unwrap();
    assert_eq!(selection.include_names, ["a b", "c", "d"]);
    assert_eq!(selection.exclude_names, ["x"]);
    let error = Selection::new(&specs(&["ok"]), &specs(&["fine", " [1, 2] "])).unwrap_err();
    assert_eq!(error.spec_text, "[1, 2]");
    assert!(!error.why.is_empty());
    assert_eq!(error.message(), "[1, 2] is not a JSON array of stream names");
}

#[test]
fn lcm_and_zenoh_channels_split_back_into_stream_and_type() {
    assert_eq!(
        split_channel("/color_image#sensor_msgs.Image", "/", '#'),
        ("color_image", "sensor_msgs.Image")
    );
    assert_eq!(
        split_channel("dimos/color_image/sensor_msgs.Image", "dimos/", '/'),
        ("color_image", "sensor_msgs.Image")
    );
}

/// A module publishing outside the configured namespace still has to be recorded under a name a replay
/// can publish again.
#[test]
fn a_channel_outside_the_prefix_keeps_its_name_without_the_slash() {
    assert_eq!(
        split_channel("/lidar#sensor_msgs.PointCloud2", "dimos/", '#'),
        ("lidar", "sensor_msgs.PointCloud2")
    );
    assert_eq!(split_channel("raw", "/", '#'), ("raw", ""));
}

/// What is published splits back into what it was published as.
#[test]
fn published_names_split_back() {
    for (name, msg_name) in [("color_image", "sensor_msgs.Image"), ("raw", ""), ("a.b", "c.D")] {
        let stream = Stream {
            name: "as_recorded".into(),
            published: name.into(),
            msg_name: msg_name.into(),
            storage: Storage::Wire,
            support: Support::Unstamped,
            count: 0,
        };
        for (prefix, separator) in [("", '#'), ("dimos/", '/'), ("/", '#')] {
            let channel = sink::name(&stream, prefix, separator);
            assert_eq!(split_channel(&channel, prefix, separator), (name, msg_name), "{channel}");
        }
    }
}

/// What goes into the file has to be what reading it gives back.
#[test]
fn channel_metadata_round_trips_through_the_reader() {
    let metadata = channel_metadata("color_image", "sensor_msgs.Image");
    assert_eq!(entry(&metadata, "dimos.stream_name").unwrap(), "color_image");
    assert_eq!(
        entry(&metadata, "dimos.payload_type").unwrap(),
        "dimos.msgs.sensor_msgs.Image.Image"
    );

    let stream = ChannelInfo {
        topic: "/anything".to_string(),
        message_encoding: Codec::Lcm.id().to_string(),
        metadata,
        schema_name: None,
        count: None,
    }
    .stream();
    assert_eq!(
        (stream.name.as_str(), stream.msg_name.as_str(), stream.storage),
        ("color_image", "sensor_msgs.Image", Storage::Wire)
    );
}

#[test]
fn a_stream_with_no_known_type_gets_no_payload_type() {
    assert_eq!(entry(&channel_metadata("raw", ""), "dimos.payload_type"), None);
}

#[test]
fn payload_modules_name_their_type() {
    for msg_name in ["sensor_msgs.Image", "Image", "a.b.c", "..x"] {
        let module = payload_module(msg_name).unwrap();
        assert_eq!(msg_name_from_payload_module(&module), msg_name);
    }
    assert_eq!(payload_module(""), None);
    assert_eq!(payload_module("a."), None);
}

#[test]
fn a_published_message_is_recognised_when_it_loops_back() {
    let mut ours = SelfPublished::new();
    ours.note("/color_image#sensor_msgs.Image", 1_781_260_015_000_000_000, 0);
    assert!(ours.claims("/color_image#sensor_msgs.Image", 1_781_260_015_000_000_000, 0));
    // Same channel, another moment: someone else's message.
    assert!(!ours.claims("/color_image#sensor_msgs.Image", 1_781_260_016_000_000_000, 0));
    // Same moment, another channel.
    assert!(!ours.claims("/lidar#sensor_msgs.PointCloud2", 1_781_260_015_000_000_000, 0));
}

#[test]
fn published_messages_are_forgotten_after_the_loopback_window() {
    let second = 1_000_000_000;
    let mut ours = SelfPublished::new();
    ours.note("a", 1, 5 * second);
    ours.note("b", 1, 7 * second);
    // Noting it again does not keep it any longer.
    ours.note("a", 1, 14 * second);
    assert!(ours.claims("a", 1, 15 * second - 1));
    assert!(!ours.claims("a", 1, 15 * second));
    assert!(ours.claims("b", 1, 15 * second));
    assert_eq!(ours.order.len(), 1);
    assert!(!ours.claims("b", 1, u64::MAX));
    assert_eq!(ours.order.len(), 0);
}

/// Claiming a message does not use it up, noting it again does not keep it longer, and what was never
/// noted is never claimed.
#[test]
fn a_message_is_claimed_until_its_first_note_expires() {
    let second = 1_000_000_000;
    let mut ours = SelfPublished::new();
    assert!(!ours.claims("a", 1, 0));
    ours.note("other", 1, second);
    ours.note("a", 1, 2 * second);
    for step in 2..12 {
        assert!(ours.claims("a", 1, step * second));
        assert!(ours.claims("a", 1, step * second));
        assert!(!ours.claims("a", 2, step * second));
        ours.note("a", 1, step * second);
        ours.note("b", step as i64, step * second);
    }
    assert!(ours.claims("a", 1, 12 * second - 1));
    assert!(!ours.claims("a", 1, 12 * second));
    assert!(!ours.claims("a", 1, 13 * second));
    assert!(ours.claims("b", 11, 13 * second));
    // Once forgotten, it can be noted anew.
    ours.note("a", 1, 13 * second);
    assert!(ours.claims("a", 1, 23 * second - 1));
    assert!(!ours.claims("a", 1, 23 * second));
}

#[test]
fn a_message_without_a_stamp_is_recognised_by_its_channel() {
    let mut ours = SelfPublished::new();
    note_published(&mut ours, "raw", None, 0);
    note_published(&mut ours, "odom", Some(9), 0);
    assert_eq!(take_in(&mut ours, "raw", ("raw", ""), vec![1], None, 77, 1), None);
    assert_eq!(take_in(&mut ours, "odom", ("odom", ""), vec![1], Some(9), 77, 1), None);
    let captured = take_in(&mut ours, "odom", ("o", "t"), vec![1, 2], Some(8), 77, 1).unwrap();
    assert_eq!(
        captured,
        Captured {
            stream: "o".to_string(),
            msg_name: "t".to_string(),
            payload: vec![1, 2],
            log_time_ns: 77,
            publish_time_ns: 8,
        }
    );
    let captured = take_in(&mut ours, "other", ("o", "t"), vec![], None, 77, 1).unwrap();
    assert_eq!(captured.publish_time_ns, 77);
}

#[test]
fn only_selected_streams_are_heard() {
    let selection = Selection::new(&specs(&["color_*"]), &[]).unwrap();
    assert_eq!(
        heard(&selection, "dimos/color_image#sensor_msgs.Image", "dimos/", '#'),
        Some(("color_image", "sensor_msgs.Image"))
    );
    assert_eq!(heard(&selection, "dimos/lidar#x", "dimos/", '#'), None);
}

#[test]
fn lz4_codec_output_decodes_back_to_the_wire_bytes() {
    let wire = b"lcm wire bytes, repeated repeated repeated".to_vec();
    let unread = || Err(String::new());
    let (_, stored, _) =
        Codec::Lz4Lcm.encode("sensor_msgs.Image", wire.clone(), unread()).unwrap();
    assert_ne!(stored, wire);
    let mut decoded = Vec::new();
    std::io::Read::read_to_end(
        &mut lz4_flex::frame::FrameDecoder::new(stored.as_slice()),
        &mut decoded,
    )
    .unwrap();
    assert_eq!(decoded, wire);
    assert_eq!(
        Codec::Lcm.encode("sensor_msgs.Image", wire.clone(), unread()).unwrap().1,
        wire
    );
}

/// What the recorder puts into an LZ4 frame is what a replay takes out of it.
#[test]
fn lz4_recordings_replay_as_they_were_captured() {
    let stream = Stream {
        name: "s".into(),
        published: "s".into(),
        msg_name: String::new(),
        storage: Storage::Lz4,
        support: Support::Unstamped,
        count: 0,
    };
    for length in [0usize, 1, 1000, 300_000] {
        let wire: Vec<u8> = (0..length).map(|byte| (byte * byte) as u8).collect();
        let (_, stored, note) =
            Codec::Lz4Lcm.encode("t", wire.clone(), Err(String::new())).unwrap();
        assert_eq!(note, None);
        assert_eq!(to_wire(&stream, stored), Ok(Wire::Bytes(wire)));
    }
}

#[test]
fn codec_overrides_are_parsed_per_stream() {
    let codecs =
        codec_overrides(&specs(&["lidar:lz4+lcm", "color_image:lcm", "odom:cdr"])).unwrap();
    let codec = |name: &str| codecs.find(name).map(|at| codecs.vals[at]);
    assert_eq!(codec("lidar"), Some(Codec::Lz4Lcm));
    assert_eq!(codec("color_image"), Some(Codec::Lcm));
    assert_eq!(codec("odom"), Some(Codec::Cdr));
    assert!(codec_overrides(&specs(&["lidar:jpeg"])).is_err());
    assert!(codec_overrides(&specs(&["lidar"])).is_err());
}

#[test]
fn a_refused_override_says_why() {
    let error = codec_overrides(&specs(&["a:lcm", "lidar:jpeg", "x"])).unwrap_err();
    assert_eq!(
        error,
        OverrideError::UnknownCodec { argument: "lidar:jpeg".to_string(), codec: "jpeg".to_string() }
    );
    assert_eq!(
        error.message(),
        "--record-codec lidar:jpeg: jpeg is not one of cdr, lcm, lz4+lcm"
    );
    let error = codec_overrides(&specs(&["lidar"])).unwrap_err();
    assert_eq!(error, OverrideError::NoColon("lidar".to_string()));
    assert_eq!(
        error.message(),
        "--record-codec wants NAME:CODEC, for example lidar:lz4+lcm, not lidar"
    );
    // The last override of a stream counts.
    let codecs = codec_overrides(&specs(&["a:lcm", "a:cdr"])).unwrap();
    assert_eq!(codecs.vals, [Codec::Cdr]);
}

/// A stream whose type has no transcoder still has to be recorded, just without the schema that would
/// let a general tool read it.
#[test]
fn cdr_falls_back_to_lcm_for_a_type_it_cannot_transcode() {
    assert_eq!(Codec::Cdr.resolve("sensor_msgs.PointCloud2"), Codec::Cdr);
    assert_eq!(Codec::Cdr.resolve("unitree_go.LowState"), Codec::Lcm);
    // A stream whose type never turned up on the wire.
    assert_eq!(Codec::Cdr.resolve(""), Codec::Lcm);
    // An explicit choice is never second-guessed.
    assert_eq!(Codec::Lz4Lcm.resolve("sensor_msgs.PointCloud2"), Codec::Lz4Lcm);
    assert_eq!(Codec::Lcm.resolve("sensor_msgs.PointCloud2"), Codec::Lcm);
}

/// The whole point of the CDR path: the channel carries a definition a viewer can parse, under the
/// name it matches its renderers on.
#[test]
fn a_cdr_channel_carries_its_ros_schema() {
    let schema = schema_for(Codec::Cdr, "sensor_msgs.PointCloud2").expect("a schema");
    assert_eq!(schema.name, "sensor_msgs/msg/PointCloud2");
    assert_eq!(schema.encoding, "ros2msg");
    let text = String::from_utf8(schema.data.to_vec()).unwrap();
    assert!(text.starts_with("std_msgs/Header header"));
    assert!(text.contains("MSG: sensor_msgs/PointField"));
    // ROS 2 spells the stamp as a nested type, not ROS 1's bare `time`.
    assert!(text.contains("builtin_interfaces/Time stamp"));
}

#[test]
fn lcm_channels_carry_no_schema() {
    assert!(schema_for(Codec::Lcm, "sensor_msgs.PointCloud2").is_none());
    assert!(schema_for(Codec::Lz4Lcm, "sensor_msgs.PointCloud2").is_none());
}

/// A missing schema must never become a CDR channel with nothing to decode it.
#[test]
fn cdr_without_a_schema_is_not_offered_one() {
    assert!(schema_for(Codec::Cdr, "unitree_go.LowState").is_none());
}

#[test]
fn the_profile_is_ros2_where_anything_is_cdr() {
    let codecs = codec_overrides(&specs(&["a:lcm", "b:cdr"])).unwrap();
    assert_eq!(profile(&codecs, Codec::Lcm), "ros2");
    let codecs = codec_overrides(&specs(&["a:lcm"])).unwrap();
    assert_eq!(profile(&codecs, Codec::Lz4Lcm), "dimos");
    assert_eq!(profile(&codecs, Codec::Cdr), "ros2");
}

#[test]
fn free_space_is_measured_and_only_low_space_is_warned_about() {
    assert_eq!(free_bytes(1000, 4096), Some(4_096_000));
    assert_eq!(free_bytes(u64::MAX, 2), None);
    assert!(low_on_disk(Some(6 * 1024 * 1024 * 1024 - 1)));
    assert!(!low_on_disk(Some(6 * 1024 * 1024 * 1024)));
    assert!(!low_on_disk(None));
}

fn captured(stream: &str, msg_name: &str, payload: &[u8]) -> Captured {
    Captured {
        stream: stream.to_string(),
        msg_name: msg_name.to_string(),
        payload: payload.to_vec(),
        log_time_ns: 20,
        publish_time_ns: -5,
    }
}

fn header() -> Header {
    Header { seq: 1, stamp: Time { sec: 2, nsec: 3 }, frame_id: "c".to_string() }
}

fn compressed() -> Message {
    Message::CompressedImage(CompressedImage {
        header: header(),
        format: "png".to_string(),
        data: vec![1, 2],
    })
}

fn image(encoding: &str, data: &[u8]) -> Message {
    Message::Image(Image {
        header: header(),
        height: 480,
        width: 640,
        encoding: encoding.to_string(),
        is_bigendian: 0,
        step: 0,
        data: data.to_vec(),
    })
}

fn unread() -> Result<Message, String> {
    Err("unexpected end of file".to_string())
}

#[test]
fn a_stream_gets_its_channel_with_its_first_message() {
    let mut log = Log::new(codec_overrides(&specs(&["raw:lcm"])).unwrap(), Codec::Cdr);
    let step = log.take(captured("raw", "sensor_msgs.Imu", &[9, 8]), unread());
    let (channel, pending) = match step {
        Step::Register { channel, pending } => (channel, pending),
        other => panic!("{other:?}"),
    };
    assert_eq!(channel.topic, "raw");
    assert_eq!(channel.message_encoding, "lcm");
    assert_eq!(channel.schema, None);
    assert_eq!(entry(&channel.metadata, "dimos.stream_name").unwrap(), "raw");
    let (stream, first, data) = log.registered(pending, 4);
    assert_eq!(stream, "raw");
    assert_eq!(
        first,
        MessageHeader { channel_id: 4, sequence: 1, log_time: 20, publish_time: 0 }
    );
    assert_eq!(data, [9, 8]);
    log.written.wrote(&stream);

    match log.take(captured("raw", "sensor_msgs.Imu", &[7]), unread()) {
        Step::Write { stream, header, data } => {
            assert_eq!((header.channel_id, header.sequence), (4, 2));
            assert_eq!(data, [7]);
            log.written.wrote(&stream);
        }
        other => panic!("{other:?}"),
    }
    assert_eq!(
        log.written.report("out.mcap"),
        "recorded 2 message(s) to out.mcap\n  raw: 2\n"
    );
}

#[test]
fn a_channel_is_typed_by_what_its_messages_became() {
    let mut log = Log::new(Table::new(), Codec::Cdr);
    let jpeg = image("jpeg", &[0xFF, 0xD8, 0xFF, 0xE0]);
    let (channel, pending) = match log.take(captured("cam", "sensor_msgs.Image", &[1]), Ok(jpeg)) {
        Step::Register { channel, pending } => (channel, pending),
        other => panic!("{other:?}"),
    };
    assert_eq!(channel.message_encoding, "cdr");
    assert_eq!(channel.schema.unwrap().name, "sensor_msgs/msg/CompressedImage");
    assert_eq!(
        entry(&channel.metadata, "dimos.payload_type").unwrap(),
        "dimos.msgs.sensor_msgs.CompressedImage.CompressedImage"
    );
    log.registered(pending, 1);

    // A frame that is not a codec stream does not belong on that channel.
    let raw = image("mono8", &[1]);
    assert_eq!(log.take(captured("cam", "sensor_msgs.Image", &[1]), Ok(raw)), Step::Dropped);
    let lost = &log.written.unencodable;
    assert_eq!(lost.vals[0].count, 1);
    assert_eq!(lost.vals[0].why, "stream changed type to sensor_msgs.Image mid-capture");
}

#[test]
fn what_cannot_be_written_is_counted_with_its_first_reason() {
    let mut log = Log::new(Table::new(), Codec::Cdr);
    assert_eq!(log.take(captured("a", "sensor_msgs.Imu", &[1]), unread()), Step::Dropped);
    assert_eq!(
        log.take(captured("a", "sensor_msgs.Imu", &[1]), Ok(compressed())),
        Step::Dropped
    );
    // Unrenderable frames are written all the same.
    let odd = image("jpeg", &[0, 1, 2, 3]);
    match log.take(captured("cam", "sensor_msgs.Image", &[1]), Ok(odd)) {
        Step::Register { pending, .. } => {
            let (stream, _, _) = log.registered(pending, 1);
            log.written.wrote(&stream);
        }
        other => panic!("{other:?}"),
    }
    assert_eq!(
        log.written.report("f"),
        "recorded 1 message(s) to f\n  cam: 1\n  a: 2 message(s) dropped, unexpected end of file\n  \
         cam: 1 message(s) unrenderable, encoding=\"jpeg\" height=480 step=0 len=4 is neither raw \
         pixels nor a container we recognise; forwarded as-is\n"
    );
}

#[test]
fn a_payload_that_cannot_be_stored_says_why() {
    let error = Codec::Cdr.encode("sensor_msgs.Imu", vec![], unread()).unwrap_err();
    assert!(matches!(error, EncodeError::Cdr(_)));
    assert_eq!(error.message(), "unexpected end of file");
    assert_eq!(EncodeError::Lz4("x".to_string()).message(), "lz4 compression failed");
    let (name, data, note) =
        Codec::Cdr.encode("sensor_msgs.CompressedImage", vec![], Ok(compressed())).unwrap();
    assert_eq!(name, "sensor_msgs.CompressedImage");
    assert_eq!(&data[..8], [0, 1, 0, 0, 2, 0, 0, 0]);
    assert_eq!(note, None);
}
