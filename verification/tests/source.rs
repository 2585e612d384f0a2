use rapid_rust_replay::cdr::reader::F64;
use rapid_rust_replay::cdr::types::Message;
use rapid_rust_replay::cdr::writer::Writer;
use rapid_rust_replay::cdr::CdrError;
use rapid_rust_replay::order::Table;
use rapid_rust_replay::source::{
    configured_stream, earlier, is_mcap, msg_name_from_payload_module, new_cursors, next_to_fill,
    quote, some_channels, some_streams, storage_for, stream_from_config, take_earliest, to_wire,
    Catalog, ChannelInfo, DbSource, Next, SourceError, Storage, Stream, Wire, WireError, INDEX_PAGE,
};
use rapid_rust_replay::stamp::Support;
use std::io::Write;

fn stored(name: &str, msg_name: &str, storage: Storage) -> Stream {
    Stream {
        name: name.into(),
        published: name.into(),
        msg_name: msg_name.into(),
        storage,
        support: Support::Unstamped,
        count: 0,
    }
}

fn at(value: f64) -> F64 {
    F64 { bits: value.to_bits() }
}

#[test]
fn msg_name_drops_the_duplicated_class_segment() {
    assert_eq!(
        msg_name_from_payload_module("dimos.msgs.sensor_msgs.Image.Image"),
        "sensor_msgs.Image"
    );
    assert_eq!(
        msg_name_from_payload_module("dimos.msgs.nav_msgs.Odometry.Odometry"),
        "nav_msgs.Odometry"
    );
    assert_eq!(
        msg_name_from_payload_module("dimos.msgs.tf2_msgs.TFMessage.TFMessage"),
        "tf2_msgs.TFMessage"
    );
}

#[test]
fn msg_name_passes_through_names_that_are_already_short() {
    assert_eq!(msg_name_from_payload_module("sensor_msgs.Image"), "sensor_msgs.Image");
    assert_eq!(msg_name_from_payload_module(""), "");
}

#[test]
fn quote_escapes_embedded_quotes() {
    assert_eq!(quote(r#"we"ird"#), r#""we""ird""#);
}

#[test]
fn quoted_identifiers_stay_apart() {
    assert_eq!(quote(""), "\"\"");
    assert_eq!(quote("\""), "\"\"\"\"");
    assert_ne!(quote("a\"\"b"), quote("a\"b"));
}

#[test]
fn lz4_round_trips_to_the_original_wire_bytes() {
    let wire = b"lcm wire bytes".to_vec();
    let mut encoder = lz4_flex::frame::FrameEncoder::new(Vec::new());
    encoder.write_all(&wire).unwrap();
    let compressed = encoder.finish().unwrap();
    assert_ne!(compressed, wire);
    let stream = stored("s", "", Storage::Lz4);
    assert_eq!(to_wire(&stream, compressed), Ok(Wire::Bytes(wire)));
}

#[test]
fn stored_bytes_become_wire_bytes_or_a_message() {
    let plain = stored("s", "", Storage::Wire);
    assert_eq!(to_wire(&plain, vec![1, 2]), Ok(Wire::Bytes(vec![1, 2])));

    let mut writer = Writer::default();
    writer.i32(1).i32(2).string("c").string("png").bytes(&[5]);
    let cdr = stored("s", "sensor_msgs.CompressedImage", Storage::Cdr);
    match to_wire(&cdr, writer.finish()) {
        Ok(Wire::Message(Message::CompressedImage(image))) => assert_eq!(image.data, [5]),
        other => panic!("{other:?}"),
    }
}

#[test]
fn bytes_without_a_wire_form_say_why() {
    let error = to_wire(&stored("s", "", Storage::Lz4), vec![1, 2, 3, 4, 5, 6, 7, 8]).unwrap_err();
    assert!(matches!(error, WireError::Lz4(_)));
    assert_eq!(error.message(), "lz4 decompression failed");

    let cdr = stored("lidar", "sensor_msgs.PointCloud2", Storage::Cdr);
    let error = to_wire(&cdr, vec![0, 1, 0, 0]).unwrap_err();
    assert_eq!(error.message(), "failed to transcode lidar from CDR");
    assert_eq!(
        error,
        WireError::Cdr { stream: "lidar".to_string(), error: CdrError::EndedEarly }
    );

    let error = to_wire(&stored("s", "", Storage::Unsupported), vec![]).unwrap_err();
    assert_eq!(error, WireError::Unsupported);
    assert_eq!(error.message(), "stream is not stored in an LCM-compatible codec");
}

#[test]
fn codecs_say_how_bytes_are_stored() {
    assert_eq!(storage_for("lcm"), Storage::Wire);
    assert_eq!(storage_for("jpeg"), Storage::Wire);
    assert_eq!(storage_for("lz4+lcm"), Storage::Lz4);
    assert_eq!(storage_for("lz4+jpeg"), Storage::Lz4);
    assert_eq!(storage_for("pickle"), Storage::Unsupported);
    assert_eq!(storage_for(""), Storage::Unsupported);
}

#[test]
fn a_configuration_describes_its_stream() {
    let config = r#"{"payload_module": "dimos.msgs.sensor_msgs.Image.Image",
                     "codec_id": "lz4+jpeg", "other": 3}"#;
    let stream = stream_from_config("color_image".to_string(), config, 12).unwrap();
    assert_eq!(stream.name, "color_image");
    assert_eq!(stream.published, "color_image");
    assert_eq!(stream.msg_name, "sensor_msgs.Image");
    assert_eq!(stream.storage, Storage::Lz4);
    assert_eq!(stream.support, Support::Fixed(16));
    assert_eq!(stream.count, 12);

    // Members that are missing or not strings count as empty, and so does a value with no members.
    for config in ["{}", r#"{"payload_module": 3, "codec_id": null}"#, "[1]", "7"] {
        let stream = stream_from_config("s".to_string(), config, 0).unwrap();
        assert_eq!(stream.msg_name, "");
        assert_eq!(stream.storage, Storage::Unsupported);
        assert_eq!(stream.support, Support::Unstamped);
    }
    let module = Some("dimos.msgs.sensor_msgs.Imu.Imu".to_string());
    let stream = configured_stream("imu".to_string(), module, Some("lcm".to_string()), 1);
    assert_eq!((stream.msg_name.as_str(), stream.storage), ("sensor_msgs.Imu", Storage::Wire));
}

#[test]
fn a_configuration_that_is_not_json_is_an_error() {
    let error = stream_from_config("imu".to_string(), "{payload", 0).unwrap_err();
    assert_eq!(error.message(), "bad config for imu");
    match error {
        SourceError::BadConfig { name, why } => {
            assert_eq!(name, "imu");
            assert!(!why.is_empty());
        }
        other => panic!("{other:?}"),
    }
}

#[test]
fn a_recording_without_a_stream_is_refused() {
    assert_eq!(some_streams(&vec![stored("s", "", Storage::Wire)], "x.db"), Ok(()));
    assert_eq!(some_channels(&vec![stored("s", "", Storage::Wire)], "x.mcap"), Ok(()));
    let none: Vec<Stream> = Vec::new();
    assert_eq!(
        some_streams(&none, "x.db").unwrap_err().message(),
        "no matching streams in x.db"
    );
    assert_eq!(
        some_channels(&none, "x.mcap").unwrap_err().message(),
        "no matching channels in x.mcap"
    );
}

#[test]
fn timestamps_are_ordered_as_numbers_are() {
    let values = [
        f64::NEG_INFINITY, -1.5, -0.0, 0.0, 1e-300, 1.0, 1.7e9, f64::INFINITY, f64::NAN, -f64::NAN,
    ];
    for left in values {
        for right in values {
            assert_eq!(
                earlier(at(left), at(right)),
                left.total_cmp(&right).is_lt(),
                "{left} {right}"
            );
        }
    }
}

#[test]
fn cursors_start_before_the_first_row_and_ask_for_pages() {
    let cursors = new_cursors(&[stored("odom", "", Storage::Wire), stored("a\"b", "", Storage::Wire)]);
    assert_eq!(cursors[0].page_query(), "SELECT id, ts FROM \"odom\" WHERE ts > ?1 ORDER BY ts LIMIT ?2");
    assert_eq!(cursors[0].blob_query(), "SELECT data FROM \"odom_blob\" WHERE id = ?1");
    assert_eq!(cursors[1].table, "\"a\"\"b\"");
    assert_eq!(f64::from_bits(cursors[1].last_ts.bits), f64::NEG_INFINITY);
    assert!(!cursors[1].done);
}

/// The streams are merged by timestamp, and where two are equally early the first stream goes first.
#[test]
fn messages_are_taken_in_timestamp_order() {
    let streams = [
        stored("a", "", Storage::Wire),
        stored("b", "", Storage::Wire),
        stored("c", "", Storage::Wire),
    ];
    let mut cursors = new_cursors(&streams);
    assert_eq!(next_to_fill(&cursors), Some(0));
    cursors[0].fill(&vec![(1, at(1.0)), (2, at(4.0))]);
    assert_eq!(f64::from_bits(cursors[0].last_ts.bits), 4.0);
    assert_eq!(next_to_fill(&cursors), Some(1));
    cursors[1].fill(&vec![(7, at(1.0)), (8, at(2.0)), (9, at(5.0))]);
    cursors[2].fill(&Vec::new());
    assert!(cursors[2].done);
    assert_eq!(next_to_fill(&cursors), None);

    let mut taken = Vec::new();
    while let Some(due) = take_earliest(&mut cursors) {
        assert_eq!(due.cursor, due.stream);
        taken.push((due.stream, due.id, f64::from_bits(due.ts.bits)));
    }
    assert_eq!(taken, [(0, 1, 1.0), (1, 7, 1.0), (1, 8, 2.0), (0, 2, 4.0), (1, 9, 5.0)]);
    assert_eq!(next_to_fill(&cursors), Some(0));
}

/// Read page by page to the end, every row comes once, in order over all streams, and then nothing more.
#[test]
fn every_row_comes_once_however_many_pages_it_takes() {
    let tables: Vec<Vec<(i64, F64)>> = vec![
        (0..3 * INDEX_PAGE as i64 + 1).map(|id| (id, at(id as f64))).collect(),
        Vec::new(),
        (0..INDEX_PAGE as i64).map(|id| (7 * id, at(3.0 * id as f64 - 100.0))).collect(),
    ];
    let streams = ["a", "b", "c"].map(|name| stored(name, "", Storage::Wire));
    let mut source = DbSource::open(streams.to_vec(), "x.db").unwrap();
    let read = |source: &mut DbSource| {
        let mut came: Vec<(usize, i64, f64)> = Vec::new();
        loop {
            match source.next() {
                Next::Fill { cursor } => {
                    let last = f64::from_bits(source.cursors[cursor].last_ts.bits);
                    let rows: Vec<(i64, F64)> = tables[cursor]
                        .iter()
                        .filter(|row| f64::from_bits(row.1.bits) > last)
                        .take(INDEX_PAGE)
                        .copied()
                        .collect();
                    source.fill(cursor, &rows);
                }
                Next::Message(due) => {
                    came.push((due.stream, due.id, f64::from_bits(due.ts.bits)));
                }
                Next::Finished => return came,
            }
        }
    };
    let came = read(&mut source);
    for (stream, table) in tables.iter().enumerate() {
        let rows: Vec<(i64, F64)> =
            came.iter().filter(|due| due.0 == stream).map(|due| (due.1, at(due.2))).collect();
        assert_eq!(&rows, table);
    }
    assert_eq!(came.len(), 4 * INDEX_PAGE + 1);
    for pair in came.windows(2) {
        assert!(pair[0].2 < pair[1].2 || (pair[0].2 == pair[1].2 && pair[0].0 < pair[1].0));
    }
    assert!(matches!(source.next(), Next::Finished));
    assert!(matches!(source.next(), Next::Finished));
    source.rewind();
    assert_eq!(read(&mut source), came);
    let error = DbSource::open(Vec::new(), "x.db").unwrap_err();
    assert_eq!(error, SourceError::NoStreams { path: "x.db".to_string() });
}

fn metadata(entries: &[(&str, &str)]) -> Table<String> {
    let mut table = Table::new();
    for (key, value) in entries {
        table.ensure(key.to_string(), value.to_string());
    }
    table
}

fn channel(topic: &str, encoding: &str, entries: &[(&str, &str)], schema: Option<&str>) -> ChannelInfo {
    ChannelInfo {
        topic: topic.to_string(),
        message_encoding: encoding.to_string(),
        metadata: metadata(entries),
        schema_name: schema.map(str::to_string),
        count: Some(3),
    }
}

#[test]
fn channels_tell_their_stream_by_metadata_or_by_topic() {
    let lcm = channel(
        "/front",
        "lcm",
        &[
            ("dimos.stream_name", "color_image"),
            ("dimos.payload_type", "dimos.msgs.sensor_msgs.Image.Image"),
        ],
        None,
    )
    .stream();
    assert_eq!(lcm.name, "color_image");
    assert_eq!(lcm.msg_name, "sensor_msgs.Image");
    assert_eq!(lcm.storage, Storage::Wire);
    assert_eq!(lcm.count, 3);

    let cdr = channel("/imu", "cdr", &[], Some("sensor_msgs/msg/Imu")).stream();
    assert_eq!(cdr.name, "imu");
    assert_eq!(cdr.msg_name, "sensor_msgs.Imu");
    assert_eq!(cdr.storage, Storage::Cdr);
    assert_eq!(cdr.support, Support::Fixed(12));

    let unknown = channel("low", "cdr", &[], Some("unitree_go::msg::dds_::LowState_")).stream();
    assert_eq!(unknown.msg_name, "unitree_go.LowState");
    assert_eq!(unknown.storage, Storage::Unsupported);

    let mut other = channel("//x", "lz4+lcm", &[], None);
    other.count = None;
    let other = other.stream();
    assert_eq!((other.name.as_str(), other.msg_name.as_str()), ("/x", ""));
    assert_eq!(other.storage, Storage::Unsupported);
    assert_eq!(other.count, 0);
}

#[test]
fn a_catalog_holds_the_channels_that_were_picked() {
    let patterns = ["imu".to_string(), "color_*".to_string()];
    let mut catalog = Catalog::new();
    catalog.add(&channel("/imu", "cdr", &[], Some("sensor_msgs/msg/Imu")), &patterns);
    catalog.add(&channel("/lidar", "cdr", &[], None), &patterns);
    catalog.add(&channel("/cam", "lcm", &[("dimos.stream_name", "color_image")], None), &patterns);
    assert_eq!(catalog.streams.len(), 2);
    assert_eq!(catalog.find("/imu"), Some(0));
    assert_eq!(catalog.find("/cam"), Some(1));
    assert_eq!(catalog.find("/lidar"), None);
    assert_eq!(catalog.find("imu"), None);
    // A topic that comes twice belongs to the later stream.
    catalog.add(&channel("/imu", "cdr", &[], None), &patterns);
    assert_eq!(catalog.find("/imu"), Some(2));
}

#[test]
fn an_mcap_is_told_by_its_extension_in_any_case() {
    for extension in ["mcap", "MCAP", "McAp"] {
        assert!(is_mcap(extension));
    }
    for extension in ["", "db", "mcap2", "mca", "nca\u{e9}"] {
        assert!(!is_mcap(extension));
    }
}

/// The order holds over the pages that a stream is read in.
#[test]
fn timestamp_order_holds_across_pages() {
    let streams = [stored("a", "", Storage::Wire), stored("b", "", Storage::Wire)];
    let mut unread = [
        vec![vec![(1, at(1.0)), (2, at(2.0))], vec![(3, at(6.0))]],
        vec![vec![(1, at(1.5))], vec![(2, at(3.0)), (3, at(7.0))]],
    ];
    let mut cursors = new_cursors(&streams);
    let mut taken = Vec::new();
    loop {
        while let Some(i) = next_to_fill(&cursors) {
            let rows = if unread[i].is_empty() { Vec::new() } else { unread[i].remove(0) };
            cursors[i].fill(&rows);
        }
        match take_earliest(&mut cursors) {
            Some(due) => taken.push(f64::from_bits(due.ts.bits)),
            None => break,
        }
    }
    assert_eq!(taken, [1.0, 1.5, 2.0, 3.0, 6.0, 7.0]);
}
