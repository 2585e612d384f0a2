use rapid_rust_replay::source::summary::{catalog_of, is_readable, open_catalog, FileChannel};
use rapid_rust_replay::source::{SourceError, Storage};
use rapid_rust_replay::stamp::Support;
use std::collections::BTreeMap;
use std::io::Cursor;
use std::sync::Arc;

fn channel(topic: &str, encoding: &str, entries: &[(&str, &str)], schema: Option<&str>) -> mcap::Channel<'static> {
    mcap::Channel {
        topic: topic.to_string(),
        schema: schema.map(|name| {
            Arc::new(mcap::Schema {
                name: name.to_string(),
                encoding: "ros2msg".to_string(),
                data: vec![1u8].into(),
            })
        }),
        message_encoding: encoding.to_string(),
        metadata: entries.iter().map(|(k, v)| (k.to_string(), v.to_string())).collect::<BTreeMap<_, _>>(),
    }
}

/// An mcap file with three channels, the first of which holds two messages.
fn file() -> Vec<u8> {
    let mut out = Cursor::new(Vec::new());
    let mut writer = mcap::WriteOptions::new().compression(None).create(&mut out).unwrap();
    let channels = [
        channel("/imu", "cdr", &[("k", "v")], Some("sensor_msgs/msg/Imu")),
        channel(
            "/front",
            "lcm",
            &[
                ("dimos.stream_name", "color_image"),
                ("dimos.payload_type", "dimos.msgs.sensor_msgs.Image.Image"),
            ],
            None,
        ),
        channel("odd", "json", &[], None),
    ];
    for (at, channel) in channels.iter().enumerate() {
        let id = writer.add_channel(channel).unwrap();
        for sequence in 0..(if at == 0 { 2 } else { 0 }) {
            let header =
                mcap::records::MessageHeader { channel_id: id, sequence, log_time: 1, publish_time: 2 };
            writer.write_to_known_channel(&header, &[1, 2, 3]).unwrap();
        }
    }
    writer.finish().unwrap();
    drop(writer);
    out.into_inner()
}

fn patterns(patterns: &[&str]) -> Vec<String> {
    patterns.iter().map(|pattern| pattern.to_string()).collect()
}

fn patched(mut bytes: Vec<u8>, from_end: usize, value: u64) -> Vec<u8> {
    let at = bytes.len() - from_end;
    bytes[at..at + 8].copy_from_slice(&value.to_le_bytes());
    bytes
}

#[test]
fn the_streams_of_a_file_are_those_of_its_channels() {
    let catalog = open_catalog(&file(), &[], "x.mcap").unwrap();
    assert_eq!(catalog.streams.len(), 3);
    let imu = &catalog.streams[catalog.find("/imu").unwrap()];
    assert_eq!((imu.name.as_str(), imu.msg_name.as_str()), ("imu", "sensor_msgs.Imu"));
    assert_eq!((imu.storage, imu.support, imu.count), (Storage::Cdr, Support::Fixed(12), 2));
    let front = &catalog.streams[catalog.find("/front").unwrap()];
    assert_eq!((front.name.as_str(), front.msg_name.as_str()), ("color_image", "sensor_msgs.Image"));
    assert_eq!((front.storage, front.count), (Storage::Wire, 0));
    let odd = &catalog.streams[catalog.find("odd").unwrap()];
    assert_eq!((odd.name.as_str(), odd.storage), ("odd", Storage::Unsupported));
}

#[test]
fn only_the_picked_streams_of_a_file_are_catalogued() {
    let catalog = open_catalog(&file(), &patterns(&["color_*"]), "x.mcap").unwrap();
    assert_eq!(catalog.streams.len(), 1);
    assert_eq!(catalog.find("/front"), Some(0));
    assert_eq!(catalog.find("/imu"), None);
    let error = open_catalog(&file(), &patterns(&["lidar"]), "x.mcap").unwrap_err();
    assert_eq!(error, SourceError::NoChannels { path: "x.mcap".to_string() });
}

#[test]
fn bytes_that_are_no_mcap_are_refused_in_the_words_of_the_reader() {
    for (bytes, words) in [
        (vec![], "MCAP file ended in the middle of a record"),
        (vec![0; 44], "MCAP file ended in the middle of a record"),
        (vec![0; 100], "Bad magic number"),
    ] {
        assert!(is_readable(&bytes));
        assert_eq!(open_catalog(&bytes, &[], "x").unwrap_err().message(), words);
    }
    // A summary that does not match its checksum.
    let bytes = file();
    let summary = u64::from_le_bytes(bytes[bytes.len() - 28..bytes.len() - 20].try_into().unwrap());
    let mut damaged = bytes.clone();
    damaged[summary as usize + 9] ^= 1;
    let error = open_catalog(&damaged, &[], "x").unwrap_err();
    assert!(error.message().starts_with("Summary section CRC failed"), "{}", error.message());
}

#[test]
fn a_file_without_a_summary_is_refused() {
    let error = open_catalog(&patched(file(), 28, 0), &[], "x").unwrap_err();
    assert_eq!(error, SourceError::NoSummary);
    assert_eq!(error.message(), "mcap has no summary section; cannot enumerate channels");
}

#[test]
fn a_file_whose_footer_leads_nowhere_is_damaged() {
    let bytes = file();
    let n = bytes.len() as u64;
    let summary =
        u64::from_le_bytes(bytes[bytes.len() - 28..bytes.len() - 20].try_into().unwrap());
    let mut long = bytes.clone();
    long[summary as usize + 5] = 1;
    for damaged in [
        long,
        patched(bytes.clone(), 28, n),
        patched(bytes.clone(), 20, 0),
        patched(bytes.clone(), 20, n + 1),
        patched(bytes.clone(), 20, u64::MAX),
    ] {
        assert!(!is_readable(&damaged));
        let error = open_catalog(&damaged, &[], "x.mcap").unwrap_err();
        assert_eq!(error, SourceError::Damaged { path: "x.mcap".to_string() });
        assert_eq!(error.message(), "the summary section of x.mcap is damaged");
    }
    // A footer that is none is refused in the words of the reader.
    let words = "Footer record couldn't be found at the end of the file, before the magic bytes";
    for (from_end, value) in [(37, 9), (36, 19), (36, 29)] {
        let mut footless = bytes.clone();
        let at = footless.len() - from_end;
        footless[at] = value;
        assert!(is_readable(&footless));
        assert_eq!(open_catalog(&footless, &[], "x").unwrap_err().message(), words);
    }
}

fn record(opcode: u8, body: &[u8]) -> Vec<u8> {
    let mut bytes = vec![opcode];
    bytes.extend((body.len() as u64).to_le_bytes());
    bytes.extend(body);
    bytes
}

fn text(text: &str) -> Vec<u8> {
    let mut bytes = (text.len() as u32).to_le_bytes().to_vec();
    bytes.extend(text.as_bytes());
    bytes
}

/// A channel without a schema.
fn channel_record(id: u16, topic: &str) -> Vec<u8> {
    let mut body = id.to_le_bytes().to_vec();
    body.extend([0, 0]);
    body.extend(text(topic));
    body.extend(text("lcm"));
    body.extend([0; 4]);
    record(4, &body)
}

/// An attachment with five bytes of content, and `rest` behind them.
fn attachment_record(rest: &[u8]) -> Vec<u8> {
    let mut body = vec![0; 16];
    body.extend(text("notes"));
    body.extend(text("text/plain"));
    body.extend(5u64.to_le_bytes());
    body.extend(b"hello");
    body.extend(rest);
    record(9, &body)
}

/// A chunk that claims to hold `size` bytes, with `padding` bytes behind what it does hold.
fn chunk_record(compression: &str, size: u64, records: &[u8], padding: usize) -> Vec<u8> {
    let mut body = vec![0; 28];
    body.extend(text(compression));
    body.extend(size.to_le_bytes());
    body.extend(records);
    body.extend(vec![0; padding]);
    record(6, &body)
}

/// A file that holds nothing but a summary section without a checksum.
fn only_summary(records: &[u8]) -> Vec<u8> {
    let mut bytes = mcap::MAGIC.to_vec();
    bytes.extend(records);
    let mut footer = 8u64.to_le_bytes().to_vec();
    footer.extend((bytes.len() as u64).to_le_bytes());
    footer.extend([0; 4]);
    bytes.extend(record(2, &footer));
    bytes.extend(mcap::MAGIC);
    bytes
}

fn topics(bytes: &[u8]) -> Vec<String> {
    let mut names: Vec<String> = open_catalog(bytes, &[], "x")
        .unwrap()
        .streams
        .iter()
        .map(|stream| stream.name.clone())
        .collect();
    names.sort();
    names
}

#[test]
fn attachments_and_plain_chunks_in_a_summary_are_read() {
    let held = [channel_record(2, "/b"), attachment_record(&[0; 4])].concat();
    let records = [
        channel_record(1, "/a"),
        attachment_record(&[0; 4]),
        chunk_record("", held.len() as u64, &held, 3),
        chunk_record("", 0, &[], 0),
        channel_record(3, "/c"),
    ]
    .concat();
    let bytes = only_summary(&records);
    assert!(is_readable(&bytes));
    assert_eq!(topics(&bytes), ["a", "b", "c"]);
    // A summary may run to the end of the file: what follows the footer is not read.
    for end in [bytes.len(), bytes.len() - 3, bytes.len() - 8] {
        assert_eq!(topics(&patched(bytes.clone(), 20, end as u64)), ["a", "b", "c"]);
    }
}

#[test]
fn what_the_reader_complains_about_is_told_in_its_words() {
    let channel = channel_record(1, "/a");
    let early = "MCAP file ended in the middle of a record";
    for (records, words) in [
        (channel[..5].to_vec(), early),
        (channel[..channel.len() - 1].to_vec(), early),
        (chunk_record("", 0, &[], 0)[..20].to_vec(), early),
        (chunk_record("xz", 9, &[], 0), "Unsupported compression format `xz`"),
        (attachment_record(&[0; 4])[..9 + 24].to_vec(), early),
        (record(9, &[0; 31]), "I/O error from writing, or reading a compression stream"),
        (record(4, &[1]), "Record parse failed"),
        (chunk_record("", 100, &channel, 100)[..9 + 40 + 12].to_vec(), "Chunk ended in the middle of a record"),
    ] {
        let bytes = only_summary(&records);
        assert!(is_readable(&bytes), "{words}");
        assert_eq!(open_catalog(&bytes, &[], "x").unwrap_err().message(), words);
    }
}

#[test]
fn records_that_do_not_hold_together_are_damage() {
    let channel = channel_record(1, "/a");
    let mut endless = channel.clone();
    endless[1..9].copy_from_slice(&u64::MAX.to_le_bytes());
    for records in [
        // No room for the checksum of the attachment behind its fields.
        record(9, &[0; 32]),
        record(9, &[0; 35]),
        // More in the chunk than there is of it, and less than its first record is long.
        chunk_record("", channel.len() as u64 + 1, &channel, 0),
        chunk_record("", channel.len() as u64 - 1, &channel, 0),
        // An attachment without that room in a chunk.
        chunk_record("", 41, &record(9, &[0; 32]), 0),
        chunk_record("lz4", 0, &[], 0),
        chunk_record("zstd", 0, &[], 0),
        endless,
    ] {
        let bytes = only_summary(&records);
        assert!(!is_readable(&bytes));
        assert!(matches!(open_catalog(&bytes, &[], "x"), Err(SourceError::Damaged { .. })));
    }
}

#[test]
fn a_catalog_follows_the_order_of_the_list() {
    let listed = |id: u16, topic: &str| FileChannel {
        id,
        topic: topic.to_string(),
        message_encoding: "cdr".to_string(),
        metadata: vec![("k".to_string(), "a".to_string()), ("k".to_string(), "b".to_string())],
        schema_name: Some("sensor_msgs/msg/Imu".to_string()),
    };
    let list = vec![listed(7, "/b"), listed(2, "/skip"), listed(3, "a"), listed(4, "/b")];
    let counts = vec![(7, 70), (4, 1), (2, 20), (4, 40)];
    let catalog = catalog_of(&list, &counts, &patterns(&["a", "b"]), "x").unwrap();
    let names: Vec<&str> = catalog.streams.iter().map(|stream| stream.name.as_str()).collect();
    assert_eq!(names, ["b", "a", "b"]);
    // The last count of an id counts, and where there is none it is nothing.
    let counted: Vec<u64> = catalog.streams.iter().map(|stream| stream.count).collect();
    assert_eq!(counted, [70, 0, 40]);
    assert_eq!(catalog.find("/b"), Some(2));
    assert_eq!(catalog.find("a"), Some(1));
    assert_eq!(catalog.find("/skip"), None);
    assert!(catalog_of(&list, &counts, &patterns(&["c"]), "x").is_err());
}
