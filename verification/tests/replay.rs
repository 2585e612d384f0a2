use rapid_rust_replay::replay::{
    list_line, nap, rename, stream_warning, Pass, RenameError, Stamps, Tally, Timing, Verdict,
};
use rapid_rust_replay::sink;
use rapid_rust_replay::source::{Storage, Stream};
use rapid_rust_replay::stamp::{Retimer, Support};

fn streams(names: &[&str]) -> Vec<Stream> {
    names
        .iter()
        .map(|name| Stream {
            name: (*name).into(),
            published: (*name).into(),
            msg_name: "sensor_msgs.Image".into(),
            storage: Storage::Wire,
            support: Support::Unstamped,
            count: 0,
        })
        .collect()
}

fn specs(specs: &[&str]) -> Vec<String> {
    specs.iter().map(|spec| (*spec).to_string()).collect()
}

/// Cameras told apart by `frame_id` have to arrive on one topic. A shared target is the point, not a
/// conflict.
#[test]
fn several_streams_may_share_one_published_name() {
    let mut streams = streams(&["infrared_left", "infrared_right"]);
    rename(&mut streams, &specs(&["infrared_left:image", "infrared_right:image"])).unwrap();

    let channels: Vec<_> = streams.iter().map(|stream| sink::name(stream, "", '#')).collect();
    assert_eq!(channels, ["image#sensor_msgs.Image", "image#sensor_msgs.Image"]);
}

/// The recorded name stays put, so that picking and pacing keep matching the file rather than the
/// wire.
#[test]
fn renaming_leaves_the_recorded_name_alone() {
    let mut streams = streams(&["wheel_odometry"]);
    rename(&mut streams, &specs(&["wheel_odometry:source_odometry"])).unwrap();
    assert_eq!(streams[0].name, "wheel_odometry");
    assert_eq!(streams[0].published, "source_odometry");
}

/// Matching on the recorded name means `a:b` then `b:c` cannot pick up its own output, so the
/// arguments may be given in any order.
#[test]
fn renames_do_not_chain() {
    let mut streams = streams(&["camera_info", "infrared_left_camera_info"]);
    rename(
        &mut streams,
        &specs(&["camera_info:color_camera_info", "infrared_left_camera_info:camera_info"]),
    )
    .unwrap();
    assert_eq!(streams[0].published, "color_camera_info");
    assert_eq!(streams[1].published, "camera_info");
}

#[test]
fn the_prefix_is_applied_after_the_rename() {
    let mut streams = streams(&["infrared_left"]);
    rename(&mut streams, &specs(&["infrared_left:image"])).unwrap();
    assert_eq!(sink::name(&streams[0], "dimos/", '/'), "dimos/image/sensor_msgs.Image");
}

#[test]
fn a_rename_of_a_stream_that_is_not_replayed_is_an_error() {
    let mut streams = streams(&["color_image"]);
    let error = rename(&mut streams, &specs(&["lidar:points"])).unwrap_err().message();
    assert!(error.contains("no stream named lidar"), "{error}");
}

#[test]
fn a_rename_without_a_colon_is_an_error() {
    let mut streams = streams(&["color_image"]);
    assert!(rename(&mut streams, &specs(&["color_image"])).is_err());
    assert!(rename(&mut streams, &specs(&["color_image:"])).is_err());
}

#[test]
fn a_refused_rename_names_the_first_bad_argument() {
    let mut list = streams(&["a", "b"]);
    let error = rename(&mut list, &specs(&["a:x", "b", "c:y"])).unwrap_err();
    assert_eq!(error, RenameError::NoColon("b".to_string()));
    assert_eq!(
        error.message(),
        "--rename wants OLD:NEW, for example wheel_odometry:source_odometry, not b"
    );
    // What came before it has been applied.
    assert_eq!(list[0].published, "x");
    let error = rename(&mut list, &specs(&["b:"])).unwrap_err();
    assert_eq!(error, RenameError::EmptyName("b:".to_string()));
    assert_eq!(error.message(), "--rename b: leaves an empty name");
    let error = rename(&mut list, &specs(&["c:y"])).unwrap_err();
    assert_eq!(
        error,
        RenameError::NoStream { argument: "c:y".to_string(), old_name: "c".to_string() }
    );
    assert_eq!(error.message(), "--rename c:y: no stream named c is being replayed");
}

#[test]
fn the_order_of_renames_only_matters_for_one_stream() {
    let mut first = streams(&["a", "b", "a"]);
    let mut second = streams(&["a", "b", "a"]);
    rename(&mut first, &specs(&["a:x", "b:a"])).unwrap();
    rename(&mut second, &specs(&["b:a", "a:x"])).unwrap();
    assert_eq!(first, second);
    // Only the first stream of a name is renamed, and the last argument about it counts.
    assert_eq!(first[2].published, "a");
    rename(&mut first, &specs(&["a:y", "a:z"])).unwrap();
    assert_eq!(first[0].published, "z");
}

#[test]
fn streams_that_cannot_be_replayed_in_full_are_warned_about() {
    let mut stream = streams(&["lidar"]).remove(0);
    assert_eq!(
        stream_warning(&stream, Stamps::Scaled).unwrap(),
        "warning: lidar has no known timestamp field (sensor_msgs.Image); payloads replay unmodified"
    );
    assert_eq!(stream_warning(&stream, Stamps::Original), None);
    stream.msg_name = String::new();
    assert_eq!(
        stream_warning(&stream, Stamps::Shifted).unwrap(),
        "warning: lidar has no known timestamp field (unknown type); payloads replay unmodified"
    );
    stream.storage = Storage::Unsupported;
    assert_eq!(
        stream_warning(&stream, Stamps::Original).unwrap(),
        "warning: skipping lidar — its codec has no LCM wire form"
    );
    stream.msg_name = "unitree_go.LowState".to_string();
    assert_eq!(
        stream_warning(&stream, Stamps::Scaled).unwrap(),
        "warning: skipping lidar — unitree_go.LowState has no LCM wire form"
    );
    stream.storage = Storage::Wire;
    stream.support = Support::TfMessage;
    assert_eq!(stream_warning(&stream, Stamps::Scaled), None);
}

#[test]
fn listings_line_up() {
    for (name, count) in [("odom", 3u64), ("a_stream_name_that_is_longer_than_the_column", 1234567890)] {
        let mut stream = streams(&[name]).remove(0);
        stream.count = count;
        stream.published = "p".to_string();
        assert_eq!(
            list_line(&stream, "x/", '/'),
            format!("{:<32} {:>9}  {:<28} {}", name, count, "sensor_msgs.Image", "x/p/sensor_msgs.Image")
        );
    }
}

#[test]
fn a_pass_counts_what_becomes_of_each_message() {
    let mut pass = Pass::new();
    assert!(pass.skips(Storage::Unsupported));
    assert!(!pass.skips(Storage::Cdr));
    assert_eq!(pass.judge(Timing::Early, 0, None), Verdict::Skip);
    assert_eq!(pass.judge(Timing::Late, 0, Some(0)), Verdict::Stop);
    assert_eq!(pass.judge(Timing::Due, 0, None), Verdict::Paced);
    assert_eq!(pass.judge(Timing::Due, 0, Some(1)), Verdict::Paced);
    assert_eq!(pass.judge(Timing::Due, 1, Some(1)), Verdict::Gated);
    pass.published(false);
    pass.published(true);
    assert_eq!(pass.tally, Tally { published: 2, skipped: 2, restamped: 1 });

    let mut total = Tally::new();
    total.add_pass(&pass.tally);
    total.add_pass(&pass.tally);
    assert_eq!(total, Tally { published: 4, skipped: 4, restamped: 2 });
}

#[test]
fn the_first_message_anchors_the_stamps_and_a_gate_pins_them_anew() {
    let mut pass = Pass::new();
    assert_eq!(pass.retimer, Retimer::Original);
    pass.anchor(Stamps::Shifted, 40, 100);
    assert_eq!(pass.retimer, Retimer::Shifted { delta_ns: 60 });
    pass.repin(70, 200);
    assert_eq!(pass.retimer, Retimer::Shifted { delta_ns: 60 });
    let mut pass = Pass::new();
    pass.anchor(Stamps::Scaled, 40, 100);
    assert_eq!(pass.retimer, Retimer::Scaled { first_ns: 40, start_wall_ns: 100 });
    pass.repin(70, 200);
    assert_eq!(pass.retimer, Retimer::Scaled { first_ns: 70, start_wall_ns: 200 });
    // The clocks are anchored once.
    pass.anchor(Stamps::Original, 1, 2);
    assert_eq!(pass.retimer, Retimer::Scaled { first_ns: 70, start_wall_ns: 200 });
    // Stamps that are left alone are not moved, however far the clocks are apart.
    let mut pass = Pass::new();
    pass.anchor(Stamps::Original, i64::MIN, i64::MAX);
    assert_eq!(pass.retimer, Retimer::Original);
    assert!(pass.anchored);
}

/// Every message that is read is counted once, but for the one that ends the pass, and the first that is
/// not left out for want of a wire form anchors the clocks even where it comes before the start.
#[test]
fn a_whole_pass_counts_each_message_and_anchors_once() {
    let messages = [
        (Storage::Unsupported, Timing::Due, 5, false),
        (Storage::Wire, Timing::Early, 10, false),
        (Storage::Wire, Timing::Due, 20, true),
        (Storage::Unsupported, Timing::Late, 30, false),
        (Storage::Lz4, Timing::Due, 40, false),
        (Storage::Cdr, Timing::Late, 50, false),
        (Storage::Wire, Timing::Due, 60, false),
    ];
    let mut pass = Pass::new();
    let mut read = 0;
    for (storage, timing, wall_ns, substituted) in messages {
        read += 1;
        if pass.skips(storage) {
            continue;
        }
        match pass.weigh(Stamps::Shifted, 3, wall_ns, timing, 0, None) {
            Verdict::Skip => continue,
            Verdict::Stop => break,
            _ => pass.published(substituted),
        }
        assert_eq!(pass.retimer, Retimer::Shifted { delta_ns: 7 });
    }
    assert_eq!(read, 6);
    assert_eq!(pass.tally, Tally { published: 2, skipped: 3, restamped: 1 });
    assert_eq!(pass.tally.published + pass.tally.skipped, read - 1);
}

#[test]
fn the_summary_only_speaks_of_what_happened() {
    let mut tally = Tally { published: 7, skipped: 0, restamped: 0 };
    assert_eq!(tally.report(0), "published 7 message(s)\n");
    tally.skipped = 2;
    tally.restamped = 1;
    assert_eq!(
        tally.report(3),
        "published 7 message(s)\nskipped 2 message(s)\n1 message(s) carried a stamp from another \
         clock; used the recorded arrival time instead\n3 lockstep reply(s) never arrived\n"
    );
}

#[test]
fn the_last_millisecond_is_not_slept_through() {
    assert_eq!(nap(1_000_000), None);
    assert_eq!(nap(1_000_001), Some(1));
    assert_eq!(nap(0), None);
}
