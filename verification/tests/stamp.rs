use rapid_rust_replay::cdr::messages::{
    Header, Quaternion, TFMessage, Time, Transform, TransformStamped, Vector3,
};
use rapid_rust_replay::cdr::reader::F64;
use rapid_rust_replay::stamp::audit::{and_more, Audit, Spans, Throttle, Warning};
use rapid_rust_replay::stamp::filter::{RuleError, TfFilter};
use rapid_rust_replay::stamp::{
    nanos_from_parts, nanos_to_parts, read_nanos, recording_times, same_clock, stamp_of, support_for,
    write_nanos, Payload, Retimer, StampError, Support, NANOS_PER_SEC,
};

const SEC: i32 = 1_781_260_015;
const NSEC: i32 = 113_250_000;

/// The wire bytes of a message whose stamp is at `offset`, with a tail that tells every byte apart.
fn stamped(offset: usize, sec: i32, nsec: i32, tail: usize) -> Vec<u8> {
    let mut bytes: Vec<u8> = (0..offset).map(|byte| (byte + 1) as u8).collect();
    bytes.extend_from_slice(&sec.to_be_bytes());
    bytes.extend_from_slice(&nsec.to_be_bytes());
    bytes.extend((0..tail).map(|byte| (byte * 3) as u8));
    bytes
}

fn wire(payload: &Payload) -> &[u8] {
    match payload {
        Payload::Wire(bytes) => bytes,
        other => panic!("{other:?} was taken apart"),
    }
}

fn parts_at(bytes: &[u8], offset: usize) -> (i32, i32) {
    let word = |at: usize| i32::from_be_bytes(bytes[at..at + 4].try_into().unwrap());
    (word(offset), word(offset + 4))
}

fn zero() -> F64 {
    F64 { bits: 0 }
}

fn geometry_stamped(frame: &str, child: &str) -> TransformStamped {
    TransformStamped {
        header: Header {
            seq: 0,
            stamp: Time { sec: SEC, nsec: NSEC },
            frame_id: frame.to_string(),
        },
        child_frame_id: child.to_string(),
        transform: Transform {
            translation: Vector3 { x: zero(), y: zero(), z: zero() },
            rotation: Quaternion { x: zero(), y: zero(), z: zero(), w: zero() },
        },
    }
}

fn tf(edges: &[(&str, &str)]) -> Payload {
    let transforms = edges.iter().map(|(p, c)| geometry_stamped(p, c)).collect();
    Payload::Tf(TFMessage { transforms })
}

fn transforms(payload: &Payload) -> &[TransformStamped] {
    match payload {
        Payload::Tf(message) => &message.transforms,
        other => panic!("{other:?} is not a tf message"),
    }
}

/// Every fixed offset is that of `8 + 4 * leading length fields + 4` bytes; the one bare time has a
/// length field instead of a sequence number.
#[test]
fn offsets_follow_the_leading_length_fields() {
    let at = |lengths: usize| Support::Fixed(8 + 4 * lengths + 4);
    for name in [
        "geometry_msgs.PointStamped",
        "geometry_msgs.PoseStamped",
        "geometry_msgs.PoseWithCovarianceStamped",
        "geometry_msgs.TransformStamped",
        "geometry_msgs.TwistStamped",
        "geometry_msgs.TwistWithCovarianceStamped",
        "geometry_msgs.WrenchStamped",
        "nav_msgs.Odometry",
        "sensor_msgs.Imu",
        "foxglove_msgs.CompressedVideo",
    ] {
        assert_eq!(support_for(name), at(0), "{name}");
    }
    for name in [
        "nav_msgs.LineSegments3D",
        "nav_msgs.OccupancyGrid",
        "nav_msgs.Path",
        "sensor_msgs.CameraInfo",
        "sensor_msgs.CompressedImage",
        "sensor_msgs.Image",
        "vision_msgs.Detection2D",
        "vision_msgs.Detection2DArray",
        "vision_msgs.Detection3D",
        "vision_msgs.Detection3DArray",
    ] {
        assert_eq!(support_for(name), at(1), "{name}");
    }
    assert_eq!(support_for("sensor_msgs.Joy"), at(2));
    assert_eq!(support_for("sensor_msgs.PointCloud2"), at(2));
    assert_eq!(support_for("sensor_msgs.JointState"), at(4));
    assert_eq!(support_for("tf2_msgs.TFMessage"), Support::TfMessage);
    assert_eq!(support_for("geometry_msgs.Transform"), Support::TfMessage);
    assert_eq!(support_for("sensor_msgs.LaserScan"), Support::Unstamped);
    assert_eq!(support_for(""), Support::Unstamped);
}

/// Patching must touch only the stamp: every other byte stays identical.
#[test]
fn patch_leaves_the_rest_of_the_payload_alone() {
    let original = stamped(16, SEC, NSEC, 2048);
    let mut patched = Payload::Wire(original.clone());

    let retimer = Retimer::Shifted { delta_ns: 1000 * NANOS_PER_SEC };
    retimer.apply(support_for("sensor_msgs.Image"), &mut patched, 0, &[]).unwrap();

    let patched = wire(&patched);
    assert_eq!(original.len(), patched.len());
    assert_eq!(original[..16], patched[..16]);
    assert_eq!(original[24..], patched[24..]);
    assert_eq!(parts_at(patched, 16), (SEC + 1000, NSEC));
}

#[test]
fn tf_message_stamps_all_transforms() {
    let mut payload = tf(&[("odom", "base_link"), ("base_link", "camera")]);

    let retimer = Retimer::Shifted { delta_ns: 60 * NANOS_PER_SEC };
    retimer.apply(Support::TfMessage, &mut payload, 0, &[]).unwrap();

    let decoded = transforms(&payload);
    assert_eq!(decoded.len(), 2);
    for transform in decoded {
        assert_eq!(transform.header.stamp.sec, SEC + 60);
    }
    assert_eq!(decoded[1].child_frame_id, "camera");
}

fn filtered(filter: &mut TfFilter, edges: &[(&str, &str)]) -> Option<Vec<(String, String)>> {
    let mut payload = tf(edges);
    if !filter.apply(&mut payload).unwrap() {
        return None;
    }
    Some(
        transforms(&payload)
            .iter()
            .map(|t| (t.header.frame_id.clone(), t.child_frame_id.clone()))
            .collect(),
    )
}

/// Keeping the mounting and dropping the odometry is the whole point of the filter.
#[test]
fn the_recorded_odometry_edge_goes_and_the_mounting_stays() {
    let mut filter = TfFilter::new(&["odom:mid360_link".into()]).unwrap();
    let kept = filtered(
        &mut filter,
        &[("base_link", "mid360_link"), ("odom", "mid360_link"), ("base_link", "camera_link")],
    )
    .unwrap();
    assert_eq!(
        kept,
        [
            ("base_link".to_string(), "mid360_link".to_string()),
            ("base_link".to_string(), "camera_link".to_string())
        ]
    );
    assert!(filter.report().contains("odom -> mid360_link (1)"), "{}", filter.report());
}

/// A replay reproduces the recording unless asked otherwise, including the odometry edges a live graph
/// might also be publishing.
#[test]
fn nothing_is_dropped_without_a_rule() {
    let mut filter = TfFilter::new(&[]).unwrap();
    for edge in [("odom", "x"), ("map", "x"), ("visual_odom", "x"), ("anything", "base_link")] {
        assert_eq!(
            filtered(&mut filter, &[edge]),
            Some(vec![(edge.0.to_string(), edge.1.to_string())]),
            "{edge:?} should have been replayed"
        );
    }
}

/// A message with nothing left is not worth putting on the wire, and the caller needs to know rather
/// than publishing an empty TFMessage.
#[test]
fn a_message_of_only_dropped_edges_is_not_published() {
    let mut filter = TfFilter::new(&["odom:base_link".into()]).unwrap();
    assert_eq!(filtered(&mut filter, &[("odom", "base_link")]), None);
    assert!(filter.report().contains("had nothing left"), "{}", filter.report());
}

#[test]
fn an_extra_rule_may_wildcard_either_side() {
    let mut filter = TfFilter::new(&["*:mid360_link".into()]).unwrap();
    assert_eq!(filtered(&mut filter, &[("base_link", "mid360_link")]), None);

    let mut filter = TfFilter::new(&["camera_link:*".into()]).unwrap();
    assert_eq!(filtered(&mut filter, &[("camera_link", "camera_depth_frame")]), None);
}

/// Zero has to print, or an empty result reads the same as a filter that never ran.
#[test]
fn a_clean_recording_still_reports_the_filter_ran() {
    let mut filter = TfFilter::new(&[]).unwrap();
    assert!(filtered(&mut filter, &[("base_link", "camera_link")]).is_some());
    assert_eq!(filter.report(), "dropped 0 tf transform(s)\n");
}

#[test]
fn a_drop_tf_rule_without_a_colon_is_an_error() {
    assert!(TfFilter::new(&["odom".into()]).is_err());
    assert!(TfFilter::new(&["odom:".into()]).is_err());
    assert!(TfFilter::new(&[":base_link".into()]).is_err());
}

#[test]
fn a_refused_rule_says_why() {
    let error = TfFilter::new(&["a:b".into(), "odom".into(), ":".into()]).unwrap_err();
    assert_eq!(error, RuleError::NoColon("odom".to_string()));
    assert_eq!(error.message(), "--drop-tf wants PARENT:CHILD, not odom");
    let error = TfFilter::new(&["odom:".into()]).unwrap_err();
    assert_eq!(error, RuleError::EmptyFrame("odom:".to_string()));
    assert_eq!(error.message(), "--drop-tf odom: has an empty frame; use * to match any");
}

#[test]
fn drops_are_counted_per_edge_and_reported_in_order() {
    let mut filter = TfFilter::new(&["odom:*".into(), "map:b:c".into()]).unwrap();
    filtered(&mut filter, &[("odom", "z"), ("odom", "a"), ("map", "b:c"), ("map", "b")]);
    filtered(&mut filter, &[("odom", "z")]);
    assert_eq!(
        filter.report(),
        "dropped 4 tf transform(s):\n  map -> b:c (1)\n  odom -> a (1)\n  odom -> z (2)\n  1 tf \
         message(s) had nothing left and were not published\n"
    );
    // Filtering what was kept again drops nothing.
    assert_eq!(
        filtered(&mut filter, &[("map", "b")]),
        Some(vec![("map".to_string(), "b".to_string())])
    );
    // A payload that is no tf message is an error, and one without transforms is not worth sending.
    let mut bytes = Payload::Wire(vec![1]);
    assert_eq!(filter.apply(&mut bytes), Err(StampError::InvalidTf));
    assert_eq!(filtered(&mut filter, &[]), None);
    assert_eq!(filter.emptied, 2);
}

/// Only what was dropped is listed.
#[test]
fn one_dropped_edge_makes_one_line_of_the_report() {
    let mut filter = TfFilter::new(&["odom:base_link".into()]).unwrap();
    assert_eq!(filtered(&mut filter, &[("odom", "base_link")]), None);
    assert_eq!(
        filter.report(),
        "dropped 1 tf transform(s):\n  odom -> base_link (1)\n  1 tf message(s) had nothing left and \
         were not published\n"
    );
}

fn audit() -> Audit {
    Audit::new(vec!["lidar".to_string()])
}

fn rendered(ns: i64) -> String {
    format!("{:.3}s", ns as f64 / 1e9)
}

fn report(audit: &Audit) -> String {
    let spans = audit
        .streams
        .iter()
        .map(|stream| Spans {
            ahead: rendered(stream.worst_ahead_ns),
            backstep: rendered(stream.worst_backstep_ns),
        })
        .collect();
    audit.report(&spans)
}

/// Feeds one image stamped `stamp_ns` and received at `received_ns`, which is the pair the checks
/// compare.
fn observe(audit: &mut Audit, stamp_ns: i64, received_ns: i64) -> Vec<Warning> {
    let (sec, nsec) = nanos_to_parts(stamp_ns);
    let payload = Payload::Wire(stamped(16, sec, nsec, 30));
    audit.inspect(0, support_for("sensor_msgs.Image"), &payload, received_ns, 0)
}

fn at(sec: i64) -> i64 {
    (i64::from(SEC) + sec) * NANOS_PER_SEC
}

/// A message cannot have been stamped after the recorder took delivery of it.
#[test]
fn a_stamp_from_after_its_own_arrival_is_reported() {
    let mut audit = audit();
    observe(&mut audit, at(0) + 2 * NANOS_PER_SEC, at(0));
    assert!(
        report(&audit).contains("lidar: 1 stamp(s) up to 2.000s after arrival"),
        "{}",
        report(&audit)
    );
}

/// Two clocks a few milliseconds apart are not a broken clock, and warning about them every message
/// would bury the ones that are.
#[test]
fn a_stamp_a_few_milliseconds_early_is_left_alone() {
    let mut audit = audit();
    observe(&mut audit, at(0) + NANOS_PER_SEC / 1000, at(0));
    assert_eq!(report(&audit), "");
}

/// Detected by order rather than magnitude: bad stamps scatter from a few ms to 68s behind, and a real
/// capture latency is the same size as the small ones.
#[test]
fn a_stamp_that_walks_backwards_is_reported() {
    let mut audit = audit();
    observe(&mut audit, at(10), at(10));
    observe(&mut audit, at(11), at(11));
    observe(&mut audit, at(9), at(12));
    assert!(
        report(&audit).contains("lidar: 1 backwards step(s) up to 2.000s"),
        "{}",
        report(&audit)
    );
}

#[test]
fn stamps_that_only_move_forward_are_left_alone() {
    let mut audit = audit();
    for step in 0..5 {
        observe(&mut audit, at(step), at(step));
    }
    assert_eq!(report(&audit), "");
}

/// An uptime stamp is already counted and replaced when retiming; measuring it against the epoch would
/// report the same defect a second time as an implausible 56-year backwards step.
#[test]
fn a_stamp_from_another_clock_is_not_reported_twice() {
    let mut audit = audit();
    observe(&mut audit, at(0), at(0));
    observe(&mut audit, 1278 * NANOS_PER_SEC, at(1));
    observe(&mut audit, at(2), at(2));
    assert_eq!(report(&audit), "");
}

fn observe_tf(audit: &mut Audit, edges: &[(&str, &str)], now_ns: u64) -> Vec<Warning> {
    audit.inspect(0, Support::TfMessage, &tf(edges), at(0), now_ns)
}

/// The recording's `odom -> mid360_link` meets the graph's own mounting edge, and the lidar pose
/// resolves to whichever arrived last.
#[test]
fn a_frame_with_two_parents_is_reported() {
    let mut audit = audit();
    observe_tf(&mut audit, &[("base_link", "mid360_link"), ("base_link", "camera_link")], 0);
    observe_tf(&mut audit, &[("odom", "mid360_link")], 0);
    assert!(
        report(&audit).contains("mid360_link has 2 parents: base_link, odom"),
        "{}",
        report(&audit)
    );
}

/// Frames in two trees cannot be related to each other at all.
#[test]
fn frames_that_do_not_reach_one_root_are_reported() {
    let mut audit = audit();
    observe_tf(&mut audit, &[("base_link", "camera_link"), ("map", "waypoint")], 0);
    assert!(
        report(&audit).contains("2 separate trees, rooted at base_link, map"),
        "{}",
        report(&audit)
    );
}

/// Each kind of defect, and nothing else, makes the report say something.
#[test]
fn the_report_is_empty_exactly_when_nothing_is_wrong() {
    let tolerance = NANOS_PER_SEC / 100;
    let clean = || {
        let mut audit = audit();
        observe(&mut audit, at(0) + tolerance, at(0));
        observe(&mut audit, at(0) + tolerance, at(1));
        observe_tf(&mut audit, &[("odom", "base_link"), ("base_link", "camera_link")], 0);
        observe_tf(&mut audit, &[("odom", "base_link")], 0);
        audit
    };
    assert_eq!(report(&clean()), "");

    let mut late = clean();
    observe(&mut late, at(2) + tolerance + 1, at(2));
    assert_eq!(
        report(&late),
        "stamps that cannot be right:\n  lidar: 1 stamp(s) up to 0.010s after arrival\n"
    );

    let mut back = clean();
    observe(&mut back, at(0) + tolerance - 1, at(2));
    assert_eq!(
        report(&back),
        "stamps that cannot be right:\n  lidar: 1 backwards step(s) up to 0.000s\n"
    );

    let mut doubled = clean();
    observe_tf(&mut doubled, &[("odom", "camera_link")], 0);
    assert_eq!(
        report(&doubled),
        "tf does not describe one tree:\n  camera_link has 2 parents: base_link, odom\n"
    );

    let mut split = clean();
    observe_tf(&mut split, &[("map", "waypoint")], 0);
    assert_eq!(
        report(&split),
        "tf does not describe one tree:\n  2 separate trees, rooted at map, odom\n"
    );
}

/// A tree arrives an edge at a time, so a frame is its own root until its parent's first message lands.
/// Nothing may be reported for that.
#[test]
fn a_tree_assembled_out_of_order_is_not_a_split_tree() {
    let mut audit = audit();
    observe_tf(&mut audit, &[("base_link", "camera_link")], 0);
    observe_tf(&mut audit, &[("odom", "base_link")], 0);
    assert_eq!(report(&audit), "");
}

/// The count that is swallowed has to be carried, or the log understates how much of the recording is
/// affected.
#[test]
fn repeat_warnings_are_throttled_but_still_counted() {
    let mut audit = audit();
    for step in 0..100 {
        observe(&mut audit, at(step) + 2 * NANOS_PER_SEC, at(step));
    }
    assert!(report(&audit).contains("100 stamp(s) up to 2.000s"), "{}", report(&audit));
    assert!(audit.ahead.suppressed >= 98, "{} suppressed", audit.ahead.suppressed);
}

#[test]
fn a_throttle_opens_again_after_its_window() {
    let second = 1_000_000_000;
    let mut throttle = Throttle::new();
    assert_eq!(throttle.ready(10 * second), Some(0));
    assert_eq!(throttle.ready(11 * second), None);
    assert_eq!(throttle.ready(15 * second - 1), None);
    assert_eq!(throttle.ready(15 * second), Some(2));
    assert_eq!(throttle.ready(3 * second), None);
    assert_eq!(and_more(0), "");
    assert_eq!(and_more(2), " (2 more since the last warning)");
}

#[test]
fn warnings_name_the_stream_and_carry_what_was_swallowed() {
    let mut audit = audit();
    let said = observe(&mut audit, at(0) + 2 * NANOS_PER_SEC, at(0));
    assert_eq!(said.len(), 1);
    assert_eq!(said[0].span_ns(), Some(2 * NANOS_PER_SEC));
    assert_eq!(
        said[0].message("2.000s"),
        "warning: lidar is stamped 2.000s after the recorder received it"
    );
    // Ahead is held back now, but stepping back is another defect.
    let said = observe(&mut audit, at(1) + NANOS_PER_SEC / 2, at(1));
    assert_eq!(said.len(), 1);
    assert_eq!(
        said[0].message("0.500s"),
        "warning: lidar stamps went back 0.500s while its arrivals moved forward"
    );
    assert_eq!(
        report(&audit),
        "stamps that cannot be right:\n  lidar: 2 stamp(s) up to 2.000s after arrival, 1 backwards \
         step(s) up to 0.500s\n"
    );
}

#[test]
fn a_split_is_only_warned_about_once_it_has_lasted() {
    let window = 5_000_000_000u64;
    let mut audit = audit();
    let edges = [("a", "x"), ("b", "y")];
    assert_eq!(observe_tf(&mut audit, &edges, 1), vec![]);
    assert_eq!(observe_tf(&mut audit, &edges, window), vec![]);
    let said = observe_tf(&mut audit, &edges, window + 1);
    assert_eq!(said.len(), 1);
    assert_eq!(said[0].span_ns(), None);
    assert_eq!(said[0].message(""), "warning: tf holds 2 separate trees, rooted at a, b");
    // One more edge joins them, and the clock starts anew.
    assert_eq!(observe_tf(&mut audit, &[("a", "b")], window + 2), vec![]);
    assert_eq!(audit.split_since, None);
}

#[test]
fn a_doubled_frame_is_warned_about_with_all_its_parents() {
    let mut audit = audit();
    let said = observe_tf(&mut audit, &[("odom", "x"), ("base", "x"), ("map", "x"), ("map", "x")], 7);
    assert_eq!(said.len(), 1);
    assert_eq!(
        said[0].message(""),
        "warning: tf gives x more than one parent (base, odom)"
    );
    assert_eq!(audit.doubled.suppressed, 1);
    assert_eq!(
        report(&audit),
        "tf does not describe one tree:\n  x has 3 parents: base, map, odom\n  3 separate trees, \
         rooted at base, map, odom\n"
    );
}

#[test]
fn payloads_without_a_stamp_to_hold_are_not_audited() {
    let mut audit = audit();
    let short = Payload::Wire(vec![0; 19]);
    assert_eq!(audit.inspect(0, Support::Fixed(12), &short, at(0), 0), vec![]);
    assert_eq!(audit.inspect(0, Support::TfMessage, &short, at(0), 0), vec![]);
    assert_eq!(audit.inspect(0, Support::Unstamped, &short, at(0), 0), vec![]);
    let ahead = Payload::Wire(stamped(12, SEC + 5, 0, 0));
    assert_eq!(audit.inspect(0, Support::Fixed(12), &ahead, 0, 0), vec![]);
    assert_eq!(report(&audit), "");
}

/// A driver that stamps with system uptime must not drag the message back to 1970; reception time is
/// the only usable clock in that case.
#[test]
fn stamps_from_another_clock_fall_back_to_reception_time() {
    let mut buf = Payload::Wire(stamped(16, 1278, 135_574_598, 30));
    let received_ns = 1_781_260_015 * NANOS_PER_SEC;

    let substituted = Retimer::Shifted { delta_ns: 0 }
        .apply(support_for("sensor_msgs.Image"), &mut buf, received_ns, &[])
        .unwrap();

    assert!(substituted, "an uptime stamp should be reported, not silently used");
    assert_eq!(parts_at(wire(&buf), 16), (1_781_260_015, 0));
}

#[test]
fn a_stamp_on_the_recorders_clock_is_kept() {
    let mut buf = Payload::Wire(stamped(16, SEC, NSEC, 30));
    let received_ns = i64::from(SEC) * NANOS_PER_SEC + 4 * NANOS_PER_SEC;

    let substituted = Retimer::Shifted { delta_ns: 0 }
        .apply(support_for("sensor_msgs.Image"), &mut buf, received_ns, &[])
        .unwrap();

    assert!(!substituted);
    assert_eq!(parts_at(wire(&buf), 16).1, NSEC);
}

#[test]
fn unset_stamps_fall_back_to_reception_time() {
    let mut buf = Payload::Wire(stamped(12, 0, 0, 30));
    let retimer = Retimer::Shifted { delta_ns: 0 };
    let received_ns = (1234.5f64 * 1e9).round() as i64;
    assert_eq!(retimer.apply(Support::Fixed(12), &mut buf, received_ns, &[]), Ok(true));

    assert_eq!(parts_at(wire(&buf), 12), (1234, 500_000_000));
}

#[test]
fn scaled_retimer_compresses_intervals_by_rate() {
    let first_ns = 100 * NANOS_PER_SEC;
    let retimer = Retimer::Scaled { first_ns, start_wall_ns: 5000 * NANOS_PER_SEC };
    let map = |ns: i64| retimer.map(ns, ((ns - first_ns) as f64 / 2.0).round() as i64);
    assert_eq!(map(100 * NANOS_PER_SEC), 5000 * NANOS_PER_SEC);
    assert_eq!(map(110 * NANOS_PER_SEC), 5005 * NANOS_PER_SEC);
}

/// A whole-second shift must leave the nanosecond field bit-identical; going through floating-point
/// seconds would perturb it by ~100 ns.
#[test]
fn shifting_preserves_nanosecond_precision() {
    let mut buf = Payload::Wire(stamped(12, SEC, NSEC, 30));
    Retimer::Shifted { delta_ns: 1000 * NANOS_PER_SEC }
        .apply(Support::Fixed(12), &mut buf, 0, &[])
        .unwrap();

    assert_eq!(parts_at(wire(&buf), 12), (SEC + 1000, NSEC));
}

/// Each stamp of a scaled tf message lands by its own scaled time.
#[test]
fn scaled_stamps_land_one_by_one() {
    let mut payload = tf(&[("odom", "a"), ("odom", "b")]);
    if let Payload::Tf(message) = &mut payload {
        message.transforms[1].header.stamp = Time { sec: 0, nsec: 5 };
    }
    let received_ns = at(3);
    let times = recording_times(Support::TfMessage, &payload, received_ns);
    assert_eq!(times, [i64::from(SEC) * NANOS_PER_SEC + i64::from(NSEC), received_ns]);
    let first_ns = at(0);
    let scaled: Vec<i64> = times.iter().map(|ns| (ns - first_ns) / 2).collect();
    let retimer = Retimer::Scaled { first_ns, start_wall_ns: 50 * NANOS_PER_SEC };
    assert_eq!(retimer.apply(Support::TfMessage, &mut payload, received_ns, &scaled), Ok(true));
    let stamps: Vec<Time> = transforms(&payload).iter().map(|t| t.header.stamp).collect();
    assert_eq!(
        stamps,
        [Time { sec: 50, nsec: NSEC / 2 }, Time { sec: 51, nsec: 500_000_000 }]
    );
}

#[test]
fn original_stamps_stay_whatever_the_payload() {
    for payload in [Payload::Wire(vec![1, 2]), tf(&[("a", "b")])] {
        let support = match payload {
            Payload::Wire(_) => Support::Fixed(12),
            Payload::Tf(_) => Support::TfMessage,
        };
        let mut same = match &payload {
            Payload::Wire(bytes) => Payload::Wire(bytes.clone()),
            Payload::Tf(_) => tf(&[("a", "b")]),
        };
        assert_eq!(Retimer::Original.apply(support, &mut same, 5, &[]), Ok(false));
        assert_eq!(same, payload);
        let retimer = Retimer::Shifted { delta_ns: 1 };
        assert_eq!(retimer.apply(Support::Unstamped, &mut same, 5, &[]), Ok(false));
        assert_eq!(same, payload);
    }
}

#[test]
fn a_payload_without_room_for_its_stamp_is_an_error() {
    let retimer = Retimer::Shifted { delta_ns: 1 };
    let mut short = Payload::Wire(vec![0; 19]);
    let error = retimer.apply(Support::Fixed(12), &mut short, 5, &[]).unwrap_err();
    assert_eq!(error, StampError::TooShort { len: 19, offset: 12 });
    assert_eq!(
        error.message(),
        "payload is 19 bytes, too short to hold a stamp at offset 12"
    );
    let error = retimer.apply(Support::TfMessage, &mut short, 5, &[]).unwrap_err();
    assert_eq!(error, StampError::InvalidTf);
    assert_eq!(error.message(), "invalid LCM TFMessage");
    assert_eq!(recording_times(Support::Fixed(12), &short, 5), Vec::<i64>::new());
}

#[test]
fn the_stamp_of_a_payload_is_its_first() {
    let bytes = Payload::Wire(stamped(20, SEC, NSEC, 1));
    let expected = i64::from(SEC) * NANOS_PER_SEC + i64::from(NSEC);
    assert_eq!(stamp_of(Support::Fixed(20), &bytes), Some(expected));
    assert_eq!(stamp_of(Support::Fixed(22), &bytes), None);
    assert_eq!(stamp_of(Support::Unstamped, &bytes), None);
    assert_eq!(stamp_of(Support::TfMessage, &bytes), None);
    assert_eq!(stamp_of(Support::TfMessage, &tf(&[("a", "b"), ("c", "d")])), Some(expected));
    assert_eq!(stamp_of(Support::TfMessage, &tf(&[])), None);
    assert_eq!(stamp_of(Support::Fixed(12), &Payload::Wire(stamped(12, 0, 7, 0))), None);
}

#[test]
fn times_survive_a_stamp() {
    for ns in [NANOS_PER_SEC, 1_781_260_015_113_250_000, 2_147_483_647_999_999_999] {
        let (sec, nsec) = nanos_to_parts(ns);
        assert_eq!(nanos_from_parts(sec, nsec), Some(ns));
        let mut bytes = vec![7u8; 20];
        write_nanos(&mut bytes, 5, ns);
        assert_eq!(read_nanos(&bytes, 5), Some(ns));
        assert_eq!(bytes[..5], [7; 5]);
        assert_eq!(bytes[13..], [7; 7]);
    }
    assert_eq!(nanos_to_parts(-1), (0, 0));
    assert_eq!(nanos_to_parts(i64::MAX), (i32::MAX, 854_775_807));
    assert_eq!(nanos_from_parts(0, 5), None);
    assert_eq!(nanos_from_parts(1, -1), Some(999_999_999));
}

#[test]
fn clocks_more_than_an_hour_apart_are_not_the_same() {
    let hour = 3600 * NANOS_PER_SEC;
    assert!(same_clock(at(0), at(0) + hour));
    assert!(!same_clock(at(0), at(0) + hour + 1));
    assert!(same_clock(at(0) + hour, at(0)));
    assert!(!same_clock(at(0) + hour + 1, at(0)));
    assert!(same_clock(1, 0));
    assert!(!same_clock(i64::MAX, i64::MIN));
}

/// Every defect is warned about, or spoken of by a later warning, or still waits for one.
#[test]
fn no_defect_goes_uncounted() {
    let second = 1_000_000_000u64;
    let times: Vec<u64> = (0..50).map(|step| step * step % 37 * second + step).collect();
    let mut throttle = Throttle::new();
    let mut said: Vec<(u64, u64)> = Vec::new();
    for time in &times {
        if let Some(suppressed) = throttle.ready(*time) {
            said.push((*time, suppressed));
        }
    }
    let carried: u64 = said.iter().map(|(_, suppressed)| suppressed).sum();
    assert_eq!(said.len() as u64 + carried + throttle.suppressed, times.len() as u64);
    assert_eq!(said[0], (0, 0));
    assert!(said.windows(2).all(|pair| pair[0].0 + 5 * second <= pair[1].0));
}

/// Edges may arrive in any order.
#[test]
fn edges_form_the_same_tree_in_any_order() {
    let mut one = audit();
    let mut other = audit();
    observe_tf(&mut one, &[("odom", "base"), ("map", "odom"), ("map", "base")], 0);
    observe_tf(&mut other, &[("map", "base"), ("map", "odom"), ("odom", "base")], 0);
    assert_eq!(one.parents, other.parents);
}
