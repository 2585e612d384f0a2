use rapid_rust_replay::sink::{channel_answers, key_expr, name, names, separator, Transport};
use rapid_rust_replay::source::{Storage, Stream};
use rapid_rust_replay::stamp::Support;

fn stream(name: &str, msg_name: &str) -> Stream {
    Stream {
        name: name.into(),
        published: name.into(),
        msg_name: msg_name.into(),
        storage: Storage::Wire,
        support: Support::Unstamped,
        count: 0,
    }
}

#[test]
fn lcm_and_zenoh_names_match_the_dimos_conventions() {
    let color = stream("color_image", "sensor_msgs.Image");
    assert_eq!(name(&color, "", '#'), "color_image#sensor_msgs.Image");
    assert_eq!(name(&color, "", '/'), "color_image/sensor_msgs.Image");
    assert_eq!(name(&color, "dimos/", '/'), "dimos/color_image/sensor_msgs.Image");
}

#[test]
fn streams_without_a_known_type_get_no_suffix() {
    assert_eq!(name(&stream("raw", ""), "", '#'), "raw");
}

#[test]
fn a_watched_topic_matches_the_typed_lcm_channel() {
    assert!(channel_answers("fused_odom", "fused_odom"));
    assert!(channel_answers("fused_odom#nav_msgs.Odometry", "fused_odom"));
    assert!(!channel_answers("fused_odometry", "fused_odom"));
    assert!(!channel_answers("wheel_odom#nav_msgs.Odometry", "fused_odom"));
}

/// `topic/**` has to cover the bare key too, or an untyped publisher would never be heard.
#[test]
fn a_watched_topic_matches_the_typed_zenoh_key() {
    let declared = zenoh::key_expr::KeyExpr::new(key_expr("fused_odom")).unwrap();
    for reply in ["fused_odom", "fused_odom/nav_msgs.Odometry"] {
        let key = zenoh::key_expr::KeyExpr::new(reply).unwrap();
        assert!(declared.intersects(&key), "{declared} should cover {key}");
    }
    assert!(!declared.intersects(&zenoh::key_expr::KeyExpr::new("wheel_odom").unwrap()));
}

#[test]
fn an_explicit_wildcard_is_left_as_written() {
    assert_eq!(key_expr("odom/**"), "odom/**");
}

#[test]
fn a_watched_key_has_no_empty_chunk() {
    assert_eq!(key_expr("odom"), "odom/**");
    assert_eq!(key_expr("odom//"), "odom/**");
}

#[test]
fn every_published_channel_answers_its_topic() {
    let streams = [stream("color_image", "sensor_msgs.Image"), stream("raw", "")];
    for prefix in ["", "dimos/"] {
        let channels = names(&streams, prefix, separator(Transport::Lcm));
        for (stream, channel) in streams.iter().zip(&channels) {
            assert!(channel_answers(channel, &format!("{prefix}{}", stream.published)));
        }
    }
    assert_eq!(
        names(&streams, "x/", separator(Transport::Zenoh)),
        ["x/color_image/sensor_msgs.Image", "x/raw"]
    );
}
