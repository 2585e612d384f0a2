use rapid_rust_replay::cdr::reader::F64;
use rapid_rust_replay::lockstep::{Lockstep, Outstanding, PairingError, Waiting};
use rapid_rust_replay::source::{Storage, Stream};
use rapid_rust_replay::stamp::Support;
use rapid_rust_replay::text::split_once;

fn streams(names: &[&str]) -> Vec<Stream> {
    names
        .iter()
        .map(|name| Stream {
            name: (*name).into(),
            published: "renamed".into(),
            msg_name: "nav_msgs.Odometry".into(),
            storage: Storage::Wire,
            support: Support::Fixed(12),
            count: 0,
        })
        .collect()
}

fn seconds(value: f64) -> F64 {
    F64 { bits: value.to_bits() }
}

fn waiting_since(replies_before: u64, published_at_ns: u64, ts: f64) -> Outstanding {
    Outstanding { replies_before, published_at_ns, recorded_ts: seconds(ts), first_reply_ns: None }
}

#[test]
fn a_pairing_needs_both_halves() {
    assert_eq!(split_once("wheel_odom:fused_odom", ':'), Some(("wheel_odom", "fused_odom")));
    assert_eq!(split_once("wheel_odom", ':'), None);
}

/// The stream is found by its recorded name, and the reply topic is taken as it is written.
#[test]
fn a_pairing_names_a_stream_and_a_topic() {
    let streams = streams(&["imu", "wheel_odom", "wheel_odom"]);
    let (lockstep, topic) = Lockstep::open("wheel_odom:fused:odom", &streams, 7).unwrap();
    assert_eq!(lockstep.stream, 1);
    assert_eq!(lockstep.timeouts, 0);
    assert_eq!(lockstep.timeout_ns, 7);
    assert_eq!(topic, "fused:odom");

    let error = Lockstep::open("wheel_odom", &streams, 7).unwrap_err();
    assert_eq!(error, PairingError::NoColon);
    assert_eq!(
        error.message(),
        "--lockstep wants STREAM:TOPIC, for example wheel_odom:fused_odom"
    );
    let error = Lockstep::open("renamed:fused_odom", &streams, 7).unwrap_err();
    assert_eq!(error, PairingError::NotReplayed("renamed".to_string()));
    assert_eq!(error.message(), "--lockstep waits on renamed, which is not being replayed");
}

#[test]
fn only_a_message_that_went_out_is_waited_for_and_only_once() {
    let (mut lockstep, _) = Lockstep::open("imu:odom", &streams(&["imu"]), 1_000).unwrap();
    assert_eq!(lockstep.wait(), None);
    lockstep.sent(seconds(2.5), 3, 100);
    assert_eq!(lockstep.wait(), Some(waiting_since(3, 100, 2.5)));
    assert_eq!(lockstep.wait(), None);
    assert_eq!(lockstep.deadline(200), 1_200);
    lockstep.timed_out();
    assert_eq!(lockstep.timeouts, 1);
}

#[test]
fn a_reply_is_timed_from_the_publish() {
    let mut waiting = waiting_since(3, 100, 0.0);
    assert_eq!(waiting.next_reply(500, 500), Waiting::TimedOut);
    assert_eq!(waiting.next_reply(499, 500), Waiting::Left { remaining_ns: 1 });
    waiting.arrived(4, 150);
    assert_eq!(waiting.next_reply(900, 500), Waiting::Answered { wall_ns: 50 });
    // A reply that landed before the publish was noted took no time at all.
    let mut waiting = waiting_since(3, 100, 0.0);
    waiting.arrived(4, 90);
    assert_eq!(waiting.next_reply(900, 500), Waiting::Answered { wall_ns: 0 });
}

/// Replies that were there when the message went out do not answer it, and of those that follow the
/// first does.
#[test]
fn the_first_reply_answers() {
    let mut waiting = waiting_since(3, 100, 0.0);
    waiting.arrived(2, 80);
    waiting.arrived(3, 95);
    assert_eq!(waiting.next_reply(200, 500), Waiting::Left { remaining_ns: 300 });
    waiting.arrived(4, 150);
    waiting.arrived(5, 180);
    assert_eq!(waiting.next_reply(200, 500), Waiting::Answered { wall_ns: 50 });
}

/// Waits from `start_ns` on, looking at these times, while these replies arrive.
fn wait(
    lockstep: &mut Lockstep,
    start_ns: u64,
    replies: &[(u64, u64)],
    looks: &[u64],
) -> Option<Waiting> {
    let mut waiting = lockstep.wait()?;
    let deadline = lockstep.deadline(start_ns);
    let mut known = 0;
    for look in looks {
        while known < replies.len() && replies[known].1 <= *look {
            waiting.arrived(replies[known].0, replies[known].1);
            known += 1;
        }
        match waiting.next_reply(*look, deadline) {
            Waiting::Left { .. } => continue,
            Waiting::TimedOut => {
                lockstep.timed_out();
                return Some(Waiting::TimedOut);
            }
            answered => return Some(answered),
        }
    }
    None
}

#[test]
fn a_whole_wait_is_answered_by_the_first_newer_reply_or_times_out() {
    let (mut lockstep, _) = Lockstep::open("imu:odom", &streams(&["imu"]), 1_000).unwrap();
    let idle = lockstep;
    assert_eq!(wait(&mut lockstep, 0, &[(1, 5)], &[10]), None);
    assert_eq!(lockstep, idle);

    lockstep.sent(seconds(1.0), 3, 100);
    let replies = [(3, 90), (4, 400), (5, 450), (6, 2_000)];
    let end = wait(&mut lockstep, 200, &replies, &[200, 300, 500, 1_200]);
    assert_eq!(end, Some(Waiting::Answered { wall_ns: 300 }));
    assert_eq!(lockstep, idle);

    // A reply at the deadline still answers, and one after it does not.
    lockstep.sent(seconds(1.0), 3, 100);
    assert_eq!(
        wait(&mut lockstep, 200, &[(4, 1_200)], &[300, 1_200]),
        Some(Waiting::Answered { wall_ns: 1_100 })
    );
    lockstep.sent(seconds(1.0), 3, 100);
    assert_eq!(wait(&mut lockstep, 200, &[(3, 300), (4, 1_201)], &[300, 1_200]), Some(Waiting::TimedOut));
    assert_eq!(lockstep, Lockstep { timeouts: 1, ..idle });
}
