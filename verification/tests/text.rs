use rapid_rust_replay::order::{Names, Table};
use rapid_rust_replay::pattern::{self, selects};
use rapid_rust_replay::text::{
    comes_before, ends_with, has_char, is_whitespace, join, push_decimal, push_signed, rsplit_once,
    same, split_all, split_once, starts_with, strip_prefix, strip_suffix_char, trim, trim_end_char,
};

const SAMPLES: [&str; 14] = [
    "", "a", "ab", "abc", "ab/", "/", "//", "a/b/c", "/a", "grün", "ü/ü", "a:b:c", " x ", "\u{3000}y\n",
];

#[test]
fn cutting_agrees_with_std() {
    for s in SAMPLES {
        for c in ['/', ':', 'b', 'ü', 'x'] {
            assert_eq!(split_once(s, c), s.split_once(c), "{s:?} {c:?}");
            assert_eq!(rsplit_once(s, c), s.rsplit_once(c), "{s:?} {c:?}");
            assert_eq!(strip_suffix_char(s, c), s.strip_suffix(c), "{s:?} {c:?}");
            assert_eq!(trim_end_char(s, c), s.trim_end_matches(c), "{s:?} {c:?}");
            assert_eq!(has_char(s, c), s.contains(c), "{s:?} {c:?}");
            let parts: Vec<String> = s.split(c).map(str::to_string).collect();
            assert_eq!(split_all(s, c), parts, "{s:?} {c:?}");
            assert_eq!(join(&parts, ", "), parts.join(", "));
        }
        assert_eq!(trim(s), s.trim(), "{s:?}");
        for other in SAMPLES {
            assert_eq!(same(s, other), s == other);
            assert_eq!(starts_with(s, other), s.starts_with(other), "{s:?} {other:?}");
            assert_eq!(ends_with(s, other), s.ends_with(other), "{s:?} {other:?}");
            assert_eq!(strip_prefix(s, other), s.strip_prefix(other), "{s:?} {other:?}");
            assert_eq!(comes_before(s, other), s < other, "{s:?} {other:?}");
        }
    }
}

#[test]
fn white_space_is_what_std_calls_white_space() {
    for code in 0..=0x10FFFFu32 {
        if let Some(c) = char::from_u32(code) {
            assert_eq!(is_whitespace(c), c.is_whitespace(), "{code:x}");
        }
    }
}

#[test]
fn numbers_are_written_as_std_writes_them() {
    for n in [0u64, 1, 9, 10, 11, 99, 100, 1_000_000_007, u64::MAX] {
        let mut text = "n=".to_string();
        push_decimal(&mut text, n);
        assert_eq!(text, format!("n={n}"));
    }
    for n in [0i64, -1, 1, -10, i64::MIN, i64::MAX] {
        let mut text = String::new();
        push_signed(&mut text, n);
        assert_eq!(text, n.to_string());
    }
}

#[test]
fn names_stay_in_order_and_are_held_once() {
    let mut names = Names::new();
    for name in ["odom", "base_link", "map", "odom", "Zebra", "base", ""] {
        let fresh = !names.contains(name);
        assert_eq!(names.insert(name.to_string()), fresh);
        assert!(names.contains(name));
    }
    assert_eq!(names.items, ["", "Zebra", "base", "base_link", "map", "odom"]);
    assert!(!names.contains("bas"));
}

#[test]
fn tables_keep_their_first_value_until_it_is_changed() {
    let mut table: Table<u32> = Table::new();
    for (key, value) in [("b", 1), ("a", 2), ("c", 3), ("b", 4)] {
        let at = table.ensure(key.to_string(), value);
        assert_eq!(table.keys.items[at], key);
    }
    assert_eq!(table.keys.items, ["a", "b", "c"]);
    assert_eq!(table.vals, [2, 1, 3]);
    *table.value_mut(1) = 9;
    assert_eq!(table.find("b").map(|at| table.vals[at]), Some(9));
    assert_eq!(table.find("d"), None);
}

#[test]
fn a_star_at_the_end_of_a_pattern_stands_for_anything() {
    assert!(pattern::matches("infrared_*", "infrared_left"));
    assert!(pattern::matches("infrared_*", "infrared_"));
    assert!(pattern::matches("*", "anything"));
    assert!(!pattern::matches("infrared_*", "infrared"));
    assert!(pattern::matches("odom", "odom"));
    assert!(!pattern::matches("odom", "odometry"));
    assert!(!pattern::matches("*odom", "wheel_odom"));
    assert!(selects(&[], "anything"));
    assert!(selects(&["a".to_string(), "b*".to_string()], "bc"));
    assert!(!selects(&["a".to_string(), "b*".to_string()], "ac"));
}
