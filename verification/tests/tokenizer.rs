use version_sorter::component::{Component, MAX_COMPONENTS};
use version_sorter::tokenizer::{byte_is_alpha, byte_is_digit, parse};

#[test]
fn empty_string_has_no_components() {
    let v = parse("", 0);
    assert!(v.comps.is_empty());
}

#[test]
fn dots_separate_numbers_and_are_not_kept() {
    let v = parse("1.2.3", 0);
    assert_eq!(
        v.comps,
        vec![Component::Number(1), Component::Number(2), Component::Number(3)]
    );
}

#[test]
fn letters_then_numbers() {
    let v = parse("v1.9", 0);
    assert_eq!(
        v.comps,
        vec![Component::Text(b"v"), Component::Number(1), Component::Number(9)]
    );
}

#[test]
fn ten_nines_wrap_without_being_noticed() {
    // 999_999_999 * 10 + 9 wraps to 1_410_065_407, which is not smaller
    // than 999_999_999: the run stays a number.
    let v = parse("9999999999", 0);
    assert_eq!(v.comps, vec![Component::Number(1_410_065_407)]);
}

#[test]
fn a_wrap_that_makes_the_value_smaller_gives_text() {
    // 429_496_729 * 10 + 6 is 2^32 and wraps to 0.
    let v = parse("4294967296", 0);
    assert_eq!(v.comps, vec![Component::Text(b"4294967296")]);
}

#[test]
fn a_wrap_once_noticed_is_not_forgotten() {
    let v = parse("42949672961", 0);
    assert_eq!(v.comps, vec![Component::Text(b"42949672961")]);
}

#[test]
fn largest_value_that_fits_is_a_number() {
    let v = parse("4294967295", 0);
    assert_eq!(v.comps, vec![Component::Number(u32::MAX)]);
}

#[test]
fn leading_zeros_do_not_change_the_value() {
    let v = parse("007", 0);
    assert_eq!(v.comps, vec![Component::Number(7)]);
}

#[test]
fn wrapped_text_is_followed_by_the_rest() {
    let v = parse("4294967296.5b", 0);
    assert_eq!(
        v.comps,
        vec![
            Component::Text(b"4294967296"),
            Component::Number(5),
            Component::Text(b"b")
        ]
    );
}

#[test]
fn lone_dash_is_a_text() {
    let v = parse("-", 0);
    assert_eq!(v.comps, vec![Component::Text(b"-")]);
}

#[test]
fn dash_leads_the_letters_that_follow() {
    let v = parse("1.0-rc1", 0);
    assert_eq!(
        v.comps,
        vec![
            Component::Number(1),
            Component::Number(0),
            Component::Text(b"-rc"),
            Component::Number(1)
        ]
    );
}

#[test]
fn only_one_dash_is_taken_into_a_text() {
    let v = parse("--a", 0);
    assert_eq!(v.comps, vec![Component::Text(b"-"), Component::Text(b"-a")]);
}

#[test]
fn dash_ends_a_run_of_letters() {
    let v = parse("a-b", 0);
    assert_eq!(v.comps, vec![Component::Text(b"a"), Component::Text(b"-b")]);
}

#[test]
fn dash_before_a_digit_stands_alone() {
    let v = parse("-1", 0);
    assert_eq!(v.comps, vec![Component::Text(b"-"), Component::Number(1)]);
}

#[test]
fn symbols_only_give_nothing() {
    let v = parse("..!! __ ++", 0);
    assert!(v.comps.is_empty());
}

#[test]
fn symbols_split_runs() {
    let v = parse("ab_cd 12+34", 0);
    assert_eq!(
        v.comps,
        vec![
            Component::Text(b"ab"),
            Component::Text(b"cd"),
            Component::Number(12),
            Component::Number(34)
        ]
    );
}

#[test]
fn letters_and_digits_split_each_other() {
    let v = parse("a1b22c", 0);
    assert_eq!(
        v.comps,
        vec![
            Component::Text(b"a"),
            Component::Number(1),
            Component::Text(b"b"),
            Component::Number(22),
            Component::Text(b"c")
        ]
    );
}

#[test]
fn bytes_outside_ascii_are_passed_over() {
    // "é" is two bytes, 0xC3 0xA9: neither is a letter or a digit.
    let v = parse("a\u{e9}b\u{e9}1", 0);
    assert_eq!(
        v.comps,
        vec![
            Component::Text(b"a"),
            Component::Text(b"b"),
            Component::Number(1)
        ]
    );
}

#[test]
fn case_is_kept() {
    let v = parse("Beta", 0);
    assert_eq!(v.comps, vec![Component::Text(b"Beta")]);
}

#[test]
fn no_more_than_the_cap_is_kept() {
    let mut s = String::new();
    for k in 0..70 {
        if k > 0 {
            s.push('.');
        }
        s.push_str(&format!("{}", k));
    }
    let v = parse(&s, 0);
    assert_eq!(MAX_COMPONENTS, 64);
    assert_eq!(v.comps.len(), 64);
    for k in 0..64 {
        assert_eq!(v.comps[k], Component::Number(k as u32));
    }
}

#[test]
fn exactly_the_cap_is_kept_whole() {
    let s = vec!["x"; 64].join(".");
    let v = parse(&s, 0);
    assert_eq!(v.comps.len(), 64);
    let t = vec!["x"; 63].join(".");
    assert_eq!(parse(&t, 0).comps.len(), 63);
}

#[test]
fn the_tag_is_kept() {
    assert_eq!(parse("1.0", 7).i, 7);
    assert_eq!(parse("", usize::MAX).i, usize::MAX);
}

#[test]
fn digits_are_the_ten_ascii_digits() {
    for b in 0..=255u8 {
        assert_eq!(byte_is_digit(b), (b'0'..=b'9').contains(&b));
    }
}

#[test]
fn letters_are_the_ascii_letters() {
    for b in 0..=255u8 {
        assert_eq!(byte_is_alpha(b), b.is_ascii_alphabetic());
    }
}
