use nomai_core::snippet::{extract_snippet, find_first, WINDOW};

#[test]
fn basic_highlight_wraps_hit() {
    let s = extract_snippet("hello world", "world");
    assert!(s.contains("**world**"));
}

#[test]
fn ellipsis_when_text_exceeds_window() {
    let text = format!("{}target{}", "a".repeat(100), "b".repeat(100));
    let s = extract_snippet(&text, "target");
    assert!(s.starts_with('…'), "prefix ellipsis: {s}");
    assert!(s.ends_with('…'), "suffix ellipsis: {s}");
    assert!(s.contains("**target**"));
    // The hit sits roughly in the center of the snippet window.
    let idx = s.find("**target**").unwrap();
    let mid = (s.len() - "**target**".len()) / 2;
    assert!(
        (idx as isize - mid as isize).abs() <= 10,
        "hit should be ~centered: idx={idx}, mid={mid}, s={s}"
    );
}

#[test]
fn ellipsis_hit_near_start_no_leading_ellipsis() {
    // Hit at index 0: left padding clamps to 0, so no leading ellipsis.
    let text = format!("target{}", "b".repeat(200));
    let s = extract_snippet(&text, "target");
    assert!(!s.starts_with('…'), "no leading ellipsis near start: {s}");
    assert!(s.ends_with('…'), "trailing ellipsis near start: {s}");
    assert!(s.contains("**target**"));
}

#[test]
fn ellipsis_hit_near_end_no_trailing_ellipsis() {
    // Hit near the end: right padding clamps, so no trailing ellipsis.
    let text = format!("{}target", "a".repeat(200));
    let s = extract_snippet(&text, "target");
    assert!(s.starts_with('…'), "leading ellipsis near end: {s}");
    assert!(!s.ends_with('…'), "no trailing ellipsis near end: {s}");
    assert!(s.contains("**target**"));
}

#[test]
fn short_text_no_ellipsis() {
    let s = extract_snippet("short target text", "target");
    assert!(!s.contains('…'));
    assert!(s.contains("**target**"));
}

#[test]
fn cjk_char_based_window() {
    let text = "这是一段中文目标词周围还有一些其他字符用于测试窗口截取逻辑";
    let s = extract_snippet(text, "目标词");
    assert!(s.contains("**目标词**"));
    assert!(!s.contains(char::REPLACEMENT_CHARACTER), "no broken chars: {s}");
}

#[test]
fn first_occurrence_only_highlighted() {
    let s = extract_snippet("cat cat cat", "cat");
    assert_eq!(s.matches("**cat**").count(), 1);
}

#[test]
fn query_absent_returns_plain_truncation() {
    let s = extract_snippet("nothing here", "absent");
    assert!(!s.contains("**"));
    assert_eq!(s, "nothing here");
}

#[test]
fn hit_len_ge_window_emits_hit_only() {
    let q = "x".repeat(130); // >= WINDOW=120
    let text = format!("prefix{}suffix", q);
    let s = extract_snippet(&text, &q);
    assert!(s.contains(&format!("**{}**", q)));
    assert!(!s.contains('…'), "no ellipsis when hit fills window: {s}");
    assert!(!s.contains("prefix"), "no padding leaked: {s}");
}

#[test]
fn empty_query_returns_prefix_no_highlight() {
    let text = "a".repeat(200);
    let s = extract_snippet(&text, "");
    assert!(!s.contains("**"));
    assert_eq!(s.chars().count(), WINDOW);
}

#[test]
fn a_snippet_is_the_hit_with_its_surroundings() {
    assert_eq!(extract_snippet("hello world", "lo w"), "hel**lo w**orld");
    assert_eq!(extract_snippet("", "x"), "");
}

#[test]
fn find_first_gives_the_first_place() {
    let hay: Vec<char> = "abcabc".chars().collect();
    let bc: Vec<char> = "bc".chars().collect();
    let long: Vec<char> = "abcabcabc".chars().collect();
    assert_eq!(find_first(&hay, &bc), Some(1));
    assert_eq!(find_first(&hay, &Vec::new()), None);
    assert_eq!(find_first(&hay, &long), None);
}
