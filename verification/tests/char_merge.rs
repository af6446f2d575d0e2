use git_ai::char_merge::merge_char_attributions;
use git_ai::virtual_attribution::Attribution;

fn a(s: usize, e: usize, who: &str, ts: u128) -> Attribution {
    Attribution::new(s, e, who.to_string(), ts)
}

#[test]
fn primary_wins_and_secondary_fills_gaps() {
    let primary = vec![a(0, 5, "p1", 1), a(7, 8, "p2", 1)];
    let secondary = vec![a(3, 10, "s1", 2), a(12, 20, "s2", 3)];
    let merged = merge_char_attributions(&primary, &secondary, 15);
    assert_eq!(
        merged,
        vec![a(0, 5, "p1", 1), a(5, 7, "s1", 2), a(7, 8, "p2", 1), a(8, 10, "s1", 2), a(12, 15, "s2", 3)]
    );
}

#[test]
fn fully_covered_secondary_adds_nothing() {
    let primary = vec![a(0, 10, "p", 1)];
    let secondary = vec![a(2, 4, "s", 2), a(20, 30, "late", 2)];
    assert_eq!(merge_char_attributions(&primary, &secondary, 10), vec![a(0, 10, "p", 1)]);
}

#[test]
fn sorting_keeps_equal_keys_in_order() {
    let primary = vec![a(4, 6, "x", 1), a(0, 2, "y", 1), a(4, 6, "z", 1), a(0, 3, "w", 1)];
    let merged = merge_char_attributions(&primary, &[], 100);
    assert_eq!(merged, vec![a(0, 2, "y", 1), a(0, 3, "w", 1), a(4, 6, "x", 1), a(4, 6, "z", 1)]);
}

#[test]
fn primary_beyond_the_content_still_counts() {
    let primary = vec![a(8, 20, "p", 1)];
    let secondary = vec![a(0, 20, "s", 2)];
    assert_eq!(merge_char_attributions(&primary, &secondary, 10), vec![a(0, 8, "s", 2), a(8, 20, "p", 1)]);
}
