use lumen::recents::{recent_order, text_lt};

fn times(v: &[&str]) -> Vec<String> {
    v.iter().map(|s| s.to_string()).collect()
}

#[test]
fn recents_newest_first_equal_times_in_merged_order() {
    let created = times(&[
        "2024-05-01 10:00:00",
        "2024-05-03 09:00:00",
        "2024-05-02 00:00:00",
        "2024-05-03 09:00:00",
    ]);
    assert_eq!(recent_order(&created), vec![1, 3, 2, 0]);
}

#[test]
fn recents_keep_eight() {
    let created: Vec<String> = (0..12).map(|d| format!("2024-01-{:02} 12:00:00", d + 1)).collect();
    assert_eq!(recent_order(&created), vec![11, 10, 9, 8, 7, 6, 5, 4]);
}

#[test]
fn recents_match_a_stable_sort() {
    let created = times(&[
        "2023-12-31", "2024-01-01", "2024-01-01 00:00", "2023-12-31", "2024", "",
        "2024-02-10", "2024-01-01", "2025", "2024-02-10", "2023",
    ]);
    let mut expected: Vec<usize> = (0..created.len()).collect();
    expected.sort_by(|&a, &b| created[b].cmp(&created[a]));
    expected.truncate(8);
    assert_eq!(recent_order(&created), expected);
}

#[test]
fn recents_of_nothing() {
    assert!(recent_order(&Vec::new()).is_empty());
}

#[test]
fn text_order() {
    let c = |s: &str| s.chars().collect::<Vec<char>>();
    assert!(text_lt(&c("abc"), &c("abd")));
    assert!(text_lt(&c("ab"), &c("abc")));
    assert!(!text_lt(&c("abc"), &c("ab")));
    assert!(!text_lt(&c("abc"), &c("abc")));
    assert!(text_lt(&c(""), &c("a")));
    assert!(text_lt(&c("Z"), &c("a")));
    assert!(text_lt(&c("é"), &c("😀")));
}
