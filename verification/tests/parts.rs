use contacts::extract::merge_emails;
use contacts::normalize::sort_unique;
use contacts::order::{compare, Rank};
use contacts::text::{occurs_once, split_whitespace};

fn strings(items: &[&str]) -> Vec<String> {
    items.iter().map(|s| s.to_string()).collect()
}

#[test]
fn tokens_are_maximal_runs_without_whitespace() {
    assert_eq!(split_whitespace(""), Vec::<String>::new());
    assert_eq!(split_whitespace(" \t\r\n"), Vec::<String>::new());
    assert_eq!(split_whitespace("one"), strings(&["one"]));
    assert_eq!(split_whitespace("  one  two\tthree\n"), strings(&["one", "two", "three"]));
    assert_eq!(split_whitespace("a,b c"), strings(&["a,b", "c"]));
}

#[test]
fn tokens_are_split_at_unicode_whitespace() {
    assert_eq!(split_whitespace("a\u{a0}b\u{3000}c\u{2003}d"), strings(&["a", "b", "c", "d"]));
    assert_eq!(split_whitespace("größe\u{2028}naïve"), strings(&["größe", "naïve"]));
    // A zero-width space is no whitespace.
    assert_eq!(split_whitespace("a\u{200b}b"), strings(&["a\u{200b}b"]));
}

#[test]
fn tokens_agree_with_the_standard_library() {
    let text = " The quick\u{85}brown  fox\tjumps\u{1680}over\nthe lazy dog ";
    let expected: Vec<String> = text.split_whitespace().map(|s| s.to_string()).collect();
    assert_eq!(split_whitespace(text), expected);
}

#[test]
fn occurs_once_counts_one_character() {
    assert!(!occurs_once("", '@'));
    assert!(!occurs_once("hello", '@'));
    assert!(occurs_once("@", '@'));
    assert!(occurs_once("a@b", '@'));
    assert!(!occurs_once("a@b@c", '@'));
    assert!(!occurs_once("@@", '@'));
    assert!(!occurs_once("a@b@c@d", '@'));
    assert!(occurs_once("ü@ü", '@'));
}

#[test]
fn compare_is_lexicographic() {
    assert_eq!(compare("", ""), Rank::Same);
    assert_eq!(compare("", "a"), Rank::Before);
    assert_eq!(compare("a", ""), Rank::After);
    assert_eq!(compare("abc", "abc"), Rank::Same);
    assert_eq!(compare("abc", "abd"), Rank::Before);
    assert_eq!(compare("abd", "abc"), Rank::After);
    assert_eq!(compare("ab", "abc"), Rank::Before);
    assert_eq!(compare("abc", "ab"), Rank::After);
    assert_eq!(compare("B", "a"), Rank::Before);
    assert_eq!(compare("+1", "1"), Rank::Before);
}

#[test]
fn compare_agrees_with_the_standard_order_of_strings() {
    let samples = ["", "a", "A", "ab", "é", "z", "\u{10000}", "\u{ffff}", "1 (800)", "(800)"];
    for a in samples.iter() {
        for b in samples.iter() {
            let expected = if a < b {
                Rank::Before
            } else if a == b {
                Rank::Same
            } else {
                Rank::After
            };
            assert_eq!(compare(a, b), expected);
        }
    }
}

#[test]
fn sort_unique_orders_and_removes_duplicates() {
    assert_eq!(sort_unique(Vec::new()), Vec::<String>::new());
    assert_eq!(sort_unique(strings(&["x"])), strings(&["x"]));
    assert_eq!(sort_unique(strings(&["b", "a"])), strings(&["a", "b"]));
    assert_eq!(sort_unique(strings(&["a", "a", "a"])), strings(&["a"]));
    assert_eq!(
        sort_unique(strings(&["pear", "apple", "fig", "apple", "Pear", "fig", "", "pea"])),
        strings(&["", "Pear", "apple", "fig", "pea", "pear"])
    );
}

#[test]
fn sort_unique_agrees_with_sort_and_dedup() {
    let mut items: Vec<String> = Vec::new();
    let mut seed: u32 = 12345;
    for _ in 0..500 {
        seed = seed.wrapping_mul(1103515245).wrapping_add(12345);
        items.push(format!("k{}", (seed >> 16) % 97));
    }
    let mut expected = items.clone();
    expected.sort();
    expected.dedup();
    assert_eq!(sort_unique(items), expected);
}

#[test]
fn sort_unique_twice_changes_nothing() {
    let once = sort_unique(strings(&["d", "b", "c", "b", "a"]));
    assert_eq!(sort_unique(once.clone()), once);
}

#[test]
fn merge_emails_normalizes_both_sources() {
    assert_eq!(merge_emails(Vec::new(), Vec::new()), Vec::<String>::new());
    assert_eq!(
        merge_emails(strings(&["B@X.com", "c@x.com"]), strings(&["a@x.com", "b@x.com", "a@x.com"])),
        strings(&["a@x.com", "b@x.com", "c@x.com"])
    );
    assert_eq!(merge_emails(strings(&["ÄB@X.DE"]), Vec::new()), strings(&["äb@x.de"]));
}
