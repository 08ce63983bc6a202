use quizmark::page_index::{compare_text, index_pages};

fn tag(user: &str, page: u32) -> Option<(String, u32)> {
    Some((user.to_string(), page))
}

#[test]
fn texts_compare_by_code_points() {
    assert_eq!(compare_text("abc", "abc"), 0);
    assert!(compare_text("abc", "abd") < 0);
    assert!(compare_text("abd", "abc") > 0);
    assert!(compare_text("ab", "abc") < 0);
    assert!(compare_text("", "a") < 0);
    assert!(compare_text("Z", "a") < 0);
    assert!(compare_text("é", "z") > 0);
}

#[test]
fn pages_are_grouped_by_user_in_order() {
    let tags = vec![tag("bob", 1), None, tag("alice", 2), tag("alice", 1), tag("bob", 0)];
    let index = index_pages(&tags);
    assert_eq!(
        index,
        vec![
            (String::from("alice"), vec![(1, 3), (2, 2)]),
            (String::from("bob"), vec![(0, 4), (1, 0)]),
        ]
    );
}

#[test]
fn a_repeated_tag_keeps_the_last_pdf_page() {
    let tags = vec![tag("ann", 1), tag("ann", 1), None];
    assert_eq!(index_pages(&tags), vec![(String::from("ann"), vec![(1, 1)])]);
}

#[test]
fn pages_without_tags_are_left_out() {
    assert!(index_pages(&vec![None, None]).is_empty());
    assert!(index_pages(&vec![]).is_empty());
}

#[test]
fn user_order_is_the_order_of_strings() {
    let names = ["b", "B", "ab", "a", "é", ""];
    let tags: Vec<Option<(String, u32)>> = names.iter().map(|n| tag(n, 0)).collect();
    let index = index_pages(&tags);
    let mut sorted: Vec<String> = names.iter().map(|n| n.to_string()).collect();
    sorted.sort();
    let got: Vec<String> = index.into_iter().map(|(u, _)| u).collect();
    assert_eq!(got, sorted);
}
