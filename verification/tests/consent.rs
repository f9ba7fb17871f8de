//! What a client is offered, and how it is named on the page.
use mcpmem::consent::{client_label, offered};
use mcpmem::order::TextSet;

fn set(items: &[&str]) -> TextSet {
    let list: Vec<String> = items.iter().map(|s| s.to_string()).collect();
    TextSet::from_list(&list)
}

#[test]
fn the_offered_set_is_the_intersection_in_request_order() {
    let held = set(&["graph-read", "graph-write"]);
    let requested = vec![
        "graph-write".to_string(),
        "code".to_string(),
        "graph-read".to_string(),
        "graph-write".to_string(),
    ];
    assert_eq!(offered(&requested, &held), ["graph-write", "graph-read"]);
}

#[test]
fn nothing_in_common_is_an_empty_offer() {
    let held = set(&["graph-read"]);
    assert!(offered(&vec!["code".to_string()], &held).is_empty());
}

#[test]
fn a_name_that_renders_is_used_whatever_script_it_is_in() {
    for name in ["Desktop Client", "日本語クライアント", "Клиент", "7", "***"] {
        assert_eq!(client_label(name, "the-id"), name, "for {name:?}");
    }
}

#[test]
fn a_name_that_draws_nothing_falls_back_to_the_identifier() {
    for name in [
        "",
        "   ",
        "\t",
        "\u{00a0}",
        "\u{200b}",
        "\u{202e}",
        "\u{feff}",
        "\u{2060}\u{034f}",
        "\u{115f}",
        "\u{1160}",
        "\u{3164}",
        "\u{ffa0}",
        // Two of them together, which is what a display name uses.
        "\u{3164}\u{3164}",
    ] {
        assert_eq!(client_label(name, "the-id"), "the-id", "for {name:?}");
    }
}

#[test]
fn a_name_of_symbols_alone_falls_back_which_is_the_safe_direction() {
    assert_eq!(client_label("→", "the-id"), "the-id");
}
