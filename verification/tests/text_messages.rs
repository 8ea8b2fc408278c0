use chat_relay::messages::join_message;
use chat_relay::messages::rejection_message;
use chat_relay::messages::relay_message;
use chat_relay::messages::welcome_message;
use chat_relay::text::text_equal;
use chat_relay::text::trim_line;

#[test]
fn trim_strips_trailing_newline() {
    assert_eq!(trim_line("alice\n"), "alice");
}

#[test]
fn trim_strips_surrounding_whitespace() {
    assert_eq!(trim_line("  bob \r\n"), "bob");
    assert_eq!(trim_line("\tcarol\t"), "carol");
}

#[test]
fn trim_keeps_inner_whitespace() {
    assert_eq!(trim_line("a b\n"), "a b");
}

#[test]
fn trim_of_blank_lines_is_empty() {
    assert_eq!(trim_line(""), "");
    assert_eq!(trim_line("\n"), "");
    assert_eq!(trim_line(" \r\n"), "");
}

#[test]
fn trim_of_trimmed_input_is_identity() {
    assert_eq!(trim_line("alice"), "alice");
}

#[test]
fn text_equal_compares_exactly() {
    assert!(text_equal("alice", "alice"));
    assert!(!text_equal("alice", "alicia"));
    assert!(!text_equal("alice", "alice "));
    assert!(!text_equal("alice", "ali"));
    assert!(text_equal("", ""));
}

#[test]
fn welcome_text_is_exact() {
    assert_eq!(welcome_message(), "Welcome to my server! Please provide a nickname.\n");
}

#[test]
fn rejection_text_is_exact() {
    assert_eq!(
        rejection_message("alice"),
        "nickname alice is already taken. Please enter a new nickname\n"
    );
}

#[test]
fn join_text_is_exact() {
    assert_eq!(join_message("alice"), "alice Has Joined the chat! Welcome!\n");
}

#[test]
fn relay_text_keeps_the_line_newline() {
    assert_eq!(relay_message("alice", "hello\n"), "[alice]: hello\n");
}
