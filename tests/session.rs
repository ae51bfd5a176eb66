use rust_irc::parser::Parser;
use rust_irc::session::{nick_line, registration, user_line};

#[test]
fn user_line_format() {
    assert_eq!(user_line("rust-irc", "Rust irc"), "USER rust-irc 0 * :Rust irc\r\n".to_string());
}

#[test]
fn nick_line_format() {
    assert_eq!(nick_line("rust-irc"), "NICK rust-irc\r\n".to_string());
}

#[test]
fn registration_sends_user_then_nick() {
    let lines = registration("bot", "A bot");
    assert_eq!(lines, vec!["USER bot 0 * :A bot\r\n".to_string(), "NICK bot\r\n".to_string()]);
}

#[test]
fn outbound_lines_need_no_inbound_message() {
    // Inbound: a line is half read when the outbound side writes.
    let mut inbound = Parser::new();
    assert_eq!(inbound.messages(":srv 001 bot :Wel").len(), 0);
    let mut wire: Vec<String> = Vec::new();
    wire.extend(registration("bot", "A bot"));
    wire.push("JOIN #rust\r\n".to_string());
    assert_eq!(wire.len(), 3);
    // Inbound resumes where it stopped, untouched by the writes.
    let msgs = inbound.messages("come\r\n");
    assert_eq!(msgs.len(), 1);
    assert_eq!(msgs[0].body, "Welcome".to_string());
    // And a whole inbound message needs no write to have happened.
    let mut other = Parser::new();
    assert_eq!(other.messages("PING :x\r\n").len(), 1);
}
