use rust_irc::parser::{Message, Parser, State};

fn fields(m: &Message) -> (String, String, String, String) {
    (m.prefix.clone(), m.command.clone(), m.params.clone(), m.body.clone())
}

fn f(prefix: &str, command: &str, params: &str, body: &str) -> (String, String, String, String) {
    (prefix.to_string(), command.to_string(), params.to_string(), body.to_string())
}

#[test]
fn parser_test_commands() {
    let mut example = String::new();
    example.push_str(":Angel!wings@irc.org PRIVMSG Wiz :Are you receiving this message ?\r\n");
    example.push_str("PING :irc.funet.fi\r\n");

    let mut parser = rust_irc::lexer::Parser::new();
    let texts: Vec<String> = parser.tokens(&example).into_iter().map(|t| t.text).collect();
    assert_eq!(
        texts,
        vec![
            "Angel!wings@irc.org".to_string(),
            "PRIVMSG".to_string(),
            "Wiz".to_string(),
            "Are you receiving this message ?".to_string(),
            "PING".to_string(),
            "irc.funet.fi".to_string(),
        ]
    );
}

#[test]
fn test_by_message() {
    let example = ":Angel PRIVMSG Wiz :Hello message ?\r\n";
    let mut parser = Parser::new();
    let msgs = parser.messages(example);
    let msg = &msgs[0];

    assert_eq!(msg.prefix, "Angel".to_string());
    assert_eq!(msg.command, "PRIVMSG".to_string());
    assert_eq!(msg.params, "Wiz".to_string());
    assert_eq!(msg.body, "Hello message ?".to_string());
}

#[test]
fn privmsg_with_prefix() {
    let mut parser = Parser::new();
    let msgs = parser.messages(":Angel!wings@irc.org PRIVMSG Wiz :Are you receiving this message ?\r\n");
    assert_eq!(msgs.len(), 1);
    assert_eq!(
        fields(&msgs[0]),
        f("Angel!wings@irc.org", "PRIVMSG", "Wiz", "Are you receiving this message ?")
    );
}

#[test]
fn ping_without_prefix() {
    let mut parser = Parser::new();
    let msgs = parser.messages("PING :irc.funet.fi\r\n");
    assert_eq!(msgs.len(), 1);
    assert_eq!(fields(&msgs[0]), f("", "PING", "", "irc.funet.fi"));
}

#[test]
fn numeric_reply() {
    let mut parser = Parser::new();
    let msgs = parser.messages(":srv 001 rust :Welcome to IRC\r\n");
    assert_eq!(msgs.len(), 1);
    assert_eq!(fields(&msgs[0]), f("srv", "001", "rust", "Welcome to IRC"));
}

#[test]
fn two_lines_in_order_without_leakage() {
    let mut parser = Parser::new();
    let msgs = parser.messages(":a!b@c JOIN #rust\r\nPING :x\r\n");
    assert_eq!(msgs.len(), 2);
    assert_eq!(fields(&msgs[0]), f("a!b@c", "JOIN", "#rust", ""));
    assert_eq!(fields(&msgs[1]), f("", "PING", "", "x"));
}

#[test]
fn prefix_after_a_body_line() {
    let mut parser = Parser::new();
    let msgs = parser.messages("PING :x\r\n:s NOTICE * :hi there\r\n");
    assert_eq!(msgs.len(), 2);
    assert_eq!(fields(&msgs[1]), f("s", "NOTICE", "*", "hi there"));
}

#[test]
fn end_of_stream_mid_field_yields_nothing() {
    let mut parser = Parser::new();
    assert_eq!(parser.messages(":nick PRIVMSG #chan mor").len(), 0);
    assert_eq!(parser.state(), State::Params);
    let mut parser = Parser::new();
    assert_eq!(parser.messages("PING :irc.fun").len(), 0);
}

#[test]
fn line_split_across_chunks() {
    let mut parser = Parser::new();
    assert_eq!(parser.messages("PING :irc.fun").len(), 0);
    let msgs = parser.messages("et.fi\r\nPI");
    assert_eq!(msgs.len(), 1);
    assert_eq!(fields(&msgs[0]), f("", "PING", "", "irc.funet.fi"));
}

#[test]
fn params_are_joined_by_single_spaces() {
    let mut parser = Parser::new();
    let msgs = parser.messages("MODE #rust  +o   nick\r\n");
    assert_eq!(msgs.len(), 1);
    assert_eq!(fields(&msgs[0]), f("", "MODE", "#rust +o nick", ""));
}

#[test]
fn command_only_line() {
    let mut parser = Parser::new();
    let msgs = parser.messages("QUIT\r\n");
    assert_eq!(msgs.len(), 1);
    assert_eq!(fields(&msgs[0]), f("", "QUIT", "", ""));
}

#[test]
fn body_keeps_colons_and_spaces() {
    let mut parser = Parser::new();
    let msgs = parser.messages("PRIVMSG #c :a: b :c\r\n");
    assert_eq!(fields(&msgs[0]), f("", "PRIVMSG", "#c", "a: b :c"));
}

#[test]
fn bare_line_feed_terminates() {
    let mut parser = Parser::new();
    let msgs = parser.messages("PING :x\nPONG :y\n");
    assert_eq!(msgs.len(), 2);
    assert_eq!(fields(&msgs[1]), f("", "PONG", "", "y"));
}

#[test]
fn blank_lines_and_empty_input_yield_nothing() {
    let mut parser = Parser::new();
    assert_eq!(parser.messages("").len(), 0);
    assert_eq!(parser.messages("\r\n\r\n").len(), 0);
}

#[test]
fn prefix_reads_until_space() {
    let mut parser = Parser::new();
    let msgs = parser.messages(":a\rb PING :x\r\n");
    assert_eq!(msgs.len(), 1);
    assert_eq!(fields(&msgs[0]), f("a\rb", "PING", "", "x"));
}

#[test]
fn carriage_return_inside_a_parameter_is_kept() {
    let mut parser = Parser::new();
    let msgs = parser.messages("PRIVMSG a\rb :x\r\nMODE c\r\r\n");
    assert_eq!(msgs.len(), 2);
    assert_eq!(fields(&msgs[0]), f("", "PRIVMSG", "a\rb", "x"));
    assert_eq!(fields(&msgs[1]), f("", "MODE", "c\r", ""));
}

#[test]
fn line_feed_only_round_trip() {
    let mut parser = Parser::new();
    let msgs = parser.messages(":p JOIN #a\n");
    assert_eq!(msgs.len(), 1);
    assert_eq!(fields(&msgs[0]), f("p", "JOIN", "#a", ""));
}

#[test]
fn feed_by_character() {
    let mut parser = Parser::new();
    let mut out: Vec<Message> = Vec::new();
    for c in "PING :a\r\n".chars() {
        if let Some(m) = parser.feed(c) {
            out.push(m);
        }
    }
    assert_eq!(out.len(), 1);
    assert_eq!(fields(&out[0]), f("", "PING", "", "a"));
}

#[test]
fn decode_then_encode_gives_the_line_back() {
    let line = ":nick!user@host PRIVMSG #chan other :hi: there\r\n";
    let mut parser = Parser::new();
    let msgs = parser.messages(line);
    assert_eq!(msgs.len(), 1);
    assert_eq!(fields(&msgs[0]), f("nick!user@host", "PRIVMSG", "#chan other", "hi: there"));
    assert_eq!(msgs[0].to_line(), line.to_string());
    for line in ["PING :irc.funet.fi\r\n", "QUIT\r\n", "001 a b\r\n", ":p NICK x\r\n"] {
        let mut parser = Parser::new();
        let msgs = parser.messages(line);
        assert_eq!(msgs.len(), 1);
        assert_eq!(msgs[0].to_line(), line.to_string());
    }
}

#[test]
fn new_message_is_empty() {
    let m = Message::new();
    assert_eq!(fields(&m), f("", "", "", ""));
    assert_eq!(m.to_line(), "\r\n".to_string());
}
