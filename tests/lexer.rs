use rust_irc::lexer::{Parser, ParserState, Token};

fn expect_token(t: &Token, kind: ParserState, text: &str) {
    assert_eq!(t.kind, kind);
    assert_eq!(t.text, text.to_string());
}

#[test]
fn test_state_machine() {
    let msg = "COMMAND\n";
    let mut parser = Parser::new();
    let tokens = parser.tokens(msg);
    assert_eq!(tokens.len(), 1);
    expect_token(&tokens[0], ParserState::Command, "COMMAND");
    assert!(tokens[0].ends_line);
}

#[test]
fn test_commands() {
    let mut example = String::new();
    example.push_str(":Angel!wings@irc.org PRIVMSG Wiz :Are you receiving this message ?\r\n");
    example.push_str("PING :irc.funet.fi\r\n");

    let mut parser = Parser::new();
    let tokens = parser.tokens(&example);
    assert_eq!(tokens.len(), 6);
    expect_token(&tokens[0], ParserState::Prefix, "Angel!wings@irc.org");
    expect_token(&tokens[1], ParserState::Command, "PRIVMSG");
    expect_token(&tokens[2], ParserState::Params, "Wiz");
    expect_token(&tokens[3], ParserState::Message, "Are you receiving this message ?");
    expect_token(&tokens[4], ParserState::Command, "PING");
    expect_token(&tokens[5], ParserState::Message, "irc.funet.fi");
}

#[test]
fn feed_hands_out_each_token_at_its_delimiter() {
    let mut parser = Parser::new();
    let mut got: Vec<Token> = Vec::new();
    for (i, c) in "NICK rust\r\n".chars().enumerate() {
        match parser.feed(c) {
            Some(t) => {
                // the space after NICK, and the final line feed
                assert!(i == 4 || i == 10);
                got.push(t);
            }
            None => {}
        }
    }
    assert_eq!(got.len(), 2);
    expect_token(&got[0], ParserState::Command, "NICK");
    assert!(!got[0].ends_line);
    expect_token(&got[1], ParserState::Params, "rust");
    assert!(got[1].ends_line);
    assert_eq!(parser.state(), ParserState::Start);
}

#[test]
fn numeric_command_is_three_characters() {
    let mut parser = Parser::new();
    let tokens = parser.tokens("0012 x\r\n");
    assert_eq!(tokens.len(), 2);
    expect_token(&tokens[0], ParserState::Command, "001");
    expect_token(&tokens[1], ParserState::Params, "x");

    let mut parser = Parser::new();
    let tokens = parser.tokens("001\r\n");
    assert_eq!(tokens.len(), 1);
    expect_token(&tokens[0], ParserState::Command, "001");
    assert!(tokens[0].ends_line);
}

#[test]
fn consecutive_spaces_give_no_empty_parameter() {
    let mut parser = Parser::new();
    let tokens = parser.tokens("MODE a  b\r\n");
    assert_eq!(tokens.len(), 3);
    expect_token(&tokens[0], ParserState::Command, "MODE");
    expect_token(&tokens[1], ParserState::Params, "a");
    expect_token(&tokens[2], ParserState::Params, "b");
}

#[test]
fn trailing_space_line_ends_with_marker() {
    let mut parser = Parser::new();
    let tokens = parser.tokens("AWAY a \r\n");
    assert_eq!(tokens.len(), 3);
    expect_token(&tokens[2], ParserState::Start, "");
    assert!(tokens[2].ends_line);
}

#[test]
fn unexpected_first_character_is_skipped() {
    let mut parser = Parser::new();
    let tokens = parser.tokens(" !PING\r\n");
    assert_eq!(tokens.len(), 1);
    expect_token(&tokens[0], ParserState::Command, "PING");
}

#[test]
fn open_field_carries_over_between_chunks() {
    let mut parser = Parser::new();
    assert_eq!(parser.tokens("PRIV").len(), 0);
    let tokens = parser.tokens("MSG #rust :hi\r\n");
    assert_eq!(tokens.len(), 3);
    expect_token(&tokens[0], ParserState::Command, "PRIVMSG");
    expect_token(&tokens[1], ParserState::Params, "#rust");
    expect_token(&tokens[2], ParserState::Message, "hi");
}

#[test]
fn finish_hands_out_a_prefix_cut_by_end_of_stream() {
    let mut parser = Parser::new();
    assert_eq!(parser.tokens(":lonely\r\n").len(), 0);
    let t = parser.finish().unwrap();
    expect_token(&t, ParserState::Prefix, "lonely\r\n");
    assert!(t.ends_line);
    assert_eq!(parser.state(), ParserState::Start);
}

#[test]
fn finish_leaves_any_other_open_field() {
    let mut parser = Parser::new();
    assert_eq!(parser.tokens("PRIV").len(), 0);
    assert!(parser.finish().is_none());
    let tokens = parser.tokens("MSG\n");
    assert_eq!(tokens.len(), 1);
    expect_token(&tokens[0], ParserState::Command, "PRIVMSG");
}

#[test]
fn carriage_return_before_space_stays_in_the_field() {
    let mut parser = Parser::new();
    let tokens = parser.tokens("CMD a\r b\r\n");
    assert_eq!(tokens.len(), 3);
    expect_token(&tokens[1], ParserState::Params, "a\r");
    expect_token(&tokens[2], ParserState::Params, "b");
}
