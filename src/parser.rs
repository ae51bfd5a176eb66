use vstd::prelude::*;
use vstd::string::*;

use crate::lexer;
use crate::lexer::{opt_seq, LexView, ParserState, Token, TokenView};
use crate::text::push_char;

verus! {

/// One protocol line, split into its fields. Each is empty where the line
/// had none.
pub struct Message {
    pub prefix: String,
    pub command: String,
    /// The middle parameters, joined by single spaces.
    pub params: String,
    /// The trailing parameter, without its leading colon.
    pub body: String,
}

pub struct MessageView {
    pub prefix: Seq<char>,
    pub command: Seq<char>,
    pub params: Seq<char>,
    pub body: Seq<char>,
}

impl View for Message {
    type V = MessageView;

    open spec fn view(&self) -> MessageView {
        MessageView {
            prefix: self.prefix@,
            command: self.command@,
            params: self.params@,
            body: self.body@,
        }
    }
}

pub open spec fn empty_message() -> MessageView {
    MessageView {
        prefix: Seq::empty(),
        command: Seq::empty(),
        params: Seq::empty(),
        body: Seq::empty(),
    }
}

pub open spec fn opt_message(m: Option<Message>) -> Option<MessageView> {
    match m {
        Some(m) => Some(m@),
        None => None,
    }
}

pub open spec fn message_views(v: Seq<Message>) -> Seq<MessageView> {
    v.map_values(|m: Message| m@)
}

/// A message written back as a protocol line: fields joined by single
/// spaces, a colon before the body, a prefix or body only where non-empty,
/// and a line feed at the end, after a carriage return where `cr` holds.
pub open spec fn encode_line(m: MessageView, cr: bool) -> Seq<char> {
    (if m.prefix.len() > 0 {
        seq![':'] + m.prefix + seq![' ']
    } else {
        Seq::empty()
    }) + m.command + (if m.params.len() > 0 {
        seq![' '] + m.params
    } else {
        Seq::empty()
    }) + (if m.body.len() > 0 {
        seq![' ', ':'] + m.body
    } else {
        Seq::empty()
    }) + (if cr {
        seq!['\r', '\n']
    } else {
        seq!['\n']
    })
}

/// A message as a protocol line terminated by CR LF.
pub open spec fn encode(m: MessageView) -> Seq<char> {
    encode_line(m, true)
}

impl Message {
    pub fn new() -> (r: Message)
        ensures
            r@ == empty_message(),
    {
        Message {
            prefix: String::new(),
            command: String::new(),
            params: String::new(),
            body: String::new(),
        }
    }

    /// The message as a protocol line, terminated by CR LF.
    pub fn to_line(&self) -> (r: String)
        ensures
            r@ == encode(self@),
    {
        let mut r = String::new();
        let ghost p = if self.prefix@.len() > 0 {
            seq![':'] + self.prefix@ + seq![' ']
        } else {
            Seq::<char>::empty()
        };
        if self.prefix.as_str().unicode_len() > 0 {
            push_char(&mut r, ':');
            r.append(self.prefix.as_str());
            push_char(&mut r, ' ');
        }
        assert(r@ =~= p);
        r.append(self.command.as_str());
        let ghost q = if self.params@.len() > 0 {
            seq![' '] + self.params@
        } else {
            Seq::<char>::empty()
        };
        if self.params.as_str().unicode_len() > 0 {
            push_char(&mut r, ' ');
            r.append(self.params.as_str());
        }
        assert(r@ =~= p + self.command@ + q);
        let ghost b = if self.body@.len() > 0 {
            seq![' ', ':'] + self.body@
        } else {
            Seq::<char>::empty()
        };
        if self.body.as_str().unicode_len() > 0 {
            push_char(&mut r, ' ');
            push_char(&mut r, ':');
            r.append(self.body.as_str());
        }
        assert(r@ =~= p + self.command@ + q + b);
        push_char(&mut r, '\r');
        push_char(&mut r, '\n');
        assert(r@ =~= encode(self@));
        r
    }
}

/// The last field filled in the message being assembled.
#[derive(Clone, Copy, Debug, PartialEq, Eq, Structural)]
pub enum State {
    Start,
    Prefix,
    Command,
    Params,
    Body,
}

/// The assembler's state: how far the current message has come, and its
/// fields so far.
pub struct AsmView {
    pub state: State,
    pub msg: MessageView,
}

pub open spec fn fresh() -> AsmView {
    AsmView { state: State::Start, msg: empty_message() }
}

/// Fields come in this order: an optional prefix, the command, any number
/// of parameters, an optional body.
pub open spec fn in_order(st: State, kind: ParserState) -> bool {
    match kind {
        ParserState::Start => true,
        ParserState::Prefix => st == State::Start,
        ParserState::Command => st == State::Start || st == State::Prefix,
        ParserState::Params => st == State::Command || st == State::Params,
        ParserState::Message => st == State::Command || st == State::Params,
    }
}

pub open spec fn join_param(params: Seq<char>, p: Seq<char>) -> Seq<char> {
    if params.len() == 0 {
        p
    } else {
        params + seq![' '] + p
    }
}

/// Puts a token's text into its field.
pub open spec fn fill(a: AsmView, t: TokenView) -> AsmView {
    match t.kind {
        ParserState::Start => a,
        ParserState::Prefix => AsmView {
            state: State::Prefix,
            msg: MessageView { prefix: t.text, ..a.msg },
        },
        ParserState::Command => AsmView {
            state: State::Command,
            msg: MessageView { command: t.text, ..a.msg },
        },
        ParserState::Params => AsmView {
            state: State::Params,
            msg: MessageView { params: join_param(a.msg.params, t.text), ..a.msg },
        },
        ParserState::Message => AsmView {
            state: State::Body,
            msg: MessageView { body: t.text, ..a.msg },
        },
    }
}

/// The message that ends here, unless no field of it was filled.
pub open spec fn finished(a: AsmView) -> Option<MessageView> {
    if a.state == State::Start {
        None
    } else {
        Some(a.msg)
    }
}

/// One token into the assembler: its next state, and the message that this
/// token completes, if any. A token out of order ends the current message
/// and is dropped.
pub open spec fn absorb(a: AsmView, t: TokenView) -> (AsmView, Option<MessageView>) {
    if !in_order(a.state, t.kind) {
        (fresh(), finished(a))
    } else {
        let b = fill(a, t);
        if t.kind == ParserState::Message || t.ends_line {
            (fresh(), finished(b))
        } else {
            (b, None)
        }
    }
}

/// A whole sequence of tokens into the assembler.
pub open spec fn assemble(a: AsmView, ts: Seq<TokenView>) -> (AsmView, Seq<MessageView>)
    decreases ts.len(),
{
    if ts.len() == 0 {
        (a, Seq::empty())
    } else {
        let (a1, ms) = assemble(a, ts.drop_last());
        let (a2, o) = absorb(a1, ts.last());
        (a2, ms + opt_seq(o))
    }
}

/// The decoder's whole state.
pub struct ParserView {
    pub lex: LexView,
    pub acc: AsmView,
}

pub open spec fn start() -> ParserView {
    ParserView { lex: lexer::initial(), acc: fresh() }
}

/// One character through the lexer, and the token it completes, if any,
/// through the assembler.
pub open spec fn decode_step(p: ParserView, c: char) -> (ParserView, Option<MessageView>) {
    let (lex, o) = lexer::step(p.lex, c);
    match o {
        None => (ParserView { lex, acc: p.acc }, None),
        Some(t) => {
            let (acc, m) = absorb(p.acc, t);
            (ParserView { lex, acc }, m)
        },
    }
}

pub open spec fn decode_run(p: ParserView, s: Seq<char>) -> (ParserView, Seq<MessageView>)
    decreases s.len(),
{
    if s.len() == 0 {
        (p, Seq::empty())
    } else {
        let (p1, ms) = decode_run(p, s.drop_last());
        let (p2, o) = decode_step(p1, s.last());
        (p2, ms + opt_seq(o))
    }
}

/// The messages of a stream, read from the start.
pub open spec fn decode(s: Seq<char>) -> Seq<MessageView> {
    decode_run(start(), s).1
}

/// The decoder: characters in, complete messages out.
pub struct Parser {
    lexer: lexer::Parser,
    state: State,
    msg: Message,
}

impl View for Parser {
    type V = ParserView;

    closed spec fn view(&self) -> ParserView {
        ParserView { lex: self.lexer@, acc: AsmView { state: self.state, msg: self.msg@ } }
    }
}

impl Parser {
    pub fn new() -> (r: Parser)
        ensures
            r@ == start(),
    {
        Parser { lexer: lexer::Parser::new(), state: State::Start, msg: Message::new() }
    }

    /// The last field filled in the message being assembled.
    pub fn state(&self) -> (r: State)
        ensures
            r == self@.acc.state,
    {
        self.state
    }

    fn in_order(&self, kind: ParserState) -> (r: bool)
        ensures
            r == in_order(self.state, kind),
    {
        match kind {
            ParserState::Start => true,
            ParserState::Prefix => self.state == State::Start,
            ParserState::Command => self.state == State::Start || self.state == State::Prefix,
            ParserState::Params => self.state == State::Command || self.state == State::Params,
            ParserState::Message => self.state == State::Command || self.state == State::Params,
        }
    }

    /// Hands out the current message, unless no field of it was filled, and
    /// starts a fresh one.
    fn finish(&mut self) -> (r: Option<Message>)
        ensures
            final(self)@.lex == old(self)@.lex,
            final(self)@.acc == fresh(),
            opt_message(r) == finished(old(self)@.acc),
    {
        let st = self.state;
        let mut m = Message::new();
        std::mem::swap(&mut m, &mut self.msg);
        self.state = State::Start;
        if st == State::Start {
            None
        } else {
            Some(m)
        }
    }

    fn fill(&mut self, t: Token)
        requires
            in_order(old(self)@.acc.state, t@.kind),
        ensures
            final(self)@.lex == old(self)@.lex,
            final(self)@.acc == fill(old(self)@.acc, t@),
    {
        match t.kind {
            ParserState::Start => {},
            ParserState::Prefix => {
                self.msg.prefix = t.text;
                self.state = State::Prefix;
            },
            ParserState::Command => {
                self.msg.command = t.text;
                self.state = State::Command;
            },
            ParserState::Params => {
                if self.msg.params.as_str().unicode_len() == 0 {
                    self.msg.params = t.text;
                } else {
                    let ghost before = self.msg.params@;
                    push_char(&mut self.msg.params, ' ');
                    self.msg.params.append(t.text.as_str());
                    assert(self.msg.params@ =~= join_param(before, t.text@));
                }
                self.state = State::Params;
            },
            ParserState::Message => {
                self.msg.body = t.text;
                self.state = State::Body;
            },
        }
    }

    /// Takes one token; returns the message it completes, if any.
    fn absorb(&mut self, t: Token) -> (r: Option<Message>)
        ensures
            final(self)@.lex == old(self)@.lex,
            (final(self)@.acc, opt_message(r)) == absorb(old(self)@.acc, t@),
    {
        if !self.in_order(t.kind) {
            self.finish()
        } else {
            let done = t.kind == ParserState::Message || t.ends_line;
            self.fill(t);
            if done {
                self.finish()
            } else {
                None
            }
        }
    }

    /// Consumes one character; returns the message it completes, if any.
    /// A message is handed out only once its line has ended.
    pub fn feed(&mut self, c: char) -> (r: Option<Message>)
        ensures
            (final(self)@, opt_message(r)) == decode_step(old(self)@, c),
    {
        match self.lexer.feed(c) {
            None => None,
            Some(t) => self.absorb(t),
        }
    }

    /// Feeds a chunk of the stream; returns the messages it completes, in
    /// order. A line left open at the end of the chunk carries over to the
    /// next one, and is never handed out unfinished.
    pub fn messages(&mut self, text: &str) -> (r: Vec<Message>)
        ensures
            (final(self)@, message_views(r@)) == decode_run(old(self)@, text@),
    {
        let n = text.unicode_len();
        let mut out: Vec<Message> = Vec::new();
        let mut i: usize = 0;
        while i < n
            invariant
                n == text@.len(),
                i <= n,
                (self@, message_views(out@)) == decode_run(old(self)@, text@.subrange(0, i as int)),
            decreases n - i,
        {
            let c = text.get_char(i);
            let ghost before = out@;
            let m = self.feed(c);
            proof {
                let s = text@.subrange(0, i + 1);
                assert(s.drop_last() =~= text@.subrange(0, i as int));
            }
            match m {
                Some(m) => {
                    out.push(m);
                    assert(message_views(out@) =~= message_views(before) + opt_seq(
                        opt_message(Some(m)),
                    ));
                },
                None => {
                    assert(message_views(out@) =~= message_views(before) + opt_seq(
                        opt_message(None),
                    ));
                },
            }
            i = i + 1;
        }
        assert(text@.subrange(0, n as int) =~= text@);
        out
    }
}

} // verus!
