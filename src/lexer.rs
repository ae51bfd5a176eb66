use vstd::prelude::*;

use crate::text::push_char;

verus! {

/// Which field of a line the lexer last delimited; also the kind of a token.
///
/// `Start` means that no field of the current line has been delimited yet.
/// As a token kind it marks the end of a line that carried no body.
#[derive(Clone, Copy, Debug, PartialEq, Eq, Structural)]
pub enum ParserState {
    Start,
    Prefix,
    Command,
    Params,
    Message,
}

/// What the lexer is in the middle of reading.
#[derive(Clone, Copy, Debug, PartialEq, Eq, Structural)]
pub enum Phase {
    /// Between fields: the next character decides what comes.
    Idle,
    Prefix,
    /// An alphabetic command.
    Command,
    /// A numeric command, with the number of characters still to take.
    Numeric(u8),
    Params,
    Body,
}

/// A delimited field of a line.
pub struct Token {
    pub kind: ParserState,
    pub text: String,
    /// The line ended with this token.
    pub ends_line: bool,
}

pub struct TokenView {
    pub kind: ParserState,
    pub text: Seq<char>,
    pub ends_line: bool,
}

impl View for Token {
    type V = TokenView;

    open spec fn view(&self) -> TokenView {
        TokenView { kind: self.kind, text: self.text@, ends_line: self.ends_line }
    }
}

pub open spec fn token(kind: ParserState, text: Seq<char>, ends_line: bool) -> TokenView {
    TokenView { kind, text, ends_line }
}

pub open spec fn opt_token(t: Option<Token>) -> Option<TokenView> {
    match t {
        Some(t) => Some(t@),
        None => None,
    }
}

/// The lexer's whole state: the last delimited field, what is being read,
/// the characters of the field read so far, and whether a carriage return
/// after them is held back until the next character shows whether it ends
/// the line.
pub struct LexView {
    pub state: ParserState,
    pub phase: Phase,
    pub buf: Seq<char>,
    pub cr: bool,
}

pub open spec fn is_letter(c: char) -> bool {
    ('a' <= c && c <= 'z') || ('A' <= c && c <= 'Z')
}

pub open spec fn is_digit(c: char) -> bool {
    '0' <= c && c <= '9'
}

pub open spec fn idle(state: ParserState) -> LexView {
    LexView { state, phase: Phase::Idle, buf: Seq::empty(), cr: false }
}

/// The state in which a connection starts, and to which each line returns.
pub open spec fn initial() -> LexView {
    idle(ParserState::Start)
}

/// The field's text with the held-back carriage return, if any.
pub open spec fn held(m: LexView) -> Seq<char> {
    if m.cr {
        m.buf.push('\r')
    } else {
        m.buf
    }
}

/// A field of `phase` that starts with `buf`.
pub open spec fn opened(st: ParserState, phase: Phase, buf: Seq<char>) -> LexView {
    LexView { state: st, phase, buf, cr: false }
}

/// One character between fields. A carriage return or a space there is
/// skipped.
pub open spec fn idle_step(st: ParserState, c: char) -> (LexView, Option<TokenView>) {
    if c == '\r' || c == ' ' {
        (idle(st), None)
    } else if c == '\n' {
        if st == ParserState::Start {
            (idle(st), None)
        } else {
            (initial(), Some(token(ParserState::Start, Seq::empty(), true)))
        }
    } else if st == ParserState::Command || st == ParserState::Params {
        if c == ':' {
            (opened(st, Phase::Body, Seq::empty()), None)
        } else {
            (opened(st, Phase::Params, seq![c]), None)
        }
    } else if st == ParserState::Start && c == ':' {
        (opened(st, Phase::Prefix, Seq::empty()), None)
    } else if is_digit(c) {
        (opened(st, Phase::Numeric(2), seq![c]), None)
    } else if is_letter(c) {
        (opened(st, Phase::Command, seq![c]), None)
    } else {
        (idle(st), None)
    }
}

/// One character of the prefix, which only a space ends.
pub open spec fn prefix_step(m: LexView, c: char) -> (LexView, Option<TokenView>) {
    if c == ' ' {
        (idle(ParserState::Prefix), Some(token(ParserState::Prefix, m.buf, false)))
    } else {
        (LexView { buf: m.buf.push(c), ..m }, None)
    }
}

/// One character of an alphabetic command or a parameter. A space ends the
/// field; a line feed ends it and the line, and drops a carriage return
/// held just before it; any other carriage return stays in the field.
pub open spec fn word_step(m: LexView, kind: ParserState, c: char) -> (
    LexView,
    Option<TokenView>,
) {
    if c == '\n' {
        (initial(), Some(token(kind, m.buf, true)))
    } else if c == ' ' {
        (idle(kind), Some(token(kind, held(m), false)))
    } else if c == '\r' {
        (LexView { buf: held(m), cr: true, ..m }, None)
    } else {
        (LexView { buf: held(m).push(c), cr: false, ..m }, None)
    }
}

/// One character of a numeric command, `left` characters still to take.
/// It takes any three characters but a line feed; the next character but a
/// carriage return is consumed and ends it.
pub open spec fn numeric_step(m: LexView, left: u8, c: char) -> (LexView, Option<TokenView>) {
    if c == '\n' {
        (initial(), Some(token(ParserState::Command, m.buf, true)))
    } else if left > 0 {
        (LexView { phase: Phase::Numeric((left - 1) as u8), buf: m.buf.push(c), ..m }, None)
    } else if c == '\r' {
        (m, None)
    } else {
        (idle(ParserState::Command), Some(token(ParserState::Command, m.buf, false)))
    }
}

/// One character of the body, which only the line feed ends; a carriage
/// return in it is ignored.
pub open spec fn body_step(m: LexView, c: char) -> (LexView, Option<TokenView>) {
    if c == '\r' {
        (m, None)
    } else if c == '\n' {
        (initial(), Some(token(ParserState::Message, m.buf, true)))
    } else {
        (LexView { buf: m.buf.push(c), ..m }, None)
    }
}

/// The transition function: the state after one more character, and the
/// token that this character completes, if any.
pub open spec fn step(m: LexView, c: char) -> (LexView, Option<TokenView>) {
    match m.phase {
        Phase::Idle => idle_step(m.state, c),
        Phase::Prefix => prefix_step(m, c),
        Phase::Command => word_step(m, ParserState::Command, c),
        Phase::Numeric(left) => numeric_step(m, left, c),
        Phase::Params => word_step(m, ParserState::Params, c),
        Phase::Body => body_step(m, c),
    }
}

/// The end of the stream: a prefix being read is complete and handed out;
/// any other open field stays as it is, never handed out.
pub open spec fn finish_step(m: LexView) -> (LexView, Option<TokenView>) {
    if m.phase == Phase::Prefix {
        (initial(), Some(token(ParserState::Prefix, m.buf, true)))
    } else {
        (m, None)
    }
}

pub open spec fn opt_seq<A>(o: Option<A>) -> Seq<A> {
    match o {
        Some(a) => seq![a],
        None => Seq::empty(),
    }
}

/// Feeding a whole sequence of characters: the final state and the tokens
/// emitted, in order.
pub open spec fn run(m: LexView, s: Seq<char>) -> (LexView, Seq<TokenView>)
    decreases s.len(),
{
    if s.len() == 0 {
        (m, Seq::empty())
    } else {
        let (m1, ts) = run(m, s.drop_last());
        let (m2, o) = step(m1, s.last());
        (m2, ts + opt_seq(o))
    }
}

/// The tokens of a stream, read from the start.
pub open spec fn tokens_of(s: Seq<char>) -> Seq<TokenView> {
    run(initial(), s).1
}

/// The incremental lexer: it takes one character at a time and hands out
/// each token as soon as it is delimited, so no line is ever buffered whole.
pub struct Parser {
    state: ParserState,
    phase: Phase,
    buf: String,
    cr: bool,
}

impl View for Parser {
    type V = LexView;

    closed spec fn view(&self) -> LexView {
        LexView { state: self.state, phase: self.phase, buf: self.buf@, cr: self.cr }
    }
}

pub open spec fn token_views(v: Seq<Token>) -> Seq<TokenView> {
    v.map_values(|t: Token| t@)
}

impl Parser {
    pub fn new() -> (r: Parser)
        ensures
            r@ == initial(),
    {
        Parser { state: ParserState::Start, phase: Phase::Idle, buf: String::new(), cr: false }
    }

    /// The last delimited field of the current line.
    pub fn state(&self) -> (r: ParserState)
        ensures
            r == self@.state,
    {
        self.state
    }

    fn go_idle(&mut self, state: ParserState)
        ensures
            final(self)@ == idle(state),
    {
        self.state = state;
        self.phase = Phase::Idle;
        self.buf = String::new();
        self.cr = false;
    }

    fn begin(&mut self, phase: Phase, buf: Option<char>)
        ensures
            final(self)@ == opened(old(self)@.state, phase, opt_seq(buf)),
    {
        self.phase = phase;
        self.cr = false;
        self.buf = String::new();
        match buf {
            Some(c) => push_char(&mut self.buf, c),
            None => {},
        }
        assert(self.buf@ =~= opt_seq(buf));
    }

    /// Ends the current field: the token carries the field's text, and the
    /// lexer goes idle with `state` as the last delimited field.
    fn emit(&mut self, kind: ParserState, state: ParserState, ends_line: bool) -> (r: Token)
        ensures
            final(self)@ == idle(state),
            r@ == token(kind, old(self)@.buf, ends_line),
    {
        let mut text = String::new();
        std::mem::swap(&mut text, &mut self.buf);
        self.go_idle(state);
        Token { kind, text, ends_line }
    }

    fn feed_idle(&mut self, c: char) -> (r: Option<Token>)
        requires
            old(self)@.phase == Phase::Idle,
        ensures
            (final(self)@, opt_token(r)) == idle_step(old(self)@.state, c),
    {
        let st = self.state;
        if c == '\r' || c == ' ' {
            self.go_idle(st);
            None
        } else if c == '\n' {
            if st == ParserState::Start {
                self.go_idle(st);
                None
            } else {
                self.go_idle(ParserState::Start);
                let r = Token { kind: ParserState::Start, text: String::new(), ends_line: true };
                Some(r)
            }
        } else if st == ParserState::Command || st == ParserState::Params {
            if c == ':' {
                self.begin(Phase::Body, None);
            } else {
                self.begin(Phase::Params, Some(c));
            }
            None
        } else if st == ParserState::Start && c == ':' {
            self.begin(Phase::Prefix, None);
            None
        } else if '0' <= c && c <= '9' {
            self.begin(Phase::Numeric(2), Some(c));
            None
        } else if ('a' <= c && c <= 'z') || ('A' <= c && c <= 'Z') {
            self.begin(Phase::Command, Some(c));
            None
        } else {
            self.go_idle(st);
            None
        }
    }

    fn feed_prefix(&mut self, c: char) -> (r: Option<Token>)
        ensures
            (final(self)@, opt_token(r)) == prefix_step(old(self)@, c),
    {
        if c == ' ' {
            Some(self.emit(ParserState::Prefix, ParserState::Prefix, false))
        } else {
            push_char(&mut self.buf, c);
            None
        }
    }

    /// Puts a held-back carriage return into the field.
    fn release(&mut self)
        ensures
            final(self)@ == (LexView { buf: held(old(self)@), cr: false, ..old(self)@ }),
    {
        if self.cr {
            push_char(&mut self.buf, '\r');
            self.cr = false;
        }
    }

    fn feed_word(&mut self, kind: ParserState, c: char) -> (r: Option<Token>)
        ensures
            (final(self)@, opt_token(r)) == word_step(old(self)@, kind, c),
    {
        if c == '\n' {
            Some(self.emit(kind, ParserState::Start, true))
        } else if c == ' ' {
            self.release();
            Some(self.emit(kind, kind, false))
        } else if c == '\r' {
            self.release();
            self.cr = true;
            None
        } else {
            self.release();
            push_char(&mut self.buf, c);
            None
        }
    }

    fn feed_numeric(&mut self, left: u8, c: char) -> (r: Option<Token>)
        requires
            old(self)@.phase == Phase::Numeric(left),
        ensures
            (final(self)@, opt_token(r)) == numeric_step(old(self)@, left, c),
    {
        if c == '\n' {
            Some(self.emit(ParserState::Command, ParserState::Start, true))
        } else if left > 0 {
            self.phase = Phase::Numeric(left - 1);
            push_char(&mut self.buf, c);
            None
        } else if c == '\r' {
            None
        } else {
            Some(self.emit(ParserState::Command, ParserState::Command, false))
        }
    }

    fn feed_body(&mut self, c: char) -> (r: Option<Token>)
        ensures
            (final(self)@, opt_token(r)) == body_step(old(self)@, c),
    {
        if c == '\r' {
            None
        } else if c == '\n' {
            Some(self.emit(ParserState::Message, ParserState::Start, true))
        } else {
            push_char(&mut self.buf, c);
            None
        }
    }

    /// Consumes one character; returns the token it completes, if any.
    pub fn feed(&mut self, c: char) -> (r: Option<Token>)
        ensures
            (final(self)@, opt_token(r)) == step(old(self)@, c),
    {
        match self.phase {
            Phase::Idle => self.feed_idle(c),
            Phase::Prefix => self.feed_prefix(c),
            Phase::Command => self.feed_word(ParserState::Command, c),
            Phase::Numeric(left) => self.feed_numeric(left, c),
            Phase::Params => self.feed_word(ParserState::Params, c),
            Phase::Body => self.feed_body(c),
        }
    }

    /// Tells the lexer that the stream has ended. A prefix being read is
    /// complete at the end of the stream, and is handed out; any other open
    /// field is left as it is and never handed out.
    pub fn finish(&mut self) -> (r: Option<Token>)
        ensures
            (final(self)@, opt_token(r)) == finish_step(old(self)@),
    {
        if self.phase == Phase::Prefix {
            Some(self.emit(ParserState::Prefix, ParserState::Start, true))
        } else {
            None
        }
    }

    /// Feeds a chunk of the stream; returns the tokens it completes, in
    /// order. A field left open at the end of the chunk carries over to the
    /// next one.
    pub fn tokens(&mut self, text: &str) -> (r: Vec<Token>)
        ensures
            (final(self)@, token_views(r@)) == run(old(self)@, text@),
    {
        let n = text.unicode_len();
        let mut out: Vec<Token> = Vec::new();
        let mut i: usize = 0;
        while i < n
            invariant
                n == text@.len(),
                i <= n,
                (self@, token_views(out@)) == run(old(self)@, text@.subrange(0, i as int)),
            decreases n - i,
        {
            let c = text.get_char(i);
            let ghost before = out@;
            let t = self.feed(c);
            proof {
                let s = text@.subrange(0, i + 1);
                assert(s.drop_last() =~= text@.subrange(0, i as int));
            }
            match t {
                Some(t) => {
                    out.push(t);
                    assert(token_views(out@) =~= token_views(before) + opt_seq(opt_token(Some(t))));
                },
                None => {
                    assert(token_views(out@) =~= token_views(before) + opt_seq(opt_token(None)));
                },
            }
            i = i + 1;
        }
        assert(text@.subrange(0, n as int) =~= text@);
        out
    }
}

} // verus!
