//! What the decoder guarantees about whole lines and streams.
use vstd::prelude::*;

use crate::lexer::{
    held, idle, initial, is_digit, is_letter, opened, opt_seq, run, step, token, LexView,
    ParserState, Phase, TokenView,
};
use crate::parser::{
    absorb, assemble, decode, decode_run, decode_step, encode_line, fresh, join_param, start,
    AsmView, MessageView, ParserView, State,
};

verus! {

/// Any characters but a space.
pub open spec fn is_prefix(p: Seq<char>) -> bool {
    forall|i: int| 0 <= i < p.len() ==> #[trigger] p[i] != ' '
}

/// `1*letter / 3digit`.
pub open spec fn is_command(c: Seq<char>) -> bool {
    ||| (c.len() >= 1 && forall|i: int| 0 <= i < c.len() ==> is_letter(#[trigger] c[i]))
    ||| (c.len() == 3 && forall|i: int| 0 <= i < c.len() ==> is_digit(#[trigger] c[i]))
}

/// A middle parameter: at least one character, none a space, a colon or a
/// line feed. It does not start with a carriage return, which between
/// fields is skipped.
pub open spec fn is_middle(m: Seq<char>) -> bool {
    &&& m.len() > 0
    &&& m[0] != '\r'
    &&& forall|i: int| 0 <= i < m.len() ==> #[trigger] m[i] != ' ' && m[i] != ':' && m[i] != '\n'
}

/// The body: no line break; a carriage return in it is ignored.
pub open spec fn is_body(b: Seq<char>) -> bool {
    forall|i: int| 0 <= i < b.len() ==> #[trigger] b[i] != '\r' && b[i] != '\n'
}

pub open spec fn all_middles(ms: Seq<Seq<char>>) -> bool {
    forall|i: int| 0 <= i < ms.len() ==> is_middle(#[trigger] ms[i])
}

/// Middle parameters joined by single spaces, as the decoder joins them.
pub open spec fn join_all(ms: Seq<Seq<char>>) -> Seq<char>
    decreases ms.len(),
{
    if ms.len() == 0 {
        Seq::empty()
    } else {
        join_param(join_all(ms.drop_last()), ms.last())
    }
}

/// The message whose fields a well-formed line carries.
pub open spec fn message_of(
    prefix: Seq<char>,
    command: Seq<char>,
    middles: Seq<Seq<char>>,
    body: Seq<char>,
) -> MessageView {
    MessageView { prefix, command, params: join_all(middles), body }
}

/// The fields of a line that the grammar allows, ended by a line feed
/// after a carriage return where `cr` holds. Without that carriage return,
/// a line with no body does not end its last middle with one, which would
/// read as part of the line terminator.
pub open spec fn well_formed(
    prefix: Seq<char>,
    command: Seq<char>,
    middles: Seq<Seq<char>>,
    body: Seq<char>,
    cr: bool,
) -> bool {
    &&& is_prefix(prefix)
    &&& is_command(command)
    &&& all_middles(middles)
    &&& is_body(body)
    &&& (cr || body.len() > 0 || middles.len() == 0 || middles.last().last() != '\r')
}

// ---- the lexer over pieces of a line ----

proof fn lemma_run_append(m: LexView, a: Seq<char>, b: Seq<char>)
    ensures
        run(m, a + b) == (run(run(m, a).0, b).0, run(m, a).1 + run(run(m, a).0, b).1),
    decreases b.len(),
{
    if b.len() == 0 {
        assert(a + b =~= a);
        assert(run(m, a).1 + Seq::<TokenView>::empty() =~= run(m, a).1);
    } else {
        lemma_run_append(m, a, b.drop_last());
        assert((a + b).drop_last() =~= a + b.drop_last());
        assert((a + b).last() == b.last());
        let (m1, t1) = run(m, a);
        let (m2, t2) = run(m1, b.drop_last());
        let (m3, o) = step(m2, b.last());
        assert(t1 + t2 + opt_seq(o) =~= t1 + (t2 + opt_seq(o)));
    }
}

proof fn lemma_run_one(m: LexView, c: char)
    ensures
        run(m, seq![c]) == (step(m, c).0, opt_seq(step(m, c).1)),
{
    reveal_with_fuel(run, 2);
    assert(seq![c].drop_last() =~= Seq::<char>::empty());
    assert(Seq::<TokenView>::empty() + opt_seq(step(m, c).1) =~= opt_seq(step(m, c).1));
}

/// Inside the prefix, everything but a space lengthens it.
proof fn lemma_run_prefix(m: LexView, s: Seq<char>)
    requires
        m.phase == Phase::Prefix,
        is_prefix(s),
    ensures
        run(m, s) == (LexView { buf: m.buf + s, ..m }, Seq::<TokenView>::empty()),
    decreases s.len(),
{
    if s.len() == 0 {
        assert(m.buf + s =~= m.buf);
    } else {
        lemma_run_prefix(m, s.drop_last());
        assert(s[s.len() - 1] != ' ');
        assert(m.buf + s.drop_last() + seq![s.last()] =~= m.buf + s);
        assert(m.buf + s.drop_last() + seq![s.last()] == (m.buf + s.drop_last()).push(s.last()));
    }
}

/// Inside the body, everything but a line break lengthens it.
proof fn lemma_run_body(m: LexView, s: Seq<char>)
    requires
        m.phase == Phase::Body,
        is_body(s),
    ensures
        run(m, s) == (LexView { buf: m.buf + s, ..m }, Seq::<TokenView>::empty()),
    decreases s.len(),
{
    if s.len() == 0 {
        assert(m.buf + s =~= m.buf);
    } else {
        lemma_run_body(m, s.drop_last());
        assert(s[s.len() - 1] != '\r' && s[s.len() - 1] != '\n');
        assert(m.buf + s.drop_last() + seq![s.last()] =~= m.buf + s);
        assert(m.buf + s.drop_last() + seq![s.last()] == (m.buf + s.drop_last()).push(s.last()));
    }
}

/// Inside a command or a parameter, everything but a space or a line feed
/// lengthens it; a final carriage return is held back.
proof fn lemma_run_word(m: LexView, s: Seq<char>)
    requires
        m.phase == Phase::Command || m.phase == Phase::Params,
        !m.cr,
        forall|i: int| 0 <= i < s.len() ==> #[trigger] s[i] != ' ' && s[i] != '\n',
    ensures
        run(m, s).1 == Seq::<TokenView>::empty(),
        run(m, s).0.state == m.state,
        run(m, s).0.phase == m.phase,
        held(run(m, s).0) == m.buf + s,
        run(m, s).0.cr == (s.len() > 0 && s.last() == '\r'),
    decreases s.len(),
{
    if s.len() == 0 {
        assert(m.buf + s =~= m.buf);
    } else {
        let front = s.drop_last();
        lemma_run_word(m, front);
        assert(s[s.len() - 1] != ' ' && s[s.len() - 1] != '\n');
        assert(held(run(m, front).0).push(s.last()) =~= m.buf + s);
        assert(Seq::<TokenView>::empty() + opt_seq(None::<TokenView>)
            =~= Seq::<TokenView>::empty());
    }
}

/// A field left open, whose text is `b`, that a space would end as a token
/// of kind `k`.
spec fn open_field(l: LexView, k: ParserState, b: Seq<char>) -> bool {
    ||| {
        &&& ((l.phase == Phase::Params && k == ParserState::Params) || (l.phase == Phase::Command
            && k == ParserState::Command))
        &&& held(l) == b
        &&& l.cr == (b.len() > 0 && b.last() == '\r')
    }
    ||| (l.phase == Phase::Numeric(0) && k == ParserState::Command && l.buf == b && !l.cr)
}

/// The prefix part `":" prefix " "`.
proof fn lemma_prefix(prefix: Seq<char>)
    requires
        is_prefix(prefix),
    ensures
        run(initial(), seq![':'] + prefix + seq![' ']) == (
            idle(ParserState::Prefix),
            seq![token(ParserState::Prefix, prefix, false)],
        ),
{
    let m1 = opened(ParserState::Start, Phase::Prefix, Seq::empty());
    lemma_run_one(initial(), ':');
    lemma_run_prefix(m1, prefix);
    assert(Seq::<char>::empty() + prefix =~= prefix);
    let m2 = LexView { buf: prefix, ..m1 };
    lemma_run_one(m2, ' ');
    lemma_run_append(initial(), seq![':'], prefix);
    lemma_run_append(initial(), seq![':'] + prefix, seq![' ']);
    assert(Seq::<TokenView>::empty() + Seq::<TokenView>::empty() =~= Seq::<TokenView>::empty());
    assert(Seq::<TokenView>::empty() + seq![token(ParserState::Prefix, prefix, false)]
        =~= seq![token(ParserState::Prefix, prefix, false)]);
}

proof fn lemma_alpha_command(st: ParserState, command: Seq<char>)
    requires
        st == ParserState::Start || st == ParserState::Prefix,
        command.len() >= 1,
        forall|i: int| 0 <= i < command.len() ==> is_letter(#[trigger] command[i]),
    ensures
        open_field(run(idle(st), command).0, ParserState::Command, command),
        run(idle(st), command).1 == Seq::<TokenView>::empty(),
{
    let c0 = command[0];
    let rest = command.drop_first();
    assert(command =~= seq![c0] + rest);
    assert(is_letter(c0));
    lemma_run_one(idle(st), c0);
    let m1 = opened(st, Phase::Command, seq![c0]);
    assert forall|i: int| 0 <= i < rest.len() implies #[trigger] rest[i] != ' ' && rest[i]
        != '\n' by {
        assert(rest[i] == command[i + 1]);
        assert(is_letter(command[i + 1]));
    }
    lemma_run_word(m1, rest);
    lemma_run_append(idle(st), seq![c0], rest);
    assert(is_letter(command[command.len() - 1]));
    if rest.len() > 0 {
        assert(rest.last() == command.last());
    }
    assert(Seq::<TokenView>::empty() + Seq::<TokenView>::empty() =~= Seq::<TokenView>::empty());
}

proof fn lemma_numeric_command(st: ParserState, command: Seq<char>)
    requires
        st == ParserState::Start || st == ParserState::Prefix,
        command.len() == 3,
        is_digit(command[0]),
        command[1] != '\n' && command[2] != '\n',
    ensures
        run(idle(st), command) == (
            opened(st, Phase::Numeric(0), command),
            Seq::<TokenView>::empty(),
        ),
{
    let c0 = command[0];
    let c1 = command[1];
    let c2 = command[2];
    assert(command =~= seq![c0] + seq![c1] + seq![c2]);
    lemma_run_one(idle(st), c0);
    let m1 = opened(st, Phase::Numeric(2), seq![c0]);
    lemma_run_one(m1, c1);
    assert(seq![c0].push(c1) =~= seq![c0, c1]);
    let m2 = opened(st, Phase::Numeric(1), seq![c0, c1]);
    lemma_run_one(m2, c2);
    assert(seq![c0, c1].push(c2) =~= command);
    lemma_run_append(idle(st), seq![c0], seq![c1]);
    lemma_run_append(idle(st), seq![c0] + seq![c1], seq![c2]);
    assert(Seq::<TokenView>::empty() + Seq::<TokenView>::empty() =~= Seq::<TokenView>::empty());
}

/// The command, read from the start of a line or after a prefix: it is
/// left open.
proof fn lemma_command(st: ParserState, command: Seq<char>)
    requires
        st == ParserState::Start || st == ParserState::Prefix,
        is_command(command),
    ensures
        open_field(run(idle(st), command).0, ParserState::Command, command),
        run(idle(st), command).1 == Seq::<TokenView>::empty(),
{
    if command.len() >= 1 && forall|i: int|
        0 <= i < command.len() ==> is_letter(#[trigger] command[i]) {
        lemma_alpha_command(st, command);
    } else {
        assert(is_digit(command[0]) && is_digit(command[1]) && is_digit(command[2]));
        lemma_numeric_command(st, command);
    }
}

/// `" " middle` after an open field: the space hands out that field, and
/// the middle is left open.
#[verifier::rlimit(40)]
proof fn lemma_middle(l: LexView, k: ParserState, b: Seq<char>, m: Seq<char>)
    requires
        open_field(l, k, b),
        is_middle(m),
    ensures
        open_field(run(l, seq![' '] + m).0, ParserState::Params, m),
        run(l, seq![' '] + m).1 == seq![token(k, b, false)],
{
    let c0 = m[0];
    let rest = m.drop_first();
    assert(c0 != ' ' && c0 != ':' && c0 != '\n' && c0 != '\r');
    lemma_run_one(l, ' ');
    assert(step(l, ' ') == (idle(k), Some(token(k, b, false))));
    lemma_run_one(idle(k), c0);
    let m1 = opened(k, Phase::Params, seq![c0]);
    assert forall|i: int| 0 <= i < rest.len() implies #[trigger] rest[i] != ' ' && rest[i]
        != '\n' by {
        assert(rest[i] == m[i + 1]);
    }
    lemma_run_word(m1, rest);
    assert(seq![c0] + rest =~= m);
    if rest.len() > 0 {
        assert(rest.last() == m.last());
    }
    assert(seq![' '] + m =~= seq![' '] + seq![c0] + rest);
    lemma_run_append(l, seq![' '], seq![c0]);
    lemma_run_append(l, seq![' '] + seq![c0], rest);
    assert(seq![token(k, b, false)] + Seq::<TokenView>::empty() =~= seq![token(k, b, false)]);
}

/// `" " middle` for each middle parameter in turn.
spec fn params_part(ms: Seq<Seq<char>>) -> Seq<char>
    decreases ms.len(),
{
    if ms.len() == 0 {
        Seq::empty()
    } else {
        params_part(ms.drop_last()) + seq![' '] + ms.last()
    }
}

/// The field left open after the middles `ms`, when `b` of kind `k` was
/// open before them.
spec fn open_after(k: ParserState, b: Seq<char>, ms: Seq<Seq<char>>) -> (ParserState, Seq<char>) {
    if ms.len() == 0 {
        (k, b)
    } else {
        (ParserState::Params, ms.last())
    }
}

/// The tokens that the middles `ms` hand out: each space ends the field
/// open before it.
spec fn middle_tokens(k: ParserState, b: Seq<char>, ms: Seq<Seq<char>>) -> Seq<TokenView>
    decreases ms.len(),
{
    if ms.len() == 0 {
        Seq::empty()
    } else {
        let (k1, b1) = open_after(k, b, ms.drop_last());
        middle_tokens(k, b, ms.drop_last()).push(token(k1, b1, false))
    }
}

proof fn lemma_middles(l: LexView, k: ParserState, b: Seq<char>, ms: Seq<Seq<char>>)
    requires
        open_field(l, k, b),
        all_middles(ms),
    ensures
        open_field(run(l, params_part(ms)).0, open_after(k, b, ms).0, open_after(k, b, ms).1),
        run(l, params_part(ms)).1 == middle_tokens(k, b, ms),
    decreases ms.len(),
{
    if ms.len() == 0 {
        reveal_with_fuel(run, 1);
    } else {
        let front = ms.drop_last();
        let m = ms.last();
        assert(all_middles(front)) by {
            assert forall|i: int| 0 <= i < front.len() implies is_middle(#[trigger] front[i]) by {
                assert(front[i] == ms[i]);
            }
        }
        assert(is_middle(ms[ms.len() - 1]));
        lemma_middles(l, k, b, front);
        let l1 = run(l, params_part(front)).0;
        let (k1, b1) = open_after(k, b, front);
        lemma_middle(l1, k1, b1, m);
        assert(params_part(ms) =~= params_part(front) + (seq![' '] + m));
        lemma_run_append(l, params_part(front), seq![' '] + m);
        assert(middle_tokens(k, b, front) + seq![token(k1, b1, false)] =~= middle_tokens(
            k,
            b,
            front,
        ).push(token(k1, b1, false)));
    }
}

spec fn crs(cr: bool) -> Seq<char> {
    if cr {
        seq!['\r']
    } else {
        Seq::empty()
    }
}

/// The end of a line without a body: a carriage return before the line
/// feed is dropped, and the line feed hands out the open field as the
/// line's last token.
proof fn lemma_end_plain(l: LexView, k: ParserState, b: Seq<char>, cr: bool)
    requires
        open_field(l, k, b),
        cr || !(b.len() > 0 && b.last() == '\r'),
    ensures
        run(l, crs(cr)).1 == Seq::<TokenView>::empty(),
        step(run(l, crs(cr)).0, '\n') == (initial(), Some(token(k, b, true))),
{
    if cr {
        lemma_run_one(l, '\r');
    } else {
        reveal_with_fuel(run, 1);
    }
}

/// The end of a line with a body: `" :" body` hands out the open field and
/// leaves the body open; a carriage return is ignored; the line feed hands
/// out the body.
proof fn lemma_end_body(l: LexView, k: ParserState, b: Seq<char>, body: Seq<char>, cr: bool)
    requires
        open_field(l, k, b),
        is_body(body),
    ensures
        run(l, seq![' ', ':'] + body + crs(cr)) == (
            opened(k, Phase::Body, body),
            seq![token(k, b, false)],
        ),
        step(opened(k, Phase::Body, body), '\n') == (
            initial(),
            Some(token(ParserState::Message, body, true)),
        ),
{
    lemma_run_one(l, ' ');
    assert(step(l, ' ') == (idle(k), Some(token(k, b, false))));
    lemma_run_one(idle(k), ':');
    let m1 = opened(k, Phase::Body, Seq::empty());
    lemma_run_body(m1, body);
    assert(Seq::<char>::empty() + body =~= body);
    let m2 = opened(k, Phase::Body, body);
    assert(seq![' ', ':'] =~= seq![' '] + seq![':']);
    lemma_run_append(l, seq![' '], seq![':']);
    lemma_run_append(l, seq![' ', ':'], body);
    if cr {
        lemma_run_one(m2, '\r');
    } else {
        reveal_with_fuel(run, 1);
    }
    lemma_run_append(l, seq![' ', ':'] + body, crs(cr));
    assert(seq![token(k, b, false)] + Seq::<TokenView>::empty() =~= seq![token(k, b, false)]);
}

spec fn prefix_part(prefix: Seq<char>) -> Seq<char> {
    if prefix.len() > 0 {
        seq![':'] + prefix + seq![' ']
    } else {
        Seq::empty()
    }
}

/// What follows the middles, up to the final line feed.
spec fn end_part(body: Seq<char>, cr: bool) -> Seq<char> {
    if body.len() > 0 {
        seq![' ', ':'] + body + crs(cr)
    } else {
        crs(cr)
    }
}

/// A line without its final line feed.
spec fn line_head(
    prefix: Seq<char>,
    command: Seq<char>,
    ms: Seq<Seq<char>>,
    body: Seq<char>,
    cr: bool,
) -> Seq<char> {
    prefix_part(prefix) + command + params_part(ms) + end_part(body, cr)
}

spec fn prefix_tokens(prefix: Seq<char>) -> Seq<TokenView> {
    if prefix.len() > 0 {
        seq![token(ParserState::Prefix, prefix, false)]
    } else {
        Seq::empty()
    }
}

/// The tokens of a line without its final line feed.
spec fn head_tokens(
    prefix: Seq<char>,
    command: Seq<char>,
    ms: Seq<Seq<char>>,
    body: Seq<char>,
) -> Seq<TokenView> {
    let (k, b) = open_after(ParserState::Command, command, ms);
    prefix_tokens(prefix) + middle_tokens(ParserState::Command, command, ms) + (if body.len()
        > 0 {
        seq![token(k, b, false)]
    } else {
        Seq::empty()
    })
}

/// The token that the final line feed hands out.
spec fn last_token(command: Seq<char>, ms: Seq<Seq<char>>, body: Seq<char>) -> TokenView {
    let (k, b) = open_after(ParserState::Command, command, ms);
    if body.len() > 0 {
        token(ParserState::Message, body, true)
    } else {
        token(k, b, true)
    }
}

#[verifier::rlimit(40)]
proof fn lemma_line_tokens(
    prefix: Seq<char>,
    command: Seq<char>,
    ms: Seq<Seq<char>>,
    body: Seq<char>,
    cr: bool,
)
    requires
        well_formed(prefix, command, ms, body, cr),
    ensures
        run(initial(), line_head(prefix, command, ms, body, cr)).1 == head_tokens(
            prefix,
            command,
            ms,
            body,
        ),
        step(run(initial(), line_head(prefix, command, ms, body, cr)).0, '\n') == (
            initial(),
            Some(last_token(command, ms, body)),
        ),
{
    let st0 = if prefix.len() > 0 {
        ParserState::Prefix
    } else {
        ParserState::Start
    };
    if prefix.len() > 0 {
        lemma_prefix(prefix);
    } else {
        reveal_with_fuel(run, 1);
    }
    assert(run(initial(), prefix_part(prefix)) == (idle(st0), prefix_tokens(prefix)));
    lemma_command(st0, command);
    let l1 = run(idle(st0), command).0;
    lemma_middles(l1, ParserState::Command, command, ms);
    let l2 = run(l1, params_part(ms)).0;
    let (k, b) = open_after(ParserState::Command, command, ms);
    if body.len() > 0 {
        lemma_end_body(l2, k, b, body, cr);
    } else {
        if ms.len() == 0 {
            if command.len() >= 1 && forall|i: int|
                0 <= i < command.len() ==> is_letter(#[trigger] command[i]) {
                assert(is_letter(command[command.len() - 1]));
            } else {
                assert(is_digit(command[2]));
            }
        }
        lemma_end_plain(l2, k, b, cr);
    }
    let pp = prefix_part(prefix);
    lemma_run_append(initial(), pp, command);
    lemma_run_append(initial(), pp + command, params_part(ms));
    lemma_run_append(initial(), pp + command + params_part(ms), end_part(body, cr));
    assert(prefix_tokens(prefix) + Seq::<TokenView>::empty() =~= prefix_tokens(prefix));
    let tail = if body.len() > 0 {
        seq![token(k, b, false)]
    } else {
        Seq::<TokenView>::empty()
    };
    assert(prefix_tokens(prefix) + middle_tokens(ParserState::Command, command, ms) + tail
        == head_tokens(prefix, command, ms, body));
}

proof fn lemma_join(ms: Seq<Seq<char>>)
    requires
        all_middles(ms),
    ensures
        ms.len() == 0 ==> join_all(ms) == Seq::<char>::empty() && params_part(ms) == Seq::<
            char,
        >::empty(),
        ms.len() > 0 ==> join_all(ms).len() > 0 && seq![' '] + join_all(ms) == params_part(ms),
    decreases ms.len(),
{
    if ms.len() > 0 {
        let front = ms.drop_last();
        assert(all_middles(front)) by {
            assert forall|i: int| 0 <= i < front.len() implies is_middle(#[trigger] front[i]) by {
                assert(front[i] == ms[i]);
            }
        }
        assert(is_middle(ms[ms.len() - 1]));
        lemma_join(front);
        assert(seq![' '] + join_all(ms) =~= params_part(ms));
    }
}

/// A well-formed line is its head and a line feed.
proof fn lemma_encode_split(
    prefix: Seq<char>,
    command: Seq<char>,
    ms: Seq<Seq<char>>,
    body: Seq<char>,
    cr: bool,
)
    requires
        well_formed(prefix, command, ms, body, cr),
    ensures
        encode_line(message_of(prefix, command, ms, body), cr) == line_head(
            prefix,
            command,
            ms,
            body,
            cr,
        ).push('\n'),
{
    lemma_join(ms);
    let q = if join_all(ms).len() > 0 {
        seq![' '] + join_all(ms)
    } else {
        Seq::<char>::empty()
    };
    assert(q == params_part(ms));
    assert(encode_line(message_of(prefix, command, ms, body), cr) =~= line_head(
        prefix,
        command,
        ms,
        body,
        cr,
    ).push('\n'));
}

// ---- the assembler over the tokens of a line ----

proof fn lemma_assemble_append(a: AsmView, t1: Seq<TokenView>, t2: Seq<TokenView>)
    ensures
        assemble(a, t1 + t2) == (
            assemble(assemble(a, t1).0, t2).0,
            assemble(a, t1).1 + assemble(assemble(a, t1).0, t2).1,
        ),
    decreases t2.len(),
{
    if t2.len() == 0 {
        assert(t1 + t2 =~= t1);
        assert(assemble(a, t1).1 + Seq::<MessageView>::empty() =~= assemble(a, t1).1);
    } else {
        lemma_assemble_append(a, t1, t2.drop_last());
        assert((t1 + t2).drop_last() =~= t1 + t2.drop_last());
        assert((t1 + t2).last() == t2.last());
        let (a1, m1) = assemble(a, t1);
        let (a2, m2) = assemble(a1, t2.drop_last());
        let (a3, o) = absorb(a2, t2.last());
        assert(m1 + m2 + opt_seq(o) =~= m1 + (m2 + opt_seq(o)));
    }
}

proof fn lemma_assemble_one(a: AsmView, t: TokenView)
    ensures
        assemble(a, seq![t]) == (absorb(a, t).0, opt_seq(absorb(a, t).1)),
{
    reveal_with_fuel(assemble, 2);
    assert(seq![t].drop_last() =~= Seq::<TokenView>::empty());
    assert(Seq::<MessageView>::empty() + opt_seq(absorb(a, t).1) =~= opt_seq(absorb(a, t).1));
}

/// The assembler after a line's prefix, if any.
spec fn opening(prefix: Seq<char>) -> AsmView {
    AsmView {
        state: if prefix.len() > 0 {
            State::Prefix
        } else {
            State::Start
        },
        msg: MessageView {
            prefix,
            command: Seq::empty(),
            params: Seq::empty(),
            body: Seq::empty(),
        },
    }
}

/// The assembler after the tokens that the middles hand out.
spec fn before_last(prefix: Seq<char>, command: Seq<char>, ms: Seq<Seq<char>>) -> AsmView {
    if ms.len() == 0 {
        opening(prefix)
    } else {
        AsmView {
            state: if ms.len() == 1 {
                State::Command
            } else {
                State::Params
            },
            msg: MessageView {
                prefix,
                command,
                params: join_all(ms.drop_last()),
                body: Seq::empty(),
            },
        }
    }
}

/// The assembler once every field but the body is in.
spec fn all_but_body(prefix: Seq<char>, command: Seq<char>, ms: Seq<Seq<char>>) -> AsmView {
    AsmView {
        state: if ms.len() == 0 {
            State::Command
        } else {
            State::Params
        },
        msg: MessageView { prefix, command, params: join_all(ms), body: Seq::empty() },
    }
}

proof fn lemma_assemble_middles(prefix: Seq<char>, command: Seq<char>, ms: Seq<Seq<char>>)
    ensures
        assemble(opening(prefix), middle_tokens(ParserState::Command, command, ms)) == (
            before_last(prefix, command, ms),
            Seq::<MessageView>::empty(),
        ),
    decreases ms.len(),
{
    if ms.len() == 0 {
        reveal_with_fuel(assemble, 1);
    } else {
        let front = ms.drop_last();
        lemma_assemble_middles(prefix, command, front);
        let (k1, b1) = open_after(ParserState::Command, command, front);
        let t = token(k1, b1, false);
        assert(middle_tokens(ParserState::Command, command, ms).drop_last() =~= middle_tokens(
            ParserState::Command,
            command,
            front,
        ));
        assert(absorb(before_last(prefix, command, front), t) == (
            before_last(prefix, command, ms),
            None::<MessageView>,
        ));
        assert(Seq::<MessageView>::empty() + opt_seq(None::<MessageView>)
            =~= Seq::<MessageView>::empty());
    }
}

proof fn lemma_assemble_line(
    prefix: Seq<char>,
    command: Seq<char>,
    ms: Seq<Seq<char>>,
    body: Seq<char>,
)
    ensures
        assemble(fresh(), head_tokens(prefix, command, ms, body)).1 == Seq::<MessageView>::empty(),
        absorb(
            assemble(fresh(), head_tokens(prefix, command, ms, body)).0,
            last_token(command, ms, body),
        ) == (fresh(), Some(message_of(prefix, command, ms, body))),
{
    let (k, b) = open_after(ParserState::Command, command, ms);
    let pt = prefix_tokens(prefix);
    let mt = middle_tokens(ParserState::Command, command, ms);
    if prefix.len() > 0 {
        lemma_assemble_one(fresh(), token(ParserState::Prefix, prefix, false));
    } else {
        reveal_with_fuel(assemble, 1);
        assert(opening(prefix).msg.prefix =~= Seq::<char>::empty());
    }
    assert(assemble(fresh(), pt) == (opening(prefix), Seq::<MessageView>::empty()));
    lemma_assemble_middles(prefix, command, ms);
    lemma_assemble_append(fresh(), pt, mt);
    assert(Seq::<MessageView>::empty() + Seq::<MessageView>::empty()
        =~= Seq::<MessageView>::empty());
    let bl = before_last(prefix, command, ms);
    let full = all_but_body(prefix, command, ms);
    assert(absorb(bl, token(k, b, false)) == (full, None::<MessageView>));
    assert(absorb(bl, token(k, b, true)) == (fresh(), Some(full.msg)));
    if body.len() > 0 {
        lemma_assemble_one(bl, token(k, b, false));
        lemma_assemble_append(fresh(), pt + mt, seq![token(k, b, false)]);
        assert(absorb(full, token(ParserState::Message, body, true)) == (
            fresh(),
            Some(message_of(prefix, command, ms, body)),
        ));
    } else {
        assert(pt + mt + Seq::<TokenView>::empty() =~= pt + mt);
        assert(body =~= Seq::<char>::empty());
        assert(full.msg == message_of(prefix, command, ms, body));
    }
}

// ---- the decoder over whole streams ----

/// Decoding character by character is lexing the characters, then
/// assembling the tokens.
proof fn lemma_two_stage(p: ParserView, s: Seq<char>)
    ensures
        decode_run(p, s) == (
            ParserView {
                lex: run(p.lex, s).0,
                acc: assemble(p.acc, run(p.lex, s).1).0,
            },
            assemble(p.acc, run(p.lex, s).1).1,
        ),
    decreases s.len(),
{
    if s.len() > 0 {
        lemma_two_stage(p, s.drop_last());
        let (l1, ts) = run(p.lex, s.drop_last());
        let (l2, o) = step(l1, s.last());
        match o {
            None => {
                assert(ts + opt_seq(o) =~= ts);
                let (a1, ms) = assemble(p.acc, ts);
                assert(ms + opt_seq(None::<MessageView>) =~= ms);
            },
            Some(t) => {
                assert((ts + opt_seq(o)).drop_last() =~= ts);
                assert((ts + opt_seq(o)).last() == t);
            },
        }
    }
}

proof fn lemma_decode_append(p: ParserView, a: Seq<char>, b: Seq<char>)
    ensures
        decode_run(p, a + b) == (
            decode_run(decode_run(p, a).0, b).0,
            decode_run(p, a).1 + decode_run(decode_run(p, a).0, b).1,
        ),
    decreases b.len(),
{
    if b.len() == 0 {
        assert(a + b =~= a);
        assert(decode_run(p, a).1 + Seq::<MessageView>::empty() =~= decode_run(p, a).1);
    } else {
        lemma_decode_append(p, a, b.drop_last());
        assert((a + b).drop_last() =~= a + b.drop_last());
        assert((a + b).last() == b.last());
        let (p1, m1) = decode_run(p, a);
        let (p2, m2) = decode_run(p1, b.drop_last());
        let (p3, o) = decode_step(p2, b.last());
        assert(m1 + m2 + opt_seq(o) =~= m1 + (m2 + opt_seq(o)));
    }
}

/// The head of a well-formed line yields no message; its final line feed
/// yields the message and returns the decoder to its start.
proof fn lemma_line(
    prefix: Seq<char>,
    command: Seq<char>,
    ms: Seq<Seq<char>>,
    body: Seq<char>,
    cr: bool,
)
    requires
        well_formed(prefix, command, ms, body, cr),
    ensures
        decode_run(start(), line_head(prefix, command, ms, body, cr)).1 == Seq::<
            MessageView,
        >::empty(),
        decode_run(start(), encode_line(message_of(prefix, command, ms, body), cr)) == (
            start(),
            seq![message_of(prefix, command, ms, body)],
        ),
{
    let head = line_head(prefix, command, ms, body, cr);
    let line = encode_line(message_of(prefix, command, ms, body), cr);
    lemma_encode_split(prefix, command, ms, body, cr);
    lemma_line_tokens(prefix, command, ms, body, cr);
    lemma_assemble_line(prefix, command, ms, body);
    lemma_two_stage(start(), head);
    assert(line.drop_last() =~= head);
    assert(Seq::<MessageView>::empty() + seq![message_of(prefix, command, ms, body)]
        =~= seq![message_of(prefix, command, ms, body)]);
}

/// Decoding a well-formed line yields exactly one message, whose fields
/// are the line's; the decoder is back in its starting state; and writing
/// the message back out gives the line again.
pub proof fn lemma_round_trip(
    prefix: Seq<char>,
    command: Seq<char>,
    middles: Seq<Seq<char>>,
    body: Seq<char>,
    cr: bool,
)
    requires
        well_formed(prefix, command, middles, body, cr),
    ensures
        decode_run(start(), encode_line(message_of(prefix, command, middles, body), cr)).0
            == start(),
        decode(encode_line(message_of(prefix, command, middles, body), cr)) == seq![
            message_of(prefix, command, middles, body),
        ],
        encode_line(decode(encode_line(message_of(prefix, command, middles, body), cr))[0], cr)
            == encode_line(message_of(prefix, command, middles, body), cr),
{
    lemma_line(prefix, command, middles, body, cr);
}

/// What follows a well-formed line is decoded as if the line had not been
/// there: no field of the line leaks into later messages.
pub proof fn lemma_line_then_rest(
    prefix: Seq<char>,
    command: Seq<char>,
    middles: Seq<Seq<char>>,
    body: Seq<char>,
    cr: bool,
    rest: Seq<char>,
)
    requires
        well_formed(prefix, command, middles, body, cr),
    ensures
        decode(encode_line(message_of(prefix, command, middles, body), cr) + rest) == seq![
            message_of(prefix, command, middles, body),
        ] + decode(rest),
{
    lemma_line(prefix, command, middles, body, cr);
    lemma_decode_append(
        start(),
        encode_line(message_of(prefix, command, middles, body), cr),
        rest,
    );
}

/// Two well-formed lines in a row decode to their two messages, in order.
pub proof fn lemma_two_lines(
    prefix1: Seq<char>,
    command1: Seq<char>,
    middles1: Seq<Seq<char>>,
    body1: Seq<char>,
    cr1: bool,
    prefix2: Seq<char>,
    command2: Seq<char>,
    middles2: Seq<Seq<char>>,
    body2: Seq<char>,
    cr2: bool,
)
    requires
        well_formed(prefix1, command1, middles1, body1, cr1),
        well_formed(prefix2, command2, middles2, body2, cr2),
    ensures
        decode(
            encode_line(message_of(prefix1, command1, middles1, body1), cr1) + encode_line(
                message_of(prefix2, command2, middles2, body2),
                cr2,
            ),
        ) == seq![
            message_of(prefix1, command1, middles1, body1),
            message_of(prefix2, command2, middles2, body2),
        ],
{
    let m1 = message_of(prefix1, command1, middles1, body1);
    let m2 = message_of(prefix2, command2, middles2, body2);
    lemma_line_then_rest(prefix1, command1, middles1, body1, cr1, encode_line(m2, cr2));
    lemma_line(prefix2, command2, middles2, body2, cr2);
    assert(seq![m1] + seq![m2] =~= seq![m1, m2]);
}

/// A stream that ends anywhere before the final line feed of a well-formed
/// line yields no message: a line cut short is never handed out.
pub proof fn lemma_cut_line(
    prefix: Seq<char>,
    command: Seq<char>,
    middles: Seq<Seq<char>>,
    body: Seq<char>,
    cr: bool,
    n: int,
)
    requires
        well_formed(prefix, command, middles, body, cr),
        0 <= n < encode_line(message_of(prefix, command, middles, body), cr).len(),
    ensures
        decode(encode_line(message_of(prefix, command, middles, body), cr).subrange(0, n))
            == Seq::<MessageView>::empty(),
{
    let line = encode_line(message_of(prefix, command, middles, body), cr);
    let head = line_head(prefix, command, middles, body, cr);
    lemma_line(prefix, command, middles, body, cr);
    lemma_encode_split(prefix, command, middles, body, cr);
    let cut = line.subrange(0, n);
    assert(head =~= cut + head.subrange(n, head.len() as int));
    lemma_decode_append(start(), cut, head.subrange(n, head.len() as int));
    assert(decode(cut).len() == 0);
}

/// A command that starts with a digit is exactly its first three
/// characters: the character after them ends it, whatever it is (but a
/// carriage return, which is skipped), and nothing else is handed out.
pub proof fn lemma_numeric_command_exact(st: ParserState, digits: Seq<char>, c: char)
    requires
        st == ParserState::Start || st == ParserState::Prefix,
        digits.len() == 3,
        is_digit(digits[0]),
        digits[1] != '\n' && digits[2] != '\n',
        c != '\r',
    ensures
        run(idle(st), digits.push(c)).1 == seq![token(ParserState::Command, digits, c == '\n')],
{
    lemma_numeric_command(st, digits);
    lemma_run_one(opened(st, Phase::Numeric(0), digits), c);
    lemma_run_append(idle(st), digits, seq![c]);
    assert(digits.push(c) =~= digits + seq![c]);
    assert(Seq::<TokenView>::empty() + seq![token(ParserState::Command, digits, c == '\n')]
        =~= seq![token(ParserState::Command, digits, c == '\n')]);
}

// ---- what a stream cut inside a line yields ----

spec fn field_of(st: ParserState) -> State {
    match st {
        ParserState::Start => State::Start,
        ParserState::Prefix => State::Prefix,
        ParserState::Command => State::Command,
        ParserState::Params => State::Params,
        ParserState::Message => State::Body,
    }
}

/// The lexer and the assembler agree on how far the current line has come.
spec fn consistent(p: ParserView) -> bool {
    &&& p.lex.state != ParserState::Message
    &&& p.acc.state == field_of(p.lex.state)
    &&& p.lex.phase == Phase::Prefix ==> p.lex.state == ParserState::Start
    &&& (p.lex.phase == Phase::Command || p.lex.phase is Numeric) ==> (p.lex.state
        == ParserState::Start || p.lex.state == ParserState::Prefix)
    &&& (p.lex.phase == Phase::Params || p.lex.phase == Phase::Body) ==> (p.lex.state
        == ParserState::Command || p.lex.state == ParserState::Params)
}

/// Each character keeps the two stages in agreement, and only a line feed
/// completes a message.
#[verifier::rlimit(60)]
proof fn lemma_consistent_step(p: ParserView, c: char)
    requires
        consistent(p),
    ensures
        consistent(decode_step(p, c).0),
        c != '\n' ==> decode_step(p, c).1 is None,
{
}

proof fn lemma_consistent_run(p: ParserView, s: Seq<char>)
    requires
        consistent(p),
    ensures
        consistent(decode_run(p, s).0),
        (forall|i: int| 0 <= i < s.len() ==> #[trigger] s[i] != '\n') ==> decode_run(p, s).1
            == Seq::<MessageView>::empty(),
    decreases s.len(),
{
    if s.len() > 0 {
        lemma_consistent_run(p, s.drop_last());
        lemma_consistent_step(decode_run(p, s.drop_last()).0, s.last());
        if forall|i: int| 0 <= i < s.len() ==> #[trigger] s[i] != '\n' {
            assert(s[s.len() - 1] != '\n');
            assert forall|i: int| 0 <= i < s.drop_last().len() implies #[trigger] s.drop_last()[i]
                != '\n' by {
                assert(s.drop_last()[i] == s[i]);
            }
            assert(Seq::<MessageView>::empty() + opt_seq(None::<MessageView>)
                =~= Seq::<MessageView>::empty());
        }
    }
}

/// Characters after the last line feed never yield a message: a stream
/// that ends inside a line, in its prefix, command, parameters or body,
/// yields the messages of its complete lines and nothing more.
pub proof fn lemma_unfinished_line(s: Seq<char>, t: Seq<char>)
    requires
        forall|i: int| 0 <= i < t.len() ==> #[trigger] t[i] != '\n',
    ensures
        decode(s + t) == decode(s),
{
    lemma_consistent_run(start(), s);
    lemma_consistent_run(decode_run(start(), s).0, t);
    lemma_decode_append(start(), s, t);
    assert(decode(s) + Seq::<MessageView>::empty() =~= decode(s));
}

// ---- the command of a line stays as it was read ----

/// The current line has its command, and it is `d`.
spec fn has_command(p: ParserView, d: Seq<char>) -> bool {
    &&& consistent(p)
    &&& (p.acc.state == State::Command || p.acc.state == State::Params)
    &&& p.acc.msg.command == d
}

#[verifier::rlimit(60)]
proof fn lemma_command_kept_step(p: ParserView, d: Seq<char>, c: char)
    requires
        has_command(p, d),
    ensures
        decode_step(p, c).1 is None ==> has_command(decode_step(p, c).0, d),
        decode_step(p, c).1 is Some ==> decode_step(p, c).1->Some_0.command == d,
{
    lemma_consistent_step(p, c);
}

proof fn lemma_command_kept(p: ParserView, d: Seq<char>, t: Seq<char>)
    requires
        has_command(p, d),
    ensures
        decode_run(p, t).1.len() == 0 ==> has_command(decode_run(p, t).0, d),
        decode_run(p, t).1.len() > 0 ==> decode_run(p, t).1[0].command == d,
    decreases t.len(),
{
    if t.len() > 0 {
        lemma_command_kept(p, d, t.drop_last());
        let (p1, ms) = decode_run(p, t.drop_last());
        if ms.len() == 0 {
            lemma_command_kept_step(p1, d, t.last());
        }
    }
}

/// A line whose command starts with a digit yields, when it is complete,
/// a message whose command is exactly the first three characters, whatever
/// character follows them (but a carriage return, which is skipped) and
/// whatever comes after.
pub proof fn lemma_numeric_line(
    prefix: Seq<char>,
    digits: Seq<char>,
    c: char,
    rest: Seq<char>,
)
    requires
        is_prefix(prefix),
        digits.len() == 3,
        is_digit(digits[0]),
        digits[1] != '\n' && digits[2] != '\n',
        c != '\r' && c != '\n',
    ensures
        ({
            let line = (if prefix.len() > 0 {
                seq![':'] + prefix + seq![' ']
            } else {
                Seq::<char>::empty()
            }) + digits + seq![c] + rest;
            decode(line).len() > 0 ==> decode(line)[0].command == digits
        }),
{
    let st0 = if prefix.len() > 0 {
        ParserState::Prefix
    } else {
        ParserState::Start
    };
    if prefix.len() > 0 {
        lemma_prefix(prefix);
    } else {
        reveal_with_fuel(run, 1);
    }
    let pp = prefix_part(prefix);
    assert(run(initial(), pp) == (idle(st0), prefix_tokens(prefix)));
    lemma_numeric_command_exact(st0, digits, c);
    lemma_numeric_command(st0, digits);
    lemma_run_one(opened(st0, Phase::Numeric(0), digits), c);
    lemma_run_append(idle(st0), digits, seq![c]);
    assert(digits.push(c) =~= digits + seq![c]);
    let head = pp + digits + seq![c];
    assert(head =~= pp + (digits + seq![c]));
    lemma_run_append(initial(), pp, digits + seq![c]);
    let ts = prefix_tokens(prefix) + seq![token(ParserState::Command, digits, false)];
    assert(run(initial(), head).1 == ts);
    assert(run(initial(), head).0 == idle(ParserState::Command));
    lemma_two_stage(start(), head);
    let pt = prefix_tokens(prefix);
    if prefix.len() > 0 {
        lemma_assemble_one(fresh(), token(ParserState::Prefix, prefix, false));
    } else {
        reveal_with_fuel(assemble, 1);
        assert(opening(prefix).msg.prefix =~= Seq::<char>::empty());
    }
    assert(assemble(fresh(), pt) == (opening(prefix), Seq::<MessageView>::empty()));
    lemma_assemble_one(opening(prefix), token(ParserState::Command, digits, false));
    lemma_assemble_append(fresh(), pt, seq![token(ParserState::Command, digits, false)]);
    assert(Seq::<MessageView>::empty() + Seq::<MessageView>::empty()
        =~= Seq::<MessageView>::empty());
    let p1 = decode_run(start(), head).0;
    assert(decode_run(start(), head).1 == Seq::<MessageView>::empty());
    assert(has_command(p1, digits));
    lemma_command_kept(p1, digits, rest);
    lemma_decode_append(start(), head, rest);
    assert(Seq::<MessageView>::empty() + decode_run(p1, rest).1 =~= decode_run(p1, rest).1);
}

} // verus!
