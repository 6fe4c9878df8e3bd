//! Byte-level model of the wire grammar: one frame is an optional prefix,
//! a command, up to fourteen middle parameters and an optional trailing
//! parameter, closed by `\r\n` or a lone `\n`.

use vstd::prelude::*;

verus! {

/// Space, the token delimiter.
pub const SP: u8 = 32;

/// Carriage return.
pub const CR: u8 = 13;

/// Line feed.
pub const LF: u8 = 10;

/// Colon, which introduces a prefix at line start and a trailing parameter.
pub const COLON: u8 = 58;

/// Exclamation mark, separating nick from user inside a user prefix.
pub const BANG: u8 = 33;

/// At sign, separating user from host inside a user prefix.
pub const AT: u8 = 64;

/// Index of the first line-terminator byte (CR or LF) at or after `i`,
/// or `s.len()` when none remains.
pub open spec fn eol_at(s: Seq<u8>, i: int) -> int
    decreases s.len() - i,
        when 0 <= i <= s.len()
{
    if i >= s.len() {
        s.len() as int
    } else if s[i] == CR || s[i] == LF {
        i
    } else {
        eol_at(s, i + 1)
    }
}

/// Index of the first token delimiter (space, CR or LF) at or after `i`,
/// or `s.len()` when none remains.
pub open spec fn tok_end(s: Seq<u8>, i: int) -> int
    decreases s.len() - i,
        when 0 <= i <= s.len()
{
    if i >= s.len() {
        s.len() as int
    } else if s[i] == SP || s[i] == CR || s[i] == LF {
        i
    } else {
        tok_end(s, i + 1)
    }
}

pub proof fn lemma_eol_at(s: Seq<u8>, i: int)
    requires
        0 <= i <= s.len(),
    ensures
        i <= eol_at(s, i) <= s.len(),
        forall|j: int| i <= j < eol_at(s, i) ==> s[j] != CR && s[j] != LF,
        eol_at(s, i) < s.len() ==> (s[eol_at(s, i)] == CR || s[eol_at(s, i)] == LF),
    decreases s.len() - i,
{
    if i < s.len() && !(s[i] == CR || s[i] == LF) {
        lemma_eol_at(s, i + 1);
    }
}

pub proof fn lemma_tok_end(s: Seq<u8>, i: int)
    requires
        0 <= i <= s.len(),
    ensures
        i <= tok_end(s, i) <= s.len(),
        forall|j: int| i <= j < tok_end(s, i) ==> s[j] != SP && s[j] != CR && s[j] != LF,
        tok_end(s, i) < s.len() ==> (s[tok_end(s, i)] == SP || s[tok_end(s, i)] == CR
            || s[tok_end(s, i)] == LF),
    decreases s.len() - i,
{
    if i < s.len() && !(s[i] == SP || s[i] == CR || s[i] == LF) {
        lemma_tok_end(s, i + 1);
    }
}

/// `eol_at` is pinned down by its characteristic properties.
pub proof fn lemma_eol_at_is(s: Seq<u8>, i: int, e: int)
    requires
        0 <= i <= e <= s.len(),
        forall|j: int| i <= j < e ==> s[j] != CR && s[j] != LF,
        e < s.len() ==> (s[e] == CR || s[e] == LF),
    ensures
        eol_at(s, i) == e,
    decreases e - i,
{
    if i < e {
        lemma_eol_at_is(s, i + 1, e);
    }
}

/// `tok_end` is pinned down by its characteristic properties.
pub proof fn lemma_tok_end_is(s: Seq<u8>, i: int, e: int)
    requires
        0 <= i <= e <= s.len(),
        forall|j: int| i <= j < e ==> s[j] != SP && s[j] != CR && s[j] != LF,
        e < s.len() ==> (s[e] == SP || s[e] == CR || s[e] == LF),
    ensures
        tok_end(s, i) == e,
    decreases e - i,
{
    if i < e {
        lemma_tok_end_is(s, i + 1, e);
    }
}

/// A frame prefix at the byte level: either a bare server name or a
/// `nick!user@host` triple.
pub enum SpecPrefix {
    Server(Seq<u8>),
    User(Seq<u8>, Seq<u8>, Seq<u8>),
}

/// One decoded frame at the byte level, before any text decoding.
pub struct SpecMsg {
    pub prefix: Option<SpecPrefix>,
    pub command: Seq<u8>,
    pub params: Seq<Seq<u8>>,
    pub trailing: Option<Seq<u8>>,
}

/// Outcome of decoding a byte sequence: not enough bytes yet, hopelessly
/// broken input, or one frame together with how many bytes it occupies.
pub enum SpecOutcome {
    Incomplete,
    Malformed,
    Decoded(SpecMsg, int),
}

/// True when `t` splits as `nick!user@host` at positions `i` (the only `!`)
/// and `j` (the only `@`), with all three parts non-empty.
pub open spec fn is_user_split(t: Seq<u8>, i: int, j: int) -> bool {
    &&& 1 <= i
    &&& i + 2 <= j
    &&& j + 2 <= t.len()
    &&& t[i] == BANG
    &&& t[j] == AT
    &&& forall|p: int| 0 <= p < t.len() && p != i ==> t[p] != BANG
    &&& forall|p: int| 0 <= p < t.len() && p != j ==> t[p] != AT
}

/// True when a prefix token has the `nick!user@host` shape.
pub open spec fn user_shaped(t: Seq<u8>) -> bool {
    exists|i: int, j: int| is_user_split(t, i, j)
}

/// The split positions of a user-shaped token are unique.
pub proof fn lemma_user_split_unique(t: Seq<u8>, i1: int, j1: int, i2: int, j2: int)
    requires
        is_user_split(t, i1, j1),
        is_user_split(t, i2, j2),
    ensures
        i1 == i2,
        j1 == j2,
{
}

/// How a prefix token is read: as a `nick!user@host` triple when it has that
/// shape, and as a bare server name otherwise.
pub open spec fn classify_prefix(t: Seq<u8>) -> SpecPrefix {
    if user_shaped(t) {
        let (i, j) = choose|i: int, j: int| is_user_split(t, i, j);
        SpecPrefix::User(t.subrange(0, i), t.subrange(i + 1, j), t.subrange(j + 1, t.len() as int))
    } else {
        SpecPrefix::Server(t)
    }
}

/// Parameters and trailing value of the region that starts at `pos`, which is
/// either the line end or the delimiter space before the next token;
/// `count` middle parameters have been taken so far.
pub open spec fn spec_tail(s: Seq<u8>, pos: int, count: int) -> (Seq<Seq<u8>>, Option<Seq<u8>>)
    decreases s.len() - pos,
        when 0 <= pos <= s.len()
        via spec_tail_dec
{
    if pos >= s.len() {
        (Seq::empty(), None)
    } else if s[pos] == CR || s[pos] == LF {
        (Seq::empty(), None)
    } else if count < 14 && pos + 1 < s.len() && s[pos + 1] != SP && s[pos + 1] != COLON && s[pos
        + 1] != CR && s[pos + 1] != LF {
        let e = tok_end(s, pos + 1);
        let rec = spec_tail(s, e, count + 1);
        (seq![s.subrange(pos + 1, e)] + rec.0, rec.1)
    } else {
        let k = eol_at(s, pos + 1);
        if pos + 1 < s.len() && s[pos + 1] == COLON {
            (Seq::empty(), Some(s.subrange(pos + 2, k)))
        } else {
            (Seq::empty(), Some(s.subrange(pos + 1, k)))
        }
    }
}

#[via_fn]
proof fn spec_tail_dec(s: Seq<u8>, pos: int, count: int) {
    if 0 <= pos < s.len() && s[pos] != CR && s[pos] != LF {
        lemma_tok_end(s, pos + 1);
        lemma_eol_at(s, pos + 1);
    }
}

/// Decode of the command and everything after it. `apos` is where the prefix
/// region ended (0 when there is none): a single space may follow, then the
/// command token.
pub open spec fn spec_after_prefix(s: Seq<u8>, pfx: Option<SpecPrefix>, apos: int) -> SpecOutcome
    recommends
        0 <= apos <= s.len(),
{
    let cpos = if apos < s.len() && s[apos] == SP {
        apos + 1
    } else {
        apos
    };
    let ce = tok_end(s, cpos);
    if ce == cpos {
        // No command token. At the end of the bytes seen so far more input
        // may still bring one; at a space, CR or LF the line can no longer
        // grow a command, whatever arrives.
        if cpos >= s.len() {
            SpecOutcome::Incomplete
        } else {
            SpecOutcome::Malformed
        }
    } else {
        let tl = spec_tail(s, ce, 0);
        let k = eol_at(s, ce);
        if k >= s.len() {
            SpecOutcome::Incomplete
        } else if s[k] == LF {
            SpecOutcome::Decoded(
                SpecMsg { prefix: pfx, command: s.subrange(cpos, ce), params: tl.0, trailing: tl.1 },
                k + 1,
            )
        } else if k + 1 >= s.len() {
            SpecOutcome::Incomplete
        } else if s[k + 1] == LF {
            SpecOutcome::Decoded(
                SpecMsg { prefix: pfx, command: s.subrange(cpos, ce), params: tl.0, trailing: tl.1 },
                k + 2,
            )
        } else {
            SpecOutcome::Malformed
        }
    }
}

/// The decode relation of the grammar: what any byte sequence means.
///
/// `Incomplete` when more bytes could still complete a frame, `Malformed`
/// when the bytes can never begin a valid frame however they are extended,
/// and otherwise the frame together with its length including terminator.
pub open spec fn spec_decode(s: Seq<u8>) -> SpecOutcome {
    if s.len() == 0 {
        SpecOutcome::Incomplete
    } else if s[0] == COLON {
        let e = tok_end(s, 1);
        if e == 1 {
            // The line starts with `:` but the prefix token is empty.
            if s.len() == 1 {
                SpecOutcome::Incomplete
            } else {
                SpecOutcome::Malformed
            }
        } else {
            spec_after_prefix(s, Some(classify_prefix(s.subrange(1, e))), e)
        }
    } else {
        spec_after_prefix(s, None, 0)
    }
}

/// A single token: non-empty, with no space and no line terminator inside.
pub open spec fn token_ok(t: Seq<u8>) -> bool {
    t.len() >= 1 && forall|p: int| 0 <= p < t.len() ==> t[p] != SP && t[p] != CR && t[p] != LF
}

/// A server name: a token that does not also have the `nick!user@host` shape.
pub open spec fn server_name_ok(t: Seq<u8>) -> bool {
    token_ok(t) && !user_shaped(t)
}

/// One part of a user prefix: a token that contains neither `!` nor `@`.
pub open spec fn user_part_ok(t: Seq<u8>) -> bool {
    token_ok(t) && forall|p: int| 0 <= p < t.len() ==> t[p] != BANG && t[p] != AT
}

/// A middle parameter: a token that does not begin with `:`.
pub open spec fn param_ok(t: Seq<u8>) -> bool {
    token_ok(t) && t[0] != COLON
}

/// A trailing value: any bytes, possibly none, free of line terminators.
pub open spec fn trailing_ok(t: Seq<u8>) -> bool {
    forall|p: int| 0 <= p < t.len() ==> t[p] != CR && t[p] != LF
}

/// A byte-level frame that the grammar can represent on the wire.
pub open spec fn msg_ok(m: SpecMsg) -> bool {
    &&& match m.prefix {
        None => true,
        Some(SpecPrefix::Server(n)) => server_name_ok(n),
        Some(SpecPrefix::User(n, u, h)) => user_part_ok(n) && user_part_ok(u) && user_part_ok(h),
    }
    &&& token_ok(m.command)
    &&& (m.prefix is None ==> m.command[0] != COLON)
    &&& m.params.len() <= 14
    &&& forall|i: int| 0 <= i < m.params.len() ==> param_ok(#[trigger] m.params[i])
    &&& match m.trailing {
        None => true,
        Some(t) => trailing_ok(t),
    }
}

/// Wire bytes of a prefix, including its leading `:` and the space after it.
pub open spec fn render_prefix(p: SpecPrefix) -> Seq<u8> {
    match p {
        SpecPrefix::Server(n) => seq![COLON] + n + seq![SP],
        SpecPrefix::User(n, u, h) => seq![COLON] + n + seq![BANG] + u + seq![AT] + h + seq![SP],
    }
}

/// Wire bytes of the middle parameters, each preceded by one space.
pub open spec fn render_params(ps: Seq<Seq<u8>>) -> Seq<u8>
    decreases ps.len(),
{
    if ps.len() == 0 {
        Seq::empty()
    } else {
        seq![SP] + ps[0] + render_params(ps.skip(1))
    }
}

/// Wire bytes of the trailing part: nothing, or ` :` followed by the value.
pub open spec fn render_trailing(tr: Option<Seq<u8>>) -> Seq<u8> {
    match tr {
        None => Seq::empty(),
        Some(t) => seq![SP, COLON] + t,
    }
}

/// The canonical wire encoding of a frame, terminated by `\r\n`.
pub open spec fn spec_render(m: SpecMsg) -> Seq<u8> {
    (match m.prefix {
        None => Seq::empty(),
        Some(p) => render_prefix(p),
    }) + m.command + render_params(m.params) + render_trailing(m.trailing) + seq![CR, LF]
}

/// A decoded frame consumes at least its terminator and never more than the
/// bytes given.
pub proof fn lemma_decode_consumed(s: Seq<u8>)
    requires
        spec_decode(s) is Decoded,
    ensures
        1 <= spec_decode(s)->Decoded_1 <= s.len(),
{
    if s.len() > 0 {
        if s[0] == COLON {
            let e = tok_end(s, 1);
            lemma_tok_end(s, 1);
            if e != 1 {
                lemma_after_prefix_consumed(s, Some(classify_prefix(s.subrange(1, e))), e);
            }
        } else {
            lemma_after_prefix_consumed(s, None, 0);
        }
    }
}

proof fn lemma_after_prefix_consumed(s: Seq<u8>, pfx: Option<SpecPrefix>, apos: int)
    requires
        0 <= apos <= s.len(),
        spec_after_prefix(s, pfx, apos) is Decoded,
    ensures
        1 <= spec_after_prefix(s, pfx, apos)->Decoded_1 <= s.len(),
{
    let cpos = if apos < s.len() && s[apos] == SP {
        apos + 1
    } else {
        apos
    };
    lemma_tok_end(s, cpos);
    let ce = tok_end(s, cpos);
    if ce != cpos {
        lemma_eol_at(s, ce);
    }
}

/// What one full drain pass yields on byte contents `s`: the complete frames
/// in order, the bytes left unconsumed, and whether decoding hit malformed
/// input.
pub open spec fn spec_drain(s: Seq<u8>) -> (Seq<SpecMsg>, Seq<u8>, bool)
    decreases s.len(),
        via spec_drain_dec
{
    match spec_decode(s) {
        SpecOutcome::Incomplete => (Seq::empty(), s, false),
        SpecOutcome::Malformed => (Seq::empty(), s, true),
        SpecOutcome::Decoded(m, n) => {
            let rec = spec_drain(s.skip(n));
            (seq![m] + rec.0, rec.1, rec.2)
        },
    }
}

#[via_fn]
proof fn spec_drain_dec(s: Seq<u8>) {
    if spec_decode(s) is Decoded {
        lemma_decode_consumed(s);
    }
}

} // verus!

