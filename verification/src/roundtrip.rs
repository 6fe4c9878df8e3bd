//! Laws of the grammar: rendering a valid frame and decoding it gives the
//! frame back, malformed input stays malformed however it is extended, and
//! a frame split across two reads assembles to the same result.

use vstd::prelude::*;

use crate::grammar::{
    classify_prefix, eol_at, is_user_split, lemma_decode_consumed, lemma_eol_at, lemma_eol_at_is,
    lemma_tok_end, lemma_tok_end_is, lemma_user_split_unique, msg_ok, param_ok, render_params,
    render_prefix, render_trailing, spec_after_prefix, spec_decode, spec_drain, spec_render,
    spec_tail, tok_end, trailing_ok, user_shaped, SpecMsg, SpecOutcome, SpecPrefix, AT, BANG,
    COLON, CR, LF, SP,
};

verus! {

/// Every byte rendered for the middle parameters is a space or a parameter
/// byte, so none is CR, LF, and the first one, if any, is a space.
proof fn lemma_render_params_bytes(ps: Seq<Seq<u8>>)
    requires
        forall|i: int| 0 <= i < ps.len() ==> param_ok(#[trigger] ps[i]),
    ensures
        forall|q: int|
            0 <= q < render_params(ps).len() ==> render_params(ps)[q] != CR && render_params(
                ps,
            )[q] != LF,
        ps.len() > 0 ==> render_params(ps).len() > 0 && render_params(ps)[0] == SP,
    decreases ps.len(),
{
    if ps.len() > 0 {
        assert(forall|i: int| 0 <= i < ps.skip(1).len() ==> param_ok(#[trigger] ps.skip(1)[i]));
        lemma_render_params_bytes(ps.skip(1));
        let head = seq![SP] + ps[0];
        assert forall|q: int| 0 <= q < render_params(ps).len() implies render_params(ps)[q] != CR
            && render_params(ps)[q] != LF by {
            if q < head.len() {
                if q == 0 {
                } else {
                    assert(render_params(ps)[q] == ps[0][q - 1]);
                }
            } else {
                assert(render_params(ps)[q] == render_params(ps.skip(1))[q - head.len()]);
            }
        }
    }
}

/// No byte of a rendered trailing part is CR or LF, and the first one, if
/// any, is a space.
proof fn lemma_render_trailing_bytes(tr: Option<Seq<u8>>)
    requires
        tr matches Some(t) ==> trailing_ok(t),
    ensures
        forall|q: int|
            0 <= q < render_trailing(tr).len() ==> render_trailing(tr)[q] != CR && render_trailing(
                tr,
            )[q] != LF,
        tr is Some ==> render_trailing(tr).len() >= 2 && render_trailing(tr)[0] == SP
            && render_trailing(tr)[1] == COLON,
{
}

/// The parameter and trailing region rendered after position `pos` of `w`
/// reads back as exactly those parameters and that trailing value, and the
/// line terminator sits right after the region.
proof fn lemma_tail_render(
    w: Seq<u8>,
    pos: int,
    count: int,
    ps: Seq<Seq<u8>>,
    tr: Option<Seq<u8>>,
    rest: Seq<u8>,
)
    requires
        0 <= pos <= w.len(),
        w.subrange(pos, w.len() as int) == render_params(ps) + render_trailing(tr) + seq![CR, LF]
            + rest,
        forall|i: int| 0 <= i < ps.len() ==> param_ok(#[trigger] ps[i]),
        tr matches Some(t) ==> trailing_ok(t),
        count >= 0,
        count + ps.len() <= 14,
    ensures
        spec_tail(w, pos, count) == (ps, tr),
        eol_at(w, pos) == pos + render_params(ps).len() + render_trailing(tr).len(),
    decreases ps.len(),
{
    let tailbytes = render_params(ps) + render_trailing(tr) + seq![CR, LF] + rest;
    assert(w.len() - pos == tailbytes.len());
    assert(forall|q: int| 0 <= q < tailbytes.len() ==> w[pos + q] == #[trigger] tailbytes[q]);
    lemma_render_params_bytes(ps);
    lemma_render_trailing_bytes(tr);
    if ps.len() == 0 {
        match tr {
            None => {
                assert(w[pos + 0] == tailbytes[0]);
                assert(w[pos] == CR);
                lemma_eol_at_is(w, pos, pos);
                assert(spec_tail(w, pos, count) == (Seq::<Seq<u8>>::empty(), None::<Seq<u8>>));
            },
            Some(t) => {
                assert(w[pos + 0] == tailbytes[0]);
                assert(w[pos] == SP);
                assert(w[pos + 1] == tailbytes[1]);
                assert(w[pos + 1] == COLON);
                // The value runs from pos + 2 up to the terminator.
                let k = pos + 2 + t.len();
                assert forall|j: int| pos + 1 <= j < k implies w[j] != CR && w[j] != LF by {
                    assert(w[pos + (j - pos)] == tailbytes[j - pos]);
                    if j == pos + 1 {
                    } else {
                        assert(tailbytes[j - pos] == t[j - pos - 2]);
                    }
                }
                assert(w[pos + (k - pos)] == tailbytes[k - pos]);
                assert(w[k] == CR);
                lemma_eol_at_is(w, pos + 1, k);
                lemma_eol_at_is(w, pos, k);
                assert forall|x: int| 0 <= x < t.len() implies w.subrange(pos + 2, k)[x] == t[x] by {
                    assert(w[pos + (2 + x)] == tailbytes[2 + x]);
                    assert(tailbytes[2 + x] == t[x]);
                }
                assert(w.subrange(pos + 2, k) =~= t);
                assert(spec_tail(w, pos, count) == (Seq::<Seq<u8>>::empty(), Some(t)));
            },
        }
    } else {
        let p0 = ps[0];
        assert(param_ok(ps[0]));
        assert(render_params(ps) == seq![SP] + p0 + render_params(ps.skip(1)));
        assert(w[pos + 0] == tailbytes[0]);
        assert(w[pos] == SP);
        assert(w[pos + 1] == tailbytes[1]);
        assert(tailbytes[1] == p0[0]);
        assert(p0[0] != SP && p0[0] != COLON && p0[0] != CR && p0[0] != LF);
        let e = pos + 1 + p0.len();
        assert forall|j: int| pos + 1 <= j < e implies w[j] != SP && w[j] != CR && w[j] != LF by {
            assert(w[pos + (j - pos)] == tailbytes[j - pos]);
            assert(tailbytes[j - pos] == p0[j - pos - 1]);
        }
        // After the token comes another space, the trailing space, or CR.
        assert(w[pos + (1 + p0.len() as int)] == tailbytes[1 + p0.len() as int]);
        assert(w[e] == tailbytes[1 + p0.len() as int]);
        if ps.skip(1).len() > 0 {
            assert(forall|i: int|
                0 <= i < ps.skip(1).len() ==> param_ok(#[trigger] ps.skip(1)[i]));
            lemma_render_params_bytes(ps.skip(1));
            assert(tailbytes[1 + p0.len() as int] == render_params(ps.skip(1))[0]);
            assert(w[e] == SP);
        } else if tr is Some {
            assert(tailbytes[1 + p0.len() as int] == render_trailing(tr)[0]);
            assert(w[e] == SP);
        } else {
            assert(w[e] == CR);
        }
        lemma_tok_end_is(w, pos + 1, e);
        assert forall|x: int| 0 <= x < p0.len() implies w.subrange(pos + 1, e)[x] == p0[x] by {
            assert(w[pos + (1 + x)] == tailbytes[1 + x]);
            assert(tailbytes[1 + x] == p0[x]);
        }
        assert(w.subrange(pos + 1, e) =~= p0);
        let rhs2 = render_params(ps.skip(1)) + render_trailing(tr) + seq![CR, LF] + rest;
        assert(tailbytes =~= (seq![SP] + p0) + rhs2);
        assert forall|x: int| 0 <= x < rhs2.len() implies w.subrange(e, w.len() as int)[x]
            == rhs2[x] by {
            assert(w[pos + (1 + p0.len() as int + x)] == tailbytes[1 + p0.len() as int + x]);
            assert(tailbytes[1 + p0.len() as int + x] == rhs2[x]);
        }
        assert(w.subrange(e, w.len() as int) =~= rhs2);
        lemma_tail_render(w, e, count + 1, ps.skip(1), tr, rest);
        assert(spec_tail(w, pos, count).0 =~= seq![p0] + ps.skip(1));
        assert(seq![p0] + ps.skip(1) =~= ps);
        lemma_eol_at(w, e);
        lemma_eol_at_is(w, pos, eol_at(w, e));
    }
}

/// A rendered `nick!user@host` token classifies back to the same triple.
proof fn lemma_classify_user(n: Seq<u8>, u: Seq<u8>, h: Seq<u8>)
    requires
        crate::grammar::user_part_ok(n),
        crate::grammar::user_part_ok(u),
        crate::grammar::user_part_ok(h),
    ensures
        classify_prefix(n + seq![BANG] + u + seq![AT] + h) == SpecPrefix::User(n, u, h),
{
    let t = n + seq![BANG] + u + seq![AT] + h;
    let i = n.len() as int;
    let j = n.len() + 1 + u.len() as int;
    assert(t[i] == BANG);
    assert(t[j] == AT);
    assert forall|p: int| 0 <= p < t.len() && p != i implies t[p] != BANG by {
        if p < i {
            assert(t[p] == n[p]);
        } else if p < j {
            assert(t[p] == u[p - i - 1]);
        } else if p == j {
        } else {
            assert(t[p] == h[p - j - 1]);
        }
    }
    assert forall|p: int| 0 <= p < t.len() && p != j implies t[p] != AT by {
        if p < i {
            assert(t[p] == n[p]);
        } else if p == i {
        } else if p < j {
            assert(t[p] == u[p - i - 1]);
        } else {
            assert(t[p] == h[p - j - 1]);
        }
    }
    assert(is_user_split(t, i, j));
    assert(user_shaped(t));
    let (ci, cj) = choose|ci: int, cj: int| is_user_split(t, ci, cj);
    lemma_user_split_unique(t, ci, cj, i, j);
    assert(t.subrange(0, i) =~= n);
    assert(t.subrange(i + 1, j) =~= u);
    assert(t.subrange(j + 1, t.len() as int) =~= h);
}

/// Decoding the rendering of a valid frame, whatever bytes follow it, yields
/// exactly that frame with a consumed length of the whole rendering.
#[verifier::rlimit(100)]
pub proof fn lemma_decode_render(m: SpecMsg, rest: Seq<u8>)
    requires
        msg_ok(m),
    ensures
        spec_decode(spec_render(m) + rest) == SpecOutcome::Decoded(
            m,
            spec_render(m).len() as int,
        ),
{
    let w = spec_render(m) + rest;
    let pp = match m.prefix {
        None => Seq::<u8>::empty(),
        Some(p) => render_prefix(p),
    };
    let cmd = m.command;
    let rp = render_params(m.params);
    let rt = render_trailing(m.trailing);
    let crlf = seq![CR, LF];
    let suffix = rp + rt + crlf + rest;
    assert(w =~= pp + (cmd + rp + rt + crlf + rest));
    assert(w =~= (pp + cmd) + suffix);
    let cpos = pp.len() as int;
    let ce = cpos + cmd.len() as int;
    assert(forall|x: int| 0 <= x < pp.len() ==> w[x] == #[trigger] pp[x]);
    assert(forall|x: int| 0 <= x < cmd.len() ==> w[cpos + x] == #[trigger] cmd[x]);
    assert(forall|x: int| 0 <= x < suffix.len() ==> w[ce + x] == #[trigger] suffix[x]);
    lemma_render_params_bytes(m.params);
    lemma_render_trailing_bytes(m.trailing);
    // The byte right after the command is a delimiter: the space before a
    // parameter, the space before the trailing part, or the final CR.
    if m.params.len() > 0 {
        assert(suffix[0] == rp[0]);
        assert(w[ce + 0] == suffix[0]);
        assert(w[ce] == SP);
    } else if m.trailing is Some {
        assert(suffix[0] == rt[0]);
        assert(w[ce + 0] == suffix[0]);
        assert(w[ce] == SP);
    } else {
        assert(suffix[0] == CR);
        assert(w[ce + 0] == suffix[0]);
        assert(w[ce] == CR);
    }
    // The command token itself is delimiter-free.
    assert forall|jx: int| cpos <= jx < ce implies w[jx] != SP && w[jx] != CR && w[jx] != LF by {
        assert(w[cpos + (jx - cpos)] == cmd[jx - cpos]);
    }
    lemma_tok_end_is(w, cpos, ce);
    assert(w.subrange(ce, w.len() as int) =~= suffix);
    lemma_tail_render(w, ce, 0, m.params, m.trailing, rest);
    let k = eol_at(w, ce);
    assert(k == ce + rp.len() + rt.len());
    assert(w[ce + (rp.len() + rt.len())] == suffix[rp.len() as int + rt.len() as int]);
    assert(w[k] == CR);
    assert(w[ce + (rp.len() + rt.len() + 1)] == suffix[rp.len() as int + rt.len() as int + 1]);
    assert(w[k + 1] == LF);
    assert forall|x: int| 0 <= x < cmd.len() implies w.subrange(cpos, ce)[x] == cmd[x] by {
        assert(w[cpos + x] == cmd[x]);
    }
    assert(w.subrange(cpos, ce) =~= cmd);
    // Now the head: how the prefix region is recognised.
    match m.prefix {
        None => {
            assert(w[0int + 0int] == (cmd + rp + rt + crlf + rest)[0int]);
            assert(w[0] == cmd[0]);
            assert(w[0] != COLON && w[0] != SP);
            assert(spec_decode(w) == spec_after_prefix(w, None, 0));
        },
        Some(p) => {
            assert(w[0] == pp[0]);
            assert(w[0] == COLON);
            let e = pp.len() - 1;
            // The prefix token runs from 1 to the space that closes it.
            assert(w[e] == pp[e]);
            assert(w[e] == SP);
            match p {
                SpecPrefix::Server(n) => {
                    assert(pp == seq![COLON] + n + seq![SP]);
                    assert forall|jx: int| 1 <= jx < e implies w[jx] != SP && w[jx] != CR
                        && w[jx] != LF by {
                        assert(w[jx] == pp[jx]);
                        assert(pp[jx] == n[jx - 1]);
                    }
                    lemma_tok_end_is(w, 1, e);
                    assert forall|x: int| 0 <= x < n.len() implies w.subrange(1, e)[x] == n[x] by {
                        assert(w[x + 1] == pp[x + 1]);
                        assert(pp[x + 1] == n[x]);
                    }
                    assert(w.subrange(1, e) =~= n);
                    assert(e != 1);
                    assert(classify_prefix(n) == SpecPrefix::Server(n));
                    assert(w[e] == SP);
                    assert(spec_decode(w) == spec_after_prefix(w, Some(p), e));
                },
                SpecPrefix::User(n, u, h) => {
                    let t = n + seq![BANG] + u + seq![AT] + h;
                    assert(pp =~= seq![COLON] + t + seq![SP]);
                    assert forall|jx: int| 1 <= jx < e implies w[jx] != SP && w[jx] != CR
                        && w[jx] != LF by {
                        assert(w[jx] == pp[jx]);
                        assert(pp[jx] == t[jx - 1]);
                        let q = jx - 1;
                        if q < n.len() {
                            assert(t[q] == n[q]);
                        } else if q == n.len() {
                        } else if q < n.len() + 1 + u.len() {
                            assert(t[q] == u[q - n.len() - 1]);
                        } else if q == n.len() + 1 + u.len() {
                        } else {
                            assert(t[q] == h[q - n.len() - u.len() - 2]);
                        }
                    }
                    lemma_tok_end_is(w, 1, e);
                    assert forall|x: int| 0 <= x < t.len() implies w.subrange(1, e)[x] == t[x] by {
                        assert(w[x + 1] == pp[x + 1]);
                        assert(pp[x + 1] == t[x]);
                    }
                    assert(w.subrange(1, e) =~= t);
                    assert(e != 1);
                    lemma_classify_user(n, u, h);
                    assert(w[e] == SP);
                    assert(spec_decode(w) == spec_after_prefix(w, Some(p), e));
                },
            }
        },
    }
    assert(spec_render(m).len() == k + 2);
}

proof fn lemma_after_prefix_no_lf(s: Seq<u8>, pfx: Option<SpecPrefix>, apos: int)
    requires
        0 <= apos <= s.len(),
        forall|p: int| 0 <= p < s.len() ==> s[p] != LF,
    ensures
        !(spec_after_prefix(s, pfx, apos) is Decoded),
{
    let cpos = if apos < s.len() && s[apos] == SP {
        apos + 1
    } else {
        apos
    };
    lemma_tok_end(s, cpos);
    let ce = tok_end(s, cpos);
    if ce != cpos {
        lemma_eol_at(s, ce);
        let k = eol_at(s, ce);
        if k < s.len() {
            assert(s[k] != LF);
            if k + 1 < s.len() {
                assert(s[k + 1] != LF);
            }
        }
    }
}

/// Bytes that contain no line feed never decode to a frame.
pub proof fn lemma_no_lf_not_decoded(s: Seq<u8>)
    requires
        forall|p: int| 0 <= p < s.len() ==> s[p] != LF,
    ensures
        !(spec_decode(s) is Decoded),
{
    if s.len() > 0 {
        if s[0] == COLON {
            lemma_tok_end(s, 1);
            let e = tok_end(s, 1);
            if e != 1 {
                lemma_after_prefix_no_lf(s, Some(classify_prefix(s.subrange(1, e))), e);
            }
        } else {
            lemma_after_prefix_no_lf(s, None, 0);
        }
    }
}

/// A line whose terminator has not arrived makes no progress in a drain
/// pass: no frame comes out and nothing is consumed. Once such bytes fill
/// the whole buffer, a drain therefore reports the buffer exhausted (or
/// the bytes malformed), never merely that more input is needed.
pub proof fn lemma_no_terminator_no_progress(s: Seq<u8>)
    requires
        forall|p: int| 0 <= p < s.len() ==> s[p] != LF,
    ensures
        spec_drain(s).0 == Seq::<SpecMsg>::empty(),
        spec_drain(s).1 == s,
{
    lemma_no_lf_not_decoded(s);
}

proof fn lemma_after_prefix_malformed_stable(u: Seq<u8>, z: Seq<u8>, pfx: Option<SpecPrefix>, apos: int)
    requires
        0 <= apos <= u.len(),
        spec_after_prefix(u, pfx, apos) is Malformed,
    ensures
        spec_after_prefix(u + z, pfx, apos) is Malformed,
{
    let w = u + z;
    assert(forall|p: int| 0 <= p < u.len() ==> w[p] == #[trigger] u[p]);
    let cpos = if apos < u.len() && u[apos] == SP {
        apos + 1
    } else {
        apos
    };
    assert(apos < u.len());
    assert(cpos == if apos < w.len() && w[apos] == SP {
        apos + 1
    } else {
        apos
    });
    lemma_tok_end(u, cpos);
    let ce = tok_end(u, cpos);
    if ce == cpos {
        assert(cpos < u.len());
        assert(u[cpos] == SP || u[cpos] == CR || u[cpos] == LF);
        lemma_tok_end_is(w, cpos, cpos);
    } else {
        lemma_eol_at(u, ce);
        let k = eol_at(u, ce);
        assert(k < u.len());
        assert(u[k] == CR);
        assert(k + 1 < u.len());
        assert(u[k + 1] != LF);
        assert(ce < u.len());
        lemma_tok_end_is(w, cpos, ce);
        lemma_eol_at_is(w, ce, k);
        assert(w[k] == CR);
        assert(w[k + 1] == u[k + 1]);
    }
}

/// Malformed input can never be repaired: whatever bytes arrive after it,
/// decoding still reports it malformed.
pub proof fn lemma_malformed_stable(u: Seq<u8>, z: Seq<u8>)
    requires
        spec_decode(u) is Malformed,
    ensures
        spec_decode(u + z) is Malformed,
{
    let w = u + z;
    assert(forall|p: int| 0 <= p < u.len() ==> w[p] == #[trigger] u[p]);
    assert(u.len() > 0);
    assert(w[0] == u[0]);
    if u[0] == COLON {
        lemma_tok_end(u, 1);
        let e = tok_end(u, 1);
        if e == 1 {
            assert(u.len() > 1);
            assert(u[1] == SP || u[1] == CR || u[1] == LF);
            lemma_tok_end_is(w, 1, 1);
        } else {
            // A prefix token was recognised; the failure lies past it.
            assert(e < u.len() || !(spec_after_prefix(u, Some(classify_prefix(u.subrange(1, e))), e)
                is Malformed));
            assert(e < u.len());
            assert(u[e] == SP || u[e] == CR || u[e] == LF);
            lemma_tok_end_is(w, 1, e);
            assert(w.subrange(1, e) =~= u.subrange(1, e));
            lemma_after_prefix_malformed_stable(u, z, Some(classify_prefix(u.subrange(1, e))), e);
        }
    } else {
        lemma_after_prefix_malformed_stable(u, z, None, 0);
    }
}

/// Every byte of a valid frame's rendering except the last is not a line
/// feed, and the rendering ends in CR LF.
proof fn lemma_render_bytes(m: SpecMsg)
    requires
        msg_ok(m),
    ensures
        spec_render(m).len() >= 3,
        forall|p: int| 0 <= p < spec_render(m).len() - 1 ==> spec_render(m)[p] != LF,
        spec_render(m)[spec_render(m).len() - 2] == CR,
        spec_render(m)[spec_render(m).len() - 1] == LF,
{
    let w = spec_render(m);
    let pp = match m.prefix {
        None => Seq::<u8>::empty(),
        Some(p) => render_prefix(p),
    };
    let cmd = m.command;
    let rp = render_params(m.params);
    let rt = render_trailing(m.trailing);
    let body = pp + cmd + rp + rt;
    assert(w =~= body + seq![CR, LF]);
    lemma_render_params_bytes(m.params);
    lemma_render_trailing_bytes(m.trailing);
    assert forall|p: int| 0 <= p < pp.len() implies pp[p] != LF by {
        match m.prefix {
            None => {},
            Some(SpecPrefix::Server(n)) => {
                assert(pp == seq![COLON] + n + seq![SP]);
                if 1 <= p < 1 + n.len() {
                    assert(pp[p] == n[p - 1]);
                }
            },
            Some(SpecPrefix::User(n, u, h)) => {
                assert(pp == seq![COLON] + n + seq![BANG] + u + seq![AT] + h + seq![SP]);
                let i = 1 + n.len() as int;
                let j = i + 1 + u.len() as int;
                if 1 <= p < i {
                    assert(pp[p] == n[p - 1]);
                } else if i < p < j {
                    assert(pp[p] == u[p - i - 1]);
                } else if j < p < pp.len() - 1 {
                    assert(pp[p] == h[p - j - 1]);
                }
            },
        }
    }
    assert forall|p: int| 0 <= p < body.len() implies body[p] != LF by {
        if p < pp.len() {
            assert(body[p] == pp[p]);
        } else if p < pp.len() + cmd.len() {
            assert(body[p] == cmd[p - pp.len()]);
        } else if p < pp.len() + cmd.len() + rp.len() {
            assert(body[p] == rp[p - pp.len() - cmd.len()]);
        } else {
            assert(body[p] == rt[p - pp.len() - cmd.len() - rp.len()]);
        }
    }
    assert forall|p: int| 0 <= p < w.len() - 1 implies w[p] != LF by {
        if p < body.len() {
            assert(w[p] == body[p]);
        }
    }
    assert(w[body.len() as int] == CR);
    assert(w[body.len() as int + 1] == LF);
}

/// Round trip: decoding the canonical rendering of any valid frame gives
/// back exactly that frame, consuming the whole rendering.
pub proof fn lemma_round_trip(m: SpecMsg)
    requires
        msg_ok(m),
    ensures
        spec_decode(spec_render(m)) == SpecOutcome::Decoded(m, spec_render(m).len() as int),
{
    lemma_decode_render(m, Seq::empty());
    assert(spec_render(m) + Seq::<u8>::empty() =~= spec_render(m));
}

/// A drain pass over one whole valid frame yields that frame, leaves no
/// bytes behind, and reports no malformed input.
pub proof fn lemma_drain_one(m: SpecMsg)
    requires
        msg_ok(m),
    ensures
        spec_drain(spec_render(m)).0 == seq![m],
        spec_drain(spec_render(m)).1 == Seq::<u8>::empty(),
        spec_drain(spec_render(m)).2 == false,
{
    let w = spec_render(m);
    lemma_round_trip(m);
    let es = Seq::<u8>::empty();
    assert(w.skip(w.len() as int) =~= es);
    assert(spec_decode(es) is Incomplete);
    assert(spec_drain(es) == (Seq::<SpecMsg>::empty(), es, false));
    assert(spec_drain(w).0 == seq![m] + spec_drain(es).0);
    assert(seq![m] + Seq::<SpecMsg>::empty() =~= seq![m]);
}

/// Splitting a valid frame's rendering at any byte boundary and feeding the
/// two pieces through successive drain passes yields the same single frame
/// as feeding the whole rendering at once: the first pass consumes nothing
/// and reports only that more bytes are needed.
pub proof fn lemma_split_feed(m: SpecMsg, i: int)
    requires
        msg_ok(m),
        0 <= i < spec_render(m).len(),
    ensures
        spec_decode(spec_render(m).take(i)) is Incomplete,
        spec_drain(spec_render(m).take(i)).0 == Seq::<SpecMsg>::empty(),
        spec_drain(spec_render(m).take(i)).1 == spec_render(m).take(i),
        spec_drain(spec_render(m).take(i)).2 == false,
        spec_drain(spec_render(m).take(i) + spec_render(m).skip(i)).0 == seq![m],
        spec_drain(spec_render(m).take(i) + spec_render(m).skip(i)).1 == Seq::<u8>::empty(),
        spec_drain(spec_render(m).take(i) + spec_render(m).skip(i)).2 == false,
{
    let w = spec_render(m);
    let u = w.take(i);
    lemma_render_bytes(m);
    assert forall|p: int| 0 <= p < u.len() implies u[p] != LF by {
        assert(u[p] == w[p]);
    }
    lemma_no_lf_not_decoded(u);
    assert(u + w.skip(i) =~= w);
    if spec_decode(u) is Malformed {
        lemma_malformed_stable(u, w.skip(i));
        lemma_round_trip(m);
        assert(false);
    }
    assert(spec_decode(u) is Incomplete);
    lemma_drain_one(m);
}

/// Two complete frames sitting back to back in one buffer come out of a
/// single drain pass as both frames, in order, with nothing left over.
pub proof fn lemma_back_to_back(m1: SpecMsg, m2: SpecMsg)
    requires
        msg_ok(m1),
        msg_ok(m2),
    ensures
        spec_drain(spec_render(m1) + spec_render(m2)).0 == seq![m1, m2],
        spec_drain(spec_render(m1) + spec_render(m2)).1 == Seq::<u8>::empty(),
        spec_drain(spec_render(m1) + spec_render(m2)).2 == false,
{
    let r1 = spec_render(m1);
    let r2 = spec_render(m2);
    let w = r1 + r2;
    lemma_decode_render(m1, r2);
    lemma_decode_consumed(w);
    assert(w.skip(r1.len() as int) =~= r2);
    lemma_drain_one(m2);
    assert(spec_drain(w).0 == seq![m1] + spec_drain(r2).0);
    assert(seq![m1] + seq![m2] =~= seq![m1, m2]);
}

} // verus!
