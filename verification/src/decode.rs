//! The incremental frame decoder: a pure scan over a byte slice that
//! reports a complete frame with its consumed length, asks for more bytes,
//! or rejects input that can never become a frame.

use vstd::prelude::*;
use vstd::slice::slice_subrange;

use crate::frame::{msg_chars, prefix_chars, Message, Prefix};
use crate::grammar::{
    classify_prefix, eol_at, is_user_split, lemma_eol_at, lemma_eol_at_is, lemma_tok_end,
    lemma_tok_end_is, lemma_user_split_unique, spec_after_prefix, spec_decode, spec_tail, tok_end,
    user_shaped, SpecMsg, SpecOutcome, SpecPrefix, AT, BANG, COLON, CR, LF, SP,
};
use crate::text::{s2s, s2s_spec};

verus! {

/// What `decode` reports for a byte slice.
#[derive(Debug, PartialEq)]
pub enum Outcome {
    /// No complete frame yet: read more bytes and retry. Nothing consumed.
    Incomplete,
    /// The input can never begin a valid frame, however it is extended.
    Malformed,
    /// A frame, and how many bytes it occupies including its terminator.
    Decoded(Message, usize),
}

/// The decode result agrees with the grammar's decode relation, field texts
/// included.
pub open spec fn outcome_matches(s: Seq<u8>, r: Outcome) -> bool {
    match spec_decode(s) {
        SpecOutcome::Incomplete => r is Incomplete,
        SpecOutcome::Malformed => r is Malformed,
        SpecOutcome::Decoded(sm, n) => r matches Outcome::Decoded(m, c) && m@ == msg_chars(sm)
            && c as int == n,
    }
}

/// First token delimiter (space, CR or LF) at or after `from`.
fn scan_tok_end(buf: &[u8], from: usize) -> (e: usize)
    requires
        from as int <= buf@.len(),
    ensures
        e as int == tok_end(buf@, from as int),
        from <= e <= buf@.len(),
{
    let n = buf.len();
    let mut i = from;
    loop
        invariant
            from <= i <= n,
            n == buf@.len(),
            forall|j: int| from <= j < i ==> buf@[j] != SP && buf@[j] != CR && buf@[j] != LF,
        ensures
            from <= i <= n,
            forall|j: int| from <= j < i ==> buf@[j] != SP && buf@[j] != CR && buf@[j] != LF,
            i == n || buf@[i as int] == SP || buf@[i as int] == CR || buf@[i as int] == LF,
        decreases n - i,
    {
        if i == n {
            break;
        }
        let b = buf[i];
        if b == SP || b == CR || b == LF {
            break;
        }
        i = i + 1;
    }
    proof {
        lemma_tok_end_is(buf@, from as int, i as int);
    }
    i
}

/// First line terminator (CR or LF) at or after `from`.
fn scan_eol(buf: &[u8], from: usize) -> (e: usize)
    requires
        from as int <= buf@.len(),
    ensures
        e as int == eol_at(buf@, from as int),
        from <= e <= buf@.len(),
{
    let n = buf.len();
    let mut i = from;
    loop
        invariant
            from <= i <= n,
            n == buf@.len(),
            forall|j: int| from <= j < i ==> buf@[j] != CR && buf@[j] != LF,
        ensures
            from <= i <= n,
            forall|j: int| from <= j < i ==> buf@[j] != CR && buf@[j] != LF,
            i == n || buf@[i as int] == CR || buf@[i as int] == LF,
        decreases n - i,
    {
        if i == n {
            break;
        }
        let b = buf[i];
        if b == CR || b == LF {
            break;
        }
        i = i + 1;
    }
    proof {
        lemma_eol_at_is(buf@, from as int, i as int);
    }
    i
}

/// The text of the bytes `buf[lo..hi]`.
fn token_text(buf: &[u8], lo: usize, hi: usize) -> (r: String)
    requires
        lo <= hi <= buf@.len(),
    ensures
        r@ == s2s_spec(buf@.subrange(lo as int, hi as int)),
{
    s2s(slice_subrange(buf, lo, hi))
}

/// Reads the prefix token `buf[lo..hi]` as a `nick!user@host` triple when
/// it has that shape and as a bare server name otherwise.
fn make_prefix(buf: &[u8], lo: usize, hi: usize) -> (p: Prefix)
    requires
        lo < hi <= buf@.len(),
    ensures
        p@ == prefix_chars(classify_prefix(buf@.subrange(lo as int, hi as int))),
{
    let ghost t = buf@.subrange(lo as int, hi as int);
    let n = buf.len();
    let mut i = lo;
    let mut bang_cnt: usize = 0;
    let mut bang1: usize = 0;
    let mut bang2: usize = 0;
    let mut at_cnt: usize = 0;
    let mut at1: usize = 0;
    let mut at2: usize = 0;
    while i < hi
        invariant
            lo <= i <= hi <= n,
            n == buf@.len(),
            t == buf@.subrange(lo as int, hi as int),
            bang_cnt <= 2,
            at_cnt <= 2,
            bang_cnt == 0 ==> forall|j: int| 0 <= j < i - lo ==> t[j] != BANG,
            bang_cnt >= 1 ==> lo <= bang1 < i && t[bang1 - lo] == BANG,
            bang_cnt == 1 ==> forall|j: int| 0 <= j < i - lo && j != bang1 - lo ==> t[j] != BANG,
            bang_cnt == 2 ==> bang1 < bang2 < i && t[bang2 - lo] == BANG,
            at_cnt == 0 ==> forall|j: int| 0 <= j < i - lo ==> t[j] != AT,
            at_cnt >= 1 ==> lo <= at1 < i && t[at1 - lo] == AT,
            at_cnt == 1 ==> forall|j: int| 0 <= j < i - lo && j != at1 - lo ==> t[j] != AT,
            at_cnt == 2 ==> at1 < at2 < i && t[at2 - lo] == AT,
        decreases hi - i,
    {
        let b = buf[i];
        proof {
            assert(t[i - lo] == buf@[i as int]);
        }
        if b == BANG {
            if bang_cnt == 0 {
                bang1 = i;
                bang_cnt = 1;
            } else if bang_cnt == 1 {
                bang2 = i;
                bang_cnt = 2;
            }
        } else if b == AT {
            if at_cnt == 0 {
                at1 = i;
                at_cnt = 1;
            } else if at_cnt == 1 {
                at2 = i;
                at_cnt = 2;
            }
        }
        i = i + 1;
    }
    if bang_cnt == 1 && at_cnt == 1 && bang1 > lo && at1 > bang1 && at1 - bang1 >= 2 && hi - at1
        >= 2 {
        proof {
            let bi = bang1 - lo;
            let ai = at1 - lo;
            assert(is_user_split(t, bi as int, ai as int));
            assert(user_shaped(t));
            let (ci, cj) = choose|ci: int, cj: int| is_user_split(t, ci, cj);
            lemma_user_split_unique(t, ci, cj, bi as int, ai as int);
            assert(buf@.subrange(lo as int, bang1 as int) =~= t.subrange(0, bi as int));
            assert(buf@.subrange(bang1 as int + 1, at1 as int) =~= t.subrange(
                bi as int + 1,
                ai as int,
            ));
            assert(buf@.subrange(at1 as int + 1, hi as int) =~= t.subrange(
                ai as int + 1,
                t.len() as int,
            ));
        }
        Prefix::User {
            nick: token_text(buf, lo, bang1),
            user: token_text(buf, bang1 + 1, at1),
            host: token_text(buf, at1 + 1, hi),
        }
    } else {
        proof {
            assert forall|ii: int, jj: int| !is_user_split(t, ii, jj) by {
                if is_user_split(t, ii, jj) {
                    assert(t[ii] == BANG);
                    assert(t[jj] == AT);
                    if bang_cnt == 0 {
                        assert(false);
                    } else if bang_cnt == 2 {
                        // Two distinct bangs cannot both be the unique split.
                        assert(bang1 - lo == ii || t[bang1 - lo] != BANG);
                        assert(bang2 - lo == ii || t[bang2 - lo] != BANG);
                        assert(false);
                    } else {
                        assert(ii == bang1 - lo);
                        if at_cnt == 0 {
                            assert(false);
                        } else if at_cnt == 2 {
                            assert(at1 - lo == jj || t[at1 - lo] != AT);
                            assert(at2 - lo == jj || t[at2 - lo] != AT);
                            assert(false);
                        } else {
                            assert(jj == at1 - lo);
                            assert(false);
                        }
                    }
                }
            }
            assert(!user_shaped(t));
        }
        Prefix::Server(token_text(buf, lo, hi))
    }
}

/// Decode the start of `buf` as one frame.
///
/// Reports `Incomplete` when more bytes could still complete a frame (and
/// consumes nothing), `Malformed` when the bytes can never begin a valid
/// frame however the input is extended, and otherwise the frame together
/// with how many bytes it occupies, terminator included.
pub fn decode(buf: &[u8]) -> (r: Outcome)
    ensures
        outcome_matches(buf@, r),
{
    let ghost s = buf@;
    let n = buf.len();
    if n == 0 {
        return Outcome::Incomplete;
    }
    let mut pfx: Option<Prefix> = None;
    let ghost mut spfx: Option<SpecPrefix> = None;
    let mut apos: usize = 0;
    if buf[0] == COLON {
        let e = scan_tok_end(buf, 1);
        if e == 1 {
            if n == 1 {
                return Outcome::Incomplete;
            } else {
                return Outcome::Malformed;
            }
        }
        pfx = Some(make_prefix(buf, 1, e));
        proof {
            spfx = Some(classify_prefix(s.subrange(1, e as int)));
        }
        apos = e;
    }
    proof {
        assert(spec_decode(s) == spec_after_prefix(s, spfx, apos as int));
    }
    let cpos = if apos < n && buf[apos] == SP {
        apos + 1
    } else {
        apos
    };
    let ce = scan_tok_end(buf, cpos);
    if ce == cpos {
        if cpos >= n {
            return Outcome::Incomplete;
        } else {
            return Outcome::Malformed;
        }
    }
    let command = token_text(buf, cpos, ce);
    let mut params: Vec<String> = Vec::new();
    let ghost mut taken: Seq<Seq<u8>> = Seq::empty();
    let mut trailing: Option<String> = None;
    let ghost mut strail: Option<Seq<u8>> = None;
    let mut pos = ce;
    proof {
        lemma_tok_end(s, cpos as int);
    }
    loop
        invariant_except_break
            spec_tail(s, ce as int, 0).0 == taken + spec_tail(s, pos as int, params.len() as int).0,
            spec_tail(s, ce as int, 0).1 == spec_tail(s, pos as int, params.len() as int).1,
            eol_at(s, ce as int) == eol_at(s, pos as int),
            trailing is None,
            strail is None,
        invariant
            ce <= pos <= n,
            n == s.len(),
            s == buf@,
            spec_decode(s) == spec_after_prefix(s, spfx, apos as int),
            apos as int <= s.len(),
            cpos as int == (if apos < n && s[apos as int] == SP {
                apos as int + 1
            } else {
                apos as int
            }),
            ce as int == tok_end(s, cpos as int),
            cpos < ce <= n,
            params.len() == taken.len(),
            params.len() <= 14,
            forall|ix: int| 0 <= ix < taken.len() ==> params@[ix]@ == s2s_spec(#[trigger] taken[ix]),
            pos == n || s[pos as int] == SP || s[pos as int] == CR || s[pos as int] == LF,
        ensures
            ce <= pos <= n,
            spec_tail(s, ce as int, 0).0 == taken,
            params.len() == taken.len(),
            forall|ix: int| 0 <= ix < taken.len() ==> params@[ix]@ == s2s_spec(#[trigger] taken[ix]),
            spec_tail(s, ce as int, 0).1 == strail,
            match (trailing, strail) {
                (None, None) => true,
                (Some(tt), Some(st)) => tt@ == s2s_spec(st),
                _ => false,
            },
            pos as int == eol_at(s, ce as int),
            pos < n,
        decreases n - pos,
    {
        if pos == n {
            proof {
                assert(eol_at(s, pos as int) == n);
            }
            return Outcome::Incomplete;
        }
        let b = buf[pos];
        if b == CR || b == LF {
            proof {
                lemma_eol_at_is(s, pos as int, pos as int);
                assert(spec_tail(s, pos as int, params.len() as int) == (
                    Seq::<Seq<u8>>::empty(),
                    None::<Seq<u8>>,
                ));
                assert(taken + Seq::<Seq<u8>>::empty() =~= taken);
            }
            break;
        }
        // Here the byte is the space before a parameter or the trailing part.
        if params.len() < 14 && pos + 1 < n && buf[pos + 1] != SP && buf[pos + 1] != COLON && buf[
            pos + 1] != CR && buf[pos + 1] != LF {
            let e2 = scan_tok_end(buf, pos + 1);
            let tok = token_text(buf, pos + 1, e2);
            proof {
                let old_taken = taken;
                taken = taken + seq![s.subrange(pos as int + 1, e2 as int)];
                assert(spec_tail(s, pos as int, params.len() as int).0 == seq![
                    s.subrange(pos as int + 1, e2 as int),
                ] + spec_tail(s, e2 as int, params.len() as int + 1).0);
                assert(old_taken + (seq![s.subrange(pos as int + 1, e2 as int)] + spec_tail(
                    s,
                    e2 as int,
                    params.len() as int + 1,
                ).0) =~= taken + spec_tail(s, e2 as int, params.len() as int + 1).0);
                lemma_tok_end(s, pos as int + 1);
                lemma_eol_at(s, e2 as int);
                lemma_eol_at_is(s, pos as int, eol_at(s, e2 as int));
            }
            params.push(tok);
            pos = e2;
        } else {
            // Trailing: one space, an optional colon, then text to line end.
            let k = scan_eol(buf, pos + 1);
            proof {
                lemma_eol_at(s, pos as int + 1);
                lemma_eol_at_is(s, pos as int, k as int);
            }
            if k == n {
                return Outcome::Incomplete;
            }
            let tstart = if buf[pos + 1] == COLON {
                pos + 2
            } else {
                pos + 1
            };
            proof {
                if tstart == pos + 2 {
                    assert(k != pos + 1);
                }
            }
            let tt = token_text(buf, tstart, k);
            proof {
                strail = Some(s.subrange(tstart as int, k as int));
                assert(spec_tail(s, pos as int, params.len() as int) == (
                    Seq::<Seq<u8>>::empty(),
                    strail,
                ));
                assert(taken + Seq::<Seq<u8>>::empty() =~= taken);
            }
            trailing = Some(tt);
            pos = k;
            break;
        }
    }
    // The terminator: a lone LF, or CR that must be followed by LF.
    let k = pos;
    let consumed: usize;
    if buf[k] == LF {
        consumed = k + 1;
    } else {
        if k + 1 == n {
            return Outcome::Incomplete;
        }
        if buf[k + 1] == LF {
            consumed = k + 2;
        } else {
            return Outcome::Malformed;
        }
    }
    let msg = Message { prefix: pfx, command, params, trailing };
    proof {
        let sm = SpecMsg {
            prefix: spfx,
            command: s.subrange(cpos as int, ce as int),
            params: spec_tail(s, ce as int, 0).0,
            trailing: spec_tail(s, ce as int, 0).1,
        };
        assert(spec_decode(s) == SpecOutcome::Decoded(sm, consumed as int));
        assert(msg@.params =~= msg_chars(sm).params);
        assert(msg@ == msg_chars(sm));
    }
    Outcome::Decoded(msg, consumed)
}

/// Read a prefix alone from the start of `buf`: the leading colon, then the
/// token up to the first delimiter. Yields the prefix and how many bytes it
/// occupies, or nothing when `buf` does not start with a non-empty prefix.
pub fn parse_prefix(buf: &[u8]) -> (r: Option<(Prefix, usize)>)
    ensures
        ({
            let ok = buf@.len() >= 1 && buf@[0] == COLON && tok_end(buf@, 1) > 1;
            match r {
                Some((p, e)) => ok && e as int == tok_end(buf@, 1) && p@ == prefix_chars(
                    classify_prefix(buf@.subrange(1, tok_end(buf@, 1))),
                ),
                None => !ok,
            }
        }),
{
    if buf.len() == 0 {
        return None;
    }
    if buf[0] != COLON {
        return None;
    }
    let e = scan_tok_end(buf, 1);
    if e == 1 {
        return None;
    }
    Some((make_prefix(buf, 1, e), e))
}

} // verus!
