//! The canonical wire encoder for frames, and the round trip it forms with
//! the decoder.

use vstd::prelude::*;
use vstd::string::StringSliceAdditionalSpecFns;
use vstd::utf8::{encode_utf8, encode_utf8_decode_utf8, encode_utf8_valid_utf8};

use crate::frame::{msg_chars, Message, MessageChars, Prefix, PrefixChars};
use crate::grammar::{
    msg_ok, render_params, spec_decode, spec_render, SpecMsg, SpecOutcome, SpecPrefix, AT, BANG,
    COLON, CR, LF, SP,
};
use crate::roundtrip::lemma_round_trip;
use crate::text::s2s_spec;

verus! {

/// The UTF-8 bytes a prefix puts on the wire.
pub open spec fn prefix_bytes(p: PrefixChars) -> SpecPrefix {
    match p {
        PrefixChars::Server(n) => SpecPrefix::Server(encode_utf8(n)),
        PrefixChars::User { nick, user, host } => SpecPrefix::User(
            encode_utf8(nick),
            encode_utf8(user),
            encode_utf8(host),
        ),
    }
}

/// The UTF-8 bytes a frame's fields put on the wire.
pub open spec fn msg_bytes(mc: MessageChars) -> SpecMsg {
    SpecMsg {
        prefix: match mc.prefix {
            None => None,
            Some(p) => Some(prefix_bytes(p)),
        },
        command: encode_utf8(mc.command),
        params: Seq::new(mc.params.len(), |i: int| encode_utf8(mc.params[i])),
        trailing: match mc.trailing {
            None => None,
            Some(t) => Some(encode_utf8(t)),
        },
    }
}

/// A frame whose fields the wire grammar can carry: what `render` encodes,
/// the decoder reads back verbatim.
pub open spec fn frame_ok(mc: MessageChars) -> bool {
    msg_ok(msg_bytes(mc))
}

/// UTF-8 encoding loses no text: reading the encoded fields back gives the
/// original fields.
pub proof fn lemma_msg_bytes_chars(mc: MessageChars)
    ensures
        msg_chars(msg_bytes(mc)) == mc,
{
    broadcast use encode_utf8_valid_utf8, encode_utf8_decode_utf8;

    assert forall|cs: Seq<char>| #[trigger] s2s_spec(encode_utf8(cs)) == cs by {
        encode_utf8_valid_utf8(cs);
        encode_utf8_decode_utf8(cs);
    }
    match mc.prefix {
        None => {},
        Some(p) => {
            match p {
                PrefixChars::Server(n) => {},
                PrefixChars::User { nick, user, host } => {},
            }
        },
    }
    assert(msg_chars(msg_bytes(mc)).params =~= mc.params);
}

/// Round trip at the text level: decoding the rendering of any frame the
/// wire grammar can carry yields a frame with exactly the original fields,
/// consuming the whole rendering.
pub proof fn lemma_text_round_trip(mc: MessageChars)
    requires
        frame_ok(mc),
    ensures
        spec_decode(spec_render(msg_bytes(mc))) matches SpecOutcome::Decoded(sm, n)
            && msg_chars(sm) == mc && n == spec_render(msg_bytes(mc)).len(),
{
    lemma_round_trip(msg_bytes(mc));
    lemma_msg_bytes_chars(mc);
}

/// Appends the UTF-8 bytes of `s` to `out`.
fn push_str_bytes(out: &mut Vec<u8>, s: &str)
    ensures
        final(out)@ == old(out)@ + s.spec_bytes(),
{
    let bs = s.as_bytes();
    let n = bs.len();
    let mut i: usize = 0;
    while i < n
        invariant
            i <= n,
            n == bs@.len(),
            bs@ == s.spec_bytes(),
            out@ == old(out)@ + bs@.take(i as int),
        decreases n - i,
    {
        let b = bs[i];
        out.push(b);
        proof {
            assert(old(out)@ + bs@.take(i as int) + seq![bs@[i as int]] =~= old(out)@ + bs@.take(
                i as int + 1,
            ));
        }
        i = i + 1;
    }
    proof {
        assert(bs@.take(n as int) =~= bs@);
    }
}

/// Splitting `render_params` after its last parameter.
proof fn lemma_render_params_snoc(ps: Seq<Seq<u8>>, x: Seq<u8>)
    ensures
        render_params(ps.push(x)) == render_params(ps) + seq![SP] + x,
    decreases ps.len(),
{
    if ps.len() == 0 {
        assert(ps.push(x)[0] == x);
        assert(ps.push(x).skip(1) =~= Seq::<Seq<u8>>::empty());
        assert(render_params(Seq::<Seq<u8>>::empty()) == Seq::<u8>::empty());
        assert(render_params(ps.push(x)) == seq![SP] + x + render_params(
            Seq::<Seq<u8>>::empty(),
        ));
        assert(render_params(ps.push(x)) =~= render_params(ps) + seq![SP] + x);
    } else {
        assert(ps.push(x)[0] == ps[0]);
        assert(ps.push(x).skip(1) =~= ps.skip(1).push(x));
        lemma_render_params_snoc(ps.skip(1), x);
        assert(render_params(ps.push(x)) == seq![SP] + ps[0] + render_params(
            ps.skip(1).push(x),
        ));
        assert(render_params(ps.push(x)) =~= render_params(ps) + seq![SP] + x);
    }
}

/// The canonical wire encoding of a frame: prefix, command, parameters and
/// trailing part, closed with `\r\n`.
pub fn render(m: &Message) -> (r: Vec<u8>)
    ensures
        r@ == spec_render(msg_bytes(m@)),
{
    let ghost sm = msg_bytes(m@);
    let mut out: Vec<u8> = Vec::new();
    match &m.prefix {
        None => {},
        Some(Prefix::Server(name)) => {
            out.push(COLON);
            push_str_bytes(&mut out, name.as_str());
            out.push(SP);
            proof {
                assert(out@ =~= crate::grammar::render_prefix(sm.prefix->0));
            }
        },
        Some(Prefix::User { nick, user, host }) => {
            out.push(COLON);
            push_str_bytes(&mut out, nick.as_str());
            out.push(BANG);
            push_str_bytes(&mut out, user.as_str());
            out.push(AT);
            push_str_bytes(&mut out, host.as_str());
            out.push(SP);
            proof {
                assert(out@ =~= crate::grammar::render_prefix(sm.prefix->0));
            }
        },
    }
    let ghost pp = out@;
    push_str_bytes(&mut out, m.command.as_str());
    proof {
        assert(out@ == pp + sm.command);
    }
    let ghost base = out@;
    let np = m.params.len();
    let mut i: usize = 0;
    while i < np
        invariant
            i <= np,
            np == m.params@.len(),
            sm == msg_bytes(m@),
            sm.params.len() == np,
            forall|j: int| 0 <= j < np ==> sm.params[j] == encode_utf8(m.params@[j]@),
            out@ == base + render_params(sm.params.take(i as int)),
        decreases np - i,
    {
        out.push(SP);
        push_str_bytes(&mut out, m.params[i].as_str());
        proof {
            lemma_render_params_snoc(sm.params.take(i as int), sm.params[i as int]);
            assert(sm.params.take(i as int).push(sm.params[i as int]) =~= sm.params.take(
                i as int + 1,
            ));
            assert(out@ =~= base + render_params(sm.params.take(i as int + 1)));
        }
        i = i + 1;
    }
    proof {
        assert(sm.params.take(np as int) =~= sm.params);
    }
    match &m.trailing {
        None => {},
        Some(t) => {
            out.push(SP);
            out.push(COLON);
            push_str_bytes(&mut out, t.as_str());
        },
    }
    out.push(CR);
    out.push(LF);
    proof {
        assert(out@ =~= spec_render(sm));
    }
    out
}

} // verus!
