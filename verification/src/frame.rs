//! One decoded protocol frame, with owned text fields. The decoder copies
//! each field out of the receive buffer, so a frame stays valid however the
//! buffer is refilled or compacted afterwards.

use vstd::prelude::*;

use crate::grammar::{SpecMsg, SpecPrefix};
use crate::text::s2s_spec;

verus! {

/// Who a frame came from: a server, or a `nick!user@host` client triple.
#[derive(Debug, PartialEq)]
pub enum Prefix {
    Server(String),
    User { nick: String, user: String, host: String },
}

/// One decoded frame: optional prefix, mandatory command, up to fourteen
/// middle parameters and an optional trailing parameter. An empty trailing
/// value is present-but-empty, distinct from an absent one.
#[derive(Debug, PartialEq)]
pub struct Message {
    pub prefix: Option<Prefix>,
    pub command: String,
    pub params: Vec<String>,
    pub trailing: Option<String>,
}

/// Mathematical value of a prefix: its fields as character sequences.
pub enum PrefixChars {
    Server(Seq<char>),
    User { nick: Seq<char>, user: Seq<char>, host: Seq<char> },
}

/// Mathematical value of a frame: all fields as character sequences.
pub struct MessageChars {
    pub prefix: Option<PrefixChars>,
    pub command: Seq<char>,
    pub params: Seq<Seq<char>>,
    pub trailing: Option<Seq<char>>,
}

impl View for Prefix {
    type V = PrefixChars;

    open spec fn view(&self) -> PrefixChars {
        match self {
            Prefix::Server(n) => PrefixChars::Server(n@),
            Prefix::User { nick, user, host } => PrefixChars::User {
                nick: nick@,
                user: user@,
                host: host@,
            },
        }
    }
}

impl View for Message {
    type V = MessageChars;

    open spec fn view(&self) -> MessageChars {
        MessageChars {
            prefix: match self.prefix {
                None => None,
                Some(p) => Some(p@),
            },
            command: self.command@,
            params: self.params.deep_view(),
            trailing: match self.trailing {
                None => None,
                Some(t) => Some(t@),
            },
        }
    }
}

/// The text of a byte-level prefix: each field decoded as UTF-8, with the
/// replacement marker standing in for undecodable bytes.
pub open spec fn prefix_chars(p: SpecPrefix) -> PrefixChars {
    match p {
        SpecPrefix::Server(n) => PrefixChars::Server(s2s_spec(n)),
        SpecPrefix::User(n, u, h) => PrefixChars::User {
            nick: s2s_spec(n),
            user: s2s_spec(u),
            host: s2s_spec(h),
        },
    }
}

/// The text of a byte-level frame, field by field.
pub open spec fn msg_chars(m: SpecMsg) -> MessageChars {
    MessageChars {
        prefix: match m.prefix {
            None => None,
            Some(p) => Some(prefix_chars(p)),
        },
        command: s2s_spec(m.command),
        params: Seq::new(m.params.len(), |i: int| s2s_spec(m.params[i])),
        trailing: match m.trailing {
            None => None,
            Some(t) => Some(s2s_spec(t)),
        },
    }
}

} // verus!
