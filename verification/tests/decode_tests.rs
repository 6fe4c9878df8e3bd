use botframe::decode::{decode, parse_prefix, Outcome};
use botframe::frame::{Message, Prefix};
use botframe::render::render;

fn msg(
    prefix: Option<Prefix>,
    command: &str,
    params: &[&str],
    trailing: Option<&str>,
) -> Message {
    Message {
        prefix,
        command: command.to_string(),
        params: params.iter().map(|p| p.to_string()).collect(),
        trailing: trailing.map(|t| t.to_string()),
    }
}

#[test]
fn test_server_prefix() {
    let p = b":irc.example.net ";
    assert_eq!(
        parse_prefix(p),
        Some((Prefix::Server("irc.example.net".to_string()), 16))
    );
}

#[test]
fn test_user_prefix() {
    let p = b":NICK!~USER@HOST.TLD ";
    assert_eq!(
        parse_prefix(p),
        Some((
            Prefix::User {
                nick: "NICK".to_string(),
                user: "~USER".to_string(),
                host: "HOST.TLD".to_string(),
            },
            20
        ))
    );
}

#[test]
fn test_welcome() {
    let m = b":irc.example.net 001 test :Welcome to the Internet Relay Network test!~test@localhost\r\n";
    assert_eq!(
        decode(m),
        Outcome::Decoded(
            msg(
                Some(Prefix::Server("irc.example.net".to_string())),
                "001",
                &["test"],
                Some("Welcome to the Internet Relay Network test!~test@localhost"),
            ),
            m.len()
        )
    );
}

#[test]
fn test_kick_empty_trailing() {
    let m = b":saati!~bjb@saati.flerp KICK #sirc sIRCbot :\r\n";
    assert_eq!(
        decode(m),
        Outcome::Decoded(
            msg(
                Some(Prefix::User {
                    nick: "saati".to_string(),
                    user: "~bjb".to_string(),
                    host: "saati.flerp".to_string(),
                }),
                "KICK",
                &["#sirc", "sIRCbot"],
                Some(""),
            ),
            m.len()
        )
    );
}

#[test]
fn welcome_line_fields() {
    let m = b":irc.example.net 001 test :Welcome!\r\n";
    assert_eq!(
        decode(m),
        Outcome::Decoded(
            msg(
                Some(Prefix::Server("irc.example.net".to_string())),
                "001",
                &["test"],
                Some("Welcome!"),
            ),
            m.len()
        )
    );
}

#[test]
fn ping_without_prefix() {
    let m = b"PING :abc\r\n";
    assert_eq!(
        decode(m),
        Outcome::Decoded(msg(None, "PING", &[], Some("abc")), m.len())
    );
}

#[test]
fn lone_newline_terminator() {
    let m = b"PING :abc\n";
    assert_eq!(
        decode(m),
        Outcome::Decoded(msg(None, "PING", &[], Some("abc")), m.len())
    );
}

#[test]
fn incomplete_inputs() {
    assert_eq!(decode(b""), Outcome::Incomplete);
    assert_eq!(decode(b"PING"), Outcome::Incomplete);
    assert_eq!(decode(b"PING :abc"), Outcome::Incomplete);
    assert_eq!(decode(b"PING :abc\r"), Outcome::Incomplete);
    assert_eq!(decode(b":"), Outcome::Incomplete);
    assert_eq!(decode(b":server.name 001"), Outcome::Incomplete);
}

#[test]
fn malformed_inputs() {
    // An empty prefix token can never grow into a frame.
    assert_eq!(decode(b": x\r\n"), Outcome::Malformed);
    assert_eq!(decode(b": "), Outcome::Malformed);
    // A line with no command at all.
    assert_eq!(decode(b"\r\n"), Outcome::Malformed);
    assert_eq!(decode(b":server \r\n"), Outcome::Malformed);
    // A carriage return followed by something other than a line feed.
    assert_eq!(decode(b"PING :a\rX\n"), Outcome::Malformed);
}

#[test]
fn fifteenth_parameter_folds_into_trailing() {
    let m = b"CMD p1 p2 p3 p4 p5 p6 p7 p8 p9 p10 p11 p12 p13 p14 fifteenth\r\n";
    match decode(m) {
        Outcome::Decoded(f, n) => {
            assert_eq!(n, m.len());
            assert_eq!(f.params.len(), 14);
            assert_eq!(f.params[0], "p1");
            assert_eq!(f.params[13], "p14");
            assert_eq!(f.trailing, Some("fifteenth".to_string()));
        }
        other => panic!("expected a frame, got {:?}", other),
    }
}

#[test]
fn trailing_space_alone_gives_present_empty_trailing() {
    let m = b"CMD \r\n";
    assert_eq!(
        decode(m),
        Outcome::Decoded(msg(None, "CMD", &[], Some("")), m.len())
    );
}

#[test]
fn double_space_starts_the_trailing_value() {
    let m = b"CMD a  b\r\n";
    assert_eq!(
        decode(m),
        Outcome::Decoded(msg(None, "CMD", &["a"], Some(" b")), m.len())
    );
}

#[test]
fn invalid_utf8_field_becomes_sentinel() {
    let m = b"PING :a\xffb\r\n";
    assert_eq!(
        decode(m),
        Outcome::Decoded(msg(None, "PING", &[], Some("UTF8_ERR_\u{1F344}")), m.len())
    );
}

#[test]
fn valid_utf8_field_is_kept() {
    let m = "PRIVMSG #chan :h\u{e9}llo \u{1F344}\r\n".as_bytes();
    assert_eq!(
        decode(m),
        Outcome::Decoded(
            msg(None, "PRIVMSG", &["#chan"], Some("h\u{e9}llo \u{1F344}")),
            m.len()
        )
    );
}

#[test]
fn round_trip_of_rendered_frame() {
    let f = msg(
        Some(Prefix::User {
            nick: "nick".to_string(),
            user: "user".to_string(),
            host: "host".to_string(),
        }),
        "PRIVMSG",
        &["#chan"],
        Some("hello there"),
    );
    let wire = render(&f);
    assert_eq!(wire, b":nick!user@host PRIVMSG #chan :hello there\r\n".to_vec());
    assert_eq!(decode(&wire), Outcome::Decoded(f, wire.len()));
}

#[test]
fn round_trip_without_prefix_or_trailing() {
    let f = msg(None, "LIST", &["#a", "#b"], None);
    let wire = render(&f);
    assert_eq!(wire, b"LIST #a #b\r\n".to_vec());
    assert_eq!(decode(&wire), Outcome::Decoded(f, wire.len()));
}

#[test]
fn render_reproduces_canonical_wire() {
    let wire = b":irc.example.net 001 test :Welcome!\r\n";
    match decode(wire) {
        Outcome::Decoded(f, _) => assert_eq!(render(&f), wire.to_vec()),
        other => panic!("expected a frame, got {:?}", other),
    }
}

#[test]
fn prefix_of_bare_server_name() {
    // `!` and `@` out of the nick!user@host shape stay a server name.
    assert_eq!(
        parse_prefix(b":odd!name "),
        Some((Prefix::Server("odd!name".to_string()), 9))
    );
    assert_eq!(parse_prefix(b"no-colon "), None);
    assert_eq!(parse_prefix(b": "), None);
}
