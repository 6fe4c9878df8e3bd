use botframe::bot::{
    greeting, handle_message, on_frame, write_count, write_stat, write_top, Settings,
};
use botframe::counter::Counter;
use botframe::decode::{decode, Outcome};
use botframe::frame::Message;

fn settings(words: &[&str], reps: &[(&str, &str)]) -> Settings {
    Settings {
        nick: "CounterBot".to_string(),
        server: "irc.example.net:6667".to_string(),
        channel: "#chan".to_string(),
        dbfile: "counts.toml".to_string(),
        count_words: words.iter().map(|w| w.to_string()).collect(),
        count_color: None,
        count_unit: "u".to_string(),
        replacements: reps
            .iter()
            .map(|(a, b)| (a.to_string(), b.to_string()))
            .collect(),
    }
}

fn counter(entries: &[(&str, u64)]) -> Counter {
    let mut c = Counter::new();
    for (k, v) in entries {
        c.push_absent(k.to_string(), *v);
    }
    c
}

#[test]
fn counter_tracks_entries() {
    let c = Counter::from_entries(vec![("a".to_string(), 2), ("b".to_string(), 0)]);
    assert!(c.contains("b"));
    assert!(!c.contains("z"));
    assert_eq!(c.get("a"), 2);
    assert_eq!(c.get("b"), 0);
    assert_eq!(c.get("z"), 0);
    let mut c = c;
    c.bump("a");
    c.bump("z");
    assert_eq!(c.get("a"), 3);
    assert_eq!(c.get("z"), 1);
}

#[test]
fn count_text_is_coloured_and_padded() {
    let mut s = settings(&[], &[]);
    s.count_color = Some(3);
    assert_eq!(write_count(&s, 42), "\u{3}0342u\u{3}");
    s.count_color = Some(15);
    assert_eq!(write_count(&s, 0), "\u{3}150u\u{3}");
    s.count_color = None;
    assert_eq!(write_count(&s, 1234567890123), "\u{3}001234567890123u\u{3}");
}

#[test]
fn stat_reports_one_nick() {
    let s = settings(&[], &[]);
    let c = counter(&[("alice", 9), ("bob", 2)]);
    assert_eq!(write_stat(&c, &s, "bob"), "bob: \u{3}002u\u{3}");
    assert_eq!(write_stat(&c, &s, "nobody"), "nobody: \u{3}000u\u{3}");
}

#[test]
fn top_sorts_medals_and_totals() {
    let s = settings(&[], &[]);
    let c = counter(&[("a", 5), ("b", 7), ("c", 5), ("d", 1)]);
    // Sorted: b 7, a 5, c 5, d 1. Three medal lines; a and c tie on silver.
    let expected = "\u{3}7\u{1F947}\u{3}b \u{3}007u\u{3}\u{3}15\u{1F948}\u{3}a \u{3}005u\u{3}\u{3}15\u{1F948}\u{3}c \u{3}005u\u{3}:: \u{2211}\u{3}0018u\u{3}";
    assert_eq!(write_top(&c, &s), expected);
}

#[test]
fn top_of_single_entry_prints_only_the_total() {
    let s = settings(&[], &[]);
    let c = counter(&[("solo", 4)]);
    assert_eq!(write_top(&c, &s), ":: \u{2211}\u{3}004u\u{3}");
}

#[test]
fn counting_credits_the_replacement_nick() {
    let s = settings(&["tea"], &[("alice", "bob")]);
    let mut c = Counter::new();
    let (reply, save) = handle_message(&mut c, &s, "alice", "tea time");
    assert_eq!(reply, "");
    assert!(save);
    let (reply, save) = handle_message(&mut c, &s, "alice", "`stat");
    assert_eq!(reply, "bob: \u{3}001u\u{3}");
    assert!(!save);
    let (reply, save) = handle_message(&mut c, &s, "carol", "coffee");
    assert_eq!(reply, "");
    assert!(!save);
}

#[test]
fn two_prefix_words_count_twice() {
    let s = settings(&["t", "te"], &[]);
    let mut c = Counter::new();
    let (_, save) = handle_message(&mut c, &s, "x", "tea");
    assert!(save);
    let (reply, _) = handle_message(&mut c, &s, "x", "`stat");
    assert_eq!(reply, "x: \u{3}002u\u{3}");
}

#[test]
fn rules_reply() {
    let s = settings(&[], &[]);
    let mut c = Counter::new();
    let (reply, save) = handle_message(&mut c, &s, "x", "`rules");
    assert_eq!(reply, "\u{24B6}");
    assert!(!save);
}

fn frame(bytes: &[u8]) -> Message {
    match decode(bytes) {
        Outcome::Decoded(m, _) => m,
        other => panic!("expected a frame, got {:?}", other),
    }
}

#[test]
fn ping_frame_earns_a_pong() {
    let s = settings(&[], &[]);
    let mut c = Counter::new();
    let f = frame(b"PING :abc\r\n");
    let (out, save) = on_frame(&f, &mut c, &s);
    assert_eq!(out, "PONG :abc\r\n");
    assert!(!save);
    let f = frame(b"PING\r\n");
    let (out, _) = on_frame(&f, &mut c, &s);
    assert_eq!(out, "PONG :\r\n");
}

#[test]
fn user_frame_reply_goes_to_the_channel() {
    let s = settings(&[], &[]);
    let mut c = counter(&[("nick", 3)]);
    let f = frame(b":nick!user@host PRIVMSG #chan :`stat\r\n");
    let (out, save) = on_frame(&f, &mut c, &s);
    assert_eq!(out, "PRIVMSG #chan :nick: \u{3}003u\u{3}\r\n");
    assert!(!save);
}

#[test]
fn server_frame_earns_no_reply() {
    let s = settings(&["tea"], &[]);
    let mut c = Counter::new();
    let f = frame(b":irc.example.net NOTICE * :tea\r\n");
    let (out, save) = on_frame(&f, &mut c, &s);
    assert_eq!(out, "");
    assert!(!save);
}

#[test]
fn greeting_lines() {
    assert_eq!(
        greeting("CounterBot", "#chan"),
        "NICK CounterBot\r\nUSER CounterBot 0 * :CounterBot\r\nJOIN #chan\r\n"
    );
}
