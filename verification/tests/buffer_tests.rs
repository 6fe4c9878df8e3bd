use botframe::buffer::{DrainStatus, RecvBuffer};
use botframe::decode::{decode, Outcome};
use botframe::frame::Message;

fn whole_frame(bytes: &[u8]) -> Message {
    match decode(bytes) {
        Outcome::Decoded(m, n) => {
            assert_eq!(n, bytes.len());
            m
        }
        other => panic!("expected one frame, got {:?}", other),
    }
}

#[test]
fn split_at_every_boundary_assembles_the_same_frame() {
    let wire = b":nick!user@host PRIVMSG #chan :hello there\r\n";
    let expected = whole_frame(wire);
    for cut in 0..wire.len() {
        let mut buf = RecvBuffer::new(128);
        buf.fill(&wire[..cut]);
        let (frames, status) = buf.drain();
        assert!(frames.is_empty());
        assert_eq!(status, DrainStatus::NeedMore);
        buf.fill(&wire[cut..]);
        let (frames, status) = buf.drain();
        assert_eq!(frames.len(), 1);
        assert_eq!(frames[0], expected);
        assert_eq!(status, DrainStatus::NeedMore);
        assert_eq!(buf.byte_len(), 0);
    }
}

#[test]
fn two_frames_back_to_back_come_out_of_one_drain() {
    let first = b":irc.example.net 001 test :Welcome!\r\n";
    let second = b"PING :abc\r\n";
    let mut wire = first.to_vec();
    wire.extend_from_slice(second);
    let mut buf = RecvBuffer::new(256);
    buf.fill(&wire);
    let (frames, status) = buf.drain();
    assert_eq!(frames.len(), 2);
    assert_eq!(frames[0], whole_frame(first));
    assert_eq!(frames[1], whole_frame(second));
    assert_eq!(status, DrainStatus::NeedMore);
    assert_eq!(buf.byte_len(), 0);
}

#[test]
fn unterminated_line_fills_the_buffer_and_is_fatal() {
    let mut buf = RecvBuffer::new(16);
    buf.fill(&[b'a'; 16]);
    let (frames, status) = buf.drain();
    assert!(frames.is_empty());
    assert_eq!(status, DrainStatus::BufferFull);
    // One byte short of capacity is still just a partial frame.
    let mut buf = RecvBuffer::new(16);
    buf.fill(&[b'a'; 15]);
    let (frames, status) = buf.drain();
    assert!(frames.is_empty());
    assert_eq!(status, DrainStatus::NeedMore);
}

#[test]
fn malformed_bytes_are_fatal_for_the_connection() {
    let mut buf = RecvBuffer::new(64);
    buf.fill(b": broken\r\n");
    let (frames, status) = buf.drain();
    assert!(frames.is_empty());
    assert_eq!(status, DrainStatus::Malformed);
}

#[test]
fn compaction_keeps_the_partial_tail() {
    let mut buf = RecvBuffer::new(64);
    buf.fill(b"PING :abc\r\nPART");
    let (frames, status) = buf.drain();
    assert_eq!(frames.len(), 1);
    assert_eq!(status, DrainStatus::NeedMore);
    assert_eq!(buf.byte_len(), 4);
    buf.fill(b" #chan\r\n");
    let (frames, status) = buf.drain();
    assert_eq!(frames.len(), 1);
    assert_eq!(frames[0], whole_frame(b"PART #chan\r\n"));
    assert_eq!(status, DrainStatus::NeedMore);
}

#[test]
fn capacity_and_free_space_track_fills() {
    let mut buf = RecvBuffer::new(32);
    assert_eq!(buf.capacity(), 32);
    assert_eq!(buf.free_len(), 32);
    buf.fill(b"PING");
    assert_eq!(buf.capacity(), 32);
    assert_eq!(buf.free_len(), 28);
    assert_eq!(buf.byte_len(), 4);
}
