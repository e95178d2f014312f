use crlf_echo::handler::Connection;
use crlf_echo::handler::ReadOutcome;

#[test]
fn fresh_connection_has_nothing_pending() {
    let mut conn = Connection::new();
    assert_eq!(conn.buffered_len(), 0);
    assert_eq!(conn.next_frame(), None);
}

#[test]
fn one_message_is_echoed_once() {
    let mut conn = Connection::new();
    assert_eq!(conn.on_read(b"hello\r\n"), ReadOutcome::Progress);
    assert_eq!(conn.next_frame(), Some(b"hello".to_vec()));
    assert_eq!(conn.next_frame(), None);
    assert_eq!(conn.buffered_len(), 0);
}

#[test]
fn frame_split_across_reads_comes_out_whole() {
    let mut conn = Connection::new();
    assert_eq!(conn.on_read(b"a"), ReadOutcome::Progress);
    assert_eq!(conn.next_frame(), None);
    assert_eq!(conn.on_read(b"b\r\n"), ReadOutcome::Progress);
    assert_eq!(conn.next_frame(), Some(b"ab".to_vec()));
    assert_eq!(conn.next_frame(), None);
}

#[test]
fn delimiter_split_across_reads_still_frames() {
    let mut conn = Connection::new();
    assert_eq!(conn.on_read(b"ok\r"), ReadOutcome::Progress);
    assert_eq!(conn.next_frame(), None);
    assert_eq!(conn.on_read(b"\n"), ReadOutcome::Progress);
    assert_eq!(conn.next_frame(), Some(b"ok".to_vec()));
}

#[test]
fn two_frames_in_one_read_keep_order() {
    let mut conn = Connection::new();
    assert_eq!(conn.on_read(b"x\r\ny\r\n"), ReadOutcome::Progress);
    assert_eq!(conn.next_frame(), Some(b"x".to_vec()));
    assert_eq!(conn.next_frame(), Some(b"y".to_vec()));
    assert_eq!(conn.next_frame(), None);
}

#[test]
fn zero_length_frame_is_not_skipped() {
    let mut conn = Connection::new();
    assert_eq!(conn.on_read(b"\r\nnext"), ReadOutcome::Progress);
    assert_eq!(conn.next_frame(), Some(Vec::new()));
    assert_eq!(conn.next_frame(), None);
    assert_eq!(conn.buffered_len(), 4);
}

#[test]
fn stalled_read_terminates_without_echo() {
    let mut conn = Connection::new();
    assert_eq!(conn.on_read(b"partial"), ReadOutcome::Progress);
    assert_eq!(conn.next_frame(), None);
    assert_eq!(conn.on_read(b""), ReadOutcome::Stalled);
    assert_eq!(conn.buffered_len(), 7);
}

#[test]
fn end_of_stream_on_empty_buffer_closes_cleanly() {
    let mut conn = Connection::new();
    assert_eq!(conn.on_read(b""), ReadOutcome::CleanClose);
}

#[test]
fn end_of_stream_after_full_drain_closes_cleanly() {
    let mut conn = Connection::new();
    assert_eq!(conn.on_read(b"bye\r\n"), ReadOutcome::Progress);
    assert_eq!(conn.next_frame(), Some(b"bye".to_vec()));
    assert_eq!(conn.on_read(b""), ReadOutcome::CleanClose);
}

#[test]
fn connections_do_not_share_state() {
    let mut first = Connection::new();
    let mut second = Connection::new();
    assert_eq!(first.on_read(b"one"), ReadOutcome::Progress);
    assert_eq!(second.on_read(b"two\r\n"), ReadOutcome::Progress);
    assert_eq!(first.on_read(b"\r\n"), ReadOutcome::Progress);
    assert_eq!(second.next_frame(), Some(b"two".to_vec()));
    assert_eq!(first.next_frame(), Some(b"one".to_vec()));
    assert_eq!(first.next_frame(), None);
    assert_eq!(second.next_frame(), None);
}
