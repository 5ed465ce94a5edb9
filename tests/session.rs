use chat_relay::registry::Handle;
use chat_relay::session::{format_message, parse_chunk, Action, Command, ReadEvent, Session, BUF_SIZE};

fn h() -> Handle {
    Handle { slot: 0, stamp: 0 }
}

#[test]
fn buffer_capacity() {
    assert_eq!(BUF_SIZE, 9999);
}

#[test]
fn parse_nick_strips_newline() {
    assert_eq!(parse_chunk(b"/nick alice\n"), Command::Nick(b"alice".to_vec()));
    assert_eq!(parse_chunk(b"/nick bob"), Command::Nick(b"bob".to_vec()));
    assert_eq!(parse_chunk(b"/nick a b\n"), Command::Nick(b"a b".to_vec()));
    assert_eq!(parse_chunk(b"/nick \n"), Command::Nick(Vec::new()));
    assert_eq!(parse_chunk(b"/nick "), Command::Nick(Vec::new()));
}

#[test]
fn parse_other_chunks_are_messages() {
    assert_eq!(parse_chunk(b"hello\n"), Command::Say);
    assert_eq!(parse_chunk(b"/nick"), Command::Say);
    assert_eq!(parse_chunk(b"/nickx y"), Command::Say);
    assert_eq!(parse_chunk(b" /nick y"), Command::Say);
    assert_eq!(parse_chunk(b""), Command::Say);
}

#[test]
fn format_prefixes_nickname() {
    assert_eq!(format_message(b"alice", b"hello\n"), b"alice: hello\n".to_vec());
    assert_eq!(format_message(b"", b"x"), b": x".to_vec());
    assert_eq!(format_message(b"n", b""), b"n: ".to_vec());
}

#[test]
fn new_session_has_default_nick() {
    let s = Session::new(h());
    assert_eq!(s.nickname(), &b"name".to_vec());
    assert!(s.is_open());
}

#[test]
fn message_uses_current_nick() {
    let mut s = Session::new(h());
    let r = s.step(ReadEvent::Data(b"hi\n".to_vec()));
    assert_eq!(r, Action::Broadcast(b"name: hi\n".to_vec()));
    let r = s.step(ReadEvent::Data(b"/nick zed\n".to_vec()));
    assert_eq!(r, Action::Nothing);
    assert_eq!(s.nickname(), &b"zed".to_vec());
    let r = s.step(ReadEvent::Data(b"yo".to_vec()));
    assert_eq!(r, Action::Broadcast(b"zed: yo".to_vec()));
}

#[test]
fn nick_change_is_private() {
    let mut a = Session::new(Handle { slot: 0, stamp: 0 });
    let mut b = Session::new(Handle { slot: 1, stamp: 1 });
    a.step(ReadEvent::Data(b"/nick alice\n".to_vec()));
    assert_eq!(b.nickname(), &b"name".to_vec());
    let r = b.step(ReadEvent::Data(b"hey\n".to_vec()));
    assert_eq!(r, Action::Broadcast(b"name: hey\n".to_vec()));
}

#[test]
fn empty_read_leaves_once() {
    let mut s = Session::new(Handle { slot: 3, stamp: 5 });
    assert_eq!(s.step(ReadEvent::Data(Vec::new())), Action::Leave(Handle { slot: 3, stamp: 5 }));
    assert!(!s.is_open());
    assert_eq!(s.step(ReadEvent::Data(Vec::new())), Action::Nothing);
    assert_eq!(s.step(ReadEvent::Failed), Action::Nothing);
    assert_eq!(s.step(ReadEvent::Data(b"late\n".to_vec())), Action::Nothing);
}

#[test]
fn failed_read_leaves() {
    let mut s = Session::new(Handle { slot: 2, stamp: 9 });
    assert_eq!(s.step(ReadEvent::Failed), Action::Leave(Handle { slot: 2, stamp: 9 }));
    assert!(!s.is_open());
}
