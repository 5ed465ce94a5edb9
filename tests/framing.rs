use chat_relay::framing::LineFramer;
use chat_relay::session::BUF_SIZE;

#[test]
fn whole_lines_pass_through() {
    let mut f = LineFramer::new();
    assert_eq!(f.push(b"hello\n"), vec![b"hello\n".to_vec()]);
    assert_eq!(f.finish(), Vec::<u8>::new());
}

#[test]
fn two_lines_in_one_read_are_split() {
    let mut f = LineFramer::new();
    assert_eq!(f.push(b"one\ntwo\n"), vec![b"one\n".to_vec(), b"two\n".to_vec()]);
}

#[test]
fn line_across_reads_is_joined() {
    let mut f = LineFramer::new();
    assert!(f.push(b"hel").is_empty());
    assert_eq!(f.push(b"lo\nwor"), vec![b"hello\n".to_vec()]);
    assert_eq!(f.push(b"ld\n"), vec![b"world\n".to_vec()]);
}

#[test]
fn empty_read_yields_nothing() {
    let mut f = LineFramer::new();
    assert!(f.push(b"").is_empty());
    assert_eq!(f.push(b"\n"), vec![b"\n".to_vec()]);
}

#[test]
fn finish_returns_unterminated_tail() {
    let mut f = LineFramer::new();
    assert_eq!(f.push(b"a\nbc"), vec![b"a\n".to_vec()]);
    assert_eq!(f.finish(), b"bc".to_vec());
    assert_eq!(f.finish(), Vec::<u8>::new());
}

#[test]
fn overlong_line_is_cut_at_capacity() {
    let mut f = LineFramer::new();
    let mut data = vec![b'x'; BUF_SIZE + 3];
    data.push(b'\n');
    let lines = f.push(&data);
    assert_eq!(lines.len(), 2);
    assert_eq!(lines[0], vec![b'x'; BUF_SIZE]);
    assert_eq!(lines[1], b"xxx\n".to_vec());
}
