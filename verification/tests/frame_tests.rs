use kvstore::frame::FrameBuffer;

#[test]
fn no_terminator_yields_nothing() {
    let mut fb = FrameBuffer::new();
    fb.feed(b"GET foo");
    assert!(fb.next_frame().is_none());
}

#[test]
fn partial_delivery_yields_one_frame() {
    let mut fb = FrameBuffer::new();
    fb.feed(b"SET fo");
    assert!(fb.next_frame().is_none());
    fb.feed(b"o bar\n");
    assert_eq!(fb.next_frame(), Some(b"SET foo bar".to_vec()));
    assert!(fb.next_frame().is_none());
}

#[test]
fn crlf_terminator_is_stripped() {
    let mut fb = FrameBuffer::new();
    fb.feed(b"GET foo\r\n");
    assert_eq!(fb.next_frame(), Some(b"GET foo".to_vec()));
}

#[test]
fn two_frames_in_one_feed() {
    let mut fb = FrameBuffer::new();
    fb.feed(b"GET a\nGET b\n");
    assert_eq!(fb.next_frame(), Some(b"GET a".to_vec()));
    assert_eq!(fb.next_frame(), Some(b"GET b".to_vec()));
    assert!(fb.next_frame().is_none());
}

#[test]
fn frame_then_partial_remainder() {
    let mut fb = FrameBuffer::new();
    fb.feed(b"GET a\nGET");
    assert_eq!(fb.next_frame(), Some(b"GET a".to_vec()));
    assert!(fb.next_frame().is_none());
    fb.feed(b" b\n");
    assert_eq!(fb.next_frame(), Some(b"GET b".to_vec()));
}

#[test]
fn empty_line_frame() {
    let mut fb = FrameBuffer::new();
    fb.feed(b"\n");
    assert_eq!(fb.next_frame(), Some(Vec::new()));
}
