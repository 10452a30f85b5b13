use pipecolor::read_timeout::{read_line_timeout, read_until_timeout, Fill, Round, Step};

#[test]
fn timeout_then_end_of_stream() {
    let mut buf = Vec::new();
    // first read: "A", "B", then a timeout
    let r = read_line_timeout(0, &mut buf, Fill::Ready(b"A"));
    assert_eq!(r, Round { used: 1, read: 1, step: Step::More });
    let r = read_line_timeout(r.read, &mut buf, Fill::Ready(b"B"));
    assert_eq!(r, Round { used: 1, read: 2, step: Step::More });
    let r = read_line_timeout(r.read, &mut buf, Fill::TimedOut);
    assert_eq!(r, Round { used: 0, read: 2, step: Step::Done { timed_out: true } });
    assert_eq!(buf, b"AB".to_vec());
    // second read: the end of the stream
    let mut buf = Vec::new();
    let r = read_line_timeout(0, &mut buf, Fill::Ready(b""));
    assert_eq!(r, Round { used: 0, read: 0, step: Step::Done { timed_out: false } });
    assert!(buf.is_empty());
}

#[test]
fn timeout_with_nothing_read() {
    let mut buf = Vec::new();
    let r = read_line_timeout(0, &mut buf, Fill::TimedOut);
    assert_eq!(r, Round { used: 0, read: 0, step: Step::Done { timed_out: true } });
    assert!(buf.is_empty());
}

#[test]
fn stops_after_the_delimiter() {
    let mut buf = b"xy".to_vec();
    let r = read_line_timeout(2, &mut buf, Fill::Ready(b"ab\ncd\n"));
    assert_eq!(r, Round { used: 3, read: 5, step: Step::Done { timed_out: false } });
    assert_eq!(buf, b"xyab\n".to_vec());
}

#[test]
fn delimiter_first_byte() {
    let mut buf = Vec::new();
    let r = read_line_timeout(0, &mut buf, Fill::Ready(b"\nrest"));
    assert_eq!(r, Round { used: 1, read: 1, step: Step::Done { timed_out: false } });
    assert_eq!(buf, b"\n".to_vec());
}

#[test]
fn interrupted_request_is_retried() {
    let mut buf = b"abc".to_vec();
    let r = read_line_timeout(3, &mut buf, Fill::Interrupted);
    assert_eq!(r, Round { used: 0, read: 3, step: Step::Retry });
    assert_eq!(buf, b"abc".to_vec());
}

#[test]
fn other_delimiter() {
    let mut buf = Vec::new();
    let r = read_until_timeout(0, b';', &mut buf, Fill::Ready(b"a\nb;c"));
    assert_eq!(r, Round { used: 4, read: 4, step: Step::Done { timed_out: false } });
    assert_eq!(buf, b"a\nb;".to_vec());
}

#[test]
fn split_multibyte_character_is_kept_whole() {
    // "é" is two bytes; the first arrives, then the rest with the newline
    let mut buf = Vec::new();
    let r = read_line_timeout(0, &mut buf, Fill::Ready(&[0xc3]));
    assert_eq!(r.step, Step::More);
    let r = read_line_timeout(r.read, &mut buf, Fill::TimedOut);
    assert_eq!(r.step, Step::Done { timed_out: true });
    let r = read_line_timeout(0, &mut buf, Fill::Ready(&[0xa9, b'\n']));
    assert_eq!(r.step, Step::Done { timed_out: false });
    assert_eq!(String::from_utf8(buf).unwrap(), "é\n");
}
