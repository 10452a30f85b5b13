use pipecolor::colorize::{Config, Line};
use pipecolor::driver::{after_read, color_enabled, style_record, Next, RecordError};
use pipecolor::pattern::Pattern;

fn error_config() -> Config {
    Config {
        lines: vec![Line {
            pat: Pattern::new("(Error).*").unwrap(),
            colors: vec!["Red".to_string(), "LightRed".to_string()],
            tokens: vec![],
        }],
    }
}

#[test]
fn disabled_coloring_passes_records_through() {
    let config = error_config();
    for rec in ["Error: disk full\n", "", "plain\n", "Error"] {
        let (out, idx) = style_record(rec.as_bytes().to_vec(), false, &config).unwrap();
        assert_eq!(out, rec);
        assert_eq!(idx, None);
    }
}

#[test]
fn enabled_coloring_styles_records() {
    let config = error_config();
    let (out, idx) = style_record(b"Error: x\n".to_vec(), true, &config).unwrap();
    assert_eq!(out, "\u{1b}[38;5;1m\u{1b}[38;5;9mError\u{1b}[38;5;1m: x\u{1b}[39m\n");
    assert_eq!(idx, Some(0));
}

#[test]
fn invalid_utf8_record_is_an_error() {
    let config = error_config();
    let r = style_record(vec![b'a', 0xff, b'\n'], false, &config);
    assert!(matches!(r, Err(RecordError::InvalidUtf8)));
    let r = style_record(vec![0xc3], true, &config);
    assert!(matches!(r, Err(RecordError::InvalidUtf8)));
}

#[test]
fn color_error_is_reported() {
    let config = Config {
        lines: vec![Line {
            pat: Pattern::new("(E)").unwrap(),
            colors: vec!["Red".to_string(), "Pink".to_string()],
            tokens: vec![],
        }],
    };
    let r = style_record(b"E\n".to_vec(), true, &config);
    assert!(matches!(r, Err(RecordError::Colorize(_))));
}

#[test]
fn decisions_after_a_read() {
    assert_eq!(after_read(0, false, false, b""), Next::Stop);
    assert_eq!(after_read(0, false, true, b""), Next::Poll);
    assert_eq!(after_read(0, true, false, b""), Next::Poll);
    assert_eq!(after_read(5, true, false, b"abcde"), Next::Emit);
    assert_eq!(after_read(1, false, false, b"a\n"), Next::Emit);
}

#[test]
fn record_cut_inside_a_character_is_held() {
    // "é" is 0xc3 0xa9: a timeout after the first byte keeps the record
    assert_eq!(after_read(2, true, false, &[b'a', 0xc3]), Next::Poll);
    assert_eq!(after_read(0, true, false, &[b'a', 0xc3]), Next::Poll);
    assert_eq!(after_read(2, false, false, &[b'a', 0xc3, 0xa9, b'\n']), Next::Emit);
    // at the end of the stream what is pending is written out
    assert_eq!(after_read(0, false, false, &[b'a', 0xc3]), Next::Emit);
    assert_eq!(after_read(0, false, true, b"x"), Next::Emit);
}

#[test]
fn color_modes() {
    assert!(color_enabled("auto", true));
    assert!(!color_enabled("auto", false));
    assert!(color_enabled("always", false));
    assert!(!color_enabled("disable", true));
    assert!(color_enabled("other", false));
}
