use kernel::io::bytesreader::{read_null_term_str, try_read_null_term_str, BytesReader};
use kernel::io::console::Indent;
use kernel::io::klog::{enabled, get_loglevel, set_loglevel, KLog, LogLevel};

const DATA: [u8; 20] = [
    0x12, 0x34, 0x56, 0x78, 0, 0, 0, 1, 0, 0, 0, 2, b'h', b'i', 0, b'!', 0, 0xff, 0, 7,
];

#[test]
fn reads_big_endian_words() {
    let mut r = BytesReader::new(&DATA);
    assert_eq!(r.len(), 20);
    assert_eq!(r.pos(), 0);
    assert_eq!(r.peek_u32_be(), 0x1234_5678);
    assert_eq!(r.pos(), 0);
    assert_eq!(r.read_u32_be(), 0x1234_5678);
    assert_eq!(r.pos(), 4);
    assert_eq!(r.read_u64_be(), 0x0000_0001_0000_0002);
    assert_eq!(r.pos(), 12);
}

#[test]
fn reads_bytes_and_skips() {
    let mut r = BytesReader::new(&DATA);
    r.skip(12);
    assert_eq!(r.read_bytes(3), &[b'h', b'i', 0][..]);
    assert_eq!(r.pos(), 15);
    assert_eq!(r.read_bytes(0), &[][..]);
}

#[test]
fn align_to_moves_to_the_next_multiple() {
    let mut r = BytesReader::new(&DATA);
    r.align_to(4);
    assert_eq!(r.pos(), 0);
    r.skip(5);
    r.align_to(4);
    assert_eq!(r.pos(), 8);
    r.align_to(8);
    assert_eq!(r.pos(), 8);
    r.skip(1);
    r.align_to(8);
    assert_eq!(r.pos(), 16);
}

#[test]
fn reads_zero_terminated_strings() {
    let mut r = BytesReader::new(&DATA);
    r.skip(12);
    assert_eq!(r.null_term_str(), "hi");
    assert_eq!(r.pos(), 15);
    assert_eq!(r.null_term_str(), "!");
    assert_eq!(r.pos(), 17);
}

#[test]
fn try_null_term_str_refuses_bad_strings() {
    let mut r = BytesReader::new(&DATA);
    r.skip(17);
    // 0xff is no UTF-8.
    assert_eq!(r.try_null_term_str(), None);
    assert_eq!(r.pos(), 17);
    let mut r = BytesReader::new(&DATA);
    r.skip(19);
    // No zero byte follows.
    assert_eq!(r.try_null_term_str(), None);
    assert_eq!(r.pos(), 19);
}

#[test]
fn read_null_term_str_moves_past_the_zero() {
    let bytes = b"abc\0\0de\0";
    let mut pos: usize = 0;
    assert_eq!(read_null_term_str(bytes, &mut pos), "abc");
    assert_eq!(pos, 4);
    assert_eq!(read_null_term_str(bytes, &mut pos), "");
    assert_eq!(pos, 5);
    assert_eq!(try_read_null_term_str(bytes, &mut pos), Some("de"));
    assert_eq!(pos, 8);
    assert_eq!(try_read_null_term_str(bytes, &mut pos), None);
    assert_eq!(pos, 8);
    let mut far: usize = 100;
    assert_eq!(try_read_null_term_str(bytes, &mut far), None);
    assert_eq!(far, 100);
}

#[test]
fn indent_is_one_tab_per_level() {
    assert_eq!(Indent(0).to_string(), "");
    assert_eq!(Indent(1).to_string(), "\t");
    assert_eq!(Indent(3).to_string(), "\t\t\t");
}

#[test]
fn log_level_starts_at_info() {
    let log = KLog::new();
    assert_eq!(get_loglevel(&log), LogLevel::Info);
}

#[test]
fn set_loglevel_then_get_loglevel() {
    let mut log = KLog::new();
    for level in [LogLevel::Trace, LogLevel::Debug, LogLevel::Info, LogLevel::Warn, LogLevel::Error] {
        set_loglevel(&mut log, level);
        assert_eq!(get_loglevel(&log), level);
    }
}

#[test]
fn log_level_numbers() {
    assert_eq!(LogLevel::Trace.as_u8(), 5);
    assert_eq!(LogLevel::Error.as_u8(), 1);
    assert_eq!(LogLevel::from_u8(4), Some(LogLevel::Debug));
    assert_eq!(LogLevel::from_u8(2), Some(LogLevel::Warn));
    assert_eq!(LogLevel::from_u8(0), None);
    assert_eq!(LogLevel::from_u8(6), None);
}

#[test]
fn messages_at_or_below_the_level_are_shown() {
    assert!(enabled(LogLevel::Info, LogLevel::Error));
    assert!(enabled(LogLevel::Info, LogLevel::Info));
    assert!(!enabled(LogLevel::Info, LogLevel::Debug));
    assert!(enabled(LogLevel::Trace, LogLevel::Trace));
    assert!(!enabled(LogLevel::Error, LogLevel::Warn));
}
