use junctiontrace::cursor::Cursor;
use junctiontrace::error::JunctionError;

#[test]
fn cursor_reads_little_endian_values() {
    let data = [0x01u8, 0x34, 0x12, 0x56, 0x34, 0x12, 0x78, 0x56, 0x34, 0x12, 0xff, 0xfe, 0xff];
    let mut c = Cursor::new(&data);
    assert_eq!(c.remaining(), 13);
    assert_eq!(c.read_u8(), Ok(1));
    assert_eq!(c.read_u16(), Ok(0x1234));
    assert_eq!(c.read_u24(), Ok(0x12_3456));
    assert_eq!(c.read_u32(), Ok(0x1234_5678));
    assert_eq!(c.read_i8(), Ok(-1));
    assert_eq!(c.read_i16(), Ok(-2));
    assert_eq!(c.position(), 13);
    assert!(c.is_empty());
}

#[test]
fn cursor_reads_u64() {
    let data = [1u8, 2, 3, 4, 5, 6, 7, 8];
    let mut c = Cursor::new(&data);
    assert_eq!(c.read_u64(), Ok(0x0807_0605_0403_0201));
}

#[test]
fn cursor_truncation_reports_need_and_leaves_position() {
    let data = [1u8, 2, 3];
    let mut c = Cursor::new(&data);
    assert_eq!(c.read_u8(), Ok(1));
    assert_eq!(
        c.read_u32(),
        Err(JunctionError::Truncated { needed: 4, remaining: 2 })
    );
    assert_eq!(c.position(), 1);
    assert_eq!(c.read_u16(), Ok(0x0302));
    assert_eq!(
        c.read_u8(),
        Err(JunctionError::Truncated { needed: 1, remaining: 0 })
    );
}

#[test]
fn cursor_reads_varints() {
    let data = [0x96u8, 0x01, 0x7f, 0xff, 0xff, 0xff, 0xff, 0x0f];
    let mut c = Cursor::new(&data);
    assert_eq!(c.read_var_u32(), Ok(150));
    assert_eq!(c.read_var_u32(), Ok(127));
    assert_eq!(c.read_var_u32(), Ok(u32::MAX));
    assert!(c.is_empty());
}

#[test]
fn cursor_rejects_overlong_varint() {
    let data = [0x80u8, 0x80, 0x80, 0x80, 0x80, 0x01];
    let mut c = Cursor::new(&data);
    assert_eq!(c.read_var_u32(), Err(JunctionError::InvalidVarint));
}

#[test]
fn cursor_varint_cut_short_is_truncated() {
    let data = [0x80u8, 0x80];
    let mut c = Cursor::new(&data);
    assert_eq!(
        c.read_var_u32(),
        Err(JunctionError::Truncated { needed: 1, remaining: 0 })
    );
}

#[test]
fn cursor_reads_text_and_rejects_bad_utf8() {
    let data = [b'o', b'k', 0xc3, 0xa9, 0xff, 0xfe];
    let mut c = Cursor::new(&data);
    assert_eq!(c.read_text(2).unwrap(), "ok");
    assert_eq!(c.read_text(2).unwrap(), "\u{e9}");
    assert_eq!(c.read_text(2), Err(JunctionError::InvalidUtf8));
}

#[test]
fn cursor_reads_bytes_vec_fork_and_rest() {
    let data = [1u8, 2, 3, 4, 5, 6, 7];
    let mut c = Cursor::new(&data);
    assert_eq!(c.read_bytes(2).unwrap(), &[1u8, 2][..]);
    assert_eq!(c.read_vec(1).unwrap(), vec![3u8]);
    let mut f = c.fork_for(2).unwrap();
    assert_eq!(f.remaining(), 2);
    assert_eq!(f.read_u16(), Ok(0x0504));
    assert_eq!(c.position(), 5);
    assert_eq!(c.take_until_end(), &[6u8, 7][..]);
    assert_eq!(c.remaining(), 0);
    assert_eq!(
        c.fork_for(1).err(),
        Some(JunctionError::Truncated { needed: 1, remaining: 0 })
    );
}
