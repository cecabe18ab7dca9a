use cached_row_cursor::{CachedRowCursor, CursorError, MemorySource, SeekFrom};

fn make_cursor() -> CachedRowCursor<MemorySource> {
    let data = MemorySource::new(b"foo\nbar\nbiz\nbaz\nbuz\n".to_vec());
    CachedRowCursor::new(data, b'\n', 1)
}

#[test]
fn position() {
    let mut cursor = make_cursor();

    assert_eq!(cursor.set_position(12).unwrap(), 12);
    assert_eq!(cursor.position(), 12);
    assert_eq!(cursor.row_position(), 3);
}

#[test]
fn row_position() {
    let mut cursor = make_cursor();

    assert_eq!(cursor.set_row_position(2).unwrap(), 2);
    assert_eq!(cursor.row_position(), 2);
    assert_eq!(cursor.position(), 8);
}

#[test]
fn seek_from_start() {
    let mut cursor = make_cursor();

    assert_eq!(cursor.seek(SeekFrom::Start(1)).unwrap(), 1);
    assert_eq!(cursor.position(), 1);
    assert_eq!(cursor.row_position(), 0);

    assert_eq!(cursor.seek(SeekFrom::Start(4)).unwrap(), 4);
    assert_eq!(cursor.position(), 4);
    assert_eq!(cursor.row_position(), 1);

    assert_eq!(cursor.seek(SeekFrom::Start(21)).unwrap(), 20);
    assert_eq!(cursor.position(), 20);
    assert_eq!(cursor.row_position(), 5);
}

#[test]
fn seek_from_current() {
    let mut cursor = make_cursor();

    assert_eq!(cursor.seek(SeekFrom::Current(2)).unwrap(), 2);
    assert_eq!(cursor.position(), 2);
    assert_eq!(cursor.row_position(), 0);

    assert_eq!(cursor.seek(SeekFrom::Current(2)).unwrap(), 4);
    assert_eq!(cursor.position(), 4);
    assert_eq!(cursor.row_position(), 1);

    assert!(cursor.seek(SeekFrom::Current(-5)).is_err());
}

#[test]
fn seek_from_end() {
    let mut cursor = make_cursor();

    assert_eq!(cursor.seek(SeekFrom::End(-7)).unwrap(), 12);
    assert_eq!(cursor.position(), 12);
    assert_eq!(cursor.row_position(), 3);

    assert_eq!(cursor.seek(SeekFrom::End(-19)).unwrap(), 0);
    assert_eq!(cursor.position(), 0);
    assert_eq!(cursor.row_position(), 0);

    assert!(cursor.seek(SeekFrom::End(-20)).is_err());

    assert_eq!(cursor.total_length().unwrap(), 20);
}

#[test]
fn seek_row_from_start() {
    let mut cursor = make_cursor();

    assert_eq!(cursor.seek_row(SeekFrom::Start(3)).unwrap(), 3);
    assert_eq!(cursor.row_position(), 3);
    assert_eq!(cursor.position(), 12);

    assert_eq!(cursor.seek_row(SeekFrom::Start(6)).unwrap(), 5);
    assert_eq!(cursor.row_position(), 5);
    assert_eq!(cursor.position(), 20);
}

#[test]
fn seek_row_from_current() {
    let mut cursor = make_cursor();

    assert_eq!(cursor.seek_row(SeekFrom::Current(1)).unwrap(), 1);
    assert_eq!(cursor.row_position(), 1);
    assert_eq!(cursor.position(), 4);

    assert_eq!(cursor.seek_row(SeekFrom::Current(2)).unwrap(), 3);
    assert_eq!(cursor.row_position(), 3);
    assert_eq!(cursor.position(), 12);

    assert!(cursor.seek_row(SeekFrom::Current(-4)).is_err());
}

#[test]
fn seek_row_from_end() {
    let mut cursor = make_cursor();

    assert_eq!(cursor.seek_row(SeekFrom::End(-1)).unwrap(), 3);
    assert_eq!(cursor.row_position(), 3);
    assert_eq!(cursor.position(), 12);

    assert!(cursor.seek_row(SeekFrom::End(-5)).is_err());

    assert_eq!(cursor.total_rows().unwrap(), 5);
}

#[test]
fn read_row() {
    let mut cursor = make_cursor();

    let mut buf = vec![];
    assert_eq!(cursor.read_row(&mut buf).unwrap(), 4);
    assert_eq!(buf, "foo\n".as_bytes());
    assert_eq!(cursor.position(), 4);
    assert_eq!(cursor.row_position(), 1);

    assert_eq!(cursor.seek(SeekFrom::Current(1)).unwrap(), 5);
    let mut buf = vec![];
    assert_eq!(cursor.read_row(&mut buf).unwrap(), 3);
    assert_eq!(buf, b"ar\n");
    assert_eq!(cursor.position(), 8);
    assert_eq!(cursor.row_position(), 2);

    assert_eq!(cursor.seek(SeekFrom::End(0)).unwrap(), 19);
    let mut buf = vec![];
    assert_eq!(cursor.read_row(&mut buf).unwrap(), 1);
    assert_eq!(buf, b"\n");
    assert_eq!(cursor.position(), 20);
    assert_eq!(cursor.row_position(), 5);
}

#[test]
fn separator() {
    let mut cursor = make_cursor();
    cursor.set_separator(b'a');

    assert_eq!(cursor.seek(SeekFrom::End(0)).unwrap(), 19);
    assert_eq!(cursor.row_position(), 2);

    assert_eq!(cursor.set_row_position(1).unwrap(), 1);
    let mut buf = vec![];
    assert_eq!(cursor.read_row(&mut buf).unwrap(), 8);
    assert_eq!(buf, b"r\nbiz\nba");
    assert_eq!(cursor.position(), 14);
    assert_eq!(cursor.row_position(), 2);
}

#[test]
fn granularity() {
    let mut cursor = make_cursor();
    cursor.set_granularity(2);

    assert_eq!(cursor.seek(SeekFrom::End(0)).unwrap(), 19);
    assert_eq!(cursor.sample_count(), 3);
}

#[test]
fn granularity_sample_keys() {
    let mut cursor = make_cursor();
    cursor.set_granularity(2);

    assert_eq!(cursor.seek(SeekFrom::End(0)).unwrap(), 19);
    assert_eq!(cursor.sample(0), (0, 0));
    assert_eq!(cursor.sample(1), (2, 8));
    assert_eq!(cursor.sample(2), (4, 16));
}

#[test]
fn row_seek_with_coarse_samples() {
    let mut cursor = make_cursor();
    cursor.set_granularity(2);
    assert_eq!(cursor.seek(SeekFrom::End(0)).unwrap(), 19);

    assert_eq!(cursor.set_row_position(3).unwrap(), 3);
    assert_eq!(cursor.position(), 12);
    assert_eq!(cursor.set_row_position(5).unwrap(), 5);
    assert_eq!(cursor.position(), 20);
    assert_eq!(cursor.set_row_position(1).unwrap(), 1);
    assert_eq!(cursor.position(), 4);
}

#[test]
fn set_position_clamps_to_length() {
    for p in 0..30u64 {
        let mut cursor = make_cursor();
        let expected = if p < 20 { p } else { 20 };
        assert_eq!(cursor.set_position(p).unwrap(), expected);
        assert_eq!(cursor.position(), expected);
    }
}

#[test]
fn samples_are_never_lost() {
    let mut cursor = make_cursor();
    assert_eq!(cursor.seek(SeekFrom::End(0)).unwrap(), 19);
    let before: Vec<(u64, u64)> = (0..cursor.sample_count()).map(|i| cursor.sample(i)).collect();
    cursor.set_position(3).unwrap();
    cursor.set_row_position(1).unwrap();
    cursor.seek_row(SeekFrom::End(0)).unwrap();
    let after: Vec<(u64, u64)> = (0..cursor.sample_count()).map(|i| cursor.sample(i)).collect();
    for e in before {
        assert!(after.contains(&e));
    }
    assert_eq!(after.len(), 6);
}

#[test]
fn invalid_seek_is_its_own_error() {
    let mut cursor = make_cursor();
    assert!(matches!(cursor.seek(SeekFrom::Current(-1)), Err(CursorError::InvalidSeek)));
    assert!(matches!(cursor.seek_row(SeekFrom::End(-6)), Err(CursorError::InvalidSeek)));
    assert_eq!(cursor.position(), 20);
}

#[test]
fn seek_row_from_end_to_last_row() {
    let mut cursor = make_cursor();
    assert_eq!(cursor.seek_row(SeekFrom::End(0)).unwrap(), 4);
    assert_eq!(cursor.position(), 16);
}

#[test]
fn unterminated_last_row() {
    let data = MemorySource::new(b"a\nbc".to_vec());
    let mut cursor = CachedRowCursor::new(data, b'\n', 1);
    assert_eq!(cursor.seek_row(SeekFrom::Start(9)).unwrap(), 2);
    assert_eq!(cursor.position(), 4);
    assert_eq!(cursor.total_rows(), Some(2));
    assert_eq!(cursor.set_position(3).unwrap(), 3);
    assert_eq!(cursor.row_position(), 1);
}

#[test]
fn empty_stream() {
    let mut cursor = CachedRowCursor::new(MemorySource::new(vec![]), b'\n', 1);
    let mut buf = vec![];
    assert_eq!(cursor.read_row(&mut buf).unwrap(), 0);
    assert_eq!(cursor.total_length(), Some(0));
    assert_eq!(cursor.total_rows(), Some(0));
    assert!(cursor.seek(SeekFrom::End(0)).is_err());
    assert_eq!(cursor.seek(SeekFrom::Start(5)).unwrap(), 0);
}

#[test]
fn plain_read_counts_separators() {
    let mut cursor = make_cursor();
    let mut buf = [0u8; 6];
    assert_eq!(cursor.read(&mut buf).unwrap(), 6);
    assert_eq!(&buf, b"foo\nba");
    assert_eq!(cursor.position(), 6);
    assert_eq!(cursor.row_position(), 1);
}

#[test]
fn consume_moves_bytes_only() {
    let mut cursor = make_cursor();
    cursor.consume(5);
    assert_eq!(cursor.position(), 5);
    assert_eq!(cursor.row_position(), 0);
    let mut buf = vec![];
    assert_eq!(cursor.read_row(&mut buf).unwrap(), 3);
    assert_eq!(buf, b"ar\n");
}

#[test]
fn read_until_other_byte() {
    let mut cursor = make_cursor();
    let mut buf = vec![];
    assert_eq!(cursor.read_until(b'z', &mut buf).unwrap(), 11);
    assert_eq!(buf, b"foo\nbar\nbiz");
    assert_eq!(cursor.position(), 11);
    assert_eq!(cursor.row_position(), 2);
}

#[test]
fn read_until_separator_is_a_row() {
    let mut cursor = make_cursor();
    let mut buf = vec![];
    assert_eq!(cursor.read_until(b'\n', &mut buf).unwrap(), 4);
    assert_eq!(cursor.position(), 4);
    assert_eq!(cursor.row_position(), 1);
    assert_eq!(cursor.sample_count(), 2);
}

#[test]
fn fill_buf_peeks_without_moving() {
    let mut cursor = make_cursor();
    cursor.set_position(16).unwrap();
    assert_eq!(cursor.fill_buf().unwrap(), b"buz\n");
    assert_eq!(cursor.position(), 16);
    assert_eq!(cursor.row_position(), 4);
    cursor.set_position(20).unwrap();
    assert!(cursor.fill_buf().unwrap().is_empty());
}

#[test]
fn repeated_set_position_adds_no_sample() {
    let mut cursor = make_cursor();
    cursor.set_granularity(2);
    assert_eq!(cursor.set_position(14).unwrap(), 14);
    let first: Vec<(u64, u64)> = (0..cursor.sample_count()).map(|i| cursor.sample(i)).collect();
    assert_eq!(first, vec![(0, 0), (2, 8), (4, 16)]);
    assert_eq!(cursor.set_position(14).unwrap(), 14);
    let second: Vec<(u64, u64)> = (0..cursor.sample_count()).map(|i| cursor.sample(i)).collect();
    assert_eq!(first, second);
    assert_eq!(cursor.row_position(), 3);
}

#[test]
fn set_position_past_end_fixes_totals() {
    let mut cursor = make_cursor();
    assert_eq!(cursor.total_length(), None);
    assert_eq!(cursor.set_position(25).unwrap(), 20);
    assert_eq!(cursor.total_length(), Some(20));
    assert_eq!(cursor.total_rows(), Some(5));
}

#[test]
fn set_row_position_past_end_fixes_totals() {
    let mut cursor = make_cursor();
    assert_eq!(cursor.set_row_position(9).unwrap(), 5);
    assert_eq!(cursor.total_length(), Some(20));
    assert_eq!(cursor.total_rows(), Some(5));
}

#[test]
fn failed_end_seek_with_known_length_moves_nothing() {
    let mut cursor = make_cursor();
    assert_eq!(cursor.seek(SeekFrom::End(-7)).unwrap(), 12);
    assert!(matches!(cursor.seek(SeekFrom::End(-25)), Err(CursorError::InvalidSeek)));
    assert_eq!(cursor.position(), 12);
    assert_eq!(cursor.row_position(), 3);
    assert!(matches!(cursor.seek_row(SeekFrom::End(-9)), Err(CursorError::InvalidSeek)));
    assert_eq!(cursor.position(), 12);
}

#[test]
fn row_seek_lands_on_row_start() {
    let mut cursor = make_cursor();
    for k in 0..=5u64 {
        assert_eq!(cursor.set_row_position(k).unwrap(), k);
        let b = cursor.position();
        assert_eq!(cursor.set_position(b).unwrap(), b);
        assert_eq!(cursor.row_position(), k);
    }
}
