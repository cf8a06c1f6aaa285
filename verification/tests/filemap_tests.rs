use torrent_core::filemap::Storage;

#[test]
fn read_of_write_returns_written_bytes() {
    // spans within the total length read back exactly what was written
    let mut s = Storage::new_zeroed(&vec![10usize, 30usize]);
    let x: Vec<u8> = (1..=15).collect();
    s.write_span(5, &x); // straddles the file boundary at byte 10
    assert_eq!(s.read_span(5, 15), x);
    // bytes outside the span did not move
    assert_eq!(s.read_span(0, 5), vec![0; 5]);
    assert_eq!(s.read_span(20, 20), vec![0; 20]);
    // per-file layout: the first file took the head of the span
    assert_eq!(&s.files[0][5..], &x[..5]);
    assert_eq!(&s.files[1][..10], &x[5..]);
}

#[test]
fn overlapping_writes_last_wins() {
    let mut s = Storage::new_zeroed(&vec![8usize]);
    s.write_span(0, &vec![1; 8]);
    s.write_span(2, &vec![9; 3]);
    assert_eq!(s.read_span(0, 8), vec![1, 1, 9, 9, 9, 1, 1, 1]);
}

#[test]
fn byte_addressing_across_files() {
    let mut s = Storage::new_zeroed(&vec![3usize, 2, 4]);
    for pos in 0..9usize {
        s.set_byte(pos, pos as u8 + 10);
    }
    for pos in 0..9usize {
        assert_eq!(s.get_byte(pos), pos as u8 + 10);
    }
    assert_eq!(s.files[0], vec![10, 11, 12]);
    assert_eq!(s.files[1], vec![13, 14]);
    assert_eq!(s.files[2], vec![15, 16, 17, 18]);
}
