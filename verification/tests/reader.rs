use lzss::history_reader::HistoryReader;
use lzss::CodecError;

fn numbers(count: u8) -> Vec<u8> {
    (0..count).collect()
}

fn pair(views: (&[u8], &[u8])) -> (Vec<u8>, Vec<u8>) {
    (views.0.to_vec(), views.1.to_vec())
}

#[test]
fn reader_starts_with_one_window_of_history() {
    let reader = HistoryReader::new(numbers(20), 6, 3).ok().unwrap();
    assert_eq!(pair(reader.current()), (vec![0, 1, 2], vec![3, 4, 5]));
}

#[test]
fn reader_needs_two_windows() {
    assert_eq!(HistoryReader::new(numbers(5), 6, 3).err(), Some(CodecError::TruncatedInput));
    assert!(HistoryReader::new(numbers(6), 6, 3).is_ok());
    assert_eq!(HistoryReader::new(Vec::new(), 6, 3).err(), Some(CodecError::TruncatedInput));
}

#[test]
fn reader_refuses_window_larger_than_history() {
    assert_eq!(HistoryReader::new(numbers(20), 2, 3).err(), Some(CodecError::Configuration));
}

#[test]
fn reader_slides_and_evicts_oldest_history() {
    let mut reader = HistoryReader::new(numbers(20), 6, 3).ok().unwrap();
    assert_eq!(pair(reader.next(2)), (vec![0, 1, 2, 3, 4], vec![5, 6, 7]));
    assert_eq!(pair(reader.next(3)), (vec![2, 3, 4, 5, 6, 7], vec![8, 9, 10]));
    assert_eq!(pair(reader.next(1)), (vec![3, 4, 5, 6, 7, 8], vec![9, 10, 11]));
    assert_eq!(pair(reader.next(0)), (vec![3, 4, 5, 6, 7, 8], vec![9, 10, 11]));
    assert_eq!(pair(reader.current()), (vec![3, 4, 5, 6, 7, 8], vec![9, 10, 11]));
}

#[test]
fn reader_window_drains_at_end_of_source() {
    let mut reader = HistoryReader::new(numbers(8), 6, 3).ok().unwrap();
    assert_eq!(pair(reader.next(1)), (vec![0, 1, 2, 3], vec![4, 5, 6]));
    assert_eq!(pair(reader.next(3)), (vec![1, 2, 3, 4, 5, 6], vec![7]));
    assert_eq!(pair(reader.next(1)), (vec![2, 3, 4, 5, 6, 7], vec![]));
    assert_eq!(pair(reader.next(0)), (vec![2, 3, 4, 5, 6, 7], vec![]));
}

#[test]
fn reader_history_keeps_growing_while_window_shrinks() {
    let mut reader = HistoryReader::new(numbers(6), 16, 3).ok().unwrap();
    assert_eq!(pair(reader.next(2)), (vec![0, 1, 2, 3, 4], vec![5]));
    assert_eq!(pair(reader.next(1)), (vec![0, 1, 2, 3, 4, 5], vec![]));
}

#[test]
fn reader_views_cover_the_buffer_and_history_stays_bounded() {
    let source = numbers(200);
    let mut reader = HistoryReader::new(source.clone(), 16, 5).ok().unwrap();
    let mut consumed = 5;
    let mut oldest = 0;
    let mut step = 1;
    loop {
        let window_len = reader.current().1.len();
        if window_len == 0 {
            break;
        }
        let move_bytes = if step <= window_len { step } else { window_len };
        let (history, window) = pair(reader.next(move_bytes));
        consumed += move_bytes;
        assert!(history.len() <= 16);
        assert_eq!(history, source[consumed - history.len()..consumed].to_vec());
        assert_eq!(window, source[consumed..consumed + window.len()].to_vec());
        assert!(consumed - history.len() >= oldest);
        oldest = consumed - history.len();
        step = step % 5 + 1;
    }
    assert_eq!(consumed, 200);
}

#[test]
fn reader_with_empty_window() {
    let mut reader = HistoryReader::new(numbers(4), 8, 0).ok().unwrap();
    assert_eq!(pair(reader.current()), (vec![], vec![]));
    assert_eq!(pair(reader.next(0)), (vec![], vec![]));
}
