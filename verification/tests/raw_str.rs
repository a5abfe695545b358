use heap_cell::{
    push_raw_bytes, push_raw_str, read_raw_bytes, read_raw_str, Heap, HeapCellValue, RawStrError,
};

fn flat_bytes(heap: &Heap) -> Vec<u8> {
    let mut out = Vec::new();
    for cell in heap.iter() {
        out.extend_from_slice(&cell.into_bytes());
    }
    out
}

fn sample(len: usize) -> Vec<u8> {
    (0..len).map(|i| b'a' + (i % 26) as u8).collect()
}

#[test]
fn test_push_raw_str() {
    let mut heap: Heap = Vec::new();

    push_raw_str(&mut heap, "");
    assert_eq!(heap.len(), 1);

    push_raw_str(&mut heap, "1234");
    assert_eq!(heap.len(), 2);

    // This should take 2 cells
    push_raw_str(&mut heap, "12345678");
    assert_eq!(heap.len(), 4);

    // This should also take 2 cells
    push_raw_str(&mut heap, "123456789");
    assert_eq!(heap.len(), 6);
}

#[test]
fn test_read_str_raw() {
    let mut heap: Heap = Vec::new();

    push_raw_str(&mut heap, "");
    assert_eq!(heap.len(), 1);
    assert_eq!(read_raw_str(&heap, 0).unwrap(), "");

    push_raw_str(&mut heap, "1234");
    assert_eq!(heap.len(), 2);
    assert_eq!(read_raw_str(&heap, 1).unwrap(), "1234");

    // This should take 2 cells
    push_raw_str(&mut heap, "12345678");
    assert_eq!(heap.len(), 4);
    assert_eq!(read_raw_str(&heap, 2).unwrap(), "12345678");

    // This should also take 2 cells
    push_raw_str(&mut heap, "123456789");
    assert_eq!(heap.len(), 6);
    assert_eq!(read_raw_str(&heap, 4).unwrap(), "123456789");
}

#[test]
fn round_trip_at_cell_boundaries() {
    for len in [0usize, 1, 7, 8, 9, 15, 16, 17] {
        let s = sample(len);
        let text = String::from_utf8(s.clone()).unwrap();

        let mut heap: Heap = vec![HeapCellValue::from(u64::MAX)];
        let start = heap.len();
        push_raw_bytes(&mut heap, &s);
        assert_eq!(read_raw_bytes(&heap, start), Ok(s.clone()));
        assert_eq!(read_raw_str(&heap, start), Ok(text.clone()));

        let mut heap: Heap = Vec::new();
        push_raw_str(&mut heap, &text);
        assert_eq!(read_raw_str(&heap, 0), Ok(text));
    }
}

#[test]
fn cell_count_is_len_div_8_plus_1() {
    for len in 0usize..40 {
        let mut heap: Heap = Vec::new();
        push_raw_bytes(&mut heap, &sample(len));
        assert_eq!(heap.len(), len / 8 + 1);
    }
}

#[test]
fn empty_string_is_one_zero_cell() {
    let mut heap: Heap = Vec::new();
    push_raw_str(&mut heap, "");
    assert_eq!(heap.len(), 1);
    assert_eq!(u64::from(heap[0]), 0);
}

#[test]
fn bytes_lie_least_significant_first() {
    let mut heap: Heap = Vec::new();
    push_raw_str(&mut heap, "1234");
    assert_eq!(heap.len(), 1);
    assert_eq!(u64::from(heap[0]), 0x0000_0000_3433_3231);

    push_raw_str(&mut heap, "12345678");
    assert_eq!(heap.len(), 3);
    assert_eq!(u64::from(heap[1]), 0x3837_3635_3433_3231);
    assert_eq!(u64::from(heap[2]), 0);

    push_raw_str(&mut heap, "123456789");
    assert_eq!(heap.len(), 5);
    assert_eq!(u64::from(heap[3]), 0x3837_3635_3433_3231);
    assert_eq!(u64::from(heap[4]), 0x39);
}

#[test]
fn region_is_string_then_zeros() {
    for len in [0usize, 1, 7, 8, 9, 15, 16, 17, 31, 32] {
        let s = sample(len);
        let mut heap: Heap = vec![HeapCellValue::from(0x1122_3344_5566_7788)];
        push_raw_bytes(&mut heap, &s);
        let flat = flat_bytes(&heap);
        assert_eq!(flat.len(), 8 * (1 + len / 8 + 1));
        assert_eq!(&flat[8..8 + len], &s[..]);
        assert_eq!(flat[8 + len], 0);
        assert!(flat[8 + len..].iter().all(|b| *b == 0));
    }
}

#[test]
fn earlier_cells_are_untouched() {
    let mut heap: Heap = vec![HeapCellValue::from(7), HeapCellValue::from(u64::MAX)];
    push_raw_str(&mut heap, "abc");
    assert_eq!(heap.len(), 3);
    assert_eq!(u64::from(heap[0]), 7);
    assert_eq!(u64::from(heap[1]), u64::MAX);
}

#[test]
fn earlier_string_survives_a_later_one() {
    let mut heap: Heap = Vec::new();
    let first = heap.len();
    push_raw_str(&mut heap, "first string");
    assert_eq!(read_raw_str(&heap, first), Ok("first string".to_string()));
    let second = heap.len();
    push_raw_str(&mut heap, "second");
    assert_eq!(second, 2);
    assert_eq!(read_raw_str(&heap, first), Ok("first string".to_string()));
    assert_eq!(read_raw_str(&heap, second), Ok("second".to_string()));
}

#[test]
fn read_inside_a_string_gives_its_tail() {
    let mut heap: Heap = Vec::new();
    push_raw_str(&mut heap, "123456789");
    assert_eq!(read_raw_str(&heap, 1), Ok("9".to_string()));
}

#[test]
fn read_stops_at_the_first_zero_byte() {
    let mut heap: Heap = Vec::new();
    push_raw_str(&mut heap, "ab\0cd");
    assert_eq!(heap.len(), 1);
    assert_eq!(read_raw_str(&heap, 0), Ok("ab".to_string()));
    assert_eq!(read_raw_bytes(&heap, 0), Ok(vec![b'a', b'b']));
}

#[test]
fn read_past_the_end_is_out_of_bounds() {
    let mut heap: Heap = Vec::new();
    assert_eq!(read_raw_str(&heap, 0), Err(RawStrError::IndexOutOfBounds));
    assert_eq!(read_raw_bytes(&heap, 0), Err(RawStrError::IndexOutOfBounds));
    push_raw_str(&mut heap, "abc");
    assert_eq!(read_raw_str(&heap, 1), Err(RawStrError::IndexOutOfBounds));
    assert_eq!(read_raw_str(&heap, usize::MAX), Err(RawStrError::IndexOutOfBounds));
}

#[test]
fn read_without_a_zero_byte_finds_no_terminator() {
    let heap: Heap = vec![
        HeapCellValue::from(0x0101_0101_0101_0101),
        HeapCellValue::from(u64::MAX),
    ];
    assert_eq!(read_raw_str(&heap, 0), Err(RawStrError::TerminatorNotFound));
    assert_eq!(read_raw_bytes(&heap, 1), Err(RawStrError::TerminatorNotFound));
}

#[test]
fn read_runs_over_cells_that_were_not_written_as_text() {
    let heap: Heap = vec![
        HeapCellValue::from(0x4847_4645_4443_4241),
        HeapCellValue::from(0x0000_0000_0000_4a49),
    ];
    assert_eq!(read_raw_str(&heap, 0), Ok("ABCDEFGHIJ".to_string()));
}

#[test]
fn read_of_bytes_that_are_no_text_is_invalid() {
    let mut heap: Heap = Vec::new();
    push_raw_bytes(&mut heap, &[0xff, 0xfe]);
    assert_eq!(read_raw_bytes(&heap, 0), Ok(vec![0xff, 0xfe]));
    assert_eq!(read_raw_str(&heap, 0), Err(RawStrError::InvalidText));

    let mut heap: Heap = Vec::new();
    push_raw_bytes(&mut heap, &[0xe2, 0x9c]);
    assert_eq!(read_raw_str(&heap, 0), Err(RawStrError::InvalidText));
}

#[test]
fn text_beyond_ascii_round_trips() {
    let text = "h\u{e9}llo w\u{f6}rld \u{2713} \u{1f600}";
    let mut heap: Heap = Vec::new();
    push_raw_str(&mut heap, text);
    assert_eq!(heap.len(), text.len() / 8 + 1);
    assert_eq!(read_raw_str(&heap, 0), Ok(text.to_string()));
    assert_eq!(read_raw_bytes(&heap, 0), Ok(text.as_bytes().to_vec()));
}

#[test]
fn four_strings_end_to_end() {
    let mut heap: Heap = Vec::new();
    let inputs = ["", "1234", "12345678", "123456789"];
    let lengths = [1usize, 2, 4, 6];
    let starts = [0usize, 1, 2, 4];
    for i in 0..4 {
        assert_eq!(heap.len(), starts[i]);
        push_raw_str(&mut heap, inputs[i]);
        assert_eq!(heap.len(), lengths[i]);
    }
    for i in 0..4 {
        assert_eq!(read_raw_str(&heap, starts[i]), Ok(inputs[i].to_string()));
    }
}
