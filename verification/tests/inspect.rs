use heap_cell::{inspect_heap, push_raw_str, Heap, HeapCellValue};

fn picture(words: &[u64]) -> String {
    let cells: Vec<String> = words
        .iter()
        .map(|w| format!("{:#018X}", w.swap_bytes()))
        .collect();
    let inner = format!("[{}]", cells.join(", "));
    format!("{:?}", inner)
}

#[test]
fn inspect_empty_heap() {
    let heap: Heap = Vec::new();
    assert_eq!(inspect_heap(&heap), "\"[]\"");
}

#[test]
fn inspect_shows_bytes_in_memory_order() {
    let heap: Heap = vec![HeapCellValue::from(0xa9ab_cdef_0123_4567)];
    assert_eq!(inspect_heap(&heap), "\"[0x67452301EFCDABA9]\"");
}

#[test]
fn inspect_stored_strings() {
    let mut heap: Heap = Vec::new();
    push_raw_str(&mut heap, "1234");
    assert_eq!(inspect_heap(&heap), "\"[0x3132333400000000]\"");
    push_raw_str(&mut heap, "12345678");
    assert_eq!(
        inspect_heap(&heap),
        "\"[0x3132333400000000, 0x3132333435363738, 0x0000000000000000]\""
    );
}

#[test]
fn inspect_agrees_with_std_formatting() {
    let words = [
        0u64,
        1,
        u64::MAX,
        0x0123_4567_89ab_cdef,
        0xfedc_ba98_7654_3210,
        0x0a0b_0c0d_0e0f_9099,
    ];
    for n in 0..=words.len() {
        let heap: Heap = words[..n].iter().map(|w| HeapCellValue::from(*w)).collect();
        assert_eq!(inspect_heap(&heap), picture(&words[..n]));
    }
}
