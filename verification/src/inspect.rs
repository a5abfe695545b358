//! A printable picture of a heap, for debugging.
//!
//! Each cell is shown as `0x` and sixteen upper-case hexadecimal digits: its
//! eight bytes in memory order, two digits a byte. The cells are separated
//! by a comma and a space and stand in square brackets, and the whole is
//! quoted.

use crate::cell::{le_bytes, HeapCellValue};
use crate::raw_str::Heap;
use vstd::prelude::*;

verus! {

/// The upper-case hexadecimal digit for `n`, which is below 16.
pub open spec fn hex_digit(n: u8) -> char
    recommends
        n < 16,
{
    if n < 10 {
        ((48 + n) as u8) as char
    } else {
        ((55 + n) as u8) as char
    }
}

/// The two digits of one byte, high half first.
pub open spec fn hex_byte(b: u8) -> Seq<char> {
    seq![hex_digit(b >> 4), hex_digit(b & 0xf)]
}

/// The digits of a run of bytes, in their order.
pub open spec fn hex_bytes(bytes: Seq<u8>) -> Seq<char>
    decreases bytes.len(),
{
    if bytes.len() == 0 {
        Seq::empty()
    } else {
        hex_bytes(bytes.drop_last()) + hex_byte(bytes.last())
    }
}

/// The picture of one cell with the word `w`.
pub open spec fn cell_text(w: u64) -> Seq<char> {
    seq!['0', 'x'] + hex_bytes(le_bytes(w))
}

/// The pictures of the cells of `heap`, separated by a comma and a space.
pub open spec fn cells_text(heap: Seq<HeapCellValue>) -> Seq<char>
    decreases heap.len(),
{
    if heap.len() == 0 {
        Seq::empty()
    } else if heap.len() == 1 {
        cell_text(heap[0]@)
    } else {
        cells_text(heap.drop_last()) + seq![',', ' '] + cell_text(heap.last()@)
    }
}

/// The picture of `heap`.
pub open spec fn heap_text(heap: Seq<HeapCellValue>) -> Seq<char> {
    seq!['"', '['] + cells_text(heap) + seq![']', '"']
}

/// `String::push` of std appends one character.
pub assume_specification[ String::push ](s: &mut String, ch: char)
    ensures
        final(s)@ == old(s)@.push(ch),
;

fn hex_digit_char(n: u8) -> (c: char)
    requires
        n < 16,
    ensures
        c == hex_digit(n),
{
    if n < 10 {
        (48 + n) as char
    } else {
        (55 + n) as char
    }
}

fn push_cell_text(text: &mut String, cell: HeapCellValue)
    ensures
        final(text)@ == old(text)@ + cell_text(cell@),
{
    let ghost start = text@;
    text.push('0');
    text.push('x');
    let bytes: [u8; 8] = cell.into_bytes();
    let mut k: usize = 0;
    proof {
        assert(text@ =~= start + seq!['0', 'x'] + hex_bytes(bytes@.subrange(0, 0)));
    }
    while k < 8
        invariant
            k <= 8,
            bytes@ == le_bytes(cell@),
            text@ == start + seq!['0', 'x'] + hex_bytes(bytes@.subrange(0, k as int)),
        decreases 8 - k,
    {
        let b: u8 = bytes[k];
        assert(b >> 4 < 16 && b & 0xf < 16) by (bit_vector);
        let ghost shown = text@;
        text.push(hex_digit_char(b >> 4));
        text.push(hex_digit_char(b & 0xf));
        k += 1;
        proof {
            let upto = bytes@.subrange(0, k as int);
            assert(upto.drop_last() =~= bytes@.subrange(0, k - 1));
            assert(upto.last() == b);
            assert(text@ =~= shown + hex_byte(b));
            assert(text@ =~= start + seq!['0', 'x'] + hex_bytes(upto));
        }
    }
    proof {
        assert(bytes@.subrange(0, 8) =~= bytes@);
        assert(text@ =~= start + cell_text(cell@));
    }
}

/// Draws the whole heap as text: every cell as the hexadecimal digits of its
/// bytes in memory order.
pub fn inspect_heap(heap: &Heap) -> (text: String)
    ensures
        text@ == heap_text(heap@),
{
    let mut text = String::new();
    text.push('"');
    text.push('[');
    let mut i: usize = 0;
    proof {
        assert(text@ =~= seq!['"', '['] + cells_text(heap@.subrange(0, 0)));
    }
    while i < heap.len()
        invariant
            i <= heap.len(),
            text@ == seq!['"', '['] + cells_text(heap@.subrange(0, i as int)),
        decreases heap.len() - i,
    {
        let ghost shown = text@;
        if i > 0 {
            text.push(',');
            text.push(' ');
        }
        push_cell_text(&mut text, heap[i]);
        i += 1;
        proof {
            let upto = heap@.subrange(0, i as int);
            assert(upto.drop_last() =~= heap@.subrange(0, i - 1));
            assert(upto.last() == heap@[i - 1]);
            if i == 1 {
                assert(upto[0] == heap@[0]);
                assert(text@ =~= shown + cell_text(heap@[0]@));
            } else {
                assert(text@ =~= shown + seq![',', ' '] + cell_text(heap@[i - 1]@));
            }
            assert(text@ =~= seq!['"', '['] + cells_text(upto));
        }
    }
    proof {
        assert(heap@.subrange(0, i as int) =~= heap@);
    }
    text.push(']');
    text.push('"');
    proof {
        assert(text@ =~= heap_text(heap@));
    }
    text
}

} // verus!
