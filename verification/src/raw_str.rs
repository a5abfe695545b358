//! Inline strings: text stored in the heap itself.
//!
//! The heap is read as one flat run of bytes, eight per cell, each cell least
//! significant byte first. A stored string starts at the first byte of a
//! cell and ends before the first zero byte that follows.

use crate::cell::{le_bytes, lemma_le_word_bytes, HeapCellValue};
use vstd::prelude::*;
use vstd::string::*;
use vstd::utf8::*;

verus! {

/// The heap: cells addressed by index, grown by appending.
pub type Heap = Vec<HeapCellValue>;

/// Why no string could be read at an index.
#[derive(Debug, Clone, Copy, PartialEq, Eq, Structural)]
pub enum RawStrError {
    /// The index names no cell of the heap.
    IndexOutOfBounds,
    /// No zero byte follows the start of the indexed cell.
    TerminatorNotFound,
    /// The bytes before the terminator are not UTF-8.
    InvalidText,
}

/// The bytes of a heap, in memory order.
pub open spec fn heap_bytes(heap: Seq<HeapCellValue>) -> Seq<u8> {
    Seq::new(8 * heap.len(), |k: int| le_bytes(heap[k / 8]@)[k % 8])
}

/// The number of cells that a string of `len` bytes takes: room for the
/// bytes and for at least one zero byte after them.
pub open spec fn cells_needed(len: nat) -> nat {
    len / 8 + 1
}

/// The bytes that a stored string occupies: the string, then zeros up to the
/// end of its last cell.
pub open spec fn padded(s: Seq<u8>) -> Seq<u8> {
    Seq::new(
        8 * cells_needed(s.len()),
        |i: int|
            if i < s.len() {
                s[i]
            } else {
                0u8
            },
    )
}

/// `after` is `before` with the string `s` stored behind its last cell.
pub open spec fn appended(
    before: Seq<HeapCellValue>,
    s: Seq<u8>,
    after: Seq<HeapCellValue>,
) -> bool {
    &&& after.len() == before.len() + cells_needed(s.len())
    &&& after.subrange(0, before.len() as int) == before
    &&& heap_bytes(after) == heap_bytes(before) + padded(s)
}

/// `end` is the place of the first zero byte at or after `start`.
pub open spec fn is_terminator(bytes: Seq<u8>, start: int, end: int) -> bool {
    &&& 0 <= start <= end < bytes.len()
    &&& bytes[end] == 0
    &&& forall|j: int| start <= j < end ==> bytes[j] != 0
}

/// Whether a zero byte lies at or after `start`.
pub open spec fn has_terminator(bytes: Seq<u8>, start: int) -> bool {
    exists|end: int| is_terminator(bytes, start, end)
}

/// The place of the first zero byte at or after `start`, where there is one.
pub open spec fn terminator(bytes: Seq<u8>, start: int) -> int {
    choose|end: int| is_terminator(bytes, start, end)
}

/// The bytes stored at cell `index`: those from the start of that cell up to
/// the first zero byte.
pub open spec fn stored_bytes(heap: Seq<HeapCellValue>, index: int) -> Result<
    Seq<u8>,
    RawStrError,
> {
    let bytes = heap_bytes(heap);
    if !(0 <= index < heap.len()) {
        Err(RawStrError::IndexOutOfBounds)
    } else if !has_terminator(bytes, 8 * index) {
        Err(RawStrError::TerminatorNotFound)
    } else {
        Ok(bytes.subrange(8 * index, terminator(bytes, 8 * index)))
    }
}

/// The text stored at cell `index`: the stored bytes, decoded as UTF-8.
pub open spec fn stored_str(heap: Seq<HeapCellValue>, index: int) -> Result<
    Seq<char>,
    RawStrError,
> {
    match stored_bytes(heap, index) {
        Ok(bytes) => if valid_utf8(bytes) {
            Ok(decode_utf8(bytes))
        } else {
            Err(RawStrError::InvalidText)
        },
        Err(e) => Err(e),
    }
}

/// Whether no byte of `s` is zero.
pub open spec fn zero_free(s: Seq<u8>) -> bool {
    forall|i: int| 0 <= i < s.len() ==> s[i] != 0
}

/// Whether no character of `text` is the NUL character.
pub open spec fn nul_free(text: Seq<char>) -> bool {
    forall|i: int| 0 <= i < text.len() ==> text[i] as u32 != 0
}

/// At most one place is the terminator for a given start.
pub proof fn lemma_terminator_unique(bytes: Seq<u8>, start: int, e1: int, e2: int)
    requires
        is_terminator(bytes, start, e1),
        is_terminator(bytes, start, e2),
    ensures
        e1 == e2,
{
    if e1 < e2 {
        assert(bytes[e1] != 0);
    }
    if e2 < e1 {
        assert(bytes[e2] != 0);
    }
}

/// Where `end` is the terminator for the start of cell `index`, the stored
/// bytes are those between the two.
pub proof fn lemma_stored_bytes_at(heap: Seq<HeapCellValue>, index: int, end: int)
    requires
        0 <= index < heap.len(),
        is_terminator(heap_bytes(heap), 8 * index, end),
    ensures
        stored_bytes(heap, index) == Ok::<Seq<u8>, RawStrError>(
            heap_bytes(heap).subrange(8 * index, end),
        ),
{
    let bytes = heap_bytes(heap);
    assert(has_terminator(bytes, 8 * index));
    lemma_terminator_unique(bytes, 8 * index, end, terminator(bytes, 8 * index));
}

/// Appending a cell appends its eight bytes.
pub proof fn lemma_heap_bytes_push(heap: Seq<HeapCellValue>, cell: HeapCellValue)
    ensures
        heap_bytes(heap.push(cell)) == heap_bytes(heap) + le_bytes(cell@),
{
    let grown = heap.push(cell);
    let left = heap_bytes(grown);
    let right = heap_bytes(heap) + le_bytes(cell@);
    assert(le_bytes(cell@).len() == 8);
    assert(left.len() == right.len());
    assert forall|k: int| 0 <= k < left.len() implies left[k] == right[k] by {
        if k < 8 * heap.len() {
            assert(k / 8 < heap.len());
            assert(grown[k / 8] == heap[k / 8]);
        } else {
            assert(k / 8 == heap.len());
            assert(k % 8 == k - 8 * heap.len());
        }
    }
    assert(left =~= right);
}

fn byte_or_zero(bytes: &[u8], base: usize, k: usize) -> (b: u8)
    requires
        base <= bytes@.len(),
        k < 8,
    ensures
        b == if base + k < bytes@.len() {
            bytes@[base + k]
        } else {
            0u8
        },
{
    if k < bytes.len() - base {
        bytes[base + k]
    } else {
        0
    }
}

/// Stores the bytes `bytes` behind the last cell of `heap`, in
/// `bytes.len() / 8 + 1` new cells: the bytes, then zeros up to the end of
/// the last new cell. The string starts at the index that was the heap's
/// length before the call.
pub fn push_raw_bytes(heap: &mut Heap, bytes: &[u8])
    ensures
        appended(old(heap)@, bytes@, final(heap)@),
        final(heap)@.len() == old(heap)@.len() + bytes@.len() / 8 + 1,
        heap_bytes(final(heap)@)[(8 * old(heap)@.len() + bytes@.len()) as int] == 0,
        zero_free(bytes@) ==> stored_bytes(final(heap)@, old(heap)@.len() as int) == Ok::<
            Seq<u8>,
            RawStrError,
        >(bytes@),
        forall|i: int| #[trigger]
            stored_bytes(old(heap)@, i) is Ok ==> stored_bytes(final(heap)@, i) == stored_bytes(
                old(heap)@,
                i,
            ),
{
    let len: usize = bytes.len();
    let num_cells: usize = len / 8 + 1;
    let ghost before = heap@;
    let ghost image = padded(bytes@);
    let mut c: usize = 0;
    proof {
        assert(heap_bytes(heap@) =~= heap_bytes(before) + image.subrange(0, 0));
        assert(heap@.subrange(0, before.len() as int) =~= before);
    }
    while c < num_cells
        invariant
            len == bytes@.len(),
            num_cells == len / 8 + 1,
            c <= num_cells,
            image == padded(bytes@),
            heap@.len() == before.len() + c,
            heap@.subrange(0, before.len() as int) == before,
            heap_bytes(heap@) == heap_bytes(before) + image.subrange(0, 8 * c),
        decreases num_cells - c,
    {
        let base: usize = c * 8;
        let chunk: [u8; 8] = [
            byte_or_zero(bytes, base, 0),
            byte_or_zero(bytes, base, 1),
            byte_or_zero(bytes, base, 2),
            byte_or_zero(bytes, base, 3),
            byte_or_zero(bytes, base, 4),
            byte_or_zero(bytes, base, 5),
            byte_or_zero(bytes, base, 6),
            byte_or_zero(bytes, base, 7),
        ];
        let cell = HeapCellValue::from_bytes(chunk);
        proof {
            lemma_le_word_bytes(chunk@);
            lemma_heap_bytes_push(heap@, cell);
            assert(le_bytes(cell@) =~= image.subrange(8 * c, 8 * c + 8));
            assert(image.subrange(0, 8 * c) + image.subrange(8 * c, 8 * c + 8) =~= image.subrange(
                0,
                8 * (c + 1),
            ));
        }
        heap.push(cell);
        c += 1;
        proof {
            assert(heap@.subrange(0, before.len() as int) =~= before);
        }
    }
    proof {
        assert(image.subrange(0, 8 * c) =~= image);
        if zero_free(bytes@) {
            lemma_read_back(before, bytes@, heap@);
        }
        assert forall|i: int| #[trigger] stored_bytes(before, i) is Ok implies stored_bytes(
            heap@,
            i,
        ) == stored_bytes(before, i) by {
            lemma_push_keeps_stored(before, bytes@, heap@, i);
        }
    }
}

/// Stores the text `string` behind the last cell of `heap`, as
/// [`push_raw_bytes`] stores its UTF-8 bytes.
pub fn push_raw_str(heap: &mut Heap, string: &str)
    ensures
        appended(old(heap)@, string.spec_bytes(), final(heap)@),
        final(heap)@.len() == old(heap)@.len() + string.spec_bytes().len() / 8 + 1,
        heap_bytes(final(heap)@)[(8 * old(heap)@.len() + string.spec_bytes().len()) as int] == 0,
        nul_free(string@) ==> stored_str(final(heap)@, old(heap)@.len() as int) == Ok::<
            Seq<char>,
            RawStrError,
        >(string@),
        forall|i: int| #[trigger]
            stored_bytes(old(heap)@, i) is Ok ==> stored_str(final(heap)@, i) == stored_str(
                old(heap)@,
                i,
            ),
{
    let ghost before = heap@;
    push_raw_bytes(heap, string.as_bytes());
    proof {
        if nul_free(string@) {
            lemma_read_back_str(before, string@, heap@);
        }
    }
}

/// Reads the bytes stored at cell `index`: those from the first byte of that
/// cell up to the first zero byte. The scan ends at the end of the heap.
pub fn read_raw_bytes(heap: &Heap, index: usize) -> (r: Result<Vec<u8>, RawStrError>)
    ensures
        match r {
            Ok(v) => stored_bytes(heap@, index as int) == Ok::<Seq<u8>, RawStrError>(v@),
            Err(e) => stored_bytes(heap@, index as int) == Err::<Seq<u8>, RawStrError>(e),
        },
{
    if index >= heap.len() {
        return Err(RawStrError::IndexOutOfBounds);
    }
    let ghost all = heap_bytes(heap@);
    let mut out: Vec<u8> = Vec::new();
    let mut c: usize = index;
    proof {
        assert(out@ =~= all.subrange(8 * index, 8 * c));
    }
    while c < heap.len()
        invariant
            index <= c <= heap.len(),
            all == heap_bytes(heap@),
            out@ == all.subrange(8 * index, 8 * c),
            forall|j: int| 8 * index <= j < 8 * c ==> all[j] != 0,
        decreases heap.len() - c,
    {
        let cell_bytes: [u8; 8] = heap[c].into_bytes();
        let mut k: usize = 0;
        while k < 8
            invariant
                index <= c < heap.len(),
                k <= 8,
                all == heap_bytes(heap@),
                cell_bytes@ == le_bytes(heap@[c as int]@),
                out@ == all.subrange(8 * index, 8 * c + k),
                forall|j: int| 8 * index <= j < 8 * c + k ==> all[j] != 0,
            decreases 8 - k,
        {
            let b: u8 = cell_bytes[k];
            proof {
                let at = 8 * c + k;
                assert(at / 8 == c && at % 8 == k);
                assert(all[at] == b);
            }
            if b == 0 {
                proof {
                    lemma_stored_bytes_at(heap@, index as int, 8 * c + k);
                }
                return Ok(out);
            }
            out.push(b);
            k += 1;
            proof {
                assert(out@ =~= all.subrange(8 * index, 8 * c + k));
            }
        }
        c += 1;
    }
    proof {
        if has_terminator(all, 8 * index) {
            let end = terminator(all, 8 * index);
            assert(all[end] != 0);
        }
    }
    Err(RawStrError::TerminatorNotFound)
}

/// The error of `String::from_utf8`, carried through unread.
#[verifier::external_type_specification]
#[verifier::external_body]
pub struct ExFromUtf8Error(std::string::FromUtf8Error);

/// `String::from_utf8` of std: it succeeds exactly on well-formed UTF-8, and
/// the string it then returns is the text that the bytes encode.
pub assume_specification[ String::from_utf8 ](vec: Vec<u8>) -> (r: Result<
    String,
    std::string::FromUtf8Error,
>)
    ensures
        r is Ok <==> valid_utf8(vec@),
        r matches Ok(s) ==> s@ == decode_utf8(vec@),
;

/// Reads the text stored at cell `index`: the bytes from the first byte of
/// that cell up to the first zero byte, as UTF-8.
pub fn read_raw_str(heap: &Heap, index: usize) -> (r: Result<String, RawStrError>)
    ensures
        match r {
            Ok(s) => stored_str(heap@, index as int) == Ok::<Seq<char>, RawStrError>(s@),
            Err(e) => stored_str(heap@, index as int) == Err::<Seq<char>, RawStrError>(e),
        },
{
    match read_raw_bytes(heap, index) {
        Ok(bytes) => match String::from_utf8(bytes) {
            Ok(s) => Ok(s),
            Err(_) => Err(RawStrError::InvalidText),
        },
        Err(e) => Err(e),
    }
}

/// After a string is stored, the byte behind its last byte is zero, and so
/// is every later byte of the cells it took.
pub proof fn lemma_terminator_after_push(
    before: Seq<HeapCellValue>,
    s: Seq<u8>,
    after: Seq<HeapCellValue>,
)
    requires
        appended(before, s, after),
    ensures
        8 * before.len() + s.len() < heap_bytes(after).len(),
        forall|j: int|
            8 * before.len() + s.len() <= j < heap_bytes(after).len() ==> heap_bytes(after)[j]
                == 0,
        forall|i: int| 0 <= i < s.len() ==> heap_bytes(after)[8 * before.len() + i] == s[i],
{
    let start = 8 * before.len();
    assert(heap_bytes(before).len() == start);
    assert forall|j: int| start <= j < heap_bytes(after).len() implies heap_bytes(after)[j]
        == padded(s)[j - start] by {}
}

/// A string without a zero byte that is stored and then read at the index
/// where it starts, the heap's length before it was stored, comes back
/// unchanged.
pub proof fn lemma_read_back(before: Seq<HeapCellValue>, s: Seq<u8>, after: Seq<HeapCellValue>)
    requires
        appended(before, s, after),
        zero_free(s),
    ensures
        stored_bytes(after, before.len() as int) == Ok::<Seq<u8>, RawStrError>(s),
{
    let start = 8 * before.len();
    let end = start + s.len();
    lemma_terminator_after_push(before, s, after);
    assert(is_terminator(heap_bytes(after), start as int, end as int));
    lemma_stored_bytes_at(after, before.len() as int, end as int);
    assert(heap_bytes(after).subrange(start as int, end as int) =~= s);
}

proof fn lemma_scalar_bytes_zero_free(c: char)
    ensures
        zero_free(encode_scalar(c as u32)) <==> c as u32 != 0,
{
    let s = c as u32;
    let bytes = encode_scalar(s);
    char_is_scalar(c);
    assert(s <= 0x7f ==> ((s & 0x7f) as u8 == 0 <==> s == 0)) by (bit_vector);
    assert(0xc0u8 | ((s >> 6) & 0x1f) as u8 != 0) by (bit_vector);
    assert(0xe0u8 | ((s >> 12) & 0x0f) as u8 != 0) by (bit_vector);
    assert(0xf0u8 | ((s >> 18) & 0x7) as u8 != 0) by (bit_vector);
    assert(0x80u8 | (s & 0x3f) as u8 != 0) by (bit_vector);
    assert(0x80u8 | ((s >> 6) & 0x3f) as u8 != 0) by (bit_vector);
    assert(0x80u8 | ((s >> 12) & 0x3f) as u8 != 0) by (bit_vector);
    if has_width_1_encoding(s) {
        assert(bytes[0] == leading_byte_width_1(s));
    }
}

/// The UTF-8 bytes of a text hold a zero byte exactly where the text holds
/// the NUL character.
pub proof fn lemma_text_bytes_zero_free(text: Seq<char>)
    ensures
        zero_free(encode_utf8(text)) <==> nul_free(text),
    decreases text.len(),
{
    if text.len() > 0 {
        let head = encode_scalar(text[0] as u32);
        let rest = text.drop_first();
        let tail = encode_utf8(rest);
        let all = encode_utf8(text);
        assert(all == head + tail);
        lemma_scalar_bytes_zero_free(text[0]);
        lemma_text_bytes_zero_free(rest);
        if zero_free(all) {
            assert forall|i: int| 0 <= i < head.len() implies head[i] != 0 by {
                assert(all[i] == head[i]);
            }
            assert forall|j: int| 0 <= j < tail.len() implies tail[j] != 0 by {
                assert(all[head.len() + j] == tail[j]);
            }
            assert forall|i: int| 0 <= i < text.len() implies text[i] as u32 != 0 by {
                if i > 0 {
                    assert(text[i] == rest[i - 1]);
                }
            }
        }
        if nul_free(text) {
            assert forall|j: int| 0 <= j < rest.len() implies rest[j] as u32 != 0 by {
                assert(rest[j] == text[j + 1]);
            }
            assert forall|i: int| 0 <= i < all.len() implies all[i] != 0 by {
                if i < head.len() {
                    assert(all[i] == head[i]);
                } else {
                    assert(all[i] == tail[i - head.len()]);
                }
            }
        }
    }
}

/// A text without the NUL character, stored and then read at the index
/// where it starts, comes back unchanged.
pub proof fn lemma_read_back_str(
    before: Seq<HeapCellValue>,
    text: Seq<char>,
    after: Seq<HeapCellValue>,
)
    requires
        appended(before, encode_utf8(text), after),
        nul_free(text),
    ensures
        stored_bytes(after, before.len() as int) == Ok::<Seq<u8>, RawStrError>(
            encode_utf8(text),
        ),
        stored_str(after, before.len() as int) == Ok::<Seq<char>, RawStrError>(text),
{
    lemma_text_bytes_zero_free(text);
    lemma_read_back(before, encode_utf8(text), after);
    encode_utf8_valid_utf8(text);
    encode_utf8_decode_utf8(text);
}

/// Storing a further string changes nothing of what can be read at an index
/// where a string could be read before.
pub proof fn lemma_push_keeps_stored(
    before: Seq<HeapCellValue>,
    s: Seq<u8>,
    after: Seq<HeapCellValue>,
    index: int,
)
    requires
        appended(before, s, after),
        stored_bytes(before, index) is Ok,
    ensures
        stored_bytes(after, index) == stored_bytes(before, index),
        stored_str(after, index) == stored_str(before, index),
{
    let old_bytes = heap_bytes(before);
    let new_bytes = heap_bytes(after);
    let end = terminator(old_bytes, 8 * index);
    assert(is_terminator(old_bytes, 8 * index, end));
    assert forall|j: int| 0 <= j < old_bytes.len() implies new_bytes[j] == old_bytes[j] by {}
    assert(is_terminator(new_bytes, 8 * index, end));
    lemma_stored_bytes_at(after, index, end);
    assert(new_bytes.subrange(8 * index, end) =~= old_bytes.subrange(8 * index, end));
}

/// A string without a zero byte that was stored first can still be read at
/// its own index after a second string is stored behind it.
pub proof fn lemma_sequential_append(
    h0: Seq<HeapCellValue>,
    s1: Seq<u8>,
    h1: Seq<HeapCellValue>,
    s2: Seq<u8>,
    h2: Seq<HeapCellValue>,
)
    requires
        appended(h0, s1, h1),
        appended(h1, s2, h2),
        zero_free(s1),
    ensures
        stored_bytes(h2, h0.len() as int) == Ok::<Seq<u8>, RawStrError>(s1),
        zero_free(s2) ==> stored_bytes(h2, h1.len() as int) == Ok::<Seq<u8>, RawStrError>(s2),
{
    lemma_read_back(h0, s1, h1);
    lemma_push_keeps_stored(h1, s2, h2, h0.len() as int);
    if zero_free(s2) {
        lemma_read_back(h1, s2, h2);
    }
}

} // verus!
