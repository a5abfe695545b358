//! A 64-bit tagged heap cell and inline strings packed into a heap of such
//! cells.
//!
//! A cell is one machine word that carries a 56-bit value, two flag bits and
//! a 6-bit tag. A heap is a vector of cells. A short string can be stored
//! directly in the heap: its bytes are laid over consecutive cells, followed
//! by at least one zero byte, and read back by scanning up to that zero.

pub mod cell;
pub mod inspect;
pub mod raw_str;

pub use cell::HeapCellValue;
pub use inspect::inspect_heap;
pub use raw_str::{push_raw_bytes, push_raw_str, read_raw_bytes, read_raw_str, Heap, RawStrError};
