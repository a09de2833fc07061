//! A loader for whitespace-separated numeric tables.
//!
//! The input is the whole file as bytes. It is trimmed by a count of leading
//! lines to skip and by a limit on data rows, split into line-aligned
//! partitions, and each partition is parsed into a chunk of values. The chunks
//! are then assembled, or flattened into one row-major buffer.

pub mod chunk;
pub mod laws;
pub mod load;
pub mod model;
pub mod numeric;
pub mod plan;
pub mod shift;
pub mod text;

pub use chunk::{parse_chunk, scan_chunk, settle, Chunk, Fault, LoadError, Scan, Span, Token};
pub use load::{
    assemble, flatten_chunks, loadtxt, loadtxt_checked, partition, table_shape, RustArray,
};
pub use plan::{make_plan, ParseConfig, Plan};
pub use text::{find_newline, find_space, SimdLines, SimdLinesIter, SimdWords, SimdWordsIter};
