//! The checks made on a stored graph file: its size, its header, and that the encoded
//! graph uses up all of it.

use vstd::prelude::*;

verus! {

/// The bytes `MYROUTE` followed by a zero byte, at the start of every graph file.
pub const GRAPH_MAGIC: [u8; 8] = [77u8, 89u8, 82u8, 79u8, 85u8, 84u8, 69u8, 0u8];

/// The version of the graph file layout that this library reads and writes.
pub const GRAPH_SCHEMA_VERSION: u16 = 2;

/// The largest graph file accepted: 2 GiB.
pub const MAX_GRAPH_FILE_SIZE_BYTES: u64 = 2147483648;

/// The leading fields of a graph file.
#[derive(Clone, Copy, Debug, PartialEq, Eq)]
pub struct GraphHeader {
    pub magic: [u8; 8],
    pub schema_version: u16,
}

/// Why a stored graph is refused.
#[derive(Clone, Copy, Debug, PartialEq, Eq)]
pub enum GraphFileError {
    /// The file, or its encoding, is larger than the limit.
    GraphTooLarge { size: u64, max: u64 },
    /// The file does not start with the graph magic.
    InvalidMagic { expected: [u8; 8], actual: [u8; 8] },
    /// The file was written with another layout version.
    UnsupportedSchemaVersion { actual: u16, supported: u16 },
    /// Bytes follow the encoded graph.
    TrailingData(usize),
}

/// A graph of `size` bytes is accepted when it is no larger than the limit.
pub fn validate_graph_size(size: u64) -> (r: Result<(), GraphFileError>)
    ensures
        size <= MAX_GRAPH_FILE_SIZE_BYTES ==> r is Ok,
        size > MAX_GRAPH_FILE_SIZE_BYTES ==> (r matches Err(GraphFileError::GraphTooLarge { size: s, max: m })
            && s == size && m == MAX_GRAPH_FILE_SIZE_BYTES),
{
    if size > MAX_GRAPH_FILE_SIZE_BYTES {
        Err(GraphFileError::GraphTooLarge { size, max: MAX_GRAPH_FILE_SIZE_BYTES })
    } else {
        Ok(())
    }
}

/// Whether two magic values hold the same bytes.
fn same_magic(a: &[u8; 8], b: &[u8; 8]) -> (r: bool)
    ensures
        r == (a@ == b@),
{
    let mut i: usize = 0;
    while i < 8
        invariant
            a@.len() == 8,
            b@.len() == 8,
            i <= 8,
            forall|k: int| 0 <= k < i ==> a@[k] == b@[k],
        decreases 8 - i,
    {
        if a[i] != b[i] {
            return false;
        }
        i = i + 1;
    }
    proof {
        assert(a@ =~= b@);
    }
    true
}

/// A header is accepted when it carries the graph magic and the supported version; the
/// magic is checked first.
pub fn validate_header(header: &GraphHeader) -> (r: Result<(), GraphFileError>)
    ensures
        header.magic@ != GRAPH_MAGIC@ ==> (r matches Err(
            GraphFileError::InvalidMagic { expected, actual },
        ) && expected@ == GRAPH_MAGIC@ && actual@ == header.magic@),
        header.magic@ == GRAPH_MAGIC@ && header.schema_version != GRAPH_SCHEMA_VERSION ==> (r matches Err(
            GraphFileError::UnsupportedSchemaVersion { actual, supported },
        ) && actual == header.schema_version && supported == GRAPH_SCHEMA_VERSION),
        header.magic@ == GRAPH_MAGIC@ && header.schema_version == GRAPH_SCHEMA_VERSION ==> r is Ok,
{
    let expected = GRAPH_MAGIC;
    if !same_magic(&header.magic, &expected) {
        return Err(GraphFileError::InvalidMagic { expected, actual: header.magic });
    }
    if header.schema_version != GRAPH_SCHEMA_VERSION {
        return Err(
            GraphFileError::UnsupportedSchemaVersion {
                actual: header.schema_version,
                supported: GRAPH_SCHEMA_VERSION,
            },
        );
    }
    Ok(())
}

/// A decoding that used `consumed` of `len` bytes is accepted only when it used them all.
pub fn check_trailing_data(consumed: usize, len: usize) -> (r: Result<(), GraphFileError>)
    requires
        consumed <= len,
    ensures
        consumed == len ==> r is Ok,
        consumed < len ==> r == Err::<(), GraphFileError>(GraphFileError::TrailingData((len - consumed) as usize)),
{
    if consumed != len {
        Err(GraphFileError::TrailingData(len - consumed))
    } else {
        Ok(())
    }
}

} // verus!
