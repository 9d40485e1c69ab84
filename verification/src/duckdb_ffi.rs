//! The DuckDB C API types that the table functions speak of, and the
//! validity masks of DuckDB vectors.

use vstd::prelude::*;

verus! {

/// A row or column index in DuckDB.
#[allow(non_camel_case_types)]
pub type idx_t = u64;

/// The outcome of a DuckDB call.
#[allow(non_camel_case_types)]
#[derive(Debug, Clone, Copy, PartialEq, Eq, Structural)]
pub enum duckdb_state {
    DuckDBSuccess,
    DuckDBError,
}

/// A DuckDB logical type id.
#[allow(non_camel_case_types)]
#[derive(Debug, Copy, Clone, PartialEq, Eq, Structural)]
pub enum duckdb_type {
    DUCKDB_TYPE_INVALID,
    DUCKDB_TYPE_BOOLEAN,
    DUCKDB_TYPE_TINYINT,
    DUCKDB_TYPE_SMALLINT,
    DUCKDB_TYPE_INTEGER,
    DUCKDB_TYPE_BIGINT,
    DUCKDB_TYPE_UTINYINT,
    DUCKDB_TYPE_USMALLINT,
    DUCKDB_TYPE_UINTEGER,
    DUCKDB_TYPE_UBIGINT,
    DUCKDB_TYPE_FLOAT,
    DUCKDB_TYPE_DOUBLE,
    DUCKDB_TYPE_TIMESTAMP,
    DUCKDB_TYPE_DATE,
    DUCKDB_TYPE_TIME,
    DUCKDB_TYPE_INTERVAL,
    DUCKDB_TYPE_HUGEINT,
    DUCKDB_TYPE_VARCHAR,
    DUCKDB_TYPE_BLOB,
    DUCKDB_TYPE_DECIMAL,
    DUCKDB_TYPE_TIMESTAMP_S,
    DUCKDB_TYPE_TIMESTAMP_MS,
    DUCKDB_TYPE_TIMESTAMP_NS,
    DUCKDB_TYPE_ENUM,
    DUCKDB_TYPE_LIST,
    DUCKDB_TYPE_STRUCT,
    DUCKDB_TYPE_MAP,
    DUCKDB_TYPE_UUID,
    DUCKDB_TYPE_UNION,
    DUCKDB_TYPE_BIT,
    DUCKDB_TYPE_TIME_TZ,
    DUCKDB_TYPE_TIMESTAMP_TZ,
    DUCKDB_TYPE_UHUGEINT,
    DUCKDB_TYPE_ARRAY,
    DUCKDB_TYPE_ANY,
    DUCKDB_TYPE_VARINT,
    DUCKDB_TYPE_SQLNULL,
}

/// Whether `row` is valid (not NULL) in a validity mask: bit `row % 64` of
/// entry `row / 64` is set.
pub open spec fn row_valid(mask: Seq<u64>, row: int) -> bool {
    mask[row / 64] & (1u64 << ((row % 64) as u64)) != 0
}

proof fn lemma_bit_update(x: u64, b: u64, c: u64)
    requires
        b < 64,
        c < 64,
    ensures
        (x & !(1u64 << b)) & (1u64 << b) == 0,
        (x | (1u64 << b)) & (1u64 << b) != 0,
        b != c ==> (((x & !(1u64 << b)) & (1u64 << c) != 0) <==> (x & (1u64 << c) != 0)),
        b != c ==> (((x | (1u64 << b)) & (1u64 << c) != 0) <==> (x & (1u64 << c) != 0)),
{
    assert((x & !(1u64 << b)) & (1u64 << b) == 0) by (bit_vector)
        requires b < 64;
    assert((x | (1u64 << b)) & (1u64 << b) != 0) by (bit_vector)
        requires b < 64;
    assert(b != c ==> (((x & !(1u64 << b)) & (1u64 << c) != 0) <==> (x & (1u64 << c) != 0))) by (bit_vector)
        requires b < 64, c < 64;
    assert(b != c ==> (((x | (1u64 << b)) & (1u64 << c) != 0) <==> (x & (1u64 << c) != 0))) by (bit_vector)
        requires b < 64, c < 64;
}

/// Marks `row` as NULL in a validity mask: clears bit `row % 64` of word
/// `row / 64`, leaving every other bit and word as it was.
pub fn duckdb_validity_set_row_invalid(validity: &mut [u64], row: idx_t)
    requires
        row / 64 < old(validity)@.len(),
    ensures
        final(validity)@.len() == old(validity)@.len(),
        final(validity)@ == old(validity)@.update(
            (row / 64) as int,
            old(validity)@[(row / 64) as int] & !(1u64 << (row % 64)),
        ),
        !row_valid(final(validity)@, row as int),
        forall|r: int| 0 <= r < 64 * old(validity)@.len() && r != row
            ==> #[trigger] row_valid(final(validity)@, r) == row_valid(old(validity)@, r),
{
    let entry_idx = (row / 64) as usize;
    let bit_idx = row % 64;
    let ghost before = validity@;
    validity[entry_idx] = validity[entry_idx] & !(1u64 << bit_idx);
    proof {
        assert forall|r: int| 0 <= r < 64 * before.len() && r != row
            implies #[trigger] row_valid(validity@, r) == row_valid(before, r) by {
            lemma_bit_update(before[entry_idx as int], bit_idx, (r % 64) as u64);
        }
        lemma_bit_update(before[entry_idx as int], bit_idx, 0);
    }
}

/// Marks `row` as valid in a validity mask: sets bit `row % 64` of word
/// `row / 64`, leaving every other bit and word as it was.
pub fn duckdb_validity_set_row_valid(validity: &mut [u64], row: idx_t)
    requires
        row / 64 < old(validity)@.len(),
    ensures
        final(validity)@.len() == old(validity)@.len(),
        final(validity)@ == old(validity)@.update(
            (row / 64) as int,
            old(validity)@[(row / 64) as int] | (1u64 << (row % 64)),
        ),
        row_valid(final(validity)@, row as int),
        forall|r: int| 0 <= r < 64 * old(validity)@.len() && r != row
            ==> #[trigger] row_valid(final(validity)@, r) == row_valid(old(validity)@, r),
{
    let entry_idx = (row / 64) as usize;
    let bit_idx = row % 64;
    let ghost before = validity@;
    validity[entry_idx] = validity[entry_idx] | (1u64 << bit_idx);
    proof {
        assert forall|r: int| 0 <= r < 64 * before.len() && r != row
            implies #[trigger] row_valid(validity@, r) == row_valid(before, r) by {
            lemma_bit_update(before[entry_idx as int], bit_idx, (r % 64) as u64);
        }
        lemma_bit_update(before[entry_idx as int], bit_idx, 0);
    }
}

/// Whether `row` is valid in a validity mask.
pub fn duckdb_validity_row_is_valid(validity: &[u64], row: idx_t) -> (r: bool)
    requires
        row / 64 < validity@.len(),
    ensures
        r == row_valid(validity@, row as int),
{
    let entry_idx = (row / 64) as usize;
    let bit_idx = row % 64;
    (validity[entry_idx] & (1u64 << bit_idx)) != 0
}

} // verus!
