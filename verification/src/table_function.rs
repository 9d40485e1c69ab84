//! The logic of the `read_kart`, `read_kart_dataset` and
//! `read_kart_datasets` table functions: result column types, argument
//! splitting, work division, and the conversion of stored feature values
//! into result cells.

use vstd::prelude::*;
use vstd::string::*;
use vstd::utf8::*;
use crate::duckdb_ffi::duckdb_type;
use crate::kart::{
    decode_pk_into, gpkg_to_wkb, legend_entries, lookup_last, spec_base64_buffer_after, spec_base64_decode, spec_base64_decode_into,
    spec_gpkg_to_wkb, spec_pk_from_bytes, str_eq, ColumnSchema, ColumnSource, CompiledLegend, Dataset,
};
use crate::msgpack::{decode, models, spec_decode, str_from_utf8, DecodeError, Value, ValueModel};

verus! {

/// The DuckDB type of a column with Kart data type `data_type` and, for
/// integers, bit size `size`.
pub open spec fn spec_column_type(data_type: Seq<char>, size: Option<usize>) -> duckdb_type {
    if data_type == "integer"@ {
        match size {
            Some(16) => duckdb_type::DUCKDB_TYPE_SMALLINT,
            Some(32) => duckdb_type::DUCKDB_TYPE_INTEGER,
            _ => duckdb_type::DUCKDB_TYPE_BIGINT,
        }
    } else if data_type == "float"@ {
        duckdb_type::DUCKDB_TYPE_DOUBLE
    } else if data_type == "boolean"@ {
        duckdb_type::DUCKDB_TYPE_BOOLEAN
    } else if data_type == "geometry"@ || data_type == "blob"@ {
        duckdb_type::DUCKDB_TYPE_BLOB
    } else {
        duckdb_type::DUCKDB_TYPE_VARCHAR
    }
}

/// The DuckDB type of the result column for a schema column.
pub fn column_type(col: &ColumnSchema) -> (t: duckdb_type)
    ensures
        t == spec_column_type(col.data_type@, col.size),
{
    let dt = col.data_type.as_str();
    if str_eq(dt, "integer") {
        match col.size {
            Some(16) => duckdb_type::DUCKDB_TYPE_SMALLINT,
            Some(32) => duckdb_type::DUCKDB_TYPE_INTEGER,
            _ => duckdb_type::DUCKDB_TYPE_BIGINT,
        }
    } else if str_eq(dt, "float") {
        duckdb_type::DUCKDB_TYPE_DOUBLE
    } else if str_eq(dt, "boolean") {
        duckdb_type::DUCKDB_TYPE_BOOLEAN
    } else if str_eq(dt, "geometry") || str_eq(dt, "blob") {
        duckdb_type::DUCKDB_TYPE_BLOB
    } else {
        duckdb_type::DUCKDB_TYPE_VARCHAR
    }
}

/// The result column types of a schema, column by column.
pub fn column_types(schema: &Vec<ColumnSchema>) -> (types: Vec<duckdb_type>)
    ensures
        types@.len() == schema@.len(),
        forall|i: int| 0 <= i < schema@.len()
            ==> #[trigger] types@[i] == spec_column_type(schema@[i].data_type@, schema@[i].size),
{
    let mut types: Vec<duckdb_type> = Vec::new();
    let mut i: usize = 0;
    while i < schema.len()
        invariant
            i <= schema@.len(),
            types@.len() == i,
            forall|j: int| 0 <= j < i ==> #[trigger] types@[j] == spec_column_type(schema@[j].data_type@, schema@[j].size),
        decreases schema@.len() - i,
    {
        types.push(column_type(&schema[i]));
        i = i + 1;
    }
    types
}

/// The position of the last `/` in `s`.
pub open spec fn last_slash(s: Seq<char>) -> Option<int>
    decreases s.len(),
{
    if s.len() == 0 {
        None
    } else if s.last() == '/' {
        Some(s.len() - 1)
    } else {
        last_slash(s.drop_last())
    }
}

/// A `repo_path/dataset_name` argument split at its last `/`.
pub open spec fn spec_split_dataset_path(s: Seq<char>) -> Option<(Seq<char>, Seq<char>)> {
    match last_slash(s) {
        Some(j) => Some((s.subrange(0, j), s.subrange(j + 1, s.len() as int))),
        None => None,
    }
}

/// Splits the single argument of `read_kart_dataset`, `repo_path/dataset_name`,
/// at its last `/`; `None` when it holds no `/`.
pub fn split_dataset_path(s: &str) -> (r: Option<(String, String)>)
    ensures
        match spec_split_dataset_path(s@) {
            Some((repo, dataset)) => r matches Some(p) && p.0@ == repo && p.1@ == dataset,
            None => r is None,
        },
{
    let n = s.unicode_len();
    let mut i = n;
    assert(s@.subrange(0, n as int) =~= s@);
    while i > 0
        invariant
            i <= n,
            n == s@.len(),
            last_slash(s@) == last_slash(s@.subrange(0, i as int)),
        decreases i,
    {
        let ghost sub = s@.subrange(0, i as int);
        assert(sub.drop_last() =~= s@.subrange(0, i - 1));
        if s.get_char(i - 1) == '/' {
            let repo = s.substring_char(0, i - 1).to_owned();
            let dataset = s.substring_char(i, n).to_owned();
            return Some((repo, dataset));
        }
        i = i - 1;
    }
    None
}

/// Splitting at the last `/` loses nothing: the parts joined by `/` give
/// the argument back, and the dataset name holds no `/`.
pub proof fn lemma_split_dataset_path_rejoins(s: Seq<char>)
    ensures
        spec_split_dataset_path(s) matches Some((repo, dataset)) ==> repo + seq!['/'] + dataset == s
            && !dataset.contains('/'),
    decreases s.len(),
{
    if s.len() > 0 && s.last() != '/' {
        let d = s.drop_last();
        lemma_split_dataset_path_rejoins(d);
        if let Some(j) = last_slash(d) {
            lemma_last_slash_bounds(d);
            let dataset = s.subrange(j + 1, s.len() as int);
            assert(dataset =~= d.subrange(j + 1, d.len() as int).push(s.last()));
            assert(s.subrange(0, j) =~= d.subrange(0, j));
            assert(s.subrange(0, j) + seq!['/'] + dataset =~= s);
            if dataset.contains('/') {
                let k = choose|k: int| 0 <= k < dataset.len() && dataset[k] == '/';
                if k < dataset.len() - 1 {
                    assert(d.subrange(j + 1, d.len() as int)[k] == '/');
                }
            }
        }
    } else if s.len() > 0 {
        let j = s.len() - 1;
        assert(s.subrange(0, j) + seq!['/'] + s.subrange(j + 1, s.len() as int) =~= s);
    }
}

proof fn lemma_last_slash_bounds(s: Seq<char>)
    ensures
        last_slash(s) matches Some(j) ==> 0 <= j < s.len() && s[j] == '/',
    decreases s.len(),
{
    if s.len() > 0 && s.last() != '/' {
        lemma_last_slash_bounds(s.drop_last());
    }
}

/// `n` divided by `d`, rounded up.
pub open spec fn ceil_div(n: int, d: int) -> int {
    (n + d - 1) / d
}

/// How many threads may scan a dataset of `total_features` features: one
/// per 2048 features, at most 8 and at most `available` (4 when unknown),
/// and at least one.
pub open spec fn spec_scan_thread_count(available: Option<usize>, total_features: usize) -> int {
    let a: int = match available {
        Some(a) => a as int,
        None => 4,
    };
    let by_size = ceil_div(total_features as int, 2048);
    let t = if a < by_size { a } else { by_size };
    let t = if t < 8 { t } else { 8 };
    if t < 1 { 1 } else { t }
}

/// How many threads may scan a dataset of `total_features` features.
pub fn scan_thread_count(available: Option<usize>, total_features: usize) -> (t: usize)
    ensures
        t == spec_scan_thread_count(available, total_features),
        1 <= t <= 8,
{
    let a = match available {
        Some(a) => a,
        None => 4,
    };
    let by_size = total_features / 2048 + if total_features % 2048 != 0 { 1 } else { 0 };
    let t = if a < by_size { a } else { by_size };
    let t = if t < 8 { t } else { 8 };
    if t < 1 { 1 } else { t }
}

/// How many rows the scan batch starting at row `start` of `total` has:
/// at most 2048, none once every row has been handed out.
pub fn next_batch_len(start: usize, total: usize) -> (n: usize)
    ensures
        n == (if start >= total {
            0
        } else if total - start < 2048 {
            total - start
        } else {
            2048
        }),
        n <= 2048,
        start < total ==> 0 < n && start + n <= total,
{
    if start >= total {
        0
    } else if total - start < 2048 {
        total - start
    } else {
        2048
    }
}

/// `10` to the power `k`.
pub open spec fn pow10(k: nat) -> nat
    decreases k,
{
    if k == 0 {
        1
    } else {
        10 * pow10((k - 1) as nat)
    }
}

/// The decimal digits of `v`, most significant first, without leading zeros.
pub open spec fn decimal_digits(v: nat) -> Seq<u8>
    decreases v,
{
    if v < 10 {
        seq![(0x30 + v) as u8]
    } else {
        decimal_digits(v / 10).push((0x30 + v % 10) as u8)
    }
}

/// The decimal text of `n`, with a leading `-` when it is negative.
pub open spec fn decimal_text(n: int) -> Seq<u8> {
    if n < 0 {
        seq![0x2du8] + decimal_digits((-n) as nat)
    } else {
        decimal_digits(n as nat)
    }
}

/// The number that a run of decimal digits spells, most significant first.
pub open spec fn decimal_value(d: Seq<u8>) -> int
    decreases d.len(),
{
    if d.len() == 0 {
        0
    } else {
        decimal_value(d.drop_last()) * 10 + (d.last() - 0x30)
    }
}

/// Whether `d` is a run of decimal digits without a leading zero (a lone
/// zero excepted).
pub open spec fn plain_decimal(d: Seq<u8>) -> bool {
    &&& d.len() > 0
    &&& forall|i: int| 0 <= i < d.len() ==> 0x30 <= #[trigger] d[i] <= 0x39
    &&& d.len() > 1 ==> d[0] != 0x30
}

proof fn lemma_decimal_digits_read_back(v: nat)
    ensures
        plain_decimal(decimal_digits(v)),
        decimal_value(decimal_digits(v)) == v,
    decreases v,
{
    let d = decimal_digits(v);
    if v < 10 {
        assert(d.drop_last() =~= Seq::<u8>::empty());
        assert(decimal_value(Seq::<u8>::empty()) == 0);
        assert((0x30 + v) as u8 == 0x30 + v);
    } else {
        lemma_decimal_digits_read_back(v / 10);
        assert((0x30 + v % 10) as u8 == 0x30 + v % 10);
        assert(v == (v / 10) * 10 + v % 10);
        let h = decimal_digits(v / 10);
        assert(d == h.push((0x30 + v % 10) as u8));
        assert(d.drop_last() =~= h);
        assert(d[0] == h[0]);
        assert forall|i: int| 0 <= i < d.len() implies 0x30 <= #[trigger] d[i] <= 0x39 by {
            if i < h.len() {
                assert(d[i] == h[i]);
            }
        }
        if h.len() == 1 {
            assert(v / 10 >= 1);
            assert(h[0] != 0x30) by {
                if v / 10 >= 10 {
                    assert(h.len() > 1) by {
                        let hh = decimal_digits(v / 10 / 10);
                        assert(h == hh.push((0x30 + (v / 10) % 10) as u8));
                    }
                }
            }
        }
    }
}

/// The decimal text of an integer reads back as that integer: digits
/// without a leading zero that spell it, after a `-` when it is negative.
pub proof fn lemma_decimal_text_reads_back(n: int)
    ensures
        n >= 0 ==> plain_decimal(decimal_text(n)) && decimal_value(decimal_text(n)) == n,
        n < 0 ==> decimal_text(n).len() > 1 && decimal_text(n)[0] == 0x2d
            && plain_decimal(decimal_text(n).subrange(1, decimal_text(n).len() as int))
            && decimal_value(decimal_text(n).subrange(1, decimal_text(n).len() as int)) == -n,
{
    if n >= 0 {
        lemma_decimal_digits_read_back(n as nat);
    } else {
        lemma_decimal_digits_read_back((-n) as nat);
        let t = decimal_text(n);
        assert(t.subrange(1, t.len() as int) =~= decimal_digits((-n) as nat));
    }
}

proof fn lemma_ascii_valid_utf8(b: Seq<u8>)
    requires
        forall|i: int| 0 <= i < b.len() ==> #[trigger] b[i] < 0x80,
    ensures
        valid_utf8(b),
    decreases b.len(),
{
    if b.len() > 0 {
        assert(pop_first_scalar(b) =~= b.subrange(1, b.len() as int));
        lemma_ascii_valid_utf8(b.subrange(1, b.len() as int));
    }
}

/// Writes the decimal text of `n` at the end of `buf` and returns it; zero
/// is returned as a literal, leaving `buf` as it was.
pub fn format_i64_to_buf(n: i64, buf: &mut [u8; 32]) -> (s: &str)
    ensures
        s.spec_bytes() == decimal_text(n as int),
        n == 0 ==> final(buf)@ == old(buf)@,
        n != 0 ==> decimal_text(n as int).len() <= 32 && final(buf)@ == old(buf)@.subrange(
            0,
            32 - decimal_text(n as int).len(),
        ) + decimal_text(n as int),
{
    if n == 0 {
        proof {
            reveal_strlit("0");
            assert("0"@ =~= seq!['0']);
            assert(is_ascii_chars("0"@));
            is_ascii_chars_encode_utf8("0"@);
            assert("0".spec_bytes() =~= seq![0x30u8]);
            assert(decimal_digits(0) =~= seq![0x30u8]);
        }
        return "0";
    }
    let is_neg = n < 0;
    let mut val: u64 = if is_neg {
        if n == i64::MIN {
            0x8000_0000_0000_0000
        } else {
            (-n) as u64
        }
    } else {
        n as u64
    };
    let ghost magnitude: nat = val as nat;
    let ghost initial = buf@;
    let mut idx: usize = 32;
    proof {
        reveal_with_fuel(pow10, 21);
        assert(pow10(20) == 100000000000000000000);
    }
    assert(buf@.subrange(32, 32) =~= Seq::<u8>::empty());
    while val > 0
        invariant
            12 <= idx <= 32,
            val < pow10((idx - 12) as nat),
            buf@.len() == 32,
            val > 0 ==> decimal_digits(magnitude) == decimal_digits(val as nat) + buf@.subrange(idx as int, 32),
            val == 0 ==> decimal_digits(magnitude) == buf@.subrange(idx as int, 32),
            forall|k: int| idx <= k < 32 ==> 0x30 <= #[trigger] buf@[k] <= 0x39,
            forall|k: int| 0 <= k < idx ==> #[trigger] buf@[k] == initial[k],
            initial.len() == 32,
        decreases val,
    {
        let ghost old_sub = buf@.subrange(idx as int, 32);
        let ghost old_val = val;
        let digit = (val % 10) as u8;
        idx = idx - 1;
        buf[idx] = 0x30 + digit;
        val = val / 10;
        proof {
            assert(buf@.subrange(idx as int, 32) =~= seq![(0x30 + digit) as u8] + old_sub);
            if val > 0 {
                assert(decimal_digits(old_val as nat) == decimal_digits(val as nat).push((0x30 + old_val % 10) as u8));
                assert(decimal_digits(val as nat) + (seq![(0x30 + digit) as u8] + old_sub)
                    =~= decimal_digits(val as nat).push((0x30 + digit) as u8) + old_sub);
            } else {
                assert(decimal_digits(old_val as nat) =~= seq![(0x30 + digit) as u8]);
            }
        }
    }
    if is_neg {
        idx = idx - 1;
        buf[idx] = 0x2d;
    }
    let digits = vstd::slice::slice_subrange(buf.as_slice(), idx, 32);
    proof {
        if is_neg {
            assert(digits@ =~= seq![0x2du8] + decimal_digits(magnitude));
        } else {
            assert(digits@ =~= decimal_digits(magnitude));
        }
        assert(decimal_text(n as int) == digits@);
        assert(buf@ =~= initial.subrange(0, idx as int) + digits@);
        lemma_ascii_valid_utf8(digits@);
    }
    match str_from_utf8(digits) {
        Some(s) => s,
        None => "",
    }
}

/// A floating-point result value, as stored: the bits of a 64-bit float,
/// an integer to convert, or zero.
#[derive(Debug, Clone, Copy, PartialEq, Eq, Structural)]
pub enum FloatValue {
    Double(u64),
    Integer(i64),
    Zero,
}

/// One result cell of a scanned feature.
#[derive(Debug, PartialEq)]
pub enum Cell<'a> {
    Null,
    BigInt(i64),
    Integer(i32),
    SmallInt(i16),
    Double(FloatValue),
    Boolean(bool),
    Blob(&'a [u8]),
    Text(&'a str),
    /// An integer written as decimal text.
    IntegerText(i64),
    /// A float written as text.
    FloatText(FloatValue),
}

/// The content of a [`Cell`].
pub enum CellModel {
    Null,
    BigInt(i64),
    Integer(i32),
    SmallInt(i16),
    Double(FloatValue),
    Boolean(bool),
    Blob(Seq<u8>),
    Text(Seq<char>),
    IntegerText(i64),
    FloatText(FloatValue),
}

impl<'a> Cell<'a> {
    pub open spec fn model(&self) -> CellModel {
        match *self {
            Cell::Null => CellModel::Null,
            Cell::BigInt(i) => CellModel::BigInt(i),
            Cell::Integer(i) => CellModel::Integer(i),
            Cell::SmallInt(i) => CellModel::SmallInt(i),
            Cell::Double(f) => CellModel::Double(f),
            Cell::Boolean(b) => CellModel::Boolean(b),
            Cell::Blob(b) => CellModel::Blob(b@),
            Cell::Text(s) => CellModel::Text(s@),
            Cell::IntegerText(i) => CellModel::IntegerText(i),
            Cell::FloatText(f) => CellModel::FloatText(f),
        }
    }
}

/// The float that a value reads as: its own bits, or an integer to convert;
/// zero for anything else.
pub open spec fn float_of(v: ValueModel) -> FloatValue {
    match v {
        ValueModel::Float(b) => FloatValue::Double(b),
        ValueModel::Integer(i) => FloatValue::Integer(i),
        _ => FloatValue::Zero,
    }
}

/// The geometry bytes of a value: an extension of type 71 or binary data.
pub open spec fn geom_bytes_of(v: ValueModel) -> Option<Seq<u8>> {
    match v {
        ValueModel::Extension(t, d) => if t == 71 {
            Some(d)
        } else {
            None
        },
        ValueModel::Binary(b) => Some(b),
        _ => None,
    }
}

/// The cell that a stored value gives in a result column of type `ty`;
/// `geometry` tells whether the column holds geometries. A missing value,
/// or nil, gives NULL.
pub open spec fn spec_cell(ty: duckdb_type, geometry: bool, v: Option<ValueModel>) -> CellModel {
    match v {
        None => CellModel::Null,
        Some(ValueModel::Nil) => CellModel::Null,
        Some(v) => match ty {
            duckdb_type::DUCKDB_TYPE_BIGINT => CellModel::BigInt(match v {
                ValueModel::Integer(i) => i,
                _ => 0,
            }),
            duckdb_type::DUCKDB_TYPE_INTEGER => CellModel::Integer(match v {
                ValueModel::Integer(i) => i as i32,
                _ => 0,
            }),
            duckdb_type::DUCKDB_TYPE_SMALLINT => CellModel::SmallInt(match v {
                ValueModel::Integer(i) => i as i16,
                _ => 0,
            }),
            duckdb_type::DUCKDB_TYPE_DOUBLE => CellModel::Double(float_of(v)),
            duckdb_type::DUCKDB_TYPE_BOOLEAN => CellModel::Boolean(match v {
                ValueModel::Bool(b) => b,
                _ => false,
            }),
            duckdb_type::DUCKDB_TYPE_BLOB => if geometry {
                match geom_bytes_of(v) {
                    Some(g) => match spec_gpkg_to_wkb(g) {
                        Some(w) => CellModel::Blob(w),
                        None => CellModel::Null,
                    },
                    None => CellModel::Null,
                }
            } else {
                match v {
                    ValueModel::Binary(b) => CellModel::Blob(b),
                    ValueModel::String(s) => CellModel::Blob(encode_utf8(s)),
                    _ => CellModel::Null,
                }
            },
            duckdb_type::DUCKDB_TYPE_VARCHAR => match v {
                ValueModel::String(s) => CellModel::Text(s),
                ValueModel::Integer(i) => CellModel::IntegerText(i),
                ValueModel::Float(_) => CellModel::FloatText(float_of(v)),
                ValueModel::Bool(b) => CellModel::Text(if b { "true"@ } else { "false"@ }),
                _ => CellModel::Null,
            },
            _ => CellModel::Null,
        },
    }
}

/// The cell that a stored value gives in a result column.
pub fn value_cell<'a>(ty: duckdb_type, geometry: bool, v: Option<&Value<'a>>) -> (c: Cell<'a>)
    ensures
        c.model() == spec_cell(ty, geometry, match v {
            Some(x) => Some(x.model()),
            None => None,
        }),
{
    let val = match v {
        None => return Cell::Null,
        Some(Value::Nil) => return Cell::Null,
        Some(x) => x,
    };
    match ty {
        duckdb_type::DUCKDB_TYPE_BIGINT => Cell::BigInt(match val.as_i64() {
            Some(i) => i,
            None => 0,
        }),
        duckdb_type::DUCKDB_TYPE_INTEGER => Cell::Integer(match val.as_i64() {
            Some(i) => i as i32,
            None => 0,
        }),
        duckdb_type::DUCKDB_TYPE_SMALLINT => Cell::SmallInt(match val.as_i64() {
            Some(i) => i as i16,
            None => 0,
        }),
        duckdb_type::DUCKDB_TYPE_DOUBLE => Cell::Double(float_value(val)),
        duckdb_type::DUCKDB_TYPE_BOOLEAN => Cell::Boolean(match val.as_bool() {
            Some(b) => b,
            None => false,
        }),
        duckdb_type::DUCKDB_TYPE_BLOB => {
            if geometry {
                match val.as_geom_bytes() {
                    Some(geom) => match gpkg_to_wkb(geom) {
                        Some(wkb) => Cell::Blob(wkb),
                        None => Cell::Null,
                    },
                    None => Cell::Null,
                }
            } else {
                match val.as_bytes() {
                    Some(bytes) => Cell::Blob(bytes),
                    None => Cell::Null,
                }
            }
        },
        duckdb_type::DUCKDB_TYPE_VARCHAR => {
            if let Some(s) = val.as_str() {
                Cell::Text(s)
            } else if let Some(i) = val.as_i64() {
                Cell::IntegerText(i)
            } else if let Value::Float(_) = val {
                Cell::FloatText(float_value(val))
            } else if let Some(b) = val.as_bool() {
                let t = if b { "true" } else { "false" };
                proof {
                    reveal_strlit("true");
                    reveal_strlit("false");
                }
                Cell::Text(t)
            } else {
                Cell::Null
            }
        },
        _ => Cell::Null,
    }
}

/// The float that a value reads as.
fn float_value(v: &Value) -> (f: FloatValue)
    ensures
        f == float_of(v.model()),
{
    match v {
        Value::Float(b) => FloatValue::Double(*b),
        Value::Integer(i) => FloatValue::Integer(*i),
        _ => FloatValue::Zero,
    }
}

/// The primary-key values a scan takes from a feature file name decoded
/// into a buffer of `cap` bytes: at most the first four, and none when the
/// name cannot be decoded.
pub open spec fn scan_pk_values(filename: Seq<u8>, cap: nat) -> Seq<ValueModel> {
    match spec_pk_from_bytes(spec_base64_decode_into(filename, cap)) {
        Ok(ms) => if ms.len() <= 4 {
            ms
        } else {
            ms.subrange(0, 4)
        },
        Err(_) => Seq::empty(),
    }
}

/// A scan whose buffer is at least as long as the file name takes the
/// first (at most four) primary-key values that decoding the file name into
/// a new vector gives, and none when that decoding fails.
pub proof fn lemma_scan_pk_values_agree(filename: Seq<u8>, cap: nat)
    requires
        filename.len() <= cap,
    ensures
        match spec_pk_from_bytes(spec_base64_decode(filename)) {
            Ok(ms) => scan_pk_values(filename, cap) == (if ms.len() <= 4 {
                ms
            } else {
                ms.subrange(0, 4)
            }),
            Err(_) => scan_pk_values(filename, cap) == Seq::<ValueModel>::empty(),
        },
{
    crate::kart::lemma_decode_into_agrees(filename, cap);
}

/// The stored value that a column source selects, when there is one.
pub open spec fn source_value(src: ColumnSource, pk: Seq<ValueModel>, non_pk: Seq<ValueModel>) -> Option<ValueModel> {
    match src {
        ColumnSource::Pk(i) => if i < pk.len() {
            Some(pk[i as int])
        } else {
            None
        },
        ColumnSource::NonPk(i) => if i < non_pk.len() {
            Some(non_pk[i as int])
        } else {
            None
        },
        ColumnSource::NotFound => None,
    }
}

/// Whether a schema column holds geometries.
pub open spec fn is_geometry_column(c: ColumnSchema) -> bool {
    c.data_type@ == "geometry"@
}

/// The cell that a stored value gives in the result column of a schema
/// column, as a scan fills it.
pub open spec fn column_cell(c: ColumnSchema, v: ValueModel) -> CellModel {
    spec_cell(spec_column_type(c.data_type@, c.size), is_geometry_column(c), Some(v))
}

/// Whether `t` is one of the Kart data types with a column type of their
/// own: integer, float, boolean, geometry and blob.
pub open spec fn is_typed_data(t: Seq<char>) -> bool {
    t == "integer"@ || t == "float"@ || t == "boolean"@ || t == "geometry"@ || t == "blob"@
}

/// A scanned cell keeps the value that Kart stores for its column:
/// - nil is NULL in every column;
/// - a boolean column holds the stored boolean itself, true or false;
/// - an integer column holds the stored integer (64-bit, or 32- or 16-bit
///   by the column's size when it fits);
/// - a float column holds the stored float's bits, or the stored integer;
/// - a blob column holds the stored bytes unchanged (a string's UTF-8
///   bytes); only a geometry column unwraps a GeoPackage geometry;
/// - a column of any other data type (text, numeric, date, ...) holds a
///   stored string as that text and a stored integer as its decimal text.
pub proof fn lemma_cells_keep_values(c: ColumnSchema, v: ValueModel)
    ensures
        v is Nil ==> column_cell(c, v) == CellModel::Null,
        c.data_type@ == "boolean"@ ==> (v matches ValueModel::Bool(b) ==> column_cell(c, v) == CellModel::Boolean(b)),
        c.data_type@ == "integer"@ && c.size != Some(16usize) && c.size != Some(32usize) ==> (v matches ValueModel::Integer(
            i,
        ) ==> column_cell(c, v) == CellModel::BigInt(i)),
        c.data_type@ == "integer"@ && c.size == Some(32usize) ==> (v matches ValueModel::Integer(i) ==> (-0x8000_0000
            <= i < 0x8000_0000 ==> (column_cell(c, v) matches CellModel::Integer(j) && j == i))),
        c.data_type@ == "integer"@ && c.size == Some(16usize) ==> (v matches ValueModel::Integer(i) ==> (-0x8000 <= i
            < 0x8000 ==> (column_cell(c, v) matches CellModel::SmallInt(j) && j == i))),
        c.data_type@ == "float"@ ==> (v matches ValueModel::Float(bits) ==> column_cell(c, v) == CellModel::Double(
            FloatValue::Double(bits),
        )),
        c.data_type@ == "float"@ ==> (v matches ValueModel::Integer(i) ==> column_cell(c, v) == CellModel::Double(
            FloatValue::Integer(i),
        )),
        c.data_type@ == "blob"@ ==> (v matches ValueModel::Binary(b) ==> column_cell(c, v) == CellModel::Blob(b)),
        c.data_type@ == "blob"@ ==> (v matches ValueModel::String(t) ==> column_cell(c, v) == CellModel::Blob(
            encode_utf8(t),
        )),
        c.data_type@ == "geometry"@ ==> (v matches ValueModel::Binary(g) ==> column_cell(c, v) == (match spec_gpkg_to_wkb(g) {
            Some(w) => CellModel::Blob(w),
            None => CellModel::Null,
        })),
        !is_typed_data(c.data_type@) ==> (v matches ValueModel::String(t) ==> column_cell(c, v) == CellModel::Text(t)),
        !is_typed_data(c.data_type@) ==> (v matches ValueModel::Integer(i) ==> column_cell(c, v) == CellModel::IntegerText(
            i,
        )),
{
    reveal_strlit("integer");
    reveal_strlit("float");
    reveal_strlit("boolean");
    reveal_strlit("geometry");
    reveal_strlit("blob");
    assert("integer"@.len() != "float"@.len());
    assert("integer"@ != "float"@);
    assert("integer"@[0] != "boolean"@[0]);
    assert("integer"@ != "boolean"@);
    assert("integer"@.len() != "geometry"@.len());
    assert("integer"@ != "geometry"@);
    assert("integer"@.len() != "blob"@.len());
    assert("integer"@ != "blob"@);
    assert("float"@.len() != "boolean"@.len());
    assert("float"@ != "boolean"@);
    assert("float"@.len() != "geometry"@.len());
    assert("float"@ != "geometry"@);
    assert("float"@.len() != "blob"@.len());
    assert("float"@ != "blob"@);
    assert("boolean"@.len() != "geometry"@.len());
    assert("boolean"@ != "geometry"@);
    assert("boolean"@.len() != "blob"@.len());
    assert("boolean"@ != "blob"@);
    assert("geometry"@.len() != "blob"@.len());
    assert("geometry"@ != "blob"@);
    if let ValueModel::Integer(i) = v {
        if -0x8000_0000 <= i < 0x8000_0000 {
            assert(i as i32 == i) by (bit_vector)
                requires -0x8000_0000 <= i < 0x8000_0000;
        }
        if -0x8000 <= i < 0x8000 {
            assert(i as i16 == i) by (bit_vector)
                requires -0x8000 <= i < 0x8000;
        }
    }
}

/// A stored value that its column's type does not read gives that type's
/// fallback cell, and a text column renders booleans and floats:
/// - a boolean column holds false for a non-boolean value;
/// - a 64-bit integer column holds 0 for a non-integer value;
/// - a float column holds 0.0 for a value that is neither float nor integer;
/// - a blob column holds NULL for a value that is neither bytes nor string;
/// - a geometry column unwraps an extension of type 71 like stored bytes,
///   and holds NULL for any other non-byte value;
/// - a column of any other data type holds "true" or "false" for a stored
///   boolean, the float's text for a stored float, and NULL for arrays,
///   maps and extensions;
/// - a 32- or 16-bit integer column holds a stored integer wrapped to that
///   width (equal to it modulo 2^32 or 2^16).
pub proof fn lemma_cells_of_other_values(c: ColumnSchema, v: ValueModel)
    requires
        v !is Nil,
    ensures
        c.data_type@ == "boolean"@ && v !is Bool ==> column_cell(c, v) == CellModel::Boolean(false),
        c.data_type@ == "integer"@ && c.size != Some(16usize) && c.size != Some(32usize) && v !is Integer
            ==> column_cell(c, v) == CellModel::BigInt(0),
        c.data_type@ == "float"@ && v !is Float && v !is Integer ==> column_cell(c, v) == CellModel::Double(
            FloatValue::Zero,
        ),
        c.data_type@ == "blob"@ && v !is Binary && v !is String ==> column_cell(c, v) == CellModel::Null,
        c.data_type@ == "geometry"@ ==> (v matches ValueModel::Extension(t, g) ==> column_cell(c, v) == (if t == 71 {
            match spec_gpkg_to_wkb(g) {
                Some(w) => CellModel::Blob(w),
                None => CellModel::Null,
            }
        } else {
            CellModel::Null
        })),
        c.data_type@ == "geometry"@ && v !is Binary && v !is Extension ==> column_cell(c, v) == CellModel::Null,
        !is_typed_data(c.data_type@) ==> (v matches ValueModel::Bool(b) ==> column_cell(c, v) == CellModel::Text(
            if b {
                "true"@
            } else {
                "false"@
            },
        )),
        !is_typed_data(c.data_type@) ==> (v matches ValueModel::Float(bits) ==> column_cell(c, v)
            == CellModel::FloatText(FloatValue::Double(bits))),
        !is_typed_data(c.data_type@) && (v is Array || v is MapPairs || v is Extension) ==> column_cell(c, v)
            == CellModel::Null,
        c.data_type@ == "integer"@ && c.size == Some(32usize) ==> (v matches ValueModel::Integer(i) ==> (
        column_cell(c, v) matches CellModel::Integer(j) && (i - j) % 0x1_0000_0000 == 0)),
        c.data_type@ == "integer"@ && c.size == Some(16usize) ==> (v matches ValueModel::Integer(i) ==> (
        column_cell(c, v) matches CellModel::SmallInt(j) && (i - j) % 0x1_0000 == 0)),
{
    if let ValueModel::Integer(i) = v {
        assert((i - (i as i32)) % 0x1_0000_0000 == 0) by (bit_vector);
        assert((i - (i as i16)) % 0x1_0000 == 0) by (bit_vector);
    }
    reveal_strlit("integer");
    reveal_strlit("float");
    reveal_strlit("boolean");
    reveal_strlit("geometry");
    reveal_strlit("blob");
    assert("integer"@.len() != "float"@.len());
    assert("integer"@[0] != "boolean"@[0]);
    assert("integer"@.len() != "geometry"@.len());
    assert("integer"@.len() != "blob"@.len());
    assert("float"@.len() != "boolean"@.len());
    assert("float"@.len() != "geometry"@.len());
    assert("float"@.len() != "blob"@.len());
    assert("boolean"@.len() != "geometry"@.len());
    assert("boolean"@.len() != "blob"@.len());
    assert("geometry"@.len() != "blob"@.len());
}

/// The column sources for a feature whose legend key is `key`: those of
/// the dataset's single legend when it has one, else those of the legend
/// stored under the key (a key that is not a string counts as empty).
pub open spec fn row_sources(d: Dataset, key: ValueModel) -> Option<Seq<ColumnSource>> {
    match d.single_legend {
        Some(c) => Some(c.sources@),
        None => lookup_last(
            legend_entries(d.legends@),
            match key {
                ValueModel::String(s) => s,
                _ => Seq::empty(),
            },
        ),
    }
}

/// The cells of a feature row: the feature blob is a MessagePack array of
/// its legend key and the array of its other values; each column takes the
/// value its source selects. `None` when the blob has another shape or its
/// legend is unknown.
pub open spec fn spec_scan_row(d: Dataset, types: Seq<duckdb_type>, pk: Seq<ValueModel>, blob: Seq<u8>) -> Option<Seq<CellModel>> {
    match spec_decode(blob) {
        Ok(ValueModel::Array(a)) => if a.len() != 2 {
            None
        } else {
            match a[1] {
                ValueModel::Array(non_pk) => match row_sources(d, a[0]) {
                    Some(srcs) => Some(Seq::new(d.schema@.len(), |c: int| spec_cell(
                        types[c],
                        is_geometry_column(d.schema@[c]),
                        source_value(srcs[c], pk, non_pk),
                    ))),
                    None => None,
                },
                _ => None,
            }
        },
        _ => None,
    }
}

/// The result column types of a schema.
pub open spec fn schema_column_types(schema: Seq<ColumnSchema>) -> Seq<duckdb_type> {
    schema.map_values(|c: ColumnSchema| spec_column_type(c.data_type@, c.size))
}

/// A feature blob holding its legend key and the array of its other values
/// scans, under the legend found for the key and with the schema's column
/// types, to one cell per column: the cell that the value the legend
/// selects for the column gives in that column, or NULL when the legend
/// selects none.
pub proof fn lemma_scan_row_selects_values(
    d: Dataset,
    pk: Seq<ValueModel>,
    blob: Seq<u8>,
    key: ValueModel,
    non_pk: Seq<ValueModel>,
    srcs: Seq<ColumnSource>,
)
    requires
        spec_decode(blob) == Ok::<ValueModel, DecodeError>(ValueModel::Array(seq![key, ValueModel::Array(non_pk)])),
        row_sources(d, key) == Some(srcs),
        srcs.len() == d.schema@.len(),
    ensures
        spec_scan_row(d, schema_column_types(d.schema@), pk, blob) == Some(
            Seq::new(
                d.schema@.len(),
                |c: int| match source_value(srcs[c], pk, non_pk) {
                    Some(v) => column_cell(d.schema@[c], v),
                    None => CellModel::Null,
                },
            ),
        ),
{
    let a = seq![key, ValueModel::Array(non_pk)];
    assert(a.len() == 2 && a[0] == key && a[1] == ValueModel::Array(non_pk));
    let got = Seq::new(d.schema@.len(), |c: int| spec_cell(
        schema_column_types(d.schema@)[c],
        is_geometry_column(d.schema@[c]),
        source_value(srcs[c], pk, non_pk),
    ));
    let want = Seq::new(d.schema@.len(), |c: int| match source_value(srcs[c], pk, non_pk) {
        Some(v) => column_cell(d.schema@[c], v),
        None => CellModel::Null,
    });
    assert(got =~= want);
}

/// The contents of a row of cells.
pub open spec fn cell_models<'a>(cells: Seq<Cell<'a>>) -> Seq<CellModel> {
    cells.map_values(|c: Cell<'a>| c.model())
}

/// The legend that gives the column sources of a feature with legend key `key`.
fn row_legend<'b>(dataset: &'b Dataset, key: &Value) -> (r: Option<&'b CompiledLegend>)
    ensures
        match row_sources(*dataset, key.model()) {
            Some(srcs) => r matches Some(c) && c.sources@ == srcs,
            None => r is None,
        },
        dataset.wf() && r is Some ==> r->Some_0.sources@.len() == dataset.schema@.len(),
{
    match &dataset.single_legend {
        Some(sl) => Some(sl),
        None => {
            let empty = "";
            proof {
                reveal_strlit("");
                assert(empty@ =~= Seq::<char>::empty());
            }
            let hash = match key.as_str() {
                Some(h) => h,
                None => empty,
            };
            dataset.legend(hash)
        },
    }
}

/// The cells of a row whose columns take their values by `sources` from
/// the first `pk_count` primary-key values and from `non_pk_values`.
fn row_cells<'a>(
    dataset: &Dataset,
    col_types: &Vec<duckdb_type>,
    sources: &CompiledLegend,
    pk_vals: &[Value<'a>; 4],
    pk_count: usize,
    non_pk_values: &[Value<'a>],
) -> (cells: Vec<Cell<'a>>)
    requires
        col_types@.len() == dataset.schema@.len(),
        sources.sources@.len() == dataset.schema@.len(),
        pk_count <= 4,
    ensures
        cell_models(cells@) == Seq::new(dataset.schema@.len(), |c: int| spec_cell(
            col_types@[c],
            is_geometry_column(dataset.schema@[c]),
            source_value(
                sources.sources@[c],
                Seq::new(pk_count as nat, |i: int| pk_vals@[i].model()),
                models(non_pk_values@),
            ),
        )),
{
    let ghost srcs = sources.sources@;
    let ghost pk = Seq::new(pk_count as nat, |i: int| pk_vals@[i].model());
    let ghost non_pk = models(non_pk_values@);
    proof {
        crate::kart::lemma_models_index(non_pk_values@);
    }
    let num_cols = dataset.schema.len();
    let mut cells: Vec<Cell<'a>> = Vec::new();
    let mut col_idx: usize = 0;
    while col_idx < num_cols
        invariant
            col_idx <= num_cols,
            num_cols == dataset.schema@.len(),
            col_types@.len() == num_cols,
            srcs == sources.sources@,
            srcs.len() == num_cols,
            pk_count <= 4,
            pk == Seq::new(pk_count as nat, |i: int| pk_vals@[i].model()),
            non_pk == models(non_pk_values@),
            non_pk.len() == non_pk_values@.len(),
            forall|j: int| 0 <= j < non_pk_values@.len() ==> #[trigger] non_pk[j] == non_pk_values@[j].model(),
            cells@.len() == col_idx,
            forall|c: int| 0 <= c < col_idx ==> (#[trigger] cells@[c]).model() == spec_cell(
                col_types@[c],
                is_geometry_column(dataset.schema@[c]),
                source_value(srcs[c], pk, non_pk),
            ),
        decreases num_cols - col_idx,
    {
        let v: Option<&Value<'a>> = match sources.sources[col_idx] {
            ColumnSource::Pk(idx) => if idx < pk_count {
                Some(&pk_vals[idx])
            } else {
                None
            },
            ColumnSource::NonPk(idx) => if idx < non_pk_values.len() {
                Some(&non_pk_values[idx])
            } else {
                None
            },
            ColumnSource::NotFound => None,
        };
        let geometry = str_eq(dataset.schema[col_idx].data_type.as_str(), "geometry");
        let cell = value_cell(col_types[col_idx], geometry, v);
        cells.push(cell);
        col_idx = col_idx + 1;
    }
    proof {
        let expected = Seq::new(dataset.schema@.len(), |c: int| spec_cell(
            col_types@[c],
            is_geometry_column(dataset.schema@[c]),
            source_value(srcs[c], pk, non_pk),
        ));
        assert(cell_models(cells@) =~= expected);
    }
    cells
}

/// Converts one feature into the cells of its result row. The primary-key
/// values are decoded from the feature's file name into `pk_buf`; `blob`
/// holds the feature's other values. `None` when the row is to be NULL.
pub fn scan_row<'a>(
    dataset: &Dataset,
    col_types: &Vec<duckdb_type>,
    filename: &str,
    pk_buf: &'a mut [u8],
    blob: &'a [u8],
) -> (r: Option<Vec<Cell<'a>>>)
    requires
        dataset.wf(),
        col_types@.len() == dataset.schema@.len(),
    ensures
        final(pk_buf)@ == spec_base64_buffer_after(filename.spec_bytes(), old(pk_buf)@),
        match spec_scan_row(*dataset, col_types@, scan_pk_values(filename.spec_bytes(), old(pk_buf)@.len()), blob@) {
            Some(cells) => r matches Some(v) && cell_models(v@) == cells,
            None => r is None,
        },
{
    let ghost pk = scan_pk_values(filename.spec_bytes(), old(pk_buf)@.len());
    let mut pk_vals: [Value<'a>; 4] = [Value::Nil, Value::Nil, Value::Nil, Value::Nil];
    let pk_count = match decode_pk_into(filename, pk_buf, &mut pk_vals) {
        Ok(n) => n,
        Err(_) => 0,
    };
    assert(Seq::new(pk_count as nat, |i: int| pk_vals@[i].model()) =~= pk);
    let unpacked = match decode(blob) {
        Ok(v) => v,
        Err(_) => return None,
    };
    let arr = match unpacked.as_array() {
        Some(a) => a,
        None => return None,
    };
    proof {
        crate::kart::lemma_models_index(arr@);
    }
    if arr.len() != 2 {
        return None;
    }
    let non_pk_values = match arr[1].as_array() {
        Some(a) => a,
        None => return None,
    };
    let compiled = match row_legend(dataset, &arr[0]) {
        Some(c) => c,
        None => return None,
    };
    Some(row_cells(dataset, col_types, compiled, &pk_vals, pk_count, non_pk_values))
}

} // verus!
