//! Materialization of constant partition columns into record batches.
//!
//! A partition column is constant over a whole file group, so it is
//! materialized as a dictionary array with a single dictionary value and
//! an all-zero key buffer. The [`ZeroBufferCache`] reuses one zero-filled
//! buffer per key width across batches, so that adding a constant column
//! costs space proportional to the batch size, not to the total row count.

use vstd::prelude::*;

use crate::batch::{
    constant_column, index_width, spec_batch_wf, spec_column_rows, spec_column_value,
    spec_column_wf, spec_constant_column, spec_index_width, spec_is_index_type, ColumnArray,
    ColumnArrayV, RecordBatch,
};
use crate::bytes::{lemma_le_bytes_zero, spec_le_bytes};
use crate::error::ScanError;
use crate::scalar::{spec_scalar_data_type, ScalarValue, ScalarValueV};
use crate::schema::{lemma_field_index_props, spec_field_index, Schema, SchemaV, DataType};

verus! {

/// Cache slot index of a dictionary key type, one slot per integer width
/// and signedness; meaningful only for index types.
pub open spec fn spec_key_tag(dt: DataType) -> int {
    match dt {
        DataType::Int8 => 0,
        DataType::Int16 => 1,
        DataType::Int32 => 2,
        DataType::Int64 => 3,
        DataType::UInt8 => 4,
        DataType::UInt16 => 5,
        DataType::UInt32 => 6,
        DataType::UInt64 => 7,
        _ => 8,
    }
}

/// Cache slot index of a dictionary key type.
pub fn key_tag(dt: &DataType) -> (r: usize)
    ensures
        r as int == spec_key_tag(*dt),
{
    match dt {
        DataType::Int8 => 0,
        DataType::Int16 => 1,
        DataType::Int32 => 2,
        DataType::Int64 => 3,
        DataType::UInt8 => 4,
        DataType::UInt16 => 5,
        DataType::UInt32 => 6,
        DataType::UInt64 => 7,
        _ => 8,
    }
}

/// A reusable all-zero buffer per dictionary key width: one slot per
/// integer width and signedness, each holding at most one cached buffer.
pub struct ZeroBufferCache {
    pub slots: Vec<Option<Vec<u8>>>,
}

/// Model of a cache: the cached buffer contents per slot.
pub open spec fn spec_cache_view(c: &ZeroBufferCache) -> Seq<Option<Seq<u8>>> {
    c.slots@.map_values(
        |s: Option<Vec<u8>>|
            match s {
                Some(b) => Some(b@),
                None => None,
            },
    )
}

impl View for ZeroBufferCache {
    type V = Seq<Option<Seq<u8>>>;

    open spec fn view(&self) -> Seq<Option<Seq<u8>>> {
        spec_cache_view(self)
    }
}

/// Length of a cache slot's buffer; zero when the slot is empty.
pub open spec fn spec_slot_len(c: Seq<Option<Seq<u8>>>, t: int) -> int {
    match c[t] {
        Some(b) => b.len() as int,
        None => 0,
    }
}

/// Whether slot `t` holds a cached buffer of at least `n` bytes.
pub open spec fn spec_slot_covers(c: Seq<Option<Seq<u8>>>, t: int, n: int) -> bool {
    match c[t] {
        Some(b) => b.len() >= n,
        None => false,
    }
}

/// Byte `j` of the buffer in slot `t`.
pub open spec fn spec_slot_byte(c: Seq<Option<Seq<u8>>>, t: int, j: int) -> u8 {
    match c[t] {
        Some(b) => b[j],
        None => 0,
    }
}

/// Slot `t` holds nothing, or a buffer of zeros only.
pub open spec fn spec_slot_zeroed(c: Seq<Option<Seq<u8>>>, t: int) -> bool {
    forall|j: int| 0 <= j < spec_slot_len(c, t) ==> #[trigger] spec_slot_byte(c, t, j) == 0
}

/// Well-formedness of a cache: one slot per key tag, and every cached
/// buffer holds only zeros.
pub open spec fn spec_cache_wf(c: Seq<Option<Seq<u8>>>) -> bool {
    &&& c.len() == 8
    &&& forall|t: int| 0 <= t < 8 ==> #[trigger] spec_slot_zeroed(c, t)
}

/// An all-zero byte buffer of the given length.
pub fn zero_bytes(len: usize) -> (r: Vec<u8>)
    ensures
        r@.len() == len,
        forall|j: int| 0 <= j < len ==> r@[j] == 0,
{
    let mut r: Vec<u8> = Vec::new();
    let mut i: usize = 0;
    while i < len
        invariant
            i <= len,
            r@.len() == i,
            forall|j: int| 0 <= j < i ==> r@[j] == 0,
        decreases len - i,
    {
        r.push(0);
        i = i + 1;
    }
    r
}

impl ZeroBufferCache {
    /// An empty cache: eight empty slots.
    pub fn new() -> (r: ZeroBufferCache)
        ensures
            spec_cache_wf(r@),
            forall|t: int| 0 <= t < 8 ==> spec_slot_len(r@, t) == 0,
    {
        let mut slots: Vec<Option<Vec<u8>>> = Vec::new();
        let mut i: usize = 0;
        while i < 8
            invariant
                i <= 8,
                slots@.len() == i,
                forall|j: int| 0 <= j < i ==> slots@[j] is None,
            decreases 8 - i,
        {
            slots.push(None);
            i = i + 1;
        }
        let r = ZeroBufferCache { slots };
        proof {
            assert forall|t: int| 0 <= t < 8 implies r@[t] is None by {
                assert(r@[t] == (match r.slots@[t] {
                    Some(b) => Some(b@),
                    None => None::<Seq<u8>>,
                }));
            }
        }
        r
    }

    /// An all-zero buffer of `n_bytes` bytes for the slot `tag`.
    ///
    /// When the cached buffer already covers `n_bytes`, a prefix of it is
    /// returned and the cache is left unchanged; otherwise a buffer of
    /// exactly `n_bytes` is allocated and replaces the slot's previous
    /// content. The slot's length therefore never shrinks.
    pub fn get_buffer(&mut self, tag: usize, n_bytes: usize) -> (r: Vec<u8>)
        requires
            spec_cache_wf(old(self)@),
            tag < 8,
        ensures
            spec_cache_wf(final(self)@),
            r@.len() == n_bytes,
            forall|j: int| 0 <= j < r@.len() ==> r@[j] == 0,
            forall|t: int| 0 <= t < 8 && t != tag ==> final(self)@[t] == old(self)@[t],
            spec_slot_covers(old(self)@, tag as int, n_bytes as int) ==> final(self)@ == old(
                self,
            )@,
            spec_slot_len(final(self)@, tag as int) == if spec_slot_covers(
                old(self)@,
                tag as int,
                n_bytes as int,
            ) {
                spec_slot_len(old(self)@, tag as int)
            } else {
                n_bytes as int
            },
    {
        let hit = match &self.slots[tag] {
            Some(b) => b.len() >= n_bytes,
            None => false,
        };
        if hit {
            let r = match &self.slots[tag] {
                Some(b) => {
                    proof {
                        assert(old(self)@[tag as int] == Some(b@));
                        assert(spec_slot_zeroed(old(self)@, tag as int));
                    }
                    let r2 = crate::bytes::subvec(b, 0, n_bytes);
                    proof {
                        assert forall|j: int| 0 <= j < r2@.len() implies r2@[j] == 0 by {
                            assert(spec_slot_byte(old(self)@, tag as int, j) == b@[j]);
                            assert(r2@[j] == b@[j]);
                        }
                    }
                    r2
                },
                None => vstd::pervasive::unreached(),
            };
            r
        } else {
            let fresh = zero_bytes(n_bytes);
            let r = crate::bytes::clone_bytes(&fresh);
            self.slots.set(tag, Some(fresh));
            proof {
                assert forall|t: int| 0 <= t < 8 && t != tag implies self@[t] == old(self)@[t] by {
                    assert(self.slots@[t] == old(self).slots@[t]);
                }
                assert(self@[tag as int] matches Some(b) && b.len() == n_bytes);
                assert forall|t: int| 0 <= t < 8 implies spec_slot_zeroed(self@, t) by {
                    if t != tag {
                        assert(spec_slot_zeroed(old(self)@, t));
                        assert forall|j: int| 0 <= j < spec_slot_len(self@, t) implies #[trigger]
                        spec_slot_byte(self@, t, j) == 0 by {
                            assert(spec_slot_byte(self@, t, j) == spec_slot_byte(old(self)@, t, j));
                        }
                    } else {
                        assert forall|j: int| 0 <= j < spec_slot_len(self@, t) implies #[trigger]
                        spec_slot_byte(self@, t, j) == 0 by {
                            assert(self@[t] matches Some(bb) && bb[j] == 0);
                        }
                    }
                }
            }
            r
        }
    }
}

/// The value each output row shows: the dictionary value of an
/// index-keyed dictionary scalar, else the scalar itself.
pub open spec fn spec_projected_cell(v: ScalarValueV) -> ScalarValueV {
    match v {
        ScalarValueV::Dictionary(k, dv) => if spec_is_index_type(k) {
            *dv
        } else {
            v
        },
        _ => v,
    }
}

/// The column materialized for a constant `v` over `len` rows: an
/// index-keyed dictionary scalar becomes a one-entry dictionary indexed
/// by an all-zero key buffer; anything else becomes a plain constant
/// column.
pub open spec fn spec_output_array(v: ScalarValueV, len: int) -> ColumnArrayV {
    match v {
        ScalarValueV::Dictionary(k, dv) => if spec_is_index_type(k) {
            ColumnArrayV::Dictionary {
                key_type: k,
                keys: Seq::new((len * spec_index_width(k)) as nat, |i: int| 0u8),
                values: Box::new(
                    ColumnArrayV::Plain {
                        data_type: spec_scalar_data_type(*dv),
                        values: seq![*dv],
                    },
                ),
            }
        } else {
            spec_constant_column(v, len)
        },
        _ => spec_constant_column(v, len),
    }
}

/// An output array is well formed, holds `len` rows, and shows the
/// projected cell value in every row.
pub proof fn lemma_output_array_properties(v: ScalarValueV, len: int)
    requires
        len >= 0,
    ensures
        spec_column_wf(spec_output_array(v, len)),
        spec_column_rows(spec_output_array(v, len)) == len,
        forall|row: int|
            0 <= row < len ==> spec_column_value(spec_output_array(v, len), row)
                == spec_projected_cell(v),
{
    let out = spec_output_array(v, len);
    match v {
        ScalarValueV::Dictionary(k, dv) => {
            if spec_is_index_type(k) {
                let w = spec_index_width(k);
                assert(len * w >= 0) by (nonlinear_arith)
                    requires
                        len >= 0,
                        w > 0,
                ;
                let keys = out->Dictionary_keys;
                assert(keys.len() == len * w);
                assert(keys.len() as int % w == 0 && keys.len() as int / w == len)
                    by (nonlinear_arith)
                    requires
                        keys.len() == len * w,
                        w > 0,
                        len >= 0,
                ;
                assert(forall|x: int| 0 <= x < keys.len() ==> #[trigger] keys[x] == 0);
                assert forall|row: int| 0 <= row < len implies crate::batch::spec_dict_key(
                    keys,
                    w,
                    row,
                ) == 0 by {
                    assert(0 <= row * w && (row + 1) * w == row * w + w && (row + 1) * w
                        <= keys.len()) by (nonlinear_arith)
                        requires
                            0 <= row < len,
                            w > 0,
                            keys.len() == len * w,
                    ;
                    let slice = keys.subrange(row * w, (row + 1) * w);
                    assert forall|j: int| 0 <= j < slice.len() implies slice[j] == 0 by {
                        assert(slice[j] == keys[row * w + j]);
                    }
                    lemma_le_bytes_zero(slice);
                }
                assert(spec_column_rows(out) == len);
                assert(out matches ColumnArrayV::Dictionary { key_type: kk, keys: ks, values: vs }
                    && kk == k && ks == keys);
                assert(spec_column_rows(*out->Dictionary_values) == 1);
                assert(spec_column_wf(*out->Dictionary_values));
                assert forall|row: int|
                    0 <= row < keys.len() as int / w implies crate::batch::spec_dict_key(
                        keys,
                        w,
                        row,
                    ) < spec_column_rows(*out->Dictionary_values) by {
                    assert(crate::batch::spec_dict_key(keys, w, row) == 0);
                }
                assert(spec_column_wf(out));
                assert forall|row: int| 0 <= row < len implies spec_column_value(out, row)
                    == spec_projected_cell(v) by {
                    assert(spec_column_value(out, row) == spec_column_value(
                        ColumnArrayV::Plain {
                            data_type: spec_scalar_data_type(*dv),
                            values: seq![*dv],
                        },
                        0,
                    ));
                }
            }
        },
        _ => {},
    }
}

/// Materialize the constant `val` over `len` rows, taking the key buffer
/// of a dictionary-encoded constant from the cache.
pub fn create_output_array(cache: &mut ZeroBufferCache, val: &ScalarValue, len: usize) -> (r:
    ColumnArray)
    requires
        spec_cache_wf(old(cache)@),
        len * 8 <= usize::MAX,
    ensures
        spec_cache_wf(final(cache)@),
        r@ == spec_output_array(val@, len as int),
        forall|t: int|
            0 <= t < 8 ==> spec_slot_len(final(cache)@, t) >= spec_slot_len(old(cache)@, t),
{
    match val {
        ScalarValue::Dictionary(key_type, dict_val) => {
            let w = index_width(key_type);
            if w > 0 {
                let tag = key_tag(key_type);
                proof {
                    assert(len * (w as int) <= len * 8) by (nonlinear_arith)
                        requires
                            0 < w as int <= 8,
                            len >= 0,
                    ;
                }
                let n_bytes = len * w;
                let keys = cache.get_buffer(tag, n_bytes);
                let mut dict_vals: Vec<ScalarValue> = Vec::new();
                dict_vals.push((**dict_val).clone());
                let values = ColumnArray::Plain { data_type: dict_val.data_type(), values: dict_vals };
                let r = ColumnArray::Dictionary {
                    key_type: (**key_type).clone(),
                    keys,
                    values: Box::new(values),
                };
                proof {
                    reveal_with_fuel(crate::batch::spec_column_view, 3);
                    let expect = spec_output_array(val@, len as int);
                    assert(val@ matches ScalarValueV::Dictionary(kv, dvv) && kv == **key_type
                        && dvv == Box::new(dict_val@));
                    assert(expect matches ColumnArrayV::Dictionary { keys: eks, .. } && eks.len()
                        == len * spec_index_width(**key_type));
                    assert(r@ matches ColumnArrayV::Dictionary { keys: rks, .. } && rks == keys@);
                    assert(r@->Dictionary_keys =~= expect->Dictionary_keys) by {
                        assert forall|j: int|
                            0 <= j < expect->Dictionary_keys.len() implies r@->Dictionary_keys[j]
                            == expect->Dictionary_keys[j] by {
                            assert(keys@[j] == 0);
                        }
                    }
                    assert((*r@->Dictionary_values)->Plain_values =~= (
                    *expect->Dictionary_values)->Plain_values);
                    assert(r@ =~~= expect);
                }
                r
            } else {
                constant_column(val, len)
            }
        },
        _ => {
            constant_column(val, len)
        },
    }
}


/// Mathematical model of a [`PartitionColumnProjector`].
#[verifier::ext_equal]
pub struct PartitionColumnProjectorV {
    pub cache: Seq<Option<Seq<u8>>>,
    pub map: Seq<(usize, usize)>,
    pub schema: SchemaV,
}

/// Inserts the constant partition columns into each batch read from a
/// file, at the positions the projected schema gives them.
pub struct PartitionColumnProjector {
    /// Zero-filled key buffers reused across batches.
    pub key_buffer_cache: ZeroBufferCache,
    /// Pairs `(partition column index, target schema index)`, sorted by
    /// target schema index.
    pub projected_partition_indexes: Vec<(usize, usize)>,
    /// The schema of the output batches: file and partition columns.
    pub projected_schema: Schema,
}

impl View for PartitionColumnProjector {
    type V = PartitionColumnProjectorV;

    open spec fn view(&self) -> PartitionColumnProjectorV {
        PartitionColumnProjectorV {
            cache: self.key_buffer_cache@,
            map: self.projected_partition_indexes@,
            schema: self.projected_schema@,
        }
    }
}

/// The pairs are strictly ascending in their target schema index.
pub open spec fn spec_map_sorted(map: Seq<(usize, usize)>) -> bool {
    forall|a: int, b: int|
        0 <= a < b < map.len() ==> (#[trigger] map[a]).1 < (#[trigger] map[b]).1
}

/// Well-formedness of a projector: a zeroed cache, and a map of pairs
/// strictly ascending in target index, each within the schema.
pub open spec fn spec_projector_wf(p: PartitionColumnProjectorV) -> bool {
    &&& spec_cache_wf(p.cache)
    &&& spec_map_sorted(p.map)
    &&& forall|j: int| 0 <= j < p.map.len() ==> (#[trigger] p.map[j]).1 < p.schema.fields.len()
}

/// In a strictly ascending map, the target index grows at least as fast
/// as the position.
pub proof fn lemma_sorted_lower(map: Seq<(usize, usize)>, j: int)
    requires
        spec_map_sorted(map),
        0 <= j < map.len(),
    ensures
        map[j].1 as int >= j,
    decreases j,
{
    if j > 0 {
        lemma_sorted_lower(map, j - 1);
        assert(map[j - 1].1 < map[j].1);
    }
}

/// In a strictly ascending map bounded by `nf`, position `j` cannot point
/// past `nf - map.len() + j`.
pub proof fn lemma_sorted_upper(map: Seq<(usize, usize)>, nf: int, j: int)
    requires
        spec_map_sorted(map),
        forall|i: int| 0 <= i < map.len() ==> (#[trigger] map[i]).1 < nf,
        0 <= j < map.len(),
    ensures
        map[j].1 as int <= nf - map.len() + j,
    decreases map.len() - j,
{
    if j < map.len() - 1 {
        lemma_sorted_upper(map, nf, j + 1);
        assert(map[j].1 < map[j + 1].1);
    }
}

/// Whether some of the first `upto` pairs target schema position `s`.
pub open spec fn spec_is_mapped_upto(map: Seq<(usize, usize)>, upto: int, s: int) -> bool {
    exists|j: int| 0 <= j < upto && j < map.len() && (#[trigger] map[j]).1 as int == s
}

/// Whether some pair targets schema position `s`.
pub open spec fn spec_is_mapped(map: Seq<(usize, usize)>, s: int) -> bool {
    spec_is_mapped_upto(map, map.len() as int, s)
}

/// How many of the first `upto` pairs target a schema position below `s`.
pub open spec fn spec_mapped_below(map: Seq<(usize, usize)>, upto: int, s: int) -> int
    decreases upto,
{
    if upto <= 0 {
        0
    } else {
        spec_mapped_below(map, upto - 1, s) + if 0 <= upto - 1 < map.len() && (map[upto - 1].1
            as int) < s {
            1int
        } else {
            0int
        }
    }
}


/// When every pair of the prefix targets a position below `s`, the count
/// is the whole prefix.
pub proof fn lemma_mapped_below_all(map: Seq<(usize, usize)>, upto: int, s: int)
    requires
        0 <= upto <= map.len(),
        forall|j: int| 0 <= j < upto ==> ((#[trigger] map[j]).1 as int) < s,
    ensures
        spec_mapped_below(map, upto, s) == upto,
    decreases upto,
{
    if upto > 0 {
        lemma_mapped_below_all(map, upto - 1, s);
    }
}

/// The value actually materialized for a partition column: a value that
/// is not dictionary-encoded while the target field expects a dictionary
/// is wrapped in a dictionary envelope with the field's key type.
pub open spec fn spec_effective_value(ft: DataType, v: ScalarValueV) -> ScalarValueV {
    match ft {
        DataType::Dictionary(k, _) => if !(v is Dictionary) {
            ScalarValueV::Dictionary(*k, Box::new(v))
        } else {
            v
        },
        _ => v,
    }
}

impl PartitionColumnProjector {
    /// A projector for `projected_schema`, given the names of all the
    /// partition columns (which must be pairwise distinct). A partition
    /// column absent from the schema — projected away — is silently
    /// omitted and will contribute no column to any batch.
    pub fn new(projected_schema: Schema, table_partition_cols: &Vec<Vec<u8>>) -> (r: Self)
        requires
            forall|a: int, b: int|
                0 <= a < b < table_partition_cols@.len() ==> table_partition_cols@[a]@
                    != table_partition_cols@[b]@,
        ensures
            r@.schema == projected_schema@,
            spec_projector_wf(r@),
            forall|t: int| 0 <= t < 8 ==> spec_slot_len(r@.cache, t) == 0,
            forall|j: int|
                0 <= j < r@.map.len() ==> (#[trigger] r@.map[j]).0 < table_partition_cols@.len()
                    && spec_field_index(
                    projected_schema@.fields,
                    table_partition_cols@[r@.map[j].0 as int]@,
                ) == Some(r@.map[j].1 as int),
            forall|p: int|
                0 <= p < table_partition_cols@.len() && spec_field_index(
                    projected_schema@.fields,
                    #[trigger] table_partition_cols@[p]@,
                ) is Some ==> spec_has_pair(r@.map, p),
    {
        let ghost fieldsv = projected_schema@.fields;
        let mut map: Vec<(usize, usize)> = Vec::new();
        let mut pidx: usize = 0;
        while pidx < table_partition_cols.len()
            invariant
                pidx <= table_partition_cols.len(),
                fieldsv == projected_schema@.fields,
                forall|a: int, b: int|
                    0 <= a < b < table_partition_cols@.len() ==> table_partition_cols@[a]@
                        != table_partition_cols@[b]@,
                spec_map_sorted(map@),
                forall|j: int|
                    0 <= j < map@.len() ==> (#[trigger] map@[j]).0 < pidx && spec_field_index(
                        fieldsv,
                        table_partition_cols@[map@[j].0 as int]@,
                    ) == Some(map@[j].1 as int) && (map@[j].1 as int) < fieldsv.len(),
                forall|p: int|
                    0 <= p < pidx && spec_field_index(
                        fieldsv,
                        #[trigger] table_partition_cols@[p]@,
                    ) is Some ==> spec_has_pair(map@, p),
            decreases table_partition_cols.len() - pidx,
        {
            let namev = &table_partition_cols[pidx];
            match projected_schema.index_of(namev) {
                Some(sidx) => {
                    proof {
                        lemma_field_index_props(fieldsv, namev@);
                    }
                    let mut k: usize = 0;
                    while k < map.len() && map[k].1 < sidx
                        invariant
                            k <= map@.len(),
                            forall|j: int| 0 <= j < k ==> ((#[trigger] map@[j]).1 as int) < sidx as int,
                        decreases map@.len() - k,
                    {
                        k = k + 1;
                    }
                    proof {
                        let ghost old_map = map@;
                        if k < map.len() {
                            assert(map@[k as int].1 >= sidx);
                            if map@[k as int].1 == sidx {
                                let p0 = map@[k as int].0;
                                assert(spec_field_index(
                                    fieldsv,
                                    table_partition_cols@[p0 as int]@,
                                ) == Some(sidx as int));
                                lemma_field_index_props(
                                    fieldsv,
                                    table_partition_cols@[p0 as int]@,
                                );
                                assert(fieldsv[sidx as int].name == table_partition_cols@[
                                    p0 as int
                                ]@);
                                assert(fieldsv[sidx as int].name == namev@);
                                assert(table_partition_cols@[p0 as int]@ == table_partition_cols@[
                                    pidx as int
                                ]@);
                                assert(false);
                            }
                        }
                        old_map.insert_ensures(k as int, (pidx, sidx));
                    }
                    let ghost pre = map@;
                    let ghost kk = k as int;
                    map.insert(k, (pidx, sidx));
                    proof {
                        assert(map@ == pre.insert(kk, (pidx, sidx)));
                        assert forall|a: int, b: int|
                            0 <= a < b < map@.len() implies (#[trigger] map@[a]).1 < (
                        #[trigger] map@[b]).1 by {
                            if b < kk {
                                assert(map@[a] == pre[a] && map@[b] == pre[b]);
                            } else if a < kk && b == kk {
                                assert(map@[a] == pre[a]);
                            } else if a < kk && b > kk {
                                assert(map@[a] == pre[a] && map@[b] == pre[b - 1]);
                                if b - 1 >= kk {
                                    assert(pre[b - 1].1 >= sidx);
                                }
                            } else if a == kk && b > kk {
                                assert(map@[b] == pre[b - 1]);
                                assert(pre[b - 1].1 >= sidx && pre[b - 1].1 != sidx);
                            } else {
                                assert(map@[a] == pre[a - 1] && map@[b] == pre[b - 1]);
                            }
                        }
                        assert forall|j: int|
                            0 <= j < map@.len() implies (#[trigger] map@[j]).0 < pidx + 1
                                && spec_field_index(
                                fieldsv,
                                table_partition_cols@[map@[j].0 as int]@,
                            ) == Some(map@[j].1 as int) && (map@[j].1 as int) < fieldsv.len() by {
                            if j < kk {
                                assert(map@[j] == pre[j]);
                            } else if j == kk {
                                assert(map@[j] == (pidx, sidx));
                            } else {
                                assert(map@[j] == pre[j - 1]);
                            }
                        }
                        assert forall|p: int|
                            0 <= p < pidx + 1 && spec_field_index(
                                fieldsv,
                                #[trigger] table_partition_cols@[p]@,
                            ) is Some implies spec_has_pair(map@, p) by {
                            if p == pidx {
                                assert(map@[kk].0 == p);
                            } else {
                                let j = choose|j: int|
                                    0 <= j < pre.len() && (#[trigger] pre[j]).0 == p;
                                if j < kk {
                                    assert(map@[j].0 == p);
                                } else {
                                    assert(map@[j + 1] == pre[j]);
                                    assert(map@[j + 1].0 == p);
                                }
                            }
                        }
                    }
                },
                None => {
                },
            }
            pidx = pidx + 1;
        }
        PartitionColumnProjector {
            key_buffer_cache: ZeroBufferCache::new(),
            projected_partition_indexes: map,
            projected_schema,
        }
    }
}

/// Whether some pair carries partition column index `p`.
pub open spec fn spec_has_pair(map: Seq<(usize, usize)>, p: int) -> bool {
    exists|j: int| 0 <= j < map.len() && (#[trigger] map[j]).0 == p
}


impl PartitionColumnProjector {
    /// Insert the constant partition columns into `file_batch` at the
    /// positions the projected schema gives them.
    ///
    /// The batch must carry exactly the file columns — the projected
    /// width minus the mapped partition columns — else a width-mismatch
    /// error is returned and nothing changes. On success, each mapped
    /// target position holds the materialized constant (dictionary
    /// encoded when the target field asks for it, with the value
    /// auto-wrapped when the caller forgot to), and every other position
    /// holds the corresponding file column, in order. Only the key-buffer
    /// cache is mutated, and its slots never shrink.
    pub fn project(
        &mut self,
        file_batch: RecordBatch,
        partition_values: &Vec<ScalarValue>,
    ) -> (r: Result<RecordBatch, ScanError>)
        requires
            spec_projector_wf(old(self)@),
            spec_batch_wf(file_batch@),
            forall|j: int|
                0 <= j < old(self)@.map.len() ==> (#[trigger] old(self)@.map[j]).0
                    < partition_values@.len(),
            file_batch@.row_count * 8 <= usize::MAX,
        ensures
            final(self)@.map == old(self)@.map,
            final(self)@.schema == old(self)@.schema,
            spec_projector_wf(final(self)@),
            forall|t: int|
                0 <= t < 8 ==> spec_slot_len(final(self)@.cache, t) >= spec_slot_len(
                    old(self)@.cache,
                    t,
                ),
            r is Ok <==> file_batch@.columns.len() == old(self)@.schema.fields.len() - old(
                self,
            )@.map.len(),
            r matches Err(e) ==> {
                &&& final(self)@ == old(self)@
                &&& match e {
                    ScanError::BatchWidthMismatch { expected, actual } => expected as int == old(
                        self,
                    )@.schema.fields.len() - old(self)@.map.len() && actual as int
                        == file_batch@.columns.len(),
                    _ => false,
                }
            },
            r matches Ok(b) ==> {
                let map = old(self)@.map;
                let fields = old(self)@.schema.fields;
                let rows = file_batch@.row_count;
                &&& b@.schema == old(self)@.schema
                &&& b@.row_count == rows
                &&& spec_batch_wf(b@)
                &&& b@.columns.len() == fields.len()
                &&& forall|j: int|
                    0 <= j < map.len() ==> b@.columns[(#[trigger] map[j]).1 as int]
                        == spec_output_array(
                        spec_effective_value(
                            fields[map[j].1 as int].data_type,
                            partition_values@[map[j].0 as int]@,
                        ),
                        rows as int,
                    )
                &&& forall|s: int|
                    0 <= s < fields.len() && !spec_is_mapped(map, s) ==> #[trigger] b@.columns[s]
                        == file_batch@.columns[s - spec_mapped_below(map, map.len() as int, s)]
            },
    {
        let ghost mapg = self@.map;
        let ghost fieldsg = self@.schema.fields;
        let n = self.projected_schema.fields.len();
        let m = self.projected_partition_indexes.len();
        proof {
            if m > 0 {
                lemma_sorted_lower(mapg, m - 1);
            }
        }
        let expected_cols = n - m;
        if file_batch.num_columns() != expected_cols {
            return Err(
                ScanError::BatchWidthMismatch {
                    expected: expected_cols,
                    actual: file_batch.num_columns(),
                },
            );
        }
        let rows = file_batch.num_rows();
        let ghost orig = file_batch@.columns;
        let mut cols = file_batch.columns;
        proof {
            assert forall|s: int| 0 <= s < cols@.len() implies #[trigger] cols@[s]@ == orig[s] by {
                assert(orig[s] == cols@[s]@);
            }
        }
        let mut j: usize = 0;
        while j < m
            invariant
                j <= m,
                m == mapg.len(),
                n == fieldsg.len(),
                rows as int == spec_column_rows(orig[0]) || orig.len() == 0,
                rows * 8 <= usize::MAX,
                mapg == self@.map,
                fieldsg == self@.schema.fields,
                self@.map == old(self)@.map,
                self@.schema == old(self)@.schema,
                spec_map_sorted(mapg),
                forall|i: int| 0 <= i < mapg.len() ==> ((#[trigger] mapg[i]).1 as int) < n,
                forall|i: int|
                    0 <= i < mapg.len() ==> ((#[trigger] mapg[i]).0 as int)
                        < partition_values@.len(),
                spec_cache_wf(self@.cache),
                forall|t: int|
                    0 <= t < 8 ==> spec_slot_len(self@.cache, t) >= spec_slot_len(
                        old(self)@.cache,
                        t,
                    ),
                orig.len() == n - m,
                forall|s: int|
                    0 <= s < orig.len() ==> spec_column_wf(#[trigger] orig[s])
                        && spec_column_rows(orig[s]) == rows as int,
                cols@.len() == n - m + j,
                forall|jj: int|
                    0 <= jj < j ==> cols@[(#[trigger] mapg[jj]).1 as int]@ == spec_output_array(
                        spec_effective_value(
                            fieldsg[mapg[jj].1 as int].data_type,
                            partition_values@[mapg[jj].0 as int]@,
                        ),
                        rows as int,
                    ),
                forall|s: int|
                    0 <= s < cols@.len() && !spec_is_mapped_upto(mapg, j as int, s)
                        ==> #[trigger] cols@[s]@ == orig[s - spec_mapped_below(mapg, j as int, s)],
                forall|s: int|
                    0 <= s < cols@.len() ==> spec_column_wf(#[trigger] cols@[s]@)
                        && spec_column_rows(cols@[s]@) == rows as int,
            decreases m - j,
        {
            let (pidx, sidx) = self.projected_partition_indexes[j];
            proof {
                assert((pidx, sidx) == mapg[j as int]);
                lemma_sorted_upper(mapg, n as int, j as int);
                assert(sidx as int <= n - m + j);
            }
            let field_expects_dict = matches!(
                &self.projected_schema.fields[sidx].data_type,
                DataType::Dictionary(..)
            );
            let value_is_dict = matches!(&partition_values[pidx], ScalarValue::Dictionary(..));
            let wrapped: ScalarValue = if field_expects_dict && !value_is_dict {
                match &self.projected_schema.fields[sidx].data_type {
                    DataType::Dictionary(k, _) => ScalarValue::Dictionary(
                        Box::new((**k).clone()),
                        Box::new(partition_values[pidx].clone()),
                    ),
                    _ => vstd::pervasive::unreached(),
                }
            } else {
                partition_values[pidx].clone()
            };
            proof {
                assert(self.projected_schema.fields@[sidx as int]@ == fieldsg[sidx as int]);
                assert(wrapped@ == spec_effective_value(
                    fieldsg[sidx as int].data_type,
                    partition_values@[pidx as int]@,
                ));
            }
            let arr = create_output_array(&mut self.key_buffer_cache, &wrapped, rows);
            proof {
                lemma_output_array_properties(wrapped@, rows as int);
            }
            let ghost pre = cols@;
            cols.insert(sidx, arr);
            proof {
                pre.insert_ensures(sidx as int, arr);
                let si = sidx as int;
                let jn = j as int + 1;
                assert(cols@ == pre.insert(si, arr));
                assert(cols@[si] == arr);
                assert forall|jj: int|
                    0 <= jj < jn implies cols@[(#[trigger] mapg[jj]).1 as int]@
                        == spec_output_array(
                        spec_effective_value(
                            fieldsg[mapg[jj].1 as int].data_type,
                            partition_values@[mapg[jj].0 as int]@,
                        ),
                        rows as int,
                    ) by {
                    if jj < j {
                        assert(mapg[jj].1 < mapg[j as int].1);
                        assert(cols@[mapg[jj].1 as int] == pre[mapg[jj].1 as int]);
                    } else {
                        assert(mapg[jj].1 as int == si);
                    }
                }
                assert forall|s: int|
                    0 <= s < cols@.len() && !spec_is_mapped_upto(mapg, jn, s)
                        implies #[trigger] cols@[s]@ == orig[s - spec_mapped_below(
                        mapg,
                        jn,
                        s,
                    )] by {
                    if s < si {
                        assert(cols@[s] == pre[s]);
                        assert(!spec_is_mapped_upto(mapg, j as int, s));
                        assert(spec_mapped_below(mapg, jn, s) == spec_mapped_below(
                            mapg,
                            j as int,
                            s,
                        ));
                    } else if s == si {
                        assert(spec_is_mapped_upto(mapg, jn, s));
                    } else {
                        assert(cols@[s] == pre[s - 1]);
                        assert forall|jj: int| 0 <= jj < j as int implies ((
                        #[trigger] mapg[jj]).1 as int) < s - 1 + 1 by {
                            assert(mapg[jj].1 < mapg[j as int].1);
                        }
                        assert(!spec_is_mapped_upto(mapg, j as int, s - 1));
                        assert(pre[s - 1]@ == orig[s - 1 - spec_mapped_below(
                            mapg,
                            j as int,
                            s - 1,
                        )]);
                        lemma_mapped_below_all(mapg, j as int, s - 1);
                        lemma_mapped_below_all(mapg, j as int, s);
                        assert(spec_mapped_below(mapg, jn, s) == j + 1);
                    }
                }
                assert forall|s: int|
                    0 <= s < cols@.len() implies spec_column_wf(#[trigger] cols@[s]@)
                        && spec_column_rows(cols@[s]@) == rows as int by {
                    if s < si {
                        assert(cols@[s] == pre[s]);
                    } else if s == si {
                        assert(cols@[s] == arr);
                    } else {
                        assert(cols@[s] == pre[s - 1]);
                    }
                }
            }
            j = j + 1;
        }
        let out_schema = self.projected_schema.clone();
        let b = RecordBatch { schema: out_schema, columns: cols, row_count: rows };
        proof {
            assert(b@.schema == old(self)@.schema);
            assert(b@.columns.len() == fieldsg.len());
            assert forall|s: int| 0 <= s < b@.columns.len() implies spec_column_wf(
                #[trigger] b@.columns[s],
            ) && spec_column_rows(b@.columns[s]) == b@.row_count as int by {
                assert(b@.columns[s] == cols@[s]@);
            }
            assert forall|jj: int|
                0 <= jj < mapg.len() implies b@.columns[(#[trigger] mapg[jj]).1 as int]
                    == spec_output_array(
                    spec_effective_value(
                        fieldsg[mapg[jj].1 as int].data_type,
                        partition_values@[mapg[jj].0 as int]@,
                    ),
                    rows as int,
                ) by {
                assert(b@.columns[mapg[jj].1 as int] == cols@[mapg[jj].1 as int]@);
            }
            assert forall|s: int|
                0 <= s < fieldsg.len() && !spec_is_mapped(mapg, s) implies #[trigger] b@.columns[s]
                    == orig[s - spec_mapped_below(mapg, mapg.len() as int, s)] by {
                assert(b@.columns[s] == cols@[s]@);
            }
        }
        Ok(b)
    }
}

} // verus!
