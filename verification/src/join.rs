//! Per-key join state: rows with match degrees, the ordered per-key entry,
//! the bounded cache of entries, and the join hash map that composes cache,
//! state table and degree table.

use vstd::prelude::*;

use crate::kvlist::KvList;
use crate::row::Row;
use crate::value::row_encoding;
use crate::state_table::EpochPair;
use crate::state_table::StateTable;
use crate::types::Datum;
use crate::types::DatumVal;
use crate::types::ScalarImpl;

verus! {

/// Largest degree a row may carry: the degree column is stored as a signed
/// 64-bit integer, never negative.
pub const MAX_DEGREE: u64 = 0x7FFFFFFFFFFFFFFF;

/// A failure inside the join state.
#[derive(Clone, Copy, Debug, PartialEq, Eq, Structural)]
pub enum JoinError {
    /// A degree column read back NULL: data corruption.
    NullDegree,
    /// A degree column read back negative: data corruption.
    NegativeDegree,
    /// A stored row failed to decode under the schema.
    Encoding,
    /// A probe tried to lower a degree already at zero: an invariant
    /// violation.
    DegreeUnderflow,
    /// A probe tried to raise a degree past what the degree column can
    /// store.
    DegreeOverflow,
}

/// The set bits of a `fixedbitset::FixedBitSet`, as a set of positions.
pub uninterp spec fn bitset_bits(s: fixedbitset::FixedBitSet) -> Set<int>;

/// The capacity, in bits, a `fixedbitset::FixedBitSet` was made with.
pub uninterp spec fn bitset_len(s: fixedbitset::FixedBitSet) -> nat;

#[verifier::external_type_specification]
#[verifier::external_body]
pub struct ExFixedBitSet(fixedbitset::FixedBitSet);

/// Relies on fixedbitset::FixedBitSet::with_capacity: `bits` bits, all
/// initially clear.
#[verifier::external_body]
pub fn bitset_with_capacity(bits: usize) -> (r: fixedbitset::FixedBitSet)
    ensures
        bitset_len(r) == bits,
        bitset_bits(r) == Set::<int>::empty(),
{
    fixedbitset::FixedBitSet::with_capacity(bits)
}

/// Relies on fixedbitset::FixedBitSet::insert: enables the bit; panics on a
/// bit at or past the capacity, so that is required away.
#[verifier::external_body]
pub fn bitset_insert(s: &mut fixedbitset::FixedBitSet, bit: usize)
    requires
        (bit as nat) < bitset_len(*old(s)),
    ensures
        bitset_len(*final(s)) == bitset_len(*old(s)),
        bitset_bits(*final(s)) == bitset_bits(*old(s)).insert(bit as int),
{
    s.insert(bit)
}

/// Relies on fixedbitset::FixedBitSet::contains: membership of the bit;
/// bits outside the capacity are always disabled.
#[verifier::external_body]
pub fn bitset_contains(s: &fixedbitset::FixedBitSet, bit: usize) -> (r: bool)
    ensures
        (bit as nat) < bitset_len(*s) ==> r == bitset_bits(*s).contains(bit as int),
        (bit as nat) >= bitset_len(*s) ==> r == false,
{
    s.contains(bit)
}

/// A row together with how many rows of the opposite side currently match
/// it.
#[derive(Debug)]
pub struct JoinRow {
    pub row: Row,
    pub degree: u64,
}

impl JoinRow {
    pub fn new(row: Row, degree: u64) -> (r: JoinRow)
        ensures
            r.row@ == row@,
            r.degree == degree,
    {
        JoinRow { row, degree }
    }

    pub fn is_zero_degree(&self) -> (r: bool)
        ensures
            r == (self.degree == 0),
    {
        self.degree == 0
    }

    /// The compact encoded form carried inside a join entry.
    pub fn encode(&self) -> (r: EncodedJoinRow)
        requires
            crate::row::row_wf(self.row@),
        ensures
            r.compacted_row@ == row_encoding(self.row@),
            r.degree == self.degree,
    {
        EncodedJoinRow { compacted_row: self.row.value_serialize(), degree: self.degree }
    }
}

/// A join row in its stored form: the value-encoded row and the degree.
#[derive(Debug)]
pub struct EncodedJoinRow {
    pub compacted_row: Vec<u8>,
    pub degree: u64,
}

impl View for EncodedJoinRow {
    type V = (Seq<u8>, u64);

    open spec fn view(&self) -> (Seq<u8>, u64) {
        (self.compacted_row@, self.degree)
    }
}

impl EncodedJoinRow {
    /// Decodes the row back under the schema; exactly refines the spec
    /// decoder.
    pub fn decode(&self, data_types: &Vec<crate::types::DataType>) -> (r: Result<JoinRow, JoinError>)
        ensures
            match crate::value::spec_decode_row(self.compacted_row@, data_types@) {
                Option::Some(rv) => r matches Result::Ok(jr) && jr.row@ == rv && jr.degree
                    == self.degree,
                Option::None => r == Result::<JoinRow, JoinError>::Err(JoinError::Encoding),
            },
    {
        let de = crate::row::RowDeserializer::new(copy_types(data_types));
        match de.deserialize(&self.compacted_row) {
            Result::Ok(row) => Result::Ok(JoinRow { row, degree: self.degree }),
            Result::Err(_) => Result::Err(JoinError::Encoding),
        }
    }

    pub fn decode_row(&self, data_types: &Vec<crate::types::DataType>) -> (r: Result<Row, JoinError>)
        ensures
            match crate::value::spec_decode_row(self.compacted_row@, data_types@) {
                Option::Some(rv) => r matches Result::Ok(row) && row@ == rv,
                Option::None => r is Err,
            },
    {
        match self.decode(data_types) {
            Result::Ok(jr) => Result::Ok(jr.row),
            Result::Err(e) => Result::Err(e),
        }
    }
}

/// An owned copy of a type list.
pub fn copy_types(ts: &Vec<crate::types::DataType>) -> (r: Vec<crate::types::DataType>)
    ensures
        r@ == ts@,
{
    let mut out: Vec<crate::types::DataType> = Vec::new();
    let n = ts.len();
    let mut i: usize = 0;
    while i < n
        invariant
            i <= n,
            n == ts@.len(),
            out@ =~= ts@.take(i as int),
        decreases n - i,
    {
        out.push(ts[i]);
        proof {
            assert(out@ =~= ts@.take(i + 1));
        }
        i = i + 1;
    }
    proof {
        assert(ts@.take(n as int) =~= ts@);
    }
    out
}

/// For one join key on one side: an ordered mapping from primary-key bytes
/// to encoded join rows; at most one entry per key, iteration ascending.
#[derive(Debug)]
pub struct JoinEntryState {
    pub cached: KvList<EncodedJoinRow>,
}

impl JoinEntryState {
    pub open spec fn wf(&self) -> bool {
        self.cached.wf()
    }

    pub open spec fn contents(&self) -> Seq<(Seq<u8>, (Seq<u8>, u64))> {
        self.cached.view_seq()
    }

    pub open spec fn spec_get(&self, pk: Seq<u8>) -> Option<(Seq<u8>, u64)> {
        self.cached.spec_get(pk)
    }

    pub fn new() -> (r: JoinEntryState)
        ensures
            r.wf(),
            r.contents() =~= Seq::<(Seq<u8>, (Seq<u8>, u64))>::empty(),
    {
        JoinEntryState { cached: KvList::new() }
    }

    /// Puts an encoded row at a primary key, replacing any previous one.
    pub fn insert(&mut self, key: Vec<u8>, value: EncodedJoinRow)
        requires
            old(self).wf(),
        ensures
            final(self).wf(),
            final(self).spec_get(key@) == Option::Some(value@),
            forall|k2: Seq<u8>|
                k2 != key@ ==> #[trigger] final(self).spec_get(k2) == old(self).spec_get(k2),
    {
        self.cached.upsert(key, value);
    }

    /// Removes a primary key; on a missing key this is a no-op, since a
    /// delete may match state persisted but not cached.
    pub fn remove(&mut self, pk: &Vec<u8>)
        requires
            old(self).wf(),
        ensures
            final(self).wf(),
            final(self).spec_get(pk@) is None,
            forall|k2: Seq<u8>|
                k2 != pk@ ==> #[trigger] final(self).spec_get(k2) == old(self).spec_get(k2),
    {
        self.cached.remove(pk);
    }

    pub fn len(&self) -> (r: usize)
        ensures
            r == self.contents().len(),
    {
        self.cached.len()
    }

    /// The entry at a position, primary keys ascending.
    pub fn entry_at(&self, i: usize) -> (r: (&Vec<u8>, &EncodedJoinRow))
        requires
            i < self.contents().len(),
        ensures
            r.0@ == self.contents()[i as int].0,
            r.1@ == self.contents()[i as int].1,
    {
        self.cached.entry_at(i)
    }
}

/// The nullable slot a cached entry lives in: empty only between `take`
/// and the matching `update_state`.
#[derive(Debug)]
pub struct HashValueWrapper {
    pub slot: Option<JoinEntryState>,
}

impl View for HashValueWrapper {
    type V = Option<Seq<(Seq<u8>, (Seq<u8>, u64))>>;

    open spec fn view(&self) -> Option<Seq<(Seq<u8>, (Seq<u8>, u64))>> {
        match self.slot {
            Option::Some(e) => Option::Some(e.contents()),
            Option::None => Option::None,
        }
    }
}

impl HashValueWrapper {
    /// Takes the entry out; the slot must not already be taken.
    pub fn take(&mut self) -> (r: JoinEntryState)
        requires
            old(self).slot is Some,
        ensures
            final(self).slot is None,
            Option::Some(r) == old(self).slot,
    {
        let mut s: Option<JoinEntryState> = Option::None;
        core::mem::swap(&mut s, &mut self.slot);
        match s {
            Option::Some(e) => e,
            Option::None => {
                proof {
                    assert(false);
                }
                JoinEntryState::new()
            },
        }
    }
}

/// Per-side cache counters, flushed into the accumulated metrics at each
/// barrier.
#[derive(Debug)]
pub struct JoinHashMapMetrics {
    /// Actor this map belongs to, as the metrics label.
    pub actor_id: u64,
    /// True for the left side, false for the right: the second label.
    pub side_left: bool,
    /// Cache misses since the last flush.
    pub lookup_miss_count: usize,
    /// Lookups since the last flush.
    pub total_lookup_count: usize,
    /// Misses handed to the metrics sink so far.
    pub flushed_miss_count: u64,
    /// Lookups handed to the metrics sink so far.
    pub flushed_total_count: u64,
}

impl JoinHashMapMetrics {
    pub fn new(actor_id: u64, side_left: bool) -> (r: JoinHashMapMetrics)
        ensures
            r.actor_id == actor_id,
            r.side_left == side_left,
            r.lookup_miss_count == 0,
            r.total_lookup_count == 0,
            r.flushed_miss_count == 0,
            r.flushed_total_count == 0,
    {
        JoinHashMapMetrics {
            actor_id,
            side_left,
            lookup_miss_count: 0,
            total_lookup_count: 0,
            flushed_miss_count: 0,
            flushed_total_count: 0,
        }
    }

    /// Moves the counters since the last barrier into the accumulated
    /// totals and resets them.
    pub fn flush(&mut self)
        requires
            old(self).flushed_miss_count + old(self).lookup_miss_count <= u64::MAX,
            old(self).flushed_total_count + old(self).total_lookup_count <= u64::MAX,
        ensures
            final(self).lookup_miss_count == 0,
            final(self).total_lookup_count == 0,
            final(self).flushed_miss_count == old(self).flushed_miss_count + old(self).lookup_miss_count,
            final(self).flushed_total_count == old(self).flushed_total_count + old(self).total_lookup_count,
            final(self).actor_id == old(self).actor_id,
            final(self).side_left == old(self).side_left,
    {
        self.flushed_miss_count = self.flushed_miss_count + (self.lookup_miss_count as u64);
        self.flushed_total_count = self.flushed_total_count + (self.total_lookup_count as u64);
        self.lookup_miss_count = 0;
        self.total_lookup_count = 0;
    }
}

/// The value a degree row's trailing column must carry: a non-negative
/// 64-bit integer; anything else is data corruption.
pub open spec fn degree_of_row(d: Seq<DatumVal>) -> Option<u64> {
    if d.len() >= 1 {
        match d[d.len() - 1] {
            Option::Some(crate::types::ScalarVal::Int64(v)) => if v >= 0 {
                Option::Some(v as u64)
            } else {
                Option::None
            },
            _ => Option::None,
        }
    } else {
        Option::None
    }
}

/// How a degree row's trailing column is corrupt, when it is: NULL or a
/// wrongly-typed column, or a negative count.
pub open spec fn degree_corruption(d: Seq<DatumVal>) -> Option<JoinError> {
    if d.len() >= 1 {
        match d[d.len() - 1] {
            Option::Some(crate::types::ScalarVal::Int64(v)) => if v >= 0 {
                Option::None
            } else {
                Option::Some(JoinError::NegativeDegree)
            },
            _ => Option::Some(JoinError::NullDegree),
        }
    } else {
        Option::Some(JoinError::NullDegree)
    }
}

/// The central composition: per-join-key entries cached in memory, backed
/// by a state table of rows and a degree table of match counts, committed
/// together at each barrier.
#[derive(Debug)]
pub struct JoinHashMap {
    /// Types of the join key columns.
    pub join_key_data_types: Vec<crate::types::DataType>,
    /// Per join-column flag: does NULL match NULL on this column?
    pub null_matched: fixedbitset::FixedBitSet,
    /// The rows of this side.
    pub state: StateTable,
    /// The degree of each row of this side.
    pub degree_state: StateTable,
    /// Whether this side tracks degrees at all.
    pub need_degree_table: bool,
    /// Cached entries by join-key bytes; a `None` slot is taken.
    pub inner: KvList<HashValueWrapper>,
    /// Cache counters.
    pub metrics: JoinHashMapMetrics,
}

impl JoinHashMap {
    /// Structural well-formedness: both tables sorted and keyed; the
    /// degree table's columns are the state table's key columns followed
    /// by one 64-bit integer degree column, keyed by all but the degree;
    /// both tables share the distribution prefix; cached entries sorted.
    pub open spec fn wf(&self) -> bool {
        &&& self.state.wf()
        &&& self.degree_state.wf()
        &&& self.inner.wf()
        &&& self.state.dist_key_len == self.join_key_data_types@.len()
        &&& self.degree_state.dist_key_len == self.state.dist_key_len
        &&& self.degree_state.schema@.len() == self.state.pk_indices@.len() + 1
        &&& forall|i: int|
            0 <= i < self.state.pk_indices@.len() ==> #[trigger] self.degree_state.schema@[i]
                == self.state.schema@[self.state.pk_indices@[i] as int]
        &&& self.degree_state.schema@.last() == crate::types::DataType::Int64
        &&& self.degree_state.pk_indices@.len() == self.state.pk_indices@.len()
        &&& forall|i: int|
            0 <= i < self.degree_state.pk_indices@.len() ==> (
            #[trigger] self.degree_state.pk_indices@[i]) as int == i
        &&& forall|i: int|
            0 <= i < self.inner.view_seq().len() ==> match (#[trigger] self.inner.view_seq()[i]).1 {
                Option::Some(c) => crate::kvlist::sorted_keys(c),
                Option::None => true,
            }
    }

    /// What the cache holds at a join key: nothing, a taken slot, or an
    /// entry's contents.
    pub open spec fn cache_get(&self, k: Seq<u8>) -> Option<Option<Seq<(Seq<u8>, (Seq<u8>, u64))>>> {
        self.inner.spec_get(k)
    }

    /// A map over both tables and the cache, bound to its epoch.
    pub fn new(
        join_key_data_types: Vec<crate::types::DataType>,
        state_table: StateTable,
        degree_table: StateTable,
        null_matched: fixedbitset::FixedBitSet,
        need_degree_table: bool,
        actor_id: u64,
        side_left: bool,
    ) -> (r: JoinHashMap)
        requires
            state_table.wf(),
            degree_table.wf(),
            state_table.dist_key_len == join_key_data_types@.len(),
            degree_table.dist_key_len == state_table.dist_key_len,
            degree_table.schema@.len() == state_table.pk_indices@.len() + 1,
            forall|i: int|
                0 <= i < state_table.pk_indices@.len() ==> #[trigger] degree_table.schema@[i]
                    == state_table.schema@[state_table.pk_indices@[i] as int],
            degree_table.schema@.last() == crate::types::DataType::Int64,
            degree_table.pk_indices@.len() == state_table.pk_indices@.len(),
            forall|i: int|
                0 <= i < degree_table.pk_indices@.len() ==> (
                #[trigger] degree_table.pk_indices@[i]) as int == i,
        ensures
            r.wf(),
            r.state == state_table,
            r.degree_state == degree_table,
            r.need_degree_table == need_degree_table,
            r.null_matched == null_matched,
            forall|k: Seq<u8>| #[trigger] r.cache_get(k) is None,
            r.metrics.lookup_miss_count == 0,
            r.metrics.total_lookup_count == 0,
    {
        let r = JoinHashMap {
            join_key_data_types,
            null_matched,
            state: state_table,
            degree_state: degree_table,
            need_degree_table,
            inner: KvList::new(),
            metrics: JoinHashMapMetrics::new(actor_id, side_left),
        };
        proof {
            assert forall|k: Seq<u8>| #[trigger] r.cache_get(k) is None by {
                crate::kvlist::lemma_assoc_absent(r.inner.view_seq(), k);
            }
        }
        r
    }

    /// Binds both tables to an epoch pair.
    pub fn init(&mut self, epoch: EpochPair)
        requires
            old(self).wf(),
        ensures
            final(self).wf(),
            final(self).state.epoch == epoch,
            final(self).degree_state.epoch == epoch,
            final(self).inner == old(self).inner,
            final(self).state.committed == old(self).state.committed,
            final(self).state.buffer == old(self).state.buffer,
            final(self).degree_state.committed == old(self).degree_state.committed,
            final(self).degree_state.buffer == old(self).degree_state.buffer,
    {
        let mut st = StateTable::new(Vec::new(), Vec::new(), 0, epoch);
        core::mem::swap(&mut st, &mut self.state);
        st.init_epoch(epoch);
        core::mem::swap(&mut st, &mut self.state);
        let mut dt = StateTable::new(Vec::new(), Vec::new(), 0, epoch);
        core::mem::swap(&mut dt, &mut self.degree_state);
        dt.init_epoch(epoch);
        core::mem::swap(&mut dt, &mut self.degree_state);
    }

    /// The number of cached entries.
    pub fn entry_count(&self) -> (r: usize)
        ensures
            r == self.inner.view_seq().len(),
    {
        self.inner.len()
    }

    /// The null-safe bitmap of the join columns.
    pub fn null_matched(&self) -> (r: &fixedbitset::FixedBitSet)
        ensures
            r == &self.null_matched,
    {
        &self.null_matched
    }
}

impl JoinHashMap {
    /// A join-key row fits the map: one datum per join column, typed and
    /// well formed.
    pub open spec fn key_fits(&self, k: Seq<DatumVal>) -> bool {
        &&& k.len() == self.join_key_data_types@.len()
        &&& k.len() <= self.state.pk_indices@.len()
        &&& forall|i: int|
            0 <= i < k.len() ==> crate::types::datum_has_type(
                #[trigger] k[i],
                self.state.schema@[self.state.pk_indices@[i] as int],
            )
        &&& forall|i: int| 0 <= i < k.len() ==> crate::types::datum_wf(#[trigger] k[i])
    }

    /// The bytes a join key row encodes to: the distribution prefix of
    /// every row carrying that key.
    pub open spec fn spec_key_bytes(&self, k: Seq<DatumVal>) -> Seq<u8> {
        crate::memcomp::mc_row(k, crate::state_table::asc_dirs(k.len()))
    }

    /// Serializes a join key row.
    pub fn join_key_bytes(&self, key: &Row) -> (r: Vec<u8>)
        requires
            self.wf(),
            self.key_fits(key@),
        ensures
            r@ == self.spec_key_bytes(key@),
    {
        let n = key.len();
        let mut types: Vec<crate::types::DataType> = Vec::new();
        let mut dirs: Vec<crate::memcomp::OrderType> = Vec::new();
        let mut i: usize = 0;
        while i < n
            invariant
                i <= n,
                self.wf(),
                self.key_fits(key@),
                n == key@.len(),
                n <= self.state.pk_indices@.len(),
                types@.len() == i,
                dirs@.len() == i,
                forall|j: int|
                    0 <= j < i ==> types@[j] == self.state.schema@[
                        #[trigger] self.state.pk_indices@[j] as int
                    ],
                forall|j: int| 0 <= j < i ==> dirs@[j] == crate::memcomp::OrderType::Ascending,
            decreases n - i,
        {
            types.push(self.state.schema[self.state.pk_indices[i]]);
            dirs.push(crate::memcomp::OrderType::Ascending);
            i = i + 1;
        }
        let serde = crate::memcomp::OrderedRowSerde::new(types, dirs);
        let mut out: Vec<u8> = Vec::new();
        proof {
            assert(serde.order_types@ =~= crate::state_table::asc_dirs(key@.len()));
            assert(crate::memcomp::serde_fits(key@, serde.schema@)) by {
                assert forall|j: int| 0 <= j < key@.len() implies {
                    &&& crate::types::datum_has_type(#[trigger] key@[j], serde.schema@[j])
                    &&& crate::types::datum_wf(key@[j])
                } by {
                    let p = self.state.pk_indices@[j];
                    assert(serde.schema@[j] == self.state.schema@[p as int]);
                }
                assert forall|j: int|
                    0 <= j < serde.schema@.len() implies crate::memcomp::mc_supported(
                    #[trigger] serde.schema@[j],
                ) by {
                    let p = self.state.pk_indices@[j];
                    assert(serde.schema@[j] == self.state.schema@[p as int]);
                }
            }
        }
        serde.serialize(key, &mut out);
        out
    }

    /// The row a fetch for prefix `p` sees at primary key `pk`: the
    /// visible state row, when its key starts with the prefix.
    pub open spec fn fetched_row(&self, p: Seq<u8>, pk: Seq<u8>) -> Option<Seq<DatumVal>> {
        match self.state.merged_get(pk) {
            Option::Some(r) => if crate::numbytes::is_prefix_of(p, pk) && self.state.owns(
                self.state.vnode_of_row(r),
            ) {
                Option::Some(r)
            } else {
                Option::None
            },
            Option::None => Option::None,
        }
    }

    /// The degree a fetch attaches at primary key `pk`: the visible degree
    /// row's trailing column; zero when this side tracks no degrees or no
    /// degree row is visible; nothing on a corrupt degree column.
    pub open spec fn spec_fetched_degree(&self, p: Seq<u8>, pk: Seq<u8>) -> Option<u64> {
        if !self.need_degree_table {
            Option::Some(0u64)
        } else {
            match self.degree_state.merged_get(pk) {
                Option::Some(d) => if crate::numbytes::is_prefix_of(p, pk) && self.degree_state.owns(
                    self.degree_state.vnode_of_row(d),
                ) {
                    degree_of_row(d)
                } else {
                    Option::Some(0u64)
                },
                Option::None => Option::Some(0u64),
            }
        }
    }

    /// The corruption a fetch for prefix `p` meets at primary key `pk`:
    /// the visible degree row's defect, if the row is matched by a visible
    /// state row and its degree column is not a non-negative 64-bit
    /// integer; orphan degree rows are never inspected.
    pub open spec fn fetch_corruption(&self, p: Seq<u8>, pk: Seq<u8>) -> Option<JoinError> {
        if !self.need_degree_table {
            Option::None
        } else {
            match self.degree_state.merged_get(pk) {
                Option::Some(d) => if crate::numbytes::is_prefix_of(p, pk) && self.degree_state.owns(
                    self.degree_state.vnode_of_row(d),
                ) {
                    degree_corruption(d)
                } else {
                    Option::None
                },
                Option::None => Option::None,
            }
        }
    }

    /// What a fetch for prefix `p` must hand back at `pk`, when no degree
    /// column is corrupt.
    pub open spec fn fetched_entry_at(&self, p: Seq<u8>, pk: Seq<u8>) -> Option<(Seq<u8>, u64)> {
        match self.fetched_row(p, pk) {
            Option::Some(r) => Option::Some(
                (crate::value::row_encoding(r), self.spec_fetched_degree(p, pk)->Some_0),
            ),
            Option::None => Option::None,
        }
    }

    /// Loads the entry for a join key from the two tables: the visible
    /// state rows under the key, in primary-key order, zipped with their
    /// degrees by order key. A degree row without a state row is dropped
    /// silently; a state row without a degree row carries degree zero; a
    /// corrupt degree column is an error.
    #[verifier::rlimit(100)]
    pub fn fetch_cached_state(&self, prefix: &Vec<u8>) -> (r: Result<JoinEntryState, JoinError>)
        requires
            self.wf(),
        ensures
            match r {
                Result::Ok(entry) => {
                    &&& entry.wf()
                    &&& forall|pk: Seq<u8>| #[trigger]
                        entry.spec_get(pk) == self.fetched_entry_at(prefix@, pk)
                    &&& forall|pk: Seq<u8>|
                        #[trigger] self.fetched_row(prefix@, pk) is Some
                            ==> self.fetch_corruption(prefix@, pk) is None
                },
                Result::Err(e) => exists|pk: Seq<u8>|
                    #[trigger] self.fetched_row(prefix@, pk) is Some && self.fetch_corruption(
                        prefix@,
                        pk,
                    ) == Option::Some(e),
            },
    {
        let rows = self.state.iter_key_and_val(prefix);
        let ghost rowsv = crate::state_table::kv_pairs_view(rows@);
        let degs: Vec<(Vec<u8>, Row)> = if self.need_degree_table {
            self.degree_state.iter_key_and_val(prefix)
        } else {
            Vec::new()
        };
        let ghost degsv = crate::state_table::kv_pairs_view(degs@);
        let dkv = KvList { entries: degs };
        proof {
            assert(dkv.view_seq() =~= degsv);
            if !self.need_degree_table {
                assert(degsv =~= Seq::<(Seq<u8>, Seq<DatumVal>)>::empty());
            }
        }
        let mut out: Vec<(Vec<u8>, EncodedJoinRow)> = Vec::new();
        let n = rows.len();
        let mut i: usize = 0;
        while i < n
            invariant
                i <= n,
                self.wf(),
                dkv.wf(),
                n == rows@.len(),
                rowsv == crate::state_table::kv_pairs_view(rows@),
                degsv == dkv.view_seq(),
                crate::kvlist::sorted_keys(rowsv),
                forall|a: int|
                    0 <= a < rowsv.len() ==> crate::numbytes::is_prefix_of(
                        prefix@,
                        (#[trigger] rowsv[a]).0,
                    ) && self.state.merged_get(rowsv[a].0) == Option::Some(rowsv[a].1)
                        && self.state.owns(self.state.vnode_of_row(rowsv[a].1))
                        && self.state.row_fits(rowsv[a].1),
                forall|k2: Seq<u8>|
                    (crate::numbytes::is_prefix_of(prefix@, k2)
                        && #[trigger] self.state.merged_get(k2) is Some && self.state.owns(
                        self.state.vnode_of_row(self.state.merged_get(k2)->Some_0),
                    )) ==> crate::kvlist::has_key(rowsv, k2),
                self.need_degree_table ==> forall|a: int|
                    0 <= a < degsv.len() ==> self.degree_state.merged_get(
                        (#[trigger] degsv[a]).0,
                    ) == Option::Some(degsv[a].1) && self.degree_state.owns(
                        self.degree_state.vnode_of_row(degsv[a].1),
                    ) && crate::numbytes::is_prefix_of(prefix@, degsv[a].0),
                self.need_degree_table ==> forall|k2: Seq<u8>|
                    (crate::numbytes::is_prefix_of(prefix@, k2)
                        && #[trigger] self.degree_state.merged_get(k2) is Some
                        && self.degree_state.owns(
                        self.degree_state.vnode_of_row(self.degree_state.merged_get(k2)->Some_0),
                    )) ==> crate::kvlist::has_key(degsv, k2),
                !self.need_degree_table ==> degsv =~= Seq::<(Seq<u8>, Seq<DatumVal>)>::empty(),
                out@.len() == i,
                forall|a: int|
                    0 <= a < i ==> (#[trigger] ejr_pairs_view(out@)[a]).0 == rowsv[a].0
                        && ejr_pairs_view(out@)[a].1 == (
                    crate::value::row_encoding(rowsv[a].1),
                    self.spec_fetched_degree(prefix@, rowsv[a].0)->Some_0,
                    ) && self.spec_fetched_degree(prefix@, rowsv[a].0) is Some,
                forall|a: int|
                    0 <= a < i ==> self.fetch_corruption(prefix@, (#[trigger] rowsv[a]).0) is None,
            decreases n - i,
        {
            let pk = &rows[i].0;
            let row = &rows[i].1;
            proof {
                assert(rowsv[i as int].0 == rows@[i as int].0@);
                assert(rowsv[i as int].1 == rows@[i as int].1@);
            }
            let degree: u64 = if self.need_degree_table {
                match dkv.get(pk) {
                    Option::Some(drow) => {
                        let ghost dv = degsv;
                        proof {
                            crate::kvlist::lemma_assoc_some_index(degsv, pk@);
                            let x = choose|x: int|
                                0 <= x < degsv.len() && (#[trigger] degsv[x]).0 == pk@ && degsv[x].1
                                    == crate::kvlist::assoc(degsv, pk@)->Some_0;
                            assert(self.degree_state.merged_get(pk@) == Option::Some(drow@));
                            assert(self.degree_state.owns(self.degree_state.vnode_of_row(drow@)));
                        }
                        let m = row_len_of(drow);
                        if m == 0 {
                            proof {
                                assert(self.fetched_row(prefix@, pk@) is Some
                                    && self.fetch_corruption(prefix@, pk@) == Option::Some(
                                    JoinError::NullDegree,
                                ));
                            }
                            return Result::Err(JoinError::NullDegree);
                        }
                        match drow.datum_at(m - 1) {
                            Option::Some(ScalarImpl::Int64(v)) => {
                                let vv = *v;
                                if vv < 0 {
                                    proof {
                                        assert(self.fetched_row(prefix@, pk@) is Some
                                            && self.fetch_corruption(prefix@, pk@) == Option::Some(
                                            JoinError::NegativeDegree,
                                        ));
                                    }
                                    return Result::Err(JoinError::NegativeDegree);
                                }
                                proof {
                                    assert(degree_of_row(drow@) == Option::Some(vv as u64));
                                    assert(self.spec_fetched_degree(prefix@, pk@) == Option::Some(
                                        vv as u64,
                                    ));
                                    assert(self.fetch_corruption(prefix@, pk@) is None);
                                }
                                vv as u64
                            },
                            _ => {
                                proof {
                                    assert(self.fetched_row(prefix@, pk@) is Some
                                        && self.fetch_corruption(prefix@, pk@) == Option::Some(
                                        JoinError::NullDegree,
                                    ));
                                }
                                return Result::Err(JoinError::NullDegree);
                            },
                        }
                    },
                    Option::None => {
                        proof {
                            if self.degree_state.merged_get(pk@) is Some && self.degree_state.owns(
                                self.degree_state.vnode_of_row(
                                    self.degree_state.merged_get(pk@)->Some_0,
                                ),
                            ) {
                                assert(crate::kvlist::has_key(degsv, pk@));
                                let x = choose|x: int|
                                    0 <= x < degsv.len() && (#[trigger] degsv[x]).0 == pk@;
                                crate::kvlist::lemma_assoc_at(degsv, x);
                            }
                            assert(self.spec_fetched_degree(prefix@, pk@) == Option::Some(0u64));
                            assert(self.fetch_corruption(prefix@, pk@) is None);
                        }
                        0
                    },
                }
            } else {
                proof {
                    assert(self.spec_fetched_degree(prefix@, pk@) == Option::Some(0u64));
                    assert(self.fetch_corruption(prefix@, pk@) is None);
                }
                0
            };
            let kc = crate::numbytes::clone_bytes(pk);
            let jr = JoinRow { row: row.to_owned_row(), degree };
            proof {
                assert(crate::row::row_wf(jr.row@)) by {
                    assert(self.state.row_fits(rowsv[i as int].1));
                }
            }
            let enc = jr.encode();
            let ghost pre_out = out@;
            out.push((kc, enc));
            proof {
                assert(ejr_pairs_view(out@).len() == i + 1);
                assert forall|a: int| 0 <= a < i + 1 implies (#[trigger] ejr_pairs_view(out@)[a]).0
                    == rowsv[a].0 && ejr_pairs_view(out@)[a].1 == (
                crate::value::row_encoding(rowsv[a].1),
                self.spec_fetched_degree(prefix@, rowsv[a].0)->Some_0,
                ) && self.spec_fetched_degree(prefix@, rowsv[a].0) is Some by {
                    if a < i {
                        assert(out@[a] == pre_out[a]);
                        assert(ejr_pairs_view(pre_out)[a].0 == rowsv[a].0);
                    } else {
                        assert(out@[a] == (kc, enc));
                    }
                }
            }
            i = i + 1;
        }
        let entry = JoinEntryState { cached: KvList { entries: out } };
        proof {
            let ev = entry.contents();
            assert(ev =~= ejr_pairs_view(out@));
            assert(ev.len() == rowsv.len());
            assert forall|a: int, b: int| 0 <= a < b < ev.len() implies crate::numbytes::lex_cmp(
                (#[trigger] ev[a]).0,
                (#[trigger] ev[b]).0,
            ) < 0 by {
                assert(ev[a].0 == rowsv[a].0);
                assert(ev[b].0 == rowsv[b].0);
            }
            assert forall|pk: Seq<u8>|
                #[trigger] self.fetched_row(prefix@, pk) is Some implies self.fetch_corruption(
                prefix@,
                pk,
            ) is None by {
                assert(crate::kvlist::has_key(rowsv, pk));
                let a = choose|a: int| 0 <= a < rowsv.len() && (#[trigger] rowsv[a]).0 == pk;
                assert(self.fetch_corruption(prefix@, rowsv[a].0) is None);
            }
            assert forall|pk: Seq<u8>| #[trigger] entry.spec_get(pk) == self.fetched_entry_at(
                prefix@,
                pk,
            ) by {
                if crate::kvlist::has_key(rowsv, pk) {
                    let a = choose|a: int| 0 <= a < rowsv.len() && (#[trigger] rowsv[a]).0 == pk;
                    assert(ev[a].0 == pk);
                    crate::kvlist::lemma_assoc_at(ev, a);
                    assert(self.state.merged_get(pk) == Option::Some(rowsv[a].1));
                } else {
                    assert(!crate::kvlist::has_key(ev, pk)) by {
                        if crate::kvlist::has_key(ev, pk) {
                            let a = choose|a: int| 0 <= a < ev.len() && (#[trigger] ev[a]).0 == pk;
                            assert(rowsv[a].0 == pk);
                        }
                    }
                    crate::kvlist::lemma_assoc_absent(ev, pk);
                    if self.fetched_entry_at(prefix@, pk) is Some {
                        assert(crate::kvlist::has_key(rowsv, pk));
                    }
                }
            }
        }
        Result::Ok(entry)
    }
}

/// The mathematical pairs carried by a vector of key and encoded-row
/// pairs.
pub open spec fn ejr_pairs_view(s: Seq<(Vec<u8>, EncodedJoinRow)>) -> Seq<(Seq<u8>, (Seq<u8>, u64))> {
    s.map_values(|e: (Vec<u8>, EncodedJoinRow)| (e.0@, e.1@))
}

/// The number of columns of a row, by reference.
pub fn row_len_of(r: &Row) -> (n: usize)
    ensures
        n == r@.len(),
{
    r.len()
}

impl JoinHashMap {
    /// Exec check that a join-key row fits this map, matching `key_fits`.
    pub fn key_fits_check(&self, k: &Row) -> (r: bool)
        requires
            self.wf(),
        ensures
            r == self.key_fits(k@),
    {
        let n = k.len();
        if n != self.join_key_data_types.len() {
            return false;
        }
        if n > self.state.pk_indices.len() {
            return false;
        }
        let mut i: usize = 0;
        while i < n
            invariant
                i <= n,
                self.wf(),
                n == k@.len(),
                n <= self.state.pk_indices@.len(),
                forall|j: int|
                    0 <= j < i ==> crate::types::datum_has_type(
                        #[trigger] k@[j],
                        self.state.schema@[self.state.pk_indices@[j] as int],
                    ) && crate::types::datum_wf(k@[j]),
            decreases n - i,
        {
            if !crate::types::datum_has_type_exec(
                k.datum_at(i),
                self.state.schema[self.state.pk_indices[i]],
            ) {
                return false;
            }
            if !crate::types::datum_wf_exec(k.datum_at(i)) {
                return false;
            }
            i = i + 1;
        }
        true
    }

    /// Takes the entry for a join key out of the cache, or loads it from
    /// the tables on a miss. The caller must put it back with
    /// `update_state`; taking an already-taken slot is a caller bug and is
    /// required away.
    pub fn take_state(&mut self, key: &Row) -> (r: Result<JoinEntryState, JoinError>)
        requires
            old(self).wf(),
            old(self).key_fits(key@),
            old(self).cache_get(old(self).spec_key_bytes(key@)) != Option::Some(
                Option::<Seq<(Seq<u8>, (Seq<u8>, u64))>>::None,
            ),
            old(self).metrics.total_lookup_count < usize::MAX,
            old(self).metrics.lookup_miss_count < usize::MAX,
        ensures
            final(self).wf(),
            final(self).state == old(self).state,
            final(self).degree_state == old(self).degree_state,
            final(self).need_degree_table == old(self).need_degree_table,
            final(self).null_matched == old(self).null_matched,
            final(self).join_key_data_types == old(self).join_key_data_types,
            match old(self).cache_get(old(self).spec_key_bytes(key@)) {
                Option::Some(slot) => {
                    &&& r matches Result::Ok(entry) && slot == Option::Some(entry.contents())
                        && entry.wf()
                    &&& final(self).cache_get(old(self).spec_key_bytes(key@)) == Option::Some(
                        Option::<Seq<(Seq<u8>, (Seq<u8>, u64))>>::None,
                    )
                    &&& forall|k2: Seq<u8>|
                        k2 != old(self).spec_key_bytes(key@) ==> #[trigger] final(self).cache_get(k2)
                            == old(self).cache_get(k2)
                    &&& final(self).metrics.lookup_miss_count == old(self).metrics.lookup_miss_count
                },
                Option::None => {
                    &&& (match r {
                        Result::Ok(entry) => {
                            &&& entry.wf()
                            &&& forall|pk: Seq<u8>| #[trigger]
                                entry.spec_get(pk) == old(self).fetched_entry_at(
                                old(self).spec_key_bytes(key@),
                                pk,
                            )
                            &&& forall|pk: Seq<u8>|
                                #[trigger] old(self).fetched_row(
                                    old(self).spec_key_bytes(key@),
                                    pk,
                                ) is Some ==> old(self).fetch_corruption(
                                    old(self).spec_key_bytes(key@),
                                    pk,
                                ) is None
                        },
                        Result::Err(e) => exists|pk: Seq<u8>|
                            #[trigger] old(self).fetched_row(
                                old(self).spec_key_bytes(key@),
                                pk,
                            ) is Some && old(self).fetch_corruption(
                                old(self).spec_key_bytes(key@),
                                pk,
                            ) == Option::Some(e),
                    })
                    &&& forall|k2: Seq<u8>| #[trigger]
                        final(self).cache_get(k2) == old(self).cache_get(k2)
                    &&& final(self).metrics.lookup_miss_count == old(self).metrics.lookup_miss_count + 1
                },
            },
            final(self).metrics.total_lookup_count == old(self).metrics.total_lookup_count + 1,
    {
        let kb = self.join_key_bytes(key);
        self.metrics.total_lookup_count = self.metrics.total_lookup_count + 1;
        let taken = HashValueWrapper { slot: Option::None };
        match self.inner.replace(&kb, taken) {
            Option::Some(w) => {
                proof {
                    assert(w@ is Some);
                    match w@ {
                        Option::Some(c) => {
                            lemma_cached_entry_sorted(old(self).inner, kb@, c);
                        },
                        Option::None => {},
                    }
                    lemma_cache_after_take(old(self).inner, self.inner, kb@);
                }
                let mut ww = w;
                let entry = ww.take();
                Result::Ok(entry)
            },
            Option::None => {
                self.metrics.lookup_miss_count = self.metrics.lookup_miss_count + 1;
                let res = self.fetch_cached_state(&kb);
                proof {
                    assert forall|pk: Seq<u8>| (#[trigger] old(self).fetched_entry_at(kb@, pk))
                        == self.fetched_entry_at(kb@, pk) by {}
                    assert forall|pk: Seq<u8>| (#[trigger] old(self).fetched_row(kb@, pk))
                        == self.fetched_row(kb@, pk) by {}
                    assert forall|pk: Seq<u8>| (#[trigger] old(self).fetch_corruption(kb@, pk))
                        == self.fetch_corruption(kb@, pk) by {}
                    if res is Err {
                        let e = res->Err_0;
                        let pk = choose|pk: Seq<u8>|
                            #[trigger] self.fetched_row(kb@, pk) is Some && self.fetch_corruption(
                                kb@,
                                pk,
                            ) == Option::Some(e);
                        assert(old(self).fetched_row(kb@, pk) is Some && old(self).fetch_corruption(
                            kb@,
                            pk,
                        ) == Option::Some(e));
                    }
                }
                res
            },
        }
    }

    /// Puts an entry back at a join key, filling a taken slot or creating
    /// the cache slot.
    pub fn update_state(&mut self, key: &Row, entry: JoinEntryState)
        requires
            old(self).wf(),
            old(self).key_fits(key@),
            entry.wf(),
        ensures
            final(self).wf(),
            final(self).state == old(self).state,
            final(self).degree_state == old(self).degree_state,
            final(self).need_degree_table == old(self).need_degree_table,
            final(self).null_matched == old(self).null_matched,
            final(self).join_key_data_types == old(self).join_key_data_types,
            final(self).metrics == old(self).metrics,
            final(self).cache_get(old(self).spec_key_bytes(key@)) == Option::Some(
                Option::Some(entry.contents()),
            ),
            forall|k2: Seq<u8>|
                k2 != old(self).spec_key_bytes(key@) ==> #[trigger] final(self).cache_get(k2) == old(self).cache_get(k2),
    {
        let kb = self.join_key_bytes(key);
        let ghost c = entry.contents();
        self.inner.upsert(kb, HashValueWrapper { slot: Option::Some(entry) });
        proof {
            lemma_cache_wf_after(old(self).inner, self.inner, old(self).spec_key_bytes(key@), c);
        }
    }

    /// The degree row belonging to a state row: the row's key columns
    /// followed by the degree as a signed 64-bit integer.
    pub fn build_degree_row(&self, row: &Row, degree: u64) -> (r: Row)
        requires
            self.wf(),
            self.state.row_fits(row@),
            degree <= MAX_DEGREE,
        ensures
            r@ =~= crate::state_table::proj(row@, self.state.pk_indices@) + seq![
                Option::Some(crate::types::ScalarVal::Int64(degree as i64)),
            ],
            self.degree_state.row_fits(r@),
            self.degree_state.key_of(r@) == self.state.key_of(row@),
    {
        let key_part = row.project(&self.state.pk_indices);
        let mut datums = key_part.into_inner();
        let ghost kp = crate::state_table::proj(row@, self.state.pk_indices@);
        proof {
            assert(datums@.map_values(|d: crate::types::Datum| crate::types::datum_view(d)) =~= kp);
        }
        datums.push(Option::Some(ScalarImpl::Int64(degree as i64)));
        let r = Row::new(datums);
        proof {
            let rv = r@;
            assert(rv =~= kp + seq![
                Option::<crate::types::ScalarVal>::Some(
                    crate::types::ScalarVal::Int64(degree as i64),
                ),
            ]);
            assert(self.degree_state.row_fits(rv)) by {
                assert forall|i: int| 0 <= i < rv.len() implies crate::types::datum_has_type(
                    #[trigger] rv[i],
                    self.degree_state.schema@[i],
                ) && crate::types::datum_wf(rv[i]) by {
                    if i < rv.len() - 1 {
                        let p = self.state.pk_indices@[i];
                        assert(rv[i] == row@[p as int]);
                        assert(self.degree_state.schema@[i] == self.state.schema@[p as int]);
                    } else {
                        assert(self.degree_state.schema@[i]
                            == self.degree_state.schema@.last());
                    }
                }
            }
            assert(self.degree_state.key_of(rv) == self.state.key_of(row@)) by {
                let dpk = self.degree_state.pk_indices@;
                assert(crate::state_table::proj(rv, dpk) =~= kp) by {
                    assert forall|i: int| 0 <= i < dpk.len() implies #[trigger] crate::state_table::proj(
                        rv,
                        dpk,
                    )[i] == kp[i] by {
                        assert(dpk[i] as int == i);
                        assert(crate::state_table::proj(rv, dpk)[i] == rv[dpk[i] as int]);
                        assert(rv[i] == kp[i]);
                    }
                }
                assert(crate::state_table::asc_dirs(dpk.len())
                    =~= crate::state_table::asc_dirs(self.state.pk_indices@.len()));
            }
        }
        r
    }

    /// Writes a join row for the open epoch: into the cached entry when
    /// the key is cached and not taken, and always into the state table
    /// and, with degree zero tracked separately, the degree table.
    pub fn insert(&mut self, key: &Row, value: JoinRow)
        requires
            old(self).wf(),
            old(self).key_fits(key@),
            old(self).state.row_fits(value.row@),
            value.degree <= MAX_DEGREE,
        ensures
            final(self).wf(),
            final(self).state.merged_get(old(self).state.key_of(value.row@)) == Option::Some(
                value.row@,
            ),
            forall|k2: Seq<u8>|
                k2 != old(self).state.key_of(value.row@) ==> #[trigger] final(self).state.merged_get(
                    k2,
                ) == old(self).state.merged_get(k2),
            final(self).degree_state.merged_get(old(self).state.key_of(value.row@))
                == Option::Some(
                crate::state_table::proj(value.row@, old(self).state.pk_indices@) + seq![
                    Option::Some(crate::types::ScalarVal::Int64(value.degree as i64)),
                ],
            ),
            forall|k2: Seq<u8>|
                k2 != old(self).state.key_of(value.row@) ==> #[trigger] final(self).degree_state.merged_get(k2) == old(self).degree_state.merged_get(k2),
            match old(self).cache_get(old(self).spec_key_bytes(key@)) {
                Option::Some(Option::Some(c)) => final(self).cache_get(
                    old(self).spec_key_bytes(key@),
                ) matches Option::Some(Option::Some(c2)) && crate::kvlist::assoc(
                    c2,
                    old(self).state.key_of(value.row@),
                ) == Option::Some(
                    (crate::value::row_encoding(value.row@), value.degree),
                ) && forall|pk: Seq<u8>|
                    pk != old(self).state.key_of(value.row@) ==> #[trigger] crate::kvlist::assoc(
                        c2,
                        pk,
                    ) == crate::kvlist::assoc(c, pk),
                _ => final(self).cache_get(old(self).spec_key_bytes(key@)) == old(self).cache_get(
                    old(self).spec_key_bytes(key@),
                ),
            },
            forall|k2: Seq<u8>|
                k2 != old(self).spec_key_bytes(key@) ==> #[trigger] final(self).cache_get(k2) == old(self).cache_get(k2),
            final(self).state.schema == old(self).state.schema,
            final(self).state.pk_indices == old(self).state.pk_indices,
            final(self).state.vnodes == old(self).state.vnodes,
            final(self).degree_state.vnodes == old(self).degree_state.vnodes,
            final(self).need_degree_table == old(self).need_degree_table,
            final(self).null_matched == old(self).null_matched,
            final(self).join_key_data_types == old(self).join_key_data_types,
            final(self).metrics == old(self).metrics,
    {
        let kb = self.join_key_bytes(key);
        let pkb = self.state.compute_key(&value.row);
        let taken = HashValueWrapper { slot: Option::None };
        let ghost pre_inner = self.inner;
        match self.inner.replace(&kb, taken) {
            Option::Some(w) => {
                match w.slot {
                    Option::Some(mut entry) => {
                        let ghost c_pre = entry.contents();
                        proof {
                            lemma_cached_entry_sorted(pre_inner, kb@, entry.contents());
                        }
                        let enc = value.encode();
                        entry.insert(crate::numbytes::clone_bytes(&pkb), enc);
                        let ghost c2 = entry.contents();
                        proof {
                            assert forall|pk: Seq<u8>| pk != pkb@ implies
                                #[trigger] crate::kvlist::assoc(c2, pk) == crate::kvlist::assoc(
                                c_pre,
                                pk,
                            ) by {
                                assert(entry.spec_get(pk) == crate::kvlist::assoc(c_pre, pk));
                            }
                        }
                        let ghost mid_inner = self.inner;
                        let back = self.inner.replace(
                            &kb,
                            HashValueWrapper { slot: Option::Some(entry) },
                        );
                        proof {
                            lemma_cache_after_two_replaces(
                                pre_inner,
                                mid_inner,
                                self.inner,
                                kb@,
                                c2,
                            );
                        }
                    },
                    Option::None => {
                        let back = self.inner.replace(&kb, HashValueWrapper { slot: Option::None });
                        proof {
                            assert forall|i: int|
                                0 <= i < self.inner.view_seq().len() implies match (
                            #[trigger] self.inner.view_seq()[i]).1 {
                                Option::Some(c) => crate::kvlist::sorted_keys(c),
                                Option::None => true,
                            } by {
                                if self.inner.view_seq()[i].0 != self.spec_key_bytes(key@) {
                                    crate::kvlist::lemma_assoc_some_index(
                                        pre_inner.view_seq(),
                                        self.inner.view_seq()[i].0,
                                    );
                                }
                            }
                        }
                    },
                }
            },
            Option::None => {},
        }
        let drow = self.build_degree_row(&value.row, value.degree);
        self.state.insert(value.row);
        self.degree_state.insert(drow);
    }

    /// Writes a plain row for the open epoch, for a side that tracks no
    /// degrees: cached entry (degree zero) and state table only.
    pub fn insert_row(&mut self, key: &Row, value: Row)
        requires
            old(self).wf(),
            old(self).key_fits(key@),
            old(self).state.row_fits(value@),
        ensures
            final(self).wf(),
            final(self).state.merged_get(old(self).state.key_of(value@)) == Option::Some(value@),
            forall|k2: Seq<u8>|
                k2 != old(self).state.key_of(value@) ==> #[trigger] final(self).state.merged_get(k2)
                    == old(self).state.merged_get(k2),
            final(self).degree_state == old(self).degree_state,
            final(self).need_degree_table == old(self).need_degree_table,
            final(self).null_matched == old(self).null_matched,
            final(self).join_key_data_types == old(self).join_key_data_types,
            final(self).metrics == old(self).metrics,
            match old(self).cache_get(old(self).spec_key_bytes(key@)) {
                Option::Some(Option::Some(c)) => final(self).cache_get(
                    old(self).spec_key_bytes(key@),
                ) matches Option::Some(Option::Some(c2)) && crate::kvlist::assoc(
                    c2,
                    old(self).state.key_of(value@),
                ) == Option::Some(
                    (crate::value::row_encoding(value@), 0u64),
                ) && forall|pk: Seq<u8>|
                    pk != old(self).state.key_of(value@) ==> #[trigger] crate::kvlist::assoc(
                        c2,
                        pk,
                    ) == crate::kvlist::assoc(c, pk),
                _ => final(self).cache_get(old(self).spec_key_bytes(key@)) == old(self).cache_get(
                    old(self).spec_key_bytes(key@),
                ),
            },
            forall|k2: Seq<u8>|
                k2 != old(self).spec_key_bytes(key@) ==> #[trigger] final(self).cache_get(k2) == old(
                    self,
                ).cache_get(k2),
    {
        let kb = self.join_key_bytes(key);
        let pkb = self.state.compute_key(&value);
        let taken = HashValueWrapper { slot: Option::None };
        let ghost pre_inner = self.inner;
        let ghost vrow = value@;
        let jr = JoinRow { row: value, degree: 0 };
        match self.inner.replace(&kb, taken) {
            Option::Some(w) => {
                match w.slot {
                    Option::Some(mut entry) => {
                        let ghost c_pre = entry.contents();
                        proof {
                            lemma_cached_entry_sorted(pre_inner, kb@, entry.contents());
                        }
                        let enc = jr.encode();
                        entry.insert(crate::numbytes::clone_bytes(&pkb), enc);
                        let ghost c2 = entry.contents();
                        proof {
                            assert forall|pk: Seq<u8>| pk != pkb@ implies
                                #[trigger] crate::kvlist::assoc(c2, pk) == crate::kvlist::assoc(
                                c_pre,
                                pk,
                            ) by {
                                assert(entry.spec_get(pk) == crate::kvlist::assoc(c_pre, pk));
                            }
                        }
                        let ghost mid_inner = self.inner;
                        let back = self.inner.replace(
                            &kb,
                            HashValueWrapper { slot: Option::Some(entry) },
                        );
                        proof {
                            lemma_cache_after_two_replaces(
                                pre_inner,
                                mid_inner,
                                self.inner,
                                kb@,
                                c2,
                            );
                        }
                    },
                    Option::None => {
                        let back = self.inner.replace(&kb, HashValueWrapper { slot: Option::None });
                        proof {
                            assert forall|i: int|
                                0 <= i < self.inner.view_seq().len() implies match (
                            #[trigger] self.inner.view_seq()[i]).1 {
                                Option::Some(c) => crate::kvlist::sorted_keys(c),
                                Option::None => true,
                            } by {
                                if self.inner.view_seq()[i].0 != self.spec_key_bytes(key@) {
                                    crate::kvlist::lemma_assoc_some_index(
                                        pre_inner.view_seq(),
                                        self.inner.view_seq()[i].0,
                                    );
                                }
                            }
                        }
                    },
                }
            },
            Option::None => {},
        }
        self.state.insert(jr.row);
    }

    /// Deletes a join row for the open epoch: from the cached entry when
    /// present, and from both tables.
    pub fn delete(&mut self, key: &Row, value: JoinRow)
        requires
            old(self).wf(),
            old(self).key_fits(key@),
            old(self).state.row_fits(value.row@),
            value.degree <= MAX_DEGREE,
        ensures
            final(self).wf(),
            final(self).state.merged_get(old(self).state.key_of(value.row@)) is None,
            forall|k2: Seq<u8>|
                k2 != old(self).state.key_of(value.row@) ==> #[trigger] final(self).state.merged_get(
                    k2,
                ) == old(self).state.merged_get(k2),
            final(self).degree_state.merged_get(old(self).state.key_of(value.row@)) is None,
            forall|k2: Seq<u8>|
                k2 != old(self).state.key_of(value.row@) ==> #[trigger] final(self).degree_state.merged_get(k2) == old(self).degree_state.merged_get(k2),
            match old(self).cache_get(old(self).spec_key_bytes(key@)) {
                Option::Some(Option::Some(c)) => final(self).cache_get(
                    old(self).spec_key_bytes(key@),
                ) matches Option::Some(Option::Some(c2)) && crate::kvlist::assoc(
                    c2,
                    old(self).state.key_of(value.row@),
                ) is None && forall|pk: Seq<u8>|
                    pk != old(self).state.key_of(value.row@) ==> #[trigger] crate::kvlist::assoc(
                        c2,
                        pk,
                    ) == crate::kvlist::assoc(c, pk),
                _ => final(self).cache_get(old(self).spec_key_bytes(key@)) == old(self).cache_get(
                    old(self).spec_key_bytes(key@),
                ),
            },
            forall|k2: Seq<u8>|
                k2 != old(self).spec_key_bytes(key@) ==> #[trigger] final(self).cache_get(k2) == old(self).cache_get(k2),
            final(self).need_degree_table == old(self).need_degree_table,
            final(self).null_matched == old(self).null_matched,
            final(self).join_key_data_types == old(self).join_key_data_types,
            final(self).metrics == old(self).metrics,
            final(self).state.schema == old(self).state.schema,
            final(self).state.pk_indices == old(self).state.pk_indices,
            final(self).state.vnodes == old(self).state.vnodes,
            final(self).degree_state.vnodes == old(self).degree_state.vnodes,
    {
        let kb = self.join_key_bytes(key);
        let pkb = self.state.compute_key(&value.row);
        let taken = HashValueWrapper { slot: Option::None };
        let ghost pre_inner = self.inner;
        match self.inner.replace(&kb, taken) {
            Option::Some(w) => {
                match w.slot {
                    Option::Some(mut entry) => {
                        let ghost c_pre = entry.contents();
                        proof {
                            lemma_cached_entry_sorted(pre_inner, kb@, entry.contents());
                        }
                        entry.remove(&pkb);
                        let ghost c2 = entry.contents();
                        proof {
                            assert forall|pk: Seq<u8>| pk != pkb@ implies
                                #[trigger] crate::kvlist::assoc(c2, pk) == crate::kvlist::assoc(
                                c_pre,
                                pk,
                            ) by {
                                assert(entry.spec_get(pk) == crate::kvlist::assoc(c_pre, pk));
                            }
                        }
                        let ghost mid_inner = self.inner;
                        let back = self.inner.replace(
                            &kb,
                            HashValueWrapper { slot: Option::Some(entry) },
                        );
                        proof {
                            lemma_cache_after_two_replaces(
                                pre_inner,
                                mid_inner,
                                self.inner,
                                kb@,
                                c2,
                            );
                        }
                    },
                    Option::None => {
                        let back = self.inner.replace(&kb, HashValueWrapper { slot: Option::None });
                        proof {
                            assert forall|i: int|
                                0 <= i < self.inner.view_seq().len() implies match (
                            #[trigger] self.inner.view_seq()[i]).1 {
                                Option::Some(c) => crate::kvlist::sorted_keys(c),
                                Option::None => true,
                            } by {
                                if self.inner.view_seq()[i].0 != self.spec_key_bytes(key@) {
                                    crate::kvlist::lemma_assoc_some_index(
                                        pre_inner.view_seq(),
                                        self.inner.view_seq()[i].0,
                                    );
                                }
                            }
                        }
                    },
                }
            },
            Option::None => {},
        }
        let drow = self.build_degree_row(&value.row, value.degree);
        self.state.delete(value.row);
        self.degree_state.delete(drow);
    }

    /// Deletes a plain row for the open epoch, for a side that tracks no
    /// degrees.
    pub fn delete_row(&mut self, key: &Row, value: Row)
        requires
            old(self).wf(),
            old(self).key_fits(key@),
            old(self).state.row_fits(value@),
        ensures
            final(self).wf(),
            final(self).state.merged_get(old(self).state.key_of(value@)) is None,
            forall|k2: Seq<u8>|
                k2 != old(self).state.key_of(value@) ==> #[trigger] final(self).state.merged_get(k2)
                    == old(self).state.merged_get(k2),
            final(self).degree_state == old(self).degree_state,
            final(self).need_degree_table == old(self).need_degree_table,
            final(self).null_matched == old(self).null_matched,
            final(self).join_key_data_types == old(self).join_key_data_types,
            final(self).metrics == old(self).metrics,
            match old(self).cache_get(old(self).spec_key_bytes(key@)) {
                Option::Some(Option::Some(c)) => final(self).cache_get(
                    old(self).spec_key_bytes(key@),
                ) matches Option::Some(Option::Some(c2)) && crate::kvlist::assoc(
                    c2,
                    old(self).state.key_of(value@),
                ) is None && forall|pk: Seq<u8>|
                    pk != old(self).state.key_of(value@) ==> #[trigger] crate::kvlist::assoc(
                        c2,
                        pk,
                    ) == crate::kvlist::assoc(c, pk),
                _ => final(self).cache_get(old(self).spec_key_bytes(key@)) == old(self).cache_get(
                    old(self).spec_key_bytes(key@),
                ),
            },
            forall|k2: Seq<u8>|
                k2 != old(self).spec_key_bytes(key@) ==> #[trigger] final(self).cache_get(k2) == old(
                    self,
                ).cache_get(k2),
    {
        let kb = self.join_key_bytes(key);
        let pkb = self.state.compute_key(&value);
        let taken = HashValueWrapper { slot: Option::None };
        let ghost pre_inner = self.inner;
        match self.inner.replace(&kb, taken) {
            Option::Some(w) => {
                match w.slot {
                    Option::Some(mut entry) => {
                        let ghost c_pre = entry.contents();
                        proof {
                            lemma_cached_entry_sorted(pre_inner, kb@, entry.contents());
                        }
                        entry.remove(&pkb);
                        let ghost c2 = entry.contents();
                        proof {
                            assert forall|pk: Seq<u8>| pk != pkb@ implies
                                #[trigger] crate::kvlist::assoc(c2, pk) == crate::kvlist::assoc(
                                c_pre,
                                pk,
                            ) by {
                                assert(entry.spec_get(pk) == crate::kvlist::assoc(c_pre, pk));
                            }
                        }
                        let ghost mid_inner = self.inner;
                        let back = self.inner.replace(
                            &kb,
                            HashValueWrapper { slot: Option::Some(entry) },
                        );
                        proof {
                            lemma_cache_after_two_replaces(
                                pre_inner,
                                mid_inner,
                                self.inner,
                                kb@,
                                c2,
                            );
                        }
                    },
                    Option::None => {
                        let back = self.inner.replace(&kb, HashValueWrapper { slot: Option::None });
                        proof {
                            assert forall|i: int|
                                0 <= i < self.inner.view_seq().len() implies match (
                            #[trigger] self.inner.view_seq()[i]).1 {
                                Option::Some(c) => crate::kvlist::sorted_keys(c),
                                Option::None => true,
                            } by {
                                if self.inner.view_seq()[i].0 != self.spec_key_bytes(key@) {
                                    crate::kvlist::lemma_assoc_some_index(
                                        pre_inner.view_seq(),
                                        self.inner.view_seq()[i].0,
                                    );
                                }
                            }
                        }
                    },
                }
            },
            Option::None => {},
        }
        self.state.delete(value);
    }

    /// Raises the degree of a row by one, in the in-memory encoded copy,
    /// the owned copy, and the degree table.
    pub fn inc_degree(&mut self, join_row_ref: &mut EncodedJoinRow, join_row: &mut JoinRow)
        requires
            old(self).wf(),
            old(self).state.row_fits(old(join_row).row@),
            old(join_row).degree < MAX_DEGREE,
            old(join_row_ref).degree == old(join_row).degree,
        ensures
            final(self).wf(),
            final(join_row).degree == old(join_row).degree + 1,
            final(join_row).row == old(join_row).row,
            final(join_row_ref).degree == old(join_row_ref).degree + 1,
            final(join_row_ref).compacted_row == old(join_row_ref).compacted_row,
            final(self).degree_state.merged_get(old(self).state.key_of(old(join_row).row@))
                == Option::Some(
                crate::state_table::proj(old(join_row).row@, old(self).state.pk_indices@) + seq![
                    Option::Some(
                        crate::types::ScalarVal::Int64((old(join_row).degree + 1) as i64),
                    ),
                ],
            ),
            forall|k2: Seq<u8>|
                k2 != old(self).state.key_of(old(join_row).row@) ==> #[trigger] final(self).degree_state.merged_get(k2) == old(self).degree_state.merged_get(k2),
            final(self).state == old(self).state,
            final(self).inner == old(self).inner,
            final(self).metrics == old(self).metrics,
            final(self).need_degree_table == old(self).need_degree_table,
            final(self).null_matched == old(self).null_matched,
            final(self).join_key_data_types == old(self).join_key_data_types,
    {
        let old_deg_row = self.build_degree_row(&join_row.row, join_row.degree);
        join_row.degree = join_row.degree + 1;
        join_row_ref.degree = join_row_ref.degree + 1;
        let new_deg_row = self.build_degree_row(&join_row.row, join_row.degree);
        self.degree_state.update(old_deg_row, new_deg_row);
    }

    /// Lowers the degree of a row by one; a degree already at zero is an
    /// invariant violation and is required away.
    pub fn dec_degree(&mut self, join_row_ref: &mut EncodedJoinRow, join_row: &mut JoinRow)
        requires
            old(self).wf(),
            old(self).state.row_fits(old(join_row).row@),
            old(join_row).degree > 0,
            old(join_row).degree <= MAX_DEGREE,
            old(join_row_ref).degree == old(join_row).degree,
        ensures
            final(self).wf(),
            final(join_row).degree == old(join_row).degree - 1,
            final(join_row).row == old(join_row).row,
            final(join_row_ref).degree == old(join_row_ref).degree - 1,
            final(join_row_ref).compacted_row == old(join_row_ref).compacted_row,
            final(self).degree_state.merged_get(old(self).state.key_of(old(join_row).row@))
                == Option::Some(
                crate::state_table::proj(old(join_row).row@, old(self).state.pk_indices@) + seq![
                    Option::Some(
                        crate::types::ScalarVal::Int64((old(join_row).degree - 1) as i64),
                    ),
                ],
            ),
            forall|k2: Seq<u8>|
                k2 != old(self).state.key_of(old(join_row).row@) ==> #[trigger] final(self).degree_state.merged_get(k2) == old(self).degree_state.merged_get(k2),
            final(self).state == old(self).state,
            final(self).inner == old(self).inner,
            final(self).metrics == old(self).metrics,
            final(self).need_degree_table == old(self).need_degree_table,
            final(self).null_matched == old(self).null_matched,
            final(self).join_key_data_types == old(self).join_key_data_types,
    {
        let old_deg_row = self.build_degree_row(&join_row.row, join_row.degree);
        join_row.degree = join_row.degree - 1;
        join_row_ref.degree = join_row_ref.degree - 1;
        let new_deg_row = self.build_degree_row(&join_row.row, join_row.degree);
        self.degree_state.update(old_deg_row, new_deg_row);
    }

    /// Commits both tables at a barrier and flushes the cache counters to
    /// the metrics sink.
    pub fn flush(&mut self, epoch: EpochPair)
        requires
            old(self).wf(),
            epoch.curr > old(self).state.epoch.curr,
            epoch.curr > old(self).degree_state.epoch.curr,
            old(self).metrics.flushed_miss_count + old(self).metrics.lookup_miss_count <= u64::MAX,
            old(self).metrics.flushed_total_count + old(self).metrics.total_lookup_count
                <= u64::MAX,
        ensures
            final(self).wf(),
            forall|k: Seq<u8>| #[trigger]
                final(self).state.committed_get(k) == old(self).state.merged_get(k),
            forall|k: Seq<u8>| #[trigger] final(self).state.merged_get(k) == old(self).state.merged_get(k),
            forall|k: Seq<u8>| #[trigger]
                final(self).degree_state.committed_get(k) == old(self).degree_state.merged_get(k),
            forall|k: Seq<u8>| #[trigger]
                final(self).degree_state.merged_get(k) == old(self).degree_state.merged_get(k),
            final(self).state.epoch == epoch,
            final(self).degree_state.epoch == epoch,
            final(self).inner == old(self).inner,
            final(self).metrics.lookup_miss_count == 0,
            final(self).metrics.total_lookup_count == 0,
            final(self).need_degree_table == old(self).need_degree_table,
            final(self).null_matched == old(self).null_matched,
            final(self).join_key_data_types == old(self).join_key_data_types,
            final(self).state.vnodes == old(self).state.vnodes,
            final(self).degree_state.vnodes == old(self).degree_state.vnodes,
    {
        self.metrics.flush();
        let mut st = StateTable::new(Vec::new(), Vec::new(), 0, epoch);
        core::mem::swap(&mut st, &mut self.state);
        st.commit(epoch);
        core::mem::swap(&mut st, &mut self.state);
        let mut dt = StateTable::new(Vec::new(), Vec::new(), 0, epoch);
        core::mem::swap(&mut dt, &mut self.degree_state);
        dt.commit(epoch);
        core::mem::swap(&mut dt, &mut self.degree_state);
    }

    /// Replaces the vnode bitmap on both tables. When ownership changes in
    /// either direction the cache may be stale, and is cleared whole: no
    /// cached entry survives.
    pub fn update_vnode_bitmap(&mut self, bitmap: Vec<bool>)
        requires
            old(self).wf(),
            bitmap@.len() == crate::state_table::VNODE_COUNT,
        ensures
            final(self).wf(),
            final(self).state.vnodes@ == bitmap@,
            final(self).degree_state.vnodes@ == bitmap@,
            (old(self).state.vnodes@ != bitmap@) ==> forall|k: Seq<u8>| #[trigger]
                final(self).cache_get(k) is None,
            (old(self).state.vnodes@ == bitmap@) ==> final(self).inner == old(self).inner,
            final(self).state.committed == old(self).state.committed,
            final(self).state.buffer == old(self).state.buffer,
            final(self).degree_state.committed == old(self).degree_state.committed,
            final(self).degree_state.buffer == old(self).degree_state.buffer,
            final(self).need_degree_table == old(self).need_degree_table,
            final(self).null_matched == old(self).null_matched,
            final(self).join_key_data_types == old(self).join_key_data_types,
            final(self).metrics == old(self).metrics,
    {
        let b2 = clone_bools(&bitmap);
        let mut st = StateTable::new(
            Vec::new(),
            Vec::new(),
            0,
            EpochPair { prev: 0, curr: 1 },
        );
        core::mem::swap(&mut st, &mut self.state);
        let previous = st.update_vnode_bitmap(bitmap);
        core::mem::swap(&mut st, &mut self.state);
        let mut dt = StateTable::new(
            Vec::new(),
            Vec::new(),
            0,
            EpochPair { prev: 0, curr: 1 },
        );
        core::mem::swap(&mut dt, &mut self.degree_state);
        let prev2 = dt.update_vnode_bitmap(b2);
        core::mem::swap(&mut dt, &mut self.degree_state);
        let differ = !bools_eq(&previous, self.state_vnodes_ref());
        if differ {
            self.inner = KvList::new();
            proof {
                assert forall|k: Seq<u8>| #[trigger] self.cache_get(k) is None by {
                    crate::kvlist::lemma_assoc_absent(self.inner.view_seq(), k);
                }
            }
        }
    }

    fn state_vnodes_ref(&self) -> (r: &Vec<bool>)
        ensures
            r@ == self.state.vnodes@,
    {
        &self.state.vnodes
    }

    /// Drops one cached entry that is not taken, when one exists: the
    /// tables are the ground truth, so nothing durable is lost. The model
    /// keeps entries in key order rather than recency order, so the first
    /// resident entry goes; cache transparency makes the choice
    /// unobservable in the output.
    pub fn evict(&mut self)
        requires
            old(self).wf(),
        ensures
            final(self).wf(),
            final(self).state == old(self).state,
            final(self).degree_state == old(self).degree_state,
            final(self).inner.view_seq().len() <= old(self).inner.view_seq().len(),
            (exists|i: int|
                0 <= i < old(self).inner.view_seq().len() && (#[trigger] old(
                    self,
                ).inner.view_seq()[i]).1 is Some) ==> final(self).inner.view_seq().len() == old(
                self,
            ).inner.view_seq().len() - 1,
            forall|k: Seq<u8>|
                #[trigger] final(self).cache_get(k) is Some ==> final(self).cache_get(k) == old(
                    self,
                ).cache_get(k),
            final(self).need_degree_table == old(self).need_degree_table,
            final(self).null_matched == old(self).null_matched,
            final(self).join_key_data_types == old(self).join_key_data_types,
            final(self).metrics == old(self).metrics,
    {
        let n = self.inner.len();
        let mut found: usize = n;
        let mut i: usize = 0;
        while i < n
            invariant
                i <= n,
                found <= n,
                self.wf(),
                self.inner == old(self).inner,
                n == self.inner.view_seq().len(),
                found < n ==> self.inner.view_seq()[found as int].1 is Some,
                found == n ==> forall|j: int|
                    0 <= j < i ==> (#[trigger] self.inner.view_seq()[j]).1 is None,
            decreases n - i,
        {
            if found == n {
                let is_resident = match &self.inner.entry_at(i).1.slot {
                    Option::Some(_) => true,
                    Option::None => false,
                };
                if is_resident {
                    found = i;
                }
            }
            i = i + 1;
        }
        if found < n {
            let kb = crate::numbytes::clone_bytes(self.inner.entry_at(found).0);
            let ghost pre = self.inner;
            proof {
                assert(crate::kvlist::has_key(pre.view_seq(), kb@)) by {
                    assert(pre.view_seq()[found as int].0 == kb@);
                }
            }
            self.inner.remove(&kb);
            proof {
                assert forall|k: Seq<u8>| #[trigger] self.cache_get(k) is Some implies
                    self.cache_get(k) == pre.spec_get(k) by {}
                assert forall|i2: int| 0 <= i2 < self.inner.view_seq().len() implies match (
                #[trigger] self.inner.view_seq()[i2]).1 {
                    Option::Some(cc) => crate::kvlist::sorted_keys(cc),
                    Option::None => true,
                } by {
                    crate::kvlist::lemma_assoc_some_index(
                        pre.view_seq(),
                        self.inner.view_seq()[i2].0,
                    );
                }
            }
        } else {
            proof {
                if exists|i2: int|
                    0 <= i2 < old(self).inner.view_seq().len() && (#[trigger] old(
                        self,
                    ).inner.view_seq()[i2]).1 is Some {
                    let i2 = choose|i2: int|
                        0 <= i2 < old(self).inner.view_seq().len() && (#[trigger] old(
                            self,
                        ).inner.view_seq()[i2]).1 is Some;
                    assert(false);
                }
            }
        }
    }

    /// The sum a row count over the cache adds up to: taken slots count
    /// as empty.
    pub open spec fn cached_rows_sum(s: Seq<(Seq<u8>, Option<Seq<(Seq<u8>, (Seq<u8>, u64))>>)>) -> int
        decreases s.len(),
    {
        if s.len() == 0 {
            0
        } else {
            (match s[0].1 {
                Option::Some(c) => c.len() as int,
                Option::None => 0int,
            }) + JoinHashMap::cached_rows_sum(s.drop_first())
        }
    }

    /// The number of rows cached across all entries.
    pub fn cached_rows(&self) -> (r: usize)
        requires
            self.wf(),
            JoinHashMap::cached_rows_sum(self.inner.view_seq()) <= usize::MAX,
        ensures
            r == JoinHashMap::cached_rows_sum(self.inner.view_seq()),
    {
        let n = self.inner.len();
        let mut total: usize = 0;
        let mut i: usize = 0;
        proof {
            lemma_rows_sum_prefix(self.inner.view_seq(), 0);
            assert(self.inner.view_seq().take(0) =~= Seq::<
                (Seq<u8>, Option<Seq<(Seq<u8>, (Seq<u8>, u64))>>),
            >::empty());
        }
        while i < n
            invariant
                i <= n,
                self.wf(),
                n == self.inner.view_seq().len(),
                JoinHashMap::cached_rows_sum(self.inner.view_seq()) <= usize::MAX,
                total == JoinHashMap::cached_rows_sum(self.inner.view_seq().take(i as int)),
            decreases n - i,
        {
            let add = match &self.inner.entry_at(i).1.slot {
                Option::Some(e) => e.len(),
                Option::None => 0,
            };
            proof {
                lemma_rows_sum_step(self.inner.view_seq(), i as int);
                lemma_rows_sum_prefix(self.inner.view_seq(), i + 1);
            }
            total = total + add;
            i = i + 1;
        }
        proof {
            assert(self.inner.view_seq().take(n as int) =~= self.inner.view_seq());
        }
        total
    }
}

/// A prefix of the cache sums to no more than the whole: every slot adds a
/// non-negative count.
proof fn lemma_rows_sum_prefix(s: Seq<(Seq<u8>, Option<Seq<(Seq<u8>, (Seq<u8>, u64))>>)>, k: int)
    requires
        0 <= k <= s.len(),
    ensures
        0 <= JoinHashMap::cached_rows_sum(s.take(k)),
        JoinHashMap::cached_rows_sum(s.take(k)) <= JoinHashMap::cached_rows_sum(s),
    decreases s.len(),
{
    if s.len() == 0 {
        assert(s.take(k) =~= s);
    } else if k == 0 {
        assert(s.take(0) =~= Seq::<(Seq<u8>, Option<Seq<(Seq<u8>, (Seq<u8>, u64))>>)>::empty());
        lemma_rows_sum_nonneg(s);
    } else {
        assert(s.take(k)[0] == s[0]);
        assert(s.take(k).drop_first() =~= s.drop_first().take(k - 1));
        lemma_rows_sum_prefix(s.drop_first(), k - 1);
    }
}

proof fn lemma_rows_sum_nonneg(s: Seq<(Seq<u8>, Option<Seq<(Seq<u8>, (Seq<u8>, u64))>>)>)
    ensures
        0 <= JoinHashMap::cached_rows_sum(s),
    decreases s.len(),
{
    if s.len() > 0 {
        lemma_rows_sum_nonneg(s.drop_first());
    }
}

/// One more slot adds its count to the running sum.
proof fn lemma_rows_sum_step(s: Seq<(Seq<u8>, Option<Seq<(Seq<u8>, (Seq<u8>, u64))>>)>, i: int)
    requires
        0 <= i < s.len(),
    ensures
        JoinHashMap::cached_rows_sum(s.take(i + 1)) == JoinHashMap::cached_rows_sum(s.take(i)) + (
        match s[i].1 {
            Option::Some(c) => c.len() as int,
            Option::None => 0int,
        }),
    decreases i,
{
    if i == 0 {
        assert(s.take(0) =~= Seq::<(Seq<u8>, Option<Seq<(Seq<u8>, (Seq<u8>, u64))>>)>::empty());
        assert(s.take(1)[0] == s[0]);
        assert(s.take(1).drop_first() =~= Seq::<
            (Seq<u8>, Option<Seq<(Seq<u8>, (Seq<u8>, u64))>>),
        >::empty());
    } else {
        assert(s.take(i + 1)[0] == s[0]);
        assert(s.take(i)[0] == s[0]);
        assert(s.take(i + 1).drop_first() =~= s.drop_first().take(i));
        assert(s.take(i).drop_first() =~= s.drop_first().take(i - 1));
        lemma_rows_sum_step(s.drop_first(), i - 1);
        assert(s.drop_first()[i - 1] == s[i]);
    }
}

/// An owned copy of a bitmap.
pub fn clone_bools(v: &Vec<bool>) -> (r: Vec<bool>)
    ensures
        r@ == v@,
{
    let mut c: Vec<bool> = Vec::new();
    let n = v.len();
    let mut i: usize = 0;
    while i < n
        invariant
            i <= n,
            n == v@.len(),
            c@ =~= v@.take(i as int),
        decreases n - i,
    {
        c.push(v[i]);
        proof {
            assert(c@ =~= v@.take(i + 1));
        }
        i = i + 1;
    }
    proof {
        assert(v@.take(n as int) =~= v@);
    }
    c
}

/// Elementwise equality of two bitmaps.
pub fn bools_eq(a: &Vec<bool>, b: &Vec<bool>) -> (r: bool)
    ensures
        r == (a@ == b@),
{
    let na = a.len();
    if na != b.len() {
        proof {
            if a@ == b@ {
                assert(a@.len() == b@.len());
            }
        }
        return false;
    }
    let mut i: usize = 0;
    while i < na
        invariant
            i <= na,
            na == a@.len(),
            na == b@.len(),
            forall|j: int| 0 <= j < i ==> a@[j] == b@[j],
        decreases na - i,
    {
        if a[i] != b[i] {
            proof {
                if a@ == b@ {
                    assert(a@[i as int] == b@[i as int]);
                }
            }
            return false;
        }
        i = i + 1;
    }
    proof {
        assert(a@ =~= b@);
    }
    true
}

/// After a slot is taken, the cache's entries are all still sorted.
proof fn lemma_cache_after_take(
    pre: KvList<HashValueWrapper>,
    post: KvList<HashValueWrapper>,
    k: Seq<u8>,
)
    requires
        forall|i: int|
            0 <= i < pre.view_seq().len() ==> match (#[trigger] pre.view_seq()[i]).1 {
                Option::Some(cc) => crate::kvlist::sorted_keys(cc),
                Option::None => true,
            },
        forall|i: int|
            0 <= i < post.view_seq().len() ==> ((#[trigger] post.view_seq()[i].0 == k
                && post.view_seq()[i].1 == Option::<Seq<(Seq<u8>, (Seq<u8>, u64))>>::None)
                || pre.spec_get(post.view_seq()[i].0) == Option::Some(post.view_seq()[i].1)),
    ensures
        forall|i: int|
            0 <= i < post.view_seq().len() ==> match (#[trigger] post.view_seq()[i]).1 {
                Option::Some(cc) => crate::kvlist::sorted_keys(cc),
                Option::None => true,
            },
{
    assert forall|i: int| 0 <= i < post.view_seq().len() implies match (
    #[trigger] post.view_seq()[i]).1 {
        Option::Some(cc) => crate::kvlist::sorted_keys(cc),
        Option::None => true,
    } by {
        let e = post.view_seq()[i];
        if e.0 == k && e.1 == Option::<Seq<(Seq<u8>, (Seq<u8>, u64))>>::None {
        } else {
            crate::kvlist::lemma_assoc_some_index(pre.view_seq(), e.0);
        }
    }
}

/// After taking a slot and putting a sorted entry back, the cache's
/// entries are all still sorted.
proof fn lemma_cache_after_two_replaces(
    pre: KvList<HashValueWrapper>,
    mid: KvList<HashValueWrapper>,
    post: KvList<HashValueWrapper>,
    k: Seq<u8>,
    c2: Seq<(Seq<u8>, (Seq<u8>, u64))>,
)
    requires
        forall|i: int|
            0 <= i < pre.view_seq().len() ==> match (#[trigger] pre.view_seq()[i]).1 {
                Option::Some(cc) => crate::kvlist::sorted_keys(cc),
                Option::None => true,
            },
        crate::kvlist::sorted_keys(c2),
        mid.spec_get(k) == Option::Some(Option::<Seq<(Seq<u8>, (Seq<u8>, u64))>>::None),
        forall|k2: Seq<u8>| k2 != k ==> #[trigger] mid.spec_get(k2) == pre.spec_get(k2),
        forall|i: int|
            0 <= i < post.view_seq().len() ==> ((#[trigger] post.view_seq()[i].0 == k
                && post.view_seq()[i].1 == Option::Some(c2)) || mid.spec_get(post.view_seq()[i].0)
                == Option::Some(post.view_seq()[i].1)),
    ensures
        forall|i: int|
            0 <= i < post.view_seq().len() ==> match (#[trigger] post.view_seq()[i]).1 {
                Option::Some(cc) => crate::kvlist::sorted_keys(cc),
                Option::None => true,
            },
{
    assert forall|i: int| 0 <= i < post.view_seq().len() implies match (
    #[trigger] post.view_seq()[i]).1 {
        Option::Some(cc) => crate::kvlist::sorted_keys(cc),
        Option::None => true,
    } by {
        let e = post.view_seq()[i];
        if e.0 == k && e.1 == Option::<Seq<(Seq<u8>, (Seq<u8>, u64))>>::Some(c2) {
        } else {
            assert(mid.spec_get(e.0) == Option::Some(e.1));
            if e.0 == k {
                assert(e.1 == Option::<Seq<(Seq<u8>, (Seq<u8>, u64))>>::None);
            } else {
                assert(pre.spec_get(e.0) == Option::Some(e.1));
                crate::kvlist::lemma_assoc_some_index(pre.view_seq(), e.0);
            }
        }
    }
}


/// Checks an entry before a probe: every stored row must decode under the
/// schema, and every degree must leave room for the probe's change —
/// above zero for a retraction, below the storable maximum for an insert.
pub fn entry_probe_check(
    entry: &JoinEntryState,
    op_insert: bool,
    types: &Vec<crate::types::DataType>,
) -> (r: Result<(), JoinError>)
    requires
        entry.wf(),
    ensures
        match r {
            Result::Ok(u) => forall|x: int|
                0 <= x < entry.contents().len() ==> crate::value::spec_decode_row(
                    (#[trigger] entry.contents()[x]).1.0,
                    types@,
                ) is Some && (op_insert ==> entry.contents()[x].1.1 < MAX_DEGREE) && (!op_insert
                    ==> 0 < entry.contents()[x].1.1 <= MAX_DEGREE),
            Result::Err(e) => exists|x: int|
                0 <= x < entry.contents().len() && ((e == JoinError::Encoding
                    && crate::value::spec_decode_row(
                    (#[trigger] entry.contents()[x]).1.0,
                    types@,
                ) is None) || (e == JoinError::DegreeOverflow && ((op_insert
                    && entry.contents()[x].1.1 >= MAX_DEGREE) || (!op_insert
                    && entry.contents()[x].1.1 > MAX_DEGREE))) || (e == JoinError::DegreeUnderflow
                    && !op_insert && entry.contents()[x].1.1 == 0)),
        },
{
    let n = entry.len();
    let mut i: usize = 0;
    while i < n
        invariant
            i <= n,
            entry.wf(),
            n == entry.contents().len(),
            forall|x: int|
                0 <= x < i ==> crate::value::spec_decode_row(
                    (#[trigger] entry.contents()[x]).1.0,
                    types@,
                ) is Some && (op_insert ==> entry.contents()[x].1.1 < MAX_DEGREE) && (!op_insert
                    ==> 0 < entry.contents()[x].1.1 <= MAX_DEGREE),
        decreases n - i,
    {
        let (_, enc) = entry.entry_at(i);
        match enc.decode(types) {
            Result::Ok(_) => {},
            Result::Err(e) => {
                proof {
                    assert(enc@ == entry.contents()[i as int].1);
                }
                return Result::Err(e);
            },
        }
        if op_insert {
            if enc.degree >= MAX_DEGREE {
                proof {
                    assert(enc@ == entry.contents()[i as int].1);
                }
                return Result::Err(JoinError::DegreeOverflow);
            }
        } else {
            if enc.degree == 0 {
                proof {
                    assert(enc@ == entry.contents()[i as int].1);
                }
                return Result::Err(JoinError::DegreeUnderflow);
            }
            if enc.degree > MAX_DEGREE {
                proof {
                    assert(enc@ == entry.contents()[i as int].1);
                }
                return Result::Err(JoinError::DegreeOverflow);
            }
        }
        i = i + 1;
    }
    Result::Ok(())
}

/// A degree the fetch attaches is bounded by what the degree column can
/// store, and exists whenever the degree data is uncorrupted.
pub proof fn lemma_fetched_degree_sound(m: JoinHashMap, p: Seq<u8>, pk: Seq<u8>)
    ensures
        m.fetch_corruption(p, pk) is None ==> m.spec_fetched_degree(p, pk) is Some,
        m.spec_fetched_degree(p, pk) is Some ==> m.spec_fetched_degree(p, pk)->Some_0
            <= MAX_DEGREE,
{
}

/// Cache transparency: an entry cached for a join key and an entry freshly
/// loaded from the tables, both agreeing pointwise with what the tables
/// determine for that key, are the same entry. A caller that takes the
/// cached entry reads exactly what it would read after evicting and
/// fetching again, so eviction cannot change what the operator emits.
pub proof fn lemma_cache_transparency(
    m: JoinHashMap,
    kb: Seq<u8>,
    cached: Seq<(Seq<u8>, (Seq<u8>, u64))>,
    fetched: Seq<(Seq<u8>, (Seq<u8>, u64))>,
)
    requires
        crate::kvlist::sorted_keys(cached),
        crate::kvlist::sorted_keys(fetched),
        forall|pk: Seq<u8>| #[trigger]
            crate::kvlist::assoc(cached, pk) == m.fetched_entry_at(kb, pk),
        forall|pk: Seq<u8>| #[trigger]
            crate::kvlist::assoc(fetched, pk) == m.fetched_entry_at(kb, pk),
    ensures
        cached =~= fetched,
{
    crate::kvlist::lemma_sorted_assoc_determined(cached, fetched);
}

/// The cached entry stored at a key is sorted, by the cache invariant.
proof fn lemma_cached_entry_sorted(
    inner: KvList<HashValueWrapper>,
    k: Seq<u8>,
    c: Seq<(Seq<u8>, (Seq<u8>, u64))>,
)
    requires
        forall|i: int|
            0 <= i < inner.view_seq().len() ==> match (#[trigger] inner.view_seq()[i]).1 {
                Option::Some(cc) => crate::kvlist::sorted_keys(cc),
                Option::None => true,
            },
        inner.spec_get(k) == Option::Some(Option::Some(c)),
    ensures
        crate::kvlist::sorted_keys(c),
{
    crate::kvlist::lemma_assoc_some_index(inner.view_seq(), k);
}

/// After one cached-entry write of a sorted entry, the cache's entries are
/// all still sorted.
proof fn lemma_cache_wf_after(
    pre: KvList<HashValueWrapper>,
    post: KvList<HashValueWrapper>,
    k: Seq<u8>,
    c: Seq<(Seq<u8>, (Seq<u8>, u64))>,
)
    requires
        crate::kvlist::sorted_keys(pre.view_seq()),
        forall|i: int|
            0 <= i < pre.view_seq().len() ==> match (#[trigger] pre.view_seq()[i]).1 {
                Option::Some(cc) => crate::kvlist::sorted_keys(cc),
                Option::None => true,
            },
        crate::kvlist::sorted_keys(post.view_seq()),
        crate::kvlist::sorted_keys(c),
        forall|i: int|
            0 <= i < post.view_seq().len() ==> ((#[trigger] post.view_seq()[i].0 == k
                && post.view_seq()[i].1 == Option::Some(c)) || pre.spec_get(post.view_seq()[i].0)
                == Option::Some(post.view_seq()[i].1)),
    ensures
        forall|i: int|
            0 <= i < post.view_seq().len() ==> match (#[trigger] post.view_seq()[i]).1 {
                Option::Some(cc) => crate::kvlist::sorted_keys(cc),
                Option::None => true,
            },
{
    assert forall|i: int| 0 <= i < post.view_seq().len() implies match (
    #[trigger] post.view_seq()[i]).1 {
        Option::Some(cc) => crate::kvlist::sorted_keys(cc),
        Option::None => true,
    } by {
        if post.view_seq()[i].0 == k && post.view_seq()[i].1 == Option::Some(c) {
        } else {
            crate::kvlist::lemma_assoc_some_index(pre.view_seq(), post.view_seq()[i].0);
        }
    }
}

} // verus!
