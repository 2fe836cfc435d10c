//! The state table: an epoch-committed, vnode-partitioned keyed view over
//! rows. Writes buffer in the current epoch and become visible atomically
//! at commit; reads within the epoch see the buffered writes; iteration is
//! ordered by the memcomparable primary key.

use vstd::prelude::*;

use crate::kvlist::KvList;
use crate::kvlist::assoc;
use crate::kvlist::has_key;
use crate::memcomp::OrderType;
use crate::memcomp::mc_row;
use crate::memcomp::mc_supported;
use crate::memcomp::serde_fits;
use crate::numbytes::is_prefix_of;
use crate::row::Row;
use crate::row::bytes_hash;
use crate::row::row_has_types;
use crate::row::row_wf;
use crate::types::DataType;
use crate::types::DatumVal;

verus! {

/// Number of virtual partitions of the key space.
pub const VNODE_COUNT: usize = 256;

/// The pair of epochs a table is bound to: the last committed one and the
/// current, open one.
#[derive(Clone, Copy, Debug, PartialEq, Eq, Structural)]
pub struct EpochPair {
    pub prev: u64,
    pub curr: u64,
}

impl EpochPair {
    pub fn new(prev: u64, curr: u64) -> (r: EpochPair)
        requires
            prev < curr,
        ensures
            r.prev == prev,
            r.curr == curr,
    {
        EpochPair { prev, curr }
    }

    /// An epoch pair ending at `curr`, for driving a table by hand.
    pub fn new_test_epoch(curr: u64) -> (r: EpochPair)
        requires
            curr >= 1,
        ensures
            r.prev == curr - 1,
            r.curr == curr,
    {
        EpochPair { prev: curr - 1, curr }
    }
}

/// A write buffered for the open epoch.
#[derive(Debug)]
pub enum BufOp {
    Put(Row),
    Del,
}

/// The mathematical value of a buffered write.
pub enum BufOpVal {
    Put(Seq<DatumVal>),
    Del,
}

impl View for BufOp {
    type V = BufOpVal;

    open spec fn view(&self) -> BufOpVal {
        match self {
            BufOp::Put(r) => BufOpVal::Put(r@),
            BufOp::Del => BufOpVal::Del,
        }
    }
}

/// The projection of a row's view at the given positions.
pub open spec fn proj(r: Seq<DatumVal>, idx: Seq<usize>) -> Seq<DatumVal> {
    idx.map_values(|j: usize| r[j as int])
}

/// All-ascending directions of the given width.
pub open spec fn asc_dirs(n: nat) -> Seq<OrderType> {
    Seq::new(n, |i: int| OrderType::Ascending)
}

/// The memcomparable primary-key bytes of a row under `pk_indices`.
pub open spec fn pk_bytes(r: Seq<DatumVal>, pk_indices: Seq<usize>) -> Seq<u8> {
    mc_row(proj(r, pk_indices), asc_dirs(pk_indices.len()))
}

/// The virtual node a key row belongs to: a fold hash of its distribution
/// prefix, reduced modulo the vnode count.
pub open spec fn vnode_of_bytes(bytes: Seq<u8>) -> nat {
    bytes_hash(0, bytes) % (VNODE_COUNT as nat)
}

/// An epoch-committed, vnode-sharded table of rows keyed by their
/// memcomparable primary key.
#[derive(Debug)]
pub struct StateTable {
    /// Column types of a full row.
    pub schema: Vec<DataType>,
    /// Positions of the primary-key columns within a row, in key order.
    pub pk_indices: Vec<usize>,
    /// How many leading primary-key columns form the distribution key.
    pub dist_key_len: usize,
    /// Ownership bitmap over the vnodes.
    pub vnodes: Vec<bool>,
    /// Rows committed by closed epochs, keyed by primary-key bytes.
    pub committed: KvList<Row>,
    /// Writes of the open epoch, keyed by primary-key bytes.
    pub buffer: KvList<BufOp>,
    /// The epochs the table is bound to.
    pub epoch: EpochPair,
}

impl StateTable {
    /// A full row fits this table's schema and can be keyed.
    pub open spec fn row_fits(&self, r: Seq<DatumVal>) -> bool {
        &&& row_has_types(r, self.schema@)
        &&& row_wf(r)
        &&& forall|i: int|
            0 <= i < self.pk_indices@.len() ==> mc_supported(
                self.schema@[#[trigger] self.pk_indices@[i] as int],
            )
    }

    /// The key bytes of a full row.
    pub open spec fn key_of(&self, r: Seq<DatumVal>) -> Seq<u8> {
        pk_bytes(r, self.pk_indices@)
    }

    /// The distribution-prefix bytes of a full row: the encoding of the
    /// leading `dist_key_len` primary-key columns.
    pub open spec fn dist_bytes(&self, r: Seq<DatumVal>) -> Seq<u8> {
        mc_row(
            proj(r, self.pk_indices@.take(self.dist_key_len as int)),
            asc_dirs(self.dist_key_len as nat),
        )
    }

    /// The vnode a full row belongs to.
    pub open spec fn vnode_of_row(&self, r: Seq<DatumVal>) -> nat {
        vnode_of_bytes(self.dist_bytes(r))
    }

    /// Whether this table owns a vnode.
    pub open spec fn owns(&self, vn: nat) -> bool {
        vn < self.vnodes@.len() && self.vnodes@[vn as int]
    }

    /// Structural well-formedness: sorted backing lists whose entries are
    /// keyed by their own rows, fitting the schema.
    pub open spec fn wf(&self) -> bool {
        &&& self.committed.wf()
        &&& self.buffer.wf()
        &&& self.vnodes@.len() == VNODE_COUNT
        &&& self.dist_key_len <= self.pk_indices@.len()
        &&& forall|i: int|
            0 <= i < self.pk_indices@.len() ==> #[trigger] self.pk_indices@[i] < self.schema@.len()
        &&& forall|i: int|
            0 <= i < self.pk_indices@.len() ==> mc_supported(
                self.schema@[#[trigger] self.pk_indices@[i] as int],
            )
        &&& forall|i: int|
            0 <= i < self.committed.view_seq().len() ==> self.row_fits(
                (#[trigger] self.committed.view_seq()[i]).1,
            ) && self.committed.view_seq()[i].0 == self.key_of(self.committed.view_seq()[i].1)
        &&& forall|i: int|
            0 <= i < self.buffer.view_seq().len() ==> match (#[trigger] self.buffer.view_seq()[i]).1 {
                BufOpVal::Put(r) => self.row_fits(r) && self.buffer.view_seq()[i].0 == self.key_of(r),
                BufOpVal::Del => true,
            }
    }

    /// What the open epoch's buffer holds at a key.
    pub open spec fn buffer_get(&self, k: Seq<u8>) -> Option<BufOpVal> {
        self.buffer.spec_get(k)
    }

    /// What the committed state holds at a key.
    pub open spec fn committed_get(&self, k: Seq<u8>) -> Option<Seq<DatumVal>> {
        self.committed.spec_get(k)
    }

    /// What a read of the open epoch sees at a key, before the vnode
    /// filter: buffered writes shadow committed rows.
    pub open spec fn merged_get(&self, k: Seq<u8>) -> Option<Seq<DatumVal>> {
        match self.buffer_get(k) {
            Option::Some(BufOpVal::Put(r)) => Option::Some(r),
            Option::Some(BufOpVal::Del) => Option::None,
            Option::None => self.committed_get(k),
        }
    }

    /// A fresh table bound to an epoch, owning every vnode, with nothing
    /// committed and nothing buffered.
    pub fn new(
        schema: Vec<DataType>,
        pk_indices: Vec<usize>,
        dist_key_len: usize,
        epoch: EpochPair,
    ) -> (r: StateTable)
        requires
            dist_key_len <= pk_indices@.len(),
            forall|i: int| 0 <= i < pk_indices@.len() ==> #[trigger] pk_indices@[i] < schema@.len(),
            forall|i: int|
                0 <= i < pk_indices@.len() ==> mc_supported(
                    schema@[#[trigger] pk_indices@[i] as int],
                ),
        ensures
            r.wf(),
            r.schema@ == schema@,
            r.pk_indices@ == pk_indices@,
            r.dist_key_len == dist_key_len,
            r.epoch == epoch,
            forall|k: Seq<u8>| #[trigger] r.merged_get(k) is None,
            forall|k: Seq<u8>| #[trigger] r.buffer_get(k) is None,
            forall|vn: nat| vn < VNODE_COUNT ==> #[trigger] r.owns(vn),
    {
        let mut vnodes: Vec<bool> = Vec::new();
        let mut i: usize = 0;
        while i < VNODE_COUNT
            invariant
                i <= VNODE_COUNT,
                vnodes@.len() == i,
                forall|j: int| 0 <= j < i ==> vnodes@[j],
            decreases VNODE_COUNT - i,
        {
            vnodes.push(true);
            i = i + 1;
        }
        let r = StateTable {
            schema,
            pk_indices,
            dist_key_len,
            vnodes,
            committed: KvList::new(),
            buffer: KvList::new(),
            epoch,
        };
        r
    }

    /// Exec check that a full row fits this table, matching `row_fits`.
    pub fn row_fits_check(&self, row: &Row) -> (r: bool)
        requires
            self.wf(),
        ensures
            r == self.row_fits(row@),
    {
        let n = row.len();
        if n != self.schema.len() {
            return false;
        }
        let mut i: usize = 0;
        while i < n
            invariant
                i <= n,
                self.wf(),
                n == row@.len(),
                n == self.schema@.len(),
                forall|j: int|
                    0 <= j < i ==> crate::types::datum_has_type(#[trigger] row@[j], self.schema@[j])
                        && crate::types::datum_wf(row@[j]),
            decreases n - i,
        {
            if !crate::types::datum_has_type_exec(row.datum_at(i), self.schema[i]) {
                return false;
            }
            if !crate::types::datum_wf_exec(row.datum_at(i)) {
                return false;
            }
            i = i + 1;
        }
        true
    }

    /// Binds the table to a new epoch pair without touching its data.
    pub fn init_epoch(&mut self, epoch: EpochPair)
        requires
            old(self).wf(),
        ensures
            final(self).wf(),
            final(self).epoch == epoch,
            final(self).committed == old(self).committed,
            final(self).buffer == old(self).buffer,
            final(self).schema == old(self).schema,
            final(self).pk_indices == old(self).pk_indices,
            final(self).dist_key_len == old(self).dist_key_len,
            final(self).vnodes == old(self).vnodes,
    {
        self.epoch = epoch;
    }

    /// The primary-key bytes of a full row, computed.
    pub fn compute_key(&self, row: &Row) -> (r: Vec<u8>)
        requires
            self.wf(),
            self.row_fits(row@),
        ensures
            r@ == self.key_of(row@),
    {
        let key_row = row.project(&self.pk_indices);
        let mut dirs: Vec<OrderType> = Vec::new();
        let mut i: usize = 0;
        let n = self.pk_indices.len();
        while i < n
            invariant
                i <= n,
                dirs@.len() == i,
                forall|j: int| 0 <= j < i ==> dirs@[j] == OrderType::Ascending,
            decreases n - i,
        {
            dirs.push(OrderType::Ascending);
            i = i + 1;
        }
        let mut types: Vec<DataType> = Vec::new();
        let mut i2: usize = 0;
        while i2 < n
            invariant
                i2 <= n,
                self.wf(),
                n == self.pk_indices@.len(),
                types@.len() == i2,
                forall|j: int|
                    0 <= j < i2 ==> types@[j] == self.schema@[#[trigger] self.pk_indices@[j] as int],
            decreases n - i2,
        {
            types.push(self.schema[self.pk_indices[i2]]);
            i2 = i2 + 1;
        }
        let serde = crate::memcomp::OrderedRowSerde::new(types, dirs);
        let mut out: Vec<u8> = Vec::new();
        proof {
            assert(key_row@ =~= proj(row@, self.pk_indices@));
            assert(serde.order_types@ =~= asc_dirs(self.pk_indices@.len()));
            assert(serde_fits(key_row@, serde.schema@)) by {
                assert forall|j: int| 0 <= j < key_row@.len() implies {
                    &&& crate::types::datum_has_type(#[trigger] key_row@[j], serde.schema@[j])
                    &&& mc_supported(serde.schema@[j])
                    &&& crate::types::datum_wf(key_row@[j])
                } by {
                    let p = self.pk_indices@[j];
                    assert(key_row@[j] == row@[p as int]);
                    assert(serde.schema@[j] == self.schema@[p as int]);
                }
                assert forall|j: int|
                    0 <= j < serde.schema@.len() implies mc_supported(
                    #[trigger] serde.schema@[j],
                ) by {
                    let p = self.pk_indices@[j];
                    assert(serde.schema@[j] == self.schema@[p as int]);
                }
            }
        }
        serde.serialize(&key_row, &mut out);
        out
    }

    /// The vnode of a full row, computed from its distribution prefix.
    pub fn compute_vnode(&self, row: &Row) -> (r: usize)
        requires
            self.wf(),
            self.row_fits(row@),
        ensures
            r as nat == self.vnode_of_row(row@),
            r < VNODE_COUNT,
    {
        let mut dist_idx: Vec<usize> = Vec::new();
        let m = self.dist_key_len;
        let mut i: usize = 0;
        while i < m
            invariant
                i <= m,
                self.wf(),
                m == self.dist_key_len,
                m <= self.pk_indices@.len(),
                dist_idx@.len() == i,
                forall|j: int| 0 <= j < i ==> dist_idx@[j] == self.pk_indices@[j],
            decreases m - i,
        {
            dist_idx.push(self.pk_indices[i]);
            i = i + 1;
        }
        proof {
            assert(dist_idx@ =~= self.pk_indices@.take(m as int));
        }
        let key_row = row.project(&dist_idx);
        let mut dirs: Vec<OrderType> = Vec::new();
        let mut types: Vec<DataType> = Vec::new();
        let mut i2: usize = 0;
        while i2 < m
            invariant
                i2 <= m,
                self.wf(),
                m == self.dist_key_len,
                m <= self.pk_indices@.len(),
                dist_idx@ == self.pk_indices@.take(m as int),
                dirs@.len() == i2,
                types@.len() == i2,
                forall|j: int| 0 <= j < i2 ==> dirs@[j] == OrderType::Ascending,
                forall|j: int|
                    0 <= j < i2 ==> types@[j] == self.schema@[#[trigger] self.pk_indices@[j] as int],
            decreases m - i2,
        {
            dirs.push(OrderType::Ascending);
            types.push(self.schema[self.pk_indices[i2]]);
            i2 = i2 + 1;
        }
        let serde = crate::memcomp::OrderedRowSerde::new(types, dirs);
        let mut bytes: Vec<u8> = Vec::new();
        proof {
            assert(key_row@ =~= proj(row@, self.pk_indices@.take(m as int)));
            assert(serde.order_types@ =~= asc_dirs(m as nat));
            assert(serde_fits(key_row@, serde.schema@)) by {
                assert forall|j: int| 0 <= j < key_row@.len() implies {
                    &&& crate::types::datum_has_type(#[trigger] key_row@[j], serde.schema@[j])
                    &&& mc_supported(serde.schema@[j])
                    &&& crate::types::datum_wf(key_row@[j])
                } by {
                    let p = self.pk_indices@[j];
                    assert(key_row@[j] == row@[p as int]);
                    assert(serde.schema@[j] == self.schema@[p as int]);
                }
                assert forall|j: int|
                    0 <= j < serde.schema@.len() implies mc_supported(
                    #[trigger] serde.schema@[j],
                ) by {
                    let p = self.pk_indices@[j];
                    assert(serde.schema@[j] == self.schema@[p as int]);
                }
            }
        }
        serde.serialize(&key_row, &mut bytes);
        let n = bytes.len();
        let mut h: u64 = 0;
        let mut i3: usize = 0;
        while i3 < n
            invariant
                i3 <= n,
                n == bytes@.len(),
                h as nat == bytes_hash(0, bytes@.take(i3 as int)),
            decreases n - i3,
        {
            let wide: u128 = (h as u128) * 31 + (bytes[i3] as u128);
            proof {
                crate::row::lemma_bytes_hash_fold(0, bytes@, i3 as int);
                assert((wide as nat) % 0x10000000000000000 == crate::row::hash_step(
                    h as nat,
                    bytes@[i3 as int],
                ));
            }
            h = (wide % 0x10000000000000000) as u64;
            i3 = i3 + 1;
        }
        proof {
            assert(bytes@.take(n as int) =~= bytes@);
        }
        (h % 256) as usize
    }

    /// Buffers an insert of `row` for the open epoch: a later read of its
    /// key sees the row; no other key changes; nothing is committed yet.
    pub fn insert(&mut self, row: Row)
        requires
            old(self).wf(),
            old(self).row_fits(row@),
        ensures
            final(self).wf(),
            final(self).buffer_get(old(self).key_of(row@)) == Option::Some(BufOpVal::Put(row@)),
            forall|k: Seq<u8>|
                k != old(self).key_of(row@) ==> #[trigger] final(self).buffer_get(k) == old(
                    self,
                ).buffer_get(k),
            final(self).committed == old(self).committed,
            final(self).schema == old(self).schema,
            final(self).pk_indices == old(self).pk_indices,
            final(self).dist_key_len == old(self).dist_key_len,
            final(self).vnodes == old(self).vnodes,
            final(self).epoch == old(self).epoch,
            final(self).merged_get(old(self).key_of(row@)) == Option::Some(row@),
            forall|k: Seq<u8>|
                k != old(self).key_of(row@) ==> #[trigger] final(self).merged_get(k) == old(
                    self,
                ).merged_get(k),
    {
        let key = self.compute_key(&row);
        let ghost pre = *self;
        self.buffer.upsert(key, BufOp::Put(row));
        proof {
            lemma_buffer_wf_after(pre, *self, key@, BufOpVal::Put(row@));
        }
    }

    /// Buffers a delete of `row`'s key for the open epoch: a later read of
    /// the key sees nothing; no other key changes.
    pub fn delete(&mut self, row: Row)
        requires
            old(self).wf(),
            old(self).row_fits(row@),
        ensures
            final(self).wf(),
            final(self).buffer_get(old(self).key_of(row@)) == Option::Some(BufOpVal::Del),
            forall|k: Seq<u8>|
                k != old(self).key_of(row@) ==> #[trigger] final(self).buffer_get(k) == old(
                    self,
                ).buffer_get(k),
            final(self).committed == old(self).committed,
            final(self).schema == old(self).schema,
            final(self).pk_indices == old(self).pk_indices,
            final(self).dist_key_len == old(self).dist_key_len,
            final(self).vnodes == old(self).vnodes,
            final(self).epoch == old(self).epoch,
            final(self).merged_get(old(self).key_of(row@)) is None,
            forall|k: Seq<u8>|
                k != old(self).key_of(row@) ==> #[trigger] final(self).merged_get(k) == old(
                    self,
                ).merged_get(k),
    {
        let key = self.compute_key(&row);
        let ghost pre = *self;
        self.buffer.upsert(key, BufOp::Del);
        proof {
            lemma_buffer_wf_after(pre, *self, key@, BufOpVal::Del);
        }
    }

    /// Buffers an update: the delete of `old_row` and the insert of
    /// `new_row`, which must share a key, made atomic by sharing it.
    pub fn update(&mut self, old_row: Row, new_row: Row)
        requires
            old(self).wf(),
            old(self).row_fits(old_row@),
            old(self).row_fits(new_row@),
            old(self).key_of(old_row@) == old(self).key_of(new_row@),
        ensures
            final(self).wf(),
            final(self).merged_get(old(self).key_of(new_row@)) == Option::Some(new_row@),
            forall|k: Seq<u8>|
                k != old(self).key_of(new_row@) ==> #[trigger] final(self).merged_get(k) == old(
                    self,
                ).merged_get(k),
            final(self).committed == old(self).committed,
            final(self).schema == old(self).schema,
            final(self).pk_indices == old(self).pk_indices,
            final(self).dist_key_len == old(self).dist_key_len,
            final(self).vnodes == old(self).vnodes,
            final(self).epoch == old(self).epoch,
    {
        self.insert(new_row);
    }

    /// Reads the row stored under the primary key carried by `pk_row`,
    /// observing the open epoch's writes; a row whose vnode this table
    /// does not own is invisible.
    pub fn get_row(&self, pk_row: &Row) -> (r: Option<Row>)
        requires
            self.wf(),
            pk_row@.len() == self.pk_indices@.len(),
            row_wf(pk_row@),
            forall|i: int|
                0 <= i < pk_row@.len() ==> crate::types::datum_has_type(
                    #[trigger] pk_row@[i],
                    self.schema@[self.pk_indices@[i] as int],
                ),
        ensures
            ({
                let k = pk_bytes(pk_row@, Seq::new(pk_row@.len(), |i: int| i as usize));
                match self.merged_get(k) {
                    Option::Some(rv) => if self.owns(self.vnode_of_row(rv)) {
                        r matches Option::Some(row) && row@ == rv
                    } else {
                        r is None
                    },
                    Option::None => r is None,
                }
            }),
    {
        let n = pk_row.len();
        let mut ident: Vec<usize> = Vec::new();
        let mut i: usize = 0;
        while i < n
            invariant
                i <= n,
                ident@.len() == i,
                forall|j: int| 0 <= j < i ==> #[trigger] ident@[j] == j,
            decreases n - i,
        {
            ident.push(i);
            i = i + 1;
        }
        let mut types: Vec<DataType> = Vec::new();
        let mut dirs: Vec<OrderType> = Vec::new();
        let mut i2: usize = 0;
        while i2 < n
            invariant
                i2 <= n,
                self.wf(),
                n == pk_row@.len(),
                n == self.pk_indices@.len(),
                types@.len() == i2,
                dirs@.len() == i2,
                forall|j: int|
                    0 <= j < i2 ==> types@[j] == self.schema@[#[trigger] self.pk_indices@[j] as int],
                forall|j: int| 0 <= j < i2 ==> dirs@[j] == OrderType::Ascending,
            decreases n - i2,
        {
            types.push(self.schema[self.pk_indices[i2]]);
            dirs.push(OrderType::Ascending);
            i2 = i2 + 1;
        }
        let serde = crate::memcomp::OrderedRowSerde::new(types, dirs);
        let mut key: Vec<u8> = Vec::new();
        proof {
            assert(serde.order_types@ =~= asc_dirs(pk_row@.len()));
            assert(serde_fits(pk_row@, serde.schema@)) by {
                assert forall|j: int| 0 <= j < pk_row@.len() implies {
                    &&& crate::types::datum_has_type(#[trigger] pk_row@[j], serde.schema@[j])
                    &&& mc_supported(serde.schema@[j])
                    &&& crate::types::datum_wf(pk_row@[j])
                } by {
                    let p = self.pk_indices@[j];
                    assert(serde.schema@[j] == self.schema@[p as int]);
                    assert(crate::types::datum_has_type(pk_row@[j], self.schema@[p as int]));
                }
                assert forall|j: int|
                    0 <= j < serde.schema@.len() implies mc_supported(
                    #[trigger] serde.schema@[j],
                ) by {
                    let p = self.pk_indices@[j];
                    assert(serde.schema@[j] == self.schema@[p as int]);
                }
            }
            assert(pk_row@ =~= proj(pk_row@, Seq::new(pk_row@.len(), |i: int| i as usize)));
        }
        serde.serialize(pk_row, &mut key);
        let ghost kspec = pk_bytes(pk_row@, Seq::new(pk_row@.len(), |i: int| i as usize));
        proof {
            assert(key@ == kspec);
        }
        match self.buffer.get(&key) {
            Option::Some(op) => match op {
                BufOp::Put(row) => {
                    proof {
                        crate::kvlist::lemma_assoc_some_has_key(self.buffer.view_seq(), key@);
                        let i = choose|i: int|
                            0 <= i < self.buffer.view_seq().len() && (
                            #[trigger] self.buffer.view_seq()[i]).0 == key@;
                        crate::kvlist::lemma_assoc_at(self.buffer.view_seq(), i);
                    }
                    let vn = self.compute_vnode(row);
                    if self.vnodes[vn] {
                        Option::Some(row.to_owned_row())
                    } else {
                        Option::None
                    }
                },
                BufOp::Del => Option::None,
            },
            Option::None => {
                match self.committed.get(&key) {
                    Option::Some(row) => {
                        proof {
                            crate::kvlist::lemma_assoc_some_has_key(self.committed.view_seq(), key@);
                            let i = choose|i: int|
                                0 <= i < self.committed.view_seq().len() && (
                                #[trigger] self.committed.view_seq()[i]).0 == key@;
                            crate::kvlist::lemma_assoc_at(self.committed.view_seq(), i);
                        }
                        let vn = self.compute_vnode(row);
                        if self.vnodes[vn] {
                            Option::Some(row.to_owned_row())
                        } else {
                            Option::None
                        }
                    },
                    Option::None => Option::None,
                }
            },
        }
    }
}

/// After one buffered write whose entry respects the table's keying, the
/// buffer's entries all still do.
proof fn lemma_buffer_wf_after(pre: StateTable, post: StateTable, k: Seq<u8>, v: BufOpVal)
    requires
        pre.wf(),
        post.committed == pre.committed,
        post.schema == pre.schema,
        post.pk_indices == pre.pk_indices,
        post.dist_key_len == pre.dist_key_len,
        post.vnodes == pre.vnodes,
        post.buffer.wf(),
        match v {
            BufOpVal::Put(r) => pre.row_fits(r) && k == pre.key_of(r),
            BufOpVal::Del => true,
        },
        forall|i: int|
            0 <= i < post.buffer.view_seq().len() ==> ((#[trigger] post.buffer.view_seq()[i].0 == k
                && post.buffer.view_seq()[i].1 == v) || pre.buffer.spec_get(
                post.buffer.view_seq()[i].0,
            ) == Option::Some(post.buffer.view_seq()[i].1)),
    ensures
        post.wf(),
{
    assert forall|i: int| 0 <= i < post.buffer.view_seq().len() implies match (
    #[trigger] post.buffer.view_seq()[i]).1 {
        BufOpVal::Put(r) => post.row_fits(r) && post.buffer.view_seq()[i].0 == post.key_of(r),
        BufOpVal::Del => true,
    } by {
        if post.buffer.view_seq()[i].0 == k && post.buffer.view_seq()[i].1 == v {
        } else {
            crate::kvlist::lemma_assoc_some_index(
                pre.buffer.view_seq(),
                post.buffer.view_seq()[i].0,
            );
        }
    }
}

/// The mathematical pairs carried by a vector of key-row pairs.
pub open spec fn kv_pairs_view(s: Seq<(Vec<u8>, Row)>) -> Seq<(Seq<u8>, Seq<DatumVal>)> {
    s.map_values(|e: (Vec<u8>, Row)| (e.0@, e.1@))
}

impl StateTable {
    /// What one buffered write makes of a read, over what stood below it.
    pub open spec fn apply_op(op: Option<BufOpVal>, below: Option<Seq<DatumVal>>) -> Option<
        Seq<DatumVal>,
    > {
        match op {
            Option::Some(BufOpVal::Put(r)) => Option::Some(r),
            Option::Some(BufOpVal::Del) => Option::None,
            Option::None => below,
        }
    }

    /// A copy of the visible keyed state: committed rows with the open
    /// epoch's writes applied.
    fn merged_snapshot(&self) -> (r: KvList<Row>)
        requires
            self.wf(),
        ensures
            r.wf(),
            forall|k: Seq<u8>| #[trigger] r.spec_get(k) == self.merged_get(k),
            forall|i: int|
                0 <= i < r.view_seq().len() ==> self.row_fits((#[trigger] r.view_seq()[i]).1)
                    && r.view_seq()[i].0 == self.key_of(r.view_seq()[i].1),
    {
        let mut out: Vec<(Vec<u8>, Row)> = Vec::new();
        let n = self.committed.len();
        let mut i: usize = 0;
        while i < n
            invariant
                i <= n,
                self.wf(),
                n == self.committed.view_seq().len(),
                kv_pairs_view(out@) =~= self.committed.view_seq().take(
                    i as int,
                ),
            decreases n - i,
        {
            let (k, v) = self.committed.entry_at(i);
            let kc = crate::numbytes::clone_bytes(k);
            let vc = v.to_owned_row();
            let ghost pre_out = out@;
            out.push((kc, vc));
            proof {
                assert(kv_pairs_view(pre_out).len() == pre_out.len());
                assert(pre_out.len() == i as int);
                assert((kc@, vc@) == self.committed.view_seq()[i as int]);
                assert(out@ =~= pre_out.push((kc, vc)));
                assert forall|jj: int| 0 <= jj < i + 1 implies #[trigger] kv_pairs_view(out@)[jj]
                    == self.committed.view_seq().take(i + 1)[jj] by {
                    if jj < i {
                        assert(kv_pairs_view(out@)[jj] == kv_pairs_view(pre_out)[jj]);
                        assert(kv_pairs_view(pre_out)[jj] == self.committed.view_seq().take(
                            i as int,
                        )[jj]);
                    } else {
                        assert(out@[jj] == (kc, vc));
                    }
                }
                assert(kv_pairs_view(out@) =~= self.committed.view_seq().take(i + 1));
            }
            i = i + 1;
        }
        let mut merged = KvList { entries: out };
        proof {
            assert(self.committed.view_seq().take(n as int) =~= self.committed.view_seq());
            assert(merged.view_seq() =~= self.committed.view_seq());
        }
        let bn = self.buffer.len();
        let mut j: usize = 0;
        proof {
            assert(self.buffer.view_seq().take(0) =~= Seq::<(Seq<u8>, BufOpVal)>::empty());
        }
        while j < bn
            invariant
                j <= bn,
                self.wf(),
                bn == self.buffer.view_seq().len(),
                merged.wf(),
                forall|k: Seq<u8>| #[trigger]
                    merged.spec_get(k) == StateTable::apply_op(
                        assoc(self.buffer.view_seq().take(j as int), k),
                        self.committed_get(k),
                    ),
                forall|i2: int|
                    0 <= i2 < merged.view_seq().len() ==> self.row_fits(
                        (#[trigger] merged.view_seq()[i2]).1,
                    ) && merged.view_seq()[i2].0 == self.key_of(merged.view_seq()[i2].1),
            decreases bn - j,
        {
            let (bk, bop) = self.buffer.entry_at(j);
            let ghost pre = merged;
            let ghost bufpre = self.buffer.view_seq().take(j as int);
            proof {
                assert(self.buffer.view_seq().take(j + 1) =~= bufpre.push(
                    self.buffer.view_seq()[j as int],
                ));
                // The buffer's keys are unique, so this key is new to the prefix.
                assert(assoc(bufpre, self.buffer.view_seq()[j as int].0) is None) by {
                    if assoc(bufpre, self.buffer.view_seq()[j as int].0) is Some {
                        crate::kvlist::lemma_assoc_some_index(
                            bufpre,
                            self.buffer.view_seq()[j as int].0,
                        );
                        let x = choose|x: int|
                            0 <= x < bufpre.len() && (#[trigger] bufpre[x]).0
                                == self.buffer.view_seq()[j as int].0;
                        assert(self.buffer.view_seq()[x].0 == self.buffer.view_seq()[j as int].0);
                        assert(crate::numbytes::lex_cmp(
                            self.buffer.view_seq()[x].0,
                            self.buffer.view_seq()[j as int].0,
                        ) < 0);
                        crate::numbytes::lemma_lex_cmp_refl(self.buffer.view_seq()[j as int].0);
                    }
                }
            }
            match bop {
                BufOp::Put(r) => {
                    let kc = crate::numbytes::clone_bytes(bk);
                    let rc = r.to_owned_row();
                    merged.upsert(kc, rc);
                },
                BufOp::Del => {
                    merged.remove(bk);
                },
            }
            proof {
                assert forall|k: Seq<u8>| #[trigger]
                    merged.spec_get(k) == StateTable::apply_op(
                        assoc(self.buffer.view_seq().take(j + 1), k),
                        self.committed_get(k),
                    ) by {
                    crate::kvlist::lemma_assoc_push(
                        bufpre,
                        self.buffer.view_seq()[j as int],
                        k,
                    );
                }
                assert forall|i2: int| 0 <= i2 < merged.view_seq().len() implies self.row_fits(
                    (#[trigger] merged.view_seq()[i2]).1,
                ) && merged.view_seq()[i2].0 == self.key_of(merged.view_seq()[i2].1) by {
                    if merged.view_seq()[i2].0 == self.buffer.view_seq()[j as int].0
                        && self.buffer.view_seq()[j as int].1 is Put && merged.view_seq()[i2].1
                        == self.buffer.view_seq()[j as int].1->Put_0 {
                    } else {
                        crate::kvlist::lemma_assoc_some_index(
                            pre.view_seq(),
                            merged.view_seq()[i2].0,
                        );
                    }
                }
            }
            j = j + 1;
        }
        proof {
            assert(self.buffer.view_seq().take(bn as int) =~= self.buffer.view_seq());
        }
        merged
    }

    /// Atomically publishes the open epoch's writes and advances to the
    /// next epoch pair: every key now reads committed what it read merged;
    /// the buffer empties.
    pub fn commit(&mut self, new_epoch: EpochPair)
        requires
            old(self).wf(),
            new_epoch.curr > old(self).epoch.curr,
        ensures
            final(self).wf(),
            forall|k: Seq<u8>| #[trigger] final(self).committed_get(k) == old(self).merged_get(k),
            forall|k: Seq<u8>| #[trigger] final(self).buffer_get(k) is None,
            forall|k: Seq<u8>| #[trigger] final(self).merged_get(k) == old(self).merged_get(k),
            final(self).epoch == new_epoch,
            final(self).schema == old(self).schema,
            final(self).pk_indices == old(self).pk_indices,
            final(self).dist_key_len == old(self).dist_key_len,
            final(self).vnodes == old(self).vnodes,
    {
        let merged = self.merged_snapshot();
        self.committed = merged;
        self.buffer = KvList::new();
        self.epoch = new_epoch;
        proof {
            assert forall|k: Seq<u8>| #[trigger] self.buffer_get(k) is None by {
                crate::kvlist::lemma_assoc_absent(self.buffer.view_seq(), k);
            }
        }
    }

    /// Discards the open epoch's buffered writes: committed state is
    /// untouched, and nothing of the epoch remains visible.
    pub fn abort(&mut self)
        requires
            old(self).wf(),
        ensures
            final(self).wf(),
            forall|k: Seq<u8>| #[trigger] final(self).buffer_get(k) is None,
            forall|k: Seq<u8>| #[trigger] final(self).merged_get(k) == old(self).committed_get(k),
            final(self).committed == old(self).committed,
            final(self).epoch == old(self).epoch,
            final(self).schema == old(self).schema,
            final(self).pk_indices == old(self).pk_indices,
            final(self).dist_key_len == old(self).dist_key_len,
            final(self).vnodes == old(self).vnodes,
    {
        self.buffer = KvList::new();
        proof {
            assert forall|k: Seq<u8>| #[trigger] self.buffer_get(k) is None by {
                crate::kvlist::lemma_assoc_absent(self.buffer.view_seq(), k);
            }
        }
    }

    /// Replaces the vnode ownership bitmap, returning the previous one.
    /// No data moves; only visibility changes.
    pub fn update_vnode_bitmap(&mut self, bitmap: Vec<bool>) -> (r: Vec<bool>)
        requires
            old(self).wf(),
            bitmap@.len() == VNODE_COUNT,
        ensures
            final(self).wf(),
            r@ == old(self).vnodes@,
            final(self).vnodes@ == bitmap@,
            final(self).committed == old(self).committed,
            final(self).buffer == old(self).buffer,
            final(self).epoch == old(self).epoch,
            final(self).schema == old(self).schema,
            final(self).pk_indices == old(self).pk_indices,
            final(self).dist_key_len == old(self).dist_key_len,
    {
        let mut b = bitmap;
        core::mem::swap(&mut b, &mut self.vnodes);
        b
    }

    /// All visible rows whose key starts with `prefix`, with their keys,
    /// in ascending key order: the open epoch's writes are seen, rows of
    /// unowned vnodes are not.
    pub fn iter_key_and_val(&self, prefix: &Vec<u8>) -> (out: Vec<(Vec<u8>, Row)>)
        requires
            self.wf(),
        ensures
            ({
                let res = kv_pairs_view(out@);
                &&& crate::kvlist::sorted_keys(res)
                &&& forall|i: int|
                    0 <= i < res.len() ==> is_prefix_of(prefix@, (#[trigger] res[i]).0)
                        && self.merged_get(res[i].0) == Option::Some(res[i].1) && self.owns(
                        self.vnode_of_row(res[i].1),
                    ) && self.row_fits(res[i].1)
                &&& forall|k: Seq<u8>|
                    (is_prefix_of(prefix@, k) && #[trigger] self.merged_get(k) is Some && self.owns(
                        self.vnode_of_row(self.merged_get(k)->Some_0),
                    )) ==> crate::kvlist::has_key(res, k)
            }),
    {
        let merged = self.merged_snapshot();
        let mut out: Vec<(Vec<u8>, Row)> = Vec::new();
        let n = merged.len();
        let mut i: usize = 0;
        while i < n
            invariant
                i <= n,
                self.wf(),
                merged.wf(),
                n == merged.view_seq().len(),
                forall|k: Seq<u8>| #[trigger] merged.spec_get(k) == self.merged_get(k),
                forall|i2: int|
                    0 <= i2 < merged.view_seq().len() ==> self.row_fits(
                        (#[trigger] merged.view_seq()[i2]).1,
                    ) && merged.view_seq()[i2].0 == self.key_of(merged.view_seq()[i2].1),
                ({
                    let res = kv_pairs_view(out@);
                    &&& forall|a: int|
                        0 <= a < res.len() ==> exists|b: int|
                            0 <= b < i && (#[trigger] res[a]) == merged.view_seq()[b]
                    &&& crate::kvlist::sorted_keys(res)
                    &&& forall|a: int|
                        0 <= a < res.len() ==> is_prefix_of(prefix@, (#[trigger] res[a]).0)
                            && self.merged_get(res[a].0) == Option::Some(res[a].1) && self.owns(
                            self.vnode_of_row(res[a].1),
                        ) && self.row_fits(res[a].1)
                    &&& forall|b: int|
                        0 <= b < i && is_prefix_of(prefix@, (#[trigger] merged.view_seq()[b]).0)
                            && self.owns(self.vnode_of_row(merged.view_seq()[b].1)) ==> crate::kvlist::has_key(
                            res,
                            merged.view_seq()[b].0,
                        )
                }),
            decreases n - i,
        {
            let (k, v) = merged.entry_at(i);
            let ghost res_pre = kv_pairs_view(out@);
            let p_ok = crate::numbytes::bytes_is_prefix(prefix, k);
            let vn = self.compute_vnode(v);
            let v_ok = self.vnodes[vn];
            if p_ok && v_ok {
                let kc = crate::numbytes::clone_bytes(k);
                let vc = v.to_owned_row();
                out.push((kc, vc));
                proof {
                    let res = kv_pairs_view(out@);
                    assert((kc@, vc@) == merged.view_seq()[i as int]);
                    assert(res_pre.len() == out@.len() - 1);
                    assert forall|jj: int| 0 <= jj < res.len() implies #[trigger] res[jj] == (
                    if jj < res.len() - 1 {
                        res_pre[jj]
                    } else {
                        merged.view_seq()[i as int]
                    }) by {
                        if jj < res.len() - 1 {
                            assert(out@[jj] == out@.drop_last()[jj]);
                        }
                    }
                    assert(res =~= res_pre.push(merged.view_seq()[i as int]));
                    crate::kvlist::lemma_assoc_at(merged.view_seq(), i as int);
                    assert(merged.spec_get(merged.view_seq()[i as int].0) == self.merged_get(
                        merged.view_seq()[i as int].0,
                    ));
                    assert forall|a: int| 0 <= a < res.len() implies is_prefix_of(
                        prefix@,
                        (#[trigger] res[a]).0,
                    ) && self.merged_get(res[a].0) == Option::Some(res[a].1) && self.owns(
                        self.vnode_of_row(res[a].1),
                    ) && self.row_fits(res[a].1) by {
                        if a == res.len() - 1 {
                            assert(res[a] == merged.view_seq()[i as int]);
                        } else {
                            assert(res[a] == res_pre[a]);
                        }
                    }
                    assert forall|a: int, b: int| 0 <= a < b < res.len() implies
                        crate::numbytes::lex_cmp(
                        #[trigger] res[a].0,
                        #[trigger] res[b].0,
                    ) < 0 by {
                        if b == res.len() - 1 {
                            let c = choose|c: int|
                                0 <= c < i && (#[trigger] res_pre[a]) == merged.view_seq()[c];
                            assert(res[a] == merged.view_seq()[c]);
                        }
                    }
                    assert forall|a: int| 0 <= a < res.len() implies exists|b: int|
                        0 <= b < i + 1 && (#[trigger] res[a]) == merged.view_seq()[b] by {
                        if a < res.len() - 1 {
                            let c = choose|c: int|
                                0 <= c < i && (#[trigger] res_pre[a]) == merged.view_seq()[c];
                            assert(res[a] == merged.view_seq()[c]);
                        } else {
                            assert(res[a] == merged.view_seq()[i as int]);
                        }
                    }
                }
            }
            proof {
                let res = kv_pairs_view(out@);
                assert forall|b: int|
                    0 <= b < i + 1 && is_prefix_of(prefix@, (#[trigger] merged.view_seq()[b]).0)
                        && self.owns(self.vnode_of_row(merged.view_seq()[b].1)) implies crate::kvlist::has_key(
                    res,
                    merged.view_seq()[b].0,
                ) by {
                    if b < i {
                        assert(crate::kvlist::has_key(res_pre, merged.view_seq()[b].0));
                        let a = choose|a: int|
                            0 <= a < res_pre.len() && (#[trigger] res_pre[a]).0
                                == merged.view_seq()[b].0;
                        assert(res[a].0 == merged.view_seq()[b].0);
                    } else {
                        assert(p_ok && v_ok);
                        assert(res[res.len() - 1].0 == merged.view_seq()[b].0);
                    }
                }
            }
            i = i + 1;
        }
        proof {
            let res = kv_pairs_view(out@);
            assert forall|k: Seq<u8>|
                (is_prefix_of(prefix@, k) && #[trigger] self.merged_get(k) is Some && self.owns(
                    self.vnode_of_row(self.merged_get(k)->Some_0),
                )) implies crate::kvlist::has_key(res, k) by {
                assert(merged.spec_get(k) == self.merged_get(k));
                crate::kvlist::lemma_assoc_some_index(merged.view_seq(), k);
                let b = choose|b: int|
                    0 <= b < merged.view_seq().len() && (#[trigger] merged.view_seq()[b]).0 == k
                        && merged.view_seq()[b].1 == assoc(merged.view_seq(), k)->Some_0;
                assert(crate::kvlist::has_key(res, merged.view_seq()[b].0));
            }
        }
        out
    }

    /// As `iter_key_and_val`, rows only.
    pub fn iter_with_pk_prefix(&self, prefix: &Vec<u8>) -> (out: Vec<Row>)
        requires
            self.wf(),
        ensures
            exists|kv: Seq<(Seq<u8>, Seq<DatumVal>)>|
                {
                    &&& crate::kvlist::sorted_keys(kv)
                    &&& out@.map_values(|r: Row| r@) =~= kv.map_values(
                        |e: (Seq<u8>, Seq<DatumVal>)| e.1,
                    )
                    &&& forall|i: int|
                        0 <= i < kv.len() ==> is_prefix_of(prefix@, (#[trigger] kv[i]).0)
                            && self.merged_get(kv[i].0) == Option::Some(kv[i].1) && self.owns(
                            self.vnode_of_row(kv[i].1),
                        )
                    &&& forall|k: Seq<u8>|
                        (is_prefix_of(prefix@, k) && #[trigger] self.merged_get(k) is Some
                            && self.owns(self.vnode_of_row(self.merged_get(k)->Some_0)))
                            ==> crate::kvlist::has_key(kv, k)
                },
    {
        let pairs = self.iter_key_and_val(prefix);
        let ghost kv = kv_pairs_view(pairs@);
        let mut out: Vec<Row> = Vec::new();
        let n = pairs.len();
        let mut i: usize = 0;
        while i < n
            invariant
                i <= n,
                n == pairs@.len(),
                out@.map_values(|r: Row| r@) =~= kv.map_values(|e: (Seq<u8>, Seq<DatumVal>)| e.1).take(
                    i as int,
                ),
                kv == kv_pairs_view(pairs@),
            decreases n - i,
        {
            let rc = pairs[i].1.to_owned_row();
            let ghost pre_out = out@;
            out.push(rc);
            proof {
                assert(kv[i as int].1 == pairs@[i as int].1@);
                assert(rc@ == kv[i as int].1);
                assert(pre_out.map_values(|r: Row| r@).len() == pre_out.len());
                assert(pre_out.len() == i as int);
                assert(out@ =~= pre_out.push(rc));
                assert forall|jj: int| 0 <= jj < i + 1 implies out@.map_values(
                    |r: Row| r@,
                )[jj] == kv.map_values(|e: (Seq<u8>, Seq<DatumVal>)| e.1).take(i + 1)[#[trigger] (jj + 0)] by {
                    if jj < i {
                        assert(out@.map_values(|r: Row| r@)[jj] == pre_out.map_values(
                            |r: Row| r@,
                        )[jj]);
                        assert(pre_out.map_values(|r: Row| r@)[jj] == kv.map_values(
                            |e: (Seq<u8>, Seq<DatumVal>)| e.1,
                        ).take(i as int)[jj]);
                    } else {
                        assert(out@[jj] == rc);
                    }
                }
                assert(out@.map_values(|r: Row| r@) =~= kv.map_values(
                    |e: (Seq<u8>, Seq<DatumVal>)| e.1,
                ).take(i + 1));
            }
            i = i + 1;
        }
        proof {
            assert(kv.map_values(|e: (Seq<u8>, Seq<DatumVal>)| e.1).take(n as int) =~= kv.map_values(
                |e: (Seq<u8>, Seq<DatumVal>)| e.1,
            ));
        }
        out
    }
}

/// Whatever a merged read returns fits the table's schema: both backing
/// lists hold only keyed, fitting rows.
pub proof fn lemma_merged_get_fits(t: StateTable, k: Seq<u8>)
    requires
        t.wf(),
        t.merged_get(k) is Some,
    ensures
        t.row_fits(t.merged_get(k)->Some_0),
{
    match t.buffer_get(k) {
        Option::Some(BufOpVal::Put(r)) => {
            crate::kvlist::lemma_assoc_some_index(t.buffer.view_seq(), k);
        },
        Option::Some(BufOpVal::Del) => {},
        Option::None => {
            crate::kvlist::lemma_assoc_some_index(t.committed.view_seq(), k);
        },
    }
}

/// Within an epoch a buffered write is what a read of its key sees: a
/// buffered insert reads back as its row, a buffered delete as absent.
pub proof fn lemma_read_your_writes(t: StateTable, k: Seq<u8>)
    ensures
        t.buffer_get(k) matches Option::Some(BufOpVal::Put(r)) ==> t.merged_get(k)
            == Option::Some(r),
        t.buffer_get(k) == Option::Some(BufOpVal::Del) ==> t.merged_get(k) is None,
{
}

/// Flushing an epoch with no buffered writes changes nothing visible:
/// every key reads committed what it read merged.
pub proof fn lemma_flush_no_writes_noop(t: StateTable)
    requires
        forall|k: Seq<u8>| #[trigger] t.buffer_get(k) is None,
    ensures
        forall|k: Seq<u8>| #[trigger] t.merged_get(k) == t.committed_get(k),
{
}

} // verus!
