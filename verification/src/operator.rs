//! The hash-join operator core: for each incoming record, probe the
//! opposite side's entry, emit one joined row per match, adjust the
//! matches' degrees, and write the record into its own side. Barriers
//! commit both sides; vnode changes forward to both sides.

use vstd::prelude::*;

use crate::join::EncodedJoinRow;
use crate::join::JoinEntryState;
use crate::join::JoinError;
use crate::join::JoinHashMap;
use crate::join::JoinRow;
use crate::join::MAX_DEGREE;
use crate::row::Row;
use crate::state_table::EpochPair;
use crate::types::Datum;
use crate::types::DatumVal;

verus! {

/// The op flag a record carries in a chunk.
#[derive(Clone, Copy, Debug, PartialEq, Eq, Structural)]
pub enum Op {
    Insert,
    Delete,
    UpdateDelete,
    UpdateInsert,
}

/// The sides of the join.
#[derive(Clone, Copy, Debug, PartialEq, Eq, Structural)]
pub enum JoinSide {
    Left,
    Right,
}

/// A streaming inner equi-join over two keyed sides.
pub struct HashJoinOperator {
    /// State of the left input.
    pub left: JoinHashMap,
    /// State of the right input.
    pub right: JoinHashMap,
    /// Positions of the join key columns within a left row.
    pub left_key_indices: Vec<usize>,
    /// Positions of the join key columns within a right row.
    pub right_key_indices: Vec<usize>,
}

/// Why a probe failed: a corrupt visible degree row on a cache miss, an
/// undecodable cached row, or a matched degree that cannot bear the
/// probe's change.
pub open spec fn probe_err_cause(
    other: JoinHashMap,
    kb: Seq<u8>,
    op: Op,
    e: JoinError,
) -> bool {
    &&& ((e == JoinError::NullDegree || e == JoinError::NegativeDegree) ==> other.cache_get(
        kb,
    ) is None && exists|pk: Seq<u8>|
        #[trigger] other.fetched_row(kb, pk) is Some && other.fetch_corruption(kb, pk)
            == Option::Some(e))
    &&& (e == JoinError::Encoding ==> match other.cache_get(kb) {
        Option::Some(Option::Some(c)) => exists|x: int|
            0 <= x < c.len() && crate::value::spec_decode_row(
                (#[trigger] c[x]).1.0,
                other.state.schema@,
            ) is None,
        _ => false,
    })
    &&& (e == JoinError::DegreeUnderflow ==> op == Op::Delete && match other.cache_get(kb) {
        Option::Some(Option::Some(c)) => exists|x: int|
            0 <= x < c.len() && (#[trigger] c[x]).1.1 == 0,
        Option::None => exists|pk: Seq<u8>|
            #[trigger] other.fetched_row(kb, pk) is Some && other.spec_fetched_degree(kb, pk)
                == Option::Some(0u64),
        _ => false,
    })
    &&& (e == JoinError::DegreeOverflow ==> match other.cache_get(kb) {
        Option::Some(Option::Some(c)) => exists|x: int|
            0 <= x < c.len() && ((op == Op::Insert && (#[trigger] c[x]).1.1 >= MAX_DEGREE) || (op
                == Op::Delete && c[x].1.1 > MAX_DEGREE)),
        Option::None => op == Op::Insert && exists|pk: Seq<u8>|
            #[trigger] other.fetched_row(kb, pk) is Some && other.spec_fetched_degree(kb, pk)
                == Option::Some(MAX_DEGREE),
        _ => false,
    })
    &&& (e == JoinError::NullDegree || e == JoinError::NegativeDegree || e == JoinError::Encoding
        || e == JoinError::DegreeUnderflow || e == JoinError::DegreeOverflow)
}

/// Probes one side's entry for a record of the opposite side: takes the
/// entry, emits one joined row per stored row, adjusts each degree by one,
/// and puts the adjusted entry back. On failure the probed side's tables
/// are untouched.
#[verifier::rlimit(100)]
fn probe_map(other: &mut JoinHashMap, own_first: bool, op: Op, row: &Row, key: &Row) -> (r: Result<
    Vec<(Op, Row)>,
    JoinError,
>)
    requires
        old(other).wf(),
        old(other).key_fits(key@),
        old(other).cache_get(old(other).spec_key_bytes(key@)) != Option::Some(
            Option::<Seq<(Seq<u8>, (Seq<u8>, u64))>>::None,
        ),
        old(other).metrics.total_lookup_count < usize::MAX - 1,
        old(other).metrics.lookup_miss_count < usize::MAX - 1,
        op == Op::Insert || op == Op::Delete,
    ensures
        final(other).wf(),
        final(other).state == old(other).state,
        final(other).join_key_data_types == old(other).join_key_data_types,
        final(other).need_degree_table == old(other).need_degree_table,
        final(other).null_matched == old(other).null_matched,
        match r {
            Result::Ok(out) => {
                let kb = old(other).spec_key_bytes(key@);
                &&& forall|i: int| 0 <= i < out@.len() ==> (#[trigger] out@[i]).0 == op
                &&& exists|cs: Seq<(Seq<u8>, (Seq<u8>, u64))>|
                    {
                        &&& crate::kvlist::sorted_keys(cs)
                        &&& match old(other).cache_get(kb) {
                            Option::Some(slot) => slot == Option::Some(cs),
                            Option::None => forall|pk: Seq<u8>| #[trigger]
                                crate::kvlist::assoc(cs, pk) == old(other).fetched_entry_at(
                                    kb,
                                    pk,
                                ),
                        }
                        &&& out@.len() == cs.len()
                        &&& forall|i: int|
                            0 <= i < out@.len() ==> crate::value::spec_decode_row(
                                (#[trigger] cs[i]).1.0,
                                old(other).state.schema@,
                            ) is Some && out@[i].1@ == (if own_first {
                                row@ + crate::value::spec_decode_row(
                                    cs[i].1.0,
                                    old(other).state.schema@,
                                )->Some_0
                            } else {
                                crate::value::spec_decode_row(
                                    cs[i].1.0,
                                    old(other).state.schema@,
                                )->Some_0 + row@
                            })
                    }
            },
            Result::Err(e) => {
                &&& final(other).degree_state == old(other).degree_state
                &&& probe_err_cause(*old(other), old(other).spec_key_bytes(key@), op, e)
            },
        },
{
    let entry = match other.take_state(key) {
        Result::Ok(e) => e,
        Result::Err(e) => {
            proof {
                let kb2 = old(other).spec_key_bytes(key@);
                let pk = choose|pk: Seq<u8>|
                    #[trigger] old(other).fetched_row(kb2, pk) is Some && old(
                        other,
                    ).fetch_corruption(kb2, pk) == Option::Some(e);
                assert(e == JoinError::NullDegree || e == JoinError::NegativeDegree);
                assert(old(other).cache_get(kb2) is None);
            }
            return Result::Err(e);
        },
    };
    let ghost cs = entry.contents();
    let ghost kb = old(other).spec_key_bytes(key@);
    let ghost probe_miss = old(other).cache_get(kb) is None;
    let other_types = crate::join::copy_types(&other.state.schema);
    proof {
        assert(other_types@ == old(other).state.schema@);
    }
    // Validate the entry before touching any state: every stored row must
    // decode, and every degree must bear the change.
    match crate::join::entry_probe_check(&entry, op == Op::Insert, &other_types) {
        Result::Ok(u) => {},
        Result::Err(e) => {
            proof {
                let x = choose|x: int|
                    0 <= x < cs.len() && ((e == JoinError::Encoding
                        && crate::value::spec_decode_row(
                        (#[trigger] cs[x]).1.0,
                        other_types@,
                    ) is None) || (e == JoinError::DegreeOverflow && ((op == Op::Insert && cs[x].1.1
                        >= MAX_DEGREE) || (op != Op::Insert && cs[x].1.1 > MAX_DEGREE))) || (e
                        == JoinError::DegreeUnderflow && op != Op::Insert && cs[x].1.1 == 0));
                if probe_miss {
                    crate::kvlist::lemma_assoc_at(cs, x);
                    assert(entry.spec_get(cs[x].0) == Option::Some(cs[x].1));
                    assert(entry.spec_get(cs[x].0) == old(other).fetched_entry_at(kb, cs[x].0));
                    assert(old(other).fetched_entry_at(kb, cs[x].0) == Option::Some(cs[x].1));
                    assert(old(other).fetched_row(kb, cs[x].0) is Some);
                    crate::join::lemma_fetched_degree_sound(*old(other), kb, cs[x].0);
                    assert(old(other).spec_fetched_degree(kb, cs[x].0) is Some);
                    assert(cs[x].1.1 == old(other).spec_fetched_degree(kb, cs[x].0)->Some_0);
                    if e == JoinError::Encoding {
                        let rrow = old(other).fetched_row(kb, cs[x].0)->Some_0;
                        crate::state_table::lemma_merged_get_fits(old(other).state, cs[x].0);
                        crate::value::lemma_row_round_trip(
                            rrow,
                            old(other).state.schema@,
                            Seq::empty(),
                        );
                        assert(crate::value::row_encoding(rrow) + Seq::<u8>::empty()
                            =~= crate::value::row_encoding(rrow));
                        assert(false);
                    }
                } else {
                    assert(old(other).cache_get(kb) == Option::Some(Option::Some(cs)));
                }
            }
            return Result::Err(e);
        },
    }
    let n = entry.len();
    let mut i: usize = 0;
    let mut out: Vec<(Op, Row)> = Vec::new();
    let mut rebuilt = JoinEntryState::new();
    while i < n
        invariant
            i <= n,
            other.wf(),
            entry.wf(),
            rebuilt.wf(),
            n == entry.contents().len(),
            op == Op::Insert || op == Op::Delete,
            out@.len() == i,
            cs == entry.contents(),
            other.state == old(other).state,
            other.join_key_data_types == old(other).join_key_data_types,
            other.need_degree_table == old(other).need_degree_table,
            other.null_matched == old(other).null_matched,
            other_types@ == old(other).state.schema@,
            forall|a: int| 0 <= a < out@.len() ==> (#[trigger] out@[a]).0 == op,
            forall|x: int|
                0 <= x < cs.len() ==> crate::value::spec_decode_row(
                    (#[trigger] cs[x]).1.0,
                    other_types@,
                ) is Some && (op == Op::Insert ==> cs[x].1.1 < MAX_DEGREE) && (op == Op::Delete
                    ==> 0 < cs[x].1.1 <= MAX_DEGREE),
            forall|a: int|
                0 <= a < i ==> out@[a].1@ == (if own_first {
                    row@ + crate::value::spec_decode_row(
                        (#[trigger] cs[a]).1.0,
                        other_types@,
                    )->Some_0
                } else {
                    crate::value::spec_decode_row((#[trigger] cs[a]).1.0, other_types@)->Some_0
                        + row@
                }),
        decreases n - i,
    {
        let (pkb, enc) = entry.entry_at(i);
        let mut jr = match enc.decode(&other_types) {
            Result::Ok(jr) => jr,
            Result::Err(e) => {
                proof {
                    // The entry was validated: every row decodes.
                    assert(enc@ == cs[i as int].1);
                    assert(false);
                }
                return Result::Err(e);
            },
        };
        let mut enc2 = EncodedJoinRow {
            compacted_row: crate::numbytes::clone_bytes(&enc.compacted_row),
            degree: enc.degree,
        };
        if other.need_degree_table {
            proof {
                crate::value::lemma_spec_decode_row_wf(enc.compacted_row@, other_types@);
                assert(other.state.row_fits(jr.row@));
            }
            match op {
                Op::Insert => {
                    if jr.degree >= MAX_DEGREE {
                        proof {
                            // The entry was validated: an insert probe has
                            // room on every degree.
                            assert(enc@ == cs[i as int].1);
                            assert(false);
                        }
                        return Result::Err(JoinError::DegreeOverflow);
                    }
                    other.inc_degree(&mut enc2, &mut jr);
                },
                _ => {
                    if jr.degree == 0 || jr.degree > MAX_DEGREE {
                        proof {
                            // The entry was validated: a retraction probe
                            // finds every degree in range.
                            assert(enc@ == cs[i as int].1);
                            assert(false);
                        }
                        return Result::Err(JoinError::DegreeUnderflow);
                    }
                    other.dec_degree(&mut enc2, &mut jr);
                },
            }
        }
        // Emit the joined row, the record's own columns first when it came
        // from the left.
        let joined = if own_first {
            concat_rows(row, &jr.row)
        } else {
            concat_rows(&jr.row, row)
        };
        proof {
            assert(enc@ == cs[i as int].1);
            assert(crate::value::spec_decode_row(cs[i as int].1.0, other_types@) == Option::Some(
                jr.row@,
            ));
        }
        out.push((op, joined));
        rebuilt.insert(crate::numbytes::clone_bytes(pkb), enc2);
        i = i + 1;
    }
    other.update_state(key, rebuilt);
    proof {
        assert(crate::kvlist::sorted_keys(cs));
        assert(out@.len() == cs.len());
        if probe_miss {
            assert forall|pk: Seq<u8>| #[trigger] crate::kvlist::assoc(cs, pk) == old(
                other,
            ).fetched_entry_at(kb, pk) by {
                assert(entry.spec_get(pk) == old(other).fetched_entry_at(kb, pk));
            }
        }
        assert({
            &&& crate::kvlist::sorted_keys(cs)
            &&& match old(other).cache_get(kb) {
                Option::Some(slot) => slot == Option::Some(cs),
                Option::None => forall|pk: Seq<u8>| #[trigger]
                    crate::kvlist::assoc(cs, pk) == old(other).fetched_entry_at(kb, pk),
            }
            &&& out@.len() == cs.len()
            &&& forall|i: int|
                0 <= i < out@.len() ==> crate::value::spec_decode_row(
                    (#[trigger] cs[i]).1.0,
                    old(other).state.schema@,
                ) is Some && out@[i].1@ == (if own_first {
                    row@ + crate::value::spec_decode_row(
                        cs[i].1.0,
                        old(other).state.schema@,
                    )->Some_0
                } else {
                    crate::value::spec_decode_row(cs[i].1.0, old(other).state.schema@)->Some_0
                        + row@
                })
        });
    }
    Result::Ok(out)
}

impl HashJoinOperator {
    pub open spec fn wf(&self) -> bool {
        &&& self.left.wf()
        &&& self.right.wf()
    }

    /// A row arriving on the left fits: it fits the left state schema and
    /// its join-key projection fits both maps' key schemas.
    pub open spec fn row_fits_left(&self, r: Seq<DatumVal>) -> bool {
        &&& self.left.state.row_fits(r)
        &&& forall|i: int|
            0 <= i < self.left_key_indices@.len() ==> #[trigger] self.left_key_indices@[i] < r.len()
        &&& self.left.key_fits(crate::state_table::proj(r, self.left_key_indices@))
        &&& self.right.key_fits(crate::state_table::proj(r, self.left_key_indices@))
    }

    /// A row arriving on the right fits, symmetrically.
    pub open spec fn row_fits_right(&self, r: Seq<DatumVal>) -> bool {
        &&& self.right.state.row_fits(r)
        &&& forall|i: int|
            0 <= i < self.right_key_indices@.len() ==> #[trigger] self.right_key_indices@[i]
                < r.len()
        &&& self.right.key_fits(crate::state_table::proj(r, self.right_key_indices@))
        &&& self.left.key_fits(crate::state_table::proj(r, self.right_key_indices@))
    }

    /// A row arriving on a side fits it.
    pub open spec fn row_fits_side(&self, side: JoinSide, r: Seq<DatumVal>) -> bool {
        match side {
            JoinSide::Left => self.row_fits_left(r),
            JoinSide::Right => self.row_fits_right(r),
        }
    }

    /// Whether a key row is blocked by a null join column: a NULL in a
    /// column whose null-safe bit is clear matches nothing.
    pub open spec fn null_blocked(&self, side: JoinSide, key: Seq<DatumVal>) -> bool {
        let nm = match side {
            JoinSide::Left => self.left.null_matched,
            JoinSide::Right => self.right.null_matched,
        };
        exists|i: int|
            0 <= i < key.len() && #[trigger] key[i] is None && !(i < bitset_len_int(nm)
                && crate::join::bitset_bits(nm).contains(i))
    }

    /// Tests the null-safe bitmap against a key row.
    fn key_null_blocked(&self, side: JoinSide, key: &Row) -> (r: bool)
        requires
            self.wf(),
        ensures
            r == self.null_blocked(side, key@),
    {
        let nm = match side {
            JoinSide::Left => &self.left.null_matched,
            JoinSide::Right => &self.right.null_matched,
        };
        let n = key.len();
        let mut i: usize = 0;
        while i < n
            invariant
                i <= n,
                n == key@.len(),
                nm == match side {
                    JoinSide::Left => &self.left.null_matched,
                    JoinSide::Right => &self.right.null_matched,
                },
                forall|j: int|
                    0 <= j < i ==> !(#[trigger] key@[j] is None && !(j < bitset_len_int(*nm)
                        && crate::join::bitset_bits(*nm).contains(j))),
            decreases n - i,
        {
            let is_null = match key.datum_at(i) {
                Option::None => true,
                Option::Some(_) => false,
            };
            if is_null {
                let safe = crate::join::bitset_contains(nm, i);
                if !safe {
                    proof {
                        assert(key@[i as int] is None && !(i < bitset_len_int(*nm)
                            && crate::join::bitset_bits(*nm).contains(i as int)));
                    }
                    return true;
                }
            }
            i = i + 1;
        }
        proof {
            if self.null_blocked(side, key@) {
                let j = choose|j: int|
                    0 <= j < key@.len() && #[trigger] key@[j] is None && !(j < bitset_len_int(*nm)
                        && crate::join::bitset_bits(*nm).contains(j));
            }
        }
        false
    }

    /// Exec check that a record fits a side, matching `row_fits_side`: the
    /// test an engine runs before handing a record to `process_row`.
    pub fn record_fits(&self, side: JoinSide, row: &Row) -> (r: bool)
        requires
            self.wf(),
        ensures
            r == self.row_fits_side(side, row@),
    {
        match side {
            JoinSide::Left => {
                if !self.left.state.row_fits_check(row) {
                    return false;
                }
                let n = self.left_key_indices.len();
                let mut i: usize = 0;
                while i < n
                    invariant
                        side == JoinSide::Left,
                        i <= n,
                        self.wf(),
                        n == self.left_key_indices@.len(),
                        forall|j: int|
                            0 <= j < i ==> #[trigger] self.left_key_indices@[j] < row@.len(),
                    decreases n - i,
                {
                    if self.left_key_indices[i] >= row.len() {
                        proof {
                            assert(!(self.left_key_indices@[i as int] < row@.len()));
                            assert(!self.row_fits_left(row@));
                        }
                        return false;
                    }
                    i = i + 1;
                }
                let key = row.project(&self.left_key_indices);
                proof {
                    assert(key@ =~= crate::state_table::proj(row@, self.left_key_indices@));
                }
                let r1 = self.left.key_fits_check(&key);
                let r2 = self.right.key_fits_check(&key);
                proof {
                    if r1 && r2 {
                        assert(self.left.state.row_fits(row@));
                        assert(self.row_fits_left(row@));
                    } else {
                        assert(!self.row_fits_left(row@));
                    }
                }
                r1 && r2
            },
            JoinSide::Right => {
                if !self.right.state.row_fits_check(row) {
                    return false;
                }
                let n = self.right_key_indices.len();
                let mut i: usize = 0;
                while i < n
                    invariant
                        side == JoinSide::Right,
                        i <= n,
                        self.wf(),
                        n == self.right_key_indices@.len(),
                        forall|j: int|
                            0 <= j < i ==> #[trigger] self.right_key_indices@[j] < row@.len(),
                    decreases n - i,
                {
                    if self.right_key_indices[i] >= row.len() {
                        proof {
                            assert(!(self.right_key_indices@[i as int] < row@.len()));
                            assert(!self.row_fits_right(row@));
                        }
                        return false;
                    }
                    i = i + 1;
                }
                let key = row.project(&self.right_key_indices);
                proof {
                    assert(key@ =~= crate::state_table::proj(row@, self.right_key_indices@));
                }
                let r1 = self.right.key_fits_check(&key);
                let r2 = self.left.key_fits_check(&key);
                proof {
                    if r1 && r2 {
                        assert(self.right.state.row_fits(row@));
                        assert(self.row_fits_right(row@));
                    } else {
                        assert(!self.row_fits_right(row@));
                    }
                }
                r1 && r2
            },
        }
    }

    /// Handles one record arriving on a side of an inner equi-join. Emits
    /// one output row, left columns first, per row of the opposite side
    /// under the same join key, in that side's primary-key order; raises
    /// (on an insert) or lowers (on a delete) each matched row's degree by
    /// exactly one; and writes the record into its own side's state with
    /// its match count as its degree. A record whose key has a NULL in a
    /// non-null-safe column emits nothing and only updates its own side.
    /// Failure comes exactly from corrupt or overfull probed data: a
    /// corrupt visible degree row on a miss, an undecodable cached row, or
    /// a matched degree the probe's change cannot fit; the record's own
    /// side is then untouched.
    #[verifier::rlimit(100)]
    pub fn process_row(&mut self, side: JoinSide, op: Op, row: Row) -> (r: Result<
        Vec<(Op, Row)>,
        JoinError,
    >)
        requires
            old(self).wf(),
            old(self).row_fits_side(side, row@),
            op == Op::Insert || op == Op::Delete,
            (match side {
                JoinSide::Left => old(self).right,
                JoinSide::Right => old(self).left,
            }).cache_get(
                (match side {
                    JoinSide::Left => old(self).right,
                    JoinSide::Right => old(self).left,
                }).spec_key_bytes(
                    crate::state_table::proj(
                        row@,
                        match side {
                            JoinSide::Left => old(self).left_key_indices@,
                            JoinSide::Right => old(self).right_key_indices@,
                        },
                    ),
                ),
            ) != Option::Some(Option::<Seq<(Seq<u8>, (Seq<u8>, u64))>>::None),
            (match side {
                JoinSide::Left => old(self).right,
                JoinSide::Right => old(self).left,
            }).metrics.total_lookup_count < usize::MAX - 1,
            (match side {
                JoinSide::Left => old(self).right,
                JoinSide::Right => old(self).left,
            }).metrics.lookup_miss_count < usize::MAX - 1,
        ensures
            final(self).wf(),
            final(self).left_key_indices == old(self).left_key_indices,
            final(self).right_key_indices == old(self).right_key_indices,
            match r {
                Result::Ok(out) => {
                    let key = crate::state_table::proj(
                        row@,
                        match side {
                            JoinSide::Left => old(self).left_key_indices@,
                            JoinSide::Right => old(self).right_key_indices@,
                        },
                    );
                    let own = match side {
                        JoinSide::Left => final(self).left,
                        JoinSide::Right => final(self).right,
                    };
                    let own_old = match side {
                        JoinSide::Left => old(self).left,
                        JoinSide::Right => old(self).right,
                    };
                    let other_old = match side {
                        JoinSide::Left => old(self).right,
                        JoinSide::Right => old(self).left,
                    };
                    let kb = other_old.spec_key_bytes(key);
                    &&& (op == Op::Insert ==> own.state.merged_get(own_old.state.key_of(row@))
                        == Option::Some(row@))
                    &&& (op == Op::Delete ==> own.state.merged_get(own_old.state.key_of(row@))
                        is None)
                    &&& (old(self).null_blocked(side, key) ==> out@.len() == 0)
                    &&& (op == Op::Insert && own_old.need_degree_table && out@.len() <= MAX_DEGREE
                        ==> own.degree_state.merged_get(own_old.state.key_of(row@))
                        == Option::Some(
                        crate::state_table::proj(row@, own_old.state.pk_indices@) + seq![
                            Option::Some(
                                crate::types::ScalarVal::Int64(out@.len() as i64),
                            ),
                        ],
                    ))
                    &&& (op == Op::Delete && own_old.need_degree_table
                        ==> own.degree_state.merged_get(own_old.state.key_of(row@)) is None)
                    &&& forall|i: int|
                        0 <= i < out@.len() ==> (#[trigger] out@[i]).0 == op
                    &&& (!old(self).null_blocked(side, key) ==> exists|cs: Seq<
                        (Seq<u8>, (Seq<u8>, u64)),
                    >|
                        {
                            &&& crate::kvlist::sorted_keys(cs)
                            &&& match other_old.cache_get(kb) {
                                Option::Some(slot) => slot == Option::Some(cs),
                                Option::None => forall|pk: Seq<u8>| #[trigger]
                                    crate::kvlist::assoc(cs, pk) == other_old.fetched_entry_at(
                                        kb,
                                        pk,
                                    ),
                            }
                            &&& out@.len() == cs.len()
                            &&& forall|i: int|
                                0 <= i < out@.len() ==> crate::value::spec_decode_row(
                                    (#[trigger] cs[i]).1.0,
                                    other_old.state.schema@,
                                ) is Some && out@[i].1@ == (match side {
                                    JoinSide::Left => row@ + crate::value::spec_decode_row(
                                        cs[i].1.0,
                                        other_old.state.schema@,
                                    )->Some_0,
                                    JoinSide::Right => crate::value::spec_decode_row(
                                        cs[i].1.0,
                                        other_old.state.schema@,
                                    )->Some_0 + row@,
                                })
                        })
                },
                Result::Err(e) => {
                    let key = crate::state_table::proj(
                        row@,
                        match side {
                            JoinSide::Left => old(self).left_key_indices@,
                            JoinSide::Right => old(self).right_key_indices@,
                        },
                    );
                    let own = match side {
                        JoinSide::Left => final(self).left,
                        JoinSide::Right => final(self).right,
                    };
                    let own_old = match side {
                        JoinSide::Left => old(self).left,
                        JoinSide::Right => old(self).right,
                    };
                    let other_old = match side {
                        JoinSide::Left => old(self).right,
                        JoinSide::Right => old(self).left,
                    };
                    let kb = other_old.spec_key_bytes(key);
                    &&& !old(self).null_blocked(side, key)
                    &&& own.state == own_old.state
                    &&& own.degree_state == own_old.degree_state
                    &&& own.inner == own_old.inner
                    &&& (match side {
                        JoinSide::Left => final(self).right.state,
                        JoinSide::Right => final(self).left.state,
                    }) == other_old.state
                    &&& probe_err_cause(other_old, kb, op, e)
                },
            },
    {
        let key = match side {
            JoinSide::Left => row.project(&self.left_key_indices),
            JoinSide::Right => row.project(&self.right_key_indices),
        };
        proof {
            assert(key@ =~= crate::state_table::proj(
                row@,
                match side {
                    JoinSide::Left => self.left_key_indices@,
                    JoinSide::Right => self.right_key_indices@,
                },
            ));
        }
        let blocked = self.key_null_blocked(side, &key);
        let mut out: Vec<(Op, Row)> = Vec::new();
        if !blocked {
            let own_first = match side {
                JoinSide::Left => true,
                JoinSide::Right => false,
            };
            let probed = match side {
                JoinSide::Left => probe_map(&mut self.right, own_first, op, &row, &key),
                JoinSide::Right => probe_map(&mut self.left, own_first, op, &row, &key),
            };
            match probed {
                Result::Ok(o) => {
                    out = o;
                },
                Result::Err(e) => {
                    return Result::Err(e);
                },
            }
        }
        // Write the record into its own side.
        let matches: u64 = if out.len() as u64 <= MAX_DEGREE {
            out.len() as u64
        } else {
            MAX_DEGREE
        };
        let own_needs_deg = match side {
            JoinSide::Left => self.left.need_degree_table,
            JoinSide::Right => self.right.need_degree_table,
        };
        match (side, op) {
            (JoinSide::Left, Op::Insert) => {
                if own_needs_deg {
                    self.left.insert(&key, JoinRow { row, degree: matches });
                } else {
                    self.left.insert_row(&key, row);
                }
            },
            (JoinSide::Left, _) => {
                if own_needs_deg {
                    self.left.delete(&key, JoinRow { row, degree: matches });
                } else {
                    self.left.delete_row(&key, row);
                }
            },
            (JoinSide::Right, Op::Insert) => {
                if own_needs_deg {
                    self.right.insert(&key, JoinRow { row, degree: matches });
                } else {
                    self.right.insert_row(&key, row);
                }
            },
            (JoinSide::Right, _) => {
                if own_needs_deg {
                    self.right.delete(&key, JoinRow { row, degree: matches });
                } else {
                    self.right.delete_row(&key, row);
                }
            },
        }
        Result::Ok(out)
    }

    /// Commits both sides at a barrier: every buffered write of the closed
    /// epoch becomes committed, atomically per side.
    pub fn flush(&mut self, epoch: EpochPair)
        requires
            old(self).wf(),
            epoch.curr > old(self).left.state.epoch.curr,
            epoch.curr > old(self).left.degree_state.epoch.curr,
            epoch.curr > old(self).right.state.epoch.curr,
            epoch.curr > old(self).right.degree_state.epoch.curr,
            old(self).left.metrics.flushed_miss_count + old(self).left.metrics.lookup_miss_count
                <= u64::MAX,
            old(self).left.metrics.flushed_total_count + old(self).left.metrics.total_lookup_count
                <= u64::MAX,
            old(self).right.metrics.flushed_miss_count + old(self).right.metrics.lookup_miss_count
                <= u64::MAX,
            old(self).right.metrics.flushed_total_count + old(
                self,
            ).right.metrics.total_lookup_count <= u64::MAX,
        ensures
            final(self).wf(),
            forall|k: Seq<u8>| #[trigger]
                final(self).left.state.committed_get(k) == old(self).left.state.merged_get(k),
            forall|k: Seq<u8>| #[trigger]
                final(self).right.state.committed_get(k) == old(self).right.state.merged_get(k),
            forall|k: Seq<u8>| #[trigger]
                final(self).left.degree_state.committed_get(k) == old(
                    self,
                ).left.degree_state.merged_get(k),
            forall|k: Seq<u8>| #[trigger]
                final(self).right.degree_state.committed_get(k) == old(
                    self,
                ).right.degree_state.merged_get(k),
            forall|k: Seq<u8>| #[trigger]
                final(self).left.state.merged_get(k) == old(self).left.state.merged_get(k),
            forall|k: Seq<u8>| #[trigger]
                final(self).right.state.merged_get(k) == old(self).right.state.merged_get(k),
            final(self).left_key_indices == old(self).left_key_indices,
            final(self).right_key_indices == old(self).right_key_indices,
    {
        self.left.flush(epoch);
        self.right.flush(epoch);
    }

    /// Forwards a new vnode bitmap to both sides; a changed bitmap clears
    /// both caches, so no stale entry survives.
    pub fn update_vnode_bitmap(&mut self, bitmap: Vec<bool>)
        requires
            old(self).wf(),
            bitmap@.len() == crate::state_table::VNODE_COUNT,
        ensures
            final(self).wf(),
            final(self).left.state.vnodes@ == bitmap@,
            final(self).right.state.vnodes@ == bitmap@,
            (old(self).left.state.vnodes@ != bitmap@) ==> forall|k: Seq<u8>| #[trigger]
                final(self).left.cache_get(k) is None,
            (old(self).right.state.vnodes@ != bitmap@) ==> forall|k: Seq<u8>| #[trigger]
                final(self).right.cache_get(k) is None,
            final(self).left_key_indices == old(self).left_key_indices,
            final(self).right_key_indices == old(self).right_key_indices,
    {
        let b2 = crate::join::clone_bools(&bitmap);
        self.left.update_vnode_bitmap(bitmap);
        self.right.update_vnode_bitmap(b2);
    }
}

/// The bit capacity of a bitset, as an int.
pub open spec fn bitset_len_int(s: fixedbitset::FixedBitSet) -> int {
    crate::join::bitset_len(s) as int
}

/// The concatenation of two rows' columns.
pub fn concat_rows(a: &Row, b: &Row) -> (r: Row)
    ensures
        r@ =~= a@ + b@,
{
    let mut datums: Vec<Datum> = a.to_owned_row().into_inner();
    let bd = b.to_owned_row().into_inner();
    let n = bd.len();
    let mut i: usize = 0;
    proof {
        assert(datums@.map_values(|d: Datum| crate::types::datum_view(d)) =~= a@);
        assert(bd@.map_values(|d: Datum| crate::types::datum_view(d)) =~= b@);
    }
    while i < n
        invariant
            i <= n,
            n == bd@.len(),
            bd@.map_values(|d: Datum| crate::types::datum_view(d)) == b@,
            datums@.map_values(|d: Datum| crate::types::datum_view(d)) =~= a@ + b@.take(i as int),
        decreases n - i,
    {
        let ghost pre = datums@;
        let c = crate::types::datum_clone(&bd[i]);
        datums.push(c);
        proof {
            assert(pre.map_values(|d: Datum| crate::types::datum_view(d)).len() == pre.len());
            assert(crate::types::datum_view(bd@[i as int]) == b@[i as int]);
            assert(datums@ =~= pre.push(c));
            let m2 = datums@.map_values(|d: Datum| crate::types::datum_view(d));
            let rhs = a@ + b@.take(i + 1);
            assert forall|j: int| 0 <= j < m2.len() implies #[trigger] m2[j] == rhs[j] by {
                if j < pre.len() {
                    assert(datums@[j] == pre[j]);
                    assert(pre.map_values(|d: Datum| crate::types::datum_view(d))[j] == (a@
                        + b@.take(i as int))[j]);
                } else {
                    assert(datums@[j] == c);
                }
            }
            assert(m2 =~= rhs);
        }
        i = i + 1;
    }
    proof {
        assert(b@.take(n as int) =~= b@);
    }
    Row::new(datums)
}

} // verus!
