use streamjoin::join::JoinHashMap;
use streamjoin::join::bitset_insert;
use streamjoin::join::bitset_with_capacity;
use streamjoin::operator::HashJoinOperator;
use streamjoin::operator::JoinSide;
use streamjoin::operator::Op;
use streamjoin::row::Row;
use streamjoin::state_table::EpochPair;
use streamjoin::state_table::StateTable;
use streamjoin::state_table::VNODE_COUNT;
use streamjoin::types::DataType;
use streamjoin::types::ScalarImpl;

fn left_map(null_safe: bool) -> JoinHashMap {
    let state = StateTable::new(
        vec![DataType::Int32, DataType::Int32],
        vec![1, 0],
        1,
        EpochPair::new_test_epoch(1),
    );
    let degree = StateTable::new(
        vec![DataType::Int32, DataType::Int32, DataType::Int64],
        vec![0, 1],
        1,
        EpochPair::new_test_epoch(1),
    );
    let mut nm = bitset_with_capacity(1);
    if null_safe {
        bitset_insert(&mut nm, 0);
    }
    JoinHashMap::new(vec![DataType::Int32], state, degree, nm, true, 1, true)
}

fn right_map(null_safe: bool) -> JoinHashMap {
    let state = StateTable::new(
        vec![DataType::Int32, DataType::Varchar, DataType::Int32],
        vec![0, 2],
        1,
        EpochPair::new_test_epoch(1),
    );
    let degree = StateTable::new(
        vec![DataType::Int32, DataType::Int32, DataType::Int64],
        vec![0, 1],
        1,
        EpochPair::new_test_epoch(1),
    );
    let mut nm = bitset_with_capacity(1);
    if null_safe {
        bitset_insert(&mut nm, 0);
    }
    JoinHashMap::new(vec![DataType::Int32], state, degree, nm, true, 1, false)
}

fn operator(null_safe: bool) -> HashJoinOperator {
    HashJoinOperator {
        left: left_map(null_safe),
        right: right_map(null_safe),
        left_key_indices: vec![1],
        right_key_indices: vec![0],
    }
}

fn lrow(a: i32, k: i32) -> Row {
    Row::new(vec![Some(ScalarImpl::Int32(a)), Some(ScalarImpl::Int32(k))])
}

fn rrow(k: i32, b: &str, rid: i32) -> Row {
    Row::new(vec![
        Some(ScalarImpl::Int32(k)),
        Some(ScalarImpl::Utf8(b.as_bytes().to_vec())),
        Some(ScalarImpl::Int32(rid)),
    ])
}

fn key_of(k: Option<i32>) -> Row {
    Row::new(vec![k.map(ScalarImpl::Int32)])
}

/// The output multiset, as sorted op-tagged encodings.
fn bag(out: &[(Op, Row)]) -> Vec<(bool, Vec<u8>)> {
    let mut v: Vec<(bool, Vec<u8>)> = out
        .iter()
        .map(|(op, r)| (*op == Op::Insert, r.value_serialize()))
        .collect();
    v.sort();
    v
}

fn joined(a: i32, k: i32, b: &str, rid: i32) -> Row {
    Row::new(vec![
        Some(ScalarImpl::Int32(a)),
        Some(ScalarImpl::Int32(k)),
        Some(ScalarImpl::Int32(k)),
        Some(ScalarImpl::Utf8(b.as_bytes().to_vec())),
        Some(ScalarImpl::Int32(rid)),
    ])
}

fn feed_basic(op: &mut HashJoinOperator) -> Vec<(Op, Row)> {
    let mut out = Vec::new();
    for r in [lrow(1, 10), lrow(2, 10), lrow(3, 20)] {
        out.extend(op.process_row(JoinSide::Left, Op::Insert, r).unwrap());
    }
    for r in [rrow(10, "x", 1), rrow(20, "y", 2), rrow(10, "z", 3)] {
        out.extend(op.process_row(JoinSide::Right, Op::Insert, r).unwrap());
    }
    out
}

fn expected_basic() -> Vec<(bool, Vec<u8>)> {
    let rows = [
        joined(1, 10, "x", 1),
        joined(2, 10, "x", 1),
        joined(3, 20, "y", 2),
        joined(1, 10, "z", 3),
        joined(2, 10, "z", 3),
    ];
    let mut v: Vec<(bool, Vec<u8>)> = rows.iter().map(|r| (true, r.value_serialize())).collect();
    v.sort();
    v
}

/// The degrees stored in a side's cached entry for one key, pk-ascending.
fn degrees(map: &mut JoinHashMap, key: &Row, types: Vec<DataType>) -> Vec<u64> {
    let entry = map.take_state(key).unwrap();
    let mut out = Vec::new();
    for i in 0..entry.len() {
        let (_, enc) = entry.entry_at(i);
        let jr = enc.decode(&types).unwrap();
        out.push(jr.degree);
    }
    map.update_state(key, entry);
    out
}

#[test]
fn basic_equi_inner_join() {
    let mut op = operator(false);
    let out = feed_basic(&mut op);
    assert_eq!(out.len(), 5);
    assert_eq!(bag(&out), expected_basic());
}

#[test]
fn degrees_count_current_matches() {
    let mut op = operator(false);
    feed_basic(&mut op);
    let ltypes = vec![DataType::Int32, DataType::Int32];
    let rtypes = vec![DataType::Int32, DataType::Varchar, DataType::Int32];
    // Each left row under key 10 matches 'x' and 'z'; the one under 20
    // matches 'y'.
    assert_eq!(degrees(&mut op.left, &key_of(Some(10)), ltypes.clone()), vec![2, 2]);
    assert_eq!(degrees(&mut op.left, &key_of(Some(20)), ltypes.clone()), vec![1]);
    // Each right row under key 10 matches the two left rows.
    assert_eq!(degrees(&mut op.right, &key_of(Some(10)), rtypes.clone()), vec![2, 2]);
    assert_eq!(degrees(&mut op.right, &key_of(Some(20)), rtypes), vec![1]);
}

#[test]
fn delete_retracts_matches_and_lowers_degrees() {
    let mut op = operator(false);
    feed_basic(&mut op);
    let out = op
        .process_row(JoinSide::Left, Op::Delete, lrow(1, 10))
        .unwrap();
    let expected: Vec<(bool, Vec<u8>)> = {
        let rows = [joined(1, 10, "x", 1), joined(1, 10, "z", 3)];
        let mut v: Vec<(bool, Vec<u8>)> =
            rows.iter().map(|r| (false, r.value_serialize())).collect();
        v.sort();
        v
    };
    assert_eq!(bag(&out), expected);
    let rtypes = vec![DataType::Int32, DataType::Varchar, DataType::Int32];
    // The degrees of 'x' and 'z' each dropped by one.
    assert_eq!(degrees(&mut op.right, &key_of(Some(10)), rtypes), vec![1, 1]);
}

#[test]
fn one_probe_raises_each_matched_degree_by_one() {
    let mut op = operator(false);
    for r in [lrow(1, 10), lrow(2, 10)] {
        op.process_row(JoinSide::Left, Op::Insert, r).unwrap();
    }
    let ltypes = vec![DataType::Int32, DataType::Int32];
    assert_eq!(degrees(&mut op.left, &key_of(Some(10)), ltypes.clone()), vec![0, 0]);
    op.process_row(JoinSide::Right, Op::Insert, rrow(10, "x", 1))
        .unwrap();
    assert_eq!(degrees(&mut op.left, &key_of(Some(10)), ltypes.clone()), vec![1, 1]);
    op.process_row(JoinSide::Right, Op::Delete, rrow(10, "x", 1))
        .unwrap();
    assert_eq!(degrees(&mut op.left, &key_of(Some(10)), ltypes), vec![0, 0]);
}

#[test]
fn null_join_key_matches_nothing_but_is_stored() {
    let mut op = operator(false);
    let out2 = op
        .process_row(
            JoinSide::Left,
            Op::Insert,
            Row::new(vec![Some(ScalarImpl::Int32(5)), None]),
        )
        .unwrap();
    assert!(out2.is_empty());
    let out3 = op
        .process_row(
            JoinSide::Right,
            Op::Insert,
            Row::new(vec![
                None,
                Some(ScalarImpl::Utf8("n".as_bytes().to_vec())),
                Some(ScalarImpl::Int32(9)),
            ]),
        )
        .unwrap();
    assert!(out3.is_empty());
    // Both rows are stored even though they matched nothing.
    let got = op
        .left
        .state
        .get_row(&Row::new(vec![None, Some(ScalarImpl::Int32(5))]))
        .unwrap();
    assert_eq!(got, Row::new(vec![Some(ScalarImpl::Int32(5)), None]));
}

#[test]
fn null_safe_bit_lets_null_keys_match() {
    let mut op = operator(true);
    op.process_row(
        JoinSide::Left,
        Op::Insert,
        Row::new(vec![Some(ScalarImpl::Int32(5)), None]),
    )
    .unwrap();
    let out = op
        .process_row(
            JoinSide::Right,
            Op::Insert,
            Row::new(vec![
                None,
                Some(ScalarImpl::Utf8("n".as_bytes().to_vec())),
                Some(ScalarImpl::Int32(9)),
            ]),
        )
        .unwrap();
    assert_eq!(out.len(), 1);
}

#[test]
fn checkpoint_survives_restart() {
    let mut op = operator(false);
    for r in [lrow(1, 10), lrow(2, 10)] {
        op.process_row(JoinSide::Left, Op::Insert, r).unwrap();
    }
    op.flush(EpochPair::new_test_epoch(2));

    // Recreate the operator from the persisted tables: caches are empty.
    let HashJoinOperator { left, right, .. } = op;
    let nm_l = bitset_with_capacity(1);
    let nm_r = bitset_with_capacity(1);
    let left2 = JoinHashMap::new(
        vec![DataType::Int32],
        left.state,
        left.degree_state,
        nm_l,
        true,
        1,
        true,
    );
    let right2 = JoinHashMap::new(
        vec![DataType::Int32],
        right.state,
        right.degree_state,
        nm_r,
        true,
        1,
        false,
    );
    let mut op2 = HashJoinOperator {
        left: left2,
        right: right2,
        left_key_indices: vec![1],
        right_key_indices: vec![0],
    };
    assert_eq!(op2.left.entry_count(), 0);

    let mut out = Vec::new();
    out.extend(
        op2.process_row(JoinSide::Left, Op::Insert, lrow(3, 20))
            .unwrap(),
    );
    for r in [rrow(10, "x", 1), rrow(20, "y", 2), rrow(10, "z", 3)] {
        out.extend(op2.process_row(JoinSide::Right, Op::Insert, r).unwrap());
    }
    assert_eq!(bag(&out), expected_basic());
}

#[test]
fn cache_eviction_is_transparent() {
    let mut plain = operator(false);
    let out_plain = feed_basic(&mut plain);

    let mut evicting = operator(false);
    let mut out_evicting = Vec::new();
    for r in [lrow(1, 10), lrow(2, 10), lrow(3, 20)] {
        out_evicting.extend(
            evicting
                .process_row(JoinSide::Left, Op::Insert, r)
                .unwrap(),
        );
        evicting.left.evict();
        evicting.right.evict();
    }
    for r in [rrow(10, "x", 1), rrow(20, "y", 2), rrow(10, "z", 3)] {
        out_evicting.extend(
            evicting
                .process_row(JoinSide::Right, Op::Insert, r)
                .unwrap(),
        );
        evicting.left.evict();
        evicting.right.evict();
    }
    assert_eq!(bag(&out_plain), bag(&out_evicting));
}

#[test]
fn vnode_change_clears_the_cache_and_hides_foreign_rows() {
    let mut op = operator(false);
    feed_basic(&mut op);
    assert!(op.right.entry_count() > 0);

    // Keep only the vnode of key 10 on both sides.
    let probe = StateTable::new(
        vec![DataType::Int32, DataType::Int32],
        vec![1, 0],
        1,
        EpochPair::new_test_epoch(1),
    );
    let v10 = probe.compute_vnode(&lrow(0, 10));
    let v20 = probe.compute_vnode(&lrow(0, 20));
    assert_ne!(v10, v20);
    let mut bitmap = vec![false; VNODE_COUNT];
    bitmap[v10] = true;
    op.update_vnode_bitmap(bitmap);
    assert_eq!(op.left.entry_count(), 0);
    assert_eq!(op.right.entry_count(), 0);

    // A probe under the dropped vnode finds nothing.
    let out = op
        .process_row(JoinSide::Left, Op::Insert, lrow(9, 20))
        .unwrap();
    assert!(out.is_empty());
    // A probe under the kept vnode still finds its matches.
    let out2 = op
        .process_row(JoinSide::Left, Op::Insert, lrow(9, 10))
        .unwrap();
    assert_eq!(out2.len(), 2);
}

#[test]
fn orphan_degree_rows_are_dropped_silently() {
    let mut right = right_map(false);
    right.state.insert(rrow(10, "r", 1));
    // A degree row under another primary key: an orphan, as an uneven
    // retention policy would leave behind.
    right.degree_state.insert(Row::new(vec![
        Some(ScalarImpl::Int32(10)),
        Some(ScalarImpl::Int32(2)),
        Some(ScalarImpl::Int64(5)),
    ]));
    let entry = right.take_state(&key_of(Some(10))).unwrap();
    assert_eq!(entry.len(), 1);
    let (_, enc) = entry.entry_at(0);
    let jr = enc
        .decode(&vec![DataType::Int32, DataType::Varchar, DataType::Int32])
        .unwrap();
    assert_eq!(jr.degree, 0);
    assert_eq!(jr.row, rrow(10, "r", 1));
}

#[test]
fn metrics_count_lookups_and_flush_resets_them() {
    let mut op = operator(false);
    feed_basic(&mut op);
    assert_eq!(op.right.metrics.total_lookup_count, 3);
    assert_eq!(op.left.metrics.total_lookup_count, 3);
    assert!(op.left.metrics.lookup_miss_count >= 1);
    op.flush(EpochPair::new_test_epoch(2));
    assert_eq!(op.left.metrics.total_lookup_count, 0);
    assert_eq!(op.left.metrics.lookup_miss_count, 0);
    assert_eq!(op.left.metrics.flushed_total_count, 3);
}

#[test]
fn taking_and_restoring_an_entry_keeps_it() {
    let mut map = left_map(false);
    let key = key_of(Some(10));
    map.insert(&key, streamjoin::join::JoinRow::new(lrow(1, 10), 0));
    let entry = map.take_state(&key).unwrap();
    let n = entry.len();
    map.update_state(&key, entry);
    let entry2 = map.take_state(&key).unwrap();
    assert_eq!(entry2.len(), n);
    map.update_state(&key, entry2);
}

#[test]
fn null_degree_column_is_a_corruption_error() {
    let mut right = right_map(false);
    right.state.insert(rrow(10, "r", 1));
    right.degree_state.insert(Row::new(vec![
        Some(ScalarImpl::Int32(10)),
        Some(ScalarImpl::Int32(1)),
        None,
    ]));
    assert_eq!(
        right.take_state(&key_of(Some(10))).unwrap_err(),
        streamjoin::join::JoinError::NullDegree
    );
}

#[test]
fn negative_degree_column_is_a_corruption_error() {
    let mut right = right_map(false);
    right.state.insert(rrow(10, "r", 1));
    right.degree_state.insert(Row::new(vec![
        Some(ScalarImpl::Int32(10)),
        Some(ScalarImpl::Int32(1)),
        Some(ScalarImpl::Int64(-3)),
    ]));
    assert_eq!(
        right.take_state(&key_of(Some(10))).unwrap_err(),
        streamjoin::join::JoinError::NegativeDegree
    );
}
