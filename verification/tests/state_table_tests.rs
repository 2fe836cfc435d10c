use streamjoin::memcomp::OrderType;
use streamjoin::memcomp::OrderedRowSerde;
use streamjoin::row::Row;
use streamjoin::state_table::EpochPair;
use streamjoin::state_table::StateTable;
use streamjoin::state_table::VNODE_COUNT;
use streamjoin::types::DataType;
use streamjoin::types::ScalarImpl;

fn kv_row(k: i32, v: i64) -> Row {
    Row::new(vec![Some(ScalarImpl::Int32(k)), Some(ScalarImpl::Int64(v))])
}

fn pk_row(k: i32) -> Row {
    Row::new(vec![Some(ScalarImpl::Int32(k))])
}

fn fresh_table() -> StateTable {
    StateTable::new(
        vec![DataType::Int32, DataType::Int64],
        vec![0],
        1,
        EpochPair::new_test_epoch(1),
    )
}

#[test]
fn read_your_writes_within_an_epoch() {
    let mut t = fresh_table();
    t.insert(kv_row(1, 10));
    let got = t.get_row(&pk_row(1)).unwrap();
    assert_eq!(got, kv_row(1, 10));
    t.delete(kv_row(1, 10));
    assert!(t.get_row(&pk_row(1)).is_none());
}

#[test]
fn update_is_atomic_per_key() {
    let mut t = fresh_table();
    t.insert(kv_row(1, 10));
    t.commit(EpochPair::new_test_epoch(2));
    t.update(kv_row(1, 10), kv_row(1, 20));
    assert_eq!(t.get_row(&pk_row(1)).unwrap(), kv_row(1, 20));
}

#[test]
fn commit_publishes_and_abort_discards() {
    let mut t = fresh_table();
    t.insert(kv_row(1, 10));
    t.insert(kv_row(2, 20));
    t.commit(EpochPair::new_test_epoch(2));
    assert_eq!(t.get_row(&pk_row(1)).unwrap(), kv_row(1, 10));
    assert_eq!(t.get_row(&pk_row(2)).unwrap(), kv_row(2, 20));

    t.insert(kv_row(3, 30));
    t.delete(kv_row(1, 10));
    t.abort();
    assert!(t.get_row(&pk_row(3)).is_none());
    assert_eq!(t.get_row(&pk_row(1)).unwrap(), kv_row(1, 10));
}

#[test]
fn flush_with_no_writes_changes_nothing() {
    let mut t = fresh_table();
    t.insert(kv_row(1, 10));
    t.commit(EpochPair::new_test_epoch(2));
    let before: Vec<Row> = t.iter_with_pk_prefix(&Vec::new());
    t.commit(EpochPair::new_test_epoch(3));
    let after: Vec<Row> = t.iter_with_pk_prefix(&Vec::new());
    assert_eq!(before, after);
}

#[test]
fn iteration_is_ordered_and_merges_the_buffer() {
    let mut t = fresh_table();
    t.insert(kv_row(5, 50));
    t.insert(kv_row(1, 10));
    t.commit(EpochPair::new_test_epoch(2));
    t.insert(kv_row(3, 30));
    t.delete(kv_row(5, 50));
    let rows = t.iter_with_pk_prefix(&Vec::new());
    assert_eq!(rows, vec![kv_row(1, 10), kv_row(3, 30)]);
}

#[test]
fn vnode_shrink_hides_rows_outside_the_bitmap() {
    let mut t = fresh_table();
    // Find two keys on different vnodes.
    let mut k1: i32 = 0;
    let mut k2: i32 = 1;
    let v1 = t.compute_vnode(&kv_row(k1, 0));
    loop {
        if t.compute_vnode(&kv_row(k2, 0)) != v1 {
            break;
        }
        k2 += 1;
    }
    let v2 = t.compute_vnode(&kv_row(k2, 0));
    t.insert(kv_row(k1, 11));
    t.insert(kv_row(k2, 22));
    t.commit(EpochPair::new_test_epoch(2));

    // Own only the first key's vnode.
    let mut bitmap = vec![false; VNODE_COUNT];
    bitmap[v1] = true;
    let previous = t.update_vnode_bitmap(bitmap);
    assert_eq!(previous.len(), VNODE_COUNT);
    assert!(previous[v2]);

    assert_eq!(t.get_row(&pk_row(k1)).unwrap(), kv_row(k1, 11));
    assert!(t.get_row(&pk_row(k2)).is_none());
    let visible = t.iter_with_pk_prefix(&Vec::new());
    assert_eq!(visible, vec![kv_row(k1, 11)]);
}

#[test]
fn memcomparable_bytes_order_like_the_rows() {
    let serde = OrderedRowSerde::new(
        vec![DataType::Int32, DataType::Int64],
        vec![OrderType::Ascending, OrderType::Ascending],
    );
    let lo = kv_row(-3, 100);
    let hi = kv_row(2, -5);
    let mut lo_bytes = Vec::new();
    let mut hi_bytes = Vec::new();
    serde.serialize(&lo, &mut lo_bytes);
    serde.serialize(&hi, &mut hi_bytes);
    assert!(lo_bytes < hi_bytes);

    let serde_desc = OrderedRowSerde::new(
        vec![DataType::Int32, DataType::Int64],
        vec![OrderType::Descending, OrderType::Descending],
    );
    let mut lo_d = Vec::new();
    let mut hi_d = Vec::new();
    serde_desc.serialize(&lo, &mut lo_d);
    serde_desc.serialize(&hi, &mut hi_d);
    assert!(lo_d > hi_d);

    // A null key column sorts before any value under the ascending order.
    let serde1 = OrderedRowSerde::new(vec![DataType::Int32], vec![OrderType::Ascending]);
    let null_row = Row::new(vec![None]);
    let min_row = Row::new(vec![Some(ScalarImpl::Int32(i32::MIN))]);
    let mut nb = Vec::new();
    let mut mb = Vec::new();
    serde1.serialize(&null_row, &mut nb);
    serde1.serialize(&min_row, &mut mb);
    assert!(nb < mb);
}

#[test]
fn key_serializer_handles_every_fixed_width_type() {
    let serde = OrderedRowSerde::new(
        vec![
            DataType::Boolean,
            DataType::Int16,
            DataType::Float64,
            DataType::Date,
            DataType::Time,
            DataType::Timestamp,
            DataType::Interval,
        ],
        vec![OrderType::Ascending; 7],
    );
    let date = streamjoin::temporal::NaiveDateWrapper::from_ymd_uncheck(2001, 5, 16);
    let a = Row::new(vec![
        Some(ScalarImpl::Bool(false)),
        Some(ScalarImpl::Int16(-7)),
        Some(ScalarImpl::float64_from_bits((-1.5f64).to_bits())),
        Some(ScalarImpl::NaiveDate(date)),
        Some(ScalarImpl::NaiveTime(
            streamjoin::temporal::NaiveTimeWrapper::from_hms_uncheck(1, 2, 3),
        )),
        Some(ScalarImpl::NaiveDateTime(date.and_hms_uncheck(1, 2, 3))),
        Some(ScalarImpl::Interval(streamjoin::types::IntervalUnit::new(-1, 2, -3))),
    ]);
    let b = Row::new(vec![
        Some(ScalarImpl::Bool(true)),
        Some(ScalarImpl::Int16(-7)),
        Some(ScalarImpl::float64_from_bits((-1.5f64).to_bits())),
        Some(ScalarImpl::NaiveDate(date)),
        Some(ScalarImpl::NaiveTime(
            streamjoin::temporal::NaiveTimeWrapper::from_hms_uncheck(1, 2, 3),
        )),
        Some(ScalarImpl::NaiveDateTime(date.and_hms_uncheck(1, 2, 3))),
        Some(ScalarImpl::Interval(streamjoin::types::IntervalUnit::new(-1, 2, -3))),
    ]);
    let mut ab = Vec::new();
    let mut bb = Vec::new();
    serde.serialize(&a, &mut ab);
    serde.serialize(&b, &mut bb);
    assert!(ab < bb);
}

#[test]
fn extracting_key_bytes_matches_direct_serialization() {
    let serde = OrderedRowSerde::new(vec![DataType::Int32], vec![OrderType::Ascending]);
    let row = kv_row(42, 7);
    let extracted = row.extract_memcomparable_by_indices(&serde, &vec![0]);
    let mut direct = Vec::new();
    serde.serialize(&pk_row(42), &mut direct);
    assert_eq!(extracted, direct);
}
