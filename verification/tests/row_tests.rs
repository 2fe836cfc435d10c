use streamjoin::row::Row;
use streamjoin::row::RowDeserializer;
use streamjoin::types::DataType;
use streamjoin::types::Datum;
use streamjoin::types::IntervalUnit;
use streamjoin::types::ScalarImpl;

fn sample_datums() -> Vec<Datum> {
    vec![
        Some(ScalarImpl::Utf8("string".as_bytes().to_vec())),
        Some(ScalarImpl::Bool(true)),
        Some(ScalarImpl::Int16(1)),
        Some(ScalarImpl::Int32(2)),
        Some(ScalarImpl::Int64(3)),
        Some(ScalarImpl::float32_from_bits(4.0f32.to_bits())),
        Some(ScalarImpl::float64_from_bits(5.0f64.to_bits())),
        Some(ScalarImpl::Decimal("-233.3".parse().unwrap())),
        Some(ScalarImpl::Interval(IntervalUnit::new(7, 8, 9))),
    ]
}

#[test]
fn row_value_encode_decode() {
    let row = Row::new(sample_datums());
    let value_indices: Vec<usize> = (0..9).collect();
    let bytes = row.project(&value_indices).value_serialize();
    assert_eq!(bytes.len(), 10 + 1 + 2 + 4 + 8 + 4 + 8 + 16 + 16 + 9);
    let de = RowDeserializer::new(vec![
        DataType::Varchar,
        DataType::Boolean,
        DataType::Int16,
        DataType::Int32,
        DataType::Int64,
        DataType::Float32,
        DataType::Float64,
        DataType::Decimal,
        DataType::Interval,
    ]);
    let row1 = de.deserialize(&bytes).unwrap();
    assert_eq!(row, row1);
}

#[test]
fn test_hash_row() {
    let row1 = Row::new(sample_datums());
    let mut datums2 = sample_datums();
    let last = datums2.pop().unwrap();
    datums2.insert(0, last);
    let row2 = Row::new(datums2);
    assert_ne!(row1.hash(), row2.hash());

    let row_default = Row::default();
    assert_eq!(row_default.hash(), 0);
}

#[test]
fn row_round_trip_with_nulls_and_temporal() {
    let date = streamjoin::temporal::NaiveDateWrapper::from_ymd_uncheck(2001, 5, 16);
    let time = streamjoin::temporal::NaiveTimeWrapper::from_hms_micro_uncheck(20, 38, 40, 123456);
    let ts = date.and_hms_micro_uncheck(20, 38, 40, 123456);
    let row = Row::new(vec![
        None,
        Some(ScalarImpl::NaiveDate(date)),
        Some(ScalarImpl::NaiveTime(time)),
        Some(ScalarImpl::NaiveDateTime(ts)),
        None,
    ]);
    let bytes = row.value_serialize();
    let de = RowDeserializer::new(vec![
        DataType::Int64,
        DataType::Date,
        DataType::Time,
        DataType::Timestamp,
        DataType::Varchar,
    ]);
    let row1 = de.deserialize(&bytes).unwrap();
    assert_eq!(row, row1);
}

#[test]
fn row_decode_rejects_truncated_bytes() {
    let row = Row::new(vec![Some(ScalarImpl::Int64(77))]);
    let mut bytes = row.value_serialize();
    bytes.pop();
    let de = RowDeserializer::new(vec![DataType::Int64]);
    assert!(de.deserialize(&bytes).is_err());
}

#[test]
fn row_decode_rejects_bad_flag() {
    let de = RowDeserializer::new(vec![DataType::Boolean]);
    assert!(de.deserialize(&vec![7u8, 1u8]).is_err());
}

#[test]
fn row_order_is_lexicographic_and_length_guarded() {
    let a = Row::new(vec![Some(ScalarImpl::Int32(1)), Some(ScalarImpl::Int32(9))]);
    let b = Row::new(vec![Some(ScalarImpl::Int32(2)), Some(ScalarImpl::Int32(0))]);
    assert!(a < b);
    let short = Row::new(vec![Some(ScalarImpl::Int32(1))]);
    assert_eq!(a.partial_cmp(&short), None);
    let null_first = Row::new(vec![None, Some(ScalarImpl::Int32(9))]);
    assert!(null_first < a);
}

#[test]
fn decimal_parse_and_compare() {
    let d: streamjoin::types::Decimal = "-233.3".parse().unwrap();
    assert_eq!(d.mantissa, -2333);
    assert_eq!(d.scale, 1);
    let a: streamjoin::types::Decimal = "2.50".parse().unwrap();
    let b: streamjoin::types::Decimal = "2.5".parse().unwrap();
    assert_eq!(streamjoin::types::decimal_cmp_exec(&a, &b), 0);
    let c: streamjoin::types::Decimal = "2.51".parse().unwrap();
    assert_eq!(streamjoin::types::decimal_cmp_exec(&b, &c), -1);
    assert!("".parse::<streamjoin::types::Decimal>().is_err());
    assert!("1.2.3".parse::<streamjoin::types::Decimal>().is_err());
}

#[test]
fn nan_floats_collapse_to_one_value() {
    let a = ScalarImpl::float32_from_bits(f32::NAN.to_bits());
    let b = ScalarImpl::float32_from_bits(f32::NAN.to_bits() | 1);
    let ra = Row::new(vec![Some(a)]);
    let rb = Row::new(vec![Some(b)]);
    assert_eq!(ra, rb);
    assert_eq!(ra.hash(), rb.hash());
}
