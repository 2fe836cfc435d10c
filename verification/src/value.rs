//! Value encoding: a length-prefixed byte form of rows that round-trips
//! exactly through the schema. Each datum is one flag byte (null or
//! present) followed by a fixed layout per type.

use vstd::prelude::*;

use crate::numbytes::le_bytes;
use crate::numbytes::le_val;
use crate::numbytes::offset16;
use crate::numbytes::offset32;
use crate::numbytes::offset64;
use crate::numbytes::pow256;
use crate::types::DataType;
use crate::types::Datum;
use crate::types::DatumVal;
use crate::types::ScalarImpl;
use crate::types::ScalarVal;
use crate::types::datum_has_type;
use crate::types::datum_view;
use crate::types::datum_wf;
use crate::temporal::NaiveDateWrapper;
use crate::temporal::NaiveTimeWrapper;
use crate::temporal::NaiveDateTimeWrapper;
use crate::temporal::date_wf;
use crate::temporal::time_wf;

verus! {

/// Failure to decode a value-encoded row.
#[derive(Clone, Copy, Debug, PartialEq, Eq, Structural)]
pub enum ValueEncodingError {
    /// The bytes end before the schema is satisfied.
    UnexpectedEnd,
    /// A flag, a range or a well-formedness bound is violated.
    InvalidData,
}

pub proof fn lemma_pow256_values()
    ensures
        pow256(1) == 0x100,
        pow256(2) == 0x10000,
        pow256(4) == 0x100000000,
        pow256(7) == 0x100000000000000,
        pow256(8) == 0x10000000000000000,
{
    reveal_with_fuel(pow256, 9);
}

/// The payload bytes of a present scalar.
pub open spec fn scalar_payload(s: ScalarVal) -> Seq<u8> {
    match s {
        ScalarVal::Bool(b) => seq![
            if b {
                1u8
            } else {
                0u8
            },
        ],
        ScalarVal::Int16(i) => le_bytes(offset16(i), 2),
        ScalarVal::Int32(i) => le_bytes(offset32(i), 4),
        ScalarVal::Int64(i) => le_bytes(offset64(i), 8),
        ScalarVal::Float32(bits) => le_bytes(bits as nat, 4),
        ScalarVal::Float64(bits) => le_bytes(bits as nat, 8),
        ScalarVal::Decimal(d) => le_bytes(offset64(d.mantissa), 8) + seq![d.scale] + le_bytes(0, 7),
        ScalarVal::Utf8(v) => le_bytes(v.len(), 4) + v,
        ScalarVal::NaiveDate(d) => date_payload(d),
        ScalarVal::NaiveTime(t) => time_payload(t),
        ScalarVal::NaiveDateTime(ts) => date_payload(ts.date) + time_payload(ts.time),
        ScalarVal::Interval(iv) => le_bytes(offset32(iv.months), 4) + le_bytes(offset32(iv.days), 4)
            + le_bytes(offset64(iv.ms), 8),
    }
}

pub open spec fn date_payload(d: NaiveDateWrapper) -> Seq<u8> {
    le_bytes(offset32(d.year), 4) + seq![d.month, d.day]
}

pub open spec fn time_payload(t: NaiveTimeWrapper) -> Seq<u8> {
    le_bytes(t.secs as nat, 4) + le_bytes(t.nano as nat, 4)
}

/// The encoding of one datum: a flag byte, then the payload when present.
pub open spec fn datum_encoding(d: DatumVal) -> Seq<u8> {
    match d {
        Option::None => seq![0u8],
        Option::Some(s) => seq![1u8] + scalar_payload(s),
    }
}

/// The encoding of a row: its datums' encodings, in order.
pub open spec fn row_encoding(r: Seq<DatumVal>) -> Seq<u8>
    decreases r.len(),
{
    if r.len() == 0 {
        Seq::empty()
    } else {
        datum_encoding(r[0]) + row_encoding(r.drop_first())
    }
}

/// Appends the value encoding of one datum.
pub fn value_encode_datum(out: &mut Vec<u8>, d: &Datum)
    requires
        datum_wf(datum_view(*d)),
    ensures
        final(out)@ == old(out)@ + datum_encoding(datum_view(*d)),
{
    proof {
        lemma_pow256_values();
    }
    match d {
        Option::None => {
            out.push(0u8);
            proof {
                assert(out@ =~= old(out)@ + datum_encoding(datum_view(*d)));
            }
        },
        Option::Some(s) => {
            out.push(1u8);
            let ghost mid = out@;
            match s {
                ScalarImpl::Bool(b) => {
                    out.push(
                        if *b {
                            1u8
                        } else {
                            0u8
                        },
                    );
                    proof {
                        assert(out@ =~= mid + scalar_payload(s@));
                    }
                },
                ScalarImpl::Int16(i) => {
                    let u = crate::numbytes::offset_u16(*i);
                    crate::numbytes::push_le_u64(out, u as u64, 2);
                },
                ScalarImpl::Int32(i) => {
                    let u = crate::numbytes::offset_u32(*i);
                    crate::numbytes::push_le_u64(out, u as u64, 4);
                },
                ScalarImpl::Int64(i) => {
                    let u = crate::numbytes::offset_u64(*i);
                    crate::numbytes::push_le_u64(out, u, 8);
                },
                ScalarImpl::Float32(bits) => {
                    crate::numbytes::push_le_u64(out, *bits as u64, 4);
                },
                ScalarImpl::Float64(bits) => {
                    crate::numbytes::push_le_u64(out, *bits, 8);
                },
                ScalarImpl::Decimal(dec) => {
                    let u = crate::numbytes::offset_u64(dec.mantissa);
                    crate::numbytes::push_le_u64(out, u, 8);
                    out.push(dec.scale);
                    let ghost before_pad = out@;
                    crate::numbytes::push_le_u64(out, 0, 7);
                    proof {
                        assert(out@ =~= mid + scalar_payload(s@));
                    }
                },
                ScalarImpl::Utf8(v) => {
                    let n = v.len();
                    crate::numbytes::push_le_u64(out, n as u64, 4);
                    let mut i: usize = 0;
                    while i < n
                        invariant
                            i <= n,
                            n == v@.len(),
                            out@ == mid + le_bytes(v@.len(), 4) + v@.take(i as int),
                        decreases n - i,
                    {
                        out.push(v[i]);
                        proof {
                            assert(v@.take(i as int).push(v@[i as int]) =~= v@.take(i + 1));
                            assert(out@ =~= mid + le_bytes(v@.len(), 4) + v@.take(i + 1));
                        }
                        i = i + 1;
                    }
                    proof {
                        assert(v@.take(n as int) =~= v@);
                        assert(out@ =~= mid + scalar_payload(s@));
                    }
                },
                ScalarImpl::NaiveDate(dt) => {
                    push_date_payload(out, dt);
                },
                ScalarImpl::NaiveTime(t) => {
                    push_time_payload(out, t);
                },
                ScalarImpl::NaiveDateTime(ts) => {
                    push_date_payload(out, &ts.date);
                    push_time_payload(out, &ts.time);
                    proof {
                        assert(out@ =~= mid + scalar_payload(s@));
                    }
                },
                ScalarImpl::Interval(iv) => {
                    let um = crate::numbytes::offset_u32(iv.months);
                    crate::numbytes::push_le_u64(out, um as u64, 4);
                    let ud = crate::numbytes::offset_u32(iv.days);
                    crate::numbytes::push_le_u64(out, ud as u64, 4);
                    let ums = crate::numbytes::offset_u64(iv.ms);
                    crate::numbytes::push_le_u64(out, ums, 8);
                    proof {
                        assert(out@ =~= mid + scalar_payload(s@));
                    }
                },
            }
            proof {
                assert(out@ =~= old(out)@ + datum_encoding(datum_view(*d)));
            }
        },
    }
}

fn push_date_payload(out: &mut Vec<u8>, d: &NaiveDateWrapper)
    ensures
        final(out)@ == old(out)@ + date_payload(*d),
{
    proof {
        lemma_pow256_values();
    }
    let u = crate::numbytes::offset_u32(d.year);
    crate::numbytes::push_le_u64(out, u as u64, 4);
    out.push(d.month);
    out.push(d.day);
    proof {
        assert(out@ =~= old(out)@ + date_payload(*d));
    }
}

fn push_time_payload(out: &mut Vec<u8>, t: &NaiveTimeWrapper)
    ensures
        final(out)@ == old(out)@ + time_payload(*t),
{
    proof {
        lemma_pow256_values();
    }
    crate::numbytes::push_le_u64(out, t.secs as u64, 4);
    crate::numbytes::push_le_u64(out, t.nano as u64, 4);
    proof {
        assert(out@ =~= old(out)@ + time_payload(*t));
    }
}

/// Spec-level decoder of one present payload: the value and how many bytes
/// it took, or nothing when the bytes do not carry a well-formed value of
/// the type.
pub open spec fn spec_decode_payload(p: Seq<u8>, t: DataType) -> Option<(ScalarVal, int)> {
    match t {
        DataType::Boolean => if p.len() >= 1 && (p[0] == 0 || p[0] == 1) {
            Option::Some((ScalarVal::Bool(p[0] == 1), 1int))
        } else {
            Option::None
        },
        DataType::Int16 => if p.len() >= 2 {
            Option::Some((ScalarVal::Int16((le_val(p.take(2)) - 0x8000) as i16), 2int))
        } else {
            Option::None
        },
        DataType::Int32 => if p.len() >= 4 {
            Option::Some((ScalarVal::Int32((le_val(p.take(4)) - 0x80000000) as i32), 4int))
        } else {
            Option::None
        },
        DataType::Int64 => if p.len() >= 8 {
            Option::Some((ScalarVal::Int64((le_val(p.take(8)) - 0x8000000000000000) as i64), 8int))
        } else {
            Option::None
        },
        DataType::Float32 => if p.len() >= 4 && crate::types::scalar_wf(
            ScalarVal::Float32(le_val(p.take(4)) as u32),
        ) {
            Option::Some((ScalarVal::Float32(le_val(p.take(4)) as u32), 4int))
        } else {
            Option::None
        },
        DataType::Float64 => if p.len() >= 8 && crate::types::scalar_wf(
            ScalarVal::Float64(le_val(p.take(8)) as u64),
        ) {
            Option::Some((ScalarVal::Float64(le_val(p.take(8)) as u64), 8int))
        } else {
            Option::None
        },
        DataType::Decimal => if p.len() >= 16 && p[8] <= crate::types::DECIMAL_MAX_SCALE {
            Option::Some(
                (
                    ScalarVal::Decimal(
                        crate::types::Decimal {
                            mantissa: (le_val(p.take(8)) - 0x8000000000000000) as i64,
                            scale: p[8],
                        },
                    ),
                    16int,
                ),
            )
        } else {
            Option::None
        },
        DataType::Varchar => if p.len() >= 4 && p.len() >= 4 + le_val(p.take(4)) {
            Option::Some(
                (
                    ScalarVal::Utf8(p.subrange(4, 4 + le_val(p.take(4)) as int)),
                    4 + le_val(p.take(4)) as int,
                ),
            )
        } else {
            Option::None
        },
        DataType::Date => if p.len() >= 6 && date_wf(spec_date_of_payload(p)) {
            Option::Some((ScalarVal::NaiveDate(spec_date_of_payload(p)), 6int))
        } else {
            Option::None
        },
        DataType::Time => if p.len() >= 8 && time_wf(spec_time_of_payload(p)) {
            Option::Some((ScalarVal::NaiveTime(spec_time_of_payload(p)), 8int))
        } else {
            Option::None
        },
        DataType::Timestamp => if p.len() >= 14 && date_wf(spec_date_of_payload(p)) && time_wf(
            spec_time_of_payload(p.skip(6)),
        ) {
            Option::Some(
                (
                    ScalarVal::NaiveDateTime(
                        NaiveDateTimeWrapper {
                            date: spec_date_of_payload(p),
                            time: spec_time_of_payload(p.skip(6)),
                        },
                    ),
                    14int,
                ),
            )
        } else {
            Option::None
        },
        DataType::Interval => if p.len() >= 16 {
            Option::Some(
                (
                    ScalarVal::Interval(
                        crate::types::IntervalUnit {
                            months: (le_val(p.take(4)) - 0x80000000) as i32,
                            days: (le_val(p.subrange(4, 8)) - 0x80000000) as i32,
                            ms: (le_val(p.subrange(8, 16)) - 0x8000000000000000) as i64,
                        },
                    ),
                    16int,
                ),
            )
        } else {
            Option::None
        },
    }
}

pub open spec fn spec_date_of_payload(p: Seq<u8>) -> NaiveDateWrapper {
    NaiveDateWrapper {
        year: (le_val(p.take(4)) - 0x80000000) as i32,
        month: p[4],
        day: p[5],
    }
}

pub open spec fn spec_time_of_payload(p: Seq<u8>) -> NaiveTimeWrapper {
    NaiveTimeWrapper { secs: le_val(p.take(4)) as u32, nano: le_val(p.subrange(4, 8)) as u32 }
}

/// Spec-level decoder of one datum: flag byte, then payload.
pub open spec fn spec_decode_datum(s: Seq<u8>, t: DataType) -> Option<(DatumVal, int)> {
    if s.len() < 1 {
        Option::None
    } else if s[0] == 0 {
        Option::Some((Option::None, 1int))
    } else if s[0] != 1 {
        Option::None
    } else {
        match spec_decode_payload(s.skip(1), t) {
            Option::None => Option::None,
            Option::Some((v, n)) => Option::Some((Option::Some(v), 1 + n)),
        }
    }
}

/// Spec-level decoder of a row: one datum per column type, in order;
/// trailing bytes are ignored.
pub open spec fn spec_decode_row(s: Seq<u8>, ts: Seq<DataType>) -> Option<Seq<DatumVal>>
    decreases ts.len(),
{
    if ts.len() == 0 {
        Option::Some(Seq::empty())
    } else {
        match spec_decode_datum(s, ts[0]) {
            Option::None => Option::None,
            Option::Some((d, n)) => match spec_decode_row(s.skip(n), ts.drop_first()) {
                Option::None => Option::None,
                Option::Some(r) => Option::Some(seq![d] + r),
            },
        }
    }
}

/// What the decoder hands back is well formed and of the column's type.
pub proof fn lemma_spec_decode_datum_wf(s: Seq<u8>, t: DataType)
    ensures
        match spec_decode_datum(s, t) {
            Option::Some((d, n)) => datum_wf(d) && datum_has_type(d, t) && 1 <= n <= s.len(),
            Option::None => true,
        },
{
    if s.len() >= 1 && s[0] == 1 {
        let p = s.skip(1);
        match t {
            DataType::Varchar => {
                if p.len() >= 4 && p.len() >= 4 + le_val(p.take(4)) {
                    crate::numbytes::lemma_le_val_bound(p.take(4));
                    lemma_pow256_values();
                }
            },
            _ => {},
        }
    }
}

/// Decoding the encoding of a well-formed, well-typed datum, whatever
/// follows it, gives the datum back and consumes exactly its bytes.
pub proof fn lemma_datum_round_trip(d: DatumVal, t: DataType, rest: Seq<u8>)
    requires
        datum_wf(d),
        datum_has_type(d, t),
    ensures
        spec_decode_datum(datum_encoding(d) + rest, t) == Option::Some(
            (d, datum_encoding(d).len() as int),
        ),
{
    let s = datum_encoding(d) + rest;
    match d {
        Option::None => {
            assert(s[0] == 0);
        },
        Option::Some(v) => {
            let pay = scalar_payload(v);
            assert(s[0] == 1);
            assert(s.skip(1) =~= pay + rest);
            lemma_payload_round_trip(v, t, rest);
        },
    }
}

/// Payload-level round trip for a present scalar.
proof fn lemma_payload_round_trip(v: ScalarVal, t: DataType, rest: Seq<u8>)
    requires
        crate::types::scalar_wf(v),
        crate::types::scalar_type(v) == t,
    ensures
        spec_decode_payload(scalar_payload(v) + rest, t) == Option::Some(
            (v, scalar_payload(v).len() as int),
        ),
{
    lemma_pow256_values();
    let p = scalar_payload(v) + rest;
    match v {
        ScalarVal::Bool(b) => {
            assert(p[0] == if b { 1u8 } else { 0u8 });
        },
        ScalarVal::Int16(i) => {
            lemma_le_field(le_bytes(offset16(i), 2), rest, offset16(i), 2);
            assert(p.take(2) =~= le_bytes(offset16(i), 2));
        },
        ScalarVal::Int32(i) => {
            lemma_le_field(le_bytes(offset32(i), 4), rest, offset32(i), 4);
            assert(p.take(4) =~= le_bytes(offset32(i), 4));
        },
        ScalarVal::Int64(i) => {
            lemma_le_field(le_bytes(offset64(i), 8), rest, offset64(i), 8);
            assert(p.take(8) =~= le_bytes(offset64(i), 8));
        },
        ScalarVal::Float32(bits) => {
            lemma_le_field(le_bytes(bits as nat, 4), rest, bits as nat, 4);
            assert(p.take(4) =~= le_bytes(bits as nat, 4));
        },
        ScalarVal::Float64(bits) => {
            lemma_le_field(le_bytes(bits as nat, 8), rest, bits as nat, 8);
            assert(p.take(8) =~= le_bytes(bits as nat, 8));
        },
        ScalarVal::Decimal(dec) => {
            let m8 = le_bytes(offset64(dec.mantissa), 8);
            lemma_le_field(m8, seq![dec.scale] + le_bytes(0, 7) + rest, offset64(dec.mantissa), 8);
            crate::numbytes::lemma_le_bytes_len(offset64(dec.mantissa), 8);
            crate::numbytes::lemma_le_bytes_len(0, 7);
            assert(p =~= m8 + (seq![dec.scale] + le_bytes(0, 7) + rest));
            assert(p.take(8) =~= m8);
            assert(p[8] == dec.scale);
            assert(p.len() >= 16);
        },
        ScalarVal::Utf8(bytes) => {
            let l4 = le_bytes(bytes.len(), 4);
            crate::numbytes::lemma_le_bytes_len(bytes.len(), 4);
            lemma_le_field(l4, bytes + rest, bytes.len(), 4);
            assert(p =~= l4 + (bytes + rest));
            assert(p.take(4) =~= l4);
            assert(p.subrange(4, 4 + bytes.len() as int) =~= bytes);
        },
        ScalarVal::NaiveDate(dt) => {
            lemma_date_field(dt, rest);
            assert(p.len() >= 6);
        },
        ScalarVal::NaiveTime(tm) => {
            lemma_time_field(tm, rest);
            assert(p.len() >= 8);
        },
        ScalarVal::NaiveDateTime(ts) => {
            crate::numbytes::lemma_le_bytes_len(offset32(ts.date.year), 4);
            crate::numbytes::lemma_le_bytes_len(ts.time.secs as nat, 4);
            crate::numbytes::lemma_le_bytes_len(ts.time.nano as nat, 4);
            assert(p =~= date_payload(ts.date) + (time_payload(ts.time) + rest));
            lemma_date_field(ts.date, time_payload(ts.time) + rest);
            assert(p.skip(6) =~= time_payload(ts.time) + rest);
            lemma_time_field(ts.time, rest);
            assert(p.len() >= 14);
        },
        ScalarVal::Interval(iv) => {
            let f1 = le_bytes(offset32(iv.months), 4);
            let f2 = le_bytes(offset32(iv.days), 4);
            let f3 = le_bytes(offset64(iv.ms), 8);
            crate::numbytes::lemma_le_bytes_len(offset32(iv.months), 4);
            crate::numbytes::lemma_le_bytes_len(offset32(iv.days), 4);
            crate::numbytes::lemma_le_bytes_len(offset64(iv.ms), 8);
            lemma_le_field(f1, f2 + f3 + rest, offset32(iv.months), 4);
            assert(p =~= f1 + (f2 + f3 + rest));
            assert(p.take(4) =~= f1);
            assert(p.subrange(4, 8) =~= f2);
            assert(p.subrange(8, 16) =~= f3);
            crate::numbytes::lemma_le_val_of_le_bytes(offset32(iv.days), 4);
            crate::numbytes::lemma_le_val_of_le_bytes(offset64(iv.ms), 8);
            assert(p.len() >= 16);
        },
    }
}

/// A little-endian field at the front of a concatenation reads back as its
/// value.
proof fn lemma_le_field(field: Seq<u8>, rest: Seq<u8>, x: nat, w: nat)
    requires
        field == le_bytes(x, w),
        x < pow256(w),
    ensures
        (field + rest).take(w as int) =~= field,
        le_val((field + rest).take(w as int)) == x,
        (field + rest).len() >= w,
        field.len() == w,
{
    crate::numbytes::lemma_le_bytes_len(x, w);
    assert((field + rest).take(w as int) =~= field);
    crate::numbytes::lemma_le_val_of_le_bytes(x, w);
}

proof fn lemma_date_field(dt: NaiveDateWrapper, rest: Seq<u8>)
    requires
        date_wf(dt),
    ensures
        spec_date_of_payload(date_payload(dt) + rest) == dt,
        (date_payload(dt) + rest).len() >= 6,
        date_payload(dt).len() == 6,
{
    lemma_pow256_values();
    let p = date_payload(dt) + rest;
    let y4 = le_bytes(offset32(dt.year), 4);
    crate::numbytes::lemma_le_bytes_len(offset32(dt.year), 4);
    lemma_le_field(y4, seq![dt.month, dt.day] + rest, offset32(dt.year), 4);
    assert(p =~= y4 + (seq![dt.month, dt.day] + rest));
    assert(p.take(4) =~= y4);
    assert(p[4] == dt.month && p[5] == dt.day);
}

proof fn lemma_time_field(tm: NaiveTimeWrapper, rest: Seq<u8>)
    requires
        time_wf(tm),
    ensures
        spec_time_of_payload(time_payload(tm) + rest) == tm,
        (time_payload(tm) + rest).len() >= 8,
        time_payload(tm).len() == 8,
{
    lemma_pow256_values();
    let p = time_payload(tm) + rest;
    let s4 = le_bytes(tm.secs as nat, 4);
    let n4 = le_bytes(tm.nano as nat, 4);
    crate::numbytes::lemma_le_bytes_len(tm.secs as nat, 4);
    crate::numbytes::lemma_le_bytes_len(tm.nano as nat, 4);
    lemma_le_field(s4, n4 + rest, tm.secs as nat, 4);
    assert(p =~= s4 + (n4 + rest));
    assert(p.take(4) =~= s4);
    assert(p.subrange(4, 8) =~= n4);
    crate::numbytes::lemma_le_val_of_le_bytes(tm.nano as nat, 4);
}

/// Decoding the encoding of a well-formed, well-typed row, whatever
/// follows it, gives the row back.
pub proof fn lemma_row_round_trip(r: Seq<DatumVal>, ts: Seq<DataType>, rest: Seq<u8>)
    requires
        r.len() == ts.len(),
        forall|i: int| 0 <= i < r.len() ==> datum_wf(#[trigger] r[i]),
        forall|i: int| 0 <= i < r.len() ==> datum_has_type(#[trigger] r[i], ts[i]),
    ensures
        spec_decode_row(row_encoding(r) + rest, ts) == Option::Some(r),
    decreases r.len(),
{
    if r.len() == 0 {
        assert(row_encoding(r) =~= Seq::<u8>::empty());
        assert(spec_decode_row(row_encoding(r) + rest, ts) == Option::Some(Seq::<DatumVal>::empty()));
        assert(r =~= Seq::<DatumVal>::empty());
    } else {
        let s = row_encoding(r) + rest;
        let e0 = datum_encoding(r[0]);
        assert(s =~= e0 + (row_encoding(r.drop_first()) + rest));
        lemma_datum_round_trip(r[0], ts[0], row_encoding(r.drop_first()) + rest);
        assert(s.skip(e0.len() as int) =~= row_encoding(r.drop_first()) + rest);
        assert(forall|i: int| 0 <= i < r.drop_first().len() ==> datum_wf(#[trigger] r.drop_first()[i]));
        assert(forall|i: int|
            0 <= i < r.drop_first().len() ==> datum_has_type(
                #[trigger] r.drop_first()[i],
                ts.drop_first()[i],
            ));
        lemma_row_round_trip(r.drop_first(), ts.drop_first(), rest);
        assert(seq![r[0]] + r.drop_first() =~= r);
    }
}

/// Decodes one datum at `pos`; exactly refines the spec decoder.
#[verifier::rlimit(60)]
pub fn value_decode_datum(data: &Vec<u8>, pos: usize, t: DataType) -> (r: Result<
    (Datum, usize),
    ValueEncodingError,
>)
    requires
        pos <= data@.len(),
    ensures
        match spec_decode_datum(data@.skip(pos as int), t) {
            Option::Some((dv, n)) => {
                &&& r is Ok
                &&& datum_view(r->Ok_0.0) == dv
                &&& r->Ok_0.1 == pos + n
                &&& pos + n <= data@.len()
            },
            Option::None => r is Err,
        },
{
    let ghost s = data@.skip(pos as int);
    proof {
        lemma_pow256_values();
        lemma_spec_decode_datum_wf(s, t);
    }
    let len = data.len();
    if pos >= len {
        return Result::Err(ValueEncodingError::UnexpectedEnd);
    }
    let flag = data[pos];
    proof {
        assert(s[0] == data@[pos as int]);
    }
    if flag == 0 {
        return Result::Ok((Option::None, pos + 1));
    }
    if flag != 1 {
        return Result::Err(ValueEncodingError::InvalidData);
    }
    let p0 = pos + 1;
    let ghost p = s.skip(1);
    proof {
        assert(p =~= data@.skip(p0 as int));
    }
    match t {
        DataType::Boolean => {
            if len - p0 < 1 {
                return Result::Err(ValueEncodingError::UnexpectedEnd);
            }
            let b = data[p0];
            proof {
                assert(p[0] == data@[p0 as int]);
            }
            if b == 0 || b == 1 {
                Result::Ok((Option::Some(ScalarImpl::Bool(b == 1)), p0 + 1))
            } else {
                Result::Err(ValueEncodingError::InvalidData)
            }
        },
        DataType::Int16 => {
            if len - p0 < 2 {
                return Result::Err(ValueEncodingError::UnexpectedEnd);
            }
            let x = crate::numbytes::read_le_u64(data.as_slice(), p0, 2);
            proof {
                assert(p.take(2) =~= data@.subrange(p0 as int, p0 + 2));
            }
            let i = crate::numbytes::unoffset_i16(x as u16);
            Result::Ok((Option::Some(ScalarImpl::Int16(i)), p0 + 2))
        },
        DataType::Int32 => {
            if len - p0 < 4 {
                return Result::Err(ValueEncodingError::UnexpectedEnd);
            }
            let x = crate::numbytes::read_le_u64(data.as_slice(), p0, 4);
            proof {
                assert(p.take(4) =~= data@.subrange(p0 as int, p0 + 4));
            }
            let i = crate::numbytes::unoffset_i32(x as u32);
            Result::Ok((Option::Some(ScalarImpl::Int32(i)), p0 + 4))
        },
        DataType::Int64 => {
            if len - p0 < 8 {
                return Result::Err(ValueEncodingError::UnexpectedEnd);
            }
            let x = crate::numbytes::read_le_u64(data.as_slice(), p0, 8);
            proof {
                assert(p.take(8) =~= data@.subrange(p0 as int, p0 + 8));
            }
            let i = crate::numbytes::unoffset_i64(x);
            Result::Ok((Option::Some(ScalarImpl::Int64(i)), p0 + 8))
        },
        DataType::Float32 => {
            if len - p0 < 4 {
                return Result::Err(ValueEncodingError::UnexpectedEnd);
            }
            let x = crate::numbytes::read_le_u64(data.as_slice(), p0, 4);
            proof {
                assert(p.take(4) =~= data@.subrange(p0 as int, p0 + 4));
            }
            let bits = x as u32;
            let exp = (bits / 0x800000) % 0x100;
            let mant = bits % 0x800000;
            if exp == 0xFF && mant != 0 && bits != crate::types::CANONICAL_NAN_F32 {
                return Result::Err(ValueEncodingError::InvalidData);
            }
            Result::Ok((Option::Some(ScalarImpl::Float32(bits)), p0 + 4))
        },
        DataType::Float64 => {
            if len - p0 < 8 {
                return Result::Err(ValueEncodingError::UnexpectedEnd);
            }
            let x = crate::numbytes::read_le_u64(data.as_slice(), p0, 8);
            proof {
                assert(p.take(8) =~= data@.subrange(p0 as int, p0 + 8));
            }
            let exp = (x / 0x10000000000000) % 0x800;
            let mant = x % 0x10000000000000;
            if exp == 0x7FF && mant != 0 && x != crate::types::CANONICAL_NAN_F64 {
                return Result::Err(ValueEncodingError::InvalidData);
            }
            Result::Ok((Option::Some(ScalarImpl::Float64(x)), p0 + 8))
        },
        DataType::Decimal => {
            if len - p0 < 16 {
                return Result::Err(ValueEncodingError::UnexpectedEnd);
            }
            let x = crate::numbytes::read_le_u64(data.as_slice(), p0, 8);
            proof {
                assert(p.take(8) =~= data@.subrange(p0 as int, p0 + 8));
                assert(p[8] == data@[p0 + 8]);
            }
            let m = crate::numbytes::unoffset_i64(x);
            let scale = data[p0 + 8];
            if scale > crate::types::DECIMAL_MAX_SCALE {
                return Result::Err(ValueEncodingError::InvalidData);
            }
            Result::Ok(
                (
                    Option::Some(ScalarImpl::Decimal(crate::types::Decimal { mantissa: m, scale })),
                    p0 + 16,
                ),
            )
        },
        DataType::Varchar => {
            if len - p0 < 4 {
                return Result::Err(ValueEncodingError::UnexpectedEnd);
            }
            let x = crate::numbytes::read_le_u64(data.as_slice(), p0, 4);
            proof {
                assert(p.take(4) =~= data@.subrange(p0 as int, p0 + 4));
            }
            let n = x as usize;
            if n > len - (p0 + 4) {
                return Result::Err(ValueEncodingError::UnexpectedEnd);
            }
            let mut v: Vec<u8> = Vec::new();
            let mut i: usize = 0;
            while i < n
                invariant
                    i <= n,
                    len == data@.len(),
                    p0 + 4 + n <= len,
                    v@ =~= data@.subrange(p0 + 4, p0 + 4 + i as int),
                decreases n - i,
            {
                v.push(data[p0 + 4 + i]);
                proof {
                    assert(v@ =~= data@.subrange(p0 + 4, p0 + 4 + i + 1));
                }
                i = i + 1;
            }
            proof {
                assert(v@ =~= p.subrange(4, 4 + n as int));
            }
            Result::Ok((Option::Some(ScalarImpl::Utf8(v)), p0 + 4 + n))
        },
        DataType::Date => {
            if len - p0 < 6 {
                return Result::Err(ValueEncodingError::UnexpectedEnd);
            }
            match decode_date_fields(data, p0) {
                Result::Ok(d) => Result::Ok((Option::Some(ScalarImpl::NaiveDate(d)), p0 + 6)),
                Result::Err(e) => Result::Err(e),
            }
        },
        DataType::Time => {
            if len - p0 < 8 {
                return Result::Err(ValueEncodingError::UnexpectedEnd);
            }
            match decode_time_fields(data, p0) {
                Result::Ok(tm) => Result::Ok((Option::Some(ScalarImpl::NaiveTime(tm)), p0 + 8)),
                Result::Err(e) => Result::Err(e),
            }
        },
        DataType::Timestamp => {
            if len - p0 < 14 {
                return Result::Err(ValueEncodingError::UnexpectedEnd);
            }
            proof {
                assert(p.skip(6) =~= data@.skip(p0 + 6));
            }
            let d = match decode_date_fields(data, p0) {
                Result::Ok(d) => d,
                Result::Err(e) => {
                    return Result::Err(e);
                },
            };
            let tm = match decode_time_fields(data, p0 + 6) {
                Result::Ok(tm) => tm,
                Result::Err(e) => {
                    return Result::Err(e);
                },
            };
            Result::Ok(
                (
                    Option::Some(ScalarImpl::NaiveDateTime(NaiveDateTimeWrapper { date: d, time: tm })),
                    p0 + 14,
                ),
            )
        },
        DataType::Interval => {
            if len - p0 < 16 {
                return Result::Err(ValueEncodingError::UnexpectedEnd);
            }
            let xm = crate::numbytes::read_le_u64(data.as_slice(), p0, 4);
            let xd = crate::numbytes::read_le_u64(data.as_slice(), p0 + 4, 4);
            let xs = crate::numbytes::read_le_u64(data.as_slice(), p0 + 8, 8);
            proof {
                assert(p.take(4) =~= data@.subrange(p0 as int, p0 + 4));
                assert(p.subrange(4, 8) =~= data@.subrange(p0 + 4, p0 + 8));
                assert(p.subrange(8, 16) =~= data@.subrange(p0 + 8, p0 + 16));
            }
            let months = crate::numbytes::unoffset_i32(xm as u32);
            let days = crate::numbytes::unoffset_i32(xd as u32);
            let ms = crate::numbytes::unoffset_i64(xs);
            Result::Ok(
                (
                    Option::Some(ScalarImpl::Interval(crate::types::IntervalUnit { months, days, ms })),
                    p0 + 16,
                ),
            )
        },
    }
}

/// Reads a date's six payload bytes at `at`, rejecting an invalid date.
fn decode_date_fields(data: &Vec<u8>, at: usize) -> (r: Result<NaiveDateWrapper, ValueEncodingError>)
    requires
        at + 6 <= data@.len(),
    ensures
        date_wf(spec_date_of_payload(data@.skip(at as int))) ==> r == Result::<
            NaiveDateWrapper,
            ValueEncodingError,
        >::Ok(spec_date_of_payload(data@.skip(at as int))),
        !date_wf(spec_date_of_payload(data@.skip(at as int))) ==> r is Err,
{
    proof {
        lemma_pow256_values();
    }
    let ghost p = data@.skip(at as int);
    let n = data.len();
    let x = crate::numbytes::read_le_u64(data.as_slice(), at, 4);
    proof {
        assert(p.take(4) =~= data@.subrange(at as int, at + 4));
        assert(p[4] == data@[at + 4]);
        assert(p[5] == data@[at + 5]);
        assert(at + 6 <= n);
    }
    let year = crate::numbytes::unoffset_i32(x as u32);
    let month = data[at + 4];
    let day = data[at + 5];
    if year < crate::temporal::MIN_YEAR || year > crate::temporal::MAX_YEAR {
        return Result::Err(ValueEncodingError::InvalidData);
    }
    if month < 1 || month > 12 {
        return Result::Err(ValueEncodingError::InvalidData);
    }
    let md = crate::temporal::get_mouth_days(year, month as usize);
    if day < 1 || (day as i32) > md {
        return Result::Err(ValueEncodingError::InvalidData);
    }
    Result::Ok(NaiveDateWrapper { year, month, day })
}

/// Reads a time's eight payload bytes at `at`, rejecting an invalid time.
fn decode_time_fields(data: &Vec<u8>, at: usize) -> (r: Result<NaiveTimeWrapper, ValueEncodingError>)
    requires
        at + 8 <= data@.len(),
    ensures
        time_wf(spec_time_of_payload(data@.skip(at as int))) ==> r == Result::<
            NaiveTimeWrapper,
            ValueEncodingError,
        >::Ok(spec_time_of_payload(data@.skip(at as int))),
        !time_wf(spec_time_of_payload(data@.skip(at as int))) ==> r is Err,
{
    proof {
        lemma_pow256_values();
    }
    let ghost p = data@.skip(at as int);
    let n = data.len();
    proof {
        assert(at + 8 <= n);
    }
    let xs = crate::numbytes::read_le_u64(data.as_slice(), at, 4);
    let xn = crate::numbytes::read_le_u64(data.as_slice(), at + 4, 4);
    proof {
        assert(p.take(4) =~= data@.subrange(at as int, at + 4));
        assert(p.subrange(4, 8) =~= data@.subrange(at + 4, at + 8));
    }
    let secs = xs as u32;
    let nano = xn as u32;
    if secs >= 86400 || nano >= 2_000_000_000 {
        return Result::Err(ValueEncodingError::InvalidData);
    }
    Result::Ok(NaiveTimeWrapper { secs, nano })
}

/// What the row decoder hands back is well formed and typed by the schema.
pub proof fn lemma_spec_decode_row_wf(s: Seq<u8>, ts: Seq<DataType>)
    ensures
        match spec_decode_row(s, ts) {
            Option::Some(rv) => {
                &&& rv.len() == ts.len()
                &&& forall|i: int| 0 <= i < rv.len() ==> datum_wf(#[trigger] rv[i])
                &&& forall|i: int|
                    0 <= i < rv.len() ==> datum_has_type(#[trigger] rv[i], ts[i])
            },
            Option::None => true,
        },
    decreases ts.len(),
{
    if ts.len() > 0 {
        lemma_spec_decode_datum_wf(s, ts[0]);
        match spec_decode_datum(s, ts[0]) {
            Option::None => {},
            Option::Some((d, n)) => {
                lemma_spec_decode_row_wf(s.skip(n), ts.drop_first());
                match spec_decode_row(s.skip(n), ts.drop_first()) {
                    Option::None => {},
                    Option::Some(rest) => {
                        let rv = seq![d] + rest;
                        assert(forall|i: int|
                            1 <= i < rv.len() ==> #[trigger] rv[i] == rest[i - 1]);
                        assert(rv[0] == d);
                        assert(forall|i: int|
                            1 <= i < rv.len() ==> #[trigger] ts[i] == ts.drop_first()[i - 1]);
                    },
                }
            },
        }
    }
}

} // verus!
