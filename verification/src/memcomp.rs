//! Memcomparable encoding: an order-preserving byte form of key rows,
//! parameterised by a per-column direction. Comparing two encoded keys
//! bytewise equals comparing the rows logically under those directions.
//!
//! Fixed-width key types are supported; nulls sort first under an
//! ascending direction.

use vstd::prelude::*;

use crate::numbytes::be_bytes;
use crate::numbytes::compl_bytes;
use crate::numbytes::int_cmp;
use crate::numbytes::lex_cmp;
use crate::numbytes::offset16;
use crate::numbytes::offset32;
use crate::numbytes::offset64;
use crate::types::DataType;
use crate::types::Datum;
use crate::types::DatumVal;
use crate::types::ScalarImpl;
use crate::types::ScalarVal;
use crate::types::datum_cmp;
use crate::types::datum_has_type;
use crate::types::datum_view;
use crate::types::datum_wf;
use crate::types::f32_order_key;
use crate::types::f64_order_key;
use crate::types::scalar_cmp;
use crate::temporal::NaiveDateWrapper;
use crate::temporal::NaiveTimeWrapper;

verus! {

/// Direction of one key column.
#[derive(Clone, Copy, Debug, PartialEq, Eq, Structural)]
pub enum OrderType {
    Ascending,
    Descending,
}

/// The types a memcomparable key column may have: the fixed-width ones.
pub open spec fn mc_supported(t: DataType) -> bool {
    t != DataType::Varchar && t != DataType::Decimal
}

/// The payload bytes of a present scalar under the ascending direction.
pub open spec fn mc_scalar(s: ScalarVal) -> Seq<u8> {
    match s {
        ScalarVal::Bool(b) => seq![
            if b {
                1u8
            } else {
                0u8
            },
        ],
        ScalarVal::Int16(i) => be_bytes(offset16(i), 2),
        ScalarVal::Int32(i) => be_bytes(offset32(i), 4),
        ScalarVal::Int64(i) => be_bytes(offset64(i), 8),
        ScalarVal::Float32(bits) => be_bytes(f32_order_key(bits), 4),
        ScalarVal::Float64(bits) => be_bytes(f64_order_key(bits), 8),
        ScalarVal::NaiveDate(d) => mc_date(d),
        ScalarVal::NaiveTime(t) => mc_time(t),
        ScalarVal::NaiveDateTime(ts) => mc_date(ts.date) + mc_time(ts.time),
        ScalarVal::Interval(iv) => be_bytes(offset32(iv.months), 4) + be_bytes(offset32(iv.days), 4)
            + be_bytes(offset64(iv.ms), 8),
        _ => Seq::empty(),
    }
}

pub open spec fn mc_date(d: NaiveDateWrapper) -> Seq<u8> {
    be_bytes(offset32(d.year), 4) + seq![d.month, d.day]
}

pub open spec fn mc_time(t: NaiveTimeWrapper) -> Seq<u8> {
    be_bytes(t.secs as nat, 4) + be_bytes(t.nano as nat, 4)
}

/// The encoding of one key datum: a null flag, then the payload; under a
/// descending direction every byte is complemented.
pub open spec fn mc_datum(d: DatumVal, dir: OrderType) -> Seq<u8> {
    let asc = match d {
        Option::None => seq![0u8],
        Option::Some(s) => seq![1u8] + mc_scalar(s),
    };
    match dir {
        OrderType::Ascending => asc,
        OrderType::Descending => compl_bytes(asc),
    }
}

/// The encoding of a key row: its datums' encodings, in order.
pub open spec fn mc_row(r: Seq<DatumVal>, dirs: Seq<OrderType>) -> Seq<u8>
    decreases r.len(),
{
    if r.len() == 0 {
        Seq::empty()
    } else {
        mc_datum(r[0], dirs[0]) + mc_row(r.drop_first(), dirs.drop_first())
    }
}

/// Logical three-way order of two key rows under declared directions:
/// column by column, a descending column reversing its comparison.
pub open spec fn row_cmp_dirs(a: Seq<DatumVal>, b: Seq<DatumVal>, dirs: Seq<OrderType>) -> int
    decreases a.len(),
{
    if a.len() == 0 {
        0
    } else {
        let c = match dirs[0] {
            OrderType::Ascending => datum_cmp(a[0], b[0]),
            OrderType::Descending => -datum_cmp(a[0], b[0]),
        };
        if c != 0 {
            c
        } else {
            row_cmp_dirs(a.drop_first(), b.drop_first(), dirs.drop_first())
        }
    }
}

/// The widths of the two fixed payload parts used below.
proof fn lemma_mc_scalar_len(s: ScalarVal)
    requires
        mc_supported(crate::types::scalar_type(s)),
    ensures
        mc_scalar(s).len() == match crate::types::scalar_type(s) {
            DataType::Boolean => 1int,
            DataType::Int16 => 2int,
            DataType::Int32 => 4int,
            DataType::Int64 => 8int,
            DataType::Float32 => 4int,
            DataType::Float64 => 8int,
            DataType::Date => 6int,
            DataType::Time => 8int,
            DataType::Timestamp => 14int,
            DataType::Interval => 16int,
            _ => 0int,
        },
{
    match s {
        ScalarVal::Int16(i) => crate::numbytes::lemma_be_bytes_len(offset16(i), 2),
        ScalarVal::Int32(i) => crate::numbytes::lemma_be_bytes_len(offset32(i), 4),
        ScalarVal::Int64(i) => crate::numbytes::lemma_be_bytes_len(offset64(i), 8),
        ScalarVal::Float32(b) => crate::numbytes::lemma_be_bytes_len(f32_order_key(b), 4),
        ScalarVal::Float64(b) => crate::numbytes::lemma_be_bytes_len(f64_order_key(b), 8),
        ScalarVal::NaiveDate(d) => crate::numbytes::lemma_be_bytes_len(offset32(d.year), 4),
        ScalarVal::NaiveTime(t) => {
            crate::numbytes::lemma_be_bytes_len(t.secs as nat, 4);
            crate::numbytes::lemma_be_bytes_len(t.nano as nat, 4);
        },
        ScalarVal::NaiveDateTime(ts) => {
            crate::numbytes::lemma_be_bytes_len(offset32(ts.date.year), 4);
            crate::numbytes::lemma_be_bytes_len(ts.time.secs as nat, 4);
            crate::numbytes::lemma_be_bytes_len(ts.time.nano as nat, 4);
        },
        ScalarVal::Interval(iv) => {
            crate::numbytes::lemma_be_bytes_len(offset32(iv.months), 4);
            crate::numbytes::lemma_be_bytes_len(offset32(iv.days), 4);
            crate::numbytes::lemma_be_bytes_len(offset64(iv.ms), 8);
        },
        _ => {},
    }
}

/// A big-endian field compares as its value; stated over the offsets used
/// here so widths stay concrete.
proof fn lemma_be_field_cmp(x: nat, y: nat, w: nat)
    requires
        x < crate::numbytes::pow256(w),
        y < crate::numbytes::pow256(w),
    ensures
        lex_cmp(be_bytes(x, w), be_bytes(y, w)) == int_cmp(x as int, y as int),
        be_bytes(x, w).len() == w,
        be_bytes(y, w).len() == w,
{
    crate::numbytes::lemma_be_bytes_order(x, y, w);
    crate::numbytes::lemma_be_bytes_len(x, w);
    crate::numbytes::lemma_be_bytes_len(y, w);
}

/// Two equal-width fields followed by equal-length tails compare by field,
/// then tail.
proof fn lemma_field_then(a: Seq<u8>, b: Seq<u8>, c: Seq<u8>, d: Seq<u8>)
    requires
        a.len() == b.len(),
    ensures
        lex_cmp(a + c, b + d) == if lex_cmp(a, b) != 0 {
            lex_cmp(a, b)
        } else {
            lex_cmp(c, d)
        },
{
    crate::numbytes::lemma_lex_cmp_concat(a, b, c, d);
}

/// The memcomparable payloads of two same-type, well-formed scalars
/// compare as the scalars do.
proof fn lemma_mc_scalar_order(a: ScalarVal, b: ScalarVal)
    requires
        crate::types::scalar_type(a) == crate::types::scalar_type(b),
        mc_supported(crate::types::scalar_type(a)),
        crate::types::scalar_wf(a),
        crate::types::scalar_wf(b),
    ensures
        lex_cmp(mc_scalar(a), mc_scalar(b)) == scalar_cmp(a, b),
        mc_scalar(a).len() == mc_scalar(b).len(),
{
    crate::value::lemma_pow256_values();
    lemma_mc_scalar_len(a);
    lemma_mc_scalar_len(b);
    match (a, b) {
        (ScalarVal::Bool(x), ScalarVal::Bool(y)) => {
            crate::numbytes::lemma_lex_cmp_single(
                if x {
                    1u8
                } else {
                    0u8
                },
                if y {
                    1u8
                } else {
                    0u8
                },
            );
        },
        (ScalarVal::Int16(x), ScalarVal::Int16(y)) => {
            lemma_be_field_cmp(offset16(x), offset16(y), 2);
        },
        (ScalarVal::Int32(x), ScalarVal::Int32(y)) => {
            lemma_be_field_cmp(offset32(x), offset32(y), 4);
        },
        (ScalarVal::Int64(x), ScalarVal::Int64(y)) => {
            lemma_be_field_cmp(offset64(x), offset64(y), 8);
        },
        (ScalarVal::Float32(x), ScalarVal::Float32(y)) => {
            lemma_be_field_cmp(f32_order_key(x), f32_order_key(y), 4);
        },
        (ScalarVal::Float64(x), ScalarVal::Float64(y)) => {
            lemma_be_field_cmp(f64_order_key(x), f64_order_key(y), 8);
        },
        (ScalarVal::NaiveDate(x), ScalarVal::NaiveDate(y)) => {
            lemma_mc_date_order(x, y);
        },
        (ScalarVal::NaiveTime(x), ScalarVal::NaiveTime(y)) => {
            lemma_mc_time_order(x, y);
        },
        (ScalarVal::NaiveDateTime(x), ScalarVal::NaiveDateTime(y)) => {
            lemma_mc_date_order(x.date, y.date);
            lemma_mc_time_order(x.time, y.time);
            lemma_field_then(mc_date(x.date), mc_date(y.date), mc_time(x.time), mc_time(y.time));
        },
        (ScalarVal::Interval(x), ScalarVal::Interval(y)) => {
            let xm = be_bytes(offset32(x.months), 4);
            let ym = be_bytes(offset32(y.months), 4);
            let xd = be_bytes(offset32(x.days), 4);
            let yd = be_bytes(offset32(y.days), 4);
            let xs = be_bytes(offset64(x.ms), 8);
            let ys = be_bytes(offset64(y.ms), 8);
            lemma_be_field_cmp(offset32(x.months), offset32(y.months), 4);
            lemma_be_field_cmp(offset32(x.days), offset32(y.days), 4);
            lemma_be_field_cmp(offset64(x.ms), offset64(y.ms), 8);
            assert(mc_scalar(a) =~= xm + (xd + xs));
            assert(mc_scalar(b) =~= ym + (yd + ys));
            lemma_field_then(xm, ym, xd + xs, yd + ys);
            lemma_field_then(xd, yd, xs, ys);
        },
        _ => {
            assert(false);
        },
    }
}

proof fn lemma_mc_date_order(x: NaiveDateWrapper, y: NaiveDateWrapper)
    ensures
        lex_cmp(mc_date(x), mc_date(y)) == crate::temporal::date_cmp(x, y),
        mc_date(x).len() == 6,
        mc_date(y).len() == 6,
{
    crate::value::lemma_pow256_values();
    let xy = be_bytes(offset32(x.year), 4);
    let yy = be_bytes(offset32(y.year), 4);
    lemma_be_field_cmp(offset32(x.year), offset32(y.year), 4);
    lemma_field_then(xy, yy, seq![x.month, x.day], seq![y.month, y.day]);
    crate::numbytes::lemma_lex_cmp_single(x.month, y.month);
    crate::numbytes::lemma_lex_cmp_single(x.day, y.day);
    lemma_field_then(seq![x.month], seq![y.month], seq![x.day], seq![y.day]);
    assert(seq![x.month, x.day] =~= seq![x.month] + seq![x.day]);
    assert(seq![y.month, y.day] =~= seq![y.month] + seq![y.day]);
}

proof fn lemma_mc_time_order(x: NaiveTimeWrapper, y: NaiveTimeWrapper)
    ensures
        lex_cmp(mc_time(x), mc_time(y)) == crate::temporal::time_cmp(x, y),
        mc_time(x).len() == 8,
        mc_time(y).len() == 8,
{
    crate::value::lemma_pow256_values();
    lemma_be_field_cmp(x.secs as nat, y.secs as nat, 4);
    lemma_be_field_cmp(x.nano as nat, y.nano as nat, 4);
    lemma_field_then(
        be_bytes(x.secs as nat, 4),
        be_bytes(y.secs as nat, 4),
        be_bytes(x.nano as nat, 4),
        be_bytes(y.nano as nat, 4),
    );
}

/// One key column decides the comparison of two encoded rows unless its
/// datums tie, in which case the remainders decide.
proof fn lemma_mc_datum_head(a: DatumVal, b: DatumVal, t: DataType, dir: OrderType, ca: Seq<u8>, cb: Seq<u8>)
    requires
        datum_has_type(a, t),
        datum_has_type(b, t),
        mc_supported(t),
        datum_wf(a),
        datum_wf(b),
    ensures
        ({
            let dc = match dir {
                OrderType::Ascending => datum_cmp(a, b),
                OrderType::Descending => -datum_cmp(a, b),
            };
            lex_cmp(mc_datum(a, dir) + ca, mc_datum(b, dir) + cb) == if dc != 0 {
                dc
            } else {
                lex_cmp(ca, cb)
            }
        }),
{
    let ea = mc_datum(a, dir);
    let eb = mc_datum(b, dir);
    match (a, b) {
        (Option::None, Option::None) => {
            assert(ea =~= eb);
            lemma_field_then(ea, eb, ca, cb);
            crate::numbytes::lemma_lex_cmp_refl(ea);
        },
        (Option::None, Option::Some(sb)) => {
            lemma_mc_scalar_len(sb);
            match dir {
                OrderType::Ascending => {
                    assert(ea[0] == 0 && eb[0] == 1);
                },
                OrderType::Descending => {
                    assert(ea[0] == 255 && eb[0] == 254);
                },
            }
            assert((ea + ca)[0] == ea[0]);
            assert((eb + cb)[0] == eb[0]);
            crate::numbytes::lemma_lex_cmp_head_diff(ea + ca, eb + cb);
        },
        (Option::Some(sa), Option::None) => {
            lemma_mc_scalar_len(sa);
            match dir {
                OrderType::Ascending => {
                    assert(ea[0] == 1 && eb[0] == 0);
                },
                OrderType::Descending => {
                    assert(ea[0] == 254 && eb[0] == 255);
                },
            }
            assert((ea + ca)[0] == ea[0]);
            assert((eb + cb)[0] == eb[0]);
            crate::numbytes::lemma_lex_cmp_head_diff(ea + ca, eb + cb);
        },
        (Option::Some(sa), Option::Some(sb)) => {
            lemma_mc_scalar_order(sa, sb);
            crate::numbytes::lemma_lex_cmp_single(1, 1);
            lemma_field_then(seq![1u8], seq![1u8], mc_scalar(sa), mc_scalar(sb));
            let fa = seq![1u8] + mc_scalar(sa);
            let fb = seq![1u8] + mc_scalar(sb);
            match dir {
                OrderType::Ascending => {
                    assert(ea =~= fa);
                    assert(eb =~= fb);
                    lemma_field_then(ea, eb, ca, cb);
                },
                OrderType::Descending => {
                    assert(ea =~= compl_bytes(fa));
                    assert(eb =~= compl_bytes(fb));
                    crate::numbytes::lemma_compl_bytes_order(fa, fb);
                    lemma_field_then(ea, eb, ca, cb);
                },
            }
        },
    }
}

/// Comparing the memcomparable encodings of two key rows of one supported
/// schema bytewise equals comparing the rows logically under the declared
/// directions.
pub proof fn lemma_memcomparable_monotone(
    a: Seq<DatumVal>,
    b: Seq<DatumVal>,
    ts: Seq<DataType>,
    dirs: Seq<OrderType>,
)
    requires
        a.len() == b.len(),
        ts.len() == a.len(),
        dirs.len() == a.len(),
        forall|i: int| 0 <= i < a.len() ==> datum_has_type(#[trigger] a[i], ts[i]),
        forall|i: int| 0 <= i < b.len() ==> datum_has_type(#[trigger] b[i], ts[i]),
        forall|i: int| 0 <= i < ts.len() ==> mc_supported(#[trigger] ts[i]),
        forall|i: int| 0 <= i < a.len() ==> datum_wf(#[trigger] a[i]),
        forall|i: int| 0 <= i < b.len() ==> datum_wf(#[trigger] b[i]),
    ensures
        lex_cmp(mc_row(a, dirs), mc_row(b, dirs)) == row_cmp_dirs(a, b, dirs),
    decreases a.len(),
{
    if a.len() > 0 {
        lemma_mc_datum_head(
            a[0],
            b[0],
            ts[0],
            dirs[0],
            mc_row(a.drop_first(), dirs.drop_first()),
            mc_row(b.drop_first(), dirs.drop_first()),
        );
        assert(forall|i: int|
            0 <= i < a.drop_first().len() ==> datum_has_type(
                #[trigger] a.drop_first()[i],
                ts.drop_first()[i],
            ));
        assert(forall|i: int|
            0 <= i < b.drop_first().len() ==> datum_has_type(
                #[trigger] b.drop_first()[i],
                ts.drop_first()[i],
            ));
        assert(forall|i: int|
            0 <= i < ts.drop_first().len() ==> mc_supported(#[trigger] ts.drop_first()[i]));
        assert(forall|i: int| 0 <= i < a.drop_first().len() ==> datum_wf(#[trigger] a.drop_first()[i]));
        assert(forall|i: int| 0 <= i < b.drop_first().len() ==> datum_wf(#[trigger] b.drop_first()[i]));
        lemma_memcomparable_monotone(a.drop_first(), b.drop_first(), ts.drop_first(), dirs.drop_first());
    }
}

/// Equal key rows have equal encodings, and the encoding determines the
/// row: strict monotonicity makes the key serializer injective.
pub proof fn lemma_memcomparable_injective(
    a: Seq<DatumVal>,
    b: Seq<DatumVal>,
    ts: Seq<DataType>,
    dirs: Seq<OrderType>,
)
    requires
        a.len() == b.len(),
        ts.len() == a.len(),
        dirs.len() == a.len(),
        forall|i: int| 0 <= i < a.len() ==> datum_has_type(#[trigger] a[i], ts[i]),
        forall|i: int| 0 <= i < b.len() ==> datum_has_type(#[trigger] b[i], ts[i]),
        forall|i: int| 0 <= i < ts.len() ==> mc_supported(#[trigger] ts[i]),
        forall|i: int| 0 <= i < a.len() ==> datum_wf(#[trigger] a[i]),
        forall|i: int| 0 <= i < b.len() ==> datum_wf(#[trigger] b[i]),
        mc_row(a, dirs) == mc_row(b, dirs),
    ensures
        row_cmp_dirs(a, b, dirs) == 0,
{
    lemma_memcomparable_monotone(a, b, ts, dirs);
    crate::numbytes::lemma_lex_cmp_refl(mc_row(a, dirs));
}

/// Serializes key rows into memcomparable bytes under a declared schema
/// and per-column directions.
#[derive(Clone, Debug)]
pub struct OrderedRowSerde {
    pub schema: Vec<DataType>,
    pub order_types: Vec<OrderType>,
}

/// The row fits this serializer: right length, right types, well formed,
/// and every column of a supported key type.
pub open spec fn serde_fits(r: Seq<DatumVal>, schema: Seq<DataType>) -> bool {
    &&& r.len() == schema.len()
    &&& forall|i: int| 0 <= i < r.len() ==> datum_has_type(#[trigger] r[i], schema[i])
    &&& forall|i: int| 0 <= i < schema.len() ==> mc_supported(#[trigger] schema[i])
    &&& forall|i: int| 0 <= i < r.len() ==> datum_wf(#[trigger] r[i])
}

impl OrderedRowSerde {
    /// A serializer for the given column types and directions.
    pub fn new(schema: Vec<DataType>, order_types: Vec<OrderType>) -> (r: OrderedRowSerde)
        requires
            schema@.len() == order_types@.len(),
        ensures
            r.schema@ == schema@,
            r.order_types@ == order_types@,
    {
        OrderedRowSerde { schema, order_types }
    }

    /// Appends the memcomparable form of `row` under this serializer's
    /// directions.
    pub fn serialize(&self, row: &crate::row::Row, out: &mut Vec<u8>)
        requires
            serde_fits(row@, self.schema@),
            self.order_types@.len() == self.schema@.len(),
        ensures
            final(out)@ == old(out)@ + mc_row(row@, self.order_types@),
    {
        let n = row.len();
        let mut i: usize = 0;
        let ghost prefix = old(out)@;
        proof {
            assert(mc_row_take(row@, self.order_types@, 0) =~= Seq::<u8>::empty());
        }
        while i < n
            invariant
                i <= n,
                n == row@.len(),
                serde_fits(row@, self.schema@),
                self.order_types@.len() == self.schema@.len(),
                out@ =~= prefix + mc_row_take(row@, self.order_types@, i as int),
            decreases n - i,
        {
            mc_encode_datum(out, row.datum_at(i), self.order_types[i]);
            proof {
                lemma_mc_row_take_step(row@, self.order_types@, i as int);
            }
            i = i + 1;
        }
        proof {
            lemma_mc_row_take_all(row@, self.order_types@);
        }
    }
}

/// The encoding of the first `k` columns.
pub open spec fn mc_row_take(r: Seq<DatumVal>, dirs: Seq<OrderType>, k: int) -> Seq<u8> {
    mc_row(r.take(k), dirs.take(k))
}

proof fn lemma_mc_row_take_step(r: Seq<DatumVal>, dirs: Seq<OrderType>, i: int)
    requires
        0 <= i < r.len(),
        i < dirs.len(),
    ensures
        mc_row_take(r, dirs, i + 1) =~= mc_row_take(r, dirs, i) + mc_datum(r[i], dirs[i]),
    decreases i,
{
    if i == 0 {
        reveal_with_fuel(mc_row, 3);
        assert(r.take(0) =~= Seq::<DatumVal>::empty());
        assert(dirs.take(0) =~= Seq::<OrderType>::empty());
        assert(r.take(1)[0] == r[0]);
        assert(dirs.take(1)[0] == dirs[0]);
        assert(r.take(1).drop_first() =~= Seq::<DatumVal>::empty());
        assert(mc_row(r.take(1), dirs.take(1)) == mc_datum(r[0], dirs[0]) + mc_row(
            Seq::<DatumVal>::empty(),
            Seq::<OrderType>::empty(),
        ));
    } else {
        let rd = r.drop_first();
        let dd = dirs.drop_first();
        assert(r.take(i + 1)[0] == r[0]);
        assert(dirs.take(i + 1)[0] == dirs[0]);
        assert(r.take(i)[0] == r[0]);
        assert(dirs.take(i)[0] == dirs[0]);
        assert(r.take(i + 1).drop_first() =~= rd.take(i));
        assert(dirs.take(i + 1).drop_first() =~= dd.take(i));
        assert(r.take(i).drop_first() =~= rd.take(i - 1));
        assert(dirs.take(i).drop_first() =~= dd.take(i - 1));
        assert(mc_row(r.take(i + 1), dirs.take(i + 1)) == mc_datum(r[0], dirs[0]) + mc_row(
            rd.take(i),
            dd.take(i),
        ));
        assert(mc_row(r.take(i), dirs.take(i)) == mc_datum(r[0], dirs[0]) + mc_row(
            rd.take(i - 1),
            dd.take(i - 1),
        ));
        lemma_mc_row_take_step(rd, dd, i - 1);
        assert(rd[i - 1] == r[i]);
        assert(dd[i - 1] == dirs[i]);
        assert(mc_datum(r[0], dirs[0]) + (mc_row(rd.take(i - 1), dd.take(i - 1)) + mc_datum(
            r[i],
            dirs[i],
        )) =~= (mc_datum(r[0], dirs[0]) + mc_row(rd.take(i - 1), dd.take(i - 1))) + mc_datum(
            r[i],
            dirs[i],
        ));
    }
}

proof fn lemma_mc_row_take_all(r: Seq<DatumVal>, dirs: Seq<OrderType>)
    requires
        r.len() <= dirs.len(),
    ensures
        mc_row_take(r, dirs, r.len() as int) =~= mc_row(r, dirs),
    decreases r.len(),
{
    if r.len() == 0 {
        assert(r.take(0) =~= r);
    } else {
        assert(r.take(r.len() as int) =~= r);
        assert(dirs.take(r.len() as int).drop_first() =~= dirs.drop_first().take(r.len() - 1));
        assert(r.drop_first().take(r.len() - 1) =~= r.drop_first());
        lemma_mc_row_take_all(r.drop_first(), dirs.drop_first());
        assert(mc_row(r, dirs.take(r.len() as int)) == mc_datum(r[0], dirs.take(r.len() as int)[0])
            + mc_row(r.drop_first(), dirs.take(r.len() as int).drop_first()));
        assert(mc_row(r.drop_first(), dirs.drop_first().take(r.len() - 1)) == mc_row(
            r.drop_first(),
            dirs.drop_first(),
        ));
    }
}

/// Appends the memcomparable form of one key datum.
fn mc_encode_datum(out: &mut Vec<u8>, d: &Datum, dir: OrderType)
    requires
        datum_wf(datum_view(*d)),
        mc_supported(match datum_view(*d) {
            Option::None => DataType::Boolean,
            Option::Some(s) => crate::types::scalar_type(s),
        }),
    ensures
        final(out)@ == old(out)@ + mc_datum(datum_view(*d), dir),
{
    let mut tmp: Vec<u8> = Vec::new();
    proof {
        crate::value::lemma_pow256_values();
    }
    match d {
        Option::None => {
            tmp.push(0u8);
            proof {
                assert(tmp@ =~= seq![0u8]);
            }
        },
        Option::Some(s) => {
            tmp.push(1u8);
            let ghost mid = tmp@;
            match s {
                ScalarImpl::Bool(b) => {
                    tmp.push(
                        if *b {
                            1u8
                        } else {
                            0u8
                        },
                    );
                },
                ScalarImpl::Int16(i) => {
                    let u = crate::numbytes::offset_u16(*i);
                    crate::numbytes::push_be_u64(&mut tmp, u as u64, 2);
                },
                ScalarImpl::Int32(i) => {
                    let u = crate::numbytes::offset_u32(*i);
                    crate::numbytes::push_be_u64(&mut tmp, u as u64, 4);
                },
                ScalarImpl::Int64(i) => {
                    let u = crate::numbytes::offset_u64(*i);
                    crate::numbytes::push_be_u64(&mut tmp, u, 8);
                },
                ScalarImpl::Float32(bits) => {
                    let k: u64 = if *bits >= 0x80000000 {
                        (0xFFFFFFFFu32 - *bits) as u64
                    } else {
                        (*bits as u64) + 0x80000000
                    };
                    crate::numbytes::push_be_u64(&mut tmp, k, 4);
                },
                ScalarImpl::Float64(bits) => {
                    let k: u64 = if *bits >= 0x8000000000000000 {
                        0xFFFFFFFFFFFFFFFFu64 - *bits
                    } else {
                        *bits + 0x8000000000000000
                    };
                    crate::numbytes::push_be_u64(&mut tmp, k, 8);
                },
                ScalarImpl::NaiveDate(dt) => {
                    push_mc_date(&mut tmp, dt);
                },
                ScalarImpl::NaiveTime(t) => {
                    push_mc_time(&mut tmp, t);
                },
                ScalarImpl::NaiveDateTime(ts) => {
                    push_mc_date(&mut tmp, &ts.date);
                    push_mc_time(&mut tmp, &ts.time);
                },
                ScalarImpl::Interval(iv) => {
                    let um = crate::numbytes::offset_u32(iv.months);
                    crate::numbytes::push_be_u64(&mut tmp, um as u64, 4);
                    let ud = crate::numbytes::offset_u32(iv.days);
                    crate::numbytes::push_be_u64(&mut tmp, ud as u64, 4);
                    let ums = crate::numbytes::offset_u64(iv.ms);
                    crate::numbytes::push_be_u64(&mut tmp, ums, 8);
                },
                _ => {
                    proof {
                        assert(false);
                    }
                },
            }
            proof {
                assert(tmp@ =~= seq![1u8] + mc_scalar(s@));
            }
        },
    }
    let n = tmp.len();
    let mut i: usize = 0;
    let ghost base = out@;
    match dir {
        OrderType::Ascending => {
            while i < n
                invariant
                    i <= n,
                    n == tmp@.len(),
                    out@ =~= base + tmp@.take(i as int),
                decreases n - i,
            {
                out.push(tmp[i]);
                proof {
                    assert(out@ =~= base + tmp@.take(i + 1));
                }
                i = i + 1;
            }
            proof {
                assert(tmp@.take(n as int) =~= tmp@);
            }
        },
        OrderType::Descending => {
            while i < n
                invariant
                    i <= n,
                    n == tmp@.len(),
                    out@ =~= base + compl_bytes(tmp@).take(i as int),
                decreases n - i,
            {
                out.push(255 - tmp[i]);
                proof {
                    assert(out@ =~= base + compl_bytes(tmp@).take(i + 1));
                }
                i = i + 1;
            }
            proof {
                assert(compl_bytes(tmp@).take(n as int) =~= compl_bytes(tmp@));
            }
        },
    }
}

fn push_mc_date(out: &mut Vec<u8>, d: &NaiveDateWrapper)
    ensures
        final(out)@ == old(out)@ + mc_date(*d),
{
    proof {
        crate::value::lemma_pow256_values();
    }
    let u = crate::numbytes::offset_u32(d.year);
    crate::numbytes::push_be_u64(out, u as u64, 4);
    out.push(d.month);
    out.push(d.day);
    proof {
        assert(out@ =~= old(out)@ + mc_date(*d));
    }
}

fn push_mc_time(out: &mut Vec<u8>, t: &NaiveTimeWrapper)
    ensures
        final(out)@ == old(out)@ + mc_time(*t),
{
    proof {
        crate::value::lemma_pow256_values();
    }
    crate::numbytes::push_be_u64(out, t.secs as u64, 4);
    crate::numbytes::push_be_u64(out, t.nano as u64, 4);
    proof {
        assert(out@ =~= old(out)@ + mc_time(*t));
    }
}

} // verus!
