//! Scalar values: nullable datums of a declared logical type, with a
//! mathematical view, well-formedness, equality and a total order per type.

use vstd::prelude::*;

use crate::numbytes::lex_cmp;
use crate::temporal::NaiveDateTimeWrapper;
use crate::temporal::NaiveDateWrapper;
use crate::temporal::NaiveTimeWrapper;
use crate::temporal::date_wf;
use crate::temporal::time_wf;

verus! {

/// Logical type of a datum.
#[derive(Clone, Copy, Debug, PartialEq, Eq, Structural)]
pub enum DataType {
    Boolean,
    Int16,
    Int32,
    Int64,
    Float32,
    Float64,
    Decimal,
    Varchar,
    Date,
    Time,
    Timestamp,
    Interval,
}

/// Largest scale a decimal may carry: ten's exponent of the denominator.
pub const DECIMAL_MAX_SCALE: u8 = 14;

/// A fixed-point decimal `mantissa / 10^scale`.
#[derive(Clone, Copy, Debug, PartialEq, Eq, Structural)]
pub struct Decimal {
    pub mantissa: i64,
    pub scale: u8,
}

/// A span of months, days and milliseconds, kept as three separate fields as
/// calendar arithmetic requires.
#[derive(Clone, Copy, Debug, PartialEq, Eq, Structural)]
pub struct IntervalUnit {
    pub months: i32,
    pub days: i32,
    pub ms: i64,
}

impl IntervalUnit {
    pub fn new(months: i32, days: i32, ms: i64) -> (r: IntervalUnit)
        ensures
            r.months == months,
            r.days == days,
            r.ms == ms,
    {
        IntervalUnit { months, days, ms }
    }

    pub fn get_months(&self) -> (r: i32)
        ensures
            r == self.months,
    {
        self.months
    }

    pub fn get_days(&self) -> (r: i32)
        ensures
            r == self.days,
    {
        self.days
    }

    pub fn get_ms(&self) -> (r: i64)
        ensures
            r == self.ms,
    {
        self.ms
    }
}

/// A scalar value of one of the logical types. Floats are carried as their
/// IEEE bit patterns; text as its UTF-8 bytes.
#[derive(Clone, Debug)]
pub enum ScalarImpl {
    Bool(bool),
    Int16(i16),
    Int32(i32),
    Int64(i64),
    Float32(u32),
    Float64(u64),
    Decimal(Decimal),
    Utf8(Vec<u8>),
    NaiveDate(NaiveDateWrapper),
    NaiveTime(NaiveTimeWrapper),
    NaiveDateTime(NaiveDateTimeWrapper),
    Interval(IntervalUnit),
}

/// The mathematical value of a scalar.
pub enum ScalarVal {
    Bool(bool),
    Int16(i16),
    Int32(i32),
    Int64(i64),
    Float32(u32),
    Float64(u64),
    Decimal(Decimal),
    Utf8(Seq<u8>),
    NaiveDate(NaiveDateWrapper),
    NaiveTime(NaiveTimeWrapper),
    NaiveDateTime(NaiveDateTimeWrapper),
    Interval(IntervalUnit),
}

impl View for ScalarImpl {
    type V = ScalarVal;

    open spec fn view(&self) -> ScalarVal {
        match self {
            ScalarImpl::Bool(b) => ScalarVal::Bool(*b),
            ScalarImpl::Int16(i) => ScalarVal::Int16(*i),
            ScalarImpl::Int32(i) => ScalarVal::Int32(*i),
            ScalarImpl::Int64(i) => ScalarVal::Int64(*i),
            ScalarImpl::Float32(b) => ScalarVal::Float32(*b),
            ScalarImpl::Float64(b) => ScalarVal::Float64(*b),
            ScalarImpl::Decimal(d) => ScalarVal::Decimal(*d),
            ScalarImpl::Utf8(v) => ScalarVal::Utf8(v@),
            ScalarImpl::NaiveDate(d) => ScalarVal::NaiveDate(*d),
            ScalarImpl::NaiveTime(t) => ScalarVal::NaiveTime(*t),
            ScalarImpl::NaiveDateTime(ts) => ScalarVal::NaiveDateTime(*ts),
            ScalarImpl::Interval(iv) => ScalarVal::Interval(*iv),
        }
    }
}

/// A nullable scalar.
pub type Datum = Option<ScalarImpl>;

/// The mathematical value of a datum.
pub type DatumVal = Option<ScalarVal>;

pub open spec fn datum_view(d: Datum) -> DatumVal {
    match d {
        Option::None => Option::None,
        Option::Some(s) => Option::Some(s@),
    }
}

/// The logical type a scalar value belongs to.
pub open spec fn scalar_type(s: ScalarVal) -> DataType {
    match s {
        ScalarVal::Bool(_) => DataType::Boolean,
        ScalarVal::Int16(_) => DataType::Int16,
        ScalarVal::Int32(_) => DataType::Int32,
        ScalarVal::Int64(_) => DataType::Int64,
        ScalarVal::Float32(_) => DataType::Float32,
        ScalarVal::Float64(_) => DataType::Float64,
        ScalarVal::Decimal(_) => DataType::Decimal,
        ScalarVal::Utf8(_) => DataType::Varchar,
        ScalarVal::NaiveDate(_) => DataType::Date,
        ScalarVal::NaiveTime(_) => DataType::Time,
        ScalarVal::NaiveDateTime(_) => DataType::Timestamp,
        ScalarVal::Interval(_) => DataType::Interval,
    }
}

/// The canonical bit pattern all 32-bit NaNs are mapped to.
pub const CANONICAL_NAN_F32: u32 = 0x7FC00000;

/// The canonical bit pattern all 64-bit NaNs are mapped to.
pub const CANONICAL_NAN_F64: u64 = 0x7FF8000000000000;

pub open spec fn f32_is_nan(bits: u32) -> bool {
    (bits / 0x800000) % 0x100 == 0xFF && bits % 0x800000 != 0
}

pub open spec fn f64_is_nan(bits: u64) -> bool {
    (bits / 0x10000000000000) % 0x800 == 0x7FF && bits % 0x10000000000000 != 0
}

/// Well-formedness of a scalar value: bounds that constructors establish.
pub open spec fn scalar_wf(s: ScalarVal) -> bool {
    match s {
        ScalarVal::Decimal(d) => d.scale <= DECIMAL_MAX_SCALE,
        ScalarVal::Utf8(v) => v.len() < 0x100000000,
        ScalarVal::NaiveDate(d) => date_wf(d),
        ScalarVal::NaiveTime(t) => time_wf(t),
        ScalarVal::NaiveDateTime(ts) => date_wf(ts.date) && time_wf(ts.time),
        ScalarVal::Float32(bits) => !f32_is_nan(bits) || bits == CANONICAL_NAN_F32,
        ScalarVal::Float64(bits) => !f64_is_nan(bits) || bits == CANONICAL_NAN_F64,
        _ => true,
    }
}

pub open spec fn datum_wf(d: DatumVal) -> bool {
    match d {
        Option::None => true,
        Option::Some(s) => scalar_wf(s),
    }
}

/// A datum fits a column type when it is null or a scalar of that type.
pub open spec fn datum_has_type(d: DatumVal, t: DataType) -> bool {
    match d {
        Option::None => true,
        Option::Some(s) => scalar_type(s) == t,
    }
}

/// 10^k.
pub open spec fn pow10(k: nat) -> nat
    decreases k,
{
    if k == 0 {
        1
    } else {
        10 * pow10((k - 1) as nat)
    }
}

pub proof fn lemma_pow10_bound(k: nat)
    requires
        k <= 14,
    ensures
        pow10(k) >= 1,
        pow10(k) <= 100000000000000,
    decreases k,
{
    reveal_with_fuel(pow10, 15);
    if k > 0 {
        lemma_pow10_bound((k - 1) as nat);
    }
}

/// 10^k as a u64; `k` must be at most 14.
pub fn pow10_u64(k: u8) -> (r: u64)
    requires
        k <= 14,
    ensures
        r as nat == pow10(k as nat),
{
    let mut r: u64 = 1;
    let mut i: u8 = 0;
    while i < k
        invariant
            i <= k,
            k <= 14,
            r as nat == pow10(i as nat),
        decreases k - i,
    {
        proof {
            lemma_pow10_bound(i as nat);
            assert(pow10((i + 1) as nat) == 10 * pow10(i as nat));
            lemma_pow10_bound((i + 1) as nat);
        }
        r = r * 10;
        i = i + 1;
    }
    r
}

/// Numeric three-way comparison of two decimals, over mathematical integers:
/// `a/10^as < b/10^bs` exactly when `a * 10^bs < b * 10^as`.
pub open spec fn decimal_cmp(a: Decimal, b: Decimal) -> int {
    crate::numbytes::int_cmp(
        a.mantissa * pow10(b.scale as nat),
        b.mantissa * pow10(a.scale as nat),
    )
}

/// A rank that orders the variants, used only to make the scalar order total.
pub open spec fn scalar_rank(s: ScalarVal) -> int {
    match s {
        ScalarVal::Bool(_) => 0,
        ScalarVal::Int16(_) => 1,
        ScalarVal::Int32(_) => 2,
        ScalarVal::Int64(_) => 3,
        ScalarVal::Float32(_) => 4,
        ScalarVal::Float64(_) => 5,
        ScalarVal::Decimal(_) => 6,
        ScalarVal::Utf8(_) => 7,
        ScalarVal::NaiveDate(_) => 8,
        ScalarVal::NaiveTime(_) => 9,
        ScalarVal::NaiveDateTime(_) => 10,
        ScalarVal::Interval(_) => 11,
    }
}

/// The order-preserving map from 32-bit float bit patterns onto `[0, 2^32)`:
/// negative floats are reversed below the non-negative ones.
pub open spec fn f32_order_key(bits: u32) -> nat {
    if bits >= 0x80000000 {
        (0xFFFFFFFF - bits) as nat
    } else {
        (bits + 0x80000000) as nat
    }
}

/// The order-preserving map from 64-bit float bit patterns onto `[0, 2^64)`.
pub open spec fn f64_order_key(bits: u64) -> nat {
    if bits >= 0x8000000000000000 {
        (0xFFFFFFFFFFFFFFFF - bits) as nat
    } else {
        (bits + 0x8000000000000000) as nat
    }
}

/// Total three-way order on scalar values. Within one type it is the type's
/// logical order; across types the variant rank decides (rows of one schema
/// never compare across types).
pub open spec fn scalar_cmp(a: ScalarVal, b: ScalarVal) -> int {
    if scalar_rank(a) != scalar_rank(b) {
        crate::numbytes::int_cmp(scalar_rank(a), scalar_rank(b))
    } else {
        match (a, b) {
            (ScalarVal::Bool(x), ScalarVal::Bool(y)) => crate::numbytes::int_cmp(
                if x {
                    1int
                } else {
                    0int
                },
                if y {
                    1int
                } else {
                    0int
                },
            ),
            (ScalarVal::Int16(x), ScalarVal::Int16(y)) => crate::numbytes::int_cmp(x as int, y as int),
            (ScalarVal::Int32(x), ScalarVal::Int32(y)) => crate::numbytes::int_cmp(x as int, y as int),
            (ScalarVal::Int64(x), ScalarVal::Int64(y)) => crate::numbytes::int_cmp(x as int, y as int),
            (ScalarVal::Float32(x), ScalarVal::Float32(y)) => crate::numbytes::int_cmp(
                f32_order_key(x) as int,
                f32_order_key(y) as int,
            ),
            (ScalarVal::Float64(x), ScalarVal::Float64(y)) => crate::numbytes::int_cmp(
                f64_order_key(x) as int,
                f64_order_key(y) as int,
            ),
            (ScalarVal::Decimal(x), ScalarVal::Decimal(y)) => if x.scale <= DECIMAL_MAX_SCALE
                && y.scale <= DECIMAL_MAX_SCALE {
                decimal_cmp(x, y)
            } else if x.mantissa != y.mantissa {
                crate::numbytes::int_cmp(x.mantissa as int, y.mantissa as int)
            } else {
                crate::numbytes::int_cmp(x.scale as int, y.scale as int)
            },
            (ScalarVal::Utf8(x), ScalarVal::Utf8(y)) => lex_cmp(x, y),
            (ScalarVal::NaiveDate(x), ScalarVal::NaiveDate(y)) => crate::temporal::date_cmp(x, y),
            (ScalarVal::NaiveTime(x), ScalarVal::NaiveTime(y)) => crate::temporal::time_cmp(x, y),
            (ScalarVal::NaiveDateTime(x), ScalarVal::NaiveDateTime(y)) => crate::temporal::timestamp_cmp(
                x,
                y,
            ),
            (ScalarVal::Interval(x), ScalarVal::Interval(y)) => interval_cmp(x, y),
            _ => 0,
        }
    }
}

/// Lexicographic order on (months, days, ms).
pub open spec fn interval_cmp(a: IntervalUnit, b: IntervalUnit) -> int {
    if a.months != b.months {
        crate::numbytes::int_cmp(a.months as int, b.months as int)
    } else if a.days != b.days {
        crate::numbytes::int_cmp(a.days as int, b.days as int)
    } else {
        crate::numbytes::int_cmp(a.ms as int, b.ms as int)
    }
}

/// Nulls sort first; two nulls are equal.
pub open spec fn datum_cmp(a: DatumVal, b: DatumVal) -> int {
    match (a, b) {
        (Option::None, Option::None) => 0,
        (Option::None, Option::Some(_)) => -1,
        (Option::Some(_), Option::None) => 1,
        (Option::Some(x), Option::Some(y)) => scalar_cmp(x, y),
    }
}

/// Equality of scalar values: numeric for well-formed decimals, structural
/// elsewhere.
pub open spec fn scalar_eq(a: ScalarVal, b: ScalarVal) -> bool {
    match (a, b) {
        (ScalarVal::Decimal(x), ScalarVal::Decimal(y)) => if x.scale <= DECIMAL_MAX_SCALE
            && y.scale <= DECIMAL_MAX_SCALE {
            decimal_cmp(x, y) == 0
        } else {
            x == y
        },
        _ => a == b,
    }
}

pub open spec fn datum_eq(a: DatumVal, b: DatumVal) -> bool {
    match (a, b) {
        (Option::None, Option::None) => true,
        (Option::Some(x), Option::Some(y)) => scalar_eq(x, y),
        _ => false,
    }
}

impl ScalarImpl {
    /// A 32-bit float scalar from its bit pattern; NaNs collapse to one
    /// canonical value so that equality, order and hashing are deterministic.
    pub fn float32_from_bits(bits: u32) -> (r: ScalarImpl)
        ensures
            r@ == ScalarVal::Float32(if f32_is_nan(bits) {
                CANONICAL_NAN_F32
            } else {
                bits
            }),
            scalar_wf(r@),
    {
        let exp = (bits / 0x800000) % 0x100;
        let mant = bits % 0x800000;
        if exp == 0xFF && mant != 0 {
            ScalarImpl::Float32(CANONICAL_NAN_F32)
        } else {
            ScalarImpl::Float32(bits)
        }
    }

    /// A 64-bit float scalar from its bit pattern, NaNs canonicalized.
    pub fn float64_from_bits(bits: u64) -> (r: ScalarImpl)
        ensures
            r@ == ScalarVal::Float64(if f64_is_nan(bits) {
                CANONICAL_NAN_F64
            } else {
                bits
            }),
            scalar_wf(r@),
    {
        let exp = (bits / 0x10000000000000) % 0x800;
        let mant = bits % 0x10000000000000;
        if exp == 0x7FF && mant != 0 {
            ScalarImpl::Float64(CANONICAL_NAN_F64)
        } else {
            ScalarImpl::Float64(bits)
        }
    }
}

/// The product of an `i64` mantissa and a scale power stays far inside `i128`.
proof fn lemma_mantissa_product_bound(m: int, p: int)
    requires
        -0x8000000000000000 <= m <= 0x7FFFFFFFFFFFFFFF,
        1 <= p <= 100000000000000,
    ensures
        -0x80000000000000000000000000000000 < m * p < 0x7FFFFFFFFFFFFFFFFFFFFFFFFFFFFFFF,
{
    if m >= 0 {
        vstd::arithmetic::mul::lemma_mul_upper_bound(m, 0x8000000000000000, p, 100000000000000);
        vstd::arithmetic::mul::lemma_mul_nonnegative(m, p);
    } else {
        vstd::arithmetic::mul::lemma_mul_upper_bound(-m, 0x8000000000000000, p, 100000000000000);
        assert((-m) * p == -(m * p)) by (nonlinear_arith);
        assert(m * p <= 0) by (nonlinear_arith)
            requires
                m < 0,
                p >= 1,
        ;
    }
}

/// Exec three-way comparison of two decimals, matching `decimal_cmp`.
pub fn decimal_cmp_exec(a: &Decimal, b: &Decimal) -> (r: i32)
    requires
        a.scale <= DECIMAL_MAX_SCALE,
        b.scale <= DECIMAL_MAX_SCALE,
    ensures
        r as int == decimal_cmp(*a, *b),
        -1 <= r <= 1,
{
    proof {
        lemma_pow10_bound(a.scale as nat);
        lemma_pow10_bound(b.scale as nat);
    }
    let pa = pow10_u64(b.scale);
    let pb = pow10_u64(a.scale);
    proof {
        lemma_mantissa_product_bound(a.mantissa as int, pa as int);
        lemma_mantissa_product_bound(b.mantissa as int, pb as int);
    }
    let left: i128 = (a.mantissa as i128) * (pa as i128);
    let right: i128 = (b.mantissa as i128) * (pb as i128);
    if left < right {
        -1
    } else if left > right {
        1
    } else {
        0
    }
}

/// Exec equality on scalars, matching `scalar_eq` on the views.
pub fn scalar_eq_exec(a: &ScalarImpl, b: &ScalarImpl) -> (r: bool)
    ensures
        r == scalar_eq(a@, b@),
{
    match (a, b) {
        (ScalarImpl::Bool(x), ScalarImpl::Bool(y)) => x == y,
        (ScalarImpl::Int16(x), ScalarImpl::Int16(y)) => x == y,
        (ScalarImpl::Int32(x), ScalarImpl::Int32(y)) => x == y,
        (ScalarImpl::Int64(x), ScalarImpl::Int64(y)) => x == y,
        (ScalarImpl::Float32(x), ScalarImpl::Float32(y)) => x == y,
        (ScalarImpl::Float64(x), ScalarImpl::Float64(y)) => x == y,
        (ScalarImpl::Decimal(x), ScalarImpl::Decimal(y)) => {
            if x.scale <= DECIMAL_MAX_SCALE && y.scale <= DECIMAL_MAX_SCALE {
                decimal_cmp_exec(x, y) == 0
            } else {
                x == y
            }
        },
        (ScalarImpl::Utf8(x), ScalarImpl::Utf8(y)) => crate::numbytes::bytes_eq(x, y),
        (ScalarImpl::NaiveDate(x), ScalarImpl::NaiveDate(y)) => x == y,
        (ScalarImpl::NaiveTime(x), ScalarImpl::NaiveTime(y)) => x == y,
        (ScalarImpl::NaiveDateTime(x), ScalarImpl::NaiveDateTime(y)) => x == y,
        (ScalarImpl::Interval(x), ScalarImpl::Interval(y)) => x == y,
        _ => {
            proof {
                assert(scalar_rank(a@) != scalar_rank(b@));
            }
            false
        },
    }
}

/// Exec equality on datums, matching `datum_eq` on the views.
pub fn datum_eq_exec(a: &Datum, b: &Datum) -> (r: bool)
    ensures
        r == datum_eq(datum_view(*a), datum_view(*b)),
{
    match (a, b) {
        (Option::None, Option::None) => true,
        (Option::Some(x), Option::Some(y)) => scalar_eq_exec(x, y),
        _ => false,
    }
}

/// Exec rank of a scalar's variant.
fn scalar_rank_exec(s: &ScalarImpl) -> (r: i32)
    ensures
        r as int == scalar_rank(s@),
{
    match s {
        ScalarImpl::Bool(_) => 0,
        ScalarImpl::Int16(_) => 1,
        ScalarImpl::Int32(_) => 2,
        ScalarImpl::Int64(_) => 3,
        ScalarImpl::Float32(_) => 4,
        ScalarImpl::Float64(_) => 5,
        ScalarImpl::Decimal(_) => 6,
        ScalarImpl::Utf8(_) => 7,
        ScalarImpl::NaiveDate(_) => 8,
        ScalarImpl::NaiveTime(_) => 9,
        ScalarImpl::NaiveDateTime(_) => 10,
        ScalarImpl::Interval(_) => 11,
    }
}

fn cmp_i64(x: i64, y: i64) -> (r: i32)
    ensures
        r as int == crate::numbytes::int_cmp(x as int, y as int),
{
    if x < y {
        -1
    } else if x > y {
        1
    } else {
        0
    }
}

fn cmp_u64(x: u64, y: u64) -> (r: i32)
    ensures
        r as int == crate::numbytes::int_cmp(x as int, y as int),
{
    if x < y {
        -1
    } else if x > y {
        1
    } else {
        0
    }
}

/// Exec three-way comparison of scalars, matching `scalar_cmp`.
pub fn scalar_cmp_exec(a: &ScalarImpl, b: &ScalarImpl) -> (r: i32)
    ensures
        r as int == scalar_cmp(a@, b@),
        -1 <= r <= 1,
{
    let ra = scalar_rank_exec(a);
    let rb = scalar_rank_exec(b);
    if ra != rb {
        return if ra < rb {
            -1
        } else {
            1
        };
    }
    match (a, b) {
        (ScalarImpl::Bool(x), ScalarImpl::Bool(y)) => {
            let xv: i64 = if *x {
                1
            } else {
                0
            };
            let yv: i64 = if *y {
                1
            } else {
                0
            };
            cmp_i64(xv, yv)
        },
        (ScalarImpl::Int16(x), ScalarImpl::Int16(y)) => cmp_i64(*x as i64, *y as i64),
        (ScalarImpl::Int32(x), ScalarImpl::Int32(y)) => cmp_i64(*x as i64, *y as i64),
        (ScalarImpl::Int64(x), ScalarImpl::Int64(y)) => cmp_i64(*x, *y),
        (ScalarImpl::Float32(x), ScalarImpl::Float32(y)) => {
            let xk: u64 = if *x >= 0x80000000 {
                (0xFFFFFFFFu32 - *x) as u64
            } else {
                (*x as u64) + 0x80000000
            };
            let yk: u64 = if *y >= 0x80000000 {
                (0xFFFFFFFFu32 - *y) as u64
            } else {
                (*y as u64) + 0x80000000
            };
            cmp_u64(xk, yk)
        },
        (ScalarImpl::Float64(x), ScalarImpl::Float64(y)) => {
            let xk: u64 = if *x >= 0x8000000000000000 {
                0xFFFFFFFFFFFFFFFFu64 - *x
            } else {
                *x + 0x8000000000000000
            };
            let yk: u64 = if *y >= 0x8000000000000000 {
                0xFFFFFFFFFFFFFFFFu64 - *y
            } else {
                *y + 0x8000000000000000
            };
            cmp_u64(xk, yk)
        },
        (ScalarImpl::Decimal(x), ScalarImpl::Decimal(y)) => {
            if x.scale <= DECIMAL_MAX_SCALE && y.scale <= DECIMAL_MAX_SCALE {
                decimal_cmp_exec(x, y)
            } else if x.mantissa != y.mantissa {
                cmp_i64(x.mantissa, y.mantissa)
            } else {
                cmp_i64(x.scale as i64, y.scale as i64)
            }
        },
        (ScalarImpl::Utf8(x), ScalarImpl::Utf8(y)) => crate::numbytes::bytes_cmp(x, y),
        (ScalarImpl::NaiveDate(x), ScalarImpl::NaiveDate(y)) => {
            if x.year != y.year {
                cmp_i64(x.year as i64, y.year as i64)
            } else if x.month != y.month {
                cmp_i64(x.month as i64, y.month as i64)
            } else {
                cmp_i64(x.day as i64, y.day as i64)
            }
        },
        (ScalarImpl::NaiveTime(x), ScalarImpl::NaiveTime(y)) => {
            if x.secs != y.secs {
                cmp_u64(x.secs as u64, y.secs as u64)
            } else {
                cmp_u64(x.nano as u64, y.nano as u64)
            }
        },
        (ScalarImpl::NaiveDateTime(x), ScalarImpl::NaiveDateTime(y)) => {
            if x.date.year != y.date.year {
                cmp_i64(x.date.year as i64, y.date.year as i64)
            } else if x.date.month != y.date.month {
                cmp_i64(x.date.month as i64, y.date.month as i64)
            } else if x.date.day != y.date.day {
                cmp_i64(x.date.day as i64, y.date.day as i64)
            } else if x.time.secs != y.time.secs {
                cmp_u64(x.time.secs as u64, y.time.secs as u64)
            } else {
                cmp_u64(x.time.nano as u64, y.time.nano as u64)
            }
        },
        (ScalarImpl::Interval(x), ScalarImpl::Interval(y)) => {
            if x.months != y.months {
                cmp_i64(x.months as i64, y.months as i64)
            } else if x.days != y.days {
                cmp_i64(x.days as i64, y.days as i64)
            } else {
                cmp_i64(x.ms, y.ms)
            }
        },
        _ => {
            proof {
                assert(false);
            }
            0
        },
    }
}

/// Exec three-way comparison of datums, matching `datum_cmp`.
pub fn datum_cmp_exec(a: &Datum, b: &Datum) -> (r: i32)
    ensures
        r as int == datum_cmp(datum_view(*a), datum_view(*b)),
        -1 <= r <= 1,
{
    match (a, b) {
        (Option::None, Option::None) => 0,
        (Option::None, Option::Some(_)) => -1,
        (Option::Some(_), Option::None) => 1,
        (Option::Some(x), Option::Some(y)) => scalar_cmp_exec(x, y),
    }
}

/// An owned copy of a datum with the same value.
pub fn datum_clone(d: &Datum) -> (r: Datum)
    ensures
        datum_view(r) == datum_view(*d),
{
    match d {
        Option::None => Option::None,
        Option::Some(s) => Option::Some(scalar_clone(s)),
    }
}

/// An owned copy of a scalar with the same value.
pub fn scalar_clone(s: &ScalarImpl) -> (r: ScalarImpl)
    ensures
        r@ == s@,
{
    match s {
        ScalarImpl::Bool(x) => ScalarImpl::Bool(*x),
        ScalarImpl::Int16(x) => ScalarImpl::Int16(*x),
        ScalarImpl::Int32(x) => ScalarImpl::Int32(*x),
        ScalarImpl::Int64(x) => ScalarImpl::Int64(*x),
        ScalarImpl::Float32(x) => ScalarImpl::Float32(*x),
        ScalarImpl::Float64(x) => ScalarImpl::Float64(*x),
        ScalarImpl::Decimal(x) => ScalarImpl::Decimal(*x),
        ScalarImpl::Utf8(v) => {
            let mut c: Vec<u8> = Vec::new();
            let n = v.len();
            let mut i: usize = 0;
            while i < n
                invariant
                    i <= n,
                    n == v@.len(),
                    c@ =~= v@.take(i as int),
                decreases n - i,
            {
                c.push(v[i]);
                proof {
                    assert(c@ =~= v@.take(i + 1));
                }
                i = i + 1;
            }
            proof {
                assert(v@.take(n as int) =~= v@);
            }
            ScalarImpl::Utf8(c)
        },
        ScalarImpl::NaiveDate(x) => ScalarImpl::NaiveDate(*x),
        ScalarImpl::NaiveTime(x) => ScalarImpl::NaiveTime(*x),
        ScalarImpl::NaiveDateTime(x) => ScalarImpl::NaiveDateTime(*x),
        ScalarImpl::Interval(x) => ScalarImpl::Interval(*x),
    }
}

/// Failure to read a decimal from text.
#[derive(Clone, Copy, Debug, PartialEq, Eq, Structural)]
pub struct ParseDecimalError;

/// Reads a decimal from text: an optional sign, digits, and at most one
/// point with at most `DECIMAL_MAX_SCALE` digits after it.
pub fn parse_decimal(s: &str) -> (r: Result<Decimal, ParseDecimalError>) {
    let bytes = s.as_bytes();
    let n = bytes.len();
    let mut i: usize = 0;
    let mut negative = false;
    if n == 0 {
        return Result::Err(ParseDecimalError);
    }
    if bytes[0] == 45 {
        negative = true;
        i = 1;
    } else if bytes[0] == 43 {
        i = 1;
    }
    let mut mantissa: i64 = 0;
    let mut scale: u8 = 0;
    let mut seen_digit = false;
    let mut seen_dot = false;
    while i < n
        invariant
            i <= n,
            n == bytes@.len(),
            0 <= mantissa,
            scale <= DECIMAL_MAX_SCALE,
        decreases n - i,
    {
        let b = bytes[i];
        if b == 46 {
            if seen_dot {
                return Result::Err(ParseDecimalError);
            }
            seen_dot = true;
        } else if 48 <= b && b <= 57 {
            let d = (b - 48) as i64;
            if mantissa > (0x7FFFFFFFFFFFFFFF - d) / 10 {
                return Result::Err(ParseDecimalError);
            }
            mantissa = mantissa * 10 + d;
            if seen_dot {
                if scale >= DECIMAL_MAX_SCALE {
                    return Result::Err(ParseDecimalError);
                }
                scale = scale + 1;
            }
            seen_digit = true;
        } else {
            return Result::Err(ParseDecimalError);
        }
        i = i + 1;
    }
    if !seen_digit {
        return Result::Err(ParseDecimalError);
    }
    let m = if negative {
        -mantissa
    } else {
        mantissa
    };
    Result::Ok(Decimal { mantissa: m, scale })
}

impl core::str::FromStr for Decimal {
    type Err = ParseDecimalError;

    fn from_str(s: &str) -> Result<Decimal, ParseDecimalError> {
        parse_decimal(s)
    }
}

/// Exec check of a scalar's logical type, matching `scalar_type`.
pub fn scalar_type_exec(s: &ScalarImpl) -> (r: DataType)
    ensures
        r == scalar_type(s@),
{
    match s {
        ScalarImpl::Bool(_) => DataType::Boolean,
        ScalarImpl::Int16(_) => DataType::Int16,
        ScalarImpl::Int32(_) => DataType::Int32,
        ScalarImpl::Int64(_) => DataType::Int64,
        ScalarImpl::Float32(_) => DataType::Float32,
        ScalarImpl::Float64(_) => DataType::Float64,
        ScalarImpl::Decimal(_) => DataType::Decimal,
        ScalarImpl::Utf8(_) => DataType::Varchar,
        ScalarImpl::NaiveDate(_) => DataType::Date,
        ScalarImpl::NaiveTime(_) => DataType::Time,
        ScalarImpl::NaiveDateTime(_) => DataType::Timestamp,
        ScalarImpl::Interval(_) => DataType::Interval,
    }
}

/// Exec check of a datum against a column type, matching `datum_has_type`.
pub fn datum_has_type_exec(d: &Datum, t: DataType) -> (r: bool)
    ensures
        r == datum_has_type(datum_view(*d), t),
{
    match d {
        Option::None => true,
        Option::Some(s) => scalar_type_exec(s) == t,
    }
}

fn date_wf_exec(dt: &crate::temporal::NaiveDateWrapper) -> (r: bool)
    ensures
        r == crate::temporal::date_wf(*dt),
{
    crate::temporal::MIN_YEAR <= dt.year && dt.year <= crate::temporal::MAX_YEAR && 1 <= dt.month
        && dt.month <= 12 && 1 <= dt.day && (dt.day as i32) <= crate::temporal::get_mouth_days(
        dt.year,
        dt.month as usize,
    )
}

fn time_wf_exec(t: &crate::temporal::NaiveTimeWrapper) -> (r: bool)
    ensures
        r == crate::temporal::time_wf(*t),
{
    t.secs < 86400 && t.nano < 2_000_000_000
}

/// Exec check of a datum's well-formedness, matching `datum_wf`.
pub fn datum_wf_exec(d: &Datum) -> (r: bool)
    ensures
        r == datum_wf(datum_view(*d)),
{
    match d {
        Option::None => true,
        Option::Some(s) => match s {
            ScalarImpl::Decimal(x) => x.scale <= DECIMAL_MAX_SCALE,
            ScalarImpl::Utf8(v) => (v.len() as u64) < 0x100000000,
            ScalarImpl::NaiveDate(dt) => date_wf_exec(dt),
            ScalarImpl::NaiveTime(t) => time_wf_exec(t),
            ScalarImpl::NaiveDateTime(ts) => date_wf_exec(&ts.date) && time_wf_exec(&ts.time),
            ScalarImpl::Float32(bits) => {
                let exp = (*bits / 0x800000) % 0x100;
                let mant = *bits % 0x800000;
                !(exp == 0xFF && mant != 0) || *bits == CANONICAL_NAN_F32
            },
            ScalarImpl::Float64(bits) => {
                let exp = (*bits / 0x10000000000000) % 0x800;
                let mant = *bits % 0x10000000000000;
                !(exp == 0x7FF && mant != 0) || *bits == CANONICAL_NAN_F64
            },
            _ => true,
        },
    }
}

} // verus!
