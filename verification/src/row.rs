//! Owned rows of nullable scalars: element-wise equality, a total order
//! between rows of equal length, deterministic hashing, projection, and the
//! value-encoding round trip.

use vstd::prelude::*;

use crate::types::DataType;
use crate::types::Datum;
use crate::types::DatumVal;
use crate::types::datum_cmp;
use crate::types::datum_eq;
use crate::types::datum_view;
use crate::types::datum_wf;
use crate::value::ValueEncodingError;
use crate::value::datum_encoding;
use crate::value::row_encoding;
use crate::value::spec_decode_datum;
use crate::value::spec_decode_row;

verus! {

/// An immutable ordered tuple of nullable scalars.
#[derive(Clone, Debug)]
pub struct Row {
    datums: Vec<Datum>,
}

impl View for Row {
    type V = Seq<DatumVal>;

    closed spec fn view(&self) -> Seq<DatumVal> {
        self.datums@.map_values(|d: Datum| datum_view(d))
    }
}

/// Every datum of the row is well formed.
pub open spec fn row_wf(r: Seq<DatumVal>) -> bool {
    forall|i: int| 0 <= i < r.len() ==> datum_wf(#[trigger] r[i])
}

/// Every datum of the row fits the type at its position.
pub open spec fn row_has_types(r: Seq<DatumVal>, ts: Seq<DataType>) -> bool {
    &&& r.len() == ts.len()
    &&& forall|i: int| 0 <= i < r.len() ==> crate::types::datum_has_type(#[trigger] r[i], ts[i])
}

/// Element-wise equality of two rows.
pub open spec fn row_eq(a: Seq<DatumVal>, b: Seq<DatumVal>) -> bool {
    &&& a.len() == b.len()
    &&& forall|i: int| 0 <= i < a.len() ==> datum_eq(#[trigger] a[i], b[i])
}

/// Lexicographic three-way order on rows of equal length.
pub open spec fn row_cmp(a: Seq<DatumVal>, b: Seq<DatumVal>) -> int
    decreases a.len(),
{
    if a.len() == 0 {
        0
    } else if datum_cmp(a[0], b[0]) != 0 {
        datum_cmp(a[0], b[0])
    } else {
        row_cmp(a.drop_first(), b.drop_first())
    }
}

impl Row {
    /// A row over the given datums.
    pub fn new(values: Vec<Datum>) -> (r: Row)
        ensures
            r@ == values@.map_values(|d: Datum| datum_view(d)),
            r@.len() == values@.len(),
    {
        Row { datums: values }
    }

    /// The underlying datums.
    pub fn into_inner(self) -> (r: Vec<Datum>)
        ensures
            r@.map_values(|d: Datum| datum_view(d)) == self@,
    {
        self.datums
    }

    /// The row with no columns.
    pub fn empty() -> (r: Row)
        ensures
            r@ =~= Seq::<DatumVal>::empty(),
    {
        Row { datums: Vec::new() }
    }

    /// How many columns the row has.
    pub fn len(&self) -> (r: usize)
        ensures
            r == self@.len(),
    {
        self.datums.len()
    }

    /// The datum at position `index`, which must be within the row.
    pub fn datum_at(&self, index: usize) -> (r: &Datum)
        requires
            index < self@.len(),
        ensures
            datum_view(*r) == self@[index as int],
    {
        &self.datums[index]
    }

    /// The sub-row at the given positions, in their order. Each position
    /// must be within the row.
    pub fn project(&self, indices: &Vec<usize>) -> (r: Row)
        requires
            forall|i: int| 0 <= i < indices@.len() ==> #[trigger] indices@[i] < self@.len(),
        ensures
            r@.len() == indices@.len(),
            forall|i: int| 0 <= i < indices@.len() ==> r@[i] == self@[#[trigger] indices@[i] as int],
    {
        let mut out: Vec<Datum> = Vec::new();
        let n = indices.len();
        let mut i: usize = 0;
        while i < n
            invariant
                i <= n,
                n == indices@.len(),
                out@.len() == i,
                forall|k: int| 0 <= k < indices@.len() ==> #[trigger] indices@[k] < self@.len(),
                forall|k: int|
                    0 <= k < i ==> datum_view(#[trigger] out@[k]) == self@[indices@[k] as int],
            decreases n - i,
        {
            let jx = indices[i];
            let c = crate::types::datum_clone(&self.datums[jx]);
            out.push(c);
            proof {
                assert(self@[jx as int] == datum_view(self.datums@[jx as int]));
            }
            i = i + 1;
        }
        let r = Row { datums: out };
        proof {
            assert(forall|k: int|
                0 <= k < indices@.len() ==> r@[k] == datum_view(#[trigger] r.datums@[k]));
        }
        r
    }

    /// An owned copy of the row with the same value.
    pub fn to_owned_row(&self) -> (r: Row)
        ensures
            r@ =~= self@,
    {
        let mut out: Vec<Datum> = Vec::new();
        let n = self.datums.len();
        let mut i: usize = 0;
        while i < n
            invariant
                i <= n,
                n == self.datums@.len(),
                out@.len() == i,
                forall|k: int| 0 <= k < i ==> datum_view(#[trigger] out@[k]) == self@[k],
            decreases n - i,
        {
            out.push(crate::types::datum_clone(&self.datums[i]));
            proof {
                assert(self@[i as int] == datum_view(self.datums@[i as int]));
            }
            i = i + 1;
        }
        let r = Row { datums: out };
        proof {
            assert(forall|k: int| 0 <= k < n ==> r@[k] == datum_view(#[trigger] r.datums@[k]));
        }
        r
    }

    /// The memcomparable bytes of part of the row: the columns at
    /// `key_indices`, serialized under the given serializer.
    pub fn extract_memcomparable_by_indices(
        &self,
        serializer: &crate::memcomp::OrderedRowSerde,
        key_indices: &Vec<usize>,
    ) -> (r: Vec<u8>)
        requires
            forall|i: int| 0 <= i < key_indices@.len() ==> #[trigger] key_indices@[i] < self@.len(),
            crate::memcomp::serde_fits(
                key_indices@.map_values(|j: usize| self@[j as int]),
                serializer.schema@,
            ),
            serializer.order_types@.len() == serializer.schema@.len(),
        ensures
            r@ == crate::memcomp::mc_row(
                key_indices@.map_values(|j: usize| self@[j as int]),
                serializer.order_types@,
            ),
    {
        let key_row = self.project(key_indices);
        let mut bytes: Vec<u8> = Vec::new();
        proof {
            assert(key_row@ =~= key_indices@.map_values(|j: usize| self@[j as int]));
        }
        serializer.serialize(&key_row, &mut bytes);
        bytes
    }

    /// The value encoding of the whole row.
    pub fn value_serialize(&self) -> (r: Vec<u8>)
        requires
            row_wf(self@),
        ensures
            r@ == row_encoding(self@),
    {
        let mut out: Vec<u8> = Vec::new();
        let n = self.datums.len();
        let mut i: usize = 0;
        while i < n
            invariant
                i <= n,
                n == self.datums@.len(),
                row_wf(self@),
                self@.len() == n,
                out@ =~= row_encoding(self@.take(i as int)),
            decreases n - i,
        {
            proof {
                assert(datum_view(self.datums@[i as int]) == self@[i as int]);
            }
            crate::value::value_encode_datum(&mut out, &self.datums[i]);
            proof {
                lemma_row_encoding_step(self@, i as int);
            }
            i = i + 1;
        }
        proof {
            assert(self@.take(n as int) =~= self@);
        }
        out
    }

    /// A deterministic 64-bit hash of the row: a fold over its value
    /// encoding. The empty row hashes to zero, the fold's starting state.
    pub fn hash(&self) -> (r: u64)
        requires
            row_wf(self@),
        ensures
            r == row_hash(self@),
    {
        let bytes = self.value_serialize();
        let n = bytes.len();
        let mut h: u64 = 0;
        let mut i: usize = 0;
        while i < n
            invariant
                i <= n,
                n == bytes@.len(),
                h as nat == bytes_hash(0, bytes@.take(i as int)),
            decreases n - i,
        {
            let wide: u128 = (h as u128) * 31 + (bytes[i] as u128);
            proof {
                lemma_bytes_hash_fold(0, bytes@, i as int);
                assert((wide as nat) % 0x10000000000000000 == hash_step(
                    h as nat,
                    bytes@[i as int],
                ));
            }
            h = (wide % 0x10000000000000000) as u64;
            i = i + 1;
        }
        proof {
            assert(bytes@.take(n as int) =~= bytes@);
        }
        h
    }
}

/// One fold step of the row hash.
pub open spec fn hash_step(h: nat, b: u8) -> nat {
    ((h * 31 + b) % 0x10000000000000000) as nat
}

/// The fold of the row hash over a byte sequence.
pub open spec fn bytes_hash(h: nat, s: Seq<u8>) -> nat
    decreases s.len(),
{
    if s.len() == 0 {
        h
    } else {
        bytes_hash(hash_step(h, s[0]), s.drop_first())
    }
}

/// The hash of a row: the fold over its value encoding, from zero.
pub open spec fn row_hash(r: Seq<DatumVal>) -> nat {
    bytes_hash(0, row_encoding(r))
}

pub proof fn lemma_bytes_hash_fold(h: nat, s: Seq<u8>, i: int)
    requires
        0 <= i < s.len(),
    ensures
        bytes_hash(h, s.take(i + 1)) == hash_step(bytes_hash(h, s.take(i)), s[i]),
    decreases i,
{
    if i == 0 {
        assert(s.take(0) =~= Seq::<u8>::empty());
        assert(s.take(1)[0] == s[0]);
        assert(s.take(1).drop_first() =~= Seq::<u8>::empty());
        assert(bytes_hash(h, s.take(1)) == bytes_hash(hash_step(h, s[0]), Seq::<u8>::empty()));
    } else {
        let h2 = hash_step(h, s[0]);
        let d = s.drop_first();
        assert(s.take(i + 1)[0] == s[0]);
        assert(s.take(i)[0] == s[0]);
        assert(s.take(i + 1).drop_first() =~= d.take(i));
        assert(s.take(i).drop_first() =~= d.take(i - 1));
        assert(bytes_hash(h, s.take(i + 1)) == bytes_hash(h2, d.take(i)));
        assert(bytes_hash(h, s.take(i)) == bytes_hash(h2, d.take(i - 1)));
        lemma_bytes_hash_fold(h2, d, i - 1);
        assert(d[i - 1] == s[i]);
    }
}

/// Extending a row by one datum extends its encoding by that datum's bytes.
proof fn lemma_row_encoding_step(r: Seq<DatumVal>, i: int)
    requires
        0 <= i < r.len(),
    ensures
        row_encoding(r.take(i + 1)) =~= row_encoding(r.take(i)) + datum_encoding(r[i]),
    decreases i,
{
    if i == 0 {
        assert(r.take(0) =~= Seq::<DatumVal>::empty());
        assert(r.take(1)[0] == r[0]);
        assert(r.take(1).drop_first() =~= Seq::<DatumVal>::empty());
        assert(row_encoding(r.take(1)) == datum_encoding(r[0]) + row_encoding(
            Seq::<DatumVal>::empty(),
        ));
        assert(row_encoding(r.take(1)) =~= row_encoding(r.take(0)) + datum_encoding(r[0]));
    } else {
        let d = r.drop_first();
        assert(r.take(i + 1)[0] == r[0]);
        assert(r.take(i)[0] == r[0]);
        assert(r.take(i + 1).drop_first() =~= d.take(i));
        assert(r.take(i).drop_first() =~= d.take(i - 1));
        assert(row_encoding(r.take(i + 1)) == datum_encoding(r[0]) + row_encoding(d.take(i)));
        assert(row_encoding(r.take(i)) == datum_encoding(r[0]) + row_encoding(d.take(i - 1)));
        lemma_row_encoding_step(d, i - 1);
        assert(d[i - 1] == r[i]);
        assert(datum_encoding(r[0]) + (row_encoding(d.take(i - 1)) + datum_encoding(r[i])) =~= (
        datum_encoding(r[0]) + row_encoding(d.take(i - 1))) + datum_encoding(r[i]));
    }
}

/// Exec element-wise equality, matching `row_eq`.
pub fn row_eq_exec(a: &Row, b: &Row) -> (r: bool)
    ensures
        r == row_eq(a@, b@),
{
    let n = a.len();
    if n != b.len() {
        return false;
    }
    let mut i: usize = 0;
    while i < n
        invariant
            i <= n,
            n == a@.len(),
            n == b@.len(),
            forall|k: int| 0 <= k < i ==> datum_eq(#[trigger] a@[k], b@[k]),
        decreases n - i,
    {
        if !crate::types::datum_eq_exec(a.datum_at(i), b.datum_at(i)) {
            return false;
        }
        i = i + 1;
    }
    true
}

/// Exec lexicographic comparison of rows of equal length, matching
/// `row_cmp`.
pub fn row_cmp_exec(a: &Row, b: &Row) -> (r: i32)
    requires
        a@.len() == b@.len(),
    ensures
        r as int == row_cmp(a@, b@),
        -1 <= r <= 1,
{
    let n = a.len();
    let mut i: usize = 0;
    proof {
        lemma_row_cmp_skip(a@, b@, 0);
    }
    while i < n
        invariant
            i <= n,
            n == a@.len(),
            n == b@.len(),
            row_cmp(a@, b@) == row_cmp(a@.skip(i as int), b@.skip(i as int)),
        decreases n - i,
    {
        let c = crate::types::datum_cmp_exec(a.datum_at(i), b.datum_at(i));
        proof {
            assert(a@.skip(i as int)[0] == a@[i as int]);
            assert(b@.skip(i as int)[0] == b@[i as int]);
            assert(a@.skip(i as int).drop_first() =~= a@.skip(i + 1));
            assert(b@.skip(i as int).drop_first() =~= b@.skip(i + 1));
        }
        if c != 0 {
            return c;
        }
        i = i + 1;
    }
    proof {
        assert(a@.skip(n as int).len() == 0);
    }
    0
}

proof fn lemma_row_cmp_skip(a: Seq<DatumVal>, b: Seq<DatumVal>, i: int)
    requires
        i == 0,
    ensures
        row_cmp(a, b) == row_cmp(a.skip(i), b.skip(i)),
{
    assert(a.skip(0) =~= a);
    assert(b.skip(0) =~= b);
}

impl PartialEq for Row {
    /// Rows are equal when they have the same length and equal datums at
    /// every position.
    fn eq(&self, other: &Row) -> (r: bool) {
        row_eq_exec(self, other)
    }
}

impl vstd::std_specs::cmp::PartialEqSpecImpl for Row {
    open spec fn obeys_eq_spec() -> bool {
        true
    }

    open spec fn eq_spec(&self, other: &Row) -> bool {
        row_eq(self@, other@)
    }
}

impl PartialOrd for Row {
    /// Rows of equal length compare lexicographically; rows of different
    /// lengths do not compare.
    fn partial_cmp(&self, other: &Row) -> (r: Option<core::cmp::Ordering>) {
        if self.len() != other.len() {
            return Option::None;
        }
        let c = row_cmp_exec(self, other);
        if c < 0 {
            Option::Some(core::cmp::Ordering::Less)
        } else if c > 0 {
            Option::Some(core::cmp::Ordering::Greater)
        } else {
            Option::Some(core::cmp::Ordering::Equal)
        }
    }
}

impl vstd::std_specs::cmp::PartialOrdSpecImpl for Row {
    open spec fn obeys_partial_cmp_spec() -> bool {
        true
    }

    open spec fn partial_cmp_spec(&self, other: &Row) -> Option<core::cmp::Ordering> {
        if self@.len() != other@.len() {
            Option::None
        } else if row_cmp(self@, other@) < 0 {
            Option::Some(core::cmp::Ordering::Less)
        } else if row_cmp(self@, other@) > 0 {
            Option::Some(core::cmp::Ordering::Greater)
        } else {
            Option::Some(core::cmp::Ordering::Equal)
        }
    }
}

impl Default for Row {
    /// The empty row.
    fn default() -> (r: Row)
        ensures
            r@ =~= Seq::<DatumVal>::empty(),
    {
        Row { datums: Vec::new() }
    }
}

/// Rebuilds rows from their value encoding, against a declared schema.
#[derive(Clone, Debug)]
pub struct RowDeserializer {
    pub data_types: Vec<DataType>,
}

impl RowDeserializer {
    /// A deserializer for the given column types.
    pub fn new(data_types: Vec<DataType>) -> (r: RowDeserializer)
        ensures
            r.data_types@ == data_types@,
    {
        RowDeserializer { data_types }
    }

    /// The column types this deserializer expects.
    pub fn data_types(&self) -> (r: &Vec<DataType>)
        ensures
            r@ == self.data_types@,
    {
        &self.data_types
    }

    /// Decodes a row from value-encoded bytes, one datum per column type;
    /// exactly refines the spec decoder.
    #[verifier::rlimit(100)]
    pub fn deserialize(&self, data: &Vec<u8>) -> (r: Result<Row, ValueEncodingError>)
        ensures
            match spec_decode_row(data@, self.data_types@) {
                Option::Some(rv) => r is Ok && r->Ok_0@ == rv,
                Option::None => r is Err,
            },
    {
        let n = self.data_types.len();
        let mut out: Vec<Datum> = Vec::new();
        let mut pos: usize = 0;
        let mut i: usize = 0;
        proof {
            assert(data@.skip(0) =~= data@);
            assert(self.data_types@.skip(0) =~= self.data_types@);
            match spec_decode_row(data@, self.data_types@) {
                Option::None => {},
                Option::Some(r2) => {
                    assert(out@.map_values(|d: Datum| datum_view(d)) + r2 =~= r2);
                },
            }
        }
        while i < n
            invariant
                i <= n,
                n == self.data_types@.len(),
                pos <= data@.len(),
                out@.len() == i,
                spec_decode_row(data@, self.data_types@) == match spec_decode_row(
                    data@.skip(pos as int),
                    self.data_types@.skip(i as int),
                ) {
                    Option::None => Option::<Seq<DatumVal>>::None,
                    Option::Some(r2) => Option::Some(
                        out@.map_values(|d: Datum| datum_view(d)) + r2,
                    ),
                },
            decreases n - i,
        {
            let step = crate::value::value_decode_datum(data, pos, self.data_types[i]);
            match step {
                Result::Err(e) => {
                    proof {
                        assert(self.data_types@.skip(i as int)[0] == self.data_types@[i as int]);
                    }
                    return Result::Err(e);
                },
                Result::Ok((d, newpos)) => {
                    proof {
                        assert(self.data_types@.skip(i as int)[0] == self.data_types@[i as int]);
                        assert(self.data_types@.skip(i as int).drop_first()
                            =~= self.data_types@.skip(i + 1));
                        match spec_decode_datum(data@.skip(pos as int), self.data_types@[i as int]) {
                            Option::Some((dv, nn)) => {
                                assert(data@.skip(pos as int).skip(nn) =~= data@.skip(
                                    pos + nn,
                                ));
                            },
                            Option::None => {
                                assert(false);
                            },
                        }
                    }
                    let ghost old_out = out@;
                    out.push(d);
                    proof {
                        let ghost dv = datum_view(d);
                        assert(out@.map_values(|x: Datum| datum_view(x)) =~= old_out.map_values(
                            |x: Datum| datum_view(x),
                        ) + seq![dv]);
                        match spec_decode_row(data@.skip(newpos as int), self.data_types@.skip(i + 1)) {
                            Option::None => {},
                            Option::Some(r2) => {
                                assert(old_out.map_values(|x: Datum| datum_view(x)) + (seq![dv] + r2)
                                    =~= (old_out.map_values(|x: Datum| datum_view(x)) + seq![dv])
                                    + r2);
                            },
                        }
                    }
                    pos = newpos;
                    i = i + 1;
                },
            }
        }
        proof {
            assert(self.data_types@.skip(n as int).len() == 0);
            assert(out@.map_values(|d: Datum| datum_view(d)) + Seq::<DatumVal>::empty()
                =~= out@.map_values(|d: Datum| datum_view(d)));
        }
        Result::Ok(Row { datums: out })
    }
}

} // verus!
