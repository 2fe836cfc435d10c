//! Fixed-width byte codecs for unsigned and signed integers.
//!
//! Little-endian bytes carry values inside the value encoding; big-endian
//! bytes of an offset-shifted value carry them inside the memcomparable
//! encoding, where bytewise comparison must agree with numeric comparison.

use vstd::prelude::*;

verus! {

/// 256^w.
pub open spec fn pow256(w: nat) -> nat
    decreases w,
{
    if w == 0 {
        1
    } else {
        256 * pow256((w - 1) as nat)
    }
}

/// The `w` little-endian bytes of `x` (least significant first).
pub open spec fn le_bytes(x: nat, w: nat) -> Seq<u8>
    decreases w,
{
    if w == 0 {
        Seq::empty()
    } else {
        seq![(x % 256) as u8] + le_bytes(x / 256, (w - 1) as nat)
    }
}

/// The value carried by a little-endian byte sequence.
pub open spec fn le_val(s: Seq<u8>) -> nat
    decreases s.len(),
{
    if s.len() == 0 {
        0
    } else {
        (s[0] + 256 * le_val(s.drop_first())) as nat
    }
}

/// The `w` big-endian bytes of `x` (most significant first).
pub open spec fn be_bytes(x: nat, w: nat) -> Seq<u8>
    decreases w,
{
    if w == 0 {
        Seq::empty()
    } else {
        be_bytes(x / 256, (w - 1) as nat).push((x % 256) as u8)
    }
}

/// The big-endian bytes are the little-endian bytes reversed.
pub proof fn lemma_be_is_rev_le(x: nat, w: nat)
    ensures
        be_bytes(x, w) =~= le_bytes(x, w).reverse(),
    decreases w,
{
    if w > 0 {
        lemma_be_is_rev_le(x / 256, (w - 1) as nat);
        lemma_le_bytes_len(x / 256, (w - 1) as nat);
        assert(le_bytes(x, w).reverse() =~= le_bytes(x / 256, (w - 1) as nat).reverse().push(
            (x % 256) as u8,
        ));
    }
}

pub proof fn lemma_le_bytes_len(x: nat, w: nat)
    ensures
        le_bytes(x, w).len() == w,
    decreases w,
{
    if w > 0 {
        lemma_le_bytes_len(x / 256, (w - 1) as nat);
    }
}

pub proof fn lemma_be_bytes_len(x: nat, w: nat)
    ensures
        be_bytes(x, w).len() == w,
    decreases w,
{
    if w > 0 {
        lemma_be_bytes_len(x / 256, (w - 1) as nat);
    }
}

/// Little-endian encoding round-trips through `le_val`.
pub proof fn lemma_le_val_of_le_bytes(x: nat, w: nat)
    requires
        x < pow256(w),
    ensures
        le_val(le_bytes(x, w)) == x,
    decreases w,
{
    if w > 0 {
        let s = le_bytes(x, w);
        assert(s.drop_first() =~= le_bytes(x / 256, (w - 1) as nat));
        assert(x / 256 < pow256((w - 1) as nat)) by (nonlinear_arith)
            requires
                x < 256 * pow256((w - 1) as nat),
        ;
        lemma_le_val_of_le_bytes(x / 256, (w - 1) as nat);
        assert(x % 256 + 256 * (x / 256) == x) by (nonlinear_arith);
    }
}

/// The value of a byte sequence is bounded by 256 to its length.
pub proof fn lemma_le_val_bound(s: Seq<u8>)
    ensures
        le_val(s) < pow256(s.len()),
    decreases s.len(),
{
    if s.len() == 0 {
    } else {
        lemma_le_val_bound(s.drop_first());
        lemma_pow256_unfold(s.len());
        assert(s[0] + 256 * le_val(s.drop_first()) < 256 * pow256((s.len() - 1) as nat))
            by (nonlinear_arith)
            requires
                (s[0] as nat) < 256,
                le_val(s.drop_first()) < pow256((s.len() - 1) as nat),
                pow256((s.len() - 1) as nat) >= 1,
        ;
    }
}

/// Three-way comparison of integers, as -1, 0 or 1.
pub open spec fn int_cmp(a: int, b: int) -> int {
    if a < b {
        -1
    } else if a > b {
        1
    } else {
        0
    }
}

/// Lexicographic three-way comparison of byte sequences, the order `memcmp`
/// induces when a shorter sequence is a prefix of the longer.
pub open spec fn lex_cmp(a: Seq<u8>, b: Seq<u8>) -> int
    decreases a.len(),
{
    if a.len() == 0 && b.len() == 0 {
        0
    } else if a.len() == 0 {
        -1
    } else if b.len() == 0 {
        1
    } else if a[0] != b[0] {
        int_cmp(a[0] as int, b[0] as int)
    } else {
        lex_cmp(a.drop_first(), b.drop_first())
    }
}

pub proof fn lemma_lex_cmp_refl(a: Seq<u8>)
    ensures
        lex_cmp(a, a) == 0,
    decreases a.len(),
{
    if a.len() > 0 {
        lemma_lex_cmp_refl(a.drop_first());
    }
}

pub proof fn lemma_lex_cmp_eq(a: Seq<u8>, b: Seq<u8>)
    requires
        lex_cmp(a, b) == 0,
    ensures
        a =~= b,
    decreases a.len(),
{
    if a.len() > 0 && b.len() > 0 {
        lemma_lex_cmp_eq(a.drop_first(), b.drop_first());
        assert(a =~= seq![a[0]] + a.drop_first());
        assert(b =~= seq![b[0]] + b.drop_first());
    }
}

pub proof fn lemma_lex_cmp_antisym(a: Seq<u8>, b: Seq<u8>)
    ensures
        lex_cmp(a, b) == -lex_cmp(b, a),
    decreases a.len(),
{
    if a.len() > 0 && b.len() > 0 && a[0] == b[0] {
        lemma_lex_cmp_antisym(a.drop_first(), b.drop_first());
    }
}

/// When the first bytes differ, they decide the comparison.
pub proof fn lemma_lex_cmp_head_diff(a: Seq<u8>, b: Seq<u8>)
    requires
        a.len() >= 1,
        b.len() >= 1,
        a[0] != b[0],
    ensures
        lex_cmp(a, b) == int_cmp(a[0] as int, b[0] as int),
{
}

/// Comparing two concatenations whose left parts have equal length first
/// compares the left parts, then the right parts.
pub proof fn lemma_lex_cmp_concat(a: Seq<u8>, b: Seq<u8>, c: Seq<u8>, d: Seq<u8>)
    requires
        a.len() == b.len(),
    ensures
        lex_cmp(a + c, b + d) == if lex_cmp(a, b) != 0 {
            lex_cmp(a, b)
        } else {
            lex_cmp(c, d)
        },
    decreases a.len(),
{
    if a.len() == 0 {
        assert(a + c =~= c);
        assert(b + d =~= d);
    } else {
        assert((a + c).drop_first() =~= a.drop_first() + c);
        assert((b + d).drop_first() =~= b.drop_first() + d);
        assert((a + c)[0] == a[0]);
        assert((b + d)[0] == b[0]);
        lemma_lex_cmp_concat(a.drop_first(), b.drop_first(), c, d);
    }
}

/// Singleton sequences compare as their bytes do.
pub proof fn lemma_lex_cmp_single(u: u8, v: u8)
    ensures
        lex_cmp(seq![u], seq![v]) == int_cmp(u as int, v as int),
{
    reveal_with_fuel(lex_cmp, 3);
    assert(seq![u].drop_first() =~= Seq::<u8>::empty());
    assert(seq![v].drop_first() =~= Seq::<u8>::empty());
}

/// Big-endian bytes of equal width compare as the values do.
pub proof fn lemma_be_bytes_order(x: nat, y: nat, w: nat)
    requires
        x < pow256(w),
        y < pow256(w),
    ensures
        lex_cmp(be_bytes(x, w), be_bytes(y, w)) == int_cmp(x as int, y as int),
    decreases w,
{
    if w > 0 {
        lemma_pow256_pos((w - 1) as nat);
        let a = be_bytes(x / 256, (w - 1) as nat);
        let b = be_bytes(y / 256, (w - 1) as nat);
        lemma_be_bytes_len(x / 256, (w - 1) as nat);
        lemma_be_bytes_len(y / 256, (w - 1) as nat);
        assert(be_bytes(x, w) =~= a + seq![(x % 256) as u8]);
        assert(be_bytes(y, w) =~= b + seq![(y % 256) as u8]);
        assert(x / 256 < pow256((w - 1) as nat) && y / 256 < pow256((w - 1) as nat)) by (nonlinear_arith)
            requires
                x < 256 * pow256((w - 1) as nat),
                y < 256 * pow256((w - 1) as nat),
                pow256((w - 1) as nat) >= 1,
        ;
        lemma_be_bytes_order(x / 256, y / 256, (w - 1) as nat);
        lemma_lex_cmp_concat(a, b, seq![(x % 256) as u8], seq![(y % 256) as u8]);
        assert(x == 256 * (x / 256) + x % 256) by (nonlinear_arith);
        assert(y == 256 * (y / 256) + y % 256) by (nonlinear_arith);
        assert(x / 256 < y / 256 ==> x < y) by (nonlinear_arith)
            requires
                x == 256 * (x / 256) + x % 256,
                y == 256 * (y / 256) + y % 256,
                x % 256 < 256,
                y % 256 < 256,
        ;
        assert(y / 256 < x / 256 ==> y < x) by (nonlinear_arith)
            requires
                x == 256 * (x / 256) + x % 256,
                y == 256 * (y / 256) + y % 256,
                x % 256 < 256,
                y % 256 < 256,
        ;
        lemma_lex_cmp_single((x % 256) as u8, (y % 256) as u8);
    }
}

/// The bytewise complement of a sequence.
pub open spec fn compl_bytes(a: Seq<u8>) -> Seq<u8> {
    a.map_values(|b: u8| (255 - b) as u8)
}

/// Complementing every byte reverses the lexicographic order of sequences of
/// equal length.
pub proof fn lemma_compl_bytes_order(a: Seq<u8>, b: Seq<u8>)
    requires
        a.len() == b.len(),
    ensures
        lex_cmp(compl_bytes(a), compl_bytes(b)) == -lex_cmp(a, b),
    decreases a.len(),
{
    if a.len() > 0 {
        assert(compl_bytes(a).drop_first() =~= compl_bytes(a.drop_first()));
        assert(compl_bytes(b).drop_first() =~= compl_bytes(b.drop_first()));
        lemma_compl_bytes_order(a.drop_first(), b.drop_first());
    }
}

/// Appends the `w`-byte little-endian form of `x`; `x` must fit.
pub fn push_le_u64(out: &mut Vec<u8>, x: u64, w: usize)
    requires
        w <= 8,
        x < pow256(w as nat),
    ensures
        final(out)@ == old(out)@ + le_bytes(x as nat, w as nat),
{
    let mut v: u64 = x;
    let mut i: usize = w;
    let ghost prefix = old(out)@;
    while i > 0
        invariant
            i <= w,
            v < pow256(i as nat),
            prefix + le_bytes(x as nat, w as nat) =~= out@ + le_bytes(v as nat, i as nat),
        decreases i,
    {
        out.push((v % 256) as u8);
        proof {
            assert(le_bytes(v as nat, i as nat) =~= seq![(v % 256) as u8] + le_bytes(
                (v / 256) as nat,
                (i - 1) as nat,
            ));
            lemma_pow256_unfold(i as nat);
            assert(((v / 256) as nat) < pow256((i - 1) as nat)) by (nonlinear_arith)
                requires
                    (v as nat) < 256 * pow256((i - 1) as nat),
                    pow256((i - 1) as nat) >= 1,
            ;
        }
        v = v / 256;
        i = i - 1;
    }
    proof {
        assert(le_bytes(v as nat, 0) =~= Seq::<u8>::empty());
        assert(out@ =~= prefix + le_bytes(x as nat, w as nat));
    }
}

pub proof fn lemma_pow256_unfold(w: nat)
    requires
        w > 0,
    ensures
        pow256(w) == 256 * pow256((w - 1) as nat),
        pow256((w - 1) as nat) > 0,
{
    lemma_pow256_pos((w - 1) as nat);
}

pub proof fn lemma_pow256_pos(w: nat)
    ensures
        pow256(w) >= 1,
    decreases w,
{
    if w > 0 {
        lemma_pow256_pos((w - 1) as nat);
    }
}

/// Reads the `w`-byte little-endian value starting at `pos`.
#[verifier::rlimit(30)]
pub fn read_le_u64(data: &[u8], pos: usize, w: usize) -> (x: u64)
    requires
        w <= 8,
        pos + w <= data@.len(),
    ensures
        x as nat == le_val(data@.subrange(pos as int, pos + w)),
        x < pow256(w as nat),
{
    let n = data.len();
    let mut i: usize = w;
    let mut acc: u64 = 0;
    proof {
        lemma_pow256_pos(w as nat);
    }
    while i > 0
        invariant
            i <= w,
            w <= 8,
            pos + w <= n,
            n == data@.len(),
            acc as nat == le_val(data@.subrange(pos + i, pos + w)),
            acc < pow256((w - i) as nat),
        decreases i,
    {
        let b = data[pos + (i - 1)];
        proof {
            let tail = data@.subrange(pos + i, pos + w);
            let whole = data@.subrange(pos + i - 1, pos + w);
            assert(whole[0] == data@[pos + i - 1]);
            assert(whole.drop_first() =~= tail);
            assert(le_val(whole) == whole[0] + 256 * le_val(tail));
            assert(b as nat + 256 * (acc as nat) < 256 * pow256((w - i) as nat)) by (nonlinear_arith)
                requires
                    (b as nat) < 256,
                    (acc as nat) < pow256((w - i) as nat),
                    pow256((w - i) as nat) >= 1,
            ;
            lemma_pow256_unfold((w - i + 1) as nat);
            lemma_pow256_le((w - i + 1) as nat, 8);
            assert(pow256(8) == 0x10000000000000000) by {
                reveal_with_fuel(pow256, 9);
            }
        }
        acc = (b as u64) + 256 * acc;
        i = i - 1;
    }
    proof {
        lemma_pow256_le((w - i) as nat, w as nat);
    }
    acc
}

pub proof fn lemma_pow256_le(a: nat, b: nat)
    requires
        a <= b,
    ensures
        pow256(a) <= pow256(b),
    decreases b,
{
    if a < b && b > 0 {
        lemma_pow256_le(a, (b - 1) as nat);
        lemma_pow256_pos((b - 1) as nat);
    }
}

/// Appends the `w`-byte big-endian form of `x`; `x` must fit.
pub fn push_be_u64(out: &mut Vec<u8>, x: u64, w: usize)
    requires
        w <= 8,
        x < pow256(w as nat),
    ensures
        final(out)@ == old(out)@ + be_bytes(x as nat, w as nat),
{
    let mut tmp: Vec<u8> = Vec::new();
    push_le_u64(&mut tmp, x, w);
    let ghost prefix = old(out)@;
    let n = tmp.len();
    let mut i: usize = n;
    while i > 0
        invariant
            i <= n,
            n == tmp@.len(),
            out@ =~= prefix + tmp@.subrange(i as int, n as int).reverse(),
        decreases i,
    {
        let b = tmp[i - 1];
        out.push(b);
        proof {
            assert(tmp@.subrange(i - 1, n as int).reverse() =~= tmp@.subrange(i as int, n as int).reverse().push(
                tmp@[i - 1],
            ));
        }
        i = i - 1;
    }
    proof {
        assert(tmp@.subrange(0, n as int) =~= tmp@);
        lemma_be_is_rev_le(x as nat, w as nat);
    }
}

/// Order-preserving map from `i16` onto `[0, 2^16)`.
pub open spec fn offset16(i: i16) -> nat {
    (i + 0x8000) as nat
}

/// Order-preserving map from `i32` onto `[0, 2^32)`.
pub open spec fn offset32(i: i32) -> nat {
    (i + 0x80000000) as nat
}

/// Order-preserving map from `i64` onto `[0, 2^64)`.
pub open spec fn offset64(i: i64) -> nat {
    (i + 0x8000000000000000) as nat
}

pub fn offset_u16(i: i16) -> (r: u16)
    ensures
        r as nat == offset16(i),
{
    ((i as i32) + 0x8000) as u16
}

pub fn offset_u32(i: i32) -> (r: u32)
    ensures
        r as nat == offset32(i),
{
    ((i as i64) + 0x80000000) as u32
}

pub fn offset_u64(i: i64) -> (r: u64)
    ensures
        r as nat == offset64(i),
{
    ((i as i128) + 0x8000000000000000) as u64
}

pub fn unoffset_i16(r: u16) -> (i: i16)
    ensures
        offset16(i) == r as nat,
{
    ((r as i32) - 0x8000) as i16
}

pub fn unoffset_i32(r: u32) -> (i: i32)
    ensures
        offset32(i) == r as nat,
{
    ((r as i64) - 0x80000000) as i32
}

pub fn unoffset_i64(r: u64) -> (i: i64)
    ensures
        offset64(i) == r as nat,
{
    ((r as i128) - 0x8000000000000000) as i64
}

/// One step of lexicographic comparison past an equal byte.
proof fn lemma_lex_cmp_step(a: Seq<u8>, b: Seq<u8>, i: int)
    requires
        0 <= i < a.len(),
        i < b.len(),
        a[i] == b[i],
    ensures
        lex_cmp(a.skip(i), b.skip(i)) == lex_cmp(a.skip(i + 1), b.skip(i + 1)),
{
    assert(a.skip(i).drop_first() =~= a.skip(i + 1));
    assert(b.skip(i).drop_first() =~= b.skip(i + 1));
    assert(a.skip(i)[0] == a[i]);
    assert(b.skip(i)[0] == b[i]);
}

/// Three-way bytewise comparison; returns -1, 0 or 1 as `memcmp` would.
pub fn bytes_cmp(a: &Vec<u8>, b: &Vec<u8>) -> (r: i32)
    ensures
        r as int == lex_cmp(a@, b@),
        -1 <= r <= 1,
{
    let na = a.len();
    let nb = b.len();
    let mut i: usize = 0;
    proof {
        assert(a@.skip(0) =~= a@);
        assert(b@.skip(0) =~= b@);
    }
    loop
        invariant
            i <= na,
            i <= nb,
            na == a@.len(),
            nb == b@.len(),
            lex_cmp(a@, b@) == lex_cmp(a@.skip(i as int), b@.skip(i as int)),
        decreases na - i,
    {
        if i == na && i == nb {
            proof {
                assert(a@.skip(i as int) =~= Seq::<u8>::empty());
                assert(b@.skip(i as int) =~= Seq::<u8>::empty());
            }
            return 0;
        }
        if i == na {
            proof {
                assert(a@.skip(i as int) =~= Seq::<u8>::empty());
                assert(b@.skip(i as int).len() > 0);
            }
            return -1;
        }
        if i == nb {
            proof {
                assert(b@.skip(i as int) =~= Seq::<u8>::empty());
                assert(a@.skip(i as int).len() > 0);
            }
            return 1;
        }
        let x = a[i];
        let y = b[i];
        if x < y {
            proof {
                assert(a@.skip(i as int)[0] == a@[i as int]);
                assert(b@.skip(i as int)[0] == b@[i as int]);
            }
            return -1;
        }
        if x > y {
            proof {
                assert(a@.skip(i as int)[0] == a@[i as int]);
                assert(b@.skip(i as int)[0] == b@[i as int]);
            }
            return 1;
        }
        proof {
            lemma_lex_cmp_step(a@, b@, i as int);
        }
        i = i + 1;
    }
}

/// Bytewise equality of two vectors.
pub fn bytes_eq(a: &Vec<u8>, b: &Vec<u8>) -> (r: bool)
    ensures
        r == (a@ == b@),
{
    let c = bytes_cmp(a, b);
    proof {
        if lex_cmp(a@, b@) == 0 {
            lemma_lex_cmp_eq(a@, b@);
        } else {
            if a@ == b@ {
                lemma_lex_cmp_refl(a@);
            }
        }
    }
    c == 0
}

/// `p` is a prefix of `k`.
pub open spec fn is_prefix_of(p: Seq<u8>, k: Seq<u8>) -> bool {
    p.len() <= k.len() && k.take(p.len() as int) == p
}

/// Tests whether `p` is a bytewise prefix of `k`.
pub fn bytes_is_prefix(p: &Vec<u8>, k: &Vec<u8>) -> (r: bool)
    ensures
        r == is_prefix_of(p@, k@),
{
    let np = p.len();
    let nk = k.len();
    if np > nk {
        proof {
            assert(!is_prefix_of(p@, k@));
        }
        return false;
    }
    let mut i: usize = 0;
    while i < np
        invariant
            i <= np,
            np == p@.len(),
            nk == k@.len(),
            np <= nk,
            forall|j: int| 0 <= j < i ==> p@[j] == k@[j],
        decreases np - i,
    {
        if p[i] != k[i] {
            proof {
                assert(k@.take(np as int)[i as int] == k@[i as int]);
                if is_prefix_of(p@, k@) {
                    assert(k@.take(np as int) == p@);
                    assert(p@[i as int] == k@[i as int]);
                }
            }
            return false;
        }
        i = i + 1;
    }
    proof {
        assert(k@.take(np as int) =~= p@);
    }
    true
}

/// An owned copy of a byte vector with the same content.
pub fn clone_bytes(v: &Vec<u8>) -> (r: Vec<u8>)
    ensures
        r@ == v@,
{
    let mut c: Vec<u8> = Vec::new();
    let n = v.len();
    let mut i: usize = 0;
    while i < n
        invariant
            i <= n,
            n == v@.len(),
            c@ =~= v@.take(i as int),
        decreases n - i,
    {
        c.push(v[i]);
        proof {
            assert(c@ =~= v@.take(i + 1));
        }
        i = i + 1;
    }
    proof {
        assert(v@.take(n as int) =~= v@);
    }
    c
}

} // verus!
