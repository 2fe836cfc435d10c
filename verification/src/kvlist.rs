//! A sorted association list from byte keys to values, the ordered backing
//! of the state table and of per-key join entries. Keys are unique and kept
//! in ascending bytewise order, so iteration is deterministic.

use vstd::prelude::*;

use crate::numbytes::lex_cmp;

verus! {

/// Lookup in a sequence of key-value pairs: the first pair with the key.
pub open spec fn assoc<V>(s: Seq<(Seq<u8>, V)>, k: Seq<u8>) -> Option<V>
    decreases s.len(),
{
    if s.len() == 0 {
        Option::None
    } else if s[0].0 == k {
        Option::Some(s[0].1)
    } else {
        assoc(s.drop_first(), k)
    }
}

/// Keys strictly ascend bytewise.
pub open spec fn sorted_keys<V>(s: Seq<(Seq<u8>, V)>) -> bool {
    forall|i: int, j: int| 0 <= i < j < s.len() ==> lex_cmp(#[trigger] s[i].0, #[trigger] s[j].0) < 0
}

/// A key present in the sequence.
pub open spec fn has_key<V>(s: Seq<(Seq<u8>, V)>, k: Seq<u8>) -> bool {
    exists|i: int| 0 <= i < s.len() && (#[trigger] s[i]).0 == k
}

/// In a sorted sequence, lookup finds the pair at any index with the key.
pub proof fn lemma_assoc_at<V>(s: Seq<(Seq<u8>, V)>, i: int)
    requires
        sorted_keys(s),
        0 <= i < s.len(),
    ensures
        assoc(s, s[i].0) == Option::Some(s[i].1),
    decreases s.len(),
{
    if i > 0 {
        assert(lex_cmp(s[0].0, s[i].0) < 0);
        if s[0].0 == s[i].0 {
            crate::numbytes::lemma_lex_cmp_refl(s[0].0);
        }
        assert(sorted_keys(s.drop_first())) by {
            assert(forall|a: int, b: int|
                0 <= a < b < s.drop_first().len() ==> lex_cmp(
                    #[trigger] s.drop_first()[a].0,
                    #[trigger] s.drop_first()[b].0,
                ) < 0);
        }
        lemma_assoc_at(s.drop_first(), i - 1);
    }
}

/// In any sequence, an absent key has no lookup result.
pub proof fn lemma_assoc_absent<V>(s: Seq<(Seq<u8>, V)>, k: Seq<u8>)
    requires
        !has_key(s, k),
    ensures
        assoc(s, k) == Option::<V>::None,
    decreases s.len(),
{
    if s.len() > 0 {
        assert(s[0].0 != k);
        assert(!has_key(s.drop_first(), k)) by {
            if has_key(s.drop_first(), k) {
                let i = choose|i: int| 0 <= i < s.drop_first().len() && (#[trigger] s.drop_first()[i]).0
                    == k;
                assert(s[i + 1].0 == k);
            }
        }
        lemma_assoc_absent(s.drop_first(), k);
    }
}

/// A successful lookup names a position holding the key.
pub proof fn lemma_assoc_some_has_key<V>(s: Seq<(Seq<u8>, V)>, k: Seq<u8>)
    requires
        assoc(s, k) is Some,
    ensures
        has_key(s, k),
    decreases s.len(),
{
    if s.len() > 0 {
        if s[0].0 == k {
            assert(s[0] == s[0]);
        } else {
            lemma_assoc_some_has_key(s.drop_first(), k);
            let i = choose|i: int| 0 <= i < s.drop_first().len() && (#[trigger] s.drop_first()[i]).0
                == k;
            assert(s[i + 1].0 == k);
        }
    }
}

/// A successful lookup names a position holding the key and that value.
pub proof fn lemma_assoc_some_index<V>(s: Seq<(Seq<u8>, V)>, k: Seq<u8>)
    requires
        assoc(s, k) is Some,
    ensures
        exists|i: int|
            0 <= i < s.len() && (#[trigger] s[i]).0 == k && s[i].1 == assoc(s, k)->Some_0,
    decreases s.len(),
{
    if s.len() > 0 {
        if s[0].0 == k {
            assert(s[0].0 == k && s[0].1 == assoc(s, k)->Some_0);
        } else {
            lemma_assoc_some_index(s.drop_first(), k);
            let i = choose|i: int|
                0 <= i < s.drop_first().len() && (#[trigger] s.drop_first()[i]).0 == k
                    && s.drop_first()[i].1 == assoc(s.drop_first(), k)->Some_0;
            assert(s[i + 1].0 == k && s[i + 1].1 == assoc(s, k)->Some_0);
        }
    }
}

/// Lookup distributes over appending one pair at the end.
pub proof fn lemma_assoc_push<V>(s: Seq<(Seq<u8>, V)>, e: (Seq<u8>, V), k: Seq<u8>)
    ensures
        assoc(s.push(e), k) == if assoc(s, k) is Some {
            assoc(s, k)
        } else if e.0 == k {
            Option::Some(e.1)
        } else {
            Option::<V>::None
        },
    decreases s.len(),
{
    if s.len() == 0 {
        reveal_with_fuel(assoc, 3);
        assert(s.push(e)[0] == e);
        assert(s.push(e).drop_first() =~= Seq::<(Seq<u8>, V)>::empty());
    } else {
        assert(s.push(e)[0] == s[0]);
        assert(s.push(e).drop_first() =~= s.drop_first().push(e));
        lemma_assoc_push(s.drop_first(), e, k);
    }
}

/// Two sorted association lists with the same lookup function are the
/// same list: sorted entries are determined by what they answer.
pub proof fn lemma_sorted_assoc_determined<V>(a: Seq<(Seq<u8>, V)>, b: Seq<(Seq<u8>, V)>)
    requires
        sorted_keys(a),
        sorted_keys(b),
        forall|k: Seq<u8>| #[trigger] assoc(a, k) == assoc(b, k),
    ensures
        a =~= b,
    decreases a.len() + b.len(),
{
    if a.len() == 0 {
        if b.len() > 0 {
            lemma_assoc_at(b, 0);
            assert(assoc(a, b[0].0) is None) by {
                lemma_assoc_absent(a, b[0].0);
            }
        }
    } else if b.len() == 0 {
        lemma_assoc_at(a, 0);
        assert(assoc(b, a[0].0) is None) by {
            lemma_assoc_absent(b, a[0].0);
        }
    } else {
        // The heads carry the minimal key of the common key set, so they
        // are equal.
        lemma_assoc_at(a, 0);
        lemma_assoc_at(b, 0);
        lemma_assoc_some_has_key(b, a[0].0);
        lemma_assoc_some_has_key(a, b[0].0);
        let ia = choose|i: int| 0 <= i < b.len() && (#[trigger] b[i]).0 == a[0].0;
        let ib = choose|i: int| 0 <= i < a.len() && (#[trigger] a[i]).0 == b[0].0;
        if a[0].0 != b[0].0 {
            assert(ia > 0 && ib > 0);
            assert(lex_cmp(b[0].0, b[ia].0) < 0);
            assert(lex_cmp(a[0].0, a[ib].0) < 0);
            lemma_lex_trans(a[0].0, a[ib].0, b[ia].0);
            crate::numbytes::lemma_lex_cmp_refl(a[0].0);
        }
        assert(a[0].1 == b[0].1) by {
            assert(assoc(a, a[0].0) == Option::Some(a[0].1));
            assert(assoc(b, a[0].0) == Option::Some(b[0].1));
        }
        assert(sorted_keys(a.drop_first())) by {
            assert(forall|i: int, j: int|
                0 <= i < j < a.drop_first().len() ==> lex_cmp(
                    #[trigger] a.drop_first()[i].0,
                    #[trigger] a.drop_first()[j].0,
                ) < 0);
        }
        assert(sorted_keys(b.drop_first())) by {
            assert(forall|i: int, j: int|
                0 <= i < j < b.drop_first().len() ==> lex_cmp(
                    #[trigger] b.drop_first()[i].0,
                    #[trigger] b.drop_first()[j].0,
                ) < 0);
        }
        assert forall|k: Seq<u8>| #[trigger] assoc(a.drop_first(), k) == assoc(
            b.drop_first(),
            k,
        ) by {
            if k == a[0].0 {
                assert(!has_key(a.drop_first(), k)) by {
                    if has_key(a.drop_first(), k) {
                        let i = choose|i: int|
                            0 <= i < a.drop_first().len() && (#[trigger] a.drop_first()[i]).0 == k;
                        assert(a[i + 1].0 == k);
                        crate::numbytes::lemma_lex_cmp_refl(k);
                    }
                }
                assert(!has_key(b.drop_first(), k)) by {
                    if has_key(b.drop_first(), k) {
                        let i = choose|i: int|
                            0 <= i < b.drop_first().len() && (#[trigger] b.drop_first()[i]).0 == k;
                        assert(b[i + 1].0 == k);
                        crate::numbytes::lemma_lex_cmp_refl(k);
                    }
                }
                lemma_assoc_absent(a.drop_first(), k);
                lemma_assoc_absent(b.drop_first(), k);
            } else {
                assert(assoc(a, k) == assoc(a.drop_first(), k));
                assert(assoc(b, k) == assoc(b.drop_first(), k));
            }
        }
        lemma_sorted_assoc_determined(a.drop_first(), b.drop_first());
        assert(a =~= seq![a[0]] + a.drop_first());
        assert(b =~= seq![b[0]] + b.drop_first());
    }
}

/// A sorted association list from byte keys to values of `V`.
#[derive(Debug)]
pub struct KvList<V> {
    pub entries: Vec<(Vec<u8>, V)>,
}

impl<V: View> KvList<V> {
    /// The mathematical content: key and value views, in order.
    pub open spec fn view_seq(&self) -> Seq<(Seq<u8>, V::V)> {
        self.entries@.map_values(|e: (Vec<u8>, V)| (e.0@, e.1@))
    }

    /// Sorted, hence with unique keys.
    pub open spec fn wf(&self) -> bool {
        sorted_keys(self.view_seq())
    }

    /// Lookup by key in the abstract content.
    pub open spec fn spec_get(&self, k: Seq<u8>) -> Option<V::V> {
        assoc(self.view_seq(), k)
    }

    pub fn new() -> (r: KvList<V>)
        ensures
            r.wf(),
            r.view_seq() =~= Seq::<(Seq<u8>, V::V)>::empty(),
    {
        let r = KvList { entries: Vec::new() };
        proof {
            assert(r.view_seq() =~= Seq::<(Seq<u8>, V::V)>::empty());
        }
        r
    }

    pub fn len(&self) -> (r: usize)
        ensures
            r == self.view_seq().len(),
    {
        self.entries.len()
    }

    /// The position of `k`, or where it would be inserted: the count of
    /// keys below `k`, with a hit flag.
    fn find(&self, k: &Vec<u8>) -> (r: (usize, bool))
        requires
            self.wf(),
        ensures
            r.0 <= self.view_seq().len(),
            r.1 ==> r.0 < self.view_seq().len() && self.view_seq()[r.0 as int].0 == k@,
            !r.1 ==> !has_key(self.view_seq(), k@),
            forall|i: int| 0 <= i < r.0 ==> lex_cmp(#[trigger] self.view_seq()[i].0, k@) < 0,
            forall|i: int|
                r.0 <= i < self.view_seq().len() ==> lex_cmp(k@, #[trigger] self.view_seq()[i].0) <= 0,
    {
        let n = self.entries.len();
        let mut i: usize = 0;
        while i < n
            invariant
                i <= n,
                n == self.view_seq().len(),
                self.wf(),
                n == self.entries@.len(),
                forall|j: int| 0 <= j < i ==> lex_cmp(#[trigger] self.view_seq()[j].0, k@) < 0,
            decreases n - i,
        {
            let c = crate::numbytes::bytes_cmp(&self.entries[i].0, k);
            proof {
                assert(self.view_seq()[i as int].0 == self.entries@[i as int].0@);
            }
            if c == 0 {
                proof {
                    crate::numbytes::lemma_lex_cmp_eq(self.entries@[i as int].0@, k@);
                    assert(forall|j: int|
                        i < j < self.view_seq().len() ==> lex_cmp(
                            self.view_seq()[i as int].0,
                            #[trigger] self.view_seq()[j].0,
                        ) < 0);
                    assert(forall|j: int|
                        (i as int) <= j < self.view_seq().len() ==> lex_cmp(
                            k@,
                            #[trigger] self.view_seq()[j].0,
                        ) <= 0) by {
                        crate::numbytes::lemma_lex_cmp_refl(k@);
                        assert forall|j: int|
                            (i as int) < j < self.view_seq().len() implies lex_cmp(
                            k@,
                            #[trigger] self.view_seq()[j].0,
                        ) <= 0 by {
                            lemma_lex_total(k@, self.view_seq()[j].0);
                        }
                    }
                }
                return (i, true);
            }
            if c > 0 {
                proof {
                    assert(lex_cmp(k@, self.view_seq()[i as int].0) < 0) by {
                        crate::numbytes::lemma_lex_cmp_antisym(
                            self.entries@[i as int].0@,
                            k@,
                        );
                    }
                    assert forall|j: int|
                        (i as int) <= j < self.view_seq().len() implies lex_cmp(
                        k@,
                        #[trigger] self.view_seq()[j].0,
                    ) <= 0 by {
                        if j > i {
                            lemma_lex_trans(k@, self.view_seq()[i as int].0, self.view_seq()[j].0);
                        }
                    }
                    assert(!has_key(self.view_seq(), k@)) by {
                        if has_key(self.view_seq(), k@) {
                            let j = choose|j: int|
                                0 <= j < self.view_seq().len() && (#[trigger] self.view_seq()[j]).0
                                    == k@;
                            crate::numbytes::lemma_lex_cmp_refl(k@);
                        }
                    }
                }
                return (i, false);
            }
            i = i + 1;
        }
        proof {
            assert(!has_key(self.view_seq(), k@)) by {
                if has_key(self.view_seq(), k@) {
                    let j = choose|j: int|
                        0 <= j < self.view_seq().len() && (#[trigger] self.view_seq()[j]).0 == k@;
                    crate::numbytes::lemma_lex_cmp_refl(k@);
                }
            }
        }
        (n, false)
    }

    /// Puts `v` at `k`, replacing any previous value. Every other key keeps
    /// its value; order is kept.
    pub fn upsert(&mut self, k: Vec<u8>, v: V)
        requires
            old(self).wf(),
        ensures
            final(self).wf(),
            final(self).spec_get(k@) == Option::Some(v@),
            forall|k2: Seq<u8>|
                k2 != k@ ==> #[trigger] final(self).spec_get(k2) == old(self).spec_get(k2),
            final(self).view_seq().len() == old(self).view_seq().len() + (if has_key(
                old(self).view_seq(),
                k@,
            ) {
                0int
            } else {
                1int
            }),
            forall|i: int|
                0 <= i < final(self).view_seq().len() ==> (#[trigger] final(self).view_seq()[i].0 == k@
                    && final(self).view_seq()[i].1 == v@) || (old(self).spec_get(
                    final(self).view_seq()[i].0,
                ) == Option::Some(final(self).view_seq()[i].1)),
    {
        let (pos, hit) = self.find(&k);
        let ghost pre = self.view_seq();
        if hit {
            self.entries.set(pos, (k, v));
            proof {
                let post = self.view_seq();
                assert(post =~= pre.update(pos as int, (k@, v@)));
                lemma_update_keeps(pre, pos as int, k@, v@);
            }
        } else {
            self.entries.insert(pos, (k, v));
            proof {
                let post = self.view_seq();
                assert(post =~= pre.insert(pos as int, (k@, v@)));
                lemma_insert_keeps(pre, pos as int, k@, v@);
            }
        }
    }

    /// Removes `k` when present; a no-op otherwise. Every other key keeps
    /// its value; order is kept.
    pub fn remove(&mut self, k: &Vec<u8>)
        requires
            old(self).wf(),
        ensures
            final(self).wf(),
            final(self).spec_get(k@) == Option::<V::V>::None,
            forall|k2: Seq<u8>|
                k2 != k@ ==> #[trigger] final(self).spec_get(k2) == old(self).spec_get(k2),
            final(self).view_seq().len() == old(self).view_seq().len() - (if has_key(
                old(self).view_seq(),
                k@,
            ) {
                1int
            } else {
                0int
            }),
            forall|i: int|
                0 <= i < final(self).view_seq().len() ==> old(self).spec_get(
                    #[trigger] final(self).view_seq()[i].0,
                ) == Option::Some(final(self).view_seq()[i].1),
    {
        let (pos, hit) = self.find(k);
        let ghost pre = self.view_seq();
        if hit {
            self.entries.remove(pos);
            proof {
                let post = self.view_seq();
                assert(post =~= pre.remove(pos as int));
                lemma_remove_keeps(pre, pos as int, k@);
            }
        } else {
            proof {
                lemma_assoc_absent(pre, k@);
                assert(forall|i: int|
                    0 <= i < pre.len() ==> assoc(pre, (#[trigger] pre[i]).0) == Option::Some(
                        pre[i].1,
                    )) by {
                    assert forall|i: int| 0 <= i < pre.len() implies assoc(
                        pre,
                        (#[trigger] pre[i]).0,
                    ) == Option::Some(pre[i].1) by {
                        lemma_assoc_at(pre, i);
                    }
                }
            }
        }
    }

    /// Looks `k` up.
    pub fn get(&self, k: &Vec<u8>) -> (r: Option<&V>)
        requires
            self.wf(),
        ensures
            match r {
                Option::Some(v) => self.spec_get(k@) == Option::Some(v@),
                Option::None => self.spec_get(k@) is None,
            },
    {
        let (pos, hit) = self.find(k);
        if hit {
            proof {
                lemma_assoc_at(self.view_seq(), pos as int);
            }
            Option::Some(&self.entries[pos].1)
        } else {
            proof {
                lemma_assoc_absent(self.view_seq(), k@);
            }
            Option::None
        }
    }

    /// Swaps the value at `k` when the key is present, returning the old
    /// value; an absent key changes nothing and returns nothing.
    pub fn replace(&mut self, k: &Vec<u8>, v: V) -> (r: Option<V>)
        requires
            old(self).wf(),
        ensures
            final(self).wf(),
            match r {
                Option::Some(prev) => old(self).spec_get(k@) == Option::Some(prev@)
                    && final(self).spec_get(k@) == Option::Some(v@),
                Option::None => old(self).spec_get(k@) is None && *final(self) == *old(self),
            },
            forall|k2: Seq<u8>|
                k2 != k@ ==> #[trigger] final(self).spec_get(k2) == old(self).spec_get(k2),
            final(self).view_seq().len() == old(self).view_seq().len(),
            forall|i: int|
                0 <= i < final(self).view_seq().len() ==> (#[trigger] final(self).view_seq()[i].0
                    == k@ && final(self).view_seq()[i].1 == v@) || (old(self).spec_get(
                    final(self).view_seq()[i].0,
                ) == Option::Some(final(self).view_seq()[i].1)),
    {
        let (pos, hit) = self.find(k);
        let ghost pre = self.view_seq();
        if hit {
            proof {
                lemma_assoc_at(pre, pos as int);
            }
            let mut slot = (crate::numbytes::clone_bytes(k), v);
            core::mem::swap(&mut slot, &mut self.entries[pos]);
            proof {
                let post = self.view_seq();
                assert(post =~= pre.update(pos as int, (k@, v@)));
                lemma_update_keeps(pre, pos as int, k@, v@);
                assert forall|i: int| 0 <= i < post.len() implies (#[trigger] post[i].0 == k@
                    && post[i].1 == v@) || (assoc(pre, post[i].0) == Option::Some(post[i].1)) by {
                    if i != pos {
                        assert(post[i] == pre[i]);
                        lemma_assoc_at(pre, i);
                    }
                }
            }
            Option::Some(slot.1)
        } else {
            proof {
                lemma_assoc_absent(pre, k@);
                assert forall|i: int| 0 <= i < pre.len() implies assoc(
                    pre,
                    (#[trigger] pre[i]).0,
                ) == Option::Some(pre[i].1) by {
                    lemma_assoc_at(pre, i);
                }
            }
            Option::None
        }
    }

    /// The entry at a position, keys ascending.
    pub fn entry_at(&self, i: usize) -> (r: (&Vec<u8>, &V))
        requires
            i < self.view_seq().len(),
        ensures
            r.0@ == self.view_seq()[i as int].0,
            r.1@ == self.view_seq()[i as int].1,
    {
        (&self.entries[i].0, &self.entries[i].1)
    }
}

/// Bytewise order is total: incomparability is impossible.
pub proof fn lemma_lex_total(a: Seq<u8>, b: Seq<u8>)
    ensures
        lex_cmp(a, b) == 0 || lex_cmp(a, b) == 1 || lex_cmp(a, b) == -1,
        lex_cmp(a, b) == -lex_cmp(b, a),
    decreases a.len(),
{
    crate::numbytes::lemma_lex_cmp_antisym(a, b);
    if a.len() > 0 && b.len() > 0 && a[0] == b[0] {
        lemma_lex_total(a.drop_first(), b.drop_first());
    }
}

/// Bytewise order is transitive.
pub proof fn lemma_lex_trans(a: Seq<u8>, b: Seq<u8>, c: Seq<u8>)
    requires
        lex_cmp(a, b) < 0,
        lex_cmp(b, c) < 0,
    ensures
        lex_cmp(a, c) < 0,
    decreases a.len() + b.len() + c.len(),
{
    if b.len() == 0 {
        assert(a.len() == 0 && c.len() > 0);
    } else if a.len() == 0 {
        assert(c.len() > 0 || b.len() > 0);
        if c.len() == 0 {
            assert(lex_cmp(b, c) > 0);
        }
    } else {
        assert(c.len() > 0);
        if a[0] == b[0] && b[0] == c[0] {
            lemma_lex_trans(a.drop_first(), b.drop_first(), c.drop_first());
        } else if a[0] == b[0] {
            assert(b[0] < c[0] || (b[0] == c[0] && false) || b[0] > c[0]);
        } else if b[0] == c[0] {
        } else {
        }
    }
}

proof fn lemma_update_keeps<W>(pre: Seq<(Seq<u8>, W)>, pos: int, k: Seq<u8>, v: W)
    requires
        sorted_keys(pre),
        0 <= pos < pre.len(),
        pre[pos].0 == k,
    ensures
        sorted_keys(pre.update(pos, (k, v))),
        assoc(pre.update(pos, (k, v)), k) == Option::Some(v),
        forall|k2: Seq<u8>|
            k2 != k ==> #[trigger] assoc(pre.update(pos, (k, v)), k2) == assoc(pre, k2),
        forall|i: int|
            0 <= i < pre.update(pos, (k, v)).len() ==> (#[trigger] pre.update(pos, (k, v))[i].0 == k
                && pre.update(pos, (k, v))[i].1 == v) || assoc(pre, pre.update(pos, (k, v))[i].0)
                == Option::Some(pre.update(pos, (k, v))[i].1),
{
    let post = pre.update(pos, (k, v));
    assert(forall|i: int| 0 <= i < post.len() && i != pos ==> post[i] == pre[i]);
    assert(sorted_keys(post)) by {
        assert forall|i: int, j: int| 0 <= i < j < post.len() implies lex_cmp(
            #[trigger] post[i].0,
            #[trigger] post[j].0,
        ) < 0 by {
            assert(post[i].0 == pre[i].0);
            assert(post[j].0 == pre[j].0);
        }
    }
    lemma_assoc_at(post, pos);
    assert forall|k2: Seq<u8>| k2 != k implies #[trigger] assoc(post, k2) == assoc(pre, k2) by {
        if has_key(pre, k2) {
            let i = choose|i: int| 0 <= i < pre.len() && (#[trigger] pre[i]).0 == k2;
            lemma_assoc_at(pre, i);
            assert(post[i].0 == k2);
            lemma_assoc_at(post, i);
            assert(post[i].1 == pre[i].1);
        } else {
            lemma_assoc_absent(pre, k2);
            assert(!has_key(post, k2)) by {
                if has_key(post, k2) {
                    let i = choose|i: int| 0 <= i < post.len() && (#[trigger] post[i]).0 == k2;
                    assert(pre[i].0 == k2);
                }
            }
            lemma_assoc_absent(post, k2);
        }
    }
    assert forall|i: int| 0 <= i < post.len() && !(post[i].0 == k && post[i].1 == v) implies assoc(
        pre,
        post[i].0,
    ) == Option::Some(post[i].1) by {
        lemma_assoc_at(pre, i);
    }
}

proof fn lemma_insert_keeps<W>(pre: Seq<(Seq<u8>, W)>, pos: int, k: Seq<u8>, v: W)
    requires
        sorted_keys(pre),
        0 <= pos <= pre.len(),
        forall|i: int| 0 <= i < pos ==> lex_cmp(#[trigger] pre[i].0, k) < 0,
        forall|i: int| pos <= i < pre.len() ==> lex_cmp(k, #[trigger] pre[i].0) <= 0,
        !has_key(pre, k),
    ensures
        sorted_keys(pre.insert(pos, (k, v))),
        assoc(pre.insert(pos, (k, v)), k) == Option::Some(v),
        forall|k2: Seq<u8>|
            k2 != k ==> #[trigger] assoc(pre.insert(pos, (k, v)), k2) == assoc(pre, k2),
        forall|i: int|
            0 <= i < pre.insert(pos, (k, v)).len() ==> (#[trigger] pre.insert(pos, (k, v))[i].0 == k
                && pre.insert(pos, (k, v))[i].1 == v) || assoc(pre, pre.insert(pos, (k, v))[i].0)
                == Option::Some(pre.insert(pos, (k, v))[i].1),
{
    let post = pre.insert(pos, (k, v));
    assert(forall|i: int| 0 <= i < pos ==> post[i] == pre[i]);
    assert(forall|i: int| pos < i < post.len() ==> post[i] == pre[i - 1]);
    assert(post[pos] == (k, v));
    assert(sorted_keys(post)) by {
        assert forall|i: int, j: int| 0 <= i < j < post.len() implies lex_cmp(
            #[trigger] post[i].0,
            #[trigger] post[j].0,
        ) < 0 by {
            if i == pos {
                assert(lex_cmp(k, pre[j - 1].0) <= 0);
                if lex_cmp(k, pre[j - 1].0) == 0 {
                    crate::numbytes::lemma_lex_cmp_eq(k, pre[j - 1].0);
                    assert(pre[j - 1].0 == k);
                }
            } else if j == pos {
            } else if i < pos && j > pos {
                assert(lex_cmp(pre[i].0, k) < 0);
                if i < j - 1 {
                    assert(lex_cmp(pre[i].0, pre[j - 1].0) < 0);
                } else {
                    assert(lex_cmp(k, pre[j - 1].0) <= 0);
                    if lex_cmp(k, pre[j - 1].0) == 0 {
                        crate::numbytes::lemma_lex_cmp_eq(k, pre[j - 1].0);
                    }
                    lemma_lex_trans(pre[i].0, k, pre[j - 1].0);
                }
            }
        }
    }
    lemma_assoc_at(post, pos);
    assert forall|k2: Seq<u8>| k2 != k implies #[trigger] assoc(post, k2) == assoc(pre, k2) by {
        if has_key(pre, k2) {
            let i = choose|i: int| 0 <= i < pre.len() && (#[trigger] pre[i]).0 == k2;
            lemma_assoc_at(pre, i);
            if i < pos {
                assert(post[i].0 == k2);
                lemma_assoc_at(post, i);
            } else {
                assert(post[i + 1].0 == k2);
                lemma_assoc_at(post, i + 1);
            }
        } else {
            lemma_assoc_absent(pre, k2);
            assert(!has_key(post, k2)) by {
                if has_key(post, k2) {
                    let i = choose|i: int| 0 <= i < post.len() && (#[trigger] post[i]).0 == k2;
                    if i < pos {
                        assert(pre[i].0 == k2);
                    } else if i > pos {
                        assert(pre[i - 1].0 == k2);
                    }
                }
            }
            lemma_assoc_absent(post, k2);
        }
    }
    assert forall|i: int| 0 <= i < post.len() && !(post[i].0 == k && post[i].1 == v) implies assoc(
        pre,
        post[i].0,
    ) == Option::Some(post[i].1) by {
        if i < pos {
            lemma_assoc_at(pre, i);
        } else {
            lemma_assoc_at(pre, i - 1);
        }
    }
}

proof fn lemma_remove_keeps<W>(pre: Seq<(Seq<u8>, W)>, pos: int, k: Seq<u8>)
    requires
        sorted_keys(pre),
        0 <= pos < pre.len(),
        pre[pos].0 == k,
    ensures
        sorted_keys(pre.remove(pos)),
        assoc(pre.remove(pos), k) == Option::<W>::None,
        forall|k2: Seq<u8>| k2 != k ==> #[trigger] assoc(pre.remove(pos), k2) == assoc(pre, k2),
        forall|i: int|
            0 <= i < pre.remove(pos).len() ==> assoc(pre, (#[trigger] pre.remove(pos)[i]).0)
                == Option::Some(pre.remove(pos)[i].1),
{
    let post = pre.remove(pos);
    assert(forall|i: int| 0 <= i < pos ==> post[i] == pre[i]);
    assert(forall|i: int| pos <= i < post.len() ==> post[i] == pre[i + 1]);
    assert(sorted_keys(post)) by {
        assert forall|i: int, j: int| 0 <= i < j < post.len() implies lex_cmp(
            #[trigger] post[i].0,
            #[trigger] post[j].0,
        ) < 0 by {
        }
    }
    assert(!has_key(post, k)) by {
        if has_key(post, k) {
            let i = choose|i: int| 0 <= i < post.len() && (#[trigger] post[i]).0 == k;
            if i < pos {
                assert(lex_cmp(pre[i].0, pre[pos].0) < 0);
                crate::numbytes::lemma_lex_cmp_refl(k);
            } else {
                assert(lex_cmp(pre[pos].0, pre[i + 1].0) < 0);
                crate::numbytes::lemma_lex_cmp_refl(k);
            }
        }
    }
    lemma_assoc_absent(post, k);
    assert forall|k2: Seq<u8>| k2 != k implies #[trigger] assoc(post, k2) == assoc(pre, k2) by {
        if has_key(pre, k2) {
            let i = choose|i: int| 0 <= i < pre.len() && (#[trigger] pre[i]).0 == k2;
            lemma_assoc_at(pre, i);
            if i < pos {
                assert(post[i].0 == k2);
                lemma_assoc_at(post, i);
            } else {
                assert(i != pos);
                assert(post[i - 1].0 == k2);
                lemma_assoc_at(post, i - 1);
            }
        } else {
            lemma_assoc_absent(pre, k2);
            assert(!has_key(post, k2)) by {
                if has_key(post, k2) {
                    let i = choose|i: int| 0 <= i < post.len() && (#[trigger] post[i]).0 == k2;
                    if i < pos {
                        assert(pre[i].0 == k2);
                    } else {
                        assert(pre[i + 1].0 == k2);
                    }
                }
            }
            lemma_assoc_absent(post, k2);
        }
    }
    assert forall|i: int| 0 <= i < post.len() implies assoc(pre, (#[trigger] post[i]).0)
        == Option::Some(post[i].1) by {
        if i < pos {
            lemma_assoc_at(pre, i);
        } else {
            lemma_assoc_at(pre, i + 1);
        }
    }
}

} // verus!
