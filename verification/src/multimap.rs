//! The grouping index: a multi-valued map from [`RouteDir`] keys to buckets
//! of values, held in ascending key order.
//!
//! Inserting appends to a key's bucket, creating the bucket on first sight;
//! nothing is ever removed. Because the buckets are kept sorted by key, any
//! walk over `map` visits the groups in the total order of the keys — the
//! order in which reports list them — regardless of insertion order.

use vstd::prelude::*;

use crate::types::{key_lt, lemma_key_total, lemma_key_trans, rd_key, GroupKey, RouteDir};

verus! {

/// A multi-valued ordered map from route/direction keys to buckets.
#[derive(Debug)]
pub struct MultiMap<V> {
    /// The buckets, in ascending key order, one per key.
    pub map: Vec<(RouteDir, Vec<V>)>,
}

impl<V> MultiMap<V> {
    /// The buckets as (key value, values) pairs, in storage order.
    pub open spec fn entries(self) -> Seq<(GroupKey, Seq<V>)> {
        self.map@.map_values(|p: (RouteDir, Vec<V>)| (rd_key(p.0), p.1@))
    }

    /// Well-formedness: keys strictly ascending, hence unique.
    pub open spec fn wf(self) -> bool {
        forall|i: int, j: int|
            #![trigger self.entries()[i], self.entries()[j]]
            0 <= i < j < self.entries().len() ==> key_lt(self.entries()[i].0, self.entries()[j].0)
    }

    /// An empty index.
    pub fn new() -> (r: MultiMap<V>)
        ensures
            r.entries() == Seq::<(GroupKey, Seq<V>)>::empty(),
            r.wf(),
    {
        let r = MultiMap { map: Vec::new() };
        proof {
            assert(r.entries() =~= Seq::<(GroupKey, Seq<V>)>::empty());
        }
        r
    }

    /// Appends one value to the bucket for `key`, creating it if absent.
    pub fn insert(&mut self, key: RouteDir, value: V)
        requires
            old(self).wf(),
        ensures
            final(self).entries() == mm_insert_bulk(old(self).entries(), rd_key(key), seq![value]),
            final(self).wf(),
    {
        let mut vs: Vec<V> = Vec::new();
        vs.push(value);
        proof {
            assert(vs@ =~= seq![value]);
        }
        self.insert_bulk(key, vs);
    }

    /// Appends a whole ordered sequence of values to the bucket for `key`,
    /// creating it if absent.
    pub fn insert_bulk(&mut self, key: RouteDir, values: Vec<V>)
        requires
            old(self).wf(),
        ensures
            final(self).entries() == mm_insert_bulk(old(self).entries(), rd_key(key), values@),
            final(self).wf(),
    {
        let ghost s = self.entries();
        let ghost k = rd_key(key);
        let n = self.map.len();
        let mut pos: usize = 0;
        let mut found_eq = false;
        while pos < n && !found_eq
            invariant
                self == old(self),
                old(self).wf(),
                n == self.map@.len(),
                s == self.entries(),
                k == rd_key(key),
                0 <= pos <= n,
                forall|i: int| 0 <= i < pos ==> key_lt(#[trigger] s[i].0, k),
                found_eq ==> pos < n && s[pos as int].0 == k,
            decreases n - pos + if found_eq { 0int } else { 1int },
        {
            let c = self.map[pos].0.cmp_key(&key);
            if c < 0 {
                pos += 1;
            } else if c == 0 {
                found_eq = true;
            } else {
                proof {
                    lemma_mm_pos_at(s, k, pos as int);
                    lemma_mm_splice(s, k, values@, pos as int);
                }
                self.map.insert(pos, (key, values));
                proof {
                    assert(self.entries() =~= s.take(pos as int) + seq![(k, values@)] + s.skip(
                        pos as int,
                    ));
                    lemma_wf_after_insert(s, k, values@, pos as int);
                }
                return ;
            }
        }
        if found_eq {
            proof {
                lemma_key_total(s[pos as int].0, k);
                lemma_mm_pos_at(s, k, pos as int);
                lemma_mm_splice(s, k, values@, pos as int);
            }
            let mut pair = self.map.remove(pos);
            let mut rest = values;
            let ghost vs = rest@;
            pair.1.append(&mut rest);
            self.map.insert(pos, pair);
            proof {
                assert(self.entries() =~= s.update(pos as int, (k, s[pos as int].1 + vs)));
                assert(self.entries() == mm_insert_bulk(s, k, vs));
                assert forall|i: int, j: int|
                    0 <= i < j < self.entries().len() implies key_lt(
                    #[trigger] self.entries()[i].0,
                    #[trigger] self.entries()[j].0,
                ) by {
                    assert(self.entries()[i].0 == s[i].0);
                    assert(self.entries()[j].0 == s[j].0);
                }
            }
        } else {
            proof {
                lemma_mm_pos_at(s, k, pos as int);
                lemma_mm_splice(s, k, values@, pos as int);
            }
            self.map.push((key, values));
            proof {
                assert(self.entries() =~= s.take(pos as int) + seq![(k, values@)] + s.skip(
                    pos as int,
                ));
                lemma_wf_after_insert(s, k, values@, pos as int);
            }
        }
    }
}

/// The position of `k`'s bucket, or of the first greater key: the number of
/// keys below `k`.
pub open spec fn mm_pos<V>(s: Seq<(GroupKey, Seq<V>)>, k: GroupKey) -> int
    decreases s.len(),
{
    if s.len() == 0 {
        0
    } else if key_lt(s[0].0, k) {
        1 + mm_pos(s.drop_first(), k)
    } else {
        0
    }
}

/// What inserting a sequence of values under `k` does to the buckets:
/// appends to `k`'s bucket, or splices a new bucket in at the sorted place.
pub open spec fn mm_insert_bulk<V>(
    s: Seq<(GroupKey, Seq<V>)>,
    k: GroupKey,
    vs: Seq<V>,
) -> Seq<(GroupKey, Seq<V>)> {
    let pos = mm_pos(s, k);
    if pos < s.len() && s[pos].0 == k {
        s.update(pos, (k, s[pos].1 + vs))
    } else {
        s.take(pos) + seq![(k, vs)] + s.skip(pos)
    }
}

/// Buckets in strictly ascending key order.
pub open spec fn entries_sorted<V>(s: Seq<(GroupKey, Seq<V>)>) -> bool {
    forall|i: int, j: int|
        #![trigger s[i], s[j]]
        0 <= i < j < s.len() ==> key_lt(s[i].0, s[j].0)
}

/// Every key before `mm_pos` is below `k`; the key at `mm_pos`, if any, is
/// not.
pub proof fn lemma_mm_pos_props<V>(s: Seq<(GroupKey, Seq<V>)>, k: GroupKey)
    ensures
        0 <= mm_pos(s, k) <= s.len(),
        forall|i: int| 0 <= i < mm_pos(s, k) ==> key_lt(#[trigger] s[i].0, k),
        mm_pos(s, k) < s.len() ==> !key_lt(s[mm_pos(s, k)].0, k),
    decreases s.len(),
{
    if s.len() > 0 && key_lt(s[0].0, k) {
        let d = s.drop_first();
        lemma_mm_pos_props(d, k);
        assert(forall|i: int| 0 <= i < d.len() ==> d[i] == s[i + 1]);
        assert forall|i: int| 0 <= i < mm_pos(s, k) implies key_lt(#[trigger] s[i].0, k) by {
            if i > 0 {
                assert(s[i] == d[i - 1]);
            }
        }
    }
}

/// Inserting a bucket keeps the keys strictly ascending.
pub proof fn lemma_mm_insert_bulk_sorted<V>(s: Seq<(GroupKey, Seq<V>)>, k: GroupKey, vs: Seq<V>)
    requires
        entries_sorted(s),
    ensures
        entries_sorted(mm_insert_bulk(s, k, vs)),
{
    lemma_mm_pos_props(s, k);
    let pos = mm_pos(s, k);
    let r = mm_insert_bulk(s, k, vs);
    if pos < s.len() && s[pos].0 == k {
        assert forall|i: int, j: int|
            #![trigger r[i], r[j]]
            0 <= i < j < r.len() implies key_lt(r[i].0, r[j].0) by {
            assert(r[i].0 == s[i].0);
            assert(r[j].0 == s[j].0);
        }
    } else {
        if pos < s.len() {
            lemma_key_total(s[pos].0, k);
        }
        lemma_wf_after_insert(s, k, vs, pos);
    }
}

/// `mm_pos` pinned from local evidence: all keys before `pos` are below `k`
/// and the key at `pos`, if any, is not.
pub proof fn lemma_mm_pos_at<V>(s: Seq<(GroupKey, Seq<V>)>, k: GroupKey, pos: int)
    requires
        0 <= pos <= s.len(),
        forall|i: int| 0 <= i < pos ==> key_lt(#[trigger] s[i].0, k),
        pos < s.len() ==> !key_lt(s[pos].0, k),
    ensures
        mm_pos(s, k) == pos,
    decreases s.len(),
{
    if s.len() > 0 && key_lt(s[0].0, k) {
        let d = s.drop_first();
        assert(forall|i: int| 0 <= i < d.len() ==> d[i] == s[i + 1]);
        lemma_mm_pos_at(d, k, pos - 1);
    }
}

/// Unfolds [`mm_insert_bulk`] at a known position.
pub proof fn lemma_mm_splice<V>(s: Seq<(GroupKey, Seq<V>)>, k: GroupKey, vs: Seq<V>, pos: int)
    requires
        mm_pos(s, k) == pos,
    ensures
        0 <= pos <= s.len(),
        pos < s.len() && s[pos].0 == k ==> mm_insert_bulk(s, k, vs) == s.update(
            pos,
            (k, s[pos].1 + vs),
        ),
        !(pos < s.len() && s[pos].0 == k) ==> mm_insert_bulk(s, k, vs) == s.take(pos) + seq![
            (k, vs),
        ] + s.skip(pos),
    decreases s.len(),
{
    if s.len() > 0 && key_lt(s[0].0, k) {
        lemma_mm_splice(s.drop_first(), k, vs, pos - 1);
    }
}

/// Splicing a new bucket in at the position of the first key not below it
/// keeps the keys strictly ascending.
pub proof fn lemma_wf_after_insert<V>(s: Seq<(GroupKey, Seq<V>)>, k: GroupKey, vs: Seq<V>, pos: int)
    requires
        0 <= pos <= s.len(),
        forall|i: int, j: int|
            #![trigger s[i], s[j]]
            0 <= i < j < s.len() ==> key_lt(s[i].0, s[j].0),
        forall|i: int| 0 <= i < pos ==> key_lt(#[trigger] s[i].0, k),
        pos < s.len() ==> !key_lt(s[pos].0, k) && s[pos].0 != k,
    ensures
        ({
            let r = s.take(pos) + seq![(k, vs)] + s.skip(pos);
            forall|i: int, j: int|
                #![trigger r[i], r[j]]
                0 <= i < j < r.len() ==> key_lt(r[i].0, r[j].0)
        }),
{
    let r = s.take(pos) + seq![(k, vs)] + s.skip(pos);
    assert forall|i: int, j: int| 0 <= i < j < r.len() implies key_lt(r[i].0, r[j].0) by {
        if pos < s.len() {
            lemma_key_total(s[pos].0, k);
        }
        if i < pos {
            assert(r[i] == s[i]);
        } else if i == pos {
            assert(r[i] == (k, vs));
        } else {
            assert(r[i] == s[i - 1]);
        }
        if j < pos {
            assert(r[j] == s[j]);
        } else if j == pos {
            assert(r[j] == (k, vs));
        } else {
            assert(r[j] == s[j - 1]);
        }
        if i == pos && j > pos {
            assert(key_lt(k, s[j - 1].0)) by {
                if j - 1 > pos {
                    lemma_key_trans(k, s[pos].0, s[j - 1].0);
                }
            }
        }
    }
}

} // verus!
