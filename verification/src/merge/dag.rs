//! The per-group stop graph and its topological consolidation.
//!
//! Nodes are distinct stops, identified by their stable keys and numbered in
//! order of first encounter while scanning a group's trips. Edges record that
//! one stop was visited immediately before another in some trip. Consolidation
//! ([`Dag::flatten`]) emits one linear order consistent with every edge, or
//! reports a cycle. When several nodes are simultaneously emittable, the one
//! discovered latest (the highest node number) is emitted first; this makes
//! the output a function of the graph alone.

use vstd::prelude::*;

verus! {

/// Mathematical view of a graph: per node, in first-encounter order, its
/// stop key, its parent node numbers and its child node numbers.
pub struct DagView {
    pub keys: Seq<u64>,
    pub preds: Seq<Seq<int>>,
    pub succs: Seq<Seq<int>>,
}

impl DagView {
    /// Number of nodes.
    pub open spec fn n(self) -> int {
        self.keys.len() as int
    }

    /// Well-formedness: one parent and one child list per node, all edge
    /// endpoints in range and recorded at most once, and one node per key.
    pub open spec fn wf(self) -> bool {
        &&& self.preds.len() == self.keys.len()
        &&& self.succs.len() == self.keys.len()
        &&& (forall|i: int, j: int|
            0 <= i < self.preds.len() && 0 <= j < self.preds[i].len()
                ==> 0 <= (#[trigger] self.preds[i][j]) < self.keys.len())
        &&& (forall|i: int, j: int|
            0 <= i < self.succs.len() && 0 <= j < self.succs[i].len()
                ==> 0 <= (#[trigger] self.succs[i][j]) < self.keys.len())
        &&& (forall|i: int, j: int, k: int|
            #![trigger self.preds[i][j], self.preds[i][k]]
            0 <= i < self.preds.len() && 0 <= j < k < self.preds[i].len()
                ==> self.preds[i][j] != self.preds[i][k])
        &&& (forall|i: int, j: int, k: int|
            #![trigger self.succs[i][j], self.succs[i][k]]
            0 <= i < self.succs.len() && 0 <= j < k < self.succs[i].len()
                ==> self.succs[i][j] != self.succs[i][k])
        &&& (forall|i: int, j: int|
            #![trigger self.keys[i], self.keys[j]]
            0 <= i < j < self.keys.len() ==> self.keys[i] != self.keys[j])
    }

    /// The empty graph.
    pub open spec fn empty() -> DagView {
        DagView { keys: Seq::empty(), preds: Seq::empty(), succs: Seq::empty() }
    }
}

/// The position of the node holding `key`, in first-encounter order, or
/// `keys.len()` when no node holds it.
pub open spec fn find_key(keys: Seq<u64>, key: u64) -> int
    decreases keys.len(),
{
    if keys.len() == 0 {
        0
    } else if keys[0] == key {
        0
    } else {
        1 + find_key(keys.drop_first(), key)
    }
}

/// `find_key` returns the first position of `key`, or the length.
pub proof fn lemma_find_key_props(keys: Seq<u64>, key: u64)
    ensures
        0 <= find_key(keys, key) <= keys.len(),
        find_key(keys, key) < keys.len() ==> keys[find_key(keys, key)] == key,
        forall|k: int| 0 <= k < find_key(keys, key) ==> keys[k] != key,
        find_key(keys, key) == keys.len() ==> !keys.contains(key),
    decreases keys.len(),
{
    if keys.len() > 0 && keys[0] != key {
        let d = keys.drop_first();
        lemma_find_key_props(d, key);
        assert(forall|k: int| 0 <= k < d.len() ==> d[k] == keys[k + 1]);
        assert forall|k: int| 0 <= k < find_key(keys, key) implies keys[k] != key by {
            if k > 0 {
                assert(keys[k] == d[k - 1]);
            }
        }
        if find_key(keys, key) == keys.len() {
            assert forall|k: int| 0 <= k < keys.len() implies keys[k] != key by {
                if k > 0 {
                    assert(keys[k] == d[k - 1]);
                }
            }
            if keys.contains(key) {
                let w = choose|w: int| 0 <= w < keys.len() && keys[w] == key;
                assert(false);
            }
        }
    }
}

/// `find_key` pinned from local evidence: no occurrence before `i`, and an
/// occurrence at `i` unless `i` is the length.
pub proof fn lemma_find_key_at(keys: Seq<u64>, key: u64, i: int)
    requires
        0 <= i <= keys.len(),
        forall|k: int| 0 <= k < i ==> keys[k] != key,
        i < keys.len() ==> keys[i] == key,
    ensures
        find_key(keys, key) == i,
    decreases keys.len(),
{
    if keys.len() == 0 {
    } else if keys[0] == key {
        assert(i == 0);
    } else {
        let d = keys.drop_first();
        assert(forall|k: int| 0 <= k < d.len() ==> d[k] == keys[k + 1]);
        lemma_find_key_at(d, key, i - 1);
    }
}

/// Appends `x` to a list unless it is already recorded: set semantics.
pub open spec fn seq_insert_new(s: Seq<int>, x: int) -> Seq<int> {
    if s.contains(x) {
        s
    } else {
        s.push(x)
    }
}

/// What one [`Dag::insert_child`] call does to the view: a node for `child`
/// is created on first sight, and when `parent` names an existing node the
/// edge parent -> child is recorded on both sides.
pub open spec fn dag_add(v: DagView, parent: Option<u64>, child: u64) -> DagView {
    let ci = find_key(v.keys, child);
    let v1 = if ci < v.keys.len() {
        v
    } else {
        DagView {
            keys: v.keys.push(child),
            preds: v.preds.push(Seq::empty()),
            succs: v.succs.push(Seq::empty()),
        }
    };
    match parent {
        Option::None => v1,
        Option::Some(p) => {
            let pi = find_key(v1.keys, p);
            if pi < v1.keys.len() {
                DagView {
                    keys: v1.keys,
                    preds: v1.preds.update(ci, seq_insert_new(v1.preds[ci], pi)),
                    succs: v1.succs.update(pi, seq_insert_new(v1.succs[pi], ci)),
                }
            } else {
                v1
            }
        },
    }
}

/// Whether [`Dag::insert_child`] succeeds: the parent, when given, must
/// already have a node (the child's own, fresh node counts).
pub open spec fn dag_add_ok(v: DagView, parent: Option<u64>, child: u64) -> bool {
    match parent {
        Option::None => true,
        Option::Some(p) => {
            let v1 = dag_add(v, Option::None, child);
            find_key(v1.keys, p) < v1.keys.len()
        },
    }
}

/// A node is emittable: not yet emitted, and every parent already emitted.
/// `mask` marks the emitted nodes.
pub open spec fn eligible(v: DagView, mask: Seq<bool>, i: int) -> bool {
    &&& 0 <= i < v.n()
    &&& !mask[i]
    &&& forall|j: int| 0 <= j < v.preds[i].len() ==> mask[#[trigger] v.preds[i][j]]
}

/// The highest emittable node number below `upto`, if any: the head selected
/// next, preferring the most recently discovered node.
pub open spec fn pick_from(v: DagView, mask: Seq<bool>, upto: nat) -> Option<int>
    decreases upto,
{
    if upto == 0 {
        Option::None
    } else if eligible(v, mask, upto - 1) {
        Option::Some(upto - 1)
    } else {
        pick_from(v, mask, (upto - 1) as nat)
    }
}

/// The head emitted next, if any node is emittable.
pub open spec fn pick(v: DagView, mask: Seq<bool>) -> Option<int> {
    pick_from(v, mask, v.n() as nat)
}

/// How many nodes `mask` still leaves unemitted.
pub open spec fn count_false(mask: Seq<bool>) -> nat
    decreases mask.len(),
{
    if mask.len() == 0 {
        0
    } else {
        count_false(mask.drop_last()) + if mask.last() {
            0nat
        } else {
            1nat
        }
    }
}

/// Marking an unemitted node emitted lowers the count by one.
pub proof fn lemma_count_false_update(mask: Seq<bool>, i: int)
    requires
        0 <= i < mask.len(),
        !mask[i],
    ensures
        count_false(mask) == count_false(mask.update(i, true)) + 1,
    decreases mask.len(),
{
    let m2 = mask.update(i, true);
    if i == mask.len() - 1 {
        assert(m2.drop_last() =~= mask.drop_last());
    } else {
        assert(m2.drop_last() =~= mask.drop_last().update(i, true));
        lemma_count_false_update(mask.drop_last(), i);
    }
}

/// A mask of all-false entries leaves every node unemitted.
pub proof fn lemma_count_false_init(mask: Seq<bool>)
    requires
        forall|k: int| 0 <= k < mask.len() ==> !mask[k],
    ensures
        count_false(mask) == mask.len(),
    decreases mask.len(),
{
    if mask.len() > 0 {
        lemma_count_false_init(mask.drop_last());
    }
}

/// The node numbers in the order Kahn-style consolidation emits them,
/// starting from the nodes `mask` marks emitted; `fuel` bounds the steps.
pub open spec fn kahn_from(v: DagView, mask: Seq<bool>, fuel: nat) -> Seq<int>
    decreases fuel,
{
    if fuel == 0 {
        Seq::empty()
    } else {
        match pick(v, mask) {
            Option::None => Seq::empty(),
            Option::Some(i) => seq![i] + kahn_from(v, mask.update(i, true), (fuel - 1) as nat),
        }
    }
}

/// The emission order of the whole graph. Exactly the nodes reachable by
/// repeatedly emitting a head appear; on a cycle it is shorter than `n`.
pub open spec fn kahn_order(v: DagView) -> Seq<int> {
    kahn_from(v, Seq::new(v.n() as nat, |i: int| false), v.n() as nat)
}

/// The consolidated stop order of the graph: the keys in emission order, or
/// nothing when a cycle prevents emitting every node.
pub open spec fn consolidated(v: DagView) -> Option<Seq<u64>> {
    if kahn_order(v).len() == v.n() {
        Option::Some(kahn_order(v).map_values(|i: int| v.keys[i]))
    } else {
        Option::None
    }
}

/// The parent named in an [`Dag::insert_child`] call had no node: an internal
/// invariant violation of the caller, never a data error.
#[derive(Clone, Copy, Debug, PartialEq, Eq, Structural)]
pub struct MissingParentError;

/// The recorded orders are contradictory: some nodes of the group form a
/// cycle and admit no linear order.
#[derive(Clone, Copy, Debug, PartialEq, Eq, Structural)]
pub struct CycleError;

/// The per-group graph of "visited immediately after" edges among stops.
pub struct Dag {
    values: Vec<u64>,
    parents: Vec<Vec<usize>>,
    children: Vec<Vec<usize>>,
}

impl View for Dag {
    type V = DagView;

    closed spec fn view(&self) -> DagView {
        DagView {
            keys: self.values@,
            preds: self.parents@.map_values(|c: Vec<usize>| c@.map_values(|p: usize| p as int)),
            succs: self.children@.map_values(|c: Vec<usize>| c@.map_values(|p: usize| p as int)),
        }
    }
}

/// Whether a list records `x`.
fn vec_contains_usize(v: &Vec<usize>, x: usize) -> (b: bool)
    ensures
        b == v@.contains(x),
{
    let n = v.len();
    let mut i: usize = 0;
    while i < n
        invariant
            0 <= i <= n == v@.len(),
            forall|k: int| 0 <= k < i ==> v@[k] != x,
        decreases n - i,
    {
        if v[i] == x {
            return true;
        }
        i += 1;
    }
    assert(!v@.contains(x)) by {
        if v@.contains(x) {
            let w = choose|w: int| 0 <= w < v@.len() && v@[w] == x;
        }
    }
    false
}

impl Dag {
    /// An empty graph.
    pub fn new() -> (d: Dag)
        ensures
            d@ == DagView::empty(),
            d@.wf(),
    {
        let d = Dag { values: Vec::new(), parents: Vec::new(), children: Vec::new() };
        proof {
            assert(d@.keys =~= Seq::<u64>::empty());
            assert(d@.preds =~= Seq::<Seq<int>>::empty());
            assert(d@.succs =~= Seq::<Seq<int>>::empty());
        }
        d
    }

    /// The node number of `key`, or the node count when absent.
    fn find_node(&self, key: u64) -> (r: usize)
        ensures
            r as int == find_key(self@.keys, key),
            r <= self@.keys.len(),
    {
        let n = self.values.len();
        let mut i: usize = 0;
        while i < n
            invariant
                0 <= i <= n == self@.keys.len(),
                forall|k: int| 0 <= k < i ==> self@.keys[k] != key,
            decreases n - i,
        {
            if self.values[i] == key {
                proof {
                    lemma_find_key_at(self@.keys, key, i as int);
                }
                return i;
            }
            i += 1;
        }
        proof {
            lemma_find_key_at(self@.keys, key, n as int);
        }
        n
    }

    /// Ensures a node for `child` exists, creating it on first sight, and
    /// records the edge parent -> child when `parent` is given. Fails only
    /// when the given parent has no node yet; the caller's scan order (each
    /// parent was the previous call's child) rules that out.
    pub fn insert_child(&mut self, parent: Option<u64>, child: u64) -> (r: Result<
        (),
        MissingParentError,
    >)
        requires
            old(self)@.wf(),
        ensures
            final(self)@ == dag_add(old(self)@, parent, child),
            final(self)@.wf(),
            (r is Ok) == dag_add_ok(old(self)@, parent, child),
    {
        proof {
            lemma_find_key_props(self@.keys, child);
        }
        let ci = self.find_node(child);
        if ci == self.values.len() {
            self.values.push(child);
            self.parents.push(Vec::new());
            self.children.push(Vec::new());
        }
        let ghost v1 = dag_add(old(self)@, Option::None, child);
        proof {
            assert(self@.preds =~~= v1.preds);
            assert(self@.succs =~~= v1.succs);
            assert(self@.keys =~= v1.keys);
            assert(self@ == v1);
        }
        match parent {
            None => Ok(()),
            Some(p) => {
                let pi = self.find_node(p);
                if pi == self.values.len() {
                    return Err(MissingParentError);
                }
                assert(ci < self@.keys.len()) by {
                    lemma_find_key_props(v1.keys, child);
                }
                let ghost v2 = dag_add(old(self)@, parent, child);
                let pcol = &self.parents[ci];
                proof {
                    assert(v1.preds[ci as int] == pcol@.map_values(|q: usize| q as int));
                    assert(pcol@.contains(pi) == v1.preds[ci as int].contains(pi as int)) by {
                        if pcol@.contains(pi) {
                            let w = choose|w: int| 0 <= w < pcol@.len() && pcol@[w] == pi;
                            assert(v1.preds[ci as int][w] == pi as int);
                        }
                        if v1.preds[ci as int].contains(pi as int) {
                            let w = choose|w: int|
                                0 <= w < v1.preds[ci as int].len() && v1.preds[ci as int][w]
                                    == pi as int;
                            assert(pcol@[w] == pi);
                        }
                    }
                }
                if !vec_contains_usize(&self.parents[ci], pi) {
                    let pcol = &mut self.parents[ci];
                    pcol.push(pi);
                }
                let ccol = &self.children[pi];
                proof {
                    assert(v1.succs[pi as int] == ccol@.map_values(|q: usize| q as int));
                    assert(ccol@.contains(ci) == v1.succs[pi as int].contains(ci as int)) by {
                        if ccol@.contains(ci) {
                            let w = choose|w: int| 0 <= w < ccol@.len() && ccol@[w] == ci;
                            assert(v1.succs[pi as int][w] == ci as int);
                        }
                        if v1.succs[pi as int].contains(ci as int) {
                            let w = choose|w: int|
                                0 <= w < v1.succs[pi as int].len() && v1.succs[pi as int][w]
                                    == ci as int;
                            assert(ccol@[w] == ci);
                        }
                    }
                }
                if !vec_contains_usize(&self.children[pi], ci) {
                    let ccol = &mut self.children[pi];
                    ccol.push(ci);
                }
                proof {
                    assert(self@.preds =~~= v2.preds);
                    assert(self@.succs =~~= v2.succs);
                    assert(self@.keys =~= v2.keys);
                    assert(self@ == v2);
                    assert(self@.wf());
                }
                Ok(())
            },
        }
    }

    /// Whether every parent of node `i` is already emitted.
    fn parents_done(&self, i: usize, mask: &Vec<bool>) -> (b: bool)
        requires
            self@.wf(),
            i < self@.n(),
            mask@.len() == self@.n(),
        ensures
            b == forall|j: int|
                0 <= j < self@.preds[i as int].len() ==> mask@[#[trigger] self@.preds[i as int][j]],
    {
        let col = &self.parents[i];
        proof {
            assert(self@.preds[i as int] == col@.map_values(|p: usize| p as int));
        }
        let m = col.len();
        let mut j: usize = 0;
        while j < m
            invariant
                self@.wf(),
                i < self@.n(),
                mask@.len() == self@.n(),
                self@.preds[i as int] == col@.map_values(|p: usize| p as int),
                0 <= j <= m == col@.len(),
                forall|k: int| 0 <= k < j ==> mask@[#[trigger] self@.preds[i as int][k]],
            decreases m - j,
        {
            let p = col[j];
            proof {
                assert(self@.preds[i as int][j as int] == p as int);
                assert((p as int) < self@.n());
            }
            if !mask[p] {
                proof {
                    assert(!mask@[self@.preds[i as int][j as int]]);
                }
                return false;
            }
            j += 1;
        }
        true
    }

    /// The head to emit next: the highest-numbered emittable node, if any.
    fn next_head(&self, mask: &Vec<bool>) -> (r: Option<usize>)
        requires
            self@.wf(),
            mask@.len() == self@.n(),
        ensures
            match r {
                Some(i) => pick(self@, mask@) == Option::Some(i as int),
                None => pick(self@, mask@) is None,
            },
    {
        let n = self.values.len();
        let mut i = n;
        while i > 0
            invariant
                self@.wf(),
                mask@.len() == self@.n(),
                0 <= i <= n == self@.n(),
                pick(self@, mask@) == pick_from(self@, mask@, i as nat),
            decreases i,
        {
            i -= 1;
            if !mask[i] && self.parents_done(i, mask) {
                assert(eligible(self@, mask@, i as int));
                return Some(i);
            }
            assert(!eligible(self@, mask@, i as int));
        }
        None
    }

    /// Consumes the graph and emits its stops in one order consistent with
    /// every recorded edge; fails when a cycle leaves nodes unemittable.
    /// The order is the one of [`consolidated`]: the graph determines it.
    pub fn flatten(self) -> (r: Result<Vec<u64>, CycleError>)
        requires
            self@.wf(),
        ensures
            match r {
                Ok(out) => consolidated(self@) == Option::Some(out@),
                Err(e) => consolidated(self@) is None && e == CycleError,
            },
    {
        let n = self.values.len();
        let mut mask: Vec<bool> = Vec::new();
        while mask.len() < n
            invariant
                mask@.len() <= n,
                forall|k: int| 0 <= k < mask@.len() ==> !mask@[k],
            decreases n - mask@.len(),
        {
            mask.push(false);
        }
        proof {
            assert(mask@ =~= Seq::new(self@.n() as nat, |i: int| false));
            lemma_count_false_init(mask@);
        }
        let mut out: Vec<u64> = Vec::new();
        let ghost mut emitted: Seq<int> = Seq::empty();
        proof {
            assert(kahn_order(self@) =~= emitted + kahn_from(self@, mask@, count_false(mask@)));
        }
        loop
            invariant
                self@.wf(),
                mask@.len() == n == self@.n(),
                out@.len() == emitted.len(),
                out@.len() + count_false(mask@) == n,
                kahn_order(self@) == emitted + kahn_from(self@, mask@, count_false(mask@)),
                forall|k: int| 0 <= k < emitted.len() ==> 0 <= #[trigger] emitted[k] < n,
                forall|k: int| 0 <= k < emitted.len() ==> out@[k] == self@.keys[#[trigger] emitted[k]],
            ensures
                out@.len() == emitted.len(),
                out@.len() <= n == self@.n(),
                kahn_order(self@) == emitted,
                forall|k: int| 0 <= k < emitted.len() ==> 0 <= #[trigger] emitted[k] < n,
                forall|k: int| 0 <= k < emitted.len() ==> out@[k] == self@.keys[#[trigger] emitted[k]],
            decreases count_false(mask@),
        {
            let head = self.next_head(&mask);
            match head {
                None => {
                    proof {
                        assert(kahn_from(self@, mask@, count_false(mask@)) =~= Seq::<int>::empty());
                        assert(kahn_order(self@) =~= emitted);
                    }
                    break;
                },
                Some(i) => {
                    proof {
                        assert(eligible(self@, mask@, i as int)) by {
                            lemma_pick_eligible(self@, mask@, self@.n() as nat);
                        }
                        lemma_count_false_update(mask@, i as int);
                        let cf = count_false(mask@);
                        assert(kahn_from(self@, mask@, cf) == seq![i as int] + kahn_from(
                            self@,
                            mask@.update(i as int, true),
                            (cf - 1) as nat,
                        ));
                    }
                    let ghost old_mask = mask@;
                    let ghost old_emitted = emitted;
                    mask.set(i, true);
                    out.push(self.values[i]);
                    proof {
                        emitted = emitted.push(i as int);
                        assert(old_emitted + (seq![i as int] + kahn_from(self@, mask@, count_false(mask@)))
                            =~= emitted + kahn_from(self@, mask@, count_false(mask@)));
                    }
                },
            }
        }
        if out.len() == n {
            proof {
                assert(kahn_order(self@).len() == self@.n());
                assert(kahn_order(self@).map_values(|i: int| self@.keys[i]) =~= out@);
            }
            Ok(out)
        } else {
            proof {
                assert(kahn_order(self@).len() != self@.n());
            }
            Err(CycleError)
        }
    }
}

/// What `pick_from` selects is emittable.
pub proof fn lemma_pick_eligible(v: DagView, mask: Seq<bool>, upto: nat)
    ensures
        pick_from(v, mask, upto) matches Option::Some(i) ==> eligible(v, mask, i) && i < upto,
    decreases upto,
{
    if upto > 0 && !eligible(v, mask, upto - 1) {
        lemma_pick_eligible(v, mask, (upto - 1) as nat);
    }
}

/// The emission order lists distinct, previously unemitted nodes, and emits
/// no node before all of its parents: each parent of an emitted node was
/// already masked at the start or appears strictly earlier in the order.
pub proof fn lemma_kahn_from_props(v: DagView, mask: Seq<bool>, fuel: nat)
    requires
        v.wf(),
        mask.len() == v.n(),
    ensures
        ({
            let ord = kahn_from(v, mask, fuel);
            &&& (forall|k: int|
                0 <= k < ord.len() ==> 0 <= #[trigger] ord[k] < v.n() && !mask[ord[k]])
            &&& (forall|k: int, l: int|
                #![trigger ord[k], ord[l]]
                0 <= k < l < ord.len() ==> ord[k] != ord[l])
            &&& (forall|k: int, j: int|
                #![trigger v.preds[ord[k]][j]]
                0 <= k < ord.len() && 0 <= j < v.preds[ord[k]].len() ==> mask[v.preds[ord[k]][j]]
                    || exists|l: int| 0 <= l < k && ord[l] == v.preds[ord[k]][j])
        }),
    decreases fuel,
{
    let ord = kahn_from(v, mask, fuel);
    if fuel > 0 {
        match pick(v, mask) {
            Option::None => {},
            Option::Some(i) => {
                lemma_pick_eligible(v, mask, v.n() as nat);
                let mask2 = mask.update(i, true);
                lemma_kahn_from_props(v, mask2, (fuel - 1) as nat);
                let tail = kahn_from(v, mask2, (fuel - 1) as nat);
                assert(ord == seq![i] + tail);
                assert(ord[0] == i);
                assert(forall|k: int| 1 <= k < ord.len() ==> ord[k] == tail[k - 1]);
                assert forall|k: int, j: int|
                    #![trigger v.preds[ord[k]][j]]
                    0 <= k < ord.len() && 0 <= j < v.preds[ord[k]].len() implies mask[v.preds[ord[k]][j]]
                        || exists|l: int| 0 <= l < k && ord[l] == v.preds[ord[k]][j] by {
                    let p = v.preds[ord[k]][j];
                    if k == 0 {
                        assert(eligible(v, mask, i));
                        assert(mask[p]);
                    } else {
                        assert(ord[k] == tail[k - 1]);
                        if mask2[p] {
                            if !mask[p] {
                                assert(p == i);
                                assert(ord[0] == p);
                            }
                        } else {
                            let l0 = choose|l0: int| 0 <= l0 < k - 1 && tail[l0] == p;
                            assert(ord[l0 + 1] == p);
                        }
                    }
                }
            },
        }
    }
}

/// When every unemitted node gets emitted (the success case), each of them
/// appears in the emission order.
pub proof fn lemma_kahn_complete(v: DagView, mask: Seq<bool>, fuel: nat)
    requires
        v.wf(),
        mask.len() == v.n(),
        kahn_from(v, mask, fuel).len() == count_false(mask),
    ensures
        forall|i: int| 0 <= i < v.n() && !mask[i] ==> kahn_from(v, mask, fuel).contains(i),
    decreases fuel,
{
    let ord = kahn_from(v, mask, fuel);
    if fuel == 0 || pick(v, mask) is None {
        assert forall|i: int| 0 <= i < v.n() && !mask[i] implies ord.contains(i) by {
            lemma_count_false_update(mask, i);
        }
    } else {
        let i = pick(v, mask)->Some_0;
        lemma_pick_eligible(v, mask, v.n() as nat);
        let mask2 = mask.update(i, true);
        lemma_count_false_update(mask, i);
        let tail = kahn_from(v, mask2, (fuel - 1) as nat);
        lemma_kahn_complete(v, mask2, (fuel - 1) as nat);
        assert forall|x: int| 0 <= x < v.n() && !mask[x] implies ord.contains(x) by {
            if x == i {
                assert(ord[0] == x);
            } else {
                assert(!mask2[x]);
                let l0 = choose|l0: int| 0 <= l0 < tail.len() && tail[l0] == x;
                assert(ord[l0 + 1] == x);
            }
        }
    }
}

/// `dag_add` keeps the graph well-formed.
pub proof fn lemma_dag_add_wf(v: DagView, parent: Option<u64>, child: u64)
    requires
        v.wf(),
    ensures
        dag_add(v, parent, child).wf(),
{
    lemma_find_key_props(v.keys, child);
    let v1 = dag_add(v, Option::None, child);
    assert(v1.wf());
    match parent {
        Option::None => {},
        Option::Some(p) => {
            lemma_find_key_props(v1.keys, p);
            let ci = find_key(v.keys, child);
            let pi = find_key(v1.keys, p);
            if pi < v1.keys.len() {
                let w = dag_add(v, parent, child);
                assert(w.keys == v1.keys);
                assert(w.preds == v1.preds.update(ci, seq_insert_new(v1.preds[ci], pi)));
                assert(ci < v1.keys.len());
                lemma_seq_insert_new_props(v1.preds[ci], pi);
                lemma_seq_insert_new_props(v1.succs[pi], ci);
                assert(w.wf());
            }
        },
    }
}

/// A key's node number does not change when further nodes are appended.
pub proof fn lemma_find_key_prefix(keys1: Seq<u64>, keys2: Seq<u64>, key: u64)
    requires
        keys1.len() <= keys2.len(),
        forall|i: int| 0 <= i < keys1.len() ==> keys2[i] == keys1[i],
        find_key(keys1, key) < keys1.len(),
    ensures
        find_key(keys2, key) == find_key(keys1, key),
{
    lemma_find_key_props(keys1, key);
    lemma_find_key_at(keys2, key, find_key(keys1, key));
}

/// What `seq_insert_new` holds: the old entries in place, plus the new one
/// unless it was already recorded.
pub proof fn lemma_seq_insert_new_props(s: Seq<int>, x: int)
    ensures
        ({
            let r = seq_insert_new(s, x);
            &&& s.len() <= r.len() <= s.len() + 1
            &&& forall|k: int| 0 <= k < s.len() ==> r[k] == s[k]
            &&& r.contains(x)
            &&& forall|y: int| r.contains(y) ==> s.contains(y) || y == x
            &&& (forall|j: int, k: int| #![trigger s[j], s[k]] 0 <= j < k < s.len() ==> s[j] != s[k])
                ==> (forall|j: int, k: int|
                #![trigger r[j], r[k]]
                0 <= j < k < r.len() ==> r[j] != r[k])
        }),
{
    let r = seq_insert_new(s, x);
    if s.contains(x) {
    } else {
        assert(r[s.len() as int] == x);
        assert forall|y: int| r.contains(y) implies s.contains(y) || y == x by {
            let k = choose|k: int| 0 <= k < r.len() && r[k] == y;
            if k < s.len() {
                assert(s[k] == y);
            }
        }
        if forall|j: int, k: int| #![trigger s[j], s[k]] 0 <= j < k < s.len() ==> s[j] != s[k] {
            assert forall|j: int, k: int|
                #![trigger r[j], r[k]]
                0 <= j < k < r.len() implies r[j] != r[k] by {
                if k == s.len() {
                    assert(r[j] == s[j]);
                    assert(s.contains(s[j]));
                }
            }
        }
    }
}

/// `dag_add` only grows the graph: existing nodes keep their numbers and
/// keys, and every recorded edge stays recorded.
pub proof fn lemma_dag_add_monotone(v: DagView, parent: Option<u64>, child: u64)
    requires
        v.wf(),
    ensures
        ({
            let w = dag_add(v, parent, child);
            &&& v.keys.len() <= w.keys.len()
            &&& w.preds.len() == w.keys.len()
            &&& forall|i: int| 0 <= i < v.keys.len() ==> w.keys[i] == v.keys[i]
            &&& forall|i: int, x: int|
                0 <= i < v.preds.len() && #[trigger] v.preds[i].contains(x)
                    ==> #[trigger] w.preds[i].contains(x)
        }),
{
    lemma_find_key_props(v.keys, child);
    let v1 = dag_add(v, Option::None, child);
    let w = dag_add(v, parent, child);
    lemma_dag_add_wf(v, parent, child);
    match parent {
        Option::None => {},
        Option::Some(p) => {
            lemma_find_key_props(v1.keys, p);
            let ci = find_key(v.keys, child);
            let pi = find_key(v1.keys, p);
            if pi < v1.keys.len() {
                lemma_seq_insert_new_props(v1.preds[ci], pi);
                assert forall|i: int, x: int|
                    0 <= i < v.preds.len() && #[trigger] v.preds[i].contains(x) implies #[trigger] w.preds[i].contains(x) by {
                    let k = choose|k: int| 0 <= k < v.preds[i].len() && v.preds[i][k] == x;
                    assert(v1.preds[i][k] == x);
                    assert(w.preds[i][k] == x);
                }
            } else {
                assert forall|i: int, x: int|
                    0 <= i < v.preds.len() && #[trigger] v.preds[i].contains(x) implies #[trigger] w.preds[i].contains(x) by {
                    let k = choose|k: int| 0 <= k < v.preds[i].len() && v.preds[i][k] == x;
                    assert(w.preds[i][k] == x);
                }
            }
        },
    }
}

/// After `dag_add` with a present parent, the edge parent -> child is
/// recorded, at the nodes' stable numbers.
pub proof fn lemma_dag_add_edge(v: DagView, p: u64, child: u64)
    requires
        v.wf(),
        v.keys.contains(p),
    ensures
        ({
            let w = dag_add(v, Option::Some(p), child);
            let ci = find_key(w.keys, child);
            let pi = find_key(w.keys, p);
            &&& 0 <= ci < w.keys.len()
            &&& 0 <= pi < w.keys.len()
            &&& w.preds[ci].contains(pi)
        }),
{
    lemma_find_key_props(v.keys, child);
    let v1 = dag_add(v, Option::None, child);
    let w = dag_add(v, Option::Some(p), child);
    lemma_dag_add_wf(v, Option::None, child);
    let ci = find_key(v.keys, child);
    assert(v1.keys.contains(p)) by {
        let k = choose|k: int| 0 <= k < v.keys.len() && v.keys[k] == p;
        assert(v1.keys[k] == p);
    }
    lemma_find_key_props(v1.keys, p);
    let pi = find_key(v1.keys, p);
    assert(pi < v1.keys.len());
    lemma_seq_insert_new_props(v1.preds[ci], pi);
    assert(w.keys == v1.keys);
    assert(find_key(w.keys, child) == ci) by {
        if ci < v.keys.len() {
            lemma_find_key_props(v.keys, child);
            lemma_find_key_at(v1.keys, child, ci);
        } else {
            assert(v1.keys[ci] == child);
            lemma_find_key_at(v1.keys, child, ci);
        }
    }
    assert(w.preds[ci].contains(pi));
}

} // verus!
