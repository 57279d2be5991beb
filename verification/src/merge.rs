//! Consolidation of trips into one canonical stop order per group.
//!
//! Trips are bucketed by route and direction; for each group a graph of
//! "visited immediately after" edges is built from every trip's stop
//! sequence and then linearized. A cycle in any group aborts the whole run
//! with an error naming that group.

pub mod dag;

use vstd::prelude::*;

use crate::multimap::{
    entries_sorted, lemma_mm_insert_bulk_sorted, lemma_mm_pos_at, mm_insert_bulk, mm_pos, MultiMap,
};
use crate::types::{rd_key, trip_key, Args, GroupKey, RouteDir, Trip};
use self::dag::{
    consolidated, dag_add, eligible, find_key, kahn_from, kahn_order,
    lemma_dag_add_edge, lemma_dag_add_monotone, lemma_dag_add_wf, lemma_find_key_at,
    lemma_find_key_prefix, lemma_find_key_props, lemma_kahn_complete, lemma_kahn_from_props,
    CycleError, Dag, DagView,
};

verus! {

/// The graph after walking the first `k` visits of one trip: each visit
/// adds a node for its stop on first sight, and each visit after the first
/// adds an edge from the previously visited stop.
pub open spec fn add_trip_prefix(v: DagView, stops: Seq<u64>, k: int) -> DagView
    decreases k,
{
    if k <= 0 {
        v
    } else {
        let prev = add_trip_prefix(v, stops, k - 1);
        dag_add(
            prev,
            if k == 1 {
                Option::None
            } else {
                Option::Some(stops[k - 2])
            },
            stops[k - 1],
        )
    }
}

/// The graph of the first `t` stop sequences of a group.
pub open spec fn graph_prefix(stopseqs: Seq<Seq<u64>>, t: int) -> DagView
    decreases t,
{
    if t <= 0 {
        DagView::empty()
    } else {
        add_trip_prefix(
            graph_prefix(stopseqs, t - 1),
            stopseqs[t - 1],
            stopseqs[t - 1].len() as int,
        )
    }
}

/// The graph of a whole group of stop sequences.
pub open spec fn graph_of(stopseqs: Seq<Seq<u64>>) -> DagView {
    graph_prefix(stopseqs, stopseqs.len() as int)
}

/// The canonical stop order of a group of stop sequences: the consolidation
/// of the group's graph, or nothing when the sequences are contradictory.
pub open spec fn merge_spec(stopseqs: Seq<Seq<u64>>) -> Option<Seq<u64>> {
    consolidated(graph_of(stopseqs))
}

/// The stop sequences of the trips a group's bucket selects.
pub open spec fn group_stop_seqs(trips: Seq<Trip>, group: Seq<usize>) -> Seq<Seq<u64>> {
    group.map_values(|gi: usize| trips[gi as int].stops())
}

/// Merges the stop sequences of the selected trips into one canonical stop
/// order consistent with each of them, or reports the cycle that prevents it.
/// The result is the one [`merge_spec`] names: the trips determine it.
pub fn merge_trips(trips: &Vec<Trip>, group: &Vec<usize>) -> (r: Result<Vec<u64>, CycleError>)
    requires
        forall|i: int| 0 <= i < group@.len() ==> (#[trigger] group@[i]) < trips@.len(),
    ensures
        match r {
            Ok(out) => merge_spec(group_stop_seqs(trips@, group@)) == Option::Some(out@),
            Err(e) => merge_spec(group_stop_seqs(trips@, group@)) is None && e == CycleError,
        },
{
    let ghost seqs = group_stop_seqs(trips@, group@);
    let mut graph = Dag::new();
    let gn = group.len();
    let mut t: usize = 0;
    while t < gn
        invariant
            forall|i: int| 0 <= i < group@.len() ==> (#[trigger] group@[i]) < trips@.len(),
            seqs == group_stop_seqs(trips@, group@),
            gn == group@.len(),
            0 <= t <= gn,
            graph@ == graph_prefix(seqs, t as int),
            graph@.wf(),
        decreases gn - t,
    {
        let gi = group[t];
        let trip = &trips[gi];
        proof {
            assert(seqs[t as int] == trip.stops());
        }
        let sn = trip.stop_times.len();
        let mut s: usize = 0;
        while s < sn
            invariant
                seqs == group_stop_seqs(trips@, group@),
                gn == group@.len(),
                0 <= t < gn,
                gi == group@[t as int] < trips@.len(),
                trip == &trips@[gi as int],
                seqs[t as int] == trip.stops(),
                sn == trip.stop_times@.len(),
                0 <= s <= sn,
                graph@ == add_trip_prefix(graph_prefix(seqs, t as int), seqs[t as int], s as int),
                graph@.wf(),
                s > 0 ==> graph@.keys.contains(seqs[t as int][s - 1]),
            decreases sn - s,
        {
            let ghost stops = seqs[t as int];
            let ghost pre = graph@;
            let parent = if s == 0 {
                None
            } else {
                Some(trip.stop_times[s - 1].stop)
            };
            let child = trip.stop_times[s].stop;
            proof {
                assert(child == stops[s as int]);
                assert(s > 0 ==> parent == Option::Some(stops[s as int - 1]));
                // The parent, when given, already has a node: it was the
                // previous call's child.
                lemma_find_key_props(pre.keys, child);
                let v1 = dag_add(pre, Option::None, child);
                if s > 0 {
                    let p = stops[s as int - 1];
                    let w = choose|w: int| 0 <= w < pre.keys.len() && pre.keys[w] == p;
                    assert(v1.keys[w] == p);
                    assert(v1.keys.contains(p));
                    lemma_find_key_props(v1.keys, p);
                }
                // The child has a node afterwards.
                if find_key(pre.keys, child) < pre.keys.len() {
                    assert(v1.keys.contains(child));
                } else {
                    assert(v1.keys[pre.keys.len() as int] == child);
                    assert(v1.keys.contains(child));
                }
                lemma_find_key_props(v1.keys, child);
            }
            let res = graph.insert_child(parent, child);
            proof {
                assert(res is Ok);
                let v2 = graph@;
                let v1 = dag_add(pre, Option::None, child);
                assert(v2.keys == v1.keys);
                assert(v2.keys.contains(child));
            }
            s += 1;
        }
        proof {
            assert(graph_prefix(seqs, t as int + 1) == add_trip_prefix(
                graph_prefix(seqs, t as int),
                seqs[t as int],
                seqs[t as int].len() as int,
            ));
            assert(seqs[t as int].len() == sn);
        }
        t += 1;
    }
    graph.flatten()
}

/// One graph covers another when the second keeps every node of the first,
/// under the same number and key, and every recorded edge.
pub open spec fn graph_extends(v: DagView, w: DagView) -> bool {
    &&& v.keys.len() <= w.keys.len()
    &&& w.preds.len() == w.keys.len()
    &&& forall|i: int| 0 <= i < v.keys.len() ==> w.keys[i] == v.keys[i]
    &&& forall|i: int, x: int|
        0 <= i < v.preds.len() && #[trigger] v.preds[i].contains(x)
            ==> #[trigger] w.preds[i].contains(x)
}

proof fn lemma_extends_trans(v: DagView, w: DagView, u: DagView)
    requires
        v.wf(),
        w.wf(),
        graph_extends(v, w),
        graph_extends(w, u),
    ensures
        graph_extends(v, u),
{
    assert forall|i: int, x: int|
        0 <= i < v.preds.len() && #[trigger] v.preds[i].contains(x) implies #[trigger] u.preds[i].contains(
        x,
    ) by {
        assert(w.preds[i].contains(x));
    }
}

/// Walking a trip further only grows the graph, keeps it well-formed, and
/// leaves every visited stop with a node.
proof fn lemma_add_trip_props(v: DagView, stops: Seq<u64>, k: int)
    requires
        v.wf(),
        k <= stops.len(),
    ensures
        ({
            let w = add_trip_prefix(v, stops, k);
            &&& w.wf()
            &&& graph_extends(v, w)
            &&& forall|s: int| 0 <= s < k ==> w.keys.contains(#[trigger] stops[s])
        }),
    decreases k,
{
    if k > 0 {
        lemma_add_trip_props(v, stops, k - 1);
        let prev = add_trip_prefix(v, stops, k - 1);
        let parent = if k == 1 {
            Option::<u64>::None
        } else {
            Option::Some(stops[k - 2])
        };
        let w = add_trip_prefix(v, stops, k);
        lemma_dag_add_wf(prev, parent, stops[k - 1]);
        lemma_dag_add_monotone(prev, parent, stops[k - 1]);
        lemma_extends_trans(v, prev, w);
        assert forall|s: int| 0 <= s < k implies w.keys.contains(#[trigger] stops[s]) by {
            if s < k - 1 {
                let x = choose|x: int| 0 <= x < prev.keys.len() && prev.keys[x] == stops[s];
                assert(w.keys[x] == stops[s]);
            } else {
                lemma_find_key_props(prev.keys, stops[k - 1]);
                let v1 = dag_add(prev, Option::None, stops[k - 1]);
                let ci = find_key(prev.keys, stops[k - 1]);
                if ci < prev.keys.len() {
                    assert(v1.keys[ci] == stops[k - 1]);
                } else {
                    assert(v1.keys[prev.keys.len() as int] == stops[k - 1]);
                }
                assert(forall|i: int| 0 <= i < v1.keys.len() ==> w.keys[i] == v1.keys[i]);
                let x = choose|x: int| 0 <= x < v1.keys.len() && v1.keys[x] == stops[k - 1];
                assert(w.keys[x] == stops[k - 1]);
            }
        }
    }
}

/// Walking from one point of a trip to a later one only grows the graph.
proof fn lemma_add_trip_extends(v: DagView, stops: Seq<u64>, k1: int, k2: int)
    requires
        v.wf(),
        0 <= k1 <= k2 <= stops.len(),
    ensures
        add_trip_prefix(v, stops, k1).wf(),
        graph_extends(add_trip_prefix(v, stops, k1), add_trip_prefix(v, stops, k2)),
    decreases k2 - k1,
{
    lemma_add_trip_props(v, stops, k1);
    if k1 < k2 {
        lemma_add_trip_extends(v, stops, k1, k2 - 1);
        let mid = add_trip_prefix(v, stops, k2 - 1);
        let parent = if k2 == 1 {
            Option::<u64>::None
        } else {
            Option::Some(stops[k2 - 2])
        };
        lemma_add_trip_props(v, stops, k2 - 1);
        lemma_dag_add_wf(mid, parent, stops[k2 - 1]);
        lemma_dag_add_monotone(mid, parent, stops[k2 - 1]);
        lemma_extends_trans(add_trip_prefix(v, stops, k1), mid, add_trip_prefix(v, stops, k2));
    }
}

/// Every prefix of the group's graph construction is well-formed, and later
/// stages only grow earlier ones.
proof fn lemma_graph_prefix_props(stopseqs: Seq<Seq<u64>>, t1: int, t2: int)
    requires
        0 <= t1 <= t2 <= stopseqs.len(),
    ensures
        graph_prefix(stopseqs, t1).wf(),
        graph_prefix(stopseqs, t2).wf(),
        graph_extends(graph_prefix(stopseqs, t1), graph_prefix(stopseqs, t2)),
    decreases t2 - t1, t2,
{
    if t1 == t2 {
        if t1 == 0 {
        } else {
            lemma_graph_prefix_props(stopseqs, t1 - 1, t1 - 1);
            lemma_add_trip_props(
                graph_prefix(stopseqs, t1 - 1),
                stopseqs[t1 - 1],
                stopseqs[t1 - 1].len() as int,
            );
        }
    } else {
        lemma_graph_prefix_props(stopseqs, t1, t2 - 1);
        let mid = graph_prefix(stopseqs, t2 - 1);
        lemma_add_trip_props(mid, stopseqs[t2 - 1], stopseqs[t2 - 1].len() as int);
        lemma_extends_trans(graph_prefix(stopseqs, t1), mid, graph_prefix(stopseqs, t2));
    }
}

/// Every stop visited by any of the group's trips has a node in the group's
/// graph, and every consecutive pair of visits has its edge, recorded at
/// the nodes' stable numbers.
proof fn lemma_graph_edge(stopseqs: Seq<Seq<u64>>, t: int, s: int)
    requires
        0 <= t < stopseqs.len(),
        0 <= s < stopseqs[t].len(),
    ensures
        ({
            let g = graph_of(stopseqs);
            let yi = find_key(g.keys, stopseqs[t][s]);
            &&& g.wf()
            &&& 0 <= yi < g.keys.len()
            &&& s > 0 ==> {
                let xi = find_key(g.keys, stopseqs[t][s - 1]);
                &&& 0 <= xi < g.keys.len()
                &&& g.preds[yi].contains(xi)
            }
        }),
{
    let g = graph_of(stopseqs);
    let gt = graph_prefix(stopseqs, t);
    lemma_graph_prefix_props(stopseqs, 0, t);
    let stops = stopseqs[t];
    let prev = add_trip_prefix(gt, stops, s);
    let mid = add_trip_prefix(gt, stops, s + 1);
    lemma_add_trip_props(gt, stops, s);
    lemma_add_trip_props(gt, stops, s + 1);
    lemma_dag_add_wf(
        prev,
        if s == 0 {
            Option::<u64>::None
        } else {
            Option::Some(stops[s - 1])
        },
        stops[s],
    );
    // `mid` holds the node for the visit and, past the first visit, its edge.
    lemma_find_key_props(prev.keys, stops[s]);
    let v1 = dag_add(prev, Option::None, stops[s]);
    assert(v1.keys.contains(stops[s])) by {
        let ci = find_key(prev.keys, stops[s]);
        if ci < prev.keys.len() {
            assert(v1.keys[ci] == stops[s]);
        } else {
            assert(v1.keys[prev.keys.len() as int] == stops[s]);
        }
    }
    if s > 0 {
        lemma_dag_add_edge(prev, stops[s - 1], stops[s]);
    }
    lemma_find_key_props(mid.keys, stops[s]);
    assert(mid.keys.contains(stops[s])) by {
        if s > 0 {
        } else {
            assert(mid == v1);
        }
    }
    // The rest of the construction only grows `mid`.
    lemma_add_trip_extends(gt, stops, s + 1, stops.len() as int);
    let gt1 = graph_prefix(stopseqs, t + 1);
    lemma_graph_prefix_props(stopseqs, t + 1, stopseqs.len() as int);
    assert(gt1 == add_trip_prefix(gt, stops, stops.len() as int));
    lemma_extends_trans(mid, gt1, g);
    // Node numbers in `mid` persist into `g`.
    let yi = find_key(mid.keys, stops[s]);
    lemma_find_key_prefix(mid.keys, g.keys, stops[s]);
    assert(find_key(g.keys, stops[s]) == yi);
    if s > 0 {
        let xi = find_key(mid.keys, stops[s - 1]);
        assert(mid.preds[yi].contains(xi));
        lemma_find_key_prefix(mid.keys, g.keys, stops[s - 1]);
        assert(g.preds[yi].contains(xi));
    }
}

/// On success the emission order visits every node, each exactly once; a
/// node's first occurrence in the output is its emission position.
proof fn lemma_out_position(g: DagView, k: int)
    requires
        g.wf(),
        kahn_order(g).len() == g.n(),
        0 <= k < kahn_order(g).len(),
    ensures
        find_key(kahn_order(g).map_values(|i: int| g.keys[i]), g.keys[kahn_order(g)[k]]) == k,
{
    let init = Seq::new(g.n() as nat, |i: int| false);
    lemma_kahn_from_props(g, init, g.n() as nat);
    let ord = kahn_order(g);
    assert(ord == kahn_from(g, init, g.n() as nat));
    let out = ord.map_values(|i: int| g.keys[i]);
    let x = g.keys[ord[k]];
    assert forall|l: int| 0 <= l < k implies out[l] != x by {
        assert(ord[l] != ord[k]);
        assert(out[l] == g.keys[ord[l]]);
    }
    assert(out[k] == x);
    lemma_find_key_at(out, x, k);
}

/// On success, a recorded edge forces the parent's stop to precede the
/// child's stop in the output.
proof fn lemma_edge_before(g: DagView, nx: int, ny: int)
    requires
        g.wf(),
        kahn_order(g).len() == g.n(),
        0 <= nx < g.n(),
        0 <= ny < g.n(),
        g.preds[ny].contains(nx),
    ensures
        ({
            let out = kahn_order(g).map_values(|i: int| g.keys[i]);
            &&& 0 <= find_key(out, g.keys[nx]) < out.len()
            &&& 0 <= find_key(out, g.keys[ny]) < out.len()
            &&& find_key(out, g.keys[nx]) < find_key(out, g.keys[ny])
        }),
{
    let init = Seq::new(g.n() as nat, |i: int| false);
    let ord = kahn_order(g);
    assert(ord == kahn_from(g, init, g.n() as nat));
    let out = ord.map_values(|i: int| g.keys[i]);
    lemma_kahn_from_props(g, init, g.n() as nat);
    assert(dag::count_false(init) == g.n()) by {
        dag::lemma_count_false_init(init);
    }
    lemma_kahn_complete(g, init, g.n() as nat);
    assert(!init[ny]);
    assert(kahn_from(g, init, g.n() as nat).contains(ny));
    assert(ord.contains(ny));
    let ky = choose|ky: int| 0 <= ky < ord.len() && ord[ky] == ny;
    let j = choose|j: int| 0 <= j < g.preds[ny].len() && g.preds[ny][j] == nx;
    assert(g.preds[ord[ky]][j] == nx);
    assert(init[g.preds[ord[ky]][j]] || exists|l: int|
        0 <= l < ky && ord[l] == g.preds[ord[ky]][j]);
    let kx = choose|kx: int| 0 <= kx < ky && ord[kx] == nx;
    lemma_out_position(g, kx);
    lemma_out_position(g, ky);
}

/// Order consistency: whenever one of a group's trips visits stop `x`
/// strictly before stop `y`, a successful consolidation of the group places
/// `x` strictly before `y` in the output. Positions in the output are first
/// occurrences, and both stops do occur in it.
pub proof fn lemma_order_consistency(stopseqs: Seq<Seq<u64>>, out: Seq<u64>, t: int, a: int, b: int)
    requires
        merge_spec(stopseqs) == Option::Some(out),
        0 <= t < stopseqs.len(),
        0 <= a < b < stopseqs[t].len(),
    ensures
        0 <= find_key(out, stopseqs[t][a]) < out.len(),
        0 <= find_key(out, stopseqs[t][b]) < out.len(),
        find_key(out, stopseqs[t][a]) < find_key(out, stopseqs[t][b]),
    decreases b - a,
{
    let g = graph_of(stopseqs);
    lemma_graph_edge(stopseqs, t, b);
    let ny = find_key(g.keys, stopseqs[t][b]);
    let nx = find_key(g.keys, stopseqs[t][b - 1]);
    lemma_find_key_props(g.keys, stopseqs[t][b]);
    lemma_find_key_props(g.keys, stopseqs[t][b - 1]);
    lemma_edge_before(g, nx, ny);
    assert(g.keys[nx] == stopseqs[t][b - 1]);
    assert(g.keys[ny] == stopseqs[t][b]);
    if a < b - 1 {
        lemma_order_consistency(stopseqs, out, t, a, b - 1);
    }
}

/// A successful consolidation lists each stop at most once: positions in
/// the canonical order are unique.
pub proof fn lemma_output_distinct(stopseqs: Seq<Seq<u64>>, out: Seq<u64>)
    requires
        merge_spec(stopseqs) == Option::Some(out),
    ensures
        forall|i: int, j: int|
            #![trigger out[i], out[j]]
            0 <= i < j < out.len() ==> out[i] != out[j],
{
    let g = graph_of(stopseqs);
    lemma_graph_prefix_props(stopseqs, 0, stopseqs.len() as int);
    let init = Seq::new(g.n() as nat, |i: int| false);
    lemma_kahn_from_props(g, init, g.n() as nat);
    let ord = kahn_order(g);
    assert(ord == kahn_from(g, init, g.n() as nat));
    assert forall|i: int, j: int|
        #![trigger out[i], out[j]]
        0 <= i < j < out.len() implies out[i] != out[j] by {
        assert(ord[i] != ord[j]);
        assert(out[i] == g.keys[ord[i]]);
        assert(out[j] == g.keys[ord[j]]);
    }
}

/// A successful consolidation is complete: every stop any of the group's
/// trips visits appears in the canonical order.
pub proof fn lemma_output_complete(stopseqs: Seq<Seq<u64>>, out: Seq<u64>, t: int, s: int)
    requires
        merge_spec(stopseqs) == Option::Some(out),
        0 <= t < stopseqs.len(),
        0 <= s < stopseqs[t].len(),
    ensures
        0 <= find_key(out, stopseqs[t][s]) < out.len(),
        out[find_key(out, stopseqs[t][s])] == stopseqs[t][s],
{
    let g = graph_of(stopseqs);
    let x = stopseqs[t][s];
    lemma_graph_edge(stopseqs, t, s);
    let ny = find_key(g.keys, x);
    lemma_find_key_props(g.keys, x);
    let init = Seq::new(g.n() as nat, |i: int| false);
    let ord = kahn_order(g);
    assert(ord == kahn_from(g, init, g.n() as nat));
    assert(dag::count_false(init) == g.n()) by {
        dag::lemma_count_false_init(init);
    }
    lemma_kahn_complete(g, init, g.n() as nat);
    assert(!init[ny]);
    assert(kahn_from(g, init, g.n() as nat).contains(ny));
    assert(ord.contains(ny));
    let ky = choose|ky: int| 0 <= ky < ord.len() && ord[ky] == ny;
    lemma_out_position(g, ky);
    assert(out[ky] == g.keys[ny]);
}

/// The graph of a single trip without repeated stops: one node per visit,
/// in visit order, each visit after the first recording its predecessor.
proof fn lemma_path_graph(stops: Seq<u64>, k: int)
    requires
        forall|a: int, b: int|
            #![trigger stops[a], stops[b]]
            0 <= a < b < stops.len() ==> stops[a] != stops[b],
        0 <= k <= stops.len(),
    ensures
        ({
            let g = add_trip_prefix(DagView::empty(), stops, k);
            &&& g.keys == stops.take(k)
            &&& g.preds.len() == k
            &&& forall|i: int|
                0 <= i < k ==> g.preds[i] == if i == 0 {
                    Seq::<int>::empty()
                } else {
                    seq![i - 1]
                }
        }),
    decreases k,
{
    let g = add_trip_prefix(DagView::empty(), stops, k);
    if k == 0 {
        assert(g.keys =~= stops.take(0));
    } else {
        lemma_path_graph(stops, k - 1);
        let prev = add_trip_prefix(DagView::empty(), stops, k - 1);
        assert(prev.keys == stops.take(k - 1));
        // The visit's stop is new: it differs from every earlier stop.
        assert(find_key(prev.keys, stops[k - 1]) == k - 1) by {
            lemma_find_key_at(prev.keys, stops[k - 1], k - 1);
        }
        let v1 = dag_add(prev, Option::None, stops[k - 1]);
        assert(v1.keys == prev.keys.push(stops[k - 1]));
        assert(v1.keys =~= stops.take(k));
        if k == 1 {
            assert(g == v1);
            assert(g.preds[0] == Seq::<int>::empty());
        } else {
            assert(find_key(v1.keys, stops[k - 2]) == k - 2) by {
                lemma_find_key_at(v1.keys, stops[k - 2], k - 2);
            }
            assert(v1.preds[k - 1] == Seq::<int>::empty());
            assert(dag::seq_insert_new(v1.preds[k - 1], k - 2) =~= seq![k - 2]);
            assert(g.preds =~= v1.preds.update(k - 1, seq![k - 2]));
            assert forall|i: int|
                0 <= i < k implies g.preds[i] == if i == 0 {
                Seq::<int>::empty()
            } else {
                seq![i - 1]
            } by {
                if i < k - 1 {
                    assert(g.preds[i] == prev.preds[i]);
                }
            }
        }
    }
}

/// On the path graph, consolidation emits the nodes in visit order: at each
/// step the single unemitted node whose predecessor is emitted is the head.
proof fn lemma_kahn_path(g: DagView, j: int)
    requires
        g.wf(),
        forall|i: int|
            0 <= i < g.n() ==> g.preds[i] == if i == 0 {
                Seq::<int>::empty()
            } else {
                seq![i - 1]
            },
        0 <= j <= g.n(),
    ensures
        kahn_from(g, Seq::new(g.n() as nat, |i: int| i < j), (g.n() - j) as nat) == Seq::new(
            (g.n() - j) as nat,
            |i: int| j + i,
        ),
    decreases g.n() - j,
{
    let n = g.n();
    let mask = Seq::new(n as nat, |i: int| i < j);
    let fuel = (n - j) as nat;
    if j == n {
        assert(kahn_from(g, mask, 0) =~= Seq::new(0, |i: int| j + i));
    } else {
        assert(eligible(g, mask, j));
        lemma_pick_path(g, mask, j, n as nat);
        assert(dag::pick(g, mask) == Option::Some(j));
        assert(mask.update(j, true) =~= Seq::new(n as nat, |i: int| i < j + 1));
        lemma_kahn_path(g, j + 1);
        assert(kahn_from(g, mask, fuel) == seq![j] + kahn_from(
            g,
            Seq::new(n as nat, |i: int| i < j + 1),
            (n - j - 1) as nat,
        ));
        assert(seq![j] + Seq::new((n - j - 1) as nat, |i: int| j + 1 + i) =~= Seq::new(
            (n - j) as nat,
            |i: int| j + i,
        ));
    }
}

/// On the path graph with the first `j` nodes emitted, node `j` is the only
/// head at or below any scan start above it.
proof fn lemma_pick_path(g: DagView, mask: Seq<bool>, j: int, upto: nat)
    requires
        g.wf(),
        forall|i: int|
            0 <= i < g.n() ==> g.preds[i] == if i == 0 {
                Seq::<int>::empty()
            } else {
                seq![i - 1]
            },
        0 <= j < g.n(),
        mask == Seq::new(g.n() as nat, |i: int| i < j),
        j < upto <= g.n(),
    ensures
        dag::pick_from(g, mask, upto) == Option::Some(j),
    decreases upto,
{
    if upto - 1 == j {
        assert(eligible(g, mask, j));
    } else {
        assert(!eligible(g, mask, upto - 1)) by {
            assert(g.preds[upto - 1][0] == upto - 2);
            assert(!mask[upto - 2]);
        }
        lemma_pick_path(g, mask, j, (upto - 1) as nat);
    }
}

/// Single-trip identity: a group holding exactly one trip, with no stop
/// visited twice, consolidates to exactly that trip's stop sequence.
pub proof fn lemma_single_trip_identity(stops: Seq<u64>)
    requires
        forall|a: int, b: int|
            #![trigger stops[a], stops[b]]
            0 <= a < b < stops.len() ==> stops[a] != stops[b],
    ensures
        merge_spec(seq![stops]) == Option::Some(stops),
{
    let seqs = seq![stops];
    let g = graph_of(seqs);
    assert(graph_prefix(seqs, 0) == DagView::empty());
    assert(g == add_trip_prefix(DagView::empty(), stops, stops.len() as int));
    assert(DagView::empty().wf());
    lemma_add_trip_props(DagView::empty(), stops, stops.len() as int);
    lemma_path_graph(stops, stops.len() as int);
    assert(g.keys =~= stops);
    let n = g.n();
    assert(Seq::new(n as nat, |i: int| false) =~= Seq::new(n as nat, |i: int| i < 0));
    lemma_kahn_path(g, 0);
    let ord = kahn_order(g);
    assert(ord == Seq::new(n as nat, |i: int| i));
    assert(ord.len() == n);
    assert(ord.map_values(|i: int| g.keys[i]) =~= stops);
}

/// Determinism: the outcome of consolidation is a function of the trips
/// and the grouping options alone, so two runs on the same input agree, in
/// their group keys, their stop orders, and any error reported.
pub proof fn lemma_consolidation_deterministic(
    trips: Seq<Trip>,
    args: Args,
    r1: Result<Seq<(GroupKey, Seq<u64>)>, GroupKey>,
    r2: Result<Seq<(GroupKey, Seq<u64>)>, GroupKey>,
)
    requires
        r1 == stops_by_route_spec(trips, args),
        r2 == stops_by_route_spec(trips, args),
    ensures
        r1 == r2,
{
}

/// The grouping of the first `i` trips: each trip's index appended to the
/// bucket of its key, buckets in ascending key order.
pub open spec fn group_prefix(trips: Seq<Trip>, args: Args, i: int) -> Seq<(GroupKey, Seq<usize>)>
    decreases i,
{
    if i <= 0 {
        Seq::empty()
    } else {
        mm_insert_bulk(
            group_prefix(trips, args, i - 1),
            trip_key(trips[i - 1], args),
            seq![(i - 1) as usize],
        )
    }
}

/// The grouping of all trips by route and direction.
pub open spec fn trip_groups(trips: Seq<Trip>, args: Args) -> Seq<(GroupKey, Seq<usize>)> {
    group_prefix(trips, args, trips.len() as int)
}

/// The consolidation of every group, in ascending key order, stopping at
/// the first group whose trips impose contradictory orders.
pub open spec fn consolidate_groups(
    trips: Seq<Trip>,
    groups: Seq<(GroupKey, Seq<usize>)>,
) -> Result<Seq<(GroupKey, Seq<u64>)>, GroupKey>
    decreases groups.len(),
{
    if groups.len() == 0 {
        Result::Ok(Seq::empty())
    } else {
        match merge_spec(group_stop_seqs(trips, groups[0].1)) {
            Option::None => Result::Err(groups[0].0),
            Option::Some(out) => match consolidate_groups(trips, groups.drop_first()) {
                Result::Ok(rest) => Result::Ok(seq![(groups[0].0, out)] + rest),
                Result::Err(e) => Result::Err(e),
            },
        }
    }
}

/// What consolidating a collection of trips yields: per group, in ascending
/// key order, the canonical stop order — or the key of the first group in
/// that order whose trips are contradictory.
pub open spec fn stops_by_route_spec(trips: Seq<Trip>, args: Args) -> Result<
    Seq<(GroupKey, Seq<u64>)>,
    GroupKey,
> {
    consolidate_groups(trips, trip_groups(trips, args))
}

/// A group whose trips impose mutually contradictory stop orders, named by
/// its route and direction; the whole run is aborted.
#[derive(Debug)]
pub struct ConsolidateError {
    pub route: RouteDir,
}

/// The grouping of any trips, in any order, has its keys strictly ascending.
proof fn lemma_group_prefix_sorted(trips: Seq<Trip>, args: Args, i: int)
    ensures
        entries_sorted(group_prefix(trips, args, i)),
    decreases i,
{
    if i > 0 {
        lemma_group_prefix_sorted(trips, args, i - 1);
        lemma_mm_insert_bulk_sorted(
            group_prefix(trips, args, i - 1),
            trip_key(trips[i - 1], args),
            seq![(i - 1) as usize],
        );
    }
}

/// Consolidation keeps each group's key at its place.
proof fn lemma_consolidate_keys(trips: Seq<Trip>, groups: Seq<(GroupKey, Seq<usize>)>)
    ensures
        consolidate_groups(trips, groups) matches Result::Ok(gs) ==> gs.len() == groups.len()
            && forall|i: int| 0 <= i < gs.len() ==> (#[trigger] gs[i]).0 == groups[i].0,
    decreases groups.len(),
{
    if groups.len() > 0 {
        lemma_consolidate_keys(trips, groups.drop_first());
        match merge_spec(group_stop_seqs(trips, groups[0].1)) {
            Option::None => {},
            Option::Some(out) => {
                match consolidate_groups(trips, groups.drop_first()) {
                    Result::Ok(rest) => {
                        let gs = seq![(groups[0].0, out)] + rest;
                        assert forall|i: int| 0 <= i < gs.len() implies (#[trigger] gs[i]).0
                            == groups[i].0 by {
                            if i > 0 {
                                assert(gs[i] == rest[i - 1]);
                                assert(groups.drop_first()[i - 1] == groups[i]);
                            }
                        }
                    },
                    Result::Err(_) => {},
                }
            },
        }
    }
}

/// Grouping order: however the input trips are ordered, the groups of a
/// successful consolidation stand in strictly ascending (route id,
/// direction) order.
pub proof fn lemma_grouping_order(trips: Seq<Trip>, args: Args, gs: Seq<(GroupKey, Seq<u64>)>)
    requires
        stops_by_route_spec(trips, args) == Result::<Seq<(GroupKey, Seq<u64>)>, GroupKey>::Ok(gs),
    ensures
        forall|i: int, j: int|
            #![trigger gs[i], gs[j]]
            0 <= i < j < gs.len() ==> crate::types::key_lt(gs[i].0, gs[j].0),
{
    let groups = trip_groups(trips, args);
    lemma_group_prefix_sorted(trips, args, trips.len() as int);
    lemma_consolidate_keys(trips, groups);
    assert forall|i: int, j: int|
        #![trigger gs[i], gs[j]]
        0 <= i < j < gs.len() implies crate::types::key_lt(gs[i].0, gs[j].0) by {
        assert(gs[i].0 == groups[i].0);
        assert(gs[j].0 == groups[j].0);
        assert(crate::types::key_lt(groups[i].0, groups[j].0));
    }
}

/// Every trip index in the grouping's buckets stays below `bound` when the
/// inserted indices do.
proof fn lemma_mm_insert_bounds(
    s: Seq<(GroupKey, Seq<usize>)>,
    k: GroupKey,
    vs: Seq<usize>,
    bound: int,
)
    requires
        forall|a: int, b: int|
            0 <= a < s.len() && 0 <= b < s[a].1.len() ==> (#[trigger] s[a].1[b]) < bound,
        forall|b: int| 0 <= b < vs.len() ==> (#[trigger] vs[b]) < bound,
    ensures
        forall|a: int, b: int|
            0 <= a < mm_insert_bulk(s, k, vs).len() && 0 <= b < mm_insert_bulk(s, k, vs)[a].1.len()
                ==> (#[trigger] mm_insert_bulk(s, k, vs)[a].1[b]) < bound,
{
    let r = mm_insert_bulk(s, k, vs);
    let pos = mm_pos(s, k);
    lemma_mm_pos_bound(s, k);
    assert forall|a: int, b: int|
        0 <= a < r.len() && 0 <= b < r[a].1.len() implies (#[trigger] r[a].1[b]) < bound by {
        if pos < s.len() && s[pos].0 == k {
            if a == pos {
                assert(r[a].1 == s[pos].1 + vs);
                if b < s[pos].1.len() {
                    assert(r[a].1[b] == s[pos].1[b]);
                } else {
                    assert(r[a].1[b] == vs[b - s[pos].1.len()]);
                }
            } else {
                assert(r[a] == s[a]);
            }
        } else {
            if a < pos {
                assert(r[a] == (s.take(pos))[a]);
                assert(r[a] == s[a]);
            } else if a == pos {
                assert(r[a] == (k, vs));
            } else {
                assert(r[a] == (s.skip(pos))[a - pos - 1]);
                assert(r[a] == s[a - 1]);
            }
        }
    }
}

/// `mm_pos` stays within the bucket list.
proof fn lemma_mm_pos_bound(s: Seq<(GroupKey, Seq<usize>)>, k: GroupKey)
    ensures
        0 <= mm_pos(s, k) <= s.len(),
    decreases s.len(),
{
    if s.len() > 0 && crate::types::key_lt(s[0].0, k) {
        lemma_mm_pos_bound(s.drop_first(), k);
    }
}

/// Groups all trips by route and direction and consolidates each group's
/// stop sequences into one canonical stop order per group, the groups in
/// ascending (route id, direction) order. The first group, in that order,
/// whose trips impose contradictory stop orders aborts the run, named in
/// the error; no partial output is returned.
pub fn stops_by_route(trips: &Vec<Trip>, args: &Args) -> (r: Result<
    MultiMap<u64>,
    ConsolidateError,
>)
    ensures
        match r {
            Ok(mm) => {
                &&& stops_by_route_spec(trips@, *args) matches Result::Ok(gs) && mm.entries() == gs
                &&& mm.wf()
            },
            Err(e) => stops_by_route_spec(trips@, *args) matches Result::Err(k) && rd_key(e.route)
                == k,
        },
{
    let n = trips.len();
    let mut groups: MultiMap<usize> = MultiMap::new();
    let mut i: usize = 0;
    while i < n
        invariant
            n == trips@.len(),
            0 <= i <= n,
            groups.wf(),
            groups.entries() == group_prefix(trips@, *args, i as int),
            forall|a: int, b: int|
                0 <= a < groups.entries().len() && 0 <= b < groups.entries()[a].1.len()
                    ==> (#[trigger] groups.entries()[a].1[b]) < i,
        decreases n - i,
    {
        let key = RouteDir::from_trip(&trips[i], args);
        proof {
            lemma_mm_insert_bounds(groups.entries(), rd_key(key), seq![i], i as int + 1);
        }
        groups.insert(key, i);
        i += 1;
    }
    let ghost gs = trip_groups(trips@, *args);
    proof {
        assert(groups.entries() == gs);
    }
    let mut result: MultiMap<u64> = MultiMap::new();
    proof {
        assert(gs.skip(0) =~= gs);
        match consolidate_groups(trips@, gs) {
            Result::Ok(rest) => {
                assert(result.entries() + rest =~= rest);
            },
            Result::Err(_) => {},
        }
    }
    let gn = groups.map.len();
    let mut g: usize = 0;
    while g < gn
        invariant
            n == trips@.len(),
            gs == trip_groups(trips@, *args),
            groups.wf(),
            groups.entries() == gs,
            gn == groups.map@.len(),
            0 <= g <= gn,
            forall|a: int, b: int|
                0 <= a < gs.len() && 0 <= b < gs[a].1.len() ==> (#[trigger] gs[a].1[b]) < n,
            result.wf(),
            result.entries().len() == g,
            forall|a: int| 0 <= a < g ==> (#[trigger] result.entries()[a].0) == gs[a].0,
            consolidate_groups(trips@, gs) == (match consolidate_groups(
                trips@,
                gs.skip(g as int),
            ) {
                Result::Ok(rest) => Result::Ok(result.entries() + rest),
                Result::Err(e) => Result::<Seq<(GroupKey, Seq<u64>)>, GroupKey>::Err(e),
            }),
        decreases gn - g,
    {
        let key = groups.map[g].0.duplicate();
        let bucket = &groups.map[g].1;
        proof {
            assert(gs[g as int] == (rd_key(groups.map@[g as int].0), groups.map@[g as int].1@));
            assert(bucket@ == gs[g as int].1);
            assert(rd_key(key) == gs[g as int].0);
            assert(gs.skip(g as int)[0] == gs[g as int]);
        }
        match merge_trips(trips, bucket) {
            Ok(stops) => {
                let ghost pre = result.entries();
                proof {
                    // New key above every key stored so far: append at the end.
                    assert forall|a: int| 0 <= a < pre.len() implies crate::types::key_lt(
                        #[trigger] pre[a].0,
                        rd_key(key),
                    ) by {
                        assert(pre[a].0 == gs[a].0);
                    }
                    lemma_mm_pos_at(pre, rd_key(key), pre.len() as int);
                }
                let ghost out = stops@;
                result.insert_bulk(key, stops);
                proof {
                    assert(result.entries() =~= pre.push((gs[g as int].0, out))) by {
                        assert(pre.take(pre.len() as int) =~= pre);
                        assert(pre.skip(pre.len() as int) =~= Seq::<(GroupKey, Seq<u64>)>::empty());
                    }
                    let sg = gs.skip(g as int);
                    assert(sg.drop_first() =~= gs.skip(g as int + 1));
                    assert(merge_spec(group_stop_seqs(trips@, sg[0].1)) == Option::Some(out));
                    match consolidate_groups(trips@, gs.skip(g as int + 1)) {
                        Result::Ok(rest) => {
                            assert(consolidate_groups(trips@, sg) == Result::<
                                Seq<(GroupKey, Seq<u64>)>,
                                GroupKey,
                            >::Ok(seq![(sg[0].0, out)] + rest));
                            assert(pre + (seq![(sg[0].0, out)] + rest) =~= result.entries() + rest);
                        },
                        Result::Err(_) => {},
                    }
                }
                g += 1;
            },
            Err(_) => {
                proof {
                    assert(consolidate_groups(trips@, gs.skip(g as int)) == Result::<
                        Seq<(GroupKey, Seq<u64>)>,
                        GroupKey,
                    >::Err(gs[g as int].0));
                }
                return Err(ConsolidateError { route: key });
            },
        }
    }
    proof {
        assert(gs.skip(gn as int) =~= Seq::<(GroupKey, Seq<usize>)>::empty());
        assert(result.entries() + Seq::<(GroupKey, Seq<u64>)>::empty() =~= result.entries());
    }
    Ok(result)
}

} // verus!
