//! The computing parts of the report generators: projecting a trip onto the
//! canonical stop order (for timetables and stopping patterns), counting
//! identical patterns, and formatting times. Turning the results into text
//! is the caller's business.
//!
//! A trip's visits are matched against the canonical order by a single
//! forward scan: each visit is looked for strictly after the previous
//! match, and the scan stops at the first visit it cannot place. Because
//! the canonical order respects every trip's own order, every visit of a
//! well-grouped trip is placed.

use vstd::prelude::*;

use crate::bitvec::{lemma_pattern_total, lemma_pattern_trans, pattern_eq, pattern_lt, BitVec};
use crate::types::StopTime;

verus! {

use vstd::string::StringExecFns;

/// The first position at or after `cursor` holding `key`.
pub open spec fn first_match(stops: Seq<u64>, key: u64, cursor: int) -> Option<int>
    decreases stops.len() - cursor,
{
    if cursor >= stops.len() {
        Option::None
    } else if stops[cursor] == key {
        Option::Some(cursor)
    } else {
        first_match(stops, key, cursor + 1)
    }
}

/// `first_match` pinned from local evidence: no occurrence from `cursor` up
/// to `i`, and one at `i` unless `i` is the length.
proof fn lemma_first_match_at(stops: Seq<u64>, key: u64, cursor: int, i: int)
    requires
        0 <= cursor <= i <= stops.len(),
        forall|k: int| cursor <= k < i ==> stops[k] != key,
        i < stops.len() ==> stops[i] == key,
    ensures
        first_match(stops, key, cursor) == if i < stops.len() {
            Option::Some(i)
        } else {
            Option::<int>::None
        },
    decreases i - cursor,
{
    if cursor < i {
        lemma_first_match_at(stops, key, cursor + 1, i);
    }
}

/// The positions at which the forward scan places each visit, in visit
/// order: position `k` of the result is where visit `k` landed. The result
/// is shorter than the visits where the scan stopped early.
pub open spec fn scan_positions(stops: Seq<u64>, visits: Seq<u64>, cursor: int) -> Seq<int>
    decreases visits.len(),
{
    if visits.len() == 0 {
        Seq::empty()
    } else {
        match first_match(stops, visits[0], cursor) {
            Option::None => Seq::empty(),
            Option::Some(i) => seq![i] + scan_positions(stops, visits.drop_first(), i + 1),
        }
    }
}

/// The stopping pattern of one trip: one bit per position of the canonical
/// stop order, set where the forward scan placed one of the trip's visits.
pub fn project_pattern(stops: &Vec<u64>, visits: &Vec<u64>) -> (bv: BitVec)
    requires
        stops@.len() <= usize::MAX - 7,
    ensures
        bv.wf(),
        bv@.len() == stops@.len(),
        forall|j: int|
            0 <= j < stops@.len() ==> bv@[j] == scan_positions(stops@, visits@, 0).contains(j),
{
    let ghost ps = scan_positions(stops@, visits@, 0);
    let mut bv = BitVec::with_size(stops.len());
    let mut cursor: usize = 0;
    let mut v: usize = 0;
    let mut stopped = false;
    let ghost mut done: Seq<int> = Seq::empty();
    let vn = visits.len();
    let sn = stops.len();
    proof {
        assert(visits@.skip(0) =~= visits@);
    }
    while v < vn && !stopped
        invariant
            sn == stops@.len() <= usize::MAX - 7,
            vn == visits@.len(),
            0 <= v <= vn,
            0 <= cursor <= sn,
            ps == scan_positions(stops@, visits@, 0),
            ps == done + scan_positions(stops@, visits@.skip(v as int), cursor as int),
            stopped ==> ps == done,
            bv.wf(),
            bv@.len() == sn,
            forall|j: int| 0 <= j < sn ==> bv@[j] == done.contains(j),
        decreases vn - v + (if stopped {
            0int
        } else {
            1int
        }),
    {
        let key = visits[v];
        proof {
            assert(visits@.skip(v as int)[0] == key);
        }
        let mut i = cursor;
        let mut found = false;
        while i < sn && !found
            invariant
                sn == stops@.len(),
                cursor <= i <= sn,
                forall|k: int| cursor <= k < i ==> stops@[k] != key,
                found ==> i < sn && stops@[i as int] == key,
            decreases sn - i + (if found {
                0int
            } else {
                1int
            }),
        {
            if stops[i] == key {
                found = true;
            } else {
                i += 1;
            }
        }
        proof {
            lemma_first_match_at(stops@, key, cursor as int, i as int);
            assert(visits@.skip(v as int).drop_first() =~= visits@.skip(v as int + 1));
        }
        if !found {
            proof {
                assert(scan_positions(stops@, visits@.skip(v as int), cursor as int)
                    =~= Seq::<int>::empty());
                assert(ps =~= done);
            }
            stopped = true;
            continue ;
        }
        let ghost old_done = done;
        bv.set(i);
        proof {
            done = done.push(i as int);
            assert(scan_positions(stops@, visits@.skip(v as int), cursor as int) == seq![i as int]
                + scan_positions(stops@, visits@.skip(v as int + 1), i as int + 1));
            assert(old_done + (seq![i as int] + scan_positions(
                stops@,
                visits@.skip(v as int + 1),
                i as int + 1,
            )) =~= done + scan_positions(stops@, visits@.skip(v as int + 1), i as int + 1));
            assert forall|j: int| 0 <= j < sn implies bv@[j] == done.contains(j) by {
                if j == i {
                    assert(done[done.len() - 1] == j);
                } else {
                    assert(done.contains(j) == old_done.contains(j)) by {
                        if old_done.contains(j) {
                            let w = choose|w: int| 0 <= w < old_done.len() && old_done[w] == j;
                            assert(done[w] == j);
                        }
                        if done.contains(j) {
                            let w = choose|w: int| 0 <= w < done.len() && done[w] == j;
                            assert(w < old_done.len());
                            assert(old_done[w] == j);
                        }
                    }
                }
            }
        }
        cursor = i + 1;
        v += 1;
    }
    proof {
        if !stopped {
            assert(visits@.skip(vn as int) =~= Seq::<u64>::empty());
            assert(scan_positions(stops@, visits@.skip(vn as int), cursor as int)
                =~= Seq::<int>::empty());
            assert(ps =~= done);
        }
    }
    bv
}

/// The arrival time of a visit, or its departure time when no arrival is
/// recorded.
pub open spec fn visit_time(st: StopTime) -> Option<u32> {
    match st.arrival_time {
        Option::Some(t) => Option::Some(t),
        Option::None => st.departure_time,
    }
}

/// One timetable column: per position of the canonical stop order, the time
/// of the visit the forward scan placed there, empty elsewhere.
pub fn fill_column(stops: &Vec<u64>, stop_times: &Vec<StopTime>) -> (r: Vec<Option<u32>>)
    ensures
        r@.len() == stops@.len(),
        ({
            let ps = scan_positions(
                stops@,
                stop_times@.map_values(|st: StopTime| st.stop),
                0,
            );
            &&& forall|k: int|
                0 <= k < ps.len() ==> r@[#[trigger] ps[k]] == visit_time(stop_times@[k])
            &&& forall|j: int| 0 <= j < stops@.len() && !ps.contains(j) ==> r@[j] is None
        }),
{
    let ghost visits = stop_times@.map_values(|st: StopTime| st.stop);
    let ghost ps = scan_positions(stops@, visits, 0);
    let sn = stops.len();
    let vn = stop_times.len();
    let mut r: Vec<Option<u32>> = Vec::new();
    while r.len() < sn
        invariant
            r@.len() <= sn,
            forall|j: int| 0 <= j < r@.len() ==> r@[j] is None,
        decreases sn - r@.len(),
    {
        r.push(None);
    }
    let mut cursor: usize = 0;
    let mut v: usize = 0;
    let mut stopped = false;
    let ghost mut done: Seq<int> = Seq::empty();
    proof {
        assert(visits.skip(0) =~= visits);
    }
    while v < vn && !stopped
        invariant
            stopped ==> ps == done && done.len() <= vn,
            sn == stops@.len(),
            vn == stop_times@.len(),
            visits == stop_times@.map_values(|st: StopTime| st.stop),
            vn == visits.len(),
            0 <= v <= vn,
            0 <= cursor <= sn,
            ps == scan_positions(stops@, visits, 0),
            ps == done + scan_positions(stops@, visits.skip(v as int), cursor as int),
            !stopped ==> done.len() == v,
            r@.len() == sn,
            forall|k: int| 0 <= k < done.len() ==> 0 <= #[trigger] done[k] < sn,
            forall|k: int| 0 <= k < done.len() ==> #[trigger] done[k] < cursor,
            forall|k: int| 0 <= k < done.len() ==> r@[#[trigger] done[k]] == visit_time(stop_times@[k]),
            forall|j: int| 0 <= j < sn && !done.contains(j) ==> r@[j] is None,
        decreases vn - v + (if stopped {
            0int
        } else {
            1int
        }),
    {
        let key = stop_times[v].stop;
        proof {
            assert(visits.skip(v as int)[0] == key);
        }
        let mut i = cursor;
        let mut found = false;
        while i < sn && !found
            invariant
                sn == stops@.len(),
                cursor <= i <= sn,
                forall|k: int| cursor <= k < i ==> stops@[k] != key,
                found ==> i < sn && stops@[i as int] == key,
            decreases sn - i + (if found {
                0int
            } else {
                1int
            }),
        {
            if stops[i] == key {
                found = true;
            } else {
                i += 1;
            }
        }
        proof {
            lemma_first_match_at(stops@, key, cursor as int, i as int);
            assert(visits.skip(v as int).drop_first() =~= visits.skip(v as int + 1));
        }
        if !found {
            proof {
                assert(scan_positions(stops@, visits.skip(v as int), cursor as int)
                    =~= Seq::<int>::empty());
                assert(ps =~= done);
            }
            stopped = true;
            continue ;
        }
        let st = stop_times[v];
        let cell = match st.arrival_time {
            Some(t) => Some(t),
            None => st.departure_time,
        };
        let ghost old_done = done;
        let ghost old_r = r@;
        r.set(i, cell);
        proof {
            done = done.push(i as int);
            assert(scan_positions(stops@, visits.skip(v as int), cursor as int) == seq![i as int]
                + scan_positions(stops@, visits.skip(v as int + 1), i as int + 1));
            assert(old_done + (seq![i as int] + scan_positions(
                stops@,
                visits.skip(v as int + 1),
                i as int + 1,
            )) =~= done + scan_positions(stops@, visits.skip(v as int + 1), i as int + 1));
            assert(done[done.len() - 1] == i as int);
            assert(done.contains(i as int));
            assert forall|j: int| 0 <= j < sn && !done.contains(j) implies r@[j] is None by {
                assert(!old_done.contains(j)) by {
                    if old_done.contains(j) {
                        let w = choose|w: int| 0 <= w < old_done.len() && old_done[w] == j;
                        assert(done[w] == j);
                    }
                }
                assert(j != i);
            }
            assert forall|k: int| 0 <= k < done.len() implies r@[#[trigger] done[k]] == visit_time(
                stop_times@[k],
            ) by {
                if k < old_done.len() {
                    assert(done[k] == old_done[k]);
                    // An earlier visit's cell sits below the cursor, while
                    // this visit landed at or above it: it is untouched.
                    assert(old_done[k] < cursor <= i);
                }
            }
        }
        cursor = i + 1;
        v += 1;
    }
    proof {
        if !stopped {
            assert(visits.skip(vn as int) =~= Seq::<u64>::empty());
            assert(scan_positions(stops@, visits.skip(vn as int), cursor as int)
                =~= Seq::<int>::empty());
            assert(ps =~= done);
        }
    }
    r
}

/// The decimal digit character for `d`.
pub open spec fn digit_char(d: int) -> char {
    if d == 0 {
        '0'
    } else if d == 1 {
        '1'
    } else if d == 2 {
        '2'
    } else if d == 3 {
        '3'
    } else if d == 4 {
        '4'
    } else if d == 5 {
        '5'
    } else if d == 6 {
        '6'
    } else if d == 7 {
        '7'
    } else if d == 8 {
        '8'
    } else {
        '9'
    }
}

/// The decimal digits of `n`, most significant first, no leading zero.
pub open spec fn dec_chars(n: nat) -> Seq<char>
    decreases n,
{
    if n < 10 {
        seq![digit_char(n as int)]
    } else {
        dec_chars(n / 10).push(digit_char((n % 10) as int))
    }
}

/// Decimal digits padded to width two, as in a clock reading.
pub open spec fn pad2(s: Seq<char>) -> Seq<char> {
    if s.len() == 1 {
        seq!['0'] + s
    } else {
        s
    }
}

/// A time of day in seconds, written `HH:MM:SS`; hours may take more than
/// two digits past the hundredth hour.
pub open spec fn time_chars(t: u32) -> Seq<char> {
    pad2(dec_chars((t / 3600) as nat)) + seq![':'] + pad2(dec_chars(((t / 60) % 60) as nat))
        + seq![':'] + pad2(dec_chars((t % 60) as nat))
}

/// What [`format_time_optional`] yields: the clock reading, or nothing for
/// an absent time.
pub open spec fn format_time_spec(t: Option<u32>) -> Seq<char> {
    match t {
        Option::None => Seq::empty(),
        Option::Some(t) => time_chars(t),
    }
}

/// The single-character string for a digit.
fn digit_str(d: u32) -> (r: &'static str)
    requires
        d < 10,
    ensures
        r@ == seq![digit_char(d as int)],
{
    proof {
        reveal_strlit("0");
        reveal_strlit("1");
        reveal_strlit("2");
        reveal_strlit("3");
        reveal_strlit("4");
        reveal_strlit("5");
        reveal_strlit("6");
        reveal_strlit("7");
        reveal_strlit("8");
        reveal_strlit("9");
    }
    let r = match d {
        0 => "0",
        1 => "1",
        2 => "2",
        3 => "3",
        4 => "4",
        5 => "5",
        6 => "6",
        7 => "7",
        8 => "8",
        _ => "9",
    };
    proof {
        assert(r@ =~= seq![digit_char(d as int)]);
    }
    r
}

/// The decimal digits of `n`.
fn dec_string(n: u32) -> (r: String)
    ensures
        r@ == dec_chars(n as nat),
    decreases n,
{
    if n < 10 {
        String::from_str(digit_str(n))
    } else {
        let mut s = dec_string(n / 10);
        s.append(digit_str(n % 10));
        proof {
            assert(dec_chars((n / 10) as nat) + seq![digit_char((n % 10) as int)] =~= dec_chars(
                (n / 10) as nat,
            ).push(digit_char((n % 10) as int)));
        }
        s
    }
}

/// The decimal digits of `n`, padded to width two.
fn two_digit(n: u32) -> (r: String)
    ensures
        r@ == pad2(dec_chars(n as nat)),
{
    if n < 10 {
        let mut s = String::from_str(digit_str(0));
        s.append(digit_str(n));
        proof {
            assert(seq![digit_char(0)] + seq![digit_char(n as int)] =~= pad2(
                dec_chars(n as nat),
            ));
        }
        s
    } else {
        let s = dec_string(n);
        proof {
            assert(dec_chars(n as nat).len() >= 2) by {
                assert(dec_chars((n / 10) as nat).len() >= 1) by {
                    if n / 10 >= 10 {
                        assert(dec_chars((n / 100) as nat).len() >= 1);
                    }
                }
            }
        }
        s
    }
}

/// A time of day as `HH:MM:SS`, or the empty string when absent. Hours,
/// minutes and seconds take two digits each; times past the hundredth hour
/// keep all their hour digits.
pub fn format_time_optional(time: Option<u32>) -> (r: String)
    ensures
        r@ == format_time_spec(time),
{
    match time {
        None => {
            let r = String::new();
            proof {
                assert(r@ =~= format_time_spec(time));
            }
            r
        },
        Some(t) => {
            proof {
                reveal_strlit(":");
            }
            let mut s = two_digit(t / 3600);
            s.append(":");
            let mins = two_digit((t / 60) % 60);
            s.append(mins.as_str());
            s.append(":");
            let secs = two_digit(t % 60);
            s.append(secs.as_str());
            proof {
                assert(s@ =~= time_chars(t));
            }
            s
        },
    }
}

/// The place of `p`'s tally among the counted patterns: the number of
/// patterns below it in the pattern order.
pub open spec fn pat_pos(acc: Seq<(BitVec, usize)>, p: BitVec) -> int
    decreases acc.len(),
{
    if acc.len() == 0 {
        0
    } else if pattern_lt(acc[0].0, p) {
        1 + pat_pos(acc.drop_first(), p)
    } else {
        0
    }
}

/// What counting one more pattern does: a seen pattern's count rises; a
/// fresh pattern's entry is spliced in at its place in the pattern order.
pub open spec fn count_one(acc: Seq<(BitVec, usize)>, p: BitVec) -> Seq<(BitVec, usize)> {
    let pos = pat_pos(acc, p);
    if pos < acc.len() && pattern_eq(acc[pos].0, p) {
        acc.update(pos, (acc[pos].0, (acc[pos].1 + 1) as usize))
    } else {
        acc.take(pos) + seq![(p, 1usize)] + acc.skip(pos)
    }
}

/// The tally of the first `i` patterns, in ascending pattern order.
pub open spec fn count_patterns_spec(patterns: Seq<BitVec>, i: int) -> Seq<(BitVec, usize)>
    decreases i,
{
    if i <= 0 {
        Seq::empty()
    } else {
        count_one(count_patterns_spec(patterns, i - 1), patterns[i - 1])
    }
}

/// Tallies in strictly ascending pattern order.
pub open spec fn counts_sorted(s: Seq<(BitVec, usize)>) -> bool {
    forall|i: int, j: int|
        #![trigger s[i], s[j]]
        0 <= i < j < s.len() ==> pattern_lt(s[i].0, s[j].0)
}

/// Every pattern before `pat_pos` is below `p`; the one at it, if any, is
/// not.
proof fn lemma_pat_pos_props(acc: Seq<(BitVec, usize)>, p: BitVec)
    ensures
        0 <= pat_pos(acc, p) <= acc.len(),
        forall|k: int| 0 <= k < pat_pos(acc, p) ==> pattern_lt((#[trigger] acc[k]).0, p),
        pat_pos(acc, p) < acc.len() ==> !pattern_lt(acc[pat_pos(acc, p)].0, p),
    decreases acc.len(),
{
    if acc.len() > 0 && pattern_lt(acc[0].0, p) {
        let d = acc.drop_first();
        lemma_pat_pos_props(d, p);
        assert(forall|k: int| 0 <= k < d.len() ==> d[k] == acc[k + 1]);
        assert forall|k: int| 0 <= k < pat_pos(acc, p) implies pattern_lt(
            (#[trigger] acc[k]).0,
            p,
        ) by {
            if k > 0 {
                assert(acc[k] == d[k - 1]);
            }
        }
    }
}

/// `pat_pos` pinned from local evidence.
proof fn lemma_pat_pos_at(acc: Seq<(BitVec, usize)>, p: BitVec, i: int)
    requires
        0 <= i <= acc.len(),
        forall|k: int| 0 <= k < i ==> pattern_lt((#[trigger] acc[k]).0, p),
        i < acc.len() ==> !pattern_lt(acc[i].0, p),
    ensures
        pat_pos(acc, p) == i,
    decreases acc.len(),
{
    if acc.len() > 0 && pattern_lt(acc[0].0, p) {
        let d = acc.drop_first();
        assert(forall|k: int| 0 <= k < d.len() ==> d[k] == acc[k + 1]);
        lemma_pat_pos_at(d, p, i - 1);
    }
}

/// Counting keeps the tallies in strictly ascending pattern order.
proof fn lemma_count_one_sorted(acc: Seq<(BitVec, usize)>, p: BitVec)
    requires
        counts_sorted(acc),
    ensures
        counts_sorted(count_one(acc, p)),
{
    lemma_pat_pos_props(acc, p);
    let pos = pat_pos(acc, p);
    let r = count_one(acc, p);
    if pos < acc.len() && pattern_eq(acc[pos].0, p) {
        assert forall|i: int, j: int| 0 <= i < j < r.len() implies pattern_lt(r[i].0, r[j].0) by {
            assert(r[i].0 == acc[i].0);
            assert(r[j].0 == acc[j].0);
        }
    } else {
        if pos < acc.len() {
            lemma_pattern_total(acc[pos].0, p);
        }
        assert forall|i: int, j: int| 0 <= i < j < r.len() implies pattern_lt(r[i].0, r[j].0) by {
            if i < pos {
                assert(r[i] == (acc.take(pos))[i]);
                assert(r[i] == acc[i]);
            } else if i == pos {
                assert(r[i] == (p, 1usize));
            } else {
                assert(r[i] == (acc.skip(pos))[i - pos - 1]);
                assert(r[i] == acc[i - 1]);
            }
            if j < pos {
                assert(r[j] == acc[j]);
            } else if j == pos {
                assert(r[j] == (p, 1usize));
            } else {
                assert(r[j] == (acc.skip(pos))[j - pos - 1]);
                assert(r[j] == acc[j - 1]);
            }
            if i == pos && j > pos {
                assert(pattern_lt(p, acc[j - 1].0)) by {
                    if j - 1 > pos {
                        lemma_pattern_trans(p, acc[pos].0, acc[j - 1].0);
                    }
                }
            }
        }
    }
}

/// The whole tally stands in ascending pattern order.
proof fn lemma_counts_sorted(patterns: Seq<BitVec>, i: int)
    ensures
        counts_sorted(count_patterns_spec(patterns, i)),
    decreases i,
{
    if i > 0 {
        lemma_counts_sorted(patterns, i - 1);
        lemma_count_one_sorted(count_patterns_spec(patterns, i - 1), patterns[i - 1]);
    }
}

/// Tallies how often each stopping pattern occurs, the tallies in ascending
/// pattern order; the counts are pinned by [`count_patterns_spec`].
pub fn count_patterns(patterns: Vec<BitVec>) -> (r: Vec<(BitVec, usize)>)
    ensures
        r@ == count_patterns_spec(patterns@, patterns@.len() as int),
        counts_sorted(r@),
{
    let ghost all = patterns@;
    let mut rest = patterns;
    let n = rest.len();
    let mut r: Vec<(BitVec, usize)> = Vec::new();
    let mut i: usize = 0;
    while i < n
        invariant
            n == all.len(),
            0 <= i <= n,
            rest@ == all.skip(i as int),
            r@ == count_patterns_spec(all, i as int),
            forall|k: int| 0 <= k < r@.len() ==> (#[trigger] r@[k]).1 <= i,
        decreases n - i,
    {
        let p = rest.remove(0);
        proof {
            assert(p == all[i as int]);
            assert(rest@ =~= all.skip(i as int + 1));
        }
        let m = r.len();
        let mut pos: usize = 0;
        let mut settled = false;
        let mut found_eq = false;
        while pos < m && !settled
            invariant
                m == r@.len(),
                0 <= pos <= m,
                forall|k: int| 0 <= k < pos ==> pattern_lt((#[trigger] r@[k]).0, p),
                settled ==> pos < m && !pattern_lt(r@[pos as int].0, p) && found_eq == pattern_eq(
                    r@[pos as int].0,
                    p,
                ),
                !settled ==> !found_eq,
            decreases m - pos + (if settled {
                0int
            } else {
                1int
            }),
        {
            let c = r[pos].0.cmp_pattern(&p);
            if c < 0 {
                pos += 1;
            } else {
                proof {
                    lemma_pattern_total(r@[pos as int].0, p);
                }
                settled = true;
                found_eq = c == 0;
            }
        }
        let ghost pre = r@;
        proof {
            lemma_pat_pos_at(pre, p, pos as int);
        }
        if found_eq {
            let mut entry = r.remove(pos);
            entry.1 = entry.1 + 1;
            r.insert(pos, entry);
            proof {
                assert(r@ =~= pre.update(
                    pos as int,
                    (pre[pos as int].0, (pre[pos as int].1 + 1) as usize),
                ));
                assert(r@ == count_one(pre, p));
            }
        } else {
            r.insert(pos, (p, 1));
            proof {
                assert(r@ =~= pre.take(pos as int) + seq![(p, 1usize)] + pre.skip(pos as int));
                assert(r@ == count_one(pre, p));
                assert forall|k: int| 0 <= k < r@.len() implies (#[trigger] r@[k]).1 <= i + 1 by {
                    if k < pos {
                        assert(r@[k] == pre[k]);
                    } else if k > pos {
                        assert(r@[k] == pre[k - 1]);
                    }
                }
            }
        }
        i += 1;
    }
    proof {
        lemma_counts_sorted(all, n as int);
    }
    r
}

} // verus!
