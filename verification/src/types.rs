//! Keys and records of the schedule model.
//!
//! A trip carries its route id, optional direction information and an ordered
//! sequence of stop visits. Stops are identified by stable keys (one key per
//! distinct stop record, assigned by the data source in order of first
//! encounter); the consolidation engine never needs more of a stop than its
//! key. Trips are grouped by [`RouteDir`], whose total order (route id bytes
//! lexicographically, then direction ordinal) fixes the order in which groups
//! are reported.

use vstd::prelude::*;

verus! {

use vstd::string::StringSliceAdditionalSpecFns;

/// Direction of travel of a trip, as the schedule records it.
#[derive(Clone, Copy, Debug, PartialEq, Eq, Structural)]
pub enum DirectionType {
    Outbound,
    Inbound,
}

/// Direction of a route/direction group: an explicit direction, or none.
#[derive(Clone, Copy, Debug, PartialEq, Eq, Structural)]
pub enum Direction {
    Unspecified,
    Inbound,
    Outbound,
}

impl Direction {
    /// Position of this variant in the total order on directions.
    pub open spec fn ordinal(self) -> int {
        match self {
            Direction::Unspecified => 0,
            Direction::Inbound => 1,
            Direction::Outbound => 2,
        }
    }

    /// Executable ordinal, equal to [`Direction::ordinal`].
    pub fn ordinal_u8(self) -> (n: u8)
        ensures
            n as int == self.ordinal(),
    {
        match self {
            Direction::Unspecified => 0,
            Direction::Inbound => 1,
            Direction::Outbound => 2,
        }
    }
}

/// A stop visit within a trip: the visited stop's key and the optional
/// arrival and departure times, in seconds since midnight.
#[derive(Clone, Copy, Debug, PartialEq, Eq, Structural)]
pub struct StopTime {
    pub stop: u64,
    pub arrival_time: Option<u32>,
    pub departure_time: Option<u32>,
}

/// A trip: its route, direction information, and ordered stop visits.
#[derive(Debug)]
pub struct Trip {
    pub route_id: String,
    pub direction_id: Option<DirectionType>,
    pub trip_short_name: Option<String>,
    pub stop_times: Vec<StopTime>,
}

impl Trip {
    /// The keys of the visited stops, in visit order.
    pub open spec fn stops(self) -> Seq<u64> {
        self.stop_times@.map_values(|st: StopTime| st.stop)
    }
}

/// Options that govern grouping.
#[derive(Clone, Copy, Debug, Default)]
pub struct Args {
    /// Group all routes together: every trip falls under a `None` route id.
    pub merge_routes: bool,
    /// Derive the direction from the parity of the numeric trip short name
    /// instead of the explicit direction field.
    pub direction_from_trip_name: bool,
}

/// The UTF-8 bytes of a string, the basis of the order on route ids.
pub open spec fn str_bytes(s: String) -> Seq<u8> {
    vstd::utf8::encode_utf8(s@)
}

/// Whether a byte is an ASCII decimal digit.
pub open spec fn is_digit(b: u8) -> bool {
    48 <= b <= 57
}

/// Whether every byte of the sequence is an ASCII decimal digit.
pub open spec fn all_digits(s: Seq<u8>) -> bool {
    forall|i: int| 0 <= i < s.len() ==> is_digit(s[i])
}

/// The number denoted by a sequence of decimal digits.
pub open spec fn digits_val(s: Seq<u8>) -> nat
    decreases s.len(),
{
    if s.len() == 0 {
        0
    } else {
        digits_val(s.drop_last()) * 10 + ((s.last() - 48) as nat)
    }
}

/// The digits of a number written with an optional leading plus sign: the
/// sign, when present, is dropped.
pub open spec fn sign_stripped(s: Seq<u8>) -> Seq<u8> {
    if s.len() > 0 && s[0] == 43 {
        s.drop_first()
    } else {
        s
    }
}

/// What parsing a trip short name yields: the denoted number, when the name
/// is one or more decimal digits, optionally preceded by one plus sign, and
/// the value fits.
pub open spec fn parse_u32_spec(s: Seq<u8>) -> Option<u32> {
    let digits = sign_stripped(s);
    if digits.len() > 0 && all_digits(digits) && digits_val(digits) <= u32::MAX {
        Some(digits_val(digits) as u32)
    } else {
        None
    }
}

proof fn lemma_digits_val_step(s: Seq<u8>, i: int)
    requires
        0 <= i < s.len(),
    ensures
        digits_val(s.take(i + 1)) == digits_val(s.take(i)) * 10 + ((s[i] - 48) as nat),
{
    assert(s.take(i + 1).drop_last() =~= s.take(i));
    assert(s.take(i + 1).last() == s[i]);
}

proof fn lemma_digits_val_monotone(s: Seq<u8>, i: int, j: int)
    requires
        0 <= i <= j <= s.len(),
        forall|k: int| 0 <= k < j ==> is_digit(s[k]),
    ensures
        digits_val(s.take(i)) <= digits_val(s.take(j)),
    decreases j - i,
{
    if i < j {
        lemma_digits_val_monotone(s, i, j - 1);
        lemma_digits_val_step(s, j - 1);
    }
}

/// Parses a decimal number: `Some` exactly when the string is one or more
/// ASCII digits, optionally preceded by one plus sign, whose value fits in
/// `u32`.
pub fn parse_u32(s: &str) -> (r: Option<u32>)
    ensures
        r == parse_u32_spec(s.spec_bytes()),
{
    let bytes = s.as_bytes();
    let n = bytes.len();
    let start: usize = if n > 0 && bytes[0] == 43 {
        1
    } else {
        0
    };
    let ghost digits = sign_stripped(bytes@);
    proof {
        assert(digits.len() == n - start);
        assert(forall|k: int| 0 <= k < digits.len() ==> digits[k] == bytes@[k + start]);
    }
    if start == n {
        return None;
    }
    let mut i: usize = start;
    while i < n
        invariant
            start <= i <= n,
            n == bytes@.len(),
            bytes@ == s.spec_bytes(),
            digits == sign_stripped(bytes@),
            digits.len() == n - start,
            forall|k: int| 0 <= k < digits.len() ==> digits[k] == bytes@[k + start],
            forall|k: int| 0 <= k < i - start ==> is_digit(digits[k]),
        decreases n - i,
    {
        if bytes[i] < 48 || bytes[i] > 57 {
            proof {
                assert(!is_digit(digits[i - start]));
                assert(!all_digits(digits));
            }
            return None;
        }
        i += 1;
    }
    let mut acc: u64 = 0;
    i = start;
    while i < n
        invariant
            start <= i <= n,
            n == bytes@.len(),
            bytes@ == s.spec_bytes(),
            digits == sign_stripped(bytes@),
            0 < digits.len() == n - start,
            forall|k: int| 0 <= k < digits.len() ==> digits[k] == bytes@[k + start],
            all_digits(digits),
            acc == digits_val(digits.take(i - start)),
            acc <= u32::MAX,
        decreases n - i,
    {
        proof {
            assert(digits[i - start] == bytes@[i as int]);
            assert(is_digit(bytes@[i as int]));
            lemma_digits_val_step(digits, i - start);
        }
        let d = (bytes[i] - 48) as u64;
        acc = acc * 10 + d;
        if acc > u32::MAX as u64 {
            proof {
                lemma_digits_val_monotone(digits, i - start + 1, digits.len() as int);
                assert(digits.take(digits.len() as int) =~= digits);
                assert(digits_val(digits) >= acc > u32::MAX);
            }
            return None;
        }
        i += 1;
    }
    proof {
        assert(digits.take(digits.len() as int) =~= digits);
    }
    Some(acc as u32)
}

/// Strict lexicographic order on byte sequences: the order on route ids.
pub open spec fn lex_lt(a: Seq<u8>, b: Seq<u8>) -> bool
    decreases a.len(),
{
    if b.len() == 0 {
        false
    } else if a.len() == 0 {
        true
    } else if a[0] != b[0] {
        a[0] < b[0]
    } else {
        lex_lt(a.drop_first(), b.drop_first())
    }
}

/// `lex_lt` is irreflexive and asymmetric, and sequences it does not
/// separate are equal: it is a strict total order.
pub proof fn lemma_lex_total(a: Seq<u8>, b: Seq<u8>)
    ensures
        lex_lt(a, b) ==> !lex_lt(b, a),
        lex_lt(a, b) ==> a != b,
        !lex_lt(a, b) && !lex_lt(b, a) ==> a =~= b,
    decreases a.len(),
{
    if a.len() > 0 && b.len() > 0 && a[0] == b[0] {
        let da = a.drop_first();
        let db = b.drop_first();
        lemma_lex_total(da, db);
        if !lex_lt(a, b) && !lex_lt(b, a) {
            assert(da =~= db);
            assert forall|k: int| 0 <= k < a.len() implies a[k] == b[k] by {
                if k > 0 {
                    assert(a[k] == da[k - 1]);
                    assert(b[k] == db[k - 1]);
                }
            }
            assert(a =~= b);
        }
        if a == b {
            assert(da == db);
        }
    }
}

/// `lex_lt` is transitive.
pub proof fn lemma_lex_trans(a: Seq<u8>, b: Seq<u8>, c: Seq<u8>)
    requires
        lex_lt(a, b),
        lex_lt(b, c),
    ensures
        lex_lt(a, c),
    decreases a.len(),
{
    if a.len() > 0 && b.len() > 0 && c.len() > 0 && a[0] == b[0] && b[0] == c[0] {
        lemma_lex_trans(a.drop_first(), b.drop_first(), c.drop_first());
    }
}

/// When two sequences agree on their first `i` elements, their order is
/// the order of their remainders.
pub proof fn lemma_lex_skip(a: Seq<u8>, b: Seq<u8>, i: int)
    requires
        0 <= i <= a.len(),
        i <= b.len(),
        forall|k: int| 0 <= k < i ==> a[k] == b[k],
    ensures
        lex_lt(a, b) == lex_lt(a.skip(i), b.skip(i)),
    decreases i,
{
    if i == 0 {
        assert(a.skip(0) =~= a);
        assert(b.skip(0) =~= b);
    } else {
        let da = a.drop_first();
        let db = b.drop_first();
        assert(da.skip(i - 1) =~= a.skip(i));
        assert(db.skip(i - 1) =~= b.skip(i));
        assert(a[0] == b[0]);
        assert forall|k: int| 0 <= k < i - 1 implies da[k] == db[k] by {
            assert(da[k] == a[k + 1]);
            assert(db[k] == b[k + 1]);
        }
        lemma_lex_skip(da, db, i - 1);
        assert(lex_lt(a, b) == lex_lt(da, db));
    }
}

/// Three-way comparison of byte slices in the order of [`lex_lt`].
pub fn bytes_cmp(a: &[u8], b: &[u8]) -> (r: i8)
    ensures
        (r < 0) == lex_lt(a@, b@),
        (r == 0) == (a@ =~= b@),
        (r > 0) == lex_lt(b@, a@),
{
    proof {
        lemma_lex_total(a@, b@);
    }
    let alen = a.len();
    let blen = b.len();
    let mut i: usize = 0;
    while i < alen && i < blen
        invariant
            0 <= i <= alen,
            0 <= i <= blen,
            alen == a@.len(),
            blen == b@.len(),
            forall|k: int| 0 <= k < i ==> a@[k] == b@[k],
        decreases alen - i,
    {
        if a[i] != b[i] {
            proof {
                lemma_lex_skip(a@, b@, i as int);
                lemma_lex_skip(b@, a@, i as int);
                assert(a@.skip(i as int)[0] == a@[i as int]);
                assert(b@.skip(i as int)[0] == b@[i as int]);
            }
            if a[i] < b[i] {
                return -1;
            } else {
                return 1;
            }
        }
        i += 1;
    }
    proof {
        lemma_lex_skip(a@, b@, i as int);
        lemma_lex_skip(b@, a@, i as int);
    }
    if alen < blen {
        -1
    } else if blen < alen {
        1
    } else {
        proof {
            assert(a@ =~= b@);
        }
        0
    }
}

/// The grouping key: route id (absent when routes are merged) and direction.
#[derive(Clone, Debug, PartialEq, Eq)]
pub struct RouteDir {
    pub route_id: Option<String>,
    pub direction: Direction,
}

/// The mathematical value of a grouping key: the route id's bytes (absent
/// when routes are merged) and the direction's ordinal.
pub type GroupKey = (Option<Seq<u8>>, int);

/// The mathematical value of a grouping key: the route id's bytes and the
/// direction's ordinal.
pub open spec fn rd_key(rd: RouteDir) -> GroupKey {
    (
        match rd.route_id {
            Option::None => Option::None,
            Option::Some(s) => Option::Some(str_bytes(s)),
        },
        rd.direction.ordinal(),
    )
}

/// The total order on grouping keys: an absent route id comes first, then
/// route ids lexicographically, ties broken by direction ordinal.
pub open spec fn key_lt(a: (Option<Seq<u8>>, int), b: (Option<Seq<u8>>, int)) -> bool {
    match (a.0, b.0) {
        (Option::None, Option::Some(_)) => true,
        (Option::None, Option::None) => a.1 < b.1,
        (Option::Some(_), Option::None) => false,
        (Option::Some(x), Option::Some(y)) => lex_lt(x, y) || (x == y && a.1 < b.1),
    }
}

/// `key_lt` is a strict total order on grouping keys.
pub proof fn lemma_key_total(a: (Option<Seq<u8>>, int), b: (Option<Seq<u8>>, int))
    ensures
        key_lt(a, b) ==> !key_lt(b, a),
        key_lt(a, b) ==> a != b,
        !key_lt(a, b) && !key_lt(b, a) ==> a == b,
{
    match (a.0, b.0) {
        (Option::Some(x), Option::Some(y)) => {
            lemma_lex_total(x, y);
        },
        _ => {},
    }
}

/// `key_lt` is transitive.
pub proof fn lemma_key_trans(
    a: (Option<Seq<u8>>, int),
    b: (Option<Seq<u8>>, int),
    c: (Option<Seq<u8>>, int),
)
    requires
        key_lt(a, b),
        key_lt(b, c),
    ensures
        key_lt(a, c),
{
    match (a.0, b.0, c.0) {
        (Option::Some(x), Option::Some(y), Option::Some(z)) => {
            if lex_lt(x, y) && lex_lt(y, z) {
                lemma_lex_trans(x, y, z);
            }
        },
        _ => {},
    }
}

impl Direction {
    /// The direction of a trip: from the parity of its numeric short name
    /// when `direction_from_trip_name` is set (even inbound, odd outbound,
    /// non-numeric unspecified), else from its explicit direction field.
    pub fn from_trip(trip: &Trip, direction_from_trip_name: bool) -> (d: Direction)
        ensures
            d == direction_of_trip(*trip, direction_from_trip_name),
    {
        if direction_from_trip_name {
            let parsed = match &trip.trip_short_name {
                Some(name) => parse_u32(name.as_str()),
                None => None,
            };
            match parsed {
                None => Direction::Unspecified,
                Some(x) => if x % 2 == 0 {
                    Direction::Inbound
                } else {
                    Direction::Outbound
                },
            }
        } else {
            match trip.direction_id {
                None => Direction::Unspecified,
                Some(DirectionType::Inbound) => Direction::Inbound,
                Some(DirectionType::Outbound) => Direction::Outbound,
            }
        }
    }
}

/// The direction [`Direction::from_trip`] assigns.
pub open spec fn direction_of_trip(t: Trip, direction_from_trip_name: bool) -> Direction {
    if direction_from_trip_name {
        match t.trip_short_name {
            Option::None => Direction::Unspecified,
            Option::Some(name) => match parse_u32_spec(str_bytes(name)) {
                Option::None => Direction::Unspecified,
                Option::Some(x) => if x % 2 == 0 {
                    Direction::Inbound
                } else {
                    Direction::Outbound
                },
            },
        }
    } else {
        match t.direction_id {
            Option::None => Direction::Unspecified,
            Option::Some(DirectionType::Inbound) => Direction::Inbound,
            Option::Some(DirectionType::Outbound) => Direction::Outbound,
        }
    }
}

/// The grouping key of a trip, as a mathematical value.
pub open spec fn trip_key(t: Trip, args: Args) -> (Option<Seq<u8>>, int) {
    (
        if args.merge_routes {
            Option::None
        } else {
            Option::Some(str_bytes(t.route_id))
        },
        direction_of_trip(t, args.direction_from_trip_name).ordinal(),
    )
}

impl RouteDir {
    /// The grouping key of a trip: its route id (or none, when routes are
    /// merged) and its direction.
    pub fn from_trip(trip: &Trip, args: &Args) -> (rd: RouteDir)
        ensures
            rd_key(rd) == trip_key(*trip, *args),
            rd.direction == direction_of_trip(*trip, args.direction_from_trip_name),
            rd.route_id matches Some(s) ==> s@ == trip.route_id@,
    {
        let route_id = if args.merge_routes {
            None
        } else {
            Some(trip.route_id.clone())
        };
        RouteDir { route_id, direction: Direction::from_trip(trip, args.direction_from_trip_name) }
    }

    /// A fresh key with the same value under [`rd_key`].
    pub fn duplicate(&self) -> (r: RouteDir)
        ensures
            rd_key(r) == rd_key(*self),
            r.direction == self.direction,
    {
        RouteDir {
            route_id: match &self.route_id {
                Some(s) => Some(s.clone()),
                None => None,
            },
            direction: self.direction,
        }
    }

    /// Three-way comparison in the order of [`key_lt`].
    pub fn cmp_key(&self, other: &RouteDir) -> (r: i8)
        ensures
            (r < 0) == key_lt(rd_key(*self), rd_key(*other)),
            (r == 0) == (rd_key(*self) == rd_key(*other)),
            (r > 0) == key_lt(rd_key(*other), rd_key(*self)),
    {
        proof {
            lemma_key_total(rd_key(*self), rd_key(*other));
        }
        match (&self.route_id, &other.route_id) {
            (None, Some(_)) => -1,
            (Some(_), None) => 1,
            (None, None) => {
                let sa = self.direction.ordinal_u8();
                let sb = other.direction.ordinal_u8();
                if sa < sb {
                    -1
                } else if sb < sa {
                    1
                } else {
                    0
                }
            },
            (Some(x), Some(y)) => {
                let c = bytes_cmp(x.as_str().as_bytes(), y.as_str().as_bytes());
                if c != 0 {
                    c
                } else {
                    let sa = self.direction.ordinal_u8();
                    let sb = other.direction.ordinal_u8();
                    if sa < sb {
                        -1
                    } else if sb < sa {
                        1
                    } else {
                        0
                    }
                }
            },
        }
    }
}

} // verus!
