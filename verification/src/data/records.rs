use vstd::prelude::*;
use crate::data::structures::{Route, RouteId, StopId, Time};
use crate::text::{
    chars_of, decimal, digit_char, digit_value, failure_text, is_digit, parse_u32_range, push_decimal,
    scan_digits, trim_bounds, trim_end, trim_start, trimmed, u32_outcome, white_space, IntParseFailure,
};

verus! {

/// A row of the routes file: the stop identifiers and the travel times are
/// comma-separated lists of decimal numbers.
#[derive(Debug, Clone)]
pub struct RouteCsv {
    pub id: RouteId,
    pub name: String,
    pub stops: String,
    pub travel_times: String,
}

/// The pieces of a string between commas, as std's `str::split(',')` gives them:
/// always at least one, empty pieces included.
pub open spec fn split_commas(s: Seq<char>) -> Seq<Seq<char>>
    decreases s.len(),
{
    if s.len() == 0 {
        seq![Seq::empty()]
    } else {
        let rest = split_commas(s.drop_last());
        if s.last() == ',' {
            rest.push(Seq::empty())
        } else {
            rest.update(rest.len() - 1, rest.last().push(s.last()))
        }
    }
}

proof fn lemma_split_nonempty(s: Seq<char>)
    ensures
        split_commas(s).len() >= 1,
    decreases s.len(),
{
    if s.len() > 0 {
        lemma_split_nonempty(s.drop_last());
    }
}

/// Each piece, trimmed, read as a `u32`; the first piece that fails decides the failure.
pub open spec fn parse_list(pieces: Seq<Seq<char>>) -> Result<Seq<u32>, IntParseFailure>
    decreases pieces.len(),
{
    if pieces.len() == 0 {
        Ok(Seq::empty())
    } else {
        match parse_list(pieces.drop_last()) {
            Err(e) => Err(e),
            Ok(vs) => match u32_outcome(trimmed(pieces.last())) {
                Err(e) => Err(e),
                Ok(v) => Ok(vs.push(v)),
            },
        }
    }
}

/// A failure in a prefix of the pieces is the failure of the whole list.
proof fn lemma_parse_list_failure_persists(pieces: Seq<Seq<char>>, k: int, e: IntParseFailure)
    requires
        0 <= k <= pieces.len(),
        parse_list(pieces.take(k)) == Err::<Seq<u32>, IntParseFailure>(e),
    ensures
        parse_list(pieces) == Err::<Seq<u32>, IntParseFailure>(e),
    decreases pieces.len() - k,
{
    if k == pieces.len() {
        assert(pieces.take(k) =~= pieces);
    } else {
        assert(pieces.take(k + 1).drop_last() =~= pieces.take(k));
        lemma_parse_list_failure_persists(pieces, k + 1, e);
    }
}

/// Reads a comma-separated list of numbers, each trimmed of white space.
pub fn parse_id_list(text: &str) -> (r: Result<Vec<u32>, IntParseFailure>)
    ensures
        match r {
            Ok(v) => parse_list(split_commas(text@)) == Ok::<Seq<u32>, IntParseFailure>(v@),
            Err(e) => parse_list(split_commas(text@)) == Err::<Seq<u32>, IntParseFailure>(e),
        },
{
    let cs = chars_of(text);
    let n = cs.len();
    let mut bounds: Vec<(usize, usize)> = Vec::new();
    let ghost mut done: Seq<Seq<char>> = Seq::empty();
    let mut start: usize = 0;
    let mut i: usize = 0;
    proof {
        assert(cs@.take(0) =~= Seq::<char>::empty());
        assert(cs@.subrange(0, 0) =~= Seq::<char>::empty());
        assert(done.push(cs@.subrange(0, 0)) =~= seq![Seq::<char>::empty()]);
    }
    while i < n
        invariant
            n == cs@.len(),
            start <= i <= n,
            bounds@.len() == done.len(),
            forall|j: int| 0 <= j < bounds@.len() ==> {
                &&& (#[trigger] bounds@[j]).0 <= bounds@[j].1 <= n
                &&& done[j] == cs@.subrange(bounds@[j].0 as int, bounds@[j].1 as int)
            },
            split_commas(cs@.take(i as int)) == done.push(cs@.subrange(start as int, i as int)),
        decreases n - i,
    {
        proof {
            assert(cs@.take(i + 1).drop_last() =~= cs@.take(i as int));
            assert(cs@.take(i + 1).last() == cs@[i as int]);
            assert(cs@.subrange(start as int, i + 1) =~= cs@.subrange(start as int, i as int).push(cs@[i as int]));
            assert(done.push(cs@.subrange(start as int, i as int)).last() == cs@.subrange(start as int, i as int));
        }
        if cs[i] == ',' {
            bounds.push((start, i));
            proof {
                done = done.push(cs@.subrange(start as int, i as int));
                assert(cs@.subrange(i + 1, i + 1) =~= Seq::<char>::empty());
            }
            start = i + 1;
        } else {
            proof {
                assert(done.push(cs@.subrange(start as int, i as int)).update(done.len() as int,
                    cs@.subrange(start as int, i + 1)) =~= done.push(cs@.subrange(start as int, i + 1)));
            }
        }
        i = i + 1;
    }
    bounds.push((start, n));
    proof {
        done = done.push(cs@.subrange(start as int, n as int));
        assert(cs@.take(n as int) =~= text@);
    }
    let ghost pieces = done;

    let mut out: Vec<u32> = Vec::new();
    let mut k: usize = 0;
    while k < bounds.len()
        invariant
            n == cs@.len(),
            pieces == split_commas(text@),
            bounds@.len() == pieces.len(),
            forall|j: int| 0 <= j < bounds@.len() ==> {
                &&& (#[trigger] bounds@[j]).0 <= bounds@[j].1 <= n
                &&& pieces[j] == cs@.subrange(bounds@[j].0 as int, bounds@[j].1 as int)
            },
            k <= bounds@.len(),
            parse_list(pieces.take(k as int)) == Ok::<Seq<u32>, IntParseFailure>(out@),
        decreases bounds@.len() - k,
    {
        let (lo, hi) = bounds[k];
        let (a, b) = trim_bounds(&cs, lo, hi);
        proof {
            assert(pieces.take(k + 1).drop_last() =~= pieces.take(k as int));
            assert(pieces.take(k + 1).last() == pieces[k as int]);
        }
        match parse_u32_range(&cs, a, b) {
            Ok(v) => {
                out.push(v);
            },
            Err(e) => {
                proof {
                    lemma_parse_list_failure_persists(pieces, k + 1, e);
                }
                return Err(e);
            },
        }
        k = k + 1;
    }
    proof {
        assert(pieces.take(bounds@.len() as int) =~= pieces);
    }
    Ok(out)
}

/// The message of a list that does not parse, under its heading.
pub open spec fn list_error_text(heading: Seq<char>, f: IntParseFailure) -> Seq<char> {
    heading + failure_text(f)
}

/// Reads the stop identifiers and the travel times of a route row.
pub fn parse_route_lists(record: &RouteCsv) -> (r: Result<(Vec<StopId>, Vec<Time>), String>)
    ensures
        match parse_list(split_commas(record.stops@)) {
            Err(f) => r matches Err(m) && m@ == list_error_text("Failed to parse stop IDs: "@, f),
            Ok(ids) => match parse_list(split_commas(record.travel_times@)) {
                Err(f) => r matches Err(m) && m@ == list_error_text("Failed to parse travel times: "@, f),
                Ok(times) => r matches Ok((s, t)) && s@ == ids && t@ == times,
            },
        },
{
    let stop_ids = match parse_id_list(record.stops.as_str()) {
        Ok(v) => v,
        Err(f) => {
            let mut msg = String::from_str("Failed to parse stop IDs: ");
            let text = f.describe();
            msg.append(text.as_str());
            return Err(msg);
        },
    };
    let travel_times = match parse_id_list(record.travel_times.as_str()) {
        Ok(v) => v,
        Err(f) => {
            let mut msg = String::from_str("Failed to parse travel times: ");
            let text = f.describe();
            msg.append(text.as_str());
            return Err(msg);
        },
    };
    Ok((stop_ids, travel_times))
}

/// Numbers written in decimal and separated by commas.
pub open spec fn joined(vs: Seq<u32>) -> Seq<char>
    decreases vs.len(),
{
    if vs.len() == 0 {
        Seq::empty()
    } else if vs.len() == 1 {
        decimal(vs[0] as nat)
    } else {
        joined(vs.drop_last()) + seq![','] + decimal(vs.last() as nat)
    }
}

/// Writes numbers in decimal, separated by commas.
pub fn join_ids(vs: &Vec<u32>) -> (s: String)
    ensures
        s@ == joined(vs@),
{
    let mut out = String::new();
    let mut i: usize = 0;
    while i < vs.len()
        invariant
            i <= vs@.len(),
            out@ == joined(vs@.take(i as int)),
        decreases vs@.len() - i,
    {
        let ghost before = out@;
        proof {
            assert(vs@.take(i + 1).drop_last() =~= vs@.take(i as int));
            assert(vs@.take(i + 1).last() == vs@[i as int]);
        }
        if i > 0 {
            out.append(",");
            proof {
                reveal_strlit(",");
            }
        }
        push_decimal(&mut out, vs[i] as u64);
        proof {
            if i > 0 {
                assert(out@ =~= joined(vs@.take(i as int)) + seq![','] + decimal(vs@[i as int] as nat));
            } else {
                assert(vs@.take(1)[0] == vs@[0]);
                assert(out@ =~= decimal(vs@[0] as nat));
            }
        }
        i = i + 1;
    }
    proof {
        assert(vs@.take(vs@.len() as int) =~= vs@);
    }
    out
}

/// The routes-file row of a route: its stops and travel times joined by commas.
pub fn route_record(route: &Route) -> (r: RouteCsv)
    ensures
        r.id == route.id,
        r.name@ == route.name@,
        r.stops@ == joined(route.stops@),
        r.travel_times@ == joined(route.travel_times@),
{
    RouteCsv {
        id: route.id,
        name: route.name.clone(),
        stops: join_ids(&route.stops),
        travel_times: join_ids(&route.travel_times),
    }
}

/// The number a string of digits writes, read from its last digit back.
pub open spec fn digits_number(s: Seq<char>) -> int
    decreases s.len(),
{
    if s.len() == 0 {
        0
    } else {
        digits_number(s.drop_last()) * 10 + digit_value(s.last())
    }
}

/// A string of digits only.
pub open spec fn all_digits(s: Seq<char>) -> bool {
    forall|i: int| 0 <= i < s.len() ==> is_digit(#[trigger] s[i])
}

/// `decimal(n)` is one or more digits that write `n`.
proof fn lemma_decimal(n: nat)
    ensures
        decimal(n).len() >= 1,
        all_digits(decimal(n)),
        digits_number(decimal(n)) == n,
    decreases n,
{
    if n >= 10 {
        lemma_decimal(n / 10);
        let front = decimal(n / 10);
        let d = (n % 10) as nat;
        assert(decimal(n) == front.push(digit_char(d)));
        assert(decimal(n).drop_last() =~= front);
        assert((digit_char(d) as u32) == d + 48);
        assert(is_digit(digit_char(d)));
        assert forall|i: int| 0 <= i < decimal(n).len() implies is_digit(#[trigger] decimal(n)[i]) by {
            if i < front.len() {
                assert(decimal(n)[i] == front[i]);
            }
        }
        assert(decimal(n).last() == digit_char(d));
        assert(digit_value(digit_char(d)) == d);
        assert(digits_number(decimal(n)) == digits_number(front) * 10 + d);
        assert((n / 10) * 10 + n % 10 == n);
    } else {
        assert((digit_char(n) as u32) == n + 48);
        assert(decimal(n) == seq![digit_char(n)]);
        assert(decimal(n).drop_last() =~= Seq::<char>::empty());
        assert(decimal(n).last() == digit_char(n));
        assert(digit_value(digit_char(n)) == n);
        assert(digits_number(Seq::<char>::empty()) == 0);
    }
}

/// The number of a prefix of a string of digits never exceeds the whole number.
proof fn lemma_digits_prefix(s: Seq<char>, i: int)
    requires
        all_digits(s),
        0 <= i <= s.len(),
    ensures
        0 <= digits_number(s.take(i)) <= digits_number(s),
    decreases s.len() - i,
{
    if i == s.len() {
        assert(s.take(i) =~= s);
        lemma_digits_nonneg(s);
    } else {
        lemma_digits_prefix(s, i + 1);
        assert(s.take(i + 1).drop_last() =~= s.take(i));
        assert(s.take(i + 1).last() == s[i]);
        assert(is_digit(s[i]));
        lemma_digits_nonneg(s.take(i));
    }
}

proof fn lemma_digits_nonneg(s: Seq<char>)
    requires
        all_digits(s),
    ensures
        digits_number(s) >= 0,
    decreases s.len(),
{
    if s.len() > 0 {
        assert(all_digits(s.drop_last())) by {
            assert forall|i: int| 0 <= i < s.drop_last().len() implies is_digit(#[trigger] s.drop_last()[i]) by {
                assert(s.drop_last()[i] == s[i]);
            }
        }
        lemma_digits_nonneg(s.drop_last());
        assert(is_digit(s[s.len() - 1]));
    }
}

/// Reading digits from the front, with the number of the digits read so far as the
/// accumulator, gives the number of the whole string when it fits in a `u32`.
proof fn lemma_scan_digits(s: Seq<char>, i: int)
    requires
        all_digits(s),
        0 <= i <= s.len(),
        digits_number(s) <= u32::MAX,
    ensures
        scan_digits(s, i, digits_number(s.take(i))) == Ok::<u32, IntParseFailure>(digits_number(s) as u32),
    decreases s.len() - i,
{
    if i == s.len() {
        assert(s.take(i) =~= s);
    } else {
        assert(s.take(i + 1).drop_last() =~= s.take(i));
        assert(s.take(i + 1).last() == s[i]);
        assert(is_digit(s[i]));
        lemma_digits_prefix(s, i + 1);
        lemma_scan_digits(s, i + 1);
    }
}

/// A number written in decimal reads back as itself, white space trimming aside.
proof fn lemma_decimal_reads_back(v: u32)
    ensures
        u32_outcome(trimmed(decimal(v as nat))) == Ok::<u32, IntParseFailure>(v),
{
    let s = decimal(v as nat);
    lemma_decimal(v as nat);
    assert(is_digit(s[0]));
    assert(is_digit(s[s.len() - 1]));
    assert(trim_start(s) == s);
    assert(trim_end(s) == s);
    assert(s.take(0) =~= Seq::<char>::empty());
    lemma_scan_digits(s, 0);
}

/// A string without commas is a single piece.
proof fn lemma_split_single(t: Seq<char>)
    requires
        forall|i: int| 0 <= i < t.len() ==> t[i] != ',',
    ensures
        split_commas(t) == seq![t],
    decreases t.len(),
{
    if t.len() > 0 {
        lemma_split_single(t.drop_last());
        assert(t.drop_last().push(t.last()) =~= t);
        assert(seq![t.drop_last()].update(0, t) =~= seq![t]);
    } else {
        assert(t =~= Seq::<char>::empty());
    }
}

/// A comma followed by a string without commas adds one piece.
proof fn lemma_split_append(s: Seq<char>, t: Seq<char>)
    requires
        forall|i: int| 0 <= i < t.len() ==> t[i] != ',',
    ensures
        split_commas(s + seq![','] + t) == split_commas(s).push(t),
    decreases t.len(),
{
    if t.len() == 0 {
        assert(s + seq![','] + t =~= s.push(','));
        assert(s.push(',').drop_last() =~= s);
        assert(t =~= Seq::<char>::empty());
    } else {
        let t0 = t.drop_last();
        lemma_split_append(s, t0);
        assert((s + seq![','] + t).drop_last() =~= s + seq![','] + t0);
        assert((s + seq![','] + t).last() == t.last());
        lemma_split_nonempty(s);
        assert(t0.push(t.last()) =~= t);
        assert(split_commas(s).push(t0).last() == t0);
        assert(split_commas(s).push(t0).update(split_commas(s).len() as int, t)
            =~= split_commas(s).push(t));
    }
}

/// The pieces of joined numbers are their decimal representations.
proof fn lemma_split_joined(vs: Seq<u32>)
    requires
        vs.len() > 0,
    ensures
        split_commas(joined(vs)) == vs.map_values(|v: u32| decimal(v as nat)),
    decreases vs.len(),
{
    let d = decimal(vs.last() as nat);
    lemma_decimal(vs.last() as nat);
    assert forall|i: int| 0 <= i < d.len() implies d[i] != ',' by {
        assert(is_digit(d[i]));
    }
    if vs.len() == 1 {
        lemma_split_single(d);
        assert(vs.last() == vs[0]);
        assert(seq![d] =~= vs.map_values(|v: u32| decimal(v as nat)));
    } else {
        lemma_split_joined(vs.drop_last());
        lemma_split_append(joined(vs.drop_last()), d);
        assert(vs.drop_last().map_values(|v: u32| decimal(v as nat)).push(d)
            =~= vs.map_values(|v: u32| decimal(v as nat)));
    }
}

proof fn lemma_parse_decimals(vs: Seq<u32>)
    ensures
        parse_list(vs.map_values(|v: u32| decimal(v as nat))) == Ok::<Seq<u32>, IntParseFailure>(vs),
    decreases vs.len(),
{
    if vs.len() > 0 {
        lemma_parse_decimals(vs.drop_last());
        assert(vs.map_values(|v: u32| decimal(v as nat)).drop_last()
            =~= vs.drop_last().map_values(|v: u32| decimal(v as nat)));
        lemma_decimal_reads_back(vs.last());
        assert(vs.drop_last().push(vs.last()) =~= vs);
    } else {
        assert(vs.map_values(|v: u32| decimal(v as nat)).len() == 0);
        assert(vs =~= Seq::<u32>::empty());
    }
}

/// Writing a non-empty list of numbers with `join_ids` and reading it back with
/// `parse_id_list` gives the same numbers.
pub proof fn law_id_list_round_trip(vs: Seq<u32>)
    requires
        vs.len() > 0,
    ensures
        parse_list(split_commas(joined(vs))) == Ok::<Seq<u32>, IntParseFailure>(vs),
{
    lemma_split_joined(vs);
    lemma_parse_decimals(vs);
}

/// Saving a route as a routes-file row and reading the row back gives its stops and
/// travel times, for a route with at least one travel time.
pub proof fn law_route_row_round_trip(route: Route)
    requires
        route.stops@.len() > 0,
        route.travel_times@.len() > 0,
    ensures
        parse_list(split_commas(joined(route.stops@))) == Ok::<Seq<u32>, IntParseFailure>(route.stops@),
        parse_list(split_commas(joined(route.travel_times@))) == Ok::<Seq<u32>, IntParseFailure>(route.travel_times@),
{
    law_id_list_round_trip(route.stops@);
    law_id_list_round_trip(route.travel_times@);
}

} // verus!
