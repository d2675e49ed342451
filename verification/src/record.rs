//! Record assembly: the header row and, per cycle, the timestamped field
//! list in canonical column order.

use vstd::prelude::*;
use crate::error::CliError;
use crate::measure::Check;
use crate::numerals::int_rep;
use crate::order::{
    insert_by, lemma_insert_by_at, lemma_sort_by_key_fixed_point, sort_by_key, sorted_by_key,
};
use crate::text::lex_le;
use crate::numerals::i64_to_string;
use crate::text::str_le;
use crate::cli::str_views;

verus! {

/// The key a cycle is ordered by: each measurement's host token.
pub open spec fn check_key() -> spec_fn(Check) -> Seq<char> {
    |c: Check| c.host@
}

/// The per-host column names, repeated once per host.
pub open spec fn header_fields(n: int) -> Seq<Seq<char>>
    decreases n,
{
    if n <= 0 {
        Seq::empty()
    } else {
        header_fields(n - 1) + seq!["Host"@, "Address"@, "Available"@, "RTT"@, "Error"@]
    }
}

/// Five names per host.
pub proof fn lemma_header_fields_len(n: int)
    requires
        n >= 0,
    ensures
        header_fields(n).len() == 5 * n,
    decreases n,
{
    if n > 0 {
        lemma_header_fields_len(n - 1);
    }
}

/// The names at host group `k`.
pub proof fn lemma_header_fields_index(n: int, k: int)
    requires
        0 <= k < n,
    ensures
        header_fields(n)[5 * k] == "Host"@,
        header_fields(n)[5 * k + 1] == "Address"@,
        header_fields(n)[5 * k + 2] == "Available"@,
        header_fields(n)[5 * k + 3] == "RTT"@,
        header_fields(n)[5 * k + 4] == "Error"@,
    decreases n,
{
    lemma_header_fields_len(n - 1);
    if k < n - 1 {
        lemma_header_fields_index(n - 1, k);
    }
}

/// The text of the availability column.
pub open spec fn bool_rep(b: bool) -> Seq<char> {
    if b {
        "true"@
    } else {
        "false"@
    }
}

/// The text of the error column: the failure's message, or nothing.
pub open spec fn error_rep(e: Option<CliError>) -> Seq<char> {
    match e {
        Some(err) => err.message_spec(),
        None => Seq::empty(),
    }
}

/// The five data fields of one measurement, in column order.
pub open spec fn check_fields(c: Check) -> Seq<Seq<char>> {
    seq![c.host@, c.addr@, bool_rep(c.available), int_rep(c.rtt as int), error_rep(c.error)]
}

/// The data fields of a cycle, five per measurement, in cycle order.
pub open spec fn record_groups(cs: Seq<Check>) -> Seq<Seq<char>>
    decreases cs.len(),
{
    if cs.len() == 0 {
        Seq::empty()
    } else {
        record_groups(cs.drop_last()) + check_fields(cs.last())
    }
}

/// Five fields per measurement.
pub proof fn lemma_record_groups_len(cs: Seq<Check>)
    ensures
        record_groups(cs).len() == 5 * cs.len(),
    decreases cs.len(),
{
    if cs.len() > 0 {
        lemma_record_groups_len(cs.drop_last());
    }
}

/// The fields at group `k` come from measurement `k`.
pub proof fn lemma_record_groups_index(cs: Seq<Check>, k: int)
    requires
        0 <= k < cs.len(),
    ensures
        record_groups(cs)[5 * k] == cs[k].host@,
        record_groups(cs)[5 * k + 1] == cs[k].addr@,
        record_groups(cs)[5 * k + 2] == bool_rep(cs[k].available),
        record_groups(cs)[5 * k + 3] == int_rep(cs[k].rtt as int),
        record_groups(cs)[5 * k + 4] == error_rep(cs[k].error),
    decreases cs.len(),
{
    lemma_record_groups_len(cs.drop_last());
    if k < cs.len() - 1 {
        lemma_record_groups_index(cs.drop_last(), k);
        assert(cs.drop_last()[k] == cs[k]);
    } else {
        assert(cs.last() == cs[k]);
    }
}

/// All fields of the record built at timestamp `ts` from cycle `cs`: the
/// timestamp, then five fields per measurement, the cycle re-sorted by host.
pub open spec fn record_fields(ts: Seq<char>, cs: Seq<Check>) -> Seq<Seq<char>> {
    seq![ts] + record_groups(sort_by_key(check_key(), cs))
}

/// A record holds exactly `1 + 5 * N` fields for `N` measurements.
pub proof fn lemma_record_fields_len(ts: Seq<char>, cs: Seq<Check>)
    ensures
        record_fields(ts, cs).len() == 1 + 5 * cs.len(),
{
    crate::order::lemma_sort_by_key_len(check_key(), cs);
    lemma_record_groups_len(sort_by_key(check_key(), cs));
}

/// Build the header row: "Timestamp", then the five column names per host.
pub fn build_header(hosts: &Vec<String>) -> (r: Vec<String>)
    ensures
        str_views(r@) == seq!["Timestamp"@] + header_fields(hosts@.len() as int),
        r@.len() == 1 + 5 * hosts@.len(),
{
    let mut r: Vec<String> = Vec::new();
    r.push("Timestamp".to_owned());
    proof {
        assert(str_views(r@) =~= seq!["Timestamp"@] + header_fields(0));
    }
    let n = hosts.len();
    let mut i: usize = 0;
    while i < n
        invariant
            0 <= i <= n,
            r@.len() == 1 + 5 * i,
            str_views(r@) == seq!["Timestamp"@] + header_fields(i as int),
        decreases n - i,
    {
        let ghost before = r@;
        r.push("Host".to_owned());
        r.push("Address".to_owned());
        r.push("Available".to_owned());
        r.push("RTT".to_owned());
        r.push("Error".to_owned());
        proof {
            let group = seq!["Host"@, "Address"@, "Available"@, "RTT"@, "Error"@];
            assert forall|k: int| 0 <= k < r@.len() implies #[trigger] str_views(r@)[k] == (str_views(before) + group)[k] by {
                assert(str_views(r@)[k] == r@[k]@);
                if k < before.len() {
                    assert(r@[k] == before[k]);
                    assert(str_views(before)[k] == before[k]@);
                }
            }
            assert(str_views(r@) =~= str_views(before) + group);
            assert(header_fields(i + 1) == header_fields(i as int) + group);
        }
        i = i + 1;
    }
    r
}

/// Insert one measurement into a cycle ordered by host, after equal hosts.
fn insert_check(v: &mut Vec<Check>, x: Check)
    ensures
        final(v)@ == insert_by(check_key(), x, old(v)@),
{
    let n = v.len();
    let mut j: usize = 0;
    while j < n && str_le(v[j].host.as_str(), x.host.as_str())
        invariant
            0 <= j <= n,
            n == v@.len(),
            v@ == old(v)@,
            forall|k: int| 0 <= k < j ==> lex_le((#[trigger] v@[k]).host@, x.host@),
        decreases n - j,
    {
        j = j + 1;
    }
    proof {
        assert forall|k: int| 0 <= k < j implies lex_le(
            check_key()(#[trigger] v@[k]),
            check_key()(x),
        ) by {
            assert(lex_le(v@[k].host@, x.host@));
        }
        if j < n {
            assert(!lex_le(check_key()(v@[j as int]), check_key()(x)));
        }
        lemma_insert_by_at(check_key(), x, v@, j as int);
    }
    let ghost prev = v@;
    v.insert(j, x);
    proof {
        assert(v@ == prev.insert(j as int, x));
        assert(v@ =~= prev.take(j as int) + seq![x] + prev.skip(j as int));
    }
}

/// Re-sort a cycle by host, equal hosts kept in cycle order.
pub fn sort_checks(v: Vec<Check>) -> (r: Vec<Check>)
    ensures
        r@ == sort_by_key(check_key(), v@),
{
    let mut rem = v;
    let mut r: Vec<Check> = Vec::new();
    let ghost orig = rem@;
    let n = rem.len();
    let mut i: usize = 0;
    while i < n
        invariant
            0 <= i <= n,
            n == orig.len(),
            rem@ == orig.skip(i as int),
            r@ == sort_by_key(check_key(), orig.take(i as int)),
        decreases n - i,
    {
        let x = rem.remove(0);
        proof {
            assert(orig.skip(i as int)[0] == orig[i as int]);
            assert(orig.skip(i as int).remove(0) =~= orig.skip(i + 1));
        }
        insert_check(&mut r, x);
        proof {
            assert(orig.take(i + 1).drop_last() =~= orig.take(i as int));
            assert(orig.take(i + 1).last() == orig[i as int]);
        }
        i = i + 1;
    }
    proof {
        assert(orig.take(n as int) =~= orig);
    }
    r
}

/// Relies on chrono: `Utc::now` for the current wall-clock instant and
/// `DateTime::to_rfc3339` for its RFC 3339 UTC text. The result depends on
/// the clock, so nothing is promised of it; callers state their records
/// relative to whatever text came back.
#[verifier::external_body]
fn now_rfc3339() -> String {
    chrono::Utc::now().to_rfc3339()
}

/// Build the record for one cycle at a given timestamp: the timestamp, then
/// the five fields of each measurement, the cycle re-sorted by host.
pub fn build_record_at(now: String, checks: Vec<Check>) -> (r: Vec<String>)
    ensures
        str_views(r@) == record_fields(now@, checks@),
        r@.len() == 1 + 5 * checks@.len(),
{
    proof {
        lemma_record_fields_len(now@, checks@);
        crate::order::lemma_sort_by_key_len(check_key(), checks@);
    }
    let ghost now_view = now@;
    let sorted = sort_checks(checks);
    let mut r: Vec<String> = Vec::new();
    r.push(now);
    proof {
        assert(str_views(r@) =~= seq![r@[0]@] + record_groups(
            sorted@.take(0),
        ));
    }
    let n = sorted.len();
    let mut i: usize = 0;
    while i < n
        invariant
            0 <= i <= n,
            n == sorted@.len(),
            r@.len() == 1 + 5 * i,
            r@.len() >= 1,
            r@[0]@ == now_view,
            str_views(r@) == seq![r@[0]@] + record_groups(sorted@.take(i as int)),
        decreases n - i,
    {
        let ghost before = r@;
        let c = &sorted[i];
        r.push(c.host.clone());
        r.push(c.addr.clone());
        if c.available {
            r.push("true".to_owned());
        } else {
            r.push("false".to_owned());
        }
        r.push(i64_to_string(c.rtt));
        match &c.error {
            Some(e) => {
                let msg = e.message();
                r.push(msg);
            },
            None => {
                r.push(String::new());
            },
        }
        proof {
            let group = check_fields(sorted@[i as int]);
            assert(r@.len() == before.len() + 5);
            assert(r@[0] == before[0]);
            assert forall|k: int| 0 <= k < r@.len() implies #[trigger] str_views(r@)[k] == (str_views(before) + group)[k] by {
                assert(str_views(r@)[k] == r@[k]@);
                if k < before.len() {
                    assert(r@[k] == before[k]);
                    assert(str_views(before)[k] == before[k]@);
                } else {
                    assert(group =~= seq![
                        sorted@[i as int].host@,
                        sorted@[i as int].addr@,
                        bool_rep(sorted@[i as int].available),
                        int_rep(sorted@[i as int].rtt as int),
                        error_rep(sorted@[i as int].error),
                    ]);
                }
            }
            assert(str_views(r@) =~= str_views(before) + group);
            assert(sorted@.take(i + 1).drop_last() =~= sorted@.take(i as int));
            assert(sorted@.take(i + 1).last() == sorted@[i as int]);
            assert(record_groups(sorted@.take(i + 1)) == record_groups(sorted@.take(i as int))
                + group);
        }
        i = i + 1;
    }
    proof {
        assert(sorted@.take(n as int) =~= sorted@);
    }
    r
}

/// Build the record for one cycle, stamped with the wall clock now. The
/// first field is the timestamp text; every other field is a function of
/// the cycle alone.
pub fn build_record(checks: Vec<Check>) -> (r: Vec<String>)
    ensures
        r@.len() == 1 + 5 * checks@.len(),
        str_views(r@) == record_fields(r@[0]@, checks@),
{
    let now = now_rfc3339();
    build_record_at(now, checks)
}

/// The diagnostic line for a measurement, when it failed.
pub fn diagnostic_line(c: &Check) -> (r: Option<String>)
    ensures
        (match c.error {
            Some(e) => r matches Some(m) && m@ == "host "@ + c.host@ + " failed with error: "@
                + e.message_spec(),
            None => r is None,
        }),
{
    match &c.error {
        Some(e) => {
            let mut m = "host ".to_owned();
            m.append(c.host.as_str());
            m.append(" failed with error: ");
            let msg = e.message();
            m.append(msg.as_str());
            Some(m)
        },
        None => None,
    }
}

/// Header and data columns agree: the record is as long as the header, the
/// leading field is the timestamp under the "Timestamp" name, and for every
/// host group `k` the five data fields at positions `1 + 5k` through
/// `1 + 5k + 4` describe the host at canonical position `k`, under the
/// same-positioned column names.
pub proof fn lemma_columns_align(ts: Seq<char>, cs: Seq<Check>, k: int)
    requires
        0 <= k < cs.len(),
    ensures
        record_fields(ts, cs).len() == 1 + 5 * cs.len(),
        (seq!["Timestamp"@] + header_fields(cs.len() as int)).len() == 1 + 5 * cs.len(),
        record_fields(ts, cs)[0] == ts,
        (seq!["Timestamp"@] + header_fields(cs.len() as int))[0] == "Timestamp"@,
        record_fields(ts, cs)[1 + 5 * k] == sort_by_key(check_key(), cs)[k].host@,
        record_fields(ts, cs)[1 + 5 * k + 1] == sort_by_key(check_key(), cs)[k].addr@,
        record_fields(ts, cs)[1 + 5 * k + 2] == bool_rep(sort_by_key(check_key(), cs)[k].available),
        record_fields(ts, cs)[1 + 5 * k + 3] == int_rep(sort_by_key(check_key(), cs)[k].rtt as int),
        record_fields(ts, cs)[1 + 5 * k + 4] == error_rep(sort_by_key(check_key(), cs)[k].error),
        (seq!["Timestamp"@] + header_fields(cs.len() as int))[1 + 5 * k] == "Host"@,
        (seq!["Timestamp"@] + header_fields(cs.len() as int))[1 + 5 * k + 1] == "Address"@,
        (seq!["Timestamp"@] + header_fields(cs.len() as int))[1 + 5 * k + 2] == "Available"@,
        (seq!["Timestamp"@] + header_fields(cs.len() as int))[1 + 5 * k + 3] == "RTT"@,
        (seq!["Timestamp"@] + header_fields(cs.len() as int))[1 + 5 * k + 4] == "Error"@,
{
    let sorted = sort_by_key(check_key(), cs);
    crate::order::lemma_sort_by_key_len(check_key(), cs);
    lemma_record_groups_len(sorted);
    lemma_record_fields_len(ts, cs);
    lemma_header_fields_len(cs.len() as int);
    lemma_record_groups_index(sorted, k);
    lemma_header_fields_index(cs.len() as int, k);
}

/// A cycle that already lists hosts in canonical order is left in place by
/// the record builder's re-sort.
pub proof fn lemma_sorted_cycle_in_place(cs: Seq<Check>)
    requires
        sorted_by_key(check_key(), cs),
    ensures
        sort_by_key(check_key(), cs) == cs,
{
    lemma_sort_by_key_fixed_point(check_key(), cs);
}

} // verus!
