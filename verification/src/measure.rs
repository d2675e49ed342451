//! Measurements: what resolving and probing one host in one cycle yields.

use vstd::prelude::*;
use crate::error::CliError;

verus! {

/// A resolved socket address as the logic reads it: the address family and
/// the textual form of the IP, the port already dropped.
pub struct Addr {
    /// The address is IPv4.
    pub v4: bool,
    /// The textual form of the IP.
    pub ip: String,
}

/// Position of the first IPv4 address at or after `from`; the length when
/// there is none.
pub open spec fn first_v4_index(addrs: Seq<Addr>, from: int) -> int
    decreases addrs.len() - from,
{
    if from < 0 || from >= addrs.len() {
        addrs.len() as int
    } else if addrs[from].v4 {
        from
    } else {
        first_v4_index(addrs, from + 1)
    }
}

/// What `first_v4_index` finds.
pub proof fn lemma_first_v4_index(addrs: Seq<Addr>, from: int)
    requires
        0 <= from <= addrs.len(),
    ensures
        from <= first_v4_index(addrs, from) <= addrs.len(),
        forall|k: int| from <= k < first_v4_index(addrs, from) ==> !(#[trigger] addrs[k]).v4,
        first_v4_index(addrs, from) < addrs.len() ==> addrs[first_v4_index(addrs, from)].v4,
    decreases addrs.len() - from,
{
    if from < addrs.len() && !addrs[from].v4 {
        lemma_first_v4_index(addrs, from + 1);
    }
}

/// The first IPv4 address of the list, when there is one: the probe wants
/// exactly one IPv4 target per host.
pub fn pick_first_ip_addr(addrs: Vec<Addr>) -> (r: Option<Addr>)
    ensures
        (match r {
            Some(a) => first_v4_index(addrs@, 0) < addrs@.len() && a == addrs@[first_v4_index(
                addrs@,
                0,
            )],
            None => first_v4_index(addrs@, 0) == addrs@.len(),
        }),
{
    let n = addrs.len();
    let mut i: usize = 0;
    while i < n && !addrs[i].v4
        invariant
            0 <= i <= n,
            n == addrs@.len(),
            forall|k: int| 0 <= k < i ==> !(#[trigger] addrs@[k]).v4,
        decreases n - i,
    {
        i = i + 1;
    }
    proof {
        lemma_first_v4_index(addrs@, 0);
        let j = first_v4_index(addrs@, 0);
        if i < n {
            assert(addrs@[i as int].v4);
            if j < i {
                assert(!addrs@[j].v4);
                assert(false);
            }
            if j > i {
                assert(!addrs@[i as int].v4);
                assert(false);
            }
        } else {
            if j < addrs@.len() {
                assert(!addrs@[j].v4);
                assert(false);
            }
        }
    }
    if i < n {
        let mut rest = addrs;
        let a = rest.remove(i);
        Some(a)
    } else {
        None
    }
}

/// The diagnostic text for a host whose resolution yielded no usable
/// address; it is never empty, so the error column of such a measurement
/// is never empty.
pub fn not_resolvable_message(host: &str) -> (r: String)
    ensures
        r@ == "could not resolve address: `\""@ + host@ + "\"`"@,
        r@.len() > 0,
{
    let mut m = "could not resolve address: `\"".to_owned();
    m.append(host);
    m.append("\"`");
    proof {
        reveal_strlit("could not resolve address: `\"");
    }
    m
}

/// One cycle entry: the outcome of resolving and probing one host.
pub struct Check {
    /// The canonical host token this entry belongs to.
    pub host: String,
    /// The probed IP's text; empty when resolution failed.
    pub addr: String,
    /// The host answered within the timeout.
    pub available: bool,
    /// Round-trip time in milliseconds; -1 when unavailable.
    pub rtt: i64,
    /// The failure, when there was one.
    pub error: Option<CliError>,
}

/// The measurement invariant: available exactly when no error was recorded,
/// exactly when the round-trip time is non-negative; unavailable entries
/// carry -1.
pub open spec fn measurement_ok(c: Check) -> bool {
    &&& c.available <==> c.error is None
    &&& c.available <==> c.rtt >= 0
    &&& !c.available ==> c.rtt == -1
}

/// What the surrounding loop learned about one host before assembly: either
/// resolution failed or found no IPv4 address, or the probe ran against a
/// resolved address and came back with a round-trip time or an echo failure.
pub enum ProbeOutcome {
    /// No address to probe; the failure says why.
    NotResolved(CliError),
    /// The probe ran against the address whose text is given.
    Probed(String, Result<u32, CliError>),
}

/// The measurement an outcome must yield for a host.
pub open spec fn check_matches(c: Check, host: Seq<char>, o: ProbeOutcome) -> bool {
    &&& c.host@ == host
    &&& measurement_ok(c)
    &&& match o {
        ProbeOutcome::NotResolved(e) => {
            &&& c.addr@.len() == 0
            &&& !c.available
            &&& c.rtt == -1
            &&& c.error == Some(e)
        },
        ProbeOutcome::Probed(a, res) => {
            &&& c.addr@ == a@
            &&& match res {
                Ok(rtt) => {
                    &&& c.available
                    &&& c.rtt == rtt as i64
                    &&& c.error is None
                },
                Err(e) => {
                    &&& !c.available
                    &&& c.rtt == -1
                    &&& c.error == Some(e)
                },
            }
        },
    }
}

/// Assemble the measurement for one host from its outcome.
pub fn check_host(host: &String, outcome: ProbeOutcome) -> (c: Check)
    ensures
        check_matches(c, host@, outcome),
{
    match outcome {
        ProbeOutcome::NotResolved(e) => Check {
            host: host.clone(),
            addr: String::new(),
            available: false,
            rtt: -1,
            error: Some(e),
        },
        ProbeOutcome::Probed(a, res) => match res {
            Ok(rtt) => Check {
                host: host.clone(),
                addr: a,
                available: true,
                rtt: rtt as i64,
                error: None,
            },
            Err(e) => Check {
                host: host.clone(),
                addr: a,
                available: false,
                rtt: -1,
                error: Some(e),
            },
        },
    }
}

/// Assemble one cycle: one measurement per canonical host, in canonical
/// order, each from its outcome.
pub fn check_hosts(hosts: &Vec<String>, outcomes: Vec<ProbeOutcome>) -> (r: Vec<Check>)
    requires
        outcomes@.len() == hosts@.len(),
    ensures
        r@.len() == hosts@.len(),
        forall|i: int|
            0 <= i < r@.len() ==> check_matches(#[trigger] r@[i], hosts@[i]@, outcomes@[i]),
{
    let mut outcomes = outcomes;
    let mut r: Vec<Check> = Vec::new();
    let ghost all = outcomes@;
    let n = hosts.len();
    let mut i: usize = 0;
    while i < n
        invariant
            0 <= i <= n,
            n == hosts@.len(),
            all.len() == n,
            outcomes@ == all.skip(i as int),
            r@.len() == i,
            forall|k: int|
                0 <= k < i ==> check_matches(#[trigger] r@[k], hosts@[k]@, all[k]),
        decreases n - i,
    {
        let o = outcomes.remove(0);
        proof {
            assert(all.skip(i as int)[0] == all[i as int]);
            assert(all.skip(i as int).remove(0) =~= all.skip(i + 1));
        }
        let c = check_host(&hosts[i], o);
        r.push(c);
        i = i + 1;
    }
    r
}

/// The availability law: a measurement is available exactly when its error
/// is absent, exactly when its round-trip time is non-negative.
pub proof fn lemma_measurement_contract(c: Check, host: Seq<char>, o: ProbeOutcome)
    requires
        check_matches(c, host, o),
    ensures
        c.available <==> c.error is None,
        c.available <==> c.rtt >= 0,
        !c.available ==> c.rtt == -1,
{
}

} // verus!
