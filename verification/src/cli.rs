//! Validated configuration and the canonical host list.

use vstd::prelude::*;
use crate::error::CliError;
use crate::numerals::{
    all_digits, dec_rep, digits_val, parse_decimal, u64_to_string, DecimalParse,
};
use crate::order::{
    insert_by, lemma_insert_by_at, lemma_sort_by_key_fixed_point, lemma_sort_by_key_sorted,
    sort_by_key, sorted_by_key,
};
use crate::text::{lex_le, split_comma, split_comma_exec, str_le, trim, trim_spec};

verus! {

/// The views of a list of strings.
pub open spec fn str_views(v: Seq<String>) -> Seq<Seq<char>> {
    v.map_values(|s: String| s@)
}

/// The key a host list is ordered by: the host token itself.
pub open spec fn id_key() -> spec_fn(Seq<char>) -> Seq<char> {
    |h: Seq<char>| h
}

/// The trimmed, non-empty fragments kept from the pieces of one raw token.
pub open spec fn kept_fragments(parts: Seq<Seq<char>>) -> Seq<Seq<char>>
    decreases parts.len(),
{
    if parts.len() == 0 {
        Seq::empty()
    } else {
        let done = kept_fragments(parts.drop_last());
        let t = trim_spec(parts.last());
        if t.len() > 0 {
            done + seq![t]
        } else {
            done
        }
    }
}

/// Every trimmed, non-empty fragment of the raw token list, in input order:
/// each token split at its commas, each piece trimmed, empty pieces dropped.
pub open spec fn canonical_fragments(tokens: Seq<Seq<char>>) -> Seq<Seq<char>>
    decreases tokens.len(),
{
    if tokens.len() == 0 {
        Seq::empty()
    } else {
        canonical_fragments(tokens.drop_last()) + kept_fragments(split_comma(tokens.last()))
    }
}

/// The canonical host list: the kept fragments in byte-wise lexicographic
/// order, equal tokens kept in input order.
pub open spec fn canonical_hosts_spec(tokens: Seq<Seq<char>>) -> Seq<Seq<char>> {
    sort_by_key(id_key(), canonical_fragments(tokens))
}

/// Validated configuration: where records go, how often a cycle runs, how
/// long one probe may take, and the raw host tokens.
pub struct Opt {
    /// Output file; standard output when absent.
    pub output: Option<String>,
    /// Interval between pings, in whole seconds.
    pub interval: u64,
    /// Timeout for each ping, in whole seconds.
    pub timeout: u64,
    /// Hosts to ping, as given on the command line.
    pub hosts: Vec<String>,
}

/// The bounds `validate` enforces.
pub open spec fn valid_options(o: Opt) -> bool {
    &&& o.interval >= 1
    &&& o.timeout >= 1
    &&& o.hosts@.len() > 0
}

/// Build the configuration from its parts.
pub fn new_opt(output: Option<String>, interval: u64, timeout: u64, hosts: Vec<String>) -> (o: Opt)
    ensures
        o.output == output,
        o.interval == interval,
        o.timeout == timeout,
        o.hosts == hosts,
{
    Opt { output, interval, timeout, hosts }
}

impl Opt {
    /// Accept the configuration, or say which bound it breaks: the interval
    /// and the timeout must be at least one second, and at least one host
    /// must be given.
    pub fn validate(&self) -> (r: Result<(), String>)
        ensures
            r is Ok <==> valid_options(*self),
            self.interval < 1 ==> (r matches Err(m) && m@ == "interval "@ + dec_rep(
                self.interval as int,
            ) + " too short: use a value greater than 1 (second)"@),
            self.interval >= 1 && self.timeout < 1 ==> (r matches Err(m) && m@ == "timeout "@
                + dec_rep(self.timeout as int)
                + " too short: use a value greater than 1 (second)"@),
            self.interval >= 1 && self.timeout >= 1 && self.hosts@.len() == 0 ==> (r matches Err(m)
                && m@ == "no hosts provided"@),
    {
        if self.interval < 1 {
            let mut m = "interval ".to_owned();
            let num = u64_to_string(self.interval);
            m.append(num.as_str());
            m.append(" too short: use a value greater than 1 (second)");
            return Err(m);
        }
        if self.timeout < 1 {
            let mut m = "timeout ".to_owned();
            let num = u64_to_string(self.timeout);
            m.append(num.as_str());
            m.append(" too short: use a value greater than 1 (second)");
            return Err(m);
        }
        if self.hosts.len() == 0 {
            return Err("no hosts provided".to_owned());
        }
        Ok(())
    }

    /// The canonical host list of this configuration.
    pub fn hosts(&self) -> (r: Vec<String>)
        ensures
            str_views(r@) == canonical_hosts_spec(str_views(self.hosts@)),
    {
        let fragments = split_args(&self.hosts);
        sort_hosts(fragments)
    }
}

/// Read a whole-second duration: the token is trimmed, an optional leading
/// plus sign is allowed, and the rest must be decimal digits whose value
/// fits in 64 bits.
pub open spec fn duration_body(s: Seq<char>) -> Seq<char> {
    let t = trim_spec(s);
    if t.len() > 0 && t[0] == '+' {
        t.skip(1)
    } else {
        t
    }
}

/// Parse a duration given in whole seconds.
pub fn parse_duration(src: &str) -> (r: Result<u64, CliError>)
    ensures
        (if trim_spec(src@).len() == 0 {
            r matches Err(e) && e matches CliError::ParseIntError(m) && m@
                == "cannot parse integer from empty string"@
        } else if duration_body(src@).len() == 0 || !all_digits(duration_body(src@)) {
            r matches Err(e) && e matches CliError::ParseIntError(m) && m@
                == "invalid digit found in string"@
        } else if digits_val(duration_body(src@)) > u64::MAX {
            r matches Err(e) && e matches CliError::ParseIntError(m) && m@
                == "number too large to fit in target type"@
        } else {
            r == Ok::<u64, CliError>(digits_val(duration_body(src@)) as u64)
        }),
{
    let t = trim(src);
    let n = t.unicode_len();
    if n == 0 {
        return Err(
            CliError::ParseIntError("cannot parse integer from empty string".to_owned()),
        );
    }
    let body = if t.get_char(0) == '+' {
        t.substring_char(1, n)
    } else {
        t
    };
    proof {
        assert(trim_spec(src@)[0] == t@[0]);
        if t@[0] == '+' {
            assert(body@ =~= duration_body(src@));
        } else {
            assert(body@ =~= duration_body(src@));
        }
    }
    match parse_decimal(body) {
        DecimalParse::Value(v) => Ok(v),
        DecimalParse::NotDecimal => Err(
            CliError::ParseIntError("invalid digit found in string".to_owned()),
        ),
        DecimalParse::TooLarge => Err(
            CliError::ParseIntError("number too large to fit in target type".to_owned()),
        ),
    }
}

/// Flatten the raw tokens into trimmed, non-empty fragments, in input order.
pub fn split_args(v: &Vec<String>) -> (r: Vec<String>)
    ensures
        str_views(r@) == canonical_fragments(str_views(v@)),
{
    let ghost toks = str_views(v@);
    let mut r: Vec<String> = Vec::new();
    let n = v.len();
    let mut i: usize = 0;
    while i < n
        invariant
            0 <= i <= n,
            n == v@.len(),
            toks == str_views(v@),
            toks.len() == n,
            str_views(r@) == canonical_fragments(toks.take(i as int)),
        decreases n - i,
    {
        proof {
            assert(toks[i as int] == v@[i as int]@);
        }
        let parts = split_comma_exec(v[i].as_str());
        let ghost pieces = split_comma(toks[i as int]);
        proof {
            assert(str_views(parts@) == pieces);
        }
        let m = parts.len();
        let mut j: usize = 0;
        while j < m
            invariant
                0 <= j <= m,
                m == parts@.len(),
                pieces == str_views(parts@),
                pieces.len() == m,
                toks == str_views(v@),
                0 <= i < toks.len(),
                pieces == split_comma(toks[i as int]),
                str_views(r@) == canonical_fragments(toks.take(i as int)) + kept_fragments(
                    pieces.take(j as int),
                ),
            decreases m - j,
        {
            proof {
                assert(pieces[j as int] == parts@[j as int]@);
                assert(pieces.take(j + 1).drop_last() =~= pieces.take(j as int));
                assert(pieces.take(j + 1).last() == pieces[j as int]);
            }
            let piece = trim(parts[j].as_str());
            let ghost before = r@;
            if piece.unicode_len() > 0 {
                r.push(piece.to_owned());
                proof {
                    assert(r@ == before.push(r@[before.len() as int]));
                    assert forall|k: int| 0 <= k < r@.len() implies #[trigger] str_views(r@)[k]
                        == (str_views(before) + seq![trim_spec(pieces[j as int])])[k] by {
                        assert(str_views(r@)[k] == r@[k]@);
                        if k < before.len() {
                            assert(r@[k] == before[k]);
                            assert(str_views(before)[k] == before[k]@);
                        } else {
                            assert(r@[k]@ == trim_spec(pieces[j as int]));
                        }
                    }
                    assert(str_views(r@) =~= str_views(before) + seq![
                        trim_spec(pieces[j as int]),
                    ]);
                }
            }
            j = j + 1;
        }
        proof {
            assert(pieces.take(m as int) =~= pieces);
            assert(toks.take(i + 1).drop_last() =~= toks.take(i as int));
            assert(toks.take(i + 1).last() == toks[i as int]);
            assert(canonical_fragments(toks.take(i + 1)) == canonical_fragments(toks.take(i as int))
                + kept_fragments(pieces));
        }
        i = i + 1;
    }
    proof {
        assert(toks.take(n as int) =~= toks);
    }
    r
}

/// Insert one host into a list ordered by `id_key`, after any equal tokens.
fn insert_host(v: &mut Vec<String>, x: String)
    ensures
        str_views(final(v)@) == insert_by(id_key(), x@, str_views(old(v)@)),
{
    let ghost m = str_views(v@);
    let n = v.len();
    let mut j: usize = 0;
    while j < n && str_le(v[j].as_str(), x.as_str())
        invariant
            0 <= j <= n,
            n == v@.len(),
            v@ == old(v)@,
            m == str_views(v@),
            m.len() == n,
            forall|k: int| 0 <= k < j ==> lex_le(#[trigger] m[k], x@),
        decreases n - j,
    {
        proof {
            assert(m[j as int] == v@[j as int]@);
        }
        j = j + 1;
    }
    proof {
        if j < n {
            assert(m[j as int] == v@[j as int]@);
            assert(!lex_le(id_key()(m[j as int]), id_key()(x@)));
        }
        assert forall|k: int| 0 <= k < j implies lex_le(id_key()(#[trigger] m[k]), id_key()(x@)) by {
            assert(lex_le(m[k], x@));
        }
        lemma_insert_by_at(id_key(), x@, m, j as int);
    }
    let ghost prev = v@;
    v.insert(j, x);
    proof {
        let whole = m.take(j as int) + seq![x@] + m.skip(j as int);
        assert(v@ == prev.insert(j as int, x));
        assert forall|k: int| 0 <= k < v@.len() implies #[trigger] str_views(v@)[k]
            == whole[k] by {
            assert(str_views(v@)[k] == v@[k]@);
            if k < j {
                assert(v@[k] == prev[k]);
                assert(str_views(prev)[k] == prev[k]@);
                assert(whole[k] == m.take(j as int)[k]);
            } else if k == j {
                assert(v@[k] == x);
            } else {
                assert(v@[k] == prev[k - 1]);
                assert(str_views(prev)[k - 1] == prev[k - 1]@);
                assert(whole[k] == m.skip(j as int)[k - j - 1]);
            }
        }
        assert(str_views(v@) =~= whole);
    }
}

/// Sort a host list into canonical byte-wise lexicographic order, keeping
/// equal tokens in input order.
pub fn sort_hosts(v: Vec<String>) -> (r: Vec<String>)
    ensures
        str_views(r@) == sort_by_key(id_key(), str_views(v@)),
{
    let ghost all = str_views(v@);
    let mut rem = v;
    let mut r: Vec<String> = Vec::new();
    let ghost orig = rem@;
    let n = rem.len();
    let mut i: usize = 0;
    while i < n
        invariant
            0 <= i <= n,
            n == orig.len(),
            all == str_views(orig),
            all.len() == n,
            rem@ == orig.skip(i as int),
            str_views(r@) == sort_by_key(id_key(), all.take(i as int)),
        decreases n - i,
    {
        let x = rem.remove(0);
        proof {
            assert(orig.skip(i as int)[0] == orig[i as int]);
            assert(orig.skip(i as int).remove(0) =~= orig.skip(i + 1));
        }
        insert_host(&mut r, x);
        proof {
            assert(str_views(orig)[i as int] == orig[i as int]@);
            assert(x@ == all[i as int]);
            assert(all.take(i + 1).drop_last() =~= all.take(i as int));
            assert(all.take(i + 1).last() == all[i as int]);
            assert(sort_by_key(id_key(), all.take(i + 1)) == insert_by(
                id_key(),
                all[i as int],
                sort_by_key(id_key(), all.take(i as int)),
            ));
        }
        i = i + 1;
    }
    proof {
        assert(all.take(n as int) =~= all);
    }
    r
}

/// Two runs over the same raw token list give the same canonical list: the
/// canonical order is a function of the input alone.
pub proof fn lemma_canonical_deterministic(a: Seq<Seq<char>>, b: Seq<Seq<char>>)
    requires
        a == b,
    ensures
        canonical_hosts_spec(a) == canonical_hosts_spec(b),
{
}

/// The canonical host list is sorted.
pub proof fn lemma_canonical_sorted(tokens: Seq<Seq<char>>)
    ensures
        sorted_by_key(id_key(), canonical_hosts_spec(tokens)),
{
    lemma_sort_by_key_sorted(id_key(), canonical_fragments(tokens));
}

/// Re-sorting the canonical host list is a fixed point.
pub proof fn lemma_canonical_fixed_point(tokens: Seq<Seq<char>>)
    ensures
        sort_by_key(id_key(), canonical_hosts_spec(tokens)) == canonical_hosts_spec(tokens),
{
    lemma_canonical_sorted(tokens);
    lemma_sort_by_key_fixed_point(id_key(), canonical_hosts_spec(tokens));
}

} // verus!
