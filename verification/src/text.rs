//! Character classes and byte-wise lexicographic order on strings.

use vstd::prelude::*;

verus! {

/// Whitespace, the class trimmed from host fragments and duration tokens:
/// the characters with the Unicode White_Space property, the same class
/// `char::is_whitespace` recognises.
pub open spec fn is_space(c: char) -> bool {
    let u = c as u32;
    (9 <= u && u <= 13) || u == 0x20 || u == 0x85 || u == 0xA0 || u == 0x1680 || (0x2000 <= u
        && u <= 0x200A) || u == 0x2028 || u == 0x2029 || u == 0x202F || u == 0x205F || u == 0x3000
}

/// Lexicographic order on character sequences by code point; on the
/// UTF-8 encodings of two strings this coincides with byte-wise order.
pub open spec fn lex_le(a: Seq<char>, b: Seq<char>) -> bool
    decreases a.len(),
{
    if a.len() == 0 {
        true
    } else if b.len() == 0 {
        false
    } else if a[0] == b[0] {
        lex_le(a.skip(1), b.skip(1))
    } else {
        (a[0] as u32) < (b[0] as u32)
    }
}

/// Distinct characters have distinct code points.
pub proof fn lemma_distinct_codes(a: char, b: char)
    requires
        a != b,
    ensures
        (a as u32) != (b as u32),
{
}

/// `lex_le` is total: any two sequences are comparable.
pub proof fn lemma_lex_le_total(a: Seq<char>, b: Seq<char>)
    ensures
        lex_le(a, b) || lex_le(b, a),
    decreases a.len(),
{
    if a.len() == 0 || b.len() == 0 {
    } else if a[0] == b[0] {
        lemma_lex_le_total(a.skip(1), b.skip(1));
    } else {
        lemma_distinct_codes(a[0], b[0]);
    }
}

/// `lex_le` is transitive.
pub proof fn lemma_lex_le_trans(a: Seq<char>, b: Seq<char>, c: Seq<char>)
    requires
        lex_le(a, b),
        lex_le(b, c),
    ensures
        lex_le(a, c),
    decreases a.len(),
{
    if a.len() == 0 || b.len() == 0 || c.len() == 0 {
    } else if a[0] == b[0] && b[0] == c[0] {
        lemma_lex_le_trans(a.skip(1), b.skip(1), c.skip(1));
    }
}

/// Sequences that agree on a prefix are ordered as their remainders are.
pub proof fn lemma_lex_le_common_prefix(a: Seq<char>, b: Seq<char>, i: int)
    requires
        0 <= i <= a.len(),
        i <= b.len(),
        a.subrange(0, i) == b.subrange(0, i),
    ensures
        lex_le(a, b) == lex_le(a.skip(i), b.skip(i)),
    decreases i,
{
    if i > 0 {
        assert forall|j: int| 0 <= j < i implies #[trigger] a[j] == b[j] by {
            assert(a.subrange(0, i)[j] == a[j]);
            assert(b.subrange(0, i)[j] == b[j]);
        }
        assert(a.len() > 0 && b.len() > 0);
        assert(a[0] == b[0]);
        assert(a.skip(1).len() == a.len() - 1);
        assert(b.skip(1).len() == b.len() - 1);
        assert(a.skip(1).subrange(0, i - 1) =~= b.skip(1).subrange(0, i - 1));
        lemma_lex_le_common_prefix(a.skip(1), b.skip(1), i - 1);
        assert(lex_le(a, b) == lex_le(a.skip(1), b.skip(1)));
        assert(a.skip(1).skip(i - 1) =~= a.skip(i));
        assert(b.skip(1).skip(i - 1) =~= b.skip(i));
        assert(lex_le(a.skip(1), b.skip(1)) == lex_le(a.skip(i), b.skip(i)));
    } else {
        assert(a.skip(0) =~= a);
        assert(b.skip(0) =~= b);
    }
}

/// What is left of `s` once leading whitespace goes.
pub open spec fn trim_start_spec(s: Seq<char>) -> Seq<char>
    decreases s.len(),
{
    if s.len() > 0 && is_space(s[0]) {
        trim_start_spec(s.skip(1))
    } else {
        s
    }
}

/// What is left of `s` once trailing whitespace goes.
pub open spec fn trim_end_spec(s: Seq<char>) -> Seq<char>
    decreases s.len(),
{
    if s.len() > 0 && is_space(s.last()) {
        trim_end_spec(s.drop_last())
    } else {
        s
    }
}

/// `s` without leading and trailing whitespace.
pub open spec fn trim_spec(s: Seq<char>) -> Seq<char> {
    trim_end_spec(trim_start_spec(s))
}

/// Dropping a fully-space prefix is what `trim_start_spec` does.
pub proof fn lemma_trim_start_at(s: Seq<char>, a: int)
    requires
        0 <= a <= s.len(),
        forall|k: int| 0 <= k < a ==> is_space(#[trigger] s[k]),
        a < s.len() ==> !is_space(s[a]),
    ensures
        trim_start_spec(s) == s.skip(a),
    decreases a,
{
    if a == 0 {
        assert(s.skip(0) =~= s);
    } else {
        assert(is_space(s[0]));
        let t = s.skip(1);
        assert(t.len() == s.len() - 1);
        assert forall|k: int| 0 <= k < a - 1 implies is_space(#[trigger] t[k]) by {
            assert(t[k] == s[k + 1]);
        }
        if a - 1 < t.len() {
            assert(t[a - 1] == s[a]);
        }
        lemma_trim_start_at(t, a - 1);
        assert(t.skip(a - 1) =~= s.skip(a));
    }
}

/// Dropping a fully-space suffix is what `trim_end_spec` does.
pub proof fn lemma_trim_end_at(s: Seq<char>, b: int)
    requires
        0 <= b <= s.len(),
        forall|k: int| b <= k < s.len() ==> is_space(#[trigger] s[k]),
        b > 0 ==> !is_space(s[b - 1]),
    ensures
        trim_end_spec(s) == s.take(b),
    decreases s.len() - b,
{
    if b == s.len() {
        if s.len() > 0 {
            assert(!is_space(s.last()));
        }
        assert(s.take(b) =~= s);
    } else {
        assert(is_space(s[s.len() - 1]));
        let t = s.drop_last();
        assert(t.len() == s.len() - 1);
        assert forall|k: int| b <= k < t.len() implies is_space(#[trigger] t[k]) by {
            assert(t[k] == s[k]);
        }
        if b > 0 {
            assert(t[b - 1] == s[b - 1]);
        }
        lemma_trim_end_at(t, b);
        assert(t.take(b) =~= s.take(b));
    }
}

/// Decide `is_space`.
pub fn is_space_ch(c: char) -> (r: bool)
    ensures
        r == is_space(c),
{
    let u = c as u32;
    (9 <= u && u <= 13) || u == 0x20 || u == 0x85 || u == 0xA0 || u == 0x1680 || (0x2000 <= u
        && u <= 0x200A) || u == 0x2028 || u == 0x2029 || u == 0x202F || u == 0x205F || u == 0x3000
}

/// Trim leading and trailing whitespace from a string.
pub fn trim(s: &str) -> (r: &str)
    ensures
        r@ == trim_spec(s@),
{
    let n = s.unicode_len();
    let mut a: usize = 0;
    while a < n && is_space_ch(s.get_char(a))
        invariant
            0 <= a <= n,
            n == s@.len(),
            forall|k: int| 0 <= k < a ==> is_space(#[trigger] s@[k]),
        decreases n - a,
    {
        a = a + 1;
    }
    let mut b: usize = n;
    while b > a && is_space_ch(s.get_char(b - 1))
        invariant
            a <= b <= n,
            n == s@.len(),
            forall|k: int| b <= k < n ==> is_space(#[trigger] s@[k]),
        decreases b,
    {
        b = b - 1;
    }
    proof {
        lemma_trim_start_at(s@, a as int);
        let t = s@.skip(a as int);
        assert(t.len() == n - a);
        assert forall|k: int| b - a <= k < t.len() implies is_space(#[trigger] t[k]) by {
            assert(t[k] == s@[k + a]);
        }
        if b > a {
            assert(t[b - a - 1] == s@[b - 1]);
        }
        lemma_trim_end_at(t, b - a as int);
        assert(t.take(b - a as int) =~= s@.subrange(a as int, b as int));
    }
    s.substring_char(a, b)
}

/// The pieces of `s` between its commas, in order; no comma, one piece.
pub open spec fn split_comma(s: Seq<char>) -> Seq<Seq<char>>
    decreases s.len(),
{
    if s.len() == 0 {
        seq![Seq::<char>::empty()]
    } else if s[0] == ',' {
        seq![Seq::<char>::empty()] + split_comma(s.skip(1))
    } else {
        let r = split_comma(s.skip(1));
        seq![seq![s[0]] + r[0]] + r.skip(1)
    }
}

/// There is always at least one piece.
pub proof fn lemma_split_comma_len(s: Seq<char>)
    ensures
        split_comma(s).len() >= 1,
    decreases s.len(),
{
    if s.len() > 0 {
        lemma_split_comma_len(s.skip(1));
    }
}

/// Up to the first comma lies the first piece; after it, the remaining ones.
pub proof fn lemma_split_comma_at(s: Seq<char>, j: int)
    requires
        0 <= j <= s.len(),
        forall|k: int| 0 <= k < j ==> #[trigger] s[k] != ',',
        j < s.len() ==> s[j] == ',',
    ensures
        j == s.len() ==> split_comma(s) == seq![s],
        j < s.len() ==> split_comma(s) == seq![s.take(j)] + split_comma(s.skip(j + 1)),
    decreases j,
{
    if j == 0 {
        if s.len() == 0 {
            assert(s =~= Seq::<char>::empty());
        } else {
            assert(s[0] == ',');
            assert(s.take(0) =~= Seq::<char>::empty());
            assert(split_comma(s) == seq![s.take(0)] + split_comma(s.skip(1)));
        }
    } else {
        assert(s[0] != ',');
        let t = s.skip(1);
        assert(t.len() == s.len() - 1);
        assert forall|k: int| 0 <= k < j - 1 implies #[trigger] t[k] != ',' by {
            assert(t[k] == s[k + 1]);
        }
        if j - 1 < t.len() {
            assert(t[j - 1] == s[j]);
        }
        lemma_split_comma_at(t, j - 1);
        let r = split_comma(t);
        lemma_split_comma_len(t);
        if j == s.len() {
            assert(r == seq![t]);
            assert(r[0] == t);
            assert(r.skip(1) =~= Seq::<Seq<char>>::empty());
            assert(seq![s[0]] + t =~= s);
            assert(seq![seq![s[0]] + r[0]] + r.skip(1) =~= seq![s]);
        } else {
            assert(r == seq![t.take(j - 1)] + split_comma(t.skip(j)));
            assert(r[0] == t.take(j - 1));
            assert(r.skip(1) =~= split_comma(t.skip(j)));
            assert(seq![s[0]] + t.take(j - 1) =~= s.take(j));
            assert(t.skip(j) =~= s.skip(j + 1));
            assert(seq![seq![s[0]] + r[0]] + r.skip(1) =~= seq![s.take(j)] + split_comma(
                s.skip(j + 1),
            ));
        }
    }
}

/// Split a string at its commas.
pub fn split_comma_exec(s: &str) -> (r: Vec<String>)
    ensures
        r@.map_values(|s: String| s@) == split_comma(s@),
    decreases s@.len(),
{
    let n = s.unicode_len();
    let mut j: usize = 0;
    while j < n && s.get_char(j) != ','
        invariant
            0 <= j <= n,
            n == s@.len(),
            forall|k: int| 0 <= k < j ==> #[trigger] s@[k] != ',',
        decreases n - j,
    {
        j = j + 1;
    }
    proof {
        lemma_split_comma_at(s@, j as int);
    }
    if j == n {
        let mut r: Vec<String> = Vec::new();
        r.push(s.to_owned());
        proof {
            assert(r@.map_values(|s: String| s@) =~= seq![s@]);
        }
        r
    } else {
        let head = s.substring_char(0, j);
        let rest = s.substring_char(j + 1, n);
        proof {
            assert(rest@ =~= s@.skip(j + 1));
            assert(head@ =~= s@.take(j as int));
        }
        let head_string = head.to_owned();
        let mut r = split_comma_exec(rest);
        let ghost prev = r@;
        r.insert(0, head_string);
        proof {
            let view = |s: String| s@;
            let whole = seq![s@.take(j as int)] + split_comma(s@.skip(j + 1));
            assert(prev.map_values(view) == split_comma(s@.skip(j + 1)));
            assert(r@ == prev.insert(0, head_string));
            assert(r@.len() == prev.len() + 1);
            assert forall|k: int| 0 <= k < r@.len() implies #[trigger] r@.map_values(view)[k]
                == whole[k] by {
                assert(r@.map_values(view)[k] == view(r@[k]));
                if k == 0 {
                    assert(r@[0] == head_string);
                } else {
                    assert(r@[k] == prev[k - 1]);
                    assert(prev.map_values(view)[k - 1] == view(prev[k - 1]));
                }
            }
            assert(r@.map_values(view) =~= whole);
        }
        r
    }
}

/// Decide `lex_le` on two strings.
pub fn str_le(a: &str, b: &str) -> (r: bool)
    ensures
        r == lex_le(a@, b@),
{
    let an = a.unicode_len();
    let bn = b.unicode_len();
    let mut i: usize = 0;
    loop
        invariant
            i <= an,
            i <= bn,
            an == a@.len(),
            bn == b@.len(),
            a@.subrange(0, i as int) == b@.subrange(0, i as int),
        decreases an - i,
    {
        proof {
            lemma_lex_le_common_prefix(a@, b@, i as int);
        }
        if i >= an {
            assert(a@.skip(i as int).len() == 0);
            return true;
        }
        if i >= bn {
            assert(b@.skip(i as int).len() == 0);
            return false;
        }
        let ca = a.get_char(i);
        let cb = b.get_char(i);
        assert(a@.skip(i as int)[0] == a@[i as int]);
        assert(b@.skip(i as int)[0] == b@[i as int]);
        if ca != cb {
            assert(lex_le(a@.skip(i as int), b@.skip(i as int)) == ((ca as u32) < (cb as u32)));
            return (ca as u32) < (cb as u32);
        }
        assert forall|j: int| 0 <= j < i implies #[trigger] a@[j] == b@[j] by {
            assert(a@.subrange(0, i as int)[j] == a@[j]);
            assert(b@.subrange(0, i as int)[j] == b@[j]);
        }
        assert(a@.subrange(0, i + 1 as int) =~= b@.subrange(0, i + 1 as int));
        i = i + 1;
    }
}

} // verus!
