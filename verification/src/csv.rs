//! The delimited output format: semicolon-separated fields, one row per
//! line, a field quoted exactly when it holds the delimiter, a quote, or a
//! line terminator.

use vstd::prelude::*;

verus! {

/// A field must be quoted: it holds the delimiter, a quote, or a line
/// terminator.
pub open spec fn needs_quote(f: Seq<char>) -> bool {
    exists|i: int|
        0 <= i < f.len() && (#[trigger] f[i] == ';' || f[i] == '"' || f[i] == '\n' || f[i] == '\r')
}

/// The field's characters with every quote doubled.
pub open spec fn escaped(f: Seq<char>) -> Seq<char>
    decreases f.len(),
{
    if f.len() == 0 {
        Seq::empty()
    } else {
        (if f[0] == '"' {
            seq!['"', '"']
        } else {
            seq![f[0]]
        }) + escaped(f.skip(1))
    }
}

/// A field as written: quoted and escaped when it must be, bare otherwise.
pub open spec fn rendered_field(f: Seq<char>) -> Seq<char> {
    if needs_quote(f) {
        seq!['"'] + escaped(f) + seq!['"']
    } else {
        f
    }
}

/// The fields of one row joined by the semicolon delimiter.
pub open spec fn rendered_fields(fs: Seq<Seq<char>>) -> Seq<char>
    decreases fs.len(),
{
    if fs.len() == 0 {
        Seq::empty()
    } else if fs.len() == 1 {
        rendered_field(fs[0])
    } else {
        rendered_field(fs[0]) + seq![';'] + rendered_fields(fs.skip(1))
    }
}

/// One row: the joined fields and a line terminator.
pub open spec fn rendered_row(fs: Seq<Seq<char>>) -> Seq<char> {
    rendered_fields(fs) + seq!['\n']
}

/// A row splits at any inner field boundary.
pub proof fn lemma_rendered_fields_split(fs: Seq<Seq<char>>, i: int)
    requires
        1 <= i < fs.len(),
    ensures
        rendered_fields(fs) == rendered_fields(fs.take(i)) + seq![';'] + rendered_fields(
            fs.skip(i),
        ),
    decreases i,
{
    if i == 1 {
        assert(fs.take(1).len() == 1);
        assert(fs.take(1)[0] == fs[0]);
        assert(rendered_fields(fs.take(1)) == rendered_field(fs[0]));
        assert(fs.len() > 1);
    } else {
        lemma_rendered_fields_split(fs, i - 1);
        let hd = fs.take(i - 1);
        let tl = fs.skip(i - 1);
        assert(tl.len() == fs.len() - i + 1 >= 2);
        assert(rendered_fields(tl) == rendered_field(tl[0]) + seq![';'] + rendered_fields(
            tl.skip(1),
        ));
        assert(tl.skip(1) =~= fs.skip(i));
        assert(tl[0] == fs[i - 1]);
        let a = fs.take(i);
        assert(a.len() == i >= 2);
        lemma_rendered_fields_split(a, i - 1);
        assert(a.take(i - 1) =~= fs.take(i - 1));
        assert(a.skip(i - 1).len() == 1);
        assert(a.skip(i - 1)[0] == fs[i - 1]);
        assert(rendered_fields(a.skip(i - 1)) == rendered_field(fs[i - 1]));
    }
}

/// Decide whether a character forces quoting.
fn is_special_ch(c: char) -> (r: bool)
    ensures
        r == (c == ';' || c == '"' || c == '\n' || c == '\r'),
{
    c == ';' || c == '"' || c == '\n' || c == '\r'
}

/// Decide `needs_quote`.
pub fn field_needs_quote(f: &str) -> (r: bool)
    ensures
        r == needs_quote(f@),
{
    let n = f.unicode_len();
    let mut i: usize = 0;
    while i < n
        invariant
            0 <= i <= n,
            n == f@.len(),
            forall|k: int|
                0 <= k < i ==> !(#[trigger] f@[k] == ';' || f@[k] == '"' || f@[k] == '\n'
                    || f@[k] == '\r'),
        decreases n - i,
    {
        if is_special_ch(f.get_char(i)) {
            assert(needs_quote(f@));
            return true;
        }
        i = i + 1;
    }
    false
}

/// Append one field, rendered, to the row being built.
pub fn render_field_into(out: &mut String, f: &str)
    ensures
        final(out)@ == old(out)@ + rendered_field(f@),
{
    let ghost base = out@;
    if !field_needs_quote(f) {
        out.append(f);
        return ;
    }
    out.append("\"");
    proof {
        reveal_strlit("\"");
        assert("\""@ =~= seq!['"']);
        assert(f@.skip(0) =~= f@);
    }
    let n = f.unicode_len();
    let mut i: usize = 0;
    while i < n
        invariant
            0 <= i <= n,
            n == f@.len(),
            needs_quote(f@),
            out@ + escaped(f@.skip(i as int)) == base + seq!['"'] + escaped(f@),
        decreases n - i,
    {
        let c = f.get_char(i);
        proof {
            assert(f@.skip(i as int).len() > 0);
            assert(f@.skip(i as int)[0] == f@[i as int]);
            assert(f@.skip(i as int).skip(1) =~= f@.skip(i + 1));
        }
        if c == '"' {
            out.append("\"\"");
            proof {
                reveal_strlit("\"\"");
                assert("\"\""@ =~= seq!['"', '"']);
            }
        } else {
            let piece = f.substring_char(i, i + 1);
            proof {
                assert(piece@ =~= seq![f@[i as int]]);
            }
            out.append(piece);
        }
        i = i + 1;
    }
    proof {
        assert(f@.skip(n as int).len() == 0);
        assert(escaped(f@.skip(n as int)) =~= Seq::<char>::empty());
        assert(out@ + Seq::<char>::empty() =~= out@);
    }
    out.append("\"");
}

/// Render one row from its fields.
pub fn format_row(fields: &Vec<String>) -> (r: String)
    ensures
        r@ == rendered_row(fields@.map_values(|f: String| f@)),
{
    let ghost m = fields@.map_values(|f: String| f@);
    let mut out = String::new();
    let n = fields.len();
    assert(m.len() == n);
    let mut i: usize = 0;
    while i < n
        invariant
            0 <= i <= n,
            n == fields@.len(),
            m == fields@.map_values(|f: String| f@),
            m.len() == n,
            out@ == rendered_fields(m.take(i as int)),
        decreases n - i,
    {
        if i > 0 {
            out.append(";");
            proof {
                reveal_strlit(";");
                assert(";"@ =~= seq![';']);
            }
        }
        proof {
            assert(m[i as int] == fields@[i as int]@);
        }
        render_field_into(&mut out, fields[i].as_str());
        proof {
            let a = m.take(i + 1);
            if i == 0 {
                assert(a.len() == 1);
                assert(a[0] == m[0]);
                assert(rendered_fields(m.take(0)) =~= Seq::<char>::empty());
                assert(out@ =~= rendered_field(m[0]));
                assert(rendered_fields(a) == rendered_field(a[0]));
            } else {
                lemma_rendered_fields_split(a, i as int);
                assert(a.take(i as int) =~= m.take(i as int));
                assert(a.skip(i as int).len() == 1);
                assert(a.skip(i as int)[0] == m[i as int]);
                assert(rendered_fields(a.skip(i as int)) == rendered_field(m[i as int]));
            }
        }
        i = i + 1;
    }
    proof {
        assert(m.take(n as int) =~= m);
    }
    out.append("\n");
    proof {
        reveal_strlit("\n");
        assert("\n"@ =~= seq!['\n']);
    }
    out
}

/// A field that must be quoted is written quoted and escaped; one that need
/// not be is written as it stands.
pub proof fn lemma_quoting(f: Seq<char>)
    ensures
        needs_quote(f) ==> rendered_field(f) == seq!['"'] + escaped(f) + seq!['"'],
        !needs_quote(f) ==> rendered_field(f) == f,
{
}

} // verus!
