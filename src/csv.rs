use crate::text::chars_of;
use vstd::prelude::*;

verus! {

/// Whether a field holds a character that CSV must quote: a comma, a double
/// quote or a line feed.
pub open spec fn needs_quoting(s: Seq<char>) -> bool {
    exists|i: int| 0 <= i < s.len() && (#[trigger] s[i] == ',' || s[i] == '"' || s[i] == '\n')
}

/// `s` with every double quote written twice.
pub open spec fn doubled_quotes(s: Seq<char>) -> Seq<char>
    decreases s.len(),
{
    if s.len() == 0 {
        Seq::empty()
    } else {
        doubled_quotes(s.drop_last()) + if s.last() == '"' {
            seq!['"', '"']
        } else {
            seq![s.last()]
        }
    }
}

/// `s` with each pair of double quotes, read from the left, made one.
pub open spec fn undoubled_quotes(s: Seq<char>) -> Seq<char>
    decreases s.len(),
{
    if s.len() == 0 {
        Seq::empty()
    } else if s.len() >= 2 && s[0] == '"' && s[1] == '"' {
        seq!['"'] + undoubled_quotes(s.skip(2))
    } else {
        seq![s[0]] + undoubled_quotes(s.drop_first())
    }
}

/// A field as written in a CSV line: quoted, with inner quotes doubled,
/// where it needs quoting; as it is otherwise.
pub open spec fn csv_escaped(s: Seq<char>) -> Seq<char> {
    if needs_quoting(s) {
        seq!['"'] + doubled_quotes(s) + seq!['"']
    } else {
        s
    }
}

/// A field read from a CSV line: where it is enclosed in double quotes, the
/// inside with doubled quotes made single; as it is otherwise.
pub open spec fn csv_unescaped(s: Seq<char>) -> Seq<char> {
    if s.len() >= 2 && s[0] == '"' && s.last() == '"' {
        undoubled_quotes(s.subrange(1, s.len() - 1))
    } else {
        s
    }
}

/// Writes a field for a CSV line.
pub fn escape_csv(text: &str) -> (r: String)
    ensures
        r@ == csv_escaped(text@),
{
    let cs = chars_of(text);
    let mut quoting = false;
    let mut i: usize = 0;
    while i < cs.len()
        invariant
            cs@ == text@,
            i <= cs@.len(),
            quoting == exists|j: int| 0 <= j < i && (#[trigger] cs@[j] == ',' || cs@[j] == '"' || cs@[j] == '\n'),
        decreases cs@.len() - i,
    {
        let c = cs[i];
        if c == ',' || c == '"' || c == '\n' {
            quoting = true;
        }
        i = i + 1;
    }
    if !quoting {
        return text.to_owned();
    }
    let quote = "\"";
    proof {
        reveal_strlit("\"");
    }
    let mut out = String::new();
    out.append(quote);
    let mut k: usize = 0;
    while k < cs.len()
        invariant
            cs@ == text@,
            quote@ == seq!['"'],
            k <= cs@.len(),
            out@ == seq!['"'] + doubled_quotes(cs@.take(k as int)),
        decreases cs@.len() - k,
    {
        let piece = text.substring_char(k, k + 1);
        assert(piece@ =~= seq![cs@[k as int]]);
        out.append(piece);
        if cs[k] == '"' {
            out.append(piece);
        }
        proof {
            assert(cs@.take(k + 1).drop_last() =~= cs@.take(k as int));
        }
        k = k + 1;
        assert(out@ =~= seq!['"'] + doubled_quotes(cs@.take(k as int)));
    }
    out.append(quote);
    assert(cs@.take(k as int) =~= text@);
    out
}

/// Reads a field from a CSV line.
pub fn unescape_csv(text: &str) -> (r: String)
    ensures
        r@ == csv_unescaped(text@),
{
    let cs = chars_of(text);
    let n = cs.len();
    if !(n >= 2 && cs[0] == '"' && cs[n - 1] == '"') {
        return text.to_owned();
    }
    let ghost inner = text@.subrange(1, n - 1);
    let mut out = String::new();
    let mut pos: usize = 1;
    assert(inner.skip(0) =~= inner);
    while pos < n - 1
        invariant
            cs@ == text@,
            n == cs@.len(),
            n >= 2,
            inner == text@.subrange(1, n - 1),
            1 <= pos <= n,
            pos <= n - 1 ==> out@ + undoubled_quotes(inner.skip(pos - 1)) == undoubled_quotes(inner),
            pos == n ==> out@ == undoubled_quotes(inner),
        decreases n - pos,
    {
        let piece = text.substring_char(pos, pos + 1);
        assert(piece@ =~= seq![cs@[pos as int]]);
        let ghost rest = inner.skip(pos - 1);
        let ghost before = out@;
        out.append(piece);
        if cs[pos] == '"' && pos + 1 < n - 1 && cs[pos + 1] == '"' {
            proof {
                assert(rest.skip(2) =~= inner.skip(pos + 1));
                assert(out@ + undoubled_quotes(inner.skip(pos + 1)) =~= before + undoubled_quotes(rest));
            }
            pos = pos + 2;
            if pos == n {
                assert(inner.skip(pos - 2) =~= Seq::<char>::empty());
            }
        } else {
            proof {
                assert(rest.drop_first() =~= inner.skip(pos as int));
                assert(out@ + undoubled_quotes(inner.skip(pos as int)) =~= before + undoubled_quotes(rest));
            }
            pos = pos + 1;
        }
    }
    if pos == n - 1 {
        assert(inner.skip(pos - 1) =~= Seq::<char>::empty());
        assert(out@ =~= undoubled_quotes(inner));
    }
    out
}

} // verus!
