//! Quoting support: escaping a string for a quoted token, and the fixed
//! sequence of two-character substitutions that undoes it. The unescape side
//! applies its three substitutions one after the other over the whole string,
//! in a fixed order; on text whose escapes were produced by [`escape_s`] from
//! a backslash-free string this inverts the escaping exactly, while an
//! escaped backslash directly before a literal `n` can be misread (a known
//! limitation of the order-dependent substitutions).

use vstd::prelude::*;

verus! {

/// How one character is escaped inside a quoted token: backslash, quote and
/// newline get a backslash form; everything else stands as itself.
pub open spec fn esc_char(c: char) -> Seq<char> {
    if c == '\\' {
        seq!['\\', '\\']
    } else if c == '"' {
        seq!['\\', '"']
    } else if c == '\n' {
        seq!['\\', 'n']
    } else {
        seq![c]
    }
}

/// The escaped form of a string: each character through [`esc_char`], in
/// order (backslashes first, then quotes, then newlines, which per-character
/// substitution makes one pass).
pub open spec fn escape_s(s: Seq<char>) -> Seq<char>
    decreases s.len(),
{
    if s.len() == 0 {
        Seq::empty()
    } else {
        esc_char(s[0]) + escape_s(s.drop_first())
    }
}

/// One whole-string substitution: every non-overlapping `[a, b]`, scanned
/// from the left, becomes `[c]`.
pub open spec fn replace2(s: Seq<char>, a: char, b: char, c: char) -> Seq<char>
    decreases s.len(),
{
    if s.len() >= 2 && s[0] == a && s[1] == b {
        seq![c] + replace2(s.skip(2), a, b, c)
    } else if s.len() >= 1 {
        seq![s[0]] + replace2(s.drop_first(), a, b, c)
    } else {
        Seq::empty()
    }
}

/// The unescaping pass: `\"` to `"`, then `\n` to newline, then `\\` to `\`,
/// each over the whole intermediate string.
pub open spec fn unescape_s(s: Seq<char>) -> Seq<char> {
    replace2(replace2(replace2(s, '\\', '"', '"'), '\\', 'n', '\n'), '\\', '\\', '\\')
}

// --- executable counterparts ---

/// Append the escaped form of `s`.
pub fn push_escaped(s: &Vec<char>, out: &mut Vec<char>)
    ensures
        final(out)@ == old(out)@ + escape_s(s@),
{
    let mut i: usize = 0;
    proof {
        assert(s@.skip(0) =~= s@);
    }
    while i < s.len()
        invariant
            0 <= i <= s@.len(),
            out@ + escape_s(s@.skip(i as int)) == old(out)@ + escape_s(s@),
        decreases s@.len() - i,
    {
        let c = s[i];
        if c == '\\' {
            out.push('\\');
            out.push('\\');
        } else if c == '"' {
            out.push('\\');
            out.push('"');
        } else if c == '\n' {
            out.push('\\');
            out.push('n');
        } else {
            out.push(c);
        }
        proof {
            let t = s@.skip(i as int);
            assert(t[0] == s@[i as int]);
            assert(t.drop_first() =~= s@.skip(i + 1));
            assert(escape_s(t) == esc_char(t[0]) + escape_s(t.drop_first()));
        }
        i += 1;
        proof {
            assert(out@ + escape_s(s@.skip(i as int)) =~= old(out)@ + escape_s(s@));
        }
    }
    proof {
        assert(s@.skip(s@.len() as int) =~= Seq::<char>::empty());
        assert(final(out)@ =~= old(out)@ + escape_s(s@));
    }
}

/// One substitution pass over `v`, as [`replace2`] describes it.
pub fn replace_pair(v: &Vec<char>, a: char, b: char, c: char) -> (r: Vec<char>)
    ensures
        r@ == replace2(v@, a, b, c),
{
    let mut out: Vec<char> = Vec::new();
    let mut i: usize = 0;
    proof {
        assert(v@.skip(0) =~= v@);
    }
    while i < v.len()
        invariant
            0 <= i <= v@.len(),
            out@ + replace2(v@.skip(i as int), a, b, c) == replace2(v@, a, b, c),
        decreases v@.len() - i,
    {
        let ghost t = v@.skip(i as int);
        proof {
            assert(t[0] == v@[i as int]);
            if t.len() >= 2 {
                assert(t[1] == v@[i + 1]);
            }
        }
        if i + 1 < v.len() && v[i] == a && v[i + 1] == b {
            out.push(c);
            proof {
                assert(t.skip(2) =~= v@.skip(i + 2));
                assert(out@ + replace2(v@.skip(i + 2), a, b, c) =~= replace2(v@, a, b, c));
            }
            i += 2;
        } else {
            out.push(v[i]);
            proof {
                assert(t.drop_first() =~= v@.skip(i + 1));
                assert(out@ + replace2(v@.skip(i + 1), a, b, c) =~= replace2(v@, a, b, c));
            }
            i += 1;
        }
    }
    proof {
        assert(v@.skip(v@.len() as int) =~= Seq::<char>::empty());
        assert(out@ =~= replace2(v@, a, b, c));
    }
    out
}

/// The full unescaping of a quoted token's inside.
pub fn unescape(v: &Vec<char>) -> (r: Vec<char>)
    ensures
        r@ == unescape_s(v@),
{
    let s1 = replace_pair(v, '\\', '"', '"');
    let s2 = replace_pair(&s1, '\\', 'n', '\n');
    replace_pair(&s2, '\\', '\\', '\\')
}

// --- the escaping round trip on backslash-free strings ---

pub open spec fn no_backslash(s: Seq<char>) -> bool {
    forall|i: int| 0 <= i < s.len() ==> #[trigger] s[i] != '\\'
}

/// Whether undoing the escape of `s` gives `s` back; the round-trip laws ask
/// for exactly this.
pub open spec fn unescape_escape_id(s: Seq<char>) -> bool {
    unescape_s(escape_s(s)) == s
}

/// After the first pass, a quote stands for every escaped quote: the
/// intermediate per-character form.
spec fn esc1_char(c: char) -> Seq<char> {
    if c == '\n' {
        seq!['\\', 'n']
    } else {
        seq![c]
    }
}

spec fn esc1(s: Seq<char>) -> Seq<char>
    decreases s.len(),
{
    if s.len() == 0 {
        Seq::empty()
    } else {
        esc1_char(s[0]) + esc1(s.drop_first())
    }
}

proof fn lemma_pass1(s: Seq<char>)
    requires
        no_backslash(s),
    ensures
        replace2(escape_s(s), '\\', '"', '"') == esc1(s),
    decreases s.len(),
{
    if s.len() == 0 {
    } else {
        let c = s[0];
        let rest = s.drop_first();
        assert(no_backslash(rest)) by {
            assert(forall|i: int| 0 <= i < rest.len() ==> rest[i] == #[trigger] s[i + 1]);
        }
        lemma_pass1(rest);
        let e = escape_s(s);
        assert(e == esc_char(c) + escape_s(rest));
        if c == '"' {
            // the escaped quote is the pair the pass rewrites
            assert(e.len() >= 2 && e[0] == '\\' && e[1] == '"');
            assert(e.skip(2) =~= escape_s(rest));
            assert(replace2(e, '\\', '"', '"') == seq!['"'] + replace2(e.skip(2), '\\', '"', '"'));
            assert(seq!['"'] + esc1(rest) =~= esc1(s));
        } else if c == '\n' {
            assert(e[0] == '\\' && e[1] == 'n');
            assert(!(e[1] == '"'));
            assert(replace2(e, '\\', '"', '"') == seq!['\\'] + replace2(
                e.drop_first(),
                '\\',
                '"',
                '"',
            ));
            let e1 = e.drop_first();
            assert(e1[0] == 'n');
            assert(e1.len() >= 1 && !(e1.len() >= 2 && e1[0] == '\\' && e1[1] == '"'));
            assert(replace2(e1, '\\', '"', '"') == seq!['n'] + replace2(
                e1.drop_first(),
                '\\',
                '"',
                '"',
            ));
            assert(e1.drop_first() =~= escape_s(rest));
            assert(replace2(e, '\\', '"', '"') =~= seq!['\\', 'n'] + replace2(
                escape_s(rest),
                '\\',
                '"',
                '"',
            ));
            assert(seq!['\\', 'n'] + esc1(rest) =~= esc1(s));
        } else {
            // c is neither a backslash nor a quote nor a newline
            assert(e[0] == c);
            assert(c != '\\');
            assert(e.drop_first() =~= escape_s(rest));
            assert(replace2(e, '\\', '"', '"') == seq![c] + replace2(
                escape_s(rest),
                '\\',
                '"',
                '"',
            ));
            assert(seq![c] + esc1(rest) =~= esc1(s));
        }
    }
}

proof fn lemma_pass2(s: Seq<char>)
    requires
        no_backslash(s),
    ensures
        replace2(esc1(s), '\\', 'n', '\n') == s,
    decreases s.len(),
{
    if s.len() == 0 {
    } else {
        let c = s[0];
        let rest = s.drop_first();
        assert(no_backslash(rest)) by {
            assert(forall|i: int| 0 <= i < rest.len() ==> rest[i] == #[trigger] s[i + 1]);
        }
        lemma_pass2(rest);
        let e = esc1(s);
        assert(e == esc1_char(c) + esc1(rest));
        if c == '\n' {
            assert(e.len() >= 2 && e[0] == '\\' && e[1] == 'n');
            assert(e.skip(2) =~= esc1(rest));
            assert(replace2(e, '\\', 'n', '\n') == seq!['\n'] + replace2(e.skip(2), '\\', 'n', '\n'));
            assert(seq!['\n'] + rest =~= s);
        } else {
            assert(e[0] == c && c != '\\');
            assert(e.drop_first() =~= esc1(rest));
            assert(replace2(e, '\\', 'n', '\n') == seq![c] + replace2(esc1(rest), '\\', 'n', '\n'));
            assert(seq![c] + rest =~= s);
        }
    }
}

/// A substitution whose pattern never starts leaves the string alone.
proof fn lemma_replace2_absent(s: Seq<char>, a: char, b: char, c: char)
    requires
        forall|i: int| 0 <= i < s.len() ==> #[trigger] s[i] != a,
    ensures
        replace2(s, a, b, c) == s,
    decreases s.len(),
{
    if s.len() == 0 {
    } else {
        let rest = s.drop_first();
        assert(forall|i: int| 0 <= i < rest.len() ==> rest[i] == #[trigger] s[i + 1]);
        lemma_replace2_absent(rest, a, b, c);
        assert(seq![s[0]] + rest =~= s);
    }
}

/// Escaping, then unescaping, returns every backslash-free string unchanged.
pub proof fn lemma_unescape_escape(s: Seq<char>)
    requires
        no_backslash(s),
    ensures
        unescape_escape_id(s),
{
    lemma_pass1(s);
    lemma_pass2(s);
    lemma_replace2_absent(s, '\\', '\\', '\\');
}

} // verus!
