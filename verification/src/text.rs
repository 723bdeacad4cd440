//! Character-level helpers shared by the scalar grammar, the parser and the
//! encoder: whitespace, trimming, searching, splitting and line framing, each
//! as a spec function with a verified executable counterpart.

use vstd::prelude::*;

verus! {

/// Whitespace, as Unicode defines the `White_Space` property; the set that
/// `trim` and blank-line detection go by.
pub open spec fn is_space(c: char) -> bool {
    c == ' ' || c == '\t' || c == '\n' || c == '\r' || c == '\u{b}' || c == '\u{c}'
        || c == '\u{85}' || c == '\u{a0}' || c == '\u{1680}'
        || ('\u{2000}' <= c && c <= '\u{200a}')
        || c == '\u{2028}' || c == '\u{2029}' || c == '\u{202f}' || c == '\u{205f}'
        || c == '\u{3000}'
}

pub fn space(c: char) -> (r: bool)
    ensures
        r == is_space(c),
{
    c == ' ' || c == '\t' || c == '\n' || c == '\r' || c == '\u{b}' || c == '\u{c}'
        || c == '\u{85}' || c == '\u{a0}' || c == '\u{1680}'
        || ('\u{2000}' <= c && c <= '\u{200a}')
        || c == '\u{2028}' || c == '\u{2029}' || c == '\u{202f}' || c == '\u{205f}'
        || c == '\u{3000}'
}

/// How many leading whitespace characters `s` has.
pub open spec fn indent_of(s: Seq<char>) -> int
    decreases s.len(),
{
    if s.len() == 0 || !is_space(s[0]) {
        0
    } else {
        1 + indent_of(s.drop_first())
    }
}

/// How many trailing whitespace characters `s` has.
pub open spec fn trailing_of(s: Seq<char>) -> int
    decreases s.len(),
{
    if s.len() == 0 || !is_space(s[s.len() - 1]) {
        0
    } else {
        1 + trailing_of(s.drop_last())
    }
}

pub open spec fn trim_start_s(s: Seq<char>) -> Seq<char> {
    s.skip(indent_of(s))
}

pub open spec fn trim_end_s(s: Seq<char>) -> Seq<char> {
    s.take(s.len() - trailing_of(s))
}

pub open spec fn trim_s(s: Seq<char>) -> Seq<char> {
    trim_end_s(trim_start_s(s))
}

/// A line is blank when it holds only whitespace.
pub open spec fn is_blank(s: Seq<char>) -> bool {
    indent_of(s) == s.len()
}

pub proof fn lemma_indent_le_len(s: Seq<char>)
    ensures
        0 <= indent_of(s) <= s.len(),
        forall|i: int| 0 <= i < indent_of(s) ==> is_space(s[i]),
        indent_of(s) < s.len() ==> !is_space(s[indent_of(s)]),
    decreases s.len(),
{
    if s.len() == 0 || !is_space(s[0]) {
    } else {
        lemma_indent_le_len(s.drop_first());
        assert forall|i: int| 0 <= i < indent_of(s) implies is_space(s[i]) by {
            if i > 0 {
                assert(s.drop_first()[i - 1] == s[i]);
            }
        }
    }
}

pub proof fn lemma_trailing_le_len(s: Seq<char>)
    ensures
        0 <= trailing_of(s) <= s.len(),
        forall|i: int| s.len() - trailing_of(s) <= i < s.len() ==> is_space(s[i]),
        trailing_of(s) < s.len() ==> !is_space(s[s.len() - trailing_of(s) - 1]),
    decreases s.len(),
{
    if s.len() == 0 || !is_space(s[s.len() - 1]) {
    } else {
        lemma_trailing_le_len(s.drop_last());
        assert forall|i: int| s.len() - trailing_of(s) <= i < s.len() implies is_space(s[i]) by {
            if i < s.len() - 1 {
                assert(s.drop_last()[i] == s[i]);
            }
        }
        if trailing_of(s) < s.len() {
            assert(s.drop_last()[s.len() - trailing_of(s) - 1] == s[s.len() - trailing_of(s) - 1]);
        }
    }
}

/// The index of the first occurrence of `c` in `s`, or `s.len()` if there is
/// none.
pub open spec fn find_c(s: Seq<char>, c: char) -> int
    decreases s.len(),
{
    if s.len() == 0 {
        0
    } else if s[0] == c {
        0
    } else {
        1 + find_c(s.drop_first(), c)
    }
}

pub proof fn lemma_find_c(s: Seq<char>, c: char)
    ensures
        0 <= find_c(s, c) <= s.len(),
        forall|i: int| 0 <= i < find_c(s, c) ==> s[i] != c,
        find_c(s, c) < s.len() ==> s[find_c(s, c)] == c,
    decreases s.len(),
{
    if s.len() == 0 || s[0] == c {
    } else {
        lemma_find_c(s.drop_first(), c);
        assert forall|i: int| 0 <= i < find_c(s, c) implies s[i] != c by {
            if i > 0 {
                assert(s.drop_first()[i - 1] == s[i]);
            }
        }
        if find_c(s, c) < s.len() {
            assert(s.drop_first()[find_c(s, c) - 1] == s[find_c(s, c)]);
        }
    }
}

pub open spec fn contains_c(s: Seq<char>, c: char) -> bool {
    find_c(s, c) < s.len()
}

/// Searching a prefix finds the same first occurrence, or nothing when it
/// lies beyond the prefix.
pub proof fn lemma_find_c_take(s: Seq<char>, c: char, k: int)
    requires
        0 <= k <= s.len(),
    ensures
        find_c(s.take(k), c) == if find_c(s, c) < k {
            find_c(s, c)
        } else {
            k
        },
{
    let t = s.take(k);
    lemma_find_c(s, c);
    lemma_find_c(t, c);
    let fs = find_c(s, c);
    let ft = find_c(t, c);
    assert forall|j: int| 0 <= j < k implies #[trigger] t[j] == s[j] by {}
    if fs < k {
        if ft < fs {
            assert(t[ft] == c);
            assert(s[ft] != c);
        }
        if ft > fs {
            assert(t[fs] != c);
            assert(s[fs] == c);
        }
    } else {
        if ft < k {
            assert(t[ft] == c);
            assert(s[ft] != c);
        }
    }
}

/// `s` split at every occurrence of `sep`; always at least one piece, and no
/// piece holds `sep`.
pub open spec fn split_on(s: Seq<char>, sep: char) -> Seq<Seq<char>>
    decreases s.len(),
{
    let i = find_c(s, sep);
    if i == s.len() {
        seq![s]
    } else {
        proof {
            lemma_find_c(s, sep);
        }
        seq![s.take(i)] + split_on(s.skip(i + 1), sep)
    }
}

/// The notation's line framing: split on `'\n'`, drop one `'\r'` from the end
/// of every piece that a `'\n'` closed, and drop the final piece when it is
/// empty (so a trailing line ending adds no line, and empty input has none).
pub open spec fn strip_cr(l: Seq<char>) -> Seq<char> {
    if l.len() > 0 && l[l.len() - 1] == '\r' {
        l.drop_last()
    } else {
        l
    }
}

pub open spec fn split_lines(text: Seq<char>) -> Seq<Seq<char>> {
    let raw = split_on(text, '\n');
    let main = raw.drop_last().map_values(|l: Seq<char>| strip_cr(l));
    if raw.last().len() == 0 {
        main
    } else {
        main.push(raw.last())
    }
}

// --- executable counterparts ---

/// Count of leading whitespace characters.
pub fn indent_count(v: &Vec<char>) -> (r: usize)
    ensures
        r == indent_of(v@),
{
    proof {
        lemma_indent_le_len(v@);
    }
    let mut i: usize = 0;
    while i < v.len() && space(v[i])
        invariant
            0 <= i <= v@.len(),
            forall|j: int| 0 <= j < i ==> is_space(v@[j]),
            i <= indent_of(v@),
        decreases v@.len() - i,
    {
        proof {
            lemma_indent_le_len(v@);
            if i == indent_of(v@) {
                assert(!is_space(v@[indent_of(v@)]));
            }
        }
        i += 1;
    }
    proof {
        if i < indent_of(v@) {
            assert(is_space(v@[i as int]));
        }
    }
    i
}

/// Whether the line holds only whitespace.
pub fn blank(v: &Vec<char>) -> (r: bool)
    ensures
        r == is_blank(v@),
{
    indent_count(v) == v.len()
}

/// The line with leading and trailing whitespace removed.
pub fn trimmed(v: &Vec<char>) -> (r: Vec<char>)
    ensures
        r@ == trim_s(v@),
{
    proof {
        lemma_indent_le_len(v@);
        lemma_trailing_le_len(v@.skip(indent_of(v@)));
    }
    let lo = indent_count(v);
    let ghost t = v@.skip(lo as int);
    let mut hi: usize = v.len();
    while hi > lo && space(v[hi - 1])
        invariant
            lo <= hi <= v@.len(),
            t == v@.skip(lo as int),
            forall|j: int| hi <= j < v@.len() ==> is_space(v@[j]),
            v@.len() - hi <= trailing_of(t),
        decreases hi,
    {
        proof {
            lemma_trailing_le_len(t);
            let tr = trailing_of(t);
            if v@.len() - (hi - 1) > tr {
                // the scan would pass the spec's boundary: the char just
                // before it is not a space, yet the loop condition saw one
                assert(t.len() - tr - 1 == hi - 1 - lo);
                assert(t[t.len() - tr - 1] == v@[hi - 1]);
            }
        }
        hi -= 1;
    }
    proof {
        let tr = trailing_of(t);
        if v@.len() - hi < tr {
            assert(t[t.len() - (v@.len() - hi) - 1] == v@[hi - 1]);
            assert(is_space(t[t.len() - tr] )) by {
                lemma_trailing_le_len(t);
            }
            assert(t.len() - (v@.len() - hi) - 1 >= t.len() - tr);
            lemma_trailing_le_len(t);
        }
        assert(v@.len() - hi == tr);
    }
    let mut r: Vec<char> = Vec::new();
    let mut i: usize = lo;
    while i < hi
        invariant
            lo <= i <= hi <= v@.len(),
            r@ == v@.subrange(lo as int, i as int),
        decreases hi - i,
    {
        r.push(v[i]);
        i += 1;
    }
    proof {
        assert(trim_s(v@) == t.take(t.len() - trailing_of(t)));
        assert(r@ =~= trim_s(v@));
    }
    r
}

/// The index of the first `c` in `v` at or after `from`, or `v.len()` when
/// there is none.
pub fn find_char_from(v: &Vec<char>, from: usize, c: char) -> (r: usize)
    requires
        from <= v@.len(),
    ensures
        from <= r <= v@.len(),
        r - from == find_c(v@.skip(from as int), c),
{
    let ghost t = v@.skip(from as int);
    proof {
        lemma_find_c(t, c);
    }
    let mut i: usize = from;
    while i < v.len() && v[i] != c
        invariant
            from <= i <= v@.len(),
            t == v@.skip(from as int),
            forall|j: int| from <= j < i ==> v@[j] != c,
            i - from <= find_c(t, c),
        decreases v@.len() - i,
    {
        proof {
            lemma_find_c(t, c);
            if i - from == find_c(t, c) {
                assert(t[find_c(t, c)] == v@[i as int]);
            }
        }
        i += 1;
    }
    proof {
        if i - from < find_c(t, c) {
            assert(t[i - from] == v@[i as int]);
        }
    }
    i
}

/// The index of the first `c` in `v`, or `v.len()` when there is none.
pub fn find_char(v: &Vec<char>, c: char) -> (r: usize)
    ensures
        r == find_c(v@, c),
{
    proof {
        assert(v@.skip(0) =~= v@);
    }
    find_char_from(v, 0, c)
}

/// A copy of `v[lo..hi]`.
pub fn copy_range(v: &Vec<char>, lo: usize, hi: usize) -> (r: Vec<char>)
    requires
        lo <= hi <= v@.len(),
    ensures
        r@ == v@.subrange(lo as int, hi as int),
{
    let mut r: Vec<char> = Vec::new();
    let mut i: usize = lo;
    while i < hi
        invariant
            lo <= i <= hi <= v@.len(),
            r@ == v@.subrange(lo as int, i as int),
        decreases hi - i,
    {
        r.push(v[i]);
        i += 1;
        proof {
            assert(r@ =~= v@.subrange(lo as int, i as int));
        }
    }
    r
}

proof fn lemma_skip_skip(s: Seq<char>, a: int, b: int)
    requires
        0 <= a,
        0 <= b,
        a + b <= s.len(),
    ensures
        s.skip(a).skip(b) == s.skip(a + b),
{
    assert(s.skip(a).skip(b) =~= s.skip(a + b));
}

/// The input framed into lines, as [`split_lines`] describes.
pub fn split_into_lines(text: &Vec<char>) -> (r: Vec<Vec<char>>)
    ensures
        r.deep_view() == split_lines(text@),
{
    let mut raw: Vec<Vec<char>> = Vec::new();
    let mut pos: usize = 0;
    let ghost whole = split_on(text@, '\n');
    let ghost mut pre: Seq<Seq<char>> = Seq::empty();
    proof {
        assert(text@.skip(0) =~= text@);
        assert(whole =~= pre + split_on(text@.skip(0), '\n'));
    }
    loop
        invariant
            pos <= text@.len(),
            whole == split_on(text@, '\n'),
            whole =~= pre + split_on(text@.skip(pos as int), '\n'),
            raw.deep_view() =~= pre.map_values(|l: Seq<char>| strip_cr(l)),
            pre.len() == raw@.len(),
        ensures
            pos <= text@.len(),
            whole =~= pre + split_on(text@.skip(pos as int), '\n'),
            raw.deep_view() =~= pre.map_values(|l: Seq<char>| strip_cr(l)),
            pre.len() == raw@.len(),
            !contains_c(text@.skip(pos as int), '\n'),
        decreases text@.len() - pos,
    {
        let k = find_char_from(text, pos, '\n');
        let ghost suffix = text@.skip(pos as int);
        if k < text.len() {
            let ghost fc = find_c(suffix, '\n');
            proof {
                lemma_find_c(suffix, '\n');
            }
            let mut piece = copy_range(text, pos, k);
            proof {
                assert(piece@ =~= suffix.take(fc));
                lemma_skip_skip(text@, pos as int, k - pos + 1);
            }
            // this piece was closed by a newline: one carriage return
            // before it does not count as content
            if piece.len() > 0 && piece[piece.len() - 1] == '\r' {
                piece.pop();
                proof {
                    assert(piece@ =~= strip_cr(suffix.take(fc)));
                }
            }
            let ghost old_dv = raw.deep_view();
            raw.push(piece);
            proof {
                assert(raw.deep_view() =~~= old_dv.push(piece@));
                pre = pre.push(suffix.take(fc));
                assert(pre.map_values(|l: Seq<char>| strip_cr(l)) =~= pre.drop_last().map_values(
                    |l: Seq<char>| strip_cr(l),
                ).push(strip_cr(suffix.take(fc))));
                assert(pre.drop_last() =~= pre.subrange(0, pre.len() - 1));
            }
            pos = k + 1;
        } else {
            break;
        }
    }
    // the final piece: dropped when empty, kept verbatim otherwise
    let ghost suffix = text@.skip(pos as int);
    proof {
        lemma_find_c(suffix, '\n');
        assert(split_on(suffix, '\n') =~= seq![suffix]);
        assert(whole.last() == suffix);
        assert(whole.drop_last() =~= pre);
    }
    if pos < text.len() {
        let last = copy_range(text, pos, text.len());
        proof {
            assert(last@ =~= suffix);
        }
        raw.push(last);
        proof {
            assert(raw.deep_view() =~~= split_lines(text@));
        }
        raw
    } else {
        proof {
            assert(suffix.len() == 0);
            assert(raw.deep_view() =~~= split_lines(text@));
        }
        raw
    }
}

/// Relies on String's FromIterator over chars: collecting the characters of
/// `v` yields the string whose characters are exactly `v`'s, in order.
#[verifier::external_body]
pub fn chars_to_string(v: &Vec<char>) -> (r: String)
    ensures
        r@ == v@,
{
    v.iter().collect()
}

/// The characters of `s`, in order.
pub fn str_to_chars(s: &str) -> (r: Vec<char>)
    ensures
        r@ == s@,
{
    broadcast use vstd::string::axiom_spec_iter;
    broadcast use vstd::string::next_postcondition;
    broadcast use vstd::std_specs::iter::group_iter_axioms;

    let mut it = s.chars();
    let mut r: Vec<char> = Vec::new();
    loop
        invariant
            vstd::std_specs::iter::IteratorSpec::obeys_prophetic_iter_laws(&it),
            vstd::std_specs::iter::IteratorSpec::decrease(&it) is Some,
            r@ + vstd::std_specs::iter::IteratorSpec::remaining(&it) == s@,
        decreases vstd::std_specs::iter::IteratorSpec::decrease(&it)->0,
    {
        match it.next() {
            Some(c) => {
                r.push(c);
                proof {
                    assert(r@ + vstd::std_specs::iter::IteratorSpec::remaining(&it) =~= s@);
                }
            },
            None => {
                proof {
                    assert(r@ =~= s@);
                }
                return r;
            },
        }
    }
}

} // verus!
