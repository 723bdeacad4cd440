//! The round-trip law: decoding an encoded value gives the value back.
//!
//! [`lemma_inline_roundtrip`] states it for one inline token, and
//! [`lemma_tree_roundtrip`] and [`lemma_document_roundtrip`] for whole
//! documents: a nested map in the class [`tree_rt`], or a root scalar. The
//! classes exclude exactly the inputs on which the notation itself loses
//! information: a string that renders unquoted but reads back as another
//! scalar, escape sequences that the fixed substitution order misreads,
//! strings with commas inside lists, lists whose joined form looks quoted,
//! a colon in a root scalar, and nesting at the depth bound. Beside them,
//! [`lemma_depth_guard`] shows that over-deep input fails with the typed
//! error rather than recursing without bound.

use vstd::prelude::*;

use crate::escape::{escape_s, esc_char, unescape_escape_id};
use crate::num::{
    digits_of, float_char, float_grammar, int_grammar, int_text, is_digit,
    lemma_digits_of_are_digits, lemma_float_grammar_chars, lemma_int_roundtrip, parse_int_s,
    sign_body,
};
use crate::scalar::{
    is_quoted, lit_false, lit_null, lit_true, needs_quote, non_str_case, render_atom, render_list,
    scalar_atom, scalar_of,
};
use crate::text::{
    contains_c, find_c, indent_of, is_space, lemma_find_c, lemma_indent_le_len,
    lemma_trailing_le_len, split_on, trailing_of, trim_s,
};
use crate::value::Val;

verus! {

/// A float token as the scalar grammar produces it: it matches the float
/// grammar, and none of the classifications tried before floats claims it.
pub open spec fn float_wf(t: Seq<char>) -> bool {
    &&& float_grammar(t)
    &&& parse_int_s(t) is None
    &&& t != lit_true()
    &&& t != lit_false()
    &&& t != lit_null()
}

/// A string value whose rendering reads back as the same string: a quoted
/// rendering must survive the unescaping order, an unquoted one must not
/// look like any other scalar.
pub open spec fn str_rt(s: Seq<char>) -> bool {
    if needs_quote(s) {
        unescape_escape_id(s)
    } else {
        &&& s != lit_true()
        &&& s != lit_false()
        &&& s != lit_null()
        &&& parse_int_s(s) is None
        &&& !float_grammar(s)
    }
}

/// A non-list value whose inline rendering reads back as itself.
pub open spec fn atom_rt(v: Val) -> bool {
    match v {
        Val::Null => true,
        Val::Bool(_) => true,
        Val::Int(i) => i64::MIN <= i <= i64::MAX,
        Val::Float(t) => float_wf(t),
        Val::Str(s) => str_rt(s),
        Val::Array(_) => false,
        Val::Object(_) => false,
    }
}

/// Whether the value renders as a quoted token.
pub open spec fn quote_rendered(v: Val) -> bool {
    v is Str && needs_quote(v->Str_0)
}

/// A value that can live inside an inline list and read back: a scalar whose
/// own rendering reads back, holding no comma (the list form splits on every
/// comma, quoted or not).
pub open spec fn elem_rt(u: Val) -> bool {
    atom_rt(u) && (u is Str ==> !contains_c(u->Str_0, ','))
}

/// A value whose inline rendering reads back as the same value: the class
/// over which the round trip holds.
pub open spec fn scalar_rt(v: Val) -> bool {
    match v {
        Val::Array(items) => {
            &&& items.len() >= 2
            &&& (forall|i: int| 0 <= i < items.len() ==> elem_rt(#[trigger] items[i]))
            &&& !(quote_rendered(items[0]) && quote_rendered(items[items.len() - 1]))
        },
        Val::Object(_) => false,
        _ => atom_rt(v),
    }
}

/// The text a value occupies at an inline position: a list as the unbracketed
/// comma join, anything else as its atom rendering.
pub open spec fn inline_text(v: Val) -> Seq<char> {
    match v {
        Val::Array(items) => render_list(items),
        _ => render_atom(v),
    }
}

// --- character-level helpers ---

/// No character of a float token is whitespace.
proof fn lemma_float_char_not_space(c: char)
    requires
        float_char(c),
    ensures
        !is_space(c),
{
}

/// Every character of a rendered integer is a minus sign or a digit.
proof fn lemma_int_text_chars(i: int)
    requires
        i64::MIN <= i <= i64::MAX,
    ensures
        int_text(i).len() > 0,
        forall|j: int|
            0 <= j < int_text(i).len() ==> (#[trigger] int_text(i)[j] == '-' || is_digit(
                int_text(i)[j],
            )),
{
    if i < 0 {
        lemma_digits_of_are_digits(-i);
        assert forall|j: int|
            0 <= j < int_text(i).len() implies (#[trigger] int_text(i)[j] == '-' || is_digit(
            int_text(i)[j],
        )) by {
            if j > 0 {
                assert(int_text(i)[j] == digits_of(-i)[j - 1]);
            }
        }
    } else {
        lemma_digits_of_are_digits(i);
    }
}

/// Every character of an integer token is a sign or a digit.
proof fn lemma_int_grammar_chars(s: Seq<char>)
    requires
        int_grammar(s),
    ensures
        s.len() > 0,
        forall|j: int|
            0 <= j < s.len() ==> (#[trigger] s[j] == '-' || s[j] == '+' || is_digit(s[j])),
{
    let b = sign_body(s);
    if s.len() > 0 && (s[0] == '+' || s[0] == '-') {
        assert forall|j: int|
            0 <= j < s.len() implies (#[trigger] s[j] == '-' || s[j] == '+' || is_digit(
            s[j],
        )) by {
            if j > 0 {
                assert(b[j - 1] == s[j]);
            }
        }
    } else {
        assert(b == s);
    }
}

/// A string whose first and last characters are not whitespace is its own
/// trimmed form.
proof fn lemma_trim_ends(s: Seq<char>)
    requires
        s.len() > 0,
        !is_space(s[0]),
        !is_space(s[s.len() - 1]),
    ensures
        trim_s(s) == s,
{
    assert(indent_of(s) == 0);
    assert(s.skip(0) =~= s);
    assert(trailing_of(s) == 0);
    assert(s.take(s.len() as int) =~= s);
}

/// Dropping all-whitespace padding before such a string is all `trim` does.
proof fn lemma_trim_pad(sp: Seq<char>, s: Seq<char>)
    requires
        forall|i: int| 0 <= i < sp.len() ==> is_space(#[trigger] sp[i]),
        s.len() > 0,
        !is_space(s[0]),
        !is_space(s[s.len() - 1]),
    ensures
        trim_s(sp + s) == s,
    decreases sp.len(),
{
    if sp.len() == 0 {
        assert(sp + s =~= s);
        lemma_trim_ends(s);
    } else {
        let rest = sp.drop_first();
        assert(forall|i: int| 0 <= i < rest.len() ==> rest[i] == #[trigger] sp[i + 1]);
        lemma_trim_pad(rest, s);
        let w = sp + s;
        assert(w[0] == sp[0]);
        assert(is_space(w[0]));
        assert(w.drop_first() =~= rest + s);
        assert(indent_of(w) == 1 + indent_of(rest + s));
        lemma_indent_le_len(rest + s);
        assert(w.skip(indent_of(w)) =~= (rest + s).skip(indent_of(rest + s)));
    }
}

/// The first occurrence of `c` in a concatenation whose left part lacks `c`
/// lies in the right part.
proof fn lemma_find_c_concat(a: Seq<char>, b: Seq<char>, c: char)
    requires
        !contains_c(a, c),
    ensures
        find_c(a + b, c) == a.len() + find_c(b, c),
    decreases a.len(),
{
    lemma_find_c(a, c);
    if a.len() == 0 {
        assert(a + b =~= b);
    } else {
        let rest = a.drop_first();
        assert(forall|i: int| 0 <= i < rest.len() ==> rest[i] == #[trigger] a[i + 1]);
        lemma_find_c(rest, c);
        lemma_find_c_concat(rest, b, c);
        let w = a + b;
        assert(w[0] == a[0]);
        assert(w[0] != c);
        assert(w.drop_first() =~= rest + b);
    }
}

/// Escaping never introduces a comma.
proof fn lemma_escape_no_comma(s: Seq<char>)
    requires
        !contains_c(s, ','),
    ensures
        !contains_c(escape_s(s), ','),
    decreases s.len(),
{
    lemma_find_c(s, ',');
    if s.len() > 0 {
        let rest = s.drop_first();
        assert(forall|i: int| 0 <= i < rest.len() ==> rest[i] == #[trigger] s[i + 1]);
        assert(!contains_c(rest, ',')) by {
            lemma_find_c(rest, ',');
            if contains_c(rest, ',') {
                assert(s[find_c(rest, ',') + 1] == ',');
            }
        }
        lemma_escape_no_comma(rest);
        let e = escape_s(s);
        assert(e == esc_char(s[0]) + escape_s(rest));
        lemma_find_c(e, ',');
        if contains_c(e, ',') {
            let j = find_c(e, ',');
            assert(e[j] == ',');
            if j < esc_char(s[0]).len() {
                assert(esc_char(s[0])[j] == e[j]);
            } else {
                assert(escape_s(rest)[j - esc_char(s[0]).len()] == e[j]);
                lemma_find_c(escape_s(rest), ',');
            }
        }
    }
}

/// The three keyword literals hold only letters.
proof fn lemma_lit_chars()
    ensures
        forall|j: int|
            0 <= j < lit_true().len() ==> #[trigger] lit_true()[j] != ',' && lit_true()[j] != '"'
                && !is_space(lit_true()[j]),
        forall|j: int|
            0 <= j < lit_false().len() ==> #[trigger] lit_false()[j] != ',' && lit_false()[j]
                != '"' && !is_space(lit_false()[j]),
        forall|j: int|
            0 <= j < lit_null().len() ==> #[trigger] lit_null()[j] != ',' && lit_null()[j] != '"'
                && !is_space(lit_null()[j]),
{
    assert forall|j: int|
        0 <= j < lit_true().len() implies #[trigger] lit_true()[j] != ',' && lit_true()[j] != '"'
        && !is_space(lit_true()[j]) by {
        assert(j == 0 || j == 1 || j == 2 || j == 3);
    }
    assert forall|j: int|
        0 <= j < lit_false().len() implies #[trigger] lit_false()[j] != ',' && lit_false()[j]
        != '"' && !is_space(lit_false()[j]) by {
        assert(j == 0 || j == 1 || j == 2 || j == 3 || j == 4);
    }
    assert forall|j: int|
        0 <= j < lit_null().len() implies #[trigger] lit_null()[j] != ',' && lit_null()[j] != '"'
        && !is_space(lit_null()[j]) by {
        assert(j == 0 || j == 1 || j == 2 || j == 3);
    }
}

proof fn lemma_no_char_no_contains(s: Seq<char>, c: char)
    requires
        forall|j: int| 0 <= j < s.len() ==> #[trigger] s[j] != c,
    ensures
        !contains_c(s, c),
{
    lemma_find_c(s, c);
}

/// The shape of a rendered atom: non-empty, no whitespace at either end, a
/// quote at the ends exactly for a quoted string, and no comma when the value
/// may stand inside a list.
proof fn lemma_render_shape(u: Val)
    requires
        atom_rt(u),
    ensures
        render_atom(u).len() > 0,
        !is_space(render_atom(u)[0]),
        !is_space(render_atom(u)[render_atom(u).len() - 1]),
        (render_atom(u)[0] == '"') == quote_rendered(u),
        (render_atom(u)[render_atom(u).len() - 1] == '"') == quote_rendered(u),
        elem_rt(u) ==> !contains_c(render_atom(u), ','),
{
    lemma_lit_chars();
    let r = render_atom(u);
    match u {
        Val::Null => {
            lemma_no_char_no_contains(r, ',');
        },
        Val::Bool(b) => {
            lemma_no_char_no_contains(r, ',');
        },
        Val::Int(i) => {
            lemma_int_text_chars(i);
            lemma_no_char_no_contains(r, ',');
        },
        Val::Float(t) => {
            lemma_float_grammar_chars(t);
            assert(!is_space(r[0]) && !is_space(r[r.len() - 1])) by {
                lemma_float_char_not_space(r[0]);
                lemma_float_char_not_space(r[r.len() - 1]);
            }
            assert forall|j: int| 0 <= j < r.len() implies #[trigger] r[j] != ',' by {}
            lemma_no_char_no_contains(r, ',');
        },
        Val::Str(s) => {
            if needs_quote(s) {
                assert(r == seq!['"'] + escape_s(s) + seq!['"']);
                assert(r[0] == '"');
                assert(r[r.len() - 1] == '"');
                if u is Str && !contains_c(u->Str_0, ',') {
                    lemma_escape_no_comma(s);
                    lemma_find_c(escape_s(s), ',');
                    assert forall|j: int| 0 <= j < r.len() implies #[trigger] r[j] != ',' by {
                        if 0 < j < r.len() - 1 {
                            assert(r[j] == escape_s(s)[j - 1]);
                        }
                    }
                    lemma_no_char_no_contains(r, ',');
                }
            } else {
                assert(r == s);
                assert(s.len() > 0);
                crate::scalar::lemma_trim_id(s);
                assert(indent_of(s) == 0 && trailing_of(s) == 0);
                assert(!is_space(s[0])) by {
                    lemma_indent_le_len(s.drop_first());
                }
                assert(!is_space(s[s.len() - 1])) by {
                    lemma_trailing_le_len(s);
                }
                lemma_find_c(s, '"');
                assert(s[0] != '"');
                assert(s[s.len() - 1] != '"');
            }
        },
        Val::Array(_) => {},
        Val::Object(_) => {},
    }
}

/// A rendered atom classifies back as the value it came from.
proof fn lemma_atom_read(u: Val)
    requires
        atom_rt(u),
    ensures
        scalar_atom(render_atom(u)) == u,
{
    lemma_lit_chars();
    let r = render_atom(u);
    match u {
        Val::Null => {
            assert(r == lit_null());
            assert(r != lit_true()) by {
                assert(lit_null()[0] == 'n' && lit_true()[0] == 't');
            }
            assert(r != lit_false()) by {
                assert(lit_null().len() != lit_false().len());
            }
        },
        Val::Bool(b) => {
            if b {
                assert(r == lit_true());
            } else {
                assert(r == lit_false());
                assert(r != lit_true()) by {
                    assert(lit_false().len() != lit_true().len());
                }
            }
        },
        Val::Int(i) => {
            lemma_int_roundtrip(i);
            assert(parse_int_s(r) == Some(i));
            assert(r != lit_true() && r != lit_false() && r != lit_null()) by {
                lemma_not_int_literals(r);
            }
        },
        Val::Float(t) => {
            assert(r == t);
        },
        Val::Str(s) => {
            if needs_quote(s) {
                assert(r == seq!['"'] + escape_s(s) + seq!['"']);
                assert(r[0] == '"');
                assert(r[r.len() - 1] == '"');
                assert(r != lit_true()) by {
                    assert(lit_true()[0] == 't');
                }
                assert(r != lit_false()) by {
                    assert(lit_false()[0] == 'f');
                }
                assert(r != lit_null()) by {
                    assert(lit_null()[0] == 'n');
                }
                assert(parse_int_s(r) is None) by {
                    if int_grammar(r) {
                        lemma_int_grammar_chars(r);
                    }
                }
                assert(!float_grammar(r)) by {
                    if float_grammar(r) {
                        lemma_float_grammar_chars(r);
                        assert(float_char(r[0]));
                    }
                }
                assert(is_quoted(r));
                assert(r.subrange(1, r.len() - 1) =~= escape_s(s));
                lemma_unescape_escape_applies(s);
                assert(scalar_atom(r) == Val::Str(s));
            } else {
                assert(r == s);
                lemma_find_c(s, '"');
                assert(s[0] != '"');
                assert(!is_quoted(s));
            }
        },
        Val::Array(_) => {},
        Val::Object(_) => {},
    }
}

/// The integer grammar rejects the three keyword literals.
proof fn lemma_not_int_literals(r: Seq<char>)
    requires
        parse_int_s(r) is Some,
    ensures
        r != lit_true(),
        r != lit_false(),
        r != lit_null(),
{
    lemma_int_grammar_chars(r);
    assert(r != lit_true()) by {
        if r == lit_true() {
            assert(r[1] == 'r');
        }
    }
    assert(r != lit_false()) by {
        if r == lit_false() {
            assert(r[1] == 'a');
        }
    }
    assert(r != lit_null()) by {
        if r == lit_null() {
            assert(r[1] == 'u');
        }
    }
}

/// `str_rt` already gives the identity the quoted branch needs.
proof fn lemma_unescape_escape_applies(s: Seq<char>)
    requires
        str_rt(s),
        needs_quote(s),
    ensures
        crate::escape::unescape_s(escape_s(s)) == s,
{
}

// --- the inline-list layer ---

/// The ends of a joined list: the first element's first character and the
/// last element's last character.
proof fn lemma_render_list_ends(items: Seq<Val>)
    requires
        items.len() >= 1,
        forall|i: int| 0 <= i < items.len() ==> elem_rt(#[trigger] items[i]),
    ensures
        render_list(items).len() > 0,
        render_list(items)[0] == render_atom(items[0])[0],
        render_list(items)[render_list(items).len() - 1] == render_atom(items[items.len() - 1])[
            render_atom(items[items.len() - 1]).len() - 1],
    decreases items.len(),
{
    lemma_render_shape(items[0]);
    if items.len() == 1 {
    } else {
        let rest = items.drop_first();
        assert(forall|i: int| 0 <= i < rest.len() ==> rest[i] == #[trigger] items[i + 1]);
        lemma_render_list_ends(rest);
        let w = render_list(items);
        let r0 = render_atom(items[0]);
        assert(w == r0 + seq![',', ' '] + render_list(rest));
        assert(w[0] == r0[0]);
        assert(rest[rest.len() - 1] == items[items.len() - 1]);
        assert(w[w.len() - 1] == render_list(rest)[render_list(rest).len() - 1]);
    }
}

/// Splitting the joined renderings on commas and classifying each trimmed
/// part recovers the elements, even under leading whitespace padding.
proof fn lemma_list_parts(sp: Seq<char>, items: Seq<Val>)
    requires
        forall|i: int| 0 <= i < sp.len() ==> is_space(#[trigger] sp[i]),
        items.len() >= 1,
        forall|i: int| 0 <= i < items.len() ==> elem_rt(#[trigger] items[i]),
    ensures
        split_on(sp + render_list(items), ',').map_values(
            |p: Seq<char>| scalar_atom(trim_s(p)),
        ) =~= items,
    decreases items.len(),
{
    let f = |p: Seq<char>| scalar_atom(trim_s(p));
    lemma_render_shape(items[0]);
    lemma_atom_read(items[0]);
    let r0 = render_atom(items[0]);
    let a = sp + r0;
    assert(!contains_c(a, ',')) by {
        lemma_find_c(r0, ',');
        assert forall|j: int| 0 <= j < a.len() implies #[trigger] a[j] != ',' by {
            if j < sp.len() {
                assert(is_space(sp[j]));
            } else {
                assert(a[j] == r0[j - sp.len()]);
            }
        }
        lemma_no_char_no_contains(a, ',');
    }
    lemma_trim_pad(sp, r0);
    if items.len() == 1 {
        let w = sp + render_list(items);
        assert(w =~= a);
        lemma_find_c(w, ',');
        assert(find_c(w, ',') == w.len());
        assert(split_on(w, ',') == seq![w]);
        assert(split_on(w, ',').map_values(f) =~= seq![items[0]]);
        assert(seq![items[0]] =~= items);
    } else {
        let rest = items.drop_first();
        assert(forall|i: int| 0 <= i < rest.len() ==> rest[i] == #[trigger] items[i + 1]);
        let wrest = render_list(rest);
        let w = sp + render_list(items);
        let tail = seq![','] + (seq![' '] + wrest);
        assert(w =~= a + tail);
        lemma_find_c_concat(a, tail, ',');
        assert(find_c(tail, ',') == 0);
        assert(find_c(w, ',') == a.len());
        assert(a.len() < w.len()) by {
            lemma_render_list_ends(rest);
        }
        assert(split_on(w, ',') == seq![w.take(a.len() as int)] + split_on(
            w.skip(a.len() as int + 1),
            ',',
        ));
        assert(w.take(a.len() as int) =~= a);
        assert(w.skip(a.len() as int + 1) =~= seq![' '] + wrest);
        lemma_list_parts(seq![' '], rest);
        assert((seq![a] + split_on(seq![' '] + wrest, ',')).map_values(f) =~= seq![f(a)]
            + split_on(seq![' '] + wrest, ',').map_values(f));
        assert(f(a) == items[0]);
        assert(seq![items[0]] + rest =~= items);
    }
}

/// The round-trip law: any value in the class [`scalar_rt`] — every scalar
/// and inline list the decoder can produce, minus the named lossy shapes —
/// reads back from its own inline rendering as exactly itself.
pub proof fn lemma_inline_roundtrip(v: Val)
    requires
        scalar_rt(v),
    ensures
        scalar_of(inline_text(v)) == v,
{
    lemma_lit_chars();
    match v {
        Val::Array(items) => {
            let w = render_list(items);
            let r0 = render_atom(items[0]);
            let rl = render_atom(items[items.len() - 1]);
            lemma_render_shape(items[0]);
            lemma_render_shape(items[items.len() - 1]);
            lemma_render_list_ends(items);
            lemma_trim_ends(w);
            // the join holds the separating comma
            let rest = items.drop_first();
            assert(forall|i: int| 0 <= i < rest.len() ==> rest[i] == #[trigger] items[i + 1]);
            assert(w == r0 + seq![',', ' '] + render_list(rest));
            assert(!contains_c(r0, ','));
            let tail = seq![','] + (seq![' '] + render_list(rest));
            assert(w =~= r0 + tail);
            lemma_find_c_concat(r0, tail, ',');
            assert(find_c(tail, ',') == 0);
            lemma_render_list_ends(rest);
            assert(contains_c(w, ','));
            assert(w[r0.len() as int] == ',');
            // none of the leading classifications claims the join
            assert(w != lit_true() && w != lit_false() && w != lit_null()) by {
                lemma_no_char_no_contains(lit_true(), ',');
                lemma_no_char_no_contains(lit_false(), ',');
                lemma_no_char_no_contains(lit_null(), ',');
            }
            assert(parse_int_s(w) is None) by {
                if int_grammar(w) {
                    lemma_int_grammar_chars(w);
                }
            }
            assert(!float_grammar(w)) by {
                if float_grammar(w) {
                    lemma_float_grammar_chars(w);
                    assert(float_char(w[r0.len() as int]));
                }
            }
            assert(!is_quoted(w)) by {
                if is_quoted(w) {
                    assert(quote_rendered(items[0]));
                    assert(quote_rendered(items[items.len() - 1]));
                }
            }
            assert(!non_str_case(w));
            lemma_list_parts(Seq::empty(), items);
            assert(Seq::<char>::empty() + w =~= w);
            assert(scalar_of(w) == Val::Array(
                split_on(w, ',').map_values(|p: Seq<char>| scalar_atom(trim_s(p))),
            ));
        },
        Val::Object(_) => {},
        _ => {
            let r = render_atom(v);
            lemma_render_shape(v);
            lemma_trim_ends(r);
            lemma_atom_read(v);
            match v {
                Val::Str(s) => {
                    if !needs_quote(s) {
                        // the unquoted string matches no earlier
                        // classification and holds no comma
                        assert(r == s);
                        assert(!is_quoted(s)) by {
                            lemma_find_c(s, '"');
                        }
                        assert(!non_str_case(s));
                        assert(!contains_c(s, ','));
                    } else {
                        assert(is_quoted(r));
                        assert(non_str_case(r));
                    }
                },
                _ => {
                    assert(non_str_case(r));
                },
            }
        },
    }
}

// --- the document level ---

/// Escaping never leaves a literal newline in its output.
proof fn lemma_escape_no_newline(s: Seq<char>)
    ensures
        forall|j: int| 0 <= j < escape_s(s).len() ==> #[trigger] escape_s(s)[j] != '\n',
    decreases s.len(),
{
    if s.len() > 0 {
        let rest = s.drop_first();
        lemma_escape_no_newline(rest);
        let e = escape_s(s);
        assert(e == esc_char(s[0]) + escape_s(rest));
        assert forall|j: int| 0 <= j < e.len() implies #[trigger] e[j] != '\n' by {
            if j < esc_char(s[0]).len() {
                assert(e[j] == esc_char(s[0])[j]);
            } else {
                assert(e[j] == escape_s(rest)[j - esc_char(s[0]).len()]);
            }
        }
    }
}

/// A rendered atom occupies one line: it holds no newline.
proof fn lemma_render_no_newline(u: Val)
    requires
        atom_rt(u),
    ensures
        forall|j: int|
            0 <= j < render_atom(u).len() ==> #[trigger] render_atom(u)[j] != '\n',
{
    lemma_lit_chars();
    let r = render_atom(u);
    match u {
        Val::Int(i) => {
            lemma_int_text_chars(i);
        },
        Val::Float(t) => {
            lemma_float_grammar_chars(t);
        },
        Val::Str(s) => {
            if needs_quote(s) {
                lemma_escape_no_newline(s);
                assert forall|j: int| 0 <= j < r.len() implies #[trigger] r[j] != '\n' by {
                    if 0 < j < r.len() - 1 {
                        assert(r[j] == escape_s(s)[j - 1]);
                    }
                }
            } else {
                lemma_find_c(s, '\n');
            }
        },
        _ => {},
    }
}

/// A joined list occupies one line too.
proof fn lemma_render_list_no_newline(items: Seq<Val>)
    requires
        items.len() >= 1,
        forall|i: int| 0 <= i < items.len() ==> elem_rt(#[trigger] items[i]),
    ensures
        forall|j: int|
            0 <= j < render_list(items).len() ==> #[trigger] render_list(items)[j] != '\n',
    decreases items.len(),
{
    lemma_render_no_newline(items[0]);
    let w = render_list(items);
    let r0 = render_atom(items[0]);
    if items.len() == 1 {
    } else {
        let rest = items.drop_first();
        assert(forall|i: int| 0 <= i < rest.len() ==> rest[i] == #[trigger] items[i + 1]);
        lemma_render_list_no_newline(rest);
        assert(w == r0 + seq![',', ' '] + render_list(rest));
        assert forall|j: int| 0 <= j < w.len() implies #[trigger] w[j] != '\n' by {
            if j < r0.len() {
                assert(w[j] == r0[j]);
            } else if j < r0.len() + 2 {
                assert(w[j] == seq![',', ' '][j - r0.len()]);
            } else {
                assert(w[j] == render_list(rest)[j - r0.len() - 2]);
            }
        }
    }
}

/// A non-empty newline-free text frames as exactly one line.
proof fn lemma_single_line(w: Seq<char>)
    requires
        w.len() > 0,
        forall|j: int| 0 <= j < w.len() ==> #[trigger] w[j] != '\n',
    ensures
        crate::text::split_lines(w) =~= seq![w],
{
    lemma_no_char_no_contains(w, '\n');
    lemma_find_c(w, '\n');
    assert(split_on(w, '\n') == seq![w]);
    assert(seq![w].drop_last() =~= Seq::<Seq<char>>::empty());
    assert(crate::text::split_lines(w) =~= seq![w]);
}

/// The round-trip law at the document level: a value of the round-trip class
/// whose inline text holds no colon decodes from its own encoding as exactly
/// itself. (A colon in the text would read as a key/value line: the notation
/// cannot carry such a scalar at the root, a quoted string `"a:b"` being the
/// shortest example.)
pub proof fn lemma_document_roundtrip(v: Val)
    requires
        scalar_rt(v),
        !contains_c(inline_text(v), ':'),
    ensures
        crate::parser::parse_doc(crate::encoder::render_doc(v)) == Ok::<Val, crate::parser::ParseError>(v),
{
    let w = inline_text(v);
    // the encoded document is the inline text plus one newline, and the
    // trailing trim removes exactly that newline
    match v {
        Val::Array(items) => {
            lemma_render_list_ends(items);
            lemma_render_shape(items[0]);
            lemma_render_shape(items[items.len() - 1]);
            lemma_render_list_no_newline(items);
        },
        Val::Object(_) => {},
        _ => {
            lemma_render_shape(v);
            lemma_render_no_newline(v);
        },
    }
    let doc = crate::encoder::render_block(v, 0, 0);
    assert(doc == w + seq!['\n']);
    assert(w.len() > 0);
    assert(!is_space(w[w.len() - 1]));
    assert(crate::encoder::render_doc(v) == w) by {
        assert(doc[doc.len() - 1] == '\n');
        assert(is_space('\n'));
        assert(doc.drop_last() =~= w);
        assert(trailing_of(doc) == 1 + trailing_of(w));
        assert(trailing_of(w) == 0);
        assert(doc.take(doc.len() - 1) =~= w);
    }
    assert forall|j: int| 0 <= j < w.len() implies #[trigger] w[j] != '\n' by {}
    lemma_single_line(w);
    let lines = crate::text::split_lines(w);
    assert(lines.len() == 1 && lines[0] == w);
    lemma_trim_ends(w);
    lemma_find_c(w, ':');
    lemma_inline_roundtrip(v);
}

// --- lines and their framing ---

/// The single bare (unindented) line a scalar entry becomes.
pub open spec fn entry_line(e: (Seq<char>, Val)) -> Seq<char> {
    e.0 + seq![':', ' '] + inline_text(e.1)
}

/// Lines joined by single newlines, with no trailing one.
pub open spec fn joinl(ls: Seq<Seq<char>>) -> Seq<char>
    decreases ls.len(),
{
    if ls.len() == 0 {
        Seq::empty()
    } else if ls.len() == 1 {
        ls[0]
    } else {
        ls[0] + seq!['\n'] + joinl(ls.drop_first())
    }
}

/// A key the notation can carry verbatim: its own trimmed form, with no colon
/// and no newline.
pub open spec fn key_rt(k: Seq<char>) -> bool {
    &&& trim_s(k) == k
    &&& !contains_c(k, ':')
    &&& !contains_c(k, '\n')
}

/// What a scalar entry's bare line looks like: non-empty, unpadded at both ends,
/// no newline, and its first colon right after the key.
proof fn lemma_entry_line_shape(e: (Seq<char>, Val))
    requires
        key_rt(e.0),
        scalar_rt(e.1),
    ensures
        entry_line(e).len() > 0,
        !is_space(entry_line(e)[0]),
        !is_space(entry_line(e)[entry_line(e).len() - 1]),
        forall|j: int| 0 <= j < entry_line(e).len() ==> #[trigger] entry_line(e)[j] != '\n',
        find_c(entry_line(e), ':') == e.0.len(),
{
    let k = e.0;
    let w = inline_text(e.1);
    let l = entry_line(e);
    match e.1 {
        Val::Array(items) => {
            lemma_render_list_ends(items);
            lemma_render_shape(items[0]);
            lemma_render_shape(items[items.len() - 1]);
            lemma_render_list_no_newline(items);
        },
        Val::Object(_) => {},
        _ => {
            lemma_render_shape(e.1);
            lemma_render_no_newline(e.1);
        },
    }
    assert(w.len() > 0 && !is_space(w[0]) && !is_space(w[w.len() - 1]));
    assert(forall|j: int| 0 <= j < w.len() ==> #[trigger] w[j] != '\n');
    if k.len() > 0 {
        assert(!is_space(k[0])) by {
            crate::scalar::lemma_trim_id(k);
            lemma_indent_le_len(k.drop_first());
        }
        assert(l[0] == k[0]);
    } else {
        assert(l[0] == ':');
    }
    assert(l[l.len() - 1] == w[w.len() - 1]);
    lemma_find_c(k, ':');
    lemma_find_c_concat(k, seq![':', ' '] + w, ':');
    assert((seq![':', ' '] + w)[0] == ':');
    assert(find_c(seq![':', ' '] + w, ':') == 0);
    assert(l =~= k + (seq![':', ' '] + w));
    assert forall|j: int| 0 <= j < l.len() implies #[trigger] l[j] != '\n' by {
        if j < k.len() {
            assert(l[j] == k[j]);
            lemma_find_c(k, '\n');
        } else if j < k.len() + 2 {
            assert(l[j] == seq![':', ' '][j - k.len()]);
        } else {
            assert(l[j] == w[j - k.len() - 2]);
        }
    }
}

/// Newline-joined, newline-free, non-empty lines frame back as themselves.
proof fn lemma_split_joinl(ls: Seq<Seq<char>>)
    requires
        ls.len() >= 1,
        forall|i: int|
            0 <= i < ls.len() ==> (#[trigger] ls[i]).len() > 0 && !is_space(
                ls[i][ls[i].len() - 1],
            ) && (forall|j: int| 0 <= j < ls[i].len() ==> #[trigger] ls[i][j] != '\n'),
    ensures
        crate::text::split_lines(joinl(ls)) =~= ls,
    decreases ls.len(),
{
    if ls.len() == 1 {
        lemma_single_line(ls[0]);
        assert(crate::text::split_lines(joinl(ls)) =~= seq![ls[0]]);
        assert(seq![ls[0]] =~= ls);
    } else {
        let rest = ls.drop_first();
        assert(forall|i: int| 0 <= i < rest.len() ==> rest[i] == #[trigger] ls[i + 1]);
        lemma_split_joinl(rest);
        let w = joinl(ls);
        let l0 = ls[0];
        let jr = joinl(rest);
        assert(w == l0 + seq!['\n'] + jr);
        assert(!contains_c(l0, '\n')) by {
            lemma_no_char_no_contains(l0, '\n');
        }
        let tail = seq!['\n'] + jr;
        assert(w =~= l0 + tail);
        lemma_find_c_concat(l0, tail, '\n');
        assert(find_c(tail, '\n') == 0);
        assert(jr.len() > 0) by {
            if rest.len() == 1 {
            } else {
            }
        }
        assert(find_c(w, '\n') == l0.len() < w.len());
        assert(split_on(w, '\n') == seq![w.take(l0.len() as int)] + split_on(
            w.skip(l0.len() as int + 1),
            '\n',
        ));
        assert(w.take(l0.len() as int) =~= l0);
        assert(w.skip(l0.len() as int + 1) =~= jr);
        // the first framed line is the first given line, uncut
        let raw = split_on(w, '\n');
        let rawr = split_on(jr, '\n');
        assert(raw =~= seq![l0] + rawr);
        assert(raw.last() == rawr.last());
        assert(raw.drop_last() =~= seq![l0] + rawr.drop_last());
        assert(raw.drop_last().map_values(|l: Seq<char>| crate::text::strip_cr(l)) =~= seq![
            crate::text::strip_cr(l0),
        ] + rawr.drop_last().map_values(|l: Seq<char>| crate::text::strip_cr(l)));
        assert(crate::text::strip_cr(l0) == l0) by {
            assert(l0[l0.len() - 1] != '\r') by {
                assert(is_space('\r'));
            }
        }
        assert(crate::text::split_lines(w) =~= seq![l0] + crate::text::split_lines(jr));
    }
}

// --- whole nested documents ---

/// A document tree whose block at nesting `d` reads back: carriable keys,
/// round-trippable inline values, nested maps one level deeper, and the
/// depth bound respected.
pub open spec fn tree_rt(entries: Seq<(Seq<char>, Val)>, d: int) -> bool
    decreases entries, 2int, 0int,
{
    &&& 0 <= d < crate::value::DEPTH_LIMIT
    &&& tree_rt_from(entries, 0, d)
}

pub open spec fn tree_rt_from(entries: Seq<(Seq<char>, Val)>, k: int, d: int) -> bool
    decreases entries, 1int, entries.len() - k,
{
    if k < 0 || k >= entries.len() {
        true
    } else {
        proof {
            assert(decreases_to!(entries, 1int, entries.len() - k => entries[k]));
            assert(decreases_to!(entries[k] => entries[k].1));
        }
        &&& key_rt(entries[k].0)
        &&& entry_val_rt(entries[k].1, d)
        &&& tree_rt_from(entries, k + 1, d)
    }
}

pub open spec fn entry_val_rt(v: Val, d: int) -> bool
    decreases v, 0int, 0int,
{
    match v {
        Val::Object(ch) => {
            proof {
                assert(decreases_to!(v, 0int, 0int => ch, 2int, 0int));
            }
            tree_rt(ch, d + 1)
        },
        _ => scalar_rt(v),
    }
}

/// The line opening a nested map entry: the indented key and a bare colon.
pub open spec fn key_line(k: Seq<char>, indent: int) -> Seq<char> {
    crate::encoder::spaces(indent) + k + seq![':']
}

/// The single line of a scalar entry: the indented key, the colon and the
/// inline value.
pub open spec fn scalar_line(k: Seq<char>, v: Val, indent: int) -> Seq<char> {
    crate::encoder::spaces(indent) + k + seq![':', ' '] + inline_text(v)
}

/// The lines a block's entries occupy at `indent`: one line per scalar entry,
/// a key line plus the child's deeper block per map entry.
pub open spec fn block_lines(entries: Seq<(Seq<char>, Val)>, indent: int) -> Seq<Seq<char>>
    decreases entries, 1int,
{
    if entries.len() == 0 {
        Seq::empty()
    } else {
        let e = entries[0];
        let head: Seq<Seq<char>> = match e.1 {
            Val::Object(ch) => {
                proof {
                    assert(decreases_to!(entries, 1int => entries[0]));
                    assert(decreases_to!(entries[0] => e.1));
                }
                seq![key_line(e.0, indent)] + block_lines(ch, indent + 2)
            },
            _ => seq![scalar_line(e.0, e.1, indent)],
        };
        proof {
            assert(entries.drop_first() == entries.subrange(1, entries.len() as int));
            assert(decreases_to!(entries, 1int => entries.drop_first(), 1int));
        }
        head + block_lines(entries.drop_first(), indent)
    }
}

/// The lines each closed by a newline: the raw text of a block.
pub open spec fn cat_lines(ls: Seq<Seq<char>>) -> Seq<char>
    decreases ls.len(),
{
    if ls.len() == 0 {
        Seq::empty()
    } else {
        ls[0] + seq!['\n'] + cat_lines(ls.drop_first())
    }
}

proof fn lemma_cat_lines_concat(a: Seq<Seq<char>>, b: Seq<Seq<char>>)
    ensures
        cat_lines(a + b) == cat_lines(a) + cat_lines(b),
    decreases a.len(),
{
    if a.len() == 0 {
        assert(a + b =~= b);
        assert(cat_lines(a) + cat_lines(b) =~= cat_lines(b));
    } else {
        lemma_cat_lines_concat(a.drop_first(), b);
        let w = a + b;
        assert(w[0] == a[0]);
        assert(w.drop_first() =~= a.drop_first() + b);
        assert(a[0] + seq!['\n'] + (cat_lines(a.drop_first()) + cat_lines(b)) =~= (a[0] + seq![
            '\n',
        ] + cat_lines(a.drop_first())) + cat_lines(b));
    }
}

proof fn lemma_spaces_chars(n: int)
    ensures
        crate::encoder::spaces(n).len() == if n >= 0 {
            n
        } else {
            0
        },
        forall|i: int|
            0 <= i < crate::encoder::spaces(n).len() ==> #[trigger] crate::encoder::spaces(n)[i]
                == ' ',
    decreases n,
{
    if n > 0 {
        lemma_spaces_chars(n - 1);
    }
}

/// The leading-whitespace count of an indented line whose content starts with
/// something other than whitespace.
proof fn lemma_indent_prefix(n: int, rest: Seq<char>)
    requires
        n >= 0,
        rest.len() > 0,
        !is_space(rest[0]),
    ensures
        indent_of(crate::encoder::spaces(n) + rest) == n,
    decreases n,
{
    lemma_spaces_chars(n);
    let w = crate::encoder::spaces(n) + rest;
    if n == 0 {
        assert(w =~= rest);
    } else {
        lemma_indent_prefix(n - 1, rest);
        lemma_spaces_chars(n - 1);
        assert(w[0] == ' ');
        assert(is_space(' '));
        let w1 = crate::encoder::spaces(n - 1) + rest;
        assert(w.drop_first() =~= w1) by {
            assert forall|i: int| 0 <= i < w.len() - 1 implies w.drop_first()[i] == w1[i] by {
                assert(w.drop_first()[i] == w[i + 1]);
                if i + 1 < n {
                    assert(w[i + 1] == ' ');
                    assert(w1[i] == ' ');
                } else {
                    assert(w[i + 1] == rest[i + 1 - n]);
                    assert(w1[i] == rest[i - (n - 1)]);
                }
            }
        }
        assert(indent_of(w) == 1 + indent_of(w1));
    }
}

/// The shape of every line a block renders: non-blank, newline-free, ending
/// in content, indented at least the block's own indent, the first line
/// exactly so.
proof fn lemma_block_lines_shape(entries: Seq<(Seq<char>, Val)>, indent: int, d: int)
    requires
        tree_rt_from(entries, 0, d),
        0 <= d,
        0 <= indent,
    ensures
        forall|j: int|
            0 <= j < block_lines(entries, indent).len() ==> {
                let l = #[trigger] block_lines(entries, indent)[j];
                l.len() > 0 && !is_space(l[l.len() - 1]) && indent_of(l) >= indent && (forall|
                    m: int,
                |
                    0 <= m < l.len() ==> #[trigger] l[m] != '\n')
            },
        entries.len() > 0 ==> block_lines(entries, indent).len() > 0 && indent_of(
            block_lines(entries, indent)[0],
        ) == indent,
    decreases entries, 1int,
{
    if entries.len() > 0 {
        let e = entries[0];
        assert(key_rt(e.0) && entry_val_rt(e.1, d) && tree_rt_from(entries, 1, d));
        assert(entries.drop_first() == entries.subrange(1, entries.len() as int));
        assert(tree_rt_from(entries.drop_first(), 0, d)) by {
            lemma_tree_rt_shift(entries, 1, d);
        }
        lemma_block_lines_shape(entries.drop_first(), indent, d);
        lemma_spaces_chars(indent);
        let bl = block_lines(entries, indent);
        let head: Seq<Seq<char>> = match e.1 {
            Val::Object(ch) => seq![key_line(e.0, indent)] + block_lines(ch, indent + 2),
            _ => seq![scalar_line(e.0, e.1, indent)],
        };
        assert(bl == head + block_lines(entries.drop_first(), indent));
        match e.1 {
            Val::Object(ch) => {
                let hl = key_line(e.0, indent);
                lemma_key_line_shape(e.0, indent);
                assert(tree_rt(ch, d + 1));
                lemma_block_lines_shape(ch, indent + 2, d + 1);
                assert(head[0] == hl);
                assert forall|j: int| 0 <= j < head.len() implies {
                    let l = #[trigger] head[j];
                    l.len() > 0 && !is_space(l[l.len() - 1]) && indent_of(l) >= indent && (forall|
                        m: int,
                    |
                        0 <= m < l.len() ==> #[trigger] l[m] != '\n')
                } by {
                    if j > 0 {
                        assert(head[j] == block_lines(ch, indent + 2)[j - 1]);
                    }
                }
                assert(bl[0] == hl);
            },
            _ => {
                let hl = scalar_line(e.0, e.1, indent);
                lemma_scalar_line_shape(e.0, e.1, indent);
                assert(head =~= seq![hl]);
                assert(bl[0] == hl);
            },
        }
        assert forall|j: int| 0 <= j < bl.len() implies {
            let l = #[trigger] bl[j];
            l.len() > 0 && !is_space(l[l.len() - 1]) && indent_of(l) >= indent && (forall|m: int|
                0 <= m < l.len() ==> #[trigger] l[m] != '\n')
        } by {
            if j < head.len() {
                assert(bl[j] == head[j]);
            } else {
                assert(bl[j] == block_lines(entries.drop_first(), indent)[j - head.len()]);
            }
        }
    }
}

/// The shape of a nested map entry's key line.
proof fn lemma_key_line_shape(k: Seq<char>, indent: int)
    requires
        key_rt(k),
        0 <= indent,
    ensures
        key_line(k, indent).len() > 0,
        !is_space(key_line(k, indent)[key_line(k, indent).len() - 1]),
        indent_of(key_line(k, indent)) == indent,
        forall|m: int|
            0 <= m < key_line(k, indent).len() ==> #[trigger] key_line(k, indent)[m] != '\n',
        trim_s(key_line(k, indent)) == k + seq![':'],
        find_c(trim_s(key_line(k, indent)), ':') == k.len(),
{
    lemma_spaces_chars(indent);
    let body = k + seq![':'];
    let hl = key_line(k, indent);
    assert(hl =~= crate::encoder::spaces(indent) + body);
    assert(body[body.len() - 1] == ':');
    assert(!is_space(body[0])) by {
        if k.len() > 0 {
            assert(body[0] == k[0]);
            crate::scalar::lemma_trim_id(k);
            lemma_indent_le_len(k.drop_first());
        } else {
            assert(body[0] == ':');
        }
    }
    lemma_indent_prefix(indent, body);
    lemma_trim_pad(crate::encoder::spaces(indent), body);
    lemma_find_c(k, ':');
    lemma_find_c_concat(k, seq![':'], ':');
    assert(find_c(seq![':'], ':') == 0);
    assert forall|m: int| 0 <= m < hl.len() implies #[trigger] hl[m] != '\n' by {
        if m < indent {
            assert(hl[m] == ' ');
        } else {
            assert(hl[m] == body[m - indent]);
            if m - indent < k.len() {
                assert(body[m - indent] == k[m - indent]);
                lemma_find_c(k, '\n');
            } else {
                assert(body[m - indent] == ':');
            }
        }
    }
    assert(hl[hl.len() - 1] == body[body.len() - 1]);
}

/// The shape of a scalar entry's line.
proof fn lemma_scalar_line_shape(k: Seq<char>, v: Val, indent: int)
    requires
        key_rt(k),
        scalar_rt(v),
        0 <= indent,
    ensures
        scalar_line(k, v, indent).len() > 0,
        !is_space(scalar_line(k, v, indent)[scalar_line(k, v, indent).len() - 1]),
        indent_of(scalar_line(k, v, indent)) == indent,
        forall|m: int|
            0 <= m < scalar_line(k, v, indent).len() ==> #[trigger] scalar_line(k, v, indent)[m]
                != '\n',
        trim_s(scalar_line(k, v, indent)) == entry_line((k, v)),
        find_c(trim_s(scalar_line(k, v, indent)), ':') == k.len(),
{
    lemma_spaces_chars(indent);
    let body = entry_line((k, v));
    let hl = scalar_line(k, v, indent);
    lemma_entry_line_shape((k, v));
    assert(hl =~= crate::encoder::spaces(indent) + body);
    lemma_indent_prefix(indent, body);
    lemma_trim_pad(crate::encoder::spaces(indent), body);
    assert forall|m: int| 0 <= m < hl.len() implies #[trigger] hl[m] != '\n' by {
        if m < indent {
            assert(hl[m] == ' ');
        } else {
            assert(hl[m] == body[m - indent]);
        }
    }
    assert(hl[hl.len() - 1] == body[body.len() - 1]);
}

/// The rendering of entries from `k` on equals the rendering of the remaining
/// entries alone.
proof fn lemma_render_entries_transport(
    a: Seq<(Seq<char>, Val)>,
    i: int,
    b: Seq<(Seq<char>, Val)>,
    j: int,
    indent: int,
    d: int,
)
    requires
        0 <= i <= a.len(),
        0 <= j <= b.len(),
        a.len() - i == b.len() - j,
        forall|m: int| 0 <= m < a.len() - i ==> a[i + m] == #[trigger] b[j + m],
    ensures
        crate::encoder::render_entries(a, i, indent, d) == crate::encoder::render_entries(
            b,
            j,
            indent,
            d,
        ),
    decreases a.len() - i,
{
    if i < a.len() {
        assert forall|m: int| 0 <= m < a.len() - (i + 1) implies a[(i + 1) + m] == #[trigger] b[(j
            + 1) + m] by {
            assert(a[i + (m + 1)] == b[j + (m + 1)]);
        }
        lemma_render_entries_transport(a, i + 1, b, j + 1, indent, d);
        assert(a[i + 0] == b[j + 0]);
    }
}

/// The encoder writes for a block exactly its lines, each closed by a
/// newline.
proof fn lemma_tree_renders(entries: Seq<(Seq<char>, Val)>, indent: int, d: int)
    requires
        tree_rt(entries, d),
        0 <= indent,
    ensures
        crate::encoder::render_entries(entries, 0, indent, d) == cat_lines(
            block_lines(entries, indent),
        ),
    decreases entries, 1int,
{
    let limit = crate::value::DEPTH_LIMIT as int;
    if entries.len() == 0 {
    } else {
        let e = entries[0];
        assert(key_rt(e.0) && entry_val_rt(e.1, d) && tree_rt_from(entries, 1, d));
        let rest = entries.drop_first();
        assert(rest == entries.subrange(1, entries.len() as int));
        lemma_tree_rt_shift(entries, 1, d);
        lemma_tree_renders(rest, indent, d);
        assert forall|m: int| 0 <= m < entries.len() - 1 implies entries[1 + m] == #[trigger] rest[0
            + m] by {}
        lemma_render_entries_transport(entries, 1, rest, 0, indent, d);
        let bl = block_lines(entries, indent);
        let re = crate::encoder::render_entries(entries, 0, indent, d);
        match e.1 {
            Val::Object(ch) => {
                assert(tree_rt(ch, d + 1));
                lemma_tree_renders(ch, indent + 2, d + 1);
                assert(crate::encoder::render_block(e.1, indent + 2, d + 1)
                    == crate::encoder::render_entries(ch, 0, indent + 2, d + 1));
                let head = seq![key_line(e.0, indent)] + block_lines(ch, indent + 2);
                assert(bl == head + block_lines(rest, indent));
                lemma_cat_lines_concat(head, block_lines(rest, indent));
                lemma_cat_lines_concat(seq![key_line(e.0, indent)], block_lines(ch, indent + 2));
                assert(cat_lines(seq![key_line(e.0, indent)]) =~= key_line(e.0, indent) + seq![
                    '\n',
                ]) by {
                    let one = seq![key_line(e.0, indent)];
                    assert(one[0] == key_line(e.0, indent));
                    assert(one.drop_first() =~= Seq::<Seq<char>>::empty());
                    assert(cat_lines(one.drop_first()) == Seq::<char>::empty());
                    assert(cat_lines(one) == key_line(e.0, indent) + seq!['\n'] + Seq::<
                        char,
                    >::empty());
                }
                assert(head =~= seq![key_line(e.0, indent)] + block_lines(ch, indent + 2));
                assert(re == crate::encoder::spaces(indent) + e.0 + seq![':', '\n']
                    + crate::encoder::render_block(e.1, indent + 2, d + 1)
                    + crate::encoder::render_entries(entries, 1, indent, d));
                assert(re =~= cat_lines(bl));
            },
            _ => {
                assert(crate::encoder::render_block(e.1, 0, d + 1) == inline_text(e.1) + seq![
                    '\n',
                ]);
                let head = seq![scalar_line(e.0, e.1, indent)];
                assert(bl == head + block_lines(rest, indent));
                lemma_cat_lines_concat(head, block_lines(rest, indent));
                assert(cat_lines(head) =~= scalar_line(e.0, e.1, indent) + seq!['\n']) by {
                    assert(head[0] == scalar_line(e.0, e.1, indent));
                    assert(head.drop_first() =~= Seq::<Seq<char>>::empty());
                    assert(cat_lines(head.drop_first()) == Seq::<char>::empty());
                    assert(cat_lines(head) == scalar_line(e.0, e.1, indent) + seq!['\n'] + Seq::<
                        char,
                    >::empty());
                }
                assert(re == crate::encoder::spaces(indent) + e.0 + seq![':', ' ']
                    + crate::encoder::render_block(e.1, 0, d + 1) + crate::encoder::render_entries(
                    entries,
                    1,
                    indent,
                    d,
                ));
                assert(re =~= cat_lines(bl));
            },
        }
    }
}

/// `tree_rt_from` carries over to any aligned copy of the remaining entries.
proof fn lemma_tree_rt_transport(
    a: Seq<(Seq<char>, Val)>,
    i: int,
    b: Seq<(Seq<char>, Val)>,
    j: int,
    d: int,
)
    requires
        0 <= i <= a.len(),
        0 <= j <= b.len(),
        a.len() - i == b.len() - j,
        forall|m: int| 0 <= m < a.len() - i ==> a[i + m] == #[trigger] b[j + m],
        tree_rt_from(a, i, d),
    ensures
        tree_rt_from(b, j, d),
    decreases a.len() - i,
{
    if i < a.len() {
        assert forall|m: int| 0 <= m < a.len() - (i + 1) implies a[(i + 1) + m] == #[trigger] b[(j
            + 1) + m] by {
            assert(a[i + (m + 1)] == b[j + (m + 1)]);
        }
        lemma_tree_rt_transport(a, i + 1, b, j + 1, d);
        assert(a[i + 0] == b[j + 0]);
    }
}

/// Membership in the round-trip tree is preserved under dropping a prefix.
proof fn lemma_tree_rt_shift(entries: Seq<(Seq<char>, Val)>, k: int, d: int)
    requires
        0 <= k <= entries.len(),
        tree_rt_from(entries, k, d),
    ensures
        tree_rt_from(entries.subrange(k, entries.len() as int), 0, d),
{
    let rest = entries.subrange(k, entries.len() as int);
    lemma_tree_rt_transport(entries, k, rest, 0, d);
}

/// An empty token trims to nothing.
proof fn lemma_trim_empty()
    ensures
        trim_s(Seq::<char>::empty()) == Seq::<char>::empty(),
{
    let e = Seq::<char>::empty();
    assert(indent_of(e) == 0);
    assert(e.skip(0) =~= e);
    assert(trailing_of(e) == 0);
    assert(e.take(0) =~= e);
}

/// A block line is never blank: it ends in content.
proof fn lemma_line_not_blank(l: Seq<char>)
    requires
        l.len() > 0,
        !is_space(l[l.len() - 1]),
    ensures
        !crate::text::is_blank(l),
{
    if crate::text::is_blank(l) {
        lemma_indent_le_len(l);
        assert(is_space(l[l.len() - 1]));
    }
}

/// The parse of one block's segment: scanning from the block's first line
/// with its own indent as the bound gives back exactly the block's entries,
/// and stops exactly past its lines.
#[verifier::rlimit(100)]
proof fn lemma_tree_parses(
    all: Seq<Seq<char>>,
    i: int,
    entries: Seq<(Seq<char>, Val)>,
    indent: int,
    d: int,
)
    requires
        tree_rt(entries, d),
        0 <= indent,
        0 <= i,
        i + block_lines(entries, indent).len() <= all.len(),
        forall|j: int|
            0 <= j < block_lines(entries, indent).len() ==> all[i + j] == #[trigger] block_lines(
                entries,
                indent,
            )[j],
        i + block_lines(entries, indent).len() == all.len() || (!crate::text::is_blank(
            all[i + block_lines(entries, indent).len()],
        ) && indent_of(all[i + block_lines(entries, indent).len()]) < indent),
    ensures
        crate::parser::pb_lines(all, i, indent, d) == Ok::<_, crate::parser::ParseError>(entries),
        crate::parser::next_stop(all, i, indent) == i + block_lines(entries, indent).len(),
    decreases entries, 1int,
{
    let bl = block_lines(entries, indent);
    let stop = i + bl.len();
    if entries.len() == 0 {
        assert(bl =~= Seq::<Seq<char>>::empty());
        assert(stop == i);
        assert(entries =~= Seq::<(Seq<char>, Val)>::empty());
    } else {
        let e = entries[0];
        assert(key_rt(e.0) && entry_val_rt(e.1, d) && tree_rt_from(entries, 1, d));
        let rest = entries.drop_first();
        assert(rest == entries.subrange(1, entries.len() as int));
        lemma_tree_rt_shift(entries, 1, d);
        lemma_block_lines_shape(entries, indent, d);
        lemma_block_lines_shape(rest, indent, d);
        let bl_rest = block_lines(rest, indent);
        let l = all[i];
        assert(l == bl[0]);
        match e.1 {
            Val::Object(ch) => {
                let hl = key_line(e.0, indent);
                let bl_ch = block_lines(ch, indent + 2);
                let head = seq![hl] + bl_ch;
                assert(bl == head + bl_rest);
                assert(l == hl) by {
                    assert(head[0] == hl);
                }
                lemma_key_line_shape(e.0, indent);
                lemma_line_not_blank(l);
                assert(indent_of(l) == indent);
                let t = trim_s(l);
                assert(t == e.0 + seq![':']);
                let ci = find_c(t, ':');
                assert(ci == e.0.len());
                assert(contains_c(t, ':'));
                assert(t.take(ci) =~= e.0);
                assert(trim_s(t.take(ci)) == e.0);
                let vraw = t.skip(ci + 1);
                assert(vraw =~= Seq::<char>::empty());
                lemma_trim_empty();
                assert(trim_s(vraw).len() == 0);
                assert(tree_rt(ch, d + 1));
                lemma_block_lines_shape(ch, indent + 2, d + 1);
                if ch.len() > 0 {
                    // a deeper child block follows right away
                    assert(bl_ch.len() > 0);
                    assert(all[i + 1] == bl[1]);
                    assert(bl[1] == bl_ch[0]) by {
                        assert(head[1] == bl_ch[0]);
                    }
                    lemma_line_not_blank(all[i + 1]);
                    assert(crate::parser::next_content(all, i + 1) == i + 1);
                    assert(indent_of(all[i + 1]) == indent + 2);
                    // the child's own segment and boundary
                    assert forall|m: int| 0 <= m < bl_ch.len() implies all[(i + 1) + m]
                        == #[trigger] bl_ch[m] by {
                        assert(head[1 + m] == bl_ch[m]);
                        assert(bl[1 + m] == head[1 + m]);
                        assert(all[i + (1 + m)] == bl[1 + m]);
                    }
                    let jafter = i + 1 + bl_ch.len();
                    assert(jafter == all.len() || (!crate::text::is_blank(all[jafter])
                        && indent_of(all[jafter]) < indent + 2)) by {
                        if rest.len() > 0 {
                            assert(bl_rest.len() > 0);
                            assert(bl[1 + bl_ch.len() as int] == bl_rest[0]);
                            assert(all[i + (1 + bl_ch.len() as int)] == bl[1 + bl_ch.len() as int]);
                            assert(indent_of(bl_rest[0]) == indent);
                            lemma_line_not_blank(all[jafter]);
                        } else {
                            assert(bl_rest.len() == 0);
                            assert(jafter == stop);
                        }
                    }
                    lemma_tree_parses(all, i + 1, ch, indent + 2, d + 1);
                    assert(crate::parser::pb_block(all, i + 1, indent + 2, d + 1) == Ok::<
                        _,
                        crate::parser::ParseError,
                    >(ch));
                    assert(crate::parser::next_stop(all, i + 1, indent + 2) == jafter);
                    // the parent resumes where the child stopped
                    assert forall|m: int| 0 <= m < bl_rest.len() implies all[jafter + m]
                        == #[trigger] bl_rest[m] by {
                        assert(bl[(1 + bl_ch.len()) + m] == bl_rest[m]);
                        assert(all[i + ((1 + bl_ch.len()) + m)] == bl[(1 + bl_ch.len()) + m]);
                    }
                    assert(jafter + bl_rest.len() == stop);
                    lemma_tree_parses(all, jafter, rest, indent, d);
                    assert(seq![(e.0, e.1)] + rest =~= entries);
                    // the scan also passes through the child's lines
                    assert forall|j: int| i + 1 <= j < jafter implies crate::text::is_blank(
                        #[trigger] all[j],
                    ) || indent_of(all[j]) >= indent by {
                        assert(all[i + (j - i)] == bl[j - i]);
                        assert(bl[j - i] == head[j - i]);
                        assert(head[j - i] == bl_ch[j - i - 1]);
                        assert(indent_of(bl_ch[j - i - 1]) >= indent + 2);
                    }
                    crate::parser::lemma_next_stop_through(all, i + 1, jafter, indent);
                } else {
                    // no deeper child: the key gets an empty map
                    assert(bl_ch.len() == 0);
                    assert(head =~= seq![hl]);
                    assert(Val::Object(ch) == Val::Object(Seq::<(Seq<char>, Val)>::empty())) by {
                        assert(ch =~= Seq::<(Seq<char>, Val)>::empty());
                    }
                    let k2 = crate::parser::next_content(all, i + 1);
                    if i + 1 < all.len() {
                        if rest.len() > 0 {
                            assert(bl_rest.len() > 0);
                            assert(bl[1] == bl_rest[0]);
                            assert(all[i + 1] == bl[1]);
                            lemma_line_not_blank(all[i + 1]);
                            assert(k2 == i + 1);
                            assert(indent_of(all[i + 1]) == indent);
                        } else {
                            assert(stop == i + 1);
                            assert(k2 == i + 1) by {
                                assert(!crate::text::is_blank(all[i + 1]));
                            }
                            assert(indent_of(all[i + 1]) < indent);
                        }
                        assert(!(indent_of(all[k2]) > indent_of(all[i])));
                    } else {
                        assert(k2 == all.len());
                    }
                    assert forall|m: int| 0 <= m < bl_rest.len() implies all[(i + 1) + m]
                        == #[trigger] bl_rest[m] by {
                        assert(bl[1 + m] == bl_rest[m]);
                        assert(all[i + (1 + m)] == bl[1 + m]);
                    }
                    lemma_tree_parses(all, i + 1, rest, indent, d);
                    assert(seq![(e.0, e.1)] + rest =~= entries);
                }
            },
            _ => {
                let hl = scalar_line(e.0, e.1, indent);
                let head = seq![hl];
                assert(bl == head + bl_rest);
                assert(l == hl) by {
                    assert(head[0] == hl);
                }
                lemma_scalar_line_shape(e.0, e.1, indent);
                lemma_line_not_blank(l);
                assert(indent_of(l) == indent);
                let t = trim_s(l);
                assert(t == entry_line((e.0, e.1)));
                let ci = find_c(t, ':');
                assert(ci == e.0.len());
                lemma_entry_line_shape((e.0, e.1));
                assert(contains_c(t, ':')) by {
                    assert(t.len() == e.0.len() + 2 + inline_text(e.1).len());
                }
                assert(t.take(ci) =~= e.0);
                assert(trim_s(t.take(ci)) == e.0);
                let vraw = t.skip(ci + 1);
                let w = inline_text(e.1);
                assert(vraw =~= seq![' '] + w);
                match e.1 {
                    Val::Array(items) => {
                        lemma_render_list_ends(items);
                        lemma_render_shape(items[0]);
                        lemma_render_shape(items[items.len() - 1]);
                    },
                    Val::Object(_) => {},
                    _ => {
                        lemma_render_shape(e.1);
                    },
                }
                lemma_trim_pad(seq![' '], w);
                assert(trim_s(vraw).len() > 0);
                lemma_inline_roundtrip(e.1);
                assert(scalar_of(vraw) == e.1) by {
                    assert(trim_s(vraw) == w);
                    lemma_trim_ends(w);
                    assert(trim_s(w) == w);
                }
                assert forall|m: int| 0 <= m < bl_rest.len() implies all[(i + 1) + m]
                    == #[trigger] bl_rest[m] by {
                    assert(bl[1 + m] == bl_rest[m]);
                    assert(all[i + (1 + m)] == bl[1 + m]);
                }
                lemma_tree_parses(all, i + 1, rest, indent, d);
                assert(seq![(e.0, e.1)] + rest =~= entries);
            },
        }
    }
}

/// The round-trip law for whole documents: any non-empty map in the class
/// [`tree_rt`] decodes from its own encoding as exactly itself.
pub proof fn lemma_tree_roundtrip(entries: Seq<(Seq<char>, Val)>)
    requires
        tree_rt(entries, 0),
        entries.len() >= 1,
    ensures
        crate::parser::parse_doc(crate::encoder::render_doc(Val::Object(entries))) == Ok::<
            Val,
            crate::parser::ParseError,
        >(Val::Object(entries)),
{
    let ls = block_lines(entries, 0);
    lemma_block_lines_shape(entries, 0, 0);
    lemma_tree_renders(entries, 0, 0);
    let full = crate::encoder::render_block(Val::Object(entries), 0, 0);
    assert(full == cat_lines(ls));
    assert(ls.len() >= 1);
    // the raw text is the lines joined, plus one final newline
    assert(cat_lines(ls) == joinl(ls) + seq!['\n']) by {
        lemma_cat_lines_is_joinl(ls);
    }
    // trimming the document removes exactly that newline
    let doc = crate::encoder::render_doc(Val::Object(entries));
    assert(doc == joinl(ls)) by {
        let jl = joinl(ls);
        assert(jl.len() > 0 && !is_space(jl[jl.len() - 1])) by {
            lemma_joinl_last(ls);
        }
        assert(full[full.len() - 1] == '\n');
        assert(is_space('\n'));
        assert(full.drop_last() =~= jl);
        assert(trailing_of(full) == 1 + trailing_of(jl));
        assert(trailing_of(jl) == 0);
        assert(full.take(full.len() - 1) =~= jl);
    }
    lemma_split_joinl(ls);
    let lines = crate::text::split_lines(doc);
    assert(lines =~= ls);
    assert forall|j: int| 0 <= j < ls.len() implies lines[0 + j] == #[trigger] ls[j] by {}
    lemma_tree_parses(lines, 0, entries, 0, 0);
    assert(entries.subrange(0, entries.len() as int) =~= entries);
    if lines.len() == 1 {
        // one line, but it holds the first entry's colon: not a bare scalar
        assert(ls[0] == block_lines(entries, 0)[0]);
        match entries[0].1 {
            Val::Object(_) => {
                lemma_key_line_shape(entries[0].0, 0);
                assert(contains_c(trim_s(lines[0]), ':')) by {
                    assert(trim_s(ls[0]) == entries[0].0 + seq![':']);
                    lemma_find_c(trim_s(ls[0]), ':');
                }
            },
            _ => {
                lemma_scalar_line_shape(entries[0].0, entries[0].1, 0);
                lemma_entry_line_shape((entries[0].0, entries[0].1));
                assert(contains_c(trim_s(lines[0]), ':')) by {
                    lemma_find_c(trim_s(ls[0]), ':');
                }
            },
        }
    }
    assert(crate::parser::pb_block(lines, 0, 0, 0) == Ok::<_, crate::parser::ParseError>(entries));
}

/// Terminated lines are the join plus one final newline.
proof fn lemma_cat_lines_is_joinl(ls: Seq<Seq<char>>)
    requires
        ls.len() >= 1,
    ensures
        cat_lines(ls) == joinl(ls) + seq!['\n'],
    decreases ls.len(),
{
    if ls.len() == 1 {
        assert(ls.drop_first() =~= Seq::<Seq<char>>::empty());
        assert(cat_lines(ls.drop_first()) == Seq::<char>::empty());
        assert(ls[0] + seq!['\n'] + Seq::<char>::empty() =~= ls[0] + seq!['\n']);
    } else {
        lemma_cat_lines_is_joinl(ls.drop_first());
        assert(cat_lines(ls) == ls[0] + seq!['\n'] + cat_lines(ls.drop_first()));
        assert(joinl(ls) == ls[0] + seq!['\n'] + joinl(ls.drop_first()));
        assert(ls[0] + seq!['\n'] + (joinl(ls.drop_first()) + seq!['\n']) =~= (ls[0] + seq!['\n']
            + joinl(ls.drop_first())) + seq!['\n']);
    }
}

/// Joined lines end with the last line's content.
proof fn lemma_joinl_last(ls: Seq<Seq<char>>)
    requires
        ls.len() >= 1,
        forall|i: int|
            0 <= i < ls.len() ==> (#[trigger] ls[i]).len() > 0 && !is_space(
                ls[i][ls[i].len() - 1],
            ),
    ensures
        joinl(ls).len() > 0,
        !is_space(joinl(ls)[joinl(ls).len() - 1]),
    decreases ls.len(),
{
    if ls.len() == 1 {
    } else {
        let rest = ls.drop_first();
        assert(forall|i: int| 0 <= i < rest.len() ==> rest[i] == #[trigger] ls[i + 1]);
        lemma_joinl_last(rest);
        let w = joinl(ls);
        assert(w == ls[0] + seq!['\n'] + joinl(rest));
        assert(w[w.len() - 1] == joinl(rest)[joinl(rest).len() - 1]);
    }
}

// --- the depth guard ---

/// One step of a nesting chain: a non-blank line whose trimmed form ends at
/// its first colon (so the value part is empty and the parser must look
/// deeper).
pub open spec fn nesting_line(l: Seq<char>) -> bool {
    &&& !crate::text::is_blank(l)
    &&& contains_c(trim_s(l), ':')
    &&& trim_s(trim_s(l).skip(find_c(trim_s(l), ':') + 1)).len() == 0
}

/// Lines that nest strictly deeper, one block per line, from `k` on.
pub open spec fn nesting_chain(lines: Seq<Seq<char>>, k: int) -> bool {
    &&& (forall|i: int| k <= i < lines.len() ==> nesting_line(#[trigger] lines[i]))
    &&& (forall|i: int|
        k <= i < lines.len() - 1 ==> indent_of(#[trigger] lines[i]) < indent_of(lines[i + 1]))
}

/// The depth guard fires: a chain of strictly deeper key lines with more
/// lines than the depth bound leaves room for parses to `DepthExceeded`
/// rather than recursing without bound.
pub proof fn lemma_depth_guard(lines: Seq<Seq<char>>, k: int, base: int, depth: int)
    requires
        0 <= k < lines.len(),
        0 <= depth,
        base <= indent_of(lines[k]),
        nesting_chain(lines, k),
        lines.len() - k > crate::value::DEPTH_LIMIT - depth + 1,
    ensures
        crate::parser::pb_block(lines, k, base, depth) == Err::<
            Seq<(Seq<char>, Val)>,
            crate::parser::ParseError,
        >(crate::parser::ParseError::DepthExceeded),
    decreases lines.len() - k,
{
    let limit = crate::value::DEPTH_LIMIT as int;
    if depth > limit {
    } else {
        // the line is a key with an empty value part, and the next line is
        // strictly deeper: the parser must open a nested block
        assert(nesting_line(lines[k]));
        assert(k < lines.len() - 1);
        crate::parser::lemma_next_content(lines, k + 1);
        assert(!crate::text::is_blank(lines[k + 1]));
        assert(crate::parser::next_content(lines, k + 1) == k + 1);
        assert(indent_of(lines[k + 1]) > indent_of(lines[k]));
        lemma_depth_guard(lines, k + 1, indent_of(lines[k + 1]), depth + 1);
        assert(crate::parser::pb_lines(lines, k, base, depth) == Err::<
            Seq<(Seq<char>, Val)>,
            crate::parser::ParseError,
        >(crate::parser::ParseError::DepthExceeded));
    }
}

} // verus!
