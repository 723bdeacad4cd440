//! The scalar grammar: classifying one inline token as a primitive value or
//! an inline list, and the inverse value-to-text rendering.

use vstd::prelude::*;

use crate::escape::{escape_s, push_escaped, unescape, unescape_s};
use crate::num::{
    float_grammar, int_to_chars, int_text, is_float_text, parse_int, parse_int_s,
};
use crate::text::{
    chars_to_string, contains_c, copy_range, find_c, find_char, find_char_from, indent_count,
    indent_of, lemma_find_c, lemma_indent_le_len, lemma_trailing_le_len, split_on, trailing_of,
    trim_s, trimmed,
};
use crate::value::{dv_seq, ToonValue, Val};

verus! {

pub open spec fn lit_true() -> Seq<char> {
    seq!['t', 'r', 'u', 'e']
}

pub open spec fn lit_false() -> Seq<char> {
    seq!['f', 'a', 'l', 's', 'e']
}

pub open spec fn lit_null() -> Seq<char> {
    seq!['n', 'u', 'l', 'l']
}

/// A token shaped like a quoted string: at least two characters, the first
/// and the last both double quotes.
pub open spec fn is_quoted(t: Seq<char>) -> bool {
    t.len() >= 2 && t[0] == '"' && t[t.len() - 1] == '"'
}

/// Whether the trimmed token resolves to something other than the
/// plain-string fallback and the inline-list split: the five classifications
/// that come before the comma test.
pub open spec fn non_str_case(t: Seq<char>) -> bool {
    ||| t == lit_true()
    ||| t == lit_false()
    ||| t == lit_null()
    ||| parse_int_s(t) is Some
    ||| float_grammar(t)
    ||| is_quoted(t)
}

/// What a single trimmed token (one with no top-level comma handling) means:
/// the resolution order is `true`/`false`, `null`, 64-bit integer, float,
/// quoted string, plain string.
pub open spec fn scalar_atom(t: Seq<char>) -> Val {
    if t == lit_true() {
        Val::Bool(true)
    } else if t == lit_false() {
        Val::Bool(false)
    } else if t == lit_null() {
        Val::Null
    } else if parse_int_s(t) is Some {
        Val::Int(parse_int_s(t)->0)
    } else if float_grammar(t) {
        Val::Float(t)
    } else if is_quoted(t) {
        Val::Str(unescape_s(t.subrange(1, t.len() - 1)))
    } else {
        Val::Str(t)
    }
}

/// What an inline token means: the token is trimmed; when none of the five
/// leading classifications matches and it holds a comma, it splits into an
/// inline list whose parts are trimmed and classified on their own (a part
/// holds no comma, so no deeper splitting can occur); otherwise it is one
/// scalar.
pub open spec fn scalar_of(raw: Seq<char>) -> Val {
    let t = trim_s(raw);
    if !non_str_case(t) && contains_c(t, ',') {
        Val::Array(split_on(t, ',').map_values(|p: Seq<char>| scalar_atom(trim_s(p))))
    } else {
        scalar_atom(t)
    }
}

// --- executable classification ---

fn is_lit_true(t: &Vec<char>) -> (r: bool)
    ensures
        r == (t@ == lit_true()),
{
    let r = t.len() == 4 && t[0] == 't' && t[1] == 'r' && t[2] == 'u' && t[3] == 'e';
    proof {
        if r {
            assert(t@ =~= lit_true());
        } else {
            if t@.len() == 4 {
                assert(lit_true()[0] == 't' && lit_true()[1] == 'r' && lit_true()[2] == 'u'
                    && lit_true()[3] == 'e');
            }
        }
    }
    r
}

fn is_lit_false(t: &Vec<char>) -> (r: bool)
    ensures
        r == (t@ == lit_false()),
{
    let r = t.len() == 5 && t[0] == 'f' && t[1] == 'a' && t[2] == 'l' && t[3] == 's' && t[4]
        == 'e';
    proof {
        if r {
            assert(t@ =~= lit_false());
        } else {
            if t@.len() == 5 {
                assert(lit_false()[0] == 'f' && lit_false()[1] == 'a' && lit_false()[2] == 'l'
                    && lit_false()[3] == 's' && lit_false()[4] == 'e');
            }
        }
    }
    r
}

fn is_lit_null(t: &Vec<char>) -> (r: bool)
    ensures
        r == (t@ == lit_null()),
{
    let r = t.len() == 4 && t[0] == 'n' && t[1] == 'u' && t[2] == 'l' && t[3] == 'l';
    proof {
        if r {
            assert(t@ =~= lit_null());
        } else {
            if t@.len() == 4 {
                assert(lit_null()[0] == 'n' && lit_null()[1] == 'u' && lit_null()[2] == 'l'
                    && lit_null()[3] == 'l');
            }
        }
    }
    r
}

/// Classify one trimmed, comma-handling-free token.
fn parse_atom(t: &Vec<char>) -> (r: ToonValue)
    ensures
        r.dv() == scalar_atom(t@),
{
    if is_lit_true(t) {
        return ToonValue::Bool(true);
    }
    if is_lit_false(t) {
        return ToonValue::Bool(false);
    }
    if is_lit_null(t) {
        return ToonValue::Null;
    }
    match parse_int(t) {
        Some(n) => {
            return ToonValue::Int(n);
        },
        None => {},
    }
    if is_float_text(t) {
        return ToonValue::Float(chars_to_string(t));
    }
    if t.len() >= 2 && t[0] == '"' && t[t.len() - 1] == '"' {
        let inner = copy_range(t, 1, t.len() - 1);
        let un = unescape(&inner);
        return ToonValue::Str(chars_to_string(&un));
    }
    ToonValue::Str(chars_to_string(t))
}

fn non_str_case_exec(t: &Vec<char>) -> (r: bool)
    ensures
        r == non_str_case(t@),
{
    is_lit_true(t) || is_lit_false(t) || is_lit_null(t) || parse_int(t).is_some()
        || is_float_text(t) || (t.len() >= 2 && t[0] == '"' && t[t.len() - 1] == '"')
}

/// Classify one inline token, exactly as [`scalar_of`] reads it.
pub fn parse_value(s: &str) -> (r: ToonValue)
    ensures
        r.dv() == scalar_of(s@),
{
    let chars = crate::text::str_to_chars(s);
    parse_inline(&chars)
}

/// Classify one inline token given as characters.
pub fn parse_inline(v: &Vec<char>) -> (r: ToonValue)
    ensures
        r.dv() == scalar_of(v@),
{
    let t = trimmed(v);
    if !non_str_case_exec(&t) && find_char(&t, ',') < t.len() {
        let ghost parts = split_on(t@, ',');
        let ghost f = |p: Seq<char>| scalar_atom(trim_s(p));
        let mut items: Vec<ToonValue> = Vec::new();
        let mut pos: usize = 0;
        let ghost mut done: int = 0;
        proof {
            assert(t@.skip(0) =~= t@);
        }
        loop
            invariant_except_break
                parts =~= parts.take(done) + split_on(t@.skip(pos as int), ','),
            invariant
                pos <= t@.len(),
                0 <= done <= parts.len(),
                f == (|p: Seq<char>| scalar_atom(trim_s(p))),
                parts == split_on(t@, ','),
                dv_seq(items@) =~= parts.take(done).map_values(f),
                items@.len() == done,
            ensures
                dv_seq(items@) =~= parts.map_values(f),
            decreases t@.len() - pos,
        {
            let k = find_char_from(&t, pos, ',');
            let ghost suffix = t@.skip(pos as int);
            let ghost fc = find_c(suffix, ',');
            let piece = copy_range(&t, pos, k);
            proof {
                lemma_find_c(suffix, ',');
                assert(piece@ =~= suffix.take(fc));
                if fc < suffix.len() {
                    assert(split_on(suffix, ',') == seq![suffix.take(fc)] + split_on(
                        suffix.skip(fc + 1),
                        ',',
                    ));
                    assert(split_on(suffix, ',')[0] == suffix.take(fc));
                } else {
                    assert(split_on(suffix, ',') == seq![suffix]);
                    assert(piece@ =~= suffix);
                }
                assert(split_on(suffix, ',').len() >= 1);
                assert(done < parts.len());
                assert(parts[done] == split_on(suffix, ',')[0]);
                assert(parts[done] == piece@);
            }
            let part = trimmed(&piece);
            let item = parse_atom(&part);
            let ghost before = items@;
            items.push(item);
            proof {
                assert(items@.drop_last() =~= before);
                assert(dv_seq(items@) == dv_seq(before).push(item.dv()));
                assert(item.dv() == f(parts[done]));
                assert(parts.take(done + 1).drop_last() =~= parts.take(done));
                assert(parts.take(done + 1) =~= parts.take(done).push(parts[done]));
                assert(parts.take(done + 1).map_values(f) =~= parts.take(done).map_values(
                    f,
                ).push(f(parts[done])));
                done = done + 1;
            }
            if k < t.len() {
                proof {
                    assert(suffix.skip(fc + 1) =~= t@.skip(k + 1));
                    assert(parts =~= parts.take(done) + split_on(t@.skip(k + 1), ','));
                }
                pos = k + 1;
            } else {
                proof {
                    assert(fc == suffix.len());
                    assert(parts.len() == done);
                    assert(parts.take(done) =~= parts);
                    assert(parts.take(done).map_values(f) =~= parts.map_values(f));
                }
                break;
            }
        }
        proof {
            assert(ToonValue::Array(items).dv() == Val::Array(dv_seq(items@)));
        }
        return ToonValue::Array(items);
    }
    parse_atom(&t)
}

// --- rendering ---

/// Whether a string must be rendered quoted: an empty string always, and any
/// string holding a newline, colon, comma or double quote, or differing from
/// its own trimmed form.
pub open spec fn needs_quote(s: Seq<char>) -> bool {
    ||| s.len() == 0
    ||| contains_c(s, '\n')
    ||| contains_c(s, ':')
    ||| contains_c(s, ',')
    ||| contains_c(s, '"')
    ||| trim_s(s) != s
}

/// The inline rendering of a string: quoted and escaped when it needs it,
/// verbatim otherwise.
pub open spec fn render_str(s: Seq<char>) -> Seq<char> {
    if needs_quote(s) {
        seq!['"'] + escape_s(s) + seq!['"']
    } else {
        s
    }
}

/// The inline rendering of one value: `null`, `true`/`false`, the decimal
/// integer, the float's own text, a string as [`render_str`], a nested list
/// in bracket form, and a fixed placeholder for a map, which the notation
/// cannot carry inline.
pub open spec fn render_atom(v: Val) -> Seq<char>
    decreases v, 1int, 0int,
{
    match v {
        Val::Null => lit_null(),
        Val::Bool(b) => if b {
            lit_true()
        } else {
            lit_false()
        },
        Val::Int(i) => int_text(i),
        Val::Float(t) => t,
        Val::Str(s) => render_str(s),
        Val::Array(items) => {
            proof {
                assert(decreases_to!(v, 1int, 0int => items, 0int, items.len()));
            }
            seq!['['] + render_list(items) + seq![']']
        },
        Val::Object(_) => seq!['[', 'O', 'b', 'j', 'e', 'c', 't', ']'],
    }
}

/// The elements' inline renderings joined with `", "`.
pub open spec fn render_list(items: Seq<Val>) -> Seq<char>
    decreases items, 0int, items.len(),
{
    if items.len() == 0 {
        Seq::empty()
    } else if items.len() == 1 {
        render_atom(items[0])
    } else {
        proof {
            assert(items.drop_first() == items.subrange(1, items.len() as int));
            assert(decreases_to!(items, 0int, items.len() => items.drop_first(), 0int, items.len() - 1));
        }
        render_atom(items[0]) + seq![',', ' '] + render_list(items.drop_first())
    }
}

/// `trim` leaves exactly the strings with no leading or trailing whitespace
/// alone.
pub proof fn lemma_trim_id(s: Seq<char>)
    ensures
        (trim_s(s) == s) <==> (indent_of(s) == 0 && trailing_of(s) == 0),
{
    lemma_indent_le_len(s);
    lemma_trailing_le_len(s.skip(indent_of(s)));
    if indent_of(s) == 0 {
        assert(s.skip(0) =~= s);
        if trailing_of(s) == 0 {
            assert(trim_s(s) =~= s);
        } else {
            assert(trim_s(s).len() < s.len());
        }
    } else {
        assert(trim_s(s).len() < s.len());
    }
}

/// Append the inline rendering of `v`.
pub fn value_to_chars(v: &ToonValue, out: &mut Vec<char>)
    ensures
        final(out)@ == old(out)@ + render_atom(v.dv()),
    decreases v,
{
    match v {
        ToonValue::Null => {
            out.push('n');
            out.push('u');
            out.push('l');
            out.push('l');
            proof {
                assert(out@ =~= old(out)@ + lit_null());
            }
        },
        ToonValue::Bool(b) => {
            if *b {
                out.push('t');
                out.push('r');
                out.push('u');
                out.push('e');
                proof {
                    assert(out@ =~= old(out)@ + lit_true());
                }
            } else {
                out.push('f');
                out.push('a');
                out.push('l');
                out.push('s');
                out.push('e');
                proof {
                    assert(out@ =~= old(out)@ + lit_false());
                }
            }
        },
        ToonValue::Int(i) => {
            int_to_chars(*i, out);
        },
        ToonValue::Float(t) => {
            push_str_chars(t, out);
        },
        ToonValue::Str(s) => {
            push_rendered_str(s, out);
        },
        ToonValue::Array(items) => {
            out.push('[');
            let ghost mid = out@;
            let n = items.len();
            let mut i: usize = 0;
            while i < n
                invariant
                    0 <= i <= n,
                    n == items@.len(),
                    v == ToonValue::Array(*items),
                    out@ == mid + render_list_prefix(dv_seq(items@), i as int),
                decreases n - i,
            {
                if i > 0 {
                    out.push(',');
                    out.push(' ');
                }
                proof {
                    let ghost vv = *v;
                    assert(vv == ToonValue::Array(*items));
                    assert(vv->Array_0 == *items);
                    assert(decreases_to!(vv => vv->Array_0));
                    assert(decreases_to!(*items => items@));
                    assert(decreases_to!(items@ => items@[i as int]));
                    assert(decreases_to!(vv => items@[i as int]));
                }
                value_to_chars(&items[i], out);
                proof {
                    assert(dv_seq(items@)[i as int] == items@[i as int].dv()) by {
                        lemma_dv_seq_index(items@, i as int);
                    }
                    assert(out@ =~= mid + render_list_prefix(dv_seq(items@), i + 1));
                }
                i += 1;
            }
            out.push(']');
            proof {
                lemma_render_list_prefix(dv_seq(items@));
                lemma_dv_seq_len(items@);
                assert(out@ =~= old(out)@ + render_atom(v.dv()));
            }
        },
        ToonValue::Object(_) => {
            out.push('[');
            out.push('O');
            out.push('b');
            out.push('j');
            out.push('e');
            out.push('c');
            out.push('t');
            out.push(']');
            proof {
                assert(out@ =~= old(out)@ + render_atom(v.dv()));
            }
        },
    }
}

/// The first `k` elements' renderings joined with `", "`: what the list loop
/// has emitted so far.
pub open spec fn render_list_prefix(items: Seq<Val>, k: int) -> Seq<char>
    decreases k,
{
    if k <= 0 {
        Seq::empty()
    } else if k == 1 {
        render_atom(items[0])
    } else {
        render_list_prefix(items, k - 1) + seq![',', ' '] + render_atom(items[k - 1])
    }
}

/// Joining all elements one by one agrees with the recursive join.
pub proof fn lemma_render_list_prefix(items: Seq<Val>)
    ensures
        render_list_prefix(items, items.len() as int) == render_list(items),
    decreases items.len(),
{
    if items.len() <= 1 {
    } else {
        let rest = items.drop_first();
        lemma_render_list_prefix(rest);
        assert forall|k: int| 1 <= k < items.len() implies render_list_prefix(items, k + 1)
            == render_atom(items[0]) + seq![',', ' '] + render_list_prefix(rest, k) by {
            lemma_render_prefix_shift(items, k);
        }
        assert(render_list_prefix(items, items.len() as int) == render_atom(items[0]) + seq![
            ',',
            ' ',
        ] + render_list_prefix(rest, rest.len() as int));
    }
}

proof fn lemma_render_prefix_shift(items: Seq<Val>, k: int)
    requires
        items.len() >= 1,
        1 <= k <= items.len() - 1,
    ensures
        render_list_prefix(items, k + 1) == render_atom(items[0]) + seq![',', ' ']
            + render_list_prefix(items.drop_first(), k),
    decreases k,
{
    let rest = items.drop_first();
    if k == 1 {
        assert(rest[0] == items[1]);
        assert(render_list_prefix(items, 1) == render_atom(items[0]));
        assert(render_list_prefix(items, 2) == render_atom(items[0]) + seq![',', ' ']
            + render_atom(items[1]));
        assert(render_atom(items[0]) + seq![',', ' '] + render_list_prefix(rest, 1) == render_atom(
            items[0],
        ) + seq![',', ' '] + render_atom(rest[0]));
    } else {
        lemma_render_prefix_shift(items, k - 1);
        assert(rest[k - 1] == items[k]);
        assert((render_atom(items[0]) + seq![',', ' '] + render_list_prefix(rest, k - 1)) + seq![
            ',',
            ' ',
        ] + render_atom(rest[k - 1]) =~= render_atom(items[0]) + seq![',', ' ']
            + (render_list_prefix(rest, k - 1) + seq![',', ' '] + render_atom(rest[k - 1])));
    }
}

pub proof fn lemma_dv_seq_index(s: Seq<ToonValue>, i: int)
    requires
        0 <= i < s.len(),
    ensures
        dv_seq(s).len() == s.len(),
        dv_seq(s)[i] == s[i].dv(),
    decreases s.len(),
{
    if s.len() > 0 {
        if i < s.len() - 1 {
            lemma_dv_seq_index(s.drop_last(), i);
            assert(s.drop_last()[i] == s[i]);
        } else {
            lemma_dv_seq_len(s.drop_last());
        }
    }
}

pub proof fn lemma_dv_seq_len(s: Seq<ToonValue>)
    ensures
        dv_seq(s).len() == s.len(),
    decreases s.len(),
{
    if s.len() > 0 {
        lemma_dv_seq_len(s.drop_last());
    }
}

/// Append `t`'s characters.
fn push_str_chars(t: &String, out: &mut Vec<char>)
    ensures
        final(out)@ == old(out)@ + t@,
{
    let v = crate::text::str_to_chars(t.as_str());
    let mut i: usize = 0;
    while i < v.len()
        invariant
            0 <= i <= v@.len(),
            v@ == t@,
            out@ == old(out)@ + v@.take(i as int),
        decreases v@.len() - i,
    {
        out.push(v[i]);
        i += 1;
        proof {
            assert(out@ =~= old(out)@ + v@.take(i as int));
        }
    }
    proof {
        assert(v@.take(v@.len() as int) =~= v@);
    }
}

/// Append the rendering of the string value `s`.
fn push_rendered_str(s: &String, out: &mut Vec<char>)
    ensures
        final(out)@ == old(out)@ + render_str(s@),
{
    let v = crate::text::str_to_chars(s.as_str());
    let quote = v.len() == 0 || find_char(&v, '\n') < v.len() || find_char(&v, ':') < v.len()
        || find_char(&v, ',') < v.len() || find_char(&v, '"') < v.len() || indent_count(&v) > 0
        || trailing_count(&v) > 0;
    proof {
        lemma_trim_id(v@);
    }
    if quote {
        out.push('"');
        push_escaped(&v, out);
        out.push('"');
        proof {
            assert(out@ =~= old(out)@ + render_str(s@));
        }
    } else {
        push_str_chars(s, out);
        proof {
            assert(out@ =~= old(out)@ + render_str(s@));
        }
    }
}

/// Count of trailing whitespace characters.
pub fn trailing_count(v: &Vec<char>) -> (r: usize)
    ensures
        r == trailing_of(v@),
{
    proof {
        lemma_trailing_le_len(v@);
    }
    let mut i: usize = v.len();
    while i > 0 && crate::text::space(v[i - 1])
        invariant
            0 <= i <= v@.len(),
            forall|j: int| i <= j < v@.len() ==> crate::text::is_space(v@[j]),
            v@.len() - i <= trailing_of(v@),
        decreases i,
    {
        proof {
            lemma_trailing_le_len(v@);
            if v@.len() - i == trailing_of(v@) {
                assert(!crate::text::is_space(v@[v@.len() - trailing_of(v@) - 1]));
            }
        }
        i -= 1;
    }
    proof {
        if v@.len() - i < trailing_of(v@) {
            assert(crate::text::is_space(v@[i - 1]));
        }
    }
    v.len() - i
}

/// The inline text form of a value, as [`render_atom`] gives it.
pub fn value_to_string(v: &ToonValue) -> (r: String)
    ensures
        r@ == render_atom(v.dv()),
{
    let mut out: Vec<char> = Vec::new();
    value_to_chars(v, &mut out);
    chars_to_string(&out)
}

} // verus!
