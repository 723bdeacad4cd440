//! The block parser: lines become nested maps, leading-whitespace width being
//! the structural signal. The specification mirrors the cursor of the
//! executable parser with closed-form stop positions, so that every contract
//! pins the parse of its input exactly.

use vstd::prelude::*;

use crate::scalar::{parse_inline, scalar_of};
use crate::text::{
    blank, chars_to_string, contains_c, copy_range, find_c, find_char, indent_count, indent_of,
    is_blank, lemma_find_c, split_into_lines, split_lines, str_to_chars, trim_s, trimmed,
};
use crate::value::{dv_entries, ToonValue, Val, DEPTH_LIMIT};

verus! {

/// Why a parse fails: the notation tolerates malformed lines, so only the
/// recursion bound can stop it.
#[derive(Debug, PartialEq, Eq)]
pub enum ParseError {
    DepthExceeded,
}

/// The first line at or after `i` that is not blank, or `lines.len()`.
pub open spec fn next_content(lines: Seq<Seq<char>>, i: int) -> int
    decreases lines.len() - i,
{
    if i < 0 || i >= lines.len() {
        lines.len() as int
    } else if !is_blank(lines[i]) {
        i
    } else {
        next_content(lines, i + 1)
    }
}

pub proof fn lemma_next_content(lines: Seq<Seq<char>>, i: int)
    requires
        0 <= i <= lines.len(),
    ensures
        i <= next_content(lines, i) <= lines.len(),
        forall|j: int| i <= j < next_content(lines, i) ==> is_blank(#[trigger] lines[j]),
        next_content(lines, i) < lines.len() ==> !is_blank(lines[next_content(lines, i)]),
    decreases lines.len() - i,
{
    if i < lines.len() && is_blank(lines[i]) {
        lemma_next_content(lines, i + 1);
    }
}

/// Where a block that requires indent `base` stops scanning, starting from
/// `i`: the first non-blank line with smaller indentation, or the end.
pub open spec fn next_stop(lines: Seq<Seq<char>>, i: int, base: int) -> int
    decreases lines.len() - i,
{
    if i < 0 || i >= lines.len() {
        lines.len() as int
    } else if is_blank(lines[i]) {
        next_stop(lines, i + 1, base)
    } else if indent_of(lines[i]) < base {
        i
    } else {
        next_stop(lines, i + 1, base)
    }
}

pub proof fn lemma_next_stop(lines: Seq<Seq<char>>, i: int, base: int)
    requires
        0 <= i <= lines.len(),
    ensures
        i <= next_stop(lines, i, base) <= lines.len(),
        forall|j: int|
            i <= j < next_stop(lines, i, base) ==> is_blank(#[trigger] lines[j]) || indent_of(
                lines[j],
            ) >= base,
        next_stop(lines, i, base) < lines.len() ==> !is_blank(lines[next_stop(lines, i, base)])
            && indent_of(lines[next_stop(lines, i, base)]) < base,
    decreases lines.len() - i,
{
    if i < lines.len() && (is_blank(lines[i]) || indent_of(lines[i]) >= base) {
        lemma_next_stop(lines, i + 1, base);
    }
}

/// A scan whose lines up to `b` are all blank or deep enough passes through
/// them.
pub proof fn lemma_next_stop_through(lines: Seq<Seq<char>>, a: int, b: int, base: int)
    requires
        0 <= a <= b <= lines.len(),
        forall|j: int| a <= j < b ==> is_blank(#[trigger] lines[j]) || indent_of(lines[j]) >= base,
    ensures
        next_stop(lines, a, base) == next_stop(lines, b, base),
    decreases b - a,
{
    if a < b {
        lemma_next_stop_through(lines, a + 1, b, base);
    }
}

/// The entries of one block: scan from `i`, skip blank lines and lines
/// without a colon, stop before a non-blank line indented less than `base`;
/// a line `key: text` adds `key` with the scalar the text means; a line
/// `key:` takes the next deeper block as a nested map when the next non-blank
/// line is indented more, and an empty map otherwise.
pub open spec fn pb_lines(lines: Seq<Seq<char>>, i: int, base: int, depth: int) -> Result<
    Seq<(Seq<char>, Val)>,
    ParseError,
>
    decreases lines.len() - i, 1int,
{
    if i < 0 || i >= lines.len() {
        Ok(Seq::empty())
    } else if is_blank(lines[i]) {
        pb_lines(lines, i + 1, base, depth)
    } else if indent_of(lines[i]) < base {
        Ok(Seq::empty())
    } else {
        let t = trim_s(lines[i]);
        if !contains_c(t, ':') {
            // tolerated, not an error: the line adds nothing
            pb_lines(lines, i + 1, base, depth)
        } else {
            let ci = find_c(t, ':');
            let key = trim_s(t.take(ci));
            let vraw = t.skip(ci + 1);
            if trim_s(vraw).len() > 0 {
                match pb_lines(lines, i + 1, base, depth) {
                    Ok(rest) => Ok(seq![(key, scalar_of(vraw))] + rest),
                    Err(e) => Err(e),
                }
            } else {
                let k = next_content(lines, i + 1);
                if k < lines.len() && indent_of(lines[k]) > indent_of(lines[i]) {
                    let nb = indent_of(lines[k]);
                    proof {
                        lemma_next_content(lines, i + 1);
                    }
                    match pb_block(lines, k, nb, depth + 1) {
                        Ok(child) => {
                            let j = next_stop(lines, k, nb);
                            proof {
                                lemma_next_stop(lines, k, nb);
                            }
                            match pb_lines(lines, j, base, depth) {
                                Ok(rest) => Ok(seq![(key, Val::Object(child))] + rest),
                                Err(e) => Err(e),
                            }
                        },
                        Err(e) => Err(e),
                    }
                } else {
                    match pb_lines(lines, i + 1, base, depth) {
                        Ok(rest) => Ok(
                            seq![(key, Val::Object(Seq::<(Seq<char>, Val)>::empty()))] + rest,
                        ),
                        Err(e) => Err(e),
                    }
                }
            }
        }
    }
}

/// One block at nesting `depth`: past the depth bound the parse fails hard.
pub open spec fn pb_block(lines: Seq<Seq<char>>, i: int, base: int, depth: int) -> Result<
    Seq<(Seq<char>, Val)>,
    ParseError,
>
    decreases lines.len() - i, 2int,
{
    if depth > DEPTH_LIMIT as int {
        Err(ParseError::DepthExceeded)
    } else {
        pb_lines(lines, i, base, depth)
    }
}

/// The rest of a block prepended with entries already gathered.
pub open spec fn pb_prepend(
    a: Seq<(Seq<char>, Val)>,
    r: Result<Seq<(Seq<char>, Val)>, ParseError>,
) -> Result<Seq<(Seq<char>, Val)>, ParseError> {
    match r {
        Ok(rest) => Ok(a + rest),
        Err(e) => Err(e),
    }
}

proof fn lemma_line(lines: &Vec<Vec<char>>, i: int)
    requires
        0 <= i < lines@.len(),
    ensures
        lines.deep_view().len() == lines@.len(),
        lines.deep_view()[i] == lines@[i]@,
{
    assert(lines.deep_view()[i] =~= lines@[i]@);
}

proof fn lemma_dv_entries_push(s: Seq<(String, ToonValue)>, e: (String, ToonValue))
    ensures
        dv_entries(s.push(e)) == dv_entries(s).push((e.0@, e.1.dv())),
{
    assert(s.push(e).drop_last() =~= s);
    assert(s.push(e).last() == e);
}

/// One block of the executable parser: the entries it gathers are exactly
/// those of [`pb_block`], and its cursor stops exactly at [`next_stop`].
pub fn parse_block(lines: &Vec<Vec<char>>, start: usize, base: usize, depth: usize) -> (r: Result<
    (Vec<(String, ToonValue)>, usize),
    ParseError,
>)
    requires
        start <= lines@.len(),
    ensures
        match r {
            Ok(p) => {
                &&& pb_block(lines.deep_view(), start as int, base as int, depth as int)
                    == Ok::<_, ParseError>(dv_entries(p.0@))
                &&& p.1 == next_stop(lines.deep_view(), start as int, base as int)
                &&& start <= p.1 <= lines@.len()
            },
            Err(e) => pb_block(lines.deep_view(), start as int, base as int, depth as int)
                == Err::<Seq<(Seq<char>, Val)>, ParseError>(e),
        },
    decreases lines@.len() - start,
{
    let ghost ls = lines.deep_view();
    if depth > DEPTH_LIMIT {
        return Err(ParseError::DepthExceeded);
    }
    let mut map: Vec<(String, ToonValue)> = Vec::new();
    let mut i: usize = start;
    proof {
        assert(dv_entries(map@) =~= Seq::<(Seq<char>, Val)>::empty());
        assert(pb_lines(ls, start as int, base as int, depth as int) == pb_prepend(
            dv_entries(map@),
            pb_lines(ls, i as int, base as int, depth as int),
        )) by {
            match pb_lines(ls, i as int, base as int, depth as int) {
                Ok(rest) => {
                    assert(dv_entries(map@) + rest =~= rest);
                },
                Err(_) => {},
            }
        }
    }
    loop
        invariant
            start <= i <= lines@.len(),
            depth <= DEPTH_LIMIT,
            ls == lines.deep_view(),
            ls.len() == lines@.len(),
            pb_lines(ls, start as int, base as int, depth as int) == pb_prepend(
                dv_entries(map@),
                pb_lines(ls, i as int, base as int, depth as int),
            ),
            next_stop(ls, start as int, base as int) == next_stop(ls, i as int, base as int),
        ensures
            start <= i <= lines@.len(),
            pb_lines(ls, start as int, base as int, depth as int) == Ok::<_, ParseError>(
                dv_entries(map@),
            ),
            i == next_stop(ls, start as int, base as int),
        decreases lines@.len() - i,
    {
        let ghost entries_in = dv_entries(map@);
        if i >= lines.len() {
            proof {
                assert(pb_lines(ls, i as int, base as int, depth as int) == Ok::<
                    Seq<(Seq<char>, Val)>,
                    ParseError,
                >(Seq::empty()));
                assert(entries_in + Seq::<(Seq<char>, Val)>::empty() =~= entries_in);
            }
            break;
        }
        proof {
            lemma_line(lines, i as int);
        }
        let line = &lines[i];
        if blank(line) {
            // blank lines never end a block and add nothing
            i += 1;
            continue;
        }
        let ind = indent_count(line);
        if ind < base {
            // this line belongs to an ancestor block
            proof {
                assert(pb_lines(ls, i as int, base as int, depth as int) == Ok::<
                    Seq<(Seq<char>, Val)>,
                    ParseError,
                >(Seq::empty()));
                assert(entries_in + Seq::<(Seq<char>, Val)>::empty() =~= entries_in);
                assert(next_stop(ls, i as int, base as int) == i as int);
            }
            break;
        }
        let t = trimmed(line);
        let ci = find_char(&t, ':');
        proof {
            lemma_find_c(t@, ':');
        }
        if ci == t.len() {
            // no colon: tolerated and skipped
            i += 1;
            continue;
        }
        let keyv = copy_range(&t, 0, ci);
        let keyt = trimmed(&keyv);
        let key = chars_to_string(&keyt);
        let valv = copy_range(&t, ci + 1, t.len());
        let valt = trimmed(&valv);
        proof {
            assert(keyv@ =~= trim_s(ls[i as int]).take(find_c(trim_s(ls[i as int]), ':')));
            assert(valv@ =~= trim_s(ls[i as int]).skip(find_c(trim_s(ls[i as int]), ':') + 1));
        }
        if valt.len() > 0 {
            // an inline value on the same line
            let val = parse_inline(&valv);
            let ghost entry = (key@, val.dv());
            let ghost before = map@;
            map.push((key, val));
            proof {
                lemma_dv_entries_push(before, (key, val));
                match pb_lines(ls, i + 1, base as int, depth as int) {
                    Ok(rest) => {
                        assert(entries_in.push(entry) + rest =~= entries_in + (seq![entry]
                            + rest));
                    },
                    Err(_) => {},
                }
            }
            i += 1;
            continue;
        }
        // an empty inline part: look ahead for a deeper block
        let ghost nc = next_content(ls, i + 1);
        proof {
            lemma_next_content(ls, i + 1);
        }
        let mut k: usize = i + 1;
        while k < lines.len() && blank(&lines[k])
            invariant
                i + 1 <= k <= lines@.len(),
                ls == lines.deep_view(),
                ls.len() == lines@.len(),
                nc == next_content(ls, i + 1),
                k <= nc,
            decreases lines@.len() - k,
        {
            proof {
                lemma_next_content(ls, i + 1);
                lemma_line(lines, k as int);
                if k as int == nc {
                    assert(!is_blank(ls[nc]));
                }
            }
            k += 1;
        }
        proof {
            lemma_line(lines, i as int);
            if k < lines@.len() {
                lemma_line(lines, k as int);
            }
            if (k as int) < nc {
                assert(is_blank(ls[k as int]));
            }
            assert(k as int == nc);
        }
        let deeper = if k < lines.len() {
            indent_count(&lines[k]) > ind
        } else {
            false
        };
        if deeper {
            let nb = indent_count(&lines[k]);
            match parse_block(lines, k, nb, depth + 1) {
                Ok((child, consumed)) => {
                    let ghost entry = (key@, ToonValue::Object(child).dv());
                    let ghost before = map@;
                    proof {
                        lemma_next_stop(ls, k as int, nb as int);
                        lemma_next_content(ls, i + 1);
                        // every line between this one and where the child
                        // stopped is blank or indented at least as deep
                        assert forall|j: int| i + 1 <= j < consumed implies is_blank(
                            #[trigger] ls[j],
                        ) || indent_of(ls[j]) >= base as int by {
                            if j < k as int {
                                assert(is_blank(ls[j]));
                            }
                        }
                        lemma_next_stop_through(ls, i + 1, consumed as int, base as int);
                        assert(next_stop(ls, i as int, base as int) == next_stop(
                            ls,
                            consumed as int,
                            base as int,
                        ));
                    }
                    map.push((key, ToonValue::Object(child)));
                    proof {
                        lemma_dv_entries_push(before, (key, ToonValue::Object(child)));
                        match pb_lines(ls, consumed as int, base as int, depth as int) {
                            Ok(rest) => {
                                assert(entries_in.push(entry) + rest =~= entries_in + (seq![entry]
                                    + rest));
                            },
                            Err(_) => {},
                        }
                    }
                    i = consumed;
                    continue;
                },
                Err(e) => {
                    proof {
                        assert(pb_lines(ls, start as int, base as int, depth as int) == Err::<
                            Seq<(Seq<char>, Val)>,
                            ParseError,
                        >(e));
                    }
                    return Err(e);
                },
            }
        }
        // no deeper child: the key gets an empty map
        let empty_map: Vec<(String, ToonValue)> = Vec::new();
        let ghost empty_val = ToonValue::Object(empty_map);
        let ghost entry = (key@, empty_val.dv());
        let ghost before = map@;
        map.push((key, ToonValue::Object(empty_map)));
        proof {
            lemma_dv_entries_push(before, (key, empty_val));
            assert(dv_entries(empty_val->Object_0@) =~= Seq::<(Seq<char>, Val)>::empty());
            match pb_lines(ls, i + 1, base as int, depth as int) {
                Ok(rest) => {
                    assert(entries_in.push(entry) + rest =~= entries_in + (seq![entry] + rest));
                },
                Err(_) => {},
            }
        }
        i += 1;
    }
    proof {
        assert(pb_block(ls, start as int, base as int, depth as int) == pb_lines(
            ls,
            start as int,
            base as int,
            depth as int,
        ));
    }
    Ok((map, i))
}

/// What a whole document means: no lines parse to `Null`; a single non-blank
/// line without a colon is one inline scalar; anything else is the root
/// block's map.
pub open spec fn parse_doc(text: Seq<char>) -> Result<Val, ParseError> {
    let lines = split_lines(text);
    if lines.len() == 0 {
        Ok(Val::Null)
    } else if lines.len() == 1 && !contains_c(trim_s(lines[0]), ':') && trim_s(
        lines[0],
    ).len() > 0 {
        Ok(scalar_of(lines[0]))
    } else {
        match pb_block(lines, 0, 0, 0) {
            Ok(entries) => Ok(Val::Object(entries)),
            Err(e) => Err(e),
        }
    }
}

/// Parse notation text into a value, exactly as [`parse_doc`] reads it; the
/// only error is the recursion bound.
pub fn parse(input: &str) -> (r: Result<ToonValue, ParseError>)
    ensures
        match r {
            Ok(v) => parse_doc(input@) == Ok::<Val, ParseError>(v.dv()),
            Err(e) => parse_doc(input@) == Err::<Val, ParseError>(e),
        },
{
    let chars = str_to_chars(input);
    let lines = split_into_lines(&chars);
    let ghost ls = split_lines(input@);
    proof {
        assert(lines.deep_view() == ls);
        assert(lines@.len() == ls.len());
    }
    if lines.len() == 0 {
        return Ok(ToonValue::Null);
    }
    if lines.len() == 1 {
        proof {
            lemma_line(&lines, 0);
        }
        let t = trimmed(&lines[0]);
        proof {
            lemma_find_c(t@, ':');
        }
        if find_char(&t, ':') == t.len() && t.len() > 0 {
            return Ok(parse_inline(&lines[0]));
        }
    }
    match parse_block(&lines, 0, 0, 0) {
        Ok((entries, _)) => {
            proof {
                assert(pb_block(ls, 0, 0, 0) == Ok::<_, ParseError>(dv_entries(entries@)));
                assert(ls == split_lines(input@));
                assert(ls.len() != 0);
                if ls.len() == 1 {
                    assert(!(!contains_c(trim_s(ls[0]), ':') && trim_s(ls[0]).len() > 0));
                }
                assert(parse_doc(input@) == Ok::<Val, ParseError>(
                    Val::Object(dv_entries(entries@)),
                ));
            }
            let out = ToonValue::Object(entries);
            proof {
                assert(out.dv() == Val::Object(dv_entries(out->Object_0@)));
            }
            Ok(out)
        },
        Err(e) => Err(e),
    }
}

} // verus!
