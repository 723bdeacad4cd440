//! The encoder: a value rendered as canonical notation text. Maps become
//! `key:` lines, nested maps two spaces deeper; every other value is rendered
//! inline after the colon; a list at the root or as a map's value is the
//! comma-joined form without brackets; the final text carries no trailing
//! whitespace.

use vstd::prelude::*;

use crate::scalar::{render_atom, render_list, lemma_render_list_prefix, render_list_prefix,
    lemma_dv_seq_len, value_to_chars};
use crate::text::{chars_to_string, copy_range, trim_end_s, trailing_of};
use crate::scalar::trailing_count;
use crate::value::{dv_entries, dv_seq, ToonValue, Val, DEPTH_LIMIT};

verus! {

/// `n` spaces.
pub open spec fn spaces(n: int) -> Seq<char>
    decreases n,
{
    if n <= 0 {
        Seq::empty()
    } else {
        spaces(n - 1).push(' ')
    }
}

/// The sentinel the encoder emits instead of recursing past the depth bound.
pub open spec fn depth_sentinel() -> Seq<char> {
    seq!['[', 'M', 'a', 'x', 'D', 'e', 'p', 't', 'h', 'E', 'x', 'c', 'e', 'e', 'd', 'e', 'd', ']']
}

/// The block rendering of `v` at `indent`, `depth` levels down: past the
/// depth bound only the sentinel; a map entry by entry; anything else as one
/// inline line.
pub open spec fn render_block(v: Val, indent: int, depth: int) -> Seq<char>
    decreases v, 1int, 0int,
{
    if depth > DEPTH_LIMIT as int {
        depth_sentinel()
    } else {
        match v {
            Val::Object(entries) => {
                proof {
                    assert(decreases_to!(v, 1int, 0int => entries, 0int, entries.len()));
                }
                render_entries(entries, 0, indent, depth)
            },
            Val::Array(items) => {
                proof {
                    assert(decreases_to!(v, 1int, 0int => items, 0int, items.len()));
                }
                render_list(items) + seq!['\n']
            },
            _ => render_atom(v) + seq!['\n'],
        }
    }
}

/// The lines of a map's entries from index `k` on: each key at the given
/// indent, a nested map after `:` on its own deeper block, any other value
/// inline after `: `.
pub open spec fn render_entries(
    entries: Seq<(Seq<char>, Val)>,
    k: int,
    indent: int,
    depth: int,
) -> Seq<char>
    decreases entries, 0int, entries.len() - k,
{
    if k < 0 || k >= entries.len() {
        Seq::empty()
    } else {
        let key = entries[k].0;
        let child = entries[k].1;
        let line = if child is Object {
            proof {
                assert(decreases_to!(entries, 0int, entries.len() - k => entries[k]));
                assert(decreases_to!(entries[k] => child));
            }
            spaces(indent) + key + seq![':', '\n'] + render_block(child, indent + 2, depth + 1)
        } else {
            proof {
                assert(decreases_to!(entries, 0int, entries.len() - k => entries[k]));
                assert(decreases_to!(entries[k] => child));
            }
            spaces(indent) + key + seq![':', ' '] + render_block(child, 0, depth + 1)
        };
        line + render_entries(entries, k + 1, indent, depth)
    }
}

/// The whole document: the root block with trailing whitespace removed.
pub open spec fn render_doc(v: Val) -> Seq<char> {
    trim_end_s(render_block(v, 0, 0))
}

// --- executable encoder ---

fn push_spaces(n: usize, out: &mut Vec<char>)
    ensures
        final(out)@ == old(out)@ + spaces(n as int),
{
    let mut i: usize = 0;
    proof {
        assert(out@ =~= old(out)@ + spaces(0));
    }
    while i < n
        invariant
            0 <= i <= n,
            out@ == old(out)@ + spaces(i as int),
        decreases n - i,
    {
        out.push(' ');
        i += 1;
        proof {
            assert(spaces(i as int) == spaces(i - 1).push(' '));
            assert(out@ =~= old(out)@ + spaces(i as int));
        }
    }
}

fn push_string(s: &String, out: &mut Vec<char>)
    ensures
        final(out)@ == old(out)@ + s@,
{
    let v = crate::text::str_to_chars(s.as_str());
    let mut i: usize = 0;
    while i < v.len()
        invariant
            0 <= i <= v@.len(),
            v@ == s@,
            out@ == old(out)@ + v@.take(i as int),
        decreases v@.len() - i,
    {
        out.push(v[i]);
        i += 1;
        proof {
            assert(out@ =~= old(out)@ + v@.take(i as int));
        }
    }
    proof {
        assert(v@.take(v@.len() as int) =~= v@);
    }
}

pub proof fn lemma_dv_entries_index(s: Seq<(String, ToonValue)>, i: int)
    requires
        0 <= i < s.len(),
    ensures
        dv_entries(s).len() == s.len(),
        dv_entries(s)[i] == (s[i].0@, s[i].1.dv()),
    decreases s.len(),
{
    if s.len() > 0 {
        if i < s.len() - 1 {
            lemma_dv_entries_index(s.drop_last(), i);
            assert(s.drop_last()[i] == s[i]);
        } else {
            lemma_dv_entries_len(s.drop_last());
        }
    }
}

pub proof fn lemma_dv_entries_len(s: Seq<(String, ToonValue)>)
    ensures
        dv_entries(s).len() == s.len(),
    decreases s.len(),
{
    if s.len() > 0 {
        lemma_dv_entries_len(s.drop_last());
    }
}

/// Append the block rendering of `v`, exactly as [`render_block`] gives it.
pub fn encode_block(v: &ToonValue, indent: usize, depth: usize, out: &mut Vec<char>)
    requires
        indent <= 2 * depth,
    ensures
        final(out)@ == old(out)@ + render_block(v.dv(), indent as int, depth as int),
    decreases v,
{
    if depth > DEPTH_LIMIT {
        out.push('[');
        out.push('M');
        out.push('a');
        out.push('x');
        out.push('D');
        out.push('e');
        out.push('p');
        out.push('t');
        out.push('h');
        out.push('E');
        out.push('x');
        out.push('c');
        out.push('e');
        out.push('e');
        out.push('d');
        out.push('e');
        out.push('d');
        out.push(']');
        proof {
            assert(out@ =~= old(out)@ + depth_sentinel());
        }
        return;
    }
    match v {
        ToonValue::Object(entries) => {
            let ghost ev = dv_entries(entries@);
            let n = entries.len();
            let mut k: usize = 0;
            proof {
                lemma_dv_entries_len(entries@);
                assert(old(out)@ + render_entries(ev, 0, indent as int, depth as int) =~= out@
                    + render_entries(ev, 0, indent as int, depth as int));
            }
            while k < n
                invariant
                    0 <= k <= n,
                    n == entries@.len(),
                    ev == dv_entries(entries@),
                    ev.len() == n,
                    v == ToonValue::Object(*entries),
                    indent <= 2 * depth,
                    depth <= DEPTH_LIMIT,
                    out@ + render_entries(ev, k as int, indent as int, depth as int) == old(
                        out,
                    )@ + render_entries(ev, 0, indent as int, depth as int),
                decreases n - k,
            {
                proof {
                    lemma_dv_entries_index(entries@, k as int);
                }
                let ghost mid = out@;
                push_spaces(indent, out);
                push_string(&entries[k].0, out);
                let ghost vv = *v;
                proof {
                    assert(vv->Object_0 == *entries);
                    assert(decreases_to!(vv => vv->Object_0));
                    assert(decreases_to!(*entries => entries@));
                    assert(decreases_to!(entries@ => entries@[k as int]));
                    assert(decreases_to!(entries@[k as int] => entries@[k as int].1));
                    assert(decreases_to!(vv => entries@[k as int].1));
                }
                let child = &entries[k].1;
                let nested = match child {
                    ToonValue::Object(_) => true,
                    _ => false,
                };
                proof {
                    assert(nested == (ev[k as int].1 is Object));
                }
                if nested {
                    out.push(':');
                    out.push('\n');
                    encode_block(child, indent + 2, depth + 1, out);
                    proof {
                        assert(out@ =~= mid + (spaces(indent as int) + ev[k as int].0 + seq![
                            ':',
                            '\n',
                        ] + render_block(ev[k as int].1, indent + 2, depth + 1)));
                    }
                } else {
                    out.push(':');
                    out.push(' ');
                    encode_block(child, 0, depth + 1, out);
                    proof {
                        assert(out@ =~= mid + (spaces(indent as int) + ev[k as int].0 + seq![
                            ':',
                            ' ',
                        ] + render_block(ev[k as int].1, 0, depth + 1)));
                    }
                }
                k += 1;
                proof {
                    assert(out@ + render_entries(ev, k as int, indent as int, depth as int) =~= old(
                        out,
                    )@ + render_entries(ev, 0, indent as int, depth as int));
                }
            }
            proof {
                assert(render_entries(ev, n as int, indent as int, depth as int) == Seq::<
                    char,
                >::empty());
                assert(out@ =~= out@ + render_entries(ev, n as int, indent as int, depth as int));
                assert(out@ =~= old(out)@ + render_block(v.dv(), indent as int, depth as int));
            }
        },
        ToonValue::Array(items) => {
            let ghost mid = out@;
            let n = items.len();
            let mut i: usize = 0;
            while i < n
                invariant
                    0 <= i <= n,
                    n == items@.len(),
                    v == ToonValue::Array(*items),
                    out@ == mid + render_list_prefix(dv_seq(items@), i as int),
                decreases n - i,
            {
                if i > 0 {
                    out.push(',');
                    out.push(' ');
                }
                proof {
                    let ghost vv = *v;
                    assert(vv->Array_0 == *items);
                    assert(decreases_to!(vv => vv->Array_0));
                    assert(decreases_to!(*items => items@));
                    assert(decreases_to!(items@ => items@[i as int]));
                    assert(decreases_to!(vv => items@[i as int]));
                }
                value_to_chars(&items[i], out);
                proof {
                    crate::scalar::lemma_dv_seq_index(items@, i as int);
                    assert(out@ =~= mid + render_list_prefix(dv_seq(items@), i + 1));
                }
                i += 1;
            }
            out.push('\n');
            proof {
                lemma_render_list_prefix(dv_seq(items@));
                lemma_dv_seq_len(items@);
                assert(out@ =~= old(out)@ + render_block(v.dv(), indent as int, depth as int));
            }
        },
        _ => {
            value_to_chars(v, out);
            out.push('\n');
            proof {
                assert(out@ =~= old(out)@ + render_block(v.dv(), indent as int, depth as int));
            }
        },
    }
}

/// Encode a value as notation text, exactly as [`render_doc`] gives it.
pub fn encode(val: &ToonValue) -> (r: String)
    ensures
        r@ == render_doc(val.dv()),
{
    let mut out: Vec<char> = Vec::new();
    encode_block(val, 0, 0, &mut out);
    let tr = trailing_count(&out);
    proof {
        crate::text::lemma_trailing_le_len(out@);
    }
    let kept = copy_range(&out, 0, out.len() - tr);
    proof {
        assert(kept@ =~= trim_end_s(out@));
    }
    chars_to_string(&kept)
}

} // verus!
