//! The container bridge: converting between the generic value and a host
//! runtime's ordered key/value collection, whose keys are integers or
//! strings. The nontrivial direction decides whether such a collection is a
//! positional list or a map: it is a list exactly when every key equals its
//! position and no element converts to a map (the notation's inline list form
//! cannot carry nested maps); an empty collection is an empty list.

use vstd::prelude::*;

use crate::num::{int_text, int_to_chars, is_digit, parse_int, parse_int_s};
use crate::text::{chars_to_string, find_char, str_to_chars};
use crate::value::{dv_entries, dv_seq, ToonValue, Val, DEPTH_LIMIT};

verus! {

/// Why a conversion fails.
#[derive(Debug, PartialEq, Eq)]
pub enum BridgeError {
    /// The recursion bound was hit.
    DepthExceeded,
    /// A map key cannot be carried in the host's native key encoding (it
    /// holds a NUL character and is not an integer key).
    InvalidKeyEncoding,
}

/// A key of the host collection: a numeric index or a string.
#[derive(Debug, PartialEq)]
pub enum HostKey {
    Index(i64),
    Text(String),
}

/// A host value: scalars as the host hands them over (a double by its
/// rendered text), and one ordered key/value collection standing for both
/// the host's lists and its maps.
#[derive(Debug, PartialEq)]
pub enum HostValue {
    Null,
    Bool(bool),
    Int(i64),
    Float(String),
    Str(String),
    Array(Vec<(HostKey, HostValue)>),
}

/// The mathematical view of a [`HostKey`].
pub enum HKey {
    Index(int),
    Text(Seq<char>),
}

/// The mathematical view of a [`HostValue`].
pub enum HVal {
    Null,
    Bool(bool),
    Int(int),
    Float(Seq<char>),
    Str(Seq<char>),
    Array(Seq<(HKey, HVal)>),
}

impl HostKey {
    pub open spec fn dv(self) -> HKey {
        match self {
            HostKey::Index(i) => HKey::Index(i as int),
            HostKey::Text(s) => HKey::Text(s@),
        }
    }
}

impl HostValue {
    /// The deep view of a host value.
    pub open spec fn dv(self) -> HVal
        decreases self, 0int,
    {
        match self {
            HostValue::Null => HVal::Null,
            HostValue::Bool(b) => HVal::Bool(b),
            HostValue::Int(i) => HVal::Int(i as int),
            HostValue::Float(t) => HVal::Float(t@),
            HostValue::Str(s) => HVal::Str(s@),
            HostValue::Array(entries) => {
                proof {
                    assert(decreases_to!(self, 0int => entries@, entries@.len()));
                }
                HVal::Array(hv_entries(entries@))
            },
        }
    }
}

/// The views of a host collection's pairs, in order.
pub open spec fn hv_entries(s: Seq<(HostKey, HostValue)>) -> Seq<(HKey, HVal)>
    decreases s, s.len(),
{
    if s.len() == 0 {
        Seq::empty()
    } else {
        proof {
            assert(s.drop_last() == s.subrange(0, s.len() - 1));
            assert(decreases_to!(s, s.len() => s.drop_last(), s.len() - 1));
        }
        hv_entries(s.drop_last()).push((s.last().0.dv(), s.last().1.dv()))
    }
}

/// The text a host key contributes when the collection turns out to be a
/// map: an index in decimal, a string as itself.
pub open spec fn hkey_text(k: HKey) -> Seq<char> {
    match k {
        HKey::Index(i) => int_text(i),
        HKey::Text(s) => s,
    }
}

/// One pass over a host collection's pairs from index `k`, with the
/// list-candidate state carried along: while every key has equalled its
/// position and no element was a map, elements gather positionally in
/// `list`; `mapv` mirrors them under their decimal keys, and from the first
/// disqualifying pair on only `mapv` grows. A still-candidate collection
/// ends as a list (an empty one too); any other ends as a map.
pub open spec fn bridge_fold(
    entries: Seq<(HKey, HVal)>,
    k: int,
    depth: int,
    cand: bool,
    list: Seq<Val>,
    mapv: Seq<(Seq<char>, Val)>,
) -> Result<Val, BridgeError>
    decreases entries, 0int, entries.len() - k,
{
    if k < 0 || k >= entries.len() {
        if cand {
            Ok(Val::Array(list))
        } else {
            Ok(Val::Object(mapv))
        }
    } else {
        let key = entries[k].0;
        let hv = entries[k].1;
        let keymatch = cand && key is Index && key->Index_0 == list.len();
        proof {
            assert(decreases_to!(entries, 0int, entries.len() - k => entries[k]));
            assert(decreases_to!(entries[k] => hv));
        }
        match hv_to_val(hv, depth + 1) {
            Err(e) => Err(e),
            Ok(val) => {
                if keymatch && !(val is Object) {
                    bridge_fold(
                        entries,
                        k + 1,
                        depth,
                        cand,
                        list.push(val),
                        mapv.push((int_text(list.len() as int), val)),
                    )
                } else {
                    bridge_fold(entries, k + 1, depth, false, list, mapv.push(
                        (hkey_text(key), val),
                    ))
                }
            },
        }
    }
}

/// What converting a host value at nesting `depth` yields: scalars map one
/// to one, a collection through the list-candidate pass, and past the depth
/// bound the conversion fails.
pub open spec fn hv_to_val(h: HVal, depth: int) -> Result<Val, BridgeError>
    decreases h, 1int, 0int,
{
    if depth > DEPTH_LIMIT as int {
        Err(BridgeError::DepthExceeded)
    } else {
        match h {
            HVal::Null => Ok(Val::Null),
            HVal::Bool(b) => Ok(Val::Bool(b)),
            HVal::Int(i) => Ok(Val::Int(i)),
            HVal::Float(t) => Ok(Val::Float(t)),
            HVal::Str(s) => Ok(Val::Str(s)),
            HVal::Array(entries) => {
                proof {
                    assert(decreases_to!(h, 1int, 0int => entries, 0int, entries.len()));
                }
                bridge_fold(entries, 0, depth, true, Seq::empty(), Seq::empty())
            },
        }
    }
}

/// Whether a map key goes back to the host as a numeric index: it looks
/// numeric from its first character and parses fully as a 64-bit integer.
pub open spec fn key_as_index(key: Seq<char>) -> Option<int> {
    if key.len() > 0 && (key[0] == '-' || is_digit(key[0])) && parse_int_s(key) is Some {
        parse_int_s(key)
    } else {
        None
    }
}

/// The converse pass for one map's pairs from index `k`: each value converts
/// at one greater depth; a key that reads as an integer becomes an index
/// key, any other must be NUL-free to live in the host's key encoding.
pub open spec fn entries_to_hv(
    entries: Seq<(Seq<char>, Val)>,
    k: int,
    depth: int,
    acc: Seq<(HKey, HVal)>,
) -> Result<Seq<(HKey, HVal)>, BridgeError>
    decreases entries, 0int, entries.len() - k,
{
    if k < 0 || k >= entries.len() {
        Ok(acc)
    } else {
        let key = entries[k].0;
        let child = entries[k].1;
        proof {
            assert(decreases_to!(entries, 0int, entries.len() - k => entries[k]));
            assert(decreases_to!(entries[k] => child));
        }
        match val_to_hv(child, depth + 1) {
            Err(e) => Err(e),
            Ok(hv) => match key_as_index(key) {
                Some(i) => entries_to_hv(entries, k + 1, depth, acc.push((HKey::Index(i), hv))),
                None => {
                    if crate::text::contains_c(key, '\u{0}') {
                        Err(BridgeError::InvalidKeyEncoding)
                    } else {
                        entries_to_hv(entries, k + 1, depth, acc.push((HKey::Text(key), hv)))
                    }
                },
            },
        }
    }
}

/// A list's elements keyed by position, each converted one level deeper; a
/// position past what the host's 64-bit key can carry cannot be encoded.
pub open spec fn items_to_hv(
    items: Seq<Val>,
    k: int,
    depth: int,
    acc: Seq<(HKey, HVal)>,
) -> Result<Seq<(HKey, HVal)>, BridgeError>
    decreases items, 0int, items.len() - k,
{
    if k < 0 || k >= items.len() {
        Ok(acc)
    } else {
        proof {
            assert(decreases_to!(items, 0int, items.len() - k => items[k]));
        }
        match val_to_hv(items[k], depth + 1) {
            Err(e) => Err(e),
            Ok(hv) => {
                if acc.len() > i64::MAX {
                    Err(BridgeError::InvalidKeyEncoding)
                } else {
                    items_to_hv(items, k + 1, depth, acc.push((HKey::Index(acc.len() as int), hv)))
                }
            },
        }
    }
}

/// What converting a value back to a host value yields: a list keyed by
/// position, a map under integer-or-string keys, and past the depth bound a
/// failure.
pub open spec fn val_to_hv(v: Val, depth: int) -> Result<HVal, BridgeError>
    decreases v, 1int, 0int,
{
    if depth > DEPTH_LIMIT as int {
        Err(BridgeError::DepthExceeded)
    } else {
        match v {
            Val::Null => Ok(HVal::Null),
            Val::Bool(b) => Ok(HVal::Bool(b)),
            Val::Int(i) => Ok(HVal::Int(i)),
            Val::Float(t) => Ok(HVal::Float(t)),
            Val::Str(s) => Ok(HVal::Str(s)),
            Val::Array(items) => {
                proof {
                    assert(decreases_to!(v, 1int, 0int => items, 0int, items.len()));
                }
                match items_to_hv(items, 0, depth, Seq::empty()) {
                    Ok(entries) => Ok(HVal::Array(entries)),
                    Err(e) => Err(e),
                }
            },
            Val::Object(entries) => {
                proof {
                    assert(decreases_to!(v, 1int, 0int => entries, 0int, entries.len()));
                }
                match entries_to_hv(entries, 0, depth, Seq::empty()) {
                    Ok(hentries) => Ok(HVal::Array(hentries)),
                    Err(e) => Err(e),
                }
            },
        }
    }
}

// --- executable conversions ---

proof fn lemma_hv_entries_index(s: Seq<(HostKey, HostValue)>, i: int)
    requires
        0 <= i < s.len(),
    ensures
        hv_entries(s).len() == s.len(),
        hv_entries(s)[i] == (s[i].0.dv(), s[i].1.dv()),
    decreases s.len(),
{
    if s.len() > 0 {
        if i < s.len() - 1 {
            lemma_hv_entries_index(s.drop_last(), i);
            assert(s.drop_last()[i] == s[i]);
        } else {
            lemma_hv_entries_len(s.drop_last());
        }
    }
}

pub proof fn lemma_hv_entries_len(s: Seq<(HostKey, HostValue)>)
    ensures
        hv_entries(s).len() == s.len(),
    decreases s.len(),
{
    if s.len() > 0 {
        lemma_hv_entries_len(s.drop_last());
    }
}

/// The decimal text of an index used when a list materializes as a map.
fn index_key_string(i: usize) -> (r: String)
    requires
        i <= i64::MAX,
    ensures
        r@ == int_text(i as int),
{
    let mut out: Vec<char> = Vec::new();
    int_to_chars(i as i64, &mut out);
    chars_to_string(&out)
}

/// The buffered list elements under their decimal position keys: what the
/// pass materializes when list-candidacy is lost.
pub open spec fn mat_entries(s: Seq<Val>) -> Seq<(Seq<char>, Val)> {
    Seq::new(s.len(), |i: int| (int_text(i), s[i]))
}

/// Once candidacy is lost the buffered list no longer matters: only the map
/// decides the outcome.
proof fn lemma_fold_list_irrelevant(
    entries: Seq<(HKey, HVal)>,
    k: int,
    depth: int,
    l1: Seq<Val>,
    l2: Seq<Val>,
    mapv: Seq<(Seq<char>, Val)>,
)
    ensures
        bridge_fold(entries, k, depth, false, l1, mapv) == bridge_fold(
            entries,
            k,
            depth,
            false,
            l2,
            mapv,
        ),
    decreases entries.len() - k,
{
    if 0 <= k < entries.len() {
        match hv_to_val(entries[k].1, depth + 1) {
            Err(_) => {},
            Ok(val) => {
                lemma_fold_list_irrelevant(
                    entries,
                    k + 1,
                    depth,
                    l1,
                    l2,
                    mapv.push((hkey_text(entries[k].0), val)),
                );
            },
        }
    }
}

fn hv_convert(h: &HostValue, depth: usize) -> (r: Result<ToonValue, BridgeError>)
    ensures
        match r {
            Ok(v) => hv_to_val(h.dv(), depth as int) == Ok::<Val, BridgeError>(v.dv()),
            Err(e) => hv_to_val(h.dv(), depth as int) == Err::<Val, BridgeError>(e),
        },
    decreases h,
{
    if depth > DEPTH_LIMIT {
        return Err(BridgeError::DepthExceeded);
    }
    match h {
        HostValue::Null => Ok(ToonValue::Null),
        HostValue::Bool(b) => Ok(ToonValue::Bool(*b)),
        HostValue::Int(i) => Ok(ToonValue::Int(*i)),
        HostValue::Float(t) => Ok(ToonValue::Float(t.clone())),
        HostValue::Str(s) => Ok(ToonValue::Str(s.clone())),
        HostValue::Array(entries) => {
            let ghost ev = hv_entries(entries@);
            let ghost top = bridge_fold(ev, 0, depth as int, true, Seq::empty(), Seq::empty());
            let n = entries.len();
            let mut cand = true;
            let mut list: Vec<ToonValue> = Vec::new();
            let mut mapv: Vec<(String, ToonValue)> = Vec::new();
            let mut k: usize = 0;
            proof {
                lemma_hv_entries_len(entries@);
                assert(dv_seq(list@) =~= Seq::<Val>::empty());
                assert(dv_entries(mapv@) =~= Seq::<(Seq<char>, Val)>::empty());
                assert(mat_entries(dv_seq(list@)) =~= Seq::<(Seq<char>, Val)>::empty());
            }
            while k < n
                invariant
                    0 <= k <= n,
                    n == entries@.len(),
                    ev == hv_entries(entries@),
                    ev.len() == n,
                    h == HostValue::Array(*entries),
                    depth <= DEPTH_LIMIT,
                    top == bridge_fold(ev, 0, depth as int, true, Seq::empty(), Seq::empty()),
                    cand ==> list@.len() <= i64::MAX + 1 && mapv@.len() == 0 && top == bridge_fold(
                        ev,
                        k as int,
                        depth as int,
                        true,
                        dv_seq(list@),
                        mat_entries(dv_seq(list@)),
                    ),
                    !cand ==> list@.len() == 0 && top == bridge_fold(
                        ev,
                        k as int,
                        depth as int,
                        false,
                        Seq::empty(),
                        dv_entries(mapv@),
                    ),
                decreases n - k,
            {
                proof {
                    lemma_hv_entries_index(entries@, k as int);
                    let ghost hh = *h;
                    assert(hh->Array_0 == *entries);
                    assert(decreases_to!(hh => hh->Array_0));
                    assert(decreases_to!(*entries => entries@));
                    assert(decreases_to!(entries@ => entries@[k as int]));
                    assert(decreases_to!(entries@[k as int] => entries@[k as int].1));
                    assert(decreases_to!(hh => entries@[k as int].1));
                    crate::scalar::lemma_dv_seq_len(list@);
                }
                let keymatch = cand && match &entries[k].0 {
                    HostKey::Index(idx) => *idx >= 0 && (*idx as u64) == (list.len() as u64),
                    HostKey::Text(_) => false,
                };
                proof {
                    assert(keymatch == (cand && ev[k as int].0 is Index && ev[k as int].0->Index_0
                        == dv_seq(list@).len()));
                }
                let val = match hv_convert(&entries[k].1, depth + 1) {
                    Ok(v) => v,
                    Err(e) => {
                        return Err(e);
                    },
                };
                let is_obj = match &val {
                    ToonValue::Object(_) => true,
                    _ => false,
                };
                proof {
                    assert(is_obj == (val.dv() is Object));
                }
                if keymatch && !is_obj {
                    // still a list: buffer positionally
                    let ghost lb = list@;
                    let ghost lv_b = dv_seq(list@);
                    proof {
                        assert(bridge_fold(ev, k as int, depth as int, true, lv_b, mat_entries(
                            lv_b,
                        )) == bridge_fold(
                            ev,
                            k + 1,
                            depth as int,
                            true,
                            lv_b.push(val.dv()),
                            mat_entries(lv_b).push((int_text(lv_b.len() as int), val.dv())),
                        ));
                    }
                    list.push(val);
                    proof {
                        assert(list@.drop_last() =~= lb);
                        assert(dv_seq(list@) == dv_seq(lb).push(list@.last().dv()));
                        assert(list@.last().dv() == val.dv());
                        assert(dv_seq(list@) == lv_b.push(val.dv()));
                        assert(mat_entries(dv_seq(list@)) =~= mat_entries(lv_b).push(
                            (int_text(lv_b.len() as int), val.dv()),
                        ));
                    }
                } else {
                    let ghost was_cand = cand;
                    let ghost lv_before = dv_seq(list@);
                    if cand {
                        // the first disqualifying entry: what was buffered
                        // becomes map entries under its positions' text
                        let ghost list0 = list@;
                        let ghost lv0 = dv_seq(list0);
                        let n0 = list.len();
                        proof {
                            crate::scalar::lemma_dv_seq_len(list0);
                        }
                        let mut rev: Vec<ToonValue> = Vec::new();
                        loop
                            invariant
                                list@ == list0.take(list@.len() as int),
                                rev@.len() + list@.len() == list0.len(),
                                forall|i: int|
                                    0 <= i < rev@.len() ==> rev@[i] == list0[list0.len() - 1 - i],
                            ensures
                                list@.len() == 0,
                                rev@.len() == list0.len(),
                                forall|i: int|
                                    0 <= i < rev@.len() ==> rev@[i] == list0[list0.len() - 1 - i],
                            decreases list@.len(),
                        {
                            proof {
                                assert(list0.take(list@.len() as int).len() == list@.len());
                            }
                            match list.pop() {
                                Some(x) => {
                                    proof {
                                        assert(list0.take((list@.len() + 1) as int)[list@.len() as int]
                                            == list0[list@.len() as int]);
                                    }
                                    rev.push(x);
                                    proof {
                                        assert(list@ =~= list0.take(list@.len() as int));
                                    }
                                },
                                None => {
                                    proof {
                                        assert(list@ =~= list0.take(0));
                                    }
                                    break;
                                },
                            }
                        }
                        let mut idx: usize = 0;
                        proof {
                            assert(list0.len() <= i64::MAX + 1);
                        }
                        loop
                            invariant
                                n0 == list0.len(),
                                idx + rev@.len() == n0,
                                list0.len() <= i64::MAX + 1,
                                mapv@.len() == idx,
                                forall|i: int|
                                    0 <= i < rev@.len() ==> rev@[i] == list0[list0.len() - 1 - i],
                                forall|i: int|
                                    0 <= i < idx ==> (#[trigger] mapv@[i]).0@ == int_text(i)
                                        && mapv@[i].1 == list0[i],
                            ensures
                                rev@.len() == 0,
                                mapv@.len() == list0.len(),
                                forall|i: int|
                                    0 <= i < mapv@.len() ==> (#[trigger] mapv@[i]).0@ == int_text(
                                        i,
                                    ) && mapv@[i].1 == list0[i],
                            decreases rev@.len(),
                        {
                            match rev.pop() {
                                Some(x) => {
                                    let ghost mb = mapv@;
                                    proof {
                                        assert(x == list0[idx as int]);
                                    }
                                    let key_string = index_key_string(idx);
                                    mapv.push((key_string, x));
                                    idx += 1;
                                    proof {
                                        assert(forall|i: int|
                                            0 <= i < mb.len() ==> #[trigger] mapv@[i] == mb[i]);
                                    }
                                },
                                None => {
                                    break;
                                },
                            }
                        }
                        proof {
                            assert(dv_entries(mapv@) =~= mat_entries(lv0)) by {
                                crate::encoder::lemma_dv_entries_len(mapv@);
                                crate::scalar::lemma_dv_seq_len(list0);
                                assert forall|i: int| 0 <= i < mapv@.len() implies dv_entries(
                                    mapv@,
                                )[i] == mat_entries(lv0)[i] by {
                                    crate::encoder::lemma_dv_entries_index(mapv@, i);
                                    crate::scalar::lemma_dv_seq_index(list0, i);
                                }
                            }
                        }
                        cand = false;
                    }
                    let key_string = match &entries[k].0 {
                        HostKey::Index(idx) => {
                            let mut outk: Vec<char> = Vec::new();
                            int_to_chars(*idx, &mut outk);
                            chars_to_string(&outk)
                        },
                        HostKey::Text(s) => s.clone(),
                    };
                    proof {
                        assert(key_string@ == hkey_text(ev[k as int].0));
                    }
                    let ghost mb = mapv@;
                    mapv.push((key_string, val));
                    proof {
                        assert(mapv@.drop_last() =~= mb);
                        assert(dv_entries(mapv@) == dv_entries(mb).push(
                            (mapv@.last().0@, mapv@.last().1.dv()),
                        ));
                        if was_cand {
                            assert(dv_entries(mb) == mat_entries(lv_before));
                            lemma_fold_list_irrelevant(
                                ev,
                                k + 1,
                                depth as int,
                                lv_before,
                                Seq::empty(),
                                dv_entries(mapv@),
                            );
                        }
                    }
                }
                k += 1;
            }
            if cand {
                let out = ToonValue::Array(list);
                proof {
                    assert(out.dv() == Val::Array(dv_seq(out->Array_0@)));
                }
                Ok(out)
            } else {
                let out = ToonValue::Object(mapv);
                proof {
                    assert(out.dv() == Val::Object(dv_entries(out->Object_0@)));
                }
                Ok(out)
            }
        },
    }
}

/// Convert a host collection (or scalar) into a value: a collection whose
/// keys count `0, 1, 2, …` in order and whose elements carry no nested map
/// becomes a `ToonValue::Array`; an empty collection becomes an empty array;
/// every other collection becomes a `ToonValue::Object` whose keys are the
/// host keys' text. The conversion fails only past the recursion bound,
/// exactly as [`hv_to_val`] says.
pub fn collection_to_value(h: &HostValue) -> (r: Result<ToonValue, BridgeError>)
    ensures
        match r {
            Ok(v) => hv_to_val(h.dv(), 0) == Ok::<Val, BridgeError>(v.dv()),
            Err(e) => hv_to_val(h.dv(), 0) == Err::<Val, BridgeError>(e),
        },
{
    hv_convert(h, 0)
}

fn val_convert(v: &ToonValue, depth: usize) -> (r: Result<HostValue, BridgeError>)
    ensures
        match r {
            Ok(h) => val_to_hv(v.dv(), depth as int) == Ok::<HVal, BridgeError>(h.dv()),
            Err(e) => val_to_hv(v.dv(), depth as int) == Err::<HVal, BridgeError>(e),
        },
    decreases v,
{
    if depth > DEPTH_LIMIT {
        return Err(BridgeError::DepthExceeded);
    }
    match v {
        ToonValue::Null => Ok(HostValue::Null),
        ToonValue::Bool(b) => Ok(HostValue::Bool(*b)),
        ToonValue::Int(i) => Ok(HostValue::Int(*i)),
        ToonValue::Float(t) => Ok(HostValue::Float(t.clone())),
        ToonValue::Str(s) => Ok(HostValue::Str(s.clone())),
        ToonValue::Array(items) => {
            let ghost iv = dv_seq(items@);
            let n = items.len();
            let mut acc: Vec<(HostKey, HostValue)> = Vec::new();
            let mut k: usize = 0;
            proof {
                crate::scalar::lemma_dv_seq_len(items@);
                assert(hv_entries(acc@) =~= Seq::<(HKey, HVal)>::empty());
            }
            while k < n
                invariant
                    0 <= k <= n,
                    n == items@.len(),
                    iv == dv_seq(items@),
                    iv.len() == n,
                    v == ToonValue::Array(*items),
                    depth <= DEPTH_LIMIT,
                    items_to_hv(iv, 0, depth as int, Seq::empty()) == items_to_hv(
                        iv,
                        k as int,
                        depth as int,
                        hv_entries(acc@),
                    ),
                    acc@.len() == k,
                decreases n - k,
            {
                proof {
                    crate::scalar::lemma_dv_seq_index(items@, k as int);
                    let ghost vv = *v;
                    assert(vv->Array_0 == *items);
                    assert(decreases_to!(vv => vv->Array_0));
                    assert(decreases_to!(*items => items@));
                    assert(decreases_to!(items@ => items@[k as int]));
                    assert(decreases_to!(vv => items@[k as int]));
                }
                let hv = match val_convert(&items[k], depth + 1) {
                    Ok(h) => h,
                    Err(e) => {
                        return Err(e);
                    },
                };
                let ghost ab = acc@;
                proof {
                    lemma_hv_entries_len(acc@);
                }
                if (acc.len() as u64) > (i64::MAX as u64) {
                    return Err(BridgeError::InvalidKeyEncoding);
                }
                let idx = acc.len();
                acc.push((HostKey::Index(idx as i64), hv));
                proof {
                    assert(acc@.drop_last() =~= ab);
                    assert(hv_entries(acc@) == hv_entries(ab).push(
                        (acc@.last().0.dv(), acc@.last().1.dv()),
                    ));
                    assert(acc@.last().0.dv() == HKey::Index(hv_entries(ab).len() as int));
                    assert(items_to_hv(iv, k as int, depth as int, hv_entries(ab))
                        == items_to_hv(iv, k + 1, depth as int, hv_entries(acc@)));
                }
                k += 1;
            }
            let out = HostValue::Array(acc);
            proof {
                assert(out.dv() == HVal::Array(hv_entries(out->Array_0@)));
            }
            Ok(out)
        },
        ToonValue::Object(entries) => {
            let ghost ev = dv_entries(entries@);
            let n = entries.len();
            let mut acc: Vec<(HostKey, HostValue)> = Vec::new();
            let mut k: usize = 0;
            proof {
                crate::encoder::lemma_dv_entries_len(entries@);
                assert(hv_entries(acc@) =~= Seq::<(HKey, HVal)>::empty());
            }
            while k < n
                invariant
                    0 <= k <= n,
                    n == entries@.len(),
                    ev == dv_entries(entries@),
                    ev.len() == n,
                    v == ToonValue::Object(*entries),
                    depth <= DEPTH_LIMIT,
                    entries_to_hv(ev, 0, depth as int, Seq::empty()) == entries_to_hv(
                        ev,
                        k as int,
                        depth as int,
                        hv_entries(acc@),
                    ),
                decreases n - k,
            {
                proof {
                    crate::encoder::lemma_dv_entries_index(entries@, k as int);
                    let ghost vv = *v;
                    assert(vv->Object_0 == *entries);
                    assert(decreases_to!(vv => vv->Object_0));
                    assert(decreases_to!(*entries => entries@));
                    assert(decreases_to!(entries@ => entries@[k as int]));
                    assert(decreases_to!(entries@[k as int] => entries@[k as int].1));
                    assert(decreases_to!(vv => entries@[k as int].1));
                }
                let hv = match val_convert(&entries[k].1, depth + 1) {
                    Ok(h) => h,
                    Err(e) => {
                        return Err(e);
                    },
                };
                let keyv = str_to_chars(entries[k].0.as_str());
                let looks_numeric = keyv.len() > 0 && {
                    let c = keyv[0];
                    c == '-' || ('0' <= c && c <= '9')
                };
                let as_index: Option<i64> = if looks_numeric {
                    parse_int(&keyv)
                } else {
                    None
                };
                proof {
                    match key_as_index(ev[k as int].0) {
                        Some(i) => {
                            assert(as_index is Some && as_index->0 as int == i);
                        },
                        None => {
                            assert(as_index is None);
                        },
                    }
                }
                let ghost ab = acc@;
                match as_index {
                    Some(idx) => {
                        acc.push((HostKey::Index(idx), hv));
                        proof {
                            assert(acc@.drop_last() =~= ab);
                            assert(hv_entries(acc@) == hv_entries(ab).push(
                                (acc@.last().0.dv(), acc@.last().1.dv()),
                            ));
                        }
                    },
                    None => {
                        if find_char(&keyv, '\u{0}') < keyv.len() {
                            proof {
                                crate::text::lemma_find_c(keyv@, '\u{0}');
                            }
                            return Err(BridgeError::InvalidKeyEncoding);
                        }
                        proof {
                            crate::text::lemma_find_c(keyv@, '\u{0}');
                        }
                        acc.push((HostKey::Text(entries[k].0.clone()), hv));
                        proof {
                            assert(acc@.drop_last() =~= ab);
                            assert(hv_entries(acc@) == hv_entries(ab).push(
                                (acc@.last().0.dv(), acc@.last().1.dv()),
                            ));
                        }
                    },
                }
                k += 1;
            }
            let out = HostValue::Array(acc);
            proof {
                assert(out.dv() == HVal::Array(hv_entries(out->Array_0@)));
            }
            Ok(out)
        },
    }
}

/// Convert a value into a host collection (or scalar): a list becomes a
/// collection keyed by position; a map's keys become numeric indices when
/// they read as integers and string keys otherwise, failing on a string key
/// that holds a NUL character, exactly as [`val_to_hv`] says.
pub fn value_to_collection(v: &ToonValue) -> (r: Result<HostValue, BridgeError>)
    ensures
        match r {
            Ok(h) => val_to_hv(v.dv(), 0) == Ok::<HVal, BridgeError>(h.dv()),
            Err(e) => val_to_hv(v.dv(), 0) == Err::<HVal, BridgeError>(e),
        },
{
    val_convert(v, 0)
}

/// The capacity hint a host hash table gets for `len` pending entries,
/// clamped to what its 32-bit capacity field can hold.
pub fn clamped_capacity(len: usize) -> (r: u32)
    ensures
        len <= u32::MAX ==> r == len,
        len > u32::MAX ==> r == u32::MAX,
{
    let max = u32::MAX as usize;
    if len > max {
        u32::MAX
    } else {
        len as u32
    }
}

} // verus!
