//! The generic in-memory value: a closed tagged union over the notation's
//! value space, together with its mathematical view.

use vstd::prelude::*;

verus! {

/// One recursion-depth limit shared by the parser, the encoder and the
/// container bridge.
pub const DEPTH_LIMIT: usize = 100;

/// A parsed notation document, or a value about to be encoded.
///
/// A floating-point number is carried by its textual form: the token that the
/// parser classified as a float (for values built by a host, the host's own
/// rendering of the number). The text is the value's identity here; the host
/// boundary converts it to and from a native double.
///
/// `Object` keeps its pairs in insertion order and does not deduplicate keys.
#[derive(Debug, PartialEq)]
pub enum ToonValue {
    Null,
    Bool(bool),
    Int(i64),
    Float(String),
    Str(String),
    Array(Vec<ToonValue>),
    Object(Vec<(String, ToonValue)>),
}

/// The mathematical view of a [`ToonValue`]: the same tree over `Seq<char>`
/// and `int`.
pub enum Val {
    Null,
    Bool(bool),
    Int(int),
    Float(Seq<char>),
    Str(Seq<char>),
    Array(Seq<Val>),
    Object(Seq<(Seq<char>, Val)>),
}

impl ToonValue {
    /// The deep view: every `Vec` becomes a `Seq`, every `String` a
    /// `Seq<char>`, every `i64` an `int`.
    pub open spec fn dv(self) -> Val
        decreases self, 0int,
    {
        match self {
            ToonValue::Null => Val::Null,
            ToonValue::Bool(b) => Val::Bool(b),
            ToonValue::Int(i) => Val::Int(i as int),
            ToonValue::Float(t) => Val::Float(t@),
            ToonValue::Str(s) => Val::Str(s@),
            ToonValue::Array(items) => {
                proof {
                    assert(decreases_to!(self, 0int => items@, items@.len()));
                }
                Val::Array(dv_seq(items@))
            },
            ToonValue::Object(entries) => {
                proof {
                    assert(decreases_to!(self, 0int => entries@, entries@.len()));
                }
                Val::Object(dv_entries(entries@))
            },
        }
    }
}

/// The views of the elements of a list, in order.
pub open spec fn dv_seq(s: Seq<ToonValue>) -> Seq<Val>
    decreases s, s.len(),
{
    if s.len() == 0 {
        Seq::empty()
    } else {
        proof {
            assert(s.drop_last() == s.subrange(0, s.len() - 1));
            assert(decreases_to!(s, s.len() => s.drop_last(), s.len() - 1));
        }
        dv_seq(s.drop_last()).push(s.last().dv())
    }
}

/// The views of the pairs of a map, in order.
pub open spec fn dv_entries(s: Seq<(String, ToonValue)>) -> Seq<(Seq<char>, Val)>
    decreases s, s.len(),
{
    if s.len() == 0 {
        Seq::empty()
    } else {
        proof {
            assert(s.drop_last() == s.subrange(0, s.len() - 1));
            assert(decreases_to!(s, s.len() => s.drop_last(), s.len() - 1));
        }
        dv_entries(s.drop_last()).push((s.last().0@, s.last().1.dv()))
    }
}

} // verus!
