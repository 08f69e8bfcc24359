//! The bencode value model: a closed sum type with four variants, its
//! mathematical view, and the byte-lexicographic order on dictionary keys.
use vstd::prelude::*;

verus! {

broadcast use vstd::std_specs::vec::group_vec_axioms;

/// ASCII byte that opens an integer.
pub const BYTE_I: u8 = 105;

/// ASCII byte that closes an integer, a list or a dictionary.
pub const BYTE_E: u8 = 101;

/// ASCII byte that opens a list.
pub const BYTE_L: u8 = 108;

/// ASCII byte that opens a dictionary.
pub const BYTE_D: u8 = 100;

/// ASCII colon, separating a byte string's length from its payload.
pub const BYTE_COLON: u8 = 58;

/// ASCII minus sign.
pub const BYTE_MINUS: u8 = 45;

/// ASCII digit zero.
pub const BYTE_ZERO: u8 = 48;

/// An in-memory bencode value.
///
/// A `Dict` stores its entries with keys in strictly ascending
/// byte-lexicographic order; that ordering is the well-formedness condition
/// [`wf`] and is exactly what the canonical encoding requires.
#[derive(PartialEq, Eq, Debug)]
pub enum Bencode {
    Int(i64),
    Bytes(Vec<u8>),
    List(Vec<Bencode>),
    Dict(Vec<(Vec<u8>, Bencode)>),
}

/// The mathematical counterpart of [`Bencode`]: unbounded integers and
/// sequences in place of machine integers and vectors.
#[verifier::ext_equal]
pub enum BValue {
    Int(int),
    Bytes(Seq<u8>),
    List(Seq<BValue>),
    Dict(Seq<(Seq<u8>, BValue)>),
}

impl Bencode {
    /// The mathematical value that this tree represents.
    pub open spec fn bval(self) -> BValue
        decreases self,
    {
        match self {
            Bencode::Int(n) => BValue::Int(n as int),
            Bencode::Bytes(b) => BValue::Bytes(b@),
            Bencode::List(items) => BValue::List(seq_bval(items@)),
            Bencode::Dict(entries) => BValue::Dict(entries_bval(entries@)),
        }
    }
}

/// The views of a sequence of values, element by element.
pub open spec fn seq_bval(s: Seq<Bencode>) -> Seq<BValue>
    decreases s,
{
    Seq::new(
        s.len(),
        |i: int|
            if 0 <= i < s.len() {
                s[i].bval()
            } else {
                BValue::Int(0)
            },
    )
}

/// The views of a sequence of dictionary entries, entry by entry.
pub open spec fn entries_bval(s: Seq<(Vec<u8>, Bencode)>) -> Seq<(Seq<u8>, BValue)>
    decreases s,
{
    Seq::new(
        s.len(),
        |i: int|
            if 0 <= i < s.len() {
                (s[i].0@, s[i].1.bval())
            } else {
                (Seq::empty(), BValue::Int(0))
            },
    )
}

impl View for Bencode {
    type V = BValue;

    open spec fn view(&self) -> BValue {
        (*self).bval()
    }
}

/// Byte-lexicographic "strictly less than", compared from position `i` on.
pub open spec fn lex_lt_from(a: Seq<u8>, b: Seq<u8>, i: int) -> bool
    decreases a.len() - i,
{
    if i >= b.len() {
        false
    } else if i >= a.len() {
        true
    } else if a[i] < b[i] {
        true
    } else if a[i] > b[i] {
        false
    } else {
        lex_lt_from(a, b, i + 1)
    }
}

/// Byte-lexicographic "strictly less than" on whole byte strings: the order
/// in which a canonical dictionary encoding must emit its keys.
pub open spec fn lex_lt(a: Seq<u8>, b: Seq<u8>) -> bool {
    lex_lt_from(a, b, 0)
}

/// Well-formedness of a value: every integer fits the signed 64-bit range
/// and every dictionary's keys are strictly ascending. Values built by the
/// parser always satisfy this, and exactly the well-formed values have a
/// canonical encoding that parses back.
pub open spec fn wf(v: BValue) -> bool
    decreases v,
{
    match v {
        BValue::Int(n) => i64::MIN <= n <= i64::MAX,
        BValue::Bytes(_) => true,
        BValue::List(items) => forall|i: int| 0 <= i < items.len() ==> wf(#[trigger] items[i]),
        BValue::Dict(entries) => {
            &&& forall|i: int| 0 <= i < entries.len() ==> wf((#[trigger] entries[i]).1)
            &&& forall|i: int|
                0 <= i && i + 1 < entries.len() ==> lex_lt(
                    (#[trigger] entries[i]).0,
                    entries[i + 1].0,
                )
        },
    }
}

/// Compares two byte strings, true exactly when `a` comes strictly before
/// `b` in byte-lexicographic order.
pub fn key_less(a: &Vec<u8>, b: &Vec<u8>) -> (r: bool)
    ensures
        r == lex_lt(a@, b@),
{
    let mut i: usize = 0;
    loop
        invariant
            0 <= i <= a.len(),
            0 <= i <= b.len(),
            lex_lt(a@, b@) == lex_lt_from(a@, b@, i as int),
        decreases a@.len() - i,
    {
        if i >= b.len() {
            return false;
        }
        if i >= a.len() {
            return true;
        }
        if a[i] < b[i] {
            return true;
        }
        if a[i] > b[i] {
            return false;
        }
        i = i + 1;
    }
}

} // verus!
