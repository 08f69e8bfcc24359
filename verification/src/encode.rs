//! The canonical bencode encoding, as a mathematical function on values,
//! and the verified executable serializer that produces exactly it.
use vstd::prelude::*;

use crate::value::{
    entries_bval, seq_bval, BValue, Bencode, BYTE_COLON, BYTE_D, BYTE_E, BYTE_I, BYTE_L, BYTE_MINUS,
};

verus! {

broadcast use vstd::std_specs::vec::group_vec_axioms;

/// The decimal digits of `n` (most significant first), for `n >= 0`, with no
/// leading zero except for the single digit `"0"`.
pub open spec fn spec_dec(n: int) -> Seq<u8>
    recommends
        n >= 0,
    decreases n,
{
    if n <= 9 {
        seq![(n + 48) as u8]
    } else {
        spec_dec(n / 10) + seq![((n % 10) + 48) as u8]
    }
}

/// The decimal spelling of a (possibly negative) integer: an optional minus
/// sign followed by the digits of the magnitude.
pub open spec fn spec_int(n: int) -> Seq<u8> {
    if n < 0 {
        seq![BYTE_MINUS] + spec_dec(-n)
    } else {
        spec_dec(n)
    }
}

/// The encoding of a byte string: decimal length, colon, raw payload.
pub open spec fn spec_ser_bytes(b: Seq<u8>) -> Seq<u8> {
    spec_dec(b.len() as int) + seq![BYTE_COLON] + b
}

/// The canonical encoding of a value. For a well-formed value this is the
/// one and only byte sequence that parses back to it.
pub open spec fn spec_ser(v: BValue) -> Seq<u8>
    decreases v, 0int,
{
    match v {
        BValue::Int(n) => seq![BYTE_I] + spec_int(n) + seq![BYTE_E],
        BValue::Bytes(b) => spec_ser_bytes(b),
        BValue::List(items) => seq![BYTE_L] + ser_items(items, 0) + seq![BYTE_E],
        BValue::Dict(entries) => seq![BYTE_D] + ser_entries(entries, 0) + seq![BYTE_E],
    }
}

/// The concatenated encodings of `items[k..]`.
pub open spec fn ser_items(items: Seq<BValue>, k: int) -> Seq<u8>
    decreases items, items.len() - k,
{
    if k < 0 || k >= items.len() {
        Seq::empty()
    } else {
        spec_ser(items[k]) + ser_items(items, k + 1)
    }
}

/// The concatenated encodings of the entries `entries[k..]`: each key as a
/// byte string, immediately followed by its value.
pub open spec fn ser_entries(entries: Seq<(Seq<u8>, BValue)>, k: int) -> Seq<u8>
    decreases entries, entries.len() - k,
{
    if k < 0 || k >= entries.len() {
        Seq::empty()
    } else {
        spec_ser_bytes(entries[k].0) + spec_ser(entries[k].1) + ser_entries(entries, k + 1)
    }
}

/// Appends the decimal digits of `n` to `out`.
fn push_dec(out: &mut Vec<u8>, n: u64)
    ensures
        final(out)@ == old(out)@ + spec_dec(n as int),
    decreases n,
{
    if n >= 10 {
        push_dec(out, n / 10);
    }
    out.push((n % 10) as u8 + 48);
    proof {
        assert(out@ =~= old(out)@ + spec_dec(n as int));
    }
}

/// Appends the decimal spelling of `n`, sign included, to `out`.
fn push_int(out: &mut Vec<u8>, n: i64)
    ensures
        final(out)@ == old(out)@ + spec_int(n as int),
{
    if n < 0 {
        out.push(BYTE_MINUS);
        let mag: u64 = ((-(n + 1)) as u64) + 1;
        assert(mag as int == -(n as int));
        push_dec(out, mag);
        proof {
            assert(out@ =~= old(out)@ + spec_int(n as int));
        }
    } else {
        push_dec(out, n as u64);
    }
}

/// Appends the encoding of the byte string `b` to `out`.
fn push_ser_bytes(out: &mut Vec<u8>, b: &Vec<u8>)
    ensures
        final(out)@ == old(out)@ + spec_ser_bytes(b@),
{
    push_dec(out, b.len() as u64);
    out.push(BYTE_COLON);
    let ghost mid = out@;
    let mut t: usize = 0;
    while t < b.len()
        invariant
            0 <= t <= b@.len(),
            out@ == mid + b@.take(t as int),
        decreases b@.len() - t,
    {
        out.push(b[t]);
        proof {
            assert(out@ =~= mid + b@.take(t as int + 1));
        }
        t = t + 1;
    }
    proof {
        assert(b@.take(b@.len() as int) =~= b@);
        assert(out@ =~= old(out)@ + spec_ser_bytes(b@));
    }
}

impl Bencode {
    /// Serializes this value into its canonical byte encoding. Total: it
    /// cannot fail for any value, well formed or not.
    pub fn serialize(&self) -> (out: Vec<u8>)
        ensures
            out@ == spec_ser(self@),
    {
        let mut out: Vec<u8> = Vec::new();
        self.serialize_into(&mut out);
        out
    }

    /// Appends the canonical byte encoding of this value to `out`.
    pub fn serialize_into(&self, out: &mut Vec<u8>)
        ensures
            final(out)@ == old(out)@ + spec_ser((*self)@),
        decreases *self,
    {
        match self {
            Bencode::Int(n) => {
                out.push(BYTE_I);
                push_int(out, *n);
                out.push(BYTE_E);
                proof {
                    assert(out@ =~= old(out)@ + spec_ser((*self)@));
                }
            },
            Bencode::Bytes(b) => {
                push_ser_bytes(out, b);
                proof {
                    assert(out@ =~= old(out)@ + spec_ser((*self)@));
                }
            },
            Bencode::List(items) => {
                out.push(BYTE_L);
                let ghost vs = seq_bval(items@);
                let mut j: usize = 0;
                while j < items.len()
                    invariant
                        0 <= j <= items@.len(),
                        *self == Bencode::List(*items),
                        vs == seq_bval(items@),
                        out@ + ser_items(vs, j as int) == old(out)@ + seq![BYTE_L] + ser_items(
                            vs,
                            0,
                        ),
                    decreases items@.len() - j,
                {
                    let ghost prev = out@;
                    proof {
                        assert(decreases_to!(*self => self->List_0));
                        assert(*items == self->List_0);
                        assert(decreases_to!(*items => items@));
                        assert(decreases_to!(items@ => items@[j as int]));
                    }
                    items[j].serialize_into(out);
                    proof {
                        assert(items@[j as int]@ == vs[j as int]);
                        assert(out@ + ser_items(vs, j as int + 1) =~= prev + ser_items(
                            vs,
                            j as int,
                        ));
                    }
                    j = j + 1;
                }
                out.push(BYTE_E);
                proof {
                    assert(ser_items(vs, items@.len() as int) =~= Seq::<u8>::empty());
                    assert(out@ =~= old(out)@ + spec_ser((*self)@));
                }
            },
            Bencode::Dict(entries) => {
                out.push(BYTE_D);
                let ghost es = entries_bval(entries@);
                let mut j: usize = 0;
                while j < entries.len()
                    invariant
                        0 <= j <= entries@.len(),
                        *self == Bencode::Dict(*entries),
                        es == entries_bval(entries@),
                        out@ + ser_entries(es, j as int) == old(out)@ + seq![BYTE_D] + ser_entries(
                            es,
                            0,
                        ),
                    decreases entries@.len() - j,
                {
                    let ghost prev = out@;
                    push_ser_bytes(out, &entries[j].0);
                    proof {
                        assert(decreases_to!(*self => self->Dict_0));
                        assert(*entries == self->Dict_0);
                        assert(decreases_to!(*entries => entries@));
                        assert(decreases_to!(entries@ => entries@[j as int]));
                        assert(decreases_to!(entries@[j as int] => entries@[j as int].1));
                    }
                    entries[j].1.serialize_into(out);
                    proof {
                        assert(entries@[j as int].0@ == es[j as int].0);
                        assert(entries@[j as int].1@ == es[j as int].1);
                        assert(out@ + ser_entries(es, j as int + 1) =~= prev + ser_entries(
                            es,
                            j as int,
                        ));
                    }
                    j = j + 1;
                }
                out.push(BYTE_E);
                proof {
                    assert(ser_entries(es, entries@.len() as int) =~= Seq::<u8>::empty());
                    assert(out@ =~= old(out)@ + spec_ser((*self)@));
                }
            },
        }
    }
}

} // verus!
