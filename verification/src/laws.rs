//! The two round-trip laws of the codec: a successful parse re-serializes
//! to its exact input, and serializing any well-formed value parses back to
//! that value. Proved by induction over the grammar.
use vstd::prelude::*;

use crate::decode::{
    is_digit, pbytes, pdict, pint, plist, pval, scan_num, spec_parse, EntriesOut, ItemsOut, NumOut,
    ParseError, ParseOut, NEG_LIMIT, POS_LIMIT,
};
use crate::encode::{ser_entries, ser_items, spec_dec, spec_int, spec_ser, spec_ser_bytes};
use crate::value::{
    lex_lt, wf, BValue, BYTE_COLON, BYTE_D, BYTE_E, BYTE_I, BYTE_L, BYTE_MINUS, BYTE_ZERO,
};

verus! {

/// Every byte of a decimal spelling is an ASCII digit.
proof fn lemma_dec_digits(m: int)
    requires
        m >= 0,
    ensures
        spec_dec(m).len() >= 1,
        forall|j: int| 0 <= j < spec_dec(m).len() ==> is_digit(#[trigger] spec_dec(m)[j]),
    decreases m,
{
    if m > 9 {
        lemma_dec_digits(m / 10);
    }
}

/// A positive number's decimal spelling does not start with `'0'`.
proof fn lemma_dec_nlz(m: int)
    requires
        m >= 1,
    ensures
        spec_dec(m)[0] != BYTE_ZERO,
    decreases m,
{
    if m > 9 {
        lemma_dec_nlz(m / 10);
        lemma_dec_digits(m / 10);
    }
}

/// The value that a digit run denotes when accumulated left to right onto
/// a value already read.
pub open spec fn acc_val(a: int, ds: Seq<u8>) -> int
    decreases ds.len(),
{
    if ds.len() == 0 {
        a
    } else {
        acc_val(a * 10 + (ds[0] - 48), ds.skip(1))
    }
}

/// Accumulating digits never shrinks the value.
proof fn lemma_acc_val_mono(a: int, ds: Seq<u8>)
    requires
        a >= 0,
        forall|j: int| 0 <= j < ds.len() ==> is_digit(#[trigger] ds[j]),
    ensures
        acc_val(a, ds) >= a,
    decreases ds.len(),
{
    if ds.len() > 0 {
        lemma_acc_val_mono(a * 10 + (ds[0] - 48), ds.skip(1));
    }
}

/// Accumulating one more digit multiplies by ten and adds it.
proof fn lemma_acc_val_snoc(a: int, ds: Seq<u8>, d: u8)
    ensures
        acc_val(a, ds.push(d)) == acc_val(a, ds) * 10 + (d - 48),
    decreases ds.len(),
{
    if ds.len() == 0 {
        assert(ds.push(d)[0] == d);
        assert(ds.push(d).skip(1) =~= Seq::<u8>::empty());
        assert(acc_val(a * 10 + (d - 48), Seq::<u8>::empty()) == a * 10 + (d - 48));
    } else {
        assert(ds.push(d).skip(1) =~= ds.skip(1).push(d));
        lemma_acc_val_snoc(a * 10 + (ds[0] - 48), ds.skip(1), d);
    }
}

/// Accumulating the decimal spelling of `m` from its first digit yields `m`.
proof fn lemma_dec_acc(m: int)
    requires
        m >= 0,
    ensures
        acc_val((spec_dec(m)[0] - 48) as int, spec_dec(m).skip(1)) == m,
    decreases m,
{
    if m <= 9 {
        assert(spec_dec(m).skip(1) =~= Seq::<u8>::empty());
    } else {
        lemma_dec_acc(m / 10);
        lemma_dec_digits(m / 10);
        let hd = spec_dec(m / 10);
        let last = ((m % 10) + 48) as u8;
        assert(spec_dec(m)[0] == hd[0]);
        assert(spec_dec(m).skip(1) =~= hd.skip(1).push(last));
        lemma_acc_val_snoc((hd[0] - 48) as int, hd.skip(1), last);
        vstd::arithmetic::div_mod::lemma_fundamental_div_mod(m, 10);
    }
}

/// What a successful digit scan says of its input: the bytes it crossed are
/// exactly the decimal spelling of the value it returned, continued from
/// the digits already accumulated.
proof fn lemma_scan_sound(s: Seq<u8>, i: int, acc: int, limit: Option<int>, term: u8, m: int, j: int)
    requires
        0 <= i,
        acc >= 1,
        limit matches Option::Some(l) ==> acc <= l,
        scan_num(s, i, acc, limit, term) == NumOut::NumFound(m, j),
    ensures
        i < j <= s.len(),
        s[j - 1] == term,
        m >= acc,
        limit matches Option::Some(l) ==> m <= l,
        spec_dec(m) == spec_dec(acc) + s.subrange(i, j - 1),
    decreases s.len() - i,
{
    if s[i] == term {
        assert(spec_dec(m) =~= spec_dec(acc) + s.subrange(i, j - 1));
    } else {
        let d = (s[i] - 48) as int;
        let a2 = acc * 10 + d;
        lemma_scan_sound(s, i + 1, a2, limit, term, m, j);
        assert(a2 / 10 == acc && a2 % 10 == d) by (nonlinear_arith)
            requires
                acc >= 1,
                0 <= d < 10,
                a2 == acc * 10 + d,
        ;
        assert(spec_dec(a2) == spec_dec(acc) + seq![s[i]]);
        assert(spec_dec(acc) + s.subrange(i, j - 1) =~= (spec_dec(acc) + seq![s[i]]) + s.subrange(
            i + 1,
            j - 1,
        ));
    }
}

/// A digit scan over exactly the digits `ds` followed by the terminator
/// succeeds and accumulates their value.
proof fn lemma_scan_complete(s: Seq<u8>, i: int, a: int, limit: Option<int>, term: u8, ds: Seq<u8>)
    requires
        0 <= i,
        a >= 1,
        !is_digit(term),
        forall|j: int| 0 <= j < ds.len() ==> is_digit(#[trigger] ds[j]),
        i + ds.len() < s.len(),
        s.subrange(i, i + ds.len()) == ds,
        s[i + ds.len()] == term,
        limit matches Option::Some(l) ==> acc_val(a, ds) <= l,
    ensures
        scan_num(s, i, a, limit, term) == NumOut::NumFound(acc_val(a, ds), i + ds.len() + 1),
    decreases ds.len(),
{
    if ds.len() == 0 {
        assert(s[i] == term);
    } else {
        assert(s[i] == ds[0]);
        let a2 = a * 10 + (s[i] - 48);
        if limit matches Option::Some(l) {
            lemma_acc_val_mono(a2, ds.skip(1));
        }
        assert(s.subrange(i + 1, i + 1 + ds.skip(1).len()) =~= ds.skip(1));
        lemma_scan_complete(s, i + 1, a2, limit, term, ds.skip(1));
    }
}

/// A successfully parsed integer token is well formed and its bytes are the
/// canonical integer encoding.
proof fn lemma_pint_sound(s: Seq<u8>, v: BValue, n: int)
    requires
        s.len() >= 1,
        s[0] == BYTE_I,
        pint(s) == ParseOut::Found(v, n),
    ensures
        1 <= n <= s.len(),
        wf(v),
        spec_ser(v) == s.take(n),
{
    if s[1] == BYTE_MINUS {
        let d0 = (s[2] - 48) as int;
        let m = v->Int_0 * -1;
        lemma_scan_sound(s, 3, d0, Option::Some(NEG_LIMIT as int), BYTE_E, m, n);
        assert(spec_dec(d0) =~= seq![s[2]]);
        assert(spec_dec(m) =~= s.subrange(2, n - 1));
        lemma_dec_digits(m);
        assert(spec_ser(v) =~= s.take(n));
    } else if s[1] == BYTE_ZERO {
        assert(spec_dec(0) =~= seq![BYTE_ZERO]);
        assert(spec_ser(v) =~= s.take(3));
    } else {
        let d0 = (s[1] - 48) as int;
        let m = v->Int_0;
        lemma_scan_sound(s, 2, d0, Option::Some(POS_LIMIT as int), BYTE_E, m, n);
        assert(spec_dec(d0) =~= seq![s[1]]);
        assert(spec_dec(m) =~= s.subrange(1, n - 1));
        assert(spec_ser(v) =~= s.take(n));
    }
}

/// A successfully parsed byte-string token's bytes are the canonical byte
/// string encoding of its payload.
proof fn lemma_pbytes_sound(s: Seq<u8>, v: BValue, n: int)
    requires
        s.len() >= 1,
        is_digit(s[0]),
        pbytes(s) == ParseOut::Found(v, n),
    ensures
        1 <= n <= s.len(),
        wf(v),
        v is Bytes,
        spec_ser(v) == s.take(n),
{
    let b = v->Bytes_0;
    if s[0] == BYTE_ZERO {
        assert(spec_dec(0) =~= seq![BYTE_ZERO]);
        assert(spec_ser(v) =~= s.take(2));
    } else {
        let d0 = (s[0] - 48) as int;
        let out = scan_num(s, 1, d0, Option::None, BYTE_COLON);
        let nl = out->NumFound_0;
        let j = out->NumFound_1;
        lemma_scan_sound(s, 1, d0, Option::None, BYTE_COLON, nl, j);
        assert(spec_dec(d0) =~= seq![s[0]]);
        assert(spec_dec(nl) =~= s.subrange(0, j - 1));
        assert(b.len() == nl);
        assert(spec_ser(v) =~= s.take(n));
    }
}

/// An integer in range parses back from its canonical encoding, whatever
/// follows it.
proof fn lemma_pint_complete(k: int, rest: Seq<u8>)
    requires
        i64::MIN <= k <= i64::MAX,
    ensures
        pint(seq![BYTE_I] + spec_int(k) + seq![BYTE_E] + rest) == ParseOut::Found(
            BValue::Int(k),
            2 + spec_int(k).len() as int,
        ),
{
    let s = seq![BYTE_I] + spec_int(k) + seq![BYTE_E] + rest;
    if k == 0 {
        assert(spec_dec(0) =~= seq![BYTE_ZERO]);
        assert(s[1] == BYTE_ZERO && s[2] == BYTE_E);
    } else if k > 0 {
        let dec = spec_dec(k);
        lemma_dec_digits(k);
        lemma_dec_nlz(k);
        assert(s[1] == dec[0]);
        let ds = dec.skip(1);
        lemma_dec_acc(k);
        assert(s.subrange(2, 2 + ds.len() as int) =~= ds);
        assert(s[2 + ds.len() as int] == BYTE_E);
        lemma_scan_complete(s, 2, (dec[0] - 48) as int, Option::Some(POS_LIMIT as int), BYTE_E, ds);
    } else {
        let m = -k;
        let dec = spec_dec(m);
        lemma_dec_digits(m);
        lemma_dec_nlz(m);
        assert(s[1] == BYTE_MINUS);
        assert(s[2] == dec[0]);
        let ds = dec.skip(1);
        lemma_dec_acc(m);
        assert(s.subrange(3, 3 + ds.len() as int) =~= ds);
        assert(s[3 + ds.len() as int] == BYTE_E);
        lemma_scan_complete(s, 3, (dec[0] - 48) as int, Option::Some(NEG_LIMIT as int), BYTE_E, ds);
    }
}

/// A byte string parses back from its canonical encoding, whatever follows.
proof fn lemma_pbytes_complete(b: Seq<u8>, rest: Seq<u8>)
    ensures
        pbytes(spec_ser_bytes(b) + rest) == ParseOut::Found(
            BValue::Bytes(b),
            spec_ser_bytes(b).len() as int,
        ),
{
    let s = spec_ser_bytes(b) + rest;
    let nl = b.len() as int;
    if nl == 0 {
        assert(spec_dec(0) =~= seq![BYTE_ZERO]);
        assert(s[0] == BYTE_ZERO && s[1] == BYTE_COLON);
        assert(b =~= Seq::<u8>::empty());
        assert(pbytes(s) == ParseOut::Found(BValue::Bytes(Seq::<u8>::empty()), 2));
    } else {
        let dec = spec_dec(nl);
        lemma_dec_digits(nl);
        lemma_dec_nlz(nl);
        assert(s[0] == dec[0]);
        let ds = dec.skip(1);
        lemma_dec_acc(nl);
        assert(s.subrange(1, 1 + ds.len() as int) =~= ds);
        assert(s[1 + ds.len() as int] == BYTE_COLON);
        lemma_scan_complete(s, 1, (dec[0] - 48) as int, Option::None, BYTE_COLON, ds);
        let j = dec.len() as int + 1;
        assert(scan_num(s, 1, (s[0] - 48) as int, Option::None, BYTE_COLON) == NumOut::NumFound(
            nl,
            j,
        ));
        assert(j + nl <= s.len());
        assert(pbytes(s) == ParseOut::Found(BValue::Bytes(s.subrange(j, j + nl)), j + nl));
        assert(s.subrange(j, j + nl) =~= b);
    }
}

/// Every canonical encoding is nonempty and cannot be mistaken for a
/// terminator.
proof fn lemma_ser_first(v: BValue)
    ensures
        spec_ser(v).len() >= 2,
        spec_ser(v)[0] != BYTE_E,
        v is Int ==> spec_ser(v)[0] == BYTE_I,
        v is Bytes ==> is_digit(spec_ser(v)[0]),
        v is List ==> spec_ser(v)[0] == BYTE_L,
        v is Dict ==> spec_ser(v)[0] == BYTE_D,
{
    match v {
        BValue::Int(n) => {
            lemma_dec_digits(if n < 0 { -n } else { n });
        },
        BValue::Bytes(b) => {
            lemma_dec_digits(b.len() as int);
            assert(spec_ser(v)[0] == spec_dec(b.len() as int)[0]);
        },
        BValue::List(_) => {},
        BValue::Dict(_) => {},
    }
}

/// Dropping the head of a sequence of values shifts the encoding of its
/// remainder by one position.
proof fn lemma_ser_items_shift(x: BValue, rest: Seq<BValue>, k: int)
    requires
        0 <= k <= rest.len(),
    ensures
        ser_items(seq![x] + rest, k + 1) == ser_items(rest, k),
    decreases rest.len() - k,
{
    if k < rest.len() {
        assert((seq![x] + rest)[k + 1] == rest[k]);
        lemma_ser_items_shift(x, rest, k + 1);
    }
}

/// Dropping the head entry of a dictionary shifts the encoding of its
/// remainder by one position.
proof fn lemma_ser_entries_shift(x: (Seq<u8>, BValue), rest: Seq<(Seq<u8>, BValue)>, k: int)
    requires
        0 <= k <= rest.len(),
    ensures
        ser_entries(seq![x] + rest, k + 1) == ser_entries(rest, k),
    decreases rest.len() - k,
{
    if k < rest.len() {
        assert((seq![x] + rest)[k + 1] == rest[k]);
        lemma_ser_entries_shift(x, rest, k + 1);
    }
}

/// Soundness of the value grammar: whatever parses is well formed and its
/// canonical encoding is exactly the bytes consumed.
pub proof fn lemma_pval_sound(s: Seq<u8>, v: BValue, n: int)
    requires
        pval(s) == ParseOut::Found(v, n),
    ensures
        1 <= n <= s.len(),
        wf(v),
        spec_ser(v) == s.take(n),
    decreases s.len(), 0int,
{
    if s[0] == BYTE_I {
        lemma_pint_sound(s, v, n);
    } else if is_digit(s[0]) {
        lemma_pbytes_sound(s, v, n);
    } else if s[0] == BYTE_L {
        let out = plist(s.skip(1));
        let items = out->ItemsFound_0;
        let m = out->ItemsFound_1;
        lemma_plist_sound(s.skip(1), items, m);
        assert(v == BValue::List(items) && n == 1 + m);
        assert(spec_ser(v) == seq![BYTE_L] + ser_items(items, 0) + seq![BYTE_E]);
        assert(spec_ser(v) =~= seq![BYTE_L] + (ser_items(items, 0) + seq![BYTE_E]));
        assert(spec_ser(v) =~= seq![BYTE_L] + s.skip(1).take(m));
        assert(spec_ser(v) =~= s.take(n));
    } else {
        let out = pdict(s.skip(1), Option::None);
        let entries = out->EntriesFound_0;
        let m = out->EntriesFound_1;
        lemma_pdict_sound(s.skip(1), Option::None, entries, m);
        assert(v == BValue::Dict(entries) && n == 1 + m);
        assert(spec_ser(v) == seq![BYTE_D] + ser_entries(entries, 0) + seq![BYTE_E]);
        assert(spec_ser(v) =~= seq![BYTE_D] + (ser_entries(entries, 0) + seq![BYTE_E]));
        assert(spec_ser(v) =~= seq![BYTE_D] + s.skip(1).take(m));
        assert(spec_ser(v) =~= s.take(n));
    }
}

/// Soundness of the list grammar: the parsed elements are well formed and
/// their encodings, with the closing terminator, are the bytes consumed.
proof fn lemma_plist_sound(s: Seq<u8>, items: Seq<BValue>, n: int)
    requires
        plist(s) == ItemsOut::ItemsFound(items, n),
    ensures
        1 <= n <= s.len(),
        wf(BValue::List(items)),
        ser_items(items, 0) + seq![BYTE_E] == s.take(n),
    decreases s.len(), 1int,
{
    if s[0] == BYTE_E {
        assert(ser_items(items, 0) + seq![BYTE_E] =~= s.take(1));
    } else {
        let out = pval(s);
        let v = out->Found_0;
        let nv = out->Found_1;
        lemma_pval_sound(s, v, nv);
        let out2 = plist(s.skip(nv));
        let rest = out2->ItemsFound_0;
        let m = out2->ItemsFound_1;
        lemma_plist_sound(s.skip(nv), rest, m);
        lemma_ser_items_shift(v, rest, 0);
        assert(items == seq![v] + rest);
        assert(items[0] == v);
        assert(ser_items(items, 1) == ser_items(rest, 0));
        assert(ser_items(items, 0) == spec_ser(v) + ser_items(rest, 0));
        assert(s.skip(nv).take(m) =~= s.subrange(nv, nv + m));
        assert(spec_ser(v) == s.take(nv));
        assert(ser_items(rest, 0) + seq![BYTE_E] == s.skip(nv).take(m));
        assert(ser_items(items, 0) + seq![BYTE_E] =~= s.take(nv) + (ser_items(rest, 0)
            + seq![BYTE_E]));
        assert(ser_items(items, 0) + seq![BYTE_E] =~= s.take(n));
        assert forall|i: int| 0 <= i < items.len() implies wf(#[trigger] items[i]) by {
            if i > 0 {
                assert(wf(BValue::List(rest)));
                assert(items[i] == rest[i - 1]);
                assert(rest[i - 1] == BValue::List(rest)->List_0[i - 1]);
                assert(wf(rest[i - 1]));
            } else {
                assert(wf(v));
            }
        }
    }
}

/// Soundness of the dictionary grammar: the parsed entries are well formed,
/// their keys strictly ascend, the first key lies above `prev`, and their
/// encodings with the closing terminator are the bytes consumed.
proof fn lemma_pdict_sound(
    s: Seq<u8>,
    prev: Option<Seq<u8>>,
    entries: Seq<(Seq<u8>, BValue)>,
    n: int,
)
    requires
        pdict(s, prev) == EntriesOut::EntriesFound(entries, n),
    ensures
        1 <= n <= s.len(),
        wf(BValue::Dict(entries)),
        prev matches Option::Some(p) ==> (entries.len() > 0 ==> lex_lt(p, entries[0].0)),
        ser_entries(entries, 0) + seq![BYTE_E] == s.take(n),
    decreases s.len(), 2int,
{
    if s[0] == BYTE_E {
        assert(ser_entries(entries, 0) + seq![BYTE_E] =~= s.take(1));
    } else {
        let out = pbytes(s);
        let kv = out->Found_0;
        let nb = out->Found_1;
        lemma_pbytes_sound(s, kv, nb);
        let k = kv->Bytes_0;
        let out2 = pval(s.skip(nb));
        let w = out2->Found_0;
        let m = out2->Found_1;
        lemma_pval_sound(s.skip(nb), w, m);
        let out3 = pdict(s.skip(nb + m), Option::Some(k));
        let rest = out3->EntriesFound_0;
        let r2 = out3->EntriesFound_1;
        assert(s.skip(nb).skip(m) =~= s.skip(nb + m));
        lemma_pdict_sound(s.skip(nb + m), Option::Some(k), rest, r2);
        lemma_ser_entries_shift((k, w), rest, 0);
        assert(entries == seq![(k, w)] + rest);
        assert(entries[0] == (k, w));
        assert(ser_entries(entries, 1) == ser_entries(rest, 0));
        assert(ser_entries(entries, 0) == spec_ser_bytes(k) + spec_ser(w) + ser_entries(rest, 0));
        assert(spec_ser(kv) == s.take(nb));
        assert(spec_ser_bytes(k) == s.take(nb));
        assert(s.skip(nb).take(m) =~= s.subrange(nb, nb + m));
        assert(spec_ser(w) == s.skip(nb).take(m));
        assert(s.skip(nb + m).take(r2) =~= s.subrange(nb + m, nb + m + r2));
        assert(ser_entries(rest, 0) + seq![BYTE_E] == s.skip(nb + m).take(r2));
        assert(ser_entries(entries, 0) + seq![BYTE_E] =~= (s.take(nb) + s.subrange(nb, nb + m))
            + s.subrange(nb + m, nb + m + r2));
        assert(ser_entries(entries, 0) + seq![BYTE_E] =~= s.take(n));
        assert forall|i: int| 0 <= i < entries.len() implies wf((#[trigger] entries[i]).1) by {
            if i > 0 {
                assert(wf(BValue::Dict(rest)));
                assert(entries[i] == rest[i - 1]);
                assert(rest[i - 1] == BValue::Dict(rest)->Dict_0[i - 1]);
                assert(wf(rest[i - 1].1));
            } else {
                assert(wf(w));
            }
        }
        assert forall|i: int| 0 <= i && i + 1 < entries.len() implies lex_lt(
            (#[trigger] entries[i]).0,
            entries[i + 1].0,
        ) by {
            assert(wf(BValue::Dict(rest)));
            if i == 0 {
                assert(entries[1] == rest[0]);
            } else {
                assert(entries[i] == rest[i - 1]);
                assert(entries[i + 1] == rest[i]);
                assert(rest[i - 1] == BValue::Dict(rest)->Dict_0[i - 1]);
                assert(rest[i] == BValue::Dict(rest)->Dict_0[i]);
                assert(lex_lt(rest[i - 1].0, rest[i].0));
            }
        }
    }
}

/// Completeness of the value grammar: the canonical encoding of any
/// well-formed value parses back to exactly that value, whatever follows.
pub proof fn lemma_pval_complete(v: BValue, rest: Seq<u8>)
    requires
        wf(v),
    ensures
        pval(spec_ser(v) + rest) == ParseOut::Found(v, spec_ser(v).len() as int),
    decreases v, 0int,
{
    let s = spec_ser(v) + rest;
    lemma_ser_first(v);
    match v {
        BValue::Int(k) => {
            assert(spec_ser(v) == seq![BYTE_I] + spec_int(k) + seq![BYTE_E]);
            assert(s =~= seq![BYTE_I] + spec_int(k) + seq![BYTE_E] + rest);
            lemma_pint_complete(k, rest);
            assert(s[0] == spec_ser(v)[0]);
        },
        BValue::Bytes(b) => {
            assert(s =~= spec_ser_bytes(b) + rest);
            lemma_pbytes_complete(b, rest);
            assert(s[0] == spec_ser(v)[0]);
            assert(is_digit(s[0]) && s[0] != BYTE_I);
        },
        BValue::List(items) => {
            assert(s.skip(1) =~= ser_items(items, 0) + seq![BYTE_E] + rest);
            assert(s[0] == spec_ser(v)[0]);
            assert forall|j: int| 0 <= j < items.len() implies wf(#[trigger] items[j]) by {
                assert(items[j] == BValue::List(items)->List_0[j]);
            }
            lemma_plist_complete(items, 0, rest);
            assert(items.skip(0) =~= items);
        },
        BValue::Dict(entries) => {
            assert(s.skip(1) =~= ser_entries(entries, 0) + seq![BYTE_E] + rest);
            assert(s[0] == spec_ser(v)[0]);
            assert forall|j: int| 0 <= j < entries.len() implies wf(
                (#[trigger] entries[j]).1,
            ) by {
                assert(entries[j] == BValue::Dict(entries)->Dict_0[j]);
            }
            assert forall|j: int| 0 <= j && j + 1 < entries.len() implies lex_lt(
                (#[trigger] entries[j]).0,
                entries[j + 1].0,
            ) by {
                assert(entries[j] == BValue::Dict(entries)->Dict_0[j]);
                assert(entries[j + 1] == BValue::Dict(entries)->Dict_0[j + 1]);
            }
            lemma_pdict_complete(entries, 0, Option::None, rest);
            assert(entries.skip(0) =~= entries);
        },
    }
}

/// Completeness of the list grammar, from position `k` of the elements on.
proof fn lemma_plist_complete(items: Seq<BValue>, k: int, rest: Seq<u8>)
    requires
        0 <= k <= items.len(),
        forall|j: int| 0 <= j < items.len() ==> wf(#[trigger] items[j]),
    ensures
        plist(ser_items(items, k) + seq![BYTE_E] + rest) == ItemsOut::ItemsFound(
            items.skip(k),
            ser_items(items, k).len() as int + 1,
        ),
    decreases items, items.len() - k,
{
    let s = ser_items(items, k) + seq![BYTE_E] + rest;
    if k == items.len() {
        assert(ser_items(items, k) =~= Seq::<u8>::empty());
        assert(s[0] == BYTE_E);
        assert(items.skip(k) =~= Seq::<BValue>::empty());
    } else {
        let x = items[k];
        lemma_ser_first(x);
        let tail = ser_items(items, k + 1) + seq![BYTE_E] + rest;
        assert(s =~= spec_ser(x) + tail);
        lemma_pval_complete(x, tail);
        let nv = spec_ser(x).len() as int;
        assert(s[0] == spec_ser(x)[0]);
        assert(s.skip(nv) =~= tail);
        lemma_plist_complete(items, k + 1, rest);
        assert(seq![x] + items.skip(k + 1) =~= items.skip(k));
    }
}

/// Completeness of the dictionary grammar, from entry `k` on: given keys
/// that ascend and a `prev` below the first remaining key, the encoded
/// entries parse back.
proof fn lemma_pdict_complete(
    entries: Seq<(Seq<u8>, BValue)>,
    k: int,
    prev: Option<Seq<u8>>,
    rest: Seq<u8>,
)
    requires
        0 <= k <= entries.len(),
        forall|j: int| 0 <= j < entries.len() ==> wf((#[trigger] entries[j]).1),
        forall|j: int|
            0 <= j && j + 1 < entries.len() ==> lex_lt((#[trigger] entries[j]).0, entries[j + 1].0),
        prev matches Option::Some(p) ==> (k < entries.len() ==> lex_lt(p, entries[k].0)),
    ensures
        pdict(ser_entries(entries, k) + seq![BYTE_E] + rest, prev) == EntriesOut::EntriesFound(
            entries.skip(k),
            ser_entries(entries, k).len() as int + 1,
        ),
    decreases entries, entries.len() - k,
{
    let s = ser_entries(entries, k) + seq![BYTE_E] + rest;
    if k == entries.len() {
        assert(ser_entries(entries, k) =~= Seq::<u8>::empty());
        assert(s[0] == BYTE_E);
        assert(entries.skip(k) =~= Seq::<(Seq<u8>, BValue)>::empty());
    } else {
        let key = entries[k].0;
        let w = entries[k].1;
        let tail1 = spec_ser(w) + ser_entries(entries, k + 1) + seq![BYTE_E] + rest;
        assert(s =~= spec_ser_bytes(key) + tail1);
        lemma_pbytes_complete(key, tail1);
        lemma_dec_digits(key.len() as int);
        assert(s[0] == spec_dec(key.len() as int)[0]);
        let nb = spec_ser_bytes(key).len() as int;
        let tail2 = ser_entries(entries, k + 1) + seq![BYTE_E] + rest;
        assert(s.skip(nb) =~= spec_ser(w) + tail2);
        lemma_pval_complete(w, tail2);
        lemma_ser_first(w);
        let nv = spec_ser(w).len() as int;
        assert(s.skip(nb + nv) =~= tail2);
        lemma_pdict_complete(entries, k + 1, Option::Some(key), rest);
        assert(seq![(key, w)] + entries.skip(k + 1) =~= entries.skip(k));
    }
}

/// Round-trip: any value produced by a successful whole-input parse of a
/// byte sequence `s` is well formed and re-serializes, byte for byte, to
/// exactly `s`.
pub proof fn lemma_parse_then_serialize(s: Seq<u8>, v: BValue)
    requires
        spec_parse(s) == Result::<BValue, ParseError>::Ok(v),
    ensures
        wf(v),
        spec_ser(v) == s,
{
    let out = pval(s);
    let n = out->Found_1;
    lemma_pval_sound(s, v, n);
    assert(s.take(s.len() as int) =~= s);
}

/// Canonical-uniqueness: parsing the serialization of any well-formed value
/// succeeds and reconstructs exactly that value.
pub proof fn lemma_serialize_then_parse(v: BValue)
    requires
        wf(v),
    ensures
        spec_parse(spec_ser(v)) == Result::<BValue, ParseError>::Ok(v),
{
    lemma_pval_complete(v, Seq::empty());
    assert(spec_ser(v) + Seq::<u8>::empty() =~= spec_ser(v));
}

} // verus!
