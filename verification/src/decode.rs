//! The bencode parser: a mathematical recursive-descent grammar over byte
//! sequences, and the verified executable parser that follows it exactly.
use vstd::prelude::*;

use crate::value::{
    entries_bval, lex_lt, seq_bval, BValue, Bencode, BYTE_COLON, BYTE_D, BYTE_E, BYTE_I, BYTE_L,
    BYTE_MINUS, BYTE_ZERO,
};

verus! {

broadcast use vstd::std_specs::vec::group_vec_axioms;

/// The two failure classes a parse can end in.
///
/// `EndOfInput` means the parser needed at least one more byte and none was
/// available; `InvalidGrammar` means a byte was present but violated the
/// format (including non-canonical spellings and out-of-range integers).
#[derive(Clone, Copy, PartialEq, Eq, Structural, Debug)]
pub enum ParseError {
    EndOfInput,
    InvalidGrammar,
}

/// Largest magnitude a negative integer may reach: `-i64::MIN`.
pub const NEG_LIMIT: u64 = 9223372036854775808;

/// Largest magnitude a non-negative integer may reach: `i64::MAX`.
pub const POS_LIMIT: u64 = 9223372036854775807;

/// True of the ASCII digits `'0'` through `'9'`.
pub open spec fn is_digit(b: u8) -> bool {
    48 <= b <= 57
}

/// Outcome of scanning a digit run: the accumulated value and the position
/// one past the terminator, or a failure.
pub enum NumOut {
    NumFound(int, int),
    NumFail(ParseError),
}

/// Outcome of parsing one value: the value and how many bytes it consumed,
/// or a failure.
pub enum ParseOut {
    Found(BValue, int),
    Fail(ParseError),
}

/// Outcome of parsing the elements of a list up to and including the
/// terminating `'e'`.
pub enum ItemsOut {
    ItemsFound(Seq<BValue>, int),
    ItemsFail(ParseError),
}

/// Outcome of parsing the entries of a dictionary up to and including the
/// terminating `'e'`.
pub enum EntriesOut {
    EntriesFound(Seq<(Seq<u8>, BValue)>, int),
    EntriesFail(ParseError),
}

/// Scans decimal digits from position `i`, accumulating onto `acc`, until
/// the byte `term`; fails with `InvalidGrammar` on any other byte or when a
/// `limit` is given and exceeded, and with `EndOfInput` at the end of `s`.
pub open spec fn scan_num(s: Seq<u8>, i: int, acc: int, limit: Option<int>, term: u8) -> NumOut
    decreases s.len() - i,
{
    if i < 0 || i >= s.len() {
        NumOut::NumFail(ParseError::EndOfInput)
    } else if s[i] == term {
        NumOut::NumFound(acc, i + 1)
    } else if is_digit(s[i]) {
        let a2 = acc * 10 + (s[i] - 48);
        if limit matches Option::Some(l) && a2 > l {
            NumOut::NumFail(ParseError::InvalidGrammar)
        } else {
            scan_num(s, i + 1, a2, limit, term)
        }
    } else {
        NumOut::NumFail(ParseError::InvalidGrammar)
    }
}

/// Parses an integer token `i...e` standing at the head of `s`. Rejects a
/// lone `'-'`, `-0`, leading zeros, empty digit runs, and any magnitude
/// outside the signed 64-bit range.
pub open spec fn pint(s: Seq<u8>) -> ParseOut
    recommends
        s.len() >= 1 && s[0] == BYTE_I,
{
    if s.len() < 2 {
        ParseOut::Fail(ParseError::EndOfInput)
    } else if s[1] == BYTE_MINUS {
        if s.len() < 3 {
            ParseOut::Fail(ParseError::EndOfInput)
        } else if !is_digit(s[2]) || s[2] == BYTE_ZERO {
            ParseOut::Fail(ParseError::InvalidGrammar)
        } else {
            match scan_num(s, 3, (s[2] - 48) as int, Option::Some(NEG_LIMIT as int), BYTE_E) {
                NumOut::NumFound(m, j) => ParseOut::Found(BValue::Int(-m), j),
                NumOut::NumFail(e) => ParseOut::Fail(e),
            }
        }
    } else if s[1] == BYTE_ZERO {
        if s.len() < 3 {
            ParseOut::Fail(ParseError::EndOfInput)
        } else if s[2] == BYTE_E {
            ParseOut::Found(BValue::Int(0), 3)
        } else {
            ParseOut::Fail(ParseError::InvalidGrammar)
        }
    } else if is_digit(s[1]) {
        match scan_num(s, 2, (s[1] - 48) as int, Option::Some(POS_LIMIT as int), BYTE_E) {
            NumOut::NumFound(m, j) => ParseOut::Found(BValue::Int(m), j),
            NumOut::NumFail(e) => ParseOut::Fail(e),
        }
    } else {
        ParseOut::Fail(ParseError::InvalidGrammar)
    }
}

/// Parses a byte string token `<len>:<payload>` standing at the head of
/// `s`. Rejects a leading zero unless the length is exactly `"0"`; a
/// declared length reaching past the end of `s` is an end-of-input failure.
pub open spec fn pbytes(s: Seq<u8>) -> ParseOut
    recommends
        s.len() >= 1 && is_digit(s[0]),
{
    if s[0] == BYTE_ZERO {
        if s.len() < 2 {
            ParseOut::Fail(ParseError::EndOfInput)
        } else if s[1] == BYTE_COLON {
            ParseOut::Found(BValue::Bytes(Seq::empty()), 2)
        } else {
            ParseOut::Fail(ParseError::InvalidGrammar)
        }
    } else {
        match scan_num(s, 1, (s[0] - 48) as int, Option::None, BYTE_COLON) {
            NumOut::NumFail(e) => ParseOut::Fail(e),
            NumOut::NumFound(n, j) => {
                if j + n <= s.len() {
                    ParseOut::Found(BValue::Bytes(s.subrange(j, j + n)), j + n)
                } else {
                    ParseOut::Fail(ParseError::EndOfInput)
                }
            },
        }
    }
}

/// Parses one value standing at the head of `s`: the byte of lookahead
/// dispatches on `'i'`, a digit, `'l'` or `'d'`; anything else is a grammar
/// failure and an empty `s` an end-of-input failure.
pub open spec fn pval(s: Seq<u8>) -> ParseOut
    decreases s.len(), 0int,
{
    if s.len() == 0 {
        ParseOut::Fail(ParseError::EndOfInput)
    } else if s[0] == BYTE_I {
        pint(s)
    } else if is_digit(s[0]) {
        pbytes(s)
    } else if s[0] == BYTE_L {
        match plist(s.skip(1)) {
            ItemsOut::ItemsFound(items, n) => ParseOut::Found(BValue::List(items), 1 + n),
            ItemsOut::ItemsFail(e) => ParseOut::Fail(e),
        }
    } else if s[0] == BYTE_D {
        match pdict(s.skip(1), Option::None) {
            EntriesOut::EntriesFound(entries, n) => ParseOut::Found(BValue::Dict(entries), 1 + n),
            EntriesOut::EntriesFail(e) => ParseOut::Fail(e),
        }
    } else {
        ParseOut::Fail(ParseError::InvalidGrammar)
    }
}

/// Parses list elements from the head of `s` until a terminating `'e'`,
/// returning them in order together with the bytes consumed.
pub open spec fn plist(s: Seq<u8>) -> ItemsOut
    decreases s.len(), 1int,
{
    if s.len() == 0 {
        ItemsOut::ItemsFail(ParseError::EndOfInput)
    } else if s[0] == BYTE_E {
        ItemsOut::ItemsFound(Seq::empty(), 1)
    } else {
        match pval(s) {
            ParseOut::Fail(e) => ItemsOut::ItemsFail(e),
            ParseOut::Found(v, n) => {
                if 1 <= n <= s.len() {
                    match plist(s.skip(n)) {
                        ItemsOut::ItemsFail(e) => ItemsOut::ItemsFail(e),
                        ItemsOut::ItemsFound(rest, m) => ItemsOut::ItemsFound(
                            seq![v] + rest,
                            n + m,
                        ),
                    }
                } else {
                    ItemsOut::ItemsFail(ParseError::InvalidGrammar)
                }
            },
        }
    }
}

/// Parses dictionary entries from the head of `s` until a terminating
/// `'e'`. Each key must be a byte string strictly greater than the previous
/// key `prev`; a violation is reported as soon as the key has been read,
/// before its value is parsed.
pub open spec fn pdict(s: Seq<u8>, prev: Option<Seq<u8>>) -> EntriesOut
    decreases s.len(), 2int,
{
    if s.len() == 0 {
        EntriesOut::EntriesFail(ParseError::EndOfInput)
    } else if s[0] == BYTE_E {
        EntriesOut::EntriesFound(Seq::empty(), 1)
    } else if !is_digit(s[0]) {
        EntriesOut::EntriesFail(ParseError::InvalidGrammar)
    } else {
        match pbytes(s) {
            ParseOut::Fail(e) => EntriesOut::EntriesFail(e),
            ParseOut::Found(kv, n) => match kv {
                BValue::Bytes(k) => {
                    let ord_ok = match prev {
                        Option::None => true,
                        Option::Some(p) => lex_lt(p, k),
                    };
                    if !ord_ok {
                        EntriesOut::EntriesFail(ParseError::InvalidGrammar)
                    } else if 1 <= n <= s.len() {
                        match pval(s.skip(n)) {
                            ParseOut::Fail(e) => EntriesOut::EntriesFail(e),
                            ParseOut::Found(w, m) => {
                                if 1 <= m <= s.len() - n {
                                    match pdict(s.skip(n + m), Option::Some(k)) {
                                        EntriesOut::EntriesFail(e) => EntriesOut::EntriesFail(e),
                                        EntriesOut::EntriesFound(rest, r) => {
                                            EntriesOut::EntriesFound(
                                                seq![(k, w)] + rest,
                                                n + m + r,
                                            )
                                        },
                                    }
                                } else {
                                    EntriesOut::EntriesFail(ParseError::InvalidGrammar)
                                }
                            },
                        }
                    } else {
                        EntriesOut::EntriesFail(ParseError::InvalidGrammar)
                    }
                },
                _ => EntriesOut::EntriesFail(ParseError::InvalidGrammar),
            },
        }
    }
}

/// The whole-input grammar: one value that consumes every byte of `s`.
/// Trailing bytes after a complete value are a grammar failure.
pub open spec fn spec_parse(s: Seq<u8>) -> Result<BValue, ParseError> {
    match pval(s) {
        ParseOut::Fail(e) => Result::Err(e),
        ParseOut::Found(v, n) => {
            if n == s.len() {
                Result::Ok(v)
            } else {
                Result::Err(ParseError::InvalidGrammar)
            }
        },
    }
}

/// The view of an optional key.
pub open spec fn key_view(prev: Option<Vec<u8>>) -> Option<Seq<u8>> {
    match prev {
        Option::None => Option::None,
        Option::Some(k) => Option::Some(k@),
    }
}

/// Copies a byte string.
fn clone_bytes(v: &Vec<u8>) -> (r: Vec<u8>)
    ensures
        r@ == v@,
{
    let mut r: Vec<u8> = Vec::new();
    let mut t: usize = 0;
    while t < v.len()
        invariant
            0 <= t <= v@.len(),
            r@ == v@.take(t as int),
        decreases v@.len() - t,
    {
        r.push(v[t]);
        proof {
            assert(r@ =~= v@.take(t as int + 1));
        }
        t = t + 1;
    }
    proof {
        assert(v@.take(v@.len() as int) =~= v@);
    }
    r
}

/// Parses the integer token starting at position `i` (which holds `'i'`),
/// returning the value and the position one past its `'e'`.
#[verifier::loop_isolation(false)]
fn parse_int(s: &[u8], i: usize) -> (r: Result<(i64, usize), ParseError>)
    requires
        i < s@.len(),
        s@[i as int] == BYTE_I,
    ensures
        ({
            let out = pint(s@.skip(i as int));
            match r {
                Ok(p) => out == ParseOut::Found(BValue::Int(p.0 as int), p.1 - i) && i < p.1
                    <= s@.len(),
                Err(e) => out == ParseOut::Fail(e),
            }
        }),
{
    let ghost suf = s@.skip(i as int);
    let n = s.len();
    if n - i < 2 {
        return Err(ParseError::EndOfInput);
    }
    let c1 = s[i + 1];
    let neg: bool;
    let limit: u64;
    let pos: usize;
    if c1 == BYTE_MINUS {
        if n - i < 3 {
            return Err(ParseError::EndOfInput);
        }
        let c2 = s[i + 2];
        if !(49 <= c2 && c2 <= 57) {
            return Err(ParseError::InvalidGrammar);
        }
        neg = true;
        limit = NEG_LIMIT;
        pos = i + 2;
    } else if c1 == BYTE_ZERO {
        if n - i < 3 {
            return Err(ParseError::EndOfInput);
        }
        if s[i + 2] == BYTE_E {
            return Ok((0i64, i + 3));
        }
        return Err(ParseError::InvalidGrammar);
    } else if 49 <= c1 && c1 <= 57 {
        neg = false;
        limit = POS_LIMIT;
        pos = i + 1;
    } else {
        return Err(ParseError::InvalidGrammar);
    }
    let mut acc: u64 = (s[pos] - 48) as u64;
    let ghost lim_opt = Option::Some(limit as int);
    let ghost tgt = scan_num(suf, (pos + 1 - i) as int, acc as int, lim_opt, BYTE_E);
    let mut k: usize = pos + 1;
    loop
        invariant
            pos < k <= n,
            1 <= acc <= limit,
            scan_num(suf, (k - i) as int, acc as int, lim_opt, BYTE_E) == tgt,
        decreases n - k,
    {
        if k >= n {
            return Err(ParseError::EndOfInput);
        }
        let c = s[k];
        if c == BYTE_E {
            let v: i64 = if neg {
                if acc == NEG_LIMIT {
                    i64::MIN
                } else {
                    -(acc as i64)
                }
            } else {
                acc as i64
            };
            return Ok((v, k + 1));
        }
        if c < 48 || c > 57 {
            return Err(ParseError::InvalidGrammar);
        }
        let wide: u128 = (acc as u128) * 10 + ((c - 48) as u128);
        if wide > (limit as u128) {
            return Err(ParseError::InvalidGrammar);
        }
        acc = wide as u64;
        k = k + 1;
    }
}

/// Parses the byte string token starting at position `i` (which holds a
/// digit), returning the payload and the position one past it.
#[verifier::loop_isolation(false)]
fn parse_bytes(s: &[u8], i: usize) -> (r: Result<(Vec<u8>, usize), ParseError>)
    requires
        i < s@.len(),
        is_digit(s@[i as int]),
    ensures
        ({
            let out = pbytes(s@.skip(i as int));
            match r {
                Ok(p) => out == ParseOut::Found(BValue::Bytes(p.0@), p.1 - i) && i < p.1
                    <= s@.len(),
                Err(e) => out == ParseOut::Fail(e),
            }
        }),
{
    let ghost suf = s@.skip(i as int);
    let n = s.len();
    if s[i] == BYTE_ZERO {
        if n - i < 2 {
            return Err(ParseError::EndOfInput);
        }
        if s[i + 1] == BYTE_COLON {
            let b: Vec<u8> = Vec::new();
            proof {
                assert(b@ =~= Seq::<u8>::empty());
            }
            return Ok((b, i + 2));
        }
        return Err(ParseError::InvalidGrammar);
    }
    let mut acc: usize = (s[i] - 48) as usize;
    let ghost mut gacc: int = acc as int;
    let ghost tgt = scan_num(suf, 1int, gacc, Option::None, BYTE_COLON);
    let mut too_big: bool = false;
    let mut k: usize = i + 1;
    loop
        invariant
            i < k <= n,
            1 <= gacc,
            !too_big ==> gacc == acc as int,
            too_big ==> gacc > usize::MAX as int,
            scan_num(suf, (k - i) as int, gacc, Option::None, BYTE_COLON) == tgt,
        decreases n - k,
    {
        if k >= n {
            return Err(ParseError::EndOfInput);
        }
        let c = s[k];
        if c == BYTE_COLON {
            // the declared length is gacc; the payload starts at k + 1
            if too_big {
                return Err(ParseError::EndOfInput);
            }
            if acc > n - k - 1 {
                return Err(ParseError::EndOfInput);
            }
            let mut b: Vec<u8> = Vec::new();
            let mut t: usize = 0;
            while t < acc
                invariant
                    0 <= t <= acc,
                    k + 1 + acc <= n,
                    b@ == s@.subrange((k + 1) as int, (k + 1 + t) as int),
                decreases acc - t,
            {
                b.push(s[k + 1 + t]);
                proof {
                    assert(b@ =~= s@.subrange((k + 1) as int, (k + 1 + t + 1) as int));
                }
                t = t + 1;
            }
            proof {
                assert(b@ =~= suf.subrange((k + 1 - i) as int, (k + 1 + acc - i) as int));
            }
            return Ok((b, k + 1 + acc));
        }
        if c < 48 || c > 57 {
            return Err(ParseError::InvalidGrammar);
        }
        proof {
            gacc = gacc * 10 + (c - 48) as int;
        }
        if !too_big {
            let wide: u128 = (acc as u128) * 10 + ((c - 48) as u128);
            if wide > (usize::MAX as u128) {
                too_big = true;
            } else {
                acc = wide as usize;
            }
        }
        k = k + 1;
    }
}

/// Parses one value starting at position `i`, returning it together with
/// the position one past its encoding.
fn parse_value(s: &[u8], i: usize) -> (r: Result<(Bencode, usize), ParseError>)
    requires
        i <= s@.len(),
    ensures
        ({
            let out = pval(s@.skip(i as int));
            match r {
                Ok(p) => out == ParseOut::Found(p.0@, p.1 - i) && i < p.1 <= s@.len(),
                Err(e) => out == ParseOut::Fail(e),
            }
        }),
    decreases s@.len() - i, 1int,
{
    let ghost suf = s@.skip(i as int);
    if i >= s.len() {
        return Err(ParseError::EndOfInput);
    }
    let c = s[i];
    if c == BYTE_I {
        match parse_int(s, i) {
            Ok((v, j)) => Ok((Bencode::Int(v), j)),
            Err(e) => Err(e),
        }
    } else if 48 <= c && c <= 57 {
        match parse_bytes(s, i) {
            Ok((b, j)) => Ok((Bencode::Bytes(b), j)),
            Err(e) => Err(e),
        }
    } else if c == BYTE_L {
        proof {
            assert(suf.skip(1) =~= s@.skip(i + 1));
        }
        match parse_list_items(s, i + 1) {
            Ok((items, j)) => Ok((Bencode::List(items), j)),
            Err(e) => Err(e),
        }
    } else if c == BYTE_D {
        proof {
            assert(suf.skip(1) =~= s@.skip(i + 1));
        }
        match parse_dict_entries(s, i + 1, None) {
            Ok((entries, j)) => Ok((Bencode::Dict(entries), j)),
            Err(e) => Err(e),
        }
    } else {
        Err(ParseError::InvalidGrammar)
    }
}

/// Parses list elements starting at position `i` until the matching `'e'`,
/// returning them and the position one past that `'e'`.
fn parse_list_items(s: &[u8], i: usize) -> (r: Result<(Vec<Bencode>, usize), ParseError>)
    requires
        i <= s@.len(),
    ensures
        ({
            let out = plist(s@.skip(i as int));
            match r {
                Ok(p) => out == ItemsOut::ItemsFound(seq_bval(p.0@), p.1 - i) && i < p.1
                    <= s@.len(),
                Err(e) => out == ItemsOut::ItemsFail(e),
            }
        }),
    decreases s@.len() - i, 2int,
{
    let ghost suf = s@.skip(i as int);
    if i >= s.len() {
        return Err(ParseError::EndOfInput);
    }
    if s[i] == BYTE_E {
        let items: Vec<Bencode> = Vec::new();
        proof {
            assert(seq_bval(items@) =~= Seq::<BValue>::empty());
        }
        return Ok((items, i + 1));
    }
    let (v, j) = match parse_value(s, i) {
        Ok(p) => p,
        Err(e) => return Err(e),
    };
    proof {
        assert(suf.skip(j - i) =~= s@.skip(j as int));
    }
    let (mut rest, m) = match parse_list_items(s, j) {
        Ok(p) => p,
        Err(e) => return Err(e),
    };
    let ghost old_rest = rest@;
    rest.insert(0, v);
    proof {
        assert(seq_bval(rest@) =~= seq![v@] + seq_bval(old_rest));
    }
    Ok((rest, m))
}

/// Parses dictionary entries starting at position `i` until the matching
/// `'e'`, checking that each key is strictly greater than `prev`, and
/// returning the entries and the position one past that `'e'`.
fn parse_dict_entries(s: &[u8], i: usize, prev: Option<Vec<u8>>) -> (r: Result<
    (Vec<(Vec<u8>, Bencode)>, usize),
    ParseError,
>)
    requires
        i <= s@.len(),
    ensures
        ({
            let out = pdict(s@.skip(i as int), key_view(prev));
            match r {
                Ok(p) => out == EntriesOut::EntriesFound(entries_bval(p.0@), p.1 - i) && i < p.1
                    <= s@.len(),
                Err(e) => out == EntriesOut::EntriesFail(e),
            }
        }),
    decreases s@.len() - i, 2int,
{
    let ghost suf = s@.skip(i as int);
    if i >= s.len() {
        return Err(ParseError::EndOfInput);
    }
    let c = s[i];
    if c == BYTE_E {
        let entries: Vec<(Vec<u8>, Bencode)> = Vec::new();
        proof {
            assert(entries_bval(entries@) =~= Seq::<(Seq<u8>, BValue)>::empty());
        }
        return Ok((entries, i + 1));
    }
    if !(48 <= c && c <= 57) {
        return Err(ParseError::InvalidGrammar);
    }
    let (key, j) = match parse_bytes(s, i) {
        Ok(p) => p,
        Err(e) => return Err(e),
    };
    match &prev {
        Some(p) => {
            if !crate::value::key_less(p, &key) {
                return Err(ParseError::InvalidGrammar);
            }
        },
        None => {},
    }
    proof {
        assert(suf.skip(j - i) =~= s@.skip(j as int));
    }
    let (w, m) = match parse_value(s, j) {
        Ok(p) => p,
        Err(e) => return Err(e),
    };
    proof {
        assert(suf.skip(m - i) =~= s@.skip(m as int));
    }
    let key2 = clone_bytes(&key);
    let (mut rest, r2) = match parse_dict_entries(s, m, Some(key2)) {
        Ok(p) => p,
        Err(e) => return Err(e),
    };
    let ghost old_rest = rest@;
    rest.insert(0, (key, w));
    proof {
        assert(entries_bval(rest@) =~= seq![(key@, w@)] + entries_bval(old_rest));
    }
    Ok((rest, r2))
}

impl Bencode {
    /// Parses a complete bencode document: exactly one value that consumes
    /// the whole input. Returns `EndOfInput` when the input stops before the
    /// value is complete, and `InvalidGrammar` on any malformed or
    /// non-canonical byte, including trailing bytes after the value.
    pub fn parse(input: &[u8]) -> (r: Result<Bencode, ParseError>)
        ensures
            ({
                let sp = spec_parse(input@);
                match r {
                    Ok(v) => sp == Result::<BValue, ParseError>::Ok(v@),
                    Err(e) => sp == Result::<BValue, ParseError>::Err(e),
                }
            }),
    {
        proof {
            assert(input@.skip(0) =~= input@);
        }
        match parse_value(input, 0) {
            Err(e) => Err(e),
            Ok((v, j)) => {
                if j == input.len() {
                    Ok(v)
                } else {
                    Err(ParseError::InvalidGrammar)
                }
            },
        }
    }
}

} // verus!
