//! The grammar of the wire format as spec functions, and what is proved of
//! it: a value's encoding decodes back to it, and decoding reads only the
//! bytes that a value takes.
use vstd::prelude::*;
use vstd::utf8::{decode_utf8, encode_utf8, encode_utf8_decode_utf8, encode_utf8_valid_utf8, valid_utf8};
use crate::message::{
    crlf, decimal, encode, encode_items, WireValue, CR, LF, TAG_ARRAY, TAG_BULK, TAG_ERROR, TAG_SIMPLE,
};

verus! {

/// Why no value could be decoded.
#[derive(Clone, Copy, Debug, PartialEq, Eq, Structural)]
pub enum DecodeError {
    /// The input ended before the first byte of a value: the stream is closed.
    Closed,
    /// The input ended inside a value.
    Truncated,
    /// The bytes do not form a value: a bad length line, a bulk string not
    /// followed by CRLF, or a line that is not UTF-8.
    Malformed,
}

pub open spec fn is_crlf_at(b: Seq<u8>, j: int) -> bool {
    0 <= j && j + 1 < b.len() && b[j] == CR && b[j + 1] == LF
}

/// The first position at or after `from` where CRLF starts.
pub open spec fn find_crlf(b: Seq<u8>, from: int) -> Option<int>
    decreases b.len() - from,
{
    if from < 0 || from + 1 >= b.len() {
        None
    } else if is_crlf_at(b, from) {
        Some(from)
    } else {
        find_crlf(b, from + 1)
    }
}

/// What `find_crlf` finds: the first CRLF at or after `from`, or that there is none.
pub proof fn lemma_find_crlf(b: Seq<u8>, from: int)
    requires
        0 <= from,
    ensures
        match find_crlf(b, from) {
            Some(j) => from <= j && j + 2 <= b.len() && is_crlf_at(b, j) && forall|i: int|
                from <= i < j ==> !is_crlf_at(b, i),
            None => forall|i: int| from <= i ==> !is_crlf_at(b, i),
        },
    decreases b.len() - from,
{
    if from + 1 < b.len() && !is_crlf_at(b, from) {
        lemma_find_crlf(b, from + 1);
    }
}

/// An ASCII digit, `0` to `9`.
pub open spec fn is_digit(c: u8) -> bool {
    48 <= c <= 57
}

pub open spec fn all_digits(s: Seq<u8>) -> bool {
    forall|i: int| 0 <= i < s.len() ==> is_digit(#[trigger] s[i])
}

/// The number that a run of decimal digits denotes.
pub open spec fn digits_value(s: Seq<u8>) -> nat
    decreases s.len(),
{
    if s.len() == 0 {
        0
    } else {
        digits_value(s.drop_last()) * 10 + (s.last() - 48) as nat
    }
}

/// The bytes `-1`, the length that marks a null bulk string.
pub open spec fn minus_one() -> Seq<u8> {
    seq![45u8, 49u8]
}

/// The length that a length line states: `-1`, or a non-empty run of decimal
/// digits whose value fits in a `usize`. Anything else states none.
pub open spec fn length_of(line: Seq<u8>) -> Option<int> {
    if line == minus_one() {
        Some(-1)
    } else if line.len() > 0 && all_digits(line) && digits_value(line) <= usize::MAX {
        Some(digits_value(line) as int)
    } else {
        None
    }
}

/// Adds the tag byte to the count of bytes that a body consumed.
pub open spec fn after_tag<T>(r: Result<(T, nat), DecodeError>) -> Result<(T, nat), DecodeError> {
    match r {
        Ok((v, k)) => Ok((v, k + 1)),
        Err(e) => Err(e),
    }
}

/// Decodes one value from the start of `b`: the value and the number of
/// bytes it takes. An unknown tag byte decodes as `Null` and takes that byte.
pub open spec fn parse(b: Seq<u8>) -> Result<(WireValue, nat), DecodeError>
    decreases b.len(), 0nat,
{
    if b.len() == 0 {
        Err(DecodeError::Closed)
    } else {
        let body = b.subrange(1, b.len() as int);
        if b[0] == TAG_ARRAY {
            after_tag(parse_array_body(body))
        } else if b[0] == TAG_BULK {
            after_tag(parse_bulk_body(body))
        } else if b[0] == TAG_SIMPLE {
            match parse_text_body(body) {
                Ok((t, k)) => Ok((WireValue::Simple(t), k + 1)),
                Err(e) => Err(e),
            }
        } else if b[0] == TAG_ERROR {
            match parse_text_body(body) {
                Ok((t, k)) => Ok((WireValue::Error(t), k + 1)),
                Err(e) => Err(e),
            }
        } else {
            Ok((WireValue::Null, 1))
        }
    }
}

/// A line of UTF-8 text up to the first CRLF, after a `+` or `-` tag.
pub open spec fn parse_text_body(b: Seq<u8>) -> Result<(Seq<char>, nat), DecodeError> {
    match find_crlf(b, 0) {
        None => Err(DecodeError::Truncated),
        Some(j) => {
            let line = b.subrange(0, j);
            if valid_utf8(line) {
                Ok((decode_utf8(line), (j + 2) as nat))
            } else {
                Err(DecodeError::Malformed)
            }
        },
    }
}

/// A length line and that many raw bytes and CRLF, after a `$` tag.
pub open spec fn parse_bulk_body(b: Seq<u8>) -> Result<(WireValue, nat), DecodeError> {
    match find_crlf(b, 0) {
        None => Err(DecodeError::Truncated),
        Some(j) => match length_of(b.subrange(0, j)) {
            None => Err(DecodeError::Malformed),
            Some(n) => {
                let start = j + 2;
                if n < 0 {
                    Ok((WireValue::Null, start as nat))
                } else if b.len() < start + n + 2 {
                    Err(DecodeError::Truncated)
                } else if b[start + n] != CR || b[start + n + 1] != LF {
                    Err(DecodeError::Malformed)
                } else {
                    Ok((WireValue::Bulk(b.subrange(start, start + n)), (start + n + 2) as nat))
                }
            },
        },
    }
}

/// A count line and that many values, after a `*` tag.
pub open spec fn parse_array_body(b: Seq<u8>) -> Result<(WireValue, nat), DecodeError>
    decreases b.len(), 1nat,
{
    match find_crlf(b, 0) {
        None => Err(DecodeError::Truncated),
        Some(j) => match length_of(b.subrange(0, j)) {
            Some(n) if n >= 0 => {
                proof {
                    lemma_find_crlf(b, 0);
                }
                let start = j + 2;
                if start <= b.len() {
                    match parse_items(b.subrange(start, b.len() as int), n as nat) {
                        Ok((items, k)) => Ok((WireValue::Array(items), (start + k) as nat)),
                        Err(e) => Err(e),
                    }
                } else {
                    Err(DecodeError::Truncated)
                }
            },
            _ => Err(DecodeError::Malformed),
        },
    }
}

/// `n` values, one after the other. The input ending before the last of them
/// is a truncated value.
pub open spec fn parse_items(b: Seq<u8>, n: nat) -> Result<(Seq<WireValue>, nat), DecodeError>
    decreases b.len(), n + 2,
{
    if n == 0 {
        Ok((Seq::empty(), 0))
    } else {
        match parse(b) {
            Err(DecodeError::Closed) => Err(DecodeError::Truncated),
            Err(e) => Err(e),
            Ok((v, k)) => {
                if 0 < k <= b.len() {
                    match parse_items(b.subrange(k as int, b.len() as int), (n - 1) as nat) {
                        Ok((vs, k2)) => Ok((seq![v] + vs, k + k2)),
                        Err(e) => Err(e),
                    }
                } else {
                    Err(DecodeError::Malformed)
                }
            },
        }
    }
}


/// `vs` and `c` put in front of what a later decode gave.
pub open spec fn prepend_items(
    vs: Seq<WireValue>,
    c: nat,
    r: Result<(Seq<WireValue>, nat), DecodeError>,
) -> Result<(Seq<WireValue>, nat), DecodeError> {
    match r {
        Ok((ws, k)) => Ok((vs + ws, c + k)),
        Err(e) => Err(e),
    }
}

pub(crate) proof fn lemma_digits_prefix(s: Seq<u8>, i: int)
    requires
        0 <= i <= s.len(),
        all_digits(s),
    ensures
        digits_value(s.subrange(0, i)) <= digits_value(s),
    decreases s.len(),
{
    if i < s.len() {
        assert(s.drop_last() =~= s.subrange(0, s.len() - 1));
        lemma_digits_prefix(s.drop_last(), i);
        assert(s.drop_last().subrange(0, i) =~= s.subrange(0, i));
    } else {
        assert(s.subrange(0, i) =~= s);
    }
}

/// Bytes that hold no CR directly followed by LF.
pub open spec fn no_crlf(b: Seq<u8>) -> bool {
    forall|i: int| !is_crlf_at(b, i)
}

/// Values whose encoding decodes back to them: the text of each simple string
/// and error holds no CRLF, and each length fits in a `usize` (as it does for
/// every `Message`).
pub open spec fn encodable(v: WireValue) -> bool
    decreases v,
{
    match v {
        WireValue::Simple(s) => no_crlf(encode_utf8(s)),
        WireValue::Error(s) => no_crlf(encode_utf8(s)),
        WireValue::Bulk(b) => b.len() <= usize::MAX,
        WireValue::Array(items) => items.len() <= usize::MAX && items_encodable(items),
        WireValue::Null => true,
    }
}

pub open spec fn items_encodable(items: Seq<WireValue>) -> bool
    decreases items,
{
    items.len() > 0 ==> encodable(items[0]) && items_encodable(items.subrange(1, items.len() as int))
}

proof fn lemma_decimal(n: nat)
    ensures
        decimal(n).len() > 0,
        all_digits(decimal(n)),
        digits_value(decimal(n)) == n,
    decreases n,
{
    if n >= 10 {
        lemma_decimal(n / 10);
        let d = decimal(n);
        assert(d.drop_last() =~= decimal(n / 10));
        assert(d.last() == 48 + n % 10);
        assert(digits_value(d) == digits_value(decimal(n / 10)) * 10 + n % 10);
        assert(n / 10 * 10 + n % 10 == n);
    } else {
        assert(decimal(n).drop_last() =~= Seq::<u8>::empty());
        assert(decimal(n).last() == 48 + n);
        assert(digits_value(decimal(n)) == digits_value(decimal(n).drop_last()) * 10 + n);
    }
}

/// The first CRLF after text without one is the one that ends it.
proof fn lemma_find_crlf_after(x: Seq<u8>, y: Seq<u8>)
    requires
        no_crlf(x),
    ensures
        find_crlf(x + crlf() + y, 0) == Some(x.len() as int),
{
    let b = x + crlf() + y;
    lemma_find_crlf(b, 0);
    assert(is_crlf_at(b, x.len() as int));
    assert forall|i: int| 0 <= i < x.len() implies !is_crlf_at(b, i) by {
        if i + 1 < x.len() {
            assert(!is_crlf_at(x, i));
        }
    }
}

proof fn lemma_digits_no_crlf(x: Seq<u8>)
    requires
        all_digits(x),
    ensures
        no_crlf(x),
{
    assert forall|i: int| !is_crlf_at(x, i) by {
        if 0 <= i < x.len() {
            assert(is_digit(x[i]));
        }
    }
}

proof fn lemma_round_trip_text(s: Seq<char>, rest: Seq<u8>)
    requires
        no_crlf(encode_utf8(s)),
    ensures
        parse_text_body(encode_utf8(s) + crlf() + rest) == Ok::<(Seq<char>, nat), DecodeError>(
            (s, encode_utf8(s).len() + 2),
        ),
{
    let e = encode_utf8(s);
    lemma_find_crlf_after(e, rest);
    assert((e + crlf() + rest).subrange(0, e.len() as int) =~= e);
    encode_utf8_valid_utf8(s);
    encode_utf8_decode_utf8(s);
}

proof fn lemma_round_trip_bulk(data: Seq<u8>, rest: Seq<u8>)
    requires
        data.len() <= usize::MAX,
    ensures
        parse_bulk_body(decimal(data.len()) + crlf() + data + crlf() + rest) == Ok::<(WireValue, nat), DecodeError>(
            (WireValue::Bulk(data), decimal(data.len()).len() + data.len() + 4),
        ),
{
    let d = decimal(data.len());
    let body = d + crlf() + data + crlf() + rest;
    lemma_decimal(data.len());
    lemma_digits_no_crlf(d);
    assert(body =~= d + crlf() + (data + crlf() + rest));
    lemma_find_crlf_after(d, data + crlf() + rest);
    assert(body.subrange(0, d.len() as int) =~= d);
    assert(d != minus_one()) by {
        assert(is_digit(d[0]));
    }
    let start = d.len() + 2int;
    assert(body.subrange(start, start + data.len()) =~= data);
    assert(body[start + data.len()] == CR);
    assert(body[start + data.len() + 1] == LF);
}

proof fn lemma_round_trip_null(rest: Seq<u8>)
    ensures
        parse_bulk_body(minus_one() + crlf() + rest) == Ok::<(WireValue, nat), DecodeError>((WireValue::Null, 4)),
{
    let m = minus_one();
    assert(no_crlf(m)) by {
        assert forall|i: int| !is_crlf_at(m, i) by {}
    }
    lemma_find_crlf_after(m, rest);
    assert((m + crlf() + rest).subrange(0, 2) =~= m);
}

proof fn lemma_round_trip_array(items: Seq<WireValue>, rest: Seq<u8>)
    requires
        items.len() <= usize::MAX,
        items_encodable(items),
    ensures
        parse_array_body(decimal(items.len()) + crlf() + encode_items(items) + rest) == Ok::<(WireValue, nat), DecodeError>(
            (WireValue::Array(items), decimal(items.len()).len() + 2 + encode_items(items).len()),
        ),
    decreases items, 1nat,
{
    let d = decimal(items.len());
    let body = d + crlf() + encode_items(items) + rest;
    lemma_decimal(items.len());
    lemma_digits_no_crlf(d);
    assert(body =~= d + crlf() + (encode_items(items) + rest));
    lemma_find_crlf_after(d, encode_items(items) + rest);
    assert(body.subrange(0, d.len() as int) =~= d);
    assert(d != minus_one()) by {
        assert(is_digit(d[0]));
    }
    let start = d.len() + 2int;
    assert(body.subrange(start, body.len() as int) =~= encode_items(items) + rest);
    lemma_round_trip_items(items, rest);
}

/// Decoding the encoding of a value gives the value back and takes exactly
/// its encoding, whatever bytes follow it.
pub proof fn lemma_round_trip(v: WireValue, rest: Seq<u8>)
    requires
        encodable(v),
    ensures
        parse(encode(v) + rest) == Ok::<(WireValue, nat), DecodeError>((v, encode(v).len())),
    decreases v, 2nat,
{
    let b = encode(v) + rest;
    let body = b.subrange(1, b.len() as int);
    match v {
        WireValue::Simple(s) => {
            assert(body =~= encode_utf8(s) + crlf() + rest);
            lemma_round_trip_text(s, rest);
        },
        WireValue::Error(s) => {
            assert(body =~= encode_utf8(s) + crlf() + rest);
            lemma_round_trip_text(s, rest);
        },
        WireValue::Bulk(data) => {
            assert(body =~= decimal(data.len()) + crlf() + data + crlf() + rest);
            lemma_round_trip_bulk(data, rest);
        },
        WireValue::Array(items) => {
            assert(body =~= decimal(items.len()) + crlf() + encode_items(items) + rest);
            lemma_round_trip_array(items, rest);
        },
        WireValue::Null => {
            assert(body =~= minus_one() + crlf() + rest);
            lemma_round_trip_null(rest);
        },
    }
}

/// Decoding the encodings of `items` one after the other gives them back.
pub proof fn lemma_round_trip_items(items: Seq<WireValue>, rest: Seq<u8>)
    requires
        items_encodable(items),
    ensures
        parse_items(encode_items(items) + rest, items.len()) == Ok::<(Seq<WireValue>, nat), DecodeError>(
            (items, encode_items(items).len()),
        ),
    decreases items, 0nat,
{
    if items.len() > 0 {
        let tail = items.subrange(1, items.len() as int);
        let b = encode_items(items) + rest;
        let e0 = encode(items[0]);
        assert(b =~= e0 + (encode_items(tail) + rest));
        lemma_round_trip(items[0], encode_items(tail) + rest);
        lemma_encode_nonempty(items[0]);
        assert(b.subrange(e0.len() as int, b.len() as int) =~= encode_items(tail) + rest);
        lemma_round_trip_items(tail, rest);
        assert(seq![items[0]] + tail =~= items);
    } else {
        assert(encode_items(items) + rest =~= rest);
        assert(items =~= Seq::<WireValue>::empty());
    }
}

pub(crate) proof fn lemma_encode_nonempty(v: WireValue)
    ensures
        encode(v).len() > 0,
{
}

/// Whether `b` and `c` agree on their first `n` bytes.
pub open spec fn agree(b: Seq<u8>, c: Seq<u8>, n: int) -> bool {
    n <= b.len() && n <= c.len() && forall|i: int| 0 <= i < n ==> b[i] == c[i]
}

proof fn lemma_find_crlf_agree(b: Seq<u8>, c: Seq<u8>, j: int)
    requires
        find_crlf(b, 0) == Some(j),
        agree(b, c, j + 2),
    ensures
        find_crlf(c, 0) == Some(j),
{
    lemma_find_crlf(b, 0);
    lemma_find_crlf(c, 0);
    assert(is_crlf_at(c, j));
    assert forall|i: int| 0 <= i < j implies !is_crlf_at(c, i) by {
        assert(!is_crlf_at(b, i));
    }
}

proof fn lemma_parse_text_agree(b: Seq<u8>, c: Seq<u8>)
    requires
        parse_text_body(b) is Ok,
        agree(b, c, parse_text_body(b)->Ok_0.1 as int),
    ensures
        parse_text_body(c) == parse_text_body(b),
{
    lemma_find_crlf(b, 0);
    let j = find_crlf(b, 0)->0;
    lemma_find_crlf_agree(b, c, j);
    assert(c.subrange(0, j) =~= b.subrange(0, j));
}

proof fn lemma_parse_bulk_agree(b: Seq<u8>, c: Seq<u8>)
    requires
        parse_bulk_body(b) is Ok,
        agree(b, c, parse_bulk_body(b)->Ok_0.1 as int),
    ensures
        parse_bulk_body(c) == parse_bulk_body(b),
{
    lemma_find_crlf(b, 0);
    let j = find_crlf(b, 0)->0;
    lemma_find_crlf_agree(b, c, j);
    assert(c.subrange(0, j) =~= b.subrange(0, j));
    let n = length_of(b.subrange(0, j))->0;
    if n >= 0 {
        let start = j + 2;
        assert(c.subrange(start, start + n) =~= b.subrange(start, start + n));
    }
}

proof fn lemma_parse_array_agree(b: Seq<u8>, c: Seq<u8>)
    requires
        parse_array_body(b) is Ok,
        agree(b, c, parse_array_body(b)->Ok_0.1 as int),
    ensures
        parse_array_body(c) == parse_array_body(b),
    decreases b.len(), 1nat,
{
    lemma_find_crlf(b, 0);
    let j = find_crlf(b, 0)->0;
    lemma_find_crlf_agree(b, c, j);
    assert(c.subrange(0, j) =~= b.subrange(0, j));
    let n = length_of(b.subrange(0, j))->0;
    let start = j + 2;
    let bi = b.subrange(start, b.len() as int);
    let ci = c.subrange(start, c.len() as int);
    let k = parse_items(bi, n as nat)->Ok_0.1;
    assert(agree(bi, ci, k as int)) by {
        assert forall|i: int| 0 <= i < k implies bi[i] == ci[i] by {
            assert(bi[i] == b[start + i]);
            assert(ci[i] == c[start + i]);
        }
    }
    lemma_parse_items_agree(bi, ci, n as nat);
}

proof fn lemma_parse_items_agree(b: Seq<u8>, c: Seq<u8>, n: nat)
    requires
        parse_items(b, n) is Ok,
        agree(b, c, parse_items(b, n)->Ok_0.1 as int),
    ensures
        parse_items(c, n) == parse_items(b, n),
    decreases b.len(), n + 2,
{
    if n > 0 {
        let k = parse(b)->Ok_0.1;
        lemma_parse_agree(b, c);
        let bt = b.subrange(k as int, b.len() as int);
        let ct = c.subrange(k as int, c.len() as int);
        let k2 = parse_items(bt, (n - 1) as nat)->Ok_0.1;
        assert(agree(bt, ct, k2 as int)) by {
            assert forall|i: int| 0 <= i < k2 implies bt[i] == ct[i] by {
                assert(bt[i] == b[k + i]);
                assert(ct[i] == c[k + i]);
            }
        }
        lemma_parse_items_agree(bt, ct, (n - 1) as nat);
    }
}

/// Decoding a value reads only the bytes that the value takes: any input
/// that starts with those bytes decodes to the same value.
pub proof fn lemma_parse_agree(b: Seq<u8>, c: Seq<u8>)
    requires
        parse(b) is Ok,
        agree(b, c, parse(b)->Ok_0.1 as int),
    ensures
        parse(c) == parse(b),
    decreases b.len(), 0nat,
{
    let bb = b.subrange(1, b.len() as int);
    let cb = c.subrange(1, c.len() as int);
    let k = parse(b)->Ok_0.1;
    assert(agree(bb, cb, k - 1)) by {
        assert forall|i: int| 0 <= i < k - 1 implies bb[i] == cb[i] by {
            assert(bb[i] == b[1 + i]);
            assert(cb[i] == c[1 + i]);
        }
    }
    if b[0] == TAG_ARRAY {
        lemma_parse_array_agree(bb, cb);
    } else if b[0] == TAG_BULK {
        lemma_parse_bulk_agree(bb, cb);
    } else if b[0] == TAG_SIMPLE || b[0] == TAG_ERROR {
        lemma_parse_text_agree(bb, cb);
    }
}

} // verus!
