//! The wire value, its encoding, and the byte-level helpers shared by the codec.
use vstd::prelude::*;
use vstd::utf8::{decode_utf8, encode_utf8, valid_utf8};

verus! {

/// The tag byte of a simple string: `+`.
pub const TAG_SIMPLE: u8 = 43;
/// The tag byte of an error: `-`.
pub const TAG_ERROR: u8 = 45;
/// The tag byte of a bulk string: `$`.
pub const TAG_BULK: u8 = 36;
/// The tag byte of an array: `*`.
pub const TAG_ARRAY: u8 = 42;
/// Carriage return.
pub const CR: u8 = 13;
/// Line feed.
pub const LF: u8 = 10;

/// The mathematical model of one protocol unit.
pub enum WireValue {
    Simple(Seq<char>),
    Error(Seq<char>),
    Bulk(Seq<u8>),
    Array(Seq<WireValue>),
    Null,
}

/// One protocol unit: a simple string, an error, a bulk byte string,
/// an array of units, or the null bulk string.
#[derive(Debug, PartialEq)]
pub enum Message {
    Simple(String),
    Error(String),
    Bulk(Vec<u8>),
    Array(Vec<Message>),
    Null,
}

/// The value that a message holds.
pub open spec fn message_view(m: Message) -> WireValue
    decreases m,
{
    match m {
        Message::Simple(s) => WireValue::Simple(s@),
        Message::Error(s) => WireValue::Error(s@),
        Message::Bulk(b) => WireValue::Bulk(b@),
        Message::Array(items) => WireValue::Array(
            Seq::new(
                items.len() as nat,
                |i: int|
                    if 0 <= i < items.len() {
                        message_view(items[i])
                    } else {
                        WireValue::Null
                    },
            ),
        ),
        Message::Null => WireValue::Null,
    }
}

impl View for Message {
    type V = WireValue;

    open spec fn view(&self) -> WireValue {
        message_view(*self)
    }
}

/// The views of a sequence of messages.
pub open spec fn messages_view(items: Seq<Message>) -> Seq<WireValue> {
    Seq::new(items.len(), |i: int| items[i]@)
}

/// The line terminator, CR LF.
pub open spec fn crlf() -> Seq<u8> {
    seq![CR, LF]
}

/// The decimal digits of `n`, most significant first, without leading zeros.
pub open spec fn decimal(n: nat) -> Seq<u8>
    decreases n,
{
    if n < 10 {
        seq![(48 + n) as u8]
    } else {
        decimal(n / 10).push((48 + n % 10) as u8)
    }
}

/// The wire encoding of a value.
pub open spec fn encode(v: WireValue) -> Seq<u8>
    decreases v,
{
    match v {
        WireValue::Simple(s) => seq![TAG_SIMPLE] + encode_utf8(s) + crlf(),
        WireValue::Error(s) => seq![TAG_ERROR] + encode_utf8(s) + crlf(),
        WireValue::Bulk(b) => seq![TAG_BULK] + decimal(b.len()) + crlf() + b + crlf(),
        WireValue::Array(items) => seq![TAG_ARRAY] + decimal(items.len()) + crlf() + encode_items(items),
        // `$-1`
        WireValue::Null => seq![TAG_BULK, 45u8, 49u8] + crlf(),
    }
}

/// The encodings of a sequence of values, one after the other.
pub open spec fn encode_items(items: Seq<WireValue>) -> Seq<u8>
    decreases items,
{
    if items.len() == 0 {
        Seq::empty()
    } else {
        encode(items[0]) + encode_items(items.subrange(1, items.len() as int))
    }
}

/// Relies on `String::from_utf8`: valid UTF-8 bytes become the string they
/// encode; any other bytes are refused.
#[verifier::external_body]
pub(crate) fn utf8_string(bytes: Vec<u8>) -> (r: Option<String>)
    ensures
        r is Some <==> valid_utf8(bytes@),
        r is Some ==> r->0@ == decode_utf8(bytes@),
{
    String::from_utf8(bytes).ok()
}

/// Appends the decimal digits of `n` to `out`.
pub fn push_decimal(out: &mut Vec<u8>, n: usize)
    ensures
        final(out)@ == old(out)@ + decimal(n as nat),
    decreases n,
{
    if n >= 10 {
        push_decimal(out, n / 10);
    }
    let d: u8 = (n % 10) as u8;
    // the ASCII digit `0` is 48
    out.push(48u8 + d);
    assert(final(out)@ =~= old(out)@ + decimal(n as nat));
}

impl Message {
    /// A simple string holding `s`.
    pub fn simple(s: &str) -> (r: Message)
        ensures
            r@ == WireValue::Simple(s@),
    {
        Message::Simple(s.to_owned())
    }

    /// An error holding `s`.
    pub fn error(s: &str) -> (r: Message)
        ensures
            r@ == WireValue::Error(s@),
    {
        Message::Error(s.to_owned())
    }

    /// A bulk string holding the bytes `v`.
    pub fn bulk(v: Vec<u8>) -> (r: Message)
        ensures
            r@ == WireValue::Bulk(v@),
    {
        Message::Bulk(v)
    }

    /// An array of the messages `v`.
    pub fn array(v: Vec<Message>) -> (r: Message)
        ensures
            r@ == WireValue::Array(messages_view(v@)),
    {
        let r = Message::Array(v);
        assert(r@ == WireValue::Array(messages_view(v@))) by {
            if let WireValue::Array(items) = r@ {
                assert(items =~= messages_view(v@));
            }
        }
        r
    }

    /// The wire encoding of this message.
    pub fn marshal(&self) -> (r: Vec<u8>)
        ensures
            r@ == encode(self@),
        decreases self, 1nat,
    {
        match self {
            Message::Array(_) => self.marshal_array(),
            Message::Bulk(_) => self.marshal_bulk(),
            Message::Simple(_) => self.marshal_string(),
            Message::Error(_) => self.marshal_error(),
            Message::Null => self.marshal_null(),
        }
    }

    fn marshal_array(&self) -> (r: Vec<u8>)
        requires
            self is Array,
        ensures
            r@ == encode(self@),
        decreases self, 0nat,
    {
        let mut bytes: Vec<u8> = Vec::new();
        bytes.push(TAG_ARRAY);
        if let Message::Array(array) = self {
            let ghost items = self@->Array_0;
            push_decimal(&mut bytes, array.len());
            bytes.push(CR);
            bytes.push(LF);
            let ghost head = bytes@;
            let mut i: usize = 0;
            assert(items.subrange(0, items.len() as int) =~= items);
            while i < array.len()
                invariant
                    self is Array,
                    *array == self->Array_0,
                    items == messages_view(array@),
                    i <= array.len(),
                    bytes@ + encode_items(items.subrange(i as int, items.len() as int))
                        == head + encode_items(items),
                decreases array.len() - i,
            {
                let ghost rest = items.subrange(i as int, items.len() as int);
                assert(rest.subrange(1, rest.len() as int) =~= items.subrange(i + 1, items.len() as int));
                assert(rest[0] == array@[i as int]@);
                proof {
                    vstd::std_specs::vec::axiom_vec_index_decreases(*array, i as int);
                    assert(decreases_to!(*self => self->Array_0));
                    assert(decreases_to!(*self => array[i as int]));
                }
                let mut part = array[i].marshal();
                bytes.append(&mut part);
                assert(bytes@ + encode_items(items.subrange(i + 1, items.len() as int))
                    =~= head + encode_items(items));
                i = i + 1;
            }
            assert(items.subrange(i as int, items.len() as int) =~= Seq::<WireValue>::empty());
            assert(bytes@ =~= encode(self@));
        }
        bytes
    }

    fn marshal_bulk(&self) -> (r: Vec<u8>)
        requires
            self is Bulk,
        ensures
            r@ == encode(self@),
    {
        let mut bytes: Vec<u8> = Vec::new();
        bytes.push(TAG_BULK);
        if let Message::Bulk(string) = self {
            push_decimal(&mut bytes, string.len());
            bytes.push(CR);
            bytes.push(LF);
            bytes.extend_from_slice(string.as_slice());
        }
        bytes.push(CR);
        bytes.push(LF);
        assert(bytes@ =~= encode(self@));
        bytes
    }

    fn marshal_string(&self) -> (r: Vec<u8>)
        requires
            self is Simple,
        ensures
            r@ == encode(self@),
    {
        let mut bytes: Vec<u8> = Vec::new();
        bytes.push(TAG_SIMPLE);
        if let Message::Simple(string) = self {
            bytes.extend_from_slice(string.as_str().as_bytes());
        }
        bytes.push(CR);
        bytes.push(LF);
        assert(bytes@ =~= encode(self@));
        bytes
    }

    fn marshal_error(&self) -> (r: Vec<u8>)
        requires
            self is Error,
        ensures
            r@ == encode(self@),
    {
        let mut bytes: Vec<u8> = Vec::new();
        bytes.push(TAG_ERROR);
        if let Message::Error(error) = self {
            bytes.extend_from_slice(error.as_str().as_bytes());
        }
        bytes.push(CR);
        bytes.push(LF);
        assert(bytes@ =~= encode(self@));
        bytes
    }

    fn marshal_null(&self) -> (r: Vec<u8>)
        requires
            self is Null,
        ensures
            r@ == encode(self@),
    {
        let r: Vec<u8> = vec![TAG_BULK, 45u8, 49u8, CR, LF];
        assert(r@ =~= encode(self@));
        r
    }
}

} // verus!
