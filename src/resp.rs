//! A decoder over a byte buffer, with a buffer for the encoded replies.
use vstd::prelude::*;
use crate::decode::{
    all_digits, digits_value, find_crlf, is_crlf_at, lemma_digits_prefix, lemma_find_crlf, length_of,
    minus_one, parse, parse_array_body, parse_bulk_body, parse_items, parse_text_body,
    prepend_items, DecodeError,
};
use crate::message::{
    encode, messages_view, utf8_string, Message, WireValue, CR, LF, TAG_ARRAY, TAG_BULK, TAG_ERROR,
    TAG_SIMPLE,
};

verus! {

/// A decoder over a buffer of input bytes, with a buffer for the encoded
/// replies.
pub struct Resp {
    input: Vec<u8>,
    pos: usize,
    output: Vec<u8>,
}

impl Resp {
    /// All the input bytes, decoded or not.
    pub closed spec fn input(&self) -> Seq<u8> {
        self.input@
    }

    /// How many input bytes are decoded.
    pub closed spec fn position(&self) -> nat {
        self.pos as nat
    }

    /// The encoded replies written so far.
    pub closed spec fn output(&self) -> Seq<u8> {
        self.output@
    }

    /// The position is within the input.
    pub open spec fn wf(&self) -> bool {
        self.position() <= self.input().len()
    }

    /// The input that is not decoded yet.
    pub open spec fn remaining(&self) -> Seq<u8> {
        self.input().subrange(self.position() as int, self.input().len() as int)
    }

    /// Whether `r` moved only the position of `self`.
    pub open spec fn moved(&self, r: &Resp) -> bool {
        &&& r.wf()
        &&& r.input() == self.input()
        &&& r.output() == self.output()
    }

    /// A decoder at the start of `input`, with no replies written.
    pub fn new(input: Vec<u8>) -> (r: Resp)
        ensures
            r.wf(),
            r.input() == input@,
            r.position() == 0,
            r.output() == Seq::<u8>::empty(),
    {
        Resp { input, pos: 0, output: Vec::new() }
    }

    /// How many input bytes are decoded.
    pub fn offset(&self) -> (r: usize)
        ensures
            r == self.position(),
    {
        self.pos
    }

    /// How many input bytes there are.
    pub fn input_len(&self) -> (r: usize)
        ensures
            r == self.input().len(),
    {
        self.input.len()
    }

    /// The replies written so far.
    pub fn written(&self) -> (r: &Vec<u8>)
        ensures
            r@ == self.output(),
    {
        &self.output
    }

    /// The bytes from `start` to the position: the raw form of what was
    /// decoded since then.
    pub fn raw_since(&self, start: usize) -> (r: Vec<u8>)
        requires
            self.wf(),
            start <= self.position(),
        ensures
            r@ == self.input().subrange(start as int, self.position() as int),
    {
        let mut r: Vec<u8> = Vec::new();
        let mut i = start;
        while i < self.pos
            invariant
                self.wf(),
                start <= i <= self.pos,
                r@ == self.input().subrange(start as int, i as int),
            decreases self.pos - i,
        {
            r.push(self.input[i]);
            assert(r@ =~= self.input().subrange(start as int, i + 1));
            i = i + 1;
        }
        r
    }

    /// The replies written, taking the decoder apart.
    pub fn into_output(self) -> (r: Vec<u8>)
        ensures
            r@ == self.output(),
    {
        self.output
    }

    /// Decodes the next value. On success the position moves past it; on
    /// failure it stays where it was.
    pub fn read(&mut self) -> (r: Result<Message, DecodeError>)
        requires
            old(self).wf(),
        ensures
            old(self).moved(final(self)),
            match parse(old(self).remaining()) {
                Ok((v, k)) => r is Ok && r->Ok_0@ == v && final(self).position() == old(self).position() + k,
                Err(e) => r == Err::<Message, DecodeError>(e) && final(self).position() == old(self).position(),
            },
            r is Ok ==> final(self).position() > old(self).position(),
    {
        let start = self.pos;
        let r = self.read_value();
        if r.is_err() {
            self.pos = start;
        }
        r
    }

    /// Appends the encoding of `message` to the output; returns how many
    /// bytes that was.
    pub fn write(&mut self, message: Message) -> (r: usize)
        requires
            old(self).wf(),
        ensures
            final(self).wf(),
            final(self).input() == old(self).input(),
            final(self).position() == old(self).position(),
            final(self).output() == old(self).output() + encode(message@),
            r == encode(message@).len(),
    {
        let mut bytes = message.marshal();
        let n = bytes.len();
        self.output.append(&mut bytes);
        n
    }

    /// The next byte.
    pub fn read_byte(&mut self) -> (r: Result<u8, DecodeError>)
        requires
            old(self).wf(),
        ensures
            old(self).moved(final(self)),
            old(self).position() < old(self).input().len() ==> r == Ok::<u8, DecodeError>(
                old(self).input()[old(self).position() as int],
            ) && final(self).position() == old(self).position() + 1,
            old(self).position() >= old(self).input().len() ==> r == Err::<u8, DecodeError>(
                DecodeError::Closed,
            ) && final(self).position() == old(self).position(),
    {
        if self.pos < self.input.len() {
            let b = self.input[self.pos];
            self.pos = self.pos + 1;
            Ok(b)
        } else {
            Err(DecodeError::Closed)
        }
    }

    fn read_value(&mut self) -> (r: Result<Message, DecodeError>)
        requires
            old(self).wf(),
        ensures
            old(self).moved(final(self)),
            match parse(old(self).remaining()) {
                Ok((v, k)) => r is Ok && r->Ok_0@ == v && final(self).position() == old(self).position() + k,
                Err(e) => r == Err::<Message, DecodeError>(e),
            },
            r is Ok ==> final(self).position() > old(self).position(),
        decreases old(self).input().len() - old(self).position(), 0nat,
    {
        let ghost b = self.remaining();
        let tag = match self.read_byte() {
            Ok(t) => t,
            Err(e) => {
                return Err(e);
            },
        };
        assert(self.remaining() =~= b.subrange(1, b.len() as int));
        if tag == TAG_ARRAY {
            self.read_array()
        } else if tag == TAG_BULK {
            self.read_bulk()
        } else if tag == TAG_SIMPLE {
            match self.read_text() {
                Ok(t) => Ok(Message::Simple(t)),
                Err(e) => Err(e),
            }
        } else if tag == TAG_ERROR {
            match self.read_text() {
                Ok(t) => Ok(Message::Error(t)),
                Err(e) => Err(e),
            }
        } else {
            Ok(Message::Null)
        }
    }

    /// The bytes up to the next CRLF; the position moves past the CRLF.
    #[verifier::loop_isolation(false)]
    fn read_line(&mut self) -> (r: Result<Vec<u8>, DecodeError>)
        requires
            old(self).wf(),
        ensures
            old(self).moved(final(self)),
            match find_crlf(old(self).remaining(), 0) {
                Some(j) => r is Ok && r->Ok_0@ == old(self).remaining().subrange(0, j)
                    && final(self).position() == old(self).position() + j + 2,
                None => r == Err::<Vec<u8>, DecodeError>(DecodeError::Truncated)
                    && final(self).position() == old(self).position(),
            },
    {
        let ghost b = self.remaining();
        proof {
            lemma_find_crlf(b, 0);
        }
        let start = self.pos;
        let mut line: Vec<u8> = Vec::new();
        let mut i = start;
        while self.input.len() - i >= 2
            invariant
                start == self.pos,
                self.wf(),
                b == self.remaining(),
                self.input() == old(self).input(),
                self.output() == old(self).output(),
                start <= i <= self.input.len(),
                line@ == b.subrange(0, i - start),
                forall|k: int| 0 <= k < i - start ==> !is_crlf_at(b, k),
            decreases self.input.len() - i,
        {
            if self.input[i] == CR && self.input[i + 1] == LF {
                assert(is_crlf_at(b, i - start));
                self.pos = i + 2;
                return Ok(line);
            }
            assert(!is_crlf_at(b, i - start));
            line.push(self.input[i]);
            assert(line@ =~= b.subrange(0, i + 1 - start));
            i = i + 1;
        }
        Err(DecodeError::Truncated)
    }

    /// A length line: `None` for `-1`, else its value.
    #[verifier::loop_isolation(false)]
    fn read_integer(&mut self) -> (r: Result<Option<usize>, DecodeError>)
        requires
            old(self).wf(),
        ensures
            old(self).moved(final(self)),
            match find_crlf(old(self).remaining(), 0) {
                None => r == Err::<Option<usize>, DecodeError>(DecodeError::Truncated),
                Some(j) => final(self).position() == old(self).position() + j + 2 && match length_of(
                    old(self).remaining().subrange(0, j),
                ) {
                    None => r == Err::<Option<usize>, DecodeError>(DecodeError::Malformed),
                    Some(n) => if n < 0 {
                        r == Ok::<Option<usize>, DecodeError>(None)
                    } else {
                        r == Ok::<Option<usize>, DecodeError>(Some(n as usize))
                    },
                },
            },
    {
        let line = match self.read_line() {
            Ok(l) => l,
            Err(e) => {
                return Err(e);
            },
        };
        // `-1`
        if line.len() == 2 && line[0] == 45u8 && line[1] == 49u8 {
            assert(line@ =~= minus_one());
            return Ok(None);
        }
        if line.len() == 0 {
            return Err(DecodeError::Malformed);
        }
        let mut value: usize = 0;
        let mut i: usize = 0;
        while i < line.len()
            invariant
                i <= line.len(),
                line@ != minus_one(),
                all_digits(line@.subrange(0, i as int)),
                value == digits_value(line@.subrange(0, i as int)),
            decreases line.len() - i,
        {
            let c = line[i];
            if c < 48u8 || c > 57u8 {
                assert(!all_digits(line@));
                return Err(DecodeError::Malformed);
            }
            let d = (c - 48u8) as usize;
            assert(line@.subrange(0, i + 1).drop_last() =~= line@.subrange(0, i as int));
            if value > (usize::MAX - d) / 10 {
                assert(digits_value(line@.subrange(0, i + 1)) > usize::MAX) by (nonlinear_arith)
                    requires
                        value > (usize::MAX - d) / 10,
                        digits_value(line@.subrange(0, i + 1)) == value * 10 + d,
                ;
                proof {
                    if all_digits(line@) {
                        lemma_digits_prefix(line@, i + 1);
                    }
                }
                return Err(DecodeError::Malformed);
            }
            assert(value * 10 + d <= usize::MAX) by (nonlinear_arith)
                requires
                    value <= (usize::MAX - d) / 10,
            ;
            value = value * 10 + d;
            i = i + 1;
            assert(all_digits(line@.subrange(0, i as int)));
        }
        assert(line@.subrange(0, i as int) =~= line@);
        Ok(Some(value))
    }

    /// The rest of a `+` or `-` line, as text.
    fn read_text(&mut self) -> (r: Result<String, DecodeError>)
        requires
            old(self).wf(),
        ensures
            old(self).moved(final(self)),
            match parse_text_body(old(self).remaining()) {
                Ok((t, k)) => r is Ok && r->Ok_0@ == t && final(self).position() == old(self).position() + k,
                Err(e) => r == Err::<String, DecodeError>(e),
            },
    {
        let ghost b = self.remaining();
        proof {
            lemma_find_crlf(b, 0);
        }
        let line = match self.read_line() {
            Ok(l) => l,
            Err(e) => {
                return Err(e);
            },
        };
        let ghost j = find_crlf(b, 0)->0;
        match utf8_string(line) {
            Some(t) => {
                Ok(t)
            },
            None => {
                Err(DecodeError::Malformed)
            },
        }
    }

    #[verifier::loop_isolation(false)]
    fn read_bulk(&mut self) -> (r: Result<Message, DecodeError>)
        requires
            old(self).wf(),
        ensures
            old(self).moved(final(self)),
            match parse_bulk_body(old(self).remaining()) {
                Ok((v, k)) => r is Ok && r->Ok_0@ == v && final(self).position() == old(self).position() + k,
                Err(e) => r == Err::<Message, DecodeError>(e),
            },
    {
        let ghost b = self.remaining();
        let ghost p0 = self.position();
        proof {
            lemma_find_crlf(b, 0);
        }
        let n = match self.read_integer() {
            Ok(Some(n)) => n,
            Ok(None) => {
                return Ok(Message::Null);
            },
            Err(e) => {
                return Err(e);
            },
        };
        let ghost start = self.pos - p0;
        let len = self.input.len();
        if len - self.pos < 2 || len - self.pos - 2 < n {
            return Err(DecodeError::Truncated);
        }
        let end = self.pos + n;
        if self.input[end] != CR || self.input[end + 1] != LF {
            return Err(DecodeError::Malformed);
        }
        let mut bulk: Vec<u8> = Vec::new();
        let mut i = self.pos;
        while i < end
            invariant
                self.wf(),
                p0 + start == self.pos,
                b == self.input().subrange(p0 as int, self.input().len() as int),
                self.pos <= i <= end,
                end + 2 <= self.input.len(),
                bulk@ == b.subrange(start as int, i - p0),
            decreases end - i,
        {
            bulk.push(self.input[i]);
            assert(bulk@ =~= b.subrange(start as int, i + 1 - p0));
            i = i + 1;
        }
        self.pos = end + 2;
        Ok(Message::Bulk(bulk))
    }

    #[verifier::loop_isolation(false)]
    fn read_array(&mut self) -> (r: Result<Message, DecodeError>)
        requires
            old(self).wf(),
        ensures
            old(self).moved(final(self)),
            match parse_array_body(old(self).remaining()) {
                Ok((v, k)) => r is Ok && r->Ok_0@ == v && final(self).position() == old(self).position() + k,
                Err(e) => r == Err::<Message, DecodeError>(e),
            },
        decreases old(self).input().len() - old(self).position(), 1nat,
    {
        let ghost b = self.remaining();
        let ghost p0 = self.position();
        let n = match self.read_integer() {
            Ok(Some(n)) => n,
            Ok(None) => {
                return Err(DecodeError::Malformed);
            },
            Err(e) => {
                return Err(e);
            },
        };
        proof {
            lemma_find_crlf(b, 0);
        }
        let ghost p1 = self.position();
        let ghost b1 = self.remaining();
        assert(b1 =~= b.subrange(p1 - p0, b.len() as int));
        let mut array: Vec<Message> = Vec::new();
        let mut i: usize = 0;
        while i < n
            invariant
                self.wf(),
                self.input() == old(self).input(),
                self.output() == old(self).output(),
                p1 <= self.position(),
                p0 < p1,
                i <= n,
                array@.len() == i,
                parse_items(b1, n as nat) == prepend_items(
                    messages_view(array@),
                    (self.position() - p1) as nat,
                    parse_items(self.remaining(), (n - i) as nat),
                ),
            decreases n - i,
        {
            let ghost cur = self.remaining();
            let ghost before = messages_view(array@);
            let ghost pc = self.position();
            match self.read_value() {
                Ok(m) => {
                    let ghost k = (self.position() - pc) as nat;
                    assert(self.remaining() =~= cur.subrange(k as int, cur.len() as int));
                    array.push(m);
                    assert(messages_view(array@) =~= before + seq![m@]);
                    assert forall|ws: Seq<WireValue>| (before + seq![m@]) + ws =~= before + (seq![m@] + ws) by {}
                    i = i + 1;
                },
                Err(e) => {
                    if e == DecodeError::Closed {
                        return Err(DecodeError::Truncated);
                    }
                    return Err(e);
                },
            }
        }
        assert(messages_view(array@) + Seq::<WireValue>::empty() =~= messages_view(array@));
        let r = Message::Array(array);
        assert(r@ == WireValue::Array(messages_view(array@))) by {
            assert(r@->Array_0 =~= messages_view(array@));
        }
        Ok(r)
    }
}

} // verus!
