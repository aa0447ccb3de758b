//! Serving one connection's bytes: decode each request, dispatch it, encode
//! the reply, and keep the raw bytes of each request that wrote to the store.
use vstd::prelude::*;
use crate::commands::{handle_request, request_mutates, request_reply, request_store};
use crate::message::{encode, Message, WireValue};
use crate::decode::{parse, DecodeError};
use crate::resp::Resp;
use crate::store::{Store, StoreView};

verus! {

/// The encoding of a reply, or nothing where there is none.
pub open spec fn reply_bytes(r: Option<WireValue>) -> Seq<u8> {
    match r {
        Some(v) => encode(v),
        None => Seq::empty(),
    }
}

/// The reply to bytes that do not form a value; the rest of the input is
/// then dropped.
pub open spec fn malformed_reply() -> WireValue {
    WireValue::Error("Protocol error: malformed frame"@)
}

/// Serving the requests at the start of `b` on store `s`: the store after
/// them, the raw bytes of those that wrote to it, and the number of bytes
/// taken. Serving stops at the end of the input or before a value that the
/// input does not hold in full; after bytes that form no value it takes all
/// of the input.
pub open spec fn serve(s: StoreView, b: Seq<u8>) -> (StoreView, Seq<u8>, nat)
    decreases b.len(),
{
    match parse(b) {
        Ok((v, k)) => if 0 < k <= b.len() {
            let next = serve(request_store(s, v), b.subrange(k as int, b.len() as int));
            (
                next.0,
                (if request_mutates(v) {
                    b.subrange(0, k as int)
                } else {
                    Seq::empty()
                }) + next.1,
                k + next.2,
            )
        } else {
            (s, Seq::empty(), 0)
        },
        Err(DecodeError::Malformed) => (s, Seq::empty(), b.len()),
        Err(_) => (s, Seq::empty(), 0),
    }
}

/// Whether `out` is what serving `b` on store `s` replies: the encoded reply
/// to each request, in order.
pub open spec fn serve_replies(s: StoreView, b: Seq<u8>, out: Seq<u8>) -> bool
    decreases b.len(),
{
    match parse(b) {
        Ok((v, k)) => if 0 < k <= b.len() {
            exists|r: Option<WireValue>, rest: Seq<u8>|
                request_reply(s, v, r) && out == reply_bytes(r) + rest && serve_replies(
                    request_store(s, v),
                    b.subrange(k as int, b.len() as int),
                    rest,
                )
        } else {
            out == Seq::<u8>::empty()
        },
        Err(DecodeError::Malformed) => out == encode(malformed_reply()),
        Err(_) => out == Seq::<u8>::empty(),
    }
}

/// What serving a buffer gives: the encoded replies, the raw bytes of the
/// requests that wrote to the store, and how many input bytes were taken.
pub struct Served {
    pub replies: Vec<u8>,
    pub log: Vec<u8>,
    pub consumed: usize,
}

/// Serves the requests in `input` on `store`.
pub fn handle_client(store: &mut Store, input: Vec<u8>) -> (r: Served)
    requires
        old(store).wf(),
    ensures
        final(store).wf(),
        serve(old(store)@, input@) == (final(store)@, r.log@, r.consumed as nat),
        serve_replies(old(store)@, input@, r.replies@),
{
    let ghost s0 = store@;
    let ghost b0 = input@;
    let mut resp = Resp::new(input);
    let mut log: Vec<u8> = Vec::new();
    let mut consumed: usize = 0;
    assert(resp.remaining() =~= b0);
    loop
        invariant_except_break
            consumed == resp.position(),
            serve(s0, b0) == {
                let rest = serve(store@, resp.remaining());
                (rest.0, log@ + rest.1, (consumed + rest.2) as nat)
            },
            forall|x: Seq<u8>|
                serve_replies(store@, resp.remaining(), x) ==> serve_replies(
                    s0,
                    b0,
                    resp.output() + x,
                ),
        invariant
            store.wf(),
            resp.wf(),
            resp.input() == b0,
        ensures
            serve(s0, b0) == (store@, log@, consumed as nat),
            serve_replies(s0, b0, resp.output()),
        decreases b0.len() - resp.position(),
    {
        let ghost s1 = store@;
        let ghost b1 = resp.remaining();
        let ghost out1 = resp.output();
        let start = resp.offset();
        match resp.read() {
            Ok(m) => {
                let ghost k = (resp.position() - start) as nat;
                let ghost b2 = resp.remaining();
                assert(b2 =~= b1.subrange(k as int, b1.len() as int));
                let (reply, mutated) = handle_request(m, store);
                if mutated {
                    let mut raw = resp.raw_since(start);
                    assert(raw@ =~= b1.subrange(0, k as int));
                    log.append(&mut raw);
                }
                let ghost rv: Option<WireValue> = match &reply {
                    Some(x) => Some(x@),
                    None => None,
                };
                match reply {
                    Some(x) => {
                        resp.write(x);
                    },
                    None => {},
                }
                assert(resp.output() =~= out1 + reply_bytes(rv));
                consumed = resp.offset();
                assert forall|x: Seq<u8>| serve_replies(store@, resp.remaining(), x) implies serve_replies(
                    s0,
                    b0,
                    resp.output() + x,
                ) by {
                    assert(serve_replies(s1, b1, reply_bytes(rv) + x));
                    assert(out1 + (reply_bytes(rv) + x) =~= resp.output() + x);
                }
            },
            Err(e) => {
                let ghost added: Seq<u8>;
                if e == DecodeError::Malformed {
                    resp.write(Message::error("Protocol error: malformed frame"));
                    consumed = resp.input_len();
                    proof {
                        added = encode(malformed_reply());
                    }
                } else {
                    proof {
                        added = Seq::empty();
                    }
                }
                assert(serve_replies(s1, b1, added));
                assert(resp.output() =~= out1 + added);
                assert(log@ + Seq::<u8>::empty() =~= log@);
                break;
            },
        }
    }
    Served { replies: resp.into_output(), log, consumed }
}

} // verus!
