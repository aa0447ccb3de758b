//! The append-only log: rebuilding the store by replaying the logged
//! requests, and the law that a replay gives back the store that wrote them.
use vstd::prelude::*;
use crate::commands::{
    bulk_args_are_bulk, command_mutates, handle_request, request_command, request_mutates,
    request_store,
};
use crate::message::{encode, encode_items, messages_view, Message, WireValue};
use crate::decode::{
    encodable, items_encodable, lemma_encode_nonempty, lemma_parse_agree, lemma_round_trip, parse,
    DecodeError,
};
use crate::resp::Resp;
use crate::session::serve;
use crate::store::{Store, StoreView};

verus! {

/// Replaying the log `b` on store `s`: each logged value is served as a
/// request, in order, until the log ends or holds a `Null`. A log that ends
/// inside a value, or holds bytes that form none, cannot be replayed.
pub open spec fn replay(s: StoreView, b: Seq<u8>) -> Result<StoreView, DecodeError>
    decreases b.len(),
{
    match parse(b) {
        Err(DecodeError::Closed) => Ok(s),
        Err(e) => Err(e),
        Ok((v, k)) => if v is Null {
            Ok(s)
        } else if 0 < k <= b.len() {
            replay(request_store(s, v), b.subrange(k as int, b.len() as int))
        } else {
            Err(DecodeError::Malformed)
        },
    }
}

/// Replays `log` on `store`.
pub fn replay_log(store: &mut Store, log: Vec<u8>) -> (r: Result<(), DecodeError>)
    requires
        old(store).wf(),
    ensures
        final(store).wf(),
        match replay(old(store)@, log@) {
            Ok(s) => r is Ok && final(store)@ == s,
            Err(e) => r == Err::<(), DecodeError>(e),
        },
{
    let ghost s0 = store@;
    let ghost l0 = log@;
    let mut resp = Resp::new(log);
    assert(resp.remaining() =~= l0);
    loop
        invariant
            store.wf(),
            resp.wf(),
            resp.input() == l0,
            replay(s0, l0) == replay(store@, resp.remaining()),
            s0 == old(store)@,
            l0 == log@,
        decreases l0.len() - resp.position(),
    {
        let ghost b1 = resp.remaining();
        let ghost p1 = resp.position();
        match resp.read() {
            Ok(m) => {
                if let Message::Null = m {
                    return Ok(());
                }
                let ghost k = (resp.position() - p1) as nat;
                assert(resp.remaining() =~= b1.subrange(k as int, b1.len() as int));
                let _ = handle_request(m, store);
            },
            Err(e) => {
                if e == DecodeError::Closed {
                    return Ok(());
                }
                return Err(e);
            },
        }
    }
}

/// The store after serving `reqs` in order on `s`.
pub open spec fn run(s: StoreView, reqs: Seq<WireValue>) -> StoreView
    decreases reqs.len(),
{
    if reqs.len() == 0 {
        s
    } else {
        run(request_store(s, reqs[0]), reqs.subrange(1, reqs.len() as int))
    }
}

/// The log that serving `reqs` appends to: the encoding of each request that
/// writes to the store, in order.
pub open spec fn log_of(reqs: Seq<WireValue>) -> Seq<u8>
    decreases reqs.len(),
{
    if reqs.len() == 0 {
        Seq::empty()
    } else {
        (if request_mutates(reqs[0]) {
            encode(reqs[0])
        } else {
            Seq::empty()
        }) + log_of(reqs.subrange(1, reqs.len() as int))
    }
}

/// A request that does not write leaves the store as it was.
proof fn lemma_read_only(s: StoreView, v: WireValue)
    requires
        !request_mutates(v),
    ensures
        request_store(s, v) == s,
{
}

proof fn lemma_bulks_encodable(items: Seq<WireValue>)
    requires
        forall|i: int|
            0 <= i < items.len() ==> (#[trigger] items[i]) is Bulk && items[i]->Bulk_0.len()
                <= usize::MAX,
    ensures
        items_encodable(items),
    decreases items.len(),
{
    if items.len() > 0 {
        let tail = items.subrange(1, items.len() as int);
        assert forall|i: int| 0 <= i < tail.len() implies (#[trigger] tail[i]) is Bulk && tail[i]->Bulk_0.len()
            <= usize::MAX by {
            assert(tail[i] == items[i + 1]);
        }
        lemma_bulks_encodable(tail);
        assert(items[0] is Bulk);
        assert(encodable(items[0]));
    }
}

/// A request that writes is an array of bulk strings, whose encoding
/// decodes back to it.
proof fn lemma_mutating_encodable(m: Message)
    requires
        request_mutates(m@),
    ensures
        encodable(m@),
        !(m@ is Null),
{
    if let Message::Array(items) = m {
        let vs = messages_view(items@);
        assert(m@ == WireValue::Array(vs)) by {
            assert(m@->Array_0 =~= vs);
        }
        let (c, args) = request_command(m@)->0;
        assert(args =~= vs.subrange(1, vs.len() as int));
        bulk_args_are_bulk(c, args);
        assert forall|i: int| 0 <= i < vs.len() implies (#[trigger] vs[i]) is Bulk && vs[i]->Bulk_0.len()
            <= usize::MAX by {
            if i > 0 {
                assert(args[i - 1] == vs[i]);
            }
            if let Message::Bulk(b) = items@[i] {
                assert(b@.len() == b.len());
            }
        }
        lemma_bulks_encodable(vs);
    }
}

/// Replay reproduces the store: serving `reqs` on `s` and replaying the log
/// of the requests that wrote, on the same starting store, give equal tables.
pub proof fn lemma_replay_reproduces(s: StoreView, reqs: Seq<Message>)
    ensures
        replay(s, log_of(messages_view(reqs))) == Ok::<StoreView, DecodeError>(run(s, messages_view(reqs))),
    decreases reqs.len(),
{
    let vs = messages_view(reqs);
    if reqs.len() == 0 {
        assert(log_of(vs) =~= Seq::<u8>::empty());
    } else {
        let v = vs[0];
        let tail = reqs.subrange(1, reqs.len() as int);
        assert(messages_view(tail) =~= vs.subrange(1, vs.len() as int));
        let rest = log_of(messages_view(tail));
        if request_mutates(v) {
            lemma_mutating_encodable(reqs[0]);
            lemma_round_trip(v, rest);
            lemma_encode_nonempty(v);
            let b = encode(v) + rest;
            assert(log_of(vs) == b);
            assert(b.subrange(encode(v).len() as int, b.len() as int) =~= rest);
            lemma_replay_reproduces(request_store(s, v), tail);
        } else {
            lemma_read_only(s, v);
            assert(log_of(vs) =~= rest);
            lemma_replay_reproduces(s, tail);
        }
    }
}

/// The log that serving a connection's bytes keeps, replayed on the store
/// that serving started from, gives the store that serving left.
pub proof fn lemma_session_log_replays(s: StoreView, b: Seq<u8>)
    ensures
        replay(s, serve(s, b).1) == Ok::<StoreView, DecodeError>(serve(s, b).0),
    decreases b.len(),
{
    match parse(b) {
        Ok((v, k)) => {
            if 0 < k <= b.len() {
                let rest = b.subrange(k as int, b.len() as int);
                let next = serve(request_store(s, v), rest);
                if request_mutates(v) {
                    let frame = b.subrange(0, k as int);
                    let log = frame + next.1;
                    assert(serve(s, b).1 == log);
                    lemma_parse_agree(b, log);
                    assert(log.subrange(k as int, log.len() as int) =~= next.1);
                    lemma_session_log_replays(request_store(s, v), rest);
                } else {
                    lemma_read_only(s, v);
                    assert(serve(s, b).1 =~= next.1);
                    lemma_session_log_replays(s, rest);
                }
            } else {
                assert(parse(Seq::<u8>::empty()) == Err::<(WireValue, nat), DecodeError>(DecodeError::Closed));
            }
        },
        Err(_) => {
            assert(parse(Seq::<u8>::empty()) == Err::<(WireValue, nat), DecodeError>(DecodeError::Closed));
        },
    }
}

} // verus!
