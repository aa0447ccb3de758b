//! The command handlers: each takes its arguments, reads or writes one
//! table, and returns the reply.
use vstd::prelude::*;
use vstd::utf8::{decode_utf8, valid_utf8};
use crate::message::{messages_view, utf8_string, Message, WireValue};
use crate::store::{lists, HashTable, Table};

verus! {

/// Exactly `n` arguments, each a bulk string.
pub open spec fn bulk_args(args: Seq<WireValue>, n: nat) -> bool {
    args.len() == n && forall|i: int| 0 <= i < n ==> (#[trigger] args[i]) is Bulk
}

/// The bytes of argument `i`.
pub open spec fn arg(args: Seq<WireValue>, i: int) -> Seq<u8> {
    args[i]->Bulk_0
}

pub open spec fn ok_reply() -> WireValue {
    WireValue::Simple("OK"@)
}

pub open spec fn ping_reply(args: Seq<WireValue>) -> WireValue {
    if args.len() == 0 {
        WireValue::Simple("PONG"@)
    } else if args[0] is Bulk {
        if valid_utf8(arg(args, 0)) {
            WireValue::Simple(decode_utf8(arg(args, 0)))
        } else {
            WireValue::Error("Invalid UTF-8"@)
        }
    } else {
        WireValue::Error("Protocol error: expected Bulk string"@)
    }
}

/// The table after a `SET`, and its reply.
pub open spec fn set_outcome(m: Map<Seq<u8>, Seq<u8>>, args: Seq<WireValue>) -> (Map<Seq<u8>, Seq<u8>>, WireValue) {
    if bulk_args(args, 2) {
        (m.insert(arg(args, 0), arg(args, 1)), ok_reply())
    } else {
        (m, WireValue::Error("ERR wrong number of arguments for 'set' command"@))
    }
}

pub open spec fn get_reply(m: Map<Seq<u8>, Seq<u8>>, args: Seq<WireValue>) -> WireValue {
    if bulk_args(args, 1) {
        if m.contains_key(arg(args, 0)) {
            WireValue::Bulk(m[arg(args, 0)])
        } else {
            WireValue::Null
        }
    } else {
        WireValue::Error("ERR wrong number of arguments for 'get' command"@)
    }
}

/// The field map under `key` after `field` is set to `value`.
pub open spec fn with_field(
    h: Map<Seq<u8>, Map<Seq<u8>, Seq<u8>>>,
    key: Seq<u8>,
    field: Seq<u8>,
    value: Seq<u8>,
) -> Map<Seq<u8>, Map<Seq<u8>, Seq<u8>>> {
    h.insert(
        key,
        if h.contains_key(key) {
            h[key]
        } else {
            Map::empty()
        }.insert(field, value),
    )
}

/// The table after an `HSET`, and its reply.
pub open spec fn hset_outcome(h: Map<Seq<u8>, Map<Seq<u8>, Seq<u8>>>, args: Seq<WireValue>) -> (
    Map<Seq<u8>, Map<Seq<u8>, Seq<u8>>>,
    WireValue,
) {
    if bulk_args(args, 3) {
        (with_field(h, arg(args, 0), arg(args, 1), arg(args, 2)), ok_reply())
    } else {
        (h, WireValue::Error("ERR wrong number of arguments for 'hset' command"@))
    }
}

pub open spec fn hget_reply(h: Map<Seq<u8>, Map<Seq<u8>, Seq<u8>>>, args: Seq<WireValue>) -> WireValue {
    if bulk_args(args, 2) {
        if h.contains_key(arg(args, 0)) && h[arg(args, 0)].contains_key(arg(args, 1)) {
            WireValue::Bulk(h[arg(args, 0)][arg(args, 1)])
        } else {
            WireValue::Null
        }
    } else {
        WireValue::Error("ERR wrong number of arguments for 'hget' command"@)
    }
}

/// Fields and values as bulk strings, each field followed by its value.
pub open spec fn field_values(ps: Seq<(Seq<u8>, Seq<u8>)>) -> Seq<WireValue>
    decreases ps.len(),
{
    if ps.len() == 0 {
        Seq::empty()
    } else {
        field_values(ps.drop_last()) + seq![WireValue::Bulk(ps.last().0), WireValue::Bulk(ps.last().1)]
    }
}

/// Whether `r` is a reply to `HGETALL` on `h`: the fields of the key in some
/// order, each followed by its value; `Null` for a key that is not there.
pub open spec fn hgetall_reply(h: Map<Seq<u8>, Map<Seq<u8>, Seq<u8>>>, args: Seq<WireValue>, r: WireValue) -> bool {
    if bulk_args(args, 1) {
        if h.contains_key(arg(args, 0)) {
            exists|ps: Seq<(Seq<u8>, Seq<u8>)>|
                lists(ps, h[arg(args, 0)]) && r == WireValue::Array(field_values(ps))
        } else {
            r == WireValue::Null
        }
    } else {
        r == WireValue::Error("ERR wrong number of arguments for 'hgetall' command"@)
    }
}

/// The arguments of `SET key value`.
pub open spec fn set_args(key: Seq<u8>, value: Seq<u8>) -> Seq<WireValue> {
    seq![WireValue::Bulk(key), WireValue::Bulk(value)]
}

/// The table after the `SET`s of `writes`, one after the other, in the
/// order in which the table's lock let them in.
pub open spec fn after_sets(m: Map<Seq<u8>, Seq<u8>>, writes: Seq<(Seq<u8>, Seq<u8>)>) -> Map<Seq<u8>, Seq<u8>>
    decreases writes.len(),
{
    if writes.len() == 0 {
        m
    } else {
        set_outcome(after_sets(m, writes.drop_last()), set_args(writes.last().0, writes.last().1)).0
    }
}

/// Whether write `i` is the last of `writes` to its key.
pub open spec fn last_write(writes: Seq<(Seq<u8>, Seq<u8>)>, i: int) -> bool {
    0 <= i < writes.len() && forall|j: int| i < j < writes.len() ==> writes[j].0 != writes[i].0
}

proof fn lemma_after_sets_step(m: Map<Seq<u8>, Seq<u8>>, writes: Seq<(Seq<u8>, Seq<u8>)>)
    requires
        writes.len() > 0,
    ensures
        after_sets(m, writes) == after_sets(m, writes.drop_last()).insert(writes.last().0, writes.last().1),
{
    assert(bulk_args(set_args(writes.last().0, writes.last().1), 2));
}

proof fn lemma_last_write_holds(m: Map<Seq<u8>, Seq<u8>>, writes: Seq<(Seq<u8>, Seq<u8>)>, i: int)
    requires
        last_write(writes, i),
    ensures
        after_sets(m, writes).contains_key(writes[i].0),
        after_sets(m, writes)[writes[i].0] == writes[i].1,
    decreases writes.len(),
{
    lemma_after_sets_step(m, writes);
    if i < writes.len() - 1 {
        let init = writes.drop_last();
        assert(init[i] == writes[i]);
        lemma_last_write_holds(m, init, i);
    }
}

proof fn lemma_unwritten_kept(m: Map<Seq<u8>, Seq<u8>>, writes: Seq<(Seq<u8>, Seq<u8>)>, k: Seq<u8>)
    requires
        forall|i: int| 0 <= i < writes.len() ==> writes[i].0 != k,
    ensures
        after_sets(m, writes).contains_key(k) == m.contains_key(k),
        m.contains_key(k) ==> after_sets(m, writes)[k] == m[k],
    decreases writes.len(),
{
    if writes.len() > 0 {
        lemma_after_sets_step(m, writes);
        let init = writes.drop_last();
        assert forall|i: int| 0 <= i < init.len() implies init[i].0 != k by {
            assert(init[i] == writes[i]);
        }
        assert(writes[writes.len() - 1].0 != k);
        lemma_unwritten_kept(m, init, k);
    }
}

/// Writers to one table, in whatever order its lock lets them in: each key
/// written holds the value of its last write, which is one of the values
/// written to it; a key nobody wrote is as it was. So where the keys are
/// distinct, a `GET` of each key gives the value written to it.
pub proof fn lemma_last_write_wins(m: Map<Seq<u8>, Seq<u8>>, writes: Seq<(Seq<u8>, Seq<u8>)>)
    ensures
        forall|i: int|
            #![trigger writes[i]]
            last_write(writes, i) ==> after_sets(m, writes).contains_key(writes[i].0)
                && after_sets(m, writes)[writes[i].0] == writes[i].1,
        forall|k: Seq<u8>|
            (forall|i: int| 0 <= i < writes.len() ==> writes[i].0 != k) ==> (#[trigger] after_sets(m, writes).contains_key(k)
                == m.contains_key(k) && (m.contains_key(k) ==> after_sets(m, writes)[k] == m[k])),
        forall|i: int|
            #![trigger writes[i]]
            0 <= i < writes.len() && (forall|j: int| 0 <= j < writes.len() && j != i ==> writes[j].0 != writes[i].0)
                ==> get_reply(after_sets(m, writes), seq![WireValue::Bulk(writes[i].0)])
                == WireValue::Bulk(writes[i].1),
{
    assert forall|i: int| #![trigger writes[i]] last_write(writes, i) implies after_sets(m, writes).contains_key(writes[i].0)
        && after_sets(m, writes)[writes[i].0] == writes[i].1 by {
        lemma_last_write_holds(m, writes, i);
    }
    assert forall|k: Seq<u8>| (forall|i: int| 0 <= i < writes.len() ==> writes[i].0 != k) implies (#[trigger] after_sets(m, writes).contains_key(k)
        == m.contains_key(k) && (m.contains_key(k) ==> after_sets(m, writes)[k] == m[k])) by {
        lemma_unwritten_kept(m, writes, k);
    }
    assert forall|i: int|
        #![trigger writes[i]]
        0 <= i < writes.len() && (forall|j: int| 0 <= j < writes.len() && j != i ==> writes[j].0 != writes[i].0)
            implies get_reply(after_sets(m, writes), seq![WireValue::Bulk(writes[i].0)])
            == WireValue::Bulk(writes[i].1) by {
        assert(last_write(writes, i));
        lemma_last_write_holds(m, writes, i);
        assert(bulk_args(seq![WireValue::Bulk(writes[i].0)], 1));
    }
}

/// Each handler with a fixed number of arguments refuses any other number
/// with its own error, and leaves its table as it was.
pub proof fn lemma_arity(
    m: Map<Seq<u8>, Seq<u8>>,
    h: Map<Seq<u8>, Map<Seq<u8>, Seq<u8>>>,
    args: Seq<WireValue>,
)
    ensures
        args.len() != 2 ==> set_outcome(m, args) == (
            m,
            WireValue::Error("ERR wrong number of arguments for 'set' command"@),
        ),
        args.len() != 1 ==> get_reply(m, args) == WireValue::Error(
            "ERR wrong number of arguments for 'get' command"@,
        ),
        args.len() != 3 ==> hset_outcome(h, args) == (
            h,
            WireValue::Error("ERR wrong number of arguments for 'hset' command"@),
        ),
        args.len() != 2 ==> hget_reply(h, args) == WireValue::Error(
            "ERR wrong number of arguments for 'hget' command"@,
        ),
        forall|r: WireValue|
            args.len() != 1 ==> (hgetall_reply(h, args, r) <==> r == WireValue::Error(
                "ERR wrong number of arguments for 'hgetall' command"@,
            )),
{
}

/// `PING`: `PONG` without arguments, else the text of the first argument.
pub fn ping(args: Vec<Message>, _sets: &Table) -> (r: Message)
    ensures
        r@ == ping_reply(messages_view(args@)),
{
    if args.len() == 0 {
        return Message::simple("PONG");
    }
    let mut args = args;
    let ghost a = messages_view(args@);
    let first = args.remove(0);
    assert(first@ == a[0]);
    match first {
        Message::Bulk(b) => match utf8_string(b) {
            Some(t) => Message::Simple(t),
            None => Message::error("Invalid UTF-8"),
        },
        _ => Message::error("Protocol error: expected Bulk string"),
    }
}

/// `SET key value`.
pub fn set(args: Vec<Message>, sets: &mut Table) -> (r: Message)
    requires
        old(sets).wf(),
    ensures
        final(sets).wf(),
        (final(sets)@, r@) == set_outcome(old(sets)@, messages_view(args@)),
{
    let ghost a = messages_view(args@);
    if args.len() == 2 {
        let mut args = args;
        let value = args.remove(1);
        let key = args.remove(0);
        assert(key@ == a[0] && value@ == a[1]);
        if let Message::Bulk(k) = key {
            if let Message::Bulk(v) = value {
                sets.insert(k, v);
                return Message::simple("OK");
            }
        }
    }
    Message::error("ERR wrong number of arguments for 'set' command")
}

/// `GET key`.
pub fn get(args: Vec<Message>, sets: &Table) -> (r: Message)
    requires
        sets.wf(),
    ensures
        r@ == get_reply(sets@, messages_view(args@)),
{
    let ghost a = messages_view(args@);
    if args.len() == 1 {
        let mut args = args;
        let key = args.remove(0);
        assert(key@ == a[0]);
        if let Message::Bulk(k) = key {
            return match sets.get(&k) {
                Some(value) => Message::bulk(value),
                None => Message::Null,
            };
        }
    }
    Message::error("ERR wrong number of arguments for 'get' command")
}

/// `HSET key field value`.
pub fn hset(args: Vec<Message>, hsets: &mut HashTable) -> (r: Message)
    requires
        old(hsets).wf(),
    ensures
        final(hsets).wf(),
        (final(hsets)@, r@) == hset_outcome(old(hsets)@, messages_view(args@)),
{
    let ghost a = messages_view(args@);
    if args.len() == 3 {
        let mut args = args;
        let value = args.remove(2);
        let field = args.remove(1);
        let key = args.remove(0);
        assert(key@ == a[0] && field@ == a[1] && value@ == a[2]);
        if let Message::Bulk(k) = key {
            if let Message::Bulk(f) = field {
                if let Message::Bulk(v) = value {
                    hsets.set_field(k, f, v);
                    return Message::simple("OK");
                }
            }
        }
    }
    Message::error("ERR wrong number of arguments for 'hset' command")
}

/// `HGET key field`.
pub fn hget(args: Vec<Message>, hsets: &HashTable) -> (r: Message)
    requires
        hsets.wf(),
    ensures
        r@ == hget_reply(hsets@, messages_view(args@)),
{
    let ghost a = messages_view(args@);
    if args.len() == 2 {
        let mut args = args;
        let field = args.remove(1);
        let key = args.remove(0);
        assert(key@ == a[0] && field@ == a[1]);
        if let Message::Bulk(k) = key {
            if let Message::Bulk(f) = field {
                return match hsets.get_field(&k, &f) {
                    Some(value) => Message::bulk(value),
                    None => Message::Null,
                };
            }
        }
    }
    Message::error("ERR wrong number of arguments for 'hget' command")
}

/// `HGETALL key`.
pub fn hgetall(args: Vec<Message>, hsets: &HashTable) -> (r: Message)
    requires
        hsets.wf(),
    ensures
        hgetall_reply(hsets@, messages_view(args@), r@),
{
    let ghost a = messages_view(args@);
    if args.len() == 1 {
        let mut args = args;
        let key = args.remove(0);
        assert(key@ == a[0]);
        if let Message::Bulk(k) = key {
            return match hsets.get(&k) {
                Some(t) => {
                    let ghost ps = t.pairs();
                    let n = t.len();
                    let mut items: Vec<Message> = Vec::new();
                    let mut i: usize = 0;
                    while i < n
                        invariant
                            t.wf(),
                            n == ps.len(),
                            ps == t.pairs(),
                            i <= n,
                            messages_view(items@) == field_values(ps.subrange(0, i as int)),
                        decreases n - i,
                    {
                        let (f, v) = t.entry_at(i);
                        items.push(Message::bulk(f));
                        items.push(Message::bulk(v));
                        assert(ps.subrange(0, i + 1).drop_last() =~= ps.subrange(0, i as int));
                        assert(messages_view(items@) =~= field_values(ps.subrange(0, i + 1)));
                        i = i + 1;
                    }
                    assert(ps.subrange(0, i as int) =~= ps);
                    let r = Message::array(items);
                    assert(lists(ps, hsets@[k@]));
                    r
                },
                None => Message::Null,
            };
        }
    }
    Message::error("ERR wrong number of arguments for 'hgetall' command")
}

} // verus!
