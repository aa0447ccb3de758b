//! The fixed set of commands, the registry that finds them by name, and the
//! dispatch of one request to its handler.
use vstd::prelude::*;
use vstd::utf8::{decode_utf8, encode_utf8, valid_utf8};
use crate::handlers::{
    bulk_args, get_reply, hget_reply, hgetall_reply, hset_outcome, ping_reply, set_outcome,
};
use crate::message::{messages_view, utf8_string, Message, WireValue};
use crate::store::{Store, StoreView};

verus! {

/// The uppercase form of a text, as `str::to_uppercase` gives it.
pub uninterp spec fn upper_of(s: Seq<char>) -> Seq<char>;

/// Relies on `str::to_uppercase`: the uppercase form depends on the
/// characters of the text alone.
#[verifier::external_body]
fn uppercase(s: &str) -> (r: String)
    ensures
        r@ == upper_of(s@),
{
    s.to_uppercase()
}

/// The commands that the store serves.
#[derive(Clone, Copy, Debug, PartialEq, Eq, Structural)]
pub enum Command {
    Ping,
    SetKey,
    GetKey,
    HSet,
    HGet,
    HGetAll,
}

/// The command whose name has these UTF-8 bytes, matched exactly:
/// `PING`, `SET`, `GET`, `HSET`, `HGET` or `HGETALL`.
pub open spec fn command_of(name: Seq<u8>) -> Option<Command> {
    // P I N G
    if name == seq![80u8, 73u8, 78u8, 71u8] {
        Some(Command::Ping)
    // S E T
    } else if name == seq![83u8, 69u8, 84u8] {
        Some(Command::SetKey)
    // G E T
    } else if name == seq![71u8, 69u8, 84u8] {
        Some(Command::GetKey)
    // H S E T
    } else if name == seq![72u8, 83u8, 69u8, 84u8] {
        Some(Command::HSet)
    // H G E T
    } else if name == seq![72u8, 71u8, 69u8, 84u8] {
        Some(Command::HGet)
    // H G E T A L L
    } else if name == seq![72u8, 71u8, 69u8, 84u8, 65u8, 76u8, 76u8] {
        Some(Command::HGetAll)
    } else {
        None
    }
}

/// The store after command `c` with arguments `args`.
pub open spec fn command_store(c: Command, s: StoreView, args: Seq<WireValue>) -> StoreView {
    match c {
        Command::SetKey => StoreView { strings: set_outcome(s.strings, args).0, hashes: s.hashes },
        Command::HSet => StoreView { strings: s.strings, hashes: hset_outcome(s.hashes, args).0 },
        _ => s,
    }
}

/// Whether `r` is a reply of command `c` with arguments `args` on store `s`.
pub open spec fn command_reply(c: Command, s: StoreView, args: Seq<WireValue>, r: WireValue) -> bool {
    match c {
        Command::Ping => r == ping_reply(args),
        Command::SetKey => r == set_outcome(s.strings, args).1,
        Command::GetKey => r == get_reply(s.strings, args),
        Command::HSet => r == hset_outcome(s.hashes, args).1,
        Command::HGet => r == hget_reply(s.hashes, args),
        Command::HGetAll => hgetall_reply(s.hashes, args, r),
    }
}

/// Whether command `c` with arguments `args` writes to the store: a `SET` or
/// an `HSET` with the arguments it needs.
pub open spec fn command_mutates(c: Command, args: Seq<WireValue>) -> bool {
    (c == Command::SetKey && bulk_args(args, 2)) || (c == Command::HSet && bulk_args(args, 3))
}

/// The arguments of a command that writes are bulk strings.
pub proof fn bulk_args_are_bulk(c: Command, args: Seq<WireValue>)
    requires
        command_mutates(c, args),
    ensures
        forall|i: int| 0 <= i < args.len() ==> (#[trigger] args[i]) is Bulk,
{
}

/// A handler of a command: it takes the arguments and the store, and gives
/// the reply.
pub trait Handler {
    spec fn outcome(&self, s: StoreView, args: Seq<WireValue>, s2: StoreView, r: WireValue) -> bool;

    fn call(&self, args: Vec<Message>, store: &mut Store) -> (r: Message)
        requires
            old(store).wf(),
        ensures
            final(store).wf(),
            self.outcome(old(store)@, messages_view(args@), final(store)@, r@),
    ;
}

impl Handler for Command {
    open spec fn outcome(&self, s: StoreView, args: Seq<WireValue>, s2: StoreView, r: WireValue) -> bool {
        s2 == command_store(*self, s, args) && command_reply(*self, s, args, r)
    }

    fn call(&self, args: Vec<Message>, store: &mut Store) -> (r: Message) {
        match self {
            Command::Ping => crate::handlers::ping(args, &store.strings),
            Command::SetKey => crate::handlers::set(args, &mut store.strings),
            Command::GetKey => crate::handlers::get(args, &store.strings),
            Command::HSet => crate::handlers::hset(args, &mut store.hashes),
            Command::HGet => crate::handlers::hget(args, &store.hashes),
            Command::HGetAll => crate::handlers::hgetall(args, &store.hashes),
        }
    }
}

impl Command {
    /// The command of exactly this name.
    pub fn from_name(name: &str) -> (r: Option<Command>)
        ensures
            r == command_of(encode_utf8(name@)),
    {
        let b = name.as_bytes();
        let ghost n = encode_utf8(name@);
        assert(b@ == n);
        if b.len() == 4 && b[0] == 80u8 && b[1] == 73u8 && b[2] == 78u8 && b[3] == 71u8 {
            assert(n =~= seq![80u8, 73u8, 78u8, 71u8]);
            Some(Command::Ping)
        } else if b.len() == 3 && b[0] == 83u8 && b[1] == 69u8 && b[2] == 84u8 {
            assert(n =~= seq![83u8, 69u8, 84u8]);
            Some(Command::SetKey)
        } else if b.len() == 3 && b[0] == 71u8 && b[1] == 69u8 && b[2] == 84u8 {
            assert(n =~= seq![71u8, 69u8, 84u8]);
            Some(Command::GetKey)
        } else if b.len() == 4 && b[0] == 72u8 && b[1] == 83u8 && b[2] == 69u8 && b[3] == 84u8 {
            assert(n =~= seq![72u8, 83u8, 69u8, 84u8]);
            Some(Command::HSet)
        } else if b.len() == 4 && b[0] == 72u8 && b[1] == 71u8 && b[2] == 69u8 && b[3] == 84u8 {
            assert(n =~= seq![72u8, 71u8, 69u8, 84u8]);
            Some(Command::HGet)
        } else if b.len() == 7 && b[0] == 72u8 && b[1] == 71u8 && b[2] == 69u8 && b[3] == 84u8
            && b[4] == 65u8 && b[5] == 76u8 && b[6] == 76u8 {
            assert(n =~= seq![72u8, 71u8, 69u8, 84u8, 65u8, 76u8, 76u8]);
            Some(Command::HGetAll)
        } else {
            None
        }
    }
}

/// Whether all of `args` are bulk strings and there are exactly `n` of them.
fn is_bulk_args(args: &Vec<Message>, n: usize) -> (r: bool)
    ensures
        r == bulk_args(messages_view(args@), n as nat),
{
    if args.len() != n {
        return false;
    }
    let mut i: usize = 0;
    while i < n
        invariant
            args.len() == n,
            i <= n,
            forall|k: int| 0 <= k < i ==> (#[trigger] messages_view(args@)[k]) is Bulk,
        decreases n - i,
    {
        match &args[i] {
            Message::Bulk(_) => {},
            _ => {
                assert(!(messages_view(args@)[i as int] is Bulk));
                return false;
            },
        }
        i = i + 1;
    }
    true
}

/// The handlers of the commands, found by name. The set of commands is fixed,
/// so the registry holds no table of its own.
pub struct Registry {}

/// The registry of the commands.
pub fn init_handler_funcs() -> (r: Registry) {
    Registry {}
}

impl Registry {
    /// The handler of exactly this name.
    pub fn get(&self, name: &str) -> (r: Option<Command>)
        ensures
            r == command_of(encode_utf8(name@)),
    {
        Command::from_name(name)
    }

    /// Whether a handler has exactly this name.
    pub fn contains_key(&self, name: &str) -> (r: bool)
        ensures
            r == command_of(encode_utf8(name@)) is Some,
    {
        self.get(name).is_some()
    }
}

/// What running the command of the name whose UTF-8 bytes are `name` does,
/// on store `s` and with arguments `args`: the store after it becomes `s2`,
/// `r` is its reply, and `wrote` tells whether it wrote. A name that is no
/// command gets an empty simple string.
pub open spec fn dispatched(
    name: Seq<u8>,
    s: StoreView,
    args: Seq<WireValue>,
    s2: StoreView,
    r: WireValue,
    wrote: bool,
) -> bool {
    match command_of(name) {
        Some(c) => s2 == command_store(c, s, args) && command_reply(c, s, args, r) && wrote
            == command_mutates(c, args),
        None => s2 == s && r == WireValue::Simple(""@) && !wrote,
    }
}

/// Runs the command of exactly this name, which is already in uppercase:
/// its reply, and whether it wrote to the store.
pub fn dispatch_folded(name: &str, args: Vec<Message>, store: &mut Store) -> (r: (Message, bool))
    requires
        old(store).wf(),
    ensures
        final(store).wf(),
        dispatched(encode_utf8(name@), old(store)@, messages_view(args@), final(store)@, r.0@, r.1),
{
    match Command::from_name(name) {
        Some(c) => {
            let mutates = match c {
                Command::SetKey => is_bulk_args(&args, 2),
                Command::HSet => is_bulk_args(&args, 3),
                _ => false,
            };
            let reply = c.call(args, store);
            (reply, mutates)
        },
        None => (Message::simple(""), false),
    }
}

/// Runs the command whose name is `name` in any case: the name is put in
/// uppercase and then looked up.
pub fn dispatch(name: &str, args: Vec<Message>, store: &mut Store) -> (r: (Message, bool))
    requires
        old(store).wf(),
    ensures
        final(store).wf(),
        dispatched(encode_utf8(upper_of(name@)), old(store)@, messages_view(args@), final(store)@, r.0@, r.1),
{
    let upper = uppercase(name);
    dispatch_folded(upper.as_str(), args, store)
}

/// The name of a command as the registry looks it up: the uppercase form of
/// its text, as UTF-8 bytes.
pub open spec fn folded_name(raw: Seq<u8>) -> Seq<u8> {
    encode_utf8(upper_of(decode_utf8(raw)))
}

/// The command and arguments of a request: an array whose first element is
/// a bulk string holding the UTF-8 name of a known command.
pub open spec fn request_command(req: WireValue) -> Option<(Command, Seq<WireValue>)> {
    match req {
        WireValue::Array(items) => if items.len() > 0 && items[0] is Bulk && valid_utf8(items[0]->Bulk_0) {
            match command_of(folded_name(items[0]->Bulk_0)) {
                Some(c) => Some((c, items.subrange(1, items.len() as int))),
                None => None,
            }
        } else {
            None
        },
        _ => None,
    }
}

/// The store after a request.
pub open spec fn request_store(s: StoreView, req: WireValue) -> StoreView {
    match request_command(req) {
        Some((c, args)) => command_store(c, s, args),
        None => s,
    }
}

/// Whether a request writes to the store, and so belongs in the log.
pub open spec fn request_mutates(req: WireValue) -> bool {
    match request_command(req) {
        Some((c, args)) => command_mutates(c, args),
        None => false,
    }
}

/// Whether `r` is the reply to a request on store `s`. An empty array gets
/// none; a name that is not a command gets an empty simple string.
pub open spec fn request_reply(s: StoreView, req: WireValue, r: Option<WireValue>) -> bool {
    match req {
        WireValue::Array(items) => if items.len() == 0 {
            r is None
        } else if items[0] is Bulk && valid_utf8(items[0]->Bulk_0) {
            match request_command(req) {
                Some((c, args)) => r is Some && command_reply(c, s, args, r->0),
                None => r == Some(WireValue::Simple(""@)),
            }
        } else {
            r == Some(WireValue::Error("Commands must be valid UTF-8"@))
        },
        _ => r == Some(WireValue::Error("Protocol error: expected '*'"@)),
    }
}

/// Serves one decoded request: the reply, if any, and whether the request
/// wrote to the store.
pub fn handle_request(request: Message, store: &mut Store) -> (r: (Option<Message>, bool))
    requires
        old(store).wf(),
    ensures
        final(store).wf(),
        final(store)@ == request_store(old(store)@, request@),
        r.1 == request_mutates(request@),
        request_reply(
            old(store)@,
            request@,
            match r.0 {
                Some(m) => Some(m@),
                None => None,
            },
        ),
{
    match request {
        Message::Array(items) => {
            if items.len() == 0 {
                return (None, false);
            }
            let ghost all = messages_view(items@);
            let mut items = items;
            let name = items.remove(0);
            assert(name@ == all[0]);
            assert(messages_view(items@) =~= all.subrange(1, all.len() as int));
            let raw = match name {
                Message::Bulk(raw) => raw,
                _ => {
                    return (Some(Message::error("Commands must be valid UTF-8")), false);
                },
            };
            let text = match utf8_string(raw) {
                Some(t) => t,
                None => {
                    return (Some(Message::error("Commands must be valid UTF-8")), false);
                },
            };
            let (reply, mutates) = dispatch(text.as_str(), items, store);
            (Some(reply), mutates)
        },
        _ => (Some(Message::error("Protocol error: expected '*'")), false),
    }
}

} // verus!
