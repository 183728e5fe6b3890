//! The command layer: turning a decoded protocol value into a typed
//! command, and executing commands against the store.
//!
//! A command arrives as an array of bulk strings whose first element is
//! the case-insensitive command name. Arity and argument types are
//! checked here; the executor maps each command to one store operation
//! and one reply value.

use vstd::prelude::*;

use crate::num::parse_uint_spec;
use crate::resp::{spec_encode, spec_lower, RespDT, RespVal};
use crate::store::{entry_expired, Db, EntryVal};

verus! {

/// `PING` takes no arguments and is answered with a fixed greeting.
#[derive(Debug)]
pub struct PingCommand;

/// `ECHO <message>` is answered with the message itself.
#[derive(Debug)]
pub struct EchoCommand {
    pub message: Vec<u8>,
}

/// `SET <key> <value> [PX <milliseconds>]` stores the value under the
/// key; the optional expiry is already absolute here, computed from the
/// clock reading taken when the command was parsed.
#[derive(Debug)]
pub struct SetCommand {
    pub key: Vec<u8>,
    pub value: Vec<u8>,
    pub expiry: Option<u64>,
}

/// `GET <key>` is answered with the stored value or the null bulk marker.
#[derive(Debug)]
pub struct GetCommand {
    pub key: Vec<u8>,
}

/// A typed, validated command.
#[derive(Debug)]
pub enum Command {
    Ping(PingCommand),
    Echo(EchoCommand),
    SetKey(SetCommand),
    Get(GetCommand),
}

/// Why a decoded value is not a command.
#[derive(Debug, Clone, Copy, PartialEq, Eq, Structural)]
pub enum CommandError {
    /// The command name names no command.
    UnknownCommand,
    /// The value is not an array headed by a bulk string, or an argument
    /// that must be a bulk string is not one.
    InvalidCommand,
    /// The command name is known but the argument count or the expiry
    /// argument is wrong.
    InvalidArguments,
}

/// The mathematical abstraction of a [`Command`].
pub ghost enum CommandVal {
    Ping,
    Echo(Seq<u8>),
    SetKey(Seq<u8>, Seq<u8>, Option<u64>),
    Get(Seq<u8>),
}

impl DeepView for Command {
    type V = CommandVal;

    open spec fn deep_view(&self) -> CommandVal {
        match self {
            Command::Ping(_) => CommandVal::Ping,
            Command::Echo(c) => CommandVal::Echo(c.message@),
            Command::SetKey(c) => CommandVal::SetKey(c.key@, c.value@, c.expiry),
            Command::Get(c) => CommandVal::Get(c.key@),
        }
    }
}

/// The bytes of the command name `ping`.
pub open spec fn name_ping() -> Seq<u8> {
    seq![112u8, 105u8, 110u8, 103u8]
}

/// The bytes of the command name `echo`.
pub open spec fn name_echo() -> Seq<u8> {
    seq![101u8, 99u8, 104u8, 111u8]
}

/// The bytes of the command name `set`.
pub open spec fn name_set() -> Seq<u8> {
    seq![115u8, 101u8, 116u8]
}

/// The bytes of the command name `get`.
pub open spec fn name_get() -> Seq<u8> {
    seq![103u8, 101u8, 116u8]
}

/// The bytes of the expiry modifier keyword `px`.
pub open spec fn name_px() -> Seq<u8> {
    seq![112u8, 120u8]
}

/// What parsing a decoded value as a command yields, with `now` the
/// clock reading in milliseconds used to turn a relative expiry into an
/// absolute one.
///
/// The value must be an array headed by a bulk-string name, compared
/// case-insensitively. `ping` takes any argument list and ignores it;
/// `echo` and `get` take exactly one bulk argument; `set` takes two bulk
/// arguments, or four where the third is the keyword `px` (again
/// case-insensitive) and the fourth a decimal millisecond count that,
/// added to `now`, stays within 64 bits. A known name with any other
/// argument count — or an expiry that does not parse or overflows — is an
/// argument error; a non-bulk argument in a required position is an
/// invalid command; an unknown name is an unknown command.
pub open spec fn spec_parse(v: RespVal, now: u64) -> Result<CommandVal, CommandError> {
    if !(v is Array && v->Array_0.len() >= 1 && v->Array_0[0] is Bulk) {
        Err(CommandError::InvalidCommand)
    } else {
        let elems = v->Array_0;
        let name = spec_lower(elems[0]->Bulk_0);
        let nargs = elems.len() - 1;
        if name == name_ping() {
            Ok(CommandVal::Ping)
        } else if name == name_echo() {
            if nargs != 1 {
                Err(CommandError::InvalidArguments)
            } else if !(elems[1] is Bulk) {
                Err(CommandError::InvalidCommand)
            } else {
                Ok(CommandVal::Echo(elems[1]->Bulk_0))
            }
        } else if name == name_set() {
            if nargs < 2 {
                Err(CommandError::InvalidArguments)
            } else if !(elems[1] is Bulk && elems[2] is Bulk) {
                Err(CommandError::InvalidCommand)
            } else if nargs == 2 {
                Ok(CommandVal::SetKey(elems[1]->Bulk_0, elems[2]->Bulk_0, None))
            } else if nargs == 4 {
                if !(elems[3] is Bulk) {
                    Err(CommandError::InvalidCommand)
                } else if spec_lower(elems[3]->Bulk_0) != name_px() {
                    Err(CommandError::InvalidArguments)
                } else if !(elems[4] is Bulk) {
                    Err(CommandError::InvalidCommand)
                } else {
                    match parse_uint_spec(elems[4]->Bulk_0) {
                        Some(ms) => if now + ms <= u64::MAX {
                            Ok(
                                CommandVal::SetKey(
                                    elems[1]->Bulk_0,
                                    elems[2]->Bulk_0,
                                    Some((now + ms) as u64),
                                ),
                            )
                        } else {
                            Err(CommandError::InvalidArguments)
                        },
                        None => Err(CommandError::InvalidArguments),
                    }
                }
            } else {
                Err(CommandError::InvalidArguments)
            }
        } else if name == name_get() {
            if nargs != 1 {
                Err(CommandError::InvalidArguments)
            } else if !(elems[1] is Bulk) {
                Err(CommandError::InvalidCommand)
            } else {
                Ok(CommandVal::Get(elems[1]->Bulk_0))
            }
        } else {
            Err(CommandError::UnknownCommand)
        }
    }
}

/// Whether a byte vector holds exactly the bytes of `kw`.
fn is_keyword(v: &Vec<u8>, kw: &Vec<u8>) -> (r: bool)
    ensures
        r == (v@ == kw@),
{
    if v.len() != kw.len() {
        assert(v@ != kw@);
        return false;
    }
    let n = v.len();
    let mut i: usize = 0;
    while i < n
        invariant
            i <= n,
            n == v@.len() == kw@.len(),
            forall|j: int| 0 <= j < i ==> v@[j] == kw@[j],
        decreases n - i,
    {
        if v[i] != kw[i] {
            return false;
        }
        i = i + 1;
    }
    proof {
        assert(v@ =~= kw@);
    }
    true
}

impl Command {
    /// Parses a decoded protocol value into a command, turning a
    /// relative `PX` expiry into an absolute timestamp using
    /// `now_millis`, the current clock reading in milliseconds.
    pub fn try_from(resp: RespDT, now_millis: u64) -> (r: Result<Command, CommandError>)
        ensures
            match r {
                Ok(c) => spec_parse(resp.deep_view(), now_millis) == Ok::<
                    CommandVal,
                    CommandError,
                >(c.deep_view()),
                Err(e) => spec_parse(resp.deep_view(), now_millis) == Err::<
                    CommandVal,
                    CommandError,
                >(e),
            },
    {
        let ghost dv = resp.deep_view();
        let (cmd, mut args) = match resp.extract_array() {
            Some(p) => p,
            None => {
                return Err(CommandError::InvalidCommand);
            },
        };
        let ghost elems = dv->Array_0;
        let ghost s0 = args@;
        proof {
            assert(args.deep_view() =~= elems.skip(1));
            assert forall|j: int| 0 <= j < s0.len() implies (#[trigger] s0[j]).deep_view()
                == elems[j + 1] by {
                assert(args.deep_view()[j] == s0[j].deep_view());
                assert(elems.skip(1)[j] == elems[j + 1]);
            }
        }
        let nargs = args.len();
        let kw_ping: Vec<u8> = vec![112u8, 105u8, 110u8, 103u8];
        let kw_echo: Vec<u8> = vec![101u8, 99u8, 104u8, 111u8];
        let kw_set: Vec<u8> = vec![115u8, 101u8, 116u8];
        let kw_get: Vec<u8> = vec![103u8, 101u8, 116u8];
        if is_keyword(&cmd, &kw_ping) {
            Ok(Command::Ping(PingCommand))
        } else if is_keyword(&cmd, &kw_echo) {
            if nargs != 1 {
                return Err(CommandError::InvalidArguments);
            }
            let first = args.remove(0);
            proof {
                assert(first == s0[0]);
            }
            match first.extract_bulk_str() {
                Some(message) => Ok(Command::Echo(EchoCommand { message })),
                None => Err(CommandError::InvalidCommand),
            }
        } else if is_keyword(&cmd, &kw_set) {
            if nargs < 2 {
                return Err(CommandError::InvalidArguments);
            }
            let first = args.remove(0);
            let second = args.remove(0);
            proof {
                assert(first == s0[0]);
                assert(second == s0.remove(0)[0]);
                assert(second == s0[1]);
            }
            let key = match first.extract_bulk_str() {
                Some(k) => k,
                None => {
                    return Err(CommandError::InvalidCommand);
                },
            };
            let value = match second.extract_bulk_str() {
                Some(v) => v,
                None => {
                    return Err(CommandError::InvalidCommand);
                },
            };
            if nargs == 2 {
                Ok(Command::SetKey(SetCommand { key, value, expiry: None }))
            } else if nargs == 4 {
                let third = args.remove(0);
                let fourth = args.remove(0);
                proof {
                    assert(third == s0.remove(0).remove(0)[0]);
                    assert(third == s0[2]);
                    assert(fourth == s0.remove(0).remove(0).remove(0)[0]);
                    assert(fourth == s0[3]);
                }
                let word = match third.extract_bulk_str() {
                    Some(w) => w,
                    None => {
                        return Err(CommandError::InvalidCommand);
                    },
                };
                let kw_px: Vec<u8> = vec![112u8, 120u8];
                let lowered = crate::resp::to_ascii_lower(&word);
                if !is_keyword(&lowered, &kw_px) {
                    return Err(CommandError::InvalidArguments);
                }
                let ms_bytes = match fourth.extract_bulk_str() {
                    Some(m) => m,
                    None => {
                        return Err(CommandError::InvalidCommand);
                    },
                };
                let ms = match crate::num::parse_u64(ms_bytes.as_slice()) {
                    Some(ms) => ms,
                    None => {
                        return Err(CommandError::InvalidArguments);
                    },
                };
                if ms > u64::MAX - now_millis {
                    return Err(CommandError::InvalidArguments);
                }
                Ok(Command::SetKey(SetCommand { key, value, expiry: Some(now_millis + ms) }))
            } else {
                Err(CommandError::InvalidArguments)
            }
        } else if is_keyword(&cmd, &kw_get) {
            if nargs != 1 {
                return Err(CommandError::InvalidArguments);
            }
            let first = args.remove(0);
            proof {
                assert(first == s0[0]);
            }
            match first.extract_bulk_str() {
                Some(key) => Ok(Command::Get(GetCommand { key })),
                None => Err(CommandError::InvalidCommand),
            }
        } else {
            Err(CommandError::UnknownCommand)
        }
    }
}

/// The bytes of the `PONG` greeting.
pub open spec fn pong_bytes() -> Seq<u8> {
    seq![80u8, 79u8, 78u8, 71u8]
}

/// The bytes of the `OK` acknowledgement.
pub open spec fn ok_bytes() -> Seq<u8> {
    seq![79u8, 75u8]
}

/// The reply a command earns against store contents `m` at time `now`:
/// `PING` a fixed greeting, `ECHO` its message verbatim, `SET` an
/// unconditional acknowledgement, `GET` the live stored value or the
/// null bulk marker when the key is absent or expired.
pub open spec fn spec_reply(c: CommandVal, m: Map<Seq<u8>, EntryVal>, now: u64) -> RespVal {
    match c {
        CommandVal::Ping => RespVal::SimpleString(pong_bytes()),
        CommandVal::Echo(msg) => RespVal::SimpleString(msg),
        CommandVal::SetKey(_, _, _) => RespVal::SimpleString(ok_bytes()),
        CommandVal::Get(k) => if m.contains_key(k) && !entry_expired(m[k], now) {
            RespVal::SimpleString(m[k].value)
        } else {
            RespVal::Null
        },
    }
}

/// How a command changes store contents `m` at time `now`: `SET` inserts
/// or overwrites its key, `GET` removes the key it finds expired, and
/// everything else leaves the store alone.
pub open spec fn spec_store_after(
    c: CommandVal,
    m: Map<Seq<u8>, EntryVal>,
    now: u64,
) -> Map<Seq<u8>, EntryVal> {
    match c {
        CommandVal::SetKey(k, v, e) => m.insert(k, EntryVal { value: v, expiry: e }),
        CommandVal::Get(k) => if m.contains_key(k) && entry_expired(m[k], now) {
            m.remove(k)
        } else {
            m
        },
        _ => m,
    }
}

impl PingCommand {
    /// The encoded reply to `PING`.
    pub fn response_bytes(&self) -> (r: Vec<u8>)
        ensures
            r@ == spec_encode(RespVal::SimpleString(pong_bytes())),
    {
        let pong: Vec<u8> = vec![80u8, 79u8, 78u8, 71u8];
        RespDT::SimpleString(pong).encode_raw()
    }
}

impl EchoCommand {
    /// The encoded reply to `ECHO`: the message, byte for byte.
    pub fn response_bytes(&self) -> (r: Vec<u8>)
        ensures
            r@ == spec_encode(RespVal::SimpleString(self.message@)),
    {
        let copy = vstd::slice::slice_to_vec(self.message.as_slice());
        RespDT::SimpleString(copy).encode_raw()
    }
}

impl SetCommand {
    /// Stores the value and returns the encoded acknowledgement.
    pub fn response_bytes(&self, db: &mut Db) -> (r: Vec<u8>)
        requires
            old(db).wf(),
        ensures
            final(db).wf(),
            final(db)@ == old(db)@.insert(
                self.key@,
                EntryVal { value: self.value@, expiry: self.expiry },
            ),
            r@ == spec_encode(RespVal::SimpleString(ok_bytes())),
    {
        let key = vstd::slice::slice_to_vec(self.key.as_slice());
        let value = vstd::slice::slice_to_vec(self.value.as_slice());
        db.store(key, value, self.expiry);
        let ok: Vec<u8> = vec![79u8, 75u8];
        RespDT::SimpleString(ok).encode_raw()
    }
}

impl GetCommand {
    /// Looks the key up at time `now` and returns the encoded reply.
    pub fn response_bytes(&self, db: &mut Db, now: u64) -> (r: Vec<u8>)
        requires
            old(db).wf(),
        ensures
            final(db).wf(),
            final(db)@ == spec_store_after(CommandVal::Get(self.key@), old(db)@, now),
            r@ == spec_encode(spec_reply(CommandVal::Get(self.key@), old(db)@, now)),
    {
        match db.fetch(&self.key, now) {
            Some(val) => RespDT::SimpleString(val).encode_raw(),
            None => RespDT::Null.encode_raw(),
        }
    }
}

impl Command {
    /// Executes this command against the store at time `now` and returns
    /// the encoded reply: exactly one store operation, exactly one reply.
    pub fn execute(&self, db: &mut Db, now: u64) -> (r: Vec<u8>)
        requires
            old(db).wf(),
        ensures
            final(db).wf(),
            final(db)@ == spec_store_after(self.deep_view(), old(db)@, now),
            r@ == spec_encode(spec_reply(self.deep_view(), old(db)@, now)),
    {
        match self {
            Command::Ping(c) => c.response_bytes(),
            Command::Echo(c) => c.response_bytes(),
            Command::SetKey(c) => c.response_bytes(db),
            Command::Get(c) => c.response_bytes(db, now),
        }
    }
}

/// The reply text for a command-level error.
pub open spec fn error_message(e: CommandError) -> Seq<u8> {
    match e {
        CommandError::UnknownCommand => seq![
            69u8, 82u8, 82u8, 32u8, 117u8, 110u8, 107u8, 110u8, 111u8, 119u8, 110u8, 32u8,
            99u8, 111u8, 109u8, 109u8, 97u8, 110u8, 100u8,
        ],
        CommandError::InvalidCommand => seq![
            69u8, 82u8, 82u8, 32u8, 105u8, 110u8, 118u8, 97u8, 108u8, 105u8, 100u8, 32u8,
            99u8, 111u8, 109u8, 109u8, 97u8, 110u8, 100u8,
        ],
        CommandError::InvalidArguments => seq![
            69u8, 82u8, 82u8, 32u8, 105u8, 110u8, 118u8, 97u8, 108u8, 105u8, 100u8, 32u8,
            97u8, 114u8, 103u8, 117u8, 109u8, 101u8, 110u8, 116u8, 115u8,
        ],
    }
}

impl CommandError {
    /// The reply text for this error: `ERR` followed by a short
    /// description, as the error line of a reply carries it.
    pub fn message(&self) -> (r: Vec<u8>)
        ensures
            r@ == error_message(*self),
    {
        match self {
            CommandError::UnknownCommand => vec![
                69u8, 82u8, 82u8, 32u8, 117u8, 110u8, 107u8, 110u8, 111u8, 119u8, 110u8, 32u8,
                99u8, 111u8, 109u8, 109u8, 97u8, 110u8, 100u8,
            ],
            CommandError::InvalidCommand => vec![
                69u8, 82u8, 82u8, 32u8, 105u8, 110u8, 118u8, 97u8, 108u8, 105u8, 100u8, 32u8,
                99u8, 111u8, 109u8, 109u8, 97u8, 110u8, 100u8,
            ],
            CommandError::InvalidArguments => vec![
                69u8, 82u8, 82u8, 32u8, 105u8, 110u8, 118u8, 97u8, 108u8, 105u8, 100u8, 32u8,
                97u8, 114u8, 103u8, 117u8, 109u8, 101u8, 110u8, 116u8, 115u8,
            ],
        }
    }
}

/// What one request does to the store and what it answers: a value that
/// parses as a command is executed; one that does not earns a simple
/// error naming the problem and leaves the store alone. Either way the
/// connection stays open and exactly one reply goes out.
pub open spec fn spec_respond(v: RespVal, m: Map<Seq<u8>, EntryVal>, now: u64) -> (
    RespVal,
    Map<Seq<u8>, EntryVal>,
) {
    match spec_parse(v, now) {
        Ok(c) => (spec_reply(c, m, now), spec_store_after(c, m, now)),
        Err(e) => (RespVal::SimpleError(error_message(e)), m),
    }
}

/// Answers one decoded request against the store at time `now`,
/// returning the encoded reply. Command-level errors are answered with
/// an error reply rather than dropped, so the peer is never left waiting.
pub fn respond(resp: RespDT, db: &mut Db, now: u64) -> (r: Vec<u8>)
    requires
        old(db).wf(),
    ensures
        final(db).wf(),
        final(db)@ == spec_respond(resp.deep_view(), old(db)@, now).1,
        r@ == spec_encode(spec_respond(resp.deep_view(), old(db)@, now).0),
{
    match Command::try_from(resp, now) {
        Ok(c) => c.execute(db, now),
        Err(e) => RespDT::SimpleError(e.message()).encode_raw(),
    }
}

/// Arity: a known command name with the wrong number of arguments is an
/// argument error — `echo` and `get` demand exactly one argument, `set`
/// at least two — never a crash and never a command.
pub proof fn lemma_arity_errors(v: RespVal, now: u64)
    requires
        v is Array,
        v->Array_0.len() >= 1,
        v->Array_0[0] is Bulk,
    ensures
        spec_lower(v->Array_0[0]->Bulk_0) == name_echo() && v->Array_0.len() != 2
            ==> spec_parse(v, now) == Err::<CommandVal, CommandError>(
            CommandError::InvalidArguments,
        ),
        spec_lower(v->Array_0[0]->Bulk_0) == name_get() && v->Array_0.len() != 2 ==> spec_parse(
            v,
            now,
        ) == Err::<CommandVal, CommandError>(CommandError::InvalidArguments),
        spec_lower(v->Array_0[0]->Bulk_0) == name_set() && v->Array_0.len() < 3 ==> spec_parse(
            v,
            now,
        ) == Err::<CommandVal, CommandError>(CommandError::InvalidArguments),
{
    assert(name_echo() != name_ping());
    assert(name_get() != name_ping());
    assert(name_get() != name_echo());
    assert(name_set() != name_ping());
    assert(name_set() != name_echo());
}

/// Time to live: a key written with an absolute expiry answers a read
/// strictly before the expiry with its value and leaves the store
/// unchanged; a read at or after the expiry answers with the null marker
/// and removes the entry as a side effect.
pub proof fn lemma_ttl(
    m: Map<Seq<u8>, EntryVal>,
    k: Seq<u8>,
    v: Seq<u8>,
    exp: u64,
    now_set: u64,
    now_get: u64,
)
    ensures
        now_get < exp ==> spec_reply(
            CommandVal::Get(k),
            spec_store_after(CommandVal::SetKey(k, v, Some(exp)), m, now_set),
            now_get,
        ) == RespVal::SimpleString(v) && spec_store_after(
            CommandVal::Get(k),
            spec_store_after(CommandVal::SetKey(k, v, Some(exp)), m, now_set),
            now_get,
        ) == spec_store_after(CommandVal::SetKey(k, v, Some(exp)), m, now_set),
        now_get >= exp ==> spec_reply(
            CommandVal::Get(k),
            spec_store_after(CommandVal::SetKey(k, v, Some(exp)), m, now_set),
            now_get,
        ) == RespVal::Null && spec_store_after(
            CommandVal::Get(k),
            spec_store_after(CommandVal::SetKey(k, v, Some(exp)), m, now_set),
            now_get,
        ) == spec_store_after(CommandVal::SetKey(k, v, Some(exp)), m, now_set).remove(k),
{
}

/// No torn writes: a read that follows a write of `(k, v)` and finds the
/// entry unexpired observes exactly the written value, whole — never a
/// mixture of two writes — whatever the store held before.
pub proof fn lemma_set_then_get(
    m: Map<Seq<u8>, EntryVal>,
    k: Seq<u8>,
    v: Seq<u8>,
    e: Option<u64>,
    now_set: u64,
    now_get: u64,
)
    requires
        !entry_expired(EntryVal { value: v, expiry: e }, now_get),
    ensures
        spec_reply(
            CommandVal::Get(k),
            spec_store_after(CommandVal::SetKey(k, v, e), m, now_set),
            now_get,
        ) == RespVal::SimpleString(v),
{
}

} // verus!
