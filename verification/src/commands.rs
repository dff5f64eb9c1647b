//! The command interpreter: turns a decoded wire value into a typed,
//! validated command, and executes it against the store. Every reply is
//! produced in wire encoding.
use vstd::prelude::*;

use crate::ascii::bytes_eq;
use crate::ascii::clone_bytes;
use crate::ascii::dec_bytes;
use crate::ascii::parse_u64;
use crate::ascii::spec_parse_u64;
use crate::ascii::spec_upper;
use crate::ascii::to_upper;
use crate::ascii::u64_to_dec;
use crate::db::Database;
use crate::db::DbValue;
use crate::db::EntryModel;
use crate::db::StoreInner;
use crate::db::expired;
use crate::parser::RespModel;
use crate::parser::RespValue;
use crate::parser::lemma_model_elems_len;
use crate::parser::model_elems;

verus! {

/// Why a decoded value failed to become a command.
#[derive(Debug, PartialEq)]
pub enum CommandError {
    NotAnArray,
    EmptyCommand,
    CommandNotBulkString,
    UnknownCommand(Vec<u8>),
    WrongArgCount,
    InvalidArgument { reason: String },
}

/// Mathematical model of a command error; the reason text of
/// `InvalidArgument` is not part of the model.
pub enum CmdErrModel {
    NotAnArray,
    EmptyCommand,
    CommandNotBulkString,
    UnknownCommand(Seq<u8>),
    WrongArgCount,
    InvalidArgument,
}

impl View for CommandError {
    type V = CmdErrModel;

    open spec fn view(&self) -> CmdErrModel {
        match self {
            CommandError::NotAnArray => CmdErrModel::NotAnArray,
            CommandError::EmptyCommand => CmdErrModel::EmptyCommand,
            CommandError::CommandNotBulkString => CmdErrModel::CommandNotBulkString,
            CommandError::UnknownCommand(name) => CmdErrModel::UnknownCommand(name@),
            CommandError::WrongArgCount => CmdErrModel::WrongArgCount,
            CommandError::InvalidArgument { .. } => CmdErrModel::InvalidArgument,
        }
    }
}

impl CommandError {
    /// A human-readable description, used by callers to build an error reply.
    pub fn message(&self) -> (r: String)
        ensures
            r@ == match self@ {
                CmdErrModel::NotAnArray => "Command must be an array of bulk strings"@,
                CmdErrModel::EmptyCommand => "Empty command"@,
                CmdErrModel::CommandNotBulkString => "Command name must be a bulk string"@,
                CmdErrModel::UnknownCommand(_) => "unknown command"@,
                CmdErrModel::WrongArgCount => "wrong number of arguments"@,
                CmdErrModel::InvalidArgument => "invalid argument: "@ + self.reason_view(),
            },
    {
        match self {
            CommandError::NotAnArray => String::from_str("Command must be an array of bulk strings"),
            CommandError::EmptyCommand => String::from_str("Empty command"),
            CommandError::CommandNotBulkString => String::from_str(
                "Command name must be a bulk string",
            ),
            CommandError::UnknownCommand(_) => String::from_str("unknown command"),
            CommandError::WrongArgCount => String::from_str("wrong number of arguments"),
            CommandError::InvalidArgument { reason } => {
                let mut m = String::from_str("invalid argument: ");
                m.append(reason.as_str());
                m
            },
        }
    }

    /// The reason text carried by `InvalidArgument`, empty otherwise.
    pub open spec fn reason_view(&self) -> Seq<char> {
        match self {
            CommandError::InvalidArgument { reason } => reason@,
            _ => Seq::empty(),
        }
    }
}

/// A validated command, one variant per supported verb. Fields are already
/// typed; no further validation happens at execution time.
#[derive(Debug, PartialEq)]
pub enum Command {
    Ping { msg: Option<Vec<u8>> },
    Echo { msg: Vec<u8> },
    Get { key: Vec<u8> },
    // named SetCmd, not Set: the bare name belongs to the verifier's prelude
    SetCmd { key: Vec<u8>, value: Vec<u8>, px: Option<u64> },
}

/// Mathematical model of a command.
pub enum CommandModel {
    Ping(Option<Seq<u8>>),
    Echo(Seq<u8>),
    Get(Seq<u8>),
    SetCmd(Seq<u8>, Seq<u8>, Option<u64>),
}

impl View for Command {
    type V = CommandModel;

    open spec fn view(&self) -> CommandModel {
        match self {
            Command::Ping { msg: None } => CommandModel::Ping(None),
            Command::Ping { msg: Some(m) } => CommandModel::Ping(Some(m@)),
            Command::Echo { msg } => CommandModel::Echo(msg@),
            Command::Get { key } => CommandModel::Get(key@),
            Command::SetCmd { key, value, px } => CommandModel::SetCmd(key@, value@, *px),
        }
    }
}

/// The verb "PING", uppercased.
pub open spec fn verb_ping() -> Seq<u8> {
    seq![80u8, 73u8, 78u8, 71u8]
}

/// The verb "ECHO", uppercased.
pub open spec fn verb_echo() -> Seq<u8> {
    seq![69u8, 67u8, 72u8, 79u8]
}

/// The verb "GET", uppercased.
pub open spec fn verb_get() -> Seq<u8> {
    seq![71u8, 69u8, 84u8]
}

/// The verb "SET", uppercased.
pub open spec fn verb_set() -> Seq<u8> {
    seq![83u8, 69u8, 84u8]
}

/// The option token "PX", uppercased.
pub open spec fn opt_px() -> Seq<u8> {
    seq![80u8, 88u8]
}

fn lit_ping() -> (v: Vec<u8>)
    ensures
        v@ == verb_ping(),
{
    let v: Vec<u8> = vec![80u8, 73u8, 78u8, 71u8];
    proof {
        assert(v@ =~= verb_ping());
    }
    v
}

fn lit_echo() -> (v: Vec<u8>)
    ensures
        v@ == verb_echo(),
{
    let v: Vec<u8> = vec![69u8, 67u8, 72u8, 79u8];
    proof {
        assert(v@ =~= verb_echo());
    }
    v
}

fn lit_get() -> (v: Vec<u8>)
    ensures
        v@ == verb_get(),
{
    let v: Vec<u8> = vec![71u8, 69u8, 84u8];
    proof {
        assert(v@ =~= verb_get());
    }
    v
}

fn lit_set() -> (v: Vec<u8>)
    ensures
        v@ == verb_set(),
{
    let v: Vec<u8> = vec![83u8, 69u8, 84u8];
    proof {
        assert(v@ =~= verb_set());
    }
    v
}

fn lit_px() -> (v: Vec<u8>)
    ensures
        v@ == opt_px(),
{
    let v: Vec<u8> = vec![80u8, 88u8];
    proof {
        assert(v@ =~= opt_px());
    }
    v
}

/// Wire bytes of "+OK\r\n".
pub open spec fn spec_ok_reply() -> Seq<u8> {
    seq![43u8, 79u8, 75u8, 13u8, 10u8]
}

/// Wire bytes of "+PONG\r\n".
pub open spec fn spec_pong_reply() -> Seq<u8> {
    seq![43u8, 80u8, 79u8, 78u8, 71u8, 13u8, 10u8]
}

/// Wire bytes of the null bulk string "$-1\r\n".
pub open spec fn spec_null_bulk_reply() -> Seq<u8> {
    seq![36u8, 45u8, 49u8, 13u8, 10u8]
}

/// Wire encoding of a bulk string: `$<len>\r\n<payload>\r\n`.
pub open spec fn spec_bulk_reply(b: Seq<u8>) -> Seq<u8> {
    seq![36u8] + dec_bytes(b.len() as int) + seq![13u8, 10u8] + b + seq![13u8, 10u8]
}

pub fn ok_reply() -> (v: Vec<u8>)
    ensures
        v@ == spec_ok_reply(),
{
    let v: Vec<u8> = vec![43u8, 79u8, 75u8, 13u8, 10u8];
    proof {
        assert(v@ =~= spec_ok_reply());
    }
    v
}

pub fn pong_reply() -> (v: Vec<u8>)
    ensures
        v@ == spec_pong_reply(),
{
    let v: Vec<u8> = vec![43u8, 80u8, 79u8, 78u8, 71u8, 13u8, 10u8];
    proof {
        assert(v@ =~= spec_pong_reply());
    }
    v
}

pub fn null_bulk_reply() -> (v: Vec<u8>)
    ensures
        v@ == spec_null_bulk_reply(),
{
    let v: Vec<u8> = vec![36u8, 45u8, 49u8, 13u8, 10u8];
    proof {
        assert(v@ =~= spec_null_bulk_reply());
    }
    v
}

/// Append all of `src` to `dst`.
fn push_all(dst: &mut Vec<u8>, src: &[u8])
    ensures
        final(dst)@ == old(dst)@ + src@,
{
    let n: usize = src.len();
    let mut i: usize = 0;
    while i < n
        invariant
            0 <= i <= n,
            n == src@.len(),
            dst@ == old(dst)@ + src@.subrange(0, i as int),
        decreases n - i,
    {
        dst.push(src[i]);
        proof {
            assert(old(dst)@ + src@.subrange(0, i as int) + seq![src@[i as int]] =~= old(dst)@
                + src@.subrange(0, i + 1));
        }
        i = i + 1;
    }
    proof {
        assert(src@.subrange(0, n as int) =~= src@);
    }
}

/// Encode a payload as a bulk string reply.
pub fn bulk_reply(b: &[u8]) -> (v: Vec<u8>)
    ensures
        v@ == spec_bulk_reply(b@),
{
    let mut v: Vec<u8> = Vec::new();
    v.push(36u8);
    let digits = u64_to_dec(b.len() as u64);
    push_all(&mut v, digits.as_slice());
    v.push(13u8);
    v.push(10u8);
    push_all(&mut v, b);
    v.push(13u8);
    v.push(10u8);
    proof {
        assert(v@ =~= spec_bulk_reply(b@));
    }
    v
}

/// What parsing PING's arguments yields.
pub open spec fn spec_parse_ping(args: Seq<RespModel>) -> Result<CommandModel, CmdErrModel> {
    if args.len() == 0 {
        Ok(CommandModel::Ping(None))
    } else if !(args[0] matches RespModel::BulkString(_)) {
        Err(CmdErrModel::InvalidArgument)
    } else if args.len() > 1 {
        Err(CmdErrModel::WrongArgCount)
    } else {
        Ok(CommandModel::Ping(Some(args[0]->BulkString_0)))
    }
}

/// What parsing a single-bulk-string verb (ECHO, GET) yields.
pub open spec fn spec_parse_one_bulk(args: Seq<RespModel>) -> Result<Seq<u8>, CmdErrModel> {
    if args.len() == 0 {
        Err(CmdErrModel::WrongArgCount)
    } else if !(args[0] matches RespModel::BulkString(_)) {
        Err(CmdErrModel::InvalidArgument)
    } else if args.len() > 1 {
        Err(CmdErrModel::WrongArgCount)
    } else {
        Ok(args[0]->BulkString_0)
    }
}

/// What parsing SET's arguments yields: a key, a value, then at most one
/// case-insensitive `PX <milliseconds>` option.
pub open spec fn spec_parse_set(args: Seq<RespModel>) -> Result<CommandModel, CmdErrModel> {
    if args.len() == 0 {
        Err(CmdErrModel::WrongArgCount)
    } else if !(args[0] matches RespModel::BulkString(_)) {
        Err(CmdErrModel::InvalidArgument)
    } else if args.len() == 1 {
        Err(CmdErrModel::WrongArgCount)
    } else if !(args[1] matches RespModel::BulkString(_)) {
        Err(CmdErrModel::InvalidArgument)
    } else {
        let key = args[0]->BulkString_0;
        let value = args[1]->BulkString_0;
        if args.len() == 2 {
            Ok(CommandModel::SetCmd(key, value, None))
        } else if !(args[2] matches RespModel::BulkString(_)) {
            Err(CmdErrModel::InvalidArgument)
        } else if spec_upper(args[2]->BulkString_0) != opt_px() {
            Err(CmdErrModel::InvalidArgument)
        } else if args.len() == 3 {
            Err(CmdErrModel::WrongArgCount)
        } else if !(args[3] matches RespModel::BulkString(_)) {
            Err(CmdErrModel::InvalidArgument)
        } else {
            match spec_parse_u64(args[3]->BulkString_0) {
                None => Err(CmdErrModel::InvalidArgument),
                Some(ms) => if args.len() == 4 {
                    Ok(CommandModel::SetCmd(key, value, Some(ms)))
                } else {
                    Err(CmdErrModel::InvalidArgument)
                },
            }
        }
    }
}

/// What interpreting a decoded value as a command yields: the top level must
/// be a non-empty array whose first element, uppercased, selects the verb.
pub open spec fn spec_from_resp(v: RespModel) -> Result<CommandModel, CmdErrModel> {
    match v {
        RespModel::Array(es) => if es.len() == 0 {
            Err(CmdErrModel::EmptyCommand)
        } else if !(es[0] matches RespModel::BulkString(_)) {
            Err(CmdErrModel::CommandNotBulkString)
        } else {
            let verb = spec_upper(es[0]->BulkString_0);
            let args = es.subrange(1, es.len() as int);
            if verb == verb_ping() {
                spec_parse_ping(args)
            } else if verb == verb_echo() {
                match spec_parse_one_bulk(args) {
                    Ok(m) => Ok(CommandModel::Echo(m)),
                    Err(e) => Err(e),
                }
            } else if verb == verb_get() {
                match spec_parse_one_bulk(args) {
                    Ok(k) => Ok(CommandModel::Get(k)),
                    Err(e) => Err(e),
                }
            } else if verb == verb_set() {
                spec_parse_set(args)
            } else {
                Err(CmdErrModel::UnknownCommand(verb))
            }
        },
        _ => Err(CmdErrModel::NotAnArray),
    }
}

/// The executable result agrees with `spec_from_resp`.
pub open spec fn from_resp_result_ok(
    v: RespModel,
    r: Result<Command, CommandError>,
) -> bool {
    match spec_from_resp(v) {
        Ok(c) => r matches Ok(cmd) && cmd@ == c,
        Err(e) => r matches Err(err) && err@ == e,
    }
}

fn arg_bulk(elements: &Vec<RespValue>, i: usize) -> (r: Option<Vec<u8>>)
    requires
        i < elements@.len(),
    ensures
        match r {
            Some(b) => model_elems(elements@)[i as int] matches RespModel::BulkString(m) && m
                == b@,
            None => !(model_elems(elements@)[i as int] matches RespModel::BulkString(_)),
        },
{
    proof {
        lemma_model_elems_len(elements@);
    }
    match &elements[i] {
        RespValue::BulkString(b) => Some(clone_bytes(b)),
        _ => None,
    }
}

impl Command {
    /// Interpret a decoded value as a command.
    pub fn from_resp(resp: RespValue) -> (r: Result<Command, CommandError>)
        ensures
            from_resp_result_ok(resp@, r),
    {
        let elements: Vec<RespValue> = match resp {
            RespValue::Array(es) => es,
            _ => {
                return Err(CommandError::NotAnArray);
            },
        };
        let ghost es = model_elems(elements@);
        proof {
            lemma_model_elems_len(elements@);
        }
        let n: usize = elements.len();
        if n == 0 {
            return Err(CommandError::EmptyCommand);
        }
        let name: Vec<u8> = match &elements[0] {
            RespValue::BulkString(b) => to_upper(b.as_slice()),
            _ => {
                return Err(CommandError::CommandNotBulkString);
            },
        };
        let ghost args = es.subrange(1, es.len() as int);
        if bytes_eq(name.as_slice(), lit_ping().as_slice()) {
            Self::parse_ping(&elements)
        } else if bytes_eq(name.as_slice(), lit_echo().as_slice()) {
            match Self::parse_one_bulk(&elements) {
                Ok(m) => Ok(Command::Echo { msg: m }),
                Err(e) => Err(e),
            }
        } else if bytes_eq(name.as_slice(), lit_get().as_slice()) {
            match Self::parse_one_bulk(&elements) {
                Ok(k) => Ok(Command::Get { key: k }),
                Err(e) => Err(e),
            }
        } else if bytes_eq(name.as_slice(), lit_set().as_slice()) {
            Self::parse_set(&elements)
        } else {
            Err(CommandError::UnknownCommand(name))
        }
    }

    fn parse_ping(elements: &Vec<RespValue>) -> (r: Result<Command, CommandError>)
        requires
            elements@.len() >= 1,
        ensures
            match spec_parse_ping(
                model_elems(elements@).subrange(1, elements@.len() as int),
            ) {
                Ok(c) => r matches Ok(cmd) && cmd@ == c,
                Err(e) => r matches Err(err) && err@ == e,
            },
    {
        let ghost args = model_elems(elements@).subrange(1, elements@.len() as int);
        proof {
            lemma_model_elems_len(elements@);
        }
        let n: usize = elements.len();
        if n == 1 {
            return Ok(Command::Ping { msg: None });
        }
        match arg_bulk(elements, 1) {
            None => Err(
                CommandError::InvalidArgument {
                    reason: String::from_str("PING argument must be a bulk string"),
                },
            ),
            Some(m) => {
                if n > 2 {
                    Err(CommandError::WrongArgCount)
                } else {
                    Ok(Command::Ping { msg: Some(m) })
                }
            },
        }
    }

    fn parse_one_bulk(elements: &Vec<RespValue>) -> (r: Result<Vec<u8>, CommandError>)
        requires
            elements@.len() >= 1,
        ensures
            match spec_parse_one_bulk(
                model_elems(elements@).subrange(1, elements@.len() as int),
            ) {
                Ok(m) => r matches Ok(b) && b@ == m,
                Err(e) => r matches Err(err) && err@ == e,
            },
    {
        let ghost args = model_elems(elements@).subrange(1, elements@.len() as int);
        proof {
            lemma_model_elems_len(elements@);
        }
        let n: usize = elements.len();
        if n == 1 {
            return Err(CommandError::WrongArgCount);
        }
        match arg_bulk(elements, 1) {
            None => Err(
                CommandError::InvalidArgument {
                    reason: String::from_str("argument must be a bulk string"),
                },
            ),
            Some(m) => {
                if n > 2 {
                    Err(CommandError::WrongArgCount)
                } else {
                    Ok(m)
                }
            },
        }
    }

    fn parse_set(elements: &Vec<RespValue>) -> (r: Result<Command, CommandError>)
        requires
            elements@.len() >= 1,
        ensures
            match spec_parse_set(
                model_elems(elements@).subrange(1, elements@.len() as int),
            ) {
                Ok(c) => r matches Ok(cmd) && cmd@ == c,
                Err(e) => r matches Err(err) && err@ == e,
            },
    {
        let ghost args = model_elems(elements@).subrange(1, elements@.len() as int);
        proof {
            lemma_model_elems_len(elements@);
        }
        let n: usize = elements.len();
        if n == 1 {
            return Err(CommandError::WrongArgCount);
        }
        let key = match arg_bulk(elements, 1) {
            None => {
                return Err(
                    CommandError::InvalidArgument {
                        reason: String::from_str("argument must be a bulk string"),
                    },
                );
            },
            Some(k) => k,
        };
        if n == 2 {
            return Err(CommandError::WrongArgCount);
        }
        let value = match arg_bulk(elements, 2) {
            None => {
                return Err(
                    CommandError::InvalidArgument {
                        reason: String::from_str("argument must be a bulk string"),
                    },
                );
            },
            Some(v) => v,
        };
        if n == 3 {
            return Ok(Command::SetCmd { key, value, px: None });
        }
        let opt = match arg_bulk(elements, 3) {
            None => {
                return Err(
                    CommandError::InvalidArgument { reason: String::from_str("syntax error") },
                );
            },
            Some(o) => o,
        };
        let opt_upper = to_upper(opt.as_slice());
        if !bytes_eq(opt_upper.as_slice(), lit_px().as_slice()) {
            return Err(CommandError::InvalidArgument { reason: String::from_str("syntax error") });
        }
        if n == 4 {
            return Err(CommandError::WrongArgCount);
        }
        let px_bytes = match arg_bulk(elements, 4) {
            None => {
                return Err(
                    CommandError::InvalidArgument {
                        reason: String::from_str("argument must be a bulk string"),
                    },
                );
            },
            Some(b) => b,
        };
        match parse_u64(px_bytes.as_slice()) {
            None => Err(
                CommandError::InvalidArgument {
                    reason: String::from_str("PX value must be a positive integer"),
                },
            ),
            Some(ms) => {
                if n > 5 {
                    Err(
                        CommandError::InvalidArgument {
                            reason: String::from_str("syntax error"),
                        },
                    )
                } else {
                    Ok(Command::SetCmd { key, value, px: Some(ms) })
                }
            },
        }
    }
}

/// `a + b` capped at the largest representable instant.
pub open spec fn spec_sat_add_u64(a: u64, b: u64) -> u64 {
    if a + b > u64::MAX {
        u64::MAX
    } else {
        (a + b) as u64
    }
}

fn sat_add_u64(a: u64, b: u64) -> (r: u64)
    ensures
        r == spec_sat_add_u64(a, b),
{
    if b > u64::MAX - a {
        u64::MAX
    } else {
        a + b
    }
}

/// The store state and reply that executing a command at time `now` yields.
/// Keys are normalized to uppercase, which makes them case-insensitive.
pub open spec fn spec_execute(
    cmd: CommandModel,
    m: Map<Seq<u8>, EntryModel>,
    now: u64,
) -> (Map<Seq<u8>, EntryModel>, Seq<u8>) {
    match cmd {
        CommandModel::Ping(None) => (m, spec_pong_reply()),
        CommandModel::Ping(Some(msg)) => (m, spec_bulk_reply(msg)),
        CommandModel::Echo(msg) => (m, spec_bulk_reply(msg)),
        CommandModel::Get(key) => {
            let k = spec_upper(key);
            if m.contains_key(k) {
                if expired(m[k], now) {
                    (m.remove(k), spec_null_bulk_reply())
                } else {
                    (m, spec_bulk_reply(m[k].value))
                }
            } else {
                (m, spec_null_bulk_reply())
            }
        },
        CommandModel::SetCmd(key, value, px) => {
            let k = spec_upper(key);
            let e = EntryModel {
                value,
                expires_at: match px {
                    Some(ms) => Some(spec_sat_add_u64(now, ms)),
                    None => None,
                },
            };
            (m.insert(k, e), spec_ok_reply())
        },
    }
}

/// The reply matches executing the command against some store state.
pub open spec fn reply_for_some_state(cmd: CommandModel, r: Seq<u8>) -> bool {
    exists|m: Map<Seq<u8>, EntryModel>, t: u64| r == (#[trigger] spec_execute(cmd, m, t)).1
}

impl Command {
    /// Execute against an exclusively held store at time `now`, returning the
    /// wire-encoded reply. This is the atomic step the shared store runs
    /// under its lock.
    pub fn execute_at(self, store: &mut StoreInner, now: u64) -> (r: Vec<u8>)
        requires
            old(store).wf(),
        ensures
            final(store).wf(),
            final(store)@ == spec_execute(self@, old(store)@, now).0,
            r@ == spec_execute(self@, old(store)@, now).1,
    {
        match self {
            Command::Ping { msg: None } => pong_reply(),
            Command::Ping { msg: Some(m) } => bulk_reply(m.as_slice()),
            Command::Echo { msg } => bulk_reply(msg.as_slice()),
            Command::Get { key } => {
                let k = to_upper(key.as_slice());
                match store.get_live(k.as_slice(), now) {
                    Some(v) => bulk_reply(v.as_slice()),
                    None => null_bulk_reply(),
                }
            },
            Command::SetCmd { key, value, px } => {
                let k = to_upper(key.as_slice());
                let expires_at: Option<u64> = match px {
                    Some(ms) => Some(sat_add_u64(now, ms)),
                    None => None,
                };
                store.put(k, DbValue { value, expires_at });
                ok_reply()
            },
        }
    }

    /// Execute against the shared store, as one atomic lock section, at the
    /// current time. The reply always matches executing the command against
    /// the store state the lock handed out; for the commands that do not
    /// read the store the reply is pinned down exactly.
    pub fn execute(self, db: &Database) -> (r: Vec<u8>)
        ensures
            self@ matches CommandModel::Ping(None) ==> r@ == spec_pong_reply(),
            self@ matches CommandModel::Ping(Some(msg)) ==> r@ == spec_bulk_reply(msg),
            self@ matches CommandModel::Echo(msg) ==> r@ == spec_bulk_reply(msg),
            self@ matches CommandModel::SetCmd(_, _, _) ==> r@ == spec_ok_reply(),
            reply_for_some_state(self@, r@),
    {
        let ghost cmd = self@;
        let now: u64 = now_millis();
        let r = db.run_at(self, now);
        proof {
            assert(reply_for_some_state(cmd, r@));
        }
        r
    }
}

/// Relies on std::time::SystemTime::now: the current instant, read as whole
/// milliseconds since the Unix epoch. Nothing can be promised of a clock
/// reading.
#[verifier::external_body]
pub fn now_millis() -> u64 {
    match std::time::SystemTime::now().duration_since(std::time::UNIX_EPOCH) {
        Ok(d) => d.as_millis() as u64,
        Err(_) => 0,
    }
}

} // verus!
