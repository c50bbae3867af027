use vstd::prelude::*;

use crate::resp::{
    bytes_eq, del_verb, get_verb, lemma_terms_of, set_verb, RespTerm, RespValue,
};
use vstd::slice::slice_to_vec;

verus! {

/// A request that the store understands.
#[derive(Debug, PartialEq, Eq)]
pub enum Command {
    Put(Vec<u8>, Vec<u8>),
    Get(Vec<u8>),
    Del(Vec<Vec<u8>>),
}

/// The mathematical model of a `Command`.
pub enum CommandTerm {
    Get(Seq<u8>),
    Put(Seq<u8>, Seq<u8>),
    Del(Seq<Seq<u8>>),
}

/// Why a value is not a command.
#[derive(Debug, PartialEq, Eq)]
pub enum CommandError {
    InvalidCommand,
}

impl View for Command {
    type V = CommandTerm;

    open spec fn view(&self) -> CommandTerm {
        match self {
            Command::Get(k) => CommandTerm::Get(k@),
            Command::Put(k, v) => CommandTerm::Put(k@, v@),
            Command::Del(keys) => CommandTerm::Del(keys@.map_values(|k: Vec<u8>| k@)),
        }
    }
}

/// `GET` takes exactly one bulk string.
pub open spec fn get_args(args: Seq<RespTerm>) -> Option<CommandTerm> {
    if args.len() == 1 && args[0] is BulkString {
        Some(CommandTerm::Get(args[0]->BulkString_0))
    } else {
        None
    }
}

/// `SET` takes exactly two bulk strings, a key and a value.
pub open spec fn set_args(args: Seq<RespTerm>) -> Option<CommandTerm> {
    if args.len() == 2 && args[0] is BulkString && args[1] is BulkString {
        Some(CommandTerm::Put(args[0]->BulkString_0, args[1]->BulkString_0))
    } else {
        None
    }
}

/// `DEL` takes one or more bulk strings, no more than an `i64` can count.
pub open spec fn del_args(args: Seq<RespTerm>) -> Option<CommandTerm> {
    if 1 <= args.len() <= i64::MAX && forall|i: int| 0 <= i < args.len() ==> (#[trigger] args[i]) is BulkString {
        Some(CommandTerm::Del(args.map_values(|t: RespTerm| t->BulkString_0)))
    } else {
        None
    }
}

/// The command that a value asks for: an array whose first value is the bulk
/// string `GET`, `SET` or `DEL`, followed by that verb's arguments. `None`
/// stands for an invalid command.
pub open spec fn command_of(t: RespTerm) -> Option<CommandTerm> {
    match t {
        RespTerm::Array(a) => if a.len() >= 1 && a[0] is BulkString {
            let verb = a[0]->BulkString_0;
            let args = a.drop_first();
            if verb == get_verb() {
                get_args(args)
            } else if verb == set_verb() {
                set_args(args)
            } else if verb == del_verb() {
                del_args(args)
            } else {
                None
            }
        } else {
            None
        },
        _ => None,
    }
}

/// What a decoding result says, over the models.
pub open spec fn decoded(r: Result<Command, CommandError>) -> Option<CommandTerm> {
    match r {
        Ok(c) => Some(c@),
        Err(_) => None,
    }
}

/// A command whose reply the store can count: a `DEL` names no more keys
/// than an `i64` can count.
pub open spec fn countable(c: CommandTerm) -> bool {
    c matches CommandTerm::Del(keys) ==> keys.len() <= i64::MAX
}

/// The models of the values `args` holds.
spec fn views(args: &[RespValue]) -> Seq<RespTerm> {
    args@.map_values(|v: RespValue| v@)
}

fn get_command(args: &[RespValue]) -> (r: Result<Command, CommandError>)
    ensures
        decoded(r) == get_args(views(args)),
{
    if args.len() != 1 {
        return Err(CommandError::InvalidCommand);
    }
    match &args[0] {
        RespValue::BulkString(k) => Ok(Command::Get(slice_to_vec(k.as_slice()))),
        _ => Err(CommandError::InvalidCommand),
    }
}

fn set_command(args: &[RespValue]) -> (r: Result<Command, CommandError>)
    ensures
        decoded(r) == set_args(views(args)),
{
    if args.len() != 2 {
        return Err(CommandError::InvalidCommand);
    }
    match (&args[0], &args[1]) {
        (RespValue::BulkString(k), RespValue::BulkString(v)) => Ok(
            Command::Put(slice_to_vec(k.as_slice()), slice_to_vec(v.as_slice())),
        ),
        _ => Err(CommandError::InvalidCommand),
    }
}

fn del_command(args: &[RespValue]) -> (r: Result<Command, CommandError>)
    ensures
        decoded(r) == del_args(views(args)),
{
    let ghost a = views(args);
    if args.len() == 0 || args.len() as u64 > 9223372036854775807 {
        return Err(CommandError::InvalidCommand);
    }
    let mut keys: Vec<Vec<u8>> = Vec::new();
    let mut i: usize = 0;
    while i < args.len()
        invariant
            a == views(args),
            0 <= i <= args@.len(),
            keys@.len() == i,
            forall|j: int| 0 <= j < i ==> a[j] is BulkString,
            forall|j: int| 0 <= j < i ==> (#[trigger] keys@[j])@ == a[j]->BulkString_0,
        decreases args@.len() - i,
    {
        match &args[i] {
            RespValue::BulkString(k) => {
                keys.push(slice_to_vec(k.as_slice()));
            },
            _ => {
                assert(!(a[i as int] is BulkString));
                return Err(CommandError::InvalidCommand);
            },
        }
        i = i + 1;
    }
    let r = Command::Del(keys);
    assert(keys@.map_values(|k: Vec<u8>| k@) =~= a.map_values(|t: RespTerm| t->BulkString_0));
    Ok(r)
}

impl Command {
    /// The command that `value` asks for, or `InvalidCommand`.
    pub fn from_resp(value: RespValue) -> (r: Result<Command, CommandError>)
        ensures
            decoded(r) == command_of(value@),
    {
        match &value {
            RespValue::Array(items) => {
                proof {
                    lemma_terms_of(items@, items@.len());
                }
                if items.len() == 0 {
                    return Err(CommandError::InvalidCommand);
                }
                let ghost a = value@->Array_0;
                let args = &items.as_slice()[1..items.len()];
                assert(views(args) =~= a.drop_first());
                match &items[0] {
                    RespValue::BulkString(verb) => {
                        let get: [u8; 3] = [71u8, 69u8, 84u8];
                        let set: [u8; 3] = [83u8, 69u8, 84u8];
                        let del: [u8; 3] = [68u8, 69u8, 76u8];
                        assert(get@ == get_verb());
                        assert(set@ == set_verb());
                        assert(del@ == del_verb());
                        if bytes_eq(verb.as_slice(), &get) {
                            get_command(args)
                        } else if bytes_eq(verb.as_slice(), &set) {
                            set_command(args)
                        } else if bytes_eq(verb.as_slice(), &del) {
                            del_command(args)
                        } else {
                            Err(CommandError::InvalidCommand)
                        }
                    },
                    _ => Err(CommandError::InvalidCommand),
                }
            },
            _ => Err(CommandError::InvalidCommand),
        }
    }
}

} // verus!
