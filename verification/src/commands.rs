//! The commands: what each one answers and how it changes the database.
use crate::resp::{resp_array, resp_array_text, strs_view};
use crate::store::{db_contents, db_get, db_insert, DbView};
use crate::text::{
    ascii_lowercase, i32_to_string, lowercase, parse_i32_chars, parse_i32_spec, str_chars, str_eq,
    to_lowercase,
};
use crate::types::{object_text, strings_view, BitobaseObject, ObjectView, RedisCommand};
use dashmap::DashMap;
use std::collections::VecDeque;
use vstd::prelude::*;
use vstd::utf8::is_ascii_chars;

verus! {

/// What a command answers, and the database after it.
pub struct Outcome {
    pub reply: Result<Seq<char>, Seq<char>>,
    pub db: DbView,
}

/// A reply of the characters of `s`, with the database `db`.
pub open spec fn answer(s: Seq<char>, db: DbView) -> Outcome {
    Outcome { reply: Ok(s), db }
}

/// The characters of a reply.
pub open spec fn reply_view(r: Result<String, String>) -> Result<Seq<char>, Seq<char>> {
    match r {
        Ok(s) => Ok(s@),
        Err(e) => Err(e@),
    }
}

/// The arguments of a command, by their characters.
pub open spec fn args_view(command: &RedisCommand) -> Seq<Seq<char>> {
    strings_view(command.args@)
}

/// `SELECT index`: accepted without effect.
pub open spec fn select_outcome(args: Seq<Seq<char>>, db: DbView) -> Outcome {
    if args.len() < 1 {
        answer("-ERR wrong number of arguments for 'select' command\r\n"@, db)
    } else {
        answer("+OK\r\n"@, db)
    }
}

/// `PING`.
pub open spec fn ping_outcome(db: DbView) -> Outcome {
    answer("+PONG\r\n"@, db)
}

/// `GET key`: the shown value under the key, or nil.
pub open spec fn get_outcome(args: Seq<Seq<char>>, db: DbView) -> Outcome {
    if args.len() != 1 {
        answer("-ERR wrong number of arguments for 'get' command\r\n"@, db)
    } else if db.contains_key(args[0]) {
        answer("+"@ + object_text(db[args[0]]) + "\r\n"@, db)
    } else {
        answer("+(nil)\r\n"@, db)
    }
}

/// `SET key value`: stores the string value under the key.
pub open spec fn set_outcome(args: Seq<Seq<char>>, db: DbView) -> Outcome {
    if args.len() != 2 {
        answer("-ERR wrong number of arguments for 'set' command\r\n"@, db)
    } else {
        answer("+OK\r\n"@, db.insert(args[0], ObjectView::Str(args[1])))
    }
}

/// The database after storing, for each `i < n` in increasing order, the
/// string `args[i + 1]` under the key `args[i]`.
pub open spec fn mset_store(args: Seq<Seq<char>>, db: DbView, n: nat) -> DbView
    decreases n,
{
    if n == 0 {
        db
    } else {
        mset_store(args, db, (n - 1) as nat).insert(args[n - 1], ObjectView::Str(args[n as int]))
    }
}

/// `MSET k1 v1 ...`: stores every argument but the last under the argument before it.
pub open spec fn mset_outcome(args: Seq<Seq<char>>, db: DbView) -> Outcome {
    if args.len() < 2 {
        answer("-ERR wrong number of arguments for 'mset' command\r\n"@, db)
    } else {
        answer("+OK\r\n"@, mset_store(args, db, (args.len() - 1) as nat))
    }
}

/// `INCR key`: an absent key becomes the string "1"; a present key is
/// refused, since its shown value, in quotes or brackets, is never a number.
pub open spec fn incr_outcome(args: Seq<Seq<char>>, db: DbView) -> Outcome {
    if args.len() != 1 {
        answer("-ERR wrong number of arguments for 'incr' command\r\n"@, db)
    } else if db.contains_key(args[0]) {
        answer("-ERR value is not an integer or out of range\r\n"@, db)
    } else {
        answer("+OK\r\n"@, db.insert(args[0], ObjectView::Str("1"@)))
    }
}

/// The list stored under `key`, empty when the key is absent.
pub open spec fn list_or_empty(db: DbView, key: Seq<char>) -> Seq<Seq<char>> {
    if db.contains_key(key) && db[key] is List {
        db[key]->List_0
    } else {
        seq![]
    }
}

/// Whether a string is stored under `key`.
pub open spec fn holds_string(db: DbView, key: Seq<char>) -> bool {
    db.contains_key(key) && db[key] is Str
}

/// `LPUSH key v1 v2 ...`: puts each value at the front of the list, one after another.
pub open spec fn lpush_outcome(args: Seq<Seq<char>>, db: DbView) -> Outcome {
    if args.len() < 2 {
        answer("-ERR wrong number of arguments for 'lpush' command\r\n"@, db)
    } else if holds_string(db, args[0]) {
        answer("-ERR expected list but found string.\r\n"@, db)
    } else {
        answer(
            "+Ok \r\n"@,
            db.insert(args[0], ObjectView::List(args.skip(1).reverse() + list_or_empty(db, args[0]))),
        )
    }
}

/// `RPUSH key v1 v2 ...`: puts the values at the back of the list, in order.
pub open spec fn rpush_outcome(args: Seq<Seq<char>>, db: DbView) -> Outcome {
    if args.len() < 2 {
        answer("-ERR wrong number of arguments for 'rpush' command\r\n"@, db)
    } else if holds_string(db, args[0]) {
        answer("-ERR expected list but found string.\r\n"@, db)
    } else {
        answer(
            "+Ok \r\n"@,
            db.insert(args[0], ObjectView::List(list_or_empty(db, args[0]) + args.skip(1))),
        )
    }
}

/// How many items a pop of `count` removes from a list of `len` items.
pub open spec fn pop_count(count: int, len: nat) -> nat {
    if count <= 0 {
        0
    } else if count >= len {
        len
    } else {
        count as nat
    }
}

/// `LPOP key count`: removes up to `count` items from the front of the list.
pub open spec fn lpop_outcome(args: Seq<Seq<char>>, db: DbView) -> Outcome {
    if args.len() < 2 {
        answer("-ERR wrong number of arguments for 'lpop' command\r\n"@, db)
    } else {
        match parse_i32_spec(args[1]) {
            Err(_) => Outcome { reply: Err("count was not a integer"@), db },
            Ok(count) => if !db.contains_key(args[0]) {
                answer("$-1\r\n"@, db)
            } else {
                match db[args[0]] {
                    ObjectView::List(l) => answer(
                        "+OK\r\n"@,
                        db.insert(args[0], ObjectView::List(l.skip(pop_count(count, l.len()) as int))),
                    ),
                    ObjectView::Str(_) => answer(
                        "-WRONGTYPE Operation against a key holding the wrong kind of value\r\n"@,
                        db,
                    ),
                }
            },
        }
    }
}

/// `RPOP key count`: removes up to `count` items from the back of the list.
pub open spec fn rpop_outcome(args: Seq<Seq<char>>, db: DbView) -> Outcome {
    if args.len() < 2 {
        answer("-ERR wrong number of arguments for 'rpop' command\r\n"@, db)
    } else {
        match parse_i32_spec(args[1]) {
            Err(_) => Outcome { reply: Err("count was not a integer"@), db },
            Ok(count) => if !db.contains_key(args[0]) {
                answer("+(nil)\r\n"@, db)
            } else {
                match db[args[0]] {
                    ObjectView::List(l) => answer(
                        "+OK\r\n"@,
                        db.insert(
                            args[0],
                            ObjectView::List(l.take(l.len() - pop_count(count, l.len()))),
                        ),
                    ),
                    ObjectView::Str(_) => answer("-ERR wrong data type for 'rpop' command"@, db),
                }
            },
        }
    }
}

/// `CONFIG GET name`: the value of the parameter as an array of its name and
/// value; an empty array for a parameter it does not know.
pub open spec fn config_get_outcome(args: Seq<Seq<char>>, db: DbView) -> Outcome
    recommends
        args.len() >= 2,
{
    if args[1] == "appendonly"@ {
        answer(resp_array_text(seq!["appendonly"@, "no"@]), db)
    } else if args[1] == "save"@ {
        answer(resp_array_text(seq!["save"@, ""@]), db)
    } else {
        answer("*0\r\n"@, db)
    }
}

/// `CONFIG subcommand ...` whose subcommand, lowercased, is `sub`: only
/// `get` is supported.
pub open spec fn config_sub_outcome(sub: Seq<char>, args: Seq<Seq<char>>, db: DbView) -> Outcome
    recommends
        args.len() >= 1,
{
    if sub != "get"@ {
        answer("-ERR subcommand "@ + args[0] + " in 'config' command is not supported\r\n"@, db)
    } else {
        config_get_outcome(args, db)
    }
}

/// `CONFIG subcommand ...`: only `GET`, in any case, is supported.
pub open spec fn config_outcome(args: Seq<Seq<char>>, db: DbView) -> Outcome {
    if args.len() < 1 {
        answer("-ERR wrong number of arguments for 'config' command\r\n"@, db)
    } else {
        config_sub_outcome(lowercase(args[0]), args, db)
    }
}

/// Whether `CONFIG` can run on these arguments: `CONFIG GET` needs the name
/// of a parameter.
pub open spec fn config_args_ok(args: Seq<Seq<char>>) -> bool {
    args.len() >= 1 && lowercase(args[0]) == "get"@ ==> args.len() >= 2
}

/// What a command answers, named in any case, and the database after it;
/// `None` for `CONFIG GET` without a parameter name, on which the server
/// gives up on the connection.
pub open spec fn command_outcome(name: Seq<char>, args: Seq<Seq<char>>, db: DbView) -> Option<
    Outcome,
> {
    command_outcome_lowered(lowercase(name), name, args, db)
}

/// What the command `name`, whose lowercase form is `n`, answers, and the
/// database after it, as `command_outcome` says.
pub open spec fn command_outcome_lowered(
    n: Seq<char>,
    name: Seq<char>,
    args: Seq<Seq<char>>,
    db: DbView,
) -> Option<Outcome> {
    if n == "select"@ {
        Some(select_outcome(args, db))
    } else if n == "ping"@ {
        Some(ping_outcome(db))
    } else if n == "get"@ {
        Some(get_outcome(args, db))
    } else if n == "set"@ {
        Some(set_outcome(args, db))
    } else if n == "mset"@ {
        Some(mset_outcome(args, db))
    } else if n == "incr"@ {
        Some(incr_outcome(args, db))
    } else if n == "lpush"@ {
        Some(lpush_outcome(args, db))
    } else if n == "rpush"@ {
        Some(rpush_outcome(args, db))
    } else if n == "lpop"@ {
        Some(lpop_outcome(args, db))
    } else if n == "rpop"@ {
        Some(rpop_outcome(args, db))
    } else if n == "config"@ {
        if config_args_ok(args) {
            Some(config_outcome(args, db))
        } else {
            None
        }
    } else {
        Some(answer("-ERR unknown command '"@ + name + "'\r\n"@, db))
    }
}

/// The names of the commands differ from one another.
pub proof fn lemma_command_names_distinct()
    ensures
        "ping"@ != "select"@,
        "get"@ != "select"@,
        "get"@ != "ping"@,
        "set"@ != "select"@,
        "set"@ != "ping"@,
        "set"@ != "get"@,
        "mset"@ != "select"@,
        "mset"@ != "ping"@,
        "mset"@ != "get"@,
        "mset"@ != "set"@,
        "incr"@ != "select"@,
        "incr"@ != "ping"@,
        "incr"@ != "get"@,
        "incr"@ != "set"@,
        "incr"@ != "mset"@,
        "lpush"@ != "select"@,
        "lpush"@ != "ping"@,
        "lpush"@ != "get"@,
        "lpush"@ != "set"@,
        "lpush"@ != "mset"@,
        "lpush"@ != "incr"@,
        "rpush"@ != "select"@,
        "rpush"@ != "ping"@,
        "rpush"@ != "get"@,
        "rpush"@ != "set"@,
        "rpush"@ != "mset"@,
        "rpush"@ != "incr"@,
        "rpush"@ != "lpush"@,
        "lpop"@ != "select"@,
        "lpop"@ != "ping"@,
        "lpop"@ != "get"@,
        "lpop"@ != "set"@,
        "lpop"@ != "mset"@,
        "lpop"@ != "incr"@,
        "lpop"@ != "lpush"@,
        "lpop"@ != "rpush"@,
        "rpop"@ != "select"@,
        "rpop"@ != "ping"@,
        "rpop"@ != "get"@,
        "rpop"@ != "set"@,
        "rpop"@ != "mset"@,
        "rpop"@ != "incr"@,
        "rpop"@ != "lpush"@,
        "rpop"@ != "rpush"@,
        "rpop"@ != "lpop"@,
        "config"@ != "select"@,
        "config"@ != "ping"@,
        "config"@ != "get"@,
        "config"@ != "set"@,
        "config"@ != "mset"@,
        "config"@ != "incr"@,
        "config"@ != "lpush"@,
        "config"@ != "rpush"@,
        "config"@ != "lpop"@,
        "config"@ != "rpop"@,
{
    reveal_strlit("select");
    reveal_strlit("ping");
    reveal_strlit("get");
    reveal_strlit("set");
    reveal_strlit("mset");
    reveal_strlit("incr");
    reveal_strlit("lpush");
    reveal_strlit("rpush");
    reveal_strlit("lpop");
    reveal_strlit("rpop");
    reveal_strlit("config");
    assert("ping"@.len() != "select"@.len());
    assert("get"@.len() != "select"@.len());
    assert("get"@.len() != "ping"@.len());
    assert("set"@.len() != "select"@.len());
    assert("set"@.len() != "ping"@.len());
    assert("set"@[0] != "get"@[0]);
    assert("mset"@.len() != "select"@.len());
    assert("mset"@[0] != "ping"@[0]);
    assert("mset"@.len() != "get"@.len());
    assert("mset"@.len() != "set"@.len());
    assert("incr"@.len() != "select"@.len());
    assert("incr"@[0] != "ping"@[0]);
    assert("incr"@.len() != "get"@.len());
    assert("incr"@.len() != "set"@.len());
    assert("incr"@[0] != "mset"@[0]);
    assert("lpush"@.len() != "select"@.len());
    assert("lpush"@.len() != "ping"@.len());
    assert("lpush"@.len() != "get"@.len());
    assert("lpush"@.len() != "set"@.len());
    assert("lpush"@.len() != "mset"@.len());
    assert("lpush"@.len() != "incr"@.len());
    assert("rpush"@.len() != "select"@.len());
    assert("rpush"@.len() != "ping"@.len());
    assert("rpush"@.len() != "get"@.len());
    assert("rpush"@.len() != "set"@.len());
    assert("rpush"@.len() != "mset"@.len());
    assert("rpush"@.len() != "incr"@.len());
    assert("rpush"@[0] != "lpush"@[0]);
    assert("lpop"@.len() != "select"@.len());
    assert("lpop"@[0] != "ping"@[0]);
    assert("lpop"@.len() != "get"@.len());
    assert("lpop"@.len() != "set"@.len());
    assert("lpop"@[0] != "mset"@[0]);
    assert("lpop"@[0] != "incr"@[0]);
    assert("lpop"@.len() != "lpush"@.len());
    assert("lpop"@.len() != "rpush"@.len());
    assert("rpop"@.len() != "select"@.len());
    assert("rpop"@[0] != "ping"@[0]);
    assert("rpop"@.len() != "get"@.len());
    assert("rpop"@.len() != "set"@.len());
    assert("rpop"@[0] != "mset"@[0]);
    assert("rpop"@[0] != "incr"@[0]);
    assert("rpop"@.len() != "lpush"@.len());
    assert("rpop"@.len() != "rpush"@.len());
    assert("rpop"@[0] != "lpop"@[0]);
    assert("config"@[0] != "select"@[0]);
    assert("config"@.len() != "ping"@.len());
    assert("config"@.len() != "get"@.len());
    assert("config"@.len() != "set"@.len());
    assert("config"@.len() != "mset"@.len());
    assert("config"@.len() != "incr"@.len());
    assert("config"@.len() != "lpush"@.len());
    assert("config"@.len() != "rpush"@.len());
    assert("config"@.len() != "lpop"@.len());
    assert("config"@.len() != "rpop"@.len());
}

// ---------------------------------------------------------------------------
// The handlers
// ---------------------------------------------------------------------------

/// `SELECT`: the database index is accepted and ignored.
pub fn handle_select_command(command: &RedisCommand, db: &DashMap<String, BitobaseObject>) -> (r:
    Result<String, String>)
    ensures
        reply_view(r) == select_outcome(args_view(command), db_contents(*db)).reply,
{
    if command.args.len() < 1 {
        return Ok("-ERR wrong number of arguments for 'select' command\r\n".to_owned());
    }
    Ok("+OK\r\n".to_owned())
}

/// `PING`.
pub fn handle_ping_command(_command: &RedisCommand, db: &DashMap<String, BitobaseObject>) -> (r:
    Result<String, String>)
    ensures
        reply_view(r) == ping_outcome(db_contents(*db)).reply,
{
    Ok("+PONG\r\n".to_owned())
}

/// `GET key`.
pub fn handle_get_command(command: &RedisCommand, db: &DashMap<String, BitobaseObject>) -> (r:
    Result<String, String>)
    ensures
        reply_view(r) == get_outcome(args_view(command), db_contents(*db)).reply,
{
    if command.args.len() != 1 {
        return Ok("-ERR wrong number of arguments for 'get' command\r\n".to_owned());
    }
    let key = command.args[0].as_str();
    match db_get(db, key) {
        Some(value) => {
            let mut r = "+".to_owned();
            r.append(value.to_string().as_str());
            r.append("\r\n");
            Ok(r)
        },
        None => Ok("+(nil)\r\n".to_owned()),
    }
}

/// `SET key value`.
pub fn handle_set_command(command: &RedisCommand, db: &mut DashMap<String, BitobaseObject>) -> (r:
    Result<String, String>)
    ensures
        reply_view(r) == set_outcome(args_view(command), db_contents(*old(db))).reply,
        db_contents(*final(db)) == set_outcome(args_view(command), db_contents(*old(db))).db,
{
    if command.args.len() != 2 {
        return Ok("-ERR wrong number of arguments for 'set' command\r\n".to_owned());
    }
    let key = command.args[0].clone();
    let value = command.args[1].clone();
    db_insert(db, key, BitobaseObject::String(value));
    Ok("+OK\r\n".to_owned())
}

/// `MSET k1 v1 k2 v2 ...`.
pub fn handle_mset_command(command: &RedisCommand, db: &mut DashMap<String, BitobaseObject>) -> (r:
    Result<String, String>)
    ensures
        reply_view(r) == mset_outcome(args_view(command), db_contents(*old(db))).reply,
        db_contents(*final(db)) == mset_outcome(args_view(command), db_contents(*old(db))).db,
{
    if command.args.len() < 2 {
        return Ok("-ERR wrong number of arguments for 'mset' command\r\n".to_owned());
    }
    let ghost args = args_view(command);
    let ghost start = db_contents(*db);
    let count = command.args.len();
    let mut index: usize = 0;
    while index < count - 1
        invariant
            count == command.args@.len(),
            count >= 2,
            index <= count - 1,
            args == args_view(command),
            db_contents(*db) == mset_store(args, start, index as nat),
        decreases count - 1 - index,
    {
        let key = command.args[index].clone();
        let value = command.args[index + 1].clone();
        db_insert(db, key, BitobaseObject::String(value));
        index = index + 1;
    }
    Ok("+OK\r\n".to_owned())
}

/// The shown value of a stored value never reads as a number: it starts with
/// a double quote or a square bracket.
pub proof fn lemma_shown_value_is_not_a_number(o: ObjectView)
    ensures
        parse_i32_spec(object_text(o)) is Err,
{
    let t = object_text(o);
    match o {
        ObjectView::Str(s) => assert(t[0] == '"'),
        ObjectView::List(l) => assert(t[0] == '['),
    }
    assert(t.len() > 0);
}

/// `INCR key`.
pub fn handle_incr_command(command: &RedisCommand, db: &mut DashMap<String, BitobaseObject>) -> (r:
    Result<String, String>)
    ensures
        reply_view(r) == incr_outcome(args_view(command), db_contents(*old(db))).reply,
        db_contents(*final(db)) == incr_outcome(args_view(command), db_contents(*old(db))).db,
{
    if command.args.len() != 1 {
        return Ok("-ERR wrong number of arguments for 'incr' command\r\n".to_owned());
    }
    let key = command.args[0].clone();
    match db_get(db, key.as_str()) {
        Some(value) => {
            let shown = value.to_string();
            let parsed = parse_i32_chars(str_chars(shown.as_str()).as_slice());
            match parsed {
                Ok(n) => {
                    proof {
                        lemma_shown_value_is_not_a_number(value@);
                    }
                    let next = n + 1;
                    db_insert(db, key, BitobaseObject::String(i32_to_string(next)));
                },
                Err(_) => {
                    return Ok("-ERR value is not an integer or out of range\r\n".to_owned());
                },
            }
        },
        None => {
            db_insert(db, key, BitobaseObject::String("1".to_owned()));
        },
    }
    Ok("+OK\r\n".to_owned())
}

/// The list stored under `key`, copied out; empty when the key is absent.
fn stored_list(db: &DashMap<String, BitobaseObject>, key: &str) -> (r: Option<VecDeque<String>>)
    ensures
        match r {
            Some(l) => !holds_string(db_contents(*db), key@) && strings_view(l@) == list_or_empty(
                db_contents(*db),
                key@,
            ),
            None => holds_string(db_contents(*db), key@),
        },
{
    match db_get(db, key) {
        Some(BitobaseObject::String(_)) => None,
        Some(BitobaseObject::List(l)) => Some(l),
        None => {
            let l: VecDeque<String> = VecDeque::new();
            assert(strings_view(l@) == Seq::<Seq<char>>::empty());
            Some(l)
        },
    }
}

/// `LPUSH key v1 v2 ...`.
pub fn handle_lpush_command(command: &RedisCommand, db: &mut DashMap<String, BitobaseObject>) -> (r:
    Result<String, String>)
    ensures
        reply_view(r) == lpush_outcome(args_view(command), db_contents(*old(db))).reply,
        db_contents(*final(db)) == lpush_outcome(args_view(command), db_contents(*old(db))).db,
{
    if command.args.len() < 2 {
        return Ok("-ERR wrong number of arguments for 'lpush' command\r\n".to_owned());
    }
    let ghost args = args_view(command);
    let key = command.args[0].clone();
    let mut list = match stored_list(db, key.as_str()) {
        Some(l) => l,
        None => {
            return Ok("-ERR expected list but found string.\r\n".to_owned());
        },
    };
    let ghost start = strings_view(list@);
    let mut i: usize = 1;
    while i < command.args.len()
        invariant
            1 <= i <= command.args@.len(),
            args == args_view(command),
            strings_view(list@) == args.subrange(1, i as int).reverse() + start,
        decreases command.args@.len() - i,
    {
        let ghost before = list@;
        list.push_front(command.args[i].clone());
        assert(strings_view(list@) == seq![args[i as int]] + strings_view(before));
        assert(args.subrange(1, i + 1).reverse() == seq![args[i as int]] + args.subrange(
            1,
            i as int,
        ).reverse());
        i = i + 1;
    }
    assert(args.subrange(1, args.len() as int) == args.skip(1));
    db_insert(db, key, BitobaseObject::List(list));
    Ok("+Ok \r\n".to_owned())
}

/// `RPUSH key v1 v2 ...`.
pub fn handle_rpush_command(command: &RedisCommand, db: &mut DashMap<String, BitobaseObject>) -> (r:
    Result<String, String>)
    ensures
        reply_view(r) == rpush_outcome(args_view(command), db_contents(*old(db))).reply,
        db_contents(*final(db)) == rpush_outcome(args_view(command), db_contents(*old(db))).db,
{
    if command.args.len() < 2 {
        return Ok("-ERR wrong number of arguments for 'rpush' command\r\n".to_owned());
    }
    let ghost args = args_view(command);
    let key = command.args[0].clone();
    let mut list = match stored_list(db, key.as_str()) {
        Some(l) => l,
        None => {
            return Ok("-ERR expected list but found string.\r\n".to_owned());
        },
    };
    let ghost start = strings_view(list@);
    let mut i: usize = 1;
    while i < command.args.len()
        invariant
            1 <= i <= command.args@.len(),
            args == args_view(command),
            strings_view(list@) == start + args.subrange(1, i as int),
        decreases command.args@.len() - i,
    {
        let ghost before = list@;
        list.push_back(command.args[i].clone());
        assert(strings_view(list@) == strings_view(before).push(args[i as int]));
        assert(args.subrange(1, i + 1) == args.subrange(1, i as int).push(args[i as int]));
        i = i + 1;
    }
    assert(args.subrange(1, args.len() as int) == args.skip(1));
    db_insert(db, key, BitobaseObject::List(list));
    Ok("+Ok \r\n".to_owned())
}

/// `LPOP key count`.
pub fn handle_lpop_command(command: &RedisCommand, db: &mut DashMap<String, BitobaseObject>) -> (r:
    Result<String, String>)
    ensures
        reply_view(r) == lpop_outcome(args_view(command), db_contents(*old(db))).reply,
        db_contents(*final(db)) == lpop_outcome(args_view(command), db_contents(*old(db))).db,
{
    if command.args.len() < 2 {
        return Ok("-ERR wrong number of arguments for 'lpop' command\r\n".to_owned());
    }
    let key = command.args[0].clone();
    let count = match parse_i32_chars(str_chars(command.args[1].as_str()).as_slice()) {
        Ok(n) => n,
        Err(_) => {
            return Err("count was not a integer".to_owned());
        },
    };
    match db_get(db, key.as_str()) {
        Some(BitobaseObject::List(mut l)) => {
            let ghost start = l@;
            let mut i: i32 = 0;
            while i < count && l.len() > 0
                invariant
                    0 <= i,
                    i <= count || count <= 0,
                    l@ == start.skip(i as int),
                    i <= start.len(),
                    count <= 0 ==> i == 0,
                decreases start.len() - i,
            {
                l.pop_front();
                i = i + 1;
            }
            assert(i == pop_count(count as int, start.len()));
            assert(strings_view(l@) == strings_view(start).skip(i as int));
            db_insert(db, key, BitobaseObject::List(l));
            Ok("+OK\r\n".to_owned())
        },
        Some(BitobaseObject::String(_)) => {
            Ok("-WRONGTYPE Operation against a key holding the wrong kind of value\r\n".to_owned())
        },
        None => Ok("$-1\r\n".to_owned()),
    }
}

/// `RPOP key count`.
pub fn handle_rpop_command(command: &RedisCommand, db: &mut DashMap<String, BitobaseObject>) -> (r:
    Result<String, String>)
    ensures
        reply_view(r) == rpop_outcome(args_view(command), db_contents(*old(db))).reply,
        db_contents(*final(db)) == rpop_outcome(args_view(command), db_contents(*old(db))).db,
{
    if command.args.len() < 2 {
        return Ok("-ERR wrong number of arguments for 'rpop' command\r\n".to_owned());
    }
    let key = command.args[0].clone();
    let count = match parse_i32_chars(str_chars(command.args[1].as_str()).as_slice()) {
        Ok(n) => n,
        Err(_) => {
            return Err("count was not a integer".to_owned());
        },
    };
    match db_get(db, key.as_str()) {
        Some(BitobaseObject::List(mut l)) => {
            let ghost start = l@;
            let mut i: i32 = 0;
            while i < count && l.len() > 0
                invariant
                    0 <= i,
                    i <= count || count <= 0,
                    i <= start.len(),
                    l@ == start.take(start.len() - i),
                    count <= 0 ==> i == 0,
                decreases start.len() - i,
            {
                l.pop_back();
                i = i + 1;
            }
            assert(i == pop_count(count as int, start.len()));
            assert(strings_view(l@) == strings_view(start).take(start.len() - i));
            db_insert(db, key, BitobaseObject::List(l));
            Ok("+OK\r\n".to_owned())
        },
        Some(BitobaseObject::String(_)) => Ok("-ERR wrong data type for 'rpop' command".to_owned()),
        None => Ok("+(nil)\r\n".to_owned()),
    }
}

/// `CONFIG GET name`; the caller has checked that the name is there.
pub fn handle_config_get_command(command: &RedisCommand, db: &DashMap<String, BitobaseObject>) -> (r:
    Result<String, String>)
    requires
        command.args@.len() >= 2,
    ensures
        reply_view(r) == config_get_outcome(args_view(command), db_contents(*db)).reply,
{
    let name = command.args[1].as_str();
    if str_eq(name, "appendonly") {
        let message_array: [&str; 2] = ["appendonly", "no"];
        assert(strs_view(message_array@) == seq!["appendonly"@, "no"@]);
        Ok(resp_array(&message_array))
    } else if str_eq(name, "save") {
        let message_array: [&str; 2] = ["save", ""];
        assert(strs_view(message_array@) == seq!["save"@, ""@]);
        Ok(resp_array(&message_array))
    } else {
        Ok("*0\r\n".to_owned())
    }
}

/// `CONFIG subcommand ...` whose subcommand, lowercased, is `lowered_sub`;
/// the caller has checked that `GET` has the name of a parameter.
pub fn dispatch_config_command(
    lowered_sub: &str,
    command: &RedisCommand,
    db: &DashMap<String, BitobaseObject>,
) -> (r: Result<String, String>)
    requires
        command.args@.len() >= 1,
        lowered_sub@ == "get"@ ==> command.args@.len() >= 2,
    ensures
        reply_view(r) == config_sub_outcome(lowered_sub@, args_view(command), db_contents(*db)).reply,
{
    if !str_eq(lowered_sub, "get") {
        let mut r = "-ERR subcommand ".to_owned();
        r.append(command.args[0].as_str());
        r.append(" in 'config' command is not supported\r\n");
        return Ok(r);
    }
    handle_config_get_command(command, db)
}

/// `CONFIG subcommand ...`.
pub fn handle_config_command(command: &RedisCommand, db: &DashMap<String, BitobaseObject>) -> (r:
    Result<String, String>)
    requires
        config_args_ok(args_view(command)),
    ensures
        reply_view(r) == config_outcome(args_view(command), db_contents(*db)).reply,
        command.args@.len() >= 1 && is_ascii_chars(command.args@[0]@) ==> lowercase(
            command.args@[0]@,
        ) == ascii_lowercase(command.args@[0]@),
{
    if command.args.len() < 1 {
        return Ok("-ERR wrong number of arguments for 'config' command\r\n".to_owned());
    }
    let lowered = to_lowercase(command.args[0].as_str());
    dispatch_config_command(lowered.as_str(), command, db)
}

/// Runs the command whose name, lowercased, is `lowered`. `None` when it is
/// `CONFIG GET` without the name of a parameter: the database is then unchanged.
pub fn dispatch_command(
    lowered: &str,
    command: &RedisCommand,
    db: &mut DashMap<String, BitobaseObject>,
) -> (r: Option<Result<String, String>>)
    ensures
        match command_outcome_lowered(
            lowered@,
            command.command@,
            args_view(command),
            db_contents(*old(db)),
        ) {
            Some(o) => r is Some && reply_view(r->0) == o.reply && db_contents(*final(db)) == o.db,
            None => r is None && db_contents(*final(db)) == db_contents(*old(db)),
        },
        lowered@ == "config"@ && command.args@.len() >= 1 && is_ascii_chars(command.args@[0]@)
            ==> lowercase(command.args@[0]@) == ascii_lowercase(command.args@[0]@),
{
    proof {
        lemma_command_names_distinct();
    }
    if str_eq(lowered, "select") {
        Some(handle_select_command(command, db))
    } else if str_eq(lowered, "ping") {
        Some(handle_ping_command(command, db))
    } else if str_eq(lowered, "get") {
        Some(handle_get_command(command, db))
    } else if str_eq(lowered, "set") {
        Some(handle_set_command(command, db))
    } else if str_eq(lowered, "mset") {
        Some(handle_mset_command(command, db))
    } else if str_eq(lowered, "incr") {
        Some(handle_incr_command(command, db))
    } else if str_eq(lowered, "lpush") {
        Some(handle_lpush_command(command, db))
    } else if str_eq(lowered, "rpush") {
        Some(handle_rpush_command(command, db))
    } else if str_eq(lowered, "lpop") {
        Some(handle_lpop_command(command, db))
    } else if str_eq(lowered, "rpop") {
        Some(handle_rpop_command(command, db))
    } else if str_eq(lowered, "config") {
        if command.args.len() < 1 {
            return Some(handle_config_command(command, db));
        }
        let sub = to_lowercase(command.args[0].as_str());
        if str_eq(sub.as_str(), "get") && command.args.len() < 2 {
            return None;
        }
        Some(dispatch_config_command(sub.as_str(), command, db))
    } else {
        let mut r = "-ERR unknown command '".to_owned();
        r.append(command.command.as_str());
        r.append("'\r\n");
        Some(Ok(r))
    }
}

/// Runs one command against the database, whatever the case of its name.
/// `None` when the command is `CONFIG GET` without the name of a parameter:
/// the database is then unchanged.
pub fn execute_command(command: &RedisCommand, db: &mut DashMap<String, BitobaseObject>) -> (r:
    Option<Result<String, String>>)
    ensures
        match command_outcome(command.command@, args_view(command), db_contents(*old(db))) {
            Some(o) => r is Some && reply_view(r->0) == o.reply && db_contents(*final(db)) == o.db,
            None => r is None && db_contents(*final(db)) == db_contents(*old(db)),
        },
        is_ascii_chars(command.command@) ==> lowercase(command.command@) == ascii_lowercase(
            command.command@,
        ),
        lowercase(command.command@) == "config"@ && command.args@.len() >= 1 && is_ascii_chars(
            command.args@[0]@,
        ) ==> lowercase(command.args@[0]@) == ascii_lowercase(command.args@[0]@),
{
    let name = to_lowercase(command.command.as_str());
    dispatch_command(name.as_str(), command, db)
}

} // verus!
