use bitobase::commands::{
    dispatch_command, dispatch_config_command,
    execute_command, handle_config_command, handle_config_get_command, handle_get_command,
    handle_incr_command, handle_lpop_command, handle_lpush_command, handle_mset_command,
    handle_ping_command, handle_rpop_command, handle_rpush_command, handle_select_command,
    handle_set_command,
};
use bitobase::store::db_new;
use bitobase::types::{BitobaseObject, RedisCommand};
use dashmap::DashMap;
use std::collections::VecDeque;

fn cmd(name: &str, args: &[&str]) -> RedisCommand {
    RedisCommand {
        command: name.to_string(),
        args: args.iter().map(|a| a.to_string()).collect(),
    }
}

fn ok(s: &str) -> Result<String, String> {
    Ok(s.to_string())
}

fn list(items: &[&str]) -> BitobaseObject {
    BitobaseObject::List(items.iter().map(|a| a.to_string()).collect::<VecDeque<String>>())
}

fn stored(db: &DashMap<String, BitobaseObject>, key: &str) -> Option<BitobaseObject> {
    db.get(key).map(|r| r.value().clone())
}

#[test]
fn get_after_set_shows_quoted_value() {
    let mut db = db_new();
    assert_eq!(handle_set_command(&cmd("set", &["k", "v"]), &mut db), ok("+OK\r\n"));
    assert_eq!(handle_get_command(&cmd("get", &["k"]), &db), ok("+\"v\"\r\n"));
}

#[test]
fn get_missing_key_is_nil() {
    let db = db_new();
    assert_eq!(handle_get_command(&cmd("get", &["nope"]), &db), ok("+(nil)\r\n"));
}

#[test]
fn set_keeps_other_keys() {
    let mut db = db_new();
    handle_set_command(&cmd("set", &["a", "1"]), &mut db).unwrap();
    handle_set_command(&cmd("set", &["b", "2"]), &mut db).unwrap();
    assert_eq!(handle_get_command(&cmd("get", &["a"]), &db), ok("+\"1\"\r\n"));
    assert_eq!(handle_get_command(&cmd("get", &["b"]), &db), ok("+\"2\"\r\n"));
}

#[test]
fn wrong_arity_replies_and_changes_nothing() {
    let mut db = db_new();
    assert_eq!(
        handle_set_command(&cmd("set", &["k"]), &mut db),
        ok("-ERR wrong number of arguments for 'set' command\r\n")
    );
    assert_eq!(
        handle_get_command(&cmd("get", &[]), &db),
        ok("-ERR wrong number of arguments for 'get' command\r\n")
    );
    assert_eq!(
        handle_select_command(&cmd("select", &[]), &db),
        ok("-ERR wrong number of arguments for 'select' command\r\n")
    );
    assert_eq!(
        handle_mset_command(&cmd("mset", &["k"]), &mut db),
        ok("-ERR wrong number of arguments for 'mset' command\r\n")
    );
    assert_eq!(
        handle_incr_command(&cmd("incr", &[]), &mut db),
        ok("-ERR wrong number of arguments for 'incr' command\r\n")
    );
    assert_eq!(
        handle_lpush_command(&cmd("lpush", &["k"]), &mut db),
        ok("-ERR wrong number of arguments for 'lpush' command\r\n")
    );
    assert_eq!(
        handle_rpush_command(&cmd("rpush", &["k"]), &mut db),
        ok("-ERR wrong number of arguments for 'rpush' command\r\n")
    );
    assert_eq!(
        handle_lpop_command(&cmd("lpop", &["k"]), &mut db),
        ok("-ERR wrong number of arguments for 'lpop' command\r\n")
    );
    assert_eq!(
        handle_rpop_command(&cmd("rpop", &["k"]), &mut db),
        ok("-ERR wrong number of arguments for 'rpop' command\r\n")
    );
    assert_eq!(
        handle_config_command(&cmd("config", &[]), &db),
        ok("-ERR wrong number of arguments for 'config' command\r\n")
    );
    assert!(db.is_empty());
}

#[test]
fn select_and_ping() {
    let db = db_new();
    assert_eq!(handle_select_command(&cmd("select", &["0"]), &db), ok("+OK\r\n"));
    assert_eq!(handle_ping_command(&cmd("ping", &[]), &db), ok("+PONG\r\n"));
}

#[test]
fn mset_stores_each_argument_under_the_one_before() {
    let mut db = db_new();
    assert_eq!(
        handle_mset_command(&cmd("mset", &["k1", "v1", "k2", "v2"]), &mut db),
        ok("+OK\r\n")
    );
    assert_eq!(stored(&db, "k1"), Some(BitobaseObject::String("v1".to_string())));
    assert_eq!(stored(&db, "v1"), Some(BitobaseObject::String("k2".to_string())));
    assert_eq!(stored(&db, "k2"), Some(BitobaseObject::String("v2".to_string())));
    assert_eq!(db.len(), 3);
}

#[test]
fn incr_absent_key_becomes_one() {
    let mut db = db_new();
    assert_eq!(handle_incr_command(&cmd("incr", &["n"]), &mut db), ok("+OK\r\n"));
    assert_eq!(handle_get_command(&cmd("get", &["n"]), &db), ok("+\"1\"\r\n"));
}

#[test]
fn incr_present_key_is_refused() {
    let mut db = db_new();
    handle_set_command(&cmd("set", &["n", "5"]), &mut db).unwrap();
    assert_eq!(
        handle_incr_command(&cmd("incr", &["n"]), &mut db),
        ok("-ERR value is not an integer or out of range\r\n")
    );
    assert_eq!(stored(&db, "n"), Some(BitobaseObject::String("5".to_string())));
    handle_incr_command(&cmd("incr", &["m"]), &mut db).unwrap();
    assert_eq!(
        handle_incr_command(&cmd("incr", &["m"]), &mut db),
        ok("-ERR value is not an integer or out of range\r\n")
    );
}

#[test]
fn rpush_keeps_order_and_lpush_reverses() {
    let mut db = db_new();
    assert_eq!(
        handle_rpush_command(&cmd("rpush", &["r", "a", "b", "c"]), &mut db),
        ok("+Ok \r\n")
    );
    assert_eq!(
        handle_lpush_command(&cmd("lpush", &["l", "a", "b", "c"]), &mut db),
        ok("+Ok \r\n")
    );
    assert_eq!(stored(&db, "r"), Some(list(&["a", "b", "c"])));
    assert_eq!(stored(&db, "l"), Some(list(&["c", "b", "a"])));
    assert_eq!(handle_get_command(&cmd("get", &["r"]), &db), ok("+[a,b,c]\r\n"));
    handle_lpush_command(&cmd("lpush", &["r", "z"]), &mut db).unwrap();
    handle_rpush_command(&cmd("rpush", &["r", "y"]), &mut db).unwrap();
    assert_eq!(stored(&db, "r"), Some(list(&["z", "a", "b", "c", "y"])));
}

#[test]
fn push_onto_string_is_refused() {
    let mut db = db_new();
    handle_set_command(&cmd("set", &["s", "x"]), &mut db).unwrap();
    assert_eq!(
        handle_lpush_command(&cmd("lpush", &["s", "a"]), &mut db),
        ok("-ERR expected list but found string.\r\n")
    );
    assert_eq!(
        handle_rpush_command(&cmd("rpush", &["s", "a"]), &mut db),
        ok("-ERR expected list but found string.\r\n")
    );
    assert_eq!(stored(&db, "s"), Some(BitobaseObject::String("x".to_string())));
}

#[test]
fn lpop_and_rpop_remove_up_to_count() {
    let mut db = db_new();
    handle_rpush_command(&cmd("rpush", &["k", "a", "b", "c", "d"]), &mut db).unwrap();
    assert_eq!(handle_lpop_command(&cmd("lpop", &["k", "1"]), &mut db), ok("+OK\r\n"));
    assert_eq!(stored(&db, "k"), Some(list(&["b", "c", "d"])));
    assert_eq!(handle_rpop_command(&cmd("rpop", &["k", "2"]), &mut db), ok("+OK\r\n"));
    assert_eq!(stored(&db, "k"), Some(list(&["b"])));
    assert_eq!(handle_lpop_command(&cmd("lpop", &["k", "-3"]), &mut db), ok("+OK\r\n"));
    assert_eq!(stored(&db, "k"), Some(list(&["b"])));
    assert_eq!(handle_rpop_command(&cmd("rpop", &["k", "10"]), &mut db), ok("+OK\r\n"));
    assert_eq!(stored(&db, "k"), Some(list(&[])));
    assert_eq!(handle_get_command(&cmd("get", &["k"]), &db), ok("+[]\r\n"));
}

#[test]
fn pop_errors() {
    let mut db = db_new();
    handle_set_command(&cmd("set", &["s", "x"]), &mut db).unwrap();
    assert_eq!(
        handle_lpop_command(&cmd("lpop", &["k", "one"]), &mut db),
        Err("count was not a integer".to_string())
    );
    assert_eq!(
        handle_rpop_command(&cmd("rpop", &["k", ""]), &mut db),
        Err("count was not a integer".to_string())
    );
    assert_eq!(handle_lpop_command(&cmd("lpop", &["k", "1"]), &mut db), ok("$-1\r\n"));
    assert_eq!(handle_rpop_command(&cmd("rpop", &["k", "1"]), &mut db), ok("+(nil)\r\n"));
    assert_eq!(
        handle_lpop_command(&cmd("lpop", &["s", "1"]), &mut db),
        ok("-WRONGTYPE Operation against a key holding the wrong kind of value\r\n")
    );
    assert_eq!(
        handle_rpop_command(&cmd("rpop", &["s", "1"]), &mut db),
        ok("-ERR wrong data type for 'rpop' command")
    );
}

#[test]
fn config_get_parameters() {
    let db = db_new();
    assert_eq!(
        handle_config_get_command(&cmd("config", &["get", "appendonly"]), &db),
        ok("*2\r\n$10\r\nappendonly\r\n$2\r\nno\r\n")
    );
    assert_eq!(
        handle_config_command(&cmd("config", &["GET", "save"]), &db),
        ok("*2\r\n$4\r\nsave\r\n$0\r\n\r\n")
    );
    assert_eq!(handle_config_command(&cmd("config", &["Get", "other"]), &db), ok("*0\r\n"));
    assert_eq!(
        handle_config_command(&cmd("config", &["set", "save"]), &db),
        ok("-ERR subcommand set in 'config' command is not supported\r\n")
    );
}

#[test]
fn execute_dispatches_in_any_case() {
    let mut db = db_new();
    assert_eq!(execute_command(&cmd("PING", &[]), &mut db), Some(ok("+PONG\r\n")));
    assert_eq!(execute_command(&cmd("SeT", &["k", "v"]), &mut db), Some(ok("+OK\r\n")));
    assert_eq!(execute_command(&cmd("get", &["k"]), &mut db), Some(ok("+\"v\"\r\n")));
    assert_eq!(
        execute_command(&cmd("FLUSHALL", &[]), &mut db),
        Some(ok("-ERR unknown command 'FLUSHALL'\r\n"))
    );
    assert_eq!(execute_command(&cmd("", &[]), &mut db), Some(ok("-ERR unknown command ''\r\n")));
}

#[test]
fn execute_gives_up_on_config_get_without_name() {
    let mut db = db_new();
    assert_eq!(execute_command(&cmd("config", &["GET"]), &mut db), None);
    assert_eq!(
        execute_command(&cmd("config", &["set"]), &mut db),
        Some(ok("-ERR subcommand set in 'config' command is not supported\r\n"))
    );
}

#[test]
fn shown_values() {
    assert_eq!(BitobaseObject::String("hi".to_string()).to_string(), "\"hi\"");
    assert_eq!(list(&[]).to_string(), "[]");
    assert_eq!(list(&["a"]).to_string(), "[a]");
    assert_eq!(list(&["a", "b"]).to_string(), "[a,b]");
}

#[test]
fn lpop_undoes_lpush() {
    let mut db = db_new();
    handle_rpush_command(&cmd("rpush", &["k", "a", "b"]), &mut db).unwrap();
    handle_set_command(&cmd("set", &["other", "x"]), &mut db).unwrap();
    assert_eq!(handle_lpush_command(&cmd("lpush", &["k", "1", "2", "3"]), &mut db), ok("+Ok \r\n"));
    assert_eq!(handle_lpop_command(&cmd("lpop", &["k", "3"]), &mut db), ok("+OK\r\n"));
    assert_eq!(stored(&db, "k"), Some(list(&["a", "b"])));
    assert_eq!(stored(&db, "other"), Some(BitobaseObject::String("x".to_string())));
    assert_eq!(db.len(), 2);
}

#[test]
fn rpop_undoes_rpush() {
    let mut db = db_new();
    handle_rpush_command(&cmd("rpush", &["k", "a"]), &mut db).unwrap();
    assert_eq!(handle_rpush_command(&cmd("rpush", &["k", "y", "z"]), &mut db), ok("+Ok \r\n"));
    assert_eq!(handle_rpop_command(&cmd("rpop", &["k", "2"]), &mut db), ok("+OK\r\n"));
    assert_eq!(stored(&db, "k"), Some(list(&["a"])));
}

#[test]
fn dispatch_takes_the_lowercased_name() {
    let mut db = db_new();
    assert_eq!(dispatch_command("ping", &cmd("PiNg", &[]), &mut db), Some(ok("+PONG\r\n")));
    assert_eq!(
        dispatch_command("nope", &cmd("NOPE", &[]), &mut db),
        Some(ok("-ERR unknown command 'NOPE'\r\n"))
    );
    assert_eq!(dispatch_command("config", &cmd("CONFIG", &["GET"]), &mut db), None);
    assert_eq!(
        dispatch_config_command("get", &cmd("config", &["GET", "save"]), &db),
        ok("*2\r\n$4\r\nsave\r\n$0\r\n\r\n")
    );
    assert_eq!(
        dispatch_config_command("rewrite", &cmd("config", &["REWRITE"]), &db),
        ok("-ERR subcommand REWRITE in 'config' command is not supported\r\n")
    );
}
