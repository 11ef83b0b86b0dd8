use bitobase::resp::{
    parse_resp_array, parse_resp_bulk_string, parse_resp_message, parse_resp_simple_error,
    parse_resp_simple_string, resp_array, resp_message_to_redis_command, ParseOutcome,
};
use bitobase::server::{handle_request, ServerAction};
use bitobase::store::db_new;
use bitobase::types::{run_arguments_from, RedisCommand};

fn strings(items: &[&str]) -> Vec<String> {
    items.iter().map(|a| a.to_string()).collect()
}

#[test]
fn resp_array_encodes_counts_and_byte_lengths() {
    assert_eq!(resp_array(&[]), "*0\r\n");
    assert_eq!(resp_array(&["save", ""]), "*2\r\n$4\r\nsave\r\n$0\r\n\r\n");
    assert_eq!(resp_array(&["héllo"]), "*1\r\n$6\r\nhéllo\r\n");
    let many: Vec<&str> = vec!["x"; 12];
    assert!(resp_array(&many).starts_with("*12\r\n$1\r\nx\r\n"));
}

#[test]
fn array_of_bulk_strings_decodes() {
    let input = b"*2\r\n$4\r\nECHO\r\n$2\r\nhi\r\n";
    assert_eq!(
        parse_resp_message(input, 0, false),
        ParseOutcome::Done(strings(&["ECHO", "hi"]), input.len())
    );
}

#[test]
fn resp_array_reads_back() {
    for items in [vec![], vec!["save", ""], vec!["a b", "héllo", "x\ry"]] {
        let text = resp_array(&items);
        let bytes = text.as_bytes();
        for eof in [false, true] {
            assert_eq!(
                parse_resp_message(bytes, 0, eof),
                ParseOutcome::Done(strings(&items), bytes.len())
            );
        }
    }
}

#[test]
fn incomplete_input_waits_for_more() {
    assert_eq!(parse_resp_message(b"", 0, false), ParseOutcome::Incomplete);
    assert_eq!(parse_resp_message(b"*2\r\n$4\r\nECHO\r\n", 0, false), ParseOutcome::Incomplete);
    assert_eq!(parse_resp_message(b"+OK", 0, false), ParseOutcome::Incomplete);
}

#[test]
fn end_of_input_ends_the_last_line() {
    assert_eq!(parse_resp_message(b"+OK", 0, true), ParseOutcome::Done(strings(&["OK"]), 3));
    assert_eq!(parse_resp_message(b"", 0, true), ParseOutcome::Failed("early eof".to_string(), 0));
    assert_eq!(
        parse_resp_message(b"*2\r\n+a\r\n", 0, true),
        ParseOutcome::Failed("early eof".to_string(), 8)
    );
}

#[test]
fn simple_strings_errors_and_bulk_strings() {
    assert_eq!(parse_resp_message(b"+hello\r\n", 0, false), ParseOutcome::Done(strings(&["hello"]), 8));
    assert_eq!(
        parse_resp_message(b"-ERR boom\r\n+next\r\n", 0, false),
        ParseOutcome::Failed("ERR boom".to_string(), 11)
    );
    assert_eq!(
        parse_resp_message(b"$999\r\nabc\r\n", 0, false),
        ParseOutcome::Done(strings(&["abc"]), 11)
    );
    assert_eq!(
        parse_resp_simple_string(b"+a\r\n\r\n", 1, false),
        ParseOutcome::Done("a".to_string(), 4)
    );
    assert_eq!(
        parse_resp_simple_error(b"-oops\r\n", 1, false),
        ParseOutcome::Done("oops".to_string(), 7)
    );
    assert_eq!(
        parse_resp_bulk_string(b"$1\r\nz\r\n", 1, false),
        ParseOutcome::Done("z".to_string(), 7)
    );
    assert_eq!(parse_resp_bulk_string(b"$1\r\n", 1, false), ParseOutcome::Incomplete);
}

#[test]
fn trailing_line_breaks_are_removed_repeatedly() {
    assert_eq!(
        parse_resp_simple_string(b"+a\r\n", 1, false),
        ParseOutcome::Done("a".to_string(), 4)
    );
    assert_eq!(
        parse_resp_simple_string(b"+a\r\r\n", 1, false),
        ParseOutcome::Done("a\r".to_string(), 5)
    );
    assert_eq!(
        parse_resp_simple_string(b"+a\n", 1, false),
        ParseOutcome::Done("a\n".to_string(), 3)
    );
}

#[test]
fn inline_commands_split_on_white_space() {
    assert_eq!(
        parse_resp_message(b"SET  k\tv\r\n", 0, false),
        ParseOutcome::Done(strings(&["SET", "k", "v"]), 10)
    );
    assert_eq!(parse_resp_message(b"PING\n", 0, false), ParseOutcome::Done(strings(&["PING"]), 5));
    assert_eq!(parse_resp_message(b" \r\n", 0, false), ParseOutcome::Done(strings(&[]), 3));
    assert_eq!(parse_resp_message(b"\xe9a b\n", 0, false), ParseOutcome::Done(strings(&["\u{e9}a", "b"]), 5));
}

#[test]
fn array_size_errors() {
    assert_eq!(
        parse_resp_array(b"*x\r\n+a\r\n", 1, false),
        ParseOutcome::Failed("invalid digit found in string".to_string(), 4)
    );
    assert_eq!(
        parse_resp_message(b"*\r\n", 0, false),
        ParseOutcome::Failed("cannot parse integer from empty string".to_string(), 3)
    );
    assert_eq!(
        parse_resp_message(b"*99999999999\r\n", 0, false),
        ParseOutcome::Failed("number too large to fit in target type".to_string(), 14)
    );
    assert_eq!(parse_resp_message(b"*-1\r\n", 0, false), ParseOutcome::Done(strings(&[]), 5));
    assert_eq!(parse_resp_message(b"* 0 \r\n", 0, false), ParseOutcome::Done(strings(&[]), 6));
}

#[test]
fn nested_arrays_flatten() {
    let input = b"*2\r\n*2\r\n+a\r\n+b\r\n$1\r\nc\r\n";
    assert_eq!(
        parse_resp_message(input, 0, false),
        ParseOutcome::Done(strings(&["a", "b", "c"]), input.len())
    );
}

#[test]
fn invalid_utf8_fails() {
    match parse_resp_message(b"+\xff\r\n", 0, false) {
        ParseOutcome::Failed(m, at) => {
            assert!(m.starts_with("error reading simple string: "));
            assert_eq!(at, 4);
        }
        other => panic!("unexpected {:?}", other),
    }
    match parse_resp_message(b"*\xff\r\n", 0, false) {
        ParseOutcome::Failed(m, _) => assert!(m.starts_with("error reading array size: ")),
        other => panic!("unexpected {:?}", other),
    }
    match parse_resp_message(b"$\xff\r\n", 0, false) {
        ParseOutcome::Failed(m, _) => assert!(m.starts_with("error reading bulk string size: ")),
        other => panic!("unexpected {:?}", other),
    }
    match parse_resp_message(b"$1\r\n\xff\r\n", 0, false) {
        ParseOutcome::Failed(m, _) => assert!(m.starts_with("error reading bulk string: ")),
        other => panic!("unexpected {:?}", other),
    }
    match parse_resp_message(b"-\xff\r\n", 0, false) {
        ParseOutcome::Failed(m, _) => assert!(m.starts_with("error reading error line: ")),
        other => panic!("unexpected {:?}", other),
    }
}

#[test]
fn message_to_command() {
    assert_eq!(
        resp_message_to_redis_command(&strings(&["SET", "k", "v"])),
        Ok(RedisCommand { command: "SET".to_string(), args: strings(&["k", "v"]) })
    );
    assert_eq!(
        resp_message_to_redis_command(&strings(&[])),
        Ok(RedisCommand { command: String::new(), args: vec![] })
    );
}

#[test]
fn requests_are_served_in_turn() {
    let mut db = db_new();
    let input = b"*3\r\n$3\r\nSET\r\n$1\r\nk\r\n$1\r\nv\r\nGET k\r\n";
    let first = handle_request(input, false, &mut db);
    assert_eq!(first, ServerAction::Reply("+OK\r\n".to_string(), 27));
    let second = handle_request(&input[27..], false, &mut db);
    assert_eq!(second, ServerAction::Reply("+\"v\"\r\n".to_string(), 7));
    assert_eq!(handle_request(&input[34..], false, &mut db), ServerAction::NeedMore);
    assert_eq!(
        handle_request(&input[34..], true, &mut db),
        ServerAction::ParseError("early eof".to_string())
    );
}

#[test]
fn request_failures() {
    let mut db = db_new();
    assert_eq!(
        handle_request(b"-ERR x\r\n", false, &mut db),
        ServerAction::ParseError("ERR x".to_string())
    );
    assert_eq!(
        handle_request(b"LPOP k many\r\n", false, &mut db),
        ServerAction::CommandError("count was not a integer".to_string())
    );
    assert_eq!(handle_request(b"CONFIG get\r\n", false, &mut db), ServerAction::Abort);
}

#[test]
fn run_arguments_default() {
    assert_eq!(run_arguments_from(None).listen_url, "127.0.0.1:8080");
    assert_eq!(run_arguments_from(Some("0.0.0.0:6379".to_string())).listen_url, "0.0.0.0:6379");
}
