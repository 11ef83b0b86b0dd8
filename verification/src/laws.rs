//! Properties that relate several commands, proved over their models.
use crate::commands::{
    config_args_ok, config_outcome, mset_store, get_outcome, holds_string, incr_outcome, list_or_empty,
    lpop_outcome, lpush_outcome, mset_outcome, ping_outcome, rpop_outcome, rpush_outcome,
    lemma_command_names_distinct, select_outcome, set_outcome, Outcome,
};
use crate::resp::{message_spec, Step};
use crate::roundtrip::law_parse_i32_reads_back_decimal;
use crate::server::{serve_spec, ActionView};
use crate::store::DbView;
use crate::text::{lowercase, signed_decimal};
use crate::types::{object_text, ObjectView};
use vstd::prelude::*;

verus! {

/// After `SET key value`, `GET key` answers the value, in double quotes.
pub proof fn law_get_after_set(db: DbView, key: Seq<char>, value: Seq<char>)
    ensures
        get_outcome(seq![key], set_outcome(seq![key, value], db).db).reply == Ok::<
            Seq<char>,
            Seq<char>,
        >("+"@ + (seq!['"'] + value + seq!['"']) + "\r\n"@),
{
    let after = set_outcome(seq![key, value], db).db;
    assert(after.contains_key(key));
    assert(after[key] == ObjectView::Str(value));
}

/// `SET key value` does not change what `GET` answers for any other key.
pub proof fn law_set_keeps_other_keys(db: DbView, key: Seq<char>, value: Seq<char>, other: Seq<char>)
    requires
        other != key,
    ensures
        get_outcome(seq![other], set_outcome(seq![key, value], db).db).reply == get_outcome(
            seq![other],
            db,
        ).reply,
{
    let after = set_outcome(seq![key, value], db).db;
    assert(after.contains_key(other) == db.contains_key(other));
    if db.contains_key(other) {
        assert(after[other] == db[other]);
    }
}

/// A command given the wrong number of arguments changes nothing.
pub proof fn law_wrong_arity_changes_nothing(db: DbView, args: Seq<Seq<char>>)
    ensures
        args.len() != 2 ==> set_outcome(args, db).db == db,
        args.len() < 2 ==> mset_outcome(args, db).db == db,
        args.len() != 1 ==> incr_outcome(args, db).db == db,
        args.len() < 2 ==> lpush_outcome(args, db).db == db,
        args.len() < 2 ==> rpush_outcome(args, db).db == db,
        args.len() < 2 ==> lpop_outcome(args, db).db == db,
        args.len() < 2 ==> rpop_outcome(args, db).db == db,
{
}

/// `INCR` on an absent key stores the string "1", which `GET` then shows.
pub proof fn law_incr_then_get(db: DbView, key: Seq<char>)
    requires
        !db.contains_key(key),
    ensures
        get_outcome(seq![key], incr_outcome(seq![key], db).db).reply == Ok::<Seq<char>, Seq<char>>(
            "+"@ + (seq!['"'] + "1"@ + seq!['"']) + "\r\n"@,
        ),
{
    let after = incr_outcome(seq![key], db).db;
    assert(after[key] == ObjectView::Str("1"@));
}

/// `INCR` never changes a key that holds a value: the value is refused.
pub proof fn law_incr_keeps_present_value(db: DbView, key: Seq<char>)
    requires
        db.contains_key(key),
    ensures
        incr_outcome(seq![key], db).db == db,
        incr_outcome(seq![key], db).reply == Ok::<Seq<char>, Seq<char>>(
            "-ERR value is not an integer or out of range\r\n"@,
        ),
{
}

/// Pushing onto a key that holds a string is refused and changes nothing.
pub proof fn law_push_onto_string_refused(db: DbView, args: Seq<Seq<char>>)
    requires
        args.len() >= 2,
        holds_string(db, args[0]),
    ensures
        lpush_outcome(args, db).db == db,
        rpush_outcome(args, db).db == db,
        lpush_outcome(args, db).reply == Ok::<Seq<char>, Seq<char>>(
            "-ERR expected list but found string.\r\n"@,
        ),
        rpush_outcome(args, db).reply == Ok::<Seq<char>, Seq<char>>(
            "-ERR expected list but found string.\r\n"@,
        ),
{
}

/// `RPUSH` onto an absent key makes a list of the values in the order given,
/// `LPUSH` one in the reverse order.
pub proof fn law_push_order(db: DbView, key: Seq<char>, values: Seq<Seq<char>>)
    requires
        !db.contains_key(key),
        values.len() >= 1,
    ensures
        rpush_outcome(seq![key] + values, db).db[key] == ObjectView::List(values),
        lpush_outcome(seq![key] + values, db).db[key] == ObjectView::List(values.reverse()),
{
    assert((seq![key] + values).skip(1) == values);
    assert((seq![key] + values)[0] == key);
    assert(list_or_empty(db, key) == Seq::<Seq<char>>::empty());
    assert(values + Seq::<Seq<char>>::empty() == values);
    assert(Seq::<Seq<char>>::empty() + values == values);
    assert(values.reverse() + Seq::<Seq<char>>::empty() == values.reverse());
}

/// `RPUSH key v...` then `LPOP key n` leaves the values after the first `n`
/// (all of them gone once `n` reaches their number).
pub proof fn law_rpush_then_lpop(db: DbView, key: Seq<char>, values: Seq<Seq<char>>, count: Seq<char>, n: int)
    requires
        !db.contains_key(key),
        values.len() >= 1,
        crate::text::parse_i32_spec(count) == Ok::<int, crate::text::IntErrorKind>(n),
        n >= 0,
    ensures
        lpop_outcome(seq![key, count], rpush_outcome(seq![key] + values, db).db).db[key]
            == ObjectView::List(values.skip(if n < values.len() { n } else { values.len() as int })),
{
    law_push_order(db, key, values);
}

/// After `MSET`, the next-to-last argument holds the last one.
pub proof fn law_mset_last_pair(db: DbView, args: Seq<Seq<char>>)
    requires
        args.len() >= 2,
    ensures
        mset_outcome(args, db).db[args[args.len() - 2]] == ObjectView::Str(args[args.len() - 1]),
{
}

/// `LPOP key n` right after `LPUSH key v1 .. vn` onto a list gives the list,
/// and the whole database, back as they were.
pub proof fn law_lpop_undoes_lpush(db: DbView, key: Seq<char>, l: Seq<Seq<char>>, values: Seq<Seq<char>>)
    requires
        db.contains_key(key),
        db[key] == ObjectView::List(l),
        1 <= values.len() <= 0x7fff_ffff,
    ensures
        lpush_outcome(seq![key] + values, db).reply == Ok::<Seq<char>, Seq<char>>("+Ok \r\n"@),
        lpop_outcome(
            seq![key, signed_decimal(values.len() as int)],
            lpush_outcome(seq![key] + values, db).db,
        ).reply == Ok::<Seq<char>, Seq<char>>("+OK\r\n"@),
        lpop_outcome(
            seq![key, signed_decimal(values.len() as int)],
            lpush_outcome(seq![key] + values, db).db,
        ).db == db,
{
    let n = values.len() as int;
    law_parse_i32_reads_back_decimal(n as i32);
    assert((seq![key] + values).skip(1) == values);
    assert((seq![key] + values)[0] == key);
    let pushed = values.reverse() + l;
    let mid = lpush_outcome(seq![key] + values, db).db;
    assert(mid == db.insert(key, ObjectView::List(pushed)));
    assert(pushed.skip(n) == l);
    assert(mid.insert(key, ObjectView::List(l)) == db);
}

/// `RPOP key n` right after `RPUSH key v1 .. vn` onto a list gives the list,
/// and the whole database, back as they were.
pub proof fn law_rpop_undoes_rpush(db: DbView, key: Seq<char>, l: Seq<Seq<char>>, values: Seq<Seq<char>>)
    requires
        db.contains_key(key),
        db[key] == ObjectView::List(l),
        1 <= values.len() <= 0x7fff_ffff,
    ensures
        rpop_outcome(
            seq![key, signed_decimal(values.len() as int)],
            rpush_outcome(seq![key] + values, db).db,
        ).reply == Ok::<Seq<char>, Seq<char>>("+OK\r\n"@),
        rpop_outcome(
            seq![key, signed_decimal(values.len() as int)],
            rpush_outcome(seq![key] + values, db).db,
        ).db == db,
{
    let n = values.len() as int;
    law_parse_i32_reads_back_decimal(n as i32);
    assert((seq![key] + values).skip(1) == values);
    assert((seq![key] + values)[0] == key);
    let pushed = l + values;
    let mid = rpush_outcome(seq![key] + values, db).db;
    assert(mid == db.insert(key, ObjectView::List(pushed)));
    assert(pushed.take(pushed.len() - n) == l);
    assert(mid.insert(key, ObjectView::List(l)) == db);
}

/// What the connection does when a command ends with this outcome, its
/// request having taken `n` bytes: send the reply and drop the request, or
/// close on a failure.
pub open spec fn outcome_action(o: Outcome, n: int) -> (ActionView, DbView) {
    match o.reply {
        Ok(s) => (ActionView::Reply(s, n), o.db),
        Err(e) => (ActionView::CommandError(e), o.db),
    }
}

/// A decoded request is served by the command its first string names, in any
/// case, on the other strings: the reply sent, the bytes dropped and the
/// database after it are those of that command.
pub proof fn law_request_runs_named_command(
    input: Seq<u8>,
    eof: bool,
    db: DbView,
    message: Seq<Seq<char>>,
    n: int,
)
    requires
        message_spec(input, 0, eof) == Step::<Seq<Seq<char>>>::Done(message, n),
        message.len() >= 1,
    ensures
        lowercase(message[0]) == "select"@ ==> serve_spec(input, eof, db) == outcome_action(
            select_outcome(message.skip(1), db),
            n,
        ),
        lowercase(message[0]) == "ping"@ ==> serve_spec(input, eof, db) == outcome_action(
            ping_outcome(db),
            n,
        ),
        lowercase(message[0]) == "get"@ ==> serve_spec(input, eof, db) == outcome_action(
            get_outcome(message.skip(1), db),
            n,
        ),
        lowercase(message[0]) == "set"@ ==> serve_spec(input, eof, db) == outcome_action(
            set_outcome(message.skip(1), db),
            n,
        ),
        lowercase(message[0]) == "mset"@ ==> serve_spec(input, eof, db) == outcome_action(
            mset_outcome(message.skip(1), db),
            n,
        ),
        lowercase(message[0]) == "incr"@ ==> serve_spec(input, eof, db) == outcome_action(
            incr_outcome(message.skip(1), db),
            n,
        ),
        lowercase(message[0]) == "lpush"@ ==> serve_spec(input, eof, db) == outcome_action(
            lpush_outcome(message.skip(1), db),
            n,
        ),
        lowercase(message[0]) == "rpush"@ ==> serve_spec(input, eof, db) == outcome_action(
            rpush_outcome(message.skip(1), db),
            n,
        ),
        lowercase(message[0]) == "lpop"@ ==> serve_spec(input, eof, db) == outcome_action(
            lpop_outcome(message.skip(1), db),
            n,
        ),
        lowercase(message[0]) == "rpop"@ ==> serve_spec(input, eof, db) == outcome_action(
            rpop_outcome(message.skip(1), db),
            n,
        ),
        lowercase(message[0]) == "config"@ && config_args_ok(message.skip(1)) ==> serve_spec(
            input,
            eof,
            db,
        ) == outcome_action(config_outcome(message.skip(1), db), n),
{
    lemma_command_names_distinct();
}

/// The total number of characters of the items.
pub open spec fn total_len(items: Seq<Seq<char>>) -> nat
    decreases items.len(),
{
    if items.len() == 0 {
        0
    } else {
        total_len(items.drop_last()) + items.last().len()
    }
}

/// An empty list is shown as `[]`.
pub proof fn law_empty_list_text()
    ensures
        object_text(ObjectView::List(seq![])) == seq!['[', ']'],
{
    assert(seq!['['] + Seq::<char>::empty() + seq![']'] == seq!['[', ']']);
}

/// Adding an item at the back of a list adds it, after a comma when the list
/// was not empty, just before the closing bracket of the shown text.
pub proof fn law_list_text_push(l: Seq<Seq<char>>, x: Seq<char>)
    ensures
        object_text(ObjectView::List(l.push(x))) == object_text(ObjectView::List(l)).drop_last() + (
        if l.len() > 0 {
            seq![',']
        } else {
            seq![]
        }) + x + seq![']'],
{
    let j = crate::types::join_spec(l, seq![',']);
    assert(l.push(x).drop_last() == l);
    assert(l.push(x).last() == x);
    assert((seq!['['] + j + seq![']']).drop_last() == seq!['['] + j);
    if l.len() == 0 {
        assert(l.push(x) == seq![x]);
        assert(crate::types::join_spec(l.push(x), seq![',']) == x);
        assert(seq!['['] + x + seq![']'] == (seq!['['] + j) + Seq::<char>::empty() + x + seq![']']);
    } else {
        assert(seq!['['] + (j + seq![','] + x) + seq![']'] == (seq!['['] + j) + seq![','] + x
            + seq![']']);
    }
}

/// The shown text of a list holds every character of every item: its length
/// is the items' total length, the two brackets and a comma between each two
/// neighbouring items.
pub proof fn law_list_text_len(l: Seq<Seq<char>>)
    ensures
        object_text(ObjectView::List(l)).len() == total_len(l) + 2 + if l.len() > 0 {
            l.len() - 1
        } else {
            0
        },
    decreases l.len(),
{
    if l.len() == 0 {
        law_empty_list_text();
    } else {
        let init = l.drop_last();
        law_list_text_len(init);
        law_list_text_push(init, l.last());
        assert(init.push(l.last()) == l);
    }
}

/// `GET` after `RPUSH key v1 .. vn` onto an absent key shows every value: its
/// reply has the values' total length, the brackets, the commas between them
/// and the `+` and line break around them.
pub proof fn law_get_after_rpush_shows_every_value(db: DbView, key: Seq<char>, values: Seq<Seq<char>>)
    requires
        !db.contains_key(key),
        values.len() >= 1,
    ensures
        get_outcome(seq![key], rpush_outcome(seq![key] + values, db).db).reply matches Ok(r) && r.len()
            == total_len(values) + values.len() + 4,
        get_outcome(seq![key], rpush_outcome(seq![key] + values, db).db).reply == Ok::<
            Seq<char>,
            Seq<char>,
        >("+"@ + object_text(ObjectView::List(values)) + "\r\n"@),
{
    law_push_order(db, key, values);
    law_list_text_len(values);
    reveal_strlit("+");
    reveal_strlit("\r\n");
}

/// `SELECT` with an index, whatever it is, answers `+OK` and changes nothing;
/// `PING` always answers `+PONG`.
pub proof fn law_select_accepts_any_index(args: Seq<Seq<char>>, db: DbView)
    requires
        args.len() >= 1,
    ensures
        select_outcome(args, db).reply == Ok::<Seq<char>, Seq<char>>("+OK\r\n"@),
        select_outcome(args, db).db == db,
        ping_outcome(db).reply == Ok::<Seq<char>, Seq<char>>("+PONG\r\n"@),
        ping_outcome(db).db == db,
{
}

/// How `LPOP` and `RPOP` answer, once the count reads as a number: `+OK`
/// whenever the key holds a list, whatever the count and the list's length;
/// nil when the key is absent, a type error when it holds a string, and the
/// database unchanged in those two cases.
pub proof fn law_pop_replies(db: DbView, key: Seq<char>, count: Seq<char>)
    requires
        crate::text::parse_i32_spec(count) is Ok,
    ensures
        db.contains_key(key) && db[key] is List ==> lpop_outcome(seq![key, count], db).reply == Ok::<
            Seq<char>,
            Seq<char>,
        >("+OK\r\n"@) && rpop_outcome(seq![key, count], db).reply == Ok::<Seq<char>, Seq<char>>(
            "+OK\r\n"@,
        ),
        !db.contains_key(key) ==> lpop_outcome(seq![key, count], db) == crate::commands::answer(
            "$-1\r\n"@,
            db,
        ) && rpop_outcome(seq![key, count], db) == crate::commands::answer("+(nil)\r\n"@, db),
        holds_string(db, key) ==> lpop_outcome(seq![key, count], db) == crate::commands::answer(
            "-WRONGTYPE Operation against a key holding the wrong kind of value\r\n"@,
            db,
        ) && rpop_outcome(seq![key, count], db) == crate::commands::answer(
            "-ERR wrong data type for 'rpop' command"@,
            db,
        ),
{
}

proof fn lemma_mset_store_pair(args: Seq<Seq<char>>, db: DbView, m: nat, i: int)
    requires
        m < args.len(),
        0 <= i < m,
        forall|j: int| i < j < m ==> args[j] != args[i],
    ensures
        mset_store(args, db, m).contains_key(args[i]),
        mset_store(args, db, m)[args[i]] == ObjectView::Str(args[i + 1]),
    decreases m,
{
    if i < m - 1 {
        assert(args[m - 1] != args[i]);
        lemma_mset_store_pair(args, db, (m - 1) as nat, i);
    }
}

proof fn lemma_mset_store_other(args: Seq<Seq<char>>, db: DbView, m: nat, k: Seq<char>)
    requires
        m < args.len(),
        forall|j: int| 0 <= j < m ==> args[j] != k,
    ensures
        mset_store(args, db, m).contains_key(k) == db.contains_key(k),
        db.contains_key(k) ==> mset_store(args, db, m)[k] == db[k],
    decreases m,
{
    if m > 0 {
        assert(args[m - 1] != k);
        lemma_mset_store_other(args, db, (m - 1) as nat, k);
    }
}

/// `MSET a1 a2 .. an` stores, under each argument but the last, the argument
/// right after it, the latest such pair winning for a key that comes back;
/// every key that is not one of those arguments is left as it was.
pub proof fn law_mset_stores_adjacent_pairs(db: DbView, args: Seq<Seq<char>>)
    requires
        args.len() >= 2,
    ensures
        forall|i: int|
            #![trigger args[i]]
            0 <= i < args.len() - 1 && (forall|j: int| i < j < args.len() - 1 ==> args[j] != args[i])
                ==> mset_outcome(args, db).db.contains_key(args[i]) && mset_outcome(args, db).db[args[i]]
                == ObjectView::Str(args[i + 1]),
        forall|k: Seq<char>|
            #![trigger db.contains_key(k)]
            (forall|j: int| 0 <= j < args.len() - 1 ==> args[j] != k) ==> (mset_outcome(
                args,
                db,
            ).db.contains_key(k) == db.contains_key(k) && (db.contains_key(k) ==> mset_outcome(
                args,
                db,
            ).db[k] == db[k])),
        mset_outcome(args, db).reply == Ok::<Seq<char>, Seq<char>>("+OK\r\n"@),
{
    let m = (args.len() - 1) as nat;
    assert forall|i: int|
        #![trigger args[i]]
        0 <= i < args.len() - 1 && (forall|j: int| i < j < args.len() - 1 ==> args[j] != args[i])
            implies mset_outcome(args, db).db.contains_key(args[i]) && mset_outcome(args, db).db[args[i]]
            == ObjectView::Str(args[i + 1]) by {
        lemma_mset_store_pair(args, db, m, i);
    }
    assert forall|k: Seq<char>|
        #![trigger db.contains_key(k)]
        (forall|j: int| 0 <= j < args.len() - 1 ==> args[j] != k) implies (mset_outcome(
            args,
            db,
        ).db.contains_key(k) == db.contains_key(k) && (db.contains_key(k) ==> mset_outcome(
            args,
            db,
        ).db[k] == db[k])) by {
        lemma_mset_store_other(args, db, m, k);
    }
}

/// `GET`, `SELECT`, `PING` and `CONFIG` never change the database, and
/// `GET` on an absent key answers nil.
pub proof fn law_reads_change_nothing(db: DbView, args: Seq<Seq<char>>)
    ensures
        get_outcome(args, db).db == db,
        select_outcome(args, db).db == db,
        ping_outcome(db).db == db,
        config_outcome(args, db).db == db,
        args.len() == 1 && !db.contains_key(args[0]) ==> get_outcome(args, db).reply == Ok::<
            Seq<char>,
            Seq<char>,
        >("+(nil)\r\n"@),
{
    if args.len() >= 1 {
        let sub = crate::text::lowercase(args[0]);
        if sub == "get"@ {
            assert(config_outcome(args, db) == crate::commands::config_get_outcome(args, db));
        }
    }
}

/// `LPUSH` and `RPUSH` onto a key that does not hold a string answer `+Ok `
/// and change no other key.
pub proof fn law_push_replies(db: DbView, args: Seq<Seq<char>>, other: Seq<char>)
    requires
        args.len() >= 2,
        !holds_string(db, args[0]),
        other != args[0],
    ensures
        lpush_outcome(args, db).reply == Ok::<Seq<char>, Seq<char>>("+Ok \r\n"@),
        rpush_outcome(args, db).reply == Ok::<Seq<char>, Seq<char>>("+Ok \r\n"@),
        lpush_outcome(args, db).db.contains_key(other) == db.contains_key(other),
        rpush_outcome(args, db).db.contains_key(other) == db.contains_key(other),
        db.contains_key(other) ==> lpush_outcome(args, db).db[other] == db[other]
            && rpush_outcome(args, db).db[other] == db[other],
{
}

/// `LPOP key n` on a list keeps what follows its first `n` items (none when
/// `n` is zero or less, all gone when `n` reaches the list's length); `RPOP`
/// keeps what comes before its last `n` items.
pub proof fn law_pop_removes_from_the_ends(db: DbView, key: Seq<char>, l: Seq<Seq<char>>, count: Seq<char>, n: int)
    requires
        db.contains_key(key),
        db[key] == ObjectView::List(l),
        crate::text::parse_i32_spec(count) == Ok::<int, crate::text::IntErrorKind>(n),
    ensures
        lpop_outcome(seq![key, count], db).db == db.insert(
            key,
            ObjectView::List(
                if n <= 0 {
                    l
                } else if n >= l.len() {
                    seq![]
                } else {
                    l.subrange(n, l.len() as int)
                },
            ),
        ),
        rpop_outcome(seq![key, count], db).db == db.insert(
            key,
            ObjectView::List(
                if n <= 0 {
                    l
                } else if n >= l.len() {
                    seq![]
                } else {
                    l.subrange(0, l.len() - n)
                },
            ),
        ),
{
    if n <= 0 {
        assert(l.skip(0) == l);
        assert(l.take(l.len() as int) == l);
    } else if n >= l.len() {
        assert(l.skip(l.len() as int) == Seq::<Seq<char>>::empty());
        assert(l.take(0) == Seq::<Seq<char>>::empty());
    }
}

} // verus!
