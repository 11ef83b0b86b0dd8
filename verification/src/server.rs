//! One turn of a connection: decode the next request from the bytes received
//! so far, run it, and say what to do next.
use crate::commands::{command_outcome, execute_command};
use crate::resp::{
    message_command, message_spec, parse_resp_message, resp_message_to_redis_command,
    ParseOutcome, Step,
};
use crate::store::{db_contents, DbView};
use crate::types::BitobaseObject;
use dashmap::DashMap;
use vstd::prelude::*;

verus! {

/// What the connection does next.
#[derive(Debug, PartialEq, Eq)]
pub enum ServerAction {
    /// Send the reply, and drop the given number of bytes, the request, from the input.
    Reply(String, usize),
    /// Wait for more bytes.
    NeedMore,
    /// The request could not be decoded: report the message and close the connection.
    ParseError(String),
    /// The command failed: close the connection.
    CommandError(String),
    /// The request cannot be served (`CONFIG GET` without a name): give up on the connection.
    Abort,
}

/// The model of an action.
pub enum ActionView {
    Reply(Seq<char>, int),
    NeedMore,
    ParseError(Seq<char>),
    CommandError(Seq<char>),
    Abort,
}

pub open spec fn action_view(a: ServerAction) -> ActionView {
    match a {
        ServerAction::Reply(s, n) => ActionView::Reply(s@, n as int),
        ServerAction::NeedMore => ActionView::NeedMore,
        ServerAction::ParseError(m) => ActionView::ParseError(m@),
        ServerAction::CommandError(m) => ActionView::CommandError(m@),
        ServerAction::Abort => ActionView::Abort,
    }
}

/// What the connection does with the bytes `input` received so far (`eof`:
/// no more will come), and the database after it.
pub open spec fn serve_spec(input: Seq<u8>, eof: bool, db: DbView) -> (ActionView, DbView) {
    match message_spec(input, 0, eof) {
        Step::Incomplete => (ActionView::NeedMore, db),
        Step::Failed(m, _) => (ActionView::ParseError(m), db),
        Step::Done(message, n) => {
            let (name, args) = message_command(message);
            match command_outcome(name, args, db) {
                None => (ActionView::Abort, db),
                Some(o) => match o.reply {
                    Ok(s) => (ActionView::Reply(s, n), o.db),
                    Err(e) => (ActionView::CommandError(e), o.db),
                },
            }
        },
    }
}

/// Serves the first request in `input`, the bytes received so far.
pub fn handle_request(input: &[u8], eof: bool, db: &mut DashMap<String, BitobaseObject>) -> (r:
    ServerAction)
    ensures
        action_view(r) == serve_spec(input@, eof, db_contents(*old(db))).0,
        db_contents(*final(db)) == serve_spec(input@, eof, db_contents(*old(db))).1,
        r matches ServerAction::Reply(_, n) ==> 0 < n <= input@.len(),
{
    let message = match parse_resp_message(input, 0, eof) {
        ParseOutcome::Done(message, n) => (message, n),
        ParseOutcome::Incomplete => {
            return ServerAction::NeedMore;
        },
        ParseOutcome::Failed(m, _) => {
            return ServerAction::ParseError(m);
        },
    };
    let (message, n) = message;
    let command = match resp_message_to_redis_command(&message) {
        Ok(c) => c,
        Err(e) => {
            return ServerAction::CommandError(e);
        },
    };
    match execute_command(&command, db) {
        Some(Ok(reply)) => ServerAction::Reply(reply, n),
        Some(Err(e)) => ServerAction::CommandError(e),
        None => ServerAction::Abort,
    }
}

} // verus!
