//! The wire format: encoding replies and decoding requests.
use crate::text::{
    concat_words, lemma_non_white_concat, lemma_trim_end_matches_keeps_non_white,
    law_split_whitespace_gives_words, law_split_whitespace_keeps_every_character, is_word,
    non_white, decimal, int_error_message, int_error_text, parse_i32_chars, parse_i32_spec, push_decimal,
    split_whitespace_chars, split_whitespace_spec, str_chars, string_from_chars, trim_chars,
    trim_end_matches_chars, trim_end_matches_spec, trim_spec,
};
use crate::types::{strings_view, RedisCommand};
use vstd::prelude::*;
use vstd::slice::slice_subrange;
use vstd::utf8::{decode_utf8, encode_utf8, valid_utf8};

verus! {

/// One bulk string: `$`, its length in UTF-8 bytes, a line break, the string, a line break.
pub open spec fn bulk_string_text(s: Seq<char>) -> Seq<char> {
    "$"@ + decimal(encode_utf8(s).len()) + "\r\n"@ + s + "\r\n"@
}

/// The bulk strings of the items, one after another.
pub open spec fn bulk_strings_text(items: Seq<Seq<char>>) -> Seq<char>
    decreases items.len(),
{
    if items.len() == 0 {
        seq![]
    } else {
        bulk_strings_text(items.drop_last()) + bulk_string_text(items.last())
    }
}

/// An array of bulk strings: `*`, the number of items, a line break, then each item.
pub open spec fn resp_array_text(items: Seq<Seq<char>>) -> Seq<char> {
    "*"@ + decimal(items.len()) + "\r\n"@ + bulk_strings_text(items)
}

/// The characters of each string slice, in order.
pub open spec fn strs_view(items: Seq<&str>) -> Seq<Seq<char>> {
    items.map_values(|s: &str| s@)
}

/// Encodes the items as an array of bulk strings.
pub fn resp_array(items: &[&str]) -> (r: String)
    ensures
        r@ == resp_array_text(strs_view(items@)),
{
    let ghost all = strs_view(items@);
    let mut resp = "*".to_owned();
    push_decimal(&mut resp, items.len() as u64);
    resp.append("\r\n");
    let ghost head = resp@;
    let mut i: usize = 0;
    while i < items.len()
        invariant
            i <= items@.len(),
            all == strs_view(items@),
            head == "*"@ + decimal(items@.len()) + "\r\n"@,
            resp@ == head + bulk_strings_text(all.take(i as int)),
        decreases items@.len() - i,
    {
        let item: &str = items[i];
        let ghost before = resp@;
        resp.append("$");
        let byte_len: usize = item.as_bytes().len();
        push_decimal(&mut resp, byte_len as u64);
        resp.append("\r\n");
        resp.append(item);
        resp.append("\r\n");
        i = i + 1;
        assert(all.take(i as int).drop_last() == all.take((i - 1) as int));
        assert(all.take(i as int).last() == item@);
        assert(resp@ =~= before + bulk_string_text(item@));
        assert(resp@ == head + bulk_strings_text(all.take(i as int)));
    }
    assert(all.take(items@.len() as int) == all);
    resp
}

// ---------------------------------------------------------------------------
// Decoding requests
// ---------------------------------------------------------------------------

/// How far decoding got, in the mathematical model: a value and the position
/// just after it; not enough input yet; or a failure with its message and the
/// position just after what was read before it.
pub enum Step<T> {
    Done(T, int),
    Incomplete,
    Failed(Seq<char>, int),
}

/// How far decoding got: a value and the position just after it; not enough
/// input yet (more may come); or a failure with its message and the position
/// just after what was read before it.
#[derive(Debug, PartialEq, Eq)]
pub enum ParseOutcome<T> {
    Done(T, usize),
    Incomplete,
    Failed(String, usize),
}

/// The model of an outcome that carries a string.
pub open spec fn string_step(o: ParseOutcome<String>) -> Step<Seq<char>> {
    match o {
        ParseOutcome::Done(s, p) => Step::Done(s@, p as int),
        ParseOutcome::Incomplete => Step::Incomplete,
        ParseOutcome::Failed(m, q) => Step::Failed(m@, q as int),
    }
}

/// The model of an outcome that carries strings.
pub open spec fn strings_step(o: ParseOutcome<Vec<String>>) -> Step<Seq<Seq<char>>> {
    match o {
        ParseOutcome::Done(v, p) => Step::Done(strings_view(v@), p as int),
        ParseOutcome::Incomplete => Step::Incomplete,
        ParseOutcome::Failed(m, q) => Step::Failed(m@, q as int),
    }
}

/// What the error of `std::str::from_utf8` on these bytes says (its `to_string`).
pub uninterp spec fn utf8_error_text(bytes: Seq<u8>) -> Seq<char>;

/// The text of the bytes, or the message of the error when they are not UTF-8
/// (`std::str::from_utf8`, then `str::to_owned` or `Utf8Error::to_string`).
#[verifier::external_body]
fn utf8_decode(bytes: &[u8]) -> (r: Result<String, String>)
    ensures
        match r {
            Ok(s) => valid_utf8(bytes@) && s@ == decode_utf8(bytes@),
            Err(m) => !valid_utf8(bytes@) && m@ == utf8_error_text(bytes@),
        },
{
    match std::str::from_utf8(bytes) {
        Ok(s) => Ok(s.to_owned()),
        Err(e) => Err(e.to_string()),
    }
}

/// The position just after the first line feed at or after `pos`, if there is one.
pub open spec fn newline_end(input: Seq<u8>, pos: int) -> Option<int>
    decreases input.len() - pos,
{
    if pos < 0 || pos >= input.len() {
        None
    } else if input[pos] == 10 {
        Some(pos + 1)
    } else {
        newline_end(input, pos + 1)
    }
}

/// Where a line that starts at `pos` ends: just after its line feed; at the
/// end of the input once no more will come; unknown while more may come.
pub open spec fn line_end(input: Seq<u8>, pos: int, eof: bool) -> Option<int> {
    match newline_end(input, pos) {
        Some(e) => Some(e),
        None => if eof {
            Some(input.len() as int)
        } else {
            None
        },
    }
}

proof fn lemma_newline_end_bounds(input: Seq<u8>, pos: int)
    ensures
        newline_end(input, pos) matches Some(e) ==> 0 <= pos < e <= input.len() && input[e - 1]
            == 10,
    decreases input.len() - pos,
{
    if 0 <= pos < input.len() && input[pos] != 10 {
        lemma_newline_end_bounds(input, pos + 1);
    }
}

/// How much input is left from `pos` on.
pub open spec fn remaining(len: int, pos: int) -> int {
    if pos <= len {
        len - pos
    } else {
        0
    }
}

/// A line ends after its start and within the input.
pub proof fn lemma_line_end_bounds(input: Seq<u8>, pos: int, eof: bool)
    ensures
        line_end(input, pos, eof) matches Some(e) ==> {
            &&& 0 <= e <= input.len()
            &&& 0 <= pos <= input.len() ==> pos <= e
            &&& remaining(input.len() as int, e) <= remaining(input.len() as int, pos)
        },
{
    lemma_newline_end_bounds(input, pos);
}

/// Reading a line from `pos` (`read_line`): its text, line feed included, when
/// its bytes are UTF-8.
pub open spec fn read_line_spec(input: Seq<u8>, pos: int, eof: bool) -> Step<Seq<char>> {
    match line_end(input, pos, eof) {
        None => Step::Incomplete,
        Some(e) => {
            let bytes = input.subrange(pos, e);
            if valid_utf8(bytes) {
                Step::Done(decode_utf8(bytes), e)
            } else {
                Step::Failed(utf8_error_text(bytes), e)
            }
        },
    }
}

fn read_line(input: &[u8], pos: usize, eof: bool) -> (r: ParseOutcome<String>)
    requires
        pos <= input@.len(),
    ensures
        string_step(r) == read_line_spec(input@, pos as int, eof),
        r matches ParseOutcome::Done(_, e) ==> pos <= e <= input@.len(),
{
    proof {
        lemma_line_end_bounds(input@, pos as int, eof);
    }
    let mut e: usize = pos;
    while e < input.len() && input[e] != 10
        invariant
            pos <= e <= input@.len(),
            newline_end(input@, pos as int) == newline_end(input@, e as int),
        decreases input@.len() - e,
    {
        e = e + 1;
    }
    let end: usize = if e < input.len() {
        e + 1
    } else if eof {
        input.len()
    } else {
        return ParseOutcome::Incomplete;
    };
    let bytes = slice_subrange(input, pos, end);
    match utf8_decode(bytes) {
        Ok(s) => ParseOutcome::Done(s, end),
        Err(m) => ParseOutcome::Failed(m, end),
    }
}

/// The line break that ends a line of the protocol.
pub open spec fn crlf() -> Seq<char> {
    seq!['\r', '\n']
}

fn prefixed(prefix: &str, m: String) -> (r: String)
    ensures
        r@ == prefix@ + m@,
{
    let mut r = prefix.to_owned();
    r.append(m.as_str());
    r
}

/// A line of text with its trailing line breaks removed.
fn line_text(line: &str) -> (r: String)
    ensures
        r@ == trim_end_matches_spec(line@, crlf()),
{
    let cs = str_chars(line);
    let pat = ['\r', '\n'];
    assert(pat@ == crlf());
    let t = trim_end_matches_chars(cs.as_slice(), &pat);
    string_from_chars(t.as_slice())
}

/// A simple string (after its `+`): the rest of the line.
pub open spec fn simple_string_spec(input: Seq<u8>, pos: int, eof: bool) -> Step<Seq<char>> {
    match read_line_spec(input, pos, eof) {
        Step::Done(l, e) => Step::Done(trim_end_matches_spec(l, crlf()), e),
        Step::Incomplete => Step::Incomplete,
        Step::Failed(m, q) => Step::Failed("error reading simple string: "@ + m, q),
    }
}

/// Decodes a simple string, whose `+` is just before `pos`.
pub fn parse_resp_simple_string(input: &[u8], pos: usize, eof: bool) -> (r: ParseOutcome<String>)
    requires
        pos <= input@.len(),
    ensures
        string_step(r) == simple_string_spec(input@, pos as int, eof),
        r matches ParseOutcome::Done(_, e) ==> pos <= e <= input@.len(),
{
    match read_line(input, pos, eof) {
        ParseOutcome::Done(l, e) => ParseOutcome::Done(line_text(l.as_str()), e),
        ParseOutcome::Incomplete => ParseOutcome::Incomplete,
        ParseOutcome::Failed(m, q) => ParseOutcome::Failed(prefixed("error reading simple string: ", m), q),
    }
}

/// A simple error (after its `-`): the rest of the line.
pub open spec fn simple_error_spec(input: Seq<u8>, pos: int, eof: bool) -> Step<Seq<char>> {
    match read_line_spec(input, pos, eof) {
        Step::Done(l, e) => Step::Done(trim_end_matches_spec(l, crlf()), e),
        Step::Incomplete => Step::Incomplete,
        Step::Failed(m, q) => Step::Failed("error reading error line: "@ + m, q),
    }
}

/// Decodes a simple error, whose `-` is just before `pos`.
pub fn parse_resp_simple_error(input: &[u8], pos: usize, eof: bool) -> (r: ParseOutcome<String>)
    requires
        pos <= input@.len(),
    ensures
        string_step(r) == simple_error_spec(input@, pos as int, eof),
        r matches ParseOutcome::Done(_, e) ==> pos <= e <= input@.len(),
{
    match read_line(input, pos, eof) {
        ParseOutcome::Done(l, e) => ParseOutcome::Done(line_text(l.as_str()), e),
        ParseOutcome::Incomplete => ParseOutcome::Incomplete,
        ParseOutcome::Failed(m, q) => ParseOutcome::Failed(prefixed("error reading error line: ", m), q),
    }
}

/// A bulk string (after its `$`): a line that is skipped (the length), then
/// the next line.
pub open spec fn bulk_string_spec(input: Seq<u8>, pos: int, eof: bool) -> Step<Seq<char>> {
    match read_line_spec(input, pos, eof) {
        Step::Done(_, e1) => match read_line_spec(input, e1, eof) {
            Step::Done(l, e2) => Step::Done(trim_end_matches_spec(l, crlf()), e2),
            Step::Incomplete => Step::Incomplete,
            Step::Failed(m, q) => Step::Failed("error reading bulk string: "@ + m, q),
        },
        Step::Incomplete => Step::Incomplete,
        Step::Failed(m, q) => Step::Failed("error reading bulk string size: "@ + m, q),
    }
}

/// Decodes a bulk string, whose `$` is just before `pos`.
pub fn parse_resp_bulk_string(input: &[u8], pos: usize, eof: bool) -> (r: ParseOutcome<String>)
    requires
        pos <= input@.len(),
    ensures
        string_step(r) == bulk_string_spec(input@, pos as int, eof),
        r matches ParseOutcome::Done(_, e) ==> pos <= e <= input@.len(),
{
    let e1 = match read_line(input, pos, eof) {
        ParseOutcome::Done(_, e) => e,
        ParseOutcome::Incomplete => {
            return ParseOutcome::Incomplete;
        },
        ParseOutcome::Failed(m, q) => {
            return ParseOutcome::Failed(prefixed("error reading bulk string size: ", m), q);
        },
    };
    match read_line(input, e1, eof) {
        ParseOutcome::Done(l, e2) => ParseOutcome::Done(line_text(l.as_str()), e2),
        ParseOutcome::Incomplete => ParseOutcome::Incomplete,
        ParseOutcome::Failed(m, q) => ParseOutcome::Failed(prefixed("error reading bulk string: ", m), q),
    }
}

/// The values `v` followed by those decoded after them.
pub open spec fn then_more(v: Seq<Seq<char>>, rest: Step<Seq<Seq<char>>>) -> Step<Seq<Seq<char>>> {
    match rest {
        Step::Done(w, p) => Step::Done(v + w, p),
        Step::Incomplete => Step::Incomplete,
        Step::Failed(m, q) => Step::Failed(m, q),
    }
}

/// A line that does not start with a type byte: the byte at `pos` and the rest
/// of its line, without trailing line breaks, split into words.
pub open spec fn inline_spec(input: Seq<u8>, pos: int, eof: bool) -> Step<Seq<Seq<char>>> {
    match read_line_spec(input, pos + 1, eof) {
        Step::Done(l, e) => Step::Done(
            split_whitespace_spec(
                seq![input[pos] as char] + trim_end_matches_spec(
                    trim_end_matches_spec(l, crlf()),
                    seq!['\n'],
                ),
            ),
            e,
        ),
        Step::Incomplete => Step::Incomplete,
        Step::Failed(m, q) => Step::Failed(m, q),
    }
}

/// A message starting at `pos`: by its first byte, an array (`*`), a simple
/// string (`+`), an error sent by the client (`-`), a bulk string (`$`), or
/// an inline command; all the strings it carries, in order.
pub open spec fn message_spec(input: Seq<u8>, pos: int, eof: bool) -> Step<Seq<Seq<char>>>
    decreases remaining(input.len() as int, pos), 1int,
{
    if pos < 0 || pos >= input.len() {
        if eof {
            Step::Failed("early eof"@, pos)
        } else {
            Step::Incomplete
        }
    } else {
        let b = input[pos];
        if b == 42 {
            array_spec(input, pos + 1, eof)
        } else if b == 43 {
            match simple_string_spec(input, pos + 1, eof) {
                Step::Done(s, e) => Step::Done(seq![s], e),
                Step::Incomplete => Step::Incomplete,
                Step::Failed(m, q) => Step::Failed(m, q),
            }
        } else if b == 45 {
            match simple_error_spec(input, pos + 1, eof) {
                Step::Done(s, e) => Step::Failed(s, e),
                Step::Incomplete => Step::Incomplete,
                Step::Failed(m, q) => Step::Failed(m, q),
            }
        } else if b == 36 {
            match bulk_string_spec(input, pos + 1, eof) {
                Step::Done(s, e) => Step::Done(seq![s], e),
                Step::Incomplete => Step::Incomplete,
                Step::Failed(m, q) => Step::Failed(m, q),
            }
        } else {
            inline_spec(input, pos, eof)
        }
    }
}

/// An array (after its `*`): a line with the number of elements, then that
/// many messages, whose strings are joined in order.
pub open spec fn array_spec(input: Seq<u8>, pos: int, eof: bool) -> Step<Seq<Seq<char>>>
    decreases remaining(input.len() as int, pos), 3int,
{
    match read_line_spec(input, pos, eof) {
        Step::Done(l, e) => match parse_i32_spec(trim_spec(l)) {
            Ok(n) => {
                proof {
                    lemma_line_end_bounds(input, pos, eof);
                }
                elements_spec(input, e, n, eof)
            },
            Err(k) => Step::Failed(int_error_text(k), e),
        },
        Step::Incomplete => Step::Incomplete,
        Step::Failed(m, q) => Step::Failed("error reading array size: "@ + m, q),
    }
}

/// `n` messages from `pos` on, their strings joined in order.
pub open spec fn elements_spec(input: Seq<u8>, pos: int, n: int, eof: bool) -> Step<
    Seq<Seq<char>>,
>
    decreases remaining(input.len() as int, pos), 2int,
{
    if n <= 0 {
        Step::Done(seq![], pos)
    } else {
        match message_spec(input, pos, eof) {
            Step::Done(v, p) => if pos < p <= input.len() {
                then_more(v, elements_spec(input, p, n - 1, eof))
            } else {
                Step::Failed(seq![], p)
            },
            Step::Incomplete => Step::Incomplete,
            Step::Failed(m, q) => Step::Failed(m, q),
        }
    }
}

/// A decoded message takes at least one byte, and no more than there are.
pub proof fn lemma_message_progress(input: Seq<u8>, pos: int, eof: bool)
    ensures
        message_spec(input, pos, eof) matches Step::Done(_, p) ==> 0 <= pos < p <= input.len(),
    decreases remaining(input.len() as int, pos), 1int,
{
    if 0 <= pos < input.len() {
        let b = input[pos];
        lemma_line_end_bounds(input, pos + 1, eof);
        if b == 42 {
            lemma_array_progress(input, pos + 1, eof);
        } else if b == 36 {
            if let Some(e1) = line_end(input, pos + 1, eof) {
                lemma_line_end_bounds(input, e1, eof);
            }
        }
    }
}

/// A decoded array ends within the input, not before its start.
pub proof fn lemma_array_progress(input: Seq<u8>, pos: int, eof: bool)
    requires
        0 <= pos <= input.len(),
    ensures
        array_spec(input, pos, eof) matches Step::Done(_, p) ==> pos <= p <= input.len(),
    decreases remaining(input.len() as int, pos), 3int,
{
    lemma_line_end_bounds(input, pos, eof);
    if let Step::Done(l, e) = read_line_spec(input, pos, eof) {
        if let Ok(n) = parse_i32_spec(trim_spec(l)) {
            lemma_elements_progress(input, e, n, eof);
        }
    }
}

/// Decoded elements end within the input, not before their start.
pub proof fn lemma_elements_progress(input: Seq<u8>, pos: int, n: int, eof: bool)
    requires
        0 <= pos <= input.len(),
    ensures
        elements_spec(input, pos, n, eof) matches Step::Done(_, p) ==> pos <= p <= input.len(),
    decreases remaining(input.len() as int, pos), 2int,
{
    if n > 0 {
        lemma_message_progress(input, pos, eof);
        if let Step::Done(v, p) = message_spec(input, pos, eof) {
            if pos < p <= input.len() {
                lemma_elements_progress(input, p, n - 1, eof);
            }
        }
    }
}

/// While more input may come, a line is read only once its line feed has come.
pub proof fn law_read_line_waits_for_line_feed(input: Seq<u8>, pos: int)
    ensures
        read_line_spec(input, pos, false) matches Step::Done(_, e) ==> 0 < e <= input.len()
            && input[e - 1] == 10,
{
    lemma_newline_end_bounds(input, pos);
}

/// While more input may come, a bulk string is decoded only once the line
/// feed that ends its content has come: it never ends in the middle of a line.
pub proof fn law_bulk_string_waits_for_line_feed(input: Seq<u8>, pos: int)
    ensures
        bulk_string_spec(input, pos, false) matches Step::Done(_, e) ==> 0 < e <= input.len()
            && input[e - 1] == 10,
{
    law_read_line_waits_for_line_feed(input, pos);
    if let Step::Done(_, e1) = read_line_spec(input, pos, false) {
        law_read_line_waits_for_line_feed(input, e1);
    }
}

/// While more input may come, a message is decoded only once it is whole:
/// what it takes always ends with a line feed, so bytes that stop in the
/// middle of a line are never taken for a request.
pub proof fn law_message_waits_for_line_feed(input: Seq<u8>, pos: int)
    ensures
        message_spec(input, pos, false) matches Step::Done(_, p) ==> 0 < p <= input.len()
            && input[p - 1] == 10,
    decreases remaining(input.len() as int, pos), 1int,
{
    if 0 <= pos < input.len() {
        let b = input[pos];
        law_read_line_waits_for_line_feed(input, pos + 1);
        lemma_line_end_bounds(input, pos + 1, false);
        if b == 42 {
            lemma_array_waits(input, pos + 1);
        } else if b == 36 {
            law_bulk_string_waits_for_line_feed(input, pos + 1);
        }
    }
}

proof fn lemma_array_waits(input: Seq<u8>, pos: int)
    requires
        0 <= pos <= input.len(),
    ensures
        array_spec(input, pos, false) matches Step::Done(_, p) ==> 0 < p <= input.len() && input[p
            - 1] == 10,
    decreases remaining(input.len() as int, pos), 3int,
{
    lemma_line_end_bounds(input, pos, false);
    law_read_line_waits_for_line_feed(input, pos);
    if let Step::Done(l, e) = read_line_spec(input, pos, false) {
        if let Ok(n) = parse_i32_spec(trim_spec(l)) {
            lemma_elements_wait(input, e, n);
        }
    }
}

proof fn lemma_elements_wait(input: Seq<u8>, pos: int, n: int)
    requires
        0 < pos <= input.len(),
        input[pos - 1] == 10,
    ensures
        elements_spec(input, pos, n, false) matches Step::Done(_, p) ==> 0 < p <= input.len()
            && input[p - 1] == 10,
    decreases remaining(input.len() as int, pos), 2int,
{
    if n > 0 {
        law_message_waits_for_line_feed(input, pos);
        if let Step::Done(v, p) = message_spec(input, pos, false) {
            if pos < p <= input.len() {
                lemma_elements_wait(input, p, n - 1);
            }
        }
    }
}

/// An inline command decodes to all the words of its line: put back
/// together, they are the line (its first byte as a character, then the
/// rest as read) without its white space.
pub proof fn law_inline_keeps_every_word(input: Seq<u8>, pos: int, eof: bool)
    ensures
        inline_spec(input, pos, eof) matches Step::Done(words, _) ==> read_line_spec(
            input,
            pos + 1,
            eof,
        ) matches Step::Done(l, _) && concat_words(words) == non_white(
            seq![input[pos] as char] + l,
        ) && forall|i: int| 0 <= i < words.len() ==> is_word(#[trigger] words[i]),
{
    if let Step::Done(l, e) = read_line_spec(input, pos + 1, eof) {
        let c = seq![input[pos] as char];
        let t1 = trim_end_matches_spec(l, crlf());
        let t2 = trim_end_matches_spec(t1, seq!['\n']);
        law_split_whitespace_keeps_every_character(c + t2);
        law_split_whitespace_gives_words(c + t2);
        lemma_trim_end_matches_keeps_non_white(l, crlf());
        lemma_trim_end_matches_keeps_non_white(t1, seq!['\n']);
        lemma_non_white_concat(c, t2);
        lemma_non_white_concat(c, l);
    }
}

/// A message whose first byte is no type byte is an inline command.
pub proof fn law_message_of_plain_line(input: Seq<u8>, pos: int, eof: bool)
    requires
        0 <= pos < input.len(),
        input[pos] != 42 && input[pos] != 43 && input[pos] != 45 && input[pos] != 36,
    ensures
        message_spec(input, pos, eof) == inline_spec(input, pos, eof),
{
}

proof fn lemma_newline_end_extends(input: Seq<u8>, more: Seq<u8>, pos: int)
    ensures
        newline_end(input, pos) is Some ==> newline_end(input + more, pos) == newline_end(input, pos),
    decreases input.len() - pos,
{
    if 0 <= pos < input.len() {
        assert((input + more)[pos] == input[pos]);
        if input[pos] != 10 {
            lemma_newline_end_extends(input, more, pos + 1);
        }
    }
}

/// While more input may come, a line once read stays the same line however
/// many bytes arrive after it.
pub proof fn law_read_line_extends(input: Seq<u8>, more: Seq<u8>, pos: int)
    ensures
        read_line_spec(input, pos, false) is Done ==> read_line_spec(input + more, pos, false)
            == read_line_spec(input, pos, false),
{
    lemma_newline_end_extends(input, more, pos);
    lemma_newline_end_bounds(input, pos);
    if let Some(e) = newline_end(input, pos) {
        assert((input + more).subrange(pos, e) == input.subrange(pos, e));
    }
}

/// While more input may come, a decoded message is final: the bytes that
/// arrive after it change neither what it carries nor where it ends.
pub proof fn law_message_extends(input: Seq<u8>, more: Seq<u8>, pos: int)
    ensures
        message_spec(input, pos, false) is Done ==> message_spec(input + more, pos, false)
            == message_spec(input, pos, false),
    decreases remaining(input.len() as int, pos), 1int,
{
    if 0 <= pos < input.len() {
        assert((input + more)[pos] == input[pos]);
        let b = input[pos];
        law_read_line_extends(input, more, pos + 1);
        if b == 42 {
            lemma_array_extends(input, more, pos + 1);
        } else if b == 36 {
            if let Step::Done(_, e1) = read_line_spec(input, pos + 1, false) {
                law_read_line_extends(input, more, e1);
            }
        }
    }
}

proof fn lemma_array_extends(input: Seq<u8>, more: Seq<u8>, pos: int)
    requires
        0 <= pos <= input.len(),
    ensures
        array_spec(input, pos, false) is Done ==> array_spec(input + more, pos, false) == array_spec(
            input,
            pos,
            false,
        ),
    decreases remaining(input.len() as int, pos), 3int,
{
    lemma_line_end_bounds(input, pos, false);
    law_read_line_extends(input, more, pos);
    if let Step::Done(l, e) = read_line_spec(input, pos, false) {
        if let Ok(n) = parse_i32_spec(trim_spec(l)) {
            lemma_elements_extends(input, more, e, n);
        }
    }
}

proof fn lemma_elements_extends(input: Seq<u8>, more: Seq<u8>, pos: int, n: int)
    requires
        0 <= pos <= input.len(),
    ensures
        elements_spec(input, pos, n, false) is Done ==> elements_spec(input + more, pos, n, false)
            == elements_spec(input, pos, n, false),
    decreases remaining(input.len() as int, pos), 2int,
{
    if n > 0 {
        law_message_extends(input, more, pos);
        if let Step::Done(v, p) = message_spec(input, pos, false) {
            if pos < p <= input.len() {
                lemma_elements_extends(input, more, p, n - 1);
            }
        }
    }
}

/// Decodes the message that starts at `pos`: the strings it carries and the
/// position just after it.
pub fn parse_resp_message(input: &[u8], pos: usize, eof: bool) -> (r: ParseOutcome<Vec<String>>)
    ensures
        strings_step(r) == message_spec(input@, pos as int, eof),
        r matches ParseOutcome::Done(_, p) ==> pos < p <= input@.len(),
    decreases remaining(input@.len() as int, pos as int), 1int,
{
    if pos >= input.len() {
        if eof {
            return ParseOutcome::Failed("early eof".to_owned(), pos);
        } else {
            return ParseOutcome::Incomplete;
        }
    }
    let b = input[pos];
    if b == 42 {
        parse_resp_array(input, pos + 1, eof)
    } else if b == 43 {
        match parse_resp_simple_string(input, pos + 1, eof) {
            ParseOutcome::Done(s, e) => {
                let v = vec![s];
                assert(strings_view(v@) == seq![v@[0]@]);
                ParseOutcome::Done(v, e)
            },
            ParseOutcome::Incomplete => ParseOutcome::Incomplete,
            ParseOutcome::Failed(m, q) => ParseOutcome::Failed(m, q),
        }
    } else if b == 45 {
        match parse_resp_simple_error(input, pos + 1, eof) {
            ParseOutcome::Done(s, e) => ParseOutcome::Failed(s, e),
            ParseOutcome::Incomplete => ParseOutcome::Incomplete,
            ParseOutcome::Failed(m, q) => ParseOutcome::Failed(m, q),
        }
    } else if b == 36 {
        match parse_resp_bulk_string(input, pos + 1, eof) {
            ParseOutcome::Done(s, e) => {
                let v = vec![s];
                assert(strings_view(v@) == seq![v@[0]@]);
                ParseOutcome::Done(v, e)
            },
            ParseOutcome::Incomplete => ParseOutcome::Incomplete,
            ParseOutcome::Failed(m, q) => ParseOutcome::Failed(m, q),
        }
    } else {
        parse_inline(input, pos, eof)
    }
}

/// Decodes an inline command whose first byte is at `pos`.
fn parse_inline(input: &[u8], pos: usize, eof: bool) -> (r: ParseOutcome<Vec<String>>)
    requires
        pos < input@.len(),
    ensures
        strings_step(r) == inline_spec(input@, pos as int, eof),
        r matches ParseOutcome::Done(_, p) ==> pos < p <= input@.len(),
{
    let c: char = input[pos] as char;
    match read_line(input, pos + 1, eof) {
        ParseOutcome::Done(l, e) => {
            let cs = str_chars(l.as_str());
            let crlf_pat = ['\r', '\n'];
            assert(crlf_pat@ == crlf());
            let t1 = trim_end_matches_chars(cs.as_slice(), &crlf_pat);
            let lf_pat = ['\n'];
            assert(lf_pat@ == seq!['\n']);
            let t2 = trim_end_matches_chars(t1.as_slice(), &lf_pat);
            let mut full: Vec<char> = Vec::new();
            full.push(c);
            let mut i: usize = 0;
            while i < t2.len()
                invariant
                    i <= t2@.len(),
                    full@ == seq![c] + t2@.take(i as int),
                decreases t2@.len() - i,
            {
                full.push(t2[i]);
                i = i + 1;
                assert(t2@.take(i as int) == t2@.take((i - 1) as int).push(t2@[i - 1]));
            }
            assert(t2@.take(t2@.len() as int) == t2@);
            ParseOutcome::Done(split_whitespace_chars(full.as_slice()), e)
        },
        ParseOutcome::Incomplete => ParseOutcome::Incomplete,
        ParseOutcome::Failed(m, q) => ParseOutcome::Failed(m, q),
    }
}

/// Decodes an array, whose `*` is just before `pos`.
pub fn parse_resp_array(input: &[u8], pos: usize, eof: bool) -> (r: ParseOutcome<Vec<String>>)
    requires
        pos <= input@.len(),
    ensures
        strings_step(r) == array_spec(input@, pos as int, eof),
        r matches ParseOutcome::Done(_, p) ==> pos <= p <= input@.len(),
    decreases remaining(input@.len() as int, pos as int), 3int,
{
    let (line, e) = match read_line(input, pos, eof) {
        ParseOutcome::Done(l, e) => (l, e),
        ParseOutcome::Incomplete => {
            return ParseOutcome::Incomplete;
        },
        ParseOutcome::Failed(m, q) => {
            return ParseOutcome::Failed(prefixed("error reading array size: ", m), q);
        },
    };
    let trimmed = trim_chars(str_chars(line.as_str()).as_slice());
    let size = match parse_i32_chars(trimmed.as_slice()) {
        Ok(n) => n,
        Err(k) => {
            return ParseOutcome::Failed(int_error_message(k), e);
        },
    };
    let ghost total = elements_spec(input@, e as int, size as int, eof);
    assert(array_spec(input@, pos as int, eof) == total);
    let mut values: Vec<String> = Vec::new();
    let mut p: usize = e;
    let mut i: i32 = 0;
    assert(strings_view(values@) == Seq::<Seq<char>>::empty());
    while i < size
        invariant
            pos <= e <= p <= input@.len(),
            0 <= i,
            i <= size || size <= 0,
            total == array_spec(input@, pos as int, eof),
            total == then_more(strings_view(values@), elements_spec(input@, p as int, size - i, eof)),
        decreases size - i,
    {
        match parse_resp_message(input, p, eof) {
            ParseOutcome::Done(v, p2) => {
                let ghost before = strings_view(values@);
                let ghost got = strings_view(v@);
                let mut v = v;
                values.append(&mut v);
                assert(strings_view(values@) == before + got);
                let ghost rest = elements_spec(input@, p2 as int, size - i - 1, eof);
                assert(elements_spec(input@, p as int, size - i, eof) == then_more(got, rest));
                proof {
                    match rest {
                        Step::Done(w, q) => assert(before + (got + w) == (before + got) + w),
                        _ => {},
                    }
                }
                p = p2;
                i = i + 1;
            },
            ParseOutcome::Incomplete => {
                return ParseOutcome::Incomplete;
            },
            ParseOutcome::Failed(m, q) => {
                return ParseOutcome::Failed(m, q);
            },
        }
    }
    assert(elements_spec(input@, p as int, size - i, eof) == Step::<Seq<Seq<char>>>::Done(seq![], p as int));
    assert(strings_view(values@) + Seq::<Seq<char>>::empty() == strings_view(values@));
    ParseOutcome::Done(values, p)
}

/// The command a message names: its first string is the name, the others
/// are the arguments; an empty message names the empty command.
pub open spec fn message_command(message: Seq<Seq<char>>) -> (Seq<char>, Seq<Seq<char>>) {
    if message.len() == 0 {
        (seq![], seq![])
    } else {
        (message[0], message.skip(1))
    }
}

/// The command that a decoded message names.
pub fn resp_message_to_redis_command(resp_message: &Vec<String>) -> (r: Result<RedisCommand, String>)
    ensures
        r matches Ok(c) && (c.command@, strings_view(c.args@)) == message_command(
            strings_view(resp_message@),
        ),
{
    let mut command = RedisCommand { command: String::new(), args: Vec::new() };
    let ghost msg = strings_view(resp_message@);
    let mut index: usize = 0;
    while index < resp_message.len()
        invariant
            index <= resp_message@.len(),
            msg == strings_view(resp_message@),
            index == 0 ==> command.command@ == Seq::<char>::empty(),
            index > 0 ==> command.command@ == msg[0],
            index > 0 ==> strings_view(command.args@) == msg.subrange(1, index as int),
            index == 0 ==> command.args@.len() == 0,
        decreases resp_message@.len() - index,
    {
        if index == 0 {
            command.command = resp_message[index].clone();
            assert(msg.subrange(1, 1) == Seq::<Seq<char>>::empty());
            assert(strings_view(command.args@) == Seq::<Seq<char>>::empty());
        } else {
            let ghost before = strings_view(command.args@);
            command.args.push(resp_message[index].clone());
            assert(strings_view(command.args@) == before.push(msg[index as int]));
            assert(msg.subrange(1, index + 1) == msg.subrange(1, index as int).push(
                msg[index as int],
            ));
        }
        index = index + 1;
    }
    if resp_message.len() > 0 {
        assert(msg.subrange(1, msg.len() as int) == msg.skip(1));
    } else {
        assert(strings_view(command.args@) == Seq::<Seq<char>>::empty());
    }
    Ok(command)
}

} // verus!
