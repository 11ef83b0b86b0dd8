//! The replies the server encodes read back, through its own decoder, as the
//! strings they carry.
use crate::resp::{
    array_spec, bulk_string_spec, bulk_string_text, bulk_strings_text, crlf, elements_spec,
    line_end, message_spec, newline_end, read_line_spec, resp_array_text, Step,
};
use crate::commands::command_outcome;
use crate::text::{
    accumulate_digits, decimal, digit_char, int_error_text, is_ascii_digit, parse_i32_spec,
    trim_end_matches_spec, trim_end_spec, trim_spec, trim_start_spec,
};
use crate::server::{serve_spec, ActionView};
use crate::store::DbView;
use vstd::prelude::*;
use vstd::utf8::{
    encode_scalar, encode_utf8, encode_utf8_decode_utf8, encode_utf8_valid_utf8,
    has_width_1_encoding, is_scalar, last_continuation_byte, leading_byte_width_2,
    leading_byte_width_3, leading_byte_width_4, second_last_continuation_byte,
    third_last_continuation_byte,
};

verus! {

/// The encoding of a concatenation is the concatenation of the encodings.
pub proof fn lemma_encode_concat(a: Seq<char>, b: Seq<char>)
    ensures
        encode_utf8(a + b) == encode_utf8(a) + encode_utf8(b),
    decreases a.len(),
{
    if a.len() == 0 {
        assert(a + b == b);
        assert(encode_utf8(a) == Seq::<u8>::empty());
        assert(Seq::<u8>::empty() + encode_utf8(b) == encode_utf8(b));
    } else {
        assert((a + b).drop_first() == a.drop_first() + b);
        assert((a + b)[0] == a[0]);
        lemma_encode_concat(a.drop_first(), b);
        assert(encode_scalar(a[0] as u32) + (encode_utf8(a.drop_first()) + encode_utf8(b))
            == (encode_scalar(a[0] as u32) + encode_utf8(a.drop_first())) + encode_utf8(b));
    }
}

proof fn lemma_scalar_bytes_not_lf(v: u32)
    requires
        v != 10,
        is_scalar(v),
    ensures
        forall|i: int| 0 <= i < encode_scalar(v).len() ==> encode_scalar(v)[i] != 10,
{
    if has_width_1_encoding(v) {
        assert(v <= 0x7f ==> (v & 0x7f) as u8 == v) by (bit_vector);
    } else {
        assert(leading_byte_width_2(v) >= 0x80) by (bit_vector);
        assert(leading_byte_width_3(v) >= 0x80) by (bit_vector);
        assert(leading_byte_width_4(v) >= 0x80) by (bit_vector);
        assert(last_continuation_byte(v) >= 0x80) by (bit_vector);
        assert(second_last_continuation_byte(v) >= 0x80) by (bit_vector);
        assert(third_last_continuation_byte(v) >= 0x80) by (bit_vector);
    }
}

/// Text without a line feed encodes to bytes without the byte 10.
pub proof fn lemma_encode_no_lf(s: Seq<char>)
    requires
        !s.contains('\n'),
    ensures
        !encode_utf8(s).contains(10u8),
    decreases s.len(),
{
    if s.len() > 0 {
        assert(!s.drop_first().contains('\n')) by {
            if s.drop_first().contains('\n') {
                let i = choose|i: int| 0 <= i < s.drop_first().len() && s.drop_first()[i] == '\n';
                assert(s[i + 1] == '\n');
            }
        }
        lemma_encode_no_lf(s.drop_first());
        if s[0] == '\n' {
            assert(s.contains('\n'));
        }
        vstd::utf8::char_u32_cast(s[0], s[0] as u32);
        assert((s[0] as u32) != 10u32);
        vstd::utf8::char_is_scalar(s[0]);
        lemma_scalar_bytes_not_lf(s[0] as u32);
        let x = encode_scalar(s[0] as u32);
        let y = encode_utf8(s.drop_first());
        assert forall|i: int| 0 <= i < (x + y).len() implies (x + y)[i] != 10u8 by {
            if i >= x.len() {
                assert((x + y)[i] == y[i - x.len()]);
            }
        }
    }
}

/// The encoding of a single ASCII character is its code.
pub proof fn lemma_encode_ascii_char(c: char)
    requires
        (c as u32) < 0x80,
    ensures
        encode_utf8(seq![c]) == seq![c as u32 as u8],
{
    let v = c as u32;
    assert(v < 0x80 ==> (v & 0x7f) as u8 == v as u8) by (bit_vector);
    assert(seq![c].drop_first() == Seq::<char>::empty());
    assert(encode_utf8(seq![c]) == encode_scalar(v) + encode_utf8(Seq::<char>::empty()));
    assert(encode_scalar(v) + Seq::<u8>::empty() == encode_scalar(v));
}

proof fn lemma_newline_end_at(input: Seq<u8>, pos: int, j: int)
    requires
        0 <= pos <= j < input.len(),
        input[j] == 10,
        forall|k: int| pos <= k < j ==> input[k] != 10,
    ensures
        newline_end(input, pos) == Some(j + 1),
    decreases j - pos,
{
    if pos < j {
        lemma_newline_end_at(input, pos + 1, j);
    }
}

/// A line of text, ended by its only line feed, reads back as itself from
/// wherever its encoding stands in the input.
pub proof fn lemma_read_encoded_line(input: Seq<u8>, pos: int, body: Seq<char>, eof: bool)
    requires
        !body.contains('\n'),
        0 <= pos,
        pos + encode_utf8(body + seq!['\n']).len() <= input.len(),
        input.subrange(pos, pos + encode_utf8(body + seq!['\n']).len()) == encode_utf8(
            body + seq!['\n'],
        ),
    ensures
        read_line_spec(input, pos, eof) == Step::Done(
            body + seq!['\n'],
            pos + encode_utf8(body + seq!['\n']).len(),
        ),
{
    let line = body + seq!['\n'];
    let eb = encode_utf8(body);
    lemma_encode_concat(body, seq!['\n']);
    lemma_encode_ascii_char('\n');
    assert(encode_utf8(line) == eb + seq![10u8]);
    let j = pos + eb.len();
    lemma_encode_no_lf(body);
    assert(input[j] == encode_utf8(line)[eb.len() as int]);
    assert forall|k: int| pos <= k < j implies input[k] != 10 by {
        assert(input[k] == encode_utf8(line)[k - pos]);
        assert(encode_utf8(line)[k - pos] == eb[k - pos]);
        if eb[k - pos] == 10 {
            assert(eb.contains(10u8));
        }
    }
    lemma_newline_end_at(input, pos, j);
    assert(line_end(input, pos, eof) == Some(j + 1));
    encode_utf8_valid_utf8(line);
    encode_utf8_decode_utf8(line);
}

/// A decimal digit character has the code of its digit plus 48.
pub proof fn lemma_digit_char(d: int)
    requires
        0 <= d < 10,
    ensures
        digit_char(d) as u32 == d + 48,
        is_ascii_digit(digit_char(d)),
{
}

/// Every character of a decimal representation is a digit.
pub proof fn lemma_decimal_digits(n: nat)
    ensures
        decimal(n).len() > 0,
        forall|i: int| 0 <= i < decimal(n).len() ==> is_ascii_digit(#[trigger] decimal(n)[i]),
    decreases n,
{
    if n < 10 {
        lemma_digit_char(n as int);
    } else {
        lemma_decimal_digits(n / 10);
        lemma_digit_char((n % 10) as int);
    }
}

proof fn lemma_accumulate_push(ds: Seq<char>, c: char, acc: int, neg: bool)
    ensures
        accumulate_digits(ds.push(c), acc, neg) == match accumulate_digits(ds, acc, neg) {
            Ok(v) => accumulate_digits(seq![c], v, neg),
            Err(k) => Err(k),
        },
    decreases ds.len(),
{
    if ds.len() > 0 {
        assert(ds.push(c).drop_first() == ds.drop_first().push(c));
        assert(ds.push(c)[0] == ds[0]);
        if is_ascii_digit(ds[0]) {
            let d = ds[0] as u32 - 48;
            let next = if neg { acc * 10 - d } else { acc * 10 + d };
            lemma_accumulate_push(ds.drop_first(), c, next, neg);
        }
    } else {
        assert(ds.push(c) == seq![c]);
    }
}

/// Reading back the decimal representation of `n` gives `n`, or `-n` for a
/// negative number, when that fits in an `i32`.
pub proof fn lemma_accumulate_decimal(n: nat, neg: bool)
    requires
        if neg { n <= 0x8000_0000 } else { n <= 0x7fff_ffff },
    ensures
        accumulate_digits(decimal(n), 0, neg) == Ok::<int, crate::text::IntErrorKind>(
            if neg { -n } else { n as int },
        ),
    decreases n,
{
    if n < 10 {
        lemma_digit_char(n as int);
        assert(seq![digit_char(n as int)].drop_first() == Seq::<char>::empty());
        assert(decimal(n) == seq![digit_char(n as int)]);
        assert(decimal(n)[0] == digit_char(n as int));
        assert(is_ascii_digit(decimal(n)[0]));
        assert(accumulate_digits(decimal(n), 0, neg) == accumulate_digits(Seq::<char>::empty(), if neg { -n } else { n as int }, neg));
    } else {
        lemma_accumulate_decimal(n / 10, neg);
        let c = digit_char((n % 10) as int);
        lemma_digit_char((n % 10) as int);
        lemma_accumulate_push(decimal(n / 10), c, 0, neg);
        assert(seq![c].drop_first() == Seq::<char>::empty());
        assert(n == (n / 10) * 10 + n % 10);
        let d = (n % 10) as int;
        let prev: int = if neg { -((n / 10) as int) } else { (n / 10) as int };
        let next = if neg { prev * 10 - d } else { prev * 10 + d };
        assert(next == if neg { -n } else { n as int });
        assert(accumulate_digits(seq![c], prev, neg) == accumulate_digits(
            Seq::<char>::empty(),
            next,
            neg,
        ));
        assert(decimal(n) == decimal(n / 10).push(c));
    }
}

/// Reading back `i32::to_string` gives the number again.
pub proof fn law_parse_i32_reads_back_decimal(v: i32)
    ensures
        parse_i32_spec(crate::text::signed_decimal(v as int)) == Ok::<
            int,
            crate::text::IntErrorKind,
        >(v as int),
{
    if v < 0 {
        let m = (-(v as int)) as nat;
        let s = crate::text::signed_decimal(v as int);
        lemma_decimal_digits(m);
        lemma_accumulate_decimal(m, true);
        assert(s.drop_first() == decimal(m));
        assert(s[0] == '-');
    } else {
        let m = v as nat;
        lemma_decimal_digits(m);
        lemma_accumulate_decimal(m, false);
        assert(is_ascii_digit(decimal(m)[0]));
    }
}

/// A decimal representation holds no line feed.
pub proof fn lemma_decimal_no_lf(n: nat)
    ensures
        !decimal(n).contains('\n'),
{
    lemma_decimal_digits(n);
    if decimal(n).contains('\n') {
        let i = choose|i: int| 0 <= i < decimal(n).len() && decimal(n)[i] == '\n';
        assert(is_ascii_digit(decimal(n)[i]));
    }
}

/// Text without a line feed still has none after a carriage return is added.
pub proof fn lemma_cr_keeps_no_lf(s: Seq<char>)
    requires
        !s.contains('\n'),
    ensures
        !(s + seq!['\r']).contains('\n'),
{
    if (s + seq!['\r']).contains('\n') {
        let i = choose|i: int| 0 <= i < (s + seq!['\r']).len() && (s + seq!['\r'])[i] == '\n';
        if i < s.len() {
            assert(s.contains('\n'));
        }
    }
}

/// Removing trailing line breaks from a line of text without line feeds
/// leaves the text.
pub proof fn lemma_trim_line_break(item: Seq<char>)
    requires
        !item.contains('\n'),
    ensures
        trim_end_matches_spec(item + crlf(), crlf()) == item,
{
    let s = item + crlf();
    assert(s.subrange(s.len() - 2, s.len() as int) == crlf());
    assert(s.subrange(0, s.len() - 2) == item);
    if item.len() >= 2 && item.subrange(item.len() - 2, item.len() as int) == crlf() {
        assert(item[item.len() - 1] == item.subrange(item.len() - 2, item.len() as int)[1]);
        assert(item.contains('\n'));
    }
    assert(trim_end_matches_spec(s, crlf()) == trim_end_matches_spec(item, crlf()));
    assert(trim_end_matches_spec(item, crlf()) == item);
}

/// Trimming a number followed by a line break leaves the number.
pub proof fn lemma_trim_decimal_line(n: nat)
    ensures
        trim_spec(decimal(n) + crlf()) == decimal(n),
{
    let d = decimal(n);
    let s = d + crlf();
    lemma_decimal_digits(n);
    assert(s[0] == d[0]);
    assert(is_ascii_digit(d[0]));
    assert(trim_start_spec(s) == s);
    assert(s.drop_last() == d + seq!['\r']);
    assert((d + seq!['\r']).drop_last() == d);
    assert(is_ascii_digit(d.last()));
    assert(trim_end_spec(d) == d);
    assert(s.last() == '\n');
    assert(trim_end_spec(s) == trim_end_spec(d + seq!['\r']));
    assert((d + seq!['\r']).last() == '\r');
    assert(trim_end_spec(d + seq!['\r']) == trim_end_spec(d));
}

/// The bulk strings, read from the front: the first one, then the others.
pub proof fn lemma_bulk_strings_front(items: Seq<Seq<char>>)
    requires
        items.len() > 0,
    ensures
        bulk_strings_text(items) == bulk_string_text(items[0]) + bulk_strings_text(
            items.drop_first(),
        ),
    decreases items.len(),
{
    if items.len() == 1 {
        assert(items.drop_last() == Seq::<Seq<char>>::empty());
        assert(items.drop_first() == Seq::<Seq<char>>::empty());
        assert(bulk_strings_text(items.drop_last()) == Seq::<char>::empty());
        assert(Seq::<char>::empty() + bulk_string_text(items[0]) == bulk_string_text(items[0]));
        assert(bulk_string_text(items[0]) + Seq::<char>::empty() == bulk_string_text(items[0]));
    } else {
        lemma_bulk_strings_front(items.drop_last());
        assert(items.drop_last()[0] == items[0]);
        assert(items.drop_last().drop_first() == items.drop_first().drop_last());
        assert(items.drop_first().last() == items.last());
        assert(bulk_strings_text(items.drop_first()) == bulk_strings_text(
            items.drop_first().drop_last(),
        ) + bulk_string_text(items.drop_first().last()));
    }
}

/// The encoding of `a + b` sits at `pos` in the input: so do those of `a`
/// and, after it, of `b`.
proof fn lemma_split_encoded(input: Seq<u8>, pos: int, a: Seq<char>, b: Seq<char>)
    requires
        0 <= pos,
        pos + encode_utf8(a + b).len() <= input.len(),
        input.subrange(pos, pos + encode_utf8(a + b).len()) == encode_utf8(a + b),
    ensures
        encode_utf8(a + b).len() == encode_utf8(a).len() + encode_utf8(b).len(),
        input.subrange(pos, pos + encode_utf8(a).len()) == encode_utf8(a),
        input.subrange(pos + encode_utf8(a).len(), pos + encode_utf8(a + b).len()) == encode_utf8(
            b,
        ),
{
    lemma_encode_concat(a, b);
    let ea = encode_utf8(a);
    let eb = encode_utf8(b);
    assert(input.subrange(pos, pos + ea.len()) == (ea + eb).subrange(0, ea.len() as int));
    assert(input.subrange(pos + ea.len(), pos + ea.len() + eb.len()) == (ea + eb).subrange(
        ea.len() as int,
        (ea.len() + eb.len()) as int,
    ));
}

/// A bulk string reads back as the one string it carries.
pub proof fn lemma_read_bulk_string(input: Seq<u8>, pos: int, item: Seq<char>, eof: bool)
    requires
        !item.contains('\n'),
        0 <= pos,
        pos + encode_utf8(bulk_string_text(item)).len() <= input.len(),
        input.subrange(pos, pos + encode_utf8(bulk_string_text(item)).len()) == encode_utf8(
            bulk_string_text(item),
        ),
    ensures
        message_spec(input, pos, eof) == Step::Done(
            seq![item],
            pos + encode_utf8(bulk_string_text(item)).len(),
        ),
{
    reveal_strlit("$");
    reveal_strlit("\r\n");
    let d = decimal(encode_utf8(item).len());
    let line1 = d + crlf();
    let line2 = item + crlf();
    let dollar = seq!['$'];
    assert(bulk_string_text(item) == dollar + (line1 + line2));
    lemma_split_encoded(input, pos, dollar, line1 + line2);
    lemma_encode_ascii_char('$');
    let p1 = pos + 1;
    lemma_split_encoded(input, p1, line1, line2);
    let p2 = p1 + encode_utf8(line1).len();
    lemma_decimal_no_lf(encode_utf8(item).len());
    lemma_cr_keeps_no_lf(d);
    lemma_cr_keeps_no_lf(item);
    assert(line1 == (d + seq!['\r']) + seq!['\n']);
    assert(line2 == (item + seq!['\r']) + seq!['\n']);
    lemma_read_encoded_line(input, p1, d + seq!['\r'], eof);
    lemma_read_encoded_line(input, p2, item + seq!['\r'], eof);
    lemma_trim_line_break(item);
    assert(input[pos] == 36u8) by {
        assert(input[pos] == input.subrange(pos, pos + 1)[0]);
    }
    assert(bulk_string_spec(input, p1, eof) == Step::Done(item, p2 + encode_utf8(line2).len()));
}

/// Bulk strings, one after another, read back as the strings they carry.
pub proof fn lemma_read_bulk_strings(input: Seq<u8>, pos: int, items: Seq<Seq<char>>, eof: bool)
    requires
        forall|i: int| 0 <= i < items.len() ==> !(#[trigger] items[i]).contains('\n'),
        0 <= pos,
        pos + encode_utf8(bulk_strings_text(items)).len() <= input.len(),
        input.subrange(pos, pos + encode_utf8(bulk_strings_text(items)).len()) == encode_utf8(
            bulk_strings_text(items),
        ),
    ensures
        elements_spec(input, pos, items.len() as int, eof) == Step::Done(
            items,
            pos + encode_utf8(bulk_strings_text(items)).len(),
        ),
    decreases items.len(),
{
    if items.len() == 0 {
        assert(bulk_strings_text(items) == Seq::<char>::empty());
        assert(items == Seq::<Seq<char>>::empty());
    } else {
        let first = items[0];
        let rest = items.drop_first();
        lemma_bulk_strings_front(items);
        lemma_split_encoded(input, pos, bulk_string_text(first), bulk_strings_text(rest));
        lemma_read_bulk_string(input, pos, first, eof);
        let p2 = pos + encode_utf8(bulk_string_text(first)).len();
        reveal_strlit("$");
        lemma_encode_concat(seq!['$'], bulk_string_text(first).drop_first());
        assert(seq!['$'] + bulk_string_text(first).drop_first() == bulk_string_text(first));
        lemma_encode_ascii_char('$');
        assert(pos < p2);
        assert forall|i: int| 0 <= i < rest.len() implies !(#[trigger] rest[i]).contains('\n') by {
            assert(rest[i] == items[i + 1]);
        }
        lemma_read_bulk_strings(input, p2, rest, eof);
        assert(seq![first] + rest == items);
    }
}

/// An array of bulk strings, as `resp_array` encodes it, decodes back to its
/// strings, when none of them holds a line feed; the decoding stops at the
/// end of the encoding, whatever bytes follow it and whether or not more
/// input may come.
pub proof fn law_resp_array_reads_back(items: Seq<Seq<char>>, rest: Seq<u8>, eof: bool)
    requires
        items.len() <= 0x7fff_ffff,
        forall|i: int| 0 <= i < items.len() ==> !(#[trigger] items[i]).contains('\n'),
    ensures
        message_spec(encode_utf8(resp_array_text(items)) + rest, 0, eof) == Step::Done(
            items,
            encode_utf8(resp_array_text(items)).len() as int,
        ),
{
    reveal_strlit("*");
    reveal_strlit("\r\n");
    let enc = encode_utf8(resp_array_text(items));
    let input = enc + rest;
    let d = decimal(items.len());
    let line = d + crlf();
    let bulks = bulk_strings_text(items);
    assert(resp_array_text(items) == seq!['*'] + (line + bulks));
    assert(input.subrange(0, enc.len() as int) == enc);
    lemma_split_encoded(input, 0, seq!['*'], line + bulks);
    lemma_encode_ascii_char('*');
    lemma_split_encoded(input, 1, line, bulks);
    lemma_decimal_digits(items.len());
    lemma_decimal_no_lf(items.len());
    lemma_cr_keeps_no_lf(d);
    assert(line == (d + seq!['\r']) + seq!['\n']);
    lemma_read_encoded_line(input, 1, d + seq!['\r'], eof);
    let e: int = 1 + encode_utf8(line).len() as int;
    lemma_trim_decimal_line(items.len());
    lemma_accumulate_decimal(items.len(), false);
    assert(is_ascii_digit(d[0]));
    assert(parse_i32_spec(d) == Ok::<int, crate::text::IntErrorKind>(items.len() as int));
    lemma_read_bulk_strings(input, e, items, eof);
    assert(input[0] == 42u8) by {
        assert(input[0] == input.subrange(0, 1)[0]);
    }
    assert(array_spec(input, 1, eof) == elements_spec(input, e, items.len() as int, eof));
}

/// A request sent as an array of bulk strings, none holding a line feed, runs
/// the command that its first string names on the others, whatever bytes
/// follow it; a reply consumes exactly the request.
pub proof fn law_array_request_runs_command(
    items: Seq<Seq<char>>,
    rest: Seq<u8>,
    eof: bool,
    db: DbView,
)
    requires
        1 <= items.len() <= 0x7fff_ffff,
        forall|i: int| 0 <= i < items.len() ==> !(#[trigger] items[i]).contains('\n'),
    ensures
        serve_spec(encode_utf8(resp_array_text(items)) + rest, eof, db) == match command_outcome(
            items[0],
            items.skip(1),
            db,
        ) {
            None => (ActionView::Abort, db),
            Some(o) => match o.reply {
                Ok(s) => (
                    ActionView::Reply(s, encode_utf8(resp_array_text(items)).len() as int),
                    o.db,
                ),
                Err(e) => (ActionView::CommandError(e), o.db),
            },
        },
{
    law_resp_array_reads_back(items, rest, eof);
}

/// An error sent by the client (`-` and a line) decodes as a failure that
/// carries the text of the line; exactly that line is read, whatever follows.
pub proof fn law_client_error_fails_with_its_text(text: Seq<char>, rest: Seq<u8>, eof: bool)
    requires
        !text.contains('\n'),
    ensures
        message_spec(encode_utf8(seq!['-'] + (text + crlf())) + rest, 0, eof) == Step::<
            Seq<Seq<char>>,
        >::Failed(text, encode_utf8(seq!['-'] + (text + crlf())).len() as int),
{
    let line = text + crlf();
    let enc = encode_utf8(seq!['-'] + line);
    let input = enc + rest;
    assert(input.subrange(0, enc.len() as int) == enc);
    lemma_split_encoded(input, 0, seq!['-'], line);
    lemma_encode_ascii_char('-');
    lemma_cr_keeps_no_lf(text);
    assert(line == (text + seq!['\r']) + seq!['\n']);
    lemma_read_encoded_line(input, 1, text + seq!['\r'], eof);
    lemma_trim_line_break(text);
    assert(input[0] == 45u8) by {
        assert(input[0] == input.subrange(0, 1)[0]);
    }
}

/// An array whose size line does not read as an `i32` fails with the error of
/// that reading; only the size line is read, no element.
pub proof fn law_bad_array_size_fails(size: Seq<char>, rest: Seq<u8>, eof: bool)
    requires
        !size.contains('\n'),
        parse_i32_spec(trim_spec(size + crlf())) is Err,
    ensures
        message_spec(encode_utf8(seq!['*'] + (size + crlf())) + rest, 0, eof) == Step::<
            Seq<Seq<char>>,
        >::Failed(
            int_error_text(parse_i32_spec(trim_spec(size + crlf()))->Err_0),
            encode_utf8(seq!['*'] + (size + crlf())).len() as int,
        ),
{
    let line = size + crlf();
    let enc = encode_utf8(seq!['*'] + line);
    let input = enc + rest;
    assert(input.subrange(0, enc.len() as int) == enc);
    lemma_split_encoded(input, 0, seq!['*'], line);
    lemma_encode_ascii_char('*');
    lemma_cr_keeps_no_lf(size);
    assert(line == (size + seq!['\r']) + seq!['\n']);
    lemma_read_encoded_line(input, 1, size + seq!['\r'], eof);
    assert(input[0] == 42u8) by {
        assert(input[0] == input.subrange(0, 1)[0]);
    }
}

/// A simple string (`+` and a line) decodes to the one string of its text,
/// without the line break; exactly its line is read, whatever follows.
pub proof fn law_simple_string_reads_back(text: Seq<char>, rest: Seq<u8>, eof: bool)
    requires
        !text.contains('\n'),
    ensures
        message_spec(encode_utf8(seq!['+'] + (text + crlf())) + rest, 0, eof) == Step::Done(
            seq![text],
            encode_utf8(seq!['+'] + (text + crlf())).len() as int,
        ),
{
    let line = text + crlf();
    let enc = encode_utf8(seq!['+'] + line);
    let input = enc + rest;
    assert(input.subrange(0, enc.len() as int) == enc);
    lemma_split_encoded(input, 0, seq!['+'], line);
    lemma_encode_ascii_char('+');
    lemma_cr_keeps_no_lf(text);
    assert(line == (text + seq!['\r']) + seq!['\n']);
    lemma_read_encoded_line(input, 1, text + seq!['\r'], eof);
    lemma_trim_line_break(text);
    assert(input[0] == 43u8) by {
        assert(input[0] == input.subrange(0, 1)[0]);
    }
}

/// The header of each bulk string that `resp_array` writes counts the bytes
/// of its content: the encoding is `$`, a number, a line break, the content,
/// a line break; the number reads as the content's length in bytes, and the
/// content decodes to the string.
pub proof fn law_bulk_header_counts_bytes(text: Seq<char>)
    requires
        encode_utf8(text).len() <= 0x7fff_ffff,
    ensures
        exists|header: Seq<char>, content: Seq<u8>|
            {
                &&& encode_utf8(bulk_string_text(text)) == seq![36u8] + encode_utf8(header) + seq![
                    13u8,
                    10u8,
                ] + content + seq![13u8, 10u8]
                &&& parse_i32_spec(header) == Ok::<int, crate::text::IntErrorKind>(
                    content.len() as int,
                )
                &&& vstd::utf8::valid_utf8(content)
                &&& vstd::utf8::decode_utf8(content) == text
            },
{
    reveal_strlit("$");
    reveal_strlit("\r\n");
    let n = encode_utf8(text).len();
    let h = decimal(n);
    let content = encode_utf8(text);
    let cr = seq!['\r'];
    let lf = seq!['\n'];
    assert(bulk_string_text(text) == seq!['$'] + h + (cr + lf) + text + (cr + lf));
    lemma_encode_concat(seq!['$'] + h + (cr + lf) + text, cr + lf);
    lemma_encode_concat(seq!['$'] + h + (cr + lf), text);
    lemma_encode_concat(seq!['$'] + h, cr + lf);
    lemma_encode_concat(seq!['$'], h);
    lemma_encode_concat(cr, lf);
    lemma_encode_ascii_char('$');
    lemma_encode_ascii_char('\r');
    lemma_encode_ascii_char('\n');
    assert(seq![13u8] + seq![10u8] == seq![13u8, 10u8]);
    assert(encode_utf8(bulk_string_text(text)) == seq![36u8] + encode_utf8(h) + seq![13u8, 10u8]
        + content + seq![13u8, 10u8]);
    lemma_decimal_digits(n);
    lemma_accumulate_decimal(n, false);
    assert(is_ascii_digit(h[0]));
    encode_utf8_valid_utf8(text);
    encode_utf8_decode_utf8(text);
}

} // verus!
