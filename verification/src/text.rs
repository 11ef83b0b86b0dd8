//! Character-level helpers: decimal numbers, whitespace, trimming and splitting.
use vstd::prelude::*;
use vstd::utf8::is_ascii_chars;

verus! {

broadcast use vstd::string::group_string_axioms;

/// Appends one character to a string (`String::push`).
#[verifier::external_body]
pub(crate) fn push_char(s: &mut String, c: char)
    ensures
        final(s)@ == old(s)@.push(c),
{
    s.push(c);
}

/// The characters of a string slice, in order.
pub fn str_chars(s: &str) -> (r: Vec<char>)
    ensures
        r@ == s@,
{
    let mut v: Vec<char> = Vec::new();
    for c in it: s.chars()
        invariant
            v@ == it.seq().take(it.index()),
            it.seq() == s@,
    {
        v.push(c);
    }
    v
}

/// The string made of the given characters.
pub fn string_from_chars(cs: &[char]) -> (r: String)
    ensures
        r@ == cs@,
{
    let mut s = String::new();
    let mut i: usize = 0;
    while i < cs.len()
        invariant
            i <= cs.len(),
            s@ == cs@.take(i as int),
        decreases cs.len() - i,
    {
        push_char(&mut s, cs[i]);
        i = i + 1;
        assert(cs@.take(i as int) == cs@.take((i - 1) as int).push(cs@[i - 1]));
    }
    assert(cs@.take(cs.len() as int) == cs@);
    s
}

/// Whether two character sequences are equal.
pub fn chars_eq(a: &[char], b: &[char]) -> (r: bool)
    ensures
        r == (a@ == b@),
{
    if a.len() != b.len() {
        return false;
    }
    let mut i: usize = 0;
    while i < a.len()
        invariant
            i <= a@.len(),
            a@.len() == b@.len(),
            forall|j: int| 0 <= j < i ==> a@[j] == b@[j],
        decreases a@.len() - i,
    {
        if a[i] != b[i] {
            return false;
        }
        i = i + 1;
    }
    assert(a@ =~= b@);
    true
}

/// Whether two strings hold the same characters.
pub fn str_eq(a: &str, b: &str) -> (r: bool)
    ensures
        r == (a@ == b@),
{
    let x = str_chars(a);
    let y = str_chars(b);
    chars_eq(x.as_slice(), y.as_slice())
}

// ---------------------------------------------------------------------------
// Decimal numbers
// ---------------------------------------------------------------------------

/// The ASCII digit for `d`, which lies in `0..10`.
pub open spec fn digit_char(d: int) -> char {
    (d + 48) as char
}

/// The decimal representation of a natural number, without leading zeros.
pub open spec fn decimal(n: nat) -> Seq<char>
    decreases n,
{
    if n < 10 {
        seq![digit_char(n as int)]
    } else {
        decimal(n / 10).push(digit_char((n % 10) as int))
    }
}

/// The decimal representation of an integer: a `-` sign before negative values.
pub open spec fn signed_decimal(v: int) -> Seq<char> {
    if v < 0 {
        seq!['-'] + decimal((-v) as nat)
    } else {
        decimal(v as nat)
    }
}

fn digit_to_char(d: u64) -> (c: char)
    requires
        d < 10,
    ensures
        c == digit_char(d as int),
{
    let b: u8 = (d as u8) + 48u8;
    b as char
}

/// Appends the decimal representation of `n` to `s`.
pub fn push_decimal(s: &mut String, n: u64)
    ensures
        final(s)@ == old(s)@ + decimal(n as nat),
    decreases n,
{
    if n >= 10 {
        push_decimal(s, n / 10);
    }
    push_char(s, digit_to_char(n % 10));
}

/// The decimal representation of a `usize` (`usize::to_string`).
pub fn usize_to_string(n: usize) -> (r: String)
    ensures
        r@ == decimal(n as nat),
{
    let mut s = String::new();
    push_decimal(&mut s, n as u64);
    s
}

/// The decimal representation of an `i32` (`i32::to_string`).
pub fn i32_to_string(v: i32) -> (r: String)
    ensures
        r@ == signed_decimal(v as int),
{
    let mut s = String::new();
    if v < 0 {
        push_char(&mut s, '-');
        let m: i64 = -(v as i64);
        push_decimal(&mut s, m as u64);
    } else {
        push_decimal(&mut s, v as u64);
    }
    s
}

// ---------------------------------------------------------------------------
// Parsing integers
// ---------------------------------------------------------------------------

/// Why a string is not an `i32`, as `std::num::IntErrorKind` tells it.
#[derive(Clone, Copy, Debug, PartialEq, Eq, Structural)]
pub enum IntErrorKind {
    Empty,
    InvalidDigit,
    PosOverflow,
    NegOverflow,
}

pub open spec fn is_ascii_digit(c: char) -> bool {
    48 <= c as u32 <= 57
}

pub open spec fn in_i32_range(v: int) -> bool {
    i32::MIN <= v <= i32::MAX
}

/// Reads the digits `ds` after the value `acc` read so far, from left to right:
/// each character must be a digit, and every intermediate value must fit in
/// an `i32`; a negative number subtracts its digits.
pub open spec fn accumulate_digits(ds: Seq<char>, acc: int, neg: bool) -> Result<int, IntErrorKind>
    decreases ds.len(),
{
    if ds.len() == 0 {
        Ok(acc)
    } else if !is_ascii_digit(ds[0]) {
        Err(IntErrorKind::InvalidDigit)
    } else {
        let d = ds[0] as u32 - 48;
        let next = if neg { acc * 10 - d } else { acc * 10 + d };
        if !in_i32_range(next) {
            Err(if neg { IntErrorKind::NegOverflow } else { IntErrorKind::PosOverflow })
        } else {
            accumulate_digits(ds.drop_first(), next, neg)
        }
    }
}

/// What `s.parse::<i32>()` gives: an optional sign, then at least one decimal digit.
pub open spec fn parse_i32_spec(s: Seq<char>) -> Result<int, IntErrorKind> {
    if s.len() == 0 {
        Err(IntErrorKind::Empty)
    } else if (s[0] == '+' || s[0] == '-') && s.len() == 1 {
        Err(IntErrorKind::InvalidDigit)
    } else if s[0] == '+' {
        accumulate_digits(s.drop_first(), 0, false)
    } else if s[0] == '-' {
        accumulate_digits(s.drop_first(), 0, true)
    } else {
        accumulate_digits(s, 0, false)
    }
}

proof fn lemma_accumulate_in_range(ds: Seq<char>, acc: int, neg: bool)
    requires
        in_i32_range(acc),
    ensures
        accumulate_digits(ds, acc, neg) matches Ok(v) ==> in_i32_range(v),
    decreases ds.len(),
{
    if ds.len() > 0 && is_ascii_digit(ds[0]) {
        let d = ds[0] as u32 - 48;
        let next = if neg { acc * 10 - d } else { acc * 10 + d };
        if in_i32_range(next) {
            lemma_accumulate_in_range(ds.drop_first(), next, neg);
        }
    }
}

/// Every value that `parse_i32_spec` accepts fits in an `i32`.
pub proof fn lemma_parse_i32_in_range(s: Seq<char>)
    ensures
        parse_i32_spec(s) matches Ok(v) ==> in_i32_range(v),
{
    if s.len() > 0 {
        if s[0] == '+' || s[0] == '-' {
            lemma_accumulate_in_range(s.drop_first(), 0, s[0] == '-');
        } else {
            lemma_accumulate_in_range(s, 0, false);
        }
    }
}

/// Parses `cs` as a decimal `i32`, as `str::parse::<i32>` does.
pub fn parse_i32_chars(cs: &[char]) -> (r: Result<i32, IntErrorKind>)
    ensures
        match r {
            Ok(v) => parse_i32_spec(cs@) == Ok::<int, IntErrorKind>(v as int),
            Err(k) => parse_i32_spec(cs@) == Err::<int, IntErrorKind>(k),
        },
{
    if cs.len() == 0 {
        return Err(IntErrorKind::Empty);
    }
    if (cs[0] == '+' || cs[0] == '-') && cs.len() == 1 {
        return Err(IntErrorKind::InvalidDigit);
    }
    let neg = cs[0] == '-';
    let start: usize = if cs[0] == '+' || cs[0] == '-' { 1 } else { 0 };
    let ghost digits = cs@.skip(start as int);
    assert(start == 1 ==> digits == cs@.drop_first());
    assert(start == 0 ==> digits == cs@);
    assert(parse_i32_spec(cs@) == accumulate_digits(digits, 0, neg));
    let mut acc: i64 = 0;
    let mut i: usize = start;
    while i < cs.len()
        invariant
            start <= i <= cs.len(),
            parse_i32_spec(cs@) == accumulate_digits(digits, 0, neg),
            digits == cs@.skip(start as int),
            in_i32_range(acc as int),
            accumulate_digits(digits, 0, neg) == accumulate_digits(cs@.skip(i as int), acc as int, neg),
        decreases cs.len() - i,
    {
        let c = cs[i];
        assert(cs@.skip(i as int)[0] == c);
        assert(cs@.skip(i as int).drop_first() == cs@.skip(i + 1));
        if !((c as u32) >= 48 && (c as u32) <= 57) {
            return Err(IntErrorKind::InvalidDigit);
        }
        let d: i64 = ((c as u32) - 48) as i64;
        let next: i64 = if neg { acc * 10 - d } else { acc * 10 + d };
        if next < -2147483648 || next > 2147483647 {
            if neg {
                return Err(IntErrorKind::NegOverflow);
            } else {
                return Err(IntErrorKind::PosOverflow);
            }
        }
        acc = next;
        i = i + 1;
    }
    assert(cs@.skip(i as int).len() == 0);
    Ok(acc as i32)
}

/// The text of a `ParseIntError` of the given kind.
pub open spec fn int_error_text(k: IntErrorKind) -> Seq<char> {
    match k {
        IntErrorKind::Empty => "cannot parse integer from empty string"@,
        IntErrorKind::InvalidDigit => "invalid digit found in string"@,
        IntErrorKind::PosOverflow => "number too large to fit in target type"@,
        IntErrorKind::NegOverflow => "number too small to fit in target type"@,
    }
}

/// The text of a `ParseIntError` of the given kind (its `to_string`).
pub fn int_error_message(k: IntErrorKind) -> (r: String)
    ensures
        r@ == int_error_text(k),
{
    match k {
        IntErrorKind::Empty => "cannot parse integer from empty string".to_owned(),
        IntErrorKind::InvalidDigit => "invalid digit found in string".to_owned(),
        IntErrorKind::PosOverflow => "number too large to fit in target type".to_owned(),
        IntErrorKind::NegOverflow => "number too small to fit in target type".to_owned(),
    }
}

// ---------------------------------------------------------------------------
// Whitespace, trimming and splitting
// ---------------------------------------------------------------------------

/// The characters with the Unicode `White_Space` property (`char::is_whitespace`).
pub open spec fn is_white_space(c: char) -> bool {
    let v = c as u32;
    ||| 0x9 <= v <= 0xD
    ||| v == 0x20
    ||| v == 0x85
    ||| v == 0xA0
    ||| v == 0x1680
    ||| 0x2000 <= v <= 0x200A
    ||| v == 0x2028
    ||| v == 0x2029
    ||| v == 0x202F
    ||| v == 0x205F
    ||| v == 0x3000
}

/// Whether `c` is white space (`char::is_whitespace`).
pub fn is_whitespace(c: char) -> (r: bool)
    ensures
        r == is_white_space(c),
{
    let v = c as u32;
    (0x9 <= v && v <= 0xD) || v == 0x20 || v == 0x85 || v == 0xA0 || v == 0x1680 || (0x2000 <= v
        && v <= 0x200A) || v == 0x2028 || v == 0x2029 || v == 0x202F || v == 0x205F || v == 0x3000
}

/// `s` without its leading white space.
pub open spec fn trim_start_spec(s: Seq<char>) -> Seq<char>
    decreases s.len(),
{
    if s.len() > 0 && is_white_space(s[0]) {
        trim_start_spec(s.drop_first())
    } else {
        s
    }
}

/// `s` without its trailing white space.
pub open spec fn trim_end_spec(s: Seq<char>) -> Seq<char>
    decreases s.len(),
{
    if s.len() > 0 && is_white_space(s.last()) {
        trim_end_spec(s.drop_last())
    } else {
        s
    }
}

/// `s` without leading and trailing white space (`str::trim`).
pub open spec fn trim_spec(s: Seq<char>) -> Seq<char> {
    trim_end_spec(trim_start_spec(s))
}

/// `s` with every trailing copy of `pat` removed, one after another
/// (`str::trim_end_matches` with a string pattern).
pub open spec fn trim_end_matches_spec(s: Seq<char>, pat: Seq<char>) -> Seq<char>
    decreases s.len(),
{
    if pat.len() > 0 && pat.len() <= s.len() && s.subrange(s.len() - pat.len(), s.len() as int)
        == pat {
        trim_end_matches_spec(s.subrange(0, s.len() - pat.len()), pat)
    } else {
        s
    }
}

/// `cs` without leading and trailing white space (`str::trim`).
pub fn trim_chars(cs: &[char]) -> (r: Vec<char>)
    ensures
        r@ == trim_spec(cs@),
{
    let mut start: usize = 0;
    assert(cs@.skip(0) == cs@);
    while start < cs.len() && is_whitespace(cs[start])
        invariant
            start <= cs.len(),
            trim_start_spec(cs@) == trim_start_spec(cs@.skip(start as int)),
        decreases cs.len() - start,
    {
        assert(cs@.skip(start as int).drop_first() == cs@.skip(start + 1));
        start = start + 1;
    }
    let mut end: usize = cs.len();
    let ghost mid = cs@.skip(start as int);
    assert(trim_start_spec(cs@) == mid);
    while end > start && is_whitespace(cs[end - 1])
        invariant
            start <= end <= cs.len(),
            mid == cs@.skip(start as int),
            trim_end_spec(mid) == trim_end_spec(cs@.subrange(start as int, end as int)),
        decreases end,
    {
        assert(cs@.subrange(start as int, end as int).drop_last() == cs@.subrange(
            start as int,
            end - 1,
        ));
        end = end - 1;
    }
    assert(trim_end_spec(cs@.subrange(start as int, end as int)) == cs@.subrange(
        start as int,
        end as int,
    ));
    let mut r: Vec<char> = Vec::new();
    let mut i: usize = start;
    while i < end
        invariant
            start <= i <= end <= cs.len(),
            r@ == cs@.subrange(start as int, i as int),
        decreases end - i,
    {
        r.push(cs[i]);
        i = i + 1;
    }
    r
}

/// `cs` with every trailing copy of `pat` removed (`str::trim_end_matches`).
pub fn trim_end_matches_chars(cs: &[char], pat: &[char]) -> (r: Vec<char>)
    ensures
        r@ == trim_end_matches_spec(cs@, pat@),
{
    let mut end: usize = cs.len();
    let plen = pat.len();
    assert(cs@.subrange(0, end as int) == cs@);
    loop
        invariant
            end <= cs.len(),
            plen == pat@.len(),
            trim_end_matches_spec(cs@, pat@) == trim_end_matches_spec(
                cs@.subrange(0, end as int),
                pat@,
            ),
        ensures
            end <= cs.len(),
            trim_end_matches_spec(cs@, pat@) == cs@.subrange(0, end as int),
        decreases end,
    {
        let ghost cur = cs@.subrange(0, end as int);
        if plen == 0 || plen > end {
            assert(trim_end_matches_spec(cur, pat@) == cur);
            break;
        }
        let base = end - plen;
        let mut k: usize = 0;
        let mut same = true;
        while k < plen
            invariant
                k <= plen,
                base + plen == end,
                end <= cs.len(),
                plen == pat@.len(),
                same == (forall|j: int| 0 <= j < k ==> cs@[base + j] == pat@[j]),
            decreases plen - k,
        {
            if cs[base + k] != pat[k] {
                same = false;
            }
            k = k + 1;
        }
        if !same {
            assert(cur.subrange(cur.len() - pat@.len(), cur.len() as int) != pat@) by {
                let j = choose|j: int| 0 <= j < plen && cs@[base + j] != pat@[j];
                assert(cur.subrange(cur.len() - pat@.len(), cur.len() as int)[j] == cs@[base + j]);
            }
            assert(trim_end_matches_spec(cur, pat@) == cur);
            break;
        }
        assert(cur.subrange(cur.len() - pat@.len(), cur.len() as int) == pat@);
        assert(cur.subrange(0, cur.len() - pat@.len()) == cs@.subrange(0, base as int));
        end = base;
    }
    let mut r: Vec<char> = Vec::new();
    let mut i: usize = 0;
    while i < end
        invariant
            i <= end <= cs.len(),
            r@ == cs@.subrange(0, i as int),
        decreases end - i,
    {
        r.push(cs[i]);
        i = i + 1;
    }
    r
}

/// The words of `s` still to come, after the word `cur` being read and the
/// words `done` already complete: a word is a maximal run of characters that
/// are not white space.
pub open spec fn split_words(s: Seq<char>, cur: Seq<char>, done: Seq<Seq<char>>) -> Seq<Seq<char>>
    decreases s.len(),
{
    let closed = if cur.len() > 0 { done.push(cur) } else { done };
    if s.len() == 0 {
        closed
    } else if is_white_space(s[0]) {
        split_words(s.drop_first(), seq![], closed)
    } else {
        split_words(s.drop_first(), cur.push(s[0]), done)
    }
}

/// The words of `s`, in order (`str::split_whitespace`).
pub open spec fn split_whitespace_spec(s: Seq<char>) -> Seq<Seq<char>> {
    split_words(s, seq![], seq![])
}

/// The words of `cs`, in order (`str::split_whitespace`).
pub fn split_whitespace_chars(cs: &[char]) -> (r: Vec<String>)
    ensures
        r@.map_values(|w: String| w@) == split_whitespace_spec(cs@),
{
    let mut done: Vec<String> = Vec::new();
    let mut cur: Vec<char> = Vec::new();
    let mut i: usize = 0;
    assert(cs@.skip(0) == cs@);
    assert(done@.map_values(|w: String| w@) == Seq::<Seq<char>>::empty());
    while i < cs.len()
        invariant
            i <= cs.len(),
            split_whitespace_spec(cs@) == split_words(
                cs@.skip(i as int),
                cur@,
                done@.map_values(|w: String| w@),
            ),
        decreases cs.len() - i,
    {
        let c = cs[i];
        assert(cs@.skip(i as int)[0] == c);
        assert(cs@.skip(i as int).drop_first() == cs@.skip(i + 1));
        if is_whitespace(c) {
            if cur.len() > 0 {
                let w = string_from_chars(cur.as_slice());
                let ghost old_done = done@;
                done.push(w);
                assert(done@.map_values(|w: String| w@) == old_done.map_values(|w: String| w@).push(
                    cur@,
                ));
            }
            cur = Vec::new();
        } else {
            cur.push(c);
        }
        i = i + 1;
    }
    assert(cs@.skip(i as int).len() == 0);
    if cur.len() > 0 {
        let w = string_from_chars(cur.as_slice());
        let ghost old_done = done@;
        done.push(w);
        assert(done@.map_values(|w: String| w@) == old_done.map_values(|w: String| w@).push(
            cur@,
        ));
    }
    done
}

/// The characters of `s` that are not white space, in order.
pub open spec fn non_white(s: Seq<char>) -> Seq<char>
    decreases s.len(),
{
    if s.len() == 0 {
        seq![]
    } else if is_white_space(s[0]) {
        non_white(s.drop_first())
    } else {
        seq![s[0]] + non_white(s.drop_first())
    }
}

/// The words, one after another, with nothing between them.
pub open spec fn concat_words(words: Seq<Seq<char>>) -> Seq<char>
    decreases words.len(),
{
    if words.len() == 0 {
        seq![]
    } else {
        concat_words(words.drop_last()) + words.last()
    }
}

pub proof fn lemma_non_white_concat(a: Seq<char>, b: Seq<char>)
    ensures
        non_white(a + b) == non_white(a) + non_white(b),
    decreases a.len(),
{
    if a.len() == 0 {
        assert(a + b == b);
    } else {
        assert((a + b).drop_first() == a.drop_first() + b);
        assert((a + b)[0] == a[0]);
        lemma_non_white_concat(a.drop_first(), b);
        assert(seq![a[0]] + (non_white(a.drop_first()) + non_white(b)) == (seq![a[0]] + non_white(
            a.drop_first(),
        )) + non_white(b));
    }
}

proof fn lemma_non_white_of_white(s: Seq<char>)
    requires
        forall|i: int| 0 <= i < s.len() ==> is_white_space(#[trigger] s[i]),
    ensures
        non_white(s) == Seq::<char>::empty(),
    decreases s.len(),
{
    if s.len() > 0 {
        assert(is_white_space(s[0]));
        assert forall|i: int| 0 <= i < s.drop_first().len() implies is_white_space(
            #[trigger] s.drop_first()[i],
        ) by {
            assert(s.drop_first()[i] == s[i + 1]);
        }
        lemma_non_white_of_white(s.drop_first());
    }
}

/// Removing trailing copies of a pattern made of white space removes only
/// white space.
pub proof fn lemma_trim_end_matches_keeps_non_white(s: Seq<char>, pat: Seq<char>)
    requires
        forall|i: int| 0 <= i < pat.len() ==> is_white_space(#[trigger] pat[i]),
    ensures
        non_white(trim_end_matches_spec(s, pat)) == non_white(s),
    decreases s.len(),
{
    if pat.len() > 0 && pat.len() <= s.len() && s.subrange(s.len() - pat.len(), s.len() as int)
        == pat {
        let front = s.subrange(0, s.len() - pat.len());
        assert(s == front + pat);
        lemma_non_white_concat(front, pat);
        lemma_non_white_of_white(pat);
        assert(non_white(front) + Seq::<char>::empty() == non_white(front));
        lemma_trim_end_matches_keeps_non_white(front, pat);
    }
}

proof fn lemma_split_words_concat(s: Seq<char>, cur: Seq<char>, done: Seq<Seq<char>>)
    ensures
        concat_words(split_words(s, cur, done)) == concat_words(done) + cur + non_white(s),
    decreases s.len(),
{
    let closed = if cur.len() > 0 { done.push(cur) } else { done };
    if cur.len() > 0 {
        assert(done.push(cur).drop_last() == done);
    } else {
        assert(cur == Seq::<char>::empty());
        assert(concat_words(done) + cur == concat_words(done));
    }
    assert(concat_words(closed) == concat_words(done) + cur);
    if s.len() == 0 {
        assert(concat_words(done) + cur + Seq::<char>::empty() == concat_words(done) + cur);
    } else if is_white_space(s[0]) {
        lemma_split_words_concat(s.drop_first(), seq![], closed);
        assert(concat_words(closed) + Seq::<char>::empty() == concat_words(closed));
    } else {
        lemma_split_words_concat(s.drop_first(), cur.push(s[0]), done);
        assert(concat_words(done) + cur.push(s[0]) + non_white(s.drop_first()) == concat_words(done)
            + cur + (seq![s[0]] + non_white(s.drop_first())));
    }
}

/// Splitting on white space keeps every other character: the words, put back
/// together, are the text without its white space.
pub proof fn law_split_whitespace_keeps_every_character(s: Seq<char>)
    ensures
        concat_words(split_whitespace_spec(s)) == non_white(s),
{
    lemma_split_words_concat(s, seq![], seq![]);
    assert(concat_words(Seq::<Seq<char>>::empty()) + Seq::<char>::empty() + non_white(s)
        == non_white(s));
}

/// A word: at least one character, none of them white space.
pub open spec fn is_word(w: Seq<char>) -> bool {
    w.len() > 0 && forall|j: int| 0 <= j < w.len() ==> !is_white_space(#[trigger] w[j])
}

proof fn lemma_split_words_are_words(s: Seq<char>, cur: Seq<char>, done: Seq<Seq<char>>)
    requires
        forall|i: int| 0 <= i < done.len() ==> is_word(#[trigger] done[i]),
        forall|j: int| 0 <= j < cur.len() ==> !is_white_space(#[trigger] cur[j]),
    ensures
        forall|i: int|
            0 <= i < split_words(s, cur, done).len() ==> is_word(
                #[trigger] split_words(s, cur, done)[i],
            ),
    decreases s.len(),
{
    let closed = if cur.len() > 0 { done.push(cur) } else { done };
    assert forall|i: int| 0 <= i < closed.len() implies is_word(#[trigger] closed[i]) by {
        if i < done.len() {
            assert(closed[i] == done[i]);
        }
    }
    if s.len() == 0 {
        assert(split_words(s, cur, done) == closed);
    } else {
        if is_white_space(s[0]) {
            lemma_split_words_are_words(s.drop_first(), seq![], closed);
            assert(split_words(s, cur, done) == split_words(s.drop_first(), seq![], closed));
        } else {
            assert forall|j: int| 0 <= j < cur.push(s[0]).len() implies !is_white_space(
                #[trigger] cur.push(s[0])[j],
            ) by {
                if j < cur.len() {
                    assert(cur.push(s[0])[j] == cur[j]);
                }
            }
            lemma_split_words_are_words(s.drop_first(), cur.push(s[0]), done);
            assert(split_words(s, cur, done) == split_words(s.drop_first(), cur.push(s[0]), done));
        }
    }
}

/// Splitting on white space gives words: none is empty, none holds white space.
pub proof fn law_split_whitespace_gives_words(s: Seq<char>)
    ensures
        forall|i: int|
            0 <= i < split_whitespace_spec(s).len() ==> is_word(#[trigger] split_whitespace_spec(s)[i]),
{
    lemma_split_words_are_words(s, seq![], seq![]);
}

/// What `parse::<i32>` accepts is an optional sign and then decimal digits only.
pub proof fn law_parse_i32_accepts_only_digits(s: Seq<char>)
    ensures
        parse_i32_spec(s) is Ok ==> {
            let ds = if s[0] == '+' || s[0] == '-' { s.drop_first() } else { s };
            &&& ds.len() > 0
            &&& forall|j: int| 0 <= j < ds.len() ==> is_ascii_digit(#[trigger] ds[j])
        },
{
    if s.len() > 0 && !(s.len() == 1 && (s[0] == '+' || s[0] == '-')) {
        if s[0] == '+' || s[0] == '-' {
            lemma_accumulate_only_digits(s.drop_first(), 0, s[0] == '-');
        } else {
            lemma_accumulate_only_digits(s, 0, false);
        }
    }
}

proof fn lemma_accumulate_only_digits(ds: Seq<char>, acc: int, neg: bool)
    ensures
        accumulate_digits(ds, acc, neg) is Ok ==> forall|j: int|
            0 <= j < ds.len() ==> is_ascii_digit(#[trigger] ds[j]),
    decreases ds.len(),
{
    if ds.len() > 0 && is_ascii_digit(ds[0]) {
        let d = ds[0] as u32 - 48;
        let next = if neg { acc * 10 - d } else { acc * 10 + d };
        lemma_accumulate_only_digits(ds.drop_first(), next, neg);
        if accumulate_digits(ds, acc, neg) is Ok {
            assert forall|j: int| 0 <= j < ds.len() implies is_ascii_digit(#[trigger] ds[j]) by {
                if j > 0 {
                    assert(ds[j] == ds.drop_first()[j - 1]);
                }
            }
        }
    }
}

proof fn lemma_trim_start_props(s: Seq<char>)
    ensures
        non_white(trim_start_spec(s)) == non_white(s),
        trim_start_spec(s).len() > 0 ==> !is_white_space(trim_start_spec(s)[0]),
        trim_start_spec(s).len() <= s.len(),
        trim_start_spec(s) == s.skip(s.len() - trim_start_spec(s).len()),
    decreases s.len(),
{
    if s.len() > 0 && is_white_space(s[0]) {
        lemma_trim_start_props(s.drop_first());
        assert(s.drop_first().skip(s.drop_first().len() - trim_start_spec(s.drop_first()).len())
            == s.skip(s.len() - trim_start_spec(s).len()));
    } else {
        assert(s.skip(0) == s);
    }
}

proof fn lemma_trim_end_props(s: Seq<char>)
    ensures
        non_white(trim_end_spec(s)) == non_white(s),
        trim_end_spec(s).len() > 0 ==> !is_white_space(trim_end_spec(s).last()),
        trim_end_spec(s) == s.take(trim_end_spec(s).len() as int),
        trim_end_spec(s).len() <= s.len(),
    decreases s.len(),
{
    if s.len() > 0 && is_white_space(s.last()) {
        lemma_trim_end_props(s.drop_last());
        lemma_non_white_concat(s.drop_last(), seq![s.last()]);
        assert(s.drop_last() + seq![s.last()] == s);
        assert(seq![s.last()].drop_first() == Seq::<char>::empty());
        assert(seq![s.last()][0] == s.last());
        assert(non_white(seq![s.last()]) == non_white(Seq::<char>::empty()));
        assert(non_white(s.drop_last()) + Seq::<char>::empty() == non_white(s.drop_last()));
        assert(s.drop_last().take(trim_end_spec(s.drop_last()).len() as int) == s.take(
            trim_end_spec(s).len() as int,
        ));
    } else {
        assert(s.take(s.len() as int) == s);
    }
}

/// `trim` removes white space only, and only at the two ends: what is left
/// is a contiguous part of the text that neither starts nor ends with white
/// space, and it keeps every other character.
pub proof fn law_trim_removes_only_end_white_space(s: Seq<char>)
    ensures
        non_white(trim_spec(s)) == non_white(s),
        trim_spec(s).len() > 0 ==> !is_white_space(trim_spec(s)[0]) && !is_white_space(
            trim_spec(s).last(),
        ),
        exists|i: int, j: int| 0 <= i <= j <= s.len() && trim_spec(s) == s.subrange(i, j),
{
    let a = trim_start_spec(s);
    lemma_trim_start_props(s);
    lemma_trim_end_props(a);
    let t = trim_end_spec(a);
    let i = s.len() - a.len();
    assert(t == s.subrange(i, i + t.len()));
    if t.len() > 0 {
        assert(t[0] == a[0]);
    }
}

/// `k` copies of `pat`, one after another.
pub open spec fn repeat_chars(pat: Seq<char>, k: nat) -> Seq<char>
    decreases k,
{
    if k == 0 {
        seq![]
    } else {
        repeat_chars(pat, (k - 1) as nat) + pat
    }
}

/// `trim_end_matches` cuts only copies of the pattern off the end: the text
/// is what is left followed by some number of copies of the pattern, and what
/// is left no longer ends with the pattern.
pub proof fn law_trim_end_matches_cuts_whole_copies(s: Seq<char>, pat: Seq<char>)
    requires
        pat.len() > 0,
    ensures
        exists|k: nat| s == trim_end_matches_spec(s, pat) + repeat_chars(pat, k),
        !(pat.len() <= trim_end_matches_spec(s, pat).len() && trim_end_matches_spec(s, pat).subrange(
            trim_end_matches_spec(s, pat).len() - pat.len(),
            trim_end_matches_spec(s, pat).len() as int,
        ) == pat),
    decreases s.len(),
{
    let r = trim_end_matches_spec(s, pat);
    if pat.len() <= s.len() && s.subrange(s.len() - pat.len(), s.len() as int) == pat {
        let front = s.subrange(0, s.len() - pat.len());
        law_trim_end_matches_cuts_whole_copies(front, pat);
        assert(r == trim_end_matches_spec(front, pat));
        let k = choose|k: nat| front == r + repeat_chars(pat, k);
        assert(s == front + pat);
        assert(repeat_chars(pat, k + 1) == repeat_chars(pat, k) + pat);
        assert(s == r + repeat_chars(pat, k + 1));
    } else {
        assert(repeat_chars(pat, 0) == Seq::<char>::empty());
        assert(s == r + repeat_chars(pat, 0));
    }
}

/// What `str::to_lowercase` gives for a string: its Unicode lowercase mapping.
pub uninterp spec fn lowercase(s: Seq<char>) -> Seq<char>;

/// An ASCII capital letter as its small letter; any other character unchanged.
pub open spec fn ascii_lower_char(c: char) -> char {
    if 65 <= c as u32 <= 90 {
        ((c as u32) + 32) as char
    } else {
        c
    }
}

/// Each ASCII capital letter of `s` as its small letter (`str::to_ascii_lowercase`).
pub open spec fn ascii_lowercase(s: Seq<char>) -> Seq<char> {
    s.map_values(|c: char| ascii_lower_char(c))
}

/// The lowercase form of `s` (`str::to_lowercase`). Stated: the result
/// depends on the characters of `s` alone, and for ASCII text it is that
/// text with each capital letter `A`..`Z` made small. Left unsaid: the
/// Unicode lowercase mapping of other characters.
#[verifier::external_body]
pub(crate) fn to_lowercase(s: &str) -> (r: String)
    ensures
        r@ == lowercase(s@),
        is_ascii_chars(s@) ==> r@ == ascii_lowercase(s@),
{
    s.to_lowercase()
}

} // verus!
