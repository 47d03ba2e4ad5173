//! Rewriting the row number of cell references inside a formula.
//!
//! A reference token is one to three upper-case letters followed by the
//! decimal digits of a row number, standing as a word of its own. Finding
//! the tokens is `regex`'s work; this module builds the pattern, checks the
//! spans that come back, and splices the digits of the new row in place of
//! the old ones.

use regex::Regex;
use vstd::prelude::*;
use vstd::slice::slice_subrange;
use vstd::string::StringExecFns;
use vstd::utf8::decode_utf8;
use vstd::utf8::encode_utf8;
use vstd::utf8::encode_utf8_decode_utf8;
use vstd::utf8::encode_utf8_valid_utf8;
use vstd::utf8::is_char_boundary;
use vstd::utf8::is_char_boundary_iff_not_is_continuation_byte;
use vstd::utf8::is_char_boundary_start_end_of_seq;
use vstd::utf8::is_continuation_byte;
use vstd::utf8::is_leading_byte_width_1;
use vstd::utf8::length_of_first_scalar;
use vstd::utf8::partial_valid_utf8;
use vstd::utf8::partial_valid_utf8_extend_ascii_block;
use vstd::utf8::pop_first_scalar;
use vstd::utf8::valid_first_scalar;
use vstd::utf8::valid_utf8;
use vstd::utf8::valid_utf8_concat;
use vstd::utf8::valid_utf8_split;

verus! {

/// The decimal digits of `n` as ASCII bytes, most significant first.
pub open spec fn digits_of(n: nat) -> Seq<u8>
    decreases n,
{
    if n < 10 {
        seq![(48 + n) as u8]
    } else {
        digits_of(n / 10).push((48 + n % 10) as u8)
    }
}

/// The digits of `digits_of`, each as a character.
pub open spec fn digit_chars(digits: Seq<u8>) -> Seq<char> {
    Seq::new(digits.len(), |i: int| digits[i] as char)
}

/// The pattern of a reference token for row `row`: a word boundary, one to
/// three letters `A` to `Z`, the digits of `row`, a word boundary.
pub open spec fn row_pattern(row: u32) -> Seq<char> {
    "\\b([A-Z]{1,3})("@ + digit_chars(digits_of(row as nat)) + ")\\b"@
}

/// The spans, as byte offsets `(start, end)` into `text`, of the successive
/// matches that `regex` finds for `pattern` in `text`; `None` where `regex`
/// does not accept `pattern`.
pub uninterp spec fn found_spans(pattern: Seq<char>, text: Seq<char>) -> Option<
    Seq<(usize, usize)>,
>;

/// Spans that can be spliced: each lies inside the text, starts where the
/// one before it ended or later, and is longer than the `tail` bytes at its
/// end that are to be replaced.
pub open spec fn spans_apart(spans: Seq<(usize, usize)>, len: nat, tail: nat) -> bool {
    &&& forall|i: int|
        0 <= i < spans.len() ==> (#[trigger] spans[i]).0 + tail < spans[i].1 && spans[i].1 <= len
    &&& forall|i: int, j: int|
        0 <= i < j < spans.len() ==> (#[trigger] spans[i]).1 <= (#[trigger] spans[j]).0
}

/// A letter `A` to `Z`.
pub open spec fn is_letter(byte: u8) -> bool {
    65 <= byte <= 90
}

/// A byte that continues a word: an ASCII letter, a digit or `_`.
pub open spec fn is_word_byte(byte: u8) -> bool {
    ||| 48 <= byte <= 57
    ||| 65 <= byte <= 90
    ||| 97 <= byte <= 122
    ||| byte == 95
}

/// Whether `span` holds a reference token for the row whose digits are
/// `digits`: one to three letters `A` to `Z`, then the digits, with no word
/// byte just before the span or just after it.
pub open spec fn token_at(bytes: Seq<u8>, span: (usize, usize), digits: Seq<u8>) -> bool {
    let start = span.0 as int;
    let end = span.1 as int;
    let mid = end - digits.len();
    &&& start < mid <= start + 3
    &&& end <= bytes.len()
    &&& forall|i: int| start <= i < mid ==> is_letter(#[trigger] bytes[i])
    &&& bytes.subrange(mid, end) == digits
    &&& start > 0 ==> !is_word_byte(bytes[start - 1])
    &&& end < bytes.len() ==> !is_word_byte(bytes[end])
}

/// Whether every span holds a reference token.
pub open spec fn all_tokens(bytes: Seq<u8>, spans: Seq<(usize, usize)>, digits: Seq<u8>) -> bool {
    forall|i: int| 0 <= i < spans.len() ==> token_at(bytes, #[trigger] spans[i], digits)
}

/// Where the `n`-th span's unread text begins: at the end of the span before
/// it, or at the start of the text.
pub open spec fn span_start(spans: Seq<(usize, usize)>, n: int) -> int {
    if n <= 0 {
        0
    } else {
        spans[n - 1].1 as int
    }
}

/// The output after the first `n` spans: for each, the text since the span
/// before it up to the span's last `tail` bytes, then `digits`.
pub open spec fn spliced_upto(
    bytes: Seq<u8>,
    spans: Seq<(usize, usize)>,
    tail: nat,
    digits: Seq<u8>,
    n: int,
) -> Seq<u8>
    decreases n,
{
    if n <= 0 {
        Seq::empty()
    } else {
        spliced_upto(bytes, spans, tail, digits, n - 1) + bytes.subrange(
            span_start(spans, n - 1),
            spans[n - 1].1 - tail,
        ) + digits
    }
}

/// `bytes` with the last `tail` bytes of every span replaced by `digits`.
pub open spec fn spliced(
    bytes: Seq<u8>,
    spans: Seq<(usize, usize)>,
    tail: nat,
    digits: Seq<u8>,
) -> Seq<u8> {
    spliced_upto(bytes, spans, tail, digits, spans.len() as int) + bytes.subrange(
        span_start(spans, spans.len() as int),
        bytes.len() as int,
    )
}

/// The formula text with the reference tokens for `old_row` that the
/// matcher finds pointing at `new_row` instead: in each, the digits of
/// `old_row` give way to those of `new_row`, and the letters stay. Nothing
/// but a reference token for `old_row` is ever rewritten: the text comes
/// back unchanged where no token is found, and also where what the matcher
/// hands back are not such tokens, one after the other.
pub open spec fn adjusted(text: Seq<char>, old_row: u32, new_row: u32) -> Seq<char> {
    match found_spans(row_pattern(old_row), text) {
        Some(spans) => {
            let bytes = encode_utf8(text);
            let digits = digits_of(old_row as nat);
            if spans_apart(spans, bytes.len(), digits.len()) && all_tokens(bytes, spans, digits) {
                decode_utf8(spliced(bytes, spans, digits.len(), digits_of(new_row as nat)))
            } else {
                text
            }
        },
        None => text,
    }
}

/// Calls `Regex::new` and `Regex::find_iter`. The contract names what they
/// return and claims nothing else: the byte span of every successive match
/// of `pattern` in `text`, in the order found, or `None` where the pattern
/// is refused.
#[verifier::external_body]
fn match_spans(pattern: &str, text: &str) -> (spans: Option<Vec<(usize, usize)>>)
    ensures
        match spans {
            Some(found) => found_spans(pattern@, text@) == Some(found@),
            None => found_spans(pattern@, text@) is None,
        },
{
    match Regex::new(pattern) {
        Ok(re) => Some(re.find_iter(text).map(|m| (m.start(), m.end())).collect()),
        Err(_) => None,
    }
}

/// Calls `String::from_utf8`: the string whose bytes these are, where they
/// are valid UTF-8, and `None` where they are not.
#[verifier::external_body]
fn text_of(bytes: Vec<u8>) -> (text: Option<String>)
    ensures
        text is Some <==> valid_utf8(bytes@),
        text matches Some(t) ==> t@ == decode_utf8(bytes@),
{
    match String::from_utf8(bytes) {
        Ok(text) => Some(text),
        Err(_) => None,
    }
}

proof fn lemma_digits_len(n: nat)
    ensures
        1 <= digits_of(n).len() <= n + 1,
        forall|i: int| 0 <= i < digits_of(n).len() ==> 48 <= #[trigger] digits_of(n)[i] <= 57,
    decreases n,
{
    if n >= 10 {
        lemma_digits_len(n / 10);
    }
}

/// The decimal digits of `n`.
pub fn decimal_digits(n: u32) -> (out: Vec<u8>)
    ensures
        out@ == digits_of(n as nat),
    decreases n,
{
    if n < 10 {
        let mut out: Vec<u8> = Vec::new();
        out.push(48 + n as u8);
        assert(out@ =~= digits_of(n as nat));
        out
    } else {
        let mut out = decimal_digits(n / 10);
        out.push(48 + (n % 10) as u8);
        out
    }
}

/// One decimal digit as text.
fn digit_text(digit: u8) -> (text: &'static str)
    requires
        48 <= digit <= 57,
    ensures
        text@ == seq![digit as char],
{
    proof {
        reveal_strlit("0");
        reveal_strlit("1");
        reveal_strlit("2");
        reveal_strlit("3");
        reveal_strlit("4");
        reveal_strlit("5");
        reveal_strlit("6");
        reveal_strlit("7");
        reveal_strlit("8");
        reveal_strlit("9");
    }
    let text = if digit == 48 {
        "0"
    } else if digit == 49 {
        "1"
    } else if digit == 50 {
        "2"
    } else if digit == 51 {
        "3"
    } else if digit == 52 {
        "4"
    } else if digit == 53 {
        "5"
    } else if digit == 54 {
        "6"
    } else if digit == 55 {
        "7"
    } else if digit == 56 {
        "8"
    } else {
        "9"
    };
    assert(text@ =~= seq![digit as char]);
    text
}

/// The pattern that finds the reference tokens of row `row`.
pub fn token_pattern(row: u32) -> (pattern: String)
    ensures
        pattern@ == row_pattern(row),
{
    let digits = decimal_digits(row);
    proof {
        lemma_digits_len(row as nat);
    }
    let mut pattern = String::from_str("\\b([A-Z]{1,3})(");
    let mut i: usize = 0;
    while i < digits.len()
        invariant
            i <= digits.len(),
            digits@ == digits_of(row as nat),
            forall|k: int| 0 <= k < digits@.len() ==> 48 <= #[trigger] digits@[k] <= 57,
            pattern@ == "\\b([A-Z]{1,3})("@ + digit_chars(digits@.take(i as int)),
        decreases digits.len() - i,
    {
        pattern.append(digit_text(digits[i]));
        assert(digit_chars(digits@.take(i + 1)) =~= digit_chars(digits@.take(i as int))
            + seq![digits@[i as int] as char]);
        i = i + 1;
    }
    assert(digits@.take(i as int) =~= digits@);
    pattern.append(")\\b");
    pattern
}

/// Whether `spans` can be spliced into a text of `len` bytes.
pub fn spans_usable(spans: &Vec<(usize, usize)>, len: usize, tail: usize) -> (usable: bool)
    ensures
        usable == spans_apart(spans@, len as nat, tail as nat),
{
    let mut floor: usize = 0;
    let mut i: usize = 0;
    while i < spans.len()
        invariant
            i <= spans.len(),
            floor as int == span_start(spans@, i as int),
            floor <= len,
            spans_apart(spans@.take(i as int), len as nat, tail as nat),
        decreases spans.len() - i,
    {
        let (start, end) = spans[i];
        if start < floor || end > len || end < start || end - start <= tail {
            proof {
                if spans_apart(spans@, len as nat, tail as nat) {
                    if i > 0 {
                        assert(spans@[i - 1].1 <= spans@[i as int].0);
                    }
                    assert(spans@[i as int].0 + tail < spans@[i as int].1);
                }
            }
            return false;
        }
        proof {
            let before = spans@.take(i as int);
            let after = spans@.take(i + 1);
            assert forall|a: int, b: int| 0 <= a < b < after.len() implies (#[trigger] after[a]).1
                <= (#[trigger] after[b]).0 by {
                if b < i {
                    assert(before[a].1 <= before[b].0);
                } else if a + 1 < i {
                    assert(before[a].1 <= before[i - 1].0);
                    assert(before[i - 1].0 + tail < before[i - 1].1);
                } else if a + 1 == i {
                }
            }
            assert forall|a: int| 0 <= a < after.len() implies (#[trigger] after[a]).0 + tail
                < after[a].1 && after[a].1 <= len by {
                if a < i {
                    assert(before[a].0 + tail < before[a].1);
                }
            }
        }
        floor = end;
        i = i + 1;
    }
    assert(spans@.take(i as int) =~= spans@);
    true
}

/// Whether `bytes[start..end]` is a reference token for the row whose
/// digits are `digits`.
pub fn is_token(bytes: &[u8], start: usize, end: usize, digits: &[u8]) -> (token: bool)
    ensures
        token == token_at(bytes@, (start, end), digits@),
{
    let tail = digits.len();
    if end > bytes.len() || start > end || end - start <= tail || end - start - tail > 3 {
        return false;
    }
    let mid = end - tail;
    let mut i: usize = start;
    while i < mid
        invariant
            start <= i <= mid,
            mid == end - digits@.len(),
            end <= bytes@.len(),
            forall|k: int| start <= k < i ==> is_letter(#[trigger] bytes@[k]),
        decreases mid - i,
    {
        if bytes[i] < 65 || bytes[i] > 90 {
            assert(!is_letter(bytes@[i as int]));
            return false;
        }
        i = i + 1;
    }
    let mut j: usize = 0;
    while j < tail
        invariant
            j <= tail,
            tail == digits@.len(),
            mid + tail == end,
            end <= bytes@.len(),
            forall|k: int| 0 <= k < j ==> bytes@[mid + k] == #[trigger] digits@[k],
        decreases tail - j,
    {
        if bytes[mid + j] != digits[j] {
            proof {
                assert(bytes@.subrange(mid as int, end as int)[j as int] == bytes@[mid + j]);
            }
            return false;
        }
        j = j + 1;
    }
    assert(bytes@.subrange(mid as int, end as int) =~= digits@);
    if start > 0 && word_byte(bytes[start - 1]) {
        return false;
    }
    if end < bytes.len() && word_byte(bytes[end]) {
        return false;
    }
    true
}

/// Whether `byte` continues a word.
fn word_byte(byte: u8) -> (word: bool)
    ensures
        word == is_word_byte(byte),
{
    (48 <= byte && byte <= 57) || (65 <= byte && byte <= 90) || (97 <= byte && byte <= 122) || byte
        == 95
}

/// Whether every span holds a reference token for the row whose digits are
/// `digits`.
pub fn spans_are_tokens(bytes: &[u8], spans: &Vec<(usize, usize)>, digits: &[u8]) -> (tokens: bool)
    ensures
        tokens == all_tokens(bytes@, spans@, digits@),
{
    let mut i: usize = 0;
    while i < spans.len()
        invariant
            i <= spans.len(),
            forall|k: int| 0 <= k < i ==> token_at(bytes@, #[trigger] spans@[k], digits@),
        decreases spans.len() - i,
    {
        let (start, end) = spans[i];
        if !is_token(bytes, start, end, digits) {
            return false;
        }
        i = i + 1;
    }
    true
}

/// Replaces the last `tail` bytes of every span by `digits`.
pub fn rewrite_spans(bytes: &[u8], spans: &Vec<(usize, usize)>, tail: usize, digits: &[u8]) -> (out:
    Vec<u8>)
    requires
        spans_apart(spans@, bytes@.len(), tail as nat),
    ensures
        out@ == spliced(bytes@, spans@, tail as nat, digits@),
{
    let mut out: Vec<u8> = Vec::new();
    let mut from: usize = 0;
    let mut i: usize = 0;
    while i < spans.len()
        invariant
            i <= spans.len(),
            spans_apart(spans@, bytes@.len(), tail as nat),
            from as int == span_start(spans@, i as int),
            from <= bytes@.len(),
            out@ == spliced_upto(bytes@, spans@, tail as nat, digits@, i as int),
        decreases spans.len() - i,
    {
        let (start, end) = spans[i];
        proof {
            if i > 0 {
                assert(spans@[i - 1].1 <= spans@[i as int].0);
            }
            assert(spans@[i as int].0 + tail < spans@[i as int].1);
        }
        let ghost before = out@;
        let kept = slice_subrange(bytes, from, end - tail);
        out.extend_from_slice(kept);
        assert(out@ =~= before + bytes@.subrange(from as int, end - tail));
        let ghost middle = out@;
        out.extend_from_slice(digits);
        assert(out@ =~= middle + digits@);
        from = end;
        i = i + 1;
    }
    let ghost before = out@;
    let rest = slice_subrange(bytes, from, bytes.len());
    out.extend_from_slice(rest);
    assert(out@ =~= before + bytes@.subrange(from as int, bytes@.len() as int));
    out
}

/// In valid UTF-8, a character starts right after every ASCII byte.
proof fn lemma_after_ascii(bytes: Seq<u8>, i: int)
    requires
        valid_utf8(bytes),
        0 <= i < bytes.len(),
        bytes[i] <= 0x7f,
    ensures
        is_char_boundary(bytes, i + 1),
    decreases bytes.len(),
{
    reveal_with_fuel(is_char_boundary, 2);
    let width = length_of_first_scalar(bytes);
    let rest = pop_first_scalar(bytes);
    assert(valid_first_scalar(bytes));
    assert(valid_utf8(rest));
    assert(1 <= width <= 4 && width <= bytes.len());
    assert(rest.len() == bytes.len() - width);
    if i >= width {
        assert(rest[i - width] == bytes[i]);
        lemma_after_ascii(rest, i - width);
        assert(is_char_boundary(rest, i + 1 - width));
    } else if i > 0 {
        assert(is_continuation_byte(bytes[i]));
    } else {
        assert(width == 1);
        assert(is_char_boundary(rest, 0));
    }
}

/// Bytes that are all ASCII are valid UTF-8.
proof fn lemma_ascii_valid(bytes: Seq<u8>)
    requires
        forall|i: int| 0 <= i < bytes.len() ==> #[trigger] bytes[i] <= 0x7f,
    ensures
        valid_utf8(bytes),
{
    assert(bytes.subrange(0, 0) =~= Seq::<u8>::empty());
    assert(partial_valid_utf8(bytes, 0));
    assert forall|i: int| 0 <= 0 <= i < bytes.len() <= bytes.len() implies #[trigger]
        is_leading_byte_width_1(bytes[i]) by {
        assert(bytes[i] <= 0x7f);
    }
    partial_valid_utf8_extend_ascii_block(bytes, 0, bytes.len() as int);
    assert(bytes.subrange(0, bytes.len() as int) =~= bytes);
}

/// In valid UTF-8, the bytes between two places where a character starts
/// are valid UTF-8.
proof fn lemma_between_boundaries(bytes: Seq<u8>, from: int, to: int)
    requires
        valid_utf8(bytes),
        0 <= from <= to <= bytes.len(),
        is_char_boundary(bytes, from),
        is_char_boundary(bytes, to),
    ensures
        valid_utf8(bytes.subrange(from, to)),
{
    valid_utf8_split(bytes, from);
    let rest = bytes.subrange(from, bytes.len() as int);
    if to == bytes.len() {
        assert(bytes.subrange(from, to) =~= rest);
    } else {
        is_char_boundary_iff_not_is_continuation_byte(bytes, to);
        assert(rest[to - from] == bytes[to]);
        is_char_boundary_iff_not_is_continuation_byte(rest, to - from);
        valid_utf8_split(rest, to - from);
        assert(rest.subrange(0, to - from) =~= bytes.subrange(from, to));
    }
}

/// A character starts where a reference token's digits start and where the
/// token ends.
proof fn lemma_token_boundaries(bytes: Seq<u8>, span: (usize, usize), digits: Seq<u8>)
    requires
        valid_utf8(bytes),
        token_at(bytes, span, digits),
        digits.len() >= 1,
        forall|i: int| 0 <= i < digits.len() ==> 48 <= #[trigger] digits[i] <= 57,
    ensures
        is_char_boundary(bytes, span.1 - digits.len()),
        is_char_boundary(bytes, span.1 as int),
{
    let end = span.1 as int;
    let mid = end - digits.len();
    let held = bytes.subrange(mid, end);
    assert(held[0] == bytes[mid]);
    assert(48 <= digits[0] <= 57);
    is_char_boundary_iff_not_is_continuation_byte(bytes, mid);
    assert(held[digits.len() - 1] == bytes[end - 1]);
    assert(48 <= digits[digits.len() - 1] <= 57);
    lemma_after_ascii(bytes, end - 1);
}

/// Splicing ASCII digits into valid UTF-8 in place of the digits of
/// reference tokens gives valid UTF-8.
proof fn lemma_spliced_upto_valid(
    bytes: Seq<u8>,
    spans: Seq<(usize, usize)>,
    held: Seq<u8>,
    digits: Seq<u8>,
    n: int,
)
    requires
        valid_utf8(bytes),
        0 <= n <= spans.len(),
        spans_apart(spans, bytes.len(), held.len()),
        all_tokens(bytes, spans, held),
        held.len() >= 1,
        forall|i: int| 0 <= i < held.len() ==> 48 <= #[trigger] held[i] <= 57,
        forall|i: int| 0 <= i < digits.len() ==> #[trigger] digits[i] <= 0x7f,
    ensures
        valid_utf8(spliced_upto(bytes, spans, held.len(), digits, n)),
        is_char_boundary(bytes, span_start(spans, n)),
    decreases n,
{
    if n <= 0 {
        assert(spliced_upto(bytes, spans, held.len(), digits, n) =~= Seq::<u8>::empty());
    } else {
        lemma_spliced_upto_valid(bytes, spans, held, digits, n - 1);
        let from = span_start(spans, n - 1);
        let span = spans[n - 1];
        assert(token_at(bytes, span, held));
        if n >= 2 {
            assert(spans[n - 2].1 <= spans[n - 1].0);
        }
        lemma_token_boundaries(bytes, span, held);
        lemma_between_boundaries(bytes, from, span.1 - held.len());
        lemma_ascii_valid(digits);
        let before = spliced_upto(bytes, spans, held.len(), digits, n - 1);
        let kept = bytes.subrange(from, span.1 - held.len());
        valid_utf8_concat(before, kept);
        valid_utf8_concat(before + kept, digits);
    }
}

/// The whole of a spliced text is valid UTF-8.
proof fn lemma_spliced_valid(
    bytes: Seq<u8>,
    spans: Seq<(usize, usize)>,
    held: Seq<u8>,
    digits: Seq<u8>,
)
    requires
        valid_utf8(bytes),
        spans_apart(spans, bytes.len(), held.len()),
        all_tokens(bytes, spans, held),
        held.len() >= 1,
        forall|i: int| 0 <= i < held.len() ==> 48 <= #[trigger] held[i] <= 57,
        forall|i: int| 0 <= i < digits.len() ==> #[trigger] digits[i] <= 0x7f,
    ensures
        valid_utf8(spliced(bytes, spans, held.len(), digits)),
{
    let n = spans.len() as int;
    lemma_spliced_upto_valid(bytes, spans, held, digits, n);
    is_char_boundary_start_end_of_seq(bytes);
    if n > 0 {
        assert(spans[n - 1].1 <= bytes.len());
    }
    lemma_between_boundaries(bytes, span_start(spans, n), bytes.len() as int);
    valid_utf8_concat(
        spliced_upto(bytes, spans, held.len(), digits, n),
        bytes.subrange(span_start(spans, n), bytes.len() as int),
    );
}

/// Rewrites, in `formula`, every reference token whose row is `old_row` so
/// that it names `new_row`, and leaves the rest of the text as it is.
pub fn adjust_formula_references(formula: &str, old_row: u32, new_row: u32) -> (out: String)
    ensures
        out@ == adjusted(formula@, old_row, new_row),
{
    let pattern = token_pattern(old_row);
    let old_digits = decimal_digits(old_row);
    let new_digits = decimal_digits(new_row);
    let bytes = formula.as_bytes();
    match match_spans(pattern.as_str(), formula) {
        Some(spans) => {
            if spans_usable(&spans, bytes.len(), old_digits.len()) && spans_are_tokens(
                bytes,
                &spans,
                old_digits.as_slice(),
            ) {
                let out = rewrite_spans(bytes, &spans, old_digits.len(), new_digits.as_slice());
                proof {
                    lemma_digits_len(old_row as nat);
                    lemma_digits_len(new_row as nat);
                    encode_utf8_valid_utf8(formula@);
                    lemma_spliced_valid(bytes@, spans@, old_digits@, new_digits@);
                }
                match text_of(out) {
                    Some(text) => text,
                    None => formula.to_owned(),
                }
            } else {
                formula.to_owned()
            }
        },
        None => formula.to_owned(),
    }
}

proof fn lemma_spliced_upto_same(
    bytes: Seq<u8>,
    spans: Seq<(usize, usize)>,
    digits: Seq<u8>,
    n: int,
)
    requires
        0 <= n <= spans.len(),
        spans_apart(spans, bytes.len(), digits.len()),
        all_tokens(bytes, spans, digits),
    ensures
        spliced_upto(bytes, spans, digits.len(), digits, n) == bytes.subrange(
            0,
            span_start(spans, n),
        ),
    decreases n,
{
    if n <= 0 {
        assert(bytes.subrange(0, 0) =~= Seq::<u8>::empty());
    } else {
        lemma_spliced_upto_same(bytes, spans, digits, n - 1);
        let from = span_start(spans, n - 1);
        let end = spans[n - 1].1 as int;
        let mid = end - digits.len();
        assert(token_at(bytes, spans[n - 1], digits));
        if n >= 2 {
            assert(spans[n - 2].1 <= spans[n - 1].0);
        }
        assert(bytes.subrange(0, from) + bytes.subrange(from, mid) + bytes.subrange(mid, end)
            =~= bytes.subrange(0, end));
    }
}

/// A formula in which the matcher finds no token comes back as it is.
pub proof fn law_no_token_no_change(text: Seq<char>, old_row: u32, new_row: u32)
    requires
        found_spans(row_pattern(old_row), text) matches Some(spans) ==> spans.len() == 0,
    ensures
        adjusted(text, old_row, new_row) == text,
{
    let bytes = encode_utf8(text);
    if found_spans(row_pattern(old_row), text) is Some {
        let spans = found_spans(row_pattern(old_row), text)->0;
        let tail = digits_of(old_row as nat).len();
        assert(spliced(bytes, spans, tail, digits_of(new_row as nat)) =~= bytes);
        encode_utf8_decode_utf8(text);
    }
}

/// Rewriting a row's references to the row itself changes nothing.
pub proof fn law_same_row_no_change(text: Seq<char>, row: u32)
    ensures
        adjusted(text, row, row) == text,
{
    let bytes = encode_utf8(text);
    let digits = digits_of(row as nat);
    if found_spans(row_pattern(row), text) is Some {
        let spans = found_spans(row_pattern(row), text)->0;
        if spans_apart(spans, bytes.len(), digits.len()) && all_tokens(bytes, spans, digits) {
            let n = spans.len() as int;
            lemma_spliced_upto_same(bytes, spans, digits, n);
            if n > 0 {
                assert(spans[n - 1].1 <= bytes.len());
            }
            assert(spliced(bytes, spans, digits.len(), digits) =~= bytes);
            encode_utf8_decode_utf8(text);
        }
    }
}

} // verus!
