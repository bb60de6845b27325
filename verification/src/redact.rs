//! Redaction of numeric identifiers: ten digits written as three, three and
//! four with blanks between, and isolated runs of exactly ten digits.

use vstd::prelude::*;
use vstd::utf8::{
    decode_utf8, encode_utf8, encode_utf8_decode_utf8, encode_utf8_valid_utf8, is_char_boundary,
    is_char_boundary_start_end_of_seq, length_of_first_scalar, pop_first_scalar, valid_utf8,
};

verus! {

/// The text with every match of the pattern replaced, or `None` where the
/// pattern is not one the regex engine accepts.
pub uninterp spec fn regex_replaced(
    pattern: Seq<char>,
    haystack: Seq<char>,
    replacement: Seq<char>,
) -> Option<Seq<char>>;

/// The byte ranges of the successive matches of the pattern in the text, or
/// `None` where the pattern is not one the regex engine accepts.
pub uninterp spec fn regex_matches(pattern: Seq<char>, haystack: Seq<char>) -> Option<
    Seq<(usize, usize)>,
>;

/// Whether the ranges lie within `bytes`, on character boundaries, one
/// after another without overlap.
pub open spec fn spans_well_formed(bytes: Seq<u8>, spans: Seq<(usize, usize)>) -> bool {
    forall|k: int|
        0 <= k < spans.len() ==> {
            &&& (#[trigger] spans[k]).0 <= spans[k].1 <= bytes.len()
            &&& is_char_boundary(bytes, spans[k].0 as int)
            &&& is_char_boundary(bytes, spans[k].1 as int)
            &&& (k > 0 ==> spans[k - 1].1 <= spans[k].0)
        }
}

/// `regex::Regex::new` and `Regex::replace_all`: compiles the pattern and
/// replaces every non-overlapping match in the text. `None` when the pattern
/// does not compile. The outcome depends on the three texts alone.
#[verifier::external_body]
fn regex_replace_all(pattern: &str, text: &str, replacement: &str) -> (r: Option<String>)
    ensures
        match r {
            Some(s) => regex_replaced(pattern@, text@, replacement@) == Some(s@),
            None => regex_replaced(pattern@, text@, replacement@) is None,
        },
{
    let regex = regex::Regex::new(pattern).ok()?;
    Some(regex.replace_all(text, replacement).into_owned())
}

/// `regex::Regex::new` and `Regex::find_iter`: compiles the pattern and finds
/// the successive non-overlapping matches in the text, each as its start and
/// end byte offset. `None` when the pattern does not compile. Every match has
/// `start <= end`, both on character boundaries of the text, and begins no
/// earlier than the one before it ends.
#[verifier::external_body]
fn regex_find_spans(pattern: &str, text: &str) -> (r: Option<Vec<(usize, usize)>>)
    ensures
        match r {
            Some(spans) => regex_matches(pattern@, text@) == Some(spans@) && spans_well_formed(
                encode_utf8(text@),
                spans@,
            ),
            None => regex_matches(pattern@, text@) is None,
        },
{
    let regex = regex::Regex::new(pattern).ok()?;
    Some(regex.find_iter(text).map(|m| (m.start(), m.end())).collect())
}

/// What takes the place of a redacted identifier.
pub open spec fn marker() -> Seq<char> {
    "[REDACTED]"@
}

/// Three digits, blanks, three digits, blanks, four digits.
pub open spec fn spaced_pattern() -> Seq<char> {
    "\\d{3}\\s+\\d{3}\\s+\\d{4}"@
}

/// Ten digits in a row.
pub open spec fn ten_digit_pattern() -> Seq<char> {
    "\\d{10}"@
}

/// Whether the byte is one of `0` to `9`.
pub open spec fn is_digit_byte(b: u8) -> bool {
    0x30 <= b <= 0x39
}

/// Whether the range touches no digit on either side.
pub open spec fn is_isolated(bytes: Seq<u8>, span: (usize, usize)) -> bool {
    &&& (span.0 == 0 || !is_digit_byte(bytes[span.0 - 1]))
    &&& (span.1 >= bytes.len() || !is_digit_byte(bytes[span.1 as int]))
}

/// Where the text between ranges resumes after the given ranges.
pub open spec fn resume_at(spans: Seq<(usize, usize)>) -> int {
    if spans.len() == 0 {
        0
    } else {
        spans.last().1 as int
    }
}

/// The output up to the end of the last of the given ranges: the text
/// between ranges as it is, each isolated range replaced by `mark`, every
/// other range as it is.
pub open spec fn spliced_through(bytes: Seq<u8>, spans: Seq<(usize, usize)>, mark: Seq<u8>) -> Seq<
    u8,
>
    decreases spans.len(),
{
    if spans.len() == 0 {
        Seq::empty()
    } else {
        let last = spans.last();
        spliced_through(bytes, spans.drop_last(), mark) + bytes.subrange(
            resume_at(spans.drop_last()),
            last.0 as int,
        ) + if is_isolated(bytes, last) {
            mark
        } else {
            bytes.subrange(last.0 as int, last.1 as int)
        }
    }
}

/// The whole output: as `spliced_through`, then the rest of the text.
pub open spec fn spliced(bytes: Seq<u8>, spans: Seq<(usize, usize)>, mark: Seq<u8>) -> Seq<u8> {
    spliced_through(bytes, spans, mark) + bytes.subrange(resume_at(spans), bytes.len() as int)
}

/// The text with each isolated range replaced by the marker.
pub open spec fn isolated_runs_redacted(text: Seq<char>, spans: Seq<(usize, usize)>) -> Seq<char> {
    decode_utf8(spliced(encode_utf8(text), spans, encode_utf8(marker())))
}

/// The redacted form of a text. The spaced form is replaced first; in the
/// result, every match of ten digits that touches no further digit is
/// replaced. Should the regex engine reject a pattern, the whole text is
/// withheld: the result is the marker alone.
pub open spec fn redacted(text: Seq<char>) -> Seq<char> {
    match regex_replaced(spaced_pattern(), text, marker()) {
        Some(first) => match regex_matches(ten_digit_pattern(), first) {
            Some(spans) => isolated_runs_redacted(first, spans),
            None => marker(),
        },
        None => marker(),
    }
}

/// Encoding distributes over concatenation.
pub proof fn lemma_encode_concat(a: Seq<char>, b: Seq<char>)
    ensures
        encode_utf8(a + b) == encode_utf8(a) + encode_utf8(b),
    decreases a.len(),
{
    if a.len() == 0 {
        assert(a + b =~= b);
        assert(encode_utf8(a) + encode_utf8(b) =~= encode_utf8(b));
    } else {
        assert((a + b).drop_first() =~= a.drop_first() + b);
        lemma_encode_concat(a.drop_first(), b);
        assert(encode_utf8(a + b) =~= encode_utf8(a) + encode_utf8(b));
    }
}

/// A boundary of the text at or after another boundary is a boundary of the
/// text that starts there.
proof fn lemma_boundary_in_suffix(bytes: Seq<u8>, a: int, b: int)
    requires
        valid_utf8(bytes),
        is_char_boundary(bytes, a),
        is_char_boundary(bytes, b),
        0 <= a <= b,
    ensures
        valid_utf8(bytes.subrange(a, bytes.len() as int)),
        is_char_boundary(bytes.subrange(a, bytes.len() as int), b - a),
    decreases bytes.len(),
{
    if a == 0 {
        assert(bytes.subrange(0, bytes.len() as int) =~= bytes);
    } else {
        let first = length_of_first_scalar(bytes);
        let rest = pop_first_scalar(bytes);
        reveal_with_fuel(is_char_boundary, 2);
        assert(is_char_boundary(rest, a - first));
        assert(is_char_boundary(rest, b - first));
        assert(0 <= a - first);
        assert(1 <= first <= bytes.len());
        lemma_boundary_in_suffix(rest, a - first, b - first);
        assert(rest.subrange(a - first, rest.len() as int) =~= bytes.subrange(
            a,
            bytes.len() as int,
        ));
    }
}

/// The part of the text between two byte offsets.
pub fn slice_str<'a>(text: &'a str, from: usize, to: usize) -> (piece: &'a str)
    requires
        from <= to <= encode_utf8(text@).len(),
        is_char_boundary(encode_utf8(text@), from as int),
        is_char_boundary(encode_utf8(text@), to as int),
    ensures
        encode_utf8(piece@) == encode_utf8(text@).subrange(from as int, to as int),
{
    proof {
        encode_utf8_valid_utf8(text@);
        lemma_boundary_in_suffix(encode_utf8(text@), from as int, to as int);
    }
    let (_, tail) = text.split_at(from);
    let (piece, _) = tail.split_at(to - from);
    assert(encode_utf8(piece@) =~= encode_utf8(text@).subrange(from as int, to as int));
    piece
}

/// Replaces each of the given ranges that touches no digit on either side by
/// the marker; everything else is kept.
pub fn redact_isolated_runs(text: &str, spans: &Vec<(usize, usize)>) -> (r: String)
    requires
        spans_well_formed(encode_utf8(text@), spans@),
    ensures
        r@ == isolated_runs_redacted(text@, spans@),
        encode_utf8(r@) == spliced(encode_utf8(text@), spans@, encode_utf8(marker())),
{
    let bytes = text.as_bytes();
    let ghost mark = encode_utf8(marker());
    let mut out = String::new();
    let mut last_end: usize = 0;
    let mut k: usize = 0;
    proof {
        encode_utf8_valid_utf8(text@);
        is_char_boundary_start_end_of_seq(encode_utf8(text@));
        assert(spans@.take(0) =~= Seq::<(usize, usize)>::empty());
    }
    while k < spans.len()
        invariant
            k <= spans.len(),
            bytes@ == encode_utf8(text@),
            mark == encode_utf8(marker()),
            spans_well_formed(bytes@, spans@),
            last_end == resume_at(spans@.take(k as int)),
            last_end <= bytes@.len(),
            is_char_boundary(bytes@, last_end as int),
            encode_utf8(out@) == spliced_through(bytes@, spans@.take(k as int), mark),
        decreases spans.len() - k,
    {
        let (start, end) = spans[k];
        proof {
            let now = spans@.take(k + 1);
            assert(now.drop_last() =~= spans@.take(k as int));
            assert(now.last() == spans@[k as int]);
            if k > 0 {
                assert(spans@.take(k as int).last() == spans@[k - 1]);
            }
        }
        let before_ok = start == 0 || !(bytes[start - 1] >= 0x30 && bytes[start - 1] <= 0x39);
        let after_ok = end >= bytes.len() || !(bytes[end] >= 0x30 && bytes[end] <= 0x39);
        let ghost so_far = out@;
        let gap = slice_str(text, last_end, start);
        out.append(gap);
        proof {
            lemma_encode_concat(so_far, gap@);
        }
        let ghost with_gap = out@;
        if before_ok && after_ok {
            out.append("[REDACTED]");
            proof {
                lemma_encode_concat(with_gap, marker());
            }
        } else {
            let kept = slice_str(text, start, end);
            out.append(kept);
            proof {
                lemma_encode_concat(with_gap, kept@);
            }
        }
        last_end = end;
        k += 1;
    }
    proof {
        assert(spans@.take(spans.len() as int) =~= spans@);
    }
    let ghost so_far = out@;
    let rest = slice_str(text, last_end, bytes.len());
    out.append(rest);
    proof {
        lemma_encode_concat(so_far, rest@);
        encode_utf8_decode_utf8(out@);
    }
    out
}

/// Removes numeric identifiers from a text.
///
/// First every occurrence of three digits, blanks, three digits, blanks and
/// four digits is replaced by the marker. Then, in the result, every match of
/// ten digits in a row that has no digit directly before or after it is
/// replaced; a match inside a longer run of digits stays. Should the regex
/// engine reject a pattern, the result is the marker alone.
pub fn redact_nhs_numbers(text: &str) -> (r: String)
    ensures
        r@ == redacted(text@),
{
    let first = match regex_replace_all("\\d{3}\\s+\\d{3}\\s+\\d{4}", text, "[REDACTED]") {
        Some(replaced) => replaced,
        None => {
            return "[REDACTED]".to_owned();
        },
    };
    match regex_find_spans("\\d{10}", first.as_str()) {
        Some(spans) => redact_isolated_runs(first.as_str(), &spans),
        None => "[REDACTED]".to_owned(),
    }
}

} // verus!
