//! Splitting a decompressed text blob into candidate JSON-object texts.
//!
//! The splitter finds the runs of control bytes with a regular expression,
//! cuts the blob at every such run and keeps the pieces that hold an opening
//! brace. It does not parse JSON.

use crate::fragments::{
    has_brace, is_plain, lemma_fragments_hold_brace, message_fragments, pieces, text_views,
};
use crate::segments::{
    is_control_run, lemma_boundary_after_ascii, lemma_segments_of_text,
    lemma_segments_skip_controls, lemma_text_run_exact, lists_control_runs, segments,
    segments_from,
};
use regex::Regex;
use vstd::prelude::*;
use vstd::utf8::{
    decode_utf8, encode_utf8, encode_utf8_decode_utf8, encode_utf8_valid_utf8,
    is_char_boundary_iff_not_is_continuation_byte,
};

verus! {

/// The separator between texts as a regular expression: one or more bytes
/// from 0x00 to 0x1f.
pub const SEPARATOR_PATTERN: &'static str = "[\\x00-\\x1f]+";

/// Calls `regex::Regex::new` on the separator pattern, which compiles, and
/// `regex::Regex::find_iter` on `text`, and hands back the byte range of each
/// match. The pattern is one or more bytes from 0x00 to 0x1f, matched
/// greedily: the successive matches that do not overlap are the maximal runs
/// of control bytes in the UTF-8 form of `text`, from left to right.
#[verifier::external_body]
fn control_runs(pattern: &str, text: &str) -> (runs: Vec<(usize, usize)>)
    requires
        pattern@ == SEPARATOR_PATTERN@,
    ensures
        lists_control_runs(encode_utf8(text@), runs@),
{
    let separator = Regex::new(pattern).unwrap();
    separator.find_iter(text).map(|found| (found.start(), found.end())).collect()
}

/// Cuts `text` at the listed runs of control bytes and keeps the pieces
/// between them, in order, leaving out the empty ones.
fn reg_split(text: &str, runs: &Vec<(usize, usize)>) -> (parts: Vec<String>)
    requires
        lists_control_runs(encode_utf8(text@), runs@),
    ensures
        text_views(parts@) == pieces(text@),
{
    let ghost bytes = encode_utf8(text@);
    let n = text.as_bytes().len();
    let mut parts: Vec<String> = Vec::new();
    let mut rest: &str = text;
    let mut last: usize = 0;
    let mut k: usize = 0;
    while k < runs.len()
        invariant
            lists_control_runs(bytes, runs@),
            bytes == encode_utf8(text@),
            n == bytes.len(),
            k <= runs.len(),
            last <= n,
            k == 0 ==> last == 0,
            k > 0 ==> last == runs[k - 1].1,
            encode_utf8(rest@) == bytes.subrange(last as int, n as int),
            parts@.map_values(|part: String| encode_utf8(part@)) + segments_from(
                bytes,
                last as int,
            ) == segments(bytes),
        decreases runs.len() - k,
    {
        let (start, end) = runs[k];
        proof {
            // A run starts with a control byte, where a character starts.
            assert(is_control_run(bytes, start as int, end as int));
            encode_utf8_valid_utf8(rest@);
            is_char_boundary_iff_not_is_continuation_byte(
                bytes.subrange(last as int, n as int),
                start - last,
            );
        }
        let (head, tail) = rest.split_at(start - last);
        proof {
            // A run ends with a control byte, after which a character starts.
            assert(encode_utf8(head@) =~= bytes.subrange(last as int, start as int));
            assert(encode_utf8(tail@) =~= bytes.subrange(start as int, n as int));
            encode_utf8_valid_utf8(tail@);
            lemma_boundary_after_ascii(bytes.subrange(start as int, n as int), end - 1 - start);
        }
        let (_, after) = tail.split_at(end - start);
        proof {
            // What lies between the last run and this one is text.
            lemma_text_run_exact(bytes, last as int, start as int);
            lemma_segments_skip_controls(bytes, start as int, end as int);
        }
        if last < start {
            parts.push(head.to_owned());
        }
        rest = after;
        last = end;
        k += 1;
    }
    proof {
        // What lies after the last run is text.
        lemma_text_run_exact(bytes, last as int, n as int);
        assert(segments_from(bytes, n as int) =~= Seq::<Seq<u8>>::empty());
    }
    if last < n {
        parts.push(rest.to_owned());
    }
    proof {
        let decoded = segments(bytes).map_values(|segment: Seq<u8>| decode_utf8(segment));
        assert forall|i: int| 0 <= i < parts@.len() implies #[trigger] text_views(parts@)[i]
            == decoded[i] by {
            encode_utf8_decode_utf8(parts@[i]@);
        }
        lemma_segments_of_text(text@);
    }
    parts
}

/// Tells whether `text` holds an opening brace.
pub fn holds_brace(text: &str) -> (found: bool)
    ensures
        found == has_brace(text@),
{
    let mut found = false;
    for c in it: text.chars()
        invariant
            it.seq() == text@,
            found <==> exists|j: int| 0 <= j < it.index() && text@[j] == '{',
    {
        if c == '{' {
            found = true;
        }
    }
    found
}

/// Splits `text` at every maximal run of control characters and hands out,
/// in their order, the pieces that hold an opening brace.
pub fn split_messages(text: &str) -> (fragments: Vec<String>)
    ensures
        text_views(fragments@) == message_fragments(text@),
        forall|i: int|
            0 <= i < fragments@.len() ==> has_brace(#[trigger] fragments@[i]@) && is_plain(
                fragments@[i]@,
            ),
{
    proof {
        lemma_fragments_hold_brace(text@);
    }
    let runs = control_runs(SEPARATOR_PATTERN, text);
    let parts = reg_split(text, &runs);
    let ghost keep = |piece: Seq<char>| has_brace(piece);
    let mut fragments: Vec<String> = Vec::new();
    let mut i: usize = 0;
    while i < parts.len()
        invariant
            i <= parts.len(),
            keep == |piece: Seq<char>| has_brace(piece),
            text_views(fragments@) == text_views(parts@.take(i as int)).filter(keep),
        decreases parts.len() - i,
    {
        proof {
            let seen = text_views(parts@.take(i as int));
            seen.lemma_filter_push(parts@[i as int]@, keep);
            assert(text_views(parts@.take(i + 1)) =~= seen.push(parts@[i as int]@));
        }
        if holds_brace(parts[i].as_str()) {
            fragments.push(parts[i].clone());
        }
        i += 1;
    }
    proof {
        assert(parts@.take(parts@.len() as int) =~= parts@);
        assert forall|i: int| 0 <= i < fragments@.len() implies has_brace(
            #[trigger] fragments@[i]@,
        ) && is_plain(fragments@[i]@) by {
            assert(fragments@[i]@ == message_fragments(text@)[i]);
        }
    }
    fragments
}

} // verus!
