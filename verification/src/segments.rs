//! The pieces of a text in its UTF-8 form.
//!
//! The separators are ASCII control bytes, and the matcher reports them by
//! their place among the bytes of the text. This module says what the runs of
//! such bytes are, what lies between them, and proves that cutting the bytes
//! at those runs gives the same pieces as cutting the text at its runs of
//! control characters.

use crate::fragments::{is_control_char, lemma_plain_run, pieces, pieces_from, plain_run};
use vstd::prelude::*;
use vstd::utf8::{
    decode_utf8, encode_scalar, encode_utf8, encode_utf8_decode_utf8, is_char_boundary,
    length_of_first_scalar, pop_first_scalar, valid_utf8,
};

verus! {

/// Whether `byte` is an ASCII control byte, which separates texts.
pub open spec fn is_control(byte: u8) -> bool {
    byte <= 0x1f
}

/// The number of bytes from `from` on before the next control byte or the end.
pub open spec fn text_run(bytes: Seq<u8>, from: int) -> nat
    decreases bytes.len() - from,
{
    if 0 <= from < bytes.len() && !is_control(bytes[from]) {
        1 + text_run(bytes, from + 1)
    } else {
        0
    }
}

/// A run of text ends inside `bytes`, and every byte of it is text.
pub proof fn lemma_text_run(bytes: Seq<u8>, from: int)
    requires
        0 <= from <= bytes.len(),
    ensures
        from + text_run(bytes, from) <= bytes.len(),
        forall|i: int|
            from <= i < from + text_run(bytes, from) ==> !is_control(#[trigger] bytes[i]),
        from + text_run(bytes, from) < bytes.len() ==> is_control(
            bytes[from + text_run(bytes, from)],
        ),
    decreases bytes.len() - from,
{
    if from < bytes.len() && !is_control(bytes[from]) {
        lemma_text_run(bytes, from + 1);
    }
}

/// The maximal runs of bytes other than control bytes that `bytes` holds from
/// `from` on, in their order.
pub open spec fn segments_from(bytes: Seq<u8>, from: int) -> Seq<Seq<u8>>
    decreases bytes.len() - from,
    via segments_from_decreases
{
    if from < 0 || from >= bytes.len() {
        Seq::empty()
    } else if is_control(bytes[from]) {
        segments_from(bytes, from + 1)
    } else {
        let end = from + text_run(bytes, from);
        seq![bytes.subrange(from, end)] + segments_from(bytes, end)
    }
}

#[via_fn]
proof fn segments_from_decreases(bytes: Seq<u8>, from: int) {
    if 0 <= from < bytes.len() {
        lemma_text_run(bytes, from);
    }
}

/// What is left of `bytes` when it is cut at every maximal run of control
/// bytes and the empty pieces are dropped.
pub open spec fn segments(bytes: Seq<u8>) -> Seq<Seq<u8>> {
    segments_from(bytes, 0)
}

/// Whether `start..end` is a maximal run of control bytes in `bytes`.
pub open spec fn is_control_run(bytes: Seq<u8>, start: int, end: int) -> bool {
    &&& 0 <= start < end <= bytes.len()
    &&& forall|i: int| start <= i < end ==> is_control(#[trigger] bytes[i])
    &&& (start > 0 ==> !is_control(bytes[start - 1]))
    &&& (end < bytes.len() ==> !is_control(bytes[end]))
}

/// Whether `runs` lists every maximal run of control bytes in `bytes`, each
/// once and in rising order.
pub open spec fn lists_control_runs(bytes: Seq<u8>, runs: Seq<(usize, usize)>) -> bool {
    &&& forall|k: int|
        0 <= k < runs.len() ==> is_control_run(
            bytes,
            (#[trigger] runs[k]).0 as int,
            runs[k].1 as int,
        )
    &&& forall|j: int, k: int|
        0 <= j < k < runs.len() ==> (#[trigger] runs[j]).1 < (#[trigger] runs[k]).0
    &&& forall|i: int|
        0 <= i < bytes.len() && is_control(#[trigger] bytes[i]) ==> exists|k: int|
            0 <= k < runs.len() && (#[trigger] runs[k]).0 <= i < runs[k].1
}

/// In valid UTF-8 a character starts right after every ASCII byte.
pub proof fn lemma_boundary_after_ascii(bytes: Seq<u8>, index: int)
    requires
        valid_utf8(bytes),
        0 <= index < bytes.len(),
        bytes[index] <= 0x7f,
    ensures
        is_char_boundary(bytes, index + 1),
    decreases bytes.len(),
{
    reveal_with_fuel(is_char_boundary, 2);
    let first = length_of_first_scalar(bytes);
    if index >= first {
        lemma_boundary_after_ascii(pop_first_scalar(bytes), index - first);
    } else {
        // An ASCII byte is no continuation byte: it is the whole first
        // character, and the next one starts right after it.
        assert(index == 0 && first == 1);
    }
}

/// A stretch of text that ends at a control byte or at the end is one run.
pub proof fn lemma_text_run_exact(bytes: Seq<u8>, from: int, to: int)
    requires
        0 <= from <= to <= bytes.len(),
        forall|i: int| from <= i < to ==> !is_control(#[trigger] bytes[i]),
        to < bytes.len() ==> is_control(bytes[to]),
    ensures
        text_run(bytes, from) == to - from,
    decreases to - from,
{
    if from < to {
        lemma_text_run_exact(bytes, from + 1, to);
    }
}

/// Control bytes in front hold no segment.
pub proof fn lemma_segments_skip_controls(bytes: Seq<u8>, from: int, to: int)
    requires
        0 <= from <= to <= bytes.len(),
        forall|i: int| from <= i < to ==> is_control(#[trigger] bytes[i]),
    ensures
        segments_from(bytes, from) == segments_from(bytes, to),
    decreases to - from,
{
    if from < to {
        lemma_segments_skip_controls(bytes, from + 1, to);
    }
}

/// The UTF-8 form of a text is that of its parts, one after the other.
pub proof fn lemma_encode_concat(a: Seq<char>, b: Seq<char>)
    ensures
        encode_utf8(a + b) == encode_utf8(a) + encode_utf8(b),
    decreases a.len(),
{
    if a.len() > 0 {
        lemma_encode_concat(a.drop_first(), b);
        assert((a + b).drop_first() =~= a.drop_first() + b);
    }
}

/// A control character is one byte in UTF-8, a control byte; the bytes of
/// any other character are no control bytes.
pub proof fn lemma_encode_char(c: char)
    ensures
        is_control_char(c) ==> encode_scalar(c as u32).len() == 1 && is_control(
            encode_scalar(c as u32)[0],
        ),
        !is_control_char(c) ==> encode_scalar(c as u32).len() >= 1 && forall|i: int|
            0 <= i < encode_scalar(c as u32).len() ==> !is_control(
                #[trigger] encode_scalar(c as u32)[i],
            ),
{
    let s = c as u32;
    assert(s <= 0x7f ==> (s & 0x7f) as u8 == s) by (bit_vector);
    assert((0xC0u8 | ((s >> 6) & 0x1F) as u8) >= 0xC0) by (bit_vector);
    assert((0xE0u8 | ((s >> 12) & 0x0F) as u8) >= 0xE0) by (bit_vector);
    assert((0xF0u8 | ((s >> 18) & 0x7) as u8) >= 0xF0) by (bit_vector);
    assert((0x80u8 | (s & 0x3F) as u8) >= 0x80) by (bit_vector);
    assert((0x80u8 | ((s >> 6) & 0x3F) as u8) >= 0x80) by (bit_vector);
    assert((0x80u8 | ((s >> 12) & 0x3F) as u8) >= 0x80) by (bit_vector);
}

/// A text without control characters has no control byte in UTF-8.
pub proof fn lemma_encode_plain(text: Seq<char>)
    requires
        forall|i: int| 0 <= i < text.len() ==> !is_control_char(#[trigger] text[i]),
    ensures
        forall|i: int|
            0 <= i < encode_utf8(text).len() ==> !is_control(#[trigger] encode_utf8(text)[i]),
    decreases text.len(),
{
    if text.len() > 0 {
        lemma_encode_char(text[0]);
        lemma_encode_plain(text.drop_first());
        assert(encode_utf8(text) == encode_scalar(text[0] as u32) + encode_utf8(
            text.drop_first(),
        ));
    }
}

/// What stands in front of the place where a run of text is counted from
/// does not matter.
pub proof fn lemma_text_run_shift(front: Seq<u8>, bytes: Seq<u8>, from: int)
    requires
        0 <= from,
    ensures
        text_run(front + bytes, front.len() + from) == text_run(bytes, from),
    decreases bytes.len() - from,
{
    if from < bytes.len() && !is_control(bytes[from]) {
        lemma_text_run_shift(front, bytes, from + 1);
    }
}

/// What stands in front of the place where segments are taken from does not
/// matter.
pub proof fn lemma_segments_shift(front: Seq<u8>, bytes: Seq<u8>, from: int)
    requires
        0 <= from,
    ensures
        segments_from(front + bytes, front.len() + from) == segments_from(bytes, from),
    decreases bytes.len() - from,
{
    if from < bytes.len() {
        if is_control(bytes[from]) {
            lemma_segments_shift(front, bytes, from + 1);
        } else {
            let end = from + text_run(bytes, from);
            lemma_text_run(bytes, from);
            lemma_text_run_shift(front, bytes, from);
            lemma_segments_shift(front, bytes, end);
            assert((front + bytes).subrange(front.len() + from, front.len() + end)
                =~= bytes.subrange(from, end));
        }
    }
}

/// What stands in front of the place where a run of characters is counted
/// from does not matter.
pub proof fn lemma_plain_run_skip(text: Seq<char>, skipped: int, from: int)
    requires
        0 <= skipped <= text.len(),
        0 <= from,
    ensures
        plain_run(text, skipped + from) == plain_run(text.skip(skipped), from),
    decreases text.len() - skipped - from,
{
    if skipped + from < text.len() && !is_control_char(text[skipped + from]) {
        lemma_plain_run_skip(text, skipped, from + 1);
    }
}

/// The pieces of a text from some place on are the pieces of what is left
/// of the text there.
pub proof fn lemma_pieces_skip(text: Seq<char>, skipped: int, from: int)
    requires
        0 <= skipped <= text.len(),
        0 <= from,
    ensures
        pieces_from(text, skipped + from) == pieces_from(text.skip(skipped), from),
    decreases text.len() - skipped - from,
{
    if skipped + from < text.len() {
        let rest = text.skip(skipped);
        if is_control_char(text[skipped + from]) {
            lemma_pieces_skip(text, skipped, from + 1);
        } else {
            let run = plain_run(text, skipped + from);
            lemma_plain_run(text, skipped + from);
            lemma_plain_run_skip(text, skipped, from);
            lemma_pieces_skip(text, skipped, from + run);
            assert(rest.subrange(from, from + run) =~= text.subrange(
                skipped + from,
                skipped + from + run,
            ));
        }
    }
}

/// Cutting the UTF-8 form of a text at its runs of control bytes gives the
/// pieces of the text between its runs of control characters.
pub proof fn lemma_segments_of_text(text: Seq<char>)
    ensures
        segments(encode_utf8(text)).map_values(|segment: Seq<u8>| decode_utf8(segment)) == pieces(
            text,
        ),
    decreases text.len(),
{
    let bytes = encode_utf8(text);
    if text.len() > 0 && is_control_char(text[0]) {
        // The first character is one control byte: both sides pass over it.
        let rest = text.drop_first();
        lemma_encode_char(text[0]);
        lemma_segments_shift(encode_scalar(text[0] as u32), encode_utf8(rest), 0);
        lemma_pieces_skip(text, 1, 0);
        lemma_segments_of_text(rest);
    } else if text.len() > 0 {
        // The text starts with a piece. Its bytes hold no control byte, and
        // what follows them is a control byte or the end: they are the first
        // segment, and they decode to the piece.
        let run = plain_run(text, 0);
        lemma_plain_run(text, 0);
        let head = text.take(run as int);
        let rest = text.skip(run as int);
        let cut = encode_utf8(head).len() as int;
        assert(text =~= head + rest);
        lemma_encode_concat(head, rest);
        lemma_encode_plain(head);
        lemma_encode_char(text[0]);
        if run < text.len() {
            lemma_encode_char(text[run as int]);
        }
        lemma_text_run_exact(bytes, 0, cut);
        assert(bytes.subrange(0, cut) =~= encode_utf8(head));
        encode_utf8_decode_utf8(head);
        // What is left of the bytes is the UTF-8 form of what is left of the
        // text.
        lemma_segments_shift(encode_utf8(head), encode_utf8(rest), 0);
        lemma_pieces_skip(text, run as int, 0);
        lemma_segments_of_text(rest);
    }
}

} // verus!
