//! The texts that a decompressed blob holds.
//!
//! JSON objects stand side by side in the blob, separated by runs of one or
//! more ASCII control characters. A piece is what stands between two such
//! runs; a fragment is a piece that holds an opening brace, and so may be a
//! JSON object.

use vstd::prelude::*;

verus! {

/// The texts of `texts`, each as a sequence of characters.
pub open spec fn text_views(texts: Seq<String>) -> Seq<Seq<char>> {
    texts.map_values(|text: String| text@)
}

/// Whether `c` is an ASCII control character, which separates texts.
pub open spec fn is_control_char(c: char) -> bool {
    c as u32 <= 0x1f
}

/// The number of characters from `from` on before the next control character
/// or the end.
pub open spec fn plain_run(text: Seq<char>, from: int) -> nat
    decreases text.len() - from,
{
    if 0 <= from < text.len() && !is_control_char(text[from]) {
        1 + plain_run(text, from + 1)
    } else {
        0
    }
}

/// A run of characters ends inside the text, and none of it is a control
/// character; what follows it, if anything, is one.
pub proof fn lemma_plain_run(text: Seq<char>, from: int)
    requires
        0 <= from <= text.len(),
    ensures
        from + plain_run(text, from) <= text.len(),
        forall|i: int|
            from <= i < from + plain_run(text, from) ==> !is_control_char(#[trigger] text[i]),
        from + plain_run(text, from) < text.len() ==> is_control_char(
            text[from + plain_run(text, from)],
        ),
    decreases text.len() - from,
{
    if from < text.len() && !is_control_char(text[from]) {
        lemma_plain_run(text, from + 1);
    }
}

/// The maximal runs of characters other than control characters that `text`
/// holds from `from` on, in their order.
pub open spec fn pieces_from(text: Seq<char>, from: int) -> Seq<Seq<char>>
    decreases text.len() - from,
    via pieces_from_decreases
{
    if from < 0 || from >= text.len() {
        Seq::empty()
    } else if is_control_char(text[from]) {
        pieces_from(text, from + 1)
    } else {
        let end = from + plain_run(text, from);
        seq![text.subrange(from, end)] + pieces_from(text, end)
    }
}

#[via_fn]
proof fn pieces_from_decreases(text: Seq<char>, from: int) {
    if 0 <= from < text.len() {
        lemma_plain_run(text, from);
    }
}

/// What is left of `text` when it is cut at every maximal run of control
/// characters and the empty pieces are dropped.
pub open spec fn pieces(text: Seq<char>) -> Seq<Seq<char>> {
    pieces_from(text, 0)
}

/// Whether `text` is not empty and holds no control character.
pub open spec fn is_plain(text: Seq<char>) -> bool {
    text.len() > 0 && forall|j: int| 0 <= j < text.len() ==> !is_control_char(#[trigger] text[j])
}

/// No piece is empty, and no piece holds a control character.
pub proof fn lemma_pieces_are_plain(text: Seq<char>, from: int)
    ensures
        forall|i: int|
            0 <= i < pieces_from(text, from).len() ==> is_plain(
                #[trigger] pieces_from(text, from)[i],
            ),
    decreases text.len() - from,
{
    if 0 <= from < text.len() {
        if is_control_char(text[from]) {
            lemma_pieces_are_plain(text, from + 1);
            assert(pieces_from(text, from) == pieces_from(text, from + 1));
        } else {
            lemma_plain_run(text, from);
            let end = from + plain_run(text, from);
            let piece = text.subrange(from, end);
            let later = pieces_from(text, end);
            lemma_pieces_are_plain(text, end);
            assert(is_plain(piece));
            assert forall|i: int| 0 <= i < pieces_from(text, from).len() implies is_plain(
                #[trigger] pieces_from(text, from)[i],
            ) by {
                if i > 0 {
                    assert(pieces_from(text, from)[i] == later[i - 1]);
                }
            }
        }
    }
}

/// A filter keeps a sequence as it is if it keeps each of its items.
proof fn lemma_filter_keeps_all<A>(items: Seq<A>, keep: spec_fn(A) -> bool)
    requires
        forall|i: int| 0 <= i < items.len() ==> keep(#[trigger] items[i]),
    ensures
        items.filter(keep) == items,
    decreases items.len(),
{
    reveal(Seq::filter);
    if items.len() > 0 {
        lemma_filter_keeps_all(items.drop_last(), keep);
        assert(items.drop_last().push(items.last()) =~= items);
    }
}

/// The pieces of a text, one after the other, are the text without its
/// control characters: cutting loses nothing else and keeps the order.
pub proof fn lemma_pieces_keep_the_text(text: Seq<char>, from: int)
    requires
        0 <= from <= text.len(),
    ensures
        pieces_from(text, from).flatten() == text.skip(from).filter(
            |c: char| !is_control_char(c),
        ),
    decreases text.len() - from,
{
    let keep = |c: char| !is_control_char(c);
    let rest = text.skip(from);
    if from == text.len() {
        assert(rest.filter(keep) =~= Seq::<char>::empty()) by {
            reveal(Seq::filter);
        }
    } else if is_control_char(text[from]) {
        lemma_pieces_keep_the_text(text, from + 1);
        assert(rest =~= seq![text[from]] + text.skip(from + 1));
        Seq::filter_distributes_over_add(seq![text[from]], text.skip(from + 1), keep);
        assert(seq![text[from]].filter(keep) =~= Seq::<char>::empty()) by {
            reveal_with_fuel(Seq::filter, 2);
        }
    } else {
        lemma_plain_run(text, from);
        let end = from + plain_run(text, from);
        let piece = text.subrange(from, end);
        let later = pieces_from(text, end);
        lemma_pieces_keep_the_text(text, end);
        assert(rest =~= piece + text.skip(end));
        Seq::filter_distributes_over_add(piece, text.skip(end), keep);
        lemma_filter_keeps_all(piece, keep);
        assert((seq![piece] + later).drop_first() =~= later);
    }
}

/// Whether `text` holds an opening brace, the mark of a JSON object.
pub open spec fn has_brace(text: Seq<char>) -> bool {
    text.contains('{')
}

/// The texts that the splitter hands out for `text`: its pieces between runs
/// of control characters that hold an opening brace, in their order.
pub open spec fn message_fragments(text: Seq<char>) -> Seq<Seq<char>> {
    pieces(text).filter(|piece: Seq<char>| has_brace(piece))
}

/// Every text that the splitter hands out holds an opening brace, is not
/// empty and holds no control character.
pub proof fn lemma_fragments_hold_brace(text: Seq<char>)
    ensures
        forall|i: int|
            0 <= i < message_fragments(text).len() ==> has_brace(
                #[trigger] message_fragments(text)[i],
            ) && is_plain(message_fragments(text)[i]),
{
    let keep = |piece: Seq<char>| has_brace(piece);
    let kept = pieces(text).filter(keep);
    lemma_pieces_are_plain(text, 0);
    assert forall|i: int| 0 <= i < kept.len() implies has_brace(#[trigger] kept[i]) && is_plain(
        kept[i],
    ) by {
        pieces(text).lemma_filter_pred(keep, i);
        assert(kept.contains(kept[i]));
        pieces(text).lemma_filter_contains_rev(keep, kept[i]);
    }
}

} // verus!
