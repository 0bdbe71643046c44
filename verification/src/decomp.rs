//! What it means to decompose a message into dictionary words, and the
//! lemmas for splitting and extending decompositions.

use vstd::prelude::*;

use crate::text::{lemma_upcase_subrange, upcase};

verus! {

/// The concatenation of a sequence of words, case-folded.
pub open spec fn concat_up(ws: Seq<Seq<u8>>) -> Seq<u8>
    decreases ws.len(),
{
    if ws.len() == 0 {
        Seq::empty()
    } else {
        upcase(ws.first()) + concat_up(ws.drop_first())
    }
}

/// `ws` decomposes `msg`: every element is a dictionary word and their
/// concatenation equals the message, case-insensitively.
pub open spec fn is_decomposition(dict: Seq<Seq<u8>>, msg: Seq<u8>, ws: Seq<Seq<u8>>) -> bool {
    (forall|k: int| 0 <= k < ws.len() ==> dict.contains(#[trigger] ws[k])) && concat_up(ws)
        == upcase(msg)
}

/// Some decomposition of `msg` into words of `dict` exists.  The empty
/// message is trivially decomposable (by the empty word sequence).
pub open spec fn decomposable(dict: Seq<Seq<u8>>, msg: Seq<u8>) -> bool {
    exists|ws: Seq<Seq<u8>>| is_decomposition(dict, msg, ws)
}

/// The empty message is decomposable.
pub proof fn lemma_decomposable_empty(dict: Seq<Seq<u8>>, msg: Seq<u8>)
    requires
        msg.len() == 0,
    ensures
        decomposable(dict, msg),
{
    let ws = Seq::<Seq<u8>>::empty();
    assert(concat_up(ws) =~= upcase(msg));
    assert(is_decomposition(dict, msg, ws));
}

/// Concatenation unfolds at the back: appending a word appends its folded
/// bytes.
pub proof fn lemma_concat_up_push(ws: Seq<Seq<u8>>, w: Seq<u8>)
    ensures
        concat_up(ws.push(w)) == concat_up(ws) + upcase(w),
    decreases ws.len(),
{
    if ws.len() == 0 {
        assert(ws.push(w).first() == w);
        assert(ws.push(w).drop_first() =~= ws);
        assert(concat_up(ws) =~= Seq::<u8>::empty());
        assert(concat_up(ws.push(w)) == upcase(ws.push(w).first()) + concat_up(
            ws.push(w).drop_first(),
        ));
        assert(concat_up(ws.push(w)) =~= upcase(w));
        assert(concat_up(ws) + upcase(w) =~= upcase(w));
    } else {
        assert(ws.push(w).drop_first() =~= ws.drop_first().push(w));
        lemma_concat_up_push(ws.drop_first(), w);
        assert(upcase(ws.first()) + (concat_up(ws.drop_first()) + upcase(w)) =~= (upcase(ws.first())
            + concat_up(ws.drop_first())) + upcase(w));
    }
}

/// Likewise at the front.
pub proof fn lemma_concat_up_first(ws: Seq<Seq<u8>>, w: Seq<u8>)
    ensures
        concat_up(seq![w] + ws) == upcase(w) + concat_up(ws),
{
    assert((seq![w] + ws).first() == w);
    assert((seq![w] + ws).drop_first() =~= ws);
}

/// A decomposition of a prefix, extended by a word that matches the bytes
/// that follow the prefix, decomposes the longer prefix.
pub proof fn lemma_decomposition_extend(
    dict: Seq<Seq<u8>>,
    msg: Seq<u8>,
    ws: Seq<Seq<u8>>,
    j: int,
    w: Seq<u8>,
)
    requires
        0 <= j <= msg.len(),
        is_decomposition(dict, msg.take(j), ws),
        dict.contains(w),
        j + w.len() <= msg.len(),
        upcase(w) == upcase(msg.subrange(j, j + w.len())),
    ensures
        is_decomposition(dict, msg.take(j + w.len()), ws.push(w)),
{
    lemma_concat_up_push(ws, w);
    lemma_upcase_subrange(msg, 0, j);
    lemma_upcase_subrange(msg, j, j + w.len());
    lemma_upcase_subrange(msg, 0, j + w.len());
    assert(msg.take(j) =~= msg.subrange(0, j));
    assert(upcase(msg).subrange(0, j) + upcase(msg).subrange(j, j + w.len()) =~= upcase(
        msg,
    ).subrange(0, j + w.len()));
    assert(forall|k: int|
        0 <= k < ws.push(w).len() ==> dict.contains(#[trigger] ws.push(w)[k]));
}

/// A non-empty decomposition of a prefix splits into a decomposition of a
/// shorter prefix and a final word matching the bytes in between.
pub proof fn lemma_decomposition_split(dict: Seq<Seq<u8>>, msg: Seq<u8>, j: int, ws: Seq<Seq<u8>>)
    requires
        0 <= j <= msg.len(),
        is_decomposition(dict, msg.take(j), ws),
        ws.len() > 0,
    ensures
        ws.last().len() <= j,
        dict.contains(ws.last()),
        is_decomposition(dict, msg.take(j - ws.last().len()), ws.drop_last()),
        upcase(ws.last()) == upcase(msg.subrange(j - ws.last().len(), j)),
{
    let w = ws.last();
    assert(ws =~= ws.drop_last().push(w));
    lemma_concat_up_push(ws.drop_last(), w);
    assert(concat_up(ws.drop_last()) + upcase(w) == upcase(msg.take(j)));
    lemma_upcase_subrange(msg, 0, j);
    assert(msg.take(j) =~= msg.subrange(0, j));
    assert(upcase(msg.take(j)).len() == j);
    assert(upcase(w).len() == w.len());
    let split = j - w.len();
    assert(concat_up(ws.drop_last()).len() == split);
    lemma_upcase_subrange(msg, 0, split);
    lemma_upcase_subrange(msg, split, j);
    assert(msg.take(split) =~= msg.subrange(0, split));
    assert(concat_up(ws.drop_last()) =~= upcase(msg).subrange(0, split));
    assert forall|t: int| 0 <= t < w.len() implies upcase(w)[t] == upcase(msg).subrange(
        split,
        j,
    )[t] by {
        assert(upcase(msg.take(j))[split + t] == (concat_up(ws.drop_last()) + upcase(w))[split
            + t]);
    }
    assert(upcase(w) =~= upcase(msg).subrange(split, j));
    assert(forall|k: int|
        0 <= k < ws.drop_last().len() ==> dict.contains(#[trigger] ws.drop_last()[k]));
}

/// A decomposition of a non-empty message holds at least one word.
pub proof fn lemma_decomposition_nonempty(dict: Seq<Seq<u8>>, msg: Seq<u8>, ws: Seq<Seq<u8>>)
    requires
        is_decomposition(dict, msg, ws),
        msg.len() > 0,
    ensures
        ws.len() > 0,
{
    if ws.len() == 0 {
        assert(upcase(msg).len() == 0);
    }
}

} // verus!
