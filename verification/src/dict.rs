//! The immutable word list shared by all sessions, together with its
//! admission rule and the case-insensitive matching predicates.

use vstd::prelude::*;

use crate::text::{is_ascii_letter, upcase, upper, upper_byte};

verus! {

/// A word the engine can work with: non-empty, small enough to index, and
/// ASCII letters only.
pub open spec fn wf_word(w: Seq<u8>) -> bool {
    w.len() >= 1 && w.len() <= usize::MAX && (forall|j: int|
        0 <= j < w.len() ==> is_ascii_letter(w[j]))
}

/// Every word of the list is well-formed.
pub open spec fn dict_wf(d: Seq<Seq<u8>>) -> bool {
    forall|i: int| 0 <= i < d.len() ==> wf_word(#[trigger] d[i])
}

/// The loader's admission rule for one raw line: ASCII letters only, and
/// either at least two of them or the single word "a" (case-insensitively).
pub open spec fn admissible_line(l: Seq<u8>) -> bool {
    (forall|j: int| 0 <= j < l.len() ==> is_ascii_letter(l[j])) && (l.len() >= 2 || upcase(l)
        =~= seq![65u8])
}

/// An ordered, immutable list of words, shared read-only by every session.
pub struct Dictionary {
    words: Vec<Vec<u8>>,
}

impl View for Dictionary {
    type V = Seq<Seq<u8>>;

    closed spec fn view(&self) -> Seq<Seq<u8>> {
        Seq::new(self.words@.len(), |i: int| self.words@[i]@)
    }
}

/// An admissible line is non-empty and all letters; only a length bound is
/// needed besides to make it a well-formed word.
pub proof fn lemma_admissible_is_wf(l: Seq<u8>)
    requires
        admissible_line(l),
        l.len() <= usize::MAX,
    ensures
        wf_word(l),
{
    if l.len() < 2 {
        assert(upcase(l).len() == 1);
    }
}

impl Dictionary {
    /// Builds the list from words that are already known to be well-formed.
    pub fn new(words: Vec<Vec<u8>>) -> (d: Dictionary)
        requires
            forall|i: int| 0 <= i < words@.len() ==> wf_word(#[trigger] words@[i]@),
        ensures
            d@.len() == words@.len(),
            forall|i: int| 0 <= i < words@.len() ==> #[trigger] d@[i] == words@[i]@,
            dict_wf(d@),
    {
        let d = Dictionary { words };
        proof {
            assert forall|i: int| 0 <= i < d@.len() implies wf_word(#[trigger] d@[i]) by {
                assert(d@[i] == d.words@[i]@);
            }
        }
        d
    }

    /// Builds the list from raw text lines, retaining exactly the admissible
    /// ones, in order.
    pub fn from_lines(lines: Vec<Vec<u8>>) -> (d: Dictionary)
        ensures
            d@ == Seq::new(lines@.len(), |i: int| lines@[i]@).filter(|l: Seq<u8>|
                admissible_line(l)),
            dict_wf(d@),
    {
        let ghost all = Seq::new(lines@.len(), |i: int| lines@[i]@);
        let mut kept: Vec<Vec<u8>> = Vec::new();
        let n = lines.len();
        let mut i: usize = 0;
        while i < n
            invariant
                n == lines@.len(),
                i <= n,
                all == Seq::new(lines@.len(), |k: int| lines@[k]@),
                Seq::new(kept@.len(), |k: int| kept@[k]@) == all.take(i as int).filter(
                    |l: Seq<u8>| admissible_line(l)),
            decreases n - i,
        {
            let ghost kept_pre = Seq::new(kept@.len(), |k: int| kept@[k]@);
            let line = &lines[i];
            let keep = line_admissible(line);
            if keep {
                let w = copy_bytes(line);
                kept.push(w);
            }
            proof {
                let taken = all.take(i as int);
                assert(all.take(i + 1) =~= taken.push(all[i as int]));
                Seq::filter_distributes_over_add(taken, seq![all[i as int]], |l: Seq<u8>|
                    admissible_line(l));
                assert(taken + seq![all[i as int]] =~= taken.push(all[i as int]));
                reveal_with_fuel(Seq::filter, 2);
                if keep {
                    assert(seq![all[i as int]].filter(|l: Seq<u8>| admissible_line(l)) =~= seq![
                        all[i as int]]);
                    assert(Seq::new(kept@.len(), |k: int| kept@[k]@) =~= kept_pre.push(
                        all[i as int]));
                } else {
                    assert(seq![all[i as int]].filter(|l: Seq<u8>| admissible_line(l)) =~= Seq::<
                        Seq<u8>,
                    >::empty());
                    assert(taken.filter(|l: Seq<u8>| admissible_line(l)) + Seq::<
                        Seq<u8>,
                    >::empty() =~= taken.filter(|l: Seq<u8>| admissible_line(l)));
                }
            }
            i = i + 1;
        }
        proof {
            assert(all.take(n as int) =~= all);
        }
        let d = Dictionary { words: kept };
        proof {
            let f = |l: Seq<u8>| admissible_line(l);
            assert forall|i: int| 0 <= i < d@.len() implies wf_word(#[trigger] d@[i]) by {
                all.lemma_filter_pred(f, i);
                assert(d@[i] == kept@[i]@);
                assert(kept@[i].len() == kept@[i]@.len());
                lemma_admissible_is_wf(d@[i]);
            }
        }
        d
    }

    /// How many words the list holds.
    pub fn len(&self) -> (n: usize)
        ensures
            n == self@.len(),
    {
        self.words.len()
    }

    /// Read-only access to one word.
    pub fn word(&self, i: usize) -> (w: &Vec<u8>)
        requires
            i < self@.len(),
        ensures
            w@ == self@[i as int],
    {
        &self.words[i]
    }

    /// Read-only view of the whole list, stable for the process lifetime.
    pub fn words(&self) -> (ws: &Vec<Vec<u8>>)
        ensures
            ws@.len() == self@.len(),
            forall|i: int| 0 <= i < ws@.len() ==> #[trigger] ws@[i]@ == self@[i],
    {
        &self.words
    }
}

/// Executable mirror of [`admissible_line`].
pub fn line_admissible(l: &Vec<u8>) -> (r: bool)
    ensures
        r == admissible_line(l@),
{
    let n = l.len();
    let mut j: usize = 0;
    while j < n
        invariant
            j <= n,
            n == l@.len(),
            forall|k: int| 0 <= k < j ==> is_ascii_letter(l@[k]),
        decreases n - j,
    {
        let c = l[j];
        if !((c >= 65 && c <= 90) || (c >= 97 && c <= 122)) {
            return false;
        }
        j = j + 1;
    }
    if n >= 2 {
        true
    } else if n == 1 {
        let up = upper_byte(l[0]);
        proof {
            if upper(l@[0]) == 65 {
                assert(upcase(l@) =~= seq![65u8]);
            } else {
                assert(upcase(l@)[0] != 65);
            }
        }
        up == 65
    } else {
        proof {
            assert(upcase(l@).len() == 0);
        }
        false
    }
}

/// A fresh copy of a byte string.
pub fn copy_bytes(src: &Vec<u8>) -> (r: Vec<u8>)
    ensures
        r@ == src@,
{
    let mut r: Vec<u8> = Vec::new();
    let n = src.len();
    let mut i: usize = 0;
    while i < n
        invariant
            i <= n,
            n == src@.len(),
            r@ == src@.take(i as int),
        decreases n - i,
    {
        r.push(src[i]);
        proof {
            assert(src@.take(i + 1) =~= src@.take(i as int).push(src@[i as int]));
        }
        i = i + 1;
    }
    proof {
        assert(src@.take(n as int) =~= src@);
    }
    r
}

/// Case-insensitive equality of a word and a text.
pub fn word_matches(w: &Vec<u8>, text: &Vec<u8>) -> (r: bool)
    ensures
        r == (upcase(w@) == upcase(text@)),
{
    if w.len() != text.len() {
        proof {
            assert(upcase(w@).len() != upcase(text@).len());
        }
        return false;
    }
    let n = w.len();
    let mut j: usize = 0;
    while j < n
        invariant
            j <= n,
            n == w@.len(),
            n == text@.len(),
            forall|k: int| 0 <= k < j ==> upper(w@[k]) == upper(text@[k]),
        decreases n - j,
    {
        if upper_byte(w[j]) != upper_byte(text[j]) {
            proof {
                assert(upcase(w@)[j as int] != upcase(text@)[j as int]);
            }
            return false;
        }
        j = j + 1;
    }
    proof {
        assert(upcase(w@) =~= upcase(text@));
    }
    true
}

/// Case-insensitive "the word starts with the prefix".
pub fn word_matches_prefix(w: &Vec<u8>, prefix: &Vec<u8>) -> (r: bool)
    ensures
        r == (prefix@.len() <= w@.len() && upcase(w@.take(prefix@.len() as int)) == upcase(
            prefix@,
        )),
{
    if prefix.len() > w.len() {
        return false;
    }
    let n = prefix.len();
    let mut j: usize = 0;
    while j < n
        invariant
            j <= n,
            n == prefix@.len(),
            n <= w@.len(),
            forall|k: int| 0 <= k < j ==> upper(w@[k]) == upper(prefix@[k]),
        decreases n - j,
    {
        if upper_byte(w[j]) != upper_byte(prefix[j]) {
            proof {
                assert(upcase(w@.take(n as int))[j as int] != upcase(prefix@)[j as int]);
            }
            return false;
        }
        j = j + 1;
    }
    proof {
        assert(upcase(w@.take(n as int)) =~= upcase(prefix@));
    }
    true
}

/// Case-insensitive match of a word against a window of a longer text.
pub fn word_matches_at(w: &Vec<u8>, text: &Vec<u8>, start: usize) -> (r: bool)
    requires
        start <= text@.len(),
    ensures
        r == (w@.len() <= text@.len() - start && upcase(w@) == upcase(
            text@.subrange(start as int, start + w@.len()),
        )),
{
    if w.len() > text.len() - start {
        return false;
    }
    let n = w.len();
    let ghost window = text@.subrange(start as int, start + n);
    let mut j: usize = 0;
    while j < n
        invariant
            j <= n,
            n == w@.len(),
            start + n <= text@.len(),
            start + n <= usize::MAX,
            window == text@.subrange(start as int, start + n),
            forall|k: int| 0 <= k < j ==> upper(w@[k]) == upper(window[k]),
        decreases n - j,
    {
        if upper_byte(w[j]) != upper_byte(text[start + j]) {
            proof {
                assert(window[j as int] == text@[start + j]);
                assert(upcase(w@)[j as int] != upcase(window)[j as int]);
            }
            return false;
        }
        j = j + 1;
    }
    proof {
        assert(upcase(w@) =~= upcase(window));
    }
    true
}

} // verus!
