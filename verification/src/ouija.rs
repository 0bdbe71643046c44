//! The per-session segmentation engine: character-by-character accept/reject
//! transitions over a working candidate set, a legal-next-character query,
//! and a finalize operation that yields the minimal word segmentation.

use std::sync::Arc;
use vstd::pervasive::VecAdditionalExecFns;
use vstd::prelude::*;

use crate::decomp::{
    concat_up, decomposable, is_decomposition, lemma_concat_up_first, lemma_decomposable_empty,
    lemma_decomposition_extend, lemma_decomposition_nonempty, lemma_decomposition_split,
};
use crate::dict::{copy_bytes, dict_wf, wf_word, word_matches_at, Dictionary};
use crate::text::{lemma_upcase_add, upcase, upper, upper_byte};

verus! {

/// One open word hypothesis: the word `dict[word]` has had its first `pos`
/// characters matched by the tail of the message; `dict[word][pos..]` is the
/// remaining suffix.
#[derive(Clone, Copy)]
pub struct Guess {
    pub word: usize,
    pub pos: usize,
}

/// What the engine answers: `Accept`/`Reject` for a character, `Done` with
/// the chosen words (or `Reject`) for a finalize.
pub enum OuijaStatus {
    Accept,
    Done(Vec<Vec<u8>>),
    Reject,
}

/// The hypothesis points into the dictionary and its suffix is non-empty.
pub open spec fn guess_wf(dict: Seq<Seq<u8>>, g: Guess) -> bool {
    g.word < dict.len() && g.pos < dict[g.word as int].len()
}

/// The next unconsumed character of the hypothesis.
pub open spec fn guess_next(dict: Seq<Seq<u8>>, g: Guess) -> u8 {
    dict[g.word as int][g.pos as int]
}

/// The character `c` continues the hypothesis (case-insensitively).
pub open spec fn guess_matches(dict: Seq<Seq<u8>>, g: Guess, c: u8) -> bool {
    guess_wf(dict, g) && upper(guess_next(dict, g)) == upper(c)
}

/// The character `c` consumes the hypothesis' last remaining character, so a
/// dictionary word ends exactly here.
pub open spec fn guess_completes(dict: Seq<Seq<u8>>, g: Guess, c: u8) -> bool {
    guess_matches(dict, g, c) && g.pos + 1 == dict[g.word as int].len()
}

/// The hypothesis with one more character consumed.
pub open spec fn guess_step(g: Guess) -> Guess {
    Guess { word: g.word, pos: (g.pos + 1) as usize }
}

/// Some hypothesis in `gs` is continued by `c`.
pub open spec fn any_matches(dict: Seq<Seq<u8>>, gs: Seq<Guess>, c: u8) -> bool {
    exists|i: int| 0 <= i < gs.len() && guess_matches(dict, #[trigger] gs[i], c)
}

/// Some hypothesis in `gs` is completed by `c`.
pub open spec fn any_completes(dict: Seq<Seq<u8>>, gs: Seq<Guess>, c: u8) -> bool {
    exists|i: int| 0 <= i < gs.len() && guess_completes(dict, #[trigger] gs[i], c)
}

/// One accepted character's effect on the hypothesis set: hypotheses that
/// `c` continues are shortened, completed ones and mismatches are dropped.
pub open spec fn advance_guesses(dict: Seq<Seq<u8>>, gs: Seq<Guess>, c: u8) -> Seq<Guess>
    decreases gs.len(),
{
    if gs.len() == 0 {
        Seq::empty()
    } else {
        let rest = advance_guesses(dict, gs.drop_first(), c);
        if guess_matches(dict, gs.first(), c) && !guess_completes(dict, gs.first(), c) {
            seq![guess_step(gs.first())] + rest
        } else {
            rest
        }
    }
}

/// One full-length hypothesis per dictionary word, in dictionary order.
pub open spec fn fresh_guesses(dict: Seq<Seq<u8>>) -> Seq<Guess> {
    Seq::new(dict.len(), |i: int| Guess { word: i as usize, pos: 0 })
}

/// The hypothesis is consistent with the message: its consumed prefix
/// matches the message's tail, and the message up to where the hypothesis
/// began is itself decomposable.
pub open spec fn guess_consistent(dict: Seq<Seq<u8>>, msg: Seq<u8>, g: Guess) -> bool {
    &&& guess_wf(dict, g)
    &&& g.pos <= msg.len()
    &&& decomposable(dict, msg.take(msg.len() - g.pos))
    &&& upcase(dict[g.word as int].take(g.pos as int)) == upcase(msg.skip(msg.len() - g.pos))
}

/// The set of legal next characters: the upper-cased first character of
/// every remaining suffix.
pub open spec fn legal_set(dict: Seq<Seq<u8>>, gs: Seq<Guess>) -> Set<u8> {
    Set::new(
        |ch: u8|
            exists|i: int|
                0 <= i < gs.len() && guess_wf(dict, #[trigger] gs[i]) && upper(
                    guess_next(dict, gs[i]),
                ) == ch,
    )
}

/// One in-progress message and its working candidate set, derived from a
/// shared dictionary.
pub struct Ouija {
    pub dict: Arc<Dictionary>,
    pub message: Vec<u8>,
    pub guesses: Vec<Guess>,
    pub accepting: bool,
}

/// Appending to `gs` appends that element's effect to the advanced set.
proof fn lemma_advance_push(dict: Seq<Seq<u8>>, gs: Seq<Guess>, g: Guess, c: u8)
    ensures
        advance_guesses(dict, gs.push(g), c) == advance_guesses(dict, gs, c) + (if guess_matches(
            dict,
            g,
            c,
        ) && !guess_completes(dict, g, c) {
            seq![guess_step(g)]
        } else {
            Seq::<Guess>::empty()
        }),
    decreases gs.len(),
{
    let step = if guess_matches(dict, g, c) && !guess_completes(dict, g, c) {
        seq![guess_step(g)]
    } else {
        Seq::<Guess>::empty()
    };
    if gs.len() == 0 {
        assert(gs.push(g).first() == g);
        assert(gs.push(g).drop_first() =~= gs);
        assert(advance_guesses(dict, gs, c) =~= Seq::<Guess>::empty());
        assert(advance_guesses(dict, gs.push(g), c) == (if guess_matches(dict, g, c)
            && !guess_completes(dict, g, c) {
            seq![guess_step(g)] + advance_guesses(dict, gs.push(g).drop_first(), c)
        } else {
            advance_guesses(dict, gs.push(g).drop_first(), c)
        }));
        assert(advance_guesses(dict, gs.push(g), c) =~= step);
        assert(advance_guesses(dict, gs, c) + step =~= step);
    } else {
        assert(gs.push(g).drop_first() =~= gs.drop_first().push(g));
        assert(gs.push(g).first() == gs.first());
        lemma_advance_push(dict, gs.drop_first(), g, c);
        if guess_matches(dict, gs.first(), c) && !guess_completes(dict, gs.first(), c) {
            assert(seq![guess_step(gs.first())] + (advance_guesses(dict, gs.drop_first(), c)
                + step) =~= (seq![guess_step(gs.first())] + advance_guesses(
                dict,
                gs.drop_first(),
                c,
            )) + step);
        }
    }
}

/// Every advanced hypothesis is the step of a matching, non-completing one.
proof fn lemma_advance_elems(dict: Seq<Seq<u8>>, gs: Seq<Guess>, c: u8)
    ensures
        forall|k: int|
            #![trigger advance_guesses(dict, gs, c)[k]]
            0 <= k < advance_guesses(dict, gs, c).len() ==> exists|i: int|
                0 <= i < gs.len() && guess_matches(dict, #[trigger] gs[i], c) && !guess_completes(
                    dict,
                    gs[i],
                    c,
                ) && advance_guesses(dict, gs, c)[k] == guess_step(gs[i]),
    decreases gs.len(),
{
    if gs.len() > 0 {
        lemma_advance_elems(dict, gs.drop_first(), c);
        let adv = advance_guesses(dict, gs, c);
        let rest = advance_guesses(dict, gs.drop_first(), c);
        assert forall|k: int| #![trigger adv[k]] 0 <= k < adv.len() implies exists|i: int|
            0 <= i < gs.len() && guess_matches(dict, #[trigger] gs[i], c) && !guess_completes(
                dict,
                gs[i],
                c,
            ) && adv[k] == guess_step(gs[i]) by {
            if guess_matches(dict, gs.first(), c) && !guess_completes(dict, gs.first(), c) {
                if k == 0 {
                    assert(guess_matches(dict, gs[0], c) && !guess_completes(dict, gs[0], c)
                        && adv[k] == guess_step(gs[0]));
                } else {
                    let i = choose|i: int|
                        0 <= i < gs.drop_first().len() && guess_matches(
                            dict,
                            #[trigger] gs.drop_first()[i],
                            c,
                        ) && !guess_completes(dict, gs.drop_first()[i], c) && rest[k - 1]
                            == guess_step(gs.drop_first()[i]);
                    assert(gs.drop_first()[i] == gs[i + 1]);
                    assert(adv[k] == rest[k - 1]);
                }
            } else {
                let i = choose|i: int|
                    0 <= i < gs.drop_first().len() && guess_matches(
                        dict,
                        #[trigger] gs.drop_first()[i],
                        c,
                    ) && !guess_completes(dict, gs.drop_first()[i], c) && rest[k] == guess_step(
                        gs.drop_first()[i],
                    );
                assert(gs.drop_first()[i] == gs[i + 1]);
            }
        }
    }
}

/// A hypothesis that matches without completing survives the advance.
proof fn lemma_advance_survivor(dict: Seq<Seq<u8>>, gs: Seq<Guess>, c: u8, i: int)
    requires
        0 <= i < gs.len(),
        guess_matches(dict, gs[i], c),
        !guess_completes(dict, gs[i], c),
    ensures
        advance_guesses(dict, gs, c).len() > 0,
    decreases gs.len(),
{
    if i == 0 {
    } else {
        assert(gs.drop_first()[i - 1] == gs[i]);
        lemma_advance_survivor(dict, gs.drop_first(), c, i - 1);
    }
}

/// A consistent hypothesis completed by `c` witnesses that the extended
/// message is decomposable.
proof fn lemma_complete_decomposable(dict: Seq<Seq<u8>>, msg: Seq<u8>, g: Guess, c: u8)
    requires
        guess_consistent(dict, msg, g),
        guess_completes(dict, g, c),
    ensures
        decomposable(dict, msg.push(c)),
{
    let w = dict[g.word as int];
    let m1 = msg.push(c);
    let j = msg.len() - g.pos;
    let ws = choose|ws: Seq<Seq<u8>>| is_decomposition(dict, msg.take(j as int), ws);
    assert(m1.take(j as int) =~= msg.take(j as int));
    assert(dict.contains(w)) by {
        assert(dict[g.word as int] == w);
    }
    assert(upcase(w) == upcase(m1.subrange(j as int, j + w.len()))) by {
        let window = m1.subrange(j as int, j + w.len());
        assert(window.len() == w.len());
        assert forall|k: int| 0 <= k < w.len() implies upper(w[k]) == upper(window[k]) by {
            if k < g.pos {
                assert(window[k] == msg.skip(j as int)[k]);
                assert(upcase(w.take(g.pos as int))[k] == upcase(msg.skip(j as int))[k]);
            } else {
                assert(window[k] == c);
                assert(w[k] == guess_next(dict, g));
            }
        }
        assert(upcase(w) =~= upcase(window));
    }
    lemma_decomposition_extend(dict, m1, ws, j as int, w);
    assert(m1.take(j + w.len()) =~= m1);
}

impl Ouija {
    /// The engine's invariant: every hypothesis is consistent with the
    /// message, the candidate set is non-empty whenever the dictionary is,
    /// and `accepting` truthfully reports a decomposable message.
    pub open spec fn wf(self) -> bool {
        &&& dict_wf(self.dict@)
        &&& forall|i: int|
            0 <= i < self.guesses@.len() ==> guess_consistent(
                self.dict@,
                self.message@,
                #[trigger] self.guesses@[i],
            )
        &&& (self.dict@.len() > 0 ==> self.guesses@.len() > 0)
        &&& (self.accepting ==> self.message@.len() > 0 && decomposable(
            self.dict@,
            self.message@,
        ))
    }

    /// A fresh engine: empty message, one full-length hypothesis per
    /// dictionary word, not at a boundary.
    pub fn new(dict: Arc<Dictionary>) -> (o: Ouija)
        requires
            dict_wf(dict@),
        ensures
            o.wf(),
            o.dict@ == dict@,
            o.message@ == Seq::<u8>::empty(),
            o.guesses@ == fresh_guesses(dict@),
            o.accepting == false,
    {
        let mut guesses: Vec<Guess> = Vec::new();
        let n = (&*dict).len();
        let mut i: usize = 0;
        while i < n
            invariant
                i <= n,
                n == dict@.len(),
                guesses@ == fresh_guesses(dict@).take(i as int),
            decreases n - i,
        {
            guesses.push(Guess { word: i, pos: 0 });
            proof {
                assert(fresh_guesses(dict@).take(i + 1) =~= fresh_guesses(dict@).take(
                    i as int,
                ).push(Guess { word: i, pos: 0 }));
            }
            i = i + 1;
        }
        proof {
            assert(fresh_guesses(dict@).take(n as int) =~= fresh_guesses(dict@));
        }
        let o = Ouija { dict, message: Vec::new(), guesses, accepting: false };
        proof {
            lemma_decomposable_empty(o.dict@, o.message@);
            assert forall|i: int| 0 <= i < o.guesses@.len() implies guess_consistent(
                o.dict@,
                o.message@,
                #[trigger] o.guesses@[i],
            ) by {
                let g = o.guesses@[i];
                assert(g == fresh_guesses(o.dict@)[i]);
                assert(o.message@.take(0) =~= o.message@);
                assert(upcase(o.dict@[g.word as int].take(0)) =~= upcase(o.message@.skip(0)));
            }
        }
        o
    }

    /// Feeds one character.  If no hypothesis is continued by it, the
    /// character is rejected and the engine is left exactly as it was;
    /// otherwise the hypothesis set is advanced, replenished with the whole
    /// dictionary when a word ended here, and the character appended.
    pub fn push_char(&mut self, c: u8) -> (r: OuijaStatus)
        requires
            old(self).wf(),
        ensures
            final(self).wf(),
            final(self).dict@ == old(self).dict@,
            !(r is Done),
            (r is Reject) <==> !any_matches(old(self).dict@, old(self).guesses@, c),
            (r is Reject) ==> *final(self) == *old(self),
            (r is Accept) ==> final(self).message@ == old(self).message@.push(c),
            (r is Accept) ==> final(self).accepting == any_completes(
                old(self).dict@,
                old(self).guesses@,
                c,
            ),
            (r is Accept) ==> final(self).guesses@ == advance_guesses(
                old(self).dict@,
                old(self).guesses@,
                c,
            ) + (if any_completes(old(self).dict@, old(self).guesses@, c) {
                fresh_guesses(old(self).dict@)
            } else {
                Seq::<Guess>::empty()
            }),
    {
        let ghost d = self.dict@;
        let ghost gs0 = self.guesses@;
        let ghost m0 = self.message@;
        let dict_ref = &*self.dict;
        if !scan_matches(dict_ref, &self.guesses, c) {
            return OuijaStatus::Reject;
        }
        let (mut next, completed) = advance_exec(dict_ref, &self.guesses, c);
        if completed {
            append_fresh(dict_ref, &mut next);
        }
        let ghost gs1 = next@;
        self.guesses = next;
        self.accepting = completed;
        self.message.push(c);
        proof {
            let m1 = self.message@;
            assert(m1 == m0.push(c));
            if completed {
                let i = choose|i: int| 0 <= i < gs0.len() && guess_completes(d, gs0[i], c);
                assert(guess_consistent(d, m0, gs0[i]));
                lemma_complete_decomposable(d, m0, gs0[i], c);
            }
            lemma_advance_elems(d, gs0, c);
            let adv = advance_guesses(d, gs0, c);
            assert forall|k: int| 0 <= k < gs1.len() implies guess_consistent(
                d,
                m1,
                #[trigger] gs1[k],
            ) by {
                if k < adv.len() {
                    let i = choose|i: int|
                        0 <= i < gs0.len() && guess_matches(d, #[trigger] gs0[i], c)
                            && !guess_completes(d, gs0[i], c) && adv[k] == guess_step(gs0[i]);
                    let g = gs0[i];
                    let g1 = gs1[k];
                    assert(g1 == guess_step(g));
                    assert(guess_consistent(d, m0, g));
                    assert(g1.pos == g.pos + 1);
                    let j = m0.len() - g.pos;
                    assert(m1.take(m1.len() - g1.pos) =~= m0.take(j as int));
                    assert(upcase(d[g1.word as int].take(g1.pos as int)) == upcase(
                        m1.skip(m1.len() - g1.pos),
                    )) by {
                        let w = d[g.word as int];
                        let lhs = upcase(w.take(g1.pos as int));
                        let rhs = upcase(m1.skip(j as int));
                        assert(lhs.len() == rhs.len());
                        assert forall|t: int| 0 <= t < lhs.len() implies lhs[t] == rhs[t] by {
                            if t < g.pos {
                                assert(upcase(w.take(g.pos as int))[t] == upcase(
                                    m0.skip(j as int),
                                )[t]);
                                assert(m1.skip(j as int)[t] == m0.skip(j as int)[t]);
                            } else {
                                assert(w.take(g1.pos as int)[t] == guess_next(d, g));
                                assert(m1.skip(j as int)[t] == c);
                            }
                        }
                        assert(lhs =~= rhs);
                    }
                } else {
                    let g1 = gs1[k];
                    assert(g1 == fresh_guesses(d)[k - adv.len()]);
                    assert(g1.pos == 0);
                    assert(m1.take(m1.len() as int) =~= m1);
                    assert(upcase(d[g1.word as int].take(0)) =~= upcase(
                        m1.skip(m1.len() as int),
                    ));
                }
            }
            if !completed {
                let i = choose|i: int| 0 <= i < gs0.len() && guess_matches(d, gs0[i], c);
                lemma_advance_survivor(d, gs0, c, i);
            }
        }
        OuijaStatus::Accept
    }

    /// The set of legal next characters, upper-cased, in increasing order.
    /// It is empty only when the candidate set is, which — for a live engine
    /// — happens only with an empty dictionary.
    #[verifier::loop_isolation(false)]
    pub fn legal_next_characters(&self) -> (r: Vec<u8>)
        requires
            self.wf(),
        ensures
            forall|ch: u8| r@.contains(ch) <==> legal_set(self.dict@, self.guesses@).contains(ch),
            forall|i: int, j: int| 0 <= i < j < r@.len() ==> r@[i] < r@[j],
            self.dict@.len() > 0 ==> r@.len() > 0,
    {
        let dict_ref = &*self.dict;
        let mut r: Vec<u8> = Vec::new();
        let mut ch: u8 = 65;
        while ch <= 90
            invariant
                self.wf(),
                65 <= ch <= 90 + 1,
                forall|i: int, j: int| 0 <= i < j < r@.len() ==> r@[i] < r@[j],
                forall|i: int| 0 <= i < r@.len() ==> 65 <= #[trigger] r@[i] < ch,
                forall|x: u8|
                    r@.contains(x) <==> (x < ch && legal_set(self.dict@, self.guesses@).contains(
                        x,
                    )),
            decreases 90 + 1 - ch,
        {
            proof {
                assert forall|i: int| 0 <= i < self.guesses@.len() implies guess_wf(
                    self.dict@,
                    #[trigger] self.guesses@[i],
                ) by {
                    assert(guess_consistent(self.dict@, self.message@, self.guesses@[i]));
                }
            }
            if first_char_match(dict_ref, &self.guesses, ch) {
                let ghost r0 = r@;
                r.push(ch);
                proof {
                    assert forall|x: u8| r@.contains(x) implies (x < ch + 1 && legal_set(
                        self.dict@,
                        self.guesses@,
                    ).contains(x)) by {
                        if x != ch {
                            let i = choose|i: int| 0 <= i < r@.len() && r@[i] == x;
                            assert(r0[i] == x);
                            assert(r0.contains(x));
                        }
                    }
                    assert forall|x: u8|
                        x < ch + 1 && legal_set(self.dict@, self.guesses@).contains(x) implies r@
                        .contains(x) by {
                        if x < ch {
                            assert(r0.contains(x));
                            assert(r@[choose|i: int| 0 <= i < r0.len() && r0[i] == x] == x);
                        } else {
                            assert(r@[r@.len() - 1] == x);
                        }
                    }
                }
            }
            ch = ch + 1;
        }
        proof {
            assert forall|x: u8| legal_set(self.dict@, self.guesses@).contains(x) implies x
                < 90 + 1 by {
                let i = choose|i: int|
                    0 <= i < self.guesses@.len() && guess_wf(self.dict@, #[trigger] self
                        .guesses@[i]) && upper(guess_next(self.dict@, self.guesses@[i])) == x;
                let g = self.guesses@[i];
                assert(crate::text::is_ascii_letter(guess_next(self.dict@, g)));
            }
            if self.dict@.len() > 0 {
                let g = self.guesses@[0];
                assert(guess_consistent(self.dict@, self.message@, g));
                assert(crate::text::is_ascii_letter(guess_next(self.dict@, g)));
                let x = upper(guess_next(self.dict@, g));
                assert(legal_set(self.dict@, self.guesses@).contains(x));
                assert(r@.contains(x));
            }
        }
        r
    }
}

/// Whether any hypothesis is continued by `c`.
fn scan_matches(dict: &Dictionary, gs: &Vec<Guess>, c: u8) -> (found: bool)
    requires
        forall|i: int| 0 <= i < gs@.len() ==> guess_wf(dict@, #[trigger] gs@[i]),
    ensures
        found == any_matches(dict@, gs@, c),
{
    let n = gs.len();
    let up = upper_byte(c);
    let mut i: usize = 0;
    while i < n
        invariant
            i <= n,
            n == gs@.len(),
            up == upper(c),
            forall|j: int| 0 <= j < gs@.len() ==> guess_wf(dict@, #[trigger] gs@[j]),
            forall|j: int| 0 <= j < i ==> !guess_matches(dict@, #[trigger] gs@[j], c),
        decreases n - i,
    {
        let g = gs[i];
        let w = dict.word(g.word);
        if upper_byte(w[g.pos]) == up {
            return true;
        }
        i = i + 1;
    }
    false
}

/// Whether the first character of some hypothesis upper-cases to `ch`.
fn first_char_match(dict: &Dictionary, gs: &Vec<Guess>, ch: u8) -> (found: bool)
    requires
        forall|i: int| 0 <= i < gs@.len() ==> guess_wf(dict@, #[trigger] gs@[i]),
    ensures
        found == legal_set(dict@, gs@).contains(ch),
{
    let n = gs.len();
    let mut i: usize = 0;
    while i < n
        invariant
            i <= n,
            n == gs@.len(),
            forall|j: int| 0 <= j < gs@.len() ==> guess_wf(dict@, #[trigger] gs@[j]),
            forall|j: int| 0 <= j < i ==> upper(guess_next(dict@, #[trigger] gs@[j])) != ch,
        decreases n - i,
    {
        let g = gs[i];
        let w = dict.word(g.word);
        if upper_byte(w[g.pos]) == ch {
            return true;
        }
        i = i + 1;
    }
    proof {
        assert(!legal_set(dict@, gs@).contains(ch));
    }
    false
}

/// Builds the advanced hypothesis set and reports whether a word completed.
fn advance_exec(dict: &Dictionary, gs: &Vec<Guess>, c: u8) -> (out: (Vec<Guess>, bool))
    requires
        forall|i: int| 0 <= i < gs@.len() ==> guess_wf(dict@, #[trigger] gs@[i]),
    ensures
        out.0@ == advance_guesses(dict@, gs@, c),
        out.1 == any_completes(dict@, gs@, c),
{
    let n = gs.len();
    let up = upper_byte(c);
    let mut kept: Vec<Guess> = Vec::new();
    let mut completed = false;
    let mut i: usize = 0;
    while i < n
        invariant
            i <= n,
            n == gs@.len(),
            up == upper(c),
            forall|j: int| 0 <= j < gs@.len() ==> guess_wf(dict@, #[trigger] gs@[j]),
            kept@ == advance_guesses(dict@, gs@.take(i as int), c),
            completed == any_completes(dict@, gs@.take(i as int), c),
        decreases n - i,
    {
        let ghost taken = gs@.take(i as int);
        let g = gs[i];
        let w = dict.word(g.word);
        let wlen = w.len();
        proof {
            assert(guess_wf(dict@, gs@[i as int]));
            assert(gs@.take(i + 1) =~= taken.push(gs@[i as int]));
            lemma_advance_push(dict@, taken, gs@[i as int], c);
        }
        if upper_byte(w[g.pos]) == up {
            if g.pos + 1 == wlen {
                completed = true;
                proof {
                    assert(guess_completes(dict@, gs@[i as int], c));
                    assert(gs@.take(i + 1)[i as int] == gs@[i as int]);
                    assert(any_completes(dict@, gs@.take(i + 1), c));
                    assert(advance_guesses(dict@, gs@.take(i + 1), c) =~= kept@);
                }
            } else {
                let ghost kept0 = kept@;
                kept.push(Guess { word: g.word, pos: g.pos + 1 });
                proof {
                    assert(!guess_completes(dict@, gs@[i as int], c));
                    assert(kept@ =~= kept0 + seq![guess_step(gs@[i as int])]);
                    assert(any_completes(dict@, gs@.take(i + 1), c) == any_completes(
                        dict@,
                        taken,
                        c,
                    )) by {
                        if any_completes(dict@, taken, c) {
                            let j = choose|j: int|
                                0 <= j < taken.len() && guess_completes(
                                    dict@,
                                    #[trigger] taken[j],
                                    c,
                                );
                            assert(guess_completes(dict@, gs@.take(i + 1)[j], c));
                        } else if any_completes(dict@, gs@.take(i + 1), c) {
                            let j = choose|j: int|
                                0 <= j < gs@.take(i + 1).len() && guess_completes(
                                    dict@,
                                    #[trigger] gs@.take(i + 1)[j],
                                    c,
                                );
                            assert(j < taken.len());
                            assert(guess_completes(dict@, taken[j], c));
                        }
                    }
                }
            }
        } else {
            proof {
                assert(!guess_matches(dict@, gs@[i as int], c));
                assert(advance_guesses(dict@, gs@.take(i + 1), c) =~= kept@);
                assert(any_completes(dict@, gs@.take(i + 1), c) == any_completes(
                    dict@,
                    taken,
                    c,
                )) by {
                    if any_completes(dict@, taken, c) {
                        let j = choose|j: int|
                            0 <= j < taken.len() && guess_completes(
                                dict@,
                                #[trigger] taken[j],
                                c,
                            );
                        assert(guess_completes(dict@, gs@.take(i + 1)[j], c));
                    } else if any_completes(dict@, gs@.take(i + 1), c) {
                        let j = choose|j: int|
                            0 <= j < gs@.take(i + 1).len() && guess_completes(
                                dict@,
                                #[trigger] gs@.take(i + 1)[j],
                                c,
                            );
                        assert(j < taken.len());
                        assert(guess_completes(dict@, taken[j], c));
                    }
                }
            }
        }
        i = i + 1;
    }
    proof {
        assert(gs@.take(n as int) =~= gs@);
    }
    (kept, completed)
}

/// Appends one full-length hypothesis per dictionary word.
fn append_fresh(dict: &Dictionary, out: &mut Vec<Guess>)
    ensures
        final(out)@ == old(out)@ + fresh_guesses(dict@),
{
    let n = dict.len();
    let mut i: usize = 0;
    while i < n
        invariant
            i <= n,
            n == dict@.len(),
            out@ == old(out)@ + fresh_guesses(dict@).take(i as int),
        decreases n - i,
    {
        let ghost pre = out@;
        out.push(Guess { word: i, pos: 0 });
        proof {
            assert(fresh_guesses(dict@).take(i + 1) =~= fresh_guesses(dict@).take(i as int).push(
                Guess { word: i, pos: 0 },
            ));
            assert(out@ =~= old(out)@ + fresh_guesses(dict@).take(i + 1));
        }
        i = i + 1;
    }
    proof {
        assert(fresh_guesses(dict@).take(n as int) =~= fresh_guesses(dict@));
    }
}

/// The mathematical contents of a list of returned words.
pub open spec fn views_of(ws: Seq<Vec<u8>>) -> Seq<Seq<u8>> {
    ws.map_values(|w: Vec<u8>| w@)
}

/// Word `t` of the dictionary matches the message window starting at `j`.
spec fn window_matches(dict: Seq<Seq<u8>>, msg: Seq<u8>, j: int, t: int) -> bool {
    &&& 0 <= t < dict.len()
    &&& 0 <= j
    &&& j + dict[t].len() <= msg.len()
    &&& upcase(dict[t]) == upcase(msg.subrange(j, j + dict[t].len()))
}

/// The recorded predecessor of position `k` is honest: the word it names
/// matches the bytes before `k` and leads back to a strictly cheaper
/// reachable position.
spec fn via_ok(
    dict: Seq<Seq<u8>>,
    msg: Seq<u8>,
    dist: Seq<Option<usize>>,
    back: Seq<usize>,
    k: int,
) -> bool {
    let t = back[k] as int;
    &&& 0 <= t < dict.len()
    &&& 1 <= dict[t].len() <= k
    &&& upcase(dict[t]) == upcase(msg.subrange(k - dict[t].len(), k))
    &&& dist[k - dict[t].len()] is Some
    &&& dist[k - dict[t].len()]->0 < dist[k]->0
}

/// The shortest-path table is well-formed: position 0 costs nothing, costs
/// are bounded by position, and every reachable position has an honest
/// predecessor.
spec fn table_ok(
    dict: Seq<Seq<u8>>,
    msg: Seq<u8>,
    dist: Seq<Option<usize>>,
    back: Seq<usize>,
) -> bool {
    &&& dist.len() == msg.len() + 1
    &&& back.len() == msg.len() + 1
    &&& dist[0] is Some && dist[0]->0 == 0
    &&& forall|k: int| 0 <= k <= msg.len() && (#[trigger] dist[k]) is Some ==> dist[k]->0 <= k
    &&& forall|k: int|
        1 <= k <= msg.len() && (#[trigger] dist[k]) is Some ==> via_ok(dict, msg, dist, back, k)
}

/// Every decomposition of a message prefix up to `upto` is matched or beaten
/// by the table.
spec fn finals_ok(dict: Seq<Seq<u8>>, msg: Seq<u8>, dist: Seq<Option<usize>>, upto: int) -> bool {
    forall|k: int, ws: Seq<Seq<u8>>|
        0 <= k <= upto && #[trigger] is_decomposition(dict, msg.take(k), ws) ==> dist[k] is Some
            && dist[k]->0 <= ws.len()
}

/// Every edge out of a processed position has been relaxed.
spec fn relaxed_ok(dict: Seq<Seq<u8>>, msg: Seq<u8>, dist: Seq<Option<usize>>, upto: int) -> bool {
    forall|j: int, t: int|
        0 <= j < upto && dist[j] is Some && #[trigger] window_matches(dict, msg, j, t)
            ==> dist[j + dict[t].len()] is Some && dist[j + dict[t].len()]->0 <= dist[j]->0 + 1
}

/// Edges out of position `i` through the first `upto_t` words have been
/// relaxed.
spec fn row_relaxed(
    dict: Seq<Seq<u8>>,
    msg: Seq<u8>,
    dist: Seq<Option<usize>>,
    i: int,
    upto_t: int,
) -> bool {
    forall|t: int|
        0 <= t < upto_t && dist[i] is Some && #[trigger] window_matches(dict, msg, i, t)
            ==> dist[i + dict[t].len()] is Some && dist[i + dict[t].len()]->0 <= dist[i]->0 + 1
}

/// Fills the fewest-words table over message positions by relaxing, in
/// position order, every dictionary word that matches at each reachable
/// position.
#[verifier::loop_isolation(false)]
fn build_table(dict: &Dictionary, msg: &Vec<u8>) -> (out: (Vec<Option<usize>>, Vec<usize>))
    requires
        dict_wf(dict@),
    ensures
        table_ok(dict@, msg@, out.0@, out.1@),
        finals_ok(dict@, msg@, out.0@, msg@.len() as int),
{
    let n = msg.len();
    let mut dist: Vec<Option<usize>> = Vec::new();
    let mut back: Vec<usize> = Vec::new();
    dist.push(Some(0));
    back.push(0);
    let mut k: usize = 0;
    while k < n
        invariant
            k <= n,
            dist@.len() == k + 1,
            back@.len() == k + 1,
            dist@[0] is Some && dist@[0]->0 == 0,
            forall|j: int| 1 <= j < k + 1 ==> (#[trigger] dist@[j]) is None,
        decreases n - k,
    {
        dist.push(None);
        back.push(0);
        k = k + 1;
    }
    proof {
        assert forall|k2: int, ws2: Seq<Seq<u8>>|
            0 <= k2 <= 0 && #[trigger] is_decomposition(dict@, msg@.take(k2), ws2) implies dist@[k2]
            is Some && dist@[k2]->0 <= ws2.len() by {}
    }
    let mut i: usize = 0;
    while i < n
        invariant
            i <= n,
            table_ok(dict@, msg@, dist@, back@),
            finals_ok(dict@, msg@, dist@, i as int),
            relaxed_ok(dict@, msg@, dist@, i as int),
        decreases n - i,
    {
        let di_opt = dist[i];
        if let Some(di) = di_opt {
            let dlen = dict.len();
            let mut t: usize = 0;
            while t < dlen
                invariant
                    t <= dlen,
                    table_ok(dict@, msg@, dist@, back@),
                    finals_ok(dict@, msg@, dist@, i as int),
                    relaxed_ok(dict@, msg@, dist@, i as int),
                    dist@[i as int] is Some && dist@[i as int]->0 == di,
                    row_relaxed(dict@, msg@, dist@, i as int, t as int),
                decreases dlen - t,
            {
                let ghost d = dict@;
                let ghost m = msg@;
                let w = dict.word(t);
                let wl = w.len();
                proof {
                    assert(wf_word(d[t as int]));
                }
                if wl <= n - i && word_matches_at(w, msg, i) {
                    let kpos = i + wl;
                    let ghost ki = kpos as int;
                    let nd = di + 1;
                    proof {
                        assert(window_matches(d, m, i as int, t as int));
                    }
                    let improve = match dist[kpos] {
                        None => true,
                        Some(e) => nd < e,
                    };
                    if improve {
                        let ghost dist0 = dist@;
                        let ghost back0 = back@;
                        dist.set(kpos, Some(nd));
                        back.set(kpos, t);
                        proof {
                            assert forall|k2: int|
                                0 <= k2 <= m.len() && (#[trigger] dist@[k2]) is Some implies (dist@[
                                k2])->0 <= k2 by {
                                if k2 != ki {
                                    assert(dist@[k2] == dist0[k2]);
                                }
                            }
                            assert forall|k2: int|
                                1 <= k2 <= m.len() && (#[trigger] dist@[k2]) is Some implies via_ok(
                                d,
                                m,
                                dist@,
                                back@,
                                k2,
                            ) by {
                                if k2 == ki {
                                    assert(back@[ki] == t);
                                    assert(upcase(d[t as int]) == upcase(
                                        m.subrange(ki - d[t as int].len(), ki),
                                    ));
                                    assert(dist@[ki - d[t as int].len()] == dist0[i as int]);
                                } else {
                                    assert(dist@[k2] == dist0[k2]);
                                    assert(via_ok(d, m, dist0, back0, k2));
                                    let t2 = back0[k2] as int;
                                    let base = k2 - d[t2].len();
                                    if base != ki {
                                        assert(dist@[base] == dist0[base]);
                                    }
                                }
                            }
                            assert forall|k2: int, ws2: Seq<Seq<u8>>|
                                0 <= k2 <= i && #[trigger] is_decomposition(
                                    d,
                                    m.take(k2),
                                    ws2,
                                ) implies dist@[k2] is Some && dist@[k2]->0 <= ws2.len() by {
                                assert(dist@[k2] == dist0[k2]);
                            }
                            assert forall|j2: int, t2: int|
                                0 <= j2 < i && dist@[j2] is Some && #[trigger] window_matches(
                                    d,
                                    m,
                                    j2,
                                    t2,
                                ) implies dist@[j2 + d[t2].len()] is Some && dist@[j2
                                + d[t2].len()]->0 <= dist@[j2]->0 + 1 by {
                                assert(dist@[j2] == dist0[j2]);
                                let tgt = j2 + d[t2].len();
                                if tgt != ki {
                                    assert(dist@[tgt] == dist0[tgt]);
                                }
                            }
                            assert forall|t2: int|
                                0 <= t2 < t + 1 && dist@[i as int] is Some
                                    && #[trigger] window_matches(d, m, i as int, t2) implies (dist@[i
                                + d[t2].len()]) is Some && dist@[i + d[t2].len()]->0 <= dist@[i as int]->0 + 1 by {
                                let tgt = i + d[t2].len();
                                if t2 == t {
                                    assert(tgt == ki);
                                } else {
                                    if tgt != ki {
                                        assert(dist@[tgt] == dist0[tgt]);
                                    }
                                }
                            }
                        }
                    } else {
                        proof {
                            assert forall|t2: int|
                                0 <= t2 < t + 1 && dist@[i as int] is Some
                                    && #[trigger] window_matches(d, m, i as int, t2) implies (dist@[i
                                + d[t2].len()]) is Some && dist@[i + d[t2].len()]->0 <= dist@[i as int]->0 + 1 by {}
                        }
                    }
                } else {
                    proof {
                        assert(!window_matches(d, m, i as int, t as int));
                        assert forall|t2: int|
                            0 <= t2 < t + 1 && dist@[i as int] is Some
                                && #[trigger] window_matches(d, m, i as int, t2) implies dist@[i
                            + d[t2].len()] is Some && dist@[i + d[t2].len()]->0 <= dist@[i as int]->0
                            + 1 by {}
                    }
                }
                t = t + 1;
            }
        }
        proof {
            let d = dict@;
            let m = msg@;
            assert(row_relaxed(d, m, dist@, i as int, d.len() as int));
            assert forall|j2: int, t2: int|
                0 <= j2 < i + 1 && dist@[j2] is Some && #[trigger] window_matches(
                    d,
                    m,
                    j2,
                    t2,
                ) implies dist@[j2 + d[t2].len()] is Some && dist@[j2 + d[t2].len()]->0 <= dist@[j2]->0
                + 1 by {
                if j2 == i {
                    assert(window_matches(d, m, i as int, t2));
                }
            }
            assert forall|k2: int, ws2: Seq<Seq<u8>>|
                0 <= k2 <= i + 1 && #[trigger] is_decomposition(d, m.take(k2), ws2) implies dist@[
            k2] is Some && dist@[k2]->0 <= ws2.len() by {
                if k2 == i + 1 {
                    lemma_decomposition_nonempty(d, m.take(k2), ws2);
                    lemma_decomposition_split(d, m, k2, ws2);
                    let wlast = ws2.last();
                    let tw = choose|tw: int| 0 <= tw < d.len() && d[tw] == wlast;
                    assert(wf_word(d[tw]));
                    let j2 = k2 - wlast.len();
                    assert(is_decomposition(d, m.take(j2), ws2.drop_last()));
                    assert(dist@[j2] is Some && dist@[j2]->0 <= ws2.drop_last().len());
                    assert(upcase(d[tw]) == upcase(m.subrange(j2, j2 + d[tw].len())));
                    assert(window_matches(d, m, j2, tw));
                }
            }
        }
        i = i + 1;
    }
    (dist, back)
}

/// Walks the predecessor chain back from the end of the message, collecting
/// the chosen words; the result decomposes the whole message in at most
/// `dist[n]` words.
#[verifier::loop_isolation(false)]
fn reconstruct(
    dict: &Dictionary,
    msg: &Vec<u8>,
    dist: &Vec<Option<usize>>,
    back: &Vec<usize>,
) -> (ws: Vec<Vec<u8>>)
    requires
        dict_wf(dict@),
        table_ok(dict@, msg@, dist@, back@),
        dist@[msg@.len() as int] is Some,
    ensures
        is_decomposition(dict@, msg@, views_of(ws@)),
        views_of(ws@).len() <= dist@[msg@.len() as int]->0,
{
    let n = msg.len();
    let dn = match dist[n] {
        Some(v) => v,
        None => 0,
    };
    let mut rev: Vec<Vec<u8>> = Vec::new();
    let mut k: usize = n;
    let mut dk: usize = dn;
    proof {
        assert(msg@.skip(n as int) =~= Seq::<u8>::empty());
        assert(views_of(rev@).reverse() =~= Seq::<Seq<u8>>::empty());
        assert(concat_up(views_of(rev@).reverse()) =~= upcase(msg@.skip(n as int)));
    }
    while k > 0
        invariant
            k <= n,
            dist@[k as int] is Some && dist@[k as int]->0 == dk,
            forall|x: int|
                0 <= x < rev@.len() ==> dict@.contains(#[trigger] views_of(rev@)[x]),
            concat_up(views_of(rev@).reverse()) == upcase(msg@.skip(k as int)),
            rev@.len() + dk <= dn,
        decreases dk,
    {
        let ghost d = dict@;
        let ghost m = msg@;
        proof {
            assert(via_ok(d, m, dist@, back@, k as int));
        }
        let t = back[k];
        let w = dict.word(t);
        let wl = w.len();
        let wcopy = copy_bytes(w);
        let ghost rev0 = rev@;
        rev.push(wcopy);
        let k2 = k - wl;
        let dk2 = match dist[k2] {
            Some(v) => v,
            None => 0,
        };
        proof {
            assert(views_of(rev@) =~= views_of(rev0).push(d[t as int]));
            assert(views_of(rev@).reverse() =~= seq![d[t as int]] + views_of(rev0).reverse());
            lemma_concat_up_first(views_of(rev0).reverse(), d[t as int]);
            assert(m.skip(k2 as int) =~= m.subrange(k2 as int, k as int) + m.skip(k as int));
            lemma_upcase_add(m.subrange(k2 as int, k as int), m.skip(k as int));
            assert(concat_up(views_of(rev@).reverse()) == upcase(m.skip(k2 as int)));
            assert forall|x: int| 0 <= x < rev@.len() implies dict@.contains(
                #[trigger] views_of(rev@)[x],
            ) by {
                if x < rev0.len() {
                    assert(views_of(rev@)[x] == views_of(rev0)[x]);
                } else {
                    assert(views_of(rev@)[x] == d[t as int]);
                }
            }
        }
        k = k2;
        dk = dk2;
    }
    let mut ws: Vec<Vec<u8>> = Vec::new();
    let total = rev.len();
    let mut idx: usize = 0;
    while idx < total
        invariant
            idx <= total,
            ws@.len() == idx,
            forall|x: int| 0 <= x < idx ==> #[trigger] ws@[x]@ == rev@[total - 1 - x]@,
        decreases total - idx,
    {
        let w2 = copy_bytes(&rev[total - 1 - idx]);
        ws.push(w2);
        idx = idx + 1;
    }
    proof {
        assert(msg@.skip(0) =~= msg@);
        assert(views_of(ws@) =~= views_of(rev@).reverse());
    }
    ws
}

impl Ouija {
    /// Computes the minimum-length decomposition of the accumulated message
    /// into dictionary words (fewest words win; among equals the chain found
    /// through dictionary order), or `None` when no decomposition exists.
    pub fn find_valid_sequences(&self) -> (r: Option<Vec<Vec<u8>>>)
        requires
            self.wf(),
        ensures
            (r is Some) <==> decomposable(self.dict@, self.message@),
            r matches Some(ws) ==> is_decomposition(self.dict@, self.message@, views_of(ws@)),
            r matches Some(ws) ==> forall|ws2: Seq<Seq<u8>>|
                is_decomposition(self.dict@, self.message@, ws2) ==> views_of(ws@).len()
                    <= ws2.len(),
    {
        let ghost d = self.dict@;
        let ghost m = self.message@;
        let dict_ref = &*self.dict;
        let (dist, back) = build_table(dict_ref, &self.message);
        let n = self.message.len();
        proof {
            assert(m.take(n as int) =~= m);
        }
        if dist[n].is_some() {
            let ws = reconstruct(dict_ref, &self.message, &dist, &back);
            proof {
                assert(is_decomposition(d, m, views_of(ws@)));
                assert forall|ws2: Seq<Seq<u8>>| is_decomposition(d, m, ws2) implies views_of(
                    ws@,
                ).len() <= ws2.len() by {
                    assert(is_decomposition(d, m.take(n as int), ws2));
                }
            }
            Some(ws)
        } else {
            proof {
                if decomposable(d, m) {
                    let ws2 = choose|ws2: Seq<Seq<u8>>| is_decomposition(d, m, ws2);
                    assert(is_decomposition(d, m.take(n as int), ws2));
                    assert(false);
                }
            }
            None
        }
    }

    /// Closes out a session.  At a boundary it returns `Done` with the
    /// minimum-length decomposition of the message; anywhere else — in
    /// particular whenever the message has no decomposition at all — it
    /// rejects, leaving the engine untouched.
    pub fn finalize(&self) -> (r: OuijaStatus)
        requires
            self.wf(),
        ensures
            !(r is Accept),
            (r is Done) <==> self.accepting,
            !decomposable(self.dict@, self.message@) ==> (r is Reject),
            r matches OuijaStatus::Done(ws) ==> is_decomposition(self.dict@, self.message@, views_of(ws@)),
            r matches OuijaStatus::Done(ws) ==> ws@.len() >= 1,
            r matches OuijaStatus::Done(ws) ==> forall|ws2: Seq<Seq<u8>>|
                is_decomposition(self.dict@, self.message@, ws2) ==> views_of(ws@).len()
                    <= ws2.len(),
    {
        if !self.accepting {
            return OuijaStatus::Reject;
        }
        match self.find_valid_sequences() {
            Some(ws) => {
                proof {
                    lemma_decomposition_nonempty(self.dict@, self.message@, views_of(ws@));
                }
                OuijaStatus::Done(ws)
            },
            None => {
                proof {
                    assert(false);
                }
                OuijaStatus::Reject
            },
        }
    }
}

} // verus!
