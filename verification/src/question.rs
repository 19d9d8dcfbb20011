//! The question engine: filtering which cards produce questions, the
//! multiple-choice answer-list algorithm, and the exact-length,
//! order-stable question enumerator.

use vstd::prelude::*;
use crate::card::{CardSet, Flashcard, McCard, RecallSettings, RecallType, Side};
use crate::random::RandomSource;
use crate::text::str_eq;

verus! {

broadcast use vstd::function::group_function_axioms;

/// How many times to try to find enough decoys before giving up.
const FIND_DECOY_ATTEMPTS: usize = 24;

/// Which question categories a caller wants generated.
#[derive(Debug, Clone)]
pub struct Conditions {
    /// Whether to show the front of a card and ask the player what was on
    /// the back.
    pub include_card_back: bool,
    /// Whether to show the back of a card and ask the player what was on
    /// the front.
    pub include_card_front: bool,
    /// Whether to include multiple choice cards.
    pub include_mc: bool,
}

impl Conditions {
    /// Every category selected.
    pub fn include_all() -> (r: Conditions)
        ensures
            r.include_card_back,
            r.include_card_front,
            r.include_mc,
    {
        Conditions { include_card_back: true, include_card_front: true, include_mc: true }
    }

    /// No category selected.
    pub fn include_none() -> (r: Conditions)
        ensures
            !r.include_card_back,
            !r.include_card_front,
            !r.include_mc,
    {
        Conditions { include_card_back: false, include_card_front: false, include_mc: false }
    }
}

impl Default for Conditions {
    /// By default every category is selected.
    fn default() -> (r: Self)
        ensures
            r.include_card_back,
            r.include_card_front,
            r.include_mc,
    {
        Conditions { include_card_back: true, include_card_front: true, include_mc: true }
    }
}

/// What a question is about: a flashcard taken from a given side, or a
/// multiple-choice card, each named by its index into the owning set.
#[derive(Debug, Clone, Copy, PartialEq, Eq, Structural)]
pub enum QuestionTy {
    /// A flashcard question; `side` is the side of the card the player must
    /// recall.
    Flashcard { index: usize, side: Side },
    /// A multiple-choice question.
    McCard { index: usize },
}

/// A question and answer.
///
/// Created by [`CardSet::questions`].
///
/// Note that this is NOT a card; some cards may generate as many as 2
/// questions while others may not generate any, depending on the settings
/// used when converting cards to questions.
#[derive(Debug)]
pub struct Question<'a> {
    pub(crate) set: &'a CardSet,
    pub(crate) ty: QuestionTy,
}

impl<'a> PartialEq for Question<'a> {
    /// Two questions are equal when they name the same card, by index and
    /// tested side, in owning sets that hold the same content. Content
    /// equality stands in for identity of the owning set, which cannot be
    /// observed: it tells sets apart exactly when they store different
    /// policies or texts.
    fn eq(&self, other: &Self) -> (r: bool) {
        self.ty == other.ty && self.set.same_content(other.set)
    }
}

impl<'a> vstd::std_specs::cmp::PartialEqSpecImpl for Question<'a> {
    open spec fn obeys_eq_spec() -> bool {
        true
    }

    open spec fn eq_spec(&self, other: &Self) -> bool {
        self.spec_ty() == other.spec_ty() && self.spec_set().spec_same_content(other.spec_set())
    }
}

impl<'a> Question<'a> {
    /// The set this question was generated from.
    pub closed spec fn spec_set(self) -> CardSet {
        *self.set
    }

    /// What this question is about.
    pub closed spec fn spec_ty(self) -> QuestionTy {
        self.ty
    }

    /// Well-formed: the question names a card inside the bounds of its set.
    pub open spec fn wf(self) -> bool {
        match self.spec_ty() {
            QuestionTy::Flashcard { index, side } => index < self.spec_set().flashcards@.len(),
            QuestionTy::McCard { index } => index < self.spec_set().mc_cards@.len(),
        }
    }

    /// The text variants that count as correct answers: the tested side of
    /// a flashcard, or the answer of a multiple-choice card.
    pub open spec fn answer_variants(self) -> Seq<Seq<char>> {
        match self.spec_ty() {
            QuestionTy::Flashcard { index, side } => self.spec_set().flashcards@[
                index as int
            ].spec_side(side)@,
            QuestionTy::McCard { index } => self.spec_set().mc_cards@[index as int].answer@,
        }
    }

    /// The text variants shown to the player: the opposite side of a
    /// flashcard, or the question of a multiple-choice card.
    pub open spec fn display_variants(self) -> Seq<Seq<char>> {
        match self.spec_ty() {
            QuestionTy::Flashcard { index, side } => self.spec_set().flashcards@[
                index as int
            ].spec_side(side.spec_opposite())@,
            QuestionTy::McCard { index } => self.spec_set().mc_cards@[index as int].question@,
        }
    }

    /// The matching rules that grade answers to this question.
    pub open spec fn rules(self) -> RecallSettings {
        match self.spec_ty() {
            QuestionTy::Flashcard { index, side } => self.spec_set().spec_flashcard_recall_settings(
                side,
            ),
            QuestionTy::McCard { index } => self.spec_set().recall_mc,
        }
    }

    /// Whether `answer` is a correct answer: it matches some stored answer
    /// variant under this question's rules.
    pub open spec fn spec_is_correct(self, answer: Seq<char>) -> bool {
        exists|i: int|
            0 <= i < self.answer_variants().len() && self.rules().spec_test_match(
                self.answer_variants()[i],
                answer,
            )
    }

    /// The number of answer-list entries this question could at most
    /// supply: for a flashcard, the number of flashcards in the set; for a
    /// multiple-choice card, its stored decoys plus the correct answer.
    pub open spec fn max_candidates(self) -> int {
        match self.spec_ty() {
            QuestionTy::Flashcard { index, side } => self.spec_set().flashcards@.len() as int,
            QuestionTy::McCard { index } => self.spec_set().mc_cards@[index as int].decoys@.len()
                as int + 1,
        }
    }

    /// The requested answer-list size, capped at what this question could
    /// at most supply.
    pub open spec fn capped_count(self, count: int) -> int {
        if count <= self.max_candidates() {
            count
        } else {
            self.max_candidates()
        }
    }

    /// Whether `t` is a stored text variant of the tested side of some
    /// *other* flashcard of the set: the decoy pool of a flashcard
    /// question.
    pub open spec fn from_other_flashcard(self, t: Seq<char>) -> bool {
        match self.spec_ty() {
            QuestionTy::Flashcard { index, side } => exists|c: int, j: int|
                0 <= c < self.spec_set().flashcards@.len() && c != index && 0 <= j
                    < self.spec_set().flashcards@[c].spec_side(side)@.len() && t
                    == self.spec_set().flashcards@[c].spec_side(side)@[j],
            QuestionTy::McCard { index } => false,
        }
    }

    /// Whether `t` is a stored decoy text of this multiple-choice card: the
    /// decoy pool of a multiple-choice question.
    pub open spec fn from_decoy_bag(self, t: Seq<char>) -> bool {
        match self.spec_ty() {
            QuestionTy::Flashcard { index, side } => false,
            QuestionTy::McCard { index } => exists|j: int|
                0 <= j < self.spec_set().mc_cards@[index as int].decoys@.len() && t
                    == self.spec_set().mc_cards@[index as int].decoys@[j],
        }
    }

    /// Whether `t` is one of the stored answer variants, letter for letter.
    pub open spec fn is_answer_variant(self, t: Seq<char>) -> bool {
        exists|i: int| 0 <= i < self.answer_variants().len() && t == self.answer_variants()[i]
    }

    /// For a multiple-choice question: no stored decoy text literally
    /// equals a stored answer variant. On such cards no sampled decoy is
    /// ever dropped, so the generated list size is fully determined.
    pub open spec fn decoys_avoid_answers(self) -> bool {
        match self.spec_ty() {
            QuestionTy::Flashcard { index, side } => true,
            QuestionTy::McCard { index } => {
                let dec = self.spec_set().mc_cards@[index as int].decoys@;
                forall|j: int, i: int|
                    #![trigger dec[j], self.answer_variants()[i]]
                    0 <= j < dec.len() && 0 <= i < self.answer_variants().len() ==> dec[j]
                        != self.answer_variants()[i]
            },
        }
    }

    /// Question to ask the player, drawn at random from the displayable
    /// variants; nothing when that side stores no text.
    pub fn question(&self, rng: &mut RandomSource) -> (r: Option<&'a str>)
        requires
            self.wf(),
        ensures
            match r {
                Some(t) => self.display_variants().len() > 0 && exists|i: int|
                    0 <= i < self.display_variants().len() && t@ == self.display_variants()[i],
                None => self.display_variants().len() == 0,
            },
    {
        match self.ty {
            QuestionTy::Flashcard { index, side } => {
                let card = &self.set.flashcards[index];
                card.side(side.opposite()).any_text(rng)
            },
            QuestionTy::McCard { index } => self.set.mc_cards[index].question.any_text(rng),
        }
    }

    /// Whether or not a string is a correct answer to this question.
    ///
    /// Some questions may have more than one correct answer.
    pub fn is_correct_answer(&self, answer: &str) -> (r: bool)
        requires
            self.wf(),
        ensures
            r == self.spec_is_correct(answer@),
    {
        match self.ty {
            QuestionTy::Flashcard { index, side } => {
                let card = &self.set.flashcards[index];
                card.side(side).matches_text(self.set.flashcard_recall_settings(side), answer)
            },
            QuestionTy::McCard { index } => self.set.mc_cards[index].answer.matches_text(
                &self.set.recall_mc,
                answer,
            ),
        }
    }

    /// Returns a list containing the correct answer to this question at a
    /// random position amid decoys, or nothing when no meaningful list can
    /// be assembled.
    ///
    /// For flashcards, decoys are drawn from the other flashcards' text on
    /// the tested side, by bounded random retry: the result never exceeds
    /// `count` entries or the number of flashcards, never repeats a decoy
    /// text, and never includes a text that counts as a correct answer,
    /// but it may be shorter than requested — or absent — when the retry
    /// budget runs out before enough distinct decoys are found.
    ///
    /// For multiple-choice cards, decoys are sampled from the card's own
    /// decoy bag without replacement — distinct stored positions, though
    /// two positions may store the same text. A sampled decoy whose text
    /// equals the correct answer is dropped, so the correct answer appears
    /// exactly once. On cards where no stored decoy equals an answer
    /// variant, nothing is ever dropped: the result then has exactly
    /// `count` entries, capped at the bag size plus one, and is absent
    /// exactly when the answer side is empty or fewer than two entries
    /// could be assembled.
    pub fn mc_answers(&self, count: usize, rng: &mut RandomSource) -> (r: Option<McList>)
        requires
            self.wf(),
        ensures
            (match r {
                Some(m) => {
                    &&& m.wf()
                    &&& 2 <= m@.len()
                    &&& m@.len() <= count
                    &&& m@.len() <= self.max_candidates()
                    &&& self.is_answer_variant(m@[m.spec_correct_index()])
                    &&& self.spec_is_correct(m@[m.spec_correct_index()])
                    &&& forall|k: int|
                        0 <= k < m@.len() && k != m.spec_correct_index() ==> (#[trigger] m@[k])
                            != m@[m.spec_correct_index()]
                },
                None => true,
            }),
            self.answer_variants().len() == 0 ==> r is None,
            self.capped_count(count as int) < 2 ==> r is None,
            (match r {
                Some(m) => self.spec_ty() is Flashcard ==> {
                    &&& forall|k: int|
                        0 <= k < m@.len() && k != m.spec_correct_index()
                            ==> !self.spec_is_correct(#[trigger] m@[k])
                            && self.from_other_flashcard(m@[k])
                    &&& forall|k1: int, k2: int|
                        0 <= k1 < k2 < m@.len() && k1 != m.spec_correct_index() && k2
                            != m.spec_correct_index() ==> m@[k1] != m@[k2]
                },
                None => true,
            }),
            self.spec_ty() is McCard ==> (r is Some ==> self.answer_variants().len() > 0
                && self.capped_count(count as int) >= 2),
            self.spec_ty() is McCard && self.decoys_avoid_answers() ==> (r is Some
                <==> self.answer_variants().len() > 0 && self.capped_count(count as int) >= 2),
            (match r {
                Some(m) => match self.spec_ty() {
                    QuestionTy::Flashcard { index, side } => true,
                    QuestionTy::McCard { index } => {
                        let dec = self.spec_set().mc_cards@[index as int].decoys@;
                        let others = m@.remove(m.spec_correct_index());
                        &&& (self.decoys_avoid_answers() ==> m@.len() == self.capped_count(
                            count as int,
                        ))
                        &&& forall|k: int|
                            0 <= k < m@.len() && k != m.spec_correct_index()
                                ==> self.from_decoy_bag(#[trigger] m@[k])
                        &&& exists|idx: Seq<int>|
                            {
                                &&& idx.len() == others.len()
                                &&& (forall|t: int|
                                    0 <= t < idx.len() ==> 0 <= (#[trigger] idx[t]) < dec.len()
                                        && others[t] == dec[idx[t]])
                                &&& (forall|t1: int, t2: int|
                                    0 <= t1 < t2 < idx.len() ==> idx[t1] != idx[t2])
                            }
                    },
                },
                None => true,
            }),
    {
        match self.ty {
            QuestionTy::Flashcard { index, side } => {
                let card = &self.set.flashcards[index];
                let answer_side = card.side(side);
                proof {
                    assert(answer_side@ == self.answer_variants());
                }
                let correct_text = match answer_side.any_text(rng) {
                    Some(t) => t,
                    None => {
                        return None;
                    },
                };
                let flashcard_count = self.set.flashcards.len();
                let capped = if count < flashcard_count {
                    count
                } else {
                    flashcard_count
                };
                if capped < 2 {
                    return None;
                }
                let settings = self.set.flashcard_recall_settings(side);
                proof {
                    assert(*settings == self.rules());
                }
                let mut list: Vec<String> = Vec::new();
                let mut attempts: usize = 0;
                while attempts < FIND_DECOY_ATTEMPTS && list.len() < capped - 1
                    invariant
                        self.wf(),
                        self.spec_ty() == (QuestionTy::Flashcard { index, side }),
                        attempts <= FIND_DECOY_ATTEMPTS,
                        2 <= capped <= flashcard_count,
                        capped <= count,
                        flashcard_count == self.spec_set().flashcards@.len(),
                        index < flashcard_count,
                        *settings == self.rules(),
                        answer_side@ == self.answer_variants(),
                        list.deep_view().len() <= capped - 1,
                        forall|k: int|
                            0 <= k < list.deep_view().len() ==> !self.spec_is_correct(
                                #[trigger] list.deep_view()[k],
                            ),
                        forall|k1: int, k2: int|
                            0 <= k1 < k2 < list.deep_view().len() ==> list.deep_view()[k1]
                                != list.deep_view()[k2],
                        forall|k: int|
                            0 <= k < list.deep_view().len() ==> self.from_other_flashcard(
                                #[trigger] list.deep_view()[k],
                            ),
                    decreases FIND_DECOY_ATTEMPTS - attempts,
                {
                    attempts = attempts + 1;
                    let rand_index = rng.below(flashcard_count);
                    if rand_index != index {
                        let other = &self.set.flashcards[rand_index];
                        let other_side = other.side(side);
                        match other_side.any_text(rng) {
                            Some(text) => {
                                if !answer_side.matches_text(settings, text) && !texts_contain(
                                    &list,
                                    text,
                                ) {
                                    let ghost prev = list.deep_view();
                                    list.push(text.to_owned());
                                    proof {
                                        assert(list.deep_view() =~= prev.push(text@));
                                        assert(self.from_other_flashcard(text@)) by {
                                            let j = choose|j: int|
                                                0 <= j < other_side@.len() && text@
                                                    == other_side@[j];
                                            assert(0 <= j < self.spec_set().flashcards@[
                                                rand_index as int
                                            ].spec_side(side)@.len());
                                            assert(text@ == self.spec_set().flashcards@[
                                                rand_index as int
                                            ].spec_side(side)@[j]);
                                        }
                                        assert forall|k: int|
                                            0 <= k < list.deep_view().len() implies self.from_other_flashcard(
                                            #[trigger] list.deep_view()[k],
                                        ) by {
                                            if k < prev.len() {
                                                assert(list.deep_view()[k] == prev[k]);
                                            } else {
                                                assert(list.deep_view()[k] == text@);
                                            }
                                        }
                                    }
                                }
                            },
                            None => {},
                        }
                    }
                }
                if list.len() == 0 {
                    return None;
                }
                let ci = rng.below(list.len() + 1);
                let ghost prev = list.deep_view();
                let ghost oldstr = list@;
                let correct_string = correct_text.to_owned();
                let ghost elem = correct_string;
                list.insert(ci, correct_string);
                proof {
                    oldstr.insert_ensures(ci as int, elem);
                    prev.insert_ensures(ci as int, correct_text@);
                    assert forall|k: int|
                        0 <= k < list.deep_view().len() implies list.deep_view()[k] == prev.insert(
                        ci as int,
                        correct_text@,
                    )[k] by {
                        if k < ci {
                            assert(list@[k] == oldstr[k]);
                        } else if k == ci {
                            assert(list@[k] == elem);
                        } else {
                            assert(list@[k] == oldstr[k - 1]);
                        }
                    }
                    assert(list.deep_view() =~= prev.insert(ci as int, correct_text@));
                    assert(self.is_answer_variant(correct_text@)) by {
                        let i = choose|i: int|
                            0 <= i < answer_side@.len() && correct_text@ == answer_side@[i];
                        assert(correct_text@ == self.answer_variants()[i]);
                    }
                    assert(self.spec_is_correct(correct_text@)) by {
                        let i = choose|i: int|
                            0 <= i < answer_side@.len() && correct_text@ == answer_side@[i];
                        assert(self.rules().spec_test_match(self.answer_variants()[i], correct_text@));
                    }
                }
                let m = McList { list, correct_index: ci };
                proof {
                    assert(m@[ci as int] == correct_text@);
                    assert forall|k: int|
                        0 <= k < m@.len() && k != ci implies !self.spec_is_correct(#[trigger] m@[k])
                        && m@[k] != m@[ci as int] && self.from_other_flashcard(m@[k]) by {
                        if k < ci {
                            assert(m@[k] == prev[k]);
                        } else {
                            assert(m@[k] == prev[k - 1]);
                        }
                        if m@[k] == m@[ci as int] {
                            assert(self.spec_is_correct(m@[k]));
                        }
                    }
                    assert forall|k1: int, k2: int|
                        0 <= k1 < k2 < m@.len() && k1 != ci && k2 != ci implies m@[k1] != m@[
                        k2
                    ] by {
                        let k1p: int = if k1 < ci {
                            k1
                        } else {
                            k1 - 1
                        };
                        let k2p: int = if k2 < ci {
                            k2
                        } else {
                            k2 - 1
                        };
                        assert(m@[k1] == prev[k1p]);
                        assert(m@[k2] == prev[k2p]);
                        assert(k1p < k2p);
                    }
                }
                Some(m)
            },
            QuestionTy::McCard { index } => {
                let card = &self.set.mc_cards[index];
                proof {
                    assert(card.answer@ == self.answer_variants());
                }
                let ghost dec = self.spec_set().mc_cards@[index as int].decoys@;
                let correct_text = match card.answer.any_text(rng) {
                    Some(t) => t,
                    None => {
                        return None;
                    },
                };
                let decoy_count = card.decoys.text_count();
                let capped = if count <= decoy_count {
                    count
                } else {
                    decoy_count + 1
                };
                if capped < 2 {
                    return None;
                }
                let picks = rng.sample_distinct(decoy_count, capped - 1);
                let mut kept: Vec<String> = Vec::new();
                let ghost mut origin: Seq<int> = Seq::empty();
                let mut k: usize = 0;
                while k < capped - 1
                    invariant
                        self.wf(),
                        self.spec_ty() == (QuestionTy::McCard { index }),
                        k <= capped - 1,
                        2 <= capped,
                        capped <= count,
                        capped <= decoy_count + 1,
                        capped - 1 == picks@.len(),
                        decoy_count == dec.len(),
                        dec == self.spec_set().mc_cards@[index as int].decoys@,
                        card.decoys@ == dec,
                        card.answer@ == self.answer_variants(),
                        exists|i: int|
                            0 <= i < self.answer_variants().len() && correct_text@
                                == self.answer_variants()[i],
                        forall|t: int| 0 <= t < picks@.len() ==> #[trigger] picks@[t] < decoy_count,
                        forall|t1: int, t2: int|
                            0 <= t1 < t2 < picks@.len() ==> picks@[t1] != picks@[t2],
                        origin.len() == kept.deep_view().len(),
                        kept.deep_view().len() <= k,
                        forall|t: int|
                            0 <= t < origin.len() ==> 0 <= (#[trigger] origin[t]) < dec.len(),
                        forall|t: int|
                            0 <= t < origin.len() ==> kept.deep_view()[t] == dec[(
                            #[trigger] origin[t])],
                        forall|t1: int, t2: int|
                            0 <= t1 < t2 < origin.len() ==> origin[t1] != origin[t2],
                        forall|t: int|
                            0 <= t < origin.len() ==> exists|u: int|
                                0 <= u < k && (#[trigger] origin[t]) == picks@[u] as int,
                        forall|t: int|
                            0 <= t < kept.deep_view().len() ==> (#[trigger] kept.deep_view()[t])
                                != correct_text@,
                        self.decoys_avoid_answers() ==> kept.deep_view().len() == k,
                    decreases capped - 1 - k,
                {
                    let d = card.decoys.nth(picks[k]);
                    if !str_eq(d.as_str(), correct_text) {
                        let ghost prevdv = kept.deep_view();
                        let ghost prev_origin = origin;
                        kept.push(d.clone());
                        proof {
                            origin = origin.push(picks@[k as int] as int);
                            assert(kept.deep_view() =~= prevdv.push(d@));
                            assert(kept.deep_view()[prevdv.len() as int] == dec[picks@[
                                k as int
                            ] as int]);
                            assert forall|t1: int, t2: int|
                                0 <= t1 < t2 < origin.len() implies origin[t1] != origin[
                                t2
                            ] by {
                                if t2 == origin.len() - 1 {
                                    let u = choose|u: int|
                                        0 <= u < k && prev_origin[t1] == picks@[u] as int;
                                    assert(picks@[u] != picks@[k as int]);
                                }
                            }
                        }
                    } else {
                        proof {
                            if self.decoys_avoid_answers() {
                                let i = choose|i: int|
                                    0 <= i < self.answer_variants().len() && correct_text@
                                        == self.answer_variants()[i];
                                assert(dec[picks@[k as int] as int] == correct_text@);
                                assert(dec[picks@[k as int] as int] != self.answer_variants()[i]);
                                assert(false);
                            }
                        }
                    }
                    k = k + 1;
                }
                if kept.len() == 0 {
                    proof {
                        if self.decoys_avoid_answers() {
                            assert(kept.deep_view().len() == capped - 1);
                            assert(false);
                        }
                    }
                    return None;
                }
                let ci = rng.below(kept.len() + 1);
                let ghost prev = kept.deep_view();
                let ghost oldstr = kept@;
                let correct_string = correct_text.to_owned();
                let ghost elem = correct_string;
                let mut list = kept;
                list.insert(ci, correct_string);
                proof {
                    oldstr.insert_ensures(ci as int, elem);
                    prev.insert_ensures(ci as int, correct_text@);
                    assert forall|t: int|
                        0 <= t < list.deep_view().len() implies list.deep_view()[t] == prev.insert(
                        ci as int,
                        correct_text@,
                    )[t] by {
                        if t < ci {
                            assert(list@[t] == oldstr[t]);
                        } else if t == ci {
                            assert(list@[t] == elem);
                        } else {
                            assert(list@[t] == oldstr[t - 1]);
                        }
                    }
                    assert(list.deep_view() =~= prev.insert(ci as int, correct_text@));
                }
                let m = McList { list, correct_index: ci };
                proof {
                    assert(m@[ci as int] == correct_text@);
                    assert(m@.len() == prev.len() + 1);
                    assert(self.is_answer_variant(correct_text@)) by {
                        let i = choose|i: int|
                            0 <= i < card.answer@.len() && correct_text@ == card.answer@[i];
                        assert(correct_text@ == self.answer_variants()[i]);
                    }
                    assert(self.spec_is_correct(correct_text@)) by {
                        let i = choose|i: int|
                            0 <= i < card.answer@.len() && correct_text@ == card.answer@[i];
                        assert(self.rules().spec_test_match(self.answer_variants()[i], correct_text@));
                    }
                    assert forall|t: int|
                        0 <= t < m@.len() && t != ci implies (#[trigger] m@[t]) != m@[ci as int]
                        && self.from_decoy_bag(m@[t]) by {
                        if t < ci {
                            assert(m@[t] == prev[t]);
                            assert(m@[t] == dec[origin[t]]);
                        } else {
                            assert(m@[t] == prev[t - 1]);
                            assert(m@[t] == dec[origin[t - 1]]);
                        }
                    }
                    let others = m@.remove(ci as int);
                    assert(others =~= prev);
                    assert(exists|idx: Seq<int>|
                        {
                            &&& idx.len() == others.len()
                            &&& (forall|t: int|
                                0 <= t < idx.len() ==> 0 <= (#[trigger] idx[t]) < dec.len()
                                    && others[t] == dec[idx[t]])
                            &&& (forall|t1: int, t2: int|
                                0 <= t1 < t2 < idx.len() ==> idx[t1] != idx[t2])
                        }) by {
                        assert(origin.len() == others.len());
                        assert(forall|t: int|
                            0 <= t < origin.len() ==> 0 <= (#[trigger] origin[t]) < dec.len()
                                && others[t] == dec[origin[t]]);
                    }
                }
                Some(m)
            },
        }
    }
}

/// Whether some element of `list` holds exactly this text.
fn texts_contain(list: &Vec<String>, text: &str) -> (r: bool)
    ensures
        r == exists|i: int| 0 <= i < list.deep_view().len() && list.deep_view()[i] == text@,
{
    let n = list.len();
    let mut i: usize = 0;
    while i < n
        invariant
            i <= n,
            n == list.deep_view().len(),
            forall|j: int| 0 <= j < i ==> list.deep_view()[j] != text@,
        decreases n - i,
    {
        if str_eq(list[i].as_str(), text) {
            proof {
                assert(list.deep_view()[i as int] == text@);
            }
            return true;
        }
        i = i + 1;
    }
    false
}

/// A list of decoys and one correct answer to a multiple choice question.
#[derive(Debug, Clone)]
pub struct McList {
    list: Vec<String>,
    correct_index: usize,
}

impl View for McList {
    type V = Seq<Seq<char>>;

    /// The list is modeled as the sequence of its entries' character
    /// sequences, in display order.
    closed spec fn view(&self) -> Seq<Seq<char>> {
        self.list.deep_view()
    }
}

impl McList {
    /// The position of the correct answer, as a specification-level
    /// function.
    pub closed spec fn spec_correct_index(self) -> int {
        self.correct_index as int
    }

    /// Well-formed: the correct index lies inside the list.
    pub open spec fn wf(self) -> bool {
        0 <= self.spec_correct_index() < self@.len()
    }

    /// The number of entries in the list.
    pub fn len(&self) -> (r: usize)
        ensures
            r == self@.len(),
    {
        self.list.len()
    }

    /// The entry at the index.
    pub fn get(&self, index: usize) -> (r: &str)
        requires
            index < self@.len(),
        ensures
            r@ == self@[index as int],
    {
        self.list[index].as_str()
    }

    /// Whether some entry of the list holds exactly this text.
    pub fn contains(&self, text: &str) -> (r: bool)
        ensures
            r == exists|i: int| 0 <= i < self@.len() && self@[i] == text@,
    {
        let n = self.list.len();
        let mut i: usize = 0;
        while i < n
            invariant
                i <= n,
                n == self@.len(),
                forall|j: int| 0 <= j < i ==> self@[j] != text@,
            decreases n - i,
        {
            if str_eq(self.list[i].as_str(), text) {
                proof {
                    assert(self@[i as int] == text@);
                }
                return true;
            }
            i = i + 1;
        }
        false
    }

    /// The index into this where the correct answer is stored.
    pub fn correct_index(&self) -> (r: usize)
        ensures
            r == self.spec_correct_index(),
    {
        self.correct_index
    }

    /// The element of this list that is the correct answer.
    pub fn correct(&self) -> (r: &str)
        requires
            self.wf(),
        ensures
            r@ == self@[self.spec_correct_index()],
    {
        self.list[self.correct_index].as_str()
    }
}

impl CardSet {
    /// The questions a set yields under the given conditions, in the fixed
    /// category order: all back-recall flashcard questions in source order,
    /// then all front-recall flashcard questions in source order, then all
    /// multiple-choice questions in source order. A category contributes
    /// only when the caller opted in and the set's policy for it is not
    /// [`RecallType::Never`].
    pub open spec fn question_plan(self, c: Conditions) -> Seq<QuestionTy> {
        (if c.include_card_back && self.recall_back.typ != RecallType::Never {
            Seq::new(
                self.flashcards@.len(),
                |i: int| QuestionTy::Flashcard { index: i as usize, side: Side::Back },
            )
        } else {
            Seq::empty()
        }) + (if c.include_card_front && self.recall_front.typ != RecallType::Never {
            Seq::new(
                self.flashcards@.len(),
                |i: int| QuestionTy::Flashcard { index: i as usize, side: Side::Front },
            )
        } else {
            Seq::empty()
        }) + (if c.include_mc && self.recall_mc.typ != RecallType::Never {
            Seq::new(self.mc_cards@.len(), |i: int| QuestionTy::McCard { index: i as usize })
        } else {
            Seq::empty()
        })
    }

    /// How many questions the set yields under the given conditions: the
    /// flashcard count once per enabled flashcard category, plus the
    /// multiple-choice card count when that category is enabled.
    pub open spec fn spec_questions_len(self, c: Conditions) -> int {
        (if c.include_card_back && self.recall_back.typ != RecallType::Never {
            self.flashcards@.len() as int
        } else {
            0
        }) + (if c.include_card_front && self.recall_front.typ != RecallType::Never {
            self.flashcards@.len() as int
        } else {
            0
        }) + (if c.include_mc && self.recall_mc.typ != RecallType::Never {
            self.mc_cards@.len() as int
        } else {
            0
        })
    }

    /// Returns an enumerator over all the questions that could be asked to
    /// prove knowledge of this set. Allows for setting conditions to filter
    /// out questions.
    pub fn questions<'a>(&'a self, conditions: &Conditions) -> (r: Questions<'a>)
        requires
            self.flashcards@.len() * 2 + self.mc_cards@.len() <= usize::MAX,
        ensures
            r.wf(),
            r.spec_set() == *self,
            r@ == self.question_plan(*conditions),
            r@.len() == self.spec_questions_len(*conditions),
    {
        let back_on = conditions.include_card_back && !(self.recall_back.typ
            == RecallType::Never);
        let front_on = conditions.include_card_front && !(self.recall_front.typ
            == RecallType::Never);
        let mc_on = conditions.include_mc && !(self.recall_mc.typ == RecallType::Never);
        let r = Questions {
            set: self,
            back_pos: 0,
            back_end: if back_on {
                self.flashcards.len()
            } else {
                0
            },
            front_pos: 0,
            front_end: if front_on {
                self.flashcards.len()
            } else {
                0
            },
            mc_pos: 0,
            mc_end: if mc_on {
                self.mc_cards.len()
            } else {
                0
            },
        };
        proof {
            assert(r@ =~= self.question_plan(*conditions));
        }
        r
    }
}

/// An enumerator over the [`Question`]s extracted from a [`CardSet`].
///
/// Enumerates the plan of [`CardSet::question_plan`]: back-recall
/// questions, then front-recall questions, then multiple-choice questions,
/// each category in source order.
#[derive(Debug, Clone, Copy)]
pub struct Questions<'a> {
    set: &'a CardSet,
    back_pos: usize,
    back_end: usize,
    front_pos: usize,
    front_end: usize,
    mc_pos: usize,
    mc_end: usize,
}

impl<'a> View for Questions<'a> {
    type V = Seq<QuestionTy>;

    /// The questions still to be enumerated, in order.
    closed spec fn view(&self) -> Seq<QuestionTy> {
        Seq::new(
            (self.back_end - self.back_pos) as nat,
            |i: int| QuestionTy::Flashcard { index: (self.back_pos + i) as usize, side: Side::Back },
        ) + Seq::new(
            (self.front_end - self.front_pos) as nat,
            |i: int|
                QuestionTy::Flashcard { index: (self.front_pos + i) as usize, side: Side::Front },
        ) + Seq::new(
            (self.mc_end - self.mc_pos) as nat,
            |i: int| QuestionTy::McCard { index: (self.mc_pos + i) as usize },
        )
    }
}

impl<'a> Questions<'a> {
    /// The set the questions are drawn from.
    pub closed spec fn spec_set(self) -> CardSet {
        *self.set
    }

    /// Well-formed: every category range lies inside the set's bounds and
    /// the total remaining count fits a `usize`.
    pub closed spec fn wf(self) -> bool {
        &&& self.back_pos <= self.back_end <= self.spec_set().flashcards@.len()
        &&& self.front_pos <= self.front_end <= self.spec_set().flashcards@.len()
        &&& self.mc_pos <= self.mc_end <= self.spec_set().mc_cards@.len()
        &&& (self.back_end - self.back_pos) + (self.front_end - self.front_pos) + (self.mc_end
            - self.mc_pos) <= usize::MAX
    }

    /// The question at position `i` of the remaining enumeration.
    pub closed spec fn q_at(self, i: int) -> Question<'a> {
        Question { set: self.set, ty: self@[i] }
    }

    /// The question a position of the enumeration stands for names the
    /// matching descriptor of the view, comes from this enumerator's set,
    /// and is well-formed.
    pub proof fn lemma_q_at(self, i: int)
        requires
            self.wf(),
            0 <= i < self@.len(),
        ensures
            self.q_at(i).spec_ty() == self@[i],
            self.q_at(i).spec_set() == self.spec_set(),
            self.q_at(i).wf(),
    {
    }

    /// The number of questions remaining.
    pub fn len(&self) -> (r: usize)
        requires
            self.wf(),
        ensures
            r == self@.len(),
    {
        (self.back_end - self.back_pos) + (self.front_end - self.front_pos) + (self.mc_end
            - self.mc_pos)
    }

    /// The number of questions remaining; agrees with [`Questions::len`].
    pub fn count(self) -> (r: usize)
        requires
            self.wf(),
        ensures
            r == self@.len(),
    {
        self.len()
    }

    /// Single-step advance: the first remaining question, or nothing when
    /// the enumeration is exhausted.
    pub fn next(&mut self) -> (r: Option<Question<'a>>)
        requires
            old(self).wf(),
        ensures
            final(self).wf(),
            final(self).spec_set() == old(self).spec_set(),
            match r {
                Some(q) => {
                    &&& old(self)@.len() > 0
                    &&& q.spec_ty() == old(self)@[0]
                    &&& q.spec_set() == old(self).spec_set()
                    &&& q.wf()
                    &&& final(self)@ == old(self)@.drop_first()
                },
                None => old(self)@.len() == 0 && final(self)@ == old(self)@,
            },
    {
        if self.back_pos < self.back_end {
            let q = Question {
                set: self.set,
                ty: QuestionTy::Flashcard { index: self.back_pos, side: Side::Back },
            };
            self.back_pos = self.back_pos + 1;
            proof {
                assert(final(self)@ =~= old(self)@.drop_first());
            }
            Some(q)
        } else if self.front_pos < self.front_end {
            let q = Question {
                set: self.set,
                ty: QuestionTy::Flashcard { index: self.front_pos, side: Side::Front },
            };
            self.front_pos = self.front_pos + 1;
            proof {
                assert(final(self)@ =~= old(self)@.drop_first());
            }
            Some(q)
        } else if self.mc_pos < self.mc_end {
            let q = Question { set: self.set, ty: QuestionTy::McCard { index: self.mc_pos } };
            self.mc_pos = self.mc_pos + 1;
            proof {
                assert(final(self)@ =~= old(self)@.drop_first());
            }
            Some(q)
        } else {
            None
        }
    }

    /// Bulk traversal: applies `f` to every remaining question, in
    /// enumeration order. Each enumerated question is a valid input of
    /// some call of `f`.
    pub fn for_each<F: FnMut(Question<'a>)>(self, f: F)
        requires
            self.wf(),
            forall|q: Question<'a>| call_requires(f, (q,)),
        ensures
            forall|i: int| 0 <= i < self@.len() ==> call_ensures(f, (self.q_at(i),), ()),
    {
        let mut g = f;
        let mut rest = self;
        let ghost mut done: int = 0;
        loop
            invariant
                g == f,
                rest.wf(),
                rest.spec_set() == self.spec_set(),
                forall|q: Question<'a>| call_requires(f, (q,)),
                0 <= done,
                done + rest@.len() == self@.len(),
                rest@ == self@.skip(done),
                forall|i: int| 0 <= i < done ==> call_ensures(f, (self.q_at(i),), ()),
            ensures
                done == self@.len(),
                forall|i: int| 0 <= i < done ==> call_ensures(f, (self.q_at(i),), ()),
            decreases rest@.len(),
        {
            match rest.next() {
                Some(q) => {
                    proof {
                        assert(q.spec_ty() == self@[done]);
                        assert(q == self.q_at(done));
                    }
                    g(q);
                    proof {
                        done = done + 1;
                        assert(rest@ =~= self@.skip(done));
                    }
                },
                None => {
                    break ;
                },
            }
        }
    }

    /// Bulk traversal: folds `f` over every remaining question, in
    /// enumeration order. The chain of intermediate accumulator values
    /// witnesses that `f` was applied to exactly the enumerated questions,
    /// first to last, starting from `init` and ending in the result.
    pub fn fold<B, F: FnMut(B, Question<'a>) -> B>(self, init: B, f: F) -> (r: B)
        requires
            self.wf(),
            forall|b: B, q: Question<'a>| call_requires(f, (b, q)),
        ensures
            exists|bs: Seq<B>|
                {
                    &&& bs.len() == self@.len() + 1
                    &&& bs[0] == init
                    &&& r == bs[bs.len() - 1]
                    &&& forall|i: int|
                        0 <= i < self@.len() ==> call_ensures(
                            f,
                            (#[trigger] bs[i], self.q_at(i)),
                            bs[i + 1],
                        )
                },
    {
        let mut g = f;
        let mut acc = init;
        let mut rest = self;
        let ghost mut bs: Seq<B> = seq![init];
        loop
            invariant
                g == f,
                rest.wf(),
                rest.spec_set() == self.spec_set(),
                forall|b: B, q: Question<'a>| call_requires(f, (b, q)),
                bs.len() >= 1,
                bs.len() - 1 + rest@.len() == self@.len(),
                bs[0] == init,
                acc == bs[bs.len() - 1],
                rest@ == self@.skip(bs.len() - 1),
                forall|i: int|
                    0 <= i < bs.len() - 1 ==> call_ensures(
                        f,
                        (#[trigger] bs[i], self.q_at(i)),
                        bs[i + 1],
                    ),
            ensures
                bs.len() == self@.len() + 1,
                bs[0] == init,
                acc == bs[bs.len() - 1],
                forall|i: int|
                    0 <= i < bs.len() - 1 ==> call_ensures(
                        f,
                        (#[trigger] bs[i], self.q_at(i)),
                        bs[i + 1],
                    ),
            decreases rest@.len(),
        {
            match rest.next() {
                Some(q) => {
                    proof {
                        assert(q.spec_ty() == self@[bs.len() - 1]);
                        assert(q == self.q_at(bs.len() - 1));
                    }
                    acc = g(acc, q);
                    proof {
                        bs = bs.push(acc);
                        assert(rest@ =~= self@.skip(bs.len() - 1));
                    }
                },
                None => {
                    break ;
                },
            }
        }
        proof {
            assert(bs.len() == self@.len() + 1 && bs[0] == init && acc == bs[bs.len() - 1]
                && forall|i: int|
                0 <= i < self@.len() ==> call_ensures(f, (#[trigger] bs[i], self.q_at(i)), bs[i + 1]));
        }
        acc
    }
}

/// The display category a question belongs to, in enumeration order:
/// back-recall first, then front-recall, then multiple choice.
pub open spec fn category_rank(t: QuestionTy) -> int {
    match t {
        QuestionTy::Flashcard { index, side } => if side is Back {
            0
        } else {
            1
        },
        QuestionTy::McCard { index } => 2,
    }
}

/// Category ordering invariant: in the plan enumerated for any set and any
/// conditions, every back-recall question precedes every front-recall
/// question, which precedes every multiple-choice question.
pub proof fn lemma_category_order(s: CardSet, c: Conditions, i: int, j: int)
    requires
        0 <= i < j < s.question_plan(c).len(),
    ensures
        category_rank(s.question_plan(c)[i]) <= category_rank(s.question_plan(c)[j]),
{
    let plan = s.question_plan(c);
    let s1 = if c.include_card_back && s.recall_back.typ != RecallType::Never {
        Seq::new(
            s.flashcards@.len(),
            |i: int| QuestionTy::Flashcard { index: i as usize, side: Side::Back },
        )
    } else {
        Seq::empty()
    };
    let s2 = if c.include_card_front && s.recall_front.typ != RecallType::Never {
        Seq::new(
            s.flashcards@.len(),
            |i: int| QuestionTy::Flashcard { index: i as usize, side: Side::Front },
        )
    } else {
        Seq::empty()
    };
    let s3 = if c.include_mc && s.recall_mc.typ != RecallType::Never {
        Seq::new(s.mc_cards@.len(), |i: int| QuestionTy::McCard { index: i as usize })
    } else {
        Seq::empty()
    };
    assert(plan == (s1 + s2) + s3);
    assert forall|k: int| 0 <= k < plan.len() implies category_rank(#[trigger] plan[k]) == (if k
        < s1.len() {
        0int
    } else if k < s1.len() + s2.len() {
        1int
    } else {
        2int
    }) by {
        if k < s1.len() {
            assert(plan[k] == s1[k]);
        } else if k < s1.len() + s2.len() {
            assert(plan[k] == s2[k - s1.len()]);
        } else {
            assert(plan[k] == s3[k - s1.len() - s2.len()]);
        }
    }
}

/// Re-traversal determinism: two equal enumerators stand for the identical
/// sequence of questions, so consuming a clone and consuming the original
/// yield the same questions in the same order, whatever the traversal
/// style.
pub proof fn lemma_retraversal<'a>(qs1: Questions<'a>, qs2: Questions<'a>)
    requires
        qs1 == qs2,
    ensures
        qs1@ == qs2@,
        forall|i: int| 0 <= i < qs1@.len() ==> qs1.q_at(i) == qs2.q_at(i),
{
}

} // verus!
