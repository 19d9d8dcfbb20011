//! The card data model: sides of text variants, flashcards,
//! multiple-choice cards, and the aggregate card set with its recall policy.

use vstd::prelude::*;
use crate::random::RandomSource;
use crate::text::{case_folded, eq_ignore_case, str_eq, trim_spec, trimmed};

verus! {

/// A side of a flashcard.
#[derive(Debug, Clone, Copy, PartialEq, Eq, Structural)]
pub enum Side {
    Front,
    Back,
}

impl Side {
    /// The opposite side, as a specification-level function.
    pub open spec fn spec_opposite(self) -> Side {
        match self {
            Side::Front => Side::Back,
            Side::Back => Side::Front,
        }
    }

    /// The opposite side: the one shown to the player when this side is the
    /// one to recall.
    pub fn opposite(self) -> (r: Side)
        ensures
            r == self.spec_opposite(),
    {
        match self {
            Side::Front => Side::Back,
            Side::Back => Side::Front,
        }
    }
}

/// Text on the side of a [`Flashcard`], or as the question or answer to an
/// [`McCard`].
///
/// Stores multiple variants of text in order to show multiple variants of
/// the same question and accept multiple answers.
#[derive(Debug, Clone, PartialEq)]
pub struct CardSide {
    text: Vec<String>,
}

impl View for CardSide {
    type V = Seq<Seq<char>>;

    /// A card side is modeled as the sequence of its text variants'
    /// character sequences, in insertion order.
    closed spec fn view(&self) -> Seq<Seq<char>> {
        self.text.deep_view()
    }
}

impl CardSide {
    /// A `CardSide` containing no text.
    pub fn empty() -> (r: Self)
        ensures
            r@ =~= Seq::<Seq<char>>::empty(),
    {
        CardSide { text: Vec::new() }
    }

    /// A `CardSide` containing the text given.
    pub fn new(text: &str) -> (r: Self)
        ensures
            r@ =~= seq![text@],
    {
        let mut v: Vec<String> = Vec::new();
        v.push(text.to_owned());
        CardSide { text: v }
    }

    /// A `CardSide` containing all the text given.
    pub fn new_multi(texts: &[&str]) -> (r: Self)
        ensures
            r@.len() == texts@.len(),
            forall|i: int| 0 <= i < texts@.len() ==> r@[i] == texts@[i]@,
    {
        let mut v: Vec<String> = Vec::new();
        let mut i: usize = 0;
        while i < texts.len()
            invariant
                i <= texts@.len(),
                v.deep_view().len() == i,
                forall|j: int| 0 <= j < i ==> v.deep_view()[j] == texts@[j]@,
            decreases texts@.len() - i,
        {
            let ghost prev = v.deep_view();
            v.push(texts[i].to_owned());
            proof {
                assert(v.deep_view() =~= prev.push(texts@[i as int]@));
            }
            i = i + 1;
        }
        CardSide { text: v }
    }

    /// Add new text to this.
    pub fn push_text(&mut self, text: &str)
        ensures
            final(self)@ =~= old(self)@.push(text@),
    {
        self.text.push(text.to_owned());
    }

    /// Remove and return the element at position `index`, shifting all
    /// elements after it to the left.
    pub fn remove_text(&mut self, index: usize) -> (r: String)
        requires
            index < old(self)@.len(),
        ensures
            r@ == old(self)@[index as int],
            final(self)@ =~= old(self)@.remove(index as int),
    {
        self.text.remove(index)
    }

    /// Returns a reference to the text at the index.
    pub fn get_text(&self, index: usize) -> (r: Option<&str>)
        ensures
            match r {
                Some(t) => index < self@.len() && t@ == self@[index as int],
                None => index >= self@.len(),
            },
    {
        if index < self.text.len() {
            Some(self.text[index].as_str())
        } else {
            None
        }
    }

    /// The number of text variants stored.
    pub fn text_count(&self) -> (r: usize)
        ensures
            r == self@.len(),
    {
        self.text.len()
    }

    /// Returns a random piece of text from this to use as a question or
    /// answer, or nothing when no text is stored.
    pub fn any_text(&self, rng: &mut RandomSource) -> (r: Option<&str>)
        ensures
            match r {
                Some(t) => self@.len() > 0 && exists|i: int|
                    0 <= i < self@.len() && t@ == self@[i],
                None => self@.len() == 0,
            },
    {
        if self.text.len() == 0 {
            None
        } else {
            let i = rng.below(self.text.len());
            let t = self.text[i].as_str();
            assert(t@ == self@[i as int]);
            Some(t)
        }
    }

    /// Returns true if this side and `other` store the same text variants
    /// in the same order.
    pub fn same_text(&self, other: &CardSide) -> (r: bool)
        ensures
            r == (self@ == other@),
    {
        let n = self.text.len();
        if n != other.text.len() {
            proof {
                assert(self@.len() != other@.len());
            }
            return false;
        }
        let mut i: usize = 0;
        while i < n
            invariant
                i <= n,
                n == self@.len(),
                n == other@.len(),
                forall|j: int| 0 <= j < i ==> self@[j] == other@[j],
            decreases n - i,
        {
            if !str_eq(self.text[i].as_str(), other.text[i].as_str()) {
                proof {
                    assert(self@[i as int] != other@[i as int]);
                }
                return false;
            }
            i = i + 1;
        }
        proof {
            assert(self@ =~= other@);
        }
        true
    }

    /// Whether `text` matches some variant of this side under `rules`.
    pub open spec fn spec_matches(self, rules: RecallSettings, text: Seq<char>) -> bool {
        exists|i: int| 0 <= i < self@.len() && rules.spec_test_match(self@[i], text)
    }

    /// Returns true if the provided text matches any of the text in this by
    /// the rules provided.
    pub fn matches_text(&self, rules: &RecallSettings, text: &str) -> (r: bool)
        ensures
            r == self.spec_matches(*rules, text@),
    {
        let n = self.text.len();
        let mut i: usize = 0;
        while i < n
            invariant
                i <= n,
                n == self@.len(),
                forall|j: int| 0 <= j < i ==> !rules.spec_test_match(self@[j], text@),
            decreases n - i,
        {
            if rules.test_match(self.text[i].as_str(), text) {
                proof {
                    assert(rules.spec_test_match(self@[i as int], text@));
                }
                return true;
            }
            i = i + 1;
        }
        false
    }
}

/// A list of decoys used by a multiple choice question.
#[derive(Debug, Clone, PartialEq)]
pub struct Decoys {
    text: Vec<String>,
}

impl View for Decoys {
    type V = Seq<Seq<char>>;

    /// The decoy bag is modeled as the sequence of its texts' character
    /// sequences, in insertion order.
    closed spec fn view(&self) -> Seq<Seq<char>> {
        self.text.deep_view()
    }
}

impl Decoys {
    /// No decoys.
    pub fn empty() -> (r: Self)
        ensures
            r@ =~= Seq::<Seq<char>>::empty(),
    {
        Decoys { text: Vec::new() }
    }

    /// A decoy bag holding all the texts given, in order.
    pub fn from_texts(texts: &[&str]) -> (r: Self)
        ensures
            r@.len() == texts@.len(),
            forall|i: int| 0 <= i < texts@.len() ==> r@[i] == texts@[i]@,
    {
        let mut v: Vec<String> = Vec::new();
        let mut i: usize = 0;
        while i < texts.len()
            invariant
                i <= texts@.len(),
                v.deep_view().len() == i,
                forall|j: int| 0 <= j < i ==> v.deep_view()[j] == texts@[j]@,
            decreases texts@.len() - i,
        {
            let ghost prev = v.deep_view();
            v.push(texts[i].to_owned());
            proof {
                assert(v.deep_view() =~= prev.push(texts@[i as int]@));
            }
            i = i + 1;
        }
        Decoys { text: v }
    }

    /// Add an additional decoy.
    pub fn push_text(&mut self, text: &str)
        ensures
            final(self)@ =~= old(self)@.push(text@),
    {
        self.text.push(text.to_owned());
    }

    /// Returns the number of text decoys this has.
    pub fn text_count(&self) -> (r: usize)
        ensures
            r == self@.len(),
    {
        self.text.len()
    }

    /// Returns true if this bag and `other` store the same decoy texts in
    /// the same order.
    pub fn same_texts(&self, other: &Decoys) -> (r: bool)
        ensures
            r == (self@ == other@),
    {
        let n = self.text.len();
        if n != other.text.len() {
            proof {
                assert(self@.len() != other@.len());
            }
            return false;
        }
        let mut i: usize = 0;
        while i < n
            invariant
                i <= n,
                n == self@.len(),
                n == other@.len(),
                forall|j: int| 0 <= j < i ==> self@[j] == other@[j],
            decreases n - i,
        {
            if !str_eq(self.text[i].as_str(), other.text[i].as_str()) {
                proof {
                    assert(self@[i as int] != other@[i as int]);
                }
                return false;
            }
            i = i + 1;
        }
        proof {
            assert(self@ =~= other@);
        }
        true
    }

    /// The decoy text at the index.
    pub(crate) fn nth(&self, index: usize) -> (r: &String)
        requires
            index < self@.len(),
        ensures
            r@ == self@[index as int],
    {
        &self.text[index]
    }
}

/// A flashcard with text on the front and back.
#[derive(Debug, Clone, PartialEq)]
pub struct Flashcard {
    pub front: CardSide,
    pub back: CardSide,
}

impl Flashcard {
    /// A `Flashcard` with no text.
    pub fn blank() -> (r: Self)
        ensures
            r.front@ =~= Seq::<Seq<char>>::empty(),
            r.back@ =~= Seq::<Seq<char>>::empty(),
    {
        Flashcard { front: CardSide::empty(), back: CardSide::empty() }
    }

    /// A `Flashcard` with the provided front and back text.
    pub fn new(front: &str, back: &str) -> (r: Self)
        ensures
            r.front@ =~= seq![front@],
            r.back@ =~= seq![back@],
    {
        Flashcard { front: CardSide::new(front), back: CardSide::new(back) }
    }

    /// The card side indexed by `side`, as a specification-level function.
    pub open spec fn spec_side(self, side: Side) -> CardSide {
        match side {
            Side::Front => self.front,
            Side::Back => self.back,
        }
    }

    /// The card side indexed by `side`.
    pub fn side(&self, side: Side) -> (r: &CardSide)
        ensures
            *r == self.spec_side(side),
    {
        match side {
            Side::Front => &self.front,
            Side::Back => &self.back,
        }
    }
}

/// A multiple choice question.
#[derive(Debug, Clone, PartialEq)]
pub struct McCard {
    pub question: CardSide,
    pub answer: CardSide,
    pub decoys: Decoys,
}

impl McCard {
    /// A multiple choice question without any question or answer or decoys
    /// written.
    pub fn blank() -> (r: Self)
        ensures
            r.question@ =~= Seq::<Seq<char>>::empty(),
            r.answer@ =~= Seq::<Seq<char>>::empty(),
            r.decoys@ =~= Seq::<Seq<char>>::empty(),
    {
        McCard { question: CardSide::empty(), answer: CardSide::empty(), decoys: Decoys::empty() }
    }
}

/// How does the player have to prove they remember what is on the card?
#[derive(Debug, Clone, PartialEq, Eq, Structural)]
#[non_exhaustive]
pub enum RecallType {
    /// Does not need to recall.
    Never,
    /// Must be able to select the correct answer from a list.
    Mc,
    /// Must be able to type in the text of the answer.
    Text,
}

impl RecallType {
    /// Parses a recall-type keyword: exactly "never", "multiple choice" or
    /// "text"; anything else is rejected.
    pub fn from_str(s: &str) -> (r: Option<RecallType>)
        ensures
            r == Self::spec_from_str(s@),
    {
        proof {
            reveal_strlit("never");
            reveal_strlit("multiple choice");
            reveal_strlit("text");
        }
        if str_eq(s, "never") {
            Some(RecallType::Never)
        } else if str_eq(s, "multiple choice") {
            Some(RecallType::Mc)
        } else if str_eq(s, "text") {
            Some(RecallType::Text)
        } else {
            None
        }
    }

    /// The recall type a keyword denotes, if any.
    pub open spec fn spec_from_str(s: Seq<char>) -> Option<RecallType> {
        if s == "never"@ {
            Some(RecallType::Never)
        } else if s == "multiple choice"@ {
            Some(RecallType::Mc)
        } else if s == "text"@ {
            Some(RecallType::Text)
        } else {
            None
        }
    }
}

/// Rules for how the player proves they remember what is on a card.
#[derive(Debug, Clone, PartialEq)]
pub struct RecallSettings {
    /// Should the player be asked to select the correct answer from a list,
    /// or type in the answer?
    pub typ: RecallType,
    /// Does capitalization in the answer matter?
    pub check_caps: bool,
}

impl RecallSettings {
    /// Whether `a` and `b` match: both are trimmed of surrounding
    /// whitespace, then compared exactly when capitalization matters and
    /// caselessly otherwise.
    pub open spec fn spec_test_match(self, a: Seq<char>, b: Seq<char>) -> bool {
        let ta = trim_spec(a);
        let tb = trim_spec(b);
        if self.check_caps {
            ta == tb
        } else {
            case_folded(ta) == case_folded(tb)
        }
    }

    /// Whether stored text `a` and candidate answer `b` count as the same
    /// answer under these rules.
    pub fn test_match(&self, a: &str, b: &str) -> (r: bool)
        ensures
            r == self.spec_test_match(a@, b@),
    {
        let ta = trimmed(a);
        let tb = trimmed(b);
        if self.check_caps {
            str_eq(ta, tb)
        } else {
            eq_ignore_case(ta, tb)
        }
    }
}

/// Matching is whitespace-trim-insensitive: both operands are trimmed
/// before comparison, so trimming either input beforehand changes nothing.
/// Whether it is case-insensitive is decided by `check_caps` alone: with
/// `check_caps` the trimmed operands are compared exactly, without it by
/// their case-folded forms.
pub proof fn lemma_match_trim_insensitive(rules: RecallSettings, a: Seq<char>, b: Seq<char>)
    ensures
        rules.spec_test_match(a, b) == rules.spec_test_match(trim_spec(a), trim_spec(b)),
        rules.spec_test_match(a, b) == rules.spec_test_match(trim_spec(a), b),
        rules.spec_test_match(a, b) == rules.spec_test_match(a, trim_spec(b)),
{
    crate::text::lemma_trim_idempotent(a);
    crate::text::lemma_trim_idempotent(b);
}

impl Default for RecallSettings {
    /// By default a card is recalled by multiple choice and capitalization
    /// does not matter.
    fn default() -> (r: Self)
        ensures
            r.typ == RecallType::Mc,
            r.check_caps == false,
    {
        RecallSettings { typ: RecallType::Mc, check_caps: false }
    }
}

/// A set of [`Flashcard`]s and [`McCard`]s.
///
/// Contains information about how the player should be asked to recall
/// various parts of cards.
#[derive(Debug, PartialEq)]
#[non_exhaustive]
pub struct CardSet {
    /// Rules for how the player should prove they know what is on the back
    /// of a [`Flashcard`] when the front is shown.
    pub recall_back: RecallSettings,
    /// Rules for how the player should prove they know what is on the front
    /// of a [`Flashcard`] when the back is shown.
    pub recall_front: RecallSettings,
    /// Rules for how the player should prove they know what the answer to a
    /// multiple choice question ([`McCard`]) is when the question is shown.
    pub recall_mc: RecallSettings,
    pub flashcards: Vec<Flashcard>,
    pub mc_cards: Vec<McCard>,
}

impl Default for CardSet {
    /// An empty set with default recall settings throughout.
    fn default() -> (r: Self)
        ensures
            r.flashcards@.len() == 0,
            r.mc_cards@.len() == 0,
            r.recall_back.typ == RecallType::Mc,
            r.recall_back.check_caps == false,
            r.recall_front.typ == RecallType::Mc,
            r.recall_front.check_caps == false,
            r.recall_mc.typ == RecallType::Mc,
            r.recall_mc.check_caps == false,
    {
        CardSet {
            recall_back: RecallSettings::default(),
            recall_front: RecallSettings::default(),
            recall_mc: RecallSettings::default(),
            flashcards: Vec::new(),
            mc_cards: Vec::new(),
        }
    }
}

impl CardSet {
    /// The recall settings governing recall of `side` of a flashcard, as a
    /// specification-level function.
    pub open spec fn spec_flashcard_recall_settings(self, side: Side) -> RecallSettings {
        match side {
            Side::Front => self.recall_front,
            Side::Back => self.recall_back,
        }
    }

    /// The recall settings governing recall of `side` of a flashcard.
    pub(crate) fn flashcard_recall_settings(&self, side: Side) -> (r: &RecallSettings)
        ensures
            *r == self.spec_flashcard_recall_settings(side),
    {
        match side {
            Side::Front => &self.recall_front,
            Side::Back => &self.recall_back,
        }
    }

    /// Whether two sets hold the same content: the same recall policy and
    /// matching rules, and cards storing the same texts in the same order.
    pub open spec fn spec_same_content(self, other: CardSet) -> bool {
        &&& self.recall_back == other.recall_back
        &&& self.recall_front == other.recall_front
        &&& self.recall_mc == other.recall_mc
        &&& self.flashcards@.len() == other.flashcards@.len()
        &&& (forall|i: int|
            0 <= i < self.flashcards@.len() ==> {
                &&& (#[trigger] self.flashcards@[i]).front@ == other.flashcards@[i].front@
                &&& self.flashcards@[i].back@ == other.flashcards@[i].back@
            })
        &&& self.mc_cards@.len() == other.mc_cards@.len()
        &&& (forall|i: int|
            0 <= i < self.mc_cards@.len() ==> {
                &&& (#[trigger] self.mc_cards@[i]).question@ == other.mc_cards@[i].question@
                &&& self.mc_cards@[i].answer@ == other.mc_cards@[i].answer@
                &&& self.mc_cards@[i].decoys@ == other.mc_cards@[i].decoys@
            })
    }

    /// Returns true if this set and `other` hold the same content.
    pub fn same_content(&self, other: &CardSet) -> (r: bool)
        ensures
            r == self.spec_same_content(*other),
    {
        if !(self.recall_back.typ == other.recall_back.typ && self.recall_back.check_caps
            == other.recall_back.check_caps) {
            return false;
        }
        if !(self.recall_front.typ == other.recall_front.typ && self.recall_front.check_caps
            == other.recall_front.check_caps) {
            return false;
        }
        if !(self.recall_mc.typ == other.recall_mc.typ && self.recall_mc.check_caps
            == other.recall_mc.check_caps) {
            return false;
        }
        let n = self.flashcards.len();
        if n != other.flashcards.len() {
            return false;
        }
        let mut i: usize = 0;
        while i < n
            invariant
                i <= n,
                n == self.flashcards@.len(),
                n == other.flashcards@.len(),
                forall|j: int|
                    0 <= j < i ==> {
                        &&& (#[trigger] self.flashcards@[j]).front@ == other.flashcards@[j].front@
                        &&& self.flashcards@[j].back@ == other.flashcards@[j].back@
                    },
            decreases n - i,
        {
            let a = &self.flashcards[i];
            let b = &other.flashcards[i];
            if !a.front.same_text(&b.front) || !a.back.same_text(&b.back) {
                return false;
            }
            i = i + 1;
        }
        let m = self.mc_cards.len();
        if m != other.mc_cards.len() {
            return false;
        }
        let mut i: usize = 0;
        while i < m
            invariant
                i <= m,
                m == self.mc_cards@.len(),
                m == other.mc_cards@.len(),
                n == self.flashcards@.len(),
                n == other.flashcards@.len(),
                forall|j: int|
                    0 <= j < n ==> {
                        &&& (#[trigger] self.flashcards@[j]).front@ == other.flashcards@[j].front@
                        &&& self.flashcards@[j].back@ == other.flashcards@[j].back@
                    },
                forall|j: int|
                    0 <= j < i ==> {
                        &&& (#[trigger] self.mc_cards@[j]).question@ == other.mc_cards@[
                            j
                        ].question@
                        &&& self.mc_cards@[j].answer@ == other.mc_cards@[j].answer@
                        &&& self.mc_cards@[j].decoys@ == other.mc_cards@[j].decoys@
                    },
            decreases m - i,
        {
            let a = &self.mc_cards[i];
            let b = &other.mc_cards[i];
            if !a.question.same_text(&b.question) || !a.answer.same_text(&b.answer)
                || !a.decoys.same_texts(&b.decoys) {
                return false;
            }
            i = i + 1;
        }
        true
    }

    /// A small example set: six flashcards with fronts `a`..`f` and backs
    /// `0`..`5`, and four multiple-choice cards each with three decoys,
    /// under the given recall settings.
    pub fn example(
        recall_front: RecallSettings,
        recall_back: RecallSettings,
        recall_mc: RecallSettings,
    ) -> (r: CardSet)
        ensures
            example_content(r),
            r.recall_front == recall_front,
            r.recall_back == recall_back,
            r.recall_mc == recall_mc,
    {
        let mut flashcards: Vec<Flashcard> = Vec::new();
        flashcards.push(Flashcard::new("a", "0"));
        flashcards.push(Flashcard::new("b", "1"));
        flashcards.push(Flashcard::new("c", "2"));
        flashcards.push(Flashcard::new("d", "3"));
        flashcards.push(Flashcard::new("e", "4"));
        flashcards.push(Flashcard::new("f", "5"));
        let mut mc_cards: Vec<McCard> = Vec::new();
        mc_cards.push(example_mc_card("0mc", "0answer", "0decoy0", "0decoy1", "0decoy2"));
        mc_cards.push(example_mc_card("1mc", "1answer", "1decoy0", "1decoy1", "1decoy2"));
        mc_cards.push(example_mc_card("2mc", "2answer", "2decoy0", "2decoy1", "2decoy2"));
        mc_cards.push(example_mc_card("3mc", "3answer", "3decoy0", "3decoy1", "3decoy2"));
        CardSet { recall_back, recall_front, recall_mc, flashcards, mc_cards }
    }

    /// The example set with default recall settings throughout.
    pub fn example_recall_default() -> (r: CardSet)
        ensures
            example_content(r),
            r.recall_front == (RecallSettings { typ: RecallType::Mc, check_caps: false }),
            r.recall_back == (RecallSettings { typ: RecallType::Mc, check_caps: false }),
            r.recall_mc == (RecallSettings { typ: RecallType::Mc, check_caps: false }),
    {
        Self::example(RecallSettings::default(), RecallSettings::default(), RecallSettings::default())
    }
}

/// The texts the example set stores: six flashcards pairing fronts `a`..`f`
/// with backs `0`..`5`, and four multiple-choice cards with numbered
/// question, answer and decoy texts.
pub open spec fn example_content(s: CardSet) -> bool {
    &&& s.flashcards@.len() == 6
    &&& s.flashcards@[0].front@ == seq!["a"@] && s.flashcards@[0].back@ == seq!["0"@]
    &&& s.flashcards@[1].front@ == seq!["b"@] && s.flashcards@[1].back@ == seq!["1"@]
    &&& s.flashcards@[2].front@ == seq!["c"@] && s.flashcards@[2].back@ == seq!["2"@]
    &&& s.flashcards@[3].front@ == seq!["d"@] && s.flashcards@[3].back@ == seq!["3"@]
    &&& s.flashcards@[4].front@ == seq!["e"@] && s.flashcards@[4].back@ == seq!["4"@]
    &&& s.flashcards@[5].front@ == seq!["f"@] && s.flashcards@[5].back@ == seq!["5"@]
    &&& s.mc_cards@.len() == 4
    &&& s.mc_cards@[0].question@ == seq!["0mc"@] && s.mc_cards@[0].answer@ == seq!["0answer"@]
    &&& s.mc_cards@[0].decoys@ == seq!["0decoy0"@, "0decoy1"@, "0decoy2"@]
    &&& s.mc_cards@[1].question@ == seq!["1mc"@] && s.mc_cards@[1].answer@ == seq!["1answer"@]
    &&& s.mc_cards@[1].decoys@ == seq!["1decoy0"@, "1decoy1"@, "1decoy2"@]
    &&& s.mc_cards@[2].question@ == seq!["2mc"@] && s.mc_cards@[2].answer@ == seq!["2answer"@]
    &&& s.mc_cards@[2].decoys@ == seq!["2decoy0"@, "2decoy1"@, "2decoy2"@]
    &&& s.mc_cards@[3].question@ == seq!["3mc"@] && s.mc_cards@[3].answer@ == seq!["3answer"@]
    &&& s.mc_cards@[3].decoys@ == seq!["3decoy0"@, "3decoy1"@, "3decoy2"@]
}

/// One multiple-choice card of the example set.
fn example_mc_card(question: &str, answer: &str, d0: &str, d1: &str, d2: &str) -> (r: McCard)
    ensures
        r.question@ =~= seq![question@],
        r.answer@ =~= seq![answer@],
        r.decoys@ =~= seq![d0@, d1@, d2@],
{
    let mut decoys = Decoys::empty();
    decoys.push_text(d0);
    decoys.push_text(d1);
    decoys.push_text(d2);
    McCard { question: CardSide::new(question), answer: CardSide::new(answer), decoys }
}

} // verus!
