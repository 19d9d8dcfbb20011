use flashcards::card::{CardSet, CardSide, Decoys, Flashcard, McCard, RecallSettings, RecallType};
use flashcards::question::Conditions;
use flashcards::random::RandomSource;
use flashcards::text::trimmed;

fn caps_settings(check_caps: bool) -> RecallSettings {
    RecallSettings {
        typ: RecallType::Mc,
        check_caps,
    }
}

#[test]
fn match_trims_whitespace_always() {
    let rules = caps_settings(true);
    assert!(rules.test_match("a", " a "));
    assert!(rules.test_match("  a", "a\t"));
    assert!(rules.test_match("\u{3000}a\u{3000}", "a"));
    assert!(!rules.test_match("a b", "ab"));
}

#[test]
fn match_case_sensitivity_follows_check_caps() {
    let insensitive = caps_settings(false);
    assert!(insensitive.test_match("a", "A "));
    assert!(insensitive.test_match("a", " a"));
    let sensitive = caps_settings(true);
    assert!(!sensitive.test_match("a", "A"));
    assert!(sensitive.test_match("a", "a"));
}

#[test]
fn match_uses_unicode_case_folding() {
    let insensitive = caps_settings(false);
    assert!(insensitive.test_match("STRASSE", "stra\u{00df}e"));
    assert!(insensitive.test_match("\u{0130}", "i\u{0307}"));
    let sensitive = caps_settings(true);
    assert!(!sensitive.test_match("STRASSE", "stra\u{00df}e"));
}

#[test]
fn trimmed_strips_both_ends_only() {
    assert_eq!(trimmed("  a b \t"), "a b");
    assert_eq!(trimmed(""), "");
    assert_eq!(trimmed(" \n\t "), "");
    assert_eq!(trimmed("x"), "x");
}

#[test]
fn mc_list_contains_correct_exactly_once_flashcard() {
    let set = CardSet::example_recall_default();
    let mut rng = RandomSource::from_seed([7u8; 32]);
    for _ in 0..20 {
        let mut questions = set.questions(&Conditions {
            include_card_back: true,
            ..Conditions::include_none()
        });
        let question = questions.next().unwrap();
        if let Some(answers) = question.mc_answers(4, &mut rng) {
            assert!(question.is_correct_answer(answers.correct()));
            let mut hits = 0;
            for i in 0..answers.len() {
                if answers.get(i) == answers.correct() {
                    hits += 1;
                }
            }
            assert_eq!(hits, 1);
            assert!(answers.correct_index() < answers.len());
        }
    }
}

#[test]
fn mc_list_contains_correct_exactly_once_mc_card() {
    let set = CardSet::example_recall_default();
    let mut rng = RandomSource::from_seed([9u8; 32]);
    for _ in 0..20 {
        let mut questions = set.questions(&Conditions {
            include_mc: true,
            ..Conditions::include_none()
        });
        let question = questions.next().unwrap();
        let answers = question.mc_answers(4, &mut rng).unwrap();
        assert!(question.is_correct_answer(answers.correct()));
        let mut hits = 0;
        for i in 0..answers.len() {
            if answers.get(i) == answers.correct() {
                hits += 1;
            }
        }
        assert_eq!(hits, 1);
    }
}

#[test]
fn mc_answers_len_capped_by_request() {
    let set = CardSet::example_recall_default();
    let mut rng = RandomSource::from_seed([3u8; 32]);
    let mut questions = set.questions(&Conditions {
        include_card_back: true,
        ..Conditions::include_none()
    });
    let question = questions.next().unwrap();
    for _ in 0..20 {
        if let Some(answers) = question.mc_answers(3, &mut rng) {
            assert!(answers.len() <= 3);
            assert!(answers.len() >= 2);
        }
    }
}

#[test]
fn mc_answers_too_small_request_gives_nothing() {
    let set = CardSet::example_recall_default();
    let mut rng = RandomSource::from_seed([5u8; 32]);
    let mut questions = set.questions(&Conditions::include_all());
    while let Some(question) = questions.next() {
        assert!(question.mc_answers(0, &mut rng).is_none());
        assert!(question.mc_answers(1, &mut rng).is_none());
    }
}

#[test]
fn mc_answers_without_decoys_gives_nothing() {
    let mut set = CardSet::default();
    set.mc_cards.push(McCard {
        question: CardSide::new("q"),
        answer: CardSide::new("a"),
        decoys: Decoys::empty(),
    });
    let mut rng = RandomSource::from_seed([1u8; 32]);
    let mut questions = set.questions(&Conditions::include_all());
    let question = questions.next().unwrap();
    assert!(question.mc_answers(5, &mut rng).is_none());
}

#[test]
fn blank_card_yields_no_question_text() {
    let mut set = CardSet::default();
    set.flashcards.push(Flashcard::blank());
    let mut rng = RandomSource::from_seed([2u8; 32]);
    let mut questions = set.questions(&Conditions::include_all());
    let question = questions.next().unwrap();
    assert_eq!(question.question(&mut rng), None);
    assert!(question.mc_answers(4, &mut rng).is_none());
    assert!(!question.is_correct_answer(""));
}

#[test]
fn recall_never_excludes_category() {
    let never = RecallSettings {
        typ: RecallType::Never,
        check_caps: false,
    };
    let set = CardSet::example(never.clone(), never.clone(), never);
    assert_eq!(set.questions(&Conditions::include_all()).len(), 0);
    let set = CardSet::example(
        RecallSettings::default(),
        RecallSettings {
            typ: RecallType::Never,
            check_caps: false,
        },
        RecallSettings::default(),
    );
    assert_eq!(set.questions(&Conditions::include_all()).len(), 10);
}

#[test]
fn empty_set_yields_no_questions() {
    let set = CardSet::default();
    assert_eq!(set.questions(&Conditions::include_all()).len(), 0);
}

#[test]
fn count_agrees_with_len() {
    let set = CardSet::example_recall_default();
    let questions = set.questions(&Conditions::include_all());
    assert_eq!(questions.clone().count(), questions.len());
    let mut half = questions.clone();
    half.next();
    half.next();
    assert_eq!(half.clone().count(), half.len());
    assert_eq!(half.len(), questions.len() - 2);
}

#[test]
fn card_side_edit_operations() {
    let mut side = CardSide::empty();
    assert_eq!(side.get_text(0), None);
    assert_eq!(side.text_count(), 0);
    side.push_text("one");
    side.push_text("two");
    assert_eq!(side.text_count(), 2);
    assert_eq!(side.get_text(0), Some("one"));
    assert_eq!(side.get_text(1), Some("two"));
    assert_eq!(side.get_text(2), None);
    let removed = side.remove_text(0);
    assert_eq!(removed, "one");
    assert_eq!(side.get_text(0), Some("two"));
    assert_eq!(side.text_count(), 1);
}

#[test]
fn any_text_picks_stored_variant() {
    let side = CardSide::new_multi(&["x", "y", "z"]);
    let mut rng = RandomSource::from_entropy();
    for _ in 0..20 {
        let t = side.any_text(&mut rng).unwrap();
        assert!(t == "x" || t == "y" || t == "z");
    }
}

#[test]
fn question_matches_any_answer_variant() {
    let mut set = CardSet::default();
    set.flashcards.push(Flashcard {
        front: CardSide::new("front"),
        back: CardSide::new_multi(&["colour", "color"]),
    });
    let mut questions = set.questions(&Conditions {
        include_card_back: true,
        ..Conditions::include_none()
    });
    let question = questions.next().unwrap();
    assert!(question.is_correct_answer("colour"));
    assert!(question.is_correct_answer(" COLOR "));
    assert!(!question.is_correct_answer("couleur"));
}

#[test]
fn mc_decoy_equal_to_answer_is_dropped() {
    // A stored decoy whose text equals the answer may never stand beside
    // the correct entry: it is dropped, shortening the list.
    let mut set = CardSet::default();
    set.mc_cards.push(McCard {
        question: CardSide::new("q"),
        answer: CardSide::new("x"),
        decoys: Decoys::from_texts(&["x", "y"]),
    });
    let mut rng = RandomSource::from_seed([6u8; 32]);
    for _ in 0..20 {
        let mut questions = set.questions(&Conditions::include_all());
        let question = questions.next().unwrap();
        let answers = question.mc_answers(3, &mut rng).unwrap();
        assert_eq!(answers.len(), 2);
        assert_eq!(answers.correct(), "x");
        let mut hits = 0;
        for i in 0..answers.len() {
            if answers.get(i) == "x" {
                hits += 1;
            }
        }
        assert_eq!(hits, 1);
        assert_eq!(answers.get(1 - answers.correct_index()), "y");
    }
}

#[test]
fn mc_all_decoys_equal_answer_gives_nothing() {
    let mut set = CardSet::default();
    set.mc_cards.push(McCard {
        question: CardSide::new("q"),
        answer: CardSide::new("x"),
        decoys: Decoys::from_texts(&["x", "x"]),
    });
    let mut rng = RandomSource::from_seed([8u8; 32]);
    let mut questions = set.questions(&Conditions::include_all());
    let question = questions.next().unwrap();
    for _ in 0..10 {
        assert!(question.mc_answers(3, &mut rng).is_none());
    }
}

#[test]
fn question_equality_compares_set_content() {
    let set_a = CardSet::example_recall_default();
    let set_b = CardSet::example_recall_default();
    let mut set_c = CardSet::example_recall_default();
    set_c.flashcards[0].front.push_text("extra");

    let back_only = Conditions {
        include_card_back: true,
        ..Conditions::include_none()
    };
    let qa = set_a.questions(&back_only).next().unwrap();
    let qa2 = set_a.questions(&back_only).next().unwrap();
    let qb = set_b.questions(&back_only).next().unwrap();
    let qc = set_c.questions(&back_only).next().unwrap();

    // Same set: equal. Separately built sets of identical content compare
    // equal too — content equality cannot tell such twins apart.
    assert_eq!(qa, qa2);
    assert_eq!(qa, qb);
    // A set of different content makes its questions different.
    assert_ne!(qa, qc);
    // Different cards of one set differ.
    let mut walker = set_a.questions(&back_only);
    let first = walker.next().unwrap();
    let second = walker.next().unwrap();
    assert_ne!(first, second);
}

#[test]
fn flashcard_decoys_respect_matching_rules() {
    // Two flashcards share the same back text up to case; with caseless
    // matching the twin text must never appear as a decoy next to it.
    let mut set = CardSet::default();
    set.flashcards.push(Flashcard::new("one", "same"));
    set.flashcards.push(Flashcard::new("two", "SAME"));
    set.flashcards.push(Flashcard::new("three", "other"));
    let mut rng = RandomSource::from_seed([4u8; 32]);
    for _ in 0..40 {
        let mut questions = set.questions(&Conditions {
            include_card_back: true,
            ..Conditions::include_none()
        });
        let question = questions.next().unwrap();
        if let Some(answers) = question.mc_answers(3, &mut rng) {
            for i in 0..answers.len() {
                if i != answers.correct_index() {
                    assert_eq!(answers.get(i), "other");
                }
            }
        }
    }
}
