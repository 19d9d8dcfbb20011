use flashcards::card::CardSet;
use flashcards::question::{Conditions, Question, Questions};
use flashcards::random::RandomSource;

fn collect<'a>(mut questions: Questions<'a>) -> Vec<Question<'a>> {
    let mut v = Vec::new();
    while let Some(q) = questions.next() {
        v.push(q);
    }
    v
}

fn possible_conditions() -> [Conditions; 8] {
    [
        Conditions::include_none(),
        Conditions {
            include_card_back: true,
            ..Conditions::include_none()
        },
        Conditions {
            include_card_front: true,
            ..Conditions::include_none()
        },
        Conditions {
            include_mc: true,
            ..Conditions::include_none()
        },
        Conditions {
            include_card_back: false,
            ..Conditions::include_all()
        },
        Conditions {
            include_card_front: false,
            ..Conditions::include_all()
        },
        Conditions {
            include_mc: false,
            ..Conditions::include_all()
        },
        Conditions::include_all(),
    ]
}

#[test]
fn questions_include_none() {
    let set = CardSet::example_recall_default();
    let questions = set.questions(&Conditions::include_none());
    assert_eq!(questions.len(), 0);
}

#[test]
fn questions_include_card_back() {
    let set = CardSet::example_recall_default();
    let questions = collect(set.questions(&Conditions {
        include_card_back: true,
        ..Conditions::include_none()
    }));
    let mut rng = RandomSource::from_entropy();
    assert_eq!(questions[0].question(&mut rng), Some("a"));
    assert!(questions[0].is_correct_answer("0"));
    assert_eq!(questions[1].question(&mut rng), Some("b"));
    assert!(questions[1].is_correct_answer("1"));
    assert_eq!(questions[2].question(&mut rng), Some("c"));
    assert!(questions[2].is_correct_answer("2"));
    assert_eq!(questions[3].question(&mut rng), Some("d"));
    assert!(questions[3].is_correct_answer("3"));
    assert_eq!(questions[4].question(&mut rng), Some("e"));
    assert!(questions[4].is_correct_answer("4"));
    assert_eq!(questions[5].question(&mut rng), Some("f"));
    assert!(questions[5].is_correct_answer("5"));
    assert_eq!(questions.len(), 6);
}

#[test]
fn questions_include_card_front() {
    let set = CardSet::example_recall_default();
    let questions = collect(set.questions(&Conditions {
        include_card_front: true,
        ..Conditions::include_none()
    }));
    let mut rng = RandomSource::from_entropy();
    assert_eq!(questions[0].question(&mut rng), Some("0"));
    assert!(questions[0].is_correct_answer("a"));
    assert_eq!(questions[1].question(&mut rng), Some("1"));
    assert!(questions[1].is_correct_answer("b"));
    assert_eq!(questions[2].question(&mut rng), Some("2"));
    assert!(questions[2].is_correct_answer("c"));
    assert_eq!(questions[3].question(&mut rng), Some("3"));
    assert!(questions[3].is_correct_answer("d"));
    assert_eq!(questions[4].question(&mut rng), Some("4"));
    assert!(questions[4].is_correct_answer("e"));
    assert_eq!(questions[5].question(&mut rng), Some("5"));
    assert!(questions[5].is_correct_answer("f"));
    assert_eq!(questions.len(), 6);
}

#[test]
fn questions_include_mc() {
    let set = CardSet::example_recall_default();
    let questions = collect(set.questions(&Conditions {
        include_mc: true,
        ..Conditions::include_none()
    }));
    let mut rng = RandomSource::from_entropy();
    assert_eq!(questions[0].question(&mut rng), Some("0mc"));
    assert!(questions[0].is_correct_answer("0answer"));
    assert_eq!(questions[1].question(&mut rng), Some("1mc"));
    assert!(questions[1].is_correct_answer("1answer"));
    assert_eq!(questions[2].question(&mut rng), Some("2mc"));
    assert!(questions[2].is_correct_answer("2answer"));
    assert_eq!(questions[3].question(&mut rng), Some("3mc"));
    assert!(questions[3].is_correct_answer("3answer"));
    assert_eq!(questions.len(), 4);
}

#[test]
fn questions_include_all() {
    let set = CardSet::example_recall_default();
    let questions = collect(set.questions(&Conditions::include_all()));
    let mut rng = RandomSource::from_entropy();

    assert_eq!(questions[0].question(&mut rng), Some("a"));
    assert!(questions[0].is_correct_answer("0"));
    assert_eq!(questions[1].question(&mut rng), Some("b"));
    assert!(questions[1].is_correct_answer("1"));
    assert_eq!(questions[2].question(&mut rng), Some("c"));
    assert!(questions[2].is_correct_answer("2"));
    assert_eq!(questions[3].question(&mut rng), Some("d"));
    assert!(questions[3].is_correct_answer("3"));
    assert_eq!(questions[4].question(&mut rng), Some("e"));
    assert!(questions[4].is_correct_answer("4"));
    assert_eq!(questions[5].question(&mut rng), Some("f"));
    assert!(questions[5].is_correct_answer("5"));

    assert_eq!(questions[6].question(&mut rng), Some("0"));
    assert!(questions[6].is_correct_answer("a"));
    assert_eq!(questions[7].question(&mut rng), Some("1"));
    assert!(questions[7].is_correct_answer("b"));
    assert_eq!(questions[8].question(&mut rng), Some("2"));
    assert!(questions[8].is_correct_answer("c"));
    assert_eq!(questions[9].question(&mut rng), Some("3"));
    assert!(questions[9].is_correct_answer("d"));
    assert_eq!(questions[10].question(&mut rng), Some("4"));
    assert!(questions[10].is_correct_answer("e"));
    assert_eq!(questions[11].question(&mut rng), Some("5"));
    assert!(questions[11].is_correct_answer("f"));

    assert_eq!(questions[12].question(&mut rng), Some("0mc"));
    assert!(questions[12].is_correct_answer("0answer"));
    assert_eq!(questions[13].question(&mut rng), Some("1mc"));
    assert!(questions[13].is_correct_answer("1answer"));
    assert_eq!(questions[14].question(&mut rng), Some("2mc"));
    assert!(questions[14].is_correct_answer("2answer"));
    assert_eq!(questions[15].question(&mut rng), Some("3mc"));
    assert!(questions[15].is_correct_answer("3answer"));
    assert_eq!(questions.len(), 16);
}

#[test]
fn match_text_ignore_caps() {
    let set = CardSet::example_recall_default();
    let mut questions = set.questions(&Conditions {
        include_card_front: true,
        ..Conditions::include_none()
    });
    let question = questions.next().unwrap();
    assert!(question.is_correct_answer("A "));
}

#[test]
fn mc_answers_flashcard() {
    let set = CardSet::example_recall_default();
    let mut questions = set.questions(&Conditions {
        include_card_back: true,
        include_card_front: true,
        ..Conditions::include_none()
    });
    let question = questions.next().unwrap();
    let mut rng = RandomSource::from_entropy();
    let answers = question.mc_answers(6, &mut rng).unwrap();
    assert_eq!(answers.len(), 6);
    assert!(answers.contains("1"));
    assert!(answers.contains("2"));
    assert!(answers.contains("3"));
    assert!(answers.contains("4"));
    assert!(answers.contains("5"));
    assert_eq!(answers.correct(), "0");
}

#[test]
fn mc_answers_mc_card() {
    let set = CardSet::example_recall_default();
    let mut questions = set.questions(&Conditions {
        include_mc: true,
        ..Conditions::include_none()
    });
    let question = questions.next().unwrap();
    let mut rng = RandomSource::from_entropy();
    let answers = question.mc_answers(4, &mut rng).unwrap();
    assert_eq!(answers.len(), 4);
    assert!(answers.contains("0decoy0"));
    assert!(answers.contains("0decoy1"));
    assert!(answers.contains("0decoy2"));
    assert_eq!(answers.correct(), "0answer");
}

#[test]
fn mc_answers_small_set() {
    let set = CardSet::example_recall_default();
    // Use a deterministic generator because `Question::mc_answers` can
    // return fewer results than expected in unlucky situations.
    let mut rng = RandomSource::from_seed([0u8; 32]);

    let mut questions = set.questions(&Conditions {
        include_card_back: true,
        include_card_front: true,
        ..Conditions::include_none()
    });
    let question = questions.next().unwrap();
    let answers = question.mc_answers(256, &mut rng).unwrap();
    assert_eq!(answers.len(), 6);

    let mut questions = set.questions(&Conditions {
        include_mc: true,
        ..Conditions::include_none()
    });
    let question = questions.next().unwrap();
    let answers = question.mc_answers(256, &mut rng).unwrap();
    assert_eq!(answers.len(), 4);

    let mut questions = set.questions(&Conditions::include_all());
    let answers = questions.next().unwrap().mc_answers(256, &mut rng).unwrap();
    assert_eq!(answers.len(), 6);
    let mut last = None;
    while let Some(q) = questions.next() {
        last = Some(q);
    }
    let answers = last.unwrap().mc_answers(256, &mut rng).unwrap();
    assert_eq!(answers.len(), 4);
}

#[test]
fn questions_correct_len() {
    let set = CardSet::example_recall_default();
    for (conditions, expected_count) in possible_conditions().iter().zip([0, 6, 6, 4, 10, 10, 12, 16]) {
        assert_eq!(
            set.questions(conditions).len(),
            expected_count,
            "Failed at {:#?}",
            conditions
        );
    }
}

#[test]
fn questions_len_matches_num_returned() {
    let set = CardSet::example_recall_default();
    for conditions in possible_conditions().iter() {
        let questions = set.questions(conditions);
        let mut count = 0;
        let mut walker = questions.clone();
        while walker.next().is_some() {
            count += 1;
        }
        assert_eq!(questions.len(), count, "Failed at {:#?}", conditions);
    }
}

#[test]
fn questions_for_each_matches_next() {
    let set = CardSet::example_recall_default();
    for conditions in possible_conditions().iter() {
        let questions = set.questions(conditions);
        let mut next_questions = questions.clone();
        questions.for_each(|for_each| {
            let next = next_questions.next();
            assert_eq!(Some(for_each), next, "Failed at {:#?}", conditions);
        });
        assert!(
            next_questions.next().is_none(),
            "Failed at {:#?}",
            conditions
        );
    }
}

#[test]
fn questions_fold() {
    let set = CardSet::example_recall_default();
    for conditions in possible_conditions().iter() {
        let questions = set.questions(conditions);
        let count = questions.clone().fold(0, |acc, _| acc + 1);
        assert_eq!(questions.len(), count, "Failed at {:#?}", conditions);
    }
}
