use flashcards::card::{CardSet, CardSide, Decoys, Flashcard, McCard, RecallSettings, RecallType};
use flashcards::loading::{first_line, property_value, string_from_escaped, Error, Version};

const SERIALIZED_SET: &str = "EFC3 format 1.0.0
10 terms

@[card front]
recall: text
check caps: true

@[card back]
recall: never
check caps: false

@[mc]
recall: multiple choice
check caps: false

[card]
F: a
B: 0

[card]
F: b
B: 1

[card]
F: c
B: 2

[card]
F: d
B: 3

[card]
F: e
B: 4

[card]
F: f
B: 5

[mc]
Q: 0mc
A: 0answer
D: 0decoy0
D: 0decoy1
D: 0decoy2

[mc]
Q: 1mc
A: 1answer
D: 1decoy0
D: 1decoy1
D: 1decoy2

[mc]
Q: 2mc
A: 2answer
D: 2decoy0
D: 2decoy1
D: 2decoy2

[mc]
Q: 3mc
A: 3answer
D: 3decoy0
D: 3decoy1
D: 3decoy2
";

#[test]
fn set_deserialize() {
    let (set, version) = CardSet::parse_str(SERIALIZED_SET).unwrap();
    assert_eq!(
        set,
        CardSet::example(
            RecallSettings {
                typ: RecallType::Text,
                check_caps: true,
            },
            RecallSettings {
                typ: RecallType::Never,
                check_caps: false,
            },
            RecallSettings {
                typ: RecallType::Mc,
                check_caps: false,
            },
        )
    );
    assert_eq!(version, Some(Version::new(1, 0, 0)))
}

#[test]
fn first_line_version() {
    let (version, rem) = first_line("EFC3 format 1.2.4\n").unwrap();
    assert_eq!(version, Version::new(1, 2, 4));
    assert!(rem.is_empty());
}

#[test]
fn property_value_test() {
    let (property, value, rem) = property_value("  prop  :    val \n").unwrap();
    assert_eq!(property.trim(), "prop");
    assert_eq!(value.trim(), "val");
    assert!(rem.is_empty());
}

#[test]
fn recall_settings_recall() {
    let mut rules = RecallSettings {
        typ: RecallType::Text,
        ..Default::default()
    };

    let rem = rules.update("recall: never\n").unwrap();
    assert_eq!(rules.typ, RecallType::Never);
    assert!(rem.is_empty());

    let rem = rules.update("recall: multiple choice\n").unwrap();
    assert_eq!(rules.typ, RecallType::Mc);
    assert!(rem.is_empty());

    let rem = rules.update(" recall : text \n").unwrap();
    assert_eq!(rules.typ, RecallType::Text);
    assert!(rem.is_empty());
}

#[test]
#[allow(clippy::bool_assert_comparison)]
fn recall_settings_check_caps() {
    let mut rules = RecallSettings {
        check_caps: true,
        ..Default::default()
    };

    let rem = rules.update("check caps: false\n").unwrap();
    assert_eq!(rules.check_caps, false);
    assert!(rem.is_empty());

    let rem = rules.update(" check caps : true \n").unwrap();
    assert_eq!(rules.check_caps, true);
    assert!(rem.is_empty());
}

#[test]
fn flashcard_single_texts() {
    let (card, rem) = Flashcard::parse("F: a\n B : 0\n");
    assert_eq!(card, Flashcard::new("a", "0"));
    assert!(rem.is_empty());
}

#[test]
fn flashcard_multiple_texts() {
    let (card, rem) = Flashcard::parse("F: a\nF: A\nB: 0\nB: )\n");
    assert_eq!(
        card,
        Flashcard {
            front: CardSide::new_multi(&["a", "A"]),
            back: CardSide::new_multi(&["0", ")"]),
        }
    );
    assert!(rem.is_empty());
}

#[test]
fn mc_card_single_texts() {
    let (card, rem) = McCard::parse("Q: 0mc\n A : 0answer\nD: 0decoy0\n");
    assert_eq!(
        card,
        McCard {
            question: CardSide::new("0mc"),
            answer: CardSide::new("0answer"),
            decoys: Decoys::from_texts(&["0decoy0"]),
        }
    );
    assert!(rem.is_empty());
}

#[test]
fn mc_card_multiple_texts() {
    let (card, rem) =
        McCard::parse("Q: 0mc\nQ: 0MC\nA: 0answer\nA: 0ANSWER\nD: 0decoy0\nD: 0decoy1\nD: 0decoy2\n");
    assert_eq!(
        card,
        McCard {
            question: CardSide::new_multi(&["0mc", "0MC"]),
            answer: CardSide::new_multi(&["0answer", "0ANSWER"]),
            decoys: Decoys::from_texts(&["0decoy0", "0decoy1", "0decoy2"]),
        }
    );
    assert!(rem.is_empty());
}

#[test]
fn parse_str_empty_input() {
    let (set, version) = CardSet::parse_str("").unwrap();
    assert_eq!(set, CardSet::default());
    assert_eq!(version, None);
}

#[test]
fn parse_str_no_header() {
    let (set, version) = CardSet::parse_str("[card]\nF: x\nB: y").unwrap();
    assert_eq!(version, None);
    assert_eq!(set.flashcards.len(), 1);
    assert_eq!(set.flashcards[0], Flashcard::new("x", "y"));
}

#[test]
fn parse_str_terms_line_skipped() {
    let (set, version) = CardSet::parse_str("EFC3 format 2.1.0\n3 terms\n[card]\nF: x\nB: y\n").unwrap();
    assert_eq!(version, Some(Version::new(2, 1, 0)));
    assert_eq!(set.flashcards.len(), 1);
}

#[test]
fn parse_str_bad_recall_value() {
    let err = CardSet::parse_str("@[card front]\nrecall: sometimes\n").unwrap_err();
    assert!(matches!(err, Error::InvalidType { .. }));
}

#[test]
fn parse_str_bad_check_caps_value() {
    let err = CardSet::parse_str("@[mc]\ncheck caps: maybe\n").unwrap_err();
    assert!(matches!(err, Error::InvalidType { line: 2, .. }));
}

#[test]
fn parse_str_unknown_lines_ignored() {
    let (set, _) = CardSet::parse_str("junk line\n\n[card]\nF: a\nB: b\nstray\n").unwrap();
    assert_eq!(set.flashcards.len(), 1);
    assert_eq!(set.flashcards[0], Flashcard::new("a", "b"));
}

#[test]
fn recall_type_keywords() {
    assert_eq!(RecallType::from_str("never"), Some(RecallType::Never));
    assert_eq!(RecallType::from_str("multiple choice"), Some(RecallType::Mc));
    assert_eq!(RecallType::from_str("text"), Some(RecallType::Text));
    assert_eq!(RecallType::from_str("nevEr"), None);
    assert_eq!(RecallType::from_str(""), None);
    assert_eq!(RecallType::from_str("never "), None);
}

#[test]
fn escaped_text_round() {
    assert_eq!(string_from_escaped("a\\nb\\\\c\\ d"), "a\nb\\c d");
    assert_eq!(string_from_escaped("plain"), "plain");
    assert_eq!(string_from_escaped("drop\\xit"), "dropit");
    assert_eq!(string_from_escaped("tail\\"), "tail\\");
}

#[test]
fn escaped_text_in_card() {
    let (card, _) = Flashcard::parse("F: two\\nlines\nB: back\\\\slash\n");
    assert_eq!(card.front.get_text(0), Some("two\nlines"));
    assert_eq!(card.back.get_text(0), Some("back\\slash"));
}

#[test]
fn version_parse_rejects_overflow() {
    assert!(first_line("EFC3 format 99999999999.0.0\n").is_none());
    assert!(first_line("EFC3 format 1.2\n").is_none());
    assert!(first_line("EFC2 format 1.2.3\n").is_none());
}
