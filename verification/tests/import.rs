use proxy_elev::import_deck_line;
use proxy_elev::import_deck_text;
use proxy_elev::parse_deck_line;
use proxy_elev::AlternateFaceMetadata;
use proxy_elev::CardFacePrintingId;
use proxy_elev::CardId;
use proxy_elev::CardMetadata;
use proxy_elev::FilledCardSlot;
use proxy_elev::Library;
use proxy_elev::PrintFile;
use proxy_elev::Title;

fn face(id: u32) -> CardFacePrintingId {
    CardFacePrintingId { id, face_or_variant_specifier: None, print_group: "en".to_string() }
}

fn catalog() -> Library {
    Library {
        cards: vec![
            CardMetadata {
                title: Title {
                    title: "Sure Gamble".to_string(),
                    stripped_title: "Sure Gamble".to_string(),
                },
                alternate_face_data: AlternateFaceMetadata::Single,
                id: CardId("sure_gamble".to_string()),
                printings: vec![face(50)],
            },
            CardMetadata {
                title: Title {
                    title: "Déjà Vu".to_string(),
                    stripped_title: "Deja Vu".to_string(),
                },
                alternate_face_data: AlternateFaceMetadata::Single,
                id: CardId("deja_vu".to_string()),
                printings: vec![face(51)],
            },
        ],
        faces: vec![],
        inserts: vec![],
    }
}

#[test]
fn parse_line_shapes() {
    assert_eq!(parse_deck_line("3 Sure Gamble"), Some((3, "Sure Gamble")));
    assert_eq!(parse_deck_line("12 a b c"), Some((12, "a b c")));
    assert_eq!(parse_deck_line("10 "), Some((10, "")));
    assert_eq!(parse_deck_line(""), None);
    assert_eq!(parse_deck_line("Sure Gamble"), None);
    assert_eq!(parse_deck_line("3x Sure Gamble"), None);
    assert_eq!(parse_deck_line(" 3 Sure Gamble"), None);
    assert_eq!(parse_deck_line("42"), None);
    assert_eq!(parse_deck_line("4294967295 x"), Some((4294967295, "x")));
    assert_eq!(parse_deck_line("4294967296 x"), None);
}

#[test]
fn three_copies_by_exact_title() {
    let lib = catalog();
    let mut pf = PrintFile::new();
    import_deck_text(&mut pf, &lib, "3 Sure Gamble");
    // three card slots referencing the card's sole printing, in order
    assert_eq!(pf.len(), 3);
    for i in 0..3 {
        match pf.get(i).unwrap() {
            FilledCardSlot::Card { printing } => assert_eq!(*printing, face(50)),
            FilledCardSlot::Insert { .. } => panic!("expected a card slot"),
        }
    }
}

#[test]
fn stripped_title_also_resolves() {
    let lib = catalog();
    let mut pf = PrintFile::new();
    import_deck_line(&mut pf, &lib, "2 Deja Vu");
    assert_eq!(pf.len(), 2);
    import_deck_line(&mut pf, &lib, "1 Déjà Vu");
    assert_eq!(pf.len(), 3);
}

#[test]
fn unresolved_lines_are_skipped() {
    let lib = catalog();
    let mut pf = PrintFile::new();
    import_deck_text(&mut pf, &lib, "1 Sure Gamble\nnot a line\n2 No Such Card\n1 Sure Gamble");
    // the malformed and unresolved lines are skipped, the rest land
    assert_eq!(pf.len(), 2);
}

#[test]
fn empty_text_imports_nothing() {
    let lib = catalog();
    let mut pf = PrintFile::new();
    import_deck_text(&mut pf, &lib, "");
    assert!(pf.is_empty());
}

#[test]
fn zero_copies_add_nothing() {
    let lib = catalog();
    let mut pf = PrintFile::new();
    import_deck_line(&mut pf, &lib, "0 Sure Gamble");
    assert!(pf.is_empty());
}

#[test]
fn first_matching_card_wins() {
    let mut lib = catalog();
    lib.cards.push(CardMetadata {
        title: Title {
            title: "Sure Gamble".to_string(),
            stripped_title: "Sure Gamble".to_string(),
        },
        alternate_face_data: AlternateFaceMetadata::Single,
        id: CardId("sure_gamble_promo".to_string()),
        printings: vec![face(60)],
    });
    let mut pf = PrintFile::new();
    import_deck_line(&mut pf, &lib, "1 Sure Gamble");
    assert_eq!(pf.len(), 1);
    match pf.get(0).unwrap() {
        FilledCardSlot::Card { printing } => assert_eq!(printing.id, 50),
        FilledCardSlot::Insert { .. } => panic!("expected a card slot"),
    }
}
