use proxy_elev::AlternateFaceMetadata;
use proxy_elev::CardFacePrintingId;
use proxy_elev::CardId;
use proxy_elev::CardMetadata;
use proxy_elev::FilledCardSlot;
use proxy_elev::InsertId;
use proxy_elev::InsertMetadata;
use proxy_elev::Library;
use proxy_elev::LibraryEntry;
use proxy_elev::LocalImageOverride;
use proxy_elev::MultiLibrary;
use proxy_elev::PrintFile;
use proxy_elev::PrintingMetadata;
use proxy_elev::Title;

fn title(t: &str) -> Title {
    Title { title: t.to_string(), stripped_title: t.to_string() }
}

fn face(group: &str, id: u32, spec: Option<usize>) -> CardFacePrintingId {
    CardFacePrintingId { id, face_or_variant_specifier: spec, print_group: group.to_string() }
}

fn empty_multi() -> MultiLibrary {
    MultiLibrary { libraries: vec![], collection_names: vec![], nrdb_remap: vec![], local_images: vec![] }
}

/// A catalog with one group holding one card, with the reverse face
/// index filled in for each printing.
fn catalog_with(card: &CardMetadata) -> MultiLibrary {
    let faces = card
        .printings
        .iter()
        .map(|p| PrintingMetadata {
            id: p.clone(),
            card_id: card.id.clone(),
            printing_name: "Core".to_string(),
        })
        .collect();
    let library = Library {
        cards: vec![CardMetadata {
            title: card.title.clone(),
            alternate_face_data: card.alternate_face_data.clone(),
            id: card.id.clone(),
            printings: card.printings.clone(),
        }],
        faces,
        inserts: vec![],
    };
    MultiLibrary {
        libraries: vec![LibraryEntry { group: "en".to_string(), library }],
        collection_names: vec![],
        nrdb_remap: vec![],
        local_images: vec![],
    }
}

fn single_card() -> CardMetadata {
    CardMetadata {
        title: title("Alpha"),
        alternate_face_data: AlternateFaceMetadata::Single,
        id: CardId("alpha".to_string()),
        printings: vec![face("en", 1, None), face("en", 7, None)],
    }
}

fn flip_card() -> CardMetadata {
    CardMetadata {
        title: title("Front"),
        alternate_face_data: AlternateFaceMetadata::Multiple(vec![title("Back"), title("Side")]),
        id: CardId("flip".to_string()),
        printings: vec![face("en", 4, Some(1)), face("en", 4, Some(2)), face("en", 4, Some(3))],
    }
}

fn variant_card(n: usize) -> CardMetadata {
    CardMetadata {
        title: title("Shifty"),
        alternate_face_data: AlternateFaceMetadata::Variants(n),
        id: CardId("shifty".to_string()),
        printings: (1..=n).map(|v| face("en", 9, Some(v))).collect(),
    }
}

fn slot_face(slot: &FilledCardSlot) -> &CardFacePrintingId {
    match slot {
        FilledCardSlot::Card { printing } => printing,
        FilledCardSlot::Insert { .. } => panic!("expected a card slot"),
    }
}

#[test]
fn empty_file() {
    let pf = PrintFile::new();
    assert_eq!(pf.len(), 0);
    assert!(pf.is_empty());
    assert!(pf.get(0).is_none());
    assert!(pf.all().is_empty());
    let d = PrintFile::default();
    assert!(d.is_empty());
}

#[test]
fn add_single_card_appends_its_greatest_printing() {
    let mut pf = PrintFile::new();
    let card = single_card();
    pf.add_cards(&card);
    // slots == [Card { printing: P }] for the card's last printing
    assert_eq!(pf.len(), 1);
    assert_eq!(pf.all(), &[FilledCardSlot::Card { printing: face("en", 7, None) }]);
}

#[test]
fn add_flip_card_appends_every_face_in_order() {
    let mut pf = PrintFile::new();
    pf.add_cards(&flip_card());
    // exactly titles.len() + 1 slots, face specifiers 1, 2, 3
    assert_eq!(pf.len(), 3);
    for (i, expected_face) in [1usize, 2, 3].iter().enumerate() {
        let slot = pf.get(i).unwrap();
        assert_eq!(slot_face(slot).face_or_variant_specifier, Some(*expected_face));
    }
}

#[test]
fn variant_cycle() {
    let mut pf = PrintFile::new();
    let card = variant_card(3);
    // three consecutive additions cover all three variants exactly
    // once, in ascending order
    pf.add_cards(&card);
    pf.add_cards(&card);
    pf.add_cards(&card);
    let specs: Vec<Option<usize>> = pf
        .all()
        .iter()
        .map(|s| slot_face(s).face_or_variant_specifier)
        .collect();
    assert_eq!(specs, vec![Some(1), Some(2), Some(3)]);
    // a fourth addition starts the cycle over
    pf.add_cards(&card);
    assert_eq!(slot_face(pf.get(3).unwrap()).face_or_variant_specifier, Some(1));
}

#[test]
fn remove_then_readd_picks_same_variant() {
    let card = variant_card(3);
    let lib = catalog_with(&card);
    let mut pf = PrintFile::new();
    pf.add_cards(&card);
    assert_eq!(slot_face(pf.get(0).unwrap()).face_or_variant_specifier, Some(1));
    // removing the slot gives variant 1's counter back ...
    pf.remove_card(0, &lib);
    assert!(pf.is_empty());
    // ... so the next addition picks variant 1 again
    pf.add_cards(&card);
    assert_eq!(slot_face(pf.get(0).unwrap()).face_or_variant_specifier, Some(1));
}

#[test]
fn remove_without_catalog_entry_keeps_counters() {
    let card = variant_card(2);
    let empty = empty_multi();
    let mut pf = PrintFile::new();
    pf.add_cards(&card);
    // the catalog cannot resolve the slot, so no counter is released
    pf.remove_card(0, &empty);
    pf.add_cards(&card);
    // variant 1 still counts as used once: variant 2 is next
    assert_eq!(slot_face(pf.get(0).unwrap()).face_or_variant_specifier, Some(2));
}

#[test]
fn remove_shifts_later_slots() {
    let mut pf = PrintFile::new();
    let lib = empty_multi();
    pf.add_insert(InsertId { name: "a".to_string(), print_group: "en".to_string() });
    pf.add_insert(InsertId { name: "b".to_string(), print_group: "en".to_string() });
    pf.add_insert(InsertId { name: "c".to_string(), print_group: "en".to_string() });
    pf.remove_card(1, &lib);
    assert_eq!(pf.len(), 2);
    assert_eq!(
        pf.all(),
        &[
            FilledCardSlot::Insert { insert: InsertId { name: "a".to_string(), print_group: "en".to_string() } },
            FilledCardSlot::Insert { insert: InsertId { name: "c".to_string(), print_group: "en".to_string() } },
        ],
    );
    // out-of-range removal is ignored
    pf.remove_card(5, &lib);
    assert_eq!(pf.len(), 2);
}

#[test]
fn update_card_replaces_wholesale() {
    let card = variant_card(2);
    let lib = catalog_with(&card);
    let mut pf = PrintFile::new();
    pf.add_cards(&card);
    // replace the slot with a fixed face; the old slot's counter is
    // given back, and no counter is raised for the new face
    pf.update_card(0, face("en", 9, Some(2)), &lib);
    assert_eq!(slot_face(pf.get(0).unwrap()).face_or_variant_specifier, Some(2));
    // balancing still sees every variant unused
    pf.add_cards(&card);
    assert_eq!(slot_face(pf.get(1).unwrap()).face_or_variant_specifier, Some(1));
    // out-of-range update is ignored
    pf.update_card(9, face("en", 9, Some(1)), &lib);
    assert_eq!(pf.len(), 2);
}

#[test]
fn clear_resets_everything() {
    let card = variant_card(2);
    let mut pf = PrintFile::new();
    pf.add_cards(&card);
    pf.clear();
    assert!(pf.is_empty());
    // the counters were cleared too: balancing starts over
    pf.add_cards(&card);
    assert_eq!(slot_face(pf.get(0).unwrap()).face_or_variant_specifier, Some(1));
}

#[test]
fn slot_names() {
    let card = flip_card();
    let lib = catalog_with(&card);
    let front = FilledCardSlot::Card { printing: face("en", 4, Some(1)) };
    assert_eq!(front.name(&lib), "Front");
    let back = FilledCardSlot::Card { printing: face("en", 4, Some(2)) };
    assert_eq!(back.name(&lib), "Back");
    let side = FilledCardSlot::Card { printing: face("en", 4, Some(3)) };
    assert_eq!(side.name(&lib), "Side");
    let missing = FilledCardSlot::Card { printing: face("en", 77, Some(1)) };
    assert_eq!(missing.name(&lib), "Missing card 77 (en)");
    let missing_group = FilledCardSlot::Card { printing: face("fr", 4, Some(1)) };
    assert_eq!(missing_group.name(&lib), "Missing card 4 (fr)");
    let missing_insert = FilledCardSlot::Insert {
        insert: InsertId { name: "token".to_string(), print_group: "en".to_string() },
    };
    assert_eq!(missing_insert.name(&lib), "Missing insert token (en)");
}

#[test]
fn insert_name_resolves() {
    let mut lib = catalog_with(&single_card());
    lib.libraries[0].library.inserts.push(InsertMetadata {
        title: title("Shiny Token"),
        id: InsertId { name: "token".to_string(), print_group: "en".to_string() },
        insert_groups: vec![],
    });
    let slot = FilledCardSlot::Insert {
        insert: InsertId { name: "token".to_string(), print_group: "en".to_string() },
    };
    assert_eq!(slot.name(&lib), "Shiny Token");
}

#[test]
fn slot_image_urls_and_overrides() {
    let mut lib = empty_multi();
    let slot = FilledCardSlot::Card { printing: face("en", 5, Some(1)) };
    assert!(!slot.is_local_override(&lib));
    assert!(slot.image_url(&lib).ends_with("/en/card/00005.1.webp"));
    lib.local_images.push(LocalImageOverride {
        id: 5,
        face_or_variant_specifier: Some(1),
        print_group: "en".to_string(),
        url: "local/5.webp".to_string(),
    });
    assert!(slot.is_local_override(&lib));
    assert_eq!(slot.image_url(&lib), "local/5.webp");
    let insert_slot = FilledCardSlot::Insert {
        insert: InsertId { name: "token".to_string(), print_group: "en".to_string() },
    };
    assert!(!insert_slot.is_local_override(&lib));
    assert!(insert_slot.image_url(&lib).ends_with("/en/insert/token.webp"));
}

#[test]
fn variant_face_name_uses_card_title() {
    let card = variant_card(2);
    let lib = catalog_with(&card);
    let v2 = FilledCardSlot::Card { printing: face("en", 9, Some(2)) };
    // a variant form shows the card's own title, not a face title
    assert_eq!(v2.name(&lib), "Shifty");
}

#[test]
fn flip_face_out_of_range_falls_back_to_front_title() {
    let card = flip_card();
    let mut lib = catalog_with(&card);
    lib.libraries[0].library.faces.push(PrintingMetadata {
        id: face("en", 4, Some(9)),
        card_id: CardId("flip".to_string()),
        printing_name: "Core".to_string(),
    });
    let odd = FilledCardSlot::Card { printing: face("en", 4, Some(9)) };
    assert_eq!(odd.name(&lib), "Front");
}

#[test]
fn single_faced_printing_without_specifier_names_card() {
    let card = single_card();
    let lib = catalog_with(&card);
    let slot = FilledCardSlot::Card { printing: face("en", 7, None) };
    assert_eq!(slot.name(&lib), "Alpha");
}
