use proxy_elev::AlternateFaceMetadata;
use proxy_elev::CardFacePrintingId;
use proxy_elev::CardId;
use proxy_elev::CardImage;
use proxy_elev::CardMetadata;
use proxy_elev::CollectionName;
use proxy_elev::InsertId;
use proxy_elev::InsertMetadata;
use proxy_elev::Library;
use proxy_elev::LibraryEntry;
use proxy_elev::LocalImageOverride;
use proxy_elev::MultiLibrary;
use proxy_elev::NrdbRemapEntry;
use proxy_elev::PrintingMetadata;
use proxy_elev::Title;

fn title(t: &str) -> Title {
    Title { title: t.to_string(), stripped_title: t.to_string() }
}

fn face(group: &str, id: u32, spec: Option<usize>) -> CardFacePrintingId {
    CardFacePrintingId { id, face_or_variant_specifier: spec, print_group: group.to_string() }
}

fn card(name: &str, id: &str, alt: AlternateFaceMetadata, printings: Vec<CardFacePrintingId>) -> CardMetadata {
    CardMetadata { title: title(name), alternate_face_data: alt, id: CardId(id.to_string()), printings }
}

fn printing_entry(f: CardFacePrintingId, card_id: &str, name: &str) -> PrintingMetadata {
    PrintingMetadata { id: f, card_id: CardId(card_id.to_string()), printing_name: name.to_string() }
}

fn library(cards: Vec<CardMetadata>, faces: Vec<PrintingMetadata>, inserts: Vec<InsertMetadata>) -> Library {
    Library { cards, faces, inserts }
}

#[test]
fn lookups() {
    let f = face("en", 7, None);
    let lib = library(
        vec![card("Alpha", "alpha", AlternateFaceMetadata::Single, vec![f.clone()])],
        vec![printing_entry(f.clone(), "alpha", "Core")],
        vec![InsertMetadata {
            title: title("Token"),
            id: InsertId { name: "token".to_string(), print_group: "en".to_string() },
            insert_groups: vec!["promos".to_string()],
        }],
    );
    assert_eq!(lib.try_get_card(&CardId("alpha".to_string())).unwrap().title.title, "Alpha");
    assert!(lib.try_get_card(&CardId("beta".to_string())).is_none());
    assert_eq!(lib.get_card(&CardId("alpha".to_string())).id, CardId("alpha".to_string()));
    assert_eq!(lib.try_get_face_card(&f).unwrap().title.title, "Alpha");
    assert_eq!(lib.get_face_card(&f).title.title, "Alpha");
    assert!(lib.try_get_face_card(&face("en", 8, None)).is_none());
    let iid = InsertId { name: "token".to_string(), print_group: "en".to_string() };
    assert_eq!(lib.get_insert(&iid).title.title, "Token");
    assert_eq!(lib.try_get_insert(&iid).unwrap().title.title, "Token");
}

#[test]
fn merge_is_additive_and_base_wins() {
    let base_face = face("en", 1, None);
    let other_face = face("en", 2, None);
    let shared_face = face("en", 3, None);

    let mut base = library(
        vec![card("Alpha", "alpha", AlternateFaceMetadata::Single, vec![base_face.clone()])],
        vec![
            printing_entry(base_face.clone(), "alpha", "Core"),
            printing_entry(shared_face.clone(), "alpha", "Base Name"),
        ],
        vec![],
    );
    let other = library(
        vec![
            // same card id, conflicting title: the base's metadata stays
            card("Alpha Prime", "alpha", AlternateFaceMetadata::Single, vec![other_face.clone()]),
            card("Beta", "beta", AlternateFaceMetadata::Single, vec![other_face.clone()]),
        ],
        vec![
            // same face key, conflicting name: first writer wins
            printing_entry(shared_face.clone(), "alpha", "Other Name"),
            printing_entry(other_face.clone(), "beta", "Extension"),
        ],
        vec![],
    );

    base.merge(&other);

    // card key set is the union
    assert_eq!(base.cards.len(), 2);
    let alpha = base.try_get_card(&CardId("alpha".to_string())).unwrap();
    // the base's metadata is kept, the printings are unioned
    assert_eq!(alpha.title.title, "Alpha");
    assert_eq!(alpha.printings.len(), 2);
    assert!(alpha.printings.contains(&base_face));
    assert!(alpha.printings.contains(&other_face));
    let beta = base.try_get_card(&CardId("beta".to_string())).unwrap();
    assert_eq!(beta.title.title, "Beta");
    assert_eq!(beta.printings, vec![other_face.clone()]);

    // face key set is the union and a face present in both operands
    // keeps the base operand's metadata
    assert_eq!(base.faces.len(), 3);
    let shared = base.faces.iter().find(|p| p.id == shared_face).unwrap();
    assert_eq!(shared.printing_name, "Base Name");
}

#[test]
fn merge_twice_gives_same_face_set() {
    let f1 = face("en", 1, None);
    let f2 = face("en", 2, None);
    let mut a = library(vec![], vec![printing_entry(f1.clone(), "x", "A")], vec![]);
    let other = library(
        vec![],
        vec![printing_entry(f1.clone(), "x", "B"), printing_entry(f2.clone(), "y", "C")],
        vec![],
    );
    a.merge(&other);
    a.merge(&other);
    assert_eq!(a.faces.len(), 2);
    assert_eq!(a.faces.iter().find(|p| p.id == f1).unwrap().printing_name, "A");
}

fn multi(groups: Vec<(&str, Library)>) -> MultiLibrary {
    MultiLibrary {
        libraries: groups
            .into_iter()
            .map(|(g, l)| LibraryEntry { group: g.to_string(), library: l })
            .collect(),
        collection_names: vec![],
        nrdb_remap: vec![],
        local_images: vec![],
    }
}

#[test]
fn merge_overlay_per_group() {
    let f1 = face("en", 1, None);
    let f2 = face("de", 2, None);
    let mut base = multi(vec![(
        "en",
        library(vec![card("Alpha", "alpha", AlternateFaceMetadata::Single, vec![f1.clone()])], vec![], vec![]),
    )]);
    base.collection_names.push(CollectionName { group: "en".to_string(), name: "English".to_string() });
    base.nrdb_remap.push(NrdbRemapEntry { from: 10, to: 11 });
    base.local_images.push(LocalImageOverride {
        id: 1,
        face_or_variant_specifier: None,
        print_group: "en".to_string(),
        url: "base.webp".to_string(),
    });

    let mut overlay = multi(vec![
        ("en", library(vec![card("Beta", "beta", AlternateFaceMetadata::Single, vec![f1.clone()])], vec![], vec![])),
        ("de", library(vec![card("Gamma", "gamma", AlternateFaceMetadata::Single, vec![f2.clone()])], vec![], vec![])),
    ]);
    overlay.collection_names.push(CollectionName { group: "en".to_string(), name: "English (updated)".to_string() });
    overlay.nrdb_remap.push(NrdbRemapEntry { from: 10, to: 12 });
    overlay.local_images.push(LocalImageOverride {
        id: 1,
        face_or_variant_specifier: None,
        print_group: "en".to_string(),
        url: "overlay.webp".to_string(),
    });

    base.merge_overlay(overlay);

    // the shared group was merged, the new group inserted whole
    assert_eq!(base.libraries.len(), 2);
    let en = base.find_group("en").unwrap();
    assert!(en.try_get_card(&CardId("alpha".to_string())).is_some());
    assert!(en.try_get_card(&CardId("beta".to_string())).is_some());
    let de = base.find_group("de").unwrap();
    assert!(de.try_get_card(&CardId("gamma".to_string())).is_some());

    // display names and translations are overwritten: the overlay wins
    assert_eq!(base.collection_names.len(), 1);
    assert_eq!(base.collection_names[0].name, "English (updated)");
    assert_eq!(base.remap_nrdb_id(10), 12);
    // an id without an entry stands for itself
    assert_eq!(base.remap_nrdb_id(99), 99);

    // overrides are appended, so the base's keep priority
    assert_eq!(base.local_images.len(), 2);
    let probe = face("en", 1, None);
    assert_eq!(base.local_image_url(&probe), Some("base.webp"));
}

#[test]
fn local_image_url_first_match_wins() {
    let mut lib = multi(vec![]);
    assert_eq!(lib.local_image_url(&face("en", 5, Some(2))), None);
    lib.local_images.push(LocalImageOverride {
        id: 5,
        face_or_variant_specifier: Some(2),
        print_group: "en".to_string(),
        url: "first.webp".to_string(),
    });
    lib.local_images.push(LocalImageOverride {
        id: 5,
        face_or_variant_specifier: Some(2),
        print_group: "en".to_string(),
        url: "second.webp".to_string(),
    });
    assert_eq!(lib.local_image_url(&face("en", 5, Some(2))), Some("first.webp"));
    // the whole (id, face, group) triple must match
    assert_eq!(lib.local_image_url(&face("en", 5, Some(3))), None);
    assert_eq!(lib.local_image_url(&face("de", 5, Some(2))), None);
    assert_eq!(lib.local_image_url(&face("en", 6, Some(2))), None);
}

const ROOT: &str = "https://nro-public.s3.nl-ams.scw.cloud/nro/card-printings/v2/webp";

#[test]
fn image_urls() {
    let with_face = face("nsg", 123, Some(2));
    assert_eq!(with_face.image_url(), format!("{ROOT}/nsg/card/00123.2.webp"));
    let plain = face("nsg", 123456, None);
    assert_eq!(plain.image_url(), format!("{ROOT}/nsg/card/123456.webp"));
    let insert = InsertId { name: "token".to_string(), print_group: "nsg".to_string() };
    assert_eq!(insert.image_url(), format!("{ROOT}/nsg/insert/token.webp"));
    assert_eq!(
        CardImage::CardFacePrinting(with_face).image_url(),
        format!("{ROOT}/nsg/card/00123.2.webp"),
    );
    assert_eq!(
        CardImage::Insert(InsertId { name: "alt".to_string(), print_group: "de".to_string() }).image_url(),
        format!("{ROOT}/de/insert/alt.webp"),
    );
}

#[test]
fn preferred_printing_picks_greatest_match() {
    // sorted by (group, id, face); two printings carry face 1
    let older = face("en", 1, Some(1));
    let newer = face("en", 9, Some(1));
    let back = face("en", 9, Some(2));
    let c = card(
        "Flip",
        "flip",
        AlternateFaceMetadata::Multiple(vec![title("Back")]),
        vec![older.clone(), newer.clone(), back.clone()],
    );
    assert_eq!(c.preferred_printing(1), Some(&newer));
    assert_eq!(c.preferred_printing(2), Some(&back));
    assert_eq!(c.preferred_printing(3), None);
    assert_eq!(c.last_printing(), Some(&back));
}
