//! The print file: the ordered sequence of filled slots a user has
//! assembled, with bookkeeping that balances which variant face of a
//! card is chosen when the card has interchangeable variants.

use vstd::prelude::*;

use crate::catalog::has_face_spec;
use crate::catalog::AltFacesView;
use crate::catalog::CardMetadata;
use crate::catalog::AlternateFaceMetadata;
use crate::catalog::MultiLibrary;
use crate::ids::CardFacePrintingId;
use crate::ids::CardId;
use crate::ids::face_key_lt;
use crate::ids::FaceKey;
use crate::ids::InsertId;
use crate::ids::InsertKey;
use crate::ids::spec_face_image_url;
use crate::ids::spec_insert_image_url;
use crate::catalog::spec_local_image_url;
use crate::strutil::dec_digits;
use crate::strutil::push_decimal;
use crate::strutil::str_eq;

verus! {

/// One occupied position of the print list: a printed card face, or
/// an insert.
#[derive(Debug, PartialEq, Eq, Hash)]
pub enum FilledCardSlot {
    Card { printing: CardFacePrintingId },
    Insert { insert: InsertId },
}

/// Mathematical image of a [`FilledCardSlot`].
#[verifier::ext_equal]
pub enum SlotView {
    Card(FaceKey),
    Insert(InsertKey),
}

impl View for FilledCardSlot {
    type V = SlotView;

    open spec fn view(&self) -> SlotView {
        match self {
            FilledCardSlot::Card { printing } => SlotView::Card(printing@),
            FilledCardSlot::Insert { insert } => SlotView::Insert(insert@),
        }
    }
}

impl Clone for FilledCardSlot {
    fn clone(&self) -> (r: Self)
        ensures
            r == *self,
    {
        match self {
            FilledCardSlot::Card { printing } => FilledCardSlot::Card {
                printing: printing.clone(),
            },
            FilledCardSlot::Insert { insert } => FilledCardSlot::Insert { insert: insert.clone() },
        }
    }
}

/// How many currently placed slots use one variant face of one card.
#[derive(Debug, PartialEq, Eq)]
struct AutoFaceEntry {
    card_id: CardId,
    variant: usize,
    count: usize,
}

/// The user's working print list: the slots in page order, and the
/// variant-usage counters that drive round-robin balancing.
#[derive(Debug, PartialEq, Eq)]
pub struct PrintFile {
    slots: Vec<FilledCardSlot>,
    auto_faces: Vec<AutoFaceEntry>,
}

impl PrintFile {
    /// The slots in page order: slot `i` lands on page `i / 9`, in
    /// grid cell `i % 9`.
    pub closed spec fn slots_view(self) -> Seq<SlotView> {
        self.slots@.map_values(|s: FilledCardSlot| s@)
    }

    /// No (card, variant) pair has two usage counters.
    pub closed spec fn wf(self) -> bool {
        forall|i: int, j: int|
            0 <= i < j < self.auto_faces@.len() ==> !((#[trigger] self.auto_faces@[i]).card_id@ == (
            #[trigger] self.auto_faces@[j]).card_id@ && self.auto_faces@[i].variant
                == self.auto_faces@[j].variant)
    }

    /// Whether a usage counter is stored for this (card, variant)
    /// pair.
    spec fn has_auto(self, id: Seq<char>, v: usize) -> bool {
        exists|i: int|
            0 <= i < self.auto_faces@.len() && (#[trigger] self.auto_faces@[i]).card_id@ == id
                && self.auto_faces@[i].variant == v
    }

    /// The position of this pair's stored counter.
    spec fn auto_index(self, id: Seq<char>, v: usize) -> int {
        choose|i: int|
            0 <= i < self.auto_faces@.len() && (#[trigger] self.auto_faces@[i]).card_id@ == id
                && self.auto_faces@[i].variant == v
    }

    /// How many currently placed slots use variant `v` of card `id`;
    /// a pair without a stored counter counts zero.
    pub closed spec fn auto_count(self, id: Seq<char>, v: usize) -> usize {
        if self.has_auto(id, v) {
            self.auto_faces@[self.auto_index(id, v)].count
        } else {
            0
        }
    }

    /// Under well-formedness the counter position of a stored pair is
    /// the one position holding it.
    proof fn lemma_auto_index_is(self, id: Seq<char>, v: usize, i: int)
        requires
            self.wf(),
            0 <= i < self.auto_faces@.len(),
            (self.auto_faces@[i]).card_id@ == id,
            (self.auto_faces@[i]).variant == v,
        ensures
            self.has_auto(id, v),
            self.auto_index(id, v) == i,
            self.auto_count(id, v) == self.auto_faces@[i].count,
    {
        assert(self.has_auto(id, v));
        let w = self.auto_index(id, v);
        assert(0 <= w < self.auto_faces@.len() && (self.auto_faces@[w]).card_id@ == id && (
        self.auto_faces@[w]).variant == v);
        if w < i {
            assert(!((self.auto_faces@[w]).card_id@ == (self.auto_faces@[i]).card_id@ && (
            self.auto_faces@[w]).variant == (self.auto_faces@[i]).variant));
        } else if i < w {
            assert(!((self.auto_faces@[i]).card_id@ == (self.auto_faces@[w]).card_id@ && (
            self.auto_faces@[i]).variant == (self.auto_faces@[w]).variant));
        }
    }

    /// Two print files with the same counter vector agree on every
    /// usage counter.
    proof fn lemma_same_auto(self, other: PrintFile)
        requires
            self.wf(),
            self.auto_faces@ == other.auto_faces@,
        ensures
            other.wf(),
            forall|id: Seq<char>, v: usize| #[trigger]
                self.auto_count(id, v) == other.auto_count(id, v),
    {
        assert forall|a: int, b: int| 0 <= a < b < other.auto_faces@.len() implies !((
        #[trigger] other.auto_faces@[a]).card_id@ == (#[trigger] other.auto_faces@[b]).card_id@
            && other.auto_faces@[a].variant == other.auto_faces@[b].variant) by {
            assert(other.auto_faces@[a] == self.auto_faces@[a]);
            assert(other.auto_faces@[b] == self.auto_faces@[b]);
        };
        assert forall|id: Seq<char>, v: usize| #[trigger]
            self.auto_count(id, v) == other.auto_count(id, v) by {
            if self.has_auto(id, v) {
                let w = self.auto_index(id, v);
                self.lemma_auto_index_is(id, v, w);
                assert(other.auto_faces@[w] == self.auto_faces@[w]);
                other.lemma_auto_index_is(id, v, w);
            } else {
                if other.has_auto(id, v) {
                    let w = other.auto_index(id, v);
                    assert((other.auto_faces@[w]).card_id@ == id && (other.auto_faces@[w]).variant
                        == v);
                    assert(self.auto_faces@[w] == other.auto_faces@[w]);
                    assert(self.has_auto(id, v));
                }
            }
        };
    }

    /// An empty print file.
    pub fn new() -> (r: PrintFile)
        ensures
            r.wf(),
            r.slots_view().len() == 0,
            forall|id: Seq<char>, v: usize| #[trigger] r.auto_count(id, v) == 0,
    {
        PrintFile { slots: Vec::new(), auto_faces: Vec::new() }
    }

    /// Empties the print list and all usage counters.
    pub fn clear(&mut self)
        ensures
            final(self).wf(),
            final(self).slots_view().len() == 0,
            forall|id: Seq<char>, v: usize| #[trigger] final(self).auto_count(id, v) == 0,
    {
        self.slots.clear();
        self.auto_faces.clear();
    }

    /// The number of filled slots.
    pub fn len(&self) -> (r: usize)
        ensures
            r == self.slots_view().len(),
    {
        self.slots.len()
    }

    /// Whether no slot is filled.
    pub fn is_empty(&self) -> (r: bool)
        ensures
            r == (self.slots_view().len() == 0),
    {
        self.slots.is_empty()
    }

    /// All filled slots in page order.
    pub fn all(&self) -> (r: &[FilledCardSlot])
        ensures
            r@.len() == self.slots_view().len(),
            forall|i: int| 0 <= i < r@.len() ==> (#[trigger] r@[i])@ == self.slots_view()[i],
    {
        self.slots.as_slice()
    }

    /// The slot at `index`, if it is filled.
    pub fn get(&self, index: usize) -> (r: Option<&FilledCardSlot>)
        ensures
            r.is_some() == (index < self.slots_view().len()),
            r matches Some(s) ==> s@ == self.slots_view()[index as int],
    {
        if index < self.slots.len() {
            Some(&self.slots[index])
        } else {
            None
        }
    }

    /// Appends a slot holding an insert.
    pub fn add_insert(&mut self, insert: InsertId)
        requires
            old(self).wf(),
        ensures
            final(self).wf(),
            final(self).slots_view() == old(self).slots_view().push(SlotView::Insert(insert@)),
            forall|id: Seq<char>, v: usize| #[trigger]
                final(self).auto_count(id, v) == old(self).auto_count(id, v),
    {
        let ghost iv = insert@;
        self.slots.push(FilledCardSlot::Insert { insert });
        proof {
            assert(self.slots_view() =~= old(self).slots_view().push(SlotView::Insert(iv)));
            old(self).lemma_same_auto(*self);
        }
    }

    /// Lowers the usage counter of one (card, variant) pair by one,
    /// stopping at zero; every other counter keeps its value.
    fn dec_auto(&mut self, id: &CardId, variant: usize)
        requires
            old(self).wf(),
        ensures
            final(self).wf(),
            final(self).slots@ == old(self).slots@,
            final(self).auto_count(id@, variant) == (if old(self).auto_count(id@, variant) > 0 {
                (old(self).auto_count(id@, variant) - 1) as usize
            } else {
                0
            }),
            forall|id2: Seq<char>, v2: usize|
                !(id2 == id@ && v2 == variant) ==> #[trigger] final(self).auto_count(id2, v2)
                    == old(self).auto_count(id2, v2),
    {
        let mut i: usize = 0;
        while i < self.auto_faces.len()
            invariant
                self.wf(),
                *self == *old(self),
                i <= self.auto_faces@.len(),
                forall|j: int|
                    0 <= j < i ==> !((#[trigger] self.auto_faces@[j]).card_id@ == id@
                        && self.auto_faces@[j].variant == variant),
            decreases self.auto_faces@.len() - i,
        {
            if self.auto_faces[i].variant == variant && str_eq(
                self.auto_faces[i].card_id.0.as_str(),
                id.0.as_str(),
            ) {
                proof {
                    self.lemma_auto_index_is(id@, variant, i as int);
                }
                let c = self.auto_faces[i].count;
                let nc = if c > 0 {
                    c - 1
                } else {
                    0
                };
                let ghost snap = *self;
                self.auto_faces[i].count = nc;
                proof {
                    assert(self.auto_faces@[i as int].card_id@ == id@);
                    assert forall|x: int|
                        0 <= x < self.auto_faces@.len() && x != i as int implies (
                    #[trigger] self.auto_faces@[x]) == snap.auto_faces@[x] by {};
                    assert forall|a: int, b: int| 0 <= a < b < self.auto_faces@.len() implies !((
                    #[trigger] self.auto_faces@[a]).card_id@ == (
                    #[trigger] self.auto_faces@[b]).card_id@ && self.auto_faces@[a].variant
                        == self.auto_faces@[b].variant) by {
                        assert(self.auto_faces@[a].card_id@ == snap.auto_faces@[a].card_id@
                            && self.auto_faces@[a].variant == snap.auto_faces@[a].variant);
                        assert(self.auto_faces@[b].card_id@ == snap.auto_faces@[b].card_id@
                            && self.auto_faces@[b].variant == snap.auto_faces@[b].variant);
                    };
                    self.lemma_auto_index_is(id@, variant, i as int);
                    assert forall|id2: Seq<char>, v2: usize|
                        !(id2 == id@ && v2 == variant) implies #[trigger] self.auto_count(id2, v2)
                        == snap.auto_count(id2, v2) by {
                        if snap.has_auto(id2, v2) {
                            let w = snap.auto_index(id2, v2);
                            snap.lemma_auto_index_is(id2, v2, w);
                            assert(w != i as int);
                            self.lemma_auto_index_is(id2, v2, w);
                        } else {
                            if self.has_auto(id2, v2) {
                                let w = self.auto_index(id2, v2);
                                assert((self.auto_faces@[w]).card_id@ == id2 && (
                                self.auto_faces@[w]).variant == v2);
                                assert(w != i as int);
                                assert((snap.auto_faces@[w]).card_id@ == id2 && (
                                snap.auto_faces@[w]).variant == v2);
                                assert(snap.has_auto(id2, v2));
                            }
                        }
                    };
                }
                return;
            }
            i = i + 1;
        }
        proof {
            assert(!self.has_auto(id@, variant));
        }
    }

    /// Raises the usage counter of one (card, variant) pair by one;
    /// every other counter keeps its value.
    fn inc_auto(&mut self, id: &CardId, variant: usize)
        requires
            old(self).wf(),
            old(self).auto_count(id@, variant) < usize::MAX,
        ensures
            final(self).wf(),
            final(self).slots@ == old(self).slots@,
            final(self).auto_count(id@, variant) == old(self).auto_count(id@, variant) + 1,
            forall|id2: Seq<char>, v2: usize|
                !(id2 == id@ && v2 == variant) ==> #[trigger] final(self).auto_count(id2, v2)
                    == old(self).auto_count(id2, v2),
    {
        let mut i: usize = 0;
        while i < self.auto_faces.len()
            invariant
                self.wf(),
                *self == *old(self),
                old(self).auto_count(id@, variant) < usize::MAX,
                i <= self.auto_faces@.len(),
                forall|j: int|
                    0 <= j < i ==> !((#[trigger] self.auto_faces@[j]).card_id@ == id@
                        && self.auto_faces@[j].variant == variant),
            decreases self.auto_faces@.len() - i,
        {
            if self.auto_faces[i].variant == variant && str_eq(
                self.auto_faces[i].card_id.0.as_str(),
                id.0.as_str(),
            ) {
                proof {
                    self.lemma_auto_index_is(id@, variant, i as int);
                }
                let c = self.auto_faces[i].count;
                let ghost snap = *self;
                self.auto_faces[i].count = c + 1;
                proof {
                    assert forall|a: int, b: int| 0 <= a < b < self.auto_faces@.len() implies !((
                    #[trigger] self.auto_faces@[a]).card_id@ == (
                    #[trigger] self.auto_faces@[b]).card_id@ && self.auto_faces@[a].variant
                        == self.auto_faces@[b].variant) by {
                        assert(self.auto_faces@[a].card_id@ == snap.auto_faces@[a].card_id@
                            && self.auto_faces@[a].variant == snap.auto_faces@[a].variant);
                        assert(self.auto_faces@[b].card_id@ == snap.auto_faces@[b].card_id@
                            && self.auto_faces@[b].variant == snap.auto_faces@[b].variant);
                    };
                    self.lemma_auto_index_is(id@, variant, i as int);
                    assert forall|id2: Seq<char>, v2: usize|
                        !(id2 == id@ && v2 == variant) implies #[trigger] self.auto_count(id2, v2)
                        == snap.auto_count(id2, v2) by {
                        if snap.has_auto(id2, v2) {
                            let w = snap.auto_index(id2, v2);
                            snap.lemma_auto_index_is(id2, v2, w);
                            assert(w != i as int);
                            self.lemma_auto_index_is(id2, v2, w);
                        } else {
                            if self.has_auto(id2, v2) {
                                let w = self.auto_index(id2, v2);
                                assert((self.auto_faces@[w]).card_id@ == id2 && (
                                self.auto_faces@[w]).variant == v2);
                                assert(w != i as int);
                                assert((snap.auto_faces@[w]).card_id@ == id2 && (
                                snap.auto_faces@[w]).variant == v2);
                                assert(snap.has_auto(id2, v2));
                            }
                        }
                    };
                }
                return;
            }
            i = i + 1;
        }
        proof {
            assert(!self.has_auto(id@, variant));
        }
        let ghost snap = *self;
        self.auto_faces.push(AutoFaceEntry { card_id: id.clone(), variant, count: 1 });
        proof {
            let last = self.auto_faces@.len() - 1;
            assert forall|a: int, b: int| 0 <= a < b < self.auto_faces@.len() implies !((
            #[trigger] self.auto_faces@[a]).card_id@ == (#[trigger] self.auto_faces@[b]).card_id@
                && self.auto_faces@[a].variant == self.auto_faces@[b].variant) by {
                if b < last {
                    assert(self.auto_faces@[a] == snap.auto_faces@[a]);
                    assert(self.auto_faces@[b] == snap.auto_faces@[b]);
                } else {
                    if (self.auto_faces@[a]).card_id@ == id@ && self.auto_faces@[a].variant
                        == variant {
                        assert(self.auto_faces@[a] == snap.auto_faces@[a]);
                        assert(snap.has_auto(id@, variant));
                    }
                }
            };
            self.lemma_auto_index_is(id@, variant, last);
            assert forall|id2: Seq<char>, v2: usize|
                !(id2 == id@ && v2 == variant) implies #[trigger] self.auto_count(id2, v2)
                == snap.auto_count(id2, v2) by {
                if snap.has_auto(id2, v2) {
                    let w = snap.auto_index(id2, v2);
                    snap.lemma_auto_index_is(id2, v2, w);
                    assert(self.auto_faces@[w] == snap.auto_faces@[w]);
                    self.lemma_auto_index_is(id2, v2, w);
                } else {
                    if self.has_auto(id2, v2) {
                        let w = self.auto_index(id2, v2);
                        assert((self.auto_faces@[w]).card_id@ == id2 && (
                        self.auto_faces@[w]).variant == v2);
                        assert(w != last);
                        assert(snap.auto_faces@[w] == self.auto_faces@[w]);
                        assert(snap.has_auto(id2, v2));
                    }
                }
            };
        }
    }
}


/// The (card id, variant) pair whose usage counter a removed or
/// replaced slot releases: present when the slot is a card face with
/// a variant specifier that the catalog resolves to a card with
/// `Variants` face data.
pub open spec fn released_variant(lib: MultiLibrary, s: SlotView) -> Option<(Seq<char>, usize)> {
    match s {
        SlotView::Card(k) => match k.face {
            Option::Some(v) => if {
                &&& lib.has_group(k.print_group)
                &&& lib.spec_group(k.print_group).has_face(k)
                &&& lib.spec_group(k.print_group).has_card(
                    lib.spec_group(k.print_group).spec_face(k).card_id,
                )
                &&& lib.spec_group(k.print_group).spec_card(
                    lib.spec_group(k.print_group).spec_face(k).card_id,
                ).alternate_face_data matches AltFacesView::Variants(_)
            } {
                Option::Some(
                    (
                        lib.spec_group(k.print_group).spec_card(
                            lib.spec_group(k.print_group).spec_face(k).card_id,
                        ).id,
                        v,
                    ),
                )
            } else {
                Option::None
            },
            Option::None => Option::None,
        },
        SlotView::Insert(_) => Option::None,
    }
}

/// Resolves which usage counter a slot releases, through the catalog.
fn released_variant_exec(lib: &MultiLibrary, slot: &FilledCardSlot) -> (r: Option<(CardId, usize)>)
    requires
        lib.wf(),
    ensures
        r.is_some() == released_variant(*lib, slot@).is_some(),
        r matches Some(p) ==> released_variant(*lib, slot@) == Option::Some((p.0@, p.1)),
{
    match slot {
        FilledCardSlot::Card { printing } => {
            match printing.face_or_variant_specifier {
                Option::Some(variant) => {
                    match lib.find_group(printing.print_group.as_str()) {
                        Option::Some(library) => {
                            match library.try_get_face_card(printing) {
                                Option::Some(card) => {
                                    match &card.alternate_face_data {
                                        AlternateFaceMetadata::Variants(_) => Some(
                                            (card.id.clone(), variant),
                                        ),
                                        _ => None,
                                    }
                                },
                                Option::None => None,
                            }
                        },
                        Option::None => None,
                    }
                },
                Option::None => None,
            }
        },
        FilledCardSlot::Insert { .. } => None,
    }
}

impl PrintFile {
    /// Removes the slot at `index` (later slots shift down by one);
    /// out-of-range indices are ignored.  A removed `Variants`-kind
    /// face gives its usage counter back, stopping at zero.
    pub fn remove_card(&mut self, index: usize, lib: &MultiLibrary)
        requires
            old(self).wf(),
            lib.wf(),
        ensures
            final(self).wf(),
            index >= old(self).slots_view().len() ==> *final(self) == *old(self),
            index < old(self).slots_view().len() ==> {
                &&& final(self).slots_view() == old(self).slots_view().remove(index as int)
                &&& match released_variant(*lib, old(self).slots_view()[index as int]) {
                    Option::Some(p) => {
                        &&& final(self).auto_count(p.0, p.1) == (if old(self).auto_count(p.0, p.1)
                            > 0 {
                            (old(self).auto_count(p.0, p.1) - 1) as usize
                        } else {
                            0
                        })
                        &&& forall|id2: Seq<char>, v2: usize|
                            !(id2 == p.0 && v2 == p.1) ==> #[trigger] final(self).auto_count(
                                id2,
                                v2,
                            ) == old(self).auto_count(id2, v2)
                    },
                    Option::None => forall|id2: Seq<char>, v2: usize| #[trigger]
                        final(self).auto_count(id2, v2) == old(self).auto_count(id2, v2),
                }
            },
    {
        if index < self.slots.len() {
            let slot = self.slots.remove(index);
            proof {
                assert(slot@ == old(self).slots_view()[index as int]);
                assert(self.slots_view() =~= old(self).slots_view().remove(index as int));
                old(self).lemma_same_auto(*self);
            }
            let ghost mid = *self;
            match released_variant_exec(lib, &slot) {
                Option::Some(p) => {
                    let (id, variant) = p;
                    self.dec_auto(&id, variant);
                    proof {
                        mid.lemma_same_auto(
                            PrintFile { slots: mid.slots, auto_faces: old(self).auto_faces },
                        );
                    }
                },
                Option::None => {},
            }
        }
    }

    /// Replaces the slot at `index` wholesale with a card slot for
    /// `card`; out-of-range indices are ignored.  A replaced
    /// `Variants`-kind face gives its usage counter back, stopping at
    /// zero; the new printing's counter is never raised here — only
    /// [`PrintFile::add_cards`] raises counters.
    pub fn update_card(&mut self, index: usize, card: CardFacePrintingId, lib: &MultiLibrary)
        requires
            old(self).wf(),
            lib.wf(),
        ensures
            final(self).wf(),
            index >= old(self).slots_view().len() ==> *final(self) == *old(self),
            index < old(self).slots_view().len() ==> {
                &&& final(self).slots_view() == old(self).slots_view().update(
                    index as int,
                    SlotView::Card(card@),
                )
                &&& match released_variant(*lib, old(self).slots_view()[index as int]) {
                    Option::Some(p) => {
                        &&& final(self).auto_count(p.0, p.1) == (if old(self).auto_count(p.0, p.1)
                            > 0 {
                            (old(self).auto_count(p.0, p.1) - 1) as usize
                        } else {
                            0
                        })
                        &&& forall|id2: Seq<char>, v2: usize|
                            !(id2 == p.0 && v2 == p.1) ==> #[trigger] final(self).auto_count(
                                id2,
                                v2,
                            ) == old(self).auto_count(id2, v2)
                    },
                    Option::None => forall|id2: Seq<char>, v2: usize| #[trigger]
                        final(self).auto_count(id2, v2) == old(self).auto_count(id2, v2),
                }
            },
    {
        if index < self.slots.len() {
            let ghost cardv = card@;
            let released = released_variant_exec(lib, &self.slots[index]);
            self.slots[index] = FilledCardSlot::Card { printing: card };
            proof {
                assert(self.slots_view() =~= old(self).slots_view().update(
                    index as int,
                    SlotView::Card(cardv),
                ));
                old(self).lemma_same_auto(*self);
            }
            let ghost mid = *self;
            match released {
                Option::Some(p) => {
                    let (id, variant) = p;
                    self.dec_auto(&id, variant);
                    proof {
                        mid.lemma_same_auto(
                            PrintFile { slots: mid.slots, auto_faces: old(self).auto_faces },
                        );
                    }
                },
                Option::None => {},
            }
        }
    }
}

/// Whether `s` is a card slot holding the preferred (greatest)
/// printing with face specifier `f` among `keys`.
pub open spec fn slot_is_preferred(s: SlotView, keys: Seq<FaceKey>, f: usize) -> bool {
    &&& s matches SlotView::Card(k)
    &&& (s matches SlotView::Card(k) ==> {
        &&& k.face == Option::Some(f)
        &&& keys.contains(k)
        &&& forall|i: int|
            0 <= i < keys.len() && (#[trigger] keys[i]).face == Option::Some(f) ==> (keys[i] == k
                || face_key_lt(keys[i], k))
    })
}

impl PrintFile {
    /// Whether `w` is the variant of card `id` that balancing picks
    /// among `1..=n`: no variant is used less, and no lower-numbered
    /// variant is used as little.
    pub open spec fn is_least_used(self, id: Seq<char>, n: usize, w: usize) -> bool {
        &&& 1 <= w <= n
        &&& forall|v: usize|
            1 <= v <= n ==> #[trigger] self.auto_count(id, v) >= self.auto_count(id, w)
        &&& forall|v: usize| 1 <= v < w ==> #[trigger] self.auto_count(id, v) > self.auto_count(id, w)
    }

    /// The variant of card `id` that balancing picks among `1..=n`.
    pub open spec fn least_used_variant(self, id: Seq<char>, n: usize) -> usize {
        choose|w: usize| self.is_least_used(id, n, w)
    }

    /// Some variant always qualifies as least used.
    pub proof fn lemma_least_used_exists(self, id: Seq<char>, n: usize)
        requires
            n >= 1,
        ensures
            self.is_least_used(id, n, self.least_used_variant(id, n)),
        decreases n,
    {
        if n == 1 {
            assert(self.is_least_used(id, n, 1));
        } else {
            self.lemma_least_used_exists(id, (n - 1) as usize);
            let w = self.least_used_variant(id, (n - 1) as usize);
            if self.auto_count(id, n) < self.auto_count(id, w) {
                assert(self.is_least_used(id, n, n));
            } else {
                assert(self.is_least_used(id, n, w));
            }
        }
    }

    /// Only one variant qualifies as least used.
    pub proof fn lemma_least_used_unique(self, id: Seq<char>, n: usize, w1: usize, w2: usize)
        requires
            self.is_least_used(id, n, w1),
            self.is_least_used(id, n, w2),
        ensures
            w1 == w2,
    {
        if w1 < w2 {
            assert(self.auto_count(id, w1) > self.auto_count(id, w2));
            assert(self.auto_count(id, w1) >= self.auto_count(id, w2));
            assert(self.auto_count(id, w2) >= self.auto_count(id, w1));
        } else if w2 < w1 {
            assert(self.auto_count(id, w2) > self.auto_count(id, w1));
            assert(self.auto_count(id, w2) >= self.auto_count(id, w1));
            assert(self.auto_count(id, w1) >= self.auto_count(id, w2));
        }
    }

    /// The stored usage counter of one (card, variant) pair.
    fn get_auto(&self, id: &CardId, v: usize) -> (r: usize)
        requires
            self.wf(),
        ensures
            r == self.auto_count(id@, v),
    {
        let mut i: usize = 0;
        while i < self.auto_faces.len()
            invariant
                self.wf(),
                i <= self.auto_faces@.len(),
                forall|j: int|
                    0 <= j < i ==> !((#[trigger] self.auto_faces@[j]).card_id@ == id@
                        && self.auto_faces@[j].variant == v),
            decreases self.auto_faces@.len() - i,
        {
            if self.auto_faces[i].variant == v && str_eq(
                self.auto_faces[i].card_id.0.as_str(),
                id.0.as_str(),
            ) {
                proof {
                    self.lemma_auto_index_is(id@, v, i as int);
                }
                return self.auto_faces[i].count;
            }
            i = i + 1;
        }
        proof {
            assert(!self.has_auto(id@, v));
        }
        0
    }

    /// What [`PrintFile::add_cards`] demands of the card and the
    /// current counters: the printings the card's face structure
    /// implies must exist, and no counter the call may raise is
    /// saturated.
    pub open spec fn add_cards_pre(self, meta: crate::catalog::CardMetadataView) -> bool {
        match meta.alternate_face_data {
            AltFacesView::Single => meta.printings.len() > 0,
            AltFacesView::Multiple(titles) => {
                &&& titles.len() + 2 <= usize::MAX
                &&& has_face_spec(meta.printings, 1)
                &&& forall|i: int|
                    0 <= i < titles.len() ==> #[trigger] has_face_spec(
                        meta.printings,
                        (i + 2) as usize,
                    )
            },
            AltFacesView::Variants(n) => {
                &&& 1 <= n < usize::MAX
                &&& forall|v: usize| 1 <= v <= n ==> has_face_spec(meta.printings, v)
                &&& forall|v: usize|
                    1 <= v <= n ==> #[trigger] self.auto_count(meta.id, v) < usize::MAX
            },
        }
    }

    /// Whether [`PrintFile::add_cards`] accepts this card in the
    /// current state: the printings its face structure implies exist,
    /// and no counter the call would raise is saturated.
    pub fn can_add_cards(&self, meta: &CardMetadata) -> (r: bool)
        requires
            self.wf(),
            meta@.wf(),
        ensures
            r == self.add_cards_pre(meta@),
    {
        match &meta.alternate_face_data {
            AlternateFaceMetadata::Single => meta.printings.len() > 0,
            AlternateFaceMetadata::Multiple(titles) => {
                if titles.len() > usize::MAX - 2 {
                    return false;
                }
                if meta.preferred_printing(1).is_none() {
                    return false;
                }
                let mut i: usize = 0;
                while i < titles.len()
                    invariant
                        self.wf(),
                        meta@.wf(),
                        meta@.alternate_face_data == AltFacesView::Multiple(
                            titles@.map_values(|t: crate::ids::Title| t@),
                        ),
                        titles@.len() <= usize::MAX - 2,
                        has_face_spec(meta@.printings, 1),
                        i <= titles@.len(),
                        forall|j: int|
                            0 <= j < i ==> #[trigger] has_face_spec(
                                meta@.printings,
                                (j + 2) as usize,
                            ),
                    decreases titles@.len() - i,
                {
                    if meta.preferred_printing(i + 2).is_none() {
                        return false;
                    }
                    i = i + 1;
                }
                true
            },
            AlternateFaceMetadata::Variants(n_ref) => {
                let n = *n_ref;
                if n < 1 || n == usize::MAX {
                    return false;
                }
                let mut v: usize = 1;
                while v <= n
                    invariant
                        self.wf(),
                        meta@.wf(),
                        meta@.alternate_face_data == AltFacesView::Variants(n),
                        1 <= n < usize::MAX,
                        1 <= v <= n + 1,
                        forall|u: usize|
                            1 <= u < v ==> #[trigger] has_face_spec(meta@.printings, u),
                        forall|u: usize|
                            1 <= u < v ==> #[trigger] self.auto_count(meta@.id, u) < usize::MAX,
                    decreases n + 1 - v,
                {
                    if meta.preferred_printing(v).is_none() {
                        proof {
                            assert(!has_face_spec(meta@.printings, v));
                            assert(!self.add_cards_pre(meta@));
                        }
                        return false;
                    }
                    if self.get_auto(&meta.id, v) == usize::MAX {
                        proof {
                            assert(self.auto_count(meta@.id, v) == usize::MAX);
                            assert(!self.add_cards_pre(meta@));
                        }
                        return false;
                    }
                    v = v + 1;
                }
                true
            },
        }
    }

    /// Appends the slots a card contributes, by its face structure: a
    /// single-faced card contributes its greatest printing; a flip
    /// card contributes one slot per face, specifiers ascending from
    /// 1; a variant card contributes one slot for its least-used
    /// variant, whose usage counter rises by one.
    pub fn add_cards(&mut self, meta: &CardMetadata)
        requires
            old(self).wf(),
            meta@.wf(),
            old(self).add_cards_pre(meta@),
        ensures
            final(self).wf(),
            meta@.alternate_face_data matches AltFacesView::Single ==> {
                &&& final(self).slots_view() == old(self).slots_view().push(
                    SlotView::Card(meta@.printings.last()),
                )
                &&& forall|id2: Seq<char>, v2: usize| #[trigger]
                    final(self).auto_count(id2, v2) == old(self).auto_count(id2, v2)
            },
            meta@.alternate_face_data matches AltFacesView::Multiple(titles) ==> {
                &&& final(self).slots_view().len() == old(self).slots_view().len() + titles.len()
                    + 1
                &&& forall|j: int|
                    0 <= j < old(self).slots_view().len() ==> #[trigger] final(self).slots_view()[j]
                        == old(self).slots_view()[j]
                &&& forall|j: int|
                    0 <= j <= titles.len() ==> slot_is_preferred(
                        #[trigger] final(self).slots_view()[old(self).slots_view().len() + j],
                        meta@.printings,
                        (j + 1) as usize,
                    )
                &&& forall|id2: Seq<char>, v2: usize| #[trigger]
                    final(self).auto_count(id2, v2) == old(self).auto_count(id2, v2)
            },
            meta@.alternate_face_data matches AltFacesView::Variants(n) ==> {
                let w = old(self).least_used_variant(meta@.id, n);
                &&& old(self).is_least_used(meta@.id, n, w)
                &&& final(self).slots_view().len() == old(self).slots_view().len() + 1
                &&& forall|j: int|
                    0 <= j < old(self).slots_view().len() ==> #[trigger] final(self).slots_view()[j]
                        == old(self).slots_view()[j]
                &&& slot_is_preferred(
                    final(self).slots_view().last(),
                    meta@.printings,
                    w,
                )
                &&& final(self).auto_count(meta@.id, w) == old(self).auto_count(meta@.id, w) + 1
                &&& forall|id2: Seq<char>, v2: usize|
                    !(id2 == meta@.id && v2 == w) ==> #[trigger] final(self).auto_count(id2, v2)
                        == old(self).auto_count(id2, v2)
            },
    {
        match &meta.alternate_face_data {
            AlternateFaceMetadata::Single => {
                let p = match meta.last_printing() {
                    Option::Some(p) => p.clone(),
                    Option::None => vstd::pervasive::unreached(),
                };
                let ghost pv = p@;
                self.slots.push(FilledCardSlot::Card { printing: p });
                proof {
                    assert(self.slots_view() =~= old(self).slots_view().push(SlotView::Card(pv)));
                    old(self).lemma_same_auto(*self);
                }
            },
            AlternateFaceMetadata::Multiple(titles) => {
                let p = match meta.preferred_printing(1) {
                    Option::Some(p) => p.clone(),
                    Option::None => vstd::pervasive::unreached(),
                };
                self.slots.push(FilledCardSlot::Card { printing: p });
                proof {
                    assert(self.slots@.len() == old(self).slots@.len() + 1);
                    assert(slot_is_preferred(
                        self.slots_view()[old(self).slots_view().len() as int],
                        meta@.printings,
                        1,
                    ));
                }
                let mut i: usize = 0;
                while i < titles.len()
                    invariant
                        old(self).wf(),
                        meta@.wf(),
                        old(self).add_cards_pre(meta@),
                        meta@.alternate_face_data == AltFacesView::Multiple(
                            titles@.map_values(|t: crate::ids::Title| t@),
                        ),
                        titles@.len() + 2 <= usize::MAX,
                        i <= titles@.len(),
                        self.auto_faces@ == old(self).auto_faces@,
                        self.slots@.len() == old(self).slots@.len() + 1 + i,
                        forall|j: int|
                            0 <= j < old(self).slots@.len() ==> #[trigger] self.slots@[j] == old(
                                self,
                            ).slots@[j],
                        forall|j: int|
                            0 <= j <= i ==> slot_is_preferred(
                                #[trigger] self.slots_view()[old(self).slots_view().len() + j],
                                meta@.printings,
                                (j + 1) as usize,
                            ),
                    decreases titles@.len() - i,
                {
                    let face = i + 2;
                    proof {
                        assert(has_face_spec(meta@.printings, (i as int + 2) as usize));
                    }
                    let p = match meta.preferred_printing(face) {
                        Option::Some(p) => p.clone(),
                        Option::None => vstd::pervasive::unreached(),
                    };
                    let ghost prev = *self;
                    self.slots.push(FilledCardSlot::Card { printing: p });
                    i = i + 1;
                    proof {
                        assert forall|j: int| 0 <= j <= i implies slot_is_preferred(
                            #[trigger] self.slots_view()[old(self).slots_view().len() + j],
                            meta@.printings,
                            (j + 1) as usize,
                        ) by {
                            if j < i {
                                assert(self.slots_view()[old(self).slots_view().len() + j]
                                    == prev.slots_view()[old(self).slots_view().len() + j]);
                            } else {
                                assert(self.slots_view()[old(self).slots_view().len() + j] == (
                                self.slots@[self.slots@.len() - 1])@);
                            }
                        };
                    }
                }
                proof {
                    old(self).lemma_same_auto(*self);
                    assert(self.slots_view().len() == old(self).slots_view().len()
                        + titles@.len() + 1);
                }
            },
            AlternateFaceMetadata::Variants(n_ref) => {
                let n = *n_ref;
                let mut best_v: usize = 1;
                let mut best_c: usize = self.get_auto(&meta.id, 1);
                let mut v: usize = 2;
                proof {
                    assert(1 <= n);
                }
                while v <= n
                    invariant
                        self.wf(),
                        *self == *old(self),
                        meta@.alternate_face_data == AltFacesView::Variants(n),
                        old(self).add_cards_pre(meta@),
                        1 <= n,
                        2 <= v <= n + 1,
                        1 <= best_v < v,
                        best_c == self.auto_count(meta@.id, best_v),
                        forall|u: usize|
                            1 <= u < v ==> #[trigger] self.auto_count(meta@.id, u) >= best_c,
                        forall|u: usize|
                            1 <= u < best_v ==> #[trigger] self.auto_count(meta@.id, u) > best_c,
                    decreases n + 1 - v,
                {
                    let c = self.get_auto(&meta.id, v);
                    if c < best_c {
                        best_v = v;
                        best_c = c;
                    }
                    v = v + 1;
                }
                proof {
                    assert(self.is_least_used(meta@.id, n, best_v));
                    self.lemma_least_used_exists(meta@.id, n);
                    self.lemma_least_used_unique(
                        meta@.id,
                        n,
                        best_v,
                        self.least_used_variant(meta@.id, n),
                    );
                }
                self.inc_auto(&meta.id, best_v);
                let ghost mid = *self;
                let p = match meta.preferred_printing(best_v) {
                    Option::Some(p) => p.clone(),
                    Option::None => vstd::pervasive::unreached(),
                };
                let ghost pv = p@;
                self.slots.push(FilledCardSlot::Card { printing: p });
                proof {
                    assert(self.slots_view() =~= mid.slots_view().push(SlotView::Card(pv)));
                    mid.lemma_same_auto(*self);
                    assert(self.slots_view().last() == SlotView::Card(pv));
                    assert(slot_is_preferred(SlotView::Card(pv), meta@.printings, best_v));
                    assert(mid.auto_count(meta@.id, best_v) == self.auto_count(meta@.id, best_v));
                    assert forall|id2: Seq<char>, v2: usize|
                        !(id2 == meta@.id && v2 == best_v) implies #[trigger] self.auto_count(
                        id2,
                        v2,
                    ) == old(self).auto_count(id2, v2) by {
                        assert(mid.auto_count(id2, v2) == self.auto_count(id2, v2));
                        assert(mid.auto_count(id2, v2) == old(self).auto_count(id2, v2));
                    };
                }
            },
        }
    }
}


/// The label shown for a card face the catalog cannot resolve,
/// carrying the raw printing id and group for diagnostics.
pub open spec fn missing_card_label(k: FaceKey) -> Seq<char> {
    "Missing card "@ + dec_digits(k.id as int) + " ("@ + k.print_group + ")"@
}

/// The label shown for an insert the catalog cannot resolve.
pub open spec fn missing_insert_label(k: InsertKey) -> Seq<char> {
    "Missing insert "@ + k.name + " ("@ + k.print_group + ")"@
}

/// The name a slot displays: the resolved title (for a flip card, the
/// title of the specific face), or a missing-entry label when the
/// catalog cannot resolve the slot.
pub open spec fn slot_name(lib: MultiLibrary, s: SlotView) -> Seq<char> {
    match s {
        SlotView::Card(k) => if lib.has_group(k.print_group) && lib.spec_group(
            k.print_group,
        ).has_face(k) && lib.spec_group(k.print_group).has_card(
            lib.spec_group(k.print_group).spec_face(k).card_id,
        ) {
            let card = lib.spec_group(k.print_group).spec_card(
                lib.spec_group(k.print_group).spec_face(k).card_id,
            );
            match k.face {
                Option::None => card.title.title,
                Option::Some(n) => if n == 1 {
                    card.title.title
                } else {
                    match card.alternate_face_data {
                        AltFacesView::Multiple(titles) => {
                            let idx = if n >= 2 {
                                n - 2
                            } else {
                                0
                            };
                            if idx < titles.len() {
                                titles[idx as int].title
                            } else {
                                card.title.title
                            }
                        },
                        _ => card.title.title,
                    }
                },
            }
        } else {
            missing_card_label(k)
        },
        SlotView::Insert(k) => if lib.has_group(k.print_group) && lib.spec_group(
            k.print_group,
        ).has_insert(k) {
            lib.spec_group(k.print_group).spec_insert(k).title.title
        } else {
            missing_insert_label(k)
        },
    }
}

/// The URL a slot's image is fetched from: a matching local override
/// wins over the computed remote URL; inserts have no overrides.
pub open spec fn slot_image_url(lib: MultiLibrary, s: SlotView) -> Seq<char> {
    match s {
        SlotView::Card(k) => match spec_local_image_url(lib.local_images@, k) {
            Option::Some(u) => u,
            Option::None => spec_face_image_url(k),
        },
        SlotView::Insert(k) => spec_insert_image_url(k),
    }
}

/// Renders the missing-card label for a face.
fn missing_card_label_exec(p: &CardFacePrintingId) -> (r: String)
    ensures
        r@ == missing_card_label(p@),
{
    let mut r = String::new();
    r.append("Missing card ");
    push_decimal(&mut r, p.id as u64);
    r.append(" (");
    r.append(p.print_group.as_str());
    r.append(")");
    proof {
        assert(r@ =~= missing_card_label(p@));
    }
    r
}

/// Renders the missing-insert label for an insert.
fn missing_insert_label_exec(p: &InsertId) -> (r: String)
    ensures
        r@ == missing_insert_label(p@),
{
    let mut r = String::new();
    r.append("Missing insert ");
    r.append(p.name.as_str());
    r.append(" (");
    r.append(p.print_group.as_str());
    r.append(")");
    proof {
        assert(r@ =~= missing_insert_label(p@));
    }
    r
}

impl FilledCardSlot {
    /// Whether a local image override addresses this slot.
    pub fn is_local_override(&self, lib: &MultiLibrary) -> (r: bool)
        ensures
            r == (self@ matches SlotView::Card(k) && spec_local_image_url(
                lib.local_images@,
                k,
            ).is_some()),
    {
        match self {
            FilledCardSlot::Card { printing } => lib.local_image_url(printing).is_some(),
            FilledCardSlot::Insert { .. } => false,
        }
    }

    /// The URL this slot's image is fetched from.
    pub fn image_url(&self, lib: &MultiLibrary) -> (r: String)
        ensures
            r@ == slot_image_url(*lib, self@),
    {
        match self {
            FilledCardSlot::Card { printing } => {
                match lib.local_image_url(printing) {
                    Option::Some(u) => u.to_owned(),
                    Option::None => printing.image_url(),
                }
            },
            FilledCardSlot::Insert { insert } => insert.image_url(),
        }
    }

    /// The name this slot displays.
    pub fn name(&self, lib: &MultiLibrary) -> (r: String)
        requires
            lib.wf(),
        ensures
            r@ == slot_name(*lib, self@),
    {
        match self {
            FilledCardSlot::Card { printing } => {
                let resolved = match lib.find_group(printing.print_group.as_str()) {
                    Option::Some(library) => library.try_get_face_card(printing),
                    Option::None => None,
                };
                match resolved {
                    Option::Some(card) => {
                        match printing.face_or_variant_specifier {
                            Option::None => card.title.title.clone(),
                            Option::Some(n) => {
                                if n == 1 {
                                    card.title.title.clone()
                                } else {
                                    match &card.alternate_face_data {
                                        AlternateFaceMetadata::Multiple(titles) => {
                                            let idx = if n >= 2 {
                                                n - 2
                                            } else {
                                                0
                                            };
                                            if idx < titles.len() {
                                                titles[idx].title.clone()
                                            } else {
                                                card.title.title.clone()
                                            }
                                        },
                                        _ => card.title.title.clone(),
                                    }
                                }
                            },
                        }
                    },
                    Option::None => missing_card_label_exec(printing),
                }
            },
            FilledCardSlot::Insert { insert } => {
                let resolved = match lib.find_group(insert.print_group.as_str()) {
                    Option::Some(library) => library.try_get_insert(insert),
                    Option::None => None,
                };
                match resolved {
                    Option::Some(meta) => meta.title.title.clone(),
                    Option::None => missing_insert_label_exec(insert),
                }
            },
        }
    }
}


/// Round-robin balancing law: when each of the variants `1..=k` of a
/// card has been used exactly once and the rest not at all — the
/// state `k` additions leave a fresh print file in — the next
/// addition picks variant `k + 1`.  With [`PrintFile::add_cards`]'s
/// contract this makes `n` consecutive additions of a fresh variant
/// card cover all `n` variants exactly once, in ascending order.
pub proof fn lemma_variant_round_robin(pf: PrintFile, id: Seq<char>, n: usize, k: usize)
    requires
        1 <= n,
        k < n,
        forall|v: usize| 1 <= v <= k ==> #[trigger] pf.auto_count(id, v) == 1,
        forall|v: usize| k < v <= n ==> #[trigger] pf.auto_count(id, v) == 0,
    ensures
        pf.is_least_used(id, n, (k + 1) as usize),
        pf.least_used_variant(id, n) == k + 1,
{
    let w = (k + 1) as usize;
    assert(pf.auto_count(id, w) == 0);
    assert forall|v: usize| 1 <= v <= n implies #[trigger] pf.auto_count(id, v) >= pf.auto_count(
        id,
        w,
    ) by {
        if v <= k {
            assert(pf.auto_count(id, v) == 1);
        } else {
            assert(pf.auto_count(id, v) == 0);
        }
    };
    assert forall|v: usize| 1 <= v < w implies #[trigger] pf.auto_count(id, v) > pf.auto_count(
        id,
        w,
    ) by {
        assert(pf.auto_count(id, v) == 1);
    };
    pf.lemma_least_used_exists(id, n);
    pf.lemma_least_used_unique(id, n, w, pf.least_used_variant(id, n));
}

/// Removing a just-added variant slot gives the usage counter back:
/// if `added` arose from `before` by raising variant `w`'s counter
/// (as adding a variant card does) and `removed` arose from `added`
/// by lowering it, stopping at zero (as removing that slot does),
/// every counter is back at its value before the addition — so a
/// following addition picks the same variant again.
pub proof fn lemma_remove_restores_counters(
    before: PrintFile,
    added: PrintFile,
    removed: PrintFile,
    id: Seq<char>,
    w: usize,
)
    requires
        before.auto_count(id, w) < usize::MAX,
        added.auto_count(id, w) == before.auto_count(id, w) + 1,
        forall|id2: Seq<char>, v2: usize|
            !(id2 == id && v2 == w) ==> #[trigger] added.auto_count(id2, v2)
                == before.auto_count(id2, v2),
        removed.auto_count(id, w) == (if added.auto_count(id, w) > 0 {
            (added.auto_count(id, w) - 1) as usize
        } else {
            0
        }),
        forall|id2: Seq<char>, v2: usize|
            !(id2 == id && v2 == w) ==> #[trigger] removed.auto_count(id2, v2)
                == added.auto_count(id2, v2),
    ensures
        forall|id2: Seq<char>, v2: usize| #[trigger]
            removed.auto_count(id2, v2) == before.auto_count(id2, v2),
{
    assert forall|id2: Seq<char>, v2: usize| #[trigger]
        removed.auto_count(id2, v2) == before.auto_count(id2, v2) by {
        if id2 == id && v2 == w {
            assert(added.auto_count(id, w) > 0);
        } else {
            assert(removed.auto_count(id2, v2) == added.auto_count(id2, v2));
            assert(added.auto_count(id2, v2) == before.auto_count(id2, v2));
        }
    };
}


impl Default for PrintFile {
    /// An empty print file.
    fn default() -> (r: PrintFile)
        ensures
            r.wf(),
            r.slots_view().len() == 0,
            forall|id: Seq<char>, v: usize| #[trigger] r.auto_count(id, v) == 0,
    {
        PrintFile::new()
    }
}

} // verus!
