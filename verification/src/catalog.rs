//! The card catalog: per-group libraries of cards, printed faces and
//! inserts, and the merge rules that combine a base catalog with
//! overlays.
//!
//! Each map of the catalog is held as a vector of entries carrying
//! their own key, with well-formedness demanding that keys never
//! repeat; a card's printings are held strictly sorted in the face
//! order, so the preferred (greatest) printing is the last match.

use vstd::prelude::*;

use crate::strutil::str_eq;
use crate::ids::face_key_lt;
use crate::ids::lemma_face_key_transitive;
use crate::ids::lemma_face_key_trichotomy;
use crate::ids::face_id_eq;
use crate::ids::face_id_lt;
use crate::ids::CardFacePrintingId;
use crate::ids::CardId;
use crate::ids::FaceKey;
use crate::ids::InsertId;
use crate::ids::InsertKey;
use crate::ids::insert_id_eq;
use crate::ids::Title;
use crate::ids::TitleView;

verus! {

/// How a card's faces are structured: a plain single face, several
/// distinct faces (a flip card, with the titles of the faces past the
/// front), or one face printed in several interchangeable variant
/// forms.
#[derive(Debug, PartialEq, Eq, Hash)]
pub enum AlternateFaceMetadata {
    /// The card has only a single face with no variants.
    Single,
    /// The card has multiple faces, each with their own titles:
    /// element `i` titles face `i + 2`.
    Multiple(Vec<Title>),
    /// The card has one face with this many interchangeable variant
    /// forms, using face specifiers `1..=count`.
    Variants(usize),
}

/// Mathematical image of an [`AlternateFaceMetadata`].
#[verifier::ext_equal]
pub enum AltFacesView {
    Single,
    Multiple(Seq<TitleView>),
    Variants(usize),
}

impl View for AlternateFaceMetadata {
    type V = AltFacesView;

    open spec fn view(&self) -> AltFacesView {
        match self {
            AlternateFaceMetadata::Single => AltFacesView::Single,
            AlternateFaceMetadata::Multiple(titles) => AltFacesView::Multiple(
                titles@.map_values(|t: Title| t@),
            ),
            AlternateFaceMetadata::Variants(n) => AltFacesView::Variants(*n),
        }
    }
}

/// Copies a title list, preserving its value.
fn clone_titles(v: &Vec<Title>) -> (r: Vec<Title>)
    ensures
        r@ == v@,
{
    let mut r: Vec<Title> = Vec::new();
    let mut i: usize = 0;
    while i < v.len()
        invariant
            i <= v@.len(),
            r@ =~= v@.subrange(0, i as int),
        decreases v@.len() - i,
    {
        r.push(v[i].clone());
        i = i + 1;
    }
    proof {
        assert(r@ =~= v@);
    }
    r
}

/// Copies a printing list, preserving its value.
fn clone_printings(v: &Vec<CardFacePrintingId>) -> (r: Vec<CardFacePrintingId>)
    ensures
        r@ == v@,
{
    let mut r: Vec<CardFacePrintingId> = Vec::new();
    let mut i: usize = 0;
    while i < v.len()
        invariant
            i <= v@.len(),
            r@ =~= v@.subrange(0, i as int),
        decreases v@.len() - i,
    {
        r.push(v[i].clone());
        i = i + 1;
    }
    proof {
        assert(r@ =~= v@);
    }
    r
}

/// Copies a string list, preserving its value.
fn clone_strings(v: &Vec<String>) -> (r: Vec<String>)
    ensures
        r@ == v@,
{
    let mut r: Vec<String> = Vec::new();
    let mut i: usize = 0;
    while i < v.len()
        invariant
            i <= v@.len(),
            r@ =~= v@.subrange(0, i as int),
        decreases v@.len() - i,
    {
        r.push(v[i].clone());
        i = i + 1;
    }
    proof {
        assert(r@ =~= v@);
    }
    r
}

impl Clone for AlternateFaceMetadata {
    fn clone(&self) -> (r: Self)
        ensures
            r@ == self@,
    {
        match self {
            AlternateFaceMetadata::Single => AlternateFaceMetadata::Single,
            AlternateFaceMetadata::Multiple(titles) => AlternateFaceMetadata::Multiple(
                clone_titles(titles),
            ),
            AlternateFaceMetadata::Variants(n) => AlternateFaceMetadata::Variants(*n),
        }
    }
}

/// Everything the catalog knows of one card: its title, face
/// structure, identity, and the printed faces it exists as.
#[derive(Debug, PartialEq, Eq, Hash)]
pub struct CardMetadata {
    /// The title of the card, as its card data supplies it.
    pub title: Title,
    /// The other faces or variant forms the card has.
    pub alternate_face_data: AlternateFaceMetadata,
    /// The identifier of the card.
    pub id: CardId,
    /// The printed faces of the card, strictly sorted in the face
    /// order.
    pub printings: Vec<CardFacePrintingId>,
}

/// Mathematical image of a [`CardMetadata`].
#[verifier::ext_equal]
pub struct CardMetadataView {
    pub title: TitleView,
    pub alternate_face_data: AltFacesView,
    pub id: Seq<char>,
    pub printings: Seq<FaceKey>,
}

impl View for CardMetadata {
    type V = CardMetadataView;

    open spec fn view(&self) -> CardMetadataView {
        CardMetadataView {
            title: self.title@,
            alternate_face_data: self.alternate_face_data@,
            id: self.id@,
            printings: printing_keys(self.printings@),
        }
    }
}

impl CardMetadataView {
    /// The printings are strictly sorted in the face order (and hence
    /// hold no key twice).
    pub open spec fn wf(self) -> bool {
        sorted_keys(self.printings)
    }
}

impl Clone for CardMetadata {
    fn clone(&self) -> (r: Self)
        ensures
            r@ == self@,
    {
        let r = CardMetadata {
            title: self.title.clone(),
            alternate_face_data: self.alternate_face_data.clone(),
            id: self.id.clone(),
            printings: clone_printings(&self.printings),
        };
        proof {
            assert(r@ =~= self@);
        }
        r
    }
}

/// The reverse index entry of one printed face: which card it is a
/// face of, and the display name of the printing.
#[derive(Debug, PartialEq, Eq, Hash)]
pub struct PrintingMetadata {
    pub id: CardFacePrintingId,
    pub card_id: CardId,
    pub printing_name: String,
}

/// Mathematical image of a [`PrintingMetadata`].
#[verifier::ext_equal]
pub struct PrintingMetadataView {
    pub id: FaceKey,
    pub card_id: Seq<char>,
    pub printing_name: Seq<char>,
}

impl View for PrintingMetadata {
    type V = PrintingMetadataView;

    open spec fn view(&self) -> PrintingMetadataView {
        PrintingMetadataView {
            id: self.id@,
            card_id: self.card_id@,
            printing_name: self.printing_name@,
        }
    }
}

impl Clone for PrintingMetadata {
    fn clone(&self) -> (r: Self)
        ensures
            r == *self,
    {
        PrintingMetadata {
            id: self.id.clone(),
            card_id: self.card_id.clone(),
            printing_name: self.printing_name.clone(),
        }
    }
}

/// Everything the catalog knows of one promotional insert.
#[derive(Debug, PartialEq, Eq, Hash)]
pub struct InsertMetadata {
    pub title: Title,
    pub id: InsertId,
    /// Named groups the insert can be bulk-added through.
    pub insert_groups: Vec<String>,
}

/// Mathematical image of an [`InsertMetadata`].
#[verifier::ext_equal]
pub struct InsertMetadataView {
    pub title: TitleView,
    pub id: InsertKey,
    pub insert_groups: Seq<Seq<char>>,
}

impl View for InsertMetadata {
    type V = InsertMetadataView;

    open spec fn view(&self) -> InsertMetadataView {
        InsertMetadataView {
            title: self.title@,
            id: self.id@,
            insert_groups: self.insert_groups@.map_values(|s: String| s@),
        }
    }
}

impl Clone for InsertMetadata {
    fn clone(&self) -> (r: Self)
        ensures
            r@ == self@,
    {
        let r = InsertMetadata {
            title: self.title.clone(),
            id: self.id.clone(),
            insert_groups: clone_strings(&self.insert_groups),
        };
        proof {
            assert(r@ =~= self@);
        }
        r
    }
}

/// One catalog group's library: its cards, the reverse index from
/// printed faces to cards, and its inserts.
#[derive(Debug, PartialEq, Eq)]
pub struct Library {
    /// The cards, keyed by their `id`.
    pub cards: Vec<CardMetadata>,
    /// The face reverse index, keyed by its `id`.
    pub faces: Vec<PrintingMetadata>,
    /// The inserts, keyed by their `id`.
    pub inserts: Vec<InsertMetadata>,
}

impl Library {
    /// An empty library.
    pub fn new() -> (r: Library)
        ensures
            r.wf(),
            r.cards@.len() == 0,
            r.faces@.len() == 0,
            r.inserts@.len() == 0,
    {
        Library { cards: Vec::new(), faces: Vec::new(), inserts: Vec::new() }
    }

    /// No key repeats in any of the three maps, and every card's
    /// printing list is sorted.
    pub open spec fn wf(self) -> bool {
        &&& forall|i: int, j: int|
            0 <= i < j < self.cards@.len() ==> (#[trigger] self.cards@[i])@.id != (
            #[trigger] self.cards@[j])@.id
        &&& forall|i: int| 0 <= i < self.cards@.len() ==> (#[trigger] self.cards@[i])@.wf()
        &&& forall|i: int, j: int|
            0 <= i < j < self.faces@.len() ==> (#[trigger] self.faces@[i])@.id != (
            #[trigger] self.faces@[j])@.id
        &&& forall|i: int, j: int|
            0 <= i < j < self.inserts@.len() ==> (#[trigger] self.inserts@[i])@.id != (
            #[trigger] self.inserts@[j])@.id
    }

    /// Whether the library holds a card with this id.
    pub open spec fn has_card(self, id: Seq<char>) -> bool {
        exists|i: int| 0 <= i < self.cards@.len() && (#[trigger] self.cards@[i])@.id == id
    }

    /// The position of the card with this id.
    pub open spec fn card_index(self, id: Seq<char>) -> int {
        choose|i: int| 0 <= i < self.cards@.len() && (#[trigger] self.cards@[i])@.id == id
    }

    /// The card with this id.
    pub open spec fn spec_card(self, id: Seq<char>) -> CardMetadataView {
        self.cards@[self.card_index(id)]@
    }

    /// Whether the library knows a printed face with this key.
    pub open spec fn has_face(self, k: FaceKey) -> bool {
        exists|i: int| 0 <= i < self.faces@.len() && (#[trigger] self.faces@[i])@.id == k
    }

    /// The position of the face entry with this key.
    pub open spec fn face_index(self, k: FaceKey) -> int {
        choose|i: int| 0 <= i < self.faces@.len() && (#[trigger] self.faces@[i])@.id == k
    }

    /// The face entry with this key.
    pub open spec fn spec_face(self, k: FaceKey) -> PrintingMetadataView {
        self.faces@[self.face_index(k)]@
    }

    /// Whether the library holds an insert with this key.
    pub open spec fn has_insert(self, k: InsertKey) -> bool {
        exists|i: int| 0 <= i < self.inserts@.len() && (#[trigger] self.inserts@[i])@.id == k
    }

    /// The position of the insert with this key.
    pub open spec fn insert_index(self, k: InsertKey) -> int {
        choose|i: int| 0 <= i < self.inserts@.len() && (#[trigger] self.inserts@[i])@.id == k
    }

    /// The insert with this key.
    pub open spec fn spec_insert(self, k: InsertKey) -> InsertMetadataView {
        self.inserts@[self.insert_index(k)]@
    }


    /// Under well-formedness the card index of a held key is the one
    /// position holding it.
    pub proof fn lemma_card_index_is(self, id: Seq<char>, i: int)
        requires
            self.wf(),
            0 <= i < self.cards@.len(),
            (self.cards@[i])@.id == id,
        ensures
            self.has_card(id),
            self.card_index(id) == i,
            self.spec_card(id) == (self.cards@[i])@,
    {
        assert(self.has_card(id));
        let w = self.card_index(id);
        assert(0 <= w < self.cards@.len() && (self.cards@[w])@.id == id);
        if w < i {
            assert((self.cards@[w])@.id != (self.cards@[i])@.id);
        } else if i < w {
            assert((self.cards@[i])@.id != (self.cards@[w])@.id);
        }
    }

    /// Under well-formedness the face index of a held key is the one
    /// position holding it.
    pub proof fn lemma_face_index_is(self, k: FaceKey, i: int)
        requires
            self.wf(),
            0 <= i < self.faces@.len(),
            (self.faces@[i])@.id == k,
        ensures
            self.has_face(k),
            self.face_index(k) == i,
            self.spec_face(k) == (self.faces@[i])@,
    {
        assert(self.has_face(k));
        let w = self.face_index(k);
        assert(0 <= w < self.faces@.len() && (self.faces@[w])@.id == k);
        if w < i {
            assert((self.faces@[w])@.id != (self.faces@[i])@.id);
        } else if i < w {
            assert((self.faces@[i])@.id != (self.faces@[w])@.id);
        }
    }

    /// Under well-formedness the insert index of a held key is the one
    /// position holding it.
    pub proof fn lemma_insert_index_is(self, k: InsertKey, i: int)
        requires
            self.wf(),
            0 <= i < self.inserts@.len(),
            (self.inserts@[i])@.id == k,
        ensures
            self.has_insert(k),
            self.insert_index(k) == i,
            self.spec_insert(k) == (self.inserts@[i])@,
    {
        assert(self.has_insert(k));
        let w = self.insert_index(k);
        assert(0 <= w < self.inserts@.len() && (self.inserts@[w])@.id == k);
        if w < i {
            assert((self.inserts@[w])@.id != (self.inserts@[i])@.id);
        } else if i < w {
            assert((self.inserts@[i])@.id != (self.inserts@[w])@.id);
        }
    }

    /// The card with this id, if the library holds one.
    pub fn try_get_card(&self, id: &CardId) -> (r: Option<&CardMetadata>)
        requires
            self.wf(),
        ensures
            r.is_some() == self.has_card(id@),
            r matches Some(c) ==> c@ == self.spec_card(id@),
    {
        let mut i: usize = 0;
        while i < self.cards.len()
            invariant
                self.wf(),
                i <= self.cards@.len(),
                forall|j: int| 0 <= j < i ==> (#[trigger] self.cards@[j])@.id != id@,
            decreases self.cards@.len() - i,
        {
            if str_eq(self.cards[i].id.0.as_str(), id.0.as_str()) {
                proof {
                    self.lemma_card_index_is(id@, i as int);
                }
                return Some(&self.cards[i]);
            }
            i = i + 1;
        }
        None
    }

    /// The card with this id; the library must hold one.
    pub fn get_card(&self, id: &CardId) -> (r: &CardMetadata)
        requires
            self.wf(),
            self.has_card(id@),
        ensures
            r@ == self.spec_card(id@),
    {
        match self.try_get_card(id) {
            Some(c) => c,
            None => vstd::pervasive::unreached(),
        }
    }

    /// The face entry with this key, if the library knows it.
    fn try_get_face(&self, id: &CardFacePrintingId) -> (r: Option<&PrintingMetadata>)
        requires
            self.wf(),
        ensures
            r.is_some() == self.has_face(id@),
            r matches Some(f) ==> f@ == self.spec_face(id@),
    {
        let mut i: usize = 0;
        while i < self.faces.len()
            invariant
                self.wf(),
                i <= self.faces@.len(),
                forall|j: int| 0 <= j < i ==> (#[trigger] self.faces@[j])@.id != id@,
            decreases self.faces@.len() - i,
        {
            if face_id_eq(&self.faces[i].id, id) {
                proof {
                    self.lemma_face_index_is(id@, i as int);
                }
                return Some(&self.faces[i]);
            }
            i = i + 1;
        }
        None
    }

    /// The card a printed face belongs to, if both the face entry and
    /// the card are known.
    pub fn try_get_face_card(&self, id: &CardFacePrintingId) -> (r: Option<&CardMetadata>)
        requires
            self.wf(),
        ensures
            r.is_some() == (self.has_face(id@) && self.has_card(self.spec_face(id@).card_id)),
            r matches Some(c) ==> c@ == self.spec_card(self.spec_face(id@).card_id),
    {
        let face = self.try_get_face(id)?;
        self.try_get_card(&face.card_id)
    }

    /// The card a printed face belongs to; both must be known.
    pub fn get_face_card(&self, id: &CardFacePrintingId) -> (r: &CardMetadata)
        requires
            self.wf(),
            self.has_face(id@),
            self.has_card(self.spec_face(id@).card_id),
        ensures
            r@ == self.spec_card(self.spec_face(id@).card_id),
    {
        match self.try_get_face_card(id) {
            Some(c) => c,
            None => vstd::pervasive::unreached(),
        }
    }

    /// The position of the first face entry carrying this numeric
    /// printing id, whatever its face specifier or group: the entry a
    /// third-party printing id (already translated through the remap
    /// table) resolves to.
    pub fn find_face_by_printing(&self, printing_id: u32) -> (r: Option<usize>)
        ensures
            r matches Some(i) ==> 0 <= i < self.faces@.len() && (self.faces@[i as int])@.id.id
                == printing_id && (forall|j: int|
                0 <= j < i ==> (#[trigger] self.faces@[j])@.id.id != printing_id),
            r.is_none() ==> forall|j: int|
                0 <= j < self.faces@.len() ==> (#[trigger] self.faces@[j])@.id.id != printing_id,
    {
        let mut i: usize = 0;
        while i < self.faces.len()
            invariant
                i <= self.faces@.len(),
                forall|j: int| 0 <= j < i ==> (#[trigger] self.faces@[j])@.id.id != printing_id,
            decreases self.faces@.len() - i,
        {
            if self.faces[i].id.id == printing_id {
                return Some(i);
            }
            i = i + 1;
        }
        None
    }

    /// The insert with this key, if the library holds one.
    pub fn try_get_insert(&self, id: &InsertId) -> (r: Option<&InsertMetadata>)
        requires
            self.wf(),
        ensures
            r.is_some() == self.has_insert(id@),
            r matches Some(m) ==> m@ == self.spec_insert(id@),
    {
        let mut i: usize = 0;
        while i < self.inserts.len()
            invariant
                self.wf(),
                i <= self.inserts@.len(),
                forall|j: int| 0 <= j < i ==> (#[trigger] self.inserts@[j])@.id != id@,
            decreases self.inserts@.len() - i,
        {
            if insert_id_eq(&self.inserts[i].id, id) {
                proof {
                    self.lemma_insert_index_is(id@, i as int);
                }
                return Some(&self.inserts[i]);
            }
            i = i + 1;
        }
        None
    }

    /// The insert with this key; the library must hold one.
    pub fn get_insert(&self, id: &InsertId) -> (r: &InsertMetadata)
        requires
            self.wf(),
            self.has_insert(id@),
        ensures
            r@ == self.spec_insert(id@),
    {
        let mut i: usize = 0;
        while i < self.inserts.len()
            invariant
                self.wf(),
                self.has_insert(id@),
                i <= self.inserts@.len(),
                forall|j: int| 0 <= j < i ==> (#[trigger] self.inserts@[j])@.id != id@,
            decreases self.inserts@.len() - i,
        {
            if insert_id_eq(&self.inserts[i].id, id) {
                proof {
                    self.lemma_insert_index_is(id@, i as int);
                }
                return &self.inserts[i];
            }
            i = i + 1;
        }
        proof {
            let w = self.insert_index(id@);
            assert(0 <= w < self.inserts@.len() && self.inserts@[w]@.id == id@);
        }
        vstd::pervasive::unreached()
    }
}

/// The face keys of a printing list.
pub open spec fn printing_keys(s: Seq<CardFacePrintingId>) -> Seq<FaceKey> {
    s.map_values(|p: CardFacePrintingId| p@)
}

/// Face keys in strictly ascending face order.
pub open spec fn sorted_keys(s: Seq<FaceKey>) -> bool {
    forall|i: int, j: int| 0 <= i < j < s.len() ==> face_key_lt(#[trigger] s[i], #[trigger] s[j])
}

/// Whether two card entries agree on everything but their printings.
pub open spec fn card_meta_like(a: CardMetadataView, b: CardMetadataView) -> bool {
    a.title == b.title && a.alternate_face_data == b.alternate_face_data && a.id == b.id
}

/// The state of a card merge after the first `j` cards of `other`
/// have been folded into `pre`, giving `post`: the key set grows by
/// the processed keys; a card of `pre` keeps its metadata and unions
/// in the processed printings; a processed card absent from `pre`
/// carries `other`'s metadata and printing set.
pub open spec fn cards_merged_upto(pre: Library, other: Library, post: Library, j: int) -> bool {
    &&& forall|id: Seq<char>|
        #![trigger post.has_card(id)]
        post.has_card(id) == (pre.has_card(id) || (other.has_card(id) && other.card_index(id) < j))
    &&& forall|id: Seq<char>|
        #![trigger post.spec_card(id)]
        pre.has_card(id) ==> {
            &&& card_meta_like(post.spec_card(id), pre.spec_card(id))
            &&& forall|k: FaceKey|
                #![trigger post.spec_card(id).printings.contains(k)]
                post.spec_card(id).printings.contains(k) == (pre.spec_card(id).printings.contains(k)
                    || (other.has_card(id) && other.card_index(id) < j && other.spec_card(
                    id,
                ).printings.contains(k)))
        }
    &&& forall|id: Seq<char>|
        #![trigger post.spec_card(id)]
        (!pre.has_card(id) && other.has_card(id) && other.card_index(id) < j) ==> {
            &&& card_meta_like(post.spec_card(id), other.spec_card(id))
            &&& forall|k: FaceKey|
                #![trigger post.spec_card(id).printings.contains(k)]
                post.spec_card(id).printings.contains(k) == other.spec_card(id).printings.contains(
                    k,
                )
        }
}

/// The state of a face merge after the first `j` faces of `other`
/// have been folded into `pre`, giving `post`: the key set grows by
/// the processed keys, and the first writer of a key wins.
pub open spec fn faces_merged_upto(pre: Library, other: Library, post: Library, j: int) -> bool {
    &&& forall|k: FaceKey|
        #![trigger post.has_face(k)]
        post.has_face(k) == (pre.has_face(k) || (other.has_face(k) && other.face_index(k) < j))
    &&& forall|k: FaceKey| #![trigger post.spec_face(k)]
        pre.has_face(k) ==> post.spec_face(k) == pre.spec_face(k)
    &&& forall|k: FaceKey| #![trigger post.spec_face(k)]
        (!pre.has_face(k) && other.has_face(k) && other.face_index(k) < j) ==> post.spec_face(k)
            == other.spec_face(k)
}

/// The state of an insert merge after the first `j` inserts of
/// `other` have been folded into `pre`, giving `post`; first writer
/// wins, as for faces.
pub open spec fn inserts_merged_upto(pre: Library, other: Library, post: Library, j: int) -> bool {
    &&& forall|k: InsertKey|
        #![trigger post.has_insert(k)]
        post.has_insert(k) == (pre.has_insert(k) || (other.has_insert(k) && other.insert_index(k)
            < j))
    &&& forall|k: InsertKey| #![trigger post.spec_insert(k)]
        pre.has_insert(k) ==> post.spec_insert(k) == pre.spec_insert(k)
    &&& forall|k: InsertKey| #![trigger post.spec_insert(k)]
        (!pre.has_insert(k) && other.has_insert(k) && other.insert_index(k) < j)
            ==> post.spec_insert(k) == other.spec_insert(k)
}

/// Inserts a printing into a sorted printing list, keeping the list
/// sorted; a printing already present is left alone.
fn insert_printing_sorted(v: &mut Vec<CardFacePrintingId>, p: CardFacePrintingId)
    requires
        sorted_keys(printing_keys(old(v)@)),
    ensures
        sorted_keys(printing_keys(final(v)@)),
        forall|k: FaceKey|
            #![trigger printing_keys(final(v)@).contains(k)]
            printing_keys(final(v)@).contains(k) == (printing_keys(old(v)@).contains(k) || k
                == p@),
{
    let mut i: usize = 0;
    while i < v.len()
        invariant
            sorted_keys(printing_keys(v@)),
            v@ == old(v)@,
            i <= v@.len(),
            forall|j: int| 0 <= j < i ==> face_key_lt(#[trigger] printing_keys(v@)[j], p@),
        decreases v@.len() - i,
    {
        proof {
            assert(printing_keys(v@)[i as int] == v@[i as int]@);
        }
        if face_id_eq(&v[i], &p) {
            proof {
                let keys = printing_keys(v@);
                assert(keys[i as int] == p@);
                assert(keys.contains(p@));
            }
            return;
        }
        if face_id_lt(&p, &v[i]) {
            let ghost pre = v@;
            let ghost prekeys = printing_keys(pre);
            v.insert(i, p);
            proof {
                let keys = printing_keys(v@);
                assert(keys =~= prekeys.insert(i as int, p@)) by {
                    prekeys.insert_ensures(i as int, p@);
                };
                prekeys.insert_ensures(i as int, p@);
                assert forall|x: int| i <= x < prekeys.len() implies face_key_lt(
                    p@,
                    prekeys[x],
                ) by {
                    if x > i {
                        lemma_face_key_transitive(p@, prekeys[i as int], prekeys[x]);
                    }
                };
                assert forall|a: int, b: int| 0 <= a < b < keys.len() implies face_key_lt(
                    keys[a],
                    keys[b],
                ) by {
                    if b < i {
                    } else if b == i {
                    } else if a < i {
                        assert(keys[b] == prekeys[b - 1]);
                    } else if a == i {
                        assert(keys[b] == prekeys[b - 1]);
                    } else {
                        assert(keys[a] == prekeys[a - 1]);
                        assert(keys[b] == prekeys[b - 1]);
                    }
                };
                assert forall|k: FaceKey| keys.contains(k) == (prekeys.contains(k) || k
                    == p@) by {
                    if prekeys.contains(k) {
                        let w = choose|w: int| 0 <= w < prekeys.len() && prekeys[w] == k;
                        if w < i {
                            assert(keys[w] == k);
                        } else {
                            assert(keys[w + 1] == k);
                        }
                        assert(keys.contains(k));
                    }
                    if k == p@ {
                        assert(keys[i as int] == k);
                        assert(keys.contains(k));
                    }
                    if keys.contains(k) {
                        let w = choose|w: int| 0 <= w < keys.len() && keys[w] == k;
                        if w < i {
                            assert(prekeys[w] == k);
                            assert(prekeys.contains(k));
                        } else if w == i {
                            assert(k == p@);
                        } else {
                            assert(prekeys[w - 1] == k);
                            assert(prekeys.contains(k));
                        }
                    }
                };
            }
            return;
        }
        proof {
            lemma_face_key_trichotomy(p@, v@[i as int]@);
        }
        i = i + 1;
    }
    let ghost pre = v@;
    let ghost prekeys = printing_keys(pre);
    v.push(p);
    proof {
        let keys = printing_keys(v@);
        assert(keys =~= prekeys.push(p@));
        assert forall|a: int, b: int| 0 <= a < b < keys.len() implies face_key_lt(
            keys[a],
            keys[b],
        ) by {
            if b == keys.len() - 1 {
                assert(keys[a] == prekeys[a]);
            }
        };
        assert forall|k: FaceKey| keys.contains(k) == (prekeys.contains(k) || k == p@) by {
            if prekeys.contains(k) {
                let w = choose|w: int| 0 <= w < prekeys.len() && prekeys[w] == k;
                assert(keys[w] == k);
                assert(keys.contains(k));
            }
            if k == p@ {
                assert(keys[keys.len() - 1] == k);
                assert(keys.contains(k));
            }
            if keys.contains(k) {
                let w = choose|w: int| 0 <= w < keys.len() && keys[w] == k;
                if w < keys.len() - 1 {
                    assert(prekeys[w] == k);
                    assert(prekeys.contains(k));
                }
            }
        };
    }
}


/// How a merged library relates to its two operands: key sets are
/// unions; a card of `pre` keeps its metadata and unions in `other`'s
/// printings; a face or insert of `pre` is never overwritten.
pub open spec fn library_merged(pre: Library, other: Library, post: Library) -> bool {
    &&& forall|id: Seq<char>|
        #![trigger post.has_card(id)]
        post.has_card(id) == (pre.has_card(id) || other.has_card(id))
    &&& forall|id: Seq<char>|
        #![trigger post.spec_card(id)]
        pre.has_card(id) ==> {
            &&& card_meta_like(post.spec_card(id), pre.spec_card(id))
            &&& forall|k: FaceKey|
                #![trigger post.spec_card(id).printings.contains(k)]
                post.spec_card(id).printings.contains(k) == (pre.spec_card(id).printings.contains(
                    k,
                ) || (other.has_card(id) && other.spec_card(id).printings.contains(k)))
        }
    &&& forall|id: Seq<char>|
        #![trigger post.spec_card(id)]
        (!pre.has_card(id) && other.has_card(id)) ==> {
            &&& card_meta_like(post.spec_card(id), other.spec_card(id))
            &&& forall|k: FaceKey|
                #![trigger post.spec_card(id).printings.contains(k)]
                post.spec_card(id).printings.contains(k) == other.spec_card(id).printings.contains(
                    k,
                )
        }
    &&& forall|k: FaceKey|
        #![trigger post.has_face(k)]
        post.has_face(k) == (pre.has_face(k) || other.has_face(k))
    &&& forall|k: FaceKey| #![trigger post.spec_face(k)]
        pre.has_face(k) ==> post.spec_face(k) == pre.spec_face(k)
    &&& forall|k: FaceKey| #![trigger post.spec_face(k)]
        (!pre.has_face(k) && other.has_face(k)) ==> post.spec_face(k) == other.spec_face(k)
    &&& forall|k: InsertKey|
        #![trigger post.has_insert(k)]
        post.has_insert(k) == (pre.has_insert(k) || other.has_insert(k))
    &&& forall|k: InsertKey| #![trigger post.spec_insert(k)]
        pre.has_insert(k) ==> post.spec_insert(k) == pre.spec_insert(k)
    &&& forall|k: InsertKey| #![trigger post.spec_insert(k)]
        (!pre.has_insert(k) && other.has_insert(k)) ==> post.spec_insert(k) == other.spec_insert(k)
}

impl Library {
    /// Position of the card with this id, if the library holds one.
    fn find_card_index(&self, id: &CardId) -> (r: Option<usize>)
        requires
            self.wf(),
        ensures
            r.is_some() == self.has_card(id@),
            r matches Some(i) ==> 0 <= i < self.cards@.len() && (self.cards@[i as int])@.id == id@
                && self.card_index(id@) == i,
    {
        let mut i: usize = 0;
        while i < self.cards.len()
            invariant
                self.wf(),
                i <= self.cards@.len(),
                forall|j: int| 0 <= j < i ==> (#[trigger] self.cards@[j])@.id != id@,
            decreases self.cards@.len() - i,
        {
            if str_eq(self.cards[i].id.0.as_str(), id.0.as_str()) {
                proof {
                    self.lemma_card_index_is(id@, i as int);
                }
                return Some(i);
            }
            i = i + 1;
        }
        None
    }

    /// Whether the library knows a printed face with this id.
    fn has_face_exec(&self, id: &CardFacePrintingId) -> (r: bool)
        requires
            self.wf(),
        ensures
            r == self.has_face(id@),
    {
        self.try_get_face(id).is_some()
    }

    /// Whether the library holds an insert with this id.
    fn has_insert_exec(&self, id: &InsertId) -> (r: bool)
        requires
            self.wf(),
        ensures
            r == self.has_insert(id@),
    {
        let mut i: usize = 0;
        while i < self.inserts.len()
            invariant
                self.wf(),
                i <= self.inserts@.len(),
                forall|j: int| 0 <= j < i ==> (#[trigger] self.inserts@[j])@.id != id@,
            decreases self.inserts@.len() - i,
        {
            if insert_id_eq(&self.inserts[i].id, id) {
                proof {
                    self.lemma_insert_index_is(id@, i as int);
                }
                return true;
            }
            i = i + 1;
        }
        false
    }

    /// Folds the cards of `other` into `self`: a card of `other`
    /// absent from `self` is inserted (carrying `other`'s metadata),
    /// and in either case its printings are unioned into the entry.
    fn merge_cards_from(&mut self, other: &Library)
        requires
            old(self).wf(),
            other.wf(),
        ensures
            final(self).wf(),
            final(self).faces@ == old(self).faces@,
            final(self).inserts@ == old(self).inserts@,
            cards_merged_upto(*old(self), *other, *final(self), other.cards@.len() as int),
    {
        let ghost pre = *self;
        let mut j: usize = 0;
        while j < other.cards.len()
            invariant
                self.wf(),
                other.wf(),
                pre.wf(),
                self.faces@ == pre.faces@,
                self.inserts@ == pre.inserts@,
                j <= other.cards@.len(),
                cards_merged_upto(pre, *other, *self, j as int),
            decreases other.cards@.len() - j,
        {
            let oc = &other.cards[j];
            proof {
                other.lemma_card_index_is(oc.id@, j as int);
            }
            match self.find_card_index(&oc.id) {
                Some(ci) => {
                    let ghost snap = *self;
                    proof {
                        // the entry was either there from the start or added by an
                        // earlier card of `other`; the latter is impossible since
                        // `other` never repeats a card id
                        assert(pre.has_card(oc.id@));
                        snap.lemma_card_index_is(oc.id@, ci as int);
                    }
                    let mut m: usize = 0;
                    while m < oc.printings.len()
                        invariant
                            other.wf(),
                            j < other.cards@.len(),
                            oc == &other.cards@[j as int],
                            ci < self.cards@.len(),
                            self.cards@.len() == snap.cards@.len(),
                            m <= oc.printings@.len(),
                            forall|x: int|
                                0 <= x < self.cards@.len() && x != ci ==> #[trigger] self.cards@[x]
                                    == snap.cards@[x],
                            (self.cards@[ci as int]).title == snap.cards@[ci as int].title,
                            (self.cards@[ci as int]).alternate_face_data == snap.cards@[
                                ci as int
                            ].alternate_face_data,
                            (self.cards@[ci as int]).id == snap.cards@[ci as int].id,
                            sorted_keys(printing_keys(self.cards@[ci as int].printings@)),
                            forall|k: FaceKey|
                                #![trigger printing_keys(self.cards@[ci as int].printings@).contains(k)]
                                printing_keys(self.cards@[ci as int].printings@).contains(k) == (
                                printing_keys(snap.cards@[ci as int].printings@).contains(k)
                                    || exists|l: int|
                                    0 <= l < m && (#[trigger] oc.printings@[l])@ == k),
                            self.faces@ == snap.faces@,
                            self.inserts@ == snap.inserts@,
                        decreases oc.printings@.len() - m,
                    {
                        insert_printing_sorted(&mut self.cards[ci].printings, oc.printings[m].clone());
                        m = m + 1;
                        proof {
                            assert forall|k: FaceKey|
                                printing_keys(self.cards@[ci as int].printings@).contains(k) == (
                                printing_keys(snap.cards@[ci as int].printings@).contains(k)
                                    || exists|l: int|
                                    0 <= l < m && (#[trigger] oc.printings@[l])@ == k) by {
                                if exists|l: int| 0 <= l < m && (#[trigger] oc.printings@[l])@
                                    == k {
                                    let l = choose|l: int|
                                        0 <= l < m && (#[trigger] oc.printings@[l])@ == k;
                                    if l == m - 1 {
                                        assert(printing_keys(
                                            self.cards@[ci as int].printings@,
                                        ).contains(k));
                                    }
                                }
                            };
                        }
                    }
                    proof {
                        assert forall|k: FaceKey|
                            #![trigger printing_keys(self.cards@[ci as int].printings@).contains(k)]
                            printing_keys(self.cards@[ci as int].printings@).contains(k) == (
                            printing_keys(snap.cards@[ci as int].printings@).contains(k)
                                || printing_keys(oc.printings@).contains(k)) by {
                            if printing_keys(oc.printings@).contains(k) {
                                let l = choose|l: int|
                                    0 <= l < printing_keys(oc.printings@).len() && printing_keys(
                                        oc.printings@,
                                    )[l] == k;
                                assert((oc.printings@[l])@ == k);
                            }
                            if exists|l: int|
                                0 <= l < oc.printings@.len() && (#[trigger] oc.printings@[l])@
                                    == k {
                                let l = choose|l: int|
                                    0 <= l < oc.printings@.len() && (#[trigger] oc.printings@[l])@
                                        == k;
                                assert(printing_keys(oc.printings@)[l] == k);
                                assert(printing_keys(oc.printings@).contains(k));
                            }
                        };
                        lemma_merge_card_found_step(pre, *other, snap, *self, j as int, ci as int);
                    }
                },
                None => {
                    let entry = CardMetadata {
                        title: oc.title.clone(),
                        alternate_face_data: oc.alternate_face_data.clone(),
                        id: oc.id.clone(),
                        printings: clone_printings(&oc.printings),
                    };
                    let ghost snap = *self;
                    proof {
                        assert(entry@ =~= oc@);
                    }
                    self.cards.push(entry);
                    proof {
                        lemma_merge_card_new_step(pre, *other, snap, *self, j as int);
                    }
                },
            }
            j = j + 1;
        }
    }
}

/// A library whose cards differ from `snap`'s only at position `ci`,
/// where the entry kept its id, holds the same card ids, and every
/// other id's card is unchanged.
proof fn lemma_card_frame(snap: Library, post: Library, ci: int, id: Seq<char>)
    requires
        snap.wf(),
        0 <= ci < snap.cards@.len(),
        post.cards@.len() == snap.cards@.len(),
        forall|x: int|
            0 <= x < post.cards@.len() && x != ci ==> #[trigger] post.cards@[x] == snap.cards@[x],
        (post.cards@[ci])@.id == (snap.cards@[ci])@.id,
        forall|a: int, b: int|
            0 <= a < b < post.cards@.len() ==> (#[trigger] post.cards@[a])@.id != (
            #[trigger] post.cards@[b])@.id,
        id != (snap.cards@[ci])@.id,
    ensures
        post.has_card(id) == snap.has_card(id),
        snap.has_card(id) ==> post.spec_card(id) == snap.spec_card(id),
{
    if snap.has_card(id) {
        let w = snap.card_index(id);
        snap.lemma_card_index_is(id, w);
        assert(w != ci);
        assert(post.cards@[w] == snap.cards@[w]);
        lemma_card_index_of(post, id, w);
    }
    if post.has_card(id) {
        let w = post.card_index(id);
        assert(0 <= w < post.cards@.len() && (post.cards@[w])@.id == id);
        assert(w != ci);
        assert(snap.cards@[w] == post.cards@[w]);
        assert(snap.has_card(id));
    }
}

/// A library that extends `snap`'s cards by one entry with a fresh id
/// keeps every other id's presence and card unchanged.
proof fn lemma_card_frame_push(snap: Library, post: Library, id: Seq<char>)
    requires
        snap.wf(),
        post.cards@.len() == snap.cards@.len() + 1,
        forall|x: int| 0 <= x < snap.cards@.len() ==> #[trigger] post.cards@[x] == snap.cards@[x],
        forall|a: int, b: int|
            0 <= a < b < post.cards@.len() ==> (#[trigger] post.cards@[a])@.id != (
            #[trigger] post.cards@[b])@.id,
        id != (post.cards@[post.cards@.len() - 1])@.id,
    ensures
        post.has_card(id) == snap.has_card(id),
        snap.has_card(id) ==> post.spec_card(id) == snap.spec_card(id),
{
    let last = post.cards@.len() - 1;
    if snap.has_card(id) {
        let w = snap.card_index(id);
        snap.lemma_card_index_is(id, w);
        assert(post.cards@[w] == snap.cards@[w]);
        lemma_card_index_of(post, id, w);
    }
    if post.has_card(id) {
        let w = post.card_index(id);
        assert(0 <= w < post.cards@.len() && (post.cards@[w])@.id == id);
        assert(w != last);
        assert(snap.cards@[w] == post.cards@[w]);
        assert(snap.has_card(id));
    }
}

/// As [`Library::lemma_card_index_is`], but relying only on key
/// uniqueness rather than full well-formedness.
proof fn lemma_card_index_of(lib: Library, id: Seq<char>, i: int)
    requires
        forall|a: int, b: int|
            0 <= a < b < lib.cards@.len() ==> (#[trigger] lib.cards@[a])@.id != (
            #[trigger] lib.cards@[b])@.id,
        0 <= i < lib.cards@.len(),
        (lib.cards@[i])@.id == id,
    ensures
        lib.has_card(id),
        lib.card_index(id) == i,
        lib.spec_card(id) == (lib.cards@[i])@,
{
    assert(lib.has_card(id));
    let w = lib.card_index(id);
    assert(0 <= w < lib.cards@.len() && (lib.cards@[w])@.id == id);
    if w < i {
        assert((lib.cards@[w])@.id != (lib.cards@[i])@.id);
    } else if i < w {
        assert((lib.cards@[i])@.id != (lib.cards@[w])@.id);
    }
}

/// In a well-formed library, an id is held at position `< j` exactly
/// when it is held at all and its position is `< j`; so a distinct id
/// processed before step `j` is also processed before step `j + 1`.
proof fn lemma_processed_shift(other: Library, id: Seq<char>, j: int)
    requires
        other.wf(),
        0 <= j < other.cards@.len(),
        other.has_card(id),
        id != (other.cards@[j])@.id,
    ensures
        (other.card_index(id) < j) == (other.card_index(id) < j + 1),
{
    let w = other.card_index(id);
    assert(0 <= w < other.cards@.len() && (other.cards@[w])@.id == id);
    if w == j {
        assert(id == (other.cards@[j])@.id);
    }
}

/// Two libraries with the same card vector agree on every card.
proof fn lemma_same_cards(a: Library, b: Library)
    requires
        a.wf(),
        a.cards@ == b.cards@,
    ensures
        forall|id: Seq<char>| #[trigger] a.has_card(id) == b.has_card(id),
        forall|id: Seq<char>| #[trigger] a.has_card(id) ==> a.spec_card(id) == b.spec_card(id),
{
    assert forall|id: Seq<char>| #[trigger] a.has_card(id) == b.has_card(id) by {
        if a.has_card(id) {
            let w = a.card_index(id);
            assert((a.cards@[w])@.id == id);
            assert((b.cards@[w])@.id == id);
            assert(b.has_card(id));
        }
        if b.has_card(id) {
            let w = b.card_index(id);
            assert((b.cards@[w])@.id == id);
            assert((a.cards@[w])@.id == id);
            assert(a.has_card(id));
        }
    };
    assert forall|id: Seq<char>| #[trigger] a.has_card(id) implies a.spec_card(id) == b.spec_card(
        id,
    ) by {
        let w = a.card_index(id);
        a.lemma_card_index_is(id, w);
        assert forall|x: int, y: int| 0 <= x < y < b.cards@.len() implies (
        #[trigger] b.cards@[x])@.id != (#[trigger] b.cards@[y])@.id by {
            assert(b.cards@[x] == a.cards@[x] && b.cards@[y] == a.cards@[y]);
        };
        lemma_card_index_of(b, id, w);
    };
}

/// Two libraries with the same face vector agree on every face.
proof fn lemma_same_faces(a: Library, b: Library)
    requires
        a.wf(),
        a.faces@ == b.faces@,
    ensures
        forall|k: FaceKey| #[trigger] a.has_face(k) == b.has_face(k),
        forall|k: FaceKey| #[trigger] a.has_face(k) ==> a.spec_face(k) == b.spec_face(k),
{
    assert forall|k: FaceKey| #[trigger] a.has_face(k) == b.has_face(k) by {
        if a.has_face(k) {
            let w = a.face_index(k);
            assert((a.faces@[w])@.id == k);
            assert((b.faces@[w])@.id == k);
            assert(b.has_face(k));
        }
        if b.has_face(k) {
            let w = b.face_index(k);
            assert((b.faces@[w])@.id == k);
            assert((a.faces@[w])@.id == k);
            assert(a.has_face(k));
        }
    };
    assert forall|k: FaceKey| #[trigger] a.has_face(k) implies a.spec_face(k) == b.spec_face(k) by {
        let w = a.face_index(k);
        a.lemma_face_index_is(k, w);
        assert forall|x: int, y: int| 0 <= x < y < b.faces@.len() implies (
        #[trigger] b.faces@[x])@.id != (#[trigger] b.faces@[y])@.id by {
            assert(b.faces@[x] == a.faces@[x] && b.faces@[y] == a.faces@[y]);
        };
        lemma_face_index_of(b, k, w);
    };
}

/// Two libraries with the same insert vector agree on every insert.
proof fn lemma_same_inserts(a: Library, b: Library)
    requires
        a.wf(),
        a.inserts@ == b.inserts@,
    ensures
        forall|k: InsertKey| #[trigger] a.has_insert(k) == b.has_insert(k),
        forall|k: InsertKey| #[trigger] a.has_insert(k) ==> a.spec_insert(k) == b.spec_insert(k),
{
    assert forall|k: InsertKey| #[trigger] a.has_insert(k) == b.has_insert(k) by {
        if a.has_insert(k) {
            let w = a.insert_index(k);
            assert((a.inserts@[w])@.id == k);
            assert((b.inserts@[w])@.id == k);
            assert(b.has_insert(k));
        }
        if b.has_insert(k) {
            let w = b.insert_index(k);
            assert((b.inserts@[w])@.id == k);
            assert((a.inserts@[w])@.id == k);
            assert(a.has_insert(k));
        }
    };
    assert forall|k: InsertKey| #[trigger] a.has_insert(k) implies a.spec_insert(k)
        == b.spec_insert(k) by {
        let w = a.insert_index(k);
        a.lemma_insert_index_is(k, w);
        assert forall|x: int, y: int| 0 <= x < y < b.inserts@.len() implies (
        #[trigger] b.inserts@[x])@.id != (#[trigger] b.inserts@[y])@.id by {
            assert(b.inserts@[x] == a.inserts@[x] && b.inserts@[y] == a.inserts@[y]);
        };
        lemma_insert_index_of(b, k, w);
    };
}

/// After a found card's printings were unioned in place at `ci`, one
/// more card of `other` counts as merged.
proof fn lemma_merge_card_found_step(
    pre: Library,
    other: Library,
    snap: Library,
    post: Library,
    j: int,
    ci: int,
)
    requires
        pre.wf(),
        other.wf(),
        snap.wf(),
        0 <= j < other.cards@.len(),
        cards_merged_upto(pre, other, snap, j),
        other.card_index((other.cards@[j])@.id) == j,
        0 <= ci < snap.cards@.len(),
        (snap.cards@[ci])@.id == (other.cards@[j])@.id,
        post.cards@.len() == snap.cards@.len(),
        forall|x: int|
            0 <= x < post.cards@.len() && x != ci ==> #[trigger] post.cards@[x] == snap.cards@[x],
        (post.cards@[ci]).title == snap.cards@[ci].title,
        (post.cards@[ci]).alternate_face_data == snap.cards@[ci].alternate_face_data,
        (post.cards@[ci]).id == snap.cards@[ci].id,
        sorted_keys(printing_keys(post.cards@[ci].printings@)),
        forall|k: FaceKey|
            #![trigger printing_keys(post.cards@[ci].printings@).contains(k)]
            printing_keys(post.cards@[ci].printings@).contains(k) == (printing_keys(
                snap.cards@[ci].printings@,
            ).contains(k) || printing_keys((other.cards@[j]).printings@).contains(k)),
        post.faces@ == snap.faces@,
        post.inserts@ == snap.inserts@,
    ensures
        post.wf(),
        cards_merged_upto(pre, other, post, j + 1),
{
    let id_j = (other.cards@[j])@.id;
    assert forall|x: int| 0 <= x < post.cards@.len() implies (#[trigger] post.cards@[x])@.id == (
    snap.cards@[x])@.id by {
        if x != ci {
            assert(post.cards@[x] == snap.cards@[x]);
        }
    };
    assert forall|a: int, b: int| 0 <= a < b < post.cards@.len() implies (
    #[trigger] post.cards@[a])@.id != (#[trigger] post.cards@[b])@.id by {
        assert((snap.cards@[a])@.id != (snap.cards@[b])@.id);
    };
    assert forall|x: int| 0 <= x < post.cards@.len() implies (#[trigger] post.cards@[x])@.wf() by {
        if x != ci {
            assert(post.cards@[x] == snap.cards@[x]);
        } else {
            assert((post.cards@[x])@.printings == printing_keys(post.cards@[x].printings@));
        }
    };
    assert(post.wf());
    // the merged entry is the card of id_j in snap, post and other
    snap.lemma_card_index_is(id_j, ci);
    lemma_card_index_of(post, id_j, ci);
    assert(other.spec_card(id_j) == (other.cards@[j])@);
    // a found card was there from the start: an earlier step cannot
    // have added id_j, which `other` holds only at position j
    assert(snap.has_card(id_j));
    assert(!(other.card_index(id_j) < j));
    assert(pre.has_card(id_j));
    assert(card_meta_like(post.spec_card(id_j), snap.spec_card(id_j)));
    assert(card_meta_like(snap.spec_card(id_j), pre.spec_card(id_j)));
    assert forall|id: Seq<char>| #[trigger] post.has_card(id) == (pre.has_card(id) || (
    other.has_card(id) && other.card_index(id) < j + 1)) by {
        if id == id_j {
            assert(post.has_card(id_j));
        } else {
            lemma_card_frame(snap, post, ci, id);
            if other.has_card(id) {
                lemma_processed_shift(other, id, j);
            }
        }
    };
    assert forall|id: Seq<char>| pre.has_card(id) implies {
        &&& card_meta_like(#[trigger] post.spec_card(id), pre.spec_card(id))
        &&& forall|k: FaceKey|
            #![trigger post.spec_card(id).printings.contains(k)]
            post.spec_card(id).printings.contains(k) == (pre.spec_card(id).printings.contains(k)
                || (other.has_card(id) && other.card_index(id) < j + 1 && other.spec_card(
                id,
            ).printings.contains(k)))
    } by {
        assert(snap.has_card(id));
        if id == id_j {
            assert((post.spec_card(id_j)).printings == printing_keys(post.cards@[ci].printings@));
            assert((snap.spec_card(id_j)).printings == printing_keys(snap.cards@[ci].printings@));
            assert(((other.cards@[j])@).printings == printing_keys((other.cards@[j]).printings@));
            assert forall|k: FaceKey| #[trigger]
                post.spec_card(id_j).printings.contains(k) == (pre.spec_card(
                    id_j,
                ).printings.contains(k) || (other.has_card(id_j) && other.card_index(id_j) < j + 1
                    && other.spec_card(id_j).printings.contains(k))) by {
                assert(snap.spec_card(id_j).printings.contains(k) == (pre.spec_card(
                    id_j,
                ).printings.contains(k) || (other.has_card(id_j) && other.card_index(id_j) < j
                    && other.spec_card(id_j).printings.contains(k))));
                assert(printing_keys(post.cards@[ci].printings@).contains(k) == (printing_keys(
                    snap.cards@[ci].printings@,
                ).contains(k) || printing_keys((other.cards@[j]).printings@).contains(k)));
            };
        } else {
            lemma_card_frame(snap, post, ci, id);
            assert(post.spec_card(id) == snap.spec_card(id));
            if other.has_card(id) {
                lemma_processed_shift(other, id, j);
            }
        }
    };
    assert forall|id: Seq<char>|
        (!pre.has_card(id) && other.has_card(id) && other.card_index(id) < j + 1) implies {
        &&& card_meta_like(#[trigger] post.spec_card(id), other.spec_card(id))
        &&& forall|k: FaceKey|
            #![trigger post.spec_card(id).printings.contains(k)]
            post.spec_card(id).printings.contains(k) == other.spec_card(id).printings.contains(k)
    } by {
        if id == id_j {
            assert(pre.has_card(id_j));
        } else {
            lemma_processed_shift(other, id, j);
            assert(other.card_index(id) < j);
            assert(snap.has_card(id));
            lemma_card_frame(snap, post, ci, id);
            assert(post.spec_card(id) == snap.spec_card(id));
        }
    };
}

/// After a fresh card of `other` was pushed, one more card of `other`
/// counts as merged.
proof fn lemma_merge_card_new_step(
    pre: Library,
    other: Library,
    snap: Library,
    post: Library,
    j: int,
)
    requires
        pre.wf(),
        other.wf(),
        snap.wf(),
        0 <= j < other.cards@.len(),
        cards_merged_upto(pre, other, snap, j),
        other.card_index((other.cards@[j])@.id) == j,
        !snap.has_card((other.cards@[j])@.id),
        post.cards@.len() == snap.cards@.len() + 1,
        forall|x: int| 0 <= x < snap.cards@.len() ==> #[trigger] post.cards@[x] == snap.cards@[x],
        (post.cards@[post.cards@.len() - 1])@ == (other.cards@[j])@,
        post.faces@ == snap.faces@,
        post.inserts@ == snap.inserts@,
    ensures
        post.wf(),
        cards_merged_upto(pre, other, post, j + 1),
{
    let id_j = (other.cards@[j])@.id;
    let last = post.cards@.len() - 1;
    assert forall|a: int, b: int| 0 <= a < b < post.cards@.len() implies (
    #[trigger] post.cards@[a])@.id != (#[trigger] post.cards@[b])@.id by {
        if b < last {
            assert((snap.cards@[a])@.id != (snap.cards@[b])@.id);
        } else {
            assert((post.cards@[b])@.id == id_j);
            if (post.cards@[a])@.id == id_j {
                assert(post.cards@[a] == snap.cards@[a]);
                assert(snap.has_card(id_j));
            }
        }
    };
    assert forall|x: int| 0 <= x < post.cards@.len() implies (#[trigger] post.cards@[x])@.wf() by {
        if x < last {
            assert(post.cards@[x] == snap.cards@[x]);
        } else {
            assert((other.cards@[j])@.wf());
        }
    };
    assert(post.wf());
    lemma_card_index_of(post, id_j, last);
    assert(other.spec_card(id_j) == (other.cards@[j])@);
    assert(!pre.has_card(id_j));
    assert forall|id: Seq<char>| #[trigger] post.has_card(id) == (pre.has_card(id) || (
    other.has_card(id) && other.card_index(id) < j + 1)) by {
        if id == id_j {
            assert(post.has_card(id_j));
        } else {
            lemma_card_frame_push(snap, post, id);
            if other.has_card(id) {
                lemma_processed_shift(other, id, j);
            }
        }
    };
    assert forall|id: Seq<char>| pre.has_card(id) implies {
        &&& card_meta_like(#[trigger] post.spec_card(id), pre.spec_card(id))
        &&& forall|k: FaceKey|
            #![trigger post.spec_card(id).printings.contains(k)]
            post.spec_card(id).printings.contains(k) == (pre.spec_card(id).printings.contains(k)
                || (other.has_card(id) && other.card_index(id) < j + 1 && other.spec_card(
                id,
            ).printings.contains(k)))
    } by {
        assert(id != id_j);
        assert(snap.has_card(id));
        lemma_card_frame_push(snap, post, id);
        assert(post.spec_card(id) == snap.spec_card(id));
        if other.has_card(id) {
            lemma_processed_shift(other, id, j);
        }
    };
    assert forall|id: Seq<char>|
        (!pre.has_card(id) && other.has_card(id) && other.card_index(id) < j + 1) implies {
        &&& card_meta_like(#[trigger] post.spec_card(id), other.spec_card(id))
        &&& forall|k: FaceKey|
            #![trigger post.spec_card(id).printings.contains(k)]
            post.spec_card(id).printings.contains(k) == other.spec_card(id).printings.contains(k)
    } by {
        if id == id_j {
            assert(post.spec_card(id_j) == (other.cards@[j])@);
        } else {
            lemma_processed_shift(other, id, j);
            assert(other.card_index(id) < j);
            assert(snap.has_card(id));
            lemma_card_frame_push(snap, post, id);
            assert(post.spec_card(id) == snap.spec_card(id));
        }
    };
}

/// A library that extends `snap`'s faces by one entry with a fresh
/// key keeps every other key's presence and entry unchanged.
proof fn lemma_face_frame_push(snap: Library, post: Library, k: FaceKey)
    requires
        snap.wf(),
        post.faces@.len() == snap.faces@.len() + 1,
        forall|x: int| 0 <= x < snap.faces@.len() ==> #[trigger] post.faces@[x] == snap.faces@[x],
        forall|a: int, b: int|
            0 <= a < b < post.faces@.len() ==> (#[trigger] post.faces@[a])@.id != (
            #[trigger] post.faces@[b])@.id,
        k != (post.faces@[post.faces@.len() - 1])@.id,
    ensures
        post.has_face(k) == snap.has_face(k),
        snap.has_face(k) ==> post.spec_face(k) == snap.spec_face(k),
{
    let last = post.faces@.len() - 1;
    if snap.has_face(k) {
        let w = snap.face_index(k);
        snap.lemma_face_index_is(k, w);
        assert(post.faces@[w] == snap.faces@[w]);
        lemma_face_index_of(post, k, w);
    }
    if post.has_face(k) {
        let w = post.face_index(k);
        assert(0 <= w < post.faces@.len() && (post.faces@[w])@.id == k);
        assert(w != last);
        assert(snap.faces@[w] == post.faces@[w]);
        assert(snap.has_face(k));
    }
}

/// As [`Library::lemma_face_index_is`], but relying only on key
/// uniqueness rather than full well-formedness.
proof fn lemma_face_index_of(lib: Library, k: FaceKey, i: int)
    requires
        forall|a: int, b: int|
            0 <= a < b < lib.faces@.len() ==> (#[trigger] lib.faces@[a])@.id != (
            #[trigger] lib.faces@[b])@.id,
        0 <= i < lib.faces@.len(),
        (lib.faces@[i])@.id == k,
    ensures
        lib.has_face(k),
        lib.face_index(k) == i,
        lib.spec_face(k) == (lib.faces@[i])@,
{
    assert(lib.has_face(k));
    let w = lib.face_index(k);
    assert(0 <= w < lib.faces@.len() && (lib.faces@[w])@.id == k);
    if w < i {
        assert((lib.faces@[w])@.id != (lib.faces@[i])@.id);
    } else if i < w {
        assert((lib.faces@[i])@.id != (lib.faces@[w])@.id);
    }
}

/// In a well-formed library, a face key distinct from the one at
/// position `j` is held before `j` exactly when it is held before
/// `j + 1`.
proof fn lemma_face_processed_shift(other: Library, k: FaceKey, j: int)
    requires
        other.wf(),
        0 <= j < other.faces@.len(),
        other.has_face(k),
        k != (other.faces@[j])@.id,
    ensures
        (other.face_index(k) < j) == (other.face_index(k) < j + 1),
{
    let w = other.face_index(k);
    assert(0 <= w < other.faces@.len() && (other.faces@[w])@.id == k);
    if w == j {
        assert(k == (other.faces@[j])@.id);
    }
}

/// A library that extends `snap`'s inserts by one entry with a fresh
/// key keeps every other key's presence and entry unchanged.
proof fn lemma_insert_frame_push(snap: Library, post: Library, k: InsertKey)
    requires
        snap.wf(),
        post.inserts@.len() == snap.inserts@.len() + 1,
        forall|x: int|
            0 <= x < snap.inserts@.len() ==> #[trigger] post.inserts@[x] == snap.inserts@[x],
        forall|a: int, b: int|
            0 <= a < b < post.inserts@.len() ==> (#[trigger] post.inserts@[a])@.id != (
            #[trigger] post.inserts@[b])@.id,
        k != (post.inserts@[post.inserts@.len() - 1])@.id,
    ensures
        post.has_insert(k) == snap.has_insert(k),
        snap.has_insert(k) ==> post.spec_insert(k) == snap.spec_insert(k),
{
    let last = post.inserts@.len() - 1;
    if snap.has_insert(k) {
        let w = snap.insert_index(k);
        snap.lemma_insert_index_is(k, w);
        assert(post.inserts@[w] == snap.inserts@[w]);
        lemma_insert_index_of(post, k, w);
    }
    if post.has_insert(k) {
        let w = post.insert_index(k);
        assert(0 <= w < post.inserts@.len() && (post.inserts@[w])@.id == k);
        assert(w != last);
        assert(snap.inserts@[w] == post.inserts@[w]);
        assert(snap.has_insert(k));
    }
}

/// As [`Library::lemma_insert_index_is`], but relying only on key
/// uniqueness rather than full well-formedness.
proof fn lemma_insert_index_of(lib: Library, k: InsertKey, i: int)
    requires
        forall|a: int, b: int|
            0 <= a < b < lib.inserts@.len() ==> (#[trigger] lib.inserts@[a])@.id != (
            #[trigger] lib.inserts@[b])@.id,
        0 <= i < lib.inserts@.len(),
        (lib.inserts@[i])@.id == k,
    ensures
        lib.has_insert(k),
        lib.insert_index(k) == i,
        lib.spec_insert(k) == (lib.inserts@[i])@,
{
    assert(lib.has_insert(k));
    let w = lib.insert_index(k);
    assert(0 <= w < lib.inserts@.len() && (lib.inserts@[w])@.id == k);
    if w < i {
        assert((lib.inserts@[w])@.id != (lib.inserts@[i])@.id);
    } else if i < w {
        assert((lib.inserts@[i])@.id != (lib.inserts@[w])@.id);
    }
}

/// In a well-formed library, an insert key distinct from the one at
/// position `j` is held before `j` exactly when it is held before
/// `j + 1`.
proof fn lemma_insert_processed_shift(other: Library, k: InsertKey, j: int)
    requires
        other.wf(),
        0 <= j < other.inserts@.len(),
        other.has_insert(k),
        k != (other.inserts@[j])@.id,
    ensures
        (other.insert_index(k) < j) == (other.insert_index(k) < j + 1),
{
    let w = other.insert_index(k);
    assert(0 <= w < other.inserts@.len() && (other.inserts@[w])@.id == k);
    if w == j {
        assert(k == (other.inserts@[j])@.id);
    }
}

impl Library {
    /// Folds the face index of `other` into `self`: a face key absent
    /// from `self` is inserted; an existing entry is never
    /// overwritten.
    fn merge_faces_from(&mut self, other: &Library)
        requires
            old(self).wf(),
            other.wf(),
        ensures
            final(self).wf(),
            final(self).cards@ == old(self).cards@,
            final(self).inserts@ == old(self).inserts@,
            faces_merged_upto(*old(self), *other, *final(self), other.faces@.len() as int),
    {
        let ghost pre = *self;
        let mut j: usize = 0;
        while j < other.faces.len()
            invariant
                self.wf(),
                other.wf(),
                pre.wf(),
                self.cards@ == pre.cards@,
                self.inserts@ == pre.inserts@,
                j <= other.faces@.len(),
                faces_merged_upto(pre, *other, *self, j as int),
            decreases other.faces@.len() - j,
        {
            let of = &other.faces[j];
            proof {
                other.lemma_face_index_is(of.id@, j as int);
            }
            let ghost k_j = of.id@;
            if !self.has_face_exec(&of.id) {
                let entry = of.clone();
                let ghost snap = *self;
                self.faces.push(entry);
                proof {
                    let last = self.faces@.len() - 1;
                    assert forall|a: int, b: int| 0 <= a < b < self.faces@.len() implies (
                    #[trigger] self.faces@[a])@.id != (#[trigger] self.faces@[b])@.id by {
                        if b < last {
                            assert((snap.faces@[a])@.id != (snap.faces@[b])@.id);
                        } else {
                            assert((self.faces@[b])@.id == k_j);
                            if (self.faces@[a])@.id == k_j {
                                assert(self.faces@[a] == snap.faces@[a]);
                                assert(snap.has_face(k_j));
                            }
                        }
                    };
                    assert(self.wf());
                    lemma_face_index_of(*self, k_j, last);
                    assert(other.spec_face(k_j) == (other.faces@[j as int])@);
                    assert(!pre.has_face(k_j));
                    assert forall|k: FaceKey| #[trigger] self.has_face(k) == (pre.has_face(k) || (
                    other.has_face(k) && other.face_index(k) < j + 1)) by {
                        if k == k_j {
                            assert(self.has_face(k_j));
                        } else {
                            lemma_face_frame_push(snap, *self, k);
                            if other.has_face(k) {
                                lemma_face_processed_shift(*other, k, j as int);
                            }
                        }
                    };
                    assert forall|k: FaceKey| pre.has_face(k) implies #[trigger] self.spec_face(k)
                        == pre.spec_face(k) by {
                        assert(k != k_j);
                        assert(snap.has_face(k));
                        lemma_face_frame_push(snap, *self, k);
                    };
                    assert forall|k: FaceKey|
                        (!pre.has_face(k) && other.has_face(k) && other.face_index(k) < j
                            + 1) implies #[trigger] self.spec_face(k) == other.spec_face(k) by {
                        if k == k_j {
                        } else {
                            lemma_face_processed_shift(*other, k, j as int);
                            assert(other.face_index(k) < j);
                            assert(snap.has_face(k));
                            lemma_face_frame_push(snap, *self, k);
                        }
                    };
                }
            } else {
                proof {
                    assert(self.has_face(k_j));
                    assert forall|k: FaceKey| #[trigger] self.has_face(k) == (pre.has_face(k) || (
                    other.has_face(k) && other.face_index(k) < j + 1)) by {
                        if k != k_j && other.has_face(k) {
                            lemma_face_processed_shift(*other, k, j as int);
                        }
                    };
                    assert forall|k: FaceKey|
                        (!pre.has_face(k) && other.has_face(k) && other.face_index(k) < j
                            + 1) implies #[trigger] self.spec_face(k) == other.spec_face(k) by {
                        if k != k_j {
                            lemma_face_processed_shift(*other, k, j as int);
                        }
                    };
                }
            }
            j = j + 1;
        }
    }

    /// Folds the inserts of `other` into `self`: an insert key absent
    /// from `self` is inserted; an existing entry is never
    /// overwritten.
    fn merge_inserts_from(&mut self, other: &Library)
        requires
            old(self).wf(),
            other.wf(),
        ensures
            final(self).wf(),
            final(self).cards@ == old(self).cards@,
            final(self).faces@ == old(self).faces@,
            inserts_merged_upto(*old(self), *other, *final(self), other.inserts@.len() as int),
    {
        let ghost pre = *self;
        let mut j: usize = 0;
        while j < other.inserts.len()
            invariant
                self.wf(),
                other.wf(),
                pre.wf(),
                self.cards@ == pre.cards@,
                self.faces@ == pre.faces@,
                j <= other.inserts@.len(),
                inserts_merged_upto(pre, *other, *self, j as int),
            decreases other.inserts@.len() - j,
        {
            let oi = &other.inserts[j];
            proof {
                other.lemma_insert_index_is(oi.id@, j as int);
            }
            let ghost k_j = oi.id@;
            if !self.has_insert_exec(&oi.id) {
                let entry = oi.clone();
                let ghost snap = *self;
                proof {
                    assert(entry@ == oi@);
                }
                self.inserts.push(entry);
                proof {
                    let last = self.inserts@.len() - 1;
                    assert((self.inserts@[last])@ == (other.inserts@[j as int])@);
                    assert forall|a: int, b: int| 0 <= a < b < self.inserts@.len() implies (
                    #[trigger] self.inserts@[a])@.id != (#[trigger] self.inserts@[b])@.id by {
                        if b < last {
                            assert((snap.inserts@[a])@.id != (snap.inserts@[b])@.id);
                        } else {
                            assert((self.inserts@[b])@.id == k_j);
                            if (self.inserts@[a])@.id == k_j {
                                assert(self.inserts@[a] == snap.inserts@[a]);
                                assert(snap.has_insert(k_j));
                            }
                        }
                    };
                    assert(self.wf());
                    lemma_insert_index_of(*self, k_j, last);
                    assert(other.spec_insert(k_j) == (other.inserts@[j as int])@);
                    assert(!pre.has_insert(k_j));
                    assert forall|k: InsertKey| #[trigger] self.has_insert(k) == (pre.has_insert(k)
                        || (other.has_insert(k) && other.insert_index(k) < j + 1)) by {
                        if k == k_j {
                            assert(self.has_insert(k_j));
                        } else {
                            lemma_insert_frame_push(snap, *self, k);
                            if other.has_insert(k) {
                                lemma_insert_processed_shift(*other, k, j as int);
                            }
                        }
                    };
                    assert forall|k: InsertKey| pre.has_insert(k) implies #[trigger] self.spec_insert(
                        k,
                    ) == pre.spec_insert(k) by {
                        assert(k != k_j);
                        assert(snap.has_insert(k));
                        lemma_insert_frame_push(snap, *self, k);
                    };
                    assert forall|k: InsertKey|
                        (!pre.has_insert(k) && other.has_insert(k) && other.insert_index(k) < j
                            + 1) implies #[trigger] self.spec_insert(k) == other.spec_insert(k) by {
                        if k == k_j {
                        } else {
                            lemma_insert_processed_shift(*other, k, j as int);
                            assert(other.insert_index(k) < j);
                            assert(snap.has_insert(k));
                            lemma_insert_frame_push(snap, *self, k);
                        }
                    };
                }
            } else {
                proof {
                    assert(self.has_insert(k_j));
                    assert forall|k: InsertKey| #[trigger] self.has_insert(k) == (pre.has_insert(k)
                        || (other.has_insert(k) && other.insert_index(k) < j + 1)) by {
                        if k != k_j && other.has_insert(k) {
                            lemma_insert_processed_shift(*other, k, j as int);
                        }
                    };
                    assert forall|k: InsertKey|
                        (!pre.has_insert(k) && other.has_insert(k) && other.insert_index(k) < j
                            + 1) implies #[trigger] self.spec_insert(k) == other.spec_insert(k) by {
                        if k != k_j {
                            lemma_insert_processed_shift(*other, k, j as int);
                        }
                    };
                }
            }
            j = j + 1;
        }
    }

    /// Merges `other` into `self`, additively and base-wins: the key
    /// sets of cards, faces and inserts become the unions of the two
    /// operands' key sets; a card already present keeps its metadata
    /// and unions in `other`'s printings; a face or insert already
    /// present keeps the base entry (first writer wins).
    pub fn merge(&mut self, other: &Library)
        requires
            old(self).wf(),
            other.wf(),
        ensures
            final(self).wf(),
            library_merged(*old(self), *other, *final(self)),
    {
        let ghost pre = *self;
        self.merge_cards_from(other);
        let ghost mid = *self;
        self.merge_faces_from(other);
        let ghost mid2 = *self;
        self.merge_inserts_from(other);
        proof {
            // an index into `other` is always below the length, so the
            // merged-up-to form at full length is the stated union
            assert forall|id: Seq<char>| other.has_card(id) implies 0 <= other.card_index(id)
                < other.cards@.len() by {
                let w = other.card_index(id);
                assert(0 <= w < other.cards@.len() && (other.cards@[w])@.id == id);
            };
            assert forall|k: FaceKey| other.has_face(k) implies 0 <= other.face_index(k)
                < other.faces@.len() by {
                let w = other.face_index(k);
                assert(0 <= w < other.faces@.len() && (other.faces@[w])@.id == k);
            };
            assert forall|k: InsertKey| other.has_insert(k) implies 0 <= other.insert_index(k)
                < other.inserts@.len() by {
                let w = other.insert_index(k);
                assert(0 <= w < other.inserts@.len() && (other.inserts@[w])@.id == k);
            };
            // each pass touched only its own vector
            lemma_same_cards(*self, mid);
            lemma_same_faces(mid, pre);
            lemma_same_faces(*self, mid2);
            lemma_same_inserts(mid2, pre);
            assert forall|id: Seq<char>| #[trigger] self.has_card(id) == (pre.has_card(id)
                || other.has_card(id)) by {
                assert(self.has_card(id) == mid.has_card(id));
            };
            assert forall|id: Seq<char>| pre.has_card(id) implies {
                &&& card_meta_like(#[trigger] self.spec_card(id), pre.spec_card(id))
                &&& forall|k: FaceKey|
                    #![trigger self.spec_card(id).printings.contains(k)]
                    self.spec_card(id).printings.contains(k) == (pre.spec_card(
                        id,
                    ).printings.contains(k) || (other.has_card(id) && other.spec_card(
                        id,
                    ).printings.contains(k)))
            } by {
                assert(mid.has_card(id));
                assert(self.has_card(id));
                assert(self.spec_card(id) == mid.spec_card(id));
            };
            assert forall|id: Seq<char>| (!pre.has_card(id) && other.has_card(id)) implies {
                &&& card_meta_like(#[trigger] self.spec_card(id), other.spec_card(id))
                &&& forall|k: FaceKey|
                    #![trigger self.spec_card(id).printings.contains(k)]
                    self.spec_card(id).printings.contains(k) == other.spec_card(
                        id,
                    ).printings.contains(k)
            } by {
                assert(mid.has_card(id));
                assert(self.has_card(id));
                assert(self.spec_card(id) == mid.spec_card(id));
            };
            assert forall|k: FaceKey| #[trigger] self.has_face(k) == (pre.has_face(k)
                || other.has_face(k)) by {
                assert(self.has_face(k) == mid2.has_face(k));
                assert(mid.has_face(k) == pre.has_face(k));
            };
            assert forall|k: FaceKey| pre.has_face(k) implies #[trigger] self.spec_face(k)
                == pre.spec_face(k) by {
                assert(mid.has_face(k) == pre.has_face(k));
                assert(mid.has_face(k));
                assert(mid.spec_face(k) == pre.spec_face(k));
                assert(mid2.has_face(k));
                assert(mid2.spec_face(k) == mid.spec_face(k));
                assert(self.has_face(k));
                assert(self.spec_face(k) == mid2.spec_face(k));
            };
            assert forall|k: FaceKey| (!pre.has_face(k) && other.has_face(k)) implies
                #[trigger] self.spec_face(k) == other.spec_face(k) by {
                assert(mid.has_face(k) == pre.has_face(k));
                assert(mid2.has_face(k));
                assert(mid2.spec_face(k) == other.spec_face(k));
                assert(self.has_face(k));
                assert(self.spec_face(k) == mid2.spec_face(k));
            };
            assert forall|k: InsertKey| #[trigger] self.has_insert(k) == (pre.has_insert(k)
                || other.has_insert(k)) by {
                assert(mid2.has_insert(k) == pre.has_insert(k));
            };
            assert forall|k: InsertKey| pre.has_insert(k) implies #[trigger] self.spec_insert(k)
                == pre.spec_insert(k) by {
                assert(mid2.has_insert(k) == pre.has_insert(k));
                assert(mid2.has_insert(k));
                assert(mid2.spec_insert(k) == pre.spec_insert(k));
                assert(self.has_insert(k));
                assert(self.spec_insert(k) == mid2.spec_insert(k));
            };
            assert forall|k: InsertKey| (!pre.has_insert(k) && other.has_insert(k)) implies
                #[trigger] self.spec_insert(k) == other.spec_insert(k) by {
                assert(mid2.has_insert(k) == pre.has_insert(k));
                assert(self.has_insert(k));
                assert(self.spec_insert(k) == other.spec_insert(k));
            };
        }
    }
}



/// A local replacement for one printed face's image: when present,
/// its URL supersedes the computed remote URL for that face only.
#[derive(Debug, PartialEq, Eq, Hash)]
pub struct LocalImageOverride {
    pub id: u32,
    pub face_or_variant_specifier: Option<usize>,
    pub print_group: String,
    pub url: String,
}

impl Clone for LocalImageOverride {
    fn clone(&self) -> (r: Self)
        ensures
            r == *self,
    {
        LocalImageOverride {
            id: self.id,
            face_or_variant_specifier: self.face_or_variant_specifier,
            print_group: self.print_group.clone(),
            url: self.url.clone(),
        }
    }
}

/// Whether an override addresses this printed face.
pub open spec fn override_matches(o: LocalImageOverride, k: FaceKey) -> bool {
    o.id == k.id && o.face_or_variant_specifier == k.face && o.print_group@ == k.print_group
}

/// The URL of the first override in `s` addressing `k`, if any.
pub open spec fn spec_local_image_url(s: Seq<LocalImageOverride>, k: FaceKey) -> Option<Seq<char>>
    decreases s.len(),
{
    if s.len() == 0 {
        Option::None
    } else if override_matches(s[0], k) {
        Option::Some(s[0].url@)
    } else {
        spec_local_image_url(s.skip(1), k)
    }
}

/// Scanning past non-matching overrides does not change the answer.
proof fn lemma_local_image_skip(s: Seq<LocalImageOverride>, k: FaceKey, i: int)
    requires
        0 <= i <= s.len(),
        forall|j: int| 0 <= j < i ==> !override_matches(s[j], k),
    ensures
        spec_local_image_url(s, k) == spec_local_image_url(s.skip(i), k),
    decreases i,
{
    if i == 0 {
        assert(s.skip(0) =~= s);
    } else {
        assert(forall|j: int| 0 <= j < i - 1 ==> !override_matches(s.skip(1)[j], k));
        lemma_local_image_skip(s.skip(1), k, i - 1);
        assert(s.skip(1).skip(i - 1) =~= s.skip(i));
    }
}

/// One catalog group of a [`MultiLibrary`]: the group's name and its
/// library.
#[derive(Debug, PartialEq, Eq)]
pub struct LibraryEntry {
    pub group: String,
    pub library: Library,
}

/// The display name of one catalog group.
#[derive(Debug, PartialEq, Eq)]
pub struct CollectionName {
    pub group: String,
    pub name: String,
}

impl Clone for CollectionName {
    fn clone(&self) -> (r: Self)
        ensures
            r == *self,
    {
        CollectionName { group: self.group.clone(), name: self.name.clone() }
    }
}

/// One translation of a third-party printing id to the id the catalog
/// uses.
#[derive(Debug, PartialEq, Eq, Hash)]
pub struct NrdbRemapEntry {
    pub from: u32,
    pub to: u32,
}

impl Clone for NrdbRemapEntry {
    fn clone(&self) -> (r: Self)
        ensures
            r == *self,
    {
        NrdbRemapEntry { from: self.from, to: self.to }
    }
}

/// The whole catalog: one library per print group, display names for
/// the groups, translations of third-party printing ids, and local
/// image overrides (earlier overrides take precedence).
#[derive(Debug, PartialEq, Eq)]
pub struct MultiLibrary {
    /// The groups' libraries, keyed by `group`.
    pub libraries: Vec<LibraryEntry>,
    /// The groups' display names, keyed by `group`.
    pub collection_names: Vec<CollectionName>,
    /// Third-party printing id translations, keyed by `from`.
    pub nrdb_remap: Vec<NrdbRemapEntry>,
    /// Local image overrides, in priority order (first match wins).
    pub local_images: Vec<LocalImageOverride>,
}

impl MultiLibrary {
    /// An empty catalog.
    pub fn new() -> (r: MultiLibrary)
        ensures
            r.wf(),
            r.libraries@.len() == 0,
            r.collection_names@.len() == 0,
            r.nrdb_remap@.len() == 0,
            r.local_images@.len() == 0,
    {
        MultiLibrary {
            libraries: Vec::new(),
            collection_names: Vec::new(),
            nrdb_remap: Vec::new(),
            local_images: Vec::new(),
        }
    }

    /// No group, name or translation key repeats, and every group's
    /// library is well-formed.
    pub open spec fn wf(self) -> bool {
        &&& forall|i: int, j: int|
            0 <= i < j < self.libraries@.len() ==> (#[trigger] self.libraries@[i]).group@ != (
            #[trigger] self.libraries@[j]).group@
        &&& forall|i: int| 0 <= i < self.libraries@.len() ==> (#[trigger] self.libraries@[i]).library.wf()
        &&& forall|i: int, j: int|
            0 <= i < j < self.collection_names@.len() ==> (#[trigger] self.collection_names@[i]).group@
                != (#[trigger] self.collection_names@[j]).group@
        &&& forall|i: int, j: int|
            0 <= i < j < self.nrdb_remap@.len() ==> (#[trigger] self.nrdb_remap@[i]).from != (
            #[trigger] self.nrdb_remap@[j]).from
    }

    /// Whether the catalog holds a library for this group.
    pub open spec fn has_group(self, g: Seq<char>) -> bool {
        exists|i: int| 0 <= i < self.libraries@.len() && (#[trigger] self.libraries@[i]).group@ == g
    }

    /// The position of this group's library.
    pub open spec fn group_index(self, g: Seq<char>) -> int {
        choose|i: int| 0 <= i < self.libraries@.len() && (#[trigger] self.libraries@[i]).group@ == g
    }

    /// This group's library.
    pub open spec fn spec_group(self, g: Seq<char>) -> Library {
        self.libraries@[self.group_index(g)].library
    }

    /// Whether the catalog holds a display name for this group.
    pub open spec fn has_collection_name(self, g: Seq<char>) -> bool {
        exists|i: int|
            0 <= i < self.collection_names@.len() && (#[trigger] self.collection_names@[i]).group@
                == g
    }

    /// The display name of this group.
    pub open spec fn spec_collection_name(self, g: Seq<char>) -> Seq<char> {
        self.collection_names@[choose|i: int|
            0 <= i < self.collection_names@.len() && (#[trigger] self.collection_names@[i]).group@
                == g].name@
    }

    /// Whether the catalog translates this third-party printing id.
    pub open spec fn has_remap(self, from: u32) -> bool {
        exists|i: int|
            0 <= i < self.nrdb_remap@.len() && (#[trigger] self.nrdb_remap@[i]).from == from
    }

    /// The translation of this third-party printing id.
    pub open spec fn spec_remap(self, from: u32) -> u32 {
        self.nrdb_remap@[choose|i: int|
            0 <= i < self.nrdb_remap@.len() && (#[trigger] self.nrdb_remap@[i]).from == from].to
    }

    /// Under well-formedness the group index of a held group is the
    /// one position holding it.
    pub proof fn lemma_group_index_is(self, g: Seq<char>, i: int)
        requires
            self.wf(),
            0 <= i < self.libraries@.len(),
            (self.libraries@[i]).group@ == g,
        ensures
            self.has_group(g),
            self.group_index(g) == i,
            self.spec_group(g) == self.libraries@[i].library,
    {
        assert(self.has_group(g));
        let w = self.group_index(g);
        assert(0 <= w < self.libraries@.len() && (self.libraries@[w]).group@ == g);
        if w < i {
            assert((self.libraries@[w]).group@ != (self.libraries@[i]).group@);
        } else if i < w {
            assert((self.libraries@[i]).group@ != (self.libraries@[w]).group@);
        }
    }

    /// This group's library, if the catalog holds one.
    pub fn find_group(&self, group: &str) -> (r: Option<&Library>)
        requires
            self.wf(),
        ensures
            r.is_some() == self.has_group(group@),
            r matches Some(l) ==> *l == self.spec_group(group@) && l.wf(),
    {
        let mut i: usize = 0;
        while i < self.libraries.len()
            invariant
                self.wf(),
                i <= self.libraries@.len(),
                forall|j: int| 0 <= j < i ==> (#[trigger] self.libraries@[j]).group@ != group@,
            decreases self.libraries@.len() - i,
        {
            if str_eq(self.libraries[i].group.as_str(), group) {
                proof {
                    self.lemma_group_index_is(group@, i as int);
                }
                return Some(&self.libraries[i].library);
            }
            i = i + 1;
        }
        None
    }

    /// The translation the catalog applies to a third-party printing
    /// id: its remap entry if one exists, else the id itself.
    pub open spec fn spec_remap_or_self(self, from: u32) -> u32 {
        if self.has_remap(from) {
            self.spec_remap(from)
        } else {
            from
        }
    }

    /// Translates a third-party printing id through the remap table;
    /// an id without an entry stands for itself.
    pub fn remap_nrdb_id(&self, from: u32) -> (r: u32)
        requires
            self.wf(),
        ensures
            r == self.spec_remap_or_self(from),
    {
        let mut i: usize = 0;
        while i < self.nrdb_remap.len()
            invariant
                self.wf(),
                i <= self.nrdb_remap@.len(),
                forall|j: int| 0 <= j < i ==> (#[trigger] self.nrdb_remap@[j]).from != from,
            decreases self.nrdb_remap@.len() - i,
        {
            if self.nrdb_remap[i].from == from {
                proof {
                    assert(self.has_remap(from));
                    let w = choose|w: int|
                        0 <= w < self.nrdb_remap@.len() && (#[trigger] self.nrdb_remap@[w]).from
                            == from;
                    if w < i as int {
                        assert((self.nrdb_remap@[w]).from != (self.nrdb_remap@[i as int]).from);
                    } else if w > i as int {
                        assert((self.nrdb_remap@[i as int]).from != (self.nrdb_remap@[w]).from);
                    }
                }
                return self.nrdb_remap[i].to;
            }
            i = i + 1;
        }
        from
    }

    /// The overriding local URL for a printed face, if an override
    /// addresses it: the first matching override wins.
    pub fn local_image_url(&self, printing: &CardFacePrintingId) -> (r: Option<&str>)
        ensures
            r.is_some() == spec_local_image_url(self.local_images@, printing@).is_some(),
            r matches Some(u) ==> Option::Some(u@) == spec_local_image_url(
                self.local_images@,
                printing@,
            ),
    {
        let mut i: usize = 0;
        while i < self.local_images.len()
            invariant
                i <= self.local_images@.len(),
                forall|j: int|
                    0 <= j < i ==> !override_matches(#[trigger] self.local_images@[j], printing@),
            decreases self.local_images@.len() - i,
        {
            let o = &self.local_images[i];
            let face_eq = match (o.face_or_variant_specifier, printing.face_or_variant_specifier) {
                (Option::None, Option::None) => true,
                (Option::Some(x), Option::Some(y)) => x == y,
                _ => false,
            };
            if o.id == printing.id && face_eq && str_eq(
                o.print_group.as_str(),
                printing.print_group.as_str(),
            ) {
                proof {
                    lemma_local_image_skip(self.local_images@, printing@, i as int);
                    assert(override_matches(self.local_images@.skip(i as int)[0], printing@));
                }
                return Some(self.local_images[i].url.as_str());
            }
            i = i + 1;
        }
        proof {
            lemma_local_image_skip(self.local_images@, printing@, i as int);
        }
        None
    }
}



/// Whether some printing in `keys` carries face specifier `f`.
pub open spec fn has_face_spec(keys: Seq<FaceKey>, f: usize) -> bool {
    exists|i: int| 0 <= i < keys.len() && (#[trigger] keys[i]).face == Option::Some(f)
}

impl CardMetadata {
    /// The printing preferred for face specifier `face`: the greatest
    /// matching printing in the face order, so the most recently
    /// added printing of a face wins.
    pub fn preferred_printing(&self, face: usize) -> (r: Option<&CardFacePrintingId>)
        requires
            self@.wf(),
        ensures
            r.is_some() == has_face_spec(self@.printings, face),
            r matches Some(p) ==> p@.face == Option::Some(face) && self@.printings.contains(p@)
                && (forall|i: int|
                0 <= i < self@.printings.len() && (#[trigger] self@.printings[i]).face
                    == Option::Some(face) ==> (self@.printings[i] == p@ || face_key_lt(
                    self@.printings[i],
                    p@,
                ))),
    {
        let mut i: usize = self.printings.len();
        while i > 0
            invariant
                self@.wf(),
                i <= self.printings@.len(),
                forall|j: int|
                    i <= j < self.printings@.len() ==> (#[trigger] self@.printings[j]).face
                        != Option::Some(face),
            decreases i,
        {
            i = i - 1;
            let matches_face = match self.printings[i].face_or_variant_specifier {
                Option::Some(f) => f == face,
                Option::None => false,
            };
            if matches_face {
                proof {
                    assert(self@.printings[i as int] == (self.printings@[i as int])@);
                    assert(has_face_spec(self@.printings, face));
                    assert forall|j: int|
                        0 <= j < self@.printings.len() && (#[trigger] self@.printings[j]).face
                            == Option::Some(face) implies (self@.printings[j] == self@.printings[
                        i as int
                    ] || face_key_lt(self@.printings[j], self@.printings[i as int])) by {
                        if j > i as int {
                            assert(self@.printings[j].face != Option::Some(face));
                        }
                    };
                    assert(self@.printings.contains(self@.printings[i as int]));
                }
                return Some(&self.printings[i]);
            }
        }
        None
    }

    /// The greatest printing overall, preferred for a single-faced
    /// card.
    pub fn last_printing(&self) -> (r: Option<&CardFacePrintingId>)
        ensures
            r.is_some() == (self@.printings.len() > 0),
            r matches Some(p) ==> p@ == self@.printings.last(),
    {
        if self.printings.len() > 0 {
            Some(&self.printings[self.printings.len() - 1])
        } else {
            None
        }
    }
}



/// Whether one of the first `p` entries of `s` carries group `g`.
pub open spec fn entries_have_group(s: Seq<LibraryEntry>, p: int, g: Seq<char>) -> bool {
    exists|l: int| 0 <= l < p && (#[trigger] s[l]).group@ == g
}

/// The library of the entry of `s` carrying group `g`.
pub open spec fn entry_library(s: Seq<LibraryEntry>, g: Seq<char>) -> Library {
    s[choose|l: int| 0 <= l < s.len() && (#[trigger] s[l]).group@ == g].library
}

/// With unique groups, the entry of a held group is the one entry
/// holding it.
proof fn lemma_entry_library_of(s: Seq<LibraryEntry>, g: Seq<char>, i: int)
    requires
        forall|a: int, b: int|
            0 <= a < b < s.len() ==> (#[trigger] s[a]).group@ != (#[trigger] s[b]).group@,
        0 <= i < s.len(),
        (s[i]).group@ == g,
    ensures
        entries_have_group(s, s.len() as int, g),
        entry_library(s, g) == s[i].library,
{
    assert(entries_have_group(s, s.len() as int, g));
    let w = choose|l: int| 0 <= l < s.len() && (#[trigger] s[l]).group@ == g;
    assert(0 <= w < s.len() && (s[w]).group@ == g);
    if w < i {
        assert((s[w]).group@ != (s[i]).group@);
    } else if i < w {
        assert((s[i]).group@ != (s[w]).group@);
    }
}

impl MultiLibrary {
    /// Position of this group's library, if the catalog holds one.
    fn find_group_index(&self, group: &str) -> (r: Option<usize>)
        requires
            self.wf(),
        ensures
            r.is_some() == self.has_group(group@),
            r matches Some(i) ==> 0 <= i < self.libraries@.len() && (
            self.libraries@[i as int]).group@ == group@ && self.group_index(group@) == i,
    {
        let mut i: usize = 0;
        while i < self.libraries.len()
            invariant
                self.wf(),
                i <= self.libraries@.len(),
                forall|j: int| 0 <= j < i ==> (#[trigger] self.libraries@[j]).group@ != group@,
            decreases self.libraries@.len() - i,
        {
            if str_eq(self.libraries[i].group.as_str(), group) {
                proof {
                    self.lemma_group_index_is(group@, i as int);
                }
                return Some(i);
            }
            i = i + 1;
        }
        None
    }

    /// Merges an overlay catalog into this one, per group: a group of
    /// both catalogs has the overlay's library merged into the base
    /// library; a group only the overlay has is inserted whole.
    /// Display names and id translations are overwritten per key (the
    /// overlay wins), and the overlay's local image overrides are
    /// appended after the base's, so the base's keep priority.
    pub fn merge_overlay(&mut self, overlay: MultiLibrary)
        requires
            old(self).wf(),
            overlay.wf(),
        ensures
            final(self).wf(),
            forall|g: Seq<char>|
                #![trigger final(self).has_group(g)]
                final(self).has_group(g) == (old(self).has_group(g) || overlay.has_group(g)),
            forall|g: Seq<char>|
                #![trigger final(self).spec_group(g)]
                (old(self).has_group(g) && overlay.has_group(g)) ==> library_merged(
                    old(self).spec_group(g),
                    overlay.spec_group(g),
                    final(self).spec_group(g),
                ),
            forall|g: Seq<char>|
                #![trigger final(self).spec_group(g)]
                (old(self).has_group(g) && !overlay.has_group(g)) ==> final(self).spec_group(g)
                    == old(self).spec_group(g),
            forall|g: Seq<char>|
                #![trigger final(self).spec_group(g)]
                (!old(self).has_group(g) && overlay.has_group(g)) ==> final(self).spec_group(g)
                    == overlay.spec_group(g),
            forall|g: Seq<char>|
                #![trigger final(self).has_collection_name(g)]
                final(self).has_collection_name(g) == (old(self).has_collection_name(g)
                    || overlay.has_collection_name(g)),
            forall|g: Seq<char>|
                #![trigger final(self).spec_collection_name(g)]
                overlay.has_collection_name(g) ==> final(self).spec_collection_name(g)
                    == overlay.spec_collection_name(g),
            forall|g: Seq<char>|
                #![trigger final(self).spec_collection_name(g)]
                (old(self).has_collection_name(g) && !overlay.has_collection_name(g))
                    ==> final(self).spec_collection_name(g) == old(self).spec_collection_name(g),
            forall|from: u32|
                #![trigger final(self).has_remap(from)]
                final(self).has_remap(from) == (old(self).has_remap(from) || overlay.has_remap(
                    from,
                )),
            forall|from: u32|
                #![trigger final(self).spec_remap(from)]
                overlay.has_remap(from) ==> final(self).spec_remap(from) == overlay.spec_remap(
                    from,
                ),
            forall|from: u32|
                #![trigger final(self).spec_remap(from)]
                (old(self).has_remap(from) && !overlay.has_remap(from)) ==> final(self).spec_remap(
                    from,
                ) == old(self).spec_remap(from),
            final(self).local_images@ == old(self).local_images@ + overlay.local_images@,
    {
        let ghost ov = overlay;
        let MultiLibrary { libraries, collection_names, nrdb_remap, mut local_images } = overlay;
        let ghost pre = *self;
        self.merge_overlay_libraries(libraries);
        let ghost mid1 = *self;
        self.merge_overlay_names(collection_names);
        let ghost mid2 = *self;
        self.merge_overlay_remaps(nrdb_remap);
        let ghost mid3 = *self;
        self.local_images.append(&mut local_images);
        proof {
            // the group facts carry through the later passes untouched
            assert(self.libraries@ == mid1.libraries@);
            assert(self.collection_names@ == mid2.collection_names@);
            assert(self.nrdb_remap@ == mid3.nrdb_remap@);
            // relate per-entry facts about the moved vectors back to the
            // overlay's own lookups
            assert forall|g: Seq<char>| #[trigger]
                entries_have_group(ov.libraries@, ov.libraries@.len() as int, g) == ov.has_group(
                g,
            ) by {
                if entries_have_group(ov.libraries@, ov.libraries@.len() as int, g) {
                    let l = choose|l: int|
                        0 <= l < ov.libraries@.len() && (#[trigger] ov.libraries@[l]).group@ == g;
                    assert(ov.has_group(g));
                }
                if ov.has_group(g) {
                    let l = ov.group_index(g);
                    assert(0 <= l < ov.libraries@.len() && (ov.libraries@[l]).group@ == g);
                    assert(entries_have_group(ov.libraries@, ov.libraries@.len() as int, g));
                }
            };
            assert forall|g: Seq<char>| ov.has_group(g) implies #[trigger] entry_library(
                ov.libraries@,
                g,
            ) == ov.spec_group(g) by {
                let l = ov.group_index(g);
                assert(0 <= l < ov.libraries@.len() && (ov.libraries@[l]).group@ == g);
                lemma_entry_library_of(ov.libraries@, g, l);
            };
            assert forall|g: Seq<char>| #[trigger]
                entries_have_name(ov.collection_names@, ov.collection_names@.len() as int, g)
                == ov.has_collection_name(g) by {
                if entries_have_name(ov.collection_names@, ov.collection_names@.len() as int, g) {
                    let l = choose|l: int|
                        0 <= l < ov.collection_names@.len() && (
                        #[trigger] ov.collection_names@[l]).group@ == g;
                    assert(ov.has_collection_name(g));
                }
                if ov.has_collection_name(g) {
                    let l = choose|i: int|
                        0 <= i < ov.collection_names@.len() && (
                        #[trigger] ov.collection_names@[i]).group@ == g;
                    assert(entries_have_name(
                        ov.collection_names@,
                        ov.collection_names@.len() as int,
                        g,
                    ));
                }
            };
            assert forall|g: Seq<char>| ov.has_collection_name(g) implies #[trigger] entry_name(
                ov.collection_names@,
                g,
            ) == ov.spec_collection_name(g) by {
                let l = choose|i: int|
                    0 <= i < ov.collection_names@.len() && (
                    #[trigger] ov.collection_names@[i]).group@ == g;
                lemma_entry_name_of(ov.collection_names@, g, l);
                let l2 = choose|l2: int|
                    0 <= l2 < ov.collection_names@.len() && (
                    #[trigger] ov.collection_names@[l2]).group@ == g;
                lemma_entry_name_of(ov.collection_names@, g, l2);
            };
            assert forall|from: u32| #[trigger]
                entries_have_remap(ov.nrdb_remap@, ov.nrdb_remap@.len() as int, from)
                == ov.has_remap(from) by {
                if entries_have_remap(ov.nrdb_remap@, ov.nrdb_remap@.len() as int, from) {
                    let l = choose|l: int|
                        0 <= l < ov.nrdb_remap@.len() && (#[trigger] ov.nrdb_remap@[l]).from
                            == from;
                    assert(ov.has_remap(from));
                }
                if ov.has_remap(from) {
                    let l = choose|i: int|
                        0 <= i < ov.nrdb_remap@.len() && (#[trigger] ov.nrdb_remap@[i]).from
                            == from;
                    assert(entries_have_remap(ov.nrdb_remap@, ov.nrdb_remap@.len() as int, from));
                }
            };
            assert forall|from: u32| ov.has_remap(from) implies #[trigger] entry_remap(
                ov.nrdb_remap@,
                from,
            ) == ov.spec_remap(from) by {
                let l = choose|i: int|
                    0 <= i < ov.nrdb_remap@.len() && (#[trigger] ov.nrdb_remap@[i]).from == from;
                lemma_entry_remap_of(ov.nrdb_remap@, from, l);
            };
            // lookups on untouched vectors carry across the passes
            lemma_same_groups(mid1, mid2);
            lemma_same_groups(mid2, mid3);
            lemma_same_groups(mid3, *self);
            lemma_same_names(mid2, mid3);
            lemma_same_names(mid3, *self);
            lemma_same_names(mid1, pre);
            lemma_same_remaps(mid3, *self);
            lemma_same_remaps(mid1, pre);
            lemma_same_remaps(mid2, mid1);
            let olen = ov.libraries@.len() as int;
            assert forall|g: Seq<char>| #[trigger]
                self.has_group(g) == (pre.has_group(g) || ov.has_group(g)) by {
                assert(mid1.has_group(g) == (pre.has_group(g) || entries_have_group(
                    ov.libraries@,
                    olen,
                    g,
                )));
                assert(mid1.has_group(g) == mid2.has_group(g));
                assert(mid2.has_group(g) == mid3.has_group(g));
                assert(mid3.has_group(g) == self.has_group(g));
            };
            assert forall|g: Seq<char>| self.has_group(g) implies #[trigger] self.spec_group(g)
                == mid1.spec_group(g) by {
                assert(mid1.has_group(g) == mid2.has_group(g));
                assert(mid2.has_group(g) == mid3.has_group(g));
                assert(mid3.has_group(g) == self.has_group(g));
                assert(mid1.has_group(g));
                assert(mid2.has_group(g));
                assert(mid3.has_group(g));
                assert(mid1.spec_group(g) == mid2.spec_group(g));
                assert(mid2.spec_group(g) == mid3.spec_group(g));
                assert(mid3.spec_group(g) == self.spec_group(g));
            };
            assert forall|g: Seq<char>|
                (pre.has_group(g) && ov.has_group(g)) implies library_merged(
                pre.spec_group(g),
                ov.spec_group(g),
                #[trigger] self.spec_group(g),
            ) by {
                assert(entries_have_group(ov.libraries@, olen, g));
                assert(mid1.has_group(g));
                assert(library_merged(
                    pre.spec_group(g),
                    entry_library(ov.libraries@, g),
                    mid1.spec_group(g),
                ));
                assert(entry_library(ov.libraries@, g) == ov.spec_group(g));
                assert(self.has_group(g));
                assert(self.spec_group(g) == mid1.spec_group(g));
            };
            assert forall|g: Seq<char>|
                (pre.has_group(g) && !ov.has_group(g)) implies #[trigger] self.spec_group(g)
                == pre.spec_group(g) by {
                assert(!entries_have_group(ov.libraries@, olen, g));
                assert(mid1.has_group(g));
                assert(mid1.spec_group(g) == pre.spec_group(g));
                assert(self.has_group(g));
                assert(self.spec_group(g) == mid1.spec_group(g));
            };
            assert forall|g: Seq<char>|
                (!pre.has_group(g) && ov.has_group(g)) implies #[trigger] self.spec_group(g)
                == ov.spec_group(g) by {
                assert(entries_have_group(ov.libraries@, olen, g));
                assert(mid1.has_group(g));
                assert(mid1.spec_group(g) == entry_library(ov.libraries@, g));
                assert(entry_library(ov.libraries@, g) == ov.spec_group(g));
                assert(self.has_group(g));
                assert(self.spec_group(g) == mid1.spec_group(g));
            };
            let nlen = ov.collection_names@.len() as int;
            assert forall|g: Seq<char>| #[trigger]
                self.has_collection_name(g) == (pre.has_collection_name(g)
                || ov.has_collection_name(g)) by {
                assert(mid2.has_collection_name(g) == (mid1.has_collection_name(g)
                    || entries_have_name(ov.collection_names@, nlen, g)));
                assert(mid1.has_collection_name(g) == pre.has_collection_name(g));
                assert(mid2.has_collection_name(g) == mid3.has_collection_name(g));
                assert(mid3.has_collection_name(g) == self.has_collection_name(g));
            };
            assert forall|g: Seq<char>|
                self.has_collection_name(g) implies #[trigger] self.spec_collection_name(g)
                == mid2.spec_collection_name(g) by {
                assert(mid2.has_collection_name(g) == mid3.has_collection_name(g));
                assert(mid3.has_collection_name(g) == self.has_collection_name(g));
                assert(mid2.has_collection_name(g));
                assert(mid3.has_collection_name(g));
                assert(mid2.spec_collection_name(g) == mid3.spec_collection_name(g));
                assert(mid3.spec_collection_name(g) == self.spec_collection_name(g));
            };
            assert forall|g: Seq<char>|
                ov.has_collection_name(g) implies #[trigger] self.spec_collection_name(g)
                == ov.spec_collection_name(g) by {
                assert(entries_have_name(ov.collection_names@, nlen, g));
                assert(mid2.spec_collection_name(g) == entry_name(ov.collection_names@, g));
                assert(entry_name(ov.collection_names@, g) == ov.spec_collection_name(g));
                assert(mid2.has_collection_name(g) == (mid1.has_collection_name(g)
                    || entries_have_name(ov.collection_names@, nlen, g)));
                assert(self.has_collection_name(g));
                assert(self.spec_collection_name(g) == mid2.spec_collection_name(g));
            };
            assert forall|g: Seq<char>|
                (pre.has_collection_name(g) && !ov.has_collection_name(g)) implies
                #[trigger] self.spec_collection_name(g) == pre.spec_collection_name(g) by {
                assert(!entries_have_name(ov.collection_names@, nlen, g));
                assert(mid1.has_collection_name(g) == pre.has_collection_name(g));
                assert(mid1.has_collection_name(g));
                assert(mid2.spec_collection_name(g) == mid1.spec_collection_name(g));
                assert(mid1.spec_collection_name(g) == pre.spec_collection_name(g));
                assert(mid2.has_collection_name(g) == (mid1.has_collection_name(g)
                    || entries_have_name(ov.collection_names@, nlen, g)));
                assert(self.has_collection_name(g));
                assert(self.spec_collection_name(g) == mid2.spec_collection_name(g));
            };
            let rlen = ov.nrdb_remap@.len() as int;
            assert forall|from: u32| #[trigger]
                self.has_remap(from) == (pre.has_remap(from) || ov.has_remap(from)) by {
                assert(mid3.has_remap(from) == (mid2.has_remap(from) || entries_have_remap(
                    ov.nrdb_remap@,
                    rlen,
                    from,
                )));
                assert(mid2.has_remap(from) == mid1.has_remap(from));
                assert(mid1.has_remap(from) == pre.has_remap(from));
                assert(mid3.has_remap(from) == self.has_remap(from));
            };
            assert forall|from: u32|
                self.has_remap(from) implies #[trigger] self.spec_remap(from) == mid3.spec_remap(
                from,
            ) by {
                assert(mid3.has_remap(from) == self.has_remap(from));
                assert(mid3.has_remap(from));
                assert(mid3.spec_remap(from) == self.spec_remap(from));
            };
            assert forall|from: u32|
                ov.has_remap(from) implies #[trigger] self.spec_remap(from) == ov.spec_remap(
                from,
            ) by {
                assert(entries_have_remap(ov.nrdb_remap@, rlen, from));
                assert(mid3.spec_remap(from) == entry_remap(ov.nrdb_remap@, from));
                assert(entry_remap(ov.nrdb_remap@, from) == ov.spec_remap(from));
                assert(mid3.has_remap(from) == (mid2.has_remap(from) || entries_have_remap(
                    ov.nrdb_remap@,
                    rlen,
                    from,
                )));
                assert(self.has_remap(from));
                assert(self.spec_remap(from) == mid3.spec_remap(from));
            };
            assert forall|from: u32|
                (pre.has_remap(from) && !ov.has_remap(from)) implies #[trigger] self.spec_remap(
                from,
            ) == pre.spec_remap(from) by {
                assert(!entries_have_remap(ov.nrdb_remap@, rlen, from));
                assert(mid1.has_remap(from) == pre.has_remap(from));
                assert(mid2.has_remap(from) == mid1.has_remap(from));
                assert(mid2.has_remap(from));
                assert(mid3.spec_remap(from) == mid2.spec_remap(from));
                assert(mid2.spec_remap(from) == mid1.spec_remap(from));
                assert(mid1.spec_remap(from) == pre.spec_remap(from));
                assert(mid3.has_remap(from) == (mid2.has_remap(from) || entries_have_remap(
                    ov.nrdb_remap@,
                    rlen,
                    from,
                )));
                assert(self.has_remap(from));
                assert(self.spec_remap(from) == mid3.spec_remap(from));
            };
            assert(mid3.local_images@ == pre.local_images@);
            assert(self.local_images@ == pre.local_images@ + ov.local_images@);
        }
    }
}



/// Whether one of the first `p` entries of `s` names group `g`.
pub open spec fn entries_have_name(s: Seq<CollectionName>, p: int, g: Seq<char>) -> bool {
    exists|l: int| 0 <= l < p && (#[trigger] s[l]).group@ == g
}

/// The display name the entries of `s` give group `g`.
pub open spec fn entry_name(s: Seq<CollectionName>, g: Seq<char>) -> Seq<char> {
    s[choose|l: int| 0 <= l < s.len() && (#[trigger] s[l]).group@ == g].name@
}

/// With unique groups, the name entry of a held group is the one
/// entry holding it.
proof fn lemma_entry_name_of(s: Seq<CollectionName>, g: Seq<char>, i: int)
    requires
        forall|a: int, b: int|
            0 <= a < b < s.len() ==> (#[trigger] s[a]).group@ != (#[trigger] s[b]).group@,
        0 <= i < s.len(),
        (s[i]).group@ == g,
    ensures
        entries_have_name(s, s.len() as int, g),
        entry_name(s, g) == s[i].name@,
{
    assert(entries_have_name(s, s.len() as int, g));
    let w = choose|l: int| 0 <= l < s.len() && (#[trigger] s[l]).group@ == g;
    assert(0 <= w < s.len() && (s[w]).group@ == g);
    if w < i {
        assert((s[w]).group@ != (s[i]).group@);
    } else if i < w {
        assert((s[i]).group@ != (s[w]).group@);
    }
}

/// Whether one of the first `p` entries of `s` translates `from`.
pub open spec fn entries_have_remap(s: Seq<NrdbRemapEntry>, p: int, from: u32) -> bool {
    exists|l: int| 0 <= l < p && (#[trigger] s[l]).from == from
}

/// The translation the entries of `s` give `from`.
pub open spec fn entry_remap(s: Seq<NrdbRemapEntry>, from: u32) -> u32 {
    s[choose|l: int| 0 <= l < s.len() && (#[trigger] s[l]).from == from].to
}

/// With unique keys, the remap entry of a held key is the one entry
/// holding it.
proof fn lemma_entry_remap_of(s: Seq<NrdbRemapEntry>, from: u32, i: int)
    requires
        forall|a: int, b: int|
            0 <= a < b < s.len() ==> (#[trigger] s[a]).from != (#[trigger] s[b]).from,
        0 <= i < s.len(),
        (s[i]).from == from,
    ensures
        entries_have_remap(s, s.len() as int, from),
        entry_remap(s, from) == s[i].to,
{
    assert(entries_have_remap(s, s.len() as int, from));
    let w = choose|l: int| 0 <= l < s.len() && (#[trigger] s[l]).from == from;
    assert(0 <= w < s.len() && (s[w]).from == from);
    if w < i {
        assert((s[w]).from != (s[i]).from);
    } else if i < w {
        assert((s[i]).from != (s[w]).from);
    }
}

/// Two catalogs with the same library vector agree on every group.
proof fn lemma_same_groups(a: MultiLibrary, b: MultiLibrary)
    requires
        forall|x: int, y: int|
            0 <= x < y < a.libraries@.len() ==> (#[trigger] a.libraries@[x]).group@ != (
            #[trigger] a.libraries@[y]).group@,
        a.libraries@ == b.libraries@,
    ensures
        forall|g: Seq<char>| #[trigger] a.has_group(g) == b.has_group(g),
        forall|g: Seq<char>| #[trigger] a.has_group(g) ==> a.spec_group(g) == b.spec_group(g),
{
    assert forall|g: Seq<char>| #[trigger] a.has_group(g) == b.has_group(g) by {
        if a.has_group(g) {
            let w = a.group_index(g);
            assert((a.libraries@[w]).group@ == g);
            assert((b.libraries@[w]).group@ == g);
            assert(b.has_group(g));
        }
        if b.has_group(g) {
            let w = b.group_index(g);
            assert((b.libraries@[w]).group@ == g);
            assert((a.libraries@[w]).group@ == g);
            assert(a.has_group(g));
        }
    };
    assert forall|g: Seq<char>| #[trigger] a.has_group(g) implies a.spec_group(g) == b.spec_group(
        g,
    ) by {
        let w = a.group_index(g);
        assert(0 <= w < a.libraries@.len() && (a.libraries@[w]).group@ == g);
        let w2 = b.group_index(g);
        assert(0 <= w2 < b.libraries@.len() && (b.libraries@[w2]).group@ == g);
        if w < w2 {
            assert((a.libraries@[w]).group@ != (a.libraries@[w2]).group@);
        } else if w2 < w {
            assert((a.libraries@[w2]).group@ != (a.libraries@[w]).group@);
        }
    };
}

/// Two catalogs with the same name vector agree on every display
/// name.
proof fn lemma_same_names(a: MultiLibrary, b: MultiLibrary)
    requires
        forall|x: int, y: int|
            0 <= x < y < a.collection_names@.len() ==> (#[trigger] a.collection_names@[x]).group@
                != (#[trigger] a.collection_names@[y]).group@,
        a.collection_names@ == b.collection_names@,
    ensures
        forall|g: Seq<char>| #[trigger] a.has_collection_name(g) == b.has_collection_name(g),
        forall|g: Seq<char>| #[trigger]
            a.has_collection_name(g) ==> a.spec_collection_name(g) == b.spec_collection_name(g),
{
    assert forall|g: Seq<char>| #[trigger] a.has_collection_name(g) == b.has_collection_name(
        g,
    ) by {
        if a.has_collection_name(g) {
            let w = choose|i: int|
                0 <= i < a.collection_names@.len() && (#[trigger] a.collection_names@[i]).group@
                    == g;
            assert((b.collection_names@[w]).group@ == g);
            assert(b.has_collection_name(g));
        }
        if b.has_collection_name(g) {
            let w = choose|i: int|
                0 <= i < b.collection_names@.len() && (#[trigger] b.collection_names@[i]).group@
                    == g;
            assert((a.collection_names@[w]).group@ == g);
            assert(a.has_collection_name(g));
        }
    };
    assert forall|g: Seq<char>| #[trigger] a.has_collection_name(g) implies a.spec_collection_name(
        g,
    ) == b.spec_collection_name(g) by {
        let w = choose|i: int|
            0 <= i < a.collection_names@.len() && (#[trigger] a.collection_names@[i]).group@ == g;
        let w2 = choose|i: int|
            0 <= i < b.collection_names@.len() && (#[trigger] b.collection_names@[i]).group@ == g;
        assert((a.collection_names@[w2]).group@ == g);
        if w < w2 {
            assert((a.collection_names@[w]).group@ != (a.collection_names@[w2]).group@);
        } else if w2 < w {
            assert((a.collection_names@[w2]).group@ != (a.collection_names@[w]).group@);
        }
    };
}

/// Two catalogs with the same remap vector agree on every
/// translation.
proof fn lemma_same_remaps(a: MultiLibrary, b: MultiLibrary)
    requires
        forall|x: int, y: int|
            0 <= x < y < a.nrdb_remap@.len() ==> (#[trigger] a.nrdb_remap@[x]).from != (
            #[trigger] a.nrdb_remap@[y]).from,
        a.nrdb_remap@ == b.nrdb_remap@,
    ensures
        forall|from: u32| #[trigger] a.has_remap(from) == b.has_remap(from),
        forall|from: u32| #[trigger] a.has_remap(from) ==> a.spec_remap(from) == b.spec_remap(from),
{
    assert forall|from: u32| #[trigger] a.has_remap(from) == b.has_remap(from) by {
        if a.has_remap(from) {
            let w = choose|i: int|
                0 <= i < a.nrdb_remap@.len() && (#[trigger] a.nrdb_remap@[i]).from == from;
            assert((b.nrdb_remap@[w]).from == from);
            assert(b.has_remap(from));
        }
        if b.has_remap(from) {
            let w = choose|i: int|
                0 <= i < b.nrdb_remap@.len() && (#[trigger] b.nrdb_remap@[i]).from == from;
            assert((a.nrdb_remap@[w]).from == from);
            assert(a.has_remap(from));
        }
    };
    assert forall|from: u32| #[trigger] a.has_remap(from) implies a.spec_remap(from) == b.spec_remap(
        from,
    ) by {
        let w = choose|i: int|
            0 <= i < a.nrdb_remap@.len() && (#[trigger] a.nrdb_remap@[i]).from == from;
        let w2 = choose|i: int|
            0 <= i < b.nrdb_remap@.len() && (#[trigger] b.nrdb_remap@[i]).from == from;
        assert((a.nrdb_remap@[w2]).from == from);
        if w < w2 {
            assert((a.nrdb_remap@[w]).from != (a.nrdb_remap@[w2]).from);
        } else if w2 < w {
            assert((a.nrdb_remap@[w2]).from != (a.nrdb_remap@[w]).from);
        }
    };
}

impl MultiLibrary {
    /// Overwrites or inserts the overlay's display names: the overlay
    /// wins per group.
    fn merge_overlay_names(&mut self, entries: Vec<CollectionName>)
        requires
            old(self).wf(),
            forall|a: int, b: int|
                0 <= a < b < entries@.len() ==> (#[trigger] entries@[a]).group@ != (
                #[trigger] entries@[b]).group@,
        ensures
            final(self).wf(),
            final(self).libraries@ == old(self).libraries@,
            final(self).nrdb_remap@ == old(self).nrdb_remap@,
            final(self).local_images@ == old(self).local_images@,
            forall|g: Seq<char>|
                #![trigger final(self).has_collection_name(g)]
                final(self).has_collection_name(g) == (old(self).has_collection_name(g)
                    || entries_have_name(entries@, entries@.len() as int, g)),
            forall|g: Seq<char>|
                #![trigger final(self).spec_collection_name(g)]
                entries_have_name(entries@, entries@.len() as int, g)
                    ==> final(self).spec_collection_name(g) == entry_name(entries@, g),
            forall|g: Seq<char>|
                #![trigger final(self).spec_collection_name(g)]
                (old(self).has_collection_name(g) && !entries_have_name(
                    entries@,
                    entries@.len() as int,
                    g,
                )) ==> final(self).spec_collection_name(g) == old(self).spec_collection_name(g),
    {
        let ghost pre = *self;
        let ghost oe = entries@;
        let mut entries = entries;
        while entries.len() > 0
            invariant
                self.wf(),
                pre.wf(),
                self.libraries@ == pre.libraries@,
                self.nrdb_remap@ == pre.nrdb_remap@,
                self.local_images@ == pre.local_images@,
                forall|a: int, b: int|
                    0 <= a < b < oe.len() ==> (#[trigger] oe[a]).group@ != (
                    #[trigger] oe[b]).group@,
                entries@.len() <= oe.len(),
                entries@ =~= oe.skip(oe.len() - entries@.len()),
                forall|g: Seq<char>|
                    #![trigger self.has_collection_name(g)]
                    self.has_collection_name(g) == (pre.has_collection_name(g)
                        || entries_have_name(oe, oe.len() - entries@.len(), g)),
                forall|g: Seq<char>|
                    #![trigger self.spec_collection_name(g)]
                    entries_have_name(oe, oe.len() - entries@.len(), g) ==> self.spec_collection_name(
                        g,
                    ) == entry_name(oe, g),
                forall|g: Seq<char>|
                    #![trigger self.spec_collection_name(g)]
                    (pre.has_collection_name(g) && !entries_have_name(
                        oe,
                        oe.len() - entries@.len(),
                        g,
                    )) ==> self.spec_collection_name(g) == pre.spec_collection_name(g),
            decreases entries@.len(),
        {
            let ghost p = oe.len() - entries@.len();
            let e = entries.remove(0);
            proof {
                assert(e == oe[p]);
                assert(entries@ =~= oe.skip(p + 1));
            }
            let ghost g_p = e.group@;
            let ghost snap = *self;
            match self.find_name_index(&e.group) {
                Some(i) => {
                    self.collection_names[i] = e;
                    proof {
                        assert(0 <= i < self.collection_names@.len()
                            && self.collection_names@.len() == snap.collection_names@.len() && (
                        self.collection_names@[i as int]).group@ == g_p
                            && self.collection_names@[i as int].name@ == (oe[p]).name@ && (
                        snap.collection_names@[i as int]).group@ == g_p && (forall|x: int|
                            0 <= x < self.collection_names@.len() && x != i as int
                                ==> #[trigger] self.collection_names@[x]
                                == snap.collection_names@[x]));
                        lemma_names_step(pre, oe, snap, *self, p, g_p);
                    }
                },
                None => {
                    self.collection_names.push(e);
                    proof {
                        lemma_names_step(pre, oe, snap, *self, p, g_p);
                    }
                },
            }
        }
        proof {
            assert(oe.len() - entries@.len() == oe.len());
        }
    }

    /// Overwrites or inserts the overlay's id translations: the
    /// overlay wins per key.
    fn merge_overlay_remaps(&mut self, entries: Vec<NrdbRemapEntry>)
        requires
            old(self).wf(),
            forall|a: int, b: int|
                0 <= a < b < entries@.len() ==> (#[trigger] entries@[a]).from != (
                #[trigger] entries@[b]).from,
        ensures
            final(self).wf(),
            final(self).libraries@ == old(self).libraries@,
            final(self).collection_names@ == old(self).collection_names@,
            final(self).local_images@ == old(self).local_images@,
            forall|from: u32|
                #![trigger final(self).has_remap(from)]
                final(self).has_remap(from) == (old(self).has_remap(from) || entries_have_remap(
                    entries@,
                    entries@.len() as int,
                    from,
                )),
            forall|from: u32|
                #![trigger final(self).spec_remap(from)]
                entries_have_remap(entries@, entries@.len() as int, from)
                    ==> final(self).spec_remap(from) == entry_remap(entries@, from),
            forall|from: u32|
                #![trigger final(self).spec_remap(from)]
                (old(self).has_remap(from) && !entries_have_remap(
                    entries@,
                    entries@.len() as int,
                    from,
                )) ==> final(self).spec_remap(from) == old(self).spec_remap(from),
    {
        let ghost pre = *self;
        let ghost oe = entries@;
        let mut entries = entries;
        while entries.len() > 0
            invariant
                self.wf(),
                pre.wf(),
                self.libraries@ == pre.libraries@,
                self.collection_names@ == pre.collection_names@,
                self.local_images@ == pre.local_images@,
                forall|a: int, b: int|
                    0 <= a < b < oe.len() ==> (#[trigger] oe[a]).from != (#[trigger] oe[b]).from,
                entries@.len() <= oe.len(),
                entries@ =~= oe.skip(oe.len() - entries@.len()),
                forall|from: u32|
                    #![trigger self.has_remap(from)]
                    self.has_remap(from) == (pre.has_remap(from) || entries_have_remap(
                        oe,
                        oe.len() - entries@.len(),
                        from,
                    )),
                forall|from: u32|
                    #![trigger self.spec_remap(from)]
                    entries_have_remap(oe, oe.len() - entries@.len(), from) ==> self.spec_remap(
                        from,
                    ) == entry_remap(oe, from),
                forall|from: u32|
                    #![trigger self.spec_remap(from)]
                    (pre.has_remap(from) && !entries_have_remap(
                        oe,
                        oe.len() - entries@.len(),
                        from,
                    )) ==> self.spec_remap(from) == pre.spec_remap(from),
            decreases entries@.len(),
        {
            let ghost p = oe.len() - entries@.len();
            let e = entries.remove(0);
            proof {
                assert(e == oe[p]);
                assert(entries@ =~= oe.skip(p + 1));
            }
            let ghost f_p = e.from;
            let ghost snap = *self;
            match self.find_remap_index(e.from) {
                Some(i) => {
                    self.nrdb_remap[i] = e;
                    proof {
                        assert(0 <= i < self.nrdb_remap@.len() && self.nrdb_remap@.len()
                            == snap.nrdb_remap@.len() && (self.nrdb_remap@[i as int]).from == f_p
                            && self.nrdb_remap@[i as int].to == (oe[p]).to && (
                        snap.nrdb_remap@[i as int]).from == f_p && (forall|x: int|
                            0 <= x < self.nrdb_remap@.len() && x != i as int
                                ==> #[trigger] self.nrdb_remap@[x] == snap.nrdb_remap@[x]));
                        lemma_remaps_step(pre, oe, snap, *self, p, f_p);
                    }
                },
                None => {
                    self.nrdb_remap.push(e);
                    proof {
                        lemma_remaps_step(pre, oe, snap, *self, p, f_p);
                    }
                },
            }
        }
        proof {
            assert(oe.len() - entries@.len() == oe.len());
        }
    }
}


impl MultiLibrary {
    /// Position of this group's display-name entry, if one exists.
    fn find_name_index(&self, group: &str) -> (r: Option<usize>)
        requires
            self.wf(),
        ensures
            r.is_some() == self.has_collection_name(group@),
            r matches Some(i) ==> 0 <= i < self.collection_names@.len() && (
            self.collection_names@[i as int]).group@ == group@,
    {
        let mut i: usize = 0;
        while i < self.collection_names.len()
            invariant
                self.wf(),
                i <= self.collection_names@.len(),
                forall|j: int|
                    0 <= j < i ==> (#[trigger] self.collection_names@[j]).group@ != group@,
            decreases self.collection_names@.len() - i,
        {
            if str_eq(self.collection_names[i].group.as_str(), group) {
                return Some(i);
            }
            i = i + 1;
        }
        None
    }

    /// Position of this key's translation entry, if one exists.
    fn find_remap_index(&self, from: u32) -> (r: Option<usize>)
        requires
            self.wf(),
        ensures
            r.is_some() == self.has_remap(from),
            r matches Some(i) ==> 0 <= i < self.nrdb_remap@.len() && (
            self.nrdb_remap@[i as int]).from == from,
    {
        let mut i: usize = 0;
        while i < self.nrdb_remap.len()
            invariant
                self.wf(),
                i <= self.nrdb_remap@.len(),
                forall|j: int| 0 <= j < i ==> (#[trigger] self.nrdb_remap@[j]).from != from,
            decreases self.nrdb_remap@.len() - i,
        {
            if self.nrdb_remap[i].from == from {
                return Some(i);
            }
            i = i + 1;
        }
        None
    }
}

/// After one name entry was written (replacing its group's entry or
/// appended as new), one more entry counts as merged.
proof fn lemma_names_step(
    pre: MultiLibrary,
    oe: Seq<CollectionName>,
    snap: MultiLibrary,
    post: MultiLibrary,
    p: int,
    g_p: Seq<char>,
)
    requires
        pre.wf(),
        snap.wf(),
        forall|a: int, b: int|
            0 <= a < b < oe.len() ==> (#[trigger] oe[a]).group@ != (#[trigger] oe[b]).group@,
        0 <= p < oe.len(),
        g_p == (oe[p]).group@,
        forall|g: Seq<char>|
            #![trigger snap.has_collection_name(g)]
            snap.has_collection_name(g) == (pre.has_collection_name(g) || entries_have_name(
                oe,
                p,
                g,
            )),
        forall|g: Seq<char>|
            #![trigger snap.spec_collection_name(g)]
            entries_have_name(oe, p, g) ==> snap.spec_collection_name(g) == entry_name(oe, g),
        forall|g: Seq<char>|
            #![trigger snap.spec_collection_name(g)]
            (pre.has_collection_name(g) && !entries_have_name(oe, p, g))
                ==> snap.spec_collection_name(g) == pre.spec_collection_name(g),
        post.libraries@ == snap.libraries@,
        post.nrdb_remap@ == snap.nrdb_remap@,
        post.local_images@ == snap.local_images@,
        // the written entry carries group g_p with name oe[p].name,
        // and every other entry is as in snap
        (exists|i: int|
            0 <= i < post.collection_names@.len() && post.collection_names@.len()
                == snap.collection_names@.len() && (#[trigger] post.collection_names@[i]).group@
                == g_p && post.collection_names@[i].name@ == (oe[p]).name@ && (
            snap.collection_names@[i]).group@ == g_p && (forall|x: int|
                0 <= x < post.collection_names@.len() && x != i
                    ==> #[trigger] post.collection_names@[x] == snap.collection_names@[x])) || (
        post.collection_names@.len() == snap.collection_names@.len() + 1
            && !snap.has_collection_name(g_p) && (post.collection_names@[post.collection_names@.len()
            - 1]).group@ == g_p && (post.collection_names@[post.collection_names@.len() - 1]).name@
            == (oe[p]).name@ && (forall|x: int|
            0 <= x < snap.collection_names@.len()
                ==> #[trigger] post.collection_names@[x] == snap.collection_names@[x])),
    ensures
        post.wf(),
        forall|g: Seq<char>|
            #![trigger post.has_collection_name(g)]
            post.has_collection_name(g) == (pre.has_collection_name(g) || entries_have_name(
                oe,
                p + 1,
                g,
            )),
        forall|g: Seq<char>|
            #![trigger post.spec_collection_name(g)]
            entries_have_name(oe, p + 1, g) ==> post.spec_collection_name(g) == entry_name(oe, g),
        forall|g: Seq<char>|
            #![trigger post.spec_collection_name(g)]
            (pre.has_collection_name(g) && !entries_have_name(oe, p + 1, g))
                ==> post.spec_collection_name(g) == pre.spec_collection_name(g),
{
    lemma_entry_name_of(oe, g_p, p);
    assert forall|g: Seq<char>|
        g != g_p implies #[trigger] entries_have_name(oe, p, g) == entries_have_name(
        oe,
        p + 1,
        g,
    ) by {
        if entries_have_name(oe, p + 1, g) {
            let l = choose|l: int| 0 <= l < p + 1 && (#[trigger] oe[l]).group@ == g;
            if l == p {
                assert(g == g_p);
            }
            assert(entries_have_name(oe, p, g));
        }
    };
    assert(entries_have_name(oe, p + 1, g_p));
    if exists|i: int|
        0 <= i < post.collection_names@.len() && post.collection_names@.len()
            == snap.collection_names@.len() && (#[trigger] post.collection_names@[i]).group@ == g_p
            && post.collection_names@[i].name@ == (oe[p]).name@ && (
    snap.collection_names@[i]).group@ == g_p && (forall|x: int|
        0 <= x < post.collection_names@.len() && x != i
            ==> #[trigger] post.collection_names@[x] == snap.collection_names@[x]) {
        let i = choose|i: int|
            0 <= i < post.collection_names@.len() && post.collection_names@.len()
                == snap.collection_names@.len() && (#[trigger] post.collection_names@[i]).group@
                == g_p && post.collection_names@[i].name@ == (oe[p]).name@ && (
            snap.collection_names@[i]).group@ == g_p && (forall|x: int|
                0 <= x < post.collection_names@.len() && x != i
                    ==> #[trigger] post.collection_names@[x] == snap.collection_names@[x]);
        assert forall|a: int, b: int| 0 <= a < b < post.collection_names@.len() implies (
        #[trigger] post.collection_names@[a]).group@ != (
        #[trigger] post.collection_names@[b]).group@ by {
            assert(post.collection_names@[a].group@ == snap.collection_names@[a].group@);
            assert(post.collection_names@[b].group@ == snap.collection_names@[b].group@);
            assert((snap.collection_names@[a]).group@ != (snap.collection_names@[b]).group@);
        };
        assert(post.wf());
        assert forall|g: Seq<char>| #[trigger]
            post.has_collection_name(g) == snap.has_collection_name(g) by {
            if snap.has_collection_name(g) {
                let w = choose|w: int|
                    0 <= w < snap.collection_names@.len() && (
                    #[trigger] snap.collection_names@[w]).group@ == g;
                if w == i {
                    assert((post.collection_names@[i]).group@ == g);
                } else {
                    assert((post.collection_names@[w]).group@ == g);
                }
                assert(post.has_collection_name(g));
            }
            if post.has_collection_name(g) {
                let w = choose|w: int|
                    0 <= w < post.collection_names@.len() && (
                    #[trigger] post.collection_names@[w]).group@ == g;
                if w == i {
                    assert((snap.collection_names@[i]).group@ == g);
                } else {
                    assert((snap.collection_names@[w]).group@ == g);
                }
                assert(snap.has_collection_name(g));
            }
        };
        assert forall|g: Seq<char>| #[trigger] post.has_collection_name(g) implies {
            &&& (g == g_p ==> post.spec_collection_name(g) == (oe[p]).name@)
            &&& (g != g_p ==> post.spec_collection_name(g) == snap.spec_collection_name(g))
        } by {
            let w = choose|w: int|
                0 <= w < post.collection_names@.len() && (
                #[trigger] post.collection_names@[w]).group@ == g;
            lemma_entry_name_of_names(post.collection_names@, g, w);
            if g == g_p {
                if w != i {
                    assert(post.collection_names@[w] == snap.collection_names@[w]);
                    assert((snap.collection_names@[w]).group@ == g_p);
                    assert((snap.collection_names@[i]).group@ == g_p);
                }
                assert(w == i);
            } else {
                assert(w != i);
                assert(post.collection_names@[w] == snap.collection_names@[w]);
                assert((snap.collection_names@[w]).group@ == g);
                lemma_entry_name_of_names(snap.collection_names@, g, w);
            }
        };
        assert forall|g: Seq<char>|
            entries_have_name(oe, p + 1, g) implies #[trigger] post.spec_collection_name(g)
            == entry_name(oe, g) by {
            assert(post.has_collection_name(g));
            if g != g_p {
                assert(entries_have_name(oe, p, g));
                assert(snap.has_collection_name(g));
                assert(snap.spec_collection_name(g) == entry_name(oe, g));
            }
        };
        assert forall|g: Seq<char>|
            (pre.has_collection_name(g) && !entries_have_name(oe, p + 1, g)) implies
            #[trigger] post.spec_collection_name(g) == pre.spec_collection_name(g) by {
            assert(g != g_p);
            assert(snap.has_collection_name(g));
            assert(post.has_collection_name(g));
        };
    } else {
        let last = post.collection_names@.len() - 1;
        assert forall|a: int, b: int| 0 <= a < b < post.collection_names@.len() implies (
        #[trigger] post.collection_names@[a]).group@ != (
        #[trigger] post.collection_names@[b]).group@ by {
            if b < last {
                assert(post.collection_names@[a] == snap.collection_names@[a]);
                assert(post.collection_names@[b] == snap.collection_names@[b]);
                assert((snap.collection_names@[a]).group@ != (snap.collection_names@[b]).group@);
            } else {
                if (post.collection_names@[a]).group@ == g_p {
                    assert(post.collection_names@[a] == snap.collection_names@[a]);
                    assert(snap.has_collection_name(g_p));
                }
            }
        };
        assert(post.wf());
        assert forall|g: Seq<char>| #[trigger]
            post.has_collection_name(g) == (snap.has_collection_name(g) || g == g_p) by {
            if snap.has_collection_name(g) {
                let w = choose|w: int|
                    0 <= w < snap.collection_names@.len() && (
                    #[trigger] snap.collection_names@[w]).group@ == g;
                assert((post.collection_names@[w]).group@ == g);
                assert(post.has_collection_name(g));
            }
            if g == g_p {
                assert((post.collection_names@[last]).group@ == g);
                assert(post.has_collection_name(g));
            }
            if post.has_collection_name(g) && g != g_p {
                let w = choose|w: int|
                    0 <= w < post.collection_names@.len() && (
                    #[trigger] post.collection_names@[w]).group@ == g;
                assert(w != last);
                assert((snap.collection_names@[w]).group@ == g);
                assert(snap.has_collection_name(g));
            }
        };
        assert forall|g: Seq<char>| #[trigger] post.has_collection_name(g) implies {
            &&& (g == g_p ==> post.spec_collection_name(g) == (oe[p]).name@)
            &&& (g != g_p ==> post.spec_collection_name(g) == snap.spec_collection_name(g))
        } by {
            let w = choose|w: int|
                0 <= w < post.collection_names@.len() && (
                #[trigger] post.collection_names@[w]).group@ == g;
            lemma_entry_name_of_names(post.collection_names@, g, w);
            if g == g_p {
                if w != last {
                    assert(post.collection_names@[w] == snap.collection_names@[w]);
                    assert(snap.has_collection_name(g_p));
                }
                assert(w == last);
            } else {
                assert(w != last);
                assert(post.collection_names@[w] == snap.collection_names@[w]);
                assert((snap.collection_names@[w]).group@ == g);
                lemma_entry_name_of_names(snap.collection_names@, g, w);
            }
        };
        assert forall|g: Seq<char>|
            entries_have_name(oe, p + 1, g) implies #[trigger] post.spec_collection_name(g)
            == entry_name(oe, g) by {
            assert(post.has_collection_name(g));
            if g != g_p {
                assert(entries_have_name(oe, p, g));
                assert(snap.has_collection_name(g));
                assert(snap.spec_collection_name(g) == entry_name(oe, g));
            }
        };
        assert forall|g: Seq<char>|
            (pre.has_collection_name(g) && !entries_have_name(oe, p + 1, g)) implies
            #[trigger] post.spec_collection_name(g) == pre.spec_collection_name(g) by {
            assert(g != g_p);
            assert(snap.has_collection_name(g));
            assert(post.has_collection_name(g));
        };
    }
}

/// Pins a catalog's display-name lookup to a given entry position.
proof fn lemma_entry_name_of_names(s: Seq<CollectionName>, g: Seq<char>, i: int)
    requires
        forall|a: int, b: int|
            0 <= a < b < s.len() ==> (#[trigger] s[a]).group@ != (#[trigger] s[b]).group@,
        0 <= i < s.len(),
        (s[i]).group@ == g,
    ensures
        (choose|l: int| 0 <= l < s.len() && (#[trigger] s[l]).group@ == g) == i,
{
    assert((s[i]).group@ == g);
    let w = choose|l: int| 0 <= l < s.len() && (#[trigger] s[l]).group@ == g;
    assert(0 <= w < s.len() && (s[w]).group@ == g);
    if w < i {
        assert((s[w]).group@ != (s[i]).group@);
    } else if i < w {
        assert((s[i]).group@ != (s[w]).group@);
    }
}



/// Pins a catalog's remap lookup to a given entry position.
proof fn lemma_entry_remap_of_remaps(s: Seq<NrdbRemapEntry>, from: u32, i: int)
    requires
        forall|a: int, b: int|
            0 <= a < b < s.len() ==> (#[trigger] s[a]).from != (#[trigger] s[b]).from,
        0 <= i < s.len(),
        (s[i]).from == from,
    ensures
        (choose|l: int| 0 <= l < s.len() && (#[trigger] s[l]).from == from) == i,
{
    assert((s[i]).from == from);
    let w = choose|l: int| 0 <= l < s.len() && (#[trigger] s[l]).from == from;
    assert(0 <= w < s.len() && (s[w]).from == from);
    if w < i {
        assert((s[w]).from != (s[i]).from);
    } else if i < w {
        assert((s[i]).from != (s[w]).from);
    }
}

/// After one remap entry was written (replacing its key's entry or
/// appended as new), one more entry counts as merged.
proof fn lemma_remaps_step(
    pre: MultiLibrary,
    oe: Seq<NrdbRemapEntry>,
    snap: MultiLibrary,
    post: MultiLibrary,
    p: int,
    f_p: u32,
)
    requires
        pre.wf(),
        snap.wf(),
        forall|a: int, b: int|
            0 <= a < b < oe.len() ==> (#[trigger] oe[a]).from != (#[trigger] oe[b]).from,
        0 <= p < oe.len(),
        f_p == (oe[p]).from,
        forall|from: u32|
            #![trigger snap.has_remap(from)]
            snap.has_remap(from) == (pre.has_remap(from) || entries_have_remap(oe, p, from)),
        forall|from: u32|
            #![trigger snap.spec_remap(from)]
            entries_have_remap(oe, p, from) ==> snap.spec_remap(from) == entry_remap(oe, from),
        forall|from: u32|
            #![trigger snap.spec_remap(from)]
            (pre.has_remap(from) && !entries_have_remap(oe, p, from)) ==> snap.spec_remap(from)
                == pre.spec_remap(from),
        post.libraries@ == snap.libraries@,
        post.collection_names@ == snap.collection_names@,
        post.local_images@ == snap.local_images@,
        (exists|i: int|
            0 <= i < post.nrdb_remap@.len() && post.nrdb_remap@.len() == snap.nrdb_remap@.len()
                && (#[trigger] post.nrdb_remap@[i]).from == f_p && post.nrdb_remap@[i].to == (
            oe[p]).to && (snap.nrdb_remap@[i]).from == f_p && (forall|x: int|
                0 <= x < post.nrdb_remap@.len() && x != i ==> #[trigger] post.nrdb_remap@[x]
                    == snap.nrdb_remap@[x])) || (post.nrdb_remap@.len() == snap.nrdb_remap@.len()
            + 1 && !snap.has_remap(f_p) && (post.nrdb_remap@[post.nrdb_remap@.len() - 1]).from
            == f_p && (post.nrdb_remap@[post.nrdb_remap@.len() - 1]).to == (oe[p]).to && (
        forall|x: int|
            0 <= x < snap.nrdb_remap@.len() ==> #[trigger] post.nrdb_remap@[x]
                == snap.nrdb_remap@[x])),
    ensures
        post.wf(),
        forall|from: u32|
            #![trigger post.has_remap(from)]
            post.has_remap(from) == (pre.has_remap(from) || entries_have_remap(oe, p + 1, from)),
        forall|from: u32|
            #![trigger post.spec_remap(from)]
            entries_have_remap(oe, p + 1, from) ==> post.spec_remap(from) == entry_remap(oe, from),
        forall|from: u32|
            #![trigger post.spec_remap(from)]
            (pre.has_remap(from) && !entries_have_remap(oe, p + 1, from)) ==> post.spec_remap(from)
                == pre.spec_remap(from),
{
    lemma_entry_remap_of(oe, f_p, p);
    assert forall|from: u32|
        from != f_p implies #[trigger] entries_have_remap(oe, p, from) == entries_have_remap(
        oe,
        p + 1,
        from,
    ) by {
        if entries_have_remap(oe, p + 1, from) {
            let l = choose|l: int| 0 <= l < p + 1 && (#[trigger] oe[l]).from == from;
            if l == p {
                assert(from == f_p);
            }
            assert(entries_have_remap(oe, p, from));
        }
    };
    assert(entries_have_remap(oe, p + 1, f_p));
    if exists|i: int|
        0 <= i < post.nrdb_remap@.len() && post.nrdb_remap@.len() == snap.nrdb_remap@.len() && (
        #[trigger] post.nrdb_remap@[i]).from == f_p && post.nrdb_remap@[i].to == (oe[p]).to && (
    snap.nrdb_remap@[i]).from == f_p && (forall|x: int|
        0 <= x < post.nrdb_remap@.len() && x != i ==> #[trigger] post.nrdb_remap@[x]
            == snap.nrdb_remap@[x]) {
        let i = choose|i: int|
            0 <= i < post.nrdb_remap@.len() && post.nrdb_remap@.len() == snap.nrdb_remap@.len()
                && (#[trigger] post.nrdb_remap@[i]).from == f_p && post.nrdb_remap@[i].to == (
            oe[p]).to && (snap.nrdb_remap@[i]).from == f_p && (forall|x: int|
                0 <= x < post.nrdb_remap@.len() && x != i ==> #[trigger] post.nrdb_remap@[x]
                    == snap.nrdb_remap@[x]);
        assert forall|a: int, b: int| 0 <= a < b < post.nrdb_remap@.len() implies (
        #[trigger] post.nrdb_remap@[a]).from != (#[trigger] post.nrdb_remap@[b]).from by {
            assert(post.nrdb_remap@[a].from == snap.nrdb_remap@[a].from);
            assert(post.nrdb_remap@[b].from == snap.nrdb_remap@[b].from);
            assert((snap.nrdb_remap@[a]).from != (snap.nrdb_remap@[b]).from);
        };
        assert(post.wf());
        assert forall|from: u32| #[trigger] post.has_remap(from) == snap.has_remap(from) by {
            if snap.has_remap(from) {
                let w = choose|w: int|
                    0 <= w < snap.nrdb_remap@.len() && (#[trigger] snap.nrdb_remap@[w]).from
                        == from;
                if w == i {
                    assert((post.nrdb_remap@[i]).from == from);
                } else {
                    assert((post.nrdb_remap@[w]).from == from);
                }
                assert(post.has_remap(from));
            }
            if post.has_remap(from) {
                let w = choose|w: int|
                    0 <= w < post.nrdb_remap@.len() && (#[trigger] post.nrdb_remap@[w]).from
                        == from;
                if w == i {
                    assert((snap.nrdb_remap@[i]).from == from);
                } else {
                    assert((snap.nrdb_remap@[w]).from == from);
                }
                assert(snap.has_remap(from));
            }
        };
        assert forall|from: u32| #[trigger] post.has_remap(from) implies {
            &&& (from == f_p ==> post.spec_remap(from) == (oe[p]).to)
            &&& (from != f_p ==> post.spec_remap(from) == snap.spec_remap(from))
        } by {
            let w = choose|w: int|
                0 <= w < post.nrdb_remap@.len() && (#[trigger] post.nrdb_remap@[w]).from == from;
            lemma_entry_remap_of_remaps(post.nrdb_remap@, from, w);
            if from == f_p {
                if w != i {
                    assert(post.nrdb_remap@[w] == snap.nrdb_remap@[w]);
                    assert((snap.nrdb_remap@[w]).from == f_p);
                    assert((snap.nrdb_remap@[i]).from == f_p);
                }
                assert(w == i);
            } else {
                assert(w != i);
                assert(post.nrdb_remap@[w] == snap.nrdb_remap@[w]);
                assert((snap.nrdb_remap@[w]).from == from);
                lemma_entry_remap_of_remaps(snap.nrdb_remap@, from, w);
            }
        };
        assert forall|from: u32|
            entries_have_remap(oe, p + 1, from) implies #[trigger] post.spec_remap(from)
            == entry_remap(oe, from) by {
            assert(post.has_remap(from));
            if from != f_p {
                assert(entries_have_remap(oe, p, from));
                assert(snap.has_remap(from));
                assert(snap.spec_remap(from) == entry_remap(oe, from));
            }
        };
        assert forall|from: u32|
            (pre.has_remap(from) && !entries_have_remap(oe, p + 1, from)) implies
            #[trigger] post.spec_remap(from) == pre.spec_remap(from) by {
            assert(from != f_p);
            assert(snap.has_remap(from));
            assert(post.has_remap(from));
        };
    } else {
        let last = post.nrdb_remap@.len() - 1;
        assert forall|a: int, b: int| 0 <= a < b < post.nrdb_remap@.len() implies (
        #[trigger] post.nrdb_remap@[a]).from != (#[trigger] post.nrdb_remap@[b]).from by {
            if b < last {
                assert(post.nrdb_remap@[a] == snap.nrdb_remap@[a]);
                assert(post.nrdb_remap@[b] == snap.nrdb_remap@[b]);
                assert((snap.nrdb_remap@[a]).from != (snap.nrdb_remap@[b]).from);
            } else {
                if (post.nrdb_remap@[a]).from == f_p {
                    assert(post.nrdb_remap@[a] == snap.nrdb_remap@[a]);
                    assert(snap.has_remap(f_p));
                }
            }
        };
        assert(post.wf());
        assert forall|from: u32| #[trigger]
            post.has_remap(from) == (snap.has_remap(from) || from == f_p) by {
            if snap.has_remap(from) {
                let w = choose|w: int|
                    0 <= w < snap.nrdb_remap@.len() && (#[trigger] snap.nrdb_remap@[w]).from
                        == from;
                assert((post.nrdb_remap@[w]).from == from);
                assert(post.has_remap(from));
            }
            if from == f_p {
                assert((post.nrdb_remap@[last]).from == from);
                assert(post.has_remap(from));
            }
            if post.has_remap(from) && from != f_p {
                let w = choose|w: int|
                    0 <= w < post.nrdb_remap@.len() && (#[trigger] post.nrdb_remap@[w]).from
                        == from;
                assert(w != last);
                assert((snap.nrdb_remap@[w]).from == from);
                assert(snap.has_remap(from));
            }
        };
        assert forall|from: u32| #[trigger] post.has_remap(from) implies {
            &&& (from == f_p ==> post.spec_remap(from) == (oe[p]).to)
            &&& (from != f_p ==> post.spec_remap(from) == snap.spec_remap(from))
        } by {
            let w = choose|w: int|
                0 <= w < post.nrdb_remap@.len() && (#[trigger] post.nrdb_remap@[w]).from == from;
            lemma_entry_remap_of_remaps(post.nrdb_remap@, from, w);
            if from == f_p {
                if w != last {
                    assert(post.nrdb_remap@[w] == snap.nrdb_remap@[w]);
                    assert(snap.has_remap(f_p));
                }
                assert(w == last);
            } else {
                assert(w != last);
                assert(post.nrdb_remap@[w] == snap.nrdb_remap@[w]);
                assert((snap.nrdb_remap@[w]).from == from);
                lemma_entry_remap_of_remaps(snap.nrdb_remap@, from, w);
            }
        };
        assert forall|from: u32|
            entries_have_remap(oe, p + 1, from) implies #[trigger] post.spec_remap(from)
            == entry_remap(oe, from) by {
            assert(post.has_remap(from));
            if from != f_p {
                assert(entries_have_remap(oe, p, from));
                assert(snap.has_remap(from));
                assert(snap.spec_remap(from) == entry_remap(oe, from));
            }
        };
        assert forall|from: u32|
            (pre.has_remap(from) && !entries_have_remap(oe, p + 1, from)) implies
            #[trigger] post.spec_remap(from) == pre.spec_remap(from) by {
            assert(from != f_p);
            assert(snap.has_remap(from));
            assert(post.has_remap(from));
        };
    }
}



/// After one overlay group was folded in (its library merged into the
/// base group's library, or the whole entry appended as a new group),
/// one more entry counts as merged.
proof fn lemma_groups_step(
    pre: MultiLibrary,
    oe: Seq<LibraryEntry>,
    snap: MultiLibrary,
    post: MultiLibrary,
    p: int,
    g_p: Seq<char>,
)
    requires
        pre.wf(),
        snap.wf(),
        forall|a: int, b: int|
            0 <= a < b < oe.len() ==> (#[trigger] oe[a]).group@ != (#[trigger] oe[b]).group@,
        0 <= p < oe.len(),
        g_p == (oe[p]).group@,
        forall|g: Seq<char>|
            #![trigger snap.has_group(g)]
            snap.has_group(g) == (pre.has_group(g) || entries_have_group(oe, p, g)),
        forall|g: Seq<char>|
            #![trigger snap.spec_group(g)]
            (pre.has_group(g) && entries_have_group(oe, p, g)) ==> library_merged(
                pre.spec_group(g),
                entry_library(oe, g),
                snap.spec_group(g),
            ),
        forall|g: Seq<char>|
            #![trigger snap.spec_group(g)]
            (pre.has_group(g) && !entries_have_group(oe, p, g)) ==> snap.spec_group(g)
                == pre.spec_group(g),
        forall|g: Seq<char>|
            #![trigger snap.spec_group(g)]
            (!pre.has_group(g) && entries_have_group(oe, p, g)) ==> snap.spec_group(g)
                == entry_library(oe, g),
        post.collection_names@ == snap.collection_names@,
        post.nrdb_remap@ == snap.nrdb_remap@,
        post.local_images@ == snap.local_images@,
        (exists|i: int|
            0 <= i < post.libraries@.len() && post.libraries@.len() == snap.libraries@.len() && (
            #[trigger] post.libraries@[i]).group@ == g_p && (snap.libraries@[i]).group@ == g_p
                && post.libraries@[i].library.wf() && library_merged(
                snap.libraries@[i].library,
                (oe[p]).library,
                post.libraries@[i].library,
            ) && (forall|x: int|
                0 <= x < post.libraries@.len() && x != i ==> #[trigger] post.libraries@[x]
                    == snap.libraries@[x])) || (post.libraries@.len() == snap.libraries@.len() + 1
            && !snap.has_group(g_p) && post.libraries@[post.libraries@.len() - 1] == oe[p] && (
        forall|x: int|
            0 <= x < snap.libraries@.len() ==> #[trigger] post.libraries@[x]
                == snap.libraries@[x])),
        (oe[p]).library.wf(),
    ensures
        post.wf(),
        forall|g: Seq<char>|
            #![trigger post.has_group(g)]
            post.has_group(g) == (pre.has_group(g) || entries_have_group(oe, p + 1, g)),
        forall|g: Seq<char>|
            #![trigger post.spec_group(g)]
            (pre.has_group(g) && entries_have_group(oe, p + 1, g)) ==> library_merged(
                pre.spec_group(g),
                entry_library(oe, g),
                post.spec_group(g),
            ),
        forall|g: Seq<char>|
            #![trigger post.spec_group(g)]
            (pre.has_group(g) && !entries_have_group(oe, p + 1, g)) ==> post.spec_group(g)
                == pre.spec_group(g),
        forall|g: Seq<char>|
            #![trigger post.spec_group(g)]
            (!pre.has_group(g) && entries_have_group(oe, p + 1, g)) ==> post.spec_group(g)
                == entry_library(oe, g),
{
    lemma_entry_library_of(oe, g_p, p);
    assert forall|g: Seq<char>|
        g != g_p implies #[trigger] entries_have_group(oe, p, g) == entries_have_group(
        oe,
        p + 1,
        g,
    ) by {
        if entries_have_group(oe, p + 1, g) {
            let l = choose|l: int| 0 <= l < p + 1 && (#[trigger] oe[l]).group@ == g;
            if l == p {
                assert(g == g_p);
            }
            assert(entries_have_group(oe, p, g));
        }
    };
    assert(entries_have_group(oe, p + 1, g_p));
    if exists|i: int|
        0 <= i < post.libraries@.len() && post.libraries@.len() == snap.libraries@.len() && (
        #[trigger] post.libraries@[i]).group@ == g_p && (snap.libraries@[i]).group@ == g_p
            && post.libraries@[i].library.wf() && library_merged(
            snap.libraries@[i].library,
            (oe[p]).library,
            post.libraries@[i].library,
        ) && (forall|x: int|
            0 <= x < post.libraries@.len() && x != i ==> #[trigger] post.libraries@[x]
                == snap.libraries@[x]) {
        let i = choose|i: int|
            0 <= i < post.libraries@.len() && post.libraries@.len() == snap.libraries@.len() && (
            #[trigger] post.libraries@[i]).group@ == g_p && (snap.libraries@[i]).group@ == g_p
                && post.libraries@[i].library.wf() && library_merged(
                snap.libraries@[i].library,
                (oe[p]).library,
                post.libraries@[i].library,
            ) && (forall|x: int|
                0 <= x < post.libraries@.len() && x != i ==> #[trigger] post.libraries@[x]
                    == snap.libraries@[x]);
        assert forall|a: int, b: int| 0 <= a < b < post.libraries@.len() implies (
        #[trigger] post.libraries@[a]).group@ != (#[trigger] post.libraries@[b]).group@ by {
            assert(post.libraries@[a].group@ == snap.libraries@[a].group@);
            assert(post.libraries@[b].group@ == snap.libraries@[b].group@);
            assert((snap.libraries@[a]).group@ != (snap.libraries@[b]).group@);
        };
        assert forall|x: int| 0 <= x < post.libraries@.len() implies (
        #[trigger] post.libraries@[x]).library.wf() by {
            if x != i {
                assert(post.libraries@[x] == snap.libraries@[x]);
            }
        };
        assert(post.wf());
        // a found group was in `pre`: it cannot have been added by an
        // earlier entry, since overlay groups never repeat
        snap.lemma_group_index_is(g_p, i);
        assert(!entries_have_group(oe, p, g_p));
        assert(pre.has_group(g_p));
        assert(snap.spec_group(g_p) == pre.spec_group(g_p));
        post.lemma_group_index_is(g_p, i);
        assert forall|g: Seq<char>| #[trigger] post.has_group(g) == snap.has_group(g) by {
            if snap.has_group(g) {
                let w = snap.group_index(g);
                assert((snap.libraries@[w]).group@ == g);
                if w == i {
                    assert((post.libraries@[i]).group@ == g);
                } else {
                    assert((post.libraries@[w]).group@ == g);
                }
                assert(post.has_group(g));
            }
            if post.has_group(g) {
                let w = post.group_index(g);
                assert((post.libraries@[w]).group@ == g);
                if w == i {
                    assert((snap.libraries@[i]).group@ == g);
                } else {
                    assert((snap.libraries@[w]).group@ == g);
                }
                assert(snap.has_group(g));
            }
        };
        assert forall|g: Seq<char>| #[trigger] post.has_group(g) && g != g_p implies
            post.spec_group(g) == snap.spec_group(g) by {
            assert(snap.has_group(g));
            let w = snap.group_index(g);
            assert(0 <= w < snap.libraries@.len() && (snap.libraries@[w]).group@ == g);
            snap.lemma_group_index_is(g, w);
            assert(w != i);
            assert(post.libraries@[w] == snap.libraries@[w]);
            post.lemma_group_index_is(g, w);
        };
        assert forall|g: Seq<char>| #[trigger]
            post.has_group(g) == (pre.has_group(g) || entries_have_group(oe, p + 1, g)) by {
            if g == g_p {
                assert(post.has_group(g_p));
            }
        };
        assert forall|g: Seq<char>|
            (pre.has_group(g) && entries_have_group(oe, p + 1, g)) implies library_merged(
            pre.spec_group(g),
            entry_library(oe, g),
            #[trigger] post.spec_group(g),
        ) by {
            if g == g_p {
                assert(post.spec_group(g_p) == post.libraries@[i].library);
                assert(entry_library(oe, g_p) == (oe[p]).library);
            } else {
                assert(entries_have_group(oe, p, g));
                assert(snap.has_group(g));
                assert(post.has_group(g));
                assert(post.spec_group(g) == snap.spec_group(g));
            }
        };
        assert forall|g: Seq<char>|
            (pre.has_group(g) && !entries_have_group(oe, p + 1, g)) implies #[trigger] post.spec_group(
            g,
        ) == pre.spec_group(g) by {
            assert(g != g_p);
            assert(snap.has_group(g));
            assert(post.has_group(g));
        };
        assert forall|g: Seq<char>|
            (!pre.has_group(g) && entries_have_group(oe, p + 1, g)) implies #[trigger] post.spec_group(
            g,
        ) == entry_library(oe, g) by {
            assert(g != g_p);
            assert(entries_have_group(oe, p, g));
            assert(snap.has_group(g));
            assert(post.has_group(g));
            assert(post.spec_group(g) == snap.spec_group(g));
        };
    } else {
        let last = post.libraries@.len() - 1;
        assert(post.libraries@[last] == oe[p]);
        assert forall|a: int, b: int| 0 <= a < b < post.libraries@.len() implies (
        #[trigger] post.libraries@[a]).group@ != (#[trigger] post.libraries@[b]).group@ by {
            if b < last {
                assert(post.libraries@[a] == snap.libraries@[a]);
                assert(post.libraries@[b] == snap.libraries@[b]);
                assert((snap.libraries@[a]).group@ != (snap.libraries@[b]).group@);
            } else {
                if (post.libraries@[a]).group@ == g_p {
                    assert(post.libraries@[a] == snap.libraries@[a]);
                    assert(snap.has_group(g_p));
                }
            }
        };
        assert forall|x: int| 0 <= x < post.libraries@.len() implies (
        #[trigger] post.libraries@[x]).library.wf() by {
            if x != last {
                assert(post.libraries@[x] == snap.libraries@[x]);
            } else {
                assert((oe[p]).library.wf());
            }
        };
        assert(post.wf());
        assert(!pre.has_group(g_p));
        post.lemma_group_index_is(g_p, last);
        assert forall|g: Seq<char>| #[trigger]
            post.has_group(g) == (snap.has_group(g) || g == g_p) by {
            if snap.has_group(g) {
                let w = snap.group_index(g);
                assert((snap.libraries@[w]).group@ == g);
                assert((post.libraries@[w]).group@ == g);
                assert(post.has_group(g));
            }
            if post.has_group(g) && g != g_p {
                let w = post.group_index(g);
                assert((post.libraries@[w]).group@ == g);
                assert(w != last);
                assert((snap.libraries@[w]).group@ == g);
                assert(snap.has_group(g));
            }
        };
        assert forall|g: Seq<char>| #[trigger] post.has_group(g) && g != g_p implies
            post.spec_group(g) == snap.spec_group(g) by {
            assert(snap.has_group(g));
            let w = snap.group_index(g);
            assert(0 <= w < snap.libraries@.len() && (snap.libraries@[w]).group@ == g);
            snap.lemma_group_index_is(g, w);
            assert(post.libraries@[w] == snap.libraries@[w]);
            post.lemma_group_index_is(g, w);
        };
        assert forall|g: Seq<char>| #[trigger]
            post.has_group(g) == (pre.has_group(g) || entries_have_group(oe, p + 1, g)) by {
            if g == g_p {
                assert(post.has_group(g_p));
            }
        };
        assert forall|g: Seq<char>|
            (pre.has_group(g) && entries_have_group(oe, p + 1, g)) implies library_merged(
            pre.spec_group(g),
            entry_library(oe, g),
            #[trigger] post.spec_group(g),
        ) by {
            assert(g != g_p);
            assert(entries_have_group(oe, p, g));
            assert(snap.has_group(g));
            assert(post.has_group(g));
            assert(post.spec_group(g) == snap.spec_group(g));
        };
        assert forall|g: Seq<char>|
            (pre.has_group(g) && !entries_have_group(oe, p + 1, g)) implies #[trigger] post.spec_group(
            g,
        ) == pre.spec_group(g) by {
            assert(g != g_p);
            assert(snap.has_group(g));
            assert(post.has_group(g));
        };
        assert forall|g: Seq<char>|
            (!pre.has_group(g) && entries_have_group(oe, p + 1, g)) implies #[trigger] post.spec_group(
            g,
        ) == entry_library(oe, g) by {
            if g == g_p {
                assert(post.spec_group(g_p) == (oe[p]).library);
                assert(entry_library(oe, g_p) == (oe[p]).library);
            } else {
                assert(entries_have_group(oe, p, g));
                assert(snap.has_group(g));
                assert(post.has_group(g));
                assert(post.spec_group(g) == snap.spec_group(g));
            }
        };
    }
}

impl MultiLibrary {
    /// Folds the overlay's group libraries into this catalog: a group
    /// of both catalogs has the overlay's library merged into the
    /// base's; a group only the overlay has is inserted whole.
    fn merge_overlay_libraries(&mut self, entries: Vec<LibraryEntry>)
        requires
            old(self).wf(),
            forall|a: int, b: int|
                0 <= a < b < entries@.len() ==> (#[trigger] entries@[a]).group@ != (
                #[trigger] entries@[b]).group@,
            forall|l: int| 0 <= l < entries@.len() ==> (#[trigger] entries@[l]).library.wf(),
        ensures
            final(self).wf(),
            final(self).collection_names@ == old(self).collection_names@,
            final(self).nrdb_remap@ == old(self).nrdb_remap@,
            final(self).local_images@ == old(self).local_images@,
            forall|g: Seq<char>|
                #![trigger final(self).has_group(g)]
                final(self).has_group(g) == (old(self).has_group(g) || entries_have_group(
                    entries@,
                    entries@.len() as int,
                    g,
                )),
            forall|g: Seq<char>|
                #![trigger final(self).spec_group(g)]
                (old(self).has_group(g) && entries_have_group(entries@, entries@.len() as int, g))
                    ==> library_merged(
                    old(self).spec_group(g),
                    entry_library(entries@, g),
                    final(self).spec_group(g),
                ),
            forall|g: Seq<char>|
                #![trigger final(self).spec_group(g)]
                (old(self).has_group(g) && !entries_have_group(
                    entries@,
                    entries@.len() as int,
                    g,
                )) ==> final(self).spec_group(g) == old(self).spec_group(g),
            forall|g: Seq<char>|
                #![trigger final(self).spec_group(g)]
                (!old(self).has_group(g) && entries_have_group(entries@, entries@.len() as int, g))
                    ==> final(self).spec_group(g) == entry_library(entries@, g),
    {
        let ghost pre = *self;
        let ghost oe = entries@;
        let mut entries = entries;
        while entries.len() > 0
            invariant
                self.wf(),
                pre.wf(),
                self.collection_names@ == pre.collection_names@,
                self.nrdb_remap@ == pre.nrdb_remap@,
                self.local_images@ == pre.local_images@,
                forall|a: int, b: int|
                    0 <= a < b < oe.len() ==> (#[trigger] oe[a]).group@ != (
                    #[trigger] oe[b]).group@,
                forall|l: int| 0 <= l < oe.len() ==> (#[trigger] oe[l]).library.wf(),
                entries@.len() <= oe.len(),
                entries@ =~= oe.skip(oe.len() - entries@.len()),
                forall|g: Seq<char>|
                    #![trigger self.has_group(g)]
                    self.has_group(g) == (pre.has_group(g) || entries_have_group(
                        oe,
                        oe.len() - entries@.len(),
                        g,
                    )),
                forall|g: Seq<char>|
                    #![trigger self.spec_group(g)]
                    (pre.has_group(g) && entries_have_group(oe, oe.len() - entries@.len(), g))
                        ==> library_merged(
                        pre.spec_group(g),
                        entry_library(oe, g),
                        self.spec_group(g),
                    ),
                forall|g: Seq<char>|
                    #![trigger self.spec_group(g)]
                    (pre.has_group(g) && !entries_have_group(oe, oe.len() - entries@.len(), g))
                        ==> self.spec_group(g) == pre.spec_group(g),
                forall|g: Seq<char>|
                    #![trigger self.spec_group(g)]
                    (!pre.has_group(g) && entries_have_group(oe, oe.len() - entries@.len(), g))
                        ==> self.spec_group(g) == entry_library(oe, g),
            decreases entries@.len(),
        {
            let ghost p = oe.len() - entries@.len();
            let e = entries.remove(0);
            proof {
                assert(e == oe[p]);
                assert(entries@ =~= oe.skip(p + 1));
            }
            let ghost g_p = e.group@;
            let ghost snap = *self;
            match self.find_group_index(&e.group) {
                Some(gi) => {
                    self.libraries[gi].library.merge(&e.library);
                    proof {
                        assert((oe[p]).library.wf());
                        assert(self.libraries@.len() == snap.libraries@.len());
                        assert((self.libraries@[gi as int]).group@ == g_p);
                        assert((snap.libraries@[gi as int]).group@ == g_p);
                        assert(self.libraries@[gi as int].library.wf());
                        assert(library_merged(
                            snap.libraries@[gi as int].library,
                            (oe[p]).library,
                            self.libraries@[gi as int].library,
                        ));
                        assert(forall|x: int|
                            0 <= x < self.libraries@.len() && x != gi as int
                                ==> #[trigger] self.libraries@[x] == snap.libraries@[x]);
                        lemma_groups_step(pre, oe, snap, *self, p, g_p);
                    }
                },
                None => {
                    self.libraries.push(e);
                    proof {
                        lemma_groups_step(pre, oe, snap, *self, p, g_p);
                    }
                },
            }
        }
        proof {
            assert(oe.len() - entries@.len() == oe.len());
        }
    }
}


} // verus!
