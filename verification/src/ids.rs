//! Identifier types: cards, printed card faces, inserts, and the image
//! URLs they resolve to.

use vstd::prelude::*;

use crate::strutil::dec_digits;
use crate::strutil::dec_digits_padded5;
use crate::strutil::lemma_lex_transitive;
use crate::strutil::lemma_lex_trichotomy;
use crate::strutil::lex_lt;
use crate::strutil::push_decimal;
use crate::strutil::push_decimal_padded5;
use crate::strutil::str_eq;
use crate::strutil::str_lt;

verus! {

/// Root URL under which remote card and insert images live.
pub open spec fn spec_image_root() -> Seq<char> {
    "https://nro-public.s3.nl-ams.scw.cloud/nro/card-printings/v2/webp"@
}

/// Root URL under which remote card and insert images live.
fn image_root() -> (r: &'static str)
    ensures
        r@ == spec_image_root(),
{
    "https://nro-public.s3.nl-ams.scw.cloud/nro/card-printings/v2/webp"
}

/// Opaque identifier of one card (which may have several faces,
/// variants and printings) within a catalog group.
#[derive(Debug, PartialEq, Eq, Hash)]
pub struct CardId(pub String);

impl View for CardId {
    type V = Seq<char>;

    open spec fn view(&self) -> Seq<char> {
        self.0@
    }
}

impl Clone for CardId {
    fn clone(&self) -> (r: Self)
        ensures
            r == *self,
    {
        CardId(self.0.clone())
    }
}

/// A card title, with an ASCII-only fallback for searching.
#[derive(Debug, PartialEq, Eq, Hash)]
pub struct Title {
    /// The title of the card, possibly containing non-ASCII characters.
    pub title: String,
    /// The title of the card, reduced to ASCII characters.
    pub stripped_title: String,
}

/// Mathematical image of a [`Title`].
#[verifier::ext_equal]
pub struct TitleView {
    pub title: Seq<char>,
    pub stripped_title: Seq<char>,
}

impl View for Title {
    type V = TitleView;

    open spec fn view(&self) -> TitleView {
        TitleView { title: self.title@, stripped_title: self.stripped_title@ }
    }
}

impl Clone for Title {
    fn clone(&self) -> (r: Self)
        ensures
            r == *self,
    {
        Title { title: self.title.clone(), stripped_title: self.stripped_title.clone() }
    }
}

/// Identifier of one printed face or variant of one printing of a
/// card: the printing's numeric id, which face or variant of it (
/// `None` for a plain single-faced printing, `Some(1)` for the front
/// face, `Some(n)` for alternate faces or variant forms), and the
/// catalog group the printing belongs to.
#[derive(Debug, PartialEq, Eq, Hash)]
pub struct CardFacePrintingId {
    pub id: u32,
    pub face_or_variant_specifier: Option<usize>,
    pub print_group: String,
}

/// Mathematical image of a [`CardFacePrintingId`].
#[verifier::ext_equal]
pub struct FaceKey {
    pub id: u32,
    pub face: Option<usize>,
    pub print_group: Seq<char>,
}

impl View for CardFacePrintingId {
    type V = FaceKey;

    open spec fn view(&self) -> FaceKey {
        FaceKey {
            id: self.id,
            face: self.face_or_variant_specifier,
            print_group: self.print_group@,
        }
    }
}

impl Clone for CardFacePrintingId {
    fn clone(&self) -> (r: Self)
        ensures
            r == *self,
    {
        CardFacePrintingId {
            id: self.id,
            face_or_variant_specifier: self.face_or_variant_specifier,
            print_group: self.print_group.clone(),
        }
    }
}

/// Order on optional face specifiers: no specifier sorts before every
/// specifier.
pub open spec fn opt_face_lt(a: Option<usize>, b: Option<usize>) -> bool {
    match b {
        Option::None => false,
        Option::Some(bv) => match a {
            Option::None => true,
            Option::Some(av) => av < bv,
        },
    }
}

/// The order printed faces sort in: by catalog group, then numeric
/// printing id, then face specifier.
pub open spec fn face_key_lt(a: FaceKey, b: FaceKey) -> bool {
    ||| lex_lt(a.print_group, b.print_group)
    ||| (a.print_group == b.print_group && a.id < b.id)
    ||| (a.print_group == b.print_group && a.id == b.id && opt_face_lt(a.face, b.face))
}

/// `face_key_lt` is trichotomous: of `a < b`, `a == b` and `b < a`,
/// exactly one holds.
pub proof fn lemma_face_key_trichotomy(a: FaceKey, b: FaceKey)
    ensures
        face_key_lt(a, b) || face_key_lt(b, a) || a == b,
        face_key_lt(a, b) ==> !face_key_lt(b, a) && a != b,
        face_key_lt(b, a) ==> !face_key_lt(a, b) && a != b,
{
    lemma_lex_trichotomy(a.print_group, b.print_group);
    if !face_key_lt(a, b) && !face_key_lt(b, a) {
        assert(a =~= b);
    }
}

/// `face_key_lt` is transitive.
pub proof fn lemma_face_key_transitive(a: FaceKey, b: FaceKey, c: FaceKey)
    requires
        face_key_lt(a, b),
        face_key_lt(b, c),
    ensures
        face_key_lt(a, c),
{
    if lex_lt(a.print_group, b.print_group) && lex_lt(b.print_group, c.print_group) {
        lemma_lex_transitive(a.print_group, b.print_group, c.print_group);
    }
}

/// Whether `a` sorts strictly before `b` in the face order.
pub fn face_id_lt(a: &CardFacePrintingId, b: &CardFacePrintingId) -> (r: bool)
    ensures
        r == face_key_lt(a@, b@),
{
    if str_lt(a.print_group.as_str(), b.print_group.as_str()) {
        true
    } else if str_lt(b.print_group.as_str(), a.print_group.as_str()) {
        false
    } else {
        proof {
            lemma_lex_trichotomy(a.print_group@, b.print_group@);
        }
        if a.id < b.id {
            true
        } else if b.id < a.id {
            false
        } else {
            match (a.face_or_variant_specifier, b.face_or_variant_specifier) {
                (Option::None, Option::Some(_)) => true,
                (Option::Some(x), Option::Some(y)) => x < y,
                _ => false,
            }
        }
    }
}

/// Whether `a` and `b` are the same printed face.
pub fn face_id_eq(a: &CardFacePrintingId, b: &CardFacePrintingId) -> (r: bool)
    ensures
        r == (a@ == b@),
{
    let faces_eq = match (a.face_or_variant_specifier, b.face_or_variant_specifier) {
        (Option::None, Option::None) => true,
        (Option::Some(x), Option::Some(y)) => x == y,
        _ => false,
    };
    let r = a.id == b.id && faces_eq && str_eq(a.print_group.as_str(), b.print_group.as_str());
    proof {
        if r {
            assert(a@ =~= b@);
        }
    }
    r
}

/// Identifier of a promotional insert image: its name and catalog
/// group.
#[derive(Debug, PartialEq, Eq, Hash)]
pub struct InsertId {
    pub name: String,
    pub print_group: String,
}

/// Mathematical image of an [`InsertId`].
#[verifier::ext_equal]
pub struct InsertKey {
    pub name: Seq<char>,
    pub print_group: Seq<char>,
}

impl View for InsertId {
    type V = InsertKey;

    open spec fn view(&self) -> InsertKey {
        InsertKey { name: self.name@, print_group: self.print_group@ }
    }
}

impl Clone for InsertId {
    fn clone(&self) -> (r: Self)
        ensures
            r == *self,
    {
        InsertId { name: self.name.clone(), print_group: self.print_group.clone() }
    }
}

/// Whether `a` and `b` are the same insert.
pub fn insert_id_eq(a: &InsertId, b: &InsertId) -> (r: bool)
    ensures
        r == (a@ == b@),
{
    let r = str_eq(a.name.as_str(), b.name.as_str()) && str_eq(
        a.print_group.as_str(),
        b.print_group.as_str(),
    );
    proof {
        if r {
            assert(a@ =~= b@);
        }
    }
    r
}

/// The remote image URL of a printed face:
/// `{root}/{group}/card/{id padded to 5 digits}[.{face}].webp`.
pub open spec fn spec_face_image_url(k: FaceKey) -> Seq<char> {
    let base = spec_image_root() + "/"@ + k.print_group + "/card/"@ + dec_digits_padded5(
        k.id as int,
    );
    match k.face {
        Option::Some(f) => base + "."@ + dec_digits(f as int) + ".webp"@,
        Option::None => base + ".webp"@,
    }
}

/// The remote image URL of an insert:
/// `{root}/{group}/insert/{name}.webp`.
pub open spec fn spec_insert_image_url(k: InsertKey) -> Seq<char> {
    spec_image_root() + "/"@ + k.print_group + "/insert/"@ + k.name + ".webp"@
}

impl CardFacePrintingId {
    /// The remote URL this face's image is fetched from.
    pub fn image_url(&self) -> (r: String)
        ensures
            r@ == spec_face_image_url(self@),
    {
        let mut r = String::new();
        r.append(image_root());
        r.append("/");
        r.append(self.print_group.as_str());
        r.append("/card/");
        push_decimal_padded5(&mut r, self.id as u64);
        match self.face_or_variant_specifier {
            Option::Some(f) => {
                r.append(".");
                push_decimal(&mut r, f as u64);
                r.append(".webp");
            },
            Option::None => {
                r.append(".webp");
            },
        }
        proof {
            assert(r@ =~= spec_face_image_url(self@));
        }
        r
    }
}

impl InsertId {
    /// The remote URL this insert's image is fetched from.
    pub fn image_url(&self) -> (r: String)
        ensures
            r@ == spec_insert_image_url(self@),
    {
        let mut r = String::new();
        r.append(image_root());
        r.append("/");
        r.append(self.print_group.as_str());
        r.append("/insert/");
        r.append(self.name.as_str());
        r.append(".webp");
        proof {
            assert(r@ =~= spec_insert_image_url(self@));
        }
        r
    }
}

/// A reference to one image on a page: a printed card face, or an
/// insert.
#[derive(Debug, PartialEq, Eq, Hash)]
pub enum CardImage {
    CardFacePrinting(CardFacePrintingId),
    Insert(InsertId),
}

/// Mathematical image of a [`CardImage`].
#[verifier::ext_equal]
pub enum CardImageView {
    CardFacePrinting(FaceKey),
    Insert(InsertKey),
}

impl View for CardImage {
    type V = CardImageView;

    open spec fn view(&self) -> CardImageView {
        match self {
            CardImage::CardFacePrinting(f) => CardImageView::CardFacePrinting(f@),
            CardImage::Insert(i) => CardImageView::Insert(i@),
        }
    }
}

impl Clone for CardImage {
    fn clone(&self) -> (r: Self)
        ensures
            r == *self,
    {
        match self {
            CardImage::CardFacePrinting(f) => CardImage::CardFacePrinting(f.clone()),
            CardImage::Insert(i) => CardImage::Insert(i.clone()),
        }
    }
}

/// The remote image URL of either kind of page image.
pub open spec fn spec_card_image_url(v: CardImageView) -> Seq<char> {
    match v {
        CardImageView::CardFacePrinting(k) => spec_face_image_url(k),
        CardImageView::Insert(k) => spec_insert_image_url(k),
    }
}

impl CardImage {
    /// The remote URL this image is fetched from.
    pub fn image_url(&self) -> (r: String)
        ensures
            r@ == spec_card_image_url(self@),
    {
        match self {
            CardImage::CardFacePrinting(f) => f.image_url(),
            CardImage::Insert(i) => i.image_url(),
        }
    }
}

} // verus!
