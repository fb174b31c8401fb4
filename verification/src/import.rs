//! Text deck-list import: newline-delimited `"<count> <card name>"`
//! lines, resolved against the catalog by exact title; an unresolved
//! or malformed line is skipped and the rest of the import proceeds.

use vstd::prelude::*;

use crate::catalog::AltFacesView;
use crate::catalog::AlternateFaceMetadata;
use crate::catalog::CardMetadata;
use crate::catalog::CardMetadataView;
use crate::catalog::Library;
use crate::print_file::slot_is_preferred;
use crate::print_file::PrintFile;
use crate::print_file::SlotView;

verus! {

/// Whether `c` is a decimal digit.
pub open spec fn is_digit_char(c: char) -> bool {
    '0' as int <= c as int <= '9' as int
}

/// The value of the digit `c`.
pub open spec fn digit_val(c: char) -> int {
    c as int - '0' as int
}

/// Whether every character of `s` is a decimal digit.
pub open spec fn all_digits(s: Seq<char>) -> bool {
    forall|i: int| 0 <= i < s.len() ==> is_digit_char(#[trigger] s[i])
}

/// The number the digit string `s` denotes.
pub open spec fn digits_value(s: Seq<char>) -> int
    decreases s.len(),
{
    if s.len() == 0 {
        0
    } else {
        digits_value(s.drop_last()) * 10 + digit_val(s.last())
    }
}

/// Splits a line at its first space: the part before it and the rest
/// after it; a line without a space does not split.
pub open spec fn split_first_space(line: Seq<char>) -> Option<(Seq<char>, Seq<char>)>
    decreases line.len(),
{
    if line.len() == 0 {
        Option::None
    } else if line[0] == ' ' {
        Option::Some((Seq::empty(), line.skip(1)))
    } else {
        match split_first_space(line.skip(1)) {
            Option::Some(p) => Option::Some((seq![line[0]] + p.0, p.1)),
            Option::None => Option::None,
        }
    }
}

/// Parses a deck-list line of the shape `"<count> <card name>"`: a
/// non-empty run of digits denoting a number that fits the id width,
/// one space, and the name.  Anything else does not parse.
pub open spec fn parse_deck_line_spec(line: Seq<char>) -> Option<(int, Seq<char>)> {
    match split_first_space(line) {
        Option::Some(p) => if p.0.len() > 0 && all_digits(p.0) && digits_value(p.0) <= u32::MAX {
            Option::Some((digits_value(p.0), p.1))
        } else {
            Option::None
        },
        Option::None => Option::None,
    }
}

/// Whether a card's title answers to `name`: its display title or its
/// ASCII fallback matches exactly.
pub open spec fn title_matches(c: CardMetadataView, name: Seq<char>) -> bool {
    c.title.title == name || c.title.stripped_title == name
}

/// Splitting after a space-free prefix splits the rest.
proof fn lemma_split_skip(line: Seq<char>, i: int)
    requires
        0 <= i <= line.len(),
        forall|j: int| 0 <= j < i ==> line[j] != ' ',
    ensures
        split_first_space(line) == match split_first_space(line.skip(i)) {
            Option::Some(p) => Option::Some((line.take(i) + p.0, p.1)),
            Option::None => Option::<(Seq<char>, Seq<char>)>::None,
        },
    decreases i,
{
    if i == 0 {
        assert(line.skip(0) =~= line);
        match split_first_space(line) {
            Option::Some(p) => {
                assert(line.take(0) + p.0 =~= p.0);
            },
            Option::None => {},
        }
    } else {
        assert(forall|j: int| 0 <= j < i - 1 ==> line.skip(1)[j] != ' ');
        lemma_split_skip(line.skip(1), i - 1);
        assert(line.skip(1).skip(i - 1) =~= line.skip(i));
        assert(line.len() > 0 && line[0] != ' ');
        match split_first_space(line.skip(i)) {
            Option::Some(p) => {
                assert(seq![line[0]] + (line.skip(1).take(i - 1) + p.0) =~= line.take(i) + p.0);
            },
            Option::None => {},
        }
    }
}

/// A longer digit string denotes at least as large a number.
proof fn lemma_digits_value_monotone(s: Seq<char>, i: int)
    requires
        0 <= i <= s.len(),
        all_digits(s),
    ensures
        digits_value(s) >= digits_value(s.take(i)),
        digits_value(s) >= 0,
    decreases s.len() - i,
{
    if i == s.len() {
        assert(s.take(i) =~= s);
        lemma_digits_value_nonneg(s);
    } else {
        lemma_digits_value_monotone(s, i + 1);
        let t = s.take(i + 1);
        assert(t.drop_last() =~= s.take(i));
        assert(t.last() == s[i]);
        assert(digits_value(t) == digits_value(s.take(i)) * 10 + digit_val(s[i]));
        assert(digits_value(s.take(i)) >= 0) by {
            lemma_digits_value_nonneg(s.take(i));
        };
    }
}

/// A digit string denotes a non-negative number.
proof fn lemma_digits_value_nonneg(s: Seq<char>)
    requires
        all_digits(s),
    ensures
        digits_value(s) >= 0,
    decreases s.len(),
{
    if s.len() > 0 {
        assert(all_digits(s.drop_last()));
        lemma_digits_value_nonneg(s.drop_last());
    }
}

/// Parses a deck-list line: the copy count and the card name, if the
/// line has the `"<count> <card name>"` shape.
pub fn parse_deck_line<'a>(line: &'a str) -> (r: Option<(u32, &'a str)>)
    ensures
        r.is_some() == parse_deck_line_spec(line@).is_some(),
        r matches Some(p) ==> parse_deck_line_spec(line@) == Option::Some((p.0 as int, p.1@)),
{
    let len = line.unicode_len();
    let mut i: usize = 0;
    let mut value: u64 = 0;
    while i < len
        invariant
            len == line@.len(),
            i <= len,
            forall|j: int| 0 <= j < i ==> line@[j] != ' ',
            all_digits(line@.take(i as int)),
            value == digits_value(line@.take(i as int)),
            value <= 0xFFFF_FFFF,
        decreases len - i,
    {
        let c = line.get_char(i);
        if c == ' ' {
            proof {
                lemma_split_skip(line@, i as int);
                assert(line@.skip(i as int)[0] == ' ');
                assert(line@.skip(i as int).skip(1) =~= line@.skip(i as int + 1));
                assert(line@.take(i as int) + Seq::<char>::empty() =~= line@.take(i as int));
            }
            if i == 0 {
                return None;
            }
            let name = line.substring_char(i + 1, len);
            proof {
                assert(name@ =~= line@.skip(i as int + 1));
            }
            return Some((value as u32, name));
        }
        let cp = c as u32;
        if cp < 48 || cp > 57 {
            proof {
                assert(!is_digit_char(line@[i as int]));
            }
            // no digit may come before the first space; scan on only to
            // learn whether a space exists at all
            let mut k: usize = i + 1;
            while k < len
                invariant
                    len == line@.len(),
                    i < k,
                    k <= len,
                    !is_digit_char(line@[i as int]),
                    i < line@.len(),
                    line@[i as int] != ' ',
                    forall|j: int| i < j < k ==> line@[j] != ' ',
                    forall|j: int| 0 <= j < i ==> line@[j] != ' ',
                decreases len - k,
            {
                if line.get_char(k) == ' ' {
                    proof {
                        lemma_split_skip(line@, k as int);
                        assert(line@.skip(k as int)[0] == ' ');
                        let p0 = line@.take(k as int);
                        assert(p0[i as int] == line@[i as int]);
                        assert(!all_digits(p0));
                        assert(line@.take(k as int) + Seq::<char>::empty() =~= line@.take(
                            k as int,
                        ));
                    }
                    return None;
                }
                k = k + 1;
            }
            proof {
                lemma_split_skip(line@, len as int);
                assert(line@.skip(len as int).len() == 0);
            }
            return None;
        }
        let d = (cp - 48) as u64;
        proof {
            assert(is_digit_char(line@[i as int]));
            assert(digit_val(line@[i as int]) == d);
            let t = line@.take(i as int + 1);
            assert(t.drop_last() =~= line@.take(i as int));
            assert(t.last() == line@[i as int]);
            assert(all_digits(t));
            assert(digits_value(t) == value * 10 + d);
        }
        if value > 429496729 || (value == 429496729 && d > 5) {
            // the count overflows the id width: the line keeps its
            // shape but its number does not fit, so it does not parse
            let mut k: usize = i + 1;
            while k < len
                invariant
                    len == line@.len(),
                    i < k,
                    k <= len,
                    i < line@.len(),
                    forall|j: int| 0 <= j < i ==> line@[j] != ' ',
                    forall|j: int| i < j < k ==> line@[j] != ' ',
                    line@[i as int] != ' ',
                    all_digits(line@.take(i as int + 1)),
                    digits_value(line@.take(i as int + 1)) > u32::MAX,
                decreases len - k,
            {
                if line.get_char(k) == ' ' {
                    proof {
                        lemma_split_skip(line@, k as int);
                        assert(line@.skip(k as int)[0] == ' ');
                        let p0 = line@.take(k as int);
                        if all_digits(p0) {
                            assert(line@.take(i as int + 1) =~= p0.take(i as int + 1));
                            lemma_digits_value_monotone(p0, i as int + 1);
                        }
                        assert(line@.take(k as int) + Seq::<char>::empty() =~= line@.take(
                            k as int,
                        ));
                    }
                    return None;
                }
                k = k + 1;
            }
            proof {
                lemma_split_skip(line@, len as int);
                assert(line@.skip(len as int).len() == 0);
            }
            return None;
        }
        value = value * 10 + d;
        i = i + 1;
    }
    proof {
        lemma_split_skip(line@, len as int);
        assert(line@.skip(len as int).len() == 0);
    }
    None
}

impl Library {
    /// The position of the first card whose title answers to `name`.
    pub fn find_card_by_title(&self, name: &str) -> (r: Option<usize>)
        ensures
            r matches Some(i) ==> 0 <= i < self.cards@.len() && title_matches(
                (self.cards@[i as int])@,
                name@,
            ) && (forall|j: int|
                0 <= j < i ==> !title_matches((#[trigger] self.cards@[j])@, name@)),
            r.is_none() ==> forall|j: int|
                0 <= j < self.cards@.len() ==> !title_matches(
                    (#[trigger] self.cards@[j])@,
                    name@,
                ),
    {
        let mut i: usize = 0;
        while i < self.cards.len()
            invariant
                i <= self.cards@.len(),
                forall|j: int| 0 <= j < i ==> !title_matches((#[trigger] self.cards@[j])@, name@),
            decreases self.cards@.len() - i,
        {
            let c = &self.cards[i];
            if crate::strutil::str_eq(c.title.title.as_str(), name) || crate::strutil::str_eq(
                c.title.stripped_title.as_str(),
                name,
            ) {
                return Some(i);
            }
            i = i + 1;
        }
        None
    }
}


/// Position of the first card of `s` whose title answers to `name`
/// (`-1` when none does).
pub open spec fn first_title_match_index(s: Seq<CardMetadata>, name: Seq<char>) -> int
    decreases s.len(),
{
    if s.len() == 0 {
        -1
    } else if title_matches(s[0]@, name) {
        0
    } else {
        let r = first_title_match_index(s.skip(1), name);
        if r < 0 {
            -1
        } else {
            r + 1
        }
    }
}

/// A position matching with no earlier match is the first match.
proof fn lemma_first_match_at(s: Seq<CardMetadata>, name: Seq<char>, i: int)
    requires
        0 <= i < s.len(),
        title_matches(s[i]@, name),
        forall|j: int| 0 <= j < i ==> !title_matches((#[trigger] s[j])@, name),
    ensures
        first_title_match_index(s, name) == i,
    decreases i,
{
    if i == 0 {
    } else {
        assert(!title_matches(s[0]@, name));
        assert(s.skip(1)[i - 1] == s[i]);
        assert(forall|j: int| 0 <= j < i - 1 ==> !title_matches((#[trigger] s.skip(1)[j])@, name));
        lemma_first_match_at(s.skip(1), name, i - 1);
    }
}

/// Without a match there is no first match.
proof fn lemma_first_match_none(s: Seq<CardMetadata>, name: Seq<char>)
    requires
        forall|j: int| 0 <= j < s.len() ==> !title_matches((#[trigger] s[j])@, name),
    ensures
        first_title_match_index(s, name) == -1,
    decreases s.len(),
{
    if s.len() > 0 {
        assert(forall|j: int| 0 <= j < s.len() - 1 ==> !title_matches((#[trigger] s.skip(1)[j])@, name));
        lemma_first_match_none(s.skip(1), name);
    }
}

/// Whether `s` holds the preferred printing of one of the variants
/// `1..=n` of a card with these printings.
pub open spec fn slot_is_some_variant(s: SlotView, keys: Seq<crate::ids::FaceKey>, n: usize) -> bool {
    exists|v: usize| 1 <= v <= n && #[trigger] slot_is_preferred(s, keys, v)
}

/// A slot holding variant `w`'s preferred printing holds some
/// variant's.
proof fn lemma_some_variant(s: SlotView, keys: Seq<crate::ids::FaceKey>, n: usize, w: usize)
    requires
        1 <= w <= n,
        slot_is_preferred(s, keys, w),
    ensures
        slot_is_some_variant(s, keys, n),
{
    assert(1 <= w <= n && slot_is_preferred(s, keys, w));
}

/// How one imported deck-list line changes the print file: a line
/// that does not parse, names no card of the catalog, or asks for a
/// card whose required printings are missing changes nothing; a
/// resolved single-faced card is appended once per counted copy; a
/// flip card contributes one slot per face per copy; a variant card
/// contributes at most one slot per copy.
pub open spec fn line_import_effect(
    pre: PrintFile,
    post: PrintFile,
    lib: Library,
    line: Seq<char>,
) -> bool {
    &&& post.wf()
    &&& post.slots_view().len() >= pre.slots_view().len()
    &&& forall|j: int|
        0 <= j < pre.slots_view().len() ==> #[trigger] post.slots_view()[j]
            == pre.slots_view()[j]
    &&& match parse_deck_line_spec(line) {
        Option::None => post == pre,
        Option::Some(p) => {
            let fi = first_title_match_index(lib.cards@, p.1);
            if fi < 0 {
                post == pre
            } else {
                let meta = (lib.cards@[fi])@;
                if !pre.add_cards_pre(meta) {
                    post == pre
                } else {
                    match meta.alternate_face_data {
                        AltFacesView::Single => {
                            &&& post.slots_view() == pre.slots_view() + Seq::new(
                                p.0 as nat,
                                |q: int| SlotView::Card(meta.printings.last()),
                            )
                            &&& forall|id2: Seq<char>, v2: usize| #[trigger]
                                post.auto_count(id2, v2) == pre.auto_count(id2, v2)
                        },
                        AltFacesView::Multiple(titles) => {
                            &&& post.slots_view().len() == pre.slots_view().len() + p.0 * (
                            titles.len() + 1)
                            &&& forall|m: int, j: int|
                                0 <= m < p.0 && 0 <= j <= titles.len() ==> #[trigger] slot_is_preferred(
                                    post.slots_view()[pre.slots_view().len() + m * (titles.len()
                                        + 1) + j],
                                    meta.printings,
                                    (j + 1) as usize,
                                )
                            &&& forall|id2: Seq<char>, v2: usize| #[trigger]
                                post.auto_count(id2, v2) == pre.auto_count(id2, v2)
                        },
                        AltFacesView::Variants(n) => {
                            &&& post.slots_view().len() <= pre.slots_view().len() + p.0
                            &&& forall|j: int|
                                pre.slots_view().len() <= j < post.slots_view().len()
                                    ==> slot_is_some_variant(
                                    #[trigger] post.slots_view()[j],
                                    meta.printings,
                                    n,
                                )
                            &&& forall|id2: Seq<char>, v2: usize|
                                id2 != meta.id ==> #[trigger] post.auto_count(id2, v2)
                                    == pre.auto_count(id2, v2)
                            &&& forall|v: usize| #[trigger]
                                post.auto_count(meta.id, v) >= pre.auto_count(meta.id, v)
                        },
                    }
                }
            }
        },
    }
}

/// Imports one deck-list line: parses `"<count> <card name>"`,
/// resolves the name against the catalog by exact title, and appends
/// the card's slots once per counted copy; a line that cannot be
/// parsed or resolved is skipped.
pub fn import_deck_line(pf: &mut PrintFile, lib: &Library, line: &str)
    requires
        old(pf).wf(),
        lib.wf(),
    ensures
        line_import_effect(*old(pf), *final(pf), *lib, line@),
{
    let parsed = parse_deck_line(line);
    let (count, name) = match parsed {
        Option::Some(p) => p,
        Option::None => {
            return ;
        },
    };
    let fi = match lib.find_card_by_title(name) {
        Option::Some(i) => i,
        Option::None => {
            proof {
                lemma_first_match_none(lib.cards@, name@);
            }
            return ;
        },
    };
    proof {
        lemma_first_match_at(lib.cards@, name@, fi as int);
    }
    let meta = &lib.cards[fi];
    proof {
        assert(meta@.wf());
    }
    if !pf.can_add_cards(meta) {
        return ;
    }
    match &meta.alternate_face_data {
        AlternateFaceMetadata::Single => {
            let mut q: usize = 0;
            while q < count as usize
                invariant
                    pf.wf(),
                    lib.wf(),
                    parse_deck_line_spec(line@) == Option::Some((count as int, name@)),
                    first_title_match_index(lib.cards@, name@) == fi as int,
                    meta == &lib.cards@[fi as int],
                    fi < lib.cards@.len(),
                    meta@.wf(),
                    old(pf).add_cards_pre(meta@),
                    meta@.alternate_face_data matches AltFacesView::Single,
                    meta@.printings.len() > 0,
                    q <= count,
                    pf.slots_view() =~= old(pf).slots_view() + Seq::new(
                        q as nat,
                        |x: int| SlotView::Card(meta@.printings.last()),
                    ),
                    forall|id2: Seq<char>, v2: usize| #[trigger]
                        pf.auto_count(id2, v2) == old(pf).auto_count(id2, v2),
                decreases count - q,
            {
                let ghost snap = *pf;
                pf.add_cards(meta);
                q = q + 1;
                proof {
                    assert(pf.slots_view() =~= old(pf).slots_view() + Seq::new(
                        q as nat,
                        |x: int| SlotView::Card(meta@.printings.last()),
                    ));
                    assert forall|id2: Seq<char>, v2: usize| #[trigger]
                        pf.auto_count(id2, v2) == old(pf).auto_count(id2, v2) by {
                        assert(pf.auto_count(id2, v2) == snap.auto_count(id2, v2));
                    };
                }
            }
        },
        AlternateFaceMetadata::Multiple(titles) => {
            let mut q: usize = 0;
            while q < count as usize
                invariant
                    pf.wf(),
                    lib.wf(),
                    parse_deck_line_spec(line@) == Option::Some((count as int, name@)),
                    first_title_match_index(lib.cards@, name@) == fi as int,
                    meta == &lib.cards@[fi as int],
                    fi < lib.cards@.len(),
                    meta@.wf(),
                    old(pf).add_cards_pre(meta@),
                    meta@.alternate_face_data == AltFacesView::Multiple(
                        titles@.map_values(|t: crate::ids::Title| t@),
                    ),
                    q <= count,
                    pf.slots_view().len() == old(pf).slots_view().len() + q * (titles@.len() + 1),
                    forall|j: int|
                        0 <= j < old(pf).slots_view().len() ==> #[trigger] pf.slots_view()[j]
                            == old(pf).slots_view()[j],
                    forall|m: int, j: int|
                        0 <= m < q && 0 <= j <= titles@.len() ==> #[trigger] slot_is_preferred(
                            pf.slots_view()[old(pf).slots_view().len() + m * (titles@.len() + 1)
                                + j],
                            meta@.printings,
                            (j + 1) as usize,
                        ),
                    forall|id2: Seq<char>, v2: usize| #[trigger]
                        pf.auto_count(id2, v2) == old(pf).auto_count(id2, v2),
                decreases count - q,
            {
                let ghost snap = *pf;
                pf.add_cards(meta);
                q = q + 1;
                proof {
                    let t1 = titles@.len() + 1;
                    assert(pf.slots_view().len() == snap.slots_view().len() + titles@.map_values(
                        |t: crate::ids::Title| t@,
                    ).len() + 1);
                    assert((q - 1) * t1 + t1 == q * t1) by (nonlinear_arith);
                    assert forall|id2: Seq<char>, v2: usize| #[trigger]
                        pf.auto_count(id2, v2) == old(pf).auto_count(id2, v2) by {
                        assert(pf.auto_count(id2, v2) == snap.auto_count(id2, v2));
                    };
                    assert forall|m: int, j: int|
                        0 <= m < q && 0 <= j <= titles@.len() implies #[trigger] slot_is_preferred(
                        pf.slots_view()[old(pf).slots_view().len() + m * t1 + j],
                        meta@.printings,
                        (j + 1) as usize,
                    ) by {
                        let base = old(pf).slots_view().len() as int;
                        let slen = snap.slots_view().len() as int;
                        let pos = base + m * t1 + j;
                        let qi = q as int;
                        if m == q - 1 {
                            assert(pos == slen + j) by (nonlinear_arith)
                                requires
                                    pos == base + m * t1 + j,
                                    m == qi - 1,
                                    slen == base + (qi - 1) * t1,
                            ;
                            assert(slot_is_preferred(
                                pf.slots_view()[slen + j],
                                meta@.printings,
                                (j + 1) as usize,
                            ));
                        } else {
                            assert(pos < slen) by (nonlinear_arith)
                                requires
                                    pos == base + m * t1 + j,
                                    slen == base + (qi - 1) * t1,
                                    0 <= m <= qi - 2,
                                    0 <= j < t1,
                                    1 <= t1,
                            ;
                            assert(slot_is_preferred(
                                snap.slots_view()[pos],
                                meta@.printings,
                                (j + 1) as usize,
                            ));
                            assert(pf.slots_view()[pos] == snap.slots_view()[pos]);
                        }
                    };
                }
            }
        },
        AlternateFaceMetadata::Variants(n_ref) => {
            let ghost n = *n_ref;
            let mut q: usize = 0;
            while q < count as usize
                invariant
                    pf.wf(),
                    lib.wf(),
                    parse_deck_line_spec(line@) == Option::Some((count as int, name@)),
                    first_title_match_index(lib.cards@, name@) == fi as int,
                    meta == &lib.cards@[fi as int],
                    fi < lib.cards@.len(),
                    meta@.wf(),
                    old(pf).add_cards_pre(meta@),
                    meta@.alternate_face_data == AltFacesView::Variants(n),
                    q <= count,
                    old(pf).slots_view().len() <= pf.slots_view().len(),
                    pf.slots_view().len() <= old(pf).slots_view().len() + q,
                    forall|j: int|
                        0 <= j < old(pf).slots_view().len() ==> #[trigger] pf.slots_view()[j]
                            == old(pf).slots_view()[j],
                    forall|j: int|
                        old(pf).slots_view().len() <= j < pf.slots_view().len()
                            ==> slot_is_some_variant(
                            #[trigger] pf.slots_view()[j],
                            meta@.printings,
                            n,
                        ),
                    forall|id2: Seq<char>, v2: usize|
                        id2 != meta@.id ==> #[trigger] pf.auto_count(id2, v2) == old(
                            pf,
                        ).auto_count(id2, v2),
                    forall|v: usize| #[trigger]
                        pf.auto_count(meta@.id, v) >= old(pf).auto_count(meta@.id, v),
                decreases count - q,
            {
                if !pf.can_add_cards(meta) {
                    return ;
                }
                let ghost snap = *pf;
                pf.add_cards(meta);
                q = q + 1;
                proof {
                    let w = snap.least_used_variant(meta@.id, n);
                    assert(snap.is_least_used(meta@.id, n, w));
                    assert forall|j: int|
                        0 <= j < old(pf).slots_view().len() implies #[trigger] pf.slots_view()[j]
                        == old(pf).slots_view()[j] by {
                        assert(pf.slots_view()[j] == snap.slots_view()[j]);
                    };
                    assert forall|j: int|
                        old(pf).slots_view().len() <= j < pf.slots_view().len() implies slot_is_some_variant(
                        #[trigger] pf.slots_view()[j],
                        meta@.printings,
                        n,
                    ) by {
                        if j < snap.slots_view().len() {
                            assert(pf.slots_view()[j] == snap.slots_view()[j]);
                            assert(slot_is_some_variant(
                                snap.slots_view()[j],
                                meta@.printings,
                                n,
                            ));
                        } else {
                            assert(j == pf.slots_view().len() - 1);
                            assert(pf.slots_view()[j] == pf.slots_view().last());
                            assert(1 <= w <= n);
                            assert(slot_is_preferred(pf.slots_view()[j], meta@.printings, w));
                            lemma_some_variant(pf.slots_view()[j as int], meta@.printings, n, w);
                        }
                    };
                    assert forall|id2: Seq<char>, v2: usize|
                        id2 != meta@.id implies #[trigger] pf.auto_count(id2, v2) == old(
                        pf,
                    ).auto_count(id2, v2) by {
                        assert(pf.auto_count(id2, v2) == snap.auto_count(id2, v2));
                    };
                    assert forall|v: usize| #[trigger]
                        pf.auto_count(meta@.id, v) >= old(pf).auto_count(meta@.id, v) by {
                        if v != w {
                            assert(pf.auto_count(meta@.id, v) == snap.auto_count(meta@.id, v));
                        }
                        assert(snap.auto_count(meta@.id, v) >= old(pf).auto_count(meta@.id, v));
                    };
                }
            }
        },
    }
}


/// Position of the first newline in `s` (`-1` when none).
pub open spec fn first_nl_index(s: Seq<char>) -> int
    decreases s.len(),
{
    if s.len() == 0 {
        -1
    } else if s[0] == '\n' {
        0
    } else {
        let r = first_nl_index(s.skip(1));
        if r < 0 {
            -1
        } else {
            r + 1
        }
    }
}

/// `first_nl_index` finds exactly the first newline.
proof fn lemma_first_nl_index(s: Seq<char>)
    ensures
        -1 <= first_nl_index(s) < s.len(),
        first_nl_index(s) >= 0 ==> s[first_nl_index(s)] == '\n' && (forall|j: int|
            0 <= j < first_nl_index(s) ==> s[j] != '\n'),
        first_nl_index(s) == -1 ==> forall|j: int| 0 <= j < s.len() ==> s[j] != '\n',
    decreases s.len(),
{
    if s.len() > 0 && s[0] != '\n' {
        lemma_first_nl_index(s.skip(1));
        let r = first_nl_index(s.skip(1));
        if r >= 0 {
            assert(s[r + 1] == s.skip(1)[r]);
            assert forall|j: int| 0 <= j < r + 1 implies s[j] != '\n' by {
                if j > 0 {
                    assert(s[j] == s.skip(1)[j - 1]);
                }
            };
        } else {
            assert forall|j: int| 0 <= j < s.len() implies s[j] != '\n' by {
                if j > 0 {
                    assert(s[j] == s.skip(1)[j - 1]);
                }
            };
        }
    }
}

/// A newline at `i` with none before it is the first.
proof fn lemma_first_nl_at(s: Seq<char>, i: int)
    requires
        0 <= i < s.len(),
        s[i] == '\n',
        forall|j: int| 0 <= j < i ==> s[j] != '\n',
    ensures
        first_nl_index(s) == i,
{
    lemma_first_nl_index(s);
    let idx = first_nl_index(s);
    if idx == -1 {
        assert(s[i] != '\n');
    } else if idx < i {
        assert(s[idx] != '\n');
    } else if idx > i {
        assert(s[i] != '\n');
    }
}

/// The lines of a text: the maximal newline-free runs between
/// newlines (an empty text is one empty line).
pub open spec fn split_lines_spec(s: Seq<char>) -> Seq<Seq<char>>
    decreases s.len(),
{
    let idx = first_nl_index(s);
    if 0 <= idx < s.len() {
        seq![s.take(idx)] + split_lines_spec(s.skip(idx + 1))
    } else {
        seq![s]
    }
}

/// The effect of importing the given lines in order: each line's
/// effect chained through intermediate states.
pub open spec fn lines_import_effect(
    pre: PrintFile,
    post: PrintFile,
    lib: Library,
    lines: Seq<Seq<char>>,
) -> bool
    decreases lines.len(),
{
    if lines.len() == 0 {
        post == pre
    } else {
        exists|mid: PrintFile|
            #[trigger] line_import_effect(pre, mid, lib, lines[0]) && lines_import_effect(
                mid,
                post,
                lib,
                lines.skip(1),
            )
    }
}

/// One more line's effect extends a chain of line effects.
proof fn lemma_lines_effect_snoc(
    pre: PrintFile,
    mid: PrintFile,
    post: PrintFile,
    lib: Library,
    lines: Seq<Seq<char>>,
    line: Seq<char>,
)
    requires
        lines_import_effect(pre, mid, lib, lines),
        line_import_effect(mid, post, lib, line),
    ensures
        lines_import_effect(pre, post, lib, lines.push(line)),
    decreases lines.len(),
{
    if lines.len() == 0 {
        assert(mid == pre);
        assert(lines.push(line)[0] == line);
        assert(lines.push(line).skip(1) =~= Seq::<Seq<char>>::empty());
        assert(line_import_effect(pre, post, lib, lines.push(line)[0]));
        assert(lines_import_effect(post, post, lib, lines.push(line).skip(1)));
    } else {
        let m1 = choose|m: PrintFile|
            #[trigger] line_import_effect(pre, m, lib, lines[0]) && lines_import_effect(
                m,
                mid,
                lib,
                lines.skip(1),
            );
        lemma_lines_effect_snoc(m1, mid, post, lib, lines.skip(1), line);
        assert(lines.skip(1).push(line) =~= lines.push(line).skip(1));
        assert(lines.push(line)[0] == lines[0]);
        assert(line_import_effect(pre, m1, lib, lines.push(line)[0]));
        assert(lines_import_effect(m1, post, lib, lines.push(line).skip(1)));
    }
}

/// Imports a whole newline-delimited deck list: the text is split at
/// its newlines and each line imported in order, as
/// [`import_deck_line`] does.
pub fn import_deck_text(pf: &mut PrintFile, lib: &Library, text: &str)
    requires
        old(pf).wf(),
        lib.wf(),
    ensures
        final(pf).wf(),
        final(pf).slots_view().len() >= old(pf).slots_view().len(),
        forall|j: int|
            0 <= j < old(pf).slots_view().len() ==> #[trigger] final(pf).slots_view()[j] == old(
                pf,
            ).slots_view()[j],
        lines_import_effect(*old(pf), *final(pf), *lib, split_lines_spec(text@)),
{
    let len = text.unicode_len();
    let mut start: usize = 0;
    let mut i: usize = 0;
    let ghost mut done: Seq<Seq<char>> = Seq::empty();
    proof {
        assert(text@.skip(0) =~= text@);
        assert(done + split_lines_spec(text@.skip(0)) =~= split_lines_spec(text@));
    }
    while i < len
        invariant
            pf.wf(),
            lib.wf(),
            len == text@.len(),
            start <= i <= len,
            pf.slots_view().len() >= old(pf).slots_view().len(),
            forall|j: int|
                0 <= j < old(pf).slots_view().len() ==> #[trigger] pf.slots_view()[j] == old(
                    pf,
                ).slots_view()[j],
            forall|j: int| start <= j < i ==> text@[j] != '\n',
            split_lines_spec(text@) == done + split_lines_spec(text@.skip(start as int)),
            lines_import_effect(*old(pf), *pf, *lib, done),
        decreases len - i,
    {
        if text.get_char(i) == '\n' {
            let line = text.substring_char(start, i);
            let ghost snap = *pf;
            import_deck_line(pf, lib, line);
            proof {
                let suffix = text@.skip(start as int);
                assert(line@ =~= suffix.take(i - start));
                assert(suffix[i - start] == text@[i as int]);
                assert forall|j: int| 0 <= j < i - start implies suffix[j] != '\n' by {
                    assert(suffix[j] == text@[start + j]);
                };
                lemma_first_nl_at(suffix, i - start);
                assert(split_lines_spec(suffix) == seq![suffix.take(i - start)]
                    + split_lines_spec(suffix.skip(i - start + 1)));
                assert(suffix.skip(i - start + 1) =~= text@.skip(i as int + 1));
                lemma_lines_effect_snoc(*old(pf), snap, *pf, *lib, done, line@);
                assert forall|j: int|
                    0 <= j < old(pf).slots_view().len() implies #[trigger] pf.slots_view()[j]
                    == old(pf).slots_view()[j] by {
                    assert(pf.slots_view()[j] == snap.slots_view()[j]);
                };
                done = done.push(line@);
                assert(done =~= done.drop_last() + seq![line@]);
                assert(split_lines_spec(text@) == (done.drop_last() + seq![line@])
                    + split_lines_spec(text@.skip(i as int + 1))) by {
                    assert((done.drop_last() + seq![suffix.take(i - start)]) + split_lines_spec(
                        text@.skip(i as int + 1),
                    ) =~= done.drop_last() + (seq![suffix.take(i - start)] + split_lines_spec(
                        suffix.skip(i - start + 1),
                    )));
                };
            }
            start = i + 1;
        }
        i = i + 1;
    }
    let line = text.substring_char(start, len);
    let ghost snap = *pf;
    import_deck_line(pf, lib, line);
    proof {
        let suffix = text@.skip(start as int);
        assert(line@ =~= suffix);
        assert forall|j: int| 0 <= j < suffix.len() implies suffix[j] != '\n' by {
            assert(suffix[j] == text@[start + j]);
        };
        lemma_first_nl_index(suffix);
        assert(split_lines_spec(suffix) == seq![suffix]);
        lemma_lines_effect_snoc(*old(pf), snap, *pf, *lib, done, line@);
        assert(done.push(line@) =~= done + seq![suffix]);
        assert(split_lines_spec(text@) == done.push(line@));
        assert forall|j: int|
            0 <= j < old(pf).slots_view().len() implies #[trigger] pf.slots_view()[j] == old(
            pf,
        ).slots_view()[j] by {
            assert(pf.slots_view()[j] == snap.slots_view()[j]);
        };
    }
}

} // verus!
