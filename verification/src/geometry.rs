//! Page-layout engine for the 3x3 proxy grid.
//!
//! All lengths are integers in units of 1/36000 mm ([`UNITS_PER_MM`]).
//! That unit is chosen so that every quantity the engine works with is
//! exact: paper sizes given to a thousandth of a millimetre, the 98%
//! card cell, inches at 25.4 mm, and printer's points at 72 to the inch
//! all land on integers.  The image scale factor is the exact rational
//! `scale_num / scale_den`.

use vstd::prelude::*;

verus! {

/// Number of length units per millimetre.
pub const UNITS_PER_MM: i64 = 36000;

/// One inch: 25.4 mm.
pub const UNITS_PER_IN: i64 = 914400;

/// Half of a cut indicator's hairline thickness: the hairlines are
/// half a printer's point thick in total (1 pt = 1/72 in), so each
/// spans a quarter point to either side of its line.
pub const HALF_HAIRLINE: i64 = 3175;

/// A quarter inch: how far cut lines overhang the card block.
pub const QUARTER_IN: i64 = 228600;

/// An eighth of an inch: the half-length of a corner tick mark.
pub const EIGHTH_IN: i64 = 114300;

/// A4 paper: 210 mm wide.
pub const A4_WIDTH: i64 = 7560000;

/// A4 paper: 297 mm tall.
pub const A4_HEIGHT: i64 = 10692000;

/// US letter paper: 8.5 in wide (215.9 mm).
pub const US_LETTER_WIDTH: i64 = 7772400;

/// US letter paper: 11 in tall (279.4 mm).
pub const US_LETTER_HEIGHT: i64 = 10058400;

/// Nominal cell width: 98% of a true card's 2.5 in, leaving a hairline
/// margin between cells even with no bleed.
pub const CARD_WIDTH: i64 = 2240280;

/// Nominal cell height: 98% of a true card's 3.5 in.  Exactly
/// `7 * CARD_WIDTH / 5`, since a card is 2.5 in by 3.5 in.
pub const CARD_HEIGHT: i64 = 3136392;

/// Rendering resolution handed to the rendering driver; fixed
/// regardless of paper size and bleed.
pub const RENDER_DPI: u32 = 300;

/// Supported paper sizes.
#[derive(Debug, Copy, Clone, Default, PartialEq, Eq, Hash, Structural)]
pub enum PrintSize {
    #[default]
    A4,
    UsLetter,
}

impl PrintSize {
    /// Display name of the paper size.
    pub fn label(&self) -> (r: &'static str)
        ensures
            *self == PrintSize::A4 ==> r@ == "A4"@,
            *self == PrintSize::UsLetter ==> r@ == "US Letter"@,
    {
        match self {
            PrintSize::A4 => "A4",
            PrintSize::UsLetter => "US Letter",
        }
    }
}

/// Cut-indicator styles drawn over each page.
#[derive(Debug, Copy, Clone, Default, PartialEq, Eq, Hash, Structural)]
pub enum CutIndicator {
    #[default]
    Lines,
    Marks,
    Off,
}

impl CutIndicator {
    /// Display name of the cut-indicator style.
    pub fn label(&self) -> (r: &'static str)
        ensures
            *self == CutIndicator::Lines ==> r@ == "Lines"@,
            *self == CutIndicator::Marks ==> r@ == "Marks"@,
            *self == CutIndicator::Off ==> r@ == "None"@,
    {
        match self {
            CutIndicator::Lines => "Lines",
            CutIndicator::Marks => "Marks",
            CutIndicator::Off => "None",
        }
    }
}

/// How much of the image around the card face is trimmed away: the
/// bleed is cut off the nominal cell equally on every side.
#[derive(Debug, Copy, Clone, Default, PartialEq, Eq, Hash, Structural)]
pub enum BleedMode {
    #[default]
    Borderless,
    Narrow,
    Medium,
    Wide,
}

impl BleedMode {
    /// Bleed magnitude in length units (0, 2, 4 or 6 mm).
    pub open spec fn spec_bleed(self) -> i64 {
        match self {
            BleedMode::Borderless => 0,
            BleedMode::Narrow => 72000,
            BleedMode::Medium => 144000,
            BleedMode::Wide => 216000,
        }
    }

    /// Bleed magnitude in length units (0, 2, 4 or 6 mm).
    pub fn bleed(self) -> (r: i64)
        ensures
            r == self.spec_bleed(),
    {
        match self {
            BleedMode::Borderless => 0,
            BleedMode::Narrow => 72000,
            BleedMode::Medium => 144000,
            BleedMode::Wide => 216000,
        }
    }

    /// Display name of the bleed mode.
    pub fn label(&self) -> (r: &'static str)
        ensures
            *self == BleedMode::Borderless ==> r@ == "None"@,
            *self == BleedMode::Narrow ==> r@ == "Narrow"@,
            *self == BleedMode::Medium ==> r@ == "Medium"@,
            *self == BleedMode::Wide ==> r@ == "Wide"@,
    {
        match self {
            BleedMode::Borderless => "None",
            BleedMode::Narrow => "Narrow",
            BleedMode::Medium => "Medium",
            BleedMode::Wide => "Wide",
        }
    }
}

/// Placement of one card image on a page: the bottom-left corner of
/// the (bleed-inset) image in length units, and the exact scale factor
/// `scale_num / scale_den` applied to the image.
#[derive(Debug, Copy, Clone, PartialEq, Eq, Structural)]
pub struct SlotPlacement {
    pub x: i64,
    pub y: i64,
    pub scale_num: i64,
    pub scale_den: i64,
}

/// An axis-aligned cut-indicator rectangle, `x1 <= x2` and `y1 <= y2`,
/// in length units.
#[derive(Debug, Copy, Clone, PartialEq, Eq, Structural)]
pub struct MarkRect {
    pub x1: i64,
    pub x2: i64,
    pub y1: i64,
    pub y2: i64,
}

/// The print settings driving the layout of a page.
#[derive(Debug, Copy, Clone, Default, PartialEq, Eq, Hash, Structural)]
pub struct PrintConfig {
    pub print_size: PrintSize,
    pub cut_indicator: CutIndicator,
    pub bleed_mode: BleedMode,
}

impl PrintConfig {
    /// Paper width in length units.
    pub open spec fn spec_paper_width(self) -> i64 {
        match self.print_size {
            PrintSize::A4 => A4_WIDTH,
            PrintSize::UsLetter => US_LETTER_WIDTH,
        }
    }

    /// Paper height in length units.
    pub open spec fn spec_paper_height(self) -> i64 {
        match self.print_size {
            PrintSize::A4 => A4_HEIGHT,
            PrintSize::UsLetter => US_LETTER_HEIGHT,
        }
    }

    /// Paper size `(width, height)` in length units.
    pub fn paper(&self) -> (r: (i64, i64))
        ensures
            r.0 == self.spec_paper_width(),
            r.1 == self.spec_paper_height(),
    {
        match self.print_size {
            PrintSize::A4 => (A4_WIDTH, A4_HEIGHT),
            PrintSize::UsLetter => (US_LETTER_WIDTH, US_LETTER_HEIGHT),
        }
    }

    /// Left edge of the 3x3 card block: the block is centered on the
    /// page.
    pub open spec fn spec_block_left(self) -> i64 {
        ((self.spec_paper_width() - 3 * CARD_WIDTH) / 2) as i64
    }

    /// Bottom edge of the 3x3 card block: the block is centered on the
    /// page.
    pub open spec fn spec_block_bottom(self) -> i64 {
        ((self.spec_paper_height() - 3 * CARD_HEIGHT) / 2) as i64
    }

    /// Horizontal inset of the scaled-down image within its nominal
    /// cell: half the horizontal shrink, which equals half the bleed.
    pub open spec fn spec_inset_x(self) -> i64 {
        (self.bleed_mode.spec_bleed() / 2) as i64
    }

    /// Vertical inset of the scaled-down image within its nominal
    /// cell: half the vertical shrink.  The cell is 7/5 as tall as it
    /// is wide, so the vertical shrink is 7/5 of the bleed.
    pub open spec fn spec_inset_y(self) -> i64 {
        (7 * self.bleed_mode.spec_bleed() / 10) as i64
    }

    /// Exact placement of grid cell `n`: column `n % 3` counted from
    /// the left, row `n / 3` counted from the top of the page (so the
    /// bottom row has the highest `n`).
    pub open spec fn spec_slot(self, n: int) -> SlotPlacement {
        SlotPlacement {
            x: ((n % 3) * CARD_WIDTH + self.spec_block_left() + self.spec_inset_x()) as i64,
            y: ((2 - n / 3) * CARD_HEIGHT + self.spec_block_bottom() + self.spec_inset_y()) as i64,
            scale_num: (CARD_WIDTH - self.bleed_mode.spec_bleed()) as i64,
            scale_den: CARD_WIDTH,
        }
    }

    /// Placement of grid cell `n` of the nine on a page.
    pub fn slot(&self, n: usize) -> (p: SlotPlacement)
        requires
            n < 9,
        ensures
            p == self.spec_slot(n as int),
    {
        let bleed = self.bleed_mode.bleed();
        let column = (n % 3) as i64;
        let row = (n / 3) as i64;
        SlotPlacement {
            x: column * CARD_WIDTH + (self.paper().0 - 3 * CARD_WIDTH) / 2 + bleed / 2,
            y: (2 - row) * CARD_HEIGHT + (self.paper().1 - 3 * CARD_HEIGHT) / 2 + 7 * bleed / 10,
            scale_num: CARD_WIDTH - bleed,
            scale_den: CARD_WIDTH,
        }
    }

    /// Cut line `i` of the eight drawn in `Lines` mode: the first four
    /// are vertical hairlines at the column boundaries of the block,
    /// the next four horizontal hairlines at its row boundaries, each
    /// overhanging the block by a quarter inch.
    pub open spec fn spec_cut_line(self, i: int) -> MarkRect {
        if i < 4 {
            MarkRect {
                x1: (self.spec_block_left() + i * CARD_WIDTH - HALF_HAIRLINE) as i64,
                x2: (self.spec_block_left() + i * CARD_WIDTH + HALF_HAIRLINE) as i64,
                y1: (self.spec_block_bottom() - QUARTER_IN) as i64,
                y2: (self.spec_block_bottom() + 3 * CARD_HEIGHT + QUARTER_IN) as i64,
            }
        } else {
            MarkRect {
                x1: (self.spec_block_left() - QUARTER_IN) as i64,
                x2: (self.spec_block_left() + 3 * CARD_WIDTH + QUARTER_IN) as i64,
                y1: (self.spec_block_bottom() + (i - 4) * CARD_HEIGHT - HALF_HAIRLINE) as i64,
                y2: (self.spec_block_bottom() + (i - 4) * CARD_HEIGHT + HALF_HAIRLINE) as i64,
            }
        }
    }

    /// Tick mark `i` of the 32 drawn in `Marks` mode: two ticks (a
    /// horizontal and a vertical one, a quarter inch long and a
    /// hairline thick) centered on each of the 4x4 cell-boundary
    /// intersections of the block.
    pub open spec fn spec_tick(self, i: int) -> MarkRect {
        let cx = self.spec_block_left() + (i / 8) * CARD_WIDTH;
        let cy = self.spec_block_bottom() + ((i % 8) / 2) * CARD_HEIGHT;
        if i % 2 == 0 {
            MarkRect {
                x1: (cx - EIGHTH_IN) as i64,
                x2: (cx + EIGHTH_IN) as i64,
                y1: (cy - HALF_HAIRLINE) as i64,
                y2: (cy + HALF_HAIRLINE) as i64,
            }
        } else {
            MarkRect {
                x1: (cx - HALF_HAIRLINE) as i64,
                x2: (cx + HALF_HAIRLINE) as i64,
                y1: (cy - EIGHTH_IN) as i64,
                y2: (cy + EIGHTH_IN) as i64,
            }
        }
    }

    /// The cut-indicator rectangles of one page.
    pub open spec fn spec_marks(self) -> Seq<MarkRect> {
        match self.cut_indicator {
            CutIndicator::Lines => Seq::new(8, |i| self.spec_cut_line(i)),
            CutIndicator::Marks => Seq::new(32, |i| self.spec_tick(i)),
            CutIndicator::Off => Seq::empty(),
        }
    }

    /// Cut-indicator rectangles for one page: none, 8 cut lines, or 32
    /// corner ticks, by mode.
    pub fn marks(&self) -> (r: Vec<MarkRect>)
        ensures
            r@ == self.spec_marks(),
            self.cut_indicator == CutIndicator::Off ==> r@.len() == 0,
            self.cut_indicator == CutIndicator::Lines ==> r@.len() == 8,
            self.cut_indicator == CutIndicator::Marks ==> r@.len() == 32,
    {
        let mut r: Vec<MarkRect> = Vec::new();
        match self.cut_indicator {
            CutIndicator::Lines => {
                let left = (self.paper().0 - 3 * CARD_WIDTH) / 2;
                let bottom = (self.paper().1 - 3 * CARD_HEIGHT) / 2;
                let mut k: usize = 0;
                while k < 4
                    invariant
                        self.cut_indicator == CutIndicator::Lines,
                        left == self.spec_block_left(),
                        bottom == self.spec_block_bottom(),
                        k <= 4,
                        r@.len() == k,
                        forall|i: int| 0 <= i < k ==> r@[i] == self.spec_cut_line(i),
                    decreases 4 - k,
                {
                    let x = left + (k as i64) * CARD_WIDTH;
                    r.push(MarkRect {
                        x1: x - HALF_HAIRLINE,
                        x2: x + HALF_HAIRLINE,
                        y1: bottom - QUARTER_IN,
                        y2: bottom + 3 * CARD_HEIGHT + QUARTER_IN,
                    });
                    k = k + 1;
                }
                let mut k: usize = 0;
                while k < 4
                    invariant
                        self.cut_indicator == CutIndicator::Lines,
                        left == self.spec_block_left(),
                        bottom == self.spec_block_bottom(),
                        k <= 4,
                        r@.len() == 4 + k,
                        forall|i: int| 0 <= i < 4 + k ==> r@[i] == self.spec_cut_line(i),
                    decreases 4 - k,
                {
                    let y = bottom + (k as i64) * CARD_HEIGHT;
                    r.push(MarkRect {
                        x1: left - QUARTER_IN,
                        x2: left + 3 * CARD_WIDTH + QUARTER_IN,
                        y1: y - HALF_HAIRLINE,
                        y2: y + HALF_HAIRLINE,
                    });
                    k = k + 1;
                }
                assert(r@ =~= self.spec_marks());
            },
            CutIndicator::Marks => {
                let left = (self.paper().0 - 3 * CARD_WIDTH) / 2;
                let bottom = (self.paper().1 - 3 * CARD_HEIGHT) / 2;
                let mut x: usize = 0;
                while x < 4
                    invariant
                        self.cut_indicator == CutIndicator::Marks,
                        left == self.spec_block_left(),
                        bottom == self.spec_block_bottom(),
                        x <= 4,
                        r@.len() == 8 * x,
                        forall|i: int| 0 <= i < 8 * x ==> r@[i] == self.spec_tick(i),
                    decreases 4 - x,
                {
                    let cx = left + (x as i64) * CARD_WIDTH;
                    let mut y: usize = 0;
                    while y < 4
                        invariant
                            self.cut_indicator == CutIndicator::Marks,
                            left == self.spec_block_left(),
                            bottom == self.spec_block_bottom(),
                            x < 4,
                            y <= 4,
                            cx == self.spec_block_left() + x * CARD_WIDTH,
                            r@.len() == 8 * x + 2 * y,
                            forall|i: int| 0 <= i < 8 * x + 2 * y ==> r@[i] == self.spec_tick(i),
                        decreases 4 - y,
                    {
                        let cy = bottom + (y as i64) * CARD_HEIGHT;
                        let ghost i = r@.len() as int;
                        assert(i == 8 * (x as int) + 2 * (y as int));
                        assert(i / 8 == x && (i % 8) / 2 == y && i % 2 == 0);
                        r.push(MarkRect {
                            x1: cx - EIGHTH_IN,
                            x2: cx + EIGHTH_IN,
                            y1: cy - HALF_HAIRLINE,
                            y2: cy + HALF_HAIRLINE,
                        });
                        assert((i + 1) / 8 == x && ((i + 1) % 8) / 2 == y && (i + 1) % 2 == 1);
                        r.push(MarkRect {
                            x1: cx - HALF_HAIRLINE,
                            x2: cx + HALF_HAIRLINE,
                            y1: cy - EIGHTH_IN,
                            y2: cy + EIGHTH_IN,
                        });
                        y = y + 1;
                    }
                    x = x + 1;
                }
                assert(r@ =~= self.spec_marks());
            },
            CutIndicator::Off => {
                assert(r@ =~= self.spec_marks());
            },
        }
        r
    }
}

/// With no bleed, the nine cell placements form an evenly spaced 3x3
/// grid of nominal cells, centered on the page, each at unit scale:
/// cell `n` sits one cell width per column and one cell height per row
/// from the block corner, and the block's margins are equal on both
/// sides of each axis.
pub proof fn lemma_grid_centered(c: PrintConfig)
    requires
        c.bleed_mode == BleedMode::Borderless,
    ensures
        forall|n: int|
            0 <= n < 9 ==> (#[trigger] c.spec_slot(n)).x == c.spec_block_left() + (n % 3)
                * CARD_WIDTH,
        forall|n: int|
            0 <= n < 9 ==> (#[trigger] c.spec_slot(n)).y == c.spec_block_bottom() + (2 - n / 3)
                * CARD_HEIGHT,
        forall|n: int|
            0 <= n < 9 ==> (#[trigger] c.spec_slot(n)).scale_num == c.spec_slot(n).scale_den,
        2 * c.spec_block_left() + 3 * CARD_WIDTH == c.spec_paper_width(),
        2 * c.spec_block_bottom() + 3 * CARD_HEIGHT == c.spec_paper_height(),
{
}

} // verus!
