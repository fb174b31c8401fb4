use proxy_elev::BleedMode;
use proxy_elev::CutIndicator;
use proxy_elev::PrintConfig;
use proxy_elev::PrintSize;
use proxy_elev::UNITS_PER_MM;

const CARD_WIDTH: i64 = 2240280;
const CARD_HEIGHT: i64 = 3136392;

fn config(size: PrintSize, cut: CutIndicator, bleed: BleedMode) -> PrintConfig {
    PrintConfig { print_size: size, cut_indicator: cut, bleed_mode: bleed }
}

#[test]
fn paper_sizes() {
    let a4 = config(PrintSize::A4, CutIndicator::Lines, BleedMode::Borderless);
    assert_eq!(a4.paper(), (210 * UNITS_PER_MM, 297 * UNITS_PER_MM));
    let letter = config(PrintSize::UsLetter, CutIndicator::Lines, BleedMode::Borderless);
    // 8.5 in by 11 in
    assert_eq!(letter.paper(), (7_772_400, 10_058_400));
    assert_eq!(letter.paper().0 as f32 / UNITS_PER_MM as f32, 215.9);
    assert_eq!(letter.paper().1 as f32 / UNITS_PER_MM as f32, 279.4);
}

#[test]
fn bleed_magnitudes() {
    assert_eq!(BleedMode::Borderless.bleed(), 0);
    assert_eq!(BleedMode::Narrow.bleed(), 2 * UNITS_PER_MM);
    assert_eq!(BleedMode::Medium.bleed(), 4 * UNITS_PER_MM);
    assert_eq!(BleedMode::Wide.bleed(), 6 * UNITS_PER_MM);
}

#[test]
fn labels() {
    assert_eq!(PrintSize::A4.label(), "A4");
    assert_eq!(PrintSize::UsLetter.label(), "US Letter");
    assert_eq!(CutIndicator::Lines.label(), "Lines");
    assert_eq!(CutIndicator::Marks.label(), "Marks");
    assert_eq!(CutIndicator::Off.label(), "None");
    assert_eq!(BleedMode::Borderless.label(), "None");
    assert_eq!(BleedMode::Narrow.label(), "Narrow");
    assert_eq!(BleedMode::Medium.label(), "Medium");
    assert_eq!(BleedMode::Wide.label(), "Wide");
}

#[test]
fn slots_form_centered_grid_without_bleed() {
    for size in [PrintSize::A4, PrintSize::UsLetter] {
        let c = config(size, CutIndicator::Off, BleedMode::Borderless);
        let (paper_w, paper_h) = c.paper();
        let left = (paper_w - 3 * CARD_WIDTH) / 2;
        let bottom = (paper_h - 3 * CARD_HEIGHT) / 2;
        for n in 0..9usize {
            let p = c.slot(n);
            // unit scale with no bleed
            assert_eq!(p.scale_num, p.scale_den);
            assert_eq!(p.scale_num as f32 / p.scale_den as f32, 1.0);
            // an evenly spaced 3x3 grid of nominal cells
            assert_eq!(p.x, left + (n as i64 % 3) * CARD_WIDTH);
            assert_eq!(p.y, bottom + (2 - n as i64 / 3) * CARD_HEIGHT);
        }
        // the block is centered: equal margins on both axes
        assert_eq!(2 * left + 3 * CARD_WIDTH, paper_w);
        assert_eq!(2 * bottom + 3 * CARD_HEIGHT, paper_h);
    }
}

#[test]
fn center_cell_on_a4() {
    let c = config(PrintSize::A4, CutIndicator::Off, BleedMode::Borderless);
    assert_eq!(c.paper(), (7_560_000, 10_692_000));
    let p = c.slot(4);
    assert_eq!(p.scale_num, p.scale_den);
    // the center cell sits at the page's geometric center minus half a
    // cell on each axis
    assert_eq!(p.x, 7_560_000 / 2 - CARD_WIDTH / 2);
    assert_eq!(p.y, 10_692_000 / 2 - CARD_HEIGHT / 2);
}

#[test]
fn bleed_shrinks_and_insets() {
    let c = config(PrintSize::A4, CutIndicator::Off, BleedMode::Narrow);
    let p0 = c.slot(0);
    assert_eq!(p0.scale_num, CARD_WIDTH - 2 * UNITS_PER_MM);
    assert_eq!(p0.scale_den, CARD_WIDTH);
    let no_bleed = config(PrintSize::A4, CutIndicator::Off, BleedMode::Borderless).slot(0);
    // half the bleed is added as horizontal offset, 7/10 vertically
    assert_eq!(p0.x - no_bleed.x, UNITS_PER_MM);
    assert_eq!(p0.y - no_bleed.y, 7 * 2 * UNITS_PER_MM / 10);
}

#[test]
fn mark_counts_for_every_combination() {
    for size in [PrintSize::A4, PrintSize::UsLetter] {
        for bleed in [BleedMode::Borderless, BleedMode::Narrow, BleedMode::Medium, BleedMode::Wide]
        {
            assert_eq!(config(size, CutIndicator::Off, bleed).marks().len(), 0);
            assert_eq!(config(size, CutIndicator::Lines, bleed).marks().len(), 8);
            assert_eq!(config(size, CutIndicator::Marks, bleed).marks().len(), 32);
        }
    }
}

#[test]
fn cut_line_geometry() {
    let c = config(PrintSize::A4, CutIndicator::Lines, BleedMode::Borderless);
    let marks = c.marks();
    let left = (7_560_000 - 3 * CARD_WIDTH) / 2;
    let bottom = (10_692_000 - 3 * CARD_HEIGHT) / 2;
    let half_thickness = 3175; // the hairlines are 0.5 pt thick in total
    let quarter_in = 228_600; // 0.25 in
    // the first four are vertical hairlines at the column boundaries
    for k in 0..4 {
        let r = &marks[k];
        assert_eq!(r.x1, left + k as i64 * CARD_WIDTH - half_thickness);
        assert_eq!(r.x2, left + k as i64 * CARD_WIDTH + half_thickness);
        assert_eq!(r.y1, bottom - quarter_in);
        assert_eq!(r.y2, bottom + 3 * CARD_HEIGHT + quarter_in);
    }
    // the last four are horizontal hairlines at the row boundaries
    for k in 0..4 {
        let r = &marks[4 + k];
        assert_eq!(r.x1, left - quarter_in);
        assert_eq!(r.x2, left + 3 * CARD_WIDTH + quarter_in);
        assert_eq!(r.y1, bottom + k as i64 * CARD_HEIGHT - half_thickness);
        assert_eq!(r.y2, bottom + k as i64 * CARD_HEIGHT + half_thickness);
    }
}

#[test]
fn tick_geometry() {
    let c = config(PrintSize::UsLetter, CutIndicator::Marks, BleedMode::Medium);
    let marks = c.marks();
    let (paper_w, paper_h) = c.paper();
    let left = (paper_w - 3 * CARD_WIDTH) / 2;
    let bottom = (paper_h - 3 * CARD_HEIGHT) / 2;
    let half_thickness = 3175; // the ticks are 0.5 pt thick in total
    let eighth_in = 114_300;
    // two ticks per boundary intersection: a horizontal then a
    // vertical one
    for x in 0..4 {
        for y in 0..4 {
            let cx = left + x as i64 * CARD_WIDTH;
            let cy = bottom + y as i64 * CARD_HEIGHT;
            let h = &marks[x * 8 + y * 2];
            assert_eq!((h.x1, h.x2, h.y1, h.y2), (cx - eighth_in, cx + eighth_in, cy - half_thickness, cy + half_thickness));
            let v = &marks[x * 8 + y * 2 + 1];
            assert_eq!((v.x1, v.x2, v.y1, v.y2), (cx - half_thickness, cx + half_thickness, cy - eighth_in, cy + eighth_in));
        }
    }
}
