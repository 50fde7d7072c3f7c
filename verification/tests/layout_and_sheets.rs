use magic_greyscale::cli::PaperSize;
use magic_greyscale::collection::{checked_total, filler_needed};
use magic_greyscale::pdf::generator::{print_order, sheet_count, sheet_plan};
use magic_greyscale::pdf::layout::{LayoutConfig, PaperConfig};

#[test]
fn paper_sizes() {
    let a4 = PaperConfig::from_paper_size(&PaperSize::A4);
    assert_eq!((a4.width_hmm, a4.height_hmm), (21000, 29700));
    let letter = PaperConfig::from_paper_size(&PaperSize::Letter);
    assert_eq!((letter.width_hmm, letter.height_hmm), (21590, 27940));
}

#[test]
fn nine_cards_per_page_and_pages_round_up() {
    let l = LayoutConfig::new(&PaperSize::A4);
    assert_eq!(l.cards_per_page(), 9);
    assert_eq!(l.pages_needed(0), 0);
    assert_eq!(l.pages_needed(1), 1);
    assert_eq!(l.pages_needed(9), 1);
    assert_eq!(l.pages_needed(10), 2);
    assert_eq!(l.pages_needed(27), 3);
}

#[test]
fn a4_positions_are_centred_grid() {
    let l = LayoutConfig::new(&PaperSize::A4);
    let slots = l.card_positions();
    assert_eq!(slots.len(), 9);
    // margins in 0.005 mm: (210 - 189) / 2 = 10.5 mm, (297 - 264) / 2 = 16.5 mm
    assert_eq!(l.margin_left(), 2100);
    assert_eq!(l.margin_bottom(), 3300);
    assert_eq!((slots[0].x_hhmm, slots[0].y_hhmm), (2100, 3300 + 2 * 17600));
    assert_eq!((slots[1].x_hhmm, slots[1].y_hhmm), (2100 + 12600, 3300 + 2 * 17600));
    assert_eq!((slots[8].x_hhmm, slots[8].y_hhmm), (2100 + 2 * 12600, 3300));
}

#[test]
fn letter_margins_are_exact() {
    let l = LayoutConfig::new(&PaperSize::Letter);
    let slots = l.card_positions();
    // (215.9 - 189) / 2 = 13.45 mm, (279.4 - 264) / 2 = 7.7 mm
    assert_eq!((slots[6].x_hhmm, slots[6].y_hhmm), (2690, 1540));
}

#[test]
fn odd_leftover_margin_keeps_the_half() {
    let mut l = LayoutConfig::new(&PaperSize::A4);
    l.paper = PaperConfig { width_hmm: 21001, height_hmm: 29700 };
    // (210.01 - 189) / 2 = 10.505 mm, which is 2101 units of 0.005 mm
    assert_eq!(l.margin_left(), 2101);
    assert_eq!(l.card_positions()[0].x_hhmm, 2101);
    assert_eq!(l.cut_lines()[3].x1_hhmm, 2101 + 2 * 18900);
}

#[test]
fn cut_lines_frame_every_card() {
    let l = LayoutConfig::new(&PaperSize::A4);
    let lines = l.cut_lines();
    assert_eq!(lines.len(), 8);
    let v0 = lines[0];
    assert_eq!((v0.x1_hhmm, v0.y1_hhmm, v0.x2_hhmm, v0.y2_hhmm), (2100, 3300, 2100, 3300 + 52800));
    let v3 = lines[3];
    assert_eq!(v3.x1_hhmm, 2100 + 37800);
    let h0 = lines[4];
    assert_eq!((h0.x1_hhmm, h0.y1_hhmm, h0.x2_hhmm, h0.y2_hhmm), (2100, 3300, 2100 + 37800, 3300));
    let h3 = lines[7];
    assert_eq!(h3.y1_hhmm, 3300 + 52800);
    for s in l.card_positions() {
        assert!(lines.iter().any(|c| c.x1_hhmm == s.x_hhmm && c.x2_hhmm == s.x_hhmm));
        assert!(lines.iter().any(|c| c.x1_hhmm == s.x_hhmm + 12600));
        assert!(lines.iter().any(|c| c.y1_hhmm == s.y_hhmm && c.y2_hhmm == s.y_hhmm));
        assert!(lines.iter().any(|c| c.y1_hhmm == s.y_hhmm + 17600 && c.y2_hhmm == s.y_hhmm + 17600));
    }
}

#[test]
fn print_order_repeats_by_quantity() {
    assert_eq!(print_order(&vec![2, 0, 1]), vec![0, 0, 2]);
    assert!(print_order(&vec![]).is_empty());
}

#[test]
fn sheet_plan_fills_pages_in_order() {
    let plan = sheet_plan(&vec![5, 6], 9);
    assert_eq!(plan.len(), 11);
    assert_eq!((plan[0].page, plan[0].slot, plan[0].card), (0, 0, 0));
    assert_eq!((plan[5].page, plan[5].slot, plan[5].card), (0, 5, 1));
    assert_eq!((plan[9].page, plan[9].slot, plan[9].card), (1, 0, 1));
    assert_eq!(sheet_count(0, 9), 1);
    assert_eq!(sheet_count(9, 9), 1);
    assert_eq!(sheet_count(10, 9), 2);
}

#[test]
fn filler_completes_the_last_sheet() {
    assert_eq!(filler_needed(10, 9), 8);
    assert_eq!(filler_needed(9, 9), 0);
    assert_eq!(filler_needed(0, 9), 0);
    assert_eq!(filler_needed(17, 9), 1);
    for total in 0..40usize {
        let f = filler_needed(total, 9);
        assert_eq!((total + f) % 9, 0);
        assert!(f < 9);
    }
}

#[test]
fn totals_checked() {
    assert_eq!(checked_total(&vec![1, 2, 3]), Some(6));
    assert_eq!(checked_total(&vec![]), Some(0));
    assert_eq!(checked_total(&vec![u32::MAX, 1]), None);
    assert_eq!(checked_total(&vec![u32::MAX, 0]), Some(u32::MAX));
}

#[test]
fn layout_range_check() {
    let mut l = LayoutConfig::new(&PaperSize::A4);
    assert!(l.is_in_range());
    l.card_width_hmm = i64::MAX / 2;
    assert!(!l.is_in_range());
}
