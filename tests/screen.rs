use labeled_webcam_photos::menu::{Action, Key, Menu};
use labeled_webcam_photos::raster::{Layout, Raster};
use labeled_webcam_photos::render::{glyph_grid, gray2char, target_terminal_width_height};

fn menu3() -> Menu {
    Menu::from_choices(vec!["a".to_string(), "b".to_string(), "c".to_string()])
}

#[test]
fn menu_up_wraps_from_first_to_last() {
    let mut m = menu3();
    assert_eq!(m.choice_index(), 0);
    m.up();
    assert_eq!(m.choice_index(), 2);
    assert_eq!(m.current_choice(), "c");
    m.up();
    assert_eq!(m.current_choice(), "b");
}

#[test]
fn menu_down_wraps_from_last_to_first() {
    let mut m = menu3();
    m.down();
    m.down();
    assert_eq!(m.choice_index(), 2);
    m.down();
    assert_eq!(m.choice_index(), 0);
    assert_eq!(m.current_choice(), "a");
}

#[test]
fn fit_binds_the_smaller_box_side() {
    assert_eq!(target_terminal_width_height(100, 100, 80, 20), (80, 20));
    assert_eq!(target_terminal_width_height(100, 100, 80, 24), (80, 24));
    assert_eq!(target_terminal_width_height(200, 100, 80, 20), (160, 20));
    assert_eq!(target_terminal_width_height(100, 50, 10, 20), (10, 10));
}

#[test]
fn glyph_ramp_buckets() {
    assert_eq!(gray2char(0), ' ');
    assert_eq!(gray2char(25), ' ');
    assert_eq!(gray2char(26), '.');
    assert_eq!(gray2char(130), '?');
    assert_eq!(gray2char(233), '@');
    assert_eq!(gray2char(234), '#');
    assert_eq!(gray2char(255), '#');
}

#[test]
fn glyph_grid_of_unscaled_image() {
    let img = Raster::new(Layout::Gray, 2, 2, vec![0, 255, 60, 200]).unwrap();
    let g = glyph_grid(&img, 2, 2).unwrap();
    assert_eq!(g, vec![vec![' ', '#'], vec![':', '*']]);
}

#[test]
fn glyph_grid_is_resampled_to_the_fit() {
    let img = Raster::new(Layout::Gray, 2, 2, vec![0, 255, 0, 255]).unwrap();
    let g = glyph_grid(&img, 4, 2).unwrap();
    assert_eq!(g.len(), 2);
    assert_eq!(g[0].len(), 4);
    assert_eq!(g[0][0], ' ');
    assert_eq!(g[0][3], '#');
    let empty = Raster::new(Layout::Gray, 0, 0, vec![]).unwrap();
    assert!(glyph_grid(&empty, 4, 2).is_none());
}

#[test]
fn screen_places_header_menu_and_image() {
    let mut m = menu3();
    m.down();
    let img = Raster::new(Layout::Gray, 2, 2, vec![0, 255, 0, 255]).unwrap();
    let header = vec!["Type `q` to exit".to_string(), "rows: 10".to_string()];
    let s = m.layout_screen(header, &img, true, 10, 4).unwrap();
    assert_eq!(s.header.len(), 2);
    assert_eq!(s.labels, vec!["a".to_string(), "b".to_string(), "c".to_string()]);
    assert_eq!(s.selected, 1);
    assert_eq!(s.image_top, 5);
    assert!(s.flash);
    // 10 rows minus 5 text rows leave a 4 x 5 box: the width binds
    assert_eq!(s.glyphs.len(), 5);
    assert_eq!(s.glyphs[0].len(), 4);
}

#[test]
fn screen_with_no_rows_left_has_empty_image() {
    let m = menu3();
    let img = Raster::new(Layout::Gray, 2, 2, vec![0; 4]).unwrap();
    let s = m.layout_screen(vec!["h".to_string()], &img, false, 3, 80).unwrap();
    assert_eq!(s.glyphs.len(), 0);
}

#[test]
fn keys_move_the_menu_and_choose_actions() {
    let mut m = menu3();
    assert_eq!(m.on_key(Key::Up), Action::Continue);
    assert_eq!(m.choice_index(), 2);
    assert_eq!(m.on_key(Key::Down), Action::Continue);
    assert_eq!(m.choice_index(), 0);
    assert_eq!(m.on_key(Key::Char('p')), Action::Capture);
    assert_eq!(m.on_key(Key::Char('\n')), Action::Capture);
    assert_eq!(m.on_key(Key::Char('x')), Action::Continue);
    assert_eq!(m.on_key(Key::Other), Action::Continue);
    assert_eq!(m.on_key(Key::Char('q')), Action::Quit);
    assert_eq!(m.choice_index(), 0);
}
