use rts_alloc::dashboard::{App, Area, Key, Section, Tile};

fn area(width: u16) -> Area {
    Area { x: 2, y: 5, width, height: 9 }
}

fn items(row: &[Tile]) -> Vec<Option<usize>> {
    row.iter().map(|tile| tile.item).collect()
}

#[test]
fn keys_scroll_and_select() {
    let mut app = App::new();
    assert_eq!(app.selected_section, Section::Slabs);
    app.handle_key_event(Key::Left, 4, 3);
    assert_eq!(app.slab_offset, 0);
    for _ in 0..5 {
        app.handle_key_event(Key::Right, 4, 3);
    }
    assert_eq!(app.slab_offset, 2);
    app.handle_key_event(Key::Left, 4, 3);
    assert_eq!(app.slab_offset, 1);
    app.handle_key_event(Key::Down, 4, 3);
    assert_eq!(app.selected_section, Section::Workers);
    app.handle_key_event(Key::Right, 4, 3);
    assert_eq!((app.worker_offset, app.slab_offset), (1, 1));
    app.handle_key_event(Key::Up, 4, 3);
    assert_eq!(app.selected_section, Section::Slabs);
    app.handle_key_event(Key::Other, 4, 3);
    assert!(!app.exit);
    app.handle_key_event(Key::Quit, 4, 3);
    assert!(app.exit);
}

#[test]
fn keys_work_without_slabs() {
    let mut app = App::new();
    app.handle_key_event(Key::Up, 4, 0);
    assert_eq!(app.selected_section, Section::Workers);
    app.handle_key_event(Key::Right, 4, 0);
    assert_eq!(app.worker_offset, 1);
    app.handle_key_event(Key::Down, 4, 0);
    assert_eq!(app.selected_section, Section::Slabs);
    assert!(app.render_slabs(area(75), 0).is_empty());
    app.handle_key_event(Key::Quit, 4, 0);
    assert!(app.exit);
}

#[test]
fn offsets_far_out_are_brought_back() {
    let mut app = App::new();
    app.slab_offset = usize::MAX;
    app.scroll(true, 4, 3);
    assert_eq!(app.slab_offset, 0);
    app.slab_offset = usize::MAX;
    app.scroll(false, 4, 3);
    assert_eq!(app.slab_offset, 2);
    app.slab_offset = usize::MAX;
    app.render_slabs(area(75), 20);
    assert_eq!(app.slab_offset, 15);
}

#[test]
fn titles_mark_the_selected_section() {
    let mut app = App::new();
    assert_eq!(app.workers_title(), "Workers");
    assert_eq!(app.slabs_title(), "Slabs*");
    app.select(true);
    assert_eq!(app.workers_title(), "Workers*");
    assert_eq!(app.slabs_title(), "Slabs");
}

#[test]
fn all_workers_are_shown_where_they_fit() {
    let mut app = App::new();
    app.worker_offset = 2;
    let row = app.render_workers(area(100), 3);
    assert_eq!(items(&row), vec![Some(0), Some(1), Some(2)]);
    assert_eq!(row[2].area, Area { x: 62, y: 5, width: 30, height: 5 });
    assert_eq!(app.worker_offset, 2);
}

#[test]
fn items_beyond_the_row_are_marked() {
    let mut app = App::new();
    // Five boxes fit.
    let row = app.render_slabs(area(75), 20);
    assert_eq!(items(&row), vec![Some(0), Some(1), Some(2), Some(3), None]);
    app.slab_offset = 7;
    let row = app.render_slabs(area(75), 20);
    assert_eq!(items(&row), vec![None, Some(8), Some(9), Some(10), None]);
    // Scrolled too far, the view is moved back.
    app.slab_offset = 19;
    let row = app.render_slabs(area(75), 20);
    assert_eq!(items(&row), vec![None, Some(16), Some(17), Some(18), Some(19)]);
    assert_eq!(app.slab_offset, 15);
    assert_eq!(row[1].area, Area { x: 16, y: 5, width: 14, height: 3 });
}

#[test]
fn a_narrow_area_shows_nothing() {
    let mut app = App::new();
    assert!(app.render_slabs(area(13), 20).is_empty());
    assert!(app.render_workers(area(29), 20).is_empty());
}
