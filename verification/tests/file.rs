use nacelle::base::{Panel, Registry, WidgetCategory, WidgetDef};
use nacelle::layout::file::{parse_file, Arrangement, BaseArrangement};
use nacelle::layout::instance::InstanceId;

fn registry() -> Registry {
    Registry::new(
        ["w01", "w02", "shell", "clock"]
            .iter()
            .map(|n| WidgetDef {
                name: n.to_string(),
                label: n.to_uppercase(),
                category: WidgetCategory::Board,
            })
            .collect(),
    )
}

fn panel(name: &str) -> Panel {
    Panel::from_name(&registry(), name).expect("registered")
}

/// Four whole numbers, for the tests.
fn four(v: &str) -> Option<[i32; 4]> {
    let n: Vec<i32> = v.split_whitespace().filter_map(|t| t.parse().ok()).collect();
    if n.len() == 4 { Some([n[0], n[1], n[2], n[3]]) } else { None }
}

#[test]
fn the_recorded_counter_is_reserved_before_any_id_is_handed_out() {
    let text = "version = 2\nnext_instance = 40\nclock#3 = 1 2 16 7\nshell = 20 5 60 60\n";
    let p = parse_file(&registry(), text, four);
    assert!(matches!(p.base, BaseArrangement::Rects));
    assert!(p.instances.get(InstanceId::new(3)).is_some());
    // The version 1 placement clears the file's promise, not just id 3.
    let shell = p.instances.of_widget(panel("shell"));
    assert_eq!(shell.len(), 1);
    assert_eq!(shell[0].id, InstanceId::new(40));
    assert_eq!(p.instances.next_free(), 41);
}

#[test]
fn a_version_one_file_mints_ids_in_file_order_every_time() {
    let text = "w01 = 0 0 10 10\nw02 = 10 0 10 10\nclock = 20 0 10 10\n";
    for _ in 0..2 {
        let p = parse_file(&registry(), text, four);
        let all = p.instances.all();
        assert_eq!(all.len(), 3);
        assert_eq!((all[0].widget, all[0].id), (panel("w01"), InstanceId::new(1)));
        assert_eq!((all[1].widget, all[1].id), (panel("w02"), InstanceId::new(2)));
        assert_eq!((all[2].widget, all[2].id), (panel("clock"), InstanceId::new(3)));
    }
}

#[test]
fn boards_are_renumbered_and_screens_kept_in_order() {
    let text = "[column]\npanel = w01#1 50\n[board 5]\nclock#2 = 1 1 1 1\n[board -2]\n[column]\npanel = shell#3\n[1920x1080@24]\nw01#1 = 0 0 50 50\nw01#1 = 1 1 40 40\n";
    let p = parse_file(&registry(), text, four);
    assert!(matches!(p.base, BaseArrangement::Columns(_)));
    let ids: Vec<(i32, i32)> = p.boards.iter().map(|b| b.0).collect();
    assert_eq!(ids, vec![(-1, 0), (1, 0)]);
    assert!(matches!(p.boards[0].1, Arrangement::Columns(_)));
    assert!(matches!(p.boards[1].1, Arrangement::Rects));
    assert_eq!(p.instances.get(InstanceId::new(2)).unwrap().board, (1, 0));
    assert_eq!(p.instances.get(InstanceId::new(3)).unwrap().board, (-1, 0));
    assert_eq!(p.overrides.len(), 1);
    assert_eq!(p.overrides[0].0, (1920, 1080, 24));
    // The later line for the same instance wins.
    assert_eq!(p.overrides[0].1, vec![(InstanceId::new(1), [1, 1, 40, 40])]);
}

#[test]
fn a_file_with_no_placements_is_generated() {
    let p = parse_file(&registry(), "# only a comment\nscreen = 1920x1080@24\n", four);
    assert!(matches!(p.base, BaseArrangement::Generated));
    assert_eq!(p.base_screen, Some((1920, 1080, 24)));
    assert!(p.instances.is_empty());
}

#[test]
fn a_version_one_base_places_each_line_in_file_order() {
    let text = "w01 = 0 0 50 50\nw02 = 50 0 50 50\n";
    let p = parse_file(&registry(), text, four);
    assert!(matches!(p.base, BaseArrangement::Rects));
    let home = p.instances.on_board((0, 0));
    assert_eq!(home.len(), 2);
    assert_eq!((home[0].id, home[0].widget, home[0].rect), (InstanceId::new(1), panel("w01"), Some([0, 0, 50, 50])));
    assert_eq!((home[1].id, home[1].widget, home[1].rect), (InstanceId::new(2), panel("w02"), Some([50, 0, 50, 50])));
    assert!(p.boards.is_empty());
    assert!(p.overrides.is_empty());
    assert_eq!(p.base_screen, None);
    assert_eq!(p.instances.next_free(), 3);
}

#[test]
fn a_screen_section_keeps_the_last_move_of_each_instance_in_line_order() {
    let text = "version = 2\nnext_instance = 9\nw01#1 = 0 0 50 50\nclock#2 = 1 1 1 1\n\n[800x600@13]\nw01 = 1 1 1 1\nclock#2 = 2 2 2 2\nw01#1 = 3 3 3 3\nshell = 4 4 4 4\nclock#2 = not four\n";
    let p = parse_file(&registry(), text, four);
    assert_eq!(p.overrides.len(), 1);
    assert_eq!(p.overrides[0].0, (800, 600, 13));
    // `w01` means w01's instance on home; its later line replaces the first
    // and moves it after clock; shell has no instance; the unreadable line
    // moves nothing.
    assert_eq!(
        p.overrides[0].1,
        vec![(InstanceId::new(2), [2, 2, 2, 2]), (InstanceId::new(1), [3, 3, 3, 3])]
    );
}
