use nacelle::base::{panel_count, Panel, Registry, WidgetCategory, WidgetDef};
use nacelle::layout::def::board_key;
use nacelle::layout::instance::{Instance, InstanceId, InstanceList, GENERATED};
use nacelle::layout::layaut::{
    base_number, base_screen_of, clean, clean_placement, is_legacy, parse_board_header,
    normalize_boards, parse_ref, parse_res_header, parse_screen_key, serialize_header, split_raw,
    token, version_of, with_header,
};

/// The placement's rectangle is opaque to the list; any copyable type does.
type Rect = [i32; 4];

fn registry() -> Registry {
    Registry::new(
        ["w01", "w02", "shell", "clock"]
            .iter()
            .map(|n| WidgetDef {
                name: n.to_string(),
                label: n.to_uppercase(),
                category: WidgetCategory::Board,
            })
            .collect(),
    )
}

fn setup() -> Panel {
    Panel::from_name(&registry(), "w01").expect("the test registry")
}

#[test]
fn the_same_widget_can_stand_on_one_board_twice() {
    let w = setup();
    let mut l = InstanceList::<Rect>::new();
    let a = l.add(w, (0, 0), None);
    let b = l.add(w, (0, 0), None);
    assert_ne!(a, b);
    assert_eq!(l.count_of(w), 2);
    assert_eq!(l.on_board((0, 0)).len(), 2);
}

#[test]
fn removing_the_middle_instance_moves_nobody() {
    let w = setup();
    let mut l = InstanceList::<Rect>::new();
    let (a, b, c) = (l.add(w, (0, 0), None), l.add(w, (0, 0), None), l.add(w, (0, 0), None));
    assert!(l.remove(b));
    assert!(l.get(a).is_some() && l.get(c).is_some());
    assert!(l.get(b).is_none());
    // And the retired id is not handed out again.
    let d = l.add(w, (0, 0), None);
    assert_ne!(d, b);
    assert!(d > c);
}

#[test]
fn restored_ids_are_kept_and_never_reissued() {
    let w = setup();
    let mut l = InstanceList::<Rect>::new();
    assert!(l.restore(Instance::flowing(InstanceId::new(7), w, (0, 0))));
    assert!(!l.restore(Instance::flowing(InstanceId::new(7), w, (1, 0))), "no duplicates");
    assert!(!l.restore(Instance::flowing(InstanceId::none(), w, (0, 0))), "0 is reserved");
    assert_eq!(l.add(w, (0, 0), None), InstanceId::new(8));
}

#[test]
fn generated_ids_stay_out_of_the_counter() {
    let w = setup();
    let mut l = InstanceList::<Rect>::new();
    let g = l.add_generated(w, (0, 0), 3);
    assert!(g.is_generated());
    assert_eq!(g.get(), GENERATED + 3);
    assert_eq!(l.next_free(), 1);
    assert!(!l.restore(Instance::flowing(InstanceId::new(GENERATED + 9), w, (0, 0))));
    l.reserve_up_to(40);
    assert_eq!(l.next_free(), 40);
    l.reserve_up_to(5);
    assert_eq!(l.next_free(), 40, "the counter is never lowered");
    l.reserve_up_to(GENERATED);
    assert_eq!(l.next_free(), 40, "a generated value is no promise");
    assert_eq!(l.add(w, (1, 0), Some([1, 2, 3, 4])).get(), 40);
}

#[test]
fn boards_and_rectangles_move_with_their_identity() {
    let reg = registry();
    let w = setup();
    let s = Panel::from_name(&reg, "SHELL").unwrap();
    let mut l = InstanceList::<Rect>::new();
    let a = l.add(w, (0, 0), None);
    let b = l.add(s, (1, 0), Some([0, 0, 10, 10]));
    assert!(l.set_board(a, (-1, 0)));
    assert!(l.set_rect(b, None));
    assert!(!l.set_rect(InstanceId::new(99), None));
    assert_eq!(l.get(a).unwrap().board, (-1, 0));
    assert!(l.get(b).unwrap().rect.is_none());
    assert_eq!(l.first_of(s), Some(b));
    assert_eq!(l.of_widget(w).len(), 1);
    l.remove_board((-1, 0));
    assert!(l.get(a).is_none());
    assert_eq!(l.len(), 1);
    assert!(!l.is_empty());
}

#[test]
fn the_registry_names_its_widgets() {
    let reg = registry();
    assert_eq!(panel_count(&reg), 4);
    assert_eq!(Panel::all(&reg), vec![Panel(0), Panel(1), Panel(2), Panel(3)]);
    assert_eq!(Panel(2).name(&reg), "shell");
    assert_eq!(Panel(2).label(&reg), "SHELL");
    assert_eq!(Panel(9).name(&reg), "?");
    assert_eq!(Panel(9).label(&reg), "?");
    assert_eq!(Panel(9).category(&reg), WidgetCategory::Board);
    assert_eq!(Panel::from_name(&reg, "Clock"), Some(Panel(3)));
    assert_eq!(Panel::from_name(&reg, "terminal"), None);
    assert_eq!(Panel(3).idx(), 3);
}

#[test]
fn a_fixture_position_shows_its_one_board() {
    assert_eq!(board_key((3, 1)), (0, 1));
    assert_eq!(board_key((-2, -1)), (0, -1));
    assert_eq!(board_key((4, 0)), (4, 0));
}

#[test]
fn headers_read_the_two_section_kinds() {
    assert_eq!(parse_res_header("[1920x1080@27]"), Some((1920, 1080, 27)));
    assert_eq!(parse_res_header("[ 1920 x 1080 @ 27 ]"), Some((1920, 1080, 27)));
    assert_eq!(parse_res_header("[1920x1080]"), None);
    assert_eq!(parse_res_header("1920x1080@27"), None);
    assert_eq!(parse_board_header("[board 2]"), Some((2, 0)));
    assert_eq!(parse_board_header("[board -1]"), Some((-1, 0)));
    assert_eq!(parse_board_header("[board 0 1]"), Some((0, 1)));
    assert_eq!(parse_board_header("[ board  0  -1 ]"), Some((0, -1)));
    assert_eq!(parse_board_header("[board 0]"), None, "home is not a section");
    assert_eq!(parse_board_header("[board 0 0]"), None);
    assert_eq!(parse_board_header("[board 1 2 3]"), None);
    assert_eq!(parse_board_header("[board x]"), None);
    assert_eq!(parse_board_header("[column]"), None);
    assert_eq!(parse_screen_key(" 2560x1440@32 "), Some((2560, 1440, 32)));
}

#[test]
fn comments_are_cut_where_a_word_starts_with_a_hash() {
    assert_eq!(clean("  clock = 1 2 3 4 # note"), "clock = 1 2 3 4");
    assert_eq!(clean("clock#3 = 1"), "clock");
    assert_eq!(clean_placement("  clock#3 = 1 2 3 4 # note"), "clock#3 = 1 2 3 4");
    assert_eq!(clean_placement("# all comment"), "");
}

#[test]
fn a_file_splits_into_its_sections() {
    let text = "version = 2\nclock#1 = 1 2 3 4\n[1920x1080@27]\nclock#1 = 5 6 7 8\n[board 1]\nshell#2 = 0 0 50 50\n[board 0 1]\n";
    let (base, screens, boards) = split_raw(text);
    assert_eq!(base, "version = 2\nclock#1 = 1 2 3 4\n");
    assert_eq!(screens, vec![((1920, 1080, 27), "clock#1 = 5 6 7 8\n".to_string())]);
    assert_eq!(
        boards,
        vec![((1, 0), "shell#2 = 0 0 50 50\n".to_string()), ((0, 1), String::new())]
    );
}

#[test]
fn the_version_is_read_from_the_base_only() {
    assert_eq!(version_of("version = 2\nnext_instance = 5\n"), 2);
    assert_eq!(version_of("clock = 1 2 3 4\n"), 1);
    assert!(is_legacy("clock = 1 2 3 4\n"));
    assert!(!is_legacy("VERSION = 2\n"));
    // A version line inside a board section is not the file's.
    assert_eq!(version_of("x = 1\n[board 1]\nversion = 2\n"), 1);
    // Nor one inside a column.
    assert_eq!(base_number("[column]\nversion = 3\n", "version"), None);
    assert_eq!(base_number("next_instance = 12\n[column]\n", "next_instance"), Some(12));
}

#[test]
fn the_base_records_the_screen_it_was_made_on() {
    assert_eq!(base_screen_of("# x\nscreen = 1920x1080@27\n"), Some((1920, 1080, 27)));
    assert_eq!(base_screen_of("clock = 1 2 3 4\n"), None);
    assert_eq!(base_screen_of("screen = nonsense\nscreen = 1x1@1\n"), None);
}

#[test]
fn a_placement_names_a_widget_and_maybe_an_instance() {
    let reg = registry();
    assert_eq!(parse_ref(&reg, "shell#4"), Some((Panel(2), Some(InstanceId::new(4)))));
    assert_eq!(parse_ref(&reg, " clock "), Some((Panel(3), None)));
    assert_eq!(parse_ref(&reg, "clock#0"), Some((Panel(3), None)));
    assert_eq!(parse_ref(&reg, "clock#x"), Some((Panel(3), None)));
    assert_eq!(parse_ref(&reg, "nothing#4"), None);
}

#[test]
fn a_saved_placement_is_written_with_its_instance() {
    let reg = registry();
    let clock = Panel(3);
    assert_eq!(token(&reg, clock, InstanceId::new(3)), "clock#3");
    assert_eq!(token(&reg, clock, InstanceId::new(GENERATED + 2)), "clock");
    assert_eq!(token(&reg, Panel(0), InstanceId::new(4_000_000)), "w01#4000000");
    assert_eq!(token(&reg, Panel(9), InstanceId::new(1)), "?#1");
    assert_eq!(
        parse_ref(&reg, &token(&reg, clock, InstanceId::new(12))),
        Some((clock, Some(InstanceId::new(12))))
    );
    assert_eq!(parse_ref(&reg, &token(&reg, clock, InstanceId::new(GENERATED))), Some((clock, None)));
    assert_eq!(parse_ref(&reg, &token(&reg, clock, InstanceId::new(0))), Some((clock, None)));
}

fn list_with_next(n: u32) -> InstanceList<Rect> {
    let mut l: InstanceList<Rect> = InstanceList::new();
    l.reserve_up_to(n);
    l
}

#[test]
fn a_stale_promise_is_rewritten_in_place() {
    let l = list_with_next(4);
    let base = "# my layout\nversion = 1\nNext_Instance = 2 # old\nclock = 1 2 3 4\n";
    let out = with_header(base, &l);
    assert_eq!(out, "# my layout\nversion = 2\nnext_instance = 4\nclock = 1 2 3 4\n");
    assert_eq!(base_number(&out, "next_instance"), Some(4));
    assert_eq!(version_of(&out), 2);
}

#[test]
fn missing_promises_go_under_the_opening_comment() {
    let l = list_with_next(7);
    let out = with_header("# title\n\n  # more\nclock = 1\n", &l);
    assert_eq!(out, "# title\n\n  # more\nversion = 2\nnext_instance = 7\nclock = 1\n");
    assert_eq!(base_number(&out, "next_instance"), Some(7));
    assert_eq!(with_header("", &l), "version = 2\nnext_instance = 7\n");
    // Only the missing one is added; the one present is rewritten where it stands.
    let out = with_header("Version = 9\nclock", &l);
    assert_eq!(out, "next_instance = 7\nversion = 2\nclock\n");
    assert_eq!(base_number(&out, "next_instance"), Some(7));
    // A fresh list promises 1.
    let fresh: InstanceList<Rect> = InstanceList::new();
    assert_eq!(with_header("# x\n", &fresh), "# x\nversion = 2\nnext_instance = 1\n");
}

#[test]
fn a_new_file_opens_with_its_two_promises() {
    let l = list_with_next(12);
    let mut out = String::from("# head\n");
    serialize_header(&mut out, &l);
    assert_eq!(out, "# head\nversion = 2\nnext_instance = 12\n");
}

#[test]
fn the_boards_in_use_are_listed_once_in_order() {
    let w = setup();
    let mut l = InstanceList::<Rect>::new();
    l.add(w, (2, 0), None);
    l.add(w, (-1, 0), None);
    l.add(w, (0, 0), None);
    l.add(w, (2, 0), None);
    l.add(w, (0, -1), None);
    assert_eq!(l.boards(), vec![(-1, 0), (0, -1), (0, 0), (2, 0)]);
    assert!(InstanceList::<Rect>::new().boards().is_empty());
}

#[test]
fn writing_a_board_down_gives_its_composed_placements_ids_of_their_own() {
    let w = setup();
    let mut l = InstanceList::<Rect>::new();
    let a = l.add(w, (0, 0), None);
    let g0 = l.add_generated(w, (0, 0), 0);
    let g1 = l.add_generated(w, (1, 0), 1);
    let g2 = l.add_generated(w, (0, 0), 2);
    let map = l.materialize_on(&vec![(0, 0), (3, 0)]);
    assert_eq!(map, vec![(g0, InstanceId::new(2)), (g2, InstanceId::new(3))]);
    assert_eq!(l.next_free(), 4);
    assert!(l.get(g1).is_some(), "a board that does not save keeps its composed placements");
    assert!(l.get(g0).is_none());
    assert_eq!(l.get(InstanceId::new(2)).unwrap().board, (0, 0));
    assert_eq!(l.get(a).unwrap().id, a);
    assert!(l.materialize_on(&vec![(5, 5)]).is_empty());
    assert_eq!(l.next_free(), 4);
    assert_eq!(l.add(w, (0, 0), None), InstanceId::new(4));
}

#[test]
fn boards_are_renumbered_from_the_centre_out_and_instances_follow() {
    let w = setup();
    let mut l = InstanceList::<Rect>::new();
    let home = l.add(w, (0, 0), None);
    let a = l.add(w, (5, 0), None);
    let b = l.add(w, (-3, 0), None);
    let c = l.add(w, (2, 0), None);
    let d = l.add(w, (0, 4), None);
    let e = l.add(w, (0, 7), None);
    let f = l.add(w, (1, 1), None);
    let boards = vec![
        ((5, 0), "five"),
        ((-3, 0), "minus three"),
        ((2, 0), "two"),
        ((0, 4), "four down"),
        ((0, 7), "seven down"),
        ((1, 1), "diagonal"),
        ((0, -2), "two up"),
    ];
    let out = normalize_boards(boards, &mut l);
    assert_eq!(
        out,
        vec![
            ((-1, 0), "minus three"),
            ((0, -1), "two up"),
            ((0, 1), "four down"),
            ((1, 0), "two"),
            ((2, 0), "five"),
        ]
    );
    assert_eq!(l.get(home).unwrap().board, (0, 0));
    assert_eq!(l.get(a).unwrap().board, (2, 0));
    assert_eq!(l.get(b).unwrap().board, (-1, 0));
    assert_eq!(l.get(c).unwrap().board, (1, 0));
    assert_eq!(l.get(d).unwrap().board, (0, 1));
    assert!(l.get(e).is_none(), "a second board under home is dropped, and its instances with it");
    assert!(l.get(f).is_none(), "a diagonal is dropped, and its instances with it");
}

#[test]
fn boards_as_far_out_keep_their_order() {
    let w = setup();
    let mut l = InstanceList::<Rect>::new();
    let x = l.add(w, (4, 0), None);
    let out = normalize_boards(vec![((4, 0), 'x'), ((-4, 0), 'l'), ((4, 0), 'y')], &mut l);
    assert_eq!(out, vec![((-1, 0), 'l'), ((1, 0), 'x'), ((2, 0), 'y')]);
    assert_eq!(l.get(x).unwrap().board, (1, 0));
    let empty: Vec<((i32, i32), u8)> = Vec::new();
    assert!(normalize_boards(empty, &mut l).is_empty());
    assert_eq!(l.len(), 0, "with no board left, only home keeps its instances");
}

#[test]
fn renumbering_never_moves_home() {
    let w = setup();
    let mut l = InstanceList::<Rect>::new();
    let home = l.add(w, (0, 0), None);
    let top = l.add(w, (0, -1000), None);
    let out = normalize_boards(vec![((0, -1000), 'u')], &mut l);
    assert_eq!(out, vec![((0, -1), 'u')]);
    assert_eq!(l.get(home).unwrap().board, (0, 0));
    assert_eq!(l.get(top).unwrap().board, (0, -1));
}

#[test]
fn the_top_and_bottom_boards_keep_their_own_instances() {
    let w = setup();
    let mut l = InstanceList::<Rect>::new();
    let up = l.add(w, (0, -3), None);
    let down = l.add(w, (0, 997), None);
    let out = normalize_boards(vec![((0, -3), 'u'), ((0, 997), 'd')], &mut l);
    assert_eq!(out, vec![((0, -1), 'u'), ((0, 1), 'd')]);
    assert_eq!(l.get(up).unwrap().board, (0, -1));
    assert_eq!(l.get(down).unwrap().board, (0, 1));
}

#[test]
fn a_written_screen_key_reads_back() {
    for (w, h, d) in [(0u32, 0u32, 0u32), (1920, 1080, 24), (u32::MAX, 7, u32::MAX)] {
        assert_eq!(parse_screen_key(&format!("{}x{}@{}", w, h, d)), Some((w, h, d)));
    }
    assert_eq!(parse_screen_key(" 2560 x 1440 @ 32 "), Some((2560, 1440, 32)));
    assert_eq!(parse_screen_key("1920x1080"), None);
}
