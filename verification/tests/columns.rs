use nacelle::base::{Panel, Registry, WidgetCategory, WidgetDef};
use nacelle::layout::columns::{parse_flex_into, place, ColumnKey, PanelField};
use nacelle::layout::instance::{Instance, InstanceId, InstanceList, GENERATED};
use nacelle::layout::rects::{rect_lines, screen_target};

type Rect = [i32; 4];

fn registry() -> Registry {
    Registry::new(
        ["w01", "w02", "shell", "clock"]
            .iter()
            .map(|n| WidgetDef {
                name: n.to_string(),
                label: n.to_uppercase(),
                category: WidgetCategory::Board,
            })
            .collect(),
    )
}

fn panel(name: &str) -> Panel {
    Panel::from_name(&registry(), name).expect("registered")
}

#[test]
fn a_flex_section_reads_its_columns_and_places_its_panels() {
    let reg = registry();
    let mut l = InstanceList::<Rect>::new();
    let src = "units = PX\npad_x = 4\n[column]\nbasis = 25%\nmin = 168px # narrowest\npanel = w01#3 40 ref 12 min 6\npanel = clock 60\n[Column]\ngap = 2\npanel = shell#5\n";
    let f = parse_flex_into(&reg, src, (1, 0), &mut l).expect("two columns");
    assert!(f.units_px);
    assert_eq!(f.pad_x.as_deref(), Some("4"));
    assert_eq!(f.columns.len(), 2);
    let c0 = &f.columns[0];
    assert_eq!(c0.settings.len(), 2);
    assert_eq!(c0.settings[0].0, ColumnKey::Basis);
    assert_eq!(c0.settings[0].1, "25%");
    assert_eq!(c0.settings[1].0, ColumnKey::Min);
    assert_eq!(c0.settings[1].1, "168px");
    assert_eq!(c0.entries.len(), 2);
    assert_eq!(c0.entries[0].id, InstanceId::new(3));
    assert_eq!(c0.entries[0].widget, panel("w01"));
    assert_eq!(c0.entries[0].weight.as_deref(), Some("40"));
    assert_eq!(c0.entries[0].fields.len(), 2);
    assert_eq!(c0.entries[0].fields[0].0, PanelField::Ref);
    assert_eq!(c0.entries[0].fields[0].1.as_deref(), Some("12"));
    assert_eq!(c0.entries[0].fields[1].0, PanelField::Min);
    assert_eq!(c0.entries[0].fields[1].1.as_deref(), Some("6"));
    // A version 1 placement gets a fresh identity past the file's 3.
    assert_eq!(c0.entries[1].id, InstanceId::new(4));
    assert_eq!(c0.entries[1].weight.as_deref(), Some("60"));
    let c1 = &f.columns[1];
    assert_eq!(c1.settings[0].0, ColumnKey::Gap);
    assert_eq!(c1.entries[0].id, InstanceId::new(5));
    assert!(c1.entries[0].weight.is_none());
    // Every placement is in the list, flowing on the board it was read for.
    assert_eq!(l.len(), 3);
    for e in c0.entries.iter().chain(c1.entries.iter()) {
        let i = l.get(e.id).expect("placed");
        assert_eq!(i.widget, e.widget);
        assert_eq!(i.board, (1, 0));
        assert!(i.rect.is_none());
    }
    assert_eq!(l.next_free(), 6);
}

#[test]
fn a_column_without_a_known_widget_is_dropped() {
    let reg = registry();
    let mut l = InstanceList::<Rect>::new();
    let src = "[column]\npanel = nosuch 50\n[column]\npanel = w02\n";
    let f = parse_flex_into(&reg, src, (0, 0), &mut l).expect("one column");
    assert_eq!(f.columns.len(), 1);
    assert_eq!(f.columns[0].entries[0].widget, panel("w02"));
    assert_eq!(l.len(), 1);
}

#[test]
fn a_section_with_no_panels_is_no_flex_layout() {
    let reg = registry();
    let mut l = InstanceList::<Rect>::new();
    assert!(parse_flex_into(&reg, "units = px\n[column]\nbasis = 20\n", (0, 0), &mut l).is_none());
    assert!(parse_flex_into(&reg, "", (0, 0), &mut l).is_none());
    assert!(l.is_empty());
}

#[test]
fn settings_outside_a_column_are_only_units_and_pad() {
    let reg = registry();
    let mut l = InstanceList::<Rect>::new();
    let src = "basis = 9\npanel = w01\nunits = du\npad_x = 1\npad_x = wide\n[column]\nunits = px\npanel = w01\n";
    let f = parse_flex_into(&reg, src, (0, 0), &mut l).expect("one column");
    assert!(!f.units_px);
    // The last pad_x stands as written, readable or not.
    assert_eq!(f.pad_x.as_deref(), Some("wide"));
    assert_eq!(f.columns.len(), 1);
    // `units` inside a column is no column setting.
    assert!(f.columns[0].settings.is_empty());
    assert_eq!(l.len(), 1);
}

#[test]
fn a_duplicated_id_gets_a_fresh_identity() {
    let reg = registry();
    let mut l = InstanceList::<Rect>::new();
    let src = "[column]\npanel = w01#2 10 depth 3 ref\npanel = clock#2 10\n";
    let f = parse_flex_into(&reg, src, (0, 0), &mut l).expect("a column");
    let e = &f.columns[0].entries;
    assert_eq!(e[0].id, InstanceId::new(2));
    assert_eq!(e[1].id, InstanceId::new(3));
    // An unknown field is passed over; a last key may stand alone.
    assert_eq!(e[0].fields.len(), 1);
    assert_eq!(e[0].fields[0].0, PanelField::Ref);
    assert!(e[0].fields[0].1.is_none());
}

#[test]
fn placing_keeps_a_free_id_and_replaces_a_taken_one() {
    let w = panel("w01");
    let mut l = InstanceList::<Rect>::new();
    assert_eq!(place(&mut l, w, Some(InstanceId::new(9)), (0, 0), Some([1, 2, 3, 4])), InstanceId::new(9));
    assert_eq!(place(&mut l, w, Some(InstanceId::new(9)), (0, 0), None), InstanceId::new(10));
    assert_eq!(place(&mut l, w, None, (2, 0), None), InstanceId::new(11));
    assert_eq!(l.get(InstanceId::new(9)).unwrap().rect, Some([1, 2, 3, 4]));
    assert_eq!(l.get(InstanceId::new(11)).unwrap().board, (2, 0));
}

#[test]
fn placing_goes_on_past_the_highest_id_a_file_can_carry() {
    let w = panel("w01");
    let mut l = InstanceList::<Rect>::new();
    let top = InstanceId::new(GENERATED - 1);
    assert_eq!(place(&mut l, w, Some(top), (0, 0), None), top);
    assert_eq!(place(&mut l, w, None, (0, 0), None), InstanceId::new(GENERATED));
    assert_eq!(l.len(), 2);
    assert!(l.restore(Instance::flowing(InstanceId::new(5), w, (0, 0))));
}

#[test]
fn a_flex_section_places_every_panel_after_a_file_id_at_the_top() {
    let reg = registry();
    let mut l = InstanceList::<Rect>::new();
    let src = "[column]\npanel = w01#2147483647\npanel = clock\npanel = shell\n";
    let f = parse_flex_into(&reg, src, (0, 0), &mut l).expect("a column");
    assert_eq!(f.columns[0].entries.len(), 3);
    assert_eq!(l.len(), 3);
}

#[test]
fn rectangle_lines_name_their_widget_and_keep_their_numbers() {
    let reg = registry();
    let src = "version = 2\nclock#3 = 1.5 2 16 7 # corner\n\nnosuch = 1 2 3 4\nshell = 20vw 5vh 60 60\nno equals here\n";
    let ls = rect_lines(&reg, src);
    assert_eq!(ls.len(), 2);
    assert_eq!(ls[0].widget, panel("clock"));
    assert_eq!(ls[0].id, Some(InstanceId::new(3)));
    assert_eq!(ls[0].value, " 1.5 2 16 7");
    assert_eq!(ls[1].widget, panel("shell"));
    assert_eq!(ls[1].id, None);
    assert_eq!(ls[1].value, " 20vw 5vh 60 60");
}

#[test]
fn a_screen_line_without_an_id_means_the_instance_on_home() {
    let w = panel("w01");
    let mut l = InstanceList::<Rect>::new();
    let away = l.add(w, (1, 0), None);
    let home = l.add(w, (0, 0), None);
    let _second = l.add(w, (0, 0), None);
    assert_ne!(away, home);
    assert_eq!(screen_target(&l, w, None), Some(home));
    assert_eq!(screen_target(&l, w, Some(InstanceId::new(40))), Some(InstanceId::new(40)));
    assert_eq!(screen_target(&l, panel("clock"), None), None);
}
