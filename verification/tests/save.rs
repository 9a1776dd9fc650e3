use nacelle::base::{Registry, WidgetCategory, WidgetDef};
use nacelle::layout::columns::FlexText;
use nacelle::layout::file::parse_file;
use nacelle::layout::instance::InstanceId;
use nacelle::layout::rects::rect_lines;
use nacelle::layout::save::{serialize_base, serialize_boards, serialize_sections};

fn registry() -> Registry {
    Registry::new(
        ["w01", "w02", "shell", "clock"]
            .iter()
            .map(|n| WidgetDef {
                name: n.to_string(),
                label: n.to_uppercase(),
                category: WidgetCategory::Board,
            })
            .collect(),
    )
}

fn four(v: &str) -> Option<[i32; 4]> {
    let n: Vec<i32> = v.split_whitespace().filter_map(|t| t.parse().ok()).collect();
    if n.len() == 4 { Some([n[0], n[1], n[2], n[3]]) } else { None }
}

fn written(r: [i32; 4]) -> String {
    format!("{} {} {} {}", r[0], r[1], r[2], r[3])
}

#[test]
fn a_saved_base_writes_its_header_screen_and_home_placements() {
    let text = "w01 = 0 0 50 50\nw02 = 50 0 50 50\n";
    let p = parse_file(&registry(), text, four);
    let out = serialize_base(&registry(), &p.instances, (1920, 1080, 27), written);
    assert_eq!(
        out,
        "# nacelle-desktop layout saved from the grid editor.\n\
         # Format: <widget>#<instance> = x y w h (percent of the window).\n\
         version = 2\nnext_instance = 3\nscreen = 1920x1080@27\n\
         w01#1 = 0 0 50 50\nw02#2 = 50 0 50 50\n"
    );
}

#[test]
fn a_saved_base_reads_back_to_the_same_placements() {
    let text = "version = 2\nnext_instance = 9\nclock#3 = 1 2 16 7\nshell#7 = 20 5 60 60\n";
    let p = parse_file(&registry(), text, four);
    let out = serialize_base(&registry(), &p.instances, (800, 600, 13), written);
    let q = parse_file(&registry(), &out, four);
    let a = p.instances.on_board((0, 0));
    let b = q.instances.on_board((0, 0));
    assert_eq!(a.len(), b.len());
    for (x, y) in a.iter().zip(b.iter()) {
        assert_eq!((x.id, x.widget, x.rect), (y.id, y.widget, y.rect));
    }
    assert_eq!(q.instances.next_free(), p.instances.next_free());
    assert_eq!(q.base_screen, Some((800, 600, 13)));
}

#[test]
fn sections_drop_the_moves_of_instances_no_longer_placed() {
    let text = "version = 2\nnext_instance = 5\nclock#3 = 1 2 16 7\n\n[1920x1080@27]\nclock#3 = 5 5 10 10\nshell#4 = 1 1 1 1\n";
    let p = parse_file(&registry(), text, four);
    let mut out = String::new();
    serialize_sections(&mut out, &registry(), &p.overrides, &p.instances, written);
    assert_eq!(out, "\n[1920x1080@27]\nclock#3 = 5 5 10 10\n");
}

#[test]
fn boards_write_their_heading_and_their_shown_rectangles() {
    let text = "version = 2\nnext_instance = 9\nclock#3 = 1 2 16 7\n\n[board 1]\nshell#4 = 1 1 30 30\nw01#5 = 120 0 10 10\n";
    let p = parse_file(&registry(), text, four);
    let mut out = String::new();
    serialize_boards(
        &mut out,
        &registry(),
        &p.boards,
        &p.instances,
        written,
        |r: [i32; 4]| r[0] >= 100,
        |_f: &FlexText| String::from("units = du\n"),
    );
    assert_eq!(out, "\n[board 1]\nshell#4 = 1 1 30 30\n");
}

#[test]
fn written_rectangle_lines_read_back_as_their_placements() {
    let text = "version = 2\nnext_instance = 9\nw01#2 = 0 0 50 50\nclock#7 = 1 2 3 4\n";
    let p = parse_file(&registry(), text, four);
    let out = serialize_base(&registry(), &p.instances, (1, 1, 1), written);
    let lines = rect_lines(&registry(), &out);
    assert_eq!(lines.len(), 2);
    assert_eq!((lines[0].widget, lines[0].id, lines[0].value.as_str()), (p.instances.on_board((0, 0))[0].widget, Some(InstanceId::new(2)), " 0 0 50 50"));
    assert_eq!((lines[1].id, lines[1].value.as_str()), (Some(InstanceId::new(7)), " 1 2 3 4"));
}
