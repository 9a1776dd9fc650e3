use nacelle::assets::AssetRoots;
use nacelle::layout::store::{merge_names, LayautStore};

fn names(v: &[&str]) -> Vec<String> {
    v.iter().map(|s| s.to_string()).collect()
}

#[test]
fn default_comes_first_and_the_first_root_holding_a_name_wins() {
    let store = LayautStore::new(AssetRoots::new(names(&["/user", "/missing", "/system"]), "/user".to_string()));
    let listed = store.list(
        |p: &String| p.as_str() != "/missing/layauts",
        |d: &String| match d.as_str() {
            "/user/layauts" => names(&["mine", "default", "work"]),
            "/system/layauts" => names(&["work", "zed", "mine"]),
            _ => panic!("asked about a directory that does not exist: {d}"),
        },
    );
    assert_eq!(listed, names(&["default", "mine", "work", "zed"]));
}

#[test]
fn with_no_files_only_the_default_is_offered() {
    let store = LayautStore::new(AssetRoots::new(names(&["/a"]), "/a".to_string()));
    assert_eq!(store.list(|_p: &String| false, |_d: &String| Vec::new()), names(&["default"]));
    assert_eq!(merge_names(&Vec::new()), names(&["default"]));
    assert_eq!(
        merge_names(&vec![names(&["b", "a", "b"]), names(&["a", "c"])]),
        names(&["default", "b", "a", "c"])
    );
}

#[test]
fn a_board_is_added_one_step_past_the_outermost() {
    let mut boards: Vec<((i32, i32), &str)> =
        vec![((1, 0), "a"), ((2, 0), "b"), ((0, 1), "top"), ((-1, 0), "c"), ((0, -7), "bottom")];
    LayautStore::add_board(&mut boards, 1, "right");
    assert_eq!(boards.last().unwrap(), &((3, 0), "right"));
    LayautStore::add_board(&mut boards, -1, "left");
    assert_eq!(boards.last().unwrap(), &((-2, 0), "left"));
    LayautStore::add_board(&mut boards, -5, "further");
    assert_eq!(boards.last().unwrap(), &((-3, 0), "further"));
    assert_eq!(boards.len(), 8);

    let mut empty: Vec<((i32, i32), u8)> = vec![((0, 1), 0)];
    LayautStore::add_board(&mut empty, 0, 1);
    assert_eq!(empty, vec![((0, 1), 0), ((1, 0), 1)]);
    let mut empty: Vec<((i32, i32), u8)> = Vec::new();
    LayautStore::add_board(&mut empty, -1, 1);
    assert_eq!(empty, vec![((-1, 0), 1)]);
}

#[test]
fn removing_a_board_keeps_the_fixtures() {
    let mut boards: Vec<((i32, i32), &str)> =
        vec![((1, 0), "a"), ((0, 1), "top"), ((2, 0), "b"), ((1, 0), "again")];
    LayautStore::remove_board(&mut boards, (0, 1));
    assert_eq!(boards.len(), 4);
    LayautStore::remove_board(&mut boards, (1, 0));
    assert_eq!(boards, vec![((0, 1), "top"), ((2, 0), "b")]);
    LayautStore::remove_board(&mut boards, (5, 0));
    assert_eq!(boards, vec![((0, 1), "top"), ((2, 0), "b")]);
}

#[test]
fn a_board_added_and_removed_leaves_the_row_as_it_was() {
    let start: Vec<((i32, i32), u8)> = vec![((1, 0), 1), ((-1, 0), 2), ((0, 1), 3)];
    let mut boards = start.clone();
    LayautStore::add_board(&mut boards, 1, 9);
    let added = boards.last().unwrap().0;
    LayautStore::remove_board(&mut boards, added);
    assert_eq!(boards, start);
}

#[test]
fn hidden_names_are_never_offered() {
    assert_eq!(
        merge_names(&vec![names(&[".state", "work"]), names(&[".x", "default", "work", "play"])]),
        names(&["default", "work", "play"])
    );
}
