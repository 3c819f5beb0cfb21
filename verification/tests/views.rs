use objdiff::config::{copy_node, AppConfig, ProjectUnit, ProjectUnitNode};
use objdiff::diff::DiffAlg;
use objdiff::views::config::{
    add_watch_pattern, contains_node, custom_make_from_text, default_watch_patterns, filter_node,
    filter_nodes, home_rel, native_is_little, node_open_state, object_in_dirs, parse_distros,
    picked_object, process_utf16, remove_watch_pattern, reset_watch_patterns, search_changed,
    search_nodes, text_from_bytes, text_from_units, try_add_watch_pattern, utf16_units,
    ConfigViewState, NodeOpen, TextError,
};

fn text(s: &str) -> String {
    s.to_string()
}

fn file(name: &str, path: &str) -> ProjectUnitNode {
    ProjectUnitNode::File(
        text(name),
        ProjectUnit {
            name: Some(format!("unit of {}", name)),
            path: text(path),
            reverse_fn_order: Some(name.len() % 2 == 0),
        },
    )
}

fn bare_file(name: &str, path: &str) -> ProjectUnitNode {
    ProjectUnitNode::File(
        text(name),
        ProjectUnit { name: None, path: text(path), reverse_fn_order: None },
    )
}

fn dir(name: &str, children: Vec<ProjectUnitNode>) -> ProjectUnitNode {
    ProjectUnitNode::Dir(text(name), children)
}

fn tree() -> ProjectUnitNode {
    dir(
        "src",
        vec![
            dir("Game", vec![file("Main.o", "src/game/main.o"), file("ai.o", "src/game/ai.o")]),
            dir("empty", vec![]),
            dir("lib", vec![dir("math", vec![file("vec.o", "src/lib/math/vec.o")])]),
            file("boot.o", "src/boot.o"),
        ],
    )
}

#[test]
fn a_node_contains_the_objects_below_it() {
    let root = tree();
    assert!(contains_node(&root, &text("src/game/ai.o")));
    assert!(contains_node(&root, &text("src/lib/math/vec.o")));
    assert!(contains_node(&root, &text("src/boot.o")));
    assert!(!contains_node(&root, &text("src/game")));
    assert!(!contains_node(&root, &text("ai.o")));
    assert!(!contains_node(&root, &text("")));
    assert!(contains_node(&file("x", "p"), &text("p")));
    assert!(!contains_node(&file("x", "p"), &text("x")));
    assert!(!contains_node(&dir("empty", vec![]), &text("empty")));
}

#[test]
fn the_search_keeps_what_matches_and_what_leads_to_it() {
    let root = tree();
    assert_eq!(
        filter_node(&root, &text("main")),
        Some(dir("src", vec![dir("Game", vec![file("Main.o", "src/game/main.o")])]))
    );
    assert_eq!(
        filter_node(&root, &text("vec")),
        Some(dir("src", vec![dir("lib", vec![dir("math", vec![file("vec.o", "src/lib/math/vec.o")])])]))
    );
    // A directory whose name matches is kept whole.
    assert_eq!(
        filter_node(&root, &text("game")),
        Some(dir(
            "src",
            vec![dir("Game", vec![file("Main.o", "src/game/main.o"), file("ai.o", "src/game/ai.o")])]
        ))
    );
    assert_eq!(filter_node(&root, &text("src")), Some(tree()));
    assert_eq!(filter_node(&root, &text("")), Some(tree()));
    assert_eq!(filter_node(&root, &text("nothing")), None);
    // The names are lowered, the search text is taken as it is.
    assert_eq!(filter_node(&root, &text("Main")), None);
    assert_eq!(filter_node(&file("Main.o", "p"), &text("main.o")), Some(file("Main.o", "p")));
    assert_eq!(filter_node(&file("Main.o", "p"), &text("p")), None);
    assert_eq!(filter_node(&dir("empty", vec![]), &text("x")), None);
}

#[test]
fn the_search_field_is_lowered_too() {
    let nodes = vec![tree(), file("MAIN.o", "main.o"), file("other.o", "other.o")];
    assert_eq!(
        search_nodes(&nodes, &text("MAIN")),
        vec![
            dir("src", vec![dir("Game", vec![file("Main.o", "src/game/main.o")])]),
            file("MAIN.o", "main.o"),
        ]
    );
    assert_eq!(filter_nodes(&nodes, &text("MAIN")), vec![]);
    assert_eq!(filter_nodes(&nodes, &text("other")), vec![file("other.o", "other.o")]);
    assert_eq!(search_nodes(&vec![], &text("x")), vec![]);
}

#[test]
fn a_copy_of_a_node_is_equal_to_it() {
    assert_eq!(copy_node(&tree()), tree());
    assert_eq!(tree().clone(), tree());
    assert_eq!(copy_node(&bare_file("a.o", "a.o")), bare_file("a.o", "a.o"));
    assert_ne!(copy_node(&file("a.o", "a.o")), bare_file("a.o", "a.o"));
}

#[test]
fn the_search_keeps_the_objects_as_they_are() {
    let root = dir(
        "src",
        vec![file("a.o", "pa"), dir("lib", vec![bare_file("c.o", "pc")]), file("b.o", "pb")],
    );
    assert_eq!(
        filter_node(&root, &text("b")),
        Some(dir("src", vec![dir("lib", vec![bare_file("c.o", "pc")]), file("b.o", "pb")]))
    );
    let unit = ProjectUnit { name: Some(text("N")), path: text("p"), reverse_fn_order: Some(true) };
    let node = ProjectUnitNode::File(text("Main.o"), unit.clone());
    assert_eq!(filter_node(&node, &text("main")), Some(ProjectUnitNode::File(text("Main.o"), unit)));
}

#[test]
fn a_second_search_keeps_the_result() {
    for search in ["", "b", "main", "o", "lib", "src", "a.o"] {
        if let Some(kept) = filter_node(&tree(), &text(search)) {
            assert_eq!(filter_node(&kept, &text(search)), Some(copy_node(&kept)));
        }
        let kept = filter_nodes(&vec![tree(), file("b.o", "b")], &text(search));
        assert_eq!(filter_nodes(&kept, &text(search)), kept);
    }
}

#[test]
fn directories_open_as_asked() {
    assert_eq!(node_open_state(NodeOpen::Default, Some(true)), None);
    assert_eq!(node_open_state(NodeOpen::Open, Some(false)), Some(true));
    assert_eq!(node_open_state(NodeOpen::Close, Some(true)), Some(false));
    assert_eq!(node_open_state(NodeOpen::Object, Some(true)), Some(true));
    assert_eq!(node_open_state(NodeOpen::Object, Some(false)), Some(false));
    assert_eq!(node_open_state(NodeOpen::Object, None), None);
    assert_eq!(NodeOpen::default(), NodeOpen::Default);
}

#[test]
fn editing_the_search_opens_the_tree() {
    assert_eq!(
        search_changed(true, false, None, NodeOpen::Close),
        (Some(true), NodeOpen::Object)
    );
    assert_eq!(
        search_changed(false, true, Some(false), NodeOpen::Default),
        (Some(true), NodeOpen::Open)
    );
    assert_eq!(
        search_changed(true, true, Some(false), NodeOpen::Close),
        (Some(false), NodeOpen::Close)
    );
    assert_eq!(search_changed(false, false, None, NodeOpen::Default), (None, NodeOpen::Default));
}

#[test]
fn an_empty_field_means_the_default_make() {
    assert_eq!(custom_make_from_text(text("")), None);
    assert_eq!(custom_make_from_text(text("ninja")), Some(text("ninja")));
    assert_eq!(custom_make_from_text(text(" ")), Some(text(" ")));
}

#[test]
fn the_view_starts_empty() {
    let state = ConfigViewState::default();
    assert!(state.check_update.is_none());
    assert_eq!(state.watch_pattern_text, "");
    assert!(!state.queue_update_check);
    assert_eq!(state.load_error, None);
    assert_eq!(state.unit_search, "");
    assert_eq!(state.available_wsl_distros, None);
}

fn app_config(patterns: &[&str]) -> AppConfig {
    AppConfig {
        custom_make: None,
        selected_wsl_distro: None,
        project_dir: None,
        target_obj_dir: None,
        base_obj_dir: None,
        obj_path: None,
        selected_obj: None,
        build_base: true,
        build_target: false,
        watcher_change: false,
        watcher_enabled: true,
        auto_update_check: true,
        obj_change: false,
        watch_patterns: patterns.iter().map(|p| text(p)).collect(),
        code_alg: DiffAlg::Patience,
        data_alg: DiffAlg::Patience,
        relax_reloc_diffs: false,
        units: vec![],
        unit_nodes: vec![],
    }
}

#[test]
fn the_default_patterns() {
    let expected = vec![
        "*.c", "*.cp", "*.cpp", "*.cxx", "*.h", "*.hp", "*.hpp", "*.hxx", "*.s", "*.S", "*.asm",
        "*.inc", "*.py", "*.yml", "*.txt", "*.json",
    ];
    assert_eq!(default_watch_patterns(), expected);
    let mut config = app_config(&["*.rs"]);
    reset_watch_patterns(&mut config);
    assert_eq!(config.watch_patterns, expected);
    assert!(config.watcher_change);
    // Every default pattern is one that the parser accepts.
    for pattern in expected {
        let mut config = app_config(&[]);
        let mut field = text(pattern);
        assert!(try_add_watch_pattern(&mut config, &mut field));
    }
}

#[test]
fn patterns_are_removed_by_index() {
    let mut config = app_config(&["*.a", "*.b", "*.c"]);
    remove_watch_pattern(&mut config, None);
    assert_eq!(config, app_config(&["*.a", "*.b", "*.c"]));
    remove_watch_pattern(&mut config, Some(1));
    assert_eq!(config.watch_patterns, vec!["*.a", "*.c"]);
    assert!(config.watcher_change);
    remove_watch_pattern(&mut config, Some(1));
    remove_watch_pattern(&mut config, Some(0));
    assert!(config.watch_patterns.is_empty());
}

#[test]
fn only_valid_patterns_are_added() {
    let mut config = app_config(&["*.a"]);
    let mut field = text("src/**/*.{c,h}");
    assert!(try_add_watch_pattern(&mut config, &mut field));
    assert_eq!(config.watch_patterns, vec!["*.a", "src/**/*.{c,h}"]);
    assert_eq!(field, "");
    assert!(config.watcher_change);

    let mut config = app_config(&["*.a"]);
    let mut field = text("src/{a,b");
    assert!(!try_add_watch_pattern(&mut config, &mut field));
    assert_eq!(config, app_config(&["*.a"]));
    assert_eq!(field, "src/{a,b");
    let mut field = text("[z-a]");
    assert!(!try_add_watch_pattern(&mut config, &mut field));
    assert_eq!(config, app_config(&["*.a"]));

    let mut field = text("anything");
    add_watch_pattern(&mut config, &mut field, false);
    assert_eq!(config, app_config(&["*.a"]));
    add_watch_pattern(&mut config, &mut field, true);
    assert_eq!(config.watch_patterns, vec!["*.a", "anything"]);
    assert_eq!(field, "");
}

#[test]
fn bytes_are_paired_into_units() {
    assert_eq!(utf16_units(&[], true), Vec::<u16>::new());
    assert_eq!(utf16_units(&[0x41], false), Vec::<u16>::new());
    assert_eq!(utf16_units(&[0x41, 0x00, 0x42], true), vec![0x0041]);
    assert_eq!(utf16_units(&[0x41, 0x00, 0x42], false), vec![0x4100]);
    assert_eq!(
        utf16_units(&[0x41, 0x00, 0x3d, 0xd8, 0x00, 0xde], true),
        vec![0x0041, 0xd83d, 0xde00]
    );
    assert_eq!(
        utf16_units(&[0x41, 0x00, 0x3d, 0xd8, 0x00, 0xde], false),
        vec![0x4100, 0x3dd8, 0x00de]
    );
    assert_eq!(utf16_units(&[0xff, 0xff], false), vec![0xffff]);
}

#[test]
fn the_byte_order_of_the_machine_is_found() {
    assert_eq!(native_is_little(), u16::from_ne_bytes([1, 0]) == 1);
    let native = |first: u8, second: u8| u16::from_ne_bytes([first, second]);
    assert_eq!(utf16_units(&[0x12, 0x34], native_is_little()), vec![native(0x12, 0x34)]);
}

#[test]
fn text_is_read_in_either_byte_order() {
    assert_eq!(text_from_bytes(&[0x55, 0x00, 0xe9, 0x00], true), Ok(text("U\u{e9}")));
    assert_eq!(text_from_bytes(&[0x00, 0x55, 0x00, 0xe9], false), Ok(text("U\u{e9}")));
    assert_eq!(text_from_bytes(&[0x3d, 0xd8, 0x00, 0xde], true), Ok(text("\u{1f600}")));
    assert_eq!(text_from_bytes(&[0x3d, 0xd8, 0x00, 0xde], false), Ok(text("\u{3dd8}\u{de}")));
    assert_eq!(text_from_bytes(&[0x00, 0xd8], true), Err(TextError::InvalidUtf16));
    assert_eq!(text_from_bytes(&[0x00, 0xd8], false), Ok(text("\u{d8}")));
}

#[test]
fn a_directory_is_taken_relative_to_the_home_directory() {
    assert_eq!(home_rel(&text("/home/me/proj"), &None), None);
    assert_eq!(home_rel(&text("/home/me/proj"), &Some(text("/home/me"))), Some(text("proj")));
    assert_eq!(home_rel(&text("/home/me"), &Some(text("/home/me"))), Some(text("")));
    assert_eq!(home_rel(&text("/opt/proj"), &Some(text("/home/me"))), None);
    assert_eq!(home_rel(&text("/home/melon"), &Some(text("/home/me"))), None);
}

#[test]
fn the_base_directory_is_tried_first() {
    assert_eq!(picked_object(None, None), None);
    assert_eq!(picked_object(Some(text("b")), None), Some(text("b")));
    assert_eq!(picked_object(None, Some(text("t"))), Some(text("t")));
    assert_eq!(picked_object(Some(text("b")), Some(text("t"))), Some(text("b")));
    let (base, target) = (text("/p/build"), text("/p/expected"));
    assert_eq!(object_in_dirs(&text("/p/build/a.o"), &base, &target), Some(text("a.o")));
    assert_eq!(object_in_dirs(&text("/p/expected/x/a.o"), &base, &target), Some(text("x/a.o")));
    assert_eq!(object_in_dirs(&text("/q/a.o"), &base, &target), None);
    assert_eq!(object_in_dirs(&text("/p/a"), &text("/p"), &text("/p")), Some(text("a")));
}

#[test]
fn units_are_decoded() {
    assert_eq!(text_from_units(&vec![]), Ok(text("")));
    assert_eq!(text_from_units(&vec![0x55, 0x62, 0xe9]), Ok(text("Ub\u{e9}")));
    assert_eq!(text_from_units(&vec![0xd83d, 0xde00]), Ok(text("\u{1f600}")));
    assert_eq!(text_from_units(&vec![0x41, 0xd83d]), Err(TextError::InvalidUtf16));
    assert_eq!(text_from_units(&vec![0xde00, 0x41]), Err(TextError::InvalidUtf16));
}

#[test]
fn the_output_of_a_command_is_decoded() {
    let bytes: Vec<u8> = "Ubuntu\r\n".encode_utf16().flat_map(|u| u.to_ne_bytes()).collect();
    assert_eq!(process_utf16(&bytes), Ok(text("Ubuntu\r\n")));
    let mut odd = bytes.clone();
    odd.push(0x41);
    assert_eq!(process_utf16(&odd), Ok(text("Ubuntu\r\n")));
    let lone: Vec<u8> = 0xd800u16.to_ne_bytes().to_vec();
    assert_eq!(process_utf16(&lone), Err(TextError::InvalidUtf16));
    assert_eq!(process_utf16(&[]), Ok(text("")));
}

#[test]
fn distributions_are_listed_one_to_a_line() {
    assert_eq!(parse_distros(&text("Ubuntu\r\nDebian\r\n")), vec!["Ubuntu", "Debian"]);
    assert_eq!(parse_distros(&text("Ubuntu")), vec!["Ubuntu"]);
    assert_eq!(parse_distros(&text("")), Vec::<String>::new());
    assert_eq!(parse_distros(&text("\n\n \t\r\n")), Vec::<String>::new());
    assert_eq!(
        parse_distros(&text("  Ubuntu 22.04 \n\n\u{a0}\u{3000}openSUSE Leap\u{2003}\nlast")),
        vec!["Ubuntu 22.04", "openSUSE Leap", "last"]
    );
    assert_eq!(parse_distros(&text("a\u{200b}\n")), vec!["a\u{200b}"]);
    assert_eq!(parse_distros(&text("\u{e9}t\u{e9}\r\n\u{1f600} x\n")), vec!["\u{e9}t\u{e9}", "\u{1f600} x"]);
}
