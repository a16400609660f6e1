use der_explorer::app::{App, AppMode, KeyCode, KeyInput};
use der_explorer::tree::{get_object_by_path, index_of_path, tag_name, visible_items};
use der_explorer::der_parser::{ASN1Error, OwnedValue, TagClass};

// SEQUENCE { INTEGER 1, SEQUENCE { INTEGER 2, INTEGER 3 } }, INTEGER 4
fn sample() -> Vec<u8> {
    vec![
        0x30, 0x0B, 0x02, 0x01, 0x01, 0x30, 0x06, 0x02, 0x01, 0x02, 0x02, 0x01, 0x03, 0x02, 0x01,
        0x04,
    ]
}

fn loaded() -> App {
    let mut app = App::new();
    assert_eq!(app.load(sample()), Ok(()));
    app
}

fn key(c: char) -> KeyInput {
    KeyInput { code: KeyCode::Char(c), ctrl: false }
}

fn ctrl(c: char) -> KeyInput {
    KeyInput { code: KeyCode::Char(c), ctrl: true }
}

#[test]
fn load_selects_first_object_and_clears_collapse() {
    let mut app = loaded();
    assert_eq!(app.selected_path, vec![0]);
    assert_eq!(app.parsed_objects.len(), 2);
    assert_eq!(app.mode, AppMode::View);
    app.toggle_collapse();
    assert_eq!(app.collapsed_nodes.len(), 1);
    assert_eq!(app.load(sample()), Ok(()));
    assert!(app.collapsed_nodes.is_empty());
}

#[test]
fn failed_load_changes_nothing() {
    let mut app = loaded();
    app.move_selection_down(10);
    assert_eq!(app.load(vec![0x30, 0x05, 0x02]), Err(ASN1Error::UnexpectedEOF));
    assert_eq!(app.selected_path, vec![0, 0]);
    assert_eq!(app.parsed_objects.len(), 2);
    assert_eq!(app.buffer, sample());
}

#[test]
fn move_down_walks_in_preorder_and_stops_at_the_end() {
    let mut app = loaded();
    let expected: Vec<Vec<usize>> =
        vec![vec![0, 0], vec![0, 1], vec![0, 1, 0], vec![0, 1, 1], vec![1], vec![1]];
    for path in expected {
        app.move_selection_down(10);
        assert_eq!(app.selected_path, path);
    }
}

#[test]
fn move_up_goes_to_last_visible_descendant_or_parent() {
    let mut app = loaded();
    app.selected_path = vec![1];
    app.move_selection_up(10);
    assert_eq!(app.selected_path, vec![0, 1, 1]);
    app.move_selection_up(10);
    assert_eq!(app.selected_path, vec![0, 1, 0]);
    app.move_selection_up(10);
    assert_eq!(app.selected_path, vec![0, 1]);
    app.move_selection_up(10);
    assert_eq!(app.selected_path, vec![0, 0]);
    app.move_selection_up(10);
    assert_eq!(app.selected_path, vec![0]);
    app.move_selection_up(10);
    assert_eq!(app.selected_path, vec![0]);
}

#[test]
fn collapsed_node_is_stepped_over_until_expanded() {
    let mut app = loaded();
    app.selected_path = vec![0, 1];
    app.toggle_collapse();
    assert_eq!(app.collapsed_nodes, vec![vec![0, 1]]);
    app.move_selection_down(10);
    assert_eq!(app.selected_path, vec![1]);
    app.move_selection_up(10);
    assert_eq!(app.selected_path, vec![0, 1]);
    app.toggle_collapse();
    assert!(app.collapsed_nodes.is_empty());
    app.move_selection_down(10);
    assert_eq!(app.selected_path, vec![0, 1, 0]);
}

#[test]
fn collapsed_last_node_ascends_to_next_top_level() {
    let mut app = loaded();
    app.toggle_collapse();
    app.move_selection_down(10);
    assert_eq!(app.selected_path, vec![1]);
}

#[test]
fn toggle_on_primitive_is_a_no_op() {
    let mut app = loaded();
    app.selected_path = vec![0, 0];
    app.toggle_collapse();
    assert!(app.collapsed_nodes.is_empty());
}

#[test]
fn resolve_uses_every_index_of_the_path() {
    let app = loaded();
    let top = get_object_by_path(&app.parsed_objects, &[1]).unwrap();
    assert_eq!(top.value, OwnedValue::Primitive(vec![0x04]));
    let inner = get_object_by_path(&app.parsed_objects, &[0, 1, 1]).unwrap();
    assert_eq!(inner.value, OwnedValue::Primitive(vec![0x03]));
    assert!(get_object_by_path(&app.parsed_objects, &[2]).is_none());
    assert!(get_object_by_path(&app.parsed_objects, &[0, 0, 0]).is_none());
    assert!(get_object_by_path(&app.parsed_objects, &[0, 5]).is_none());
    assert!(get_object_by_path(&app.parsed_objects, &[]).is_none());
    let mut sel = loaded();
    sel.selected_path = vec![1];
    assert_eq!(sel.get_selected_object().unwrap().value, OwnedValue::Primitive(vec![0x04]));
}

#[test]
fn visible_items_skip_collapsed_children() {
    let mut app = loaded();
    let items = visible_items(&app.parsed_objects, &app.collapsed_nodes);
    let paths: Vec<Vec<usize>> = items.iter().map(|i| i.path.clone()).collect();
    assert_eq!(
        paths,
        vec![vec![0], vec![0, 0], vec![0, 1], vec![0, 1, 0], vec![0, 1, 1], vec![1]]
    );
    let depths: Vec<usize> = items.iter().map(|i| i.depth).collect();
    assert_eq!(depths, vec![0, 1, 1, 2, 2, 0]);
    let constructed: Vec<bool> = items.iter().map(|i| i.constructed).collect();
    assert_eq!(constructed, vec![true, false, true, false, false, false]);
    assert_eq!(index_of_path(&items, &[0, 1, 1]), 4);
    assert_eq!(index_of_path(&items, &[7]), 0);

    app.selected_path = vec![0, 1];
    app.toggle_collapse();
    let items = visible_items(&app.parsed_objects, &app.collapsed_nodes);
    let paths: Vec<Vec<usize>> = items.iter().map(|i| i.path.clone()).collect();
    assert_eq!(paths, vec![vec![0], vec![0, 0], vec![0, 1], vec![1]]);
}

#[test]
fn scroll_follows_the_selection() {
    let mut app = loaded();
    app.selected_path = vec![0, 1, 1];
    app.update_tree_scroll(2);
    assert_eq!(app.tree_scroll, 3);
    app.selected_path = vec![0, 0];
    app.update_tree_scroll(2);
    assert_eq!(app.tree_scroll, 1);
    app.selected_path = vec![1];
    app.update_tree_scroll(2);
    assert_eq!(app.tree_scroll, 4);
}

#[test]
fn scroll_resets_when_list_fits_the_viewport() {
    let mut app = loaded();
    app.tree_scroll = 5;
    app.update_tree_scroll(10);
    assert_eq!(app.tree_scroll, 0);
}

#[test]
fn scroll_never_runs_past_the_end() {
    let mut app = loaded();
    app.tree_scroll = 5;
    app.selected_path = vec![0, 1, 1];
    app.update_tree_scroll(3);
    assert_eq!(app.tree_scroll, 3);
}

#[test]
fn tag_names_of_known_universal_tags() {
    assert_eq!(tag_name(&TagClass::Universal, 16), Some("SEQUENCE"));
    assert_eq!(tag_name(&TagClass::Universal, 2), Some("INTEGER"));
    assert_eq!(tag_name(&TagClass::Universal, 24), Some("GeneralizedTime"));
    assert_eq!(tag_name(&TagClass::Universal, 7), None);
    assert_eq!(tag_name(&TagClass::ContextSpecific, 16), None);
}

#[test]
fn typing_and_decoding_through_keys() {
    let mut app = App::new();
    for c in "3006020101020102".chars() {
        app.handle_input(key(c));
    }
    assert_eq!(app.input_buffer, "3006020101020102");
    app.handle_input(KeyInput { code: KeyCode::Backspace, ctrl: false });
    app.handle_input(key('2'));
    app.handle_input(ctrl('r'));
    assert_eq!(app.mode, AppMode::View);
    assert_eq!(app.buffer, vec![0x30, 0x06, 0x02, 0x01, 0x01, 0x02, 0x01, 0x02]);
    assert_eq!(app.selected_path, vec![0]);
    app.handle_input(key('j'));
    assert_eq!(app.selected_path, vec![0, 0]);
    app.handle_input(key('k'));
    assert_eq!(app.selected_path, vec![0]);
    app.handle_input(key('h'));
    assert_eq!(app.collapsed_nodes, vec![vec![0]]);
    app.handle_input(key('l'));
    assert!(app.collapsed_nodes.is_empty());
    app.handle_input(key('q'));
    assert!(app.should_quit);
}

#[test]
fn bad_input_text_leaves_state_alone() {
    let mut app = App::new();
    for c in "zz".chars() {
        app.handle_input(key(c));
    }
    app.handle_input(ctrl('r'));
    assert_eq!(app.mode, AppMode::Input);
    assert!(app.parsed_objects.is_empty());
    app.handle_input(ctrl('u'));
    assert_eq!(app.input_buffer, "");
    app.handle_input(KeyInput { code: KeyCode::Enter, ctrl: false });
    assert_eq!(app.input_buffer, "\n");
}

#[test]
fn help_and_hex_view_flags() {
    let mut app = loaded();
    app.handle_input(key('?'));
    assert!(app.show_help);
    app.handle_input(key('j'));
    assert!(!app.show_help);
    assert_eq!(app.selected_path, vec![0]);
    app.handle_input(key('x'));
    assert!(app.show_hex_modal);
    app.handle_input(ctrl('c'));
    assert!(app.copy_hex_to_clipboard);
    app.handle_input(KeyInput { code: KeyCode::Esc, ctrl: false });
    assert!(!app.show_hex_modal);
    assert!(!app.copy_hex_to_clipboard);
    app.handle_input(KeyInput { code: KeyCode::Tab, ctrl: false });
    assert_eq!(app.mode, AppMode::Input);
}
