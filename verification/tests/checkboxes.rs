use pddb::checkboxes::{
    Canvas, CheckBoxPayload, CheckBoxes, TextBox, KEY_DOWN, KEY_ENTER, KEY_LEFT, KEY_RIGHT,
    KEY_SELECT, KEY_UP, MAX_ITEMS,
};

fn three_items() -> CheckBoxes {
    let mut boxes = CheckBoxes::new(4, 17);
    assert_eq!(boxes.add_item("alpha".to_string()), None);
    assert_eq!(boxes.add_item("beta".to_string()), None);
    assert_eq!(boxes.add_item("gamma".to_string()), None);
    boxes
}

#[test]
fn new_list_is_empty() {
    let boxes = CheckBoxes::new(4, 17);
    assert_eq!(boxes.items.len(), MAX_ITEMS);
    assert!(boxes.items.iter().all(|i| i.is_none()));
    assert_eq!(boxes.action_conn, 4);
    assert_eq!(boxes.action_opcode, 17);
    assert_eq!(boxes.max_items, 0);
    assert_eq!(boxes.select_index, 0);
}

#[test]
fn add_item_fills_the_first_empty_place() {
    let boxes = three_items();
    assert_eq!(boxes.max_items, 3);
    assert_eq!(boxes.items[0], Some("alpha".to_string()));
    assert_eq!(boxes.items[1], Some("beta".to_string()));
    assert_eq!(boxes.items[2], Some("gamma".to_string()));
    assert_eq!(boxes.items[3], None);
}

#[test]
fn full_list_hands_the_item_back() {
    let mut boxes = CheckBoxes::new(1, 1);
    for i in 0..MAX_ITEMS {
        assert_eq!(boxes.add_item(format!("item{}", i)), None);
    }
    assert_eq!(boxes.max_items, 8);
    assert_eq!(boxes.add_item("late".to_string()), Some("late".to_string()));
    assert_eq!(boxes.max_items, 8);
    assert!(boxes.items.iter().all(|i| i.as_deref() != Some("late")));
}

#[test]
fn set_action_opcode_changes_only_the_opcode() {
    let mut boxes = three_items();
    boxes.set_action_opcode(99);
    assert_eq!(boxes.action_opcode, 99);
    assert_eq!(boxes.action_conn, 4);
    assert_eq!(boxes.max_items, 3);
}

#[test]
fn height_counts_a_line_for_each_item_and_one_more() {
    let boxes = three_items();
    assert_eq!(boxes.height(20, 4), 4 * 20 + 8 + 5);
    assert_eq!(CheckBoxes::new(0, 0).height(15, 0), 20);
    assert_eq!(boxes.height(32767, 32767), 4 * 32767 + 2 * 32767 + 5);
}

#[test]
fn cursor_moves_between_first_line_and_one_past_the_closing_line() {
    let mut boxes = three_items();
    assert_eq!(boxes.key_action(KEY_UP), (None, false));
    assert_eq!(boxes.select_index, 0);
    for expected in 1..=4 {
        assert_eq!(boxes.key_action(KEY_DOWN), (None, false));
        assert_eq!(boxes.select_index, expected);
    }
    boxes.key_action(KEY_DOWN);
    assert_eq!(boxes.select_index, 4);
    boxes.key_action(KEY_UP);
    assert_eq!(boxes.select_index, 3);
    boxes.key_action(KEY_LEFT);
    boxes.key_action(KEY_RIGHT);
    boxes.key_action('\u{0}');
    boxes.key_action('x');
    assert_eq!(boxes.select_index, 3);
}

#[test]
fn selecting_an_item_turns_its_check_mark_over() {
    let mut boxes = three_items();
    boxes.key_action(KEY_DOWN);
    assert_eq!(boxes.key_action(KEY_SELECT), (None, false));
    assert!(boxes.action_payload.contains(&"beta".to_string()));
    assert!(!boxes.action_payload.contains(&"alpha".to_string()));
    assert_eq!(boxes.action_payload.items[0], Some("beta".to_string()));
    assert_eq!(boxes.key_action(KEY_ENTER), (None, false));
    assert!(!boxes.action_payload.contains(&"beta".to_string()));
    assert!(boxes.action_payload.items.iter().all(|i| i.is_none()));
}

#[test]
fn selecting_past_the_items_closes_the_list() {
    let mut boxes = three_items();
    boxes.key_action(KEY_SELECT);
    for _ in 0..3 {
        boxes.key_action(KEY_DOWN);
    }
    assert_eq!(boxes.select_index, 3);
    assert_eq!(boxes.key_action(KEY_ENTER), (None, true));
    assert!(boxes.action_payload.contains(&"alpha".to_string()));
    assert_eq!(boxes.select_index, 3);
}

#[test]
fn payload_add_and_remove() {
    let mut p = CheckBoxPayload::new();
    assert!(p.add(&"a".to_string()));
    assert!(p.add(&"a".to_string()));
    assert_eq!(p.items.iter().filter(|i| i.is_some()).count(), 1);
    for i in 0..7 {
        assert!(p.add(&format!("n{}", i)));
    }
    assert!(!p.add(&"overflow".to_string()));
    assert!(p.remove(&"a".to_string()));
    assert!(!p.remove(&"a".to_string()));
    assert_eq!(p.items[0], None);
    assert!(p.add(&"overflow".to_string()));
    assert_eq!(p.items[0], Some("overflow".to_string()));
}

fn text_box(text: &str, left: i32, top: i32, right: i32, bottom: i32) -> TextBox {
    TextBox { text: text.to_string(), left, top, right, bottom }
}

#[test]
fn layout_places_cursor_check_marks_and_labels() {
    let mut boxes = three_items();
    boxes.key_action(KEY_DOWN);
    boxes.key_action(KEY_SELECT);
    let canvas = Canvas { line_height: 30, margin: 10, canvas_width: 300 };
    let drawn = boxes.layout(canvas, 100, "close");
    let expected = vec![
        text_box("alpha", 50, 100, 290, 130),
        text_box("\u{bb}", 10, 128, 46, 164),
        text_box("\u{d7}", 30, 128, 66, 160),
        text_box("beta", 50, 130, 290, 160),
        text_box("gamma", 50, 160, 290, 190),
        text_box("close", 50, 220, 290, 250),
    ];
    assert_eq!(drawn, expected);
}

#[test]
fn layout_puts_the_cursor_on_the_closing_line() {
    let mut boxes = three_items();
    for _ in 0..3 {
        boxes.key_action(KEY_DOWN);
    }
    let canvas = Canvas { line_height: 30, margin: 10, canvas_width: 300 };
    let drawn = boxes.layout(canvas, 0, "ok");
    assert_eq!(drawn.len(), 5);
    assert_eq!(drawn[3], text_box("\u{bb}", 10, 118, 46, 154));
    assert_eq!(drawn[4], text_box("ok", 50, 120, 290, 150));
}
