use editor_core::buffer::Buffer;
use editor_core::command::EditCommand;
use editor_core::cursor::{Cursor, CursorMode};
use editor_core::editor::{EditType, Editor};
use editor_core::mode::VisualMode;
use editor_core::register::RegisterData;
use editor_core::selection::{SelRegion, Selection};

#[test]
fn test_insert_simple() {
    let mut buffer = Buffer::new("abc");
    let mut cursor = Cursor::new(CursorMode::Insert(Selection::caret(1)), None);

    Editor::insert(&mut cursor, &mut buffer, "e", None);
    assert_eq!("aebc", buffer.slice_to_cow(0, buffer.len()));
}

#[test]
fn test_insert_multiple_cursor() {
    let mut buffer = Buffer::new("abc\nefg\n");
    let mut selection = Selection::new();
    selection.add_region(SelRegion::caret(1));
    selection.add_region(SelRegion::caret(5));
    let mut cursor = Cursor::new(CursorMode::Insert(selection), None);

    Editor::insert(&mut cursor, &mut buffer, "i", None);
    assert_eq!("aibc\neifg\n", buffer.slice_to_cow(0, buffer.len()));
}

#[test]
fn test_insert_complex() {
    let mut buffer = Buffer::new("abc\nefg\n");
    let mut selection = Selection::new();
    selection.add_region(SelRegion::caret(1));
    selection.add_region(SelRegion::caret(5));
    let mut cursor = Cursor::new(CursorMode::Insert(selection), None);

    Editor::insert(&mut cursor, &mut buffer, "i", None);
    assert_eq!("aibc\neifg\n", buffer.slice_to_cow(0, buffer.len()));
    Editor::insert(&mut cursor, &mut buffer, "j", None);
    assert_eq!("aijbc\neijfg\n", buffer.slice_to_cow(0, buffer.len()));
    Editor::insert(&mut cursor, &mut buffer, "{", None);
    assert_eq!("aij{bc\neij{fg\n", buffer.slice_to_cow(0, buffer.len()));
    Editor::insert(&mut cursor, &mut buffer, " ", None);
    assert_eq!("aij{ bc\neij{ fg\n", buffer.slice_to_cow(0, buffer.len()));
}

#[test]
fn test_insert_pair() {
    let mut buffer = Buffer::new("a bc\ne fg\n");
    let mut selection = Selection::new();
    selection.add_region(SelRegion::caret(1));
    selection.add_region(SelRegion::caret(6));
    let mut cursor = Cursor::new(CursorMode::Insert(selection), None);

    Editor::insert(&mut cursor, &mut buffer, "{", None);
    assert_eq!("a{} bc\ne{} fg\n", buffer.slice_to_cow(0, buffer.len()));
    Editor::insert(&mut cursor, &mut buffer, "}", None);
    assert_eq!("a{} bc\ne{} fg\n", buffer.slice_to_cow(0, buffer.len()));
}

#[test]
fn test_insert_unsorted_regions() {
    // regions stored out of position order: the edit sorts them
    let mut buffer = Buffer::new("abc\nefg\n");
    let mut selection = Selection::new();
    selection.add_region(SelRegion::caret(5));
    selection.add_region(SelRegion::caret(1));
    let mut cursor = Cursor::new(CursorMode::Insert(selection), None);

    Editor::insert(&mut cursor, &mut buffer, "i", None);
    assert_eq!("aibc\neifg\n", buffer.slice_to_cow(0, buffer.len()));
}

#[test]
fn test_insert_pair_carets_between() {
    // auto-pair: carets land between the inserted pairs
    let mut buffer = Buffer::new("a bc\ne fg\n");
    let mut selection = Selection::new();
    selection.add_region(SelRegion::caret(1));
    selection.add_region(SelRegion::caret(6));
    let mut cursor = Cursor::new(CursorMode::Insert(selection), None);

    Editor::insert(&mut cursor, &mut buffer, "{", None);
    match &cursor.mode {
        CursorMode::Insert(sel) => {
            let regions = sel.regions();
            assert_eq!(regions.len(), 2);
            assert_eq!(regions[0].start, 2);
            assert_eq!(regions[0].end, 2);
            assert_eq!(regions[1].start, 9);
            assert_eq!(regions[1].end, 9);
        },
        _ => panic!("expected insert mode"),
    }
}

#[test]
fn test_insert_multichar_verbatim() {
    // multi-character text never triggers pairing logic
    let mut buffer = Buffer::new("a bc\n");
    let mut cursor = Cursor::new(CursorMode::Insert(Selection::caret(1)), None);

    Editor::insert(&mut cursor, &mut buffer, "{{", None);
    assert_eq!("a{{ bc\n", buffer.slice_to_cow(0, buffer.len()));
}

#[test]
fn test_undo_group_classification() {
    assert!(!EditType::InsertChars.breaks_undo_group(EditType::InsertChars));
    assert!(EditType::Delete.breaks_undo_group(EditType::InsertChars));
    assert!(EditType::Other.breaks_undo_group(EditType::Other));
    assert!(EditType::InsertChars.breaks_undo_group(EditType::Delete));
    assert!(!EditType::Delete.breaks_undo_group(EditType::Delete));
}

#[test]
fn test_paste_linewise_from_normal() {
    // line-wise paste lands on the first non-blank of the new line
    let mut buffer = Buffer::new("abc\n  def\n");
    let mut cursor = Cursor::new(CursorMode::Normal(0), None);
    let data = RegisterData::new(String::from("  xy\n"), VisualMode::Linewise);

    let deltas = Editor::do_paste(&mut cursor, &mut buffer, &data);
    assert_eq!(deltas.len(), 1);
    assert_eq!("abc\n  xy\n  def\n", buffer.slice_to_cow(0, buffer.len()));
    match cursor.mode {
        CursorMode::Normal(o) => assert_eq!(o, 6),
        _ => panic!("expected normal mode"),
    }
}

#[test]
fn test_paste_charwise_after_caret() {
    let mut buffer = Buffer::new("abc\n");
    let mut cursor = Cursor::new(CursorMode::Normal(0), None);
    let data = RegisterData::new(String::from("X"), VisualMode::Normal);

    let deltas = Editor::do_paste(&mut cursor, &mut buffer, &data);
    assert_eq!(deltas.len(), 1);
    assert_eq!("aXbc\n", buffer.slice_to_cow(0, buffer.len()));
    match cursor.mode {
        CursorMode::Normal(o) => assert_eq!(o, 1),
        _ => panic!("expected normal mode"),
    }
}

#[test]
fn test_normal_mode_collapses_regions() {
    // with modal editing off, NormalMode keeps only the most recently
    // inserted region and does not touch the text
    let mut buffer = Buffer::new("abc\nefg\n");
    let mut selection = Selection::new();
    selection.add_region(SelRegion::caret(1));
    selection.add_region(SelRegion::caret(5));
    let mut cursor = Cursor::new(CursorMode::Insert(selection), None);

    let deltas = Editor::do_edit(&mut cursor, &mut buffer, &EditCommand::NormalMode, None, false);
    assert_eq!(deltas.len(), 0);
    assert_eq!("abc\nefg\n", buffer.slice_to_cow(0, buffer.len()));
    match &cursor.mode {
        CursorMode::Insert(sel) => {
            assert_eq!(sel.regions().len(), 1);
            assert_eq!(sel.regions()[0].start, 5);
            assert_eq!(sel.regions()[0].end, 5);
        },
        _ => panic!("expected insert mode"),
    }
}

#[test]
fn test_move_line_up() {
    let mut buffer = Buffer::new("abc\ndef\n");
    let mut cursor = Cursor::new(CursorMode::Insert(Selection::caret(5)), None);

    Editor::do_edit(&mut cursor, &mut buffer, &EditCommand::MoveLineUp, None, true);
    assert_eq!("def\nabc\n", buffer.slice_to_cow(0, buffer.len()));
    match &cursor.mode {
        CursorMode::Insert(sel) => {
            assert_eq!(sel.regions()[0].end, 1);
        },
        _ => panic!("expected insert mode"),
    }
}

#[test]
fn test_toggle_visual_round_trip() {
    let mut buffer = Buffer::new("abc\n");
    let mut cursor = Cursor::new(CursorMode::Normal(2), None);

    Editor::do_edit(&mut cursor, &mut buffer, &EditCommand::ToggleVisualMode, None, true);
    match cursor.mode {
        CursorMode::Visual { start, end, mode } => {
            assert_eq!(start, 2);
            assert_eq!(end, 2);
            assert_eq!(mode, VisualMode::Normal);
        },
        _ => panic!("expected visual mode"),
    }
    Editor::do_edit(&mut cursor, &mut buffer, &EditCommand::ToggleVisualMode, None, true);
    match cursor.mode {
        CursorMode::Normal(o) => assert_eq!(o, 2),
        _ => panic!("expected normal mode"),
    }
    Editor::do_edit(&mut cursor, &mut buffer, &EditCommand::ToggleVisualMode, None, false);
    match cursor.mode {
        CursorMode::Normal(o) => assert_eq!(o, 2),
        _ => panic!("expected normal mode unchanged when not modal"),
    }
}

#[test]
fn test_insert_mode_fresh_caret() {
    let mut buffer = Buffer::new("abc\n");
    let mut cursor = Cursor::new(CursorMode::Normal(2), None);

    Editor::do_edit(&mut cursor, &mut buffer, &EditCommand::InsertMode, None, true);
    match &cursor.mode {
        CursorMode::Insert(sel) => {
            assert_eq!(sel.regions().len(), 1);
            assert_eq!(sel.regions()[0].start, 2);
            assert_eq!(sel.regions()[0].end, 2);
        },
        _ => panic!("expected insert mode"),
    }
}

#[test]
fn test_skip_over_closer() {
    // typing a closer right before the same closer only moves the caret
    let mut buffer = Buffer::new("a{}b\n");
    let mut cursor = Cursor::new(CursorMode::Insert(Selection::caret(2)), None);

    Editor::insert(&mut cursor, &mut buffer, "}", None);
    assert_eq!("a{}b\n", buffer.slice_to_cow(0, buffer.len()));
    match &cursor.mode {
        CursorMode::Insert(sel) => {
            assert_eq!(sel.regions()[0].end, 3);
        },
        _ => panic!("expected insert mode"),
    }
}

#[test]
fn test_insert_over_range_selection() {
    // a plain character typed over a range replaces the selected text
    let mut buffer = Buffer::new("abcdef");
    let mut cursor = Cursor::new(CursorMode::Insert(Selection::region(1, 4)), None);

    Editor::insert(&mut cursor, &mut buffer, "x", None);
    assert_eq!("axef", buffer.slice_to_cow(0, buffer.len()));
    match &cursor.mode {
        CursorMode::Insert(sel) => {
            assert_eq!(sel.regions()[0].start, 2);
            assert_eq!(sel.regions()[0].end, 2);
        },
        _ => panic!("expected insert mode"),
    }
}

#[test]
fn test_paste_charwise_into_insert_selection() {
    // character-wise paste into Insert mode replaces each region and
    // leaves the carets just past the pasted text
    let mut buffer = Buffer::new("abc\nefg\n");
    let mut selection = Selection::new();
    selection.add_region(SelRegion::caret(1));
    selection.add_region(SelRegion::caret(5));
    let mut cursor = Cursor::new(CursorMode::Insert(selection), None);
    let data = RegisterData::new(String::from("xy"), VisualMode::Normal);

    Editor::do_paste(&mut cursor, &mut buffer, &data);
    assert_eq!("axybc\nexyfg\n", buffer.slice_to_cow(0, buffer.len()));
    match &cursor.mode {
        CursorMode::Insert(sel) => {
            assert_eq!(sel.regions()[0].end, 3);
            assert_eq!(sel.regions()[1].end, 9);
        },
        _ => panic!("expected insert mode"),
    }
}
