use pachinko::editor_app::{App, AppAction, InputEvent, Key, KeyKind, Modifiers};
use pachinko::sheet::SheetSelection;
use pachinko::types::{Item, Location};
use pachinko::view_model::StoreAction;

fn item(id: i64, loc: &str, num_bins: i64, bin: i64, name: &str, size: &str) -> Item {
    Item {
        object_id: Some(id),
        name: name.to_string(),
        location: Location {
            object_id: Some(100 + id),
            name: loc.to_string(),
            num_bins,
        },
        bin_no: bin,
        size: size.to_string(),
    }
}

fn plain() -> Modifiers {
    Modifiers {
        control: false,
        alt: false,
        shift: false,
    }
}

fn alt() -> Modifiers {
    Modifiers {
        control: false,
        alt: true,
        shift: false,
    }
}

fn ctrl() -> Modifiers {
    Modifiers {
        control: true,
        alt: false,
        shift: false,
    }
}

fn fresh_app() -> App {
    let mut app = App::new();
    app.apply_refresh(
        vec![
            item(1, "Huge", 8, 6, "Item", "M"),
            item(2, "Test", 8, 3, "Item", "S"),
        ],
        1,
    );
    app.view_model.render(&None);
    app
}

#[test]
fn a_fresh_editor_is_ready_to_type_a_name() {
    let app = App::new();
    assert_eq!(app.sheet_state.selection, SheetSelection::Char(0, 2, 0));
}

#[test]
fn arrows_move_between_rows() {
    let mut app = fresh_app();
    app.handle(InputEvent::Key(Key::Down, plain(), KeyKind::Press));
    assert_eq!(app.sheet_state.selection, SheetSelection::Char(1, 2, 0));
    app.handle(InputEvent::Key(Key::Up, plain(), KeyKind::Press));
    assert_eq!(app.sheet_state.selection, SheetSelection::Char(0, 2, 0));
}

#[test]
fn alt_arrows_move_between_columns() {
    let mut app = fresh_app();
    app.handle(InputEvent::Key(Key::Left, alt(), KeyKind::Press));
    // The size column is a choice column, so it takes a cell selection.
    assert_eq!(app.sheet_state.selection, SheetSelection::Cell(0, 1));
    app.handle(InputEvent::Key(Key::Right, alt(), KeyKind::Press));
    // Back into the free-text name column: a character cursor.
    assert_eq!(app.sheet_state.selection, SheetSelection::Char(0, 2, 0));
}

#[test]
fn escape_backs_out_of_the_selection() {
    let mut app = fresh_app();
    app.handle(InputEvent::Key(Key::Esc, plain(), KeyKind::Press));
    assert_eq!(app.sheet_state.selection, SheetSelection::Row(0));
    app.handle(InputEvent::Key(Key::Esc, plain(), KeyKind::Press));
    assert_eq!(app.sheet_state.selection, SheetSelection::Unselected);
}

#[test]
fn typing_edits_the_record_under_the_cursor() {
    let mut app = fresh_app();
    app.handle(InputEvent::Key(Key::End, plain(), KeyKind::Press));
    assert_eq!(app.sheet_state.selection, SheetSelection::Char(0, 2, 4));
    app.handle(InputEvent::Key(Key::Letter('s'), plain(), KeyKind::Press));
    assert_eq!(
        app.view_model.last_rendered_set.entries[0].item.name,
        "Items".to_string()
    );
    assert_eq!(app.sheet_state.selection, SheetSelection::Char(0, 2, 5));
    app.handle(InputEvent::Key(Key::Backspace, plain(), KeyKind::Press));
    assert_eq!(
        app.view_model.last_rendered_set.entries[0].item.name,
        "Item".to_string()
    );
}

#[test]
fn holding_control_builds_a_search() {
    let mut app = fresh_app();
    app.handle(InputEvent::Key(Key::ControlKey, ctrl(), KeyKind::Press));
    assert_eq!(app.search, Some("".to_string()));
    app.handle(InputEvent::Key(Key::Letter('i'), ctrl(), KeyKind::Press));
    app.handle(InputEvent::Key(Key::Letter('t'), ctrl(), KeyKind::Press));
    assert_eq!(app.search, Some("it".to_string()));
    app.handle(InputEvent::Key(Key::ControlKey, ctrl(), KeyKind::Release));
    assert_eq!(app.search, Some("it".to_string()));
}

#[test]
fn releasing_control_with_an_empty_search_clears_it() {
    let mut app = fresh_app();
    app.handle(InputEvent::Key(Key::ControlKey, ctrl(), KeyKind::Press));
    app.handle(InputEvent::Key(Key::ControlKey, ctrl(), KeyKind::Release));
    assert_eq!(app.search, None);
}

#[test]
fn function_keys_toggle_help_refresh_and_quit() {
    let mut app = fresh_app();
    app.handle(InputEvent::Key(Key::Function(1), plain(), KeyKind::Press));
    assert!(app.help_shown);
    let (_, refresh) = app.handle(InputEvent::Key(Key::Function(5), plain(), KeyKind::Press));
    assert!(matches!(refresh, AppAction::RefreshStore));
    let (_, quit) = app.handle(InputEvent::Key(Key::Function(12), plain(), KeyKind::Press));
    assert!(matches!(quit, AppAction::Quit));
}

#[test]
fn undo_key_flushes_then_undoes() {
    let mut app = fresh_app();
    app.handle(InputEvent::Key(Key::End, plain(), KeyKind::Press));
    app.handle(InputEvent::Key(Key::Letter('s'), plain(), KeyKind::Press));
    let (_, action) = app.handle(InputEvent::Key(Key::Backspace, alt(), KeyKind::Press));
    match action {
        AppAction::PerformStore(actions) => {
            assert_eq!(actions.len(), 2);
            assert!(matches!(actions[0], StoreAction::Write(_)));
            assert!(matches!(actions[1], StoreAction::Undo));
        }
        _ => panic!("undo must reach the store"),
    }
    assert!(app.view_model.edited_items.is_empty());
    assert_eq!(app.view_model.last_updated_checkpoint, 0);
}

#[test]
fn idle_with_pending_edits_flushes_once() {
    let mut app = fresh_app();
    app.handle(InputEvent::Key(Key::Letter('x'), plain(), KeyKind::Press));
    assert_eq!(app.view_model.edited_items.len(), 1);
    let action = app.handle_idle();
    match action {
        AppAction::PersistWrites(writes) => assert_eq!(writes.len(), 1),
        _ => panic!("pending edits must flush on idle"),
    }
    assert!(app.view_model.edited_items.is_empty());
    assert!(matches!(app.handle_idle(), AppAction::Nothing));
}

#[test]
fn creating_an_item_takes_its_name_from_the_search() {
    let mut app = fresh_app();
    app.handle(InputEvent::Key(Key::ControlKey, ctrl(), KeyKind::Press));
    app.handle(InputEvent::Key(Key::Letter('b'), ctrl(), KeyKind::Press));
    app.handle(InputEvent::Key(Key::ControlKey, ctrl(), KeyKind::Release));
    let (_, action) = app.handle(InputEvent::Key(Key::Enter, alt(), KeyKind::Press));
    match action {
        AppAction::CreateItem {
            after_row,
            name,
            location,
            size,
        } => {
            assert_eq!(after_row, 0);
            assert_eq!(name, "B".to_string());
            // The new record lands beside the selected row, sized medium.
            assert_eq!(location.name, "Huge".to_string());
            assert_eq!(size, pachinko::types::ItemSize::M);
        }
        _ => panic!("insert must ask the caller to create the record"),
    }
    // The caller creates the record and completes the splice.
    let created = item(9, "Huge", 8, 2, "B", "M");
    app.complete_insert_item(0, &created);
    let ids: Vec<i64> = app
        .view_model
        .last_rendered_set
        .entries
        .iter()
        .map(|e| e.id)
        .collect();
    assert_eq!(ids, vec![1, 9, 2]);
    assert_eq!(app.sheet_state.selection.row(), Some(1));
}

#[test]
fn deleting_asks_for_the_selected_record() {
    let mut app = fresh_app();
    let (_, action) = app.handle(InputEvent::Key(Key::Delete, alt(), KeyKind::Press));
    match action {
        AppAction::DeleteRecord {
            id,
            name,
            description,
        } => {
            assert_eq!(id, 1);
            assert_eq!(name, "Item".to_string());
            assert_eq!(description, "delete item: Item".to_string());
        }
        _ => panic!("delete must reach the store"),
    }
}

#[test]
fn saving_one_row_persists_only_it() {
    let mut app = fresh_app();
    app.handle(InputEvent::Key(Key::Letter('x'), plain(), KeyKind::Press));
    app.handle(InputEvent::Key(Key::Down, plain(), KeyKind::Press));
    app.handle(InputEvent::Key(Key::Letter('y'), plain(), KeyKind::Press));
    assert_eq!(app.view_model.edited_items.len(), 2);
    let (_, action) = app.handle(InputEvent::Key(Key::Letter('s'), alt(), KeyKind::Press));
    match action {
        AppAction::PersistWrite(Some(w)) => assert_eq!(w.id, 2),
        _ => panic!("the selected row's edit must persist"),
    }
    assert_eq!(app.view_model.edited_items, vec![1]);
}

#[test]
fn preparing_a_render_clamps_the_selection_and_window() {
    let mut app = fresh_app();
    // A stale selection far past the two rows and three columns.
    app.sheet_state.selection = SheetSelection::Char(9, 9, 9);
    let (start, end) = app.prepare_render(5);
    // Clamped to the last row and column; the name cell holds 4 graphemes.
    assert_eq!(app.sheet_state.selection, SheetSelection::Char(1, 2, 4));
    assert_eq!((start, end), (0, 2));
    assert_eq!(app.sheet_state.offset, 0);

    // An empty viewport changes nothing.
    let before = app.sheet_state.selection;
    assert_eq!(app.prepare_render(0), (0, 0));
    assert_eq!(app.sheet_state.selection, before);
}
