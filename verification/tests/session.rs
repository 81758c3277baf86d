use fitui::app::{App, Mode, StoreRequest};
use fitui::catalog::TagCatalog;
use fitui::config::Config;
use fitui::form::{Draft, Field, TransactionForm};
use fitui::handlers::{handle_form, handle_key, handle_normal, handle_stats, Action, Key};
use fitui::models::{Tag, Transaction, TransactionType};

fn tx(id: i32, source: &str, amount: u64, kind: TransactionType, tag: Tag, date: &str) -> Transaction {
    Transaction { id, source: source.to_string(), amount, kind, tag, date: date.to_string() }
}

fn three() -> Vec<Transaction> {
    vec![
        tx(3, "Train", 4_550, TransactionType::Debit, Tag::from_str("travel"), "2026-03-02"),
        tx(2, "Pay", 500_000, TransactionType::Credit, Tag::from_str("salary"), "2026-02-28"),
        tx(1, "Lunch", 1_200, TransactionType::Debit, Tag::from_str("food"), "2026-02-11"),
    ]
}

fn app_with(transactions: Vec<Transaction>) -> App {
    App::new(&Config::default(), transactions)
}

fn type_text(app: &mut App, text: &str) {
    for c in text.chars() {
        assert_eq!(handle_key(app, Key::Char(c)), Action::Continue);
    }
}

fn selection_is_valid(app: &App) -> bool {
    app.selected < std::cmp::max(1, app.transactions.len())
}

#[test]
fn field_order() {
    assert_eq!(Field::Source.next(), Field::Amount);
    assert_eq!(Field::Amount.next(), Field::Kind);
    assert_eq!(Field::Kind.next(), Field::Tag);
    assert_eq!(Field::Tag.next(), Field::Date);
    assert_eq!(Field::Date.next(), Field::Source);
}

#[test]
fn new_form_is_blank() {
    let form = TransactionForm::new();
    assert_eq!(form.source, "");
    assert_eq!(form.amount, "");
    assert_eq!(form.kind, TransactionType::Debit);
    assert_eq!(form.tag_index, 0);
    assert_eq!(form.date, "2026-02-11");
    assert_eq!(form.active, Field::Source);
}

#[test]
fn push_char_goes_to_the_active_text_field() {
    let mut form = TransactionForm::new();
    form.push_char('a');
    form.push_char('b');
    assert_eq!(form.source, "ab");
    form.active = Field::Amount;
    form.push_char('1');
    assert_eq!(form.amount, "1");
    assert_eq!(form.source, "ab");
    form.active = Field::Date;
    form.push_char('x');
    assert_eq!(form.date, "2026-02-11x");
}

#[test]
fn push_char_does_nothing_on_kind_and_tag() {
    let mut form = TransactionForm::new();
    form.active = Field::Kind;
    form.push_char('c');
    form.active = Field::Tag;
    form.push_char('t');
    assert_eq!(form.source, "");
    assert_eq!(form.amount, "");
    assert_eq!(form.date, "2026-02-11");
    assert_eq!(form.kind, TransactionType::Debit);
    assert_eq!(form.tag_index, 0);
}

#[test]
fn pop_char_removes_the_last_character() {
    let mut form = TransactionForm::new();
    form.push_char('a');
    form.push_char('b');
    form.pop_char();
    assert_eq!(form.source, "a");
    form.active = Field::Date;
    form.pop_char();
    assert_eq!(form.date, "2026-02-1");
    assert_eq!(form.source, "a");
}

#[test]
fn pop_char_on_empty_or_non_text_field_does_nothing() {
    let mut form = TransactionForm::new();
    form.pop_char();
    assert_eq!(form.source, "");
    form.push_char('z');
    form.active = Field::Kind;
    form.pop_char();
    form.active = Field::Tag;
    form.pop_char();
    assert_eq!(form.source, "z");
    assert_eq!(form.date, "2026-02-11");
}

#[test]
fn toggle_kind_flips() {
    let mut form = TransactionForm::new();
    form.toggle_kind();
    assert_eq!(form.kind, TransactionType::Credit);
    form.toggle_kind();
    assert_eq!(form.kind, TransactionType::Debit);
}

#[test]
fn next_tag_wraps_on_six_entry_catalog() {
    let mut form = TransactionForm::new();
    form.tag_index = 5;
    form.next_tag(6);
    assert_eq!(form.tag_index, 0);
}

#[test]
fn next_and_prev_tag_cycle() {
    let mut form = TransactionForm::new();
    form.next_tag(6);
    assert_eq!(form.tag_index, 1);
    form.prev_tag(6);
    assert_eq!(form.tag_index, 0);
    form.prev_tag(6);
    assert_eq!(form.tag_index, 5);
}

#[test]
fn next_and_prev_tag_without_tags_do_nothing() {
    let mut form = TransactionForm::new();
    form.tag_index = 2;
    form.next_tag(0);
    assert_eq!(form.tag_index, 2);
    form.prev_tag(0);
    assert_eq!(form.tag_index, 2);
}

#[test]
fn advance_field_rotates() {
    let mut form = TransactionForm::new();
    let mut seen = Vec::new();
    for _ in 0..5 {
        form.advance_field();
        seen.push(form.active);
    }
    assert_eq!(seen, vec![Field::Amount, Field::Kind, Field::Tag, Field::Date, Field::Source]);
}

#[test]
fn reset_restores_defaults() {
    let mut form = TransactionForm::new();
    form.push_char('a');
    form.active = Field::Amount;
    form.push_char('9');
    form.toggle_kind();
    form.next_tag(6);
    form.active = Field::Date;
    form.pop_char();
    form.reset();
    assert_eq!(form.source, "");
    assert_eq!(form.amount, "");
    assert_eq!(form.kind, TransactionType::Debit);
    assert_eq!(form.tag_index, 0);
    assert_eq!(form.date, "2026-02-11");
    assert_eq!(form.active, Field::Source);
}

#[test]
fn load_from_fills_the_form() {
    let catalog = TagCatalog::new(Tag::all());
    let mut form = TransactionForm::new();
    form.active = Field::Date;
    form.load_from(&tx(9, "Pay", 500_050, TransactionType::Credit, Tag::from_str("salary"), "2026-01-20"), &catalog);
    assert_eq!(form.source, "Pay");
    assert_eq!(form.amount, "5000.50");
    assert_eq!(form.kind, TransactionType::Credit);
    assert_eq!(form.tag_index, 4);
    assert_eq!(form.date, "2026-01-20");
    assert_eq!(form.active, Field::Source);
}

#[test]
fn load_from_with_missing_tag_takes_index_zero() {
    let catalog = TagCatalog::new(vec![Tag::from_str("travel"), Tag::from_str("food")]);
    let mut form = TransactionForm::new();
    form.tag_index = 1;
    form.load_from(&tx(9, "Pay", 100, TransactionType::Credit, Tag::from_str("salary"), "2026-01-20"), &catalog);
    assert_eq!(form.tag_index, 0);
}

#[test]
fn commit_reads_the_amount() {
    let catalog = TagCatalog::new(Tag::all());
    let mut form = TransactionForm::new();
    form.source = String::from("Coffee");
    form.amount = String::from(" 3.5 ");
    form.tag_index = 0;
    let draft = form.commit(&catalog);
    assert_eq!(
        draft,
        Draft {
            source: String::from("Coffee"),
            amount: 350,
            kind: TransactionType::Debit,
            tag: Tag::from_str("food"),
            date: String::from("2026-02-11"),
        }
    );
}

#[test]
fn commit_with_unparsable_amount_gives_zero() {
    let catalog = TagCatalog::new(Tag::all());
    let mut form = TransactionForm::new();
    form.amount = String::from("lots");
    assert_eq!(form.commit(&catalog).amount, 0);
    form.amount = String::new();
    assert_eq!(form.commit(&catalog).amount, 0);
}

#[test]
fn commit_with_tag_index_out_of_range_gives_other() {
    let catalog = TagCatalog::new(vec![Tag::from_str("food"), Tag::from_str("travel")]);
    let mut form = TransactionForm::new();
    form.tag_index = 7;
    assert_eq!(form.commit(&catalog).tag, Tag::from_str("other"));
}

#[test]
fn edit_round_trip_keeps_every_field() {
    let catalog = TagCatalog::new(Tag::all());
    for stored in three() {
        let mut form = TransactionForm::new();
        form.load_from(&stored, &catalog);
        let draft = form.commit(&catalog);
        assert_eq!(draft.source, stored.source);
        assert_eq!(draft.amount, stored.amount);
        assert_eq!(draft.kind, stored.kind);
        assert_eq!(draft.tag, stored.tag);
        assert_eq!(draft.date, stored.date);
    }
}

#[test]
fn edit_round_trip_with_tag_gone_from_catalog() {
    let catalog = TagCatalog::new(vec![Tag::from_str("bills"), Tag::from_str("food")]);
    let stored = tx(4, "Flight", 99_999, TransactionType::Debit, Tag::from_str("travel"), "2026-05-05");
    let mut form = TransactionForm::new();
    form.load_from(&stored, &catalog);
    let draft = form.commit(&catalog);
    assert_eq!(draft.source, stored.source);
    assert_eq!(draft.amount, stored.amount);
    assert_eq!(draft.kind, stored.kind);
    assert_eq!(draft.date, stored.date);
    assert_eq!(draft.tag, Tag::from_str("bills"));
}

#[test]
fn session_keeps_the_configured_tag_names() {
    let config = Config { tags: vec![String::from("rent"), String::from("gym")] };
    let mut app = App::new(&config, vec![tx(1, "Flat", 90_000, TransactionType::Debit, Tag::from_str("gym"), "2026-04-01")]);
    assert_eq!(app.tags.tags(), &vec![Tag::from_str("rent"), Tag::from_str("gym")]);
    handle_key(&mut app, Key::Char('e'));
    assert_eq!(app.form.tag_index, 1);
    for _ in 0..3 {
        handle_key(&mut app, Key::Tab);
    }
    handle_key(&mut app, Key::Right);
    assert_eq!(app.form.tag_index, 0);
    match handle_key(&mut app, Key::Enter) {
        Action::Store(StoreRequest::Update(1, draft)) => assert_eq!(draft.tag.as_str(), "rent"),
        other => panic!("unexpected action {:?}", other),
    }
}

#[test]
fn new_session_starts_in_the_list() {
    let app = app_with(three());
    assert_eq!(app.mode, Mode::Normal);
    assert_eq!(app.editing, None);
    assert_eq!(app.selected, 0);
    assert_eq!(app.transactions, three());
    assert_eq!(app.tags.tags(), &Tag::all());
    assert_eq!(app.form.source, "");
}

#[test]
fn refresh_keeps_selection_in_range() {
    let mut app = app_with(three());
    app.selected = 1;
    app.refresh(three());
    assert_eq!(app.selected, 1);
    app.selected = 2;
    let mut two = three();
    two.pop();
    app.refresh(two);
    assert_eq!(app.selected, 1);
    assert_eq!(app.transactions.len(), 2);
}

#[test]
fn refresh_decrements_by_one_only_at_the_end() {
    let mut app = app_with(three());
    app.selected = 0;
    let mut two = three();
    two.remove(0);
    app.refresh(two);
    assert_eq!(app.selected, 0);
    app.selected = 1;
    app.refresh(vec![three().remove(1)]);
    assert_eq!(app.selected, 0);
}

#[test]
fn refresh_to_empty_cache_selects_zero() {
    let mut app = app_with(three());
    app.selected = 2;
    app.refresh(Vec::new());
    assert_eq!(app.selected, 0);
    assert!(app.transactions.is_empty());
}

#[test]
fn refresh_with_longer_cache_keeps_selection() {
    let mut app = app_with(vec![three().remove(0)]);
    app.refresh(three());
    assert_eq!(app.selected, 0);
    app.selected = 2;
    let mut four = three();
    four.push(tx(0, "Old", 1, TransactionType::Debit, Tag::from_str("other"), "2025-01-01"));
    app.refresh(four);
    assert_eq!(app.selected, 2);
}

#[test]
fn begin_edit_selected_loads_the_selection() {
    let mut app = app_with(three());
    app.selected = 1;
    app.begin_edit_selected();
    assert_eq!(app.mode, Mode::Adding);
    assert_eq!(app.editing, Some(2));
    assert_eq!(app.form.source, "Pay");
    assert_eq!(app.form.amount, "5000.00");
    assert_eq!(app.form.kind, TransactionType::Credit);
    assert_eq!(app.form.tag_index, 4);
    assert_eq!(app.form.date, "2026-02-28");
    assert_eq!(app.form.active, Field::Source);
}

#[test]
fn begin_edit_selected_on_empty_cache_does_nothing() {
    let mut app = app_with(Vec::new());
    app.begin_edit_selected();
    assert_eq!(app.mode, Mode::Normal);
    assert_eq!(app.editing, None);
    assert_eq!(app.form.source, "");
}

#[test]
fn delete_selected_asks_for_the_selected_id() {
    let mut app = app_with(three());
    app.selected = 2;
    assert_eq!(app.delete_selected(), Some(StoreRequest::Delete(1)));
    assert_eq!(app.transactions.len(), 3);
    assert_eq!(app.selected, 2);
}

#[test]
fn delete_selected_on_empty_cache_asks_nothing() {
    let app = app_with(Vec::new());
    assert_eq!(app.delete_selected(), None);
}

#[test]
fn save_transaction_inserts_when_nothing_is_edited() {
    let mut app = app_with(three());
    app.form.source = String::from("Book");
    app.form.amount = String::from("15");
    app.form.tag_index = 2;
    let request = app.save_transaction();
    assert_eq!(
        request,
        StoreRequest::Insert(Draft {
            source: String::from("Book"),
            amount: 1_500,
            kind: TransactionType::Debit,
            tag: Tag::from_str("shopping"),
            date: String::from("2026-02-11"),
        })
    );
    assert_eq!(app.editing, None);
}

#[test]
fn save_transaction_updates_the_edited_one_and_clears_the_target() {
    let mut app = app_with(three());
    app.selected = 2;
    app.begin_edit_selected();
    app.form.amount = String::from("13.00");
    let request = app.save_transaction();
    assert_eq!(
        request,
        StoreRequest::Update(
            1,
            Draft {
                source: String::from("Lunch"),
                amount: 1_300,
                kind: TransactionType::Debit,
                tag: Tag::from_str("food"),
                date: String::from("2026-02-11"),
            }
        )
    );
    assert_eq!(app.editing, None);
}

#[test]
fn quit_key() {
    let mut app = app_with(three());
    assert_eq!(handle_key(&mut app, Key::Char('q')), Action::Quit);
    assert_eq!(app.mode, Mode::Normal);
}

#[test]
fn add_key_opens_a_blank_form() {
    let mut app = app_with(three());
    app.form.source = String::from("left over");
    app.editing = Some(3);
    assert_eq!(handle_key(&mut app, Key::Char('a')), Action::Continue);
    assert_eq!(app.mode, Mode::Adding);
    assert_eq!(app.editing, None);
    assert_eq!(app.form.source, "");
    assert_eq!(app.form.date, "2026-02-11");
}

#[test]
fn edit_key_opens_the_form_on_the_selection() {
    let mut app = app_with(three());
    assert_eq!(handle_key(&mut app, Key::Char('e')), Action::Continue);
    assert_eq!(app.mode, Mode::Adding);
    assert_eq!(app.editing, Some(3));
    assert_eq!(app.form.source, "Train");
    assert_eq!(app.form.amount, "45.50");
    assert_eq!(app.form.tag_index, 1);
}

#[test]
fn stats_key_and_back() {
    let mut app = app_with(three());
    assert_eq!(handle_key(&mut app, Key::Char('s')), Action::Continue);
    assert_eq!(app.mode, Mode::Stats);
    assert_eq!(handle_key(&mut app, Key::Char('q')), Action::Continue);
    assert_eq!(handle_key(&mut app, Key::Char('a')), Action::Continue);
    assert_eq!(handle_key(&mut app, Key::Enter), Action::Continue);
    assert_eq!(app.mode, Mode::Stats);
    assert_eq!(handle_key(&mut app, Key::Esc), Action::Continue);
    assert_eq!(app.mode, Mode::Normal);
}

#[test]
fn selection_moves_within_the_list() {
    let mut app = app_with(three());
    handle_key(&mut app, Key::Up);
    assert_eq!(app.selected, 0);
    handle_key(&mut app, Key::Down);
    assert_eq!(app.selected, 1);
    handle_key(&mut app, Key::Down);
    assert_eq!(app.selected, 2);
    handle_key(&mut app, Key::Down);
    assert_eq!(app.selected, 2);
    handle_key(&mut app, Key::Up);
    assert_eq!(app.selected, 1);
}

#[test]
fn selection_stays_at_zero_in_an_empty_list() {
    let mut app = app_with(Vec::new());
    handle_key(&mut app, Key::Down);
    assert_eq!(app.selected, 0);
    handle_key(&mut app, Key::Up);
    assert_eq!(app.selected, 0);
}

#[test]
fn delete_key_asks_the_store() {
    let mut app = app_with(three());
    handle_key(&mut app, Key::Down);
    assert_eq!(handle_key(&mut app, Key::Char('d')), Action::Store(StoreRequest::Delete(2)));
    assert_eq!(app.mode, Mode::Normal);
}

#[test]
fn other_keys_in_the_list_do_nothing() {
    let mut app = app_with(three());
    for key in [Key::Char('x'), Key::Left, Key::Right, Key::Tab, Key::Enter, Key::Esc, Key::Backspace, Key::Other] {
        assert_eq!(handle_normal(&mut app, key), Action::Continue);
    }
    assert_eq!(app.mode, Mode::Normal);
    assert_eq!(app.selected, 0);
    assert_eq!(app.form.source, "");
}

#[test]
fn typing_a_new_transaction_and_committing() {
    let mut app = app_with(three());
    handle_key(&mut app, Key::Char('a'));
    type_text(&mut app, "Teq");
    handle_key(&mut app, Key::Backspace);
    type_text(&mut app, "a");
    handle_key(&mut app, Key::Tab);
    type_text(&mut app, "2.75");
    handle_key(&mut app, Key::Tab);
    assert_eq!(app.form.active, Field::Kind);
    type_text(&mut app, "zz");
    handle_key(&mut app, Key::Right);
    assert_eq!(app.form.kind, TransactionType::Credit);
    handle_key(&mut app, Key::Left);
    assert_eq!(app.form.kind, TransactionType::Debit);
    handle_key(&mut app, Key::Tab);
    assert_eq!(app.form.active, Field::Tag);
    handle_key(&mut app, Key::Left);
    assert_eq!(app.form.tag_index, 5);
    handle_key(&mut app, Key::Right);
    handle_key(&mut app, Key::Right);
    assert_eq!(app.form.tag_index, 1);
    handle_key(&mut app, Key::Left);
    assert_eq!(app.form.tag_index, 0);
    handle_key(&mut app, Key::Tab);
    for _ in 0..2 {
        handle_key(&mut app, Key::Backspace);
    }
    type_text(&mut app, "14");
    let action = handle_key(&mut app, Key::Enter);
    assert_eq!(
        action,
        Action::Store(StoreRequest::Insert(Draft {
            source: String::from("Tea"),
            amount: 275,
            kind: TransactionType::Debit,
            tag: Tag::from_str("food"),
            date: String::from("2026-02-14"),
        }))
    );
    assert_eq!(app.mode, Mode::Normal);
    assert_eq!(app.editing, None);
    assert_eq!(app.form.source, "");
    assert_eq!(app.form.amount, "");
    assert_eq!(app.form.date, "2026-02-11");
    assert_eq!(app.form.active, Field::Source);
}

#[test]
fn editing_and_committing_asks_for_an_update() {
    let mut app = app_with(three());
    handle_key(&mut app, Key::Down);
    handle_key(&mut app, Key::Char('e'));
    type_text(&mut app, "roll");
    let action = handle_key(&mut app, Key::Enter);
    assert_eq!(
        action,
        Action::Store(StoreRequest::Update(
            2,
            Draft {
                source: String::from("Payroll"),
                amount: 500_000,
                kind: TransactionType::Credit,
                tag: Tag::from_str("salary"),
                date: String::from("2026-02-28"),
            }
        ))
    );
    assert_eq!(app.editing, None);
    assert_eq!(app.mode, Mode::Normal);
    handle_key(&mut app, Key::Char('a'));
    let next = handle_key(&mut app, Key::Enter);
    assert!(matches!(next, Action::Store(StoreRequest::Insert(_))));
}

#[test]
fn cancel_discards_the_form_and_the_edit_target() {
    let mut app = app_with(three());
    handle_key(&mut app, Key::Char('e'));
    type_text(&mut app, "!!");
    assert_eq!(handle_form(&mut app, Key::Esc), Action::Continue);
    assert_eq!(app.mode, Mode::Normal);
    assert_eq!(app.editing, None);
    assert_eq!(app.form.source, "");
    assert_eq!(app.form.kind, TransactionType::Debit);
}

#[test]
fn arrows_on_a_text_field_do_nothing() {
    let mut app = app_with(three());
    handle_key(&mut app, Key::Char('a'));
    handle_key(&mut app, Key::Left);
    handle_key(&mut app, Key::Right);
    handle_key(&mut app, Key::Up);
    handle_key(&mut app, Key::Down);
    handle_key(&mut app, Key::Other);
    assert_eq!(app.form.kind, TransactionType::Debit);
    assert_eq!(app.form.tag_index, 0);
    assert_eq!(app.form.source, "");
    assert_eq!(app.selected, 0);
    assert_eq!(app.mode, Mode::Adding);
}

#[test]
fn letters_in_the_form_are_typed_not_obeyed() {
    let mut app = app_with(three());
    handle_key(&mut app, Key::Char('a'));
    type_text(&mut app, "qaesd");
    assert_eq!(app.mode, Mode::Adding);
    assert_eq!(app.form.source, "qaesd");
}

#[test]
fn tag_arrows_with_an_empty_catalog_do_nothing() {
    let mut app = App::new(&Config { tags: Vec::new() }, three());
    handle_key(&mut app, Key::Char('a'));
    for _ in 0..3 {
        handle_key(&mut app, Key::Tab);
    }
    assert_eq!(app.form.active, Field::Tag);
    handle_key(&mut app, Key::Right);
    handle_key(&mut app, Key::Left);
    assert_eq!(app.form.tag_index, 0);
    let action = handle_key(&mut app, Key::Enter);
    match action {
        Action::Store(StoreRequest::Insert(draft)) => assert_eq!(draft.tag, Tag::from_str("other")),
        other => panic!("unexpected action {:?}", other),
    }
}

#[test]
fn stats_handler_only_obeys_escape() {
    let mut app = app_with(three());
    app.mode = Mode::Stats;
    for key in [Key::Char('q'), Key::Up, Key::Down, Key::Tab, Key::Enter, Key::Backspace, Key::Other] {
        assert_eq!(handle_stats(&mut app, key), Action::Continue);
        assert_eq!(app.mode, Mode::Stats);
    }
    assert_eq!(handle_stats(&mut app, Key::Esc), Action::Continue);
    assert_eq!(app.mode, Mode::Normal);
}

#[test]
fn deleting_the_sole_transaction_then_editing_is_a_no_op() {
    let mut app = app_with(vec![tx(1, "Lunch", 1_200, TransactionType::Debit, Tag::from_str("food"), "2026-02-11")]);
    let action = handle_key(&mut app, Key::Char('d'));
    assert_eq!(action, Action::Store(StoreRequest::Delete(1)));
    app.refresh(Vec::new());
    assert_eq!(app.selected, 0);
    assert!(app.transactions.is_empty());
    assert_eq!(handle_key(&mut app, Key::Char('e')), Action::Continue);
    assert_eq!(app.mode, Mode::Normal);
    assert_eq!(app.editing, None);
    assert_eq!(app.form.source, "");
    assert_eq!(handle_key(&mut app, Key::Char('d')), Action::Continue);
}

#[test]
fn selection_stays_valid_through_adds_and_deletes() {
    let mut store: Vec<Transaction> = Vec::new();
    let mut app = app_with(Vec::new());
    let mut next_id = 1;
    let moves = [0usize, 3, 1, 4, 1, 5, 9, 2, 6, 5, 3, 5, 8, 9, 7, 9, 3, 2, 3, 8, 4, 6];
    for step in moves {
        if step % 3 != 0 || store.is_empty() {
            handle_key(&mut app, Key::Char('a'));
            let action = handle_key(&mut app, Key::Enter);
            if let Action::Store(StoreRequest::Insert(draft)) = action {
                store.insert(
                    0,
                    Transaction {
                        id: next_id,
                        source: draft.source,
                        amount: draft.amount,
                        kind: draft.kind,
                        tag: draft.tag,
                        date: draft.date,
                    },
                );
                next_id += 1;
            } else {
                panic!("commit did not ask for an insert");
            }
        } else {
            for _ in 0..step {
                handle_key(&mut app, Key::Down);
            }
            let before = app.selected;
            let action = handle_key(&mut app, Key::Char('d'));
            if let Action::Store(StoreRequest::Delete(id)) = action {
                assert_eq!(id, store[before].id);
                store.retain(|t| t.id != id);
            } else {
                panic!("delete did not ask the store");
            }
        }
        let before = app.selected;
        app.refresh(store.clone());
        assert!(selection_is_valid(&app));
        assert!(app.selected == before || app.selected + 1 == before);
    }
}
