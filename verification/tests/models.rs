use fitui::catalog::TagCatalog;
use fitui::config::Config;
use fitui::models::{same_text, Tag, Transaction, TransactionType};

#[test]
fn kind_names() {
    assert_eq!(TransactionType::Credit.as_str(), "credit");
    assert_eq!(TransactionType::Debit.as_str(), "debit");
}

#[test]
fn kind_from_name() {
    assert_eq!(TransactionType::from_str("credit"), TransactionType::Credit);
    assert_eq!(TransactionType::from_str("debit"), TransactionType::Debit);
}

#[test]
fn kind_from_unknown_name_is_debit() {
    assert_eq!(TransactionType::from_str(""), TransactionType::Debit);
    assert_eq!(TransactionType::from_str("Credit"), TransactionType::Debit);
    assert_eq!(TransactionType::from_str("credits"), TransactionType::Debit);
}

#[test]
fn tag_names() {
    assert_eq!(Tag::from_str("food").as_str(), "food");
    assert_eq!(Tag::from_str("other").as_str(), "other");
    assert_eq!(Tag::other().as_str(), "other");
}

#[test]
fn tag_from_name_round_trip() {
    for tag in Tag::all() {
        assert_eq!(Tag::from_str(tag.as_str()), tag);
    }
}

#[test]
fn tag_keeps_a_name_that_the_user_added() {
    assert_eq!(Tag::from_str("rent").as_str(), "rent");
    assert_eq!(Tag::from_str("groceries").as_str(), "groceries");
    assert_eq!(Tag::from_str("").as_str(), "");
    assert_eq!(Tag::from_str("Food").as_str(), "Food");
    assert_eq!(Tag::from_str("café ☕").as_str(), "café ☕");
}

#[test]
fn tags_are_the_same_when_their_names_are() {
    assert!(Tag::from_str("rent").same_as(&Tag::from_str("rent")));
    assert!(!Tag::from_str("rent").same_as(&Tag::from_str("gym")));
    assert!(!Tag::from_str("rent").same_as(&Tag::from_str("other")));
    assert!(!Tag::from_str("food").same_as(&Tag::from_str("Food")));
    assert_ne!(Tag::from_str("rent"), Tag::from_str("gym"));
    assert_eq!(Tag::from_str("rent").clone(), Tag::from_str("rent"));
}

#[test]
fn all_tags_in_order() {
    let names: Vec<String> = Tag::all().iter().map(|t| t.as_str().to_string()).collect();
    assert_eq!(names, vec!["food", "travel", "shopping", "bills", "salary", "other"]);
}

#[test]
fn tag_name_order() {
    assert!(Tag::from_str("bills").name_before(&Tag::from_str("food")));
    assert!(Tag::from_str("salary").name_before(&Tag::from_str("shopping")));
    assert!(!Tag::from_str("shopping").name_before(&Tag::from_str("salary")));
    assert!(!Tag::from_str("food").name_before(&Tag::from_str("food")));
    assert!(Tag::from_str("other").name_before(&Tag::from_str("travel")));
}

#[test]
fn same_text_compares_characters() {
    assert!(same_text("food", "food"));
    assert!(same_text("", ""));
    assert!(!same_text("food", "foo"));
    assert!(!same_text("food", "fooD"));
}

#[test]
fn transaction_clone_is_equal() {
    let tx = Transaction {
        id: 7,
        source: String::from("Rent"),
        amount: 120_000,
        kind: TransactionType::Debit,
        tag: Tag::from_str("bills"),
        date: String::from("2026-03-01"),
    };
    let copy = tx.clone();
    assert_eq!(copy, tx);
    assert_eq!(copy.source, "Rent");
    assert_eq!(copy.date, "2026-03-01");
}

#[test]
fn default_config_has_six_tags() {
    let config = Config::default();
    assert_eq!(config.tags, vec!["food", "travel", "shopping", "bills", "salary", "other"]);
}

#[test]
fn catalog_from_default_config_is_all_tags() {
    let catalog = TagCatalog::from_names(&Config::default().tags);
    assert_eq!(catalog.tags(), &Tag::all());
    assert_eq!(catalog.len(), 6);
}

#[test]
fn catalog_from_names_keeps_every_name() {
    let names = vec![String::from("salary"), String::from("gym"), String::from("rent")];
    let catalog = TagCatalog::from_names(&names);
    assert_eq!(
        catalog.tags(),
        &vec![Tag::from_str("salary"), Tag::from_str("gym"), Tag::from_str("rent")]
    );
    assert_eq!(catalog.resolve(1).as_str(), "gym");
    assert_eq!(catalog.index_of(&Tag::from_str("rent")), Some(2));
    assert_eq!(catalog.index_of(&Tag::from_str("other")), None);
}

#[test]
fn catalog_of_one_configured_name() {
    let catalog = TagCatalog::from_names(&vec![String::from("rent")]);
    assert_eq!(catalog.len(), 1);
    assert_eq!(catalog.resolve(0).as_str(), "rent");
    assert_eq!(catalog.resolve(1).as_str(), "other");
}

#[test]
fn catalog_resolve_in_range() {
    let catalog = TagCatalog::new(Tag::all());
    assert_eq!(catalog.resolve(0), Tag::from_str("food"));
    assert_eq!(catalog.resolve(4), Tag::from_str("salary"));
    assert_eq!(catalog.resolve(5), Tag::from_str("other"));
}

#[test]
fn catalog_resolve_out_of_range_falls_back() {
    let catalog = TagCatalog::new(vec![Tag::from_str("food"), Tag::from_str("travel")]);
    assert_eq!(catalog.resolve(2), Tag::from_str("other"));
    assert_eq!(catalog.resolve(usize::MAX), Tag::from_str("other"));
    let empty = TagCatalog::new(Vec::new());
    assert_eq!(empty.resolve(0), Tag::from_str("other"));
}

#[test]
fn catalog_index_of() {
    let catalog = TagCatalog::new(vec![Tag::from_str("bills"), Tag::from_str("food"), Tag::from_str("bills")]);
    assert_eq!(catalog.index_of(&Tag::from_str("bills")), Some(0));
    assert_eq!(catalog.index_of(&Tag::from_str("food")), Some(1));
    assert_eq!(catalog.index_of(&Tag::from_str("travel")), None);
}

#[test]
fn catalog_next_wraps() {
    assert_eq!(TagCatalog::next(0, 6), 1);
    assert_eq!(TagCatalog::next(4, 6), 5);
    assert_eq!(TagCatalog::next(5, 6), 0);
    assert_eq!(TagCatalog::next(0, 1), 0);
}

#[test]
fn catalog_prev_wraps() {
    assert_eq!(TagCatalog::prev(0, 6), 5);
    assert_eq!(TagCatalog::prev(5, 6), 4);
    assert_eq!(TagCatalog::prev(1, 6), 0);
    assert_eq!(TagCatalog::prev(0, 1), 0);
}

#[test]
fn catalog_next_prev_of_empty_catalog_do_nothing() {
    assert_eq!(TagCatalog::next(3, 0), 3);
    assert_eq!(TagCatalog::prev(3, 0), 3);
    assert_eq!(TagCatalog::prev(0, 0), 0);
}

#[test]
fn catalog_next_prev_bring_an_index_back_in_range() {
    assert_eq!(TagCatalog::next(10, 6), 5);
    assert_eq!(TagCatalog::prev(10, 6), 3);
    assert_eq!(TagCatalog::next(usize::MAX, 6), ((usize::MAX % 6) + 1) % 6);
    assert_eq!(TagCatalog::prev(12, 6), 5);
}

#[test]
fn catalog_next_then_prev_returns() {
    for length in 1..8usize {
        for index in 0..length {
            assert_eq!(TagCatalog::prev(TagCatalog::next(index, length), length), index);
            assert_eq!(TagCatalog::next(TagCatalog::prev(index, length), length), index);
        }
    }
}
