//! The form in which one transaction is drafted, for a new entry or for the
//! change of an existing one.

use crate::catalog::{index_or_first, next_index, prev_index, resolved, TagCatalog};
use crate::models::{Tag, Transaction, TransactionType};
use crate::text::{amount_of_text, amount_text, format_amount, parse_amount};
use vstd::prelude::*;

verus! {

/// The fields of the form, in the order in which they are visited.
#[derive(Debug, PartialEq, Eq, Copy, Clone, Structural)]
pub enum Field {
    Source,
    Amount,
    Kind,
    Tag,
    Date,
}

impl Field {
    /// The field visited after this one; after the last comes the first.
    pub open spec fn following(self) -> Field {
        match self {
            Field::Source => Field::Amount,
            Field::Amount => Field::Kind,
            Field::Kind => Field::Tag,
            Field::Tag => Field::Date,
            Field::Date => Field::Source,
        }
    }

    /// Whether text is typed into the field.
    pub open spec fn takes_text(self) -> bool {
        self == Field::Source || self == Field::Amount || self == Field::Date
    }

    /// The field visited after this one.
    pub fn next(self) -> (field: Field)
        ensures
            field == self.following(),
    {
        match self {
            Field::Source => Field::Amount,
            Field::Amount => Field::Kind,
            Field::Kind => Field::Tag,
            Field::Tag => Field::Date,
            Field::Date => Field::Source,
        }
    }
}

/// The other kind.
pub open spec fn toggled(kind: TransactionType) -> TransactionType {
    match kind {
        TransactionType::Credit => TransactionType::Debit,
        TransactionType::Debit => TransactionType::Credit,
    }
}

/// What a form holds.
pub struct FormView {
    pub source: Seq<char>,
    pub amount: Seq<char>,
    pub kind: TransactionType,
    pub tag_index: usize,
    pub date: Seq<char>,
    pub active: Field,
}

/// What a committed form asks the store to record.
pub struct DraftView {
    pub source: Seq<char>,
    pub amount: u64,
    pub kind: TransactionType,
    /// The name of the tag.
    pub tag: Seq<char>,
    pub date: Seq<char>,
}

impl FormView {
    /// The form as it is when it is opened for a new transaction.
    pub open spec fn blank() -> FormView {
        FormView {
            source: Seq::empty(),
            amount: Seq::empty(),
            kind: TransactionType::Debit,
            tag_index: 0,
            date: "2026-02-11"@,
            active: Field::Source,
        }
    }

    /// The text of the active field; `None` where the active field takes no text.
    pub open spec fn active_text(self) -> Option<Seq<char>> {
        match self.active {
            Field::Source => Some(self.source),
            Field::Amount => Some(self.amount),
            Field::Date => Some(self.date),
            _ => None,
        }
    }

    /// The form with `text` in the active field, where that field takes text.
    pub open spec fn with_active_text(self, text: Seq<char>) -> FormView {
        match self.active {
            Field::Source => FormView { source: text, ..self },
            Field::Amount => FormView { amount: text, ..self },
            Field::Date => FormView { date: text, ..self },
            _ => self,
        }
    }

    /// The form after `c` was typed.
    pub open spec fn pushed(self, c: char) -> FormView {
        match self.active_text() {
            Some(text) => self.with_active_text(text.push(c)),
            None => self,
        }
    }

    /// The form after the last character of the active field was erased.
    pub open spec fn popped(self) -> FormView {
        match self.active_text() {
            Some(text) if text.len() > 0 => self.with_active_text(text.drop_last()),
            _ => self,
        }
    }

    /// The form that shows `tx` for editing, with the tags of `tags` to choose
    /// from.
    pub open spec fn loaded(tx: Transaction, tags: Seq<Seq<char>>) -> FormView {
        FormView {
            source: tx.source@,
            amount: amount_text(tx.amount as nat),
            kind: tx.kind,
            tag_index: index_or_first(tags, tx.tag.name()) as usize,
            date: tx.date@,
            active: Field::Source,
        }
    }

    /// What the form commits, with the tags of `tags` to choose from.
    pub open spec fn committed(self, tags: Seq<Seq<char>>) -> DraftView {
        DraftView {
            source: self.source,
            amount: amount_of_text(self.amount),
            kind: self.kind,
            tag: resolved(tags, self.tag_index as int),
            date: self.date,
        }
    }
}

/// Committing a form that was loaded from a transaction and not touched gives
/// the transaction's own source, amount, kind and date. It gives its tag too
/// where the catalog holds that tag, and else the tag at the catalog's first
/// index (the tag `other` where the catalog is empty).
pub proof fn lemma_edit_round_trip(tx: Transaction, tags: Seq<Seq<char>>)
    requires
        tags.len() <= usize::MAX,
    ensures
        ({
            let draft = FormView::loaded(tx, tags).committed(tags);
            &&& draft.source == tx.source@
            &&& draft.amount == tx.amount
            &&& draft.kind == tx.kind
            &&& draft.date == tx.date@
            &&& tags.contains(tx.tag.name()) ==> draft.tag == tx.tag.name()
            &&& !tags.contains(tx.tag.name()) ==> draft.tag == resolved(tags, 0)
        }),
{
    crate::text::lemma_amount_text_reads_back(tx.amount);
    tags.index_of_first_ensures(tx.tag.name());
}

/// The scratch buffer in which one transaction is written or changed.
#[derive(Debug)]
pub struct TransactionForm {
    pub source: String,
    /// The amount as typed; it is read as a number only when the form is
    /// committed.
    pub amount: String,
    pub kind: TransactionType,
    /// The chosen tag, as an index into the catalog.
    pub tag_index: usize,
    pub date: String,
    /// The field that typing goes to.
    pub active: Field,
}

/// What a committed form asks the store to record: a transaction without its
/// id, which the store assigns.
#[derive(Debug, PartialEq, Eq)]
pub struct Draft {
    pub source: String,
    /// In hundredths of the currency unit.
    pub amount: u64,
    pub kind: TransactionType,
    pub tag: Tag,
    pub date: String,
}

impl View for Draft {
    type V = DraftView;

    open spec fn view(&self) -> DraftView {
        DraftView {
            source: self.source@,
            amount: self.amount,
            kind: self.kind,
            tag: self.tag.name(),
            date: self.date@,
        }
    }
}

impl View for TransactionForm {
    type V = FormView;

    open spec fn view(&self) -> FormView {
        FormView {
            source: self.source@,
            amount: self.amount@,
            kind: self.kind,
            tag_index: self.tag_index,
            date: self.date@,
            active: self.active,
        }
    }
}

impl TransactionForm {
    /// A form for a new transaction: a debit under the first tag, with the
    /// placeholder date and no text.
    pub fn new() -> (form: TransactionForm)
        ensures
            form@ == FormView::blank(),
    {
        TransactionForm {
            source: String::new(),
            amount: String::new(),
            kind: TransactionType::Debit,
            tag_index: 0,
            date: "2026-02-11".to_owned(),
            active: Field::Source,
        }
    }

    /// Puts the form back as it is when opened for a new transaction.
    pub fn reset(&mut self)
        ensures
            final(self)@ == FormView::blank(),
    {
        *self = TransactionForm::new();
    }

    /// Types `c` into the active field, where that field takes text.
    pub fn push_char(&mut self, c: char)
        ensures
            final(self)@ == old(self)@.pushed(c),
    {
        match self.active {
            Field::Source => self.source.push(c),
            Field::Amount => self.amount.push(c),
            Field::Date => self.date.push(c),
            _ => {},
        }
    }

    /// Erases the last character of the active field, where that field takes
    /// text and holds any.
    pub fn pop_char(&mut self)
        ensures
            final(self)@ == old(self)@.popped(),
    {
        match self.active {
            Field::Source => {
                self.source.pop();
            },
            Field::Amount => {
                self.amount.pop();
            },
            Field::Date => {
                self.date.pop();
            },
            _ => {},
        }
    }

    /// Switches between credit and debit.
    pub fn toggle_kind(&mut self)
        ensures
            final(self)@ == (FormView { kind: toggled(old(self).kind), ..old(self)@ }),
    {
        self.kind = match self.kind {
            TransactionType::Credit => TransactionType::Debit,
            TransactionType::Debit => TransactionType::Credit,
        };
    }

    /// Chooses the next tag of a catalog of `total_tags` tags, going round.
    pub fn next_tag(&mut self, total_tags: usize)
        ensures
            final(self)@ == (FormView {
                tag_index: next_index(old(self).tag_index as int, total_tags as int) as usize,
                ..old(self)@
            }),
            total_tags > 0 ==> final(self).tag_index < total_tags,
    {
        self.tag_index = TagCatalog::next(self.tag_index, total_tags);
    }

    /// Chooses the previous tag of a catalog of `total_tags` tags, going round.
    pub fn prev_tag(&mut self, total_tags: usize)
        ensures
            final(self)@ == (FormView {
                tag_index: prev_index(old(self).tag_index as int, total_tags as int) as usize,
                ..old(self)@
            }),
            total_tags > 0 ==> final(self).tag_index < total_tags,
    {
        self.tag_index = TagCatalog::prev(self.tag_index, total_tags);
    }

    /// Moves on to the next field.
    pub fn advance_field(&mut self)
        ensures
            final(self)@ == (FormView { active: old(self).active.following(), ..old(self)@ }),
    {
        self.active = self.active.next();
    }

    /// Fills the form from `tx`, to edit it.
    pub fn load_from(&mut self, tx: &Transaction, catalog: &TagCatalog)
        ensures
            final(self)@ == FormView::loaded(*tx, catalog@),
    {
        self.source = tx.source.clone();
        self.amount = format_amount(tx.amount);
        self.kind = tx.kind;
        self.tag_index = match catalog.index_of(&tx.tag) {
            Some(i) => i,
            None => 0,
        };
        self.date = tx.date.clone();
        self.active = Field::Source;
    }

    /// What the form asks the store to record. The amount is read from its
    /// text here, and text that stands for no amount gives zero.
    pub fn commit(&self, catalog: &TagCatalog) -> (draft: Draft)
        ensures
            draft@ == self@.committed(catalog@),
    {
        Draft {
            source: self.source.clone(),
            amount: parse_amount(self.amount.as_str()),
            kind: self.kind,
            tag: catalog.resolve(self.tag_index),
            date: self.date.clone(),
        }
    }
}

} // verus!
