//! The session: the mode that the program is in, the cached transactions with
//! the selection, the form, and the transaction that the form edits.
//!
//! The session decides; it does not reach the store. Where a decision needs
//! the store, the session hands out a [`StoreRequest`]; the caller carries it
//! out, reads the transactions again and hands them to [`App::refresh`].

use crate::catalog::TagCatalog;
use crate::config::Config;
use crate::form::{Draft, DraftView, FormView, TransactionForm};
use crate::models::Transaction;
use vstd::prelude::*;

verus! {

/// What the program is doing: browsing the list (`Normal`), writing or
/// changing a transaction (`Adding`), or showing the report (`Stats`).
#[derive(Debug, PartialEq, Eq, Clone, Copy, Structural)]
pub enum Mode {
    Normal,
    Adding,
    Stats,
}

/// A write that the store is asked to make.
#[derive(Debug, PartialEq, Eq)]
pub enum StoreRequest {
    /// Record a new transaction.
    Insert(Draft),
    /// Replace the fields of the transaction with this id.
    Update(i32, Draft),
    /// Remove the transaction with this id.
    Delete(i32),
}

/// What a store request holds.
pub enum RequestView {
    Insert(DraftView),
    Update(i32, DraftView),
    Delete(i32),
}

impl View for StoreRequest {
    type V = RequestView;

    open spec fn view(&self) -> RequestView {
        match self {
            StoreRequest::Insert(draft) => RequestView::Insert(draft@),
            StoreRequest::Update(id, draft) => RequestView::Update(*id, draft@),
            StoreRequest::Delete(id) => RequestView::Delete(*id),
        }
    }
}

/// What a session holds.
pub struct AppView {
    pub mode: Mode,
    pub form: FormView,
    pub editing: Option<i32>,
    /// The names of the catalog's tags.
    pub tags: Seq<Seq<char>>,
    pub transactions: Seq<Transaction>,
    pub selected: usize,
}

/// The selection that stays with `selected` as far as a cache of `len`
/// transactions allows: the last transaction where `selected` lies beyond it,
/// and zero where the cache is empty.
pub open spec fn clamped(selected: usize, len: nat) -> usize {
    if len == 0 {
        0
    } else if selected >= len {
        (len - 1) as usize
    } else {
        selected
    }
}

impl AppView {
    /// The selection points into the cache, or is zero where the cache is
    /// empty.
    pub open spec fn selection_valid(self) -> bool {
        0 <= self.selected && (self.selected < self.transactions.len() || self.selected < 1)
    }

    /// The session at its start.
    pub open spec fn initial(tags: Seq<Seq<char>>, transactions: Seq<Transaction>) -> AppView {
        AppView {
            mode: Mode::Normal,
            form: FormView::blank(),
            editing: None,
            tags,
            transactions,
            selected: 0,
        }
    }

    /// The session after the cache was read again.
    pub open spec fn refreshed(self, snapshot: Seq<Transaction>) -> AppView {
        AppView {
            transactions: snapshot,
            selected: clamped(self.selected, snapshot.len()),
            ..self
        }
    }

    /// The session after the form was opened for a new transaction.
    pub open spec fn adding(self) -> AppView {
        AppView { mode: Mode::Adding, form: FormView::blank(), editing: None, ..self }
    }

    /// The session after the form was opened on the selected transaction;
    /// unchanged where nothing is selected.
    pub open spec fn editing_selected(self) -> AppView {
        if self.selected < self.transactions.len() {
            let tx = self.transactions[self.selected as int];
            AppView {
                mode: Mode::Adding,
                form: FormView::loaded(tx, self.tags),
                editing: Some(tx.id),
                ..self
            }
        } else {
            self
        }
    }

    /// The write that saves the form: a change of the edited transaction, or
    /// a new one where none is being edited.
    pub open spec fn save_request(self) -> RequestView {
        match self.editing {
            Some(id) => RequestView::Update(id, self.form.committed(self.tags)),
            None => RequestView::Insert(self.form.committed(self.tags)),
        }
    }

    /// The session after the form was saved.
    pub open spec fn saved(self) -> AppView {
        AppView { editing: None, ..self }
    }

    /// The write that removes the selected transaction; none where nothing is
    /// selected.
    pub open spec fn delete_request(self) -> Option<RequestView> {
        if self.selected < self.transactions.len() {
            Some(RequestView::Delete(self.transactions[self.selected as int].id))
        } else {
            None
        }
    }

    /// The session back in the list, with the form discarded.
    pub open spec fn browsing(self) -> AppView {
        AppView { mode: Mode::Normal, form: FormView::blank(), editing: None, ..self }
    }
}

/// Reading the cache again always leaves a valid selection.
pub proof fn lemma_refresh_selection_valid(state: AppView, snapshot: Seq<Transaction>)
    ensures
        state.refreshed(snapshot).selection_valid(),
{
}

/// When one transaction has gone from the cache, the selection moves back by
/// exactly one if it was at the new end and above zero, and stays where it
/// was otherwise.
pub proof fn lemma_refresh_after_removal(state: AppView, snapshot: Seq<Transaction>)
    requires
        state.selection_valid(),
        snapshot.len() + 1 == state.transactions.len(),
    ensures
        state.refreshed(snapshot).selected == if state.selected >= snapshot.len() && state.selected
            > 0 {
            (state.selected - 1) as usize
        } else {
            state.selected
        },
{
}

/// A cache that did not shrink below the selection leaves the selection where
/// it was; the selection goes to zero only where it was zero, where the cache
/// is empty, or where one transaction is left.
pub proof fn lemma_refresh_keeps_selection(state: AppView, snapshot: Seq<Transaction>)
    ensures
        state.selected < snapshot.len() ==> state.refreshed(snapshot).selected == state.selected,
        state.refreshed(snapshot).selected == 0 ==> state.selected == 0 || snapshot.len() <= 1,
        state.refreshed(snapshot).selected <= state.selected,
{
}

/// The running session.
#[derive(Debug)]
pub struct App {
    pub mode: Mode,
    pub form: TransactionForm,
    /// The id of the transaction that the form edits; `None` while it writes
    /// a new one.
    pub editing: Option<i32>,
    /// The tags that the form chooses from.
    pub tags: TagCatalog,
    /// The cached transactions, newest first, as the store last gave them.
    pub transactions: Vec<Transaction>,
    /// The index of the selected transaction.
    pub selected: usize,
}

impl View for App {
    type V = AppView;

    open spec fn view(&self) -> AppView {
        AppView {
            mode: self.mode,
            form: self.form@,
            editing: self.editing,
            tags: self.tags@,
            transactions: self.transactions@,
            selected: self.selected,
        }
    }
}

impl App {
    /// A session in the list, with the tags that the configuration names and
    /// the transactions that the store gave.
    pub fn new(config: &Config, transactions: Vec<Transaction>) -> (app: App)
        ensures
            app@ == AppView::initial(config.names(), transactions@),
            app@.selection_valid(),
    {
        App {
            mode: Mode::Normal,
            form: TransactionForm::new(),
            editing: None,
            tags: TagCatalog::from_names(&config.tags),
            transactions,
            selected: 0,
        }
    }

    /// Takes the transactions that the store gave as the new cache, and keeps
    /// the selection inside it.
    pub fn refresh(&mut self, snapshot: Vec<Transaction>)
        ensures
            final(self)@ == old(self)@.refreshed(snapshot@),
            final(self)@.selection_valid(),
    {
        self.transactions = snapshot;
        let len = self.transactions.len();
        if len == 0 {
            self.selected = 0;
        } else if self.selected >= len {
            self.selected = len - 1;
        }
    }

    /// Commits the form: gives the write that saves it, and forgets which
    /// transaction was being edited.
    pub fn save_transaction(&mut self) -> (request: StoreRequest)
        ensures
            request@ == old(self)@.save_request(),
            final(self)@ == old(self)@.saved(),
            final(self)@.selection_valid() == old(self)@.selection_valid(),
    {
        let draft = self.form.commit(&self.tags);
        match self.editing {
            Some(id) => {
                self.editing = None;
                StoreRequest::Update(id, draft)
            },
            None => StoreRequest::Insert(draft),
        }
    }

    /// Opens the form on the selected transaction; does nothing where the
    /// cache is empty.
    pub fn begin_edit_selected(&mut self)
        ensures
            final(self)@ == old(self)@.editing_selected(),
            final(self)@.selection_valid() == old(self)@.selection_valid(),
    {
        if self.selected >= self.transactions.len() {
            return ;
        }
        let tx = &self.transactions[self.selected];
        self.form.load_from(tx, &self.tags);
        self.editing = Some(tx.id);
        self.mode = Mode::Adding;
    }

    /// The write that removes the selected transaction; `None` where the
    /// cache is empty.
    pub fn delete_selected(&self) -> (request: Option<StoreRequest>)
        ensures
            match request {
                Some(r) => Some(r@) == self@.delete_request(),
                None => self@.delete_request().is_none(),
            },
    {
        if self.selected >= self.transactions.len() {
            return None;
        }
        Some(StoreRequest::Delete(self.transactions[self.selected].id))
    }
}

} // verus!
