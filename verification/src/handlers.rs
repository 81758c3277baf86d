//! Key handling: what each key does in each mode.
//!
//! [`handle_key`] takes the session from one state to the next and says what
//! the caller has to do: nothing, quit, or carry out a write on the store and
//! refresh the session.

use crate::app::{App, AppView, Mode, RequestView, StoreRequest};
use crate::catalog::{next_index, prev_index};
use crate::form::{toggled, Field, FormView};
use crate::models::Transaction;
use vstd::prelude::*;

verus! {

/// A key press, as far as the session tells keys apart.
#[derive(Debug, PartialEq, Eq, Clone, Copy, Structural)]
pub enum Key {
    /// A printable character.
    Char(char),
    Up,
    Down,
    Left,
    Right,
    Tab,
    Enter,
    Esc,
    Backspace,
    /// Any other key.
    Other,
}

/// What the caller does after a key was handled.
#[derive(Debug, PartialEq, Eq)]
pub enum Action {
    /// Go on with the next key.
    Continue,
    /// Leave the program.
    Quit,
    /// Carry out the write, read the transactions again and refresh the
    /// session with them.
    Store(StoreRequest),
}

/// What an action holds.
pub enum ActionView {
    Continue,
    Quit,
    Store(RequestView),
}

impl View for Action {
    type V = ActionView;

    open spec fn view(&self) -> ActionView {
        match self {
            Action::Continue => ActionView::Continue,
            Action::Quit => ActionView::Quit,
            Action::Store(request) => ActionView::Store(request@),
        }
    }
}

/// The selection after the key that moves it up.
pub open spec fn moved_up(selected: usize) -> usize {
    if selected > 0 {
        (selected - 1) as usize
    } else {
        selected
    }
}

/// The selection after the key that moves it down a list of `len`
/// transactions.
pub open spec fn moved_down(selected: usize, len: nat) -> usize {
    if selected + 1 < len {
        (selected + 1) as usize
    } else {
        selected
    }
}

/// The form after the left or the right arrow: the kind switches or the tag
/// moves, by the active field.
pub open spec fn arrowed(form: FormView, tags: nat, forward: bool) -> FormView {
    match form.active {
        Field::Kind => FormView { kind: toggled(form.kind), ..form },
        Field::Tag => FormView {
            tag_index: if forward {
                next_index(form.tag_index as int, tags as int) as usize
            } else {
                prev_index(form.tag_index as int, tags as int) as usize
            },
            ..form
        },
        _ => form,
    }
}

/// The session and the action after a key in the list.
pub open spec fn after_normal_key(state: AppView, key: Key) -> (AppView, ActionView) {
    match key {
        Key::Char('q') => (state, ActionView::Quit),
        Key::Char('a') => (state.adding(), ActionView::Continue),
        Key::Char('e') => (state.editing_selected(), ActionView::Continue),
        Key::Char('s') => (AppView { mode: Mode::Stats, ..state }, ActionView::Continue),
        Key::Char('d') => (
            state,
            match state.delete_request() {
                Some(request) => ActionView::Store(request),
                None => ActionView::Continue,
            },
        ),
        Key::Up => (AppView { selected: moved_up(state.selected), ..state }, ActionView::Continue),
        Key::Down => (
            AppView { selected: moved_down(state.selected, state.transactions.len()), ..state },
            ActionView::Continue,
        ),
        _ => (state, ActionView::Continue),
    }
}

/// The session and the action after a key in the form.
pub open spec fn after_form_key(state: AppView, key: Key) -> (AppView, ActionView) {
    match key {
        Key::Esc => (state.browsing(), ActionView::Continue),
        Key::Tab => (
            AppView { form: FormView { active: state.form.active.following(), ..state.form }, ..state },
            ActionView::Continue,
        ),
        Key::Left => (
            AppView { form: arrowed(state.form, state.tags.len(), false), ..state },
            ActionView::Continue,
        ),
        Key::Right => (
            AppView { form: arrowed(state.form, state.tags.len(), true), ..state },
            ActionView::Continue,
        ),
        Key::Backspace => (AppView { form: state.form.popped(), ..state }, ActionView::Continue),
        Key::Char(c) => (AppView { form: state.form.pushed(c), ..state }, ActionView::Continue),
        Key::Enter => (state.browsing(), ActionView::Store(state.save_request())),
        _ => (state, ActionView::Continue),
    }
}

/// The session and the action after a key in the report.
pub open spec fn after_stats_key(state: AppView, key: Key) -> (AppView, ActionView) {
    match key {
        Key::Esc => (AppView { mode: Mode::Normal, ..state }, ActionView::Continue),
        _ => (state, ActionView::Continue),
    }
}

/// The session and the action after a key, by the mode.
pub open spec fn after_key(state: AppView, key: Key) -> (AppView, ActionView) {
    match state.mode {
        Mode::Normal => after_normal_key(state, key),
        Mode::Adding => after_form_key(state, key),
        Mode::Stats => after_stats_key(state, key),
    }
}

/// What happens to a session: a key is pressed, or the cache is read again.
pub enum Event {
    Key(Key),
    Refresh(Seq<Transaction>),
}

/// The session after an event.
pub open spec fn after_event(state: AppView, event: Event) -> AppView {
    match event {
        Event::Key(key) => after_key(state, key).0,
        Event::Refresh(snapshot) => state.refreshed(snapshot),
    }
}

/// The session after a sequence of events.
pub open spec fn after_events(state: AppView, events: Seq<Event>) -> AppView
    decreases events.len(),
{
    if events.len() == 0 {
        state
    } else {
        after_event(after_events(state, events.drop_last()), events.last())
    }
}

/// No key takes the selection out of the cache.
pub proof fn lemma_key_keeps_selection_valid(state: AppView, key: Key)
    requires
        state.selection_valid(),
    ensures
        after_key(state, key).0.selection_valid(),
{
}

/// Whatever keys are pressed and whatever the store gives when the cache is
/// read again, the selection stays inside the cache, or at zero where the cache
/// is empty.
pub proof fn lemma_selection_stays_valid(state: AppView, events: Seq<Event>)
    requires
        state.selection_valid(),
    ensures
        after_events(state, events).selection_valid(),
    decreases events.len(),
{
    if events.len() > 0 {
        lemma_selection_stays_valid(state, events.drop_last());
        let before = after_events(state, events.drop_last());
        match events.last() {
            Event::Key(key) => lemma_key_keeps_selection_valid(before, key),
            Event::Refresh(snapshot) => {},
        }
    }
}

/// A key changes the mode only along the session's transitions: from the list
/// to the form or to the report, and from either back to the list.
pub proof fn lemma_mode_transitions(state: AppView, key: Key)
    ensures
        ({
            let next = after_key(state, key).0;
            match state.mode {
                Mode::Normal => next.mode == Mode::Stats <==> key == Key::Char('s'),
                Mode::Adding => next.mode != Mode::Stats && (next.mode == Mode::Normal <==> key
                    == Key::Esc || key == Key::Enter),
                Mode::Stats => next.mode != Mode::Adding && (next.mode == Mode::Normal <==> key
                    == Key::Esc),
            }
        }),
{
}

/// Handles a key in the list.
pub fn handle_normal(app: &mut App, key: Key) -> (action: Action)
    ensures
        (final(app)@, action@) == after_normal_key(old(app)@, key),
{
    match key {
        Key::Char(c) => {
            if c == 'q' {
                return Action::Quit;
            } else if c == 'a' {
                app.form.reset();
                app.editing = None;
                app.mode = Mode::Adding;
            } else if c == 'e' {
                app.begin_edit_selected();
            } else if c == 's' {
                app.mode = Mode::Stats;
            } else if c == 'd' {
                match app.delete_selected() {
                    Some(request) => {
                        return Action::Store(request);
                    },
                    None => {},
                }
            }
        },
        Key::Up => {
            if app.selected > 0 {
                app.selected -= 1;
            }
        },
        Key::Down => {
            if app.selected < app.transactions.len() && app.selected + 1 < app.transactions.len() {
                app.selected += 1;
            }
        },
        _ => {},
    }
    Action::Continue
}

/// Handles a key in the form.
pub fn handle_form(app: &mut App, key: Key) -> (action: Action)
    ensures
        (final(app)@, action@) == after_form_key(old(app)@, key),
{
    match key {
        Key::Esc => {
            app.form.reset();
            app.editing = None;
            app.mode = Mode::Normal;
        },
        Key::Tab => {
            app.form.advance_field();
        },
        Key::Left => match app.form.active {
            Field::Kind => app.form.toggle_kind(),
            Field::Tag => app.form.prev_tag(app.tags.len()),
            _ => {},
        },
        Key::Right => match app.form.active {
            Field::Kind => app.form.toggle_kind(),
            Field::Tag => app.form.next_tag(app.tags.len()),
            _ => {},
        },
        Key::Backspace => {
            app.form.pop_char();
        },
        Key::Char(c) => {
            app.form.push_char(c);
        },
        Key::Enter => {
            let request = app.save_transaction();
            app.form.reset();
            app.mode = Mode::Normal;
            return Action::Store(request);
        },
        _ => {},
    }
    Action::Continue
}

/// Handles a key in the report.
pub fn handle_stats(app: &mut App, key: Key) -> (action: Action)
    ensures
        (final(app)@, action@) == after_stats_key(old(app)@, key),
{
    match key {
        Key::Esc => {
            app.mode = Mode::Normal;
        },
        _ => {},
    }
    Action::Continue
}

/// Handles a key by the mode that the session is in.
pub fn handle_key(app: &mut App, key: Key) -> (action: Action)
    ensures
        (final(app)@, action@) == after_key(old(app)@, key),
        old(app)@.selection_valid() ==> final(app)@.selection_valid(),
{
    proof {
        if app@.selection_valid() {
            lemma_key_keeps_selection_valid(app@, key);
        }
    }
    match app.mode {
        Mode::Normal => handle_normal(app, key),
        Mode::Adding => handle_form(app, key),
        Mode::Stats => handle_stats(app, key),
    }
}

} // verus!
