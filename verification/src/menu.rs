//! The cursor of the terminal selection menu.
//!
//! The terminal reads one key at a time; `menu_step` decides what a key does
//! to the highlighted option, and the caller draws it.
use vstd::prelude::*;

verus! {

/// The keys that the menu tells apart.
#[derive(Clone, Copy, Debug, PartialEq, Eq, Structural)]
pub enum MenuKey {
    /// `q` or Escape: leave the menu without a choice.
    Cancel,
    /// Ctrl-C: stop the program.
    Interrupt,
    /// Up or Page Up.
    Up,
    /// Down or Page Down.
    Down,
    /// Enter, or the end of the input.
    Confirm,
    /// Any other key.
    Other,
}

/// What the menu does on a key.
#[derive(Clone, Copy, Debug, PartialEq, Eq, Structural)]
pub enum MenuAction {
    /// The menu closes with no choice.
    Cancelled,
    /// The menu closes and the user asked to stop.
    Interrupted,
    /// The highlight moves to this option.
    Moved(usize),
    /// Nothing changes.
    Ignored,
    /// The menu closes with this option chosen.
    Selected(usize),
}

/// The effect of `key` on a menu of `len` options whose highlight is on `current`.
pub open spec fn menu_effect(current: usize, len: usize, key: MenuKey) -> MenuAction {
    match key {
        MenuKey::Cancel => MenuAction::Cancelled,
        MenuKey::Interrupt => MenuAction::Interrupted,
        MenuKey::Up => if current > 0 {
            MenuAction::Moved((current - 1) as usize)
        } else {
            MenuAction::Ignored
        },
        MenuKey::Down => if current + 1 < len {
            MenuAction::Moved((current + 1) as usize)
        } else {
            MenuAction::Ignored
        },
        MenuKey::Confirm => MenuAction::Selected(current),
        MenuKey::Other => MenuAction::Ignored,
    }
}

/// Decides what `key` does to a menu of `num_options` options whose highlight
/// is on `current`. The highlight never leaves the options.
pub fn menu_step(current: usize, num_options: usize, key: MenuKey) -> (a: MenuAction)
    requires
        current < num_options,
    ensures
        a == menu_effect(current, num_options, key),
        a matches MenuAction::Moved(next) ==> next < num_options,
        a matches MenuAction::Selected(choice) ==> choice < num_options,
        key == MenuKey::Confirm ==> a == MenuAction::Selected(current),
        key == MenuKey::Cancel ==> a == MenuAction::Cancelled,
        key == MenuKey::Interrupt ==> a == MenuAction::Interrupted,
        key == MenuKey::Other ==> a == MenuAction::Ignored,
        key == MenuKey::Up && current > 0 ==> a == MenuAction::Moved((current - 1) as usize),
        key == MenuKey::Up && current == 0 ==> a == MenuAction::Ignored,
        key == MenuKey::Down && current + 1 < num_options ==> a == MenuAction::Moved(
            (current + 1) as usize,
        ),
        key == MenuKey::Down && current + 1 == num_options ==> a == MenuAction::Ignored,
{
    match key {
        MenuKey::Cancel => MenuAction::Cancelled,
        MenuKey::Interrupt => MenuAction::Interrupted,
        MenuKey::Up => {
            if current > 0 {
                MenuAction::Moved(current - 1)
            } else {
                MenuAction::Ignored
            }
        },
        MenuKey::Down => {
            if current < num_options - 1 {
                MenuAction::Moved(current + 1)
            } else {
                MenuAction::Ignored
            }
        },
        MenuKey::Confirm => MenuAction::Selected(current),
        MenuKey::Other => MenuAction::Ignored,
    }
}

/// Where the highlight is after a key: the new option if it moved, else where it was.
pub open spec fn cursor_after(current: usize, len: usize, key: MenuKey) -> usize {
    match menu_effect(current, len, key) {
        MenuAction::Moved(next) => next,
        _ => current,
    }
}

/// The highlight after a run of keys that does not close the menu.
pub open spec fn cursor_after_keys(current: usize, len: usize, keys: Seq<MenuKey>) -> usize
    decreases keys.len(),
{
    if keys.len() == 0 {
        current
    } else {
        cursor_after(cursor_after_keys(current, len, keys.drop_last()), len, keys.last())
    }
}

/// Whatever keys are pressed, the highlight stays on one of the options.
pub proof fn lemma_cursor_stays_in_menu(current: usize, len: usize, keys: Seq<MenuKey>)
    requires
        current < len,
    ensures
        cursor_after_keys(current, len, keys) < len,
    decreases keys.len(),
{
    if keys.len() > 0 {
        lemma_cursor_stays_in_menu(current, len, keys.drop_last());
    }
}

/// Moving up and then down again comes back to the same option, when the
/// highlight is not already on the first one.
pub proof fn lemma_up_then_down(current: usize, len: usize)
    requires
        0 < current < len,
    ensures
        cursor_after(cursor_after(current, len, MenuKey::Up), len, MenuKey::Down) == current,
{
}

/// Only Confirm chooses, and it chooses the highlighted option.
pub proof fn lemma_only_confirm_selects(current: usize, len: usize, key: MenuKey, choice: usize)
    requires
        current < len,
        menu_effect(current, len, key) == MenuAction::Selected(choice),
    ensures
        key == MenuKey::Confirm,
        choice == current,
{
}

/// How a menu run ends when the terminal yields `keys`: the first key that
/// closes the menu decides; if the keys run out first, the highlighted option
/// is chosen, as when Enter is pressed.
pub open spec fn menu_outcome(current: usize, len: usize, keys: Seq<MenuKey>) -> MenuAction
    decreases keys.len(),
{
    if keys.len() == 0 {
        MenuAction::Selected(current)
    } else {
        match menu_effect(current, len, keys[0]) {
            MenuAction::Moved(next) => menu_outcome(next, len, keys.drop_first()),
            MenuAction::Ignored => menu_outcome(current, len, keys.drop_first()),
            closing => closing,
        }
    }
}

/// A key that the menu does not know, pressed anywhere in a run, changes
/// neither how the run ends nor where the highlight is.
pub proof fn lemma_other_key_changes_nothing(current: usize, len: usize, keys: Seq<MenuKey>, at: int)
    requires
        0 <= at <= keys.len(),
    ensures
        menu_outcome(current, len, keys.insert(at, MenuKey::Other)) == menu_outcome(current, len, keys),
        cursor_after_keys(current, len, keys.insert(at, MenuKey::Other)) == cursor_after_keys(
            current,
            len,
            keys,
        ),
    decreases keys.len(),
{
    let with = keys.insert(at, MenuKey::Other);
    if at == 0 {
        assert(with.drop_first() =~= keys);
    } else {
        assert(with[0] == keys[0]);
        assert(with.drop_first() =~= keys.drop_first().insert(at - 1, MenuKey::Other));
        let next = cursor_after(current, len, keys[0]);
        lemma_other_key_changes_nothing(next, len, keys.drop_first(), at - 1);
        lemma_other_key_changes_nothing(current, len, keys.drop_first(), at - 1);
    }
    lemma_cursor_after_keys_other(current, len, keys, at);
}

proof fn lemma_cursor_after_keys_other(current: usize, len: usize, keys: Seq<MenuKey>, at: int)
    requires
        0 <= at <= keys.len(),
    ensures
        cursor_after_keys(current, len, keys.insert(at, MenuKey::Other)) == cursor_after_keys(
            current,
            len,
            keys,
        ),
    decreases keys.len(),
{
    let with = keys.insert(at, MenuKey::Other);
    if at == keys.len() {
        assert(with.drop_last() =~= keys);
    } else {
        assert(with.last() == keys.last());
        assert(with.drop_last() =~= keys.drop_last().insert(at, MenuKey::Other));
        lemma_cursor_after_keys_other(current, len, keys.drop_last(), at);
    }
}

/// What each key does, for every highlighted option of every menu: Enter
/// chooses the highlighted option; q/Esc and Ctrl-C close the menu; Up moves to
/// the option above unless the first is highlighted; Down moves to the option
/// below unless the last is highlighted; other keys do nothing.
pub proof fn lemma_keys_do_what_they_say(current: usize, len: usize)
    requires
        current < len,
    ensures
        menu_effect(current, len, MenuKey::Confirm) == MenuAction::Selected(current),
        menu_effect(current, len, MenuKey::Cancel) == MenuAction::Cancelled,
        menu_effect(current, len, MenuKey::Interrupt) == MenuAction::Interrupted,
        menu_effect(current, len, MenuKey::Other) == MenuAction::Ignored,
        current > 0 ==> menu_effect(current, len, MenuKey::Up) == MenuAction::Moved(
            (current - 1) as usize,
        ),
        current == 0 ==> menu_effect(current, len, MenuKey::Up) == MenuAction::Ignored,
        current + 1 < len ==> menu_effect(current, len, MenuKey::Down) == MenuAction::Moved(
            (current + 1) as usize,
        ),
        current + 1 == len ==> menu_effect(current, len, MenuKey::Down) == MenuAction::Ignored,
{
}

/// Pressing Enter, or running out of keys, right away chooses the option the
/// menu starts on.
pub proof fn lemma_confirm_chooses_start(current: usize, len: usize, rest: Seq<MenuKey>)
    requires
        current < len,
    ensures
        menu_outcome(current, len, seq![MenuKey::Confirm] + rest) == MenuAction::Selected(current),
        menu_outcome(current, len, Seq::<MenuKey>::empty()) == MenuAction::Selected(current),
{
    assert((seq![MenuKey::Confirm] + rest)[0] == MenuKey::Confirm);
}

} // verus!
