//! The decisions of the interactive prompts: moving through a list of choices and
//! answering a yes-or-no question.

use vstd::prelude::*;

verus! {

/// A key pressed at a prompt.
#[derive(Debug, Clone, Copy, PartialEq, Eq, Structural)]
pub enum PromptKey {
    ArrowUp,
    ArrowDown,
    Enter,
    Char(char),
    Other,
}

/// The choice after a key and whether the choice is made: up (or `k`) and down (or
/// `j`) move with wrap-around, enter chooses, other keys do nothing.
pub open spec fn select_next(option_index: int, item_count: int, key: PromptKey) -> (int, bool) {
    match key {
        PromptKey::ArrowUp | PromptKey::Char('k') => (
            if option_index == 0 {
                item_count - 1
            } else {
                option_index - 1
            },
            false,
        ),
        PromptKey::ArrowDown | PromptKey::Char('j') => (
            if option_index < item_count - 1 {
                option_index + 1
            } else {
                0
            },
            false,
        ),
        PromptKey::Enter => (option_index, true),
        _ => (option_index, false),
    }
}

/// One step of choosing among `item_count` items.
pub fn select_step(option_index: usize, item_count: usize, key: PromptKey) -> (r: (usize, bool))
    requires
        option_index < item_count,
    ensures
        r.0 == select_next(option_index as int, item_count as int, key).0,
        r.1 == select_next(option_index as int, item_count as int, key).1,
        r.0 < item_count,
{
    match key {
        PromptKey::ArrowUp | PromptKey::Char('k') => (
            if option_index == 0 {
                item_count - 1
            } else {
                option_index - 1
            },
            false,
        ),
        PromptKey::ArrowDown | PromptKey::Char('j') => (
            if option_index < item_count - 1 {
                option_index + 1
            } else {
                0
            },
            false,
        ),
        PromptKey::Enter => (option_index, true),
        _ => (option_index, false),
    }
}

/// The answer a key gives to a yes-or-no question: `y` or `Y` says yes, `n` or `N` says
/// no, enter takes the default (`'y'` or `'n'`), and other keys give no answer.
pub open spec fn answer_for(key: PromptKey, default_key: char) -> Option<bool> {
    match key {
        PromptKey::Char('y') | PromptKey::Char('Y') => Some(true),
        PromptKey::Char('n') | PromptKey::Char('N') => Some(false),
        PromptKey::Enter => if default_key == 'y' {
            Some(true)
        } else if default_key == 'n' {
            Some(false)
        } else {
            None
        },
        _ => None,
    }
}

/// The answer a key gives to a yes-or-no question, if any.
pub fn confirm_answer(key: PromptKey, default_key: char) -> (r: Option<bool>)
    ensures
        r == answer_for(key, default_key),
{
    match key {
        PromptKey::Char('y') | PromptKey::Char('Y') => Some(true),
        PromptKey::Char('n') | PromptKey::Char('N') => Some(false),
        PromptKey::Enter => if default_key == 'y' {
            Some(true)
        } else if default_key == 'n' {
            Some(false)
        } else {
            None
        },
        _ => None,
    }
}

} // verus!
