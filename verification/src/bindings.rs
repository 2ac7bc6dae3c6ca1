//! The rule-building part of the script API: what `AddTrigger`,
//! `AddTriggerEx`, `AddAlias` and `AddTimer` make of their arguments.

use vstd::prelude::*;
use crate::engine::{MushTrigger, MushAlias};

verus! {

/// Priority of a trigger when the script gives none.
pub const DEFAULT_TRIGGER_PRIORITY: i32 = 100;
/// Priority of an alias when the script gives none; aliases come before triggers.
pub const DEFAULT_ALIAS_PRIORITY: i32 = 50;

/// The factory that binds the script API of a world.
pub struct MushBindingFactory;

impl MushBindingFactory {
    /// A legacy `sequence` / flags value as a priority: positive values are
    /// kept, anything else means `default`.
    pub fn priority_from_flags(flags: i32, default: i32) -> (p: i32)
        ensures
            p == (if flags > 0 {
                flags
            } else {
                default
            }),
    {
        if flags > 0 {
            flags
        } else {
            default
        }
    }

    /// `AddTrigger(name, match, response)`: a single-line trigger of default
    /// priority.
    pub fn add_trigger(name: String, match_text: String, response_text: String) -> (t: MushTrigger)
        ensures
            t.name == name,
            t.match_text == match_text,
            t.response_text == response_text,
            !t.is_multi_line,
            t.lines_to_match == 1,
            t.priority == DEFAULT_TRIGGER_PRIORITY,
    {
        MushTrigger {
            name,
            match_text,
            response_text,
            is_multi_line: false,
            lines_to_match: 1,
            priority: DEFAULT_TRIGGER_PRIORITY,
        }
    }

    /// `AddTriggerEx(name, match, response, flags, .., multi_line, lines)`:
    /// the flags give the priority.
    pub fn add_trigger_ex(
        name: String,
        match_text: String,
        response_text: String,
        flags: i32,
        multi_line: bool,
        lines_count: usize,
    ) -> (t: MushTrigger)
        ensures
            t.name == name,
            t.match_text == match_text,
            t.response_text == response_text,
            t.is_multi_line == multi_line,
            t.lines_to_match == lines_count,
            t.priority == (if flags > 0 {
                flags
            } else {
                DEFAULT_TRIGGER_PRIORITY
            }),
    {
        let priority = Self::priority_from_flags(flags, DEFAULT_TRIGGER_PRIORITY);
        MushTrigger { name, match_text, response_text, is_multi_line: multi_line, lines_to_match: lines_count, priority }
    }

    /// `AddAlias(name, match, response, flags, ..)`: the flags give the
    /// priority.
    pub fn add_alias(name: String, match_text: String, response_text: String, flags: i32) -> (a: MushAlias)
        ensures
            a.name == name,
            a.match_text == match_text,
            a.response_text == response_text,
            a.priority == (if flags > 0 {
                flags
            } else {
                DEFAULT_ALIAS_PRIORITY
            }),
    {
        let priority = Self::priority_from_flags(flags, DEFAULT_ALIAS_PRIORITY);
        MushAlias { name, match_text, response_text, priority }
    }

    /// `AddTimer(.., flags, ..)`: bit 0 of the flags makes the timer fire once.
    pub fn timer_is_one_shot(flags: i32) -> (b: bool)
        ensures
            b == ((flags & 1) != 0),
    {
        (flags & 1) != 0
    }
}

} // verus!
