//! Command handling of the world service: command cleanup, the `include`
//! directive, and the framing of commands for the server.

use vstd::prelude::*;
use crate::codec::{to_gbk_bytes, gbk_encoded};
use crate::engine::{AliasTable, MushMatchingEngine, outgoing_effect};
use crate::text::{
    chars_of, string_of, trim_seq, find, rfind_char, copy_range, matches_at, trim_prefix_seq, trim,
    starts_with, first_occurrence, last_index_of, trim_prefix_all, };

verus! {

pub open spec fn include_prefix() -> Seq<char> {
    seq!['i', 'n', 'c', 'l', 'u', 'd', 'e', '(']
}

pub open spec fn slash_include_prefix() -> Seq<char> {
    seq!['/', 'i', 'n', 'c', 'l', 'u', 'd', 'e', '(']
}

/// The file named by an `include("file")` or `/include("file")` command:
/// the text between its first and its last double quote.
pub open spec fn include_target_of(cmd: Seq<char>) -> Option<Seq<char>> {
    if starts_with(cmd, include_prefix()) || starts_with(cmd, slash_include_prefix()) {
        match (first_occurrence(cmd, seq!['"']), last_index_of(cmd, '"')) {
            (Some(s), Some(e)) => if s < e {
                Some(cmd.subrange(s + 1, e))
            } else {
                None
            },
            _ => None,
        }
    } else {
        None
    }
}

/// A command as typed, without surrounding whitespace.
pub fn normalize_command(raw: &str) -> (r: String)
    ensures
        r@ == trim(raw@),
{
    let chars = chars_of(raw);
    string_of(&trim_seq(&chars))
}

/// The script file an `include(...)` command asks for, if `cmd` is one.
pub fn include_target(cmd: &str) -> (r: Option<String>)
    ensures
        match r {
            Some(f) => include_target_of(cmd@) == Some(f@),
            None => include_target_of(cmd@) is None,
        },
{
    let chars = chars_of(cmd);
    let plain = vec!['i', 'n', 'c', 'l', 'u', 'd', 'e', '('];
    let slashed = vec!['/', 'i', 'n', 'c', 'l', 'u', 'd', 'e', '('];
    assert(plain@ =~= include_prefix());
    assert(slashed@ =~= slash_include_prefix());
    if !(matches_at(&chars, &plain, 0) || matches_at(&chars, &slashed, 0)) {
        return None;
    }
    let quote = vec!['"'];
    assert(quote@ =~= seq!['"']);
    match find(&chars, &quote) {
        None => None,
        Some(start) => match rfind_char(&chars, '"') {
            None => None,
            Some(end) => {
                if start < end {
                    Some(string_of(&copy_range(&chars, start + 1, end)))
                } else {
                    None
                }
            },
        },
    }
}

/// The bytes sent to the server for a command: the trimmed command and a
/// newline, in GBK.
pub fn frame_outgoing_command(cmd: &str) -> (r: Vec<u8>)
    ensures
        r@ == gbk_encoded(trim(cmd@).push('\n')),
{
    let chars = chars_of(cmd);
    let mut line = trim_seq(&chars);
    line.push('\n');
    let text = string_of(&line);
    to_gbk_bytes(text.as_str())
}

/// A script file's text without its leading byte order marks.
pub fn strip_bom(content: &str) -> (r: String)
    ensures
        r@ == trim_prefix_all(content@, seq!['\u{feff}']),
{
    let chars = chars_of(content);
    let bom = vec!['\u{feff}'];
    assert(bom@ =~= seq!['\u{feff}']);
    string_of(&trim_prefix_seq(&chars, &bom))
}

/// Where a command typed by the player goes, before the script is asked.
pub enum CommandRoute {
    /// An `include("file")` directive: the script file is run, nothing is sent.
    Include(String),
    /// An alias with a `script:` response took the command: nothing is sent.
    Intercepted,
    /// The command after the aliases: the script's `handle_alias` is asked
    /// about it, and it is sent to the server unless the script takes it.
    AskScript(String),
}

/// Route a command: trimmed, an `include(...)` directive runs its file when
/// the script API offers `include` (`include_available`); any other command
/// goes through the aliases.
pub fn route_command(raw_cmd: &str, aliases: &AliasTable, include_available: bool) -> (r: CommandRoute)
    ensures
        ({
            let cmd = trim(raw_cmd@);
            let runs_file = include_available && include_target_of(cmd) is Some;
            let effect = outgoing_effect(cmd, aliases@);
            match r {
                CommandRoute::Include(f) => runs_file && include_target_of(cmd) == Some(f@),
                CommandRoute::Intercepted => !runs_file && effect.1,
                CommandRoute::AskScript(c) => !runs_file && !effect.1 && c@ == effect.0,
            }
        }),
{
    let cmd = normalize_command(raw_cmd);
    if include_available {
        match include_target(cmd.as_str()) {
            Some(file) => {
                return CommandRoute::Include(file);
            },
            None => {},
        }
    }
    let mut intercepted = false;
    let final_cmd = MushMatchingEngine::process_outgoing_command(cmd.as_str(), aliases, &mut intercepted);
    if intercepted {
        CommandRoute::Intercepted
    } else {
        CommandRoute::AskScript(final_cmd)
    }
}

} // verus!
