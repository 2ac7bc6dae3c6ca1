//! Start-up and watchdog rules of a world's Lua VM.

use vstd::prelude::*;
use crate::service::strip_bom;
use crate::text::{trim_prefix_all, occurs_at, contains};

verus! {

/// Scripts may run this long (in nanoseconds) before the watchdog ends the
/// process.
pub const WATCHDOG_LIMIT_NANOS: u128 = 2_000_000_000;

/// How many VM instructions pass between two watchdog checks.
pub const WATCHDOG_CHECK_INTERVAL: u32 = 10000;

/// The handlers a world gets when it has no boot script.
pub open spec fn default_boot_script() -> Seq<char> {
    "\n                    function handle_alias() return false end\n                    function on_text_trigger() end\n                "@
}

/// Brings up the Lua VM of a world.
pub struct LuaLifecycleManager;

impl LuaLifecycleManager {
    /// The code a new VM runs first: the boot script's text without leading
    /// byte order marks, or the default handlers when there is no boot script.
    pub fn boot_script(file_content: Option<&str>) -> (r: String)
        ensures
            match file_content {
                Some(c) => r@ == trim_prefix_all(c@, seq!['\u{feff}']),
                None => r@ == default_boot_script(),
            },
    {
        match file_content {
            Some(c) => strip_bom(c),
            None => "\n                    function handle_alias() return false end\n                    function on_text_trigger() end\n                ".to_owned(),
        }
    }

    /// Has a script run for too long? (`elapsed_nanos` since the VM started.)
    pub fn watchdog_expired(elapsed_nanos: u128) -> (b: bool)
        ensures
            b == (elapsed_nanos > WATCHDOG_LIMIT_NANOS),
    {
        elapsed_nanos > WATCHDOG_LIMIT_NANOS
    }
}

/// Without a boot script the VM gets handlers that take nothing:
/// `handle_alias` is defined once, as `return false` (so every command the
/// script is asked about goes on to the server), and `on_text_trigger` is
/// defined to do nothing.
pub proof fn law_default_handlers_take_nothing()
    ensures
        contains(default_boot_script(), "function handle_alias() return false end"@),
        forall|i: int|
            occurs_at(default_boot_script(), "function handle_alias"@, i) ==> occurs_at(
                default_boot_script(),
                "function handle_alias() return false end"@,
                i,
            ),
        contains(default_boot_script(), "function on_text_trigger() end"@),
{
    let s = default_boot_script();
    reveal_strlit("\n                    function handle_alias() return false end\n                    function on_text_trigger() end\n                ");
    reveal_strlit("function handle_alias() return false end");
    reveal_strlit("function handle_alias");
    reveal_strlit("function on_text_trigger() end");
    assert(s.subrange(21int, 61int) =~= "function handle_alias() return false end"@);
    assert(occurs_at(s, "function handle_alias() return false end"@, 21));
    assert(s.subrange(82int, 112int) =~= "function on_text_trigger() end"@);
    assert(occurs_at(s, "function on_text_trigger() end"@, 82));
    assert forall|i: int| occurs_at(s, "function handle_alias"@, i) implies i == 21 by {
        let p = "function handle_alias"@;
        assert(s.subrange(i, i + 21)[9] == p[9]);
        assert(s.subrange(i, i + 21)[10] == p[10]);
        assert(s.subrange(i, i + 21)[11] == p[11]);
        assert(s.subrange(i, i + 21)[0] == p[0]);
    }
}

} // verus!
