//! Trigger and alias matching: a ten-line sliding window over incoming
//! text, priority-ordered triggers (single or multi-line), and aliases that
//! rewrite or intercept outgoing commands.

use vstd::prelude::*;
use crate::codec::{network_decoded, decode_network_bytes};
use crate::pattern::{
    compile_pattern, pattern_is_match, pattern_replace_all, regex_compiles, regex_is_match,
    regex_replaced,
};
use crate::text::{
    chars_of, string_of, split_lines, join_with_newlines, matches_at, trim_prefix_seq, lines_of,
    join_lines, starts_with, trim_prefix_all,
};

verus! {

/// A trigger: when its regex matches the newest line (or the newest
/// `lines_to_match` lines joined by `\n`), its response is sent to the
/// server, or, for a response `script:<function>`, that script function runs.
#[derive(Debug, Clone)]
pub struct MushTrigger {
    pub name: String,
    pub match_text: String,
    pub response_text: String,
    pub is_multi_line: bool,
    pub lines_to_match: usize,
    /// Lower numbers are tried first.
    pub priority: i32,
}

/// An alias: when its regex matches an outgoing command, the command is
/// rewritten with the response as replacement template, or, for a response
/// `script:<function>`, intercepted.
#[derive(Debug, Clone)]
pub struct MushAlias {
    pub name: String,
    pub match_text: String,
    pub response_text: String,
    /// Lower numbers are tried first.
    pub priority: i32,
}

/// The matching engine (stateless; the state lives in the window and tables).
pub struct MushMatchingEngine;

/// The most lines the sliding window keeps.
pub const WINDOW_CAPACITY: usize = 10;

/// The window after `line` arrives: appended, and the oldest line dropped
/// when that makes it longer than `WINDOW_CAPACITY`.
pub open spec fn window_push(w: Seq<Seq<char>>, line: Seq<char>) -> Seq<Seq<char>> {
    if w.push(line).len() > WINDOW_CAPACITY {
        w.push(line).drop_first()
    } else {
        w.push(line)
    }
}

pub open spec fn window_view(w: Seq<String>) -> Seq<Seq<char>> {
    w.map_values(|l: String| l@)
}

/// The text a trigger is matched against: the newest line, or for a
/// multi-line trigger the newest `lines_to_match` lines joined by `\n`.
pub open spec fn trigger_subject(t: MushTrigger, w: Seq<Seq<char>>) -> Seq<char> {
    if t.is_multi_line {
        let start = if w.len() >= t.lines_to_match {
            w.len() - t.lines_to_match
        } else {
            0
        };
        join_lines(w.subrange(start, w.len() as int))
    } else {
        w.last()
    }
}

/// A rule fires when its pattern compiles and matches the subject.
pub open spec fn rule_fires(pattern: Seq<char>, subject: Seq<char>) -> bool {
    regex_compiles(pattern) && regex_is_match(pattern, subject)
}

/// `i` is the first fired rule of the lowest priority number.
pub open spec fn is_first_best(prios: Seq<i32>, fired: Seq<bool>, i: int) -> bool {
    &&& 0 <= i < fired.len()
    &&& fired[i]
    &&& forall|j: int| 0 <= j < fired.len() && fired[j] ==> prios[i] <= prios[j]
    &&& forall|j: int| 0 <= j < i && fired[j] ==> prios[i] < prios[j]
}

/// The rule that wins among the fired ones, if any fired.
pub open spec fn first_best(prios: Seq<i32>, fired: Seq<bool>) -> Option<int> {
    if exists|i: int| 0 <= i < fired.len() && fired[i] {
        Some(choose|i: int| is_first_best(prios, fired, i))
    } else {
        None
    }
}

pub open spec fn trigger_firing(ts: Seq<MushTrigger>, w: Seq<Seq<char>>) -> Seq<bool> {
    Seq::new(ts.len(), |k: int| rule_fires(ts[k].match_text@, trigger_subject(ts[k], w)))
}

pub open spec fn trigger_priorities(ts: Seq<MushTrigger>) -> Seq<i32> {
    ts.map_values(|t: MushTrigger| t.priority)
}

pub open spec fn alias_firing(aliases: Seq<MushAlias>, cmd: Seq<char>) -> Seq<bool> {
    Seq::new(aliases.len(), |k: int| rule_fires(aliases[k].match_text@, cmd))
}

pub open spec fn alias_priorities(aliases: Seq<MushAlias>) -> Seq<i32> {
    aliases.map_values(|a: MushAlias| a.priority)
}

/// The response prefix that names a script function.
pub open spec fn script_prefix() -> Seq<char> {
    seq!['s', 'c', 'r', 'i', 'p', 't', ':']
}

/// What a fired trigger asks for.
#[derive(Debug, Clone, PartialEq, Eq)]
pub enum TriggerResponse {
    /// Call the script function of this name.
    RunScript(String),
    /// Send this text to the server.
    SendCommand(String),
}

/// One fired trigger and what it asks for.
#[derive(Debug, Clone, PartialEq, Eq)]
pub struct TriggerAction {
    pub trigger_name: String,
    pub priority: i32,
    pub response: TriggerResponse,
}

pub struct TriggerActionView {
    pub trigger_name: Seq<char>,
    pub priority: i32,
    pub is_script: bool,
    pub text: Seq<char>,
}

impl View for TriggerAction {
    type V = TriggerActionView;

    open spec fn view(&self) -> TriggerActionView {
        match self.response {
            TriggerResponse::RunScript(f) => TriggerActionView {
                trigger_name: self.trigger_name@,
                priority: self.priority,
                is_script: true,
                text: f@,
            },
            TriggerResponse::SendCommand(c) => TriggerActionView {
                trigger_name: self.trigger_name@,
                priority: self.priority,
                is_script: false,
                text: c@,
            },
        }
    }
}

/// The action of a fired trigger: `script:<f>` runs `f` (every leading
/// `script:` removed), any other response is sent as it is.
pub open spec fn trigger_action(t: MushTrigger) -> TriggerActionView {
    if starts_with(t.response_text@, script_prefix()) {
        TriggerActionView {
            trigger_name: t.name@,
            priority: t.priority,
            is_script: true,
            text: trim_prefix_all(t.response_text@, script_prefix()),
        }
    } else {
        TriggerActionView {
            trigger_name: t.name@,
            priority: t.priority,
            is_script: false,
            text: t.response_text@,
        }
    }
}

/// Actions and final window when `lines` arrive one by one at window `w`:
/// each line enters the window, then the winning trigger, if any, acts.
pub open spec fn incoming_effects(lines: Seq<Seq<char>>, w: Seq<Seq<char>>, ts: Seq<MushTrigger>) -> (
    Seq<TriggerActionView>,
    Seq<Seq<char>>,
)
    decreases lines.len(),
{
    if lines.len() == 0 {
        (seq![], w)
    } else {
        let w1 = window_push(w, lines[0]);
        let acts = match first_best(trigger_priorities(ts), trigger_firing(ts, w1)) {
            Some(i) => seq![trigger_action(ts[i])],
            None => seq![],
        };
        let rest = incoming_effects(lines.drop_first(), w1, ts);
        (acts + rest.0, rest.1)
    }
}

/// An outgoing command after the aliases: `(command, intercepted)`. The
/// winning alias rewrites the command with its response as template, or,
/// for a `script:` response, intercepts it unchanged.
pub open spec fn outgoing_effect(cmd: Seq<char>, aliases: Seq<MushAlias>) -> (Seq<char>, bool) {
    match first_best(alias_priorities(aliases), alias_firing(aliases, cmd)) {
        Some(i) => if starts_with(aliases[i].response_text@, script_prefix()) {
            (cmd, true)
        } else {
            (regex_replaced(aliases[i].match_text@, cmd, aliases[i].response_text@), false)
        },
        None => (cmd, false),
    }
}

/// Position of the first element equal to `x`, or `s.len()`.
pub open spec fn first_position<A>(s: Seq<A>, x: A) -> int
    decreases s.len(),
{
    if s.len() == 0 {
        0
    } else if s[0] == x {
        0
    } else {
        1 + first_position(s.drop_first(), x)
    }
}

pub proof fn lemma_first_position<A>(s: Seq<A>, x: A)
    ensures
        0 <= first_position(s, x) <= s.len(),
        forall|j: int| 0 <= j < first_position(s, x) ==> s[j] != x,
        first_position(s, x) < s.len() ==> s[first_position(s, x)] == x,
    decreases s.len(),
{
    if s.len() > 0 && s[0] != x {
        lemma_first_position(s.drop_first(), x);
        assert forall|j: int| 0 <= j < first_position(s, x) implies s[j] != x by {
            if j > 0 {
                assert(s[j] == s.drop_first()[j - 1]);
            }
        }
    }
}

pub proof fn lemma_first_position_unique<A>(s: Seq<A>, x: A, k: int)
    requires
        0 <= k <= s.len(),
        forall|j: int| 0 <= j < k ==> s[j] != x,
        k < s.len() ==> s[k] == x,
    ensures
        first_position(s, x) == k,
{
    lemma_first_position(s, x);
    let f = first_position(s, x);
    if f < k {
        assert(s[f] == x);
    } else if k < f {
        assert(s[k] != x);
    }
}

/// Names occur at most once.
pub open spec fn names_unique(names: Seq<Seq<char>>) -> bool {
    forall|i: int, j: int| 0 <= i < j < names.len() ==> names[i] != names[j]
}

/// `v` after inserting `x` under name `n`: the first entry of that name is
/// replaced, or `x` is appended when there is none.
pub open spec fn upsert<A>(v: Seq<A>, names: Seq<Seq<char>>, n: Seq<char>, x: A) -> Seq<A> {
    let k = first_position(names, n);
    if k < v.len() {
        v.update(k, x)
    } else {
        v.push(x)
    }
}

pub open spec fn trigger_names(v: Seq<MushTrigger>) -> Seq<Seq<char>> {
    v.map_values(|t: MushTrigger| t.name@)
}

pub open spec fn alias_names(v: Seq<MushAlias>) -> Seq<Seq<char>> {
    v.map_values(|a: MushAlias| a.name@)
}

/// The triggers of one world, one per name, in the order first added.
pub struct TriggerTable {
    triggers: Vec<MushTrigger>,
}

impl View for TriggerTable {
    type V = Seq<MushTrigger>;

    closed spec fn view(&self) -> Seq<MushTrigger> {
        self.triggers@
    }
}

impl TriggerTable {
    /// An empty table.
    pub fn new() -> (r: Self)
        ensures
            r@ == Seq::<MushTrigger>::empty(),
    {
        TriggerTable { triggers: Vec::new() }
    }

    pub fn len(&self) -> (n: usize)
        ensures
            n == self@.len(),
    {
        self.triggers.len()
    }

    pub fn get(&self, i: usize) -> (t: &MushTrigger)
        requires
            i < self@.len(),
        ensures
            *t == self@[i as int],
    {
        &self.triggers[i]
    }

    /// Add a trigger, replacing the one of the same name if there is one.
    pub fn insert(&mut self, trigger: MushTrigger)
        ensures
            final(self)@ == upsert(old(self)@, trigger_names(old(self)@), trigger.name@, trigger),
            names_unique(trigger_names(old(self)@)) ==> names_unique(trigger_names(final(self)@)),
    {
        let ghost names = trigger_names(self@);
        let n = self.triggers.len();
        let mut k: usize = 0;
        while k < n && !(self.triggers[k].name == trigger.name)
            invariant
                n == self.triggers@.len(),
                names == trigger_names(self.triggers@),
                k <= n,
                forall|j: int| 0 <= j < k ==> names[j] != trigger.name@,
            decreases n - k,
        {
            k += 1;
        }
        proof {
            lemma_first_position_unique(names, trigger.name@, k as int);
        }
        if k < n {
            self.triggers.set(k, trigger);
        } else {
            self.triggers.push(trigger);
        }
        assert(names_unique(names) ==> names_unique(trigger_names(self.triggers@))) by {
            if names_unique(names) {
                let nn = trigger_names(self.triggers@);
                if k < n {
                    assert(nn =~= names.update(k as int, trigger.name@));
                    assert(names[k as int] == trigger.name@);
                    assert(nn =~= names);
                } else {
                    assert(nn =~= names.push(trigger.name@));
                    assert forall|i: int, j: int| 0 <= i < j < nn.len() implies nn[i] != nn[j] by {
                        if j == n {
                            assert(nn[i] == names[i]);
                        }
                    }
                }
            }
        }
    }
}

/// The aliases of one world, one per name, in the order first added.
pub struct AliasTable {
    aliases: Vec<MushAlias>,
}

impl View for AliasTable {
    type V = Seq<MushAlias>;

    closed spec fn view(&self) -> Seq<MushAlias> {
        self.aliases@
    }
}

impl AliasTable {
    /// An empty table.
    pub fn new() -> (r: Self)
        ensures
            r@ == Seq::<MushAlias>::empty(),
    {
        AliasTable { aliases: Vec::new() }
    }

    pub fn len(&self) -> (n: usize)
        ensures
            n == self@.len(),
    {
        self.aliases.len()
    }

    pub fn get(&self, i: usize) -> (a: &MushAlias)
        requires
            i < self@.len(),
        ensures
            *a == self@[i as int],
    {
        &self.aliases[i]
    }

    /// Add an alias, replacing the one of the same name if there is one.
    pub fn insert(&mut self, alias: MushAlias)
        ensures
            final(self)@ == upsert(old(self)@, alias_names(old(self)@), alias.name@, alias),
            names_unique(alias_names(old(self)@)) ==> names_unique(alias_names(final(self)@)),
    {
        let ghost names = alias_names(self@);
        let n = self.aliases.len();
        let mut k: usize = 0;
        while k < n && !(self.aliases[k].name == alias.name)
            invariant
                n == self.aliases@.len(),
                names == alias_names(self.aliases@),
                k <= n,
                forall|j: int| 0 <= j < k ==> names[j] != alias.name@,
            decreases n - k,
        {
            k += 1;
        }
        proof {
            lemma_first_position_unique(names, alias.name@, k as int);
        }
        if k < n {
            self.aliases.set(k, alias);
        } else {
            self.aliases.push(alias);
        }
        assert(names_unique(names) ==> names_unique(alias_names(self.aliases@))) by {
            if names_unique(names) {
                let nn = alias_names(self.aliases@);
                if k < n {
                    assert(nn =~= names.update(k as int, alias.name@));
                    assert(names[k as int] == alias.name@);
                    assert(nn =~= names);
                } else {
                    assert(nn =~= names.push(alias.name@));
                    assert forall|i: int, j: int| 0 <= i < j < nn.len() implies nn[i] != nn[j] by {
                        if j == n {
                            assert(nn[i] == names[i]);
                        }
                    }
                }
            }
        }
    }
}

pub proof fn lemma_first_best_unique(prios: Seq<i32>, fired: Seq<bool>, a: int, b: int)
    requires
        is_first_best(prios, fired, a),
        is_first_best(prios, fired, b),
    ensures
        a == b,
{
}

/// Move a line into the window.
fn push_window_line(window: &mut Vec<String>, line: String)
    ensures
        window_view(final(window)@) == window_push(window_view(old(window)@), line@),
        final(window)@.len() > 0,
{
    window.push(line);
    if window.len() > WINDOW_CAPACITY {
        window.remove(0);
    }
    assert(window_view(window@) =~= window_push(window_view(old(window)@), line@));
}

/// The text `t` is matched against in `window`.
fn trigger_subject_text(t: &MushTrigger, window: &Vec<String>) -> (r: String)
    requires
        window@.len() > 0,
    ensures
        r@ == trigger_subject(*t, window_view(window@)),
{
    let n = window.len();
    if t.is_multi_line {
        let start = if n >= t.lines_to_match {
            n - t.lines_to_match
        } else {
            0
        };
        let joined = join_with_newlines(window.as_slice(), start, n);
        assert(window@.subrange(start as int, n as int).map_values(|l: String| l@) =~= window_view(
            window@,
        ).subrange(start as int, n as int));
        string_of(&joined)
    } else {
        window[n - 1].clone()
    }
}

/// The action of a fired trigger, built as `trigger_action` says.
fn action_for(t: &MushTrigger) -> (a: TriggerAction)
    ensures
        a@ == trigger_action(*t),
{
    let response = chars_of(t.response_text.as_str());
    let prefix = vec!['s', 'c', 'r', 'i', 'p', 't', ':'];
    assert(prefix@ =~= script_prefix());
    if matches_at(&response, &prefix, 0) {
        let function = trim_prefix_seq(&response, &prefix);
        TriggerAction {
            trigger_name: t.name.clone(),
            priority: t.priority,
            response: TriggerResponse::RunScript(string_of(&function)),
        }
    } else {
        TriggerAction {
            trigger_name: t.name.clone(),
            priority: t.priority,
            response: TriggerResponse::SendCommand(t.response_text.clone()),
        }
    }
}

/// Does the rule with this pattern fire on `subject`?
fn rule_fires_exec(pattern: &str, subject: &str) -> (b: bool)
    ensures
        b == rule_fires(pattern@, subject@),
{
    match compile_pattern(pattern) {
        Some(p) => pattern_is_match(&p, subject),
        None => false,
    }
}

/// Priorities and firing of every trigger on the current window.
fn triggers_fired(table: &TriggerTable, window: &Vec<String>) -> (r: (Vec<i32>, Vec<bool>))
    requires
        window@.len() > 0,
    ensures
        r.0@ == trigger_priorities(table@),
        r.1@ == trigger_firing(table@, window_view(window@)),
{
    let n = table.len();
    let mut prios: Vec<i32> = Vec::new();
    let mut fired: Vec<bool> = Vec::new();
    let mut k: usize = 0;
    while k < n
        invariant
            n == table@.len(),
            window@.len() > 0,
            k <= n,
            prios@ == trigger_priorities(table@).take(k as int),
            fired@ == trigger_firing(table@, window_view(window@)).take(k as int),
        decreases n - k,
    {
        let t = table.get(k);
        let subject = trigger_subject_text(t, window);
        let f = rule_fires_exec(t.match_text.as_str(), subject.as_str());
        prios.push(t.priority);
        fired.push(f);
        k += 1;
        assert(prios@ =~= trigger_priorities(table@).take(k as int));
        assert(fired@ =~= trigger_firing(table@, window_view(window@)).take(k as int));
    }
    assert(prios@ =~= trigger_priorities(table@));
    assert(fired@ =~= trigger_firing(table@, window_view(window@)));
    (prios, fired)
}

/// Priorities and firing of every alias on a command.
fn aliases_fired(table: &AliasTable, cmd: &str) -> (r: (Vec<i32>, Vec<bool>))
    ensures
        r.0@ == alias_priorities(table@),
        r.1@ == alias_firing(table@, cmd@),
{
    let n = table.len();
    let mut prios: Vec<i32> = Vec::new();
    let mut fired: Vec<bool> = Vec::new();
    let mut k: usize = 0;
    while k < n
        invariant
            n == table@.len(),
            k <= n,
            prios@ == alias_priorities(table@).take(k as int),
            fired@ == alias_firing(table@, cmd@).take(k as int),
        decreases n - k,
    {
        let a = table.get(k);
        let f = rule_fires_exec(a.match_text.as_str(), cmd);
        prios.push(a.priority);
        fired.push(f);
        k += 1;
        assert(prios@ =~= alias_priorities(table@).take(k as int));
        assert(fired@ =~= alias_firing(table@, cmd@).take(k as int));
    }
    assert(prios@ =~= alias_priorities(table@));
    assert(fired@ =~= alias_firing(table@, cmd@));
    (prios, fired)
}

impl MushMatchingEngine {
    /// Decode bytes from the network: UTF-8 when valid, GBK otherwise.
    pub fn auto_decode_network_bytes(bytes: &[u8]) -> (s: String)
        ensures
            s@ == network_decoded(bytes@),
    {
        decode_network_bytes(bytes)
    }

    /// Among the fired rules, the first one of the lowest priority number.
    pub fn select_by_priority(priorities: &[i32], fired: &[bool]) -> (r: Option<usize>)
        requires
            priorities@.len() == fired@.len(),
        ensures
            match r {
                Some(i) => first_best(priorities@, fired@) == Some(i as int) && is_first_best(
                    priorities@,
                    fired@,
                    i as int,
                ),
                None => first_best(priorities@, fired@) is None,
            },
    {
        let n = fired.len();
        let mut best: Option<usize> = None;
        let mut k: usize = 0;
        while k < n
            invariant
                n == fired@.len(),
                n == priorities@.len(),
                k <= n,
                best matches Some(b) ==> {
                    &&& b < k
                    &&& fired@[b as int]
                    &&& forall|j: int| 0 <= j < k && fired@[j] ==> priorities@[b as int] <= priorities@[j]
                    &&& forall|j: int| 0 <= j < b && fired@[j] ==> priorities@[b as int] < priorities@[j]
                },
                best is None ==> forall|j: int| 0 <= j < k ==> !fired@[j],
            decreases n - k,
        {
            if fired[k] {
                match best {
                    None => {
                        best = Some(k);
                    },
                    Some(b) => {
                        if priorities[k] < priorities[b] {
                            best = Some(k);
                        }
                    },
                }
            }
            k += 1;
        }
        match best {
            Some(b) => {
                assert(is_first_best(priorities@, fired@, b as int));
                let ghost c = choose|i: int| is_first_best(priorities@, fired@, i);
                proof {
                    lemma_first_best_unique(priorities@, fired@, b as int, c);
                }
            },
            None => {},
        }
        best
    }

    /// Feed incoming text to the engine: each line enters the sliding window
    /// and the winning trigger for the window, if any, yields an action.
    pub fn process_incoming_text(
        raw_text: &str,
        sliding_window: &mut Vec<String>,
        dynamic_triggers: &TriggerTable,
    ) -> (r: Vec<TriggerAction>)
        ensures
            ({
                let eff = incoming_effects(
                    lines_of(raw_text@),
                    window_view(old(sliding_window)@),
                    dynamic_triggers@,
                );
                &&& r@.map_values(|a: TriggerAction| a@) == eff.0
                &&& window_view(final(sliding_window)@) == eff.1
            }),
    {
        let ghost ts = dynamic_triggers@;
        let ghost total = incoming_effects(lines_of(raw_text@), window_view(sliding_window@), ts);
        let chars = chars_of(raw_text);
        let lines = split_lines(&chars);
        let ghost all = lines@.map_values(|v: Vec<char>| v@);
        assert(all == lines_of(raw_text@));
        let mut out: Vec<TriggerAction> = Vec::new();
        let mut li: usize = 0;
        assert(all.skip(0) =~= all);
        while li < lines.len()
            invariant
                all == lines@.map_values(|v: Vec<char>| v@),
                ts == dynamic_triggers@,
                total == incoming_effects(all, window_view(old(sliding_window)@), ts),
                li <= lines@.len(),
                out@.map_values(|a: TriggerAction| a@) + incoming_effects(
                    all.skip(li as int),
                    window_view(sliding_window@),
                    ts,
                ).0 == total.0,
                incoming_effects(all.skip(li as int), window_view(sliding_window@), ts).1 == total.1,
            decreases lines@.len() - li,
        {
            let ghost w0 = window_view(sliding_window@);
            let ghost before = out@.map_values(|a: TriggerAction| a@);
            let line = string_of(&lines[li]);
            push_window_line(sliding_window, line);
            let ghost w1 = window_view(sliding_window@);
            assert(all.skip(li as int)[0] == lines@[li as int]@);
            assert(w1 == window_push(w0, all.skip(li as int)[0]));
            let (prios, fired) = triggers_fired(dynamic_triggers, sliding_window);
            let ghost acts = match first_best(trigger_priorities(ts), trigger_firing(ts, w1)) {
                Some(i) => seq![trigger_action(ts[i])],
                None => seq![],
            };
            match Self::select_by_priority(&prios, &fired) {
                Some(i) => {
                    let a = action_for(dynamic_triggers.get(i));
                    out.push(a);
                    assert(out@.map_values(|a: TriggerAction| a@) =~= before + acts);
                },
                None => {
                    assert(out@.map_values(|a: TriggerAction| a@) =~= before + acts);
                },
            }
            assert(all.skip(li as int).drop_first() =~= all.skip(li + 1));
            li += 1;
        }
        assert(all.skip(li as int) =~= seq![]);
        assert(out@.map_values(|a: TriggerAction| a@) + seq![] =~= out@.map_values(|a: TriggerAction| a@));
        out
    }

    /// Pass an outgoing command through the aliases. The winning alias
    /// rewrites the command, or, for a `script:` response, sets
    /// `alias_intercepted` and leaves it unchanged.
    pub fn process_outgoing_command(cmd: &str, dynamic_aliases: &AliasTable, alias_intercepted: &mut bool) -> (r: String)
        ensures
            r@ == outgoing_effect(cmd@, dynamic_aliases@).0,
            *final(alias_intercepted) == (*old(alias_intercepted) || outgoing_effect(cmd@, dynamic_aliases@).1),
    {
        let (prios, fired) = aliases_fired(dynamic_aliases, cmd);
        match Self::select_by_priority(&prios, &fired) {
            None => cmd.to_owned(),
            Some(i) => {
                let alias = dynamic_aliases.get(i);
                let response = chars_of(alias.response_text.as_str());
                let prefix = vec!['s', 'c', 'r', 'i', 'p', 't', ':'];
                assert(prefix@ =~= script_prefix());
                if matches_at(&response, &prefix, 0) {
                    *alias_intercepted = true;
                    cmd.to_owned()
                } else {
                    match compile_pattern(alias.match_text.as_str()) {
                        Some(p) => pattern_replace_all(&p, cmd, alias.response_text.as_str()),
                        None => {
                            assert(fired@[i as int]);
                            cmd.to_owned()
                        },
                    }
                }
            },
        }
    }
}

proof fn lemma_best_prefix(p: Seq<i32>, f: Seq<bool>, n: int)
    requires
        p.len() == f.len(),
        0 <= n <= f.len(),
    ensures
        (exists|j: int| 0 <= j < n && f[j]) ==> exists|b: int|
            0 <= b < n && f[b] && (forall|j: int| 0 <= j < n && f[j] ==> p[b] <= p[j]) && (forall|j: int|
                0 <= j < b && f[j] ==> p[b] < p[j]),
    decreases n,
{
    if n > 0 {
        lemma_best_prefix(p, f, n - 1);
        if exists|j: int| 0 <= j < n && f[j] {
            if exists|j: int| 0 <= j < n - 1 && f[j] {
                let b = choose|b: int|
                    0 <= b < n - 1 && f[b] && (forall|j: int| 0 <= j < n - 1 && f[j] ==> p[b] <= p[j]) && (
                    forall|j: int| 0 <= j < b && f[j] ==> p[b] < p[j]);
                if f[n - 1] && p[n - 1] < p[b] {
                    assert(forall|j: int| 0 <= j < n && f[j] ==> p[n - 1] <= p[j]);
                    assert(forall|j: int| 0 <= j < n - 1 && f[j] ==> p[n - 1] < p[j]);
                } else {
                    assert(forall|j: int| 0 <= j < n && f[j] ==> p[b] <= p[j]);
                }
            } else {
                assert(f[n - 1]);
                assert(forall|j: int| 0 <= j < n - 1 ==> !f[j]);
                assert(forall|j: int| 0 <= j < n && f[j] ==> p[n - 1] <= p[j]);
            }
        }
    }
}

/// The winning rule is a fired rule of the lowest priority number (the
/// earliest such), and some rule wins exactly when some rule fired.
pub proof fn law_winner_has_lowest_priority(prios: Seq<i32>, fired: Seq<bool>)
    requires
        prios.len() == fired.len(),
    ensures
        first_best(prios, fired) is Some <==> exists|j: int| 0 <= j < fired.len() && fired[j],
        first_best(prios, fired) matches Some(i) ==> {
            &&& 0 <= i < fired.len()
            &&& fired[i]
            &&& forall|j: int| 0 <= j < fired.len() && fired[j] ==> prios[i] <= prios[j]
        },
{
    lemma_best_prefix(prios, fired, fired.len() as int);
    if exists|j: int| 0 <= j < fired.len() && fired[j] {
        let b = choose|b: int|
            0 <= b < fired.len() && fired[b] && (forall|j: int| 0 <= j < fired.len() && fired[j] ==> prios[b]
                <= prios[j]) && (forall|j: int| 0 <= j < b && fired[j] ==> prios[b] < prios[j]);
        assert(is_first_best(prios, fired, b));
    }
}

/// The sliding window never holds more than `WINDOW_CAPACITY` lines, and
/// each arriving line becomes its newest line.
pub proof fn law_window_is_bounded(w: Seq<Seq<char>>, line: Seq<char>)
    requires
        w.len() <= WINDOW_CAPACITY,
    ensures
        window_push(w, line).len() <= WINDOW_CAPACITY,
        window_push(w, line).len() > 0,
        window_push(w, line).last() == line,
{
}

/// Over any text, the window stays within `WINDOW_CAPACITY` lines and at
/// most one trigger acts per line.
pub proof fn law_incoming_text_effects_bounded(lines: Seq<Seq<char>>, w: Seq<Seq<char>>, ts: Seq<MushTrigger>)
    requires
        w.len() <= WINDOW_CAPACITY,
    ensures
        incoming_effects(lines, w, ts).1.len() <= WINDOW_CAPACITY,
        incoming_effects(lines, w, ts).0.len() <= lines.len(),
    decreases lines.len(),
{
    if lines.len() > 0 {
        law_window_is_bounded(w, lines[0]);
        law_incoming_text_effects_bounded(lines.drop_first(), window_push(w, lines[0]), ts);
    }
}

/// An intercepted command goes on unchanged.
pub proof fn law_intercepted_command_is_unchanged(cmd: Seq<char>, aliases: Seq<MushAlias>)
    ensures
        outgoing_effect(cmd, aliases).1 ==> outgoing_effect(cmd, aliases).0 == cmd,
{
}

/// After a trigger is added to a table of distinct names, the table holds
/// it, and it is the only trigger of its name.
pub proof fn law_added_trigger_is_the_one_of_its_name(v: Seq<MushTrigger>, t: MushTrigger)
    requires
        names_unique(trigger_names(v)),
    ensures
        ({
            let v2 = upsert(v, trigger_names(v), t.name@, t);
            &&& names_unique(trigger_names(v2))
            &&& exists|i: int| 0 <= i < v2.len() && v2[i] == t
            &&& forall|j: int| 0 <= j < v2.len() && v2[j].name@ == t.name@ ==> v2[j] == t
        }),
{
    let names = trigger_names(v);
    lemma_first_position(names, t.name@);
    let k = first_position(names, t.name@);
    let v2 = upsert(v, names, t.name@, t);
    let n2 = trigger_names(v2);
    if k < v.len() {
        assert(n2 =~= names);
        assert(v2[k] == t);
        assert forall|j: int| 0 <= j < v2.len() && v2[j].name@ == t.name@ implies v2[j] == t by {
            if j != k {
                assert(names[j] == names[k]);
            }
        }
    } else {
        assert(n2 =~= names.push(t.name@));
        assert(v2[v.len() as int] == t);
        assert forall|j: int| 0 <= j < v2.len() && v2[j].name@ == t.name@ implies v2[j] == t by {
            if j < v.len() {
                assert(names[j] == t.name@);
            }
        }
        assert forall|a: int, b: int| 0 <= a < b < n2.len() implies n2[a] != n2[b] by {
            if b == v.len() {
                assert(n2[a] == names[a]);
            }
        }
    }
}

/// The newest `WINDOW_CAPACITY` lines of `s` (all of them when there are fewer).
pub open spec fn newest_lines(s: Seq<Seq<char>>) -> Seq<Seq<char>> {
    if s.len() > WINDOW_CAPACITY {
        s.skip(s.len() - WINDOW_CAPACITY)
    } else {
        s
    }
}

proof fn lemma_newest_lines_absorb(a: Seq<Seq<char>>, b: Seq<Seq<char>>)
    ensures
        newest_lines(newest_lines(a) + b) == newest_lines(a + b),
{
    if a.len() > WINDOW_CAPACITY {
        let d = a.len() - WINDOW_CAPACITY;
        let x = a.skip(d) + b;
        let y = a + b;
        if x.len() > WINDOW_CAPACITY {
            let xs = x.skip(x.len() - WINDOW_CAPACITY);
            let ys = y.skip(y.len() - WINDOW_CAPACITY);
            assert(xs =~= ys) by {
                assert forall|j: int| 0 <= j < WINDOW_CAPACITY implies #[trigger] xs[j] == ys[j] by {
                    let p = x.len() - WINDOW_CAPACITY + j;
                    if p < WINDOW_CAPACITY {
                        assert(x[p] == a[d + p]);
                        assert(y[d + p] == a[d + p]);
                    } else {
                        assert(x[p] == b[p - WINDOW_CAPACITY]);
                        assert(y[d + p] == b[d + p - a.len()]);
                    }
                }
            }
        }
    } else {
        assert(newest_lines(a) == a);
    }
}

/// After any text the window is the newest `WINDOW_CAPACITY` lines of the
/// old window followed by the text's lines, oldest first.
pub proof fn law_window_holds_the_newest_lines(lines: Seq<Seq<char>>, w: Seq<Seq<char>>, ts: Seq<MushTrigger>)
    requires
        w.len() <= WINDOW_CAPACITY,
    ensures
        incoming_effects(lines, w, ts).1 == newest_lines(w + lines),
    decreases lines.len(),
{
    if lines.len() == 0 {
        assert(w + lines =~= w);
    } else {
        let w1 = window_push(w, lines[0]);
        law_window_is_bounded(w, lines[0]);
        law_window_holds_the_newest_lines(lines.drop_first(), w1, ts);
        assert(w1 == newest_lines(w.push(lines[0]))) by {
            if w.push(lines[0]).len() > WINDOW_CAPACITY {
                assert(w.push(lines[0]).drop_first() =~= w.push(lines[0]).skip(1));
            }
        }
        lemma_newest_lines_absorb(w.push(lines[0]), lines.drop_first());
        assert(w.push(lines[0]) + lines.drop_first() =~= w + lines);
    }
}

proof fn lemma_join_lines_ends_with_last(lines: Seq<Seq<char>>)
    requires
        lines.len() >= 1,
    ensures
        join_lines(lines).len() >= lines.last().len(),
        join_lines(lines).skip(join_lines(lines).len() - lines.last().len()) == lines.last(),
{
    let j = join_lines(lines);
    if lines.len() == 1 {
        assert(j.skip(0) =~= j);
    } else {
        let head = join_lines(lines.drop_last()) + seq!['\n'];
        assert(j == head + lines.last());
        assert(j.skip(head.len() as int) =~= lines.last());
    }
}

/// A trigger is matched against the newest text: a single-line trigger
/// against the line that just arrived; a multi-line trigger, once the window
/// holds `lines_to_match` lines, against the last `lines_to_match` lines
/// joined by `\n`, so that (when it asks for at least one line) its subject
/// always ends with the line that just arrived.
pub proof fn law_trigger_subject_is_the_newest_lines(t: MushTrigger, w: Seq<Seq<char>>)
    requires
        w.len() > 0,
    ensures
        !t.is_multi_line ==> trigger_subject(t, w) == w.last(),
        t.is_multi_line && w.len() >= t.lines_to_match ==> trigger_subject(t, w) == join_lines(
            w.subrange(w.len() - t.lines_to_match, w.len() as int),
        ),
        t.is_multi_line && t.lines_to_match >= 1 ==> {
            let s = trigger_subject(t, w);
            &&& s.len() >= w.last().len()
            &&& s.skip(s.len() - w.last().len()) == w.last()
        },
{
    if t.is_multi_line && t.lines_to_match >= 1 {
        let start = if w.len() >= t.lines_to_match {
            w.len() - t.lines_to_match
        } else {
            0
        };
        let part = w.subrange(start, w.len() as int);
        assert(part.last() == w.last());
        lemma_join_lines_ends_with_last(part);
    }
}

} // verus!
