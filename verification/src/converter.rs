//! Conversion of a legacy MUSHclient XML plugin into a Lua script for the
//! world sandbox: triggers and aliases become `AddTriggerEx` / `AddAlias`
//! calls (nested `<send>` bodies become generated functions) and the
//! `<script>` blocks are copied after them.
//!
//! The scan finds its markers by position and cuts the text at fixed byte
//! distances from them, as the UTF-8 text it reads is laid out; a cut that
//! falls outside the text or inside a character makes the plugin malformed.

use vstd::prelude::*;
use crate::text::{
    chars_of, string_of, find, copy_range, contains_seq, replace_seq, trim_seq,
    trim_prefix_seq, first_occurrence, lemma_first_occurrence, contains, replace_all, trim, trim_prefix_all,
};
use crate::plugin::{attr_value, send_body, extract_attr, extract_send_node};

verus! {

/// Bytes that `c` takes in UTF-8 (std's `char::len_utf8`).
pub open spec fn utf8_width(c: char) -> int {
    let u = c as u32;
    if u < 0x80 {
        1
    } else if u < 0x800 {
        2
    } else if u < 0x10000 {
        3
    } else {
        4
    }
}

/// Bytes that `s` takes in UTF-8.
pub open spec fn utf8_len(s: Seq<char>) -> int
    decreases s.len(),
{
    if s.len() == 0 {
        0
    } else {
        utf8_width(s[0]) + utf8_len(s.drop_first())
    }
}

/// The character position `nbytes` UTF-8 bytes after position `e` of `s`;
/// `None` when that byte offset is past the end of `s` or inside a character.
pub open spec fn index_after_bytes(s: Seq<char>, e: int, nbytes: int) -> Option<int>
    decreases s.len() - e,
{
    if nbytes == 0 && 0 <= e <= s.len() {
        Some(e)
    } else if nbytes <= 0 || e < 0 || e >= s.len() {
        None
    } else {
        index_after_bytes(s, e + 1, nbytes - utf8_width(s[e]))
    }
}

pub proof fn lemma_index_after_bytes(s: Seq<char>, e: int, nbytes: int)
    ensures
        index_after_bytes(s, e, nbytes) matches Some(j) ==> e <= j <= s.len() && (nbytes > 0 ==> e < j),
    decreases s.len() - e,
{
    if !(nbytes == 0 && 0 <= e <= s.len()) && !(nbytes <= 0 || e < 0 || e >= s.len()) {
        lemma_index_after_bytes(s, e + 1, nbytes - utf8_width(s[e]));
    }
}

/// `c.len_utf8()`.
pub fn utf8_width_of(c: char) -> (w: usize)
    ensures
        w == utf8_width(c),
{
    let u = c as u32;
    if u < 0x80 {
        1
    } else if u < 0x800 {
        2
    } else if u < 0x10000 {
        3
    } else {
        4
    }
}

/// The position `nbytes` bytes after position `e`, as `index_after_bytes`.
pub fn index_after_bytes_exec(s: &[char], e: usize, nbytes: usize) -> (r: Option<usize>)
    requires
        e <= s.len(),
    ensures
        match r {
            Some(j) => index_after_bytes(s@, e as int, nbytes as int) == Some(j as int),
            None => index_after_bytes(s@, e as int, nbytes as int) is None,
        },
{
    let mut j = e;
    let mut left = nbytes;
    while left > 0 && j < s.len()
        invariant
            e <= j <= s.len(),
            index_after_bytes(s@, j as int, left as int) == index_after_bytes(s@, e as int, nbytes as int),
        decreases s.len() - j,
    {
        let w = utf8_width_of(s[j]);
        if w > left {
            assert(index_after_bytes(s@, j + 1, left - w) is None);
            return None;
        }
        left -= w;
        j += 1;
    }
    if left == 0 {
        Some(j)
    } else {
        None
    }
}

pub open spec fn digit_char(d: nat) -> char {
    if d == 0 {
        '0'
    } else if d == 1 {
        '1'
    } else if d == 2 {
        '2'
    } else if d == 3 {
        '3'
    } else if d == 4 {
        '4'
    } else if d == 5 {
        '5'
    } else if d == 6 {
        '6'
    } else if d == 7 {
        '7'
    } else if d == 8 {
        '8'
    } else {
        '9'
    }
}

/// Decimal digits of `n` (what `format!("{}", n)` writes).
pub open spec fn decimal(n: nat) -> Seq<char>
    decreases n,
{
    if n < 10 {
        seq![digit_char(n)]
    } else {
        decimal(n / 10).push(digit_char(n % 10))
    }
}

fn digit_of(d: usize) -> (c: char)
    requires
        d < 10,
    ensures
        c == digit_char(d as nat),
{
    if d == 0 {
        '0'
    } else if d == 1 {
        '1'
    } else if d == 2 {
        '2'
    } else if d == 3 {
        '3'
    } else if d == 4 {
        '4'
    } else if d == 5 {
        '5'
    } else if d == 6 {
        '6'
    } else if d == 7 {
        '7'
    } else if d == 8 {
        '8'
    } else {
        '9'
    }
}

/// `format!("{}", n)` as characters.
pub fn decimal_chars(n: usize) -> (r: Vec<char>)
    ensures
        r@ == decimal(n as nat),
    decreases n,
{
    if n < 10 {
        let r = vec![digit_of(n)];
        assert(r@ =~= seq![digit_char(n as nat)]);
        r
    } else {
        let mut r = decimal_chars(n / 10);
        r.push(digit_of(n % 10));
        r
    }
}

/// Repeated removal of a trailing `c` (std's `trim_end_matches` with a char).
pub open spec fn trim_suffix_all(s: Seq<char>, c: char) -> Seq<char>
    decreases s.len(),
{
    if s.len() > 0 && s.last() == c {
        trim_suffix_all(s.drop_last(), c)
    } else {
        s
    }
}

pub fn trim_suffix_chars(s: &[char], c: char) -> (r: Vec<char>)
    ensures
        r@ == trim_suffix_all(s@, c),
{
    let mut b = s.len();
    assert(s@.subrange(0, b as int) =~= s@);
    while b > 0 && s[b - 1] == c
        invariant
            b <= s.len(),
            trim_suffix_all(s@.subrange(0, b as int), c) == trim_suffix_all(s@, c),
        decreases b,
    {
        assert(s@.subrange(0, b as int).drop_last() =~= s@.subrange(0, b - 1));
        b -= 1;
    }
    crate::text::copy_range(s, 0, b)
}

/// `o`, or `d` when there is none.
pub open spec fn or_text(o: Option<Seq<char>>, d: Seq<char>) -> Seq<char> {
    match o {
        Some(v) => v,
        None => d,
    }
}

/// A `*` wildcard pattern in regex form (only when it has a `*`).
pub open spec fn wildcards_to_regex(m: Seq<char>) -> Seq<char> {
    if contains(m, seq!['*']) {
        replace_all(m, seq!['*'], seq!['(', '.', '*', ')'])
    } else {
        m
    }
}

/// The script name an element names (`script=`, else `response=`).
pub open spec fn named_script(chunk: Seq<char>) -> Seq<char> {
    match attr_value(chunk, "script="@) {
        Some(v) => v,
        None => or_text(attr_value(chunk, "response="@), seq![]),
    }
}

/// Lua text for one trigger element, and the generated-function counter after it.
#[verifier::opaque]
pub open spec fn trigger_entry(chunk: Seq<char>, counter: nat) -> (Seq<char>, nat) {
    let m = or_text(attr_value(chunk, "match="@), seq![]);
    let script0 = named_script(chunk);
    let sequence = or_text(attr_value(chunk, "sequence="@), "100"@);
    let multi = if contains(chunk, "multi_line=\"y\""@) {
        "true"@
    } else {
        "false"@
    };
    let lines = or_text(attr_value(chunk, "lines="@), "1"@);
    let generated: (Seq<char>, Seq<char>, nat) = if script0.len() == 0 {
        match send_body(chunk) {
            Some(inner) => {
                let name = "auto_generated_trig_func_"@ + decimal(counter + 1);
                ("function "@ + name + "()\n"@ + inner + "\nend\n\n"@, name, counter + 1)
            },
            None => (seq![], script0, counter),
        }
    } else {
        (seq![], script0, counter)
    };
    let script = generated.1;
    let registration = if m.len() > 0 && script.len() > 0 {
        let safe = replace_all(replace_all(wildcards_to_regex(m), seq!['['], seq!['\\', '[']), seq![']'], seq!['\\', ']']);
        "AddTriggerEx(\""@ + script + "\", \"^"@ + safe + "$\", \"script:"@ + script + "\", "@ + sequence
            + ", 0, 0, \"\", \"\", "@ + multi + ", "@ + lines + ")\n"@
    } else {
        seq![]
    };
    (generated.0 + registration, generated.2)
}

/// Lua text for one alias element, and the generated-function counter after it.
#[verifier::opaque]
pub open spec fn alias_entry(chunk: Seq<char>, counter: nat) -> (Seq<char>, nat) {
    let m = or_text(attr_value(chunk, "match="@), seq![]);
    let script0 = named_script(chunk);
    let sequence = or_text(attr_value(chunk, "sequence="@), "50"@);
    let generated: (Seq<char>, Seq<char>, nat) = if script0.len() == 0 {
        match send_body(chunk) {
            Some(inner) => {
                let name = "auto_generated_alias_func_"@ + decimal(counter + 1);
                ("function "@ + name + "()\n\n"@ + inner + "\n\nend\n\n"@, name, counter + 1)
            },
            None => (seq![], script0, counter),
        }
    } else {
        (seq![], script0, counter)
    };
    let script = generated.1;
    let registration = if m.len() > 0 && script.len() > 0 {
        let safe = trim_suffix_all(trim_prefix_all(wildcards_to_regex(m), seq!['^']), '$');
        "AddAlias(\""@ + script + "\", \"^"@ + safe + "$\", \"script:"@ + script + "\", "@ + sequence
            + ", \"\")\n"@
    } else {
        seq![]
    };
    (generated.0 + registration, generated.2)
}

pub open spec fn trigger_open() -> Seq<char> {
    seq!['<', 't', 'r', 'i', 'g', 'g', 'e', 'r']
}

pub open spec fn trigger_close() -> Seq<char> {
    seq!['<', '/', 't', 'r', 'i', 'g', 'g', 'e', 'r', '>']
}

pub open spec fn empty_tag_close() -> Seq<char> {
    seq!['/', '>']
}

pub open spec fn alias_open() -> Seq<char> {
    seq!['<', 'a', 'l', 'i', 'a', 's']
}

pub open spec fn alias_close() -> Seq<char> {
    seq!['<', '/', 'a', 'l', 'i', 'a', 's', '>']
}

pub open spec fn tag_end() -> Seq<char> {
    seq!['>']
}

pub open spec fn script_open() -> Seq<char> {
    seq!['<', 's', 'c', 'r', 'i', 'p', 't']
}

pub open spec fn script_close() -> Seq<char> {
    seq!['<', '/', 's', 'c', 'r', 'i', 'p', 't', '>']
}

/// The trigger elements of the text from `s` on: their Lua text and the
/// counter after them; `None` when a cut is malformed.
pub open spec fn trigger_pass(s: Seq<char>, counter: nat) -> Option<(Seq<char>, nat)>
    decreases s.len(),
{
    match first_occurrence(s, trigger_open()) {
        None => Some((seq![], counter)),
        Some(st) => {
            let rem = s.skip(st);
            let close = match first_occurrence(rem, trigger_close()) {
                Some(e) => Some(e),
                None => first_occurrence(rem, empty_tag_close()),
            };
            match close {
                None => Some((seq![], counter)),
                Some(e) => match index_after_bytes(rem, e, 10) {
                    None => None,
                    Some(j) => {
                        let entry = trigger_entry(rem.take(j), counter);
                        proof {
                            lemma_first_occurrence(s, trigger_open());
                            lemma_first_occurrence(rem, trigger_close());
                            lemma_first_occurrence(rem, empty_tag_close());
                            assert(0 <= e && e + 2 <= rem.len());
                            assert(rem.skip(e + 2).len() < s.len());
                        }
                        match trigger_pass(rem.skip(e + 2), entry.1) {
                            None => None,
                            Some(rest) => Some((entry.0 + rest.0, rest.1)),
                        }
                    },
                },
            }
        },
    }
}

/// Where the alias scan goes on: byte 10 of the element, or its close
/// marker when that lies further in.
pub open spec fn alias_resume(rem: Seq<char>, e: int) -> Option<int> {
    if utf8_len(rem.take(e)) >= 10 {
        Some(e)
    } else {
        index_after_bytes(rem, 0, 10)
    }
}

pub proof fn lemma_utf8_len_nonneg(s: Seq<char>)
    ensures
        utf8_len(s) >= 0,
        s.len() > 0 ==> utf8_len(s) > 0,
    decreases s.len(),
{
    if s.len() > 0 {
        lemma_utf8_len_nonneg(s.drop_first());
    }
}

/// The alias elements of the text from `s` on: their Lua text and the
/// counter after them; `None` when a cut is malformed.
pub open spec fn alias_pass(s: Seq<char>, counter: nat) -> Option<(Seq<char>, nat)>
    decreases s.len(),
{
    match first_occurrence(s, alias_open()) {
        None => Some((seq![], counter)),
        Some(st) => {
            let rem = s.skip(st);
            let e = match first_occurrence(rem, alias_close()) {
                Some(e) => e,
                None => match first_occurrence(rem, tag_end()) {
                    Some(e) => e,
                    None => 0,
                },
            };
            match index_after_bytes(rem, e, 8) {
                None => None,
                Some(j) => {
                    let entry = alias_entry(rem.take(j), counter);
                    match alias_resume(rem, e) {
                        None => None,
                        Some(k) => {
                            proof {
                                lemma_first_occurrence(s, alias_open());
                                lemma_first_occurrence(rem, alias_close());
                                lemma_first_occurrence(rem, tag_end());
                                lemma_index_after_bytes(rem, 0, 10);
                                lemma_utf8_len_nonneg(rem.take(e));
                                if e == 0 {
                                    assert(rem.take(e).len() == 0);
                                }
                            }
                            match alias_pass(rem.skip(k), entry.1) {
                                None => None,
                                Some(rest) => Some((entry.0 + rest.0, rest.1)),
                            }
                        },
                    }
                },
            }
        },
    }
}

/// The code of one `<script>` block (from just after `<script` up to
/// `</script>`): after the CDATA opener, or else after the first `>`,
/// without CDATA closers, trimmed, without leading byte order marks.
#[verifier::opaque]
pub open spec fn script_code(block: Seq<char>) -> Seq<char> {
    let pure = match first_occurrence(block, seq!['<', '!', '[', 'C', 'D', 'A', 'T', 'A', '[']) {
        Some(c) => block.skip(c + 9),
        None => match first_occurrence(block, tag_end()) {
            Some(t) => block.skip(t + 1),
            None => block,
        },
    };
    trim_prefix_all(trim(replace_all(pure, seq![']', ']', '>'], seq![])), seq!['\u{feff}'])
}

/// The script blocks of the text from `s` on, each followed by a blank line.
pub open spec fn script_pass(s: Seq<char>) -> Seq<char>
    decreases s.len(),
{
    match first_occurrence(s, script_open()) {
        None => seq![],
        Some(st) => {
            let rem = s.skip(st);
            match first_occurrence(rem, script_close()) {
                None => seq![],
                Some(e) => {
                    proof {
                        lemma_first_occurrence(s, script_open());
                        lemma_first_occurrence(rem, script_close());
                        assert(0 <= e && e + 9 <= rem.len());
                        assert(rem.skip(e + 9).len() < s.len());
                    }
                    script_code(rem.take(e)) + "\n\n"@ + script_pass(rem.skip(e + 9))
                },
            }
        },
    }
}

/// The banner at the top of a converted script.
pub open spec fn converted_banner() -> Seq<char> {
    "-- =====================================================================\n-- 🛰️ NexMUD 转换引擎：已自动将旧 XML 的嵌套 <send> 节点重构为标准的动态过程桩\n-- =====================================================================\n\n"@
}

/// The rule that separates the registrations from the script blocks.
pub open spec fn converted_separator() -> Seq<char> {
    "\n-- =====================================================================\n\n"@
}

/// The Lua script for a plugin, or `None` when its markup is malformed.
pub open spec fn plugin_lua(xml: Seq<char>) -> Option<Seq<char>> {
    match trigger_pass(xml, 0) {
        None => None,
        Some(t) => match alias_pass(xml, 0) {
            None => None,
            Some(a) => Some(
                trim(converted_banner() + t.0 + a.0 + converted_separator() + script_pass(xml)),
            ),
        },
    }
}

/// The plugin holds JScript or VBScript code, which cannot be converted.
pub open spec fn is_foreign_script(xml: Seq<char>) -> bool {
    contains(xml, "language=\"JScript\""@) || contains(xml, "language=\"VBScript\""@)
}

pub proof fn lemma_utf8_len_concat(a: Seq<char>, b: Seq<char>)
    ensures
        utf8_len(a + b) == utf8_len(a) + utf8_len(b),
    decreases a.len(),
{
    if a.len() > 0 {
        assert((a + b).drop_first() =~= a.drop_first() + b);
        lemma_utf8_len_concat(a.drop_first(), b);
    } else {
        assert(a + b =~= b);
    }
}

/// Does the text before position `e` take at least `n` bytes in UTF-8?
fn prefix_reaches_bytes(s: &[char], e: usize, n: usize) -> (b: bool)
    requires
        e <= s.len(),
        n <= 64,
    ensures
        b == (utf8_len(s@.take(e as int)) >= n),
{
    let mut i: usize = 0;
    let mut total: usize = 0;
    assert(s@.take(0) =~= seq![]);
    while i < e && total < n
        invariant
            i <= e <= s.len(),
            total == utf8_len(s@.take(i as int)),
            n <= 64,
            total <= n + 4,
        decreases e - i,
    {
        proof {
            lemma_utf8_len_concat(s@.take(i as int), seq![s@[i as int]]);
            assert(s@.take(i as int) + seq![s@[i as int]] =~= s@.take(i + 1));
            assert(utf8_len(seq![s@[i as int]]) == utf8_width(s@[i as int])) by {
                reveal_with_fuel(utf8_len, 2);
                assert(seq![s@[i as int]].drop_first() =~= Seq::<char>::empty());
            }
        }
        total = total + utf8_width_of(s[i]);
        i += 1;
    }
    if total >= n {
        proof {
            lemma_utf8_len_concat(s@.take(i as int), s@.subrange(i as int, e as int));
            assert(s@.take(i as int) + s@.subrange(i as int, e as int) =~= s@.take(e as int));
            lemma_utf8_len_nonneg(s@.subrange(i as int, e as int));
        }
        true
    } else {
        assert(i == e);
        false
    }
}

fn push_chars(out: &mut Vec<char>, s: &[char])
    ensures
        final(out)@ == old(out)@ + s@,
{
    let mut k: usize = 0;
    let ghost before = out@;
    while k < s.len()
        invariant
            k <= s.len(),
            out@ == before + s@.subrange(0, k as int),
        decreases s.len() - k,
    {
        out.push(s[k]);
        k += 1;
        assert(out@ =~= before + s@.subrange(0, k as int));
    }
    assert(s@.subrange(0, s.len() as int) =~= s@);
}

fn push_str(out: &mut Vec<char>, s: &str)
    ensures
        final(out)@ == old(out)@ + s@,
{
    let c = chars_of(s);
    push_chars(out, &c);
}

fn attr_chars(chunk: &[char], name: &str) -> (r: Option<Vec<char>>)
    ensures
        match r {
            Some(v) => attr_value(chunk@, name@) == Some(v@),
            None => attr_value(chunk@, name@) is None,
        },
{
    let t = string_of(chunk);
    match extract_attr(t.as_str(), name) {
        Some(v) => Some(chars_of(v.as_str())),
        None => None,
    }
}

fn attr_or(chunk: &[char], name: &str, default: &str) -> (r: Vec<char>)
    ensures
        r@ == or_text(attr_value(chunk@, name@), default@),
{
    match attr_chars(chunk, name) {
        Some(v) => v,
        None => chars_of(default),
    }
}

fn named_script_chars(chunk: &[char]) -> (r: Vec<char>)
    ensures
        r@ == named_script(chunk@),
{
    proof {
        reveal_strlit("");
    }
    match attr_chars(chunk, "script=") {
        Some(v) => v,
        None => attr_or(chunk, "response=", ""),
    }
}

fn send_body_chars(chunk: &[char]) -> (r: Option<Vec<char>>)
    ensures
        match r {
            Some(v) => send_body(chunk@) == Some(v@),
            None => send_body(chunk@) is None,
        },
{
    let t = string_of(chunk);
    match extract_send_node(t.as_str()) {
        Some(v) => Some(chars_of(v.as_str())),
        None => None,
    }
}

fn wildcards_to_regex_chars(m: &[char]) -> (r: Vec<char>)
    ensures
        r@ == wildcards_to_regex(m@),
{
    let star = vec!['*'];
    assert(star@ =~= seq!['*']);
    if contains_seq(m, &star) {
        let group = vec!['(', '.', '*', ')'];
        assert(group@ =~= seq!['(', '.', '*', ')']);
        replace_seq(m, &star, &group)
    } else {
        crate::text::copy_range(m, 0, m.len())
    }
}

/// The Lua text of a generated function and the name it got, for the
/// `<send>` body of an element that names no script.
fn generated_function(
    chunk: &[char],
    script0: Vec<char>,
    counter: usize,
    name_prefix: &str,
    open_body: &str,
    close_body: &str,
) -> (r: (Vec<char>, Vec<char>, usize))
    requires
        counter < usize::MAX,
    ensures
        ({
            let g: (Seq<char>, Seq<char>, nat) = if script0@.len() == 0 {
                match send_body(chunk@) {
                    Some(inner) => {
                        let name = name_prefix@ + decimal((counter + 1) as nat);
                        ("function "@ + name + open_body@ + inner + close_body@, name, (counter + 1) as nat)
                    },
                    None => (seq![], script0@, counter as nat),
                }
            } else {
                (seq![], script0@, counter as nat)
            };
            r.0@ == g.0 && r.1@ == g.1 && r.2 == g.2
        }),
        r.2 <= counter + 1,
{
    let mut text: Vec<char> = Vec::new();
    if script0.len() == 0 {
        match send_body_chars(chunk) {
            Some(inner) => {
                let c = counter + 1;
                let mut name = chars_of(name_prefix);
                let digits = decimal_chars(c);
                push_chars(&mut name, &digits);
                push_str(&mut text, "function ");
                push_chars(&mut text, &name);
                push_str(&mut text, open_body);
                push_chars(&mut text, &inner);
                push_str(&mut text, close_body);
                assert(text@ =~= "function "@ + name@ + open_body@ + inner@ + close_body@);
                (text, name, c)
            },
            None => {
                assert(text@ =~= seq![]);
                (text, script0, counter)
            },
        }
    } else {
        assert(text@ =~= seq![]);
        (text, script0, counter)
    }
}

/// Lua text for one trigger element, as `trigger_entry` says.
fn trigger_entry_exec(chunk: &[char], counter: usize) -> (r: (Vec<char>, usize))
    requires
        counter < usize::MAX,
    ensures
        r.0@ == trigger_entry(chunk@, counter as nat).0,
        r.1 == trigger_entry(chunk@, counter as nat).1,
        r.1 <= counter + 1,
{
    reveal(trigger_entry);
    let m = attr_or(chunk, "match=", "");
    assert(m@ == or_text(attr_value(chunk@, "match="@), seq![])) by {
        reveal_strlit("");
    }
    let script0 = named_script_chars(chunk);
    let sequence = attr_or(chunk, "sequence=", "100");
    let multi_marker = chars_of("multi_line=\"y\"");
    let multi = if contains_seq(chunk, &multi_marker) {
        chars_of("true")
    } else {
        chars_of("false")
    };
    let lines = attr_or(chunk, "lines=", "1");
    let (mut out, script, c) = generated_function(
        chunk,
        script0,
        counter,
        "auto_generated_trig_func_",
        "()\n",
        "\nend\n\n",
    );
    let ghost head = out@;
    if m.len() > 0 && script.len() > 0 {
        let w = wildcards_to_regex_chars(&m);
        let open_bracket = vec!['['];
        let esc_open = vec!['\\', '['];
        let close_bracket = vec![']'];
        let esc_close = vec!['\\', ']'];
        assert(open_bracket@ =~= seq!['[']);
        assert(esc_open@ =~= seq!['\\', '[']);
        assert(close_bracket@ =~= seq![']']);
        assert(esc_close@ =~= seq!['\\', ']']);
        let a = replace_seq(&w, &open_bracket, &esc_open);
        let safe = replace_seq(&a, &close_bracket, &esc_close);
        push_str(&mut out, "AddTriggerEx(\"");
        push_chars(&mut out, &script);
        push_str(&mut out, "\", \"^");
        push_chars(&mut out, &safe);
        push_str(&mut out, "$\", \"script:");
        push_chars(&mut out, &script);
        push_str(&mut out, "\", ");
        push_chars(&mut out, &sequence);
        push_str(&mut out, ", 0, 0, \"\", \"\", ");
        push_chars(&mut out, &multi);
        push_str(&mut out, ", ");
        push_chars(&mut out, &lines);
        push_str(&mut out, ")\n");
        assert(out@ =~= head + ("AddTriggerEx(\""@ + script@ + "\", \"^"@ + safe@ + "$\", \"script:"@ + script@
            + "\", "@ + sequence@ + ", 0, 0, \"\", \"\", "@ + multi@ + ", "@ + lines@ + ")\n"@));
    } else {
        assert(out@ =~= head + seq![]);
    }
    (out, c)
}

/// Lua text for one alias element, as `alias_entry` says.
fn alias_entry_exec(chunk: &[char], counter: usize) -> (r: (Vec<char>, usize))
    requires
        counter < usize::MAX,
    ensures
        r.0@ == alias_entry(chunk@, counter as nat).0,
        r.1 == alias_entry(chunk@, counter as nat).1,
        r.1 <= counter + 1,
{
    reveal(alias_entry);
    let m = attr_or(chunk, "match=", "");
    assert(m@ == or_text(attr_value(chunk@, "match="@), seq![])) by {
        reveal_strlit("");
    }
    let script0 = named_script_chars(chunk);
    let sequence = attr_or(chunk, "sequence=", "50");
    let (mut out, script, c) = generated_function(
        chunk,
        script0,
        counter,
        "auto_generated_alias_func_",
        "()\n\n",
        "\n\nend\n\n",
    );
    let ghost head = out@;
    if m.len() > 0 && script.len() > 0 {
        let w = wildcards_to_regex_chars(&m);
        let caret = vec!['^'];
        assert(caret@ =~= seq!['^']);
        let a = trim_prefix_seq(&w, &caret);
        let safe = trim_suffix_chars(&a, '$');
        push_str(&mut out, "AddAlias(\"");
        push_chars(&mut out, &script);
        push_str(&mut out, "\", \"^");
        push_chars(&mut out, &safe);
        push_str(&mut out, "$\", \"script:");
        push_chars(&mut out, &script);
        push_str(&mut out, "\", ");
        push_chars(&mut out, &sequence);
        push_str(&mut out, ", \"\")\n");
        assert(out@ =~= head + ("AddAlias(\""@ + script@ + "\", \"^"@ + safe@ + "$\", \"script:"@ + script@
            + "\", "@ + sequence@ + ", \"\")\n"@));
    } else {
        assert(out@ =~= head + seq![]);
    }
    (out, c)
}

/// The trigger elements of `xml`, as `trigger_pass(xml, 0)`; `None` when a
/// cut is malformed.
fn run_trigger_pass(xml: &[char]) -> (r: Option<Vec<char>>)
    ensures
        match r {
            Some(v) => trigger_pass(xml@, 0) matches Some(t) && t.0 == v@,
            None => trigger_pass(xml@, 0) is None,
        },
{
    let open = vec!['<', 't', 'r', 'i', 'g', 'g', 'e', 'r'];
    let close = vec!['<', '/', 't', 'r', 'i', 'g', 'g', 'e', 'r', '>'];
    let empty_close = vec!['/', '>'];
    assert(open@ =~= trigger_open());
    assert(close@ =~= trigger_close());
    assert(empty_close@ =~= empty_tag_close());
    let mut s = crate::text::copy_range(xml, 0, xml.len());
    assert(s@ =~= xml@);
    let mut out: Vec<char> = Vec::new();
    let mut counter: usize = 0;
    assert(out@ + seq![] =~= out@);
    loop
        invariant
            open@ == trigger_open(),
            close@ == trigger_close(),
            empty_close@ == empty_tag_close(),
            counter + s@.len() <= xml@.len(),
            trigger_pass(xml@, 0) == (match trigger_pass(s@, counter as nat) {
                None => None,
                Some(rest) => Some((out@ + rest.0, rest.1)),
            }),
        decreases s@.len(),
    {
        proof {
            lemma_first_occurrence(s@, trigger_open());
        }
        let st = match find(&s, &open) {
            None => {
                assert(trigger_pass(s@, counter as nat) == Some((Seq::<char>::empty(), counter as nat)));
                assert(out@ + seq![] =~= out@);
                return Some(out);
            },
            Some(st) => st,
        };
        let rem = crate::text::copy_range(&s, st, s.len());
        assert(rem@ =~= s@.skip(st as int));
        proof {
            lemma_first_occurrence(rem@, trigger_close());
            lemma_first_occurrence(rem@, empty_tag_close());
        }
        let e = match find(&rem, &close) {
            Some(e) => e,
            None => match find(&rem, &empty_close) {
                Some(e) => e,
                None => {
                    assert(trigger_pass(s@, counter as nat) == Some((Seq::<char>::empty(), counter as nat)));
                    assert(out@ + seq![] =~= out@);
                    return Some(out);
                },
            },
        };
        let j = match index_after_bytes_exec(&rem, e, 10) {
            None => {
                assert(trigger_pass(s@, counter as nat) is None);
                return None;
            },
            Some(j) => j,
        };
        proof {
            lemma_index_after_bytes(rem@, e as int, 10);
        }
        let chunk = crate::text::copy_range(&rem, 0, j);
        assert(chunk@ =~= rem@.take(j as int));
        assert(st + 8 <= s@.len());
        let xlen = xml.len();
        assert(counter < xlen);
        let (text, c2) = trigger_entry_exec(&chunk, counter);
        let ghost before = out@;
        push_chars(&mut out, &text);
        counter = c2;
        let next = crate::text::copy_range(&rem, e + 2, rem.len());
        assert(next@ =~= rem@.skip(e + 2));
        proof {
            let rest = trigger_pass(next@, counter as nat);
            if let Some(r) = rest {
                let tail = r.0;
                assert(before + (text@ + tail) =~= out@ + tail);
            }
        }
        s = next;
    }
}

/// The alias elements of `xml`, as `alias_pass(xml, 0)`; `None` when a cut
/// is malformed.
fn run_alias_pass(xml: &[char]) -> (r: Option<Vec<char>>)
    ensures
        match r {
            Some(v) => alias_pass(xml@, 0) matches Some(t) && t.0 == v@,
            None => alias_pass(xml@, 0) is None,
        },
{
    let open = vec!['<', 'a', 'l', 'i', 'a', 's'];
    let close = vec!['<', '/', 'a', 'l', 'i', 'a', 's', '>'];
    let gt = vec!['>'];
    assert(open@ =~= alias_open());
    assert(close@ =~= alias_close());
    assert(gt@ =~= tag_end());
    let mut s = crate::text::copy_range(xml, 0, xml.len());
    assert(s@ =~= xml@);
    let mut out: Vec<char> = Vec::new();
    let mut counter: usize = 0;
    assert(out@ + seq![] =~= out@);
    loop
        invariant
            open@ == alias_open(),
            close@ == alias_close(),
            gt@ == tag_end(),
            counter + s@.len() <= xml@.len(),
            alias_pass(xml@, 0) == (match alias_pass(s@, counter as nat) {
                None => None,
                Some(rest) => Some((out@ + rest.0, rest.1)),
            }),
        decreases s@.len(),
    {
        proof {
            lemma_first_occurrence(s@, alias_open());
        }
        let st = match find(&s, &open) {
            None => {
                assert(alias_pass(s@, counter as nat) == Some((Seq::<char>::empty(), counter as nat)));
                assert(out@ + seq![] =~= out@);
                return Some(out);
            },
            Some(st) => st,
        };
        let rem = crate::text::copy_range(&s, st, s.len());
        assert(rem@ =~= s@.skip(st as int));
        proof {
            lemma_first_occurrence(rem@, alias_close());
            lemma_first_occurrence(rem@, tag_end());
        }
        let e = match find(&rem, &close) {
            Some(e) => e,
            None => match find(&rem, &gt) {
                Some(e) => e,
                None => 0,
            },
        };
        let j = match index_after_bytes_exec(&rem, e, 8) {
            None => {
                assert(alias_pass(s@, counter as nat) is None);
                return None;
            },
            Some(j) => j,
        };
        proof {
            lemma_index_after_bytes(rem@, e as int, 8);
            lemma_index_after_bytes(rem@, 0, 10);
            lemma_utf8_len_nonneg(rem@.take(e as int));
            if e == 0 {
                assert(rem@.take(e as int).len() == 0);
            }
        }
        let chunk = crate::text::copy_range(&rem, 0, j);
        assert(chunk@ =~= rem@.take(j as int));
        assert(st + 6 <= s@.len());
        let xlen = xml.len();
        assert(counter < xlen);
        let (text, c2) = alias_entry_exec(&chunk, counter);
        let k = if prefix_reaches_bytes(&rem, e, 10) {
            e
        } else {
            match index_after_bytes_exec(&rem, 0, 10) {
                None => {
                    assert(alias_resume(rem@, e as int) is None);
                    assert(alias_pass(s@, counter as nat) is None);
                    return None;
                },
                Some(k) => k,
            }
        };
        let ghost before = out@;
        push_chars(&mut out, &text);
        counter = c2;
        let next = crate::text::copy_range(&rem, k, rem.len());
        assert(next@ =~= rem@.skip(k as int));
        proof {
            let rest = alias_pass(next@, counter as nat);
            if let Some(r) = rest {
                let tail = r.0;
                assert(before + (text@ + tail) =~= out@ + tail);
            }
        }
        s = next;
    }
}

/// The code of one script block, as `script_code` says.
fn script_code_exec(block: &[char]) -> (r: Vec<char>)
    ensures
        r@ == script_code(block@),
{
    reveal(script_code);
    let cdata = vec!['<', '!', '[', 'C', 'D', 'A', 'T', 'A', '['];
    let gt = vec!['>'];
    let cdata_end = vec![']', ']', '>'];
    let bom = vec!['\u{feff}'];
    let nothing: Vec<char> = Vec::new();
    assert(cdata@ =~= seq!['<', '!', '[', 'C', 'D', 'A', 'T', 'A', '[']);
    assert(gt@ =~= tag_end());
    assert(cdata_end@ =~= seq![']', ']', '>']);
    assert(bom@ =~= seq!['\u{feff}']);
    assert(nothing@ =~= seq![]);
    proof {
        lemma_first_occurrence(block@, cdata@);
        lemma_first_occurrence(block@, tag_end());
    }
    let pure = match find(block, &cdata) {
        Some(c) => {
            let blen = block.len();
            assert(c + 9 <= blen);
            crate::text::copy_range(block, c + 9, blen)
        },
        None => match find(block, &gt) {
            Some(t) => {
                let blen = block.len();
                assert(t + 1 <= blen);
                crate::text::copy_range(block, t + 1, blen)
            },
            None => crate::text::copy_range(block, 0, block.len()),
        },
    };
    assert(block@.subrange(0, block@.len() as int) =~= block@);
    proof {
        if let Some(c) = first_occurrence(block@, cdata@) {
            assert(block@.subrange(c + 9, block@.len() as int) =~= block@.skip(c + 9));
        } else if let Some(t) = first_occurrence(block@, tag_end()) {
            assert(block@.subrange(t + 1, block@.len() as int) =~= block@.skip(t + 1));
        }
    }
    let cleaned = replace_seq(&pure, &cdata_end, &nothing);
    let trimmed = trim_seq(&cleaned);
    trim_prefix_seq(&trimmed, &bom)
}

/// The script blocks of `xml`, as `script_pass(xml)`.
fn run_script_pass(xml: &[char]) -> (r: Vec<char>)
    ensures
        r@ == script_pass(xml@),
{
    let open = vec!['<', 's', 'c', 'r', 'i', 'p', 't'];
    let close = vec!['<', '/', 's', 'c', 'r', 'i', 'p', 't', '>'];
    assert(open@ =~= script_open());
    assert(close@ =~= script_close());
    let mut s = crate::text::copy_range(xml, 0, xml.len());
    assert(s@ =~= xml@);
    let mut out: Vec<char> = Vec::new();
    assert(out@ + script_pass(s@) =~= script_pass(xml@));
    loop
        invariant
            open@ == script_open(),
            close@ == script_close(),
            out@ + script_pass(s@) == script_pass(xml@),
        decreases s@.len(),
    {
        proof {
            lemma_first_occurrence(s@, script_open());
        }
        let st = match find(&s, &open) {
            None => {
                assert(out@ + seq![] =~= out@);
                return out;
            },
            Some(st) => st,
        };
        let rem = crate::text::copy_range(&s, st, s.len());
        assert(rem@ =~= s@.skip(st as int));
        proof {
            lemma_first_occurrence(rem@, script_close());
        }
        let e = match find(&rem, &close) {
            None => {
                assert(out@ + seq![] =~= out@);
                return out;
            },
            Some(e) => e,
        };
        let block = crate::text::copy_range(&rem, 0, e);
        assert(block@ =~= rem@.take(e as int));
        let code = script_code_exec(&block);
        let ghost before = out@;
        push_chars(&mut out, &code);
        push_str(&mut out, "\n\n");
        let next = crate::text::copy_range(&rem, e + 9, rem.len());
        assert(next@ =~= rem@.skip(e + 9));
        assert(before + (code@ + "\n\n"@ + script_pass(next@)) =~= out@ + script_pass(next@));
        s = next;
    }
}

/// What becomes of a plugin.
#[derive(Debug)]
pub enum PluginConversion {
    /// The Lua script for the plugin.
    Converted(String),
    /// The plugin holds JScript or VBScript code and is left alone.
    NonLuaScript,
    /// An element ends too close to the end of the text, or a cut falls
    /// inside a character.
    MalformedMarkup,
}

/// Convert the text of a MUSHclient XML plugin into a Lua script.
pub fn convert_plugin(xml: &str) -> (r: PluginConversion)
    ensures
        is_foreign_script(xml@) ==> r is NonLuaScript,
        !is_foreign_script(xml@) ==> match plugin_lua(xml@) {
            None => r is MalformedMarkup,
            Some(lua) => r matches PluginConversion::Converted(s) && s@ == lua,
        },
{
    let x = chars_of(xml);
    let jscript = chars_of("language=\"JScript\"");
    let vbscript = chars_of("language=\"VBScript\"");
    if contains_seq(&x, &jscript) || contains_seq(&x, &vbscript) {
        return PluginConversion::NonLuaScript;
    }
    let triggers = match run_trigger_pass(&x) {
        None => {
            return PluginConversion::MalformedMarkup;
        },
        Some(t) => t,
    };
    let aliases = match run_alias_pass(&x) {
        None => {
            return PluginConversion::MalformedMarkup;
        },
        Some(a) => a,
    };
    let scripts = run_script_pass(&x);
    let mut out = chars_of(
        "-- =====================================================================\n-- 🛰️ NexMUD 转换引擎：已自动将旧 XML 的嵌套 <send> 节点重构为标准的动态过程桩\n-- =====================================================================\n\n",
    );
    push_chars(&mut out, &triggers);
    push_chars(&mut out, &aliases);
    push_str(&mut out, "\n-- =====================================================================\n\n");
    push_chars(&mut out, &scripts);
    PluginConversion::Converted(string_of(&trim_seq(&out)))
}

/// The number a string of decimal digits stands for.
pub open spec fn decimal_value(s: Seq<char>) -> int
    decreases s.len(),
{
    if s.len() == 0 {
        0
    } else {
        decimal_value(s.drop_last()) * 10 + (s.last() as int - '0' as int)
    }
}

proof fn lemma_digit_char_value(d: nat)
    requires
        d < 10,
    ensures
        digit_char(d) as int - '0' as int == d,
{
    assert('0' as int == 48);
    if d == 0 {
    } else if d == 1 {
        assert('1' as int == 49);
    } else if d == 2 {
        assert('2' as int == 50);
    } else if d == 3 {
        assert('3' as int == 51);
    } else if d == 4 {
        assert('4' as int == 52);
    } else if d == 5 {
        assert('5' as int == 53);
    } else if d == 6 {
        assert('6' as int == 54);
    } else if d == 7 {
        assert('7' as int == 55);
    } else if d == 8 {
        assert('8' as int == 56);
    } else {
        assert('9' as int == 57);
    }
}

proof fn lemma_decimal_value(n: nat)
    ensures
        decimal_value(decimal(n)) == n,
    decreases n,
{
    let d = decimal(n);
    if n < 10 {
        lemma_digit_char_value(n);
        assert(d.drop_last() =~= Seq::<char>::empty());
        assert(decimal_value(Seq::<char>::empty()) == 0);
        assert(decimal_value(d) == decimal_value(d.drop_last()) * 10 + (d.last() as int - '0' as int));
    } else {
        lemma_decimal_value(n / 10);
        lemma_digit_char_value(n % 10);
        assert(d.drop_last() =~= decimal(n / 10));
        assert(d.last() == digit_char(n % 10));
        assert(decimal_value(d) == decimal_value(d.drop_last()) * 10 + (d.last() as int - '0' as int));
        assert((n / 10) * 10 + n % 10 == n);
    }
}

/// Different counters give different decimal names.
pub proof fn law_decimal_names_are_distinct(a: nat, b: nat)
    requires
        a != b,
    ensures
        decimal(a) != decimal(b),
{
    lemma_decimal_value(a);
    lemma_decimal_value(b);
}

/// A trigger element that names no script (`script=` / `response=`) but has
/// a `<send>` body gets a generated function of its own: its Lua text starts
/// by defining `auto_generated_trig_func_<c + 1>` and the counter moves on by
/// one, so the n-th such element is named by n. Any other element leaves the
/// counter as it was.
pub proof fn law_generated_trigger_functions_are_numbered(chunk: Seq<char>, c: nat)
    ensures
        named_script(chunk).len() == 0 && send_body(chunk) is Some ==> {
            let name = "auto_generated_trig_func_"@ + decimal(c + 1);
            let head = "function "@ + name + "()\n"@;
            &&& trigger_entry(chunk, c).1 == c + 1
            &&& trigger_entry(chunk, c).0.len() >= head.len()
            &&& trigger_entry(chunk, c).0.take(head.len() as int) == head
        },
        !(named_script(chunk).len() == 0 && send_body(chunk) is Some) ==> trigger_entry(chunk, c).1 == c,
{
    reveal(trigger_entry);
    if named_script(chunk).len() == 0 && send_body(chunk) is Some {
        let name = "auto_generated_trig_func_"@ + decimal(c + 1);
        let head = "function "@ + name + "()\n"@;
        let e = trigger_entry(chunk, c).0;
        let inner = send_body(chunk)->0;
        let def = "function "@ + name + "()\n"@ + inner + "\nend\n\n"@;
        assert(e == def + (e.skip(def.len() as int))) by {
            assert(e.take(def.len() as int) =~= def);
            assert(e =~= e.take(def.len() as int) + e.skip(def.len() as int));
        }
        assert(e.take(head.len() as int) =~= head);
    }
}

/// The same for alias elements: a generated `auto_generated_alias_func_<c + 1>`
/// and the counter moved on by one, or the counter unchanged.
pub proof fn law_generated_alias_functions_are_numbered(chunk: Seq<char>, c: nat)
    ensures
        named_script(chunk).len() == 0 && send_body(chunk) is Some ==> {
            let name = "auto_generated_alias_func_"@ + decimal(c + 1);
            let head = "function "@ + name + "()\n"@;
            &&& alias_entry(chunk, c).1 == c + 1
            &&& alias_entry(chunk, c).0.len() >= head.len()
            &&& alias_entry(chunk, c).0.take(head.len() as int) == head
        },
        !(named_script(chunk).len() == 0 && send_body(chunk) is Some) ==> alias_entry(chunk, c).1 == c,
{
    reveal(alias_entry);
    if named_script(chunk).len() == 0 && send_body(chunk) is Some {
        let name = "auto_generated_alias_func_"@ + decimal(c + 1);
        let head = "function "@ + name + "()\n"@;
        let e = alias_entry(chunk, c).0;
        let inner = send_body(chunk)->0;
        let def = "function "@ + name + "()\n\n"@ + inner + "\n\nend\n\n"@;
        assert(e == def + (e.skip(def.len() as int))) by {
            assert(e.take(def.len() as int) =~= def);
            assert(e =~= e.take(def.len() as int) + e.skip(def.len() as int));
        }
        reveal_strlit("()\n");
        reveal_strlit("()\n\n");
        reveal_strlit("\n");
        assert("()\n\n"@ =~= "()\n"@ + "\n"@);
        assert(def =~= head + ("\n"@ + inner + "\n\nend\n\n"@));
        assert(e.take(head.len() as int) =~= head);
    }
}

} // verus!
