//! Reading legacy MUSHclient XML plugins: attribute values and `<send>`
//! bodies of trigger and alias elements.

use vstd::prelude::*;
use crate::text::{
    matches_at, chars_of, string_of, find, copy_range, replace_seq, trim_seq, first_occurrence, occurs_at,
    replace_all, trim,
};

verus! {

/// XML white space.
pub open spec fn is_xml_space(c: char) -> bool {
    c == ' ' || c == '\t' || c == '\n' || c == '\r'
}

/// `attr_name` stands at position `i` of `tag` as a whole attribute name:
/// it occurs there, and begins the tag or follows white space (so `match=`
/// is not found inside `lines_to_match=`).
pub open spec fn attr_name_at(tag: Seq<char>, attr_name: Seq<char>, i: int) -> bool {
    occurs_at(tag, attr_name, i) && (i == 0 || is_xml_space(tag[i - 1]))
}

/// The first position at or after `i` where `attr_name` stands as a whole
/// attribute name.
pub open spec fn attr_position_from(tag: Seq<char>, attr_name: Seq<char>, i: int) -> Option<int>
    decreases tag.len() - i,
{
    if i < 0 || i > tag.len() {
        None
    } else if attr_name_at(tag, attr_name, i) {
        Some(i)
    } else if i == tag.len() {
        None
    } else {
        attr_position_from(tag, attr_name, i + 1)
    }
}

/// The quoted value of the first attribute named `attr_name` (which
/// includes the `=`): the text up to the matching quote, `"` or `'`.
pub open spec fn attr_value(tag: Seq<char>, attr_name: Seq<char>) -> Option<Seq<char>> {
    match attr_position_from(tag, attr_name, 0) {
        None => None,
        Some(st) => {
            let rem = tag.skip(st + attr_name.len());
            if rem.len() > 0 && (rem[0] == '"' || rem[0] == '\'') {
                let sub = rem.drop_first();
                match first_occurrence(sub, seq![rem[0]]) {
                    Some(e) => Some(sub.take(e)),
                    None => None,
                }
            } else {
                None
            }
        },
    }
}

proof fn lemma_attr_position(tag: Seq<char>, attr_name: Seq<char>, i: int)
    requires
        0 <= i <= tag.len(),
    ensures
        attr_position_from(tag, attr_name, i) matches Some(k) ==> i <= k && attr_name_at(tag, attr_name, k),
    decreases tag.len() - i,
{
    if !attr_name_at(tag, attr_name, i) && i < tag.len() {
        lemma_attr_position(tag, attr_name, i + 1);
    }
}

/// Position of the first whole attribute name `a` in `t`.
fn find_attr_name(t: &Vec<char>, a: &Vec<char>) -> (r: Option<usize>)
    ensures
        match r {
            Some(k) => attr_position_from(t@, a@, 0) == Some(k as int),
            None => attr_position_from(t@, a@, 0) is None,
        },
{
    let n = t.len();
    let mut i: usize = 0;
    while i <= n
        invariant
            n == t@.len(),
            attr_position_from(t@, a@, 0) == attr_position_from(t@, a@, i as int),
        decreases n + 1 - i,
    {
        let at = matches_at(t.as_slice(), a.as_slice(), i) && (i == 0 || {
            let c = t[i - 1];
            c == ' ' || c == '\t' || c == '\n' || c == '\r'
        });
        if at {
            return Some(i);
        }
        if i == n {
            return None;
        }
        i += 1;
    }
    None
}

pub open spec fn send_open() -> Seq<char> {
    seq!['<', 's', 'e', 'n', 'd', '>']
}

pub open spec fn send_close() -> Seq<char> {
    seq!['<', '/', 's', 'e', 'n', 'd', '>']
}

pub open spec fn cdata_open() -> Seq<char> {
    seq!['<', '!', '[', 'C', 'D', 'A', 'T', 'A', '[']
}

pub open spec fn cdata_close() -> Seq<char> {
    seq![']', ']', '>']
}

/// The body between the first `<send>` and the first `</send>` after it,
/// without CDATA markers, trimmed.
pub open spec fn send_body(chunk: Seq<char>) -> Option<Seq<char>> {
    match (first_occurrence(chunk, send_open()), first_occurrence(chunk, send_close())) {
        (Some(s), Some(e)) => if s < e {
            Some(
                trim(
                    replace_all(
                        replace_all(chunk.subrange(s + 6, e), cdata_open(), seq![]),
                        cdata_close(),
                        seq![],
                    ),
                ),
            )
        } else {
            None
        },
        _ => None,
    }
}

/// The value of attribute `attr_name` (given with its `=`) in `tag`.
pub fn extract_attr(tag: &str, attr_name: &str) -> (r: Option<String>)
    ensures
        match r {
            Some(v) => attr_value(tag@, attr_name@) == Some(v@),
            None => attr_value(tag@, attr_name@) is None,
        },
{
    let t = chars_of(tag);
    let a = chars_of(attr_name);
    match find_attr_name(&t, &a) {
        None => None,
        Some(start) => {
            proof {
                lemma_attr_position(t@, a@, 0);
            }
            assert(occurs_at(t@, a@, start as int));
            let alen = a.len();
            let tlen = t.len();
            assert(start + alen <= tlen);
            let rem = copy_range(&t, start + alen, tlen);
            assert(rem@ =~= t@.skip(start + a@.len()));
            if rem.len() == 0 {
                return None;
            }
            let quote = rem[0];
            if quote == '"' || quote == '\'' {
                let sub = copy_range(&rem, 1, rem.len());
                assert(sub@ =~= rem@.drop_first());
                let q = vec![quote];
                assert(q@ =~= seq![quote]);
                match find(&sub, &q) {
                    Some(end) => {
                        let v = copy_range(&sub, 0, end);
                        assert(v@ =~= sub@.take(end as int));
                        Some(string_of(&v))
                    },
                    None => None,
                }
            } else {
                None
            }
        },
    }
}

/// The `<send>` body of a trigger or alias element, if it has one.
pub fn extract_send_node(chunk: &str) -> (r: Option<String>)
    ensures
        match r {
            Some(v) => send_body(chunk@) == Some(v@),
            None => send_body(chunk@) is None,
        },
{
    let c = chars_of(chunk);
    let open = vec!['<', 's', 'e', 'n', 'd', '>'];
    let close = vec!['<', '/', 's', 'e', 'n', 'd', '>'];
    assert(open@ =~= send_open());
    assert(close@ =~= send_close());
    match find(&c, &open) {
        None => None,
        Some(start) => match find(&c, &close) {
            None => None,
            Some(end) => {
                if start < end {
                    assert(start + 6 <= end) by {
                        if end < start + 6 {
                            assert(c@.subrange(start as int, start + 6)[end - start] == c@[end as int]);
                            assert(c@.subrange(end as int, end + 7)[0] == c@[end as int]);
                        }
                    }
                    let inner = copy_range(&c, start + 6, end);
                    let cd_open = vec!['<', '!', '[', 'C', 'D', 'A', 'T', 'A', '['];
                    let cd_close = vec![']', ']', '>'];
                    let nothing: Vec<char> = Vec::new();
                    assert(cd_open@ =~= cdata_open());
                    assert(cd_close@ =~= cdata_close());
                    assert(nothing@ =~= seq![]);
                    let a = replace_seq(&inner, &cd_open, &nothing);
                    let b = replace_seq(&a, &cd_close, &nothing);
                    Some(string_of(&trim_seq(&b)))
                } else {
                    None
                }
            },
        },
    }
}

} // verus!
