//! Telnet option negotiation (RFC 854), MCCP v2 decompression and GMCP
//! sub-negotiation extraction for the bytes that a MUD server sends.

use vstd::prelude::*;
use vstd::utf8::{valid_utf8, decode_utf8, encode_utf8, is_ascii_chars, is_ascii_chars_encode_utf8, encode_utf8_valid_utf8, encode_utf8_decode_utf8};
use vstd::slice::slice_to_vec;
use crate::codec::{network_decoded, decode_network_bytes, utf8_decode};
use crate::inflate::{MccpInflater, zlib_inflated_prefix, zlib_accepts};
use crate::text::{
    chars_of, string_of, find, trim_seq, copy_range, contains_seq, replace_seq, first_occurrence, occurs_at,
    contains, replace_all, trim,
};

verus! {

/// Interpret As Command.
pub const IAC: u8 = 255;
/// Sub-negotiation begin.
pub const SB: u8 = 250;
/// Sub-negotiation end.
pub const SE: u8 = 240;
pub const WILL: u8 = 251;
pub const WONT: u8 = 252;
pub const DO: u8 = 253;
pub const DONT: u8 = 254;
/// MUD Client Compression Protocol v2.
pub const TELOPT_MCCP2: u8 = 86;
/// Generic MUD Communication Protocol.
pub const TELOPT_GMCP: u8 = 201;

/// The answer of a client that accepts no option: `DO x` is answered
/// `WONT x`, `WILL x` is answered `DONT x`, any other command gets no answer.
pub open spec fn refusal_reply(command: u8, option: u8) -> Seq<u8> {
    if command == DO {
        seq![IAC, WONT, option]
    } else if command == WILL {
        seq![IAC, DONT, option]
    } else {
        seq![]
    }
}

/// The commands that carry an option byte (RFC 854): `WILL`, `WONT`, `DO`,
/// `DONT` and `SB`. Every other command (`GA`, `NOP`, `SE`, ...) is two
/// bytes, `IAC` and the command.
pub open spec fn takes_option(command: u8) -> bool {
    command == WILL || command == WONT || command == DO || command == DONT || command == SB
}

/// `IAC` and a two-byte command start at `i`.
pub open spec fn two_byte_command_at(raw: Seq<u8>, i: int) -> bool {
    raw[i] == IAC && i + 1 < raw.len() && !takes_option(raw[i + 1])
}

/// Scan of `raw` from position `i` by a refusing client: the data bytes that
/// remain, and the replies owed to the server. A two-byte command is
/// skipped; any other `IAC` that still has two bytes after it starts a
/// three-byte command; any other byte is data.
pub open spec fn refusal_scan(raw: Seq<u8>, i: int) -> (Seq<u8>, Seq<u8>)
    decreases raw.len() - i,
{
    if i < 0 || i >= raw.len() {
        (seq![], seq![])
    } else if two_byte_command_at(raw, i) {
        refusal_scan(raw, i + 2)
    } else if raw[i] == IAC && i + 2 < raw.len() {
        let rest = refusal_scan(raw, i + 3);
        (rest.0, refusal_reply(raw[i + 1], raw[i + 2]) + rest.1)
    } else {
        let rest = refusal_scan(raw, i + 1);
        (seq![raw[i]] + rest.0, rest.1)
    }
}

/// Strip the three-byte telnet commands out of `raw`, refusing every option
/// the server offers or asks for. Returns the data bytes and the reply bytes.
pub fn refuse_negotiations(raw: &[u8]) -> (res: (Vec<u8>, Vec<u8>))
    ensures
        res.0@ == refusal_scan(raw@, 0).0,
        res.1@ == refusal_scan(raw@, 0).1,
{
    let n = raw.len();
    let mut clean: Vec<u8> = Vec::new();
    let mut replies: Vec<u8> = Vec::new();
    let mut i: usize = 0;
    while i < n
        invariant
            n == raw@.len(),
            i <= n,
            clean@ + refusal_scan(raw@, i as int).0 == refusal_scan(raw@, 0).0,
            replies@ + refusal_scan(raw@, i as int).1 == refusal_scan(raw@, 0).1,
        decreases n - i,
    {
        if raw[i] == IAC && n - i > 1 && !(raw[i + 1] == WILL || raw[i + 1] == WONT || raw[i + 1] == DO
            || raw[i + 1] == DONT || raw[i + 1] == SB) {
            i += 2;
        } else if raw[i] == IAC && n - i > 2 {
            let command = raw[i + 1];
            let option = raw[i + 2];
            let ghost before = replies@;
            if command == DO {
                replies.push(IAC);
                replies.push(WONT);
                replies.push(option);
            } else if command == WILL {
                replies.push(IAC);
                replies.push(DONT);
                replies.push(option);
            }
            assert(replies@ == before + refusal_reply(command, option));
            assert(before + refusal_scan(raw@, i as int).1 == replies@ + refusal_scan(raw@, i + 3).1);
            i += 3;
        } else {
            let ghost before = clean@;
            clean.push(raw[i]);
            assert(before + refusal_scan(raw@, i as int).0 == clean@ + refusal_scan(raw@, i + 1).0);
            i += 1;
        }
    }
    assert(clean@ + refusal_scan(raw@, i as int).0 == clean@);
    assert(replies@ + refusal_scan(raw@, i as int).1 == replies@);
    (clean, replies)
}


/// The option flags of one connection, as the negotiation rules see them.
pub struct NegotiationState {
    /// The server stream is MCCP v2 compressed.
    pub is_mccp_active: bool,
    /// `IAC DO MCCP2` has been sent.
    pub has_sent_mccp: bool,
    /// GMCP has been accepted or offered.
    pub has_sent_gmcp: bool,
}

/// Negotiation state of one connection, and the inflater of its MCCP stream.
pub struct TelnetProtocolStateMachine {
    /// The server stream is MCCP v2 compressed.
    pub is_mccp_active: bool,
    /// `IAC DO MCCP2` has been sent.
    pub has_sent_mccp: bool,
    /// GMCP has been accepted or offered.
    pub has_sent_gmcp: bool,
    /// The inflater of the MCCP v2 stream.
    pub inflater: MccpInflater,
}

impl TelnetProtocolStateMachine {
    /// The option flags.
    pub open spec fn negotiation(&self) -> NegotiationState {
        NegotiationState {
            is_mccp_active: self.is_mccp_active,
            has_sent_mccp: self.has_sent_mccp,
            has_sent_gmcp: self.has_sent_gmcp,
        }
    }

    /// The inflater is in order.
    pub closed spec fn wf(&self) -> bool {
        self.inflater.wf()
    }

    /// The compressed bytes inflated so far, or `None` once the stream broke.
    pub closed spec fn mccp_fed(&self) -> Option<Seq<u8>> {
        self.inflater.fed()
    }
}

/// Reply and next state for `IAC WILL option` from the server: MCCP2 and
/// GMCP are accepted once, anything else is refused with `DONT`.
pub open spec fn will_step(st: NegotiationState, option: u8) -> (Seq<u8>, NegotiationState) {
    if option == TELOPT_MCCP2 {
        if !st.has_sent_mccp {
            (seq![IAC, DO, TELOPT_MCCP2], NegotiationState {
                is_mccp_active: true,
                has_sent_mccp: true,
                has_sent_gmcp: st.has_sent_gmcp,
            })
        } else {
            (seq![], st)
        }
    } else if option == TELOPT_GMCP {
        if !st.has_sent_gmcp {
            (seq![IAC, DO, TELOPT_GMCP], NegotiationState {
                is_mccp_active: st.is_mccp_active,
                has_sent_mccp: st.has_sent_mccp,
                has_sent_gmcp: true,
            })
        } else {
            (seq![], st)
        }
    } else {
        (seq![IAC, DONT, option], st)
    }
}

/// Reply and next state for `IAC DO option` from the server: GMCP is
/// offered once, anything else is refused with `WONT`.
pub open spec fn do_step(st: NegotiationState, option: u8) -> (Seq<u8>, NegotiationState) {
    if option == TELOPT_GMCP {
        if !st.has_sent_gmcp {
            (seq![IAC, WILL, TELOPT_GMCP], NegotiationState {
                is_mccp_active: st.is_mccp_active,
                has_sent_mccp: st.has_sent_mccp,
                has_sent_gmcp: true,
            })
        } else {
            (seq![], st)
        }
    } else {
        (seq![IAC, WONT, option], st)
    }
}

/// Position of the first `IAC SE` at or after `j`.
pub open spec fn sb_terminator(raw: Seq<u8>, j: int) -> Option<int>
    decreases raw.len() - j,
{
    if j < 0 || j >= raw.len() {
        None
    } else if raw[j] == IAC && j + 1 < raw.len() && raw[j + 1] == SE {
        Some(j)
    } else {
        sb_terminator(raw, j + 1)
    }
}

pub open spec fn is_terminator_at(raw: Seq<u8>, k: int) -> bool {
    0 <= k && k + 1 < raw.len() && raw[k] == IAC && raw[k + 1] == SE
}

pub proof fn lemma_sb_terminator(raw: Seq<u8>, j: int)
    requires
        0 <= j,
    ensures
        sb_terminator(raw, j) matches Some(k) ==> j <= k && is_terminator_at(raw, k) && forall|m: int|
            j <= m < k ==> !is_terminator_at(raw, m),
        sb_terminator(raw, j) is None ==> forall|m: int| j <= m ==> !is_terminator_at(raw, m),
    decreases raw.len() - j,
{
    if j < raw.len() {
        lemma_sb_terminator(raw, j + 1);
    }
}

/// A byte that is shown to the player: not `IAC` and not one of the control
/// bytes 1, 2, 3.
pub open spec fn is_visible_byte(b: u8) -> bool {
    b != IAC && b != 1 && b != 2 && b != 3
}

/// Everything a scan of the server's bytes yields.
pub struct StreamScan {
    /// The bytes shown as text.
    pub clean: Seq<u8>,
    /// Negotiation replies owed to the server, in order.
    pub replies: Seq<u8>,
    /// The negotiation state after the scan.
    pub state: NegotiationState,
    /// The data of each GMCP sub-negotiation, in order.
    pub gmcp_payloads: Seq<Seq<u8>>,
}

/// Scan of `raw` from position `i` in state `st`. `IAC` and a command
/// without an option byte (`GA`, `NOP`, ...) are skipped as two bytes. An
/// `IAC` with two more bytes starts a command with an option: `WILL` and `DO`
/// are answered by `will_step` and `do_step`, `SB` skips to just past the next
/// `IAC SE` (keeping the data of a GMCP block), `WONT` and `DONT` are skipped
/// whole. A sub-negotiation that does not end within `raw` ends the scan.
/// Every other byte is kept when it is visible.
#[verifier::opaque]
pub open spec fn stream_scan(raw: Seq<u8>, i: int, st: NegotiationState) -> StreamScan
    decreases raw.len() - i,
{
    if i < 0 || i >= raw.len() {
        StreamScan { clean: seq![], replies: seq![], state: st, gmcp_payloads: seq![] }
    } else if two_byte_command_at(raw, i) {
        stream_scan(raw, i + 2, st)
    } else if raw[i] == IAC && i + 2 < raw.len() {
        let command = raw[i + 1];
        let option = raw[i + 2];
        if command == WILL {
            let step = will_step(st, option);
            let rest = stream_scan(raw, i + 3, step.1);
            StreamScan { replies: step.0 + rest.replies, ..rest }
        } else if command == DO {
            let step = do_step(st, option);
            let rest = stream_scan(raw, i + 3, step.1);
            StreamScan { replies: step.0 + rest.replies, ..rest }
        } else if command == SB {
            match sb_terminator(raw, i + 3) {
                None => StreamScan { clean: seq![], replies: seq![], state: st, gmcp_payloads: seq![] },
                Some(k) => {
                    proof {
                        lemma_sb_terminator(raw, i + 3);
                    }
                    let rest = stream_scan(raw, k + 2, st);
                    if option == TELOPT_GMCP {
                        StreamScan {
                            gmcp_payloads: seq![raw.subrange(i + 3, k)] + rest.gmcp_payloads,
                            ..rest
                        }
                    } else {
                        rest
                    }
                },
            }
        } else {
            stream_scan(raw, i + 3, st)
        }
    } else {
        let rest = stream_scan(raw, i + 1, st);
        if is_visible_byte(raw[i]) {
            StreamScan { clean: seq![raw[i]] + rest.clean, ..rest }
        } else {
            rest
        }
    }
}

pub open spec fn space() -> Seq<char> {
    seq![' ']
}

/// Module and JSON body of one GMCP payload: the UTF-8 text split at its
/// first space, both halves trimmed. `None` when the payload is not UTF-8 or
/// holds no space.
pub open spec fn gmcp_message(payload: Seq<u8>) -> Option<(Seq<char>, Seq<char>)> {
    if valid_utf8(payload) {
        let s = decode_utf8(payload);
        match first_occurrence(s, space()) {
            Some(k) => Some((trim(s.take(k)), trim(s.skip(k + 1)))),
            None => None,
        }
    } else {
        None
    }
}

/// The last well-formed GMCP message among `payloads`, or `cur` when none is.
pub open spec fn latest_gmcp(payloads: Seq<Seq<u8>>, cur: (Seq<char>, Seq<char>)) -> (Seq<char>, Seq<char>)
    decreases payloads.len(),
{
    if payloads.len() == 0 {
        cur
    } else {
        let next = match gmcp_message(payloads[0]) {
            Some(m) => m,
            None => cur,
        };
        latest_gmcp(payloads.drop_first(), next)
    }
}

pub open spec fn mxp_send_open() -> Seq<char> {
    seq!['<', 's', 'e', 'n', 'd']
}

pub open spec fn mxp_link_start() -> Seq<char> {
    seq!['\x1b', '[', '1', ';', '3', '6', 'm', '[', 'M', 'X', 'P', '超', '链', '接', ':', ' ']
}

pub open spec fn mxp_tag_close() -> Seq<char> {
    seq!['"', '>']
}

pub open spec fn mxp_link_end() -> Seq<char> {
    seq![' ', ']', '\x1b', '[', '0', 'm']
}

pub open spec fn mxp_send_close() -> Seq<char> {
    seq!['<', '/', 's', 'e', 'n', 'd', '>']
}

/// MXP `<send ...">label</send>` links rewritten as highlighted text; text
/// without `<send` is left as it is.
pub open spec fn mxp_rendered(t: Seq<char>) -> Seq<char> {
    if contains(t, mxp_send_open()) {
        replace_all(
            replace_all(replace_all(t, mxp_send_open(), mxp_link_start()), mxp_tag_close(), mxp_link_end()),
            mxp_send_close(),
            seq![],
        )
    } else {
        t
    }
}

pub fn mxp_send_open_chars() -> (r: Vec<char>)
    ensures
        r@ == mxp_send_open(),
{
    let r = vec!['<', 's', 'e', 'n', 'd'];
    assert(r@ =~= mxp_send_open());
    r
}

fn mxp_render_chars(t: &[char]) -> (r: Vec<char>)
    ensures
        r@ == mxp_rendered(t@),
{
    let open = mxp_send_open_chars();
    if contains_seq(t, &open) {
        let link_start = vec!['\x1b', '[', '1', ';', '3', '6', 'm', '[', 'M', 'X', 'P', '超', '链', '接', ':', ' '];
        let tag_close = vec!['"', '>'];
        let link_end = vec![' ', ']', '\x1b', '[', '0', 'm'];
        let send_close = vec!['<', '/', 's', 'e', 'n', 'd', '>'];
        let nothing: Vec<char> = Vec::new();
        assert(link_start@ =~= mxp_link_start());
        assert(tag_close@ =~= mxp_tag_close());
        assert(link_end@ =~= mxp_link_end());
        assert(send_close@ =~= mxp_send_close());
        assert(nothing@ =~= seq![]);
        let a = replace_seq(t, &open, &link_start);
        let b = replace_seq(&a, &tag_close, &link_end);
        replace_seq(&b, &send_close, &nothing)
    } else {
        slice_to_vec(t)
    }
}

/// Module and body of a GMCP payload, computed as `gmcp_message` says.
fn parse_gmcp_payload(payload: &[u8]) -> (r: Option<(String, String)>)
    ensures
        match r {
            Some(m) => gmcp_message(payload@) == Some((m.0@, m.1@)),
            None => gmcp_message(payload@) is None,
        },
{
    match utf8_decode(payload) {
        None => None,
        Some(text) => {
            let chars = chars_of(text.as_str());
            let sp = vec![' '];
            assert(sp@ =~= space());
            match find(&chars, &sp) {
                None => None,
                Some(k) => {
                    let head = copy_range(&chars, 0, k);
                    assert(sp@.len() == 1);
                    assert(occurs_at(chars@, sp@, k as int));
                    assert(k + 1 <= chars@.len());
                    assert(chars@.len() == chars.len());
                    let tail = copy_range(&chars, k + 1, chars.len());
                    assert(head@ =~= chars@.take(k as int));
                    assert(tail@ =~= chars@.skip(k + 1));
                    let module = trim_seq(&head);
                    let body = trim_seq(&tail);
                    Some((string_of(&module), string_of(&body)))
                },
            }
        },
    }
}

pub proof fn lemma_scan_end(raw: Seq<u8>, i: int, st: NegotiationState)
    requires
        0 <= i,
        i >= raw.len(),
    ensures
        stream_scan(raw, i, st) == (StreamScan {
            clean: seq![],
            replies: seq![],
            state: st,
            gmcp_payloads: seq![],
        }),
{
    reveal(stream_scan);
}

pub proof fn lemma_scan_data(raw: Seq<u8>, i: int, st: NegotiationState)
    requires
        0 <= i < raw.len(),
        !two_byte_command_at(raw, i),
        !(raw[i] == IAC && i + 2 < raw.len()),
    ensures
        ({
            let here = stream_scan(raw, i, st);
            let rest = stream_scan(raw, i + 1, st);
            &&& here.clean == (if is_visible_byte(raw[i]) { seq![raw[i]] + rest.clean } else { rest.clean })
            &&& here.replies == rest.replies
            &&& here.state == rest.state
            &&& here.gmcp_payloads == rest.gmcp_payloads
        }),
{
    reveal(stream_scan);
}

pub proof fn lemma_scan_two_byte(raw: Seq<u8>, i: int, st: NegotiationState)
    requires
        0 <= i < raw.len(),
        two_byte_command_at(raw, i),
    ensures
        stream_scan(raw, i, st) == stream_scan(raw, i + 2, st),
{
    reveal(stream_scan);
}

pub proof fn lemma_scan_negotiation(raw: Seq<u8>, i: int, st: NegotiationState)
    requires
        0 <= i,
        i + 2 < raw.len(),
        raw[i] == IAC,
        raw[i + 1] == WILL || raw[i + 1] == DO,
    ensures
        ({
            let step = if raw[i + 1] == WILL { will_step(st, raw[i + 2]) } else { do_step(st, raw[i + 2]) };
            let here = stream_scan(raw, i, st);
            let rest = stream_scan(raw, i + 3, step.1);
            &&& here.clean == rest.clean
            &&& here.replies == step.0 + rest.replies
            &&& here.state == rest.state
            &&& here.gmcp_payloads == rest.gmcp_payloads
        }),
{
    reveal(stream_scan);
}

pub proof fn lemma_scan_other_command(raw: Seq<u8>, i: int, st: NegotiationState)
    requires
        0 <= i,
        i + 2 < raw.len(),
        raw[i] == IAC,
        raw[i + 1] == WONT || raw[i + 1] == DONT,
    ensures
        stream_scan(raw, i, st) == stream_scan(raw, i + 3, st),
{
    reveal(stream_scan);
}

pub proof fn lemma_scan_sub_negotiation(raw: Seq<u8>, i: int, st: NegotiationState)
    requires
        0 <= i,
        i + 2 < raw.len(),
        raw[i] == IAC,
        raw[i + 1] == SB,
    ensures
        sb_terminator(raw, i + 3) is None ==> stream_scan(raw, i, st) == (StreamScan {
            clean: seq![],
            replies: seq![],
            state: st,
            gmcp_payloads: seq![],
        }),
        sb_terminator(raw, i + 3) matches Some(k) ==> {
            let here = stream_scan(raw, i, st);
            let rest = stream_scan(raw, k + 2, st);
            &&& here.clean == rest.clean
            &&& here.replies == rest.replies
            &&& here.state == rest.state
            &&& here.gmcp_payloads == (if raw[i + 2] == TELOPT_GMCP {
                seq![raw.subrange(i + 3, k)] + rest.gmcp_payloads
            } else {
                rest.gmcp_payloads
            })
        },
{
    reveal(stream_scan);
}

impl TelnetProtocolStateMachine {
    /// Answer `IAC WILL option` as `will_step` says.
    fn answer_will(&mut self, option: u8, tcp_writer_tx: &mut Vec<u8>)
        ensures
            final(tcp_writer_tx)@ == old(tcp_writer_tx)@ + will_step(old(self).negotiation(), option).0,
            final(self).negotiation() == will_step(old(self).negotiation(), option).1,
            final(self).inflater == old(self).inflater,
    {
        let ghost before = tcp_writer_tx@;
        if option == TELOPT_MCCP2 {
            if !self.has_sent_mccp {
                tcp_writer_tx.push(IAC);
                tcp_writer_tx.push(DO);
                tcp_writer_tx.push(TELOPT_MCCP2);
                self.is_mccp_active = true;
                self.has_sent_mccp = true;
            }
        } else if option == TELOPT_GMCP {
            if !self.has_sent_gmcp {
                tcp_writer_tx.push(IAC);
                tcp_writer_tx.push(DO);
                tcp_writer_tx.push(TELOPT_GMCP);
                self.has_sent_gmcp = true;
            }
        } else {
            tcp_writer_tx.push(IAC);
            tcp_writer_tx.push(DONT);
            tcp_writer_tx.push(option);
        }
        assert(tcp_writer_tx@ =~= before + will_step(old(self).negotiation(), option).0);
    }

    /// Answer `IAC DO option` as `do_step` says.
    fn answer_do(&mut self, option: u8, tcp_writer_tx: &mut Vec<u8>)
        ensures
            final(tcp_writer_tx)@ == old(tcp_writer_tx)@ + do_step(old(self).negotiation(), option).0,
            final(self).negotiation() == do_step(old(self).negotiation(), option).1,
            final(self).inflater == old(self).inflater,
    {
        let ghost before = tcp_writer_tx@;
        if option == TELOPT_GMCP {
            if !self.has_sent_gmcp {
                tcp_writer_tx.push(IAC);
                tcp_writer_tx.push(WILL);
                tcp_writer_tx.push(TELOPT_GMCP);
                self.has_sent_gmcp = true;
            }
        } else {
            tcp_writer_tx.push(IAC);
            tcp_writer_tx.push(WONT);
            tcp_writer_tx.push(option);
        }
        assert(tcp_writer_tx@ =~= before + do_step(old(self).negotiation(), option).0);
    }
}

/// Position of the first `IAC SE` at or after `start`.
fn find_sb_terminator(raw: &[u8], start: usize) -> (r: Option<usize>)
    requires
        start <= raw.len(),
    ensures
        match r {
            Some(k) => sb_terminator(raw@, start as int) == Some(k as int),
            None => sb_terminator(raw@, start as int) is None,
        },
        r matches Some(k) ==> start <= k && is_terminator_at(raw@, k as int),
{
    proof {
        lemma_sb_terminator(raw@, start as int);
    }
    let n = raw.len();
    let mut j: usize = start;
    while j < n && !(raw[j] == IAC && n - j > 1 && raw[j + 1] == SE)
        invariant
            n == raw@.len(),
            start <= j <= n,
            forall|m: int| start <= m < j ==> !is_terminator_at(raw@, m),
        decreases n - j,
    {
        j += 1;
    }
    if j >= n {
        assert(sb_terminator(raw@, start as int) is None) by {
            if sb_terminator(raw@, start as int) is Some {
                let k = sb_terminator(raw@, start as int)->0;
                assert(is_terminator_at(raw@, k));
            }
        }
        None
    } else {
        assert(is_terminator_at(raw@, j as int));
        Some(j)
    }
}

impl TelnetProtocolStateMachine {
    /// A connection on which nothing has been negotiated yet.
    pub fn new() -> (r: Self)
        ensures
            r.negotiation() == (NegotiationState {
                is_mccp_active: false,
                has_sent_mccp: false,
                has_sent_gmcp: false,
            }),
            r.wf(),
            r.mccp_fed() == Some(Seq::<u8>::empty()),
            zlib_inflated_prefix(r.mccp_fed().unwrap()) == Seq::<u8>::empty(),
    {
        Self { is_mccp_active: false, has_sent_mccp: false, has_sent_gmcp: false, inflater: MccpInflater::new() }
    }

    /// Inflate the next chunk of the MCCP v2 stream, one zlib stream that
    /// runs across all chunks. Without active MCCP the bytes are handed on
    /// unchanged. With it, the stream stays sound exactly when the decoder
    /// accepts all bytes received so far, and the result is what this chunk
    /// adds to the inflated stream; once the stream is broken (now or
    /// before) the bytes are handed on unchanged.
    pub fn handle_mccp_decompression(&mut self, compressed_bytes: &[u8]) -> (r: Vec<u8>)
        requires
            old(self).wf(),
        ensures
            final(self).wf(),
            final(self).negotiation() == old(self).negotiation(),
            !old(self).is_mccp_active ==> r@ == compressed_bytes@ && final(self).mccp_fed() == old(self).mccp_fed(),
            old(self).is_mccp_active ==> (old(self).mccp_fed() matches Some(fed) ==> (final(self).mccp_fed() is Some
                <==> zlib_accepts(fed + compressed_bytes@))),
            old(self).is_mccp_active ==> match old(self).mccp_fed() {
                None => r@ == compressed_bytes@ && final(self).mccp_fed() is None,
                Some(fed) => match final(self).mccp_fed() {
                    Some(fed2) => fed2 == fed + compressed_bytes@ && zlib_inflated_prefix(fed2)
                        == zlib_inflated_prefix(fed) + r@,
                    None => r@ == compressed_bytes@,
                },
            },
    {
        if !self.is_mccp_active {
            return slice_to_vec(compressed_bytes);
        }
        self.inflater.inflate(compressed_bytes)
    }

    /// One step of the scan at `i`: handle the command or byte that starts
    /// there and return where the scan goes on.
    #[verifier::rlimit(40)]
    fn scan_step(
        &mut self,
        raw_bytes: &[u8],
        i: usize,
        clean_bytes: &mut Vec<u8>,
        tcp_writer_tx: &mut Vec<u8>,
        gmcp_module: &mut String,
        gmcp_json: &mut String,
    ) -> (next: usize)
        requires
            i < raw_bytes.len(),
        ensures
            i < next <= raw_bytes.len(),
            final(self).inflater == old(self).inflater,
            ({
                let here = stream_scan(raw_bytes@, i as int, old(self).negotiation());
                let rest = stream_scan(raw_bytes@, next as int, final(self).negotiation());
                &&& rest.state == here.state
                &&& final(clean_bytes)@ + rest.clean == old(clean_bytes)@ + here.clean
                &&& final(tcp_writer_tx)@ + rest.replies == old(tcp_writer_tx)@ + here.replies
                &&& latest_gmcp(rest.gmcp_payloads, (final(gmcp_module)@, final(gmcp_json)@)) == latest_gmcp(
                    here.gmcp_payloads,
                    (old(gmcp_module)@, old(gmcp_json)@),
                )
            }),
    {
        let ghost raw = raw_bytes@;
        let n = raw_bytes.len();
        let mut next: usize = i;
        let ghost st = self.negotiation();
        let ghost here = stream_scan(raw, i as int, st);
        if raw_bytes[i] == IAC && n - i > 1 && !(raw_bytes[i + 1] == WILL || raw_bytes[i + 1] == WONT
            || raw_bytes[i + 1] == DO || raw_bytes[i + 1] == DONT || raw_bytes[i + 1] == SB) {
            proof {
                lemma_scan_two_byte(raw, i as int, st);
            }
            next = i + 2;
        } else if raw_bytes[i] == IAC && n - i > 2 {
            let command = raw_bytes[i + 1];
            let option = raw_bytes[i + 2];
            if command == WILL {
                proof {
                    lemma_scan_negotiation(raw, i as int, st);
                }
                self.answer_will(option, tcp_writer_tx);
                next = i + 3;
            } else if command == DO {
                proof {
                    lemma_scan_negotiation(raw, i as int, st);
                }
                self.answer_do(option, tcp_writer_tx);
                next = i + 3;
            } else if command == SB {
                proof {
                    lemma_scan_sub_negotiation(raw, i as int, st);
                }
                match find_sb_terminator(raw_bytes, i + 3) {
                    None => {
                        proof {
                            lemma_scan_end(raw, n as int, st);
                            assert(clean_bytes@ + seq![] =~= clean_bytes@);
                            assert(tcp_writer_tx@ + seq![] =~= tcp_writer_tx@);
                        }
                        next = n;
                    },
                    Some(j) => {
                        if option == TELOPT_GMCP {
                            let payload = copy_range_bytes(raw_bytes, i + 3, j);
                            apply_gmcp_payload(&payload, gmcp_module, gmcp_json);
                            assert((seq![payload@] + stream_scan(raw, j + 2, st).gmcp_payloads).drop_first()
                                =~= stream_scan(raw, j + 2, st).gmcp_payloads);
                        }
                        next = j + 2;
                    },
                }
            } else {
                proof {
                    lemma_scan_other_command(raw, i as int, st);
                }
                next = i + 3;
            }
        } else {
            proof {
                lemma_scan_data(raw, i as int, st);
            }
            let b = raw_bytes[i];
            let ghost before = clean_bytes@;
            if b != IAC && b != 1 && b != 2 && b != 3 {
                clean_bytes.push(b);
                assert(before + here.clean =~= clean_bytes@ + stream_scan(raw, i + 1, st).clean);
            }
            next = i + 1;
        }
        next
    }

    /// Scan the bytes of one read from the server: answer the negotiations
    /// (appended to `tcp_writer_tx`), extract the latest GMCP message and
    /// return the visible text (decoded, MXP links rewritten) with the GMCP
    /// module and body.
    #[verifier::rlimit(40)]
    pub fn parse_incoming_stream(&mut self, raw_bytes: &[u8], tcp_writer_tx: &mut Vec<u8>) -> (r: (
        String,
        String,
        String,
    ))
        ensures
            ({
                let scan = stream_scan(raw_bytes@, 0, old(self).negotiation());
                &&& final(self).negotiation() == scan.state
                &&& final(self).wf() == old(self).wf()
                &&& final(self).mccp_fed() == old(self).mccp_fed()
                &&& final(tcp_writer_tx)@ == old(tcp_writer_tx)@ + scan.replies
                &&& r.0@ == mxp_rendered(network_decoded(scan.clean))
                &&& (r.1@, r.2@) == latest_gmcp(scan.gmcp_payloads, (seq![], seq![]))
            }),
    {
        let ghost raw = raw_bytes@;
        let ghost total = stream_scan(raw, 0, self.negotiation());
        let ghost tcp0 = tcp_writer_tx@;
        let mut clean_bytes: Vec<u8> = Vec::new();
        let mut gmcp_module = string_of(&[]);
        let mut gmcp_json = string_of(&[]);
        assert(gmcp_module@ =~= seq![]);
        assert(gmcp_json@ =~= seq![]);
        let n = raw_bytes.len();
        let mut i: usize = 0;
        while i < n
            invariant
                n == raw.len(),
                raw == raw_bytes@,
                total == stream_scan(raw, 0, old(self).negotiation()),
                i <= n,
                self.inflater == old(self).inflater,
                stream_scan(raw, i as int, self.negotiation()).state == total.state,
                clean_bytes@ + stream_scan(raw, i as int, self.negotiation()).clean == total.clean,
                tcp_writer_tx@ + stream_scan(raw, i as int, self.negotiation()).replies == tcp0 + total.replies,
                latest_gmcp(stream_scan(raw, i as int, self.negotiation()).gmcp_payloads, (gmcp_module@, gmcp_json@))
                    == latest_gmcp(total.gmcp_payloads, (seq![], seq![])),
            decreases n - i,
        {
            i = self.scan_step(raw_bytes, i, &mut clean_bytes, tcp_writer_tx, &mut gmcp_module, &mut gmcp_json);
        }
        proof {
            lemma_scan_end(raw, i as int, self.negotiation());
        }
        assert(clean_bytes@ + seq![] =~= clean_bytes@);
        assert(tcp_writer_tx@ + seq![] =~= tcp_writer_tx@);
        let decoded = decode_network_bytes(&clean_bytes);
        let decoded_chars = chars_of(decoded.as_str());
        let rendered = mxp_render_chars(&decoded_chars);
        (string_of(&rendered), gmcp_module, gmcp_json)
    }
}

/// Replace the current GMCP message by the one in `payload`, if it holds one.
fn apply_gmcp_payload(payload: &[u8], module: &mut String, json: &mut String)
    ensures
        (final(module)@, final(json)@) == match gmcp_message(payload@) {
            Some(m) => m,
            None => (old(module)@, old(json)@),
        },
{
    match parse_gmcp_payload(payload) {
        Some(m) => {
            *module = m.0;
            *json = m.1;
        },
        None => {},
    }
}

/// Copy of `s[a..b]`.
fn copy_range_bytes(s: &[u8], a: usize, b: usize) -> (r: Vec<u8>)
    requires
        a <= b <= s.len(),
    ensures
        r@ == s@.subrange(a as int, b as int),
{
    let mut r: Vec<u8> = Vec::new();
    let mut k = a;
    while k < b
        invariant
            a <= k <= b <= s.len(),
            r@ == s@.subrange(a as int, k as int),
        decreases b - k,
    {
        r.push(s[k]);
        k += 1;
        assert(r@ =~= s@.subrange(a as int, k as int));
    }
    r
}

/// The commands a client answers with.
pub open spec fn is_negotiation_command(c: u8) -> bool {
    c == WILL || c == WONT || c == DO || c == DONT
}

/// Replies are whole telnet negotiation commands: three bytes each, each
/// `IAC`, then `WILL`, `WONT`, `DO` or `DONT`, then the option.
pub open spec fn are_commands(replies: Seq<u8>) -> bool {
    &&& replies.len() % 3 == 0
    &&& forall|k: int|
        #![trigger replies[k]]
        0 <= k < replies.len() && k % 3 == 0 ==> replies[k] == IAC && is_negotiation_command(replies[k + 1])
}

/// No reply group of `replies` is `group`.
pub open spec fn lacks_group(replies: Seq<u8>, group: Seq<u8>) -> bool {
    forall|k: int|
        0 <= k && k + 3 <= replies.len() && k % 3 == 0 ==> #[trigger] replies.subrange(k, k + 3) != group
}

proof fn lemma_commands_prepend(head: Seq<u8>, tail: Seq<u8>)
    requires
        head.len() == 0 || (head.len() == 3 && head[0] == IAC && is_negotiation_command(head[1])),
        are_commands(tail),
    ensures
        are_commands(head + tail),
{
    if head.len() == 3 {
        assert forall|k: int| 0 <= k < (head + tail).len() && k % 3 == 0 implies #[trigger] (head + tail)[k] == IAC
            && is_negotiation_command((head + tail)[k + 1]) by {
            if k >= 3 {
                assert((head + tail)[k] == tail[k - 3]);
                assert((head + tail)[k + 1] == tail[k - 2]);
                assert((k - 3) % 3 == 0);
                assert(tail[k - 3] == IAC && is_negotiation_command(tail[(k - 3) + 1]));
            }
        }
    } else {
        assert(head + tail =~= tail);
    }
}

proof fn lemma_lacks_group_prepend(head: Seq<u8>, tail: Seq<u8>, group: Seq<u8>)
    requires
        head.len() == 0 || (head.len() == 3 && head != group),
        lacks_group(tail, group),
    ensures
        lacks_group(head + tail, group),
{
    if head.len() == 3 {
        let w = head + tail;
        assert forall|k: int| 0 <= k && k + 3 <= w.len() && k % 3 == 0 implies #[trigger] w.subrange(k, k + 3)
            != group by {
            if k == 0 {
                assert(w.subrange(0, 3) =~= head);
            } else {
                assert(k >= 3);
                assert(w.subrange(k, k + 3) =~= tail.subrange(k - 3, k));
                assert((k - 3) % 3 == 0);
                assert(tail.subrange(k - 3, (k - 3) + 3) != group);
            }
        }
    } else {
        assert(head + tail =~= tail);
    }
}

/// The text shown to the player never holds `IAC` or the control bytes
/// 1, 2, 3: telnet commands are never rendered.
pub proof fn law_scan_text_is_visible(raw: Seq<u8>, i: int, st: NegotiationState)
    ensures
        forall|k: int| 0 <= k < stream_scan(raw, i, st).clean.len() ==> is_visible_byte(
            #[trigger] stream_scan(raw, i, st).clean[k],
        ),
    decreases raw.len() - i,
{
    if i < 0 {
        reveal(stream_scan);
    } else if i >= raw.len() {
        lemma_scan_end(raw, i, st);
    } else if two_byte_command_at(raw, i) {
        lemma_scan_two_byte(raw, i, st);
        law_scan_text_is_visible(raw, i + 2, st);
    } else if raw[i] == IAC && i + 2 < raw.len() {
        let command = raw[i + 1];
        let option = raw[i + 2];
        if command == WILL || command == DO {
            lemma_scan_negotiation(raw, i, st);
            let step = if command == WILL { will_step(st, option) } else { do_step(st, option) };
            law_scan_text_is_visible(raw, i + 3, step.1);
        } else if command == SB {
            lemma_scan_sub_negotiation(raw, i, st);
            lemma_sb_terminator(raw, i + 3);
            if let Some(k) = sb_terminator(raw, i + 3) {
                law_scan_text_is_visible(raw, k + 2, st);
            }
        } else {
            lemma_scan_other_command(raw, i, st);
            law_scan_text_is_visible(raw, i + 3, st);
        }
    } else {
        lemma_scan_data(raw, i, st);
        law_scan_text_is_visible(raw, i + 1, st);
        let rest = stream_scan(raw, i + 1, st);
        let here = stream_scan(raw, i, st);
        assert forall|k: int| 0 <= k < here.clean.len() implies is_visible_byte(#[trigger] here.clean[k]) by {
            if is_visible_byte(raw[i]) {
                if k > 0 {
                    assert(here.clean[k] == rest.clean[k - 1]);
                }
            } else {
                assert(here.clean[k] == rest.clean[k]);
            }
        }
    }
}

/// Every reply the client owes is a whole three-byte negotiation command.
pub proof fn law_scan_replies_are_commands(raw: Seq<u8>, i: int, st: NegotiationState)
    ensures
        are_commands(stream_scan(raw, i, st).replies),
    decreases raw.len() - i,
{
    reveal(stream_scan);
    if i < 0 || i >= raw.len() {
    } else if two_byte_command_at(raw, i) {
        law_scan_replies_are_commands(raw, i + 2, st);
    } else if raw[i] == IAC && i + 2 < raw.len() {
        let command = raw[i + 1];
        let option = raw[i + 2];
        if command == WILL {
            law_scan_replies_are_commands(raw, i + 3, will_step(st, option).1);
            lemma_commands_prepend(will_step(st, option).0, stream_scan(raw, i + 3, will_step(st, option).1).replies);
        } else if command == DO {
            law_scan_replies_are_commands(raw, i + 3, do_step(st, option).1);
            lemma_commands_prepend(do_step(st, option).0, stream_scan(raw, i + 3, do_step(st, option).1).replies);
        } else if command == SB {
            lemma_sb_terminator(raw, i + 3);
            if let Some(k) = sb_terminator(raw, i + 3) {
                law_scan_replies_are_commands(raw, k + 2, st);
            }
        } else {
            law_scan_replies_are_commands(raw, i + 3, st);
        }
    } else {
        law_scan_replies_are_commands(raw, i + 1, st);
    }
}

/// A scan only appends to the reply buffer: the old buffer stays as it
/// was, in front, and what follows it is whole three-byte negotiation
/// commands `IAC`, `WILL`/`WONT`/`DO`/`DONT`, option.
pub proof fn law_replies_are_appended_commands(old_buffer: Seq<u8>, raw: Seq<u8>, st: NegotiationState)
    ensures
        ({
            let buffer = old_buffer + stream_scan(raw, 0, st).replies;
            &&& buffer.len() >= old_buffer.len()
            &&& buffer.take(old_buffer.len() as int) == old_buffer
            &&& are_commands(buffer.skip(old_buffer.len() as int))
        }),
{
    let buffer = old_buffer + stream_scan(raw, 0, st).replies;
    law_scan_replies_are_commands(raw, 0, st);
    assert(buffer.take(old_buffer.len() as int) =~= old_buffer);
    assert(buffer.skip(old_buffer.len() as int) =~= stream_scan(raw, 0, st).replies);
}

/// Negotiation state only ever moves forward: an option once accepted or
/// offered stays so, and MCCP once active stays active.
pub proof fn law_scan_state_is_monotone(raw: Seq<u8>, i: int, st: NegotiationState)
    ensures
        st.is_mccp_active ==> stream_scan(raw, i, st).state.is_mccp_active,
        st.has_sent_mccp ==> stream_scan(raw, i, st).state.has_sent_mccp,
        st.has_sent_gmcp ==> stream_scan(raw, i, st).state.has_sent_gmcp,
    decreases raw.len() - i,
{
    reveal(stream_scan);
    if i < 0 || i >= raw.len() {
    } else if two_byte_command_at(raw, i) {
        law_scan_state_is_monotone(raw, i + 2, st);
    } else if raw[i] == IAC && i + 2 < raw.len() {
        let command = raw[i + 1];
        let option = raw[i + 2];
        if command == WILL {
            law_scan_state_is_monotone(raw, i + 3, will_step(st, option).1);
        } else if command == DO {
            law_scan_state_is_monotone(raw, i + 3, do_step(st, option).1);
        } else if command == SB {
            lemma_sb_terminator(raw, i + 3);
            if let Some(k) = sb_terminator(raw, i + 3) {
                law_scan_state_is_monotone(raw, k + 2, st);
            }
        } else {
            law_scan_state_is_monotone(raw, i + 3, st);
        }
    } else {
        law_scan_state_is_monotone(raw, i + 1, st);
    }
}

/// MCCP is active exactly when it has been accepted, and stays so across a
/// scan; once MCCP has been accepted no scan accepts it again, and once GMCP
/// has been accepted or offered no scan accepts or offers it again.
pub proof fn law_negotiation_flags_stay_in_step(raw: Seq<u8>, i: int, st: NegotiationState)
    requires
        st.is_mccp_active == st.has_sent_mccp,
    ensures
        stream_scan(raw, i, st).state.is_mccp_active == stream_scan(raw, i, st).state.has_sent_mccp,
        st.has_sent_mccp ==> lacks_group(stream_scan(raw, i, st).replies, seq![IAC, DO, TELOPT_MCCP2]),
        st.has_sent_gmcp ==> lacks_group(stream_scan(raw, i, st).replies, seq![IAC, DO, TELOPT_GMCP]),
        st.has_sent_gmcp ==> lacks_group(stream_scan(raw, i, st).replies, seq![IAC, WILL, TELOPT_GMCP]),
    decreases raw.len() - i,
{
    reveal(stream_scan);
    let g1 = seq![IAC, DO, TELOPT_MCCP2];
    let g2 = seq![IAC, DO, TELOPT_GMCP];
    let g3 = seq![IAC, WILL, TELOPT_GMCP];
    if i < 0 || i >= raw.len() {
    } else if two_byte_command_at(raw, i) {
        law_negotiation_flags_stay_in_step(raw, i + 2, st);
    } else if raw[i] == IAC && i + 2 < raw.len() {
        let command = raw[i + 1];
        let option = raw[i + 2];
        if command == WILL || command == DO {
            let step = if command == WILL { will_step(st, option) } else { do_step(st, option) };
            law_negotiation_flags_stay_in_step(raw, i + 3, step.1);
            let rest = stream_scan(raw, i + 3, step.1).replies;
            assert(step.0.len() == 0 || step.0.len() == 3);
            if step.0.len() == 3 {
                assert(step.0[1] != DO || step.0[2] != TELOPT_MCCP2 || !st.has_sent_mccp);
            }
            if st.has_sent_mccp {
                assert(step.0.len() == 0 || step.0 != g1) by {
                    if step.0.len() == 3 && step.0 == g1 {
                        assert(step.0[1] == g1[1] && step.0[2] == g1[2]);
                    }
                }
                lemma_lacks_group_prepend(step.0, rest, g1);
            }
            if st.has_sent_gmcp {
                assert(step.0.len() == 0 || step.0 != g2) by {
                    if step.0.len() == 3 && step.0 == g2 {
                        assert(step.0[1] == g2[1] && step.0[2] == g2[2]);
                    }
                }
                assert(step.0.len() == 0 || step.0 != g3) by {
                    if step.0.len() == 3 && step.0 == g3 {
                        assert(step.0[1] == g3[1] && step.0[2] == g3[2]);
                    }
                }
                lemma_lacks_group_prepend(step.0, rest, g2);
                lemma_lacks_group_prepend(step.0, rest, g3);
            }
        } else if command == SB {
            lemma_sb_terminator(raw, i + 3);
            if let Some(k) = sb_terminator(raw, i + 3) {
                law_negotiation_flags_stay_in_step(raw, k + 2, st);
            }
        } else {
            law_negotiation_flags_stay_in_step(raw, i + 3, st);
        }
    } else {
        law_negotiation_flags_stay_in_step(raw, i + 1, st);
    }
}

/// Each of MCCP and GMCP is accepted at most once: after the first answer,
/// a repeated offer gets no reply.
pub proof fn law_option_accepted_once(st: NegotiationState, option: u8)
    requires
        option == TELOPT_MCCP2 || option == TELOPT_GMCP,
    ensures
        will_step(will_step(st, option).1, option).0.len() == 0,
        do_step(do_step(st, TELOPT_GMCP).1, TELOPT_GMCP).0.len() == 0,
        will_step(do_step(st, TELOPT_GMCP).1, TELOPT_GMCP).0.len() == 0,
{
}

/// A refusing client owes only whole three-byte negotiation commands.
pub proof fn law_refusal_replies_are_commands(raw: Seq<u8>, i: int)
    ensures
        are_commands(refusal_scan(raw, i).1),
    decreases raw.len() - i,
{
    if i < 0 || i >= raw.len() {
    } else if two_byte_command_at(raw, i) {
        law_refusal_replies_are_commands(raw, i + 2);
    } else if raw[i] == IAC && i + 2 < raw.len() {
        law_refusal_replies_are_commands(raw, i + 3);
        lemma_commands_prepend(refusal_reply(raw[i + 1], raw[i + 2]), refusal_scan(raw, i + 3).1);
    } else {
        law_refusal_replies_are_commands(raw, i + 1);
    }
}

/// Plain ASCII bytes read as characters.
pub open spec fn ascii_text(raw: Seq<u8>) -> Seq<char> {
    Seq::new(raw.len(), |i: int| raw[i] as char)
}

/// Printable ASCII data: no byte is `IAC`, a control byte 1, 2, 3, or above 0x7f.
pub open spec fn is_plain_ascii(raw: Seq<u8>) -> bool {
    forall|i: int| 0 <= i < raw.len() ==> #[trigger] raw[i] < 0x80 && is_visible_byte(raw[i])
}

pub proof fn lemma_ascii_decodes(raw: Seq<u8>)
    requires
        forall|i: int| 0 <= i < raw.len() ==> #[trigger] raw[i] < 0x80,
    ensures
        valid_utf8(raw),
        decode_utf8(raw) == ascii_text(raw),
{
    let c = ascii_text(raw);
    assert(is_ascii_chars(c)) by {
        assert forall|i: int| 0 <= i < c.len() implies '\0' <= #[trigger] c[i] <= '\u{7f}' by {
            assert(raw[i] < 0x80);
        }
    }
    is_ascii_chars_encode_utf8(c);
    assert(encode_utf8(c) =~= raw) by {
        assert forall|i: int| 0 <= i < raw.len() implies encode_utf8(c)[i] == raw[i] by {
            assert(c[i] as u8 == encode_utf8(c)[i]);
            assert(raw[i] < 0x80);
        }
    }
    encode_utf8_valid_utf8(c);
    encode_utf8_decode_utf8(c);
}

proof fn lemma_plain_suffix(raw: Seq<u8>, i: int, st: NegotiationState)
    requires
        is_plain_ascii(raw),
        0 <= i <= raw.len(),
    ensures
        stream_scan(raw, i, st) == (StreamScan {
            clean: raw.skip(i),
            replies: seq![],
            state: st,
            gmcp_payloads: seq![],
        }),
    decreases raw.len() - i,
{
    if i == raw.len() {
        lemma_scan_end(raw, i, st);
        assert(raw.skip(i) =~= seq![]);
    } else {
        assert(raw[i] < 0x80 && is_visible_byte(raw[i]));
        lemma_scan_data(raw, i, st);
        lemma_plain_suffix(raw, i + 1, st);
        assert(seq![raw[i]] + raw.skip(i + 1) =~= raw.skip(i));
    }
}

/// Plain ASCII text from the server reaches the player unchanged: nothing
/// is answered, no state changes, no GMCP is seen, and the text decodes
/// byte for byte.
pub proof fn law_plain_text_passes_through(raw: Seq<u8>, st: NegotiationState)
    requires
        is_plain_ascii(raw),
    ensures
        stream_scan(raw, 0, st).clean == raw,
        stream_scan(raw, 0, st).replies.len() == 0,
        stream_scan(raw, 0, st).state == st,
        stream_scan(raw, 0, st).gmcp_payloads.len() == 0,
        network_decoded(raw) == ascii_text(raw),
{
    lemma_plain_suffix(raw, 0, st);
    assert(raw.skip(0) =~= raw);
    lemma_ascii_decodes(raw);
}

proof fn lemma_plain_run(raw: Seq<u8>, i: int, end: int, st: NegotiationState)
    requires
        0 <= i <= end <= raw.len(),
        forall|k: int| i <= k < end ==> #[trigger] raw[k] < 0x80 && is_visible_byte(raw[k]),
    ensures
        stream_scan(raw, i, st).clean == raw.subrange(i, end) + stream_scan(raw, end, st).clean,
        stream_scan(raw, i, st).replies == stream_scan(raw, end, st).replies,
        stream_scan(raw, i, st).state == stream_scan(raw, end, st).state,
        stream_scan(raw, i, st).gmcp_payloads == stream_scan(raw, end, st).gmcp_payloads,
    decreases end - i,
{
    if i == end {
        assert(raw.subrange(i, end) + stream_scan(raw, end, st).clean =~= stream_scan(raw, end, st).clean);
    } else {
        assert(raw[i] < 0x80 && is_visible_byte(raw[i]));
        lemma_scan_data(raw, i, st);
        lemma_plain_run(raw, i + 1, end, st);
        assert(seq![raw[i]] + (raw.subrange(i + 1, end) + stream_scan(raw, end, st).clean) =~= raw.subrange(i, end)
            + stream_scan(raw, end, st).clean);
    }
}

/// The bytes of one GMCP message framed for the wire.
pub open spec fn gmcp_frame(payload: Seq<u8>) -> Seq<u8> {
    seq![IAC, SB, TELOPT_GMCP] + payload + seq![IAC, SE]
}

/// A GMCP message between two runs of plain text is handed on as out-of-band
/// data and none of its bytes is shown: the player sees the two runs of text
/// joined, and the message's payload is the one GMCP payload found.
pub proof fn law_gmcp_is_out_of_band(before: Seq<u8>, payload: Seq<u8>, after: Seq<u8>, st: NegotiationState)
    requires
        is_plain_ascii(before),
        is_plain_ascii(after),
        forall|k: int| 0 <= k < payload.len() ==> #[trigger] payload[k] != IAC,
    ensures
        ({
            let scan = stream_scan(before + gmcp_frame(payload) + after, 0, st);
            &&& scan.clean == before + after
            &&& scan.gmcp_payloads == seq![payload]
            &&& scan.replies.len() == 0
            &&& scan.state == st
        }),
{
    let raw = before + gmcp_frame(payload) + after;
    let b = before.len() as int;
    let p = payload.len() as int;
    let end = b + 3 + p;
    assert(raw.len() == b + 3 + p + 2 + after.len());
    assert forall|k: int| 0 <= k < b implies #[trigger] raw[k] < 0x80 && is_visible_byte(raw[k]) by {
        assert(raw[k] == before[k]);
    }
    lemma_plain_run(raw, 0, b, st);
    assert(raw[b] == IAC && raw[b + 1] == SB && raw[b + 2] == TELOPT_GMCP);
    lemma_scan_sub_negotiation(raw, b, st);
    lemma_sb_terminator(raw, b + 3);
    assert(is_terminator_at(raw, end)) by {
        assert(raw[end] == IAC);
        assert(raw[end + 1] == SE);
    }
    assert forall|m: int| b + 3 <= m < end implies !is_terminator_at(raw, m) by {
        assert(raw[m] == payload[m - b - 3]);
    }
    assert(sb_terminator(raw, b + 3) == Some(end)) by {
        let k = sb_terminator(raw, b + 3)->0;
        if sb_terminator(raw, b + 3) is None {
            assert(!is_terminator_at(raw, end));
        } else if k < end {
        } else if k > end {
        }
    }
    assert(raw.subrange(b + 3, end) =~= payload);
    let tail = end + 2;
    assert forall|k: int| tail <= k < raw.len() implies #[trigger] raw[k] < 0x80 && is_visible_byte(raw[k]) by {
        assert(raw[k] == after[k - tail]);
    }
    lemma_plain_run(raw, tail, raw.len() as int, st);
    lemma_scan_end(raw, raw.len() as int, st);
    assert(raw.subrange(0, b) =~= before);
    assert(raw.subrange(tail, raw.len() as int) =~= after);
    assert(stream_scan(raw, 0, st).clean =~= before + after);
    assert(stream_scan(raw, 0, st).gmcp_payloads =~= seq![payload]);
}

proof fn lemma_refusal_keeps_data(raw: Seq<u8>, i: int)
    requires
        0 <= i <= raw.len(),
        forall|k: int| 0 <= k < raw.len() ==> raw[k] != IAC,
    ensures
        refusal_scan(raw, i).0 == raw.skip(i),
        refusal_scan(raw, i).1.len() == 0,
    decreases raw.len() - i,
{
    if i == raw.len() {
        assert(raw.skip(i) =~= seq![]);
    } else {
        lemma_refusal_keeps_data(raw, i + 1);
        assert(seq![raw[i]] + raw.skip(i + 1) =~= raw.skip(i));
    }
}

/// The refusing scanner keeps every byte outside a telnet command: bytes
/// without any `IAC` come through whole and in order, and nothing is owed.
pub proof fn law_refusal_keeps_every_data_byte(raw: Seq<u8>)
    requires
        forall|k: int| 0 <= k < raw.len() ==> raw[k] != IAC,
    ensures
        refusal_scan(raw, 0).0 == raw,
        refusal_scan(raw, 0).1.len() == 0,
{
    lemma_refusal_keeps_data(raw, 0);
    assert(raw.skip(0) =~= raw);
}

proof fn lemma_scan_keeps_data(raw: Seq<u8>, i: int, st: NegotiationState)
    requires
        0 <= i <= raw.len(),
        forall|k: int| 0 <= k < raw.len() ==> raw[k] != IAC && raw[k] != 1 && raw[k] != 2 && raw[k] != 3,
    ensures
        stream_scan(raw, i, st) == (StreamScan {
            clean: raw.skip(i),
            replies: seq![],
            state: st,
            gmcp_payloads: seq![],
        }),
    decreases raw.len() - i,
{
    if i == raw.len() {
        lemma_scan_end(raw, i, st);
        assert(raw.skip(i) =~= seq![]);
    } else {
        lemma_scan_data(raw, i, st);
        lemma_scan_keeps_data(raw, i + 1, st);
        assert(seq![raw[i]] + raw.skip(i + 1) =~= raw.skip(i));
    }
}

/// Outside telnet commands only `IAC` and the control bytes 1, 2, 3 are
/// dropped: bytes holding none of these (escape sequences included) are
/// kept whole and in order, nothing is answered, no state changes and no
/// GMCP is seen.
pub proof fn law_scan_drops_only_iac_and_control_bytes(raw: Seq<u8>, st: NegotiationState)
    requires
        forall|k: int| 0 <= k < raw.len() ==> raw[k] != 255 && raw[k] != 1 && raw[k] != 2 && raw[k] != 3,
    ensures
        stream_scan(raw, 0, st).clean == raw,
        stream_scan(raw, 0, st).replies.len() == 0,
        stream_scan(raw, 0, st).state == st,
        stream_scan(raw, 0, st).gmcp_payloads.len() == 0,
{
    lemma_scan_keeps_data(raw, 0, st);
    assert(raw.skip(0) =~= raw);
}

} // verus!
