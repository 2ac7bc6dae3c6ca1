//! Book-keeping of the broker process: the gRPC port of each world tab and
//! the process ids of the running world daemons.

use vstd::prelude::*;
use crate::sandbox::KeyedTable;

verus! {

/// The port given to the first world tab.
pub const FIRST_WORLD_PORT: u16 = 50051;

/// `x + 1` on 16 bits, wrapping at the top (the atomic counter's `fetch_add`).
pub open spec fn next_port_after(x: u16) -> u16 {
    if x == u16::MAX {
        0
    } else {
        (x + 1) as u16
    }
}

/// The gRPC port of every world tab, and the next port to hand out.
pub struct TabPortRegistry {
    ports: KeyedTable<u16>,
    next_port: u16,
}

impl TabPortRegistry {
    pub closed spec fn wf(&self) -> bool {
        self.ports.wf()
    }

    /// The port of each known tab.
    pub closed spec fn ports(&self) -> Map<Seq<char>, u16> {
        self.ports@
    }

    /// The port the next new tab gets.
    pub closed spec fn next(&self) -> u16 {
        self.next_port
    }

    /// No tabs yet; the first tab gets `FIRST_WORLD_PORT`.
    pub fn new() -> (r: Self)
        ensures
            r.wf(),
            r.ports() == Map::<Seq<char>, u16>::empty(),
            r.next() == FIRST_WORLD_PORT,
    {
        TabPortRegistry { ports: KeyedTable::new(), next_port: FIRST_WORLD_PORT }
    }

    /// The port of `tab_id`, if it has one.
    pub fn port_of(&self, tab_id: &str) -> (r: Option<u16>)
        requires
            self.wf(),
        ensures
            r is Some <==> self.ports().dom().contains(tab_id@),
            r matches Some(p) ==> p == self.ports()[tab_id@],
    {
        match self.ports.get(tab_id) {
            Some(p) => Some(*p),
            None => None,
        }
    }

    /// Give `tab_id` the next port, unless it has one already (then nothing
    /// changes and `None` comes back: its daemon runs already).
    pub fn assign(&mut self, tab_id: String) -> (r: Option<u16>)
        requires
            old(self).wf(),
        ensures
            final(self).wf(),
            old(self).ports().dom().contains(tab_id@) ==> r is None && final(self).ports() == old(
                self,
            ).ports() && final(self).next() == old(self).next(),
            !old(self).ports().dom().contains(tab_id@) ==> r == Some(old(self).next())
                && final(self).ports() == old(self).ports().insert(tab_id@, old(self).next())
                && final(self).next() == next_port_after(old(self).next()),
    {
        match self.ports.get(tab_id.as_str()) {
            Some(_) => None,
            None => {
                let port = self.next_port;
                self.next_port = if port == u16::MAX {
                    0
                } else {
                    port + 1
                };
                self.ports.set(tab_id, port);
                Some(port)
            },
        }
    }
}

/// `s` without the elements equal to `x`, order kept.
pub open spec fn without(s: Seq<u32>, x: u32) -> Seq<u32> {
    s.filter(other_than(x))
}

/// The test that keeps everything but `x`.
pub open spec fn other_than(x: u32) -> spec_fn(u32) -> bool {
    |y: u32| y != x
}

/// The process ids of the running world daemons.
pub struct ProcessRegistry {
    pids: Vec<u32>,
}

impl View for ProcessRegistry {
    type V = Seq<u32>;

    closed spec fn view(&self) -> Seq<u32> {
        self.pids@
    }
}

impl ProcessRegistry {
    /// No daemons yet.
    pub fn new() -> (r: Self)
        ensures
            r@ == Seq::<u32>::empty(),
    {
        ProcessRegistry { pids: Vec::new() }
    }

    /// Record a spawned daemon; pid 0 (unknown) is not recorded.
    pub fn register(&mut self, pid: u32)
        ensures
            final(self)@ == (if pid > 0 {
                old(self)@.push(pid)
            } else {
                old(self)@
            }),
    {
        if pid > 0 {
            self.pids.push(pid);
        }
    }

    /// Forget a daemon that has exited: every record of `pid` goes.
    pub fn unregister(&mut self, pid: u32)
        ensures
            final(self)@ == without(old(self)@, pid),
    {
        let mut kept: Vec<u32> = Vec::new();
        let n = self.pids.len();
        let mut i: usize = 0;
        while i < n
            invariant
                n == self.pids@.len(),
                i <= n,
                kept@ == without(self.pids@.take(i as int), pid),
            decreases n - i,
        {
            let x = self.pids[i];
            proof {
                reveal_with_fuel(Seq::filter, 1);
                assert(self.pids@.take(i + 1).drop_last() =~= self.pids@.take(i as int));
            }
            if x != pid {
                kept.push(x);
            }
            i += 1;
        }
        assert(self.pids@.take(n as int) =~= self.pids@);
        self.pids = kept;
    }

    /// The daemons to kill when the broker's window closes.
    pub fn kill_list(&self) -> (r: Vec<u32>)
        ensures
            r@ == self@.filter(|p: u32| p > 0),
    {
        let mut out: Vec<u32> = Vec::new();
        let n = self.pids.len();
        let mut i: usize = 0;
        while i < n
            invariant
                n == self.pids@.len(),
                i <= n,
                out@ == self.pids@.take(i as int).filter(|p: u32| p > 0),
            decreases n - i,
        {
            let x = self.pids[i];
            proof {
                reveal_with_fuel(Seq::filter, 1);
                assert(self.pids@.take(i + 1).drop_last() =~= self.pids@.take(i as int));
            }
            if x > 0 {
                out.push(x);
            }
            i += 1;
        }
        assert(self.pids@.take(n as int) =~= self.pids@);
        out
    }
}

/// Every tab's port lies in `[FIRST_WORLD_PORT, next)` and no two tabs share one.
pub open spec fn ports_distinct_below(ports: Map<Seq<char>, u16>, next: u16) -> bool {
    &&& forall|t: Seq<char>| #[trigger] ports.dom().contains(t) ==> FIRST_WORLD_PORT <= ports[t] < next
    &&& forall|a: Seq<char>, b: Seq<char>|
        #[trigger] ports.dom().contains(a) && #[trigger] ports.dom().contains(b) && a != b ==> ports[a] != ports[b]
}

/// Until the port counter wraps, a new tab gets a port no other tab has.
pub proof fn law_new_tabs_get_distinct_ports(ports: Map<Seq<char>, u16>, next: u16, tab: Seq<char>)
    requires
        ports_distinct_below(ports, next),
        FIRST_WORLD_PORT <= next < u16::MAX,
        !ports.dom().contains(tab),
    ensures
        ports_distinct_below(ports.insert(tab, next), next_port_after(next)),
{
}

/// After a daemon is forgotten, no record of its pid is left, and every
/// other record is kept.
pub proof fn law_unregistered_pid_is_gone(pids: Seq<u32>, pid: u32)
    ensures
        !without(pids, pid).contains(pid),
        forall|q: u32| q != pid ==> (pids.contains(q) <==> without(pids, pid).contains(q)),
{
    broadcast use vstd::seq_lib::group_filter_ensures;
    let f = other_than(pid);
    assert(!pids.filter(f).contains(pid)) by {
        if pids.filter(f).contains(pid) {
            let i = choose|i: int| 0 <= i < pids.filter(f).len() && pids.filter(f)[i] == pid;
            assert(f(pids.filter(f)[i]));
        }
    }
    assert forall|q: u32| q != pid implies (pids.contains(q) <==> pids.filter(f).contains(q)) by {
        if pids.contains(q) {
            let i = choose|i: int| 0 <= i < pids.len() && pids[i] == q;
            pids.lemma_filter_contains(f, i);
        }
        if pids.filter(f).contains(q) {
            pids.lemma_filter_contains_rev(f, q);
        }
    }
}

} // verus!
