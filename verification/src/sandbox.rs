//! Per-world script state: the world's variables and each plugin's own
//! variables, as the `GetVariable` / `SetVariable` and `GetPluginVariable` /
//! `SetPluginVariable` script functions see them.

use vstd::prelude::*;

verus! {

/// The value a lookup gives: the stored one, or the empty string.
pub open spec fn lookup(m: Map<Seq<char>, Seq<char>>, key: Seq<char>) -> Seq<char> {
    if m.dom().contains(key) {
        m[key]
    } else {
        seq![]
    }
}

/// A table of values keyed by strings, each key at most once.
pub struct KeyedTable<V> {
    entries: Vec<(String, V)>,
}

impl<V> KeyedTable<V> {
    /// No key is stored twice.
    pub closed spec fn wf(&self) -> bool {
        forall|i: int, j: int|
            0 <= i < j < self.entries@.len() ==> self.entries@[i].0@ != self.entries@[j].0@
    }

    closed spec fn has_key_at(&self, key: Seq<char>, i: int) -> bool {
        0 <= i < self.entries@.len() && self.entries@[i].0@ == key
    }
}

impl<V> View for KeyedTable<V> {
    type V = Map<Seq<char>, V>;

    closed spec fn view(&self) -> Map<Seq<char>, V> {
        Map::new(
            |k: Seq<char>| exists|i: int| self.has_key_at(k, i),
            |k: Seq<char>| self.entries@[choose|i: int| self.has_key_at(k, i)].1,
        )
    }
}

impl<V> KeyedTable<V> {
    /// An empty store.
    pub fn new() -> (r: Self)
        ensures
            r@ == Map::<Seq<char>, V>::empty(),
            r.wf(),
    {
        let r = KeyedTable { entries: Vec::new() };
        assert(r@ =~= Map::<Seq<char>, V>::empty());
        r
    }

    /// Index of the entry for `key`.
    fn position(&self, key: &String) -> (r: Option<usize>)
        ensures
            r matches Some(i) ==> self.has_key_at(key@, i as int),
            r is None ==> forall|i: int| !self.has_key_at(key@, i),
    {
        let n = self.entries.len();
        let mut i: usize = 0;
        while i < n
            invariant
                n == self.entries@.len(),
                i <= n,
                forall|j: int| 0 <= j < i ==> !self.has_key_at(key@, j),
            decreases n - i,
        {
            if self.entries[i].0 == *key {
                return Some(i);
            }
            i += 1;
        }
        None
    }

    /// The value stored under `key`.
    pub fn get(&self, key: &str) -> (r: Option<&V>)
        requires
            self.wf(),
        ensures
            r is Some <==> self@.dom().contains(key@),
            r matches Some(v) ==> *v == self@[key@],
    {
        let k = key.to_owned();
        match self.position(&k) {
            Some(i) => {
                proof {
                    self.lemma_view_at(key@, i as int);
                }
                Some(&self.entries[i].1)
            },
            None => {
                assert(!self@.dom().contains(key@));
                None
            },
        }
    }

    /// Store `value` under `key`, replacing what was there.
    pub fn set(&mut self, key: String, value: V)
        requires
            old(self).wf(),
        ensures
            final(self).wf(),
            final(self)@ == old(self)@.insert(key@, value),
    {
        let ghost old_entries = self.entries@;
        match self.position(&key) {
            Some(i) => {
                self.entries.set(i, (key, value));
                proof {
                    assert forall|a: int, b: int|
                        0 <= a < b < self.entries@.len() implies self.entries@[a].0@
                        != self.entries@[b].0@ by {
                        assert(old_entries[a].0@ != old_entries[b].0@);
                    }
                }
                proof {
                    self.lemma_view_at(key@, i as int);
                    assert forall|q: Seq<char>, j: int| q != key@ implies #[trigger] self.has_key_at(q, j)
                        == old(self).has_key_at(q, j) by {
                        if j == i as int {
                        }
                    }
                }
            },
            None => {
                self.entries.push((key, value));
                proof {
                    assert forall|a: int, b: int|
                        0 <= a < b < self.entries@.len() implies self.entries@[a].0@
                        != self.entries@[b].0@ by {
                        if b == old_entries.len() {
                            assert(!old(self).has_key_at(key@, a));
                        } else {
                            assert(old_entries[a].0@ != old_entries[b].0@);
                        }
                    }
                    self.lemma_view_at(key@, old_entries.len() as int);
                    assert forall|q: Seq<char>, j: int| q != key@ implies #[trigger] self.has_key_at(q, j)
                        == old(self).has_key_at(q, j) by {
                        if 0 <= j < old_entries.len() {
                            assert(self.entries@[j] == old_entries[j]);
                        }
                    }
                }
            },
        }
        assert(self@ =~= old(self)@.insert(key@, value)) by {
            assert forall|q: Seq<char>| #[trigger] self@.dom().contains(q) == old(self)@.insert(key@, value).dom().contains(q) by {
                if q != key@ {
                    assert(forall|j: int| self.has_key_at(q, j) == old(self).has_key_at(q, j));
                }
            }
            assert forall|q: Seq<char>| #[trigger] self@.dom().contains(q) implies self@[q] == old(
                self,
            )@.insert(key@, value)[q] by {
                if q != key@ {
                    assert(forall|j: int| self.has_key_at(q, j) == old(self).has_key_at(q, j));
                    let j = choose|j: int| self.has_key_at(q, j);
                    self.lemma_view_at(q, j);
                    old(self).lemma_view_at(q, j);
                }
            }
        }
    }

    /// Remove the entry for `key` and hand its value back.
    pub fn take(&mut self, key: &str) -> (r: Option<V>)
        requires
            old(self).wf(),
        ensures
            final(self).wf(),
            final(self)@ == old(self)@.remove(key@),
            r is Some <==> old(self)@.dom().contains(key@),
            r matches Some(v) ==> v == old(self)@[key@],
    {
        let k = key.to_owned();
        let ghost old_entries = self.entries@;
        match self.position(&k) {
            None => {
                assert(self@ =~= old(self)@.remove(key@));
                None
            },
            Some(i) => {
                proof {
                    self.lemma_view_at(key@, i as int);
                }
                let (_, v) = self.entries.remove(i);
                proof {
                    assert forall|a: int, b: int|
                        0 <= a < b < self.entries@.len() implies self.entries@[a].0@
                        != self.entries@[b].0@ by {
                        let oa = if a < i { a } else { a + 1 };
                        let ob = if b < i { b } else { b + 1 };
                        assert(self.entries@[a] == old_entries[oa]);
                        assert(self.entries@[b] == old_entries[ob]);
                        assert(old_entries[oa].0@ != old_entries[ob].0@);
                    }
                    assert forall|q: Seq<char>, j: int| #[trigger] self.has_key_at(q, j) implies old(self).has_key_at(
                        q,
                        if j < i { j } else { j + 1 },
                    ) && q != key@ by {
                        let oj = if j < i { j } else { j + 1 };
                        assert(self.entries@[j] == old_entries[oj]);
                        assert(old_entries[oj].0@ != old_entries[i as int].0@);
                    }
                    assert forall|q: Seq<char>, j: int| #[trigger] old(self).has_key_at(q, j) && q != key@ implies self.has_key_at(
                        q,
                        if j < i { j } else { j - 1 },
                    ) by {
                        let nj = if j < i { j } else { j - 1 };
                        assert(j != i);
                        assert(self.entries@[nj] == old_entries[j]);
                    }
                }
                assert(self@ =~= old(self)@.remove(key@)) by {
                    assert forall|q: Seq<char>| #[trigger] self@.dom().contains(q) == old(self)@.remove(key@).dom().contains(q) by {
                        if self@.dom().contains(q) {
                            let j = choose|j: int| self.has_key_at(q, j);
                            assert(old(self).has_key_at(q, if j < i { j } else { j + 1 }));
                        }
                        if old(self)@.remove(key@).dom().contains(q) {
                            let j = choose|j: int| old(self).has_key_at(q, j);
                            assert(self.has_key_at(q, if j < i { j } else { j - 1 }));
                        }
                    }
                    assert forall|q: Seq<char>| #[trigger] self@.dom().contains(q) implies self@[q] == old(self)@.remove(key@)[q] by {
                        let j = choose|j: int| self.has_key_at(q, j);
                        let oj = if j < i { j } else { j + 1 };
                        assert(old(self).has_key_at(q, oj));
                        self.lemma_view_at(q, j);
                        old(self).lemma_view_at(q, oj);
                        assert(self.entries@[j] == old_entries[oj]);
                    }
                }
                Some(v)
            },
        }
    }

    proof fn lemma_view_at(&self, key: Seq<char>, i: int)
        requires
            self.wf(),
            self.has_key_at(key, i),
        ensures
            self@.dom().contains(key),
            self@[key] == self.entries@[i].1,
    {
        let c = choose|j: int| self.has_key_at(key, j);
        assert(self.has_key_at(key, c));
        if c < i {
            assert(self.entries@[c].0@ != self.entries@[i].0@);
        } else if c > i {
            assert(self.entries@[i].0@ != self.entries@[c].0@);
        }
    }
}


/// The variables of a world.
pub struct VariableStore {
    table: KeyedTable<String>,
}

impl View for VariableStore {
    type V = Map<Seq<char>, Seq<char>>;

    closed spec fn view(&self) -> Map<Seq<char>, Seq<char>> {
        self.table@.map_values(|s: String| s@)
    }
}

impl VariableStore {
    pub closed spec fn wf(&self) -> bool {
        self.table.wf()
    }

    /// No variables yet.
    pub fn new() -> (r: Self)
        ensures
            r.wf(),
            r@ == Map::<Seq<char>, Seq<char>>::empty(),
    {
        let r = VariableStore { table: KeyedTable::new() };
        assert(r@ =~= Map::<Seq<char>, Seq<char>>::empty());
        r
    }

    /// `GetVariable`: the value of `key`, or the empty string.
    pub fn get(&self, key: &str) -> (r: String)
        requires
            self.wf(),
        ensures
            r@ == lookup(self@, key@),
    {
        match self.table.get(key) {
            Some(v) => v.clone(),
            None => String::new(),
        }
    }

    /// `SetVariable`: store `value` under `key`.
    pub fn set(&mut self, key: String, value: String)
        requires
            old(self).wf(),
        ensures
            final(self).wf(),
            final(self)@ == old(self)@.insert(key@, value@),
    {
        let ghost k = key@;
        let ghost v = value@;
        self.table.set(key, value);
        assert(self@ =~= old(self)@.insert(k, v));
    }
}

/// The value a plugin variable lookup gives: the stored one, or the empty
/// string (also for an unknown plugin).
pub open spec fn plugin_lookup(m: Map<Seq<char>, Map<Seq<char>, Seq<char>>>, plugin: Seq<char>, key: Seq<char>) -> Seq<char> {
    if m.dom().contains(plugin) {
        lookup(m[plugin], key)
    } else {
        seq![]
    }
}

/// The variables of every plugin, each plugin with a space of its own.
pub struct PluginVariableStore {
    table: KeyedTable<VariableStore>,
}

impl View for PluginVariableStore {
    type V = Map<Seq<char>, Map<Seq<char>, Seq<char>>>;

    closed spec fn view(&self) -> Map<Seq<char>, Map<Seq<char>, Seq<char>>> {
        self.table@.map_values(|s: VariableStore| s@)
    }
}

impl PluginVariableStore {
    pub closed spec fn wf(&self) -> bool {
        &&& self.table.wf()
        &&& forall|p: Seq<char>| #[trigger] self.table@.dom().contains(p) ==> self.table@[p].wf()
    }

    /// No plugin variables yet.
    pub fn new() -> (r: Self)
        ensures
            r.wf(),
            r@ == Map::<Seq<char>, Map<Seq<char>, Seq<char>>>::empty(),
    {
        let r = PluginVariableStore { table: KeyedTable::new() };
        assert(r@ =~= Map::<Seq<char>, Map<Seq<char>, Seq<char>>>::empty());
        r
    }

    /// `GetPluginVariable`: the value of `var_name` in `plugin_id`'s space,
    /// or the empty string.
    pub fn get(&self, plugin_id: &str, var_name: &str) -> (r: String)
        requires
            self.wf(),
        ensures
            r@ == plugin_lookup(self@, plugin_id@, var_name@),
    {
        match self.table.get(plugin_id) {
            Some(store) => store.get(var_name),
            None => String::new(),
        }
    }

    /// `SetPluginVariable`: store `value` under `var_name` in `plugin_id`'s
    /// space, creating the space when needed.
    pub fn set(&mut self, plugin_id: String, var_name: String, value: String)
        requires
            old(self).wf(),
        ensures
            final(self).wf(),
            final(self)@ == plugin_set(old(self)@, plugin_id@, var_name@, value@),
    {
        let ghost p = plugin_id@;
        let ghost k = var_name@;
        let ghost v = value@;
        let mut store = match self.table.take(plugin_id.as_str()) {
            Some(s) => s,
            None => VariableStore::new(),
        };
        store.set(var_name, value);
        self.table.set(plugin_id, store);
        assert(self@ =~= plugin_set(old(self)@, p, k, v));
    }
}

/// What a read gives back after a write: the written value for the written
/// key, and the earlier value for every other key.
pub proof fn law_read_after_write(m: Map<Seq<char>, Seq<char>>, key: Seq<char>, value: Seq<char>, other: Seq<char>)
    ensures
        lookup(m.insert(key, value), key) == value,
        other != key ==> lookup(m.insert(key, value), other) == lookup(m, other),
{
}

/// The state after `SetPluginVariable(plugin, key, value)`.
pub open spec fn plugin_set(
    m: Map<Seq<char>, Map<Seq<char>, Seq<char>>>,
    plugin: Seq<char>,
    key: Seq<char>,
    value: Seq<char>,
) -> Map<Seq<char>, Map<Seq<char>, Seq<char>>> {
    m.insert(
        plugin,
        (if m.dom().contains(plugin) {
            m[plugin]
        } else {
            Map::empty()
        }).insert(key, value),
    )
}

/// Plugin variable spaces are isolated: a write is read back in its own
/// plugin's space and changes nothing that any other plugin, or any other
/// variable, reads.
pub proof fn law_plugin_spaces_are_isolated(
    m: Map<Seq<char>, Map<Seq<char>, Seq<char>>>,
    plugin: Seq<char>,
    key: Seq<char>,
    value: Seq<char>,
    other_plugin: Seq<char>,
    other_key: Seq<char>,
)
    ensures
        plugin_lookup(plugin_set(m, plugin, key, value), plugin, key) == value,
        (other_plugin != plugin || other_key != key) ==> plugin_lookup(
            plugin_set(m, plugin, key, value),
            other_plugin,
            other_key,
        ) == plugin_lookup(m, other_plugin, other_key),
{
}

} // verus!
