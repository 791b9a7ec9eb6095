//! The binding table: chord bytes mapped to command indices, held in an
//! immutable finite-state transducer map, and the builder that lays it out.

use vstd::prelude::*;

use crate::key::{Key, Locks};
use crate::order::{bytes_lt, compare_keys, strictly_sorted, lemma_lt_irreflexive,
    lemma_lt_total, lemma_lt_transitive, lemma_sorted_unique};

verus! {

#[verifier::external_type_specification]
#[verifier::external_body]
#[verifier::reject_recursive_types(D)]
pub struct ExFstMap<D>(fst::Map<D>);

#[verifier::external_type_specification]
#[verifier::external_body]
pub struct ExFstError(fst::Error);

/// The key-value pairs that a transducer map holds.
pub uninterp spec fn fst_contents(m: fst::Map<Vec<u8>>) -> Map<Seq<u8>, u64>;

/// The serialized form of a transducer map.
pub uninterp spec fn fst_bytes(m: fst::Map<Vec<u8>>) -> Seq<u8>;

/// The serialized form that the map builder writes for these entries,
/// inserted in this order.
pub uninterp spec fn fst_image(entries: Seq<(Seq<u8>, u64)>) -> Seq<u8>;

/// Keys strictly increase from each entry to the next.
pub open spec fn keys_ascending(s: Seq<(Seq<u8>, u64)>) -> bool {
    forall|i: int| 0 < i < s.len() ==> bytes_lt(#[trigger] s[i - 1].0, s[i].0)
}

/// `m` maps each key of `s` to its value in `s`, and holds no other key.
pub open spec fn holds_entries(m: Map<Seq<u8>, u64>, s: Seq<(Seq<u8>, u64)>) -> bool {
    &&& forall|i: int| 0 <= i < s.len() ==> #[trigger] m.contains_key(s[i].0) && m[s[i].0] == s[i].1
    &&& forall|k: Seq<u8>| #[trigger] m.contains_key(k) ==> exists|i: int| 0 <= i < s.len() && s[i].0 == k
}

/// Entries with their keys seen as byte sequences.
pub open spec fn entries_view(s: Seq<([u8; 12], u64)>) -> Seq<(Seq<u8>, u64)> {
    s.map_values(|e: ([u8; 12], u64)| (e.0@, e.1))
}

/// Relies on fst::Map::from_iter, which inserts the entries in order into a
/// map builder writing to memory: it fails exactly where a key is not greater
/// than the one before it, and the map then holds the entries.
#[verifier::external_body]
fn build_fst(entries: &Vec<([u8; 12], u64)>) -> (r: Result<fst::Map<Vec<u8>>, fst::Error>)
    ensures
        r is Ok <==> keys_ascending(entries_view(entries@)),
        r matches Ok(m) ==> holds_entries(fst_contents(m), entries_view(entries@)),
        r matches Ok(m) ==> fst_bytes(m) == fst_image(entries_view(entries@)),
{
    fst::Map::from_iter(entries.iter().copied())
}

/// Relies on fst::Map::get: the value of `key`, if the map holds it.
#[verifier::external_body]
fn fst_get(m: &fst::Map<Vec<u8>>, key: &[u8; 12]) -> (r: Option<u64>)
    ensures
        r == if fst_contents(*m).contains_key(key@) {
            Some(fst_contents(*m)[key@])
        } else {
            None::<u64>
        },
{
    m.get(key)
}

/// Relies on fst::raw::Fst::as_bytes: the map's serialized form.
#[verifier::external_body]
fn fst_to_bytes(m: &fst::Map<Vec<u8>>) -> (r: Vec<u8>)
    ensures
        r@ == fst_bytes(*m),
{
    m.as_fst().as_bytes().to_vec()
}

/// Two entries give one key different values.
pub open spec fn conflicting(s: Seq<(Seq<u8>, u64)>) -> bool {
    exists|i: int, j: int|
        0 <= i < s.len() && 0 <= j < s.len() && #[trigger] s[i].0 == #[trigger] s[j].0 && s[i].1
            != s[j].1
}

/// `out` holds the entries of `s`, each once, in increasing key order.
pub open spec fn is_layout(out: Seq<(Seq<u8>, u64)>, s: Seq<(Seq<u8>, u64)>) -> bool {
    strictly_sorted(out) && out.to_set() == s.to_set()
}

/// The order in which the entries of `s` are written into the table.
pub open spec fn layout_of(s: Seq<(Seq<u8>, u64)>) -> Seq<(Seq<u8>, u64)> {
    choose|out: Seq<(Seq<u8>, u64)>| is_layout(out, s)
}

/// Table `t` maps a key to a value exactly where `s` holds that entry.
pub open spec fn represents(t: Map<Seq<u8>, u64>, s: Seq<(Seq<u8>, u64)>) -> bool {
    forall|k: Seq<u8>, v: u64| (t.contains_key(k) && t[k] == v) <==> #[trigger] s.contains((k, v))
}

/// The chord under each lock state: plain, with num lock, with caps lock, with both.
pub open spec fn lock_variants_spec(locks: Locks, key: Key) -> Seq<Key> {
    seq![
        key,
        Key { sym: key.sym, mask: key.mask | locks.num_mask() },
        Key { sym: key.sym, mask: key.mask | locks.caps_mask() },
        Key { sym: key.sym, mask: key.mask | locks.num_mask() | locks.caps_mask() },
    ]
}

/// The table entries that binding `key` to command `idx` adds.
pub open spec fn bind_entries(locks: Locks, key: Key, idx: u64) -> Seq<(Seq<u8>, u64)> {
    lock_variants_spec(locks, key).map_values(|k: Key| (k.spec_bytes(), idx))
}

/// What a table lookup of `key` gives, where `count` commands exist: an index
/// that no command has is no match.
pub open spec fn lookup_in(t: Map<Seq<u8>, u64>, count: nat, key: Key) -> Option<usize> {
    if t.contains_key(key.spec_bytes()) && t[key.spec_bytes()] < count {
        Some(t[key.spec_bytes()] as usize)
    } else {
        None
    }
}

/// Why a table cannot be built.
#[derive(Debug, Clone, Copy, PartialEq, Eq, Structural)]
pub enum BuildError {
    /// One chord is bound to two different commands.
    DuplicatePattern,
}

/// Collects bindings: commands, indexed in order of binding, and the table
/// entries of their chords.
pub struct Builder<C> {
    commands: Vec<C>,
    binds: Vec<([u8; 12], u64)>,
    locks: Locks,
}

proof fn lemma_insert_to_set<A>(s: Seq<A>, i: int, x: A)
    requires
        0 <= i <= s.len(),
    ensures
        s.insert(i, x).to_set() == s.to_set().insert(x),
{
    let t = s.insert(i, x);
    assert forall|y: A| t.to_set().contains(y) <==> s.to_set().insert(x).contains(y) by {
        if t.to_set().contains(y) {
            let k = choose|k: int| 0 <= k < t.len() && t[k] == y;
            if k < i {
                assert(s[k] == y);
            } else if k > i {
                assert(s[k - 1] == y);
            }
        }
        if s.to_set().contains(y) {
            let k = choose|k: int| 0 <= k < s.len() && s[k] == y;
            if k < i {
                assert(t[k] == y);
            } else {
                assert(t[k + 1] == y);
            }
        }
        if y == x {
            assert(t[i] == x);
        }
    }
    assert(t.to_set() =~= s.to_set().insert(x));
}

/// Inserting an entry at the place where its key belongs keeps the entries
/// sorted and adds the entry to those held.
proof fn lemma_insert_sorted(ov: Seq<(Seq<u8>, u64)>, p: int, e: (Seq<u8>, u64))
    requires
        strictly_sorted(ov),
        0 <= p <= ov.len(),
        forall|q: int| 0 <= q < p ==> bytes_lt(#[trigger] ov[q].0, e.0),
        p < ov.len() ==> bytes_lt(e.0, ov[p].0),
    ensures
        strictly_sorted(ov.insert(p, e)),
        ov.insert(p, e).to_set() == ov.to_set().insert(e),
{
    let out = ov.insert(p, e);
    lemma_insert_to_set(ov, p, e);
    assert forall|a: int, b: int| 0 <= a < b < out.len() implies bytes_lt(
        #[trigger] out[a].0,
        #[trigger] out[b].0,
    ) by {
        if b == p {
            assert(out[a] == ov[a]);
        } else if a == p {
            assert(out[b] == ov[b - 1]);
            if b - 1 > p {
                lemma_lt_transitive(e.0, ov[p].0, ov[b - 1].0);
            }
        } else if b < p {
            assert(out[a] == ov[a] && out[b] == ov[b]);
        } else if a < p {
            assert(out[a] == ov[a] && out[b] == ov[b - 1]);
            lemma_lt_transitive(ov[a].0, e.0, ov[p].0);
            if b - 1 > p {
                lemma_lt_transitive(ov[a].0, ov[p].0, ov[b - 1].0);
            }
        } else {
            assert(out[a] == ov[a - 1] && out[b] == ov[b - 1]);
        }
    }
}

/// Number of leading entries of `s` whose key comes before `k`.
spec fn count_below(s: Seq<(Seq<u8>, u64)>, k: Seq<u8>) -> nat
    decreases s.len(),
{
    if s.len() > 0 && bytes_lt(s[0].0, k) {
        1 + count_below(s.drop_first(), k)
    } else {
        0
    }
}

proof fn lemma_count_below(s: Seq<(Seq<u8>, u64)>, k: Seq<u8>)
    ensures
        count_below(s, k) <= s.len(),
        forall|q: int| 0 <= q < count_below(s, k) ==> bytes_lt(#[trigger] s[q].0, k),
        count_below(s, k) < s.len() ==> !bytes_lt(s[count_below(s, k) as int].0, k),
    decreases s.len(),
{
    if s.len() > 0 && bytes_lt(s[0].0, k) {
        lemma_count_below(s.drop_first(), k);
        assert forall|q: int| 0 <= q < count_below(s, k) implies bytes_lt(#[trigger] s[q].0, k) by {
            if q > 0 {
                assert(s[q] == s.drop_first()[q - 1]);
            }
        }
    }
}

/// Entries that give no key two values have a layout.
pub proof fn lemma_layout_exists(s: Seq<(Seq<u8>, u64)>)
    requires
        !conflicting(s),
    ensures
        is_layout(layout_of(s), s),
    decreases s.len(),
{
    if s.len() == 0 {
        let out = Seq::<(Seq<u8>, u64)>::empty();
        assert(out.to_set() =~= s.to_set());
        assert(is_layout(out, s));
    } else {
        let pre = s.drop_last();
        let e = s.last();
        assert(s =~= pre.push(e));
        assert forall|a: int, b: int|
            0 <= a < pre.len() && 0 <= b < pre.len() && #[trigger] pre[a].0 == #[trigger] pre[b].0
                implies pre[a].1 == pre[b].1 by {
            assert(s[a] == pre[a] && s[b] == pre[b]);
        }
        lemma_layout_exists(pre);
        let ov = layout_of(pre);
        pre.lemma_push_to_set_commute(e);
        if ov.to_set().contains(e) {
            assert(s.to_set() =~= pre.to_set());
            assert(is_layout(ov, s));
        } else {
            lemma_count_below(ov, e.0);
            let p = count_below(ov, e.0) as int;
            if p < ov.len() {
                lemma_lt_total(e.0, ov[p].0);
                if ov[p].0 == e.0 {
                    assert(pre.to_set().contains(ov[p]));
                    let j = choose|j: int| 0 <= j < pre.len() && pre[j] == ov[p];
                    assert(s[j].0 == s[s.len() - 1].0 && s[j].1 != s[s.len() - 1].1);
                }
            }
            let out = ov.insert(p, e);
            lemma_insert_sorted(ov, p, e);
            assert(is_layout(out, s));
        }
    }
}

impl<C> Builder<C> {
    /// The table entries bound so far, in order of binding.
    pub closed spec fn entries(&self) -> Seq<(Seq<u8>, u64)> {
        entries_view(self.binds@)
    }

    /// The commands bound so far; the index of each is its position.
    pub closed spec fn commands(&self) -> Seq<C> {
        self.commands@
    }

    pub closed spec fn locks(&self) -> Locks {
        self.locks
    }

    /// Every entry addresses one of the commands bound so far.
    pub open spec fn indices_bound(&self) -> bool {
        forall|i: int|
            0 <= i < self.entries().len() ==> (#[trigger] self.entries()[i]).1
                < self.commands().len()
    }

    /// An empty builder, with the lock keys where the modifier map places them.
    pub fn new() -> (r: Builder<C>)
        ensures
            r.entries() == Seq::<(Seq<u8>, u64)>::empty(),
            r.commands() == Seq::<C>::empty(),
            r.locks() == Locks::new_spec(),
            r.indices_bound(),
    {
        Builder::with_locks(Locks::new())
    }

    /// An empty builder with the given lock keys.
    pub fn with_locks(locks: Locks) -> (r: Builder<C>)
        ensures
            r.entries() == Seq::<(Seq<u8>, u64)>::empty(),
            r.commands() == Seq::<C>::empty(),
            r.locks() == locks,
            r.indices_bound(),
    {
        let r = Builder { commands: Vec::new(), binds: Vec::new(), locks };
        assert(entries_view(r.binds@) =~= Seq::<(Seq<u8>, u64)>::empty());
        r
    }

    /// The chords that binding `key` registers: one for each lock state.
    pub fn lock_variants(&self, key: Key) -> (r: [Key; 4])
        ensures
            r@ == lock_variants_spec(self.locks(), key),
    {
        let num = match self.locks.num {
            Some(m) => m,
            None => 0,
        };
        let caps = match self.locks.caps {
            Some(m) => m,
            None => crate::key::LOCK,
        };
        let numlocked = key.merge(Key::mask(num));
        let capslocked = key.merge(Key::mask(caps));
        let all_locked = numlocked.merge(capslocked);
        let r = [key, numlocked, capslocked, all_locked];
        let ghost m = key.mask;
        assert((m | num) | (m | caps) == (m | num) | caps) by (bit_vector);
        assert(r@ =~= lock_variants_spec(self.locks(), key));
        r
    }

    /// Binds `key`, under every lock state, to `cmd`, which gets the next index.
    pub fn bind(&mut self, key: Key, cmd: C)
        ensures
            final(self).commands() == old(self).commands().push(cmd),
            final(self).entries() == old(self).entries() + bind_entries(
                old(self).locks(),
                key,
                old(self).commands().len() as u64,
            ),
            final(self).locks() == old(self).locks(),
            old(self).indices_bound() ==> final(self).indices_bound(),
    {
        let variants = self.lock_variants(key);
        let idx = self.commands.len() as u64;
        self.commands.push(cmd);
        let ghost before = self.binds@;
        self.binds.push((variants[0].to_bytes(), idx));
        self.binds.push((variants[1].to_bytes(), idx));
        self.binds.push((variants[2].to_bytes(), idx));
        self.binds.push((variants[3].to_bytes(), idx));
        assert(entries_view(self.binds@) =~= entries_view(before) + bind_entries(
            self.locks,
            key,
            idx,
        ));
        assert(idx == old(self).commands().len());
        assert(old(self).indices_bound() ==> self.indices_bound()) by {
            if old(self).indices_bound() {
                let ents = self.entries();
                assert forall|i: int| 0 <= i < ents.len() implies (#[trigger] ents[i]).1
                    < self.commands().len() by {
                    if i < old(self).entries().len() {
                        assert(ents[i] == old(self).entries()[i]);
                    }
                }
            }
        }
    }

    /// Lays the entries out in increasing key order, each once, and builds the
    /// table from them; fails where one chord is bound to two commands.
    pub fn finish(self) -> (r: Result<Controler<C>, BuildError>)
        ensures
            r is Err <==> conflicting(self.entries()),
            r matches Ok(c) ==> represents(c.table(), self.entries()),
            r matches Ok(c) ==> c.commands() == self.commands(),
            r matches Ok(c) ==> (self.indices_bound() ==> forall|k: Seq<u8>|
                #[trigger] c.table().contains_key(k) ==> c.table()[k] < c.commands().len()),
            r matches Ok(c) ==> is_layout(layout_of(self.entries()), self.entries()),
            r matches Ok(c) ==> c.image() == fst_image(layout_of(self.entries())),
    {
        let ghost s = self.entries();
        let ghost ent_bound = self.indices_bound();
        let Builder { commands, binds, locks: _ } = self;
        assert(s == entries_view(binds@));
        let mut out: Vec<([u8; 12], u64)> = Vec::new();
        let mut n: usize = 0;
        assert(entries_view(out@).to_set() =~= s.subrange(0, 0).to_set());
        while n < binds.len()
            invariant
                s == entries_view(binds@),
                s == self.entries(),
                n <= binds@.len(),
                strictly_sorted(entries_view(out@)),
                entries_view(out@).to_set() == s.subrange(0, n as int).to_set(),
                !conflicting(s.subrange(0, n as int)),
            decreases binds.len() - n,
        {
            let (kb, v) = binds[n];
            let ghost ov = entries_view(out@);
            let ghost e = s[n as int];
            assert(e == (kb@, v));
            let ghost pre = s.subrange(0, n as int);
            let ghost next = s.subrange(0, n + 1);
            assert(next =~= pre.push(e));
            assert(next.to_set() == pre.to_set().insert(e)) by {
                pre.lemma_push_to_set_commute(e);
            }
            let mut p: usize = 0;
            while p < out.len() && compare_keys(&out[p].0, &kb) < 0
                invariant
                    ov == entries_view(out@),
                    p <= out@.len(),
                    forall|q: int| 0 <= q < p ==> bytes_lt(#[trigger] ov[q].0, kb@),
                decreases out.len() - p,
            {
                p = p + 1;
            }
            if p < out.len() && compare_keys(&out[p].0, &kb) == 0 {
                assert(ov[p as int].0 == kb@);
                assert(ov.to_set().contains(ov[p as int]));
                let ghost j = choose|j: int| 0 <= j < pre.len() && pre[j] == ov[p as int];
                if out[p].1 != v {
                    assert(next[j].0 == next[n as int].0 && next[j].1 != next[n as int].1);
                    assert(conflicting(s)) by {
                        assert(s[j].0 == s[n as int].0 && s[j].1 != s[n as int].1);
                    }
                    return Err(BuildError::DuplicatePattern);
                }
                assert(ov[p as int] == e);
                assert(pre.to_set().insert(e) =~= pre.to_set());
                assert forall|a: int, b: int|
                    0 <= a < next.len() && 0 <= b < next.len() && #[trigger] next[a].0
                        == #[trigger] next[b].0 implies next[a].1 == next[b].1 by {
                    if a == n || b == n {
                        let o = if a == n { b } else { a };
                        if o < n {
                            assert(pre.to_set().contains(pre[o]));
                            let q = choose|q: int| 0 <= q < ov.len() && ov[q] == pre[o];
                            if q != p {
                                lemma_lt_irreflexive(kb@);
                                if q < p {
                                    assert(bytes_lt(ov[q].0, ov[p as int].0));
                                } else {
                                    assert(bytes_lt(ov[p as int].0, ov[q].0));
                                }
                            }
                        }
                    } else {
                        assert(pre[a] == next[a] && pre[b] == next[b]);
                    }
                }
            } else {
                assert(p < out.len() ==> bytes_lt(kb@, ov[p as int].0)) by {
                    if p < out.len() {
                        lemma_lt_total(kb@, ov[p as int].0);
                    }
                }
                out.insert(p, (kb, v));
                let ghost nv = entries_view(out@);
                assert(nv =~= ov.insert(p as int, e));
                proof {
                    lemma_insert_sorted(ov, p as int, e);
                }
                assert forall|a: int, b: int|
                    0 <= a < next.len() && 0 <= b < next.len() && #[trigger] next[a].0
                        == #[trigger] next[b].0 implies next[a].1 == next[b].1 by {
                    if a == n || b == n {
                        let o = if a == n { b } else { a };
                        if o < n {
                            assert(pre.to_set().contains(pre[o]));
                            let q = choose|q: int| 0 <= q < ov.len() && ov[q] == pre[o];
                            lemma_lt_irreflexive(kb@);
                            if q >= p {
                                if q > p {
                                    lemma_lt_transitive(kb@, ov[p as int].0, ov[q].0);
                                }
                            }
                        }
                    } else {
                        assert(pre[a] == next[a] && pre[b] == next[b]);
                    }
                }
            }
            n = n + 1;
        }
        assert(s.subrange(0, n as int) =~= s);
        let ghost layout = entries_view(out@);
        assert(keys_ascending(layout)) by {
            assert forall|i: int| 0 < i < layout.len() implies bytes_lt(
                #[trigger] layout[i - 1].0,
                layout[i].0,
            ) by {
                assert(bytes_lt(layout[i - 1].0, layout[i].0));
            }
        }
        assert(is_layout(layout, s));
        proof {
            lemma_sorted_unique(layout, layout_of(s));
        }
        match build_fst(&out) {
            Ok(map) => {
                assert forall|k: Seq<u8>, v: u64|
                    (fst_contents(map).contains_key(k) && fst_contents(map)[k] == v) <==> #[trigger] s.contains(
                        (k, v),
                    ) by {
                    let t = fst_contents(map);
                    if t.contains_key(k) && t[k] == v {
                        let i = choose|i: int| 0 <= i < layout.len() && layout[i].0 == k;
                        assert(layout.to_set().contains(layout[i]));
                    }
                    if s.contains((k, v)) {
                        assert(s.to_set().contains((k, v)));
                        let i = choose|i: int| 0 <= i < layout.len() && layout[i] == (k, v);
                        assert(t.contains_key(layout[i].0));
                    }
                }
                let c = Controler { cmds: commands, map };
                assert(ent_bound ==> forall|k: Seq<u8>|
                    #[trigger] c.table().contains_key(k) ==> c.table()[k] < c.commands().len()) by {
                    if ent_bound {
                        assert forall|k: Seq<u8>| #[trigger] c.table().contains_key(k) implies c.table()[k]
                            < c.commands().len() by {
                            assert(s.contains((k, c.table()[k])));
                        }
                    }
                }
                Ok(c)
            },
            Err(_) => Err(BuildError::DuplicatePattern),
        }
    }
}

/// The built table and the commands that its indices address.
pub struct Controler<C> {
    cmds: Vec<C>,
    map: fst::Map<Vec<u8>>,
}

impl<C> Controler<C> {
    /// The key-value pairs of the table.
    pub closed spec fn table(&self) -> Map<Seq<u8>, u64> {
        fst_contents(self.map)
    }

    /// The table in its serialized form.
    pub closed spec fn image(&self) -> Seq<u8> {
        fst_bytes(self.map)
    }

    pub closed spec fn commands(&self) -> Seq<C> {
        self.cmds@
    }

    /// Index of the command bound to `key`, if one is.
    pub fn lookup(&self, key: Key) -> (r: Option<usize>)
        ensures
            r == lookup_in(self.table(), self.commands().len(), key),
    {
        let bytes = key.to_bytes();
        match fst_get(&self.map, &bytes) {
            Some(index) => {
                if index < self.cmds.len() as u64 {
                    Some(index as usize)
                } else {
                    None
                }
            },
            None => None,
        }
    }

    /// The command to run for chord `key`: none where it is bound to nothing.
    pub fn execute(&self, key: Key) -> (r: Option<&C>)
        ensures
            r == match lookup_in(self.table(), self.commands().len(), key) {
                Some(i) => Some(&self.commands()[i as int]),
                None => None,
            },
    {
        match self.lookup(key) {
            Some(i) => Some(&self.cmds[i]),
            None => None,
        }
    }

    /// The number of commands.
    pub fn len(&self) -> (r: usize)
        ensures
            r == self.commands().len(),
    {
        self.cmds.len()
    }

    /// The table in its serialized form, to be persisted.
    pub fn to_bytes(&self) -> (r: Vec<u8>)
        ensures
            r@ == self.image(),
    {
        fst_to_bytes(&self.map)
    }
}

} // verus!
