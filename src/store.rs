//! The worktree store: one document mapping each worktree set root to its
//! entry. Callers serialize the read-modify-write cycles; this is the
//! document and its operations.
use vstd::prelude::*;

verus! {

/// A repository of a worktree set, as the store records it.
pub struct StoreRepoEntry {
    pub alias: String,
    pub branch: String,
    pub created_branch: bool,
}

pub struct WorktreeStoreEntry {
    pub name: String,
    /// The workspace the set was made from.
    pub project: String,
    /// RFC 3339 creation time.
    pub created_at: String,
    pub ephemeral: bool,
    /// Absent: the entry never expires.
    pub ttl_seconds: Option<u64>,
    pub repos: Vec<StoreRepoEntry>,
    pub custom: Vec<(String, String)>,
}

/// The map that a list of `(key, entry)` pairs with distinct keys stands for.
pub open spec fn doc_map(s: Seq<(Seq<char>, WorktreeStoreEntry)>) -> Map<Seq<char>, WorktreeStoreEntry>
    decreases s.len(),
{
    if s.len() == 0 {
        Map::empty()
    } else {
        doc_map(s.drop_last()).insert(s.last().0, s.last().1)
    }
}

pub open spec fn keys_distinct(s: Seq<(Seq<char>, WorktreeStoreEntry)>) -> bool {
    forall|i: int, j: int| 0 <= i < j < s.len() ==> s[i].0 != s[j].0
}

pub open spec fn entry_views(v: Seq<(String, WorktreeStoreEntry)>) -> Seq<(Seq<char>, WorktreeStoreEntry)> {
    v.map_values(|p: (String, WorktreeStoreEntry)| (p.0@, p.1))
}

proof fn lemma_doc_map_dom(s: Seq<(Seq<char>, WorktreeStoreEntry)>, k: Seq<char>)
    ensures
        doc_map(s).contains_key(k) <==> exists|i: int| 0 <= i < s.len() && s[i].0 == k,
    decreases s.len(),
{
    if s.len() > 0 {
        lemma_doc_map_dom(s.drop_last(), k);
        if exists|i: int| 0 <= i < s.drop_last().len() && s.drop_last()[i].0 == k {
            let i = choose|i: int| 0 <= i < s.drop_last().len() && s.drop_last()[i].0 == k;
            assert(s[i].0 == k);
        }
        if exists|i: int| 0 <= i < s.len() && s[i].0 == k {
            let i = choose|i: int| 0 <= i < s.len() && s[i].0 == k;
            if i < s.len() - 1 {
                assert(s.drop_last()[i].0 == k);
            }
        }
    }
}

proof fn lemma_doc_map_at(s: Seq<(Seq<char>, WorktreeStoreEntry)>, i: int)
    requires
        keys_distinct(s),
        0 <= i < s.len(),
    ensures
        doc_map(s).contains_key(s[i].0),
        doc_map(s)[s[i].0] == s[i].1,
    decreases s.len(),
{
    if i < s.len() - 1 {
        assert(s.drop_last()[i] == s[i]);
        lemma_doc_map_at(s.drop_last(), i);
    }
}

/// Two lists with distinct keys and the same key/entry pairs at each key
/// stand for the same map.
proof fn lemma_doc_map_ext(s: Seq<(Seq<char>, WorktreeStoreEntry)>, t: Seq<(Seq<char>, WorktreeStoreEntry)>, m: Map<Seq<char>, WorktreeStoreEntry>)
    requires
        keys_distinct(t),
        forall|k: Seq<char>| m.contains_key(k) <==> exists|i: int| 0 <= i < t.len() && t[i].0 == k,
        forall|i: int| 0 <= i < t.len() ==> m.contains_key(t[i].0) && m[t[i].0] == #[trigger] t[i].1,
    ensures
        doc_map(t) == m,
{
    assert forall|k: Seq<char>| #[trigger] doc_map(t).contains_key(k) <==> m.contains_key(k) by {
        lemma_doc_map_dom(t, k);
    }
    assert forall|k: Seq<char>| #[trigger] doc_map(t).contains_key(k) implies doc_map(t)[k] == m[k] by {
        lemma_doc_map_dom(t, k);
        let i = choose|i: int| 0 <= i < t.len() && t[i].0 == k;
        lemma_doc_map_at(t, i);
    }
    assert(doc_map(t) =~= m);
}

/// The store document.
pub struct WorktreeStore {
    entries: Vec<(String, WorktreeStoreEntry)>,
}

impl View for WorktreeStore {
    type V = Map<Seq<char>, WorktreeStoreEntry>;

    closed spec fn view(&self) -> Map<Seq<char>, WorktreeStoreEntry> {
        doc_map(entry_views(self.entries@))
    }
}

impl WorktreeStore {
    pub closed spec fn wf(&self) -> bool {
        keys_distinct(entry_views(self.entries@))
    }

    /// The keys in document order.
    pub closed spec fn key_order(&self) -> Seq<Seq<char>> {
        entry_views(self.entries@).map_values(|p: (Seq<char>, WorktreeStoreEntry)| p.0)
    }

    pub fn new() -> (r: Self)
        ensures
            r.wf(),
            r@ == Map::<Seq<char>, WorktreeStoreEntry>::empty(),
    {
        let r = WorktreeStore { entries: Vec::new() };
        assert(entry_views(r.entries@) =~= Seq::<(Seq<char>, WorktreeStoreEntry)>::empty());
        r
    }

    pub fn len(&self) -> (r: usize)
        requires
            self.wf(),
        ensures
            r == self@.len(),
    {
        proof {
            self.lemma_len();
        }
        self.entries.len()
    }

    proof fn lemma_len(&self)
        requires
            self.wf(),
        ensures
            self@.len() == self.entries.len(),
            self@.dom().finite(),
    {
        let s = entry_views(self.entries@);
        let ks = s.map_values(|p: (Seq<char>, WorktreeStoreEntry)| p.0);
        assert forall|i: int, j: int| 0 <= i < ks.len() && 0 <= j < ks.len() && i != j implies ks[i] != ks[j] by {
            if i < j {
                assert(s[i].0 != s[j].0);
            } else {
                assert(s[j].0 != s[i].0);
            }
        }
        ks.unique_seq_to_set();
        assert forall|k: Seq<char>| #[trigger] self@.dom().contains(k) <==> ks.to_set().contains(k) by {
            lemma_doc_map_dom(s, k);
            if ks.to_set().contains(k) {
                let i = choose|i: int| 0 <= i < ks.len() && ks[i] == k;
                assert(s[i].0 == k);
            }
            if self@.dom().contains(k) {
                let i = choose|i: int| 0 <= i < s.len() && s[i].0 == k;
                assert(ks[i] == k);
            }
        }
        assert(self@.dom() =~= ks.to_set());
        vstd::seq_lib::seq_to_set_is_finite(ks);
    }

    fn index_of(&self, key: &str) -> (r: Option<usize>)
        requires
            self.wf(),
        ensures
            r is None <==> !self@.contains_key(key@),
            r is Some ==> r->0 < self.entries.len() && self.entries@[r->0 as int].0@ == key@,
    {
        let k = crate::text::chars_of(key);
        let mut i: usize = 0;
        while i < self.entries.len()
            invariant
                i <= self.entries.len(),
                k@ == key@,
                forall|j: int| 0 <= j < i ==> self.entries@[j].0@ != key@,
            decreases self.entries.len() - i,
        {
            if crate::text::same_chars(&crate::text::chars_of(self.entries[i].0.as_str()), &k) {
                proof {
                    assert(entry_views(self.entries@)[i as int].0 == key@);
                    lemma_doc_map_dom(entry_views(self.entries@), key@);
                }
                return Some(i);
            }
            i = i + 1;
        }
        proof {
            lemma_doc_map_dom(entry_views(self.entries@), key@);
            assert forall|j: int| 0 <= j < entry_views(self.entries@).len() implies entry_views(self.entries@)[j].0 != key@ by {
                assert(entry_views(self.entries@)[j].0 == self.entries@[j].0@);
            }
        }
        None
    }

    pub fn get(&self, key: &str) -> (r: Option<&WorktreeStoreEntry>)
        requires
            self.wf(),
        ensures
            r is Some <==> self@.contains_key(key@),
            r is Some ==> *r->0 == self@[key@],
    {
        match self.index_of(key) {
            Some(i) => {
                proof {
                    lemma_doc_map_at(entry_views(self.entries@), i as int);
                }
                Some(&self.entries[i].1)
            },
            None => None,
        }
    }

    /// Records `entry` under `key`, replacing an entry already there.
    pub fn add(&mut self, key: String, entry: WorktreeStoreEntry)
        requires
            old(self).wf(),
        ensures
            final(self).wf(),
            final(self)@ == old(self)@.insert(key@, entry),
    {
        let ghost s0 = entry_views(self.entries@);
        let ghost m = s0.len();
        let ghost target = doc_map(s0).insert(key@, entry);
        let ghost kv = key@;
        match self.index_of(key.as_str()) {
            Some(i) => {
                let ghost e = entry;
                proof {
                    assert(s0[i as int].0 == kv);
                }
                self.entries.set(i, (key, entry));
                proof {
                    let t = entry_views(self.entries@);
                    assert(t =~= s0.update(i as int, (kv, e)));
                    assert(t[i as int] == (kv, e));
                    assert forall|a: int| 0 <= a < t.len() implies #[trigger] t[a].0 == s0[a].0 by {}
                    assert(keys_distinct(t)) by {
                        assert forall|a: int, b: int| 0 <= a < b < t.len() implies t[a].0 != t[b].0 by {
                            assert(t[a].0 == s0[a].0 && t[b].0 == s0[b].0);
                        }
                    }
                    assert forall|k: Seq<char>| target.contains_key(k) <==> exists|j: int| 0 <= j < t.len() && t[j].0 == k by {
                        lemma_doc_map_dom(s0, k);
                        if exists|j: int| 0 <= j < s0.len() && s0[j].0 == k {
                            let j = choose|j: int| 0 <= j < s0.len() && s0[j].0 == k;
                            assert(t[j].0 == k);
                        }
                        if exists|j: int| 0 <= j < t.len() && t[j].0 == k {
                            let j = choose|j: int| 0 <= j < t.len() && t[j].0 == k;
                            if j != i {
                                assert(s0[j].0 == k);
                            }
                        }
                    }
                    assert forall|j: int| 0 <= j < t.len() implies target.contains_key(t[j].0) && target[t[j].0] == #[trigger] t[j].1 by {
                        if j != i {
                            lemma_doc_map_at(s0, j);
                            assert(t[j] == s0[j]);
                        }
                    }
                    lemma_doc_map_ext(s0, t, target);
                }
            },
            None => {
                let ghost e = entry;
                self.entries.push((key, entry));
                proof {
                    let t = entry_views(self.entries@);
                    assert(t =~= s0.push((kv, e)));
                    assert(t.drop_last() =~= s0);
                    assert(keys_distinct(t)) by {
                        assert forall|a: int, b: int| 0 <= a < b < t.len() implies t[a].0 != t[b].0 by {
                            if b == s0.len() {
                                lemma_doc_map_dom(s0, kv);
                                assert(t[a] == s0[a]);
                            } else {
                                assert(t[a] == s0[a] && t[b] == s0[b]);
                            }
                        }
                    }
                }
            },
        }
    }

    /// Removes the entries of the given keys; keys without an entry are ignored.
    pub fn remove_batch(&mut self, keys: &Vec<String>)
        requires
            old(self).wf(),
        ensures
            final(self).wf(),
            final(self)@ == old(self)@.remove_keys(crate::text::string_views(keys@).to_set()),
    {
        let ghost s0 = entry_views(self.entries@);
        let ghost ks = crate::text::string_views(keys@).to_set();
        let mut kept: Vec<(String, WorktreeStoreEntry)> = Vec::new();
        let mut rest: Vec<(String, WorktreeStoreEntry)> = Vec::new();
        std::mem::swap(&mut rest, &mut self.entries);
        let ghost n = s0.len();
        let mut i: usize = 0;
        proof {
            assert(entry_views(rest@).subrange(0, n as int) =~= s0);
            assert(n == rest.len());
            assert(entry_views(kept@) =~= kept_of(s0.subrange(0, 0), ks));
        }
        while rest.len() > 0
            invariant
                i <= n,
                n == s0.len(),
                n <= usize::MAX,
                rest.len() == n - i,
                entry_views(rest@) == s0.subrange(i as int, n as int),
                ks == crate::text::string_views(keys@).to_set(),
                entry_views(kept@) == kept_of(s0.subrange(0, i as int), ks),
            decreases rest.len(),
        {
            let ghost before = entry_views(kept@);
            let ghost r0 = entry_views(rest@);
            let p = rest.remove(0);
            proof {
                assert(r0[0] == (p.0@, p.1));
                assert(s0[i as int] == r0[0]);
                assert(entry_views(rest@) =~= r0.subrange(1, r0.len() as int));
                assert(r0.subrange(1, r0.len() as int) =~= s0.subrange(i + 1, n as int));
                assert(s0.subrange(0, i + 1).drop_last() =~= s0.subrange(0, i as int));
            }
            if !contains_key_in(keys, &p.0) {
                kept.push(p);
                proof {
                    assert(entry_views(kept@) =~= before.push(s0[i as int]));
                }
            }
            i = i + 1;
        }
        proof {
            assert(s0.subrange(0, i as int) =~= s0);
            lemma_kept_of(s0, ks);
        }
        self.entries = kept;
    }
}

/// The pairs of `s` whose key is not in `ks`, in order.
pub open spec fn kept_of(s: Seq<(Seq<char>, WorktreeStoreEntry)>, ks: Set<Seq<char>>) -> Seq<(Seq<char>, WorktreeStoreEntry)>
    decreases s.len(),
{
    if s.len() == 0 {
        Seq::empty()
    } else if ks.contains(s.last().0) {
        kept_of(s.drop_last(), ks)
    } else {
        kept_of(s.drop_last(), ks).push(s.last())
    }
}

proof fn lemma_kept_of(s: Seq<(Seq<char>, WorktreeStoreEntry)>, ks: Set<Seq<char>>)
    requires
        keys_distinct(s),
    ensures
        keys_distinct(kept_of(s, ks)),
        doc_map(kept_of(s, ks)) == doc_map(s).remove_keys(ks),
        forall|k: Seq<char>| doc_map(kept_of(s, ks)).contains_key(k) ==> doc_map(s).contains_key(k),
    decreases s.len(),
{
    if s.len() > 0 {
        let dl = s.drop_last();
        assert(keys_distinct(dl));
        lemma_kept_of(dl, ks);
        let k = s.last().0;
        assert(!doc_map(dl).contains_key(k)) by {
            lemma_doc_map_dom(dl, k);
            if doc_map(dl).contains_key(k) {
                let i = choose|i: int| 0 <= i < dl.len() && dl[i].0 == k;
                assert(s[i].0 == s[s.len() - 1].0);
            }
        }
        if ks.contains(k) {
            assert(doc_map(s).remove_keys(ks) =~= doc_map(dl).remove_keys(ks));
        } else {
            let kd = kept_of(dl, ks);
            let t = kd.push(s.last());
            assert(t.drop_last() =~= kd);
            assert(keys_distinct(t)) by {
                assert forall|a: int, b: int| 0 <= a < b < t.len() implies t[a].0 != t[b].0 by {
                    if b == kd.len() {
                        assert(t[a] == kd[a]);
                        lemma_doc_map_dom(kd, kd[a].0);
                        assert(doc_map(kd).contains_key(kd[a].0));
                    } else {
                        assert(t[a] == kd[a] && t[b] == kd[b]);
                    }
                }
            }
            assert(doc_map(t) =~= doc_map(s).remove_keys(ks));
        }
    }
}

fn contains_key_in(keys: &Vec<String>, k: &String) -> (r: bool)
    ensures
        r == crate::text::string_views(keys@).to_set().contains(k@),
{
    let mut i: usize = 0;
    while i < keys.len()
        invariant
            i <= keys.len(),
            forall|j: int| 0 <= j < i ==> keys@[j]@ != k@,
        decreases keys.len() - i,
    {
        if keys[i] == *k {
            assert(crate::text::string_views(keys@)[i as int] == k@);
            return true;
        }
        i = i + 1;
    }
    assert forall|j: int| 0 <= j < crate::text::string_views(keys@).len() implies crate::text::string_views(keys@)[j] != k@ by {
        assert(keys@[j]@ != k@);
    }
    false
}

} // verus!

verus! {

impl WorktreeStore {
    /// Removes the entry of `key`, if any.
    pub fn remove(&mut self, key: &str)
        requires
            old(self).wf(),
        ensures
            final(self).wf(),
            final(self)@ == old(self)@.remove(key@),
    {
        let mut keys: Vec<String> = Vec::new();
        keys.push(key.to_owned());
        proof {
            assert(crate::text::string_views(keys@) =~= seq![key@]);
            assert forall|x: Seq<char>| seq![key@].to_set().contains(x) == Set::empty().insert(key@).contains(x) by {
                if x == key@ {
                    assert(seq![key@][0] == x);
                }
            }
            assert(seq![key@].to_set() =~= Set::empty().insert(key@));
        }
        self.remove_batch(&keys);
        proof {
            assert(old(self)@.remove_keys(Set::empty().insert(key@)) =~= old(self)@.remove(key@));
        }
    }

    /// The key and entry at position `i` of the document.
    pub fn entry_at(&self, i: usize) -> (r: (&String, &WorktreeStoreEntry))
        requires
            self.wf(),
            i < self.len_spec(),
        ensures
            self@.contains_key(r.0@),
            self@[r.0@] == *r.1,
            r.0@ == self.key_order()[i as int],
    {
        proof {
            lemma_doc_map_at(entry_views(self.entries@), i as int);
        }
        let p = &self.entries[i];
        (&p.0, &p.1)
    }

    pub closed spec fn len_spec(&self) -> nat {
        self.entries.len() as nat
    }

    pub proof fn lemma_len_spec(&self)
        requires
            self.wf(),
        ensures
            self.len_spec() == self@.len(),
            self.key_order().len() == self.len_spec(),
            forall|k: Seq<char>| self@.contains_key(k) <==> self.key_order().contains(k),
    {
        self.lemma_len();
        let s = entry_views(self.entries@);
        assert forall|k: Seq<char>| self@.contains_key(k) <==> self.key_order().contains(k) by {
            lemma_doc_map_dom(s, k);
            if self.key_order().contains(k) {
                let i = choose|i: int| 0 <= i < self.key_order().len() && self.key_order()[i] == k;
                assert(s[i].0 == k);
            }
            if self@.contains_key(k) {
                let i = choose|i: int| 0 <= i < s.len() && s[i].0 == k;
                assert(self.key_order()[i] == k);
            }
        }
    }
}

/// The document after `ops`, each an `add(key, entry)`, applied in order.
pub open spec fn after_adds(m: Map<Seq<char>, WorktreeStoreEntry>, ops: Seq<(Seq<char>, WorktreeStoreEntry)>) -> Map<Seq<char>, WorktreeStoreEntry>
    decreases ops.len(),
{
    if ops.len() == 0 {
        m
    } else {
        after_adds(m, ops.drop_last()).insert(ops.last().0, ops.last().1)
    }
}

/// The entry of the last of `ops` with key `k`.
pub open spec fn last_add(ops: Seq<(Seq<char>, WorktreeStoreEntry)>, k: Seq<char>) -> Option<WorktreeStoreEntry>
    decreases ops.len(),
{
    if ops.len() == 0 {
        None
    } else if ops.last().0 == k {
        Some(ops.last().1)
    } else {
        last_add(ops.drop_last(), k)
    }
}

/// Adds that the store lock has put in some order leave a document whose
/// keys are those it had plus those added, where each added key holds the
/// entry of its last writer and every other key keeps its entry.
pub proof fn lemma_serialized_adds(m: Map<Seq<char>, WorktreeStoreEntry>, ops: Seq<(Seq<char>, WorktreeStoreEntry)>)
    ensures
        after_adds(m, ops).dom() == m.dom() + ops.map_values(|o: (Seq<char>, WorktreeStoreEntry)| o.0).to_set(),
        forall|k: Seq<char>| #[trigger] last_add(ops, k) is Some ==> after_adds(m, ops).contains_key(k) && after_adds(m, ops)[k] == last_add(ops, k)->0,
        forall|k: Seq<char>| m.contains_key(k) && #[trigger] last_add(ops, k) is None ==> after_adds(m, ops)[k] == m[k],
    decreases ops.len(),
{
    if ops.len() > 0 {
        let dl = ops.drop_last();
        lemma_serialized_adds(m, dl);
        let ks = ops.map_values(|o: (Seq<char>, WorktreeStoreEntry)| o.0);
        let kd = dl.map_values(|o: (Seq<char>, WorktreeStoreEntry)| o.0);
        assert(ks =~= kd.push(ops.last().0));
        kd.lemma_push_to_set_commute(ops.last().0);
        assert(after_adds(m, ops).dom() =~= m.dom() + ks.to_set());
        assert forall|k: Seq<char>| #[trigger] last_add(ops, k) is Some implies after_adds(m, ops).contains_key(k) && after_adds(m, ops)[k] == last_add(ops, k)->0 by {
            if k != ops.last().0 {
                assert(last_add(ops, k) == last_add(dl, k));
            }
        }
        assert forall|k: Seq<char>| m.contains_key(k) && #[trigger] last_add(ops, k) is None implies after_adds(m, ops)[k] == m[k] by {
            assert(k != ops.last().0);
            assert(last_add(ops, k) == last_add(dl, k));
        }
    }
}

} // verus!
