//! In-memory store: a mapping from string keys to string values.  Each
//! entry carries a creation and a modification stamp taken from the
//! store's logical clock, which advances by one on every store operation.
//! A store under an existing key replaces the value, keeps the entry's
//! creation stamp and refreshes its modification stamp.

use crate::codec::lemma_encode_utf8_injective;
use vstd::prelude::*;
use vstd::string::*;
use vstd::utf8::*;

verus! {

/// Whether two strings hold the same characters, decided by comparing
/// their UTF-8 encodings byte by byte.
pub fn string_eq(a: &str, b: &str) -> (r: bool)
    ensures
        r == (a@ == b@),
{
    let ab = a.as_bytes();
    let bb = b.as_bytes();
    let n = ab.len();
    if n != bb.len() {
        return false;
    }
    let mut i: usize = 0;
    while i < n
        invariant
            0 <= i <= n,
            ab@ == encode_utf8(a@),
            bb@ == encode_utf8(b@),
            n == ab@.len(),
            n == bb@.len(),
            forall|j: int| 0 <= j < i ==> ab@[j] == bb@[j],
        decreases n - i,
    {
        if ab[i] != bb[i] {
            return false;
        }
        i = i + 1;
    }
    proof {
        assert(encode_utf8(a@) =~= encode_utf8(b@));
        lemma_encode_utf8_injective(a@, b@);
    }
    true
}

/// A stored value.
#[derive(Debug)]
pub struct MemVal {
    pub value: String,
}

impl MemVal {
    pub fn new(value: String) -> (r: MemVal)
        ensures
            r.value@ == value@,
    {
        MemVal { value }
    }
}

/// A stored key, carrying the entry's stamps: the clock ticks at which
/// the entry was created and last modified.
#[derive(Debug)]
pub struct MemKey {
    value: String,
    created: u64,
    last_modified: u64,
}

impl MemKey {
    /// The key's characters.
    pub closed spec fn key(&self) -> Seq<char> {
        self.value@
    }

    /// The tick at which the entry was created.
    pub closed spec fn created_at(&self) -> u64 {
        self.created
    }

    /// The tick at which the entry was last modified.
    pub closed spec fn modified_at(&self) -> u64 {
        self.last_modified
    }

    /// A fresh key, created and modified at the given tick.
    pub fn new(value: String, now: u64) -> (r: MemKey)
        ensures
            r.key() == value@,
            r.created_at() == now,
            r.modified_at() == now,
    {
        MemKey { value, created: now, last_modified: now }
    }
}

impl PartialEq for MemKey {
    /// Keys compare by their string value alone; the stamps do not count.
    fn eq(&self, other: &Self) -> (r: bool) {
        string_eq(self.value.as_str(), other.value.as_str())
    }
}

impl vstd::std_specs::cmp::PartialEqSpecImpl for MemKey {
    open spec fn obeys_eq_spec() -> bool {
        true
    }

    open spec fn eq_spec(&self, other: &MemKey) -> bool {
        self.key() == other.key()
    }
}

impl Eq for MemKey {}

/// One entry of the store's mathematical content: the value held under a
/// key and the entry's stamps.
pub ghost struct EntryModel {
    pub value: Seq<char>,
    pub created: u64,
    pub modified: u64,
}

/// The clock after one store operation: one more tick, held at the top
/// of the clock's range.
pub open spec fn tick_next(t: u64) -> u64 {
    if t < u64::MAX {
        (t + 1) as u64
    } else {
        t
    }
}

/// What one store operation does to the store's mapping: the key now
/// holds the new value, modified at `now`; its creation stamp is kept
/// when the key was already present and is `now` otherwise.
pub open spec fn spec_store(
    m: Map<Seq<char>, EntryModel>,
    k: Seq<char>,
    v: Seq<char>,
    now: u64,
) -> Map<Seq<char>, EntryModel> {
    m.insert(
        k,
        EntryModel {
            value: v,
            created: if m.contains_key(k) {
                m[k].created
            } else {
                now
            },
            modified: now,
        },
    )
}

spec fn entry_model(e: (MemKey, MemVal)) -> EntryModel {
    EntryModel { value: e.1.value@, created: e.0.created_at(), modified: e.0.modified_at() }
}

spec fn entries_map(s: Seq<(MemKey, MemVal)>) -> Map<Seq<char>, EntryModel>
    decreases s.len(),
{
    if s.len() == 0 {
        Map::empty()
    } else {
        entries_map(s.drop_last()).insert(s.last().0.key(), entry_model(s.last()))
    }
}

spec fn distinct_keys(s: Seq<(MemKey, MemVal)>) -> bool {
    forall|i: int, j: int| 0 <= i < j < s.len() ==> s[i].0.key() != s[j].0.key()
}

proof fn lemma_entries_map_contains(s: Seq<(MemKey, MemVal)>, k: Seq<char>)
    ensures
        entries_map(s).contains_key(k) <==> exists|i: int|
            0 <= i < s.len() && #[trigger] s[i].0.key() == k,
    decreases s.len(),
{
    if s.len() > 0 {
        lemma_entries_map_contains(s.drop_last(), k);
        if entries_map(s).contains_key(k) {
            if s.last().0.key() == k {
                assert(s[s.len() - 1].0.key() == k);
            } else {
                let i = choose|i: int| 0 <= i < s.drop_last().len() && #[trigger] s.drop_last()[i].0.key()
                    == k;
                assert(s[i].0.key() == k);
            }
        }
        if exists|i: int| 0 <= i < s.len() && #[trigger] s[i].0.key() == k {
            let i = choose|i: int| 0 <= i < s.len() && #[trigger] s[i].0.key() == k;
            if i < s.len() - 1 {
                assert(s.drop_last()[i].0.key() == k);
            }
        }
    }
}

proof fn lemma_entries_map_at(s: Seq<(MemKey, MemVal)>, i: int)
    requires
        distinct_keys(s),
        0 <= i < s.len(),
    ensures
        entries_map(s).contains_key(s[i].0.key()),
        entries_map(s)[s[i].0.key()] == entry_model(s[i]),
    decreases s.len(),
{
    if i == s.len() - 1 {
    } else {
        assert(distinct_keys(s.drop_last())) by {
            assert(forall|a: int, b: int|
                0 <= a < b < s.drop_last().len() ==> s.drop_last()[a] == s[a] && s.drop_last()[b]
                    == s[b]);
        }
        lemma_entries_map_at(s.drop_last(), i);
        assert(s.drop_last()[i] == s[i]);
        assert(s.last().0.key() != s[i].0.key());
    }
}

proof fn lemma_store_push(s: Seq<(MemKey, MemVal)>, e: (MemKey, MemVal))
    requires
        distinct_keys(s),
        forall|j: int| 0 <= j < s.len() ==> #[trigger] s[j].0.key() != e.0.key(),
    ensures
        distinct_keys(s.push(e)),
        entries_map(s.push(e)) == entries_map(s).insert(e.0.key(), entry_model(e)),
{
    assert(s.push(e).drop_last() =~= s);
    assert(s.push(e).last() == e);
    assert(forall|a: int|
        0 <= a < s.len() ==> s.push(e)[a] == s[a] && #[trigger] s.push(e)[a].0.key() == s[a].0.key());
}

proof fn lemma_store_update(s: Seq<(MemKey, MemVal)>, i: int, e: (MemKey, MemVal))
    requires
        distinct_keys(s),
        0 <= i < s.len(),
        e.0.key() == s[i].0.key(),
    ensures
        distinct_keys(s.remove(i).push(e)),
        entries_map(s.remove(i).push(e)) == entries_map(s).insert(e.0.key(), entry_model(e)),
{
    let s2 = s.remove(i).push(e);
    let k = e.0.key();
    assert(s2.len() == s.len());
    assert(forall|j: int| 0 <= j < i ==> s2[j] == s[j]);
    assert(forall|j: int| i <= j < s.len() - 1 ==> s2[j] == s[j + 1]);
    assert(s2[s.len() - 1] == e);
    assert(distinct_keys(s2)) by {
        assert forall|a: int, b: int| 0 <= a < b < s2.len() implies s2[a].0.key() != s2[b].0.key()
        by {
            if b < s.len() - 1 {
                let a0 = if a < i { a } else { a + 1 };
                let b0 = if b < i { b } else { b + 1 };
                assert(s2[a] == s[a0] && s2[b] == s[b0]);
            } else {
                let a0 = if a < i { a } else { a + 1 };
                assert(s2[a] == s[a0]);
                if a0 != i {
                    assert(s[a0].0.key() != s[i].0.key());
                }
            }
        }
    }
    let lhs = entries_map(s2);
    let rhs = entries_map(s).insert(k, entry_model(e));
    assert forall|q: Seq<char>| #[trigger] lhs.dom().contains(q) implies rhs.dom().contains(q)
        && lhs[q] == rhs[q] by {
        assert(lhs.contains_key(q));
        lemma_entries_map_contains(s2, q);
        let j = choose|j: int| 0 <= j < s2.len() && #[trigger] s2[j].0.key() == q;
        lemma_entries_map_at(s2, j);
        if j == s.len() - 1 {
            assert(lhs[q] == entry_model(e));
        } else {
            let j0 = if j < i { j } else { j + 1 };
            assert(s2[j] == s[j0]);
            assert(s[j0].0.key() == q);
            assert(j0 != i);
            assert(q != k);
            lemma_entries_map_at(s, j0);
            lemma_entries_map_contains(s, q);
            assert(entries_map(s).contains_key(q));
        }
    }
    assert forall|q: Seq<char>| #[trigger] rhs.dom().contains(q) implies lhs.dom().contains(q) by {
        assert(rhs.contains_key(q));
        if q == k {
            assert(s2[s.len() - 1].0.key() == q);
            lemma_entries_map_contains(s2, q);
        } else {
            lemma_entries_map_contains(s, q);
            let j0 = choose|j0: int| 0 <= j0 < s.len() && #[trigger] s[j0].0.key() == q;
            assert(j0 != i);
            let j = if j0 < i { j0 } else { j0 - 1 };
            assert(s2[j] == s[j0]);
            assert(0 <= j < s2.len() && s2[j].0.key() == q);
            lemma_entries_map_contains(s2, q);
        }
    }
    assert(lhs.dom() =~= rhs.dom());
    assert(lhs =~= rhs);
}

/// The in-memory store: unique string keys, each holding one value and
/// the entry's stamps, plus the logical clock the stamps come from.
#[derive(Debug)]
pub struct MemDB {
    data: Vec<(MemKey, MemVal)>,
    clock: u64,
}

impl View for MemDB {
    type V = Map<Seq<char>, EntryModel>;

    closed spec fn view(&self) -> Map<Seq<char>, EntryModel> {
        entries_map(self.data@)
    }
}

impl MemDB {
    /// The clock's current tick: the stamp the next store will use.
    pub closed spec fn tick(&self) -> u64 {
        self.clock
    }

    #[verifier::type_invariant]
    spec fn wf(self) -> bool {
        distinct_keys(self.data@)
    }

    /// An empty store with its clock at zero.
    pub fn new() -> (r: MemDB)
        ensures
            r@ == Map::<Seq<char>, EntryModel>::empty(),
            r.tick() == 0,
    {
        MemDB { data: Vec::new(), clock: 0 }
    }

    fn find_idx(&self, key: &String) -> (r: Option<usize>)
        ensures
            match r {
                Some(i) => i < self.data@.len() && self.data@[i as int].0.key() == key@,
                None => forall|j: int|
                    0 <= j < self.data@.len() ==> #[trigger] self.data@[j].0.key() != key@,
            },
    {
        let mut i: usize = 0;
        let n = self.data.len();
        while i < n
            invariant
                0 <= i <= n,
                n == self.data@.len(),
                forall|j: int| 0 <= j < i ==> #[trigger] self.data@[j].0.key() != key@,
            decreases n - i,
        {
            let pair = &self.data[i];
            if string_eq(pair.0.value.as_str(), key.as_str()) {
                return Some(i);
            }
            i = i + 1;
        }
        None
    }

    /// Upsert: always succeeds.  The key now holds `val`; an overwrite
    /// keeps the entry's creation stamp and refreshes its modification
    /// stamp; the clock advances one tick.
    pub fn store(&mut self, key: String, val: String)
        ensures
            final(self)@ == spec_store(old(self)@, key@, val@, old(self).tick()),
            final(self).tick() == tick_next(old(self).tick()),
    {
        proof {
            use_type_invariant(&*self);
        }
        let now = self.clock;
        let found = self.find_idx(&key);
        let ghost s0 = self.data@;
        let mut data: Vec<(MemKey, MemVal)> = Vec::new();
        std::mem::swap(&mut data, &mut self.data);
        match found {
            Some(i) => {
                let old_pair = data.remove(i);
                let nk = MemKey { value: key, created: old_pair.0.created, last_modified: now };
                let p = (nk, MemVal::new(val));
                let ghost e = p;
                data.push(p);
                proof {
                    lemma_store_update(s0, i as int, e);
                    lemma_entries_map_at(s0, i as int);
                }
            },
            None => {
                let p = (MemKey::new(key, now), MemVal::new(val));
                let ghost e = p;
                data.push(p);
                proof {
                    lemma_store_push(s0, e);
                    lemma_entries_map_contains(s0, e.0.key());
                }
            },
        }
        std::mem::swap(&mut data, &mut self.data);
        self.clock = if now < u64::MAX {
            now + 1
        } else {
            now
        };
    }

    /// Lookup: the current value under the key, or nothing when the key
    /// is absent.  Absence is not an error.
    pub fn fetch(&self, key: String) -> (r: Option<&String>)
        ensures
            match r {
                Some(v) => self@.contains_key(key@) && v@ == self@[key@].value,
                None => !self@.contains_key(key@),
            },
    {
        proof {
            use_type_invariant(&*self);
        }
        match self.find_idx(&key) {
            Some(i) => {
                proof {
                    lemma_entries_map_at(self.data@, i as int);
                }
                Some(&self.data[i].1.value)
            },
            None => {
                proof {
                    lemma_entries_map_contains(self.data@, key@);
                }
                None
            },
        }
    }
}

/// Store then fetch: after storing `v` under `k`, the mapping holds `k`,
/// and the value fetched under `k` is `v`.
pub proof fn lemma_store_then_fetch(
    m: Map<Seq<char>, EntryModel>,
    k: Seq<char>,
    v: Seq<char>,
    now: u64,
)
    ensures
        spec_store(m, k, v, now).contains_key(k),
        spec_store(m, k, v, now)[k].value == v,
{
}

/// Absence: the empty mapping a fresh store starts from holds no key,
/// so a fetch before any store reports the key as not found.
pub proof fn lemma_fetch_absent(k: Seq<char>)
    ensures
        !Map::<Seq<char>, EntryModel>::empty().contains_key(k),
{
}

/// Overwrite: storing `v1` then `v2` under one key leaves `v2` (the
/// latest write wins), keeps the entry's creation stamp, and advances
/// its modification stamp, the clock having grown between the writes.
pub proof fn lemma_store_overwrite(
    m: Map<Seq<char>, EntryModel>,
    k: Seq<char>,
    v1: Seq<char>,
    v2: Seq<char>,
    t1: u64,
    t2: u64,
)
    requires
        t1 < t2,
    ensures
        ({
            let m1 = spec_store(m, k, v1, t1);
            let m2 = spec_store(m1, k, v2, t2);
            m2[k].value == v2 && m2[k].created == m1[k].created && m2[k].modified > m1[k].modified
        }),
{
}

} // verus!
