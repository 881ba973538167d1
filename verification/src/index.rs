//! The in-memory index of a volume: from each key to where its blob lies (segment,
//! offset, size, BLAKE3 hash) and when it expires, if it does.
use vstd::prelude::*;
use vstd::hash_map::StringHashMap;
use vstd::bytes::{
    lemma_auto_spec_u32_to_from_le_bytes, lemma_auto_spec_u64_to_from_le_bytes, spec_u32_from_le_bytes,
    spec_u32_to_le_bytes, spec_u64_from_le_bytes, spec_u64_to_le_bytes, u32_from_le_bytes, u32_to_le_bytes,
    u64_from_le_bytes, u64_to_le_bytes,
};
use vstd::utf8::{decode_utf8, encode_utf8, valid_utf8};
use vstd::string::StringExecFns;
use crate::error::Error;
use crate::utils::{append_bytes, string_from_utf8};

verus! {

broadcast use vstd::hash_map::group_hash_map_axioms;

/// Where a blob lies, its hash, and when its key expires (Unix milliseconds), if it does.
#[derive(Debug, Clone)]
pub struct BlobLocation {
    pub shard: u64,
    pub offset: u64,
    pub size: u64,
    pub blake3: String,
    pub expires_at: Option<u64>,
}

/// The value of a blob location.
pub struct BlobLocationView {
    pub shard: u64,
    pub offset: u64,
    pub size: u64,
    pub blake3: Seq<char>,
    pub expires_at: Option<u64>,
}

impl BlobLocation {
    /// The value of this location.
    pub open spec fn view(&self) -> BlobLocationView {
        BlobLocationView {
            shard: self.shard,
            offset: self.offset,
            size: self.size,
            blake3: self.blake3@,
            expires_at: self.expires_at,
        }
    }

    /// A copy of this location.
    pub fn duplicate(&self) -> (r: BlobLocation)
        ensures
            r.view() == self.view(),
    {
        BlobLocation {
            shard: self.shard,
            offset: self.offset,
            size: self.size,
            blake3: self.blake3.clone(),
            expires_at: self.expires_at,
        }
    }
}

/// Whether a key with expiry `e` is live at `now` (Unix milliseconds): it has no expiry,
/// or expires later.
pub open spec fn live_at(e: Option<u64>, now: u64) -> bool {
    match e {
        Some(t) => now < t,
        None => true,
    }
}

/// The elements that a filter keeps from a list without repeats: those that pass, each once.
proof fn lemma_filter_distinct(s: Seq<Seq<char>>, pred: spec_fn(Seq<char>) -> bool)
    requires
        s.no_duplicates(),
    ensures
        s.filter(pred).no_duplicates(),
        forall|x: Seq<char>| s.filter(pred).contains(x) <==> s.contains(x) && pred(x),
    decreases s.len(),
{
    if s.len() > 0 {
        let init = s.drop_last();
        let x = s.last();
        assert(s =~= init.push(x));
        assert(init.no_duplicates()) by {
            assert forall|i: int, j: int| 0 <= i < init.len() && 0 <= j < init.len() && i != j
                implies init[i] != init[j] by {
                assert(init[i] == s[i] && init[j] == s[j]);
            }
        }
        lemma_filter_distinct(init, pred);
        init.lemma_filter_push(x, pred);
        assert(!init.contains(x)) by {
            if init.contains(x) {
                let i = choose|i: int| 0 <= i < init.len() && init[i] == x;
                assert(s[i] == s[s.len() - 1]);
            }
        }
        assert forall|y: Seq<char>| s.contains(y) <==> init.contains(y) || y == x by {
            if s.contains(y) && y != x {
                let i = choose|i: int| 0 <= i < s.len() && s[i] == y;
                assert(init[i] == y);
            }
            if init.contains(y) {
                let i = choose|i: int| 0 <= i < init.len() && init[i] == y;
                assert(s[i] == y);
            }
            if y == x {
                assert(s[s.len() - 1] == x);
            }
        }
        if pred(x) {
            let f = init.filter(pred);
            assert(s.filter(pred) == f.push(x));
            assert forall|y: Seq<char>| f.push(x).contains(y) <==> f.contains(y) || y == x by {
                if f.push(x).contains(y) && y != x {
                    let i = choose|i: int| 0 <= i < f.push(x).len() && f.push(x)[i] == y;
                    assert(f[i] == y);
                }
                if f.contains(y) {
                    let i = choose|i: int| 0 <= i < f.len() && f[i] == y;
                    assert(f.push(x)[i] == y);
                }
                if y == x {
                    assert(f.push(x)[f.len() as int] == x);
                }
            }
            assert forall|i: int, j: int| 0 <= i < f.push(x).len() && 0 <= j < f.push(x).len() && i != j
                implies f.push(x)[i] != f.push(x)[j] by {
                if i == f.len() {
                    assert(f.contains(f.push(x)[j]));
                } else if j == f.len() {
                    assert(f.contains(f.push(x)[i]));
                }
            }
        }
    }
}

/// The entries of `m` that are live at `now`.
pub open spec fn unexpired(m: Map<Seq<char>, BlobLocationView>, now: u64) -> Map<Seq<char>, BlobLocationView> {
    m.restrict(m.dom().filter(|k: Seq<char>| live_at(m[k].expires_at, now)))
}

/// The location of `key` in `m` if it is there and live at `now`.
pub open spec fn valid_entry(m: Map<Seq<char>, BlobLocationView>, key: Seq<char>, now: u64) -> Option<BlobLocationView> {
    if m.contains_key(key) && live_at(m[key].expires_at, now) { Some(m[key]) } else { None }
}

/// The value of an optional location.
pub open spec fn opt_location(r: Option<&BlobLocation>) -> Option<BlobLocationView> {
    match r {
        Some(l) => Some(l.view()),
        None => None,
    }
}

/// The text of each string.
pub open spec fn key_views(keys: Seq<String>) -> Seq<Seq<char>> {
    keys.map_values(|s: String| s@)
}

/// The in-memory index: a map from keys to blob locations. Besides the map it keeps the
/// list of its keys, each once, for walking over the entries.
pub struct Index {
    map: StringHashMap<BlobLocation>,
    keys: Vec<String>,
}

impl Index {
    /// The map from keys to locations.
    pub closed spec fn view(&self) -> Map<Seq<char>, BlobLocationView> {
        Map::new(|k: Seq<char>| self.map@.contains_key(k), |k: Seq<char>| self.map@[k].view())
    }

    /// The keys in the order in which the entries are walked.
    pub closed spec fn key_order(&self) -> Seq<Seq<char>> {
        key_views(self.keys@)
    }

    /// The internal invariant: the key list names each key of the map once.
    pub closed spec fn wf(&self) -> bool {
        &&& key_views(self.keys@).no_duplicates()
        &&& forall|k: Seq<char>| self.map@.contains_key(k) <==> key_views(self.keys@).contains(k)
    }

    /// Whether a key of the index carries an expiry.
    pub open spec fn has_ttl(&self) -> spec_fn(Seq<char>) -> bool {
        |k: Seq<char>| self@[k].expires_at is Some
    }

    /// Whether a key of the index has expired at `now`.
    pub open spec fn expired_at(&self, now: u64) -> spec_fn(Seq<char>) -> bool {
        |k: Seq<char>| !live_at(self@[k].expires_at, now)
    }

    /// The keys that carry an expiry, in walking order.
    pub open spec fn ttl_keys(&self) -> Seq<Seq<char>> {
        self.key_order().filter(self.has_ttl())
    }

    /// The entries in walking order.
    pub open spec fn entries(&self) -> Seq<(Seq<char>, BlobLocationView)> {
        self.key_order().map_values(|k: Seq<char>| (k, self@[k]))
    }

    /// The walking order names each key of the index once.
    pub proof fn lemma_key_order(&self)
        requires
            self.wf(),
        ensures
            self.key_order().no_duplicates(),
            forall|k: Seq<char>| self@.contains_key(k) <==> self.key_order().contains(k),
            self.key_order().len() == self@.len(),
            self@.dom().finite(),
    {
        let ks = self.key_order();
        assert(ks.to_set() =~= self@.dom()) by {
            assert forall|k: Seq<char>| ks.to_set().contains(k) <==> self@.dom().contains(k) by {}
        }
        ks.unique_seq_to_set();
    }

    /// An empty index.
    pub fn new() -> (r: Self)
        ensures
            r.wf(),
            r@ == Map::<Seq<char>, BlobLocationView>::empty(),
    {
        let r = Index { map: StringHashMap::new(), keys: Vec::new() };
        proof {
            assert(key_views(r.keys@) =~= Seq::<Seq<char>>::empty());
            assert(r@ =~= Map::<Seq<char>, BlobLocationView>::empty());
        }
        r
    }

    /// Inserts or replaces the location of `key`.
    pub fn insert(&mut self, key: String, location: BlobLocation)
        requires
            old(self).wf(),
        ensures
            final(self).wf(),
            final(self)@ == old(self)@.insert(key@, location.view()),
    {
        let ghost k = key@;
        if !self.map.contains_key(key.as_str()) {
            let copy = key.clone();
            proof {
                assert(!key_views(self.keys@).contains(k));
            }
            self.keys.push(copy);
            proof {
                assert(key_views(self.keys@) =~= key_views(old(self).keys@).push(k));
                assert forall|i: int, j: int| 0 <= i < j < key_views(self.keys@).len()
                    implies key_views(self.keys@)[i] != key_views(self.keys@)[j] by {
                    if j == key_views(self.keys@).len() - 1 {
                        assert(key_views(old(self).keys@).contains(key_views(self.keys@)[i]) ==> key_views(self.keys@)[i] != k);
                        assert(key_views(old(self).keys@)[i] == key_views(self.keys@)[i]);
                    }
                }
            }
        }
        self.map.insert(key, location);
        proof {
            assert forall|x: Seq<char>| self.map@.contains_key(x) <==> key_views(self.keys@).contains(x) by {
                if x == k {
                    if !old(self).map@.contains_key(k) {
                        assert(key_views(self.keys@)[key_views(self.keys@).len() - 1] == k);
                    }
                } else if key_views(old(self).keys@).contains(x) {
                    let i = choose|i: int| 0 <= i < key_views(old(self).keys@).len() && key_views(old(self).keys@)[i] == x;
                    assert(key_views(self.keys@)[i] == x);
                }
            }
            assert(self@ =~= old(self)@.insert(k, location.view()));
        }
    }

    /// The location of `key`, if it is in the index.
    pub fn get(&self, key: &str) -> (r: Option<&BlobLocation>)
        ensures
            match r {
                Some(l) => self@.contains_key(key@) && l.view() == self@[key@],
                None => !self@.contains_key(key@),
            },
    {
        self.map.get(key)
    }

    /// Removes `key`; gives its location, if it was in the index.
    pub fn remove(&mut self, key: &str) -> (r: Option<BlobLocation>)
        requires
            old(self).wf(),
        ensures
            final(self).wf(),
            final(self)@ == old(self)@.remove(key@),
            match r {
                Some(l) => old(self)@.contains_key(key@) && l.view() == old(self)@[key@],
                None => !old(self)@.contains_key(key@),
            },
    {
        let found = match self.map.get(key) {
            Some(l) => Some(l.duplicate()),
            None => None,
        };
        if found.is_none() {
            proof { assert(self@ =~= old(self)@.remove(key@)); }
            return None;
        }
        self.map.remove(key);
        let owned = key.to_owned();
        let mut i: usize = 0;
        while i < self.keys.len()
            invariant
                self.keys@ == old(self).keys@,
                owned@ == key@,
                i <= self.keys@.len(),
                forall|j: int| 0 <= j < i ==> #[trigger] key_views(self.keys@)[j] != key@,
            ensures
                i <= self.keys@.len(),
                forall|j: int| 0 <= j < i ==> #[trigger] key_views(self.keys@)[j] != key@,
                i < self.keys@.len() ==> key_views(self.keys@)[i as int] == key@,
            decreases self.keys@.len() - i,
        {
            if self.keys[i] == owned {
                break;
            }
            i = i + 1;
        }
        proof {
            assert(key_views(old(self).keys@).contains(key@));
            if i == self.keys@.len() {
                let j = choose|j: int| 0 <= j < key_views(old(self).keys@).len() && key_views(old(self).keys@)[j] == key@;
                assert(key_views(self.keys@)[j] != key@);
            }
            assert(i < self.keys@.len());
            assert(key_views(self.keys@)[i as int] == key@);
        }
        let ghost before = key_views(self.keys@);
        self.keys.remove(i);
        proof {
            let after = key_views(self.keys@);
            assert(after =~= before.remove(i as int));
            assert forall|a: int, b: int| 0 <= a < b < after.len() implies after[a] != after[b] by {
                let a2 = if a < i { a } else { a + 1 };
                let b2 = if b < i { b } else { b + 1 };
                assert(after[a] == before[a2]);
                assert(after[b] == before[b2]);
            }
            assert forall|x: Seq<char>| self.map@.contains_key(x) <==> after.contains(x) by {
                if after.contains(x) {
                    let a = choose|a: int| 0 <= a < after.len() && after[a] == x;
                    let a2 = if a < i { a } else { a + 1 };
                    assert(before[a2] == x);
                    assert(a2 != i);
                }
                if x != key@ && before.contains(x) {
                    let a = choose|a: int| 0 <= a < before.len() && before[a] == x;
                    assert(a != i);
                    let a2 = if a < i { a } else { a - 1 };
                    assert(after[a2] == x);
                }
            }
            assert(self@ =~= old(self)@.remove(key@));
        }
        found
    }

    /// The location of `key` if it is in the index and has not expired at `now` (Unix
    /// milliseconds).
    pub fn get_if_valid_at(&self, key: &str, now: u64) -> (r: Option<&BlobLocation>)
        ensures
            match r {
                Some(l) => self@.contains_key(key@) && l.view() == self@[key@] && live_at(self@[key@].expires_at, now),
                None => !(self@.contains_key(key@) && live_at(self@[key@].expires_at, now)),
            },
    {
        match self.map.get(key) {
            Some(l) => {
                let live = match l.expires_at {
                    Some(t) => now < t,
                    None => true,
                };
                if live { Some(l) } else { None }
            },
            None => None,
        }
    }

    /// The location of `key` if it is in the index and has not expired now, on the
    /// system clock.
    pub fn get_if_valid(&self, key: &str) -> (r: Option<&BlobLocation>)
        ensures
            exists|now: u64| #[trigger] valid_entry(self@, key@, now) == opt_location(r),
    {
        let now = crate::utils::timestamp_now_millis();
        let r = self.get_if_valid_at(key, now);
        assert(valid_entry(self@, key@, now) == opt_location(r));
        r
    }

    /// The keys that carry an expiry, in walking order.
    pub fn keys_with_ttl(&self) -> (r: Vec<String>)
        requires
            self.wf(),
        ensures
            key_views(r@) == self.ttl_keys(),
    {
        let mut out: Vec<String> = Vec::new();
        let mut i: usize = 0;
        let ghost order = self.key_order();
        while i < self.keys.len()
            invariant
                self.wf(),
                order == self.key_order(),
                i <= self.keys@.len(),
                key_views(out@) == order.take(i as int).filter(self.has_ttl()),
            decreases self.keys@.len() - i,
        {
            let key = &self.keys[i];
            proof {
                assert(order[i as int] == key@);
                assert(self.map@.contains_key(key@));
                assert(order.take(i as int + 1) =~= order.take(i as int).push(key@));
                order.take(i as int).lemma_filter_push(key@, self.has_ttl());
            }
            match self.map.get(key.as_str()) {
                Some(l) => {
                    if l.expires_at.is_some() {
                        let c = key.clone();
                        let ghost before = out@;
                        out.push(c);
                        proof { assert(key_views(out@) =~= key_views(before).push(c@)); }
                    }
                },
                None => {
                    proof { assert(false); }
                },
            }
            i = i + 1;
        }
        proof { assert(order.take(i as int) =~= order); }
        out
    }

    /// Removes the keys that have expired at `now` (Unix milliseconds); gives how many
    /// there were.
    pub fn cleanup_expired_at(&mut self, now: u64) -> (r: usize)
        requires
            old(self).wf(),
        ensures
            final(self).wf(),
            final(self)@ == unexpired(old(self)@, now),
            r == old(self).key_order().filter(old(self).expired_at(now)).len(),
            final(self)@.len() == old(self)@.len() - r,
    {
        let ghost order = self.key_order();
        let ghost m0 = self@;
        let mut expired: Vec<String> = Vec::new();
        let mut i: usize = 0;
        while i < self.keys.len()
            invariant
                self.wf(),
                self@ == m0,
                order == self.key_order(),
                i <= self.keys@.len(),
                key_views(expired@) == order.take(i as int).filter(self.expired_at(now)),
            decreases self.keys@.len() - i,
        {
            let key = &self.keys[i];
            proof {
                assert(order[i as int] == key@);
                assert(self.map@.contains_key(key@));
                assert(order.take(i as int + 1) =~= order.take(i as int).push(key@));
                order.take(i as int).lemma_filter_push(key@, self.expired_at(now));
            }
            match self.map.get(key.as_str()) {
                Some(l) => {
                    let live = match l.expires_at {
                        Some(t) => now < t,
                        None => true,
                    };
                    if !live {
                        let c = key.clone();
                        let ghost before = expired@;
                        expired.push(c);
                        proof { assert(key_views(expired@) =~= key_views(before).push(c@)); }
                    }
                },
                None => {
                    proof { assert(false); }
                },
            }
            i = i + 1;
        }
        proof { assert(order.take(i as int) =~= order); }
        let ghost ex = key_views(expired@);
        proof {
            self.lemma_key_order();
            order.filter_lemma(self.expired_at(now));
            lemma_filter_distinct(order, self.expired_at(now));
        }
        let mut j: usize = 0;
        while j < expired.len()
            invariant
                self.wf(),
                ex == key_views(expired@),
                ex.no_duplicates(),
                j <= ex.len(),
                forall|k: Seq<char>| ex.contains(k) <==> m0.contains_key(k) && !live_at(m0[k].expires_at, now),
                forall|k: Seq<char>| #[trigger] self@.contains_key(k) <==>
                    (m0.contains_key(k) && !ex.take(j as int).contains(k)),
                forall|k: Seq<char>| self@.contains_key(k) ==> #[trigger] self@[k] == m0[k],
                self@.len() == m0.len() - j,
            decreases ex.len() - j,
        {
            let k = &expired[j];
            proof { assert(ex[j as int] == k@); }
            let ghost before = self@;
            proof {
                self.lemma_key_order();
                assert(!ex.take(j as int).contains(k@)) by {
                    if ex.take(j as int).contains(k@) {
                        let i = choose|i: int| 0 <= i < j && ex.take(j as int)[i] == k@;
                        assert(ex[i] == ex[j as int]);
                    }
                }
                assert(ex.contains(k@)) by { assert(ex[j as int] == k@); }
                before.lemma_remove_key_len(k@);
            }
            self.remove(k.as_str());
            proof {
                let t0 = ex.take(j as int);
                let t1 = ex.take(j as int + 1);
                assert(t1 =~= t0.push(k@));
                assert forall|x: Seq<char>| #[trigger] self@.contains_key(x) <==>
                    (m0.contains_key(x) && !t1.contains(x)) by {
                    assert(self@.contains_key(x) == (before.contains_key(x) && x != k@));
                    if t1.contains(x) && x != k@ {
                        let i = choose|i: int| 0 <= i < t1.len() && t1[i] == x;
                        assert(t0[i] == x);
                    }
                    if t0.contains(x) {
                        let i = choose|i: int| 0 <= i < t0.len() && t0[i] == x;
                        assert(t1[i] == x);
                    }
                    assert(t1[j as int] == k@);
                }
            }
            j = j + 1;
        }
        proof {
            assert(ex.take(j as int) =~= ex);
            assert(self@ =~= unexpired(m0, now));
        }
        expired.len()
    }

    /// Removes the keys that have expired now, on the system clock; gives how many there
    /// were.
    pub fn cleanup_expired(&mut self) -> (r: usize)
        requires
            old(self).wf(),
        ensures
            final(self).wf(),
            exists|now: u64| final(self)@ == #[trigger] unexpired(old(self)@, now)
                && r == old(self).key_order().filter(old(self).expired_at(now)).len(),
    {
        let now = crate::utils::timestamp_now_millis();
        self.cleanup_expired_at(now)
    }

    /// Whether `key` is in the index.
    pub fn contains(&self, key: &str) -> (r: bool)
        ensures
            r == self@.contains_key(key@),
    {
        self.map.contains_key(key)
    }

    /// The number of keys.
    pub fn len(&self) -> (r: usize)
        requires
            self.wf(),
        ensures
            r == self@.len(),
    {
        proof { assert(self@.dom() =~= self.map@.dom()); }
        self.map.len()
    }

    /// Whether the index holds no key.
    pub fn is_empty(&self) -> (r: bool)
        requires
            self.wf(),
        ensures
            r == (self@.len() == 0),
    {
        self.len() == 0
    }

    /// All keys, each once, in walking order.
    pub fn keys(&self) -> (r: Vec<String>)
        requires
            self.wf(),
        ensures
            key_views(r@) == self.key_order(),
    {
        let mut out: Vec<String> = Vec::new();
        let mut i: usize = 0;
        while i < self.keys.len()
            invariant
                i <= self.keys@.len(),
                key_views(out@) == key_views(self.keys@.take(i as int)),
            decreases self.keys@.len() - i,
        {
            let c = self.keys[i].clone();
            let ghost before = out@;
            out.push(c);
            proof {
                assert(self.keys@.take(i as int + 1) =~= self.keys@.take(i as int).push(self.keys@[i as int]));
                assert(out@ =~= before.push(c));
                assert(key_views(out@) =~= key_views(before).push(c@));
                assert(key_views(self.keys@.take(i as int + 1)) =~= key_views(self.keys@.take(i as int)).push(self.keys@[i as int]@));
            }
            i = i + 1;
        }
        proof { assert(self.keys@.take(i as int) =~= self.keys@); }
        out
    }

    /// All entries, in walking order.
    pub fn iter(&self) -> (r: Vec<(String, BlobLocation)>)
        requires
            self.wf(),
        ensures
            r@.map_values(|e: (String, BlobLocation)| (e.0@, e.1.view())) == self.entries(),
    {
        let mut out: Vec<(String, BlobLocation)> = Vec::new();
        let mut i: usize = 0;
        while i < self.keys.len()
            invariant
                self.wf(),
                i <= self.keys@.len(),
                out@.map_values(|e: (String, BlobLocation)| (e.0@, e.1.view())) == self.entries().take(i as int),
            decreases self.keys@.len() - i,
        {
            let key = &self.keys[i];
            proof {
                assert(key_views(self.keys@)[i as int] == key@);
                assert(self.map@.contains_key(key@));
            }
            let loc = match self.map.get(key.as_str()) {
                Some(l) => l.duplicate(),
                None => {
                    proof { assert(false); }
                    return out;
                },
            };
            let kc = key.clone();
            let ghost before = out@;
            out.push((kc, loc));
            proof {
                let f = |e: (String, BlobLocation)| (e.0@, e.1.view());
                assert(out@ =~= before.push((kc, loc)));
                assert(out@.map_values(f) =~= before.map_values(f).push((key@, loc.view())));
                assert(self.entries()[i as int] == (key@, self@[key@]));
                assert(self.entries().take(i as int + 1) =~= self.entries().take(i as int).push(self.entries()[i as int]));
            }
            i = i + 1;
        }
        proof { assert(self.entries().take(i as int) =~= self.entries()); }
        out
    }

    /// Removes every key.
    pub fn clear(&mut self)
        ensures
            final(self).wf(),
            final(self)@ == Map::<Seq<char>, BlobLocationView>::empty(),
    {
        self.map.clear();
        self.keys.clear();
        proof {
            assert(key_views(self.keys@) =~= Seq::<Seq<char>>::empty());
            assert(self@ =~= Map::<Seq<char>, BlobLocationView>::empty());
        }
    }
}

/// The magic that starts an index snapshot: `KVINDEX3`.
pub open spec fn snapshot_magic() -> Seq<u8> {
    seq![0x4Bu8, 0x56u8, 0x49u8, 0x4Eu8, 0x44u8, 0x45u8, 0x58u8, 0x33u8]
}

/// The bytes of an expiry: 0, or 1 followed by the time (8 bytes).
pub open spec fn expiry_bytes(e: Option<u64>) -> Seq<u8> {
    match e {
        None => seq![0u8],
        Some(t) => seq![1u8] + spec_u64_to_le_bytes(t),
    }
}

/// The bytes of one entry of a snapshot: the key's length (4 bytes) and UTF-8 bytes, the
/// segment, offset and size (8 bytes each), the hash's length (4 bytes) and UTF-8 bytes,
/// and the expiry.
pub open spec fn snapshot_entry(key: Seq<char>, l: BlobLocationView) -> Seq<u8> {
    let kb = encode_utf8(key);
    let hb = encode_utf8(l.blake3);
    spec_u32_to_le_bytes(kb.len() as u32) + kb + spec_u64_to_le_bytes(l.shard) + spec_u64_to_le_bytes(l.offset)
        + spec_u64_to_le_bytes(l.size) + spec_u32_to_le_bytes(hb.len() as u32) + hb + expiry_bytes(l.expires_at)
}

/// The bytes of the given entries, one after the other.
pub open spec fn snapshot_entries(es: Seq<(Seq<char>, BlobLocationView)>) -> Seq<u8>
    decreases es.len(),
{
    if es.len() == 0 {
        Seq::empty()
    } else {
        snapshot_entries(es.drop_last()) + snapshot_entry(es.last().0, es.last().1)
    }
}

/// The bytes of a snapshot of the given entries: the magic, their number (8 bytes), and
/// the entries.
pub open spec fn snapshot_bytes(es: Seq<(Seq<char>, BlobLocationView)>) -> Seq<u8> {
    snapshot_magic() + spec_u64_to_le_bytes(es.len() as u64) + snapshot_entries(es)
}

/// Whether entries can be written in a snapshot: their lengths fit their fields.
pub open spec fn snapshot_writable(es: Seq<(Seq<char>, BlobLocationView)>) -> bool {
    &&& es.len() <= u64::MAX
    &&& forall|i: int| 0 <= i < es.len() ==> {
        &&& encode_utf8((#[trigger] es[i]).0).len() <= u32::MAX
        &&& encode_utf8(es[i].1.blake3).len() <= u32::MAX
    }
}

/// Why a snapshot cannot be read.
pub enum SnapshotError {
    /// The bytes end before the snapshot does.
    Truncated,
    /// The snapshot does not start with the magic.
    BadMagic,
    /// A key is not UTF-8.
    KeyNotUtf8,
    /// A hash is not UTF-8.
    HashNotUtf8,
    /// An expiry starts with a byte other than 0 or 1.
    BadExpiry,
}

/// The entry at the start of `b`, and the number of its bytes.
pub open spec fn parse_snapshot_entry(b: Seq<u8>) -> Result<(Seq<char>, BlobLocationView, nat), SnapshotError> {
    if b.len() < 4 {
        Err(SnapshotError::Truncated)
    } else {
        let kl = spec_u32_from_le_bytes(b.subrange(0, 4)) as int;
        let p = 4 + kl;
        if b.len() < p {
            Err(SnapshotError::Truncated)
        } else if !valid_utf8(b.subrange(4, p)) {
            Err(SnapshotError::KeyNotUtf8)
        } else if b.len() < p + 28 {
            Err(SnapshotError::Truncated)
        } else {
            let hl = spec_u32_from_le_bytes(b.subrange(p + 24, p + 28)) as int;
            if b.len() < p + 28 + hl {
                Err(SnapshotError::Truncated)
            } else if !valid_utf8(b.subrange(p + 28, p + 28 + hl)) {
                Err(SnapshotError::HashNotUtf8)
            } else {
                let q = p + 28 + hl;
                if b.len() < q + 1 {
                    Err(SnapshotError::Truncated)
                } else if b[q] != 0 && b[q] != 1 {
                    Err(SnapshotError::BadExpiry)
                } else if b[q] == 1 && b.len() < q + 9 {
                    Err(SnapshotError::Truncated)
                } else {
                    Ok((
                        decode_utf8(b.subrange(4, p)),
                        BlobLocationView {
                            shard: spec_u64_from_le_bytes(b.subrange(p, p + 8)),
                            offset: spec_u64_from_le_bytes(b.subrange(p + 8, p + 16)),
                            size: spec_u64_from_le_bytes(b.subrange(p + 16, p + 24)),
                            blake3: decode_utf8(b.subrange(p + 28, q)),
                            expires_at: if b[q] == 0 { None } else { Some(spec_u64_from_le_bytes(b.subrange(q + 1, q + 9))) },
                        },
                        (if b[q] == 0 { q + 1 } else { q + 9 }) as nat,
                    ))
                }
            }
        }
    }
}

/// The `count` entries at the start of `b`.
pub open spec fn parse_snapshot_entries(b: Seq<u8>, count: nat) -> Result<Seq<(Seq<char>, BlobLocationView)>, SnapshotError>
    decreases count,
{
    if count == 0 {
        Ok(Seq::empty())
    } else {
        match parse_snapshot_entry(b) {
            Err(e) => Err(e),
            Ok((k, l, n)) => match parse_snapshot_entries(b.subrange(n as int, b.len() as int), (count - 1) as nat) {
                Err(e) => Err(e),
                Ok(rest) => Ok(seq![(k, l)] + rest),
            },
        }
    }
}

/// The entries of a snapshot; bytes after the last entry are not read.
pub open spec fn parse_snapshot(b: Seq<u8>) -> Result<Seq<(Seq<char>, BlobLocationView)>, SnapshotError> {
    if b.len() < 8 {
        Err(SnapshotError::Truncated)
    } else if b.subrange(0, 8) != snapshot_magic() {
        Err(SnapshotError::BadMagic)
    } else if b.len() < 16 {
        Err(SnapshotError::Truncated)
    } else {
        parse_snapshot_entries(b.subrange(16, b.len() as int), spec_u64_from_le_bytes(b.subrange(8, 16)) as nat)
    }
}

/// The map that inserting the entries in order gives: a later entry for a key wins.
pub open spec fn entries_map(es: Seq<(Seq<char>, BlobLocationView)>) -> Map<Seq<char>, BlobLocationView>
    decreases es.len(),
{
    if es.len() == 0 {
        Map::empty()
    } else {
        entries_map(es.drop_last()).insert(es.last().0, es.last().1)
    }
}

/// The error that reading a snapshot reports for each reason.
pub open spec fn is_snapshot_error(e: Error, why: SnapshotError) -> bool {
    match why {
        SnapshotError::Truncated => e matches Error::Io(m) && m@ == "failed to fill whole buffer"@,
        SnapshotError::BadMagic => e matches Error::Corrupted(m) && m@ == "Invalid snapshot magic"@,
        SnapshotError::KeyNotUtf8 => e matches Error::Corrupted(m) && m@ == "Invalid UTF-8 in key"@,
        SnapshotError::HashNotUtf8 => e matches Error::Corrupted(m) && m@ == "Invalid UTF-8 in hash"@,
        SnapshotError::BadExpiry => e matches Error::Corrupted(m) && m@ == "Invalid expiry in snapshot"@,
    }
}

proof fn lemma_snapshot_entries_first(es: Seq<(Seq<char>, BlobLocationView)>)
    requires
        es.len() > 0,
    ensures
        snapshot_entries(es) == snapshot_entry(es[0].0, es[0].1) + snapshot_entries(es.drop_first()),
    decreases es.len(),
{
    if es.len() == 1 {
        assert(es.drop_last() =~= Seq::<(Seq<char>, BlobLocationView)>::empty());
        assert(es.drop_first() =~= Seq::<(Seq<char>, BlobLocationView)>::empty());
        assert(snapshot_entries(es) =~= snapshot_entry(es[0].0, es[0].1) + snapshot_entries(es.drop_first()));
    } else {
        lemma_snapshot_entries_first(es.drop_last());
        assert(es.drop_last().drop_first() =~= es.drop_first().drop_last());
        assert(es.drop_first().last() == es.last());
        assert(es.drop_last()[0] == es[0]);
    }
}

proof fn lemma_snapshot_entry_read_back(k: Seq<char>, l: BlobLocationView, rest: Seq<u8>)
    requires
        encode_utf8(k).len() <= u32::MAX,
        encode_utf8(l.blake3).len() <= u32::MAX,
    ensures
        parse_snapshot_entry(snapshot_entry(k, l) + rest) == Ok::<(Seq<char>, BlobLocationView, nat), SnapshotError>((k, l, snapshot_entry(k, l).len())),
{
    lemma_auto_spec_u32_to_from_le_bytes();
    lemma_auto_spec_u64_to_from_le_bytes();
    vstd::utf8::encode_utf8_valid_utf8(k);
    vstd::utf8::encode_utf8_decode_utf8(k);
    vstd::utf8::encode_utf8_valid_utf8(l.blake3);
    vstd::utf8::encode_utf8_decode_utf8(l.blake3);
    let kb = encode_utf8(k);
    let hb = encode_utf8(l.blake3);
    let b = snapshot_entry(k, l) + rest;
    let p: int = 4 + kb.len() as int;
    assert(b.subrange(0, 4) =~= spec_u32_to_le_bytes(kb.len() as u32));
    assert(b.subrange(4, p) =~= kb);
    assert(b.subrange(p, p + 8) =~= spec_u64_to_le_bytes(l.shard));
    assert(b.subrange(p + 8, p + 16) =~= spec_u64_to_le_bytes(l.offset));
    assert(b.subrange(p + 16, p + 24) =~= spec_u64_to_le_bytes(l.size));
    assert(b.subrange(p + 24, p + 28) =~= spec_u32_to_le_bytes(hb.len() as u32));
    assert(b.subrange(p + 28, p + 28 + hb.len() as int) =~= hb);
    let q: int = p + 28 + hb.len() as int;
    match l.expires_at {
        None => {
            assert(b[q] == 0);
        },
        Some(t) => {
            assert(b[q] == 1);
            assert(b.subrange(q + 1, q + 9) =~= spec_u64_to_le_bytes(t));
        },
    }
}

#[verifier::spinoff_prover]
#[verifier::rlimit(40)]
proof fn lemma_snapshot_entries_read_back(es: Seq<(Seq<char>, BlobLocationView)>, rest: Seq<u8>)
    requires
        snapshot_writable(es),
    ensures
        parse_snapshot_entries(snapshot_entries(es) + rest, es.len()) == Ok::<Seq<(Seq<char>, BlobLocationView)>, SnapshotError>(es),
    decreases es.len(),
{
    if es.len() == 0 {
        assert(parse_snapshot_entries(snapshot_entries(es) + rest, 0) == Ok::<Seq<(Seq<char>, BlobLocationView)>, SnapshotError>(Seq::empty()));
        assert(es =~= Seq::<(Seq<char>, BlobLocationView)>::empty());
    } else {
        let e = es[0];
        let tail = es.drop_first();
        assert(snapshot_writable(tail)) by {
            assert forall|i: int| 0 <= i < tail.len() implies {
                &&& encode_utf8((#[trigger] tail[i]).0).len() <= u32::MAX
                &&& encode_utf8(tail[i].1.blake3).len() <= u32::MAX
            } by {
                assert(tail[i] == es[i + 1]);
            }
        }
        assert(encode_utf8(es[0].0).len() <= u32::MAX && encode_utf8(es[0].1.blake3).len() <= u32::MAX);
        lemma_snapshot_entries_first(es);
        lemma_snapshot_entries_read_back(tail, rest);
        let b = snapshot_entries(es) + rest;
        let eb = snapshot_entry(e.0, e.1);
        assert(b =~= eb + (snapshot_entries(tail) + rest));
        lemma_snapshot_entry_read_back(e.0, e.1, snapshot_entries(tail) + rest);
        assert(b.subrange(eb.len() as int, b.len() as int) =~= snapshot_entries(tail) + rest);
        assert(seq![(e.0, e.1)] + tail =~= es);
    }
}

/// Reading back a snapshot gives the entries it was written from, in order.
pub proof fn law_snapshot_roundtrip(es: Seq<(Seq<char>, BlobLocationView)>)
    requires
        snapshot_writable(es),
    ensures
        parse_snapshot(snapshot_bytes(es)) == Ok::<Seq<(Seq<char>, BlobLocationView)>, SnapshotError>(es),
{
    lemma_auto_spec_u64_to_from_le_bytes();
    let b = snapshot_bytes(es);
    assert(b.subrange(0, 8) =~= snapshot_magic());
    assert(b.subrange(8, 16) =~= spec_u64_to_le_bytes(es.len() as u64));
    assert(b.subrange(16, b.len() as int) =~= snapshot_entries(es) + Seq::<u8>::empty());
    lemma_snapshot_entries_read_back(es, Seq::empty());
}

/// The entries of an index, in any order in which each key comes once, rebuild the index.
pub proof fn lemma_entries_map_of_distinct(es: Seq<(Seq<char>, BlobLocationView)>, m: Map<Seq<char>, BlobLocationView>)
    requires
        es.map_values(|e: (Seq<char>, BlobLocationView)| e.0).no_duplicates(),
        forall|k: Seq<char>| m.contains_key(k) <==> es.map_values(|e: (Seq<char>, BlobLocationView)| e.0).contains(k),
        forall|i: int| 0 <= i < es.len() ==> m[(#[trigger] es[i]).0] == es[i].1,
    ensures
        entries_map(es) == m,
    decreases es.len(),
{
    let ks = es.map_values(|e: (Seq<char>, BlobLocationView)| e.0);
    if es.len() == 0 {
        assert(m =~= Map::<Seq<char>, BlobLocationView>::empty()) by {
            assert forall|k: Seq<char>| !m.contains_key(k) by {}
        }
    } else {
        let init = es.drop_last();
        let last = es.last();
        let kinit = init.map_values(|e: (Seq<char>, BlobLocationView)| e.0);
        assert(kinit =~= ks.drop_last());
        assert(ks[ks.len() - 1] == last.0);
        let m2 = m.remove(last.0);
        assert forall|k: Seq<char>| m2.contains_key(k) <==> kinit.contains(k) by {
            if kinit.contains(k) {
                let i = choose|i: int| 0 <= i < kinit.len() && kinit[i] == k;
                assert(ks[i] == k);
                assert(k != last.0);
            }
            if m2.contains_key(k) {
                assert(ks.contains(k));
                let i = choose|i: int| 0 <= i < ks.len() && ks[i] == k;
                assert(i != ks.len() - 1);
                assert(kinit[i] == k);
            }
        }
        assert forall|i: int| 0 <= i < init.len() implies m2[(#[trigger] init[i]).0] == init[i].1 by {
            assert(init[i] == es[i]);
            assert(ks[i] == init[i].0);
            assert(ks[i] != ks[ks.len() - 1]);
        }
        lemma_entries_map_of_distinct(init, m2);
        assert(m[last.0] == last.1) by {
            assert(es[es.len() - 1] == last);
        }
        assert(entries_map(es) =~= m);
    }
}


/// Appends the bytes of one snapshot entry.
fn push_snapshot_entry(out: &mut Vec<u8>, key: &str, l: &BlobLocation)
    requires
        encode_utf8(key@).len() <= u32::MAX,
        encode_utf8(l.blake3@).len() <= u32::MAX,
    ensures
        final(out)@ == old(out)@ + snapshot_entry(key@, l.view()),
{
    let kb = key.as_bytes();
    let hb = l.blake3.as_str().as_bytes();
    let klen = u32_to_le_bytes(kb.len() as u32);
    append_bytes(out, klen.as_slice());
    append_bytes(out, kb);
    let shard = u64_to_le_bytes(l.shard);
    append_bytes(out, shard.as_slice());
    let offset = u64_to_le_bytes(l.offset);
    append_bytes(out, offset.as_slice());
    let size = u64_to_le_bytes(l.size);
    append_bytes(out, size.as_slice());
    let hlen = u32_to_le_bytes(hb.len() as u32);
    append_bytes(out, hlen.as_slice());
    append_bytes(out, hb);
    match l.expires_at {
        None => {
            out.push(0u8);
        },
        Some(t) => {
            out.push(1u8);
            let tb = u64_to_le_bytes(t);
            append_bytes(out, tb.as_slice());
        },
    }
    proof {
        assert(final(out)@ =~= old(out)@ + snapshot_entry(key@, l.view()));
    }
}

/// The entries `done` read so far, followed by what reading the rest gives.
pub open spec fn prepend_entries(
    done: Seq<(Seq<char>, BlobLocationView)>,
    r: Result<Seq<(Seq<char>, BlobLocationView)>, SnapshotError>,
) -> Result<Seq<(Seq<char>, BlobLocationView)>, SnapshotError> {
    match r {
        Ok(x) => Ok(done + x),
        Err(e) => Err(e),
    }
}

/// Reads the snapshot entry that starts at `pos`: the key, the location and the position
/// after the entry.
fn read_snapshot_entry(bytes: &[u8], pos: usize) -> (r: Result<(String, BlobLocation, usize), SnapshotError>)
    requires
        pos <= bytes@.len(),
    ensures
        match parse_snapshot_entry(bytes@.subrange(pos as int, bytes@.len() as int)) {
            Ok((k, l, n)) => r matches Ok((key, loc, next)) && key@ == k && loc.view() == l && next == pos + n,
            Err(e) => r == Err::<(String, BlobLocation, usize), SnapshotError>(e),
        },
{
    let ghost b = bytes@.subrange(pos as int, bytes@.len() as int);
    let avail = bytes.len() - pos;
    if avail < 4 {
        return Err(SnapshotError::Truncated);
    }
    let kl = u32_from_le_bytes(vstd::slice::slice_subrange(bytes, pos, pos + 4)) as usize;
    proof { assert(bytes@.subrange(pos as int, pos + 4) =~= b.subrange(0, 4)); }
    if avail - 4 < kl {
        return Err(SnapshotError::Truncated);
    }
    let ks = pos + 4;
    let p = ks + kl;
    let key_vec = vstd::slice::slice_to_vec(vstd::slice::slice_subrange(bytes, ks, p));
    proof { assert(key_vec@ =~= b.subrange(4, 4 + kl)); }
    let key = match string_from_utf8(key_vec) {
        Ok(k) => k,
        Err(_) => { return Err(SnapshotError::KeyNotUtf8); },
    };
    proof {
        vstd::utf8::decode_utf8_encode_utf8(b.subrange(4, 4 + kl));
        vstd::utf8::encode_utf8_decode_utf8(key@);
    }
    if avail - 4 - kl < 28 {
        return Err(SnapshotError::Truncated);
    }
    let shard = u64_from_le_bytes(vstd::slice::slice_subrange(bytes, p, p + 8));
    let offset = u64_from_le_bytes(vstd::slice::slice_subrange(bytes, p + 8, p + 16));
    let size = u64_from_le_bytes(vstd::slice::slice_subrange(bytes, p + 16, p + 24));
    let hl = u32_from_le_bytes(vstd::slice::slice_subrange(bytes, p + 24, p + 28)) as usize;
    proof {
        let q = 4 + kl;
        assert(bytes@.subrange(p as int, p + 8) =~= b.subrange(q, q + 8));
        assert(bytes@.subrange(p + 8, p + 16) =~= b.subrange(q + 8, q + 16));
        assert(bytes@.subrange(p + 16, p + 24) =~= b.subrange(q + 16, q + 24));
        assert(bytes@.subrange(p + 24, p + 28) =~= b.subrange(q + 24, q + 28));
    }
    if avail - 4 - kl - 28 < hl {
        return Err(SnapshotError::Truncated);
    }
    let hs = p + 28;
    let he = hs + hl;
    let hash_vec = vstd::slice::slice_to_vec(vstd::slice::slice_subrange(bytes, hs, he));
    proof { assert(hash_vec@ =~= b.subrange(4 + kl + 28, 4 + kl + 28 + hl)); }
    let blake3 = match string_from_utf8(hash_vec) {
        Ok(h) => h,
        Err(_) => { return Err(SnapshotError::HashNotUtf8); },
    };
    proof {
        vstd::utf8::decode_utf8_encode_utf8(b.subrange(4 + kl + 28, 4 + kl + 28 + hl));
        vstd::utf8::encode_utf8_decode_utf8(blake3@);
    }
    let ghost q: int = 4 + kl + 28 + hl;
    if bytes.len() - he < 1 {
        return Err(SnapshotError::Truncated);
    }
    let flag = bytes[he];
    proof { assert(flag == b[q]); }
    if flag != 0 && flag != 1 {
        return Err(SnapshotError::BadExpiry);
    }
    if flag == 0 {
        return Ok((key, BlobLocation { shard, offset, size, blake3, expires_at: None }, he + 1));
    }
    if bytes.len() - he < 9 {
        return Err(SnapshotError::Truncated);
    }
    let t = u64_from_le_bytes(vstd::slice::slice_subrange(bytes, he + 1, he + 9));
    proof { assert(bytes@.subrange(he + 1, he + 9) =~= b.subrange(q + 1, q + 9)); }
    Ok((key, BlobLocation { shard, offset, size, blake3, expires_at: Some(t) }, he + 9))
}

/// The error that reading a snapshot reports for `why`.
fn snapshot_error(why: SnapshotError) -> (r: Error)
    ensures
        is_snapshot_error(r, why),
{
    match why {
        SnapshotError::Truncated => {
            proof { reveal_strlit("failed to fill whole buffer"); }
            Error::Io(String::from_str("failed to fill whole buffer"))
        },
        SnapshotError::BadExpiry => {
            proof { reveal_strlit("Invalid expiry in snapshot"); }
            Error::Corrupted(String::from_str("Invalid expiry in snapshot"))
        },
        SnapshotError::BadMagic => {
            proof { reveal_strlit("Invalid snapshot magic"); }
            Error::Corrupted(String::from_str("Invalid snapshot magic"))
        },
        SnapshotError::KeyNotUtf8 => {
            proof { reveal_strlit("Invalid UTF-8 in key"); }
            Error::Corrupted(String::from_str("Invalid UTF-8 in key"))
        },
        SnapshotError::HashNotUtf8 => {
            proof { reveal_strlit("Invalid UTF-8 in hash"); }
            Error::Corrupted(String::from_str("Invalid UTF-8 in hash"))
        },
    }
}

impl Index {
    /// The bytes of a snapshot of this index, its entries in walking order.
    pub fn encode_snapshot(&self) -> (r: Vec<u8>)
        requires
            self.wf(),
            snapshot_writable(self.entries()),
        ensures
            r@ == snapshot_bytes(self.entries()),
    {
        let mut out: Vec<u8> = Vec::new();
        out.push(0x4B);
        out.push(0x56);
        out.push(0x49);
        out.push(0x4E);
        out.push(0x44);
        out.push(0x45);
        out.push(0x58);
        out.push(0x33);
        let count = u64_to_le_bytes(self.keys.len() as u64);
        append_bytes(&mut out, count.as_slice());
        let ghost es = self.entries();
        let ghost head = snapshot_magic() + spec_u64_to_le_bytes(es.len() as u64);
        proof { assert(out@ =~= head + snapshot_entries(es.take(0))); }
        let mut i: usize = 0;
        while i < self.keys.len()
            invariant
                self.wf(),
                es == self.entries(),
                snapshot_writable(es),
                i <= self.keys@.len() == es.len(),
                out@ == head + snapshot_entries(es.take(i as int)),
            decreases self.keys@.len() - i,
        {
            let key = &self.keys[i];
            proof {
                assert(key_views(self.keys@)[i as int] == key@);
                assert(self.map@.contains_key(key@));
            }
            match self.map.get(key.as_str()) {
                Some(l) => {
                    proof {
                        assert(es[i as int] == (key@, l.view()));
                        assert(encode_utf8(es[i as int].0).len() <= u32::MAX);
                    }
                    push_snapshot_entry(&mut out, key.as_str(), l);
                    proof {
                        assert(es.take(i as int + 1).drop_last() =~= es.take(i as int));
                        assert(es.take(i as int + 1).last() == es[i as int]);
                    }
                },
                None => {
                    proof { assert(false); }
                },
            }
            i = i + 1;
        }
        proof { assert(es.take(i as int) =~= es); }
        out
    }

    /// The index that a snapshot holds: its entries inserted in order. Fails as
    /// `parse_snapshot` says.
    pub fn decode_snapshot(bytes: &[u8]) -> (r: Result<Index, Error>)
        ensures
            match parse_snapshot(bytes@) {
                Ok(es) => r matches Ok(idx) && idx.wf() && idx@ == entries_map(es),
                Err(why) => r matches Err(e) && is_snapshot_error(e, why),
            },
    {
        let n = bytes.len();
        if n < 8 {
            return Err(snapshot_error(SnapshotError::Truncated));
        }
        if !(bytes[0] == 0x4B && bytes[1] == 0x56 && bytes[2] == 0x49 && bytes[3] == 0x4E
            && bytes[4] == 0x44 && bytes[5] == 0x45 && bytes[6] == 0x58 && bytes[7] == 0x33) {
            proof {
                if bytes@.subrange(0, 8) == snapshot_magic() {
                    assert(bytes@.subrange(0, 8)[0] == bytes@[0]);
                    assert(bytes@.subrange(0, 8)[1] == bytes@[1]);
                    assert(bytes@.subrange(0, 8)[2] == bytes@[2]);
                    assert(bytes@.subrange(0, 8)[3] == bytes@[3]);
                    assert(bytes@.subrange(0, 8)[4] == bytes@[4]);
                    assert(bytes@.subrange(0, 8)[5] == bytes@[5]);
                    assert(bytes@.subrange(0, 8)[6] == bytes@[6]);
                    assert(bytes@.subrange(0, 8)[7] == bytes@[7]);
                }
            }
            return Err(snapshot_error(SnapshotError::BadMagic));
        }
        proof { assert(bytes@.subrange(0, 8) =~= snapshot_magic()); }
        if n < 16 {
            return Err(snapshot_error(SnapshotError::Truncated));
        }
        let count = u64_from_le_bytes(vstd::slice::slice_subrange(bytes, 8, 16));
        let ghost all = parse_snapshot_entries(bytes@.subrange(16, n as int), count as nat);
        let mut index = Index::new();
        let mut pos: usize = 16;
        let mut i: u64 = 0;
        let ghost mut done: Seq<(Seq<char>, BlobLocationView)> = Seq::empty();
        proof {
            assert(parse_snapshot(bytes@) == all);
            assert(prepend_entries(done, all) == all) by {
                match all {
                    Ok(x) => { assert(done + x =~= x); },
                    Err(_) => {},
                }
            }
        }
        while i < count
            invariant
                n == bytes@.len(),
                16 <= pos <= n,
                i <= count,
                all == parse_snapshot(bytes@),
                all == prepend_entries(done, parse_snapshot_entries(bytes@.subrange(pos as int, n as int), (count - i) as nat)),
                index.wf(),
                index@ == entries_map(done),
            decreases count - i,
        {
            let ghost rest = bytes@.subrange(pos as int, n as int);
            match read_snapshot_entry(bytes, pos) {
                Err(why) => {
                    proof {
                        assert(parse_snapshot_entries(rest, (count - i) as nat) == Err::<Seq<(Seq<char>, BlobLocationView)>, SnapshotError>(why));
                    }
                    return Err(snapshot_error(why));
                },
                Ok((key, loc, next)) => {
                    let ghost kl = (key@, loc.view());
                    proof {
                        assert(rest.subrange((next - pos) as int, rest.len() as int) =~= bytes@.subrange(next as int, n as int));
                        let tail = parse_snapshot_entries(bytes@.subrange(next as int, n as int), (count - i - 1) as nat);
                        match tail {
                            Ok(x) => { assert(done + (seq![kl] + x) =~= done.push(kl) + x); },
                            Err(_) => {},
                        }
                        assert(done.push(kl).drop_last() =~= done);
                    }
                    index.insert(key, loc);
                    pos = next;
                    i = i + 1;
                    proof { done = done.push(kl); }
                },
            }
        }
        proof {
            assert(parse_snapshot_entries(bytes@.subrange(pos as int, n as int), 0) == Ok::<Seq<(Seq<char>, BlobLocationView)>, SnapshotError>(Seq::empty()));
            assert(done + Seq::<(Seq<char>, BlobLocationView)>::empty() =~= done);
        }
        Ok(index)
    }
}

/// Writing a snapshot of an index and reading it back gives the same index.
pub proof fn law_snapshot_restores_index(idx: &Index)
    requires
        idx.wf(),
        snapshot_writable(idx.entries()),
    ensures
        parse_snapshot(snapshot_bytes(idx.entries())) matches Ok(es) && entries_map(es) == idx@,
{
    law_snapshot_roundtrip(idx.entries());
    idx.lemma_key_order();
    let es = idx.entries();
    let ks = es.map_values(|e: (Seq<char>, BlobLocationView)| e.0);
    assert(ks =~= idx.key_order());
    assert forall|i: int| 0 <= i < es.len() implies idx@[(#[trigger] es[i]).0] == es[i].1 by {}
    lemma_entries_map_of_distinct(es, idx@);
}

} // verus!
