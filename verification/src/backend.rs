//! The blob store contract and the in-memory implementation.
//!
//! A backend maps opaque blob names to ciphertext bytes. The trait's
//! contracts are stated over an abstract `Map` view; the in-memory
//! implementation realizes them with a verified association list.

use vstd::prelude::*;

verus! {

/// Errors surfaced by the core: transport failures from a backend, and
/// integrity failures (hash mismatch, failed decryption, malformed
/// serialization, a missing or colliding blob).
#[derive(Clone, Debug, PartialEq, Eq)]
pub enum HatError {
    Backend(String),
    Integrity,
}

/// Compare two byte vectors.
pub fn bytes_eq(a: &Vec<u8>, b: &Vec<u8>) -> (r: bool)
    ensures
        r == (a@ == b@),
{
    if a.len() != b.len() {
        proof {
            assert(a@.len() != b@.len());
        }
        return false;
    }
    let mut i: usize = 0;
    while i < a.len()
        invariant
            i <= a.len(),
            a.len() == b.len(),
            forall|j: int| 0 <= j < i ==> a@[j] == b@[j],
        decreases a.len() - i,
    {
        if a[i] != b[i] {
            return false;
        }
        i = i + 1;
    }
    proof {
        assert(a@ =~= b@);
    }
    true
}

/// A key-value list with unique byte-string keys: the verified heart of
/// the in-memory store and of the read cache.
pub struct KvList<V> {
    pub items: Vec<(Vec<u8>, V)>,
}

/// The map denoted by an association list; later bindings would win, but
/// well-formed lists bind each key once.
pub open spec fn kv_map<V>(s: Seq<(Vec<u8>, V)>) -> Map<Seq<u8>, V>
    decreases s.len(),
{
    if s.len() == 0 {
        Map::empty()
    } else {
        kv_map(s.drop_last()).insert(s.last().0@, s.last().1)
    }
}

pub open spec fn kv_keys_unique<V>(s: Seq<(Vec<u8>, V)>) -> bool {
    forall|i: int, j: int| 0 <= i < j < s.len() ==> s[i].0@ != s[j].0@
}

proof fn lemma_kv_map_contains<V>(s: Seq<(Vec<u8>, V)>, k: Seq<u8>)
    ensures
        kv_map(s).contains_key(k) <==> exists|i: int| 0 <= i < s.len() && s[i].0@ == k,
    decreases s.len(),
{
    if s.len() > 0 {
        lemma_kv_map_contains(s.drop_last(), k);
        if kv_map(s).contains_key(k) {
            if s.last().0@ != k {
                assert(exists|i: int| 0 <= i < s.len() - 1 && s.drop_last()[i].0@ == k);
                let i = choose|i: int| 0 <= i < s.len() - 1 && s.drop_last()[i].0@ == k;
                assert(s[i].0@ == k);
            } else {
                assert(s[s.len() - 1].0@ == k);
            }
        } else {
            assert(forall|i: int| 0 <= i < s.len() - 1 ==> s.drop_last()[i].0@ != k);
            assert(forall|i: int| 0 <= i < s.len() - 1 ==> s[i].0@ == s.drop_last()[i].0@);
        }
    }
}

proof fn lemma_kv_map_index<V>(s: Seq<(Vec<u8>, V)>, i: int)
    requires
        kv_keys_unique(s),
        0 <= i < s.len(),
    ensures
        kv_map(s).contains_key(s[i].0@),
        kv_map(s)[s[i].0@] == s[i].1,
    decreases s.len(),
{
    if i == s.len() - 1 {
        assert(s[i] == s.last());
    } else {
        assert(kv_keys_unique(s.drop_last()));
        assert(s.drop_last()[i] == s[i]);
        lemma_kv_map_index(s.drop_last(), i);
        assert(s.last().0@ != s[i].0@);
    }
}

proof fn lemma_kv_map_push<V>(s: Seq<(Vec<u8>, V)>, k: Vec<u8>, v: V)
    ensures
        kv_map(s.push((k, v))) == kv_map(s).insert(k@, v),
{
    assert(s.push((k, v)).drop_last() =~= s);
}

proof fn lemma_kv_map_remove<V>(s: Seq<(Vec<u8>, V)>, i: int)
    requires
        kv_keys_unique(s),
        0 <= i < s.len(),
    ensures
        kv_map(s.remove(i)) == kv_map(s).remove(s[i].0@),
        kv_keys_unique(s.remove(i)),
    decreases s.len(),
{
    let k = s[i].0@;
    if i == s.len() - 1 {
        assert(s.remove(i) =~= s.drop_last());
        lemma_kv_map_contains(s.drop_last(), k);
        assert(forall|j: int| 0 <= j < s.len() - 1 ==> s.drop_last()[j].0@ != k);
        assert(!kv_map(s.drop_last()).contains_key(k));
        assert(kv_map(s).remove(k) =~= kv_map(s.drop_last()));
    } else {
        let s2 = s.remove(i);
        assert(s2.drop_last() =~= s.drop_last().remove(i));
        assert(s2.last() == s.last());
        assert(kv_keys_unique(s.drop_last()));
        lemma_kv_map_remove(s.drop_last(), i);
        assert(kv_map(s2) == kv_map(s.drop_last().remove(i)).insert(s.last().0@, s.last().1));
        assert(kv_map(s.drop_last().remove(i)) == kv_map(s.drop_last()).remove(k));
        assert(s.last().0@ != k);
        assert(kv_map(s.drop_last()).remove(k).insert(s.last().0@, s.last().1) =~= kv_map(
            s,
        ).remove(k));
    }
}

impl<V> KvList<V> {
    /// The map this list denotes.
    pub open spec fn view_map(&self) -> Map<Seq<u8>, V> {
        kv_map(self.items@)
    }

    pub open spec fn wf(&self) -> bool {
        kv_keys_unique(self.items@)
    }

    pub fn new() -> (r: KvList<V>)
        ensures
            r.wf(),
            r.view_map() == Map::<Seq<u8>, V>::empty(),
            r.items@.len() == 0,
    {
        KvList { items: Vec::new() }
    }

    pub fn len(&self) -> (r: usize)
        ensures
            r == self.items@.len(),
    {
        self.items.len()
    }

    fn find(&self, name: &Vec<u8>) -> (r: Option<usize>)
        requires
            self.wf(),
        ensures
            match r {
                Some(i) => {
                    &&& i < self.items@.len()
                    &&& self.items@[i as int].0@ == name@
                    &&& self.view_map().contains_key(name@)
                    &&& self.view_map()[name@] == self.items@[i as int].1
                },
                None => !self.view_map().contains_key(name@),
            },
    {
        let mut i: usize = 0;
        while i < self.items.len()
            invariant
                self.wf(),
                i <= self.items@.len(),
                forall|j: int| 0 <= j < i ==> self.items@[j].0@ != name@,
            decreases self.items@.len() - i,
        {
            if bytes_eq(&self.items[i].0, name) {
                proof {
                    lemma_kv_map_index(self.items@, i as int);
                }
                return Some(i);
            }
            i = i + 1;
        }
        proof {
            lemma_kv_map_contains(self.items@, name@);
        }
        None
    }

    /// Look a key up.
    pub fn get(&self, name: &Vec<u8>) -> (r: Option<&V>)
        requires
            self.wf(),
        ensures
            match r {
                Some(v) => self.view_map().contains_key(name@) && *v == self.view_map()[name@],
                None => !self.view_map().contains_key(name@),
            },
    {
        match self.find(name) {
            Some(i) => Some(&self.items[i].1),
            None => None,
        }
    }

    /// Bind a key, replacing any previous binding.
    pub fn set(&mut self, name: Vec<u8>, value: V)
        requires
            old(self).wf(),
        ensures
            final(self).wf(),
            final(self).view_map() == old(self).view_map().insert(name@, value),
            final(self).items@.len() <= old(self).items@.len() + 1,
    {
        match self.find(&name) {
            Some(i) => {
                proof {
                    lemma_kv_map_remove(self.items@, i as int);
                }
                let ghost pre = self.items@;
                self.items.remove(i);
                let ghost mid = self.items@;
                self.items.push((name, value));
                proof {
                    lemma_kv_map_push(mid, final(self).items@.last().0, value);
                    assert(kv_keys_unique(final(self).items@)) by {
                        assert(forall|j: int|
                            0 <= j < mid.len() ==> mid[j].0@ != final(self).items@.last().0@);
                    }
                    assert(final(self).view_map() =~= old(self).view_map().insert(
                        final(self).items@.last().0@,
                        value,
                    ));
                }
            },
            None => {
                let ghost pre = self.items@;
                let ghost namev = name@;
                self.items.push((name, value));
                proof {
                    lemma_kv_map_push(pre, final(self).items@.last().0, value);
                    lemma_kv_map_contains(pre, namev);
                    assert(forall|j: int| 0 <= j < pre.len() ==> pre[j].0@ != namev);
                    assert(kv_keys_unique(final(self).items@));
                }
            },
        }
    }

    /// Drop a key's binding if present.
    pub fn unset(&mut self, name: &Vec<u8>)
        requires
            old(self).wf(),
        ensures
            final(self).wf(),
            final(self).view_map() == old(self).view_map().remove(name@),
    {
        match self.find(name) {
            Some(i) => {
                proof {
                    lemma_kv_map_remove(self.items@, i as int);
                }
                self.items.remove(i);
            },
            None => {
                proof {
                    assert(old(self).view_map().remove(name@) =~= old(self).view_map());
                }
            },
        }
    }

    /// Drop everything.
    pub fn clear(&mut self)
        ensures
            final(self).wf(),
            final(self).view_map() == Map::<Seq<u8>, V>::empty(),
            final(self).items@.len() == 0,
    {
        self.items.clear();
    }

    /// The keys, in insertion order.
    pub fn keys(&self) -> (r: Vec<Vec<u8>>)
        requires
            self.wf(),
        ensures
            r.deep_view().len() == self.items@.len(),
            forall|i: int|
                0 <= i < r.deep_view().len() ==> r.deep_view()[i] == self.items@[i].0@,
            forall|k: Seq<u8>|
                self.view_map().contains_key(k) <==> r.deep_view().contains(k),
    {
        let mut out: Vec<Vec<u8>> = Vec::new();
        let mut i: usize = 0;
        while i < self.items.len()
            invariant
                self.wf(),
                i <= self.items@.len(),
                out.deep_view().len() == i,
                forall|j: int| 0 <= j < i ==> out.deep_view()[j] == self.items@[j].0@,
            decreases self.items@.len() - i,
        {
            let mut k: Vec<u8> = Vec::new();
            k.extend_from_slice(self.items[i].0.as_slice());
            proof {
                assert(k@ =~= self.items@[i as int].0@);
            }
            let ghost prev = out.deep_view();
            out.push(k);
            proof {
                assert(out.deep_view() =~~= prev + seq![self.items@[i as int].0@]);
            }
            i = i + 1;
        }
        proof {
            assert forall|k: Seq<u8>| self.view_map().contains_key(k) implies out.deep_view()
                .contains(k) by {
                lemma_kv_map_contains(self.items@, k);
                let i = choose|i: int| 0 <= i < self.items@.len() && self.items@[i].0@ == k;
                assert(out.deep_view()[i] == k);
            }
            assert forall|k: Seq<u8>| out.deep_view().contains(k) implies self.view_map()
                .contains_key(k) by {
                let i = choose|i: int| 0 <= i < out.deep_view().len() && out.deep_view()[i] == k;
                lemma_kv_map_index(self.items@, i);
            }
        }
        out
    }
}

/// `m2` binds every name `m1` binds, to the same bytes: the way a store
/// grows as blobs are added.
pub open spec fn extends(m1: Map<Seq<u8>, Seq<u8>>, m2: Map<Seq<u8>, Seq<u8>>) -> bool {
    forall|k: Seq<u8>|
        m1.contains_key(k) ==> #[trigger] m2.contains_key(k) && m2[k] == m1[k]
}

pub proof fn lemma_extends_trans(
    m1: Map<Seq<u8>, Seq<u8>>,
    m2: Map<Seq<u8>, Seq<u8>>,
    m3: Map<Seq<u8>, Seq<u8>>,
)
    requires
        extends(m1, m2),
        extends(m2, m3),
    ensures
        extends(m1, m3),
{
}

/// The pluggable blob store, as the engine sees it.
///
/// `contents()` is the abstract name-to-bytes map; `reliable()` marks
/// implementations whose operations cannot fail in transport (the
/// in-memory store), so that callers can prove success end to end.
pub trait StoreBackend: Sized {
    /// The implementation's internal invariant; every operation keeps it.
    open spec fn inv(&self) -> bool {
        true
    }

    /// The abstract name-to-bytes map the store holds.
    open spec fn contents(&self) -> Map<Seq<u8>, Seq<u8>> {
        Map::empty()
    }

    /// Whether operations can fail in transport; an unreliable store may
    /// return an error from any operation.
    open spec fn reliable(&self) -> bool {
        false
    }

    /// Store a blob. On success the blob is bound to its name; callers
    /// must flush before relying on durability.
    fn store(&mut self, name: Vec<u8>, data: Vec<u8>) -> (r: Result<(), HatError>)
        requires
            old(self).inv(),
        ensures
            final(self).inv(),
            final(self).reliable() == old(self).reliable(),
            r is Ok ==> final(self).contents() == old(self).contents().insert(name@, data@),
            r is Err ==> final(self).contents() == old(self).contents(),
            old(self).reliable() ==> r is Ok,
    ;

    /// Fetch a blob; absence is a value, not an error.
    fn retrieve(&mut self, name: &Vec<u8>) -> (r: Result<Option<Vec<u8>>, HatError>)
        requires
            old(self).inv(),
        ensures
            final(self).inv(),
            final(self).reliable() == old(self).reliable(),
            final(self).contents() == old(self).contents(),
            match r {
                Ok(Some(v)) => old(self).contents().contains_key(name@) && v@ == old(
                    self,
                ).contents()[name@],
                Ok(None) => !old(self).contents().contains_key(name@),
                Err(_) => true,
            },
            old(self).reliable() ==> r is Ok,
    ;

    /// Remove a blob and invalidate any cached copy of it.
    fn delete(&mut self, name: &Vec<u8>) -> (r: Result<(), HatError>)
        requires
            old(self).inv(),
        ensures
            final(self).inv(),
            final(self).reliable() == old(self).reliable(),
            r is Ok ==> final(self).contents() == old(self).contents().remove(name@),
            r is Err ==> final(self).contents() == old(self).contents(),
            old(self).reliable() ==> r is Ok,
    ;

    /// A snapshot of the name set; order unspecified.
    fn list(&mut self) -> (r: Result<Vec<Vec<u8>>, HatError>)
        requires
            old(self).inv(),
        ensures
            final(self).inv(),
            final(self).reliable() == old(self).reliable(),
            final(self).contents() == old(self).contents(),
            match r {
                Ok(names) => forall|k: Seq<u8>|
                    old(self).contents().contains_key(k) <==> names.deep_view().contains(k),
                Err(_) => true,
            },
            old(self).reliable() ==> r is Ok,
    ;

    /// Block until every previously accepted store has completed.
    fn flush(&mut self) -> (r: Result<(), HatError>)
        requires
            old(self).inv(),
        ensures
            final(self).inv(),
            final(self).reliable() == old(self).reliable(),
            final(self).contents() == old(self).contents(),
            old(self).reliable() ==> r is Ok,
    ;
}

/// Backend idempotence, at the level of the abstract store state: once a
/// name is bound by `store`, a retrieve governed by the trait contract
/// can only hand back exactly those bytes; after `delete`, it can only
/// report absence; retrieving changes nothing, so it is idempotent.
pub proof fn lemma_backend_idempotence(m: Map<Seq<u8>, Seq<u8>>, name: Seq<u8>, data: Seq<u8>)
    ensures
        m.insert(name, data).contains_key(name),
        m.insert(name, data)[name] == data,
        !m.insert(name, data).remove(name).contains_key(name),
{
}

/// Cache consistency, at the level of the abstract store state: a
/// retrieve performed after `delete(name)` is governed by a contents map
/// that no longer holds the name, so by the `retrieve` contract it cannot
/// return the deleted value.
pub proof fn lemma_delete_hides_value(m: Map<Seq<u8>, Seq<u8>>, name: Seq<u8>)
    ensures
        !m.remove(name).contains_key(name),
{
}

/// The in-memory blob store: a plain map, reliable by construction, with
/// immediate visibility of stores and a no-op flush.
pub struct MemoryBackend {
    pub store: KvList<Vec<u8>>,
}

impl MemoryBackend {
    pub open spec fn wf(&self) -> bool {
        self.store.wf()
    }

    pub fn new() -> (r: MemoryBackend)
        ensures
            r.wf(),
            r.contents() == Map::<Seq<u8>, Seq<u8>>::empty(),
    {
        MemoryBackend { store: KvList::new() }
    }
}

/// The association list's map, with values read through their views.
pub open spec fn bytes_map_view(m: Map<Seq<u8>, Vec<u8>>) -> Map<Seq<u8>, Seq<u8>> {
    Map::new(|k: Seq<u8>| m.contains_key(k), |k: Seq<u8>| m[k]@)
}

impl StoreBackend for MemoryBackend {
    open spec fn inv(&self) -> bool {
        self.store.wf()
    }

    open spec fn contents(&self) -> Map<Seq<u8>, Seq<u8>> {
        bytes_map_view(self.store.view_map())
    }

    open spec fn reliable(&self) -> bool {
        true
    }

    fn store(&mut self, name: Vec<u8>, data: Vec<u8>) -> (r: Result<(), HatError>)
    {
        let ghost namev = name@;
        let ghost datav = data@;
        self.store.set(name, data);
        proof {
            assert(final(self).contents() =~= old(self).contents().insert(namev, datav));
        }
        Ok(())
    }

    fn retrieve(&mut self, name: &Vec<u8>) -> (r: Result<Option<Vec<u8>>, HatError>)
    {
        match self.store.get(name) {
            Some(v) => {
                let mut out: Vec<u8> = Vec::new();
                out.extend_from_slice(v.as_slice());
                proof {
                    assert(out@ =~= old(self).contents()[name@]);
                }
                Ok(Some(out))
            },
            None => Ok(None),
        }
    }

    fn delete(&mut self, name: &Vec<u8>) -> (r: Result<(), HatError>)
    {
        self.store.unset(name);
        proof {
            assert(final(self).contents() =~= old(self).contents().remove(name@));
        }
        Ok(())
    }

    fn list(&mut self) -> (r: Result<Vec<Vec<u8>>, HatError>)
    {
        Ok(self.store.keys())
    }

    fn flush(&mut self) -> (r: Result<(), HatError>)
    {
        Ok(())
    }
}

} // verus!
