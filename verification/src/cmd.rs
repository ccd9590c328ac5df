//! The verified half of the spawned-process blob store: hex framing for
//! the helper command line, parsing of the list helper's output, the
//! bounded read cache, and the retry decisions for in-flight writes.
//! Spawning the helpers and waiting on them is I/O and lives outside the
//! library.

use hex::FromHex;
use vstd::prelude::*;

use crate::backend::KvList;
use crate::vfs::split_on;

verus! {

/// The newline separating names in the list helper's output.
pub const LINE_SEP: u8 = 10;

/// One lowercase hex digit.
pub open spec fn hex_char(n: u8) -> char
    recommends
        n < 16,
{
    if n < 10 {
        ((48 + n) as u8) as char
    } else {
        ((87 + n) as u8) as char
    }
}

/// The lowercase hex rendering of a byte string, two digits per byte.
pub open spec fn hex_chars_of(b: Seq<u8>) -> Seq<char>
    decreases b.len(),
{
    if b.len() == 0 {
        Seq::empty()
    } else {
        hex_chars_of(b.drop_last()).push(hex_char(b.last() / 16)).push(hex_char(b.last() % 16))
    }
}

/// The value of one hex digit byte, either case.
pub open spec fn hex_val(c: u8) -> Option<u8> {
    if 48 <= c <= 57 {
        Some((c - 48) as u8)
    } else if 97 <= c <= 102 {
        Some((c - 87) as u8)
    } else if 65 <= c <= 70 {
        Some((c - 55) as u8)
    } else {
        None
    }
}

/// The bytes a hex string denotes: defined exactly when the length is
/// even and every byte is a hex digit.
pub open spec fn hex_parse(s: Seq<u8>) -> Option<Seq<u8>>
    decreases s.len(),
{
    if s.len() == 0 {
        Some(Seq::empty())
    } else if s.len() == 1 {
        None
    } else {
        match (hex_val(s[0]), hex_val(s[1])) {
            (Some(h), Some(l)) => match hex_parse(s.skip(2)) {
                Some(rest) => Some(seq![(h * 16 + l) as u8] + rest),
                None => None,
            },
            _ => None,
        }
    }
}

/// Relies on `hex::encode`: two lowercase digits per input byte.
#[verifier::external_body]
pub(crate) fn hex_encode(b: &Vec<u8>) -> (r: String)
    ensures
        r@ == hex_chars_of(b@),
{
    hex::encode(&b[..])
}

/// Relies on `hex::FromHex` for `Vec<u8>`: succeeds exactly on an
/// even-length string of hex digits of either case, decoding pairwise.
#[verifier::external_body]
pub(crate) fn hex_decode(s: &Vec<u8>) -> (r: Option<Vec<u8>>)
    ensures
        r.deep_view() == hex_parse(s@),
{
    Vec::from_hex(&s[..]).ok()
}

/// A line with any trailing carriage return removed, so that helpers
/// emitting CRLF line endings are read the same as LF ones.
pub open spec fn trim_cr(line: Seq<u8>) -> Seq<u8> {
    if line.len() > 0 && line.last() == 13 {
        line.drop_last()
    } else {
        line
    }
}

/// The names in a list helper's output: one per line, lines that are not
/// valid hex skipped.
pub open spec fn names_of_lines(lines: Seq<Seq<u8>>) -> Seq<Seq<u8>>
    decreases lines.len(),
{
    if lines.len() == 0 {
        Seq::empty()
    } else {
        names_of_lines(lines.drop_last()) + (match hex_parse(trim_cr(lines.last())) {
            Some(v) => seq![v],
            None => Seq::empty(),
        })
    }
}

/// Parse the list helper's output: hex names one per line; lines that do
/// not parse are ignored.
pub fn parse_list_output(text: &Vec<u8>) -> (r: Vec<Vec<u8>>)
    ensures
        r.deep_view() == names_of_lines(split_on(text@, LINE_SEP)),
{
    proof {
        assert(text@.skip(0) =~= text@);
    }
    let lines = crate::vfs::split_from(text, 0, LINE_SEP);
    let ghost lsv = lines.deep_view();
    let mut out: Vec<Vec<u8>> = Vec::new();
    let mut i: usize = 0;
    proof {
        assert(lsv.take(0) =~= Seq::<Seq<u8>>::empty());
    }
    while i < lines.len()
        invariant
            i <= lines@.len(),
            lsv == lines.deep_view(),
            out.deep_view() == names_of_lines(lsv.take(i as int)),
        decreases lines@.len() - i,
    {
        proof {
            assert(lsv.take(i as int + 1).drop_last() =~= lsv.take(i as int));
            assert(lsv.take(i as int + 1).last() == lsv[i as int]);
            assert(lsv[i as int] =~= lines@[i as int]@);
        }
        let ghost pre = out.deep_view();
        let line = &lines[i];
        let trimmed = if line.len() > 0 && line[line.len() - 1] == 13 {
            crate::codec::copy_range(line, 0, line.len() - 1)
        } else {
            crate::codec::copy_range(line, 0, line.len())
        };
        proof {
            assert(trimmed@ =~= trim_cr(lsv[i as int]));
        }
        match hex_decode(&trimmed) {
            Some(name) => {
                out.push(name);
                proof {
                    assert(out.deep_view() =~~= pre + seq![
                        hex_parse(trim_cr(lsv[i as int]))->Some_0,
                    ]);
                }
            },
            None => {
                proof {
                    assert(pre + Seq::<Seq<u8>>::empty() =~= pre);
                }
            },
        }
        i = i + 1;
    }
    proof {
        assert(lsv.take(lsv.len() as int) =~= lsv);
    }
    out
}

/// A cached read result: bytes, a recorded miss, or a recorded error.
#[derive(Clone, Debug, PartialEq, Eq)]
pub enum CacheVal {
    Found(Vec<u8>),
    Missing,
    Failed(String),
}

/// The bounded read cache: a fixed-capacity map that is cleared whole
/// when an insert finds it full.
pub struct ReadCache {
    pub entries: KvList<CacheVal>,
    pub capacity: usize,
}

impl ReadCache {
    pub open spec fn wf(&self) -> bool {
        self.entries.wf()
    }

    pub open spec fn view_map(&self) -> Map<Seq<u8>, CacheVal> {
        self.entries.view_map()
    }

    pub fn new(capacity: usize) -> (r: ReadCache)
        ensures
            r.wf(),
            r.view_map() == Map::<Seq<u8>, CacheVal>::empty(),
            r.capacity == capacity,
    {
        ReadCache { entries: KvList::new(), capacity }
    }

    /// A hit returns exactly what was recorded.
    pub fn get(&self, name: &Vec<u8>) -> (r: Option<&CacheVal>)
        requires
            self.wf(),
        ensures
            match r {
                Some(v) => self.view_map().contains_key(name@) && *v == self.view_map()[name@],
                None => !self.view_map().contains_key(name@),
            },
    {
        self.entries.get(name)
    }

    /// Record a read result, clearing the whole cache first when full.
    pub fn put(&mut self, name: Vec<u8>, value: CacheVal)
        requires
            old(self).wf(),
        ensures
            final(self).wf(),
            final(self).capacity == old(self).capacity,
            final(self).view_map() == (if old(self).entries.items@.len()
                >= old(self).capacity {
                Map::<Seq<u8>, CacheVal>::empty()
            } else {
                old(self).view_map()
            }).insert(name@, value),
    {
        if self.entries.len() >= self.capacity {
            self.entries.clear();
        }
        self.entries.set(name, value);
    }

    /// Drop a name from the cache; a delete must never leave a stale
    /// value behind.
    pub fn invalidate(&mut self, name: &Vec<u8>)
        requires
            old(self).wf(),
        ensures
            final(self).wf(),
            final(self).capacity == old(self).capacity,
            final(self).view_map() == old(self).view_map().remove(name@),
            !final(self).view_map().contains_key(name@),
    {
        self.entries.unset(name);
    }
}

/// Cache consistency: after a name is invalidated, a lookup of it can
/// only miss, so a retrieve right after a delete cannot serve the
/// deleted value from the cache.
pub proof fn lemma_cache_invalidate(m: Map<Seq<u8>, CacheVal>, name: Seq<u8>)
    ensures
        !m.remove(name).contains_key(name),
{
}

/// What to do with one polled in-flight store.
#[derive(Clone, Copy, Debug, PartialEq, Eq, Structural)]
pub enum PutDecision {
    Keep,
    Retire,
    Restart,
}

/// The write queue's decision state: in-flight store ids, the bound on
/// concurrency, and the ids whose completion callback has been fired.
/// The process work itself — spawning a helper, feeding it the
/// ciphertext, polling its exit status — happens outside; this machine
/// decides, and guarantees the callback fires at most once per store.
pub struct StoreQueue {
    pub pending: Vec<u64>,
    pub next_id: u64,
    pub max_concurrent: usize,
    pub retired: Ghost<Set<u64>>,
}

impl StoreQueue {
    pub open spec fn wf(&self) -> bool {
        &&& forall|i: int, j: int|
            0 <= i < j < self.pending@.len() ==> self.pending@[i] != self.pending@[j]
        &&& forall|i: int| 0 <= i < self.pending@.len() ==> self.pending@[i] < self.next_id
        &&& forall|x: u64| self.retired@.contains(x) ==> x < self.next_id
        &&& forall|i: int|
            0 <= i < self.pending@.len() ==> !self.retired@.contains(#[trigger] self.pending@[i])
    }

    pub fn new(max_concurrent: usize) -> (r: StoreQueue)
        ensures
            r.wf(),
            r.pending@.len() == 0,
            r.next_id == 0,
            r.max_concurrent == max_concurrent,
            r.retired@ == Set::<u64>::empty(),
    {
        StoreQueue {
            pending: Vec::new(),
            next_id: 0,
            max_concurrent,
            retired: Ghost(Set::empty()),
        }
    }

    /// Whether a new store may be admitted without exceeding the bound.
    pub fn has_capacity(&self) -> (r: bool)
        ensures
            r == (self.pending@.len() < self.max_concurrent),
    {
        self.pending.len() < self.max_concurrent
    }

    /// Whether another store id can still be issued.
    pub fn ids_remaining(&self) -> (r: bool)
        ensures
            r == (self.next_id < u64::MAX),
    {
        self.next_id < u64::MAX
    }

    /// Accept a new store, handing back its id.
    pub fn accept_put(&mut self) -> (id: u64)
        requires
            old(self).wf(),
            old(self).pending@.len() < old(self).max_concurrent,
            old(self).next_id < u64::MAX,
        ensures
            final(self).wf(),
            final(self).pending@ == old(self).pending@.push(id),
            final(self).retired@ == old(self).retired@,
            final(self).max_concurrent == old(self).max_concurrent,
            id == old(self).next_id,
            final(self).next_id == old(self).next_id + 1,
            !old(self).retired@.contains(id),
            forall|i: int| 0 <= i < old(self).pending@.len() ==> old(self).pending@[i] != id,
    {
        let id = self.next_id;
        self.next_id = self.next_id + 1;
        self.pending.push(id);
        id
    }

    /// Decide one polled store's fate: still running, keep it; exited
    /// successfully, retire it — the one moment its callback fires;
    /// failed, keep it for a restart from the retained context.
    pub fn on_poll(&mut self, idx: usize, status: Option<bool>) -> (r: PutDecision)
        requires
            old(self).wf(),
            idx < old(self).pending@.len(),
        ensures
            final(self).wf(),
            final(self).max_concurrent == old(self).max_concurrent,
            r == (match status {
                None => PutDecision::Keep,
                Some(true) => PutDecision::Retire,
                Some(false) => PutDecision::Restart,
            }),
            r == PutDecision::Retire ==> {
                // the callback fires now, for an id never retired before,
                // and the id can never be retired again
                &&& !old(self).retired@.contains(old(self).pending@[idx as int])
                &&& final(self).retired@ == old(self).retired@.insert(
                    old(self).pending@[idx as int],
                )
                &&& final(self).pending@ == old(self).pending@.remove(idx as int)
            },
            r != PutDecision::Retire ==> {
                &&& final(self).pending@ == old(self).pending@
                &&& final(self).retired@ == old(self).retired@
            },
    {
        match status {
            None => PutDecision::Keep,
            Some(true) => {
                let id = self.pending.remove(idx);
                proof {
                    self.retired@ = self.retired@.insert(id);
                    assert forall|i: int, j: int|
                        0 <= i < j < self.pending@.len() implies self.pending@[i]
                        != self.pending@[j] by {
                        if j < idx {
                        } else if i < idx {
                            assert(self.pending@[j] == old(self).pending@[j + 1]);
                        } else {
                            assert(self.pending@[i] == old(self).pending@[i + 1]);
                            assert(self.pending@[j] == old(self).pending@[j + 1]);
                        }
                    }
                    assert forall|i: int| 0 <= i < self.pending@.len() implies !self.retired@
                        .contains(#[trigger] self.pending@[i]) by {
                        if i < idx {
                            assert(self.pending@[i] == old(self).pending@[i]);
                            assert(old(self).pending@[i] != id);
                        } else {
                            assert(self.pending@[i] == old(self).pending@[i + 1]);
                            assert(old(self).pending@[i + 1] != id);
                        }
                    }
                }
                PutDecision::Retire
            },
            Some(false) => PutDecision::Restart,
        }
    }
}


/// The hex name argument handed to a helper command for a blob.
pub fn helper_hex_arg(name: &Vec<u8>) -> (r: String)
    ensures
        r@ == hex_chars_of(name@),
{
    hex_encode(name)
}

/// Decode one name as the list helper prints it.
pub fn parse_hex_name(line: &Vec<u8>) -> (r: Option<Vec<u8>>)
    ensures
        r.deep_view() == hex_parse(line@),
{
    hex_decode(line)
}

} // verus!
