//! The streaming file reader: random-access, forward-only reads over a
//! lazy sequence of chunks, with a single-chunk pushahead buffer.

use vstd::prelude::*;
use vstd::seq_lib::lemma_concat_associative;

use crate::codec::copy_range;
use crate::tree::{concat_chunks, LeafIterator};

verus! {

/// A finite sequence of byte chunks handed out one at a time: a hash
/// tree's leaf walk, or a plain vector of chunks.
pub trait ChunkSource: Sized {
    spec fn remaining(&self) -> Seq<Seq<u8>>;

    spec fn src_wf(&self) -> bool;

    fn next_chunk(&mut self) -> (r: Option<Vec<u8>>)
        requires
            old(self).src_wf(),
        ensures
            final(self).src_wf(),
            match r {
                Some(c) => {
                    &&& old(self).remaining().len() > 0
                    &&& c@ == old(self).remaining()[0]
                    &&& final(self).remaining() == old(self).remaining().drop_first()
                },
                None => {
                    &&& old(self).remaining().len() == 0
                    &&& final(self).remaining() == old(self).remaining()
                },
            },
    ;
}

impl ChunkSource for LeafIterator {
    open spec fn remaining(&self) -> Seq<Seq<u8>> {
        LeafIterator::remaining(self)
    }

    open spec fn src_wf(&self) -> bool {
        self.wf()
    }

    fn next_chunk(&mut self) -> (r: Option<Vec<u8>>) {
        LeafIterator::next_chunk(self)
    }
}

/// A chunk source over an in-memory list of chunks.
pub struct VecSource {
    pub items: Vec<Vec<u8>>,
    pub idx: usize,
}

impl VecSource {
    pub fn new(items: Vec<Vec<u8>>) -> (r: VecSource)
        ensures
            r.src_wf(),
            r.remaining() == items.deep_view(),
    {
        let r = VecSource { items, idx: 0 };
        proof {
            assert(r.remaining() =~= r.items.deep_view());
        }
        r
    }
}

impl ChunkSource for VecSource {
    open spec fn remaining(&self) -> Seq<Seq<u8>> {
        self.items.deep_view().skip(self.idx as int)
    }

    open spec fn src_wf(&self) -> bool {
        self.idx <= self.items@.len()
    }

    fn next_chunk(&mut self) -> (r: Option<Vec<u8>>) {
        if self.idx < self.items.len() {
            let c = copy_range(&self.items[self.idx], 0, self.items[self.idx].len());
            proof {
                assert(c@ =~= self.items.deep_view()[self.idx as int]);
                assert(old(self).remaining()[0] == self.items.deep_view()[self.idx as int]);
            }
            self.idx = self.idx + 1;
            proof {
                assert(final(self).remaining() =~= old(self).remaining().drop_first());
            }
            Some(c)
        } else {
            None
        }
    }
}

/// A reader serving positional reads out of a chunk stream. Reads are
/// forward-only: each read must start at or after the start of the
/// current buffer (`pos`); seeking backward is not supported.
pub struct FileReader<S: ChunkSource> {
    pub rest: Option<S>,
    pub offset: u64,
    pub buf: Vec<u8>,
    pub eof: bool,
    pub all: Ghost<Seq<u8>>,
}

impl<S: ChunkSource> FileReader<S> {
    /// The whole byte sequence this reader serves.
    pub open spec fn total(&self) -> Seq<u8> {
        self.all@
    }

    /// The byte position of the start of the current buffer.
    pub open spec fn pos(&self) -> int {
        self.offset as int
    }

    pub open spec fn rest_chunks(&self) -> Seq<Seq<u8>> {
        match self.rest {
            Some(s) => s.remaining(),
            None => Seq::empty(),
        }
    }

    pub open spec fn wf(&self) -> bool {
        &&& (match self.rest {
            Some(s) => s.src_wf(),
            None => true,
        })
        &&& (self.rest is None ==> self.eof)
        &&& (self.eof ==> self.buf@.len() == 0 && self.rest_chunks().len() == 0)
        &&& self.all@.len() <= u64::MAX
        &&& self.offset + self.buf@.len() <= self.all@.len()
        &&& self.all@.skip(self.offset as int) == self.buf@ + concat_chunks(self.rest_chunks())
    }

    /// Wrap a chunk stream; `None` stands for an absent stream and reads
    /// as empty.
    pub fn new_from_iter(rest: Option<S>) -> (r: FileReader<S>)
        requires
            rest matches Some(s) ==> s.src_wf() && concat_chunks(s.remaining()).len()
                <= u64::MAX,
        ensures
            r.wf(),
            r.pos() == 0,
            r.total() == (match rest {
                Some(s) => concat_chunks(s.remaining()),
                None => Seq::<u8>::empty(),
            }),
    {
        let eof = rest.is_none();
        let ghost all = if rest is Some {
            concat_chunks(rest->Some_0.remaining())
        } else {
            Seq::<u8>::empty()
        };
        let r = FileReader { eof, rest, offset: 0, buf: Vec::new(), all: Ghost(all) };
        proof {
            assert(r.all@.skip(0) =~= r.all@);
            assert(Seq::<u8>::empty() + concat_chunks(r.rest_chunks()) =~= concat_chunks(
                r.rest_chunks(),
            ));
            if r.rest is None {
                assert(concat_chunks(r.rest_chunks()) =~= Seq::<u8>::empty());
            }
        }
        r
    }

    /// Drop the current buffer and pull the next chunk in, marking EOF
    /// when the stream ends.
    fn next(&mut self)
        requires
            old(self).wf(),
        ensures
            final(self).wf(),
            final(self).all == old(self).all,
            final(self).pos() == old(self).pos() + old(self).buf@.len(),
            final(self).buf@ == (if old(self).rest_chunks().len() > 0 {
                old(self).rest_chunks()[0]
            } else {
                Seq::<u8>::empty()
            }),
            final(self).rest_chunks() == (if old(self).rest_chunks().len() > 0 {
                old(self).rest_chunks().drop_first()
            } else {
                old(self).rest_chunks()
            }),
            final(self).eof == (old(self).rest_chunks().len() == 0),
            final(self).rest is Some <==> old(self).rest is Some,
    {
        proof {
            // the bytes after the buffer are the remaining chunks
            assert(old(self).all@.skip(old(self).pos() + old(self).buf@.len() as int)
                =~= concat_chunks(old(self).rest_chunks())) by {
                assert(old(self).all@.skip(old(self).pos()).skip(old(self).buf@.len() as int)
                    =~= old(self).all@.skip(old(self).pos() + old(self).buf@.len() as int));
                assert((old(self).buf@ + concat_chunks(old(self).rest_chunks())).skip(
                    old(self).buf@.len() as int,
                ) =~= concat_chunks(old(self).rest_chunks()));
            }
        }
        match &mut self.rest {
            Some(src) => {
                let new_offset = self.offset + self.buf.len() as u64;
                self.offset = new_offset;
                match src.next_chunk() {
                    Some(chunk) => {
                        self.buf = chunk;
                        proof {
                            let rc = final(self).rest_chunks();
                            assert(concat_chunks(old(self).rest_chunks()) =~= old(
                                self,
                            ).rest_chunks()[0] + concat_chunks(rc)) by {
                                lemma_concat_first(old(self).rest_chunks());
                            }
                        }
                    },
                    None => {
                        self.buf = Vec::new();
                        self.eof = true;
                        proof {
                            assert(concat_chunks(old(self).rest_chunks()) =~= Seq::<u8>::empty());
                            assert(final(self).all@.skip(final(self).pos()) =~= Seq::<u8>::empty()
                                + Seq::<u8>::empty());
                        }
                    },
                }
            },
            None => {
                self.eof = true;
                self.buf = Vec::new();
                proof {
                    assert(old(self).buf@.len() == 0);
                    assert(final(self).all@.skip(final(self).pos()) =~= Seq::<u8>::empty()
                        + Seq::<u8>::empty());
                }
            },
        }
    }

    /// Pull chunks until the buffer's range contains `offset`, or the
    /// stream ends.
    fn advance(&mut self, offset: u64)
        requires
            old(self).wf(),
            old(self).pos() <= offset as int,
        ensures
            final(self).wf(),
            final(self).all == old(self).all,
            final(self).eof <==> offset as int >= final(self).all@.len(),
            !final(self).eof ==> final(self).pos() <= offset as int && (offset as int)
                < final(self).pos() + final(self).buf@.len(),
            final(self).pos() <= offset as int || final(self).eof,
    {
        while (self.offset + self.buf.len() as u64 <= offset || self.buf.len() == 0) && !self.eof
            invariant
                self.wf(),
                self.all == old(self).all,
                self.pos() <= offset as int,
            decreases self.rest_chunks().len() + (if self.eof {
                0int
            } else {
                1int
            }),
        {
            self.next();
        }
        proof {
            if self.eof {
                assert(self.all@.skip(self.pos()) =~= Seq::<u8>::empty() + Seq::<u8>::empty());
                assert(self.pos() == self.all@.len());
                assert((offset as int) >= self.all@.len());
            } else {
                assert(self.pos() + self.buf@.len() > offset as int);
                assert(self.buf@.len() > 0);
                assert((offset as int) < self.all@.len());
            }
        }
    }

    /// Serve `size` bytes starting at `offset`, or fewer when the stream
    /// ends first. Returns `None` exactly when `offset` is at or past the
    /// end. `offset` must not precede the current buffer: reads are
    /// forward-only.
    pub fn read(&mut self, offset: u64, size: usize) -> (r: Option<Vec<u8>>)
        requires
            old(self).wf(),
            old(self).pos() <= offset as int,
        ensures
            final(self).wf(),
            final(self).all == old(self).all,
            r is Some <==> (offset as int) < old(self).total().len(),
            r matches Some(v) ==> {
                &&& v@ == old(self).total().subrange(
                    offset as int,
                    if offset + size <= old(self).total().len() {
                        offset + size
                    } else {
                        old(self).total().len() as int
                    },
                )
                &&& final(self).pos() <= offset + v@.len()
            },
        decreases size,
    {
        self.advance(offset);

        if self.eof {
            return None;
        }

        let start = (offset - self.offset) as usize;
        let avail = self.buf.len() - start;
        proof {
            assert(self.buf@ =~= self.all@.subrange(self.pos(), self.pos() + self.buf@.len()))
                by {
                assert(self.all@.skip(self.pos()).take(self.buf@.len() as int) =~= self.buf@);
                assert(self.all@.skip(self.pos()).take(self.buf@.len() as int) =~= self.all@
                    .subrange(self.pos(), self.pos() + self.buf@.len()));
            }
        }

        if size <= avail {
            let out = copy_range(&self.buf, start, size);
            proof {
                assert(out@ =~= old(self).total().subrange(
                    offset as int,
                    offset as int + size as int,
                ));
            }
            Some(out)
        } else {
            let mut out = copy_range(&self.buf, start, avail);
            proof {
                assert(out@ =~= old(self).total().subrange(
                    offset as int,
                    offset as int + avail as int,
                ));
            }
            let tail_offset = offset + avail as u64;
            match self.read(tail_offset, size - avail) {
                Some(rest) => {
                    out.extend_from_slice(rest.as_slice());
                    proof {
                        assert(out@ =~= old(self).total().subrange(
                            offset as int,
                            if offset + size <= old(self).total().len() {
                                offset + size
                            } else {
                                old(self).total().len() as int
                            },
                        ));
                    }
                    Some(out)
                },
                None => {
                    proof {
                        assert(tail_offset as int >= old(self).total().len());
                        assert(out@ =~= old(self).total().subrange(
                            offset as int,
                            old(self).total().len() as int,
                        ));
                    }
                    Some(out)
                },
            }
        }
    }
}

/// The concatenation of a non-empty chunk sequence starts with its first
/// chunk.
proof fn lemma_concat_first(cs: Seq<Seq<u8>>)
    requires
        cs.len() > 0,
    ensures
        concat_chunks(cs) == cs[0] + concat_chunks(cs.drop_first()),
    decreases cs.len(),
{
    if cs.len() == 1 {
        assert(cs.drop_last() =~= Seq::<Seq<u8>>::empty());
        assert(cs.drop_first() =~= Seq::<Seq<u8>>::empty());
        assert(concat_chunks(cs) == concat_chunks(Seq::<Seq<u8>>::empty()) + cs.last());
        assert(Seq::<u8>::empty() + cs[0] =~= cs[0] + Seq::<u8>::empty());
    } else {
        lemma_concat_first(cs.drop_last());
        assert(cs.drop_last()[0] == cs[0]);
        assert(cs.drop_first().drop_last() =~= cs.drop_last().drop_first());
        assert(cs.drop_first().last() == cs.last());
        lemma_concat_associative(cs[0], concat_chunks(cs.drop_last().drop_first()), cs.last());
        assert(concat_chunks(cs) == (cs[0] + concat_chunks(cs.drop_last().drop_first()))
            + cs.last());
        assert(concat_chunks(cs.drop_first()) == concat_chunks(cs.drop_first().drop_last())
            + cs.drop_first().last());
    }
}


} // verus!
