//! Output streaming: the byte-cursor logic behind serving a job's output.
//!
//! A job's output file is append-only: the running child only ever adds
//! bytes at the end. A reader therefore sees, at any two points in time, a
//! pair of snapshots where the earlier is a prefix of the later. A tail
//! session keeps a cursor into the file and, on every poll, forwards
//! exactly the bytes between the cursor and the current end of file, so
//! that no byte is ever re-delivered and none is skipped.

use vstd::prelude::*;

verus! {

/// `a` is an initial segment of `b`.
pub open spec fn seq_is_prefix_of(a: Seq<u8>, b: Seq<u8>) -> bool {
    a.len() <= b.len() && a == b.subrange(0, a.len() as int)
}

/// A chain of snapshots of one file in which each snapshot extends the
/// previous one at the end, i.e. the file is only ever appended to.
pub open spec fn append_only_chain(snaps: Seq<Seq<u8>>) -> bool {
    forall|i: int| 0 <= i < snaps.len() - 1 ==> seq_is_prefix_of(#[trigger] snaps[i], snaps[i + 1])
}

/// An append-only file yields a prefix relation between *any* two reads,
/// not only adjacent ones: whatever was read earlier is an initial
/// segment of whatever is read later.
pub proof fn lemma_append_only_prefix(snaps: Seq<Seq<u8>>, i: int, j: int)
    requires
        append_only_chain(snaps),
        0 <= i <= j < snaps.len(),
    ensures
        seq_is_prefix_of(snaps[i], snaps[j]),
    decreases j - i,
{
    if i == j {
        assert(snaps[i] == snaps[j].subrange(0, snaps[i].len() as int));
    } else {
        lemma_append_only_prefix(snaps, i, j - 1);
        assert(seq_is_prefix_of(snaps[j - 1], snaps[j]));
        assert(snaps[i] =~= snaps[j].subrange(0, snaps[i].len() as int));
    }
}

/// One client's view of a growing output file: how many bytes have been
/// forwarded so far, together with (ghost) the exact bytes forwarded.
///
/// The cursor always equals the number of delivered bytes, and the
/// delivered bytes are always the prefix of the file that has been seen.
pub struct TailSession {
    /// Bytes forwarded so far, counted from the start of the file.
    pub cursor: usize,
    /// The exact bytes forwarded so far, in order.
    pub delivered: Ghost<Seq<u8>>,
}

impl TailSession {
    pub open spec fn wf(self) -> bool {
        self.delivered@.len() == self.cursor
    }

    /// A fresh session: nothing delivered yet.
    pub fn new() -> (s: TailSession)
        ensures
            s.wf(),
            s.cursor == 0,
            s.delivered@ == Seq::<u8>::empty(),
    {
        TailSession { cursor: 0, delivered: Ghost(Seq::empty()) }
    }

    /// Given the current contents of the output file, return the bytes
    /// that are new since the last poll and advance the cursor past them.
    ///
    /// If the file shrank below the cursor (impossible for an append-only
    /// file) nothing is forwarded and the session is unchanged, matching
    /// a read that starts past end of file.
    pub fn next_chunk(&mut self, contents: &Vec<u8>) -> (chunk: Vec<u8>)
        requires
            old(self).wf(),
        ensures
            final(self).wf(),
            old(self).cursor <= contents@.len() ==> {
                &&& chunk@ == contents@.subrange(old(self).cursor as int, contents@.len() as int)
                &&& final(self).cursor == contents@.len()
                &&& final(self).delivered@ == old(self).delivered@ + chunk@
                &&& seq_is_prefix_of(old(self).delivered@, contents@)
                    ==> final(self).delivered@ == contents@
            },
            old(self).cursor > contents@.len() ==> {
                &&& chunk@ == Seq::<u8>::empty()
                &&& *final(self) == *old(self)
            },
    {
        if self.cursor > contents.len() {
            return Vec::new();
        }
        let mut chunk: Vec<u8> = Vec::new();
        let mut i: usize = self.cursor;
        while i < contents.len()
            invariant
                self.cursor <= i <= contents@.len(),
                chunk@ == contents@.subrange(self.cursor as int, i as int),
            decreases contents@.len() - i,
        {
            chunk.push(contents[i]);
            i = i + 1;
        }
        proof {
            if seq_is_prefix_of(self.delivered@, contents@) {
                assert(self.delivered@ + chunk@ =~= contents@);
            }
        }
        let ghost new_delivered = self.delivered@ + chunk@;
        self.cursor = contents.len();
        self.delivered = Ghost(new_delivered);
        chunk
    }
}

/// The cursor value after polling an entire chain of snapshots, one
/// `next_chunk` per snapshot, starting from cursor 0.
pub open spec fn chain_cursor(snaps: Seq<Seq<u8>>) -> int {
    if snaps.len() == 0 {
        0
    } else {
        snaps.last().len() as int
    }
}

/// The chunks a tail session forwards over a chain of snapshots: the
/// first snapshot whole, then, for each later snapshot, the bytes past
/// the previous snapshot's end.
pub open spec fn chain_chunks(snaps: Seq<Seq<u8>>) -> Seq<Seq<u8>>
    decreases snaps.len(),
{
    if snaps.len() == 0 {
        Seq::empty()
    } else if snaps.len() == 1 {
        seq![snaps[0]]
    } else {
        chain_chunks(snaps.drop_last()).push(
            snaps.last().subrange(chain_cursor(snaps.drop_last()), snaps.last().len() as int),
        )
    }
}

/// Concatenation of a sequence of byte chunks, in order.
pub open spec fn concat_chunks(chunks: Seq<Seq<u8>>) -> Seq<u8>
    decreases chunks.len(),
{
    if chunks.len() == 0 {
        Seq::empty()
    } else {
        concat_chunks(chunks.drop_last()) + chunks.last()
    }
}

/// Tail completeness: over any append-only chain of snapshots, the chunks
/// a tail session forwards concatenate to exactly the final snapshot —
/// every byte of the job's output is delivered exactly once, in order.
pub proof fn lemma_tail_completeness(snaps: Seq<Seq<u8>>)
    requires
        append_only_chain(snaps),
        snaps.len() > 0,
    ensures
        concat_chunks(chain_chunks(snaps)) == snaps.last(),
    decreases snaps.len(),
{
    if snaps.len() == 1 {
        let cc = chain_chunks(snaps);
        assert(cc == seq![snaps[0]]);
        assert(cc.drop_last() =~= Seq::<Seq<u8>>::empty());
        assert(concat_chunks(cc) == concat_chunks(cc.drop_last()) + cc.last());
        assert(concat_chunks(cc) =~= snaps[0]);
    } else {
        let rest = snaps.drop_last();
        assert(append_only_chain(rest)) by {
            assert(forall|i: int|
                0 <= i < rest.len() - 1 ==> seq_is_prefix_of(#[trigger] rest[i], rest[i + 1]));
        }
        lemma_tail_completeness(rest);
        let prev = rest.last();
        let delta = snaps.last().subrange(prev.len() as int, snaps.last().len() as int);
        let cc = chain_chunks(snaps);
        assert(cc == chain_chunks(rest).push(delta));
        assert(cc.drop_last() =~= chain_chunks(rest));
        assert(cc.last() == delta);
        assert(concat_chunks(cc) == concat_chunks(chain_chunks(rest)) + delta);
        assert(prev == snaps[snaps.len() - 2]);
        assert(seq_is_prefix_of(prev, snaps.last()));
        assert(concat_chunks(cc) =~= snaps.last());
    }
}

} // verus!
