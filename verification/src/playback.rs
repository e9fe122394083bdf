//! The playback-order iterator: a stateful sequence generator over a
//! playlist's items. Each pull hands back the position of the entry to play.
//! A lap is materialized lazily on the first pull (in original order, or as
//! one random permutation for the shuffle modes); non-looping modes
//! terminate when the lap is exhausted, looping modes start a new lap,
//! reshuffling when the mode asks for it.

use vstd::prelude::*;
use vstd::seq_lib::group_to_multiset_ensures;

use crate::playlist::{PlaybackMode, Playlist};
use rand::seq::SliceRandom;

verus! {

/// One full lap over `n` items as queued positions: the entry to play next
/// stands last, so the lap pops in original order.
pub open spec fn lap_positions(n: int) -> Seq<usize> {
    Seq::new(n as nat, |i: int| (n - 1 - i) as usize)
}

/// Whether `queue` is a freshly materialized lap over `n` items: exactly the
/// original order for the continuous modes, some permutation of one visit to
/// every position for the shuffle modes.
pub open spec fn lap_queue_ok(n: int, shuffled: bool, queue: Seq<usize>) -> bool {
    if shuffled {
        queue.to_multiset() == lap_positions(n).to_multiset()
    } else {
        queue == lap_positions(n)
    }
}

/// What one pull of the playback iterator does. The playlist's persistent
/// part never changes. An empty item list terminates immediately. At the
/// start of a lap (the first pull ever, or a looping playlist that just
/// exhausted a lap) a fresh lap is materialized and its first entry handed
/// out. In mid-lap the front of the pending lap is handed out. A non-looping
/// playlist whose lap is exhausted produces nothing, forever.
pub open spec fn next_spec(pre: Playlist, post: Playlist, r: Option<usize>) -> bool {
    let n = pre.items@.len() as int;
    &&& post.name == pre.name
    &&& post.items == pre.items
    &&& post.playback_mode == pre.playback_mode
    &&& post.id == pre.id
    &&& if n == 0 {
        r is None && post == pre
    } else if pre.at_lap_start() || (pre.queue().len() == 0 && pre.looping()) {
        &&& !post.at_lap_start()
        &&& exists|q: Seq<usize>|
            {
                &&& #[trigger] lap_queue_ok(n, pre.shuffled(), q)
                &&& q.len() == n
                &&& post.queue() == q.drop_last()
                &&& r == Some(q.last())
            }
    } else if pre.queue().len() > 0 {
        &&& r == Some(pre.queue().last())
        &&& post.queue() == pre.queue().drop_last()
        &&& post.at_lap_start() == pre.at_lap_start()
    } else {
        r is None && post == pre
    }
}

/// Every position of a lap-shaped queue points inside the items.
proof fn lemma_lap_queue_bounds(n: int, shuffled: bool, queue: Seq<usize>)
    requires
        0 <= n <= usize::MAX,
        lap_queue_ok(n, shuffled, queue),
    ensures
        forall|k: int| 0 <= k < queue.len() ==> (queue[k] as int) < n,
        queue.len() == n,
{
    broadcast use group_to_multiset_ensures;

    if shuffled {
        assert(queue.to_multiset().len() == lap_positions(n).to_multiset().len());
        assert forall|k: int| 0 <= k < queue.len() implies (queue[k] as int) < n by {
            assert(queue.contains(queue[k]));
            assert(queue.to_multiset().count(queue[k]) > 0);
            assert(lap_positions(n).to_multiset().count(queue[k]) > 0);
            assert(lap_positions(n).contains(queue[k]));
            let i = choose|i: int| 0 <= i < lap_positions(n).len() && lap_positions(n)[i] == queue[k];
        }
    }
}

/// Relies on rand's `SliceRandom::shuffle`, driven by the thread-local
/// generator from `rand::rng`: an in-place Fisher-Yates pass that permutes
/// the slice, so the positions it holds are preserved as a multiset.
#[verifier::external_body]
fn shuffle_positions(v: &mut Vec<usize>)
    ensures
        final(v)@.to_multiset() == old(v)@.to_multiset(),
        final(v)@.len() == old(v)@.len(),
{
    v.shuffle(&mut rand::rng());
}

impl Playlist {
    /// Materializes a fresh lap: the items' positions in reversed order, so
    /// they pop in original order, permuted randomly in the shuffle modes.
    fn refill(&mut self)
        ensures
            final(self).name == old(self).name,
            final(self).items == old(self).items,
            final(self).playback_mode == old(self).playback_mode,
            final(self).id == old(self).id,
            final(self).at_lap_start() == old(self).at_lap_start(),
            lap_queue_ok(
                old(self).items@.len() as int,
                old(self).shuffled(),
                final(self).queue(),
            ),
            final(self).queue().len() == old(self).items@.len(),
            final(self).wf(),
    {
        let n = self.items.len();
        let mut q: Vec<usize> = Vec::new();
        let mut i: usize = n;
        while i > 0
            invariant
                i <= n,
                q@.len() == n - i,
                forall|k: int| 0 <= k < q@.len() ==> q@[k] == (n - 1 - k) as usize,
            decreases i,
        {
            q.push(i - 1);
            i = i - 1;
        }
        proof {
            assert(q@ =~= lap_positions(n as int));
        }
        let shuffle = match self.playback_mode {
            PlaybackMode::Shuffle | PlaybackMode::LoopShuffle => true,
            PlaybackMode::Continuous | PlaybackMode::LoopContinuous => false,
        };
        if shuffle {
            shuffle_positions(&mut q);
        }
        proof {
            lemma_lap_queue_bounds(n as int, self.shuffled(), q@);
        }
        self.play_queue = q;
    }

    /// One pull of the playback-order iterator: the position (into `items`)
    /// of the next entry to play, or nothing once a non-looping playlist is
    /// exhausted or the playlist is empty.
    pub fn next(&mut self) -> (r: Option<usize>)
        requires
            old(self).wf(),
        ensures
            final(self).wf(),
            next_spec(*old(self), *final(self), r),
            r matches Some(p) ==> (p as int) < final(self).items@.len(),
    {
        if self.items.len() == 0 {
            return None;
        }
        let ghost pre = *self;
        if self.first {
            self.first = false;
            self.refill();
            let ghost q0 = self.queue();
            let p = self.play_queue.pop().unwrap();
            proof {
                lemma_lap_queue_bounds(pre.items@.len() as int, pre.shuffled(), q0);
                assert(lap_queue_ok(pre.items@.len() as int, pre.shuffled(), q0) && q0.len()
                    == pre.items@.len() && self.queue() == q0.drop_last() && Some(p) == Some(
                    q0.last(),
                ));
            }
            return Some(p);
        }
        if self.play_queue.len() == 0 {
            let looping = match self.playback_mode {
                PlaybackMode::LoopContinuous | PlaybackMode::LoopShuffle => true,
                PlaybackMode::Continuous | PlaybackMode::Shuffle => false,
            };
            if looping {
                self.refill();
                let ghost q0 = self.queue();
                let p = self.play_queue.pop().unwrap();
                proof {
                    lemma_lap_queue_bounds(pre.items@.len() as int, pre.shuffled(), q0);
                    assert(lap_queue_ok(pre.items@.len() as int, pre.shuffled(), q0) && q0.len()
                        == pre.items@.len() && self.queue() == q0.drop_last() && Some(p) == Some(
                        q0.last(),
                    ));
                }
                Some(p)
            } else {
                None
            }
        } else {
            let p = self.play_queue.pop().unwrap();
            proof {
                assert(self.queue() =~= pre.queue().drop_last());
            }
            Some(p)
        }
    }
}

} // verus!
