//! A ring of past worlds, keyed by frame number.
//!
//! The ring has a fixed number of slots. The world of frame `f` goes to slot
//! `f % depth` and replaces what was there, so the ring always holds the
//! last `depth` frames that were saved in sequence.
use vstd::arithmetic::div_mod::{lemma_fundamental_div_mod, lemma_mod_sub_multiples_vanish};
use vstd::prelude::*;
use crate::desync::{checksum, checksum_spec};
use crate::world::{World, WorldState};

verus! {

/// A stored copy of the world at one frame, with its checksum.
#[derive(Debug, PartialEq, Eq)]
pub struct Snapshot {
    pub frame: u32,
    pub world: WorldState,
    pub checksum: u64,
}

impl Snapshot {
    /// The snapshot holds a well-formed world of its frame, and that world's
    /// checksum.
    pub open spec fn wf(&self) -> bool {
        &&& self.world.frame == self.frame
        &&& self.world.wf()
        &&& self.checksum == checksum_spec(self.world@)
    }
}

/// The ring of snapshots.
pub struct SnapshotStore {
    slots: Vec<Option<Snapshot>>,
}

/// The frames and worlds of a ring of `depth` slots that held `stored`,
/// after the world `world` of frame `frame` was saved: the new frame, and
/// every frame that was there and lives in another slot.
pub open spec fn saved(stored: Map<int, World>, depth: int, frame: int, world: World) -> Map<
    int,
    World,
> {
    Map::new(
        |g: int| g == frame || (stored.contains_key(g) && g % depth != frame % depth),
        |g: int|
            if g == frame {
                world
            } else {
                stored[g]
            },
    )
}

impl SnapshotStore {
    /// The number of slots.
    pub closed spec fn depth(&self) -> int {
        self.slots.len() as int
    }

    /// The slot of a frame holds that frame.
    pub closed spec fn holds(&self, frame: int) -> bool {
        &&& 0 <= frame <= u32::MAX
        &&& self.slots.len() > 0
        &&& self.slots[frame % (self.slots.len() as int)] is Some
        &&& self.slots[frame % (self.slots.len() as int)]->0.frame == frame
    }

    /// The worlds that the ring holds, by frame.
    pub closed spec fn view(&self) -> Map<int, World> {
        Map::new(
            |g: int| self.holds(g),
            |g: int| self.slots[g % (self.slots.len() as int)]->0.world@,
        )
    }

    /// The ring has a slot, and every snapshot is well formed and in the
    /// slot of its frame.
    pub closed spec fn wf(&self) -> bool {
        &&& self.slots.len() > 0
        &&& forall|i: int|
            0 <= i < self.slots.len() && (#[trigger] self.slots[i]) is Some ==> {
                &&& self.slots[i]->0.wf()
                &&& (self.slots[i]->0.frame as int) % (self.slots.len() as int) == i
            }
    }

    /// Every stored frame is a frame number, and its world is well formed
    /// and at that frame.
    pub proof fn lemma_stored_worlds(&self)
        requires
            self.wf(),
        ensures
            self.depth() > 0,
            forall|g: int| #[trigger]
                self@.contains_key(g) ==> 0 <= g <= u32::MAX && self@[g].frame == g
                    && crate::unit::units_wf(self@[g].units),
    {
        assert forall|g: int| #[trigger] self@.contains_key(g) implies 0 <= g <= u32::MAX
            && self@[g].frame == g && crate::unit::units_wf(self@[g].units) by {
            let i = g % (self.slots.len() as int);
            assert(self.slots[i] is Some);
            assert(self.slots[i]->0.wf());
        }
    }

    /// An empty ring of `depth` slots; `None` for a depth of zero.
    pub fn new(depth: usize) -> (r: Option<SnapshotStore>)
        ensures
            r is Some <==> depth > 0,
            r is Some ==> (r->0).wf() && (r->0).depth() == depth && (r->0)@ == Map::<
                int,
                World,
            >::empty(),
    {
        if depth == 0 {
            return None;
        }
        let mut slots: Vec<Option<Snapshot>> = Vec::new();
        let mut i: usize = 0;
        while i < depth
            invariant
                i <= depth,
                slots.len() == i,
                forall|k: int| 0 <= k < i ==> slots@[k] is None,
            decreases depth - i,
        {
            slots.push(None);
            i = i + 1;
        }
        let store = SnapshotStore { slots };
        assert(store@ =~= Map::<int, World>::empty());
        Some(store)
    }

    /// The number of slots.
    pub fn capacity(&self) -> (n: usize)
        ensures
            n == self.depth(),
    {
        self.slots.len()
    }

    /// Stores a copy of `world` under its frame. The snapshot that was in the
    /// slot of that frame is gone; the others stay.
    pub fn save(&mut self, world: &WorldState)
        requires
            old(self).wf(),
            world.wf(),
        ensures
            final(self).wf(),
            final(self).depth() == old(self).depth(),
            final(self)@ == saved(old(self)@, old(self).depth(), world.frame as int, world@),
    {
        let depth: usize = self.slots.len();
        let slot: usize = (world.frame as usize) % depth;
        let copy: WorldState = world.duplicate();
        let sum: u64 = checksum(world);
        self.slots.set(slot, Some(Snapshot { frame: world.frame, world: copy, checksum: sum }));
        proof {
            let d = depth as int;
            let f = world.frame as int;
            let target = saved(old(self)@, d, f, world@);
            assert forall|g: int| self@.contains_key(g) <==> target.contains_key(g) by {
                if g % d != f % d {
                    assert(self.slots[g % d] == old(self).slots[g % d]);
                }
            }
            assert forall|g: int| self@.contains_key(g) implies self@[g] == target[g] by {
                if g % d != f % d {
                    assert(self.slots[g % d] == old(self).slots[g % d]);
                }
            }
            assert(self@ =~= target);
        }
    }

    /// The snapshot of `frame`, if the ring holds it.
    pub fn get(&self, frame: u32) -> (r: Option<&Snapshot>)
        requires
            self.wf(),
        ensures
            r is Some <==> self@.contains_key(frame as int),
            r is Some ==> (r->0).frame == frame && (r->0).wf() && (r->0).world@ == self@[frame as int],
    {
        let depth: usize = self.slots.len();
        let slot: usize = (frame as usize) % depth;
        match &self.slots[slot] {
            Some(s) => {
                if s.frame == frame {
                    Some(s)
                } else {
                    None
                }
            },
            None => None,
        }
    }

    /// The stored snapshot of the latest frame that is not after `frame`;
    /// `None` when every stored frame is after it.
    pub fn nearest_at_or_before(&self, frame: u32) -> (r: Option<&Snapshot>)
        requires
            self.wf(),
        ensures
            r is None <==> (forall|g: int| self@.contains_key(g) ==> g > frame),
            r is Some ==> {
                &&& (r->0).frame <= frame
                &&& self@.contains_key((r->0).frame as int)
                &&& (r->0).world@ == self@[(r->0).frame as int]
                &&& (r->0).wf()
                &&& forall|g: int| self@.contains_key(g) && g <= frame ==> g <= (r->0).frame
            },
    {
        let depth: usize = self.slots.len();
        let mut best: Option<&Snapshot> = None;
        let mut i: usize = 0;
        while i < depth
            invariant
                i <= depth,
                depth == self.slots.len(),
                self.wf(),
                best is None ==> forall|k: int|
                    0 <= k < i && (#[trigger] self.slots[k]) is Some ==> self.slots[k]->0.frame
                        > frame,
                best is Some ==> {
                    &&& (best->0).frame <= frame
                    &&& self@.contains_key((best->0).frame as int)
                    &&& (best->0).world@ == self@[(best->0).frame as int]
                    &&& (best->0).wf()
                    &&& forall|k: int|
                        0 <= k < i && (#[trigger] self.slots[k]) is Some && self.slots[k]->0.frame
                            <= frame ==> self.slots[k]->0.frame <= (best->0).frame
                },
            decreases depth - i,
        {
            match &self.slots[i] {
                Some(s) => {
                    if s.frame <= frame {
                        let better: bool = match best {
                            Some(b) => b.frame < s.frame,
                            None => true,
                        };
                        if better {
                            assert(self.holds(s.frame as int));
                            best = Some(s);
                        }
                    }
                },
                None => {},
            }
            i = i + 1;
        }
        proof {
            assert forall|g: int| self@.contains_key(g) && g <= frame implies best is Some && g <= (
            best->0).frame by {
                let k = g % (depth as int);
                assert(self.slots[k] is Some);
            }
        }
        best
    }
}

/// The first frame that a ring of `depth` slots holds after every frame
/// before `head` was saved in order.
pub open spec fn oldest_stored(head: int, depth: int) -> int {
    if head > depth {
        head - depth
    } else {
        0
    }
}

/// `stored` holds exactly the last `depth` frames before `head`.
pub open spec fn holds_window(stored: Map<int, World>, head: int, depth: int) -> bool {
    forall|g: int| stored.contains_key(g) <==> oldest_stored(head, depth) <= g < head
}

/// Two different frames less than `depth` apart live in different slots.
pub proof fn lemma_slots_differ(a: int, b: int, depth: int)
    requires
        depth > 0,
        a != b,
        -depth < a - b < depth,
    ensures
        a % depth != b % depth,
{
    lemma_fundamental_div_mod(a, depth);
    lemma_fundamental_div_mod(b, depth);
    if a % depth == b % depth {
        let qa = a / depth;
        let qb = b / depth;
        let r = a % depth;
        assert(a - b == depth * (qa - qb)) by (nonlinear_arith)
            requires
                a == depth * qa + r,
                b == depth * qb + r,
        ;
        assert(qa == qb) by (nonlinear_arith)
            requires
                -depth < depth * (qa - qb) < depth,
                depth > 0,
        ;
    }
}

/// Saving the head frame moves the window of stored frames on by one.
pub proof fn lemma_saved_head(stored: Map<int, World>, depth: int, head: int, world: World)
    requires
        depth > 0,
        head >= 0,
        holds_window(stored, head, depth),
    ensures
        holds_window(saved(stored, depth, head, world), head + 1, depth),
{
    let after = saved(stored, depth, head, world);
    assert forall|g: int| after.contains_key(g) <==> oldest_stored(head + 1, depth) <= g < head
        + 1 by {
        if g != head && oldest_stored(head, depth) <= g < head {
            if g == head - depth {
                lemma_mod_sub_multiples_vanish(head, depth);
                assert(-depth + head == g);
            } else {
                lemma_slots_differ(g, head, depth);
            }
        }
    }
}

/// Saving a frame of the window again leaves the window as it is.
pub proof fn lemma_saved_again(
    stored: Map<int, World>,
    depth: int,
    head: int,
    frame: int,
    world: World,
)
    requires
        depth > 0,
        oldest_stored(head, depth) <= frame < head,
        holds_window(stored, head, depth),
    ensures
        holds_window(saved(stored, depth, frame, world), head, depth),
{
    let after = saved(stored, depth, frame, world);
    assert forall|g: int| after.contains_key(g) <==> oldest_stored(head, depth) <= g < head by {
        if g != frame && oldest_stored(head, depth) <= g < head {
            lemma_slots_differ(g, frame, depth);
        }
    }
}

/// Restoring undoes stepping: a world that was saved is found under its
/// frame as it was saved, whatever became of the world it was copied from,
/// until a world of the same slot is saved.
pub proof fn lemma_saved_is_kept(
    stored: Map<int, World>,
    depth: int,
    frame: int,
    world: World,
    later: int,
    other: World,
)
    requires
        depth > 0,
        later % depth != frame % depth,
    ensures
        saved(stored, depth, frame, world).contains_key(frame),
        saved(stored, depth, frame, world)[frame] == world,
        saved(saved(stored, depth, frame, world), depth, later, other).contains_key(frame),
        saved(saved(stored, depth, frame, world), depth, later, other)[frame] == world,
{
}

} // verus!
