use vstd::prelude::*;

verus! {

/// One conic segment of a body's path: the body orbits `parent` from
/// `start_time` until `end_time`. `data` holds the segment's conic and
/// points.
#[derive(Clone, Copy, Debug)]
pub struct Orbit<T, D> {
    pub parent: usize,
    pub start_time: T,
    pub end_time: T,
    pub data: D,
}

impl<T: Copy, D: Copy> Orbit<T, D> {
    /// A segment that starts, and so far ends, at `time`.
    pub fn new(parent: usize, time: T, data: D) -> (r: Self)
        ensures
            r == (Orbit { parent, start_time: time, end_time: time, data }),
    {
        Orbit { parent, start_time: time, end_time: time, data }
    }

    pub fn get_parent(&self) -> (r: usize)
        ensures
            r == self.parent,
    {
        self.parent
    }

    pub fn get_start_time(&self) -> (r: T)
        ensures
            r == self.start_time,
    {
        self.start_time
    }

    pub fn get_end_time(&self) -> (r: T)
        ensures
            r == self.end_time,
    {
        self.end_time
    }

    pub fn get_data(&self) -> (r: D)
        ensures
            r == self.data,
    {
        self.data
    }
}

/// Whether a body stays put or follows a chain of segments. The chain runs
/// from the head (front, the latest segment, still being planned) to the
/// tail (back, the segment being played).
#[derive(Debug)]
pub enum PhysicsType<T, D> {
    Stationary,
    Orbit(std::collections::VecDeque<Orbit<T, D>>),
}

/// A body of the hierarchy. `body` holds its own data (mass, and where it
/// stays if stationary).
#[derive(Debug)]
pub struct Object<B, T, D> {
    pub name: String,
    pub body: B,
    pub physics_type: PhysicsType<T, D>,
}

/// Each segment of the chain ends when the next later one starts.
pub open spec fn contiguous<T, D>(chain: Seq<Orbit<T, D>>) -> bool {
    forall|i: int| 0 <= i < chain.len() - 1 ==> (#[trigger] chain[i + 1]).end_time == chain[i].start_time
}

/// A usable chain: at least one segment, and no gap in time.
pub open spec fn chain_wf<T, D>(chain: Seq<Orbit<T, D>>) -> bool {
    chain.len() > 0 && contiguous(chain)
}

/// The chain after the body moves under `new_parent` at `time`: the head is
/// capped at `time` (its points recomputed into `capped`), and a new head
/// starts there.
pub open spec fn change_parent_chain<T, D>(
    chain: Seq<Orbit<T, D>>,
    new_parent: usize,
    time: T,
    capped: D,
    data: D,
) -> Seq<Orbit<T, D>> {
    seq![Orbit { parent: new_parent, start_time: time, end_time: time, data }] + chain.update(
        0,
        Orbit { end_time: time, data: capped, ..chain[0] },
    )
}

/// One change of parent: the new parent, the time, and the capped and new
/// segment data.
pub type ParentChange<T, D> = (usize, T, D, D);

/// The chain after each change in turn, first to last.
pub open spec fn apply_changes<T, D>(
    chain: Seq<Orbit<T, D>>,
    changes: Seq<ParentChange<T, D>>,
) -> Seq<Orbit<T, D>>
    decreases changes.len(),
{
    if changes.len() == 0 {
        chain
    } else {
        let c = changes.last();
        change_parent_chain(apply_changes(chain, changes.drop_last()), c.0, c.1, c.2, c.3)
    }
}

/// One change of parent keeps a chain usable.
pub proof fn lemma_change_parent_wf<T, D>(
    chain: Seq<Orbit<T, D>>,
    new_parent: usize,
    time: T,
    capped: D,
    data: D,
)
    requires
        chain_wf(chain),
    ensures
        chain_wf(change_parent_chain(chain, new_parent, time, capped, data)),
{
    let r = change_parent_chain(chain, new_parent, time, capped, data);
    assert forall|i: int| 0 <= i < r.len() - 1 implies (#[trigger] r[i + 1]).end_time
        == r[i].start_time by {
        let u = chain.update(0, Orbit { end_time: time, data: capped, ..chain[0] });
        assert(r[i + 1] == u[i]);
        if i > 0 {
            assert(r[i] == u[i - 1]);
            assert(chain[(i - 1) + 1].end_time == chain[i - 1].start_time);
            assert(r[i + 1].end_time == chain[i].end_time);
            assert(r[i].start_time == chain[i - 1].start_time);
        } else {
            assert(r[1].end_time == time);
        }
    }
}

/// After any sequence of changes of parent, the chain has no gap in time:
/// each segment ends when the next later one starts. The tail is still the
/// earliest segment, starting when it did, and the segment that the k-th
/// change made starts at that change's time, the later changes nearer the
/// head.
pub proof fn lemma_changes_keep_chain_contiguous<T, D>(
    chain: Seq<Orbit<T, D>>,
    changes: Seq<ParentChange<T, D>>,
)
    requires
        chain_wf(chain),
    ensures
        ({
            let r = apply_changes(chain, changes);
            &&& chain_wf(r)
            &&& r.len() == chain.len() + changes.len()
            &&& r.last().start_time == chain.last().start_time
            &&& r.last().parent == chain.last().parent
            &&& forall|k: int|
                0 <= k < changes.len() ==> #[trigger] r[changes.len() - 1 - k].start_time
                    == changes[k].1
        }),
    decreases changes.len(),
{
    if changes.len() > 0 {
        let prev = changes.drop_last();
        lemma_changes_keep_chain_contiguous(chain, prev);
        let p = apply_changes(chain, prev);
        let c = changes.last();
        lemma_change_parent_wf(p, c.0, c.1, c.2, c.3);
        let r = apply_changes(chain, changes);
        assert(r == change_parent_chain(p, c.0, c.1, c.2, c.3));
        assert forall|k: int| 0 <= k < changes.len() implies #[trigger] r[changes.len() - 1 - k].start_time
            == changes[k].1 by {
            if k < changes.len() - 1 {
                assert(prev[k] == changes[k]);
                assert(r[changes.len() - 1 - k] == p.update(0, Orbit { end_time: c.1, data: c.2, ..p[0] })[prev.len() - 1 - k]);
                assert(p[prev.len() - 1 - k].start_time == prev[k].1);
            }
        }
        assert(r.last().start_time == p.last().start_time);
    }
}

/// Under the order `before` on times, every segment starts no later than
/// the segments nearer the head.
pub open spec fn starts_ordered<T, D>(chain: Seq<Orbit<T, D>>, before: spec_fn(T, T) -> bool) -> bool {
    forall|i: int, j: int|
        0 <= i <= j < chain.len() ==> #[trigger] before(chain[j].start_time, chain[i].start_time)
}

pub open spec fn is_preorder<T>(before: spec_fn(T, T) -> bool) -> bool {
    &&& forall|a: T| #[trigger] before(a, a)
    &&& forall|a: T, b: T, c: T| #[trigger] before(a, b) && #[trigger] before(b, c) ==> before(a, c)
}

/// Changes of parent made in time order keep the tail the earliest
/// segment: with change times that never go back, and a first change no
/// earlier than the head's start, every segment of the chain starts no
/// later than those nearer the head.
pub proof fn lemma_changes_keep_tail_earliest<T, D>(
    chain: Seq<Orbit<T, D>>,
    changes: Seq<ParentChange<T, D>>,
    before: spec_fn(T, T) -> bool,
)
    requires
        chain_wf(chain),
        is_preorder(before),
        starts_ordered(chain, before),
        forall|a: int, b: int| 0 <= a < b < changes.len() ==> #[trigger] before(changes[a].1, changes[b].1),
        changes.len() > 0 ==> before(chain[0].start_time, changes[0].1),
    ensures
        starts_ordered(apply_changes(chain, changes), before),
        forall|k: int|
            0 <= k < apply_changes(chain, changes).len() ==> before(
                apply_changes(chain, changes).last().start_time,
                #[trigger] apply_changes(chain, changes)[k].start_time,
            ),
    decreases changes.len(),
{
    lemma_changes_keep_chain_contiguous(chain, changes);
    if changes.len() > 0 {
        let prev = changes.drop_last();
        assert forall|a: int, b: int| 0 <= a < b < prev.len() implies #[trigger] before(prev[a].1, prev[b].1) by {
            assert(prev[a] == changes[a] && prev[b] == changes[b]);
        }
        lemma_changes_keep_tail_earliest(chain, prev, before);
        lemma_changes_keep_chain_contiguous(chain, prev);
        let p = apply_changes(chain, prev);
        let c = changes.last();
        let t = c.1;
        let r = apply_changes(chain, changes);
        assert(r == change_parent_chain(p, c.0, c.1, c.2, c.3));
        // The head of `p` starts no later than `t`.
        assert(before(p[0].start_time, t)) by {
            if prev.len() > 0 {
                assert(p[0].start_time == prev[prev.len() - 1].1);
                assert(prev[prev.len() - 1] == changes[changes.len() - 2]);
                assert(before(changes[changes.len() - 2].1, changes[changes.len() - 1].1));
            } else {
                assert(p == chain);
            }
        }
        assert forall|i: int, j: int| 0 <= i <= j < r.len() implies #[trigger] before(r[j].start_time, r[i].start_time) by {
            assert(r[0].start_time == t);
            if j > 0 {
                assert(r[j].start_time == p[j - 1].start_time);
                if i > 0 {
                    assert(r[i].start_time == p[i - 1].start_time);
                    assert(before(p[j - 1].start_time, p[i - 1].start_time));
                } else {
                    assert(before(p[j - 1].start_time, p[0].start_time));
                }
            }
        }
    }
    let r = apply_changes(chain, changes);
    assert forall|k: int| 0 <= k < r.len() implies before(r.last().start_time, #[trigger] r[k].start_time) by {
        assert(before(r[r.len() - 1].start_time, r[k].start_time));
    }
}

impl<B, T, D> Object<B, T, D> {
    /// The segment chain, head first, of an orbiting body.
    pub open spec fn chain(&self) -> Seq<Orbit<T, D>> {
        match &self.physics_type {
            PhysicsType::Orbit(orbits) => orbits@,
            PhysicsType::Stationary => Seq::empty(),
        }
    }

    pub open spec fn is_orbit(&self) -> bool {
        self.physics_type is Orbit
    }

    /// A stationary body, or an orbiting one with a usable chain.
    pub open spec fn wf(&self) -> bool {
        self.is_orbit() ==> chain_wf(self.chain())
    }
}

impl<B, T: Copy, D: Copy> Object<B, T, D> {
    pub fn new_stationary(name: String, body: B) -> (r: Self)
        ensures
            r.name@ == name@,
            r.body == body,
            !r.is_orbit(),
            r.wf(),
    {
        Object { name, body, physics_type: PhysicsType::Stationary }
    }

    /// An orbiting body whose first segment, around `parent`, runs from
    /// `start_time` to `end_time`.
    pub fn new_orbit(name: String, body: B, parent: usize, start_time: T, end_time: T, data: D) -> (r: Self)
        ensures
            r.name@ == name@,
            r.body == body,
            r.is_orbit(),
            r.chain() == seq![Orbit { parent, start_time, end_time, data }],
            r.wf(),
    {
        let mut orbits = std::collections::VecDeque::new();
        orbits.push_back(Orbit { parent, start_time, end_time, data });
        Object { name, body, physics_type: PhysicsType::Orbit(orbits) }
    }

    pub fn get_name(&self) -> (r: String)
        ensures
            r@ == self.name@,
    {
        self.name.clone()
    }

    pub fn get_body(&self) -> (r: &B)
        ensures
            *r == self.body,
    {
        &self.body
    }

    pub fn is_orbiting(&self) -> (r: bool)
        ensures
            r == self.is_orbit(),
    {
        match &self.physics_type {
            PhysicsType::Orbit(_) => true,
            PhysicsType::Stationary => false,
        }
    }

    /// The parent of the segment being played (the tail).
    pub fn get_current_parent(&self) -> (r: Option<usize>)
        requires
            self.wf(),
        ensures
            r == if self.is_orbit() {
                Some(self.chain().last().parent)
            } else {
                None::<usize>
            },
    {
        match &self.physics_type {
            PhysicsType::Stationary => None,
            PhysicsType::Orbit(orbits) => Some(orbits[orbits.len() - 1].parent),
        }
    }

    /// The parent of the latest planned segment (the head).
    pub fn get_final_parent(&self) -> (r: Option<usize>)
        requires
            self.wf(),
        ensures
            r == if self.is_orbit() {
                Some(self.chain()[0].parent)
            } else {
                None::<usize>
            },
    {
        match &self.physics_type {
            PhysicsType::Stationary => None,
            PhysicsType::Orbit(orbits) => Some(orbits[0].parent),
        }
    }

    /// The segment being played (the tail).
    pub fn get_current_orbit(&self) -> (r: Option<Orbit<T, D>>)
        requires
            self.wf(),
        ensures
            r == if self.is_orbit() {
                Some(self.chain().last())
            } else {
                None::<Orbit<T, D>>
            },
    {
        match &self.physics_type {
            PhysicsType::Stationary => None,
            PhysicsType::Orbit(orbits) => Some(orbits[orbits.len() - 1]),
        }
    }

    /// The latest planned segment (the head).
    pub fn get_final_orbit(&self) -> (r: Option<Orbit<T, D>>)
        requires
            self.wf(),
        ensures
            r == if self.is_orbit() {
                Some(self.chain()[0])
            } else {
                None::<Orbit<T, D>>
            },
    {
        match &self.physics_type {
            PhysicsType::Stationary => None,
            PhysicsType::Orbit(orbits) => Some(orbits[0]),
        }
    }

    /// The whole chain, head first, of an orbiting body.
    pub fn get_orbits(&self) -> (r: Option<&std::collections::VecDeque<Orbit<T, D>>>)
        ensures
            match r {
                Some(orbits) => self.is_orbit() && orbits@ == self.chain(),
                None => !self.is_orbit(),
            },
    {
        match &self.physics_type {
            PhysicsType::Orbit(orbits) => Some(orbits),
            PhysicsType::Stationary => None,
        }
    }

    /// Moves the body under `new_parent` at `time`: the head segment now ends
    /// at `time`, with its end recomputed into `capped`, and a new head
    /// starts there around `new_parent`.
    pub fn change_parent(&mut self, new_parent: usize, time: T, capped: D, data: D)
        requires
            old(self).wf(),
            old(self).is_orbit(),
        ensures
            final(self).wf(),
            final(self).is_orbit(),
            final(self).name == old(self).name,
            final(self).body == old(self).body,
            final(self).chain() == change_parent_chain(old(self).chain(), new_parent, time, capped, data),
    {
        proof {
            lemma_change_parent_wf(self.chain(), new_parent, time, capped, data);
        }
        match &mut self.physics_type {
            PhysicsType::Orbit(orbits) => {
                let head = orbits.pop_front().unwrap();
                orbits.push_front(Orbit { end_time: time, data: capped, ..head });
                orbits.push_front(Orbit { parent: new_parent, start_time: time, end_time: time, data });
            },
            PhysicsType::Stationary => {},
        }
    }

    /// Caps the head segment at `time`, with its end recomputed into `data`.
    pub fn end_final_at(&mut self, time: T, data: D)
        requires
            old(self).wf(),
        ensures
            final(self).wf(),
            final(self).name == old(self).name,
            final(self).body == old(self).body,
            final(self).is_orbit() == old(self).is_orbit(),
            final(self).chain() == if old(self).is_orbit() {
                old(self).chain().update(0, Orbit { end_time: time, data, ..old(self).chain()[0] })
            } else {
                old(self).chain()
            },
    {
        match &mut self.physics_type {
            PhysicsType::Orbit(orbits) => {
                let head = orbits.pop_front().unwrap();
                orbits.push_front(Orbit { end_time: time, data, ..head });
                proof {
                    let c = orbits@;
                    assert forall|i: int| 0 <= i < c.len() - 1 implies (#[trigger] c[i + 1]).end_time
                        == c[i].start_time by {
                        assert(c[i + 1].end_time == old(self).chain()[i + 1].end_time);
                    }
                }
            },
            PhysicsType::Stationary => {},
        }
    }

    /// Replaces the data of the head segment (as it advances), keeping its
    /// parent and time window.
    pub fn update_final(&mut self, data: D)
        requires
            old(self).wf(),
        ensures
            final(self).wf(),
            final(self).name == old(self).name,
            final(self).body == old(self).body,
            final(self).is_orbit() == old(self).is_orbit(),
            final(self).chain() == if old(self).is_orbit() {
                old(self).chain().update(0, Orbit { data, ..old(self).chain()[0] })
            } else {
                old(self).chain()
            },
    {
        match &mut self.physics_type {
            PhysicsType::Orbit(orbits) => {
                let head = orbits.pop_front().unwrap();
                orbits.push_front(Orbit { data, ..head });
                proof {
                    let c = orbits@;
                    assert forall|i: int| 0 <= i < c.len() - 1 implies (#[trigger] c[i + 1]).end_time
                        == c[i].start_time by {
                        assert(c[i + 1].end_time == old(self).chain()[i + 1].end_time);
                        assert(c[i].start_time == old(self).chain()[i].start_time);
                    }
                }
            },
            PhysicsType::Stationary => {},
        }
    }

    /// Replaces the data of the tail segment (as it is played), keeping its
    /// parent and time window.
    pub fn update_current(&mut self, data: D)
        requires
            old(self).wf(),
        ensures
            final(self).wf(),
            final(self).name == old(self).name,
            final(self).body == old(self).body,
            final(self).is_orbit() == old(self).is_orbit(),
            final(self).chain() == if old(self).is_orbit() {
                old(self).chain().update(
                    old(self).chain().len() - 1,
                    Orbit { data, ..old(self).chain().last() },
                )
            } else {
                old(self).chain()
            },
    {
        match &mut self.physics_type {
            PhysicsType::Orbit(orbits) => {
                let tail = orbits.pop_back().unwrap();
                orbits.push_back(Orbit { data, ..tail });
                proof {
                    let c = orbits@;
                    let o = old(self).chain();
                    assert forall|i: int| 0 <= i < c.len() - 1 implies (#[trigger] c[i + 1]).end_time
                        == c[i].start_time by {
                        assert(c[i + 1].end_time == o[i + 1].end_time);
                        assert(c[i].start_time == o[i].start_time);
                    }
                }
            },
            PhysicsType::Stationary => {},
        }
    }

    /// Removes the tail segment once it has been played, unless it is the
    /// only one; returns the removed segment.
    pub fn retire_current(&mut self) -> (r: Option<Orbit<T, D>>)
        requires
            old(self).wf(),
        ensures
            final(self).wf(),
            final(self).name == old(self).name,
            final(self).body == old(self).body,
            final(self).is_orbit() == old(self).is_orbit(),
            (old(self).is_orbit() && old(self).chain().len() > 1) ==> r == Some(
                old(self).chain().last(),
            ) && final(self).chain() == old(self).chain().drop_last(),
            !(old(self).is_orbit() && old(self).chain().len() > 1) ==> r is None && final(self).chain()
                == old(self).chain(),
    {
        match &mut self.physics_type {
            PhysicsType::Orbit(orbits) => {
                if orbits.len() > 1 {
                    let r = orbits.pop_back();
                    proof {
                        let c = orbits@;
                        let o = old(self).chain();
                        assert(c == o.drop_last());
                        assert forall|i: int| 0 <= i < c.len() - 1 implies (#[trigger] c[i + 1]).end_time
                            == c[i].start_time by {
                            assert(c[i + 1] == o[i + 1]);
                        }
                    }
                    r
                } else {
                    None
                }
            },
            PhysicsType::Stationary => None,
        }
    }
}

} // verus!
