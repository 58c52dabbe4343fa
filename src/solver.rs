use vstd::prelude::*;
use crate::encounter::Encounter;
use crate::hierarchy::{acyclic, find_object, first_index_of, lemma_reparent_keeps_acyclic, parents_in_range};
use crate::object::{Object, Orbit, change_parent_chain};

verus! {

/// Every body is usable and every segment's parent is a body of the
/// hierarchy.
pub open spec fn hierarchy_wf<B, T, D>(objects: Seq<Object<B, T, D>>) -> bool {
    forall|i: int|
        0 <= i < objects.len() ==> {
            &&& (#[trigger] objects[i]).wf()
            &&& forall|k: int|
                0 <= k < objects[i].chain().len() ==> (#[trigger] objects[i].chain()[k]).parent
                    < objects.len()
        }
}

/// The parent of the latest planned segment of body `i`.
pub open spec fn final_parent_of<B, T, D>(objects: Seq<Object<B, T, D>>, i: int) -> Option<usize> {
    if objects[i].is_orbit() {
        Some(objects[i].chain()[0].parent)
    } else {
        None
    }
}

/// Each body's final parent, as a parent graph.
pub open spec fn final_parents<B, T, D>(objects: Seq<Object<B, T, D>>) -> Seq<Option<usize>> {
    Seq::new(objects.len(), |i: int| final_parent_of(objects, i))
}

/// The body's names, in order.
pub open spec fn names_of<B, T, D>(objects: Seq<Object<B, T, D>>) -> Seq<String> {
    objects.map_values(|o: Object<B, T, D>| o.name)
}

/// The body that `i` would move under on leaving its parent's sphere of
/// influence: its parent's parent. `None` when `i` is stationary or its
/// parent is stationary, since a stationary parent has no sphere to leave.
pub fn exit_target<B, T: Copy, D: Copy>(objects: &Vec<Object<B, T, D>>, i: usize) -> (r: Option<usize>)
    requires
        hierarchy_wf(objects@),
        i < objects.len(),
    ensures
        r == match final_parent_of(objects@, i as int) {
            Some(p) => final_parent_of(objects@, p as int),
            None => None,
        },
        r matches Some(g) ==> g < objects.len(),
{
    match objects[i].get_final_parent() {
        None => None,
        Some(p) => {
            assert(objects@[i as int].chain()[0].parent < objects.len());
            let g = objects[p].get_final_parent();
            proof {
                if g is Some {
                    assert(objects@[p as int].chain()[0].parent < objects.len());
                }
            }
            g
        },
    }
}

/// Whether `j` is a body whose sphere of influence `i` may enter: another
/// orbiting body, heavy enough to hold a sphere (`can_host`), with the same
/// final parent as `i`.
pub open spec fn is_entrance_candidate<B, T, D>(
    objects: Seq<Object<B, T, D>>,
    can_host: Seq<bool>,
    i: int,
    j: int,
) -> bool {
    &&& can_host[j]
    &&& objects[j].is_orbit()
    &&& j != i
    &&& final_parent_of(objects, j) == final_parent_of(objects, i)
}

/// The candidates for `i` among the bodies below `k`, in increasing order.
pub open spec fn candidates_below<B, T, D>(
    objects: Seq<Object<B, T, D>>,
    can_host: Seq<bool>,
    i: int,
    k: int,
) -> Seq<usize>
    decreases k,
{
    if k <= 0 {
        Seq::empty()
    } else {
        let rest = candidates_below(objects, can_host, i, k - 1);
        if is_entrance_candidate(objects, can_host, i, k - 1) {
            rest.push((k - 1) as usize)
        } else {
            rest
        }
    }
}

/// The bodies whose sphere of influence `i` may enter this step, in index
/// order. `can_host[j]` tells whether body `j` is massive enough to hold a
/// sphere of influence.
pub fn entrance_candidates<B, T: Copy, D: Copy>(
    objects: &Vec<Object<B, T, D>>,
    can_host: &Vec<bool>,
    i: usize,
) -> (r: Vec<usize>)
    requires
        hierarchy_wf(objects@),
        can_host.len() == objects.len(),
        i < objects.len(),
    ensures
        r@ == candidates_below(objects@, can_host@, i as int, objects.len() as int),
{
    let mut r: Vec<usize> = Vec::new();
    let parent = objects[i].get_final_parent();
    let mut j: usize = 0;
    while j < objects.len()
        invariant
            hierarchy_wf(objects@),
            can_host.len() == objects.len(),
            i < objects.len(),
            j <= objects.len(),
            parent == final_parent_of(objects@, i as int),
            r@ == candidates_below(objects@, can_host@, i as int, j as int),
        decreases objects.len() - j,
    {
        if can_host[j] && objects[j].is_orbiting() && j != i && objects[j].get_final_parent() == parent {
            r.push(j);
        }
        j = j + 1;
    }
    r
}

/// The encounter found last, if any were found.
pub open spec fn last_found<E>(found: Seq<Option<E>>) -> Option<E>
    decreases found.len(),
{
    if found.len() == 0 {
        None
    } else {
        match found.last() {
            Some(e) => Some(e),
            None => last_found(found.drop_last()),
        }
    }
}

/// Of the encounters the tests found in one step, in the order the tests
/// ran, the one that is applied: the last found.
pub fn last_encounter<T>(found: Vec<Option<Encounter<T>>>) -> (r: Option<Encounter<T>>)
    ensures
        r == last_found(found@),
{
    let ghost all = found@;
    let mut rest = found;
    while rest.len() > 0
        invariant
            all == found@,
            last_found(all) == last_found(rest@),
        decreases rest.len(),
    {
        let ghost before = rest@;
        let e = rest.pop().unwrap();
        assert(rest@ == before.drop_last());
        if e.is_some() {
            assert(before.last() == e);
            return e;
        }
    }
    None
}

/// Why a scheduled encounter cannot be applied to the hierarchy.
#[derive(Clone, Copy, Debug, PartialEq, Eq, Structural)]
pub enum PlaybackError {
    /// No body has the encounter's object name.
    UnknownObject,
    /// No body has the encounter's new parent name.
    UnknownParent,
    /// The object is stationary, so it has no parent to change.
    NotOrbiting,
}

/// The names of the bodies, in order.
pub fn object_names<B, T: Copy, D: Copy>(objects: &Vec<Object<B, T, D>>) -> (r: Vec<String>)
    ensures
        r@ == names_of(objects@),
{
    let mut r: Vec<String> = Vec::new();
    let mut i: usize = 0;
    while i < objects.len()
        invariant
            i <= objects.len(),
            r@ == names_of(objects@).take(i as int),
        decreases objects.len() - i,
    {
        r.push(objects[i].name.clone());
        assert(names_of(objects@).take(i + 1) == names_of(objects@).take(i as int).push(objects@[i as int].name));
        i = i + 1;
    }
    assert(names_of(objects@).take(objects.len() as int) == names_of(objects@));
    r
}

/// The indices of an encounter's object and new parent, looked up by name.
pub fn resolve_encounter<B, T: Copy, D: Copy>(
    objects: &Vec<Object<B, T, D>>,
    encounter: &Encounter<T>,
) -> (r: Result<(usize, usize), PlaybackError>)
    ensures
        ({
            let names = names_of(objects@);
            let object = first_index_of(names, encounter.object@);
            let parent = first_index_of(names, encounter.new_parent@);
            match r {
                Ok((o, p)) => object == Some(o) && parent == Some(p) && objects@[o as int].is_orbit(),
                Err(PlaybackError::UnknownObject) => object is None,
                Err(PlaybackError::UnknownParent) => object is Some && parent is None,
                Err(PlaybackError::NotOrbiting) => object matches Some(o) && parent is Some
                    && !objects@[o as int].is_orbit(),
            }
        }),
{
    let names = object_names(objects);
    proof {
        assert(names@.len() == names.len());
        lemma_first_index_in_range(names@, encounter.object@);
        lemma_first_index_in_range(names@, encounter.new_parent@);
    }
    let object = find_object(&names, &encounter.object);
    let parent = find_object(&names, &encounter.new_parent);
    match object {
        None => Err(PlaybackError::UnknownObject),
        Some(o) => match parent {
            None => Err(PlaybackError::UnknownParent),
            Some(p) => {
                if objects[o].is_orbiting() {
                    Ok((o, p))
                } else {
                    Err(PlaybackError::NotOrbiting)
                }
            },
        },
    }
}

proof fn lemma_first_index_in_range(names: Seq<String>, name: Seq<char>)
    requires
        names.len() <= usize::MAX,
    ensures
        first_index_of(names, name) matches Some(i) ==> i < names.len() && names[i as int]@ == name,
{
    if exists|i: int| 0 <= i < names.len() && names[i]@ == name {
        let w = choose|i: int| 0 <= i < names.len() && names[i]@ == name;
        lemma_least_witness(names, name, w);
        let i = choose|i: int|
            0 <= i < names.len() && names[i]@ == name && forall|j: int|
                0 <= j < i ==> names[j]@ != name;
        assert(i as usize as int == i);
    }
}

proof fn lemma_least_witness(names: Seq<String>, name: Seq<char>, w: int)
    requires
        0 <= w < names.len(),
        names[w]@ == name,
    ensures
        exists|i: int|
            0 <= i < names.len() && names[i]@ == name && forall|j: int|
                0 <= j < i ==> names[j]@ != name,
    decreases w,
{
    if exists|j: int| 0 <= j < w && names[j]@ == name {
        let j = choose|j: int| 0 <= j < w && names[j]@ == name;
        lemma_least_witness(names, name, j);
    }
}

/// Applies an encounter to the hierarchy: body `object` moves under
/// `new_parent` at `time`, its head segment capped there with its end
/// recomputed into `capped`, and a new head around `new_parent` holding
/// `data`. Every other body is unchanged.
pub fn apply_change_parent<B, T: Copy, D: Copy>(
    objects: &mut Vec<Object<B, T, D>>,
    object: usize,
    new_parent: usize,
    time: T,
    capped: D,
    data: D,
)
    requires
        hierarchy_wf(old(objects)@),
        object < old(objects).len(),
        new_parent < old(objects).len(),
        old(objects)@[object as int].is_orbit(),
    ensures
        hierarchy_wf(final(objects)@),
        final(objects).len() == old(objects).len(),
        forall|j: int| 0 <= j < old(objects).len() && j != object ==> final(objects)@[j] == old(objects)@[j],
        final(objects)@[object as int].name == old(objects)@[object as int].name,
        final(objects)@[object as int].body == old(objects)@[object as int].body,
        final(objects)@[object as int].is_orbit(),
        final(objects)@[object as int].chain() == change_parent_chain(
            old(objects)@[object as int].chain(),
            new_parent,
            time,
            capped,
            data,
        ),
        final_parents(final(objects)@) == final_parents(old(objects)@).update(
            object as int,
            Some(new_parent),
        ),
{
    assert((old(objects)@[object as int]).wf());
    objects[object].change_parent(new_parent, time, capped, data);
    proof {
        let o = old(objects)@;
        let n = objects@;
        assert forall|i: int| 0 <= i < n.len() implies {
            &&& (#[trigger] n[i]).wf()
            &&& forall|k: int|
                0 <= k < n[i].chain().len() ==> (#[trigger] n[i].chain()[k]).parent < n.len()
        } by {
            if i == object as int {
                assert(o[i].wf());
                assert forall|k: int| 0 <= k < n[i].chain().len() implies (#[trigger] n[i].chain()[k]).parent
                    < n.len() by {
                    if k >= 2 {
                        assert(n[i].chain()[k] == o[i].chain()[k - 1]);
                    } else if k == 1 {
                        assert(n[i].chain()[1].parent == o[i].chain()[0].parent);
                    }
                }
            } else {
                assert(n[i] == o[i]);
            }
        }
        assert(final_parents(n) =~= final_parents(o).update(object as int, Some(new_parent)));
    }
}

proof fn lemma_candidate_member<B, T, D>(
    objects: Seq<Object<B, T, D>>,
    can_host: Seq<bool>,
    i: int,
    k: int,
    q: usize,
)
    requires
        candidates_below(objects, can_host, i, k).contains(q),
        k <= usize::MAX,
    ensures
        0 <= q < k,
        is_entrance_candidate(objects, can_host, i, q as int),
    decreases k,
{
    if k > 0 {
        let rest = candidates_below(objects, can_host, i, k - 1);
        if is_entrance_candidate(objects, can_host, i, k - 1) && q == (k - 1) as usize {
        } else {
            if is_entrance_candidate(objects, can_host, i, k - 1) {
                let full = rest.push((k - 1) as usize);
                let m = choose|m: int| 0 <= m < full.len() && #[trigger] full[m] == q;
                assert(m < rest.len());
                assert(rest[m] == q);
            }
            lemma_candidate_member(objects, can_host, i, k - 1, q);
        }
    }
}

/// Every encounter the solver can find keeps the final parents free of
/// cycles: moving a body into the sphere of one of its entrance candidates,
/// or out to its exit target.
pub proof fn lemma_encounter_keeps_acyclic<B, T, D>(
    objects: Seq<Object<B, T, D>>,
    can_host: Seq<bool>,
    o: usize,
    q: usize,
)
    requires
        hierarchy_wf(objects),
        objects.len() <= usize::MAX,
        can_host.len() == objects.len(),
        o < objects.len(),
        objects[o as int].is_orbit(),
        acyclic(final_parents(objects)),
        candidates_below(objects, can_host, o as int, objects.len() as int).contains(q) || match final_parent_of(objects, o as int) {
            Some(p) => final_parent_of(objects, p as int),
            None => None,
        } == Some(q),
    ensures
        acyclic(final_parents(objects).update(o as int, Some(q))),
{
    let parents = final_parents(objects);
    assert forall|i: int| 0 <= i < parents.len() implies match #[trigger] parents[i] {
        Some(p) => p < parents.len(),
        None => true,
    } by {
        assert(objects[i].wf());
        if objects[i].is_orbit() {
            assert(objects[i].chain()[0].parent < objects.len());
        }
    }
    assert(parents_in_range(parents));
    let p = objects[o as int].chain()[0].parent;
    assert(objects[o as int].wf());
    assert(p < objects.len());
    if candidates_below(objects, can_host, o as int, objects.len() as int).contains(q) {
        lemma_candidate_member(objects, can_host, o as int, objects.len() as int, q);
        assert(parents[q as int] == parents[o as int]);
    } else {
        assert(objects[p as int].wf());
        assert(objects[p as int].chain()[0].parent < objects.len());
        assert(parents[p as int] == Some(q));
    }
    lemma_reparent_keeps_acyclic(parents, o, q);
}

/// The parent of the segment that body `i` is playing.
pub open spec fn current_parent_of<B, T, D>(objects: Seq<Object<B, T, D>>, i: int) -> Option<usize> {
    if objects[i].is_orbit() {
        Some(objects[i].chain().last().parent)
    } else {
        None
    }
}

/// The body `k` steps up the chain of current parents from `i`, if the
/// chain is that long.
pub open spec fn ancestor_at<B, T, D>(objects: Seq<Object<B, T, D>>, i: int, k: nat) -> Option<usize>
    decreases k,
{
    if k == 0 {
        Some(i as usize)
    } else {
        match ancestor_at(objects, i, (k - 1) as nat) {
            Some(a) => current_parent_of(objects, a as int),
            None => None,
        }
    }
}

proof fn lemma_ancestor_none_stays<B, T, D>(objects: Seq<Object<B, T, D>>, i: int, k: nat, m: nat)
    requires
        k <= m,
        ancestor_at(objects, i, k) is None,
    ensures
        ancestor_at(objects, i, m) is None,
    decreases m - k,
{
    if k < m {
        lemma_ancestor_none_stays(objects, i, k + 1, m);
    }
}

/// The chain of current parents from body `i` up to a stationary root,
/// starting with `i`: the bodies whose positions add up to the absolute
/// position of `i`. `None` when the chain climbs more steps than there are
/// bodies, which only a cycle allows.
pub fn current_ancestry<B, T: Copy, D: Copy>(objects: &Vec<Object<B, T, D>>, i: usize) -> (r: Option<Vec<usize>>)
    requires
        hierarchy_wf(objects@),
        i < objects.len(),
    ensures
        r is None <==> ancestor_at(objects@, i as int, objects.len() as nat) is Some,
        r matches Some(c) ==> {
            &&& 0 < c.len() <= objects.len()
            &&& forall|k: int| 0 <= k < c.len() ==> ancestor_at(objects@, i as int, k as nat) == Some(#[trigger] c@[k])
            &&& current_parent_of(objects@, c@[c.len() - 1] as int) is None
        },
{
    let n = objects.len();
    let mut chain: Vec<usize> = Vec::new();
    chain.push(i);
    let mut current = i;
    while chain.len() <= n
        invariant
            hierarchy_wf(objects@),
            n == objects.len(),
            current < n,
            0 < chain.len() <= n + 1,
            chain@[chain.len() - 1] == current,
            forall|k: int| 0 <= k < chain.len() ==> ancestor_at(objects@, i as int, k as nat) == Some(#[trigger] chain@[k]),
        decreases n + 1 - chain.len(),
    {
        assert(ancestor_at(objects@, i as int, chain.len() as nat) == current_parent_of(objects@, current as int));
        match objects[current].get_current_parent() {
            None => {
                proof {
                    lemma_ancestor_none_stays(objects@, i as int, chain.len() as nat, n as nat);
                }
                return Some(chain);
            },
            Some(p) => {
                assert(objects@[current as int].wf());
                assert(objects@[current as int].chain()[objects@[current as int].chain().len() - 1].parent < n);
                chain.push(p);
                current = p;
            },
        }
    }
    assert(ancestor_at(objects@, i as int, n as nat) == Some(chain@[n as int]));
    None
}

} // verus!
