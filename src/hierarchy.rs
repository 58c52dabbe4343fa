use vstd::prelude::*;

verus! {

/// Why a set of body definitions cannot form a hierarchy.
#[derive(Clone, Copy, Debug, PartialEq, Eq, Structural)]
pub enum LoadError {
    /// The body at this index repeats the name of an earlier one.
    DuplicateName(usize),
    /// The body at this index names a parent that no body has.
    MissingParent(usize),
    /// Some bodies are their own ancestors, so no order builds them all.
    Cycle,
}

/// The first index whose name equals `name`, if any.
pub open spec fn first_index_of(names: Seq<String>, name: Seq<char>) -> Option<usize> {
    if exists|i: int| 0 <= i < names.len() && names[i]@ == name {
        let i = choose|i: int|
            0 <= i < names.len() && names[i]@ == name && forall|j: int|
                0 <= j < i ==> names[j]@ != name;
        Some(i as usize)
    } else {
        None
    }
}

pub open spec fn names_unique(names: Seq<String>) -> bool {
    forall|i: int, j: int| 0 <= i < j < names.len() ==> names[i]@ != names[j]@
}

pub open spec fn parent_present(names: Seq<String>, parent_name: Option<String>) -> bool {
    match parent_name {
        None => true,
        Some(p) => exists|j: int| 0 <= j < names.len() && names[j]@ == p@,
    }
}

/// `parents` gives each body the index of the body its parent name denotes.
pub open spec fn resolves(
    names: Seq<String>,
    parent_names: Seq<Option<String>>,
    parents: Seq<Option<usize>>,
) -> bool {
    &&& parents.len() == parent_names.len()
    &&& forall|i: int|
        0 <= i < parents.len() ==> match (parent_names[i], #[trigger] parents[i]) {
            (None, None) => true,
            (Some(p), Some(j)) => j < names.len() && names[j as int]@ == p@,
            _ => false,
        }
}

/// Every parent index is the index of a body.
pub open spec fn parents_in_range(parents: Seq<Option<usize>>) -> bool {
    forall|i: int|
        0 <= i < parents.len() ==> match #[trigger] parents[i] {
            Some(p) => p < parents.len(),
            None => true,
        }
}

/// `order` lists every body once, each after its parent.
pub open spec fn is_build_order(parents: Seq<Option<usize>>, order: Seq<usize>) -> bool {
    &&& order.len() == parents.len()
    &&& order.no_duplicates()
    &&& forall|k: int| 0 <= k < order.len() ==> #[trigger] order[k] < parents.len()
    &&& forall|i: usize| i < parents.len() ==> #[trigger] order.contains(i)
    &&& forall|k: int|
        0 <= k < order.len() ==> match #[trigger] parents[order[k] as int] {
            Some(p) => exists|m: int| 0 <= m < k && order[m] == p,
            None => true,
        }
}

/// The index of the first body called `name`.
pub fn find_object(names: &Vec<String>, name: &String) -> (r: Option<usize>)
    ensures
        r == first_index_of(names@, name@),
{
    let mut i: usize = 0;
    while i < names.len()
        invariant
            i <= names.len(),
            forall|j: int| 0 <= j < i ==> names@[j]@ != name@,
        decreases names.len() - i,
    {
        if names[i] == *name {
            let ghost k = choose|k: int|
                0 <= k < names@.len() && names@[k]@ == name@ && forall|j: int|
                    0 <= j < k ==> names@[j]@ != name@;
            assert(k == i as int) by {
                if k < i {
                } else if k > i {
                    assert(names@[i as int]@ == name@);
                }
            }
            return Some(i);
        }
        i = i + 1;
    }
    None
}

/// Resolves each body's parent name to the index of that parent.
///
/// Names must be unique, and every parent name must be the name of a body;
/// the first offending body is reported otherwise.
pub fn resolve_parents(names: &Vec<String>, parent_names: &Vec<Option<String>>) -> (r: Result<
    Vec<Option<usize>>,
    LoadError,
>)
    requires
        names.len() == parent_names.len(),
    ensures
        r is Ok <==> names_unique(names@) && forall|i: int|
            0 <= i < names.len() ==> parent_present(names@, #[trigger] parent_names@[i]),
        r matches Ok(parents) ==> resolves(names@, parent_names@, parents@),
        r matches Err(LoadError::DuplicateName(j)) ==> {
            &&& j < names.len()
            &&& exists|k: int| 0 <= k < j && names@[k]@ == names@[j as int]@
            &&& names_unique(names@.take(j as int))
        },
        r matches Err(LoadError::MissingParent(i)) ==> {
            &&& names_unique(names@)
            &&& i < names.len()
            &&& !parent_present(names@, parent_names@[i as int])
            &&& forall|a: int| 0 <= a < i ==> parent_present(names@, #[trigger] parent_names@[a])
        },
        !(r matches Err(LoadError::Cycle)),
{
    let n = names.len();
    let mut j: usize = 0;
    while j < n
        invariant
            n == names.len(),
            j <= n,
            forall|a: int, b: int| 0 <= a < b < j ==> names@[a]@ != names@[b]@,
        decreases n - j,
    {
        let mut k: usize = 0;
        while k < j
            invariant
                n == names.len(),
                k <= j < n,
                forall|a: int| 0 <= a < k ==> names@[a]@ != names@[j as int]@,
                forall|a: int, b: int| 0 <= a < b < j ==> names@[a]@ != names@[b]@,
            decreases j - k,
        {
            if names[k] == names[j] {
                assert(names_unique(names@.take(j as int))) by {
                    let t = names@.take(j as int);
                    assert forall|a: int, b: int| 0 <= a < b < t.len() implies t[a]@ != t[b]@ by {
                        assert(t[a] == names@[a] && t[b] == names@[b]);
                    }
                }
                return Err(LoadError::DuplicateName(j));
            }
            k = k + 1;
        }
        j = j + 1;
    }
    let mut parents: Vec<Option<usize>> = Vec::new();
    let mut i: usize = 0;
    while i < n
        invariant
            n == names.len(),
            n == parent_names.len(),
            i <= n,
            names_unique(names@),
            parents.len() == i,
            forall|a: int| 0 <= a < i ==> parent_present(names@, #[trigger] parent_names@[a]),
            resolves(names@, parent_names@.take(i as int), parents@),
        decreases n - i,
    {
        match &parent_names[i] {
            None => {
                parents.push(None);
            },
            Some(parent_name) => {
                match find_object(names, parent_name) {
                    None => {
                        return Err(LoadError::MissingParent(i));
                    },
                    Some(p) => {
                        parents.push(Some(p));
                    },
                }
            },
        }
        assert(parent_names@.take(i + 1) == parent_names@.take(i as int).push(parent_names@[i as int]));
        i = i + 1;
    }
    assert(parent_names@.take(n as int) == parent_names@);
    Ok(parents)
}

/// How many entries are set.
pub open spec fn count_set(s: Seq<bool>) -> nat
    decreases s.len(),
{
    if s.len() == 0 {
        0
    } else {
        count_set(s.drop_last()) + if s.last() { 1nat } else { 0nat }
    }
}

proof fn lemma_count_set_bound(s: Seq<bool>)
    ensures
        count_set(s) <= s.len(),
        count_set(s) == s.len() <==> forall|i: int| 0 <= i < s.len() ==> s[i],
    decreases s.len(),
{
    if s.len() > 0 {
        lemma_count_set_bound(s.drop_last());
        if forall|i: int| 0 <= i < s.len() ==> s[i] {
            assert forall|i: int| 0 <= i < s.drop_last().len() implies s.drop_last()[i] by {
                assert(s[i]);
            }
            assert(s.last());
        }
        if count_set(s) == s.len() {
            assert forall|i: int| 0 <= i < s.len() implies s[i] by {
                if i < s.len() - 1 {
                    assert(s.drop_last()[i] == s[i]);
                }
            }
        }
    }
}

proof fn lemma_count_set_update(s: Seq<bool>, i: int)
    requires
        0 <= i < s.len(),
        !s[i],
    ensures
        count_set(s.update(i, true)) == count_set(s) + 1,
    decreases s.len(),
{
    let t = s.update(i, true);
    if i == s.len() - 1 {
        assert(t.drop_last() == s.drop_last());
    } else {
        assert(t.drop_last() == s.drop_last().update(i, true));
        lemma_count_set_update(s.drop_last(), i);
    }
}

/// When no unbuilt body has a built parent or no parent, every body that a
/// build order places is already built.
proof fn lemma_stuck_prefix_built(
    parents: Seq<Option<usize>>,
    built: Seq<bool>,
    order: Seq<usize>,
    k: int,
)
    requires
        built.len() == parents.len(),
        is_build_order(parents, order),
        0 <= k < order.len(),
        forall|i: int|
            0 <= i < parents.len() && !#[trigger] built[i] ==> match parents[i] {
                Some(p) => !built[p as int],
                None => false,
            },
    ensures
        built[order[k] as int],
    decreases k,
{
    let x = order[k];
    match parents[x as int] {
        Some(p) => {
            let m = choose|m: int| 0 <= m < k && order[m] == p;
            lemma_stuck_prefix_built(parents, built, order, m);
        },
        None => {},
    }
}

/// What a partial build has established: `order` lists exactly the built
/// bodies, once each, each after its parent.
pub open spec fn partial_order_inv(
    parents: Seq<Option<usize>>,
    built: Seq<bool>,
    order: Seq<usize>,
) -> bool {
    &&& built.len() == parents.len()
    &&& order.len() == count_set(built)
    &&& order.no_duplicates()
    &&& forall|k: int| 0 <= k < order.len() ==> #[trigger] order[k] < parents.len()
    &&& forall|a: usize|
        #![trigger built[a as int]]
        #![trigger order.contains(a)]
        a < parents.len() ==> (built[a as int] <==> order.contains(a))
    &&& forall|k: int|
        0 <= k < order.len() ==> match #[trigger] parents[order[k] as int] {
            Some(p) => exists|m: int| 0 <= m < k && order[m] == p,
            None => true,
        }
}

proof fn lemma_build_one(
    parents: Seq<Option<usize>>,
    built: Seq<bool>,
    order: Seq<usize>,
    i: usize,
)
    requires
        parents_in_range(parents),
        partial_order_inv(parents, built, order),
        i < parents.len(),
        !built[i as int],
        match parents[i as int] {
            Some(p) => built[p as int],
            None => true,
        },
    ensures
        partial_order_inv(parents, built.update(i as int, true), order.push(i)),
{
    let n = parents.len();
    let nb = built.update(i as int, true);
    let no = order.push(i);
    lemma_count_set_update(built, i as int);
    assert forall|a: usize| a < n implies (#[trigger] nb[a as int] <==> no.contains(a)) by {
        if a == i {
            assert(no[no.len() - 1] == i);
        } else {
            if order.contains(a) {
                let m = choose|m: int| 0 <= m < order.len() && order[m] == a;
                assert(no[m] == a);
            }
            if no.contains(a) {
                let m = choose|m: int| 0 <= m < no.len() && no[m] == a;
                assert(m < order.len()) by {
                    if m == order.len() {
                        assert(no[m] == i);
                    }
                }
                assert(order[m] == a);
            }
        }
    }
    assert forall|k: int| 0 <= k < no.len() implies match #[trigger] parents[no[k] as int] {
        Some(p) => exists|m: int| 0 <= m < k && no[m] == p,
        None => true,
    } by {
        if k < order.len() {
            assert(no[k] == order[k]);
            match parents[order[k] as int] {
                Some(p) => {
                    let m = choose|m: int| 0 <= m < k && order[m] == p;
                    assert(no[m] == p);
                },
                None => {},
            }
        } else {
            match parents[i as int] {
                Some(p) => {
                    assert(order.contains(p));
                    let m = choose|m: int| 0 <= m < order.len() && order[m] == p;
                    assert(no[m] == p);
                },
                None => {},
            }
        }
    }
    assert forall|a: int, b: int| 0 <= a < b < no.len() implies no[a] != no[b] by {
        if b == no.len() - 1 {
            if no[a] == i {
                assert(order.contains(i));
            }
        }
    }
}

/// While some body is unbuilt and none can be built next, no build order
/// exists.
proof fn lemma_stuck_no_order(parents: Seq<Option<usize>>, built: Seq<bool>)
    requires
        parents_in_range(parents),
        parents.len() <= usize::MAX,
        built.len() == parents.len(),
        count_set(built) < built.len(),
        forall|i: int|
            0 <= i < parents.len() && !#[trigger] built[i] ==> match parents[i] {
                Some(p) => !built[p as int],
                None => false,
            },
    ensures
        forall|order: Seq<usize>| !is_build_order(parents, order),
{
    lemma_count_set_bound(built);
    assert(exists|u: int| 0 <= u < built.len() && !built[u]);
    let u = choose|u: int| 0 <= u < built.len() && !built[u];
    let uu = u as usize;
    assert(uu as int == u);
    assert forall|order: Seq<usize>| !is_build_order(parents, order) by {
        if is_build_order(parents, order) {
            assert(uu < parents.len());
            assert(order.contains(uu));
            let k = choose|k: int| 0 <= k < order.len() && order[k] == uu;
            lemma_stuck_prefix_built(parents, built, order, k);
        }
    }
}

/// An order in which every body comes after its parent, as the hierarchy
/// must be built; `Cycle` exactly when no such order exists.
pub fn build_order(parents: &Vec<Option<usize>>) -> (r: Result<Vec<usize>, LoadError>)
    requires
        parents_in_range(parents@),
    ensures
        r matches Ok(order) ==> is_build_order(parents@, order@),
        r is Err ==> r == Err::<Vec<usize>, LoadError>(LoadError::Cycle) && forall|order: Seq<usize>|
            !is_build_order(parents@, order),
{
    let n = parents.len();
    let mut built: Vec<bool> = Vec::new();
    let mut i: usize = 0;
    while i < n
        invariant
            i <= n,
            built.len() == i,
            forall|a: int| 0 <= a < i ==> !built@[a],
        decreases n - i,
    {
        built.push(false);
        i = i + 1;
    }
    proof {
        lemma_all_unset_count(built@);
    }
    let mut order: Vec<usize> = Vec::new();
    while order.len() < n
        invariant
            n == parents.len(),
            parents_in_range(parents@),
            partial_order_inv(parents@, built@, order@),
        decreases n - order.len(),
    {
        let ghost start_len = order.len();
        let mut progress = false;
        let mut i: usize = 0;
        while i < n
            invariant
                n == parents.len(),
                parents_in_range(parents@),
                partial_order_inv(parents@, built@, order@),
                i <= n,
                progress ==> order.len() > start_len,
                !progress ==> order.len() == start_len,
                !progress ==> forall|a: int|
                    0 <= a < i && !#[trigger] built@[a] ==> match parents@[a] {
                        Some(p) => !built@[p as int],
                        None => false,
                    },
                order.len() >= start_len,
            decreases n - i,
        {
            if !built[i] {
                let ready = match parents[i] {
                    None => true,
                    Some(p) => built[p],
                };
                if ready {
                    proof {
                        lemma_build_one(parents@, built@, order@, i);
                        lemma_count_set_bound(built@.update(i as int, true));
                    }
                    built.set(i, true);
                    order.push(i);
                    progress = true;
                }
            }
            i = i + 1;
        }
        if !progress {
            proof {
                lemma_stuck_no_order(parents@, built@);
            }
            return Err(LoadError::Cycle);
        }
        proof {
            lemma_count_set_bound(built@);
        }
    }
    proof {
        lemma_count_set_bound(built@);
        assert forall|a: usize| a < n implies #[trigger] order@.contains(a) by {
            assert(built@[a as int]);
        }
    }
    Ok(order)
}

proof fn lemma_all_unset_count(s: Seq<bool>)
    requires
        forall|i: int| 0 <= i < s.len() ==> !s[i],
    ensures
        count_set(s) == 0,
    decreases s.len(),
{
    if s.len() > 0 {
        lemma_all_unset_count(s.drop_last());
    }
}

/// The body `k` parent steps up from `i`, if the chain is that long.
pub open spec fn ancestor(parents: Seq<Option<usize>>, i: usize, k: nat) -> Option<usize>
    decreases k,
{
    if k == 0 {
        Some(i)
    } else {
        match ancestor(parents, i, (k - 1) as nat) {
            Some(a) => parents[a as int],
            None => None,
        }
    }
}

proof fn lemma_ancestor_earlier(
    parents: Seq<Option<usize>>,
    order: Seq<usize>,
    i: usize,
    pos: int,
    k: nat,
)
    requires
        is_build_order(parents, order),
        0 <= pos < order.len(),
        order[pos] == i,
    ensures
        ancestor(parents, i, k) matches Some(a) ==> exists|m: int|
            0 <= m <= pos - k && order[m] == a,
    decreases k,
{
    if k == 0 {
        assert(order[pos] == i);
    } else {
        lemma_ancestor_earlier(parents, order, i, pos, (k - 1) as nat);
        if let Some(b) = ancestor(parents, i, (k - 1) as nat) {
            if let Some(a) = parents[b as int] {
                let mb = choose|m: int| 0 <= m <= pos - (k - 1) && order[m] == b;
                assert(parents[order[mb] as int] == Some(a));
                let m = choose|m: int| 0 <= m < mb && order[m] == a;
                assert(0 <= m <= pos - k && order[m] == a);
            }
        }
    }
}

/// A hierarchy that has a build order has no cycle: no body is its own
/// ancestor, however many parent steps are taken.
pub proof fn lemma_build_order_acyclic(parents: Seq<Option<usize>>, order: Seq<usize>, i: usize, k: nat)
    requires
        is_build_order(parents, order),
        i < parents.len(),
        k > 0,
    ensures
        ancestor(parents, i, k) != Some(i),
{
    assert(order.contains(i));
    let pos = choose|p: int| 0 <= p < order.len() && order[p] == i;
    lemma_ancestor_earlier(parents, order, i, pos, k);
    if ancestor(parents, i, k) == Some(i) {
        let m = choose|m: int| 0 <= m <= pos - k && order[m] == i;
        assert(order[m] == order[pos]);
    }
}

/// No body is its own ancestor.
pub open spec fn acyclic(parents: Seq<Option<usize>>) -> bool {
    forall|i: usize, k: nat| i < parents.len() && k > 0 ==> #[trigger] ancestor(parents, i, k) != Some(i)
}

proof fn lemma_ancestor_in_range(parents: Seq<Option<usize>>, i: usize, k: nat)
    requires
        parents_in_range(parents),
        i < parents.len(),
    ensures
        ancestor(parents, i, k) matches Some(a) ==> a < parents.len(),
    decreases k,
{
    if k > 0 {
        lemma_ancestor_in_range(parents, i, (k - 1) as nat);
    }
}

/// Climbing `a` steps and then `b` steps is climbing `a + b` steps.
proof fn lemma_ancestor_compose(parents: Seq<Option<usize>>, i: usize, a: nat, b: nat)
    ensures
        ancestor(parents, i, a + b) == match ancestor(parents, i, a) {
            Some(x) => ancestor(parents, x, b),
            None => None,
        },
    decreases b,
{
    if b > 0 {
        lemma_ancestor_compose(parents, i, a, (b - 1) as nat);
        assert((a + b - 1) as nat == a + (b - 1) as nat);
        if let Some(x) = ancestor(parents, i, a) {
            assert(ancestor(parents, x, b) == match ancestor(parents, x, (b - 1) as nat) {
                Some(y) => parents[y as int],
                None => None,
            });
        } else {
            assert(ancestor(parents, i, a + b) == match ancestor(parents, i, (a + b - 1) as nat) {
                Some(y) => parents[y as int],
                None => None,
            });
        }
    }
}

/// A climb that does not pass through `o` is the same whether or not
/// `o`'s parent changed.
proof fn lemma_ancestor_avoiding(parents: Seq<Option<usize>>, o: usize, v: Option<usize>, i: usize, k: nat)
    requires
        parents_in_range(parents),
        o < parents.len(),
        i < parents.len(),
        forall|j: nat| j < k ==> #[trigger] ancestor(parents.update(o as int, v), i, j) != Some(o),
    ensures
        ancestor(parents.update(o as int, v), i, k) == ancestor(parents, i, k),
    decreases k,
{
    if k > 0 {
        let q = parents.update(o as int, v);
        lemma_ancestor_avoiding(parents, o, v, i, (k - 1) as nat);
        lemma_ancestor_in_range(parents, i, (k - 1) as nat);
        assert(ancestor(q, i, (k - 1) as nat) != Some(o));
    }
}

/// The first time a climb from `i` reaches `o`.
proof fn lemma_first_visit(parents: Seq<Option<usize>>, i: usize, o: usize, k: nat) -> (m: nat)
    requires
        ancestor(parents, i, k) == Some(o),
    ensures
        m <= k,
        ancestor(parents, i, m) == Some(o),
        forall|j: nat| j < m ==> #[trigger] ancestor(parents, i, j) != Some(o),
    decreases k,
{
    if exists|j: nat| j < k && #[trigger] ancestor(parents, i, j) == Some(o) {
        let j = choose|j: nat| j < k && #[trigger] ancestor(parents, i, j) == Some(o);
        lemma_first_visit(parents, i, o, j)
    } else {
        k
    }
}

/// Moving body `o` under a sibling (a body with the same parent) or under
/// its grandparent keeps a hierarchy free of cycles.
pub proof fn lemma_reparent_keeps_acyclic(parents: Seq<Option<usize>>, o: usize, q: usize)
    requires
        parents_in_range(parents),
        acyclic(parents),
        o < parents.len(),
        q < parents.len(),
        parents[o as int] is Some,
        (q != o && parents[q as int] == parents[o as int]) || parents[parents[o as int]->0 as int]
            == Some(q),
    ensures
        acyclic(parents.update(o as int, Some(q))),
{
    let np = parents.update(o as int, Some(q));
    let p = parents[o as int]->0;
    assert forall|i: usize, k: nat| i < np.len() && k > 0 implies #[trigger] ancestor(np, i, k) != Some(i) by {
        if ancestor(np, i, k) == Some(i) {
            if exists|j: nat| j < k && #[trigger] ancestor(np, i, j) == Some(o) {
                let j = choose|j: nat| j < k && #[trigger] ancestor(np, i, j) == Some(o);
                lemma_ancestor_compose(np, i, j, k);
                lemma_ancestor_compose(np, i, k, j);
                assert(j + k == k + j);
                // So `o` is on a cycle of length k, whose first step goes to q.
                assert(ancestor(np, o, k) == Some(o));
                lemma_ancestor_compose(np, o, 1, (k - 1) as nat);
                assert(ancestor(np, o, 0) == Some(o));
                assert(ancestor(np, o, 1) == Some(q));
                assert(1 + (k - 1) as nat == k);
                assert(ancestor(np, q, (k - 1) as nat) == Some(o));
                let m = lemma_first_visit(np, q, o, (k - 1) as nat);
                lemma_ancestor_avoiding(parents, o, Some(q), q, m);
                assert(ancestor(parents, q, m) == Some(o));
                if q != o && parents[q as int] == parents[o as int] {
                    assert(m >= 1);
                    assert(ancestor(parents, q, 0) == Some(q));
                    assert(ancestor(parents, q, 1) == Some(p));
                    assert(ancestor(parents, o, 0) == Some(o));
                    assert(ancestor(parents, o, 1) == Some(p));
                    lemma_ancestor_compose(parents, q, 1, (m - 1) as nat);
                    lemma_ancestor_compose(parents, o, 1, (m - 1) as nat);
                    assert(1 + (m - 1) as nat == m);
                    assert(ancestor(parents, o, m) == Some(o));
                } else {
                    lemma_ancestor_compose(parents, o, 2, m);
                    assert(ancestor(parents, o, 0) == Some(o));
                    assert(ancestor(parents, o, 1) == Some(p));
                    assert(ancestor(parents, o, 2) == Some(q));
                    assert(ancestor(parents, o, 2 + m) == Some(o));
                }
            } else {
                lemma_ancestor_avoiding(parents, o, Some(q), i, k);
            }
        }
    }
}

} // verus!
