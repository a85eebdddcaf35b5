//! The orbital hierarchy of one tick, worked out from body ids alone.
//!
//! A tick takes bodies one at a time from the end of a working list. A body
//! whose gravity center is still in the list is rotated about it, and the
//! same displacement is carried by every other body that orbits it, directly
//! or through other bodies, whether or not it has been taken already, so that
//! each orbiting system moves rigidly with its parent. Ids and gravity
//! centers do not change during a tick, so which body moves about which, and
//! which satellites follow it, is fixed before any coordinate is touched.
use vstd::prelude::*;

verus! {

/// The part of a body that the orbital hierarchy depends on.
#[derive(Clone, Copy, PartialEq, Eq, Debug)]
pub struct OrbitLink {
    pub id: u32,
    pub gravity_center: u32,
}

/// What happens to one body during a tick.
#[derive(Debug)]
pub struct OrbitStep {
    /// Index of the body in the working list.
    pub body: usize,
    /// Index of its gravity center among the bodies still in the list, when
    /// it has one there.
    pub center: Option<usize>,
    /// Indices of the bodies that follow the body's displacement.
    pub satellites: Vec<usize>,
}

/// `r` is the first index below `bound` whose id is `id`, or `None` when
/// there is no such index.
pub open spec fn is_first_match(links: Seq<OrbitLink>, bound: int, id: u32, r: Option<usize>) -> bool {
    match r {
        Some(i) => i < bound && links[i as int].id == id && forall|k: int|
            0 <= k < i ==> links[k].id != id,
        None => forall|k: int| 0 <= k < bound ==> links[k].id != id,
    }
}

/// `path` is a chain of bodies below `bound` that starts at `path[0]`, in
/// which each body orbits the next, and whose last body orbits the body with
/// id `root`.
pub open spec fn is_chain(links: Seq<OrbitLink>, bound: int, root: u32, path: Seq<int>) -> bool {
    &&& path.len() >= 1
    &&& forall|m: int| 0 <= m < path.len() ==> 0 <= #[trigger] path[m] < bound
    &&& forall|m: int|
        0 <= m < path.len() - 1 ==> links[#[trigger] path[m]].gravity_center == links[path[m + 1]].id
    &&& links[path.last()].gravity_center == root
}

/// Body `i` orbits the body with id `root`, directly or transitively, through
/// bodies below `bound` only.
pub open spec fn orbits(links: Seq<OrbitLink>, bound: int, root: u32, i: int) -> bool {
    exists|path: Seq<int>| #[trigger] is_chain(links, bound, root, path) && path[0] == i
}

/// The step that a tick takes for the body at index `j`: `j` has a center
/// below it (still in the working list) unless it is its own center, and,
/// when it has a center, the satellites are exactly the other bodies of the
/// whole list that orbit it.
pub open spec fn is_step(links: Seq<OrbitLink>, j: int, s: OrbitStep) -> bool {
    &&& s.body == j
    &&& if links[j].gravity_center == links[j].id {
        s.center is None
    } else {
        is_first_match(links, j, links[j].gravity_center, s.center)
    }
    &&& forall|k: int| 0 <= k < s.satellites@.len() ==> #[trigger] s.satellites@[k] < links.len()
    &&& s.satellites@.no_duplicates()
    &&& !s.satellites@.contains(j as usize)
    &&& forall|i: int|
        0 <= i < links.len() && i != j ==> (#[trigger] s.satellites@.contains(i as usize) <==> (
        s.center is Some && orbits(links, links.len() as int, links[j].id, i)))
}

/// First index below `bound` whose id is `id`.
pub fn find_body(links: &Vec<OrbitLink>, bound: usize, id: u32) -> (r: Option<usize>)
    requires
        bound <= links.len(),
    ensures
        is_first_match(links@, bound as int, id, r),
{
    let mut i: usize = 0;
    while i < bound
        invariant
            i <= bound <= links.len(),
            forall|k: int| 0 <= k < i ==> links@[k].id != id,
        decreases bound - i,
    {
        if links[i].id == id {
            return Some(i);
        }
        i += 1;
    }
    None
}

proof fn lemma_distinct_below(s: Seq<usize>, bound: nat)
    requires
        s.no_duplicates(),
        forall|k: int| 0 <= k < s.len() ==> s[k] < bound,
    ensures
        s.len() <= bound,
    decreases bound,
{
    if bound == 0 {
        if s.len() > 0 {
            assert(s[0] < 0);
        }
    } else {
        let top = (bound - 1) as usize;
        if s.contains(top) {
            let p = s.index_of(top);
            let t = s.remove(p);
            assert forall|a: int, b: int| 0 <= a < t.len() && 0 <= b < t.len() && a != b implies t[a]
                != t[b] by {
                let a2 = if a < p { a } else { a + 1 };
                let b2 = if b < p { b } else { b + 1 };
                assert(t[a] == s[a2] && t[b] == s[b2]);
            }
            assert forall|k: int| 0 <= k < t.len() implies t[k] < bound - 1 by {
                let k2 = if k < p { k } else { k + 1 };
                assert(t[k] == s[k2]);
                assert(k2 != p);
            }
            lemma_distinct_below(t, (bound - 1) as nat);
        } else {
            assert forall|k: int| 0 <= k < s.len() implies s[k] < bound - 1 by {
                assert(s.contains(s[k]));
            }
            lemma_distinct_below(s, (bound - 1) as nat);
        }
    }
}

/// Marks and appends every unmarked body below `bound` whose gravity center is
/// `parent`.
fn mark_children(
    links: &Vec<OrbitLink>,
    bound: usize,
    parent: u32,
    marked: &mut Vec<bool>,
    found: &mut Vec<usize>,
)
    requires
        bound <= links.len(),
        old(marked).len() == bound,
        old(found)@.no_duplicates(),
        forall|k: int| 0 <= k < old(found).len() ==> #[trigger] old(found)@[k] < bound,
        forall|i: int| 0 <= i < bound ==> (old(marked)@[i] <==> old(found)@.contains(i as usize)),
    ensures
        final(marked).len() == bound,
        final(found)@.no_duplicates(),
        forall|k: int| 0 <= k < final(found).len() ==> #[trigger] final(found)@[k] < bound,
        forall|i: int| 0 <= i < bound ==> (final(marked)@[i] <==> final(found)@.contains(i as usize)),
        final(found)@.len() >= old(found)@.len(),
        final(found)@.subrange(0, old(found)@.len() as int) == old(found)@,
        forall|k: int|
            old(found)@.len() <= k < final(found)@.len() ==> links@[#[trigger] final(found)@[k] as int].gravity_center
                == parent,
        forall|i: int| 0 <= i < bound && links@[i].gravity_center == parent ==> final(marked)@[i],
        forall|i: int| 0 <= i < bound && old(marked)@[i] ==> final(marked)@[i],
{
    let ghost found0 = found@;
    let ghost marked0 = marked@;
    let mut i: usize = 0;
    while i < bound
        invariant
            i <= bound <= links.len(),
            marked.len() == bound,
            found@.no_duplicates(),
            forall|k: int| 0 <= k < found.len() ==> #[trigger] found@[k] < bound,
            forall|x: int| 0 <= x < bound ==> (marked@[x] <==> found@.contains(x as usize)),
            found@.len() >= found0.len(),
            found@.subrange(0, found0.len() as int) == found0,
            forall|k: int|
                found0.len() <= k < found@.len() ==> links@[#[trigger] found@[k] as int].gravity_center
                    == parent,
            forall|x: int| 0 <= x < i && links@[x].gravity_center == parent ==> marked@[x],
            forall|x: int| 0 <= x < bound && marked0[x] ==> marked@[x],
        decreases bound - i,
    {
        if links[i].gravity_center == parent && !marked[i] {
            let ghost before = found@;
            marked.set(i, true);
            found.push(i);
            assert(found@.subrange(0, found0.len() as int) =~= before.subrange(0, found0.len() as int));
            assert forall|x: int| 0 <= x < bound implies (marked@[x] <==> found@.contains(x as usize)) by {
                if x != i {
                    if found@.contains(x as usize) {
                        let k = found@.index_of(x as usize);
                        if k < before.len() {
                            assert(before[k] == x as usize);
                        }
                    }
                    if before.contains(x as usize) {
                        let k = before.index_of(x as usize);
                        assert(found@[k] == x as usize);
                    }
                } else {
                    assert(found@[before.len() as int] == i);
                }
            }
        }
        i += 1;
    }
}

/// Indices of the bodies below `bound` that orbit the body with id `root`,
/// directly or through other bodies below `bound`, each once.
pub fn satellites(links: &Vec<OrbitLink>, bound: usize, root: u32) -> (r: Vec<usize>)
    requires
        bound <= links.len(),
    ensures
        r@.no_duplicates(),
        forall|k: int| 0 <= k < r@.len() ==> #[trigger] r@[k] < bound,
        forall|i: int| 0 <= i < bound ==> (r@.contains(i as usize) <==> orbits(links@, bound as int, root, i)),
{
    let mut marked: Vec<bool> = Vec::new();
    let mut n: usize = 0;
    while n < bound
        invariant
            n <= bound,
            marked.len() == n,
            forall|x: int| 0 <= x < n ==> !marked@[x],
        decreases bound - n,
    {
        marked.push(false);
        n += 1;
    }
    let mut found: Vec<usize> = Vec::new();
    mark_children(links, bound, root, &mut marked, &mut found);
    assert forall|k: int| 0 <= k < found@.len() implies orbits(links@, bound as int, root, #[trigger] found@[k] as int) by {
        assert(is_chain(links@, bound as int, root, seq![found@[k] as int]));
    }
    let mut next: usize = 0;
    while next < found.len()
        invariant
            bound <= links.len(),
            next <= found.len(),
            marked.len() == bound,
            found@.no_duplicates(),
            forall|k: int| 0 <= k < found.len() ==> #[trigger] found@[k] < bound,
            forall|x: int| 0 <= x < bound ==> (marked@[x] <==> found@.contains(x as usize)),
            forall|k: int| 0 <= k < found@.len() ==> orbits(links@, bound as int, root, #[trigger] found@[k] as int),
            forall|x: int| 0 <= x < bound && links@[x].gravity_center == root ==> marked@[x],
            forall|k: int, x: int|
                #![trigger found@[k], marked@[x]]
                0 <= k < next && 0 <= x < bound && links@[x].gravity_center == links@[found@[k] as int].id
                    ==> marked@[x],
        decreases bound - next,
    {
        proof {
            lemma_distinct_below(found@, bound as nat);
        }
        let v = found[next];
        let ghost before = found@;
        let ghost marked_before = marked@;
        mark_children(links, bound, links[v].id, &mut marked, &mut found);
        assert forall|k: int| 0 <= k < found@.len() implies orbits(links@, bound as int, root, #[trigger] found@[k] as int) by {
            if k < before.len() {
                assert(found@[k] == found@.subrange(0, before.len() as int)[k]);
            } else {
                let path = choose|path: Seq<int>| #[trigger] is_chain(links@, bound as int, root, path) && path[0] == v as int;
                let e = found@[k] as int;
                let longer = seq![e] + path;
                assert(longer[0] == e);
                assert forall|m: int| 0 <= m < longer.len() - 1 implies links@[#[trigger] longer[m]].gravity_center
                    == links@[longer[m + 1]].id by {
                    if m > 0 {
                        assert(longer[m] == path[m - 1]);
                    }
                }
                assert(is_chain(links@, bound as int, root, longer));
            }
        }
        assert forall|k: int, x: int|
            #![trigger found@[k], marked@[x]]
            0 <= k < next + 1 && 0 <= x < bound && links@[x].gravity_center == links@[found@[k] as int].id
                implies marked@[x] by {
            assert(found@[k] == found@.subrange(0, before.len() as int)[k]);
            assert(found@[k] == before[k]);
            if k < next {
                assert(marked_before[x]);
            }
        }
        next += 1;
    }
    proof {
        assert forall|i: int| 0 <= i < bound && orbits(links@, bound as int, root, i) implies found@.contains(i as usize) by {
            let path = choose|path: Seq<int>| #[trigger] is_chain(links@, bound as int, root, path) && path[0] == i;
            lemma_reached(links@, bound as int, root, found@, marked@, path);
        }
    }
    found
}

proof fn lemma_reached(links: Seq<OrbitLink>, bound: int, root: u32, found: Seq<usize>, marked: Seq<bool>, path: Seq<int>)
    requires
        bound <= links.len(),
        bound <= usize::MAX,
        marked.len() == bound,
        forall|k: int| 0 <= k < found.len() ==> #[trigger] found[k] < bound,
        forall|x: int| 0 <= x < bound ==> (marked[x] <==> found.contains(x as usize)),
        forall|x: int| 0 <= x < bound && links[x].gravity_center == root ==> marked[x],
        forall|k: int, x: int|
            #![trigger found[k], marked[x]]
            0 <= k < found.len() && 0 <= x < bound && links[x].gravity_center == links[found[k] as int].id
                ==> marked[x],
        is_chain(links, bound, root, path),
    ensures
        found.contains(path[0] as usize),
    decreases path.len(),
{
    let i = path[0];
    if path.len() > 1 {
        let rest = path.drop_first();
        assert forall|m: int| 0 <= m < rest.len() - 1 implies links[#[trigger] rest[m]].gravity_center
            == links[rest[m + 1]].id by {
            assert(rest[m] == path[m + 1]);
        }
        assert(path[1] < bound && 0 <= path[1]);
        assert(is_chain(links, bound, root, rest));
        lemma_reached(links, bound, root, found, marked, rest);
        assert(rest[0] == path[1]);
        assert(found.contains(path[1] as usize));
        let p = found.index_of(path[1] as usize);
        assert(found[p] as int == path[1]);
        assert(links[i].gravity_center == links[path[1]].id);
        assert(marked[i]);
    } else {
        assert(path[0] < bound && 0 <= path[0]);
        assert(marked[i]);
    }
    assert(found.contains(i as usize));
}

/// The entries of `v` other than `x`, in order.
fn without(v: Vec<usize>, x: usize) -> (r: Vec<usize>)
    requires
        v@.no_duplicates(),
    ensures
        r@.no_duplicates(),
        forall|e: usize| #[trigger] r@.contains(e) <==> (e != x && v@.contains(e)),
{
    let mut r: Vec<usize> = Vec::new();
    let mut i: usize = 0;
    while i < v.len()
        invariant
            i <= v.len(),
            v@.no_duplicates(),
            r@.no_duplicates(),
            forall|e: usize| #[trigger] r@.contains(e) <==> (e != x && v@.subrange(0, i as int).contains(e)),
        decreases v.len() - i,
    {
        let ghost before = r@;
        let ghost pre = v@.subrange(0, i as int);
        let ghost post = v@.subrange(0, i + 1);
        assert forall|e: usize| post.contains(e) <==> (pre.contains(e) || e == v@[i as int]) by {
            if post.contains(e) {
                let m = post.index_of(e);
                if m < i {
                    assert(pre[m] == e);
                }
            }
            if pre.contains(e) {
                let m = pre.index_of(e);
                assert(post[m] == e);
            }
            assert(post[i as int] == v@[i as int]);
        }
        if v[i] != x {
            assert(!pre.contains(v@[i as int])) by {
                if pre.contains(v@[i as int]) {
                    let m = pre.index_of(v@[i as int]);
                    assert(v@[m] == v@[i as int]);
                }
            }
            assert(!before.contains(v@[i as int]));
            r.push(v[i]);
            assert forall|a: int, b: int| 0 <= a < r@.len() && 0 <= b < r@.len() && a != b implies r@[a]
                != r@[b] by {
                if a < before.len() && b < before.len() {
                    assert(r@[a] == before[a] && r@[b] == before[b]);
                } else if a < before.len() {
                    assert(r@[a] == before[a]);
                    assert(before.contains(before[a]));
                } else if b < before.len() {
                    assert(r@[b] == before[b]);
                    assert(before.contains(before[b]));
                }
            }
            assert forall|e: usize| #[trigger] r@.contains(e) <==> (e != x && post.contains(e)) by {
                if r@.contains(e) {
                    let m = r@.index_of(e);
                    if m < before.len() {
                        assert(before[m] == e);
                    }
                }
                if before.contains(e) {
                    let m = before.index_of(e);
                    assert(r@[m] == e);
                }
                assert(r@[before.len() as int] == v@[i as int]);
            }
        }
        i += 1;
    }
    assert(v@.subrange(0, v.len() as int) =~= v@);
    r
}

/// The steps of one tick over the working list `links`, in the order in which
/// the bodies are taken: the last body first. With fewer than two bodies a
/// tick moves nothing and has no steps.
pub fn plan_tick(links: &Vec<OrbitLink>) -> (r: Vec<OrbitStep>)
    ensures
        r.len() == if links.len() < 2 { 0 } else { links.len() },
        forall|k: int| 0 <= k < r.len() ==> is_step(links@, links.len() - 1 - k, #[trigger] r@[k]),
{
    let n = links.len();
    let mut steps: Vec<OrbitStep> = Vec::new();
    if n < 2 {
        return steps;
    }
    let mut k: usize = 0;
    while k < n
        invariant
            n == links.len(),
            n <= usize::MAX,
            k <= n,
            steps.len() == k,
            forall|m: int| 0 <= m < k ==> is_step(links@, n - 1 - m, #[trigger] steps@[m]),
        decreases n - k,
    {
        let j = n - 1 - k;
        let link = links[j];
        let center = if link.gravity_center == link.id {
            None
        } else {
            find_body(links, j, link.gravity_center)
        };
        let sats = if center.is_some() {
            let all = satellites(links, n, link.id);
            let sats = without(all, j);
            assert forall|m: int| 0 <= m < sats@.len() implies #[trigger] sats@[m] < n by {
                assert(sats@.contains(sats@[m]));
                let p = all@.index_of(sats@[m]);
                assert(all@[p] < n);
            }
            assert forall|i: int| 0 <= i < n && i != j implies (#[trigger] sats@.contains(i as usize) <==> orbits(
                links@,
                n as int,
                link.id,
                i,
            )) by {
                assert(all@.contains(i as usize) <==> orbits(links@, n as int, link.id, i));
            }
            sats
        } else {
            Vec::new()
        };
        let step = OrbitStep { body: j, center, satellites: sats };
        assert(is_step(links@, j as int, step));
        let ghost prev = steps@;
        steps.push(step);
        assert forall|m: int| 0 <= m < k + 1 implies is_step(links@, n - 1 - m, #[trigger] steps@[m]) by {
            if m < k {
                assert(steps@[m] == prev[m]);
            }
        }
        k += 1;
    }
    steps
}

/// A body that moves carries the bodies that orbit it, wherever they stand
/// in the working list: when the step of the body at index `j` gives it a
/// center, every other body whose gravity center is that body follows its
/// displacement, and so does every other body that orbits one that follows
/// it, at any depth.
pub proof fn lemma_satellites_follow(links: Seq<OrbitLink>, j: int, s: OrbitStep, c: int, e: int)
    requires
        0 <= j < links.len(),
        is_step(links, j, s),
        s.center is Some,
        0 <= c < links.len(),
        0 <= e < links.len(),
        c != j,
        e != j,
    ensures
        links[c].gravity_center == links[j].id ==> s.satellites@.contains(c as usize),
        s.satellites@.contains(c as usize) && links[e].gravity_center == links[c].id
            ==> s.satellites@.contains(e as usize),
{
    let n = links.len() as int;
    if links[c].gravity_center == links[j].id {
        assert(is_chain(links, n, links[j].id, seq![c]));
    }
    if s.satellites@.contains(c as usize) && links[e].gravity_center == links[c].id {
        let path = choose|path: Seq<int>| #[trigger] is_chain(links, n, links[j].id, path) && path[0] == c;
        let longer = seq![e] + path;
        assert(longer[0] == e);
        assert forall|m: int| 0 <= m < longer.len() - 1 implies links[#[trigger] longer[m]].gravity_center
            == links[longer[m + 1]].id by {
            assert(longer[m + 1] == path[m]);
            if m > 0 {
                assert(longer[m] == path[m - 1]);
            }
        }
        assert(is_chain(links, n, links[j].id, longer));
    }
}

} // verus!
