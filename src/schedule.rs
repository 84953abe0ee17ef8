use vstd::prelude::*;

use crate::error::Error;
use crate::plugin::R_E_AClass;

verus! {

/// A directed data-flow edge from an output port of one instance to an input
/// port of another.
#[derive(Debug, Clone)]
pub struct Connection {
    pub source: usize,
    pub source_port: String,
    pub target: usize,
    pub target_port: String,
}

/// One macro-step of the baseline: an App and the Renders that run before it.
#[derive(Debug, Clone)]
pub struct Step {
    pub app: usize,
    pub renders: Vec<usize>,
}

/// How many entries of the sequence are set.
pub open spec fn count_true(s: Seq<bool>) -> nat
    decreases s.len(),
{
    if s.len() == 0 {
        0
    } else {
        count_true(s.drop_last()) + if s.last() {
            1nat
        } else {
            0nat
        }
    }
}

proof fn lemma_count_bound(s: Seq<bool>)
    ensures
        count_true(s) <= s.len(),
    decreases s.len(),
{
    if s.len() > 0 {
        lemma_count_bound(s.drop_last());
    }
}

proof fn lemma_count_set(s: Seq<bool>, i: int)
    requires
        0 <= i < s.len(),
        !s[i],
    ensures
        count_true(s.update(i, true)) == count_true(s) + 1,
    decreases s.len(),
{
    let t = s.update(i, true);
    if i == s.len() - 1 {
        assert(t.drop_last() =~= s.drop_last());
    } else {
        assert(t.drop_last() =~= s.drop_last().update(i, true));
        lemma_count_set(s.drop_last(), i);
    }
}

/// Every connection joins two registered instances and leaves an Extension:
/// only Extensions have outputs.
pub open spec fn connections_ok(classes: Seq<R_E_AClass>, conns: Seq<Connection>) -> bool {
    forall|c: int|
        0 <= c < conns.len() ==> {
            &&& (#[trigger] conns[c]).source < classes.len()
            &&& conns[c].target < classes.len()
            &&& classes[conns[c].source as int] == R_E_AClass::Extension
        }
}

/// The step names registered instances only.
pub open spec fn step_ok(n: nat, step: Step) -> bool {
    &&& step.app < n
    &&& forall|k: int| 0 <= k < step.renders@.len() ==> #[trigger] step.renders@[k] < n
}

/// `x` is within `d` connections upstream of the step's Renders or App,
/// going only through instances that have not run yet.
pub open spec fn reaches(conns: Seq<Connection>, done: Seq<bool>, step: Step, x: usize, d: nat) -> bool
    decreases d,
{
    if d == 0 {
        x == step.app || step.renders@.contains(x)
    } else {
        reaches(conns, done, step, x, (d - 1) as nat) || (!done[x as int] && exists|c: int|
            0 <= c < conns.len() && (#[trigger] conns[c]).source == x && reaches(
                conns,
                done,
                step,
                conns[c].target,
                (d - 1) as nat,
            ))
    }
}

/// The step needs `x`: it is one of the step's Renders or its App, or, not
/// having run yet, it feeds something the step needs.
pub open spec fn step_needs(conns: Seq<Connection>, done: Seq<bool>, step: Step, x: usize) -> bool {
    exists|d: nat| reaches(conns, done, step, x, d)
}

/// A marking that holds the step's Renders and App and is closed upstream
/// through instances not yet run holds everything the step needs.
proof fn lemma_needed_marked(conns: Seq<Connection>, done: Seq<bool>, step: Step, v: Seq<bool>, x: usize, d: nat)
    requires
        v.len() == done.len(),
        x < v.len(),
        forall|c: int| 0 <= c < conns.len() ==> (#[trigger] conns[c]).source < v.len() && conns[c].target < v.len(),
        step.app < v.len() && v[step.app as int],
        forall|k: int| 0 <= k < step.renders@.len() ==> step.renders@[k] < v.len() && v[#[trigger] step.renders@[k] as int],
        forall|c: int|
            0 <= c < conns.len() && v[(#[trigger] conns[c]).target as int] && !done[conns[c].source as int]
                ==> v[conns[c].source as int],
        reaches(conns, done, step, x, d),
    ensures
        v[x as int],
    decreases d,
{
    if d == 0 {
        if x != step.app {
            let k = choose|k: int| 0 <= k < step.renders@.len() && step.renders@[k] == x;
            assert(v[step.renders@[k] as int]);
        }
    } else if reaches(conns, done, step, x, (d - 1) as nat) {
        lemma_needed_marked(conns, done, step, v, x, (d - 1) as nat);
    } else {
        let c = choose|c: int|
            0 <= c < conns.len() && (#[trigger] conns[c]).source == x && reaches(
                conns,
                done,
                step,
                conns[c].target,
                (d - 1) as nat,
            );
        lemma_needed_marked(conns, done, step, v, conns[c].target, (d - 1) as nat);
    }
}

/// Every producer that `x` reads from has either run in an earlier step or
/// stands in `order` before position `before`.
pub open spec fn deps_met(conns: Seq<Connection>, done: Seq<bool>, order: Seq<usize>, x: usize, before: int) -> bool {
    forall|c: int|
        0 <= c < conns.len() && (#[trigger] conns[c]).target == x ==> done[conns[c].source as int]
            || exists|j: int| 0 <= j < before && order[j] == conns[c].source
}

/// `order` lists, once each, exactly the Extensions that the step needs and
/// that have not run yet, each after its producers and each the lowest id
/// ready at its turn, and after it every Render and the App of the step find
/// their producers run.
pub open spec fn valid_order(
    classes: Seq<R_E_AClass>,
    conns: Seq<Connection>,
    done: Seq<bool>,
    step: Step,
    order: Seq<usize>,
) -> bool {
    &&& order.no_duplicates()
    &&& forall|i: int|
        0 <= i < order.len() ==> {
            &&& (#[trigger] order[i]) < classes.len()
            &&& !done[order[i] as int]
            &&& classes[order[i] as int] == R_E_AClass::Extension
            &&& deps_met(conns, done, order, order[i], i)
            &&& step_needs(conns, done, step, order[i])
        }
    &&& forall|x: usize|
        x < classes.len() && #[trigger] step_needs(conns, done, step, x) && !done[x as int] && classes[x as int]
            == R_E_AClass::Extension ==> order.contains(x)
    &&& forall|i: int| 0 <= i < order.len() ==> #[trigger] lowest_ready(classes, conns, done, step, order, i)
    &&& forall|k: int|
        0 <= k < step.renders@.len() ==> deps_met(conns, done, order, #[trigger] step.renders@[k], order.len() as int)
    &&& deps_met(conns, done, order, step.app, order.len() as int)
}

/// Position `i` holds the lowest-id choice: every lower id that the step
/// needs, that has not run and is not placed before `i`, still waits there
/// for a producer.
pub open spec fn lowest_ready(
    classes: Seq<R_E_AClass>,
    conns: Seq<Connection>,
    done: Seq<bool>,
    step: Step,
    order: Seq<usize>,
    i: int,
) -> bool {
    forall|y: usize|
        y < order[i] && #[trigger] step_needs(conns, done, step, y) && !done[y as int] && classes[y as int]
            == R_E_AClass::Extension && (forall|p: int| 0 <= p < i ==> order[p] != y) ==> !deps_met(
            conns,
            done,
            order,
            y,
            i,
        )
}

/// A non-empty set of instances, none run yet, each reading from another of
/// the set: in a finite graph such a set holds a cycle.
pub open spec fn stuck(conns: Seq<Connection>, done: Seq<bool>, nodes: Seq<usize>) -> bool {
    &&& nodes.len() > 0
    &&& forall|i: int|
        0 <= i < nodes.len() ==> {
            &&& (#[trigger] nodes[i]) < done.len()
            &&& !done[nodes[i] as int]
            &&& exists|c: int|
                0 <= c < conns.len() && (#[trigger] conns[c]).target == nodes[i] && nodes.contains(
                    conns[c].source,
                )
        }
}

/// Marks every instance that the step needs: its Renders, its App, and,
/// transitively, each producer that has not run in an earlier step.
fn needed_by(classes: &Vec<R_E_AClass>, conns: &Vec<Connection>, done: &Vec<bool>, step: &Step) -> (r: Vec<bool>)
    requires
        done@.len() == classes@.len(),
        connections_ok(classes@, conns@),
        step_ok(classes@.len() as nat, *step),
    ensures
        r@.len() == classes@.len(),
        r@[step.app as int],
        forall|k: int| 0 <= k < step.renders@.len() ==> r@[#[trigger] step.renders@[k] as int],
        forall|c: int|
            0 <= c < conns@.len() && r@[(#[trigger] conns@[c]).target as int] && !done@[conns@[c].source as int]
                ==> r@[conns@[c].source as int],
        forall|x: int| 0 <= x < r@.len() && #[trigger] r@[x] ==> step_needs(conns@, done@, *step, x as usize),
        forall|x: usize| x < r@.len() && #[trigger] step_needs(conns@, done@, *step, x) ==> r@[x as int],
{
    let n = classes.len();
    let mut needed: Vec<bool> = Vec::new();
    let mut i: usize = 0;
    while i < n
        invariant
            n == classes@.len(),
            i <= n,
            needed@.len() == i,
            forall|k: int| 0 <= k < i ==> !needed@[k],
        decreases n - i,
    {
        needed.push(false);
        i = i + 1;
    }
    proof {
        assert(count_true(needed@) == 0) by {
            lemma_all_false(needed@);
        }
    }
    let mut count: usize = 0;
    let mut k: usize = 0;
    while k < step.renders.len()
        invariant
            n == classes@.len(),
            needed@.len() == n,
            step_ok(n as nat, *step),
            count == count_true(needed@),
            k <= step.renders@.len(),
            forall|q: int| 0 <= q < k ==> needed@[#[trigger] step.renders@[q] as int],
            forall|x: int| 0 <= x < n && #[trigger] needed@[x] ==> step_needs(conns@, done@, *step, x as usize),
        decreases step.renders@.len() - k,
    {
        let x = step.renders[k];
        assert(x < n);
        if !needed[x] {
            proof {
                lemma_count_set(needed@, x as int);
                lemma_count_bound(needed@.update(x as int, true));
                assert(step.renders@[k as int] == x);
                assert(reaches(conns@, done@, *step, x, 0));
            }
            needed.set(x, true);
            count = count + 1;
        }
        k = k + 1;
    }
    if !needed[step.app] {
        proof {
            lemma_count_set(needed@, step.app as int);
            lemma_count_bound(needed@.update(step.app as int, true));
            assert(reaches(conns@, done@, *step, step.app, 0));
        }
        needed.set(step.app, true);
        count = count + 1;
    }
    loop
        invariant
            n == classes@.len(),
            n == done@.len(),
            needed@.len() == n,
            connections_ok(classes@, conns@),
            step_ok(n as nat, *step),
            count == count_true(needed@),
            needed@[step.app as int],
            forall|q: int| 0 <= q < step.renders@.len() ==> needed@[#[trigger] step.renders@[q] as int],
            forall|x: int| 0 <= x < n && #[trigger] needed@[x] ==> step_needs(conns@, done@, *step, x as usize),
        decreases n - count,
    {
        proof {
            lemma_count_bound(needed@);
        }
        let before = count;
        let ghost start = needed@;
        let mut c: usize = 0;
        while c < conns.len()
            invariant
                n == classes@.len(),
                n == done@.len(),
                needed@.len() == n,
                connections_ok(classes@, conns@),
                count == count_true(needed@),
                before <= count,
                c <= conns@.len(),
                start.len() == n,
                forall|q: int| 0 <= q < n && start[q] ==> needed@[q],
                forall|x: int| 0 <= x < n && #[trigger] needed@[x] ==> step_needs(conns@, done@, *step, x as usize),
                count == before ==> forall|d: int|
                    0 <= d < c && needed@[(#[trigger] conns@[d]).target as int]
                        && !done@[conns@[d].source as int] ==> needed@[conns@[d].source as int],
            decreases conns@.len() - c,
        {
            let s = conns[c].source;
            let t = conns[c].target;
            if needed[t] && !done[s] && !needed[s] {
                proof {
                    lemma_count_set(needed@, s as int);
                    lemma_count_bound(needed@.update(s as int, true));
                    assert(step_needs(conns@, done@, *step, t));
                    let d = choose|d: nat| reaches(conns@, done@, *step, t, d);
                    assert(conns@[c as int].source == s);
                    assert(reaches(conns@, done@, *step, s, d + 1));
                }
                needed.set(s, true);
                count = count + 1;
            }
            c = c + 1;
        }
        proof {
            lemma_count_bound(needed@);
        }
        if count == before {
            proof {
                assert forall|x: usize| x < n && #[trigger] step_needs(conns@, done@, *step, x) implies needed@[x as int] by {
                    let d = choose|d: nat| reaches(conns@, done@, *step, x, d);
                    lemma_needed_marked(conns@, done@, *step, needed@, x, d);
                }
            }
            return needed;
        }
    }
}

proof fn lemma_all_false(s: Seq<bool>)
    requires
        forall|k: int| 0 <= k < s.len() ==> !s[k],
    ensures
        count_true(s) == 0,
    decreases s.len(),
{
    if s.len() > 0 {
        lemma_all_false(s.drop_last());
    }
}

/// Whether every producer that `x` reads from has run earlier or is placed.
fn ready(conns: &Vec<Connection>, done: &Vec<bool>, placed: &Vec<bool>, x: usize) -> (r: bool)
    requires
        done@.len() == placed@.len(),
        forall|c: int| 0 <= c < conns@.len() ==> (#[trigger] conns@[c]).source < done@.len(),
    ensures
        r <==> forall|c: int|
            0 <= c < conns@.len() && (#[trigger] conns@[c]).target == x ==> done@[conns@[c].source as int]
                || placed@[conns@[c].source as int],
{
    let mut c: usize = 0;
    while c < conns.len()
        invariant
            done@.len() == placed@.len(),
            forall|d: int| 0 <= d < conns@.len() ==> (#[trigger] conns@[d]).source < done@.len(),
            c <= conns@.len(),
            forall|d: int|
                0 <= d < c && (#[trigger] conns@[d]).target == x ==> done@[conns@[d].source as int]
                    || placed@[conns@[d].source as int],
        decreases conns@.len() - c,
    {
        let s = conns[c].source;
        if conns[c].target == x && !done[s] && !placed[s] {
            return false;
        }
        c = c + 1;
    }
    true
}

/// Orders the Extensions that one baseline step needs, transitively through
/// the connections, leaving out those that ran in an earlier step (`done`).
/// Kahn's algorithm: each round places the ready instance with the lowest
/// id. When instances remain and none is ready, they are returned as a
/// cycle.
#[verifier::rlimit(60)]
pub fn order_step(classes: &Vec<R_E_AClass>, conns: &Vec<Connection>, done: &Vec<bool>, step: &Step) -> (r: Result<Vec<usize>, Error>)
    requires
        done@.len() == classes@.len(),
        connections_ok(classes@, conns@),
        step_ok(classes@.len() as nat, *step),
    ensures
        r is Ok ==> valid_order(classes@, conns@, done@, *step, r->Ok_0@),
        r is Err ==> r->Err_0 is CyclicDependencyError && stuck(conns@, done@, r->Err_0->nodes@),
{
    let n = classes.len();
    let needed = needed_by(classes, conns, done, step);
    let mut placed: Vec<bool> = Vec::new();
    let mut i: usize = 0;
    while i < n
        invariant
            n == classes@.len(),
            i <= n,
            placed@.len() == i,
            forall|k: int| 0 <= k < i ==> !placed@[k],
        decreases n - i,
    {
        placed.push(false);
        i = i + 1;
    }
    proof {
        lemma_all_false(placed@);
    }
    let mut count: usize = 0;
    let mut order: Vec<usize> = Vec::new();
    loop
        invariant
            n == classes@.len(),
            n == done@.len(),
            n == needed@.len(),
            n == placed@.len(),
            connections_ok(classes@, conns@),
            count == count_true(placed@),
            forall|c: int|
                0 <= c < conns@.len() && needed@[(#[trigger] conns@[c]).target as int]
                    && !done@[conns@[c].source as int] ==> needed@[conns@[c].source as int],
            needed@[step.app as int],
            forall|k: int| 0 <= k < step.renders@.len() ==> needed@[#[trigger] step.renders@[k] as int],
            forall|x: int| 0 <= x < n && #[trigger] needed@[x] ==> step_needs(conns@, done@, *step, x as usize),
            forall|x: usize| x < n && #[trigger] step_needs(conns@, done@, *step, x) ==> needed@[x as int],
            step_ok(n as nat, *step),
            order@.no_duplicates(),
            forall|x: int| 0 <= x < n ==> (placed@[x] <==> order@.contains(x as usize)),
            forall|j: int|
                0 <= j < order@.len() ==> {
                    &&& (#[trigger] order@[j]) < n
                    &&& !done@[order@[j] as int]
                    &&& needed@[order@[j] as int]
                    &&& classes@[order@[j] as int] == R_E_AClass::Extension
                    &&& deps_met(conns@, done@, order@, order@[j], j)
                },
            forall|j: int| 0 <= j < order@.len() ==> #[trigger] lowest_ready(classes@, conns@, done@, *step, order@, j),
        decreases n - count,
    {
        proof {
            lemma_count_bound(placed@);
        }
        let mut pick: usize = n;
        let mut pending = false;
        let mut x: usize = 0;
        while pick == n && x < n
            invariant
                n == classes@.len(),
                n == done@.len(),
                n == needed@.len(),
                n == placed@.len(),
                connections_ok(classes@, conns@),
                x <= n,
                pick <= n,
                pick < n ==> pick < x,
                pick < n ==> needed@[pick as int] && !done@[pick as int] && classes@[pick as int]
                    == R_E_AClass::Extension && !placed@[pick as int] && forall|c: int|
                    0 <= c < conns@.len() && (#[trigger] conns@[c]).target == pick
                        ==> done@[conns@[c].source as int] || placed@[conns@[c].source as int],
                pick == n ==> (pending <==> exists|y: int|
                    0 <= y < x && needed@[y] && !done@[y] && classes@[y] == R_E_AClass::Extension
                        && !placed@[y]),
                forall|y: int|
                    0 <= y < x && (pick == n || y < pick) && needed@[y] && !done@[y] && classes@[y]
                        == R_E_AClass::Extension && !placed@[y] ==> exists|c: int|
                        0 <= c < conns@.len() && (#[trigger] conns@[c]).target == y
                            && !done@[conns@[c].source as int] && !placed@[conns@[c].source as int],
            decreases n - x,
        {
            if needed[x] && !done[x] && classes[x] == R_E_AClass::Extension && !placed[x] {
                pending = true;
                if ready(conns, done, &placed, x) {
                    pick = x;
                }
            }
            x = x + 1;
        }
        if pick == n {
            if !pending {
                proof {
                    assert forall|x: usize|
                        x < classes@.len() && #[trigger] step_needs(conns@, done@, *step, x) && !done@[x as int]
                            && classes@[x as int] == R_E_AClass::Extension implies order@.contains(x) by {
                        assert(needed@[x as int]);
                        assert(placed@[x as int]);
                    }
                    assert forall|i: int| 0 <= i < order@.len() implies step_needs(conns@, done@, *step, #[trigger] order@[i]) by {
                        assert(needed@[order@[i] as int]);
                    }
                    assert forall|k: int| 0 <= k < step.renders@.len() implies deps_met(
                        conns@,
                        done@,
                        order@,
                        #[trigger] step.renders@[k],
                        order@.len() as int,
                    ) by {
                        assert forall|c: int|
                            0 <= c < conns@.len() && (#[trigger] conns@[c]).target == step.renders@[k]
                                implies done@[conns@[c].source as int] || exists|j: int|
                            0 <= j < order@.len() && order@[j] == conns@[c].source by {
                            let s = conns@[c].source;
                            if !done@[s as int] {
                                assert(needed@[s as int]);
                                assert(classes@[s as int] == R_E_AClass::Extension);
                                assert(placed@[s as int]);
                                assert(order@.contains(s));
                            }
                        }
                    }
                    assert forall|c: int|
                        0 <= c < conns@.len() && (#[trigger] conns@[c]).target == step.app implies done@[conns@[c].source as int]
                        || exists|j: int| 0 <= j < order@.len() && order@[j] == conns@[c].source by {
                        let s = conns@[c].source;
                        if !done@[s as int] {
                            assert(needed@[s as int]);
                            assert(classes@[s as int] == R_E_AClass::Extension);
                            assert(placed@[s as int]);
                            assert(order@.contains(s));
                        }
                    }
                }
                return Ok(order);
            }
            let mut nodes: Vec<usize> = Vec::new();
            let mut y: usize = 0;
            while y < n
                invariant
                    n == classes@.len(),
                    n == done@.len(),
                    n == needed@.len(),
                    n == placed@.len(),
                    y <= n,
                    forall|k: int|
                        0 <= k < nodes@.len() ==> {
                            &&& (#[trigger] nodes@[k]) < n
                            &&& needed@[nodes@[k] as int]
                            &&& !done@[nodes@[k] as int]
                            &&& classes@[nodes@[k] as int] == R_E_AClass::Extension
                            &&& !placed@[nodes@[k] as int]
                        },
                    forall|z: int|
                        0 <= z < y && needed@[z] && !done@[z] && classes@[z] == R_E_AClass::Extension
                            && !placed@[z] ==> nodes@.contains(z as usize),
                decreases n - y,
            {
                if needed[y] && !done[y] && classes[y] == R_E_AClass::Extension && !placed[y] {
                    let ghost old_nodes = nodes@;
                    nodes.push(y);
                    proof {
                        assert(nodes@[nodes@.len() - 1] == y);
                        assert forall|z: int|
                            0 <= z < y && needed@[z] && !done@[z] && classes@[z] == R_E_AClass::Extension
                                && !placed@[z] implies nodes@.contains(z as usize) by {
                            let k = choose|k: int| 0 <= k < old_nodes.len() && old_nodes[k] == z as usize;
                            assert(nodes@[k] == old_nodes[k]);
                        }
                    }
                }
                y = y + 1;
            }
            proof {
                let w = choose|w: int|
                    0 <= w < n && needed@[w] && !done@[w] && classes@[w] == R_E_AClass::Extension
                        && !placed@[w];
                assert(nodes@.contains(w as usize));
                assert forall|k: int| 0 <= k < nodes@.len() implies {
                    &&& (#[trigger] nodes@[k]) < done@.len()
                    &&& !done@[nodes@[k] as int]
                    &&& exists|c: int|
                        0 <= c < conns@.len() && (#[trigger] conns@[c]).target == nodes@[k]
                            && nodes@.contains(conns@[c].source)
                } by {
                    let v = nodes@[k] as int;
                    let c = choose|c: int|
                        0 <= c < conns@.len() && (#[trigger] conns@[c]).target == v
                            && !done@[conns@[c].source as int] && !placed@[conns@[c].source as int];
                    let s = conns@[c].source as int;
                    assert(needed@[s]);
                    assert(classes@[s] == R_E_AClass::Extension);
                    assert(nodes@.contains(s as usize));
                }
            }
            return Err(Error::CyclicDependencyError { nodes });
        }
        proof {
            lemma_count_set(placed@, pick as int);
            lemma_count_bound(placed@.update(pick as int, true));
            assert(!order@.contains(pick));
        }
        let ghost old_order = order@;
        let ghost old_placed = placed@;
        order.push(pick);
        placed.set(pick, true);
        count = count + 1;
        proof {
            assert forall|j: int| 0 <= j < order@.len() implies #[trigger] lowest_ready(
                classes@,
                conns@,
                done@,
                *step,
                order@,
                j,
            ) by {
                assert forall|y: usize|
                    y < order@[j] && #[trigger] step_needs(conns@, done@, *step, y) && !done@[y as int]
                        && classes@[y as int] == R_E_AClass::Extension && (forall|p: int| 0 <= p < j ==> order@[p] != y)
                        implies !deps_met(conns@, done@, order@, y, j) by {
                    if j < old_order.len() {
                        assert(lowest_ready(classes@, conns@, done@, *step, old_order, j));
                        assert(forall|p: int| 0 <= p < j ==> old_order[p] == order@[p]);
                        assert(old_order[j] == order@[j]);
                        if deps_met(conns@, done@, order@, y, j) {
                            assert forall|c: int|
                                0 <= c < conns@.len() && (#[trigger] conns@[c]).target == y implies done@[conns@[c].source as int]
                                || exists|q: int| 0 <= q < j && old_order[q] == conns@[c].source by {
                                if !done@[conns@[c].source as int] {
                                    let q = choose|q: int| 0 <= q < j && order@[q] == conns@[c].source;
                                    assert(old_order[q] == conns@[c].source);
                                }
                            }
                            assert(deps_met(conns@, done@, old_order, y, j));
                        }
                    } else {
                        assert(y < pick);
                        assert(needed@[y as int]);
                        assert(!old_order.contains(y)) by {
                            if old_order.contains(y) {
                                let q = choose|q: int| 0 <= q < old_order.len() && old_order[q] == y;
                                assert(order@[q] == y);
                            }
                        }
                        assert(!old_placed[y as int]);
                        let yi = y as int;
                        assert(0 <= yi < x && (pick == n || yi < pick) && needed@[yi] && !done@[yi]
                            && classes@[yi] == R_E_AClass::Extension && !old_placed[yi]);
                        let c = choose|c: int|
                            0 <= c < conns@.len() && (#[trigger] conns@[c]).target == yi
                                && !done@[conns@[c].source as int] && !old_placed[conns@[c].source as int];
                        let src = conns@[c].source;
                        assert(!old_order.contains(src));
                        assert forall|q: int| 0 <= q < j implies order@[q] != src by {
                            assert(order@[q] == old_order[q]);
                        }
                    }
                }
            }
            assert forall|x: int| 0 <= x < n implies (placed@[x] <==> order@.contains(x as usize)) by {
                if x == pick {
                    assert(order@[order@.len() - 1] == pick);
                } else {
                    if order@.contains(x as usize) {
                        let j = choose|j: int| 0 <= j < order@.len() && order@[j] == x as usize;
                        assert(j < old_order.len());
                        assert(old_order.contains(x as usize));
                    }
                    if old_order.contains(x as usize) {
                        let j = choose|j: int| 0 <= j < old_order.len() && old_order[j] == x as usize;
                        assert(order@[j] == x as usize);
                    }
                }
            }
            assert forall|j: int| 0 <= j < order@.len() implies deps_met(conns@, done@, order@, #[trigger] order@[j], j) by {
                if j < old_order.len() {
                    assert(deps_met(conns@, done@, old_order, old_order[j], j));
                    assert forall|c: int|
                        0 <= c < conns@.len() && (#[trigger] conns@[c]).target == order@[j] implies done@[conns@[c].source as int]
                        || exists|i: int| 0 <= i < j && order@[i] == conns@[c].source by {
                        if !done@[conns@[c].source as int] {
                            let i = choose|i: int| 0 <= i < j && old_order[i] == conns@[c].source;
                            assert(order@[i] == old_order[i]);
                        }
                    }
                } else {
                    assert forall|c: int|
                        0 <= c < conns@.len() && (#[trigger] conns@[c]).target == order@[j] implies done@[conns@[c].source as int]
                        || exists|i: int| 0 <= i < j && order@[i] == conns@[c].source by {
                        let s = conns@[c].source;
                        if !done@[s as int] {
                            assert(old_placed[s as int]);
                            assert(old_order.contains(s));
                            let i = choose|i: int| 0 <= i < old_order.len() && old_order[i] == s;
                            assert(order@[i] == s);
                        }
                    }
                }
            }
        }
    }
}

/// A step has exactly one valid order: the needed Extensions, each after
/// its producers and each the lowest id ready at its turn, fix it.
pub proof fn lemma_order_unique(
    classes: Seq<R_E_AClass>,
    conns: Seq<Connection>,
    done: Seq<bool>,
    step: Step,
    a: Seq<usize>,
    b: Seq<usize>,
)
    requires
        valid_order(classes, conns, done, step, a),
        valid_order(classes, conns, done, step, b),
    ensures
        a == b,
{
    lemma_order_prefix(classes, conns, done, step, a, b, 0);
}

proof fn lemma_order_prefix(
    classes: Seq<R_E_AClass>,
    conns: Seq<Connection>,
    done: Seq<bool>,
    step: Step,
    a: Seq<usize>,
    b: Seq<usize>,
    i: int,
)
    requires
        valid_order(classes, conns, done, step, a),
        valid_order(classes, conns, done, step, b),
        0 <= i <= a.len(),
        i <= b.len(),
        forall|p: int| 0 <= p < i ==> a[p] == b[p],
    ensures
        a == b,
    decreases a.len() + b.len() - 2 * i,
{
    if i == a.len() && i == b.len() {
        assert(a =~= b);
    } else if i < a.len() && i < b.len() {
        lemma_no_lower_choice(classes, conns, done, step, a, b, i);
        lemma_no_lower_choice(classes, conns, done, step, b, a, i);
        lemma_order_prefix(classes, conns, done, step, a, b, i + 1);
    } else if i < a.len() {
        lemma_same_length(classes, conns, done, step, a, b, i);
    } else {
        lemma_same_length(classes, conns, done, step, b, a, i);
    }
}

/// Where two valid orders agree before `i`, `a[i]` is no lower than `b[i]`.
proof fn lemma_no_lower_choice(
    classes: Seq<R_E_AClass>,
    conns: Seq<Connection>,
    done: Seq<bool>,
    step: Step,
    a: Seq<usize>,
    b: Seq<usize>,
    i: int,
)
    requires
        valid_order(classes, conns, done, step, a),
        valid_order(classes, conns, done, step, b),
        0 <= i < a.len(),
        i < b.len(),
        forall|p: int| 0 <= p < i ==> a[p] == b[p],
    ensures
        a[i] >= b[i],
{
    let y = a[i];
    if y < b[i] {
        assert(lowest_ready(classes, conns, done, step, b, i));
        assert(deps_met(conns, done, a, a[i], i));
        assert forall|p: int| 0 <= p < i implies b[p] != y by {
            assert(a[p] == b[p]);
            assert(a.no_duplicates());
        }
        assert(step_needs(conns, done, step, y));
        assert(deps_met(conns, done, b, y, i)) by {
            assert forall|c: int| 0 <= c < conns.len() && (#[trigger] conns[c]).target == y implies done[conns[c].source as int]
                || exists|q: int| 0 <= q < i && b[q] == conns[c].source by {
                if !done[conns[c].source as int] {
                    let q = choose|q: int| 0 <= q < i && a[q] == conns[c].source;
                    assert(b[q] == a[q]);
                }
            }
        }
    }
}

/// A valid order ends where another that agrees with it up to `i` ends.
proof fn lemma_same_length(
    classes: Seq<R_E_AClass>,
    conns: Seq<Connection>,
    done: Seq<bool>,
    step: Step,
    a: Seq<usize>,
    b: Seq<usize>,
    i: int,
)
    requires
        valid_order(classes, conns, done, step, a),
        valid_order(classes, conns, done, step, b),
        0 <= i <= a.len(),
        i == b.len(),
        forall|p: int| 0 <= p < i ==> a[p] == b[p],
    ensures
        a.len() == i,
{
    if i < a.len() {
        let y = a[i];
        assert(step_needs(conns, done, step, y));
        assert(b.contains(y));
        let q = choose|q: int| 0 <= q < b.len() && b[q] == y;
        assert(a[q] == y);
        assert(a.no_duplicates());
    }
}

} // verus!
