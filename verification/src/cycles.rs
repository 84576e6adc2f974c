//! Dependency cycles among generated files.
use vstd::prelude::*;

verus! {

/// The dependency graph's content: each file with the files it depends on.
pub open spec fn graph_view(graph: Seq<(u32, Vec<u32>)>) -> Seq<(u32, Seq<u32>)> {
    graph.map_values(|e: (u32, Vec<u32>)| (e.0, e.1@))
}

/// Whether file `u` depends on file `v`.
pub open spec fn has_edge(g: Seq<(u32, Seq<u32>)>, u: u32, v: u32) -> bool {
    exists|m: int| 0 <= m < g.len() && g[m].0 == u && g[m].1.contains(v)
}

/// Whether `c` is a dependency cycle: each file depends on the next, and the
/// last on the first.
pub open spec fn is_cycle(g: Seq<(u32, Seq<u32>)>, c: Seq<u32>) -> bool {
    &&& c.len() > 0
    &&& forall|k: int| 0 <= k < c.len() - 1 ==> has_edge(g, #[trigger] c[k], c[k + 1])
    &&& has_edge(g, c.last(), c[0])
}

/// The files of the graph are listed in strictly increasing order.
pub open spec fn keys_increasing(g: Seq<(u32, Seq<u32>)>) -> bool {
    forall|a: int, b: int| 0 <= a < b < g.len() ==> #[trigger] g[a].0 < #[trigger] g[b].0
}

pub open spec fn is_key(g: Seq<(u32, Seq<u32>)>, v: u32) -> bool {
    exists|m: int| 0 <= m < g.len() && g[m].0 == v
}

/// Whether `v` is a file of the graph that the search has finished.
pub open spec fn black_key(g: Seq<(u32, Seq<u32>)>, states: Seq<u8>, v: u32) -> bool {
    exists|m: int| 0 <= m < g.len() && g[m].0 == v && states[m] == 2
}

pub open spec fn count_white(states: Seq<u8>) -> nat
    decreases states.len(),
{
    if states.len() == 0 {
        0
    } else {
        count_white(states.drop_last()) + if states.last() == 0 {
            1nat
        } else {
            0nat
        }
    }
}

proof fn lemma_count_white_mono(a: Seq<u8>, b: Seq<u8>)
    requires
        a.len() == b.len(),
        forall|j: int| 0 <= j < b.len() && b[j] == 0 ==> a[j] == 0,
    ensures
        count_white(b) <= count_white(a),
    decreases a.len(),
{
    if a.len() > 0 {
        lemma_count_white_mono(a.drop_last(), b.drop_last());
    }
}

proof fn lemma_count_white_mark(a: Seq<u8>, i: int, v: u8)
    requires
        0 <= i < a.len(),
        a[i] == 0,
        v != 0,
    ensures
        count_white(a.update(i, v)) < count_white(a),
    decreases a.len(),
{
    let b = a.update(i, v);
    if i == a.len() - 1 {
        assert(b.drop_last() =~= a.drop_last());
    } else {
        assert(b.drop_last() =~= a.drop_last().update(i, v));
        lemma_count_white_mark(a.drop_last(), i, v);
    }
}

/// The invariant of the depth-first search: grey files are exactly those on
/// the stack, which is a dependency path; a finished file depends only on
/// finished files or on files outside the graph; no cycle is all finished.
pub open spec fn search_ok(g: Seq<(u32, Seq<u32>)>, states: Seq<u8>, stack: Seq<usize>) -> bool {
    &&& states.len() == g.len()
    &&& forall|j: int| 0 <= j < states.len() ==> #[trigger] states[j] <= 2
    &&& forall|k: int| 0 <= k < stack.len() ==> #[trigger] stack[k] < g.len() && states[stack[k] as int] == 1
    &&& forall|j: int| 0 <= j < g.len() && #[trigger] states[j] == 1 ==> stack.contains(j as usize)
    &&& stack.no_duplicates()
    &&& forall|k: int|
        0 <= k < stack.len() - 1 ==> has_edge(g, g[#[trigger] stack[k] as int].0, g[stack[k + 1] as int].0)
    &&& forall|j: int, v: u32|
        0 <= j < g.len() && states[j] == 2 && #[trigger] g[j].1.contains(v) ==> !is_key(g, v) || black_key(
            g,
            states,
            v,
        )
    &&& forall|c: Seq<u32>|
        #[trigger] is_cycle(g, c) ==> exists|k: int| 0 <= k < c.len() && !black_key(g, states, c[k])
}

pub open spec fn cycle_view(c: Option<Vec<u32>>) -> Option<Seq<u32>> {
    match c {
        Some(v) => Some(v@),
        None => None,
    }
}

/// The position of file `v` in the graph, if it is one of its files.
pub open spec fn key_position(g: Seq<(u32, Seq<u32>)>, v: u32) -> Option<int> {
    if is_key(g, v) {
        Some(choose|m: int| 0 <= m < g.len() && g[m].0 == v)
    } else {
        None
    }
}

/// The files of the path `stack` from the file at position `i` onwards.
pub open spec fn cycle_from(g: Seq<(u32, Seq<u32>)>, stack: Seq<usize>, i: int) -> Seq<u32> {
    stack.skip(stack.index_of(i as usize)).map_values(|k: usize| g[k as int].0)
}

/// The depth-first search from the file at position `i`: a file already
/// finished gives nothing; a file on the current path `stack` closes the
/// cycle from it; a new file is put on the path, its dependencies are
/// searched in order, and it is finished. The result is the cycle found, if
/// any, and the states afterwards. `fuel` bounds the depth.
#[verifier::opaque]
pub open spec fn dfs_visit(
    g: Seq<(u32, Seq<u32>)>,
    fuel: nat,
    i: int,
    states: Seq<u8>,
    stack: Seq<usize>,
) -> (Option<Seq<u32>>, Seq<u8>)
    decreases fuel, 0int, 0int,
{
    if states[i] == 2 {
        (None, states)
    } else if states[i] == 1 {
        (Some(cycle_from(g, stack, i)), states)
    } else if fuel == 0 {
        (None, states)
    } else {
        let r = dfs_edges(g, (fuel - 1) as nat, i, 0, states.update(i, 1), stack.push(i as usize));
        match r.0 {
            Some(c) => (Some(c), r.1),
            None => (None, r.1.update(i, 2)),
        }
    }
}

/// The search through the dependencies of the file at position `i`, from
/// the `e`-th on, in order; dependencies outside the graph are skipped.
#[verifier::opaque]
pub open spec fn dfs_edges(
    g: Seq<(u32, Seq<u32>)>,
    fuel: nat,
    i: int,
    e: int,
    states: Seq<u8>,
    stack: Seq<usize>,
) -> (Option<Seq<u32>>, Seq<u8>)
    decreases fuel, 1int, g[i].1.len() - e,
{
    if e < 0 || e >= g[i].1.len() {
        (None, states)
    } else {
        match key_position(g, g[i].1[e]) {
            None => dfs_edges(g, fuel, i, e + 1, states, stack),
            Some(m) => {
                let r = dfs_visit(g, fuel, m, states, stack);
                if r.0 is Some {
                    r
                } else {
                    dfs_edges(g, fuel, i, e + 1, r.1, stack)
                }
            },
        }
    }
}

proof fn lemma_visit_seen(g: Seq<(u32, Seq<u32>)>, fuel: nat, i: int, states: Seq<u8>, stack: Seq<usize>)
    ensures
        states[i] == 2 ==> dfs_visit(g, fuel, i, states, stack) == (None::<Seq<u32>>, states),
        states[i] == 1 ==> dfs_visit(g, fuel, i, states, stack) == (Some(cycle_from(g, stack, i)), states),
{
    reveal(dfs_visit);
}

proof fn lemma_visit_fresh(g: Seq<(u32, Seq<u32>)>, fuel: nat, i: int, states: Seq<u8>, stack: Seq<usize>)
    requires
        states[i] == 0,
        fuel > 0,
    ensures
        dfs_visit(g, fuel, i, states, stack) == match dfs_edges(
            g,
            (fuel - 1) as nat,
            i,
            0,
            states.update(i, 1),
            stack.push(i as usize),
        ).0 {
            Some(c) => (Some(c), dfs_edges(g, (fuel - 1) as nat, i, 0, states.update(i, 1), stack.push(i as usize)).1),
            None => (
                None,
                dfs_edges(g, (fuel - 1) as nat, i, 0, states.update(i, 1), stack.push(i as usize)).1.update(i, 2),
            ),
        },
{
    reveal(dfs_visit);
    reveal(dfs_edges);
    let r = dfs_edges(g, (fuel - 1) as nat, i, 0, states.update(i, 1), stack.push(i as usize));
    assert(dfs_visit(g, fuel, i, states, stack) == match r.0 {
        Some(c) => (Some(c), r.1),
        None => (None, r.1.update(i, 2)),
    });
}

proof fn lemma_edges_step(g: Seq<(u32, Seq<u32>)>, fuel: nat, i: int, e: int, states: Seq<u8>, stack: Seq<usize>)
    requires
        0 <= e < g[i].1.len(),
    ensures
        key_position(g, g[i].1[e]) is None ==> dfs_edges(g, fuel, i, e, states, stack) == dfs_edges(
            g,
            fuel,
            i,
            e + 1,
            states,
            stack,
        ),
        key_position(g, g[i].1[e]) matches Some(m) ==> dfs_edges(g, fuel, i, e, states, stack) == if dfs_visit(
            g,
            fuel,
            m,
            states,
            stack,
        ).0 is Some {
            dfs_visit(g, fuel, m, states, stack)
        } else {
            dfs_edges(g, fuel, i, e + 1, dfs_visit(g, fuel, m, states, stack).1, stack)
        },
{
    reveal(dfs_edges);
    reveal(dfs_visit);
}

proof fn lemma_edges_end(g: Seq<(u32, Seq<u32>)>, fuel: nat, i: int, e: int, states: Seq<u8>, stack: Seq<usize>)
    requires
        e >= g[i].1.len(),
    ensures
        dfs_edges(g, fuel, i, e, states, stack) == (None::<Seq<u32>>, states),
{
    reveal(dfs_edges);
}

/// The search started from each file of the graph in turn, from position
/// `i` on, until one finds a cycle.
pub open spec fn dfs_roots(g: Seq<(u32, Seq<u32>)>, i: int, states: Seq<u8>) -> Option<Seq<u32>>
    decreases g.len() - i,
{
    if i < 0 || i >= g.len() {
        None
    } else {
        let r = dfs_visit(g, g.len() as nat, i, states, Seq::empty());
        if r.0 is Some {
            r.0
        } else {
            dfs_roots(g, i + 1, r.1)
        }
    }
}

/// The cycle that a depth-first search in order of file finds first, if
/// any: the search from each file in turn, through its dependencies in the
/// order they are listed.
pub open spec fn first_cycle(g: Seq<(u32, Seq<u32>)>) -> Option<Seq<u32>> {
    dfs_roots(g, 0, Seq::new(g.len(), |j: int| 0u8))
}

proof fn lemma_distinct_bounded(s: Seq<usize>, n: int)
    requires
        0 <= n <= usize::MAX,
        s.no_duplicates(),
        forall|k: int| 0 <= k < s.len() ==> (#[trigger] s[k] as int) < n,
    ensures
        s.len() <= n,
    decreases s.len(),
{
    if s.len() > 0 {
        assert(s[0] as int >= 0);
        assert(n >= 1);
        if s.contains((n - 1) as usize) {
            let p = s.index_of((n - 1) as usize);
            assert(0 <= p < s.len() && s[p] == (n - 1) as usize);
            let t = s.remove(p);
            assert(t.len() == s.len() - 1);
            assert forall|k: int| 0 <= k < t.len() implies (#[trigger] t[k] as int) < n - 1 by {
                if k < p {
                    assert(t[k] == s[k]);
                } else {
                    assert(t[k] == s[k + 1]);
                }
            }
            assert(t.no_duplicates()) by {
                assert forall|a: int, b: int| 0 <= a < t.len() && 0 <= b < t.len() && a != b implies t[a] != t[b] by {
                    let a2 = if a < p { a } else { a + 1 };
                    let b2 = if b < p { b } else { b + 1 };
                    assert(t[a] == s[a2] && t[b] == s[b2]);
                }
            }
            lemma_distinct_bounded(t, n - 1);
            assert(s.len() <= n);
        } else {
            assert forall|k: int| 0 <= k < s.drop_last().len() implies (#[trigger] s.drop_last()[k] as int) < n - 1 by {
                assert(s.drop_last()[k] == s[k]);
                if s[k] as int == n - 1 {
                    assert(s.contains((n - 1) as usize));
                }
            }
            assert(s.last() as int != n - 1) by {
                if s.last() as int == n - 1 {
                    assert(s[s.len() - 1] == (n - 1) as usize);
                }
            }
            assert(s.drop_last().no_duplicates()) by {
                assert forall|a: int, b: int| 0 <= a < s.drop_last().len() && 0 <= b < s.drop_last().len() && a != b
                    implies s.drop_last()[a] != s.drop_last()[b] by {
                    assert(s.drop_last()[a] == s[a] && s.drop_last()[b] == s[b]);
                }
            }
            lemma_distinct_bounded(s.drop_last(), n - 1);
            assert(s.drop_last().len() <= n - 1);
            assert(s.len() <= n);
        }
    }
}

/// The position of file `v` in the graph, if it is one of its files.
fn key_index(graph: &Vec<(u32, Vec<u32>)>, v: u32) -> (result: Option<usize>)
    requires
        keys_increasing(graph_view(graph@)),
    ensures
        result matches Some(m) ==> m < graph@.len() && graph@[m as int].0 == v,
        result is None ==> !is_key(graph_view(graph@), v),
{
    let ghost g = graph_view(graph@);
    let mut m: usize = 0;
    while m < graph.len()
        invariant
            m <= graph@.len(),
            g == graph_view(graph@),
            forall|q: int| 0 <= q < m ==> #[trigger] g[q].0 != v,
        decreases graph.len() - m,
    {
        if graph[m].0 == v {
            return Some(m);
        }
        m += 1;
    }
    None
}

proof fn lemma_key_unique(g: Seq<(u32, Seq<u32>)>, a: int, b: int)
    requires
        keys_increasing(g),
        0 <= a < g.len(),
        0 <= b < g.len(),
        g[a].0 == g[b].0,
    ensures
        a == b,
{
    if a < b {
        assert(g[a].0 < g[b].0);
    } else if b < a {
        assert(g[b].0 < g[a].0);
    }
}

/// The cycle that closes when the search meets file `i` again on the path
/// `stack`: the files of the path from `i` onwards.
fn close_cycle(graph: &Vec<(u32, Vec<u32>)>, i: usize, states: &Vec<u8>, stack: &Vec<usize>) -> (result: Vec<u32>)
    requires
        keys_increasing(graph_view(graph@)),
        i < graph@.len(),
        search_ok(graph_view(graph@), states@, stack@),
        states@[i as int] == 1,
        stack@.len() > 0 ==> has_edge(graph_view(graph@), graph@[stack@.last() as int].0, graph@[i as int].0),
    ensures
        result@ == cycle_from(graph_view(graph@), stack@, i as int),
        is_cycle(graph_view(graph@), result@),
        result@.no_duplicates(),
{
    let ghost g = graph_view(graph@);
    let ghost st = stack@;
    assert(st.contains(i));
    let mut start: usize = 0;
    while start < stack.len() && stack[start] != i
        invariant
            start <= stack@.len(),
            stack@ == st,
            st.contains(i),
            forall|q: int| 0 <= q < start ==> st[q] != i,
        decreases stack.len() - start,
    {
        start += 1;
    }
    let mut cycle: Vec<u32> = Vec::new();
    let mut k: usize = start;
    while k < stack.len()
        invariant
            start <= k <= stack@.len(),
            stack@ == st,
            start < st.len(),
            st[start as int] == i,
            search_ok(g, states@, st),
            g == graph_view(graph@),
            cycle@.len() == k - start,
            forall|q: int| 0 <= q < cycle@.len() ==> #[trigger] cycle@[q] == graph@[st[start + q] as int].0,
        decreases stack.len() - k,
    {
        assert(st[k as int] < graph@.len());
        cycle.push(graph[stack[k]].0);
        k += 1;
    }
    proof {
        let c = cycle@;
        assert forall|q: int| 0 <= q < c.len() - 1 implies has_edge(g, #[trigger] c[q], c[q + 1]) by {
            assert(g[st[start + q] as int].0 == graph@[st[start + q] as int].0);
            assert(g[st[start + q + 1] as int].0 == graph@[st[start + q + 1] as int].0);
        }
        assert(c.last() == graph@[st.last() as int].0);
        assert(c[0] == graph@[i as int].0);
        assert(c.no_duplicates()) by {
            assert forall|a: int, b: int| 0 <= a < c.len() && 0 <= b < c.len() && a != b implies c[a] != c[b] by {
                if c[a] == c[b] {
                    lemma_key_unique(g, st[start + a] as int, st[start + b] as int);
                }
            }
        }
        let idx = st.index_of(i);
        assert(0 <= idx < st.len() && st[idx] == i);
        assert(idx == start) by {
            if idx < start {
            } else if idx > start {
                assert(st.no_duplicates());
            }
        }
        assert(c =~= cycle_from(g, st, i as int));
    }
    cycle
}

/// Visits file `i` depth first; returns a cycle through the files on the
/// stack when it meets a grey file.
#[verifier::rlimit(100)]
#[verifier::spinoff_prover]
fn visit(graph: &Vec<(u32, Vec<u32>)>, i: usize, states: &mut Vec<u8>, stack: &mut Vec<usize>) -> (result:
    Option<Vec<u32>>)
    requires
        keys_increasing(graph_view(graph@)),
        i < graph@.len(),
        search_ok(graph_view(graph@), old(states)@, old(stack)@),
        old(stack)@.len() > 0 ==> has_edge(
            graph_view(graph@),
            graph@[old(stack)@.last() as int].0,
            graph@[i as int].0,
        ),
    ensures
        cycle_view(result) == dfs_visit(
            graph_view(graph@),
            (graph@.len() - old(stack)@.len()) as nat,
            i as int,
            old(states)@,
            old(stack)@,
        ).0,
        result is None ==> final(states)@ == dfs_visit(
            graph_view(graph@),
            (graph@.len() - old(stack)@.len()) as nat,
            i as int,
            old(states)@,
            old(stack)@,
        ).1,
        result matches Some(c) ==> is_cycle(graph_view(graph@), c@) && c@.no_duplicates(),
        result is None ==> {
            &&& search_ok(graph_view(graph@), final(states)@, final(stack)@)
            &&& final(stack)@ == old(stack)@
            &&& final(states)@.len() == old(states)@.len()
            &&& final(states)@[i as int] == 2
            &&& forall|j: int| 0 <= j < old(states)@.len() && old(states)@[j] == 2 ==> final(states)@[j] == 2
            &&& forall|j: int| 0 <= j < old(states)@.len() ==> (final(states)@[j] == 1 <==> old(states)@[j] == 1)
            &&& forall|j: int| 0 <= j < old(states)@.len() && final(states)@[j] == 0 ==> old(states)@[j] == 0
        },
    decreases count_white(old(states)@), if old(states)@[i as int] == 0 { 1int } else { 0int },
{
    let ghost g = graph_view(graph@);
    if states[i] == 2 {
        proof {
            lemma_visit_seen(g, (graph@.len() - stack@.len()) as nat, i as int, states@, stack@);
        }
        return None;
    }
    if states[i] == 1 {
        let cycle = close_cycle(graph, i, states, stack);
        proof {
            lemma_visit_seen(g, (graph@.len() - stack@.len()) as nat, i as int, states@, stack@);
        }
        return Some(cycle);
    }
    let ghost before_states = states@;
    let ghost before_stack = stack@;
    states.set(i, 1);
    stack.push(i);
    proof {
        lemma_count_white_mark(before_states, i as int, 1);
        assert(search_ok(g, states@, stack@)) by {
            assert forall|j: int| 0 <= j < g.len() && #[trigger] states@[j] == 1 implies stack@.contains(j as usize) by {
                if j != i {
                    assert(before_stack.contains(j as usize));
                    let q = before_stack.index_of(j as usize);
                    assert(stack@[q] == j as usize);
                } else {
                    assert(stack@[stack@.len() - 1] == i);
                }
            }
            assert forall|k: int| 0 <= k < stack@.len() implies #[trigger] stack@[k] < g.len() && states@[stack@[k] as int] == 1 by {
                if k < before_stack.len() {
                    assert(stack@[k] == before_stack[k]);
                }
            }
            assert(stack@.no_duplicates()) by {
                assert forall|a: int, b: int| 0 <= a < stack@.len() && 0 <= b < stack@.len() && a != b implies stack@[a] != stack@[b] by {
                    if a < before_stack.len() && b < before_stack.len() {
                    } else if a < before_stack.len() {
                        assert(before_states[before_stack[a] as int] == 1);
                    } else {
                        assert(before_states[before_stack[b] as int] == 1);
                    }
                }
            }
            assert forall|k: int| 0 <= k < stack@.len() - 1 implies has_edge(
                g,
                g[#[trigger] stack@[k] as int].0,
                g[stack@[k + 1] as int].0,
            ) by {
                if k < before_stack.len() - 1 {
                    assert(stack@[k] == before_stack[k] && stack@[k + 1] == before_stack[k + 1]);
                } else {
                    assert(stack@[k] == before_stack.last());
                    assert(stack@[k + 1] == i);
                    assert(g[i as int].0 == graph@[i as int].0);
                    assert(g[before_stack.last() as int].0 == graph@[before_stack.last() as int].0);
                }
            }
            assert forall|j: int, v: u32|
                0 <= j < g.len() && states@[j] == 2 && #[trigger] g[j].1.contains(v) implies !is_key(g, v)
                    || black_key(g, states@, v) by {
                assert(before_states[j] == 2);
                if black_key(g, before_states, v) {
                    let m = choose|m: int| 0 <= m < g.len() && g[m].0 == v && before_states[m] == 2;
                    assert(states@[m] == 2);
                }
            }
            assert forall|c: Seq<u32>| #[trigger] is_cycle(g, c) implies exists|k: int|
                0 <= k < c.len() && !black_key(g, states@, c[k]) by {
                let k = choose|k: int| 0 <= k < c.len() && !black_key(g, before_states, c[k]);
                if black_key(g, states@, c[k]) {
                    let m = choose|m: int| 0 <= m < g.len() && g[m].0 == c[k] && states@[m] == 2;
                    assert(before_states[m] == 2);
                }
            }
        }
    }
    let ghost grey_states = states@;
    let ghost grey_stack = stack@;
    let ghost f1: nat = (graph@.len() - grey_stack.len()) as nat;
    let ghost target = dfs_edges(g, f1, i as int, 0, grey_states, grey_stack);
    let glen = graph.len();
    let successors = &graph[i].1;
    let ghost succ = successors@;
    proof {
        assert(g[i as int].1 == succ);
        assert forall|k: int| 0 <= k < grey_stack.len() implies (#[trigger] grey_stack[k] as int) < g.len() by {}
        lemma_distinct_bounded(grey_stack, g.len() as int);
        assert(grey_states =~= before_states.update(i as int, 1));
        assert(dfs_visit(g, (graph@.len() - before_stack.len()) as nat, i as int, before_states, before_stack) == match target.0 {
            Some(c) => (Some(c), target.1),
            None => (None, target.1.update(i as int, 2)),
        }) by {
            assert(g.len() == glen);
            assert(before_states[i as int] <= 2);
            assert(before_states[i as int] == 0);
            assert(grey_stack.len() == before_stack.len() + 1);
            assert(graph@.len() - before_stack.len() > 0);
            assert(grey_stack =~= before_stack.push(i));
            lemma_visit_fresh(g, (graph@.len() - before_stack.len()) as nat, i as int, before_states, before_stack);
        }
    }
    let mut e: usize = 0;
    while e < successors.len()
        invariant
            keys_increasing(g),
            g == graph_view(graph@),
            i < g.len(),
            succ == g[i as int].1,
            succ == successors@,
            e <= succ.len(),
            search_ok(g, states@, stack@),
            stack@ == grey_stack,
            grey_stack == before_stack.push(i),
            states@.len() == before_states.len(),
            states@[i as int] == 1,
            forall|j: int| 0 <= j < before_states.len() && before_states[j] == 2 ==> states@[j] == 2,
            forall|j: int| 0 <= j < before_states.len() ==> (states@[j] == 1 <==> grey_states[j] == 1),
            forall|j: int| 0 <= j < before_states.len() && states@[j] == 0 ==> before_states[j] == 0,
            forall|j: int| 0 <= j < grey_states.len() && states@[j] == 0 ==> grey_states[j] == 0,
            grey_states.len() == before_states.len(),
            before_states == old(states)@,
            before_states[i as int] == 0,
            forall|j: int| 0 <= j < grey_states.len() && j != i ==> grey_states[j] == before_states[j],
            grey_states[i as int] == 1,
            count_white(grey_states) < count_white(before_states),
            forall|q: int| 0 <= q < e ==> !is_key(g, #[trigger] succ[q]) || black_key(g, states@, succ[q]),
            f1 == graph@.len() - grey_stack.len(),
            dfs_edges(g, f1, i as int, e as int, states@, grey_stack) == target,
            before_stack == old(stack)@,
            dfs_visit(g, (graph@.len() - before_stack.len()) as nat, i as int, before_states, before_stack)
                == match target.0 {
                Some(c) => (Some(c), target.1),
                None => (None, target.1.update(i as int, 2)),
            },
        decreases succ.len() - e,
    {
        let v = successors[e];
        let ghost at_e = states@;
        match key_index(graph, v) {
            None => {
                proof {
                    assert(key_position(g, succ[e as int]) is None);
                    assert(dfs_edges(g, f1, i as int, e as int, at_e, grey_stack) == dfs_edges(
                        g,
                        f1,
                        i as int,
                        e + 1,
                        at_e,
                        grey_stack,
                    )) by {
                        lemma_edges_step(g, f1, i as int, e as int, at_e, grey_stack);
                    }
                }
            },
            Some(m) => {
                proof {
                    assert(is_key(g, v)) by {
                        assert(g[m as int].0 == graph@[m as int].0);
                    }
                    let chosen = choose|w: int| 0 <= w < g.len() && g[w].0 == v;
                    assert(g[m as int].0 == graph@[m as int].0);
                    lemma_key_unique(g, chosen, m as int);
                    assert(key_position(g, succ[e as int]) == Some(m as int));
                }
                proof {
                    assert(g[i as int].0 == graph@[i as int].0);
                    assert(g[m as int].0 == v);
                    assert(succ.contains(v));
                    assert(has_edge(g, graph@[i as int].0, graph@[m as int].0));
                    assert(stack@.last() == i);
                    lemma_count_white_mono(grey_states, states@);
                    assert(count_white(states@) < count_white(old(states)@));
                }
                let ghost mid = states@;
                let found = visit(graph, m, states, stack);
                if found.is_some() {
                    proof {
                        assert(dfs_edges(g, f1, i as int, e as int, at_e, grey_stack) == dfs_visit(
                            g,
                            f1,
                            m as int,
                            at_e,
                            grey_stack,
                        )) by {
                            assert(0 <= e < g[i as int].1.len());
                            assert(g[i as int].1[e as int] == v);
                            assert(key_position(g, v) == Some(m as int));
                            assert(dfs_visit(g, f1, m as int, at_e, grey_stack).0 is Some);
                            lemma_edges_step(g, f1, i as int, e as int, at_e, grey_stack);
                        }
                    }
                    return found;
                }
                proof {
                    assert(dfs_edges(g, f1, i as int, e as int, at_e, grey_stack) == dfs_edges(
                        g,
                        f1,
                        i as int,
                        e + 1,
                        states@,
                        grey_stack,
                    )) by {
                        assert(0 <= e < g[i as int].1.len());
                        assert(g[i as int].1[e as int] == v);
                        assert(key_position(g, v) == Some(m as int));
                        assert(dfs_visit(g, f1, m as int, at_e, grey_stack).0 is None);
                        assert(dfs_visit(g, f1, m as int, at_e, grey_stack).1 == states@);
                        lemma_edges_step(g, f1, i as int, e as int, at_e, grey_stack);
                    }
                    assert(black_key(g, states@, v)) by {
                        assert(states@[m as int] == 2);
                    }
                    assert forall|q: int| 0 <= q < e implies !is_key(g, #[trigger] succ[q]) || black_key(g, states@, succ[q]) by {
                        if is_key(g, succ[q]) {
                            let w = choose|w: int| 0 <= w < g.len() && g[w].0 == succ[q] && mid[w] == 2;
                            assert(states@[w] == 2);
                        }
                    }
                }
            },
        }
        proof {
            assert forall|q: int| 0 <= q < e + 1 implies !is_key(g, #[trigger] succ[q]) || black_key(g, states@, succ[q]) by {
                if q == e {
                    if is_key(g, v) {
                        let w = choose|w: int| 0 <= w < g.len() && g[w].0 == v;
                        assert(w < graph@.len() && graph@[w].0 == v);
                    }
                }
            }
        }
        e += 1;
    }
    let ghost done_states = states@;
    stack.pop();
    states.set(i, 2);
    proof {
        assert(target == (None::<Seq<u32>>, done_states)) by {
            lemma_edges_end(g, f1, i as int, e as int, done_states, grey_stack);
        }
        assert(stack@ =~= before_stack);
        assert forall|q: int| 0 <= q < succ.len() implies !is_key(g, #[trigger] succ[q]) || black_key(g, done_states, succ[q]) by {}
        assert(!succ.contains(g[i as int].0)) by {
            if succ.contains(g[i as int].0) {
                let q = succ.index_of(g[i as int].0);
                assert(is_key(g, succ[q]));
                let w = choose|w: int| 0 <= w < g.len() && g[w].0 == succ[q] && done_states[w] == 2;
                lemma_key_unique(g, w, i as int);
            }
        }
        assert(search_ok(g, states@, stack@)) by {
            assert forall|j: int| 0 <= j < g.len() && #[trigger] states@[j] == 1 implies stack@.contains(j as usize) by {
                assert(j != i);
                assert(done_states[j] == 1);
                assert(grey_stack.contains(j as usize));
                let q = grey_stack.index_of(j as usize);
                assert(grey_stack[q] == j as usize);
                assert(grey_stack[grey_stack.len() - 1] == i);
                assert(j < states@.len());
                assert(states@.len() == states.len());
                assert((j as usize) as int == j);
                assert((j as usize) != i);
                assert(q != grey_stack.len() - 1);
                assert(stack@[q] == grey_stack[q]);
            }
            assert forall|k: int| 0 <= k < stack@.len() implies #[trigger] stack@[k] < g.len() && states@[stack@[k] as int] == 1 by {
                assert(stack@[k] == grey_stack[k]);
                assert(grey_stack.no_duplicates());
                assert(grey_stack[grey_stack.len() - 1] == i);
                assert(stack@[k] != i);
            }
            assert(stack@.no_duplicates()) by {
                assert forall|a: int, b: int| 0 <= a < stack@.len() && 0 <= b < stack@.len() && a != b implies stack@[a] != stack@[b] by {
                    assert(stack@[a] == grey_stack[a] && stack@[b] == grey_stack[b]);
                }
            }
            assert forall|k: int| 0 <= k < stack@.len() - 1 implies has_edge(
                g,
                g[#[trigger] stack@[k] as int].0,
                g[stack@[k + 1] as int].0,
            ) by {
                assert(stack@[k] == grey_stack[k] && stack@[k + 1] == grey_stack[k + 1]);
            }
            assert forall|j: int, v: u32|
                0 <= j < g.len() && states@[j] == 2 && #[trigger] g[j].1.contains(v) implies !is_key(g, v)
                    || black_key(g, states@, v) by {
                if j == i {
                    let q = succ.index_of(v);
                    if is_key(g, v) {
                        let w = choose|w: int| 0 <= w < g.len() && g[w].0 == succ[q] && done_states[w] == 2;
                        assert(states@[w] == 2);
                    }
                } else {
                    assert(done_states[j] == 2);
                    if black_key(g, done_states, v) {
                        let w = choose|w: int| 0 <= w < g.len() && g[w].0 == v && done_states[w] == 2;
                        assert(states@[w] == 2);
                    }
                }
            }
            assert forall|c: Seq<u32>| #[trigger] is_cycle(g, c) implies exists|k: int|
                0 <= k < c.len() && !black_key(g, states@, c[k]) by {
                if forall|k: int| 0 <= k < c.len() ==> black_key(g, states@, c[k]) {
                    if exists|k: int| 0 <= k < c.len() && c[k] == g[i as int].0 {
                        let k = choose|k: int| 0 <= k < c.len() && c[k] == g[i as int].0;
                        let p = if k > 0 { k - 1 } else { c.len() - 1 };
                        assert(has_edge(g, c[p], c[k]));
                        let m = choose|m: int| 0 <= m < g.len() && g[m].0 == c[p] && g[m].1.contains(c[k]);
                        assert(black_key(g, states@, c[p]));
                        let w = choose|w: int| 0 <= w < g.len() && g[w].0 == c[p] && states@[w] == 2;
                        lemma_key_unique(g, m, w);
                        if m == i {
                            assert(succ.contains(g[i as int].0));
                        } else {
                            assert(done_states[m] == 2);
                            assert(is_key(g, c[k]));
                            assert(black_key(g, done_states, c[k]));
                            let z = choose|z: int| 0 <= z < g.len() && g[z].0 == c[k] && done_states[z] == 2;
                            lemma_key_unique(g, z, i as int);
                        }
                    } else {
                        let k = choose|k: int| 0 <= k < c.len() && !black_key(g, done_states, c[k]);
                        assert(black_key(g, states@, c[k]));
                        let w = choose|w: int| 0 <= w < g.len() && g[w].0 == c[k] && states@[w] == 2;
                        assert(w != i);
                        assert(done_states[w] == 2);
                    }
                }
            }
        }
    }
    None
}

/// The dependency cycle among the files of `graph` that a depth-first
/// search in order of file meets first ([`first_cycle`]), or `None` when the
/// files depend on each other without a cycle.
pub fn find_file_cycle(graph: &Vec<(u32, Vec<u32>)>) -> (result: Option<Vec<u32>>)
    requires
        keys_increasing(graph_view(graph@)),
    ensures
        result matches Some(c) ==> is_cycle(graph_view(graph@), c@) && c@.no_duplicates(),
        result is None ==> forall|c: Seq<u32>| !is_cycle(graph_view(graph@), c),
        cycle_view(result) == first_cycle(graph_view(graph@)),
{
    let ghost g = graph_view(graph@);
    let mut states: Vec<u8> = Vec::new();
    while states.len() < graph.len()
        invariant
            states@.len() <= graph@.len(),
            forall|j: int| 0 <= j < states@.len() ==> states@[j] == 0,
        decreases graph.len() - states.len(),
    {
        states.push(0);
    }
    let mut stack: Vec<usize> = Vec::new();
    proof {
        assert(states@ =~= Seq::new(g.len(), |j: int| 0u8));
        assert forall|c: Seq<u32>| #[trigger] is_cycle(g, c) implies exists|k: int|
            0 <= k < c.len() && !black_key(g, states@, c[k]) by {
            assert(!black_key(g, states@, c[0]));
        }
    }
    let mut i: usize = 0;
    while i < graph.len()
        invariant
            keys_increasing(g),
            g == graph_view(graph@),
            i <= graph@.len(),
            stack@ == Seq::<usize>::empty(),
            search_ok(g, states@, stack@),
            forall|j: int| 0 <= j < i ==> states@[j] == 2,
            dfs_roots(g, i as int, states@) == first_cycle(g),
        decreases graph.len() - i,
    {
        let ghost at_i = states@;
        let found = visit(graph, i, &mut states, &mut stack);
        if found.is_some() {
            return found;
        }
        i += 1;
    }
    proof {
        assert forall|c: Seq<u32>| !is_cycle(g, c) by {
            if is_cycle(g, c) {
                let k = choose|k: int| 0 <= k < c.len() && !black_key(g, states@, c[k]);
                let next = if k < c.len() - 1 { k + 1 } else { 0 };
                assert(has_edge(g, c[k], c[next]));
                let m = choose|m: int| 0 <= m < g.len() && g[m].0 == c[k] && g[m].1.contains(c[next]);
                assert(states@[m] == 2);
            }
        }
    }
    None
}

} // verus!
