//! Search for a cycle in a graph whose nodes are strings.

use vstd::prelude::*;

use crate::order;
use crate::strmap::{StringMap, StringSet};
use crate::text::str_eq;

verus! {

/// The edges of a graph.
pub type Graph = Set<(Seq<char>, Seq<char>)>;

/// The node at a place has an edge to the one behind it.
pub open spec fn step(g: Graph, p: Seq<Seq<char>>, i: int) -> bool {
    g.contains((p[i], p[i + 1]))
}

/// Each node has an edge to the next.
pub open spec fn walk(g: Graph, p: Seq<Seq<char>>) -> bool {
    forall|i: int| 0 <= i < p.len() - 1 ==> #[trigger] step(g, p, i)
}

/// A walk that runs into itself: its last node is an earlier one, and no node before it is repeated.
pub open spec fn runs_into_itself(g: Graph, p: Seq<Seq<char>>) -> bool {
    &&& p.len() >= 2
    &&& walk(g, p)
    &&& p.drop_last().no_duplicates()
    &&& p.drop_last().contains(p.last())
}

/// A walk that comes back to its first node.
pub open spec fn cycle(g: Graph, p: Seq<Seq<char>>) -> bool {
    &&& p.len() >= 2
    &&& walk(g, p)
    &&& p[0] == p.last()
}

/// Two sequences differ first at a place where the one has the string that comes first.
pub open spec fn path_less(p: Seq<Seq<char>>, q: Seq<Seq<char>>) -> bool {
    exists|k: int|
        {
            &&& 0 <= k < p.len()
            &&& k < q.len()
            &&& p.take(k) == q.take(k)
            &&& order::text_less(#[trigger] p[k], q[k])
        }
}

/// The first walk, in the order of strings, that runs into itself and begins with `head`.
pub open spec fn first_with(g: Graph, head: Seq<Seq<char>>, p: Seq<Seq<char>>) -> bool {
    &&& runs_into_itself(g, p)
    &&& p.len() >= head.len()
    &&& p.take(head.len() as int) == head
    &&& forall|q: Seq<Seq<char>>| #[trigger]
        runs_into_itself(g, q) && q.len() >= head.len() && q.take(head.len() as int) == head ==> q
            == p || path_less(p, q)
}

/// The first walk, in the order of strings, that runs into itself.
pub open spec fn first_cycle(g: Graph, p: Seq<Seq<char>>) -> bool {
    &&& runs_into_itself(g, p)
    &&& forall|q: Seq<Seq<char>>| #[trigger] runs_into_itself(g, q) ==> q == p || path_less(p, q)
}

/// The graph of an adjacency map.
pub open spec fn graph_of(edges: Map<Seq<char>, StringSet>) -> Graph {
    Set::new(
        |e: (Seq<char>, Seq<char>)| edges.contains_key(e.0) && edges[e.0]@.contains(e.1),
    )
}

/// No walk that runs into itself begins at the node.
spec fn dead(g: Graph, x: Seq<char>) -> bool {
    forall|p: Seq<Seq<char>>| #[trigger] runs_into_itself(g, p) ==> p[0] != x
}

/// A walk that runs into itself does not pass any dead node.
proof fn lemma_dead_is_not_passed(g: Graph, p: Seq<Seq<char>>, i: int)
    requires
        runs_into_itself(g, p),
        0 <= i < p.len(),
    ensures
        !dead(g, p[i]),
{
    let n = p.len() - 1;
    let front = p.drop_last();
    let j = choose|j: int| 0 <= j < front.len() && front[j] == p.last();
    assert(front[j] == p[j]);
    let at = if i == n {
        j
    } else {
        i
    };
    assert(p[at] == p[i]);
    if at <= j {
        // From the node on, the walk still runs into itself.
        let q = p.skip(at);
        assert(q.len() >= 2);
        assert forall|k: int| 0 <= k < q.len() - 1 implies #[trigger] step(g, q, k) by {
            assert(step(g, p, at + k));
            assert(q[k] == p[at + k]);
            assert(q[k + 1] == p[at + k + 1]);
        }
        assert(q.drop_last() =~= front.skip(at));
        assert forall|a: int, b: int|
            0 <= a < q.drop_last().len() && 0 <= b < q.drop_last().len() && a
                != b implies q.drop_last()[a] != q.drop_last()[b] by {
            assert(q.drop_last()[a] == front[at + a]);
            assert(q.drop_last()[b] == front[at + b]);
        }
        assert(q.drop_last()[j - at] == q.last());
        assert(runs_into_itself(g, q));
        assert(q[0] == p[i]);
    } else {
        // The node lies on the cycle: go on to its end, then from its begin to the node again.
        let tail = p.subrange(at, n as int);
        let head = p.subrange(j, at + 1);
        let q = tail + head;
        assert(q.last() == p[at]);
        assert forall|k: int| 0 <= k < q.len() - 1 implies #[trigger] step(g, q, k) by {
            if k < tail.len() - 1 {
                assert(step(g, p, at + k));
                assert(q[k] == p[at + k]);
                assert(q[k + 1] == p[at + k + 1]);
            } else if k == tail.len() - 1 {
                assert(step(g, p, n - 1));
                assert(q[k] == p[n - 1]);
                assert(q[k + 1] == p[j]);
                assert(p[n - 1 + 1] == p.last());
            } else {
                let m = k - tail.len();
                assert(step(g, p, j + m));
                assert(q[k] == p[j + m]);
                assert(q[k + 1] == p[j + m + 1]);
            }
        }
        let body = q.drop_last();
        assert forall|a: int, b: int|
            0 <= a < body.len() && 0 <= b < body.len() && a != b implies body[a] != body[b] by {
            let x = if a < tail.len() {
                at + a
            } else {
                j + a - tail.len()
            };
            let y = if b < tail.len() {
                at + b
            } else {
                j + b - tail.len()
            };
            assert(body[a] == front[x]);
            assert(body[b] == front[y]);
            assert(x != y);
        }
        assert(body[0] == p[at]);
        assert(runs_into_itself(g, q));
        assert(q[0] == p[i]);
    }
}

/// The nodes of a graph: a finite set that holds the ends of every edge.
spec fn covers(nodes: Set<Seq<char>>, g: Graph) -> bool {
    &&& nodes.finite()
    &&& forall|e: (Seq<char>, Seq<char>)| #[trigger]
        g.contains(e) ==> nodes.contains(e.0) && nodes.contains(e.1)
}

/// A path of distinct nodes is no longer than there are nodes.
proof fn lemma_path_bound(nodes: Set<Seq<char>>, p: Seq<Seq<char>>)
    requires
        nodes.finite(),
        p.no_duplicates(),
        forall|i: int| 0 <= i < p.len() ==> nodes.contains(#[trigger] p[i]),
    ensures
        p.len() <= nodes.len(),
{
    p.unique_seq_to_set();
    assert(p.to_set().subset_of(nodes)) by {
        assert forall|x: Seq<char>| p.to_set().contains(x) implies nodes.contains(x) by {
            let i = choose|i: int| 0 <= i < p.len() && p[i] == x;
            assert(nodes.contains(p[i]));
        }
    }
    vstd::set_lib::lemma_len_subset(p.to_set(), nodes);
}

fn on_stack(stack: &Vec<String>, node: &str) -> (r: bool)
    ensures
        r == stack.deep_view().contains(node@),
{
    for i in 0..stack.len()
        invariant
            forall|k: int| 0 <= k < i ==> stack.deep_view()[k] != node@,
    {
        if str_eq(stack[i].as_str(), node) {
            proof {
                assert(stack.deep_view()[i as int] == node@);
            }
            return true;
        }
    }
    false
}

/// Looks for the first walk that goes on from the stack to the node and runs into itself. Finished
/// nodes are dead.
fn search(
    node: &String,
    edges: &StringMap<StringSet>,
    finished: &mut StringSet,
    stack: &mut Vec<String>,
    nodes: Ghost<Set<Seq<char>>>,
) -> (found: bool)
    requires
        covers(nodes@, graph_of(edges@)),
        nodes@.contains(node@),
        walk(graph_of(edges@), old(stack).deep_view().push(node@)),
        old(stack).deep_view().no_duplicates(),
        forall|i: int|
            0 <= i < old(stack)@.len() ==> nodes@.contains(#[trigger] old(stack).deep_view()[i]),
        forall|x: Seq<char>| #[trigger] old(finished)@.contains(x) ==> dead(graph_of(edges@), x),
    ensures
        forall|x: Seq<char>| #[trigger] final(finished)@.contains(x) ==> dead(graph_of(edges@), x),
        found ==> first_with(
            graph_of(edges@),
            old(stack).deep_view().push(node@),
            final(stack).deep_view(),
        ),
        !found ==> dead(graph_of(edges@), node@) && final(stack).deep_view() == old(
            stack,
        ).deep_view(),
    decreases nodes@.len() - old(stack)@.len(),
{
    let ghost g = graph_of(edges@);
    let ghost before = stack.deep_view();
    let ghost head = before.push(node@);
    if on_stack(stack, node.as_str()) {
        stack.push(node.clone());
        proof {
            let p = stack.deep_view();
            assert(p =~= head);
            assert(p.drop_last() =~= before);
            assert(head.take(head.len() as int) =~= head);
            let j = choose|j: int| 0 <= j < before.len() && before[j] == node@;
            assert forall|q: Seq<Seq<char>>| #[trigger]
                runs_into_itself(g, q) && q.len() >= head.len() && q.take(head.len() as int)
                    == head implies q == p || path_less(p, q) by {
                if q.len() > head.len() {
                    let body = q.drop_last();
                    assert(body[j] == q.take(head.len() as int)[j]);
                    assert(body[head.len() - 1] == q.take(head.len() as int)[head.len() - 1]);
                    assert(body[j] == body[head.len() - 1]);
                }
                assert(q =~= q.take(head.len() as int));
            }
        }
        return true;
    }
    if finished.contains(node.as_str()) {
        return false;
    }
    stack.push(node.clone());
    proof {
        assert(stack.deep_view() =~= head);
        assert forall|i: int| 0 <= i < head.len() implies nodes@.contains(#[trigger] head[i]) by {
            if i < before.len() {
                assert(head[i] == before[i]);
            }
        }
        lemma_path_bound(nodes@, head);
    }
    if let Some(next) = edges.get(node.as_str()) {
        let n = next.len();
        let ghost children = next.items();
        let mut i: usize = 0;
        while i < n
            invariant
                g == graph_of(edges@),
                covers(nodes@, g),
                edges@.contains_key(node@),
                *next == edges@[node@],
                n == children.len(),
                children == next.items(),
                order::lists_in_order(children, next@),
                i <= n,
                head == before.push(node@),
                stack.deep_view() == head,
                stack@.len() == head.len(),
                head.no_duplicates(),
                walk(g, head),
                head.len() == before.len() + 1,
                head.len() <= nodes@.len(),
                before == old(stack).deep_view(),
                before.len() == old(stack)@.len(),
                forall|k: int| 0 <= k < head.len() ==> nodes@.contains(#[trigger] head[k]),
                forall|x: Seq<char>| #[trigger] finished@.contains(x) ==> dead(g, x),
                forall|k: int| 0 <= k < i ==> dead(g, #[trigger] children[k]),
            decreases n - i,
        {
            let child = next.at(i);
            proof {
                assert(g.contains((node@, child@)));
                let longer = head.push(child@);
                assert forall|k: int| 0 <= k < longer.len() - 1 implies #[trigger] step(
                    g,
                    longer,
                    k,
                ) by {
                    if k < head.len() - 1 {
                        assert(step(g, head, k));
                        assert(longer[k] == head[k] && longer[k + 1] == head[k + 1]);
                    } else {
                        assert(longer[k] == node@ && longer[k + 1] == child@);
                    }
                }
            }
            if search(child, edges, finished, stack, nodes) {
                proof {
                    let p = stack.deep_view();
                    lemma_first_through_child(g, head, children, i as int, next@, p);
                }
                return true;
            }
            i += 1;
        }
        proof {
            assert forall|p: Seq<Seq<char>>| #[trigger] runs_into_itself(g, p) implies p[0]
                != node@ by {
                if p[0] == node@ {
                    assert(step(g, p, 0));
                    assert(next@.contains(p[1]));
                    assert(children.contains(p[1]));
                    let k = choose|k: int| 0 <= k < children.len() && children[k] == p[1];
                    assert(dead(g, children[k]));
                    lemma_dead_is_not_passed(g, p, 1);
                }
            }
        }
    } else {
        proof {
            assert forall|p: Seq<Seq<char>>| #[trigger] runs_into_itself(g, p) implies p[0]
                != node@ by {
                assert(step(g, p, 0));
            }
        }
    }
    let _last = stack.pop();
    proof {
        assert(stack.deep_view() =~= head.drop_last());
        assert(head.drop_last() =~= before);
    }
    finished.insert(node.clone());
    false
}

/// What goes through the first child that is not dead comes before everything that goes through a
/// later child.
proof fn lemma_first_through_child(
    g: Graph,
    head: Seq<Seq<char>>,
    children: Seq<Seq<char>>,
    i: int,
    next: Set<Seq<char>>,
    p: Seq<Seq<char>>,
)
    requires
        head.len() > 0,
        head.no_duplicates(),
        0 <= i < children.len(),
        order::lists_in_order(children, next),
        forall|y: Seq<char>| g.contains((head.last(), y)) ==> next.contains(y),
        forall|k: int| 0 <= k < i ==> dead(g, #[trigger] children[k]),
        first_with(g, head.push(children[i]), p),
    ensures
        first_with(g, head, p),
{
    let longer = head.push(children[i]);
    let n = head.len() as int;
    assert(p.take(n) =~= head) by {
        assert(p.take(n + 1) == longer);
        assert(p.take(n) =~= p.take(n + 1).take(n));
        assert(longer.take(n) =~= head);
    }
    assert(p[n] == p.take(n + 1)[n]);
    assert(p[n] == children[i]);
    assert forall|q: Seq<Seq<char>>| #[trigger]
        runs_into_itself(g, q) && q.len() >= n && q.take(n) == head implies q == p || path_less(
        p,
        q,
    ) by {
        if q.len() == n {
            // The head alone repeats no node.
            assert(q =~= head);
            let body = q.drop_last();
            let j = choose|j: int| 0 <= j < body.len() && body[j] == q.last();
            assert(head[j] == head[n - 1]);
        } else {
            assert(q[n - 1] == q.take(n)[n - 1]);
            assert(step(g, q, n - 1));
            assert(next.contains(q[n]));
            assert(children.contains(q[n]));
            let k = choose|k: int| 0 <= k < children.len() && children[k] == q[n];
            if k < i {
                assert(dead(g, children[k]));
                lemma_dead_is_not_passed(g, q, n);
            } else if k == i {
                assert(q.take(n + 1) =~= longer) by {
                    assert(q.take(n + 1).take(n) =~= q.take(n));
                    assert(q.take(n + 1) =~= q.take(n).push(q[n]));
                }
            } else {
                assert(order::text_less(children[i], children[k]));
                assert(p.take(n) == q.take(n));
                assert(order::text_less(p[n], q[n]));
            }
        }
    }
}

/// All nodes of an adjacency map, from the lists of its keys and of its sets.
proof fn lemma_nodes(edges: Map<Seq<char>, StringSet>, keys: Seq<Seq<char>>, k: int) -> (nodes: Set<
    Seq<char>,
>)
    requires
        0 <= k <= keys.len(),
        forall|i: int|
            0 <= i < keys.len() ==> order::lists_in_order(
                order::in_order(edges[#[trigger] keys[i]]@),
                edges[keys[i]]@,
            ),
    ensures
        nodes.finite(),
        forall|i: int| 0 <= i < k ==> nodes.contains(#[trigger] keys[i]),
        forall|i: int, y: Seq<char>|
            0 <= i < k && #[trigger] edges[keys[i]]@.contains(y) ==> nodes.contains(y),
    decreases k,
{
    if k == 0 {
        Set::empty()
    } else {
        let before = lemma_nodes(edges, keys, k - 1);
        let items = order::in_order(edges[keys[k - 1]]@);
        let nodes = before.union(items.to_set()).insert(keys[k - 1]);
        vstd::seq_lib::seq_to_set_is_finite(items);
        assert forall|i: int, y: Seq<char>|
            0 <= i < k && #[trigger] edges[keys[i]]@.contains(y) implies nodes.contains(y) by {
            if i == k - 1 {
                assert(items.contains(y));
            }
        }
        nodes
    }
}

/// Looks for a cycle: gives the first walk, in the order of strings, that runs into itself.
pub fn find_cycle(edges: &StringMap<StringSet>) -> (r: Option<Vec<String>>)
    ensures
        match r {
            Some(path) => first_cycle(graph_of(edges@), path.deep_view()),
            None => forall|p: Seq<Seq<char>>| !#[trigger] runs_into_itself(graph_of(edges@), p),
        },
{
    let ghost g = graph_of(edges@);
    let n = edges.len();
    let ghost keys = edges.keys();
    // Every set of successors can be listed.
    let mut i: usize = 0;
    while i < n
        invariant
            n == keys.len(),
            keys == edges.keys(),
            i <= n,
            forall|k: int|
                0 <= k < i ==> order::lists_in_order(
                    order::in_order(edges@[#[trigger] keys[k]]@),
                    edges@[keys[k]]@,
                ),
        decreases n - i,
    {
        let _count = edges.value_at(i).len();
        i += 1;
    }
    let ghost mut all: Set<Seq<char>> = Set::empty();
    proof {
        all = lemma_nodes(edges@, keys, n as int);
        assert(covers(all, g)) by {
            assert forall|e: (Seq<char>, Seq<char>)| #[trigger] g.contains(e) implies all.contains(
                e.0,
            ) && all.contains(e.1) by {
                assert(edges@.dom().contains(e.0));
                assert(keys.contains(e.0));
                let k = choose|k: int| 0 <= k < keys.len() && keys[k] == e.0;
                assert(edges@[keys[k]]@.contains(e.1));
            }
        }
    }
    let mut stack: Vec<String> = Vec::new();
    let mut finished = StringSet::new();
    proof {
        assert(stack.deep_view() =~= Seq::<Seq<char>>::empty());
    }
    let mut i: usize = 0;
    while i < n
        invariant
            g == graph_of(edges@),
            n == keys.len(),
            keys == edges.keys(),
            order::lists_in_order(keys, edges@.dom()),
            covers(all, g),
            forall|k: int| 0 <= k < n ==> all.contains(#[trigger] keys[k]),
            i <= n,
            stack.deep_view() == Seq::<Seq<char>>::empty(),
            forall|x: Seq<char>| #[trigger] finished@.contains(x) ==> dead(g, x),
            forall|k: int| 0 <= k < i ==> dead(g, #[trigger] keys[k]),
        decreases n - i,
    {
        let start = edges.key_at(i);
        proof {
            assert(stack.deep_view().push(start@).len() == 1);
            assert(all.contains(keys[i as int]));
        }
        if search(start, edges, &mut finished, &mut stack, Ghost(all)) {
            proof {
                lemma_first_from_key(g, keys, i as int, edges@, stack.deep_view());
            }
            return Some(stack);
        }
        i += 1;
    }
    proof {
        assert forall|p: Seq<Seq<char>>| !#[trigger] runs_into_itself(g, p) by {
            if runs_into_itself(g, p) {
                assert(step(g, p, 0));
                assert(edges@.dom().contains(p[0]));
                assert(keys.contains(p[0]));
                let k = choose|k: int| 0 <= k < keys.len() && keys[k] == p[0];
                assert(dead(g, keys[k]));
            }
        }
    }
    None
}

proof fn lemma_first_from_key(
    g: Graph,
    keys: Seq<Seq<char>>,
    i: int,
    edges: Map<Seq<char>, StringSet>,
    p: Seq<Seq<char>>,
)
    requires
        g == graph_of(edges),
        order::lists_in_order(keys, edges.dom()),
        0 <= i < keys.len(),
        forall|k: int| 0 <= k < i ==> dead(g, #[trigger] keys[k]),
        first_with(g, Seq::<Seq<char>>::empty().push(keys[i]), p),
    ensures
        first_cycle(g, p),
{
    let head = Seq::<Seq<char>>::empty().push(keys[i]);
    assert(p[0] == p.take(1)[0]);
    assert(p[0] == keys[i]);
    assert forall|q: Seq<Seq<char>>| #[trigger] runs_into_itself(g, q) implies q == p || path_less(
        p,
        q,
    ) by {
        assert(step(g, q, 0));
        assert(edges.dom().contains(q[0]));
        assert(keys.contains(q[0]));
        let k = choose|k: int| 0 <= k < keys.len() && keys[k] == q[0];
        if k < i {
            assert(dead(g, keys[k]));
        } else if k == i {
            assert(q.take(1) =~= head);
        } else {
            assert(order::text_less(keys[i], keys[k]));
            assert(p.take(0) =~= q.take(0));
            assert(order::text_less(p[0], q[0]));
        }
    }
}

proof fn lemma_first_repeat(g: Graph, p: Seq<Seq<char>>, n: int)
    requires
        walk(g, p),
        0 <= n <= p.len(),
        !p.take(n).no_duplicates(),
    ensures
        exists|q: Seq<Seq<char>>| #[trigger] runs_into_itself(g, q),
    decreases n,
{
    if n > 0 {
        if !p.take(n - 1).no_duplicates() {
            lemma_first_repeat(g, p, n - 1);
        } else {
            let q = p.take(n);
            let body = q.drop_last();
            assert(body =~= p.take(n - 1));
            assert(body.contains(q.last())) by {
                if !body.contains(q.last()) {
                    assert forall|a: int, b: int|
                        0 <= a < q.len() && 0 <= b < q.len() && a != b implies q[a] != q[b] by {
                        if a < body.len() {
                            assert(body[a] == q[a]);
                        }
                        if b < body.len() {
                            assert(body[b] == q[b]);
                        }
                    }
                }
            }
            assert forall|k: int| 0 <= k < q.len() - 1 implies #[trigger] step(g, q, k) by {
                assert(step(g, p, k));
            }
            assert(runs_into_itself(g, q));
        }
    }
}

/// A graph has a cycle exactly if some walk in it runs into itself.
pub proof fn cycles_are_walks_into_themselves(g: Graph)
    ensures
        (exists|p: Seq<Seq<char>>| #[trigger] cycle(g, p)) <==> (exists|q: Seq<Seq<char>>| #[trigger]
            runs_into_itself(g, q)),
{
    if exists|p: Seq<Seq<char>>| #[trigger] cycle(g, p) {
        let p = choose|p: Seq<Seq<char>>| #[trigger] cycle(g, p);
        assert(p.take(p.len() as int) =~= p);
        assert(p[0] == p[p.len() - 1]);
        lemma_first_repeat(g, p, p.len() as int);
    }
    if exists|q: Seq<Seq<char>>| #[trigger] runs_into_itself(g, q) {
        let q = choose|q: Seq<Seq<char>>| #[trigger] runs_into_itself(g, q);
        let body = q.drop_last();
        let j = choose|j: int| 0 <= j < body.len() && body[j] == q.last();
        let p = q.skip(j);
        assert forall|k: int| 0 <= k < p.len() - 1 implies #[trigger] step(g, p, k) by {
            assert(step(g, q, j + k));
        }
        assert(p[0] == q[j]);
        assert(cycle(g, p));
    }
}

/// There is at most one first cycle.
pub proof fn first_cycle_is_unique(g: Graph, p: Seq<Seq<char>>, q: Seq<Seq<char>>)
    requires
        first_cycle(g, p),
        first_cycle(g, q),
    ensures
        p == q,
{
    if p != q {
        assert(path_less(p, q) && path_less(q, p));
        let a = choose|k: int|
            {
                &&& 0 <= k < p.len()
                &&& k < q.len()
                &&& p.take(k) == q.take(k)
                &&& order::text_less(#[trigger] p[k], q[k])
            };
        let b = choose|k: int|
            {
                &&& 0 <= k < q.len()
                &&& k < p.len()
                &&& q.take(k) == p.take(k)
                &&& order::text_less(#[trigger] q[k], p[k])
            };
        if a < b {
            assert(p[a] == p.take(b)[a]);
            assert(q[a] == q.take(b)[a]);
            order::lemma_text_less_irreflexive(p[a]);
        } else if b < a {
            assert(p[b] == p.take(a)[b]);
            assert(q[b] == q.take(a)[b]);
            order::lemma_text_less_irreflexive(p[b]);
        } else {
            order::lemma_text_less_trans(p[a], q[a], p[a]);
            order::lemma_text_less_irreflexive(p[a]);
        }
    }
}

} // verus!
