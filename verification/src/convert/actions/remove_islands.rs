//! The island pruner: small clusters of tiles that lie apart from the rest
//! of the finest level are removed.

use crate::convert::config::Config;
use crate::convert::lockfile::LockFile;
use crate::database::database::{Database, Key};
use crate::error::Error;
use vstd::prelude::*;

verus! {

/// A position of the finest level.
pub type Node = (u64, u64);

/// Whether two positions are neighbours: one step apart to the left, to
/// the right, up or down.
pub open spec fn adjacent(a: Node, b: Node) -> bool {
    ||| (a.0 == b.0 && (a.1 + 1 == b.1 || b.1 + 1 == a.1))
    ||| (a.1 == b.1 && (a.0 + 1 == b.0 || b.0 + 1 == a.0))
}

/// Whether `b` is reached from `a` in `steps` steps from neighbour to
/// neighbour over positions of `graph`.
pub open spec fn reach(graph: Seq<Node>, a: Node, b: Node, steps: nat) -> bool
    decreases steps,
{
    if steps == 0 {
        a == b && graph.contains(a)
    } else {
        graph.contains(b) && exists|c: Node| #[trigger] adjacent(c, b) && reach(graph, a, c, (steps - 1) as nat)
    }
}

/// Whether some path over positions of `graph` leads from `a` to `b`.
pub open spec fn linked(graph: Seq<Node>, a: Node, b: Node) -> bool {
    exists|steps: nat| #[trigger] reach(graph, a, b, steps)
}

/// Whether every neighbour in `graph` of a position of `part` is in `part` too.
pub open spec fn closed(part: Seq<Node>, graph: Seq<Node>) -> bool {
    forall|a: Node, b: Node|
        part.contains(a) && graph.contains(b) && #[trigger] adjacent(a, b) ==> part.contains(b)
}

/// Whether `part` is a connected component of `graph`: positions of
/// `graph`, each listed once, all linked to the first, with every
/// neighbour that `graph` holds.
pub open spec fn is_component(part: Seq<Node>, graph: Seq<Node>) -> bool {
    &&& part.len() > 0
    &&& part.no_duplicates()
    &&& forall|n: Node| #[trigger] part.contains(n) ==> graph.contains(n) && linked(graph, part[0], n)
    &&& closed(part, graph)
}

/// Whether `parts` are the connected components of `graph`: each is one,
/// and every position of `graph` is in exactly one of them.
pub open spec fn are_components(parts: Seq<Vec<Node>>, graph: Seq<Node>) -> bool {
    &&& forall|i: int| 0 <= i < parts.len() ==> is_component((#[trigger] parts[i])@, graph)
    &&& forall|n: Node|
        graph.contains(n) ==> exists|i: int| 0 <= i < parts.len() && (#[trigger] parts[i])@.contains(n)
    &&& forall|i: int, j: int, n: Node|
        0 <= i < parts.len() && 0 <= j < parts.len() && i != j && #[trigger] parts[i]@.contains(n)
            ==> !#[trigger] parts[j]@.contains(n)
}

/// Whether `lo` and `hi` are the corners of the smallest rectangle that
/// holds every position of `graph`.
pub open spec fn is_bounding_box(graph: Seq<Node>, lo: Node, hi: Node) -> bool {
    &&& forall|i: int|
        0 <= i < graph.len() ==> lo.0 <= (#[trigger] graph[i]).0 <= hi.0 && lo.1 <= graph[i].1 <= hi.1
    &&& exists|i: int| 0 <= i < graph.len() && (#[trigger] graph[i]).0 == lo.0
    &&& exists|i: int| 0 <= i < graph.len() && (#[trigger] graph[i]).0 == hi.0
    &&& exists|i: int| 0 <= i < graph.len() && (#[trigger] graph[i]).1 == lo.1
    &&& exists|i: int| 0 <= i < graph.len() && (#[trigger] graph[i]).1 == hi.1
}

/// The number of positions from `lo` to `hi`, both counted, held at the
/// largest number that fits.
pub open spec fn span(lo: u64, hi: u64) -> u64 {
    if hi - lo + 1 <= u64::MAX {
        (hi - lo + 1) as u64
    } else {
        u64::MAX
    }
}

/// The corners of the bounding box of the positions of `graph`.
pub fn bounds(graph: &Vec<Node>) -> (r: (Node, Node))
    requires
        graph@.len() > 0,
    ensures
        is_bounding_box(graph@, r.0, r.1),
{
    let first = graph[0];
    let mut max = first;
    let mut min = first;
    let mut i: usize = 1;
    proof {
        assert(graph@.subrange(0, 1)[0] == first);
    }
    while i < graph.len()
        invariant
            1 <= i <= graph@.len(),
            is_bounding_box(graph@.subrange(0, i as int), min, max),
        decreases graph@.len() - i,
    {
        let ghost seen = graph@.subrange(0, i as int);
        let ghost next = graph@.subrange(0, i + 1);
        let ghost lo = min;
        let ghost hi = max;
        let (x, y) = graph[i];
        if x > max.0 {
            max.0 = x;
        }
        if x < min.0 {
            min.0 = x;
        }
        if y > max.1 {
            max.1 = y;
        }
        if y < min.1 {
            min.1 = y;
        }
        proof {
            assert(next[i as int] == (x, y));
            assert forall|j: int| 0 <= j < i implies next[j] == seen[j] by {}
            let a = choose|a: int| 0 <= a < seen.len() && (#[trigger] seen[a]).0 == lo.0;
            let b = choose|b: int| 0 <= b < seen.len() && (#[trigger] seen[b]).0 == hi.0;
            let c = choose|c: int| 0 <= c < seen.len() && (#[trigger] seen[c]).1 == lo.1;
            let d = choose|d: int| 0 <= d < seen.len() && (#[trigger] seen[d]).1 == hi.1;
            assert(next[a] == seen[a] && next[b] == seen[b] && next[c] == seen[c] && next[d] == seen[d]);
            assert(next[if x < lo.0 { i as int } else { a }].0 == min.0);
            assert(next[if x > hi.0 { i as int } else { b }].0 == max.0);
            assert(next[if y < lo.1 { i as int } else { c }].1 == min.1);
            assert(next[if y > hi.1 { i as int } else { d }].1 == max.1);
            assert forall|j: int| 0 <= j < next.len() implies min.0 <= (#[trigger] next[j]).0 <= max.0
                && min.1 <= next[j].1 <= max.1 by {
                if j < i {
                    assert(next[j] == seen[j]);
                }
            }
        }
        i += 1;
    }
    proof {
        assert(graph@.subrange(0, i as int) =~= graph@);
    }
    (min, max)
}

/// Width and height, in tiles, of the bounding box of the positions of `graph`.
pub fn get_size(graph: &Vec<Node>) -> (size: (u64, u64))
    requires
        graph@.len() > 0,
    ensures
        exists|lo: Node, hi: Node| #[trigger]
            is_bounding_box(graph@, lo, hi) && size == (span(lo.0, hi.0), span(lo.1, hi.1)),
{
    let (min, max) = bounds(graph);
    let w = extent(min.0, max.0);
    let h = extent(min.1, max.1);
    (w, h)
}

fn extent(lo: u64, hi: u64) -> (r: u64)
    requires
        lo <= hi,
    ensures
        r == span(lo, hi),
{
    let d = hi - lo;
    if d < u64::MAX {
        d + 1
    } else {
        d
    }
}

/// Whether one of `parts` holds `n`.
pub open spec fn in_parts(parts: Seq<Vec<Node>>, n: Node) -> bool {
    exists|i: int| 0 <= i < parts.len() && (#[trigger] parts[i])@.contains(n)
}

proof fn lemma_push(s: Seq<Node>, v: Node)
    ensures
        forall|n: Node| #[trigger] s.push(v).contains(n) <==> s.contains(n) || n == v,
        s.no_duplicates() && !s.contains(v) ==> s.push(v).no_duplicates(),
{
    let t = s.push(v);
    assert forall|n: Node| #[trigger] t.contains(n) <==> s.contains(n) || n == v by {
        if t.contains(n) {
            let i = choose|i: int| 0 <= i < t.len() && t[i] == n;
            if i < s.len() {
                assert(s[i] == n);
            }
        }
        if s.contains(n) {
            let i = choose|i: int| 0 <= i < s.len() && s[i] == n;
            assert(t[i] == n);
        }
        if n == v {
            assert(t[s.len() as int] == n);
        }
    }
}

proof fn lemma_drop_last(s: Seq<Node>)
    requires
        s.len() > 0,
    ensures
        forall|n: Node| #[trigger] s.contains(n) <==> s.drop_last().contains(n) || n == s.last(),
        forall|n: Node| #[trigger] s.drop_last().contains(n) ==> s.contains(n),
{
    let t = s.drop_last();
    assert(s.contains(s.last())) by {
        assert(s[s.len() - 1] == s.last());
    }
    assert forall|n: Node| #[trigger] t.contains(n) implies s.contains(n) by {
        let i = choose|i: int| 0 <= i < t.len() && t[i] == n;
        assert(s[i] == n);
    }
    assert forall|n: Node| #[trigger] s.contains(n) <==> t.contains(n) || n == s.last() by {
        if s.contains(n) {
            let i = choose|i: int| 0 <= i < s.len() && s[i] == n;
            if i < t.len() {
                assert(t[i] == n);
            }
        }
        if t.contains(n) {
            let i = choose|i: int| 0 <= i < t.len() && t[i] == n;
            assert(s[i] == n);
        }
    }
}

/// Takes `node` out of `rest`, if it is there.
fn take(rest: &mut Vec<Node>, node: Node) -> (found: bool)
    requires
        old(rest)@.no_duplicates(),
    ensures
        final(rest)@.no_duplicates(),
        found == old(rest)@.contains(node),
        forall|n: Node| #[trigger] final(rest)@.contains(n) <==> old(rest)@.contains(n) && n != node,
        found ==> final(rest)@.len() + 1 == old(rest)@.len(),
        !found ==> final(rest)@ == old(rest)@,
{
    let mut i: usize = 0;
    while i < rest.len()
        invariant
            i <= rest@.len(),
            rest@ == old(rest)@,
            rest@.no_duplicates(),
            forall|j: int| 0 <= j < i ==> rest@[j] != node,
        decreases rest@.len() - i,
    {
        if rest[i].0 == node.0 && rest[i].1 == node.1 {
            let ghost before = rest@;
            rest.remove(i);
            proof {
                let after = rest@;
                assert(before[i as int] == node);
                assert forall|a: int| 0 <= a < after.len() implies #[trigger] after[a] == before[if a < i {
                    a
                } else {
                    a + 1
                }] by {}
                assert forall|n: Node| #[trigger] after.contains(n) <==> before.contains(n) && n != node by {
                    if after.contains(n) {
                        let a = choose|a: int| 0 <= a < after.len() && after[a] == n;
                        let b = if a < i { a } else { a + 1 };
                        assert(before[b] == n);
                    }
                    if before.contains(n) && n != node {
                        let b = choose|b: int| 0 <= b < before.len() && before[b] == n;
                        let a = if b < i { b } else { b - 1 };
                        assert(after[a] == n);
                    }
                }
                assert forall|a: int, b: int| 0 <= a < after.len() && 0 <= b < after.len() && a != b implies after[a] != after[b] by {
                    let a2 = if a < i { a } else { a + 1 };
                    let b2 = if b < i { b } else { b + 1 };
                    assert(after[a] == before[a2] && after[b] == before[b2]);
                }
            }
            return true;
        }
        i += 1;
    }
    proof {
        assert(!rest@.contains(node));
    }
    false
}

/// Puts the neighbours of `node` on the stack.
fn push_neighbours(stack: &mut Vec<Node>, node: Node)
    ensures
        forall|n: Node| #[trigger] final(stack)@.contains(n) <==> old(stack)@.contains(n) || adjacent(node, n),
{
    let (x, y) = node;
    let ghost s0 = stack@;
    if y < u64::MAX {
        proof {
            lemma_push(stack@, (x, (y + 1) as u64));
        }
        stack.push((x, y + 1));
    }
    let ghost s1 = stack@;
    if x < u64::MAX {
        proof {
            lemma_push(stack@, ((x + 1) as u64, y));
        }
        stack.push((x + 1, y));
    }
    let ghost s2 = stack@;
    if y > 0 {
        proof {
            lemma_push(stack@, (x, (y - 1) as u64));
        }
        stack.push((x, y - 1));
    }
    let ghost s3 = stack@;
    if x > 0 {
        proof {
            lemma_push(stack@, ((x - 1) as u64, y));
        }
        stack.push((x - 1, y));
    }
    proof {
        let s4 = stack@;
        assert forall|n: Node| #[trigger] s4.contains(n) <==> s0.contains(n) || adjacent(node, n) by {
            assert(s1.contains(n) <==> s0.contains(n) || (y < u64::MAX && n == (x, (y + 1) as u64)));
            assert(s2.contains(n) <==> s1.contains(n) || (x < u64::MAX && n == ((x + 1) as u64, y)));
            assert(s3.contains(n) <==> s2.contains(n) || (y > 0 && n == (x, (y - 1) as u64)));
            assert(s4.contains(n) <==> s3.contains(n) || (x > 0 && n == ((x - 1) as u64, y)));
        }
    }
}

/// Splits the positions of `graph` into its connected components. The
/// steps of `lock` count the positions.
pub fn find_connected_subgraphs(graph: Vec<Node>, lock: &mut LockFile) -> (parts: Vec<Vec<Node>>)
    requires
        graph@.no_duplicates(),
    ensures
        are_components(parts@, graph@),
        final(lock).state@ == "Island removal"@,
        final(lock).total == graph@.len(),
        final(lock).current == final(lock).total,
        final(lock).error == old(lock).error,
{
    let mut parts: Vec<Vec<Node>> = Vec::new();
    lock.state("Island removal");
    lock.start(graph.len() as u64);
    let ghost all = graph@;
    let mut rest = graph;
    while rest.len() > 0
        invariant
            rest@.no_duplicates(),
            forall|n: Node| #[trigger] all.contains(n) <==> rest@.contains(n) || in_parts(parts@, n),
            forall|i: int| 0 <= i < parts@.len() ==> is_component((#[trigger] parts@[i])@, all),
            forall|i: int, n: Node|
                0 <= i < parts@.len() && #[trigger] parts@[i]@.contains(n) ==> !rest@.contains(n),
            forall|i: int, j: int, n: Node|
                0 <= i < parts@.len() && 0 <= j < parts@.len() && i != j && #[trigger] parts@[i]@.contains(n)
                    ==> !#[trigger] parts@[j]@.contains(n),
            lock.state@ == "Island removal"@,
            lock.total == all.len(),
            lock.error == old(lock).error,
        decreases rest@.len(),
    {
        let first = rest[0];
        let ghost start = rest@;
        let ghost done = parts@;
        let mut stack: Vec<Node> = vec![first];
        let mut sub: Vec<Node> = Vec::new();
        proof {
            assert(start.contains(first));
            assert(stack@[0] == first);
            assert(all.contains(first));
        }
        while stack.len() > 0
            invariant
                parts@ == done,
                start.len() > 0,
                first == start[0],
                rest@.len() <= start.len(),
                sub@.len() > 0 ==> rest@.len() < start.len(),
                rest@.no_duplicates(),
                sub@.no_duplicates(),
                forall|n: Node| #[trigger] start.contains(n) ==> all.contains(n),
                forall|n: Node| #[trigger] start.contains(n) <==> rest@.contains(n) || sub@.contains(n),
                forall|n: Node| !(rest@.contains(n) && #[trigger] sub@.contains(n)),
                forall|n: Node| #[trigger] sub@.contains(n) ==> linked(all, first, n),
                sub@.len() > 0 ==> sub@[0] == first,
                sub@.len() == 0 ==> stack@.contains(first) && rest@.contains(first),
                forall|s: Node| #[trigger]
                    stack@.contains(s) ==> s == first || exists|m: Node|
                        sub@.contains(m) && #[trigger] adjacent(m, s),
                forall|m: Node, nb: Node|
                    sub@.contains(m) && rest@.contains(nb) && #[trigger] adjacent(m, nb) ==> stack@.contains(
                        nb,
                    ),
                lock.state@ == "Island removal"@,
                lock.total == all.len(),
                lock.error == old(lock).error,
            decreases rest@.len(), stack@.len(),
        {
            let ghost stack0 = stack@;
            let ghost rest0 = rest@;
            let ghost sub0 = sub@;
            let node = stack.pop().unwrap();
            proof {
                lemma_drop_last(stack0);
                assert(stack0.contains(node)) by {
                    assert(stack0[stack0.len() - 1] == node);
                }
            }
            let ghost stack1 = stack@;
            if take(&mut rest, node) {
                let _ = lock.inc();
                proof {
                    lemma_push(sub0, node);
                    assert(!sub0.contains(node));
                    assert(all.contains(node)) by {
                        assert(start.contains(node));
                    }
                    assert(linked(all, first, node)) by {
                        if node == first {
                            assert(reach(all, first, node, 0));
                        } else {
                            let m = choose|m: Node| sub0.contains(m) && #[trigger] adjacent(m, node);
                            assert(linked(all, first, m));
                            let k = choose|k: nat| #[trigger] reach(all, first, m, k);
                            let k1: nat = k + 1;
                            assert((k1 - 1) as nat == k);
                            assert(adjacent(m, node) && reach(all, first, m, (k1 - 1) as nat));
                            assert(reach(all, first, node, k1));
                        }
                    }
                }
                sub.push(node);
                push_neighbours(&mut stack, node);
                proof {
                    assert(sub@.contains(node));
                    assert(sub0.len() == 0 ==> node == first) by {
                        if sub0.len() == 0 && node != first {
                            let m = choose|m: Node| sub0.contains(m) && #[trigger] adjacent(m, node);
                            assert(false);
                        }
                    }
                    assert forall|s: Node| #[trigger] stack@.contains(s) implies s == first || exists|m: Node|
                        sub@.contains(m) && #[trigger] adjacent(m, s) by {
                        if stack1.contains(s) {
                            assert(stack0.contains(s));
                            if s != first {
                                let m = choose|m: Node| sub0.contains(m) && #[trigger] adjacent(m, s);
                                assert(sub@.contains(m) && adjacent(m, s));
                            }
                        } else {
                            assert(adjacent(node, s));
                        }
                    }
                    assert forall|m: Node, nb: Node|
                        sub@.contains(m) && rest@.contains(nb) && #[trigger] adjacent(m, nb) implies stack@.contains(
                        nb,
                    ) by {
                        if m != node {
                            assert(sub0.contains(m));
                            assert(rest0.contains(nb));
                            assert(stack0.contains(nb));
                            assert(stack1.contains(nb));
                        }
                    }
                }
            } else {
                proof {
                    assert forall|s: Node| #[trigger] stack@.contains(s) implies s == first || exists|m: Node|
                        sub@.contains(m) && #[trigger] adjacent(m, s) by {
                        assert(stack0.contains(s));
                    }
                    assert forall|m: Node, nb: Node|
                        sub@.contains(m) && rest@.contains(nb) && #[trigger] adjacent(m, nb) implies stack@.contains(
                        nb,
                    ) by {
                        assert(stack0.contains(nb));
                    }
                    assert(sub@.len() == 0 ==> stack@.contains(first)) by {
                        if sub@.len() == 0 {
                            assert(rest0.contains(first));
                            assert(node != first);
                        }
                    }
                }
            }
        }
        proof {
            assert(sub@.len() > 0) by {
                if sub@.len() == 0 {
                    assert(stack@.contains(first));
                    assert(false);
                }
            }
            assert(closed(sub@, all)) by {
                assert forall|a: Node, b: Node|
                    sub@.contains(a) && all.contains(b) && #[trigger] adjacent(a, b) implies sub@.contains(
                    b,
                ) by {
                    assert(start.contains(a));
                    if start.contains(b) {
                        if rest@.contains(b) {
                            assert(stack@.contains(b));
                            assert(false);
                        }
                    } else {
                        assert(in_parts(done, b));
                        let j = choose|j: int| 0 <= j < done.len() && (#[trigger] done[j])@.contains(b);
                        assert(is_component(done[j]@, all));
                        assert(adjacent(b, a));
                        assert(done[j]@.contains(a));
                        assert(false);
                    }
                }
            }
            assert(is_component(sub@, all));
        }
        let ghost sub_view = sub@;
        parts.push(sub);
        proof {
            let now = parts@;
            let last = done.len() as int;
            assert(now[last]@ == sub_view);
            assert forall|i: int| 0 <= i < now.len() implies is_component((#[trigger] now[i])@, all) by {
                if i < last {
                    assert(now[i] == done[i]);
                }
            }
            assert forall|n: Node| #[trigger] all.contains(n) <==> rest@.contains(n) || in_parts(now, n) by {
                if in_parts(now, n) {
                    let i = choose|i: int| 0 <= i < now.len() && (#[trigger] now[i])@.contains(n);
                    if i < last {
                        assert(now[i] == done[i]);
                        assert(in_parts(done, n));
                    } else {
                        assert(start.contains(n));
                    }
                }
                if all.contains(n) && !rest@.contains(n) {
                    if start.contains(n) {
                        assert(now[last]@.contains(n));
                    } else {
                        assert(in_parts(done, n));
                        let i = choose|i: int| 0 <= i < done.len() && (#[trigger] done[i])@.contains(n);
                        assert(now[i] == done[i]);
                        assert(now[i]@.contains(n));
                    }
                }
            }
            assert forall|i: int, n: Node|
                0 <= i < now.len() && #[trigger] now[i]@.contains(n) implies !rest@.contains(n) by {
                if i < last {
                    assert(now[i] == done[i]);
                    assert(done[i]@.contains(n));
                    assert(!start.contains(n));
                }
            }
            assert forall|i: int, j: int, n: Node|
                0 <= i < now.len() && 0 <= j < now.len() && i != j && #[trigger] now[i]@.contains(n)
                    implies !#[trigger] now[j]@.contains(n) by {
                if i < last {
                    assert(now[i] == done[i]);
                    assert(done[i]@.contains(n));
                    assert(!start.contains(n));
                }
                if j < last {
                    assert(now[j] == done[j]);
                    if now[j]@.contains(n) {
                        assert(done[j]@.contains(n));
                        assert(!start.contains(n));
                    }
                }
            }
        }
    }
    lock.finish();
    proof {
        assert forall|n: Node| all.contains(n) implies exists|i: int|
            0 <= i < parts@.len() && (#[trigger] parts@[i])@.contains(n) by {
            assert(in_parts(parts@, n));
        }
    }
    parts
}

/// A closed set of positions holds every position that a path over the
/// graph links to one of its own.
proof fn lemma_closed_holds_path(part: Seq<Node>, graph: Seq<Node>, a: Node, b: Node, steps: nat)
    requires
        closed(part, graph),
        reach(graph, a, b, steps),
    ensures
        part.contains(a) <==> part.contains(b),
        graph.contains(a),
        graph.contains(b),
    decreases steps,
{
    if steps > 0 {
        let c = choose|c: Node| #[trigger] adjacent(c, b) && reach(graph, a, c, (steps - 1) as nat);
        lemma_closed_holds_path(part, graph, a, c, (steps - 1) as nat);
        assert(adjacent(b, c));
    }
}

/// The connected components of a graph are determined by it: two of them
/// that share a position hold the same positions.
pub proof fn lemma_components_agree(left: Seq<Node>, right: Seq<Node>, graph: Seq<Node>, n: Node, m: Node)
    requires
        is_component(left, graph),
        is_component(right, graph),
        left.contains(n),
        right.contains(n),
    ensures
        left.contains(m) <==> right.contains(m),
{
    assert(left.contains(left[0]));
    assert(right.contains(right[0]));
    let k1 = choose|k: nat| #[trigger] reach(graph, left[0], n, k);
    let k2 = choose|k: nat| #[trigger] reach(graph, right[0], n, k);
    lemma_closed_holds_path(right, graph, left[0], n, k1);
    lemma_closed_holds_path(left, graph, right[0], n, k2);
    if left.contains(m) {
        let k = choose|k: nat| #[trigger] reach(graph, left[0], m, k);
        lemma_closed_holds_path(right, graph, left[0], m, k);
    }
    if right.contains(m) {
        let k = choose|k: nat| #[trigger] reach(graph, right[0], m, k);
        lemma_closed_holds_path(left, graph, right[0], m, k);
    }
}

/// A set of positions has one bounding box.
pub proof fn lemma_bounding_box_unique(graph: Seq<Node>, lo: Node, hi: Node, lo2: Node, hi2: Node)
    requires
        is_bounding_box(graph, lo, hi),
        is_bounding_box(graph, lo2, hi2),
    ensures
        lo == lo2,
        hi == hi2,
{
    let a = choose|i: int| 0 <= i < graph.len() && (#[trigger] graph[i]).0 == lo.0;
    let b = choose|i: int| 0 <= i < graph.len() && (#[trigger] graph[i]).0 == hi.0;
    let c = choose|i: int| 0 <= i < graph.len() && (#[trigger] graph[i]).1 == lo.1;
    let d = choose|i: int| 0 <= i < graph.len() && (#[trigger] graph[i]).1 == hi.1;
    let a2 = choose|i: int| 0 <= i < graph.len() && (#[trigger] graph[i]).0 == lo2.0;
    let b2 = choose|i: int| 0 <= i < graph.len() && (#[trigger] graph[i]).0 == hi2.0;
    let c2 = choose|i: int| 0 <= i < graph.len() && (#[trigger] graph[i]).1 == lo2.1;
    let d2 = choose|i: int| 0 <= i < graph.len() && (#[trigger] graph[i]).1 == hi2.1;
    assert(lo2.0 <= graph[a].0 && lo.0 <= graph[a2].0);
    assert(graph[b].0 <= hi2.0 && graph[b2].0 <= hi.0);
    assert(lo2.1 <= graph[c].1 && lo.1 <= graph[c2].1);
    assert(graph[d].1 <= hi2.1 && graph[d2].1 <= hi.1);
}

/// Whether a cluster is an island: it has at most `island_tiles` tiles, and
/// its bounding box is narrower or lower than `island_size` tiles.
pub open spec fn is_island(part: Seq<Node>, island_size: u64, island_tiles: u64) -> bool {
    part.len() <= island_tiles && exists|lo: Node, hi: Node| #[trigger]
        is_bounding_box(part, lo, hi) && (span(lo.0, hi.0) < island_size || span(lo.1, hi.1)
            < island_size)
}

/// Lists of the same positions have the same bounding box.
proof fn lemma_same_box(left: Seq<Node>, right: Seq<Node>, lo: Node, hi: Node)
    requires
        is_bounding_box(left, lo, hi),
        forall|m: Node| left.contains(m) <==> right.contains(m),
    ensures
        is_bounding_box(right, lo, hi),
{
    assert forall|i: int| 0 <= i < right.len() implies lo.0 <= (#[trigger] right[i]).0 <= hi.0 && lo.1 <= right[i].1
        <= hi.1 by {
        assert(right.contains(right[i]));
        let j = choose|j: int| 0 <= j < left.len() && left[j] == right[i];
        assert(lo.0 <= left[j].0);
    }
    let a = choose|i: int| 0 <= i < left.len() && (#[trigger] left[i]).0 == lo.0;
    let b = choose|i: int| 0 <= i < left.len() && (#[trigger] left[i]).0 == hi.0;
    let c = choose|i: int| 0 <= i < left.len() && (#[trigger] left[i]).1 == lo.1;
    let d = choose|i: int| 0 <= i < left.len() && (#[trigger] left[i]).1 == hi.1;
    assert(left.contains(left[a]) && left.contains(left[b]) && left.contains(left[c]) && left.contains(left[d]));
    let a2 = choose|j: int| 0 <= j < right.len() && right[j] == left[a];
    let b2 = choose|j: int| 0 <= j < right.len() && right[j] == left[b];
    let c2 = choose|j: int| 0 <= j < right.len() && right[j] == left[c];
    let d2 = choose|j: int| 0 <= j < right.len() && right[j] == left[d];
    assert(right[a2].0 == lo.0 && right[b2].0 == hi.0 && right[c2].1 == lo.1 && right[d2].1 == hi.1);
}

/// Whether a cluster is an island does not depend on how its positions
/// are listed: two components that share a position are islands together.
pub proof fn lemma_island_is_determined(
    left: Seq<Node>,
    right: Seq<Node>,
    graph: Seq<Node>,
    n: Node,
    island_size: u64,
    island_tiles: u64,
)
    requires
        is_component(left, graph),
        is_component(right, graph),
        left.contains(n),
        right.contains(n),
    ensures
        left.len() == right.len(),
        is_island(left, island_size, island_tiles) == is_island(right, island_size, island_tiles),
{
    assert forall|m: Node| left.contains(m) <==> right.contains(m) by {
        lemma_components_agree(left, right, graph, n, m);
    }
    left.unique_seq_to_set();
    right.unique_seq_to_set();
    assert(left.to_set() =~= right.to_set());
    if is_island(left, island_size, island_tiles) {
        let (lo, hi) = choose|lo: Node, hi: Node| #[trigger]
            is_bounding_box(left, lo, hi) && (span(lo.0, hi.0) < island_size || span(lo.1, hi.1) < island_size);
        lemma_same_box(left, right, lo, hi);
    }
    if is_island(right, island_size, island_tiles) {
        let (lo, hi) = choose|lo: Node, hi: Node| #[trigger]
            is_bounding_box(right, lo, hi) && (span(lo.0, hi.0) < island_size || span(lo.1, hi.1) < island_size);
        lemma_same_box(right, left, lo, hi);
    }
}

/// Whether `n` lies in an island among the first `upto` of `parts`.
pub open spec fn doomed(parts: Seq<Vec<Node>>, c: &Config, n: Node, upto: int) -> bool {
    exists|i: int|
        0 <= i < upto && i < parts.len() && (#[trigger] parts[i])@.contains(n) && is_island(
            parts[i]@,
            c.island_size,
            c.island_tiles,
        )
}

/// Whether `graph` lists the positions of `level` that hold a tile, each once.
pub open spec fn lists_level(graph: Seq<Node>, tiles: Map<Key, Seq<u8>>, level: u64) -> bool {
    graph.no_duplicates() && forall|x: u64, y: u64|
        graph.contains((x, y)) <==> tiles.contains_key((x, y, level))
}

/// The tiles of `level` that lie in an island among the first `upto` of
/// `parts`, or among the first `within` positions of the next one.
pub open spec fn removed(parts: Seq<Vec<Node>>, c: &Config, level: u64, upto: int, within: int) -> Set<Key> {
    Set::new(
        |k: Key|
            k.2 == level && (doomed(parts, c, (k.0, k.1), upto) || exists|j: int|
                0 <= j < within && upto < parts.len() && j < parts[upto]@.len() && #[trigger] parts[upto]@[j]
                    == (k.0, k.1)),
    )
}

/// The stored tiles without those of `level` that lie in an island.
pub open spec fn pruned(tiles: Map<Key, Seq<u8>>, parts: Seq<Vec<Node>>, c: &Config, level: u64) -> Map<
    Key,
    Seq<u8>,
> {
    tiles.remove_keys(removed(parts, c, level, parts.len() as int, 0))
}

/// The finest level of a pyramid of `levels` levels.
pub open spec fn finest(levels: u64) -> u64 {
    if levels >= 1 {
        (levels - 1) as u64
    } else {
        0
    }
}

/// Removes the islands of the finest level: every connected cluster of
/// tiles that has at most `c.island_tiles` tiles and whose bounding box is
/// narrower or lower than `c.island_size` tiles. A read-only store refuses
/// as soon as there is an island to remove.
pub fn remove_islands(db: &mut Database, c: &Config, lock: &mut LockFile) -> (r: Result<(), Error>)
    requires
        old(db).wf(),
        old(db).data.levels >= 1,
    ensures
        final(db).wf(),
        final(db).data == old(db).data,
        final(db).writeable == old(db).writeable,
        final(db).meta == old(db).meta,
        exists|graph: Seq<Node>, parts: Seq<Vec<Node>>|
            {
                let level = finest(old(db).data.levels);
                let any = exists|n: Node| doomed(parts, c, n, parts.len() as int);
                &&& lists_level(graph, old(db).tiles(), level)
                &&& #[trigger] are_components(parts, graph)
                &&& old(db).writeable || !any ==> r == Ok::<(), Error>(()) && final(db).tiles() == pruned(
                    old(db).tiles(),
                    parts,
                    c,
                    level,
                )
                &&& !old(db).writeable && any ==> r == Err::<(), Error>(Error::ReadOnly) && final(db).tiles()
                    == old(db).tiles()
            },
        final(lock).state@ == "Island removal"@,
        final(lock).error == old(lock).error,
        final(lock).current == final(lock).total,
{
    let level = db.data.levels - 1;
    let tiles = db.list_tiles(level);
    let ghost graph = tiles@;
    let ghost before = db.tiles();
    let subgraphs = find_connected_subgraphs(tiles, lock);
    let ghost parts = subgraphs@;
    let mut pi: usize = 0;
    proof {
        assert(before.remove_keys(removed(parts, c, level, 0, 0)) =~= before);
    }
    while pi < subgraphs.len()
        invariant
            pi <= subgraphs@.len(),
            subgraphs@ == parts,
            are_components(parts, graph),
            lists_level(graph, before, level),
            db.wf(),
            db.data == old(db).data,
            db.writeable == old(db).writeable,
            db.meta == old(db).meta,
            db.tiles() == before.remove_keys(removed(parts, c, level, pi as int, 0)),
            !db.writeable ==> forall|n: Node| !doomed(parts, c, n, pi as int),
            before == old(db).tiles(),
            level == finest(old(db).data.levels),
            lock.state@ == "Island removal"@,
            lock.error == old(lock).error,
            lock.current == lock.total,
        decreases subgraphs@.len() - pi,
    {
        let part = &subgraphs[pi];
        let ghost here = parts[pi as int]@;
        proof {
            assert(is_component(here, graph));
        }
        let size = get_size(part);
        let n = part.len();
        let island = n as u64 <= c.island_tiles && (size.0 < c.island_size || size.1 < c.island_size);
        proof {
            let (lo, hi) = choose|lo: Node, hi: Node| #[trigger]
                is_bounding_box(here, lo, hi) && size == (span(lo.0, hi.0), span(lo.1, hi.1));
            if is_island(here, c.island_size, c.island_tiles) {
                let (lo2, hi2) = choose|lo2: Node, hi2: Node| #[trigger]
                    is_bounding_box(here, lo2, hi2) && (span(lo2.0, hi2.0) < c.island_size || span(
                        lo2.1,
                        hi2.1,
                    ) < c.island_size);
                lemma_bounding_box_unique(here, lo, hi, lo2, hi2);
            }
            if island {
                assert(is_bounding_box(here, lo, hi));
            }
            assert(island == is_island(here, c.island_size, c.island_tiles));
        }
        if island {
            let mut ni: usize = 0;
            while ni < part.len()
                invariant
                    ni <= here.len(),
                    pi < subgraphs@.len(),
                    subgraphs@ == parts,
                    part@ == here,
                    here == parts[pi as int]@,
                    is_island(here, c.island_size, c.island_tiles),
                    db.wf(),
                    db.data == old(db).data,
                    db.writeable == old(db).writeable,
                    db.meta == old(db).meta,
                    db.tiles() == before.remove_keys(removed(parts, c, level, pi as int, ni as int)),
                    !db.writeable ==> ni == 0,
                    !db.writeable ==> forall|n: Node| !doomed(parts, c, n, pi as int),
                    here.len() > 0,
                    are_components(parts, graph),
                    lists_level(graph, before, level),
                    before == old(db).tiles(),
                    level == finest(old(db).data.levels),
                    lock.state@ == "Island removal"@,
                    lock.error == old(lock).error,
                    lock.current == lock.total,
                decreases here.len() - ni,
            {
                let node = part[ni];
                let ghost cur = db.tiles();
                match db.delete(node, level) {
                    Err(e) => {
                        proof {
                            assert(before.remove_keys(removed(parts, c, level, pi as int, 0)) =~= before) by {
                                assert forall|k: Key| !removed(parts, c, level, pi as int, 0).contains(k) by {
                                    if doomed(parts, c, (k.0, k.1), pi as int) {
                                    }
                                }
                                assert(removed(parts, c, level, pi as int, 0) =~= Set::<Key>::empty());
                            }
                            assert(here.contains(node));
                            assert(doomed(parts, c, node, parts.len() as int));
                            assert(db.tiles() == before);
                            assert(are_components(parts, graph) && lists_level(graph, before, level));
                        }
                        return Err(e);
                    },
                    Ok(_) => {},
                }
                proof {
                    let r0 = removed(parts, c, level, pi as int, ni as int);
                    let r1 = removed(parts, c, level, pi as int, ni + 1);
                    let k0: Key = (node.0, node.1, level);
                    assert(r1 =~= r0.insert(k0)) by {
                        assert forall|k: Key| r1.contains(k) <==> r0.insert(k0).contains(k) by {
                            if r1.contains(k) && !doomed(parts, c, (k.0, k.1), pi as int) {
                                let j = choose|j: int|
                                    0 <= j < ni + 1 && j < here.len() && #[trigger] parts[pi as int]@[j] == (
                                        k.0,
                                        k.1,
                                    );
                                if j < ni {
                                    assert(r0.contains(k));
                                }
                            }
                            if r0.contains(k) && !doomed(parts, c, (k.0, k.1), pi as int) {
                                let j = choose|j: int|
                                    0 <= j < ni && j < here.len() && #[trigger] parts[pi as int]@[j] == (
                                        k.0,
                                        k.1,
                                    );
                                assert(0 <= j < ni + 1);
                            }
                            if k == k0 {
                                assert(parts[pi as int]@[ni as int] == (k.0, k.1));
                            }
                        }
                    }
                    assert(db.tiles() =~= before.remove_keys(r1));
                }
                ni += 1;
            }
            proof {
                let r0 = removed(parts, c, level, pi as int, here.len() as int);
                let r1 = removed(parts, c, level, pi + 1, 0);
                assert forall|k: Key| r0.contains(k) <==> r1.contains(k) by {
                    if r0.contains(k) {
                        if doomed(parts, c, (k.0, k.1), pi as int) {
                            let i = choose|i: int|
                                0 <= i < pi && i < parts.len() && (#[trigger] parts[i])@.contains((k.0, k.1))
                                    && is_island(parts[i]@, c.island_size, c.island_tiles);
                            assert(0 <= i < pi + 1);
                        } else {
                            let j = choose|j: int|
                                0 <= j < here.len() && #[trigger] parts[pi as int]@[j] == (k.0, k.1);
                            assert(parts[pi as int]@.contains((k.0, k.1)));
                        }
                        assert(doomed(parts, c, (k.0, k.1), pi + 1));
                    }
                    if r1.contains(k) {
                        let i = choose|i: int|
                            0 <= i < pi + 1 && i < parts.len() && (#[trigger] parts[i])@.contains((k.0, k.1))
                                && is_island(parts[i]@, c.island_size, c.island_tiles);
                        if i < pi {
                            assert(doomed(parts, c, (k.0, k.1), pi as int));
                        } else {
                            let j = choose|j: int| 0 <= j < here.len() && here[j] == (k.0, k.1);
                            assert(parts[pi as int]@[j] == (k.0, k.1));
                        }
                    }
                }
                assert(r0 =~= r1);
                assert(db.writeable) by {
                    assert(here.len() > 0);
                }
            }
        } else {
            proof {
                let r0 = removed(parts, c, level, pi as int, 0);
                let r1 = removed(parts, c, level, pi + 1, 0);
                assert forall|n: Node| doomed(parts, c, n, pi + 1) <==> doomed(parts, c, n, pi as int) by {
                    if doomed(parts, c, n, pi + 1) {
                        let i = choose|i: int|
                            0 <= i < pi + 1 && i < parts.len() && (#[trigger] parts[i])@.contains(n) && is_island(
                                parts[i]@,
                                c.island_size,
                                c.island_tiles,
                            );
                        assert(i < pi);
                    }
                    if doomed(parts, c, n, pi as int) {
                        let i = choose|i: int|
                            0 <= i < pi && i < parts.len() && (#[trigger] parts[i])@.contains(n) && is_island(
                                parts[i]@,
                                c.island_size,
                                c.island_tiles,
                            );
                        assert(0 <= i < pi + 1);
                    }
                }
                assert(r0 =~= r1);
                let next: int = pi + 1;
                if !db.writeable {
                    assert forall|n: Node| !#[trigger] doomed(parts, c, n, next) by {
                        assert(!doomed(parts, c, n, pi as int));
                        if doomed(parts, c, n, next) {
                            let i = choose|i: int|
                                0 <= i < next && i < parts.len() && (#[trigger] parts[i])@.contains(n)
                                    && is_island(parts[i]@, c.island_size, c.island_tiles);
                            assert(i < pi);
                        }
                    }
                }
            }
        }
        pi += 1;
    }
    proof {
        assert(are_components(parts, graph));
        assert(db.tiles() == pruned(before, parts, c, level));
    }
    Ok(())
}

} // verus!
