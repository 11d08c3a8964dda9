//! The hierarchy as `tree` and `status` show it: each node with its
//! effective tags and its children in ID order, optionally pruned to the
//! subtrees that carry a tag.
use vstd::prelude::*;

use crate::history::after_last;
use crate::model::{
    has_effective_tag, height_within, hierarchy_finite, is_child_of, subtree_finite, Graph, Node,
};
use crate::ops::{subtree_has_tag, subtree_tagged};
use crate::text::{
    chars_of, lemma_seq_lt_irreflexive, lemma_seq_lt_total, lemma_seq_lt_transitive, seq_lt,
    str_lt, string_of, strictly_sorted,
};

verus! {

/// The nodes are in non-decreasing ID order.
pub open spec fn by_id(s: Seq<Node>) -> bool {
    forall|i: int, j: int| 0 <= i < j < s.len() ==> !seq_lt(s[j].id@, s[i].id@)
}

/// Nodes with ID `x`.
pub open spec fn has_id(x: Seq<char>) -> spec_fn(Node) -> bool {
    |n: Node| n.id@ == x
}

/// `order` holds the nodes of `nodes`, each as often, in ID order; nodes
/// with the same ID keep the order they have in `nodes`.
pub open spec fn id_order(order: Seq<Node>, nodes: Seq<Node>) -> bool {
    &&& by_id(order)
    &&& order.to_multiset() == nodes.to_multiset()
    &&& forall|x: Seq<char>| #[trigger] order.filter(has_id(x)) == nodes.filter(has_id(x))
}

/// Filtering a sequence with an element inserted at `k`.
proof fn lemma_filter_insert(s: Seq<Node>, k: int, a: Node, p: spec_fn(Node) -> bool)
    requires
        0 <= k <= s.len(),
    ensures
        s.insert(k, a).filter(p) == s.subrange(0, k).filter(p) + (if p(a) {
            seq![a]
        } else {
            Seq::empty()
        }) + s.subrange(k, s.len() as int).filter(p),
{
    let pre = s.subrange(0, k);
    let post = s.subrange(k, s.len() as int);
    assert(s.insert(k, a) =~= pre + seq![a] + post);
    Seq::filter_distributes_over_add(pre + seq![a], post, p);
    Seq::filter_distributes_over_add(pre, seq![a], p);
    Seq::<Node>::empty().lemma_filter_push(a, p);
    assert(seq![a] =~= Seq::<Node>::empty().push(a));
    assert(Seq::<Node>::empty().filter(p) =~= Seq::<Node>::empty()) by {
        crate::store::lemma_filter_none(Seq::<Node>::empty(), p);
    }
    if p(a) {
        assert(Seq::<Node>::empty().push(a) =~= seq![a]);
    } else {
        assert(Seq::<Node>::empty().filter(p) =~= Seq::<Node>::empty());
    }
}

proof fn lemma_same_order(a: Seq<Node>, b: Seq<Node>)
    requires
        by_id(a),
        by_id(b),
        a.to_multiset() == b.to_multiset(),
        forall|y: Seq<char>| #![trigger has_id(y)] a.filter(has_id(y)) == b.filter(has_id(y)),
    ensures
        a == b,
    decreases a.len(),
{
    broadcast use vstd::seq_lib::group_to_multiset_ensures;

    if a.len() == 0 {
        assert(b.to_multiset().len() == 0);
        assert(b =~= a);
    } else {
        assert(a.to_multiset().len() == a.len());
        assert(b.to_multiset().len() == b.len());
        assert(b.len() == a.len());
        let la = a.last();
        let lb = b.last();
        let ra = a.drop_last();
        let rb = b.drop_last();
        assert(a == ra.push(la));
        assert(b == rb.push(lb));
        assert(a.to_multiset().count(la) > 0);
        assert(b.contains(la));
        let j = choose|j: int| 0 <= j < b.len() && b[j] == la;
        assert(b[b.len() - 1] == lb);
        assert(b.contains(lb));
        assert(b.to_multiset().count(lb) > 0);
        assert(a.contains(lb));
        let i = choose|i: int| 0 <= i < a.len() && a[i] == lb;
        if j < b.len() - 1 {
            assert(!seq_lt(b[b.len() - 1].id@, b[j].id@));
        }
        if i < a.len() - 1 {
            assert(!seq_lt(a[a.len() - 1].id@, a[i].id@));
        }
        lemma_seq_lt_total(la.id@, lb.id@);
        let x = la.id@;
        assert(lb.id@ == x);
        ra.lemma_filter_push(la, has_id(x));
        rb.lemma_filter_push(lb, has_id(x));
        assert(a.filter(has_id(x)) == b.filter(has_id(x)));
        assert(a.filter(has_id(x)).last() == la);
        assert(b.filter(has_id(x)).last() == lb);
        assert forall|y: Seq<char>| #![trigger has_id(y)] ra.filter(has_id(y)) == rb.filter(has_id(y)) by {
            ra.lemma_filter_push(la, has_id(y));
            rb.lemma_filter_push(lb, has_id(y));
            assert(a.filter(has_id(y)) == b.filter(has_id(y)));
            if y == x {
                assert(ra.filter(has_id(y)) =~= a.filter(has_id(y)).drop_last());
                assert(rb.filter(has_id(y)) =~= b.filter(has_id(y)).drop_last());
            }
        }
        assert(ra.to_multiset() =~= a.to_multiset().remove(la));
        assert(rb.to_multiset() =~= b.to_multiset().remove(lb));
        assert(by_id(ra)) by {
            assert forall|p: int, q: int| 0 <= p < q < ra.len() implies !seq_lt(ra[q].id@, ra[p].id@) by {
                assert(ra[q] == a[q] && ra[p] == a[p]);
            }
        }
        assert(by_id(rb)) by {
            assert forall|p: int, q: int| 0 <= p < q < rb.len() implies !seq_lt(rb[q].id@, rb[p].id@) by {
                assert(rb[q] == b[q] && rb[p] == b[p]);
            }
        }
        lemma_same_order(ra, rb);
    }
}

/// There is one ID order of a list of nodes: sorted by ID, and stable for
/// equal IDs, it is determined by the nodes alone.
pub proof fn lemma_id_order_unique(a: Seq<Node>, b: Seq<Node>, nodes: Seq<Node>)
    requires
        id_order(a, nodes),
        id_order(b, nodes),
    ensures
        a == b,
{
    assert forall|y: Seq<char>| #![trigger has_id(y)] a.filter(has_id(y)) == b.filter(has_id(y)) by {
        assert(a.filter(has_id(y)) == nodes.filter(has_id(y)));
        assert(b.filter(has_id(y)) == nodes.filter(has_id(y)));
    }
    lemma_same_order(a, b);
}

/// The graph's nodes sorted by ID; nodes with equal IDs keep their order.
pub fn sorted_by_id(graph: &Graph) -> (r: Vec<&Node>)
    ensures
        id_order(r@.map_values(|x: &Node| *x), graph.nodes@),
{
    let mut r: Vec<&Node> = Vec::new();
    let mut i: usize = 0;
    proof {
        broadcast use vstd::seq_lib::group_to_multiset_ensures;

        assert(graph.nodes@.subrange(0, 0) =~= Seq::<Node>::empty());
        assert(r@.map_values(|x: &Node| *x) =~= Seq::<Node>::empty());
    }
    while i < graph.nodes.len()
        invariant
            i <= graph.nodes@.len(),
            by_id(r@.map_values(|x: &Node| *x)),
            r@.map_values(|x: &Node| *x).to_multiset() == graph.nodes@.subrange(0, i as int).to_multiset(),
            forall|y: Seq<char>|
                #![trigger has_id(y)]
                r@.map_values(|x: &Node| *x).filter(has_id(y)) == graph.nodes@.subrange(0, i as int).filter(
                    has_id(y),
                ),
        decreases graph.nodes@.len() - i,
    {
        let x = &graph.nodes[i];
        let ghost xv = x.id@;
        let ghost old_r = r@.map_values(|x: &Node| *x);
        let mut k: usize = 0;
        while k < r.len()
            invariant
                r@.map_values(|x: &Node| *x) == old_r,
                xv == x.id@,
                k <= r.len(),
                forall|j: int| 0 <= j < k ==> !seq_lt(xv, old_r[j].id@),
            ensures
                r@.map_values(|x: &Node| *x) == old_r,
                k <= r.len(),
                forall|j: int| 0 <= j < k ==> !seq_lt(xv, old_r[j].id@),
                k < r.len() ==> seq_lt(xv, old_r[k as int].id@),
            decreases r.len() - k,
        {
            assert(old_r[k as int] == *r@[k as int]);
            if str_lt(x.id.as_str(), r[k].id.as_str()) {
                break;
            }
            k += 1;
        }
        let ghost before = r@;
        r.insert(k, x);
        proof {
            broadcast use vstd::seq_lib::group_to_multiset_ensures;

            let nr = r@.map_values(|x: &Node| *x);
            assert(r@ == before.insert(k as int, x));
            assert(nr =~= old_r.insert(k as int, *x));
            assert forall|j: int| k < j < nr.len() implies seq_lt(xv, #[trigger] nr[j].id@) by {
                if j > k + 1 {
                    assert(!seq_lt(nr[j].id@, old_r[k as int].id@));
                    lemma_seq_lt_total(old_r[k as int].id@, nr[j].id@);
                    if seq_lt(old_r[k as int].id@, nr[j].id@) {
                        lemma_seq_lt_transitive(xv, old_r[k as int].id@, nr[j].id@);
                    }
                }
            }
            assert forall|a: int, b: int| 0 <= a < b < nr.len() implies !seq_lt(nr[b].id@, nr[a].id@) by {
                if b < k {
                    assert(nr[a] == old_r[a] && nr[b] == old_r[b]);
                } else if b == k {
                    assert(!seq_lt(xv, old_r[a].id@));
                } else if a < k {
                    assert(seq_lt(xv, nr[b].id@));
                    if seq_lt(nr[b].id@, nr[a].id@) {
                        lemma_seq_lt_transitive(xv, nr[b].id@, nr[a].id@);
                        assert(!seq_lt(xv, old_r[a].id@));
                    }
                } else if a == k {
                    assert(seq_lt(xv, nr[b].id@));
                    if seq_lt(nr[b].id@, nr[a].id@) {
                        lemma_seq_lt_transitive(xv, nr[b].id@, nr[a].id@);
                        lemma_seq_lt_irreflexive(xv);
                    }
                } else {
                    assert(nr[a] == old_r[a - 1] && nr[b] == old_r[b - 1]);
                }
            }
            crate::text::lemma_insert_multiset(old_r, k as int, *x);
            assert(graph.nodes@.subrange(0, i + 1) =~= graph.nodes@.subrange(0, i as int).push(*x));
            assert forall|y: Seq<char>| #![trigger has_id(y)] nr.filter(has_id(y)) == graph.nodes@.subrange(0, i + 1).filter(
                has_id(y),
            ) by {
                let pre = old_r.subrange(0, k as int);
                let post = old_r.subrange(k as int, old_r.len() as int);
                lemma_filter_insert(old_r, k as int, *x, has_id(y));
                assert(old_r =~= pre + post);
                Seq::filter_distributes_over_add(pre, post, has_id(y));
                graph.nodes@.subrange(0, i as int).lemma_filter_push(*x, has_id(y));
                if y == xv {
                    assert forall|q: int| 0 <= q < post.len() implies !#[trigger] has_id(y)(post[q]) by {
                        assert(post[q] == old_r[k + q]);
                        if q == 0 {
                            assert(seq_lt(xv, old_r[k as int].id@));
                        } else {
                            assert(!seq_lt(old_r[k + q].id@, old_r[k as int].id@));
                            lemma_seq_lt_total(old_r[k as int].id@, old_r[k + q].id@);
                            if seq_lt(old_r[k as int].id@, old_r[k + q].id@) {
                                lemma_seq_lt_transitive(xv, old_r[k as int].id@, old_r[k + q].id@);
                            }
                        }
                        if old_r[k + q].id@ == xv {
                            lemma_seq_lt_irreflexive(xv);
                        }
                    }
                    crate::store::lemma_filter_none(post, has_id(y));
                    assert(pre.filter(has_id(y)) + Seq::<Node>::empty() =~= pre.filter(has_id(y)));
                    assert(pre.filter(has_id(y)) + seq![*x] + Seq::<Node>::empty() =~= (pre.filter(has_id(y))
                        + Seq::<Node>::empty()).push(*x));
                } else {
                    assert(pre.filter(has_id(y)) + Seq::<Node>::empty() + post.filter(has_id(y))
                        =~= pre.filter(has_id(y)) + post.filter(has_id(y)));
                }
            }
        }
        i += 1;
    }
    assert(graph.nodes@.subrange(0, graph.nodes@.len() as int) =~= graph.nodes@);
    r
}

/// The label a tree line shows for a node: below the top level, the part
/// of its ID after the last `.`; at the top, the whole ID.
pub open spec fn leaf_of(id: Seq<char>, depth: nat) -> Seq<char> {
    if depth > 0 {
        after_last(id, '.')
    } else {
        id
    }
}

/// The label of a node at `depth` in a printed tree.
pub fn leaf_label(id: &str, depth: usize) -> (r: String)
    ensures
        r@ == leaf_of(id@, depth as nat),
{
    if depth > 0 {
        let x = chars_of(id);
        let l = crate::history::after_last_chars(&x, '.');
        string_of(&l)
    } else {
        let x = chars_of(id);
        string_of(&x)
    }
}

/// A node of a printed tree: the node, its effective tags, and the trees of
/// its children that are shown.
pub struct Tree<'a> {
    pub node: &'a Node,
    pub effective_tags: Vec<String>,
    pub children: Vec<Tree<'a>>,
}

/// The lines of a tree in print order: depth, node and effective tags.
pub open spec fn tree_lines<'a>(t: Tree<'a>, depth: nat) -> Seq<(nat, Node, Seq<Seq<char>>)>
    decreases t, 0nat,
{
    seq![(depth, *t.node, t.effective_tags.deep_view())] + forest_lines(t.children@, depth + 1)
}

/// The lines of a list of trees, one tree after the other.
pub open spec fn forest_lines<'a>(ts: Seq<Tree<'a>>, depth: nat) -> Seq<(nat, Node, Seq<Seq<char>>)>
    decreases ts, 1nat,
{
    if ts.len() == 0 {
        Seq::empty()
    } else {
        forest_lines(ts.drop_last(), depth) + tree_lines(ts.last(), depth)
    }
}

/// A node is shown when there is no tag filter, or when it or a descendant
/// carries the tag.
pub open spec fn shown_under(nodes: Seq<Node>, id: Seq<char>, filter: Option<Seq<char>>) -> bool {
    match filter {
        Some(t) => subtree_tagged(nodes, id, t),
        None => true,
    }
}

/// The children of `id` as they appear in `order`.
pub open spec fn kids_in(order: Seq<Node>, id: Seq<char>) -> Seq<Node> {
    order.filter(|n: Node| is_child_of(n, id))
}

/// The lines, depth and node, that the tree below `n` shows at `depth`,
/// looking `fuel` levels down.
pub open spec fn lines_below(
    nodes: Seq<Node>,
    order: Seq<Node>,
    n: Node,
    filter: Option<Seq<char>>,
    depth: nat,
    fuel: nat,
) -> Seq<(nat, Node)>
    decreases fuel, 0nat,
{
    if fuel == 0 || !shown_under(nodes, n.id@, filter) {
        Seq::empty()
    } else {
        seq![(depth, n)] + lines_of_list(
            nodes,
            order,
            kids_in(order, n.id@),
            filter,
            depth + 1,
            (fuel - 1) as nat,
        )
    }
}

/// The lines that each node of `list` shows, in turn.
pub open spec fn lines_of_list(
    nodes: Seq<Node>,
    order: Seq<Node>,
    list: Seq<Node>,
    filter: Option<Seq<char>>,
    depth: nat,
    fuel: nat,
) -> Seq<(nat, Node)>
    decreases fuel, list.len(),
{
    if list.len() == 0 {
        Seq::empty()
    } else {
        lines_of_list(nodes, order, list.drop_last(), filter, depth, fuel) + lines_below(
            nodes,
            order,
            list.last(),
            filter,
            depth,
            fuel,
        )
    }
}

/// Each line carries the node's effective tags, sorted and without
/// repeats.
pub open spec fn tags_fit(nodes: Seq<Node>, lines: Seq<(nat, Node, Seq<Seq<char>>)>) -> bool {
    forall|i: int|
        #![trigger lines[i]]
        0 <= i < lines.len() ==> strictly_sorted(lines[i].2) && forall|t: Seq<char>|
            #[trigger] lines[i].2.contains(t) <==> has_effective_tag(nodes, lines[i].1.id@, t)
}

/// The lines without their tags.
pub open spec fn bare<'a>(lines: Seq<(nat, Node, Seq<Seq<char>>)>) -> Seq<(nat, Node)> {
    lines.map_values(|l: (nat, Node, Seq<Seq<char>>)| (l.0, l.1))
}

/// The full tree below a node: enough fuel for its whole subtree.
pub open spec fn tree_spec(nodes: Seq<Node>, order: Seq<Node>, n: Node, filter: Option<Seq<char>>) -> Seq<
    (nat, Node),
> {
    lines_below(nodes, order, n, filter, 0, (choose|f: nat| height_within(nodes, n.id@, f)) + 1)
}

/// The trees of `roots`, one after the other.
pub open spec fn forest_spec(
    nodes: Seq<Node>,
    order: Seq<Node>,
    roots: Seq<Node>,
    filter: Option<Seq<char>>,
) -> Seq<(nat, Node)>
    decreases roots.len(),
{
    if roots.len() == 0 {
        Seq::empty()
    } else {
        forest_spec(nodes, order, roots.drop_last(), filter) + tree_spec(nodes, order, roots.last(), filter)
    }
}

pub open spec fn opt_view(o: Option<&str>) -> Option<Seq<char>> {
    match o {
        Some(s) => Some(s@),
        None => None,
    }
}

proof fn lemma_bare_concat(a: Seq<(nat, Node, Seq<Seq<char>>)>, b: Seq<(nat, Node, Seq<Seq<char>>)>)
    ensures
        bare(a + b) == bare(a) + bare(b),
{
    assert(bare(a + b) =~= bare(a) + bare(b));
}

proof fn lemma_tags_fit_concat(nodes: Seq<Node>, a: Seq<(nat, Node, Seq<Seq<char>>)>, b: Seq<(nat, Node, Seq<Seq<char>>)>)
    requires
        tags_fit(nodes, a),
        tags_fit(nodes, b),
    ensures
        tags_fit(nodes, a + b),
{
    let c = a + b;
    assert forall|i: int| #![trigger c[i]] 0 <= i < c.len() implies strictly_sorted(c[i].2) && forall|t: Seq<char>|
        #[trigger] c[i].2.contains(t) <==> has_effective_tag(nodes, c[i].1.id@, t) by {
        if i < a.len() {
            assert(c[i] == a[i]);
        } else {
            assert(c[i] == b[i - a.len()]);
        }
    }
}

/// A node of `order` is a node of the graph.
proof fn lemma_in_order(order: Seq<Node>, nodes: Seq<Node>, c: Node)
    requires
        order.to_multiset() == nodes.to_multiset(),
        order.contains(c),
    ensures
        exists|k: int| 0 <= k < nodes.len() && nodes[k] == c,
{
    broadcast use vstd::seq_lib::group_to_multiset_ensures;

    assert(order.to_multiset().count(c) > 0);
    assert(nodes.to_multiset().count(c) > 0);
    assert(nodes.contains(c));
}

/// Builds the tree below `n` at `depth`, looking `fuel` levels down.
fn build<'a>(
    graph: &'a Graph,
    order: &Vec<&'a Node>,
    n: &'a Node,
    filter: Option<&str>,
    Ghost(depth): Ghost<nat>,
    Ghost(fuel): Ghost<nat>,
) -> (r: Option<Tree<'a>>)
    requires
        hierarchy_finite(graph.nodes@),
        forall|id: Seq<char>| #[trigger] subtree_finite(graph.nodes@, id),
        order@.map_values(|x: &Node| *x).to_multiset() == graph.nodes@.to_multiset(),
        fuel > 0,
        height_within(graph.nodes@, n.id@, (fuel - 1) as nat),
    ensures
        match r {
            Some(t) => {
                &&& t.node == n
                &&& bare(tree_lines(t, depth)) == lines_below(
                    graph.nodes@,
                    order@.map_values(|x: &Node| *x),
                    *n,
                    opt_view(filter),
                    depth,
                    fuel,
                )
                &&& tags_fit(graph.nodes@, tree_lines(t, depth))
            },
            None => lines_below(
                graph.nodes@,
                order@.map_values(|x: &Node| *x),
                *n,
                opt_view(filter),
                depth,
                fuel,
            ) == Seq::<(nat, Node)>::empty(),
        },
    decreases fuel,
{
    let ghost nodes = graph.nodes@;
    let ghost ord = order@.map_values(|x: &Node| *x);
    let shown = match filter {
        Some(tag) => subtree_has_tag(graph, n.id.as_str(), tag),
        None => true,
    };
    if !shown {
        return None;
    }
    let tags = graph.effective_tags(n.id.as_str());
    let ghost pred = |m: Node| is_child_of(m, n.id@);
    let ghost ks = kids_in(ord, n.id@);
    let mut children: Vec<Tree<'a>> = Vec::new();
    let mut i: usize = 0;
    let ghost mut seen: Seq<Node> = Seq::empty();
    proof {
        assert(ord.subrange(0, 0) =~= Seq::<Node>::empty());
        assert(ord.subrange(0, 0).filter(pred) =~= Seq::<Node>::empty());
        assert(forest_lines(children@, depth + 1) =~= Seq::empty());
        assert(bare(Seq::<(nat, Node, Seq<Seq<char>>)>::empty()) =~= Seq::<(nat, Node)>::empty());
    }
    while i < order.len()
        invariant
            i <= order@.len(),
            nodes == graph.nodes@,
            ord == order@.map_values(|x: &Node| *x),
            ord.to_multiset() == nodes.to_multiset(),
            hierarchy_finite(nodes),
            forall|id: Seq<char>| #[trigger] subtree_finite(nodes, id),
            fuel > 0,
            height_within(nodes, n.id@, (fuel - 1) as nat),
            pred == (|m: Node| is_child_of(m, n.id@)),
            seen == ord.subrange(0, i as int).filter(pred),
            bare(forest_lines(children@, depth + 1)) == lines_of_list(
                nodes,
                ord,
                seen,
                opt_view(filter),
                depth + 1,
                (fuel - 1) as nat,
            ),
            tags_fit(nodes, forest_lines(children@, depth + 1)),
        decreases order@.len() - i,
    {
        let c = order[i];
        let hit = match &c.parent {
            Some(p) => crate::text::str_eq(p.as_str(), n.id.as_str()),
            None => false,
        };
        proof {
            assert(ord[i as int] == *c);
            assert(ord.subrange(0, i + 1) =~= ord.subrange(0, i as int).push(*c));
            ord.subrange(0, i as int).lemma_filter_push(*c, pred);
        }
        if hit {
            proof {
                assert(ord.contains(*c));
                lemma_in_order(ord, nodes, *c);
                let k = choose|k: int| 0 <= k < nodes.len() && nodes[k] == *c;
                assert(is_child_of(nodes[k], n.id@));
            }
            let sub = build(graph, order, c, filter, Ghost(depth + 1), Ghost((fuel - 1) as nat));
            let ghost prev = seen;
            proof {
                seen = seen.push(*c);
                assert(seen.drop_last() =~= prev);
            }
            proof {
                assert(seen.last() == *c);
                assert(lines_of_list(nodes, ord, seen, opt_view(filter), depth + 1, (fuel - 1) as nat)
                    == lines_of_list(nodes, ord, prev, opt_view(filter), depth + 1, (fuel - 1) as nat)
                    + lines_below(nodes, ord, *c, opt_view(filter), depth + 1, (fuel - 1) as nat));
            }
            match sub {
                Some(t) => {
                    let ghost fl = forest_lines(children@, depth + 1);
                    let ghost old_children = children@;
                    children.push(t);
                    proof {
                        assert(children@.drop_last() =~= old_children);
                        assert(children@.last() == t);
                        assert(forest_lines(children@, depth + 1) == fl + tree_lines(t, depth + 1));
                        lemma_bare_concat(fl, tree_lines(t, depth + 1));
                        lemma_tags_fit_concat(nodes, fl, tree_lines(t, depth + 1));
                    }
                },
                None => {
                    proof {
                        let fl = forest_lines(children@, depth + 1);
                        assert(bare(fl) + Seq::<(nat, Node)>::empty() =~= bare(fl));
                    }
                },
            }
        }
        i += 1;
    }
    proof {
        assert(ord.subrange(0, ord.len() as int) =~= ord);
    }
    let t = Tree { node: n, effective_tags: tags, children };
    proof {
        let head = seq![(depth, *n, t.effective_tags.deep_view())];
        let fl = forest_lines(t.children@, depth + 1);
        assert(tree_lines(t, depth) == head + fl);
        lemma_bare_concat(head, fl);
        assert(bare(head) =~= seq![(depth, *n)]);
        assert(tags_fit(nodes, head)) by {
            assert forall|i: int| #![trigger head[i]] 0 <= i < head.len() implies strictly_sorted(head[i].2) && forall|tg: Seq<char>|
                #[trigger] head[i].2.contains(tg) <==> has_effective_tag(nodes, head[i].1.id@, tg) by {
                assert(head[i] == (depth, *n, t.effective_tags.deep_view()));
            }
        }
        lemma_tags_fit_concat(nodes, head, fl);
    }
    Some(t)
}

/// The trees below `roots`, in that order, each node with its children in
/// ID order; with a tag filter, only the subtrees in which the node or a
/// descendant carries the tag.
pub fn build_forest<'a>(graph: &'a Graph, roots: &Vec<&'a Node>, tag_filter: Option<&str>) -> (r: Vec<
    Tree<'a>,
>)
    requires
        hierarchy_finite(graph.nodes@),
        forall|id: Seq<char>| #[trigger] subtree_finite(graph.nodes@, id),
    ensures
        exists|order: Seq<Node>|
            id_order(order, graph.nodes@) && bare(forest_lines(r@, 0)) == forest_spec(
                graph.nodes@,
                order,
                roots@.map_values(|x: &Node| *x),
                opt_view(tag_filter),
            ),
        tags_fit(graph.nodes@, forest_lines(r@, 0)),
{
    let order = sorted_by_id(graph);
    let ghost ord = order@.map_values(|x: &Node| *x);
    let ghost rs = roots@.map_values(|x: &Node| *x);
    let mut out: Vec<Tree<'a>> = Vec::new();
    let mut i: usize = 0;
    proof {
        assert(rs.subrange(0, 0) =~= Seq::<Node>::empty());
        assert(bare(forest_lines(out@, 0)) =~= Seq::<(nat, Node)>::empty());
    }
    while i < roots.len()
        invariant
            i <= roots@.len(),
            rs == roots@.map_values(|x: &Node| *x),
            ord == order@.map_values(|x: &Node| *x),
            id_order(ord, graph.nodes@),
            hierarchy_finite(graph.nodes@),
            forall|id: Seq<char>| #[trigger] subtree_finite(graph.nodes@, id),
            bare(forest_lines(out@, 0)) == forest_spec(graph.nodes@, ord, rs.subrange(0, i as int), opt_view(tag_filter)),
            tags_fit(graph.nodes@, forest_lines(out@, 0)),
        decreases roots@.len() - i,
    {
        let n = roots[i];
        let ghost h = choose|f: nat| height_within(graph.nodes@, n.id@, f);
        proof {
            assert(subtree_finite(graph.nodes@, n.id@));
            assert(rs[i as int] == *n);
            assert(rs.subrange(0, i + 1).drop_last() =~= rs.subrange(0, i as int));
            assert(rs.subrange(0, i + 1).last() == *n);
        }
        let sub = build(graph, &order, n, tag_filter, Ghost(0), Ghost(h + 1));
        let ghost fl = forest_lines(out@, 0);
        match sub {
            Some(t) => {
                let ghost old_out = out@;
                out.push(t);
                proof {
                    assert(out@.drop_last() =~= old_out);
                    assert(forest_lines(out@, 0) == fl + tree_lines(t, 0));
                    lemma_bare_concat(fl, tree_lines(t, 0));
                    lemma_tags_fit_concat(graph.nodes@, fl, tree_lines(t, 0));
                }
            },
            None => {
                assert(bare(fl) + Seq::<(nat, Node)>::empty() =~= bare(fl));
            },
        }
        i += 1;
    }
    assert(rs.subrange(0, rs.len() as int) =~= rs);
    out
}

} // verus!
