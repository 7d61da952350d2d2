//! The arena of a skip list as a sequence of nodes: what makes it well
//! formed, the map that it stands for, and what a put does to both.

use crate::lex::{lemma_lex_total, lemma_lex_transitive, lex_lt};
use crate::skip_list::Node;
use vstd::prelude::*;

verus! {

// ---------------------------------------------------------------------------
// The arena as a sequence of nodes
// ---------------------------------------------------------------------------

/// The key that node `i` holds.
pub open spec fn node_key(nodes: Seq<Node>, i: int) -> Seq<u8> {
    nodes[i].key->0@
}

/// The value that node `i` holds.
pub open spec fn node_value(nodes: Seq<Node>, i: int) -> Seq<u8> {
    nodes[i].value->0@
}

/// The number of levels on which node `i` stands.
pub open spec fn node_height(nodes: Seq<Node>, i: int) -> int {
    nodes[i].forward@.len() as int
}

/// The node that follows node `i` on level `l`, if any does.
pub open spec fn node_link(nodes: Seq<Node>, i: int, l: int) -> Option<usize> {
    nodes[i].forward@[l]
}

/// Node `i` is an entry: a node other than the head.
pub open spec fn is_entry(nodes: Seq<Node>, i: int) -> bool {
    1 <= i < nodes.len()
}

/// The link that leaves node `i` on level `l` is empty, or leads to an entry
/// that takes part in level `l` and holds a greater key.
pub open spec fn link_ok(nodes: Seq<Node>, i: int, l: int) -> bool {
    match node_link(nodes, i, l) {
        Some(j) => {
            &&& is_entry(nodes, j as int)
            &&& l < node_height(nodes, j as int)
            &&& i >= 1 ==> lex_lt(node_key(nodes, i), node_key(nodes, j as int))
        },
        None => true,
    }
}

/// Every link of every node is in order.
pub open spec fn links_ok(nodes: Seq<Node>) -> bool {
    forall|i: int, l: int|
        0 <= i < nodes.len() && 0 <= l < node_height(nodes, i) ==> #[trigger] link_ok(nodes, i, l)
}

pub(crate) open spec fn entry_ok(nodes: Seq<Node>, i: int, current_level: int) -> bool {
    &&& nodes[i].key is Some
    &&& nodes[i].value is Some
    &&& 1 <= node_height(nodes, i) <= current_level + 1
}

pub(crate) open spec fn reaches_top(nodes: Seq<Node>, i: int, current_level: int) -> bool {
    is_entry(nodes, i) && node_height(nodes, i) == current_level + 1
}

pub(crate) open spec fn shape_ok(nodes: Seq<Node>, max_level: int, current_level: int) -> bool {
    &&& nodes.len() >= 1
    &&& 0 <= current_level <= max_level
    &&& nodes[0].key is None
    &&& nodes[0].value is None
    &&& node_height(nodes, 0) == max_level + 1
    &&& forall|i: int| is_entry(nodes, i) ==> #[trigger] entry_ok(nodes, i, current_level)
    &&& current_level > 0 ==> exists|i: int| #[trigger] reaches_top(nodes, i, current_level)
}

/// On level 0 the link of a node leads to the node of the next rank, and
/// only the node of the last rank has none.
pub(crate) open spec fn base_link_ok(nodes: Seq<Node>, rank: Seq<int>, i: int) -> bool {
    match node_link(nodes, i, 0) {
        Some(j) => is_entry(nodes, j as int) && rank[j as int] == rank[i] + 1,
        None => rank[i] == nodes.len() - 2,
    }
}

pub(crate) open spec fn ranks_ok(nodes: Seq<Node>, rank: Seq<int>) -> bool {
    &&& rank.len() == nodes.len()
    &&& rank[0] == -1
    &&& forall|i: int| is_entry(nodes, i) ==> 0 <= #[trigger] rank[i] < nodes.len() - 1
    &&& forall|i: int, j: int|
        #![trigger rank[i], rank[j]]
        is_entry(nodes, i) && is_entry(nodes, j) && i != j ==> rank[i] != rank[j]
    &&& forall|i: int, j: int|
        #![trigger rank[i], rank[j]]
        is_entry(nodes, i) && is_entry(nodes, j) && rank[i] < rank[j] ==> lex_lt(
            node_key(nodes, i),
            node_key(nodes, j),
        )
    &&& forall|i: int| 0 <= i < nodes.len() ==> #[trigger] base_link_ok(nodes, rank, i)
}

/// The link that leaves node `i` on level `l` passes over no entry that
/// stands on that level: it leads to the first such entry after `i`.
pub(crate) open spec fn link_tight(nodes: Seq<Node>, rank: Seq<int>, i: int, l: int) -> bool {
    forall|m: int|
        is_entry(nodes, m) && l < node_height(nodes, m) && rank[i] < #[trigger] rank[m]
            ==> node_link(nodes, i, l) is Some && rank[node_link(nodes, i, l)->0 as int] <= rank[m]
}

pub(crate) open spec fn levels_ok(nodes: Seq<Node>, rank: Seq<int>) -> bool {
    forall|i: int, l: int|
        0 <= i < nodes.len() && 0 <= l < node_height(nodes, i) ==> #[trigger] link_tight(
            nodes,
            rank,
            i,
            l,
        )
}

pub(crate) open spec fn arena_ok(nodes: Seq<Node>, rank: Seq<int>, max_level: int, current_level: int) -> bool {
    &&& shape_ok(nodes, max_level, current_level)
    &&& links_ok(nodes)
    &&& ranks_ok(nodes, rank)
    &&& levels_ok(nodes, rank)
}

/// Entry `i` holds key `k`.
pub(crate) open spec fn holds(nodes: Seq<Node>, i: int, k: Seq<u8>) -> bool {
    is_entry(nodes, i) && node_key(nodes, i) == k
}

/// The map that the entries make: each key that some entry holds, with that
/// entry's value.
pub(crate) open spec fn entries(nodes: Seq<Node>) -> Map<Seq<u8>, Seq<u8>> {
    Map::new(
        |k: Seq<u8>| exists|i: int| holds(nodes, i, k),
        |k: Seq<u8>| node_value(nodes, choose|i: int| holds(nodes, i, k)),
    )
}

// ---------------------------------------------------------------------------
// Facts about a well-formed arena
// ---------------------------------------------------------------------------

/// Rank and key order agree on entries.
pub(crate) proof fn lemma_rank_follows_keys(nodes: Seq<Node>, rank: Seq<int>, i: int, j: int)
    requires
        ranks_ok(nodes, rank),
        is_entry(nodes, i),
        is_entry(nodes, j),
    ensures
        lex_lt(node_key(nodes, i), node_key(nodes, j)) <==> rank[i] < rank[j],
        node_key(nodes, i) == node_key(nodes, j) <==> i == j,
{
    lemma_lex_total(node_key(nodes, i), node_key(nodes, j));
    if rank[i] < rank[j] {
    } else if rank[j] < rank[i] {
    } else {
        assert(i == j);
    }
}

/// A link leads to a node of higher rank.
pub(crate) proof fn lemma_link_climbs(nodes: Seq<Node>, rank: Seq<int>, i: int, l: int)
    requires
        ranks_ok(nodes, rank),
        links_ok(nodes),
        0 <= i < nodes.len(),
        0 <= l < node_height(nodes, i),
        node_link(nodes, i, l) is Some,
    ensures
        rank[i] < rank[node_link(nodes, i, l)->0 as int],
{
    let j = node_link(nodes, i, l)->0 as int;
    assert(link_ok(nodes, i, l));
    if i >= 1 {
        lemma_rank_follows_keys(nodes, rank, i, j);
    }
}

/// An entry's key is in the map, with the entry's value.
pub(crate) proof fn lemma_entry_in_map(nodes: Seq<Node>, rank: Seq<int>, i: int)
    requires
        ranks_ok(nodes, rank),
        is_entry(nodes, i),
    ensures
        entries(nodes).contains_key(node_key(nodes, i)),
        entries(nodes)[node_key(nodes, i)] == node_value(nodes, i),
{
    let k = node_key(nodes, i);
    assert(holds(nodes, i, k));
    let c = choose|c: int| holds(nodes, c, k);
    lemma_rank_follows_keys(nodes, rank, i, c);
}

/// A key that falls strictly between a node and its level-0 successor is
/// held by no entry.
pub(crate) proof fn lemma_gap_is_empty(nodes: Seq<Node>, rank: Seq<int>, pred: int, key: Seq<u8>)
    requires
        ranks_ok(nodes, rank),
        0 <= pred < nodes.len(),
        pred >= 1 ==> lex_lt(node_key(nodes, pred), key),
        node_link(nodes, pred, 0) matches Some(j) ==> lex_lt(key, node_key(nodes, j as int)),
    ensures
        !entries(nodes).contains_key(key),
{
    assert(base_link_ok(nodes, rank, pred));
    assert forall|m: int| !holds(nodes, m, key) by {
        if holds(nodes, m, key) {
            if rank[m] <= rank[pred] {
                assert(pred >= 1);
                lemma_rank_follows_keys(nodes, rank, m, pred);
                lemma_lex_total(key, node_key(nodes, pred));
            } else {
                let j = node_link(nodes, pred, 0)->0 as int;
                lemma_rank_follows_keys(nodes, rank, j, m);
                lemma_lex_total(key, node_key(nodes, j));
            }
        }
    }
}

// ---------------------------------------------------------------------------
// What `put` does to the arena
// ---------------------------------------------------------------------------

/// On level `l` a node with key `key` belongs right after node `u`: `u`
/// takes part in the level, its key is smaller and the key after it, if
/// there is one, is greater.
pub open spec fn splice_point(nodes: Seq<Node>, l: int, u: int, key: Seq<u8>) -> bool {
    &&& 0 <= u < nodes.len()
    &&& 0 <= l < node_height(nodes, u)
    &&& u >= 1 ==> lex_lt(node_key(nodes, u), key)
    &&& node_link(nodes, u, l) matches Some(j) ==> lex_lt(key, node_key(nodes, j as int))
}

/// `after` is `before` with the value of entry `at` replaced by `value`:
/// no node is added and no key, height or link changes.
pub open spec fn value_replaced(before: Seq<Node>, after: Seq<Node>, at: int, value: Seq<u8>) -> bool {
    &&& after.len() == before.len()
    &&& is_entry(before, at)
    &&& after[at].value is Some
    &&& node_value(after, at) == value
    &&& forall|i: int|
        0 <= i < before.len() ==> {
            &&& (#[trigger] after[i]).key == before[i].key
            &&& after[i].forward == before[i].forward
            &&& i != at ==> after[i].value == before[i].value
        }
}

/// `after` is `before` with one node added at the end, which holds `key` and
/// `value`, has `level + 1` forward slots, and is linked in on the levels
/// below `done`: on each such level `l` the link of node `ups[l]` now leads
/// to the new node, and the new node's link leads where that link led. No
/// other link, and no key or value of an older node, has changed.
pub open spec fn spliced(
    before: Seq<Node>,
    after: Seq<Node>,
    ups: Seq<int>,
    done: int,
    level: int,
    key: Seq<u8>,
    value: Seq<u8>,
) -> bool {
    let x = before.len() as int;
    &&& x <= usize::MAX
    &&& after.len() == x + 1
    &&& after[x].key is Some
    &&& node_key(after, x) == key
    &&& after[x].value is Some
    &&& node_value(after, x) == value
    &&& node_height(after, x) == level + 1
    &&& forall|i: int|
        0 <= i < x ==> {
            &&& (#[trigger] after[i]).key == before[i].key
            &&& after[i].value == before[i].value
            &&& node_height(after, i) == node_height(before, i)
        }
    &&& forall|i: int, l: int|
        0 <= i < x && 0 <= l < node_height(before, i) ==> #[trigger] node_link(after, i, l) == (if l
            < done && i == ups[l] {
            Some(x as usize)
        } else {
            node_link(before, i, l)
        })
    &&& forall|l: int|
        0 <= l <= level ==> #[trigger] node_link(after, x, l) == (if l < done {
            node_link(before, ups[l], l)
        } else {
            None
        })
}

/// One step of the splicing: with the new node linked in on the levels
/// below `lv`, redirecting the link of node `ups[lv]` to the new node, and
/// giving the new node the link that was redirected, links it in on level
/// `lv` too.
pub(crate) proof fn lemma_splice_step(
    before: Seq<Node>,
    a: Seq<Node>,
    c: Seq<Node>,
    ups: Seq<int>,
    lv: int,
    level: int,
    key: Seq<u8>,
    value: Seq<u8>,
)
    requires
        spliced(before, a, ups, lv, level, key, value),
        0 <= lv <= level,
        0 <= ups[lv] < before.len(),
        lv < node_height(before, ups[lv]),
        c.len() == a.len(),
        forall|i: int| 0 <= i < a.len() && i != before.len() && i != ups[lv] ==> c[i] == a[i],
        c[before.len() as int].key == a[before.len() as int].key,
        c[before.len() as int].value == a[before.len() as int].value,
        c[before.len() as int].forward@ == a[before.len() as int].forward@.update(
            lv,
            node_link(a, ups[lv], lv),
        ),
        c[ups[lv]].key == a[ups[lv]].key,
        c[ups[lv]].value == a[ups[lv]].value,
        c[ups[lv]].forward@ == a[ups[lv]].forward@.update(lv, Some(before.len() as usize)),
    ensures
        spliced(before, c, ups, lv + 1, level, key, value),
{
    let x = before.len() as int;
    let u = ups[lv];
    assert(a[u].key == before[u].key);
    assert(node_link(a, u, lv) == node_link(before, u, lv));
    assert forall|i: int| 0 <= i < x implies {
        &&& (#[trigger] c[i]).key == before[i].key
        &&& c[i].value == before[i].value
        &&& node_height(c, i) == node_height(before, i)
    } by {
        assert(a[i].key == before[i].key);
        if i != u {
            assert(c[i] == a[i]);
        }
    }
    assert forall|i: int, m: int|
        0 <= i < x && 0 <= m < node_height(before, i) implies #[trigger] node_link(c, i, m) == (if m
        < lv + 1 && i == ups[m] {
        Some(x as usize)
    } else {
        node_link(before, i, m)
    }) by {
        assert(a[i].key == before[i].key);
        assert(node_link(a, i, m) == (if m < lv && i == ups[m] {
            Some(x as usize)
        } else {
            node_link(before, i, m)
        }));
        if i != u {
            assert(c[i] == a[i]);
        }
    }
    assert forall|m: int| 0 <= m <= level implies #[trigger] node_link(c, x, m) == (if m < lv + 1 {
        node_link(before, ups[m], m)
    } else {
        None
    }) by {
        assert(node_link(a, x, m) == (if m < lv {
            node_link(before, ups[m], m)
        } else {
            None
        }));
    }
}

/// The ranks after a node was added at rank `r`: the nodes that stood at `r`
/// or above move up by one.
pub(crate) open spec fn shifted_ranks(rank: Seq<int>, r: int) -> Seq<int> {
    Seq::new(
        rank.len() + 1,
        |m: int|
            if m == rank.len() {
                r
            } else if rank[m] >= r {
                rank[m] + 1
            } else {
                rank[m]
            },
    )
}

/// The greater of two numbers.
pub open spec fn max_int(a: int, b: int) -> int {
    if a >= b {
        a
    } else {
        b
    }
}

/// Above the highest level in use the head has no link, so a new node
/// belongs right after the head there.
pub(crate) proof fn lemma_head_above_top(nodes: Seq<Node>, max_level: int, current_level: int, l: int, key: Seq<u8>)
    requires
        shape_ok(nodes, max_level, current_level),
        links_ok(nodes),
        current_level < l <= max_level,
    ensures
        splice_point(nodes, l, 0, key),
        node_link(nodes, 0, l) is None,
{
    assert(link_ok(nodes, 0, l));
    if node_link(nodes, 0, l) is Some {
        let j = node_link(nodes, 0, l)->0 as int;
        assert(entry_ok(nodes, j, current_level));
    }
}

/// Rank order is key order, also where the ranks are equal or one node is
/// compared with itself.
pub(crate) proof fn lemma_rank_le_key_le(nodes: Seq<Node>, rank: Seq<int>, i: int, j: int)
    requires
        ranks_ok(nodes, rank),
        is_entry(nodes, i),
        is_entry(nodes, j),
        rank[i] <= rank[j],
    ensures
        i == j || lex_lt(node_key(nodes, i), node_key(nodes, j)),
{
    if rank[i] == rank[j] {
        assert(i == j);
    }
}

/// Replacing the value of an entry keeps the arena well formed and maps the
/// entry's key to the new value.
pub(crate) proof fn lemma_value_replaced(
    before: Seq<Node>,
    after: Seq<Node>,
    rank: Seq<int>,
    max_level: int,
    current_level: int,
    at: int,
    value: Seq<u8>,
)
    requires
        arena_ok(before, rank, max_level, current_level),
        value_replaced(before, after, at, value),
    ensures
        arena_ok(after, rank, max_level, current_level),
        entries(after) == entries(before).insert(node_key(before, at), value),
{
    assert forall|i: int| 0 <= i < before.len() implies node_key(after, i) == node_key(before, i)
        && node_height(after, i) == node_height(before, i) by {
        assert(after[i].key == before[i].key);
    }
    assert forall|i: int| is_entry(after, i) implies #[trigger] entry_ok(
        after,
        i,
        current_level,
    ) by {
        assert(entry_ok(before, i, current_level));
        assert(after[i].key == before[i].key);
    }
    assert(after[0].key == before[0].key);
    if current_level > 0 {
        let w = choose|w: int| reaches_top(before, w, current_level);
        assert(after[w].key == before[w].key);
        assert(reaches_top(after, w, current_level));
    }
    assert forall|i: int, l: int|
        0 <= i < after.len() && 0 <= l < node_height(after, i) implies #[trigger] link_ok(
        after,
        i,
        l,
    ) by {
        assert(after[i].key == before[i].key);
        assert(link_ok(before, i, l));
        if node_link(before, i, l) is Some {
            let j = node_link(before, i, l)->0 as int;
            assert(after[j].key == before[j].key);
        }
    }
    assert forall|i: int| 0 <= i < after.len() implies #[trigger] base_link_ok(after, rank, i) by {
        assert(after[i].key == before[i].key);
        assert(base_link_ok(before, rank, i));
    }
    assert(ranks_ok(after, rank)) by {
        assert forall|i: int, j: int|
            #![trigger rank[i], rank[j]]
            is_entry(after, i) && is_entry(after, j) && rank[i] < rank[j] implies lex_lt(
            node_key(after, i),
            node_key(after, j),
        ) by {
            assert(node_key(after, i) == node_key(before, i));
            assert(node_key(after, j) == node_key(before, j));
        }
    }
    assert forall|i: int, l: int|
        0 <= i < after.len() && 0 <= l < node_height(after, i) implies #[trigger] link_tight(
        after,
        rank,
        i,
        l,
    ) by {
        assert(after[i].key == before[i].key);
        assert(link_tight(before, rank, i, l));
        assert forall|m: int|
            is_entry(after, m) && l < node_height(after, m) && rank[i] < #[trigger] rank[m]
                implies node_link(after, i, l) is Some && rank[node_link(after, i, l)->0 as int]
                <= rank[m] by {
            assert(after[m].key == before[m].key);
        }
    }
    let k = node_key(before, at);
    let want = entries(before).insert(k, value);
    assert forall|q: Seq<u8>| entries(after).contains_key(q) == want.contains_key(q) by {
        if entries(after).contains_key(q) {
            let i = choose|i: int| holds(after, i, q);
            assert(holds(before, i, q));
        }
        if want.contains_key(q) {
            if q == k {
                assert(holds(after, at, q));
            } else {
                let i = choose|i: int| holds(before, i, q);
                assert(holds(after, i, q));
            }
        }
    }
    assert forall|q: Seq<u8>| entries(after).contains_key(q) implies entries(after)[q] == want[q] by {
        let i = choose|i: int| holds(after, i, q);
        assert(holds(after, i, q));
        lemma_entry_in_map(after, rank, i);
        assert(holds(before, i, q));
        lemma_entry_in_map(before, rank, i);
        if q == k {
            lemma_rank_follows_keys(after, rank, i, at);
        } else {
            assert(i != at);
            assert(after[i].value == before[i].value);
        }
    }
    assert(entries(after) =~= want);
}

/// A node spliced in on every one of its levels, each time between a
/// smaller and a greater key, leaves every link in order.
pub(crate) proof fn lemma_spliced_links(
    before: Seq<Node>,
    after: Seq<Node>,
    ups: Seq<int>,
    level: int,
    max_level: int,
    current_level: int,
    key: Seq<u8>,
    value: Seq<u8>,
)
    requires
        shape_ok(before, max_level, current_level),
        links_ok(before),
        0 <= level <= max_level,
        ups.len() == max_level + 1,
        forall|l: int| 0 <= l <= level ==> #[trigger] splice_point(before, l, ups[l], key),
        spliced(before, after, ups, level + 1, level, key, value),
    ensures
        shape_ok(after, max_level, max_int(current_level, level)),
        links_ok(after),
{
    let x = before.len() as int;
    let top = max_int(current_level, level);
    assert forall|i: int| 0 <= i < x implies node_key(after, i) == node_key(before, i) by {
        assert(after[i].key == before[i].key);
    }
    assert forall|i: int| is_entry(after, i) implies #[trigger] entry_ok(after, i, top) by {
        if i < x {
            assert(entry_ok(before, i, current_level));
            assert(after[i].key == before[i].key);
        }
    }
    assert(after[0].key == before[0].key);
    if top > 0 {
        if level >= current_level {
            assert(reaches_top(after, x, top));
        } else {
            let w = choose|w: int| reaches_top(before, w, current_level);
            assert(after[w].key == before[w].key);
            assert(reaches_top(after, w, top));
        }
    }
    assert forall|i: int, l: int|
        0 <= i < after.len() && 0 <= l < node_height(after, i) implies #[trigger] link_ok(
        after,
        i,
        l,
    ) by {
        if i == x {
            assert(splice_point(before, l, ups[l], key));
            assert(node_link(after, x, l) == node_link(before, ups[l], l));
            assert(link_ok(before, ups[l], l));
            if node_link(after, x, l) is Some {
                let j = node_link(after, x, l)->0 as int;
                assert(after[j].key == before[j].key);
            }
        } else {
            assert(after[i].key == before[i].key);
            if l <= level && i == ups[l] {
                assert(splice_point(before, l, ups[l], key));
                assert(node_link(after, i, l) == Some(x as usize));
            } else {
                assert(node_link(after, i, l) == node_link(before, i, l));
                assert(link_ok(before, i, l));
                if node_link(before, i, l) is Some {
                    let j = node_link(before, i, l)->0 as int;
                    assert(after[j].key == before[j].key);
                }
            }
        }
    }
}

/// The new node takes the rank after its level-0 predecessor, and the ranks
/// shifted to make room agree with keys and level-0 links again.
pub(crate) proof fn lemma_spliced_ranks(
    before: Seq<Node>,
    after: Seq<Node>,
    rank: Seq<int>,
    ups: Seq<int>,
    level: int,
    key: Seq<u8>,
    value: Seq<u8>,
)
    requires
        ranks_ok(before, rank),
        before.len() >= 1,
        0 <= level,
        ups.len() > level,
        splice_point(before, 0, ups[0], key),
        spliced(before, after, ups, level + 1, level, key, value),
        forall|i: int| 0 <= i < before.len() ==> node_height(before, i) >= 1,
    ensures
        ranks_ok(after, shifted_ranks(rank, rank[ups[0]] + 1)),
{
    let x = before.len() as int;
    let p = ups[0];
    let r = rank[p] + 1;
    let rank2 = shifted_ranks(rank, r);
    assert(base_link_ok(before, rank, p));
    assert forall|i: int| 0 <= i < x implies node_key(after, i) == node_key(before, i) by {
        assert(after[i].key == before[i].key);
    }
    // Everything ranked below `r` holds a smaller key, everything ranked at
    // `r` or above a greater one.
    assert forall|m: int| is_entry(before, m) && #[trigger] rank[m] < r implies lex_lt(
        node_key(before, m),
        key,
    ) by {
        assert(p >= 1);
        lemma_rank_le_key_le(before, rank, m, p);
        if m != p {
            lemma_lex_transitive(node_key(before, m), node_key(before, p), key);
        }
    }
    assert forall|m: int| is_entry(before, m) && #[trigger] rank[m] >= r implies lex_lt(
        key,
        node_key(before, m),
    ) by {
        assert(node_link(before, p, 0) is Some);
        let j = node_link(before, p, 0)->0 as int;
        lemma_rank_le_key_le(before, rank, j, m);
        if m != j {
            lemma_lex_transitive(key, node_key(before, j), node_key(before, m));
        }
    }
    assert forall|i: int| is_entry(after, i) implies 0 <= #[trigger] rank2[i] < after.len() - 1 by {
        if i < x {
            assert(0 <= rank[i] < x - 1);
        }
    }
    assert forall|i: int, j: int|
        #![trigger rank2[i], rank2[j]]
        is_entry(after, i) && is_entry(after, j) && i != j implies rank2[i] != rank2[j] by {
        if i < x && j < x {
            assert(rank[i] != rank[j]);
        }
    }
    assert forall|i: int, j: int|
        #![trigger rank2[i], rank2[j]]
        is_entry(after, i) && is_entry(after, j) && rank2[i] < rank2[j] implies lex_lt(
        node_key(after, i),
        node_key(after, j),
    ) by {
        if i < x && j < x {
            assert(rank[i] < rank[j]);
            assert(lex_lt(node_key(before, i), node_key(before, j)));
        } else if i == x {
            assert(rank[j] >= r);
            assert(lex_lt(key, node_key(before, j)));
        } else {
            assert(rank[i] < r);
            assert(lex_lt(node_key(before, i), key));
        }
    }
    assert forall|i: int| 0 <= i < after.len() implies #[trigger] base_link_ok(after, rank2, i) by {
        if i == x {
            assert(node_link(after, x, 0) == node_link(before, p, 0));
        } else if i == p {
            assert(node_link(after, i, 0) == Some(x as usize));
        } else {
            assert(node_link(after, i, 0) == node_link(before, i, 0));
            assert(base_link_ok(before, rank, i));
            if i >= 1 && p >= 1 {
                assert(rank[i] != rank[p]);
            }
            match node_link(before, i, 0) {
                Some(j) => {
                    if node_link(before, p, 0) is Some {
                        let jp = node_link(before, p, 0)->0 as int;
                        if jp != j as int {
                            assert(rank[jp] != rank[j as int]);
                        }
                    }
                },
                None => {},
            }
        }
    }
}

/// Splicing the new node in after its predecessor on each of its levels
/// leaves every link tight: no link passes over an entry of its level.
pub(crate) proof fn lemma_spliced_levels(
    before: Seq<Node>,
    after: Seq<Node>,
    rank: Seq<int>,
    ups: Seq<int>,
    level: int,
    key: Seq<u8>,
    value: Seq<u8>,
)
    requires
        ranks_ok(before, rank),
        links_ok(before),
        levels_ok(before, rank),
        before.len() >= 1,
        0 <= level,
        ups.len() > level,
        forall|l: int| 0 <= l <= level ==> #[trigger] splice_point(before, l, ups[l], key),
        spliced(before, after, ups, level + 1, level, key, value),
        ranks_ok(after, shifted_ranks(rank, rank[ups[0]] + 1)),
    ensures
        levels_ok(after, shifted_ranks(rank, rank[ups[0]] + 1)),
{
    let x = before.len() as int;
    let r = rank[ups[0]] + 1;
    let rank2 = shifted_ranks(rank, r);
    assert(splice_point(before, 0, ups[0], key));
    assert(base_link_ok(before, rank, ups[0]));
    assert forall|i: int| 0 <= i < x implies node_key(after, i) == node_key(before, i) by {
        assert(after[i].key == before[i].key);
    }
    // Old entries with a smaller key rank below `r`, the others at `r` or above.
    assert forall|m: int| is_entry(before, m) implies (lex_lt(node_key(before, m), key)
        <==> #[trigger] rank[m] < r) && (lex_lt(key, node_key(before, m)) <==> rank[m] >= r) by {
        lemma_key_side(before, rank, ups[0], key, m);
    }
    assert forall|i: int, l: int|
        0 <= i < after.len() && 0 <= l < node_height(after, i) implies #[trigger] link_tight(
        after,
        rank2,
        i,
        l,
    ) by {
        assert forall|m: int|
            is_entry(after, m) && l < node_height(after, m) && rank2[i] < #[trigger] rank2[m]
                implies node_link(after, i, l) is Some && rank2[node_link(after, i, l)->0 as int]
                <= rank2[m] by {
            if l <= level {
                let u = ups[l];
                assert(splice_point(before, l, u, key));
                assert(link_tight(before, rank, u, l));
                assert(link_ok(before, u, l));
                if u >= 1 {
                    assert(rank[u] < r);
                }
                if i == x {
                    // the new node took over the link of its predecessor
                    assert(node_link(after, x, l) == node_link(before, u, l));
                    assert(m < x);
                    assert(rank[m] >= r);
                    assert(rank[u] < rank[m]);
                    let j = node_link(before, u, l)->0 as int;
                    assert(rank[j] <= rank[m]);
                    assert(rank[j] >= r);
                } else if i == u {
                    assert(node_link(after, i, l) == Some(x as usize));
                    if m < x {
                        assert(rank[u] < rank[m]);
                        let j = node_link(before, u, l)->0 as int;
                        assert(rank[j] <= rank[m]);
                        assert(rank[j] >= r);
                    }
                } else {
                    assert(node_link(after, i, l) == node_link(before, i, l));
                    assert(link_tight(before, rank, i, l));
                    assert(link_ok(before, i, l));
                    if m == x {
                        // `i` ranks below the new node, and so does its successor
                        assert(rank[i] < r);
                        if rank[i] < rank[u] {
                            assert(is_entry(before, u));
                            let j = node_link(before, i, l)->0 as int;
                            assert(rank[j] <= rank[u]);
                        } else {
                            assert(is_entry(before, i));
                            if u >= 1 {
                                assert(rank[i] != rank[u]);
                            }
                            assert(rank[u] < rank[i]);
                            let j = node_link(before, u, l)->0 as int;
                            assert(rank[j] <= rank[i]);
                            assert(rank[j] >= r);
                        }
                    } else {
                        assert(rank[i] < rank[m]);
                        assert(link_ok(before, i, l));
                    }
                }
            } else {
                // above the new node's height nothing changed
                assert(i < x);
                assert(m < x);
                assert(node_link(after, i, l) == node_link(before, i, l));
                assert(link_tight(before, rank, i, l));
                assert(rank[i] < rank[m]);
                assert(link_ok(before, i, l));
            }
        }
    }
}

/// Where the new key belongs on level 0 decides on which side of it every
/// entry stands: below the new rank with a smaller key, or at it and above
/// with a greater one.
pub(crate) proof fn lemma_key_side(nodes: Seq<Node>, rank: Seq<int>, pred: int, key: Seq<u8>, m: int)
    requires
        ranks_ok(nodes, rank),
        splice_point(nodes, 0, pred, key),
        is_entry(nodes, m),
    ensures
        lex_lt(node_key(nodes, m), key) <==> rank[m] <= rank[pred],
        lex_lt(key, node_key(nodes, m)) <==> rank[m] > rank[pred],
{
    assert(base_link_ok(nodes, rank, pred));
    lemma_lex_total(node_key(nodes, m), key);
    if rank[m] <= rank[pred] {
        assert(pred >= 1);
        lemma_rank_le_key_le(nodes, rank, m, pred);
        if m != pred {
            lemma_lex_transitive(node_key(nodes, m), node_key(nodes, pred), key);
        }
    } else {
        assert(node_link(nodes, pred, 0) is Some);
        let j = node_link(nodes, pred, 0)->0 as int;
        lemma_rank_le_key_le(nodes, rank, j, m);
        if m != j {
            lemma_lex_transitive(key, node_key(nodes, j), node_key(nodes, m));
        }
    }
}

/// A node added with a key that no entry held adds that key, with its
/// value, to the map and changes nothing else in it.
pub(crate) proof fn lemma_spliced_entries(
    before: Seq<Node>,
    after: Seq<Node>,
    rank: Seq<int>,
    rank2: Seq<int>,
    ups: Seq<int>,
    done: int,
    level: int,
    key: Seq<u8>,
    value: Seq<u8>,
)
    requires
        ranks_ok(before, rank),
        ranks_ok(after, rank2),
        spliced(before, after, ups, done, level, key, value),
        before.len() >= 1,
    ensures
        entries(after) == entries(before).insert(key, value),
{
    let x = before.len() as int;
    let want = entries(before).insert(key, value);
    assert forall|i: int| 0 <= i < x implies node_key(after, i) == node_key(before, i)
        && node_value(after, i) == node_value(before, i) by {
        assert(after[i].key == before[i].key);
    }
    assert forall|q: Seq<u8>| entries(after).contains_key(q) == want.contains_key(q) by {
        if entries(after).contains_key(q) {
            let i = choose|i: int| holds(after, i, q);
            if i < x {
                assert(holds(before, i, q));
            }
        }
        if want.contains_key(q) {
            if q == key {
                assert(holds(after, x, q));
            } else {
                let i = choose|i: int| holds(before, i, q);
                assert(holds(after, i, q));
            }
        }
    }
    assert forall|q: Seq<u8>| entries(after).contains_key(q) implies entries(after)[q] == want[q] by {
        let i = choose|i: int| holds(after, i, q);
        assert(holds(after, i, q));
        lemma_entry_in_map(after, rank2, i);
        if q == key {
            lemma_rank_follows_keys(after, rank2, i, x);
        } else {
            assert(i != x);
            assert(holds(before, i, q));
            lemma_entry_in_map(before, rank, i);
        }
    }
    assert(entries(after) =~= want);
}

} // verus!
