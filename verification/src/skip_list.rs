//! The in-memory index: a skip list over an arena of nodes.
//!
//! Nodes live in one growing vector and name each other by position. Node 0
//! is the head: it holds no key and has one forward slot per level. Every
//! other node holds one key with its value and takes part in the levels
//! below its height.

use crate::arena::{
    arena_ok, base_link_ok, entries, entry_ok, holds, is_entry, lemma_entry_in_map,
    lemma_gap_is_empty, lemma_head_above_top, lemma_link_climbs, lemma_rank_follows_keys,
    lemma_rank_le_key_le, lemma_splice_step, lemma_spliced_entries, lemma_spliced_levels, lemma_spliced_links,
    lemma_spliced_ranks, lemma_value_replaced, link_ok, link_tight, links_ok, max_int,
    node_height, node_key, node_link, node_value, reaches_top, shifted_ranks, splice_point,
    spliced, value_replaced,
};
use crate::lex::{compare_keys, lemma_lex_total, lemma_lex_transitive, lex_lt, KeyOrder};
use crate::replay::{
    apply_writes, lemma_last_write_wins, lemma_overwrite, lemma_untouched_key, Write,
};
use crate::rng::{coin_flip, seeded_rng};
use rand::rngs::SmallRng;
use vstd::prelude::*;

verus! {

/// Why a lookup gave no value.
#[derive(Clone, Copy, Debug, PartialEq, Eq, Structural)]
pub enum SkipListError {
    KeyNotFound,
}

impl SkipListError {
    /// The error in words.
    pub fn message(&self) -> (s: String)
        ensures
            s@ == "Key not found"@,
    {
        "Key not found".to_owned()
    }
}

/// One node of the arena. The head holds neither key nor value; every other
/// node holds both. `forward[l]` is the node that follows on level `l`.
#[derive(Clone, Debug)]
pub struct Node {
    pub key: Option<Vec<u8>>,
    pub value: Option<Vec<u8>>,
    pub forward: Vec<Option<usize>>,
}

/// The list. Its public fields are there to be read: a list is well formed
/// as long as it is changed through its methods only.
pub struct SkipList {
    /// Always the position of the head node.
    pub head: usize,
    pub nodes: Vec<Node>,
    max_level: usize,
    pub current_level: usize,
    /// Scratch space of `put`: the last node visited on each level.
    update_buffer: Vec<Option<usize>>,
    rng: SmallRng,
    /// For each node its place in key order, the head standing at -1.
    rank: Ghost<Seq<int>>,
}

/// The seed of a list made by `SkipList::new`.
pub const DEFAULT_SEED: u64 = 0x5EED_5EED_5EED_5EED;

/// The node that the scratch space names for level `l`; an empty slot
/// stands for the head.
spec fn scratch_at(buf: Seq<Option<usize>>, l: int) -> int {
    match buf[l] {
        Some(u) => u as int,
        None => 0,
    }
}

/// Empties every slot of the scratch space.
fn clear_scratch(buf: &mut Vec<Option<usize>>)
    ensures
        final(buf)@.len() == old(buf)@.len(),
        forall|l: int| 0 <= l < final(buf)@.len() ==> final(buf)@[l] == None::<usize>,
{
    let mut c: usize = 0;
    while c < buf.len()
        invariant
            buf@.len() == old(buf)@.len(),
            c <= buf@.len(),
            forall|l: int| 0 <= l < c ==> buf@[l] == None::<usize>,
        decreases buf@.len() - c,
    {
        buf[c] = None;
        c += 1;
    }
}

/// Calls `Vec::capacity`. Nothing is claimed of the number that comes back.
#[verifier::external_body]
fn capacity_of(nodes: &Vec<Node>) -> usize {
    nodes.capacity()
}

/// `after` is `before` with a node for `key` and `value` added that stands
/// on the levels `0..=level`, spliced in on each of them right after node
/// `ups[l]`, where it belongs.
pub open spec fn inserted(
    before: Seq<Node>,
    after: Seq<Node>,
    ups: Seq<int>,
    level: int,
    key: Seq<u8>,
    value: Seq<u8>,
) -> bool {
    &&& forall|l: int| 0 <= l <= level ==> #[trigger] splice_point(before, l, ups[l], key)
    &&& spliced(before, after, ups, level + 1, level, key, value)
}

/// What storing `value` under `key` makes of a list, where `level` is the
/// level drawn for a new node. A key that the list holds keeps its node, and
/// only the node's value changes. A new key gets the last node of the arena,
/// linked in on the levels `0..=level`; the highest level in use rises to
/// `level` if it was lower.
pub open spec fn put_outcome(
    before: SkipList,
    after: SkipList,
    key: Seq<u8>,
    value: Seq<u8>,
    level: int,
) -> bool {
    &&& after.wf()
    &&& after@ == before@.insert(key, value)
    &&& after.level_cap() == before.level_cap()
    &&& if before@.contains_key(key) {
        &&& after.top_level() == before.top_level()
        &&& exists|at: int| #[trigger]
            value_replaced(before.arena(), after.arena(), at, value) && node_key(
                before.arena(),
                at,
            ) == key
    } else {
        &&& after.top_level() == max_int(before.top_level() as int, level)
        &&& exists|ups: Seq<int>| #[trigger]
            inserted(before.arena(), after.arena(), ups, level, key, value)
    }
}

/// `walk` lists the nodes that a walk along level `l` meets, the head left
/// out: the node after the head, then each time the node after the last.
pub open spec fn is_level_walk(nodes: Seq<Node>, l: int, walk: Seq<usize>) -> bool {
    &&& walk.len() > 0 ==> node_link(nodes, 0, l) == Some(walk[0])
    &&& forall|p: int|
        0 <= p < walk.len() - 1 ==> node_link(nodes, #[trigger] walk[p] as int, l) == Some(
            walk[p + 1],
        )
}

/// `walk` is a walk along level `l` to its end: after its last node, or
/// after the head if it meets no node, the level has no further link.
pub open spec fn is_whole_level_walk(nodes: Seq<Node>, l: int, walk: Seq<usize>) -> bool {
    &&& is_level_walk(nodes, l, walk)
    &&& if walk.len() == 0 {
        node_link(nodes, 0, l) is None
    } else {
        node_link(nodes, walk.last() as int, l) is None
    }
}

/// `walk` meets node `m`.
pub open spec fn walk_meets(walk: Seq<usize>, m: int) -> bool {
    exists|q: int| 0 <= q < walk.len() && #[trigger] walk[q] == m
}

impl View for SkipList {
    type V = Map<Seq<u8>, Seq<u8>>;

    /// The map from each stored key to its value.
    closed spec fn view(&self) -> Map<Seq<u8>, Seq<u8>> {
        entries(self.nodes@)
    }
}

impl SkipList {
    /// The invariant of the list. `new` and `with_seed` establish it and every
    /// method keeps it.
    pub closed spec fn wf(&self) -> bool {
        &&& self.head == 0
        &&& self.max_level < usize::MAX
        &&& self.update_buffer@.len() == self.max_level + 1
        &&& arena_ok(self.nodes@, self.rank@, self.max_level as int, self.current_level as int)
    }

    /// The highest level that a node of this list may reach.
    pub closed spec fn level_cap(&self) -> usize {
        self.max_level
    }

    /// The highest level on which a node stands, 0 while the list is empty.
    pub closed spec fn top_level(&self) -> usize {
        self.current_level
    }

    /// The nodes in the order of their making, the head first.
    pub closed spec fn arena(&self) -> Seq<Node> {
        self.nodes@
    }

    /// The position of the head in the arena.
    pub closed spec fn head_index(&self) -> usize {
        self.head
    }

    /// An empty list whose nodes reach level `max_level` at most. Its coin
    /// flips come from a generator seeded with `DEFAULT_SEED`.
    pub fn new(max_level: usize) -> (list: SkipList)
        requires
            max_level < usize::MAX,
        ensures
            list.wf(),
            list@ == Map::<Seq<u8>, Seq<u8>>::empty(),
            list.level_cap() == max_level,
            list.top_level() == 0,
            list.arena().len() == 1,
    {
        SkipList::with_seed(max_level, DEFAULT_SEED)
    }

    /// An empty list as `new` makes it, whose coin flips come from a
    /// generator seeded with `seed`.
    pub fn with_seed(max_level: usize, seed: u64) -> (list: SkipList)
        requires
            max_level < usize::MAX,
        ensures
            list.wf(),
            list@ == Map::<Seq<u8>, Seq<u8>>::empty(),
            list.level_cap() == max_level,
            list.top_level() == 0,
            list.arena().len() == 1,
    {
        let head_node = Node { key: None, value: None, forward: vec![None; max_level + 1] };
        let mut nodes = Vec::with_capacity(1000);
        nodes.push(head_node);
        let ghost rank: Seq<int> = seq![-1int];
        let list = SkipList {
            head: 0,
            nodes,
            max_level,
            current_level: 0,
            update_buffer: vec![None; max_level + 1],
            rng: seeded_rng(seed),
            rank: Ghost(rank),
        };
        proof {
            let ns = list.nodes@;
            assert forall|i: int, l: int|
                0 <= i < ns.len() && 0 <= l < node_height(ns, i) implies #[trigger] link_ok(
                ns,
                i,
                l,
            ) by {}
            assert(base_link_ok(ns, list.rank@, 0));
            assert forall|i: int, l: int|
                0 <= i < ns.len() && 0 <= l < node_height(ns, i) implies #[trigger] link_tight(
                ns,
                list.rank@,
                i,
                l,
            ) by {}
            assert(list@ =~= Map::<Seq<u8>, Seq<u8>>::empty());
        }
        list
    }

    /// The highest level that a node of this list may reach.
    pub fn max_level(&self) -> (m: usize)
        ensures
            m == self.level_cap(),
    {
        self.max_level
    }

    /// What one coin flip does to the level being drawn: heads raises it by
    /// one as long as it is below `max_level`; tails, or heads at
    /// `max_level`, ends the drawing.
    pub fn level_step(level: usize, max_level: usize, heads: bool) -> (next: Option<usize>)
        ensures
            next == (if heads && level < max_level {
                Some((level + 1) as usize)
            } else {
                None::<usize>
            }),
    {
        if heads && level < max_level {
            Some(level + 1)
        } else {
            None
        }
    }

    /// Draws a level: flips a coin until it shows tails or `max_level` is
    /// reached, and counts the heads.
    fn random_level(&mut self) -> (level: usize)
        ensures
            level <= old(self).max_level,
            final(self).head == old(self).head,
            final(self).nodes == old(self).nodes,
            final(self).max_level == old(self).max_level,
            final(self).current_level == old(self).current_level,
            final(self).update_buffer == old(self).update_buffer,
            final(self).rank == old(self).rank,
    {
        let mut level: usize = 0;
        loop
            invariant
                level <= self.max_level,
                self.head == old(self).head,
                self.nodes == old(self).nodes,
                self.max_level == old(self).max_level,
                self.current_level == old(self).current_level,
                self.update_buffer == old(self).update_buffer,
                self.rank == old(self).rank,
            decreases self.max_level - level,
        {
            let heads = coin_flip(&mut self.rng);
            match SkipList::level_step(level, self.max_level, heads) {
                Some(next) => {
                    level = next;
                },
                None => {
                    break ;
                },
            }
        }
        level
    }

    /// Stores `value` under `key`. A key that the list holds already keeps
    /// its node and gets the new value; a new key gets a node whose height
    /// the coin flips decide.
    pub fn put(&mut self, key: Vec<u8>, value: Vec<u8>) -> (r: Result<(), SkipListError>)
        requires
            old(self).wf(),
        ensures
            r is Ok,
            final(self).wf(),
            final(self)@ == old(self)@.insert(key@, value@),
            final(self).level_cap() == old(self).level_cap(),
            final(self).top_level() >= old(self).top_level(),
            exists|level: int|
                0 <= level <= old(self).level_cap() && #[trigger] put_outcome(
                    *old(self),
                    *final(self),
                    key@,
                    value@,
                    level,
                ),
    {
        let level = self.random_level();
        let ghost mid = *self;
        let r = self.put_with_level(key, value, level);
        proof {
            assert(mid.arena() == old(self).arena());
            assert(mid@ == old(self)@);
            assert(put_outcome(mid, *self, key@, value@, level as int));
            if mid@.contains_key(key@) {
                let at = choose|at: int| #[trigger]
                    value_replaced(mid.arena(), self.arena(), at, value@) && node_key(
                        mid.arena(),
                        at,
                    ) == key@;
                assert(value_replaced(old(self).arena(), self.arena(), at, value@));
            } else {
                let ups = choose|ups: Seq<int>| #[trigger]
                    inserted(mid.arena(), self.arena(), ups, level as int, key@, value@);
                assert(inserted(old(self).arena(), self.arena(), ups, level as int, key@, value@));
            }
            assert(put_outcome(*old(self), *self, key@, value@, level as int));
        }
        r
    }

    /// Stores `value` under `key` as `put` does, with `level` in place of the
    /// coin flips: a new key gets a node that stands on the levels
    /// `0..=level`.
    pub fn put_with_level(&mut self, key: Vec<u8>, value: Vec<u8>, level: usize) -> (r: Result<
        (),
        SkipListError,
    >)
        requires
            old(self).wf(),
            level <= old(self).level_cap(),
        ensures
            r is Ok,
            put_outcome(*old(self), *final(self), key@, value@, level as int),
    {
        clear_scratch(&mut self.update_buffer);
        let ghost nodes0 = self.nodes@;
        let ghost rank0 = self.rank@;
        let ghost k = key@;
        let ghost v = value@;
        let mut current = self.head;
        let mut i = self.current_level + 1;
        proof {
            assert forall|l: int| i <= l <= self.max_level implies #[trigger] splice_point(
                nodes0,
                l,
                scratch_at(self.update_buffer@, l),
                k,
            ) by {
                lemma_head_above_top(nodes0, self.max_level as int, self.current_level as int, l, k);
            }
        }
        while i > 0
            invariant
                self.wf(),
                self.nodes@ == nodes0,
                self.rank@ == rank0,
                nodes0 == old(self).nodes@,
                rank0 == old(self).rank@,
                self.head == 0,
                self.max_level == old(self).max_level,
                self.current_level == old(self).current_level,
                k == key@,
                v == value@,
                i <= self.current_level + 1,
                current < nodes0.len(),
                i <= node_height(nodes0, current as int),
                current >= 1 ==> lex_lt(node_key(nodes0, current as int), k),
                forall|l: int|
                    i <= l <= self.max_level ==> #[trigger] splice_point(
                        nodes0,
                        l,
                        scratch_at(self.update_buffer@, l),
                        k,
                    ),
            decreases i,
        {
            i -= 1;
            let (pred, hit) = self.seek(i, current, &key);
            if let Some(found) = hit {
                self.nodes[found].value = Some(value);
                proof {
                    lemma_entry_in_map(nodes0, rank0, found as int);
                    assert(value_replaced(nodes0, self.nodes@, found as int, v));
                    lemma_value_replaced(
                        nodes0,
                        self.nodes@,
                        rank0,
                        self.max_level as int,
                        self.current_level as int,
                        found as int,
                        v,
                    );
                    assert(value_replaced(old(self).arena(), self.arena(), found as int, value@));
                    assert(node_key(old(self).arena(), found as int) == key@);
                }
                return Ok(());
            }
            let ghost buf = self.update_buffer@;
            self.update_buffer[i] = Some(pred);
            current = pred;
            proof {
                assert forall|l: int| i <= l <= self.max_level implies #[trigger] splice_point(
                    nodes0,
                    l,
                    scratch_at(self.update_buffer@, l),
                    k,
                ) by {
                    if l > i {
                        assert(splice_point(nodes0, l, scratch_at(buf, l), k));
                    }
                }
            }
        }

        let ghost ups = Seq::new(
            (self.max_level + 1) as nat,
            |l: int| scratch_at(self.update_buffer@, l),
        );
        proof {
            assert forall|l: int| 0 <= l <= self.max_level implies #[trigger] splice_point(
                nodes0,
                l,
                ups[l],
                k,
            ) by {
                assert(splice_point(nodes0, l, scratch_at(self.update_buffer@, l), k));
            }
            assert(splice_point(nodes0, 0, ups[0], k));
            lemma_gap_is_empty(nodes0, rank0, ups[0], k);
        }
        let new_node = Node { key: Some(key), value: Some(value), forward: vec![None; level + 1] };
        if self.nodes.len() == capacity_of(&self.nodes) {
            self.nodes.reserve(256);
        }
        let new_index = self.nodes.len();
        self.nodes.push(new_node);

        let mut l: usize = 0;
        while l <= level
            invariant
                spliced(nodes0, self.nodes@, ups, l as int, level as int, k, v),
                new_index == nodes0.len(),
                nodes0 == old(self).nodes@,
                rank0 == old(self).rank@,
                k == key@,
                v == value@,
                self.rank@ == rank0,
                self.head == 0,
                self.max_level == old(self).max_level,
                self.current_level == old(self).current_level,
                self.update_buffer@.len() == self.max_level + 1,
                level <= self.max_level < usize::MAX,
                l <= level + 1,
                ups.len() == self.max_level + 1,
                forall|m: int| 0 <= m <= self.max_level ==> ups[m] == scratch_at(self.update_buffer@, m),
                forall|m: int| 0 <= m <= self.max_level ==> #[trigger] splice_point(nodes0, m, ups[m], k),
            decreases level + 1 - l,
        {
            proof {
                assert(splice_point(nodes0, l as int, ups[l as int], k));
            }
            let upd = self.update_buffer[l].unwrap_or(self.head);
            let next = self.nodes[upd].forward[l];
            let ghost a = self.nodes@;
            self.nodes[new_index].forward[l] = next;
            let ghost b = self.nodes@;
            self.nodes[upd].forward[l] = Some(new_index);
            proof {
                let c = self.nodes@;
                assert(upd == ups[l as int]);
                assert(next == node_link(a, upd as int, l as int));
                assert(b[new_index as int].forward@ == a[new_index as int].forward@.update(
                    l as int,
                    next,
                ));
                assert(c[new_index as int] == b[new_index as int]);
                assert(c[upd as int].forward@ == a[upd as int].forward@.update(
                    l as int,
                    Some(new_index),
                ));
                assert forall|i: int|
                    0 <= i < a.len() && i != new_index && i != upd implies c[i] == a[i] by {
                    assert(b[i] == a[i]);
                }
                lemma_splice_step(nodes0, a, c, ups, l as int, level as int, k, v);
            }
            l += 1;
        }

        if level > self.current_level {
            self.current_level = level;
        }
        proof {
            let top0 = old(self).current_level as int;
            lemma_spliced_links(
                nodes0,
                self.nodes@,
                ups,
                level as int,
                self.max_level as int,
                top0,
                k,
                v,
            );
            assert forall|m: int| 0 <= m < nodes0.len() implies node_height(nodes0, m) >= 1 by {
                if m >= 1 {
                    assert(entry_ok(nodes0, m, top0));
                }
            }
            assert(splice_point(nodes0, 0, ups[0], k));
            lemma_spliced_ranks(nodes0, self.nodes@, rank0, ups, level as int, k, v);
            lemma_spliced_levels(nodes0, self.nodes@, rank0, ups, level as int, k, v);
            let rank1 = shifted_ranks(rank0, rank0[ups[0]] + 1);
            self.rank@ = rank1;
            lemma_spliced_entries(
                nodes0,
                self.nodes@,
                rank0,
                rank1,
                ups,
                level + 1,
                level as int,
                k,
                v,
            );
            assert(spliced(
                old(self).arena(),
                self.arena(),
                ups,
                level + 1,
                level as int,
                key@,
                value@,
            ));
            assert forall|l: int| 0 <= l <= level implies #[trigger] splice_point(
                old(self).arena(),
                l,
                ups[l],
                key@,
            ) by {
                assert(splice_point(nodes0, l, ups[l], k));
            }
            assert(inserted(old(self).arena(), self.arena(), ups, level as int, key@, value@));
        }
        Ok(())
    }

    /// Walks level `level` from node `start` for as long as the next key is
    /// smaller than `key`. Returns the node at which the walk stopped, and
    /// the node after it where that one holds `key` itself.
    fn seek(&self, level: usize, start: usize, key: &Vec<u8>) -> (r: (usize, Option<usize>))
        requires
            self.wf(),
            start < self.nodes@.len(),
            level < node_height(self.nodes@, start as int),
            start >= 1 ==> lex_lt(node_key(self.nodes@, start as int), key@),
        ensures
            r.0 < self.nodes@.len(),
            level < node_height(self.nodes@, r.0 as int),
            r.0 >= 1 ==> lex_lt(node_key(self.nodes@, r.0 as int), key@),
            match r.1 {
                Some(j) => {
                    &&& is_entry(self.nodes@, j as int)
                    &&& node_key(self.nodes@, j as int) == key@
                    &&& node_link(self.nodes@, r.0 as int, level as int) == Some(j)
                },
                None => node_link(self.nodes@, r.0 as int, level as int) matches Some(j) ==> lex_lt(
                    key@,
                    node_key(self.nodes@, j as int),
                ),
            },
    {
        let mut current = start;
        loop
            invariant
                self.wf(),
                current < self.nodes@.len(),
                level < node_height(self.nodes@, current as int),
                current >= 1 ==> lex_lt(node_key(self.nodes@, current as int), key@),
            decreases self.nodes@.len() - self.rank@[current as int],
        {
            proof {
                assert(link_ok(self.nodes@, current as int, level as int));
                if node_link(self.nodes@, current as int, level as int) is Some {
                    lemma_link_climbs(self.nodes@, self.rank@, current as int, level as int);
                }
            }
            match self.nodes[current].forward[level] {
                None => {
                    return (current, None);
                },
                Some(next) => {
                    assert(entry_ok(self.nodes@, next as int, self.current_level as int));
                    let next_key = self.nodes[next].key.as_ref().unwrap();
                    match compare_keys(next_key.as_slice(), key.as_slice()) {
                        KeyOrder::Less => {
                            current = next;
                        },
                        KeyOrder::Equal => {
                            return (current, Some(next));
                        },
                        KeyOrder::Greater => {
                            return (current, None);
                        },
                    }
                },
            }
        }
    }

    /// Looks `key` up.
    pub fn get(&self, key: Vec<u8>) -> (r: Result<Vec<u8>, SkipListError>)
        requires
            self.wf(),
        ensures
            match r {
                Ok(v) => self@.contains_key(key@) && self@[key@] == v@,
                Err(e) => e == SkipListError::KeyNotFound && !self@.contains_key(key@),
            },
    {
        let mut current = self.head;
        let mut level = self.current_level;
        loop
            invariant
                self.wf(),
                current < self.nodes@.len(),
                level < node_height(self.nodes@, current as int),
                current >= 1 ==> lex_lt(node_key(self.nodes@, current as int), key@),
            decreases level,
        {
            let (pred, hit) = self.seek(level, current, &key);
            if let Some(found) = hit {
                proof {
                    assert(entry_ok(self.nodes@, found as int, self.current_level as int));
                    lemma_entry_in_map(self.nodes@, self.rank@, found as int);
                }
                return self.nodes[found].value.clone().ok_or(SkipListError::KeyNotFound);
            }
            current = pred;
            if level == 0 {
                proof {
                    lemma_gap_is_empty(self.nodes@, self.rank@, pred as int, key@);
                }
                return Err(SkipListError::KeyNotFound);
            }
            level -= 1;
        }
    }
}

// ---------------------------------------------------------------------------
// Laws of the list
// ---------------------------------------------------------------------------

impl SkipList {
    /// What the invariant says of the arena. The head holds no key and has a
    /// slot for every level; every other node holds a key and a value and is
    /// no higher than the highest level in use, which some node reaches;
    /// every link leads to a greater key on the same level; above the
    /// highest level in use the head has no link.
    pub proof fn lemma_structure(&self)
        requires
            self.wf(),
        ensures
            self.head_index() == 0,
            self.arena().len() >= 1,
            self.top_level() <= self.level_cap(),
            self.arena()[0].key is None,
            self.arena()[0].value is None,
            node_height(self.arena(), 0) == self.level_cap() + 1,
            forall|i: int|
                is_entry(self.arena(), i) ==> {
                    &&& (#[trigger] self.arena()[i]).key is Some
                    &&& self.arena()[i].value is Some
                    &&& 1 <= node_height(self.arena(), i) <= self.top_level() + 1
                },
            self.top_level() > 0 ==> exists|i: int|
                is_entry(self.arena(), i) && #[trigger] node_height(self.arena(), i)
                    == self.top_level() + 1,
            links_ok(self.arena()),
            forall|l: int|
                self.top_level() < l <= self.level_cap() ==> #[trigger] node_link(
                    self.arena(),
                    0,
                    l,
                ) is None,
            self.arena().len() > 1 ==> forall|l: int|
                0 <= l <= self.top_level() ==> #[trigger] node_link(self.arena(), 0, l) is Some,
    {
        let nodes = self.arena();
        let top = self.top_level() as int;
        if nodes.len() > 1 {
            // some entry stands on the highest level in use, and so on every
            // level below it; the head's link may not pass over it
            let high = if top > 0 {
                choose|w: int| reaches_top(nodes, w, top)
            } else {
                1
            };
            assert(entry_ok(nodes, high, top));
            assert(0 <= self.rank@[high]);
            assert forall|l: int| 0 <= l <= top implies #[trigger] node_link(nodes, 0, l) is Some by {
                assert(link_tight(nodes, self.rank@, 0, l));
            }
        }
        assert forall|i: int| is_entry(nodes, i) implies {
            &&& (#[trigger] nodes[i]).key is Some
            &&& nodes[i].value is Some
            &&& 1 <= node_height(nodes, i) <= top + 1
        } by {
            assert(entry_ok(nodes, i, top));
        }
        if top > 0 {
            let w = choose|w: int| reaches_top(nodes, w, top);
            assert(is_entry(nodes, w) && node_height(nodes, w) == top + 1);
        }
        assert forall|l: int| top < l <= self.level_cap() implies #[trigger] node_link(
            nodes,
            0,
            l,
        ) is None by {
            lemma_head_above_top(nodes, self.level_cap() as int, top, l, Seq::empty());
        }
    }

    /// The map of the list is what its entries hold, and no two entries hold
    /// the same key.
    pub proof fn lemma_view_is_entries(&self)
        requires
            self.wf(),
        ensures
            forall|i: int|
                is_entry(self.arena(), i) ==> self@.contains_key(
                    #[trigger] node_key(self.arena(), i),
                ) && self@[node_key(self.arena(), i)] == node_value(self.arena(), i),
            forall|k: Seq<u8>| #[trigger]
                self@.contains_key(k) ==> exists|i: int|
                    is_entry(self.arena(), i) && #[trigger] node_key(self.arena(), i) == k,
            forall|i: int, j: int|
                is_entry(self.arena(), i) && is_entry(self.arena(), j) && #[trigger] node_key(
                    self.arena(),
                    i,
                ) == #[trigger] node_key(self.arena(), j) ==> i == j,
    {
        let nodes = self.arena();
        assert forall|i: int| is_entry(nodes, i) implies self@.contains_key(
            #[trigger] node_key(nodes, i),
        ) && self@[node_key(nodes, i)] == node_value(nodes, i) by {
            lemma_entry_in_map(nodes, self.rank@, i);
        }
        assert forall|k: Seq<u8>| #[trigger] self@.contains_key(k) implies exists|i: int|
            is_entry(nodes, i) && #[trigger] node_key(nodes, i) == k by {
            let i = choose|i: int| holds(nodes, i, k);
            assert(is_entry(nodes, i) && node_key(nodes, i) == k);
        }
        assert forall|i: int, j: int|
            is_entry(nodes, i) && is_entry(nodes, j) && #[trigger] node_key(nodes, i)
                == #[trigger] node_key(nodes, j) implies i == j by {
            lemma_rank_follows_keys(nodes, self.rank@, i, j);
        }
    }

    /// On each level a key has one place only: two nodes after which it
    /// belongs are one node.
    pub proof fn lemma_splice_point_is_unique(&self, l: int, first: int, second: int, key: Seq<u8>)
        requires
            self.wf(),
            splice_point(self.arena(), l, first, key),
            splice_point(self.arena(), l, second, key),
        ensures
            first == second,
    {
        let nodes = self.arena();
        let rank = self.rank@;
        if first != second {
            let (lo, hi) = if rank[first] < rank[second] {
                (first, second)
            } else {
                (second, first)
            };
            if first >= 1 && second >= 1 {
                assert(rank[first] != rank[second]);
            }
            assert(rank[lo] < rank[hi]);
            assert(link_tight(nodes, rank, lo, l));
            assert(link_ok(nodes, lo, l));
            let j = node_link(nodes, lo, l)->0 as int;
            assert(rank[j] <= rank[hi]);
            lemma_rank_le_key_le(nodes, rank, j, hi);
            lemma_lex_total(key, node_key(nodes, j));
            if j != hi {
                lemma_lex_transitive(key, node_key(nodes, j), node_key(nodes, hi));
                lemma_lex_total(key, node_key(nodes, hi));
            }
        }
    }

    /// Every node that a walk along a level meets is an entry that stands on
    /// that level.
    pub proof fn lemma_level_walk_stays_on_level(&self, l: int, walk: Seq<usize>, p: int)
        requires
            self.wf(),
            0 <= l <= self.level_cap(),
            is_level_walk(self.arena(), l, walk),
            0 <= p < walk.len(),
        ensures
            is_entry(self.arena(), walk[p] as int),
            l < node_height(self.arena(), walk[p] as int),
        decreases p,
    {
        let nodes = self.arena();
        if p == 0 {
            assert(link_ok(nodes, 0, l));
        } else {
            self.lemma_level_walk_stays_on_level(l, walk, p - 1);
            assert(node_link(nodes, walk[p - 1] as int, l) == Some(walk[p - 1 + 1]));
            assert(link_ok(nodes, walk[p - 1] as int, l));
        }
    }

    /// Walking any level from the head yields strictly increasing keys: of
    /// two nodes that the walk meets, the earlier holds the smaller key.
    pub proof fn lemma_level_walk_ascends(&self, l: int, walk: Seq<usize>, p: int, q: int)
        requires
            self.wf(),
            0 <= l <= self.level_cap(),
            is_level_walk(self.arena(), l, walk),
            0 <= p < q < walk.len(),
        ensures
            lex_lt(node_key(self.arena(), walk[p] as int), node_key(self.arena(), walk[q] as int)),
        decreases q - p,
    {
        let nodes = self.arena();
        self.lemma_level_walk_stays_on_level(l, walk, q - 1);
        assert(node_link(nodes, walk[q - 1] as int, l) == Some(walk[q - 1 + 1]));
        assert(link_ok(nodes, walk[q - 1] as int, l));
        if p < q - 1 {
            self.lemma_level_walk_ascends(l, walk, p, q - 1);
            lemma_lex_transitive(
                node_key(nodes, walk[p] as int),
                node_key(nodes, walk[q - 1] as int),
                node_key(nodes, walk[q] as int),
            );
        }
    }

    /// From any node of a walk to its end, the walk meets every entry of the
    /// level that ranks above that node. Position -1 stands for the head.
    proof fn lemma_walk_reaches(&self, l: int, walk: Seq<usize>, m: int, p: int)
        requires
            self.wf(),
            0 <= l <= self.level_cap(),
            is_whole_level_walk(self.arena(), l, walk),
            is_entry(self.arena(), m),
            l < node_height(self.arena(), m),
            -1 <= p < walk.len(),
            p >= 0 ==> self.rank@[walk[p] as int] < self.rank@[m],
        ensures
            exists|q: int| p < q < walk.len() && #[trigger] walk[q] == m,
        decreases walk.len() - p,
    {
        let nodes = self.arena();
        let rank = self.rank@;
        let from = if p == -1 {
            0
        } else {
            walk[p] as int
        };
        if p >= 0 {
            self.lemma_level_walk_stays_on_level(l, walk, p);
        }
        assert(0 <= rank[m]);
        assert(rank[from] < rank[m]);
        assert(link_tight(nodes, rank, from, l));
        assert(link_ok(nodes, from, l));
        assert(node_link(nodes, from, l) is Some);
        let next = node_link(nodes, from, l)->0;
        if p + 1 >= walk.len() && walk.len() > 0 {
            assert(walk.last() == walk[p]);
        }
        assert(p + 1 < walk.len());
        assert(walk[p + 1] == next) by {
            if p >= 0 {
                assert(node_link(nodes, walk[p] as int, l) == Some(walk[p + 1]));
            }
        }
        if next as int == m {
            assert(walk[p + 1] == m);
        } else {
            assert(rank[next as int] != rank[m]);
            self.lemma_walk_reaches(l, walk, m, p + 1);
        }
    }

    /// A walk along a level to its end meets every entry that stands on the
    /// level. With `lemma_level_walk_stays_on_level` and
    /// `lemma_level_walk_ascends`: the walk holds exactly the entries of its
    /// level, each once, in the order of their keys.
    pub proof fn lemma_level_walk_is_complete(&self, l: int, walk: Seq<usize>, m: int)
        requires
            self.wf(),
            0 <= l <= self.level_cap(),
            is_whole_level_walk(self.arena(), l, walk),
            is_entry(self.arena(), m),
            l < node_height(self.arena(), m),
        ensures
            walk_meets(walk, m),
    {
        self.lemma_walk_reaches(l, walk, m, -1);
        let q = choose|q: int| -1 < q < walk.len() && #[trigger] walk[q] == m;
        assert(0 <= q < walk.len() && walk[q] == m);
    }

    /// The node at place `p` of a walk along level 0 is the entry of rank `p`.
    proof fn lemma_base_walk_ranks(&self, walk: Seq<usize>, p: int)
        requires
            self.wf(),
            is_level_walk(self.arena(), 0, walk),
            0 <= p < walk.len(),
        ensures
            self.rank@[walk[p] as int] == p,
        decreases p,
    {
        let nodes = self.arena();
        if p == 0 {
            assert(base_link_ok(nodes, self.rank@, 0));
        } else {
            self.lemma_base_walk_ranks(walk, p - 1);
            self.lemma_level_walk_stays_on_level(0, walk, p - 1);
            assert(node_link(nodes, walk[p - 1] as int, 0) == Some(walk[p - 1 + 1]));
            assert(base_link_ok(nodes, self.rank@, walk[p - 1] as int));
        }
    }

    /// The walk along level 0 from the head to the end of the level visits
    /// every entry of the list exactly once: it is as long as the list has
    /// entries, it meets each of them, and it meets none twice.
    pub proof fn lemma_base_walk_visits_all(&self, walk: Seq<usize>)
        requires
            self.wf(),
            is_whole_level_walk(self.arena(), 0, walk),
        ensures
            walk.len() == self.arena().len() - 1,
            forall|m: int| is_entry(self.arena(), m) ==> #[trigger] walk_meets(walk, m),
            forall|p: int, q: int| 0 <= p < q < walk.len() ==> walk[p] != walk[q],
    {
        let nodes = self.arena();
        let rank = self.rank@;
        if walk.len() == 0 {
            assert(base_link_ok(nodes, rank, 0));
        } else {
            let last = walk.len() - 1;
            self.lemma_base_walk_ranks(walk, last);
            self.lemma_level_walk_stays_on_level(0, walk, last);
            assert(walk.last() == walk[last]);
            assert(base_link_ok(nodes, rank, walk[last] as int));
        }
        assert forall|m: int| is_entry(nodes, m) implies #[trigger] walk_meets(walk, m) by {
            assert(entry_ok(nodes, m, self.top_level() as int));
            self.lemma_level_walk_is_complete(0, walk, m);
        }
        assert forall|p: int, q: int| 0 <= p < q < walk.len() implies walk[p] != walk[q] by {
            self.lemma_base_walk_ranks(walk, p);
            self.lemma_base_walk_ranks(walk, q);
        }
    }

    /// Every node that a walk along level `l + 1` meets is met by the walk
    /// along level `l` to its end as well, and two nodes that both walks meet
    /// come in the same order in both: the higher walk is a subsequence of
    /// the lower one.
    pub proof fn lemma_higher_walk_is_within_lower(
        &self,
        l: int,
        higher: Seq<usize>,
        lower: Seq<usize>,
    )
        requires
            self.wf(),
            0 <= l < self.level_cap(),
            is_level_walk(self.arena(), l + 1, higher),
            is_whole_level_walk(self.arena(), l, lower),
        ensures
            forall|p: int|
                0 <= p < higher.len() ==> walk_meets(lower, #[trigger] higher[p] as int),
            forall|p1: int, p2: int, q1: int, q2: int|
                0 <= p1 < p2 < higher.len() && 0 <= q1 < lower.len() && 0 <= q2 < lower.len()
                    && #[trigger] lower[q1] == #[trigger] higher[p1] && #[trigger] lower[q2]
                    == #[trigger] higher[p2] ==> q1 < q2,
    {
        let nodes = self.arena();
        assert forall|p: int| 0 <= p < higher.len() implies walk_meets(
            lower,
            #[trigger] higher[p] as int,
        ) by {
            self.lemma_level_walk_stays_on_level(l + 1, higher, p);
            self.lemma_level_walk_is_complete(l, lower, higher[p] as int);
        }
        assert forall|p1: int, p2: int, q1: int, q2: int|
            0 <= p1 < p2 < higher.len() && 0 <= q1 < lower.len() && 0 <= q2 < lower.len()
                && #[trigger] lower[q1] == #[trigger] higher[p1] && #[trigger] lower[q2]
                == #[trigger] higher[p2] implies q1 < q2 by {
            self.lemma_level_walk_ascends(l + 1, higher, p1, p2);
            let k1 = node_key(nodes, higher[p1] as int);
            let k2 = node_key(nodes, higher[p2] as int);
            lemma_lex_total(k1, k2);
            if q2 < q1 {
                self.lemma_level_walk_ascends(l, lower, q2, q1);
            }
        }
    }
}

/// Put number `i` of a run made `states[i + 1]` of `states[i]`.
pub open spec fn is_put_step(states: Seq<SkipList>, writes: Seq<Write>, i: int) -> bool {
    exists|level: int| #[trigger]
        put_outcome(states[i], states[i + 1], writes[i].0, writes[i].1, level)
}

/// `states` are the lists that a run of puts went through: the list before
/// the first put, then the list after each put of `writes`, in order.
pub open spec fn is_put_run(states: Seq<SkipList>, writes: Seq<Write>) -> bool {
    &&& states.len() == writes.len() + 1
    &&& forall|i: int| 0 <= i < writes.len() ==> #[trigger] is_put_step(states, writes, i)
}

/// A run of puts leaves the map that the writes, applied in order, make of
/// the map at the start.
pub proof fn lemma_put_run_applies_writes(states: Seq<SkipList>, writes: Seq<Write>)
    requires
        is_put_run(states, writes),
    ensures
        states.last()@ == apply_writes(states[0]@, writes),
    decreases writes.len(),
{
    if writes.len() > 0 {
        let n = writes.len() as int;
        let earlier = states.drop_last();
        let fewer = writes.drop_last();
        assert forall|i: int| 0 <= i < fewer.len() implies #[trigger] is_put_step(
            earlier,
            fewer,
            i,
        ) by {
            assert(is_put_step(states, writes, i));
            let level = choose|level: int| #[trigger]
                put_outcome(states[i], states[i + 1], writes[i].0, writes[i].1, level);
            assert(put_outcome(earlier[i], earlier[i + 1], fewer[i].0, fewer[i].1, level));
        }
        lemma_put_run_applies_writes(earlier, fewer);
        assert(is_put_step(states, writes, n - 1));
        assert(earlier.last() == states[n - 1]);
        assert(earlier[0] == states[0]);
    }
}

/// After any run of puts, `get` finds under each key the value of the last
/// put to that key.
pub proof fn lemma_puts_are_read_back(states: Seq<SkipList>, writes: Seq<Write>, i: int)
    requires
        is_put_run(states, writes),
        0 <= i < writes.len(),
        forall|j: int| i < j < writes.len() ==> writes[j].0 != writes[i].0,
    ensures
        states.last()@.contains_key(writes[i].0),
        states.last()@[writes[i].0] == writes[i].1,
{
    lemma_put_run_applies_writes(states, writes);
    lemma_last_write_wins(states[0]@, writes, i);
}

/// After puts to pairwise distinct keys, `get` finds every one of them with
/// its value.
pub proof fn lemma_distinct_puts_are_read_back(states: Seq<SkipList>, writes: Seq<Write>, i: int)
    requires
        is_put_run(states, writes),
        forall|a: int, b: int| 0 <= a < b < writes.len() ==> writes[a].0 != writes[b].0,
        0 <= i < writes.len(),
    ensures
        states.last()@.contains_key(writes[i].0),
        states.last()@[writes[i].0] == writes[i].1,
{
    lemma_puts_are_read_back(states, writes, i);
}

/// A second put to a key leaves one entry for it, with the second value:
/// the list is as if the first put had carried the second value, and no
/// node was added.
pub proof fn lemma_second_put_overwrites(
    start: SkipList,
    middle: SkipList,
    end: SkipList,
    key: Seq<u8>,
    first: Seq<u8>,
    second: Seq<u8>,
    level1: int,
    level2: int,
)
    requires
        put_outcome(start, middle, key, first, level1),
        put_outcome(middle, end, key, second, level2),
    ensures
        end@ == start@.insert(key, second),
        end@[key] == second,
        end.arena().len() == middle.arena().len(),
        end.top_level() == middle.top_level(),
        forall|i: int, j: int|
            is_entry(end.arena(), i) && is_entry(end.arena(), j) && #[trigger] node_key(
                end.arena(),
                i,
            ) == key && #[trigger] node_key(end.arena(), j) == key ==> i == j,
{
    lemma_overwrite(start@, key, first, second);
    end.lemma_view_is_entries();
}

/// A key that was never put is not found: not in a list that did not hold
/// it, as a new list holds none, and not after any run of puts to other
/// keys.
pub proof fn lemma_unrelated_puts_keep_absent(
    states: Seq<SkipList>,
    writes: Seq<Write>,
    key: Seq<u8>,
)
    requires
        is_put_run(states, writes),
        !states[0]@.contains_key(key),
        forall|j: int| 0 <= j < writes.len() ==> writes[j].0 != key,
    ensures
        !states.last()@.contains_key(key),
{
    lemma_put_run_applies_writes(states, writes);
    lemma_untouched_key(states[0]@, writes, key);
}

} // verus!
