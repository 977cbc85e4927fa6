//! Orbit maps: parsing `parent)child` lines, growing the orbit tree, and
//! summing the depths of everything that orbits, directly or indirectly.

use vstd::prelude::*;
use indextree::{Arena, NodeId};
use std::collections::HashMap;
use crate::day03::{spec_split, split_at_char};

verus! {

/// The orbit tree: an arena of named nodes plus an index from name to
/// node.  One name names at most one node.
#[verifier::external_body]
pub struct OrbitTree {
    arena: Arena<String>,
    index: HashMap<String, NodeId>,
}

/// The names of the children of the named node, in insertion order; empty
/// for a name that names no node.
pub uninterp spec fn orbit_children(t: OrbitTree, name: Seq<char>) -> Seq<Seq<char>>;

/// Whether the name names a node of the tree.
pub uninterp spec fn orbit_has_node(t: OrbitTree, name: Seq<char>) -> bool;

/// `s` with the first occurrence of `v` removed, if any.
pub open spec fn seq_remove_first(s: Seq<Seq<char>>, v: Seq<char>) -> Seq<Seq<char>>
    decreases s.len(),
{
    if s.len() == 0 {
        s
    } else if s.first() == v {
        s.drop_first()
    } else {
        seq![s.first()] + seq_remove_first(s.drop_first(), v)
    }
}

/// `to` lies somewhere below `from`, within `fuel` generations.
pub open spec fn orbit_reaches(t: OrbitTree, from: Seq<char>, to: Seq<char>, fuel: nat) -> bool
    decreases fuel,
{
    if orbit_children(t, from).contains(to) {
        true
    } else if fuel == 0 {
        false
    } else {
        exists|c: Seq<char>|
            #[trigger] orbit_children(t, from).contains(c) && orbit_reaches(
                t,
                c,
                to,
                (fuel - 1) as nat,
            )
    }
}

/// Relies on indextree's `Arena::new`: a fresh arena holds no nodes, so no
/// name names a node and every child list is empty.
#[verifier::external_body]
fn orbit_tree_empty() -> (r: OrbitTree)
    ensures
        forall|n: Seq<char>| !orbit_has_node(r, n),
        forall|n: Seq<char>| orbit_children(r, n) == Seq::<Seq<char>>::empty(),
{
    OrbitTree { arena: Arena::new(), index: HashMap::new() }
}

/// Relies on indextree's `Arena::new_node` and `NodeId::checked_append`:
/// the two names are looked up or created, then the child is detached from
/// wherever it hung and appended after the parent's children.  The append
/// is refused exactly when the child is the parent itself or already above
/// it; the child lists are then left as they were.
#[verifier::external_body]
fn orbit_tree_add(t: &mut OrbitTree, parent: &String, child: &String) -> (ok: bool)
    ensures
        ok == (parent@ != child@ && !(exists|k: nat|
            orbit_reaches(*old(t), child@, parent@, k))),
        forall|x: Seq<char>|
            #[trigger] orbit_has_node(*final(t), x) == (orbit_has_node(*old(t), x) || x
                == parent@ || x == child@),
        ok ==> forall|x: Seq<char>|
            #[trigger] orbit_children(*final(t), x) == (if x == parent@ {
                seq_remove_first(orbit_children(*old(t), x), child@).push(child@)
            } else {
                seq_remove_first(orbit_children(*old(t), x), child@)
            }),
        !ok ==> forall|x: Seq<char>|
            #[trigger] orbit_children(*final(t), x) == orbit_children(*old(t), x),
{
    let p = match t.index.get(parent) {
        Some(&id) => id,
        None => { let id = t.arena.new_node(parent.clone()); t.index.insert(parent.clone(), id); id },
    };
    let c = match t.index.get(child) {
        Some(&id) => id,
        None => { let id = t.arena.new_node(child.clone()); t.index.insert(child.clone(), id); id },
    };
    p.checked_append(c, &mut t.arena).is_ok()
}

/// Relies on indextree's `NodeId::children` and `Arena::get`: the names of
/// the node's children in order; an unknown name has none.
#[verifier::external_body]
fn orbit_tree_children(t: &OrbitTree, name: &String) -> (r: Vec<String>)
    ensures
        r@.map_values(|s: String| s@) == orbit_children(*t, name@),
{
    match t.index.get(name) {
        Some(id) => id.children(&t.arena).map(|c| t.arena.get(c).unwrap().get().clone()).collect(),
        None => Vec::new(),
    }
}

/// Relies on `HashMap::contains_key` over the index kept beside the arena:
/// whether the name names a node.
#[verifier::external_body]
fn orbit_tree_has(t: &OrbitTree, name: &String) -> (r: bool)
    ensures
        r == orbit_has_node(*t, name@),
{
    t.index.contains_key(name)
}

/// The name pairs of a configuration, as character sequences.
pub open spec fn config_views(configuration: Seq<(String, String)>) -> Seq<(Seq<char>, Seq<char>)> {
    configuration.map_values(|p: (String, String)| (p.0@, p.1@))
}

/// The names of the children of the named node, in insertion order.
pub fn get_node_children_names(tree: &OrbitTree, parent_name: &String) -> (r: Vec<String>)
    ensures
        r@.map_values(|s: String| s@) == orbit_children(*tree, parent_name@),
{
    orbit_tree_children(tree, parent_name)
}

/// Whether a name occurs anywhere in the configuration, as parent or
/// child: exactly the names that building the tree creates nodes for.
pub open spec fn spec_mentioned(config: Seq<(Seq<char>, Seq<char>)>, x: Seq<char>) -> bool
    decreases config.len(),
{
    if config.len() == 0 {
        false
    } else {
        spec_mentioned(config.drop_last(), x) || config.last().0 == x || config.last().1 == x
    }
}

/// The child lists after folding a list of parent-child pairs into an
/// empty tree, provided no pair was refused.
pub open spec fn spec_children_after(config: Seq<(Seq<char>, Seq<char>)>, x: Seq<char>) -> Seq<
    Seq<char>,
>
    decreases config.len(),
{
    if config.len() == 0 {
        Seq::empty()
    } else {
        let prev = spec_children_after(config.drop_last(), x);
        let pair = config.last();
        if x == pair.0 {
            seq_remove_first(prev, pair.1).push(pair.1)
        } else {
            seq_remove_first(prev, pair.1)
        }
    }
}

/// A pair of the configuration is refused when its child equals its parent
/// or already stands above it in the tree built from the earlier pairs.
pub open spec fn spec_pair_refused(config: Seq<(Seq<char>, Seq<char>)>, j: int) -> bool {
    let pair = config[j];
    pair.0 == pair.1 || (exists|t: OrbitTree, k: nat|
        (forall|x: Seq<char>| #[trigger] orbit_children(t, x) == spec_children_after(
            config.take(j),
            x,
        )) && orbit_reaches(t, pair.1, pair.0, k))
}

/// Grows the orbit tree from the parent-child pairs, in order.  The tree
/// comes back only when every append was accepted; its child lists are
/// then exactly the fold of the pairs.
pub fn build_tree(configuration: Vec<(String, String)>) -> (r: Option<OrbitTree>)
    ensures
        match r {
            Some(t) => {
                &&& forall|x: Seq<char>|
                    #[trigger] orbit_children(t, x) == spec_children_after(
                        config_views(configuration@),
                        x,
                    )
                &&& forall|x: Seq<char>|
                    #[trigger] orbit_has_node(t, x) == spec_mentioned(
                        config_views(configuration@),
                        x,
                    )
            },
            None => exists|j: int|
                0 <= j < configuration@.len() && #[trigger] spec_pair_refused(
                    config_views(configuration@),
                    j,
                ),
        },
{
    let ghost config = config_views(configuration@);
    let mut tree = orbit_tree_empty();
    let mut i: usize = 0;
    while i < configuration.len()
        invariant
            i <= configuration@.len(),
            config == config_views(configuration@),
            forall|x: Seq<char>|
                #[trigger] orbit_children(tree, x) == spec_children_after(
                    config.take(i as int),
                    x,
                ),
            forall|x: Seq<char>|
                #[trigger] orbit_has_node(tree, x) == spec_mentioned(config.take(i as int), x),
        decreases configuration@.len() - i,
    {
        let ghost pre = tree;
        let pair = &configuration[i];
        let ok = orbit_tree_add(&mut tree, &pair.0, &pair.1);
        proof {
            assert(config.take(i + 1).drop_last() == config.take(i as int));
            assert(config.take(i + 1).last() == config[i as int]);
            assert(config[i as int] == (pair.0@, pair.1@));
        }
        if !ok {
            proof {
                if pair.0@ != pair.1@ {
                    let k = choose|k: nat| orbit_reaches(pre, pair.1@, pair.0@, k);
                    assert(spec_pair_refused(config, i as int)) by {
                        assert((forall|x: Seq<char>| #[trigger] orbit_children(pre, x)
                            == spec_children_after(config.take(i as int), x)) && orbit_reaches(
                            pre,
                            pair.1@,
                            pair.0@,
                            k,
                        ));
                    }
                } else {
                    assert(spec_pair_refused(config, i as int));
                }
            }
            return None;
        }
        i = i + 1;
    }
    proof {
        assert(config.take(config.len() as int) == config);
    }
    Some(tree)
}

/// One `parent)child` line split at its bracket.  The caller owes a line
/// with exactly one bracket.
pub fn parse_identifiers(line: String) -> (r: (String, String))
    requires
        spec_split(line@, ')').len() == 2,
    ensures
        r.0@ == spec_split(line@, ')')[0],
        r.1@ == spec_split(line@, ')')[1],
{
    let mut result = split_at_char(line.as_str(), ')');
    if result.len() != 2 {
        return unreached();
    }
    let right = match result.pop() {
        Some(s) => s,
        None => unreached(),
    };
    let left = match result.pop() {
        Some(s) => s,
        None => unreached(),
    };
    (left, right)
}

/// The orbit total below `name` at `depth`, within `fuel` generations:
/// each child contributes the new depth, `add` is charged once per node
/// with children, and any value outside the unsigned 32-bit range, or a
/// tree deeper than the fuel, yields nothing.
pub open spec fn spec_subtree_sum(
    t: OrbitTree,
    name: Seq<char>,
    add: u32,
    depth: i32,
    fuel: nat,
) -> Option<u32>
    decreases fuel, 1int, 0int,
{
    if fuel == 0 || depth < 0 {
        None
    } else {
        let kids = orbit_children(t, name);
        if kids.len() == 0 {
            Some(0u32)
        } else if depth == i32::MAX {
            None
        } else {
            match spec_list_sum(t, kids, add, (depth + 1) as i32, fuel) {
                None => None,
                Some(s) => {
                    let total = s + kids.len() * (depth + 1) + add;
                    if total > u32::MAX {
                        None
                    } else {
                        Some(total as u32)
                    }
                },
            }
        }
    }
}

/// The combined orbit totals of a list of sibling subtrees.
pub open spec fn spec_list_sum(
    t: OrbitTree,
    kids: Seq<Seq<char>>,
    add: u32,
    depth: i32,
    fuel: nat,
) -> Option<u32>
    decreases fuel, 0int, kids.len(),
{
    if kids.len() == 0 {
        Some(0u32)
    } else if fuel == 0 {
        None
    } else {
        match (
            spec_list_sum(t, kids.drop_last(), add, depth, fuel),
            spec_subtree_sum(t, kids.last(), add, depth, (fuel - 1) as nat),
        ) {
            (Some(a), Some(b)) => {
                if a + b > u32::MAX {
                    None
                } else {
                    Some((a + b) as u32)
                }
            },
            _ => None,
        }
    }
}

/// Once a sibling list yields nothing, longer prefixes still yield
/// nothing.
proof fn lemma_list_sum_none(
    t: OrbitTree,
    kids: Seq<Seq<char>>,
    add: u32,
    depth: i32,
    fuel: nat,
    j: int,
    k: int,
)
    requires
        0 <= j <= k <= kids.len(),
        fuel > 0,
        spec_list_sum(t, kids.take(j), add, depth, fuel) is None,
    ensures
        spec_list_sum(t, kids.take(k), add, depth, fuel) is None,
    decreases k - j,
{
    if k > j {
        assert(kids.take(j + 1).drop_last() == kids.take(j));
        lemma_list_sum_none(t, kids, add, depth, fuel, j + 1, k);
    }
}

/// The orbit total below the named node, as `spec_subtree_sum` defines it,
/// within the given fuel.
fn orbit_sum_helper(t: &OrbitTree, name: &String, add: u32, depth: i32, fuel: u64) -> (r: Option<
    u32,
>)
    requires
        depth >= 0,
    ensures
        r == spec_subtree_sum(*t, name@, add, depth, fuel as nat),
    decreases fuel,
{
    if fuel == 0 {
        return None;
    }
    let kids = orbit_tree_children(t, name);
    let ghost kv = orbit_children(*t, name@);
    if kids.len() == 0 {
        return Some(0);
    }
    if depth == i32::MAX {
        return None;
    }
    let nd = depth + 1;
    let mut acc: u32 = 0;
    let mut j: usize = 0;
    while j < kids.len()
        invariant
            j <= kids@.len(),
            fuel >= 1,
            kv == orbit_children(*t, name@),
            kids@.map_values(|s: String| s@) == kv,
            depth >= 0,
            nd == depth + 1,
            spec_list_sum(*t, kv.take(j as int), add, nd, fuel as nat) == Some(acc),
        decreases kids@.len() - j,
    {
        proof {
            assert(kv.take(j + 1).drop_last() == kv.take(j as int));
            assert(kv.take(j + 1).last() == kv[j as int]);
            assert(kids@[j as int]@ == kv[j as int]);
        }
        let sub = orbit_sum_helper(t, &kids[j], add, depth + 1, fuel - 1);
        let b = match sub {
            Some(b) => b,
            None => {
                proof {
                    assert(spec_list_sum(*t, kv.take(j + 1), add, nd, fuel as nat) is None);
                    lemma_list_sum_none(
                        *t,
                        kv,
                        add,
                        nd,
                        fuel as nat,
                        j + 1,
                        kv.len() as int,
                    );
                    assert(kv.take(kv.len() as int) == kv);
                }
                return None;
            },
        };
        let next = match acc.checked_add(b) {
            Some(x) => x,
            None => {
                proof {
                    assert(spec_list_sum(*t, kv.take(j + 1), add, nd, fuel as nat) is None);
                    lemma_list_sum_none(
                        *t,
                        kv,
                        add,
                        nd,
                        fuel as nat,
                        j + 1,
                        kv.len() as int,
                    );
                    assert(kv.take(kv.len() as int) == kv);
                }
                return None;
            },
        };
        acc = next;
        j = j + 1;
    }
    proof {
        assert(kv.take(kv.len() as int) == kv);
    }
    // The per-node charge: one new depth per child, plus the carried sum.
    if kids.len() > (u32::MAX as usize) {
        proof {
            assert(kv.len() * (nd as int) + add + acc > u32::MAX) by (nonlinear_arith)
                requires
                    kv.len() > u32::MAX,
                    nd >= 1,
                    add >= 0,
                    acc >= 0,
            ;
        }
        return None;
    }
    let count = kids.len() as u32;
    let charge = match count.checked_mul(nd as u32) {
        Some(x) => x,
        None => {
            proof {
                lemma_total_overflow(kv.len() as int, nd as int, add as int, acc as int);
            }
            return None;
        },
    };
    let with_add = match charge.checked_add(add) {
        Some(x) => x,
        None => {
            proof {
                lemma_total_overflow_2(kv.len() as int, nd as int, add as int, acc as int);
            }
            return None;
        },
    };
    match acc.checked_add(with_add) {
        Some(x) => Some(x),
        None => None,
    }
}

proof fn lemma_total_overflow(count: int, nd: int, add: int, acc: int)
    requires
        count * nd > u32::MAX,
        add >= 0,
        acc >= 0,
    ensures
        acc + count * nd + add > u32::MAX,
{
}

proof fn lemma_total_overflow_2(count: int, nd: int, add: int, acc: int)
    requires
        count * nd + add > u32::MAX,
        acc >= 0,
    ensures
        acc + count * nd + add > u32::MAX,
{
}

/// The total number of direct and indirect orbits below the named node:
/// every node below it contributes its depth.  `sum` is charged once per
/// parent along the way, and `depth` is where the counting starts; the
/// callers of record pass zero for both.  Counting from a name that names
/// no node is a caller error, not a zero: the traversal is only asked
/// about real roots, so the caller owes the name's existence.
pub fn get_sum_tree_step(tree: &OrbitTree, reference_name: String, sum: u32, depth: i32) -> (r:
    Option<u32>)
    requires
        depth >= 0,
        orbit_has_node(*tree, reference_name@),
    ensures
        r == spec_subtree_sum(*tree, reference_name@, sum, depth, u64::MAX as nat),
{
    orbit_sum_helper(tree, &reference_name, sum, depth, u64::MAX)
}

/// Builds the orbit tree from the pairs and counts every direct and
/// indirect orbit from the root named `COM`; nothing when a pair is
/// refused, the root is absent, or the count cannot be delivered.
pub fn part_1(configuration: Vec<(String, String)>) -> (r: Option<u32>)
    ensures
        match r {
            Some(v) => exists|t: OrbitTree|
                {
                    &&& (forall|x: Seq<char>| #[trigger] orbit_children(t, x)
                        == spec_children_after(config_views(configuration@), x))
                    &&& #[trigger] spec_subtree_sum(t, "COM"@, 0u32, 0i32, u64::MAX as nat)
                        == Some(v)
                },
            None => {
                ||| exists|j: int|
                    0 <= j < configuration@.len() && #[trigger] spec_pair_refused(
                        config_views(configuration@),
                        j,
                    )
                ||| !spec_mentioned(config_views(configuration@), "COM"@)
                ||| exists|t: OrbitTree|
                    {
                        &&& (forall|x: Seq<char>| #[trigger] orbit_children(t, x)
                            == spec_children_after(config_views(configuration@), x))
                        &&& #[trigger] spec_subtree_sum(t, "COM"@, 0u32, 0i32, u64::MAX as nat)
                            is None
                    }
            },
        },
{
    let tree = match build_tree(configuration) {
        Some(t) => t,
        None => {
            return None;
        },
    };
    let root: String = "COM".to_owned();
    if !orbit_tree_has(&tree, &root) {
        return None;
    }
    let r = get_sum_tree_step(&tree, root, 0, 0);
    proof {
        match r {
            Some(v) => {
                assert(spec_subtree_sum(tree, "COM"@, 0u32, 0i32, u64::MAX as nat) == Some(
                    v,
                ));
            },
            None => {},
        }
    }
    r
}

} // verus!
