//! The kernel's AA tree of resource capability arenas, keyed by arena id.
use vstd::prelude::*;
use crate::capability::{ArenaContents, ResourceCapabilityArena};

verus! {

/// A possibly empty arena tree: the root arena, whose `left` and `right`
/// links hold the subtrees.
pub type ArenaLink = Option<Box<ResourceCapabilityArena>>;

/// The tree as a map from arena id to what the arena with that id holds.
pub open spec fn tree_map(t: ArenaLink) -> Map<u64, ArenaContents>
    decreases t,
{
    match t {
        None => Map::empty(),
        Some(n) => tree_map(n.left).union_prefer_right(tree_map(n.right)).insert(
            n.arenaid,
            n.contents(),
        ),
    }
}

/// Search-tree order: every id in a left subtree is below its root's id,
/// every id in a right subtree above it.
pub open spec fn tree_bst(t: ArenaLink) -> bool
    decreases t,
{
    match t {
        None => true,
        Some(n) => {
            &&& forall|k: u64| #[trigger] tree_map(n.left).dom().contains(k) ==> k < n.arenaid
            &&& forall|k: u64| #[trigger] tree_map(n.right).dom().contains(k) ==> n.arenaid < k
            &&& tree_bst(n.left)
            &&& tree_bst(n.right)
        },
    }
}

/// Number of arenas on the longest path from the root.
pub open spec fn tree_height(t: ArenaLink) -> nat
    decreases t,
{
    match t {
        None => 0,
        Some(n) => 1 + vstd::math::max(
            tree_height(n.left) as int,
            tree_height(n.right) as int,
        ) as nat,
    }
}

/// The highest level of an arena in the tree (0 for the empty tree).
pub open spec fn tree_max_level(t: ArenaLink) -> nat
    decreases t,
{
    match t {
        None => 0,
        Some(n) => vstd::math::max(
            n.level as int,
            vstd::math::max(tree_max_level(n.left) as int, tree_max_level(n.right) as int),
        ) as nat,
    }
}

/// Every arena in the tree has a level of at least 1.
pub open spec fn levels_positive(t: ArenaLink) -> bool
    decreases t,
{
    match t {
        None => true,
        Some(n) => n.level >= 1 && levels_positive(n.left) && levels_positive(n.right),
    }
}

/// Every arena in the tree stores at least its `slots` capabilities.
pub open spec fn slots_fit(t: ArenaLink) -> bool
    decreases t,
{
    match t {
        None => true,
        Some(n) => n.slots <= n.res_cap@.len() && slots_fit(n.left) && slots_fit(n.right),
    }
}

/// Whether every arena in the tree stores at least its `slots` capabilities.
pub fn tree_slots_fit(t: &ArenaLink) -> (ok: bool)
    ensures
        ok == slots_fit(*t),
    decreases *t,
{
    match t {
        None => true,
        Some(n) => (n.slots as usize) <= n.res_cap.len() && tree_slots_fit(&n.left)
            && tree_slots_fit(&n.right),
    }
}

/// Level of a subtree's root; 0 for the empty tree.
pub open spec fn link_level(t: ArenaLink) -> u64 {
    match t {
        None => 0,
        Some(n) => n.level,
    }
}

/// The tree `skew` makes of `t`: when the left child is on the root's level,
/// it becomes the root and the old root its right child, taking over the
/// left child's right subtree.
pub open spec fn skew_spec(t: ArenaLink) -> ArenaLink {
    match t {
        None => None,
        Some(n) => match n.left {
            Some(l) => if l.level == n.level {
                Some(
                    Box::new(
                        ResourceCapabilityArena {
                            right: Some(Box::new(ResourceCapabilityArena { left: l.right, ..*n })),
                            ..*l
                        },
                    ),
                )
            } else {
                t
            },
            None => t,
        },
    }
}

/// The tree `split` makes of `t`: when the right child's right child is on
/// the root's level, the right child becomes the root, one level up, and the
/// old root its left child, taking over the right child's left subtree.
pub open spec fn split_spec(t: ArenaLink) -> ArenaLink {
    match t {
        None => None,
        Some(n) => match n.right {
            Some(r) => match r.right {
                Some(rr) => if rr.level == n.level {
                    Some(
                        Box::new(
                            ResourceCapabilityArena {
                                left: Some(Box::new(ResourceCapabilityArena { right: r.left, ..*n })),
                                level: (r.level + 1) as u64,
                                ..*r
                            },
                        ),
                    )
                } else {
                    t
                },
                None => t,
            },
            None => t,
        },
    }
}

/// The AA tree rules, at every arena: the level is at least 1, a left child
/// sits exactly one level below, a right child on the same level or one
/// below, and a right child's right child strictly below (empty subtrees
/// count as level 0).
pub open spec fn tree_aa(t: ArenaLink) -> bool
    decreases t,
{
    match t {
        None => true,
        Some(n) => {
            &&& n.level >= 1
            &&& link_level(n.left) + 1 == n.level
            &&& (link_level(n.right) == n.level || link_level(n.right) + 1 == n.level)
            &&& match n.right {
                Some(r) => link_level(r.right) < n.level,
                None => true,
            }
            &&& tree_aa(n.left)
            &&& tree_aa(n.right)
        },
    }
}

/// How insertion changes the root level of a subtree `t` into `r`: it stays,
/// or it rises by one when `t`'s root had a right child on its own level;
/// then both children of the new root sit on the old root level.
pub open spec fn insert_shape(t: ArenaLink, r: ArenaLink) -> bool {
    ||| link_level(r) == link_level(t)
    ||| {
        &&& link_level(r) == link_level(t) + 1
        &&& r matches Some(rn)
        &&& link_level(rn.left) == link_level(t)
        &&& link_level(rn.right) == link_level(t)
        &&& t matches Some(tn) ==> link_level(tn.right) == tn.level
    }
}

proof fn lemma_aa_unfold(n: ResourceCapabilityArena)
    ensures
        tree_aa(Some(Box::new(n))) == {
            &&& n.level >= 1
            &&& link_level(n.left) + 1 == n.level
            &&& (link_level(n.right) == n.level || link_level(n.right) + 1 == n.level)
            &&& match n.right {
                Some(r) => link_level(r.right) < n.level,
                None => true,
            }
            &&& tree_aa(n.left)
            &&& tree_aa(n.right)
        },
{
}

/// One step of insertion on the left: `t1` is `t0` with its left subtree
/// replaced by the result of inserting into it. Skewing and splitting `t1`
/// gives an AA tree of the shape insertion promises.
proof fn lemma_insert_aa_left(t0: ResourceCapabilityArena, t1: ResourceCapabilityArena)
    requires
        tree_aa(Some(Box::new(t0))),
        t0.level < u64::MAX,
        t1 == (ResourceCapabilityArena { left: t1.left, ..t0 }),
        tree_aa(t1.left),
        t1.left is Some,
        insert_shape(t0.left, t1.left),
    ensures
        tree_aa(split_spec(skew_spec(Some(Box::new(t1))))),
        insert_shape(Some(Box::new(t0)), split_spec(skew_spec(Some(Box::new(t1))))),
{
    lemma_aa_unfold(t0);
    lemma_aa_unfold(t1);
    let cn = *t1.left.unwrap();
    lemma_aa_unfold(cn);
    let l = t0.level;
    if link_level(t1.left) == l {
        let t1r = ResourceCapabilityArena { left: cn.right, ..t1 };
        lemma_aa_unfold(t1r);
        let root = ResourceCapabilityArena { right: Some(Box::new(t1r)), ..cn };
        assert(skew_spec(Some(Box::new(t1))) == Some(Box::new(root)));
        lemma_aa_unfold(root);
        if link_level(t0.right) == l {
            let lower = ResourceCapabilityArena { right: t1r.left, ..root };
            assert(lower == cn);
            let top = ResourceCapabilityArena { left: Some(Box::new(lower)), level: (t1r.level + 1) as u64, ..t1r };
            assert(split_spec(Some(Box::new(root))) == Some(Box::new(top)));
            lemma_aa_unfold(top);
        } else {
            assert(split_spec(Some(Box::new(root))) == Some(Box::new(root)));
        }
    } else {
        assert(skew_spec(Some(Box::new(t1))) == Some(Box::new(t1)));
        assert(split_spec(Some(Box::new(t1))) == Some(Box::new(t1)));
    }
}

/// One step of insertion on the right: `t1` is `t0` with its right subtree
/// replaced by the result of inserting into it.
proof fn lemma_insert_aa_right(t0: ResourceCapabilityArena, t1: ResourceCapabilityArena)
    requires
        tree_aa(Some(Box::new(t0))),
        t0.level < u64::MAX,
        t1 == (ResourceCapabilityArena { right: t1.right, ..t0 }),
        tree_aa(t1.right),
        t1.right is Some,
        insert_shape(t0.right, t1.right),
    ensures
        tree_aa(split_spec(skew_spec(Some(Box::new(t1))))),
        insert_shape(Some(Box::new(t0)), split_spec(skew_spec(Some(Box::new(t1))))),
{
    lemma_aa_unfold(t0);
    lemma_aa_unfold(t1);
    let cn = *t1.right.unwrap();
    lemma_aa_unfold(cn);
    let l = t0.level;
    assert(skew_spec(Some(Box::new(t1))) == Some(Box::new(t1)));
    if link_level(cn.right) == l {
        let lower = ResourceCapabilityArena { right: cn.left, ..t1 };
        lemma_aa_unfold(lower);
        let top = ResourceCapabilityArena { left: Some(Box::new(lower)), level: (cn.level + 1) as u64, ..cn };
        assert(split_spec(Some(Box::new(t1))) == Some(Box::new(top)));
        lemma_aa_unfold(top);
    } else {
        assert(split_spec(Some(Box::new(t1))) == Some(Box::new(t1)));
    }
}

/// Skew: a left child on its parent's level is rotated above it.
fn skew(t: ArenaLink) -> (r: ArenaLink)
    ensures
        r == skew_spec(t),
        tree_bst(t) ==> tree_bst(r) && tree_map(r) == tree_map(t),
        tree_max_level(r) == tree_max_level(t),
        levels_positive(t) ==> levels_positive(r),
        t is None <==> r is None,
{
    match t {
        None => None,
        Some(mut node) => {
            let rotate = match &node.left {
                None => false,
                Some(l) => l.level == node.level,
            };
            if !rotate {
                return Some(node);
            }
            let ghost t0 = *node;
            let mut l = node.left.take().unwrap();
            let ghost l0 = *l;
            node.left = l.right.take();
            l.right = Some(node);
            proof {
                lemma_rotate_right(t0, l0, *l);
            }
            Some(l)
        },
    }
}

/// The right rotation performed by `skew` keeps the map view and the search
/// order, and only moves levels around.
proof fn lemma_rotate_right(
    t0: ResourceCapabilityArena,
    l0: ResourceCapabilityArena,
    r: ResourceCapabilityArena,
)
    requires
        t0.left == Some(Box::new(l0)),
        r.arenaid == l0.arenaid,
        r.level == l0.level,
        r.contents() == l0.contents(),
        r.left == l0.left,
        r.right matches Some(n) && n.arenaid == t0.arenaid && n.level == t0.level
            && n.contents() == t0.contents() && n.left == l0.right && n.right == t0.right,
    ensures
        tree_bst(Some(Box::new(t0))) ==> tree_bst(Some(Box::new(r))) && tree_map(
            Some(Box::new(r)),
        ) == tree_map(Some(Box::new(t0))),
        tree_max_level(Some(Box::new(r))) == tree_max_level(Some(Box::new(t0))),
        levels_positive(Some(Box::new(t0))) ==> levels_positive(Some(Box::new(r))),
{
    let n = r.right.unwrap();
    let ma = tree_map(l0.left);
    let mb = tree_map(l0.right);
    let mc = tree_map(t0.right);
    assert(tree_map(t0.left) == ma.union_prefer_right(mb).insert(l0.arenaid, l0.contents()));
    assert(tree_map(r.right) == mb.union_prefer_right(mc).insert(t0.arenaid, t0.contents()));
    assert(tree_max_level(t0.left) == vstd::math::max(
        l0.level as int,
        vstd::math::max(tree_max_level(l0.left) as int, tree_max_level(l0.right) as int),
    ));
    assert(tree_max_level(r.right) == vstd::math::max(
        t0.level as int,
        vstd::math::max(tree_max_level(l0.right) as int, tree_max_level(t0.right) as int),
    ));
    assert(levels_positive(t0.left) == (l0.level >= 1 && levels_positive(l0.left)
        && levels_positive(l0.right)));
    assert(levels_positive(r.right) == (t0.level >= 1 && levels_positive(l0.right)
        && levels_positive(t0.right)));
    if tree_bst(Some(Box::new(t0))) {
        assert(tree_bst(t0.left));
        assert(tree_map(t0.left).dom().contains(l0.arenaid));
        assert forall|k: u64| #[trigger] mb.dom().contains(k) implies k < t0.arenaid by {
            assert(tree_map(t0.left).dom().contains(k));
        }
        assert forall|k: u64| #[trigger] ma.dom().contains(k) implies k < t0.arenaid by {
            assert(tree_map(t0.left).dom().contains(k));
        }
        assert(tree_bst(r.right));
        assert forall|k: u64| #[trigger] tree_map(r.right).dom().contains(k) implies l0.arenaid
            < k by {
            if mc.dom().contains(k) {
                assert(t0.arenaid < k);
            }
        }
        assert(tree_map(Some(Box::new(r))) =~= tree_map(Some(Box::new(t0))));
    }
}

/// Split: two consecutive right children on their grandparent's level; the
/// middle arena is rotated above and raised one level.
fn split(t: ArenaLink) -> (r: ArenaLink)
    requires
        tree_max_level(t) < u64::MAX,
    ensures
        r == split_spec(t),
        tree_bst(t) ==> tree_bst(r) && tree_map(r) == tree_map(t),
        tree_max_level(r) <= tree_max_level(t) + 1,
        levels_positive(t) ==> levels_positive(r),
        t is None <==> r is None,
{
    match t {
        None => None,
        Some(mut node) => {
            let rotate = match &node.right {
                None => false,
                Some(rn) => match &rn.right {
                    None => false,
                    Some(rr) => rr.level == node.level,
                },
            };
            if !rotate {
                return Some(node);
            }
            let ghost t0 = *node;
            let mut rn = node.right.take().unwrap();
            let ghost r0 = *rn;
            proof {
                assert(tree_max_level(t0.right) == vstd::math::max(
                    r0.level as int,
                    vstd::math::max(tree_max_level(r0.left) as int, tree_max_level(r0.right) as int),
                ));
            }
            node.right = rn.left.take();
            rn.left = Some(node);
            rn.level = rn.level + 1;
            proof {
                lemma_rotate_left(t0, r0, *rn);
            }
            Some(rn)
        },
    }
}

/// The left rotation performed by `split` keeps the map view and the search
/// order, and raises one level by one.
proof fn lemma_rotate_left(
    t0: ResourceCapabilityArena,
    r0: ResourceCapabilityArena,
    r: ResourceCapabilityArena,
)
    requires
        t0.right == Some(Box::new(r0)),
        r.arenaid == r0.arenaid,
        r.level == r0.level + 1,
        r.contents() == r0.contents(),
        r.right == r0.right,
        r.left matches Some(n) && n.arenaid == t0.arenaid && n.level == t0.level
            && n.contents() == t0.contents() && n.right == r0.left && n.left == t0.left,
    ensures
        tree_bst(Some(Box::new(t0))) ==> tree_bst(Some(Box::new(r))) && tree_map(
            Some(Box::new(r)),
        ) == tree_map(Some(Box::new(t0))),
        tree_max_level(Some(Box::new(r))) <= tree_max_level(Some(Box::new(t0))) + 1,
        levels_positive(Some(Box::new(t0))) ==> levels_positive(Some(Box::new(r))),
{
    let ma = tree_map(t0.left);
    let mb = tree_map(r0.left);
    let mc = tree_map(r0.right);
    assert(tree_map(t0.right) == mb.union_prefer_right(mc).insert(r0.arenaid, r0.contents()));
    assert(tree_map(r.left) == ma.union_prefer_right(mb).insert(t0.arenaid, t0.contents()));
    assert(tree_max_level(t0.right) == vstd::math::max(
        r0.level as int,
        vstd::math::max(tree_max_level(r0.left) as int, tree_max_level(r0.right) as int),
    ));
    assert(tree_max_level(r.left) == vstd::math::max(
        t0.level as int,
        vstd::math::max(tree_max_level(t0.left) as int, tree_max_level(r0.left) as int),
    ));
    assert(levels_positive(t0.right) == (r0.level >= 1 && levels_positive(r0.left)
        && levels_positive(r0.right)));
    assert(levels_positive(r.left) == (t0.level >= 1 && levels_positive(t0.left)
        && levels_positive(r0.left)));
    if tree_bst(Some(Box::new(t0))) {
        assert(tree_bst(t0.right));
        assert(tree_map(t0.right).dom().contains(r0.arenaid));
        assert forall|k: u64| #[trigger] mb.dom().contains(k) implies t0.arenaid < k by {
            assert(tree_map(t0.right).dom().contains(k));
        }
        assert forall|k: u64| #[trigger] mc.dom().contains(k) implies t0.arenaid < k by {
            assert(tree_map(t0.right).dom().contains(k));
        }
        assert(tree_bst(r.left));
        assert forall|k: u64| #[trigger] tree_map(r.left).dom().contains(k) implies k
            < r0.arenaid by {
            if ma.dom().contains(k) {
                assert(k < t0.arenaid);
            }
        }
        assert(tree_map(Some(Box::new(r))) =~= tree_map(Some(Box::new(t0))));
    }
}

/// The map view of a one-arena tree whose root is `n`.
proof fn lemma_map_unfold(n: ResourceCapabilityArena)
    ensures
        tree_map(Some(Box::new(n))) == tree_map(n.left).union_prefer_right(tree_map(n.right)).insert(
            n.arenaid,
            n.contents(),
        ),
        tree_height(n.left) < tree_height(Some(Box::new(n))),
        tree_height(n.right) < tree_height(Some(Box::new(n))),
        tree_height(Some(Box::new(n))) == 1 + vstd::math::max(
            tree_height(n.left) as int,
            tree_height(n.right) as int,
        ),
        tree_max_level(Some(Box::new(n))) == vstd::math::max(
            n.level as int,
            vstd::math::max(tree_max_level(n.left) as int, tree_max_level(n.right) as int),
        ),
        levels_positive(Some(Box::new(n))) == (n.level >= 1 && levels_positive(n.left)
            && levels_positive(n.right)),
{
}

/// Two arenas with the same id and contents whose subtrees agree (on search
/// trees) root trees that agree.
proof fn lemma_node_congruence(a: ResourceCapabilityArena, b: ResourceCapabilityArena)
    requires
        a.arenaid == b.arenaid,
        a.contents() == b.contents(),
        tree_bst(a.left) ==> tree_bst(b.left) && tree_map(b.left) == tree_map(a.left),
        tree_bst(a.right) ==> tree_bst(b.right) && tree_map(b.right) == tree_map(a.right),
    ensures
        tree_bst(Some(Box::new(a))) ==> tree_bst(Some(Box::new(b))) && tree_map(
            Some(Box::new(b)),
        ) == tree_map(Some(Box::new(a))),
{
    lemma_map_unfold(a);
    lemma_map_unfold(b);
}

/// The map view of `insert_arena`'s result on a search tree.
pub open spec fn map_after_insert(
    m: Map<u64, ArenaContents>,
    id: u64,
    c: ArenaContents,
) -> Map<u64, ArenaContents> {
    if m.dom().contains(id) {
        m
    } else {
        m.insert(id, c)
    }
}

/// The tree `insert_arena` makes of `t` and `node`: the search for the
/// node's id goes down as in a lookup; an empty subtree becomes the node, at
/// level 1 without children; an arena with the same id stops the insertion;
/// and each arena on the way back up is skewed, then split.
pub open spec fn insert_spec(t: ArenaLink, node: ResourceCapabilityArena) -> ArenaLink
    decreases t,
{
    match t {
        None => Some(Box::new(ResourceCapabilityArena { left: None, right: None, level: 1, ..node })),
        Some(n) => if node.arenaid < n.arenaid {
            split_spec(skew_spec(Some(Box::new(ResourceCapabilityArena { left: insert_spec(n.left, node), ..*n }))))
        } else if node.arenaid > n.arenaid {
            split_spec(skew_spec(Some(Box::new(ResourceCapabilityArena { right: insert_spec(n.right, node), ..*n }))))
        } else {
            t
        },
    }
}

/// Inserts `node` into the tree rooted at `root` and returns the new root.
/// An arena whose id is already in the tree is not inserted. The inserted
/// arena starts at level 1 with no children; the tree is rebalanced by skew
/// and split on the way back up.
pub fn insert_arena(root: ArenaLink, node: Box<ResourceCapabilityArena>) -> (r: ArenaLink)
    requires
        tree_max_level(root) + tree_height(root) < u64::MAX,
    ensures
        r == insert_spec(root, *node),
        tree_bst(root) ==> tree_bst(r) && tree_map(r) == map_after_insert(
            tree_map(root),
            node.arenaid,
            node.contents(),
        ),
        tree_max_level(r) <= tree_max_level(root) + tree_height(root) + 1,
        levels_positive(root) ==> levels_positive(r),
        tree_aa(root) ==> tree_aa(r) && insert_shape(root, r),
        r is Some,
    decreases tree_height(root),
{
    match root {
        None => {
            let mut n = node;
            n.left = None;
            n.right = None;
            n.level = 1;
            proof {
                assert(tree_map(Some(n)) =~= map_after_insert(
                    tree_map(root),
                    node.arenaid,
                    node.contents(),
                ));
            }
            Some(n)
        },
        Some(mut t) => {
            let ghost t0 = *t;
            let ghost nid = node.arenaid;
            proof {
                lemma_map_unfold(t0);
            }
            if node.arenaid < t.arenaid {
                let l = t.left.take();
                let nl = insert_arena(l, node);
                t.left = nl;
            } else if node.arenaid > t.arenaid {
                let rt = t.right.take();
                let nr = insert_arena(rt, node);
                t.right = nr;
            } else {
                return Some(t);
            }
            let ghost t1 = *t;
            proof {
                if tree_aa(root) {
                    if nid < t0.arenaid {
                        assert(t1 == (ResourceCapabilityArena { left: t1.left, ..t0 }));
                        lemma_insert_aa_left(t0, t1);
                    } else {
                        assert(t1 == (ResourceCapabilityArena { right: t1.right, ..t0 }));
                        lemma_insert_aa_right(t0, t1);
                    }
                }
                lemma_map_unfold(t1);
                assert(tree_max_level(Some(t)) <= tree_max_level(root) + tree_height(root));
                assert(levels_positive(root) ==> levels_positive(Some(t)));
                if tree_bst(root) {
                    let id = node.arenaid;
                    let m0 = tree_map(root);
                    if id < t0.arenaid {
                        assert(!tree_map(t0.right).dom().contains(id));
                        assert(m0.dom().contains(id) == tree_map(t0.left).dom().contains(id));
                        assert forall|k: u64| #[trigger] tree_map(t1.left).dom().contains(k)
                            implies k < t1.arenaid by {
                            if k != id {
                                assert(tree_map(t0.left).dom().contains(k));
                            }
                        }
                    } else {
                        assert(!tree_map(t0.left).dom().contains(id));
                        assert(m0.dom().contains(id) == tree_map(t0.right).dom().contains(id));
                        assert forall|k: u64| #[trigger] tree_map(t1.right).dom().contains(k)
                            implies t1.arenaid < k by {
                            if k != id {
                                assert(tree_map(t0.right).dom().contains(k));
                            }
                        }
                    }
                    assert(tree_bst(Some(t)));
                    assert(tree_map(Some(t)) =~= map_after_insert(m0, id, node.contents()));
                }
            }
            let s = skew(Some(t));
            split(s)
        },
    }
}

/// The arena that the search for `id` reaches from the root of `t`: it goes
/// left at an arena whose id is above `id` and right at one whose id is
/// below, and stops at the arena with id `id` or at an empty subtree.
pub open spec fn search_path(t: ArenaLink, id: u64) -> Option<ResourceCapabilityArena>
    decreases t,
{
    match t {
        None => None,
        Some(n) => if id == n.arenaid {
            Some(*n)
        } else if id < n.arenaid {
            search_path(n.left, id)
        } else {
            search_path(n.right, id)
        },
    }
}

/// What the search finds lies in the tree and has the id searched for; on a
/// search tree it finds exactly the ids of the tree, with their contents.
pub proof fn lemma_search_path(t: ArenaLink, id: u64)
    ensures
        search_path(t, id) matches Some(a) ==> a.arenaid == id && tree_map(t).dom().contains(id),
        search_path(t, id) matches Some(a) ==> (slots_fit(t) ==> a.slots <= a.res_cap@.len()),
        tree_bst(t) ==> (search_path(t, id) is Some <==> tree_map(t).dom().contains(id)),
        tree_bst(t) ==> (search_path(t, id) matches Some(a) ==> tree_map(t)[id] == a.contents()),
    decreases t,
{
    if let Some(n) = t {
        lemma_map_unfold(*n);
        lemma_search_path(n.left, id);
        lemma_search_path(n.right, id);
        if tree_bst(t) {
            if id < n.arenaid {
                assert(!tree_map(n.right).dom().contains(id));
            } else if id > n.arenaid {
                assert(!tree_map(n.left).dom().contains(id));
            }
        }
    }
}

/// Looks up the arena with id `target_id`, walking down from `root`.
pub fn find_arena(root: &ArenaLink, target_id: u64) -> (r: Option<&ResourceCapabilityArena>)
    ensures
        match r {
            None => search_path(*root, target_id) is None,
            Some(a) => search_path(*root, target_id) == Some(*a),
        },
        r matches Some(a) ==> a.arenaid == target_id,
        slots_fit(*root) ==> (r matches Some(a) ==> a.slots <= a.res_cap@.len()),
        tree_bst(*root) ==> (r is Some <==> tree_map(*root).dom().contains(target_id)),
        tree_bst(*root) ==> (r matches Some(a) ==> tree_map(*root)[target_id] == a.contents()),
{
    let mut current: &ArenaLink = root;
    loop
        invariant
            search_path(*root, target_id) == search_path(*current, target_id),
        decreases tree_height(*current),
    {
        match current {
            None => {
                proof {
                    lemma_search_path(*root, target_id);
                }
                return None;
            },
            Some(n) => {
                proof {
                    lemma_map_unfold(**n);
                    lemma_search_path(*root, target_id);
                }
                if target_id == n.arenaid {
                    return Some(&**n);
                } else if target_id < n.arenaid {
                    current = &n.left;
                } else {
                    current = &n.right;
                }
            },
        }
    }
}

/// `update_level` needs to lower `n`: a child has fallen two levels below it.
pub open spec fn needs_lowering(n: ResourceCapabilityArena) -> bool {
    link_level(n.left) < n.level - 1 || link_level(n.right) < n.level - 1
}

/// `n` lowered by one level, with a right child above the new level lowered
/// to it.
pub open spec fn lower_spec(n: ResourceCapabilityArena) -> ResourceCapabilityArena {
    let n1 = ResourceCapabilityArena { level: (n.level - 1) as u64, ..n };
    match n1.right {
        Some(r) => if r.level > n1.level {
            ResourceCapabilityArena {
                right: Some(Box::new(ResourceCapabilityArena { level: n1.level, ..*r })),
                ..n1
            }
        } else {
            n1
        },
        None => n1,
    }
}

/// `s` with its right child skewed, then that child's right child skewed.
pub open spec fn skew_right_spec(s: ResourceCapabilityArena) -> ResourceCapabilityArena {
    match s.right {
        None => s,
        Some(sr) => {
            let sr2 = *skew_spec(Some(sr)).unwrap();
            let sr3 = match sr2.right {
                None => sr2,
                Some(x) => ResourceCapabilityArena { right: skew_spec(Some(x)), ..sr2 },
            };
            ResourceCapabilityArena { right: Some(Box::new(sr3)), ..s }
        },
    }
}

/// `p` with its right child split.
pub open spec fn split_right_spec(p: ResourceCapabilityArena) -> ResourceCapabilityArena {
    match p.right {
        None => p,
        Some(pr) => ResourceCapabilityArena { right: split_spec(Some(pr)), ..p },
    }
}

/// The tree `update_level` makes of `n`.
pub open spec fn update_level_spec(n: ResourceCapabilityArena) -> ResourceCapabilityArena {
    if !needs_lowering(n) {
        n
    } else {
        let s = *skew_spec(Some(Box::new(lower_spec(n)))).unwrap();
        let p = *split_spec(Some(Box::new(skew_right_spec(s)))).unwrap();
        split_right_spec(p)
    }
}

/// How deletion changes the root level of a subtree `t` into `r`: it stays or
/// drops by one, and when `t`'s root had no right child on its own level and
/// the level stays, neither has `r`'s.
pub open spec fn delete_shape(t: ArenaLink, r: ArenaLink) -> bool {
    &&& (link_level(r) == link_level(t) || link_level(r) + 1 == link_level(t))
    &&& (t matches Some(tn) && link_level(tn.right) < tn.level && link_level(r) == link_level(t))
        ==> (r matches Some(rn) && link_level(rn.right) < rn.level)
}

/// One step of deletion on the left: `t1` is `t0` with its left subtree
/// replaced by the result of deleting from it. Rebalancing `t1` gives an AA
/// tree of the shape deletion promises.
proof fn lemma_delete_aa_left(t0: ResourceCapabilityArena, t1: ResourceCapabilityArena)
    requires
        tree_aa(Some(Box::new(t0))),
        t0.level < u64::MAX,
        t1 == (ResourceCapabilityArena { left: t1.left, ..t0 }),
        tree_aa(t1.left),
        delete_shape(t0.left, t1.left),
    ensures
        tree_aa(Some(Box::new(update_level_spec(t1)))),
        delete_shape(Some(Box::new(t0)), Some(Box::new(update_level_spec(t1)))),
{
    lemma_aa_unfold(t0);
    lemma_aa_unfold(t1);
    let l = t0.level;
    if !needs_lowering(t1) {
        return;
    }
    let n2 = lower_spec(t1);
    let b = *t0.right.unwrap();
    lemma_aa_unfold(b);
    assert(skew_spec(Some(Box::new(n2))) == Some(Box::new(n2)));
    if b.level + 1 == l {
        // The right child stays where it is; the lowered root may form two
        // right links on its new level, which the split undoes.
        assert(n2 == ResourceCapabilityArena { level: (l - 1) as u64, ..t1 });
        lemma_aa_unfold(n2);
        assert(skew_spec(Some(Box::new(b))) == Some(Box::new(b)));
        match b.right {
            None => {
                assert(skew_right_spec(n2) == n2);
                assert(split_spec(Some(Box::new(n2))) == Some(Box::new(n2)));
                assert(split_right_spec(n2) == n2);
            },
            Some(x) => {
                lemma_aa_unfold(*x);
                assert(skew_spec(Some(x)) == Some(x));
                assert(skew_right_spec(n2) == n2);
                if x.level + 1 == l {
                    let lower = ResourceCapabilityArena { right: b.left, ..n2 };
                    lemma_aa_unfold(lower);
                    let top = ResourceCapabilityArena {
                        left: Some(Box::new(lower)),
                        level: (b.level + 1) as u64,
                        ..b
                    };
                    assert(split_spec(Some(Box::new(n2))) == Some(Box::new(top)));
                    assert(split_spec(Some(x)) == Some(x));
                    assert(split_right_spec(top) == top);
                    lemma_aa_unfold(top);
                } else {
                    assert(split_spec(Some(Box::new(n2))) == Some(Box::new(n2)));
                    assert(split_spec(Some(Box::new(b))) == Some(Box::new(b)));
                    assert(split_right_spec(n2) == n2);
                }
            },
        }
    } else {
        // The right child was on the root's level: lowered with the root, it
        // and its left child are rotated apart by the skews, and the two
        // splits raise the middle arenas.
        let p = *b.left.unwrap();
        let q = *b.right.unwrap();
        lemma_aa_unfold(p);
        lemma_aa_unfold(q);
        let b_low = ResourceCapabilityArena { level: (l - 1) as u64, ..b };
        assert(n2 == ResourceCapabilityArena { level: (l - 1) as u64, right: Some(Box::new(b_low)), ..t1 });
        let b1 = ResourceCapabilityArena { left: p.right, ..b_low };
        let p1 = ResourceCapabilityArena { right: Some(Box::new(b1)), ..p };
        assert(skew_spec(Some(Box::new(b_low))) == Some(Box::new(p1)));
        match p.right {
            Some(pr) if pr.level + 1 == l => {
                lemma_aa_unfold(*pr);
                let b2 = ResourceCapabilityArena { left: pr.right, ..b1 };
                let pr1 = ResourceCapabilityArena { right: Some(Box::new(b2)), ..*pr };
                assert(skew_spec(Some(Box::new(b1))) == Some(Box::new(pr1)));
                let sr3 = ResourceCapabilityArena { right: Some(Box::new(pr1)), ..p1 };
                let s3 = ResourceCapabilityArena { right: Some(Box::new(sr3)), ..n2 };
                assert(skew_right_spec(n2) == s3);
                let low1 = ResourceCapabilityArena { right: sr3.left, ..s3 };
                let top = ResourceCapabilityArena { left: Some(Box::new(low1)), level: (sr3.level + 1) as u64, ..sr3 };
                assert(split_spec(Some(Box::new(s3))) == Some(Box::new(top)));
                let low2 = ResourceCapabilityArena { right: b2.left, ..pr1 };
                let top2 = ResourceCapabilityArena { left: Some(Box::new(low2)), level: (b2.level + 1) as u64, ..b2 };
                assert(split_spec(Some(Box::new(pr1))) == Some(Box::new(top2)));
                let fin = ResourceCapabilityArena { right: Some(Box::new(top2)), ..top };
                assert(split_right_spec(top) == fin);
                lemma_aa_unfold(low1);
                lemma_aa_unfold(low2);
                lemma_aa_unfold(top2);
                lemma_aa_unfold(fin);
            },
            _ => {
                assert(skew_spec(Some(Box::new(b1))) == Some(Box::new(b1)));
                let s3 = ResourceCapabilityArena { right: Some(Box::new(p1)), ..n2 };
                assert(skew_right_spec(n2) == s3);
                let low1 = ResourceCapabilityArena { right: p1.left, ..s3 };
                let top = ResourceCapabilityArena { left: Some(Box::new(low1)), level: (p1.level + 1) as u64, ..p1 };
                assert(split_spec(Some(Box::new(s3))) == Some(Box::new(top)));
                lemma_aa_unfold(low1);
                lemma_aa_unfold(b1);
                match q.right {
                    Some(qr) if qr.level + 1 == l => {
                        lemma_aa_unfold(*qr);
                        let low2 = ResourceCapabilityArena { right: q.left, ..b1 };
                        let top2 = ResourceCapabilityArena { left: Some(Box::new(low2)), level: (q.level + 1) as u64, ..q };
                        assert(split_spec(Some(Box::new(b1))) == Some(Box::new(top2)));
                        let fin = ResourceCapabilityArena { right: Some(Box::new(top2)), ..top };
                        assert(split_right_spec(top) == fin);
                        lemma_aa_unfold(low2);
                        lemma_aa_unfold(top2);
                        lemma_aa_unfold(fin);
                    },
                    _ => {
                        assert(split_spec(Some(Box::new(b1))) == Some(Box::new(b1)));
                        assert(split_right_spec(top) == top);
                        lemma_aa_unfold(top);
                    },
                }
            },
        }
    }
}

/// One step of deletion on the right: `t1` is `t0` with its right subtree
/// replaced by the result of deleting from it (and possibly a new id).
/// One step of deletion on the right: `t1` is `t0` with its right subtree
/// replaced by the result of deleting from it (and possibly a new id).
proof fn lemma_delete_aa_right(t0: ResourceCapabilityArena, t1: ResourceCapabilityArena)
    requires
        tree_aa(Some(Box::new(t0))),
        t0.level < u64::MAX,
        t1 == (ResourceCapabilityArena { right: t1.right, arenaid: t1.arenaid, ..t0 }),
        tree_aa(t1.right),
        delete_shape(t0.right, t1.right),
    ensures
        tree_aa(Some(Box::new(update_level_spec(t1)))),
        delete_shape(Some(Box::new(t0)), Some(Box::new(update_level_spec(t1)))),
{
    if needs_lowering(t1) {
        lemma_delete_aa_right_lower(t0, t1);
    } else {
        lemma_aa_unfold(t0);
        lemma_aa_unfold(t1);
        if t1.right is Some {
            lemma_aa_unfold(*t1.right.unwrap());
        }
    }
}

/// The right subtree fell two levels below the root: the root drops to the
/// level of its left child, which the skews rotate above it.
#[verifier::rlimit(40)]
proof fn lemma_delete_aa_right_lower(t0: ResourceCapabilityArena, t1: ResourceCapabilityArena)
    requires
        tree_aa(Some(Box::new(t0))),
        t0.level < u64::MAX,
        t1 == (ResourceCapabilityArena { right: t1.right, arenaid: t1.arenaid, ..t0 }),
        tree_aa(t1.right),
        delete_shape(t0.right, t1.right),
        needs_lowering(t1),
    ensures
        tree_aa(Some(Box::new(update_level_spec(t1)))),
        delete_shape(Some(Box::new(t0)), Some(Box::new(update_level_spec(t1)))),
{
    lemma_aa_unfold(t0);
    let l = t0.level;
    assert(link_level(t1.right) + 2 == l);
    assert(link_level(t0.right) + 1 == l);
    let n2 = lower_spec(t1);
    assert(n2 == ResourceCapabilityArena { level: (l - 1) as u64, ..t1 });
    let a = *t0.left.unwrap();
    lemma_aa_unfold(a);
    let n3 = ResourceCapabilityArena { left: a.right, ..n2 };
    let a1 = ResourceCapabilityArena { right: Some(Box::new(n3)), ..a };
    assert(skew_spec(Some(Box::new(n2))) == Some(Box::new(a1)));
    if t1.right is Some {
        lemma_aa_unfold(*t1.right.unwrap());
    }
    match a.right {
        Some(ar) if ar.level + 1 == l => {
            lemma_aa_unfold(*ar);
            let n4 = ResourceCapabilityArena { left: ar.right, ..n3 };
            let ar1 = ResourceCapabilityArena { right: Some(Box::new(n4)), ..*ar };
            assert(skew_spec(Some(Box::new(n3))) == Some(Box::new(ar1)));
            assert(skew_spec(Some(Box::new(n4))) == Some(Box::new(n4)));
            let s3 = ResourceCapabilityArena { right: Some(Box::new(ar1)), ..a1 };
            assert(skew_right_spec(a1) == s3);
            let low = ResourceCapabilityArena { right: ar1.left, ..s3 };
            let top = ResourceCapabilityArena { left: Some(Box::new(low)), level: (ar1.level + 1) as u64, ..ar1 };
            assert(split_spec(Some(Box::new(s3))) == Some(Box::new(top)));
            assert(split_spec(Some(Box::new(n4))) == Some(Box::new(n4)));
            assert(split_right_spec(top) == top);
            assert(update_level_spec(t1) == top);
            lemma_aa_unfold(n4);
            lemma_aa_unfold(low);
            lemma_aa_unfold(top);
        },
        _ => {
            assert(skew_spec(Some(Box::new(n3))) == Some(Box::new(n3)));
            if n3.right is Some {
                assert(skew_spec(n3.right) == n3.right);
            }
            assert(skew_right_spec(a1) == a1);
            assert(split_spec(Some(Box::new(a1))) == Some(Box::new(a1)));
            assert(split_spec(Some(Box::new(n3))) == Some(Box::new(n3)));
            assert(split_right_spec(a1) == a1);
            assert(update_level_spec(t1) == a1);
            lemma_aa_unfold(n3);
            lemma_aa_unfold(a1);
        },
    }
}

/// Rebalancing after a deletion below `t`: when a child has fallen two levels
/// below `t`, `t` is lowered by one (and with it a right child above it),
/// then the tree is skewed and split as the AA tree needs.
#[verifier::rlimit(60)]
fn update_level(t: Box<ResourceCapabilityArena>) -> (r: Box<ResourceCapabilityArena>)
    requires
        t.level >= 1,
        tree_max_level(Some(t)) + 2 <= u64::MAX,
    ensures
        tree_bst(Some(t)) ==> tree_bst(Some(r)) && tree_map(Some(r)) == tree_map(Some(t)),
        tree_max_level(Some(r)) <= tree_max_level(Some(t)) + 2,
        levels_positive(Some(t)) ==> levels_positive(Some(r)),
        *r == update_level_spec(*t),
{
    let mut t = t;
    let left_lvl: u64 = match &t.left {
        None => 0,
        Some(l) => l.level,
    };
    let right_lvl: u64 = match &t.right {
        None => 0,
        Some(rn) => rn.level,
    };
    if !(left_lvl < t.level - 1 || right_lvl < t.level - 1) {
        return t;
    }
    let ghost t0 = *t;
    proof {
        lemma_map_unfold(t0);
    }
    t.level = t.level - 1;
    let lower_right = match &t.right {
        None => false,
        Some(rn) => rn.level > t.level,
    };
    if lower_right {
        let mut rn = t.right.take().unwrap();
        let ghost rn0 = *rn;
        rn.level = t.level;
        proof {
            lemma_map_unfold(rn0);
            lemma_map_unfold(*rn);
            lemma_node_congruence(rn0, *rn);
        }
        t.right = Some(rn);
    }
    let ghost t1 = *t;
    proof {
        lemma_map_unfold(t1);
        lemma_node_congruence(t0, t1);
        assert(tree_max_level(Some(Box::new(t1))) <= tree_max_level(Some(Box::new(t0))));
        assert(levels_positive(Some(Box::new(t0))) ==> levels_positive(Some(Box::new(t1))));
        assert(t1 == lower_spec(t0));
    }
    let mut s = skew(Some(t)).unwrap();
    let ghost sk = *s;
    if s.right.is_some() {
        let ghost s0 = *s;
        let sr = s.right.take();
        let mut sr2 = skew(sr).unwrap();
        if sr2.right.is_some() {
            let ghost q0 = *sr2;
            let srr = sr2.right.take();
            sr2.right = skew(srr);
            proof {
                lemma_map_unfold(q0);
                lemma_map_unfold(*sr2);
                lemma_node_congruence(q0, *sr2);
            }
        }
        s.right = Some(sr2);
        proof {
            lemma_map_unfold(s0);
            lemma_map_unfold(*s);
            lemma_node_congruence(s0, *s);
        }
    }
    let ghost s1 = *s;
    proof {
        lemma_map_unfold(s1);
        assert(s1 == skew_right_spec(sk));
    }
    let mut p = split(Some(s)).unwrap();
    let ghost pk = *p;
    if p.right.is_some() {
        let ghost p0 = *p;
        proof {
            lemma_map_unfold(p0);
        }
        let pr = p.right.take();
        p.right = split(pr);
        proof {
            lemma_map_unfold(*p);
            lemma_node_congruence(p0, *p);
        }
    }
    proof {
        assert(*p == split_right_spec(pk));
    }
    p
}

/// Id of the arena reached by following left links from the root.
pub open spec fn leftmost_key(t: ArenaLink) -> u64
    decreases t,
{
    match t {
        None => 0,
        Some(n) => match n.left {
            None => n.arenaid,
            Some(_) => leftmost_key(n.left),
        },
    }
}

/// The search for `target` ends at an arena that has both children.
pub open spec fn two_children_at(t: ArenaLink, target: u64) -> bool
    decreases t,
{
    match t {
        None => false,
        Some(n) => if target < n.arenaid {
            two_children_at(n.left, target)
        } else if target > n.arenaid {
            two_children_at(n.right, target)
        } else {
            n.left is Some && n.right is Some
        },
    }
}

/// Every arena that `delete_arena` rebalances on its way back up has a level
/// of at least 1: the arenas passed on the search for `target` and, below an
/// arena with two children that holds `target`, those passed on the search
/// for its successor.
pub open spec fn delete_levels_ok(t: ArenaLink, target: u64) -> bool
    decreases t,
{
    match t {
        None => true,
        Some(n) => if target < n.arenaid {
            n.level >= 1 && delete_levels_ok(n.left, target)
        } else if target > n.arenaid {
            n.level >= 1 && delete_levels_ok(n.right, target)
        } else if n.left is None || n.right is None {
            true
        } else {
            n.level >= 1 && delete_levels_ok(n.right, leftmost_key(n.right))
        },
    }
}

/// `s` is the least id in `keys` above `x`.
pub open spec fn is_least_above(keys: Set<u64>, x: u64, s: u64) -> bool {
    &&& keys.contains(s)
    &&& x < s
    &&& forall|k: u64| keys.contains(k) && x < k ==> s <= k
}

/// The least id in `keys` above `x`.
pub open spec fn least_above(keys: Set<u64>, x: u64) -> u64 {
    choose|s: u64| is_least_above(keys, x, s)
}

/// The map view of `delete_arena`'s result on a search tree. When the arena
/// holding `target` has two children, it takes the id of its successor (the
/// least id above `target`) and keeps its own contents, and the successor's
/// arena leaves the tree.
pub open spec fn map_after_delete(t: ArenaLink, target: u64) -> Map<u64, ArenaContents> {
    let m = tree_map(t);
    if !m.dom().contains(target) {
        m
    } else if two_children_at(t, target) {
        m.remove(target).insert(least_above(m.dom(), target), m[target])
    } else {
        m.remove(target)
    }
}

proof fn lemma_least_above_unique(keys: Set<u64>, x: u64, s: u64)
    requires
        is_least_above(keys, x, s),
    ensures
        least_above(keys, x) == s,
{
    let c = least_above(keys, x);
    assert(is_least_above(keys, x, c));
    assert(c <= s && s <= c);
}

/// In a search tree the leftmost id is in the tree, is its least id, and its
/// arena has no left child.
proof fn lemma_leftmost(t: ArenaLink)
    requires
        t is Some,
        tree_bst(t),
    ensures
        tree_map(t).dom().contains(leftmost_key(t)),
        forall|k: u64| tree_map(t).dom().contains(k) ==> leftmost_key(t) <= k,
        !two_children_at(t, leftmost_key(t)),
    decreases t,
{
    let n = t.unwrap();
    lemma_map_unfold(*n);
    if n.left is Some {
        lemma_leftmost(n.left);
        let lk = leftmost_key(n.left);
        assert(lk < n.arenaid);
        assert forall|k: u64| tree_map(t).dom().contains(k) implies leftmost_key(t) <= k by {
            if tree_map(n.right).dom().contains(k) {
                assert(n.arenaid < k);
            }
        }
    }
}

/// Id of the leftmost arena of a non-empty tree.
fn leftmost_id(t: &ArenaLink) -> (s: u64)
    requires
        t is Some,
    ensures
        s == leftmost_key(*t),
{
    let mut current: &Box<ResourceCapabilityArena> = t.as_ref().unwrap();
    loop
        invariant
            leftmost_key(*t) == leftmost_key(Some(*current)),
        decreases tree_height(Some(*current)),
    {
        proof {
            lemma_map_unfold(**current);
        }
        match &current.left {
            None => {
                return current.arenaid;
            },
            Some(l) => {
                current = l;
            },
        }
    }
}

/// The tree `delete_arena` makes of `t`: the search for `target` goes down
/// as in a lookup; the arena with that id is replaced by its only child (or
/// by nothing), or, when it has two children, takes the id of the leftmost
/// arena of its right subtree, which is deleted from there; each arena on
/// the way back up then has its level updated.
pub open spec fn delete_spec(t: ArenaLink, target: u64) -> ArenaLink
    decreases t,
{
    match t {
        None => None,
        Some(n) => if target < n.arenaid {
            Some(Box::new(update_level_spec(ResourceCapabilityArena { left: delete_spec(n.left, target), ..*n })))
        } else if target > n.arenaid {
            Some(Box::new(update_level_spec(ResourceCapabilityArena { right: delete_spec(n.right, target), ..*n })))
        } else if n.left is None {
            n.right
        } else if n.right is None {
            n.left
        } else {
            let succ = leftmost_key(n.right);
            Some(
                Box::new(
                    update_level_spec(
                        ResourceCapabilityArena { arenaid: succ, right: delete_spec(n.right, succ), ..*n },
                    ),
                ),
            )
        },
    }
}

/// Deletes the arena with id `target_id` from the tree rooted at `t` and
/// returns the new root. An arena with one child or none is replaced by that
/// child; one with two children takes its successor's id, and the successor
/// is deleted from its right subtree. Levels are then rebalanced on the way
/// back up.
pub fn delete_arena(t: ArenaLink, target_id: u64) -> (r: ArenaLink)
    requires
        delete_levels_ok(t, target_id),
        tree_max_level(t) + 2 * tree_height(t) < u64::MAX,
    ensures
        r == delete_spec(t, target_id),
        tree_bst(t) ==> tree_bst(r) && tree_map(r) == map_after_delete(t, target_id),
        tree_bst(t) && tree_map(t).dom().contains(target_id) && two_children_at(t, target_id)
            ==> is_least_above(tree_map(t).dom(), target_id, least_above(tree_map(t).dom(), target_id)),
        tree_max_level(r) <= tree_max_level(t) + 2 * tree_height(t),
        levels_positive(t) ==> levels_positive(r),
        tree_aa(t) ==> tree_aa(r) && delete_shape(t, r),
    decreases tree_height(t),
{
    match t {
        None => None,
        Some(mut n) => {
            let ghost n0 = *n;
            proof {
                lemma_map_unfold(n0);
                lemma_aa_unfold(n0);
            }
            if target_id < n.arenaid {
                let l = n.left.take();
                n.left = delete_arena(l, target_id);
                proof {
                    if tree_aa(t) {
                        assert(*n == (ResourceCapabilityArena { left: n.left, ..n0 }));
                        lemma_delete_aa_left(n0, *n);
                    }
                    let m0 = tree_map(t);
                    lemma_map_unfold(*n);
                    if tree_bst(t) {
                        let ml = tree_map(n0.left);
                        assert(!tree_map(n0.right).dom().contains(target_id));
                        assert(m0.dom().contains(target_id) == ml.dom().contains(target_id));
                        assert forall|k: u64| #[trigger] tree_map(n.left).dom().contains(k)
                            implies k < n.arenaid by {
                            assert(ml.dom().contains(k));
                        }
                        if ml.dom().contains(target_id) && two_children_at(n0.left, target_id) {
                            let sl = least_above(ml.dom(), target_id);
                            assert(ml.dom().contains(sl));
                            assert forall|k: u64| m0.dom().contains(k) && target_id < k implies sl
                                <= k by {
                                if !ml.dom().contains(k) {
                                    assert(sl < n0.arenaid);
                                    if tree_map(n0.right).dom().contains(k) {
                                        assert(n0.arenaid < k);
                                    }
                                }
                            }
                            assert(is_least_above(m0.dom(), target_id, sl));
                            lemma_least_above_unique(m0.dom(), target_id, sl);
                        }
                        assert(tree_map(Some(n)) =~= map_after_delete(t, target_id));
                    }
                }
            } else if target_id > n.arenaid {
                let rt = n.right.take();
                n.right = delete_arena(rt, target_id);
                proof {
                    if tree_aa(t) {
                        assert(*n == (ResourceCapabilityArena { right: n.right, arenaid: n.arenaid, ..n0 }));
                        lemma_delete_aa_right(n0, *n);
                    }
                    let m0 = tree_map(t);
                    lemma_map_unfold(*n);
                    if tree_bst(t) {
                        let mr = tree_map(n0.right);
                        assert(!tree_map(n0.left).dom().contains(target_id));
                        assert(m0.dom().contains(target_id) == mr.dom().contains(target_id));
                        assert forall|k: u64| #[trigger] tree_map(n.right).dom().contains(k)
                            implies n.arenaid < k by {
                            assert(mr.dom().contains(k));
                        }
                        if mr.dom().contains(target_id) && two_children_at(n0.right, target_id) {
                            let sr = least_above(mr.dom(), target_id);
                            assert forall|k: u64| m0.dom().contains(k) && target_id < k implies sr
                                <= k by {
                                if tree_map(n0.left).dom().contains(k) {
                                    assert(k < n0.arenaid);
                                }
                            }
                            assert(is_least_above(m0.dom(), target_id, sr));
                            lemma_least_above_unique(m0.dom(), target_id, sr);
                        }
                        assert(tree_map(Some(n)) =~= map_after_delete(t, target_id));
                    }
                }
            } else {
                if n.left.is_none() {
                    proof {
                        if tree_aa(t) && n0.right is Some {
                            lemma_aa_unfold(*n0.right.unwrap());
                        }
                        if tree_bst(t) {
                            assert(!tree_map(n0.right).dom().contains(target_id));
                            assert(tree_map(n0.right) =~= map_after_delete(t, target_id));
                        }
                    }
                    return n.right.take();
                } else if n.right.is_none() {
                    proof {
                        if tree_bst(t) {
                            assert(!tree_map(n0.left).dom().contains(target_id));
                            assert(tree_map(n0.left) =~= map_after_delete(t, target_id));
                        }
                    }
                    return n.left.take();
                } else {
                    let succ = leftmost_id(&n.right);
                    n.arenaid = succ;
                    let rt = n.right.take();
                    n.right = delete_arena(rt, succ);
                    proof {
                        if tree_aa(t) {
                            assert(*n == (ResourceCapabilityArena { right: n.right, arenaid: n.arenaid, ..n0 }));
                            lemma_delete_aa_right(n0, *n);
                        }
                        let m0 = tree_map(t);
                        lemma_map_unfold(*n);
                        if tree_bst(t) {
                            let mr = tree_map(n0.right);
                            let ml = tree_map(n0.left);
                            lemma_leftmost(n0.right);
                            assert(tree_map(n.right) == mr.remove(succ));
                            assert(!mr.dom().contains(target_id));
                            assert(!ml.dom().contains(target_id));
                            assert(target_id < succ);
                            assert forall|k: u64| #[trigger] tree_map(n.left).dom().contains(k)
                                implies k < n.arenaid by {
                                assert(k < target_id);
                            }
                            assert forall|k: u64| #[trigger] tree_map(n.right).dom().contains(k)
                                implies n.arenaid < k by {
                                assert(mr.dom().contains(k));
                            }
                            assert forall|k: u64| m0.dom().contains(k) && target_id < k implies succ
                                <= k by {
                                if ml.dom().contains(k) {
                                    assert(k < target_id);
                                }
                            }
                            assert(is_least_above(m0.dom(), target_id, succ));
                            lemma_least_above_unique(m0.dom(), target_id, succ);
                            assert(!ml.dom().contains(succ));
                            assert(tree_map(Some(n)) =~= map_after_delete(t, target_id));
                        }
                    }
                }
            }
            proof {
                lemma_map_unfold(*n);
                assert(tree_max_level(Some(n)) <= tree_max_level(t) + 2 * tree_height(t) - 2);
            }
            Some(update_level(n))
        },
    }
}

/// Reading after a write: once an arena with a fresh id is inserted, the
/// tree holds that id with exactly the inserted contents, and every other id
/// keeps its contents. Inserting an id already present changes nothing.
pub proof fn law_lookup_after_insert(root: ArenaLink, node: ResourceCapabilityArena)
    ensures
        ({
            let m = tree_map(root);
            let m2 = map_after_insert(m, node.arenaid, node.contents());
            &&& m2.dom() == m.dom().insert(node.arenaid)
            &&& !m.dom().contains(node.arenaid) ==> m2[node.arenaid] == node.contents()
            &&& m.dom().contains(node.arenaid) ==> m2 == m
            &&& forall|k: u64| #[trigger]
                m.dom().contains(k) && k != node.arenaid ==> m2[k] == m[k]
        }),
{
    let m = tree_map(root);
    let m2 = map_after_insert(m, node.arenaid, node.contents());
    assert(m2.dom() =~= m.dom().insert(node.arenaid));
}

/// Deleting an id removes exactly that id from the tree: no other id comes
/// or goes, and a lookup of the deleted id then finds nothing.
pub proof fn law_delete_removes_key(t: ArenaLink, target: u64)
    requires
        tree_bst(t),
    ensures
        map_after_delete(t, target).dom() == tree_map(t).dom().remove(target),
{
    let m = tree_map(t);
    if m.dom().contains(target) && two_children_at(t, target) {
        lemma_two_children_has_successor(t, target);
        let s = least_above(m.dom(), target);
        assert(m.dom().contains(s));
    }
    assert(map_after_delete(t, target).dom() =~= m.dom().remove(target));
}

/// On a search tree, when the search for `target` ends at an arena with two
/// children, some id lies above `target`.
proof fn lemma_two_children_has_successor(t: ArenaLink, target: u64)
    requires
        tree_bst(t),
        tree_map(t).dom().contains(target),
        two_children_at(t, target),
    ensures
        is_least_above(tree_map(t).dom(), target, least_above(tree_map(t).dom(), target)),
    decreases t,
{
    let n = t.unwrap();
    lemma_map_unfold(*n);
    let m = tree_map(t);
    if target < n.arenaid {
        assert(!tree_map(n.right).dom().contains(target));
        lemma_two_children_has_successor(n.left, target);
        let s = least_above(tree_map(n.left).dom(), target);
        assert(s < n.arenaid);
        assert forall|k: u64| m.dom().contains(k) && target < k implies s <= k by {
            if tree_map(n.right).dom().contains(k) {
                assert(n.arenaid < k);
            }
        }
        lemma_least_above_unique(m.dom(), target, s);
    } else if target > n.arenaid {
        assert(!tree_map(n.left).dom().contains(target));
        lemma_two_children_has_successor(n.right, target);
        let s = least_above(tree_map(n.right).dom(), target);
        assert forall|k: u64| m.dom().contains(k) && target < k implies s <= k by {
            if tree_map(n.left).dom().contains(k) {
                assert(k < n.arenaid);
            }
        }
        lemma_least_above_unique(m.dom(), target, s);
    } else {
        lemma_leftmost(n.right);
        let s = leftmost_key(n.right);
        assert forall|k: u64| m.dom().contains(k) && target < k implies s <= k by {
            if tree_map(n.left).dom().contains(k) {
                assert(k < n.arenaid);
            }
        }
        lemma_least_above_unique(m.dom(), target, s);
    }
}

/// Deleting an id leaves every other arena's contents as they were, except
/// the successor's id when the deleted arena had two children: that id then
/// holds the deleted arena's contents.
pub proof fn law_delete_keeps_others(t: ArenaLink, target: u64)
    requires
        tree_bst(t),
    ensures
        ({
            let m = tree_map(t);
            let m2 = map_after_delete(t, target);
            forall|k: u64| #[trigger]
                m2.dom().contains(k) && !(m.dom().contains(target) && two_children_at(t, target)
                    && k == least_above(m.dom(), target)) ==> m2[k] == m[k]
        }),
{
}

/// Inserting an arena with a fresh id and then deleting that id gives back
/// the tree's map, when the inserted arena does not have two children at the
/// time of the deletion.
pub proof fn law_insert_then_delete(root: ArenaLink, node: ResourceCapabilityArena, after: ArenaLink)
    requires
        tree_bst(root),
        !tree_map(root).dom().contains(node.arenaid),
        tree_map(after) == map_after_insert(tree_map(root), node.arenaid, node.contents()),
        !two_children_at(after, node.arenaid),
    ensures
        map_after_delete(after, node.arenaid) == tree_map(root),
{
    assert(map_after_delete(after, node.arenaid) =~= tree_map(root));
}

/// An AA tree is balanced: its height is at most twice its root level.
pub proof fn law_aa_height(t: ArenaLink)
    requires
        tree_aa(t),
    ensures
        tree_height(t) <= 2 * link_level(t),
    decreases t,
{
    if let Some(n) = t {
        lemma_aa_unfold(*n);
        lemma_map_unfold(*n);
        law_aa_height(n.left);
        law_aa_height(n.right);
        if let Some(r) = n.right {
            lemma_aa_unfold(*r);
            lemma_map_unfold(*r);
            law_aa_height(r.left);
            law_aa_height(r.right);
        }
    }
}

/// Every arena of an AA tree has a level of at least 1, so a deletion from
/// it never lowers an arena below level 1.
pub proof fn law_aa_levels_positive(t: ArenaLink, target: u64)
    requires
        tree_aa(t),
    ensures
        levels_positive(t),
        delete_levels_ok(t, target),
    decreases t,
{
    if let Some(n) = t {
        lemma_aa_unfold(*n);
        law_aa_levels_positive(n.left, target);
        law_aa_levels_positive(n.right, target);
        if n.right is Some {
            law_aa_levels_positive(n.right, leftmost_key(n.right));
        }
    }
}

} // verus!
