//! The flattened instance tree: nodes owning their children, each node keeping
//! the chain of ancestor identifiers (nearest first) as its upward parent link.

use vstd::prelude::*;
use vstd::string::StringExecFns;

verus! {

broadcast use vstd::std_specs::vec::group_vec_axioms, vstd::seq::axiom_seq_index_decreases;

/// A root-to-leaf instantiation path, joined with `/` and ending in `/`.
pub type InstPath = String;

/// A node of the instance tree.
///
/// `children` owns the subtrees, one per instantiation declared in this
/// node's body; a child's instance name is its `identifier`. `parent` is the
/// non-owning upward link: the identifiers of the ancestors, nearest first,
/// empty at a root.
pub struct InstanceNode {
    pub identifier: String,
    pub children: Vec<InstanceNode>,
    pub parent: Vec<String>,
}

/// The structure of a subtree: identifiers and children, without the upward
/// parent chains.
#[verifier::ext_equal]
pub struct Shape {
    pub identifier: Seq<char>,
    pub children: Seq<Shape>,
}

pub open spec fn shape(n: InstanceNode) -> Shape
    decreases n,
{
    Shape { identifier: n.identifier@, children: shapes_of(n.children@) }
}

pub open spec fn shapes_of(cs: Seq<InstanceNode>) -> Seq<Shape>
    decreases cs,
{
    if cs.len() == 0 {
        Seq::empty()
    } else {
        shapes_of(cs.drop_last()).push(shape(cs.last()))
    }
}

pub proof fn lemma_shapes_of(cs: Seq<InstanceNode>)
    ensures
        shapes_of(cs).len() == cs.len(),
        forall|i: int| 0 <= i < cs.len() ==> shapes_of(cs)[i] == shape(#[trigger] cs[i]),
    decreases cs.len(),
{
    if cs.len() > 0 {
        lemma_shapes_of(cs.drop_last());
        assert forall|i: int| 0 <= i < cs.len() implies shapes_of(cs)[i] == shape(#[trigger] cs[i]) by {
            if i < cs.len() - 1 {
                assert(cs.drop_last()[i] == cs[i]);
            } else {
                assert(cs[i] == cs.last());
            }
        }
    }
}

/// The ancestor chain a node stores, nearest ancestor first.
pub open spec fn chain(n: InstanceNode) -> Seq<Seq<char>> {
    n.parent.deep_view()
}

/// Every node of the subtree rooted at `n` stores the ancestor chain that its
/// position dictates: a child's chain is its parent's identifier followed by
/// the parent's own chain.
pub open spec fn chains_ok(n: InstanceNode) -> bool
    decreases n,
{
    children_chains_ok(n.identifier@, chain(n), n.children@)
}

pub open spec fn children_chains_ok(id: Seq<char>, ch: Seq<Seq<char>>, cs: Seq<InstanceNode>) -> bool
    decreases cs,
{
    if cs.len() == 0 {
        true
    } else {
        &&& children_chains_ok(id, ch, cs.drop_last())
        &&& chain(cs.last()) == seq![id] + ch
        &&& chains_ok(cs.last())
    }
}

pub proof fn lemma_children_chains_ok(id: Seq<char>, ch: Seq<Seq<char>>, cs: Seq<InstanceNode>)
    ensures
        children_chains_ok(id, ch, cs) <==> (forall|i: int|
            0 <= i < cs.len() ==> chain(#[trigger] cs[i]) == seq![id] + ch && chains_ok(cs[i])),
    decreases cs.len(),
{
    if cs.len() > 0 {
        lemma_children_chains_ok(id, ch, cs.drop_last());
        let pre = cs.drop_last();
        assert(pre.len() == cs.len() - 1);
        assert(cs[cs.len() - 1] == cs.last());
        if children_chains_ok(id, ch, cs) {
            assert forall|i: int|
                0 <= i < cs.len() implies chain(#[trigger] cs[i]) == seq![id] + ch && chains_ok(
                cs[i],
            ) by {
                if i < cs.len() - 1 {
                    assert(pre[i] == cs[i]);
                } else {
                    assert(cs[i] == cs.last());
                }
            }
        }
        if forall|i: int|
            0 <= i < cs.len() ==> chain(#[trigger] cs[i]) == seq![id] + ch && chains_ok(cs[i]) {
            assert forall|i: int|
                0 <= i < pre.len() implies chain(#[trigger] pre[i]) == seq![id] + ch && chains_ok(
                pre[i],
            ) by {
                assert(pre[i] == cs[i]);
            }
            assert(chain(cs.last()) == seq![id] + ch && chains_ok(cs.last()));
            assert(children_chains_ok(id, ch, cs));
        }
    }
}

impl InstanceNode {
    /// Makes an independent copy of this subtree: same structure, same
    /// identifiers, same stored ancestor chains, sharing no node with the
    /// original.
    pub fn deep_copy(&self) -> (r: Self)
        ensures
            shape(r) == shape(*self),
            r.identifier@ == self.identifier@,
            chain(r) == chain(*self),
            chains_ok(*self) ==> chains_ok(r),
        decreases shape(*self),
    {
        let mut copied: Vec<InstanceNode> = Vec::new();
        let mut k: usize = 0;
        while k < self.children.len()
            invariant
                k <= self.children.len(),
                copied@.len() == k,
                forall|i: int| 0 <= i < k ==> shape(#[trigger] copied@[i]) == shape(self.children@[i]),
                forall|i: int| 0 <= i < k ==> chain(#[trigger] copied@[i]) == chain(self.children@[i]),
                forall|i: int|
                    0 <= i < k ==> (chains_ok(self.children@[i]) ==> chains_ok(#[trigger] copied@[i])),
            decreases self.children.len() - k,
        {
            proof {
                lemma_shapes_of(self.children@);
                assert(shape(self.children@[k as int]) == shape(*self).children[k as int]);
                assert(decreases_to!(shape(*self) => shape(self.children@[k as int])));
            }
            let c = self.children[k].deep_copy();
            copied.push(c);
            k = k + 1;
        }
        let r = InstanceNode {
            identifier: self.identifier.clone(),
            children: copied,
            parent: clone_names(&self.parent),
        };
        proof {
            lemma_shapes_of(r.children@);
            lemma_shapes_of(self.children@);
            assert forall|i: int|
                0 <= i < self.children@.len() implies shapes_of(r.children@)[i] == shapes_of(
                self.children@,
            )[i] by {
                assert(shape(r.children@[i]) == shape(self.children@[i]));
            }
            assert(shapes_of(r.children@) =~= shapes_of(self.children@));
            assert(shape(r) =~= shape(*self));
            if chains_ok(*self) {
                lemma_children_chains_ok(self.identifier@, chain(*self), self.children@);
                lemma_children_chains_ok(r.identifier@, chain(r), r.children@);
            }
        }
        r
    }
}

impl InstanceNode {
    /// The chain that a child of this node must store: this node's identifier,
    /// then this node's own chain.
    pub fn child_chain(&self) -> (r: Vec<String>)
        ensures
            r.deep_view() == seq![self.identifier@] + chain(*self),
    {
        let mut r: Vec<String> = Vec::new();
        r.push(self.identifier.clone());
        let mut rest = clone_names(&self.parent);
        r.append(&mut rest);
        proof {
            assert(r.deep_view() =~= seq![self.identifier@] + chain(*self));
        }
        r
    }

    /// Rewrites the stored ancestor chains of every node below this one so
    /// that they agree with this node's identifier and chain. Called after a
    /// subtree is renamed or attached at a new position; the structure is left
    /// untouched.
    pub fn change_child_parent(&mut self)
        ensures
            shape(*final(self)) == shape(*old(self)),
            final(self).identifier@ == old(self).identifier@,
            chain(*final(self)) == chain(*old(self)),
            chains_ok(*final(self)),
        decreases shape(*old(self)),
    {
        let mut k: usize = 0;
        while k < self.children.len()
            invariant
                k <= self.children@.len(),
                self.identifier@ == old(self).identifier@,
                chain(*self) == chain(*old(self)),
                self.children@.len() == old(self).children@.len(),
                forall|i: int|
                    k <= i < self.children@.len() ==> #[trigger] self.children@[i] == old(
                        self,
                    ).children@[i],
                forall|i: int|
                    0 <= i < k ==> shape(#[trigger] self.children@[i]) == shape(
                        old(self).children@[i],
                    ),
                forall|i: int|
                    0 <= i < k ==> chain(#[trigger] self.children@[i]) == seq![self.identifier@]
                        + chain(*self) && chains_ok(self.children@[i]),
            decreases self.children@.len() - k,
        {
            let ghost before = self.children@;
            let mut child = self.children.remove(k);
            let new_parent = self.child_chain();
            child.parent = new_parent;
            proof {
                lemma_shapes_of(old(self).children@);
                assert(shape(child) =~= shape(old(self).children@[k as int]));
                assert(shape(child) == shape(*old(self)).children[k as int]);
                assert(decreases_to!(shape(*old(self)) => shape(child)));
            }
            child.change_child_parent();
            let ghost childg = child;
            self.children.insert(k, child);
            proof {
                assert(self.children@ =~= before.update(k as int, childg));
            }
            k = k + 1;
        }
        proof {
            lemma_shapes_of(self.children@);
            lemma_shapes_of(old(self).children@);
            assert forall|i: int|
                0 <= i < self.children@.len() implies shapes_of(self.children@)[i] == shapes_of(
                old(self).children@,
            )[i] by {
                assert(shape(self.children@[i]) == shape(old(self).children@[i]));
            }
            assert(shapes_of(self.children@) =~= shapes_of(old(self).children@));
            assert(shape(*self) =~= shape(*old(self)));
            lemma_children_chains_ok(self.identifier@, chain(*self), self.children@);
        }
    }

    /// The position of the child named `id`, or the child count when no child
    /// has that name.
    pub fn find_child(&self, id: &String) -> (r: usize)
        ensures
            r <= self.children@.len(),
            r < self.children@.len() ==> self.children@[r as int].identifier@ == id@,
            forall|i: int|
                0 <= i < r ==> (#[trigger] self.children@[i]).identifier@ != id@,
    {
        let mut j: usize = 0;
        while j < self.children.len()
            invariant
                j <= self.children@.len(),
                forall|i: int|
                    0 <= i < j ==> (#[trigger] self.children@[i]).identifier@ != id@,
            decreases self.children@.len() - j,
        {
            if self.children[j].identifier == *id {
                return j;
            }
            j = j + 1;
        }
        j
    }

    /// Attaches `node` as a child: it replaces the child that already carries
    /// its instance name, if any, and is appended otherwise.
    pub fn add_child(&mut self, node: InstanceNode)
        requires
            chain(node) == seq![old(self).identifier@] + chain(*old(self)),
            chains_ok(node),
            chains_ok(*old(self)),
        ensures
            final(self).identifier@ == old(self).identifier@,
            chain(*final(self)) == chain(*old(self)),
            shape(*final(self)) == attach_shape(shape(*old(self)), shape(node)),
            chains_ok(*final(self)),
    {
        proof {
            lemma_shapes_of(self.children@);
            lemma_child_index_of(shape(*old(self)).children, node.identifier@);
            lemma_children_chains_ok(self.identifier@, chain(*self), self.children@);
        }
        let ghost j = child_index_of(shape(*old(self)).children, shape(node).identifier);
        let idx = self.find_child(&node.identifier);
        let ghost nodeg = node;
        if idx < self.children.len() {
            proof {
                assert(shapes_of(old(self).children@)[idx as int] == shape(
                    old(self).children@[idx as int],
                ));
                assert(shape(*old(self)).children[idx as int].identifier == node.identifier@);
                if j < idx as int {
                    assert(shapes_of(old(self).children@)[j] == shape(old(self).children@[j]));
                    assert(old(self).children@[j].identifier@ != node.identifier@);
                    assert(false);
                }
                if j > idx as int || j == -1 {
                    assert(shape(*old(self)).children[idx as int].identifier != node.identifier@);
                    assert(false);
                }
                assert(j == idx as int);
            }
            self.children.remove(idx);
            self.children.insert(idx, node);
            proof {
                assert(self.children@ =~= old(self).children@.update(idx as int, nodeg));
            }
        } else {
            proof {
                assert forall|i: int|
                    0 <= i < shape(*old(self)).children.len() implies (#[trigger] shape(
                    *old(self),
                ).children[i]).identifier != node.identifier@ by {
                    assert(old(self).children@[i].identifier@ != node.identifier@);
                }
                assert(j == -1);
            }
            self.children.push(node);
        }
        proof {
            lemma_shapes_of(self.children@);
            if j == -1 {
                assert(self.children@ == old(self).children@.push(nodeg));
                assert forall|i: int|
                    0 <= i < self.children@.len() implies shapes_of(self.children@)[i] == shape(
                    *old(self),
                ).children.push(shape(nodeg))[i] by {
                    if i < self.children@.len() - 1 {
                        assert(self.children@[i] == old(self).children@[i]);
                        assert(shapes_of(old(self).children@)[i] == shape(old(self).children@[i]));
                    } else {
                        assert(self.children@[i] == nodeg);
                    }
                }
                assert(shapes_of(self.children@) =~= shape(*old(self)).children.push(shape(nodeg)));
            } else {
                assert forall|i: int|
                    0 <= i < self.children@.len() implies shapes_of(self.children@)[i] == shape(
                    *old(self),
                ).children.update(j, shape(nodeg))[i] by {
                    assert(shapes_of(self.children@)[i] == shape(self.children@[i]));
                    if i != j {
                        assert(self.children@[i] == old(self).children@[i]);
                        assert(shapes_of(old(self).children@)[i] == shape(old(self).children@[i]));
                    } else {
                        assert(self.children@[i] == nodeg);
                    }
                }
                assert(shapes_of(self.children@) =~= shape(*old(self)).children.update(
                    j,
                    shape(nodeg),
                ));
            }
            assert(shape(*self) =~= attach_shape(shape(*old(self)), shape(nodeg)));
            assert forall|i: int|
                0 <= i < self.children@.len() implies chain(#[trigger] self.children@[i])
                    == seq![self.identifier@] + chain(*self) && chains_ok(self.children@[i]) by {
                if j != -1 && i == j || j == -1 && i == self.children@.len() - 1 {
                    assert(self.children@[i] == nodeg);
                } else {
                    assert(self.children@[i] == old(self).children@[i]);
                }
            }
            lemma_children_chains_ok(self.identifier@, chain(*self), self.children@);
        }
    }
}

/// The position of the first subtree in `cs` whose root identifier is `id`,
/// or -1 when there is none.
pub open spec fn child_index_of(cs: Seq<Shape>, id: Seq<char>) -> int
    decreases cs.len(),
{
    if cs.len() == 0 {
        -1
    } else if cs[0].identifier == id {
        0
    } else {
        let r = child_index_of(cs.drop_first(), id);
        if r == -1 {
            -1
        } else {
            r + 1
        }
    }
}

pub proof fn lemma_child_index_of(cs: Seq<Shape>, id: Seq<char>)
    ensures
        ({
            let j = child_index_of(cs, id);
            &&& (j == -1 <==> forall|i: int|
                0 <= i < cs.len() ==> (#[trigger] cs[i]).identifier != id)
            &&& (j != -1 ==> 0 <= j < cs.len() && cs[j].identifier == id)
            &&& (j != -1 ==> forall|i: int| 0 <= i < j ==> (#[trigger] cs[i]).identifier != id)
        }),
    decreases cs.len(),
{
    if cs.len() > 0 && cs[0].identifier != id {
        lemma_child_index_of(cs.drop_first(), id);
        let rest = cs.drop_first();
        assert forall|i: int| 0 <= i < rest.len() implies #[trigger] rest[i] == cs[i + 1] by {}
        let r = child_index_of(rest, id);
        if r == -1 {
            assert forall|i: int|
                0 <= i < cs.len() implies (#[trigger] cs[i]).identifier != id by {
                if i > 0 {
                    assert(rest[i - 1] == cs[i]);
                }
            }
        } else {
            assert(cs[r + 1] == rest[r]);
            assert forall|i: int| 0 <= i < r + 1 implies (#[trigger] cs[i]).identifier != id by {
                if i > 0 {
                    assert(rest[i - 1] == cs[i]);
                }
            }
        }
    }
}

/// Attaching a subtree to a parent: the child carrying the same instance name
/// is replaced, and a new name is appended.
pub open spec fn attach_shape(p: Shape, c: Shape) -> Shape {
    let j = child_index_of(p.children, c.identifier);
    Shape {
        identifier: p.identifier,
        children: if j == -1 {
            p.children.push(c)
        } else {
            p.children.update(j, c)
        },
    }
}

/// After an attach, the attached subtree itself stands among the parent's
/// children, exactly as given: same root identifier, same descendants.
pub proof fn lemma_attach_attaches(p: Shape, c: Shape)
    ensures
        ({
            let r = attach_shape(p, c);
            exists|k: int| 0 <= k < r.children.len() && #[trigger] r.children[k] == c
        }),
{
    lemma_child_index_of(p.children, c.identifier);
    let j = child_index_of(p.children, c.identifier);
    let r = attach_shape(p, c);
    if j == -1 {
        assert(r.children[r.children.len() - 1] == c);
    } else {
        assert(r.children[j] == c);
    }
}

/// Attaching a subtree alters no other use site: the subtree under every
/// instance name other than the attached one is exactly what it was. Two
/// sites therefore never share structure, and a change at one site is not
/// observable at another.
pub proof fn lemma_attach_preserves_others(p: Shape, c: Shape, k: int)
    requires
        0 <= k < p.children.len(),
        p.children[k].identifier != c.identifier,
    ensures
        ({
            let r = attach_shape(p, c);
            &&& 0 <= k < r.children.len()
            &&& r.children[k] == p.children[k]
        }),
{
    lemma_child_index_of(p.children, c.identifier);
    let j = child_index_of(p.children, c.identifier);
    if j != -1 {
        assert(p.children[j].identifier == c.identifier);
        assert(j != k);
    }
}

/// The ancestor part of a path: the identifiers of `ch` (stored nearest
/// first) rendered root first, each followed by the separator.
pub open spec fn chain_prefix(ch: Seq<Seq<char>>) -> Seq<char>
    decreases ch.len(),
{
    if ch.len() == 0 {
        Seq::empty()
    } else {
        chain_prefix(ch.drop_first()) + ch.first() + seq!['/']
    }
}

/// The paths of all leaves of the subtree `s`, in child order, each starting
/// with `prefix` (the rendered path of the subtree's ancestors).
pub open spec fn leaf_paths_of(s: Shape, prefix: Seq<char>) -> Seq<Seq<char>>
    decreases s, 0int,
{
    if s.children.len() == 0 {
        seq![prefix + s.identifier + seq!['/']]
    } else {
        forest_leaf_paths(s.children, 0, prefix + s.identifier + seq!['/'])
    }
}

pub open spec fn forest_leaf_paths(cs: Seq<Shape>, i: int, prefix: Seq<char>) -> Seq<Seq<char>>
    decreases cs, cs.len() - i,
{
    if i < 0 || i >= cs.len() {
        Seq::empty()
    } else {
        leaf_paths_of(cs[i], prefix) + forest_leaf_paths(cs, i + 1, prefix)
    }
}

/// Whether `ids` is the identifier sequence of a root-to-leaf walk in `s`:
/// it starts at the root, steps to a child at every inner node, and ends at a
/// node with no children.
pub open spec fn is_leaf_walk(s: Shape, ids: Seq<Seq<char>>) -> bool
    decreases s, 0int,
{
    if s.children.len() == 0 {
        ids == seq![s.identifier]
    } else {
        &&& ids.len() >= 1
        &&& ids.first() == s.identifier
        &&& exists|j: int|
            0 <= j < s.children.len() && is_leaf_walk(#[trigger] s.children[j], ids.drop_first())
    }
}

/// The path text of an identifier sequence: each identifier in order, each
/// followed by the separator.
pub open spec fn joined(ids: Seq<Seq<char>>) -> Seq<char>
    decreases ids.len(),
{
    if ids.len() == 0 {
        Seq::empty()
    } else {
        ids.first() + seq!['/'] + joined(ids.drop_first())
    }
}

proof fn lemma_concat_contains<A>(a: Seq<A>, b: Seq<A>, x: A)
    ensures
        (a + b).contains(x) <==> a.contains(x) || b.contains(x),
{
    if a.contains(x) {
        let i = choose|i: int| 0 <= i < a.len() && a[i] == x;
        assert((a + b)[i] == x);
    }
    if b.contains(x) {
        let i = choose|i: int| 0 <= i < b.len() && b[i] == x;
        assert((a + b)[a.len() + i] == x);
    }
    if (a + b).contains(x) {
        let i = choose|i: int| 0 <= i < (a + b).len() && (a + b)[i] == x;
        if i < a.len() {
            assert(a[i] == x);
        } else {
            assert(b[i - a.len()] == x);
        }
    }
}

/// The emitted paths are exactly the leaves: a path is produced for a
/// position if and only if it is the end of a root-to-leaf walk, and the path
/// text is the walk's identifier sequence, joined with the separator after
/// each identifier. Nodes with children contribute no path of their own, and
/// no leaf is missed.
pub proof fn lemma_leaf_paths_exact(s: Shape, prefix: Seq<char>, p: Seq<char>)
    ensures
        leaf_paths_of(s, prefix).contains(p) <==> exists|ids: Seq<Seq<char>>|
            #[trigger] is_leaf_walk(s, ids) && p == prefix + joined(ids),
    decreases s, 0int,
{
    let own = seq![s.identifier];
    assert(own.drop_first() =~= Seq::<Seq<char>>::empty());
    if s.children.len() == 0 {
        assert(joined(own.drop_first()) == Seq::<char>::empty());
        assert(joined(own) =~= s.identifier + seq!['/']);
        if leaf_paths_of(s, prefix).contains(p) {
            assert(p == leaf_paths_of(s, prefix)[0]);
            assert(p =~= prefix + joined(own));
            assert(is_leaf_walk(s, own));
        }
        if exists|ids: Seq<Seq<char>>| #[trigger] is_leaf_walk(s, ids) && p == prefix + joined(
            ids,
        ) {
            let ids = choose|ids: Seq<Seq<char>>|
                #[trigger] is_leaf_walk(s, ids) && p == prefix + joined(ids);
            assert(p =~= prefix + s.identifier + seq!['/']);
            assert(leaf_paths_of(s, prefix)[0] == p);
        }
    } else {
        let cpre = prefix + s.identifier + seq!['/'];
        lemma_forest_leaf_paths_exact(s.children, 0, cpre, p);
        if leaf_paths_of(s, prefix).contains(p) {
            let (j, rest) = choose|j: int, rest: Seq<Seq<char>>|
                0 <= j < s.children.len() && #[trigger] is_leaf_walk(s.children[j], rest) && p
                    == cpre + joined(rest);
            let ids = seq![s.identifier] + rest;
            assert(ids.drop_first() =~= rest);
            assert(is_leaf_walk(s, ids));
            assert(joined(ids) == s.identifier + seq!['/'] + joined(rest));
            assert(p =~= prefix + joined(ids));
        }
        if exists|ids: Seq<Seq<char>>| #[trigger] is_leaf_walk(s, ids) && p == prefix + joined(
            ids,
        ) {
            let ids = choose|ids: Seq<Seq<char>>|
                #[trigger] is_leaf_walk(s, ids) && p == prefix + joined(ids);
            let j = choose|j: int|
                0 <= j < s.children.len() && is_leaf_walk(
                    #[trigger] s.children[j],
                    ids.drop_first(),
                );
            assert(joined(ids) == ids.first() + seq!['/'] + joined(ids.drop_first()));
            assert(p =~= cpre + joined(ids.drop_first()));
            assert(forest_leaf_paths(s.children, 0, cpre).contains(p));
        }
    }
}

pub proof fn lemma_forest_leaf_paths_exact(cs: Seq<Shape>, i: int, prefix: Seq<char>, p: Seq<char>)
    requires
        0 <= i,
    ensures
        forest_leaf_paths(cs, i, prefix).contains(p) <==> exists|j: int, ids: Seq<Seq<char>>|
            i <= j < cs.len() && #[trigger] is_leaf_walk(cs[j], ids) && p == prefix + joined(ids),
    decreases cs, cs.len() - i,
{
    if 0 <= i < cs.len() {
        lemma_leaf_paths_exact(cs[i], prefix, p);
        lemma_forest_leaf_paths_exact(cs, i + 1, prefix, p);
        lemma_concat_contains(
            leaf_paths_of(cs[i], prefix),
            forest_leaf_paths(cs, i + 1, prefix),
            p,
        );
        if forest_leaf_paths(cs, i, prefix).contains(p) {
            if leaf_paths_of(cs[i], prefix).contains(p) {
                let ids = choose|ids: Seq<Seq<char>>|
                    #[trigger] is_leaf_walk(cs[i], ids) && p == prefix + joined(ids);
                assert(i <= i < cs.len() && is_leaf_walk(cs[i], ids) && p == prefix + joined(ids));
            }
        }
        if exists|j: int, ids: Seq<Seq<char>>|
            i <= j < cs.len() && #[trigger] is_leaf_walk(cs[j], ids) && p == prefix + joined(
                ids,
            ) {
            let (j, ids) = choose|j: int, ids: Seq<Seq<char>>|
                i <= j < cs.len() && #[trigger] is_leaf_walk(cs[j], ids) && p == prefix + joined(
                    ids,
                );
            if j == i {
                assert(leaf_paths_of(cs[i], prefix).contains(p));
            } else {
                assert(i + 1 <= j < cs.len() && is_leaf_walk(cs[j], ids) && p == prefix + joined(
                    ids,
                ));
            }
        }
    }
}

/// When no identifier contains the separator, a path determines its
/// identifier sequence: joining is injective, so splitting an emitted path at
/// the separators and reading left to right reproduces exactly the walk from
/// the top module down to the leaf.
pub proof fn lemma_joined_injective(ids1: Seq<Seq<char>>, ids2: Seq<Seq<char>>)
    requires
        forall|i: int| 0 <= i < ids1.len() ==> !(#[trigger] ids1[i]).contains('/'),
        forall|i: int| 0 <= i < ids2.len() ==> !(#[trigger] ids2[i]).contains('/'),
        joined(ids1) == joined(ids2),
    ensures
        ids1 == ids2,
    decreases ids1.len(),
{
    if ids1.len() == 0 && ids2.len() == 0 {
        assert(ids1 =~= ids2);
    } else if ids1.len() == 0 {
        assert(joined(ids2).len() >= 1);
        assert(false);
    } else if ids2.len() == 0 {
        assert(joined(ids1).len() >= 1);
        assert(false);
    } else {
        let a = ids1.first();
        let b = ids2.first();
        let t1 = joined(ids1.drop_first());
        let t2 = joined(ids2.drop_first());
        let s = joined(ids1);
        assert(s == a + seq!['/'] + t1);
        assert(s == b + seq!['/'] + t2);
        assert(s[a.len() as int] == '/');
        assert(s[b.len() as int] == '/');
        if a.len() < b.len() {
            assert(b[a.len() as int] == s[a.len() as int]);
            assert(b.contains('/'));
            assert(false);
        }
        if b.len() < a.len() {
            assert(a[b.len() as int] == s[b.len() as int]);
            assert(a.contains('/'));
            assert(false);
        }
        assert forall|i: int| 0 <= i < a.len() implies a[i] == b[i] by {
            assert(a[i] == s[i]);
            assert(b[i] == s[i]);
        }
        assert(a =~= b);
        assert forall|j: int| 0 <= j < t1.len() implies t1[j] == s[a.len() + 1 + j] by {}
        assert forall|j: int| 0 <= j < t2.len() implies t2[j] == s[b.len() + 1 + j] by {}
        assert(t1.len() == t2.len());
        assert(t1 =~= t2);
        assert forall|i: int|
            0 <= i < ids1.drop_first().len() implies !(#[trigger] ids1.drop_first()[i]).contains(
            '/',
        ) by {
            assert(ids1.drop_first()[i] == ids1[i + 1]);
        }
        assert forall|i: int|
            0 <= i < ids2.drop_first().len() implies !(#[trigger] ids2.drop_first()[i]).contains(
            '/',
        ) by {
            assert(ids2.drop_first()[i] == ids2[i + 1]);
        }
        lemma_joined_injective(ids1.drop_first(), ids2.drop_first());
        assert forall|i: int| 0 <= i < ids1.len() implies ids1[i] == ids2[i] by {
            if i > 0 {
                assert(ids1.drop_first()[i - 1] == ids1[i]);
                assert(ids2.drop_first()[i - 1] == ids2[i]);
            }
        }
        assert(ids1 =~= ids2);
    }
}

impl InstanceNode {
    /// Builds this node's own path by walking the stored ancestor chain
    /// upward and rendering it root first, ending in the separator.
    pub fn reverse_traversal(&self) -> (r: InstPath)
        ensures
            r@ == chain_prefix(chain(*self)) + self.identifier@ + seq!['/'],
    {
        let mut top_down_path = String::new();
        let mut k: usize = self.parent.len();
        proof {
            assert(chain(*self).subrange(k as int, chain(*self).len() as int) =~= Seq::<
                Seq<char>,
            >::empty());
        }
        while k > 0
            invariant
                k <= self.parent@.len(),
                chain(*self).len() == self.parent@.len(),
                top_down_path@ == chain_prefix(
                    chain(*self).subrange(k as int, chain(*self).len() as int),
                ),
            decreases k,
        {
            k = k - 1;
            top_down_path.append(self.parent[k].as_str());
            top_down_path.append("/");
            proof {
                reveal_strlit("/");
                let ch = chain(*self);
                let suf = ch.subrange(k as int, ch.len() as int);
                assert(suf.drop_first() =~= ch.subrange(k as int + 1, ch.len() as int));
                assert(suf.first() == ch[k as int]);
                assert(ch[k as int] == self.parent@[k as int]@);
                assert(top_down_path@ == chain_prefix(suf.drop_first()) + suf.first() + seq!['/']);
            }
        }
        proof {
            assert(chain(*self).subrange(0, chain(*self).len() as int) =~= chain(*self));
            reveal_strlit("/");
        }
        top_down_path.append(self.identifier.as_str());
        top_down_path.append("/");
        top_down_path
    }

    /// Appends to `instlist` the path of every leaf below this node, walking
    /// the children in order; a node with children contributes no path of its
    /// own.
    pub fn traversal(&self, instlist: &mut Vec<InstPath>)
        requires
            chains_ok(*self),
        ensures
            final(instlist).deep_view() == old(instlist).deep_view() + leaf_paths_of(
                shape(*self),
                chain_prefix(chain(*self)),
            ),
        decreases shape(*self),
    {
        if self.children.len() == 0 {
            let p = self.reverse_traversal();
            instlist.push(p);
            proof {
                assert(shape(*self).children.len() == 0);
                assert(instlist.deep_view() =~= old(instlist).deep_view() + leaf_paths_of(
                    shape(*self),
                    chain_prefix(chain(*self)),
                ));
            }
        } else {
            let ghost pre = chain_prefix(chain(*self));
            let ghost cpre = pre + self.identifier@ + seq!['/'];
            let ghost cs = shape(*self).children;
            proof {
                lemma_shapes_of(self.children@);
                lemma_children_chains_ok(self.identifier@, chain(*self), self.children@);
            }
            let mut k: usize = 0;
            while k < self.children.len()
                invariant
                    k <= self.children@.len(),
                    chains_ok(*self),
                    cs == shape(*self).children,
                    cs.len() == self.children@.len(),
                    cpre == chain_prefix(chain(*self)) + self.identifier@ + seq!['/'],
                    instlist.deep_view() + forest_leaf_paths(cs, k as int, cpre) == old(
                        instlist,
                    ).deep_view() + forest_leaf_paths(cs, 0, cpre),
                decreases self.children@.len() - k,
            {
                let ghost before = instlist.deep_view();
                proof {
                    lemma_shapes_of(self.children@);
                    lemma_children_chains_ok(self.identifier@, chain(*self), self.children@);
                    let child = self.children@[k as int];
                    assert(chain(child) == seq![self.identifier@] + chain(*self));
                    assert(chain(child).drop_first() =~= chain(*self));
                    assert(chain_prefix(chain(child)) == cpre);
                    assert(shape(child) == cs[k as int]);
                    assert(decreases_to!(shape(*self) => shape(child)));
                }
                self.children[k].traversal(instlist);
                proof {
                    assert(instlist.deep_view() == before + leaf_paths_of(cs[k as int], cpre));
                    assert(forest_leaf_paths(cs, k as int, cpre) == leaf_paths_of(
                        cs[k as int],
                        cpre,
                    ) + forest_leaf_paths(cs, k as int + 1, cpre));
                    assert((before + leaf_paths_of(cs[k as int], cpre)) + forest_leaf_paths(
                        cs,
                        k as int + 1,
                        cpre,
                    ) =~= before + forest_leaf_paths(cs, k as int, cpre));
                }
                k = k + 1;
            }
            proof {
                assert(forest_leaf_paths(cs, self.children@.len() as int, cpre)
                    == Seq::<Seq<char>>::empty());
                assert(instlist.deep_view() + forest_leaf_paths(
                    cs,
                    self.children@.len() as int,
                    cpre,
                ) =~= instlist.deep_view());
                assert(cs.len() > 0);
                assert(leaf_paths_of(shape(*self), pre) == forest_leaf_paths(cs, 0, cpre));
            }
        }
    }
}

/// Copies a list of identifiers.
fn clone_names(v: &Vec<String>) -> (r: Vec<String>)
    ensures
        r.deep_view() == v.deep_view(),
{
    let mut r: Vec<String> = Vec::new();
    let mut k: usize = 0;
    while k < v.len()
        invariant
            k <= v.len(),
            r@.len() == k,
            forall|i: int| 0 <= i < k ==> (#[trigger] r@[i])@ == v@[i]@,
        decreases v.len() - k,
    {
        r.push(v[k].clone());
        k = k + 1;
    }
    proof {
        assert(r.deep_view() =~= v.deep_view());
    }
    r
}

} // verus!
