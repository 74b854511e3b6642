//! The tree, its nodes and the splay that both lookup and insertion rest on.
//!
//! Nodes are not ordered by a key that they store. A node's place in the
//! sequence follows from the sizes of the subtrees left of it, which is why
//! every node keeps the size of its own subtree.

use std::fmt::Display;
use vstd::prelude::*;
use vstd::string::{to_string_from_display_ensures, StringExecFns};

use crate::text::{decimal, decimal_text};

verus! {

/// A tree node: a value, the number of nodes in the subtree below it (itself
/// included), and the two subtrees, each owned outright.
pub struct Node<V> where V: Display {
    pub value: V,
    size: usize,
    left: Option<Box<Node<V>>>,
    right: Option<Box<Node<V>>>,
}

/// Number of nodes that an optional subtree claims to hold: its root's stored
/// size, or zero where there is no subtree.
pub open spec fn subtree_size<V: Display>(t: Option<Box<Node<V>>>) -> nat {
    match t {
        Some(n) => n.size(),
        None => 0,
    }
}

/// The values of an optional subtree from left to right.
pub open spec fn subtree_view<V: Display>(t: Option<Box<Node<V>>>) -> Seq<V>
    decreases t,
{
    match t {
        Some(n) => n.view(),
        None => Seq::empty(),
    }
}

/// Whether every node of an optional subtree stores the right size.
pub open spec fn subtree_wf<V: Display>(t: Option<Box<Node<V>>>) -> bool
    decreases t,
{
    match t {
        Some(n) => n.wf(),
        None => true,
    }
}

/// The description of a node, put together from the text of its value, its
/// size and the descriptions of its two subtrees.
pub open spec fn dump_text(value: Seq<char>, size: nat, left: Seq<char>, right: Seq<char>) -> Seq<
    char,
> {
    "["@ + value + " size="@ + decimal(size) + "] left=("@ + left + ") right=("@ + right + ")"@
}

/// Whether `text` describes the optional subtree `t`: `nil` for none, else
/// what [`Node::is_dump`] says.
pub open spec fn subtree_is_dump<V: Display>(t: Option<Box<Node<V>>>, text: Seq<char>) -> bool
    decreases t,
{
    match t {
        Some(n) => n.is_dump(text),
        None => text == "nil"@,
    }
}

/// Whether the optional subtree `copy` is a clone of `t`: both absent, or both
/// there and related as [`Node::cloned_as`] says.
pub open spec fn subtree_cloned_as<V: Clone + Display>(
    t: Option<Box<Node<V>>>,
    copy: Option<Box<Node<V>>>,
) -> bool
    decreases t,
{
    match t {
        Some(n) => copy.is_some() && n.cloned_as(*copy.unwrap()),
        None => copy.is_none(),
    }
}

/// Size of an optional subtree.
fn stored_size<V: Display>(t: &Option<Box<Node<V>>>) -> (n: usize)
    ensures
        n == subtree_size(*t),
{
    match t {
        Some(node) => node.size,
        None => 0,
    }
}

/// In a well-formed optional subtree the claimed size is the number of values.
pub proof fn lemma_subtree_size_is_len<V: Display>(t: Option<Box<Node<V>>>)
    requires
        subtree_wf(t),
    ensures
        subtree_size(t) == subtree_view(t).len(),
{
    if t.is_some() {
        t.unwrap().lemma_size_is_len();
    }
}

impl<V> Node<V> where V: Display {
    /// The value held at this node.
    pub closed spec fn val(self) -> V {
        self.value
    }

    /// The stored subtree size.
    pub closed spec fn size(self) -> nat {
        self.size as nat
    }

    /// The left subtree.
    pub closed spec fn left(self) -> Option<Box<Node<V>>> {
        self.left
    }

    /// The right subtree.
    pub closed spec fn right(self) -> Option<Box<Node<V>>> {
        self.right
    }

    /// The values below this node in order: the left subtree's, the node's
    /// own, the right subtree's.
    pub open spec fn view(self) -> Seq<V>
        decreases self,
    {
        subtree_view(self.left()) + seq![self.val()] + subtree_view(self.right())
    }

    /// The size invariant, at this node and at every node below it: the
    /// stored size is one more than the sizes of the two subtrees together.
    pub open spec fn wf(self) -> bool
        decreases self,
    {
        &&& self.size() == 1 + subtree_size(self.left()) + subtree_size(self.right())
        &&& subtree_wf(self.left())
        &&& subtree_wf(self.right())
    }

    /// Whether `text` describes the subtree at this node: in square brackets
    /// the node's value, as its `Display` wrote it, and the stored size in
    /// decimal; then the descriptions of the left and of the right subtree,
    /// each in round brackets.
    pub open spec fn is_dump(self, text: Seq<char>) -> bool
        decreases self,
    {
        exists|value: String, left: Seq<char>, right: Seq<char>|
            {
                &&& to_string_from_display_ensures::<V>(&self.val(), value)
                &&& subtree_is_dump(self.left(), left)
                &&& subtree_is_dump(self.right(), right)
                &&& text == #[trigger] dump_text(value@, self.size(), left, right)
            }
    }

    /// A node that holds `v` above the subtrees `l` and `r`, with its size
    /// computed from theirs.
    pub fn new(v: V, l: Option<Box<Node<V>>>, r: Option<Box<Node<V>>>) -> (node: Node<V>)
        requires
            1 + subtree_size(l) + subtree_size(r) <= usize::MAX,
        ensures
            node.val() == v,
            node.left() == l,
            node.right() == r,
            node.size() == 1 + subtree_size(l) + subtree_size(r),
            node@ == subtree_view(l) + seq![v] + subtree_view(r),
            node.wf() <==> subtree_wf(l) && subtree_wf(r),
    {
        let left_size = match &l {
            Some(left) => left.size,
            None => 0,
        };
        let right_size = match &r {
            Some(right) => right.size,
            None => 0,
        };
        let size = 1 + left_size + right_size;
        Node { value: v, size: size, left: l, right: r }
    }

    /// Position of this node among the values of its own subtree: the number
    /// of nodes to its left.
    #[inline(always)]
    pub fn rel_index(&mut self) -> (rank: usize)
        ensures
            rank == subtree_size(old(self).left()),
            *final(self) == *old(self),
    {
        match &self.left {
            None => 0,
            Some(left) => left.size,
        }
    }

    /// Unlinks the left subtree and hands it out; the node's size drops by the
    /// size of what left.
    #[inline(always)]
    pub fn remove_left(&mut self) -> (removed: Option<Box<Node<V>>>)
        requires
            subtree_size(old(self).left()) <= old(self).size(),
        ensures
            removed == old(self).left(),
            final(self).left().is_none(),
            final(self).right() == old(self).right(),
            final(self).val() == old(self).val(),
            final(self).size() == old(self).size() - subtree_size(old(self).left()),
            old(self)@ == subtree_view(removed) + final(self)@,
            old(self).wf() ==> final(self).wf() && subtree_wf(removed),
    {
        let left_size = match &self.left {
            Some(l) => l.size,
            None => 0,
        };
        self.size -= left_size;
        let removed = self.left.take();
        proof {
            old(self).lemma_parts();
            self.lemma_parts();
            assert(old(self)@ =~= subtree_view(removed) + self@);
        }
        removed
    }

    /// Unlinks the right subtree and hands it out; the node's size drops by
    /// the size of what left.
    #[inline(always)]
    pub fn remove_right(&mut self) -> (removed: Option<Box<Node<V>>>)
        requires
            subtree_size(old(self).right()) <= old(self).size(),
        ensures
            removed == old(self).right(),
            final(self).right().is_none(),
            final(self).left() == old(self).left(),
            final(self).val() == old(self).val(),
            final(self).size() == old(self).size() - subtree_size(old(self).right()),
            old(self)@ == final(self)@ + subtree_view(removed),
            old(self).wf() ==> final(self).wf() && subtree_wf(removed),
    {
        let right_size = match &self.right {
            Some(r) => r.size,
            None => 0,
        };
        self.size -= right_size;
        let removed = self.right.take();
        proof {
            old(self).lemma_parts();
            self.lemma_parts();
            assert(old(self)@ =~= self@ + subtree_view(removed));
        }
        removed
    }

    /// A description of the subtree at this node, for diagnostics.
    pub fn to_str(&self) -> (text: String)
        ensures
            self.is_dump(text@),
        decreases self,
    {
        let left = match &self.left {
            Some(l) => l.to_str(),
            None => String::from_str("nil"),
        };
        let right = match &self.right {
            Some(r) => r.to_str(),
            None => String::from_str("nil"),
        };
        let value = self.value.to_string();
        let mut text = String::from_str("[");
        text.append(value.as_str());
        text.append(" size=");
        text.append(decimal_text(self.size).as_str());
        text.append("] left=(");
        text.append(left.as_str());
        text.append(") right=(");
        text.append(right.as_str());
        text.append(")");
        proof {
            assert(to_string_from_display_ensures::<V>(&self.val(), value));
            assert(subtree_is_dump(self.left(), left@));
            assert(subtree_is_dump(self.right(), right@));
            assert(text@ == dump_text(value@, self.size(), left@, right@));
        }
        text
    }

    /// Hangs `l` into the free left slot; the node's size grows by the size of
    /// what came.
    fn attach_left(&mut self, l: Option<Box<Node<V>>>)
        requires
            old(self).left().is_none(),
            old(self).size() + subtree_size(l) <= usize::MAX,
        ensures
            final(self).left() == l,
            final(self).right() == old(self).right(),
            final(self).val() == old(self).val(),
            final(self).size() == old(self).size() + subtree_size(l),
            final(self)@ == subtree_view(l) + old(self)@,
            old(self).wf() && subtree_wf(l) ==> final(self).wf(),
    {
        self.size += stored_size(&l);
        self.left = l;
        proof {
            old(self).lemma_parts();
            self.lemma_parts();
            assert(self@ =~= subtree_view(l) + old(self)@);
        }
    }

    /// Hangs `r` into the free right slot; the node's size grows by the size
    /// of what came.
    fn attach_right(&mut self, r: Option<Box<Node<V>>>)
        requires
            old(self).right().is_none(),
            old(self).size() + subtree_size(r) <= usize::MAX,
        ensures
            final(self).right() == r,
            final(self).left() == old(self).left(),
            final(self).val() == old(self).val(),
            final(self).size() == old(self).size() + subtree_size(r),
            final(self)@ == old(self)@ + subtree_view(r),
            old(self).wf() && subtree_wf(r) ==> final(self).wf(),
    {
        self.size += stored_size(&r);
        self.right = r;
        proof {
            old(self).lemma_parts();
            self.lemma_parts();
            assert(self@ =~= old(self)@ + subtree_view(r));
        }
    }

    /// What `view` and `wf` say at this node, one level deep, together with
    /// the sizes that well-formedness fixes: a well-formed node counts itself
    /// and the values of its two subtrees.
    pub proof fn lemma_parts(self)
        ensures
            self@ == subtree_view(self.left()) + seq![self.val()] + subtree_view(self.right()),
            self.wf() <==> {
                &&& self.size() == 1 + subtree_size(self.left()) + subtree_size(self.right())
                &&& subtree_wf(self.left())
                &&& subtree_wf(self.right())
            },
            self.wf() ==> {
                &&& self.size() == self@.len()
                &&& subtree_size(self.left()) == subtree_view(self.left()).len()
                &&& subtree_size(self.right()) == subtree_view(self.right()).len()
            },
    {
        if self.wf() {
            self.lemma_size_is_len();
            lemma_subtree_size_is_len(self.left());
            lemma_subtree_size_is_len(self.right());
        }
    }

    /// In a well-formed subtree the stored size is the number of values.
    pub proof fn lemma_size_is_len(self)
        requires
            self.wf(),
        ensures
            self.size() == self@.len(),
        decreases self,
    {
        if self.left.is_some() {
            self.left.unwrap().lemma_size_is_len();
        }
        if self.right.is_some() {
            self.right.unwrap().lemma_size_is_len();
        }
    }
}

impl<V> Node<V> where V: Clone + Display {
    /// Whether `copy` is a clone of the subtree at this node: of the same
    /// shape, with the same stored sizes, and holding at each node a clone of
    /// the value there.
    pub open spec fn cloned_as(self, copy: Node<V>) -> bool
        decreases self,
    {
        &&& cloned::<V>(self.val(), copy.val())
        &&& copy.size() == self.size()
        &&& subtree_cloned_as(self.left(), copy.left())
        &&& subtree_cloned_as(self.right(), copy.right())
    }

    /// A clone is well formed where the subtree it was made from is, and
    /// holds, rank by rank, clones of that subtree's values.
    pub proof fn lemma_cloned_as(self, copy: Node<V>)
        requires
            self.cloned_as(copy),
        ensures
            self.wf() ==> copy.wf(),
            copy@.len() == self@.len(),
            forall|i: int| 0 <= i < self@.len() ==> cloned::<V>(self@[i], #[trigger] copy@[i]),
        decreases self,
    {
        self.lemma_parts();
        copy.lemma_parts();
        if self.left.is_some() {
            let (l, cl) = (self.left.unwrap(), copy.left.unwrap());
            assert(l.cloned_as(*cl));
            assert(cl.size() == l.size());
            l.lemma_cloned_as(*cl);
        }
        if self.right.is_some() {
            let (r, cr) = (self.right.unwrap(), copy.right.unwrap());
            assert(r.cloned_as(*cr));
            assert(cr.size() == r.size());
            r.lemma_cloned_as(*cr);
        }
    }
}

impl<V> Clone for Node<V> where V: Clone + Display {
    fn clone(&self) -> (copy: Self)
        ensures
            self.cloned_as(copy),
        decreases self,
    {
        Node {
            value: self.value.clone(),
            size: self.size,
            left: match &self.left {
                Some(l) => Some(Box::new((&**l).clone())),
                None => None,
            },
            right: match &self.right {
                Some(r) => Some(Box::new((&**r).clone())),
                None => None,
            },
        }
    }
}

/// The rank that a splay brings to the root of a subtree of `len` values: the
/// requested one where it exists, else the last.
pub open spec fn nearest_rank(index: usize, len: nat) -> nat {
    if index < len {
        index as nat
    } else {
        (len - 1) as nat
    }
}

/// The rank at which an insertion at `index` into `len` values lands: `index`
/// itself, or `len` where `index` lies past the end.
pub open spec fn insert_rank(index: usize, len: nat) -> nat {
    if index <= len {
        index as nat
    } else {
        len
    }
}

/// The subtree that a left chain becomes once `hole` hangs in the free right
/// slot of its deepest node. `chain` lists the nodes from the top down.
spec fn plug_right<V: Display>(chain: Seq<Box<Node<V>>>, hole: Option<Box<Node<V>>>) -> Option<
    Box<Node<V>>,
>
    decreases chain.len(),
{
    if chain.len() == 0 {
        hole
    } else {
        let last = chain.last();
        plug_right(
            chain.drop_last(),
            Some(
                Box::new(
                    Node { value: last.value, size: last.size, left: last.left, right: hole },
                ),
            ),
        )
    }
}

/// The subtree that a right chain becomes once `hole` hangs in the free left
/// slot of its deepest node. `chain` lists the nodes from the top down.
spec fn plug_left<V: Display>(chain: Seq<Box<Node<V>>>, hole: Option<Box<Node<V>>>) -> Option<
    Box<Node<V>>,
>
    decreases chain.len(),
{
    if chain.len() == 0 {
        hole
    } else {
        let last = chain.last();
        plug_left(
            chain.drop_last(),
            Some(
                Box::new(
                    Node { value: last.value, size: last.size, left: hole, right: last.right },
                ),
            ),
        )
    }
}

/// Whether the nodes of a left chain store the sizes that will be right once
/// a subtree of `hole_size` nodes hangs below the deepest of them: each has a
/// well-formed left subtree, a free right slot, and counts itself, its left
/// subtree and all that will hang right of it.
spec fn left_chain_ok<V: Display>(chain: Seq<Box<Node<V>>>, hole_size: nat) -> bool
    decreases chain.len(),
{
    chain.len() == 0 || {
        let last = chain.last();
        &&& last.right().is_none()
        &&& subtree_wf(last.left())
        &&& last.size() == subtree_size(last.left()) + 1 + hole_size
        &&& left_chain_ok(chain.drop_last(), last.size())
    }
}

/// The mirror image of [`left_chain_ok`] for a right chain.
spec fn right_chain_ok<V: Display>(chain: Seq<Box<Node<V>>>, hole_size: nat) -> bool
    decreases chain.len(),
{
    chain.len() == 0 || {
        let last = chain.last();
        &&& last.left().is_none()
        &&& subtree_wf(last.right())
        &&& last.size() == hole_size + 1 + subtree_size(last.right())
        &&& right_chain_ok(chain.drop_last(), last.size())
    }
}

/// The values on a left chain in order: each node's left subtree and the node
/// itself, from the top of the chain down.
spec fn left_chain_view<V: Display>(chain: Seq<Box<Node<V>>>) -> Seq<V>
    decreases chain.len(),
{
    if chain.len() == 0 {
        Seq::empty()
    } else {
        left_chain_view(chain.drop_last()) + (subtree_view(chain.last().left()) + seq![
            chain.last().val(),
        ])
    }
}

/// The values on a right chain in order: each node and its right subtree,
/// from the bottom of the chain up.
spec fn right_chain_view<V: Display>(chain: Seq<Box<Node<V>>>) -> Seq<V>
    decreases chain.len(),
{
    if chain.len() == 0 {
        Seq::empty()
    } else {
        (seq![chain.last().val()] + subtree_view(chain.last().right())) + right_chain_view(
            chain.drop_last(),
        )
    }
}

/// A left chain with the right sizes becomes a well-formed subtree when its
/// hole is filled: the chain's values, then those of what filled the hole.
proof fn lemma_plug_right<V: Display>(chain: Seq<Box<Node<V>>>, hole: Option<Box<Node<V>>>)
    requires
        subtree_wf(hole),
        left_chain_ok(chain, subtree_size(hole)),
    ensures
        subtree_wf(plug_right(chain, hole)),
        subtree_view(plug_right(chain, hole)) == left_chain_view(chain) + subtree_view(hole),
    decreases chain.len(),
{
    if chain.len() > 0 {
        let last = chain.last();
        let filled = Node { value: last.value, size: last.size, left: last.left, right: hole };
        filled.lemma_parts();
        lemma_plug_right(chain.drop_last(), Some(Box::new(filled)));
        assert(left_chain_view(chain.drop_last()) + filled@ =~= left_chain_view(chain)
            + subtree_view(hole));
    } else {
        assert(left_chain_view(chain) + subtree_view(hole) =~= subtree_view(hole));
    }
}

/// The mirror image of [`lemma_plug_right`] for a right chain.
proof fn lemma_plug_left<V: Display>(chain: Seq<Box<Node<V>>>, hole: Option<Box<Node<V>>>)
    requires
        subtree_wf(hole),
        right_chain_ok(chain, subtree_size(hole)),
    ensures
        subtree_wf(plug_left(chain, hole)),
        subtree_view(plug_left(chain, hole)) == subtree_view(hole) + right_chain_view(chain),
    decreases chain.len(),
{
    if chain.len() > 0 {
        let last = chain.last();
        let filled = Node { value: last.value, size: last.size, left: hole, right: last.right };
        filled.lemma_parts();
        lemma_plug_left(chain.drop_last(), Some(Box::new(filled)));
        assert(filled@ + right_chain_view(chain.drop_last()) =~= subtree_view(hole)
            + right_chain_view(chain));
    } else {
        assert(subtree_view(hole) + right_chain_view(chain) =~= subtree_view(hole));
    }
}

/// Rotates to the right at `node`, whose left subtree `child` has just been
/// unlinked from it: the root of `child` rises above `node` and hands it the
/// subtree that stood between the two. The left subtree of `child` is
/// returned unlinked, so that the walk can go on in it.
fn rotate_right<V: Display>(node: &mut Box<Node<V>>, child: Box<Node<V>>) -> (rest: Option<
    Box<Node<V>>,
>)
    requires
        old(node).wf(),
        old(node).left().is_none(),
        child.wf(),
        old(node).size() + child.size() <= usize::MAX,
    ensures
        rest == child.left(),
        final(node).wf(),
        final(node).left().is_none(),
        final(node)@ == seq![child.val()] + subtree_view(child.right()) + old(node)@,
{
    let mut child = child;
    proof {
        child.lemma_parts();
    }
    let between = child.remove_right();
    node.attach_left(between);
    let rest = child.remove_left();
    proof {
        child.lemma_parts();
        node.lemma_size_is_len();
    }
    std::mem::swap(node, &mut child);
    node.attach_right(Some(child));
    proof {
        assert(node@ =~= seq![node.val()] + subtree_view(between) + old(node)@);
    }
    rest
}

/// Rotates to the left at `node`, whose right subtree `child` has just been
/// unlinked from it: the mirror image of [`rotate_right`]. The right subtree
/// of `child` is returned unlinked.
fn rotate_left<V: Display>(node: &mut Box<Node<V>>, child: Box<Node<V>>) -> (rest: Option<
    Box<Node<V>>,
>)
    requires
        old(node).wf(),
        old(node).right().is_none(),
        child.wf(),
        old(node).size() + child.size() <= usize::MAX,
    ensures
        rest == child.right(),
        final(node).wf(),
        final(node).right().is_none(),
        final(node)@ == old(node)@ + subtree_view(child.left()) + seq![child.val()],
{
    let mut child = child;
    proof {
        child.lemma_parts();
    }
    let between = child.remove_left();
    node.attach_right(between);
    let rest = child.remove_right();
    proof {
        child.lemma_parts();
        node.lemma_size_is_len();
    }
    std::mem::swap(node, &mut child);
    node.attach_left(Some(child));
    proof {
        assert(node@ =~= old(node)@ + subtree_view(between) + seq![node.val()]);
    }
    rest
}

/// One step of the walk down to the left. `node` stands at rank `node_idx` of
/// the whole sequence, and the target `index` lies in its left subtree.
///
/// Unlinks that subtree, rotates first where the target lies left of the
/// subtree's own root, and leaves in `node` the subtree in which the walk goes
/// on. Returned is what was passed: a subtree with a free left slot, whose
/// values all come after the target.
fn descend_left<V: Display>(index: usize, node_idx: usize, node: &mut Box<Node<V>>) -> (passed:
    Box<Node<V>>)
    requires
        old(node).wf(),
        subtree_size(old(node).left()) <= node_idx,
        node_idx - subtree_size(old(node).left()) <= index < node_idx,
    ensures
        final(node).wf(),
        passed.wf(),
        passed.left().is_none(),
        final(node)@ + passed@ == old(node)@,
        index < node_idx - subtree_size(old(node).left()) + final(node)@.len(),
{
    let ghost top = **node;
    proof {
        top.lemma_parts();
    }
    let mut left = node.remove_left().unwrap();
    let ghost child = *left;
    proof {
        node.lemma_parts();
        child.lemma_parts();
    }
    // The rank of the left child.
    let left_idx = node_idx - 1 - stored_size(&left.right);
    if index < left_idx {
        left = rotate_right(node, left).unwrap();
        proof {
            left.lemma_size_is_len();
            assert(left@ + node@ =~= child@ + (seq![top.val()] + subtree_view(top.right())));
        }
    }
    std::mem::swap(node, &mut left);
    left
}

/// One step of the walk down to the right. `node` stands at rank `node_idx`
/// of the whole sequence, and the target `index` lies after it.
///
/// Where `node` has no right subtree, or a rotation brings up a node that has
/// none, the walk ends with the last value at `node`, and nothing is
/// returned. Else the right subtree is unlinked, with a rotation first where
/// the target lies right of the subtree's own root, and `node` becomes the
/// subtree in which the walk goes on. Returned is what was passed: a subtree
/// with a free right slot, whose values all come before the target.
fn descend_right<V: Display>(index: usize, node_idx: usize, node: &mut Box<Node<V>>) -> (passed:
    Option<Box<Node<V>>>)
    requires
        old(node).wf(),
        node_idx < index,
        subtree_size(old(node).left()) <= node_idx,
        node_idx - subtree_size(old(node).left()) + old(node).size() <= usize::MAX,
    ensures
        final(node).wf(),
        match passed {
            Some(p) => {
                &&& p.wf()
                &&& p.right().is_none()
                &&& p@ + final(node)@ == old(node)@
                &&& final(node)@.len() > 0
                &&& node_idx - subtree_size(old(node).left()) + p@.len() <= index
            },
            None => {
                &&& final(node)@ == old(node)@
                &&& final(node).right().is_none()
                &&& node_idx - subtree_size(old(node).left()) + old(node)@.len() <= index
            },
        },
{
    let ghost top = **node;
    proof {
        top.lemma_parts();
    }
    match node.remove_right() {
        None => None,
        Some(mut right) => {
            let ghost child = *right;
            proof {
                node.lemma_parts();
                child.lemma_parts();
            }
            // The rank of the right child.
            let right_idx = node_idx + 1 + right.rel_index();
            if index > right_idx {
                match rotate_left(node, right) {
                    Some(r) => {
                        right = r;
                        proof {
                            assert(node@ + right@ =~= (subtree_view(top.left()) + seq![top.val()])
                                + child@);
                        }
                    },
                    None => {
                        proof {
                            node.lemma_parts();
                            assert(node@ =~= top@);
                        }
                        return None;
                    },
                }
            }
            proof {
                right.lemma_size_is_len();
                node.lemma_size_is_len();
            }
            std::mem::swap(node, &mut right);
            Some(right)
        },
    }
}

/// Top-down splay of the subtree at `node` around the rank `index`.
///
/// Walks down from the root towards `index`. Each node passed on the way
/// leaves the search path together with the subtree on its far side: those
/// left of the target are threaded onto the left chain, each into the free
/// right slot of the one before, and those right of the target onto the right
/// chain likewise. Two steps in the same direction are preceded by a
/// rotation, which halves the depth of the path walked. The node where the
/// walk stops becomes the root: its own two subtrees fill the holes at the
/// ends of the chains, and the chains become its subtrees.
///
/// A node on a chain cannot count what will still be hung below it, so it is
/// given its final size when it is passed: the rank that ends at the root is
/// known from the start, and with it how much of the sequence ends up below
/// each node that is passed.
///
/// The values and their order stay as they were. The new root is the value at
/// rank `index`, or the last value where `index` is past the end.
fn splay<V: Display>(index: usize, node: &mut Box<Node<V>>)
    requires
        old(node).wf(),
    ensures
        final(node).wf(),
        final(node)@ == old(node)@,
        subtree_size(final(node).left()) == nearest_rank(index, old(node)@.len()),
{
    let ghost whole = node@;
    proof {
        node.lemma_parts();
    }
    let total = node.size;
    // The rank that the root will have in the end.
    let target = if index < total {
        index
    } else {
        total - 1
    };
    let mut left_chain: Option<Box<Node<V>>> = None;
    let mut right_chain: Option<Box<Node<V>>> = None;
    let ghost mut lefts: Seq<Box<Node<V>>> = Seq::empty();
    let ghost mut rights: Seq<Box<Node<V>>> = Seq::empty();
    // The free slots at the ends of the two chains.
    let mut left_hole = &mut left_chain;
    let mut right_hole = &mut right_chain;
    // Number of values on the left chain: the rank of the first value that is
    // still below `node`.
    let mut offset: usize = 0;
    loop
        invariant
            node.wf(),
            whole.len() == total,
            target == nearest_rank(index, whole.len()),
            after_borrow(left_chain) == plug_right(lefts, *final(left_hole)),
            after_borrow(right_chain) == plug_left(rights, *final(right_hole)),
            offset <= index,
            offset <= target < offset + node@.len(),
            left_chain_ok(lefts, (target - offset) as nat),
            right_chain_ok(rights, (offset + node@.len() - 1 - target) as nat),
            left_chain_view(lefts) + node@ + right_chain_view(rights) == whole,
            offset == left_chain_view(lefts).len(),
            index >= whole.len() ==> rights.len() == 0,
        ensures
            offset + subtree_size(node.left()) == target,
        decreases node@.len(),
    {
        let ghost lefts_before = lefts;
        let ghost rights_before = rights;
        proof {
            node.lemma_parts();
        }
        // The rank of `node` in the whole sequence.
        let node_idx = offset + node.rel_index();
        if index == node_idx {
            break;
        }
        if index < node_idx {
            let end = offset + node.size;
            let mut passed = descend_left(index, node_idx, node);
            let ghost passed_view = passed@;
            proof {
                passed.lemma_parts();
            }
            // All from the target to the end of what `passed` stood above
            // will hang below it, but for the target itself.
            passed.size = end - target - 1;
            proof {
                passed.lemma_parts();
                rights = rights.push(passed);
                assert(rights.drop_last() =~= rights_before);
                assert(node@ + right_chain_view(rights) =~= (node@ + passed_view)
                    + right_chain_view(rights_before));
                assert(left_chain_view(lefts) + node@ + right_chain_view(rights)
                    =~= left_chain_view(lefts) + (node@ + passed_view)
                    + right_chain_view(rights_before));
            }
            *right_hole = Some(passed);
            right_hole = &mut right_hole.as_mut().unwrap().left;
        } else {
            match descend_right(index, node_idx, node) {
                None => {
                    proof {
                        node.lemma_parts();
                    }
                    break;
                },
                Some(mut passed) => {
                    let ghost passed_view = passed@;
                    proof {
                        passed.lemma_parts();
                        assert(whole.len() == left_chain_view(lefts).len()
                            + (passed@ + node@).len() + right_chain_view(rights).len());
                    }
                    let first = offset;
                    offset = offset + passed.size;
                    // All from where `passed` began up to the target will
                    // hang below it.
                    passed.size = target - first;
                    proof {
                        passed.lemma_parts();
                        lefts = lefts.push(passed);
                        assert(lefts.drop_last() =~= lefts_before);
                        assert(left_chain_view(lefts) + node@ =~= left_chain_view(lefts_before)
                            + (passed_view + node@));
                    }
                    *left_hole = Some(passed);
                    left_hole = &mut left_hole.as_mut().unwrap().right;
                },
            }
        }
    }
    proof {
        node.lemma_parts();
    }
    let ghost root = **node;
    *left_hole = node.remove_left();
    *right_hole = node.remove_right();
    proof {
        lemma_plug_right(lefts, root.left());
        lemma_plug_left(rights, root.right());
        lemma_subtree_size_is_len(left_chain);
        lemma_subtree_size_is_len(right_chain);
        assert(whole =~= subtree_view(left_chain) + node@ + subtree_view(right_chain));
    }
    node.attach_left(left_chain);
    node.attach_right(right_chain);
}

/// A sequence of values held in a binary tree whose nodes are ordered by
/// position, not by a stored key.
pub struct TreeArray<V> where V: Display {
    root: Option<Box<Node<V>>>,
}

impl<V> View for TreeArray<V> where V: Display {
    type V = Seq<V>;

    /// The sequence that the container stands for: the values of the tree
    /// from left to right.
    open spec fn view(&self) -> Seq<V> {
        subtree_view(self.root())
    }
}

impl<V> TreeArray<V> where V: Display {
    /// The root of the tree, absent in an empty container.
    pub closed spec fn root(self) -> Option<Box<Node<V>>> {
        self.root
    }

    /// Every node of the tree stores the size of its own subtree. This holds
    /// of every container at all times: no operation needs it as a
    /// precondition, and none can end without it.
    #[verifier::type_invariant]
    pub open spec fn wf(self) -> bool {
        subtree_wf(self.root())
    }

    /// What a lookup at `index` finds: the value at that rank, or nothing
    /// where the sequence has no such rank.
    pub open spec fn lookup(&self, index: int) -> Option<&V> {
        if 0 <= index < self@.len() {
            Some(&self@[index])
        } else {
            None
        }
    }

    /// An empty container.
    pub fn new() -> (t: TreeArray<V>)
        ensures
            t.wf(),
            t.root().is_none(),
            t@ == Seq::<V>::empty(),
    {
        TreeArray { root: None }
    }

    /// The value at rank `index`, or nothing where the container has no such
    /// rank. The tree is splayed around `index`: its shape may change, the
    /// sequence does not. Afterwards the root is the value found, or the last
    /// value where nothing was found.
    pub fn get(&mut self, index: usize) -> (found: Option<&V>)
        ensures
            final(self).wf(),
            final(self)@ == old(self)@,
            found == old(self).lookup(index as int),
            found.is_some() <==> index < old(self)@.len(),
            final(self).root().is_some() == old(self).root().is_some(),
            final(self).root() matches Some(r) ==> subtree_size(r.left())
                == nearest_rank(index, old(self)@.len()),
    {
        proof {
            use_type_invariant(&*self);
        }
        let mut root = None;
        std::mem::swap(&mut root, &mut self.root);
        match root {
            None => None,
            Some(mut root) => {
                splay(index, &mut root);
                proof {
                    root.lemma_parts();
                }
                let at_root = index == root.rel_index();
                self.root = Some(root);
                if at_root {
                    Some(&self.root.as_ref().unwrap().value)
                } else {
                    None
                }
            },
        }
    }

    /// Puts `value` at rank `index`; the values that stood at `index` and
    /// after it move one rank up. An `index` past the end appends. The new
    /// node becomes the root.
    pub fn insert(&mut self, index: usize, value: V)
        requires
            old(self)@.len() < usize::MAX,
        ensures
            final(self).wf(),
            final(self)@ == old(self)@.insert(insert_rank(index, old(self)@.len()) as int, value),
            final(self).root() matches Some(r) && r.val() == value && subtree_size(r.left())
                == insert_rank(index, old(self)@.len()),
    {
        proof {
            use_type_invariant(&*self);
        }
        let mut root = None;
        std::mem::swap(&mut root, &mut self.root);
        match root {
            Some(mut root) => {
                splay(index, &mut root);
                proof {
                    root.lemma_parts();
                }
                let ghost whole = root@;
                let new = if index <= root.rel_index() {
                    // The root and all right of it move one rank up.
                    let left = root.remove_left();
                    let mut new = Box::new(Node::new(value, left, None));
                    new.attach_right(Some(root));
                    new
                } else {
                    // Only where `index` lies past the end: the root is the
                    // last value, and the new one comes after it.
                    let right = root.remove_right();
                    let mut new = Box::new(Node::new(value, None, right));
                    new.attach_left(Some(root));
                    new
                };
                proof {
                    new.lemma_parts();
                    assert(new@ =~= whole.insert(insert_rank(index, whole.len()) as int, value));
                }
                self.root = Some(new);
            },
            None => {
                let node = Node::new(value, None, None);
                proof {
                    assert(node@ =~= Seq::<V>::empty().insert(0, value));
                }
                self.root = Some(Box::new(node));
            },
        }
    }

    /// The number of values: the size that the root stores.
    pub fn len(&self) -> (n: usize)
        ensures
            n == subtree_size(self.root()),
            n == self@.len(),
    {
        proof {
            use_type_invariant(self);
            lemma_subtree_size_is_len(self.root);
        }
        match self.root {
            None => 0,
            Some(ref root) => root.size,
        }
    }

    /// A description of the tree, for diagnostics.
    pub fn to_str(&self) -> (text: String)
        ensures
            subtree_is_dump(self.root(), text@),
    {
        match &self.root {
            None => String::from_str("nil"),
            Some(r) => r.to_str(),
        }
    }

    /// A lookup finds a value at every rank below the length and at no
    /// other.
    pub proof fn lemma_lookup_in_range(self, index: int)
        ensures
            self.lookup(index).is_some() <==> 0 <= index < self@.len(),
    {
    }

    /// What a lookup finds depends on the sequence alone, not on the shape of
    /// the tree. A lookup leaves the sequence as it was, so the same lookup
    /// again finds the same.
    pub proof fn lemma_lookup_by_view(self, other: TreeArray<V>, index: int)
        requires
            self@ == other@,
        ensures
            self.lookup(index) == other.lookup(index),
    {
    }

    /// After an insertion at `rank` the new value stands at `rank`, the
    /// values below `rank` stand where they stood, and those from `rank` on
    /// stand one rank higher.
    pub proof fn lemma_insert_shifts(self, after: TreeArray<V>, rank: int, value: V)
        requires
            0 <= rank <= self@.len(),
            after@ == self@.insert(rank, value),
        ensures
            after@.len() == self@.len() + 1,
            after.lookup(rank) == Some(&value),
            forall|i: int| 0 <= i < rank ==> after.lookup(i) == self.lookup(i),
            forall|i: int| rank <= i < self@.len() ==> after.lookup(i + 1) == self.lookup(i),
    {
    }
}

} // verus!
