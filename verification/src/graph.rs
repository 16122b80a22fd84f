//! Call-graph trees and their YAML-like text form.
use vstd::prelude::*;
use crate::text::{blanks, decimal, push_blanks, push_decimal, push_all, chars_of};

verus! {

/// The model of a call-graph node: a function name, the level at which it
/// was found, and the nodes found below it, in the order they were found.
pub struct CallTree {
    pub name: Seq<char>,
    pub depth: nat,
    pub children: Seq<CallTree>,
}

/// A node without children.
pub open spec fn leaf(name: Seq<char>, depth: nat) -> CallTree {
    CallTree { name, depth, children: Seq::empty() }
}

/// `t` with its children replaced by `children`.
pub open spec fn with_children(t: CallTree, children: Seq<CallTree>) -> CallTree {
    CallTree { name: t.name, depth: t.depth, children }
}

/// The leaves for `names`, one level below `depth`, in order.
pub open spec fn leaves(names: Seq<Seq<char>>, depth: nat) -> Seq<CallTree> {
    Seq::new(names.len(), |i: int| leaf(names[i], depth + 1))
}

/// The line that shows node `t` at indentation level `level`:
/// four blanks per level, the node's depth, `": "`, its name and `"()"`.
pub open spec fn node_line(t: CallTree, level: nat) -> Seq<char> {
    blanks(4 * level) + decimal(t.depth) + seq![':', ' '] + t.name + seq!['(', ')', '\n']
}

/// The text of `t` and everything below it: its own line, then the text of
/// each child one level deeper, in order (a pre-order listing).
pub open spec fn render(t: CallTree, level: nat) -> Seq<char>
    decreases t, 1nat,
{
    node_line(t, level) + child_renders(t, level).flatten()
}

/// The texts of the children of `t`, one level below `level`.
pub open spec fn child_renders(t: CallTree, level: nat) -> Seq<Seq<char>>
    decreases t, 0nat,
{
    Seq::new(
        t.children.len(),
        |i: int|
            if 0 <= i < t.children.len() {
                render(t.children[i], level + 1)
            } else {
                Seq::empty()
            },
    )
}

/// No node of `t` lies deeper than level `max`.
pub open spec fn within_depth(t: CallTree, max: nat) -> bool
    decreases t,
{
    &&& t.depth <= max
    &&& forall|i: int| 0 <= i < t.children.len() ==> within_depth(#[trigger] t.children[i], max)
}

/// Shown from indentation level `level` on, every node of `t` gets an
/// indentation of four blanks per level whose width fits in `usize`.
pub open spec fn indent_fits(t: CallTree, level: nat) -> bool
    decreases t,
{
    &&& 4 * level <= usize::MAX
    &&& forall|i: int| 0 <= i < t.children.len() ==> indent_fits(#[trigger] t.children[i], level + 1)
}

/// The nodes of `a` and `b` pairwise carry the same names and levels.
pub open spec fn same_heads(a: Seq<CallTree>, b: Seq<CallTree>) -> bool {
    &&& a.len() == b.len()
    &&& forall|i: int|
        0 <= i < a.len() ==> (#[trigger] a[i]).name == b[i].name && a[i].depth == b[i].depth
}

/// The models of a list of nodes.
pub open spec fn trees_of(v: Seq<FunctionNode>) -> Seq<CallTree> {
    Seq::new(v.len(), |i: int| v[i].tree())
}

/// A node of a call graph: a function's name, the level at which it was
/// found, and the nodes of the functions it calls (or is called by).
pub struct FunctionNode {
    name: String,
    calls: Vec<FunctionNode>,
    curr_depth: usize,
}

impl FunctionNode {
    /// Every child lies exactly one level below its parent.
    #[verifier::type_invariant]
    spec fn child_levels(self) -> bool {
        forall|i: int| 0 <= i < self.calls@.len() ==> #[trigger] self.calls@[i].curr_depth
            == self.curr_depth + 1
    }

    /// The model of this node and of everything below it.
    pub closed spec fn tree(self) -> CallTree
        decreases self,
    {
        CallTree {
            name: self.name@,
            depth: self.curr_depth as nat,
            children: Seq::new(
                self.calls@.len(),
                |i: int|
                    if 0 <= i < self.calls@.len() {
                        self.calls@[i].tree()
                    } else {
                        leaf(Seq::empty(), 0)
                    },
            ),
        }
    }

    /// A node named `name` at level `curr_depth_para`, without children.
    pub fn new(name: String, curr_depth_para: usize) -> (node: FunctionNode)
        ensures
            node.tree() == leaf(name@, curr_depth_para as nat),
    {
        let node = FunctionNode { name, calls: Vec::new(), curr_depth: curr_depth_para };
        assert(node.tree().children =~= Seq::<CallTree>::empty());
        node
    }

    /// The function name of this node.
    pub fn name(&self) -> (r: String)
        ensures
            r@ == self.tree().name,
    {
        self.name.clone()
    }

    /// The level at which this node was found.
    pub fn curr_depth(&self) -> (r: usize)
        ensures
            r == self.tree().depth,
    {
        self.curr_depth
    }

    /// Whether, shown from indentation level `level` on, every node's
    /// indentation fits in `usize`.
    pub fn fits_indentation(&self, level: usize) -> (r: bool)
        ensures
            r == indent_fits(self.tree(), level as nat),
        decreases self,
    {
        if level > usize::MAX / 4 {
            return false;
        }
        let ghost t = self.tree();
        let mut i: usize = 0;
        while i < self.calls.len()
            invariant
                0 <= i <= self.calls@.len(),
                t == self.tree(),
                t.children.len() == self.calls@.len(),
                4 * level <= usize::MAX,
                forall|j: int| 0 <= j < i ==> indent_fits(#[trigger] t.children[j], level as nat + 1),
            decreases self.calls@.len() - i,
        {
            let child = &self.calls[i];
            assert(child.tree() == t.children[i as int]);
            if !child.fits_indentation(level + 1) {
                return false;
            }
            i = i + 1;
        }
        true
    }

    /// The number of children.
    pub fn num_children(&self) -> (r: usize)
        ensures
            r == self.tree().children.len(),
    {
        self.calls.len()
    }

    /// A node named `name` at level `curr_depth` over the nodes `calls`.
    pub fn with_calls(name: String, curr_depth: usize, calls: Vec<FunctionNode>) -> (node:
        FunctionNode)
        requires
            forall|i: int| 0 <= i < calls@.len() ==> #[trigger] calls@[i].tree().depth == curr_depth
                + 1,
        ensures
            node.tree() == (CallTree {
                name: name@,
                depth: curr_depth as nat,
                children: trees_of(calls@),
            }),
    {
        assert forall|i: int| 0 <= i < calls@.len() implies #[trigger] calls@[i].curr_depth
            == curr_depth + 1 by {
            assert(calls@[i].tree().depth == calls@[i].curr_depth);
        }
        let node = FunctionNode { name, calls, curr_depth };
        assert(node.tree().children =~= trees_of(calls@));
        node
    }

    /// A copy of this node and of everything below it.
    pub fn duplicate(&self) -> (r: FunctionNode)
        ensures
            r.tree() == self.tree(),
        decreases self,
    {
        proof {
            use_type_invariant(self);
        }
        let mut calls: Vec<FunctionNode> = Vec::new();
        let mut i: usize = 0;
        while i < self.calls.len()
            invariant
                0 <= i <= self.calls@.len(),
                calls@.len() == i,
                forall|j: int| 0 <= j < i ==> #[trigger] calls@[j].tree() == self.calls@[j].tree(),
                forall|j: int| 0 <= j < self.calls@.len() ==> #[trigger] self.calls@[j].curr_depth
                    == self.curr_depth + 1,
            decreases self.calls@.len() - i,
        {
            let c = self.calls[i].duplicate();
            calls.push(c);
            i = i + 1;
        }
        assert forall|j: int| 0 <= j < calls@.len() implies #[trigger] calls@[j].tree().depth
            == self.curr_depth + 1 by {
            assert(self.calls@[j].tree().depth == self.calls@[j].curr_depth);
        }
        let r = FunctionNode::with_calls(self.name.clone(), self.curr_depth, calls);
        assert(trees_of(calls@) =~= self.tree().children);
        r
    }

    /// Every child lies one level below this node (a fact about every node).
    pub fn child_depth_step(&self, i: usize)
        requires
            i < self.tree().children.len(),
        ensures
            self.tree().children[i as int].depth == self.tree().depth + 1,
    {
        proof {
            use_type_invariant(self);
            assert(self.tree().children[i as int] == self.calls@[i as int].tree());
        }
    }

    /// The `i`-th child.
    pub fn child(&self, i: usize) -> (r: &FunctionNode)
        requires
            i < self.tree().children.len(),
        ensures
            r.tree() == self.tree().children[i as int],
    {
        &self.calls[i]
    }
}

/// Appends the text of `node` at indentation level `level` to `out`.
/// Every node's indentation (four blanks per level) must fit in `usize`.
pub fn write_node_yaml(node: &FunctionNode, level: usize, out: &mut Vec<char>)
    requires
        indent_fits(node.tree(), level as nat),
    ensures
        final(out)@ == old(out)@ + render(node.tree(), level as nat),
    decreases node,
{
    proof {
        use_type_invariant(node);
    }
    let ghost start = out@;
    let ghost t = node.tree();
    let mut k: usize = 0;
    while k < level
        invariant
            0 <= k <= level,
            out@ == start + blanks(4 * k as nat),
        decreases level - k,
    {
        push_blanks(4, out);
        assert(blanks(4 * k as nat) + blanks(4) =~= blanks(4 * (k + 1) as nat));
        k = k + 1;
    }
    push_decimal(node.curr_depth, out);
    out.push(':');
    out.push(' ');
    let name = chars_of(node.name.as_str());
    push_all(name.as_slice(), out);
    out.push('(');
    out.push(')');
    out.push('\n');
    assert(out@ =~= start + node_line(t, level as nat));
    let ghost line_end = out@;
    let mut i: usize = 0;
    while i < node.calls.len()
        invariant
            0 <= i <= node.calls@.len(),
            node.tree() == t,
            t.children.len() == node.calls@.len(),
            indent_fits(t, level as nat),
            out@ == line_end + child_renders(t, level as nat).take(i as int).flatten(),
        decreases node.calls@.len() - i,
    {
        let child = &node.calls[i];
        assert(child.tree() == t.children[i as int]);
        assert(indent_fits(t.children[i as int], level as nat + 1));
        write_node_yaml(child, level + 1, out);
        proof {
            let cs = child_renders(t, level as nat);
            assert(cs.take(i + 1) =~= cs.take(i as int).push(cs[i as int]));
            cs.take(i as int).lemma_flatten_push(cs[i as int]);
        }
        i = i + 1;
    }
    assert(child_renders(t, level as nat).take(node.calls@.len() as int) =~= child_renders(
        t,
        level as nat,
    ));
}

} // verus!
