use vstd::prelude::*;

use crate::node::clone_bytes;
use crate::sparse_tree::SparseTree;

verus! {

/// One line of a text rendering of a tree's shape, depth first.
pub struct DumpLine {
    /// For each ancestor below the root, whether a vertical bar continues
    /// past it (it was reached as a left child).
    pub bars: Vec<bool>,
    /// `None` at the root; otherwise whether a sibling follows this node.
    pub joint: Option<bool>,
    /// `None` at the root; otherwise whether this node is a left child.
    pub side: Option<bool>,
    pub key: Vec<u8>,
    pub value: Vec<u8>,
}

/// What a line holds, as plain values.
pub struct DumpLineView {
    pub bars: Seq<bool>,
    pub joint: Option<bool>,
    pub side: Option<bool>,
    pub key: Seq<u8>,
    pub value: Seq<u8>,
}

impl View for DumpLine {
    type V = DumpLineView;

    open spec fn view(&self) -> DumpLineView {
        DumpLineView { bars: self.bars@, joint: self.joint, side: self.side, key: self.key@, value: self.value@ }
    }
}

pub open spec fn lines_view(s: Seq<DumpLine>) -> Seq<DumpLineView> {
    s.map_values(|l: DumpLine| l@)
}

/// The lines for subtree `t`, reached through the sides in `stack` (true
/// for left), itself on side `left`, with `has_sibling_after` telling
/// whether a right sibling follows: this node, then its left subtree, then
/// its right subtree.
pub open spec fn dump_spec(t: SparseTree, stack: Seq<bool>, left: bool, has_sibling_after: bool) -> Seq<DumpLineView>
    decreases t,
{
    let depth = stack.len();
    let me = DumpLineView {
        bars: if depth > 0 { stack.subrange(0, depth - 1) } else { Seq::empty() },
        joint: if depth > 0 { Some(has_sibling_after) } else { None },
        side: if depth > 0 { Some(left) } else { None },
        key: t.node.key@,
        value: t.node.value@,
    };
    let l = match t.left {
        Some(c) => dump_spec(*c, stack.push(true), true, t.right.is_some()),
        None => Seq::empty(),
    };
    let r = match t.right {
        Some(c) => dump_spec(*c, stack.push(false), false, false),
        None => Seq::empty(),
    };
    seq![me] + l + r
}

impl SparseTree {
    fn dump_into(&self, stack: &mut Vec<bool>, left: bool, has_sibling_after: bool, out: &mut Vec<DumpLine>)
        ensures
            final(stack)@ == old(stack)@,
            lines_view(final(out)@) == lines_view(old(out)@) + dump_spec(*self, old(stack)@, left, has_sibling_after),
        decreases self,
    {
        let ghost o0 = out@;
        let ghost s0 = stack@;
        let depth = stack.len();
        let mut bars: Vec<bool> = Vec::new();
        if depth > 0 {
            let mut i: usize = 0;
            while i < depth - 1
                invariant
                    depth == stack@.len(),
                    depth > 0,
                    0 <= i <= depth - 1,
                    bars@ == stack@.subrange(0, i as int),
                decreases depth - 1 - i,
            {
                bars.push(stack[i]);
                assert(stack@.subrange(0, i + 1) =~= stack@.subrange(0, i as int).push(stack@[i as int]));
                i = i + 1;
            }
        }
        let joint = if depth > 0 { Some(has_sibling_after) } else { None };
        let side = if depth > 0 { Some(left) } else { None };
        let line = DumpLine { bars, joint, side, key: clone_bytes(&self.node.key), value: clone_bytes(&self.node.value) };
        out.push(line);
        assert(bars@ =~= (if depth > 0 { s0.subrange(0, depth - 1) } else { Seq::<bool>::empty() }));
        let ghost o1 = out@;
        assert(lines_view(o1) =~= lines_view(o0).push(line@));
        match &self.left {
            Some(c) => {
                stack.push(true);
                c.dump_into(stack, true, self.right.is_some(), out);
                let _ = stack.pop();
                assert(stack@ =~= s0);
            },
            None => {},
        }
        let ghost o2 = out@;
        match &self.right {
            Some(c) => {
                stack.push(false);
                c.dump_into(stack, false, false, out);
                let _ = stack.pop();
                assert(stack@ =~= s0);
            },
            None => {},
        }
        assert(lines_view(out@) =~= lines_view(o0) + dump_spec(*self, s0, left, has_sibling_after));
    }

    /// The lines of a rendering of the tree in memory: each node with the
    /// side it hangs on and the bars and joints that connect it, node first,
    /// then its left subtree, then its right subtree.
    pub fn dump_lines(&self) -> (r: Vec<DumpLine>)
        ensures
            lines_view(r@) == dump_spec(*self, Seq::empty(), false, false),
    {
        let mut out: Vec<DumpLine> = Vec::new();
        let mut stack: Vec<bool> = Vec::new();
        assert(lines_view(out@) =~= Seq::<DumpLineView>::empty());
        self.dump_into(&mut stack, false, false, &mut out);
        assert(lines_view(out@) =~= dump_spec(*self, Seq::empty(), false, false));
        out
    }
}

} // verus!
