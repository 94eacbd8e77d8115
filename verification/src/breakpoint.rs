//! Statement locations of a parsed module, for setting breakpoints.
//!
//! The parser and its code map live outside this library; a statement is
//! modeled by its span bounds as plain offsets together with its nested
//! statements.

use vstd::prelude::*;

verus! {

/// A statement of a parsed module. A `Group` is a bare sequence of
/// statements with no location of its own; every other statement is a
/// `Leaf` carrying its span bounds and its nested statements.
pub enum StmtTree {
    Group(Vec<StmtTree>),
    Leaf(u32, u32, Vec<StmtTree>),
}

/// The spans of the non-group statements of `t`, in depth-first pre-order.
pub open spec fn spans_preorder(t: StmtTree) -> Seq<(u32, u32)>
    decreases t, 0int,
{
    match t {
        StmtTree::Group(children) => spans_preorder_seq(children@, 0),
        StmtTree::Leaf(lo, hi, children) => seq![(lo, hi)] + spans_preorder_seq(children@, 0),
    }
}

/// The spans of the statements `cs[i..]`, in depth-first pre-order.
pub open spec fn spans_preorder_seq(cs: Seq<StmtTree>, i: int) -> Seq<(u32, u32)>
    decreases cs, cs.len() - i,
{
    if i < 0 || i >= cs.len() {
        Seq::empty()
    } else {
        spans_preorder(cs[i]) + spans_preorder_seq(cs, i + 1)
    }
}

/// Appends to `res` the spans of the non-group statements under `x`, in
/// depth-first pre-order.
fn go(x: &StmtTree, res: &mut Vec<(u32, u32)>)
    ensures
        final(res)@ == old(res)@ + spans_preorder(*x),
    decreases *x,
{
    match x {
        StmtTree::Group(children) => {
            let mut j: usize = 0;
            while j < children.len()
                invariant
                    j <= children@.len(),
                    *x == StmtTree::Group(*children),
                    res@ + spans_preorder_seq(children@, j as int) == old(res)@ + spans_preorder(
                        *x,
                    ),
                decreases children@.len() - j,
            {
                proof {
                    broadcast use vstd::std_specs::vec::axiom_vec_index_decreases;
                    assert(decreases_to!(*x => *children));
                    assert(decreases_to!(*children => children[j as int]));
                }
                go(&children[j], res);
                j += 1;
            }
            proof {
                assert(res@ + Seq::<(u32, u32)>::empty() =~= res@);
            }
        },
        StmtTree::Leaf(lo, hi, children) => {
            res.push((*lo, *hi));
            proof {
                assert(res@ + spans_preorder_seq(children@, 0) =~= old(res)@ + spans_preorder(*x));
            }
            let mut j: usize = 0;
            while j < children.len()
                invariant
                    j <= children@.len(),
                    *x == StmtTree::Leaf(*lo, *hi, *children),
                    res@ + spans_preorder_seq(children@, j as int) == old(res)@ + spans_preorder(
                        *x,
                    ),
                decreases children@.len() - j,
            {
                proof {
                    broadcast use vstd::std_specs::vec::axiom_vec_index_decreases;
                    assert(decreases_to!(*x => *children));
                    assert(decreases_to!(*children => children[j as int]));
                }
                go(&children[j], res);
                j += 1;
            }
            proof {
                assert(res@ + Seq::<(u32, u32)>::empty() =~= res@);
            }
        },
    }
}

/// A parsed module: its top-level statement.
pub struct AstModule {
    pub statement: StmtTree,
}

impl AstModule {
    /// Locations where statements occur.
    pub fn stmt_locations(&self) -> (r: Vec<(u32, u32)>)
        ensures
            r@ == spans_preorder(self.statement),
    {
        let mut res: Vec<(u32, u32)> = Vec::new();
        go(&self.statement, &mut res);
        proof {
            assert(Seq::<(u32, u32)>::empty() + spans_preorder(self.statement) =~= spans_preorder(
                self.statement,
            ));
        }
        res
    }
}

} // verus!
