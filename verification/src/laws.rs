//! Construction laws: facts that hold of every graph built through `new`,
//! `add` and `connect`, stated over the same adjacency models that those
//! functions' contracts use.

use crate::graphs::{add_model, connect_model, connect_record, new_model, GraphEdge};
use vstd::prelude::*;

verus! {

/// One construction step of a graph: adding a vertex, or connecting two
/// existing vertices with a weighted record.
pub enum GraphOp {
    AddVertex,
    Connect { value: usize, sender: usize, receiver: usize, invert: bool },
}

/// The adjacency lists after replaying `ops`, oldest first, on `a`. A
/// connect step only applies when both its endpoints name existing vertices,
/// exactly the precondition under which `connect` may be called.
pub open spec fn apply_ops(a: Seq<Seq<GraphEdge>>, ops: Seq<GraphOp>) -> Seq<Seq<GraphEdge>>
    decreases ops.len(),
{
    if ops.len() == 0 {
        a
    } else {
        let rest = apply_ops(a, ops.drop_last());
        match ops.last() {
            GraphOp::AddVertex => add_model(rest),
            GraphOp::Connect { value, sender, receiver, invert } => {
                if sender < rest.len() && receiver < rest.len() {
                    connect_model(rest, value, sender, receiver, invert)
                } else {
                    rest
                }
            },
        }
    }
}

/// How many of the replayed steps added a vertex.
pub open spec fn count_adds(ops: Seq<GraphOp>) -> int
    decreases ops.len(),
{
    if ops.len() == 0 {
        0
    } else {
        count_adds(ops.drop_last()) + match ops.last() {
            GraphOp::AddVertex => 1int,
            GraphOp::Connect { .. } => 0int,
        }
    }
}

/// However a graph is built — `new`, then any sequence of `add` and
/// `connect` calls — its vertex count equals one (the initial vertex) plus
/// the number of `add` calls, and in particular is never zero, so `is_empty`
/// answers false on every such graph.
pub proof fn law_vertex_count(ops: Seq<GraphOp>)
    ensures
        count_adds(ops) >= 0,
        apply_ops(new_model(), ops).len() == 1 + count_adds(ops),
        apply_ops(new_model(), ops).len() > 0,
    decreases ops.len(),
{
    if ops.len() > 0 {
        law_vertex_count(ops.drop_last());
        let rest = apply_ops(new_model(), ops.drop_last());
        match ops.last() {
            GraphOp::AddVertex => {
                assert(apply_ops(new_model(), ops) == add_model(rest));
                assert(add_model(rest).len() == rest.len() + 1);
                assert(count_adds(ops) == count_adds(ops.drop_last()) + 1);
                assert(apply_ops(new_model(), ops).len() == 1 + count_adds(ops));
            }
            GraphOp::Connect { value, sender, receiver, invert } => {
                assert(count_adds(ops) == count_adds(ops.drop_last()));
                if sender < rest.len() && receiver < rest.len() {
                    assert(connect_model(rest, value, sender, receiver, invert).len()
                        == rest.len());
                }
                assert(apply_ops(new_model(), ops).len() == 1 + count_adds(ops));
            }
        }
    } else {
        assert(apply_ops(new_model(), ops) == new_model());
        assert(new_model().len() == 1);
        assert(count_adds(ops) == 0);
    }
}

/// After one `connect`, both endpoints' adjacency lists contain the new
/// record: endpoints `(sender, receiver)` when `invert` is false,
/// `(receiver, sender)` when it is true, carrying the given weight.
pub proof fn law_connect_records(
    a: Seq<Seq<GraphEdge>>,
    value: usize,
    sender: usize,
    receiver: usize,
    invert: bool,
)
    requires
        sender < a.len(),
        receiver < a.len(),
    ensures
        connect_model(a, value, sender, receiver, invert)[sender as int].contains(
            connect_record(value, sender, receiver, invert),
        ),
        connect_model(a, value, sender, receiver, invert)[receiver as int].contains(
            connect_record(value, sender, receiver, invert),
        ),
{
    let rec = connect_record(value, sender, receiver, invert);
    let c = connect_model(a, value, sender, receiver, invert);
    assert(c[receiver as int][c[receiver as int].len() - 1] == rec);
    if sender != receiver {
        let b = a.update(sender as int, a[sender as int].push(rec));
        assert(c[sender as int] == b[sender as int]);
        assert(c[sender as int][c[sender as int].len() - 1] == rec);
    }
}

} // verus!
