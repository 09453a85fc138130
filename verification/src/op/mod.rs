use vstd::prelude::*;

verus! {

/// The closed set of operation kinds a graph node can carry. Constants and
/// variables are leaves whose value is materialized at creation time; a
/// placeholder is a leaf whose value arrives only at execution time; the
/// rest are the binary elementwise arithmetic kinds.
#[derive(Clone, Copy, Debug, PartialEq, Eq, Structural)]
pub enum Operation {
    Constant,
    Variable,
    Placeholder,
    Add,
    Sub,
    Mul,
    Div,
}

/// A node kind whose value is resident before execution starts or is bound
/// from the execution inputs, never computed by a kernel.
pub open spec fn is_leaf_op(op: Operation) -> bool {
    op == Operation::Constant || op == Operation::Variable || op == Operation::Placeholder
}

/// A node kind computed by a binary elementwise kernel.
pub open spec fn is_binary_op(op: Operation) -> bool {
    !is_leaf_op(op)
}

} // verus!
