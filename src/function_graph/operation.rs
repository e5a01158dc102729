use vstd::prelude::*;

use crate::function_graph::variable::{Value, Variable, Variables, binding_of, binds, lemma_binding_is_bound};

verus! {

/// Why an operation failed.
#[derive(Debug, Clone, Copy, PartialEq, Eq, Structural)]
pub enum OperationError {
    /// A name the body used is not among the operation's bindings.
    UnboundName,
    /// A handle does not belong to the arena.
    UnknownVariable,
    /// A variable holds another kind of value than the body reads.
    TypeMismatch,
    /// An arithmetic result does not fit.
    Overflow,
    /// An owned variable is bound by a second operation, or twice by one.
    OwnedVariableRebound,
    /// A failure the body reports for its own reasons.
    Failed,
}

/// Every cell that no binding refers to keeps its value.
pub open spec fn frame(bindings: Seq<(char, Variable)>, before: Seq<Value>, after: Seq<Value>) -> bool {
    forall|i: int| 0 <= i < before.len() && !binds(bindings, i) ==> #[trigger] after[i] == before[i]
}

/// The computation of an operation, which may touch only the cells its
/// bindings refer to. `run` sees the arena and the operation's
/// bindings, and leaves every handle valid; `effect` is what it promises
/// besides, nothing unless an implementation states more.
pub trait Body {
    open spec fn effect(
        &self,
        bindings: Seq<(char, Variable)>,
        before: Seq<Value>,
        after: Seq<Value>,
        r: Result<(), OperationError>,
    ) -> bool {
        true
    }

    fn run(&self, bindings: &Vec<(char, Variable)>, vars: &mut Variables) -> (r: Result<(), OperationError>)
        ensures
            final(vars)@.len() == old(vars)@.len(),
            frame(bindings@, old(vars)@, final(vars)@),
            self.effect(bindings@, old(vars)@, final(vars)@, r),
    ;
}

/// A unit of computation: named variable bindings fixed at construction, and a body.
pub struct Operation<B> {
    pub(crate) variables: Vec<(char, Variable)>,
    pub(crate) function: B,
}

impl<B: Body> Operation<B> {
    pub closed spec fn bindings(&self) -> Seq<(char, Variable)> {
        self.variables@
    }

    pub closed spec fn body(&self) -> B {
        self.function
    }

    pub fn new(variables: Vec<(char, Variable)>, function: B) -> (r: Self)
        ensures
            r.bindings() == variables@,
            r.body() == function,
    {
        Operation { variables, function }
    }

    /// What one execution of this operation does to the arena.
    pub open spec fn spec_effect(&self, before: Seq<Value>, after: Seq<Value>, r: Result<(), OperationError>) -> bool {
        &&& after.len() == before.len()
        &&& frame(self.bindings(), before, after)
        &&& self.body().effect(self.bindings(), before, after, r)
    }

    /// Runs the body on this operation's bindings.
    pub fn execute(&self, vars: &mut Variables) -> (r: Result<(), OperationError>)
        ensures
            self.spec_effect(old(vars)@, final(vars)@, r),
    {
        self.function.run(&self.variables, vars)
    }
}

/// An arithmetic step on integers.
#[derive(Debug, Clone, Copy, PartialEq, Eq, Structural)]
pub enum ArithOp {
    Add(i32),
    Sub(i32),
    Mul(i32),
}

/// The result of `op` on `x`, when it fits in an `i32`.
pub open spec fn arith(op: ArithOp, x: i32) -> Option<i32> {
    let v: int = match op {
        ArithOp::Add(k) => x + k,
        ArithOp::Sub(k) => x - k,
        ArithOp::Mul(k) => x * k,
    };
    if i32::MIN <= v <= i32::MAX {
        Some(v as i32)
    } else {
        None
    }
}

/// A body that reads the integer bound under `from` and writes `op` of it
/// under `to`.
#[derive(Debug, Clone, Copy, PartialEq, Eq, Structural)]
pub struct Arith {
    pub from: char,
    pub to: char,
    pub op: ArithOp,
}

/// The integer that `name` holds under `bindings` in `vals`, if it holds one.
pub open spec fn int_at(bindings: Seq<(char, Variable)>, vals: Seq<Value>, name: char) -> Option<i32> {
    match binding_of(bindings, name) {
        Some(var) => if var.index < vals.len() {
            match vals[var.index as int] {
                Value::Int(n) => Some(n),
                _ => None,
            }
        } else {
            None
        },
        None => None,
    }
}

impl Body for Arith {
    /// Fails with `UnboundName` or `UnknownVariable` when `from` or `to` has no
    /// variable, with `TypeMismatch` when `from` holds no integer, with
    /// `Overflow` when the result does not fit; else writes the result.
    open spec fn effect(
        &self,
        bindings: Seq<(char, Variable)>,
        before: Seq<Value>,
        after: Seq<Value>,
        r: Result<(), OperationError>,
    ) -> bool {
        let src = binding_of(bindings, self.from);
        let dst = binding_of(bindings, self.to);
        if src is None || dst is None {
            r == Err::<(), OperationError>(OperationError::UnboundName) && after == before
        } else if src.unwrap().index >= before.len() || dst.unwrap().index >= before.len() {
            r == Err::<(), OperationError>(OperationError::UnknownVariable) && after == before
        } else if int_at(bindings, before, self.from) is None {
            r == Err::<(), OperationError>(OperationError::TypeMismatch) && after == before
        } else if arith(self.op, int_at(bindings, before, self.from).unwrap()) is None {
            r == Err::<(), OperationError>(OperationError::Overflow) && after == before
        } else {
            r is Ok && after == before.update(
                dst.unwrap().index as int,
                Value::Int(arith(self.op, int_at(bindings, before, self.from).unwrap()).unwrap()),
            )
        }
    }

    fn run(&self, bindings: &Vec<(char, Variable)>, vars: &mut Variables) -> (r: Result<(), OperationError>) {
        let src = match crate::function_graph::variable::find_binding(bindings, self.from) {
            Some(v) => v,
            None => return Err(OperationError::UnboundName),
        };
        let dst = match crate::function_graph::variable::find_binding(bindings, self.to) {
            Some(v) => v,
            None => return Err(OperationError::UnboundName),
        };
        if src.index >= vars.len() || dst.index >= vars.len() {
            return Err(OperationError::UnknownVariable);
        }
        let x = match vars.read(src) {
            Some(v) => match v.as_int() {
                Some(n) => n,
                None => return Err(OperationError::TypeMismatch),
            },
            None => return Err(OperationError::UnknownVariable),
        };
        let y = match self.op {
            ArithOp::Add(k) => x.checked_add(k),
            ArithOp::Sub(k) => x.checked_sub(k),
            ArithOp::Mul(k) => x.checked_mul(k),
        };
        proof {
            lemma_binding_is_bound(bindings@, self.to);
        }
        match y {
            Some(y) => vars.write(dst, Value::Int(y)),
            None => Err(OperationError::Overflow),
        }
    }
}

} // verus!
