use vstd::prelude::*;

use crate::function_graph::operation::OperationError;

verus! {

/// A value a variable can hold: one of the kinds the executor supports.
#[derive(Debug)]
pub enum Value {
    Int(i32),
    Char(char),
    Bool(bool),
    Text(String),
}

impl Value {
    /// The value as an integer; `None` when it holds another kind.
    pub fn as_int(&self) -> (r: Option<i32>)
        ensures
            r == match *self {
                Value::Int(n) => Some(n),
                _ => None,
            },
    {
        match self {
            Value::Int(n) => Some(*n),
            _ => None,
        }
    }

    /// The value as a character; `None` when it holds another kind.
    pub fn as_char(&self) -> (r: Option<char>)
        ensures
            r == match *self {
                Value::Char(c) => Some(c),
                _ => None,
            },
    {
        match self {
            Value::Char(c) => Some(*c),
            _ => None,
        }
    }

    /// The value as a boolean; `None` when it holds another kind.
    pub fn as_bool(&self) -> (r: Option<bool>)
        ensures
            r == match *self {
                Value::Bool(b) => Some(b),
                _ => None,
            },
    {
        match self {
            Value::Bool(b) => Some(*b),
            _ => None,
        }
    }

    /// The value as text; `None` when it holds another kind.
    pub fn as_text(&self) -> (r: Option<&String>)
        ensures
            match *self {
                Value::Text(s) => r == Some(&s),
                _ => r.is_none(),
            },
    {
        match self {
            Value::Text(s) => Some(s),
            _ => None,
        }
    }
}

/// How a variable may be bound: by any number of operations, or by one.
#[derive(Debug, Clone, Copy, PartialEq, Eq, Structural)]
pub enum Access {
    Shared,
    Owned,
}

/// A handle on a variable of a `Variables` arena. Only an arena makes
/// handles: an owned one can be bound by one operation of a graph alone.
#[derive(Debug, Clone, Copy, PartialEq, Eq, Structural)]
#[non_exhaustive]
pub struct Variable {
    pub index: usize,
    pub access: Access,
}

/// The arena that holds the variables' values; operations hold handles into it.
pub struct Variables {
    pub(crate) cells: Vec<Value>,
}

impl View for Variables {
    type V = Seq<Value>;

    closed spec fn view(&self) -> Seq<Value> {
        self.cells@
    }
}

/// The handle bound under `name`, if any.
pub open spec fn binding_of(bindings: Seq<(char, Variable)>, name: char) -> Option<Variable>
    decreases bindings.len(),
{
    if bindings.len() == 0 {
        None
    } else if bindings[0].0 == name {
        Some(bindings[0].1)
    } else {
        binding_of(bindings.drop_first(), name)
    }
}

/// Some binding of `bindings` refers to the cell at `index`.
pub open spec fn binds(bindings: Seq<(char, Variable)>, index: int) -> bool {
    exists|j: int| 0 <= j < bindings.len() && #[trigger] bindings[j].1.index == index
}

/// A handle found under a name is one of the bindings.
pub proof fn lemma_binding_is_bound(bindings: Seq<(char, Variable)>, name: char)
    ensures
        binding_of(bindings, name) is Some ==> binds(bindings, binding_of(bindings, name)->Some_0.index as int),
    decreases bindings.len(),
{
    if bindings.len() > 0 && bindings[0].0 != name {
        let t = bindings.drop_first();
        lemma_binding_is_bound(t, name);
        if binding_of(t, name) is Some {
            let j = choose|j: int| 0 <= j < t.len() && #[trigger] t[j].1.index == binding_of(t, name)->Some_0.index as int;
            assert(bindings[j + 1].1.index == t[j].1.index);
        }
    } else if bindings.len() > 0 {
        assert(bindings[0].1.index == bindings[0].1.index);
    }
}

/// The handle bound under `name` in `bindings`, the first one if several are.
pub fn find_binding(bindings: &Vec<(char, Variable)>, name: char) -> (r: Option<Variable>)
    ensures
        r == binding_of(bindings@, name),
{
    let mut i: usize = 0;
    proof {
        assert(bindings@.subrange(0, bindings@.len() as int) =~= bindings@);
    }
    while i < bindings.len()
        invariant
            i <= bindings@.len(),
            binding_of(bindings@, name) == binding_of(bindings@.subrange(i as int, bindings@.len() as int), name),
        decreases bindings.len() - i,
    {
        let ghost rest = bindings@.subrange(i as int, bindings@.len() as int);
        if bindings[i].0 == name {
            return Some(bindings[i].1);
        }
        proof {
            assert(rest.drop_first() =~= bindings@.subrange(i + 1, bindings@.len() as int));
        }
        i = i + 1;
    }
    None
}

impl Variables {
    pub fn new() -> (r: Variables)
        ensures
            r@ == Seq::<Value>::empty(),
    {
        Variables { cells: Vec::new() }
    }

    /// Adds a variable that any number of operations may bind.
    pub fn shared(&mut self, value: Value) -> (r: Variable)
        ensures
            final(self)@ == old(self)@.push(value),
            r == (Variable { index: old(self)@.len() as usize, access: Access::Shared }),
    {
        let index = self.cells.len();
        self.cells.push(value);
        Variable { index, access: Access::Shared }
    }

    /// Adds a variable that one operation alone may bind.
    pub fn owned(&mut self, value: Value) -> (r: Variable)
        ensures
            final(self)@ == old(self)@.push(value),
            r == (Variable { index: old(self)@.len() as usize, access: Access::Owned }),
    {
        let index = self.cells.len();
        self.cells.push(value);
        Variable { index, access: Access::Owned }
    }

    pub fn len(&self) -> (r: usize)
        ensures
            r == self@.len(),
    {
        self.cells.len()
    }

    /// The value of `var`; `None` when the handle is not of this arena.
    pub fn read(&self, var: Variable) -> (r: Option<&Value>)
        ensures
            match r {
                Some(v) => var.index < self@.len() && *v == self@[var.index as int],
                None => var.index >= self@.len(),
            },
    {
        if var.index < self.cells.len() {
            Some(&self.cells[var.index])
        } else {
            None
        }
    }

    /// Replaces the value of `var`.
    pub fn write(&mut self, var: Variable, value: Value) -> (r: Result<(), OperationError>)
        ensures
            r is Ok <==> var.index < old(self)@.len(),
            r is Ok ==> final(self)@ == old(self)@.update(var.index as int, value),
            r is Err ==> final(self)@ == old(self)@ && r == Err::<(), OperationError>(OperationError::UnknownVariable),
    {
        if var.index < self.cells.len() {
            self.cells.set(var.index, value);
            Ok(())
        } else {
            Err(OperationError::UnknownVariable)
        }
    }

    /// The value bound under `name`; `None` when the name is unbound or its
    /// handle is not of this arena.
    pub fn read_named(&self, bindings: &Vec<(char, Variable)>, name: char) -> (r: Option<&Value>)
        ensures
            match r {
                Some(v) => binding_of(bindings@, name) is Some
                    && binding_of(bindings@, name).unwrap().index < self@.len()
                    && *v == self@[binding_of(bindings@, name).unwrap().index as int],
                None => binding_of(bindings@, name) is None
                    || binding_of(bindings@, name).unwrap().index >= self@.len(),
            },
    {
        match find_binding(bindings, name) {
            Some(var) => self.read(var),
            None => None,
        }
    }

    /// Replaces the value bound under `name`.
    pub fn write_named(&mut self, bindings: &Vec<(char, Variable)>, name: char, value: Value) -> (r: Result<(), OperationError>)
        ensures
            match binding_of(bindings@, name) {
                Some(var) => if var.index < old(self)@.len() {
                    r is Ok && final(self)@ == old(self)@.update(var.index as int, value)
                } else {
                    r == Err::<(), OperationError>(OperationError::UnknownVariable) && final(self)@ == old(self)@
                },
                None => r == Err::<(), OperationError>(OperationError::UnboundName) && final(self)@ == old(self)@,
            },
    {
        match find_binding(bindings, name) {
            Some(var) => self.write(var, value),
            None => Err(OperationError::UnboundName),
        }
    }
}

} // verus!
