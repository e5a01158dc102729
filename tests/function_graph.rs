use graph_engine::function_graph::operation::{Arith, ArithOp, Body, OperationError};
use graph_engine::function_graph::variable::{Value, Variable, Variables};
use graph_engine::function_graph::{Error, FnGraph};

/// The bodies these tests schedule.
enum Job {
    Count(char),
    Copy { from: char, to: char },
    Send(char, std::sync::mpsc::SyncSender<i32>, i32),
    Relay(std::sync::mpsc::Receiver<i32>, std::sync::mpsc::SyncSender<i32>, i32),
    Receive(std::sync::mpsc::Receiver<i32>, char, i32),
    Math(Arith),
    Show(char),
    Divisible { from: char, to: char, by: i32 },
    Done,
    Nested(FnGraph<Job>, usize),
}

impl Body for Job {
    fn run(&self, bindings: &Vec<(char, Variable)>, vars: &mut Variables) -> Result<(), OperationError> {
        match self {
            Job::Count(name) => {
                let n = vars.read_named(bindings, *name).and_then(|v| v.as_int()).ok_or(OperationError::TypeMismatch)?;
                vars.write_named(bindings, *name, Value::Int(n + 1))
            }
            Job::Copy { from, to } => {
                let n = vars.read_named(bindings, *from).and_then(|v| v.as_int()).ok_or(OperationError::TypeMismatch)?;
                vars.write_named(bindings, *to, Value::Int(n))
            }
            Job::Send(name, sender, factor) => {
                if let Some(x) = vars.read_named(bindings, *name).and_then(|v| v.as_int()) {
                    sender.send(x * factor).map_err(|_| OperationError::Failed)?;
                }
                Ok(())
            }
            Job::Relay(receiver, sender, factor) => {
                if let Ok(x) = receiver.try_recv() {
                    sender.send(x * factor).map_err(|_| OperationError::Failed)?;
                }
                Ok(())
            }
            Job::Receive(receiver, name, offset) => {
                if let Ok(x) = receiver.try_recv() {
                    vars.write_named(bindings, *name, Value::Int(x + offset))?;
                }
                Ok(())
            }
            Job::Math(a) => {
                let r = a.run(bindings, vars);
                if let (Some(x), Some(y)) = (vars.read_named(bindings, a.from), vars.read_named(bindings, a.to)) {
                    println!("{:?} -> {:?}", x, y);
                }
                r
            }
            Job::Show(name) => {
                if let Some(v) = vars.read_named(bindings, *name) {
                    println!("{:?}", v);
                }
                Ok(())
            }
            Job::Divisible { from, to, by } => {
                let x = vars.read_named(bindings, *from).and_then(|v| v.as_int());
                if let Some(x) = x {
                    let flag = if x % by == 0 { 1 } else { 0 };
                    println!("{} divisible by {}: {}", x, by, flag);
                    vars.write_named(bindings, *to, Value::Int(flag))?;
                }
                Ok(())
            }
            Job::Done => {
                println!("Done!");
                Ok(())
            }
            Job::Nested(graph, start) => match graph.bfs(*start, vars) {
                Ok(_) => Ok(()),
                Err(_) => Err(OperationError::Failed),
            },
        }
    }
}

fn math(from: char, to: char, op: ArithOp) -> Job {
    Job::Math(Arith { from, to, op })
}

fn int_of(vars: &Variables, var: Variable) -> Option<i32> {
    vars.read(var).and_then(|v| v.as_int())
}

#[test]
fn test() {
    let mut vars = Variables::new();
    let a = vars.shared(Value::Int(0));
    let b = vars.shared(Value::Int(0));
    let c = vars.shared(Value::Int(0));
    let d = vars.shared(Value::Int(0));
    let e = vars.shared(Value::Text("hello".to_string()));
    let f = vars.shared(Value::Text("world".to_string()));

    let start = std::time::Instant::now();
    {
        if let Some(x) = int_of(&vars, a) {
            vars.write(b, Value::Int(x + 2)).unwrap();
            println!("{} = {} + 2", x + 2, x);
        }
        if let Some(x) = int_of(&vars, b) {
            vars.write(c, Value::Int(x * 4)).unwrap();
            println!("{} = {} * 4", x * 4, x);
        }
        if let Some(x) = int_of(&vars, c) {
            vars.write(d, Value::Int(x - 1)).unwrap();
            println!("{} = {} - 1", x - 1, x);
        }
        if let Some(s) = vars.read(e).and_then(|v| v.as_text()) {
            println!("{}", s);
        }
        if let Some(s) = vars.read(f).and_then(|v| v.as_text()) {
            println!("{}", s);
        }
    }
    let duration = start.elapsed();
    println!("Time taken to traverse the graph: {:?}", duration);
    assert_eq!(int_of(&vars, d), Some(7));
}

#[test]
fn test_function_graph() {
    let mut graph = FnGraph::<Job>::new();
    let mut vars = Variables::new();

    let a = vars.shared(Value::Int(0));
    let b = vars.shared(Value::Int(0));
    let c = vars.shared(Value::Int(0));
    let d = vars.shared(Value::Int(0));
    let e = vars.shared(Value::Text("hello".to_string()));
    let f = vars.shared(Value::Text("world".to_string()));

    graph.add_operation('a' as usize, vec![('a', a), ('b', b)], math('a', 'b', ArithOp::Add(2))).unwrap();
    graph.add_operation('b' as usize, vec![('b', b), ('c', c)], math('b', 'c', ArithOp::Mul(4))).unwrap();
    graph.add_operation('c' as usize, vec![('c', c), ('d', d)], math('c', 'd', ArithOp::Sub(1))).unwrap();
    graph.add_operation('d' as usize, vec![('e', e)], Job::Show('e')).unwrap();
    graph.add_operation('e' as usize, vec![('f', f)], Job::Show('f')).unwrap();
    graph.add_operation('f' as usize, vec![], Job::Done).unwrap();

    graph.add_edge('a' as usize, 'b' as usize, true).unwrap();
    graph.add_edge('b' as usize, 'c' as usize, true).unwrap();
    graph.add_edge('c' as usize, 'd' as usize, true).unwrap();
    graph.add_edge('d' as usize, 'e' as usize, true).unwrap();
    graph.add_edge('e' as usize, 'f' as usize, true).unwrap();

    let start = std::time::Instant::now();
    let order = graph.bfs('a' as usize, &mut vars).unwrap();
    let duration = start.elapsed();
    println!("Time taken to traverse the graph: {:?}", duration);
    let expected: Vec<usize> = "abcdef".chars().map(|ch| ch as usize).collect();
    assert_eq!(order, expected);
    assert_eq!(int_of(&vars, b), Some(2));
    assert_eq!(int_of(&vars, c), Some(8));
    assert_eq!(int_of(&vars, d), Some(7));
}

#[test]
fn test_string_equation_graph() {
    let mut graph = FnGraph::<Job>::new();
    let mut vars = Variables::new();

    let a = vars.shared(Value::Text("2".to_string()));
    let b = vars.shared(Value::Text("+".to_string()));
    let c = vars.shared(Value::Text("3".to_string()));
    let d = vars.shared(Value::Text("=".to_string()));
    let e = vars.shared(Value::Text("5".to_string()));

    graph.add_operation('a' as usize, vec![('a', a)], Job::Show('a')).unwrap();
    graph.add_operation('b' as usize, vec![('b', b)], Job::Show('b')).unwrap();
    graph.add_operation('c' as usize, vec![('c', c)], Job::Show('c')).unwrap();
    graph.add_operation('d' as usize, vec![('d', d)], Job::Show('d')).unwrap();
    graph.add_operation('e' as usize, vec![('e', e)], Job::Show('e')).unwrap();

    graph.add_edge('a' as usize, 'b' as usize, true).unwrap();
    graph.add_edge('b' as usize, 'c' as usize, true).unwrap();
    graph.add_edge('c' as usize, 'd' as usize, true).unwrap();
    graph.add_edge('d' as usize, 'e' as usize, true).unwrap();

    let start = std::time::Instant::now();
    let order = graph.bfs('a' as usize, &mut vars).unwrap();
    let duration = start.elapsed();
    println!("Time taken to traverse the graph: {:?}", duration);
    assert_eq!(order.len(), 5);
}

#[test]
fn test_function_graph_with_multiple_branches() {
    let mut graph = FnGraph::<Job>::new();
    let mut vars = Variables::new();
    let a = vars.shared(Value::Int(0));
    let b = vars.shared(Value::Int(0));
    let c = vars.shared(Value::Int(0));
    let d = vars.shared(Value::Int(0));
    let e = vars.shared(Value::Int(0));
    let f = vars.shared(Value::Int(0));
    let g = vars.shared(Value::Int(0));
    let h = vars.shared(Value::Int(0));
    let i = vars.shared(Value::Int(0));

    graph.add_operation('a' as usize, vec![('a', a), ('b', b)], math('a', 'b', ArithOp::Add(2))).unwrap();
    graph.add_operation('b' as usize, vec![('b', b), ('c', c)], math('b', 'c', ArithOp::Mul(4))).unwrap();
    graph.add_operation('c' as usize, vec![('c', c), ('d', d)], Job::Divisible { from: 'c', to: 'd', by: 3 }).unwrap();
    graph.add_operation('d' as usize, vec![('c', c), ('e', e)], math('c', 'e', ArithOp::Add(5))).unwrap();
    graph.add_operation('e' as usize, vec![('c', c), ('f', f)], math('c', 'f', ArithOp::Sub(2))).unwrap();
    graph.add_operation('f' as usize, vec![('e', e), ('g', g)], math('e', 'g', ArithOp::Mul(2))).unwrap();
    graph.add_operation('g' as usize, vec![('f', f), ('h', h)], math('f', 'h', ArithOp::Add(7))).unwrap();
    graph.add_operation('h' as usize, vec![('g', g), ('i', i)], math('g', 'i', ArithOp::Sub(1))).unwrap();

    graph.add_edge('a' as usize, 'b' as usize, true).unwrap();
    graph.add_edge('b' as usize, 'c' as usize, true).unwrap();
    graph.add_edge('c' as usize, 'd' as usize, true).unwrap();
    graph.add_edge('c' as usize, 'e' as usize, true).unwrap();
    graph.add_edge('d' as usize, 'f' as usize, true).unwrap();
    graph.add_edge('e' as usize, 'g' as usize, true).unwrap();
    graph.add_edge('f' as usize, 'h' as usize, true).unwrap();
    graph.add_edge('g' as usize, 'h' as usize, true).unwrap();

    let start = std::time::Instant::now();
    let order = graph.bfs('a' as usize, &mut vars).unwrap();
    let duration = start.elapsed();
    println!("Time taken to traverse the graph: {:?}", duration);
    let expected: Vec<usize> = "abcdefgh".chars().map(|ch| ch as usize).collect();
    assert_eq!(order, expected);
    assert_eq!(int_of(&vars, c), Some(8));
    assert_eq!(int_of(&vars, d), Some(0));
    assert_eq!(int_of(&vars, e), Some(13));
    assert_eq!(int_of(&vars, f), Some(6));
    assert_eq!(int_of(&vars, g), Some(26));
    assert_eq!(int_of(&vars, h), Some(13));
    assert_eq!(int_of(&vars, i), Some(25));
}

#[test]
fn test_function_subgraph() {
    let mut graph = FnGraph::<Job>::new();
    let mut sub_graph = FnGraph::<Job>::new();
    let mut vars = Variables::new();

    let a = vars.shared(Value::Char('a'));
    let b = vars.shared(Value::Char('b'));
    let c = vars.shared(Value::Char('c'));
    let d = vars.shared(Value::Char('d'));

    sub_graph.add_operation('a' as usize, vec![('a', a)], Job::Show('a')).unwrap();
    sub_graph.add_operation('b' as usize, vec![('b', b)], Job::Show('b')).unwrap();
    sub_graph.add_operation('c' as usize, vec![('c', c)], Job::Show('c')).unwrap();
    sub_graph.add_operation('d' as usize, vec![('d', d)], Job::Show('d')).unwrap();

    sub_graph.add_edge('a' as usize, 'b' as usize, true).unwrap();
    sub_graph.add_edge('b' as usize, 'c' as usize, true).unwrap();
    sub_graph.add_edge('c' as usize, 'd' as usize, true).unwrap();

    graph.add_operation('a' as usize, vec![], Job::Nested(sub_graph, 'a' as usize)).unwrap();

    let start = std::time::Instant::now();
    let order = graph.bfs('a' as usize, &mut vars).unwrap();
    let duration = start.elapsed();
    println!("Time taken to traverse the graph: {:?}", duration);
    assert_eq!(order, vec!['a' as usize]);
}

#[test]
fn chain_composes_each_step() {
    let mut graph = FnGraph::<Arith>::new();
    let mut vars = Variables::new();
    let a = vars.shared(Value::Int(0));
    let b = vars.shared(Value::Int(0));
    let c = vars.shared(Value::Int(0));
    let d = vars.shared(Value::Int(0));
    let e = vars.shared(Value::Int(0));
    graph.add_operation(0, vec![('x', a), ('y', b)], Arith { from: 'x', to: 'y', op: ArithOp::Add(2) }).unwrap();
    graph.add_operation(1, vec![('x', b), ('y', c)], Arith { from: 'x', to: 'y', op: ArithOp::Mul(4) }).unwrap();
    graph.add_operation(2, vec![('x', c), ('y', d)], Arith { from: 'x', to: 'y', op: ArithOp::Sub(1) }).unwrap();
    graph.add_operation(3, vec![('x', d), ('y', e)], Arith { from: 'x', to: 'y', op: ArithOp::Add(0) }).unwrap();
    graph.add_edge(0, 1, true).unwrap();
    graph.add_edge(1, 2, true).unwrap();
    graph.add_edge(2, 3, true).unwrap();
    assert_eq!(graph.bfs(0, &mut vars).unwrap(), vec![0, 1, 2, 3]);
    assert_eq!(int_of(&vars, b), Some(2));
    assert_eq!(int_of(&vars, c), Some(8));
    assert_eq!(int_of(&vars, d), Some(7));
    assert_eq!(int_of(&vars, e), Some(7));
}

#[test]
fn failing_operation_stops_the_run() {
    let mut graph = FnGraph::<Arith>::new();
    let mut vars = Variables::new();
    let a = vars.shared(Value::Int(0));
    let b = vars.shared(Value::Int(0));
    let c = vars.shared(Value::Int(0));
    graph.add_operation(0, vec![('x', a), ('y', b)], Arith { from: 'x', to: 'y', op: ArithOp::Add(2) }).unwrap();
    graph.add_operation(1, vec![], Arith { from: 'x', to: 'y', op: ArithOp::Add(1) }).unwrap();
    graph.add_operation(2, vec![('x', b), ('y', c)], Arith { from: 'x', to: 'y', op: ArithOp::Mul(4) }).unwrap();
    graph.add_edge(0, 1, true).unwrap();
    graph.add_edge(1, 2, true).unwrap();
    assert_eq!(graph.bfs(0, &mut vars), Err(Error::OperationError(OperationError::UnboundName)));
    assert_eq!(int_of(&vars, b), Some(2));
    assert_eq!(int_of(&vars, c), Some(0));
}

#[test]
fn disabled_edge_skips_its_target() {
    let mut graph = FnGraph::<Arith>::new();
    let mut vars = Variables::new();
    let a = vars.shared(Value::Int(0));
    let b = vars.shared(Value::Int(0));
    let c = vars.shared(Value::Int(0));
    let d = vars.shared(Value::Int(0));
    graph.add_operation(0, vec![('x', a), ('y', b)], Arith { from: 'x', to: 'y', op: ArithOp::Add(2) }).unwrap();
    graph.add_operation(1, vec![('x', b), ('y', c)], Arith { from: 'x', to: 'y', op: ArithOp::Mul(4) }).unwrap();
    graph.add_operation(2, vec![('x', c), ('y', d)], Arith { from: 'x', to: 'y', op: ArithOp::Sub(1) }).unwrap();
    graph.add_edge(0, 1, true).unwrap();
    graph.add_edge(1, 2, false).unwrap();
    let order = graph.bfs(0, &mut vars).unwrap();
    assert_eq!(order, vec![0, 1]);
    assert_eq!(int_of(&vars, c), Some(8));
    assert_eq!(int_of(&vars, d), Some(0));
}

#[test]
fn dfs_runs_depth_first() {
    let mut graph = FnGraph::<Arith>::new();
    let mut vars = Variables::new();
    let a = vars.shared(Value::Int(1));
    let b = vars.shared(Value::Int(0));
    let op = Arith { from: 'x', to: 'y', op: ArithOp::Add(1) };
    for id in 0..4 {
        graph.add_operation(id, vec![('x', a), ('y', b)], op).unwrap();
    }
    graph.add_edge(0, 1, true).unwrap();
    graph.add_edge(0, 2, true).unwrap();
    graph.add_edge(1, 3, true).unwrap();
    let order = graph.dfs(0, &mut vars).unwrap();
    assert_eq!(order, vec![0, 2, 1, 3]);
    let order = graph.bfs(0, &mut vars).unwrap();
    assert_eq!(order, vec![0, 1, 2, 3]);
    assert_eq!(int_of(&vars, b), Some(2));
}

#[test]
fn start_outside_graph_runs_nothing() {
    let mut graph = FnGraph::<Arith>::new();
    let mut vars = Variables::new();
    let a = vars.shared(Value::Int(1));
    graph.add_operation(0, vec![('x', a), ('y', a)], Arith { from: 'x', to: 'y', op: ArithOp::Add(1) }).unwrap();
    assert_eq!(graph.bfs(5, &mut vars).unwrap(), Vec::<usize>::new());
    assert_eq!(int_of(&vars, a), Some(1));
}

#[test]
fn arith_errors() {
    let mut graph = FnGraph::<Arith>::new();
    let mut vars = Variables::new();
    let big = vars.shared(Value::Int(i32::MAX));
    let text = vars.shared(Value::Text("x".to_string()));
    let out = vars.shared(Value::Int(0));
    let mut larger = Variables::new();
    let mut foreign = larger.shared(Value::Int(0));
    for _ in 0..5 {
        foreign = larger.shared(Value::Int(0));
    }
    graph.add_operation(0, vec![('x', big), ('y', out)], Arith { from: 'x', to: 'y', op: ArithOp::Add(1) }).unwrap();
    graph.add_operation(1, vec![('x', text), ('y', out)], Arith { from: 'x', to: 'y', op: ArithOp::Add(1) }).unwrap();
    graph.add_operation(2, vec![('x', foreign), ('y', out)], Arith { from: 'x', to: 'y', op: ArithOp::Add(1) }).unwrap();
    graph.add_operation(3, vec![('x', big), ('y', out)], Arith { from: 'x', to: 'y', op: ArithOp::Mul(-1) }).unwrap();
    assert_eq!(graph.bfs(0, &mut vars), Err(Error::OperationError(OperationError::Overflow)));
    assert_eq!(graph.bfs(1, &mut vars), Err(Error::OperationError(OperationError::TypeMismatch)));
    assert_eq!(graph.bfs(2, &mut vars), Err(Error::OperationError(OperationError::UnknownVariable)));
    assert_eq!(graph.bfs(3, &mut vars).unwrap(), vec![3]);
    assert_eq!(int_of(&vars, out), Some(-i32::MAX));
}

#[test]
fn owned_variable_binds_once() {
    let mut graph = FnGraph::<Arith>::new();
    let mut vars = Variables::new();
    let own = vars.owned(Value::Int(3));
    let op = Arith { from: 'x', to: 'x', op: ArithOp::Add(1) };
    assert_eq!(
        graph.add_operation(0, vec![('x', own), ('y', own)], op),
        Err(Error::OperationError(OperationError::OwnedVariableRebound))
    );
    assert!(graph.add_operation(0, vec![('x', own)], op).is_ok());
    assert_eq!(
        graph.add_operation(1, vec![('x', own)], op),
        Err(Error::OperationError(OperationError::OwnedVariableRebound))
    );
    let shared = vars.shared(Value::Int(0));
    assert!(graph.add_operation(1, vec![('x', shared)], op).is_ok());
    assert!(graph.add_operation(2, vec![('x', shared)], op).is_ok());
    assert_eq!(graph.bfs(0, &mut vars).unwrap(), vec![0]);
    assert_eq!(int_of(&vars, own), Some(4));
}

#[test]
fn edge_needs_both_operations() {
    let mut graph = FnGraph::<Arith>::new();
    graph.add_operation(0, vec![], Arith { from: 'x', to: 'y', op: ArithOp::Add(1) }).unwrap();
    assert_eq!(graph.add_edge(0, 1, true), Err(Error::GraphError(graph_engine::graph::GraphError::EdgeEndpointMissing)));
}

#[test]
fn named_access_reports_unbound_names() {
    let mut vars = Variables::new();
    let a = vars.shared(Value::Bool(true));
    let bindings = vec![('a', a)];
    assert_eq!(vars.read_named(&bindings, 'a').and_then(|v| v.as_bool()), Some(true));
    assert!(vars.read_named(&bindings, 'z').is_none());
    assert_eq!(vars.write_named(&bindings, 'z', Value::Int(1)), Err(OperationError::UnboundName));
    assert!(vars.write_named(&bindings, 'a', Value::Char('q')).is_ok());
    assert_eq!(vars.read(a).and_then(|v| v.as_char()), Some('q'));
    assert_eq!(vars.read(a).and_then(|v| v.as_int()), None);
}

#[test]
fn test_mpsc_graph() {
    let mut graph = FnGraph::<Job>::new();
    let mut vars = Variables::new();
    let a = vars.shared(Value::Int(4));
    let c = vars.shared(Value::Int(0));
    let (a_sender, b_receiver) = std::sync::mpsc::sync_channel::<i32>(1);
    let (b_sender, c_receiver) = std::sync::mpsc::sync_channel::<i32>(1);
    graph.add_operation('a' as usize, vec![('a', a)], Job::Send('a', a_sender, 2)).unwrap();
    graph.add_operation('b' as usize, vec![], Job::Relay(b_receiver, b_sender, 3)).unwrap();
    graph.add_operation('c' as usize, vec![('c', c)], Job::Receive(c_receiver, 'c', 1)).unwrap();
    graph.add_edge('a' as usize, 'b' as usize, true).unwrap();
    graph.add_edge('b' as usize, 'c' as usize, true).unwrap();
    let start = std::time::Instant::now();
    graph.bfs('a' as usize, &mut vars).unwrap();
    let duration = start.elapsed();
    println!("Time taken to traverse the graph: {:?}", duration);
    println!("a: {}", int_of(&vars, a).unwrap());
    println!("c: {}", int_of(&vars, c).unwrap());
    assert_eq!(int_of(&vars, a), Some(4));
    assert_eq!(int_of(&vars, c), Some(25));
}

#[test]
fn cycle_runs_each_reachable_operation_once() {
    let mut graph = FnGraph::<Job>::new();
    let mut vars = Variables::new();
    let counters: Vec<Variable> = (0..4).map(|_| vars.shared(Value::Int(0))).collect();
    for (k, name) in ['a', 'b', 'c', 'd'].iter().enumerate() {
        graph.add_operation(*name as usize, vec![('n', counters[k])], Job::Count('n')).unwrap();
    }
    graph.add_edge('a' as usize, 'b' as usize, true).unwrap();
    graph.add_edge('b' as usize, 'c' as usize, true).unwrap();
    graph.add_edge('c' as usize, 'a' as usize, true).unwrap();
    let order = graph.bfs('b' as usize, &mut vars).unwrap();
    assert_eq!(order, vec!['b' as usize, 'c' as usize, 'a' as usize]);
    assert_eq!(int_of(&vars, counters[0]), Some(1));
    assert_eq!(int_of(&vars, counters[1]), Some(1));
    assert_eq!(int_of(&vars, counters[2]), Some(1));
    assert_eq!(int_of(&vars, counters[3]), Some(0));
}

#[test]
fn two_readers_see_the_same_value() {
    let mut graph = FnGraph::<Job>::new();
    let mut vars = Variables::new();
    let v = vars.shared(Value::Int(5));
    let p = vars.shared(Value::Int(0));
    let q = vars.shared(Value::Int(0));
    graph.add_operation('a' as usize, vec![('v', v), ('p', p)], Job::Copy { from: 'v', to: 'p' }).unwrap();
    graph.add_operation('b' as usize, vec![('v', v), ('q', q)], Job::Copy { from: 'v', to: 'q' }).unwrap();
    graph.add_edge('a' as usize, 'b' as usize, true).unwrap();
    graph.bfs('a' as usize, &mut vars).unwrap();
    assert_eq!(int_of(&vars, v), Some(5));
    assert_eq!(int_of(&vars, p), Some(5));
    assert_eq!(int_of(&vars, q), Some(5));
}
