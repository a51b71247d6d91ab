//! The evaluator: from a syntax tree and an environment to a number.
//!
//! Numbers are of a type that the caller chooses. What the evaluator
//! returns is stated over an [`Environment`]: the relations between what
//! goes into the caller's arithmetic and functions and what may come out.

use crate::parse::ast::{trees, Binary, Node, Tree, Unary};
use vstd::prelude::*;

verus! {

/// The ways in which evaluating a syntax tree can fail.
#[derive(Debug, Copy, Clone, PartialEq, Eq, Structural)]
pub enum EvalError {
    /// A name is used as a variable that the environment does not bind.
    NameNotFound,
    /// A name is called as a function that the environment does not bind.
    FunctionNotFound,
}

impl EvalError {
    /// The words of the error.
    pub open spec fn text(self) -> Seq<char> {
        match self {
            EvalError::NameNotFound => "name not found"@,
            EvalError::FunctionNotFound => "function not found"@,
        }
    }

    /// The error, told in words.
    pub fn message(&self) -> (text: String)
        ensures
            text@ == self.text(),
    {
        match self {
            EvalError::NameNotFound => "name not found".to_owned(),
            EvalError::FunctionNotFound => "function not found".to_owned(),
        }
    }
}

/// One step of arithmetic, handed to the evaluator's arithmetic to carry
/// out in the number type of its choice.
pub enum Operation<N> {
    /// The number that a constant's text denotes.
    Constant(String),
    /// A sign applied to a number.
    Unary(Unary, N),
    /// A binary operator applied to a left and a right number.
    Binary(Binary, N, N),
}

/// The mathematical content of an [`Operation`]: a constant is taken by
/// its text.
pub enum Step<N> {
    Constant(Seq<char>),
    Unary(Unary, N),
    Binary(Binary, N, N),
}

impl<N> View for Operation<N> {
    type V = Step<N>;

    open spec fn view(&self) -> Step<N> {
        match self {
            Operation::Constant(literal) => Step::Constant(literal@),
            Operation::Unary(op, x) => Step::Unary(*op, *x),
            Operation::Binary(op, x, y) => Step::Binary(*op, *x, *y),
        }
    }
}

/// What an evaluation goes by. The arithmetic and the functions are taken
/// as relations between what goes in and what may come out, so that
/// nothing is assumed of how they compute.
#[verifier::reject_recursive_types(N)]
pub struct Environment<N> {
    /// Can this step of arithmetic give this number?
    pub arithmetic: spec_fn(Step<N>, N) -> bool,
    /// The variables, by name.
    pub variables: Map<Seq<char>, N>,
    /// The functions, by name: can these arguments give this number?
    pub functions: Map<Seq<char>, spec_fn(Seq<N>, N) -> bool>,
}

/// The error that stops the evaluation of `tree`, if one does: the first
/// that is met when operands are taken from left to right, and the
/// arguments of a call before the function is looked up.
pub open spec fn failure<N>(env: Environment<N>, tree: Tree) -> Option<EvalError>
    decreases tree, 0nat,
{
    match tree {
        Tree::Const(_) => None,
        Tree::Id(name) => if env.variables.contains_key(name) {
            None
        } else {
            Some(EvalError::NameNotFound)
        },
        Tree::UnOp(_, operand) => failure(env, *operand),
        Tree::BinOp(_, left, right) => match failure(env, *left) {
            Some(e) => Some(e),
            None => failure(env, *right),
        },
        Tree::Call(name, args) => match first_failure(env, args, 0) {
            Some(e) => Some(e),
            None => if env.functions.contains_key(name) {
                None
            } else {
                Some(EvalError::FunctionNotFound)
            },
        },
    }
}

/// The first error among the trees from index `from` on, if any fails.
pub open spec fn first_failure<N>(env: Environment<N>, trees: Seq<Tree>, from: nat) -> Option<
    EvalError,
>
    decreases trees, trees.len() - from,
{
    if from >= trees.len() {
        None
    } else {
        match failure(env, trees[from as int]) {
            Some(e) => Some(e),
            None => first_failure(env, trees, from + 1),
        }
    }
}

/// Can the evaluation of `tree` end with `value`? It can if the arithmetic
/// and the functions can give, step by step, what leads to it.
pub open spec fn yields<N>(env: Environment<N>, tree: Tree, value: N) -> bool
    decreases tree,
{
    match tree {
        Tree::Const(text) => (env.arithmetic)(Step::Constant(text), value),
        Tree::Id(name) => env.variables.contains_key(name) && value == env.variables[name],
        Tree::UnOp(op, operand) => exists|x: N|
            yields(env, *operand, x) && #[trigger] (env.arithmetic)(Step::Unary(op, x), value),
        Tree::BinOp(op, left, right) => exists|x: N, y: N|
            yields(env, *left, x) && yields(env, *right, y) && #[trigger] (env.arithmetic)(
                Step::Binary(op, x, y),
                value,
            ),
        Tree::Call(name, args) => env.functions.contains_key(name) && exists|values: Seq<N>|
            yield_all(env, args, values) && #[trigger] (env.functions[name])(values, value),
    }
}

/// Can the evaluations of `trees` end with `values`, tree by tree?
pub open spec fn yield_all<N>(env: Environment<N>, trees: Seq<Tree>, values: Seq<N>) -> bool
    decreases trees,
{
    &&& values.len() == trees.len()
    &&& forall|i: int| 0 <= i < trees.len() ==> yields(env, #[trigger] trees[i], values[i])
}

/// Do the arithmetic and every function of `env` give at most one number
/// for what they are given?
pub open spec fn single_valued<N>(env: Environment<N>) -> bool {
    &&& forall|step: Step<N>, a: N, b: N|
        #[trigger] (env.arithmetic)(step, a) && #[trigger] (env.arithmetic)(step, b) ==> a == b
    &&& forall|name: Seq<char>, args: Seq<N>, a: N, b: N|
        env.functions.contains_key(name) && #[trigger] (env.functions[name])(args, a)
            && #[trigger] (env.functions[name])(args, b) ==> a == b
}

/// Evaluation is a function of the tree and the environment: where the
/// arithmetic and the functions are single-valued, a tree has at most one
/// value.
pub proof fn lemma_yields_one<N>(env: Environment<N>, tree: Tree, a: N, b: N)
    requires
        single_valued(env),
        yields(env, tree, a),
        yields(env, tree, b),
    ensures
        a == b,
    decreases tree,
{
    match tree {
        Tree::Const(_) => {},
        Tree::Id(_) => {},
        Tree::UnOp(op, operand) => {
            let x = choose|x: N|
                yields(env, *operand, x) && #[trigger] (env.arithmetic)(Step::Unary(op, x), a);
            let y = choose|y: N|
                yields(env, *operand, y) && #[trigger] (env.arithmetic)(Step::Unary(op, y), b);
            lemma_yields_one(env, *operand, x, y);
        },
        Tree::BinOp(op, left, right) => {
            let (x, y) = choose|x: N, y: N|
                yields(env, *left, x) && yields(env, *right, y) && #[trigger] (env.arithmetic)(
                    Step::Binary(op, x, y),
                    a,
                );
            let (u, v) = choose|u: N, v: N|
                yields(env, *left, u) && yields(env, *right, v) && #[trigger] (env.arithmetic)(
                    Step::Binary(op, u, v),
                    b,
                );
            lemma_yields_one(env, *left, x, u);
            lemma_yields_one(env, *right, y, v);
        },
        Tree::Call(name, args) => {
            let xs = choose|xs: Seq<N>|
                yield_all(env, args, xs) && #[trigger] (env.functions[name])(xs, a);
            let ys = choose|ys: Seq<N>|
                yield_all(env, args, ys) && #[trigger] (env.functions[name])(ys, b);
            assert forall|i: int| 0 <= i < args.len() implies xs[i] == ys[i] by {
                assert(yields(env, args[i], xs[i]));
                assert(yields(env, args[i], ys[i]));
                lemma_yields_one(env, args[i], xs[i], ys[i]);
            }
            assert(xs =~= ys);
        },
    }
}

/// A tree fails exactly if one of its names or called functions is not
/// bound, whatever the arithmetic and the functions compute: failure
/// depends on the bound names alone.
pub proof fn lemma_failure_by_names<N>(env: Environment<N>, other: Environment<N>, tree: Tree)
    requires
        env.variables.dom() == other.variables.dom(),
        env.functions.dom() == other.functions.dom(),
    ensures
        failure(env, tree) == failure(other, tree),
    decreases tree, 0nat,
{
    match tree {
        Tree::Const(_) => {},
        Tree::Id(name) => {
            assert(env.variables.contains_key(name) == env.variables.dom().contains(name));
            assert(other.variables.contains_key(name) == other.variables.dom().contains(name));
        },
        Tree::UnOp(_, operand) => {
            lemma_failure_by_names(env, other, *operand);
        },
        Tree::BinOp(_, left, right) => {
            lemma_failure_by_names(env, other, *left);
            lemma_failure_by_names(env, other, *right);
        },
        Tree::Call(name, args) => {
            lemma_first_failure_by_names(env, other, args, 0);
            assert(env.functions.contains_key(name) == env.functions.dom().contains(name));
            assert(other.functions.contains_key(name) == other.functions.dom().contains(name));
        },
    }
}

/// The first failure among trees depends on the bound names alone.
pub proof fn lemma_first_failure_by_names<N>(
    env: Environment<N>,
    other: Environment<N>,
    trees: Seq<Tree>,
    from: nat,
)
    requires
        env.variables.dom() == other.variables.dom(),
        env.functions.dom() == other.functions.dom(),
    ensures
        first_failure(env, trees, from) == first_failure(other, trees, from),
    decreases trees, trees.len() - from,
{
    if from < trees.len() {
        lemma_failure_by_names(env, other, trees[from as int]);
        lemma_first_failure_by_names(env, other, trees, from + 1);
    }
}

/// The mapping that a list of bindings stands for. Where a name is bound
/// more than once, the last binding counts.
pub open spec fn bindings<V>(entries: Seq<(String, V)>) -> Map<Seq<char>, V>
    decreases entries.len(),
{
    if entries.len() == 0 {
        Map::empty()
    } else {
        bindings(entries.drop_last()).insert(entries.last().0@, entries.last().1)
    }
}

/// The index of the binding that counts for `name`: the last one.
pub open spec fn is_binding<V>(entries: Seq<(String, V)>, name: Seq<char>, i: int) -> bool {
    &&& 0 <= i < entries.len()
    &&& entries[i].0@ == name
    &&& forall|j: int| i < j < entries.len() ==> (#[trigger] entries[j]).0@ != name
}

/// A name is bound exactly if some binding counts for it, and then to
/// that binding's value.
pub proof fn lemma_bindings<V>(entries: Seq<(String, V)>, name: Seq<char>)
    ensures
        bindings(entries).contains_key(name) <==> exists|i: int| is_binding(entries, name, i),
        forall|i: int|
            is_binding(entries, name, i) ==> bindings(entries)[name] == (#[trigger] entries[i]).1,
    decreases entries.len(),
{
    if entries.len() > 0 {
        let front = entries.drop_last();
        let last = entries.len() - 1;
        lemma_bindings(front, name);
        if entries[last].0@ == name {
            assert(is_binding(entries, name, last));
            assert forall|i: int| is_binding(entries, name, i) implies i == last by {
                if i < last {
                    assert(entries[last].0@ == name);
                }
            }
        } else {
            assert forall|i: int| is_binding(entries, name, i) <==> is_binding(front, name, i) by {
                if is_binding(entries, name, i) {
                    assert(front[i] == entries[i]);
                    assert forall|j: int| i < j < front.len() implies (#[trigger] front[j]).0@
                        != name by {
                        assert(front[j] == entries[j]);
                    }
                }
                if is_binding(front, name, i) {
                    assert(front[i] == entries[i]);
                    assert forall|j: int| i < j < entries.len() implies (#[trigger] entries[j]).0@
                        != name by {
                        if j < last {
                            assert(front[j] == entries[j]);
                        }
                    }
                }
            }
            if bindings(entries).contains_key(name) {
                let i = choose|i: int| is_binding(front, name, i);
                assert(is_binding(entries, name, i));
            }
            assert forall|i: int| is_binding(entries, name, i) implies bindings(entries)[name] == (
            #[trigger] entries[i]).1 by {
                assert(is_binding(front, name, i));
                assert(front[i] == entries[i]);
            }
        }
    }
}

/// Finds the binding that counts for `name`, if there is one.
fn lookup<V>(entries: &Vec<(String, V)>, name: &String) -> (found: Option<usize>)
    ensures
        match found {
            Some(i) => is_binding(entries@, name@, i as int),
            None => !bindings(entries@).contains_key(name@),
        },
{
    let mut i = entries.len();
    while i > 0
        invariant
            i <= entries.len(),
            forall|j: int| i <= j < entries.len() ==> (#[trigger] entries@[j]).0@ != name@,
        decreases i,
    {
        i -= 1;
        if entries[i].0 == *name {
            return Some(i);
        }
    }
    proof {
        lemma_bindings(entries@, name@);
    }
    None
}

/// A tree-walking evaluator: an environment of named numbers and named
/// functions, and the arithmetic by which constants and operators become
/// numbers.
#[verifier::reject_recursive_types(N)]
pub struct Evaluator<N: Copy, A: Fn(Operation<N>) -> N, F: Fn(Vec<N>) -> N> {
    arithmetic: A,
    vars: Vec<(String, N)>,
    fns: Vec<(String, F)>,
}

/// Can `arithmetic` give `value` for an operation that stands for `step`?
spec fn carries_out<N, A: Fn(Operation<N>) -> N>(
    arithmetic: A,
    step: Step<N>,
    value: N,
) -> bool {
    exists|operation: Operation<N>| #[trigger]
        call_ensures(arithmetic, (operation,), value) && operation@ == step
}

/// Can `function` give `value` for the arguments `args`?
spec fn returns_for<N, F: Fn(Vec<N>) -> N>(function: F, args: Seq<N>, value: N) -> bool {
    exists|values: Vec<N>| #[trigger] call_ensures(function, (values,), value) && values@ == args
}

impl<N: Copy, A: Fn(Operation<N>) -> N, F: Fn(Vec<N>) -> N> Evaluator<N, A, F> {
    #[verifier::type_invariant]
    spec fn inv(&self) -> bool {
        &&& forall|operation: Operation<N>| call_requires(self.arithmetic, (operation,))
        &&& forall|i: int, args: Vec<N>|
            0 <= i < self.fns@.len() ==> #[trigger] call_requires(self.fns@[i].1, (args,))
    }

    /// What the evaluator goes by: its arithmetic and its bindings.
    pub closed spec fn environment(&self) -> Environment<N> {
        Environment {
            arithmetic: |step: Step<N>, value: N| carries_out(self.arithmetic, step, value),
            variables: bindings(self.vars@),
            functions: bindings(self.fns@).map_values(
                |function: F| |args: Seq<N>, value: N| returns_for(function, args, value),
            ),
        }
    }

    /// An evaluator with the given arithmetic and an empty environment.
    /// The arithmetic must take every operation.
    pub fn new(arithmetic: A) -> (evaluator: Self)
        requires
            forall|operation: Operation<N>| call_requires(arithmetic, (operation,)),
        ensures
            forall|step: Step<N>, value: N| #[trigger]
                (evaluator.environment().arithmetic)(step, value) <==> exists|
                    operation: Operation<N>,
                | #[trigger]
                    call_ensures(arithmetic, (operation,), value) && operation@ == step,
            evaluator.environment().variables == Map::<Seq<char>, N>::empty(),
            evaluator.environment().functions == Map::<
                Seq<char>,
                spec_fn(Seq<N>, N) -> bool,
            >::empty(),
    {
        let evaluator = Self { arithmetic, vars: Vec::new(), fns: Vec::new() };
        proof {
            assert(evaluator.environment().functions =~= Map::<
                Seq<char>,
                spec_fn(Seq<N>, N) -> bool,
            >::empty());
        }
        evaluator
    }

    /// Replaces the variables of the environment by the bindings `vars`.
    /// Where a name is bound more than once, the last binding counts.
    pub fn names(self, vars: Vec<(String, N)>) -> (evaluator: Self)
        ensures
            evaluator.environment().arithmetic == self.environment().arithmetic,
            evaluator.environment().variables == bindings(vars@),
            evaluator.environment().functions == self.environment().functions,
    {
        proof {
            use_type_invariant(&self);
        }
        Self { arithmetic: self.arithmetic, vars, fns: self.fns }
    }

    /// Replaces the functions of the environment by the bindings `fns`.
    /// Where a name is bound more than once, the last binding counts. The
    /// functions must take every list of arguments.
    pub fn functions(self, fns: Vec<(String, F)>) -> (evaluator: Self)
        requires
            forall|i: int, args: Vec<N>|
                0 <= i < fns@.len() ==> #[trigger] call_requires(fns@[i].1, (args,)),
        ensures
            evaluator.environment().arithmetic == self.environment().arithmetic,
            evaluator.environment().variables == self.environment().variables,
            evaluator.environment().functions.dom() == bindings(fns@).dom(),
            forall|name: Seq<char>, args: Seq<N>, value: N|
                bindings(fns@).contains_key(name) ==> (#[trigger] (evaluator.environment().functions[
                    name
                ])(args, value) <==> exists|values: Vec<N>| #[trigger]
                    call_ensures(bindings(fns@)[name], (values,), value) && values@ == args),
    {
        proof {
            use_type_invariant(&self);
        }
        Self { arithmetic: self.arithmetic, vars: self.vars, fns }
    }

    /// Has the arithmetic carry out one operation.
    fn apply(&self, operation: Operation<N>) -> (value: N)
        ensures
            (self.environment().arithmetic)(operation@, value),
    {
        proof {
            use_type_invariant(self);
        }
        (self.arithmetic)(operation)
    }

    /// Evaluates a syntax tree against the environment: a constant and an
    /// operator by the arithmetic, a name by its binding, a call by the
    /// function bound to its name, applied to the values of the arguments.
    pub fn evaluate(&self, node: &Node) -> (result: Result<N, EvalError>)
        ensures
            match result {
                Ok(value) => failure(self.environment(), node@) is None && yields(
                    self.environment(),
                    node@,
                    value,
                ),
                Err(e) => failure(self.environment(), node@) == Some(e),
            },
        decreases node, 0nat,
    {
        proof {
            use_type_invariant(self);
        }
        match node {
            Node::UnOp(op, operand) => {
                let x = self.evaluate(operand)?;
                Ok(self.apply(Operation::Unary(*op, x)))
            },
            Node::BinOp(op, left, right) => {
                let x = self.evaluate(left)?;
                let y = self.evaluate(right)?;
                Ok(self.apply(Operation::Binary(*op, x, y)))
            },
            Node::Const(literal) => Ok(self.apply(Operation::Constant(literal.clone()))),
            Node::Id(name) => {
                match lookup(&self.vars, name) {
                    Some(i) => {
                        proof {
                            lemma_bindings(self.vars@, name@);
                        }
                        Ok(self.vars[i].1)
                    },
                    None => Err(EvalError::NameNotFound),
                }
            },
            Node::Call(name, args) => {
                proof {
                    crate::parse::ast::lemma_call_tree(*name, *args);
                }
                let values = self.evaluate_args(args)?;
                match lookup(&self.fns, name) {
                    Some(i) => {
                        let value = (self.fns[i].1)(values);
                        proof {
                            lemma_bindings(self.fns@, name@);
                            let function = bindings(self.fns@)[name@];
                            assert(function == self.fns@[i as int].1);
                            assert(returns_for(function, values@, value));
                            assert(self.environment().functions.contains_key(name@));
                            assert((self.environment().functions[name@])(values@, value));
                        }
                        Ok(value)
                    },
                    None => Err(EvalError::FunctionNotFound),
                }
            },
        }
    }

    /// Evaluates the arguments of a call, from left to right.
    fn evaluate_args(&self, args: &Vec<Node>) -> (result: Result<Vec<N>, EvalError>)
        ensures
            match result {
                Ok(values) => first_failure(self.environment(), trees(args@), 0) is None
                    && yield_all(self.environment(), trees(args@), values@),
                Err(e) => first_failure(self.environment(), trees(args@), 0) == Some(e),
            },
        decreases args, 0nat,
    {
        let ghost expected = trees(args@);
        let mut results: Vec<N> = Vec::new();
        let mut i: usize = 0;
        while i < args.len()
            invariant
                i <= args.len(),
                expected == trees(args@),
                results@.len() == i,
                forall|j: int|
                    0 <= j < i ==> yields(self.environment(), #[trigger] expected[j], results@[j]),
                first_failure(self.environment(), expected, 0) == first_failure(
                    self.environment(),
                    expected,
                    i as nat,
                ),
            decreases args.len() - i,
        {
            let value = self.evaluate(&args[i])?;
            results.push(value);
            i += 1;
        }
        Ok(results)
    }
}

} // verus!
