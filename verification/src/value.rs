use vstd::prelude::*;

use crate::scalar::Scalar;
use vstd::string::StringExecFns;

verus! {

/// A handle to one node of a [`Graph`]: the index at which the node stands.
/// Two handles are `==` when they name the same node;
/// [`Value::same_expression`] compares the expressions they stand for.
#[derive(Clone, Copy, Debug, PartialEq, Eq, Structural)]
pub struct Value {
    pub id: usize,
}

/// How a node's number was computed, and from which nodes.
#[derive(Clone, Copy, Debug, PartialEq, Eq, Structural)]
pub enum ValueOperation {
    Leaf,
    Addition(Value, Value),
    Subtraction(Value, Value),
    Multiplication(Value, Value),
    Exponentiation { base: Value, exp: Value },
    Exp { exp: Value },
    Tanh(Value),
}

/// One node of an expression graph.
#[derive(Clone, Copy, Debug, PartialEq)]
pub struct ValueInner<S> {
    /// The number computed for this node when it was made (or last stepped).
    pub current_evaluation: S,
    /// The gradient that backpropagation accumulated here, if any.
    pub gradient: Option<S>,
    pub operation: ValueOperation,
    pub label: Option<&'static str>,
}

/// An expression graph: nodes in the order in which they were made. Every
/// node is computed from nodes made before it, so the graph has no cycle.
pub struct Graph<S> {
    nodes: Vec<ValueInner<S>>,
}

impl<S> View for Graph<S> {
    type V = Seq<ValueInner<S>>;

    closed spec fn view(&self) -> Seq<ValueInner<S>> {
        self.nodes@
    }
}

impl ValueOperation {
    /// The nodes that this operation reads, in order.
    pub open spec fn operands(self) -> Seq<Value> {
        match self {
            ValueOperation::Leaf => seq![],
            ValueOperation::Addition(l, r) => seq![l, r],
            ValueOperation::Subtraction(l, r) => seq![l, r],
            ValueOperation::Multiplication(l, r) => seq![l, r],
            ValueOperation::Exponentiation { base, exp } => seq![base, exp],
            ValueOperation::Exp { exp } => seq![exp],
            ValueOperation::Tanh(v) => seq![v],
        }
    }

    /// The operands to which backpropagation passes a gradient: all of them,
    /// except the exponent of an exponentiation.
    pub open spec fn gradient_operands(self) -> Seq<Value> {
        match self {
            ValueOperation::Exponentiation { base, exp } => seq![base],
            _ => self.operands(),
        }
    }

    /// The operands that a walk follows: all of them, or those that receive a gradient.
    pub open spec fn followed(self, through_exponents: bool) -> Seq<Value> {
        if through_exponents {
            self.operands()
        } else {
            self.gradient_operands()
        }
    }

    /// The symbol by which the operation is shown.
    pub open spec fn symbol_spec(self) -> Seq<char> {
        match self {
            ValueOperation::Leaf => "leaf"@,
            ValueOperation::Addition(_, _) => "+"@,
            ValueOperation::Subtraction(_, _) => "-"@,
            ValueOperation::Multiplication(_, _) => "*"@,
            ValueOperation::Exponentiation { .. } => "^"@,
            ValueOperation::Tanh(_) => "tanh"@,
            ValueOperation::Exp { .. } => "e^"@,
        }
    }

    /// The symbol by which the operation is shown.
    pub fn symbol(&self) -> (s: &'static str)
        ensures
            s@ == self.symbol_spec(),
    {
        match self {
            ValueOperation::Leaf => "leaf",
            ValueOperation::Addition(_, _) => "+",
            ValueOperation::Subtraction(_, _) => "-",
            ValueOperation::Multiplication(_, _) => "*",
            ValueOperation::Exponentiation { .. } => "^",
            ValueOperation::Tanh(_) => "tanh",
            ValueOperation::Exp { .. } => "e^",
        }
    }
}

/// The operations of the nodes, in order.
pub open spec fn operations_of<S>(nodes: Seq<ValueInner<S>>) -> Seq<ValueOperation> {
    nodes.map_values(|n: ValueInner<S>| n.operation)
}

/// Every node reads only nodes made before it.
pub open spec fn well_formed<S>(nodes: Seq<ValueInner<S>>) -> bool {
    forall|i: int, k: int|
        0 <= i < nodes.len() && 0 <= k < nodes[i].operation.operands().len()
            ==> #[trigger] nodes[i].operation.operands()[k].id < i
}

/// Following operands from `from` leads to `to` (in zero or more steps).
/// With `through_exponents` false, only the operands that receive a gradient
/// are followed.
pub open spec fn reaches(ops: Seq<ValueOperation>, from: nat, to: nat, through_exponents: bool) -> bool
    decreases from,
{
    if from == to {
        true
    } else if from >= ops.len() {
        false
    } else {
        let c = ops[from as int].followed(through_exponents);
        ||| (c.len() > 0 && c[0].id < from && reaches(ops, c[0].id as nat, to, through_exponents))
        ||| (c.len() > 1 && c[1].id < from && reaches(ops, c[1].id as nat, to, through_exponents))
    }
}

/// The numbers of the nodes from index `from` on, in order.
pub open spec fn numbers_from<S>(nodes: Seq<ValueInner<S>>, from: int) -> Seq<S> {
    nodes.subrange(from, nodes.len() as int).map_values(|n: ValueInner<S>| n.current_evaluation)
}

/// The numbers from `from` on of a graph that extends `short` are those of
/// `short`, then those of the nodes added after it.
pub proof fn lemma_numbers_from_split<S>(long: Seq<ValueInner<S>>, short: Seq<ValueInner<S>>, from: int)
    requires
        extends(long, short),
        0 <= from <= short.len(),
    ensures
        numbers_from(long, from) == numbers_from(short, from) + numbers_from(long, short.len() as int),
{
    assert(numbers_from(long, from) =~= numbers_from(short, from) + numbers_from(long, short.len() as int));
}

/// The two graphs have the same nodes but for their gradients.
pub open spec fn same_but_gradients<S>(a: Seq<ValueInner<S>>, b: Seq<ValueInner<S>>) -> bool {
    &&& a.len() == b.len()
    &&& forall|i: int|
        0 <= i < a.len() ==> {
            &&& (#[trigger] a[i]).operation == b[i].operation
            &&& a[i].current_evaluation == b[i].current_evaluation
            &&& a[i].label == b[i].label
        }
}

/// `new` holds the nodes of `old`, unchanged, followed by more.
pub open spec fn extends<S>(new: Seq<ValueInner<S>>, old: Seq<ValueInner<S>>) -> bool {
    &&& old.len() <= new.len()
    &&& forall|i: int| 0 <= i < old.len() ==> #[trigger] new[i] == old[i]
}

/// `new` is `old` with one more node, made by `operation` with no gradient
/// and no label.
pub open spec fn appended<S>(new: Seq<ValueInner<S>>, old: Seq<ValueInner<S>>, operation: ValueOperation) -> bool {
    &&& new.len() == old.len() + 1
    &&& extends(new, old)
    &&& new[old.len() as int].operation == operation
    &&& new[old.len() as int].gradient is None
    &&& new[old.len() as int].label is None
}

/// The two graphs have the same nodes but for their numbers.
pub open spec fn same_but_values<S>(a: Seq<ValueInner<S>>, b: Seq<ValueInner<S>>) -> bool {
    &&& a.len() == b.len()
    &&& forall|i: int|
        0 <= i < a.len() ==> {
            &&& (#[trigger] a[i]).operation == b[i].operation
            &&& a[i].gradient == b[i].gradient
            &&& a[i].label == b[i].label
        }
}

/// `after` is `before` moved against its gradient: its number is the old
/// number minus `learning_rate` times the gradient.
pub open spec fn stepped<S: Scalar>(before: ValueInner<S>, after: ValueInner<S>, learning_rate: S) -> bool {
    exists|step: S|
        {
            &&& #[trigger] call_ensures(S::times, (&learning_rate, &before.gradient.unwrap()), step)
            &&& call_ensures(S::minus, (&before.current_evaluation, &step), after.current_evaluation)
        }
}

/// How a node is written out, given the text of its number.
pub open spec fn display_with<S: Scalar>(node: ValueInner<S>, value_text: Seq<char>, text: Seq<char>) -> bool {
    match node.operation {
        ValueOperation::Leaf => text == "Leaf("@ + value_text + ")"@,
        op => {
            let head = "Value(Op="@ + op.symbol_spec() + ", v="@ + value_text + ", g="@;
            match node.gradient {
                None => text == head + "None"@ + ")"@,
                Some(g) => exists|gradient_text: String|
                    #[trigger] call_ensures(S::to_debug_text, (&g,), gradient_text)
                        && text == head + "Some("@ + gradient_text@ + ")"@ + ")"@,
            }
        },
    }
}

/// `text` is how `node` is written out.
pub open spec fn display_of<S: Scalar>(node: ValueInner<S>, text: Seq<char>) -> bool {
    exists|value_text: String|
        #[trigger] call_ensures(S::to_text, (&node.current_evaluation,), value_text)
            && display_with(node, value_text@, text)
}

/// Comparing the optional numbers `a` and `b` gave `result`: two absent
/// numbers are equal, an absent and a present one are not, and two present
/// ones are compared with [`Scalar::equals`].
pub open spec fn optional_numbers_compare<S: Scalar>(a: Option<S>, b: Option<S>, result: bool) -> bool {
    match (a, b) {
        (None, None) => result,
        (Some(x), Some(y)) => call_ensures(S::equals, (&x, &y), result),
        _ => !result,
    }
}

/// The two labels are the same text, or both absent.
pub open spec fn labels_match(a: Option<&'static str>, b: Option<&'static str>) -> bool {
    match (a, b) {
        (None, None) => true,
        (Some(x), Some(y)) => x@ == y@,
        _ => false,
    }
}

/// Comparing the expressions at nodes `a` and `b` of `nodes` gave `result`.
/// Two nodes are compared field by field, stopping at the first difference:
/// their numbers, then their gradients, then their operations (the same kind,
/// then the operands in order, each compared as an expression), then their
/// labels. A node read twice is compared each time it is read.
pub open spec fn compares_equal<S: Scalar>(nodes: Seq<ValueInner<S>>, a: nat, b: nat, result: bool) -> bool
    decreases a + b, 1nat,
{
    if a >= nodes.len() || b >= nodes.len() {
        false
    } else {
        let x = nodes[a as int];
        let y = nodes[b as int];
        let numbers = (&x.current_evaluation, &y.current_evaluation);
        ||| call_ensures(S::equals, numbers, false) && !result
        ||| call_ensures(S::equals, numbers, true) && optional_numbers_compare(x.gradient, y.gradient, false)
            && !result
        ||| call_ensures(S::equals, numbers, true) && optional_numbers_compare(x.gradient, y.gradient, true)
            && operands_compare(nodes, a, b, false) && !result
        ||| call_ensures(S::equals, numbers, true) && optional_numbers_compare(x.gradient, y.gradient, true)
            && operands_compare(nodes, a, b, true) && result == labels_match(x.label, y.label)
    }
}

/// Comparing the operations of nodes `a` and `b` gave `result`: operations
/// of different kinds differ; otherwise their operands are compared in order
/// as expressions, stopping at the first that differs.
pub open spec fn operands_compare<S: Scalar>(nodes: Seq<ValueInner<S>>, a: nat, b: nat, result: bool) -> bool
    decreases a + b, 0nat,
{
    if a >= nodes.len() || b >= nodes.len() {
        false
    } else {
        let oa = nodes[a as int].operation;
        let ob = nodes[b as int].operation;
        let p = oa.operands();
        let q = ob.operands();
        if !same_kind(oa, ob) {
            !result
        } else if p.len() == 0 {
            result
        } else if p.len() == 1 {
            p[0].id < a && q[0].id < b && compares_equal(nodes, p[0].id as nat, q[0].id as nat, result)
        } else {
            &&& p[0].id < a && q[0].id < b && p[1].id < a && q[1].id < b
            &&& {
                ||| compares_equal(nodes, p[0].id as nat, q[0].id as nat, false) && !result
                ||| compares_equal(nodes, p[0].id as nat, q[0].id as nat, true) && compares_equal(
                    nodes,
                    p[1].id as nat,
                    q[1].id as nat,
                    result,
                )
            }
        }
    }
}

/// The two operations are of the same kind.
pub open spec fn same_kind(a: ValueOperation, b: ValueOperation) -> bool {
    match (a, b) {
        (ValueOperation::Leaf, ValueOperation::Leaf) => true,
        (ValueOperation::Addition(_, _), ValueOperation::Addition(_, _)) => true,
        (ValueOperation::Subtraction(_, _), ValueOperation::Subtraction(_, _)) => true,
        (ValueOperation::Multiplication(_, _), ValueOperation::Multiplication(_, _)) => true,
        (ValueOperation::Exponentiation { .. }, ValueOperation::Exponentiation { .. }) => true,
        (ValueOperation::Exp { .. }, ValueOperation::Exp { .. }) => true,
        (ValueOperation::Tanh(_), ValueOperation::Tanh(_)) => true,
        _ => false,
    }
}

/// Whether the two texts are the same.
fn same_text(a: &str, b: &str) -> (same: bool)
    ensures
        same == (a@ == b@),
{
    let n = a.unicode_len();
    if n != b.unicode_len() {
        return false;
    }
    let mut i: usize = 0;
    while i < n
        invariant
            i <= n,
            n == a@.len(),
            n == b@.len(),
            a@.subrange(0, i as int) == b@.subrange(0, i as int),
        decreases n - i,
    {
        if a.get_char(i) != b.get_char(i) {
            assert(a@[i as int] != b@[i as int]);
            return false;
        }
        assert(a@.subrange(0, i + 1) =~= a@.subrange(0, i as int).push(a@[i as int]));
        assert(b@.subrange(0, i + 1) =~= b@.subrange(0, i as int).push(b@[i as int]));
        i = i + 1;
    }
    assert(a@ =~= a@.subrange(0, n as int));
    assert(b@ =~= b@.subrange(0, n as int));
    true
}

/// Whether the two labels match.
fn same_label(a: Option<&'static str>, b: Option<&'static str>) -> (same: bool)
    ensures
        same == labels_match(a, b),
{
    match (a, b) {
        (None, None) => true,
        (Some(x), Some(y)) => same_text(x, y),
        _ => false,
    }
}

/// What a gradient becomes when `incoming` is added to `existing`.
pub open spec fn accumulated<S: Scalar>(existing: Option<S>, incoming: S, result: Option<S>) -> bool {
    match existing {
        None => result == Some(incoming),
        Some(e) => result matches Some(r) && call_ensures(S::plus, (&incoming, &e), r),
    }
}

/// The gradient that a product passes to one factor: the other factor's
/// number times the incoming gradient.
pub open spec fn product_gradient<S: Scalar>(other: S, incoming: S, out: S) -> bool {
    call_ensures(S::times, (&other, &incoming), out)
}

/// The gradient that `tanh` passes on: `(1 - t^2)` times the incoming
/// gradient, where `t` is the node's own number.
pub open spec fn tanh_gradient<S: Scalar>(t: S, incoming: S, out: S) -> bool {
    exists|one: S, square: S, slope: S|
        {
            &&& #[trigger] call_ensures(S::from_integer, (1i32,), one)
            &&& #[trigger] call_ensures(S::powi, (&t, 2i32), square)
            &&& #[trigger] call_ensures(S::minus, (&one, &square), slope)
            &&& call_ensures(S::times, (&slope, &incoming), out)
        }
}

/// The gradient that a power passes to its base: `exp * base^(exp - 1)`
/// times the incoming gradient.
pub open spec fn power_gradient<S: Scalar>(base: S, exp: S, incoming: S, out: S) -> bool {
    exists|one: S, lowered: S, power: S, slope: S|
        {
            &&& #[trigger] call_ensures(S::from_integer, (1i32,), one)
            &&& #[trigger] call_ensures(S::minus, (&exp, &one), lowered)
            &&& #[trigger] call_ensures(S::powf, (&base, &lowered), power)
            &&& #[trigger] call_ensures(S::times, (&exp, &power), slope)
            &&& call_ensures(S::times, (&slope, &incoming), out)
        }
}

/// The gradient that `e^x` passes to `x`: `e^x` times the incoming gradient.
pub open spec fn exp_gradient<S: Scalar>(x: S, incoming: S, out: S) -> bool {
    exists|e: S| #[trigger] call_ensures(S::exp, (&x,), e) && call_ensures(S::times, (&e, &incoming), out)
}

/// A record of one propagation from a node: the gradient the node ends
/// with, and for each operand that receives a gradient (in order) the
/// gradient it receives, the graph once it has passed that gradient on, and
/// the record of that propagation.
pub struct Propagation<S> {
    pub total: Option<S>,
    pub passed: Seq<S>,
    pub states: Seq<Seq<ValueInner<S>>>,
    pub steps: Seq<Propagation<S>>,
}

/// The gradients that node `v` of `nodes` passes to its operands, by the
/// chain rule, when it receives `incoming`: a sum passes `incoming` to
/// both; a difference `incoming` and its negation; a product to each factor
/// the other factor's number times `incoming`; `tanh`, a power (to its base
/// only) and `e^x` their derivatives times `incoming`.
pub open spec fn chain_rule<S: Scalar>(nodes: Seq<ValueInner<S>>, v: nat, incoming: S, passed: Seq<S>) -> bool {
    let node = nodes[v as int];
    match node.operation {
        ValueOperation::Leaf => passed.len() == 0,
        ValueOperation::Addition(_, _) => passed == seq![incoming, incoming],
        ValueOperation::Subtraction(_, _) => passed.len() == 2 && passed[0] == incoming && call_ensures(
            S::negated,
            (&incoming,),
            passed[1],
        ),
        ValueOperation::Multiplication(l, r) => {
            &&& passed.len() == 2
            &&& product_gradient(nodes[r.id as int].current_evaluation, incoming, passed[0])
            &&& product_gradient(nodes[l.id as int].current_evaluation, incoming, passed[1])
        },
        ValueOperation::Tanh(_) => passed.len() == 1 && tanh_gradient(node.current_evaluation, incoming, passed[0]),
        ValueOperation::Exponentiation { base, exp } => passed.len() == 1 && power_gradient(
            nodes[base.id as int].current_evaluation,
            nodes[exp.id as int].current_evaluation,
            incoming,
            passed[0],
        ),
        ValueOperation::Exp { exp } => passed.len() == 1 && exp_gradient(
            nodes[exp.id as int].current_evaluation,
            incoming,
            passed[0],
        ),
    }
}

/// `p` records a propagation of `incoming` from node `v` that turns the
/// graph `before` into `after`: `incoming` is added to `v`'s gradient, then
/// each operand that receives a gradient, in order, gets the one that the
/// chain rule gives it and propagates it in turn.
pub open spec fn follows<S: Scalar>(
    before: Seq<ValueInner<S>>,
    v: nat,
    incoming: S,
    after: Seq<ValueInner<S>>,
    p: Propagation<S>,
) -> bool
    decreases p,
{
    let ops = before[v as int].operation.gradient_operands();
    let start = before.update(v as int, ValueInner { gradient: p.total, ..before[v as int] });
    &&& v < before.len()
    &&& accumulated(before[v as int].gradient, incoming, p.total)
    &&& chain_rule(before, v, incoming, p.passed)
    &&& p.states.len() == ops.len()
    &&& p.steps.len() == ops.len()
    &&& ops.len() == 0 ==> after == start
    &&& ops.len() >= 1 ==> follows(start, ops[0].id as nat, p.passed[0], p.states[0], p.steps[0])
    &&& ops.len() >= 2 ==> follows(p.states[0], ops[1].id as nat, p.passed[1], p.states[1], p.steps[1])
    &&& ops.len() >= 1 ==> after == p.states[ops.len() - 1]
}

/// `after` is `before` once `incoming` has been propagated back from node
/// `v`: the gradient is added to `v`'s own, then each operand that receives
/// a gradient gets the one that the chain rule gives it, in operand order,
/// and passes it on in turn (so a node reached along several paths receives
/// one contribution per path). The exponent of a power receives nothing.
pub open spec fn backpropagated<S: Scalar>(
    before: Seq<ValueInner<S>>,
    v: nat,
    incoming: S,
    after: Seq<ValueInner<S>>,
) -> bool {
    exists|p: Propagation<S>| #[trigger] follows(before, v, incoming, after, p)
}

/// `after` is `before` with the gradient of node `v`, and of every node it
/// is computed from (directly or not), cleared; nothing else changed.
pub open spec fn cleared<S>(before: Seq<ValueInner<S>>, v: nat, after: Seq<ValueInner<S>>) -> bool {
    &&& same_but_gradients(after, before)
    &&& forall|i: int|
        0 <= i < before.len() ==> (#[trigger] after[i]).gradient == if reaches(
            operations_of(before),
            v,
            i as nat,
            true,
        ) {
            None
        } else {
            before[i].gradient
        }
}

/// Where a backpropagation of `incoming` from `v` leaves its mark: only
/// gradients change; `incoming` is added to `v`'s gradient; a node has a
/// gradient afterwards exactly when it had one or `v` reaches it through
/// operands that receive a gradient; the others keep theirs.
pub open spec fn spread<S: Scalar>(before: Seq<ValueInner<S>>, v: nat, incoming: S, after: Seq<ValueInner<S>>) -> bool {
    &&& same_but_gradients(after, before)
    &&& forall|i: int|
        0 <= i < before.len() ==> ((#[trigger] after[i]).gradient is Some <==> (before[i].gradient is Some
            || reaches(operations_of(before), v, i as nat, false)))
    &&& forall|i: int|
        0 <= i < before.len() && !reaches(operations_of(before), v, i as nat, false)
            ==> (#[trigger] after[i]).gradient == before[i].gradient
    &&& accumulated(before[v as int].gradient, incoming, after[v as int].gradient)
}

/// A walk reaches only nodes at or below where it starts.
pub proof fn lemma_reaches_below(ops: Seq<ValueOperation>, from: nat, to: nat, through_exponents: bool)
    requires
        reaches(ops, from, to, through_exponents),
    ensures
        to <= from,
    decreases from,
{
    if from != to {
        let c = ops[from as int].followed(through_exponents);
        if c.len() > 0 && c[0].id < from && reaches(ops, c[0].id as nat, to, through_exponents) {
            lemma_reaches_below(ops, c[0].id as nat, to, through_exponents);
        } else {
            lemma_reaches_below(ops, c[1].id as nat, to, through_exponents);
        }
    }
}

/// Appending nodes does not change where a walk from an old node leads.
pub proof fn lemma_reaches_prefix(
    long: Seq<ValueOperation>,
    short: Seq<ValueOperation>,
    from: nat,
    to: nat,
    through_exponents: bool,
)
    requires
        short.len() <= long.len(),
        forall|i: int| 0 <= i < short.len() ==> #[trigger] long[i] == short[i],
        from < short.len(),
    ensures
        reaches(long, from, to, through_exponents) == reaches(short, from, to, through_exponents),
    decreases from,
{
    if from != to {
        let c = short[from as int].followed(through_exponents);
        assert(long[from as int] == short[from as int]);
        if c.len() > 0 && c[0].id < from {
            lemma_reaches_prefix(long, short, c[0].id as nat, to, through_exponents);
        }
        if c.len() > 1 && c[1].id < from {
            lemma_reaches_prefix(long, short, c[1].id as nat, to, through_exponents);
        }
    }
}

/// Walks compose.
pub proof fn lemma_reaches_transitive(
    ops: Seq<ValueOperation>,
    a: nat,
    b: nat,
    c: nat,
    through_exponents: bool,
)
    requires
        reaches(ops, a, b, through_exponents),
        reaches(ops, b, c, through_exponents),
    ensures
        reaches(ops, a, c, through_exponents),
    decreases a,
{
    if a != b {
        let k = ops[a as int].followed(through_exponents);
        if k.len() > 0 && k[0].id < a && reaches(ops, k[0].id as nat, b, through_exponents) {
            lemma_reaches_transitive(ops, k[0].id as nat, b, c, through_exponents);
        } else {
            lemma_reaches_transitive(ops, k[1].id as nat, b, c, through_exponents);
        }
    }
}

/// A walk along gradient operands is also a walk along all operands.
pub proof fn lemma_gradient_walk_is_walk(ops: Seq<ValueOperation>, from: nat, to: nat)
    requires
        reaches(ops, from, to, false),
    ensures
        reaches(ops, from, to, true),
    decreases from,
{
    if from != to {
        let k = ops[from as int].followed(false);
        let all = ops[from as int].followed(true);
        assert(k.len() > 0 ==> k[0] == all[0]);
        assert(k.len() > 1 ==> k[1] == all[1]);
        if k.len() > 0 && k[0].id < from && reaches(ops, k[0].id as nat, to, false) {
            lemma_gradient_walk_is_walk(ops, k[0].id as nat, to);
        } else {
            lemma_gradient_walk_is_walk(ops, k[1].id as nat, to);
        }
    }
}

pub proof fn lemma_same_operations<S>(a: Seq<ValueInner<S>>, b: Seq<ValueInner<S>>)
    requires
        a.len() == b.len(),
        forall|i: int| 0 <= i < a.len() ==> (#[trigger] a[i]).operation == b[i].operation,
    ensures
        operations_of(a) == operations_of(b),
        well_formed(a) == well_formed(b),
{
    assert(operations_of(a) =~= operations_of(b));
    assert forall|i: int, k: int|
        0 <= i < a.len() && 0 <= k < a[i].operation.operands().len() implies
        (#[trigger] a[i].operation.operands()[k].id < i) == (b[i].operation.operands()[k].id < i) by {
        assert(a[i].operation == b[i].operation);
    }
    assert forall|i: int, k: int|
        0 <= i < b.len() && 0 <= k < b[i].operation.operands().len() implies
        (#[trigger] b[i].operation.operands()[k].id < i) == (a[i].operation.operands()[k].id < i) by {
        assert(a[i].operation == b[i].operation);
    }
}

impl<S: Scalar> Graph<S> {
    /// Every node reads only nodes made before it.
    pub open spec fn wf(&self) -> bool {
        &&& well_formed(self@)
        &&& self@.len() <= usize::MAX
    }

    /// An empty graph.
    pub fn new() -> (graph: Self)
        ensures
            graph@ == Seq::<ValueInner<S>>::empty(),
            graph.wf(),
    {
        Graph { nodes: Vec::new() }
    }

    /// The number of nodes.
    pub fn len(&self) -> (n: usize)
        ensures
            n == self@.len(),
    {
        self.nodes.len()
    }

    /// The node that `v` stands for.
    pub fn node(&self, v: Value) -> (n: ValueInner<S>)
        requires
            v.id < self@.len(),
        ensures
            n == self@[v.id as int],
    {
        self.nodes[v.id]
    }

    fn push(&mut self, node: ValueInner<S>) -> (v: Value)
        requires
            old(self).wf(),
            forall|k: int|
                0 <= k < node.operation.operands().len() ==> #[trigger] node.operation.operands()[k].id
                    < old(self)@.len(),
        ensures
            final(self)@ == old(self)@.push(node),
            final(self).wf(),
            v.id == old(self)@.len(),
    {
        let v = Value { id: self.nodes.len() };
        self.nodes.push(node);
        let _new_len = self.nodes.len();
        proof {
            let nodes = self@;
            assert forall|i: int, k: int|
                0 <= i < nodes.len() && 0 <= k < nodes[i].operation.operands().len() implies
                #[trigger] nodes[i].operation.operands()[k].id < i by {
                if i < old(self)@.len() {
                    assert(nodes[i] == old(self)@[i]);
                } else {
                    assert(nodes[i] == node);
                }
            }
        }
        v
    }

    fn set_gradient(&mut self, v: Value, gradient: Option<S>)
        requires
            old(self).wf(),
            v.id < old(self)@.len(),
        ensures
            final(self)@ == old(self)@.update(
                v.id as int,
                ValueInner { gradient, ..old(self)@[v.id as int] },
            ),
            same_but_gradients(final(self)@, old(self)@),
            final(self).wf(),
    {
        let node = self.nodes[v.id];
        self.nodes.set(v.id, ValueInner { gradient, ..node });
        proof {
            lemma_same_operations(self@, old(self)@);
        }
    }
}

impl Value {
    /// A new node holding `current_evaluation`, computed from nothing.
    pub fn leaf<S: Scalar>(graph: &mut Graph<S>, current_evaluation: S) -> (v: Value)
        requires
            old(graph).wf(),
        ensures
            final(graph).wf(),
            v.id == old(graph)@.len(),
            final(graph)@ == old(graph)@.push(
                ValueInner {
                    current_evaluation,
                    gradient: None,
                    operation: ValueOperation::Leaf,
                    label: None,
                },
            ),
    {
        graph.push(
            ValueInner { current_evaluation, gradient: None, operation: ValueOperation::Leaf, label: None },
        )
    }

    /// Gives the node the label `label`, and returns the same handle.
    pub fn with_label<S: Scalar>(self, graph: &mut Graph<S>, label: &'static str) -> (v: Value)
        requires
            old(graph).wf(),
            self.id < old(graph)@.len(),
        ensures
            v == self,
            final(graph).wf(),
            final(graph)@ == old(graph)@.update(
                self.id as int,
                ValueInner { label: Some(label), ..old(graph)@[self.id as int] },
            ),
    {
        let node = graph.nodes[self.id];
        graph.nodes.set(self.id, ValueInner { label: Some(label), ..node });
        proof {
            lemma_same_operations(graph@, old(graph)@);
        }
        self
    }

    /// The nodes that this node's operation reads, in order.
    pub fn children<S: Scalar>(&self, graph: &Graph<S>) -> (children: Vec<Value>)
        requires
            self.id < graph@.len(),
        ensures
            children@ == graph@[self.id as int].operation.operands(),
    {
        match graph.node(*self).operation {
            ValueOperation::Leaf => Vec::new(),
            ValueOperation::Addition(left, right)
            | ValueOperation::Subtraction(left, right)
            | ValueOperation::Multiplication(left, right) => vec![left, right],
            ValueOperation::Exponentiation { base, exp } => vec![base, exp],
            ValueOperation::Exp { exp: value } | ValueOperation::Tanh(value) => vec![value],
        }
    }

    /// The number computed for this node.
    pub fn evaluate_value<S: Scalar>(&self, graph: &Graph<S>) -> (v: S)
        requires
            self.id < graph@.len(),
        ensures
            v == graph@[self.id as int].current_evaluation,
    {
        graph.node(*self).current_evaluation
    }

    /// A new node: this node plus `rhs`.
    pub fn add<S: Scalar>(self, graph: &mut Graph<S>, rhs: Value) -> (sum: Value)
        requires
            old(graph).wf(),
            self.id < old(graph)@.len(),
            rhs.id < old(graph)@.len(),
        ensures
            final(graph).wf(),
            sum.id == old(graph)@.len(),
            appended(final(graph)@, old(graph)@, ValueOperation::Addition(self, rhs)),
            call_ensures(
                S::plus,
                (&old(graph)@[self.id as int].current_evaluation, &old(graph)@[rhs.id as int].current_evaluation),
                final(graph)@[sum.id as int].current_evaluation,
            ),
    {
        let a = graph.node(self).current_evaluation;
        let b = graph.node(rhs).current_evaluation;
        let current_evaluation = a.plus(&b);
        graph.push(
            ValueInner {
                current_evaluation,
                gradient: None,
                operation: ValueOperation::Addition(self, rhs),
                label: None,
            },
        )
    }

    /// A new node: this node minus `rhs`.
    pub fn sub<S: Scalar>(self, graph: &mut Graph<S>, rhs: Value) -> (difference: Value)
        requires
            old(graph).wf(),
            self.id < old(graph)@.len(),
            rhs.id < old(graph)@.len(),
        ensures
            final(graph).wf(),
            difference.id == old(graph)@.len(),
            appended(final(graph)@, old(graph)@, ValueOperation::Subtraction(self, rhs)),
            call_ensures(
                S::minus,
                (&old(graph)@[self.id as int].current_evaluation, &old(graph)@[rhs.id as int].current_evaluation),
                final(graph)@[difference.id as int].current_evaluation,
            ),
    {
        let a = graph.node(self).current_evaluation;
        let b = graph.node(rhs).current_evaluation;
        let current_evaluation = a.minus(&b);
        graph.push(
            ValueInner {
                current_evaluation,
                gradient: None,
                operation: ValueOperation::Subtraction(self, rhs),
                label: None,
            },
        )
    }

    /// A new node: this node times `rhs`.
    pub fn mul<S: Scalar>(self, graph: &mut Graph<S>, rhs: Value) -> (product: Value)
        requires
            old(graph).wf(),
            self.id < old(graph)@.len(),
            rhs.id < old(graph)@.len(),
        ensures
            final(graph).wf(),
            product.id == old(graph)@.len(),
            appended(final(graph)@, old(graph)@, ValueOperation::Multiplication(self, rhs)),
            call_ensures(
                S::times,
                (&old(graph)@[self.id as int].current_evaluation, &old(graph)@[rhs.id as int].current_evaluation),
                final(graph)@[product.id as int].current_evaluation,
            ),
    {
        let a = graph.node(self).current_evaluation;
        let b = graph.node(rhs).current_evaluation;
        let current_evaluation = a.times(&b);
        graph.push(
            ValueInner {
                current_evaluation,
                gradient: None,
                operation: ValueOperation::Multiplication(self, rhs),
                label: None,
            },
        )
    }

    /// A new node: this node raised to the power `exp`.
    pub fn pow<S: Scalar>(&self, graph: &mut Graph<S>, exp: Value) -> (power: Value)
        requires
            old(graph).wf(),
            self.id < old(graph)@.len(),
            exp.id < old(graph)@.len(),
        ensures
            final(graph).wf(),
            power.id == old(graph)@.len(),
            appended(final(graph)@, old(graph)@, ValueOperation::Exponentiation { base: *self, exp }),
            call_ensures(
                S::powf,
                (&old(graph)@[self.id as int].current_evaluation, &old(graph)@[exp.id as int].current_evaluation),
                final(graph)@[power.id as int].current_evaluation,
            ),
    {
        let a = graph.node(*self).current_evaluation;
        let b = graph.node(exp).current_evaluation;
        let current_evaluation = a.powf(&b);
        graph.push(
            ValueInner {
                current_evaluation,
                gradient: None,
                operation: ValueOperation::Exponentiation { base: *self, exp },
                label: None,
            },
        )
    }

    /// A new node: the hyperbolic tangent of this node.
    pub fn tanh<S: Scalar>(&self, graph: &mut Graph<S>) -> (t: Value)
        requires
            old(graph).wf(),
            self.id < old(graph)@.len(),
        ensures
            final(graph).wf(),
            t.id == old(graph)@.len(),
            appended(final(graph)@, old(graph)@, ValueOperation::Tanh(*self)),
            call_ensures(
                S::tanh,
                (&old(graph)@[self.id as int].current_evaluation,),
                final(graph)@[t.id as int].current_evaluation,
            ),
    {
        let a = graph.node(*self).current_evaluation;
        let current_evaluation = a.tanh();
        graph.push(
            ValueInner {
                current_evaluation,
                gradient: None,
                operation: ValueOperation::Tanh(*self),
                label: None,
            },
        )
    }

    /// A new node: `e` raised to the power of this node.
    pub fn exp<S: Scalar>(&self, graph: &mut Graph<S>) -> (e: Value)
        requires
            old(graph).wf(),
            self.id < old(graph)@.len(),
        ensures
            final(graph).wf(),
            e.id == old(graph)@.len(),
            appended(final(graph)@, old(graph)@, ValueOperation::Exp { exp: *self }),
            call_ensures(
                S::exp,
                (&old(graph)@[self.id as int].current_evaluation,),
                final(graph)@[e.id as int].current_evaluation,
            ),
    {
        let a = graph.node(*self).current_evaluation;
        let current_evaluation = a.exp();
        graph.push(
            ValueInner {
                current_evaluation,
                gradient: None,
                operation: ValueOperation::Exp { exp: *self },
                label: None,
            },
        )
    }

    /// This node divided by `rhs`, written as this node times `rhs` to the
    /// power -1: three new nodes, a leaf holding -1, the power, and the
    /// product, which is returned. The product's number is this node's number
    /// times `rhs`'s number to the integer power -1.
    pub fn div<S: Scalar>(self, graph: &mut Graph<S>, rhs: Value) -> (quotient: Value)
        requires
            old(graph).wf(),
            self.id < old(graph)@.len(),
            rhs.id < old(graph)@.len(),
        ensures
            final(graph).wf(),
            ({
                let n = old(graph)@.len() as int;
                let a = old(graph)@[self.id as int].current_evaluation;
                let b = old(graph)@[rhs.id as int].current_evaluation;
                let g = final(graph)@;
                &&& quotient.id == n + 2
                &&& g.len() == n + 3
                &&& extends(g, old(graph)@)
                &&& g[n] == ValueInner::<S> {
                    current_evaluation: g[n].current_evaluation,
                    gradient: None,
                    operation: ValueOperation::Leaf,
                    label: None,
                }
                &&& call_ensures(S::from_integer, (-1i32,), g[n].current_evaluation)
                &&& g[n + 1].operation == ValueOperation::Exponentiation { base: rhs, exp: Value { id: n as usize } }
                &&& g[n + 1].gradient is None && g[n + 1].label is None
                &&& call_ensures(S::powf, (&b, &g[n].current_evaluation), g[n + 1].current_evaluation)
                &&& g[n + 2].operation == ValueOperation::Multiplication(self, Value { id: (n + 1) as usize })
                &&& g[n + 2].gradient is None && g[n + 2].label is None
                &&& exists|r: S|
                    #[trigger] call_ensures(S::powi, (&b, -1i32), r)
                        && call_ensures(S::times, (&a, &r), g[n + 2].current_evaluation)
            }),
    {
        let a = graph.node(self).current_evaluation;
        let b = graph.node(rhs).current_evaluation;
        let reciprocal = b.powi(-1);
        let current_evaluation = a.times(&reciprocal);
        let minus_one = Value::leaf(graph, S::from_integer(-1));
        let power = rhs.pow(graph, minus_one);
        graph.push(
            ValueInner {
                current_evaluation,
                gradient: None,
                operation: ValueOperation::Multiplication(self, power),
                label: None,
            },
        )
    }

    /// Clears the gradient of this node and of every node it is computed
    /// from, directly or not.
    pub fn zero_gradient<S: Scalar>(&self, graph: &mut Graph<S>)
        requires
            old(graph).wf(),
            self.id < old(graph)@.len(),
        ensures
            final(graph).wf(),
            cleared(old(graph)@, self.id as nat, final(graph)@),
        decreases self.id,
    {
        let ghost ops = operations_of(old(graph)@);
        graph.set_gradient(*self, None);
        let children = self.children(graph);
        proof {
            lemma_same_operations(graph@, old(graph)@);
            assert(ops[self.id as int] == old(graph)@[self.id as int].operation);
            assert(children@ == ops[self.id as int].followed(true));
        }
        let mut k: usize = 0;
        while k < children.len()
            invariant
                k <= children@.len(),
                children@ == ops[self.id as int].followed(true),
                children@.len() <= 2,
                self.id < old(graph)@.len(),
                forall|j: int| 0 <= j < children@.len() ==> #[trigger] children@[j].id < self.id,
                graph.wf(),
                ops == operations_of(old(graph)@),
                same_but_gradients(graph@, old(graph)@),
                forall|i: int|
                    0 <= i < old(graph)@.len() ==> (#[trigger] graph@[i]).gradient == if i == self.id
                        || (k > 0 && reaches(ops, children@[0].id as nat, i as nat, true))
                        || (k > 1 && reaches(ops, children@[1].id as nat, i as nat, true)) {
                        None
                    } else {
                        old(graph)@[i].gradient
                    },
            decreases children@.len() - k,
        {
            let child = children[k];
            let ghost before = graph@;
            child.zero_gradient(graph);
            proof {
                lemma_same_operations(before, old(graph)@);
                lemma_same_operations(graph@, before);
            }
            k = k + 1;
        }
        proof {
            assert forall|i: int| 0 <= i < old(graph)@.len() implies (#[trigger] graph@[i]).gradient
                == if reaches(ops, self.id as nat, i as nat, true) {
                None
            } else {
                old(graph)@[i].gradient
            } by {
                let c = ops[self.id as int].followed(true);
                if i != self.id {
                    assert(reaches(ops, self.id as nat, i as nat, true) == (
                        (c.len() > 0 && c[0].id < self.id && reaches(ops, c[0].id as nat, i as nat, true))
                        || (c.len() > 1 && c[1].id < self.id && reaches(ops, c[1].id as nat, i as nat, true))));
                }
            }
        }
    }

    /// Adds `gradient` to this node's gradient, and passes on to each operand
    /// the gradient that the chain rule gives it; the exponent of an
    /// exponentiation gets none. A node reached along several paths receives
    /// one contribution per path.
    pub fn backprop<S: Scalar>(&self, graph: &mut Graph<S>, gradient: S)
        requires
            old(graph).wf(),
            self.id < old(graph)@.len(),
        ensures
            final(graph).wf(),
            backpropagated(old(graph)@, self.id as nat, gradient, final(graph)@),
            spread(old(graph)@, self.id as nat, gradient, final(graph)@),
        decreases self.id,
    {
        let ghost ops = operations_of(old(graph)@);
        let node = graph.node(*self);
        let total = match node.gradient {
            Some(existing) => gradient.plus(&existing),
            None => gradient,
        };
        graph.set_gradient(*self, Some(total));
        let self_value = node.current_evaluation;
        let ghost start = graph@;
        proof {
            lemma_same_operations(graph@, old(graph)@);
            assert(ops[self.id as int] == node.operation);
            assert(accumulated(node.gradient, gradient, Some(total)));
        }
        match node.operation {
            ValueOperation::Leaf => {
                proof {
                    let record = Propagation {
                        total: Some(total),
                        passed: Seq::<S>::empty(),
                        states: Seq::<Seq<ValueInner<S>>>::empty(),
                        steps: Seq::<Propagation<S>>::empty(),
                    };
                    assert(follows(old(graph)@, self.id as nat, gradient, graph@, record));
                }
            },
            ValueOperation::Addition(left, right) => {
                proof { self.lemma_operands_below(old(graph)@); }
                left.backprop(graph, gradient);
                let ghost middle = graph@;
                proof { lemma_same_operations(middle, old(graph)@); }
                right.backprop(graph, gradient);
                proof {
                    lemma_same_operations(graph@, old(graph)@);
                    let first = choose|p: Propagation<S>| follows(start, left.id as nat, gradient, middle, p);
                    let second = choose|p: Propagation<S>| follows(middle, right.id as nat, gradient, graph@, p);
                    let record = Propagation {
                        total: Some(total),
                        passed: seq![gradient, gradient],
                        states: seq![middle, graph@],
                        steps: seq![first, second],
                    };
                    assert(follows(old(graph)@, self.id as nat, gradient, graph@, record));
                }
            },
            ValueOperation::Subtraction(left, right) => {
                proof { self.lemma_operands_below(old(graph)@); }
                left.backprop(graph, gradient);
                let ghost middle = graph@;
                proof { lemma_same_operations(middle, old(graph)@); }
                let negated = gradient.negated();
                right.backprop(graph, negated);
                proof {
                    lemma_same_operations(graph@, old(graph)@);
                    let first = choose|p: Propagation<S>| follows(start, left.id as nat, gradient, middle, p);
                    let second = choose|p: Propagation<S>| follows(middle, right.id as nat, negated, graph@, p);
                    let record = Propagation {
                        total: Some(total),
                        passed: seq![gradient, negated],
                        states: seq![middle, graph@],
                        steps: seq![first, second],
                    };
                    assert(follows(old(graph)@, self.id as nat, gradient, graph@, record));
                }
            },
            ValueOperation::Multiplication(left, right) => {
                proof { self.lemma_operands_below(old(graph)@); }
                let right_value = right.evaluate_value(graph);
                let to_left = right_value.times(&gradient);
                left.backprop(graph, to_left);
                let ghost middle = graph@;
                proof { lemma_same_operations(middle, old(graph)@); }
                let left_value = left.evaluate_value(graph);
                let to_right = left_value.times(&gradient);
                right.backprop(graph, to_right);
                proof {
                    lemma_same_operations(graph@, old(graph)@);
                    let first = choose|p: Propagation<S>| follows(start, left.id as nat, to_left, middle, p);
                    let second = choose|p: Propagation<S>| follows(middle, right.id as nat, to_right, graph@, p);
                    let record = Propagation {
                        total: Some(total),
                        passed: seq![to_left, to_right],
                        states: seq![middle, graph@],
                        steps: seq![first, second],
                    };
                    assert(follows(old(graph)@, self.id as nat, gradient, graph@, record));
                }
            },
            ValueOperation::Tanh(child) => {
                proof { self.lemma_operands_below(old(graph)@); }
                let one = S::from_integer(1);
                let square = self_value.powi(2);
                let slope = one.minus(&square);
                let to_operand = slope.times(&gradient);
                child.backprop(graph, to_operand);
                proof {
                    lemma_same_operations(graph@, old(graph)@);
                    assert(tanh_gradient(self_value, gradient, to_operand));
                    let first = choose|p: Propagation<S>| follows(start, child.id as nat, to_operand, graph@, p);
                    let record = Propagation {
                        total: Some(total),
                        passed: seq![to_operand],
                        states: seq![graph@],
                        steps: seq![first],
                    };
                    assert(follows(old(graph)@, self.id as nat, gradient, graph@, record));
                }
            },
            ValueOperation::Exponentiation { base, exp } => {
                proof { self.lemma_operands_below(old(graph)@); }
                let exp_value = exp.evaluate_value(graph);
                let base_value = base.evaluate_value(graph);
                let one = S::from_integer(1);
                let lowered = exp_value.minus(&one);
                let power = base_value.powf(&lowered);
                let slope = exp_value.times(&power);
                let to_base = slope.times(&gradient);
                base.backprop(graph, to_base);
                proof {
                    lemma_same_operations(graph@, old(graph)@);
                    assert(power_gradient(base_value, exp_value, gradient, to_base));
                    let first = choose|p: Propagation<S>| follows(start, base.id as nat, to_base, graph@, p);
                    let record = Propagation {
                        total: Some(total),
                        passed: seq![to_base],
                        states: seq![graph@],
                        steps: seq![first],
                    };
                    assert(follows(old(graph)@, self.id as nat, gradient, graph@, record));
                }
            },
            ValueOperation::Exp { exp } => {
                proof { self.lemma_operands_below(old(graph)@); }
                let e = exp.evaluate_value(graph).exp();
                let to_operand = e.times(&gradient);
                exp.backprop(graph, to_operand);
                proof {
                    lemma_same_operations(graph@, old(graph)@);
                    assert(exp_gradient(old(graph)@[exp.id as int].current_evaluation, gradient, to_operand));
                    let first = choose|p: Propagation<S>| follows(start, exp.id as nat, to_operand, graph@, p);
                    let record = Propagation {
                        total: Some(total),
                        passed: seq![to_operand],
                        states: seq![graph@],
                        steps: seq![first],
                    };
                    assert(follows(old(graph)@, self.id as nat, gradient, graph@, record));
                }
            },
        }
        proof {
            let c = ops[self.id as int].followed(false);
            if c.len() > 0 {
                if reaches(ops, c[0].id as nat, self.id as nat, false) {
                    lemma_reaches_below(ops, c[0].id as nat, self.id as nat, false);
                }
            }
            if c.len() > 1 {
                if reaches(ops, c[1].id as nat, self.id as nat, false) {
                    lemma_reaches_below(ops, c[1].id as nat, self.id as nat, false);
                }
            }
            assert forall|i: int| 0 <= i < old(graph)@.len() && i != self.id implies #[trigger] reaches(ops, self.id as nat, i as nat, false) == (
                (c.len() > 0 && c[0].id < self.id && reaches(ops, c[0].id as nat, i as nat, false))
                || (c.len() > 1 && c[1].id < self.id && reaches(ops, c[1].id as nat, i as nat, false))) by {}
        }
    }

    /// Moves the node's number against its gradient: the number becomes
    /// itself minus `learning_rate` times the gradient.
    pub fn step_value<S: Scalar>(&self, graph: &mut Graph<S>, learning_rate: S)
        requires
            old(graph).wf(),
            self.id < old(graph)@.len(),
            old(graph)@[self.id as int].gradient is Some,
        ensures
            final(graph).wf(),
            same_but_values(final(graph)@, old(graph)@),
            forall|i: int|
                0 <= i < old(graph)@.len() && i != self.id ==> #[trigger] final(graph)@[i] == old(graph)@[i],
            stepped(old(graph)@[self.id as int], final(graph)@[self.id as int], learning_rate),
    {
        let node = graph.node(*self);
        let gradient = match node.gradient {
            Some(g) => g,
            None => { return; },
        };
        let step = learning_rate.times(&gradient);
        let current_evaluation = node.current_evaluation.minus(&step);
        graph.nodes.set(self.id, ValueInner { current_evaluation, ..node });
        proof {
            lemma_same_operations(graph@, old(graph)@);
        }
    }

    /// Whether the expression at this node equals the one at `other`: the
    /// nodes are compared field by field (number, gradient, operation with
    /// its operands as expressions, label), stopping at the first difference.
    /// (`==` on handles asks whether they name the same node.)
    pub fn same_expression<S: Scalar>(&self, graph: &Graph<S>, other: Value) -> (same: bool)
        requires
            graph.wf(),
            self.id < graph@.len(),
            other.id < graph@.len(),
        ensures
            compares_equal(graph@, self.id as nat, other.id as nat, same),
        decreases self.id + other.id,
    {
        let x = graph.node(*self);
        let y = graph.node(other);
        proof {
            self.lemma_operands_below(graph@);
            other.lemma_operands_below(graph@);
        }
        if !x.current_evaluation.equals(&y.current_evaluation) {
            return false;
        }
        let gradients = match (x.gradient, y.gradient) {
            (None, None) => true,
            (Some(p), Some(q)) => p.equals(&q),
            _ => false,
        };
        if !gradients {
            return false;
        }
        let operations = match (x.operation, y.operation) {
            (ValueOperation::Leaf, ValueOperation::Leaf) => true,
            (ValueOperation::Addition(l1, r1), ValueOperation::Addition(l2, r2)) => {
                l1.same_expression(graph, l2) && r1.same_expression(graph, r2)
            },
            (ValueOperation::Subtraction(l1, r1), ValueOperation::Subtraction(l2, r2)) => {
                l1.same_expression(graph, l2) && r1.same_expression(graph, r2)
            },
            (ValueOperation::Multiplication(l1, r1), ValueOperation::Multiplication(l2, r2)) => {
                l1.same_expression(graph, l2) && r1.same_expression(graph, r2)
            },
            (
                ValueOperation::Exponentiation { base: b1, exp: e1 },
                ValueOperation::Exponentiation { base: b2, exp: e2 },
            ) => {
                b1.same_expression(graph, b2) && e1.same_expression(graph, e2)
            },
            (ValueOperation::Exp { exp: e1 }, ValueOperation::Exp { exp: e2 }) => e1.same_expression(graph, e2),
            (ValueOperation::Tanh(c1), ValueOperation::Tanh(c2)) => c1.same_expression(graph, c2),
            _ => false,
        };
        if !operations {
            return false;
        }
        same_label(x.label, y.label)
    }

    /// The node written out: `Leaf(v)` for a leaf, otherwise
    /// `Value(Op=o, v=v, g=g)` with the operation's symbol, the number, and
    /// the gradient as `None` or `Some(..)`.
    pub fn to_display_string<S: Scalar>(&self, graph: &Graph<S>) -> (text: String)
        requires
            self.id < graph@.len(),
        ensures
            display_of(graph@[self.id as int], text@),
    {
        let node = graph.node(*self);
        let value_text = node.current_evaluation.to_text();
        let mut text = String::new();
        match node.operation {
            ValueOperation::Leaf => {
                text.append("Leaf(");
                text.append(value_text.as_str());
                text.append(")");
            },
            op => {
                text.append("Value(Op=");
                text.append(op.symbol());
                text.append(", v=");
                text.append(value_text.as_str());
                text.append(", g=");
                match node.gradient {
                    None => {
                        text.append("None");
                    },
                    Some(g) => {
                        let gradient_text = g.to_debug_text();
                        text.append("Some(");
                        text.append(gradient_text.as_str());
                        text.append(")");
                    },
                }
                text.append(")");
            },
        }
        text
    }

    /// The operands of a node of a valid graph were made before it.
    pub proof fn lemma_operands_below_graph<S: Scalar>(&self, nodes: Seq<ValueInner<S>>)
        requires
            well_formed(nodes),
            self.id < nodes.len(),
        ensures
            forall|k: int|
                0 <= k < nodes[self.id as int].operation.operands().len() ==> (#[trigger] nodes[self.id as int].operation.operands()[k]).id
                    < self.id,
    {
    }

    /// The operands of a node in a well-formed graph were made before it.
    proof fn lemma_operands_below<S>(&self, nodes: Seq<ValueInner<S>>)
        requires
            well_formed(nodes),
            self.id < nodes.len(),
        ensures
            match nodes[self.id as int].operation {
                ValueOperation::Leaf => true,
                ValueOperation::Addition(l, r) => l.id < self.id && r.id < self.id,
                ValueOperation::Subtraction(l, r) => l.id < self.id && r.id < self.id,
                ValueOperation::Multiplication(l, r) => l.id < self.id && r.id < self.id,
                ValueOperation::Exponentiation { base, exp } => base.id < self.id && exp.id < self.id,
                ValueOperation::Exp { exp } => exp.id < self.id,
                ValueOperation::Tanh(v) => v.id < self.id,
            },
    {
        let ops = nodes[self.id as int].operation.operands();
        if ops.len() > 0 {
            assert(ops[0].id < self.id);
        }
        if ops.len() > 1 {
            assert(ops[1].id < self.id);
        }
    }
}

/// Clearing the gradients below a node and then backpropagating `seed`
/// from it: the node ends with exactly `seed` as its gradient; among the
/// nodes it is computed from, those reached through operands that receive a
/// gradient end with one, and those reached only through the exponent of a
/// power end with none; every other node keeps the gradient it had, and no
/// number, operation or label changes.
pub proof fn lemma_backprop_after_clearing<S: Scalar>(
    initial: Seq<ValueInner<S>>,
    zeroed: Seq<ValueInner<S>>,
    after: Seq<ValueInner<S>>,
    v: nat,
    seed: S,
)
    requires
        v < initial.len(),
        cleared(initial, v, zeroed),
        spread(zeroed, v, seed, after),
    ensures
        after[v as int].gradient == Some(seed),
        forall|i: int|
            0 <= i < initial.len() && reaches(operations_of(initial), v, i as nat, true) ==> (
            (#[trigger] after[i]).gradient is Some <==> reaches(operations_of(initial), v, i as nat, false)),
        forall|i: int|
            0 <= i < initial.len() && !reaches(operations_of(initial), v, i as nat, true)
                ==> (#[trigger] after[i]).gradient == initial[i].gradient,
        same_but_gradients(after, initial),
{
    lemma_same_operations(zeroed, initial);
    assert(reaches(operations_of(initial), v, v, true));
    assert(zeroed[v as int].gradient is None);
    assert forall|i: int|
        0 <= i < initial.len() && !reaches(operations_of(initial), v, i as nat, true) implies (
        #[trigger] after[i]).gradient == initial[i].gradient by {
        if reaches(operations_of(initial), v, i as nat, false) {
            lemma_gradient_walk_is_walk(operations_of(initial), v, i as nat);
        }
        assert(zeroed[i].gradient == initial[i].gradient);
    }
    assert forall|i: int| 0 <= i < initial.len() implies {
        &&& (#[trigger] after[i]).operation == initial[i].operation
        &&& after[i].current_evaluation == initial[i].current_evaluation
        &&& after[i].label == initial[i].label
    } by {
        assert(after[i].operation == zeroed[i].operation);
        assert(zeroed[i].operation == initial[i].operation);
    }
}

/// Backpropagating twice from a node that had no gradient: the node ends
/// with the sum of the two seeds, the second added to the first.
pub proof fn lemma_backprop_twice<S: Scalar>(
    before: Seq<ValueInner<S>>,
    middle: Seq<ValueInner<S>>,
    after: Seq<ValueInner<S>>,
    v: nat,
    first: S,
    second: S,
)
    requires
        v < before.len(),
        before[v as int].gradient is None,
        spread(before, v, first, middle),
        spread(middle, v, second, after),
    ensures
        after[v as int].gradient matches Some(total) && call_ensures(S::plus, (&second, &first), total),
{
    assert(middle[v as int].gradient == Some(first));
}

/// Clearing the gradients below a node twice is clearing them once: the
/// second clearing changes nothing.
pub proof fn lemma_clearing_twice<S>(
    initial: Seq<ValueInner<S>>,
    once: Seq<ValueInner<S>>,
    twice: Seq<ValueInner<S>>,
    v: nat,
)
    requires
        cleared(initial, v, once),
        cleared(once, v, twice),
    ensures
        twice == once,
{
    lemma_same_operations(once, initial);
    assert forall|i: int| 0 <= i < once.len() implies #[trigger] twice[i] == once[i] by {
        if reaches(operations_of(initial), v, i as nat, true) {
            assert(once[i].gradient is None);
        }
    }
    assert(twice =~= once);
}

/// `inside` on the nodes that `u` reaches through all operands, `outside`
/// on the others.
pub open spec fn graft<S>(
    ops: Seq<ValueOperation>,
    u: nat,
    inside: Seq<ValueInner<S>>,
    outside: Seq<ValueInner<S>>,
) -> Seq<ValueInner<S>> {
    Seq::new(outside.len(), |i: int| if reaches(ops, u, i as nat, true) { inside[i] } else { outside[i] })
}

/// Node `u` reaches each operand it passes a gradient to, and so everything
/// that operand reaches.
proof fn lemma_gradient_operand_reached<S>(nodes: Seq<ValueInner<S>>, u: nat, k: int, i: nat)
    requires
        well_formed(nodes),
        u < nodes.len(),
        0 <= k < nodes[u as int].operation.gradient_operands().len(),
        reaches(operations_of(nodes), nodes[u as int].operation.gradient_operands()[k].id as nat, i, true),
    ensures
        reaches(operations_of(nodes), u, i, true),
        nodes[u as int].operation.gradient_operands()[k].id < u,
{
    let ops = operations_of(nodes);
    let all = nodes[u as int].operation.operands();
    let c = nodes[u as int].operation.gradient_operands()[k];
    assert(c == all[k]);
    assert(all[k].id < u);
    assert(ops[u as int] == nodes[u as int].operation);
    assert(reaches(ops, c.id as nat, c.id as nat, true));
    assert(reaches(ops, u, c.id as nat, true));
    lemma_reaches_transitive(ops, u, c.id as nat, i, true);
}

/// A propagation from `u` changes only the gradients of nodes that `u`
/// reaches.
proof fn lemma_follows_frame<S: Scalar>(
    before: Seq<ValueInner<S>>,
    u: nat,
    incoming: S,
    after: Seq<ValueInner<S>>,
    p: Propagation<S>,
)
    requires
        follows(before, u, incoming, after, p),
        well_formed(before),
    ensures
        same_but_gradients(after, before),
        forall|i: int|
            0 <= i < before.len() && !reaches(operations_of(before), u, i as nat, true) ==> #[trigger] after[i]
                == before[i],
    decreases p,
{
    let ops = operations_of(before);
    let list = before[u as int].operation.gradient_operands();
    let start = before.update(u as int, ValueInner { gradient: p.total, ..before[u as int] });
    lemma_same_operations(start, before);
    assert(reaches(ops, u, u, true));
    if list.len() == 0 {
    } else {
        assert(start[u as int].operation == before[u as int].operation);
        assert(list == start[u as int].operation.gradient_operands());
        lemma_follows_frame(start, list[0].id as nat, p.passed[0], p.states[0], p.steps[0]);
        lemma_same_operations(p.states[0], start);
        assert forall|i: int| 0 <= i < before.len() && !reaches(ops, u, i as nat, true) implies #[trigger] p.states[
            0
        ][i] == before[i] by {
            if reaches(ops, list[0].id as nat, i as nat, true) {
                lemma_gradient_operand_reached(before, u, 0, i as nat);
            }
        }
        if list.len() >= 2 {
            lemma_follows_frame(p.states[0], list[1].id as nat, p.passed[1], p.states[1], p.steps[1]);
            assert forall|i: int| 0 <= i < before.len() && !reaches(ops, u, i as nat, true) implies #[trigger] after[i]
                == before[i] by {
                if reaches(ops, list[1].id as nat, i as nat, true) {
                    lemma_gradient_operand_reached(before, u, 1, i as nat);
                }
                assert(p.states[0][i] == before[i]);
            }
        }
    }
}

/// A propagation from `u` can be replayed on a graph that agrees with
/// `before` but for the gradients of the nodes that `u` does not reach: it
/// ends with the nodes that `u` reaches as in `after`, and the others
/// untouched.
proof fn lemma_follows_graft<S: Scalar>(
    before: Seq<ValueInner<S>>,
    other: Seq<ValueInner<S>>,
    u: nat,
    incoming: S,
    after: Seq<ValueInner<S>>,
    p: Propagation<S>,
) -> (q: Propagation<S>)
    requires
        follows(before, u, incoming, after, p),
        well_formed(before),
        same_but_gradients(other, before),
        forall|i: int|
            0 <= i < before.len() && reaches(operations_of(before), u, i as nat, true) ==> (#[trigger] other[i]).gradient
                == before[i].gradient,
    ensures
        follows(other, u, incoming, graft(operations_of(before), u, after, other), q),
    decreases p,
{
    let ops = operations_of(before);
    let list = before[u as int].operation.gradient_operands();
    let start = before.update(u as int, ValueInner { gradient: p.total, ..before[u as int] });
    let start2 = other.update(u as int, ValueInner { gradient: p.total, ..other[u as int] });
    lemma_same_operations(start, before);
    lemma_same_operations(other, before);
    lemma_same_operations(start2, before);
    lemma_follows_frame(before, u, incoming, after, p);
    assert(reaches(ops, u, u, true));
    assert(other[u as int].operation == before[u as int].operation);
    assert(other[u as int].gradient == before[u as int].gradient);
    assert forall|k: int| 0 <= k < before.len() implies #[trigger] other[k].current_evaluation
        == before[k].current_evaluation by {}
    assert(chain_rule(other, u, incoming, p.passed));
    // Where `u` reaches, `start` and `start2` hold the same nodes.
    assert forall|i: int| 0 <= i < before.len() && reaches(ops, u, i as nat, true) implies #[trigger] start2[i]
        == start[i] by {
        if i != u {
            assert(other[i].gradient == before[i].gradient);
            assert(other[i].operation == before[i].operation);
        }
    }
    if list.len() == 0 {
        let q = Propagation {
            total: p.total,
            passed: p.passed,
            states: Seq::<Seq<ValueInner<S>>>::empty(),
            steps: Seq::<Propagation<S>>::empty(),
        };
        assert(graft(ops, u, after, other) =~= start2);
        assert(follows(other, u, incoming, graft(ops, u, after, other), q));
        q
    } else {
        let c0 = list[0].id as nat;
        assert(list == start[u as int].operation.gradient_operands());
        assert forall|i: int| 0 <= i < start.len() && reaches(operations_of(start), c0, i as nat, true) implies (
        #[trigger] start2[i]).gradient == start[i].gradient by {
            lemma_gradient_operand_reached(before, u, 0, i as nat);
        }
        let q0 = lemma_follows_graft(start, start2, c0, p.passed[0], p.states[0], p.steps[0]);
        let t0 = graft(ops, c0, p.states[0], start2);
        lemma_follows_frame(start, c0, p.passed[0], p.states[0], p.steps[0]);
        // What `t0` holds: the first operand's propagation where it reaches,
        // `start2` elsewhere.
        assert forall|i: int| 0 <= i < before.len() implies #[trigger] t0[i] == graft(ops, u, p.states[0], other)[i] by {
            if reaches(ops, c0, i as nat, true) {
                lemma_gradient_operand_reached(before, u, 0, i as nat);
            } else if reaches(ops, u, i as nat, true) {
                assert(p.states[0][i] == start[i]);
            }
        }
        if list.len() == 1 {
            assert(t0 =~= graft(ops, u, after, other));
            let q = Propagation { total: p.total, passed: p.passed, states: seq![t0], steps: seq![q0] };
            assert(follows(other, u, incoming, graft(ops, u, after, other), q));
            q
        } else {
            let c1 = list[1].id as nat;
            let s0 = p.states[0];
            lemma_same_operations(s0, start);
            assert(list == s0[u as int].operation.gradient_operands());
            assert forall|i: int| 0 <= i < s0.len() implies {
                &&& (#[trigger] t0[i]).operation == s0[i].operation
                &&& t0[i].current_evaluation == s0[i].current_evaluation
                &&& t0[i].label == s0[i].label
            } by {
                assert(start2[i].operation == before[i].operation);
                assert(start2[i].current_evaluation == before[i].current_evaluation);
                assert(start2[i].label == before[i].label);
            }
            assert forall|i: int| 0 <= i < s0.len() && reaches(operations_of(s0), c1, i as nat, true) implies (
            #[trigger] t0[i]).gradient == s0[i].gradient by {
                lemma_gradient_operand_reached(before, u, 1, i as nat);
                if !reaches(ops, c0, i as nat, true) {
                    assert(s0[i] == start[i]);
                }
            }
            let q1 = lemma_follows_graft(s0, t0, c1, p.passed[1], p.states[1], p.steps[1]);
            let t1 = graft(ops, c1, p.states[1], t0);
            lemma_follows_frame(s0, c1, p.passed[1], p.states[1], p.steps[1]);
            assert forall|i: int| 0 <= i < before.len() implies #[trigger] t1[i] == graft(ops, u, after, other)[i] by {
                if reaches(ops, c1, i as nat, true) {
                    lemma_gradient_operand_reached(before, u, 1, i as nat);
                } else {
                    assert(p.states[1][i] == s0[i]);
                }
            }
            assert(t1 =~= graft(ops, u, after, other));
            let q = Propagation { total: p.total, passed: p.passed, states: seq![t0, t1], steps: seq![q0, q1] };
            assert(follows(other, u, incoming, graft(ops, u, after, other), q));
            q
        }
    }
}

/// Stale gradients do not leak into backpropagation. Once the gradients
/// below `v` are cleared, backpropagating `seed` from `v` gives `v` and the
/// nodes it is computed from gradients that the same backpropagation gives
/// them on a copy of the graph that has no gradients below `v`, whatever the
/// copy holds elsewhere.
pub proof fn lemma_clearing_hides_stale_gradients<S: Scalar>(
    initial: Seq<ValueInner<S>>,
    zeroed: Seq<ValueInner<S>>,
    after: Seq<ValueInner<S>>,
    fresh: Seq<ValueInner<S>>,
    v: nat,
    seed: S,
)
    requires
        well_formed(initial),
        cleared(initial, v, zeroed),
        backpropagated(zeroed, v, seed, after),
        same_but_gradients(fresh, initial),
        forall|i: int|
            0 <= i < initial.len() && reaches(operations_of(initial), v, i as nat, true)
                ==> (#[trigger] fresh[i]).gradient is None,
    ensures
        backpropagated(fresh, v, seed, graft(operations_of(initial), v, after, fresh)),
{
    lemma_same_operations(zeroed, initial);
    lemma_same_operations(fresh, initial);
    let p = choose|p: Propagation<S>| follows(zeroed, v, seed, after, p);
    assert forall|i: int| 0 <= i < zeroed.len() implies {
        &&& (#[trigger] fresh[i]).operation == zeroed[i].operation
        &&& fresh[i].current_evaluation == zeroed[i].current_evaluation
        &&& fresh[i].label == zeroed[i].label
    } by {}
    let q = lemma_follows_graft(zeroed, fresh, v, seed, after, p);
    assert(follows(fresh, v, seed, graft(operations_of(initial), v, after, fresh), q));
}

/// After a propagation from `u`, `u`'s gradient is the one it took when the
/// incoming gradient was added: what its operands pass on never comes back
/// to it.
proof fn lemma_follows_own_gradient<S: Scalar>(
    before: Seq<ValueInner<S>>,
    u: nat,
    incoming: S,
    after: Seq<ValueInner<S>>,
    p: Propagation<S>,
)
    requires
        follows(before, u, incoming, after, p),
        well_formed(before),
    ensures
        after[u as int].gradient == p.total,
        accumulated(before[u as int].gradient, incoming, p.total),
        after.len() == before.len(),
{
    let ops = operations_of(before);
    let list = before[u as int].operation.gradient_operands();
    let start = before.update(u as int, ValueInner { gradient: p.total, ..before[u as int] });
    lemma_same_operations(start, before);
    lemma_follows_frame(before, u, incoming, after, p);
    if list.len() >= 1 {
        assert(list == start[u as int].operation.gradient_operands());
        lemma_follows_frame(start, list[0].id as nat, p.passed[0], p.states[0], p.steps[0]);
        assert(list[0].id < u) by {
            assert(reaches(ops, list[0].id as nat, list[0].id as nat, true));
            lemma_gradient_operand_reached(before, u, 0, list[0].id as nat);
        }
        if reaches(ops, list[0].id as nat, u, true) {
            lemma_reaches_below(ops, list[0].id as nat, u, true);
        }
        assert(p.states[0][u as int] == start[u as int]);
        if list.len() >= 2 {
            lemma_same_operations(p.states[0], start);
            assert(list == p.states[0][u as int].operation.gradient_operands());
            lemma_follows_frame(p.states[0], list[1].id as nat, p.passed[1], p.states[1], p.steps[1]);
            assert(list[1].id < u) by {
                assert(reaches(ops, list[1].id as nat, list[1].id as nat, true));
                lemma_gradient_operand_reached(before, u, 1, list[1].id as nat);
            }
            if reaches(ops, list[1].id as nat, u, true) {
                lemma_reaches_below(ops, list[1].id as nat, u, true);
            }
        }
    }
}

/// The chain rule at a node with one operand: backpropagating `incoming`
/// from a `tanh` node with number `t` adds `(1 - t^2) * incoming` to its
/// operand's gradient (which becomes exactly that if the operand had none);
/// from `e^x`, it adds `e^x * incoming`; from a power `base^exp`, it adds
/// `exp * base^(exp - 1) * incoming` to the base's gradient and nothing to
/// the exponent's (unless the base reaches the exponent).
pub proof fn lemma_chain_rule_one_operand<S: Scalar>(
    before: Seq<ValueInner<S>>,
    v: nat,
    incoming: S,
    after: Seq<ValueInner<S>>,
)
    requires
        well_formed(before),
        backpropagated(before, v, incoming, after),
    ensures
        before[v as int].operation matches ValueOperation::Tanh(c) ==> exists|one: S, square: S, slope: S, out: S|
            {
                &&& #[trigger] call_ensures(S::from_integer, (1i32,), one)
                &&& #[trigger] call_ensures(S::powi, (&before[v as int].current_evaluation, 2i32), square)
                &&& #[trigger] call_ensures(S::minus, (&one, &square), slope)
                &&& #[trigger] call_ensures(S::times, (&slope, &incoming), out)
                &&& match before[c.id as int].gradient {
                    None => after[c.id as int].gradient == Some(out),
                    Some(e) => after[c.id as int].gradient matches Some(total) && call_ensures(
                        S::plus,
                        (&out, &e),
                        total,
                    ),
                }
            },
        before[v as int].operation matches ValueOperation::Exp { exp: c } ==> exists|e: S, out: S|
            {
                &&& #[trigger] call_ensures(S::exp, (&before[c.id as int].current_evaluation,), e)
                &&& #[trigger] call_ensures(S::times, (&e, &incoming), out)
                &&& match before[c.id as int].gradient {
                    None => after[c.id as int].gradient == Some(out),
                    Some(g) => after[c.id as int].gradient matches Some(total) && call_ensures(
                        S::plus,
                        (&out, &g),
                        total,
                    ),
                }
            },
        before[v as int].operation matches ValueOperation::Exponentiation { base, exp } ==> exists|
            one: S,
            lowered: S,
            power: S,
            slope: S,
            out: S,
        |
            {
                &&& #[trigger] call_ensures(S::from_integer, (1i32,), one)
                &&& #[trigger] call_ensures(S::minus, (&before[exp.id as int].current_evaluation, &one), lowered)
                &&& #[trigger] call_ensures(S::powf, (&before[base.id as int].current_evaluation, &lowered), power)
                &&& #[trigger] call_ensures(S::times, (&before[exp.id as int].current_evaluation, &power), slope)
                &&& #[trigger] call_ensures(S::times, (&slope, &incoming), out)
                &&& match before[base.id as int].gradient {
                    None => after[base.id as int].gradient == Some(out),
                    Some(g) => after[base.id as int].gradient matches Some(total) && call_ensures(
                        S::plus,
                        (&out, &g),
                        total,
                    ),
                }
            },
        before[v as int].operation matches ValueOperation::Exponentiation { base, exp } ==> (!reaches(
            operations_of(before),
            base.id as nat,
            exp.id as nat,
            true,
        ) ==> after[exp.id as int].gradient == before[exp.id as int].gradient),
{
    let p = choose|p: Propagation<S>| follows(before, v, incoming, after, p);
    let node = before[v as int];
    let list = node.operation.gradient_operands();
    if list.len() == 1 {
        let start = before.update(v as int, ValueInner { gradient: p.total, ..node });
        lemma_same_operations(start, before);
        let c = list[0];
        assert(c.id < v) by {
            lemma_gradient_operand_reached(before, v, 0, c.id as nat);
        }
        lemma_follows_own_gradient(start, c.id as nat, p.passed[0], after, p.steps[0]);
        lemma_follows_frame(start, c.id as nat, p.passed[0], after, p.steps[0]);
        assert(start[c.id as int] == before[c.id as int]);
        if let ValueOperation::Exponentiation { base, exp } = node.operation {
            assert(node.operation.operands()[1].id < v);
            assert(start[exp.id as int] == before[exp.id as int]);
        }
    }
}

/// The chain rule at a node with two operands that do not reach each
/// other: backpropagating `incoming` from a sum adds `incoming` to the
/// gradient of each operand; from a difference, `incoming` to the first and
/// its negation to the second; from a product, to each factor the other
/// factor's number times `incoming`. (An operand with no gradient before
/// ends with exactly what it received.)
pub proof fn lemma_chain_rule_two_operands<S: Scalar>(
    before: Seq<ValueInner<S>>,
    v: nat,
    incoming: S,
    after: Seq<ValueInner<S>>,
    left: Value,
    right: Value,
)
    requires
        well_formed(before),
        backpropagated(before, v, incoming, after),
        before[v as int].operation.operands() == seq![left, right],
        !(before[v as int].operation is Exponentiation),
        left != right,
        !reaches(operations_of(before), left.id as nat, right.id as nat, true),
        !reaches(operations_of(before), right.id as nat, left.id as nat, true),
    ensures
        before[v as int].operation is Addition ==> (match before[left.id as int].gradient {
                    None => after[left.id as int].gradient == Some(incoming),
                    Some(g) => after[left.id as int].gradient matches Some(total) && call_ensures(
                        S::plus,
                        (&incoming, &g),
                        total,
                    ),
                }) && (match before[right.id as int].gradient {
                    None => after[right.id as int].gradient == Some(incoming),
                    Some(g) => after[right.id as int].gradient matches Some(total) && call_ensures(
                        S::plus,
                        (&incoming, &g),
                        total,
                    ),
                }),
        before[v as int].operation is Subtraction ==> exists|negated: S|
            #[trigger] call_ensures(S::negated, (&incoming,), negated) && (match before[left.id as int].gradient {
                    None => after[left.id as int].gradient == Some(incoming),
                    Some(g) => after[left.id as int].gradient matches Some(total) && call_ensures(
                        S::plus,
                        (&incoming, &g),
                        total,
                    ),
                }) && (match before[right.id as int].gradient {
                    None => after[right.id as int].gradient == Some(negated),
                    Some(g) => after[right.id as int].gradient matches Some(total) && call_ensures(
                        S::plus,
                        (&negated, &g),
                        total,
                    ),
                }),
        before[v as int].operation is Multiplication ==> exists|to_left: S, to_right: S|
            #[trigger] call_ensures(S::times, (&before[right.id as int].current_evaluation, &incoming), to_left)
                && #[trigger] call_ensures(S::times, (&before[left.id as int].current_evaluation, &incoming), to_right)
                && (match before[left.id as int].gradient {
                    None => after[left.id as int].gradient == Some(to_left),
                    Some(g) => after[left.id as int].gradient matches Some(total) && call_ensures(
                        S::plus,
                        (&to_left, &g),
                        total,
                    ),
                }) && (match before[right.id as int].gradient {
                    None => after[right.id as int].gradient == Some(to_right),
                    Some(g) => after[right.id as int].gradient matches Some(total) && call_ensures(
                        S::plus,
                        (&to_right, &g),
                        total,
                    ),
                }),
{
    let p = choose|p: Propagation<S>| follows(before, v, incoming, after, p);
    let node = before[v as int];
    let ops = operations_of(before);
    let list = node.operation.gradient_operands();
    let start = before.update(v as int, ValueInner { gradient: p.total, ..node });
    lemma_same_operations(start, before);
    {
        assert(list == seq![left, right]);
        assert(left.id < v) by {
            lemma_gradient_operand_reached(before, v, 0, left.id as nat);
        }
        assert(right.id < v) by {
            lemma_gradient_operand_reached(before, v, 1, right.id as nat);
        }
        let s0 = p.states[0];
        lemma_follows_own_gradient(start, left.id as nat, p.passed[0], s0, p.steps[0]);
        lemma_follows_frame(start, left.id as nat, p.passed[0], s0, p.steps[0]);
        lemma_same_operations(s0, start);
        lemma_follows_own_gradient(s0, right.id as nat, p.passed[1], after, p.steps[1]);
        lemma_follows_frame(s0, right.id as nat, p.passed[1], after, p.steps[1]);
        assert(start[left.id as int] == before[left.id as int]);
        assert(s0[right.id as int] == start[right.id as int]);
        assert(start[right.id as int] == before[right.id as int]);
        assert(after[left.id as int] == s0[left.id as int]);
    }
}

/// The graph with the gradients of `v` and of every node it is computed
/// from (directly or not) removed.
pub open spec fn without_gradients_below<S>(nodes: Seq<ValueInner<S>>, v: nat) -> Seq<ValueInner<S>> {
    Seq::new(
        nodes.len(),
        |i: int|
            if reaches(operations_of(nodes), v, i as nat, true) {
                ValueInner { gradient: None, ..nodes[i] }
            } else {
                nodes[i]
            },
    )
}

/// Clearing and then backpropagating from `v` ends where backpropagating
/// from `v` on the graph without any gradient below `v` can end: the
/// gradients that stood below `v` before the clearing play no part.
pub proof fn lemma_cleared_backprop_is_fresh<S: Scalar>(
    initial: Seq<ValueInner<S>>,
    zeroed: Seq<ValueInner<S>>,
    after: Seq<ValueInner<S>>,
    v: nat,
    seed: S,
)
    requires
        well_formed(initial),
        cleared(initial, v, zeroed),
        backpropagated(zeroed, v, seed, after),
    ensures
        backpropagated(without_gradients_below(initial, v), v, seed, after),
{
    let ops = operations_of(initial);
    let fresh = without_gradients_below(initial, v);
    lemma_same_operations(zeroed, initial);
    assert forall|i: int| 0 <= i < initial.len() implies {
        &&& (#[trigger] fresh[i]).operation == initial[i].operation
        &&& fresh[i].current_evaluation == initial[i].current_evaluation
        &&& fresh[i].label == initial[i].label
    } by {}
    lemma_clearing_hides_stale_gradients(initial, zeroed, after, fresh, v, seed);
    let p = choose|p: Propagation<S>| follows(zeroed, v, seed, after, p);
    lemma_follows_frame(zeroed, v, seed, after, p);
    assert forall|i: int| 0 <= i < initial.len() implies #[trigger] graft(ops, v, after, fresh)[i] == after[i] by {
        if !reaches(ops, v, i as nat, true) {
            assert(after[i] == zeroed[i]);
            assert(zeroed[i].gradient == initial[i].gradient);
            assert(zeroed[i].operation == initial[i].operation);
        }
    }
    assert(graft(ops, v, after, fresh) =~= after);
}

/// Each kind of operation is shown by a symbol of its own: `leaf` for a
/// leaf, `+` for a sum, `-` for a difference, `*` for a product, `^` for a
/// power, `tanh` for a hyperbolic tangent and `e^` for an exponential; two
/// operations are shown alike exactly when they are of the same kind.
pub proof fn lemma_symbols(a: ValueOperation, b: ValueOperation)
    ensures
        a is Leaf ==> a.symbol_spec() == "leaf"@,
        a is Addition ==> a.symbol_spec() == "+"@,
        a is Subtraction ==> a.symbol_spec() == "-"@,
        a is Multiplication ==> a.symbol_spec() == "*"@,
        a is Exponentiation ==> a.symbol_spec() == "^"@,
        a is Tanh ==> a.symbol_spec() == "tanh"@,
        a is Exp ==> a.symbol_spec() == "e^"@,
        (a.symbol_spec() == b.symbol_spec()) <==> (a is Leaf && b is Leaf || a is Addition && b is Addition
            || a is Subtraction && b is Subtraction || a is Multiplication && b is Multiplication
            || a is Exponentiation && b is Exponentiation || a is Tanh && b is Tanh || a is Exp && b is Exp),
{
    reveal_strlit("leaf");
    reveal_strlit("+");
    reveal_strlit("-");
    reveal_strlit("*");
    reveal_strlit("^");
    reveal_strlit("tanh");
    reveal_strlit("e^");
    let sa = a.symbol_spec();
    let sb = b.symbol_spec();
    if sa == sb {
        assert(sa.len() == sb.len());
        assert(sa[0] == sb[0]);
    }
}

/// Two expressions compare equal only when every comparison that decided
/// it said so: their numbers compared equal; their gradients are both absent,
/// or both present and compared equal; their operations are of the same kind
/// with operands that compare equal in order; and their labels are both
/// absent or the same text.
pub proof fn lemma_equal_expressions<S: Scalar>(nodes: Seq<ValueInner<S>>, a: nat, b: nat)
    requires
        compares_equal(nodes, a, b, true),
    ensures
        a < nodes.len() && b < nodes.len(),
        call_ensures(S::equals, (&nodes[a as int].current_evaluation, &nodes[b as int].current_evaluation), true),
        nodes[a as int].gradient is None <==> nodes[b as int].gradient is None,
        nodes[a as int].gradient is Some ==> call_ensures(
            S::equals,
            (&nodes[a as int].gradient.unwrap(), &nodes[b as int].gradient.unwrap()),
            true,
        ),
        nodes[a as int].label is None <==> nodes[b as int].label is None,
        nodes[a as int].label is Some ==> nodes[a as int].label.unwrap()@ == nodes[b as int].label.unwrap()@,
        nodes[a as int].operation.operands().len() == nodes[b as int].operation.operands().len(),
        nodes[a as int].operation is Leaf <==> nodes[b as int].operation is Leaf,
        nodes[a as int].operation is Addition <==> nodes[b as int].operation is Addition,
        nodes[a as int].operation is Subtraction <==> nodes[b as int].operation is Subtraction,
        nodes[a as int].operation is Multiplication <==> nodes[b as int].operation is Multiplication,
        nodes[a as int].operation is Exponentiation <==> nodes[b as int].operation is Exponentiation,
        nodes[a as int].operation is Tanh <==> nodes[b as int].operation is Tanh,
        nodes[a as int].operation is Exp <==> nodes[b as int].operation is Exp,
        forall|k: int|
            0 <= k < nodes[a as int].operation.operands().len() ==> compares_equal(
                nodes,
                (#[trigger] nodes[a as int].operation.operands()[k]).id as nat,
                nodes[b as int].operation.operands()[k].id as nat,
                true,
            ),
{
    let x = nodes[a as int];
    let y = nodes[b as int];
    let numbers = (&x.current_evaluation, &y.current_evaluation);
    assert(call_ensures(S::equals, numbers, true));
    assert(optional_numbers_compare(x.gradient, y.gradient, true));
    assert(operands_compare(nodes, a, b, true));
    assert(labels_match(x.label, y.label));
    assert(same_kind(x.operation, y.operation));
    let p = x.operation.operands();
    let q = y.operation.operands();
    assert(p.len() == q.len());
    if p.len() == 2 {
        assert(compares_equal(nodes, p[0].id as nat, q[0].id as nat, true));
        assert(compares_equal(nodes, p[1].id as nat, q[1].id as nat, true));
    }
}

/// How a node is written out: a leaf as `Leaf(` and its number's text and
/// `)`; any other node as `Value(Op=`, its operation's symbol, `, v=`, its
/// number's text, `, g=`, then `None` or `Some(` with the gradient's text and
/// `)`, and a closing `)`.
pub proof fn lemma_display_forms<S: Scalar>(node: ValueInner<S>, text: Seq<char>)
    requires
        display_of(node, text),
    ensures
        exists|value_text: String|
            {
                &&& #[trigger] call_ensures(S::to_text, (&node.current_evaluation,), value_text)
                &&& node.operation is Leaf ==> text == "Leaf("@ + value_text@ + ")"@
                &&& !(node.operation is Leaf) && node.gradient is None ==> text == "Value(Op="@
                    + node.operation.symbol_spec() + ", v="@ + value_text@ + ", g="@ + "None"@ + ")"@
                &&& !(node.operation is Leaf) && node.gradient is Some ==> exists|gradient_text: String|
                    #[trigger] call_ensures(S::to_debug_text, (&node.gradient.unwrap(),), gradient_text) && text
                        == "Value(Op="@ + node.operation.symbol_spec() + ", v="@ + value_text@ + ", g="@
                        + "Some("@ + gradient_text@ + ")"@ + ")"@
            },
{
}

/// Stepping a node moves its number against its gradient: the new number is
/// the old one minus `learning_rate` times the gradient.
pub proof fn lemma_step_moves_against_gradient<S: Scalar>(
    before: ValueInner<S>,
    after: ValueInner<S>,
    learning_rate: S,
)
    requires
        stepped(before, after, learning_rate),
    ensures
        exists|step: S|
            #[trigger] call_ensures(S::times, (&learning_rate, &before.gradient.unwrap()), step) && call_ensures(
                S::minus,
                (&before.current_evaluation, &step),
                after.current_evaluation,
            ),
{
}

} // verus!
