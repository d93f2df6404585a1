use vstd::prelude::*;

use crate::neuron::all_below;
use crate::scalar::Scalar;
use crate::value::{
    display_of, extends, lemma_reaches_prefix, lemma_reaches_transitive, operations_of, reaches, Graph,
    Value, ValueInner, ValueOperation,
};
use vstd::string::StringExecFns;

verus! {

/// The running loss of `calculate_loss_from_outputs_and_targets` built from
/// node `base` on: the zero leaf before the first pair, then the power node
/// made for each pair.
pub open spec fn loss_accumulator(base: int, j: int) -> Value {
    if j == 0 {
        Value { id: base as usize }
    } else {
        Value { id: (base + 4 * j) as usize }
    }
}

/// The four nodes made for pair `j`: the difference of output and target
/// (labelled "Loss"), the running loss plus that difference (labelled "Loss
/// Accumulation"), a leaf holding 2, and the sum raised to that power.
pub open spec fn loss_step_made<S: Scalar>(
    g: Seq<ValueInner<S>>,
    base: int,
    outputs: Seq<Value>,
    targets: Seq<Value>,
    j: int,
) -> bool {
    let difference = g[base + 4 * j + 1];
    let sum = g[base + 4 * j + 2];
    let two = g[base + 4 * j + 3];
    let power = g[base + 4 * j + 4];
    let previous = loss_accumulator(base, j);
    &&& difference.operation == ValueOperation::Subtraction(outputs[j], targets[j])
    &&& difference.gradient is None
    &&& difference.label == Some("Loss")
    &&& call_ensures(
        S::minus,
        (&g[outputs[j].id as int].current_evaluation, &g[targets[j].id as int].current_evaluation),
        difference.current_evaluation,
    )
    &&& sum.operation == ValueOperation::Addition(previous, Value { id: (base + 4 * j + 1) as usize })
    &&& sum.gradient is None
    &&& sum.label == Some("Loss Accumulation")
    &&& call_ensures(S::plus, (&g[previous.id as int].current_evaluation, &difference.current_evaluation), sum.current_evaluation)
    &&& two.operation == ValueOperation::Leaf
    &&& two.gradient is None
    &&& two.label is None
    &&& call_ensures(S::from_integer, (2i32,), two.current_evaluation)
    &&& power.operation == ValueOperation::Exponentiation {
        base: Value { id: (base + 4 * j + 2) as usize },
        exp: Value { id: (base + 4 * j + 3) as usize },
    }
    &&& power.gradient is None
    &&& power.label is None
    &&& call_ensures(S::powf, (&sum.current_evaluation, &two.current_evaluation), power.current_evaluation)
}

/// The nodes that `calculate_loss_from_outputs_and_targets` made from node
/// `base` on, ending with `loss`.
pub open spec fn loss_built<S: Scalar>(
    g: Seq<ValueInner<S>>,
    base: int,
    outputs: Seq<Value>,
    targets: Seq<Value>,
    loss: Value,
) -> bool {
    let k = outputs.len() as int;
    &&& g.len() == base + 4 * k + 1
    &&& g[base].operation == ValueOperation::Leaf
    &&& g[base].gradient is None
    &&& g[base].label is None
    &&& call_ensures(S::from_integer, (0i32,), g[base].current_evaluation)
    &&& forall|j: int| 0 <= j < k ==> #[trigger] loss_step_made(g, base, outputs, targets, j)
    &&& loss == loss_accumulator(base, k)
}

/// The loss is a running sum squared at each step: it starts from a leaf
/// holding 0; for pair `j`, node `base + 4j + 1` is output minus target
/// (labelled "Loss"), the next is the running loss plus that difference
/// (labelled "Loss Accumulation"), the next a leaf holding 2, and the next
/// that sum raised to the power 2, which becomes the running loss; the loss
/// is the last running loss.
pub proof fn lemma_loss_is_running_square<S: Scalar>(
    g: Seq<ValueInner<S>>,
    base: int,
    outputs: Seq<Value>,
    targets: Seq<Value>,
    loss: Value,
)
    requires
        loss_built(g, base, outputs, targets, loss),
        0 <= base,
        g.len() <= usize::MAX,
    ensures
        g.len() == base + 4 * outputs.len() + 1,
        loss.id == base + 4 * outputs.len(),
        g[base].operation == ValueOperation::Leaf,
        call_ensures(S::from_integer, (0i32,), g[base].current_evaluation),
        forall|j: int|
            0 <= j < outputs.len() ==> {
                let running = if j == 0 { base } else { base + 4 * j };
                let difference = g[base + 4 * j + 1];
                let sum = g[base + 4 * j + 2];
                let two = g[base + 4 * j + 3];
                let square = g[base + 4 * j + 4];
                &&& difference.operation == ValueOperation::Subtraction(#[trigger] outputs[j], targets[j])
                &&& difference.label == Some("Loss")
                &&& call_ensures(
                    S::minus,
                    (&g[outputs[j].id as int].current_evaluation, &g[targets[j].id as int].current_evaluation),
                    difference.current_evaluation,
                )
                &&& sum.operation == ValueOperation::Addition(
                    Value { id: running as usize },
                    Value { id: (base + 4 * j + 1) as usize },
                )
                &&& sum.label == Some("Loss Accumulation")
                &&& call_ensures(
                    S::plus,
                    (&g[running].current_evaluation, &difference.current_evaluation),
                    sum.current_evaluation,
                )
                &&& two.operation == ValueOperation::Leaf
                &&& call_ensures(S::from_integer, (2i32,), two.current_evaluation)
                &&& square.operation == ValueOperation::Exponentiation {
                    base: Value { id: (base + 4 * j + 2) as usize },
                    exp: Value { id: (base + 4 * j + 3) as usize },
                }
                &&& call_ensures(S::powf, (&sum.current_evaluation, &two.current_evaluation), square.current_evaluation)
            },
{
    assert forall|j: int| 0 <= j < outputs.len() implies {
        let running = if j == 0 { base } else { base + 4 * j };
        let difference = g[base + 4 * j + 1];
        let sum = g[base + 4 * j + 2];
        let two = g[base + 4 * j + 3];
        let square = g[base + 4 * j + 4];
        &&& difference.operation == ValueOperation::Subtraction(#[trigger] outputs[j], targets[j])
        &&& difference.label == Some("Loss")
        &&& call_ensures(
            S::minus,
            (&g[outputs[j].id as int].current_evaluation, &g[targets[j].id as int].current_evaluation),
            difference.current_evaluation,
        )
        &&& sum.operation == ValueOperation::Addition(
            Value { id: running as usize },
            Value { id: (base + 4 * j + 1) as usize },
        )
        &&& sum.label == Some("Loss Accumulation")
        &&& call_ensures(
            S::plus,
            (&g[running].current_evaluation, &difference.current_evaluation),
            sum.current_evaluation,
        )
        &&& two.operation == ValueOperation::Leaf
        &&& call_ensures(S::from_integer, (2i32,), two.current_evaluation)
        &&& square.operation == ValueOperation::Exponentiation {
            base: Value { id: (base + 4 * j + 2) as usize },
            exp: Value { id: (base + 4 * j + 3) as usize },
        }
        &&& call_ensures(S::powf, (&sum.current_evaluation, &two.current_evaluation), square.current_evaluation)
    } by {
        assert(loss_step_made(g, base, outputs, targets, j));
    }
}

/// The lines of the list of values: none for no value, and for one more
/// value one more line, two spaces, its text and a comma.
pub proof fn lemma_value_lines_grow(texts: Seq<Seq<char>>, text: Seq<char>)
    ensures
        value_lines(Seq::<Seq<char>>::empty()) == Seq::<char>::empty(),
        value_lines(texts.push(text)) == value_lines(texts) + "  "@ + text + ",\n"@,
{
    assert(texts.push(text).drop_last() =~= texts);
}

/// The loss of `output` against `target`: starting from 0, for each pair the
/// running loss plus (output minus target) is squared.
pub fn calculate_loss_from_outputs_and_targets<S: Scalar>(
    graph: &mut Graph<S>,
    output: &[Value],
    target: &[Value],
) -> (loss: Value)
    requires
        old(graph).wf(),
        output@.len() == target@.len(),
        all_below(output@, old(graph)@.len()),
        all_below(target@, old(graph)@.len()),
    ensures
        final(graph).wf(),
        extends(final(graph)@, old(graph)@),
        loss_built(final(graph)@, old(graph)@.len() as int, output@, target@, loss),
        forall|j: int|
            0 <= j < output@.len() ==> reaches(
                operations_of(final(graph)@),
                loss.id as nat,
                (#[trigger] output@[j]).id as nat,
                false,
            ),
{
    let ghost base = old(graph)@.len() as int;
    let zero = S::from_integer(0);
    let mut total_loss = Value::leaf(graph, zero);
    let mut j: usize = 0;
    while j < output.len()
        invariant
            j <= output@.len(),
            output@.len() == target@.len(),
            base == old(graph)@.len(),
            all_below(output@, old(graph)@.len()),
            all_below(target@, old(graph)@.len()),
            graph.wf(),
            extends(graph@, old(graph)@),
            graph@.len() == base + 4 * j + 1,
            graph@[base].operation == ValueOperation::Leaf,
            graph@[base].gradient is None,
            graph@[base].label is None,
            call_ensures(S::from_integer, (0i32,), graph@[base].current_evaluation),
            total_loss == loss_accumulator(base, j as int),
            forall|m: int| 0 <= m < j ==> #[trigger] loss_step_made(graph@, base, output@, target@, m),
            forall|m: int|
                0 <= m < j ==> reaches(
                    operations_of(graph@),
                    total_loss.id as nat,
                    (#[trigger] output@[m]).id as nat,
                    false,
                ),
        decreases output@.len() - j,
    {
        let ghost before = graph@;
        let ghost before_total = total_loss;
        let difference = output[j].sub(graph, target[j]);
        let node_loss = difference.with_label(graph, "Loss");
        let sum = total_loss.add(graph, node_loss);
        let accumulation = sum.with_label(graph, "Loss Accumulation");
        let two = Value::leaf(graph, S::from_integer(2));
        total_loss = accumulation.pow(graph, two);
        proof {
            let ops_before = operations_of(before);
            let ops = operations_of(graph@);
            assert forall|m: int| 0 <= m < j + 1 implies #[trigger] loss_step_made(
                graph@,
                base,
                output@,
                target@,
                m,
            ) by {
                assert(graph@[output@[m].id as int] == before[output@[m].id as int]);
                assert(graph@[target@[m].id as int] == before[target@[m].id as int]);
                let previous = loss_accumulator(base, m);
                assert(graph@[previous.id as int] == before[previous.id as int]);
                if m < j {
                    assert(loss_step_made(before, base, output@, target@, m));
                    assert(graph@[base + 4 * m + 1] == before[base + 4 * m + 1]);
                    assert(graph@[base + 4 * m + 2] == before[base + 4 * m + 2]);
                    assert(graph@[base + 4 * m + 3] == before[base + 4 * m + 3]);
                    assert(graph@[base + 4 * m + 4] == before[base + 4 * m + 4]);
                }
            }
            assert forall|q: int| 0 <= q < ops_before.len() implies #[trigger] ops[q] == ops_before[q] by {
                assert(graph@[q] == before[q]);
            }
            let power = total_loss;
            let s = Value { id: (base + 4 * j + 2) as usize };
            let d = Value { id: (base + 4 * j + 1) as usize };
            assert(ops[power.id as int] == ValueOperation::Exponentiation { base: s, exp: two });
            assert(ops[s.id as int] == ValueOperation::Addition(before_total, d));
            assert(ops[d.id as int] == ValueOperation::Subtraction(output@[j as int], target@[j as int]));
            assert(output@[j as int].id < base);
            assert(reaches(ops, output@[j as int].id as nat, output@[j as int].id as nat, false));
            assert(reaches(ops, d.id as nat, output@[j as int].id as nat, false));
            assert(reaches(ops, s.id as nat, d.id as nat, false)) by {
                assert(reaches(ops, d.id as nat, d.id as nat, false));
            }
            assert(reaches(ops, s.id as nat, before_total.id as nat, false)) by {
                assert(reaches(ops, before_total.id as nat, before_total.id as nat, false));
            }
            assert(reaches(ops, power.id as nat, s.id as nat, false)) by {
                assert(reaches(ops, s.id as nat, s.id as nat, false));
            }
            lemma_reaches_transitive(ops, s.id as nat, d.id as nat, output@[j as int].id as nat, false);
            lemma_reaches_transitive(ops, power.id as nat, s.id as nat, output@[j as int].id as nat, false);
            lemma_reaches_transitive(ops, power.id as nat, s.id as nat, before_total.id as nat, false);
            assert forall|m: int| 0 <= m < j + 1 implies reaches(
                ops,
                total_loss.id as nat,
                (#[trigger] output@[m]).id as nat,
                false,
            ) by {
                if m < j {
                    lemma_reaches_prefix(ops, ops_before, before_total.id as nat, output@[m].id as nat, false);
                    lemma_reaches_transitive(ops, power.id as nat, before_total.id as nat, output@[m].id as nat, false);
                }
            }
        }
        j = j + 1;
    }
    total_loss
}

/// The lines of `format_values`: one per text, indented by two spaces and
/// ended with a comma.
pub open spec fn value_lines(texts: Seq<Seq<char>>) -> Seq<char>
    decreases texts.len(),
{
    if texts.len() == 0 {
        Seq::empty()
    } else {
        value_lines(texts.drop_last()) + "  "@ + texts.last() + ",\n"@
    }
}

/// The values written one per line between brackets: `[`, then for each
/// value two spaces, the value as `Value::to_display_string` writes it and a
/// comma, then `]`.
pub fn format_values<S: Scalar>(graph: &Graph<S>, values: &[Value]) -> (out: String)
    requires
        all_below(values@, graph@.len()),
    ensures
        exists|texts: Seq<Seq<char>>|
            {
                &&& texts.len() == values@.len()
                &&& forall|j: int| 0 <= j < values@.len() ==> display_of(graph@[(#[trigger] values@[j]).id as int], texts[j])
                &&& out@ == "[\n"@ + value_lines(texts) + "]"@
            },
{
    let mut out = String::new();
    out.append("[\n");
    let ghost mut texts: Seq<Seq<char>> = Seq::empty();
    let mut j: usize = 0;
    while j < values.len()
        invariant
            j <= values@.len(),
            all_below(values@, graph@.len()),
            texts.len() == j,
            forall|m: int| 0 <= m < j ==> display_of(graph@[(#[trigger] values@[m]).id as int], texts[m]),
            out@ == "[\n"@ + value_lines(texts),
        decreases values@.len() - j,
    {
        let text = values[j].to_display_string(graph);
        out.append("  ");
        out.append(text.as_str());
        out.append(",\n");
        proof {
            let new_texts = texts.push(text@);
            assert(new_texts.drop_last() =~= texts);
            texts = new_texts;
        }
        j = j + 1;
    }
    out.append("]");
    out
}

} // verus!
