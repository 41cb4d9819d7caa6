//! Nodes of streaming plans, over the plans `I` below them and expressions `E`.

use vstd::prelude::*;

use crate::text;
use crate::text::{decimal, signed_decimal, texts};

verus! {

/// A kind of node.
#[derive(Debug, Clone, Copy, PartialEq, Eq, Structural)]
pub enum NodeKind {
    StreamDeduplicate,
    ForeachBatchSink,
    MemorySink,
    StreamJoin,
    Watermark,
    WindowAccum,
}

impl NodeKind {
    /// The name of a kind of node.
    pub open spec fn text(self) -> Seq<char> {
        match self {
            NodeKind::StreamDeduplicate => "StreamDeduplicate"@,
            NodeKind::ForeachBatchSink => "ForeachBatchSink"@,
            NodeKind::MemorySink => "MemorySink"@,
            NodeKind::StreamJoin => "StreamJoin"@,
            NodeKind::Watermark => "Watermark"@,
            NodeKind::WindowAccum => "WindowAccum"@,
        }
    }

    /// The name of a kind of node.
    pub fn name(&self) -> (name: &'static str)
        ensures
            name@ == self.text(),
    {
        match self {
            NodeKind::StreamDeduplicate => "StreamDeduplicate",
            NodeKind::ForeachBatchSink => "ForeachBatchSink",
            NodeKind::MemorySink => "MemorySink",
            NodeKind::StreamJoin => "StreamJoin",
            NodeKind::Watermark => "Watermark",
            NodeKind::WindowAccum => "WindowAccum",
        }
    }
}

/// Why a node cannot be given other expressions or inputs.
#[derive(Debug, Clone, Copy, PartialEq, Eq, Structural)]
pub enum NodeError {
    TakesNoExpressions { node: NodeKind },
    OneInput { node: NodeKind },
    TwoInputs,
    ExpressionCount { node: NodeKind, expected: usize, actual: usize },
    JoinExpressionCount,
}

impl NodeError {
    /// The message for the user.
    pub open spec fn text(self) -> Seq<char> {
        match self {
            NodeError::TakesNoExpressions { node } => node.text() + " does not take expressions"@,
            NodeError::OneInput { node } => node.text() + " requires exactly one input"@,
            NodeError::TwoInputs => "StreamJoin requires exactly two inputs"@,
            NodeError::ExpressionCount { node, expected, actual } => node.text() + " requires "@
                + decimal(expected as nat) + " expressions, got "@ + decimal(actual as nat),
            NodeError::JoinExpressionCount => "StreamJoin expression count mismatch"@,
        }
    }

    /// The message for the user.
    pub fn message(&self) -> (out: String)
        ensures
            out@ == self.text(),
    {
        match self {
            NodeError::TakesNoExpressions { node } => {
                text::concat(node.name(), " does not take expressions")
            },
            NodeError::OneInput { node } => {
                text::concat(node.name(), " requires exactly one input")
            },
            NodeError::TwoInputs => "StreamJoin requires exactly two inputs".to_owned(),
            NodeError::ExpressionCount { node, expected, actual } => {
                let mut out = node.name().to_owned();
                out.append(" requires ");
                text::push_decimal(&mut out, *expected as u64);
                out.append(" expressions, got ");
                text::push_decimal(&mut out, *actual as u64);
                out
            },
            NodeError::JoinExpressionCount => "StreamJoin expression count mismatch".to_owned(),
        }
    }
}

/// What is wrong with the expressions and inputs of a node with one input and no expressions.
pub open spec fn plain_error(node: NodeKind, exprs: nat, inputs: nat) -> Option<NodeError> {
    if exprs > 0 {
        Some(NodeError::TakesNoExpressions { node })
    } else if inputs != 1 {
        Some(NodeError::OneInput { node })
    } else {
        None
    }
}

fn only_input<I, E>(node: NodeKind, exprs: Vec<E>, inputs: Vec<I>) -> (result: Result<I, NodeError>)
    ensures
        match plain_error(node, exprs@.len(), inputs@.len()) {
            Some(e) => result == Err::<I, NodeError>(e),
            None => result == Ok::<I, NodeError>(inputs@[0]),
        },
{
    if exprs.len() > 0 {
        return Err(NodeError::TakesNoExpressions { node });
    }
    if inputs.len() != 1 {
        return Err(NodeError::OneInput { node });
    }
    let mut rest = inputs;
    Ok(rest.remove(0))
}

/// The positions of all columns of an input.
pub fn all_columns(columns: usize) -> (positions: Vec<usize>)
    ensures
        positions@ == Seq::new(columns as nat, |i: int| i as usize),
{
    let mut positions: Vec<usize> = Vec::new();
    let mut i: usize = 0;
    while i < columns
        invariant
            i <= columns,
            positions@.len() == i,
            forall|k: int| 0 <= k < i ==> #[trigger] positions@[k] == k,
        decreases columns - i,
    {
        positions.push(i);
        i = i + 1;
    }
    assert(positions@ =~= Seq::new(columns as nat, |i: int| i as usize));
    positions
}

/// Texts with a separator between them.
pub open spec fn joined(names: Seq<Seq<char>>, separator: Seq<char>) -> Seq<char>
    decreases names.len(),
{
    if names.len() == 0 {
        Seq::empty()
    } else if names.len() == 1 {
        names[0]
    } else {
        joined(names.drop_last(), separator) + separator + names.last()
    }
}

fn push_joined(out: &mut String, names: &Vec<String>)
    ensures
        final(out)@ == old(out)@ + joined(texts(names@), ", "@),
{
    let ghost all = texts(names@);
    let ghost start = out@;
    let mut i: usize = 0;
    proof {
        assert(all.take(0) =~= Seq::<Seq<char>>::empty());
        assert(start + joined(all.take(0), ", "@) =~= start);
    }
    while i < names.len()
        invariant
            i <= names@.len(),
            all == texts(names@),
            out@ == start + joined(all.take(i as int), ", "@),
        decreases names@.len() - i,
    {
        let ghost before = out@;
        if i > 0 {
            out.append(", ");
        }
        out.append(names[i].as_str());
        proof {
            let next = all.take(i + 1);
            assert(next.drop_last() =~= all.take(i as int));
            assert(next.last() == names@[i as int]@);
            if i > 0 {
                assert(out@ =~= start + (joined(all.take(i as int), ", "@) + ", "@
                    + names@[i as int]@));
            } else {
                assert(next[0] == names@[0]@);
                assert(out@ =~= start + names@[0]@);
            }
        }
        i = i + 1;
    }
    assert(all.take(i as int) =~= all);
}

/// Lets each row through whose key was not seen before.
#[derive(Debug)]
pub struct StreamDeduplicateNode<I> {
    pub input: I,
    /// The columns of the key.
    pub key_cols: Vec<String>,
}

impl<I> StreamDeduplicateNode<I> {
    /// A node over an input.
    pub fn new(input: I, key_cols: Vec<String>) -> (node: Self)
        ensures
            node.input == input,
            node.key_cols == key_cols,
    {
        StreamDeduplicateNode { input, key_cols }
    }

    /// The plan below.
    pub fn input(&self) -> (input: &I)
        ensures
            *input == self.input,
    {
        &self.input
    }

    /// The text that explains the node.
    pub fn explain(&self) -> (out: String)
        ensures
            out@ == "StreamDeduplicate: keys=["@ + joined(texts(self.key_cols@), ", "@) + "]"@,
    {
        let mut out = "StreamDeduplicate: keys=[".to_owned();
        push_joined(&mut out, &self.key_cols);
        out.append("]");
        out
    }

    /// The node over another input.
    pub fn with_exprs_and_inputs<E>(self, exprs: Vec<E>, inputs: Vec<I>) -> (result: Result<
        Self,
        NodeError,
    >)
        ensures
            match plain_error(NodeKind::StreamDeduplicate, exprs@.len(), inputs@.len()) {
                Some(e) => result == Err::<Self, NodeError>(e),
                None => result == Ok::<Self, NodeError>(
                    StreamDeduplicateNode { input: inputs@[0], ..self },
                ),
            },
    {
        match only_input(NodeKind::StreamDeduplicate, exprs, inputs) {
            Ok(input) => Ok(StreamDeduplicateNode { input, key_cols: self.key_cols }),
            Err(e) => Err(e),
        }
    }
}

/// Hands each batch to a Python function.
#[derive(Debug)]
pub struct ForeachBatchSinkNode<I> {
    pub input: I,
    /// The serialised function.
    pub command: Vec<u8>,
    pub eval_type: i32,
    pub python_version: String,
}

impl<I> ForeachBatchSinkNode<I> {
    /// A node over an input.
    pub fn new(input: I, command: Vec<u8>, eval_type: i32, python_version: String) -> (node: Self)
        ensures
            node.input == input,
            node.command == command,
            node.eval_type == eval_type,
            node.python_version == python_version,
    {
        ForeachBatchSinkNode { input, command, eval_type, python_version }
    }

    /// The plan below.
    pub fn input(&self) -> (input: &I)
        ensures
            *input == self.input,
    {
        &self.input
    }

    /// The text that explains the node.
    pub fn explain(&self) -> (out: String)
        ensures
            out@ == "ForeachBatchSink: eval_type="@ + signed_decimal(self.eval_type as int),
    {
        let mut out = "ForeachBatchSink: eval_type=".to_owned();
        text::push_signed_decimal(&mut out, self.eval_type as i64);
        out
    }

    /// The node over another input.
    pub fn with_exprs_and_inputs<E>(self, exprs: Vec<E>, inputs: Vec<I>) -> (result: Result<
        Self,
        NodeError,
    >)
        ensures
            match plain_error(NodeKind::ForeachBatchSink, exprs@.len(), inputs@.len()) {
                Some(e) => result == Err::<Self, NodeError>(e),
                None => result == Ok::<Self, NodeError>(
                    ForeachBatchSinkNode { input: inputs@[0], ..self },
                ),
            },
    {
        match only_input(NodeKind::ForeachBatchSink, exprs, inputs) {
            Ok(input) => Ok(
                ForeachBatchSinkNode {
                    input,
                    command: self.command,
                    eval_type: self.eval_type,
                    python_version: self.python_version,
                },
            ),
            Err(e) => Err(e),
        }
    }
}

/// Keeps all rows in memory, to be queried under a name.
#[derive(Debug)]
pub struct MemorySinkNode<I, B> {
    pub input: I,
    pub query_name: String,
    /// Where the rows are kept.
    pub buffer: B,
}

impl<I, B> MemorySinkNode<I, B> {
    /// A node over an input.
    pub fn new(input: I, query_name: String, buffer: B) -> (node: Self)
        ensures
            node.input == input,
            node.query_name == query_name,
            node.buffer == buffer,
    {
        MemorySinkNode { input, query_name, buffer }
    }

    /// The plan below.
    pub fn input(&self) -> (input: &I)
        ensures
            *input == self.input,
    {
        &self.input
    }

    /// Where the rows are kept.
    pub fn buffer(&self) -> (buffer: &B)
        ensures
            *buffer == self.buffer,
    {
        &self.buffer
    }

    /// The text that explains the node.
    pub fn explain(&self) -> (out: String)
        ensures
            out@ == "MemorySink: query_name="@ + self.query_name@,
    {
        text::concat("MemorySink: query_name=", self.query_name.as_str())
    }

    /// The node over another input, with the same buffer.
    pub fn with_exprs_and_inputs<E>(self, exprs: Vec<E>, inputs: Vec<I>) -> (result: Result<
        Self,
        NodeError,
    >)
        ensures
            match plain_error(NodeKind::MemorySink, exprs@.len(), inputs@.len()) {
                Some(e) => result == Err::<Self, NodeError>(e),
                None => result == Ok::<Self, NodeError>(
                    MemorySinkNode { input: inputs@[0], ..self },
                ),
            },
    {
        match only_input(NodeKind::MemorySink, exprs, inputs) {
            Ok(input) => Ok(
                MemorySinkNode { input, query_name: self.query_name, buffer: self.buffer },
            ),
            Err(e) => Err(e),
        }
    }
}

/// Carries the event time of a stream, and by how much its watermark stays behind.
#[derive(Debug)]
pub struct WatermarkNode<I> {
    pub input: I,
    pub event_time_col: String,
    pub delay_micros: i64,
}

/// The text that explains an event time and a delay.
pub open spec fn event_time_text(name: Seq<char>, event_time_col: Seq<char>, delay: int) -> Seq<char> {
    name + ": eventTime="@ + event_time_col + ", delay="@ + signed_decimal(delay) + "µs"@
}

fn explain_event_time(node: NodeKind, event_time_col: &str, delay_micros: i64) -> (out: String)
    ensures
        out@ == event_time_text(node.text(), event_time_col@, delay_micros as int),
{
    let mut out = node.name().to_owned();
    out.append(": eventTime=");
    out.append(event_time_col);
    out.append(", delay=");
    text::push_signed_decimal(&mut out, delay_micros);
    out.append("µs");
    out
}

impl<I> WatermarkNode<I> {
    /// A node over an input.
    pub fn new(input: I, event_time_col: String, delay_micros: i64) -> (node: Self)
        ensures
            node.input == input,
            node.event_time_col == event_time_col,
            node.delay_micros == delay_micros,
    {
        WatermarkNode { input, event_time_col, delay_micros }
    }

    /// The plan below.
    pub fn input(&self) -> (input: &I)
        ensures
            *input == self.input,
    {
        &self.input
    }

    /// The text that explains the node.
    pub fn explain(&self) -> (out: String)
        ensures
            out@ == event_time_text(
                "Watermark"@,
                self.event_time_col@,
                self.delay_micros as int,
            ),
    {
        explain_event_time(NodeKind::Watermark, self.event_time_col.as_str(), self.delay_micros)
    }

    /// The node over another input.
    pub fn with_exprs_and_inputs<E>(self, exprs: Vec<E>, inputs: Vec<I>) -> (result: Result<
        Self,
        NodeError,
    >)
        ensures
            match plain_error(NodeKind::Watermark, exprs@.len(), inputs@.len()) {
                Some(e) => result == Err::<Self, NodeError>(e),
                None => result == Ok::<Self, NodeError>(
                    WatermarkNode { input: inputs@[0], ..self },
                ),
            },
    {
        match only_input(NodeKind::Watermark, exprs, inputs) {
            Ok(input) => Ok(
                WatermarkNode {
                    input,
                    event_time_col: self.event_time_col,
                    delay_micros: self.delay_micros,
                },
            ),
            Err(e) => Err(e),
        }
    }
}

/// Aggregates the rows of event-time windows.
#[derive(Debug)]
pub struct WindowAccumNode<I, E> {
    pub input: I,
    pub group_exprs: Vec<E>,
    pub aggr_exprs: Vec<E>,
    pub event_time_col: String,
    pub delay_micros: i64,
    pub checkpoint_location: Option<String>,
}

/// What is wrong with the expressions and inputs of a window aggregation.
pub open spec fn window_error(groups: nat, aggregates: nat, exprs: nat, inputs: nat) -> Option<
    NodeError,
> {
    if inputs != 1 {
        Some(NodeError::OneInput { node: NodeKind::WindowAccum })
    } else if exprs != groups + aggregates {
        Some(
            NodeError::ExpressionCount {
                node: NodeKind::WindowAccum,
                expected: (groups + aggregates) as usize,
                actual: exprs as usize,
            },
        )
    } else {
        None
    }
}

impl<I, E> WindowAccumNode<I, E> {
    /// The expressions of the node: those that it groups by, then the aggregates.
    pub open spec fn all_exprs(self) -> Seq<E> {
        self.group_exprs@ + self.aggr_exprs@
    }

    /// The number of expressions.
    pub fn expression_count(&self) -> (n: usize)
        requires
            self.all_exprs().len() <= usize::MAX,
        ensures
            n == self.all_exprs().len(),
    {
        self.group_exprs.len() + self.aggr_exprs.len()
    }

    /// An expression of the node: those that it groups by come first, then the aggregates.
    pub fn expression(&self, i: usize) -> (expr: &E)
        requires
            i < self.all_exprs().len(),
        ensures
            *expr == self.all_exprs()[i as int],
    {
        if i < self.group_exprs.len() {
            &self.group_exprs[i]
        } else {
            &self.aggr_exprs[i - self.group_exprs.len()]
        }
    }

    /// The plan below.
    pub fn input(&self) -> (input: &I)
        ensures
            *input == self.input,
    {
        &self.input
    }

    /// The text that explains the node.
    pub fn explain(&self) -> (out: String)
        ensures
            out@ == event_time_text(
                "WindowAccum"@,
                self.event_time_col@,
                self.delay_micros as int,
            ),
    {
        explain_event_time(NodeKind::WindowAccum, self.event_time_col.as_str(), self.delay_micros)
    }

    /// The node with other expressions and another input.
    pub fn with_exprs_and_inputs(self, exprs: Vec<E>, inputs: Vec<I>) -> (result: Result<
        Self,
        NodeError,
    >)
        requires
            self.all_exprs().len() <= usize::MAX,
        ensures
            match window_error(
                self.group_exprs@.len(),
                self.aggr_exprs@.len(),
                exprs@.len(),
                inputs@.len(),
            ) {
                Some(e) => result == Err::<Self, NodeError>(e),
                None => result matches Ok(node) && {
                    &&& node.input == inputs@[0]
                    &&& node.group_exprs@ == exprs@.take(self.group_exprs@.len() as int)
                    &&& node.aggr_exprs@ == exprs@.skip(self.group_exprs@.len() as int)
                    &&& node.event_time_col == self.event_time_col
                    &&& node.delay_micros == self.delay_micros
                    &&& node.checkpoint_location == self.checkpoint_location
                },
            },
    {
        if inputs.len() != 1 {
            return Err(NodeError::OneInput { node: NodeKind::WindowAccum });
        }
        let groups: usize = self.group_exprs.len();
        let expected: usize = groups + self.aggr_exprs.len();
        if exprs.len() != expected {
            return Err(
                NodeError::ExpressionCount {
                    node: NodeKind::WindowAccum,
                    expected,
                    actual: exprs.len(),
                },
            );
        }
        let mut group_exprs = exprs;
        let aggr_exprs = group_exprs.split_off(groups);
        let mut rest = inputs;
        let input = rest.remove(0);
        proof {
            assert(group_exprs@ =~= exprs@.take(groups as int));
            assert(aggr_exprs@ =~= exprs@.skip(groups as int));
        }
        Ok(
            WindowAccumNode {
                input,
                group_exprs,
                aggr_exprs,
                event_time_col: self.event_time_col,
                delay_micros: self.delay_micros,
                checkpoint_location: self.checkpoint_location,
            },
        )
    }
}

/// A window aggregation is the same when it is given its own expressions: they are told apart where
/// they were put together.
pub proof fn law_window_keeps_its_expressions<E>(group_exprs: Seq<E>, aggr_exprs: Seq<E>)
    ensures
        (group_exprs + aggr_exprs).take(group_exprs.len() as int) == group_exprs,
        (group_exprs + aggr_exprs).skip(group_exprs.len() as int) == aggr_exprs,
{
    let all = group_exprs + aggr_exprs;
    assert(all.take(group_exprs.len() as int) =~= group_exprs);
    assert(all.skip(group_exprs.len() as int) =~= aggr_exprs);
}

/// Joins two streams by equal keys. `T` is the type of the join.
#[derive(Debug)]
pub struct StreamJoinNode<I, E, T> {
    pub left: I,
    pub right: I,
    /// The pairs of keys.
    pub on: Vec<(E, E)>,
    /// What must hold of rows that match, besides their keys.
    pub filter: Option<E>,
    pub join_type: T,
    pub left_event_time: Option<String>,
    pub right_event_time: Option<String>,
    pub interval_bounds: Option<(i64, i64)>,
    pub checkpoint_location: Option<String>,
}

/// The keys one after the other, then the filter.
pub open spec fn flattened<E>(on: Seq<(E, E)>, filter: Option<E>) -> Seq<E> {
    flat_keys(on) + match filter {
        Some(f) => seq![f],
        None => Seq::empty(),
    }
}

/// The keys one after the other.
pub open spec fn flat_keys<E>(on: Seq<(E, E)>) -> Seq<E> {
    Seq::new(
        2 * on.len(),
        |i: int|
            if i % 2 == 0 {
                on[i / 2].0
            } else {
                on[i / 2].1
            },
    )
}

/// The first `n` pairs of expressions.
pub open spec fn paired<E>(exprs: Seq<E>, n: nat) -> Seq<(E, E)> {
    Seq::new(n, |i: int| (exprs[2 * i], exprs[2 * i + 1]))
}

/// The expression after the first `n` pairs.
pub open spec fn after_pairs<E>(exprs: Seq<E>, n: nat) -> Option<E> {
    if exprs.len() > 2 * n {
        Some(exprs[2 * n as int])
    } else {
        None
    }
}

/// What is wrong with the expressions and inputs of a join.
pub open spec fn join_error(pairs: nat, exprs: nat, inputs: nat) -> Option<NodeError> {
    if inputs != 2 {
        Some(NodeError::TwoInputs)
    } else if exprs < 2 * pairs {
        Some(NodeError::JoinExpressionCount)
    } else {
        None
    }
}

impl<I, E, T> StreamJoinNode<I, E, T> {
    /// The plan on the left.
    pub fn left(&self) -> (left: &I)
        ensures
            *left == self.left,
    {
        &self.left
    }

    /// The plan on the right.
    pub fn right(&self) -> (right: &I)
        ensures
            *right == self.right,
    {
        &self.right
    }

    /// The expressions of the node: the keys one after the other, then the filter.
    pub fn expressions(&self) -> (exprs: Vec<&E>)
        ensures
            exprs@.len() == flattened(self.on@, self.filter).len(),
            forall|i: int|
                0 <= i < exprs@.len() ==> *(#[trigger] exprs@[i]) == flattened(
                    self.on@,
                    self.filter,
                )[i],
    {
        let ghost all = flattened(self.on@, self.filter);
        let mut exprs: Vec<&E> = Vec::new();
        let mut i: usize = 0;
        while i < self.on.len()
            invariant
                i <= self.on@.len(),
                all == flattened(self.on@, self.filter),
                exprs@.len() == 2 * i,
                forall|k: int| 0 <= k < 2 * i ==> *(#[trigger] exprs@[k]) == all[k],
            decreases self.on@.len() - i,
        {
            let pair = &self.on[i];
            exprs.push(&pair.0);
            exprs.push(&pair.1);
            assert(all[2 * i as int] == pair.0);
            assert(all[2 * i + 1] == pair.1);
            i = i + 1;
        }
        match &self.filter {
            Some(f) => {
                exprs.push(f);
            },
            None => {},
        }
        exprs
    }

    /// The node with other expressions and inputs. Expressions after the filter are ignored.
    pub fn with_exprs_and_inputs(self, exprs: Vec<E>, inputs: Vec<I>) -> (result: Result<
        Self,
        NodeError,
    >)
        ensures
            match join_error(self.on@.len(), exprs@.len(), inputs@.len()) {
                Some(e) => result == Err::<Self, NodeError>(e),
                None => result matches Ok(node) && {
                    &&& node.left == inputs@[0]
                    &&& node.right == inputs@[1]
                    &&& node.on@ == paired(exprs@, self.on@.len())
                    &&& node.filter == after_pairs(exprs@, self.on@.len())
                    &&& node.join_type == self.join_type
                    &&& node.left_event_time == self.left_event_time
                    &&& node.right_event_time == self.right_event_time
                    &&& node.interval_bounds == self.interval_bounds
                    &&& node.checkpoint_location == self.checkpoint_location
                },
            },
    {
        if inputs.len() != 2 {
            return Err(NodeError::TwoInputs);
        }
        let ghost all = exprs@;
        let pairs: usize = self.on.len();
        if pairs > exprs.len() / 2 {
            return Err(NodeError::JoinExpressionCount);
        }
        let mut rest = exprs;
        let mut on: Vec<(E, E)> = Vec::new();
        let mut i: usize = 0;
        assert(all.skip(0) =~= all);
        while i < pairs
            invariant
                i <= pairs,
                2 * pairs <= all.len(),
                rest@ == all.skip(2 * i as int),
                on@.len() == i,
                forall|k: int|
                    0 <= k < i ==> #[trigger] on@[k] == (all[2 * k], all[2 * k + 1]),
            decreases pairs - i,
        {
            let l = rest.remove(0);
            let r = rest.remove(0);
            proof {
                let s = all.skip(2 * i as int);
                assert(s[0] == all[2 * i as int]);
                assert(s.remove(0)[0] == all[2 * i + 1]);
                assert(all.skip(2 * (i + 1)) =~= s.remove(0).remove(0));
            }
            on.push((l, r));
            i = i + 1;
        }
        assert(on@ =~= paired(all, pairs as nat));
        let filter = if rest.len() > 0 {
            assert(all.skip(2 * i as int)[0] == all[2 * i as int]);
            Some(rest.remove(0))
        } else {
            None
        };
        let mut sides = inputs;
        let left = sides.remove(0);
        let right = sides.remove(0);
        Ok(
            StreamJoinNode {
                left,
                right,
                on,
                filter,
                join_type: self.join_type,
                left_event_time: self.left_event_time,
                right_event_time: self.right_event_time,
                interval_bounds: self.interval_bounds,
                checkpoint_location: self.checkpoint_location,
            },
        )
    }
}

/// A join is the same when it is given its own expressions: its keys and its filter are told apart
/// where they were put together.
pub proof fn law_join_keeps_its_expressions<E>(on: Seq<(E, E)>, filter: Option<E>)
    ensures
        join_error(on.len(), flattened(on, filter).len(), 2) is None,
        paired(flattened(on, filter), on.len()) == on,
        after_pairs(flattened(on, filter), on.len()) == filter,
{
    let all = flattened(on, filter);
    assert(paired(all, on.len()) =~= on);
}

/// A node of one input takes one, and no expressions; a window as many expressions as it has; a join
/// two inputs and at least its keys.
pub proof fn law_nodes_take_what_they_have(
    node: NodeKind,
    exprs: nat,
    inputs: nat,
    groups: nat,
    aggregates: nat,
    pairs: nat,
)
    ensures
        plain_error(node, exprs, inputs) is None <==> exprs == 0 && inputs == 1,
        plain_error(node, exprs, inputs) == Some(NodeError::TakesNoExpressions { node }) <==> exprs
            > 0,
        plain_error(node, exprs, inputs) == Some(NodeError::OneInput { node }) <==> exprs == 0
            && inputs != 1,
        window_error(groups, aggregates, exprs, inputs) is None <==> inputs == 1 && exprs == groups
            + aggregates,
        window_error(groups, aggregates, exprs, inputs) == Some(
            NodeError::OneInput { node: NodeKind::WindowAccum },
        ) <==> inputs != 1,
        join_error(pairs, exprs, inputs) is None <==> inputs == 2 && exprs >= 2 * pairs,
        join_error(pairs, exprs, inputs) == Some(NodeError::TwoInputs) <==> inputs != 2,
        join_error(pairs, exprs, inputs) == Some(NodeError::JoinExpressionCount) <==> inputs == 2
            && exprs < 2 * pairs,
{
}

/// Names are shown one after the other with the separator between them, none before and none behind.
pub proof fn law_separators_stand_between_names(
    names: Seq<Seq<char>>,
    name: Seq<char>,
    separator: Seq<char>,
)
    ensures
        joined(Seq::empty(), separator) == Seq::<char>::empty(),
        joined(seq![name], separator) == name,
        names.len() > 0 ==> joined(names.push(name), separator) == joined(names, separator)
            + separator + name,
{
    assert(names.push(name).drop_last() =~= names);
}

} // verus!
