//! From statements to graphs.
use crate::config::{frequency_fault, Settings};
use crate::dsl::lex::{tokens_from, Fault};
use crate::dsl::parse::{statements_at, ArgModel, StageModel, Staged};
use crate::ieee::convert::narrowed;
use crate::ieee::number::{Double, Single};
use crate::physical::frame::low_pass_filter::{cutoff_fault, decay_exponent};
use crate::physical::frame::plan::Graph;
use crate::physical::frame::sine::Sine;
use crate::physical::frame::square::{square_fault, Square};
use crate::text::{debug_text, decimal};
use vstd::prelude::*;
use vstd::utf8::encode_utf8;

verus! {

/// Why a text does not make a graph.
pub enum BuildFault {
    /// The text is wrong.
    Source(Fault),
    /// A node is wrong.
    Plan(Seq<char>),
}

/// The graphs that were given names.
pub type Names = Map<Seq<char>, Graph>;

/// A message about a place in the text.
pub open spec fn wrong<T>(at: nat, message: Seq<char>) -> Result<T, BuildFault> {
    Err(BuildFault::Source(Fault { at, message }))
}

/// The graph with a name.
pub open spec fn referenced(at: nat, names: Names, name: Seq<char>) -> Result<Graph, BuildFault> {
    if names.dom().contains(name) {
        Ok(names[name])
    } else {
        wrong(at, "undefined reference $"@ + name)
    }
}

/// Whether every argument is a finite number.
pub open spec fn all_numbers(args: Seq<ArgModel>) -> bool {
    forall|i: int|
        0 <= i < args.len() ==> (#[trigger] args[i] matches ArgModel::Number(value)
            && value.finite())
}

/// The numbers that a source takes, so many of them.
pub open spec fn numeric_args_fault(
    at: nat,
    name: Seq<char>,
    args: Seq<ArgModel>,
    count: nat,
) -> Option<BuildFault> {
    if args.len() != count {
        Some(
            BuildFault::Source(
                Fault {
                    at,
                    message: name + " expects "@ + decimal(count) + " numeric argument(s)"@,
                },
            ),
        )
    } else if !all_numbers(args) {
        Some(BuildFault::Source(Fault { at, message: name + " expects numeric arguments"@ }))
    } else {
        None
    }
}

/// The signal and the number that a filter or a gain takes: the signal comes in, or it is
/// named before the number.
pub open spec fn unary_args_of(
    at: nat,
    names: Names,
    incoming: Option<Graph>,
    name: Seq<char>,
    args: Seq<ArgModel>,
) -> Result<(Graph, Double), BuildFault> {
    let given = if incoming.is_some() && args.len() == 1 && args[0] is Number {
        Ok((incoming.unwrap(), args[0]->Number_0))
    } else if incoming.is_none() && args.len() == 2 && args[0] is Ref && args[1] is Number {
        match referenced(at, names, args[0]->Ref_0) {
            Ok(graph) => Ok((graph, args[1]->Number_0)),
            Err(fault) => Err(fault),
        }
    } else {
        wrong(at, name + " expects one input and one numeric argument"@)
    };
    match given {
        Ok((graph, value)) => if value.finite() {
            Ok((graph, value))
        } else {
            wrong(at, name + " argument must be finite"@)
        },
        Err(fault) => Err(fault),
    }
}

/// A number in single precision.
pub open spec fn single_of(at: nat, value: Double, label: Seq<char>) -> Result<Single, BuildFault> {
    if narrowed(value).finite() {
        Ok(narrowed(value))
    } else {
        wrong(at, label + " exceeds f32 range"@)
    }
}

/// Whether every item is a reference.
pub open spec fn all_refs(items: Seq<ArgModel>) -> bool {
    forall|i: int| 0 <= i < items.len() ==> (#[trigger] items[i]) is Ref
}

/// The graphs that the first `count` items name.
pub open spec fn refs_of(at: nat, names: Names, items: Seq<ArgModel>, count: nat) -> Result<
    Seq<Graph>,
    BuildFault,
>
    decreases count,
{
    if count == 0 {
        Ok(Seq::empty())
    } else {
        match refs_of(at, names, items, (count - 1) as nat) {
            Err(fault) => Err(fault),
            Ok(before) => match referenced(at, names, items[count - 1]->Ref_0) {
                Err(fault) => Err(fault),
                Ok(graph) => Ok(before.push(graph)),
            },
        }
    }
}

/// The weights that the first `count` items write.
pub open spec fn weights_of(at: nat, items: Seq<ArgModel>, count: nat) -> Result<
    Seq<Single>,
    BuildFault,
>
    decreases count,
{
    if count == 0 {
        Ok(Seq::empty())
    } else {
        match weights_of(at, items, (count - 1) as nat) {
            Err(fault) => Err(fault),
            Ok(before) => match items[count - 1] {
                ArgModel::Number(value) => match single_of(at, value, "mix weight"@) {
                    Err(fault) => Err(fault),
                    Ok(weight) => Ok(before.push(weight)),
                },
                _ => wrong(at, "mix weights must be numbers"@),
            },
        }
    }
}

/// What the arguments of a mix gave so far.
pub struct MixArgs {
    /// The signals.
    pub inputs: Seq<Graph>,
    /// Their weights, where they were given.
    pub gains: Option<Seq<Single>>,
}

/// What the first `count` arguments of a mix give: references, alone or in lists, and
/// behind them at most one list of weights.
pub open spec fn mix_args_of(
    at: nat,
    names: Names,
    incoming: Option<Graph>,
    args: Seq<ArgModel>,
    count: nat,
) -> Result<MixArgs, BuildFault>
    decreases count,
{
    if count == 0 {
        Ok(
            MixArgs {
                inputs: match incoming {
                    Some(graph) => seq![graph],
                    None => Seq::empty(),
                },
                gains: None,
            },
        )
    } else {
        match mix_args_of(at, names, incoming, args, (count - 1) as nat) {
            Err(fault) => Err(fault),
            Ok(before) => if before.gains.is_some() {
                wrong(
                    at,
                    "mix expects input references followed by an optional weight list"@,
                )
            } else {
                match args[count - 1] {
                    ArgModel::Ref(name) => match referenced(at, names, name) {
                        Err(fault) => Err(fault),
                        Ok(graph) => Ok(MixArgs { inputs: before.inputs.push(graph), ..before }),
                    },
                    ArgModel::List(items) => if items.len() > 0 && all_refs(items) {
                        match refs_of(at, names, items, items.len()) {
                            Err(fault) => Err(fault),
                            Ok(more) => Ok(MixArgs { inputs: before.inputs + more, ..before }),
                        }
                    } else if count == args.len() {
                        match weights_of(at, items, items.len()) {
                            Err(fault) => Err(fault),
                            Ok(weights) => Ok(MixArgs { gains: Some(weights), ..before }),
                        }
                    } else {
                        wrong(
                            at,
                            "mix expects input references followed by an optional weight list"@,
                        )
                    },
                    ArgModel::Number(_) => wrong(
                        at,
                        "mix expects input references followed by an optional weight list"@,
                    ),
                }
            },
        }
    }
}

/// As many weights of one.
pub open spec fn unit_weights(count: nat) -> Seq<Single> {
    Seq::new(count, |i: int| Single { bits: 0x3f80_0000 })
}

/// The signals that a mix takes, and their weights; where none are given they are all one.
pub open spec fn mix_of(
    at: nat,
    names: Names,
    incoming: Option<Graph>,
    args: Seq<ArgModel>,
) -> Result<(Seq<Graph>, Seq<Single>), BuildFault> {
    match mix_args_of(at, names, incoming, args, args.len()) {
        Err(fault) => Err(fault),
        Ok(given) => {
            let gains = match given.gains {
                Some(gains) => gains,
                None => unit_weights(given.inputs.len()),
            };
            if given.inputs.len() == 0 {
                wrong(at, "mix requires at least one input"@)
            } else if gains.len() != given.inputs.len() {
                wrong(
                    at,
                    "mix has "@ + decimal(given.inputs.len()) + " inputs but "@ + decimal(
                        gains.len(),
                    ) + " weights"@,
                )
            } else {
                Ok((given.inputs, gains))
            }
        },
    }
}

/// The node that a call writes.
pub open spec fn node_of(
    settings: Settings,
    at: nat,
    names: Names,
    incoming: Option<Graph>,
    name: Seq<char>,
    args: Seq<ArgModel>,
) -> Result<Graph, BuildFault> {
    if name == "sine"@ || name == "square"@ {
        if incoming.is_some() {
            wrong(at, name + " is a source and takes no input"@)
        } else if name == "sine"@ {
            match numeric_args_fault(at, name, args, 1) {
                Some(fault) => Err(fault),
                None => match frequency_fault(
                    args[0]->Number_0,
                    settings.sample_rate_hz,
                    "frequency_hz"@,
                ) {
                    Some(reason) => Err(BuildFault::Plan(reason)),
                    None => Ok(
                        Graph::Sine(
                            Sine {
                                sample_rate_hz: settings.sample_rate_hz,
                                frequency_hz: args[0]->Number_0,
                                batch_frame_capacity: settings.batch_frame_capacity,
                            },
                        ),
                    ),
                },
            }
        } else {
            match numeric_args_fault(at, name, args, 2) {
                Some(fault) => Err(fault),
                None => match square_fault(
                    args[0]->Number_0,
                    args[1]->Number_0,
                    settings.sample_rate_hz,
                ) {
                    Some(reason) => Err(BuildFault::Plan(reason)),
                    None => Ok(
                        Graph::Square(
                            Square {
                                sample_rate_hz: settings.sample_rate_hz,
                                frequency_hz: args[0]->Number_0,
                                pulse_width: args[1]->Number_0,
                                batch_frame_capacity: settings.batch_frame_capacity,
                            },
                        ),
                    ),
                },
            }
        }
    } else if name == "gain"@ {
        match unary_args_of(at, names, incoming, name, args) {
            Err(fault) => Err(fault),
            Ok((input, value)) => match single_of(at, value, "gain factor"@) {
                Err(fault) => Err(fault),
                Ok(factor) => Ok(Graph::Gain { input: Box::new(input), factor }),
            },
        }
    } else if name == "lpf"@ {
        match unary_args_of(at, names, incoming, name, args) {
            Err(fault) => Err(fault),
            Ok((input, cutoff_hz)) => match cutoff_fault(cutoff_hz, settings.sample_rate_hz) {
                Some(reason) => Err(BuildFault::Plan(reason)),
                None => Ok(
                    Graph::LowPass {
                        input: Box::new(input),
                        cutoff_hz,
                        exponent: decay_exponent(cutoff_hz, settings.sample_rate_hz),
                    },
                ),
            },
        }
    } else if name == "mix"@ {
        match mix_of(at, names, incoming, args) {
            Err(fault) => Err(fault),
            Ok((inputs, gains)) => Ok(
                Graph::Mix {
                    inputs,
                    gains,
                    batch_frame_capacity: settings.batch_frame_capacity,
                },
            ),
        }
    } else {
        wrong(at, "unknown node "@ + debug_text(name))
    }
}

/// What the statements gave so far.
pub struct Building {
    /// The graphs that were given names.
    pub names: Names,
    /// The signal that the statement at hand has come to.
    pub current: Option<Graph>,
    /// The output.
    pub output: Option<Graph>,
}

/// One more stage of a statement.
pub open spec fn stage_built(
    settings: Settings,
    before: Building,
    stages: Seq<Staged>,
    index: int,
) -> Result<Building, BuildFault> {
    let at = stages[index].at;
    let last = stages.len() - 1;
    match stages[index].kind {
        StageModel::Call(name, args) => match node_of(
            settings,
            at,
            before.names,
            before.current,
            name,
            args,
        ) {
            Err(fault) => Err(fault),
            Ok(graph) => Ok(Building { current: Some(graph), ..before }),
        },
        StageModel::Ref(name) => if index == 0 {
            match referenced(at, before.names, name) {
                Err(fault) => Err(fault),
                Ok(graph) => Ok(Building { current: Some(graph), ..before }),
            }
        } else if index != last {
            wrong(at, "binding must end a statement"@)
        } else if before.names.dom().contains(name) {
            wrong(at, "duplicate binding $"@ + name)
        } else if before.current.is_none() {
            wrong(at, "binding requires an input"@)
        } else {
            Ok(
                Building {
                    names: before.names.insert(name, before.current.unwrap()),
                    current: None,
                    ..before
                },
            )
        },
        StageModel::Out => if index != last {
            wrong(at, "out must end a statement"@)
        } else if before.output.is_some() {
            wrong(at, "graph has more than one out"@)
        } else if before.current.is_none() {
            wrong(at, "out requires an input"@)
        } else if settings.frame_count > usize::MAX {
            wrong(at, "frame_count does not fit usize"@)
        } else {
            Ok(
                Building {
                    output: Some(
                        Graph::Limit {
                            input: Box::new(before.current.unwrap()),
                            frames: settings.frame_count as nat,
                        },
                    ),
                    current: None,
                    ..before
                },
            )
        },
    }
}

/// The first `count` stages of a statement.
pub open spec fn stages_built(
    settings: Settings,
    before: Building,
    stages: Seq<Staged>,
    count: nat,
) -> Result<Building, BuildFault>
    decreases count,
{
    if count == 0 {
        Ok(before)
    } else {
        match stages_built(settings, before, stages, (count - 1) as nat) {
            Err(fault) => Err(fault),
            Ok(here) => stage_built(settings, here, stages, count - 1),
        }
    }
}

/// The first `count` statements of a text of this length in bytes. Each must use its signal up.
pub open spec fn statements_built(
    settings: Settings,
    length: nat,
    statements: Seq<Seq<Staged>>,
    count: nat,
) -> Result<Building, BuildFault>
    decreases count,
{
    if count == 0 {
        Ok(Building { names: Map::empty(), current: None, output: None })
    } else {
        match statements_built(settings, length, statements, (count - 1) as nat) {
            Err(fault) => Err(fault),
            Ok(before) => {
                let stages = statements[count - 1];
                match stages_built(settings, before, stages, stages.len()) {
                    Err(fault) => Err(fault),
                    Ok(after) => if after.current.is_some() {
                        wrong(length, "statement must end in a binding or out"@)
                    } else {
                        Ok(after)
                    },
                }
            },
        }
    }
}

/// The graph that statements in a text of this many bytes write.
pub open spec fn statements_graph(
    settings: Settings,
    length: nat,
    statements: Seq<Seq<Staged>>,
) -> Result<Graph, BuildFault> {
    match statements_built(settings, length, statements, statements.len()) {
        Err(fault) => Err(fault),
        Ok(after) => match after.output {
            Some(graph) => Ok(graph),
            None => wrong(length, "graph requires one out"@),
        },
    }
}

/// The graph that a text writes.
pub open spec fn source_graph(settings: Settings, source: Seq<char>) -> Result<Graph, BuildFault> {
    match tokens_from(source, 0) {
        Err(fault) => Err(BuildFault::Source(fault)),
        Ok(tokens) => match statements_at(tokens, 0) {
            Err(fault) => Err(BuildFault::Source(fault)),
            Ok(statements) => statements_graph(settings, encode_utf8(source).len(), statements),
        },
    }
}

} // verus!
