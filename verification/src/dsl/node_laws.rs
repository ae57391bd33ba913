//! Which node a call makes.
use crate::config::Settings;
use crate::dsl::construct::lemma_node_names;
use crate::dsl::graph::{
    mix_args_of, node_of, refs_of, stage_built, stages_built, weights_of, BuildFault, Building,
    MixArgs, Names,
};
use crate::dsl::parse::{ArgModel, StageModel, Staged};
use crate::ieee::convert::narrowed;
use crate::ieee::number::{Double, Single};
use crate::physical::frame::plan::Graph;
use crate::physical::frame::sine::Sine;
use crate::physical::frame::square::Square;
use vstd::arithmetic::power2::pow2;
use vstd::prelude::*;

verus! {

/// The names that an argument calls, in their order.
pub open spec fn called(arg: ArgModel) -> Seq<Seq<char>> {
    match arg {
        ArgModel::Ref(name) => seq![name],
        ArgModel::List(items) => items.map_values(|item: ArgModel| item->Ref_0),
        ArgModel::Number(_) => Seq::empty(),
    }
}

/// The names that the first `count` arguments call, in their order.
pub open spec fn all_called(args: Seq<ArgModel>, count: nat) -> Seq<Seq<char>>
    decreases count,
{
    if count == 0 {
        Seq::empty()
    } else {
        all_called(args, (count - 1) as nat) + called(args[count - 1])
    }
}

/// Whether an argument is a name, or a list of names.
pub open spec fn calls_names(arg: ArgModel) -> bool {
    match arg {
        ArgModel::Ref(_) => true,
        ArgModel::List(items) => items.len() > 0 && forall|i: int|
            0 <= i < items.len() ==> (#[trigger] items[i]) is Ref,
        ArgModel::Number(_) => false,
    }
}

/// Whether every name stands for a graph.
pub open spec fn all_bound(names: Names, called: Seq<Seq<char>>) -> bool {
    forall|i: int| 0 <= i < called.len() ==> names.dom().contains(#[trigger] called[i])
}

/// The graphs that names stand for.
pub open spec fn graphs_of(names: Names, called: Seq<Seq<char>>) -> Seq<Graph> {
    Seq::new(called.len(), |i: int| names[called[i]])
}

/// The signal that comes in, if one does.
pub open spec fn incoming_graphs(incoming: Option<Graph>) -> Seq<Graph> {
    match incoming {
        Some(graph) => seq![graph],
        None => Seq::empty(),
    }
}

/// A list of weights.
pub open spec fn weight_list(weights: Seq<Double>) -> ArgModel {
    ArgModel::List(weights.map_values(|weight: Double| ArgModel::Number(weight)))
}

/// The graphs that the first items of a list name.
proof fn lemma_refs(at: nat, names: Names, items: Seq<ArgModel>, count: nat)
    requires
        count <= items.len(),
        calls_names(ArgModel::List(items)),
        all_bound(names, called(ArgModel::List(items))),
    ensures
        refs_of(at, names, items, count) == Ok::<Seq<Graph>, BuildFault>(
            graphs_of(names, called(ArgModel::List(items))).take(count as int),
        ),
    decreases count,
{
    let all = called(ArgModel::List(items));
    let graphs = graphs_of(names, all);
    if count == 0 {
        assert(graphs.take(0) =~= Seq::empty());
    } else {
        lemma_refs(at, names, items, (count - 1) as nat);
        assert(all[count - 1] == items[count - 1]->Ref_0);
        assert(graphs.take(count as int) =~= graphs.take(count - 1).push(graphs[count - 1]));
    }
}

/// The inputs that the first arguments of a mix name.
proof fn lemma_inputs(
    at: nat,
    names: Names,
    incoming: Option<Graph>,
    args: Seq<ArgModel>,
    count: nat,
)
    requires
        count <= args.len(),
        forall|i: int| 0 <= i < count ==> calls_names(#[trigger] args[i]),
        all_bound(names, all_called(args, count)),
    ensures
        mix_args_of(at, names, incoming, args, count) == Ok::<MixArgs, BuildFault>(
            MixArgs {
                inputs: incoming_graphs(incoming) + graphs_of(names, all_called(args, count)),
                gains: None,
            },
        ),
    decreases count,
{
    let first = incoming_graphs(incoming);
    if count == 0 {
        assert(first + graphs_of(names, all_called(args, 0)) =~= first);
    } else {
        let less = (count - 1) as nat;
        let arg = args[count - 1];
        let before = all_called(args, less);
        let here = called(arg);
        let all = all_called(args, count);
        assert(all == before + here);
        assert(all_bound(names, before)) by {
            assert forall|i: int| 0 <= i < before.len() implies names.dom().contains(
                #[trigger] before[i],
            ) by {
                assert(all[i] == before[i]);
            }
        }
        assert(all_bound(names, here)) by {
            assert forall|i: int| 0 <= i < here.len() implies names.dom().contains(
                #[trigger] here[i],
            ) by {
                assert(all[before.len() + i] == here[i]);
            }
        }
        lemma_inputs(at, names, incoming, args, less);
        assert(calls_names(arg));
        assert(graphs_of(names, all) =~= graphs_of(names, before) + graphs_of(names, here));
        assert(first + (graphs_of(names, before) + graphs_of(names, here)) =~= (first + graphs_of(
            names,
            before,
        )) + graphs_of(names, here));
        match arg {
            ArgModel::Ref(name) => {
                assert(here[0] == name);
                assert(graphs_of(names, here) =~= seq![names[name]]);
                assert((first + graphs_of(names, before)) + seq![names[name]] =~= (first
                    + graphs_of(names, before)).push(names[name]));
            },
            ArgModel::List(items) => {
                lemma_refs(at, names, items, items.len());
                assert(graphs_of(names, here).take(items.len() as int) =~= graphs_of(names, here));
            },
            ArgModel::Number(_) => {},
        }
    }
}

/// The weights that a list writes.
proof fn lemma_weights(at: nat, weights: Seq<Double>, count: nat)
    requires
        count <= weights.len(),
        forall|i: int| 0 <= i < weights.len() ==> narrowed(#[trigger] weights[i]).finite(),
    ensures
        weights_of(at, weight_list(weights)->List_0, count) == Ok::<Seq<Single>, BuildFault>(
            Seq::new(count, |i: int| narrowed(weights[i])),
        ),
    decreases count,
{
    let items = weight_list(weights)->List_0;
    if count == 0 {
        assert(Seq::new(0, |i: int| narrowed(weights[i])) =~= Seq::empty());
    } else {
        lemma_weights(at, weights, (count - 1) as nat);
        assert(items[count - 1] == ArgModel::Number(weights[count - 1]));
        assert(narrowed(weights[count - 1]).finite());
        assert(Seq::new(count, |i: int| narrowed(weights[i])) =~= Seq::new(
            (count - 1) as nat,
            |i: int| narrowed(weights[i]),
        ).push(narrowed(weights[count - 1])));
    }
}

/// A mix takes in the signal that comes in, and then every name that its arguments call, in
/// their order, each as the graph that it stands for: whether the names are written one by
/// one or in lists. Without weights, all of them are one.
pub proof fn a_mix_takes_in_what_it_names(
    settings: Settings,
    at: nat,
    names: Names,
    incoming: Option<Graph>,
    args: Seq<ArgModel>,
)
    requires
        forall|i: int| 0 <= i < args.len() ==> calls_names(#[trigger] args[i]),
        all_bound(names, all_called(args, args.len())),
        incoming.is_some() || all_called(args, args.len()).len() > 0,
    ensures
        node_of(settings, at, names, incoming, "mix"@, args) matches Ok(
            Graph::Mix { inputs, gains, batch_frame_capacity },
        ) && {
            &&& inputs == incoming_graphs(incoming) + graphs_of(
                names,
                all_called(args, args.len()),
            )
            &&& gains == Seq::new(inputs.len(), |i: int| (Single { bits: 0x3f80_0000 }))
            &&& batch_frame_capacity == settings.batch_frame_capacity
        },
{
    lemma_node_names();
    lemma_inputs(at, names, incoming, args, args.len());
    let count = (incoming_graphs(incoming) + graphs_of(names, all_called(args, args.len()))).len();
    assert(crate::dsl::graph::unit_weights(count) =~= Seq::new(
        count,
        |i: int| (Single { bits: 0x3f80_0000 }),
    ));
}

/// The weights of a mix are those of its list, in their order: the first is the weight of
/// the first signal, and so on.
pub proof fn a_mix_weighs_each_input_with_its_weight(
    settings: Settings,
    at: nat,
    names: Names,
    incoming: Option<Graph>,
    args: Seq<ArgModel>,
    weights: Seq<Double>,
)
    requires
        forall|i: int| 0 <= i < args.len() ==> calls_names(#[trigger] args[i]),
        all_bound(names, all_called(args, args.len())),
        forall|i: int| 0 <= i < weights.len() ==> narrowed(#[trigger] weights[i]).finite(),
        weights.len() > 0,
        weights.len() == incoming_graphs(incoming).len() + all_called(args, args.len()).len(),
    ensures
        node_of(settings, at, names, incoming, "mix"@, args.push(weight_list(weights))) matches Ok(
            Graph::Mix { inputs, gains, batch_frame_capacity },
        ) && {
            &&& inputs == incoming_graphs(incoming) + graphs_of(
                names,
                all_called(args, args.len()),
            )
            &&& gains == Seq::new(weights.len(), |i: int| narrowed(weights[i]))
            &&& batch_frame_capacity == settings.batch_frame_capacity
        },
{
    let all = args.push(weight_list(weights));
    let n = args.len();
    lemma_node_names();
    lemma_called_prefix(all, args, n);
    assert forall|i: int| 0 <= i < n implies calls_names(#[trigger] all[i]) by {
        assert(all[i] == args[i]);
    }
    lemma_inputs(at, names, incoming, all, n);
    lemma_weights(at, weights, weights.len());
    let items = weight_list(weights)->List_0;
    assert(!(items[0] is Ref));
    assert(all[n as int] == weight_list(weights));
}

/// More arguments do not change what the first ones call.
proof fn lemma_called_prefix(all: Seq<ArgModel>, args: Seq<ArgModel>, count: nat)
    requires
        count <= args.len() <= all.len(),
        forall|i: int| 0 <= i < args.len() ==> all[i] == args[i],
    ensures
        all_called(all, count) == all_called(args, count),
    decreases count,
{
    if count > 0 {
        lemma_called_prefix(all, args, (count - 1) as nat);
    }
}

/// Some names, one by one.
pub open spec fn one_by_one(called: Seq<Seq<char>>) -> Seq<ArgModel> {
    called.map_values(|name: Seq<char>| ArgModel::Ref(name))
}

/// What names one by one call.
proof fn lemma_one_by_one(names: Seq<Seq<char>>, count: nat)
    requires
        count <= names.len(),
    ensures
        all_called(one_by_one(names), count) == names.take(count as int),
    decreases count,
{
    if count == 0 {
        assert(names.take(0) =~= Seq::empty());
    } else {
        lemma_one_by_one(names, (count - 1) as nat);
        assert(called(one_by_one(names)[count - 1]) =~= seq![names[count - 1]]);
        assert(names.take(count as int) =~= names.take(count - 1) + seq![names[count - 1]]);
    }
}

/// Names in a list are mixed like the same names one by one: each signal is the one that
/// its own name stands for.
pub proof fn a_list_of_names_is_its_names(
    settings: Settings,
    at: nat,
    names: Names,
    list: Seq<Seq<char>>,
)
    requires
        list.len() > 0,
        all_bound(names, list),
    ensures
        node_of(
            settings,
            at,
            names,
            None,
            "mix"@,
            seq![ArgModel::List(one_by_one(list))],
        ) == node_of(settings, at, names, None, "mix"@, one_by_one(list)),
        node_of(settings, at, names, None, "mix"@, seq![ArgModel::List(one_by_one(list))]) matches Ok(
            Graph::Mix { inputs, gains, batch_frame_capacity },
        ) && inputs.len() == list.len() && gains.len() == list.len() && forall|i: int|
            0 <= i < list.len() ==> #[trigger] inputs[i] == names[list[i]],
{
    let items = one_by_one(list);
    let args = seq![ArgModel::List(items)];
    assert(all_called(args, 0) =~= Seq::empty());
    assert(called(args[0]) =~= list);
    assert(all_called(args, 1) =~= list) by {
        reveal_with_fuel(all_called, 2);
    }
    lemma_one_by_one(list, list.len());
    assert(list.take(list.len() as int) =~= list);
    a_mix_takes_in_what_it_names(settings, at, names, None, args);
    a_mix_takes_in_what_it_names(settings, at, names, None, items);
}

/// `sine(f)` is a sine wave of that frequency at the configured rate, for every frequency
/// from zero to below half the rate, and no other frequency is taken.
pub proof fn a_sine_has_its_frequency(
    settings: Settings,
    at: nat,
    names: Names,
    frequency_hz: Double,
)
    ensures
        ({
            let made = node_of(
                settings,
                at,
                names,
                None,
                "sine"@,
                seq![ArgModel::Number(frequency_hz)],
            );
            if frequency_hz.finite() && 0 <= frequency_hz.value() && 2 * frequency_hz.value()
                < settings.sample_rate_hz * pow2(1074) {
                made == Ok::<Graph, BuildFault>(
                    Graph::Sine(
                        Sine {
                            sample_rate_hz: settings.sample_rate_hz,
                            frequency_hz,
                            batch_frame_capacity: settings.batch_frame_capacity,
                        },
                    ),
                )
            } else {
                made is Err
            }
        }),
{
    lemma_node_names();
}

/// `square(f, w)` is a square wave of that frequency and that pulse width, from zero to
/// one, and nothing else is taken.
pub proof fn a_square_has_its_frequency_and_width(
    settings: Settings,
    at: nat,
    names: Names,
    frequency_hz: Double,
    pulse_width: Double,
)
    ensures
        ({
            let made = node_of(
                settings,
                at,
                names,
                None,
                "square"@,
                seq![ArgModel::Number(frequency_hz), ArgModel::Number(pulse_width)],
            );
            if frequency_hz.finite() && 0 <= frequency_hz.value() && 2 * frequency_hz.value()
                < settings.sample_rate_hz * pow2(1074) && pulse_width.finite() && 0
                <= pulse_width.value() <= pow2(1074) {
                made == Ok::<Graph, BuildFault>(
                    Graph::Square(
                        Square {
                            sample_rate_hz: settings.sample_rate_hz,
                            frequency_hz,
                            pulse_width,
                            batch_frame_capacity: settings.batch_frame_capacity,
                        },
                    ),
                )
            } else {
                made is Err
            }
        }),
{
    lemma_node_names();
}

/// `gain(x)` applies that factor, in single precision, to the signal that comes in, and is
/// refused only where single precision does not hold it.
pub proof fn a_gain_has_its_factor(
    settings: Settings,
    at: nat,
    names: Names,
    input: Graph,
    factor: Double,
)
    requires
        factor.finite(),
    ensures
        ({
            let made = node_of(
                settings,
                at,
                names,
                Some(input),
                "gain"@,
                seq![ArgModel::Number(factor)],
            );
            if narrowed(factor).finite() {
                made == Ok::<Graph, BuildFault>(
                    Graph::Gain { input: Box::new(input), factor: narrowed(factor) },
                )
            } else {
                made is Err
            }
        }),
{
    lemma_node_names();
}

/// `lpf(c)` filters the signal that comes in with that cutoff, above zero and below half
/// the rate, and takes no other.
pub proof fn a_filter_has_its_cutoff(
    settings: Settings,
    at: nat,
    names: Names,
    input: Graph,
    cutoff: Double,
)
    ensures
        ({
            let made = node_of(
                settings,
                at,
                names,
                Some(input),
                "lpf"@,
                seq![ArgModel::Number(cutoff)],
            );
            if cutoff.finite() && 0 < cutoff.value() && 2 * cutoff.value()
                < settings.sample_rate_hz * pow2(1074) {
                made matches Ok(Graph::LowPass { input: filtered, cutoff_hz, exponent })
                    && *filtered == input && cutoff_hz == cutoff
            } else {
                made is Err
            }
        }),
{
    lemma_node_names();
}

/// A stage after others takes in the signal that they came to; a name at the end of a
/// statement stands for the signal from then on, and no other name changes; `out` limits
/// the signal to the configured number of frames.
pub proof fn each_stage_goes_on_from_the_one_before(
    settings: Settings,
    before: Building,
    stages: Seq<Staged>,
    count: nat,
    here: Building,
)
    requires
        0 < count < stages.len(),
        stages_built(settings, before, stages, count) == Ok::<Building, BuildFault>(here),
        here.current.is_some(),
    ensures
        ({
            let built = stages_built(settings, before, stages, count + 1);
            let stage = stages[count as int];
            match stage.kind {
                StageModel::Call(name, args) => match node_of(
                    settings,
                    stage.at,
                    here.names,
                    here.current,
                    name,
                    args,
                ) {
                    Ok(graph) => built == Ok::<Building, BuildFault>(
                        Building {
                            names: here.names,
                            current: Some(graph),
                            output: here.output,
                        },
                    ),
                    Err(_) => built is Err,
                },
                StageModel::Ref(name) => if count + 1 == stages.len()
                    && !here.names.dom().contains(name) {
                    built matches Ok(after) && after.current.is_none() && after.output
                        == here.output && after.names.dom() =~= here.names.dom().insert(name)
                        && after.names[name] == here.current.unwrap() && forall|other: Seq<char>|
                        #[trigger]
                        here.names.dom().contains(other) ==> after.names[other]
                            == here.names[other]
                } else {
                    built is Err
                },
                StageModel::Out => if count + 1 == stages.len() && here.output.is_none()
                    && settings.frame_count <= usize::MAX {
                    built == Ok::<Building, BuildFault>(
                        Building {
                            names: here.names,
                            current: None,
                            output: Some(
                                Graph::Limit {
                                    input: Box::new(here.current.unwrap()),
                                    frames: settings.frame_count as nat,
                                },
                            ),
                        },
                    )
                } else {
                    built is Err
                },
            }
        }),
{
    assert(stages_built(settings, before, stages, count + 1) == stage_built(
        settings,
        here,
        stages,
        count as int,
    ));
}

/// A statement that starts with a name starts from the graph that the name stands for, and
/// is refused where it stands for none.
pub proof fn a_statement_starts_from_its_name(
    settings: Settings,
    before: Building,
    stages: Seq<Staged>,
    name: Seq<char>,
)
    requires
        stages.len() > 0,
        stages[0].kind == StageModel::Ref(name),
    ensures
        ({
            let built = stages_built(settings, before, stages, 1);
            if before.names.dom().contains(name) {
                built == Ok::<Building, BuildFault>(
                    Building {
                        names: before.names,
                        current: Some(before.names[name]),
                        output: before.output,
                    },
                )
            } else {
                built is Err
            }
        }),
{
    reveal_with_fuel(stages_built, 2);
}

} // verus!
