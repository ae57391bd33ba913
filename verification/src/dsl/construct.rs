//! Building graphs from text.
use crate::config::{RenderConfig, Settings};
use crate::dsl::graph::{
    all_numbers, all_refs, mix_args_of, mix_of, node_of, numeric_args_fault, referenced, refs_of,
    single_of, source_graph, stage_built, stages_built, statements_built, statements_graph,
    unary_args_of, unit_weights, weights_of, BuildFault, Building, MixArgs, Names,
};
use crate::dsl::lex::{lex, Fault, Problem};
use crate::dsl::parse::{
    arg_models, staged, statement_models, Arg, ArgModel, Parser, Stage, StageKind, Staged,
};
use crate::ieee::number::{Double, Single};
use crate::physical::frame::gain::FrameGainExec;
use crate::physical::frame::low_pass_filter::FrameLowPassFilterExec;
use crate::physical::frame::mix::{graphs, mix_accepted, mixable, FrameMixExec};
use crate::physical::frame::node::{
    frame_model, plan_error, schema_model, Extent, NodeError,
};
use crate::physical::frame::plan::{lemma_made_for, FrameLimit, Graph, Plan};
use crate::physical::frame::sine::FrameSineOscExec;
use crate::physical::frame::square::FrameSquareOscExec;
use crate::render::platform_index;
use crate::text::{
    byte_length, bytes_before, characters, count_bytes, decimal, decimal_text, lemma_bytes_ends,
    lemma_bytes_increase, same_text, to_debug_text,
};
use std::sync::Arc;
use vstd::prelude::*;
use vstd::utf8::encode_utf8;

verus! {

/// Why a text does not make a graph.
pub enum BuildProblem {
    /// The text is wrong.
    Source(Problem),
    /// A node is wrong.
    Plan(NodeError),
}

/// Whether a problem is this fault.
pub open spec fn shows(problem: BuildProblem, fault: BuildFault) -> bool {
    match (problem, fault) {
        (BuildProblem::Source(problem), BuildFault::Source(fault)) => problem@ == fault,
        (BuildProblem::Plan(error), BuildFault::Plan(reason)) => plan_error(error, reason),
        _ => false,
    }
}

/// Reports what is wrong at a place.
fn problem<T>(at: usize, message: String) -> (r: Result<T, BuildProblem>)
    ensures
        r matches Err(problem) && shows(
            problem,
            BuildFault::Source(Fault { at: at as nat, message: message@ }),
        ),
{
    Err(BuildProblem::Source(Problem { at, message }))
}

/// The graphs with names, as values; a later name hides an earlier one.
pub open spec fn names_of(entries: Seq<(String, Arc<Plan>)>) -> Names
    decreases entries.len(),
{
    if entries.len() == 0 {
        Map::empty()
    } else {
        names_of(entries.drop_last()).insert(entries.last().0@, entries.last().1.graph())
    }
}

/// The graphs with names.
struct Bindings {
    entries: Vec<(String, Arc<Plan>)>,
}

impl View for Bindings {
    type V = Names;

    closed spec fn view(&self) -> Names {
        names_of(self.entries@)
    }
}

impl Bindings {
    /// Every graph gives one stream of frames.
    spec fn signals(self, sample_rate_hz: u32) -> bool {
        forall|i: int|
            0 <= i < self.entries@.len() ==> (#[trigger] self.entries@[i]).1.made_for(
                sample_rate_hz,
            )
    }

    /// Finds the graph with a name.
    fn find(&self, name: &str, Ghost(rate): Ghost<u32>) -> (r: Option<Arc<Plan>>)
        requires
            self.signals(rate),
        ensures
            r.is_some() == self@.dom().contains(name@),
            r matches Some(plan) ==> self@[name@] == plan.graph() && plan.made_for(rate),
    {
        let mut i: usize = self.entries.len();
        assert(self.entries@.take(i as int) =~= self.entries@);
        while i > 0
            invariant
                i <= self.entries@.len(),
                self.signals(rate),
                self@.dom().contains(name@) == names_of(
                    self.entries@.take(i as int),
                ).dom().contains(name@),
                self@.dom().contains(name@) ==> self@[name@] == names_of(
                    self.entries@.take(i as int),
                )[name@],
            decreases i,
        {
            let ghost taken = self.entries@.take(i as int);
            proof {
                assert(taken.drop_last() =~= self.entries@.take(i - 1));
                assert(taken.last() == self.entries@[i - 1]);
            }
            i -= 1;
            if same_text(self.entries[i].0.as_str(), name) {
                let plan: Arc<Plan> = self.entries[i].1.clone();
                assert(self.entries@[i as int].1.made_for(rate));
                return Some(plan);
            }
        }
        None
    }

    /// Gives a graph a name.
    fn bind(&mut self, name: String, plan: Arc<Plan>, Ghost(rate): Ghost<u32>)
        requires
            old(self).signals(rate),
            plan.made_for(rate),
        ensures
            final(self)@ == old(self)@.insert(name@, plan.graph()),
            final(self).signals(rate),
    {
        let ghost before = self.entries@;
        self.entries.push((name, plan));
        assert(self.entries@.drop_last() =~= before);
    }
}

/// Finds the graph with a name, or reports that there is none.
fn reference(at: usize, bindings: &Bindings, name: &str, Ghost(rate): Ghost<u32>) -> (r: Result<
    Arc<Plan>,
    BuildProblem,
>)
    requires
        bindings.signals(rate),
    ensures
        r matches Ok(plan) ==> referenced(at as nat, bindings@, name@) == Ok::<Graph, BuildFault>(
            plan.graph(),
        ) && plan.made_for(rate),
        r matches Err(problem) ==> referenced(at as nat, bindings@, name@) matches Err(fault)
            && shows(problem, fault),
{
    match bindings.find(name, Ghost(rate)) {
        Some(plan) => Ok(plan),
        None => problem(at, "undefined reference $".to_owned().concat(name)),
    }
}

/// Reads the numbers that a source takes.
fn numeric_args(at: usize, name: &str, args: &Vec<Arg>, count: usize) -> (r: Result<
    Vec<Double>,
    BuildProblem,
>)
    ensures
        r.is_ok() == numeric_args_fault(
            at as nat,
            name@,
            arg_models(args@),
            count as nat,
        ).is_none(),
        r matches Ok(numbers) ==> {
            &&& numbers@.len() == count == args@.len()
            &&& forall|i: int|
                0 <= i < count ==> arg_models(args@)[i] == ArgModel::Number(#[trigger] numbers@[i])
        },
        r matches Err(problem) ==> numeric_args_fault(
            at as nat,
            name@,
            arg_models(args@),
            count as nat,
        ) matches Some(fault) && shows(problem, fault),
{
    let ghost models = arg_models(args@);
    if args.len() != count {
        return problem(
            at,
            name.to_owned().concat(" expects ").concat(
                decimal_text(count as u64).as_str(),
            ).concat(" numeric argument(s)"),
        );
    }
    let mut numbers: Vec<Double> = Vec::new();
    let mut i: usize = 0;
    while i < args.len()
        invariant
            i <= args@.len() == count,
            models == arg_models(args@),
            numbers@.len() == i,
            forall|j: int|
                0 <= j < i ==> models[j] == ArgModel::Number(#[trigger] numbers@[j])
                    && numbers@[j].finite(),
        decreases args@.len() - i,
    {
        assert(models[i as int] == args@[i as int].model());
        match &args[i] {
            Arg::Number(value) => {
                if !value.is_finite() {
                    assert(!all_numbers(models)) by {
                        assert(models[i as int] == ArgModel::Number(*value));
                    }
                    return problem(at, name.to_owned().concat(" expects numeric arguments"));
                }
                numbers.push(*value);
            },
            _ => {
                assert(!all_numbers(models)) by {
                    assert(!(models[i as int] is Number));
                }
                return problem(at, name.to_owned().concat(" expects numeric arguments"));
            },
        }
        i += 1;
    }
    assert(all_numbers(models)) by {
        assert forall|j: int| 0 <= j < models.len() implies (
        #[trigger] models[j] matches ArgModel::Number(value) && value.finite()) by {
            assert(models[j] == ArgModel::Number(numbers@[j]));
        }
    }
    Ok(numbers)
}

/// Reads the signal and the number that a filter or a gain takes.
fn unary_args(
    at: usize,
    bindings: &Bindings,
    incoming: Option<Arc<Plan>>,
    name: &str,
    args: &Vec<Arg>,
    Ghost(rate): Ghost<u32>,
) -> (r: Result<(Arc<Plan>, Double), BuildProblem>)
    requires
        bindings.signals(rate),
        incoming matches Some(plan) ==> plan.made_for(rate),
    ensures
        r matches Ok((plan, value)) ==> unary_args_of(
            at as nat,
            bindings@,
            shown(incoming),
            name@,
            arg_models(args@),
        ) == Ok::<(Graph, Double), BuildFault>((plan.graph(), value)) && plan.made_for(rate),
        r matches Err(problem) ==> unary_args_of(
            at as nat,
            bindings@,
            shown(incoming),
            name@,
            arg_models(args@),
        ) matches Err(fault) && shows(problem, fault),
{
    let ghost models = arg_models(args@);
    let mut input: Option<Arc<Plan>> = None;
    let mut value: Double = Double { bits: 0 };
    if args.len() == 1 {
        assert(models[0] == args@[0].model());
        if let Arg::Number(number) = &args[0] {
            if let Some(plan) = incoming {
                input = Some(plan);
                value = *number;
            }
        }
    } else if args.len() == 2 && incoming.is_none() {
        assert(models[0] == args@[0].model());
        assert(models[1] == args@[1].model());
        if let Arg::Ref(reference_name) = &args[0] {
            if let Arg::Number(number) = &args[1] {
                input = Some(reference(at, bindings, reference_name.as_str(), Ghost(rate))?);
                value = *number;
            }
        }
    }
    match input {
        Some(plan) => {
            if !value.is_finite() {
                return problem(at, name.to_owned().concat(" argument must be finite"));
            }
            Ok((plan, value))
        },
        None => problem(
            at,
            name.to_owned().concat(" expects one input and one numeric argument"),
        ),
    }
}

/// The graph of a node that may be missing.
pub open spec fn shown(plan: Option<Arc<Plan>>) -> Option<Graph> {
    match plan {
        Some(plan) => Some(plan.graph()),
        None => None,
    }
}

/// Converts a number to single precision.
fn f32_value(at: usize, value: Double, label: &str) -> (r: Result<Single, BuildProblem>)
    ensures
        r matches Ok(number) ==> single_of(at as nat, value, label@) == Ok::<Single, BuildFault>(
            number,
        ) && number.finite(),
        r matches Err(problem) ==> single_of(at as nat, value, label@) matches Err(fault) && shows(
            problem,
            fault,
        ),
{
    let converted: Single = value.narrow();
    if !converted.is_finite() {
        return problem(at, label.to_owned().concat(" exceeds f32 range"));
    }
    Ok(converted)
}

/// A list's items, as values.
proof fn lemma_list_model(arg: Arg)
    requires
        arg is List,
    ensures
        arg.model() == ArgModel::List(arg_models(arg->List_0@)),
{
    assert(arg.model()->List_0 =~= arg_models(arg->List_0@));
}

/// Whether a list has items and all are references.
fn lists_inputs(items: &Vec<Arg>) -> (r: bool)
    ensures
        r == (items@.len() > 0 && all_refs(arg_models(items@))),
{
    let ghost models = arg_models(items@);
    let mut i: usize = 0;
    while i < items.len()
        invariant
            i <= items@.len(),
            models == arg_models(items@),
            forall|j: int| 0 <= j < i ==> (#[trigger] models[j]) is Ref,
        decreases items@.len() - i,
    {
        assert(models[i as int] == items@[i as int].model());
        match &items[i] {
            Arg::Ref(_) => {},
            _ => {
                assert(!(models[i as int] is Ref));
                return false;
            },
        }
        i += 1;
    }
    items.len() > 0
}

/// Whether every graph gives one stream of frames.
spec fn all_signals(plans: Seq<Arc<Plan>>, rate: u32) -> bool {
    forall|i: int| 0 <= i < plans.len() ==> (#[trigger] plans[i]).made_for(rate)
}

/// Finds the graphs that a list of references names.
fn list_inputs(at: usize, bindings: &Bindings, items: &Vec<Arg>, Ghost(rate): Ghost<u32>) -> (r:
    Result<Vec<Arc<Plan>>, BuildProblem>)
    requires
        bindings.signals(rate),
        all_refs(arg_models(items@)),
    ensures
        r matches Ok(plans) ==> refs_of(
            at as nat,
            bindings@,
            arg_models(items@),
            items@.len(),
        ) == Ok::<Seq<Graph>, BuildFault>(graphs(plans@)) && all_signals(plans@, rate),
        r matches Err(problem) ==> refs_of(
            at as nat,
            bindings@,
            arg_models(items@),
            items@.len(),
        ) matches Err(fault) && shows(problem, fault),
{
    let ghost models = arg_models(items@);
    let mut plans: Vec<Arc<Plan>> = Vec::new();
    let mut i: usize = 0;
    assert(graphs(plans@) =~= Seq::empty());
    while i < items.len()
        invariant
            i <= items@.len(),
            bindings.signals(rate),
            models == arg_models(items@),
            all_refs(models),
            all_signals(plans@, rate),
            refs_of(at as nat, bindings@, models, i as nat) == Ok::<Seq<Graph>, BuildFault>(
                graphs(plans@),
            ),
        decreases items@.len() - i,
    {
        assert(models[i as int] == items@[i as int].model());
        assert(models[i as int] is Ref);
        if let Arg::Ref(name) = &items[i] {
            let ghost before = graphs(plans@);
            match reference(at, bindings, name.as_str(), Ghost(rate)) {
                Ok(plan) => {
                    plans.push(plan);
                    assert(graphs(plans@) =~= before.push(plan.graph()));
                },
                Err(problem) => {
                    proof {
                        lemma_refs_fail(
                            at as nat,
                            bindings@,
                            models,
                            (i + 1) as nat,
                            models.len(),
                        );
                    }
                    return Err(problem);
                },
            }
        }
        i += 1;
    }
    Ok(plans)
}

/// A fault among the first references is the fault of the whole list.
proof fn lemma_refs_fail(at: nat, names: Names, items: Seq<ArgModel>, count: nat, total: nat)
    requires
        count <= total,
        refs_of(at, names, items, count) is Err,
    ensures
        refs_of(at, names, items, total) == refs_of(at, names, items, count),
    decreases total - count,
{
    if count < total {
        lemma_refs_fail(at, names, items, count + 1, total);
    }
}

/// A fault among the first weights is the fault of the whole list.
proof fn lemma_weights_fail(at: nat, items: Seq<ArgModel>, count: nat, total: nat)
    requires
        count <= total,
        weights_of(at, items, count) is Err,
    ensures
        weights_of(at, items, total) == weights_of(at, items, count),
    decreases total - count,
{
    if count < total {
        lemma_weights_fail(at, items, count + 1, total);
    }
}

/// Whether every weight is a number.
pub open spec fn all_finite(gains: Seq<Single>) -> bool {
    forall|i: int| 0 <= i < gains.len() ==> (#[trigger] gains[i]).finite()
}

/// Reads the weights of a mix.
fn list_weights(at: usize, items: &Vec<Arg>) -> (r: Result<Vec<Single>, BuildProblem>)
    ensures
        r matches Ok(weights) ==> weights_of(at as nat, arg_models(items@), items@.len()) == Ok::<
            Seq<Single>,
            BuildFault,
        >(weights@) && all_finite(weights@),
        r matches Err(problem) ==> weights_of(
            at as nat,
            arg_models(items@),
            items@.len(),
        ) matches Err(fault) && shows(problem, fault),
{
    let ghost models = arg_models(items@);
    let mut weights: Vec<Single> = Vec::new();
    let mut i: usize = 0;
    assert(weights@ =~= Seq::empty());
    while i < items.len()
        invariant
            i <= items@.len(),
            models == arg_models(items@),
            all_finite(weights@),
            weights_of(at as nat, models, i as nat) == Ok::<Seq<Single>, BuildFault>(weights@),
        decreases items@.len() - i,
    {
        assert(models[i as int] == items@[i as int].model());
        match &items[i] {
            Arg::Number(value) => {
                match f32_value(at, *value, "mix weight") {
                    Ok(weight) => {
                        weights.push(weight);
                    },
                    Err(problem) => {
                        proof {
                            lemma_weights_fail(at as nat, models, (i + 1) as nat, models.len());
                        }
                        return Err(problem);
                    },
                }
            },
            _ => {
                proof {
                    assert(!(models[i as int] is Number));
                    lemma_weights_fail(at as nat, models, (i + 1) as nat, models.len());
                }
                return problem(at, "mix weights must be numbers".to_owned());
            },
        }
        i += 1;
    }
    Ok(weights)
}

/// A fault among the first arguments is the fault of the whole call.
proof fn lemma_mix_args_fail(
    at: nat,
    names: Names,
    incoming: Option<Graph>,
    args: Seq<ArgModel>,
    count: nat,
    total: nat,
)
    requires
        count <= total,
        mix_args_of(at, names, incoming, args, count) is Err,
    ensures
        mix_args_of(at, names, incoming, args, total) == mix_args_of(
            at,
            names,
            incoming,
            args,
            count,
        ),
    decreases total - count,
{
    if count < total {
        lemma_mix_args_fail(at, names, incoming, args, count + 1, total);
    }
}

/// The weights that were given, as values.
spec fn given_weights(gains: Option<Vec<Single>>) -> Option<Seq<Single>> {
    match gains {
        Some(gains) => Some(gains@),
        None => None,
    }
}

/// Reads the signals and the weights of a mix.
#[verifier::rlimit(60)]
fn mix_args(
    at: usize,
    bindings: &Bindings,
    incoming: Option<Arc<Plan>>,
    args: &Vec<Arg>,
    Ghost(rate): Ghost<u32>,
) -> (r: Result<(Vec<Arc<Plan>>, Vec<Single>), BuildProblem>)
    requires
        bindings.signals(rate),
        incoming matches Some(plan) ==> plan.made_for(rate),
    ensures
        r matches Ok((plans, gains)) ==> {
            &&& mix_of(at as nat, bindings@, shown(incoming), arg_models(args@)) == Ok::<
                (Seq<Graph>, Seq<Single>),
                BuildFault,
            >((graphs(plans@), gains@))
            &&& plans@.len() == gains@.len()
            &&& all_signals(plans@, rate)
            &&& all_finite(gains@)
        },
        r matches Err(problem) ==> mix_of(
            at as nat,
            bindings@,
            shown(incoming),
            arg_models(args@),
        ) matches Err(fault) && shows(problem, fault),
{
    let ghost models = arg_models(args@);
    let ghost start = shown(incoming);
    let mut inputs: Vec<Arc<Plan>> = Vec::new();
    if let Some(plan) = incoming {
        inputs.push(plan);
    }
    let mut gains: Option<Vec<Single>> = None;
    let mut i: usize = 0;
    proof {
        match start {
            Some(graph) => {
                assert(graphs(inputs@) =~= seq![graph]);
            },
            None => {
                assert(graphs(inputs@) =~= Seq::empty());
            },
        }
    }
    while i < args.len()
        invariant
            i <= args@.len(),
            bindings.signals(rate),
            models == arg_models(args@),
            start == shown(incoming),
            all_signals(inputs@, rate),
            gains matches Some(gains) ==> all_finite(gains@),
            mix_args_of(at as nat, bindings@, start, models, i as nat) == Ok::<MixArgs, BuildFault>(
                MixArgs { inputs: graphs(inputs@), gains: given_weights(gains) },
            ),
        decreases args@.len() - i,
    {
        assert(models[i as int] == args@[i as int].model());
        let ghost before = graphs(inputs@);
        let ghost next = mix_args_of(at as nat, bindings@, start, models, (i + 1) as nat);
        proof {
            if next is Err {
                lemma_mix_args_fail(
                    at as nat,
                    bindings@,
                    start,
                    models,
                    (i + 1) as nat,
                    models.len(),
                );
            }
        }
        if gains.is_some() {
            return problem(
                at,
                "mix expects input references followed by an optional weight list".to_owned(),
            );
        }
        match &args[i] {
            Arg::Ref(name) => {
                match reference(at, bindings, name.as_str(), Ghost(rate)) {
                    Ok(plan) => {
                        inputs.push(plan);
                        assert(graphs(inputs@) =~= before.push(plan.graph()));
                    },
                    Err(problem) => {
                        return Err(problem);
                    },
                }
            },
            Arg::List(items) => {
                proof {
                    lemma_list_model(args@[i as int]);
                }
                if lists_inputs(items) {
                    match list_inputs(at, bindings, items, Ghost(rate)) {
                        Ok(plans) => {
                            let ghost more = graphs(plans@);
                            let mut plans: Vec<Arc<Plan>> = plans;
                            inputs.append(&mut plans);
                            assert(graphs(inputs@) =~= before + more);
                        },
                        Err(problem) => {
                            return Err(problem);
                        },
                    }
                } else if i == args.len() - 1 {
                    match list_weights(at, items) {
                        Ok(weights) => {
                            gains = Some(weights);
                        },
                        Err(problem) => {
                            return Err(problem);
                        },
                    }
                } else {
                    return problem(
                        at,
                        "mix expects input references followed by an optional weight list".to_owned(),
                    );
                }
            },
            Arg::Number(_) => {
                return problem(
                    at,
                    "mix expects input references followed by an optional weight list".to_owned(),
                );
            },
        }
        i += 1;
    }
    if inputs.len() == 0 {
        return problem(at, "mix requires at least one input".to_owned());
    }
    let weights: Vec<Single> = match gains {
        Some(gains) => gains,
        None => ones(inputs.len()),
    };
    if weights.len() != inputs.len() {
        return problem(
            at,
            "mix has ".to_owned().concat(decimal_text(inputs.len() as u64).as_str()).concat(
                " inputs but ",
            ).concat(decimal_text(weights.len() as u64).as_str()).concat(" weights"),
        );
    }
    Ok((inputs, weights))
}

/// Lists as many weights of one.
fn ones(count: usize) -> (weights: Vec<Single>)
    ensures
        weights@ == unit_weights(count as nat),
        all_finite(weights@),
{
    let mut weights: Vec<Single> = Vec::new();
    let mut i: usize = 0;
    let one: Single = crate::ieee::constants::single_one();
    while i < count
        invariant
            i <= count,
            one.finite(),
            one.bits == 0x3f80_0000,
            weights@ == unit_weights(i as nat),
            all_finite(weights@),
        decreases count - i,
    {
        weights.push(one);
        i += 1;
        assert(weights@ =~= unit_weights(i as nat));
    }
    weights
}

/// Makes the node that a call writes.
#[verifier::rlimit(60)]
fn construct(
    at: usize,
    config: &RenderConfig,
    bindings: &Bindings,
    incoming: Option<Arc<Plan>>,
    name: &str,
    args: &Vec<Arg>,
) -> (r: Result<Arc<Plan>, BuildProblem>)
    requires
        bindings.signals(config@.sample_rate_hz),
        incoming matches Some(plan) ==> plan.made_for(config@.sample_rate_hz),
    ensures
        r matches Ok(plan) ==> node_of(
            config@,
            at as nat,
            bindings@,
            shown(incoming),
            name@,
            arg_models(args@),
        ) == Ok::<Graph, BuildFault>(plan.graph()) && plan.made_for(config@.sample_rate_hz),
        r matches Err(problem) ==> node_of(
            config@,
            at as nat,
            bindings@,
            shown(incoming),
            name@,
            arg_models(args@),
        ) matches Err(fault) && shows(problem, fault),
{
    let ghost rate = config@.sample_rate_hz;
    proof {
        lemma_node_names();
    }
    if same_text(name, "sine") {
        if incoming.is_some() {
            return problem(at, name.to_owned().concat(" is a source and takes no input"));
        }
        let numbers: Vec<Double> = numeric_args(at, name, args, 1)?;
        assert(arg_models(args@)[0] == ArgModel::Number(numbers@[0]));
        return match FrameSineOscExec::try_new(config, numbers[0]) {
            Ok(node) => Ok(Arc::new(Plan::Sine(node))),
            Err(error) => Err(BuildProblem::Plan(error)),
        };
    }
    if same_text(name, "square") {
        if incoming.is_some() {
            return problem(at, name.to_owned().concat(" is a source and takes no input"));
        }
        let numbers: Vec<Double> = numeric_args(at, name, args, 2)?;
        assert(arg_models(args@)[0] == ArgModel::Number(numbers@[0]));
        assert(arg_models(args@)[1] == ArgModel::Number(numbers@[1]));
        return match FrameSquareOscExec::try_new(config, numbers[0], numbers[1]) {
            Ok(node) => Ok(Arc::new(Plan::Square(node))),
            Err(error) => Err(BuildProblem::Plan(error)),
        };
    }
    if same_text(name, "gain") {
        let (input, value) = unary_args(at, bindings, incoming, name, args, Ghost(rate))?;
        let factor: Single = f32_value(at, value, "gain factor")?;
        return match FrameGainExec::try_new(config, input, factor) {
            Ok(node) => {
                let plan: Plan = Plan::Gain(node);
                proof {
                    lemma_made_for(plan, rate);
                }
                Ok(Arc::new(plan))
            },
            Err(error) => Err(BuildProblem::Plan(error)),
        };
    }
    if same_text(name, "lpf") {
        let (input, value) = unary_args(at, bindings, incoming, name, args, Ghost(rate))?;
        return match FrameLowPassFilterExec::try_new(config, input, value) {
            Ok(node) => {
                let plan: Plan = Plan::LowPass(node);
                proof {
                    lemma_made_for(plan, rate);
                }
                Ok(Arc::new(plan))
            },
            Err(error) => Err(BuildProblem::Plan(error)),
        };
    }
    if same_text(name, "mix") {
        let (inputs, gains) = mix_args(at, bindings, incoming, args, Ghost(rate))?;
        proof {
            let model = frame_model(rate);
            assert forall|i: int| 0 <= i < inputs@.len() implies mixable(
                *#[trigger] inputs@[i],
                model,
            ) by {
                assert(inputs@[i].made_for(rate));
                assert(schema_model(*inputs@[i].known().schema) == model);
            }
            assert(mix_accepted(inputs@, gains@, model));
        }
        return match FrameMixExec::try_new(config, inputs, gains) {
            Ok(node) => {
                let plan: Plan = Plan::Mix(node);
                proof {
                    lemma_made_for(plan, rate);
                }
                Ok(Arc::new(plan))
            },
            Err(error) => Err(BuildProblem::Plan(error)),
        };
    }
    problem(at, "unknown node ".to_owned().concat(to_debug_text(name).as_str()))
}

/// No two kinds of node have the same name.
pub proof fn lemma_node_names()
    ensures
        "sine"@ != "square"@,
        "sine"@ != "gain"@,
        "sine"@ != "lpf"@,
        "sine"@ != "mix"@,
        "square"@ != "gain"@,
        "square"@ != "lpf"@,
        "square"@ != "mix"@,
        "gain"@ != "lpf"@,
        "gain"@ != "mix"@,
        "lpf"@ != "mix"@,
{
    reveal_strlit("sine");
    reveal_strlit("square");
    reveal_strlit("gain");
    reveal_strlit("lpf");
    reveal_strlit("mix");
    assert("sine"@[0] == 's');
    assert("gain"@[0] == 'g');
    assert("lpf"@[0] == 'l');
    assert("mix"@[0] == 'm');
    assert("sine"@.len() == 4);
    assert("square"@.len() == 6);
}

/// What the statements gave so far.
struct State {
    bindings: Bindings,
    current: Option<Arc<Plan>>,
    output: Option<Arc<Plan>>,
}

impl State {
    /// What the statements gave so far, as values.
    spec fn shown(self) -> Building {
        Building {
            names: self.bindings@,
            current: shown(self.current),
            output: shown(self.output),
        }
    }

    /// Every graph gives one stream of frames.
    spec fn wf(self, rate: u32) -> bool {
        &&& self.bindings.signals(rate)
        &&& self.current matches Some(plan) ==> plan.made_for(rate)
        &&& self.output matches Some(plan) ==> plan.made_for(rate) && plan.known().extent
            == Extent::Bounded
    }

    /// Takes one more stage of a statement.
    fn take(&mut self, config: &RenderConfig, stages: &Vec<Stage>, index: usize) -> (r: Result<
        (),
        BuildProblem,
    >)
        requires
            index < stages@.len(),
            old(self).wf(config@.sample_rate_hz),
        ensures
            final(self).wf(config@.sample_rate_hz),
            r.is_ok() ==> stage_built(
                config@,
                old(self).shown(),
                staged(stages@),
                index as int,
            ) == Ok::<Building, BuildFault>(final(self).shown()),
            r matches Err(problem) ==> stage_built(
                config@,
                old(self).shown(),
                staged(stages@),
                index as int,
            ) matches Err(fault) && shows(problem, fault),
    {
        let ghost rate = config@.sample_rate_hz;
        let stage: &Stage = &stages[index];
        let at: usize = stage.at;
        let last: bool = index == stages.len() - 1;
        assert(staged(stages@)[index as int] == stage@);
        let mut current: Option<Arc<Plan>> = None;
        std::mem::swap(&mut current, &mut self.current);
        match &stage.kind {
            StageKind::Call(name, args) => {
                let plan: Arc<Plan> = match construct(
                    at,
                    config,
                    &self.bindings,
                    current,
                    name.as_str(),
                    args,
                ) {
                    Ok(plan) => plan,
                    Err(problem) => {
                        return Err(problem);
                    },
                };
                self.current = Some(plan);
                Ok(())
            },
            StageKind::Ref(name) => {
                if index == 0 {
                    let plan: Arc<Plan> = match reference(
                        at,
                        &self.bindings,
                        name.as_str(),
                        Ghost(rate),
                    ) {
                        Ok(plan) => plan,
                        Err(problem) => {
                            return Err(problem);
                        },
                    };
                    self.current = Some(plan);
                    return Ok(());
                }
                if !last {
                    return problem(at, "binding must end a statement".to_owned());
                }
                if self.bindings.find(name.as_str(), Ghost(rate)).is_some() {
                    return problem(at, "duplicate binding $".to_owned().concat(name.as_str()));
                }
                match current {
                    None => problem(at, "binding requires an input".to_owned()),
                    Some(plan) => {
                        self.bindings.bind(name.clone(), plan, Ghost(rate));
                        Ok(())
                    },
                }
            },
            StageKind::Out => {
                if !last {
                    return problem(at, "out must end a statement".to_owned());
                }
                if self.output.is_some() {
                    return problem(at, "graph has more than one out".to_owned());
                }
                let input: Arc<Plan> = match current {
                    None => {
                        return problem(at, "out requires an input".to_owned());
                    },
                    Some(plan) => plan,
                };
                let limit: usize = match platform_index(config.frame_count()) {
                    Ok(limit) => limit,
                    Err(_) => {
                        return problem(at, "frame_count does not fit usize".to_owned());
                    },
                };
                let output: Plan = Plan::Limit(FrameLimit::new(input, limit));
                proof {
                    lemma_made_for(output, rate);
                }
                self.output = Some(Arc::new(output));
                Ok(())
            },
        }
    }
}

/// A fault in the first stages is the fault of the whole statement.
proof fn lemma_stages_fail(
    settings: Settings,
    before: Building,
    stages: Seq<Staged>,
    count: nat,
    total: nat,
)
    requires
        count <= total,
        stages_built(settings, before, stages, count) is Err,
    ensures
        stages_built(settings, before, stages, total) == stages_built(
            settings,
            before,
            stages,
            count,
        ),
    decreases total - count,
{
    if count < total {
        lemma_stages_fail(settings, before, stages, count + 1, total);
    }
}

/// A fault in the first statements is the fault of the whole text.
proof fn lemma_statements_fail(
    settings: Settings,
    length: nat,
    statements: Seq<Seq<Staged>>,
    count: nat,
    total: nat,
)
    requires
        count <= total,
        statements_built(settings, length, statements, count) is Err,
    ensures
        statements_built(settings, length, statements, total) == statements_built(
            settings,
            length,
            statements,
            count,
        ),
    decreases total - count,
{
    if count < total {
        lemma_statements_fail(settings, length, statements, count + 1, total);
    }
}

/// Makes the graph that statements in a text of this many bytes write.
fn build_statements(
    length: usize,
    config: &RenderConfig,
    statements: &Vec<Vec<Stage>>,
) -> (r: Result<Arc<Plan>, BuildProblem>)
    ensures
        r matches Ok(plan) ==> {
            &&& statements_graph(config@, length as nat, statement_models(statements@)) == Ok::<
                Graph,
                BuildFault,
            >(plan.graph())
            &&& plan.made_for(config@.sample_rate_hz)
            &&& plan.known().extent == Extent::Bounded
        },
        r matches Err(problem) ==> statements_graph(
            config@,
            length as nat,
            statement_models(statements@),
        ) matches Err(fault) && shows(problem, fault),
{
    let ghost rate = config@.sample_rate_hz;
    let ghost models = statement_models(statements@);
    let mut state: State = State {
        bindings: Bindings { entries: Vec::new() },
        current: None,
        output: None,
    };
    let mut i: usize = 0;
    while i < statements.len()
        invariant
            i <= statements@.len(),
            rate == config@.sample_rate_hz,
            models == statement_models(statements@),
            state.wf(rate),
            statements_built(config@, length as nat, models, i as nat) == Ok::<
                Building,
                BuildFault,
            >(state.shown()),
        decreases statements@.len() - i,
    {
        let stages: &Vec<Stage> = &statements[i];
        let ghost before = state.shown();
        let ghost shown_stages = staged(stages@);
        assert(models[i as int] == shown_stages);
        let ghost next = statements_built(config@, length as nat, models, (i + 1) as nat);
        proof {
            if next is Err {
                lemma_statements_fail(
                    config@,
                    length as nat,
                    models,
                    (i + 1) as nat,
                    models.len(),
                );
            }
        }
        let mut index: usize = 0;
        while index < stages.len()
            invariant
                index <= stages@.len(),
                i < models.len(),
                rate == config@.sample_rate_hz,
                models == statement_models(statements@),
                shown_stages == staged(stages@),
                models[i as int] == shown_stages,
                state.wf(rate),
                statements_built(config@, length as nat, models, i as nat) == Ok::<
                    Building,
                    BuildFault,
                >(before),
                next == statements_built(config@, length as nat, models, (i + 1) as nat),
                next is Err ==> statements_built(config@, length as nat, models, models.len())
                    == next,
                stages_built(config@, before, shown_stages, index as nat) == Ok::<
                    Building,
                    BuildFault,
                >(state.shown()),
            decreases stages@.len() - index,
        {
            match state.take(config, stages, index) {
                Ok(()) => {},
                Err(problem) => {
                    proof {
                        lemma_stages_fail(
                            config@,
                            before,
                            shown_stages,
                            (index + 1) as nat,
                            shown_stages.len(),
                        );
                    }
                    return Err(problem);
                },
            }
            index += 1;
        }
        if state.current.is_some() {
            return problem(length, "statement must end in a binding or out".to_owned());
        }
        i += 1;
    }
    match state.output {
        Some(plan) => Ok(plan),
        None => problem(length, "graph requires one out".to_owned()),
    }
}

/// Why a text does not make a graph.
#[derive(Debug)]
pub enum DslError {
    /// The text is wrong.
    Source {
        /// The line, counted from one.
        line: usize,
        /// The character in the line, counted from one.
        column: usize,
        /// What is wrong.
        message: String,
    },
    /// A node is wrong.
    Plan(NodeError),
}

/// The line of a character, counted from one.
pub open spec fn line_of(source: Seq<char>, index: nat) -> nat
    decreases index,
{
    if index == 0 {
        1
    } else if source[index - 1] == '\n' {
        line_of(source, (index - 1) as nat) + 1
    } else {
        line_of(source, (index - 1) as nat)
    }
}

/// The character's place in its line, counted from one.
pub open spec fn column_of(source: Seq<char>, index: nat) -> nat
    decreases index,
{
    if index == 0 || source[index - 1] == '\n' {
        1
    } else {
        column_of(source, (index - 1) as nat) + 1
    }
}

/// The first character from `from` on that has at least so many bytes before it, or the
/// end of the text.
pub open spec fn index_from(source: Seq<char>, at: nat, from: nat) -> nat
    decreases source.len() - from,
{
    if from < source.len() && bytes_before(source, from) < at {
        index_from(source, at, from + 1)
    } else {
        from
    }
}

/// The line of the place with so many bytes before it.
pub open spec fn line_at(source: Seq<char>, at: nat) -> nat {
    line_of(source, index_from(source, at, 0))
}

/// The column of the place with so many bytes before it.
pub open spec fn column_at(source: Seq<char>, at: nat) -> nat {
    column_of(source, index_from(source, at, 0))
}

/// A place before a character is the place of that character.
pub proof fn places_are_found_again(source: Seq<char>, index: nat)
    requires
        index <= source.len(),
    ensures
        line_at(source, bytes_before(source, index)) == line_of(source, index),
        column_at(source, bytes_before(source, index)) == column_of(source, index),
{
    lemma_index_from(source, index, 0);
}

/// The character with these bytes before it is found.
proof fn lemma_index_from(source: Seq<char>, index: nat, from: nat)
    requires
        from <= index <= source.len(),
    ensures
        index_from(source, bytes_before(source, index), from) == index,
    decreases index - from,
{
    if from < index {
        lemma_bytes_increase(source, from, index);
        lemma_index_from(source, index, from + 1);
    }
}

/// A count, as far as it can be counted.
pub open spec fn counted(count: nat) -> usize {
    if count <= usize::MAX {
        count as usize
    } else {
        usize::MAX
    }
}

/// Finds the line and the column of a place.
fn locate(chars: &Vec<char>, at: usize) -> (r: (usize, usize))
    requires
        encode_utf8(chars@).len() <= usize::MAX,
    ensures
        r.0 == counted(line_at(chars@, at as nat)),
        r.1 == counted(column_at(chars@, at as nat)),
{
    let mut line: usize = 1;
    let mut column: usize = 1;
    let mut bytes: usize = 0;
    let mut i: usize = 0;
    proof {
        lemma_bytes_ends(chars@);
    }
    while i < chars.len() && bytes < at
        invariant
            i <= chars@.len(),
            encode_utf8(chars@).len() <= usize::MAX,
            bytes == bytes_before(chars@, i as nat),
            index_from(chars@, at as nat, 0) == index_from(chars@, at as nat, i as nat),
            line == counted(line_of(chars@, i as nat)),
            column == counted(column_of(chars@, i as nat)),
        decreases chars@.len() - i,
    {
        if chars[i] == '\n' {
            line = line.saturating_add(1);
            column = 1;
        } else {
            column = column.saturating_add(1);
        }
        bytes = count_bytes(chars, i, i + 1, bytes);
        i += 1;
    }
    (line, column)
}

/// Whether an error is this fault of a text.
pub open spec fn is_fault_of(error: DslError, source: Seq<char>, fault: BuildFault) -> bool {
    match (error, fault) {
        (DslError::Source { line, column, message }, BuildFault::Source(fault)) => {
            &&& line == counted(line_at(source, fault.at))
            &&& column == counted(column_at(source, fault.at))
            &&& message@ == fault.message
        },
        (DslError::Plan(error), BuildFault::Plan(reason)) => plan_error(error, reason),
        _ => false,
    }
}

impl DslError {
    /// Whether this is the text of the error.
    pub open spec fn reads(self, text: Seq<char>) -> bool {
        match self {
            DslError::Source { line, column, message } => text == "DSL at line "@ + decimal(
                line as nat,
            ) + ", column "@ + decimal(column as nat) + ": "@ + message@,
            DslError::Plan(error) => exists|reason: Seq<char>| #[trigger]
                error.reads(reason) && text == "failed to construct graph: "@ + reason,
        }
    }

    /// The error in one line.
    pub fn to_string(&self) -> (text: String)
        ensures
            self.reads(text@),
    {
        match self {
            DslError::Source { line, column, message } => {
                "DSL at line ".to_owned().concat(decimal_text(*line as u64).as_str()).concat(
                    ", column ",
                ).concat(decimal_text(*column as u64).as_str()).concat(": ").concat(
                    message.as_str(),
                )
            },
            DslError::Plan(error) => {
                let reason: String = error.to_string();
                let text: String = "failed to construct graph: ".to_owned().concat(
                    reason.as_str(),
                );
                assert(error.reads(reason@));
                text
            },
        }
    }
}

/// Reads a graph from a text.
///
/// A statement is a `->` chain, ending in a named `$reference` or in `out`. Exactly one
/// statement must end in `out`. Names are known to the statements that follow. `out`
/// limits the signal to the configured number of frames.
pub fn build_plan(source: &str, config: &RenderConfig) -> (r: Result<Arc<Plan>, DslError>)
    ensures
        r matches Ok(plan) ==> {
            &&& source_graph(config@, source@) == Ok::<Graph, BuildFault>(plan.graph())
            &&& plan.made_for(config@.sample_rate_hz)
            &&& plan.known().extent == Extent::Bounded
        },
        r matches Err(error) ==> source_graph(config@, source@) matches Err(fault) && is_fault_of(
            error,
            source@,
            fault,
        ),
{
    let chars: Vec<char> = characters(source);
    let length: usize = byte_length(source);
    let problem: BuildProblem = match lex(source) {
        Err(problem) => BuildProblem::Source(problem),
        Ok(tokens) => match Parser::new(tokens).parse() {
            Err(problem) => BuildProblem::Source(problem),
            Ok(statements) => match build_statements(length, config, &statements) {
                Err(problem) => problem,
                Ok(plan) => {
                    return Ok(plan);
                },
            },
        },
    };
    match problem {
        BuildProblem::Source(problem) => {
            let (line, column) = locate(&chars, problem.at);
            Err(DslError::Source { line, column, message: problem.message })
        },
        BuildProblem::Plan(error) => Err(DslError::Plan(error)),
    }
}

} // verus!
