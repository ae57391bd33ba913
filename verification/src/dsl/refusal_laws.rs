//! What the graph language refuses, and how statements follow each other.
use crate::config::Settings;
use crate::dsl::construct::{column_of, lemma_node_names, line_of};
use crate::dsl::graph::{
    mix_args_of, node_of, refs_of, stages_built, statements_built, statements_graph, BuildFault,
    Building, Names,
};
use crate::dsl::node_laws::{called, calls_names};
use crate::dsl::parse::{ArgModel, Staged};
use crate::dsl::spelling::{lemma_written_step, written};
use crate::physical::frame::plan::Graph;
use vstd::prelude::*;

verus! {

/// A source takes no signal, one number for a sine and two for a square, and nothing else.
pub proof fn a_source_takes_its_numbers_alone(
    settings: Settings,
    at: nat,
    names: Names,
    incoming: Option<Graph>,
    args: Seq<ArgModel>,
)
    ensures
        incoming.is_some() || args.len() != 1 || !(args[0] is Number) ==> node_of(
            settings,
            at,
            names,
            incoming,
            "sine"@,
            args,
        ) is Err,
        incoming.is_some() || args.len() != 2 || !(args[0] is Number) || !(args[1] is Number)
            ==> node_of(settings, at, names, incoming, "square"@, args) is Err,
{
    lemma_node_names();
    if args.len() == 2 && !(args[1] is Number) {
        assert(!crate::dsl::graph::all_numbers(args));
    }
    if args.len() >= 1 && !(args[0] is Number) {
        assert(!crate::dsl::graph::all_numbers(args));
    }
}

/// A gain and a filter take one signal and one number: the signal comes in, or its name
/// stands before the number and is bound.
pub proof fn a_gain_or_a_filter_takes_one_signal_and_one_number(
    settings: Settings,
    at: nat,
    names: Names,
    incoming: Option<Graph>,
    unary: Seq<char>,
    args: Seq<ArgModel>,
)
    requires
        unary == "gain"@ || unary == "lpf"@,
        node_of(settings, at, names, incoming, unary, args) is Ok,
    ensures
        incoming.is_some() ==> args.len() == 1 && args[0] is Number,
        incoming.is_none() ==> args.len() == 2 && args[0] is Ref && names.dom().contains(
            args[0]->Ref_0,
        ) && args[1] is Number,
{
    lemma_node_names();
}

/// No other name is a node.
pub proof fn there_are_five_nodes(
    settings: Settings,
    at: nat,
    names: Names,
    incoming: Option<Graph>,
    name: Seq<char>,
    args: Seq<ArgModel>,
)
    requires
        node_of(settings, at, names, incoming, name, args) is Ok,
    ensures
        name == "sine"@ || name == "square"@ || name == "gain"@ || name == "lpf"@ || name
            == "mix"@,
{
}

/// A name in a list that stands for nothing.
proof fn lemma_refs_refused(at: nat, names: Names, items: Seq<ArgModel>, count: nat, index: int)
    requires
        0 <= index < count <= items.len(),
        !names.dom().contains(items[index]->Ref_0),
    ensures
        refs_of(at, names, items, count) is Err,
    decreases count,
{
    if index < count - 1 {
        lemma_refs_refused(at, names, items, (count - 1) as nat, index);
    }
}

/// A name among the arguments that stands for nothing.
proof fn lemma_unbound_refused(
    at: nat,
    names: Names,
    incoming: Option<Graph>,
    args: Seq<ArgModel>,
    count: nat,
    index: int,
    item: int,
)
    requires
        0 <= index < count <= args.len(),
        calls_names(args[index]),
        0 <= item < called(args[index]).len(),
        !names.dom().contains(called(args[index])[item]),
    ensures
        mix_args_of(at, names, incoming, args, count) is Err,
    decreases count,
{
    if index < count - 1 {
        lemma_unbound_refused(at, names, incoming, args, (count - 1) as nat, index, item);
    } else {
        match args[index] {
            ArgModel::List(items) => {
                assert(called(args[index])[item] == items[item]->Ref_0);
                lemma_refs_refused(at, names, items, items.len(), item);
            },
            _ => {},
        }
    }
}

/// A mix is refused where any of its names stands for nothing, wherever it is written.
pub proof fn a_mix_refuses_a_name_that_stands_for_nothing(
    settings: Settings,
    at: nat,
    names: Names,
    incoming: Option<Graph>,
    args: Seq<ArgModel>,
    index: int,
    item: int,
)
    requires
        0 <= index < args.len(),
        calls_names(args[index]),
        0 <= item < called(args[index]).len(),
        !names.dom().contains(called(args[index])[item]),
    ensures
        node_of(settings, at, names, incoming, "mix"@, args) is Err,
{
    lemma_node_names();
    lemma_unbound_refused(at, names, incoming, args, args.len(), index, item);
}

/// A faulty argument makes the rest faulty.
proof fn lemma_args_fault(
    at: nat,
    names: Names,
    incoming: Option<Graph>,
    args: Seq<ArgModel>,
    from: nat,
    count: nat,
)
    requires
        from <= count <= args.len(),
        mix_args_of(at, names, incoming, args, from) is Err,
    ensures
        mix_args_of(at, names, incoming, args, count) is Err,
    decreases count - from,
{
    if from < count {
        lemma_args_fault(at, names, incoming, args, from, (count - 1) as nat);
    }
}

/// A mix takes no number outside a list, and no list that is not of names but the last.
pub proof fn a_mix_takes_names_and_then_weights(
    settings: Settings,
    at: nat,
    names: Names,
    incoming: Option<Graph>,
    args: Seq<ArgModel>,
    index: int,
)
    requires
        0 <= index < args.len(),
        !calls_names(args[index]),
        args[index] is Number || index < args.len() - 1,
    ensures
        node_of(settings, at, names, incoming, "mix"@, args) is Err,
{
    lemma_node_names();
    assert(mix_args_of(at, names, incoming, args, (index + 1) as nat) is Err);
    lemma_args_fault(at, names, incoming, args, (index + 1) as nat, args.len());
}

/// Where a mix is made, it has a signal, and as many weights as signals.
pub proof fn a_mix_has_a_weight_for_every_input(
    settings: Settings,
    at: nat,
    names: Names,
    incoming: Option<Graph>,
    args: Seq<ArgModel>,
)
    requires
        node_of(settings, at, names, incoming, "mix"@, args) is Ok,
    ensures
        node_of(settings, at, names, incoming, "mix"@, args)->Ok_0 matches Graph::Mix {
            inputs,
            gains,
            batch_frame_capacity,
        } && inputs.len() > 0 && gains.len() == inputs.len(),
{
    lemma_node_names();
}

/// Every statement goes on with the names of those before it and uses its own signal up;
/// the graph is the one that was put out.
pub proof fn each_statement_goes_on_with_the_names_before(
    settings: Settings,
    length: nat,
    statements: Seq<Seq<Staged>>,
    count: nat,
)
    requires
        count < statements.len(),
    ensures
        statements_built(settings, length, statements, 0) == Ok::<Building, BuildFault>(
            Building { names: Map::empty(), current: None, output: None },
        ),
        match statements_built(settings, length, statements, count) {
            Err(_) => statements_built(settings, length, statements, count + 1) is Err,
            Ok(before) => {
                let stages = statements[count as int];
                let built = statements_built(settings, length, statements, count + 1);
                match stages_built(settings, before, stages, stages.len()) {
                    Ok(after) => if after.current.is_none() {
                        built == Ok::<Building, BuildFault>(after)
                    } else {
                        built is Err
                    },
                    Err(_) => built is Err,
                }
            },
        },
        match statements_built(settings, length, statements, statements.len()) {
            Ok(after) => match after.output {
                Some(graph) => statements_graph(settings, length, statements) == Ok::<
                    Graph,
                    BuildFault,
                >(graph),
                None => statements_graph(settings, length, statements) is Err,
            },
            Err(_) => statements_graph(settings, length, statements) is Err,
        },
{
}

/// A character that starts no token is refused, wherever in a text it stands behind
/// nothing else.
pub proof fn strange_characters_are_refused(c: char, rest: Seq<char>)
    requires
        c as u32 > 0x20,
        (c as u32) < 0x80,
        c != '(' && c != ')' && c != '[' && c != ']' && c != ',' && c != ';',
        c != '#' && c != '$',
        c != '.' && c != '-' && c != '+' && c != '_',
        !('0' <= c <= '9') && !('a' <= c <= 'z') && !('A' <= c <= 'Z'),
    ensures
        written(seq![c] + rest) is None,
{
    let text = seq![c] + rest;
    assert(text[0] == c);
    lemma_written_step(text, 0);
}

/// A dollar sign is refused where no letter follows it.
pub proof fn a_dollar_sign_needs_a_name(rest: Seq<char>)
    requires
        rest.len() > 0 ==> !('a' <= rest[0] <= 'z') && !('A' <= rest[0] <= 'Z') && rest[0] != '_',
    ensures
        written(seq!['$'] + rest) is None,
{
    let text = seq!['$'] + rest;
    assert(text[0] == '$');
    if rest.len() > 0 {
        assert(text[1] == rest[0]);
    }
    lemma_written_step(text, 0);
}

/// How many line breaks come before a place.
pub open spec fn breaks_before(source: Seq<char>, index: nat) -> nat
    decreases index,
{
    if index == 0 {
        0
    } else {
        breaks_before(source, (index - 1) as nat) + if source[index - 1] == '\n' {
            1nat
        } else {
            0nat
        }
    }
}

/// The line of a place is one more than the line breaks before it, and its column is one
/// more than the characters since the last of them.
pub proof fn lines_and_columns_are_counted(source: Seq<char>, index: nat)
    requires
        index <= source.len(),
    ensures
        line_of(source, index) == breaks_before(source, index) + 1,
        1 <= column_of(source, index) <= index + 1,
        forall|i: int|
            index + 1 - column_of(source, index) <= i < index ==> #[trigger] source[i] != '\n',
        column_of(source, index) <= index ==> source[index - column_of(source, index)] == '\n',
    decreases index,
{
    if index > 0 {
        lines_and_columns_are_counted(source, (index - 1) as nat);
    }
}

} // verus!
