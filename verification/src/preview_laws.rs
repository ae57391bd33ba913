//! What the options of a preview do.
use crate::config::{defaults_are_valid, empty_builder};
use crate::config_laws::sound_settings_are_accepted;
use crate::ieee::accuracy::{is_rounded, products_are_accurate, wholes_are_accurate};
use crate::ieee::bounds::{lemma_rounded_at_most, lemma_whole};
use crate::ieee::closeness::lemma_abs_product;
use crate::ieee::constants::lemma_ones;
use crate::ieee::decimal::parsed;
use crate::ieee::format::{lemma_units_zero, units};
use crate::ieee::number::{lemma_bounds, Double};
use crate::preview::{
    asked, frames_in, half_up, initially, settings_for, settled, Asked, Chosen,
};
use vstd::arithmetic::mul::lemma_mul_inequality_converse;
use vstd::arithmetic::power2::{
    lemma2_to64, lemma2_to64_rest, lemma_pow2_adds, lemma_pow2_pos, pow2,
};
use vstd::math::abs;
use vstd::prelude::*;

verus! {

/// One option, as it is meant.
pub enum Choice {
    /// A waveform is drawn too.
    Waveform,
    /// The length, as it is written.
    Seconds(Seq<char>),
    /// The graph's file.
    Graph(Seq<char>),
    /// The directory for what is written.
    OutputDir(Seq<char>),
    /// The player's command.
    Player(Seq<char>),
    /// One more argument for the player.
    PlayerArg(Seq<char>),
}

/// An option, as it is written.
pub open spec fn choice_args(choice: Choice) -> Seq<Seq<char>> {
    match choice {
        Choice::Waveform => seq!["--waveform"@],
        Choice::Seconds(value) => seq!["--seconds"@, value],
        Choice::Graph(value) => seq!["--graph"@, value],
        Choice::OutputDir(value) => seq!["--output-dir"@, value],
        Choice::Player(value) => seq!["--player"@, value],
        Choice::PlayerArg(value) => seq!["--player-arg"@, value],
    }
}

/// The options from `from` on, as they are written.
pub open spec fn choices_args(choices: Seq<Choice>, from: nat) -> Seq<Seq<char>>
    decreases choices.len() - from,
{
    if from >= choices.len() {
        Seq::empty()
    } else {
        choice_args(choices[from as int]) + choices_args(choices, from + 1)
    }
}

/// What an option changes: what it names, and nothing else.
pub open spec fn with_choice(chosen: Chosen, choice: Choice) -> Chosen {
    match choice {
        Choice::Waveform => Chosen { waveform: true, ..chosen },
        Choice::Seconds(value) => Chosen { seconds: parsed(value).unwrap(), ..chosen },
        Choice::Graph(value) => Chosen { graph: Some(value), ..chosen },
        Choice::OutputDir(value) => Chosen { output_dir: value, ..chosen },
        Choice::Player(value) => Chosen { player: value, ..chosen },
        Choice::PlayerArg(value) => Chosen {
            player_args: chosen.player_args.push(value),
            ..chosen
        },
    }
}

/// What the options from `from` on change, one after the other.
pub open spec fn with_choices(chosen: Chosen, choices: Seq<Choice>, from: nat) -> Chosen
    decreases choices.len() - from,
{
    if from >= choices.len() {
        chosen
    } else {
        with_choices(with_choice(chosen, choices[from as int]), choices, from + 1)
    }
}

/// The names of options differ.
proof fn lemma_option_names()
    ensures
        "--waveform"@ != "--help"@ && "--waveform"@ != "-h"@,
        "--seconds"@ != "--waveform"@ && "--seconds"@ != "--help"@ && "--seconds"@ != "-h"@,
        "--graph"@ != "--waveform"@ && "--graph"@ != "--help"@ && "--graph"@ != "-h"@
            && "--graph"@ != "--seconds"@,
        "--output-dir"@ != "--waveform"@ && "--output-dir"@ != "--help"@ && "--output-dir"@
            != "-h"@ && "--output-dir"@ != "--seconds"@ && "--output-dir"@ != "--graph"@,
        "--player"@ != "--waveform"@ && "--player"@ != "--help"@ && "--player"@ != "-h"@
            && "--player"@ != "--seconds"@ && "--player"@ != "--graph"@ && "--player"@
            != "--output-dir"@,
        "--player-arg"@ != "--waveform"@ && "--player-arg"@ != "--help"@ && "--player-arg"@
            != "-h"@ && "--player-arg"@ != "--seconds"@ && "--player-arg"@ != "--graph"@
            && "--player-arg"@ != "--output-dir"@ && "--player-arg"@ != "--player"@,
{
    reveal_strlit("--waveform");
    reveal_strlit("--help");
    reveal_strlit("-h");
    reveal_strlit("--seconds");
    reveal_strlit("--graph");
    reveal_strlit("--output-dir");
    reveal_strlit("--player");
    reveal_strlit("--player-arg");
    assert("--waveform"@.len() == 10 && "--help"@.len() == 6 && "-h"@.len() == 2);
    assert("--seconds"@.len() == 9 && "--graph"@.len() == 7 && "--output-dir"@.len() == 12);
    assert("--player"@.len() == 8 && "--player-arg"@.len() == 12);
    assert("--player-arg"@[2] == 'p' && "--output-dir"@[2] == 'o');
}

/// Whether the options from `from` on are in `args` from a place on, and nothing else.
pub open spec fn written_from(
    args: Seq<Seq<char>>,
    at: nat,
    choices: Seq<Choice>,
    from: nat,
) -> bool {
    at <= args.len() && args.skip(at as int) == choices_args(choices, from)
}

/// One option is read.
proof fn lemma_asked_step(
    args: Seq<Seq<char>>,
    at: nat,
    choice: Choice,
    chosen: Chosen,
    custom: bool,
    os: Seq<char>,
)
    requires
        at + choice_args(choice).len() <= args.len(),
        args[at as int] == choice_args(choice)[0],
        !(choice is Waveform) ==> args[at as int + 1] == choice_args(choice)[1],
        choice matches Choice::Seconds(value) ==> parsed(value).is_some(),
    ensures
        asked(args, at, chosen, custom, os) == asked(
            args,
            at + choice_args(choice).len(),
            with_choice(chosen, choice),
            custom || choice is Player,
            os,
        ),
{
    lemma_option_names();
}

/// Options are read one after the other.
proof fn lemma_asked(
    args: Seq<Seq<char>>,
    at: nat,
    choices: Seq<Choice>,
    from: nat,
    chosen: Chosen,
    custom: bool,
    os: Seq<char>,
)
    requires
        from <= choices.len(),
        written_from(args, at, choices, from),
        forall|i: int|
            from <= i < choices.len() ==> ((#[trigger] choices[i]) matches Choice::Seconds(value)
                ==> parsed(value).is_some()),
    ensures
        asked(args, at, chosen, custom, os) == settled(
            with_choices(chosen, choices, from),
            custom || exists|i: int| from <= i < choices.len() && (#[trigger] choices[i]) is Player,
            os,
        ),
    decreases choices.len() - from,
{
    let rest = args.skip(at as int);
    if from == choices.len() {
        assert(rest.len() == 0);
    } else {
        let choice = choices[from as int];
        let here = choice_args(choice);
        let more = choices_args(choices, from + 1);
        assert(rest == here + more);
        assert(here.len() > 0);
        assert(args[at as int] == rest[0]);
        if !(choice is Waveform) {
            assert(args[at as int + 1] == rest[1]);
        }
        let next = at + here.len();
        assert(args.skip(next as int) =~= rest.skip(here.len() as int));
        assert((here + more).skip(here.len() as int) =~= more);
        let then = custom || choice is Player;
        lemma_asked_step(args, at, choice, chosen, custom, os);
        lemma_asked(args, next, choices, from + 1, with_choice(chosen, choice), then, os);
        let now = exists|i: int| from <= i < choices.len() && (#[trigger] choices[i]) is Player;
        let later = exists|i: int|
            from + 1 <= i < choices.len() && (#[trigger] choices[i]) is Player;
        assert((custom || now) == (then || later)) by {
            if now {
                let i = choose|i: int|
                    from <= i < choices.len() && (#[trigger] choices[i]) is Player;
                if i > from {
                    assert(choices[i] is Player);
                }
            }
            if then && !custom {
                assert(choices[from as int] is Player);
            }
        }
    }
}

/// Whatever options are given, each sets what it names and nothing else, one after the
/// other; the last of a kind holds, and the arguments for the player are kept in their
/// order. A player that is named takes the place of the system's.
pub proof fn every_option_sets_what_it_names(
    choices: Seq<Choice>,
    chosen: Chosen,
    os: Seq<char>,
)
    requires
        forall|i: int|
            0 <= i < choices.len() ==> ((#[trigger] choices[i]) matches Choice::Seconds(value)
                ==> parsed(value).is_some()),
    ensures
        ({
            let custom = exists|i: int| 0 <= i < choices.len() && (#[trigger] choices[i]) is Player;
            let wanted = with_choices(chosen, choices, 0);
            let result = asked(choices_args(choices, 0), 0, chosen, false, os);
            if !wanted.seconds.finite() || wanted.seconds.value() <= 0 {
                result is Err
            } else if custom {
                result == Ok::<Asked, Seq<char>>(Asked::Run(wanted))
            } else if os == "macos"@ {
                result == Ok::<Asked, Seq<char>>(
                    Asked::Run(Chosen { player: "afplay"@, ..wanted }),
                )
            } else if os == "linux"@ {
                result == Ok::<Asked, Seq<char>>(
                    Asked::Run(
                        Chosen {
                            player: "ffplay"@,
                            player_args: seq!["-nodisp"@, "-autoexit"@] + wanted.player_args,
                            ..wanted
                        },
                    ),
                )
            } else {
                result is Err
            }
        }),
{
    let args = choices_args(choices, 0);
    assert(args.skip(0) =~= args);
    lemma_asked(args, 0, choices, 0, chosen, false, os);
}

/// A preview has as many frames as its seconds times the sample rate, rounded to the
/// nearest number of frames: at least one, and refused where there is not half a frame.
pub proof fn seconds_are_counted_in_frames(seconds: Double, sample_rate_hz: u32)
    requires
        sample_rate_hz > 0,
        seconds.finite(),
        !seconds.datum().negative,
        seconds.value() * sample_rate_hz <= 0x4000_0000_0000_0000 * pow2(1074),
    ensures
        exists|frames: int| #[trigger]
            is_rounded(frames, seconds.value() * sample_rate_hz, 1, 53) && frames >= 0 && (2
                * frames < pow2(1074) ==> frames_in(seconds, sample_rate_hz).is_none()) && (2
                * frames >= pow2(1074) ==> (frames_in(seconds, sample_rate_hz) matches Some(count)
                && 2 * abs(count * pow2(1074) - frames) <= pow2(1074))),
{
    let u = pow2(1074);
    let rate = Double::whole_spec(sample_rate_hz as u64);
    let exact = seconds.product_spec(rate);
    lemma_bounds();
    lemma2_to64();
    lemma2_to64_rest();
    lemma_pow2_pos(1074);
    lemma_units_zero(52);
    lemma_whole(sample_rate_hz as u64);
    wholes_are_accurate(sample_rate_hz as u64);
    let s = units(52, seconds.datum().mag as nat);
    let r = units(52, rate.datum().mag as nat);
    lemma_pow2_adds(62, 1074);
    assert(s * r <= pow2(1136) * u) by (nonlinear_arith)
        requires
            r == sample_rate_hz * u,
            s * sample_rate_hz <= 0x4000_0000_0000_0000 * u,
            pow2(1136) == 0x4000_0000_0000_0000 * u,
    ;
    lemma_rounded_at_most(s * r, u, 1136);
    assert(exact.finite() && !exact.datum().negative);
    products_are_accurate(seconds, rate);
    let x = exact.value();
    let n = seconds.value() * sample_rate_hz;
    assert(is_rounded(x, n, 1, 53)) by {
        let (v, q, w) = (u as int, sample_rate_hz as int, pow2(53) as int);
        let sv = seconds.value();
        assert(sv * (q * v) == (sv * q) * v) by (nonlinear_arith);
        assert(x * v - n * v == (x - n) * v) by (nonlinear_arith);
        lemma_abs_product(x - n, v);
        let (a, b) = (w * abs(x - n), abs(x) + w);
        assert(a * v == w * (abs(x - n) * v)) by (nonlinear_arith)
            requires
                a == w * abs(x - n),
        ;
        lemma_mul_inequality_converse(a, b, v);
        assert(x * 1 == x);
    }
    let v = u as int;
    let h = half_up(exact) as int;
    assert(h == (2 * x + v) / (2 * v));
    vstd::arithmetic::div_mod::lemma_fundamental_div_mod(2 * x + v, 2 * v);
    vstd::arithmetic::div_mod::lemma_mod_bound(2 * x + v, 2 * v);
    assert((2 * v) * h == 2 * (h * v)) by (nonlinear_arith);
    if 2 * x < v {
        assert(h < 1) by (nonlinear_arith)
            requires
                2 * (h * v) <= 2 * x + v,
                2 * x < v,
                v > 0,
        ;
    } else {
        assert(h >= 1) by (nonlinear_arith)
            requires
                2 * x + v < 2 * (h * v) + 2 * v,
                2 * x >= v,
                v > 0,
        ;
        assert(h <= 0x8000_0000_0000_0001) by (nonlinear_arith)
            requires
                2 * (h * v) <= 2 * x + v,
                x <= 0x4000_0000_0000_0000 * v,
                v > 0,
        ;
    }
}

/// Wherever it stands, a question for help is answered with it; an option that takes a
/// value and stands last is refused, as is a length that is no number, and whatever is no
/// option.
pub proof fn what_is_no_option_is_refused(
    args: Seq<Seq<char>>,
    from: nat,
    chosen: Chosen,
    custom: bool,
    os: Seq<char>,
)
    requires
        from < args.len(),
    ensures
        ({
            let arg = args[from as int];
            let result = asked(args, from, chosen, custom, os);
            let valued = arg == "--seconds"@ || arg == "--graph"@ || arg == "--output-dir"@ || arg
                == "--player"@ || arg == "--player-arg"@;
            &&& arg == "--help"@ || arg == "-h"@ ==> result == Ok::<Asked, Seq<char>>(Asked::Help)
            &&& valued && from + 1 == args.len() ==> result is Err
            &&& arg == "--seconds"@ && from + 1 < args.len() && parsed(
                args[from as int + 1],
            ).is_none() ==> result is Err
            &&& !valued && arg != "--help"@ && arg != "-h"@ && arg != "--waveform"@
                ==> result is Err
        }),
{
    lemma_option_names();
}

/// A preview without options lasts one second, draws nothing and plays the default graph.
pub proof fn a_preview_lasts_one_second(output_dir: Seq<char>)
    ensures
        initially(output_dir).seconds.finite(),
        initially(output_dir).seconds.value() == pow2(1074),
        !initially(output_dir).waveform,
        initially(output_dir).graph.is_none(),
        initially(output_dir).output_dir == output_dir,
        initially(output_dir).player_args.len() == 0,
{
    lemma_bounds();
    lemma_ones();
}

/// The configuration of a preview has the frames asked for, and the defaults.
pub proof fn a_preview_has_its_frames(frame_count: u64)
    ensures
        settings_for(frame_count).frame_count == frame_count,
        settings_for(frame_count).sample_rate_hz == 48_000,
        settings_for(frame_count).fault(false).is_none() <==> 0 < frame_count <= 48_000 * 60,
{
    lemma_bounds();
    lemma_ones();
    defaults_are_valid();
    sound_settings_are_accepted(empty_builder().settings(), false);
    sound_settings_are_accepted(settings_for(frame_count), false);
}

} // verus!
