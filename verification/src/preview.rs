//! What the preview command decides.
use crate::arrow::{batch_rows, row_count, FrameBatch};
use crate::config::{empty_builder, RenderConfig, Settings};
use crate::error::Error;
use crate::ieee::constants::zero;
use crate::ieee::datum::Datum;
use crate::ieee::decimal::{parse_double, parsed};
use crate::ieee::format::units;
use crate::ieee::magnitude::split;
use crate::ieee::number::{lemma_bounds, Double, Single};
use crate::ieee::round::{double, power_of_two};
use crate::render::{complete, decode_from_frames, joined_samples, render_refused, sample_values};
use crate::text::{debug_text, same_text, to_debug_text};
use vstd::arithmetic::power2::{
    lemma2_to64, lemma2_to64_rest, lemma_pow2_adds, lemma_pow2_pos, lemma_pow2_strictly_increases,
    lemma_pow2_unfold, pow2,
};
use vstd::prelude::*;

verus! {

/// The graph that is rendered when no other is given: one tone at half its level.
pub const DEFAULT_GRAPH: &'static str = "sine(440.0) -> gain(0.5) -> out\n";

/// Why the preview command gives up.
#[derive(Debug)]
pub enum PreviewError {
    /// The arguments are wrong.
    Arguments(String),
    /// The rendered frames are wrong.
    Decode(Error),
}

impl PreviewError {
    /// The text of the error.
    pub open spec fn message(self) -> Seq<char> {
        match self {
            PreviewError::Arguments(reason) => "argument error: "@ + reason@,
            PreviewError::Decode(error) => "sample validation error: "@ + error.message(),
        }
    }

    /// The error in words.
    pub fn to_string(&self) -> (text: String)
        ensures
            text@ == self.message(),
    {
        match self {
            PreviewError::Arguments(reason) => {
                "argument error: ".to_owned().concat(reason.as_str())
            },
            PreviewError::Decode(error) => {
                "sample validation error: ".to_owned().concat(error.to_string().as_str())
            },
        }
    }
}

/// Whether an error says that the arguments are wrong, in these words.
pub open spec fn argument_error(error: PreviewError, reason: Seq<char>) -> bool {
    error matches PreviewError::Arguments(text) && text@ == reason
}

/// How the command is used.
pub open spec fn usage_text() -> Seq<char> {
    "Usage: scripts/preview [--graph FILE] [--seconds SECONDS] [--waveform] [--output-dir DIR] [--player COMMAND] [--player-arg ARG]...\nDefault player: afplay on macOS, ffplay -nodisp -autoexit on Linux.\nThe rendered WAV path is always passed as the final player argument."@
}

/// How the command is used.
pub fn usage() -> (text: &'static str)
    ensures
        text@ == usage_text(),
{
    "Usage: scripts/preview [--graph FILE] [--seconds SECONDS] [--waveform] [--output-dir DIR] [--player COMMAND] [--player-arg ARG]...\nDefault player: afplay on macOS, ffplay -nodisp -autoexit on Linux.\nThe rendered WAV path is always passed as the final player argument."
}

/// Some texts, as values.
pub open spec fn texts(values: Seq<String>) -> Seq<Seq<char>> {
    values.map_values(|value: String| value@)
}

/// The arguments of a command, and how many were read.
pub struct Arguments {
    /// The arguments.
    pub values: Vec<String>,
    /// How many were read.
    pub next: usize,
}

/// Reads the value of an option.
pub fn next_value(args: &mut Arguments, flag: &str) -> (r: std::result::Result<
    String,
    PreviewError,
>)
    ensures
        final(args).values@ == old(args).values@,
        r.is_ok() == (old(args).next < old(args).values@.len()),
        r matches Ok(value) ==> {
            &&& value@ == old(args).values@[old(args).next as int]@
            &&& final(args).next == old(args).next + 1
        },
        r matches Err(error) ==> {
            &&& argument_error(error, "missing value for "@ + flag@)
            &&& final(args).next == old(args).next
        },
{
    if args.next < args.values.len() {
        let value: String = args.values[args.next].clone();
        args.next = args.next + 1;
        Ok(value)
    } else {
        Err(PreviewError::Arguments("missing value for ".to_owned().concat(flag)))
    }
}

/// What the command is asked to do.
#[derive(Debug)]
pub struct Options {
    /// How long the preview is.
    pub seconds: Double,
    /// Whether the waveform is drawn.
    pub waveform: bool,
    /// The file with the graph, if one is given.
    pub graph: Option<String>,
    /// Where results are written.
    pub output_dir: String,
    /// The command that plays the recording.
    pub player: String,
    /// Its arguments, but for the recording.
    pub player_args: Vec<String>,
}

/// What the command is asked to do, as a value.
pub struct Chosen {
    /// How long the preview is.
    pub seconds: Double,
    /// Whether the waveform is drawn.
    pub waveform: bool,
    /// The file with the graph, if one is given.
    pub graph: Option<Seq<char>>,
    /// Where results are written.
    pub output_dir: Seq<char>,
    /// The command that plays the recording.
    pub player: Seq<char>,
    /// Its arguments, but for the recording.
    pub player_args: Seq<Seq<char>>,
}

impl View for Options {
    type V = Chosen;

    open spec fn view(&self) -> Chosen {
        Chosen {
            seconds: self.seconds,
            waveform: self.waveform,
            graph: match self.graph {
                Some(path) => Some(path@),
                None => None,
            },
            output_dir: self.output_dir@,
            player: self.player@,
            player_args: texts(self.player_args@),
        }
    }
}

/// What the arguments ask for.
#[derive(Debug)]
pub enum Invocation {
    /// A preview.
    Run(Options),
    /// The usage.
    Help,
}

/// What the arguments ask for, as a value.
pub enum Asked {
    /// A preview.
    Run(Chosen),
    /// The usage.
    Help,
}

impl View for Invocation {
    type V = Asked;

    open spec fn view(&self) -> Asked {
        match *self {
            Invocation::Run(options) => Asked::Run(options@),
            Invocation::Help => Asked::Help,
        }
    }
}

/// What is asked for before any argument was read: one second, played by the default
/// player.
pub open spec fn initially(output_dir: Seq<char>) -> Chosen {
    Chosen {
        seconds: Double { bits: 0x3ff0_0000_0000_0000 },
        waveform: false,
        graph: None,
        output_dir,
        player: ""@,
        player_args: Seq::empty(),
    }
}

/// What is asked for once every argument was read; `custom` says that a player was given.
pub open spec fn settled(chosen: Chosen, custom: bool, os: Seq<char>) -> std::result::Result<
    Asked,
    Seq<char>,
> {
    if !chosen.seconds.finite() || chosen.seconds.value() <= 0 {
        Err("--seconds must be a positive finite number"@)
    } else if custom {
        Ok(Asked::Run(chosen))
    } else if os == "macos"@ {
        Ok(Asked::Run(Chosen { player: "afplay"@, ..chosen }))
    } else if os == "linux"@ {
        Ok(
            Asked::Run(
                Chosen {
                    player: "ffplay"@,
                    player_args: seq!["-nodisp"@, "-autoexit"@] + chosen.player_args,
                    ..chosen
                },
            ),
        )
    } else {
        Err("no default player for this platform; pass --player COMMAND"@)
    }
}

/// What the arguments from `from` on ask for, in addition to what was asked for before.
pub open spec fn asked(
    args: Seq<Seq<char>>,
    from: nat,
    chosen: Chosen,
    custom: bool,
    os: Seq<char>,
) -> std::result::Result<Asked, Seq<char>>
    decreases args.len() - from,
{
    if from >= args.len() {
        settled(chosen, custom, os)
    } else {
        let arg = args[from as int];
        let missing = from + 1 >= args.len();
        let value = args[from as int + 1];
        if arg == "--waveform"@ {
            asked(args, from + 1, Chosen { waveform: true, ..chosen }, custom, os)
        } else if arg == "--help"@ || arg == "-h"@ {
            Ok(Asked::Help)
        } else if arg == "--seconds"@ {
            if missing {
                Err("missing value for "@ + arg)
            } else {
                match parsed(value) {
                    Some(seconds) => asked(
                        args,
                        from + 2,
                        Chosen { seconds, ..chosen },
                        custom,
                        os,
                    ),
                    None => Err("invalid --seconds value "@ + debug_text(value)),
                }
            }
        } else if arg == "--graph"@ {
            if missing {
                Err("missing value for "@ + arg)
            } else {
                asked(args, from + 2, Chosen { graph: Some(value), ..chosen }, custom, os)
            }
        } else if arg == "--output-dir"@ {
            if missing {
                Err("missing value for "@ + arg)
            } else {
                asked(args, from + 2, Chosen { output_dir: value, ..chosen }, custom, os)
            }
        } else if arg == "--player"@ {
            if missing {
                Err("missing value for "@ + arg)
            } else {
                asked(args, from + 2, Chosen { player: value, ..chosen }, true, os)
            }
        } else if arg == "--player-arg"@ {
            if missing {
                Err("missing value for "@ + arg)
            } else {
                asked(
                    args,
                    from + 2,
                    Chosen { player_args: chosen.player_args.push(value), ..chosen },
                    custom,
                    os,
                )
            }
        } else {
            Err("unknown option "@ + debug_text(arg) + "\n"@ + usage_text())
        }
    }
}

/// Completes what is asked for once every argument was read.
fn settle(options: Options, custom_player: bool, os: &str) -> (r: std::result::Result<
    Invocation,
    PreviewError,
>)
    ensures
        r matches Ok(invocation) ==> settled(options@, custom_player, os@) == Ok::<
            Asked,
            Seq<char>,
        >(invocation@),
        r matches Err(error) ==> settled(options@, custom_player, os@) matches Err(reason)
            && argument_error(error, reason),
{
    if !options.seconds.is_finite() || !zero().less_than(options.seconds) {
        return Err(
            PreviewError::Arguments("--seconds must be a positive finite number".to_owned()),
        );
    }
    if custom_player {
        return Ok(Invocation::Run(options));
    }
    if same_text(os, "macos") {
        let chosen: Options = Options { player: "afplay".to_owned(), ..options };
        return Ok(Invocation::Run(chosen));
    }
    if same_text(os, "linux") {
        let ghost before = texts(options.player_args@);
        let mut player_args: Vec<String> = vec!["-nodisp".to_owned(), "-autoexit".to_owned()];
        let mut given: Vec<String> = options.player_args;
        player_args.append(&mut given);
        let chosen: Options = Options {
            seconds: options.seconds,
            waveform: options.waveform,
            graph: options.graph,
            output_dir: options.output_dir,
            player: "ffplay".to_owned(),
            player_args,
        };
        assert(chosen@.player_args =~= seq!["-nodisp"@, "-autoexit"@] + before);
        return Ok(Invocation::Run(chosen));
    }
    Err(
        PreviewError::Arguments(
            "no default player for this platform; pass --player COMMAND".to_owned(),
        ),
    )
}

/// Reads the arguments of the command on an operating system.
#[verifier::loop_isolation(false)]
pub fn parse_options(args: Vec<String>, os: &str, output_dir: String) -> (r: std::result::Result<
    Invocation,
    PreviewError,
>)
    ensures
        r matches Ok(invocation) ==> asked(
            texts(args@),
            0,
            initially(output_dir@),
            false,
            os@,
        ) == Ok::<Asked, Seq<char>>(invocation@),
        r matches Err(error) ==> asked(
            texts(args@),
            0,
            initially(output_dir@),
            false,
            os@,
        ) matches Err(reason) && argument_error(error, reason),
{
    let ghost all = texts(args@);
    let ghost whole = asked(all, 0, initially(output_dir@), false, os@);
    let mut seconds: Double = Double { bits: 0x3ff0_0000_0000_0000 };
    let mut waveform: bool = false;
    let mut graph: Option<String> = None;
    let mut output_dir: String = output_dir;
    let mut player: String = "".to_owned();
    let mut player_args: Vec<String> = Vec::new();
    let mut custom_player: bool = false;
    let mut args: Arguments = Arguments { values: args, next: 0 };
    assert(texts(player_args@) =~= Seq::empty());
    while args.next < args.values.len()
        invariant
            all == texts(args.values@),
            args.next <= args.values@.len(),
            whole == asked(
                all,
                args.next as nat,
                Chosen {
                    seconds,
                    waveform,
                    graph: match graph {
                        Some(path) => Some(path@),
                        None => None,
                    },
                    output_dir: output_dir@,
                    player: player@,
                    player_args: texts(player_args@),
                },
                custom_player,
                os@,
            ),
        decreases args.values@.len() - args.next,
    {
        let flag: String = args.values[args.next].clone();
        assert(all[args.next as int] == flag@);
        args.next = args.next + 1;
        if args.next < args.values.len() {
            assert(all[args.next as int] == args.values@[args.next as int]@);
        }
        if same_text(flag.as_str(), "--waveform") {
            waveform = true;
        } else if same_text(flag.as_str(), "--help") || same_text(flag.as_str(), "-h") {
            return Ok(Invocation::Help);
        } else if same_text(flag.as_str(), "--seconds") {
            let value: String = next_value(&mut args, flag.as_str())?;
            match parse_double(value.as_str()) {
                Some(parsed) => {
                    seconds = parsed;
                },
                None => {
                    return Err(
                        PreviewError::Arguments(
                            "invalid --seconds value ".to_owned().concat(
                                to_debug_text(value.as_str()).as_str(),
                            ),
                        ),
                    );
                },
            }
        } else if same_text(flag.as_str(), "--graph") {
            graph = Some(next_value(&mut args, flag.as_str())?);
        } else if same_text(flag.as_str(), "--output-dir") {
            output_dir = next_value(&mut args, flag.as_str())?;
        } else if same_text(flag.as_str(), "--player") {
            player = next_value(&mut args, flag.as_str())?;
            custom_player = true;
        } else if same_text(flag.as_str(), "--player-arg") {
            let value: String = next_value(&mut args, flag.as_str())?;
            let ghost before = texts(player_args@);
            player_args.push(value);
            assert(texts(player_args@) =~= before.push(value@));
        } else {
            return Err(
                PreviewError::Arguments(
                    "unknown option ".to_owned().concat(
                        to_debug_text(flag.as_str()).as_str(),
                    ).concat("\n").concat(usage()),
                ),
            );
        }
    }
    settle(
        Options { seconds, waveform, graph, output_dir, player, player_args },
        custom_player,
        os,
    )
}

/// The whole number nearest to a number that is not negative; halves are rounded up.
pub open spec fn half_up(x: Double) -> nat {
    (2 * units(52, x.datum().mag as nat) + pow2(1074)) as nat / (2 * pow2(1074))
}

/// How many frames a number of seconds is: nothing for what is no number, and otherwise
/// the nearest whole number, which must be at least one and at most two to the power of
/// 64; that last one is counted as the greatest count that there is.
pub open spec fn frames_in(seconds: Double, sample_rate_hz: u32) -> Option<u64> {
    let exact = seconds.product_spec(Double::whole_spec(sample_rate_hz as u64));
    if exact.nan() {
        Some(0)
    } else if exact.datum().negative || !exact.finite() || half_up(exact) < 1 || half_up(exact)
        > 0x1_0000_0000_0000_0000 {
        None
    } else if half_up(exact) == 0x1_0000_0000_0000_0000 {
        Some(u64::MAX)
    } else {
        Some(half_up(exact) as u64)
    }
}

/// Counts the frames of a preview.
pub fn frame_count(seconds: Double, sample_rate_hz: u32) -> (r: std::result::Result<
    u64,
    PreviewError,
>)
    ensures
        r.is_ok() == frames_in(seconds, sample_rate_hz).is_some(),
        r matches Ok(frames) ==> frames_in(seconds, sample_rate_hz) == Some(frames),
        r matches Err(error) ==> argument_error(
            error,
            "--seconds must produce at least one frame and fit a u64 frame count"@,
        ),
{
    let exact: Double = seconds.times(Double::from_whole(sample_rate_hz as u64));
    let datum: Datum = exact.to_datum();
    proof {
        lemma_bounds();
    }
    if datum.mag > double().top() {
        return Ok(0);
    }
    let frames: u128 = if datum.negative || datum.mag == double().top() {
        0
    } else {
        round_half_up(exact)
    };
    if frames < 1 || frames > 0x1_0000_0000_0000_0000 {
        return Err(
            PreviewError::Arguments(
                "--seconds must produce at least one frame and fit a u64 frame count".to_owned(),
            ),
        );
    }
    if frames == 0x1_0000_0000_0000_0000 {
        Ok(u64::MAX)
    } else {
        Ok(frames as u64)
    }
}

/// Rounds to a whole number; of what is beyond any count only that is known.
fn round_half_up(x: Double) -> (r: u128)
    requires
        x.finite(),
        !x.datum().negative,
    ensures
        r <= 0x1_0000_0000_0000_0000 ==> r == half_up(x),
        r > 0x1_0000_0000_0000_0000 ==> half_up(x) > 0x1_0000_0000_0000_0000,
{
    let (sig, step): (u64, u32) = split(double(), x.to_datum().mag);
    let ghost s = sig as int;
    let ghost one = pow2(1074) as int;
    proof {
        lemma_bounds();
        lemma_pow2_pos(1074);
        lemma2_to64();
        lemma2_to64_rest();
    }
    if step >= 1074 {
        let shift: u32 = step - 1074;
        let ghost p = pow2(shift as nat) as int;
        proof {
            lemma_pow2_adds(shift as nat, 1074);
            lemma_pow2_pos(shift as nat);
            assert(s * (p * one) == (s * p) * one) by (nonlinear_arith);
            let n = s * p;
            assert(2 * (n * one) + one == n * (2 * one) + one) by (nonlinear_arith);
            vstd::arithmetic::div_mod::lemma_fundamental_div_mod_converse(
                2 * (n * one) + one,
                2 * one,
                n,
                one,
            );
            assert(half_up(x) == n);
        }
        if shift > 64 {
            proof {
                lemma_pow2_strictly_increases(64, shift as nat);
                assert(s * p > 0x1_0000_0000_0000_0000) by (nonlinear_arith)
                    requires
                        s >= 1,
                        p > 0x1_0000_0000_0000_0000,
                ;
            }
            return 0x1_0000_0000_0000_0001;
        }
        proof {
            if shift < 64 {
                lemma_pow2_strictly_increases(shift as nat, 64);
            }
            assert(s * p <= 0x20_0000_0000_0000 * 0x1_0000_0000_0000_0000) by (nonlinear_arith)
                requires
                    0 <= s < 0x20_0000_0000_0000,
                    0 <= p <= 0x1_0000_0000_0000_0000,
            ;
        }
        return sig as u128 * power_of_two(shift);
    }
    let down: u32 = 1074 - step;
    let ghost d = pow2(down as nat) as int;
    let ghost q = pow2(step as nat) as int;
    proof {
        lemma_pow2_adds(down as nat, step as nat);
        lemma_pow2_pos(down as nat);
        lemma_pow2_pos(step as nat);
        lemma_pow2_unfold(down as nat);
        let h = pow2((down - 1) as nat) as int;
        lemma_pow2_pos((down - 1) as nat);
        // Numerator and denominator share the factor 2 * 2^step.
        assert(2 * (s * q) + d * q == (s + h) * (2 * q)) by (nonlinear_arith)
            requires
                d == 2 * h,
        ;
        assert(2 * (d * q) == d * (2 * q)) by (nonlinear_arith);
        vstd::arithmetic::div_mod::lemma_div_denominator((s + h) * (2 * q), 2 * q, d);
        vstd::arithmetic::div_mod::lemma_div_multiples_vanish(s + h, 2 * q);
        assert((s + h) * (2 * q) == (2 * q) * (s + h)) by (nonlinear_arith);
        assert(d * (2 * q) == (2 * q) * d) by (nonlinear_arith);
        assert(half_up(x) == (s + h) / d);
    }
    if down >= 64 {
        proof {
            let h = pow2((down - 1) as nat) as int;
            if down > 64 {
                lemma_pow2_strictly_increases(63, (down - 1) as nat);
            }
            vstd::arithmetic::div_mod::lemma_basic_div(s + h, d);
        }
        return 0;
    }
    let half: u128 = power_of_two(down - 1);
    let unit: u128 = power_of_two(down);
    proof {
        lemma_pow2_strictly_increases((down - 1) as nat, 64);
        let h = half as int;
        assert((s + h) / d <= s + h) by (nonlinear_arith)
            requires
                d >= 1,
                s + h >= 0,
        ;
    }
    (sig as u128 + half) / unit
}

/// The values of a configuration with so many frames and the defaults.
pub open spec fn settings_for(frame_count: u64) -> Settings {
    Settings { frame_count, ..empty_builder().settings() }
}

/// Configures a render with so many frames and the defaults.
pub fn config_for(frame_count: u64) -> (r: std::result::Result<RenderConfig, PreviewError>)
    ensures
        r.is_ok() == settings_for(frame_count).fault(false).is_none(),
        r matches Ok(config) ==> config@ == settings_for(frame_count),
        r matches Err(error) ==> settings_for(frame_count).fault(false) matches Some(fault)
            && argument_error(error, "invalid configuration: "@ + fault),
{
    match RenderConfig::builder().frame_count(frame_count).build() {
        Ok(config) => Ok(config),
        Err(error) => Err(PreviewError::Arguments(error.to_string())),
    }
}

/// Configures a preview of so many seconds, at the default rate.
pub fn preview_config(seconds: Double) -> (r: std::result::Result<RenderConfig, PreviewError>)
    ensures
        r.is_ok() == (frames_in(seconds, 48_000) matches Some(frames) && settings_for(
            frames,
        ).fault(false).is_none()),
        r matches Ok(config) ==> frames_in(seconds, 48_000) matches Some(frames) && config@
            == settings_for(frames),
        r matches Err(error) ==> match frames_in(seconds, 48_000) {
            None => argument_error(
                error,
                "--seconds must produce at least one frame and fit a u64 frame count"@,
            ),
            Some(frames) => settings_for(frames).fault(false) matches Some(fault) && argument_error(
                error,
                "invalid configuration: "@ + fault,
            ),
        },
{
    let sample_rate_hz: u32 = RenderConfig::default().sample_rate_hz();
    config_for(frame_count(seconds, sample_rate_hz)?)
}

/// `std::slice::from_ref` gives a slice of one item, the one referred to.
pub assume_specification<T>[ core::slice::from_ref::<T> ](item: &T) -> (slice: &[T])
    ensures
        slice@ == seq![*item],
;

/// Whether a batch is decoded as if it were all of a render, at the default rate.
pub open spec fn decodes_alone(batch: FrameBatch) -> bool {
    let rows = batch_rows(batch) as u64;
    settings_for(rows).fault(false).is_none() && complete(seq![batch], 48_000, rows)
}

/// Whether this is why a batch is not decoded as if it were all of a render.
pub open spec fn fails_alone(batch: FrameBatch, error: PreviewError) -> bool {
    let rows = batch_rows(batch) as u64;
    match settings_for(rows).fault(false) {
        Some(fault) => argument_error(error, "invalid configuration: "@ + fault),
        None => error matches PreviewError::Decode(Error::InvalidRender(reason)) && render_refused(
            seq![batch],
            48_000,
            rows,
            reason@,
        ),
    }
}

/// Decodes the first batch of a render as if it were all of it.
pub fn decode_first_batch(batch: &FrameBatch) -> (r: std::result::Result<Vec<Single>, PreviewError>)
    ensures
        r.is_ok() == decodes_alone(*batch),
        r matches Ok(samples) ==> samples@ == sample_values(joined_samples(seq![*batch])),
        r matches Err(error) ==> fails_alone(*batch, error),
{
    let rows: usize = row_count(batch);
    let prefix: RenderConfig = config_for(rows as u64)?;
    match decode_from_frames(std::slice::from_ref(batch), &prefix) {
        Ok(samples) => Ok(samples),
        Err(error) => Err(PreviewError::Decode(error)),
    }
}

/// The batches of a preview that came in so far.
pub struct PreviewRender {
    batches: Vec<FrameBatch>,
    first_decoded: bool,
}

impl View for PreviewRender {
    type V = (Seq<FrameBatch>, bool);

    closed spec fn view(&self) -> (Seq<FrameBatch>, bool) {
        (self.batches@, self.first_decoded)
    }
}

impl PreviewRender {
    /// Starts before the first batch.
    pub fn new() -> (render: PreviewRender)
        ensures
            render@.0 == Seq::<FrameBatch>::empty(),
            !render@.1,
    {
        PreviewRender { batches: Vec::new(), first_decoded: false }
    }

    /// Takes a batch. The first one with rows is decoded at once; it says whether this was
    /// the one.
    pub fn take(&mut self, batch: FrameBatch) -> (r: std::result::Result<bool, PreviewError>)
        ensures
            ({
                let first = !old(self)@.1 && batch_rows(batch) > 0;
                &&& r.is_ok() == (first ==> decodes_alone(batch))
                &&& r matches Ok(decoded) ==> {
                    &&& decoded == first
                    &&& final(self)@ == (old(self)@.0.push(batch), old(self)@.1 || first)
                }
                &&& r matches Err(error) ==> fails_alone(batch, error) && final(self)@
                    == old(self)@
            }),
    {
        let first: bool = !self.first_decoded && row_count(&batch) > 0;
        if first {
            decode_first_batch(&batch)?;
            self.first_decoded = true;
        }
        self.batches.push(batch);
        Ok(first)
    }

    /// Decodes all that came in.
    pub fn finish(&self, config: &RenderConfig) -> (r: std::result::Result<
        Vec<Single>,
        PreviewError,
    >)
        ensures
            r.is_ok() == (config@.frame_count <= usize::MAX && complete(
                self@.0,
                config@.sample_rate_hz,
                config@.frame_count,
            )),
            r matches Ok(samples) ==> samples@ == sample_values(joined_samples(self@.0)),
            r matches Err(error) ==> error matches PreviewError::Decode(
                Error::InvalidRender(reason),
            ) && render_refused(
                self@.0,
                config@.sample_rate_hz,
                config@.frame_count,
                reason@,
            ),
    {
        match decode_from_frames(self.batches.as_slice(), config) {
            Ok(samples) => Ok(samples),
            Err(error) => Err(PreviewError::Decode(error)),
        }
    }
}

} // verus!
