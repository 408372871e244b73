//! The command line: segments, output mode, width and color, with the
//! same errors and defaults as the program's options.

use vstd::prelude::*;
use crate::error::{AppError, is_message};
use crate::text::{chars_of, has_prefix, owned, parse_unsigned, push_str, str_eq, string_of};

verus! {

/// The help text.
pub const HELP: &'static str = "Inspect this process's Linux vDSO and vvar mappings.

Usage: vdump [OPTIONS] [SEGMENT]...

Segments:
  vdso          The virtual dynamic shared object
  vvar          Kernel timekeeping data
  vvar-clock    Architecture-specific clock data

With no segment, vdump shows every mapping present on this system.

Options:
  -x, --hex            Show a colored hex/ASCII dump
  -r, --raw            Write raw bytes (exactly one segment)
      --strict         Fail instead of zero-filling unreadable raw bytes
  -l, --list           Show mapping metadata only
  -w, --width BYTES    Bytes per dump row [default: 16]
      --color WHEN     Color output: auto, always, never [default: auto]
  -h, --help           Print help
  -V, --version        Print version
";

/// A mapping that the kernel gives every process.
#[derive(Clone, Copy, Debug, PartialEq, Eq, Structural)]
pub enum Segment {
    Vdso,
    Vvar,
    VvarClock,
}

/// The segment that a command-line name selects.
pub open spec fn segment_named(value: Seq<char>) -> Option<Segment> {
    if value == "vdso"@ || value == "[vdso]"@ {
        Some(Segment::Vdso)
    } else if value == "vvar"@ || value == "[vvar]"@ {
        Some(Segment::Vvar)
    } else if value == "vvar-clock"@ || value == "vvar_clock"@ || value == "vvar-vclock"@ || value
        == "vvar_vclock"@ || value == "[vvar_clock]"@ || value == "[vvar_vclock]"@ {
        Some(Segment::VvarClock)
    } else {
        None
    }
}

/// The segment that a name in `/proc/self/maps` denotes.
pub open spec fn segment_of_kernel_name(value: Seq<char>) -> Option<Segment> {
    if value == "[vdso]"@ {
        Some(Segment::Vdso)
    } else if value == "[vvar]"@ {
        Some(Segment::Vvar)
    } else if value == "[vvar_clock]"@ || value == "[vvar_vclock]"@ {
        Some(Segment::VvarClock)
    } else {
        None
    }
}

/// The name shown for a segment.
pub open spec fn segment_name(segment: Segment) -> Seq<char> {
    match segment {
        Segment::Vdso => "vdso"@,
        Segment::Vvar => "vvar"@,
        Segment::VvarClock => "vvar-clock"@,
    }
}

/// The name under which the kernel lists a segment.
pub open spec fn expected_kernel_name_of(segment: Segment) -> Seq<char> {
    match segment {
        Segment::Vdso => "[vdso]"@,
        Segment::Vvar => "[vvar]"@,
        Segment::VvarClock => "[vvar_vclock]"@,
    }
}

/// Every segment, in the order in which they are shown.
pub open spec fn all_segments() -> Seq<Segment> {
    seq![Segment::Vdso, Segment::Vvar, Segment::VvarClock]
}

impl Segment {
    /// Every segment, in the order in which they are shown.
    pub const ALL: [Segment; 3] = [Segment::Vdso, Segment::Vvar, Segment::VvarClock];

    /// The segment that a command-line name selects.
    pub fn parse(value: &str) -> (r: Option<Segment>)
        ensures
            r == segment_named(value@),
    {
        if str_eq(value, "vdso") || str_eq(value, "[vdso]") {
            Some(Segment::Vdso)
        } else if str_eq(value, "vvar") || str_eq(value, "[vvar]") {
            Some(Segment::Vvar)
        } else if str_eq(value, "vvar-clock") || str_eq(value, "vvar_clock") || str_eq(
            value,
            "vvar-vclock",
        ) || str_eq(value, "vvar_vclock") || str_eq(value, "[vvar_clock]") || str_eq(
            value,
            "[vvar_vclock]",
        ) {
            Some(Segment::VvarClock)
        } else {
            None
        }
    }

    /// The segment that a name in `/proc/self/maps` denotes.
    pub fn from_kernel_name(value: &str) -> (r: Option<Segment>)
        ensures
            r == segment_of_kernel_name(value@),
    {
        if str_eq(value, "[vdso]") {
            Some(Segment::Vdso)
        } else if str_eq(value, "[vvar]") {
            Some(Segment::Vvar)
        } else if str_eq(value, "[vvar_clock]") || str_eq(value, "[vvar_vclock]") {
            Some(Segment::VvarClock)
        } else {
            None
        }
    }

    /// The name shown for the segment.
    pub fn name(self) -> (name: &'static str)
        ensures
            name@ == segment_name(self),
    {
        match self {
            Segment::Vdso => "vdso",
            Segment::Vvar => "vvar",
            Segment::VvarClock => "vvar-clock",
        }
    }

    /// The name under which the kernel lists the segment.
    pub fn expected_kernel_name(self) -> (name: &'static str)
        ensures
            name@ == expected_kernel_name_of(self),
    {
        match self {
            Segment::Vdso => "[vdso]",
            Segment::Vvar => "[vvar]",
            Segment::VvarClock => "[vvar_vclock]",
        }
    }
}

/// When to color the output.
#[derive(Clone, Copy, Debug, PartialEq, Eq, Structural)]
pub enum ColorChoice {
    Auto,
    Always,
    Never,
}

/// The color choice that a name selects.
pub open spec fn color_named(value: Seq<char>) -> Option<ColorChoice> {
    if value == "auto"@ {
        Some(ColorChoice::Auto)
    } else if value == "always"@ {
        Some(ColorChoice::Always)
    } else if value == "never"@ {
        Some(ColorChoice::Never)
    } else {
        None
    }
}

impl ColorChoice {
    /// The color choice that a name selects.
    pub fn parse(value: &str) -> (r: Option<ColorChoice>)
        ensures
            r == color_named(value@),
    {
        if str_eq(value, "auto") {
            Some(ColorChoice::Auto)
        } else if str_eq(value, "always") {
            Some(ColorChoice::Always)
        } else if str_eq(value, "never") {
            Some(ColorChoice::Never)
        } else {
            None
        }
    }
}

/// What the program is asked to do.
#[derive(Clone, Copy, Debug, PartialEq, Eq, Structural)]
pub enum Action {
    Run,
    Help,
    Version,
}

/// How the selected mappings are shown.
#[derive(Clone, Copy, Debug, PartialEq, Eq, Structural)]
pub enum OutputMode {
    Decoded,
    Hex,
    Raw,
    List,
}

/// The parsed command line.
#[derive(Debug)]
pub struct Config {
    pub segments: Vec<Segment>,
    pub explicit_segments: bool,
    pub output: OutputMode,
    pub strict: bool,
    pub width: usize,
    pub color: ColorChoice,
    pub action: Action,
}

/// The message of combined output modes.
pub open spec fn combined_modes_message() -> Seq<char> {
    "--hex, --raw, and --list cannot be combined"@
}

/// The output mode after a request for `requested`: a mode other than the
/// default can only be requested again.
pub open spec fn output_after(current: OutputMode, requested: OutputMode) -> Result<OutputMode, Seq<char>> {
    if current != OutputMode::Decoded && current != requested {
        Err(combined_modes_message())
    } else {
        Ok(requested)
    }
}

/// The dump width that a value selects, or the message that rejects it.
pub open spec fn width_of(value: Seq<char>) -> Result<usize, Seq<char>> {
    match crate::text::unsigned_value(value, 10) {
        Some(v) => if v > usize::MAX {
            Err("invalid width '"@ + value + "'"@)
        } else if !(1 <= v <= 64) {
            Err("width must be between 1 and 64 bytes"@)
        } else {
            Ok(v as usize)
        },
        None => Err("invalid width '"@ + value + "'"@),
    }
}

/// The color choice that a value selects, or the message that rejects it.
pub open spec fn color_of(value: Seq<char>) -> Result<ColorChoice, Seq<char>> {
    match color_named(value) {
        Some(c) => Ok(c),
        None => Err("invalid color mode '"@ + value + "'; expected auto, always, or never"@),
    }
}

/// What the arguments read so far have set.
pub struct ArgState {
    pub segments: Seq<Segment>,
    pub output: OutputMode,
    pub strict: bool,
    pub width: usize,
    pub color: ColorChoice,
    pub action: Action,
    pub options: bool,
}

/// Nothing read yet: the defaults.
pub open spec fn initial_state() -> ArgState {
    ArgState {
        segments: Seq::empty(),
        output: OutputMode::Decoded,
        strict: false,
        width: 16,
        color: ColorChoice::Auto,
        action: Action::Run,
        options: true,
    }
}

/// Whether an argument is the option `short` or `long`.
pub open spec fn is_option(st: ArgState, arg: Seq<char>, short: Seq<char>, long: Seq<char>) -> bool {
    st.options && (arg == short || arg == long)
}

/// Whether `arg` begins with `prefix`.
pub open spec fn starts_with(arg: Seq<char>, prefix: Seq<char>) -> bool {
    prefix.len() <= arg.len() && arg.take(prefix.len() as int) == prefix
}

/// `st` with the output mode requested, or the message of combined modes.
pub open spec fn with_output(st: ArgState, requested: OutputMode) -> Result<ArgState, Seq<char>> {
    match output_after(st.output, requested) {
        Ok(o) => Ok(ArgState { output: o, ..st }),
        Err(m) => Err(m),
    }
}

/// `st` with the dump width that a value selects.
pub open spec fn with_width(st: ArgState, value: Seq<char>) -> Result<ArgState, Seq<char>> {
    match width_of(value) {
        Ok(w) => Ok(ArgState { width: w, ..st }),
        Err(m) => Err(m),
    }
}

/// `st` with the color choice that a value selects.
pub open spec fn with_color(st: ArgState, value: Seq<char>) -> Result<ArgState, Seq<char>> {
    match color_of(value) {
        Ok(c) => Ok(ArgState { color: c, ..st }),
        Err(m) => Err(m),
    }
}

/// The state after reading the arguments from position `i` on, starting in
/// `st`, or the message of the first argument that is rejected.
pub open spec fn read_args(args: Seq<Seq<char>>, i: int, st: ArgState) -> Result<ArgState, Seq<char>>
    decreases args.len() - i,
{
    if i < 0 || i >= args.len() {
        Ok(st)
    } else {
        let a = args[i];
        if st.options && a == "--"@ {
            read_args(args, i + 1, ArgState { options: false, ..st })
        } else if is_option(st, a, "-x"@, "--hex"@) {
            match with_output(st, OutputMode::Hex) {
                Ok(next) => read_args(args, i + 1, next),
                Err(m) => Err(m),
            }
        } else if is_option(st, a, "-r"@, "--raw"@) {
            match with_output(st, OutputMode::Raw) {
                Ok(next) => read_args(args, i + 1, next),
                Err(m) => Err(m),
            }
        } else if st.options && a == "--strict"@ {
            read_args(args, i + 1, ArgState { strict: true, ..st })
        } else if is_option(st, a, "-l"@, "--list"@) {
            match with_output(st, OutputMode::List) {
                Ok(next) => read_args(args, i + 1, next),
                Err(m) => Err(m),
            }
        } else if is_option(st, a, "-h"@, "--help"@) {
            read_args(args, i + 1, ArgState { action: Action::Help, ..st })
        } else if is_option(st, a, "-V"@, "--version"@) {
            read_args(args, i + 1, ArgState { action: Action::Version, ..st })
        } else if is_option(st, a, "-w"@, "--width"@) {
            if i + 1 >= args.len() {
                Err(a + " requires a value"@)
            } else {
                match with_width(st, args[i + 1]) {
                    Ok(next) => read_args(args, i + 2, next),
                    Err(m) => Err(m),
                }
            }
        } else if st.options && a == "--color"@ {
            if i + 1 >= args.len() {
                Err("--color requires a value"@)
            } else {
                match with_color(st, args[i + 1]) {
                    Ok(next) => read_args(args, i + 2, next),
                    Err(m) => Err(m),
                }
            }
        } else if st.options && starts_with(a, "--width="@) {
            match with_width(st, a.skip(8)) {
                Ok(next) => read_args(args, i + 1, next),
                Err(m) => Err(m),
            }
        } else if st.options && starts_with(a, "--color="@) {
            match with_color(st, a.skip(8)) {
                Ok(next) => read_args(args, i + 1, next),
                Err(m) => Err(m),
            }
        } else if st.options && a.len() > 0 && a[0] == '-' {
            Err("unknown option '"@ + a + "' (try --help)"@)
        } else {
            match segment_named(a) {
                None => Err("unknown segment '"@ + a + "'; expected vdso, vvar, or vvar-clock"@),
                Some(s) => read_args(
                    args,
                    i + 1,
                    ArgState {
                        segments: if st.segments.contains(s) {
                            st.segments
                        } else {
                            st.segments.push(s)
                        },
                        ..st
                    },
                ),
            }
        }
    }
}

/// The message that rejects a combination of run options, if any.
pub open spec fn run_options_error(output: OutputMode, strict: bool, segment_count: nat) -> Option<Seq<char>> {
    if output == OutputMode::Raw && segment_count != 1 {
        Some("--raw requires exactly one segment"@)
    } else if strict && output != OutputMode::Raw {
        Some("--strict requires --raw"@)
    } else {
        None
    }
}

/// The configuration that a command line describes, or the message that
/// rejects it: the segments named (each once, in order), or every segment
/// when none is named; run options are checked only for a run.
pub open spec fn config_of(args: Seq<Seq<char>>) -> Result<ArgState, Seq<char>> {
    match read_args(args, 0, initial_state()) {
        Err(m) => Err(m),
        Ok(st) => {
            let segments = if st.segments.len() == 0 {
                all_segments()
            } else {
                st.segments
            };
            if st.action == Action::Run && run_options_error(st.output, st.strict, segments.len()) is Some {
                Err(run_options_error(st.output, st.strict, segments.len())->Some_0)
            } else {
                Ok(ArgState { segments, ..st })
            }
        },
    }
}

/// The characters of each argument.
pub open spec fn arg_views(args: Seq<String>) -> Seq<Seq<char>> {
    args.map_values(|a: String| a@)
}

/// Whether the segment is among those chosen so far.
fn contains_segment(segments: &Vec<Segment>, segment: Segment) -> (r: bool)
    ensures
        r == segments@.contains(segment),
{
    let mut i: usize = 0;
    while i < segments.len()
        invariant
            i <= segments@.len(),
            forall|j: int| 0 <= j < i ==> segments@[j] != segment,
        decreases segments@.len() - i,
    {
        if segments[i] == segment {
            assert(segments@[i as int] == segment);
            return true;
        }
        i = i + 1;
    }
    false
}

/// The message that a value is missing after an option.
fn missing_value(option: &str) -> (e: AppError)
    ensures
        is_message(e, option@ + " requires a value"@),
{
    let mut message = owned(option);
    push_str(&mut message, " requires a value");
    AppError::Message(message)
}

impl Config {
    /// Parses the command line (the arguments after the program name).
    pub fn parse(arguments: Vec<String>) -> (r: Result<Config, AppError>)
        ensures
            match config_of(arg_views(arguments@)) {
                Ok(st) => r is Ok && r->Ok_0.segments@ == st.segments && r->Ok_0.output == st.output
                    && r->Ok_0.strict == st.strict && r->Ok_0.width == st.width && r->Ok_0.color
                    == st.color && r->Ok_0.action == st.action && r->Ok_0.explicit_segments == (read_args(
                    arg_views(arguments@),
                    0,
                    initial_state(),
                )->Ok_0.segments.len() > 0),
                Err(m) => r is Err && is_message(r->Err_0, m),
            },
    {
        let ghost args = arg_views(arguments@);
        let mut output = OutputMode::Decoded;
        let mut strict = false;
        let mut width: usize = 16;
        let mut color = ColorChoice::Auto;
        let mut segments: Vec<Segment> = Vec::with_capacity(3);
        let mut action = Action::Run;
        let mut options = true;
        let len = arguments.len();
        let mut i: usize = 0;
        while i < len
            invariant
                i <= len,
                len == arguments@.len(),
                args == arg_views(arguments@),
                args.len() == len,
                read_args(args, 0, initial_state()) == read_args(
                    args,
                    i as int,
                    ArgState { segments: segments@, output, strict, width, color, action, options },
                ),
            decreases len - i,
        {
            let argument = arguments[i].as_str();
            let ghost st = ArgState { segments: segments@, output, strict, width, color, action, options };
            assert(argument@ == args[i as int]);
            if options && str_eq(argument, "--") {
                options = false;
                i = i + 1;
            } else if options && (str_eq(argument, "-x") || str_eq(argument, "--hex")) {
                set_output_mode(&mut output, OutputMode::Hex)?;
                i = i + 1;
            } else if options && (str_eq(argument, "-r") || str_eq(argument, "--raw")) {
                set_output_mode(&mut output, OutputMode::Raw)?;
                i = i + 1;
            } else if options && str_eq(argument, "--strict") {
                strict = true;
                i = i + 1;
            } else if options && (str_eq(argument, "-l") || str_eq(argument, "--list")) {
                set_output_mode(&mut output, OutputMode::List)?;
                i = i + 1;
            } else if options && (str_eq(argument, "-h") || str_eq(argument, "--help")) {
                action = Action::Help;
                i = i + 1;
            } else if options && (str_eq(argument, "-V") || str_eq(argument, "--version")) {
                action = Action::Version;
                i = i + 1;
            } else if options && (str_eq(argument, "-w") || str_eq(argument, "--width")) {
                if i + 1 >= len {
                    return Err(missing_value(argument));
                }
                assert(arguments@[i + 1]@ == args[i + 1]);
                width = parse_width(arguments[i + 1].as_str())?;
                i = i + 2;
            } else if options && str_eq(argument, "--color") {
                if i + 1 >= len {
                    return Err(AppError::Message(owned("--color requires a value")));
                }
                assert(arguments@[i + 1]@ == args[i + 1]);
                color = parse_color(arguments[i + 1].as_str())?;
                i = i + 2;
            } else {
                let chars = chars_of(argument);
                let n = chars.len();
                proof {
                    reveal_strlit("--width=");
                    reveal_strlit("--color=");
                }
                if options && has_prefix(chars.as_slice(), "--width=") {
                    let value = string_of(&chars.as_slice()[8..n]);
                    assert(value@ =~= args[i as int].skip(8));
                    width = parse_width(value.as_str())?;
                    i = i + 1;
                } else if options && has_prefix(chars.as_slice(), "--color=") {
                    let value = string_of(&chars.as_slice()[8..n]);
                    assert(value@ =~= args[i as int].skip(8));
                    color = parse_color(value.as_str())?;
                    i = i + 1;
                } else if options && n > 0 && chars[0] == '-' {
                    let mut message = owned("unknown option '");
                    push_str(&mut message, argument);
                    push_str(&mut message, "' (try --help)");
                    return Err(AppError::Message(message));
                } else {
                    let segment = match Segment::parse(argument) {
                        Some(segment) => segment,
                        None => {
                            let mut message = owned("unknown segment '");
                            push_str(&mut message, argument);
                            push_str(&mut message, "'; expected vdso, vvar, or vvar-clock");
                            return Err(AppError::Message(message));
                        },
                    };
                    if !contains_segment(&segments, segment) {
                        segments.push(segment);
                    }
                    i = i + 1;
                }
            }
        }
        let explicit_segments = segments.len() > 0;
        if !explicit_segments {
            segments.push(Segment::Vdso);
            segments.push(Segment::Vvar);
            segments.push(Segment::VvarClock);
            assert(segments@ =~= all_segments());
        }
        if action == Action::Run {
            validate_run_options(output, strict, segments.len())?;
        }
        Ok(Config { segments, explicit_segments, output, strict, width, color, action })
    }
}

/// Rejects a raw dump of other than one segment, and `--strict` without a
/// raw dump.
pub fn validate_run_options(output: OutputMode, strict: bool, segment_count: usize) -> (r: Result<(), AppError>)
    ensures
        match run_options_error(output, strict, segment_count as nat) {
            Some(m) => r is Err && is_message(r->Err_0, m),
            None => r is Ok,
        },
{
    if output == OutputMode::Raw && segment_count != 1 {
        return Err(AppError::Message(owned("--raw requires exactly one segment")));
    }
    if strict && output != OutputMode::Raw {
        return Err(AppError::Message(owned("--strict requires --raw")));
    }
    Ok(())
}

/// Requests an output mode: a mode other than the default can only be
/// requested again.
pub fn set_output_mode(current: &mut OutputMode, requested: OutputMode) -> (r: Result<(), AppError>)
    ensures
        match output_after(*old(current), requested) {
            Ok(o) => r is Ok && *final(current) == o,
            Err(m) => r is Err && is_message(r->Err_0, m) && *final(current) == *old(current),
        },
{
    if *current != OutputMode::Decoded && *current != requested {
        return Err(AppError::Message(owned("--hex, --raw, and --list cannot be combined")));
    }
    *current = requested;
    Ok(())
}

/// The dump width that a value selects: a decimal number from 1 to 64.
pub fn parse_width(value: &str) -> (r: Result<usize, AppError>)
    ensures
        match width_of(value@) {
            Ok(w) => r == Ok::<usize, AppError>(w),
            Err(m) => r is Err && is_message(r->Err_0, m),
        },
{
    let chars = chars_of(value);
    let width = match parse_unsigned(chars.as_slice(), 10) {
        Some(width) => width,
        None => {
            let mut message = owned("invalid width '");
            push_str(&mut message, value);
            push_str(&mut message, "'");
            return Err(AppError::Message(message));
        },
    };
    if !(1 <= width && width <= 64) {
        return Err(AppError::Message(owned("width must be between 1 and 64 bytes")));
    }
    Ok(width)
}

/// The color choice that a value selects.
pub fn parse_color(value: &str) -> (r: Result<ColorChoice, AppError>)
    ensures
        match color_of(value@) {
            Ok(c) => r == Ok::<ColorChoice, AppError>(c),
            Err(m) => r is Err && is_message(r->Err_0, m),
        },
{
    match ColorChoice::parse(value) {
        Some(c) => Ok(c),
        None => {
            let mut message = owned("invalid color mode '");
            push_str(&mut message, value);
            push_str(&mut message, "'; expected auto, always, or never");
            Err(AppError::Message(message))
        },
    }
}

/// A segment's shown name and its kernel name both select it on the
/// command line, and its kernel name denotes it in `/proc/self/maps`.
pub proof fn lemma_segment_names_round_trip(segment: Segment)
    ensures
        segment_named(segment_name(segment)) == Some(segment),
        segment_named(expected_kernel_name_of(segment)) == Some(segment),
        segment_of_kernel_name(expected_kernel_name_of(segment)) == Some(segment),
{
    reveal_strlit("vdso");
    reveal_strlit("[vdso]");
    reveal_strlit("vvar");
    reveal_strlit("[vvar]");
    reveal_strlit("vvar-clock");
    reveal_strlit("vvar_clock");
    reveal_strlit("vvar-vclock");
    reveal_strlit("vvar_vclock");
    reveal_strlit("[vvar_clock]");
    reveal_strlit("[vvar_vclock]");
    assert("vvar"@[1] != "vdso"@[1]);
    assert("[vvar]"@[2] != "[vdso]"@[2]);
    assert("vvar"@ != "vdso"@);
    assert("vvar"@ != "[vdso]"@);
    assert("vvar-clock"@.len() == 10);
    assert("vvar-clock"@ != "vdso"@);
    assert("vvar-clock"@ != "vvar"@);
    assert("vvar-clock"@ != "[vdso]"@);
    assert("vvar-clock"@ != "[vvar]"@);
    assert("[vvar]"@ != "[vdso]"@);
    assert("[vvar]"@ != "vdso"@);
    assert("[vvar_vclock]"@.len() == 13);
    assert("vvar"@.len() == 4);
    assert("[vvar]"@.len() == 6);
    assert("[vvar_vclock]"@ != "vdso"@);
    assert("[vvar_vclock]"@ != "[vdso]"@);
    assert("[vvar_vclock]"@ != "vvar"@);
    assert("[vvar_vclock]"@ != "[vvar]"@);
}

/// Whether no segment occurs twice.
pub open spec fn distinct(s: Seq<Segment>) -> bool {
    forall|i: int, j: int| 0 <= i < j < s.len() ==> s[i] != s[j]
}

#[verifier::spinoff_prover]
#[verifier::rlimit(60)]
proof fn lemma_read_args_distinct(args: Seq<Seq<char>>, i: int, st: ArgState)
    requires
        distinct(st.segments),
        1 <= st.width <= 64,
    ensures
        read_args(args, i, st) matches Ok(end) ==> distinct(end.segments) && 1 <= end.width <= 64,
    decreases args.len() - i,
{
    if 0 <= i < args.len() {
        let a = args[i];
        if st.options && a == "--"@ {
            lemma_read_args_distinct(args, i + 1, ArgState { options: false, ..st });
        } else if is_option(st, a, "-x"@, "--hex"@) {
            if let Ok(next) = with_output(st, OutputMode::Hex) {
                lemma_read_args_distinct(args, i + 1, next);
            }
        } else if is_option(st, a, "-r"@, "--raw"@) {
            if let Ok(next) = with_output(st, OutputMode::Raw) {
                lemma_read_args_distinct(args, i + 1, next);
            }
        } else if st.options && a == "--strict"@ {
            lemma_read_args_distinct(args, i + 1, ArgState { strict: true, ..st });
        } else if is_option(st, a, "-l"@, "--list"@) {
            if let Ok(next) = with_output(st, OutputMode::List) {
                lemma_read_args_distinct(args, i + 1, next);
            }
        } else if is_option(st, a, "-h"@, "--help"@) {
            lemma_read_args_distinct(args, i + 1, ArgState { action: Action::Help, ..st });
        } else if is_option(st, a, "-V"@, "--version"@) {
            lemma_read_args_distinct(args, i + 1, ArgState { action: Action::Version, ..st });
        } else if is_option(st, a, "-w"@, "--width"@) {
            if i + 1 < args.len() {
                if let Ok(next) = with_width(st, args[i + 1]) {
                    lemma_read_args_distinct(args, i + 2, next);
                }
            }
        } else if st.options && a == "--color"@ {
            if i + 1 < args.len() {
                if let Ok(next) = with_color(st, args[i + 1]) {
                    lemma_read_args_distinct(args, i + 2, next);
                }
            }
        } else if st.options && starts_with(a, "--width="@) {
            if let Ok(next) = with_width(st, a.skip(8)) {
                lemma_read_args_distinct(args, i + 1, next);
            }
        } else if st.options && starts_with(a, "--color="@) {
            if let Ok(next) = with_color(st, a.skip(8)) {
                lemma_read_args_distinct(args, i + 1, next);
            }
        } else if st.options && a.len() > 0 && a[0] == '-' {
        } else if let Some(s) = segment_named(a) {
            let segments = if st.segments.contains(s) {
                st.segments
            } else {
                st.segments.push(s)
            };
            assert(distinct(segments)) by {
                if !st.segments.contains(s) {
                    assert forall|x: int, y: int| 0 <= x < y < segments.len() implies segments[x]
                        != segments[y] by {
                        if y == st.segments.len() {
                            assert(segments[x] == st.segments[x]);
                        }
                    }
                }
            }
            lemma_read_args_distinct(args, i + 1, ArgState { segments, ..st });
        }
    }
}

/// Reading from position `i` on does not look at the arguments before it.
#[verifier::spinoff_prover]
#[verifier::rlimit(60)]
proof fn lemma_read_args_ignores_earlier(args: Seq<Seq<char>>, i: int, st: ArgState, k: int, other: Seq<char>)
    requires
        0 <= k < i,
        k < args.len(),
    ensures
        read_args(args, i, st) == read_args(args.update(k, other), i, st),
    decreases args.len() - i,
{
    let changed = args.update(k, other);
    assert(changed.len() == args.len());
    if !(0 <= i < args.len()) {
        assert(read_args(args, i, st) == read_args(changed, i, st));
    }
    if 0 <= i < args.len() {
        let a = args[i];
        assert(changed[i] == a);
        if i + 1 < args.len() {
            assert(changed[i + 1] == args[i + 1]);
        }
        if st.options && a == "--"@ {
            lemma_read_args_ignores_earlier(args, i + 1, ArgState { options: false, ..st }, k, other);
            assert(read_args(args, i, st) == read_args(changed, i, st));
        } else if is_option(st, a, "-x"@, "--hex"@) {
            if let Ok(next) = with_output(st, OutputMode::Hex) {
                lemma_read_args_ignores_earlier(args, i + 1, next, k, other);
            assert(read_args(args, i, st) == read_args(changed, i, st));
            }
        } else if is_option(st, a, "-r"@, "--raw"@) {
            if let Ok(next) = with_output(st, OutputMode::Raw) {
                lemma_read_args_ignores_earlier(args, i + 1, next, k, other);
            assert(read_args(args, i, st) == read_args(changed, i, st));
            }
        } else if st.options && a == "--strict"@ {
            lemma_read_args_ignores_earlier(args, i + 1, ArgState { strict: true, ..st }, k, other);
            assert(read_args(args, i, st) == read_args(changed, i, st));
        } else if is_option(st, a, "-l"@, "--list"@) {
            if let Ok(next) = with_output(st, OutputMode::List) {
                lemma_read_args_ignores_earlier(args, i + 1, next, k, other);
            assert(read_args(args, i, st) == read_args(changed, i, st));
            }
        } else if is_option(st, a, "-h"@, "--help"@) {
            lemma_read_args_ignores_earlier(args, i + 1, ArgState { action: Action::Help, ..st }, k, other);
            assert(read_args(args, i, st) == read_args(changed, i, st));
        } else if is_option(st, a, "-V"@, "--version"@) {
            lemma_read_args_ignores_earlier(args, i + 1, ArgState { action: Action::Version, ..st }, k, other);
            assert(read_args(args, i, st) == read_args(changed, i, st));
        } else if is_option(st, a, "-w"@, "--width"@) {
            if i + 1 < args.len() {
                if let Ok(next) = with_width(st, args[i + 1]) {
                    lemma_read_args_ignores_earlier(args, i + 2, next, k, other);
            assert(read_args(args, i, st) == read_args(changed, i, st));
                }
            }
        } else if st.options && a == "--color"@ {
            if i + 1 < args.len() {
                if let Ok(next) = with_color(st, args[i + 1]) {
                    lemma_read_args_ignores_earlier(args, i + 2, next, k, other);
            assert(read_args(args, i, st) == read_args(changed, i, st));
                }
            }
        } else if st.options && starts_with(a, "--width="@) {
            if let Ok(next) = with_width(st, a.skip(8)) {
                lemma_read_args_ignores_earlier(args, i + 1, next, k, other);
            assert(read_args(args, i, st) == read_args(changed, i, st));
            }
        } else if st.options && starts_with(a, "--color="@) {
            if let Ok(next) = with_color(st, a.skip(8)) {
                lemma_read_args_ignores_earlier(args, i + 1, next, k, other);
            assert(read_args(args, i, st) == read_args(changed, i, st));
            }
        } else if st.options && a.len() > 0 && a[0] == '-' {
            assert(read_args(args, i, st) == read_args(changed, i, st));
        } else if segment_named(a) is None {
            assert(read_args(args, i, st) == read_args(changed, i, st));
        } else if let Some(s) = segment_named(a) {
            let segments = if st.segments.contains(s) {
                st.segments
            } else {
                st.segments.push(s)
            };
            lemma_read_args_ignores_earlier(args, i + 1, ArgState { segments, ..st }, k, other);
            assert(read_args(args, i, st) == read_args(changed, i, st));
        }
    }
}

/// The characters that tell the options apart.
proof fn lemma_option_literals()
    ensures
        "--"@.len() == 2 && "--"@[0] == '-' && "--"@[1] == '-',
        "-x"@.len() == 2 && "-x"@[0] == '-' && "-x"@[1] == 'x',
        "-r"@.len() == 2 && "-r"@[0] == '-' && "-r"@[1] == 'r',
        "-l"@.len() == 2 && "-l"@[0] == '-' && "-l"@[1] == 'l',
        "-h"@.len() == 2 && "-h"@[0] == '-' && "-h"@[1] == 'h',
        "-V"@.len() == 2 && "-V"@[0] == '-' && "-V"@[1] == 'V',
        "-w"@.len() == 2 && "-w"@[0] == '-' && "-w"@[1] == 'w',
        "--hex"@.len() == 5 && "--hex"@[0] == '-' && "--hex"@[1] == '-' && "--hex"@[2] == 'h',
        "--raw"@.len() == 5 && "--raw"@[0] == '-' && "--raw"@[1] == '-' && "--raw"@[2] == 'r',
        "--list"@.len() == 6 && "--list"@[0] == '-' && "--list"@[1] == '-' && "--list"@[2] == 'l',
        "--help"@.len() == 6 && "--help"@[0] == '-' && "--help"@[1] == '-' && "--help"@[2] == 'h',
        "--version"@.len() == 9 && "--version"@[0] == '-' && "--version"@[1] == '-' && "--version"@[2] == 'v',
        "--width"@.len() == 7 && "--width"@[0] == '-' && "--width"@[1] == '-' && "--width"@[2] == 'w',
        "--strict"@.len() == 8 && "--strict"@[0] == '-' && "--strict"@[1] == '-' && "--strict"@[2] == 's',
        "--color"@.len() == 7 && "--color"@[0] == '-' && "--color"@[1] == '-' && "--color"@[2] == 'c',
        "--width="@.len() == 8 && "--width="@[0] == '-' && "--width="@[1] == '-' && "--width="@[2] == 'w',
        "--color="@.len() == 8 && "--color="@[0] == '-' && "--color="@[1] == '-' && "--color="@[2] == 'c',
{
    reveal_strlit("--");
    reveal_strlit("-x");
    reveal_strlit("-r");
    reveal_strlit("-l");
    reveal_strlit("-h");
    reveal_strlit("-V");
    reveal_strlit("-w");
    reveal_strlit("--hex");
    reveal_strlit("--raw");
    reveal_strlit("--list");
    reveal_strlit("--help");
    reveal_strlit("--version");
    reveal_strlit("--width");
    reveal_strlit("--strict");
    reveal_strlit("--color");
    reveal_strlit("--width=");
    reveal_strlit("--color=");
}

#[verifier::spinoff_prover]
#[verifier::rlimit(60)]
proof fn lemma_option_hex(args: Seq<Seq<char>>, i: int, st: ArgState)
    requires
        0 <= i < args.len(),
        st.options,
        args[i] == "-x"@,
    ensures
        read_args(args, i, st) == read_args(args.update(i, "--hex"@), i, st),
        read_args(args, i, st) == match with_output(st, OutputMode::Hex) {
            Ok(next) => read_args(args, i + 1, next),
            Err(m) => Err(m),
        },
{
    lemma_option_literals();
    let changed = args.update(i, "--hex"@);
    assert(changed[i] == "--hex"@);
    if i + 1 < args.len() {
        assert(changed[i + 1] == args[i + 1]);
    }
    if let Ok(next) = with_output(st, OutputMode::Hex) {
        lemma_read_args_ignores_earlier(args, i + 1, next, i, "--hex"@);
    }
}

#[verifier::spinoff_prover]
#[verifier::rlimit(60)]
proof fn lemma_option_raw(args: Seq<Seq<char>>, i: int, st: ArgState)
    requires
        0 <= i < args.len(),
        st.options,
        args[i] == "-r"@,
    ensures
        read_args(args, i, st) == read_args(args.update(i, "--raw"@), i, st),
        read_args(args, i, st) == match with_output(st, OutputMode::Raw) {
            Ok(next) => read_args(args, i + 1, next),
            Err(m) => Err(m),
        },
{
    lemma_option_literals();
    let changed = args.update(i, "--raw"@);
    assert(changed[i] == "--raw"@);
    if i + 1 < args.len() {
        assert(changed[i + 1] == args[i + 1]);
    }
    if let Ok(next) = with_output(st, OutputMode::Raw) {
        lemma_read_args_ignores_earlier(args, i + 1, next, i, "--raw"@);
    }
}

#[verifier::spinoff_prover]
#[verifier::rlimit(60)]
proof fn lemma_option_list(args: Seq<Seq<char>>, i: int, st: ArgState)
    requires
        0 <= i < args.len(),
        st.options,
        args[i] == "-l"@,
    ensures
        read_args(args, i, st) == read_args(args.update(i, "--list"@), i, st),
        read_args(args, i, st) == match with_output(st, OutputMode::List) {
            Ok(next) => read_args(args, i + 1, next),
            Err(m) => Err(m),
        },
{
    lemma_option_literals();
    let changed = args.update(i, "--list"@);
    assert(changed[i] == "--list"@);
    if i + 1 < args.len() {
        assert(changed[i + 1] == args[i + 1]);
    }
    if let Ok(next) = with_output(st, OutputMode::List) {
        lemma_read_args_ignores_earlier(args, i + 1, next, i, "--list"@);
    }
}

#[verifier::spinoff_prover]
#[verifier::rlimit(60)]
proof fn lemma_option_help(args: Seq<Seq<char>>, i: int, st: ArgState)
    requires
        0 <= i < args.len(),
        st.options,
        args[i] == "-h"@,
    ensures
        read_args(args, i, st) == read_args(args.update(i, "--help"@), i, st),
        read_args(args, i, st) == match Ok::<ArgState, Seq<char>>(ArgState { action: Action::Help, ..st }) {
            Ok(next) => read_args(args, i + 1, next),
            Err(m) => Err(m),
        },
{
    lemma_option_literals();
    let changed = args.update(i, "--help"@);
    assert(changed[i] == "--help"@);
    if i + 1 < args.len() {
        assert(changed[i + 1] == args[i + 1]);
    }
    if let Ok(next) = Ok::<ArgState, Seq<char>>(ArgState { action: Action::Help, ..st }) {
        lemma_read_args_ignores_earlier(args, i + 1, next, i, "--help"@);
    }
}

#[verifier::spinoff_prover]
#[verifier::rlimit(60)]
proof fn lemma_option_version(args: Seq<Seq<char>>, i: int, st: ArgState)
    requires
        0 <= i < args.len(),
        st.options,
        args[i] == "-V"@,
    ensures
        read_args(args, i, st) == read_args(args.update(i, "--version"@), i, st),
        read_args(args, i, st) == match Ok::<ArgState, Seq<char>>(ArgState { action: Action::Version, ..st }) {
            Ok(next) => read_args(args, i + 1, next),
            Err(m) => Err(m),
        },
{
    lemma_option_literals();
    let changed = args.update(i, "--version"@);
    assert(changed[i] == "--version"@);
    if i + 1 < args.len() {
        assert(changed[i + 1] == args[i + 1]);
    }
    if let Ok(next) = Ok::<ArgState, Seq<char>>(ArgState { action: Action::Version, ..st }) {
        lemma_read_args_ignores_earlier(args, i + 1, next, i, "--version"@);
    }
}

#[verifier::spinoff_prover]
#[verifier::rlimit(60)]
proof fn lemma_option_width(args: Seq<Seq<char>>, i: int, st: ArgState)
    requires
        0 <= i < args.len(),
        i + 1 < args.len(),
        st.options,
        args[i] == "-w"@,
    ensures
        read_args(args, i, st) == read_args(args.update(i, "--width"@), i, st),
        read_args(args, i, st) == match with_width(st, args[i + 1]) {
            Ok(next) => read_args(args, i + 2, next),
            Err(m) => Err(m),
        },
{
    lemma_option_literals();
    let changed = args.update(i, "--width"@);
    assert(changed[i] == "--width"@);
    if i + 1 < args.len() {
        assert(changed[i + 1] == args[i + 1]);
    }
    if let Ok(next) = with_width(st, args[i + 1]) {
        lemma_read_args_ignores_earlier(args, i + 2, next, i, "--width"@);
    }
}

/// Each short option means the same as its long form: while options are
/// read, replacing `-x`, `-r`, `-l`, `-h` or `-V` by `--hex`, `--raw`,
/// `--list`, `--help` or `--version` gives the same result, and so does
/// replacing `-w` by `--width` when a value follows it. `-x` requests the
/// hex dump, `-r` the raw bytes and `-l` the listing, and reading goes on
/// with the next argument.
pub proof fn lemma_short_options(args: Seq<Seq<char>>, i: int, st: ArgState)
    requires
        0 <= i < args.len(),
        st.options,
    ensures
        args[i] == "-x"@ ==> read_args(args, i, st) == read_args(args.update(i, "--hex"@), i, st),
        args[i] == "-r"@ ==> read_args(args, i, st) == read_args(args.update(i, "--raw"@), i, st),
        args[i] == "-l"@ ==> read_args(args, i, st) == read_args(args.update(i, "--list"@), i, st),
        args[i] == "-h"@ ==> read_args(args, i, st) == read_args(args.update(i, "--help"@), i, st),
        args[i] == "-V"@ ==> read_args(args, i, st) == read_args(args.update(i, "--version"@), i, st),
        args[i] == "-w"@ && i + 1 < args.len() ==> read_args(args, i, st) == read_args(
            args.update(i, "--width"@),
            i,
            st,
        ),
        args[i] == "-x"@ ==> read_args(args, i, st) == match output_after(st.output, OutputMode::Hex) {
            Ok(o) => read_args(args, i + 1, ArgState { output: o, ..st }),
            Err(m) => Err(m),
        },
        args[i] == "-r"@ ==> read_args(args, i, st) == match output_after(st.output, OutputMode::Raw) {
            Ok(o) => read_args(args, i + 1, ArgState { output: o, ..st }),
            Err(m) => Err(m),
        },
        args[i] == "-l"@ ==> read_args(args, i, st) == match output_after(st.output, OutputMode::List) {
            Ok(o) => read_args(args, i + 1, ArgState { output: o, ..st }),
            Err(m) => Err(m),
        },
{
    if args[i] == "-x"@ {
        lemma_option_hex(args, i, st);
    }
    if args[i] == "-r"@ {
        lemma_option_raw(args, i, st);
    }
    if args[i] == "-l"@ {
        lemma_option_list(args, i, st);
    }
    if args[i] == "-h"@ {
        lemma_option_help(args, i, st);
    }
    if args[i] == "-V"@ {
        lemma_option_version(args, i, st);
    }
    if args[i] == "-w"@ && i + 1 < args.len() {
        lemma_option_width(args, i, st);
    }
}

/// A command line that is accepted selects each segment at most once and
/// at least one segment; a run with a raw dump selects exactly one, and
/// `--strict` in a run comes only with a raw dump; the dump width is
/// between 1 and 64 bytes.
pub proof fn lemma_config_selection(args: Seq<Seq<char>>)
    ensures
        config_of(args) matches Ok(st) ==> {
            &&& 1 <= st.width <= 64
            &&& distinct(st.segments)
            &&& st.segments.len() > 0
            &&& (st.action == Action::Run && st.output == OutputMode::Raw ==> st.segments.len() == 1)
            &&& (st.action == Action::Run && st.strict ==> st.output == OutputMode::Raw)
        },
{
    lemma_read_args_distinct(args, 0, initial_state());
    assert(distinct(all_segments()));
}

/// Requesting an output mode that is in effect changes nothing, and the
/// default mode gives way to any request.
pub proof fn lemma_output_mode_requests(current: OutputMode, requested: OutputMode)
    ensures
        output_after(requested, requested) == Ok::<OutputMode, Seq<char>>(requested),
        output_after(OutputMode::Decoded, requested) == Ok::<OutputMode, Seq<char>>(requested),
        current != OutputMode::Decoded && current != requested ==> output_after(current, requested) is Err,
{
}

} // verus!
