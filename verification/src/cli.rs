//! The command line: which command the arguments ask for, and the options
//! they set.
//!
//! Two facts about each argument come from outside the grammar and are
//! handed in beside it: whether it reads as a floating-point number (the
//! value of `--threshold` must), and whether a file or directory of that name
//! exists (an argument that starts with `-` is an input path only then).
use vstd::prelude::*;
use crate::text::{chars_of, parse_u64, parse_u64_window, string_views};

verus! {

// ---------------------------------------------------------------------------
// Model
// ---------------------------------------------------------------------------

/// A command line that cannot be carried out.
#[derive(Clone, Copy, PartialEq, Eq, Debug)]
pub enum CliError {
    /// `--config` without a path.
    MissingConfigPath,
    /// `--threshold` without a value.
    MissingThreshold,
    /// `--threshold` with a value that is not a number.
    InvalidThreshold,
    /// `--batch` without a directory.
    MissingBatchDir,
    /// `--out-dir` without a directory.
    MissingOutDir,
    /// `--jobs` without a value.
    MissingJobs,
    /// `--jobs` with a value that is not a count.
    InvalidJobs,
    /// `--ext` without a list.
    MissingExtensions,
    /// The argument at `position` looks like an option but is none.
    UnknownOption { position: usize },
}

/// The options a command line sets.
pub struct CliOptions {
    /// `--config <path>`.
    pub config_path: Option<String>,
    /// `--onset`.
    pub onset: bool,
    /// `--beat`.
    pub beat: bool,
    /// `--quiet` or `-q`.
    pub quiet: bool,
    /// `--render`.
    pub render: bool,
    /// `--threshold <value>`: the value as written (it reads as a number).
    pub threshold: Option<String>,
    /// `--batch <dir>`.
    pub batch_dir: Option<String>,
    /// `--out-dir <dir>`.
    pub out_dir: Option<String>,
    /// Skip files whose report exists; on unless `--force` is given.
    pub skip_existing: bool,
    /// `--force`.
    pub force: bool,
    /// `--jobs <n>` or `-j <n>`.
    pub jobs: Option<usize>,
    /// `--ext <list>`: the comma-separated list as written.
    pub extensions: Option<String>,
    /// `--dry-run`.
    pub dry_run: bool,
    /// `--no-progress`.
    pub no_progress: bool,
    /// The arguments that are not options: the audio files.
    pub inputs: Vec<String>,
}

/// Mathematical model of [`CliOptions`].
pub struct OptionsModel {
    pub config_path: Option<Seq<char>>,
    pub onset: bool,
    pub beat: bool,
    pub quiet: bool,
    pub render: bool,
    pub threshold: Option<Seq<char>>,
    pub batch_dir: Option<Seq<char>>,
    pub out_dir: Option<Seq<char>>,
    pub skip_existing: bool,
    pub force: bool,
    pub jobs: Option<usize>,
    pub extensions: Option<Seq<char>>,
    pub dry_run: bool,
    pub no_progress: bool,
    pub inputs: Seq<Seq<char>>,
}

/// The view of an optional string.
pub open spec fn opt_text(o: Option<String>) -> Option<Seq<char>> {
    match o {
        Some(s) => Some(s@),
        None => None,
    }
}

impl View for CliOptions {
    type V = OptionsModel;

    open spec fn view(&self) -> OptionsModel {
        OptionsModel {
            config_path: opt_text(self.config_path),
            onset: self.onset,
            beat: self.beat,
            quiet: self.quiet,
            render: self.render,
            threshold: opt_text(self.threshold),
            batch_dir: opt_text(self.batch_dir),
            out_dir: opt_text(self.out_dir),
            skip_existing: self.skip_existing,
            force: self.force,
            jobs: self.jobs,
            extensions: opt_text(self.extensions),
            dry_run: self.dry_run,
            no_progress: self.no_progress,
            inputs: string_views(self.inputs@),
        }
    }
}

/// What the command line asks for.
pub enum CliCommand {
    /// Print the manual.
    Help,
    /// Print the version.
    Version,
    /// Nothing to do: print the usage.
    Usage,
    /// Analyse with these options.
    Run(CliOptions),
}

/// Mathematical model of a [`CliCommand`].
pub enum CommandModel {
    Help,
    Version,
    Usage,
    Run(OptionsModel),
}

impl View for CliCommand {
    type V = CommandModel;

    open spec fn view(&self) -> CommandModel {
        match self {
            CliCommand::Help => CommandModel::Help,
            CliCommand::Version => CommandModel::Version,
            CliCommand::Usage => CommandModel::Usage,
            CliCommand::Run(o) => CommandModel::Run(o@),
        }
    }
}

/// The options before any argument is read.
pub open spec fn initial_options() -> OptionsModel {
    OptionsModel {
        config_path: None,
        onset: false,
        beat: false,
        quiet: false,
        render: false,
        threshold: None,
        batch_dir: None,
        out_dir: None,
        skip_existing: true,
        force: false,
        jobs: None,
        extensions: None,
        dry_run: false,
        no_progress: false,
        inputs: seq![],
    }
}

/// What `s.parse::<usize>()` gives.
pub open spec fn parse_usize(s: Seq<char>) -> Option<usize> {
    match parse_u64(s) {
        Some(v) => if v <= usize::MAX {
            Some(v as usize)
        } else {
            None
        },
        None => None,
    }
}

/// `a` is one of the words `w0`, `w1`, `w2`.
pub open spec fn is_one_of(a: Seq<char>, w0: Seq<char>, w1: Seq<char>, w2: Seq<char>) -> bool {
    a == w0 || a == w1 || a == w2
}

/// `a` asks for the manual.
pub open spec fn is_help_word(a: Seq<char>) -> bool {
    is_one_of(a, "-h"@, "--help"@, "help"@)
}

/// `a` asks for the version.
pub open spec fn is_version_word(a: Seq<char>) -> bool {
    is_one_of(a, "-v"@, "--version"@, "version"@)
}

/// Reads the arguments from position `i` on into the options `o`, from left
/// to right; an option that takes a value takes the next argument.
pub open spec fn scan_args(
    args: Seq<Seq<char>>,
    is_float: Seq<bool>,
    exists: Seq<bool>,
    i: nat,
    o: OptionsModel,
) -> Result<OptionsModel, CliError>
    decreases args.len() - i,
{
    if i >= args.len() {
        Ok(o)
    } else {
        let a = args[i as int];
        let has_value = i + 1 < args.len();
        if a == "--config"@ {
            if has_value {
                scan_args(args, is_float, exists, i + 2, OptionsModel { config_path: Some(args[i as int + 1]), ..o })
            } else {
                Err(CliError::MissingConfigPath)
            }
        } else if a == "--threshold"@ {
            if !has_value {
                Err(CliError::MissingThreshold)
            } else if !is_float[i as int + 1] {
                Err(CliError::InvalidThreshold)
            } else {
                scan_args(args, is_float, exists, i + 2, OptionsModel { threshold: Some(args[i as int + 1]), ..o })
            }
        } else if a == "--onset"@ {
            scan_args(args, is_float, exists, i + 1, OptionsModel { onset: true, ..o })
        } else if a == "--beat"@ {
            scan_args(args, is_float, exists, i + 1, OptionsModel { beat: true, ..o })
        } else if a == "--quiet"@ || a == "-q"@ {
            scan_args(args, is_float, exists, i + 1, OptionsModel { quiet: true, ..o })
        } else if a == "--render"@ {
            scan_args(args, is_float, exists, i + 1, OptionsModel { render: true, ..o })
        } else if a == "--batch"@ {
            if has_value {
                scan_args(args, is_float, exists, i + 2, OptionsModel { batch_dir: Some(args[i as int + 1]), ..o })
            } else {
                Err(CliError::MissingBatchDir)
            }
        } else if a == "--out-dir"@ {
            if has_value {
                scan_args(args, is_float, exists, i + 2, OptionsModel { out_dir: Some(args[i as int + 1]), ..o })
            } else {
                Err(CliError::MissingOutDir)
            }
        } else if a == "--skip-existing"@ {
            scan_args(args, is_float, exists, i + 1, OptionsModel { skip_existing: true, ..o })
        } else if a == "--force"@ {
            scan_args(
                args,
                is_float,
                exists,
                i + 1,
                OptionsModel { force: true, skip_existing: false, ..o },
            )
        } else if a == "-j"@ || a == "--jobs"@ {
            if !has_value {
                Err(CliError::MissingJobs)
            } else {
                match parse_usize(args[i as int + 1]) {
                    Some(n) => scan_args(args, is_float, exists, i + 2, OptionsModel { jobs: Some(n), ..o }),
                    None => Err(CliError::InvalidJobs),
                }
            }
        } else if a == "--ext"@ {
            if has_value {
                scan_args(args, is_float, exists, i + 2, OptionsModel { extensions: Some(args[i as int + 1]), ..o })
            } else {
                Err(CliError::MissingExtensions)
            }
        } else if a == "--dry-run"@ {
            scan_args(args, is_float, exists, i + 1, OptionsModel { dry_run: true, ..o })
        } else if a == "--no-progress"@ {
            scan_args(args, is_float, exists, i + 1, OptionsModel { no_progress: true, ..o })
        } else if a.len() > 0 && a[0] == '-' && !exists[i as int] {
            Err(CliError::UnknownOption { position: i as usize })
        } else {
            scan_args(args, is_float, exists, i + 1, OptionsModel { inputs: o.inputs.push(a), ..o })
        }
    }
}

/// The command that the arguments (the program name first) ask for: the
/// manual or the version when any argument asks for it; the usage when there
/// is nothing else, or when no input and no batch directory is given; and
/// otherwise a run with the options read from the arguments after the
/// program name.
pub open spec fn spec_parse_cli(args: Seq<Seq<char>>, is_float: Seq<bool>, exists: Seq<bool>) -> Result<
    CommandModel,
    CliError,
> {
    if exists|k: int| 0 <= k < args.len() && is_help_word(#[trigger] args[k]) {
        Ok(CommandModel::Help)
    } else if exists|k: int| 0 <= k < args.len() && is_version_word(#[trigger] args[k]) {
        Ok(CommandModel::Version)
    } else if args.len() < 2 {
        Ok(CommandModel::Usage)
    } else {
        match scan_args(args, is_float, exists, 1, initial_options()) {
            Err(e) => Err(e),
            Ok(o) => if o.inputs.len() == 0 && o.batch_dir is None {
                Ok(CommandModel::Usage)
            } else {
                Ok(CommandModel::Run(o))
            },
        }
    }
}

/// The view of a command-line result.
pub open spec fn cli_result_view(r: Result<CliCommand, CliError>) -> Result<CommandModel, CliError> {
    match r {
        Ok(c) => Ok(c@),
        Err(e) => Err(e),
    }
}

// ---------------------------------------------------------------------------
// Parsing
// ---------------------------------------------------------------------------

/// Whether `a` and `b` are the same text.
fn same_text(a: &str, b: &str) -> (r: bool)
    ensures
        r == (a@ == b@),
{
    let n = a.unicode_len();
    if n != b.unicode_len() {
        return false;
    }
    let mut i: usize = 0;
    while i < n
        invariant
            i <= n,
            n == a@.len(),
            n == b@.len(),
            forall|j: int| 0 <= j < i ==> a@[j] == b@[j],
        decreases n - i,
    {
        if a.get_char(i) != b.get_char(i) {
            return false;
        }
        i = i + 1;
    }
    assert(a@ =~= b@);
    true
}

/// `s.parse::<usize>()`.
fn parse_count(s: &str) -> (r: Option<usize>)
    ensures
        r == parse_usize(s@),
{
    let v = chars_of(s);
    assert(v@.subrange(0, v@.len() as int) =~= v@);
    match parse_u64_window(&v, 0, v.len()) {
        Some(n) => {
            if n <= usize::MAX as u64 {
                Some(n as usize)
            } else {
                None
            }
        },
        None => None,
    }
}

/// Whether any argument is one of the words `w0`, `w1`, `w2`.
fn any_word(args: &Vec<String>, w0: &str, w1: &str, w2: &str) -> (r: bool)
    ensures
        r == exists|k: int| 0 <= k < args@.len() && is_one_of(#[trigger] string_views(args@)[k], w0@, w1@, w2@),
{
    let ghost views = string_views(args@);
    let mut k: usize = 0;
    while k < args.len()
        invariant
            k <= args.len(),
            views == string_views(args@),
            forall|j: int| 0 <= j < k ==> !is_one_of(#[trigger] views[j], w0@, w1@, w2@),
        decreases args.len() - k,
    {
        let a = args[k].as_str();
        assert(a@ == views[k as int]);
        if same_text(a, w0) || same_text(a, w1) || same_text(a, w2) {
            return true;
        }
        k = k + 1;
    }
    false
}

/// The options before any argument is read.
fn fresh_options() -> (o: CliOptions)
    ensures
        o@ == initial_options(),
{
    let o = CliOptions {
        config_path: None,
        onset: false,
        beat: false,
        quiet: false,
        render: false,
        threshold: None,
        batch_dir: None,
        out_dir: None,
        skip_existing: true,
        force: false,
        jobs: None,
        extensions: None,
        dry_run: false,
        no_progress: false,
        inputs: Vec::new(),
    };
    assert(o@.inputs =~= seq![]);
    o
}

/// Reads the command line `args` (the program name first). `is_float[k]`
/// tells whether `args[k]` reads as a floating-point number, and
/// `exists[k]` whether a file or directory named `args[k]` exists.
pub fn parse_cli(args: &Vec<String>, is_float: &Vec<bool>, exists: &Vec<bool>) -> (r: Result<
    CliCommand,
    CliError,
>)
    requires
        is_float@.len() == args@.len(),
        exists@.len() == args@.len(),
    ensures
        cli_result_view(r) == spec_parse_cli(string_views(args@), is_float@, exists@),
{
    let ghost views = string_views(args@);
    proof {
        assert forall|k: int| 0 <= k < args@.len() implies views[k] == args@[k]@ by {}
    }
    let ghost no_help = !exists|k: int| 0 <= k < views.len() && is_help_word(#[trigger] views[k]);
    let ghost no_version = !exists|k: int| 0 <= k < views.len() && is_version_word(#[trigger] views[k]);
    if any_word(args, "-h", "--help", "help") {
        return Ok(CliCommand::Help);
    }
    if any_word(args, "-v", "--version", "version") {
        return Ok(CliCommand::Version);
    }
    assert(no_help && no_version);
    if args.len() < 2 {
        return Ok(CliCommand::Usage);
    }
    let n = args.len();
    let mut o = fresh_options();
    let mut i: usize = 1;
    while i < n
        invariant
            1 <= i <= n == args@.len(),
            is_float@.len() == n,
            exists@.len() == n,
            views == string_views(args@),
            no_help && no_version,
            no_help == !exists|k: int| 0 <= k < views.len() && is_help_word(#[trigger] views[k]),
            no_version == !exists|k: int| 0 <= k < views.len() && is_version_word(#[trigger] views[k]),
            scan_args(views, is_float@, exists@, i as nat, o@) == scan_args(
                views,
                is_float@,
                exists@,
                1,
                initial_options(),
            ),
        decreases n - i,
    {
        let a = args[i].as_str();
        assert(a@ == views[i as int]);
        let has_value = i + 1 < n;
        if same_text(a, "--config") {
            if !has_value {
                return Err(CliError::MissingConfigPath);
            }
            o.config_path = Some(args[i + 1].clone());
            i = i + 2;
        } else if same_text(a, "--threshold") {
            if !has_value {
                return Err(CliError::MissingThreshold);
            }
            if !is_float[i + 1] {
                return Err(CliError::InvalidThreshold);
            }
            o.threshold = Some(args[i + 1].clone());
            i = i + 2;
        } else if same_text(a, "--onset") {
            o.onset = true;
            i = i + 1;
        } else if same_text(a, "--beat") {
            o.beat = true;
            i = i + 1;
        } else if same_text(a, "--quiet") || same_text(a, "-q") {
            o.quiet = true;
            i = i + 1;
        } else if same_text(a, "--render") {
            o.render = true;
            i = i + 1;
        } else if same_text(a, "--batch") {
            if !has_value {
                return Err(CliError::MissingBatchDir);
            }
            o.batch_dir = Some(args[i + 1].clone());
            i = i + 2;
        } else if same_text(a, "--out-dir") {
            if !has_value {
                return Err(CliError::MissingOutDir);
            }
            o.out_dir = Some(args[i + 1].clone());
            i = i + 2;
        } else if same_text(a, "--skip-existing") {
            o.skip_existing = true;
            i = i + 1;
        } else if same_text(a, "--force") {
            o.force = true;
            o.skip_existing = false;
            i = i + 1;
        } else if same_text(a, "-j") || same_text(a, "--jobs") {
            if !has_value {
                return Err(CliError::MissingJobs);
            }
            match parse_count(args[i + 1].as_str()) {
                Some(count) => {
                    o.jobs = Some(count);
                },
                None => {
                    return Err(CliError::InvalidJobs);
                },
            }
            i = i + 2;
        } else if same_text(a, "--ext") {
            if !has_value {
                return Err(CliError::MissingExtensions);
            }
            o.extensions = Some(args[i + 1].clone());
            i = i + 2;
        } else if same_text(a, "--dry-run") {
            o.dry_run = true;
            i = i + 1;
        } else if same_text(a, "--no-progress") {
            o.no_progress = true;
            i = i + 1;
        } else if a.unicode_len() > 0 && a.get_char(0) == '-' && !exists[i] {
            return Err(CliError::UnknownOption { position: i });
        } else {
            let ghost before = o.inputs@;
            o.inputs.push(args[i].clone());
            assert(string_views(o.inputs@) =~= string_views(before).push(views[i as int]));
            i = i + 1;
        }
    }
    if o.inputs.len() == 0 && o.batch_dir.is_none() {
        return Ok(CliCommand::Usage);
    }
    Ok(CliCommand::Run(o))
}

} // verus!
