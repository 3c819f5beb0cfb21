//! The build-and-diff job: how the build command is put together, how its
//! outcome is judged, and in which steps the job runs.

use crate::config::{copy_selection, AppConfig, ObjectConfig};
use crate::diff::{DiffAlg, DiffObjConfig};
use crate::obj::ObjInfo;
use crate::text::{copy_text, strip_prefix, text_views};
use path_slash::PathExt;
use vstd::prelude::*;
use vstd::utf8::{decode_utf8, valid_utf8};

verus! {

/// How a build ended.
#[derive(Clone, Debug, PartialEq, Eq)]
pub struct BuildStatus {
    pub success: bool,
    pub cmdline: String,
    pub stdout: String,
    pub stderr: String,
}

impl Default for BuildStatus {
    /// The status of a build that did not have to run: a success without output.
    fn default() -> (status: BuildStatus)
        ensures
            status.success,
            status.cmdline@.len() == 0,
            status.stdout@.len() == 0,
            status.stderr@.len() == 0,
    {
        BuildStatus {
            success: true,
            cmdline: String::new(),
            stdout: String::new(),
            stderr: String::new(),
        }
    }
}

/// What a build needs to know of the settings.
#[derive(Clone, Debug, PartialEq, Eq)]
pub struct BuildConfig {
    pub project_dir: Option<String>,
    pub custom_make: Option<String>,
    pub selected_wsl_distro: Option<String>,
}

impl BuildConfig {
    /// The part of the settings that a build needs.
    pub fn from_config(config: &AppConfig) -> (build: BuildConfig)
        ensures
            build.project_dir == config.project_dir,
            build.custom_make == config.custom_make,
            build.selected_wsl_distro == config.selected_wsl_distro,
    {
        BuildConfig {
            project_dir: copy_text(&config.project_dir),
            custom_make: copy_text(&config.custom_make),
            selected_wsl_distro: copy_text(&config.selected_wsl_distro),
        }
    }
}

/// What the build-and-diff job needs to know of the settings.
#[derive(Clone, Debug, PartialEq, Eq)]
pub struct ObjDiffConfig {
    pub build_config: BuildConfig,
    pub build_base: bool,
    pub build_target: bool,
    pub selected_obj: Option<ObjectConfig>,
    pub code_alg: DiffAlg,
    pub data_alg: DiffAlg,
    pub relax_reloc_diffs: bool,
}

impl ObjDiffConfig {
    /// The part of the settings that the build-and-diff job needs.
    pub fn from_config(config: &AppConfig) -> (job: ObjDiffConfig)
        ensures
            job.build_config.project_dir == config.project_dir,
            job.build_config.custom_make == config.custom_make,
            job.build_config.selected_wsl_distro == config.selected_wsl_distro,
            job.build_base == config.build_base,
            job.build_target == config.build_target,
            job.selected_obj == config.selected_obj,
            job.code_alg == config.code_alg,
            job.data_alg == config.data_alg,
            job.relax_reloc_diffs == config.relax_reloc_diffs,
    {
        ObjDiffConfig {
            build_config: BuildConfig::from_config(config),
            build_base: config.build_base,
            build_target: config.build_target,
            selected_obj: copy_selection(&config.selected_obj),
            code_alg: config.code_alg,
            data_alg: config.data_alg,
            relax_reloc_diffs: config.relax_reloc_diffs,
        }
    }

    /// The settings of the diff pass of this job.
    pub fn diff_config(&self) -> (config: DiffObjConfig)
        ensures
            config == (DiffObjConfig {
                code_alg: self.code_alg,
                data_alg: self.data_alg,
                relax_reloc_diffs: self.relax_reloc_diffs,
            }),
    {
        DiffObjConfig {
            code_alg: self.code_alg,
            data_alg: self.data_alg,
            relax_reloc_diffs: self.relax_reloc_diffs,
        }
    }
}

/// What the build-and-diff job hands back: how the two builds ended, the
/// two images as far as they were loaded and diffed, and when the builds
/// were done, in seconds since the start of 1970.
#[derive(Clone, Debug, PartialEq, Eq)]
pub struct ObjDiffResult {
    pub first_status: BuildStatus,
    pub second_status: BuildStatus,
    pub first_obj: Option<ObjInfo>,
    pub second_obj: Option<ObjInfo>,
    pub time: i64,
}

/// The command that builds an object.
#[derive(Clone, Debug, PartialEq, Eq)]
pub struct MakeCommand {
    pub program: String,
    /// The directory to run the program in, where it is not told by an argument.
    pub current_dir: Option<String>,
    pub args: Vec<String>,
    /// Whether the program is to run without a console window of its own.
    pub no_window: bool,
}

/// The make program of a build: the one that the user has set, else `make`.
pub open spec fn make_program(config: BuildConfig) -> Seq<char> {
    match config.custom_make {
        Some(make) => make@,
        None => "make"@,
    }
}

/// Whether the build runs inside a Linux distribution on Windows.
pub open spec fn runs_in_wsl(config: BuildConfig, windows: bool) -> bool {
    windows && config.selected_wsl_distro is Some
}

/// The program that is started for a build.
pub open spec fn command_program(config: BuildConfig, windows: bool) -> Seq<char> {
    if runs_in_wsl(config, windows) {
        "wsl"@
    } else {
        make_program(config)
    }
}

/// The arguments of the program that is started for a build of `arg` in
/// the directory `cwd`; `slashed` is `arg` with forward slashes.
pub open spec fn command_args(
    config: BuildConfig,
    cwd: Seq<char>,
    arg: Seq<char>,
    slashed: Seq<char>,
    windows: bool,
) -> Seq<Seq<char>> {
    if runs_in_wsl(config, windows) {
        seq![
            "--cd"@,
            cwd,
            "-d"@,
            config.selected_wsl_distro.unwrap()@,
            "--"@,
            make_program(config),
            slashed,
        ]
    } else if windows {
        seq![slashed]
    } else {
        seq![arg]
    }
}

/// `cmd` is the command for a build of `arg` in the directory `cwd`.
pub open spec fn is_make_command(
    cmd: MakeCommand,
    config: BuildConfig,
    cwd: Seq<char>,
    arg: Seq<char>,
    slashed: Seq<char>,
    windows: bool,
) -> bool {
    &&& cmd.program@ == command_program(config, windows)
    &&& text_views(cmd.args@) == command_args(config, cwd, arg, slashed, windows)
    &&& cmd.no_window == windows
    &&& if runs_in_wsl(config, windows) {
        cmd.current_dir is None
    } else {
        cmd.current_dir matches Some(dir) && dir@ == cwd
    }
}

/// A build that failed before or after the program ran: the message is all
/// that it reports.
pub open spec fn is_failure(status: BuildStatus, message: Seq<char>) -> bool {
    &&& !status.success
    &&& status.stderr@ == message
    &&& status.cmdline@.len() == 0
    &&& status.stdout@.len() == 0
}

/// The status of a build that failed with the message `message`.
pub fn failed_status(message: &str) -> (status: BuildStatus)
    ensures
        is_failure(status, message@),
{
    BuildStatus {
        success: false,
        cmdline: String::new(),
        stdout: String::new(),
        stderr: String::from_str(message),
    }
}

/// The status of a build whose program could not be started.
pub fn failed_to_execute() -> (status: BuildStatus)
    ensures
        is_failure(status, "Failed to execute build"@),
{
    failed_status("Failed to execute build")
}

/// `path_slash::PathExt::to_slash_lossy`: the path with forward slashes
/// between its components. What comes back depends on the platform, so
/// nothing is said of it.
#[verifier::external_body]
fn to_slash(path: &String) -> (slashed: String) {
    std::path::Path::new(path.as_str()).to_slash_lossy().into_owned()
}

/// The command for a build of `arg` in the directory `cwd`, where `slashed`
/// is `arg` with forward slashes. On Windows the argument is handed over
/// with forward slashes, and where a Linux distribution is selected the make
/// program runs inside it.
pub fn make_command(
    config: &BuildConfig,
    cwd: &String,
    arg: &String,
    slashed: String,
    windows: bool,
) -> (cmd: MakeCommand)
    ensures
        is_make_command(cmd, *config, cwd@, arg@, slashed@, windows),
{
    let make = match &config.custom_make {
        Some(make) => make.clone(),
        None => String::from_str("make"),
    };
    let ghost slashed_view = slashed@;
    if windows {
        match &config.selected_wsl_distro {
            Some(distro) => {
                let mut args: Vec<String> = Vec::new();
                args.push(String::from_str("--cd"));
                args.push(cwd.clone());
                args.push(String::from_str("-d"));
                args.push(distro.clone());
                args.push(String::from_str("--"));
                args.push(make);
                args.push(slashed);
                proof {
                    assert(text_views(args@) =~= command_args(
                        *config,
                        cwd@,
                        arg@,
                        slashed_view,
                        windows,
                    ));
                }
                MakeCommand {
                    program: String::from_str("wsl"),
                    current_dir: None,
                    args,
                    no_window: true,
                }
            },
            None => {
                let mut args: Vec<String> = Vec::new();
                args.push(slashed);
                proof {
                    assert(text_views(args@) =~= command_args(
                        *config,
                        cwd@,
                        arg@,
                        slashed_view,
                        windows,
                    ));
                }
                MakeCommand { program: make, current_dir: Some(cwd.clone()), args, no_window: true }
            },
        }
    } else {
        let mut args: Vec<String> = Vec::new();
        args.push(arg.clone());
        proof {
            assert(text_views(args@) =~= command_args(*config, cwd@, arg@, slashed_view, windows));
        }
        MakeCommand { program: make, current_dir: Some(cwd.clone()), args, no_window: false }
    }
}

/// Plans the build of `arg`: the command to run, or the status of a build
/// that cannot run because the project has no directory.
pub fn plan_make(config: &BuildConfig, arg: &String, windows: bool) -> (r: Result<
    MakeCommand,
    BuildStatus,
>)
    ensures
        r is Err <==> config.project_dir is None,
        r matches Err(status) ==> is_failure(status, "Missing project dir"@),
        r matches Ok(cmd) ==> exists|slashed: Seq<char>|
            is_make_command(cmd, *config, config.project_dir.unwrap()@, arg@, slashed, windows),
{
    match &config.project_dir {
        None => Err(failed_status("Missing project dir")),
        Some(cwd) => {
            let slashed = if windows {
                to_slash(arg)
            } else {
                arg.clone()
            };
            let ghost witness = slashed@;
            let cmd = make_command(config, cwd, arg, slashed, windows);
            proof {
                assert(is_make_command(cmd, *config, cwd@, arg@, witness, windows));
            }
            Ok(cmd)
        },
    }
}

/// The parts of a command line with one space between neighbours.
pub open spec fn joined(parts: Seq<Seq<char>>) -> Seq<char>
    decreases parts.len(),
{
    if parts.len() == 0 {
        Seq::empty()
    } else if parts.len() == 1 {
        parts[0]
    } else {
        joined(parts.drop_last()) + seq![' '] + parts.last()
    }
}

/// Joins the parts of a command line with one space between neighbours.
pub fn join_parts(parts: &Vec<String>) -> (line: String)
    ensures
        line@ == joined(text_views(parts@)),
{
    let ghost views = text_views(parts@);
    let mut line = String::new();
    let mut k: usize = 0;
    proof {
        assert(views.take(0) =~= Seq::<Seq<char>>::empty());
    }
    while k < parts.len()
        invariant
            k <= parts.len(),
            views == text_views(parts@),
            line@ == joined(views.take(k as int)),
        decreases parts.len() - k,
    {
        proof {
            reveal_strlit(" ");
            assert(views.take(k + 1).drop_last() =~= views.take(k as int));
            assert(views.take(k + 1).last() == parts@[k as int]@);
            assert(" "@ =~= seq![' ']);
        }
        if k > 0 {
            line.append(" ");
        }
        line.append(parts[k].as_str());
        proof {
            if k == 0 {
                assert(line@ =~= parts@[0]@);
            }
        }
        k = k + 1;
    }
    proof {
        assert(views.take(k as int) =~= views);
    }
    line
}

/// A character that every shell takes as it is: a letter, a digit, or one
/// of `-`, `_`, `=`, `/`, `,`, `.` and `+`.
pub open spec fn plain_char(c: char) -> bool {
    ('a' <= c && c <= 'z') || ('A' <= c && c <= 'Z') || ('0' <= c && c <= '9') || c == '-' || c
        == '_' || c == '=' || c == '/' || c == ',' || c == '.' || c == '+'
}

/// A text that every shell takes as one word without quotes: it is not
/// empty and holds plain characters only.
pub open spec fn plain_word(text: Seq<char>) -> bool {
    text.len() > 0 && forall|k: int| 0 <= k < text.len() ==> plain_char(#[trigger] text[k])
}

/// The characters of `part` stand in `text` in their order, with or
/// without other characters between and around them.
pub open spec fn runs_through(part: Seq<char>, text: Seq<char>) -> bool
    decreases text.len(),
{
    if part.len() == 0 {
        true
    } else if text.len() == 0 {
        false
    } else if part[0] == text[0] {
        runs_through(part.drop_first(), text.drop_first())
    } else {
        runs_through(part, text.drop_first())
    }
}

/// A text that no shell takes as one word unless it is quoted: the empty
/// text, and a text that holds a space, a tab, a line feed or a double
/// quote.
pub open spec fn needs_quotes(text: Seq<char>) -> bool {
    text.len() == 0 || exists|k: int|
        0 <= k < text.len() && (#[trigger] text[k] == ' ' || text[k] == '\t' || text[k] == '\n'
            || text[k] == '"')
}

/// `shell_escape::escape`: the text, quoted where a shell would not take it
/// as one word. How it quotes depends on the platform and the environment;
/// whatever they are, what comes back is never empty, a plain word comes
/// back as it is, no character of the text is left out or moved, and a
/// text that needs quotes comes back between two quotes, so at least two
/// characters longer.
#[verifier::external_body]
fn escape_part(part: &String) -> (escaped: String)
    ensures
        escaped@.len() > 0,
        plain_word(part@) ==> escaped@ == part@,
        runs_through(part@, escaped@),
        needs_quotes(part@) ==> escaped@.len() >= part@.len() + 2,
{
    shell_escape::escape(std::borrow::Cow::Borrowed(part.as_str())).into_owned()
}

/// The program and the arguments of a command, in order.
pub open spec fn command_parts(cmd: MakeCommand) -> Seq<Seq<char>> {
    seq![cmd.program@] + text_views(cmd.args@)
}

/// `escaped[k]` is a text that the part `part` may be shown by: it is not
/// empty and holds the characters of the part in their order; it is the
/// part itself where the part is a plain word, and it is longer than the
/// part, so not the part itself, where the part needs quotes.
pub open spec fn shows(escaped: Seq<char>, part: Seq<char>) -> bool {
    &&& escaped.len() > 0
    &&& runs_through(part, escaped)
    &&& plain_word(part) ==> escaped == part
    &&& needs_quotes(part) ==> escaped.len() >= part.len() + 2 && escaped != part
}

/// `escaped` holds one text for every part, by which the part may be shown.
pub open spec fn escapes(escaped: Seq<Seq<char>>, parts: Seq<Seq<char>>) -> bool {
    &&& escaped.len() == parts.len()
    &&& forall|k: int| 0 <= k < parts.len() ==> shows(#[trigger] escaped[k], parts[k])
}

/// Every part of the command is a plain word.
pub open spec fn all_plain(parts: Seq<Seq<char>>) -> bool {
    forall|k: int| 0 <= k < parts.len() ==> plain_word(#[trigger] parts[k])
}

/// The command line that a command is shown by: the program and its
/// arguments, each escaped for a shell, with one space between neighbours.
/// A command of plain words is shown as it is, and a part that needs quotes
/// is never shown as it is.
pub fn command_line(cmd: &MakeCommand) -> (line: String)
    ensures
        exists|escaped: Seq<Seq<char>>|
            escapes(escaped, command_parts(*cmd)) && line@ == joined(escaped),
        all_plain(command_parts(*cmd)) ==> line@ == joined(command_parts(*cmd)),
{
    let ghost inputs = command_parts(*cmd);
    let mut parts: Vec<String> = Vec::new();
    parts.push(escape_part(&cmd.program));
    let mut k: usize = 0;
    while k < cmd.args.len()
        invariant
            k <= cmd.args.len(),
            parts.len() == k + 1,
            inputs == command_parts(*cmd),
            forall|t: int| 0 <= t < parts.len() ==> shows((#[trigger] parts@[t])@, inputs[t]),
        decreases cmd.args.len() - k,
    {
        proof {
            assert(inputs[k + 1] == cmd.args@[k as int]@);
        }
        parts.push(escape_part(&cmd.args[k]));
        k = k + 1;
    }
    let line = join_parts(&parts);
    proof {
        let escaped = text_views(parts@);
        assert forall|t: int| 0 <= t < inputs.len() implies shows(
            #[trigger] escaped[t],
            inputs[t],
        ) by {
            assert(shows(parts@[t]@, inputs[t]));
        }
        assert(escapes(escaped, inputs));
        if all_plain(inputs) {
            assert(escaped =~= inputs);
        }
    }
    line
}

/// `String::from_utf8` of the standard library: the text that the bytes
/// encode, and nothing where they are not valid UTF-8.
#[verifier::external_body]
fn utf8_text(bytes: Vec<u8>) -> (text: Option<String>)
    ensures
        match text {
            Some(decoded) => valid_utf8(bytes@) && decoded@ == decode_utf8(bytes@),
            None => !valid_utf8(bytes@),
        },
{
    String::from_utf8(bytes).ok()
}

/// Judges a build whose program has run: it succeeded where the program
/// ended with the exit code zero. Output that is not valid UTF-8 makes the
/// build a failure that reports nothing but that.
pub fn finish_make(cmdline: String, exit_code: Option<i32>, stdout: Vec<u8>, stderr: Vec<u8>) -> (status:
    BuildStatus)
    ensures
        !valid_utf8(stdout@) ==> is_failure(status, "Failed to process stdout"@),
        valid_utf8(stdout@) && !valid_utf8(stderr@) ==> is_failure(
            status,
            "Failed to process stderr"@,
        ),
        valid_utf8(stdout@) && valid_utf8(stderr@) ==> status.success == (exit_code == Some(0i32))
            && status.cmdline == cmdline && status.stdout@ == decode_utf8(stdout@)
            && status.stderr@ == decode_utf8(stderr@),
{
    match utf8_text(stdout) {
        None => failed_status("Failed to process stdout"),
        Some(out) => match utf8_text(stderr) {
            None => failed_status("Failed to process stderr"),
            Some(err) => {
                let success = match exit_code {
                    Some(code) => code == 0,
                    None => false,
                };
                BuildStatus { success, cmdline, stdout: out, stderr: err }
            },
        },
    }
}

/// Why a build-and-diff job cannot start.
#[derive(Clone, Debug, PartialEq, Eq)]
pub enum BuildError {
    /// No object is selected.
    MissingObjPath,
    /// The project has no directory.
    MissingProjectDir,
    /// The target object does not lie in the project directory.
    TargetOutside { path: String, project_dir: String },
    /// The base object does not lie in the project directory.
    BaseOutside { path: String, project_dir: String },
}

impl BuildError {
    /// The message that the error is reported by.
    pub open spec fn message_spec(self) -> Seq<char> {
        match self {
            BuildError::MissingObjPath => "Missing obj path"@,
            BuildError::MissingProjectDir => "Missing project dir"@,
            BuildError::TargetOutside { path, project_dir } => "Target path '"@ + path@
                + "' doesn't begin with '"@ + project_dir@ + "'"@,
            BuildError::BaseOutside { path, project_dir } => "Base path '"@ + path@
                + "' doesn't begin with '"@ + project_dir@ + "'"@,
        }
    }

    /// The message that the error is reported by.
    pub fn message(&self) -> (text: String)
        ensures
            text@ == self.message_spec(),
    {
        match self {
            BuildError::MissingObjPath => String::from_str("Missing obj path"),
            BuildError::MissingProjectDir => String::from_str("Missing project dir"),
            BuildError::TargetOutside { path, project_dir } => {
                let mut text = String::from_str("Target path '");
                text.append(path.as_str());
                text.append("' doesn't begin with '");
                text.append(project_dir.as_str());
                text.append("'");
                text
            },
            BuildError::BaseOutside { path, project_dir } => {
                let mut text = String::from_str("Base path '");
                text.append(path.as_str());
                text.append("' doesn't begin with '");
                text.append(project_dir.as_str());
                text.append("'");
                text
            },
        }
    }
}

/// A step of the build-and-diff job.
#[derive(Clone, Copy, Debug, PartialEq, Eq, Structural)]
pub enum BuildStage {
    BuildTarget,
    BuildBase,
    LoadTarget,
    LoadBase,
    Diff,
    Complete,
}

/// The step that a job starts with.
pub fn first_stage() -> (stage: BuildStage)
    ensures
        stage == BuildStage::BuildTarget,
{
    BuildStage::BuildTarget
}

/// The step that follows a step: the target is built before the base, both
/// are built before either is loaded, the target is loaded before the base,
/// then comes the diff, and the job is complete; nothing follows that.
pub fn next_stage(stage: BuildStage) -> (next: Option<BuildStage>)
    ensures
        next == match stage {
            BuildStage::BuildTarget => Some(BuildStage::BuildBase),
            BuildStage::BuildBase => Some(BuildStage::LoadTarget),
            BuildStage::LoadTarget => Some(BuildStage::LoadBase),
            BuildStage::LoadBase => Some(BuildStage::Diff),
            BuildStage::Diff => Some(BuildStage::Complete),
            BuildStage::Complete => None,
        },
{
    match stage {
        BuildStage::BuildTarget => Some(BuildStage::BuildBase),
        BuildStage::BuildBase => Some(BuildStage::LoadTarget),
        BuildStage::LoadTarget => Some(BuildStage::LoadBase),
        BuildStage::LoadBase => Some(BuildStage::Diff),
        BuildStage::Diff => Some(BuildStage::Complete),
        BuildStage::Complete => None,
    }
}

/// The status of one side of a job: that of its build where the build ran,
/// and the quiet success of a build that did not have to run.
pub fn status_of(ran: Option<BuildStatus>) -> (status: BuildStatus)
    ensures
        match ran {
            Some(given) => status == given,
            None => status.success && status.cmdline@.len() == 0 && status.stdout@.len() == 0
                && status.stderr@.len() == 0,
        },
{
    match ran {
        Some(given) => given,
        None => BuildStatus::default(),
    }
}

/// What a build-and-diff job is going to do.
#[derive(Clone, Debug, PartialEq, Eq)]
pub struct BuildPlan {
    /// The target object relative to the project directory, if there is one.
    pub target_rel: Option<String>,
    /// The base object relative to the project directory, if there is one.
    pub base_rel: Option<String>,
    pub build_target: bool,
    pub build_base: bool,
    /// The number of steps that the progress of the job is counted in.
    pub total: u32,
}

/// The number of steps of a job: three, and one for each object that is built.
pub open spec fn total_steps(builds_target: bool, builds_base: bool) -> int {
    3 + if builds_target {
        1int
    } else {
        0int
    } + if builds_base {
        1int
    } else {
        0int
    }
}

/// The plan of a job from its settings and from what is left of the paths
/// of the two objects when the project directory is taken from their front:
/// `target_rel` for the target object and `base_rel` for the base object,
/// each nothing where the object does not lie in the project directory.
pub fn make_plan(config: &ObjDiffConfig, target_rel: Option<String>, base_rel: Option<String>) -> (r:
    Result<BuildPlan, BuildError>)
    ensures
        config.selected_obj is None ==> r == Err::<BuildPlan, BuildError>(
            BuildError::MissingObjPath,
        ),
        config.selected_obj is Some && config.build_config.project_dir is None ==> r == Err::<
            BuildPlan,
            BuildError,
        >(BuildError::MissingProjectDir),
        config.selected_obj is Some && config.build_config.project_dir is Some ==> ({
            let obj = config.selected_obj.unwrap();
            let dir = config.build_config.project_dir.unwrap();
            if obj.target_path is Some && target_rel is None {
                r == Err::<BuildPlan, BuildError>(
                    BuildError::TargetOutside { path: obj.target_path.unwrap(), project_dir: dir },
                )
            } else if obj.base_path is Some && base_rel is None {
                r == Err::<BuildPlan, BuildError>(
                    BuildError::BaseOutside { path: obj.base_path.unwrap(), project_dir: dir },
                )
            } else {
                let target = if obj.target_path is Some {
                    target_rel
                } else {
                    None
                };
                let base = if obj.base_path is Some {
                    base_rel
                } else {
                    None
                };
                r matches Ok(plan) && plan.target_rel == target && plan.base_rel == base
                    && plan.build_target == config.build_target && plan.build_base
                    == config.build_base && plan.total == total_steps(
                    config.build_target && target is Some,
                    config.build_base && base is Some,
                )
            }
        }),
{
    let obj = match &config.selected_obj {
        Some(obj) => obj,
        None => {
            return Err(BuildError::MissingObjPath);
        },
    };
    let dir = match &config.build_config.project_dir {
        Some(dir) => dir,
        None => {
            return Err(BuildError::MissingProjectDir);
        },
    };
    let target = match &obj.target_path {
        Some(path) => match target_rel {
            Some(rel) => Some(rel),
            None => {
                return Err(
                    BuildError::TargetOutside { path: path.clone(), project_dir: dir.clone() },
                );
            },
        },
        None => None,
    };
    let base = match &obj.base_path {
        Some(path) => match base_rel {
            Some(rel) => Some(rel),
            None => {
                return Err(
                    BuildError::BaseOutside { path: path.clone(), project_dir: dir.clone() },
                );
            },
        },
        None => None,
    };
    let mut total: u32 = 3;
    if config.build_target && target.is_some() {
        total = total + 1;
    }
    if config.build_base && base.is_some() {
        total = total + 1;
    }
    Ok(
        BuildPlan {
            target_rel: target,
            base_rel: base,
            build_target: config.build_target,
            build_base: config.build_base,
            total,
        },
    )
}

/// Plans a build-and-diff job. It cannot start without a selected object
/// and a project directory, nor with an object outside that directory.
pub fn plan_build(config: &ObjDiffConfig) -> (r: Result<BuildPlan, BuildError>)
    ensures
        r == Err::<BuildPlan, BuildError>(BuildError::MissingObjPath) <==> config.selected_obj
            is None,
        r == Err::<BuildPlan, BuildError>(BuildError::MissingProjectDir) <==> config.selected_obj
            is Some && config.build_config.project_dir is None,
        r is Err && config.selected_obj is Some && config.build_config.project_dir is Some ==> (
        r matches Err(BuildError::TargetOutside { .. }) && config.selected_obj.unwrap().target_path
            is Some) || (r matches Err(BuildError::BaseOutside { .. })
            && config.selected_obj.unwrap().base_path is Some),
        config.selected_obj is Some && config.build_config.project_dir is Some
            && config.selected_obj.unwrap().target_path is None
            && config.selected_obj.unwrap().base_path is None ==> r == Ok::<BuildPlan, BuildError>(
            BuildPlan {
                target_rel: None,
                base_rel: None,
                build_target: config.build_target,
                build_base: config.build_base,
                total: 3,
            },
        ),
        r matches Ok(plan) ==> config.selected_obj is Some && plan.build_target
            == config.build_target && plan.build_base == config.build_base && (plan.target_rel
            is Some <==> config.selected_obj.unwrap().target_path is Some) && (plan.base_rel
            is Some <==> config.selected_obj.unwrap().base_path is Some) && plan.total
            == total_steps(
            config.build_target && plan.target_rel is Some,
            config.build_base && plan.base_rel is Some,
        ),
        r matches Err(BuildError::TargetOutside { path, project_dir }) ==> config.selected_obj
            is Some && config.selected_obj.unwrap().target_path == Some(path)
            && config.build_config.project_dir == Some(project_dir),
        r matches Err(BuildError::BaseOutside { path, project_dir }) ==> config.selected_obj
            is Some && config.selected_obj.unwrap().base_path == Some(path)
            && config.build_config.project_dir == Some(project_dir),
{
    let mut target_rel: Option<String> = None;
    let mut base_rel: Option<String> = None;
    match &config.selected_obj {
        Some(obj) => match &config.build_config.project_dir {
            Some(dir) => {
                match &obj.target_path {
                    Some(path) => {
                        target_rel = strip_prefix(path, dir);
                    },
                    None => {},
                }
                match &obj.base_path {
                    Some(path) => {
                        base_rel = strip_prefix(path, dir);
                    },
                    None => {},
                }
            },
            None => {},
        },
        None => {},
    }
    make_plan(config, target_rel, base_rel)
}

impl BuildPlan {
    /// Whether the job takes the step: an object is built where that is
    /// asked for and the object is there, and loaded where it is there and
    /// its build, if any, has succeeded; the diff and the end always come.
    pub fn runs(&self, stage: BuildStage, first_success: bool, second_success: bool) -> (yes: bool)
        ensures
            yes == match stage {
                BuildStage::BuildTarget => self.build_target && self.target_rel is Some,
                BuildStage::BuildBase => self.build_base && self.base_rel is Some,
                BuildStage::LoadTarget => self.target_rel is Some && first_success,
                BuildStage::LoadBase => self.base_rel is Some && second_success,
                BuildStage::Diff => true,
                BuildStage::Complete => true,
            },
    {
        match stage {
            BuildStage::BuildTarget => self.build_target && self.target_rel.is_some(),
            BuildStage::BuildBase => self.build_base && self.base_rel.is_some(),
            BuildStage::LoadTarget => self.target_rel.is_some() && first_success,
            BuildStage::LoadBase => self.base_rel.is_some() && second_success,
            BuildStage::Diff => true,
            BuildStage::Complete => true,
        }
    }

    /// How far the job has come when it takes the step.
    pub fn progress(&self, stage: BuildStage) -> (done: u32)
        ensures
            done == match stage {
                BuildStage::BuildTarget => 0,
                BuildStage::BuildBase => 0,
                BuildStage::LoadTarget => 2,
                BuildStage::LoadBase => 3,
                BuildStage::Diff => 4,
                BuildStage::Complete => self.total,
            },
    {
        match stage {
            BuildStage::BuildTarget => 0,
            BuildStage::BuildBase => 0,
            BuildStage::LoadTarget => 2,
            BuildStage::LoadBase => 3,
            BuildStage::Diff => 4,
            BuildStage::Complete => self.total,
        }
    }

    /// What the step is announced by.
    pub open spec fn message_spec(self, stage: BuildStage) -> Seq<char> {
        match stage {
            BuildStage::BuildTarget => "Building target "@ + rel_text(self.target_rel),
            BuildStage::BuildBase => "Building base "@ + rel_text(self.base_rel),
            BuildStage::LoadTarget => "Loading target "@ + rel_text(self.target_rel),
            BuildStage::LoadBase => "Loading base "@ + rel_text(self.base_rel),
            BuildStage::Diff => "Performing diff"@,
            BuildStage::Complete => "Complete"@,
        }
    }

    /// What the step is announced by.
    pub fn message(&self, stage: BuildStage) -> (text: String)
        ensures
            text@ == self.message_spec(stage),
    {
        match stage {
            BuildStage::BuildTarget => announce("Building target ", &self.target_rel),
            BuildStage::BuildBase => announce("Building base ", &self.base_rel),
            BuildStage::LoadTarget => announce("Loading target ", &self.target_rel),
            BuildStage::LoadBase => announce("Loading base ", &self.base_rel),
            BuildStage::Diff => String::from_str("Performing diff"),
            BuildStage::Complete => String::from_str("Complete"),
        }
    }
}

/// The text of a relative path, empty where there is none.
pub open spec fn rel_text(rel: Option<String>) -> Seq<char> {
    match rel {
        Some(path) => path@,
        None => Seq::empty(),
    }
}

fn announce(lead: &str, rel: &Option<String>) -> (text: String)
    ensures
        text@ == lead@ + rel_text(*rel),
{
    let mut text = String::from_str(lead);
    match rel {
        Some(path) => {
            text.append(path.as_str());
        },
        None => {
            proof {
                assert(lead@ + Seq::<char>::empty() =~= lead@);
            }
        },
    }
    text
}

/// `String::push` of the standard library: the character is put at the end
/// of the text.
#[verifier::external_body]
fn push_char(text: &mut String, c: char)
    ensures
        final(text)@ == old(text)@.push(c),
{
    text.push(c);
}

/// The text that a directory is shown by. `home_rel` is what is left of
/// the directory when the home directory is taken from its front, and
/// nothing where it does not lie there.
pub open spec fn path_text_spec(path: Option<String>, home_rel: Option<String>, sep: char) -> Seq<
    char,
> {
    match path {
        None => "[none]"@,
        Some(dir) => match home_rel {
            Some(rel) => "~"@.push(sep) + rel@,
            None => dir@,
        },
    }
}

/// The text that a directory is shown by: `[none]` where none is set, a
/// tilde, the separator and the rest where it lies in the home directory,
/// and the directory itself in every other case.
pub fn path_text(path: &Option<String>, home_rel: Option<String>, sep: char) -> (text: String)
    ensures
        text@ == path_text_spec(*path, home_rel, sep),
{
    match path {
        None => String::from_str("[none]"),
        Some(dir) => match home_rel {
            Some(rel) => {
                let mut text = String::from_str("~");
                push_char(&mut text, sep);
                text.append(rel.as_str());
                text
            },
            None => dir.clone(),
        },
    }
}

} // verus!
