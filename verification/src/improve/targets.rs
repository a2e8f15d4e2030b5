//! When a run is due, and the paths that it may change.

use vstd::prelude::*;

use crate::assistant::{
    config_file, config_file_path, guide_file, guide_file_name, hooks_dir_path, hooks_path, program, program_name,
};
use crate::code_index::rows::opt_str_view;
use crate::embed::{setting, setting_or};
use crate::letters::{lowers_to, lowers_to_word};
use crate::numeral::{parse_u64, parse_usize, read_u64, read_usize};
use crate::path::{is_under, join_path, joined_path, path_under};
use crate::text::{chars_of, owned, push_text, string_of, texts, trim, trimmed};

verus! {

/// How many new signals a run needs.
pub const DEFAULT_MIN_SIGNAL: usize = 5;

/// The model that a run uses.
pub const DEFAULT_MODEL: &'static str = "sonnet";

/// How long a run may take.
pub const DEFAULT_TIMEOUT_SECS: u64 = 900;

/// How many new signals a run needs, given what the environment sets: a value
/// that is no number counts as none.
pub fn min_signal_from_env(value: Option<&str>) -> (r: usize)
    ensures
        value is None ==> r == DEFAULT_MIN_SIGNAL,
        value is Some ==> r == match read_usize(value->0@) {
            Some(n) => n,
            None => DEFAULT_MIN_SIGNAL,
        },
{
    match value {
        Some(v) => {
            let vc = chars_of(v);
            match parse_usize(vc.as_slice()) {
                Some(n) => n,
                None => DEFAULT_MIN_SIGNAL,
            }
        },
        None => DEFAULT_MIN_SIGNAL,
    }
}

/// The model that a run uses, given what the environment sets.
pub fn model_from_env(value: Option<&str>) -> (r: String)
    ensures
        r@ == setting(opt_str_view(value), DEFAULT_MODEL@),
{
    setting_or(value, DEFAULT_MODEL)
}

/// How many seconds a run may take, given what the environment sets: a value
/// that is no number counts as none.
pub fn timeout_from_env(value: Option<&str>) -> (r: u64)
    ensures
        value is None ==> r == DEFAULT_TIMEOUT_SECS,
        value is Some ==> r == match read_u64(value->0@) {
            Some(n) => n,
            None => DEFAULT_TIMEOUT_SECS,
        },
{
    match value {
        Some(v) => {
            let vc = chars_of(v);
            match parse_u64(vc.as_slice()) {
                Some(n) => n,
                None => DEFAULT_TIMEOUT_SECS,
            }
        },
        None => DEFAULT_TIMEOUT_SECS,
    }
}

/// The predicates that say something of how the user wants to be worked with.
pub open spec fn signal_predicates() -> Seq<Seq<char>> {
    seq![
        "prefers"@,
        "rejects"@,
        "values"@,
        "frustrated-by"@,
        "wants"@,
        "avoids"@,
        "dislikes"@,
        "corrects"@,
    ]
}

/// Whether a predicate is a signal: one of the known ones, in any case and with
/// any white space around it.
pub open spec fn is_signal(predicate: Seq<char>) -> bool {
    exists|i: int|
        0 <= i < signal_predicates().len() && lowers_to(trim(predicate), #[trigger] signal_predicates()[i])
}

/// Whether a predicate is a signal.
pub fn is_signal_predicate(predicate: &str) -> (r: bool)
    ensures
        r == is_signal(predicate@),
{
    let pc = chars_of(predicate);
    let t = trimmed(pc.as_slice());
    let ghost w = signal_predicates();
    let r0 = lowers_to_word(t, "prefers");
    let r1 = lowers_to_word(t, "rejects");
    let r2 = lowers_to_word(t, "values");
    let r3 = lowers_to_word(t, "frustrated-by");
    let r4 = lowers_to_word(t, "wants");
    let r5 = lowers_to_word(t, "avoids");
    let r6 = lowers_to_word(t, "dislikes");
    let r7 = lowers_to_word(t, "corrects");
    assert(r0 == lowers_to(t@, w[0]) && r1 == lowers_to(t@, w[1]) && r2 == lowers_to(t@, w[2]) && r3 == lowers_to(
        t@,
        w[3],
    ));
    assert(r4 == lowers_to(t@, w[4]) && r5 == lowers_to(t@, w[5]) && r6 == lowers_to(t@, w[6]) && r7 == lowers_to(
        t@,
        w[7],
    ));
    r0 || r1 || r2 || r3 || r4 || r5 || r6 || r7
}

/// Whether a run goes ahead: there is enough signal, or it is forced.
pub fn should_run(signal: usize, min_signal: usize, force: bool) -> (r: bool)
    ensures
        r == (force || signal >= min_signal),
{
    force || signal >= min_signal
}

/// The only paths that a run may change.
#[derive(Debug, Clone, PartialEq, Eq)]
pub struct Targets {
    pub skills_dir: String,
    pub claude_md: String,
    pub settings_json: String,
    pub hooks_dir: String,
}

impl Targets {
    /// The four target roots, in order.
    pub open spec fn root_paths(self) -> Seq<Seq<char>> {
        seq![self.skills_dir@, self.claude_md@, self.settings_json@, self.hooks_dir@]
    }

    /// Whether a path is a target or lies in one.
    pub open spec fn allow(self, path: Seq<char>) -> bool {
        is_under(path, self.skills_dir@) || is_under(path, self.claude_md@) || is_under(path, self.settings_json@)
            || is_under(path, self.hooks_dir@)
    }

    /// The targets of an assistant in a home directory.
    pub fn from_home(home: &str, assistant: &str) -> (r: Self)
        ensures
            r.skills_dir@ == joined_path(home@, config_file(assistant@, "skills"@)),
            r.claude_md@ == joined_path(home@, config_file(assistant@, guide_file(assistant@))),
            r.settings_json@ == joined_path(home@, config_file(assistant@, "settings.json"@)),
            r.hooks_dir@ == joined_path(home@, hooks_path(assistant@)),
    {
        let guide = guide_file_name(assistant);
        Targets {
            skills_dir: join_path(home, config_file_path(assistant, "skills").as_str()),
            claude_md: join_path(home, config_file_path(assistant, guide.as_str()).as_str()),
            settings_json: join_path(home, config_file_path(assistant, "settings.json").as_str()),
            hooks_dir: join_path(home, hooks_dir_path(assistant).as_str()),
        }
    }

    /// The four target roots, in order.
    pub fn roots(&self) -> (r: Vec<String>)
        ensures
            texts(r@) == self.root_paths(),
    {
        let r = vec![
            self.skills_dir.clone(),
            self.claude_md.clone(),
            self.settings_json.clone(),
            self.hooks_dir.clone(),
        ];
        assert(texts(r@) =~= self.root_paths());
        r
    }

    /// Whether a path is a target or lies in one.
    pub fn allows(&self, path: &str) -> (r: bool)
        ensures
            r == self.allow(path@),
    {
        path_under(path, self.skills_dir.as_str()) || path_under(path, self.claude_md.as_str()) || path_under(
            path,
            self.settings_json.as_str(),
        ) || path_under(path, self.hooks_dir.as_str())
    }

    /// The tools that a run may use: reading anywhere, editing only in the
    /// targets, and two syntax checks.
    pub open spec fn tools(self) -> Seq<Seq<char>> {
        seq![
            "Read"@,
            "Glob"@,
            "Grep"@,
            "Edit("@ + self.skills_dir@ + "/**)"@,
            "Write("@ + self.skills_dir@ + "/**)"@,
            "Edit("@ + self.claude_md@ + ")"@,
            "Edit("@ + self.settings_json@ + ")"@,
            "Edit("@ + self.hooks_dir@ + "/**)"@,
            "Write("@ + self.hooks_dir@ + "/**)"@,
            "Bash(bash -n *)"@,
            "Bash(python3 -m json.tool *)"@,
        ]
    }

    /// The tools that a run may use.
    pub fn allowed_tools(&self) -> (r: Vec<String>)
        ensures
            texts(r@) == self.tools(),
    {
        let r = vec![
            owned("Read"),
            owned("Glob"),
            owned("Grep"),
            around("Edit(", self.skills_dir.as_str(), "/**)"),
            around("Write(", self.skills_dir.as_str(), "/**)"),
            around("Edit(", self.claude_md.as_str(), ")"),
            around("Edit(", self.settings_json.as_str(), ")"),
            around("Edit(", self.hooks_dir.as_str(), "/**)"),
            around("Write(", self.hooks_dir.as_str(), "/**)"),
            owned("Bash(bash -n *)"),
            owned("Bash(python3 -m json.tool *)"),
        ];
        assert(texts(r@) =~= self.tools());
        r
    }
}

fn around(a: &str, b: &str, c: &str) -> (r: String)
    ensures
        r@ == a@ + b@ + c@,
{
    let mut s = chars_of(a);
    push_text(&mut s, b);
    push_text(&mut s, c);
    string_of(s.as_slice())
}

/// The agent that a run calls: the program, and the directory that it works in.
#[derive(Debug, Clone)]
pub struct ProcessImproveLlm {
    pub claude_bin: String,
    pub cwd: String,
}

impl ProcessImproveLlm {
    /// The agent for an assistant: the program that is set, or the one that the
    /// assistant's name gives.
    pub fn new(configured: Option<&str>, assistant: &str, cwd: &str) -> (r: Self)
        ensures
            r.claude_bin@ == program(opt_str_view(configured), assistant@),
            r.cwd@ == cwd@,
    {
        ProcessImproveLlm { claude_bin: program_name(configured, assistant), cwd: owned(cwd) }
    }

    /// The arguments of a call: nothing is kept of the session, nothing is
    /// asked, and only the targets' tools are allowed.
    pub fn argv(&self, model: &str, targets: &Targets) -> (r: Vec<String>)
        ensures
            texts(r@) == seq![
                "-p"@,
                "--model"@,
                model@,
                "--no-session-persistence"@,
                "--permission-prompts"@,
                "none"@,
                "--allowedTools"@,
            ] + targets.tools(),
    {
        let mut r = vec![
            owned("-p"),
            owned("--model"),
            owned(model),
            owned("--no-session-persistence"),
            owned("--permission-prompts"),
            owned("none"),
            owned("--allowedTools"),
        ];
        let ghost head = texts(r@);
        let mut tools = targets.allowed_tools();
        let ghost given = tools@;
        r.append(&mut tools);
        assert(texts(r@) =~= head + texts(given));
        assert(head =~= seq![
            "-p"@,
            "--model"@,
            model@,
            "--no-session-persistence"@,
            "--permission-prompts"@,
            "none"@,
            "--allowedTools"@,
        ]);
        r
    }
}

/// Whatever lies under an allowed path is allowed, and each target is.
pub proof fn law_targets_are_closed_downwards(t: Targets, path: Seq<char>, below: Seq<char>)
    requires
        t.allow(path),
        is_under(below, path),
    ensures
        t.allow(below),
        t.allow(t.skills_dir@) && t.allow(t.claude_md@) && t.allow(t.settings_json@) && t.allow(t.hooks_dir@),
{
    crate::path::lemma_under_itself(t.skills_dir@);
    crate::path::lemma_under_itself(t.claude_md@);
    crate::path::lemma_under_itself(t.settings_json@);
    crate::path::lemma_under_itself(t.hooks_dir@);
    let root = if is_under(path, t.skills_dir@) {
        t.skills_dir@
    } else if is_under(path, t.claude_md@) {
        t.claude_md@
    } else if is_under(path, t.settings_json@) {
        t.settings_json@
    } else {
        t.hooks_dir@
    };
    crate::path::lemma_under_transitive(below, path, root);
}

} // verus!
