//! The command that runs in a mounted view: how it is found, what it is told, and what is shown of
//! it.
use vstd::prelude::*;

use crate::numbers;
use crate::numbers::decimal;
use crate::text;
use crate::text::{
    cat, char_is_whitespace, chars_of, contains_char, join, rsplit_once, split, strip_prefix,
    text_eq, trim,
};
use crate::types;
use crate::types::debug_quoted;
use crate::virtual_exec::nodes::Status;

verus! {

// How the command is shown.

/// Whether a text holds white space.
pub open spec fn has_whitespace(s: Seq<char>) -> bool {
    exists|i: int| 0 <= i < s.len() && text::is_whitespace(#[trigger] s[i])
}

fn holds_whitespace(s: &str) -> (r: bool)
    ensures
        r == has_whitespace(s@),
{
    let chars = chars_of(s);
    let mut i: usize = 0;
    while i < chars.len()
        invariant
            i <= chars@.len(),
            chars@ == s@,
            forall|k: int| 0 <= k < i ==> !text::is_whitespace(#[trigger] s@[k]),
        decreases chars@.len() - i,
    {
        if char_is_whitespace(chars[i]) {
            assert(text::is_whitespace(s@[i as int]));
            return true;
        }
        i = i + 1;
    }
    false
}

/// A part of a command as it is shown: in quotes where it holds white space.
pub open spec fn shown_part(part: Seq<char>) -> Seq<char> {
    if has_whitespace(part) {
        types::debug_text(part)
    } else {
        part
    }
}

fn show_part(part: &str) -> (r: String)
    ensures
        r@ == shown_part(part@),
{
    if holds_whitespace(part) {
        debug_quoted(part)
    } else {
        part.to_owned()
    }
}

/// A command as it is shown.
pub fn command_label(program: &str, args: &Vec<String>) -> (r: String)
    ensures
        r@ == text::join_texts(
            seq![shown_part(program@)] + text::texts(args@).map_values(
                |part: Seq<char>| shown_part(part),
            ),
            " "@,
        ),
{
    let ghost shown = |part: Seq<char>| shown_part(part);
    let mut parts: Vec<String> = Vec::new();
    parts.push(show_part(program));
    let mut i: usize = 0;
    while i < args.len()
        invariant
            i <= args@.len(),
            shown == (|part: Seq<char>| shown_part(part)),
            parts@.len() == i + 1,
            parts@[0]@ == shown_part(program@),
            forall|k: int| 1 <= k <= i ==> (#[trigger] parts@[k])@ == shown_part(args@[k - 1]@),
        decreases args@.len() - i,
    {
        parts.push(show_part(args[i].as_str()));
        i = i + 1;
    }
    assert(text::texts(parts@) =~= seq![shown_part(program@)] + text::texts(args@).map_values(
        shown,
    ));
    join(&parts, " ")
}

// How the command is found.

/// Whether a program is named without a path.
pub open spec fn is_bare_name(program: Seq<char>) -> bool {
    !program.contains('/') && !program.contains('\\') && program != ".."@
        && !types::drive_prefixed(program)
}

/// Whether a file name has an extension.
pub open spec fn has_extension(name: Seq<char>) -> bool {
    match text::split_last(name, '.') {
        Some((stem, _)) => stem.len() > 0,
        None => false,
    }
}

/// The file names to look for.
pub open spec fn program_names(program: Seq<char>, extensions: Seq<Seq<char>>) -> Seq<Seq<char>> {
    if has_extension(program) {
        seq![program]
    } else {
        extensions.map_values(|extension: Seq<char>| program + extension)
    }
}

fn has_drive(program: &str) -> (r: bool)
    ensures
        r == types::drive_prefixed(program@),
{
    let chars = chars_of(program);
    chars.len() >= 2 && (('a' <= chars[0] && chars[0] <= 'z') || ('A' <= chars[0] && chars[0]
        <= 'Z')) && chars[1] == ':'
}

/// The file names to look for in the directories that hold programs, or nothing where the program
/// is named with a path. Where no extensions are given there are some that are always tried.
pub fn program_file_names(program: &str, extensions: &Vec<String>) -> (r: Option<Vec<String>>)
    ensures
        match r {
            None => !is_bare_name(program@),
            Some(names) => is_bare_name(program@) && text::texts(names@) == program_names(
                program@,
                if extensions@.len() == 0 {
                    seq![".COM"@, ".EXE"@, ".BAT"@, ".CMD"@]
                } else {
                    text::texts(extensions@)
                },
            ),
        },
{
    if contains_char(program, '/') || contains_char(program, '\\') || text_eq(program, "..")
        || has_drive(program) {
        return None;
    }
    let extended = match rsplit_once(program, '.') {
        Some((stem, _)) => !stem.as_str().is_empty(),
        None => false,
    };
    let mut names: Vec<String> = Vec::new();
    if extended {
        names.push(program.to_owned());
        assert(text::texts(names@) =~= seq![program@]);
        return Some(names);
    }
    let ghost extend = |extension: Seq<char>| program@ + extension;
    if extensions.len() == 0 {
        names.push(program.to_owned().concat(".COM"));
        names.push(program.to_owned().concat(".EXE"));
        names.push(program.to_owned().concat(".BAT"));
        names.push(program.to_owned().concat(".CMD"));
        assert(text::texts(names@) =~= seq![".COM"@, ".EXE"@, ".BAT"@, ".CMD"@].map_values(extend));
        return Some(names);
    }
    let mut i: usize = 0;
    while i < extensions.len()
        invariant
            i <= extensions@.len(),
            names@.len() == i,
            forall|k: int|
                0 <= k < i ==> (#[trigger] names@[k])@ == program@ + extensions@[k]@,
        decreases extensions@.len() - i,
    {
        names.push(program.to_owned().concat(extensions[i].as_str()));
        i = i + 1;
    }
    assert(text::texts(names@) =~= text::texts(extensions@).map_values(extend));
    Some(names)
}

// What the command is told.

/// A variable of the environment.
#[derive(Debug, PartialEq, Eq)]
pub struct EnvVar {
    pub name: String,
    pub value: String,
}

impl View for EnvVar {
    type V = (Seq<char>, Seq<char>);

    open spec fn view(&self) -> (Seq<char>, Seq<char>) {
        (self.name@, self.value@)
    }
}

/// The variables that every command in a view is given.
pub open spec fn common_environment(
    lane: Seq<char>,
    mount: Seq<char>,
    work_tree: Seq<char>,
    target: Seq<char>,
) -> Seq<(Seq<char>, Seq<char>)> {
    seq![
        ("LANE_ID"@, lane),
        ("LANE_REPO_ROOT"@, mount),
        ("LANE_VIEW_ROOT"@, mount),
        ("LANE_EXEC_MODE"@, "virtual_mount"@),
        ("CARGO_TARGET_DIR"@, target),
        ("GIT_OPTIONAL_LOCKS"@, "0"@),
        ("GIT_CONFIG_COUNT"@, "3"@),
        ("GIT_CONFIG_KEY_0"@, "safe.directory"@),
        ("GIT_CONFIG_VALUE_0"@, work_tree),
        ("GIT_CONFIG_KEY_1"@, "core.worktree"@),
        ("GIT_CONFIG_VALUE_1"@, work_tree),
        ("GIT_CONFIG_KEY_2"@, "core.bare"@),
        ("GIT_CONFIG_VALUE_2"@, "false"@),
    ]
}

/// The variables that a command in a view is given.
pub open spec fn environment_of(
    lane: Seq<char>,
    mount: Seq<char>,
    work_tree: Seq<char>,
    target: Seq<char>,
    git_dir: Option<Seq<char>>,
) -> Seq<(Seq<char>, Seq<char>)> {
    match git_dir {
        None => common_environment(lane, mount, work_tree, target),
        Some(git_dir) => common_environment(lane, mount, work_tree, target) + seq![
            ("GIT_DIR"@, git_dir),
            ("GIT_WORK_TREE"@, work_tree),
        ],
    }
}

fn env_var(name: &str, value: &str) -> (r: EnvVar)
    ensures
        r@ == (name@, value@),
{
    EnvVar { name: name.to_owned(), value: value.to_owned() }
}

/// The variables that a command in a view is given.
pub fn environment(
    lane: &str,
    mount: &str,
    work_tree: &str,
    target: &str,
    git_dir: Option<&str>,
) -> (r: Vec<EnvVar>)
    ensures
        crate::sorting::views(r@) == environment_of(
            lane@,
            mount@,
            work_tree@,
            target@,
            match git_dir {
                Some(git_dir) => Some(git_dir@),
                None => None,
            },
        ),
{
    let mut vars: Vec<EnvVar> = vec![
        env_var("LANE_ID", lane),
        env_var("LANE_REPO_ROOT", mount),
        env_var("LANE_VIEW_ROOT", mount),
        env_var("LANE_EXEC_MODE", "virtual_mount"),
        env_var("CARGO_TARGET_DIR", target),
        env_var("GIT_OPTIONAL_LOCKS", "0"),
        env_var("GIT_CONFIG_COUNT", "3"),
        env_var("GIT_CONFIG_KEY_0", "safe.directory"),
        env_var("GIT_CONFIG_VALUE_0", work_tree),
        env_var("GIT_CONFIG_KEY_1", "core.worktree"),
        env_var("GIT_CONFIG_VALUE_1", work_tree),
        env_var("GIT_CONFIG_KEY_2", "core.bare"),
        env_var("GIT_CONFIG_VALUE_2", "false"),
    ];
    let ghost common = common_environment(lane@, mount@, work_tree@, target@);
    assert(crate::sorting::views(vars@) =~= common);
    match git_dir {
        None => {},
        Some(git_dir) => {
            vars.push(env_var("GIT_DIR", git_dir));
            vars.push(env_var("GIT_WORK_TREE", work_tree));
            assert(crate::sorting::views(vars@) =~= common + seq![
                ("GIT_DIR"@, git_dir@),
                ("GIT_WORK_TREE"@, work_tree@),
            ]);
        },
    }
    vars
}

// Git metadata.

/// What a line says of where the git metadata are.
pub open spec fn git_line(line: Seq<char>) -> Option<Seq<char>> {
    match text::after_prefix(line, "gitdir:"@) {
        Some(rest) => Some(text::trim_text(rest)),
        None => None,
    }
}

/// What the first line that says so says of where the git metadata are.
pub open spec fn first_git_line(lines: Seq<Seq<char>>) -> Option<Seq<char>>
    decreases lines.len(),
{
    if lines.len() == 0 {
        None
    } else {
        match first_git_line(lines.drop_last()) {
            Some(found) => Some(found),
            None => git_line(lines.last()),
        }
    }
}

proof fn lemma_first_git_line(lines: Seq<Seq<char>>, n: int)
    requires
        0 <= n <= lines.len(),
        first_git_line(lines.subrange(0, n)) is Some,
    ensures
        first_git_line(lines) == first_git_line(lines.subrange(0, n)),
    decreases lines.len() - n,
{
    if n == lines.len() {
        assert(lines.subrange(0, n) =~= lines);
    } else {
        assert(lines.subrange(0, n + 1).drop_last() =~= lines.subrange(0, n));
        lemma_first_git_line(lines, n + 1);
    }
}

/// Where the git metadata of a worktree are, from the file that points to them.
pub fn git_pointer(contents: &str) -> (r: Option<String>)
    ensures
        text::opt_text(r) == first_git_line(text::split_text(contents@, '\n')),
{
    let lines = split(contents, '\n');
    let ghost all = text::texts(lines@);
    let mut i: usize = 0;
    assert(all.subrange(0, 0) =~= Seq::empty());
    while i < lines.len()
        invariant
            i <= lines@.len(),
            all == text::texts(lines@),
            all == text::split_text(contents@, '\n'),
            first_git_line(all.subrange(0, i as int)) is None,
        decreases lines@.len() - i,
    {
        proof {
            assert(all.subrange(0, i + 1).drop_last() =~= all.subrange(0, i as int));
            assert(all.subrange(0, i + 1).last() == lines@[i as int]@);
        }
        match strip_prefix(lines[i].as_str(), "gitdir:") {
            Some(rest) => {
                let target = trim(rest.as_str());
                proof {
                    lemma_first_git_line(all, i + 1);
                }
                return Some(target);
            },
            None => {},
        }
        i = i + 1;
    }
    assert(all.subrange(0, i as int) =~= all);
    None
}

// What is shown of the command.

/// A line about the course of a command.
pub fn event_line(lane: &str, elapsed_ms: u64, message: &str) -> (r: String)
    ensures
        r@ == text::flat(
            seq![
                "[lane exec "@,
                lane@,
                " +"@,
                numbers::decimal_text(elapsed_ms as nat),
                "ms] "@,
                message@,
            ],
        ),
{
    let elapsed = decimal(elapsed_ms);
    let parts: Vec<&str> = vec!["[lane exec ", lane, " +", elapsed.as_str(), "ms] ", message];
    assert(text::strs(parts@) =~= seq![
        "[lane exec "@,
        lane@,
        " +"@,
        elapsed@,
        "ms] "@,
        message@,
    ]);
    cat(parts)
}

/// What a command wrote, with a mark in front of each line; the last line is ended.
pub open spec fn marked_lines(mark: Seq<char>, lines: Seq<Seq<char>>) -> Seq<char>
    decreases lines.len(),
{
    if lines.len() == 0 {
        Seq::empty()
    } else {
        marked_lines(mark, lines.drop_last()) + mark + lines.last() + "\n"@
    }
}

/// The lines of a text; an end of line at its end begins no further line.
pub open spec fn ended_lines(s: Seq<char>) -> Seq<Seq<char>> {
    let lines = text::split_text(s, '\n');
    if lines.last().len() == 0 {
        lines.drop_last()
    } else {
        lines
    }
}

/// What a command wrote to one of its streams, as it is shown while it runs.
pub fn mirrored_chunk(lane: &str, stream: &str, chunk: &str) -> (r: String)
    ensures
        r@ == marked_lines(
            text::flat(seq!["[lane exec "@, lane@, " "@, stream@, "] "@]),
            ended_lines(chunk@),
        ),
{
    let parts: Vec<&str> = vec!["[lane exec ", lane, " ", stream, "] "];
    assert(text::strs(parts@) =~= seq!["[lane exec "@, lane@, " "@, stream@, "] "@]);
    let mark = cat(parts);
    let mut lines = split(chunk, '\n');
    let ghost whole = text::split_text(chunk@, '\n');
    let last: usize = lines.len() - 1;
    assert(text::texts(lines@)[last as int] == lines@[last as int]@);
    if lines[last].as_str().is_empty() {
        let _ = lines.pop();
        assert(text::texts(lines@) =~= whole.drop_last()) by {
            assert forall|k: int| 0 <= k < lines@.len() implies text::texts(lines@)[k] == whole[k] by {
            }
        }
    }
    let ghost all = ended_lines(chunk@);
    assert(text::texts(lines@) =~= all);
    let mut shown = String::new();
    let mut i: usize = 0;
    proof {
        assert(all.subrange(0, 0) =~= Seq::empty());
        assert(shown@ =~= Seq::empty());
    }
    while i < lines.len()
        invariant
            i <= lines@.len(),
            all == text::texts(lines@),
            shown@ == marked_lines(mark@, all.subrange(0, i as int)),
        decreases lines@.len() - i,
    {
        proof {
            assert(all.subrange(0, i + 1).drop_last() =~= all.subrange(0, i as int));
            assert(all.subrange(0, i + 1).last() == lines@[i as int]@);
        }
        shown = shown.concat(mark.as_str()).concat(lines[i].as_str()).concat("\n");
        i = i + 1;
    }
    assert(all.subrange(0, i as int) =~= all);
    shown
}

// Mounting.

/// How often a view is looked for after it was mounted.
pub const MOUNT_READY_ATTEMPTS: usize = 40;

/// How long to wait before it is looked for again, in milliseconds.
pub const MOUNT_READY_DELAY_MS: u64 = 25;

/// The letters under which a view can be mounted, in the order in which they are tried.
pub fn drive_letters() -> (r: Vec<char>)
    ensures
        r@ == Seq::new(23, |i: int| (90 - i) as char),
{
    let mut letters: Vec<char> = Vec::new();
    let mut code: u8 = 90;
    while code >= 68
        invariant
            67 <= code <= 90,
            letters@.len() == 90 - code,
            forall|k: int| 0 <= k < letters@.len() ==> #[trigger] letters@[k] == (90 - k) as char,
        decreases code,
    {
        letters.push(code as char);
        code = code - 1;
    }
    assert(letters@ =~= Seq::new(23, |i: int| (90 - i) as char));
    letters
}

/// Whether the next letter is tried after a view could not be mounted under one.
pub fn letter_is_taken(status: Status) -> (r: bool)
    ensures
        r == (status == Status::NameCollision || status == Status::AccessDenied),
{
    status == Status::NameCollision || status == Status::AccessDenied
}

/// The message where no letter was free.
pub fn no_free_letter(last_unavailable: Option<char>) -> (r: String)
    ensures
        r@ == match last_unavailable {
            None => "no free drive letter available for virtual lane mount"@,
            Some(letter) => "no free drive letter available for virtual lane mount"@
                + "; last unavailable candidate was "@ + seq![letter] + ":"@,
        },
{
    let mut message = "no free drive letter available for virtual lane mount".to_owned();
    match last_unavailable {
        None => message,
        Some(letter) => {
            message = message.concat("; last unavailable candidate was ");
            let ghost before = message@;
            message.push(letter);
            assert(message@ =~= before + seq![letter]);
            message.concat(":")
        },
    }
}

/// Whether a command failed.
pub fn worker_failed(exit_code: Option<i32>, worker_error: &Option<String>) -> (r: bool)
    ensures
        r == (exit_code != Some(0i32) || worker_error is Some),
{
    let clean = match exit_code {
        Some(code) => code == 0,
        None => false,
    };
    !clean || worker_error.is_some()
}

/// What could not be recorded about a command, though it ran.
#[derive(Debug, PartialEq, Eq)]
pub struct VirtualExecWarning {
    pub kind: String,
    pub message: String,
}

impl View for VirtualExecWarning {
    type V = (Seq<char>, Seq<char>);

    open spec fn view(&self) -> (Seq<char>, Seq<char>) {
        (self.kind@, self.message@)
    }
}

/// The warning where it could not be recorded how a command ended.
pub fn last_exec_warnings(error: Option<&str>) -> (r: Vec<VirtualExecWarning>)
    ensures
        crate::sorting::views(r@) == match error {
            None => Seq::<(Seq<char>, Seq<char>)>::empty(),
            Some(error) => seq![
                (
                    "last_exec_not_recorded"@,
                    "failed to record advisory last_exec metadata: "@ + error@,
                ),
            ],
        },
{
    let mut warnings: Vec<VirtualExecWarning> = Vec::new();
    match error {
        None => {
            assert(crate::sorting::views(warnings@) =~= Seq::empty());
        },
        Some(error) => {
            let warning = VirtualExecWarning {
                kind: "last_exec_not_recorded".to_owned(),
                message: "failed to record advisory last_exec metadata: ".to_owned().concat(error),
            };
            let ghost shown = warning@;
            warnings.push(warning);
            assert(crate::sorting::views(warnings@) =~= seq![shown]);
        },
    }
    warnings
}

/// How often the storage was locked for a view, and for how long.
#[derive(Clone, Copy, Debug, PartialEq, Eq, Structural)]
pub struct VirtualFsMetrics {
    pub storage_lock_wait_ms: u64,
    pub storage_lock_held_ms: u64,
    pub storage_write_ops: u64,
}

impl VirtualFsMetrics {
    /// Nothing was locked yet.
    pub fn new() -> (r: Self)
        ensures
            r == (VirtualFsMetrics {
                storage_lock_wait_ms: 0,
                storage_lock_held_ms: 0,
                storage_write_ops: 0,
            }),
    {
        VirtualFsMetrics { storage_lock_wait_ms: 0, storage_lock_held_ms: 0, storage_write_ops: 0 }
    }

    /// Counts a lock. The counters start over once they are used up.
    pub fn record_write(&mut self, wait_ms: u64, held_ms: u64)
        ensures
            final(self).storage_lock_wait_ms == vstd::wrapping::u64_specs::wrapping_add(
                old(self).storage_lock_wait_ms,
                wait_ms,
            ),
            final(self).storage_lock_held_ms == vstd::wrapping::u64_specs::wrapping_add(
                old(self).storage_lock_held_ms,
                held_ms,
            ),
            final(self).storage_write_ops == vstd::wrapping::u64_specs::wrapping_add(
                old(self).storage_write_ops,
                1,
            ),
    {
        self.storage_lock_wait_ms = self.storage_lock_wait_ms.wrapping_add(wait_ms);
        self.storage_lock_held_ms = self.storage_lock_held_ms.wrapping_add(held_ms);
        self.storage_write_ops = self.storage_write_ops.wrapping_add(1);
    }
}

} // verus!
