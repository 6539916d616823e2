//! The attempts of a run side by side, as people read them.
use vstd::prelude::*;

use crate::cli::human_review;
use crate::cli::human_review::{put, put_text, write_lines};
use crate::cli::labels;
use crate::cli::labels::{count_label, format_command};
use crate::cli::orchestrate;
use crate::cli::output::{
    ReviewActionKind, ReviewActionOutput, ReviewActionView, ReviewConflictOutput,
    ReviewConflictView, ReviewPathOutput, ReviewPathView,
};
use crate::cli::records::{
    AttemptRecordView, CheckRecord, CheckRecordView, CompareActionView, CompareAttempt,
    CompareAttemptView, CompareOutput, CompareView, RecordedExec, RecordedExecView,
};
use crate::lists;
use crate::numbers;
use crate::numbers::{decimal, signed_decimal};
use crate::sorting;
use crate::text;
use crate::text::join;

verus! {

/// How an attempt at a check ended, in a few words.
pub open spec fn attempt_status_text(
    ok: bool,
    recorded: Option<RecordedExecView>,
    error: Option<Seq<char>>,
) -> Seq<char> {
    match error {
        Some(error) => "orchestration error: "@ + error,
        None => match recorded {
            None => "missing exec result"@,
            Some(outcome) => if ok {
                "ok"@
            } else {
                match outcome.worker_error {
                    Some(error) => "worker error: "@ + error,
                    None => "exit "@ + match outcome.exit_code {
                        Some(code) => numbers::signed_text(code as int),
                        None => "none"@,
                    },
                }
            },
        },
    }
}

fn attempt_status_label(
    ok: bool,
    recorded: &Option<RecordedExec>,
    error: &Option<String>,
) -> (r: String)
    ensures
        r@ == attempt_status_text(ok, lists::opt_view(*recorded), text::opt_text(*error)),
{
    match error {
        Some(error) => "orchestration error: ".to_owned().concat(error.as_str()),
        None => match recorded {
            None => "missing exec result".to_owned(),
            Some(outcome) => if ok {
                "ok".to_owned()
            } else {
                match &outcome.worker_error {
                    Some(error) => "worker error: ".to_owned().concat(error.as_str()),
                    None => {
                        let code = match outcome.exit_code {
                            Some(code) => signed_decimal(code),
                            None => "none".to_owned(),
                        };
                        "exit ".to_owned().concat(code.as_str())
                    },
                }
            },
        },
    }
}

/// An attempt in one line.
pub open spec fn attempt_line(attempt: CompareAttemptView) -> Seq<char> {
    text::flat(
        seq![
            "  - "@,
            attempt.lane,
            ": attempt "@,
            if attempt.attempt_ok {
                "ok"@
            } else {
                "failed"@
            },
            ", checks "@,
            numbers::decimal_text(attempt.checks_passed),
            "/"@,
            numbers::decimal_text(attempt.checks_passed + attempt.checks_failed),
            ", "@,
            labels::count_text(attempt.changed_paths, "changed path"@),
            ", "@,
            labels::count_text(attempt.clean_ops, "clean op"@),
            ", "@,
            labels::count_text(attempt.conflicted_ops, "conflicted op"@),
        ],
    )
}

/// What can be done with an attempt.
pub open spec fn action_line(action: CompareActionView) -> Seq<char> {
    text::flat(seq!["    "@, action.kind, ": "@, labels::command_text(action.command)])
}

/// An attempt with what can be done with it.
pub open spec fn attempt_lines(attempt: CompareAttemptView) -> Seq<Seq<char>> {
    seq![attempt_line(attempt)] + attempt.actions.map_values(
        |action: CompareActionView| action_line(action),
    )
}

/// The attempts of a run.
pub open spec fn attempts_lines(attempts: Seq<CompareAttemptView>) -> Seq<Seq<char>>
    decreases attempts.len(),
{
    if attempts.len() == 0 {
        Seq::empty()
    } else {
        attempts_lines(attempts.drop_last()) + attempt_lines(attempts.last())
    }
}

/// How a check ended for an attempt.
pub open spec fn check_attempt_line(attempt: AttemptRecordView) -> Seq<char> {
    text::flat(
        seq![
            "    "@,
            attempt.lane,
            ": "@,
            attempt_status_text(
                orchestrate::attempt_ok(attempt),
                attempt.recorded,
                attempt.orchestration_error,
            ),
        ],
    )
}

/// A check with how it ended for each attempt.
pub open spec fn check_lines(check: CheckRecordView) -> Seq<Seq<char>> {
    seq![text::flat(seq!["  - "@, check.name])] + check.attempts.map_values(
        |attempt: AttemptRecordView| check_attempt_line(attempt),
    )
}

/// The checks of a run.
pub open spec fn checks_lines(checks: Seq<CheckRecordView>) -> Seq<Seq<char>>
    decreases checks.len(),
{
    if checks.len() == 0 {
        Seq::empty()
    } else {
        checks_lines(checks.drop_last()) + check_lines(checks.last())
    }
}

/// The commands that accept something of a conflict group.
pub open spec fn resolve_lines(actions: Seq<ReviewActionView>) -> Seq<Seq<char>>
    decreases actions.len(),
{
    if actions.len() == 0 {
        Seq::empty()
    } else if actions.last().kind == ReviewActionKind::Accept {
        resolve_lines(actions.drop_last()).push(
            text::flat(seq!["    resolve: "@, labels::command_text(actions.last().command)]),
        )
    } else {
        resolve_lines(actions.drop_last())
    }
}

/// A conflict group that needs a decision.
pub open spec fn group_line(path: Seq<char>, number: nat, conflict: ReviewConflictView) -> Seq<char> {
    text::flat(
        seq![
            "  - "@,
            path,
            " group "@,
            numbers::decimal_text(number),
            " ["@,
            numbers::decimal_text(conflict.range_start as nat),
            ".."@,
            numbers::decimal_text(conflict.range_end as nat),
            "), lanes: "@,
            text::join_texts(conflict.lanes, ", "@),
        ],
    )
}

/// The conflict groups of a path.
pub open spec fn path_groups_lines(path: Seq<char>, conflicts: Seq<ReviewConflictView>) -> Seq<
    Seq<char>,
>
    decreases conflicts.len(),
{
    if conflicts.len() == 0 {
        Seq::empty()
    } else {
        path_groups_lines(path, conflicts.drop_last()).push(
            group_line(path, conflicts.len(), conflicts.last()),
        ) + resolve_lines(conflicts.last().actions)
    }
}

/// The conflict groups of all paths.
pub open spec fn groups_lines(paths: Seq<ReviewPathView>) -> Seq<Seq<char>>
    decreases paths.len(),
{
    if paths.len() == 0 {
        Seq::empty()
    } else {
        groups_lines(paths.drop_last()) + path_groups_lines(
            paths.last().path,
            paths.last().conflicts,
        )
    }
}

/// The numbers of a run in one line.
pub open spec fn totals_line(output: CompareView) -> Seq<char> {
    text::flat(
        seq![
            "summary: "@,
            labels::count_text(output.run.attempts.len(), "attempt"@),
            ", "@,
            labels::count_text(output.run.checks.len(), "check"@),
            ", "@,
            labels::count_text(output.review.summary.changed_paths, "changed path"@),
            ", "@,
            labels::count_text(output.review.summary.clean_ops, "clean op"@),
            ", "@,
            labels::count_text(output.review.summary.conflict_groups, "conflict group"@),
        ],
    )
}

/// The heading of a comparison.
pub open spec fn top_lines(output: CompareView) -> Seq<Seq<char>> {
    seq![
        "Lane compare"@,
        text::flat(seq!["run: "@, output.run.name]),
        text::flat(seq!["repo: "@, output.repo_root]),
        text::flat(seq!["storage: "@, output.storage_path]),
        totals_line(output),
    ]
}

/// The attempts, under their heading.
pub open spec fn attempts_section(output: CompareView) -> Seq<Seq<char>> {
    human_review::main_section(
        "Attempts"@,
        "  - none"@,
        attempts_lines(output.attempts),
        output.attempts.len() == 0,
    )
}

/// The checks, under their heading.
pub open spec fn checks_section(output: CompareView) -> Seq<Seq<char>> {
    if output.run.checks.len() == 0 {
        Seq::empty()
    } else {
        seq![""@, "Checks"@] + checks_lines(output.run.checks)
    }
}

/// What needs a decision, under its heading.
pub open spec fn decisions_section(output: CompareView) -> Seq<Seq<char>> {
    human_review::main_section(
        "Needs decision"@,
        "  - none"@,
        groups_lines(output.review.paths),
        output.review.summary.conflict_groups == 0,
    )
}

/// The lines of a comparison.
pub open spec fn compare_lines(output: CompareView) -> Seq<Seq<char>> {
    top_lines(output) + attempts_section(output) + checks_section(output) + decisions_section(
        output,
    )
}

fn put_attempt_line(out: &mut Vec<String>, attempt: &CompareAttempt)
    requires
        orchestrate::checks_add_up(attempt@),
    ensures
        text::texts(final(out)@) == text::texts(old(out)@).push(attempt_line(attempt@)),
{
    let status = if attempt.attempt_ok {
        "ok"
    } else {
        "failed"
    };
    let good = decimal(attempt.checks_passed as u64);
    let total: usize = attempt.checks_passed + attempt.checks_failed;
    let all = decimal(total as u64);
    let paths = count_label(attempt.changed_paths, "changed path");
    let clean = count_label(attempt.clean_ops, "clean op");
    let conflicted = count_label(attempt.conflicted_ops, "conflicted op");
    let parts: Vec<&str> = vec![
        "  - ",
        attempt.lane.as_str(),
        ": attempt ",
        status,
        ", checks ",
        good.as_str(),
        "/",
        all.as_str(),
        ", ",
        paths.as_str(),
        ", ",
        clean.as_str(),
        ", ",
        conflicted.as_str(),
    ];
    assert(text::strs(parts@) =~= seq![
        "  - "@,
        attempt@.lane,
        ": attempt "@,
        status@,
        ", checks "@,
        numbers::decimal_text(attempt@.checks_passed),
        "/"@,
        numbers::decimal_text(attempt@.checks_passed + attempt@.checks_failed),
        ", "@,
        labels::count_text(attempt@.changed_paths, "changed path"@),
        ", "@,
        labels::count_text(attempt@.clean_ops, "clean op"@),
        ", "@,
        labels::count_text(attempt@.conflicted_ops, "conflicted op"@),
    ]);
    put(out, parts);
}

fn put_attempt(out: &mut Vec<String>, attempt: &CompareAttempt)
    requires
        orchestrate::checks_add_up(attempt@),
    ensures
        text::texts(final(out)@) == text::texts(old(out)@) + attempt_lines(attempt@),
{
    let ghost start = text::texts(out@);
    put_attempt_line(out, attempt);
    let ghost head = text::texts(out@);
    let ghost all = attempt@.actions;
    let ghost line = |action: CompareActionView| action_line(action);
    let mut i: usize = 0;
    assert(head =~= head + all.subrange(0, 0).map_values(line));
    while i < attempt.actions.len()
        invariant
            i <= attempt.actions@.len(),
            all == attempt@.actions,
            line == (|action: CompareActionView| action_line(action)),
            text::texts(out@) == head + all.subrange(0, i as int).map_values(line),
        decreases attempt.actions@.len() - i,
    {
        let action = &attempt.actions[i];
        let command = format_command(&action.command);
        let parts: Vec<&str> = vec!["    ", action.kind.as_str(), ": ", command.as_str()];
        assert(text::strs(parts@) =~= seq![
            "    "@,
            all[i as int].kind,
            ": "@,
            labels::command_text(all[i as int].command),
        ]);
        put(out, parts);
        i = i + 1;
        assert(text::texts(out@) =~= head + all.subrange(0, i as int).map_values(line));
    }
    assert(all.subrange(0, i as int) =~= all);
    assert(text::texts(out@) =~= start + attempt_lines(attempt@));
}

fn put_attempts(out: &mut Vec<String>, attempts: &Vec<CompareAttempt>)
    requires
        forall|i: int| 0 <= i < attempts@.len() ==> orchestrate::checks_add_up((#[trigger] attempts@[i])@),
    ensures
        text::texts(final(out)@) == text::texts(old(out)@) + attempts_lines(
            sorting::views(attempts@),
        ),
{
    let ghost start = text::texts(out@);
    let ghost all = sorting::views(attempts@);
    let mut i: usize = 0;
    assert(start =~= start + attempts_lines(all.subrange(0, 0)));
    while i < attempts.len()
        invariant
            i <= attempts@.len(),
            all == sorting::views(attempts@),
            forall|i: int|
                0 <= i < attempts@.len() ==> orchestrate::checks_add_up((#[trigger] attempts@[i])@),
            text::texts(out@) == start + attempts_lines(all.subrange(0, i as int)),
        decreases attempts@.len() - i,
    {
        put_attempt(out, &attempts[i]);
        proof {
            assert(all.subrange(0, i + 1).drop_last() =~= all.subrange(0, i as int));
            assert(all.subrange(0, i + 1).last() == attempts@[i as int]@);
            assert(text::texts(out@) =~= start + attempts_lines(all.subrange(0, i + 1)));
        }
        i = i + 1;
    }
    assert(all.subrange(0, i as int) =~= all);
}

fn put_check(out: &mut Vec<String>, check: &CheckRecord)
    ensures
        text::texts(final(out)@) == text::texts(old(out)@) + check_lines(check@),
{
    let ghost start = text::texts(out@);
    let parts: Vec<&str> = vec!["  - ", check.name.as_str()];
    assert(text::strs(parts@) =~= seq!["  - "@, check@.name]);
    put(out, parts);
    let ghost head = text::texts(out@);
    let ghost all = check@.attempts;
    let ghost line = |attempt: AttemptRecordView| check_attempt_line(attempt);
    let mut i: usize = 0;
    assert(head =~= head + all.subrange(0, 0).map_values(line));
    while i < check.attempts.len()
        invariant
            i <= check.attempts@.len(),
            all == check@.attempts,
            line == (|attempt: AttemptRecordView| check_attempt_line(attempt)),
            text::texts(out@) == head + all.subrange(0, i as int).map_values(line),
        decreases check.attempts@.len() - i,
    {
        let attempt = &check.attempts[i];
        let status = attempt_status_label(
            attempt.ok(),
            &attempt.recorded,
            &attempt.orchestration_error,
        );
        let parts: Vec<&str> = vec!["    ", attempt.lane.as_str(), ": ", status.as_str()];
        assert(text::strs(parts@) =~= seq![
            "    "@,
            all[i as int].lane,
            ": "@,
            attempt_status_text(
                orchestrate::attempt_ok(all[i as int]),
                all[i as int].recorded,
                all[i as int].orchestration_error,
            ),
        ]);
        put(out, parts);
        i = i + 1;
        assert(text::texts(out@) =~= head + all.subrange(0, i as int).map_values(line));
    }
    assert(all.subrange(0, i as int) =~= all);
    assert(text::texts(out@) =~= start + check_lines(check@));
}

fn put_checks(out: &mut Vec<String>, checks: &Vec<CheckRecord>)
    ensures
        text::texts(final(out)@) == text::texts(old(out)@) + checks_lines(sorting::views(checks@)),
{
    let ghost start = text::texts(out@);
    let ghost all = sorting::views(checks@);
    let mut i: usize = 0;
    assert(start =~= start + checks_lines(all.subrange(0, 0)));
    while i < checks.len()
        invariant
            i <= checks@.len(),
            all == sorting::views(checks@),
            text::texts(out@) == start + checks_lines(all.subrange(0, i as int)),
        decreases checks@.len() - i,
    {
        put_check(out, &checks[i]);
        proof {
            assert(all.subrange(0, i + 1).drop_last() =~= all.subrange(0, i as int));
            assert(all.subrange(0, i + 1).last() == checks@[i as int]@);
            assert(text::texts(out@) =~= start + checks_lines(all.subrange(0, i + 1)));
        }
        i = i + 1;
    }
    assert(all.subrange(0, i as int) =~= all);
}

fn put_resolutions(out: &mut Vec<String>, actions: &Vec<ReviewActionOutput>)
    ensures
        text::texts(final(out)@) == text::texts(old(out)@) + resolve_lines(
            sorting::views(actions@),
        ),
{
    let ghost start = text::texts(out@);
    let ghost all = sorting::views(actions@);
    let mut i: usize = 0;
    assert(start =~= start + resolve_lines(all.subrange(0, 0)));
    while i < actions.len()
        invariant
            i <= actions@.len(),
            all == sorting::views(actions@),
            text::texts(out@) == start + resolve_lines(all.subrange(0, i as int)),
        decreases actions@.len() - i,
    {
        let action = &actions[i];
        proof {
            assert(all.subrange(0, i + 1).drop_last() =~= all.subrange(0, i as int));
            assert(all.subrange(0, i + 1).last() == action@);
        }
        if action.kind == ReviewActionKind::Accept {
            let command = format_command(&action.command);
            let parts: Vec<&str> = vec!["    resolve: ", command.as_str()];
            assert(text::strs(parts@) =~= seq![
                "    resolve: "@,
                labels::command_text(action@.command),
            ]);
            put(out, parts);
        }
        assert(text::texts(out@) =~= start + resolve_lines(all.subrange(0, i + 1)));
        i = i + 1;
    }
    assert(all.subrange(0, i as int) =~= all);
}

fn put_group(out: &mut Vec<String>, path: &str, number: u64, conflict: &ReviewConflictOutput)
    ensures
        text::texts(final(out)@) == text::texts(old(out)@).push(
            group_line(path@, number as nat, conflict@),
        ),
{
    let count = decimal(number);
    let from = decimal(conflict.range_start);
    let to = decimal(conflict.range_end);
    let lanes = join(&conflict.lanes, ", ");
    let parts: Vec<&str> = vec![
        "  - ",
        path,
        " group ",
        count.as_str(),
        " [",
        from.as_str(),
        "..",
        to.as_str(),
        "), lanes: ",
        lanes.as_str(),
    ];
    assert(text::strs(parts@) =~= seq![
        "  - "@,
        path@,
        " group "@,
        numbers::decimal_text(number as nat),
        " ["@,
        numbers::decimal_text(conflict@.range_start as nat),
        ".."@,
        numbers::decimal_text(conflict@.range_end as nat),
        "), lanes: "@,
        text::join_texts(conflict@.lanes, ", "@),
    ]);
    put(out, parts);
}

fn put_path_groups(out: &mut Vec<String>, path: &ReviewPathOutput)
    ensures
        text::texts(final(out)@) == text::texts(old(out)@) + path_groups_lines(
            path@.path,
            path@.conflicts,
        ),
{
    let ghost start = text::texts(out@);
    let ghost all = path@.conflicts;
    let mut i: usize = 0;
    assert(start =~= start + path_groups_lines(path@.path, all.subrange(0, 0)));
    while i < path.conflicts.len()
        invariant
            i <= path.conflicts@.len(),
            all == path@.conflicts,
            text::texts(out@) == start + path_groups_lines(path@.path, all.subrange(0, i as int)),
        decreases path.conflicts@.len() - i,
    {
        let conflict = &path.conflicts[i];
        proof {
            assert(all.subrange(0, i + 1).drop_last() =~= all.subrange(0, i as int));
            assert(all.subrange(0, i + 1).last() == conflict@);
        }
        put_group(out, path.path.as_str(), i as u64 + 1, conflict);
        put_resolutions(out, &conflict.actions);
        assert(text::texts(out@) =~= start + path_groups_lines(path@.path, all.subrange(0, i + 1)));
        i = i + 1;
    }
    assert(all.subrange(0, i as int) =~= all);
}

fn put_groups(out: &mut Vec<String>, paths: &Vec<ReviewPathOutput>)
    ensures
        text::texts(final(out)@) == text::texts(old(out)@) + groups_lines(sorting::views(paths@)),
{
    let ghost start = text::texts(out@);
    let ghost all = sorting::views(paths@);
    let mut i: usize = 0;
    assert(start =~= start + groups_lines(all.subrange(0, 0)));
    while i < paths.len()
        invariant
            i <= paths@.len(),
            all == sorting::views(paths@),
            text::texts(out@) == start + groups_lines(all.subrange(0, i as int)),
        decreases paths@.len() - i,
    {
        put_path_groups(out, &paths[i]);
        proof {
            assert(all.subrange(0, i + 1).drop_last() =~= all.subrange(0, i as int));
            assert(all.subrange(0, i + 1).last() == paths@[i as int]@);
            assert(text::texts(out@) =~= start + groups_lines(all.subrange(0, i + 1)));
        }
        i = i + 1;
    }
    assert(all.subrange(0, i as int) =~= all);
}

fn put_totals(out: &mut Vec<String>, output: &CompareOutput)
    ensures
        text::texts(final(out)@) == text::texts(old(out)@).push(totals_line(output@)),
{
    let attempts = count_label(output.run.attempts.len(), "attempt");
    let checks = count_label(output.run.checks.len(), "check");
    let paths = count_label(output.review.summary.changed_paths, "changed path");
    let clean = count_label(output.review.summary.clean_ops, "clean op");
    let found = count_label(output.review.summary.conflict_groups, "conflict group");
    let parts: Vec<&str> = vec![
        "summary: ",
        attempts.as_str(),
        ", ",
        checks.as_str(),
        ", ",
        paths.as_str(),
        ", ",
        clean.as_str(),
        ", ",
        found.as_str(),
    ];
    assert(text::strs(parts@) =~= seq![
        "summary: "@,
        labels::count_text(output@.run.attempts.len(), "attempt"@),
        ", "@,
        labels::count_text(output@.run.checks.len(), "check"@),
        ", "@,
        labels::count_text(output@.review.summary.changed_paths, "changed path"@),
        ", "@,
        labels::count_text(output@.review.summary.clean_ops, "clean op"@),
        ", "@,
        labels::count_text(output@.review.summary.conflict_groups, "conflict group"@),
    ]);
    put(out, parts);
}

fn put_top(out: &mut Vec<String>, output: &CompareOutput)
    ensures
        text::texts(final(out)@) == text::texts(old(out)@) + top_lines(output@),
{
    let ghost start = text::texts(out@);
    put_text(out, "Lane compare");
    let parts: Vec<&str> = vec!["run: ", output.run.name.as_str()];
    assert(text::strs(parts@) =~= seq!["run: "@, output@.run.name]);
    put(out, parts);
    let parts: Vec<&str> = vec!["repo: ", output.repo_root.as_str()];
    assert(text::strs(parts@) =~= seq!["repo: "@, output@.repo_root]);
    put(out, parts);
    let parts: Vec<&str> = vec!["storage: ", output.storage_path.as_str()];
    assert(text::strs(parts@) =~= seq!["storage: "@, output@.storage_path]);
    put(out, parts);
    put_totals(out, output);
    assert(text::texts(out@) =~= start + top_lines(output@));
}

fn put_attempts_section(out: &mut Vec<String>, output: &CompareOutput)
    requires
        forall|i: int|
            0 <= i < output.attempts@.len() ==> orchestrate::checks_add_up(
                (#[trigger] output.attempts@[i])@,
            ),
    ensures
        text::texts(final(out)@) == text::texts(old(out)@) + attempts_section(output@),
{
    let ghost start = text::texts(out@);
    put_text(out, "");
    put_text(out, "Attempts");
    if output.attempts.len() == 0 {
        put_text(out, "  - none");
    } else {
        put_attempts(out, &output.attempts);
    }
    assert(text::texts(out@) =~= start + attempts_section(output@));
}

fn put_checks_section(out: &mut Vec<String>, output: &CompareOutput)
    ensures
        text::texts(final(out)@) == text::texts(old(out)@) + checks_section(output@),
{
    let ghost start = text::texts(out@);
    if output.run.checks.len() > 0 {
        put_text(out, "");
        put_text(out, "Checks");
        put_checks(out, &output.run.checks);
    }
    assert(text::texts(out@) =~= start + checks_section(output@));
}

fn put_decisions_section(out: &mut Vec<String>, output: &CompareOutput)
    ensures
        text::texts(final(out)@) == text::texts(old(out)@) + decisions_section(output@),
{
    let ghost start = text::texts(out@);
    put_text(out, "");
    put_text(out, "Needs decision");
    if output.review.summary.conflict_groups == 0 {
        put_text(out, "  - none");
    } else {
        put_groups(out, &output.review.paths);
    }
    assert(text::texts(out@) =~= start + decisions_section(output@));
}

proof fn lemma_four(
    a: Seq<Seq<char>>,
    b: Seq<Seq<char>>,
    c: Seq<Seq<char>>,
    d: Seq<Seq<char>>,
)
    ensures
        Seq::<Seq<char>>::empty() + a + b + c + d == a + b + c + d,
{
    assert(Seq::<Seq<char>>::empty() + a =~= a);
}

/// The text of a comparison.
pub fn format_compare(output: &CompareOutput) -> (r: String)
    requires
        forall|i: int|
            0 <= i < output.attempts@.len() ==> orchestrate::checks_add_up(
                (#[trigger] output.attempts@[i])@,
            ),
    ensures
        r@ == human_review::lines_text(compare_lines(output@)),
{
    let mut lines: Vec<String> = Vec::new();
    proof {
        assert(text::texts(lines@) =~= Seq::empty());
        lemma_four(
            top_lines(output@),
            attempts_section(output@),
            checks_section(output@),
            decisions_section(output@),
        );
    }
    put_top(&mut lines, output);
    put_attempts_section(&mut lines, output);
    put_checks_section(&mut lines, output);
    put_decisions_section(&mut lines, output);
    write_lines(&lines)
}

} // verus!
