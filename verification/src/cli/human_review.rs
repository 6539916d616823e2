//! A review as people read it.
use vstd::prelude::*;

use crate::cli::groups;
use crate::cli::groups::{accept_replacement_op_action, words};
use crate::cli::labels;
use crate::cli::labels::{
    change_status_label, count_label, format_command, last_exec_detail, last_exec_label, op_label,
    optional_bytes_label, preview_label,
};
use crate::cli::output::{
    ReviewActionKind, ReviewActionOutput, ReviewActionView, ReviewConflictOutput,
    ReviewConflictView, ReviewLaneOutput, ReviewLaneSummary, ReviewLaneSummaryView, ReviewLaneView,
    ReviewOpOutput, ReviewOpView, ReviewOutput, ReviewPathOutput, ReviewPathView, ReviewView,
};
use crate::numbers;
use crate::numbers::decimal;
use crate::sorting;
use crate::text;
use crate::text::{append_texts, cat, join, text_eq};
use crate::text_map;
use crate::text_map::TextMap;

verus! {

/// The number of clean-only paths that are still listed in detail.
pub const CLEAN_ONLY_PATH_DETAIL_LIMIT: usize = 20;

/// The number of clean operations at a path that are listed in detail.
pub const CLEAN_OP_DETAIL_LIMIT_PER_PATH: usize = 12;

/// The number of clean-only paths that are named where they are not listed in detail.
pub const CLEAN_ONLY_PATH_SAMPLE_LIMIT: usize = 8;

/// Lines as one text.
pub open spec fn lines_text(lines: Seq<Seq<char>>) -> Seq<char>
    decreases lines.len(),
{
    if lines.len() == 0 {
        Seq::empty()
    } else {
        lines_text(lines.drop_last()) + lines.last() + "\n"@
    }
}

/// Writes lines as one text.
pub fn write_lines(lines: &Vec<String>) -> (r: String)
    ensures
        r@ == lines_text(text::texts(lines@)),
{
    let ghost all = text::texts(lines@);
    let mut out = String::new();
    let mut i: usize = 0;
    assert(out@ =~= Seq::empty());
    while i < lines.len()
        invariant
            i <= lines@.len(),
            all == text::texts(lines@),
            out@ == lines_text(all.subrange(0, i as int)),
        decreases lines@.len() - i,
    {
        assert(all.subrange(0, i + 1).drop_last() =~= all.subrange(0, i as int));
        assert(all.subrange(0, i + 1).last() == lines@[i as int]@);
        out.append(lines[i].as_str());
        out.append("\n");
        i = i + 1;
    }
    assert(all.subrange(0, i as int) =~= all);
    out
}

/// Adds a line.
pub fn put(out: &mut Vec<String>, parts: Vec<&str>)
    ensures
        text::texts(final(out)@) == text::texts(old(out)@).push(text::flat(text::strs(parts@))),
{
    let line = cat(parts);
    let ghost added = line@;
    out.push(line);
    assert(text::texts(out@) =~= text::texts(old(out)@).push(added));
}

/// Adds a line that is one text.
pub fn put_text(out: &mut Vec<String>, line: &str)
    ensures
        text::texts(final(out)@) == text::texts(old(out)@).push(line@),
{
    out.push(line.to_owned());
    assert(text::texts(out@) =~= text::texts(old(out)@).push(line@));
}

/// The first action of a kind.
pub open spec fn action_of(actions: Seq<ReviewActionView>, kind: ReviewActionKind) -> Option<
    ReviewActionView,
>
    decreases actions.len(),
{
    if actions.len() == 0 {
        None
    } else if actions[0].kind == kind {
        Some(actions[0])
    } else {
        action_of(actions.drop_first(), kind)
    }
}

fn find_action(actions: &Vec<ReviewActionOutput>, kind: ReviewActionKind) -> (r: Option<
    &ReviewActionOutput,
>)
    ensures
        match r {
            Some(action) => action_of(sorting::views(actions@), kind) == Some(action@),
            None => action_of(sorting::views(actions@), kind) is None,
        },
{
    let ghost all = sorting::views(actions@);
    let mut i: usize = 0;
    assert(all.subrange(0, all.len() as int) =~= all);
    while i < actions.len()
        invariant
            i <= actions@.len(),
            all == sorting::views(actions@),
            action_of(all, kind) == action_of(all.subrange(i as int, all.len() as int), kind),
        decreases actions@.len() - i,
    {
        let ghost rest = all.subrange(i as int, all.len() as int);
        assert(rest.drop_first() =~= all.subrange(i + 1, all.len() as int));
        assert(rest[0] == actions@[i as int]@);
        if actions[i].kind == kind {
            return Some(&actions[i]);
        }
        i = i + 1;
    }
    None
}

/// The line with the command of an action, if there is one.
pub open spec fn command_line(before: Seq<char>, action: Option<ReviewActionView>) -> Seq<Seq<char>> {
    match action {
        Some(action) => seq![text::flat(seq![before, labels::command_text(action.command)])],
        None => Seq::empty(),
    }
}

fn put_command(out: &mut Vec<String>, before: &str, actions: &Vec<ReviewActionOutput>, kind:
    ReviewActionKind)
    ensures
        text::texts(final(out)@) == text::texts(old(out)@) + command_line(
            before@,
            action_of(sorting::views(actions@), kind),
        ),
{
    let ghost start = text::texts(out@);
    match find_action(actions, kind) {
        Some(action) => {
            let command = format_command(&action.command);
            let parts: Vec<&str> = vec![before, command.as_str()];
            assert(text::strs(parts@) =~= seq![before@, labels::command_text(action@.command)]);
            put(out, parts);
            assert(text::texts(out@) =~= start + command_line(before@, Some(action@)));
        },
        None => {
            assert(start =~= start + command_line(before@, None));
        },
    }
}

/// A lane among those that change a path.
pub open spec fn path_lane_line(lane: ReviewLaneView) -> Seq<char> {
    text::flat(
        seq![
            "  |  - "@,
            lane.lane,
            " "@,
            labels::change_status_text(lane.status),
            ", "@,
            labels::count_text(lane.total_ops, "op"@),
            " ("@,
            numbers::decimal_text(lane.clean_ops),
            " clean, "@,
            numbers::decimal_text(lane.conflicted_ops),
            " conflicted), "@,
            labels::optional_bytes_text(lane.base_size),
            " -> "@,
            labels::optional_bytes_text(lane.lane_size),
        ],
    )
}

fn put_path_lane(out: &mut Vec<String>, lane: &ReviewLaneOutput)
    ensures
        text::texts(final(out)@) == text::texts(old(out)@).push(path_lane_line(lane@)),
{
    let total = count_label(lane.total_ops, "op");
    let clean = decimal(lane.clean_ops as u64);
    let conflicted = decimal(lane.conflicted_ops as u64);
    let base = optional_bytes_label(lane.base_size);
    let size = optional_bytes_label(lane.lane_size);
    let parts: Vec<&str> = vec![
        "  |  - ",
        lane.lane.as_str(),
        " ",
        change_status_label(lane.status),
        ", ",
        total.as_str(),
        " (",
        clean.as_str(),
        " clean, ",
        conflicted.as_str(),
        " conflicted), ",
        base.as_str(),
        " -> ",
        size.as_str(),
    ];
    assert(text::strs(parts@) =~= seq![
        "  |  - "@,
        lane@.lane,
        " "@,
        labels::change_status_text(lane@.status),
        ", "@,
        labels::count_text(lane@.total_ops, "op"@),
        " ("@,
        numbers::decimal_text(lane@.clean_ops),
        " clean, "@,
        numbers::decimal_text(lane@.conflicted_ops),
        " conflicted), "@,
        labels::optional_bytes_text(lane@.base_size),
        " -> "@,
        labels::optional_bytes_text(lane@.lane_size),
    ]);
    put(out, parts);
}

/// The previews of an operation.
pub open spec fn preview_lines(indent: Seq<char>, op: ReviewOpView) -> Seq<Seq<char>> {
    seq![
        text::flat(seq![indent, "base: "@, labels::preview_text(op.base)]),
        text::flat(seq![indent, "inserted: "@, labels::preview_text(op.inserted)]),
    ]
}

fn put_previews(out: &mut Vec<String>, indent: &str, op: &ReviewOpOutput)
    ensures
        text::texts(final(out)@) == text::texts(old(out)@) + preview_lines(indent@, op@),
{
    let ghost start = text::texts(out@);
    let base = preview_label(&op.base);
    let inserted = preview_label(&op.inserted);
    let parts: Vec<&str> = vec![indent, "base: ", base.as_str()];
    assert(text::strs(parts@) =~= seq![indent@, "base: "@, labels::preview_text(op@.base)]);
    put(out, parts);
    let parts: Vec<&str> = vec![indent, "inserted: ", inserted.as_str()];
    assert(text::strs(parts@) =~= seq![indent@, "inserted: "@, labels::preview_text(op@.inserted)]);
    put(out, parts);
    assert(text::texts(out@) =~= start + preview_lines(indent@, op@));
}

/// The command that accepts an operation of a lane.
pub open spec fn accept_op_command(op: ReviewOpView) -> Seq<Seq<char>> {
    seq!["accept"@, op.op.lane, op.op.path, op.op.op_id]
}

/// A clean operation in detail.
pub open spec fn clean_op_lines(op: ReviewOpView) -> Seq<Seq<char>> {
    seq![text::flat(seq!["  |  - "@, labels::op_text(op.op)])] + preview_lines("  |    "@, op)
        + seq![
        text::flat(seq!["  |    promote: "@, labels::command_text(accept_op_command(op))]),
    ]
}

fn put_clean_op(out: &mut Vec<String>, op: &ReviewOpOutput)
    ensures
        text::texts(final(out)@) == text::texts(old(out)@) + clean_op_lines(op@),
{
    let ghost start = text::texts(out@);
    let label = op_label(&op.op);
    let parts: Vec<&str> = vec!["  |  - ", label.as_str()];
    assert(text::strs(parts@) =~= seq!["  |  - "@, labels::op_text(op@.op)]);
    put(out, parts);
    put_previews(out, "  |    ", op);
    let args = words(
        vec!["accept", op.op.lane.as_str(), op.op.path.as_str(), op.op.op_id.as_str()],
    );
    assert(text::texts(args@) =~= accept_op_command(op@));
    let command = format_command(&args);
    let parts: Vec<&str> = vec!["  |    promote: ", command.as_str()];
    assert(text::strs(parts@) =~= seq![
        "  |    promote: "@,
        labels::command_text(accept_op_command(op@)),
    ]);
    put(out, parts);
    assert(text::texts(out@) =~= start + clean_op_lines(op@));
}

/// An operation of a conflict group in detail.
pub open spec fn conflict_op_lines(op: ReviewOpView) -> Seq<Seq<char>> {
    seq![text::flat(seq!["       - "@, labels::op_text(op.op)])] + preview_lines(
        "         "@,
        op,
    ) + seq![
        text::flat(
            seq![
                "         resolve: "@,
                labels::command_text(groups::accept_replacement_of(op.op).command),
            ],
        ),
    ]
}

fn put_conflict_op(out: &mut Vec<String>, op: &ReviewOpOutput)
    ensures
        text::texts(final(out)@) == text::texts(old(out)@) + conflict_op_lines(op@),
{
    let ghost start = text::texts(out@);
    let label = op_label(&op.op);
    let parts: Vec<&str> = vec!["       - ", label.as_str()];
    assert(text::strs(parts@) =~= seq!["       - "@, labels::op_text(op@.op)]);
    put(out, parts);
    put_previews(out, "         ", op);
    let action = accept_replacement_op_action(op);
    let command = format_command(&action.command);
    let parts: Vec<&str> = vec!["         resolve: ", command.as_str()];
    assert(text::strs(parts@) =~= seq![
        "         resolve: "@,
        labels::command_text(groups::accept_replacement_of(op@.op).command),
    ]);
    put(out, parts);
    assert(text::texts(out@) =~= start + conflict_op_lines(op@));
}

/// The lanes that change a path.
pub open spec fn path_lane_lines(lanes: Seq<ReviewLaneView>) -> Seq<Seq<char>> {
    lanes.map_values(|lane: ReviewLaneView| path_lane_line(lane))
}

/// Clean operations in detail.
pub open spec fn clean_ops_lines(ops: Seq<ReviewOpView>) -> Seq<Seq<char>>
    decreases ops.len(),
{
    if ops.len() == 0 {
        Seq::empty()
    } else {
        clean_ops_lines(ops.drop_last()) + clean_op_lines(ops.last())
    }
}

/// Operations of a conflict group in detail.
pub open spec fn conflict_ops_lines(ops: Seq<ReviewOpView>) -> Seq<Seq<char>>
    decreases ops.len(),
{
    if ops.len() == 0 {
        Seq::empty()
    } else {
        conflict_ops_lines(ops.drop_last()) + conflict_op_lines(ops.last())
    }
}

/// A conflict group with its number.
pub open spec fn conflict_line(number: nat, conflict: ReviewConflictView) -> Seq<char> {
    text::flat(
        seq![
            "     - group "@,
            numbers::decimal_text(number),
            " ["@,
            numbers::decimal_text(conflict.range_start as nat),
            ".."@,
            numbers::decimal_text(conflict.range_end as nat),
            "), lanes: "@,
            text::join_texts(conflict.lanes, ", "@),
        ],
    )
}

/// The conflict groups at a path.
pub open spec fn conflicts_lines(conflicts: Seq<ReviewConflictView>) -> Seq<Seq<char>>
    decreases conflicts.len(),
{
    if conflicts.len() == 0 {
        Seq::empty()
    } else {
        conflicts_lines(conflicts.drop_last()).push(
            conflict_line(conflicts.len(), conflicts.last()),
        ) + conflict_ops_lines(conflicts.last().ops)
    }
}

/// The names of the operations of a lane.
pub open spec fn lane_op_names(ops: Seq<ReviewOpView>, lane: Seq<char>) -> Seq<Seq<char>>
    decreases ops.len(),
{
    if ops.len() == 0 {
        Seq::empty()
    } else if ops.last().op.lane == lane {
        lane_op_names(ops.drop_last(), lane).push(ops.last().op.op_id)
    } else {
        lane_op_names(ops.drop_last(), lane)
    }
}

/// The operations of a lane that are not listed in detail.
pub open spec fn omitted_line(path: Seq<char>, ops: Seq<ReviewOpView>, lane: Seq<char>) -> Seq<char> {
    let names = lane_op_names(ops, lane);
    text::flat(
        seq![
            "  |    "@,
            lane,
            ": "@,
            labels::count_text(names.len(), "clean op"@),
            " omitted; promote: "@,
            labels::command_text(seq!["accept"@, lane, path] + names),
        ],
    )
}

/// The operations that are not listed in detail, lane by lane.
pub open spec fn omitted_lines(path: Seq<char>, ops: Seq<ReviewOpView>) -> Seq<Seq<char>> {
    seq![
        text::flat(
            seq![
                "  |  - ... "@,
                labels::count_text(ops.len(), "clean op"@),
                " omitted from this path"@,
            ],
        ),
    ] + text_map::listing(groups::lanes_of(ops)).map_values(
        |lane: Seq<char>| omitted_line(path, ops, lane),
    )
}

/// A heading with its lines, or with a line that says that there are none.
pub open spec fn section(heading: Seq<char>, none: Seq<char>, lines: Seq<Seq<char>>, empty: bool) -> Seq<
    Seq<char>,
> {
    seq![heading] + if empty {
        seq![none]
    } else {
        lines
    }
}

/// The clean operations at a path, the first ones in detail.
pub open spec fn clean_section(path: ReviewPathView) -> Seq<Seq<char>> {
    let n = path.clean_ops.len() as int;
    if n > CLEAN_OP_DETAIL_LIMIT_PER_PATH {
        clean_ops_lines(path.clean_ops.subrange(0, CLEAN_OP_DETAIL_LIMIT_PER_PATH as int))
            + omitted_lines(
            path.path,
            path.clean_ops.subrange(CLEAN_OP_DETAIL_LIMIT_PER_PATH as int, n),
        )
    } else {
        clean_ops_lines(path.clean_ops)
    }
}

fn put_path_lanes(out: &mut Vec<String>, lanes: &Vec<ReviewLaneOutput>)
    ensures
        text::texts(final(out)@) == text::texts(old(out)@) + path_lane_lines(
            sorting::views(lanes@),
        ),
{
    let ghost start = text::texts(out@);
    let ghost all = sorting::views(lanes@);
    let mut i: usize = 0;
    assert(start =~= start + path_lane_lines(all.subrange(0, 0)));
    while i < lanes.len()
        invariant
            i <= lanes@.len(),
            all == sorting::views(lanes@),
            text::texts(out@) == start + path_lane_lines(all.subrange(0, i as int)),
        decreases lanes@.len() - i,
    {
        put_path_lane(out, &lanes[i]);
        i = i + 1;
        assert(text::texts(out@) =~= start + path_lane_lines(all.subrange(0, i as int)));
    }
    assert(all.subrange(0, i as int) =~= all);
}

fn put_clean_ops(out: &mut Vec<String>, ops: &Vec<ReviewOpOutput>, count: usize)
    requires
        count <= ops@.len(),
    ensures
        text::texts(final(out)@) == text::texts(old(out)@) + clean_ops_lines(
            sorting::views(ops@).subrange(0, count as int),
        ),
{
    let ghost start = text::texts(out@);
    let ghost all = sorting::views(ops@);
    let mut i: usize = 0;
    assert(start =~= start + clean_ops_lines(all.subrange(0, 0)));
    while i < count
        invariant
            i <= count <= ops@.len(),
            all == sorting::views(ops@),
            text::texts(out@) == start + clean_ops_lines(all.subrange(0, i as int)),
        decreases count - i,
    {
        let ghost before = text::texts(out@);
        put_clean_op(out, &ops[i]);
        proof {
            assert(all.subrange(0, i + 1).drop_last() =~= all.subrange(0, i as int));
            assert(all.subrange(0, i + 1).last() == ops@[i as int]@);
            assert(text::texts(out@) =~= start + clean_ops_lines(all.subrange(0, i + 1)));
        }
        i = i + 1;
    }
}

fn put_conflict_ops(out: &mut Vec<String>, ops: &Vec<ReviewOpOutput>)
    ensures
        text::texts(final(out)@) == text::texts(old(out)@) + conflict_ops_lines(
            sorting::views(ops@),
        ),
{
    let ghost start = text::texts(out@);
    let ghost all = sorting::views(ops@);
    let mut i: usize = 0;
    assert(start =~= start + conflict_ops_lines(all.subrange(0, 0)));
    while i < ops.len()
        invariant
            i <= ops@.len(),
            all == sorting::views(ops@),
            text::texts(out@) == start + conflict_ops_lines(all.subrange(0, i as int)),
        decreases ops@.len() - i,
    {
        put_conflict_op(out, &ops[i]);
        proof {
            assert(all.subrange(0, i + 1).drop_last() =~= all.subrange(0, i as int));
            assert(all.subrange(0, i + 1).last() == ops@[i as int]@);
            assert(text::texts(out@) =~= start + conflict_ops_lines(all.subrange(0, i + 1)));
        }
        i = i + 1;
    }
    assert(all.subrange(0, i as int) =~= all);
}

fn put_conflicts(out: &mut Vec<String>, conflicts: &Vec<ReviewConflictOutput>)
    ensures
        text::texts(final(out)@) == text::texts(old(out)@) + conflicts_lines(
            sorting::views(conflicts@),
        ),
{
    let ghost start = text::texts(out@);
    let ghost all = sorting::views(conflicts@);
    let mut i: usize = 0;
    assert(start =~= start + conflicts_lines(all.subrange(0, 0)));
    while i < conflicts.len()
        invariant
            i <= conflicts@.len(),
            all == sorting::views(conflicts@),
            text::texts(out@) == start + conflicts_lines(all.subrange(0, i as int)),
        decreases conflicts@.len() - i,
    {
        let conflict = &conflicts[i];
        let number = decimal(i as u64 + 1);
        let from = decimal(conflict.range_start);
        let to = decimal(conflict.range_end);
        let lanes = join(&conflict.lanes, ", ");
        let parts: Vec<&str> = vec![
            "     - group ",
            number.as_str(),
            " [",
            from.as_str(),
            "..",
            to.as_str(),
            "), lanes: ",
            lanes.as_str(),
        ];
        proof {
            assert(all.subrange(0, i + 1).drop_last() =~= all.subrange(0, i as int));
            assert(all.subrange(0, i + 1).last() == conflict@);
            assert(text::strs(parts@) =~= seq![
                "     - group "@,
                numbers::decimal_text((i + 1) as nat),
                " ["@,
                numbers::decimal_text(conflict@.range_start as nat),
                ".."@,
                numbers::decimal_text(conflict@.range_end as nat),
                "), lanes: "@,
                text::join_texts(conflict@.lanes, ", "@),
            ]);
        }
        put(out, parts);
        put_conflict_ops(out, &conflict.ops);
        assert(text::texts(out@) =~= start + conflicts_lines(all.subrange(0, i + 1)));
        i = i + 1;
    }
    assert(all.subrange(0, i as int) =~= all);
}

fn omitted_names(ops: &Vec<ReviewOpOutput>, from: usize, lane: &str) -> (r: Vec<String>)
    requires
        from <= ops@.len(),
    ensures
        text::texts(r@) == lane_op_names(
            sorting::views(ops@).subrange(from as int, ops@.len() as int),
            lane@,
        ),
{
    let ghost all = sorting::views(ops@).subrange(from as int, ops@.len() as int);
    let mut names: Vec<String> = Vec::new();
    let mut i: usize = from;
    assert(text::texts(names@) =~= Seq::empty());
    while i < ops.len()
        invariant
            from <= i <= ops@.len(),
            all == sorting::views(ops@).subrange(from as int, ops@.len() as int),
            text::texts(names@) == lane_op_names(all.subrange(0, i - from), lane@),
        decreases ops@.len() - i,
    {
        let ghost before = text::texts(names@);
        proof {
            assert(all.subrange(0, i - from + 1).drop_last() =~= all.subrange(0, i - from));
            assert(all.subrange(0, i - from + 1).last() == ops@[i as int]@);
        }
        if text_eq(ops[i].op.lane.as_str(), lane) {
            names.push(ops[i].op.op_id.clone());
            assert(text::texts(names@) =~= before.push(ops@[i as int].op.op_id@));
        }
        i = i + 1;
    }
    assert(all.subrange(0, i - from) =~= all);
    names
}

fn omitted_lanes(ops: &Vec<ReviewOpOutput>, from: usize) -> (r: TextMap<()>)
    requires
        from <= ops@.len(),
    ensures
        r.wf(),
        r@.dom() == groups::lanes_of(
            sorting::views(ops@).subrange(from as int, ops@.len() as int),
        ),
{
    let ghost all = sorting::views(ops@).subrange(from as int, ops@.len() as int);
    let mut lanes: TextMap<()> = TextMap::new();
    let mut i: usize = from;
    while i < ops.len()
        invariant
            from <= i <= ops@.len(),
            all == sorting::views(ops@).subrange(from as int, ops@.len() as int),
            lanes.wf(),
            forall|k: Seq<char>| #[trigger]
                lanes@.contains_key(k) <==> (exists|j: int|
                    0 <= j < i - from && (#[trigger] all[j]).op.lane == k),
        decreases ops@.len() - i,
    {
        assert(all[i - from].op.lane == ops@[i as int].op.lane@);
        let _ = lanes.insert(ops[i].op.lane.clone(), ());
        i = i + 1;
    }
    assert(lanes@.dom() =~= groups::lanes_of(all));
    lanes
}

fn put_omitted(out: &mut Vec<String>, path: &str, ops: &Vec<ReviewOpOutput>, from: usize)
    requires
        from <= ops@.len(),
    ensures
        text::texts(final(out)@) == text::texts(old(out)@) + omitted_lines(
            path@,
            sorting::views(ops@).subrange(from as int, ops@.len() as int),
        ),
{
    let ghost start = text::texts(out@);
    let ghost all = sorting::views(ops@).subrange(from as int, ops@.len() as int);
    let count = count_label(ops.len() - from, "clean op");
    let parts: Vec<&str> = vec!["  |  - ... ", count.as_str(), " omitted from this path"];
    assert(text::strs(parts@) =~= seq![
        "  |  - ... "@,
        labels::count_text(all.len(), "clean op"@),
        " omitted from this path"@,
    ]);
    put(out, parts);
    let ghost first = text::texts(out@);
    let lanes = omitted_lanes(ops, from);
    let ghost keys = lanes.keys();
    let ghost lane_line = |lane: Seq<char>| omitted_line(path@, all, lane);
    proof {
        lanes.lemma_wf();
    }
    let mut i: usize = 0;
    assert(first =~= first + keys.subrange(0, 0).map_values(lane_line));
    while i < lanes.len()
        invariant
            i <= lanes.pairs().len(),
            from <= ops@.len(),
            keys == lanes.keys(),
            all == sorting::views(ops@).subrange(from as int, ops@.len() as int),
            lane_line == (|lane: Seq<char>| omitted_line(path@, all, lane)),
            text::texts(out@) == first + keys.subrange(0, i as int).map_values(lane_line),
        decreases lanes.pairs().len() - i,
    {
        let lane = lanes.key_at(i);
        let names = omitted_names(ops, from, lane);
        let mut args = words(vec!["accept", lane, path]);
        assert(text::texts(args@) =~= seq!["accept"@, lane@, path@]);
        let count = count_label(names.len(), "clean op");
        append_texts(&mut args, &names);
        assert(text::texts(args@) =~= seq!["accept"@, lane@, path@] + text::texts(names@));
        let command = format_command(&args);
        let parts: Vec<&str> = vec![
            "  |    ",
            lane,
            ": ",
            count.as_str(),
            " omitted; promote: ",
            command.as_str(),
        ];
        proof {
            let listed = lane_op_names(all, lane@);
            assert(text::strs(parts@) =~= seq![
                "  |    "@,
                lane@,
                ": "@,
                labels::count_text(listed.len(), "clean op"@),
                " omitted; promote: "@,
                labels::command_text(seq!["accept"@, lane@, path@] + listed),
            ]);
        }
        put(out, parts);
        i = i + 1;
        assert(text::texts(out@) =~= first + keys.subrange(0, i as int).map_values(lane_line));
    }
    assert(keys.subrange(0, i as int) =~= keys);
    assert(text::texts(out@) =~= start + omitted_lines(path@, all));
}

/// The lanes that change a path, under their heading.
pub open spec fn lanes_section(path: ReviewPathView) -> Seq<Seq<char>> {
    section("  |- lanes"@, "  |  - none"@, path_lane_lines(path.lanes), path.lanes.len() == 0)
}

/// The clean operations at a path, under their heading.
pub open spec fn clean_ops_section(path: ReviewPathView) -> Seq<Seq<char>> {
    section("  |- clean ops"@, "  |  - none"@, clean_section(path), path.clean_ops.len() == 0)
}

/// The conflict groups at a path, under their heading.
pub open spec fn conflicts_section(path: ReviewPathView) -> Seq<Seq<char>> {
    section(
        "  `- conflict groups"@,
        "     - none"@,
        conflicts_lines(path.conflicts),
        path.conflicts.len() == 0,
    )
}

/// What lanes do at a path.
pub open spec fn path_lines(path: ReviewPathView) -> Seq<Seq<char>> {
    lanes_section(path) + clean_ops_section(path) + conflicts_section(path)
}

fn put_lanes_section(out: &mut Vec<String>, path: &ReviewPathOutput)
    ensures
        text::texts(final(out)@) == text::texts(old(out)@) + lanes_section(path@),
{
    let ghost start = text::texts(out@);
    put_text(out, "  |- lanes");
    if path.lanes.len() == 0 {
        put_text(out, "  |  - none");
    } else {
        put_path_lanes(out, &path.lanes);
    }
    assert(text::texts(out@) =~= start + lanes_section(path@));
}

fn put_clean_section(out: &mut Vec<String>, path: &ReviewPathOutput)
    ensures
        text::texts(final(out)@) == text::texts(old(out)@) + clean_ops_section(path@),
{
    let ghost start = text::texts(out@);
    put_text(out, "  |- clean ops");
    if path.clean_ops.len() == 0 {
        put_text(out, "  |  - none");
    } else if path.clean_ops.len() > CLEAN_OP_DETAIL_LIMIT_PER_PATH {
        put_clean_ops(out, &path.clean_ops, CLEAN_OP_DETAIL_LIMIT_PER_PATH);
        put_omitted(out, path.path.as_str(), &path.clean_ops, CLEAN_OP_DETAIL_LIMIT_PER_PATH);
    } else {
        put_clean_ops(out, &path.clean_ops, path.clean_ops.len());
        assert(path@.clean_ops.subrange(0, path@.clean_ops.len() as int) =~= path@.clean_ops);
    }
    assert(text::texts(out@) =~= start + clean_ops_section(path@));
}

fn put_conflicts_section(out: &mut Vec<String>, path: &ReviewPathOutput)
    ensures
        text::texts(final(out)@) == text::texts(old(out)@) + conflicts_section(path@),
{
    let ghost start = text::texts(out@);
    put_text(out, "  `- conflict groups");
    if path.conflicts.len() == 0 {
        put_text(out, "     - none");
    } else {
        put_conflicts(out, &path.conflicts);
    }
    assert(text::texts(out@) =~= start + conflicts_section(path@));
}

proof fn lemma_three(start: Seq<Seq<char>>, a: Seq<Seq<char>>, b: Seq<Seq<char>>, c: Seq<Seq<char>>)
    ensures
        start + a + b + c == start + (a + b + c),
{
    assert(start + a + b + c =~= start + (a + b + c));
}

/// Writes what lanes do at a path.
pub fn write_path(out: &mut Vec<String>, path: &ReviewPathOutput)
    ensures
        text::texts(final(out)@) == text::texts(old(out)@) + path_lines(path@),
{
    proof {
        lemma_three(
            text::texts(out@),
            lanes_section(path@),
            clean_ops_section(path@),
            conflicts_section(path@),
        );
    }
    put_lanes_section(out, path);
    put_clean_section(out, path);
    put_conflicts_section(out, path);
}

/// Whether all operations at a path are clean.
pub open spec fn clean_only(path: ReviewPathView) -> bool {
    path.clean_ops.len() > 0 && path.conflicts.len() == 0
}

/// The paths at which all operations are clean.
pub open spec fn clean_only_paths(paths: Seq<ReviewPathView>) -> Seq<ReviewPathView> {
    paths.filter(|path: ReviewPathView| clean_only(path))
}

fn is_clean_only_path(path: &ReviewPathOutput) -> (r: bool)
    ensures
        r == clean_only(path@),
{
    path.clean_ops.len() > 0 && path.conflicts.len() == 0
}

/// The views of a list of references.
pub open spec fn path_views(paths: Seq<&ReviewPathOutput>) -> Seq<ReviewPathView> {
    paths.map_values(|path: &ReviewPathOutput| path@)
}

fn find_clean_only(paths: &Vec<ReviewPathOutput>) -> (r: Vec<&ReviewPathOutput>)
    ensures
        path_views(r@) == clean_only_paths(sorting::views(paths@)),
{
    let ghost all = sorting::views(paths@);
    let ghost keep = |path: ReviewPathView| clean_only(path);
    let mut found: Vec<&ReviewPathOutput> = Vec::new();
    let mut i: usize = 0;
    reveal(Seq::filter);
    assert(all.subrange(0, 0) =~= Seq::empty());
    assert(path_views(found@) =~= Seq::empty());
    while i < paths.len()
        invariant
            i <= paths@.len(),
            all == sorting::views(paths@),
            keep == (|path: ReviewPathView| clean_only(path)),
            path_views(found@) == all.subrange(0, i as int).filter(keep),
        decreases paths@.len() - i,
    {
        let ghost before = path_views(found@);
        reveal(Seq::filter);
        assert(all.subrange(0, i + 1).drop_last() =~= all.subrange(0, i as int));
        assert(all.subrange(0, i + 1).last() == paths@[i as int]@);
        if is_clean_only_path(&paths[i]) {
            found.push(&paths[i]);
            assert(path_views(found@) =~= before.push(paths@[i as int]@));
        }
        i = i + 1;
    }
    assert(all.subrange(0, i as int) =~= all);
    found
}

/// The clean operations of a lane at given paths.
pub open spec fn lane_clean_names(paths: Seq<ReviewPathView>, lane: Seq<char>) -> Seq<Seq<char>>
    decreases paths.len(),
{
    if paths.len() == 0 {
        Seq::empty()
    } else {
        lane_clean_names(paths.drop_last(), lane) + lane_op_names(paths.last().clean_ops, lane)
    }
}

/// The number of paths at which a lane has clean operations.
pub open spec fn clean_path_count(paths: Seq<ReviewPathView>, lane: Seq<char>) -> nat
    decreases paths.len(),
{
    if paths.len() == 0 {
        0
    } else if lane_op_names(paths.last().clean_ops, lane).len() > 0 {
        clean_path_count(paths.drop_last(), lane) + 1
    } else {
        clean_path_count(paths.drop_last(), lane)
    }
}

/// The clean-only work of a lane.
pub open spec fn clean_only_lane_lines(paths: Seq<ReviewPathView>, lane: ReviewLaneSummaryView) -> Seq<
    Seq<char>,
> {
    let clean_ops = lane_clean_names(paths, lane.lane).len();
    if clean_ops == 0 {
        Seq::empty()
    } else {
        seq![
            text::flat(
                seq![
                    "  - "@,
                    lane.lane,
                    ": "@,
                    labels::count_text(clean_ops, "clean op"@),
                    " across "@,
                    labels::count_text(clean_path_count(paths, lane.lane), "path"@),
                ],
            ),
        ] + command_line("    command: "@, action_of(lane.actions, ReviewActionKind::Accept))
    }
}

/// The clean-only work, lane by lane.
pub open spec fn clean_only_lanes_lines(
    paths: Seq<ReviewPathView>,
    lanes: Seq<ReviewLaneSummaryView>,
) -> Seq<Seq<char>>
    decreases lanes.len(),
{
    if lanes.len() == 0 {
        Seq::empty()
    } else {
        clean_only_lanes_lines(paths, lanes.drop_last()) + clean_only_lane_lines(
            paths,
            lanes.last(),
        )
    }
}

/// The command that repeats a review.
pub open spec fn review_command(lane: Option<Seq<char>>) -> Seq<Seq<char>> {
    match lane {
        Some(lane) => seq!["review"@, lane],
        None => seq!["review"@],
    }
}

/// The first clean-only paths.
pub open spec fn sample_lines(paths: Seq<ReviewPathView>) -> Seq<Seq<char>> {
    let shown = if paths.len() > CLEAN_ONLY_PATH_SAMPLE_LIMIT {
        paths.subrange(0, CLEAN_ONLY_PATH_SAMPLE_LIMIT as int)
    } else {
        paths
    };
    let lines = shown.map_values(
        |path: ReviewPathView| text::flat(seq!["    - "@, path.path]),
    );
    if paths.len() > CLEAN_ONLY_PATH_SAMPLE_LIMIT {
        lines.push(
            text::flat(
                seq![
                    "    - ... "@,
                    labels::count_text(
                        (paths.len() - CLEAN_ONLY_PATH_SAMPLE_LIMIT) as nat,
                        "more path"@,
                    ),
                ],
            ),
        )
    } else {
        lines
    }
}

/// The paths at which all operations are clean, in short.
pub open spec fn clean_only_lines(output: ReviewView) -> Seq<Seq<char>> {
    let paths = clean_only_paths(output.paths);
    if paths.len() == 0 {
        Seq::empty()
    } else {
        seq![
            ""@,
            "Clean-only paths"@,
            text::flat(
                seq![
                    "  - "@,
                    labels::count_text(paths.len(), "clean-only path"@),
                    " omitted from detailed listing"@,
                ],
            ),
        ] + clean_only_lanes_lines(paths, output.lanes) + seq![
            text::flat(
                seq![
                    "  - full JSON details: "@,
                    labels::command_text(review_command(output.lane)),
                ],
            ),
            "  - sample paths"@,
        ] + sample_lines(paths)
    }
}

fn count_lane_ops(ops: &Vec<ReviewOpOutput>, lane: &str) -> (r: Vec<String>)
    ensures
        text::texts(r@) == lane_op_names(sorting::views(ops@), lane@),
{
    let names = omitted_names(ops, 0, lane);
    assert(sorting::views(ops@).subrange(0, ops@.len() as int) =~= sorting::views(ops@));
    names
}

fn clean_names(paths: &Vec<&ReviewPathOutput>, lane: &str) -> (r: (Vec<String>, usize))
    ensures
        text::texts(r.0@) == lane_clean_names(path_views(paths@), lane@),
        r.1 == clean_path_count(path_views(paths@), lane@),
{
    let ghost all = path_views(paths@);
    let mut names: Vec<String> = Vec::new();
    let mut count: usize = 0;
    let mut i: usize = 0;
    let n: usize = paths.len();
    assert(text::texts(names@) =~= Seq::empty());
    while i < n
        invariant
            i <= n == paths@.len(),
            all == path_views(paths@),
            text::texts(names@) == lane_clean_names(all.subrange(0, i as int), lane@),
            count == clean_path_count(all.subrange(0, i as int), lane@),
            count <= i,
        decreases n - i,
    {
        let ghost before = text::texts(names@);
        proof {
            assert(all.subrange(0, i + 1).drop_last() =~= all.subrange(0, i as int));
            assert(all.subrange(0, i + 1).last() == paths@[i as int]@);
        }
        let more = count_lane_ops(&paths[i].clean_ops, lane);
        let ghost added = text::texts(more@);
        assert(added == lane_op_names(all[i as int].clean_ops, lane@));
        if more.len() > 0 {
            count = count + 1;
        }
        append_texts(&mut names, &more);
        i = i + 1;
    }
    assert(all.subrange(0, i as int) =~= all);
    (names, count)
}

fn put_clean_only_lanes(
    out: &mut Vec<String>,
    paths: &Vec<&ReviewPathOutput>,
    lanes: &Vec<ReviewLaneSummary>,
)
    ensures
        text::texts(final(out)@) == text::texts(old(out)@) + clean_only_lanes_lines(
            path_views(paths@),
            sorting::views(lanes@),
        ),
{
    let ghost start = text::texts(out@);
    let ghost listed = path_views(paths@);
    let ghost all = sorting::views(lanes@);
    let mut i: usize = 0;
    assert(start =~= start + clean_only_lanes_lines(listed, all.subrange(0, 0)));
    while i < lanes.len()
        invariant
            i <= lanes@.len(),
            listed == path_views(paths@),
            all == sorting::views(lanes@),
            text::texts(out@) == start + clean_only_lanes_lines(listed, all.subrange(0, i as int)),
        decreases lanes@.len() - i,
    {
        let lane = &lanes[i];
        let ghost before = text::texts(out@);
        let (names, path_count) = clean_names(paths, lane.lane.as_str());
        if names.len() > 0 {
            let ops = count_label(names.len(), "clean op");
            let across = count_label(path_count, "path");
            let parts: Vec<&str> = vec![
                "  - ",
                lane.lane.as_str(),
                ": ",
                ops.as_str(),
                " across ",
                across.as_str(),
            ];
            assert(text::strs(parts@) =~= seq![
                "  - "@,
                lane@.lane,
                ": "@,
                labels::count_text(lane_clean_names(listed, lane@.lane).len(), "clean op"@),
                " across "@,
                labels::count_text(clean_path_count(listed, lane@.lane), "path"@),
            ]);
            put(out, parts);
            put_command(out, "    command: ", &lane.actions, ReviewActionKind::Accept);
        }
        proof {
            assert(all.subrange(0, i + 1).drop_last() =~= all.subrange(0, i as int));
            assert(all.subrange(0, i + 1).last() == lane@);
            assert(text::texts(out@) =~= before + clean_only_lane_lines(listed, lane@));
            assert(text::texts(out@) =~= start + clean_only_lanes_lines(
                listed,
                all.subrange(0, i + 1),
            ));
        }
        i = i + 1;
    }
    assert(all.subrange(0, i as int) =~= all);
}

fn put_samples(out: &mut Vec<String>, paths: &Vec<&ReviewPathOutput>)
    ensures
        text::texts(final(out)@) == text::texts(old(out)@) + sample_lines(path_views(paths@)),
{
    let ghost start = text::texts(out@);
    let ghost all = path_views(paths@);
    let ghost line = |path: ReviewPathView| text::flat(seq!["    - "@, path.path]);
    let shown: usize = if paths.len() > CLEAN_ONLY_PATH_SAMPLE_LIMIT {
        CLEAN_ONLY_PATH_SAMPLE_LIMIT
    } else {
        paths.len()
    };
    let mut i: usize = 0;
    assert(start =~= start + all.subrange(0, 0).map_values(line));
    while i < shown
        invariant
            i <= shown <= paths@.len(),
            all == path_views(paths@),
            line == (|path: ReviewPathView| text::flat(seq!["    - "@, path.path])),
            text::texts(out@) == start + all.subrange(0, i as int).map_values(line),
        decreases shown - i,
    {
        let parts: Vec<&str> = vec!["    - ", paths[i].path.as_str()];
        assert(text::strs(parts@) =~= seq!["    - "@, all[i as int].path]);
        put(out, parts);
        i = i + 1;
        assert(text::texts(out@) =~= start + all.subrange(0, i as int).map_values(line));
    }
    if paths.len() > CLEAN_ONLY_PATH_SAMPLE_LIMIT {
        let more = count_label(paths.len() - CLEAN_ONLY_PATH_SAMPLE_LIMIT, "more path");
        let parts: Vec<&str> = vec!["    - ... ", more.as_str()];
        assert(text::strs(parts@) =~= seq![
            "    - ... "@,
            labels::count_text(
                (all.len() - CLEAN_ONLY_PATH_SAMPLE_LIMIT) as nat,
                "more path"@,
            ),
        ]);
        put(out, parts);
    } else {
        assert(all.subrange(0, shown as int) =~= all);
    }
    assert(text::texts(out@) =~= start + sample_lines(all));
}

/// Writes the paths at which all operations are clean, in short.
pub fn write_clean_only_paths(out: &mut Vec<String>, output: &ReviewOutput)
    ensures
        text::texts(final(out)@) == text::texts(old(out)@) + clean_only_lines(output@),
{
    let ghost start = text::texts(out@);
    let paths = find_clean_only(&output.paths);
    let ghost listed = path_views(paths@);
    if paths.len() == 0 {
        assert(start =~= start + clean_only_lines(output@));
        return;
    }
    put_text(out, "");
    put_text(out, "Clean-only paths");
    let count = count_label(paths.len(), "clean-only path");
    let parts: Vec<&str> = vec!["  - ", count.as_str(), " omitted from detailed listing"];
    assert(text::strs(parts@) =~= seq![
        "  - "@,
        labels::count_text(listed.len(), "clean-only path"@),
        " omitted from detailed listing"@,
    ]);
    put(out, parts);
    put_clean_only_lanes(out, &paths, &output.lanes);
    let args = match &output.lane {
        Some(lane) => words(vec!["review", lane.as_str()]),
        None => words(vec!["review"]),
    };
    assert(text::texts(args@) =~= review_command(output@.lane));
    let command = format_command(&args);
    let parts: Vec<&str> = vec!["  - full JSON details: ", command.as_str()];
    assert(text::strs(parts@) =~= seq![
        "  - full JSON details: "@,
        labels::command_text(review_command(output@.lane)),
    ]);
    put(out, parts);
    put_text(out, "  - sample paths");
    put_samples(out, &paths);
    assert(text::texts(out@) =~= start + clean_only_lines(output@));
}

/// How a lane stands.
pub open spec fn lane_status_lines(lane: ReviewLaneSummaryView) -> Seq<Seq<char>> {
    let line = text::flat(
        seq![
            "  - "@,
            lane.lane,
            ": "@,
            labels::count_text(lane.changed_paths, "changed path"@),
            ", "@,
            labels::count_text(lane.clean_ops, "clean op"@),
            ", "@,
            labels::count_text(lane.conflicted_ops, "conflicted op"@),
            ", "@,
            labels::last_exec_text(lane.last_run),
        ],
    );
    match labels::last_exec_detail_text(lane.last_run) {
        Some(detail) => seq![line, text::flat(seq!["    "@, detail])],
        None => seq![line],
    }
}

/// How the lanes stand.
pub open spec fn lanes_status_lines(lanes: Seq<ReviewLaneSummaryView>) -> Seq<Seq<char>>
    decreases lanes.len(),
{
    if lanes.len() == 0 {
        Seq::empty()
    } else {
        lanes_status_lines(lanes.drop_last()) + lane_status_lines(lanes.last())
    }
}

/// A section of its own, after an empty line.
pub open spec fn main_section(
    heading: Seq<char>,
    none: Seq<char>,
    lines: Seq<Seq<char>>,
    empty: bool,
) -> Seq<Seq<char>> {
    seq![""@] + section(heading, none, lines, empty)
}

fn put_lane_status(out: &mut Vec<String>, lane: &ReviewLaneSummary)
    ensures
        text::texts(final(out)@) == text::texts(old(out)@) + lane_status_lines(lane@),
{
    let ghost start = text::texts(out@);
    let paths = count_label(lane.changed_paths, "changed path");
    let clean = count_label(lane.clean_ops, "clean op");
    let conflicted = count_label(lane.conflicted_ops, "conflicted op");
    let run = last_exec_label(&lane.last_run);
    let parts: Vec<&str> = vec![
        "  - ",
        lane.lane.as_str(),
        ": ",
        paths.as_str(),
        ", ",
        clean.as_str(),
        ", ",
        conflicted.as_str(),
        ", ",
        run.as_str(),
    ];
    assert(text::strs(parts@) =~= seq![
        "  - "@,
        lane@.lane,
        ": "@,
        labels::count_text(lane@.changed_paths, "changed path"@),
        ", "@,
        labels::count_text(lane@.clean_ops, "clean op"@),
        ", "@,
        labels::count_text(lane@.conflicted_ops, "conflicted op"@),
        ", "@,
        labels::last_exec_text(lane@.last_run),
    ]);
    put(out, parts);
    match last_exec_detail(&lane.last_run) {
        Some(detail) => {
            let parts: Vec<&str> = vec!["    ", detail.as_str()];
            assert(text::strs(parts@) =~= seq!["    "@, detail@]);
            put(out, parts);
        },
        None => {},
    }
    assert(text::texts(out@) =~= start + lane_status_lines(lane@));
}

fn write_lane_status(out: &mut Vec<String>, lanes: &Vec<ReviewLaneSummary>)
    ensures
        text::texts(final(out)@) == text::texts(old(out)@) + main_section(
            "Lane status"@,
            "  - none"@,
            lanes_status_lines(sorting::views(lanes@)),
            lanes@.len() == 0,
        ),
{
    let ghost start = text::texts(out@);
    let ghost all = sorting::views(lanes@);
    put_text(out, "");
    put_text(out, "Lane status");
    let ghost head = text::texts(out@);
    if lanes.len() == 0 {
        put_text(out, "  - none");
    }
    let mut i: usize = 0;
    if lanes.len() > 0 {
        assert(head =~= head + lanes_status_lines(all.subrange(0, 0)));
        while i < lanes.len()
            invariant
                i <= lanes@.len(),
                all == sorting::views(lanes@),
                text::texts(out@) == head + lanes_status_lines(all.subrange(0, i as int)),
            decreases lanes@.len() - i,
        {
            put_lane_status(out, &lanes[i]);
            proof {
                assert(all.subrange(0, i + 1).drop_last() =~= all.subrange(0, i as int));
                assert(all.subrange(0, i + 1).last() == lanes@[i as int]@);
                assert(text::texts(out@) =~= head + lanes_status_lines(all.subrange(0, i + 1)));
            }
            i = i + 1;
        }
        assert(all.subrange(0, i as int) =~= all);
    }
    assert(text::texts(out@) =~= start + main_section(
        "Lane status"@,
        "  - none"@,
        lanes_status_lines(all),
        lanes@.len() == 0,
    ));
}

/// What of a lane can be accepted at once.
pub open spec fn promotable_lane_lines(
    lane: ReviewLaneSummaryView,
    paths: Seq<ReviewPathView>,
) -> Seq<Seq<char>> {
    if lane.clean_ops == 0 {
        Seq::empty()
    } else {
        seq![
            text::flat(
                seq![
                    "  - "@,
                    lane.lane,
                    ": "@,
                    labels::count_text(lane.clean_ops, "clean op"@),
                    " across "@,
                    labels::count_text(clean_path_count(paths, lane.lane), "path"@),
                    ", "@,
                    labels::count_text(lane.changed_paths, "changed path"@),
                    " total, "@,
                    labels::last_exec_text(lane.last_run),
                ],
            ),
        ] + command_line("    command: "@, action_of(lane.actions, ReviewActionKind::Accept))
    }
}

/// What of the lanes can be accepted at once.
pub open spec fn promotable_lines(
    lanes: Seq<ReviewLaneSummaryView>,
    paths: Seq<ReviewPathView>,
) -> Seq<Seq<char>>
    decreases lanes.len(),
{
    if lanes.len() == 0 {
        Seq::empty()
    } else {
        promotable_lines(lanes.drop_last(), paths) + promotable_lane_lines(lanes.last(), paths)
    }
}

/// Whether some lane has clean operations.
pub open spec fn some_promotable(lanes: Seq<ReviewLaneSummaryView>) -> bool {
    exists|i: int| 0 <= i < lanes.len() && (#[trigger] lanes[i]).clean_ops > 0
}

fn promotable_path_count(paths: &Vec<ReviewPathOutput>, lane: &str) -> (r: usize)
    ensures
        r == clean_path_count(sorting::views(paths@), lane@),
{
    let ghost all = sorting::views(paths@);
    let mut count: usize = 0;
    let mut i: usize = 0;
    let n: usize = paths.len();
    while i < n
        invariant
            i <= n == paths@.len(),
            all == sorting::views(paths@),
            count == clean_path_count(all.subrange(0, i as int), lane@),
            count <= i,
        decreases n - i,
    {
        proof {
            assert(all.subrange(0, i + 1).drop_last() =~= all.subrange(0, i as int));
            assert(all.subrange(0, i + 1).last() == paths@[i as int]@);
        }
        let names = count_lane_ops(&paths[i].clean_ops, lane);
        assert(text::texts(names@).len() == names@.len());
        if names.len() > 0 {
            count = count + 1;
        }
        i = i + 1;
    }
    assert(all.subrange(0, i as int) =~= all);
    count
}

fn put_promotable_lane(out: &mut Vec<String>, lane: &ReviewLaneSummary, paths: &Vec<ReviewPathOutput>)
    ensures
        text::texts(final(out)@) == text::texts(old(out)@) + promotable_lane_lines(
            lane@,
            sorting::views(paths@),
        ),
{
    let ghost start = text::texts(out@);
    if lane.clean_ops > 0 {
        let clean = count_label(lane.clean_ops, "clean op");
        let across = count_label(promotable_path_count(paths, lane.lane.as_str()), "path");
        let changed = count_label(lane.changed_paths, "changed path");
        let run = last_exec_label(&lane.last_run);
        let parts: Vec<&str> = vec![
            "  - ",
            lane.lane.as_str(),
            ": ",
            clean.as_str(),
            " across ",
            across.as_str(),
            ", ",
            changed.as_str(),
            " total, ",
            run.as_str(),
        ];
        assert(text::strs(parts@) =~= seq![
            "  - "@,
            lane@.lane,
            ": "@,
            labels::count_text(lane@.clean_ops, "clean op"@),
            " across "@,
            labels::count_text(clean_path_count(sorting::views(paths@), lane@.lane), "path"@),
            ", "@,
            labels::count_text(lane@.changed_paths, "changed path"@),
            " total, "@,
            labels::last_exec_text(lane@.last_run),
        ]);
        put(out, parts);
        put_command(out, "    command: ", &lane.actions, ReviewActionKind::Accept);
    }
    assert(text::texts(out@) =~= start + promotable_lane_lines(lane@, sorting::views(paths@)));
}

fn write_promotable_now(
    out: &mut Vec<String>,
    lanes: &Vec<ReviewLaneSummary>,
    paths: &Vec<ReviewPathOutput>,
)
    ensures
        text::texts(final(out)@) == text::texts(old(out)@) + main_section(
            "Promotable now"@,
            "  - none"@,
            promotable_lines(sorting::views(lanes@), sorting::views(paths@)),
            !some_promotable(sorting::views(lanes@)),
        ),
{
    let ghost start = text::texts(out@);
    let ghost all = sorting::views(lanes@);
    let ghost listed = sorting::views(paths@);
    put_text(out, "");
    put_text(out, "Promotable now");
    let ghost head = text::texts(out@);
    let mut wrote_lane = false;
    let mut i: usize = 0;
    assert(head =~= head + promotable_lines(all.subrange(0, 0), listed));
    while i < lanes.len()
        invariant
            i <= lanes@.len(),
            all == sorting::views(lanes@),
            listed == sorting::views(paths@),
            wrote_lane == some_promotable(all.subrange(0, i as int)),
            !wrote_lane ==> text::texts(out@) == head,
            text::texts(out@) == head + promotable_lines(all.subrange(0, i as int), listed),
        decreases lanes@.len() - i,
    {
        let ghost shorter = all.subrange(0, i as int);
        let ghost longer = all.subrange(0, i + 1);
        put_promotable_lane(out, &lanes[i], paths);
        proof {
            assert(longer.drop_last() =~= shorter);
            assert(longer.last() == lanes@[i as int]@);
            assert(text::texts(out@) =~= head + promotable_lines(longer, listed));
            if some_promotable(shorter) {
                let k = choose|k: int| 0 <= k < shorter.len() && (#[trigger] shorter[k]).clean_ops > 0;
                assert(longer[k].clean_ops > 0);
            }
            if some_promotable(longer) && longer.last().clean_ops == 0 {
                let k = choose|k: int| 0 <= k < longer.len() && (#[trigger] longer[k]).clean_ops > 0;
                assert(shorter[k].clean_ops > 0);
            }
            if longer.last().clean_ops > 0 {
                assert(longer[i as int].clean_ops > 0);
            } else if !wrote_lane {
                assert(text::texts(out@) =~= head);
            }
        }
        if lanes[i].clean_ops > 0 {
            wrote_lane = true;
        }
        i = i + 1;
    }
    assert(all.subrange(0, i as int) =~= all);
    if !wrote_lane {
        put_text(out, "  - none");
    }
    assert(text::texts(out@) =~= start + main_section(
        "Promotable now"@,
        "  - none"@,
        promotable_lines(all, listed),
        !some_promotable(all),
    ));
}

/// A conflict group that needs a decision.
pub open spec fn decision_line(path: Seq<char>, number: nat, conflict: ReviewConflictView) -> Seq<
    char,
> {
    text::flat(
        seq![
            "  - "@,
            path,
            " group "@,
            numbers::decimal_text(number),
            " ["@,
            numbers::decimal_text(conflict.range_start as nat),
            ".."@,
            numbers::decimal_text(conflict.range_end as nat),
            "), "@,
            labels::count_text(conflict.ops.len(), "op"@),
            ", lanes: "@,
            text::join_texts(conflict.lanes, ", "@),
        ],
    )
}

/// The conflict groups of a path that need a decision.
pub open spec fn path_decisions(path: Seq<char>, conflicts: Seq<ReviewConflictView>) -> Seq<
    Seq<char>,
>
    decreases conflicts.len(),
{
    if conflicts.len() == 0 {
        Seq::empty()
    } else {
        path_decisions(path, conflicts.drop_last()).push(
            decision_line(path, conflicts.len(), conflicts.last()),
        )
    }
}

/// The conflict groups that need a decision.
pub open spec fn decision_lines(paths: Seq<ReviewPathView>) -> Seq<Seq<char>>
    decreases paths.len(),
{
    if paths.len() == 0 {
        Seq::empty()
    } else {
        decision_lines(paths.drop_last()) + path_decisions(
            paths.last().path,
            paths.last().conflicts,
        )
    }
}

fn put_decisions(out: &mut Vec<String>, path: &ReviewPathOutput)
    ensures
        text::texts(final(out)@) == text::texts(old(out)@) + path_decisions(
            path@.path,
            path@.conflicts,
        ),
{
    let ghost start = text::texts(out@);
    let ghost all = path@.conflicts;
    let mut i: usize = 0;
    assert(start =~= start + path_decisions(path@.path, all.subrange(0, 0)));
    while i < path.conflicts.len()
        invariant
            i <= path.conflicts@.len(),
            all == path@.conflicts,
            text::texts(out@) == start + path_decisions(path@.path, all.subrange(0, i as int)),
        decreases path.conflicts@.len() - i,
    {
        let conflict = &path.conflicts[i];
        let number = decimal(i as u64 + 1);
        let from = decimal(conflict.range_start);
        let to = decimal(conflict.range_end);
        let count = count_label(conflict.ops.len(), "op");
        let lanes = join(&conflict.lanes, ", ");
        let parts: Vec<&str> = vec![
            "  - ",
            path.path.as_str(),
            " group ",
            number.as_str(),
            " [",
            from.as_str(),
            "..",
            to.as_str(),
            "), ",
            count.as_str(),
            ", lanes: ",
            lanes.as_str(),
        ];
        proof {
            assert(all.subrange(0, i + 1).drop_last() =~= all.subrange(0, i as int));
            assert(all.subrange(0, i + 1).last() == conflict@);
            assert(text::strs(parts@) =~= seq![
                "  - "@,
                path@.path,
                " group "@,
                numbers::decimal_text((i + 1) as nat),
                " ["@,
                numbers::decimal_text(conflict@.range_start as nat),
                ".."@,
                numbers::decimal_text(conflict@.range_end as nat),
                "), "@,
                labels::count_text(conflict@.ops.len(), "op"@),
                ", lanes: "@,
                text::join_texts(conflict@.lanes, ", "@),
            ]);
        }
        put(out, parts);
        i = i + 1;
        assert(text::texts(out@) =~= start + path_decisions(path@.path, all.subrange(0, i as int)));
    }
    assert(all.subrange(0, i as int) =~= all);
}

fn write_decision_queue(out: &mut Vec<String>, paths: &Vec<ReviewPathOutput>)
    ensures
        text::texts(final(out)@) == text::texts(old(out)@) + main_section(
            "Needs decision"@,
            "  - none"@,
            decision_lines(sorting::views(paths@)),
            decision_lines(sorting::views(paths@)).len() == 0,
        ),
{
    let ghost start = text::texts(out@);
    let ghost all = sorting::views(paths@);
    put_text(out, "");
    put_text(out, "Needs decision");
    let ghost head = text::texts(out@);
    let before: usize = out.len();
    let mut i: usize = 0;
    assert(head =~= head + decision_lines(all.subrange(0, 0)));
    assert(head.len() == before);
    while i < paths.len()
        invariant
            i <= paths@.len(),
            all == sorting::views(paths@),
            text::texts(out@) == head + decision_lines(all.subrange(0, i as int)),
        decreases paths@.len() - i,
    {
        put_decisions(out, &paths[i]);
        proof {
            assert(all.subrange(0, i + 1).drop_last() =~= all.subrange(0, i as int));
            assert(all.subrange(0, i + 1).last() == paths@[i as int]@);
            assert(text::texts(out@) =~= head + decision_lines(all.subrange(0, i + 1)));
        }
        i = i + 1;
    }
    assert(all.subrange(0, i as int) =~= all);
    assert(text::texts(out@).len() == out@.len());
    if out.len() == before {
        put_text(out, "  - none");
    }
    assert(text::texts(out@) =~= start + main_section(
        "Needs decision"@,
        "  - none"@,
        decision_lines(all),
        decision_lines(all).len() == 0,
    ));
}

/// How a lane can be discarded.
pub open spec fn discard_lane_lines(lane: ReviewLaneSummaryView) -> Seq<Seq<char>> {
    match action_of(lane.actions, ReviewActionKind::Discard) {
        Some(action) => seq![
            text::flat(
                seq!["  - "@, lane.lane, ": "@, labels::command_text(action.command)],
            ),
        ],
        None => Seq::empty(),
    }
}

/// How lanes can be discarded.
pub open spec fn discard_lanes_lines(lanes: Seq<ReviewLaneSummaryView>) -> Seq<Seq<char>>
    decreases lanes.len(),
{
    if lanes.len() == 0 {
        Seq::empty()
    } else {
        discard_lanes_lines(lanes.drop_last()) + discard_lane_lines(lanes.last())
    }
}

/// The section on discarding lanes.
pub open spec fn discard_lines(lanes: Seq<ReviewLaneSummaryView>) -> Seq<Seq<char>> {
    if lanes.len() == 0 {
        Seq::empty()
    } else {
        seq![""@, "Discard lanes"@] + discard_lanes_lines(lanes)
    }
}

fn write_discard_actions(out: &mut Vec<String>, lanes: &Vec<ReviewLaneSummary>)
    ensures
        text::texts(final(out)@) == text::texts(old(out)@) + discard_lines(sorting::views(lanes@)),
{
    let ghost start = text::texts(out@);
    let ghost all = sorting::views(lanes@);
    if lanes.len() == 0 {
        assert(start =~= start + discard_lines(all));
        return;
    }
    put_text(out, "");
    put_text(out, "Discard lanes");
    let ghost head = text::texts(out@);
    let mut i: usize = 0;
    assert(head =~= head + discard_lanes_lines(all.subrange(0, 0)));
    while i < lanes.len()
        invariant
            i <= lanes@.len(),
            all == sorting::views(lanes@),
            text::texts(out@) == head + discard_lanes_lines(all.subrange(0, i as int)),
        decreases lanes@.len() - i,
    {
        let lane = &lanes[i];
        match find_action(&lane.actions, ReviewActionKind::Discard) {
            Some(action) => {
                let command = format_command(&action.command);
                let parts: Vec<&str> = vec!["  - ", lane.lane.as_str(), ": ", command.as_str()];
                assert(text::strs(parts@) =~= seq![
                    "  - "@,
                    lane@.lane,
                    ": "@,
                    labels::command_text(action@.command),
                ]);
                put(out, parts);
            },
            None => {},
        }
        proof {
            assert(all.subrange(0, i + 1).drop_last() =~= all.subrange(0, i as int));
            assert(all.subrange(0, i + 1).last() == lane@);
            assert(text::texts(out@) =~= head + discard_lanes_lines(all.subrange(0, i + 1)));
        }
        i = i + 1;
    }
    assert(all.subrange(0, i as int) =~= all);
    assert(text::texts(out@) =~= start + discard_lines(all));
}

/// Whether clean-only paths are too many to be listed in detail.
pub open spec fn compacts(paths: Seq<ReviewPathView>) -> bool {
    clean_only_paths(paths).len() > CLEAN_ONLY_PATH_DETAIL_LIMIT
}

/// The paths that are listed in detail.
pub open spec fn detailed_lines(paths: Seq<ReviewPathView>, compact: bool) -> Seq<Seq<char>>
    decreases paths.len(),
{
    if paths.len() == 0 {
        Seq::empty()
    } else if compact && clean_only(paths.last()) {
        detailed_lines(paths.drop_last(), compact)
    } else {
        detailed_lines(paths.drop_last(), compact) + seq![""@, paths.last().path] + path_lines(
            paths.last(),
        )
    }
}

/// The part of a review on paths.
pub open spec fn paths_lines(output: ReviewView) -> Seq<Seq<char>> {
    if output.paths.len() == 0 {
        seq![""@, "No changed paths."@]
    } else if compacts(output.paths) {
        detailed_lines(output.paths, true) + clean_only_lines(output)
    } else {
        detailed_lines(output.paths, false)
    }
}

/// What a review covers.
pub open spec fn scope_text(lane: Option<Seq<char>>) -> Seq<char> {
    match lane {
        Some(lane) => lane,
        None => "all lanes"@,
    }
}

/// The numbers of a review in one line.
pub open spec fn summary_line(output: ReviewView) -> Seq<char> {
    text::flat(
        seq![
            "summary: "@,
            labels::count_text(output.summary.lanes, "lane"@),
            ", "@,
            labels::count_text(output.summary.changed_paths, "changed path"@),
            ", "@,
            labels::count_text(output.summary.clean_ops, "clean op"@),
            ", "@,
            labels::count_text(output.summary.conflicted_ops, "conflicted op"@),
            ", "@,
            labels::count_text(output.summary.conflict_groups, "conflict group"@),
        ],
    )
}

/// The heading of a review.
pub open spec fn heading_lines(output: ReviewView) -> Seq<Seq<char>> {
    seq![
        "Lane review"@,
        text::flat(seq!["scope: "@, scope_text(output.lane)]),
        text::flat(seq!["repo: "@, output.repo_root]),
        text::flat(seq!["storage: "@, output.storage_path]),
        summary_line(output),
    ]
}

/// How the lanes stand, under its heading.
pub open spec fn status_section(output: ReviewView) -> Seq<Seq<char>> {
    main_section(
        "Lane status"@,
        "  - none"@,
        lanes_status_lines(output.lanes),
        output.lanes.len() == 0,
    )
}

/// What can be accepted at once, under its heading.
pub open spec fn promotable_section(output: ReviewView) -> Seq<Seq<char>> {
    main_section(
        "Promotable now"@,
        "  - none"@,
        promotable_lines(output.lanes, output.paths),
        !some_promotable(output.lanes),
    )
}

/// What needs a decision, under its heading.
pub open spec fn decision_section(output: ReviewView) -> Seq<Seq<char>> {
    main_section(
        "Needs decision"@,
        "  - none"@,
        decision_lines(output.paths),
        decision_lines(output.paths).len() == 0,
    )
}

/// The lines of a review.
pub open spec fn review_lines(output: ReviewView) -> Seq<Seq<char>> {
    heading_lines(output) + status_section(output) + promotable_section(output) + decision_section(
        output,
    ) + paths_lines(output) + discard_lines(output.lanes)
}

fn put_heading(out: &mut Vec<String>, output: &ReviewOutput)
    ensures
        text::texts(final(out)@) == text::texts(old(out)@) + heading_lines(output@),
{
    let ghost start = text::texts(out@);
    put_text(out, "Lane review");
    let scope = match &output.lane {
        Some(lane) => lane.as_str(),
        None => "all lanes",
    };
    let parts: Vec<&str> = vec!["scope: ", scope];
    assert(text::strs(parts@) =~= seq!["scope: "@, scope_text(output@.lane)]);
    put(out, parts);
    let parts: Vec<&str> = vec!["repo: ", output.repo_root.as_str()];
    assert(text::strs(parts@) =~= seq!["repo: "@, output@.repo_root]);
    put(out, parts);
    let parts: Vec<&str> = vec!["storage: ", output.storage_path.as_str()];
    assert(text::strs(parts@) =~= seq!["storage: "@, output@.storage_path]);
    put(out, parts);
    put_summary(out, output);
    assert(text::texts(out@) =~= start + heading_lines(output@));
}

fn put_summary(out: &mut Vec<String>, output: &ReviewOutput)
    ensures
        text::texts(final(out)@) == text::texts(old(out)@).push(summary_line(output@)),
{
    let lanes = count_label(output.summary.lanes, "lane");
    let paths = count_label(output.summary.changed_paths, "changed path");
    let clean = count_label(output.summary.clean_ops, "clean op");
    let conflicted = count_label(output.summary.conflicted_ops, "conflicted op");
    let found = count_label(output.summary.conflict_groups, "conflict group");
    let parts: Vec<&str> = vec![
        "summary: ",
        lanes.as_str(),
        ", ",
        paths.as_str(),
        ", ",
        clean.as_str(),
        ", ",
        conflicted.as_str(),
        ", ",
        found.as_str(),
    ];
    assert(text::strs(parts@) =~= seq![
        "summary: "@,
        labels::count_text(output@.summary.lanes, "lane"@),
        ", "@,
        labels::count_text(output@.summary.changed_paths, "changed path"@),
        ", "@,
        labels::count_text(output@.summary.clean_ops, "clean op"@),
        ", "@,
        labels::count_text(output@.summary.conflicted_ops, "conflicted op"@),
        ", "@,
        labels::count_text(output@.summary.conflict_groups, "conflict group"@),
    ]);
    put(out, parts);
}

fn put_paths(out: &mut Vec<String>, paths: &Vec<ReviewPathOutput>, compact: bool)
    ensures
        text::texts(final(out)@) == text::texts(old(out)@) + detailed_lines(
            sorting::views(paths@),
            compact,
        ),
{
    let ghost start = text::texts(out@);
    let ghost all = sorting::views(paths@);
    let mut i: usize = 0;
    assert(start =~= start + detailed_lines(all.subrange(0, 0), compact));
    while i < paths.len()
        invariant
            i <= paths@.len(),
            all == sorting::views(paths@),
            text::texts(out@) == start + detailed_lines(all.subrange(0, i as int), compact),
        decreases paths@.len() - i,
    {
        let path = &paths[i];
        proof {
            assert(all.subrange(0, i + 1).drop_last() =~= all.subrange(0, i as int));
            assert(all.subrange(0, i + 1).last() == path@);
        }
        if !(compact && is_clean_only_path(path)) {
            put_text(out, "");
            put_text(out, path.path.as_str());
            write_path(out, path);
        }
        assert(text::texts(out@) =~= start + detailed_lines(all.subrange(0, i + 1), compact));
        i = i + 1;
    }
    assert(all.subrange(0, i as int) =~= all);
}

fn put_paths_section(out: &mut Vec<String>, output: &ReviewOutput)
    ensures
        text::texts(final(out)@) == text::texts(old(out)@) + paths_lines(output@),
{
    let ghost start = text::texts(out@);
    if output.paths.len() == 0 {
        put_text(out, "");
        put_text(out, "No changed paths.");
    } else {
        let found = find_clean_only(&output.paths);
        assert(path_views(found@).len() == found@.len());
        let compact = found.len() > CLEAN_ONLY_PATH_DETAIL_LIMIT;
        put_paths(out, &output.paths, compact);
        if compact {
            write_clean_only_paths(out, output);
        }
    }
    assert(text::texts(out@) =~= start + paths_lines(output@));
}

proof fn lemma_six(
    start: Seq<Seq<char>>,
    a: Seq<Seq<char>>,
    b: Seq<Seq<char>>,
    c: Seq<Seq<char>>,
    d: Seq<Seq<char>>,
    e: Seq<Seq<char>>,
    f: Seq<Seq<char>>,
)
    ensures
        start + a + b + c + d + e + f == start + (a + b + c + d + e + f),
{
    assert(start + a + b + c + d + e + f =~= start + (a + b + c + d + e + f));
}

fn write_review(out: &mut Vec<String>, output: &ReviewOutput)
    ensures
        text::texts(final(out)@) == text::texts(old(out)@) + review_lines(output@),
{
    proof {
        lemma_six(
            text::texts(out@),
            heading_lines(output@),
            status_section(output@),
            promotable_section(output@),
            decision_section(output@),
            paths_lines(output@),
            discard_lines(output@.lanes),
        );
    }
    put_heading(out, output);
    write_lane_status(out, &output.lanes);
    write_promotable_now(out, &output.lanes, &output.paths);
    write_decision_queue(out, &output.paths);
    put_paths_section(out, output);
    write_discard_actions(out, &output.lanes);
}

/// The text of a review.
pub fn format(output: &ReviewOutput) -> (r: String)
    ensures
        r@ == lines_text(review_lines(output@)),
{
    let mut lines: Vec<String> = Vec::new();
    assert(text::texts(lines@) =~= Seq::empty());
    write_review(&mut lines, output);
    assert(Seq::<Seq<char>>::empty() + review_lines(output@) =~= review_lines(output@));
    write_lines(&lines)
}

} // verus!
