//! Short texts that reviews are made of.
use vstd::prelude::*;

use crate::cli::output::{BytePreview, BytePreviewView};
use crate::numbers;
use crate::numbers::{decimal, hex_of, signed_decimal};
use crate::text;
use crate::text::{cat, chars_of, join, split, text_eq, trim};
use crate::types;
use crate::types::{utf8_beginning, LaneOpKind, LaneOpSummary, LaneRunState, OpSummaryView, RunStateView};
use crate::vfs;
use crate::vfs::LaneFileChangeStatus;

verus! {

/// The number of characters of a preview in a review for people.
pub const HUMAN_PREVIEW_CHAR_LIMIT: usize = 160;

/// The number of characters that are kept of a digest.
pub const SHORT_SHA_LEN: usize = 12;

/// A number of things.
pub open spec fn count_text(count: nat, singular: Seq<char>) -> Seq<char> {
    text::flat(
        if count == 1 {
            seq!["1 "@, singular]
        } else {
            seq![numbers::decimal_text(count), " "@, singular, "s"@]
        },
    )
}

/// A number of things.
pub fn count_label(count: usize, singular: &str) -> (r: String)
    ensures
        r@ == count_text(count as nat, singular@),
{
    if count == 1 {
        let parts: Vec<&str> = vec!["1 ", singular];
        assert(text::strs(parts@) =~= seq!["1 "@, singular@]);
        cat(parts)
    } else {
        let number = decimal(count as u64);
        let parts: Vec<&str> = vec![number.as_str(), " ", singular, "s"];
        assert(text::strs(parts@) =~= seq![
            numbers::decimal_text(count as nat),
            " "@,
            singular@,
            "s"@,
        ]);
        cat(parts)
    }
}

/// A number of bytes.
pub open spec fn bytes_text(bytes: nat) -> Seq<char> {
    numbers::decimal_text(bytes) + " B"@
}

/// A number of bytes.
pub fn bytes_label(bytes: u64) -> (r: String)
    ensures
        r@ == bytes_text(bytes as nat),
{
    decimal(bytes).concat(" B")
}

/// The size of a file that may be missing.
pub open spec fn optional_bytes_text(bytes: Option<nat>) -> Seq<char> {
    match bytes {
        Some(bytes) => bytes_text(bytes),
        None => "missing"@,
    }
}

/// The size of a file that may be missing.
pub fn optional_bytes_label(bytes: Option<usize>) -> (r: String)
    ensures
        r@ == optional_bytes_text(vfs::opt_size(bytes)),
{
    match bytes {
        Some(bytes) => bytes_label(bytes as u64),
        None => "missing".to_owned(),
    }
}

/// The name of a kind of operation.
pub open spec fn op_kind_text(kind: LaneOpKind) -> Seq<char> {
    match kind {
        LaneOpKind::Create => "create"@,
        LaneOpKind::Insert => "insert"@,
        LaneOpKind::Delete => "delete"@,
        LaneOpKind::Replace => "replace"@,
    }
}

/// The name of a kind of operation.
pub fn op_kind_label(kind: LaneOpKind) -> (r: &'static str)
    ensures
        r@ == op_kind_text(kind),
{
    match kind {
        LaneOpKind::Create => "create",
        LaneOpKind::Insert => "insert",
        LaneOpKind::Delete => "delete",
        LaneOpKind::Replace => "replace",
    }
}

/// The name of a kind of change.
pub open spec fn change_status_text(status: LaneFileChangeStatus) -> Seq<char> {
    match status {
        LaneFileChangeStatus::Created => "created"@,
        LaneFileChangeStatus::Modified => "modified"@,
        LaneFileChangeStatus::Deleted => "deleted"@,
    }
}

/// The name of a kind of change.
pub fn change_status_label(status: LaneFileChangeStatus) -> (r: &'static str)
    ensures
        r@ == change_status_text(status),
{
    match status {
        LaneFileChangeStatus::Created => "created",
        LaneFileChangeStatus::Modified => "modified",
        LaneFileChangeStatus::Deleted => "deleted",
    }
}

/// Whether a character stands for itself in a command.
pub open spec fn plain_char(c: char) -> bool {
    ('a' <= c <= 'z') || ('A' <= c <= 'Z') || ('0' <= c <= '9') || c == '-' || c == '_' || c == '.'
        || c == '/' || c == '\\' || c == ':' || c == '=' || c == '+' || c == ',' || c == '@' || c == '%'
}

/// Whether an argument needs no quotes.
pub open spec fn plain_arg(arg: Seq<char>) -> bool {
    arg.len() > 0 && forall|i: int| 0 <= i < arg.len() ==> plain_char(#[trigger] arg[i])
}

/// The text with every single quote doubled.
pub open spec fn doubled_quotes(s: Seq<char>) -> Seq<char>
    decreases s.len(),
{
    if s.len() == 0 {
        Seq::empty()
    } else if s.last() == '\'' {
        doubled_quotes(s.drop_last()).push('\'').push('\'')
    } else {
        doubled_quotes(s.drop_last()).push(s.last())
    }
}

/// An argument as it is typed.
pub open spec fn quoted_arg(arg: Seq<char>) -> Seq<char> {
    if arg == "<replacement-file>"@ || plain_arg(arg) {
        arg
    } else {
        seq!['\''] + doubled_quotes(arg) + seq!['\'']
    }
}

/// A command as it is typed.
pub open spec fn command_text(args: Seq<Seq<char>>) -> Seq<char> {
    text::join_texts(
        seq!["lane"@] + args.map_values(|arg: Seq<char>| quoted_arg(arg)),
        " "@,
    )
}

fn is_plain_command_arg(arg: &str) -> (r: bool)
    ensures
        r == plain_arg(arg@),
{
    let chars = chars_of(arg);
    if chars.len() == 0 {
        return false;
    }
    let mut i: usize = 0;
    while i < chars.len()
        invariant
            i <= chars@.len(),
            chars@ == arg@,
            forall|k: int| 0 <= k < i ==> plain_char(#[trigger] arg@[k]),
        decreases chars@.len() - i,
    {
        let c = chars[i];
        let plain = ('a' <= c && c <= 'z') || ('A' <= c && c <= 'Z') || ('0' <= c && c <= '9') || c
            == '-' || c == '_' || c == '.' || c == '/' || c == '\\' || c == ':' || c == '=' || c
            == '+' || c == ',' || c == '@' || c == '%';
        if !plain {
            assert(!plain_char(arg@[i as int]));
            return false;
        }
        i = i + 1;
    }
    true
}

fn quote_command_arg(arg: &str) -> (r: String)
    ensures
        r@ == quoted_arg(arg@),
{
    if text_eq(arg, "<replacement-file>") || is_plain_command_arg(arg) {
        return arg.to_owned();
    }
    let chars = chars_of(arg);
    let mut out = String::new();
    out.push('\'');
    let mut i: usize = 0;
    assert(out@ =~= seq!['\''] + doubled_quotes(arg@.subrange(0, 0)));
    while i < chars.len()
        invariant
            i <= chars@.len(),
            chars@ == arg@,
            out@ == seq!['\''] + doubled_quotes(arg@.subrange(0, i as int)),
        decreases chars@.len() - i,
    {
        let c = chars[i];
        assert(arg@.subrange(0, i + 1).drop_last() =~= arg@.subrange(0, i as int));
        if c == '\'' {
            out.push('\'');
        }
        out.push(c);
        i = i + 1;
        assert(out@ =~= seq!['\''] + doubled_quotes(arg@.subrange(0, i as int)));
    }
    assert(arg@.subrange(0, i as int) =~= arg@);
    out.push('\'');
    assert(out@ =~= seq!['\''] + doubled_quotes(arg@) + seq!['\'']);
    out
}

/// A command as it is typed.
pub fn format_command(args: &Vec<String>) -> (r: String)
    ensures
        r@ == command_text(text::texts(args@)),
{
    let ghost all = text::texts(args@);
    let mut quoted: Vec<String> = Vec::new();
    quoted.push("lane".to_owned());
    let mut i: usize = 0;
    while i < args.len()
        invariant
            i <= args@.len(),
            all == text::texts(args@),
            quoted@.len() == i + 1,
            quoted@[0]@ == "lane"@,
            forall|k: int| 0 <= k < i ==> (#[trigger] quoted@[k + 1])@ == quoted_arg(all[k]),
        decreases args@.len() - i,
    {
        quoted.push(quote_command_arg(args[i].as_str()));
        i = i + 1;
    }
    proof {
        let target = seq!["lane"@] + all.map_values(|arg: Seq<char>| quoted_arg(arg));
        assert forall|k: int| 0 <= k < target.len() implies text::texts(quoted@)[k] == target[k] by {
            if k > 0 {
                assert(quoted@[(k - 1) + 1]@ == quoted_arg(all[k - 1]));
            }
        }
        assert(text::texts(quoted@) =~= target);
    }
    join(&quoted, " ")
}

/// A character as it is written in a preview: printable ASCII as it is, quotes, backslashes and
/// line breaks with a backslash, and everything else by its number.
pub open spec fn escaped_char(c: char) -> Seq<char> {
    if c == '\t' {
        "\\t"@
    } else if c == '\r' {
        "\\r"@
    } else if c == '\n' {
        "\\n"@
    } else if c == '\'' {
        "\\'"@
    } else if c == '"' {
        "\\\""@
    } else if c == '\\' {
        "\\\\"@
    } else if 0x20 <= c as u32 <= 0x7e {
        seq![c]
    } else {
        "\\u{"@ + numbers::hex_number(c as u32 as nat) + "}"@
    }
}

fn escaped_character(c: char) -> (r: String)
    ensures
        r@ == escaped_char(c),
{
    let code: u32 = c as u32;
    if c == '\t' {
        "\\t".to_owned()
    } else if c == '\r' {
        "\\r".to_owned()
    } else if c == '\n' {
        "\\n".to_owned()
    } else if c == '\'' {
        "\\'".to_owned()
    } else if c == '"' {
        "\\\"".to_owned()
    } else if c == '\\' {
        "\\\\".to_owned()
    } else if 0x20 <= code && code <= 0x7e {
        let mut r = String::new();
        r.push(c);
        assert(r@ =~= seq![c]);
        r
    } else {
        "\\u{".to_owned().concat(hex_of(code).as_str()).concat("}")
    }
}

/// What is written after `written` of the rest of a text, and whether something had to be left
/// out.
pub open spec fn escaped_after(written: Seq<char>, rest: Seq<char>) -> (Seq<char>, bool)
    decreases rest.len(),
{
    if rest.len() == 0 {
        (written, false)
    } else if written.len() + escaped_char(rest[0]).len() > HUMAN_PREVIEW_CHAR_LIMIT {
        (written, true)
    } else {
        escaped_after(written + escaped_char(rest[0]), rest.drop_first())
    }
}

/// The beginning of a text as it is written in a preview, and whether something had to be left
/// out.
pub open spec fn escaped_beginning(s: Seq<char>) -> (Seq<char>, bool) {
    escaped_after(Seq::empty(), s)
}

fn escaped_text_preview(s: &str) -> (r: (String, bool))
    ensures
        (r.0@, r.1) == escaped_beginning(s@),
{
    let chars = chars_of(s);
    let mut out = String::new();
    let mut written: usize = 0;
    let mut i: usize = 0;
    assert(s@.subrange(0, s@.len() as int) =~= s@);
    assert(out@ =~= Seq::empty());
    while i < chars.len()
        invariant
            i <= chars@.len(),
            chars@ == s@,
            written == out@.len(),
            written <= HUMAN_PREVIEW_CHAR_LIMIT,
            escaped_beginning(s@) == escaped_after(out@, s@.subrange(i as int, s@.len() as int)),
        decreases chars@.len() - i,
    {
        let sequence = escaped_character(chars[i]);
        let width: usize = chars_of(sequence.as_str()).len();
        let ghost rest = s@.subrange(i as int, s@.len() as int);
        assert(rest.drop_first() =~= s@.subrange(i + 1, s@.len() as int));
        if width > HUMAN_PREVIEW_CHAR_LIMIT - written {
            return (out, true);
        }
        out.append(sequence.as_str());
        written = written + width;
        i = i + 1;
    }
    (out, false)
}

/// The first line that is not blank, without the blanks around it.
pub open spec fn first_line(lines: Seq<Seq<char>>) -> Seq<char>
    decreases lines.len(),
{
    if lines.len() == 0 {
        Seq::empty()
    } else if text::trim_text(lines[0]).len() > 0 {
        text::trim_text(lines[0])
    } else {
        first_line(lines.drop_first())
    }
}

/// A preview in double quotes.
pub open spec fn quoted_preview(written: Seq<char>, shortened: bool) -> Seq<char> {
    if shortened {
        "\""@ + written + "...\""@
    } else {
        "\""@ + written + "\""@
    }
}

/// The first line of a text that is not blank, as a preview.
pub open spec fn one_line_text(s: Seq<char>) -> Seq<char> {
    let (written, shortened) = escaped_beginning(first_line(text::split_text(s, '\n')));
    quoted_preview(written, shortened)
}

fn quote_preview(written: &str, shortened: bool) -> (r: String)
    ensures
        r@ == quoted_preview(written@, shortened),
{
    if shortened {
        "\"".to_owned().concat(written).concat("...\"")
    } else {
        "\"".to_owned().concat(written).concat("\"")
    }
}

/// The first line of a text that is not blank, as a preview.
pub fn one_line_preview(s: &str) -> (r: String)
    ensures
        r@ == one_line_text(s@),
{
    let lines = split(s, '\n');
    let ghost all = text::split_text(s@, '\n');
    let mut line = String::new();
    let mut i: usize = 0;
    assert(all.subrange(0, all.len() as int) =~= all);
    assert(line@ =~= Seq::empty());
    while i < lines.len() && line.as_str().is_empty()
        invariant
            i <= lines@.len(),
            all == text::texts(lines@),
            line@.len() == 0 ==> first_line(all) == first_line(
                all.subrange(i as int, all.len() as int),
            ),
            line@.len() > 0 ==> first_line(all) == line@,
        decreases lines@.len() - i,
    {
        let ghost rest = all.subrange(i as int, all.len() as int);
        assert(rest.drop_first() =~= all.subrange(i + 1, all.len() as int));
        assert(rest[0] == lines@[i as int]@);
        line = trim(lines[i].as_str());
        i = i + 1;
    }
    if line.as_str().is_empty() {
        assert(all.subrange(i as int, all.len() as int) =~= Seq::empty());
        assert(line@ =~= Seq::empty());
    }
    let (written, shortened) = escaped_text_preview(line.as_str());
    quote_preview(written.as_str(), shortened)
}

/// The beginning of a digest; one that cannot be cut there is shown whole.
pub open spec fn short_sha_text(sha: Seq<char>) -> Seq<char> {
    let beginning = types::utf8_prefix(sha, SHORT_SHA_LEN as nat);
    if types::utf8_len(beginning) == SHORT_SHA_LEN {
        beginning
    } else {
        sha
    }
}

/// The beginning of a digest.
pub fn short_sha(sha: &str) -> (r: String)
    ensures
        r@ == short_sha_text(sha@),
{
    let (beginning, used, _) = utf8_beginning(sha, SHORT_SHA_LEN);
    if used == SHORT_SHA_LEN {
        beginning
    } else {
        sha.to_owned()
    }
}

/// A byte string in a review for people.
pub open spec fn preview_text(preview: BytePreviewView) -> Seq<char> {
    if preview.len == 0 {
        "<empty>"@
    } else {
        match preview.utf8 {
            None => text::flat(
                seq![
                    "<binary "@,
                    bytes_text(preview.len),
                    ", sha256 "@,
                    short_sha_text(preview.sha256),
                    ">"@,
                ],
            ),
            Some(shown) => {
                let (written, shortened) = escaped_beginning(shown);
                if shortened || preview.truncated {
                    text::flat(
                        seq![
                            quoted_preview(written, true),
                            " ("@,
                            bytes_text(preview.len),
                            ", sha256 "@,
                            short_sha_text(preview.sha256),
                            ")"@,
                        ],
                    )
                } else {
                    quoted_preview(written, false)
                }
            },
        }
    }
}

/// A byte string in a review for people.
pub fn preview_label(preview: &BytePreview) -> (r: String)
    ensures
        r@ == preview_text(preview@),
{
    if preview.len == 0 {
        return "<empty>".to_owned();
    }
    let size = bytes_label(preview.len as u64);
    let sha = short_sha(preview.sha256.as_str());
    match &preview.utf8 {
        None => {
            let parts: Vec<&str> = vec!["<binary ", size.as_str(), ", sha256 ", sha.as_str(), ">"];
            assert(text::strs(parts@) =~= seq![
                "<binary "@,
                bytes_text(preview@.len),
                ", sha256 "@,
                short_sha_text(preview@.sha256),
                ">"@,
            ]);
            cat(parts)
        },
        Some(shown) => {
            let (written, shortened) = escaped_text_preview(shown.as_str());
            if shortened || preview.truncated {
                let quoted = quote_preview(written.as_str(), true);
                let parts: Vec<&str> = vec![
                    quoted.as_str(),
                    " (",
                    size.as_str(),
                    ", sha256 ",
                    sha.as_str(),
                    ")",
                ];
                assert(text::strs(parts@) =~= seq![
                    quoted_preview(written@, true),
                    " ("@,
                    bytes_text(preview@.len),
                    ", sha256 "@,
                    short_sha_text(preview@.sha256),
                    ")"@,
                ]);
                cat(parts)
            } else {
                quote_preview(written.as_str(), false)
            }
        },
    }
}

/// An operation in a review for people.
pub open spec fn op_text(op: OpSummaryView) -> Seq<char> {
    let label = text::flat(
        seq![
            op.lane,
            " "@,
            op.op_id,
            " "@,
            op_kind_text(op.kind),
            " ["@,
            numbers::decimal_text(op.base_start as nat),
            ".."@,
            numbers::decimal_text(op.base_end as nat),
            "), inserts "@,
            bytes_text(op.inserted_len as nat),
        ],
    );
    if op.conflicts_with.len() == 0 {
        label
    } else {
        label + ", conflicts with "@ + text::join_texts(op.conflicts_with, ", "@)
    }
}

/// An operation in a review for people.
pub fn op_label(op: &LaneOpSummary) -> (r: String)
    ensures
        r@ == op_text(op@),
{
    let start = decimal(op.base_start);
    let end = decimal(op.base_end);
    let inserts = bytes_label(op.inserted_len);
    let parts: Vec<&str> = vec![
        op.lane.as_str(),
        " ",
        op.op_id.as_str(),
        " ",
        op_kind_label(op.kind),
        " [",
        start.as_str(),
        "..",
        end.as_str(),
        "), inserts ",
        inserts.as_str(),
    ];
    assert(text::strs(parts@) =~= seq![
        op@.lane,
        " "@,
        op@.op_id,
        " "@,
        op_kind_text(op@.kind),
        " ["@,
        numbers::decimal_text(op@.base_start as nat),
        ".."@,
        numbers::decimal_text(op@.base_end as nat),
        "), inserts "@,
        bytes_text(op@.inserted_len as nat),
    ]);
    let label = cat(parts);
    if op.conflicts_with.len() == 0 {
        label
    } else {
        label.concat(", conflicts with ").concat(join(&op.conflicts_with, ", ").as_str())
    }
}

/// How the last command of a lane ended, in a few words.
pub open spec fn last_exec_text(run: Option<RunStateView>) -> Seq<char> {
    match run {
        None => "last exec unavailable"@,
        Some(run) => {
            let status = if run.worker_error is Some {
                "last exec worker error"@
            } else {
                match run.exit_code {
                    None => "last exec no exit code"@,
                    Some(code) => if code == 0 {
                        "last exec ok"@
                    } else {
                        "last exec exit "@ + numbers::signed_text(code as int)
                    },
                }
            };
            text::flat(
                seq![status, ", exec touched "@, count_text(run.changed_paths.len(), "path"@)],
            )
        },
    }
}

/// How the last command of a lane ended, in a few words.
pub fn last_exec_label(run: &Option<LaneRunState>) -> (r: String)
    ensures
        r@ == last_exec_text(crate::lists::opt_view(*run)),
{
    match run {
        None => "last exec unavailable".to_owned(),
        Some(run) => {
            let status = if run.worker_error.is_some() {
                "last exec worker error".to_owned()
            } else {
                match run.exit_code {
                    None => "last exec no exit code".to_owned(),
                    Some(code) => if code == 0 {
                        "last exec ok".to_owned()
                    } else {
                        "last exec exit ".to_owned().concat(signed_decimal(code).as_str())
                    },
                }
            };
            let touched = count_label(run.changed_paths.len(), "path");
            let parts: Vec<&str> = vec![status.as_str(), ", exec touched ", touched.as_str()];
            assert(text::strs(parts@) =~= seq![
                status@,
                ", exec touched "@,
                count_text(run@.changed_paths.len(), "path"@),
            ]);
            cat(parts)
        },
    }
}

/// What the output of a command says.
pub open spec fn output_text(name: Seq<char>, shown: Seq<char>, truncated: bool) -> Seq<char> {
    text::flat(
        seq![
            name,
            ": "@,
            one_line_text(shown),
            if truncated {
                " (truncated)"@
            } else {
                ""@
            },
        ],
    )
}

/// What went wrong in the last command of a lane, if something did.
pub open spec fn last_exec_detail_text(run: Option<RunStateView>) -> Option<Seq<char>> {
    match run {
        None => None,
        Some(run) => match run.worker_error {
            Some(error) => Some("worker error: "@ + one_line_text(error)),
            None => if run.exit_code == Some(0i32) {
                None
            } else if text::trim_text(run.stderr.text).len() > 0 {
                Some(output_text("stderr"@, run.stderr.text, run.stderr.truncated))
            } else if text::trim_text(run.stdout.text).len() > 0 {
                Some(output_text("stdout"@, run.stdout.text, run.stdout.truncated))
            } else {
                None
            },
        },
    }
}

fn output_label(name: &str, shown: &str, truncated: bool) -> (r: String)
    ensures
        r@ == output_text(name@, shown@, truncated),
{
    let line = one_line_preview(shown);
    let suffix = if truncated {
        " (truncated)"
    } else {
        ""
    };
    let parts: Vec<&str> = vec![name, ": ", line.as_str(), suffix];
    assert(text::strs(parts@) =~= seq![name@, ": "@, one_line_text(shown@), suffix@]);
    cat(parts)
}

/// What went wrong in the last command of a lane, if something did.
pub fn last_exec_detail(run: &Option<LaneRunState>) -> (r: Option<String>)
    ensures
        text::opt_text(r) == last_exec_detail_text(crate::lists::opt_view(*run)),
{
    match run {
        None => None,
        Some(run) => match &run.worker_error {
            Some(error) => Some(
                "worker error: ".to_owned().concat(one_line_preview(error.as_str()).as_str()),
            ),
            None => {
                let succeeded = match run.exit_code {
                    Some(code) => code == 0,
                    None => false,
                };
                if succeeded {
                    return None;
                }
                if !trim(run.stderr.text.as_str()).as_str().is_empty() {
                    return Some(
                        output_label("stderr", run.stderr.text.as_str(), run.stderr.truncated),
                    );
                }
                if !trim(run.stdout.text.as_str()).as_str().is_empty() {
                    return Some(
                        output_label("stdout", run.stdout.text.as_str(), run.stdout.truncated),
                    );
                }
                None
            },
        },
    }
}

} // verus!
