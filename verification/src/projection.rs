//! Text files as lanes see them: with line feeds, whatever the worktree uses.
use vstd::prelude::*;
use vstd::slice::slice_to_vec;

use crate::diff;
use crate::diff::is_probably_binary;
use crate::utf8_text;
use crate::utf8_text::utf8_text;

verus! {

/// How a file breaks its lines.
#[derive(Clone, Copy, Debug, PartialEq, Eq, Structural)]
pub enum NewlineStyle {
    Lf,
    Crlf,
    Cr,
}

/// Whether a file is shown as it is or as text.
#[derive(Clone, Copy, Debug, PartialEq, Eq, Structural)]
pub enum ProjectionMode {
    Raw,
    Text { newline: NewlineStyle },
}

/// The line feed.
pub const LF: u8 = 10;

/// The carriage return.
pub const CR: u8 = 13;

/// The first line break decides; without one it is a line feed.
pub open spec fn newline_style(bytes: Seq<u8>) -> NewlineStyle
    decreases bytes.len(),
{
    if bytes.len() == 0 {
        NewlineStyle::Lf
    } else if bytes[0] == LF {
        NewlineStyle::Lf
    } else if bytes[0] == CR {
        if bytes.len() > 1 && bytes[1] == LF {
            NewlineStyle::Crlf
        } else {
            NewlineStyle::Cr
        }
    } else {
        newline_style(bytes.drop_first())
    }
}

/// Whether bytes are shown as text: UTF-8 without NUL.
pub open spec fn is_text(bytes: Seq<u8>) -> bool {
    !diff::has_nul(bytes) && utf8_text::utf8_text_of(bytes) is Some
}

/// How a file with these bytes is shown.
pub open spec fn mode_for(bytes: Seq<u8>) -> ProjectionMode {
    if is_text(bytes) {
        ProjectionMode::Text { newline: newline_style(bytes) }
    } else {
        ProjectionMode::Raw
    }
}

/// The bytes with every line break turned into a line feed.
pub open spec fn canonical(bytes: Seq<u8>) -> Seq<u8>
    decreases bytes.len(),
{
    if bytes.len() == 0 {
        Seq::empty()
    } else if bytes[0] == CR {
        if bytes.len() > 1 && bytes[1] == LF {
            seq![LF] + canonical(bytes.subrange(2, bytes.len() as int))
        } else {
            seq![LF] + canonical(bytes.drop_first())
        }
    } else {
        seq![bytes[0]] + canonical(bytes.drop_first())
    }
}

/// The bytes with every line feed turned into `newline`.
pub open spec fn expanded(bytes: Seq<u8>, newline: Seq<u8>) -> Seq<u8>
    decreases bytes.len(),
{
    if bytes.len() == 0 {
        Seq::empty()
    } else if bytes[0] == LF {
        newline + expanded(bytes.drop_first(), newline)
    } else {
        seq![bytes[0]] + expanded(bytes.drop_first(), newline)
    }
}

/// The bytes of a line break.
pub open spec fn newline_bytes(style: NewlineStyle) -> Seq<u8> {
    match style {
        NewlineStyle::Lf => seq![LF],
        NewlineStyle::Crlf => seq![CR, LF],
        NewlineStyle::Cr => seq![CR],
    }
}

/// What a lane sees of bytes.
pub open spec fn projected(mode: ProjectionMode, bytes: Seq<u8>) -> Seq<u8> {
    match mode {
        ProjectionMode::Raw => bytes,
        ProjectionMode::Text { newline } => canonical(bytes),
    }
}

/// What the worktree gets for bytes that a lane has written.
pub open spec fn materialized(mode: ProjectionMode, bytes: Seq<u8>) -> Seq<u8> {
    match mode {
        ProjectionMode::Raw => bytes,
        ProjectionMode::Text { newline } => expanded(canonical(bytes), newline_bytes(newline)),
    }
}

impl NewlineStyle {
    /// The style of the first line break.
    pub fn detect(bytes: &[u8]) -> (r: Self)
        ensures
            r == newline_style(bytes@),
    {
        let mut index: usize = 0;
        let n: usize = bytes.len();
        assert(bytes@.subrange(0, n as int) =~= bytes@);
        while index < n
            invariant
                index <= n == bytes@.len(),
                newline_style(bytes@) == newline_style(bytes@.subrange(index as int, n as int)),
            decreases n - index,
        {
            let byte = bytes[index];
            proof {
                let rest = bytes@.subrange(index as int, n as int);
                assert(rest[0] == byte);
                assert(rest.drop_first() =~= bytes@.subrange(index + 1, n as int));
            }
            if byte == LF {
                return NewlineStyle::Lf;
            }
            if byte == CR {
                if n - index > 1 && bytes[index + 1] == LF {
                    return NewlineStyle::Crlf;
                }
                return NewlineStyle::Cr;
            }
            index = index + 1;
        }
        NewlineStyle::Lf
    }

    /// Writes line feeds in this style.
    pub fn materialize(self, bytes: Vec<u8>) -> (r: Vec<u8>)
        ensures
            r@ == expanded(bytes@, newline_bytes(self)),
    {
        match self {
            NewlineStyle::Lf => {
                proof {
                    lemma_expanded_lf(bytes@);
                }
                bytes
            },
            NewlineStyle::Crlf => {
                let newline: Vec<u8> = vec![CR, LF];
                assert(newline@ =~= newline_bytes(self));
                expand_lf(bytes, &newline)
            },
            NewlineStyle::Cr => {
                let newline: Vec<u8> = vec![CR];
                assert(newline@ =~= newline_bytes(self));
                expand_lf(bytes, &newline)
            },
        }
    }
}

/// Line feeds written as line feeds change nothing.
proof fn lemma_expanded_lf(bytes: Seq<u8>)
    ensures
        expanded(bytes, seq![LF]) == bytes,
    decreases bytes.len(),
{
    if bytes.len() > 0 {
        lemma_expanded_lf(bytes.drop_first());
        assert(bytes =~= seq![bytes[0]] + bytes.drop_first());
    } else {
        assert(expanded(bytes, seq![LF]) =~= bytes);
    }
}

/// Turns every line feed into `newline`.
fn expand_lf(bytes: Vec<u8>, newline: &Vec<u8>) -> (r: Vec<u8>)
    ensures
        r@ == expanded(bytes@, newline@),
{
    let mut out: Vec<u8> = Vec::new();
    let mut index: usize = 0;
    let n: usize = bytes.len();
    assert(bytes@.subrange(0, n as int) =~= bytes@);
    assert(out@ + expanded(bytes@, newline@) =~= expanded(bytes@, newline@));
    while index < n
        invariant
            index <= n == bytes@.len(),
            expanded(bytes@, newline@) == out@ + expanded(
                bytes@.subrange(index as int, n as int),
                newline@,
            ),
        decreases n - index,
    {
        let ghost rest = bytes@.subrange(index as int, n as int);
        let ghost before = out@;
        assert(rest.drop_first() =~= bytes@.subrange(index + 1, n as int));
        if bytes[index] == LF {
            let mut k: usize = 0;
            while k < newline.len()
                invariant
                    k <= newline@.len(),
                    out@ == before + newline@.subrange(0, k as int),
                decreases newline@.len() - k,
            {
                out.push(newline[k]);
                k = k + 1;
                assert(out@ =~= before + newline@.subrange(0, k as int));
            }
            assert(newline@.subrange(0, k as int) =~= newline@);
        } else {
            out.push(bytes[index]);
        }
        assert(before + expanded(rest, newline@) =~= out@ + expanded(rest.drop_first(), newline@));
        index = index + 1;
    }
    assert(out@ + expanded(bytes@.subrange(n as int, n as int), newline@) =~= out@);
    out
}

/// Turns every line break into a line feed.
pub fn canonicalize_text_bytes(bytes: Vec<u8>) -> (r: Vec<u8>)
    ensures
        r@ == canonical(bytes@),
{
    let mut out: Vec<u8> = Vec::new();
    let mut index: usize = 0;
    let n: usize = bytes.len();
    assert(bytes@.subrange(0, n as int) =~= bytes@);
    assert(out@ + canonical(bytes@) =~= canonical(bytes@));
    while index < n
        invariant
            index <= n == bytes@.len(),
            canonical(bytes@) == out@ + canonical(bytes@.subrange(index as int, n as int)),
        decreases n - index,
    {
        let ghost rest = bytes@.subrange(index as int, n as int);
        let ghost before = out@;
        assert(rest.drop_first() =~= bytes@.subrange(index + 1, n as int));
        if bytes[index] == CR {
            out.push(LF);
            if n - index > 1 && bytes[index + 1] == LF {
                assert(rest.subrange(2, rest.len() as int) =~= bytes@.subrange(
                    index + 2,
                    n as int,
                ));
                index = index + 1;
            }
        } else {
            out.push(bytes[index]);
        }
        index = index + 1;
        assert(before + canonical(rest) =~= out@ + canonical(
            bytes@.subrange(index as int, n as int),
        ));
    }
    assert(out@ + canonical(bytes@.subrange(n as int, n as int)) =~= out@);
    out
}

/// Whether bytes are shown as text.
pub fn is_text_projection_bytes(bytes: &[u8]) -> (r: bool)
    ensures
        r == is_text(bytes@),
{
    !is_probably_binary(bytes) && utf8_text(bytes).is_some()
}

impl ProjectionMode {
    /// How a file with these bytes is shown.
    pub fn for_bytes(bytes: &[u8]) -> (r: Self)
        ensures
            r == mode_for(bytes@),
    {
        if is_text_projection_bytes(bytes) {
            ProjectionMode::Text { newline: NewlineStyle::detect(bytes) }
        } else {
            ProjectionMode::Raw
        }
    }

    /// What a lane sees of bytes.
    pub fn project(self, bytes: Vec<u8>) -> (r: Vec<u8>)
        ensures
            r@ == projected(self, bytes@),
    {
        match self {
            ProjectionMode::Raw => bytes,
            ProjectionMode::Text { newline: _ } => canonicalize_text_bytes(bytes),
        }
    }

    /// What the worktree gets for bytes that a lane has written.
    pub fn materialize(self, bytes: &[u8]) -> (r: Vec<u8>)
        ensures
            r@ == materialized(self, bytes@),
    {
        match self {
            ProjectionMode::Raw => slice_to_vec(bytes),
            ProjectionMode::Text { newline } => newline.materialize(
                canonicalize_text_bytes(slice_to_vec(bytes)),
            ),
        }
    }
}

/// A worktree file as lanes see it, with what is needed to write it back.
#[derive(Debug, PartialEq, Eq)]
pub struct SourceProjection {
    mode: ProjectionMode,
    bytes: Vec<u8>,
}

impl SourceProjection {
    /// How the file is shown.
    pub closed spec fn mode(&self) -> ProjectionMode {
        self.mode
    }

    /// The bytes that lanes see.
    pub closed spec fn content(&self) -> Seq<u8> {
        self.bytes@
    }

    /// Projects the bytes of a worktree file.
    pub fn from_worktree(bytes: Vec<u8>) -> (r: Self)
        ensures
            r.mode() == mode_for(bytes@),
            r.content() == projected(mode_for(bytes@), bytes@),
    {
        let mode = ProjectionMode::for_bytes(bytes.as_slice());
        SourceProjection { bytes: mode.project(bytes), mode }
    }

    /// The bytes that lanes see.
    pub fn bytes(&self) -> (r: &[u8])
        ensures
            r@ == self.content(),
    {
        self.bytes.as_slice()
    }

    /// The bytes that lanes see.
    pub fn into_bytes(self) -> (r: Vec<u8>)
        ensures
            r@ == self.content(),
    {
        self.bytes
    }

    /// What the worktree gets for bytes that a lane has written.
    pub fn materialize(&self, bytes: &[u8]) -> (r: Vec<u8>)
        ensures
            r@ == materialized(self.mode(), bytes@),
    {
        self.mode.materialize(bytes)
    }

    /// What lanes see of bytes that a tool has written.
    pub fn project_edit(&self, bytes: Vec<u8>) -> (r: Vec<u8>)
        ensures
            r@ == projected(self.mode(), bytes@),
    {
        self.mode.project(bytes)
    }
}

/// What lanes see holds no carriage return.
pub proof fn lemma_canonical_has_no_cr(bytes: Seq<u8>)
    ensures
        !canonical(bytes).contains(CR),
    decreases bytes.len(),
{
    if bytes.len() > 0 {
        let first = if bytes[0] == CR {
            LF
        } else {
            bytes[0]
        };
        let rest = if bytes[0] == CR && bytes.len() > 1 && bytes[1] == LF {
            bytes.subrange(2, bytes.len() as int)
        } else {
            bytes.drop_first()
        };
        lemma_canonical_has_no_cr(rest);
        let whole = canonical(bytes);
        assert(whole =~= seq![first] + canonical(rest));
        if whole.contains(CR) {
            let i = choose|i: int| 0 <= i < whole.len() && whole[i] == CR;
            assert(canonical(rest)[i - 1] == CR);
        }
    }
}

/// Bytes without carriage returns are canonical.
pub proof fn lemma_canonical_fixed(bytes: Seq<u8>)
    requires
        !bytes.contains(CR),
    ensures
        canonical(bytes) == bytes,
    decreases bytes.len(),
{
    if bytes.len() > 0 {
        assert(bytes[0] != CR) by {
            if bytes[0] == CR {
                assert(bytes.contains(CR));
            }
        }
        let rest = bytes.drop_first();
        if rest.contains(CR) {
            let i = choose|i: int| 0 <= i < rest.len() && rest[i] == CR;
            assert(bytes[i + 1] == CR);
        }
        lemma_canonical_fixed(rest);
        assert(bytes =~= seq![bytes[0]] + rest);
    } else {
        assert(canonical(bytes) =~= bytes);
    }
}

/// Projecting twice is projecting once.
pub proof fn law_projection_is_idempotent(mode: ProjectionMode, bytes: Seq<u8>)
    ensures
        projected(mode, projected(mode, bytes)) == projected(mode, bytes),
{
    lemma_canonical_has_no_cr(bytes);
    lemma_canonical_fixed(canonical(bytes));
}

/// What is written to the worktree reads back as what the lane saw.
pub proof fn law_materialized_projects_back(mode: ProjectionMode, bytes: Seq<u8>)
    ensures
        projected(mode, materialized(mode, bytes)) == projected(mode, bytes),
{
    match mode {
        ProjectionMode::Raw => {},
        ProjectionMode::Text { newline } => {
            lemma_canonical_has_no_cr(bytes);
            lemma_canonical_expanded(canonical(bytes), newline);
        },
    }
}

proof fn lemma_canonical_expanded(bytes: Seq<u8>, style: NewlineStyle)
    requires
        !bytes.contains(CR),
    ensures
        canonical(expanded(bytes, newline_bytes(style))) == bytes,
    decreases bytes.len(),
{
    let newline = newline_bytes(style);
    let whole = expanded(bytes, newline);
    if bytes.len() == 0 {
        assert(canonical(whole) =~= bytes);
    } else {
        assert(bytes.contains(bytes[0]));
        let rest = bytes.drop_first();
        if rest.contains(CR) {
            let i = choose|i: int| 0 <= i < rest.len() && rest[i] == CR;
            assert(bytes[i + 1] == CR);
        }
        lemma_canonical_expanded(rest, style);
        let more = expanded(rest, newline);
        assert(bytes =~= seq![bytes[0]] + rest);
        if bytes[0] == LF {
            match style {
                NewlineStyle::Lf => {
                    assert(whole.drop_first() =~= more);
                },
                NewlineStyle::Crlf => {
                    assert(whole.subrange(2, whole.len() as int) =~= more);
                },
                NewlineStyle::Cr => {
                    assert(whole.drop_first() =~= more);
                    lemma_expanded_front(rest, style);
                },
            }
        } else {
            assert(whole.drop_first() =~= more);
        }
    }
}

/// In the carriage return style nothing begins with a line feed.
proof fn lemma_expanded_front(bytes: Seq<u8>, style: NewlineStyle)
    requires
        style == NewlineStyle::Cr,
    ensures
        ({
            let whole = expanded(bytes, newline_bytes(style));
            whole.len() > 0 ==> whole[0] != LF
        }),
{
}

/// All line breaks of the bytes are in one style.
pub open spec fn uniform(bytes: Seq<u8>, style: NewlineStyle) -> bool
    decreases bytes.len(),
{
    if bytes.len() == 0 {
        true
    } else if bytes[0] == CR {
        if bytes.len() > 1 && bytes[1] == LF {
            style == NewlineStyle::Crlf && uniform(bytes.subrange(2, bytes.len() as int), style)
        } else {
            style == NewlineStyle::Cr && uniform(bytes.drop_first(), style)
        }
    } else {
        (bytes[0] == LF ==> style == NewlineStyle::Lf) && uniform(bytes.drop_first(), style)
    }
}

/// A file that breaks its lines in one style is written back as it was, as long as the lane does
/// not change it.
pub proof fn law_unchanged_file_is_written_back(bytes: Seq<u8>)
    requires
        is_text(bytes) ==> uniform(bytes, newline_style(bytes)),
    ensures
        materialized(mode_for(bytes), projected(mode_for(bytes), bytes)) == bytes,
{
    if is_text(bytes) {
        lemma_canonical_has_no_cr(bytes);
        lemma_canonical_fixed(canonical(bytes));
        lemma_uniform_round_trip(bytes, newline_style(bytes));
    }
}

proof fn lemma_uniform_round_trip(bytes: Seq<u8>, style: NewlineStyle)
    requires
        uniform(bytes, style),
    ensures
        expanded(canonical(bytes), newline_bytes(style)) == bytes,
    decreases bytes.len(),
{
    let newline = newline_bytes(style);
    if bytes.len() == 0 {
        assert(expanded(canonical(bytes), newline) =~= bytes);
    } else if bytes[0] == CR {
        if bytes.len() > 1 && bytes[1] == LF {
            let rest = bytes.subrange(2, bytes.len() as int);
            lemma_uniform_round_trip(rest, style);
            assert((seq![LF] + canonical(rest)).drop_first() =~= canonical(rest));
            assert(bytes =~= newline + rest);
        } else {
            let rest = bytes.drop_first();
            lemma_uniform_round_trip(rest, style);
            assert((seq![LF] + canonical(rest)).drop_first() =~= canonical(rest));
            assert(bytes =~= newline + rest);
        }
    } else {
        let rest = bytes.drop_first();
        lemma_uniform_round_trip(rest, style);
        assert((seq![bytes[0]] + canonical(rest)).drop_first() =~= canonical(rest));
        assert(bytes =~= seq![bytes[0]] + rest);
    }
}

/// The first line break of some bytes begins here.
pub open spec fn breaks_first_at(bytes: Seq<u8>, at: int) -> bool {
    &&& 0 <= at < bytes.len()
    &&& bytes[at] == 10 || bytes[at] == 13
    &&& forall|j: int| 0 <= j < at ==> #[trigger] bytes[j] != 10 && bytes[j] != 13
}

/// Files are shown as text exactly where they are UTF-8 without a NUL, and the first line break of a
/// text tells how its line breaks are written.
pub proof fn law_first_line_break_tells_the_style(bytes: Seq<u8>, at: int)
    ensures
        mode_for(bytes) is Text <==> !bytes.contains(0u8) && vstd::utf8::valid_utf8(bytes),
        mode_for(bytes) matches ProjectionMode::Text { newline } ==> newline == newline_style(bytes),
        breaks_first_at(bytes, at) ==> newline_style(bytes) == if bytes[at] == 10 {
            NewlineStyle::Lf
        } else if at + 1 < bytes.len() && bytes[at + 1] == 10 {
            NewlineStyle::Crlf
        } else {
            NewlineStyle::Cr
        },
        (forall|j: int| 0 <= j < bytes.len() ==> #[trigger] bytes[j] != 10 && bytes[j] != 13)
            ==> newline_style(bytes) == NewlineStyle::Lf,
    decreases bytes.len(),
{
    if bytes.len() > 0 && bytes[0] != 10 && bytes[0] != 13 {
        let rest = bytes.drop_first();
        assert(forall|j: int| 0 <= j < rest.len() ==> rest[j] == bytes[j + 1]);
        law_first_line_break_tells_the_style(rest, at - 1);
        if breaks_first_at(bytes, at) {
            assert forall|j: int| 0 <= j < at - 1 implies #[trigger] rest[j] != 10 && rest[j] != 13 by {
                assert(bytes[j + 1] != 10);
            }
            assert(breaks_first_at(rest, at - 1));
        }
        if forall|j: int| 0 <= j < bytes.len() ==> #[trigger] bytes[j] != 10 && bytes[j] != 13 {
            assert forall|j: int| 0 <= j < rest.len() implies #[trigger] rest[j] != 10 && rest[j]
                != 13 by {
                assert(bytes[j + 1] != 10);
            }
        }
    } else if breaks_first_at(bytes, at) {
        if at > 0 {
            assert(bytes[0] != 10 && bytes[0] != 13);
        }
    } else if bytes.len() > 0 {
        assert(bytes[0] == 10 || bytes[0] == 13);
    }
}

/// The bytes that are no part of a line break.
pub open spec fn without_breaks(bytes: Seq<u8>) -> Seq<u8> {
    bytes.filter(|b: u8| b != 10 && b != 13)
}

/// Taking line breaks out goes byte by byte.
proof fn lemma_without_breaks(front: Seq<u8>, rest: Seq<u8>)
    ensures
        without_breaks(front + rest) == without_breaks(front) + without_breaks(rest),
{
    Seq::filter_distributes_over_add(front, rest, |b: u8| b != 10 && b != 13);
}

/// A byte alone stays exactly where it is no part of a line break.
proof fn lemma_one_byte(b: u8)
    ensures
        without_breaks(seq![b]) == if b != 10 && b != 13 { seq![b] } else { Seq::<u8>::empty() },
{
    reveal(Seq::filter);
    assert(seq![b].drop_last() =~= Seq::<u8>::empty());
    assert(without_breaks(Seq::<u8>::empty()) =~= Seq::<u8>::empty());
    assert(seq![b].last() == b);
}

/// Unifying the line breaks keeps every other byte.
proof fn lemma_canonical_keeps_the_text(bytes: Seq<u8>)
    ensures
        without_breaks(canonical(bytes)) == without_breaks(bytes),
    decreases bytes.len(),
{
    if bytes.len() > 0 {
        lemma_one_byte(bytes[0]);
        lemma_one_byte(LF);
        if bytes[0] == CR && bytes.len() > 1 && bytes[1] == LF {
            let rest = bytes.subrange(2, bytes.len() as int);
            lemma_canonical_keeps_the_text(rest);
            lemma_one_byte(bytes[1]);
            assert(bytes =~= seq![bytes[0]] + (seq![bytes[1]] + rest));
            lemma_without_breaks(seq![bytes[0]], seq![bytes[1]] + rest);
            lemma_without_breaks(seq![bytes[1]], rest);
            lemma_without_breaks(seq![LF], canonical(rest));
            assert(without_breaks(canonical(bytes)) =~= without_breaks(bytes));
        } else {
            let rest = bytes.drop_first();
            lemma_canonical_keeps_the_text(rest);
            assert(bytes =~= seq![bytes[0]] + rest);
            lemma_without_breaks(seq![bytes[0]], rest);
            lemma_without_breaks(seq![LF], canonical(rest));
            lemma_without_breaks(seq![bytes[0]], canonical(rest));
            assert(without_breaks(canonical(bytes)) =~= without_breaks(bytes));
        }
    }
}

/// Writing the line breaks in another style keeps every other byte.
proof fn lemma_expanded_keeps_the_text(bytes: Seq<u8>, style: NewlineStyle)
    ensures
        without_breaks(expanded(bytes, newline_bytes(style))) == without_breaks(bytes),
    decreases bytes.len(),
{
    if bytes.len() > 0 {
        let rest = bytes.drop_first();
        let newline = newline_bytes(style);
        lemma_expanded_keeps_the_text(rest, style);
        lemma_one_byte(bytes[0]);
        lemma_one_byte(LF);
        lemma_one_byte(CR);
        assert(bytes =~= seq![bytes[0]] + rest);
        lemma_without_breaks(seq![bytes[0]], rest);
        if bytes[0] == LF {
            assert(seq![CR, LF] =~= seq![CR] + seq![LF]);
            lemma_without_breaks(seq![CR], seq![LF]);
            assert(without_breaks(newline) =~= Seq::<u8>::empty());
            lemma_without_breaks(newline, expanded(rest, newline));
            assert(without_breaks(expanded(bytes, newline)) =~= without_breaks(bytes));
        } else {
            lemma_without_breaks(seq![bytes[0]], expanded(rest, newline));
        }
    }
}

/// Showing a text to a lane, or writing it back to the worktree, changes its line breaks alone. The
/// lane sees no carriage return, and files that are no texts are left as they are.
pub proof fn law_only_line_breaks_change(mode: ProjectionMode, bytes: Seq<u8>)
    ensures
        without_breaks(projected(mode, bytes)) == without_breaks(bytes),
        without_breaks(materialized(mode, bytes)) == without_breaks(bytes),
        mode is Raw ==> projected(mode, bytes) == bytes && materialized(mode, bytes) == bytes,
        mode is Text ==> !projected(mode, bytes).contains(13u8),
{
    if let ProjectionMode::Text { newline } = mode {
        lemma_canonical_has_no_cr(bytes);
        lemma_canonical_keeps_the_text(bytes);
        lemma_expanded_keeps_the_text(canonical(bytes), newline);
    }
}

} // verus!
