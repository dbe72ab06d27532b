//! The frames that a procedure and an inline expansion give for a set of
//! queried addresses.

use vstd::prelude::*;
use crate::address::{is_within, within};
use crate::catalog::{
    function_name_of, lemma_no_function_no_name, names_no_function, IdentifierCatalog,
    IdentifierEntry,
};
use crate::line_info::LineInfo;
use crate::lines::{covering_index, covering_line, LineRecord, LineTable};
use crate::symbols::InlineeId;

verus! {

/// The name given to an inlined function whose name is not on record.
pub const UNKNOWN_INLINE_FUNCTION: &'static str = "unknown_inline_function";

/// A source location found for an address: the function, the file and the
/// line that the code at the address comes from.
#[derive(Clone, Debug, PartialEq, Eq)]
pub struct Frame {
    pub function_name: String,
    pub file: String,
    pub line: u64,
}

/// A frame, with its texts as sequences of characters.
pub struct FrameView {
    pub function_name: Seq<char>,
    pub file: Seq<char>,
    pub line: u64,
}

impl View for Frame {
    type V = FrameView;

    open spec fn view(&self) -> FrameView {
        FrameView { function_name: self.function_name@, file: self.file@, line: self.line }
    }
}

/// The queried addresses with the frames found for them, texts as
/// sequences of characters.
pub open spec fn frame_views(frames: Seq<(u64, Frame)>) -> Seq<(u64, FrameView)> {
    frames.map_values(|hit: (u64, Frame)| (hit.0, hit.1@))
}

/// What a procedure gives for one target: nothing for a target outside its
/// code, else the frame of the first row of `table` that covers the
/// target, if one does.
pub open spec fn procedure_hit(
    name: Seq<char>,
    start: u64,
    length: u64,
    table: Seq<LineRecord>,
    target: u64,
) -> Seq<(u64, FrameView)> {
    if within(start, length, target) {
        match covering_index(table, target) {
            Some(i) => seq![
                (
                    target,
                    FrameView { function_name: name, file: table[i].file@, line: table[i].line as u64 },
                ),
            ],
            None => Seq::empty(),
        }
    } else {
        Seq::empty()
    }
}

/// What a procedure gives for the targets, taken in their order.
pub open spec fn procedure_frames_of(
    name: Seq<char>,
    start: u64,
    length: u64,
    table: Seq<LineRecord>,
    targets: Seq<u64>,
) -> Seq<(u64, FrameView)>
    decreases targets.len(),
{
    if targets.len() == 0 {
        Seq::empty()
    } else {
        procedure_frames_of(name, start, length, table, targets.drop_last()) + procedure_hit(
            name,
            start,
            length,
            table,
            targets.last(),
        )
    }
}

/// What one line of an inline expansion gives for one target.
pub open spec fn line_hit(name: Seq<char>, line: LineInfo, target: u64) -> Seq<(u64, FrameView)> {
    if line.covers(target) {
        seq![(target, FrameView { function_name: name, file: line.file@, line: line.line })]
    } else {
        Seq::empty()
    }
}

/// What one line of an inline expansion gives for the targets, in their order.
pub open spec fn line_hits(name: Seq<char>, line: LineInfo, targets: Seq<u64>) -> Seq<
    (u64, FrameView),
>
    decreases targets.len(),
{
    if targets.len() == 0 {
        Seq::empty()
    } else {
        line_hits(name, line, targets.drop_last()) + line_hit(name, line, targets.last())
    }
}

/// What an inline expansion gives: for each of its lines in turn, one
/// frame for each target that the line covers.
pub open spec fn inline_frames_of(name: Seq<char>, lines: Seq<LineInfo>, targets: Seq<u64>) -> Seq<
    (u64, FrameView),
>
    decreases lines.len(),
{
    if lines.len() == 0 {
        Seq::empty()
    } else {
        inline_frames_of(name, lines.drop_last(), targets) + line_hits(name, lines.last(), targets)
    }
}

/// The name shown for the inlined function `id`: the one on record, or
/// `unknown_inline_function` where none is.
pub open spec fn inline_name(entries: Seq<IdentifierEntry>, id: InlineeId) -> Seq<char> {
    match function_name_of(entries, id) {
        Some(name) => name@,
        None => UNKNOWN_INLINE_FUNCTION@,
    }
}

/// Some target lies in the `length` bytes from `start` on.
pub open spec fn any_within(start: u64, length: u64, targets: Seq<u64>) -> bool {
    exists|i: int| 0 <= i < targets.len() && within(start, length, #[trigger] targets[i])
}

/// A procedure that holds none of the targets gives no frame.
pub proof fn lemma_no_target_no_frames(
    name: Seq<char>,
    start: u64,
    length: u64,
    table: Seq<LineRecord>,
    targets: Seq<u64>,
)
    requires
        !any_within(start, length, targets),
    ensures
        procedure_frames_of(name, start, length, table, targets) == Seq::<(u64, FrameView)>::empty(),
    decreases targets.len(),
{
    if targets.len() > 0 {
        let rest = targets.drop_last();
        assert(!within(start, length, targets[targets.len() - 1]));
        assert forall|i: int| 0 <= i < rest.len() implies !within(start, length, #[trigger] rest[i]) by {
            assert(rest[i] == targets[i]);
        }
        lemma_no_target_no_frames(name, start, length, table, rest);
        assert(procedure_frames_of(name, start, length, table, targets) =~= Seq::empty());
    }
}

/// The view of a sequence with one more hit is the view of the sequence
/// with the view of that hit.
pub proof fn lemma_views_push(frames: Seq<(u64, Frame)>, hit: (u64, Frame))
    ensures
        frame_views(frames.push(hit)) == frame_views(frames).push((hit.0, hit.1@)),
{
    assert(frame_views(frames.push(hit)) =~= frame_views(frames).push((hit.0, hit.1@)));
}

/// The view of two sequences of hits in a row is their views in a row.
pub proof fn lemma_views_concat(first: Seq<(u64, Frame)>, second: Seq<(u64, Frame)>)
    ensures
        frame_views(first + second) == frame_views(first) + frame_views(second),
{
    assert(frame_views(first + second) =~= frame_views(first) + frame_views(second));
}

/// The name to show for the inlined function `id`.
pub fn name_of_inlinee(identifiers: &IdentifierCatalog, id: InlineeId) -> (name: String)
    ensures
        name@ == inline_name(identifiers@, id),
{
    match identifiers.function_name(id) {
        Some(name) => name.clone(),
        None => UNKNOWN_INLINE_FUNCTION.to_owned(),
    }
}

/// Whether some target lies in the `length` bytes from `start` on.
pub fn any_target_within(start: u64, length: u64, targets: &Vec<u64>) -> (found: bool)
    ensures
        found == any_within(start, length, targets@),
{
    let n = targets.len();
    let mut i: usize = 0;
    while i < n
        invariant
            n == targets@.len(),
            i <= n,
            forall|k: int| 0 <= k < i ==> !within(start, length, #[trigger] targets@[k]),
        decreases n - i,
    {
        if is_within(start, length, targets[i]) {
            return true;
        }
        i += 1;
    }
    false
}

/// The frames of a procedure named `name` whose code is the `length` bytes
/// from the flat address `start` on. `table` holds its line rows at flat
/// addresses. Each target inside the code gives at most one frame, that of
/// the first row that covers it; the frames come in the order of the
/// targets.
pub fn procedure_frames(
    name: &String,
    start: u64,
    length: u64,
    table: &LineTable,
    targets: &Vec<u64>,
) -> (frames: Vec<(u64, Frame)>)
    ensures
        frame_views(frames@) == procedure_frames_of(name@, start, length, table@, targets@),
{
    let mut frames: Vec<(u64, Frame)> = Vec::new();
    let n = targets.len();
    let mut i: usize = 0;
    proof {
        assert(frame_views(frames@) =~= Seq::empty());
        assert(targets@.take(0) =~= Seq::empty());
    }
    while i < n
        invariant
            n == targets@.len(),
            i <= n,
            frame_views(frames@) == procedure_frames_of(
                name@,
                start,
                length,
                table@,
                targets@.take(i as int),
            ),
        decreases n - i,
    {
        let target = targets[i];
        let ghost before = frames@;
        let ghost done = frame_views(before);
        proof {
            assert(targets@.take(i + 1).drop_last() =~= targets@.take(i as int));
        }
        if is_within(start, length, target) {
            if let Some(record) = covering_line(table, target) {
                let hit = (
                    target,
                    Frame {
                        function_name: name.clone(),
                        file: record.file.clone(),
                        line: record.line as u64,
                    },
                );
                proof {
                    lemma_views_push(before, hit);
                    assert(done.push((hit.0, hit.1@)) =~= done + procedure_hit(
                        name@,
                        start,
                        length,
                        table@,
                        target,
                    ));
                }
                frames.push(hit);
            } else {
                assert(done =~= done + procedure_hit(name@, start, length, table@, target));
            }
        } else {
            assert(done =~= done + procedure_hit(name@, start, length, table@, target));
        }
        i += 1;
    }
    proof {
        assert(targets@.take(n as int) =~= targets@);
    }
    frames
}

/// The frames of one inline expansion of the function `inlinee_id`, whose
/// lines at flat addresses are `lines`. Each line gives one frame for each
/// target in `[address, address + size)`; a line of unknown size gives
/// none. The frames come line by line, and for one line in the order of
/// the targets. The name is looked up only when a line covers a target; it
/// is `unknown_inline_function` where the catalog has no function under
/// the identifier.
pub fn inline_frames(
    lines: &Vec<LineInfo>,
    inlinee_id: InlineeId,
    identifiers: &IdentifierCatalog,
    targets: &Vec<u64>,
) -> (frames: Vec<(u64, Frame)>)
    ensures
        frame_views(frames@) == inline_frames_of(
            inline_name(identifiers@, inlinee_id),
            lines@,
            targets@,
        ),
{
    let ghost name = inline_name(identifiers@, inlinee_id);
    let mut frames: Vec<(u64, Frame)> = Vec::new();
    let n = lines.len();
    let m = targets.len();
    let mut i: usize = 0;
    proof {
        assert(frame_views(frames@) =~= Seq::empty());
        assert(lines@.take(0) =~= Seq::empty());
    }
    while i < n
        invariant
            n == lines@.len(),
            m == targets@.len(),
            i <= n,
            name == inline_name(identifiers@, inlinee_id),
            frame_views(frames@) == inline_frames_of(name, lines@.take(i as int), targets@),
        decreases n - i,
    {
        let line = &lines[i];
        let ghost done = frame_views(frames@);
        let mut j: usize = 0;
        proof {
            assert(lines@.take(i + 1).drop_last() =~= lines@.take(i as int));
            assert(targets@.take(0) =~= Seq::empty());
            assert(done =~= done + line_hits(name, *line, targets@.take(0)));
        }
        while j < m
            invariant
                m == targets@.len(),
                j <= m,
                name == inline_name(identifiers@, inlinee_id),
                frame_views(frames@) == done + line_hits(name, *line, targets@.take(j as int)),
            decreases m - j,
        {
            let target = targets[j];
            let ghost before = frames@;
            let ghost sofar = line_hits(name, *line, targets@.take(j as int));
            proof {
                assert(targets@.take(j + 1).drop_last() =~= targets@.take(j as int));
            }
            if line.is_covering(target) {
                let hit = (
                    target,
                    Frame {
                        function_name: name_of_inlinee(identifiers, inlinee_id),
                        file: line.file.clone(),
                        line: line.line,
                    },
                );
                proof {
                    lemma_views_push(before, hit);
                    assert((done + sofar).push((hit.0, hit.1@)) =~= done + (sofar + line_hit(
                        name,
                        *line,
                        target,
                    )));
                }
                frames.push(hit);
            } else {
                assert(done + sofar =~= done + (sofar + line_hit(name, *line, target)));
            }
            j += 1;
        }
        proof {
            assert(targets@.take(m as int) =~= targets@);
        }
        i += 1;
    }
    proof {
        assert(lines@.take(n as int) =~= lines@);
    }
    frames
}

/// Every frame of the sequence answers one of the targets.
pub open spec fn all_among(frames: Seq<(u64, FrameView)>, targets: Seq<u64>) -> bool {
    forall|k: int| 0 <= k < frames.len() ==> targets.contains((#[trigger] frames[k]).0)
}

/// Frames that answer targets, in a row, answer targets.
pub proof fn lemma_among_concat(
    first: Seq<(u64, FrameView)>,
    second: Seq<(u64, FrameView)>,
    targets: Seq<u64>,
)
    requires
        all_among(first, targets),
        all_among(second, targets),
    ensures
        all_among(first + second, targets),
{
    assert forall|k: int| 0 <= k < (first + second).len() implies targets.contains(
        (#[trigger] (first + second)[k]).0,
    ) by {
        if k < first.len() {
            assert((first + second)[k] == first[k]);
        } else {
            assert((first + second)[k] == second[k - first.len()]);
        }
    }
}

proof fn lemma_among_more(frames: Seq<(u64, FrameView)>, targets: Seq<u64>)
    requires
        targets.len() > 0,
        all_among(frames, targets.drop_last()),
    ensures
        all_among(frames, targets),
{
    assert forall|k: int| 0 <= k < frames.len() implies targets.contains((#[trigger] frames[k]).0) by {
        let i = choose|i: int| 0 <= i < targets.drop_last().len() && targets.drop_last()[i] == frames[k].0;
        assert(targets[i] == frames[k].0);
    }
}

/// A procedure gives frames for targets only.
pub proof fn lemma_procedure_frames_among(
    name: Seq<char>,
    start: u64,
    length: u64,
    table: Seq<LineRecord>,
    targets: Seq<u64>,
)
    ensures
        all_among(procedure_frames_of(name, start, length, table, targets), targets),
    decreases targets.len(),
{
    if targets.len() > 0 {
        let rest = procedure_frames_of(name, start, length, table, targets.drop_last());
        let hit = procedure_hit(name, start, length, table, targets.last());
        lemma_procedure_frames_among(name, start, length, table, targets.drop_last());
        lemma_among_more(rest, targets);
        assert(targets[targets.len() - 1] == targets.last());
        assert(all_among(hit, targets));
        lemma_among_concat(rest, hit, targets);
    }
}

proof fn lemma_line_hits_among(name: Seq<char>, line: LineInfo, targets: Seq<u64>)
    ensures
        all_among(line_hits(name, line, targets), targets),
    decreases targets.len(),
{
    if targets.len() > 0 {
        let rest = line_hits(name, line, targets.drop_last());
        let hit = line_hit(name, line, targets.last());
        lemma_line_hits_among(name, line, targets.drop_last());
        lemma_among_more(rest, targets);
        assert(targets[targets.len() - 1] == targets.last());
        assert(all_among(hit, targets));
        lemma_among_concat(rest, hit, targets);
    }
}

/// An inline expansion gives frames for targets only.
pub proof fn lemma_inline_frames_among(name: Seq<char>, lines: Seq<LineInfo>, targets: Seq<u64>)
    ensures
        all_among(inline_frames_of(name, lines, targets), targets),
    decreases lines.len(),
{
    if lines.len() > 0 {
        lemma_inline_frames_among(name, lines.drop_last(), targets);
        lemma_line_hits_among(name, lines.last(), targets);
        lemma_among_concat(
            inline_frames_of(name, lines.drop_last(), targets),
            line_hits(name, lines.last(), targets),
            targets,
        );
    }
}

/// Every frame of the sequence names the function `name`.
pub open spec fn all_named(frames: Seq<(u64, FrameView)>, name: Seq<char>) -> bool {
    forall|k: int| 0 <= k < frames.len() ==> (#[trigger] frames[k]).1.function_name == name
}

proof fn lemma_named_concat(
    first: Seq<(u64, FrameView)>,
    second: Seq<(u64, FrameView)>,
    name: Seq<char>,
)
    requires
        all_named(first, name),
        all_named(second, name),
    ensures
        all_named(first + second, name),
{
    assert forall|k: int| 0 <= k < (first + second).len() implies (#[trigger] (first + second)[k]).1.function_name
        == name by {
        if k < first.len() {
            assert((first + second)[k] == first[k]);
        } else {
            assert((first + second)[k] == second[k - first.len()]);
        }
    }
}

proof fn lemma_line_hits_named(name: Seq<char>, line: LineInfo, targets: Seq<u64>)
    ensures
        all_named(line_hits(name, line, targets), name),
    decreases targets.len(),
{
    if targets.len() > 0 {
        lemma_line_hits_named(name, line, targets.drop_last());
        lemma_named_concat(
            line_hits(name, line, targets.drop_last()),
            line_hit(name, line, targets.last()),
            name,
        );
    }
}

/// Every frame of an inline expansion carries the name it was resolved
/// under.
pub proof fn lemma_inline_frames_named(name: Seq<char>, lines: Seq<LineInfo>, targets: Seq<u64>)
    ensures
        all_named(inline_frames_of(name, lines, targets), name),
    decreases lines.len(),
{
    if lines.len() > 0 {
        lemma_inline_frames_named(name, lines.drop_last(), targets);
        lemma_line_hits_named(name, lines.last(), targets);
        lemma_named_concat(
            inline_frames_of(name, lines.drop_last(), targets),
            line_hits(name, lines.last(), targets),
            name,
        );
    }
}

/// Where the identifier catalog has no function under the inlinee's
/// identifier, every frame of its expansions is named
/// `unknown_inline_function`.
pub proof fn lemma_unnamed_inlinee(
    entries: Seq<IdentifierEntry>,
    id: InlineeId,
    lines: Seq<LineInfo>,
    targets: Seq<u64>,
)
    requires
        names_no_function(entries, id),
    ensures
        inline_name(entries, id) == UNKNOWN_INLINE_FUNCTION@,
        all_named(
            inline_frames_of(inline_name(entries, id), lines, targets),
            UNKNOWN_INLINE_FUNCTION@,
        ),
{
    lemma_no_function_no_name(entries, 0, id);
    lemma_inline_frames_named(inline_name(entries, id), lines, targets);
}

} // verus!
