//! Tracking of scope nesting along a symbol stream.
//!
//! The scopes that are open at a point of the stream form a stack. The
//! walker does not keep that stack: it keeps the number of open scopes and
//! one frame for each open procedure. Its contract is stated over the full
//! stack all the same, which the two determine.

use vstd::prelude::*;
use crate::symbols::{Offset, SymbolRecord};

verus! {

/// An open procedure: `depth` scopes were open around it when it started.
#[derive(Clone, Copy, Debug, PartialEq, Eq)]
pub struct ScopeFrame {
    pub depth: u32,
    pub procedure_offset: Offset,
}

/// The stack of open scopes after `record`, given the stack before it. A
/// procedure's scope is `Some` of its offset, any other scope `None`. A
/// closing record on an empty stack leaves it empty.
pub open spec fn scope_step(scopes: Seq<Option<Offset>>, record: SymbolRecord) -> Seq<
    Option<Offset>,
> {
    match record {
        SymbolRecord::ProcedureStart { offset, .. } => scopes.push(Some(offset)),
        SymbolRecord::ScopeBegin => scopes.push(None),
        SymbolRecord::InlineSiteBegin { .. } => scopes.push(None),
        SymbolRecord::ProcedureEnd => if scopes.len() > 0 {
            scopes.drop_last()
        } else {
            scopes
        },
        SymbolRecord::ScopeEnd => if scopes.len() > 0 {
            scopes.drop_last()
        } else {
            scopes
        },
        SymbolRecord::Other => scopes,
    }
}

/// The stack of open scopes after the whole of `stream`.
pub open spec fn scopes_after(stream: Seq<SymbolRecord>) -> Seq<Option<Offset>>
    decreases stream.len(),
{
    if stream.len() == 0 {
        Seq::empty()
    } else {
        scope_step(scopes_after(stream.drop_last()), stream.last())
    }
}

/// No record of `stream` closes a scope when none is open.
pub open spec fn well_formed(stream: Seq<SymbolRecord>) -> bool {
    forall|i: int|
        0 <= i < stream.len() && (#[trigger] stream[i]).closes_scope() ==> scopes_after(
            stream.take(i),
        ).len() > 0
}

/// The offset of the innermost open procedure.
pub open spec fn innermost_procedure(scopes: Seq<Option<Offset>>) -> Option<Offset>
    decreases scopes.len(),
{
    if scopes.len() == 0 {
        None
    } else if scopes.last() is Some {
        scopes.last()
    } else {
        innermost_procedure(scopes.drop_last())
    }
}

/// The number of open procedures.
pub open spec fn open_procedures(scopes: Seq<Option<Offset>>) -> nat
    decreases scopes.len(),
{
    if scopes.len() == 0 {
        0
    } else if scopes.last() is Some {
        open_procedures(scopes.drop_last()) + 1
    } else {
        open_procedures(scopes.drop_last())
    }
}

/// The frames of the open procedures, outermost first: one for each
/// procedure on the stack of scopes, at the depth at which it stands there.
pub open spec fn frames_in(scopes: Seq<Option<Offset>>) -> Seq<ScopeFrame>
    decreases scopes.len(),
{
    if scopes.len() == 0 {
        Seq::empty()
    } else {
        let rest = frames_in(scopes.drop_last());
        match scopes.last() {
            Some(offset) => rest.push(
                ScopeFrame { depth: (scopes.len() - 1) as u32, procedure_offset: offset },
            ),
            None => rest,
        }
    }
}

/// The scope at nesting level `level`, read off the procedure frames: the
/// procedure whose frame has that depth, or `None` for any other scope.
pub open spec fn scope_at(stack: Seq<ScopeFrame>, level: int) -> Option<Offset>
    decreases stack.len(),
{
    if stack.len() == 0 {
        None
    } else if stack.last().depth == level {
        Some(stack.last().procedure_offset)
    } else {
        scope_at(stack.drop_last(), level)
    }
}

/// The frames lie at increasing depths below `nesting`.
pub open spec fn frames_ordered(stack: Seq<ScopeFrame>, nesting: int) -> bool {
    &&& forall|i: int, j: int| 0 <= i < j < stack.len() ==> stack[i].depth < stack[j].depth
    &&& forall|i: int| 0 <= i < stack.len() ==> (#[trigger] stack[i]).depth < nesting
}

/// The stack of open scopes that `nesting` and the procedure frames stand for.
pub open spec fn scopes_of(stack: Seq<ScopeFrame>, nesting: int) -> Seq<Option<Offset>> {
    Seq::new(nesting as nat, |level: int| scope_at(stack, level))
}

proof fn lemma_scope_at_absent(stack: Seq<ScopeFrame>, level: int)
    requires
        forall|i: int| 0 <= i < stack.len() ==> (#[trigger] stack[i]).depth != level,
    ensures
        scope_at(stack, level) is None,
    decreases stack.len(),
{
    if stack.len() > 0 {
        lemma_scope_at_absent(stack.drop_last(), level);
    }
}

proof fn lemma_scopes_shrink(stack: Seq<ScopeFrame>, nesting: int)
    requires
        nesting > 0,
    ensures
        scopes_of(stack, nesting).drop_last() == scopes_of(stack, nesting - 1),
        scopes_of(stack, nesting).last() == scope_at(stack, nesting - 1),
{
    assert(scopes_of(stack, nesting).drop_last() =~= scopes_of(stack, nesting - 1));
}

proof fn lemma_scopes_without_top(stack: Seq<ScopeFrame>, nesting: int)
    requires
        stack.len() > 0,
        0 <= nesting <= stack.last().depth,
    ensures
        scopes_of(stack, nesting) == scopes_of(stack.drop_last(), nesting),
{
    assert(scopes_of(stack, nesting) =~= scopes_of(stack.drop_last(), nesting));
}

proof fn lemma_innermost_is_top(stack: Seq<ScopeFrame>, nesting: int)
    requires
        nesting >= 0,
        frames_ordered(stack, nesting),
    ensures
        innermost_procedure(scopes_of(stack, nesting)) == if stack.len() == 0 {
            None
        } else {
            Some(stack.last().procedure_offset)
        },
    decreases nesting,
{
    if nesting > 0 {
        lemma_scopes_shrink(stack, nesting);
        if stack.len() > 0 && stack.last().depth == nesting - 1 {
        } else {
            lemma_scope_at_absent(stack, nesting - 1);
            lemma_innermost_is_top(stack, nesting - 1);
        }
    } else {
        assert(stack.len() > 0 ==> stack[0].depth < nesting);
    }
}

proof fn lemma_frames_are_open_procedures(stack: Seq<ScopeFrame>, nesting: int)
    requires
        0 <= nesting <= u32::MAX,
        frames_ordered(stack, nesting),
    ensures
        frames_in(scopes_of(stack, nesting)) == stack,
    decreases nesting,
{
    if nesting > 0 {
        lemma_scopes_shrink(stack, nesting);
        if stack.len() > 0 && stack.last().depth == nesting - 1 {
            lemma_scopes_without_top(stack, nesting - 1);
            lemma_frames_are_open_procedures(stack.drop_last(), nesting - 1);
            assert(stack.drop_last().push(stack.last()) =~= stack);
        } else {
            assert forall|i: int| 0 <= i < stack.len() implies (#[trigger] stack[i]).depth
                != nesting - 1 by {
                assert(stack[i].depth <= stack[stack.len() - 1].depth);
            }
            lemma_scope_at_absent(stack, nesting - 1);
            lemma_frames_are_open_procedures(stack, nesting - 1);
        }
    } else {
        assert(stack.len() > 0 ==> stack[0].depth < nesting);
        assert(stack =~= Seq::empty());
    }
}

/// There is one frame for each open procedure.
pub proof fn lemma_frames_count(scopes: Seq<Option<Offset>>)
    ensures
        frames_in(scopes).len() == open_procedures(scopes),
    decreases scopes.len(),
{
    if scopes.len() > 0 {
        lemma_frames_count(scopes.drop_last());
    }
}

/// Every scope that is open after a stream was opened by one of its records.
pub proof fn lemma_scopes_bounded(stream: Seq<SymbolRecord>)
    ensures
        scopes_after(stream).len() <= stream.len(),
    decreases stream.len(),
{
    if stream.len() > 0 {
        lemma_scopes_bounded(stream.drop_last());
    }
}

/// Walks a symbol stream record by record and knows, at each point, the
/// procedures that are open there.
#[derive(Clone, Debug)]
pub struct ScopeWalker {
    depth: u32,
    pending: bool,
    stack: Vec<ScopeFrame>,
}

impl ScopeWalker {
    /// The number of scopes open around the record fed last.
    pub closed spec fn spec_depth(&self) -> u32 {
        self.depth
    }

    /// The record fed last opened a scope, which counts from the next record on.
    pub closed spec fn spec_pending(&self) -> bool {
        self.pending
    }

    /// The frames of the open procedures, outermost first.
    pub closed spec fn spec_frames(&self) -> Seq<ScopeFrame> {
        self.stack@
    }

    /// The number of scopes open for the records that follow.
    pub open spec fn nesting(&self) -> int {
        self.spec_depth() + if self.spec_pending() {
            1int
        } else {
            0int
        }
    }

    /// The frames lie at increasing depths below the nesting, which fits `u32`.
    pub open spec fn wf(&self) -> bool {
        &&& self.nesting() <= u32::MAX
        &&& frames_ordered(self.spec_frames(), self.nesting())
    }

    /// The stack of scopes that are open for the records that follow.
    pub open spec fn scopes(&self) -> Seq<Option<Offset>> {
        scopes_of(self.spec_frames(), self.nesting())
    }

    /// The walker can take `record`: a closing record finds a scope open,
    /// and an opening record leaves the nesting within `u32`.
    pub open spec fn accepts(&self, record: SymbolRecord) -> bool {
        &&& record.closes_scope() ==> self.scopes().len() > 0
        &&& record.opens_scope() ==> self.scopes().len() < u32::MAX
    }

    /// A walker at the start of a stream: depth 0, no procedure open.
    pub fn new() -> (walker: ScopeWalker)
        ensures
            walker.wf(),
            walker.scopes() == Seq::<Option<Offset>>::empty(),
            walker.spec_depth() == 0,
            !walker.spec_pending(),
            walker.spec_frames() == Seq::<ScopeFrame>::empty(),
    {
        let walker = ScopeWalker { depth: 0, pending: false, stack: Vec::new() };
        proof {
            assert(walker.scopes() =~= Seq::<Option<Offset>>::empty());
        }
        walker
    }

    /// The number of scopes open around the record fed last; the scope
    /// that this record itself opened is not counted yet.
    pub fn depth(&self) -> (depth: u32)
        ensures
            depth == self.spec_depth(),
            self.wf() ==> depth == self.scopes().len() - if self.spec_pending() {
                1int
            } else {
                0int
            },
    {
        self.depth
    }

    /// The frames of the open procedures, outermost first.
    pub fn frames(&self) -> (frames: &Vec<ScopeFrame>)
        ensures
            frames@ == self.spec_frames(),
            self.wf() ==> frames@ == frames_in(self.scopes()),
    {
        proof {
            if self.wf() {
                lemma_frames_are_open_procedures(self.stack@, self.nesting());
            }
        }
        &self.stack
    }

    /// The number of frames on the stack, which is the number of open procedures.
    pub fn stack_depth(&self) -> (count: usize)
        requires
            self.wf(),
        ensures
            count == self.spec_frames().len(),
            count == open_procedures(self.scopes()),
    {
        proof {
            lemma_frames_are_open_procedures(self.stack@, self.nesting());
            lemma_frames_count(self.scopes());
        }
        self.stack.len()
    }

    /// The offset of the innermost procedure that is open for the records
    /// that follow, or `None` outside every procedure.
    pub fn enclosing_procedure(&self) -> (offset: Option<Offset>)
        requires
            self.wf(),
        ensures
            offset == innermost_procedure(self.scopes()),
            offset == if self.spec_frames().len() == 0 {
                None
            } else {
                Some(self.spec_frames().last().procedure_offset)
            },
    {
        proof {
            lemma_innermost_is_top(self.stack@, self.nesting());
        }
        let n = self.stack.len();
        if n == 0 {
            None
        } else {
            Some(self.stack[n - 1].procedure_offset)
        }
    }

    /// Whether the walker can take `record`.
    pub fn can_step(&self, record: &SymbolRecord) -> (ok: bool)
        requires
            self.wf(),
        ensures
            ok == self.accepts(*record),
    {
        let open: u32 = if self.pending {
            self.depth + 1
        } else {
            self.depth
        };
        (!record.ends_scope() || open > 0) && (!record.starts_scope() || open < u32::MAX)
    }

    /// Takes the next record of the stream. The scope that a record opens
    /// counts from the record after it. A record that closes a scope lowers
    /// the depth, and drops the top frame if that lies at the new depth or
    /// deeper. A procedure start puts a frame at the current depth.
    pub fn step(&mut self, record: &SymbolRecord)
        requires
            old(self).wf(),
            old(self).accepts(*record),
        ensures
            final(self).wf(),
            final(self).scopes() == scope_step(old(self).scopes(), *record),
            final(self).spec_pending() == record.opens_scope(),
            final(self).spec_depth() == old(self).nesting() - if record.closes_scope() {
                1int
            } else {
                0int
            },
            final(self).spec_frames() == if record.closes_scope() && old(self).scopes().last()
                is Some {
                old(self).spec_frames().drop_last()
            } else if record is ProcedureStart {
                old(self).spec_frames().push(
                    ScopeFrame {
                        depth: old(self).nesting() as u32,
                        procedure_offset: record->offset,
                    },
                )
            } else {
                old(self).spec_frames()
            },
    {
        let ghost before = self.scopes();
        let ghost frames = self.stack@;
        let ghost level = self.nesting();
        if self.pending {
            self.depth += 1;
        }
        self.pending = record.starts_scope();
        if record.ends_scope() {
            self.depth -= 1;
            let n = self.stack.len();
            if n > 0 && self.stack[n - 1].depth >= self.depth {
                self.stack.pop();
                proof {
                    lemma_scopes_shrink(frames, level);
                    lemma_scopes_without_top(frames, level - 1);
                }
            } else {
                proof {
                    lemma_scopes_shrink(frames, level);
                    assert forall|i: int| 0 <= i < frames.len() implies (#[trigger] frames[i]).depth
                        != level - 1 by {
                        assert(frames[i].depth <= frames[frames.len() - 1].depth);
                    }
                    lemma_scope_at_absent(frames, level - 1);
                }
            }
        }
        if let SymbolRecord::ProcedureStart { offset, .. } = record {
            self.stack.push(ScopeFrame { depth: self.depth, procedure_offset: *offset });
            proof {
                lemma_scopes_shrink(self.stack@, level + 1);
                lemma_scopes_without_top(self.stack@, level);
                assert(self.stack@.drop_last() =~= frames);
                assert(self.scopes() =~= before.push(Some(*offset)));
            }
        } else if record.starts_scope() {
            proof {
                lemma_scope_at_absent(frames, level);
                lemma_scopes_shrink(frames, level + 1);
                assert(self.scopes() =~= before.push(None));
            }
        } else if !record.ends_scope() {
            assert(self.scopes() =~= before);
        }
    }

    /// Walks the whole of `stream` from its start.
    pub fn walk(stream: &Vec<SymbolRecord>) -> (walker: ScopeWalker)
        requires
            well_formed(stream@),
            stream@.len() <= u32::MAX,
        ensures
            walker.wf(),
            walker.scopes() == scopes_after(stream@),
            walker.spec_pending() == (stream@.len() > 0 && stream@.last().opens_scope()),
    {
        let mut walker = ScopeWalker::new();
        let n = stream.len();
        let mut i: usize = 0;
        while i < n
            invariant
                n == stream@.len(),
                n <= u32::MAX,
                i <= n,
                well_formed(stream@),
                walker.wf(),
                walker.scopes() == scopes_after(stream@.take(i as int)),
                walker.spec_pending() == (i > 0 && stream@[i - 1].opens_scope()),
            decreases n - i,
        {
            proof {
                lemma_scopes_bounded(stream@.take(i as int));
                assert(stream@.take(i + 1).drop_last() =~= stream@.take(i as int));
            }
            walker.step(&stream[i]);
            i += 1;
        }
        proof {
            assert(stream@.take(n as int) =~= stream@);
        }
        walker
    }
}

/// Whether no record of `stream` closes a scope when none is open.
pub fn is_well_formed(stream: &Vec<SymbolRecord>) -> (ok: bool)
    ensures
        ok == well_formed(stream@),
{
    let n = stream.len();
    let mut open: usize = 0;
    let mut i: usize = 0;
    while i < n
        invariant
            n == stream@.len(),
            i <= n,
            open == scopes_after(stream@.take(i as int)).len(),
            open <= i,
            forall|k: int|
                0 <= k < i && (#[trigger] stream@[k]).closes_scope() ==> scopes_after(
                    stream@.take(k),
                ).len() > 0,
        decreases n - i,
    {
        proof {
            assert(stream@.take(i + 1).drop_last() =~= stream@.take(i as int));
        }
        if stream[i].ends_scope() {
            if open == 0 {
                return false;
            }
            open -= 1;
        } else if stream[i].starts_scope() {
            open += 1;
        }
        i += 1;
    }
    true
}

/// While a well-formed stream is walked, the depth never falls below 0,
/// and the walker's stack holds exactly one frame for each procedure that
/// was opened and not yet closed: the frames of those procedures, so their
/// number is the number of open procedures.
pub proof fn lemma_stack_counts_open_procedures(walker: ScopeWalker, stream: Seq<SymbolRecord>)
    requires
        walker.wf(),
        walker.scopes() == scopes_after(stream),
    ensures
        walker.spec_depth() >= 0,
        walker.spec_frames() == frames_in(scopes_after(stream)),
        walker.spec_frames().len() == open_procedures(scopes_after(stream)),
{
    lemma_frames_are_open_procedures(walker.spec_frames(), walker.nesting());
    lemma_frames_count(scopes_after(stream));
}

} // verus!
