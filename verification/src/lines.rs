//! Line tables and the point query on them.

use vstd::prelude::*;
use crate::address::{is_within, within};

verus! {

/// One row of a line table: the code that starts at `offset` comes from
/// `line` of `file`. The row reaches up to the start of the next row, and
/// over `[offset, offset + length)` where its `length` is known.
#[derive(Clone, Debug, PartialEq, Eq)]
pub struct LineRecord {
    pub offset: u64,
    pub file: String,
    pub line: u32,
    pub length: Option<u64>,
}

/// The rows of one code region, in the order in which they were recorded.
#[derive(Clone, Debug, PartialEq, Eq)]
pub struct LineTable {
    pub records: Vec<LineRecord>,
}

impl View for LineTable {
    type V = Seq<LineRecord>;

    open spec fn view(&self) -> Seq<LineRecord> {
        self.records@
    }
}

impl LineTable {
    /// The rows stand in the order of their offsets: none starts before
    /// the one ahead of it.
    pub open spec fn ordered(&self) -> bool {
        forall|i: int, j: int| 0 <= i < j < self@.len() ==> self@[i].offset <= self@[j].offset
    }

    /// Whether the rows stand in the order of their offsets.
    pub fn is_ordered(&self) -> (ok: bool)
        ensures
            ok == self.ordered(),
    {
        let n = self.records.len();
        let mut i: usize = 1;
        while i < n
            invariant
                n == self@.len(),
                1 <= i,
                forall|a: int, b: int| 0 <= a < b < i && b < n ==> self@[a].offset <= self@[b].offset,
            decreases n - i,
        {
            if self.records[i - 1].offset > self.records[i].offset {
                return false;
            }
            assert forall|a: int, b: int| 0 <= a < b < i + 1 && b < n implies self@[a].offset
                <= self@[b].offset by {
                if b == i && a < i - 1 {
                    assert(self@[a].offset <= self@[i - 1].offset);
                }
            }
            i += 1;
        }
        true
    }
}

/// The rows of `table` that start in the `length` bytes from `start` on,
/// in their order: the rows of the code that lies there.
pub open spec fn rows_within(table: Seq<LineRecord>, start: u64, length: u64) -> Seq<LineRecord>
    decreases table.len(),
{
    if table.len() == 0 {
        Seq::empty()
    } else {
        let rest = rows_within(table.drop_last(), start, length);
        if within(start, length, table.last().offset) {
            rest.push(table.last())
        } else {
            rest
        }
    }
}

/// The rows of `table` that start in the `length` bytes from `start` on.
pub fn select_rows(table: &LineTable, start: u64, length: u64) -> (rows: LineTable)
    ensures
        rows@ == rows_within(table@, start, length),
{
    let n = table.records.len();
    let mut records: Vec<LineRecord> = Vec::new();
    let mut i: usize = 0;
    while i < n
        invariant
            n == table@.len(),
            i <= n,
            records@ == rows_within(table@.take(i as int), start, length),
        decreases n - i,
    {
        let row = &table.records[i];
        proof {
            assert(table@.take(i + 1).drop_last() =~= table@.take(i as int));
        }
        if is_within(start, length, row.offset) {
            records.push(
                LineRecord {
                    offset: row.offset,
                    file: row.file.clone(),
                    line: row.line,
                    length: row.length,
                },
            );
        }
        i += 1;
    }
    proof {
        assert(table@.take(n as int) =~= table@);
    }
    LineTable { records }
}

/// Row `i` of `table` covers `address`: it starts at or before the address,
/// and either its known length reaches past the address, or it is the last
/// row, or the row after it starts beyond the address.
pub open spec fn covers(table: Seq<LineRecord>, i: int, address: u64) -> bool {
    &&& 0 <= i < table.len()
    &&& table[i].offset <= address
    &&& {
        ||| (table[i].length is Some && address < table[i].offset + table[i].length->0)
        ||| i + 1 == table.len()
        ||| table[i + 1].offset > address
    }
}

/// Row `i` covers `address` and no row before it does.
pub open spec fn is_first_covering(table: Seq<LineRecord>, i: int, address: u64) -> bool {
    &&& covers(table, i, address)
    &&& forall|j: int| 0 <= j < i ==> !covers(table, j, address)
}

/// The index of the first row that covers `address`, if any row does.
pub open spec fn covering_index(table: Seq<LineRecord>, address: u64) -> Option<int> {
    if exists|i: int| is_first_covering(table, i, address) {
        Some(choose|i: int| is_first_covering(table, i, address))
    } else {
        None
    }
}

/// Offsets grow from each row to the next.
pub open spec fn strictly_increasing(table: Seq<LineRecord>) -> bool {
    forall|i: int, j: int| 0 <= i < j < table.len() ==> table[i].offset < table[j].offset
}

/// No known length reaches past the start of the following row.
pub open spec fn lengths_within_gaps(table: Seq<LineRecord>) -> bool {
    forall|i: int|
        0 <= i && i + 1 < table.len() && (#[trigger] table[i]).length is Some
            ==> table[i].offset + table[i].length->0 <= table[i + 1].offset
}

/// At most one index is the first covering one.
pub proof fn lemma_first_covering_unique(table: Seq<LineRecord>, i: int, k: int, address: u64)
    requires
        is_first_covering(table, i, address),
        is_first_covering(table, k, address),
    ensures
        i == k,
{
    if i < k {
        assert(!covers(table, i, address));
    } else if k < i {
        assert(!covers(table, k, address));
    }
}

/// `covering_index` is `Some(i)` exactly for the first covering index `i`.
pub proof fn lemma_covering_index_is(table: Seq<LineRecord>, i: int, address: u64)
    requires
        is_first_covering(table, i, address),
    ensures
        covering_index(table, address) == Some(i),
{
    let k = choose|k: int| is_first_covering(table, k, address);
    lemma_first_covering_unique(table, i, k, address);
}

/// Where no row covers the address, `covering_index` is `None`.
pub proof fn lemma_covering_index_none(table: Seq<LineRecord>, address: u64)
    requires
        forall|j: int| 0 <= j < table.len() ==> !covers(table, j, address),
    ensures
        covering_index(table, address) is None,
{
    assert forall|i: int| !is_first_covering(table, i, address) by {
        if 0 <= i < table.len() {
            assert(!covers(table, i, address));
        }
    }
}

/// The first row of `table` that covers `address`.
pub fn covering_line<'a>(table: &'a LineTable, address: u64) -> (found: Option<&'a LineRecord>)
    ensures
        match covering_index(table@, address) {
            Some(i) => found == Some(&table@[i]),
            None => found is None,
        },
{
    let n = table.records.len();
    let mut i: usize = 0;
    while i < n
        invariant
            n == table@.len(),
            i <= n,
            forall|j: int| 0 <= j < i ==> !covers(table@, j, address),
        decreases n - i,
    {
        let record = &table.records[i];
        if record.offset <= address {
            let by_length = match record.length {
                Some(length) => address - record.offset < length,
                None => false,
            };
            let last = i + 1 == n;
            if by_length || last || table.records[i + 1].offset > address {
                proof {
                    assert(covers(table@, i as int, address));
                    lemma_covering_index_is(table@, i as int, address);
                }
                return Some(record);
            }
        }
        i += 1;
    }
    proof {
        lemma_covering_index_none(table@, address);
    }
    None
}

/// An address at or after the start of some row is covered by a row at or after it.
proof fn lemma_covered_from(table: Seq<LineRecord>, k: int, address: u64)
    requires
        0 <= k < table.len(),
        table[k].offset <= address,
    ensures
        exists|i: int| k <= i && covers(table, i, address),
    decreases table.len() - k,
{
    if k + 1 == table.len() || table[k + 1].offset > address {
        assert(covers(table, k, address));
    } else {
        lemma_covered_from(table, k + 1, address);
    }
}

/// Among the indices up to `bound` that cover, there is a first one.
proof fn lemma_first_exists(table: Seq<LineRecord>, bound: int, address: u64)
    requires
        covers(table, bound, address),
    ensures
        exists|i: int| is_first_covering(table, i, address),
    decreases bound,
{
    if exists|j: int| 0 <= j < bound && covers(table, j, address) {
        let j = choose|j: int| 0 <= j < bound && covers(table, j, address);
        lemma_first_exists(table, j, address);
    } else {
        assert(is_first_covering(table, bound, address));
    }
}

/// The point query finds a row exactly for the addresses at or after the
/// offset of some row, whatever the order of the rows.
pub proof fn lemma_covered_iff_started(table: Seq<LineRecord>, address: u64)
    ensures
        covering_index(table, address) is Some <==> exists|k: int|
            0 <= k < table.len() && (#[trigger] table[k]).offset <= address,
        covering_index(table, address) is Some ==> is_first_covering(
            table,
            covering_index(table, address)->0,
            address,
        ),
{
    if exists|k: int| 0 <= k < table.len() && (#[trigger] table[k]).offset <= address {
        let k = choose|k: int| 0 <= k < table.len() && (#[trigger] table[k]).offset <= address;
        lemma_covered_from(table, k, address);
        let i = choose|i: int| k <= i && covers(table, i, address);
        lemma_first_exists(table, i, address);
    } else {
        lemma_covering_index_none(table, address);
    }
    if covering_index(table, address) is Some {
        let i = covering_index(table, address)->0;
        assert(table[i].offset <= address);
    }
}

/// In a table whose offsets strictly increase and whose known lengths stay
/// within the gap to the next row, every address at or after the first
/// offset is covered by exactly one row.
pub proof fn lemma_covering_exactly_one(table: Seq<LineRecord>, address: u64)
    requires
        table.len() > 0,
        strictly_increasing(table),
        lengths_within_gaps(table),
        table[0].offset <= address,
    ensures
        covering_index(table, address) is Some,
        forall|i: int|
            covers(table, i, address) <==> covering_index(table, address) == Some(i),
{
    lemma_covered_iff_started(table, address);
    let first = covering_index(table, address)->0;
    assert forall|i: int| covers(table, i, address) implies i == first by {
        if first < i {
            assert(table[first + 1].offset <= table[i].offset);
            assert(table[first].length is Some);
        }
    }
}

} // verus!
