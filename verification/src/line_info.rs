//! Line rows moved into the flat address space.

use vstd::prelude::*;
use crate::address::{translated, AddressTranslator, Region};
use crate::lines::{LineRecord, LineTable};

verus! {

/// File and line number mapping for an instruction address.
#[derive(Clone, Debug, PartialEq, Eq)]
pub struct LineInfo {
    /// The instruction address relative to the image base (load address).
    pub address: u64,
    /// Total code size covered by this line record.
    pub size: Option<u64>,
    /// File name and path.
    pub file: String,
    /// Absolute line number starting at 1. Zero means no line number.
    pub line: u64,
}

impl LineInfo {
    /// `target` lies in `[address, address + size)`. A row of unknown size
    /// covers nothing.
    pub open spec fn covers(&self, target: u64) -> bool {
        &&& self.size is Some
        &&& self.address <= target
        &&& target < self.address + self.size->0
    }

    /// Whether `target` lies in `[address, address + size)`.
    pub fn is_covering(&self, target: u64) -> (hit: bool)
        ensures
            hit == self.covers(target),
    {
        match self.size {
            Some(size) => self.address <= target && target - self.address < size,
            None => false,
        }
    }
}

/// The offset `relative` places past `base`, where that fits in `u64`.
pub open spec fn anchored(base: u64, relative: u64) -> Option<u64> {
    if base + relative <= u64::MAX {
        Some((base + relative) as u64)
    } else {
        None
    }
}

/// The flat address of the row at `relative` in a table anchored at `base`:
/// `None` where the anchored offset leaves `u64` or does not translate.
pub open spec fn flat_address(regions: Seq<Region>, base: u64, relative: u64) -> Option<u64> {
    match anchored(base, relative) {
        Some(offset) => translated(regions, offset),
        None => None,
    }
}

/// The rows of `table`, anchored at `base` and moved to their flat
/// addresses, in order; a row without a flat address is left out.
pub open spec fn flat_rows(table: Seq<LineRecord>, base: u64, regions: Seq<Region>) -> Seq<
    LineRecord,
>
    decreases table.len(),
{
    if table.len() == 0 {
        Seq::empty()
    } else {
        let rest = flat_rows(table.drop_last(), base, regions);
        let row = table.last();
        match flat_address(regions, base, row.offset) {
            Some(address) => rest.push(
                LineRecord { offset: address, file: row.file, line: row.line, length: row.length },
            ),
            None => rest,
        }
    }
}

/// A flat row as a `LineInfo`.
pub open spec fn line_info_of(row: LineRecord) -> LineInfo {
    LineInfo { address: row.offset, size: row.length, file: row.file, line: row.line as u64 }
}

/// The `LineInfo` of every row of `table` that has a flat address, in order.
pub open spec fn collected(table: Seq<LineRecord>, base: u64, regions: Seq<Region>) -> Seq<
    LineInfo,
> {
    flat_rows(table, base, regions).map_values(|row: LineRecord| line_info_of(row))
}

/// Anchors `table` at `base` and moves its rows to their flat addresses.
/// Rows whose offset does not translate are dropped; the others keep their
/// order, file, line and length.
pub fn translate_table(table: &LineTable, base: u64, translator: &AddressTranslator) -> (flat:
    LineTable)
    ensures
        flat@ == flat_rows(table@, base, translator@),
{
    let n = table.records.len();
    let mut records: Vec<LineRecord> = Vec::new();
    let mut i: usize = 0;
    while i < n
        invariant
            n == table@.len(),
            i <= n,
            records@ == flat_rows(table@.take(i as int), base, translator@),
        decreases n - i,
    {
        let row = &table.records[i];
        let address = match base.checked_add(row.offset) {
            Some(offset) => translator.translate(offset),
            None => None,
        };
        proof {
            assert(table@.take(i + 1).drop_last() =~= table@.take(i as int));
            assert(address == flat_address(translator@, base, row.offset));
        }
        if let Some(address) = address {
            records.push(
                LineRecord {
                    offset: address,
                    file: row.file.clone(),
                    line: row.line,
                    length: row.length,
                },
            );
        }
        i += 1;
    }
    proof {
        assert(table@.take(n as int) =~= table@);
    }
    LineTable { records }
}

/// The line information of an inline expansion: `table` holds the rows of
/// the inlinee relative to the procedure it was expanded in, `base` is that
/// procedure's offset. Rows whose offset does not translate are dropped.
pub fn collect_lines(table: &LineTable, base: u64, translator: &AddressTranslator) -> (lines: Vec<
    LineInfo,
>)
    ensures
        lines@ == collected(table@, base, translator@),
{
    let flat = translate_table(table, base, translator);
    let n = flat.records.len();
    let mut lines: Vec<LineInfo> = Vec::new();
    let mut i: usize = 0;
    while i < n
        invariant
            n == flat@.len(),
            i <= n,
            lines@ == flat@.take(i as int).map_values(|row: LineRecord| line_info_of(row)),
        decreases n - i,
    {
        let row = &flat.records[i];
        lines.push(
            LineInfo {
                address: row.offset,
                size: row.length,
                file: row.file.clone(),
                line: row.line as u64,
            },
        );
        proof {
            assert(lines@ =~= flat@.take(i + 1).map_values(|row: LineRecord| line_info_of(row)));
        }
        i += 1;
    }
    proof {
        assert(flat@.take(n as int) =~= flat@);
    }
    lines
}

} // verus!
