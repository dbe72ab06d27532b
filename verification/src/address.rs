//! Translation of section-relative code offsets to flat addresses.

use vstd::prelude::*;

verus! {

/// `point` lies in the `length` places from `start` on.
pub open spec fn within(start: u64, length: u64, point: u64) -> bool {
    start <= point < start + length
}

/// Whether `point` lies in the `length` places from `start` on.
pub fn is_within(start: u64, length: u64, point: u64) -> (inside: bool)
    ensures
        inside == within(start, length, point),
{
    start <= point && point - start < length
}

/// A run of `length` consecutive offsets from `offset` on, mapped in order
/// to the flat addresses from `address` on.
#[derive(Clone, Copy, Debug, PartialEq, Eq)]
pub struct Region {
    pub offset: u64,
    pub length: u64,
    pub address: u64,
}

impl Region {
    /// `offset` lies in `[self.offset, self.offset + self.length)`.
    pub open spec fn contains(&self, offset: u64) -> bool {
        within(self.offset, self.length, offset)
    }

    /// The flat address of `offset`, which is `None` where it exceeds `u64`.
    pub open spec fn image(&self, offset: u64) -> Option<u64> {
        if self.address + (offset - self.offset) <= u64::MAX {
            Some((self.address + (offset - self.offset)) as u64)
        } else {
            None
        }
    }
}

/// The image of `offset` under the first region from index `start` on that
/// contains it; `None` where no such region contains it.
pub open spec fn translate_from(regions: Seq<Region>, start: int, offset: u64) -> Option<u64>
    decreases regions.len() - start,
{
    if start < 0 || start >= regions.len() {
        None
    } else if regions[start].contains(offset) {
        regions[start].image(offset)
    } else {
        translate_from(regions, start + 1, offset)
    }
}

/// The flat address of `offset`: its image under the first region that
/// contains it. Offsets that no region contains have no flat address.
pub open spec fn translated(regions: Seq<Region>, offset: u64) -> Option<u64> {
    translate_from(regions, 0, offset)
}

/// Maps code offsets to flat addresses, region by region. Offsets outside
/// every region (code that was discarded or never instantiated) do not
/// translate.
#[derive(Clone, Debug, PartialEq, Eq)]
pub struct AddressTranslator {
    pub regions: Vec<Region>,
}

impl View for AddressTranslator {
    type V = Seq<Region>;

    open spec fn view(&self) -> Seq<Region> {
        self.regions@
    }
}

impl AddressTranslator {
    /// A translator under which no offset translates.
    pub fn new() -> (translator: AddressTranslator)
        ensures
            translator@ == Seq::<Region>::empty(),
    {
        AddressTranslator { regions: Vec::new() }
    }

    /// A translator that maps every offset below `u64::MAX` to the address
    /// of the same value.
    pub fn identity() -> (translator: AddressTranslator)
        ensures
            translator@ == seq![Region { offset: 0, length: u64::MAX, address: 0 }],
            forall|offset: u64| offset < u64::MAX ==> translated(translator@, offset) == Some(offset),
    {
        let mut regions = Vec::new();
        regions.push(Region { offset: 0, length: u64::MAX, address: 0 });
        let translator = AddressTranslator { regions };
        proof {
            assert(translator@ =~= seq![Region { offset: 0, length: u64::MAX, address: 0 }]);
            assert forall|offset: u64| offset < u64::MAX implies translated(translator@, offset)
                == Some(offset) by {
                assert(translator@[0].contains(offset));
            }
        }
        translator
    }

    /// Adds a region after those already there; where regions overlap, the
    /// earlier one decides.
    pub fn map_region(&mut self, offset: u64, length: u64, address: u64)
        ensures
            final(self)@ == old(self)@.push(Region { offset, length, address }),
    {
        self.regions.push(Region { offset, length, address });
    }

    /// The flat address of `offset`, if it has one.
    pub fn translate(&self, offset: u64) -> (address: Option<u64>)
        ensures
            address == translated(self@, offset),
    {
        let n = self.regions.len();
        let mut i: usize = 0;
        while i < n
            invariant
                n == self@.len(),
                i <= n,
                translated(self@, offset) == translate_from(self@, i as int, offset),
            decreases n - i,
        {
            let region = &self.regions[i];
            if is_within(region.offset, region.length, offset) {
                return region.address.checked_add(offset - region.offset);
            }
            i += 1;
        }
        None
    }
}

} // verus!
