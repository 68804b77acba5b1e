//! Counts of the safe and unsafe items of a crate.

use vstd::prelude::*;

verus! {

/// How many items of one kind are safe, and how many unsafe.
#[derive(Debug, Clone, Copy, PartialEq, Eq)]
pub struct CountUnsafeEntry {
    pub safe: u32,
    pub unsafe_: u32,
}

/// The counts for each kind of item.
#[derive(Debug, Clone, Copy, PartialEq, Eq)]
pub struct CountUnsafeResult {
    pub functions: CountUnsafeEntry,
    pub exprs: CountUnsafeEntry,
    pub item_impls: CountUnsafeEntry,
    pub item_traits: CountUnsafeEntry,
    pub methods: CountUnsafeEntry,
}

impl CountUnsafeResult {
    /// The number of unsafe items of all kinds.
    pub open spec fn unsafe_sum(&self) -> int {
        self.functions.unsafe_ + self.exprs.unsafe_ + self.item_impls.unsafe_
            + self.item_traits.unsafe_ + self.methods.unsafe_
    }

    /// Whether any item of any kind is unsafe.
    #[must_use]
    pub fn has_unsafe(&self) -> (r: bool)
        ensures
            r == (self.unsafe_sum() > 0),
    {
        self.functions.unsafe_ > 0 || self.exprs.unsafe_ > 0 || self.item_impls.unsafe_ > 0
            || self.item_traits.unsafe_ > 0 || self.methods.unsafe_ > 0
    }

    /// The number of unsafe items of all kinds, where it fits the result's
    /// type.
    #[must_use]
    pub fn total_unsafe(&self) -> (r: u32)
        requires
            self.unsafe_sum() <= u32::MAX,
        ensures
            r == self.unsafe_sum(),
    {
        self.functions.unsafe_ + self.exprs.unsafe_ + self.item_impls.unsafe_
            + self.item_traits.unsafe_ + self.methods.unsafe_
    }

    /// The number of unsafe items of all kinds, or `None` where it does not
    /// fit the result's type.
    #[must_use]
    pub fn checked_total_unsafe(&self) -> (r: Option<u32>)
        ensures
            r.is_some() == (self.unsafe_sum() <= u32::MAX),
            r matches Some(total) ==> total == self.unsafe_sum(),
    {
        let sum: u64 = self.functions.unsafe_ as u64 + self.exprs.unsafe_ as u64
            + self.item_impls.unsafe_ as u64 + self.item_traits.unsafe_ as u64
            + self.methods.unsafe_ as u64;
        if sum <= u32::MAX as u64 {
            Some(self.total_unsafe())
        } else {
            None
        }
    }
}

} // verus!
