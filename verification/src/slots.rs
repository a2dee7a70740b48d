use vstd::prelude::*;

verus! {

/// Where each time-varying sim symbol lives in the flat slot array: after
/// the plan's own `sim_base` slots come `time`, `duration`, then one slot
/// per resource, per action (`cooldown.*`), per buff (`buff.*`), per buff
/// (`buff_remaining.*`), per action (`casts.*`) and per buff
/// (`stacks.*`), each sub-range in registry order.
#[derive(Debug, Clone, Copy, PartialEq, Eq, Structural)]
pub struct SlotLayout {
    pub sim_base: usize,
    pub resources: usize,
    pub actions: usize,
    pub buffs: usize,
}

impl SlotLayout {
    /// The total width of the slot array.
    pub open spec fn spec_width(self) -> int {
        self.sim_base + 2 + self.resources + 2 * self.actions + 3 * self.buffs
    }

    /// The layout fits the address space.
    pub open spec fn fits(self) -> bool {
        self.spec_width() <= usize::MAX
    }

    /// Total width of the slot array.
    pub fn width(&self) -> (w: usize)
        requires
            self.fits(),
        ensures
            w == self.spec_width(),
    {
        self.sim_base + 2 + self.resources + 2 * self.actions + 3 * self.buffs
    }

    /// The `time` slot.
    pub fn time(&self) -> (s: usize)
        requires
            self.fits(),
        ensures
            s == self.sim_base,
    {
        self.sim_base
    }

    /// The `duration` slot.
    pub fn duration(&self) -> (s: usize)
        requires
            self.fits(),
        ensures
            s == self.sim_base + 1,
    {
        self.sim_base + 1
    }

    /// The slot of resource `r`'s current amount.
    pub fn resource(&self, r: usize) -> (s: usize)
        requires
            self.fits(),
            r < self.resources,
        ensures
            s == self.sim_base + 2 + r,
    {
        self.sim_base + 2 + r
    }

    /// The slot of `cooldown.<a>`.
    pub fn cooldown(&self, a: usize) -> (s: usize)
        requires
            self.fits(),
            a < self.actions,
        ensures
            s == self.sim_base + 2 + self.resources + a,
    {
        self.sim_base + 2 + self.resources + a
    }

    /// The slot of `buff.<b>`.
    pub fn buff_flag(&self, b: usize) -> (s: usize)
        requires
            self.fits(),
            b < self.buffs,
        ensures
            s == self.sim_base + 2 + self.resources + self.actions + b,
    {
        self.sim_base + 2 + self.resources + self.actions + b
    }

    /// The slot of `buff_remaining.<b>`.
    pub fn buff_remaining(&self, b: usize) -> (s: usize)
        requires
            self.fits(),
            b < self.buffs,
        ensures
            s == self.sim_base + 2 + self.resources + self.actions + self.buffs + b,
    {
        self.sim_base + 2 + self.resources + self.actions + self.buffs + b
    }

    /// The slot of `casts.<a>`.
    pub fn casts(&self, a: usize) -> (s: usize)
        requires
            self.fits(),
            a < self.actions,
        ensures
            s == self.sim_base + 2 + self.resources + self.actions + 2 * self.buffs + a,
    {
        self.sim_base + 2 + self.resources + self.actions + 2 * self.buffs + a
    }

    /// The slot of `stacks.<b>`.
    pub fn stacks(&self, b: usize) -> (s: usize)
        requires
            self.fits(),
            b < self.buffs,
        ensures
            s == self.sim_base + 2 + self.resources + 2 * self.actions + 2 * self.buffs + b,
    {
        self.sim_base + 2 + self.resources + 2 * self.actions + 2 * self.buffs + b
    }
}

/// The sim segment of the layout is partitioned exactly: every slot from
/// `sim_base` up to the width belongs to one symbol, sub-ranges appear in
/// the documented order, and none overlaps another or the plan's prefix.
pub proof fn lemma_slot_segments_are_disjoint_and_in_order(l: SlotLayout)
    ensures
        ({
            let r0 = l.sim_base + 2;
            let c0 = r0 + l.resources;
            let b0 = c0 + l.actions;
            let m0 = b0 + l.buffs;
            let k0 = m0 + l.buffs;
            let s0 = k0 + l.actions;
            &&& l.sim_base < l.sim_base + 1 < r0
            &&& r0 <= c0 <= b0 <= m0 <= k0 <= s0
            &&& s0 + l.buffs == l.spec_width()
        }),
{
}

} // verus!
