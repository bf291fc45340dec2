//! PXA27x interrupt controller, at physical 0x40D00000.
//!
//! Two banks of 32 sources. Each can be routed to IRQ or FIQ by ICLR.

use vstd::prelude::*;

verus! {

pub const BASE: u32 = 0x40D0_0000;

/// The two USB host interrupts: `ohci.dll` calls `RequestSysIntr` with 3 and
/// then 2, one for each of the machine's USB host ports.
pub const IRQ_USB_HOST_2: u32 = 2;
pub const IRQ_USB_HOST_1: u32 = 3;
pub const IRQ_OST_4_11: u32 = 7;
pub const IRQ_GPIO0: u32 = 8;
pub const IRQ_GPIO1: u32 = 9;
pub const IRQ_GPIO_X: u32 = 10;
pub const IRQ_PMU: u32 = 12;
pub const IRQ_AC97: u32 = 14;
pub const IRQ_I2C: u32 = 18;
pub const IRQ_STUART: u32 = 20;
pub const IRQ_BTUART: u32 = 21;
pub const IRQ_FFUART: u32 = 22;
pub const IRQ_MMC: u32 = 23;
pub const IRQ_DMA: u32 = 25;
pub const IRQ_OST0: u32 = 26;
pub const IRQ_RTC_HZ: u32 = 30;
pub const IRQ_RTC_ALARM: u32 = 31;

/// ICHP bit 31: an IRQ is pending, and bits 30:16 name it.
pub const ICHP_VAL_IRQ: u32 = 0x8000_0000;
/// ICHP bit 15: an FIQ is pending, and bits 14:0 name it.
pub const ICHP_VAL_FIQ: u32 = 0x8000;
/// Both source fields set to the invalid id, which is what the register
/// reads when nothing is pending.
pub const ICHP_IDLE: u32 = 0x003F_003F;
/// IPR entry bit 31 marks the entry as programmed.
pub const IPR_VALID: u32 = 0x8000_0000;

/// Entries in the priority table.
pub const PRIORITIES: usize = 40;

pub struct Intc {
    /// Raw level of every source, banks 0 and 1 packed into one word each.
    pub pending: [u32; 2],
    pub mask: [u32; 2],
    /// 1 routes the source to FIQ instead of IRQ.
    pub level: [u32; 2],
    pub control: u32,
    /// Priority registers, which decide what ICHP names.
    pub priority: [u32; 40],
}

impl Default for Intc {
    fn default() -> (r: Self)
        ensures
            r.at_reset(),
    {
        Intc { pending: [0; 2], mask: [0; 2], level: [0; 2], control: 0, priority: [0; 40] }
    }
}

impl Intc {
    /// Nothing pending, everything masked, no priority table.
    pub open spec fn at_reset(self) -> bool {
        &&& self.pending@ =~= seq![0u32, 0u32]
        &&& self.mask@ =~= seq![0u32, 0u32]
        &&& self.level@ =~= seq![0u32, 0u32]
        &&& self.control == 0
        &&& self.priority@ =~= Seq::new(40, |i: int| 0u32)
    }

    /// The controller after `source` was driven to `active`.
    pub open spec fn driven(self, source: u32, active: bool) -> Intc {
        let bank = (source / 32) as int;
        let bit = 1u32 << (source % 32);
        if bank > 1 {
            self
        } else if active {
            Intc {
                pending: vstd::array::spec_array_update(
                    self.pending,
                    bank,
                    self.pending[bank] | bit,
                ),
                ..self
            }
        } else {
            Intc {
                pending: vstd::array::spec_array_update(
                    self.pending,
                    bank,
                    self.pending[bank] & !bit,
                ),
                ..self
            }
        }
    }

    pub open spec fn pending_spec(self, source: u32) -> bool {
        source < 64 && self.pending[(source / 32) as int] & (1u32 << (source % 32)) != 0
    }

    pub open spec fn unmasked(self, source: u32) -> bool {
        source < 64 && self.mask[(source / 32) as int] & (1u32 << (source % 32)) != 0
    }

    /// The sources of `bank` that reach the IRQ line.
    pub open spec fn irq_word(self, bank: int) -> u32 {
        self.pending[bank] & self.mask[bank] & !self.level[bank]
    }

    /// The sources of `bank` that reach the FIQ line.
    pub open spec fn fiq_word(self, bank: int) -> u32 {
        self.pending[bank] & self.mask[bank] & self.level[bank]
    }

    pub open spec fn irq_spec(self) -> bool {
        self.irq_word(0) != 0 || self.irq_word(1) != 0
    }

    pub open spec fn fiq_spec(self) -> bool {
        self.fiq_word(0) != 0 || self.fiq_word(1) != 0
    }

    /// `source` is asserted, unmasked and routed to the line asked about.
    pub open spec fn active_spec(self, source: u32, want_fiq: bool) -> bool {
        let bank = (source / 32) as int;
        let bit = 1u32 << (source % 32);
        &&& source < 64
        &&& self.pending[bank] & self.mask[bank] & bit != 0
        &&& (self.level[bank] & bit != 0) == want_fiq
    }

    /// Whether entry `i` of the priority table is programmed.
    pub open spec fn programmed(self, i: int) -> bool {
        self.priority[i] & IPR_VALID != 0
    }

    /// The guest has programmed a priority table.
    pub open spec fn has_table(self) -> bool {
        exists|i: int| 0 <= i < 40 && #[trigger] self.programmed(i)
    }

    /// The first programmed entry from `i` on whose source is active.
    pub open spec fn listed_from(self, i: int, want_fiq: bool) -> Option<u32>
        decreases 40 - i,
    {
        if i >= 40 {
            None
        } else if self.programmed(i) && self.active_spec(self.priority[i] & 0x3F, want_fiq) {
            Some(self.priority[i] & 0x3F)
        } else {
            self.listed_from(i + 1, want_fiq)
        }
    }

    /// The lowest-numbered active source from `s` on.
    pub open spec fn lowest_from(self, s: int, want_fiq: bool) -> Option<u32>
        decreases 64 - s,
    {
        if s >= 64 {
            None
        } else if self.active_spec(s as u32, want_fiq) {
            Some(s as u32)
        } else {
            self.lowest_from(s + 1, want_fiq)
        }
    }

    /// The source ICHP names for one line: a programmed table is the whole
    /// truth, and without one the lowest number wins.
    pub open spec fn winner(self, want_fiq: bool) -> Option<u32> {
        if self.has_table() {
            self.listed_from(0, want_fiq)
        } else {
            self.lowest_from(0, want_fiq)
        }
    }

    pub open spec fn ichp_spec(self) -> u32 {
        let v = ICHP_IDLE;
        let v = match self.winner(false) {
            Some(irq) => (v & 0x0000_FFFF) | (ICHP_VAL_IRQ | (irq << 16)),
            None => v,
        };
        match self.winner(true) {
            Some(fiq) => (v & 0xFFFF_0000) | (ICHP_VAL_FIQ | fiq),
            None => v,
        }
    }

    /// The priority-table index a register offset names: IPR0-31 are packed
    /// from 0x1C, then the second bank's control registers intervene and
    /// IPR32-39 resume at 0xB0.
    pub open spec fn priority_index_spec(offset: u32) -> Option<int> {
        if 0x1C <= offset <= 0x98 {
            Some((offset - 0x1C) / 4)
        } else if 0xB0 <= offset <= 0xCC {
            Some(32 + (offset - 0xB0) / 4)
        } else {
            None
        }
    }

    pub open spec fn read_spec(self, offset: u32) -> u32 {
        if offset == 0x00 {
            self.irq_word(0)
        } else if offset == 0x04 {
            self.mask[0]
        } else if offset == 0x08 {
            self.level[0]
        } else if offset == 0x0C {
            self.fiq_word(0)
        } else if offset == 0x10 {
            self.pending[0]
        } else if offset == 0x14 {
            self.control
        } else if offset == 0x18 {
            self.ichp_spec()
        } else if offset == 0x9C {
            self.irq_word(1)
        } else if offset == 0xA0 {
            self.mask[1]
        } else if offset == 0xA4 {
            self.level[1]
        } else if offset == 0xA8 {
            self.fiq_word(1)
        } else if offset == 0xAC {
            self.pending[1]
        } else {
            match Self::priority_index_spec(offset) {
                Some(i) => self.priority[i],
                None => 0,
            }
        }
    }

    /// The controller after `val` was written at `offset`. ICIP, ICFP, ICPR
    /// and ICHP are read-only: sources are level-triggered and clear when the
    /// device is serviced.
    pub open spec fn written(self, offset: u32, val: u32) -> Intc {
        if offset == 0x04 {
            Intc { mask: vstd::array::spec_array_update(self.mask, 0, val), ..self }
        } else if offset == 0x08 {
            Intc { level: vstd::array::spec_array_update(self.level, 0, val), ..self }
        } else if offset == 0x14 {
            Intc { control: val, ..self }
        } else if offset == 0xA0 {
            Intc { mask: vstd::array::spec_array_update(self.mask, 1, val), ..self }
        } else if offset == 0xA4 {
            Intc { level: vstd::array::spec_array_update(self.level, 1, val), ..self }
        } else {
            match Self::priority_index_spec(offset) {
                Some(i) => Intc {
                    priority: vstd::array::spec_array_update(self.priority, i, val),
                    ..self
                },
                None => self,
            }
        }
    }

    /// Set or clear an interrupt source. Sources are level-triggered.
    pub fn set(&mut self, source: u32, active: bool)
        ensures
            *final(self) == old(self).driven(source, active),
    {
        let bank: usize = (source / 32) as usize;
        let bit: u32 = source % 32;
        if bank > 1 {
            return ;
        }
        if active {
            self.pending[bank] = self.pending[bank] | (1u32 << bit);
        } else {
            self.pending[bank] = self.pending[bank] & !(1u32 << bit);
        }
    }

    /// The sources the guest has put in its priority table, in order.
    ///
    /// Worth being able to see: if the table is programmed and a source is
    /// missing from it, `ichp` will not report that source, the OAL will not
    /// recognise the interrupt, and the driver waiting on it is never
    /// signalled.
    pub fn programmed_sources(&self) -> (r: Vec<u32>)
        ensures
            r@ == self.priority@.filter(|p: u32| p & IPR_VALID != 0).map_values(
                |p: u32| p & 0x3F,
            ),
    {
        let mut out: Vec<u32> = Vec::new();
        let mut i: usize = 0;
        let ghost keep = |p: u32| p & IPR_VALID != 0;
        let ghost name = |p: u32| p & 0x3F;
        assert(self.priority@.take(0).filter(keep) =~= Seq::<u32>::empty()) by {
            reveal(Seq::filter);
        }
        while i < PRIORITIES
            invariant
                i <= PRIORITIES,
                keep == (|p: u32| p & IPR_VALID != 0),
                name == (|p: u32| p & 0x3F),
                out@ =~= self.priority@.take(i as int).filter(keep).map_values(name),
            decreases PRIORITIES - i,
        {
            let p: u32 = self.priority[i];
            proof {
                let next = self.priority@.take(i as int + 1);
                assert(next.drop_last() =~= self.priority@.take(i as int));
                assert(next.last() == p);
                reveal(Seq::filter);
            }
            if p & IPR_VALID != 0 {
                out.push(p & 0x3F);
            }
            i = i + 1;
        }
        assert(self.priority@.take(40) =~= self.priority@);
        out
    }

    /// Whether the guest has this source masked off.
    pub fn is_masked(&self, source: u32) -> (r: bool)
        ensures
            r == (source < 64 && !self.unmasked(source)),
    {
        let bank: usize = (source / 32) as usize;
        let bit: u32 = source % 32;
        bank < 2 && self.mask[bank] & (1u32 << bit) == 0
    }

    /// Whether a source is asserted, regardless of whether it is masked.
    /// For a device to check its own line without reaching into the bank.
    pub fn is_pending(&self, source: u32) -> (r: bool)
        ensures
            r == self.pending_spec(source),
    {
        let bank: usize = (source / 32) as usize;
        let bit: u32 = source % 32;
        bank < 2 && self.pending[bank] & (1u32 << bit) != 0
    }

    pub fn irq_line(&self) -> (r: bool)
        ensures
            r == self.irq_spec(),
    {
        self.pending[0] & self.mask[0] & !self.level[0] != 0 || self.pending[1] & self.mask[1]
            & !self.level[1] != 0
    }

    pub fn fiq_line(&self) -> (r: bool)
        ensures
            r == self.fiq_spec(),
    {
        self.pending[0] & self.mask[0] & self.level[0] != 0 || self.pending[1] & self.mask[1]
            & self.level[1] != 0
    }

    /// Is this source asserted, unmasked, and routed to the requested line?
    fn active(&self, source: u32, want_fiq: bool) -> (r: bool)
        ensures
            r == self.active_spec(source, want_fiq),
    {
        let bank: usize = (source / 32) as usize;
        let bit: u32 = 1u32 << (source % 32);
        if bank > 1 {
            return false;
        }
        let asserted = self.pending[bank] & self.mask[bank] & bit != 0;
        let is_fiq = self.level[bank] & bit != 0;
        asserted && is_fiq == want_fiq
    }

    /// The source ICHP should report, honouring the priority table when the
    /// guest has programmed one.
    fn highest_priority(&self, want_fiq: bool) -> (r: Option<u32>)
        ensures
            r == self.winner(want_fiq),
    {
        let mut any_valid = false;
        let mut i: usize = 0;
        while i < PRIORITIES
            invariant
                i <= PRIORITIES,
                any_valid == exists|j: int| 0 <= j < i && #[trigger] self.programmed(j),
                self.listed_from(0, want_fiq) == self.listed_from(i as int, want_fiq),
            decreases PRIORITIES - i,
        {
            let p: u32 = self.priority[i];
            if p & IPR_VALID != 0 {
                assert(self.programmed(i as int));
                any_valid = true;
                let source: u32 = p & 0x3F;
                if self.active(source, want_fiq) {
                    return Some(source);
                }
            } else {
                assert(!self.programmed(i as int));
            }
            i = i + 1;
        }
        if any_valid {
            // A programmed table is authoritative: a source missing from it
            // is not reported.
            None
        } else {
            let mut s: u32 = 0;
            while s < 64
                invariant
                    s <= 64,
                    !self.has_table(),
                    self.lowest_from(0, want_fiq) == self.lowest_from(s as int, want_fiq),
                decreases 64 - s,
            {
                if self.active(s, want_fiq) {
                    return Some(s);
                }
                s = s + 1;
            }
            None
        }
    }

    /// ICHP, the highest-priority pending interrupt.
    ///
    /// Windows CE's OAL reads this rather than scanning ICIP, so without it
    /// every interrupt resolves to source 0 and the kernel logs
    /// `In ISRUnknown IRQ:0` forever.
    /// With nothing pending the source fields read `0x3f`, not zero: `0x3f`
    /// is the "no such source" sentinel, and zero is the OS timer's
    /// neighbour. A reader that trusts the field without checking the valid
    /// bit gets told "source 63", which is nothing, rather than "source 0",
    /// which is a real interrupt.
    pub fn ichp(&self) -> (r: u32)
        ensures
            r == self.ichp_spec(),
    {
        let mut v: u32 = ICHP_IDLE;
        if let Some(irq) = self.highest_priority(false) {
            v = v & 0x0000_FFFF;
            v = v | (ICHP_VAL_IRQ | (irq << 16));
        }
        if let Some(fiq) = self.highest_priority(true) {
            v = v & 0xFFFF_0000;
            v = v | (ICHP_VAL_FIQ | fiq);
        }
        v
    }

    /// Map a register offset to a priority-table index.
    pub fn priority_index(offset: u32) -> (r: Option<usize>)
        ensures
            match r {
                Some(i) => Self::priority_index_spec(offset) == Some(i as int) && i < PRIORITIES,
                None => Self::priority_index_spec(offset) is None,
            },
    {
        if 0x1C <= offset && offset <= 0x98 {
            Some(((offset - 0x1C) / 4) as usize)
        } else if 0xB0 <= offset && offset <= 0xCC {
            Some((32 + (offset - 0xB0) / 4) as usize)
        } else {
            None
        }
    }

    pub fn read(&self, offset: u32) -> (r: u32)
        ensures
            r == self.read_spec(offset),
    {
        match offset {
            0x00 => self.pending[0] & self.mask[0] & !self.level[0],  // ICIP
            0x04 => self.mask[0],  // ICMR
            0x08 => self.level[0],  // ICLR
            0x0C => self.pending[0] & self.mask[0] & self.level[0],  // ICFP
            0x10 => self.pending[0],  // ICPR
            0x14 => self.control,  // ICCR
            0x18 => self.ichp(),  // ICHP
            0x9C => self.pending[1] & self.mask[1] & !self.level[1],  // ICIP2
            0xA0 => self.mask[1],  // ICMR2
            0xA4 => self.level[1],  // ICLR2
            0xA8 => self.pending[1] & self.mask[1] & self.level[1],  // ICFP2
            0xAC => self.pending[1],  // ICPR2
            _ => match Self::priority_index(offset) {
                Some(i) => self.priority[i],
                None => 0,
            },
        }
    }

    pub fn write(&mut self, offset: u32, val: u32)
        ensures
            *final(self) == old(self).written(offset, val),
    {
        match offset {
            0x04 => self.mask[0] = val,
            0x08 => self.level[0] = val,
            0x14 => self.control = val,
            0xA0 => self.mask[1] = val,
            0xA4 => self.level[1] = val,
            _ => {
                if let Some(i) = Self::priority_index(offset) {
                    self.priority[i] = val;
                }
            },
        }
    }
}

/// A source reads back as it was last driven, and driving one source leaves
/// every other one as it was.
pub proof fn law_sources_are_independent(c: Intc, source: u32, active: bool, other: u32)
    requires
        source < 64,
    ensures
        c.driven(source, active).pending_spec(source) == active,
        other != source ==> c.driven(source, active).pending_spec(other) == c.pending_spec(other),
{
    let bank = (source / 32) as int;
    let b = source % 32;
    let d = other % 32;
    crate::bits::lemma_bit(c.pending[bank], b, d);
}

proof fn lemma_listed(c: Intc, i: int, want_fiq: bool)
    requires
        0 <= i,
    ensures
        c.listed_from(i, want_fiq) matches Some(s) ==> c.active_spec(s, want_fiq),
    decreases 40 - i,
{
    if i < 40 {
        lemma_listed(c, i + 1, want_fiq);
    }
}

proof fn lemma_lowest(c: Intc, s: int, want_fiq: bool)
    requires
        0 <= s,
    ensures
        match c.lowest_from(s, want_fiq) {
            Some(w) => s <= w && c.active_spec(w, want_fiq) && forall|t: u32|
                s <= t < w ==> !#[trigger] c.active_spec(t, want_fiq),
            None => forall|t: u32| s <= t ==> !#[trigger] c.active_spec(t, want_fiq),
        },
    decreases 64 - s,
{
    if s < 64 {
        lemma_lowest(c, s + 1, want_fiq);
    }
}

/// The source that is named is one that is asserted, unmasked and routed to
/// that line; without a priority table it is the lowest such, and none is
/// named only where there is none.
pub proof fn law_only_active_sources_are_named(c: Intc, want_fiq: bool)
    ensures
        c.winner(want_fiq) matches Some(s) ==> c.active_spec(s, want_fiq),
        !c.has_table() ==> match c.winner(want_fiq) {
            Some(s) => forall|t: u32| t < s ==> !#[trigger] c.active_spec(t, want_fiq),
            None => forall|t: u32| !#[trigger] c.active_spec(t, want_fiq),
        },
        c.winner(false) is None && c.winner(true) is None ==> c.ichp_spec() == ICHP_IDLE,
{
    lemma_listed(c, 0, want_fiq);
    lemma_lowest(c, 0, want_fiq);
}

impl Intc {
    /// Source `s` is asserted, the guest lets it through, and it goes to the
    /// line asked about.
    pub open spec fn reaches(self, s: u32, fiq: bool) -> bool {
        let bank = (s / 32) as int;
        &&& s < 64
        &&& crate::bits::bit_of(self.pending[bank], s % 32)
        &&& crate::bits::bit_of(self.mask[bank], s % 32)
        &&& crate::bits::bit_of(self.level[bank], s % 32) == fiq
    }

    /// The source that entry `i` of the priority table holds, where the guest
    /// has marked the entry valid.
    pub open spec fn entry(self, i: int) -> Option<u32> {
        if crate::bits::bit_of(self.priority[i], 31) {
            Some(self.priority[i] % 64)
        } else {
            None
        }
    }

    /// Entry `i` of the priority table holds a source that reaches the line.
    pub open spec fn entry_reaches(self, i: int, fiq: bool) -> bool {
        self.entry(i) is Some && self.reaches(self.entry(i)->0, fiq)
    }
}

/// The source that a value of ICHP names for one of the two lines: bit 31 and
/// bits 30:16 for IRQ, bit 15 and bits 14:0 for FIQ.
pub open spec fn named_in(ichp: u32, fiq: bool) -> Option<u32> {
    if fiq {
        if crate::bits::bit_of(ichp, 15) {
            Some(ichp & 0x7FFF)
        } else {
            None
        }
    } else if crate::bits::bit_of(ichp, 31) {
        Some((ichp >> 16) & 0x7FFF)
    } else {
        None
    }
}

/// Each line has its own half of ICHP.
proof fn lemma_halves(irq: u32, fiq: u32)
    requires
        irq < 64,
        fiq < 64,
    ensures
        ({
            let i = (ICHP_IDLE & 0x0000_FFFF) | (ICHP_VAL_IRQ | (irq << 16));
            let f = (ICHP_IDLE & 0xFFFF_0000) | (ICHP_VAL_FIQ | fiq);
            let b = (i & 0xFFFF_0000) | (ICHP_VAL_FIQ | fiq);
            &&& named_in(ICHP_IDLE, false) is None && named_in(ICHP_IDLE, true) is None
            &&& named_in(i, false) == Some(irq) && named_in(i, true) is None
            &&& named_in(f, false) is None && named_in(f, true) == Some(fiq)
            &&& named_in(b, false) == Some(irq) && named_in(b, true) == Some(fiq)
        }),
{
    assert({
        let i = (ICHP_IDLE & 0x0000_FFFF) | (ICHP_VAL_IRQ | (irq << 16));
        let f = (ICHP_IDLE & 0xFFFF_0000) | (ICHP_VAL_FIQ | fiq);
        let b = (i & 0xFFFF_0000) | (ICHP_VAL_FIQ | fiq);
        ICHP_IDLE & (1u32 << 31u32) == 0 && ICHP_IDLE & (1u32 << 15u32) == 0 && i & (1u32 << 31u32)
            != 0 && i & (1u32 << 15u32) == 0 && (i >> 16) & 0x7FFF == irq && f & (1u32 << 31u32)
            == 0 && f & (1u32 << 15u32) != 0 && f & 0x7FFF == fiq && b & (1u32 << 31u32) != 0 && b
            & (1u32 << 15u32) != 0 && (b >> 16) & 0x7FFF == irq && b & 0x7FFF == fiq
    }) by (bit_vector)
        requires
            irq < 64,
            fiq < 64,
    ;
}

proof fn lemma_reaches(c: Intc, s: u32, fiq: bool)
    ensures
        c.active_spec(s, fiq) == c.reaches(s, fiq),
{
    if s < 64 {
        let bank = (s / 32) as int;
        crate::bits::lemma_word(c.pending[bank], s % 32, c.mask[bank]);
    }
}

proof fn lemma_entry(c: Intc, i: int, fiq: bool)
    ensures
        c.programmed(i) == (c.entry(i) is Some),
        c.entry_reaches(i, fiq) == (c.programmed(i) && c.active_spec(c.priority[i] & 0x3F, fiq)),
        c.entry(i) is Some ==> c.entry(i)->0 == c.priority[i] & 0x3F,
{
    crate::bits::lemma_word(c.priority[i], 31, 0);
    lemma_reaches(c, c.priority[i] & 0x3F, fiq);
}

/// The first entry from `i` on whose source reaches the line.
proof fn lemma_first_entry(c: Intc, i: int, fiq: bool) -> (at: int)
    requires
        0 <= i <= 40,
    ensures
        match c.listed_from(i, fiq) {
            Some(s) => {
                &&& i <= at < 40
                &&& c.entry(at) == Some(s)
                &&& c.entry_reaches(at, fiq)
                &&& forall|j: int| i <= j < at ==> !#[trigger] c.entry_reaches(j, fiq)
            },
            None => forall|j: int| i <= j < 40 ==> !#[trigger] c.entry_reaches(j, fiq),
        },
    decreases 40 - i,
{
    if i == 40 {
        40
    } else {
        lemma_entry(c, i, fiq);
        if c.entry_reaches(i, fiq) {
            i
        } else {
            lemma_first_entry(c, i + 1, fiq)
        }
    }
}

/// ICHP names the source whose turn it is. Where the guest has a priority
/// table, that is the source of the first valid entry whose source reaches the
/// line, and none is named only where no valid entry has such a source.
/// Without a table it is the lowest source that reaches the line, and none is
/// named only where none reaches it.
pub proof fn law_the_first_in_line_is_named(c: Intc, fiq: bool)
    ensures
        ({
            let named = named_in(c.read_spec(0x18), fiq);
            let table = exists|i: int| 0 <= i < 40 && (#[trigger] c.entry(i)) is Some;
            match named {
                Some(s) => {
                    &&& c.reaches(s, fiq)
                    &&& table ==> exists|i: int|
                        {
                            &&& 0 <= i < 40
                            &&& #[trigger] c.entry(i) == Some(s)
                            &&& forall|j: int| 0 <= j < i ==> !#[trigger] c.entry_reaches(j, fiq)
                        }
                    &&& !table ==> forall|t: u32| t < s ==> !#[trigger] c.reaches(t, fiq)
                },
                None => {
                    &&& table ==> forall|j: int|
                        0 <= j < 40 ==> !#[trigger] c.entry_reaches(j, fiq)
                    &&& !table ==> forall|t: u32| !#[trigger] c.reaches(t, fiq)
                },
            }
        }),
{
    lemma_winner(c, false);
    lemma_winner(c, true);
    let irq = match c.winner(false) {
        Some(s) => s,
        None => 0,
    };
    let f = match c.winner(true) {
        Some(s) => s,
        None => 0,
    };
    lemma_halves(irq, f);
    assert(named_in(c.read_spec(0x18), fiq) == c.winner(fiq));
}

proof fn lemma_winner(c: Intc, fiq: bool)
    ensures
        c.has_table() == (exists|i: int| 0 <= i < 40 && (#[trigger] c.entry(i)) is Some),
        match c.winner(fiq) {
            Some(s) => {
                &&& s < 64
                &&& c.reaches(s, fiq)
                &&& c.has_table() ==> exists|i: int|
                    {
                        &&& 0 <= i < 40
                        &&& #[trigger] c.entry(i) == Some(s)
                        &&& forall|j: int| 0 <= j < i ==> !#[trigger] c.entry_reaches(j, fiq)
                    }
                &&& !c.has_table() ==> forall|t: u32| t < s ==> !#[trigger] c.reaches(t, fiq)
            },
            None => {
                &&& c.has_table() ==> forall|j: int|
                    0 <= j < 40 ==> !#[trigger] c.entry_reaches(j, fiq)
                &&& !c.has_table() ==> forall|t: u32| !#[trigger] c.reaches(t, fiq)
            },
        },
{
    assert forall|i: int| 0 <= i < 40 implies (#[trigger] c.entry(i) is Some) == c.programmed(
        i,
    ) by {
        lemma_entry(c, i, fiq);
    }
    assert forall|i: int| 0 <= i < 40 && #[trigger] c.programmed(i) implies c.entry(i) is Some by {
        lemma_entry(c, i, fiq);
    }
    let at = lemma_first_entry(c, 0, fiq);
    lemma_lowest(c, 0, fiq);
    assert forall|t: u32| #[trigger] c.reaches(t, fiq) == c.active_spec(t, fiq) by {
        lemma_reaches(c, t, fiq);
    }
    if c.winner(fiq) is Some {
        let s = c.winner(fiq)->0;
        assert(c.active_spec(s, fiq)) by {
            lemma_listed(c, 0, fiq);
        }
        if c.has_table() {
            assert(c.entry(at) == Some(s));
        }
    }
}

/// A line is asserted exactly where some source reaches it.
pub proof fn law_a_line_follows_its_sources(c: Intc)
    ensures
        c.irq_spec() <==> exists|s: u32| #[trigger] c.reaches(s, false),
        c.fiq_spec() <==> exists|s: u32| #[trigger] c.reaches(s, true),
{
    lemma_word_sources(c, 0);
    lemma_word_sources(c, 1);
    if exists|s: u32| #[trigger] c.reaches(s, false) {
        let s = choose|s: u32| #[trigger] c.reaches(s, false);
        assert(s / 32 == 0 || s / 32 == 1);
        assert(crate::bits::bit_of(c.irq_word((s / 32) as int), s % 32));
    }
    if exists|s: u32| #[trigger] c.reaches(s, true) {
        let s = choose|s: u32| #[trigger] c.reaches(s, true);
        assert(s / 32 == 0 || s / 32 == 1);
        assert(crate::bits::bit_of(c.fiq_word((s / 32) as int), s % 32));
    }
}

proof fn lemma_word_sources(c: Intc, bank: int)
    requires
        bank == 0 || bank == 1,
    ensures
        forall|n: u32|
            n < 32 ==> #[trigger] crate::bits::bit_of(c.irq_word(bank), n) == c.reaches(
                (32 * bank + n) as u32,
                false,
            ),
        forall|n: u32|
            n < 32 ==> #[trigger] crate::bits::bit_of(c.fiq_word(bank), n) == c.reaches(
                (32 * bank + n) as u32,
                true,
            ),
        c.irq_word(bank) != 0 <==> exists|n: u32| n < 32 && #[trigger] crate::bits::bit_of(c.irq_word(bank), n),
        c.fiq_word(bank) != 0 <==> exists|n: u32| n < 32 && #[trigger] crate::bits::bit_of(c.fiq_word(bank), n),
{
    crate::bits::lemma_some_bit(c.irq_word(bank));
    crate::bits::lemma_some_bit(c.fiq_word(bank));
    assert forall|n: u32| n < 32 implies #[trigger] crate::bits::bit_of(c.irq_word(bank), n) == c.reaches(
        (32 * bank + n) as u32,
        false,
    ) by {
        let s = (32 * bank + n) as u32;
        assert(s / 32 == bank && s % 32 == n);
        crate::bits::lemma_word(c.pending[bank], n, c.mask[bank]);
        crate::bits::lemma_word(c.pending[bank] & c.mask[bank], n, c.level[bank]);
    }
    assert forall|n: u32| n < 32 implies #[trigger] crate::bits::bit_of(c.fiq_word(bank), n) == c.reaches(
        (32 * bank + n) as u32,
        true,
    ) by {
        let s = (32 * bank + n) as u32;
        assert(s / 32 == bank && s % 32 == n);
        crate::bits::lemma_word(c.pending[bank], n, c.mask[bank]);
        crate::bits::lemma_word(c.pending[bank] & c.mask[bank], n, c.level[bank]);
    }
}

/// The word-aligned registers that hold what is written to them: masks,
/// levels, control, and the priority table, which is in two pieces.
pub open spec fn holds_its_value(offset: u32) -> bool {
    ||| offset == 0x04 || offset == 0x08 || offset == 0x14 || offset == 0xA0 || offset == 0xA4
    ||| 0x1C <= offset <= 0x98 && offset % 4 == 0
    ||| 0xB0 <= offset <= 0xCC && offset % 4 == 0
}

/// A register that holds its value reads back as it was written, every other
/// such register reads as before, and writing to any register leaves the
/// sources as they are.
pub proof fn law_registers_read_back(c: Intc, offset: u32, val: u32, other: u32, s: u32)
    requires
        holds_its_value(offset),
        holds_its_value(other),
    ensures
        c.written(offset, val).read_spec(offset) == val,
        other != offset ==> c.written(offset, val).read_spec(other) == c.read_spec(other),
        c.written(offset, val).pending_spec(s) == c.pending_spec(s),
        c.written(0x1C, val).priority[0] == val,
        c.written(0x98, val).priority[31] == val,
        c.written(0xB0, val).priority[32] == val,
        c.written(0xCC, val).priority[39] == val,
{
}

/// A source is let through exactly where its bit stands in what the driver
/// wrote last to the mask of its bank, and the mask of one bank says nothing of
/// the other.
pub proof fn law_the_mask_lets_sources_through(c: Intc, val: u32, s: u32)
    requires
        s < 64,
    ensures
        c.written(0x04, val).unmasked(s) == (if s < 32 {
            crate::bits::bit_of(val, s)
        } else {
            c.unmasked(s)
        }),
        c.written(0xA0, val).unmasked(s) == (if s < 32 {
            c.unmasked(s)
        } else {
            crate::bits::bit_of(val, (s - 32) as u32)
        }),
{
    assert(s % 32 == if s < 32 {
        s as int
    } else {
        s - 32
    });
}

} // verus!
