//! PXA27x GPIO, at physical 0x40E00000.
//!
//! 121 pins across four banks. EBOOT's first job after CPU setup is to drive
//! GPSR/GPCR across all four banks, so this has to be right early.

use super::intc::{Intc, IRQ_GPIO0, IRQ_GPIO1, IRQ_GPIO_X};
use vstd::prelude::*;

verus! {

pub const BASE: u32 = 0x40E0_0000;
pub const BANKS: usize = 4;

pub struct Gpio {
    /// Output latch, what the pin drives when configured as an output.
    pub out: [u32; 4],
    /// Direction: 1 is output.
    pub dir: [u32; 4],
    /// Level driven onto the pin from outside, for inputs.
    pub input: [u32; 4],
    pub rising: [u32; 4],
    pub falling: [u32; 4],
    /// Edge detect status, write-one-to-clear.
    pub edge: [u32; 4],
    /// Alternate function selects, two bits per pin.
    pub afr: [u32; 8],
    /// Program counter of the write that first armed each pin's edge detect.
    ///
    /// A driver that waits on a pin instead of polling leaves no trace in
    /// access counts, but it has to arm the edge first, and that write says
    /// which module is waiting.
    pub armed_by: [[u32; 32]; 4],
    /// Set by the SoC before dispatching a write, so `armed_by` can be filled.
    pub pc: u32,
}

/// What a [`Gpio`] holds, bank by bank.
#[verifier::ext_equal]
pub struct GpioState {
    pub out: Seq<u32>,
    pub dir: Seq<u32>,
    pub input: Seq<u32>,
    pub rising: Seq<u32>,
    pub falling: Seq<u32>,
    pub edge: Seq<u32>,
    pub afr: Seq<u32>,
    pub armed_by: Seq<Seq<u32>>,
    pub pc: u32,
}

impl View for Gpio {
    type V = GpioState;

    open spec fn view(&self) -> GpioState {
        GpioState {
            out: self.out@,
            dir: self.dir@,
            input: self.input@,
            rising: self.rising@,
            falling: self.falling@,
            edge: self.edge@,
            afr: self.afr@,
            armed_by: self.armed_by@.map_values(|row: [u32; 32]| row@),
            pc: self.pc,
        }
    }
}

/// The register groups of one bank.
#[derive(Copy, Clone, Debug, PartialEq, Eq, Structural)]
pub enum Reg {
    Level,
    Dir,
    SetLatch,
    ClearLatch,
    Rising,
    Falling,
    Edge,
}

/// The registers in the order they are laid out.
pub open spec fn group(n: int) -> Option<Reg> {
    if n == 0 {
        Some(Reg::Level)
    } else if n == 1 {
        Some(Reg::Dir)
    } else if n == 2 {
        Some(Reg::SetLatch)
    } else if n == 3 {
        Some(Reg::ClearLatch)
    } else if n == 4 {
        Some(Reg::Rising)
    } else if n == 5 {
        Some(Reg::Falling)
    } else if n == 6 {
        Some(Reg::Edge)
    } else {
        None
    }
}

/// Bank and register that an offset names. Banks 0-2 sit interleaved in a
/// packed block; bank 3 lives at 0x100 with the same spacing between groups,
/// and only the exact offsets decode there.
pub open spec fn decode_spec(offset: u32) -> Option<(int, Reg)> {
    if offset >= 0x100 {
        if (offset - 0x100) % 0x0C == 0 {
            match group((offset - 0x100) / 0x0C) {
                Some(reg) => Some((3int, reg)),
                None => None,
            }
        } else {
            None
        }
    } else {
        match group((offset / 0x0C) as int) {
            Some(reg) => Some((((offset % 0x0C) / 4) as int, reg)),
            None => None,
        }
    }
}

pub fn decode(offset: u32) -> (r: Option<(usize, Reg)>)
    ensures
        match r {
            Some((bank, reg)) => bank < 4 && decode_spec(offset) == Some((bank as int, reg)),
            None => decode_spec(offset) is None,
        },
{
    if offset >= 0x100 {
        let reg = match offset {
            0x100 => Reg::Level,
            0x10C => Reg::Dir,
            0x118 => Reg::SetLatch,
            0x124 => Reg::ClearLatch,
            0x130 => Reg::Rising,
            0x13C => Reg::Falling,
            0x148 => Reg::Edge,
            _ => {
                return None;
            },
        };
        return Some((3, reg));
    }
    let group: u32 = offset / 0x0C;
    let bank: usize = ((offset % 0x0C) / 4) as usize;
    let reg = match group {
        0 => Reg::Level,
        1 => Reg::Dir,
        2 => Reg::SetLatch,
        3 => Reg::ClearLatch,
        4 => Reg::Rising,
        5 => Reg::Falling,
        6 => Reg::Edge,
        _ => {
            return None;
        },
    };
    Some((bank, reg))
}

impl GpioState {
    /// Four banks, eight function selects, a program counter per pin.
    pub open spec fn shaped(self) -> bool {
        &&& self.out.len() == 4
        &&& self.dir.len() == 4
        &&& self.input.len() == 4
        &&& self.rising.len() == 4
        &&& self.falling.len() == 4
        &&& self.edge.len() == 4
        &&& self.afr.len() == 8
        &&& self.armed_by.len() == 4
        &&& forall|b: int| 0 <= b < 4 ==> (#[trigger] self.armed_by[b]).len() == 32
    }

    pub open spec fn level_spec(self, bank: int) -> u32 {
        (self.out[bank] & self.dir[bank]) | (self.input[bank] & !self.dir[bank])
    }

    /// The interrupt lines as the edge latches drive them: GPIO 0 and 1 have
    /// lines of their own, and every other pin shares one.
    pub open spec fn drive(self, intc: Intc) -> Intc {
        intc.driven(IRQ_GPIO0, self.edge[0] & 1 != 0).driven(
            IRQ_GPIO1,
            self.edge[0] & 2 != 0,
        ).driven(
            IRQ_GPIO_X,
            (self.edge[0] & !3u32) | self.edge[1] | self.edge[2] | self.edge[3] != 0,
        )
    }

    /// After the board drove `pin`. An edge latches only where it is armed.
    pub open spec fn with_input(self, pin: u32, high: bool) -> GpioState {
        let bank = (pin / 32) as int;
        let bit = 1u32 << (pin % 32);
        if bank >= 4 {
            self
        } else {
            let was = self.input[bank] & bit != 0;
            let rose = !was && high && self.rising[bank] & bit != 0;
            let fell = was && !high && self.falling[bank] & bit != 0;
            GpioState {
                input: self.input.update(
                    bank,
                    if high {
                        self.input[bank] | bit
                    } else {
                        self.input[bank] & !bit
                    },
                ),
                edge: if rose || fell {
                    self.edge.update(bank, self.edge[bank] | bit)
                } else {
                    self.edge
                },
                ..self
            }
        }
    }

    pub open spec fn read_spec(self, offset: u32) -> u32 {
        match decode_spec(offset) {
            Some((bank, reg)) => match reg {
                Reg::Level => self.level_spec(bank),
                Reg::Dir => self.dir[bank],
                Reg::Rising => self.rising[bank],
                Reg::Falling => self.falling[bank],
                Reg::Edge => self.edge[bank],
                Reg::SetLatch => self.out[bank],
                Reg::ClearLatch => self.out[bank],
            },
            None => 0,
        }
    }

    /// Pin `i` of `bank` is being armed by this write, for the first time.
    pub open spec fn newly_armed(self, bank: int, val: u32, i: int) -> bool {
        ((val & !(self.rising[bank] | self.falling[bank])) >> (i as u32)) & 1 != 0
            && self.armed_by[bank][i] == 0
    }

    /// The arming record of `bank` after an edge-enable register took `val`.
    pub open spec fn armed_row(self, bank: int, val: u32) -> Seq<u32> {
        Seq::new(
            32,
            |i: int|
                if self.newly_armed(bank, val, i) {
                    self.pc
                } else {
                    self.armed_by[bank][i]
                },
        )
    }

    /// After `val` was written at `offset`.
    pub open spec fn written(self, offset: u32, val: u32) -> GpioState {
        if 0x54 <= offset < 0x74 {
            GpioState { afr: self.afr.update((offset - 0x54) / 4, val), ..self }
        } else {
            match decode_spec(offset) {
                Some((bank, reg)) => match reg {
                    Reg::Dir => GpioState { dir: self.dir.update(bank, val), ..self },
                    Reg::SetLatch => GpioState {
                        out: self.out.update(bank, self.out[bank] | val),
                        ..self
                    },
                    Reg::ClearLatch => GpioState {
                        out: self.out.update(bank, self.out[bank] & !val),
                        ..self
                    },
                    Reg::Rising => GpioState {
                        rising: self.rising.update(bank, val),
                        armed_by: self.armed_by.update(bank, self.armed_row(bank, val)),
                        ..self
                    },
                    Reg::Falling => GpioState {
                        falling: self.falling.update(bank, val),
                        armed_by: self.armed_by.update(bank, self.armed_row(bank, val)),
                        ..self
                    },
                    Reg::Edge => GpioState {
                        edge: self.edge.update(bank, self.edge[bank] & !val),
                        ..self
                    },
                    Reg::Level => self,
                },
                None => self,
            }
        }
    }

    /// Whether a write at `offset` refreshes the interrupt lines: the
    /// function selects and unused offsets do not.
    pub open spec fn write_drives(offset: u32) -> bool {
        !(0x54 <= offset < 0x74) && decode_spec(offset) is Some
    }

    /// Everything clear.
    pub open spec fn at_reset(self) -> bool {
        &&& self.shaped()
        &&& self.out =~= seq![0u32, 0, 0, 0]
        &&& self.dir =~= seq![0u32, 0, 0, 0]
        &&& self.input =~= seq![0u32, 0, 0, 0]
        &&& self.rising =~= seq![0u32, 0, 0, 0]
        &&& self.falling =~= seq![0u32, 0, 0, 0]
        &&& self.edge =~= seq![0u32, 0, 0, 0]
        &&& self.afr =~= seq![0u32, 0, 0, 0, 0, 0, 0, 0]
        &&& forall|b: int, i: int|
            #![trigger self.armed_by[b][i]]
            0 <= b < 4 && 0 <= i < 32 ==> self.armed_by[b][i] == 0
        &&& self.pc == 0
    }
}

impl Default for Gpio {
    fn default() -> (r: Self)
        ensures
            r@.at_reset(),
    {
        Gpio {
            out: [0; 4],
            dir: [0; 4],
            input: [0; 4],
            rising: [0; 4],
            falling: [0; 4],
            edge: [0; 4],
            afr: [0; 8],
            armed_by: [[0; 32]; 4],
            pc: 0,
        }
    }
}

impl Gpio {
    /// Current level of every pin: outputs read back their latch, inputs read
    /// whatever the board is driving.
    pub fn level(&self, bank: usize) -> (r: u32)
        requires
            bank < BANKS,
        ensures
            r == self@.level_spec(bank as int),
    {
        (self.out[bank] & self.dir[bank]) | (self.input[bank] & !self.dir[bank])
    }

    /// Drive an input pin from the board, latching any enabled edge.
    pub fn set_input(&mut self, pin: u32, high: bool, intc: &mut Intc)
        ensures
            final(self)@ == old(self)@.with_input(pin, high),
            *final(intc) == (if pin / 32 >= 4 {
                *old(intc)
            } else {
                final(self)@.drive(*old(intc))
            }),
    {
        let bank: usize = (pin / 32) as usize;
        let bit: u32 = 1u32 << (pin % 32);
        if bank >= BANKS {
            return ;
        }
        let was = self.input[bank] & bit != 0;
        if high {
            self.input[bank] = self.input[bank] | bit;
        } else {
            self.input[bank] = self.input[bank] & !bit;
        }
        if !was && high && self.rising[bank] & bit != 0 {
            self.edge[bank] = self.edge[bank] | bit;
        }
        if was && !high && self.falling[bank] & bit != 0 {
            self.edge[bank] = self.edge[bank] | bit;
        }
        self.update_irq(intc);
    }

    /// GPIO 0 and 1 have dedicated interrupt lines; everything else shares one.
    pub fn update_irq(&self, intc: &mut Intc)
        ensures
            *final(intc) == self@.drive(*old(intc)),
    {
        intc.set(IRQ_GPIO0, self.edge[0] & 1 != 0);
        intc.set(IRQ_GPIO1, self.edge[0] & 2 != 0);
        let shared: u32 = (self.edge[0] & !3u32) | self.edge[1] | self.edge[2] | self.edge[3];
        intc.set(IRQ_GPIO_X, shared != 0);
    }

    pub fn read(&self, offset: u32) -> (r: u32)
        ensures
            r == self@.read_spec(offset),
    {
        // Banks 0-2 sit in a packed block; bank 3 was bolted on at 0x100.
        let (bank, reg): (usize, Reg) = match decode(offset) {
            Some(v) => v,
            None => {
                return 0;
            },
        };
        match reg {
            Reg::Level => self.level(bank),
            Reg::Dir => self.dir[bank],
            Reg::Rising => self.rising[bank],
            Reg::Falling => self.falling[bank],
            Reg::Edge => self.edge[bank],
            // GPSR and GPCR are write-only; the PXA returns the latch.
            Reg::SetLatch | Reg::ClearLatch => self.out[bank],
        }
    }

    /// Record who first armed the pins of `bank` that `val` arms.
    fn note_arming(&mut self, bank: usize, val: u32)
        requires
            bank < BANKS,
        ensures
            final(self)@ == (GpioState {
                armed_by: old(self)@.armed_by.update(
                    bank as int,
                    old(self)@.armed_row(bank as int, val),
                ),
                ..old(self)@
            }),
    {
        let ghost start = self@;
        let newly: u32 = val & !(self.rising[bank] | self.falling[bank]);
        let mut row: [u32; 32] = self.armed_by[bank];
        let mut bit: usize = 0;
        while bit < 32
            invariant
                bit <= 32,
                bank < BANKS,
                start == self@,
                newly == val & !(self.rising[bank as int] | self.falling[bank as int]),
                forall|i: int|
                    0 <= i < bit ==> row[i] == #[trigger] start.armed_row(bank as int, val)[i],
                forall|i: int| bit <= i < 32 ==> row[i] == start.armed_by[bank as int][i],
            decreases 32 - bit,
        {
            if (newly >> (bit as u32)) & 1 != 0 && row[bit] == 0 {
                row[bit] = self.pc;
            }
            bit = bit + 1;
        }
        self.armed_by[bank] = row;
        assert(row@ =~= start.armed_row(bank as int, val));
        assert(self@.armed_by =~= start.armed_by.update(bank as int, row@));
    }

    pub fn write(&mut self, offset: u32, val: u32, intc: &mut Intc)
        ensures
            final(self)@ == old(self)@.written(offset, val),
            *final(intc) == (if GpioState::write_drives(offset) {
                final(self)@.drive(*old(intc))
            } else {
                *old(intc)
            }),
    {
        if 0x54 <= offset && offset < 0x74 {
            self.afr[((offset - 0x54) / 4) as usize] = val;
            return ;
        }
        let (bank, reg): (usize, Reg) = match decode(offset) {
            Some(v) => v,
            None => {
                return ;
            },
        };
        match reg {
            Reg::Dir => self.dir[bank] = val,
            Reg::SetLatch => self.out[bank] = self.out[bank] | val,
            Reg::ClearLatch => self.out[bank] = self.out[bank] & !val,
            Reg::Rising => {
                self.note_arming(bank, val);
                self.rising[bank] = val;
            },
            Reg::Falling => {
                self.note_arming(bank, val);
                self.falling[bank] = val;
            },
            Reg::Edge => self.edge[bank] = self.edge[bank] & !val,
            Reg::Level => {},
        }
        self.update_irq(intc);
    }
}

/// An input pin reads whatever the board last drove onto it.
pub proof fn law_an_input_reads_what_is_driven(g: GpioState, pin: u32, high: bool)
    requires
        g.shaped(),
        pin < 128,
        g.dir[(pin / 32) as int] & (1u32 << (pin % 32)) == 0,
    ensures
        (g.with_input(pin, high).level_spec((pin / 32) as int) & (1u32 << (pin % 32)) != 0) == high,
{
    let bank = (pin / 32) as int;
    let b = pin % 32;
    let bit = 1u32 << b;
    let after = g.with_input(pin, high);
    let o = after.out[bank];
    let d = after.dir[bank];
    let i = after.input[bank];
    crate::bits::lemma_bit(g.input[bank], b, b);
    crate::bits::lemma_unmasked(o, d, i, bit);
}

/// Driving a pin to the level it already has latches no edge.
pub proof fn law_a_steady_pin_latches_nothing(g: GpioState, pin: u32, high: bool)
    requires
        g.shaped(),
        pin < 128,
        (g.input[(pin / 32) as int] & (1u32 << (pin % 32)) != 0) == high,
    ensures
        g.with_input(pin, high).edge == g.edge,
{
}

/// Where register `n` of a bank lies: three banks side by side, and the fourth
/// on its own.
pub open spec fn place_of(bank: int, n: int) -> u32 {
    (if bank < 3 {
        12 * n + 4 * bank
    } else {
        0x100 + 12 * n
    }) as u32
}

/// Every register of every bank has its own offset, and is found there.
pub proof fn law_registers_are_where_they_are_laid_out(bank: int, n: int)
    requires
        0 <= bank < 4,
        0 <= n < 7,
    ensures
        decode_spec(place_of(bank, n)) == Some((bank, group(n)->0)),
        group(0) == Some(Reg::Level),
        group(1) == Some(Reg::Dir),
        group(2) == Some(Reg::SetLatch),
        group(3) == Some(Reg::ClearLatch),
        group(4) == Some(Reg::Rising),
        group(5) == Some(Reg::Falling),
        group(6) == Some(Reg::Edge),
{
}

/// Direction and edge enables read back as they were written, in their own
/// bank and no other, and leave the latches alone.
pub proof fn law_enables_read_back(g: GpioState, bank: int, n: int, val: u32, b: int, m: int)
    requires
        g.shaped(),
        0 <= bank < 4,
        n == 1 || n == 4 || n == 5,
        0 <= b < 4,
        m == 1 || m == 2 || m == 4 || m == 5 || m == 6,
    ensures
        g.written(place_of(bank, n), val).read_spec(place_of(bank, n)) == val,
        (b, m) != (bank, n) ==> g.written(place_of(bank, n), val).read_spec(place_of(b, m))
            == g.read_spec(place_of(b, m)),
        g.written(place_of(bank, n), val).input == g.input,
{
    law_registers_are_where_they_are_laid_out(bank, n);
    law_registers_are_where_they_are_laid_out(b, m);
}

/// Setting and clearing pins by their registers does that to the pins that
/// the written word names and to no others: an output pin then drives what it
/// was set or cleared to, and every other pin has the level it had.
pub proof fn law_pins_are_set_and_cleared_one_by_one(
    g: GpioState,
    bank: int,
    val: u32,
    b: int,
    pin: u32,
)
    requires
        g.shaped(),
        0 <= bank < 4,
        0 <= b < 4,
        pin < 32,
    ensures
        ({
            let set = g.written(place_of(bank, 2), val);
            let cleared = g.written(place_of(bank, 3), val);
            let output = crate::bits::bit_of(g.dir[b], pin);
            let named = b == bank && crate::bits::bit_of(val, pin);
            let was = crate::bits::bit_of(g.read_spec(place_of(b, 0)), pin);
            &&& crate::bits::bit_of(set.read_spec(place_of(b, 0)), pin) == if output && named {
                true
            } else {
                was
            }
            &&& crate::bits::bit_of(cleared.read_spec(place_of(b, 0)), pin) == if output && named {
                false
            } else {
                was
            }
            &&& set.edge == g.edge && cleared.edge == g.edge
        }),
{
    law_registers_are_where_they_are_laid_out(bank, 2);
    law_registers_are_where_they_are_laid_out(bank, 3);
    law_registers_are_where_they_are_laid_out(b, 0);
    lemma_level(g, b, pin);
    let set = g.written(place_of(bank, 2), val);
    let cleared = g.written(place_of(bank, 3), val);
    lemma_level(set, b, pin);
    lemma_level(cleared, b, pin);
    crate::bits::lemma_word(g.out[bank], pin, val);
}

/// The level of a pin: its latch if it is an output, what is driven onto it if
/// it is an input.
proof fn lemma_level(g: GpioState, bank: int, pin: u32)
    requires
        pin < 32,
    ensures
        crate::bits::bit_of(g.level_spec(bank), pin) == if crate::bits::bit_of(g.dir[bank], pin) {
            crate::bits::bit_of(g.out[bank], pin)
        } else {
            crate::bits::bit_of(g.input[bank], pin)
        },
{
    let o = g.out[bank];
    let d = g.dir[bank];
    let i = g.input[bank];
    crate::bits::lemma_word(o, pin, d);
    crate::bits::lemma_word(i, pin, d);
    crate::bits::lemma_word(o & d, pin, i & !d);
}

/// An edge on a pin is latched exactly where the pin changed in a direction
/// that the guest asked about, and stays until it is cleared; no other pin's
/// latch moves, nor any other pin's input.
pub proof fn law_an_edge_is_latched_where_it_is_asked_for(
    g: GpioState,
    pin: u32,
    high: bool,
    bank: int,
    p: u32,
)
    requires
        g.shaped(),
        pin < 128,
        0 <= bank < 4,
        p < 32,
    ensures
        ({
            let d = g.with_input(pin, high);
            let own = bank == pin / 32 && p == pin % 32;
            let was = crate::bits::bit_of(g.input[bank], p);
            let rose = !was && high && crate::bits::bit_of(g.rising[bank], p);
            let fell = was && !high && crate::bits::bit_of(g.falling[bank], p);
            &&& crate::bits::bit_of(d.edge[bank], p) == (crate::bits::bit_of(g.edge[bank], p) || (
            own && (rose || fell)))
            &&& crate::bits::bit_of(d.input[bank], p) == if own {
                high
            } else {
                was
            }
            &&& d.out == g.out && d.dir == g.dir && d.rising == g.rising && d.falling == g.falling
        }),
{
    let k = (pin / 32) as int;
    crate::bits::lemma_bit(g.input[k], pin % 32, p);
    crate::bits::lemma_bit(g.edge[k], pin % 32, p);
}

/// Writing ones to an edge register clears the latches they name and no
/// others.
pub proof fn law_latches_clear_where_ones_are_written(
    g: GpioState,
    bank: int,
    val: u32,
    b: int,
    p: u32,
)
    requires
        g.shaped(),
        0 <= bank < 4,
        0 <= b < 4,
        p < 32,
    ensures
        crate::bits::bit_of(g.written(place_of(bank, 6), val).edge[b], p) == (crate::bits::bit_of(
            g.edge[b],
            p,
        ) && !(b == bank && crate::bits::bit_of(val, p))),
{
    law_registers_are_where_they_are_laid_out(bank, 6);
    crate::bits::lemma_word(g.edge[bank], p, val);
}

/// Pins 0 and 1 have interrupt lines of their own; the third line is asserted
/// exactly where some other pin has an edge latched.
pub proof fn law_latches_drive_three_lines(g: GpioState, intc: Intc, other: u32)
    requires
        g.shaped(),
    ensures
        ({
            let d = g.drive(intc);
            &&& d.pending_spec(8) == crate::bits::bit_of(g.edge[0], 0)
            &&& d.pending_spec(9) == crate::bits::bit_of(g.edge[0], 1)
            &&& d.pending_spec(10) == exists|b: int, p: u32|
                0 <= b < 4 && p < 32 && (b > 0 || p > 1) && #[trigger] crate::bits::bit_of(
                    g.edge[b],
                    p,
                )
            &&& other != 8 && other != 9 && other != 10 ==> d.pending_spec(other)
                == intc.pending_spec(other)
        }),
{
    let a = g.edge[0] & 1 != 0;
    let b = g.edge[0] & 2 != 0;
    let x = (g.edge[0] & !3u32) | g.edge[1] | g.edge[2] | g.edge[3];
    let i1 = intc.driven(IRQ_GPIO0, a);
    let i2 = i1.driven(IRQ_GPIO1, b);
    super::intc::law_sources_are_independent(intc, IRQ_GPIO0, a, other);
    super::intc::law_sources_are_independent(intc, IRQ_GPIO0, a, 9);
    super::intc::law_sources_are_independent(i1, IRQ_GPIO1, b, other);
    super::intc::law_sources_are_independent(i1, IRQ_GPIO1, b, 8);
    super::intc::law_sources_are_independent(i2, IRQ_GPIO_X, x != 0, other);
    super::intc::law_sources_are_independent(i2, IRQ_GPIO_X, x != 0, 8);
    super::intc::law_sources_are_independent(i2, IRQ_GPIO_X, x != 0, 9);
    crate::bits::lemma_low_bits(g.edge[0]);
    lemma_any_latch(g);
}

/// A shared line has something to say exactly where one of its pins has.
proof fn lemma_any_latch(g: GpioState)
    ensures
        ((g.edge[0] & !3u32) | g.edge[1] | g.edge[2] | g.edge[3] != 0) == exists|b: int, p: u32|
            0 <= b < 4 && p < 32 && (b > 0 || p > 1) && #[trigger] crate::bits::bit_of(
                g.edge[b],
                p,
            ),
{
    let e0 = g.edge[0] & !3u32;
    let e1 = e0 | g.edge[1];
    let e2 = e1 | g.edge[2];
    let e3 = e2 | g.edge[3];
    assert forall|p: u32| p < 32 implies #[trigger] crate::bits::bit_of(e3, p) == ((p > 1
        && crate::bits::bit_of(g.edge[0], p)) || crate::bits::bit_of(g.edge[1], p)
        || crate::bits::bit_of(g.edge[2], p) || crate::bits::bit_of(g.edge[3], p)) by {
        crate::bits::lemma_word(g.edge[0], p, 3);
        crate::bits::lemma_low_pair(p);
        crate::bits::lemma_word(e0, p, g.edge[1]);
        crate::bits::lemma_word(e1, p, g.edge[2]);
        crate::bits::lemma_word(e2, p, g.edge[3]);
    }
    crate::bits::lemma_some_bit(e3);
    if e3 != 0 {
        let p = choose|p: u32| p < 32 && #[trigger] crate::bits::bit_of(e3, p);
        assert(crate::bits::bit_of(e3, p));
        if crate::bits::bit_of(g.edge[1], p) {
        } else if crate::bits::bit_of(g.edge[2], p) {
        } else if crate::bits::bit_of(g.edge[3], p) {
        } else {
            assert(crate::bits::bit_of(g.edge[0], p));
        }
    }
    if exists|b: int, p: u32|
        0 <= b < 4 && p < 32 && (b > 0 || p > 1) && #[trigger] crate::bits::bit_of(g.edge[b], p) {
        let (b, p) = choose|b: int, p: u32|
            0 <= b < 4 && p < 32 && (b > 0 || p > 1) && #[trigger] crate::bits::bit_of(
                g.edge[b],
                p,
            );
        assert(b == 0 || b == 1 || b == 2 || b == 3);
        assert(crate::bits::bit_of(e3, p));
    }
}

/// Who first armed a pin is remembered: arming it again, or arming others,
/// does not change the record, and arming it the first time notes the program
/// counter.
pub proof fn law_the_first_to_arm_a_pin_is_noted(
    g: GpioState,
    bank: int,
    n: int,
    val: u32,
    b: int,
    p: u32,
)
    requires
        g.shaped(),
        0 <= bank < 4,
        n == 4 || n == 5,
        0 <= b < 4,
        p < 32,
    ensures
        ({
            let d = g.written(place_of(bank, n), val);
            let armed = crate::bits::bit_of(g.rising[b], p) || crate::bits::bit_of(g.falling[b], p);
            d.armed_by[b][p as int] == if b == bank && crate::bits::bit_of(val, p) && !armed
                && g.armed_by[b][p as int] == 0 {
                g.pc
            } else {
                g.armed_by[b][p as int]
            }
        }),
{
    law_registers_are_where_they_are_laid_out(bank, n);
    let armed = g.rising[bank] | g.falling[bank];
    crate::bits::lemma_word(g.rising[bank], p, g.falling[bank]);
    crate::bits::lemma_word(val, p, armed);
    crate::bits::lemma_shifted(val & !armed, p);
}

} // verus!
