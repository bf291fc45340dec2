//! The board CPLD at physical 0x10000000 (nCS4).
//!
//! Undocumented custom glue. `cpld2.dll` exposes it as 16-bit registers
//! addressed by a byte index, and its callers are the keyboard scanner, the
//! serial/braille path, the battery driver and the front-panel buttons.
//!
//! Apart from the devices below, every register is a plain read/write cell
//! and every access is recorded, so that the guest drives the log and the
//! semantics can be inferred from what it does.

use super::braille::{BrailleDisplay, BrailleState};
use super::keyboard::Keyboard;
use super::modem::{Modem, ModemState};
use std::collections::BTreeMap;
use vstd::prelude::*;

verus! {

broadcast use vstd::std_specs::btree::group_btree_axioms;

#[derive(Clone, Copy)]
pub struct RegisterLog {
    pub reads: u32,
    pub writes: u32,
    pub first_pc: u32,
    pub last_written: u16,
}

impl Default for RegisterLog {
    fn default() -> (r: Self)
        ensures
            r == RegisterLog::from_pc(0),
    {
        RegisterLog { reads: 0, writes: 0, first_pc: 0, last_written: 0 }
    }
}

impl RegisterLog {
    /// No access yet; the first will be blamed on `pc`.
    pub open spec fn from_pc(pc: u32) -> RegisterLog {
        RegisterLog { reads: 0, writes: 0, first_pc: pc, last_written: 0 }
    }
}

/// Byte offset of the keyboard scan register: CPLD register index 1, which
/// the driver's dispatch reaches as `base + 2`.
pub const KEYBOARD_REG: u32 = 0x402;

/// Byte offset of the braille shift register: CPLD register index 0. The OAL
/// bit-bangs the braille display through it, one bit per clock edge.
pub const BRAILLE_REG: u32 = 0x400;

/// Candidate board identification register.
///
/// One ROM serves several machines and something has to tell the software
/// which one it is running on. This register is the best candidate seen: the
/// guest reads it once and never writes it, which is what a hardware strap
/// looks like. The modem's registers reach up to here, though, and it is the
/// modem's scratch register that answers.
pub const BOARD_ID_REG: u32 = 0x00E;

pub struct Cpld {
    /// Backing store, so a write followed by a read returns what was written.
    pub regs: [u16; 256],
    pub log: BTreeMap<u32, RegisterLog>,
    pub keyboard: Keyboard,
    pub braille: BrailleDisplay,
    /// The internal modem, a 16C550 sharing this chip select: stride 2 from
    /// the bottom of this window.
    pub modem: Modem,
    /// The strap, zero unless told otherwise. No register reports it: at
    /// [`BOARD_ID_REG`] the modem answers.
    pub board_id: u16,
}

/// What a [`Cpld`] holds.
#[verifier::ext_equal]
pub struct CpldState {
    pub regs: Seq<u16>,
    pub log: Map<u32, RegisterLog>,
    pub keyboard: Keyboard,
    pub braille: BrailleState,
    pub modem: ModemState,
    pub board_id: u16,
}

impl View for Cpld {
    type V = CpldState;

    open spec fn view(&self) -> CpldState {
        CpldState {
            regs: self.regs@,
            log: self.log@,
            keyboard: self.keyboard,
            braille: self.braille@,
            modem: self.modem@,
            board_id: self.board_id,
        }
    }
}

/// The cell of the backing store that an offset names.
pub open spec fn cell_of(offset: u32) -> int {
    ((offset as usize >> 1) & 0xFF) as int
}

proof fn lemma_cell(offset: u32)
    ensures
        0 <= cell_of(offset) < 256,
{
    let o = offset as usize;
    assert((o >> 1) & 0xFF < 256) by (bit_vector);
}

pub open spec fn is_modem(offset: u32) -> bool {
    offset < 16
}

impl CpldState {
    pub open spec fn wf(self) -> bool {
        self.regs.len() == 256 && self.keyboard.wf()
    }

    /// As the part powers up: every cell zero, nothing accessed yet, and the
    /// devices behind it fresh.
    pub open spec fn fresh(self) -> bool {
        &&& self.regs == Seq::new(256, |i: int| 0u16)
        &&& self.log == Map::<u32, RegisterLog>::empty()
        &&& self.keyboard.at_rest()
        &&& self.braille == BrailleState::fresh(32)
        &&& self.modem == ModemState::fresh()
        &&& self.board_id == 0
    }

    pub open spec fn entry(self, offset: u32, pc: u32) -> RegisterLog {
        if self.log.contains_key(offset) {
            self.log[offset]
        } else {
            RegisterLog::from_pc(pc)
        }
    }

    /// The modem answers first, then the keyboard; any other register reads
    /// back what was written to it.
    pub open spec fn read_spec(self, offset: u32) -> u16 {
        if is_modem(offset) {
            self.modem.read_spec(offset)
        } else if offset == KEYBOARD_REG {
            self.keyboard.rows()
        } else {
            self.regs[cell_of(offset)]
        }
    }

    pub open spec fn after_read(self, offset: u32, pc: u32) -> CpldState {
        let e = self.entry(offset, pc);
        CpldState {
            modem: if is_modem(offset) {
                self.modem.after_read(offset)
            } else {
                self.modem
            },
            keyboard: if !is_modem(offset) && offset == KEYBOARD_REG {
                self.keyboard.after_rows()
            } else {
                self.keyboard
            },
            log: self.log.insert(
                offset,
                RegisterLog { reads: e.reads.wrapping_add(1), ..e },
            ),
            ..self
        }
    }

    pub open spec fn written(self, offset: u32, val: u16, pc: u32) -> CpldState {
        let e = self.entry(offset, pc);
        CpldState {
            regs: self.regs.update(cell_of(offset), val),
            modem: if is_modem(offset) {
                self.modem.written(offset, val)
            } else {
                self.modem
            },
            keyboard: if offset == KEYBOARD_REG {
                self.keyboard.after_select(val)
            } else {
                self.keyboard
            },
            braille: if offset == BRAILLE_REG {
                self.braille.written(val)
            } else {
                self.braille
            },
            log: self.log.insert(
                offset,
                RegisterLog { writes: e.writes.wrapping_add(1), last_written: val, ..e },
            ),
            ..self
        }
    }
}

impl Default for Cpld {
    fn default() -> (r: Self)
        ensures
            r@.fresh(),
            r@.wf(),
    {
        let r = Cpld {
            regs: [0; 256],
            log: BTreeMap::new(),
            keyboard: Keyboard::default(),
            braille: BrailleDisplay::default(),
            modem: Modem::default(),
            board_id: 0,
        };
        assert(r@.regs =~= Seq::new(256, |i: int| 0u16));
        assert(r@.log =~= Map::<u32, RegisterLog>::empty());
        r
    }
}

impl Cpld {
    /// The log entry of a register, or the one it is about to get.
    fn entry(&self, offset: u32, pc: u32) -> (r: RegisterLog)
        ensures
            r == self@.entry(offset, pc),
    {
        match self.log.get(&offset) {
            Some(e) => *e,
            None => RegisterLog { reads: 0, writes: 0, first_pc: pc, last_written: 0 },
        }
    }

    pub fn read(&mut self, offset: u32, pc: u32) -> (r: u16)
        requires
            old(self)@.wf(),
        ensures
            r == old(self)@.read_spec(offset),
            final(self)@ == old(self)@.after_read(offset, pc),
            final(self)@.wf(),
    {
        proof {
            lemma_cell(offset);
        }
        let val: u16 = if Modem::owns(offset) {
            self.modem.read(offset)
        } else if offset == KEYBOARD_REG {
            self.keyboard.read_rows()
        } else {
            self.regs[(offset as usize >> 1) & 0xFF]
        };
        let mut e: RegisterLog = self.entry(offset, pc);
        e.reads = e.reads.wrapping_add(1);
        self.log.insert(offset, e);
        val
    }

    pub fn write(&mut self, offset: u32, val: u16, pc: u32)
        requires
            old(self)@.wf(),
        ensures
            final(self)@ == old(self)@.written(offset, val, pc),
            final(self)@.wf(),
    {
        proof {
            lemma_cell(offset);
        }
        self.regs[(offset as usize >> 1) & 0xFF] = val;
        if Modem::owns(offset) {
            self.modem.write(offset, val);
        }
        if offset == KEYBOARD_REG {
            self.keyboard.write_select(val);
        }
        if offset == BRAILLE_REG {
            self.braille.write(val);
        }
        let mut e: RegisterLog = self.entry(offset, pc);
        e.writes = e.writes.wrapping_add(1);
        e.last_written = val;
        self.log.insert(offset, e);
    }

    /// Did the guest ever sample the board identification register?
    pub fn board_id_was_read(&self) -> (r: bool)
        ensures
            r == (self@.log.contains_key(BOARD_ID_REG) && self@.log[BOARD_ID_REG].reads > 0),
    {
        match self.log.get(&BOARD_ID_REG) {
            Some(l) => l.reads > 0,
            None => false,
        }
    }

    /// Summary for the bring-up report, in order of offset.
    pub fn report(&self) -> (r: Vec<(u32, RegisterLog)>)
        ensures
            forall|i: int, j: int|
                #![trigger r@[i], r@[j]]
                0 <= i < j < r.len() ==> r@[i].0 < r@[j].0,
            forall|i: int|
                #![trigger r@[i]]
                0 <= i < r.len() ==> self@.log.contains_key(r@[i].0) && self@.log[r@[i].0]
                    == r@[i].1,
            forall|k: u32|
                #![trigger self@.log.contains_key(k)]
                self@.log.contains_key(k) ==> r@.contains((k, self@.log[k])),
    {
        let mut out: Vec<(u32, RegisterLog)> = Vec::new();
        let ghost all = vstd::std_specs::iter::IteratorSpec::remaining(
            &vstd::std_specs::btree::spec_btree_map_iter(&self.log),
        );
        for kv in it: self.log.iter()
            invariant
                it.seq() == all,
                out.len() == it.index(),
                forall|i: int|
                    #![trigger out@[i]]
                    0 <= i < out.len() ==> out@[i] == (*all[i].0, *all[i].1),
        {
            out.push((*kv.0, *kv.1));
        }
        proof {
            lemma_report_order(all, out@);
            assert forall|i: int| #![trigger out@[i]] 0 <= i < out.len() implies self@.log.contains_key(
                out@[i].0) && self@.log[out@[i].0] == out@[i].1 by {
                assert(self.log@.contains_key(*all[i].0));
            }
            assert forall|k: u32| #![trigger self@.log.contains_key(k)] self@.log.contains_key(
                k) implies out@.contains((k, self@.log[k])) by {
                assert(all.contains((&k, &self.log@[k])));
                let i = choose|i: int| 0 <= i < all.len() && all[i] == (&k, &self.log@[k]);
                assert(out@[i] == (k, self@.log[k]));
            }
        }
        out
    }
}

proof fn lemma_report_order(all: Seq<(&u32, &RegisterLog)>, out: Seq<(u32, RegisterLog)>)
    requires
        vstd::std_specs::btree::increasing_seq(
            all.map_values(|kv: (&u32, &RegisterLog)| *kv.0),
        ),
        out.len() == all.len(),
        forall|i: int|
            #![trigger out[i]]
            0 <= i < out.len() ==> out[i] == (*all[i].0, *all[i].1),
    ensures
        forall|i: int, j: int|
            #![trigger out[i], out[j]]
            0 <= i < j < out.len() ==> out[i].0 < out[j].0,
{
    broadcast use vstd::laws_cmp::group_laws_cmp;

    let keys = all.map_values(|kv: (&u32, &RegisterLog)| *kv.0);
    assert(vstd::laws_cmp::obeys_cmp::<u32>());
    assert forall|i: int, j: int| #![trigger out[i], out[j]] 0 <= i < j < out.len() implies out[i].0
        < out[j].0 by {
        assert(vstd::std_specs::cmp::OrdSpec::cmp_spec(&keys[i], &keys[j]) is Less);
    }
}

/// A register that no device owns reads back what was written to it, and the
/// devices do not see the write.
pub proof fn law_plain_registers_read_back(c: CpldState, offset: u32, val: u16, pc: u32)
    requires
        c.wf(),
        !is_modem(offset),
        offset != KEYBOARD_REG,
        offset != BRAILLE_REG,
    ensures
        c.written(offset, val, pc).read_spec(offset) == val,
        c.written(offset, val, pc).keyboard == c.keyboard,
        c.written(offset, val, pc).braille == c.braille,
        c.written(offset, val, pc).modem == c.modem,
{
    lemma_cell(offset);
}

/// Each of the parts behind this window hears of its own registers and of no
/// others: the modem of the first eight, at its stride, the keyboard of its
/// scan register and the display of its shift register.
pub proof fn law_each_part_has_its_registers(c: CpldState, offset: u32, val: u16, pc: u32)
    ensures
        ({
            let w = c.written(offset, val, pc);
            let r = c.after_read(offset, pc);
            &&& offset >= 16 ==> w.modem == c.modem && r.modem == c.modem
            &&& offset < 16 ==> w.modem == c.modem.written(offset, val) && r.modem
                == c.modem.after_read(offset) && c.read_spec(offset) == c.modem.read_spec(offset)
            &&& offset != 0x402 ==> w.keyboard == c.keyboard && r.keyboard == c.keyboard
            &&& w.keyboard == c.keyboard || w.keyboard == c.keyboard.after_select(val)
            &&& offset != 0x400 ==> w.braille == c.braille
            &&& r.braille == c.braille
            &&& c.written(0x402, val, pc).keyboard == c.keyboard.after_select(val)
            &&& c.read_spec(0x402) == c.keyboard.rows()
            &&& c.written(0x400, val, pc).braille == c.braille.written(val)
            &&& r.regs == c.regs
        }),
{
}

/// Reads and writes of each register are counted apart, with the last value
/// written and whoever touched the register first.
pub proof fn law_accesses_are_counted(
    c: CpldState,
    offset: u32,
    val: u16,
    pc: u32,
    other: u32,
)
    requires
        c.log.contains_key(offset) ==> c.log[offset].reads < u32::MAX && c.log[offset].writes
            < u32::MAX,
        other != offset,
    ensures
        ({
            let known = c.log.contains_key(offset);
            let r = c.after_read(offset, pc).log;
            let w = c.written(offset, val, pc).log;
            let reads = if known {
                c.log[offset].reads as int
            } else {
                0
            };
            let writes = if known {
                c.log[offset].writes as int
            } else {
                0
            };
            &&& r.contains_key(offset) && r[offset].reads == reads + 1 && r[offset].writes == writes
            &&& w.contains_key(offset) && w[offset].writes == writes + 1 && w[offset].reads == reads
            &&& w[offset].last_written == val
            &&& known ==> r[offset].first_pc == c.log[offset].first_pc && w[offset].first_pc
                == c.log[offset].first_pc
            &&& !known ==> r[offset].first_pc == pc && w[offset].first_pc == pc
            &&& r.contains_key(other) == c.log.contains_key(other) && w.contains_key(other)
                == c.log.contains_key(other)
            &&& c.log.contains_key(other) ==> r[other] == c.log[other] && w[other] == c.log[other]
        }),
{
}

} // verus!
