//! PXA27x MMC/SD controller, at physical 0x41100000.
//!
//! EBOOT probes for a bootable SD card before falling back to the ROM image,
//! so this has to answer even when no card is fitted; otherwise the probe
//! spins forever waiting for a command to complete. With no card, every
//! command completes with a response timeout, which is what real hardware
//! reports and what makes the bootloader move on.

use super::intc::{Intc, IRQ_MMC};
use super::sdcard::{SdCard, SdState};
use std::collections::VecDeque;
use vstd::prelude::*;

verus! {

pub const BASE: u32 = 0x4110_0000;

// STRPCL
pub const STRPCL_STOP_CLOCK: u32 = 0x1;
pub const STRPCL_START_CLOCK: u32 = 0x2;

// STAT
pub const STAT_READ_TIME_OUT: u32 = 0x1;
pub const STAT_TIME_OUT_RESPONSE: u32 = 0x2;
pub const STAT_XMIT_FIFO_EMPTY: u32 = 0x40;
pub const STAT_RECV_FIFO_FULL: u32 = 0x80;
pub const STAT_CLK_EN: u32 = 0x100;
pub const STAT_DATA_TRAN_DONE: u32 = 0x800;
pub const STAT_PRG_DONE: u32 = 0x1000;
pub const STAT_END_CMD_RES: u32 = 0x2000;

// CMDAT
/// Response format the host is expecting: 0 none, 1 short, 2 long, 3 R3.
pub const CMDAT_RESPONSE_FORMAT: u32 = 0x3;
/// The command moves data as well as a response.
pub const CMDAT_DATA_EN: u32 = 0x4;
/// Data goes to the card rather than coming from it.
pub const CMDAT_WR_RD: u32 = 0x8;

// I_REG / I_MASK share a bit layout.
pub const INT_DATA_TRAN_DONE: u32 = 0x1;
pub const INT_PRG_DONE: u32 = 0x2;
pub const INT_END_CMD_RES: u32 = 0x4;
pub const INT_RXFIFO_REQ: u32 = 0x20;
pub const INT_TXFIFO_REQ: u32 = 0x40;

pub struct Mmc {
    pub strpcl: u32,
    pub stat: u32,
    pub clkrt: u32,
    pub spi: u32,
    pub cmdat: u32,
    pub resto: u32,
    pub rdto: u32,
    pub blklen: u32,
    pub nob: u32,
    pub prtbuf: u32,
    pub i_mask: u32,
    pub i_reg: u32,
    pub cmd: u32,
    pub argh: u32,
    pub argl: u32,
    pub clock_on: bool,
    /// The card in the slot, if any.
    pub card: Option<SdCard>,
    /// Response bytes still to be shifted out through `MMC_RES`.
    pub response: VecDeque<u8>,
    /// Bytes of the current data transfer still to move. A transfer is only
    /// done when this reaches zero, and saying so before then leaves the
    /// guest waiting after `ACMD13`.
    pub bytesleft: u32,
}

/// What an [`Mmc`] holds.
#[verifier::ext_equal]
pub struct MmcState {
    pub strpcl: u32,
    pub stat: u32,
    pub clkrt: u32,
    pub spi: u32,
    pub cmdat: u32,
    pub resto: u32,
    pub rdto: u32,
    pub blklen: u32,
    pub nob: u32,
    pub prtbuf: u32,
    pub i_mask: u32,
    pub i_reg: u32,
    pub cmd: u32,
    pub argh: u32,
    pub argl: u32,
    pub clock_on: bool,
    pub card: Option<SdState>,
    pub response: Seq<u8>,
    pub bytesleft: u32,
}

impl View for Mmc {
    type V = MmcState;

    open spec fn view(&self) -> MmcState {
        MmcState {
            strpcl: self.strpcl,
            stat: self.stat,
            clkrt: self.clkrt,
            spi: self.spi,
            cmdat: self.cmdat,
            resto: self.resto,
            rdto: self.rdto,
            blklen: self.blklen,
            nob: self.nob,
            prtbuf: self.prtbuf,
            i_mask: self.i_mask,
            i_reg: self.i_reg,
            cmd: self.cmd,
            argh: self.argh,
            argl: self.argl,
            clock_on: self.clock_on,
            card: match self.card {
                Some(c) => Some(c@),
                None => None,
            },
            response: self.response@,
            bytesleft: self.bytesleft,
        }
    }
}

impl MmcState {
    /// Every source masked, no card, the transmit FIFO empty.
    pub open spec fn at_reset() -> MmcState {
        MmcState {
            strpcl: 0,
            stat: STAT_XMIT_FIFO_EMPTY,
            clkrt: 0,
            spi: 0,
            cmdat: 0,
            resto: 0,
            rdto: 0,
            blklen: 0,
            nob: 0,
            prtbuf: 0,
            i_mask: 0xFFFF_FFFF,
            i_reg: 0,
            cmd: 0,
            argh: 0,
            argl: 0,
            clock_on: false,
            card: None,
            response: Seq::empty(),
            bytesleft: 0,
        }
    }

    pub open spec fn drive(self, intc: Intc) -> Intc {
        intc.driven(IRQ_MMC, self.i_reg & !self.i_mask != 0)
    }

    /// A transfer under way asks for the FIFO to be served.
    pub open spec fn fifo_updated(self) -> MmcState {
        if self.bytesleft == 0 {
            self
        } else if self.cmdat & CMDAT_WR_RD != 0 {
            MmcState { i_reg: self.i_reg | INT_TXFIFO_REQ, ..self }
        } else {
            MmcState { i_reg: self.i_reg | INT_RXFIFO_REQ, ..self }
        }
    }

    pub open spec fn command_index(self) -> u8 {
        (self.cmd & 0x3F) as u8
    }

    pub open spec fn argument(self) -> u32 {
        (self.argh << 16) | (self.argl & 0xFFFF)
    }

    /// The card after the staged command, and what it answered.
    pub open spec fn card_answer(self) -> (Option<SdState>, Option<Seq<u8>>) {
        match self.card {
            Some(c) => {
                let (after, answer) = c.commanded(self.command_index(), self.argument());
                (Some(after), answer)
            },
            None => (None, None),
        }
    }

    /// The controller after the command in CMD/ARG ran to completion: the
    /// card's answer waits in the response FIFO, or the timeout bits say that
    /// a wanted answer never came; a data command starts its transfer, which
    /// is not done yet, and any other is done.
    pub open spec fn executed(self) -> MmcState {
        let (card, answer) = self.card_answer();
        let cleared = self.stat & !(STAT_TIME_OUT_RESPONSE | STAT_READ_TIME_OUT);
        let wanted = self.cmdat & CMDAT_RESPONSE_FORMAT != 0;
        let timed = if answer is Some || !wanted {
            cleared
        } else if card is Some {
            cleared | STAT_TIME_OUT_RESPONSE
        } else {
            cleared | (STAT_TIME_OUT_RESPONSE | STAT_READ_TIME_OUT)
        };
        let stat = timed | STAT_END_CMD_RES;
        let i_reg = self.i_reg | INT_END_CMD_RES;
        let response = match answer {
            Some(r) => r,
            None => Seq::empty(),
        };
        if self.cmdat & CMDAT_DATA_EN != 0 {
            (MmcState {
                card,
                response,
                stat: stat & !STAT_DATA_TRAN_DONE,
                i_reg,
                bytesleft: (if self.nob > 1 {
                    self.nob
                } else {
                    1u32
                }).wrapping_mul(self.blklen),
                ..self
            }).fifo_updated()
        } else {
            MmcState {
                card,
                response,
                stat: stat | (STAT_PRG_DONE | STAT_DATA_TRAN_DONE),
                i_reg: i_reg | (INT_PRG_DONE | INT_DATA_TRAN_DONE),
                bytesleft: 0,
                ..self
            }
        }
    }

    /// After `n` bytes crossed the FIFO. The last of them finishes the
    /// transfer, on the card too.
    pub open spec fn moved(self, n: u32) -> MmcState {
        if self.bytesleft == 0 {
            self
        } else if self.bytesleft > n {
            (MmcState { bytesleft: (self.bytesleft - n) as u32, ..self }).fifo_updated()
        } else {
            let writing = self.cmdat & CMDAT_WR_RD != 0;
            let stat = self.stat | STAT_DATA_TRAN_DONE;
            let i_reg = self.i_reg | INT_DATA_TRAN_DONE;
            MmcState {
                bytesleft: 0,
                stat: if writing {
                    stat | STAT_PRG_DONE
                } else {
                    stat
                },
                i_reg: if writing {
                    i_reg | INT_PRG_DONE
                } else {
                    i_reg
                },
                card: match self.card {
                    Some(c) => Some(c.after_finish()),
                    None => None,
                },
                ..self
            }
        }
    }

    /// The next sixteen bits of response, the earlier byte in the high half.
    pub open spec fn response_word(self) -> u32 {
        let hi = if self.response.len() > 0 {
            self.response[0] as u32
        } else {
            0
        };
        let lo = if self.response.len() > 1 {
            self.response[1] as u32
        } else {
            0
        };
        (hi << 8) | lo
    }

    pub open spec fn after_response(self) -> MmcState {
        MmcState {
            response: if self.response.len() > 2 {
                self.response.subrange(2, self.response.len() as int)
            } else {
                Seq::empty()
            },
            ..self
        }
    }

    pub open spec fn status_read(self) -> u32 {
        let a = if self.clock_on {
            self.stat | STAT_CLK_EN
        } else {
            self.stat
        };
        let waiting = match self.card {
            Some(c) => c.has_data_spec(),
            None => false,
        };
        let b = if waiting {
            a | STAT_RECV_FIFO_FULL
        } else {
            a
        };
        b | STAT_XMIT_FIFO_EMPTY
    }

    /// The four bytes the card hands over next, first one lowest.
    pub open spec fn fifo_word(self) -> u32 {
        match self.card {
            Some(c) => crate::bytes::of_le32(
                c.next_byte(),
                c.after_read().next_byte(),
                c.after_read().after_read().next_byte(),
                c.after_read().after_read().after_read().next_byte(),
            ),
            None => 0,
        }
    }

    pub open spec fn after_fifo_read(self) -> MmcState {
        (MmcState {
            card: match self.card {
                Some(c) => Some(c.after_read().after_read().after_read().after_read()),
                None => None,
            },
            i_reg: self.i_reg & !INT_RXFIFO_REQ,
            ..self
        }).moved(4)
    }

    pub open spec fn after_fifo_write(self, val: u32) -> MmcState {
        (MmcState {
            card: match self.card {
                Some(c) => Some(
                    c.after_write(val as u8).after_write((val >> 8) as u8).after_write(
                        (val >> 16) as u8,
                    ).after_write((val >> 24) as u8),
                ),
                None => None,
            },
            i_reg: self.i_reg & !INT_TXFIFO_REQ,
            ..self
        }).moved(4)
    }

    pub open spec fn read_spec(self, offset: u32) -> u32 {
        if offset == 0x00 {
            self.strpcl
        } else if offset == 0x04 {
            self.status_read()
        } else if offset == 0x08 {
            self.clkrt
        } else if offset == 0x0C {
            self.spi
        } else if offset == 0x10 {
            self.cmdat
        } else if offset == 0x14 {
            self.resto
        } else if offset == 0x18 {
            self.rdto
        } else if offset == 0x1C {
            self.blklen
        } else if offset == 0x20 {
            self.nob
        } else if offset == 0x24 {
            self.prtbuf
        } else if offset == 0x28 {
            self.i_mask
        } else if offset == 0x2C {
            self.i_reg
        } else if offset == 0x30 {
            self.cmd
        } else if offset == 0x34 {
            self.argh
        } else if offset == 0x38 {
            self.argl
        } else if offset == 0x3C {
            self.response_word()
        } else if offset == 0x40 {
            self.fifo_word()
        } else {
            0
        }
    }

    pub open spec fn after_read(self, offset: u32) -> MmcState {
        if offset == 0x2C {
            MmcState { i_reg: 0, ..self }
        } else if offset == 0x3C {
            self.after_response()
        } else if offset == 0x40 {
            self.after_fifo_read()
        } else {
            self
        }
    }

    pub open spec fn written(self, offset: u32, val: u32) -> MmcState {
        if offset == 0x00 {
            MmcState {
                strpcl: val,
                clock_on: if val & STRPCL_START_CLOCK != 0 {
                    true
                } else if val & STRPCL_STOP_CLOCK != 0 {
                    false
                } else {
                    self.clock_on
                },
                ..self
            }
        } else if offset == 0x08 {
            MmcState { clkrt: val, ..self }
        } else if offset == 0x0C {
            MmcState { spi: val, ..self }
        } else if offset == 0x10 {
            let s = MmcState { cmdat: val, ..self };
            if self.clock_on {
                s.executed()
            } else {
                s
            }
        } else if offset == 0x14 {
            MmcState { resto: val, ..self }
        } else if offset == 0x18 {
            MmcState { rdto: val, ..self }
        } else if offset == 0x1C {
            MmcState { blklen: val, ..self }
        } else if offset == 0x20 {
            MmcState { nob: val, ..self }
        } else if offset == 0x24 {
            MmcState { prtbuf: val, ..self }
        } else if offset == 0x28 {
            MmcState { i_mask: val, ..self }
        } else if offset == 0x30 {
            MmcState { cmd: val, ..self }
        } else if offset == 0x34 {
            MmcState { argh: val, ..self }
        } else if offset == 0x38 {
            MmcState { argl: val, ..self }
        } else if offset == 0x44 {
            self.after_fifo_write(val)
        } else {
            self
        }
    }
}

impl Default for Mmc {
    fn default() -> (r: Self)
        ensures
            r@ == MmcState::at_reset(),
    {
        Mmc {
            strpcl: 0,
            stat: STAT_XMIT_FIFO_EMPTY,
            clkrt: 0,
            spi: 0,
            cmdat: 0,
            resto: 0,
            rdto: 0,
            blklen: 0,
            nob: 0,
            prtbuf: 0,
            // Every source masked at reset.
            i_mask: 0xFFFF_FFFF,
            i_reg: 0,
            cmd: 0,
            argh: 0,
            argl: 0,
            clock_on: false,
            card: None,
            response: VecDeque::new(),
            bytesleft: 0,
        }
    }
}

impl Mmc {
    fn update_irq(&self, intc: &mut Intc)
        ensures
            *final(intc) == self@.drive(*old(intc)),
    {
        intc.set(IRQ_MMC, self.i_reg & !self.i_mask != 0);
    }

    /// Put the card's answer where `MMC_RES` shifts it out from.
    fn take_response(&mut self, answer: &Vec<u8>)
        ensures
            final(self)@ == (MmcState {
                response: old(self)@.response + answer@,
                ..old(self)@
            }),
    {
        let ghost start = self@;
        let mut i: usize = 0;
        while i < answer.len()
            invariant
                i <= answer.len(),
                self@ =~= (MmcState {
                    response: start.response + answer@.take(i as int),
                    ..start
                }),
            decreases answer.len() - i,
        {
            self.response.push_back(answer[i]);
            assert(answer@.take(i as int + 1) =~= answer@.take(i as int).push(answer[i as int]));
            i = i + 1;
        }
        assert(answer@.take(answer.len() as int) =~= answer@);
    }

    /// Run the command sitting in CMD/ARG to completion.
    fn execute_command(&mut self)
        ensures
            final(self)@ == old(self)@.executed(),
    {
        self.stat = self.stat & !(STAT_TIME_OUT_RESPONSE | STAT_READ_TIME_OUT);
        self.response.clear();
        let arg: u32 = (self.argh << 16) | (self.argl & 0xFFFF);
        // A response timeout means the host asked for an answer and none
        // came. `CMD0` asks for none, and reporting a timeout for it tells
        // the driver the slot is empty.
        let wanted_response = self.cmdat & CMDAT_RESPONSE_FORMAT != 0;
        // Only the bottom six bits of CMD are the command index; the guest
        // carries flags above them. Dispatching on the whole register sends
        // CMD55 in as 119 and ACMD41 as 105, so neither is recognised, the
        // card never reports itself ready, and the host asks forever.
        let index: u8 = (self.cmd & 0x3F) as u8;
        let mut fitted = false;
        let mut answer: Option<Vec<u8>> = None;
        if let Some(card) = &mut self.card {
            fitted = true;
            answer = card.command(index, arg);
        }
        match answer {
            Some(r) => {
                self.take_response(&r);
            },
            None => {
                if wanted_response {
                    if fitted {
                        self.stat = self.stat | STAT_TIME_OUT_RESPONSE;
                    } else {
                        // Nothing on the bus: the command completes, but no
                        // response arrives before the timeout in RESTO expires.
                        self.stat = self.stat | (STAT_TIME_OUT_RESPONSE | STAT_READ_TIME_OUT);
                    }
                }
            },
        }
        self.stat = self.stat | STAT_END_CMD_RES;
        self.i_reg = self.i_reg | INT_END_CMD_RES;

        // A command that moves data is not finished when its response
        // arrives. `NOB * BLKLEN` bytes have to cross the FIFO first, and
        // only then is the transfer done. Announcing DATA_DONE up front
        // leaves the guest with nothing to wait for and nothing to read.
        if self.cmdat & CMDAT_DATA_EN != 0 {
            let blocks: u32 = if self.nob > 1 {
                self.nob
            } else {
                1
            };
            self.bytesleft = blocks.wrapping_mul(self.blklen);
            self.stat = self.stat & !STAT_DATA_TRAN_DONE;
        } else {
            self.bytesleft = 0;
            self.stat = self.stat | (STAT_PRG_DONE | STAT_DATA_TRAN_DONE);
            self.i_reg = self.i_reg | (INT_PRG_DONE | INT_DATA_TRAN_DONE);
        }
        self.fifo_update();
    }

    /// Move the data transfer along, and finish it when nothing is left.
    fn fifo_update(&mut self)
        ensures
            final(self)@ == old(self)@.fifo_updated(),
    {
        if self.bytesleft == 0 {
            return ;
        }
        if self.cmdat & CMDAT_WR_RD != 0 {
            self.i_reg = self.i_reg | INT_TXFIFO_REQ;
        } else {
            // The host is told there is something to collect; it collects it
            // through RXFIFO.
            self.i_reg = self.i_reg | INT_RXFIFO_REQ;
        }
    }

    /// `n` bytes have crossed the FIFO.
    fn moved_bytes(&mut self, n: u32)
        ensures
            final(self)@ == old(self)@.moved(n),
    {
        if self.bytesleft == 0 {
            return ;
        }
        self.bytesleft = self.bytesleft.saturating_sub(n);
        if self.bytesleft == 0 {
            self.stat = self.stat | STAT_DATA_TRAN_DONE;
            self.i_reg = self.i_reg | INT_DATA_TRAN_DONE;
            if self.cmdat & CMDAT_WR_RD != 0 {
                self.stat = self.stat | STAT_PRG_DONE;
                self.i_reg = self.i_reg | INT_PRG_DONE;
            }
            // And tell the card: the status the driver polls comes from the
            // card, not from here.
            if let Some(card) = &mut self.card {
                card.transfer_finished();
            }
        } else {
            self.fifo_update();
        }
    }

    /// `MMC_RES` hands the response back sixteen bits at a time, the earlier
    /// byte in the **high** half.
    ///
    /// This is the opposite way round from the data FIFO. Packing it the same
    /// way as the data stops the card being identified at all, and the guest
    /// never writes a byte. The two really do differ.
    fn next_response_word(&mut self) -> (r: u32)
        ensures
            r == old(self)@.response_word(),
            final(self)@ == old(self)@.after_response(),
    {
        let hi: u32 = match self.response.pop_front() {
            Some(b) => b as u32,
            None => 0,
        };
        let lo: u32 = match self.response.pop_front() {
            Some(b) => b as u32,
            None => 0,
        };
        (hi << 8) | lo
    }

    /// Take four bytes from the card.
    ///
    /// The FIFO is a byte wide but the bus is not: one 32-bit read takes four
    /// bytes, the first of them landing in the *least* significant position.
    /// Handing over one byte per access makes every transfer a quarter the
    /// length it should be; packing them the other way round puts a boot
    /// sector on the card with every group of four bytes reversed.
    fn read_fifo(&mut self) -> (r: u32)
        ensures
            r == old(self)@.fifo_word(),
            final(self)@ == old(self)@.after_fifo_read(),
    {
        let mut v: u32 = 0;
        if let Some(card) = &mut self.card {
            let b0: u8 = card.read_byte();
            let b1: u8 = card.read_byte();
            let b2: u8 = card.read_byte();
            let b3: u8 = card.read_byte();
            v = (b0 as u32) | ((b1 as u32) << 8) | ((b2 as u32) << 16) | ((b3 as u32) << 24);
        }
        self.i_reg = self.i_reg & !INT_RXFIFO_REQ;
        self.moved_bytes(4);
        v
    }

    pub fn read(&mut self, offset: u32, intc: &mut Intc) -> (r: u32)
        ensures
            r == old(self)@.read_spec(offset),
            final(self)@ == old(self)@.after_read(offset),
            *final(intc) == final(self)@.drive(*old(intc)),
    {
        let v: u32 = match offset {
            0x00 => self.strpcl,
            0x04 => {
                let mut s: u32 = self.stat;
                if self.clock_on {
                    s = s | STAT_CLK_EN;
                }
                let waiting = match &self.card {
                    Some(c) => c.has_data(),
                    None => false,
                };
                if waiting {
                    s = s | STAT_RECV_FIFO_FULL;
                }
                s | STAT_XMIT_FIFO_EMPTY
            },
            0x08 => self.clkrt,
            0x0C => self.spi,
            0x10 => self.cmdat,
            0x14 => self.resto,
            0x18 => self.rdto,
            0x1C => self.blklen,
            0x20 => self.nob,
            0x24 => self.prtbuf,
            0x28 => self.i_mask,
            0x2C => {
                // I_REG is cleared by reading it.
                let v: u32 = self.i_reg;
                self.i_reg = 0;
                v
            },
            0x30 => self.cmd,
            0x34 => self.argh,
            0x38 => self.argl,
            0x3C => self.next_response_word(),
            0x40 => self.read_fifo(),
            _ => 0,
        };
        self.update_irq(intc);
        v
    }

    pub fn write(&mut self, offset: u32, val: u32, intc: &mut Intc)
        ensures
            final(self)@ == old(self)@.written(offset, val),
            *final(intc) == final(self)@.drive(*old(intc)),
    {
        match offset {
            0x00 => {
                self.strpcl = val;
                if val & STRPCL_STOP_CLOCK != 0 {
                    self.clock_on = false;
                }
                if val & STRPCL_START_CLOCK != 0 {
                    self.clock_on = true;
                }
            },
            0x08 => self.clkrt = val,
            0x0C => self.spi = val,
            0x10 => {
                // Writing CMDAT is what issues the command. CMD, ARGH and
                // ARGL are staged first and this is always written last: the
                // guest's own order, and it never touches STRPCL again once
                // the clock is running.
                self.cmdat = val;
                if self.clock_on {
                    self.execute_command();
                }
            },
            0x14 => self.resto = val,
            0x18 => self.rdto = val,
            0x1C => self.blklen = val,
            0x20 => self.nob = val,
            0x24 => self.prtbuf = val,
            0x28 => self.i_mask = val,
            0x30 => self.cmd = val,
            0x34 => self.argh = val,
            0x38 => self.argl = val,
            0x44 => {
                // Four bytes per access, least significant first, to match
                // the way the receive side hands them back.
                if let Some(card) = &mut self.card {
                    card.write_byte(val as u8);
                    card.write_byte((val >> 8) as u8);
                    card.write_byte((val >> 16) as u8);
                    card.write_byte((val >> 24) as u8);
                }
                self.i_reg = self.i_reg & !INT_TXFIFO_REQ;
                self.moved_bytes(4);
            },
            _ => {},
        }
        self.update_irq(intc);
    }
}

/// Every command completes, card or no card, and with no card a wanted
/// response always times out rather than hanging.
pub proof fn law_commands_always_complete(m: MmcState, val: u32)
    requires
        m.clock_on,
    ensures
        m.written(0x10, val).stat & STAT_END_CMD_RES != 0,
        m.card is None && val & CMDAT_RESPONSE_FORMAT != 0 ==> m.written(0x10, val).stat
            & STAT_TIME_OUT_RESPONSE != 0,
{
    let s = m.written(0x10, val).stat;
    let cleared = m.stat & !(STAT_TIME_OUT_RESPONSE | STAT_READ_TIME_OUT);
    let short = cleared | STAT_TIME_OUT_RESPONSE;
    let both = cleared | (STAT_TIME_OUT_RESPONSE | STAT_READ_TIME_OUT);
    lemma_done_bits(cleared);
    lemma_done_bits(short);
    lemma_done_bits(both);
    lemma_timed_out(m.stat);
}

proof fn lemma_done_bits(t: u32)
    ensures
        ({
            let end = t | STAT_END_CMD_RES;
            let started = end & !STAT_DATA_TRAN_DONE;
            &&& started & STAT_END_CMD_RES != 0
            &&& (end | (STAT_PRG_DONE | STAT_DATA_TRAN_DONE)) & STAT_END_CMD_RES != 0
            &&& started & STAT_DATA_TRAN_DONE == 0
            &&& started & STAT_PRG_DONE == t & STAT_PRG_DONE
            &&& (started | STAT_DATA_TRAN_DONE) & STAT_DATA_TRAN_DONE != 0
            &&& ((started | STAT_DATA_TRAN_DONE) | STAT_PRG_DONE) & STAT_DATA_TRAN_DONE != 0
        }),
{
    assert({
        let end = t | STAT_END_CMD_RES;
        let started = end & !STAT_DATA_TRAN_DONE;
        (started & STAT_END_CMD_RES != 0) && ((end | (STAT_PRG_DONE | STAT_DATA_TRAN_DONE))
            & STAT_END_CMD_RES != 0) && (started & STAT_DATA_TRAN_DONE == 0) && (started
            & STAT_PRG_DONE == t & STAT_PRG_DONE) && ((started | STAT_DATA_TRAN_DONE)
            & STAT_DATA_TRAN_DONE != 0) && (((started | STAT_DATA_TRAN_DONE) | STAT_PRG_DONE)
            & STAT_DATA_TRAN_DONE != 0)
    }) by (bit_vector);
}

/// What a timeout does to the status `x`.
proof fn lemma_timed_out(x: u32)
    ensures
        ({
            let cleared = x & !(STAT_TIME_OUT_RESPONSE | STAT_READ_TIME_OUT);
            let short = cleared | STAT_TIME_OUT_RESPONSE;
            let both = cleared | (STAT_TIME_OUT_RESPONSE | STAT_READ_TIME_OUT);
            let end = both | STAT_END_CMD_RES;
            &&& (end & !STAT_DATA_TRAN_DONE) & STAT_TIME_OUT_RESPONSE != 0
            &&& (end | (STAT_PRG_DONE | STAT_DATA_TRAN_DONE)) & STAT_TIME_OUT_RESPONSE != 0
            &&& cleared & STAT_PRG_DONE == x & STAT_PRG_DONE
            &&& short & STAT_PRG_DONE == x & STAT_PRG_DONE
            &&& both & STAT_PRG_DONE == x & STAT_PRG_DONE
        }),
{
    assert({
        let cleared = x & !(STAT_TIME_OUT_RESPONSE | STAT_READ_TIME_OUT);
        let short = cleared | STAT_TIME_OUT_RESPONSE;
        let both = cleared | (STAT_TIME_OUT_RESPONSE | STAT_READ_TIME_OUT);
        let end = both | STAT_END_CMD_RES;
        ((end & !STAT_DATA_TRAN_DONE) & STAT_TIME_OUT_RESPONSE != 0) && ((end | (STAT_PRG_DONE
            | STAT_DATA_TRAN_DONE)) & STAT_TIME_OUT_RESPONSE != 0) && (cleared & STAT_PRG_DONE == x
            & STAT_PRG_DONE) && (short & STAT_PRG_DONE == x & STAT_PRG_DONE) && (both
            & STAT_PRG_DONE == x & STAT_PRG_DONE)
    }) by (bit_vector);
}

/// A data command starts with its transfer not done, whatever was done before
/// it, and the transfer is done once as many bytes have crossed the FIFO as
/// there are.
pub proof fn law_a_transfer_is_done_at_the_end(m: MmcState)
    requires
        m.cmdat & CMDAT_DATA_EN != 0,
    ensures
        m.executed().stat & STAT_DATA_TRAN_DONE == 0,
        m.executed().stat & STAT_PRG_DONE == m.stat & STAT_PRG_DONE,
        forall|n: u32|
            0 < n < m.executed().bytesleft ==> #[trigger] m.executed().moved(n).stat
                & STAT_DATA_TRAN_DONE == 0,
        forall|n: u32|
            0 < m.executed().bytesleft <= n ==> #[trigger] m.executed().moved(n).stat
                & STAT_DATA_TRAN_DONE != 0,
{
    let cleared = m.stat & !(STAT_TIME_OUT_RESPONSE | STAT_READ_TIME_OUT);
    lemma_done_bits(cleared);
    lemma_done_bits(cleared | STAT_TIME_OUT_RESPONSE);
    lemma_done_bits(cleared | (STAT_TIME_OUT_RESPONSE | STAT_READ_TIME_OUT));
    lemma_timed_out(m.stat);
}

/// Reading the interrupt register clears it.
pub proof fn law_interrupts_clear_on_read(m: MmcState)
    ensures
        m.after_read(0x2C).read_spec(0x2C) == 0,
        m.after_read(0x2C) == (MmcState { i_reg: 0, ..m }),
{
}

impl MmcState {
    /// The controller after `n` words were taken out of the receive FIFO.
    pub open spec fn after_words(self, n: nat) -> MmcState
        decreases n,
    {
        if n == 0 {
            self
        } else {
            self.after_words((n - 1) as nat).after_read(0x40)
        }
    }

    /// The controller after words were put into the transmit FIFO.
    pub open spec fn after_puts(self, words: Seq<u32>) -> MmcState
        decreases words.len(),
    {
        if words.len() == 0 {
            self
        } else {
            self.after_puts(words.drop_last()).written(0x44, words.last())
        }
    }

    /// The controller after `n` reads of the response register.
    pub open spec fn after_answers(self, n: nat) -> MmcState
        decreases n,
    {
        if n == 0 {
            self
        } else {
            self.after_answers((n - 1) as nat).after_read(0x3C)
        }
    }

    /// The controller is about to run a data command on a card that is
    /// waiting for one: so many bytes from address `at`.
    pub open spec fn about_to_move(self, at: u32, total: int) -> bool {
        &&& self.clock_on
        &&& self.card is Some
        &&& !self.card->0.app_cmd
        &&& self.argh < 0x1_0000 && self.argl < 0x1_0000
        &&& at == self.argh * 0x1_0000 + self.argl
        &&& total == (if self.nob > 1 {
            self.nob
        } else {
            1
        }) * self.blklen
        &&& 0 < total <= u32::MAX
        &&& total % 4 == 0
        &&& at + total <= self.card->0.data.len() <= usize::MAX
    }
}

/// Four bytes of a sequence as a number, the first of them lowest.
pub open spec fn number_at(bytes: Seq<u8>, at: int) -> int {
    bytes[at] + 0x100 * bytes[at + 1] + 0x1_0000 * bytes[at + 2] + 0x100_0000 * bytes[at + 3]
}

/// A data command that has begun.
proof fn lemma_begun(m: MmcState, val: u32, at: u32, total: int)
    requires
        m.about_to_move(at, total),
        val & CMDAT_DATA_EN != 0,
        m.cmd & 0x3F == 17 || m.cmd & 0x3F == 18 || m.cmd & 0x3F == 24 || m.cmd & 0x3F == 25,
    ensures
        ({
            let t = m.written(0x10, val);
            let c = m.card->0.commanded((m.cmd & 0x3F) as u8, at).0;
            &&& t.card == Some(c)
            &&& c.data == m.card->0.data
            &&& c.data_out == m.card->0.data_out
            &&& c.position == at
            &&& t.bytesleft == total
            &&& t.cmdat == val
            &&& t.stat & STAT_DATA_TRAN_DONE == 0
            &&& (t.stat | STAT_DATA_TRAN_DONE) & STAT_DATA_TRAN_DONE != 0
            &&& ((t.stat | STAT_DATA_TRAN_DONE) | STAT_PRG_DONE) & STAT_DATA_TRAN_DONE != 0
        }),
{
    let h = m.argh;
    let l = m.argl;
    lemma_argument(h, l);
    let cleared = m.stat & !(STAT_TIME_OUT_RESPONSE | STAT_READ_TIME_OUT);
    lemma_done_bits(cleared);
    let s = MmcState { cmdat: val, ..m };
    assert(s.argument() == at);
    assert(s.card_answer().1 is Some);
}

/// The two halves of an argument.
proof fn lemma_argument(h: u32, l: u32)
    requires
        h < 0x1_0000,
        l < 0x1_0000,
    ensures
        (h << 16) | (l & 0xFFFF) == h * 0x1_0000 + l,
        h < 0x100 && l < 0x100 ==> (h << 8) | l == h * 0x100 + l,
{
    assert((h << 16) | (l & 0xFFFF) == h * 0x1_0000 + l && (h < 0x100 && l < 0x100 ==> (h << 8) | l
        == h * 0x100 + l)) by (bit_vector)
        requires
            h < 0x1_0000,
            l < 0x1_0000,
    ;
}

/// A read under way after `k` words of it.
proof fn lemma_words(t: MmcState, c: SdState, total: int, k: nat)
    requires
        t.card == Some(c),
        c.transfer == super::sdcard::Transfer::Reading,
        c.data_out.len() == 0,
        c.position + total <= usize::MAX,
        t.bytesleft == total,
        t.cmdat & CMDAT_WR_RD == 0,
        total % 4 == 0,
        4 * k <= total,
        total > 0,
    ensures
        ({
            let d = t.after_words(k);
            &&& 4 * k < total ==> {
                &&& d.card == Some(c.after_reads(4 * k))
                &&& d.bytesleft == total - 4 * k
                &&& d.stat == t.stat
                &&& d.cmdat == t.cmdat
            }
            &&& 4 * k == total ==> d.bytesleft == 0 && d.stat == t.stat | STAT_DATA_TRAN_DONE
                && d.card == Some(c.after_reads(4 * k).after_finish())
        }),
    decreases k,
{
    if k > 0 {
        lemma_words(t, c, total, (k - 1) as nat);
        lemma_four(c, (4 * (k - 1)) as nat);
    }
}

proof fn lemma_four(c: SdState, n: nat)
    ensures
        c.after_reads(n).after_read().after_read().after_read().after_read() == c.after_reads(
            n + 4,
        ),
{
    reveal_with_fuel(SdState::after_reads, 5);
    assert((n + 4 - 1) as nat == n + 3);
}

/// A read command hands the card's contents over word by word through the
/// receive FIFO: word `k` is the four bytes at `at + 4 * k`, the first of them
/// lowest, whatever number of blocks the command is for. The transfer is
/// reported done exactly once all its bytes are over.
pub proof fn law_the_fifo_hands_over_the_card(
    m: MmcState,
    val: u32,
    at: u32,
    total: int,
    k: nat,
)
    requires
        m.about_to_move(at, total),
        m.card->0.data_out.len() == 0,
        val & CMDAT_DATA_EN != 0,
        val & CMDAT_WR_RD == 0,
        m.cmd & 0x3F == 17 || m.cmd & 0x3F == 18,
        4 * k <= total,
    ensures
        ({
            let d = m.written(0x10, val).after_words(k);
            &&& 4 * k < total ==> d.read_spec(0x40) == number_at(m.card->0.data, at + 4 * k)
            &&& (d.stat & 0x800 != 0) == (4 * k == total)
            &&& d.card is Some
            &&& d.card->0.data == m.card->0.data
        }),
{
    lemma_begun(m, val, at, total);
    let t = m.written(0x10, val);
    let c = t.card->0;
    lemma_words(t, c, total, k);
    super::sdcard::lemma_reads(c, 4 * k);
    if 4 * k < total {
        super::sdcard::lemma_reads(c, 4 * k + 1);
        super::sdcard::lemma_reads(c, 4 * k + 2);
        super::sdcard::lemma_reads(c, 4 * k + 3);
        let p = at + 4 * k;
        crate::bytes::law_the_first_byte_is_lowest(
            c.data[p],
            c.data[p + 1],
            c.data[p + 2],
            c.data[p + 3],
            0,
            0,
        );
    }
}

/// The bytes that words carry, each its low byte first.
pub open spec fn bytes_of(words: Seq<u32>) -> Seq<u8> {
    Seq::new(
        words.len() * 4,
        |j: int| (words[j / 4] >> ((8 * (j % 4)) as u32)) as u8,
    )
}

/// A write under way after some words of it.
proof fn lemma_puts(t: MmcState, c: SdState, total: int, words: Seq<u32>)
    requires
        t.card == Some(c),
        c.transfer == super::sdcard::Transfer::Writing,
        t.bytesleft == total,
        t.cmdat & CMDAT_WR_RD != 0,
        total % 4 == 0,
        4 * words.len() <= total,
        total > 0,
    ensures
        ({
            let d = t.after_puts(words);
            let k = words.len() as int;
            &&& 4 * k < total ==> {
                &&& d.card == Some(c.after_bytes(bytes_of(words)))
                &&& d.bytesleft == total - 4 * k
                &&& d.stat == t.stat
                &&& d.cmdat == t.cmdat
            }
            &&& 4 * k == total ==> d.bytesleft == 0 && d.stat == (t.stat | STAT_DATA_TRAN_DONE)
                | STAT_PRG_DONE && d.card == Some(c.after_bytes(bytes_of(words)).after_finish())
        }),
    decreases words.len(),
{
    if words.len() == 0 {
        assert(bytes_of(words) =~= Seq::empty());
    } else {
        lemma_puts(t, c, total, words.drop_last());
        lemma_four_put(c, words);
    }
}

proof fn lemma_four_put(c: SdState, words: Seq<u32>)
    requires
        words.len() > 0,
    ensures
        ({
            let w = words.last();
            c.after_bytes(bytes_of(words)) == c.after_bytes(
                bytes_of(words.drop_last()),
            ).after_write(w as u8).after_write((w >> 8) as u8).after_write(
                (w >> 16) as u8,
            ).after_write((w >> 24) as u8)
        }),
{
    let w = words.last();
    let b = bytes_of(words);
    let n = b.len() as int;
    crate::bits::lemma_word(w, 0, 0);
    let b3 = b.drop_last();
    let b2 = b3.drop_last();
    let b1 = b2.drop_last();
    let b0 = b1.drop_last();
    assert((n - 4) / 4 == words.len() - 1 && (n - 4) % 4 == 0);
    assert(b.last() == (w >> 24) as u8);
    assert(b3.last() == (w >> 16) as u8);
    assert(b2.last() == (w >> 8) as u8);
    assert(b1.last() == w as u8);
    assert(b0 =~= bytes_of(words.drop_last()));
    assert(c.after_bytes(b) == c.after_bytes(b3).after_write(b.last()));
    assert(c.after_bytes(b3) == c.after_bytes(b2).after_write(b3.last()));
    assert(c.after_bytes(b2) == c.after_bytes(b1).after_write(b2.last()));
    assert(c.after_bytes(b1) == c.after_bytes(b0).after_write(b1.last()));
}

/// A write command puts what goes into the transmit FIFO on the card: byte `j`
/// of the words, each its low byte first, stands at `at + j` and every other
/// byte of the card is as it was. The transfer is reported done exactly once
/// all its bytes are over.
pub proof fn law_the_fifo_fills_the_card(
    m: MmcState,
    val: u32,
    at: u32,
    total: int,
    words: Seq<u32>,
)
    requires
        m.about_to_move(at, total),
        val & CMDAT_DATA_EN != 0,
        val & CMDAT_WR_RD != 0,
        m.cmd & 0x3F == 24 || m.cmd & 0x3F == 25,
        4 * words.len() <= total,
    ensures
        ({
            let d = m.written(0x10, val).after_puts(words);
            let was = m.card->0.data;
            &&& d.card is Some
            &&& d.card->0.data.len() == was.len()
            &&& forall|i: int|
                #![trigger d.card->0.data[i]]
                0 <= i < was.len() ==> d.card->0.data[i] == if at <= i < at + 4 * words.len() {
                    bytes_of(words)[i - at]
                } else {
                    was[i]
                }
            &&& (d.stat & 0x800 != 0) == (4 * words.len() == total)
        }),
{
    lemma_begun(m, val, at, total);
    let t = m.written(0x10, val);
    let c = t.card->0;
    lemma_puts(t, c, total, words);
    super::sdcard::lemma_bytes(c, bytes_of(words));
}

proof fn lemma_answers(m: MmcState, n: nat)
    ensures
        m.after_answers(n) == (MmcState {
            response: if 2 * n < m.response.len() {
                m.response.skip(2 * n as int)
            } else {
                Seq::empty()
            },
            ..m
        }),
    decreases n,
{
    if n == 0 {
        assert(m.response.skip(0) =~= m.response);
        if m.response.len() == 0 {
            assert(m.response =~= Seq::empty());
        }
    } else {
        lemma_answers(m, (n - 1) as nat);
        if 2 * n < m.response.len() {
            let was = m.response.skip(2 * (n - 1));
            assert(was.subrange(2, was.len() as int) =~= m.response.skip(2 * n as int));
        }
    }
}

/// The card's answer is read sixteen bits at a time, in order, the earlier of
/// two bytes in the upper half; what the answer does not have reads as zero.
pub proof fn law_answers_are_read_in_order(m: MmcState, n: nat)
    ensures
        ({
            let word = m.after_answers(n).read_spec(0x3C);
            let hi = if 2 * n < m.response.len() {
                m.response[2 * n as int] as int
            } else {
                0
            };
            let lo = if 2 * n + 1 < m.response.len() {
                m.response[2 * n as int + 1] as int
            } else {
                0
            };
            word == hi * 0x100 + lo
        }),
{
    lemma_answers(m, n);
    let r = m.after_answers(n).response;
    let hi = if r.len() > 0 {
        r[0] as u32
    } else {
        0
    };
    let lo = if r.len() > 1 {
        r[1] as u32
    } else {
        0
    };
    lemma_argument(hi, lo);
}

/// Nothing runs while the clock is stopped: the command is staged and the card
/// does not hear of it. Bit 1 of the clock register starts the clock and bit 0
/// stops it.
pub proof fn law_a_stopped_clock_runs_nothing(m: MmcState, val: u32, start: u32, stop: u32)
    requires
        start & 0x2 != 0,
        stop & 0x2 == 0,
        stop & 0x1 != 0,
    ensures
        m.written(0x00, start).clock_on,
        !m.written(0x00, stop).clock_on,
        m.written(0x00, stop).card == m.card,
        m.written(0x00, stop).written(0x10, val).card == m.card,
        m.written(0x00, stop).written(0x10, val).stat == m.stat,
        m.written(0x00, stop).written(0x10, val).response == m.response,
{
}

/// The line to the processor follows the requests that are not masked, and no
/// other source is touched.
pub proof fn law_masked_requests_are_silent(m: MmcState, intc: Intc, other: u32)
    ensures
        m.drive(intc).pending_spec(23) == exists|n: u32|
            n < 32 && #[trigger] crate::bits::bit_of(m.i_reg, n) && !crate::bits::bit_of(
                m.i_mask,
                n,
            ),
        other != 23 ==> m.drive(intc).pending_spec(other) == intc.pending_spec(other),
{
    let open = m.i_reg & !m.i_mask;
    super::intc::law_sources_are_independent(intc, IRQ_MMC, open != 0, other);
    crate::bits::lemma_some_bit(open);
    assert forall|n: u32| n < 32 implies #[trigger] crate::bits::bit_of(open, n) == (
    crate::bits::bit_of(m.i_reg, n) && !crate::bits::bit_of(m.i_mask, n)) by {
        crate::bits::lemma_word(m.i_reg, n, m.i_mask);
    }
    if open != 0 {
        let n = choose|n: u32| n < 32 && #[trigger] crate::bits::bit_of(open, n);
        assert(crate::bits::bit_of(m.i_reg, n));
    }
    if exists|n: u32|
        n < 32 && #[trigger] crate::bits::bit_of(m.i_reg, n) && !crate::bits::bit_of(
            m.i_mask,
            n,
        ) {
        let n = choose|n: u32|
            n < 32 && #[trigger] crate::bits::bit_of(m.i_reg, n) && !crate::bits::bit_of(
                m.i_mask,
                n,
            );
        assert(crate::bits::bit_of(open, n));
    }
}

/// A register that holds its value reads back as it was written.
pub proof fn law_registers_read_back(m: MmcState, val: u32)
    ensures
        m.written(0x08, val).read_spec(0x08) == val,
        m.written(0x0C, val).read_spec(0x0C) == val,
        m.written(0x14, val).read_spec(0x14) == val,
        m.written(0x18, val).read_spec(0x18) == val,
        m.written(0x1C, val).read_spec(0x1C) == val,
        m.written(0x20, val).read_spec(0x20) == val,
        m.written(0x24, val).read_spec(0x24) == val,
        m.written(0x28, val).read_spec(0x28) == val,
        m.written(0x30, val).read_spec(0x30) == val,
        m.written(0x34, val).read_spec(0x34) == val,
        m.written(0x38, val).read_spec(0x38) == val,
        m.written(0x00, val).read_spec(0x00) == val,
{
}

} // verus!
