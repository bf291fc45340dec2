//! The USB host controller: OHCI, plus the PXA270's own wrapper around it.
//!
//! This is the way files get on and off the machine. On a boot the driver
//! resets the controller, hands it an HCCA in SDRAM, sets frame timing,
//! enables the master interrupt and powers the root hub, then asks how many
//! ports it has.
//!
//! # Two register sets at one base
//!
//! `0x4C00_0000` carries the standard OHCI operational registers at their
//! usual offsets, and then three of Intel's own above them:
//!
//! | offset | |
//! |---|---|
//! | `0x00`-`0x5C` | OHCI: control, status, list heads, frame timing, root hub |
//! | `0x64` | `UHCHR`, the PXA host controller reset and power control |
//! | `0x68` | `UHCHIE`, PXA interrupt enable |
//! | `0x6C` | `UHCHIT`, PXA interrupt test |
//!
//! # What "a device appeared" means here
//!
//! `HcRhPortStatus[n]` bit 0 is CCS, current connect status. Setting it and
//! raising the root-hub-status-change interrupt is the whole of insertion.

use super::intc::{Intc, IRQ_USB_HOST_1};
use std::collections::BTreeMap;
use vstd::prelude::*;

verus! {

broadcast use vstd::std_specs::btree::group_btree_axioms;

pub const BASE: u32 = 0x4C00_0000;

/// How many downstream ports the root hub reports. The machine has two USB
/// host ports, and `ohci.dll` claims an interrupt for each (IRQ 3 and IRQ 2).
pub const PORTS: u32 = 2;

// Standard OHCI operational registers.
pub const HC_REVISION: u32 = 0x00;
pub const HC_CONTROL: u32 = 0x04;
pub const HC_COMMAND_STATUS: u32 = 0x08;
pub const HC_INTERRUPT_STATUS: u32 = 0x0C;
pub const HC_INTERRUPT_ENABLE: u32 = 0x10;
pub const HC_INTERRUPT_DISABLE: u32 = 0x14;
pub const HC_HCCA: u32 = 0x18;
pub const HC_PERIOD_CURRENT_ED: u32 = 0x1C;
pub const HC_CONTROL_HEAD_ED: u32 = 0x20;
pub const HC_CONTROL_CURRENT_ED: u32 = 0x24;
pub const HC_BULK_HEAD_ED: u32 = 0x28;
pub const HC_BULK_CURRENT_ED: u32 = 0x2C;
pub const HC_DONE_HEAD: u32 = 0x30;
pub const HC_FM_INTERVAL: u32 = 0x34;
pub const HC_FM_REMAINING: u32 = 0x38;
pub const HC_FM_NUMBER: u32 = 0x3C;
pub const HC_PERIODIC_START: u32 = 0x40;
pub const HC_LS_THRESHOLD: u32 = 0x44;
pub const HC_RH_DESCRIPTOR_A: u32 = 0x48;
pub const HC_RH_DESCRIPTOR_B: u32 = 0x4C;
pub const HC_RH_STATUS: u32 = 0x50;
pub const HC_RH_PORT_STATUS: u32 = 0x54;

// The PXA270's own registers above the OHCI block.
pub const UHCHR: u32 = 0x64;
pub const UHCHIE: u32 = 0x68;
pub const UHCHIT: u32 = 0x6C;

// `HcInterruptStatus` / `HcInterruptEnable` bits.
pub const INT_WRITEBACK_DONE: u32 = 0x2;
pub const INT_START_OF_FRAME: u32 = 0x4;
pub const INT_ROOT_HUB_CHANGE: u32 = 0x40;
pub const INT_MASTER_ENABLE: u32 = 0x8000_0000;

// `HcRhPortStatus` bits.
pub const PORT_CONNECTED: u32 = 0x1;
pub const PORT_ENABLED: u32 = 0x2;
pub const PORT_SUSPENDED: u32 = 0x4;
/// Written, clears the suspend state.
pub const PORT_CLEAR_SUSPEND: u32 = 0x8;
pub const PORT_RESET: u32 = 0x10;
pub const PORT_POWERED: u32 = 0x100;
/// Read, the device is low speed; written, takes the power away.
pub const PORT_LOW_SPEED: u32 = 0x200;
// Write-one-to-clear change bits, in the top half.
pub const PORT_CONNECT_CHANGE: u32 = 0x1_0000;
pub const PORT_ENABLE_CHANGE: u32 = 0x2_0000;
pub const PORT_SUSPEND_CHANGE: u32 = 0x4_0000;
pub const PORT_OVERCURRENT_CHANGE: u32 = 0x8_0000;
pub const PORT_RESET_CHANGE: u32 = 0x10_0000;
/// All of the change bits.
pub const PORT_CHANGES: u32 = 0x1F_0000;

// `UHCHR` bits that the driver drives during bring-up.
pub const UHCHR_FSBIR: u32 = 0x1;
pub const UHCHR_FHR: u32 = 0x2;
pub const UHCHR_SSE: u32 = 0x20;
pub const UHCHR_SSEP0: u32 = 0x40;

/// One downstream port of the root hub.
#[derive(Clone, Copy)]
pub struct Port {
    pub status: u32,
}

impl Default for Port {
    fn default() -> (r: Self)
        ensures
            r.status == 0,
    {
        Port { status: 0 }
    }
}

pub struct Ohci {
    pub control: u32,
    pub command_status: u32,
    pub interrupt_status: u32,
    pub interrupt_enable: u32,
    pub hcca: u32,
    pub period_current_ed: u32,
    pub control_head_ed: u32,
    pub control_current_ed: u32,
    pub bulk_head_ed: u32,
    pub bulk_current_ed: u32,
    pub done_head: u32,
    pub fm_interval: u32,
    pub fm_number: u32,
    pub periodic_start: u32,
    pub ls_threshold: u32,
    pub rh_status: u32,
    pub ports: [Port; 2],
    pub uhchr: u32,
    pub uhchie: u32,
    pub uhchit: u32,
    /// Registers outside the map, kept so that an unexpected access is
    /// visible, not silent.
    pub unexpected: BTreeMap<u32, u32>,
}

/// What an [`Ohci`] holds.
#[verifier::ext_equal]
pub struct OhciState {
    pub control: u32,
    pub command_status: u32,
    pub interrupt_status: u32,
    pub interrupt_enable: u32,
    pub hcca: u32,
    pub period_current_ed: u32,
    pub control_head_ed: u32,
    pub control_current_ed: u32,
    pub bulk_head_ed: u32,
    pub bulk_current_ed: u32,
    pub done_head: u32,
    pub fm_interval: u32,
    pub fm_number: u32,
    pub periodic_start: u32,
    pub ls_threshold: u32,
    pub rh_status: u32,
    /// Status word of each port.
    pub ports: Seq<u32>,
    pub uhchr: u32,
    pub uhchie: u32,
    pub uhchit: u32,
    pub unexpected: Map<u32, u32>,
}

impl View for Ohci {
    type V = OhciState;

    open spec fn view(&self) -> OhciState {
        OhciState {
            control: self.control,
            command_status: self.command_status,
            interrupt_status: self.interrupt_status,
            interrupt_enable: self.interrupt_enable,
            hcca: self.hcca,
            period_current_ed: self.period_current_ed,
            control_head_ed: self.control_head_ed,
            control_current_ed: self.control_current_ed,
            bulk_head_ed: self.bulk_head_ed,
            bulk_current_ed: self.bulk_current_ed,
            done_head: self.done_head,
            fm_interval: self.fm_interval,
            fm_number: self.fm_number,
            periodic_start: self.periodic_start,
            ls_threshold: self.ls_threshold,
            rh_status: self.rh_status,
            ports: self.ports@.map_values(|p: Port| p.status),
            uhchr: self.uhchr,
            uhchie: self.uhchie,
            uhchit: self.uhchit,
            unexpected: self.unexpected@,
        }
    }
}

/// The port that a register offset names.
pub open spec fn port_at(off: u32) -> Option<int> {
    if HC_RH_PORT_STATUS <= off < HC_RH_PORT_STATUS + PORTS * 4 {
        Some((off - HC_RH_PORT_STATUS) / 4)
    } else {
        None
    }
}

/// A port is being reset: the request, with something connected.
pub open spec fn resets_port(status: u32, val: u32) -> bool {
    val & PORT_RESET != 0 && status & PORT_CONNECTED != 0
}

/// A port's status after `val` was written to it. Change bits clear where a
/// one is written; the low bits are requests, carried out in this order. A
/// reset of a connected port completes at once, leaving it enabled, and
/// nothing after it is looked at.
pub open spec fn port_written(status: u32, val: u32) -> u32 {
    let connected = status & PORT_CONNECTED != 0;
    let s = status & !(val & PORT_CHANGES);
    let s = if val & PORT_ENABLED != 0 && connected {
        s | PORT_ENABLED
    } else {
        s
    };
    let s = if val & PORT_CONNECTED != 0 {
        s & !PORT_ENABLED
    } else {
        s
    };
    let s = if val & PORT_SUSPENDED != 0 {
        s | PORT_SUSPENDED
    } else {
        s
    };
    let s = if val & PORT_CLEAR_SUSPEND != 0 {
        s & !PORT_SUSPENDED
    } else {
        s
    };
    if resets_port(status, val) {
        (s & !PORT_RESET) | (PORT_ENABLED | PORT_RESET_CHANGE)
    } else {
        let s = if val & PORT_POWERED != 0 {
            s | PORT_POWERED
        } else {
            s
        };
        if val & PORT_LOW_SPEED != 0 {
            s & !PORT_POWERED
        } else {
            s
        }
    }
}

impl OhciState {
    pub open spec fn fresh() -> OhciState {
        OhciState {
            control: 0,
            command_status: 0,
            interrupt_status: 0,
            interrupt_enable: 0,
            hcca: 0,
            period_current_ed: 0,
            control_head_ed: 0,
            control_current_ed: 0,
            bulk_head_ed: 0,
            bulk_current_ed: 0,
            done_head: 0,
            fm_interval: 0x2EDF,
            fm_number: 0,
            periodic_start: 0,
            ls_threshold: 0x0628,
            rh_status: 0,
            ports: seq![0u32, 0u32],
            uhchr: UHCHR_FHR | UHCHR_SSE | UHCHR_SSEP0,
            uhchie: 0,
            uhchit: 0,
            unexpected: Map::empty(),
        }
    }

    /// The line follows status AND enable, with the master enable on top.
    pub open spec fn drive(self, intc: Intc) -> Intc {
        intc.driven(
            IRQ_USB_HOST_1,
            self.interrupt_status & self.interrupt_enable != 0 && self.interrupt_enable
                & INT_MASTER_ENABLE != 0,
        )
    }

    pub open spec fn raised(self, bits: u32) -> OhciState {
        OhciState { interrupt_status: self.interrupt_status | bits, ..self }
    }

    /// Whether this call would change anything: the port exists and is not
    /// already that way.
    pub open spec fn connects(self, port: int, connected: bool) -> bool {
        port < 2 && (self.ports[port] & PORT_CONNECTED != 0) != connected
    }

    pub open spec fn with_connected(self, port: int, connected: bool) -> OhciState {
        if !self.connects(port, connected) {
            self
        } else {
            let s = if connected {
                self.ports[port] | PORT_CONNECTED
            } else {
                self.ports[port] & !(PORT_CONNECTED | PORT_ENABLED)
            };
            (OhciState {
                ports: self.ports.update(port, s | PORT_CONNECT_CHANGE),
                ..self
            }).raised(INT_ROOT_HUB_CHANGE)
        }
    }

    pub open spec fn read_spec(self, off: u32) -> u32 {
        if off == HC_REVISION {
            0x10
        } else if off == HC_CONTROL {
            self.control
        } else if off == HC_COMMAND_STATUS {
            self.command_status
        } else if off == HC_INTERRUPT_STATUS {
            self.interrupt_status
        } else if off == HC_INTERRUPT_ENABLE || off == HC_INTERRUPT_DISABLE {
            self.interrupt_enable
        } else if off == HC_HCCA {
            self.hcca
        } else if off == HC_PERIOD_CURRENT_ED {
            self.period_current_ed
        } else if off == HC_CONTROL_HEAD_ED {
            self.control_head_ed
        } else if off == HC_CONTROL_CURRENT_ED {
            self.control_current_ed
        } else if off == HC_BULK_HEAD_ED {
            self.bulk_head_ed
        } else if off == HC_BULK_CURRENT_ED {
            self.bulk_current_ed
        } else if off == HC_DONE_HEAD {
            self.done_head
        } else if off == HC_FM_INTERVAL {
            self.fm_interval
        } else if off == HC_FM_REMAINING {
            self.fm_interval & 0x3FFF
        } else if off == HC_FM_NUMBER {
            self.fm_number
        } else if off == HC_PERIODIC_START {
            self.periodic_start
        } else if off == HC_LS_THRESHOLD {
            self.ls_threshold
        } else if off == HC_RH_DESCRIPTOR_A {
            PORTS | 0x100
        } else if off == HC_RH_DESCRIPTOR_B {
            0
        } else if off == HC_RH_STATUS {
            self.rh_status
        } else if port_at(off) is Some {
            self.ports[port_at(off)->0]
        } else if off == UHCHR {
            self.uhchr
        } else if off == UHCHIE {
            self.uhchie
        } else if off == UHCHIT {
            self.uhchit
        } else {
            0
        }
    }

    /// Whether a register exists at `off`.
    pub open spec fn mapped(off: u32) -> bool {
        (off <= HC_RH_STATUS && off % 4 == 0) || port_at(off) is Some || off == UHCHR || off
            == UHCHIE || off == UHCHIT
    }

    /// A read of nothing is remembered; any other read changes nothing.
    pub open spec fn after_read(self, off: u32) -> OhciState {
        if Self::mapped(off) || self.unexpected.contains_key(off) {
            self
        } else {
            OhciState { unexpected: self.unexpected.insert(off, 0), ..self }
        }
    }

    /// Global power, on and off, from a write to HcRhStatus.
    pub open spec fn powered(self, val: u32) -> OhciState {
        let a = if val & 0x1_0000 != 0 {
            self.ports.map_values(|s: u32| s | PORT_POWERED)
        } else {
            self.ports
        };
        OhciState {
            ports: if val & 1 != 0 {
                a.map_values(|s: u32| s & !PORT_POWERED)
            } else {
                a
            },
            ..self
        }
    }

    pub open spec fn written(self, off: u32, val: u32) -> OhciState {
        if off == HC_CONTROL {
            OhciState { control: val, ..self }
        } else if off == HC_COMMAND_STATUS {
            // A host controller reset clears the lists and the interrupt
            // state but leaves the root hub alone.
            let s = if val & 1 != 0 {
                OhciState {
                    control: 0,
                    interrupt_status: 0,
                    interrupt_enable: 0,
                    period_current_ed: 0,
                    control_head_ed: 0,
                    control_current_ed: 0,
                    bulk_head_ed: 0,
                    bulk_current_ed: 0,
                    done_head: 0,
                    ..self
                }
            } else {
                self
            };
            // The reset completes at once, and the list-filled bits are
            // write-only doorbells.
            OhciState { command_status: val & !0x0000_0007u32, ..s }
        } else if off == HC_INTERRUPT_STATUS {
            OhciState { interrupt_status: self.interrupt_status & !val, ..self }
        } else if off == HC_INTERRUPT_ENABLE {
            OhciState { interrupt_enable: self.interrupt_enable | val, ..self }
        } else if off == HC_INTERRUPT_DISABLE {
            OhciState { interrupt_enable: self.interrupt_enable & !val, ..self }
        } else if off == HC_HCCA {
            OhciState { hcca: val & !0xFFu32, ..self }
        } else if off == HC_PERIOD_CURRENT_ED {
            OhciState { period_current_ed: val, ..self }
        } else if off == HC_CONTROL_HEAD_ED {
            OhciState { control_head_ed: val, ..self }
        } else if off == HC_CONTROL_CURRENT_ED {
            OhciState { control_current_ed: val, ..self }
        } else if off == HC_BULK_HEAD_ED {
            OhciState { bulk_head_ed: val, ..self }
        } else if off == HC_BULK_CURRENT_ED {
            OhciState { bulk_current_ed: val, ..self }
        } else if off == HC_DONE_HEAD {
            OhciState { done_head: val, ..self }
        } else if off == HC_FM_INTERVAL {
            OhciState { fm_interval: val, ..self }
        } else if off == HC_FM_NUMBER {
            OhciState { fm_number: val, ..self }
        } else if off == HC_PERIODIC_START {
            OhciState { periodic_start: val, ..self }
        } else if off == HC_LS_THRESHOLD {
            OhciState { ls_threshold: val, ..self }
        } else if off == HC_RH_DESCRIPTOR_A || off == HC_RH_DESCRIPTOR_B {
            self
        } else if off == HC_RH_STATUS {
            self.powered(val)
        } else if port_at(off) is Some {
            let n = port_at(off)->0;
            let s = OhciState {
                ports: self.ports.update(n, port_written(self.ports[n], val)),
                ..self
            };
            if resets_port(self.ports[n], val) {
                s.raised(INT_ROOT_HUB_CHANGE)
            } else {
                s
            }
        } else if off == UHCHR {
            // FHR is a force host reset: held, the controller is in reset;
            // released, it comes back.
            OhciState {
                uhchr: if val & UHCHR_FHR == 0 && val & UHCHR_FSBIR != 0 {
                    val & !UHCHR_FSBIR
                } else {
                    val
                },
                ..self
            }
        } else if off == UHCHIE {
            OhciState { uhchie: val, ..self }
        } else if off == UHCHIT {
            OhciState { uhchit: val, ..self }
        } else {
            OhciState { unexpected: self.unexpected.insert(off, val), ..self }
        }
    }

    /// Whether a write refreshes the interrupt line.
    pub open spec fn write_drives(self, off: u32, val: u32) -> bool {
        off == HC_COMMAND_STATUS || off == HC_INTERRUPT_STATUS || off == HC_INTERRUPT_ENABLE || off
            == HC_INTERRUPT_DISABLE || (port_at(off) is Some && resets_port(
            self.ports[port_at(off)->0],
            val,
        ))
    }
}

impl Default for Ohci {
    fn default() -> (r: Self)
        ensures
            r@ == OhciState::fresh(),
    {
        Ohci::new()
    }
}

impl Ohci {
    pub fn new() -> (r: Ohci)
        ensures
            r@ == OhciState::fresh(),
    {
        let r = Ohci {
            control: 0,
            command_status: 0,
            interrupt_status: 0,
            interrupt_enable: 0,
            hcca: 0,
            period_current_ed: 0,
            control_head_ed: 0,
            control_current_ed: 0,
            bulk_head_ed: 0,
            bulk_current_ed: 0,
            done_head: 0,
            // 11999 frame interval and the usual largest packet, which is
            // what the driver writes back anyway.
            fm_interval: 0x2EDF,
            fm_number: 0,
            periodic_start: 0,
            ls_threshold: 0x0628,
            rh_status: 0,
            // Powered from reset is wrong; the driver turns power on itself
            // through HcRhStatus, and a port that claims power before it is
            // given makes that step untestable.
            ports: [Port { status: 0 }, Port { status: 0 }],
            uhchr: UHCHR_FHR | UHCHR_SSE | UHCHR_SSEP0,
            uhchie: 0,
            uhchit: 0,
            unexpected: BTreeMap::new(),
        };
        assert(r@.ports =~= seq![0u32, 0u32]);
        r
    }

    /// Put `status` into port `n`.
    fn set_port(&mut self, n: usize, status: u32)
        requires
            n < 2,
        ensures
            final(self)@ == (OhciState {
                ports: old(self)@.ports.update(n as int, status),
                ..old(self)@
            }),
    {
        self.ports[n] = Port { status };
        assert(self@.ports =~= old(self)@.ports.update(n as int, status));
    }

    /// Say a device has appeared on `port`, or gone away.
    ///
    /// Nothing else is needed to make the guest look: CCS changes, the change
    /// bit latches, and the root hub raises its interrupt. What the driver
    /// does next (reset, enumerate, ask for descriptors) is its own.
    pub fn set_connected(&mut self, port: usize, connected: bool, intc: &mut Intc)
        ensures
            final(self)@ == old(self)@.with_connected(port as int, connected),
            *final(intc) == (if old(self)@.connects(port as int, connected) {
                final(self)@.drive(*old(intc))
            } else {
                *old(intc)
            }),
    {
        if port >= 2 {
            return ;
        }
        let mut status: u32 = self.ports[port].status;
        let was = status & PORT_CONNECTED != 0;
        if was == connected {
            return ;
        }
        if connected {
            status = status | PORT_CONNECTED;
        } else {
            status = status & !(PORT_CONNECTED | PORT_ENABLED);
        }
        self.set_port(port, status | PORT_CONNECT_CHANGE);
        self.raise(INT_ROOT_HUB_CHANGE, intc);
    }

    pub fn connected(&self, port: usize) -> (r: bool)
        ensures
            r == (port < 2 && self@.ports[port as int] & PORT_CONNECTED != 0),
    {
        port < 2 && self.ports[port].status & PORT_CONNECTED != 0
    }

    /// Raise an interrupt from the board-side list walker, which is where
    /// transfers actually happen.
    pub fn raise_from_board(&mut self, bits: u32, intc: &mut Intc)
        ensures
            final(self)@ == old(self)@.raised(bits),
            *final(intc) == final(self)@.drive(*old(intc)),
    {
        self.raise(bits, intc);
    }

    fn raise(&mut self, bits: u32, intc: &mut Intc)
        ensures
            final(self)@ == old(self)@.raised(bits),
            *final(intc) == final(self)@.drive(*old(intc)),
    {
        self.interrupt_status = self.interrupt_status | bits;
        self.update(intc);
    }

    /// The line follows status AND enable, with the master enable on top.
    fn update(&self, intc: &mut Intc)
        ensures
            *final(intc) == self@.drive(*old(intc)),
    {
        let pending = self.interrupt_status & self.interrupt_enable != 0 && self.interrupt_enable
            & INT_MASTER_ENABLE != 0;
        intc.set(IRQ_USB_HOST_1, pending);
    }

    fn rh_descriptor_a(&self) -> (r: u32)
        ensures
            r == PORTS | 0x100,
    {
        // NDP in the low byte: the number that tells the driver whether to go
        // looking for a device. NPS clear and PSM set: ports are powered
        // together, which is what the driver's single write to HcRhStatus
        // expects.
        PORTS | 0x100
    }

    pub fn read(&mut self, off: u32, intc: &mut Intc) -> (r: u32)
        ensures
            r == old(self)@.read_spec(off),
            final(self)@ == old(self)@.after_read(off),
            *final(intc) == *old(intc),
    {
        if let Some(n) = self.port_of(off) {
            return self.ports[n].status;
        }
        match off {
            // OHCI 1.0.
            0x00 => 0x10,
            0x04 => self.control,
            0x08 => self.command_status,
            0x0C => self.interrupt_status,
            0x10 | 0x14 => self.interrupt_enable,
            0x18 => self.hcca,
            0x1C => self.period_current_ed,
            0x20 => self.control_head_ed,
            0x24 => self.control_current_ed,
            0x28 => self.bulk_head_ed,
            0x2C => self.bulk_current_ed,
            0x30 => self.done_head,
            0x34 => self.fm_interval,
            // Nothing here counts down within a frame, and a driver that
            // waits for a particular remaining count would hang; reporting
            // the full interval means "the frame has just begun".
            0x38 => self.fm_interval & 0x3FFF,
            0x3C => self.fm_number,
            0x40 => self.periodic_start,
            0x44 => self.ls_threshold,
            0x48 => self.rh_descriptor_a(),
            0x4C => 0,
            0x50 => self.rh_status,
            0x64 => self.uhchr,
            0x68 => self.uhchie,
            0x6C => self.uhchit,
            _ => {
                if !self.unexpected.contains_key(&off) {
                    self.unexpected.insert(off, 0);
                }
                0
            },
        }
    }

    pub fn port_of(&self, off: u32) -> (r: Option<usize>)
        ensures
            match r {
                Some(n) => n < 2 && port_at(off) == Some(n as int),
                None => port_at(off) is None,
            },
    {
        if HC_RH_PORT_STATUS <= off && off < HC_RH_PORT_STATUS + PORTS * 4 {
            Some(((off - HC_RH_PORT_STATUS) / 4) as usize)
        } else {
            None
        }
    }

    /// Switch the power of every port together.
    fn set_global_power(&mut self, val: u32)
        ensures
            final(self)@ == old(self)@.powered(val),
    {
        // LPSC, set global power: every port comes up powered.
        if val & 0x1_0000 != 0 {
            let s0: u32 = self.ports[0].status;
            let s1: u32 = self.ports[1].status;
            self.set_port(0, s0 | PORT_POWERED);
            self.set_port(1, s1 | PORT_POWERED);
            assert(self@.ports =~= old(self)@.ports.map_values(|s: u32| s | PORT_POWERED));
        }
        let ghost mid = self@.ports;
        // LPS, clear global power.
        if val & 1 != 0 {
            let s0: u32 = self.ports[0].status;
            let s1: u32 = self.ports[1].status;
            self.set_port(0, s0 & !PORT_POWERED);
            self.set_port(1, s1 & !PORT_POWERED);
            assert(self@.ports =~= mid.map_values(|s: u32| s & !PORT_POWERED));
        }
    }

    pub fn write(&mut self, off: u32, val: u32, intc: &mut Intc)
        ensures
            final(self)@ == old(self)@.written(off, val),
            *final(intc) == (if old(self)@.write_drives(off, val) {
                final(self)@.drive(*old(intc))
            } else {
                *old(intc)
            }),
    {
        if let Some(n) = self.port_of(off) {
            self.write_port(n, val, intc);
            return ;
        }
        match off {
            0x04 => self.control = val,
            0x08 => {
                // HCR: a host controller reset. It clears the lists and the
                // interrupt state but leaves the root hub alone, so a device
                // already plugged in stays plugged in.
                if val & 1 != 0 {
                    self.control = 0;
                    self.interrupt_status = 0;
                    self.interrupt_enable = 0;
                    self.period_current_ed = 0;
                    self.control_head_ed = 0;
                    self.control_current_ed = 0;
                    self.bulk_head_ed = 0;
                    self.bulk_current_ed = 0;
                    self.done_head = 0;
                }
                // The list-filled bits are write-only doorbells.
                self.command_status = val & !0x0000_0007u32;
                self.update(intc);
            },
            // Both are write-one-to-clear or write-one-to-set; neither is a
            // plain store, and treating them as one leaves an interrupt
            // asserted for ever.
            0x0C => {
                self.interrupt_status = self.interrupt_status & !val;
                self.update(intc);
            },
            0x10 => {
                self.interrupt_enable = self.interrupt_enable | val;
                self.update(intc);
            },
            0x14 => {
                self.interrupt_enable = self.interrupt_enable & !val;
                self.update(intc);
            },
            0x18 => self.hcca = val & !0xFFu32,
            0x1C => self.period_current_ed = val,
            0x20 => self.control_head_ed = val,
            0x24 => self.control_current_ed = val,
            0x28 => self.bulk_head_ed = val,
            0x2C => self.bulk_current_ed = val,
            0x30 => self.done_head = val,
            0x34 => self.fm_interval = val,
            0x3C => self.fm_number = val,
            0x40 => self.periodic_start = val,
            0x44 => self.ls_threshold = val,
            0x48 | 0x4C => {},
            0x50 => self.set_global_power(val),
            0x64 => {
                self.uhchr = val;
                // FHR is a force host reset: held, the controller is in
                // reset; released, it comes back. The driver pulses it.
                if val & UHCHR_FHR == 0 && val & UHCHR_FSBIR != 0 {
                    self.uhchr = self.uhchr & !UHCHR_FSBIR;
                }
            },
            0x68 => self.uhchie = val,
            0x6C => self.uhchit = val,
            _ => {
                self.unexpected.insert(off, val);
            },
        }
    }

    /// A write to the status register of a port.
    pub fn write_port(&mut self, n: usize, val: u32, intc: &mut Intc)
        requires
            n < 2,
        ensures
            final(self)@ == ({
                let s = OhciState {
                    ports: old(self)@.ports.update(
                        n as int,
                        port_written(old(self)@.ports[n as int], val),
                    ),
                    ..old(self)@
                };
                if resets_port(old(self)@.ports[n as int], val) {
                    s.raised(INT_ROOT_HUB_CHANGE)
                } else {
                    s
                }
            }),
            *final(intc) == (if resets_port(old(self)@.ports[n as int], val) {
                final(self)@.drive(*old(intc))
            } else {
                *old(intc)
            }),
    {
        let mut status: u32 = self.ports[n].status;
        let connected = status & PORT_CONNECTED != 0;

        // Clearing the change bits is write-one-to-clear.
        status = status & !(val & PORT_CHANGES);

        // Set port enable.
        if val & PORT_ENABLED != 0 && connected {
            status = status | PORT_ENABLED;
        }
        // Clear port enable.
        if val & PORT_CONNECTED != 0 {
            status = status & !PORT_ENABLED;
        }
        // Set suspend, clear suspend.
        if val & PORT_SUSPENDED != 0 {
            status = status | PORT_SUSPENDED;
        }
        if val & PORT_CLEAR_SUSPEND != 0 {
            status = status & !PORT_SUSPENDED;
        }
        // Set port reset. A real reset takes ~10 ms and finishes by itself;
        // here it completes at once, leaving the port enabled and the reset
        // change bit set, which is what the driver waits for.
        if val & PORT_RESET != 0 && connected {
            status = status & !PORT_RESET;
            status = status | (PORT_ENABLED | PORT_RESET_CHANGE);
            self.set_port(n, status);
            self.raise(INT_ROOT_HUB_CHANGE, intc);
            return ;
        }
        // Set port power, clear port power.
        if val & PORT_POWERED != 0 {
            status = status | PORT_POWERED;
        }
        if val & PORT_LOW_SPEED != 0 {
            status = status & !PORT_POWERED;
        }
        self.set_port(n, status);
    }
}

/// A port that is enabled is one with something connected.
pub open spec fn port_sound(status: u32) -> bool {
    status & PORT_ENABLED != 0 ==> status & PORT_CONNECTED != 0
}

/// No write to a port ever plugs a device in or unplugs one: only
/// [`Ohci::set_connected`] changes the connect bit. An empty port is never
/// enabled, and a reset does nothing to it. A reset of a connected one leaves
/// it enabled. A write that resets nothing clears just those change bits that
/// it has ones for.
pub proof fn law_writes_do_not_unplug(status: u32, val: u32)
    ensures
        port_written(status, val) & PORT_CONNECTED == status & PORT_CONNECTED,
        status & PORT_CONNECTED == 0 && status & PORT_ENABLED == 0 ==> port_written(status, val)
            & PORT_ENABLED == 0,
        resets_port(status, val) ==> port_written(status, val) & PORT_ENABLED != 0 && port_written(
            status,
            val,
        ) & PORT_RESET == 0 && port_written(status, val) & PORT_RESET_CHANGE != 0,
        status & PORT_CONNECTED == 0 ==> port_written(status, PORT_RESET) == status,
        val & PORT_RESET == 0 ==> port_written(status, val) & PORT_CHANGES == status & PORT_CHANGES
            & !val,
        port_sound(status) ==> port_sound(port_written(status, val)),
{
    lemma_port_bits(status, val, port_written(status, val));
    lemma_port_bits(status, PORT_RESET, port_written(status, PORT_RESET));
}

proof fn lemma_port_bits(status: u32, val: u32, w: u32)
    requires
        w == port_written(status, val),
    ensures
        w & PORT_CONNECTED == status & PORT_CONNECTED,
        status & PORT_CONNECTED == 0 && status & PORT_ENABLED == 0 ==> w & PORT_ENABLED == 0,
        resets_port(status, val) ==> w & PORT_ENABLED != 0 && w & PORT_RESET == 0 && w
            & PORT_RESET_CHANGE != 0,
        status & PORT_CONNECTED == 0 && val == PORT_RESET ==> w == status,
        val & PORT_RESET == 0 ==> w & PORT_CHANGES == status & PORT_CHANGES & !val,
        port_sound(status) ==> port_sound(w),
        port_sound(status) ==> port_sound(status | PORT_POWERED) && port_sound(
            status & !PORT_POWERED,
        ),
        (status | PORT_POWERED) & PORT_CONNECTED == status & PORT_CONNECTED,
        (status & !PORT_POWERED) & PORT_CONNECTED == status & PORT_CONNECTED,
        port_sound(0),
        port_sound((status | PORT_CONNECTED) | PORT_CONNECT_CHANGE),
        port_sound((status & !(PORT_CONNECTED | PORT_ENABLED)) | PORT_CONNECT_CHANGE),
        (status | PORT_POWERED) & PORT_POWERED != 0,
        (status & !PORT_POWERED) & PORT_POWERED == 0,
        !resets_port(status, val) ==> {
            &&& (w & PORT_ENABLED != 0) == (val & PORT_CONNECTED == 0 && (status & PORT_ENABLED != 0
                || (val & PORT_ENABLED != 0 && status & PORT_CONNECTED != 0)))
            &&& (w & PORT_SUSPENDED != 0) == (val & PORT_CLEAR_SUSPEND == 0 && (status
                & PORT_SUSPENDED != 0 || val & PORT_SUSPENDED != 0))
            &&& (w & PORT_POWERED != 0) == (val & PORT_LOW_SPEED == 0 && (status & PORT_POWERED != 0
                || val & PORT_POWERED != 0))
        },
{
    assert({
        let s0 = status & !(val & PORT_CHANGES);
        let s1 = if val & PORT_ENABLED != 0 && status & PORT_CONNECTED != 0 {
            s0 | PORT_ENABLED
        } else {
            s0
        };
        let s2 = if val & PORT_CONNECTED != 0 {
            s1 & !PORT_ENABLED
        } else {
            s1
        };
        let s3 = if val & PORT_SUSPENDED != 0 {
            s2 | PORT_SUSPENDED
        } else {
            s2
        };
        let s4 = if val & PORT_CLEAR_SUSPEND != 0 {
            s3 & !PORT_SUSPENDED
        } else {
            s3
        };
        let reset = (s4 & !PORT_RESET) | (PORT_ENABLED | PORT_RESET_CHANGE);
        let s5 = if val & PORT_POWERED != 0 {
            s4 | PORT_POWERED
        } else {
            s4
        };
        let s6 = if val & PORT_LOW_SPEED != 0 {
            s5 & !PORT_POWERED
        } else {
            s5
        };
        let resets = val & PORT_RESET != 0 && status & PORT_CONNECTED != 0;
        let sound = status & PORT_ENABLED != 0 ==> status & PORT_CONNECTED != 0;
        let up = status | PORT_POWERED;
        let down = status & !PORT_POWERED;
        let plugged = (status | PORT_CONNECTED) | PORT_CONNECT_CHANGE;
        let pulled = (status & !(PORT_CONNECTED | PORT_ENABLED)) | PORT_CONNECT_CHANGE;
        (sound ==> (up & PORT_ENABLED != 0 ==> up & PORT_CONNECTED != 0) && (down & PORT_ENABLED
            != 0 ==> down & PORT_CONNECTED != 0)) && (up & PORT_CONNECTED == status
            & PORT_CONNECTED) && (down & PORT_CONNECTED == status & PORT_CONNECTED) && (plugged & PORT_CONNECTED != 0) && (pulled
            & PORT_ENABLED == 0) && (0u32 & PORT_ENABLED == 0) && (up & PORT_POWERED != 0) && (down & PORT_POWERED
            == 0) && (w == (if resets {
            reset
        } else {
            s6
        }) ==> (w & PORT_CONNECTED == status & PORT_CONNECTED && (status & PORT_CONNECTED == 0
            && status & PORT_ENABLED == 0 ==> w & PORT_ENABLED == 0) && (resets ==> w & PORT_ENABLED
            != 0 && w & PORT_RESET == 0 && w & PORT_RESET_CHANGE != 0) && (status & PORT_CONNECTED
            == 0 && val == PORT_RESET ==> w == status) && (val & PORT_RESET == 0 ==> w
            & PORT_CHANGES == (status & PORT_CHANGES) & !val) && (sound ==> (w & PORT_ENABLED != 0
            ==> w & PORT_CONNECTED != 0)) && (!resets ==> ((w & PORT_ENABLED != 0) == (val
            & PORT_CONNECTED == 0 && (status & PORT_ENABLED != 0 || (val & PORT_ENABLED != 0
            && status & PORT_CONNECTED != 0))) && (w & PORT_SUSPENDED != 0) == (val
            & PORT_CLEAR_SUSPEND == 0 && (status & PORT_SUSPENDED != 0 || val & PORT_SUSPENDED
            != 0)) && (w & PORT_POWERED != 0) == (val & PORT_LOW_SPEED == 0 && (status
            & PORT_POWERED != 0 || val & PORT_POWERED != 0))))))
    }) by (bit_vector);
}

/// Something that happens to a controller.
pub enum Event {
    /// A register is written.
    Write { off: u32, val: u32 },
    /// A device appears on a port, or goes away.
    Connect { port: usize, connected: bool },
}

impl OhciState {
    pub open spec fn after_event(self, e: Event) -> OhciState {
        match e {
            Event::Write { off, val } => self.written(off, val),
            Event::Connect { port, connected } => self.with_connected(port as int, connected),
        }
    }

    /// The controller after a run of events.
    pub open spec fn after_events(self, run: Seq<Event>) -> OhciState
        decreases run.len(),
    {
        if run.len() == 0 {
            self
        } else {
            self.after_events(run.drop_last()).after_event(run.last())
        }
    }
}

/// Whatever has been written and plugged in since power-on, a port that reads
/// as enabled reads as connected.
pub proof fn law_enabled_ports_are_connected(run: Seq<Event>, n: int)
    requires
        0 <= n < 2,
    ensures
        ({
            let h = OhciState::fresh().after_events(run);
            let status = h.read_spec((HC_RH_PORT_STATUS + 4 * n) as u32);
            &&& h.ports.len() == 2
            &&& status == h.ports[n]
            &&& port_sound(status)
        }),
    decreases run.len(),
{
    if run.len() == 0 {
        lemma_port_bits(0, 0, port_written(0, 0));
    } else {
        law_enabled_ports_are_connected(run.drop_last(), 0);
        law_enabled_ports_are_connected(run.drop_last(), 1);
        let before = OhciState::fresh().after_events(run.drop_last());
        let status = before.ports[n];
        match run.last() {
            Event::Write { off, val } => {
                lemma_port_bits(status, val, port_written(status, val));
                lemma_port_bits(
                    status | PORT_POWERED,
                    val,
                    port_written(status | PORT_POWERED, val),
                );
                if off != HC_RH_STATUS && port_at(off) is None {
                    assert(before.written(off, val).ports == before.ports);
                }
            },
            Event::Connect { port, connected } => {
                lemma_port_bits(status, 0, port_written(status, 0));
            },
        }
    }
}

/// No write to any register plugs a device in or unplugs one.
proof fn lemma_plugged(h: OhciState, off: u32, val: u32, n: int)
    requires
        h.ports.len() == 2,
        0 <= n < 2,
    ensures
        h.written(off, val).ports.len() == 2,
        h.written(off, val).ports[n] & PORT_CONNECTED == h.ports[n] & PORT_CONNECTED,
{
    let status = h.ports[n];
    lemma_port_bits(status, val, port_written(status, val));
    lemma_port_bits(status | PORT_POWERED, val, port_written(status | PORT_POWERED, val));
    if off != HC_RH_STATUS && port_at(off) is None {
        assert(h.written(off, val).ports == h.ports);
    }
}

/// Whatever has been written and plugged in since power-on, what a port reads
/// as follows what is plugged into it. Enabled, it is connected. A reset of a
/// connected port completes at once, and leaves it enabled with the change to
/// say so; a reset of an empty one leaves it as it was. A write that resets
/// nothing clears just those change bits that it has ones for. No write to any
/// register changes whether something is connected, and none to a port changes
/// the other.
pub proof fn law_ports_follow_what_is_plugged_in(
    run: Seq<Event>,
    n: int,
    val: u32,
    off: u32,
    other: u32,
)
    requires
        0 <= n < 2,
    ensures
        ({
            let h = OhciState::fresh().after_events(run);
            let here = (HC_RH_PORT_STATUS + 4 * n) as u32;
            let there = (HC_RH_PORT_STATUS + 4 * (1 - n)) as u32;
            let before = h.read_spec(here);
            let w = h.written(here, val);
            let after = w.read_spec(here);
            &&& before & PORT_ENABLED != 0 ==> before & PORT_CONNECTED != 0
            &&& after & PORT_ENABLED != 0 ==> after & PORT_CONNECTED != 0
            &&& val & PORT_RESET != 0 && before & PORT_CONNECTED != 0 ==> after & PORT_RESET == 0
                && after & PORT_ENABLED != 0 && after & PORT_RESET_CHANGE != 0
            &&& val == PORT_RESET && before & PORT_CONNECTED == 0 ==> after == before
            &&& val & PORT_RESET == 0 ==> after & PORT_CHANGES == before & PORT_CHANGES & !val
            &&& h.written(off, other).read_spec(here) & PORT_CONNECTED == before & PORT_CONNECTED
            &&& w.read_spec(there) == h.read_spec(there)
        }),
{
    let h = OhciState::fresh().after_events(run);
    let here = (HC_RH_PORT_STATUS + 4 * n) as u32;
    law_enabled_ports_are_connected(run, n);
    law_enabled_ports_are_connected(run, 1 - n);
    law_writes_do_not_unplug(h.ports[n], val);
    lemma_plugged(h, off, other, n);
    law_a_port_is_written_alone(h, here, val, 1 - n);
}

/// A write to one port leaves the other alone.
pub proof fn law_a_port_is_written_alone(h: OhciState, off: u32, val: u32, n: int)
    requires
        h.ports.len() == 2,
        0 <= n < 2,
        port_at(off) is Some,
        port_at(off)->0 != n,
    ensures
        h.written(off, val).ports[n] == h.ports[n],
{
}

/// A controller reset leaves every port as it was, clears the lists, and
/// silences the line.
pub proof fn law_controller_reset_keeps_devices(h: OhciState, val: u32)
    requires
        val & 1 != 0,
    ensures
        h.written(HC_COMMAND_STATUS, val).ports == h.ports,
        h.written(HC_COMMAND_STATUS, val).control_head_ed == 0,
        h.written(HC_COMMAND_STATUS, val).bulk_head_ed == 0,
        h.written(HC_COMMAND_STATUS, val).done_head == 0,
        h.written(HC_COMMAND_STATUS, val).interrupt_status == 0,
        h.written(HC_COMMAND_STATUS, val).interrupt_enable == 0,
{
}

/// What a write that resets nothing does to a port, request by request: it is
/// enabled where something is connected and that is asked for, and disabled
/// where that is; suspended or resumed; powered or not. Of two opposite
/// requests the second wins.
pub proof fn law_a_port_does_as_it_is_asked(status: u32, val: u32)
    requires
        !(val & PORT_RESET != 0 && status & PORT_CONNECTED != 0),
    ensures
        ({
            let w = port_written(status, val);
            &&& (w & PORT_ENABLED != 0) == (val & PORT_CONNECTED == 0 && (status & PORT_ENABLED != 0
                || (val & PORT_ENABLED != 0 && status & PORT_CONNECTED != 0)))
            &&& (w & PORT_SUSPENDED != 0) == (val & PORT_CLEAR_SUSPEND == 0 && (status
                & PORT_SUSPENDED != 0 || val & PORT_SUSPENDED != 0))
            &&& (w & PORT_POWERED != 0) == (val & PORT_LOW_SPEED == 0 && (status & PORT_POWERED != 0
                || val & PORT_POWERED != 0))
        }),
{
    lemma_port_bits(status, val, port_written(status, val));
}

/// A device that appears or goes away is noticed: the port says whether it is
/// there, says that this changed, and the root hub asks for the processor. One
/// that goes away leaves its port disabled. Where nothing changes nothing is
/// said, and the other port is not touched either way.
pub proof fn law_plugging_is_noticed(h: OhciState, port: int, connected: bool)
    requires
        h.ports.len() == 2,
        0 <= port < 2,
    ensures
        ({
            let a = h.with_connected(port, connected);
            let was = h.ports[port] & PORT_CONNECTED != 0;
            let s = a.ports[port];
            &&& (s & PORT_CONNECTED != 0) == connected
            &&& was != connected ==> s & PORT_CONNECT_CHANGE != 0 && a.interrupt_status
                & INT_ROOT_HUB_CHANGE != 0
            &&& was && !connected ==> s & PORT_ENABLED == 0
            &&& was == connected ==> a == h
            &&& s & PORT_POWERED == h.ports[port] & PORT_POWERED
            &&& a.ports[1 - port] == h.ports[1 - port]
        }),
{
    lemma_plug_bits(h.ports[port], h.interrupt_status);
}

proof fn lemma_plug_bits(s: u32, i: u32)
    ensures
        ({
            let on = (s | PORT_CONNECTED) | PORT_CONNECT_CHANGE;
            let off = (s & !(PORT_CONNECTED | PORT_ENABLED)) | PORT_CONNECT_CHANGE;
            &&& on & PORT_CONNECTED != 0 && on & PORT_CONNECT_CHANGE != 0
            &&& off & PORT_CONNECTED == 0 && off & PORT_CONNECT_CHANGE != 0 && off & PORT_ENABLED
                == 0
            &&& on & PORT_POWERED == s & PORT_POWERED && off & PORT_POWERED == s & PORT_POWERED
            &&& (i | INT_ROOT_HUB_CHANGE) & INT_ROOT_HUB_CHANGE != 0
        }),
{
    assert({
        let on = (s | PORT_CONNECTED) | PORT_CONNECT_CHANGE;
        let off = (s & !(PORT_CONNECTED | PORT_ENABLED)) | PORT_CONNECT_CHANGE;
        on & PORT_CONNECTED != 0 && on & PORT_CONNECT_CHANGE != 0 && off & PORT_CONNECTED == 0
            && off & PORT_CONNECT_CHANGE != 0 && off & PORT_ENABLED == 0 && on & PORT_POWERED == s
            & PORT_POWERED && off & PORT_POWERED == s & PORT_POWERED && (i | INT_ROOT_HUB_CHANGE)
            & INT_ROOT_HUB_CHANGE != 0
    }) by (bit_vector);
}

/// Interrupts are enabled, disabled and acknowledged bit by bit: each register
/// acts on the bits that are written as ones and leaves the others alone.
pub proof fn law_interrupts_go_bit_by_bit(h: OhciState, val: u32, n: u32)
    requires
        n < 32,
    ensures
        ({
            let set = crate::bits::bit_of(val, n);
            &&& crate::bits::bit_of(h.written(0x10, val).interrupt_enable, n) == (
            crate::bits::bit_of(h.interrupt_enable, n) || set)
            &&& crate::bits::bit_of(h.written(0x14, val).interrupt_enable, n) == (
            crate::bits::bit_of(h.interrupt_enable, n) && !set)
            &&& crate::bits::bit_of(h.written(0x0C, val).interrupt_status, n) == (
            crate::bits::bit_of(h.interrupt_status, n) && !set)
            &&& h.written(0x10, val).interrupt_status == h.interrupt_status
            &&& h.written(0x0C, val).interrupt_enable == h.interrupt_enable
        }),
{
    crate::bits::lemma_word(h.interrupt_enable, n, val);
    crate::bits::lemma_word(h.interrupt_status, n, val);
}

/// The controller asks for the processor exactly where the master enable is on
/// and some event has happened that is enabled.
pub proof fn law_the_line_follows_enabled_events(h: OhciState, intc: Intc, other: u32)
    ensures
        h.drive(intc).pending_spec(3) == (crate::bits::bit_of(h.interrupt_enable, 31) && exists|
            n: u32,
        |
            n < 32 && #[trigger] crate::bits::bit_of(h.interrupt_status, n) && crate::bits::bit_of(
                h.interrupt_enable,
                n,
            )),
        other != 3 ==> h.drive(intc).pending_spec(other) == intc.pending_spec(other),
{
    let both = h.interrupt_status & h.interrupt_enable;
    super::intc::law_sources_are_independent(
        intc,
        IRQ_USB_HOST_1,
        both != 0 && h.interrupt_enable & INT_MASTER_ENABLE != 0,
        other,
    );
    crate::bits::lemma_some_bit(both);
    crate::bits::lemma_word(0, 31, 0);
    assert forall|n: u32| n < 32 implies #[trigger] crate::bits::bit_of(both, n) == (
    crate::bits::bit_of(h.interrupt_status, n) && crate::bits::bit_of(h.interrupt_enable, n)) by {
        crate::bits::lemma_word(h.interrupt_status, n, h.interrupt_enable);
    }
    if both != 0 {
        let n = choose|n: u32| n < 32 && #[trigger] crate::bits::bit_of(both, n);
        assert(crate::bits::bit_of(h.interrupt_status, n));
    }
    if exists|n: u32|
        n < 32 && #[trigger] crate::bits::bit_of(h.interrupt_status, n) && crate::bits::bit_of(
            h.interrupt_enable,
            n,
        ) {
        let n = choose|n: u32|
            n < 32 && #[trigger] crate::bits::bit_of(h.interrupt_status, n) && crate::bits::bit_of(
                h.interrupt_enable,
                n,
            );
        assert(crate::bits::bit_of(both, n));
    }
}

/// The registers that hold what they are given.
pub open spec fn holds_its_value(off: u32) -> bool {
    off == 0x04 || off == 0x1C || off == 0x20 || off == 0x24 || off == 0x28 || off == 0x2C || off
        == 0x30 || off == 0x34 || off == 0x3C || off == 0x40 || off == 0x44
}

/// A register that holds its value reads back as it was written; every other
/// such register reads as before, and so do both ports. The communications
/// area is on a boundary of its size.
pub proof fn law_registers_read_back(h: OhciState, off: u32, other: u32, val: u32)
    requires
        holds_its_value(off),
        holds_its_value(other),
        other != off,
    ensures
        h.written(off, val).read_spec(off) == val,
        h.written(off, val).read_spec(other) == h.read_spec(other),
        h.written(off, val).ports == h.ports,
        h.written(0x18, val).read_spec(0x18) == val - val % 256,
{
    crate::bits::lemma_pages(val);
}

/// Power to every port at once, on and off, by the root hub's register.
pub proof fn law_hub_power_reaches_every_port(h: OhciState, val: u32, n: int)
    requires
        h.ports.len() == 2,
        0 <= n < 2,
    ensures
        val & 1 != 0 ==> h.written(0x50, val).ports[n] & PORT_POWERED == 0,
        val & 1 == 0 && val & 0x1_0000 != 0 ==> h.written(0x50, val).ports[n] & PORT_POWERED != 0,
        val & 1 == 0 && val & 0x1_0000 == 0 ==> h.written(0x50, val).ports == h.ports,
{
    let s = h.ports[n];
    lemma_port_bits(s, 0, port_written(s, 0));
    lemma_port_bits(s | PORT_POWERED, 0, port_written(s | PORT_POWERED, 0));
}

} // verus!
