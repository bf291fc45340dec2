//! Battery and charger state, as `battdrvr.dll` reads it.
//!
//! **GPIO 14, the AC adapter, active low.** A low pin means the adapter is
//! plugged in, the usual wiring for a DC jack that grounds a sense pin.
//!
//! **GPIO 108, charge status, sampled nine times in a row.** The charge
//! thread counts highs and lows across nine reads and collapses them: all high
//! gives state 0, all low gives state 2, and any mixture gives state 1. A line
//! that has to be sampled repeatedly to see whether it is *toggling* is a
//! charge indicator, the same signal that blinks an LED.

use crate::pxa270::gpio::{Gpio, GpioState};
use crate::pxa270::intc::Intc;
use vstd::prelude::*;

verus! {

/// The power switch, active low: the pin is pulled low in the off position.
///
/// It is a **switch**: two positions, and it stays where it is put. What it is
/// wired to is the sleep line rather than the power, so the pin is a level and
/// what the machine acts on is the *transition* across it: down to sleep, up
/// to wake.
///
/// Every emulated GPIO input starts at zero, so until this is driven the guest
/// sees the switch in the off position and shuts the machine off a few seconds
/// into boot. Constructing the board is the equivalent of flicking it on.
pub const GPIO_POWER_SWITCH: u32 = 0;

/// The mains adapter, active low: driven low while it is connected.
pub const GPIO_AC_PRESENT: u32 = 14;
/// Charge indicator, read as steady-high, steady-low or toggling.
pub const GPIO_CHARGE_STATUS: u32 = 108;

#[derive(Debug, Clone, Copy, PartialEq, Eq, Structural)]
pub enum ChargeSignal {
    /// Steady high, which the driver collapses to state 0.
    SteadyHigh,
    /// Steady low, which the driver collapses to state 2.
    SteadyLow,
    /// Alternating, which the driver collapses to state 1.
    Toggling,
}

#[derive(Debug, Clone, Copy)]
pub struct PowerState {
    pub ac_present: bool,
    /// Position of the power switch. False is off, and the guest will
    /// shut down when it notices.
    pub power_switch_on: bool,
    pub charge: ChargeSignal,
    /// Flips on each sample while `charge` is `Toggling`.
    pub toggle: bool,
}

impl Default for PowerState {
    fn default() -> (r: Self)
        ensures
            r == PowerState::on_mains(),
    {
        // An emulated machine is always on mains. Nothing here models a
        // battery discharging, and a guest that believes it has neither
        // adapter nor charge will shut itself down.
        PowerState {
            ac_present: true,
            power_switch_on: true,
            charge: ChargeSignal::SteadyHigh,
            toggle: false,
        }
    }
}

impl PowerState {
    pub open spec fn on_mains() -> PowerState {
        PowerState {
            ac_present: true,
            power_switch_on: true,
            charge: ChargeSignal::SteadyHigh,
            toggle: false,
        }
    }

    /// The state once the pins were driven: a toggling line has flipped.
    pub open spec fn sampled(self) -> PowerState {
        PowerState {
            toggle: if self.charge == ChargeSignal::Toggling {
                !self.toggle
            } else {
                self.toggle
            },
            ..self
        }
    }

    /// The level of the charge line at the next sample.
    pub open spec fn charge_level(self) -> bool {
        match self.charge {
            ChargeSignal::SteadyHigh => true,
            ChargeSignal::SteadyLow => false,
            ChargeSignal::Toggling => !self.toggle,
        }
    }

    /// The GPIO with its sense pins driven to match this state.
    pub open spec fn driven(self, g: GpioState) -> GpioState {
        g.with_input(GPIO_POWER_SWITCH, self.power_switch_on).with_input(
            GPIO_AC_PRESENT,
            !self.ac_present,
        ).with_input(GPIO_CHARGE_STATUS, self.charge_level())
    }

    /// The interrupt lines after each of the three pins moved in turn.
    pub open spec fn interrupts(self, g: GpioState, intc: Intc) -> Intc {
        let g1 = g.with_input(GPIO_POWER_SWITCH, self.power_switch_on);
        let g2 = g1.with_input(GPIO_AC_PRESENT, !self.ac_present);
        let g3 = g2.with_input(GPIO_CHARGE_STATUS, self.charge_level());
        g3.drive(g2.drive(g1.drive(intc)))
    }

    /// Drive the sense pins to match this state. Called whenever the state
    /// changes and once per charge sample so a toggling line actually
    /// toggles.
    pub fn drive(&mut self, gpio: &mut Gpio, intc: &mut Intc)
        ensures
            *final(self) == old(self).sampled(),
            final(gpio)@ == old(self).driven(old(gpio)@),
            *final(intc) == old(self).interrupts(old(gpio)@, *old(intc)),
    {
        gpio.set_input(GPIO_POWER_SWITCH, self.power_switch_on, intc);
        gpio.set_input(GPIO_AC_PRESENT, !self.ac_present, intc);
        let level = match self.charge {
            ChargeSignal::SteadyHigh => true,
            ChargeSignal::SteadyLow => false,
            ChargeSignal::Toggling => {
                self.toggle = !self.toggle;
                self.toggle
            },
        };
        gpio.set_input(GPIO_CHARGE_STATUS, level, intc);
    }
}

/// A toggling charge line is at opposite levels on any two samples in a row;
/// a steady one is always at the same level.
pub proof fn law_the_charge_line_toggles_or_holds(p: PowerState)
    ensures
        p.charge == ChargeSignal::Toggling ==> p.sampled().charge_level() == !p.charge_level(),
        p.charge != ChargeSignal::Toggling ==> p.sampled().charge_level() == p.charge_level(),
{
}

/// The sense pins say what the state is: the switch as it stands, the adapter
/// low while it is there, and the charge line at its level. No other pin moves.
pub proof fn law_the_pins_tell_the_state(p: PowerState, g: GpioState, pin: u32)
    requires
        g.shaped(),
        pin < 128,
    ensures
        ({
            let d = p.driven(g);
            let b = (pin / 32) as int;
            crate::bits::bit_of(d.input[b], pin % 32) == if pin == 0 {
                p.power_switch_on
            } else if pin == 14 {
                !p.ac_present
            } else if pin == 108 {
                p.charge_level()
            } else {
                crate::bits::bit_of(g.input[b], pin % 32)
            }
        }),
        p.charge == ChargeSignal::SteadyHigh ==> p.charge_level(),
        p.charge == ChargeSignal::SteadyLow ==> !p.charge_level(),
        p.sampled().ac_present == p.ac_present,
        p.sampled().power_switch_on == p.power_switch_on,
{
    let b = (pin / 32) as int;
    let g1 = g.with_input(GPIO_POWER_SWITCH, p.power_switch_on);
    let g2 = g1.with_input(GPIO_AC_PRESENT, !p.ac_present);
    crate::pxa270::gpio::law_an_edge_is_latched_where_it_is_asked_for(
        g,
        GPIO_POWER_SWITCH,
        p.power_switch_on,
        b,
        pin % 32,
    );
    crate::pxa270::gpio::law_an_edge_is_latched_where_it_is_asked_for(
        g1,
        GPIO_AC_PRESENT,
        !p.ac_present,
        b,
        pin % 32,
    );
    crate::pxa270::gpio::law_an_edge_is_latched_where_it_is_asked_for(
        g2,
        GPIO_CHARGE_STATUS,
        p.charge_level(),
        b,
        pin % 32,
    );
}

} // verus!
