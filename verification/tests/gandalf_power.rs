use vbnote::gandalf::power::{ChargeSignal, GPIO_AC_PRESENT, GPIO_CHARGE_STATUS, GPIO_POWER_SWITCH, PowerState};
use vbnote::pxa270::gpio::Gpio;
use vbnote::pxa270::intc::Intc;

/// Reproduce the driver's own collapse of nine samples.
fn sample_charge(state: &mut PowerState, gpio: &mut Gpio, intc: &mut Intc) -> u32 {
    let (mut high, mut low) = (0, 0);
    for _ in 0..9 {
        state.drive(gpio, intc);
        let bank = (GPIO_CHARGE_STATUS / 32) as usize;
        let bit = 1u32 << (GPIO_CHARGE_STATUS % 32);
        if gpio.level(bank) & bit != 0 {
            high += 1;
        } else {
            low += 1;
        }
    }
    match (high, low) {
        (_, 0) => 0,
        (0, _) => 2,
        _ => 1,
    }
}

#[test]
fn the_power_switch_starts_in_the_on_position() {
    let (mut gpio, mut intc) = (Gpio::default(), Intc::default());
    let mut p = PowerState::default();
    p.drive(&mut gpio, &mut intc);
    let bit = 1u32 << GPIO_POWER_SWITCH;
    assert_ne!(gpio.level(0) & bit, 0, "switched on reads high");

    p.power_switch_on = false;
    p.drive(&mut gpio, &mut intc);
    assert_eq!(gpio.level(0) & bit, 0, "switched off pulls the pin low");
}

#[test]
fn the_adapter_pin_is_active_low() {
    let (mut gpio, mut intc) = (Gpio::default(), Intc::default());
    let mut p = PowerState::default();
    p.drive(&mut gpio, &mut intc);
    let bit = 1u32 << GPIO_AC_PRESENT;
    assert_eq!(gpio.level(0) & bit, 0, "adapter connected drives the pin low");

    p.ac_present = false;
    p.drive(&mut gpio, &mut intc);
    assert_ne!(gpio.level(0) & bit, 0, "adapter removed lets it float high");
}

#[test]
fn a_steady_charge_line_collapses_to_a_steady_state() {
    let (mut gpio, mut intc) = (Gpio::default(), Intc::default());
    let mut p = PowerState { charge: ChargeSignal::SteadyHigh, ..Default::default() };
    assert_eq!(sample_charge(&mut p, &mut gpio, &mut intc), 0);

    let mut p = PowerState { charge: ChargeSignal::SteadyLow, ..Default::default() };
    assert_eq!(sample_charge(&mut p, &mut gpio, &mut intc), 2);
}

#[test]
fn a_toggling_charge_line_is_seen_as_toggling() {
    let (mut gpio, mut intc) = (Gpio::default(), Intc::default());
    let mut p = PowerState { charge: ChargeSignal::Toggling, ..Default::default() };
    assert_eq!(sample_charge(&mut p, &mut gpio, &mut intc), 1);
}

#[test]
fn charge_status_lives_in_the_fourth_gpio_bank() {
    // GPIO 108 is bank 3, which the PXA puts at register offset 0x100
    // rather than continuing the packed layout. The driver special-cases
    // it, and so must the model.
    assert_eq!(GPIO_CHARGE_STATUS / 32, 3);
}
