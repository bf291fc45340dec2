use vbnote::pxa270::intc::{IRQ_USB_HOST_1, Intc};
use vbnote::pxa270::ohci::{HC_COMMAND_STATUS, HC_INTERRUPT_ENABLE, HC_INTERRUPT_STATUS, HC_REVISION, HC_RH_DESCRIPTOR_A, HC_RH_PORT_STATUS, HC_RH_STATUS, INT_MASTER_ENABLE, INT_ROOT_HUB_CHANGE, Ohci, PORTS, PORT_CONNECTED, PORT_CONNECT_CHANGE, PORT_ENABLED, PORT_POWERED, PORT_RESET, PORT_RESET_CHANGE, UHCHR, UHCHR_SSE};

fn parts() -> (Ohci, Intc) {
    (Ohci::new(), Intc::default())
}

/// The whole reason USB was chosen over the PCMCIA socket: the driver
/// asked how many ports it had, was told none, and correctly stopped.
#[test]
fn the_root_hub_reports_its_ports() {
    let (mut hc, mut intc) = parts();
    assert_eq!(hc.read(HC_RH_DESCRIPTOR_A, &mut intc) & 0xFF, PORTS);
    assert_ne!(PORTS, 0, "a root hub with no ports is what stalled this");
}

#[test]
fn it_identifies_as_ohci_revision_one() {
    let (mut hc, mut intc) = parts();
    assert_eq!(hc.read(HC_REVISION, &mut intc), 0x10);
}

/// UHCHR is the PXA's own, above the OHCI block. A boot log read against
/// the standard map alone mistakes 0x64 for port status.
#[test]
fn the_pxa_registers_are_not_port_status() {
    let (mut hc, mut intc) = parts();
    assert!(hc.port_of(UHCHR).is_none());
    assert!(hc.port_of(HC_RH_PORT_STATUS).is_some());
    assert!(hc.port_of(HC_RH_PORT_STATUS + 4).is_some());
    assert!(hc.port_of(HC_RH_PORT_STATUS + PORTS * 4).is_none());
    hc.write(UHCHR, UHCHR_SSE, &mut intc);
    assert_eq!(hc.read(UHCHR, &mut intc), UHCHR_SSE);
}

#[test]
fn power_comes_from_the_driver_not_from_reset() {
    let (mut hc, mut intc) = parts();
    assert_eq!(hc.read(HC_RH_PORT_STATUS, &mut intc) & PORT_POWERED, 0);
    hc.write(HC_RH_STATUS, 1 << 16, &mut intc);
    assert_ne!(hc.read(HC_RH_PORT_STATUS, &mut intc) & PORT_POWERED, 0);
}

/// Plugging something in is a status bit and an interrupt, and nothing
/// else. No board signal, which is the point of this route.
#[test]
fn plugging_in_raises_the_root_hub_interrupt() {
    let (mut hc, mut intc) = parts();
    hc.write(HC_INTERRUPT_ENABLE, INT_MASTER_ENABLE | INT_ROOT_HUB_CHANGE, &mut intc);
    assert!(!intc.is_pending(IRQ_USB_HOST_1));

    hc.set_connected(0, true, &mut intc);
    let status = hc.read(HC_RH_PORT_STATUS, &mut intc);
    assert_ne!(status & PORT_CONNECTED, 0);
    assert_ne!(status & PORT_CONNECT_CHANGE, 0);
    assert!(intc.is_pending(IRQ_USB_HOST_1), "no interrupt for a connect");
}

/// An interrupt that cannot be cleared is worse than one never raised:
/// the guest spins in its handler for ever.
#[test]
fn the_status_register_is_write_one_to_clear() {
    let (mut hc, mut intc) = parts();
    hc.write(HC_INTERRUPT_ENABLE, INT_MASTER_ENABLE | INT_ROOT_HUB_CHANGE, &mut intc);
    hc.set_connected(0, true, &mut intc);
    assert!(intc.is_pending(IRQ_USB_HOST_1));

    hc.write(HC_INTERRUPT_STATUS, INT_ROOT_HUB_CHANGE, &mut intc);
    assert!(!intc.is_pending(IRQ_USB_HOST_1));
}

#[test]
fn the_change_bits_clear_by_writing_one() {
    let (mut hc, mut intc) = parts();
    hc.set_connected(0, true, &mut intc);
    assert_ne!(hc.read(HC_RH_PORT_STATUS, &mut intc) & PORT_CONNECT_CHANGE, 0);
    hc.write(HC_RH_PORT_STATUS, PORT_CONNECT_CHANGE, &mut intc);
    assert_eq!(hc.read(HC_RH_PORT_STATUS, &mut intc) & PORT_CONNECT_CHANGE, 0);
    // And the device is still there afterwards.
    assert_ne!(hc.read(HC_RH_PORT_STATUS, &mut intc) & PORT_CONNECTED, 0);
}

/// Resetting a port is how the driver gets to talk to a device. It has
/// to finish, and leave the port enabled, or enumeration never starts.
#[test]
fn a_port_reset_completes_and_enables() {
    let (mut hc, mut intc) = parts();
    hc.set_connected(0, true, &mut intc);
    hc.write(HC_RH_PORT_STATUS, PORT_RESET, &mut intc);
    let status = hc.read(HC_RH_PORT_STATUS, &mut intc);
    assert_eq!(status & PORT_RESET, 0, "reset never finished");
    assert_ne!(status & PORT_ENABLED, 0, "port not enabled after reset");
    assert_ne!(status & PORT_RESET_CHANGE, 0);
}

/// Resetting an empty port must not enable it, or the driver goes off
/// enumerating a device that is not there.
#[test]
fn resetting_an_empty_port_does_nothing() {
    let (mut hc, mut intc) = parts();
    hc.write(HC_RH_PORT_STATUS, PORT_RESET, &mut intc);
    assert_eq!(hc.read(HC_RH_PORT_STATUS, &mut intc) & PORT_ENABLED, 0);
}

/// A controller reset clears the lists but must not unplug anything.
#[test]
fn a_controller_reset_leaves_the_device_plugged_in() {
    let (mut hc, mut intc) = parts();
    hc.write(HC_RH_STATUS, 1 << 16, &mut intc);
    hc.set_connected(0, true, &mut intc);
    hc.write(HC_COMMAND_STATUS, 1, &mut intc);
    assert_ne!(hc.read(HC_RH_PORT_STATUS, &mut intc) & PORT_CONNECTED, 0);
    assert!(!intc.is_pending(IRQ_USB_HOST_1));
}

#[test]
fn unplugging_clears_connect_and_enable() {
    let (mut hc, mut intc) = parts();
    hc.set_connected(0, true, &mut intc);
    hc.write(HC_RH_PORT_STATUS, PORT_RESET, &mut intc);
    hc.write(HC_RH_PORT_STATUS, PORT_CONNECT_CHANGE | PORT_RESET_CHANGE, &mut intc);
    assert!(hc.connected(0));

    hc.set_connected(0, false, &mut intc);
    let status = hc.read(HC_RH_PORT_STATUS, &mut intc);
    assert_eq!(status & PORT_CONNECTED, 0);
    assert_eq!(status & PORT_ENABLED, 0);
    assert_ne!(status & PORT_CONNECT_CHANGE, 0);
}
