use vbnote::gandalf::usb::{Ed, PID_IN, PID_OUT, PID_SETUP, Td};

/// The page rule, which is the one that corrupts memory rather than
/// failing: a buffer whose end is in another page is two runs, not one.
#[test]
fn a_buffer_that_straddles_a_page_is_two_runs() {
    let td = Td {
        at: 0,
        dword0: 0,
        buffer: 0xA000_0FFE,
        next: 0,
        end: 0xA000_1001,
    };
    assert_eq!(
        td.addresses(),
        vec![0xA000_0FFE, 0xA000_0FFF, 0xA000_1000, 0xA000_1001]
    );
}

#[test]
fn a_buffer_within_one_page_is_contiguous() {
    let td = Td {
        at: 0,
        dword0: 0,
        buffer: 0xA000_0010,
        next: 0,
        end: 0xA000_0013,
    };
    assert_eq!(td.addresses().len(), 4);
}

/// A status stage has no buffer at all, and must not be read as one byte
/// at address zero.
#[test]
fn no_buffer_means_no_bytes() {
    let td = Td {
        at: 0,
        dword0: 0,
        buffer: 0,
        next: 0,
        end: 0,
    };
    assert!(td.addresses().is_empty());
}

/// Skip and halt are the two ways an endpoint says "not now", and both
/// have to be honoured or a halted endpoint spins for ever.
#[test]
fn skip_and_halt_are_read_from_the_right_bits() {
    let ed = Ed {
        at: 0,
        control: 1 << 14,
        tail: 0,
        head_word: 0,
        next: 0,
    };
    assert!(ed.skipped());
    assert!(!ed.halted());

    let ed = Ed {
        at: 0,
        control: 0,
        tail: 0,
        head_word: 0x1234_0001,
        next: 0,
    };
    assert!(ed.halted());
    assert_eq!(ed.head(), 0x1234_0000);
}

#[test]
fn the_endpoint_and_address_come_out_of_the_control_word() {
    let ed = Ed {
        at: 0,
        // Address 5, endpoint 2.
        control: 5 | (2 << 7),
        tail: 0,
        head_word: 0,
        next: 0,
    };
    assert_eq!(ed.address(), 5);
    assert_eq!(ed.endpoint(), 2);
}

#[test]
fn the_pid_says_which_way_a_transfer_goes() {
    let td = |dp: u32| Td {
        at: 0,
        dword0: dp << 19,
        buffer: 0,
        next: 0,
        end: 0,
    };
    assert_eq!(td(0).pid(), PID_SETUP);
    assert_eq!(td(1).pid(), PID_OUT);
    assert_eq!(td(2).pid(), PID_IN);
}
