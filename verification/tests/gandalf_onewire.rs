use vbnote::gandalf::onewire::{CMD_READ_MEMORY, CMD_READ_ROM, CMD_SKIP_ROM, OneWire, PRESENCE_LOW, RESET_LOW, SIZE, WRITE_ZERO_LOW, crc8, record, rom_id};

/// Drive the bus the way the kernel does and collect what comes back.
struct Master {
    dev: OneWire,
    now: u32,
}

impl Master {
    fn new(dev: OneWire) -> Self {
        Master { dev, now: 1_000_000 }
    }

    fn low_for(&mut self, cycles: u32) {
        self.dev.update(true, self.now);
        self.now += cycles;
        self.dev.update(false, self.now);
        self.now += 100;
    }

    fn reset(&mut self) {
        self.low_for(RESET_LOW + 500);
        // Let the presence pulse finish.
        self.now += PRESENCE_LOW + 1;
    }

    fn write_byte(&mut self, b: u8) {
        for i in 0..8 {
            if b >> i & 1 == 0 {
                self.low_for(WRITE_ZERO_LOW + 50);
            } else {
                self.low_for(10);
            }
        }
    }

    fn read_byte(&mut self) -> u8 {
        let mut v = 0u8;
        for i in 0..8 {
            // A read slot starts with a short pull, then the master looks
            // at the line before the slot ends.
            self.dev.update(true, self.now);
            self.now += 10;
            let level = self.dev.update(false, self.now);
            if level {
                v |= 1 << i;
            }
            self.now += WRITE_ZERO_LOW + 100;
        }
        v
    }
}

fn read_from(dev: OneWire, at: u16, n: usize) -> Vec<u8> {
    let mut m = Master::new(dev);
    m.reset();
    m.write_byte(CMD_SKIP_ROM);
    m.write_byte(CMD_READ_MEMORY);
    m.write_byte(at as u8);
    m.write_byte((at >> 8) as u8);
    (0..n).map(|_| m.read_byte()).collect()
}

/// Read ROM is the first thing the kernel asks for, and a device that
/// does not answer it is one the master decides is absent. The trace of
/// that failing is a reset pulse every two thousand ticks, forever.
#[test]
fn the_device_answers_read_rom_with_its_identity() {
    let want = rom_id(0x2D, [1, 2, 3, 4, 5, 6]);
    let dev = OneWire { rom: want, ..Default::default() };
    let mut m = Master::new(dev);
    m.reset();
    m.write_byte(CMD_READ_ROM);
    let got: Vec<u8> = (0..8).map(|_| m.read_byte()).collect();
    assert_eq!(got, want.to_vec());
}

/// The last byte of an identity is Dallas's CRC-8 over the other seven,
/// and a master that checks it rejects one that is wrong.
#[test]
fn an_identity_carries_a_correct_checksum() {
    let id = rom_id(0x2D, [0xDE, 0xAD, 0xBE, 0xEF, 0x00, 0x01]);
    assert_eq!(id[7], crc8(&id[..7]));
    // The whole thing, checksum included, sums to zero. That is how a
    // master usually tests it.
    assert_eq!(crc8(&id), 0);
}

/// A dump is the identity followed by the memory, in the order the wire
/// hands them over.
#[test]
fn a_dump_is_read_as_identity_then_memory() {
    let mut dump = rom_id(0x2D, [9, 8, 7, 6, 5, 4]).to_vec();
    dump.extend_from_slice(b"payload");
    let dev = OneWire::from_dump(&dump);
    assert_eq!(dev.rom[1..7], [9, 8, 7, 6, 5, 4]);
    assert_eq!(&dev.data[..7], b"payload");
}

#[test]
fn a_host_can_read_back_what_the_device_holds() {
    let want = b"hello 1-wire";
    let got = read_from(OneWire::with_contents(want), 0, want.len());
    assert_eq!(got, want);
}

/// The address is two bytes, low first, and reading is sequential from
/// there. Getting the order wrong reads from the wrong end of the part.
#[test]
fn reading_starts_at_the_address_it_was_given() {
    let mut contents = [0u8; SIZE];
    for (i, c) in contents.iter_mut().enumerate() {
        *c = i as u8;
    }
    let got = read_from(OneWire::with_contents(&contents), 4, 4);
    assert_eq!(got, vec![4, 5, 6, 7]);
}

/// Every read starts with a reset, and the master takes the presence
/// pulse as proof something is there. Without one it decides the bus is
/// empty, which is what an unmodelled pin looks like.
#[test]
fn a_reset_is_answered_with_a_presence_pulse() {
    let mut dev = OneWire::default();
    let now = 1_000_000u32;
    dev.update(true, now);
    let after = now + RESET_LOW + 500;
    let level = dev.update(false, after);
    assert!(!level, "the device should be holding the line down");
    assert!(dev.line(after + PRESENCE_LOW + 1), "and let go again afterwards");
    assert!(!dev.line(after + PRESENCE_LOW / 2), "held long enough to be seen");
}

/// A record is a length, the data, and the sum of the data. KeySoft
/// checks the sum and rejects fifty times before it complains.
#[test]
fn a_record_carries_its_length_and_checksum() {
    let r = record(b"ABC");
    assert_eq!(r[0], 3, "length first");
    assert_eq!(&r[1..4], b"ABC");
    assert_eq!(r[4], b'A'.wrapping_add(b'B').wrapping_add(b'C'), "then the sum");
}

/// The whole path, as the machine walks it: a record written into the
/// part comes back out through the wire intact.
#[test]
fn a_record_survives_the_round_trip_over_the_wire() {
    let payload = b"50235 Australia BNB";
    let blob = record(payload);
    let got = read_from(OneWire::with_contents(&blob), 0, blob.len());
    assert_eq!(got, blob);
    let len = got[0] as usize;
    let sum = got[1..1 + len].iter().fold(0u8, |a, b| a.wrapping_add(*b));
    assert_eq!(sum, got[1 + len], "the checksum KeySoft computes must match");
}
