//! The VoiceNote QT keyboard, scanned through the CPLD.
//!
//! `pdikeybd.dll`'s scan routine drives CPLD register index 1, offset
//! `0x402`, like this:
//!
//! ```text
//! for column in 0..12 {
//!     write(1, 0x0d);          // idle
//!     read(1);                 // discarded
//!     delay(10);
//!     write(1, column);        // select
//!     read(1);                 // discarded
//!     delay(10);
//!     rows = read(1);          // eight row bits for this column
//!     delay(10);
//! }
//! write(1, 0x0c);              // park
//! ```
//!
//! The driver packs the result into six 16-bit words, even columns in the high
//! byte and odd columns in the low byte, giving 12 x 8 = 96 key positions.
//!
//! The virtual-key code for each position comes from a 96-byte table in
//! `pdikeybd.dll`, one 8-byte column at a time.

use vstd::prelude::*;

verus! {

/// GPIO the board pulls low while any key is down.
///
/// Windows CE does not poll this matrix: `pdikeybd.dll` waits on an interrupt
/// and only scans when it fires.
pub const KEY_DOWN_GPIO: u32 = 11;

/// Column selector meaning "no column driven".
pub const COLUMN_IDLE: u16 = 0x0D;
/// Column selector that ends a sweep.
pub const COLUMN_PARK: u16 = 0x0C;
pub const COLUMNS: usize = 12;
pub const ROWS: usize = 8;

/// Windows virtual-key codes by [column][row], from `pdikeybd.dll` at
/// `0x11a0`. Zero means no key at that position.
///
/// The driver carries eight of these and KeySoft chooses one at run time, so
/// this has to be the one it chose or every key comes out as a different key.
/// `0x11a0` is the VoiceNote English table.
pub const VOICENOTE_LAYOUT: [[u8; 8]; 12] = [
    [0x00, 0x00, 0x72, 0x5A, 0x31, 0x51, 0x00, 0x00],  // MENU Z 1 Q
    [0x70, 0x00, 0x00, 0x71, 0x1B, 0xA1, 0xA0, 0xA2],  // HELP RPT ESC RSHIFT LSHIFT CTRL
    [0x20, 0x00, 0x00, 0x43, 0x33, 0x45, 0x53, 0x00],  // SPACE C 3 E S
    [0x00, 0x00, 0x00, 0x58, 0x32, 0x57, 0x41, 0x71],  // X 2 W A RPT
    [0x00, 0x00, 0x00, 0x42, 0x35, 0x54, 0x46, 0x00],  // B 5 T F
    [0x09, 0x00, 0x00, 0x56, 0x34, 0x52, 0x44, 0x00],  // TAB V 4 R D
    [0x2E, 0x25, 0xDB, 0x4D, 0x37, 0x55, 0x48, 0x00],  // DEL LEFT [ M 7 U H
    [0xC0, 0x00, 0x00, 0x4E, 0x36, 0x59, 0x47, 0x00],  // ` N 6 Y G
    [0x00, 0x27, 0xDC, 0xBE, 0x39, 0x4F, 0x4B, 0x00],  // RIGHT \ . 9 O K
    [0x00, 0x28, 0xDD, 0xBC, 0x38, 0x49, 0x4A, 0x00],  // DOWN ] , 8 I J
    [0x00, 0x08, 0x0D, 0xA5, 0xBD, 0xBB, 0xBA, 0x00],  // BACK ENTER FUNCTION - + ;
    [0xA4, 0x26, 0xDE, 0xBF, 0x30, 0x50, 0x4C, 0x00],  // READ UP ' / 0 P L
];

// The keys the machine is labelled with that are not letters, digits or
// punctuation, with the codes KeySoft presses them as.

/// The QT keyboard's chord key. It is what `SPACE` is on a braille model.
pub const NAMED_READ: u8 = 0xA4;
/// Labelled `FUNCTION` on the machine, `[FN]` in KeySoft's notation.
pub const NAMED_FUNCTION: u8 = 0xA5;
/// The matrix carries the left-hand code; KeySoft presses the side-agnostic
/// `0x11`, and Windows CE treats them as the same key.
pub const NAMED_CONTROL: u8 = 0xA2;
pub const NAMED_SHIFT: u8 = 0xA0;
pub const NAMED_HELP: u8 = 0x70;
/// Say it again.
pub const NAMED_REPEAT: u8 = 0x71;
pub const NAMED_MENU: u8 = 0x72;
pub const NAMED_DELETE: u8 = 0x2E;
pub const NAMED_LEFT: u8 = 0x25;
pub const NAMED_UP: u8 = 0x26;
pub const NAMED_RIGHT: u8 = 0x27;
pub const NAMED_DOWN: u8 = 0x28;

pub struct Keyboard {
    /// Row bits per column; bit `r` set means the key at row `r` is down.
    pub columns: [u8; 12],
    /// Column most recently selected, or `None` while idle or parked.
    pub selected: Option<usize>,
    pub layout: [[u8; 8]; 12],
    /// Scans that came back with a key down. Pressing a key into the matrix
    /// is only half the job; this says whether the guest's scanner ever
    /// looked at the right column while it was held.
    pub scans_seen: u64,
    /// The same, per hardware column, so a particular key can be asked about
    /// rather than the matrix as a whole.
    pub scans_by_column: [u64; 12],
    /// Complete sweeps of the matrix.
    ///
    /// The driver parks the selector when it has been round all twelve
    /// columns, so a park is the end of a sweep and this counts them. Sweeps
    /// are the same question however many keys are down.
    pub sweeps: u64,
    /// Every read of the scan register, whether or not a key was under it.
    pub reads: u64,
}

impl Default for Keyboard {
    fn default() -> (r: Self)
        ensures
            r.at_rest(),
            r.wf(),
    {
        Keyboard {
            columns: [0; 12],
            selected: None,
            layout: VOICENOTE_LAYOUT,
            scans_seen: 0,
            scans_by_column: [0; 12],
            sweeps: 0,
            reads: 0,
        }
    }
}

/// The column of a hardware selector, in the key table: the driver reads each
/// pair of columns back in the opposite order to the one it put them in, so
/// within each pair the two trade places.
pub open spec fn paired(c: usize) -> usize {
    c ^ 1
}

/// Pairing stays on the matrix, and pairs back.
pub proof fn lemma_paired(c: usize)
    ensures
        c < 12 ==> paired(c) < 12,
        paired(paired(c)) == c,
{
    lemma_pairs(c);
}

impl Keyboard {
    /// The selector only ever names a column that exists.
    pub open spec fn wf(self) -> bool {
        self.selected matches Some(c) ==> c < COLUMNS
    }

    /// No key down, no column selected, nothing counted yet.
    pub open spec fn at_rest(self) -> bool {
        &&& self.columns@ =~= Seq::new(12, |i: int| 0u8)
        &&& self.selected is None
        &&& self.layout == VOICENOTE_LAYOUT
        &&& self.scans_seen == 0
        &&& self.scans_by_column@ =~= Seq::new(12, |i: int| 0u64)
        &&& self.sweeps == 0
        &&& self.reads == 0
    }

    /// The code at position `n`, counting down each column in turn.
    pub open spec fn code_at(self, n: int) -> u8 {
        self.layout[n / 8][n % 8]
    }

    /// The first position from `n` on that carries `vk`.
    pub open spec fn found_from(self, vk: u8, n: int) -> Option<int>
        decreases 96 - n,
    {
        if n >= 96 {
            None
        } else if self.code_at(n) == vk {
            Some(n)
        } else {
            self.found_from(vk, n + 1)
        }
    }

    /// The matrix position of a key: the first that carries its code.
    pub open spec fn place_of(self, vk: u8) -> Option<int> {
        if vk == 0 {
            None
        } else {
            self.found_from(vk, 0)
        }
    }

    pub open spec fn with_key(self, vk: u8, down: bool) -> Keyboard {
        match self.place_of(vk) {
            Some(n) => {
                let c = n / 8;
                let bit = 1u8 << ((n % 8) as u8);
                Keyboard {
                    columns: vstd::array::spec_array_update(
                        self.columns,
                        c,
                        if down {
                            self.columns[c] | bit
                        } else {
                            self.columns[c] & !bit
                        },
                    ),
                    ..self
                }
            },
            None => self,
        }
    }

    pub open spec fn after_select(self, value: u16) -> Keyboard {
        let v = value & 0xFF;
        Keyboard {
            sweeps: if v == COLUMN_PARK {
                self.sweeps.wrapping_add(1)
            } else {
                self.sweeps
            },
            selected: if v >= COLUMNS {
                None
            } else {
                Some(v as usize)
            },
            ..self
        }
    }

    /// The row bits that the scan register shows.
    pub open spec fn rows(self) -> u16 {
        match self.selected {
            Some(c) => self.columns[paired(c) as int] as u16,
            None => 0,
        }
    }

    pub open spec fn after_rows(self) -> Keyboard {
        let s = Keyboard { reads: self.reads.wrapping_add(1), ..self };
        if self.rows() == 0 {
            s
        } else {
            Keyboard {
                scans_seen: s.scans_seen.wrapping_add(1),
                scans_by_column: match s.selected {
                    Some(c) => vstd::array::spec_array_update(
                        s.scans_by_column,
                        c as int,
                        s.scans_by_column[c as int].wrapping_add(1),
                    ),
                    None => s.scans_by_column,
                },
                ..s
            }
        }
    }

    proof fn lemma_found(self, vk: u8, n: int)
        requires
            0 <= n <= 96,
        ensures
            match self.found_from(vk, n) {
                Some(m) => n <= m < 96 && self.code_at(m) == vk && forall|k: int|
                    n <= k < m ==> #[trigger] self.code_at(k) != vk,
                None => forall|k: int| n <= k < 96 ==> #[trigger] self.code_at(k) != vk,
            },
        decreases 96 - n,
    {
        if n < 96 && self.code_at(n) != vk {
            self.lemma_found(vk, n + 1);
        }
    }

    /// Find the matrix position of a Windows virtual-key code, as column and
    /// row. A code that stands twice is found at the first of its places.
    pub fn position_of(&self, vk: u8) -> (r: Option<(usize, usize)>)
        ensures
            match r {
                Some((c, row)) => c < COLUMNS && row < ROWS && self.place_of(vk) == Some(
                    8 * c + row,
                ) && self.layout[c as int][row as int] == vk,
                None => self.place_of(vk) is None,
            },
    {
        if vk == 0 {
            return None;
        }
        let mut n: usize = 0;
        while n < 96
            invariant
                n <= 96,
                self.found_from(vk, 0) == self.found_from(vk, n as int),
                vk != 0,
            decreases 96 - n,
        {
            if self.layout[n / 8][n % 8] == vk {
                return Some((n / 8, n % 8));
            }
            n = n + 1;
        }
        None
    }

    pub fn set_key(&mut self, vk: u8, down: bool) -> (r: bool)
        ensures
            r == (old(self).place_of(vk) is Some),
            *final(self) == old(self).with_key(vk, down),
    {
        match self.position_of(vk) {
            Some((c, r)) => {
                if down {
                    self.columns[c] = self.columns[c] | (1u8 << (r as u8));
                } else {
                    self.columns[c] = self.columns[c] & !(1u8 << (r as u8));
                }
                true
            },
            None => false,
        }
    }

    /// How many scans have looked at this key's column and found something
    /// down. `None` if the key is not on this keyboard at all.
    ///
    /// The column the hardware drives is the table column with its low bit
    /// flipped; see [`Keyboard::read_rows`].
    pub fn scans_of(&self, vk: u8) -> (r: Option<u64>)
        ensures
            r == (match self.place_of(vk) {
                Some(n) => Some(self.scans_by_column[paired((n / 8) as usize) as int]),
                None => None,
            }),
    {
        match self.position_of(vk) {
            Some((c, _)) => {
                proof {
                    lemma_paired(c);
                }
                Some(self.scans_by_column[c ^ 1])
            },
            None => None,
        }
    }

    pub fn release_all(&mut self)
        ensures
            *final(self) == (Keyboard { columns: final(self).columns, ..*old(self) }),
            final(self).columns@ =~= Seq::new(12, |i: int| 0u8),
    {
        self.columns = [0; 12];
    }

    pub fn any_down(&self) -> (r: bool)
        ensures
            r == exists|c: int| 0 <= c < 12 && #[trigger] self.columns[c] != 0,
    {
        let mut c: usize = 0;
        while c < COLUMNS
            invariant
                c <= COLUMNS,
                forall|k: int| 0 <= k < c ==> #[trigger] self.columns[k] == 0,
            decreases COLUMNS - c,
        {
            if self.columns[c] != 0 {
                return true;
            }
            c = c + 1;
        }
        false
    }

    /// A write to the scan register selects a column.
    pub fn write_select(&mut self, value: u16)
        ensures
            *final(self) == old(self).after_select(value),
            final(self).wf(),
    {
        let v: u16 = value & 0xFF;
        if v == COLUMN_PARK {
            self.sweeps = self.sweeps.wrapping_add(1);
        }
        self.selected = if v == COLUMN_IDLE || v == COLUMN_PARK || v as usize >= COLUMNS {
            None
        } else {
            Some(v as usize)
        };
    }

    /// A read of the scan register returns the selected column's row bits.
    ///
    /// The column the hardware drives and the column the key table is indexed
    /// by are not the same number: they differ by one in the low bit. The
    /// driver packs its twelve columns into six 16-bit words, one pair per
    /// word, and reads the pair back out in the opposite order to the one it
    /// put them in, so within each pair the two columns trade places.
    ///
    /// It is invisible in the letters: every letter and digit lands on a key
    /// that still types *something*. It shows up on the punctuation, where
    /// Enter at table column 10 comes back as the apostrophe at column 11.
    pub fn read_rows(&mut self) -> (r: u16)
        requires
            old(self).wf(),
        ensures
            r == old(self).rows(),
            *final(self) == old(self).after_rows(),
            final(self).wf(),
    {
        self.reads = self.reads.wrapping_add(1);
        let rows: u16 = match self.selected {
            Some(c) => {
                proof {
                    lemma_paired(c);
                }
                self.columns[c ^ 1] as u16
            },
            None => 0,
        };
        if rows != 0 {
            self.scans_seen = self.scans_seen.wrapping_add(1);
            if let Some(c) = self.selected {
                self.scans_by_column[c] = self.scans_by_column[c].wrapping_add(1);
            }
        }
        rows
    }
}

/// A key pressed on an idle keyboard is seen on exactly one hardware column,
/// in its own row, and the driver's table gives its code back from there.
pub proof fn law_every_key_reads_back_as_itself(k: Keyboard, vk: u8, hw: usize)
    requires
        k.place_of(vk) is Some,
        forall|c: int| 0 <= c < 12 ==> #[trigger] k.columns[c] == 0,
        hw < 12,
    ensures
        ({
            let n = k.place_of(vk)->0;
            let pressed = Keyboard { selected: Some(hw), ..k.with_key(vk, true) };
            &&& pressed.rows() == (if hw == paired((n / 8) as usize) {
                (1u8 << ((n % 8) as u8)) as u16
            } else {
                0u16
            })
            &&& pressed.rows() != 0 ==> k.layout[paired(hw) as int][n % 8] == vk
        }),
{
    k.lemma_found(vk, 0);
    let n = k.place_of(vk)->0;
    let c = (n / 8) as usize;
    let r = (n % 8) as u8;
    lemma_paired(c);
    lemma_paired(hw);
    lemma_row_bits(0, r, r);
}

/// Only parking the selector ends a sweep: nothing about the keys, or how
/// many of them are down, counts.
pub proof fn law_only_parking_ends_a_sweep(k: Keyboard, vk: u8, down: bool, value: u16)
    ensures
        k.after_rows().sweeps == k.sweeps,
        k.with_key(vk, down).sweeps == k.sweeps,
        k.after_select(value).sweeps == (if value & 0xFF == COLUMN_PARK {
            k.sweeps.wrapping_add(1)
        } else {
            k.sweeps
        }),
{
}

/// Releasing a key undoes pressing it.
pub proof fn law_releasing_undoes_pressing(k: Keyboard, vk: u8)
    requires
        k.place_of(vk) is Some,
        ({
            let n = k.place_of(vk)->0;
            k.columns[n / 8] & (1u8 << ((n % 8) as u8)) == 0
        }),
    ensures
        k.with_key(vk, true).with_key(vk, false).columns@ == k.columns@,
{
    k.lemma_found(vk, 0);
    let n = k.place_of(vk)->0;
    let pressed = k.with_key(vk, true);
    assert(pressed.place_of(vk) == k.place_of(vk)) by {
        lemma_same_layout(pressed, k, vk, 0);
    }
    let w = k.columns[n / 8];
    let r = (n % 8) as u8;
    lemma_row_bits(w, r, r);
    assert(pressed.with_key(vk, false).columns@ =~= k.columns@);
}

proof fn lemma_same_layout(a: Keyboard, b: Keyboard, vk: u8, n: int)
    requires
        a.layout == b.layout,
        0 <= n <= 96,
    ensures
        a.found_from(vk, n) == b.found_from(vk, n),
    decreases 96 - n,
{
    if n < 96 {
        lemma_same_layout(a, b, vk, n + 1);
    }
}

/// Pressing or releasing a key moves its own position in the matrix and no
/// other, however many keys are down.
pub proof fn law_keys_do_not_disturb_one_another(
    k: Keyboard,
    vk: u8,
    down: bool,
    c: int,
    r: u8,
)
    requires
        0 <= c < 12,
        r < 8,
    ensures
        ({
            let after = k.with_key(vk, down);
            let own = k.place_of(vk) == Some(8 * c + r);
            &&& (after.columns[c] & (1u8 << r) != 0) == if own {
                down
            } else {
                k.columns[c] & (1u8 << r) != 0
            }
            &&& after.layout == k.layout
            &&& after.selected == k.selected
        }),
{
    match k.place_of(vk) {
        Some(n) => {
            k.lemma_found(vk, 0);
            lemma_row_bits(k.columns[n / 8], (n % 8) as u8, r);
        },
        None => {},
    }
}

/// A key is at the first place of the table that has its code, and a code that
/// is nowhere in the table, or is zero, has no place.
pub proof fn law_a_key_is_where_the_table_has_it(k: Keyboard, vk: u8)
    ensures
        match k.place_of(vk) {
            Some(n) => {
                &&& 0 <= n < 96
                &&& vk != 0
                &&& k.layout[n / 8][n % 8] == vk
                &&& forall|m: int| 0 <= m < n ==> #[trigger] k.code_at(m) != vk
            },
            None => vk == 0 || forall|m: int| 0 <= m < 96 ==> #[trigger] k.code_at(m) != vk,
        },
{
    k.lemma_found(vk, 0);
}

/// The selector drives one of the twelve columns, or none; what is read is then
/// the rows of that column, the columns of each pair having traded places, and
/// nothing where none is driven.
pub proof fn law_the_selector_picks_a_column(k: Keyboard, value: u16)
    ensures
        ({
            let s = k.after_select(value);
            let v = value & 0xFF;
            &&& v < 12 && v % 2 == 0 ==> s.rows() == k.columns[v + 1]
            &&& v < 12 && v % 2 == 1 ==> s.rows() == k.columns[v - 1]
            &&& v >= 12 ==> s.rows() == 0
            &&& s.columns == k.columns
        }),
{
    let v = value & 0xFF;
    lemma_pairs((v as usize) as usize);
}

/// A scan is counted, and a scan that finds something down is counted again,
/// for the column that was driven.
pub proof fn law_scans_are_counted(k: Keyboard, c: int)
    requires
        k.wf(),
        0 <= c < 12,
        k.reads < u64::MAX,
        k.scans_seen < u64::MAX,
        k.scans_by_column[c] < u64::MAX,
    ensures
        ({
            let after = k.after_rows();
            let found = k.rows() != 0;
            &&& after.reads == k.reads + 1
            &&& after.scans_seen == k.scans_seen + (if found {
                1int
            } else {
                0
            })
            &&& after.scans_by_column[c] == k.scans_by_column[c] + (if found && k.selected == Some(
                c as usize,
            ) {
                1int
            } else {
                0
            })
            &&& after.columns == k.columns
        }),
{
}

/// Columns trade places in pairs.
proof fn lemma_pairs(c: usize)
    ensures
        c < 12 && c % 2 == 0 ==> paired(c) == c + 1,
        c < 12 && c % 2 == 1 ==> paired(c) == c - 1,
        c < 12 ==> paired(c) < 12,
        paired(paired(c)) == c,
{
    assert((c < 12 && c % 2 == 0 ==> (c ^ 1) == c + 1) && (c < 12 && c % 2 == 1 ==> (c ^ 1) == c
        - 1) && (c < 12 ==> (c ^ 1) < 12) && (c ^ 1) ^ 1 == c) by (bit_vector);
}

/// What setting and clearing a row does to the rows of a column.
proof fn lemma_row_bits(w: u8, r: u8, s: u8)
    requires
        r < 8,
        s < 8,
    ensures
        (w | (1u8 << r)) & (1u8 << r) != 0,
        (w & !(1u8 << r)) & (1u8 << r) == 0,
        r != s ==> (w | (1u8 << r)) & (1u8 << s) == w & (1u8 << s),
        r != s ==> (w & !(1u8 << r)) & (1u8 << s) == w & (1u8 << s),
        w & (1u8 << r) == 0 ==> (w | (1u8 << r)) & !(1u8 << r) == w,
        0u8 | (1u8 << r) == 1u8 << r,
        (1u8 << r) != 0,
{
    assert((w | (1u8 << r)) & (1u8 << r) != 0 && (w & !(1u8 << r)) & (1u8 << r) == 0 && (r != s ==> (
    w | (1u8 << r)) & (1u8 << s) == w & (1u8 << s) && (w & !(1u8 << r)) & (1u8 << s) == w & (1u8
        << s)) && (w & (1u8 << r) == 0 ==> (w | (1u8 << r)) & !(1u8 << r) == w) && 0u8 | (1u8 << r)
        == 1u8 << r && (1u8 << r) != 0) by (bit_vector)
        requires
            r < 8,
            s < 8,
    ;
}

} // verus!
