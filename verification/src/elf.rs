//! A minimal ELF reader: just enough to load a RISC-V test binary and find
//! the `tohost` symbol it reports results through.
//!
//! Hand-rolled rather than pulled from crates.io because the loader is part of
//! what is being verified -- a bug here looks exactly like a bug in the hart,
//! and the subset of ELF that matters is small enough to read in one sitting.

use crate::cpu::Xlen;
use crate::memory;
use crate::text;
use vstd::hash_map::StringHashMap;
use vstd::prelude::*;
use vstd::utf8::encode_utf8;

pub mod laws;

verus! {

/// A segment to place in memory.
#[verifier::ext_equal]
pub struct SegmentState {
    pub addr: u64,
    pub data: Seq<u8>,
    pub zero_len: u64,
}

/// What an executable says.
#[verifier::ext_equal]
pub struct ElfState {
    pub segments: Seq<SegmentState>,
    pub entry: u64,
    pub symbols: Map<Seq<char>, u64>,
    pub xlen: Xlen,
}

pub struct Segment {
    /// The physical address to load at.
    pub addr: u64,
    pub data: Vec<u8>,
    /// Bytes beyond `data` that must read as zero -- the .bss part of a segment.
    pub zero_len: u64,
}

impl View for Segment {
    type V = SegmentState;

    open spec fn view(&self) -> SegmentState {
        SegmentState { addr: self.addr, data: self.data@, zero_len: self.zero_len }
    }
}

pub struct Elf {
    /// Segments to place in memory.
    pub segments: Vec<Segment>,
    pub entry: u64,
    pub symbols: StringHashMap<u64>,
    /// The register width, which the file's class gives.
    pub xlen: Xlen,
}

impl View for Elf {
    type V = ElfState;

    open spec fn view(&self) -> ElfState {
        ElfState {
            segments: self.segments@.map_values(|s: Segment| s@),
            entry: self.entry,
            symbols: self.symbols@,
            xlen: self.xlen,
        }
    }
}

#[derive(Debug, Clone, Copy, PartialEq, Eq, Structural)]
pub enum ElfError {
    TooShort,
    NotElf,
    /// The class byte is neither that of ELF32 nor that of its 64-bit sibling.
    Not32Bit,
    NotLittleEndian,
    NotRiscv,
    NotExecutable,
}

impl ElfError {
    pub open spec fn spec_message(self) -> Seq<char> {
        match self {
            ElfError::TooShort => "file is too short to be an ELF"@,
            ElfError::NotElf => "missing the \\x7fELF magic"@,
            ElfError::Not32Bit => "neither ELF32 nor ELF64"@,
            ElfError::NotLittleEndian => "not little-endian"@,
            ElfError::NotRiscv => "not a RISC-V object (e_machine != 243)"@,
            ElfError::NotExecutable => "not an executable (e_type != ET_EXEC)"@,
        }
    }

    /// What to tell the user.
    pub fn message(&self) -> (r: &'static str)
        ensures
            r@ == self.spec_message(),
    {
        match self {
            ElfError::TooShort => "file is too short to be an ELF",
            ElfError::NotElf => "missing the \\x7fELF magic",
            ElfError::Not32Bit => "neither ELF32 nor ELF64",
            ElfError::NotLittleEndian => "not little-endian",
            ElfError::NotRiscv => "not a RISC-V object (e_machine != 243)",
            ElfError::NotExecutable => "not an executable (e_type != ET_EXEC)",
        }
    }
}

pub const PT_LOAD: u64 = 1;

pub const SHT_SYMTAB: u64 = 2;

pub const EM_RISCV: u64 = 243;

pub const ET_EXEC: u64 = 2;

/// Where each field lies in one of the two classes of file. The 64-bit class
/// is not the 32-bit one with wider fields: it reorders the program header
/// and the symbol as well.
pub struct Layout {
    pub xlen: Xlen,
    /// The size of an address or an offset, in bytes.
    pub word: u64,
    pub header: u64,
    // The file header.
    pub phoff: u64,
    pub shoff: u64,
    pub phentsize: u64,
    pub phnum: u64,
    pub shentsize: u64,
    pub shnum: u64,
    // A program header.
    pub p_offset: u64,
    pub p_paddr: u64,
    pub p_filesz: u64,
    pub p_memsz: u64,
    // A section header.
    pub sh_offset: u64,
    pub sh_size: u64,
    pub sh_link: u64,
    pub sh_entsize: u64,
    // A symbol.
    pub st_value: u64,
}

impl Layout {
    pub open spec fn elf32() -> Layout {
        Layout {
            xlen: Xlen::Rv32,
            word: 4,
            header: 52,
            phoff: 28,
            shoff: 32,
            phentsize: 42,
            phnum: 44,
            shentsize: 46,
            shnum: 48,
            p_offset: 4,
            p_paddr: 12,
            p_filesz: 16,
            p_memsz: 20,
            sh_offset: 16,
            sh_size: 20,
            sh_link: 24,
            sh_entsize: 36,
            st_value: 4,
        }
    }

    pub open spec fn elf64() -> Layout {
        Layout {
            xlen: Xlen::Rv64,
            word: 8,
            header: 64,
            phoff: 32,
            shoff: 40,
            phentsize: 54,
            phnum: 56,
            shentsize: 58,
            shnum: 60,
            p_offset: 8,
            p_paddr: 24,
            p_filesz: 32,
            p_memsz: 40,
            sh_offset: 24,
            sh_size: 32,
            sh_link: 40,
            sh_entsize: 56,
            st_value: 8,
        }
    }

    /// The layout of a class, as the file's fifth byte names it.
    pub open spec fn spec_of(class: u8) -> Option<Layout> {
        if class == 1 {
            Some(Layout::elf32())
        } else if class == 2 {
            Some(Layout::elf64())
        } else {
            None
        }
    }

    fn of(class: u8) -> (r: Option<Layout>)
        ensures
            r == Layout::spec_of(class),
    {
        match class {
            1 => Some(
                Layout {
                    xlen: Xlen::Rv32,
                    word: 4,
                    header: 52,
                    phoff: 28,
                    shoff: 32,
                    phentsize: 42,
                    phnum: 44,
                    shentsize: 46,
                    shnum: 48,
                    p_offset: 4,
                    p_paddr: 12,
                    p_filesz: 16,
                    p_memsz: 20,
                    sh_offset: 16,
                    sh_size: 20,
                    sh_link: 24,
                    sh_entsize: 36,
                    st_value: 4,
                },
            ),
            2 => Some(
                Layout {
                    xlen: Xlen::Rv64,
                    word: 8,
                    header: 64,
                    phoff: 32,
                    shoff: 40,
                    phentsize: 54,
                    phnum: 56,
                    shentsize: 58,
                    shnum: 60,
                    p_offset: 8,
                    p_paddr: 24,
                    p_filesz: 32,
                    p_memsz: 40,
                    sh_offset: 24,
                    sh_size: 32,
                    sh_link: 40,
                    sh_entsize: 56,
                    st_value: 8,
                },
            ),
            _ => None,
        }
    }
}

/// A little-endian number in the file. Out-of-range offsets yield 0, so that
/// a truncated file is rejected by the header checks instead of bringing the
/// process down.
pub open spec fn number_at(bytes: Seq<u8>, off: int, size: int) -> u64 {
    if 0 <= off && off + size <= bytes.len() {
        memory::le_value(bytes.subrange(off, off + size)) as u64
    } else {
        0
    }
}

fn read_number(bytes: &[u8], off: u128, size: u64) -> (r: u64)
    requires
        size <= 8,
        off <= u128::MAX - 8,
    ensures
        r == number_at(bytes@, off as int, size as int),
{
    if off + size as u128 > bytes.len() as u128 {
        return 0;
    }
    let start = off as usize;
    let mut v: u64 = 0;
    let mut b: usize = size as usize;
    assert(bytes@.subrange(start + b, start + size) =~= Seq::<u8>::empty());
    while b > 0
        invariant
            b <= size <= 8,
            start + size <= bytes.len(),
            v == memory::le_value(bytes@.subrange(start + b, start + size)),
        decreases b,
    {
        proof {
            let tail = bytes@.subrange(start + b, start + size);
            memory::lemma_le_value_bound(tail);
            crate::wide::lemma_pow2_monotone(8 * tail.len(), 56);
            vstd::arithmetic::power2::lemma2_to64_rest();
            let all = bytes@.subrange(start + b - 1, start + size);
            assert(all.drop_first() =~= tail);
        }
        b = b - 1;
        v = v * 256 + bytes[start + b] as u64;
    }
    v
}

/// A file that has passed the header checks.
pub struct File {
    pub bytes: Seq<u8>,
    pub layout: Layout,
}

impl File {
    pub open spec fn half(self, off: int) -> int {
        number_at(self.bytes, off, 2) as int
    }

    pub open spec fn word(self, off: int) -> int {
        number_at(self.bytes, off, 4) as int
    }

    /// An address or an offset, which has the width of the class.
    pub open spec fn addr(self, off: int) -> int {
        number_at(self.bytes, off, self.layout.word as int) as int
    }

    pub open spec fn program_header(self, i: int) -> int {
        self.addr(self.layout.phoff as int) + i * self.half(self.layout.phentsize as int)
    }

    pub open spec fn section_header(self, i: int) -> int {
        self.addr(self.layout.shoff as int) + i * self.half(self.layout.shentsize as int)
    }

    /// The segments from program header `i` on, after those already found.
    /// `None` where a segment's bytes are not all in the file.
    ///
    /// Program headers say what to load. The physical address is used rather
    /// than the virtual one: loading happens before any translation.
    pub open spec fn segments(self, found: Seq<SegmentState>, i: int) -> Option<Seq<SegmentState>>
        decreases self.half(self.layout.phnum as int) - i,
    {
        if i >= self.half(self.layout.phnum as int) {
            Some(found)
        } else {
            let ph = self.program_header(i);
            let offset = self.addr(ph + self.layout.p_offset);
            let filesz = self.addr(ph + self.layout.p_filesz);
            let memsz = self.addr(ph + self.layout.p_memsz);
            if self.word(ph) != PT_LOAD {
                self.segments(found, i + 1)
            } else if offset + filesz > self.bytes.len() {
                None
            } else {
                self.segments(
                    found.push(
                        SegmentState {
                            addr: self.addr(ph + self.layout.p_paddr) as u64,
                            data: self.bytes.subrange(offset, offset + filesz),
                            zero_len: (if memsz > filesz { memsz - filesz } else { 0 }) as u64,
                        },
                    ),
                    i + 1,
                )
            }
        }
    }

    /// Where the name that starts at `from` ends: at its first zero byte.
    pub open spec fn name_end(self, from: int) -> Option<int>
        decreases self.bytes.len() - from,
    {
        if from >= self.bytes.len() {
            None
        } else if self.bytes[from] == 0 {
            Some(from)
        } else {
            self.name_end(from + 1)
        }
    }

    /// The symbols with the one at offset `sym` added, if it has a name.
    pub open spec fn with_symbol(self, known: Map<Seq<char>, u64>, sym: int, strtab: int) -> Map<
        Seq<char>,
        u64,
    > {
        let start = strtab + self.word(sym);
        let value = self.addr(sym + self.layout.st_value) as u64;
        match self.name_end(start) {
            Some(end) => if end > start {
                known.insert(text::lossy(self.bytes.subrange(start, end)), value)
            } else {
                known
            },
            None => known,
        }
    }

    /// The symbols of a table, from position `s` in it on.
    pub open spec fn symbol_table(
        self,
        known: Map<Seq<char>, u64>,
        sh: int,
        strtab: int,
        s: int,
    ) -> Map<Seq<char>, u64>
        decreases
                (if s < self.addr(sh + self.layout.sh_size) {
                    self.addr(sh + self.layout.sh_size) - s
                } else {
                    0
                }),
    {
        let entsize = self.addr(sh + self.layout.sh_entsize);
        if s >= self.addr(sh + self.layout.sh_size) || entsize <= 0 {
            known
        } else {
            let sym = self.addr(sh + self.layout.sh_offset) + s;
            self.symbol_table(self.with_symbol(known, sym, strtab), sh, strtab, s + entsize)
        }
    }

    /// The string table that holds the names of a symbol table.
    pub open spec fn names_of(self, sh: int) -> int {
        let link = self.word(sh + self.layout.sh_link);
        self.addr(self.section_header(link) + self.layout.sh_offset)
    }

    /// The symbols of section `i` and those after it.
    pub open spec fn symbols(self, known: Map<Seq<char>, u64>, i: int) -> Map<Seq<char>, u64>
        decreases self.half(self.layout.shnum as int) - i,
    {
        if i >= self.half(self.layout.shnum as int) {
            known
        } else {
            let sh = self.section_header(i);
            if self.word(sh + 4) != SHT_SYMTAB {
                self.symbols(known, i + 1)
            } else {
                self.symbols(self.symbol_table(known, sh, self.names_of(sh), 0), i + 1)
            }
        }
    }
}

/// What a file says, or what is wrong with it.
pub open spec fn spec_parse(bytes: Seq<u8>) -> Result<ElfState, ElfError> {
    if bytes.len() < 52 {
        Err(ElfError::TooShort)
    } else if bytes.subrange(0, 4) != seq![0x7fu8, 0x45u8, 0x4cu8, 0x46u8] {
        Err(ElfError::NotElf)
    } else {
        match Layout::spec_of(bytes[4]) {
            None => Err(ElfError::Not32Bit),
            Some(layout) => {
                let file = File { bytes, layout };
                if bytes.len() < layout.header {
                    Err(ElfError::TooShort)
                } else if bytes[5] != 1 {
                    Err(ElfError::NotLittleEndian)
                } else if file.half(18) != EM_RISCV {
                    Err(ElfError::NotRiscv)
                } else if file.half(16) != ET_EXEC {
                    Err(ElfError::NotExecutable)
                } else {
                    match file.segments(Seq::empty(), 0) {
                        None => Err(ElfError::TooShort),
                        Some(segments) => Ok(
                            ElfState {
                                segments,
                                entry: file.addr(24) as u64,
                                symbols: file.symbols(Map::empty(), 0),
                                xlen: layout.xlen,
                            },
                        ),
                    }
                }
            },
        }
    }
}

/// A copy of a part of a file.
fn copy_range(bytes: &[u8], from: usize, to: usize) -> (r: Vec<u8>)
    requires
        from <= to <= bytes.len(),
    ensures
        r@ == bytes@.subrange(from as int, to as int),
{
    let mut data: Vec<u8> = Vec::new();
    let mut i: usize = from;
    while i < to
        invariant
            from <= i <= to <= bytes.len(),
            data@ == bytes@.subrange(from as int, i as int),
        decreases to - i,
    {
        data.push(bytes[i]);
        i = i + 1;
        assert(data@ =~= bytes@.subrange(from as int, i as int));
    }
    data
}

impl Elf {
    fn parse_segments(bytes: &[u8], layout: &Layout) -> (r: Result<Vec<Segment>, ElfError>)
        requires
            *layout == Layout::elf32() || *layout == Layout::elf64(),
        ensures
            match (File { bytes: bytes@, layout: *layout }).segments(Seq::empty(), 0) {
                Some(segments) => r matches Ok(v) && v@.map_values(|s: Segment| s@) == segments,
                None => r == Err::<Vec<Segment>, ElfError>(ElfError::TooShort),
            },
    {
        let ghost file = File { bytes: bytes@, layout: *layout };
        let phoff = read_number(bytes, layout.phoff as u128, layout.word) as u128;
        let phentsize = read_number(bytes, layout.phentsize as u128, 2) as u128;
        let phnum = read_number(bytes, layout.phnum as u128, 2) as u128;
        let mut segments: Vec<Segment> = Vec::new();
        let mut i: u128 = 0;
        let mut ph: u128 = phoff;
        proof {
            lemma_half_bound(file, layout.phentsize as int);
            lemma_half_bound(file, layout.phnum as int);
        }
        assert(segments@.map_values(|s: Segment| s@) =~= Seq::<SegmentState>::empty());
        while i < phnum
            invariant
                file == (File { bytes: bytes@, layout: *layout }),
                *layout == Layout::elf32() || *layout == Layout::elf64(),
                phoff == file.addr(layout.phoff as int),
                phentsize == file.half(layout.phentsize as int),
                phnum == file.half(layout.phnum as int),
                phentsize <= 0xffff,
                phnum <= 0xffff,
                i <= phnum,
                phoff <= u64::MAX,
                ph == phoff + i * phentsize,
                ph <= phoff + i * 0xffff,
                file.segments(Seq::empty(), 0) == file.segments(
                    segments@.map_values(|s: Segment| s@),
                    i as int,
                ),
            decreases phnum - i,
        {
            assert(ph == file.program_header(i as int));
            let kind = read_number(bytes, ph, 4);
            let here = ph;
            proof {
                assert((i + 1) * phentsize == i * phentsize + phentsize) by (nonlinear_arith);
            }
            i = i + 1;
            ph = ph + phentsize;
            if kind != PT_LOAD {
                continue ;
            }
            let offset = read_number(bytes, here + layout.p_offset as u128, layout.word);
            let paddr = read_number(bytes, here + layout.p_paddr as u128, layout.word);
            let filesz = read_number(bytes, here + layout.p_filesz as u128, layout.word);
            let memsz = read_number(bytes, here + layout.p_memsz as u128, layout.word);
            if offset as u128 + filesz as u128 > bytes.len() as u128 {
                return Err(ElfError::TooShort);
            }
            let data = copy_range(bytes, offset as usize, (offset + filesz) as usize);
            let segment = Segment {
                addr: paddr,
                data,
                zero_len: if memsz > filesz {
                    memsz - filesz
                } else {
                    0
                },
            };
            let ghost before = segments@;
            segments.push(segment);
            assert(segments@.map_values(|s: Segment| s@) =~= before.map_values(
                |s: Segment| s@,
            ).push(segment@));
        }
        Ok(segments)
    }

    /// Where the name that starts at `start` ends, if it starts in the file
    /// and ends there.
    fn name_end(bytes: &[u8], start: u128, layout: &Layout) -> (r: Option<usize>)
        ensures
            match (File { bytes: bytes@, layout: *layout }).name_end(start as int) {
                Some(end) => r == Some(end as usize) && start <= end < bytes.len(),
                None => r is None,
            },
    {
        let ghost file = File { bytes: bytes@, layout: *layout };
        if start >= bytes.len() as u128 {
            return None;
        }
        let mut at: usize = start as usize;
        while at < bytes.len()
            invariant
                file == (File { bytes: bytes@, layout: *layout }),
                start <= at <= bytes.len(),
                file.name_end(start as int) == file.name_end(at as int),
            decreases bytes.len() - at,
        {
            if bytes[at] == 0 {
                return Some(at);
            }
            at = at + 1;
        }
        None
    }

    fn add_symbol(
        bytes: &[u8],
        layout: &Layout,
        sym: u128,
        strtab: u64,
        symbols: &mut StringHashMap<u64>,
    )
        requires
            *layout == Layout::elf32() || *layout == Layout::elf64(),
            sym <= 0x4_0000_0000_0000_0000,
        ensures
            final(symbols)@ == (File { bytes: bytes@, layout: *layout }).with_symbol(
                old(symbols)@,
                sym as int,
                strtab as int,
            ),
    {
        let start = strtab as u128 + read_number(bytes, sym, 4) as u128;
        let value = read_number(bytes, sym + layout.st_value as u128, layout.word);
        match Self::name_end(bytes, start, layout) {
            Some(end) => {
                let from = start as usize;
                if end > from {
                    let name = copy_range(bytes, from, end);
                    symbols.insert(text::decode_lossy(name.as_slice()), value);
                }
            },
            None => {},
        }
    }

    fn add_symbol_table(
        bytes: &[u8],
        layout: &Layout,
        sh: u128,
        strtab: u64,
        symbols: &mut StringHashMap<u64>,
    )
        requires
            *layout == Layout::elf32() || *layout == Layout::elf64(),
            sh <= 0x4_0000_0000_0000_0000,
        ensures
            final(symbols)@ == (File { bytes: bytes@, layout: *layout }).symbol_table(
                old(symbols)@,
                sh as int,
                strtab as int,
                0,
            ),
    {
        let ghost file = File { bytes: bytes@, layout: *layout };
        let symoff = read_number(bytes, sh + layout.sh_offset as u128, layout.word) as u128;
        let symsize = read_number(bytes, sh + layout.sh_size as u128, layout.word) as u128;
        let entsize = read_number(bytes, sh + layout.sh_entsize as u128, layout.word) as u128;
        if entsize == 0 {
            return ;
        }
        let mut s: u128 = 0;
        while s < symsize
            invariant
                file == (File { bytes: bytes@, layout: *layout }),
                *layout == Layout::elf32() || *layout == Layout::elf64(),
                symoff == file.addr(sh + layout.sh_offset),
                symsize == file.addr(sh + layout.sh_size),
                entsize == file.addr(sh + layout.sh_entsize),
                0 < entsize <= u64::MAX,
                symoff <= u64::MAX,
                symsize <= u64::MAX,
                s <= symsize + entsize,
                file.symbol_table(old(symbols)@, sh as int, strtab as int, 0) == file.symbol_table(
                    symbols@,
                    sh as int,
                    strtab as int,
                    s as int,
                ),
            decreases symsize + entsize - s,
        {
            Self::add_symbol(bytes, layout, symoff + s, strtab, symbols);
            s = s + entsize;
        }
    }

    fn parse_symbols(bytes: &[u8], layout: &Layout) -> (r: StringHashMap<u64>)
        requires
            *layout == Layout::elf32() || *layout == Layout::elf64(),
        ensures
            r@ == (File { bytes: bytes@, layout: *layout }).symbols(Map::empty(), 0),
    {
        let ghost file = File { bytes: bytes@, layout: *layout };
        let shoff = read_number(bytes, layout.shoff as u128, layout.word) as u128;
        let shentsize = read_number(bytes, layout.shentsize as u128, 2) as u128;
        let shnum = read_number(bytes, layout.shnum as u128, 2) as u128;
        let mut symbols: StringHashMap<u64> = StringHashMap::new();
        let mut i: u128 = 0;
        let mut sh: u128 = shoff;
        proof {
            lemma_half_bound(file, layout.shentsize as int);
            lemma_half_bound(file, layout.shnum as int);
        }
        while i < shnum
            invariant
                file == (File { bytes: bytes@, layout: *layout }),
                *layout == Layout::elf32() || *layout == Layout::elf64(),
                shoff == file.addr(layout.shoff as int),
                shentsize == file.half(layout.shentsize as int),
                shnum == file.half(layout.shnum as int),
                shentsize <= 0xffff,
                shnum <= 0xffff,
                i <= shnum,
                shoff <= u64::MAX,
                sh == shoff + i * shentsize,
                sh <= shoff + i * 0xffff,
                file.symbols(Map::empty(), 0) == file.symbols(symbols@, i as int),
            decreases shnum - i,
        {
            assert(sh == file.section_header(i as int));
            let kind = read_number(bytes, sh + 4, 4);
            let here = sh;
            proof {
                assert((i + 1) * shentsize == i * shentsize + shentsize) by (nonlinear_arith);
            }
            i = i + 1;
            sh = sh + shentsize;
            if kind != SHT_SYMTAB {
                continue ;
            }
            // sh_link names the string table holding this symtab's names.
            let link = read_number(bytes, here + layout.sh_link as u128, 4) as u128;
            proof {
                lemma_word_bound(file, here + layout.sh_link);
                assert(0 <= link * shentsize <= 0xffff_ffff * 0xffff) by (nonlinear_arith)
                    requires
                        0 <= link <= 0xffff_ffff,
                        0 <= shentsize <= 0xffff,
                ;
            }
            let table = shoff + link * shentsize;
            let strtab = read_number(bytes, table + layout.sh_offset as u128, layout.word);
            Self::add_symbol_table(bytes, layout, here, strtab, &mut symbols);
        }
        symbols
    }

    pub fn parse(bytes: &[u8]) -> (r: Result<Elf, ElfError>)
        ensures
            match spec_parse(bytes@) {
                Ok(elf) => r matches Ok(v) && v@ == elf,
                Err(e) => r matches Err(f) && f == e,
            },
    {
        if bytes.len() < 52 {
            return Err(ElfError::TooShort);
        }
        proof {
            let magic = seq![0x7fu8, 0x45u8, 0x4cu8, 0x46u8];
            let first = bytes@.subrange(0, 4);
            assert(first == magic <==> first[0] == 0x7f && first[1] == 0x45 && first[2] == 0x4c
                && first[3] == 0x46) by {
                if first[0] == 0x7f && first[1] == 0x45 && first[2] == 0x4c && first[3] == 0x46 {
                    assert(first =~= magic);
                }
            }
        }
        if bytes[0] != 0x7f || bytes[1] != 0x45 || bytes[2] != 0x4c || bytes[3] != 0x46 {
            return Err(ElfError::NotElf);
        }
        let layout = match Layout::of(bytes[4]) {
            Some(layout) => layout,
            None => {
                return Err(ElfError::Not32Bit);
            },
        };
        if (bytes.len() as u64) < layout.header {
            return Err(ElfError::TooShort);
        }
        if bytes[5] != 1 {
            return Err(ElfError::NotLittleEndian);
        }
        if read_number(bytes, 18, 2) != EM_RISCV {
            return Err(ElfError::NotRiscv);
        }
        if read_number(bytes, 16, 2) != ET_EXEC {
            return Err(ElfError::NotExecutable);
        }
        let segments = match Self::parse_segments(bytes, &layout) {
            Ok(segments) => segments,
            Err(e) => {
                return Err(e);
            },
        };
        // Section headers carry the symbol table, which is how `tohost` is
        // found.
        let symbols = Self::parse_symbols(bytes, &layout);
        Ok(
            Elf {
                segments,
                entry: read_number(bytes, 24, layout.word),
                symbols,
                xlen: layout.xlen,
            },
        )
    }
}

proof fn lemma_half_bound(file: File, off: int)
    ensures
        file.half(off) <= 0xffff,
{
    vstd::arithmetic::power2::lemma2_to64();
    if 0 <= off && off + 2 <= file.bytes.len() {
        memory::lemma_le_value_bound(file.bytes.subrange(off, off + 2));
    }
}

proof fn lemma_word_bound(file: File, off: int)
    ensures
        file.word(off) <= 0xffff_ffff,
{
    vstd::arithmetic::power2::lemma2_to64();
    if 0 <= off && off + 4 <= file.bytes.len() {
        memory::lemma_le_value_bound(file.bytes.subrange(off, off + 4));
    }
}

/// A symbol is filed under its own letters: one whose bytes encode `name` is
/// found under `name`.
pub proof fn law_a_symbol_is_filed_under_its_name(
    file: File,
    known: Map<Seq<char>, u64>,
    sym: int,
    strtab: int,
    name: Seq<char>,
)
    requires
        ({
            let start = strtab + file.word(sym);
            &&& file.name_end(start) matches Some(end) && end > start && file.bytes.subrange(
                start,
                end,
            ) == encode_utf8(name)
        }),
    ensures
        file.with_symbol(known, sym, strtab) == known.insert(
            name,
            file.addr(sym + file.layout.st_value) as u64,
        ),
{
    text::law_encoded_text_comes_back(name);
}

} // verus!
