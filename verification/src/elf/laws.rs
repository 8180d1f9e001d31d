//! What is read from an executable, said of its bytes: which offsets hold what
//! in the two classes of file.

use crate::cpu::isa;
use crate::cpu::Xlen;
use crate::elf::{self, ElfError, ElfState, File, Layout, SegmentState};
use crate::text;
use vstd::prelude::*;

verus! {

/// The little-endian number in `n` bytes of a file, or 0 past its end.
pub open spec fn at(b: Seq<u8>, off: int, n: int) -> int {
    if 0 <= off && off + n <= b.len() {
        isa::number(b, off, n)
    } else {
        0
    }
}

/// Whether the file is of the 64-bit class.
pub open spec fn wide(b: Seq<u8>) -> bool {
    b[4] == 2
}

/// One of two numbers, by class.
pub open spec fn by_class(b: Seq<u8>, narrow: int, broad: int) -> int {
    if wide(b) {
        broad
    } else {
        narrow
    }
}

/// The size of an address.
pub open spec fn size(b: Seq<u8>) -> int {
    by_class(b, 4, 8)
}

/// How many program headers there are.
pub open spec fn headers(b: Seq<u8>) -> int {
    at(b, by_class(b, 44, 56), 2)
}

/// Where program header `i` is.
pub open spec fn header(b: Seq<u8>, i: int) -> int {
    at(b, by_class(b, 28, 32), size(b)) + i * at(b, by_class(b, 42, 54), 2)
}

/// Whether program header `i` is one to load.
pub open spec fn is_load(b: Seq<u8>, i: int) -> bool {
    at(b, header(b, i), 4) == 1
}

/// Where the bytes of its segment start in the file, and how many there are.
pub open spec fn start(b: Seq<u8>, i: int) -> int {
    at(b, header(b, i) + by_class(b, 4, 8), size(b))
}

pub open spec fn length(b: Seq<u8>, i: int) -> int {
    at(b, header(b, i) + by_class(b, 16, 32), size(b))
}

/// The segment a header describes: its bytes go to its physical address, and
/// what its size in memory exceeds them by is cleared.
pub open spec fn segment(b: Seq<u8>, i: int) -> SegmentState {
    let memory = at(b, header(b, i) + by_class(b, 20, 40), size(b));
    SegmentState {
        addr: at(b, header(b, i) + by_class(b, 12, 24), size(b)) as u64,
        data: b.subrange(start(b, i), start(b, i) + length(b, i)),
        zero_len: (if memory > length(b, i) {
            memory - length(b, i)
        } else {
            0
        }) as u64,
    }
}

/// How many of the first `n` headers are ones to load.
pub open spec fn loads(b: Seq<u8>, n: int) -> nat
    decreases n,
{
    if n <= 0 {
        0
    } else {
        loads(b, n - 1) + if is_load(b, n - 1) {
            1nat
        } else {
            0nat
        }
    }
}

/// Whether a header that is one to load has all its bytes in the file.
pub open spec fn is_whole(b: Seq<u8>, i: int) -> bool {
    is_load(b, i) ==> start(b, i) + length(b, i) <= b.len()
}

proof fn lemma_at(b: Seq<u8>, off: int, n: int)
    requires
        n == 2 || n == 4 || n == 8,
    ensures
        elf::number_at(b, off, n) == at(b, off, n),
        0 <= at(b, off, n) <= u64::MAX,
{
    if 0 <= off && off + n <= b.len() {
        isa::lemma_number(b, off, n);
        vstd::arithmetic::power2::lemma2_to64();
        vstd::arithmetic::power2::lemma2_to64_rest();
    }
}

/// The file as the reader sees it.
pub open spec fn file(b: Seq<u8>) -> File {
    File {
        bytes: b,
        layout: if wide(b) {
            Layout::elf64()
        } else {
            Layout::elf32()
        },
    }
}

proof fn lemma_header(b: Seq<u8>, i: int)
    ensures
        file(b).half(file(b).layout.phnum as int) == headers(b),
        file(b).program_header(i) == header(b, i),
        (file(b).word(header(b, i)) != 1) == !is_load(b, i),
        file(b).addr(header(b, i) + file(b).layout.p_offset) == start(b, i),
        file(b).addr(header(b, i) + file(b).layout.p_filesz) == length(b, i),
        ({
            let memsz = file(b).addr(header(b, i) + file(b).layout.p_memsz);
            &&& file(b).addr(header(b, i) + file(b).layout.p_paddr) as u64 == segment(b, i).addr
            &&& (if memsz > length(b, i) { memsz - length(b, i) } else { 0 }) as u64 == segment(
                b,
                i,
            ).zero_len
        }),
        start(b, i) >= 0,
        length(b, i) >= 0,
{
    let h = header(b, i);
    lemma_at(b, by_class(b, 44, 56), 2);
    lemma_at(b, by_class(b, 28, 32), size(b));
    lemma_at(b, by_class(b, 42, 54), 2);
    lemma_at(b, h, 4);
    lemma_at(b, h + by_class(b, 4, 8), size(b));
    lemma_at(b, h + by_class(b, 12, 24), size(b));
    lemma_at(b, h + by_class(b, 16, 32), size(b));
    lemma_at(b, h + by_class(b, 20, 40), size(b));
}

proof fn lemma_loads_grow(b: Seq<u8>, i: int, j: int)
    requires
        0 <= i <= j,
    ensures
        loads(b, i) <= loads(b, j),
        i < j && is_load(b, i) ==> loads(b, i) < loads(b, j),
    decreases j,
{
    if i < j {
        lemma_loads_grow(b, i, j - 1);
    }
}

/// Whether every header from `i` on has all its bytes in the file.
pub open spec fn all_whole(b: Seq<u8>, i: int) -> bool {
    forall|k: int| i <= k < headers(b) ==> #[trigger] is_whole(b, k)
}

proof fn lemma_all_whole(b: Seq<u8>, i: int)
    requires
        i < headers(b),
    ensures
        all_whole(b, i) <==> is_whole(b, i) && all_whole(b, i + 1),
{
    if is_whole(b, i) && all_whole(b, i + 1) {
        assert forall|k: int| i <= k < headers(b) implies #[trigger] is_whole(b, k) by {
            if k > i {
                assert(i + 1 <= k);
            }
        }
    }
}

/// What the headers from `i` on add to the segments found before them: `j` is
/// one of those found, and `k` one of the headers.
proof fn lemma_segments(b: Seq<u8>, found: Seq<SegmentState>, i: int, j: int, k: int)
    requires
        0 <= i <= headers(b),
        found.len() == loads(b, i),
    ensures
        file(b).segments(found, i) is Some <==> all_whole(b, i),
        file(b).segments(found, i) matches Some(all) ==> {
            &&& all.len() == loads(b, headers(b))
            &&& 0 <= j < found.len() ==> j < all.len() && all[j] == found[j]
            &&& i <= k < headers(b) && is_load(b, k) ==> loads(b, k) < all.len() && all[loads(
                b,
                k,
            ) as int] == segment(b, k)
        },
    decreases headers(b) - i,
{
    lemma_header(b, i);
    if i < headers(b) {
        lemma_all_whole(b, i);
        if !is_load(b, i) {
            lemma_segments(b, found, i + 1, j, k);
        } else if start(b, i) + length(b, i) <= b.len() {
            let more = found.push(segment(b, i));
            lemma_segments(b, more, i + 1, j, k);
            if k == i {
                lemma_segments(b, more, i + 1, loads(b, i) as int, k);
            }
            assert(file(b).segments(found, i) == file(b).segments(more, i + 1));
        }
    }
}

/// Whether the header of a file says that it is an executable of this machine:
/// the magic number, one of the two classes, little-endian, `e_machine` 243
/// and `e_type` 2, in a file no shorter than its header.
pub open spec fn is_ours(b: Seq<u8>) -> bool {
    &&& b.len() >= 52
    &&& b[0] == 0x7f && b[1] == 0x45 && b[2] == 0x4c && b[3] == 0x46
    &&& b[4] == 1 || b[4] == 2 && b.len() >= 64
    &&& b[5] == 1
    &&& at(b, 18, 2) == 243
    &&& at(b, 16, 2) == 2
}

proof fn lemma_magic(b: Seq<u8>)
    requires
        b.len() >= 52,
    ensures
        b.subrange(0, 4) == seq![0x7fu8, 0x45u8, 0x4cu8, 0x46u8] <==> b[0] == 0x7f && b[1] == 0x45
            && b[2] == 0x4c && b[3] == 0x46,
{
    let magic = seq![0x7fu8, 0x45u8, 0x4cu8, 0x46u8];
    let head = b.subrange(0, 4);
    if b[0] == 0x7f && b[1] == 0x45 && b[2] == 0x4c && b[3] == 0x46 {
        assert(head =~= magic);
    }
    if head == magic {
        assert(head[0] == b[0] && head[1] == b[1] && head[2] == b[2] && head[3] == b[3]);
    }
}

proof fn lemma_parsed(b: Seq<u8>)
    ensures
        elf::spec_parse(b) is Ok <==> is_ours(b) && file(b).segments(Seq::empty(), 0) is Some,
        elf::spec_parse(b) matches Ok(e) ==> {
            &&& Some(e.segments) == file(b).segments(Seq::empty(), 0)
            &&& e.entry == at(b, 24, size(b))
            &&& e.symbols == file(b).symbols(Map::empty(), 0)
            &&& e.xlen == if wide(b) { Xlen::Rv64 } else { Xlen::Rv32 }
        },
        b.len() >= 52 && !(b[0] == 0x7f && b[1] == 0x45 && b[2] == 0x4c && b[3] == 0x46)
            ==> elf::spec_parse(b) == Err::<ElfState, ElfError>(ElfError::NotElf),
{
    if b.len() >= 52 {
        lemma_magic(b);
        lemma_at(b, 18, 2);
        lemma_at(b, 16, 2);
        lemma_at(b, 24, size(b));
    }
}

/// A file is read exactly where its header is in order and the bytes of every
/// segment are there, and otherwise the first thing wrong with it is named.
pub proof fn law_what_is_an_executable(b: Seq<u8>)
    ensures
        elf::spec_parse(b) is Ok <==> is_ours(b) && all_whole(b, 0),
        ({
            let r = elf::spec_parse(b);
            let magic = b[0] == 0x7f && b[1] == 0x45 && b[2] == 0x4c && b[3] == 0x46;
            if b.len() < 52 {
                r == Err::<ElfState, ElfError>(ElfError::TooShort)
            } else if !magic {
                r == Err::<ElfState, ElfError>(ElfError::NotElf)
            } else if b[4] != 1 && b[4] != 2 {
                r == Err::<ElfState, ElfError>(ElfError::Not32Bit)
            } else if b[4] == 2 && b.len() < 64 {
                r == Err::<ElfState, ElfError>(ElfError::TooShort)
            } else if b[5] != 1 {
                r == Err::<ElfState, ElfError>(ElfError::NotLittleEndian)
            } else if at(b, 18, 2) != 243 {
                r == Err::<ElfState, ElfError>(ElfError::NotRiscv)
            } else if at(b, 16, 2) != 2 {
                r == Err::<ElfState, ElfError>(ElfError::NotExecutable)
            } else {
                r matches Err(e) ==> e == ElfError::TooShort
            }
        }),
{
    lemma_parsed(b);
    if b.len() >= 52 {
        lemma_magic(b);
        lemma_at(b, 18, 2);
        lemma_at(b, 16, 2);
        lemma_at(b, by_class(b, 44, 56), 2);
        lemma_segments(b, Seq::empty(), 0, 0, 0);
    }
}

/// Every program header of type 1 gives one segment, in the order of the
/// headers, and no other header gives any. Header `i` is `e_phentsize` bytes
/// times `i` after `e_phoff`.
pub proof fn law_each_load_header_gives_its_segment(b: Seq<u8>, i: int)
    requires
        elf::spec_parse(b) is Ok,
    ensures
        ({
            let e = elf::spec_parse(b)->Ok_0;
            &&& e.segments.len() == loads(b, headers(b))
            &&& 0 <= i < headers(b) && is_load(b, i) ==> {
                &&& loads(b, i) < e.segments.len()
                &&& e.segments[loads(b, i) as int] == segment(b, i)
            }
        }),
{
    lemma_parsed(b);
    lemma_at(b, by_class(b, 44, 56), 2);
    lemma_segments(b, Seq::empty(), 0, 0, i);
}

/// The entry point is the address at offset 24, and the register width is that
/// of the class.
pub proof fn law_the_entry_and_the_width(b: Seq<u8>)
    requires
        elf::spec_parse(b) is Ok,
    ensures
        elf::spec_parse(b)->Ok_0.entry == at(b, 24, by_class(b, 4, 8)),
        elf::spec_parse(b)->Ok_0.xlen == if b[4] == 2 { Xlen::Rv64 } else { Xlen::Rv32 },
{
    lemma_parsed(b);
}

/// How many section headers there are.
pub open spec fn sections(b: Seq<u8>) -> int {
    at(b, by_class(b, 48, 60), 2)
}

/// Where section header `i` is.
pub open spec fn section(b: Seq<u8>, i: int) -> int {
    at(b, by_class(b, 32, 40), size(b)) + i * at(b, by_class(b, 46, 58), 2)
}

/// Whether section `i` is a symbol table.
pub open spec fn is_table(b: Seq<u8>, i: int) -> bool {
    at(b, section(b, i) + 4, 4) == 2
}

/// Where the contents of section `i` start.
pub open spec fn contents(b: Seq<u8>, i: int) -> int {
    at(b, section(b, i) + by_class(b, 16, 24), size(b))
}

/// Whether `off` is the offset of a symbol in section `i`: a multiple of the
/// size of an entry, below the size of the section.
pub open spec fn is_entry(b: Seq<u8>, i: int, off: int) -> bool {
    let entry = at(b, section(b, i) + by_class(b, 36, 56), size(b));
    &&& entry > 0
    &&& 0 <= off < at(b, section(b, i) + by_class(b, 20, 32), size(b))
    &&& off % entry == 0
}

/// Whether the symbol at an offset in section `i` is called `name`: the bytes
/// from its first four bytes' offset into the linked string table, up to the
/// first zero, are not none and read `name`.
pub open spec fn is_called(b: Seq<u8>, i: int, off: int, name: Seq<char>) -> bool {
    let link = at(b, section(b, i) + by_class(b, 24, 40), 4);
    let from = contents(b, link) + at(b, contents(b, i) + off, 4);
    exists|end: int| #[trigger] is_text(b, from, end) && text::lossy(b.subrange(from, end)) == name
}

/// Whether the bytes from `from` to `end` are some, none of them zero, and a
/// zero follows.
pub open spec fn is_text(b: Seq<u8>, from: int, end: int) -> bool {
    &&& 0 <= from < end < b.len()
    &&& b[end] == 0
    &&& forall|k: int| from <= k < end ==> b[k] != 0
}

/// The value of the symbol at an offset in section `i`.
pub open spec fn value(b: Seq<u8>, i: int, off: int) -> u64 {
    at(b, contents(b, i) + off + by_class(b, 4, 8), size(b)) as u64
}

proof fn lemma_name_end(f: File, from: int, begin: int)
    requires
        0 <= begin <= from,
        forall|k: int| begin <= k < from && k < f.bytes.len() ==> f.bytes[k] != 0,
    ensures
        f.name_end(from) matches Some(end) ==> end >= from && end < f.bytes.len() && f.bytes[end]
            == 0 && (end > begin ==> is_text(f.bytes, begin, end)),
        f.name_end(from) is None ==> forall|end: int| !is_text(f.bytes, begin, end) || end < from,
    decreases f.bytes.len() - from,
{
    if from < f.bytes.len() && f.bytes[from] != 0 {
        lemma_name_end(f, from + 1, begin);
        if f.name_end(from) is None {
            assert forall|end: int| !is_text(f.bytes, begin, end) || end < from by {
                assert(!is_text(f.bytes, begin, end) || end < from + 1);
            }
        }
    }
}

/// The bytes of one name end in one place.
proof fn lemma_name(b: Seq<u8>, from: int)
    requires
        0 <= from,
    ensures
        match file(b).name_end(from) {
            Some(end) => (end > from ==> is_text(b, from, end)) && forall|other: int| #[trigger]
                is_text(b, from, other) ==> other == end && end > from,
            None => forall|other: int| !#[trigger] is_text(b, from, other),
        },
{
    lemma_name_end(file(b), from, from);
    match file(b).name_end(from) {
        Some(end) => {
            assert forall|other: int| #[trigger] is_text(b, from, other) implies other == end && end
                > from by {
                if end == from {
                    assert(b[from] != 0);
                } else {
                    assert(is_text(b, from, end));
                    if other < end {
                        assert(b[other] == 0);
                    } else if end < other {
                        assert(b[end] == 0);
                    }
                }
            }
        },
        None => {
            assert forall|other: int| !#[trigger] is_text(b, from, other) by {
                assert(!is_text(b, from, other) || other < from);
            }
        },
    }
}

/// Whether one table of symbols gives a name the value that the other gives
/// it, or neither knows it.
pub open spec fn agree(m: Map<Seq<char>, u64>, n: Map<Seq<char>, u64>, name: Seq<char>) -> bool {
    &&& m.contains_key(name) <==> n.contains_key(name)
    &&& m.contains_key(name) ==> m[name] == n[name]
}

/// Whether a table of symbols gives a name the value.
pub open spec fn gives(m: Map<Seq<char>, u64>, name: Seq<char>, v: u64) -> bool {
    m.contains_key(name) && m[name] == v
}

proof fn lemma_section(b: Seq<u8>, i: int)
    ensures
        file(b).half(file(b).layout.shnum as int) == sections(b),
        file(b).section_header(i) == section(b, i),
        file(b).addr(section(b, i) + file(b).layout.sh_offset) == contents(b, i),
        (file(b).word(section(b, i) + 4) == 2) == is_table(b, i),
        file(b).addr(section(b, i) + file(b).layout.sh_size) == at(
            b,
            section(b, i) + by_class(b, 20, 32),
            size(b),
        ),
        file(b).addr(section(b, i) + file(b).layout.sh_entsize) == at(
            b,
            section(b, i) + by_class(b, 36, 56),
            size(b),
        ),
        file(b).word(section(b, i) + file(b).layout.sh_link) == at(
            b,
            section(b, i) + by_class(b, 24, 40),
            4,
        ),
{
    let sh = section(b, i);
    lemma_at(b, by_class(b, 48, 60), 2);
    lemma_at(b, by_class(b, 32, 40), size(b));
    lemma_at(b, by_class(b, 46, 58), 2);
    lemma_at(b, sh + by_class(b, 16, 24), size(b));
    lemma_at(b, sh + 4, 4);
    lemma_at(b, sh + by_class(b, 20, 32), size(b));
    lemma_at(b, sh + by_class(b, 36, 56), size(b));
    lemma_at(b, sh + by_class(b, 24, 40), 4);
}

proof fn lemma_with_symbol(
    b: Seq<u8>,
    known: Map<Seq<char>, u64>,
    i: int,
    off: int,
    name: Seq<char>,
)
    ensures
        ({
            let sh = section(b, i);
            let m = file(b).with_symbol(known, contents(b, i) + off, file(b).names_of(sh));
            if is_called(b, i, off, name) {
                gives(m, name, value(b, i, off))
            } else {
                agree(m, known, name)
            }
        }),
{
    let link = at(b, section(b, i) + by_class(b, 24, 40), 4);
    lemma_section(b, i);
    lemma_section(b, link);
    let sym = contents(b, i) + off;
    lemma_at(b, sym, 4);
    lemma_at(b, sym + by_class(b, 4, 8), size(b));
    lemma_at(b, section(b, link) + by_class(b, 16, 24), size(b));
    let from = contents(b, link) + at(b, sym, 4);
    assert(from >= 0);
    lemma_name(b, from);
    assert(file(b).names_of(section(b, i)) + file(b).word(sym) == from);
    if let Some(end) = file(b).name_end(from) {
        if end > from {
            assert(is_text(b, from, end));
        }
    }
}

/// Whether the symbol at an offset in section `i` is one, and is called `name`.
pub open spec fn names(b: Seq<u8>, i: int, off: int, name: Seq<char>) -> bool {
    is_entry(b, i, off) && is_called(b, i, off, name)
}

/// Whether no symbol of section `i` at `off` or after it is called `name`.
pub open spec fn unnamed(b: Seq<u8>, i: int, off: int, name: Seq<char>) -> bool {
    forall|o: int| off <= o ==> !#[trigger] names(b, i, o, name)
}

proof fn lemma_next_entry(entry: int, s: int, o: int)
    requires
        entry > 0,
        s % entry == 0,
        o % entry == 0,
        s < o,
    ensures
        s + entry <= o,
        (s + entry) % entry == 0,
{
    vstd::arithmetic::div_mod::lemma_fundamental_div_mod(s, entry);
    vstd::arithmetic::div_mod::lemma_fundamental_div_mod(o, entry);
    vstd::arithmetic::div_mod::lemma_mod_add_multiples_vanish(s, entry);
    let p = s / entry;
    let q = o / entry;
    assert(entry * p + entry <= entry * q) by (nonlinear_arith)
        requires
            entry > 0,
            entry * p < entry * q,
    ;
}

#[verifier::rlimit(40)]
proof fn lemma_table(b: Seq<u8>, known: Map<Seq<char>, u64>, i: int, s: int, name: Seq<char>)
    requires
        0 <= s,
        ({
            let entry = at(b, section(b, i) + by_class(b, 36, 56), size(b));
            entry > 0 ==> s % entry == 0
        }),
    ensures
        ({
            let sh = section(b, i);
            let m = file(b).symbol_table(known, sh, file(b).names_of(sh), s);
            ||| unnamed(b, i, s, name) && agree(m, known, name)
            ||| exists|o: int|
                s <= o && #[trigger] names(b, i, o, name) && unnamed(b, i, o + 1, name) && gives(
                    m,
                    name,
                    value(b, i, o),
                )
        }),
    decreases
            (if s < at(b, section(b, i) + by_class(b, 20, 32), size(b)) {
                at(b, section(b, i) + by_class(b, 20, 32), size(b)) - s
            } else {
                0
            }),
{
    let sh = section(b, i);
    let entry = at(b, sh + by_class(b, 36, 56), size(b));
    let length = at(b, sh + by_class(b, 20, 32), size(b));
    lemma_section(b, i);
    lemma_at(b, sh + by_class(b, 36, 56), size(b));
    if s < length && entry > 0 {
        vstd::arithmetic::div_mod::lemma_mod_add_multiples_vanish(s, entry);
        lemma_with_symbol(b, known, i, s, name);
        let next = file(b).with_symbol(known, contents(b, i) + s, file(b).names_of(sh));
        lemma_table(b, next, i, s + entry, name);
        let m = file(b).symbol_table(known, sh, file(b).names_of(sh), s);
        assert(m == file(b).symbol_table(next, sh, file(b).names_of(sh), s + entry));
        if unnamed(b, i, s + entry, name) && agree(m, next, name) {
            assert forall|o: int| s + 1 <= o implies !#[trigger] names(b, i, o, name) by {
                if is_entry(b, i, o) {
                    lemma_next_entry(entry, s, o);
                }
            }
            assert(unnamed(b, i, s + 1, name));
            if is_called(b, i, s, name) {
                assert(names(b, i, s, name));
            } else {
                assert(!names(b, i, s, name));
                assert forall|o: int| s <= o implies !#[trigger] names(b, i, o, name) by {
                    if o > s {
                        assert(s + 1 <= o);
                    }
                }
            }
        } else {
            let o = choose|o: int|
                s + entry <= o && #[trigger] names(b, i, o, name) && unnamed(b, i, o + 1, name)
                    && gives(m, name, value(b, i, o));
            assert(s <= o && names(b, i, o, name));
        }
    } else {
        assert forall|o: int| s <= o implies !#[trigger] names(b, i, o, name) by {}
    }
}

/// Whether section `i` is a symbol table of the file with a symbol at an
/// offset that is called `name`.
pub open spec fn is_symbol(b: Seq<u8>, i: int, off: int, name: Seq<char>) -> bool {
    0 <= i < sections(b) && is_table(b, i) && names(b, i, off, name)
}

/// Whether no symbol that comes after an offset in section `i` is called
/// `name`: later in the section, or in a later section.
pub open spec fn is_last(b: Seq<u8>, i: int, off: int, name: Seq<char>) -> bool {
    forall|j: int, o: int|
        j > i || j == i && o > off ==> !#[trigger] is_symbol(b, j, o, name)
}

/// Whether no symbol of section `i` or a later one is called `name`.
pub open spec fn is_unknown(b: Seq<u8>, i: int, name: Seq<char>) -> bool {
    forall|j: int, o: int| j >= i ==> !#[trigger] is_symbol(b, j, o, name)
}

#[verifier::rlimit(40)]
proof fn lemma_symbols(b: Seq<u8>, known: Map<Seq<char>, u64>, i: int, name: Seq<char>)
    requires
        0 <= i,
    ensures
        ({
            let m = file(b).symbols(known, i);
            ||| is_unknown(b, i, name) && agree(m, known, name)
            ||| exists|j: int, o: int|
                i <= j && #[trigger] is_symbol(b, j, o, name) && is_last(b, j, o, name) && gives(
                    m,
                    name,
                    value(b, j, o),
                )
        }),
    decreases sections(b) - i,
{
    lemma_section(b, i);
    let m = file(b).symbols(known, i);
    if i < sections(b) {
        let sh = section(b, i);
        let next = if is_table(b, i) {
            file(b).symbol_table(known, sh, file(b).names_of(sh), 0)
        } else {
            known
        };
        lemma_symbols(b, next, i + 1, name);
        assert(m == file(b).symbols(next, i + 1));
        if is_unknown(b, i + 1, name) && agree(m, next, name) {
            if is_table(b, i) {
                let entry = at(b, sh + by_class(b, 36, 56), size(b));
                if entry > 0 {
                    vstd::arithmetic::div_mod::lemma_small_mod(0, entry as nat);
                }
                lemma_table(b, known, i, 0, name);
            }
            if !is_table(b, i) || unnamed(b, i, 0, name) && agree(next, known, name) {
                assert forall|j: int, o: int| j >= i implies !#[trigger] is_symbol(b, j, o, name) by {
                    if j > i {
                        assert(j >= i + 1);
                    } else if is_table(b, i) && is_entry(b, i, o) {
                        assert(0 <= o ==> !names(b, i, o, name));
                    }
                }
                assert(is_unknown(b, i, name));
            } else {
                let o = choose|o: int|
                    0 <= o && #[trigger] names(b, i, o, name) && unnamed(b, i, o + 1, name)
                        && gives(next, name, value(b, i, o));
                assert(is_symbol(b, i, o, name));
                assert forall|j: int, p: int| j > i || j == i && p > o implies !#[trigger] is_symbol(
                    b,
                    j,
                    p,
                    name,
                ) by {
                    if j > i {
                        assert(j >= i + 1);
                    } else {
                        assert(o + 1 <= p ==> !names(b, i, p, name));
                    }
                }
                assert(is_last(b, i, o, name));
            }
        } else {
            let (j, o) = choose|j: int, o: int|
                i + 1 <= j && #[trigger] is_symbol(b, j, o, name) && is_last(b, j, o, name)
                    && gives(m, name, value(b, j, o));
            assert(i <= j && is_symbol(b, j, o, name));
        }
    } else {
        assert forall|j: int, o: int| j >= i implies !#[trigger] is_symbol(b, j, o, name) by {}
    }
}

/// A name is known exactly where some symbol of the file is called by it. A
/// section of type 2 holds symbols, as many as fit at its entry size. The name
/// of one is in the section that its table links to, and where several symbols
/// are called the same the last has its way.
pub proof fn law_the_last_symbol_of_a_name_counts(b: Seq<u8>, i: int, off: int, name: Seq<char>)
    requires
        elf::spec_parse(b) is Ok,
    ensures
        ({
            let known = elf::spec_parse(b)->Ok_0.symbols;
            &&& known.contains_key(name) <==> exists|j: int, o: int| is_symbol(b, j, o, name)
            &&& is_symbol(b, i, off, name) && is_last(b, i, off, name) ==> known[name] == value(
                b,
                i,
                off,
            )
        }),
{
    let known = elf::spec_parse(b)->Ok_0.symbols;
    lemma_parsed(b);
    lemma_symbols(b, Map::empty(), 0, name);
    if exists|j: int, o: int| is_symbol(b, j, o, name) {
        let (j, o) = choose|j: int, o: int| is_symbol(b, j, o, name);
        assert(is_symbol(b, j, o, name) && j >= 0);
        assert(!is_unknown(b, 0, name));
        let (k, p) = choose|k: int, p: int|
            0 <= k && #[trigger] is_symbol(b, k, p, name) && is_last(b, k, p, name) && gives(
                known,
                name,
                value(b, k, p),
            );
        assert(is_symbol(b, k, p, name) && is_last(b, k, p, name));
        if is_symbol(b, i, off, name) && is_last(b, i, off, name) {
            assert(k == i && p == off);
        }
    }
}

/// What the user is told of each thing that can be wrong with a file.
pub proof fn law_what_is_said_of_an_error(e: ElfError)
    ensures
        e.spec_message() == match e {
            ElfError::TooShort => "file is too short to be an ELF",
            ElfError::NotElf => "missing the \\x7fELF magic",
            ElfError::Not32Bit => "neither ELF32 nor ELF64",
            ElfError::NotLittleEndian => "not little-endian",
            ElfError::NotRiscv => "not a RISC-V object (e_machine != 243)",
            ElfError::NotExecutable => "not an executable (e_type != ET_EXEC)",
        }@,
{
}

} // verus!
