//! Resolving a parsed binary image (ELF, Mach-O or PE) into a symbol table
//! and the location of its uninitialized-data (BSS) region, adjusted for the
//! address at which the image is loaded in the target process.

use vstd::prelude::*;

use crate::symbols::SymbolTable;
use crate::wadd;
use crate::wsub;

verus! {

/// ELF section type of a section that occupies no file space.
pub const SHT_NOBITS: u32 = 8;

/// ELF program header type of a loadable segment.
pub const PT_LOAD: u32 = 1;

/// ELF program header flag bit: executable.
pub const PF_X: u32 = 1;

/// ELF section index marking an undefined symbol.
pub const SHN_UNDEF: usize = 0;

/// Why an image could not be resolved.
#[derive(Clone, Copy, Debug, PartialEq, Eq, Structural)]
pub enum ResolveError {
    /// No NOBITS section named `.bss` exists in an ELF image.
    MissingBssSection,
    /// No loadable executable segment exists in an ELF image.
    MissingExecutableSegment,
    /// No section named `.data`* exists in a PE image.
    MissingDataSection,
    /// A fat Mach-O archive holds no 64-bit slice.
    NoFatArch64,
    /// The file is none of the supported formats.
    UnsupportedBinaryType,
}

/// Output of resolving one image: symbol addresses and the BSS region as they
/// exist in the target process. `addr` and `size` describe the mapped range
/// of the image itself, for callers that record it.
#[derive(Debug)]
pub struct BinaryInfo {
    pub symbols: SymbolTable,
    pub bss_addr: u64,
    pub bss_size: u64,
    pub addr: u64,
    pub size: u64,
}

impl BinaryInfo {
    /// Whether an address falls inside the image's mapped range.
    pub fn contains(&self, addr: u64) -> (r: bool)
        ensures
            r == (self.addr <= addr && (addr as int) < self.addr + self.size),
    {
        addr >= self.addr && addr - self.addr < self.size
    }
}

/// One ELF section header, as read from the file: its type, its name when the
/// string table yields one, and its address and size.
pub struct ElfSectionRec {
    pub sh_type: u32,
    pub name: Option<String>,
    pub sh_addr: u64,
    pub sh_size: u64,
}

/// One ELF program header: its type, flags and virtual address.
pub struct ElfSegmentRec {
    pub p_type: u32,
    pub p_flags: u32,
    pub p_vaddr: u64,
}

/// One ELF symbol: its name, the index of the section it is defined in
/// (`SHN_UNDEF` when undefined), and its file-relative address.
pub struct ElfSymbolRec {
    pub name: String,
    pub section_index: usize,
    pub value: u64,
}

/// An ELF image reduced to what resolution reads.
pub struct ElfImage {
    pub sections: Vec<ElfSectionRec>,
    pub segments: Vec<ElfSegmentRec>,
    pub syms: Vec<ElfSymbolRec>,
    pub dynsyms: Vec<ElfSymbolRec>,
}

/// One Mach-O section: its name and its file-relative address and size.
pub struct MachSectionRec {
    pub name: String,
    pub addr: u64,
    pub size: u64,
}

/// One Mach-O symbol: its name and its file-relative address.
pub struct MachSymbolRec {
    pub name: String,
    pub value: u64,
}

/// A Mach-O image reduced to what resolution reads: the sections of all its
/// segments in file order, and its symbols.
pub struct MachImage {
    pub sections: Vec<MachSectionRec>,
    pub symbols: Vec<MachSymbolRec>,
}

/// One slice of a fat Mach-O archive: whether it is 64-bit, and where its
/// bytes lie in the archive.
pub struct FatArchRec {
    pub is_64: bool,
    pub offset: u64,
    pub size: u64,
}

/// One PE export table entry; either field may be absent in the file.
pub struct PeExportRec {
    pub name: Option<String>,
    pub offset: Option<usize>,
}

/// One PE section: its raw 8-byte name and its virtual address and size.
pub struct PeSectionRec {
    pub name: Vec<u8>,
    pub virtual_address: u32,
    pub virtual_size: u32,
}

/// A PE image reduced to what resolution reads.
pub struct PeImage {
    pub exports: Vec<PeExportRec>,
    pub sections: Vec<PeSectionRec>,
}

/// A parsed image of any supported format, or none of them.
pub enum ParsedImage {
    Elf(ElfImage),
    Mach(MachImage),
    Pe(PeImage),
    Unknown,
}

/// A decimal digit, as link-time optimization writes them into symbol names.
pub open spec fn is_dec_digit(c: char) -> bool {
    48 <= c as u32 <= 57
}

/// How many characters at the end of `s` are decimal digits.
pub open spec fn trailing_digit_count(s: Seq<char>) -> nat
    decreases s.len(),
{
    if s.len() == 0 || !is_dec_digit(s.last()) {
        0
    } else {
        trailing_digit_count(s.drop_last()) + 1
    }
}

/// The marker that link-time optimization inserts before the digits.
pub open spec fn llvm_marker() -> Seq<char> {
    seq!['.', 'l', 'l', 'v', 'm', '.']
}

/// Length of the link-time-optimization suffix of `s`: the trailing digits
/// and the `.llvm.` marker before them, or zero when `s` has no such suffix.
pub open spec fn llvm_suffix_len(s: Seq<char>) -> nat {
    let d = trailing_digit_count(s);
    if d >= 1 && d + 6 <= s.len() && s.subrange(s.len() - d - 6, s.len() - d) == llvm_marker() {
        d + 6
    } else {
        0
    }
}

/// `s` without its link-time-optimization suffix.
pub open spec fn strip_llvm(s: Seq<char>) -> Seq<char> {
    s.take(s.len() - llvm_suffix_len(s))
}

/// A count of trailing digits that stops at a non-digit is the trailing digit
/// count.
proof fn lemma_trailing_digit_count(s: Seq<char>, d: nat)
    requires
        d <= s.len(),
        forall|k: int| 0 <= k < d ==> is_dec_digit(#[trigger] s[s.len() - 1 - k]),
        d == s.len() || !is_dec_digit(s[s.len() - 1 - d]),
    ensures
        trailing_digit_count(s) == d,
    decreases s.len(),
{
    if s.len() == 0 {
    } else if !is_dec_digit(s.last()) {
        assert(d == 0) by {
            if d >= 1 {
                assert(is_dec_digit(s[s.len() - 1 - 0]));
            }
        }
    } else {
        assert(is_dec_digit(s[s.len() - 1 - 0]));
        assert(d >= 1);
        let t = s.drop_last();
        assert forall|k: int| 0 <= k < d - 1 implies is_dec_digit(#[trigger] t[t.len() - 1 - k]) by {
            assert(t[t.len() - 1 - k] == s[s.len() - 1 - (k + 1)]);
            assert(is_dec_digit(s[s.len() - 1 - (k + 1)]));
        }
        lemma_trailing_digit_count(t, (d - 1) as nat);
    }
}

/// Strip the link-time-optimization disambiguation suffix (`.llvm.` followed
/// by digits) from a symbol name, so that lookups by the expected name
/// succeed.
pub fn strip_llvm_suffix(name: &str) -> (r: String)
    ensures
        r@ == strip_llvm(name@),
{
    let n = name.unicode_len();
    let mut d: usize = 0;
    while d < n
        invariant_except_break
            n == name@.len(),
            d <= n,
            forall|k: int| 0 <= k < d ==> is_dec_digit(#[trigger] name@[n - 1 - k]),
        ensures
            n == name@.len(),
            d <= n,
            forall|k: int| 0 <= k < d ==> is_dec_digit(#[trigger] name@[n - 1 - k]),
            d == n || !is_dec_digit(name@[n - 1 - d]),
        decreases n - d,
    {
        let c = name.get_char(n - 1 - d);
        if !(48 <= c as u32 && c as u32 <= 57) {
            break ;
        }
        d = d + 1;
    }
    proof {
        lemma_trailing_digit_count(name@, d as nat);
    }
    if d >= 1 && n - d >= 6 {
        let base = n - d - 6;
        let matches_marker = name.get_char(base) == '.' && name.get_char(base + 1) == 'l'
            && name.get_char(base + 2) == 'l' && name.get_char(base + 3) == 'v' && name.get_char(
            base + 4,
        ) == 'm' && name.get_char(base + 5) == '.';
        if matches_marker {
            proof {
                assert(name@.subrange(n - d - 6, n - d as int) =~= llvm_marker());
            }
            let stripped = name.substring_char(0, base);
            let r = stripped.to_owned();
            proof {
                assert(r@ =~= strip_llvm(name@));
            }
            r
        } else {
            proof {
                assert(name@.subrange(n - d - 6, n - d as int) != llvm_marker()) by {
                    if name@.subrange(n - d - 6, n - d as int) == llvm_marker() {
                        assert(name@.subrange(n - d - 6, n - d as int)[0] == llvm_marker()[0]);
                        assert(name@.subrange(n - d - 6, n - d as int)[1] == llvm_marker()[1]);
                        assert(name@.subrange(n - d - 6, n - d as int)[2] == llvm_marker()[2]);
                        assert(name@.subrange(n - d - 6, n - d as int)[3] == llvm_marker()[3]);
                        assert(name@.subrange(n - d - 6, n - d as int)[4] == llvm_marker()[4]);
                        assert(name@.subrange(n - d - 6, n - d as int)[5] == llvm_marker()[5]);
                    }
                }
                assert(name@.take(n as int) =~= name@);
            }
            name.to_owned()
        }
    } else {
        proof {
            assert(llvm_suffix_len(name@) == 0);
            assert(name@.take(n as int) =~= name@);
        }
        name.to_owned()
    }
}

/// A section that counts as the ELF BSS region: a NOBITS section named
/// `.bss`. One whose name the string table does not yield is no candidate.
pub open spec fn elf_bss_candidate(s: ElfSectionRec) -> bool {
    s.sh_type == SHT_NOBITS && match s.name {
        Option::None => false,
        Option::Some(n) => n@ == ".bss"@,
    }
}

/// The index of the BSS section an ELF image resolves to: among candidates,
/// the one of largest size, the last such on ties.
pub open spec fn best_bss(ss: Seq<ElfSectionRec>) -> Option<int>
    decreases ss.len(),
{
    if ss.len() == 0 {
        Option::None
    } else {
        let rest = best_bss(ss.drop_last());
        if elf_bss_candidate(ss.last()) {
            match rest {
                Option::None => Option::Some(ss.len() - 1),
                Option::Some(j) => if ss.last().sh_size >= ss[j].sh_size {
                    Option::Some(ss.len() - 1)
                } else {
                    Option::Some(j)
                },
            }
        } else {
            rest
        }
    }
}

/// A loadable, executable program segment.
pub open spec fn is_exec_load(g: ElfSegmentRec) -> bool {
    g.p_type == PT_LOAD && g.p_flags & PF_X != 0
}

/// The index of the first loadable executable segment.
pub open spec fn first_exec_load(gs: Seq<ElfSegmentRec>) -> Option<int>
    decreases gs.len(),
{
    if gs.len() == 0 {
        Option::None
    } else if is_exec_load(gs[0]) {
        Option::Some(0int)
    } else {
        match first_exec_load(gs.drop_first()) {
            Option::None => Option::None,
            Option::Some(j) => Option::Some(j + 1),
        }
    }
}

/// `vaddr` rounded down to a multiple of the page size.
pub open spec fn page_align_down(vaddr: u64, page: u64) -> u64
    recommends
        page >= 1,
{
    (vaddr - (vaddr as int % page as int)) as u64
}

/// The offset added to every file-relative address of an ELF image: the load
/// address minus the first executable segment's page-aligned virtual address,
/// modulo 2^64.
pub open spec fn elf_offset(vaddr: u64, load: u64, page: u64) -> u64
    recommends
        page >= 1,
{
    wsub(load, page_align_down(vaddr, page))
}

/// The mapping that inserting a run of ELF symbols leaves behind: defined
/// symbols only, names stripped of the link-time-optimization suffix when
/// `strip` is set, each address shifted by `off`.
pub open spec fn insert_elf_syms(
    m: Map<Seq<char>, u64>,
    syms: Seq<ElfSymbolRec>,
    strip: bool,
    off: u64,
) -> Map<Seq<char>, u64>
    decreases syms.len(),
{
    if syms.len() == 0 {
        m
    } else {
        let prev = insert_elf_syms(m, syms.drop_last(), strip, off);
        let s = syms.last();
        if s.section_index == SHN_UNDEF {
            prev
        } else {
            let key = if strip {
                strip_llvm(s.name@)
            } else {
                s.name@
            };
            prev.insert(key, wadd(s.value, off))
        }
    }
}

/// The full symbol mapping of an ELF image: the static table first, stripped;
/// then the dynamic table, unstripped, overwriting on equal names.
pub open spec fn elf_symbol_map(img: ElfImage, off: u64) -> Map<Seq<char>, u64> {
    insert_elf_syms(insert_elf_syms(Map::empty(), img.syms@, true, off), img.dynsyms@, false, off)
}

/// What resolving an ELF image returns: the errors exactly when no BSS
/// candidate or no executable segment exists, otherwise the symbol mapping
/// and the BSS region, all shifted by the image's offset.
pub open spec fn elf_resolution(
    img: ElfImage,
    load: u64,
    page: u64,
    r: Result<BinaryInfo, ResolveError>,
) -> bool {
    match best_bss(img.sections@) {
        Option::None => r == Result::<BinaryInfo, ResolveError>::Err(
            ResolveError::MissingBssSection,
        ),
        Option::Some(j) => match first_exec_load(img.segments@) {
            Option::None => r == Result::<BinaryInfo, ResolveError>::Err(
                ResolveError::MissingExecutableSegment,
            ),
            Option::Some(k) => {
                let off = elf_offset(img.segments@[k].p_vaddr, load, page);
                &&& r matches Result::Ok(b)
                &&& b.symbols.wf()
                &&& b.symbols@ == elf_symbol_map(img, off)
                &&& b.bss_addr == wadd(img.sections@[j].sh_addr, off)
                &&& b.bss_size == img.sections@[j].sh_size
                &&& b.addr == 0
                &&& b.size == 0
            },
        },
    }
}

/// Find the BSS candidate of largest size, the last such on ties.
#[verifier::loop_isolation(false)]
fn find_best_bss(sections: &Vec<ElfSectionRec>) -> (r: Option<usize>)
    ensures
        r is Some <==> best_bss(sections@) is Some,
        r matches Some(i) ==> i < sections@.len() && best_bss(sections@) == Option::Some(i as int),
{
    let bss_name: String = String::from_str(".bss");
    let mut best: Option<usize> = None;
    let mut i: usize = 0;
    while i < sections.len()
        invariant
            i <= sections@.len(),
            match best {
                Option::None => best_bss(sections@.take(i as int)) is None,
                Option::Some(b) => b < i && best_bss(sections@.take(i as int)) == Option::Some(
                    b as int,
                ),
            },
        decreases sections@.len() - i,
    {
        let sec = &sections[i];
        let cand = sec.sh_type == SHT_NOBITS && match &sec.name {
            None => false,
            Some(nm) => nm.eq(&bss_name),
        };
        proof {
            assert(sections@.take(i + 1).drop_last() =~= sections@.take(i as int));
            assert(sections@.take(i + 1).last() == sections@[i as int]);
        }
        if cand {
            match best {
                None => {
                    best = Some(i);
                },
                Some(b) => {
                    if sec.sh_size >= sections[b].sh_size {
                        best = Some(i);
                    }
                },
            }
        }
        i = i + 1;
    }
    proof {
        assert(sections@.take(sections@.len() as int) =~= sections@);
    }
    best
}

/// A scan that passed `i` segments without a hit pins down the first
/// loadable executable segment.
proof fn lemma_first_exec_load(gs: Seq<ElfSegmentRec>, i: int)
    requires
        0 <= i <= gs.len(),
        forall|k: int| 0 <= k < i ==> !is_exec_load(#[trigger] gs[k]),
        i == gs.len() || is_exec_load(gs[i]),
    ensures
        i == gs.len() ==> first_exec_load(gs) is None,
        i < gs.len() ==> first_exec_load(gs) == Option::Some(i),
    decreases gs.len(),
{
    if gs.len() > 0 {
        if is_exec_load(gs[0]) {
            assert(i == 0);
        } else {
            assert(i >= 1);
            let t = gs.drop_first();
            assert(forall|k: int| 0 <= k < i - 1 ==> !is_exec_load(#[trigger] t[k]));
            lemma_first_exec_load(t, i - 1);
        }
    }
}

/// Find the first loadable executable segment.
#[verifier::loop_isolation(false)]
fn find_first_exec_load(segments: &Vec<ElfSegmentRec>) -> (r: Option<usize>)
    ensures
        r is Some <==> first_exec_load(segments@) is Some,
        r matches Some(i) ==> i < segments@.len() && first_exec_load(segments@) == Option::Some(
            i as int,
        ),
{
    let mut i: usize = 0;
    while i < segments.len()
        invariant
            i <= segments@.len(),
            forall|k: int| 0 <= k < i ==> !is_exec_load(#[trigger] segments@[k]),
        decreases segments@.len() - i,
    {
        let seg = &segments[i];
        if seg.p_type == PT_LOAD && seg.p_flags & PF_X != 0 {
            proof {
                lemma_first_exec_load(segments@, i as int);
            }
            return Some(i);
        }
        i = i + 1;
    }
    proof {
        lemma_first_exec_load(segments@, segments@.len() as int);
    }
    None
}

/// Round a virtual address down to the system page size.
fn page_align(vaddr: u64, page: u64) -> (r: u64)
    requires
        page >= 1,
    ensures
        r == page_align_down(vaddr, page),
{
    proof {
        assert(vaddr % page <= vaddr) by (nonlinear_arith)
            requires
                page >= 1,
        ;
    }
    vaddr - vaddr % page
}

/// Insert a run of symbols into a table: defined ones only, names stripped
/// when asked, addresses shifted by `off`.
#[verifier::loop_isolation(false)]
fn insert_symbols(table: &mut SymbolTable, syms: &Vec<ElfSymbolRec>, strip: bool, off: u64)
    requires
        old(table).wf(),
    ensures
        final(table).wf(),
        final(table)@ == insert_elf_syms(old(table)@, syms@, strip, off),
{
    let mut i: usize = 0;
    while i < syms.len()
        invariant
            i <= syms@.len(),
            table.wf(),
            table@ == insert_elf_syms(old(table)@, syms@.take(i as int), strip, off),
        decreases syms@.len() - i,
    {
        proof {
            assert(syms@.take(i + 1).drop_last() =~= syms@.take(i as int));
            assert(syms@.take(i + 1).last() == syms@[i as int]);
        }
        let s = &syms[i];
        if s.section_index != SHN_UNDEF {
            let key = if strip {
                strip_llvm_suffix(s.name.as_str())
            } else {
                s.name.clone()
            };
            table.insert(key, s.value.wrapping_add(off));
        }
        i = i + 1;
    }
    proof {
        assert(syms@.take(syms@.len() as int) =~= syms@);
    }
}

/// Resolve an ELF image against its load address, with the page size given.
pub fn resolve_elf_with_page(img: &ElfImage, load_address: u64, page: u64) -> (r: Result<
    BinaryInfo,
    ResolveError,
>)
    requires
        page >= 1,
    ensures
        elf_resolution(*img, load_address, page, r),
{
    let bss = match find_best_bss(&img.sections) {
        Some(j) => j,
        None => {
            return Err(ResolveError::MissingBssSection);
        },
    };
    let seg = match find_first_exec_load(&img.segments) {
        Some(k) => k,
        None => {
            return Err(ResolveError::MissingExecutableSegment);
        },
    };
    let aligned = page_align(img.segments[seg].p_vaddr, page);
    let off = load_address.wrapping_sub(aligned);
    let mut table = SymbolTable::new();
    insert_symbols(&mut table, &img.syms, true, off);
    insert_symbols(&mut table, &img.dynsyms, false, off);
    Ok(
        BinaryInfo {
            symbols: table,
            bss_addr: img.sections[bss].sh_addr.wrapping_add(off),
            bss_size: img.sections[bss].sh_size,
            addr: 0,
            size: 0,
        },
    )
}


/// The section name that marks the Mach-O BSS region.
pub open spec fn mach_bss_name() -> Seq<char> {
    seq!['_', '_', 'b', 's', 's']
}

/// The index of the last section named `__bss`, which is the one a Mach-O
/// scan leaves in place.
pub open spec fn last_mach_bss(ss: Seq<MachSectionRec>) -> Option<int>
    decreases ss.len(),
{
    if ss.len() == 0 {
        Option::None
    } else if ss.last().name@ == mach_bss_name() {
        Option::Some(ss.len() - 1)
    } else {
        last_mach_bss(ss.drop_last())
    }
}

/// The mapping that inserting a run of Mach-O symbols leaves behind: only
/// names with a leading underscore, that one character stripped, each address
/// shifted by the load address.
pub open spec fn insert_mach_syms(
    m: Map<Seq<char>, u64>,
    syms: Seq<MachSymbolRec>,
    load: u64,
) -> Map<Seq<char>, u64>
    decreases syms.len(),
{
    if syms.len() == 0 {
        m
    } else {
        let prev = insert_mach_syms(m, syms.drop_last(), load);
        let s = syms.last();
        if s.name@.len() >= 1 && s.name@[0] == '_' {
            prev.insert(s.name@.skip(1), wadd(s.value, load))
        } else {
            prev
        }
    }
}

/// What resolving a Mach-O image returns: every underscore-prefixed symbol
/// with the prefix stripped, and the last `__bss` section, shifted by the
/// load address; zeroes when no such section exists.
pub open spec fn mach_resolution(img: MachImage, load: u64, b: BinaryInfo) -> bool {
    &&& b.symbols.wf()
    &&& b.symbols@ == insert_mach_syms(Map::empty(), img.symbols@, load)
    &&& match last_mach_bss(img.sections@) {
        Option::None => b.bss_addr == 0 && b.bss_size == 0,
        Option::Some(j) => b.bss_addr == wadd(img.sections@[j].addr, load) && b.bss_size
            == img.sections@[j].size,
    }
    &&& b.addr == 0
    &&& b.size == 0
}

/// Resolve a Mach-O image against its load address.
#[verifier::loop_isolation(false)]
pub fn resolve_mach(img: &MachImage, load_address: u64) -> (r: BinaryInfo)
    ensures
        mach_resolution(*img, load_address, r),
{
    let bss_name: String = String::from_str("__bss");
    proof {
        reveal_strlit("__bss");
        assert(bss_name@ =~= mach_bss_name());
    }
    let mut bss_addr: u64 = 0;
    let mut bss_size: u64 = 0;
    let mut i: usize = 0;
    while i < img.sections.len()
        invariant
            i <= img.sections@.len(),
            match last_mach_bss(img.sections@.take(i as int)) {
                Option::None => bss_addr == 0 && bss_size == 0,
                Option::Some(j) => bss_addr == wadd(img.sections@[j].addr, load_address)
                    && bss_size == img.sections@[j].size,
            },
        decreases img.sections@.len() - i,
    {
        proof {
            assert(img.sections@.take(i + 1).drop_last() =~= img.sections@.take(i as int));
            assert(img.sections@.take(i + 1).last() == img.sections@[i as int]);
        }
        let sec = &img.sections[i];
        if sec.name.eq(&bss_name) {
            bss_addr = sec.addr.wrapping_add(load_address);
            bss_size = sec.size;
        }
        i = i + 1;
    }
    proof {
        assert(img.sections@.take(img.sections@.len() as int) =~= img.sections@);
    }
    let mut table = SymbolTable::new();
    let mut k: usize = 0;
    while k < img.symbols.len()
        invariant
            k <= img.symbols@.len(),
            table.wf(),
            table@ == insert_mach_syms(Map::empty(), img.symbols@.take(k as int), load_address),
        decreases img.symbols@.len() - k,
    {
        proof {
            assert(img.symbols@.take(k + 1).drop_last() =~= img.symbols@.take(k as int));
            assert(img.symbols@.take(k + 1).last() == img.symbols@[k as int]);
        }
        let sym = &img.symbols[k];
        let n = sym.name.as_str().unicode_len();
        if n >= 1 && sym.name.as_str().get_char(0) == '_' {
            let stripped = sym.name.as_str().substring_char(1, n).to_owned();
            proof {
                assert(stripped@ =~= sym.name@.skip(1));
            }
            table.insert(stripped, sym.value.wrapping_add(load_address));
        }
        k = k + 1;
    }
    proof {
        assert(img.symbols@.take(img.symbols@.len() as int) =~= img.symbols@);
    }
    BinaryInfo { symbols: table, bss_addr, bss_size, addr: 0, size: 0 }
}

/// The index of the first 64-bit slice of a fat Mach-O archive.
pub open spec fn first_fat_64(arches: Seq<FatArchRec>) -> Option<int>
    decreases arches.len(),
{
    if arches.len() == 0 {
        Option::None
    } else if arches[0].is_64 {
        Option::Some(0int)
    } else {
        match first_fat_64(arches.drop_first()) {
            Option::None => Option::None,
            Option::Some(j) => Option::Some(j + 1),
        }
    }
}

/// A scan that passed `i` slices without a 64-bit one pins down the first.
proof fn lemma_first_fat_64(arches: Seq<FatArchRec>, i: int)
    requires
        0 <= i <= arches.len(),
        forall|k: int| 0 <= k < i ==> !(#[trigger] arches[k]).is_64,
        i == arches.len() || arches[i].is_64,
    ensures
        i == arches.len() ==> first_fat_64(arches) is None,
        i < arches.len() ==> first_fat_64(arches) == Option::Some(i),
    decreases arches.len(),
{
    if arches.len() > 0 {
        if arches[0].is_64 {
            assert(i == 0);
        } else {
            assert(i >= 1);
            let t = arches.drop_first();
            assert(forall|k: int| 0 <= k < i - 1 ==> !(#[trigger] t[k]).is_64);
            lemma_first_fat_64(t, i - 1);
        }
    }
}

/// Select the slice of a fat Mach-O archive to parse: the first one that is
/// 64-bit; the error exactly when none is.
#[verifier::loop_isolation(false)]
pub fn select_fat_arch(arches: &Vec<FatArchRec>) -> (r: Result<usize, ResolveError>)
    ensures
        match first_fat_64(arches@) {
            Option::None => r == Result::<usize, ResolveError>::Err(ResolveError::NoFatArch64),
            Option::Some(j) => r matches Result::Ok(i) && i == j,
        },
{
    let mut i: usize = 0;
    while i < arches.len()
        invariant
            i <= arches@.len(),
            forall|k: int| 0 <= k < i ==> !(#[trigger] arches@[k]).is_64,
        decreases arches@.len() - i,
    {
        if arches[i].is_64 {
            proof {
                lemma_first_fat_64(arches@, i as int);
            }
            return Ok(i);
        }
        i = i + 1;
    }
    proof {
        lemma_first_fat_64(arches@, arches@.len() as int);
    }
    Err(ResolveError::NoFatArch64)
}

/// The 8-byte PE section name prefix that stands in for a BSS region.
pub open spec fn pe_data_prefix() -> Seq<u8> {
    seq![46u8, 100u8, 97u8, 116u8, 97u8]
}

/// A PE section whose name begins with `.data`.
pub open spec fn pe_data_candidate(s: PeSectionRec) -> bool {
    s.name@.len() >= 5 && s.name@.take(5) == pe_data_prefix()
}

/// The index of the first PE section named `.data`*.
pub open spec fn first_pe_data(ss: Seq<PeSectionRec>) -> Option<int>
    decreases ss.len(),
{
    if ss.len() == 0 {
        Option::None
    } else if pe_data_candidate(ss[0]) {
        Option::Some(0int)
    } else {
        match first_pe_data(ss.drop_first()) {
            Option::None => Option::None,
            Option::Some(j) => Option::Some(j + 1),
        }
    }
}

/// A scan that passed `i` sections without a hit pins down the first.
proof fn lemma_first_pe_data(ss: Seq<PeSectionRec>, i: int)
    requires
        0 <= i <= ss.len(),
        forall|k: int| 0 <= k < i ==> !pe_data_candidate(#[trigger] ss[k]),
        i == ss.len() || pe_data_candidate(ss[i]),
    ensures
        i == ss.len() ==> first_pe_data(ss) is None,
        i < ss.len() ==> first_pe_data(ss) == Option::Some(i),
    decreases ss.len(),
{
    if ss.len() > 0 {
        if pe_data_candidate(ss[0]) {
            assert(i == 0);
        } else {
            assert(i >= 1);
            let t = ss.drop_first();
            assert(forall|k: int| 0 <= k < i - 1 ==> !pe_data_candidate(#[trigger] t[k]));
            lemma_first_pe_data(t, i - 1);
        }
    }
}

/// The mapping that inserting a run of PE exports leaves behind: only entries
/// with both a name and an offset, each shifted by the load address.
pub open spec fn insert_pe_exports(
    m: Map<Seq<char>, u64>,
    es: Seq<PeExportRec>,
    load: u64,
) -> Map<Seq<char>, u64>
    decreases es.len(),
{
    if es.len() == 0 {
        m
    } else {
        let prev = insert_pe_exports(m, es.drop_last(), load);
        let e = es.last();
        match (e.name, e.offset) {
            (Option::Some(n), Option::Some(o)) => prev.insert(n@, wadd(o as u64, load)),
            _ => prev,
        }
    }
}

/// What resolving a PE image returns: every named export with an offset, and
/// the first `.data`* section standing in for the BSS region; the error
/// exactly when no such section exists.
pub open spec fn pe_resolution(img: PeImage, load: u64, r: Result<BinaryInfo, ResolveError>) -> bool {
    match first_pe_data(img.sections@) {
        Option::None => r == Result::<BinaryInfo, ResolveError>::Err(
            ResolveError::MissingDataSection,
        ),
        Option::Some(j) => {
            &&& r matches Result::Ok(b)
            &&& b.symbols.wf()
            &&& b.symbols@ == insert_pe_exports(Map::empty(), img.exports@, load)
            &&& b.bss_addr == wadd(img.sections@[j].virtual_address as u64, load)
            &&& b.bss_size == img.sections@[j].virtual_size as u64
            &&& b.addr == 0
            &&& b.size == 0
        },
    }
}

/// Resolve a PE image against its load address.
#[verifier::loop_isolation(false)]
pub fn resolve_pe(img: &PeImage, load_address: u64) -> (r: Result<BinaryInfo, ResolveError>)
    ensures
        pe_resolution(*img, load_address, r),
{
    let mut table = SymbolTable::new();
    let mut i: usize = 0;
    while i < img.exports.len()
        invariant
            i <= img.exports@.len(),
            table.wf(),
            table@ == insert_pe_exports(Map::empty(), img.exports@.take(i as int), load_address),
        decreases img.exports@.len() - i,
    {
        proof {
            assert(img.exports@.take(i + 1).drop_last() =~= img.exports@.take(i as int));
            assert(img.exports@.take(i + 1).last() == img.exports@[i as int]);
        }
        let e = &img.exports[i];
        match (&e.name, &e.offset) {
            (Some(n), Some(o)) => {
                table.insert(n.clone(), (*o as u64).wrapping_add(load_address));
            },
            _ => {},
        }
        i = i + 1;
    }
    proof {
        assert(img.exports@.take(img.exports@.len() as int) =~= img.exports@);
    }
    let mut j: usize = 0;
    while j < img.sections.len()
        invariant
            j <= img.sections@.len(),
            forall|k: int| 0 <= k < j ==> !pe_data_candidate(#[trigger] img.sections@[k]),
        decreases img.sections@.len() - j,
    {
        let sec = &img.sections[j];
        let is_data = sec.name.len() >= 5 && sec.name[0] == 46u8 && sec.name[1] == 100u8
            && sec.name[2] == 97u8 && sec.name[3] == 116u8 && sec.name[4] == 97u8;
        if is_data {
            proof {
                assert(sec.name@.take(5) =~= pe_data_prefix());
                lemma_first_pe_data(img.sections@, j as int);
            }
            return Ok(
                BinaryInfo {
                    symbols: table,
                    bss_addr: (sec.virtual_address as u64).wrapping_add(load_address),
                    bss_size: sec.virtual_size as u64,
                    addr: 0,
                    size: 0,
                },
            );
        }
        proof {
            if pe_data_candidate(img.sections@[j as int]) {
                assert(img.sections@[j as int].name@.take(5)[0] == pe_data_prefix()[0]);
                assert(img.sections@[j as int].name@.take(5)[1] == pe_data_prefix()[1]);
                assert(img.sections@[j as int].name@.take(5)[2] == pe_data_prefix()[2]);
                assert(img.sections@[j as int].name@.take(5)[3] == pe_data_prefix()[3]);
                assert(img.sections@[j as int].name@.take(5)[4] == pe_data_prefix()[4]);
                assert(false);
            }
        }
        j = j + 1;
    }
    proof {
        lemma_first_pe_data(img.sections@, img.sections@.len() as int);
    }
    Err(ResolveError::MissingDataSection)
}

/// Relies on page_size::get: the system's memory page size in bytes, which is
/// never zero on any supported platform.
#[verifier::external_body]
fn os_page_size() -> (r: usize)
    ensures
        r >= 1,
{
    page_size::get()
}

/// Resolve an ELF image against its load address, using the system page size.
pub fn resolve_elf(img: &ElfImage, load_address: u64) -> (r: Result<BinaryInfo, ResolveError>)
    ensures
        exists|page: u64| page >= 1 && #[trigger] elf_resolution(*img, load_address, page, r),
{
    let page = os_page_size() as u64;
    let r = resolve_elf_with_page(img, load_address, page);
    proof {
        assert(page >= 1 && elf_resolution(*img, load_address, page, r));
    }
    r
}


/// What resolving an image of any format returns.
pub open spec fn image_resolution(
    img: ParsedImage,
    load: u64,
    page: u64,
    r: Result<BinaryInfo, ResolveError>,
) -> bool {
    match img {
        ParsedImage::Elf(e) => elf_resolution(e, load, page, r),
        ParsedImage::Mach(m) => r matches Result::Ok(b) && mach_resolution(m, load, b),
        ParsedImage::Pe(p) => pe_resolution(p, load, r),
        ParsedImage::Unknown => r == Result::<BinaryInfo, ResolveError>::Err(
            ResolveError::UnsupportedBinaryType,
        ),
    }
}

/// Resolve a parsed image of any format, with the page size given; the format

/// that needs none ignores it.
pub fn resolve_image_with_page(img: &ParsedImage, load_address: u64, page: u64) -> (r: Result<
    BinaryInfo,
    ResolveError,
>)
    requires
        page >= 1,
    ensures
        image_resolution(*img, load_address, page, r),
{
    match img {
        ParsedImage::Elf(e) => resolve_elf_with_page(e, load_address, page),
        ParsedImage::Mach(m) => Ok(resolve_mach(m, load_address)),
        ParsedImage::Pe(p) => resolve_pe(p, load_address),
        ParsedImage::Unknown => Err(ResolveError::UnsupportedBinaryType),
    }
}

/// Resolve a parsed image of any format, using the system page size.
pub fn resolve_image(img: &ParsedImage, load_address: u64) -> (r: Result<BinaryInfo, ResolveError>)
    ensures
        exists|page: u64| page >= 1 && #[trigger] image_resolution(*img, load_address, page, r),
{
    let page = os_page_size() as u64;
    let r = resolve_image_with_page(img, load_address, page);
    proof {
        assert(page >= 1 && image_resolution(*img, load_address, page, r));
    }
    r
}


/// Law: the BSS section an ELF image resolves to is a candidate of maximal
/// size; when none is returned, no candidate exists.
pub proof fn lemma_best_bss_largest(ss: Seq<ElfSectionRec>)
    ensures
        match best_bss(ss) {
            Option::None => forall|i: int|
                0 <= i < ss.len() ==> !elf_bss_candidate(#[trigger] ss[i]),
            Option::Some(j) => 0 <= j < ss.len() && elf_bss_candidate(ss[j]) && forall|i: int|
                0 <= i < ss.len() && elf_bss_candidate(#[trigger] ss[i]) ==> ss[i].sh_size
                    <= ss[j].sh_size,
        },
    decreases ss.len(),
{
    if ss.len() > 0 {
        lemma_best_bss_largest(ss.drop_last());
        assert(forall|i: int| 0 <= i < ss.len() - 1 ==> #[trigger] ss[i] == ss.drop_last()[i]);
    }
}

/// Inserting more symbols never removes a name from the mapping.
proof fn lemma_insert_elf_syms_dom_mono(
    m: Map<Seq<char>, u64>,
    syms: Seq<ElfSymbolRec>,
    strip: bool,
    off: u64,
    key: Seq<char>,
)
    requires
        m.dom().contains(key),
    ensures
        insert_elf_syms(m, syms, strip, off).dom().contains(key),
    decreases syms.len(),
{
    if syms.len() > 0 {
        lemma_insert_elf_syms_dom_mono(m, syms.drop_last(), strip, off, key);
    }
}

/// Every defined symbol of a run leaves its (possibly stripped) name in the
/// mapping.
proof fn lemma_insert_elf_syms_dom(
    m: Map<Seq<char>, u64>,
    syms: Seq<ElfSymbolRec>,
    strip: bool,
    off: u64,
    i: int,
)
    requires
        0 <= i < syms.len(),
        syms[i].section_index != SHN_UNDEF,
    ensures
        insert_elf_syms(m, syms, strip, off).dom().contains(
            if strip {
                strip_llvm(syms[i].name@)
            } else {
                syms[i].name@
            },
        ),
    decreases syms.len(),
{
    if i < syms.len() - 1 {
        assert(syms.drop_last()[i] == syms[i]);
        lemma_insert_elf_syms_dom(m, syms.drop_last(), strip, off, i);
    }
}

/// Law: a defined static ELF symbol is resolved under its name with the
/// link-time-optimization suffix removed; a defined dynamic symbol under its
/// name as it stands.
pub proof fn lemma_elf_symbol_resolved(img: ElfImage, off: u64, i: int)
    ensures
        0 <= i < img.syms@.len() && img.syms@[i].section_index != SHN_UNDEF ==> elf_symbol_map(
            img,
            off,
        ).dom().contains(strip_llvm(img.syms@[i].name@)),
        0 <= i < img.dynsyms@.len() && img.dynsyms@[i].section_index != SHN_UNDEF
            ==> elf_symbol_map(img, off).dom().contains(img.dynsyms@[i].name@),
{
    let inner = insert_elf_syms(Map::empty(), img.syms@, true, off);
    if 0 <= i < img.syms@.len() && img.syms@[i].section_index != SHN_UNDEF {
        lemma_insert_elf_syms_dom(Map::empty(), img.syms@, true, off, i);
        lemma_insert_elf_syms_dom_mono(inner, img.dynsyms@, false, off, strip_llvm(
            img.syms@[i].name@,
        ));
    }
    if 0 <= i < img.dynsyms@.len() && img.dynsyms@[i].section_index != SHN_UNDEF {
        lemma_insert_elf_syms_dom(inner, img.dynsyms@, false, off, i);
    }
}

/// Law: a name built of a stem, the `.llvm.` marker and a nonempty run of
/// digits strips back to the stem.
pub proof fn lemma_strip_llvm_of_suffixed(p: Seq<char>, ds: Seq<char>)
    requires
        ds.len() >= 1,
        forall|k: int| 0 <= k < ds.len() ==> is_dec_digit(#[trigger] ds[k]),
    ensures
        strip_llvm(p + llvm_marker() + ds) == p,
{
    let s = p + llvm_marker() + ds;
    let d = ds.len();
    assert(forall|k: int|
        0 <= k < d ==> #[trigger] s[s.len() - 1 - k] == ds[ds.len() - 1 - k]);
    assert(s[s.len() - 1 - d as int] == llvm_marker()[5]);
    assert(!is_dec_digit(llvm_marker()[5]));
    lemma_trailing_digit_count(s, d);
    assert(s.subrange(s.len() - d - 6, s.len() - d as int) =~= llvm_marker());
    assert(llvm_suffix_len(s) == d + 6);
    assert(s.take(s.len() - llvm_suffix_len(s)) =~= p);
}

/// Every address in the mapping that a run of inserts leaves behind either
/// came with the initial mapping or is a defined symbol's address shifted by
/// the offset.
proof fn lemma_insert_elf_syms_values(
    m: Map<Seq<char>, u64>,
    syms: Seq<ElfSymbolRec>,
    strip: bool,
    off: u64,
    n: Seq<char>,
)
    requires
        insert_elf_syms(m, syms, strip, off).dom().contains(n),
    ensures
        (m.dom().contains(n) && insert_elf_syms(m, syms, strip, off)[n] == m[n]) || exists|i: int|
            0 <= i < syms.len() && (#[trigger] syms[i]).section_index != SHN_UNDEF
                && insert_elf_syms(m, syms, strip, off)[n] == wadd(syms[i].value, off),
    decreases syms.len(),
{
    if syms.len() > 0 {
        let prev = insert_elf_syms(m, syms.drop_last(), strip, off);
        let s = syms.last();
        let key = if strip {
            strip_llvm(s.name@)
        } else {
            s.name@
        };
        if s.section_index != SHN_UNDEF && key == n {
            assert(syms[syms.len() - 1].section_index != SHN_UNDEF);
        } else {
            lemma_insert_elf_syms_values(m, syms.drop_last(), strip, off, n);
            if exists|i: int|
                0 <= i < syms.drop_last().len() && (#[trigger] syms.drop_last()[i]).section_index
                    != SHN_UNDEF && prev[n] == wadd(syms.drop_last()[i].value, off) {
                let i = choose|i: int|
                    0 <= i < syms.drop_last().len() && (#[trigger] syms.drop_last()[
                        i
                    ]).section_index != SHN_UNDEF && prev[n] == wadd(syms.drop_last()[i].value, off);
                assert(syms.drop_last()[i] == syms[i]);
            }
        }
    }
}

/// Law: every address an ELF image resolves to is some defined symbol's
/// file-relative address shifted by the image's offset, modulo 2^64.
pub proof fn lemma_elf_symbol_addresses(img: ElfImage, off: u64, n: Seq<char>)
    requires
        elf_symbol_map(img, off).dom().contains(n),
    ensures
        exists|i: int|
            #![trigger img.syms@[i]]
            #![trigger img.dynsyms@[i]]
            (0 <= i < img.syms@.len() && img.syms@[i].section_index != SHN_UNDEF
                && elf_symbol_map(img, off)[n] == wadd(img.syms@[i].value, off)) || (0 <= i
                < img.dynsyms@.len() && img.dynsyms@[i].section_index != SHN_UNDEF
                && elf_symbol_map(img, off)[n] == wadd(img.dynsyms@[i].value, off)),
{
    let inner = insert_elf_syms(Map::empty(), img.syms@, true, off);
    lemma_insert_elf_syms_values(inner, img.dynsyms@, false, off, n);
    if inner.dom().contains(n) && elf_symbol_map(img, off)[n] == inner[n] {
        lemma_insert_elf_syms_values(Map::empty(), img.syms@, true, off, n);
        assert(!Map::<Seq<char>, u64>::empty().dom().contains(n));
        let i = choose|i: int|
            0 <= i < img.syms@.len() && (#[trigger] img.syms@[i]).section_index != SHN_UNDEF
                && inner[n] == wadd(img.syms@[i].value, off);
        assert(0 <= i < img.syms@.len() && img.syms@[i].section_index != SHN_UNDEF
            && elf_symbol_map(img, off)[n] == wadd(img.syms@[i].value, off));
    } else {
        let i = choose|i: int|
            0 <= i < img.dynsyms@.len() && (#[trigger] img.dynsyms@[i]).section_index != SHN_UNDEF
                && elf_symbol_map(img, off)[n] == wadd(img.dynsyms@[i].value, off);
        assert(0 <= i < img.dynsyms@.len() && img.dynsyms@[i].section_index != SHN_UNDEF
            && elf_symbol_map(img, off)[n] == wadd(img.dynsyms@[i].value, off));
    }
}

/// A Mach-O symbol run never removes a name from the mapping.
proof fn lemma_insert_mach_syms_dom_mono(
    m: Map<Seq<char>, u64>,
    syms: Seq<MachSymbolRec>,
    load: u64,
    key: Seq<char>,
)
    requires
        m.dom().contains(key),
    ensures
        insert_mach_syms(m, syms, load).dom().contains(key),
    decreases syms.len(),
{
    if syms.len() > 0 {
        lemma_insert_mach_syms_dom_mono(m, syms.drop_last(), load, key);
    }
}

/// Law: every Mach-O symbol whose name begins with an underscore is resolved
/// under the name with exactly that one character removed.
pub proof fn lemma_mach_symbol_resolved(img: MachImage, load: u64, i: int)
    requires
        0 <= i < img.symbols@.len(),
        img.symbols@[i].name@.len() >= 1,
        img.symbols@[i].name@[0] == '_',
    ensures
        insert_mach_syms(Map::empty(), img.symbols@, load).dom().contains(
            img.symbols@[i].name@.skip(1),
        ),
{
    lemma_insert_mach_syms_dom(Map::empty(), img.symbols@, load, i);
}

/// Every underscore-prefixed symbol of a run leaves its stripped name in the
/// mapping.
proof fn lemma_insert_mach_syms_dom(
    m: Map<Seq<char>, u64>,
    syms: Seq<MachSymbolRec>,
    load: u64,
    i: int,
)
    requires
        0 <= i < syms.len(),
        syms[i].name@.len() >= 1,
        syms[i].name@[0] == '_',
    ensures
        insert_mach_syms(m, syms, load).dom().contains(syms[i].name@.skip(1)),
    decreases syms.len(),
{
    if i < syms.len() - 1 {
        assert(syms.drop_last()[i] == syms[i]);
        lemma_insert_mach_syms_dom(m, syms.drop_last(), load, i);
    }
}


} // verus!
