//! ELF64 executable loading.
//!
//! Parsing is explicit little-endian field decoding with upfront bounds
//! checks; `plan_load` turns a validated image into a sequence of mapping
//! commands, and `LoadDriver` sequences those commands as kernel actions,
//! one event at a time, so that the caller performs the actual capability
//! calls.

use vstd::prelude::*;

verus! {

broadcast use vstd::slice::axiom_spec_len;

/// Program header type tag of a loadable segment.
pub const PT_LOAD: u32 = 1;

/// Segment permission flag: executable.
pub const PF_X: u32 = 1;

/// Segment permission flag: writable.
pub const PF_W: u32 = 2;

/// Segment permission flag: readable.
pub const PF_R: u32 = 4;

/// Mapping granularity: every segment is rounded to this page size.
pub const PAGE_SIZE: usize = 4096;

/// Size in bytes of the fixed ELF64 file header.
pub const ELF_HEADER_SIZE: usize = 64;

/// Size in bytes of one ELF64 program header entry.
pub const PH_ENTRY_SIZE: usize = 56;

/// How loading an image can fail.
#[derive(PartialEq, Eq, Structural, Clone, Copy, Debug)]
pub enum LoadError {
    /// The buffer is not a well-formed ELF64 image: too short, wrong
    /// identity bytes, a program header or file range outside the buffer,
    /// or an address computation that does not fit the machine word.
    Malformed,
    /// A fixed-address mapping landed at a different address than requested.
    AddressInUse,
}

/// The fixed ELF64 file header, decoded field by field.
pub struct Elf64Header {
    pub e_ident: Vec<u8>,
    pub e_type: u16,
    pub e_machine: u16,
    pub e_version: u32,
    pub e_entry: u64,
    pub e_phoff: u64,
    pub e_shoff: u64,
    pub e_flags: u32,
    pub e_ehsize: u16,
    pub e_phentsize: u16,
    pub e_phnum: u16,
    pub e_shentsize: u16,
    pub e_shnum: u16,
    pub e_shstrndx: u16,
}

/// One ELF64 program header entry, decoded field by field.
#[derive(PartialEq, Eq, Structural, Clone, Copy, Debug)]
pub struct Elf64ProgramHeader {
    pub p_type: u32,
    pub p_flags: u32,
    pub p_offset: u64,
    pub p_vaddr: u64,
    pub p_paddr: u64,
    pub p_filesz: u64,
    pub p_memsz: u64,
    pub p_align: u64,
}

/// The little-endian 16-bit value at byte offset `i`.
pub open spec fn le16(d: Seq<u8>, i: int) -> u16 {
    (d[i] as u16) | ((d[i + 1] as u16) << 8)
}

/// The little-endian 32-bit value at byte offset `i`.
pub open spec fn le32(d: Seq<u8>, i: int) -> u32 {
    (d[i] as u32) | ((d[i + 1] as u32) << 8) | ((d[i + 2] as u32) << 16) | ((d[i + 3] as u32)
        << 24)
}

/// The little-endian 64-bit value at byte offset `i`.
pub open spec fn le64(d: Seq<u8>, i: int) -> u64 {
    (le32(d, i) as u64) | ((le32(d, i + 4) as u64) << 32)
}

fn read_le16(d: &[u8], i: usize) -> (r: u16)
    requires
        i + 2 <= d@.len(),
    ensures
        r == le16(d@, i as int),
{
    (d[i] as u16) | ((d[i + 1] as u16) << 8)
}

fn read_le32(d: &[u8], i: usize) -> (r: u32)
    requires
        i + 4 <= d@.len(),
    ensures
        r == le32(d@, i as int),
{
    (d[i] as u32) | ((d[i + 1] as u32) << 8) | ((d[i + 2] as u32) << 16) | ((d[i + 3] as u32)
        << 24)
}

fn read_le64(d: &[u8], i: usize) -> (r: u64)
    requires
        i + 8 <= d@.len(),
    ensures
        r == le64(d@, i as int),
{
    proof {
        assert(d@.len() == vstd::slice::spec_slice_len(d));
    }
    (read_le32(d, i) as u64) | ((read_le32(d, i + 4) as u64) << 32)
}

/// The identity bytes mark a 64-bit ELF image: `0x7F 'E' 'L' 'F'` followed
/// by the 64-bit class byte.
pub open spec fn ident_ok(d: Seq<u8>) -> bool {
    &&& d.len() >= ELF_HEADER_SIZE
    &&& d[0] == 0x7f
    &&& d[1] == 0x45
    &&& d[2] == 0x4c
    &&& d[3] == 0x46
    &&& d[4] == 2
}

/// Decode the fixed ELF64 header, rejecting short buffers and images whose
/// identity bytes are not the native 64-bit ELF marker.
pub fn parse_elf_header(data: &[u8]) -> (r: Result<Elf64Header, LoadError>)
    ensures
        match r {
            Ok(h) => {
                &&& ident_ok(data@)
                &&& h.e_ident@ == data@.subrange(0, 16)
                &&& h.e_type == le16(data@, 16)
                &&& h.e_machine == le16(data@, 18)
                &&& h.e_version == le32(data@, 20)
                &&& h.e_entry == le64(data@, 24)
                &&& h.e_phoff == le64(data@, 32)
                &&& h.e_shoff == le64(data@, 40)
                &&& h.e_flags == le32(data@, 48)
                &&& h.e_ehsize == le16(data@, 52)
                &&& h.e_phentsize == le16(data@, 54)
                &&& h.e_phnum == le16(data@, 56)
                &&& h.e_shentsize == le16(data@, 58)
                &&& h.e_shnum == le16(data@, 60)
                &&& h.e_shstrndx == le16(data@, 62)
            },
            Err(e) => e == LoadError::Malformed && !ident_ok(data@),
        },
{
    if data.len() < ELF_HEADER_SIZE {
        return Err(LoadError::Malformed);
    }
    if data[0] != 0x7f || data[1] != 0x45 || data[2] != 0x4c || data[3] != 0x46 {
        return Err(LoadError::Malformed);
    }
    if data[4] != 2 {
        return Err(LoadError::Malformed);
    }
    let mut e_ident: Vec<u8> = Vec::new();
    let mut i: usize = 0;
    while i < 16
        invariant
            i <= 16,
            data@.len() >= ELF_HEADER_SIZE,
            e_ident@ == data@.subrange(0, i as int),
        decreases 16 - i,
    {
        e_ident.push(data[i]);
        proof {
            assert(e_ident@ =~= data@.subrange(0, i + 1));
        }
        i = i + 1;
    }
    Ok(Elf64Header {
        e_ident,
        e_type: read_le16(data, 16),
        e_machine: read_le16(data, 18),
        e_version: read_le32(data, 20),
        e_entry: read_le64(data, 24),
        e_phoff: read_le64(data, 32),
        e_shoff: read_le64(data, 40),
        e_flags: read_le32(data, 48),
        e_ehsize: read_le16(data, 52),
        e_phentsize: read_le16(data, 54),
        e_phnum: read_le16(data, 56),
        e_shentsize: read_le16(data, 58),
        e_shnum: read_le16(data, 60),
        e_shstrndx: read_le16(data, 62),
    })
}

/// The program header entry decoded from byte offset `off`.
pub open spec fn ph_at(d: Seq<u8>, off: int) -> Elf64ProgramHeader {
    Elf64ProgramHeader {
        p_type: le32(d, off),
        p_flags: le32(d, off + 4),
        p_offset: le64(d, off + 8),
        p_vaddr: le64(d, off + 16),
        p_paddr: le64(d, off + 24),
        p_filesz: le64(d, off + 32),
        p_memsz: le64(d, off + 40),
        p_align: le64(d, off + 48),
    }
}

/// Decode one program header entry, rejecting a byte range that does not
/// lie within the buffer.
pub fn parse_program_header(data: &[u8], off: usize) -> (r: Result<
    Elf64ProgramHeader,
    LoadError,
>)
    ensures
        match r {
            Ok(ph) => off + PH_ENTRY_SIZE <= data@.len() && ph == ph_at(data@, off as int),
            Err(e) => e == LoadError::Malformed && off + PH_ENTRY_SIZE > data@.len(),
        },
{
    if data.len() < PH_ENTRY_SIZE || off > data.len() - PH_ENTRY_SIZE {
        return Err(LoadError::Malformed);
    }
    Ok(Elf64ProgramHeader {
        p_type: read_le32(data, off),
        p_flags: read_le32(data, off + 4),
        p_offset: read_le64(data, off + 8),
        p_vaddr: read_le64(data, off + 16),
        p_paddr: read_le64(data, off + 24),
        p_filesz: read_le64(data, off + 32),
        p_memsz: read_le64(data, off + 40),
        p_align: read_le64(data, off + 48),
    })
}

/// `addr` rounded down to a multiple of `align`.
pub open spec fn align_down_spec(addr: int, align: int) -> int
    recommends
        align > 0,
{
    (addr / align) * align
}

/// `addr` rounded up to a multiple of `align`.
pub open spec fn align_up_spec(addr: int, align: int) -> int
    recommends
        align > 0,
{
    ((addr + align - 1) / align) * align
}

/// Round `addr` down to a multiple of `align`.
pub fn align_down(addr: usize, align: usize) -> (r: usize)
    requires
        align > 0,
    ensures
        r == align_down_spec(addr as int, align as int),
        r <= addr,
        r % align == 0,
{
    proof {
        let q = addr as int / align as int;
        vstd::arithmetic::div_mod::lemma_fundamental_div_mod(addr as int, align as int);
        vstd::arithmetic::div_mod::lemma_mod_bound(addr as int, align as int);
        vstd::arithmetic::mul::lemma_mul_is_commutative(q, align as int);
        vstd::arithmetic::div_mod::lemma_mod_multiples_basic(q, align as int);
    }
    (addr / align) * align
}

/// Round `addr` up to a multiple of `align`.
pub fn align_up(addr: usize, align: usize) -> (r: usize)
    requires
        align > 0,
        addr + align - 1 <= usize::MAX,
    ensures
        r == align_up_spec(addr as int, align as int),
        addr <= r && r < addr + align,
        r % align == 0,
{
    proof {
        let s = addr as int + align - 1;
        let q = s / align as int;
        vstd::arithmetic::div_mod::lemma_fundamental_div_mod(s, align as int);
        vstd::arithmetic::div_mod::lemma_mod_bound(s, align as int);
        vstd::arithmetic::mul::lemma_mul_is_commutative(q, align as int);
        vstd::arithmetic::div_mod::lemma_mod_multiples_basic(q, align as int);
    }
    ((addr + (align - 1)) / align) * align
}

/// One LOAD entry turned into concrete mapping work: a page-aligned
/// destination range, the permissions of its memory object, and the file
/// bytes to copy to the unaligned virtual address.
#[derive(PartialEq, Eq, Structural, Clone, Copy, Debug)]
pub struct SegmentCommand {
    /// Unaligned destination of the copied bytes.
    pub vaddr: usize,
    /// Declared in-memory size of the segment, before page rounding.
    pub mem_size: usize,
    /// Start of the source bytes in the image; zero when there is nothing
    /// to copy.
    pub file_offset: usize,
    /// Number of source bytes to copy.
    pub file_size: usize,
    /// Page-aligned start of the mapping.
    pub base: usize,
    /// Page-aligned length of the mapping.
    pub size: usize,
    pub readable: bool,
    pub writable: bool,
    pub executable: bool,
}

/// A LOAD entry is acceptable when its address range fits the machine word
/// even after page rounding, and its file bytes lie within the image.
pub open spec fn load_ok(d: Seq<u8>, ph: Elf64ProgramHeader) -> bool {
    &&& ph.p_vaddr + ph.p_memsz + (PAGE_SIZE - 1) <= usize::MAX
    &&& (ph.p_filesz > 0 ==> ph.p_offset + ph.p_filesz <= d.len())
}

/// The mapping work for one LOAD entry.
pub open spec fn segment_for(ph: Elf64ProgramHeader) -> SegmentCommand {
    SegmentCommand {
        vaddr: ph.p_vaddr as usize,
        mem_size: ph.p_memsz as usize,
        file_offset: if ph.p_filesz == 0 {
            0
        } else {
            ph.p_offset as usize
        },
        file_size: ph.p_filesz as usize,
        base: align_down_spec(ph.p_vaddr as int, PAGE_SIZE as int) as usize,
        size: (align_up_spec(ph.p_vaddr + ph.p_memsz, PAGE_SIZE as int) - align_down_spec(
            ph.p_vaddr as int,
            PAGE_SIZE as int,
        )) as usize,
        readable: ph.p_flags & PF_R != 0,
        writable: ph.p_flags & PF_W != 0,
        executable: ph.p_flags & PF_X != 0,
    }
}

/// Program header entry `i` lies within the buffer, and if it is a LOAD
/// entry its layout is acceptable.
pub open spec fn ph_entry_ok(d: Seq<u8>, phoff: int, phentsize: int, i: int) -> bool {
    let off = phoff + i * phentsize;
    &&& off + PH_ENTRY_SIZE <= d.len()
    &&& (ph_at(d, off).p_type == PT_LOAD ==> load_ok(d, ph_at(d, off)))
}

/// All `n` program header entries are acceptable.
pub open spec fn segments_ok(d: Seq<u8>, phoff: int, phentsize: int, n: int) -> bool {
    forall|i: int| 0 <= i < n ==> #[trigger] ph_entry_ok(d, phoff, phentsize, i)
}

/// The mapping commands of the first `n` program header entries, one per
/// LOAD entry, in file order.
pub open spec fn plan_segs(d: Seq<u8>, phoff: int, phentsize: int, n: int) -> Seq<SegmentCommand>
    decreases n,
{
    if n <= 0 {
        Seq::empty()
    } else {
        let prev = plan_segs(d, phoff, phentsize, n - 1);
        let ph = ph_at(d, phoff + (n - 1) * phentsize);
        if ph.p_type == PT_LOAD {
            prev.push(segment_for(ph))
        } else {
            prev
        }
    }
}

/// The image parses as a loadable ELF64 executable: marker bytes, an entry
/// point that fits the machine word, and an acceptable program header table.
pub open spec fn image_ok(d: Seq<u8>) -> bool {
    &&& ident_ok(d)
    &&& le64(d, 24) <= usize::MAX
    &&& segments_ok(d, le64(d, 32) as int, le16(d, 54) as int, le16(d, 56) as int)
}

/// The mapping commands of a loadable image, in file order.
pub open spec fn plan_spec(d: Seq<u8>) -> Seq<SegmentCommand> {
    plan_segs(d, le64(d, 32) as int, le16(d, 54) as int, le16(d, 56) as int)
}

/// Everything the kernel must be asked to do to materialize one image, plus
/// the entry point control is eventually transferred to.
#[derive(Debug, PartialEq, Eq)]
pub struct LoadPlan {
    pub segments: Vec<SegmentCommand>,
    pub entry: usize,
}

/// Validate an ELF64 image and compute its mapping plan. Planning performs
/// no kernel call on any path, and actions exist only on a plan's driver,
/// so a buffer that is too short or lacks the ELF marker is rejected before
/// anything exists kernel-side: no process, no partial side effect.
pub fn plan_load(elf_data: &[u8]) -> (r: Result<LoadPlan, LoadError>)
    ensures
        elf_data@.len() < ELF_HEADER_SIZE || !ident_ok(elf_data@) ==> r is Err,
        match r {
            Ok(p) => {
                &&& image_ok(elf_data@)
                &&& p.entry == le64(elf_data@, 24)
                &&& p.segments@ == plan_spec(elf_data@)
            },
            Err(e) => e == LoadError::Malformed && !image_ok(elf_data@),
        },
{
    let data_len = elf_data.len();
    let header = match parse_elf_header(elf_data) {
        Ok(h) => h,
        Err(e) => {
            return Err(e);
        },
    };
    if header.e_entry > usize::MAX as u64 {
        return Err(LoadError::Malformed);
    }
    let phoff = header.e_phoff;
    let phentsize = header.e_phentsize;
    let phnum = header.e_phnum as usize;
    let ghost po = le64(elf_data@, 32) as int;
    let ghost pe = le16(elf_data@, 54) as int;
    let ghost pn = le16(elf_data@, 56) as int;
    let mut segments: Vec<SegmentCommand> = Vec::new();
    let mut i: usize = 0;
    while i < phnum
        invariant
            i <= phnum,
            phnum <= 0xffff,
            pn == phnum,
            pn == le16(elf_data@, 56) as int,
            po == le64(elf_data@, 32) as int,
            pe == le16(elf_data@, 54) as int,
            phoff == le64(elf_data@, 32),
            phentsize == le16(elf_data@, 54),
            segments@ == plan_segs(elf_data@, po, pe, i as int),
            segments_ok(elf_data@, po, pe, i as int),
            data_len == elf_data@.len(),
        decreases phnum - i,
    {
        proof {
            vstd::arithmetic::mul::lemma_mul_nonnegative(i as int, pe);
            vstd::arithmetic::mul::lemma_mul_upper_bound(i as int, 0xffff, pe, 0xffff);
        }
        let off_wide: u128 = (phoff as u128) + (i as u128) * (phentsize as u128);
        if off_wide + (PH_ENTRY_SIZE as u128) > (data_len as u128) {
            proof {
                assert(!ph_entry_ok(elf_data@, po, pe, i as int));
                assert(!segments_ok(elf_data@, po, pe, pn));
            }
            return Err(LoadError::Malformed);
        }
        let off = off_wide as usize;
        let ph = match parse_program_header(elf_data, off) {
            Ok(ph) => ph,
            Err(_) => {
                // The range was checked just above, so parsing cannot fail.
                proof {
                    assert(false);
                }
                return Err(LoadError::Malformed);
            },
        };
        if ph.p_type == PT_LOAD {
            let vend_wide: u128 = (ph.p_vaddr as u128) + (ph.p_memsz as u128) + (
            (PAGE_SIZE - 1) as u128);
            if vend_wide > (usize::MAX as u128) {
                proof {
                    assert(!ph_entry_ok(elf_data@, po, pe, i as int));
                    assert(!segments_ok(elf_data@, po, pe, pn));
                }
                return Err(LoadError::Malformed);
            }
            if ph.p_filesz > 0 {
                let fend_wide: u128 = (ph.p_offset as u128) + (ph.p_filesz as u128);
                if fend_wide > (data_len as u128) {
                    proof {
                        assert(!ph_entry_ok(elf_data@, po, pe, i as int));
                        assert(!segments_ok(elf_data@, po, pe, pn));
                    }
                    return Err(LoadError::Malformed);
                }
            }
            let vaddr = ph.p_vaddr as usize;
            let mem_size = ph.p_memsz as usize;
            let base = align_down(vaddr, PAGE_SIZE);
            let end = align_up(vaddr + mem_size, PAGE_SIZE);
            let cmd = SegmentCommand {
                vaddr,
                mem_size,
                file_offset: if ph.p_filesz == 0 {
                    0
                } else {
                    ph.p_offset as usize
                },
                file_size: ph.p_filesz as usize,
                base,
                size: end - base,
                readable: ph.p_flags & PF_R != 0,
                writable: ph.p_flags & PF_W != 0,
                executable: ph.p_flags & PF_X != 0,
            };
            proof {
                assert(cmd == segment_for(ph_at(elf_data@, po + (i as int) * pe)));
            }
            segments.push(cmd);
        }
        proof {
            assert(segments@ =~= plan_segs(elf_data@, po, pe, i as int + 1));
            assert(ph_entry_ok(elf_data@, po, pe, i as int));
        }
        i = i + 1;
    }
    Ok(LoadPlan { segments, entry: header.e_entry as usize })
}

/// The next kernel call the caller must make on the plan's behalf.
#[derive(PartialEq, Eq, Structural, Clone, Copy, Debug)]
pub enum LoadAction {
    /// Create a zero-filled memory object of `size` bytes with the given
    /// permissions.
    CreateMemObj { size: usize, readable: bool, writable: bool, executable: bool },
    /// Map the memory object just created into the new process at exactly
    /// `base`.
    MapFixed { base: usize, readable: bool, writable: bool, executable: bool },
    /// Copy `len` bytes starting at `file_offset` of the image into the new
    /// process at address `dest`.
    CopyTo { dest: usize, file_offset: usize, len: usize },
    /// Every segment is mapped and filled; the process may be started at
    /// `entry`.
    Done { entry: usize },
}

/// What the kernel answered to the action last handed out.
#[derive(PartialEq, Eq, Structural, Clone, Copy, Debug)]
pub enum KernelReply {
    MemObjCreated,
    /// The mapping call returned this address.
    Mapped { addr: usize },
    Copied,
}

/// Where the driver stands within the current segment.
#[derive(PartialEq, Eq, Structural, Clone, Copy, Debug)]
pub enum LoadPhase {
    CreateObj,
    MapObj,
    CopyBytes,
}

/// Sequences a mapping plan as single kernel actions. The caller performs
/// each action, reports the kernel's reply, and stops on the first error;
/// segments are processed strictly in file order, so a failure leaves a
/// deterministic prefix mapped.
pub struct LoadDriver {
    plan: LoadPlan,
    seg: usize,
    phase: LoadPhase,
}

impl LoadDriver {
    /// The mapping commands being driven.
    pub closed spec fn segments(self) -> Seq<SegmentCommand> {
        self.plan.segments@
    }

    /// The entry point handed out once every segment is in place.
    pub closed spec fn entry(self) -> usize {
        self.plan.entry
    }

    /// Index of the segment currently being materialized.
    pub closed spec fn seg_index(self) -> int {
        self.seg as int
    }

    /// Step within the current segment.
    pub closed spec fn phase(self) -> LoadPhase {
        self.phase
    }

    pub open spec fn wf(self) -> bool {
        &&& self.seg_index() <= self.segments().len()
        &&& (self.seg_index() == self.segments().len() ==> self.phase() == LoadPhase::CreateObj)
    }

    /// All segments are mapped and filled.
    pub open spec fn done(self) -> bool {
        self.seg_index() == self.segments().len()
    }

    /// The action owed in the current state.
    pub open spec fn action_spec(self) -> LoadAction {
        if self.done() {
            LoadAction::Done { entry: self.entry() }
        } else {
            let c = self.segments()[self.seg_index()];
            match self.phase() {
                LoadPhase::CreateObj => LoadAction::CreateMemObj {
                    size: c.size,
                    readable: c.readable,
                    writable: c.writable,
                    executable: c.executable,
                },
                LoadPhase::MapObj => LoadAction::MapFixed {
                    base: c.base,
                    readable: c.readable,
                    writable: c.writable,
                    executable: c.executable,
                },
                LoadPhase::CopyBytes => LoadAction::CopyTo {
                    dest: c.vaddr,
                    file_offset: c.file_offset,
                    len: c.file_size,
                },
            }
        }
    }

    /// The reply kind the current phase expects.
    pub open spec fn reply_matches(self, reply: KernelReply) -> bool {
        match self.phase() {
            LoadPhase::CreateObj => reply == KernelReply::MemObjCreated,
            LoadPhase::MapObj => reply matches KernelReply::Mapped { .. },
            LoadPhase::CopyBytes => reply == KernelReply::Copied,
        }
    }

    pub fn new(plan: LoadPlan) -> (r: LoadDriver)
        ensures
            r.wf(),
            r.segments() == plan.segments@,
            r.entry() == plan.entry,
            r.seg_index() == 0,
            r.phase() == LoadPhase::CreateObj,
    {
        LoadDriver { plan, seg: 0, phase: LoadPhase::CreateObj }
    }

    /// What the caller must do next. Repeats the same action until `step`
    /// is told how the kernel answered.
    pub fn next_action(&self) -> (r: LoadAction)
        requires
            self.wf(),
        ensures
            r == self.action_spec(),
    {
        if self.seg == self.plan.segments.len() {
            return LoadAction::Done { entry: self.plan.entry };
        }
        let c = self.plan.segments[self.seg];
        match self.phase {
            LoadPhase::CreateObj => LoadAction::CreateMemObj {
                size: c.size,
                readable: c.readable,
                writable: c.writable,
                executable: c.executable,
            },
            LoadPhase::MapObj => LoadAction::MapFixed {
                base: c.base,
                readable: c.readable,
                writable: c.writable,
                executable: c.executable,
            },
            LoadPhase::CopyBytes => LoadAction::CopyTo {
                dest: c.vaddr,
                file_offset: c.file_offset,
                len: c.file_size,
            },
        }
    }

    /// Advance on the kernel's reply. A fixed-address mapping that landed
    /// anywhere but the requested base is fatal: segment addresses are
    /// absolute, so the driver reports the conflict and stays put instead
    /// of proceeding to further segments. A segment with nothing to copy
    /// skips its copy step.
    pub fn step(&mut self, reply: KernelReply) -> (r: Result<(), LoadError>)
        requires
            old(self).wf(),
            !old(self).done(),
            old(self).reply_matches(reply),
        ensures
            final(self).wf(),
            final(self).segments() == old(self).segments(),
            final(self).entry() == old(self).entry(),
            ({
                let c = old(self).segments()[old(self).seg_index()];
                match r {
                    Ok(()) => match old(self).phase() {
                        LoadPhase::CreateObj => {
                            &&& final(self).seg_index() == old(self).seg_index()
                            &&& final(self).phase() == LoadPhase::MapObj
                        },
                        LoadPhase::MapObj => {
                            &&& reply == (KernelReply::Mapped { addr: c.base })
                            &&& if c.file_size > 0 {
                                &&& final(self).seg_index() == old(self).seg_index()
                                &&& final(self).phase() == LoadPhase::CopyBytes
                            } else {
                                &&& final(self).seg_index() == old(self).seg_index() + 1
                                &&& final(self).phase() == LoadPhase::CreateObj
                            }
                        },
                        LoadPhase::CopyBytes => {
                            &&& final(self).seg_index() == old(self).seg_index() + 1
                            &&& final(self).phase() == LoadPhase::CreateObj
                        },
                    },
                    Err(e) => {
                        &&& e == LoadError::AddressInUse
                        &&& old(self).phase() == LoadPhase::MapObj
                        &&& reply != (KernelReply::Mapped { addr: c.base })
                        &&& final(self).seg_index() == old(self).seg_index()
                        &&& final(self).phase() == old(self).phase()
                    },
                }
            }),
    {
        match self.phase {
            LoadPhase::CreateObj => {
                self.phase = LoadPhase::MapObj;
                Ok(())
            },
            LoadPhase::MapObj => {
                let c = self.plan.segments[self.seg];
                match reply {
                    KernelReply::Mapped { addr } => {
                        if addr != c.base {
                            return Err(LoadError::AddressInUse);
                        }
                        if c.file_size > 0 {
                            self.phase = LoadPhase::CopyBytes;
                        } else {
                            let n = self.plan.segments.len();
                            assert(self.seg < n);
                            self.seg = self.seg + 1;
                            self.phase = LoadPhase::CreateObj;
                        }
                        Ok(())
                    },
                    _ => {
                        // `reply_matches` rules any other reply out here.
                        proof {
                            assert(false);
                        }
                        Err(LoadError::AddressInUse)
                    },
                }
            },
            LoadPhase::CopyBytes => {
                let n = self.plan.segments.len();
                assert(self.seg < n);
                self.seg = self.seg + 1;
                self.phase = LoadPhase::CreateObj;
                Ok(())
            },
        }
    }
}

/// Law: a buffer shorter than the fixed header, or one whose identity bytes
/// are not the 64-bit ELF marker, is never a loadable image, so `plan_load`
/// rejects it before any kernel resource exists.
pub proof fn lemma_bad_image_rejected(d: Seq<u8>)
    requires
        d.len() < ELF_HEADER_SIZE || !ident_ok(d),
    ensures
        !image_ok(d),
{
}

/// Law: for every LOAD entry that fits the machine word, the planned mapping
/// covers exactly the page rounding of `[p_vaddr, p_vaddr + p_memsz)`: it
/// starts at `align_down(p_vaddr)`, ends at `align_up(p_vaddr + p_memsz)`,
/// both page-aligned, and contains the unaligned range; the bytes copied are
/// exactly the first `p_filesz` file bytes, placed at `p_vaddr` itself.
pub proof fn lemma_segment_covers(ph: Elf64ProgramHeader)
    requires
        ph.p_vaddr + ph.p_memsz + (PAGE_SIZE - 1) <= usize::MAX,
        ph.p_filesz <= usize::MAX,
    ensures
        ({
            let c = segment_for(ph);
            &&& c.base == align_down_spec(ph.p_vaddr as int, PAGE_SIZE as int)
            &&& c.base + c.size == align_up_spec(ph.p_vaddr + ph.p_memsz, PAGE_SIZE as int)
            &&& (c.base as int) % (PAGE_SIZE as int) == 0
            &&& (c.base + c.size) as int % (PAGE_SIZE as int) == 0
            &&& c.base <= c.vaddr
            &&& c.vaddr + c.mem_size <= c.base + c.size
            &&& c.vaddr == ph.p_vaddr
            &&& c.mem_size == ph.p_memsz
            &&& c.file_size == ph.p_filesz
        }),
{
    let p = PAGE_SIZE as int;
    let v = ph.p_vaddr as int;
    let e = v + ph.p_memsz;
    let down = v / p;
    let up = (e + p - 1) / p;
    vstd::arithmetic::div_mod::lemma_fundamental_div_mod(v, p);
    vstd::arithmetic::div_mod::lemma_mod_bound(v, p);
    vstd::arithmetic::div_mod::lemma_fundamental_div_mod(e + p - 1, p);
    vstd::arithmetic::div_mod::lemma_mod_bound(e + p - 1, p);
    vstd::arithmetic::mul::lemma_mul_is_commutative(down, p);
    vstd::arithmetic::mul::lemma_mul_is_commutative(up, p);
    vstd::arithmetic::div_mod::lemma_mod_multiples_basic(down, p);
    vstd::arithmetic::div_mod::lemma_mod_multiples_basic(up, p);
    vstd::arithmetic::div_mod::lemma_div_pos_is_pos(v, p);
    vstd::arithmetic::mul::lemma_mul_nonnegative(down, p);
    vstd::arithmetic::div_mod::lemma_div_is_ordered(v, e + p - 1, p);
    vstd::arithmetic::mul::lemma_mul_inequality(down, up, p);
}

/// Some LOAD entry among the first `n` of the table gives rise to command
/// `c`.
pub open spec fn seg_from_load(
    d: Seq<u8>,
    phoff: int,
    phentsize: int,
    n: int,
    c: SegmentCommand,
) -> bool {
    exists|j: int|
        {
            &&& 0 <= j < n
            &&& (#[trigger] ph_at(d, phoff + j * phentsize)).p_type == PT_LOAD
            &&& c == segment_for(ph_at(d, phoff + j * phentsize))
        }
}

/// Law: every command of a plan is the mapping work of some LOAD entry of
/// the program header table; together with `lemma_segment_covers`, every
/// mapping a loaded image asks for covers exactly the page rounding of its
/// entry's address range.
pub proof fn lemma_plan_from_load_entries(d: Seq<u8>, phoff: int, phentsize: int, n: int)
    ensures
        forall|i: int|
            0 <= i < plan_segs(d, phoff, phentsize, n).len() ==> seg_from_load(
                d,
                phoff,
                phentsize,
                n,
                #[trigger] plan_segs(d, phoff, phentsize, n)[i],
            ),
    decreases n,
{
    if n > 0 {
        lemma_plan_from_load_entries(d, phoff, phentsize, n - 1);
        let prev = plan_segs(d, phoff, phentsize, n - 1);
        let ph = ph_at(d, phoff + (n - 1) * phentsize);
        assert forall|i: int|
            0 <= i < plan_segs(d, phoff, phentsize, n).len() implies seg_from_load(
            d,
            phoff,
            phentsize,
            n,
            #[trigger] plan_segs(d, phoff, phentsize, n)[i],
        ) by {
            if i < prev.len() {
                assert(plan_segs(d, phoff, phentsize, n)[i] == prev[i]);
                assert(seg_from_load(d, phoff, phentsize, n - 1, prev[i]));
                let j0 = choose|j: int|
                    {
                        &&& 0 <= j < n - 1
                        &&& (#[trigger] ph_at(d, phoff + j * phentsize)).p_type == PT_LOAD
                        &&& prev[i] == segment_for(ph_at(d, phoff + j * phentsize))
                    };
                assert(ph_at(d, phoff + j0 * phentsize).p_type == PT_LOAD);
            } else {
                assert(ph.p_type == PT_LOAD);
                assert(plan_segs(d, phoff, phentsize, n)[i] == segment_for(
                    ph_at(d, phoff + (n - 1) * phentsize),
                ));
            }
        }
    }
}

/// Law: a LOAD entry whose file bytes are shorter than its in-memory size
/// leaves a tail `[p_filesz, p_memsz)` that the plan's copy never touches;
/// those bytes stay as the freshly created memory object provides them,
/// that is zero.
pub proof fn lemma_bss_untouched(ph: Elf64ProgramHeader, addr: int)
    requires
        ph.p_vaddr + ph.p_memsz + (PAGE_SIZE - 1) <= usize::MAX,
        ph.p_filesz <= ph.p_memsz,
        ph.p_vaddr + ph.p_filesz <= addr < ph.p_vaddr + ph.p_memsz,
    ensures
        ({
            let c = segment_for(ph);
            !(c.vaddr <= addr < c.vaddr + c.file_size)
        }),
{
}

} // verus!
