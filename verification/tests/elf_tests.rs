use initload::elf_loader::{
    align_down, align_up, parse_elf_header, parse_program_header, plan_load, KernelReply,
    LoadAction, LoadDriver, LoadError, PAGE_SIZE, PF_R, PF_W, PF_X, PT_LOAD,
};
use std::collections::HashMap;

fn put16(d: &mut [u8], at: usize, v: u16) {
    d[at..at + 2].copy_from_slice(&v.to_le_bytes());
}

fn put32(d: &mut [u8], at: usize, v: u32) {
    d[at..at + 4].copy_from_slice(&v.to_le_bytes());
}

fn put64(d: &mut [u8], at: usize, v: u64) {
    d[at..at + 8].copy_from_slice(&v.to_le_bytes());
}

struct Segment {
    p_type: u32,
    p_flags: u32,
    p_offset: u64,
    p_vaddr: u64,
    p_filesz: u64,
    p_memsz: u64,
}

/// A minimal ELF64 image: file header, program header table right after
/// it, then the given content at offset 0x200.
fn build_elf(entry: u64, segs: &[Segment], content: &[u8]) -> Vec<u8> {
    let mut d = vec![0u8; 0x200 + content.len()];
    d[0] = 0x7f;
    d[1] = b'E';
    d[2] = b'L';
    d[3] = b'F';
    d[4] = 2; // 64-bit
    d[5] = 1; // little-endian
    put16(&mut d, 16, 2); // ET_EXEC
    put16(&mut d, 18, 0x3e); // x86-64
    put32(&mut d, 20, 1);
    put64(&mut d, 24, entry);
    put64(&mut d, 32, 64); // phoff
    put16(&mut d, 54, 56); // phentsize
    put16(&mut d, 56, segs.len() as u16); // phnum
    for (i, s) in segs.iter().enumerate() {
        let at = 64 + i * 56;
        put32(&mut d, at, s.p_type);
        put32(&mut d, at + 4, s.p_flags);
        put64(&mut d, at + 8, s.p_offset);
        put64(&mut d, at + 16, s.p_vaddr);
        put64(&mut d, at + 32, s.p_filesz);
        put64(&mut d, at + 40, s.p_memsz);
        put64(&mut d, at + 48, 0x1000);
    }
    d[0x200..0x200 + content.len()].copy_from_slice(content);
    d
}

/// A pretend kernel: fresh memory objects are zero-filled, mappings land
/// where asked unless the page is already taken, copies write bytes.
struct FakeKernel {
    maps: Vec<(usize, usize, bool, bool, bool)>,
    memory: HashMap<usize, u8>,
    pending: Option<(usize, bool, bool, bool)>,
}

impl FakeKernel {
    fn new() -> FakeKernel {
        FakeKernel { maps: Vec::new(), memory: HashMap::new(), pending: None }
    }

    fn occupied(&self, base: usize, size: usize) -> bool {
        self.maps.iter().any(|m| base < m.0 + m.1 && m.0 < base + size)
    }

    fn run(&mut self, driver: &mut LoadDriver, image: &[u8]) -> Result<usize, LoadError> {
        loop {
            match driver.next_action() {
                LoadAction::Done { entry } => return Ok(entry),
                LoadAction::CreateMemObj { size, readable, writable, executable } => {
                    self.pending = Some((size, readable, writable, executable));
                    driver.step(KernelReply::MemObjCreated)?;
                }
                LoadAction::MapFixed { base, readable, writable, executable } => {
                    let (size, r, w, x) = self.pending.take().expect("map without object");
                    assert_eq!((r, w, x), (readable, writable, executable));
                    let landed = if self.occupied(base, size) {
                        // The pretend kernel relocates instead of failing;
                        // the driver must treat that as an address conflict.
                        base + 0x10000
                    } else {
                        self.maps.push((base, size, r, w, x));
                        for a in base..base + size {
                            self.memory.insert(a, 0);
                        }
                        base
                    };
                    driver.step(KernelReply::Mapped { addr: landed })?;
                }
                LoadAction::CopyTo { dest, file_offset, len } => {
                    for i in 0..len {
                        self.memory.insert(dest + i, image[file_offset + i]);
                    }
                    driver.step(KernelReply::Copied)?;
                }
            }
        }
    }
}

#[test]
fn single_load_segment_maps_and_copies() {
    // One LOAD segment: vaddr 0x401000, memsz 0x2000, filesz 0x10,
    // flags READ|EXEC.
    let content: Vec<u8> = (0u8..0x10u8).collect();
    let image = build_elf(
        0x401000,
        &[Segment {
            p_type: PT_LOAD,
            p_flags: PF_R | PF_X,
            p_offset: 0x200,
            p_vaddr: 0x401000,
            p_filesz: 0x10,
            p_memsz: 0x2000,
        }],
        &content,
    );
    let plan = plan_load(&image).expect("image is loadable");
    assert_eq!(plan.entry, 0x401000);
    assert_eq!(plan.segments.len(), 1);
    let c = &plan.segments[0];
    assert_eq!(c.base, 0x401000);
    assert_eq!(c.size, 0x2000);
    assert!(c.readable && c.executable && !c.writable);

    let mut kernel = FakeKernel::new();
    let mut driver = LoadDriver::new(plan);
    let entry = kernel.run(&mut driver, &image).expect("load succeeds");
    assert_eq!(entry, 0x401000);
    assert_eq!(kernel.maps, vec![(0x401000, 0x2000, true, false, true)]);
    // Copied bytes match the source exactly.
    for i in 0..0x10usize {
        assert_eq!(kernel.memory[&(0x401000 + i)], content[i]);
    }
    // The bss tail reads back as zero.
    for a in (0x401000 + 0x10)..(0x401000 + 0x2000) {
        assert_eq!(kernel.memory[&a], 0);
    }
}

#[test]
fn unaligned_segment_covers_page_rounding() {
    let image = build_elf(
        0x401234,
        &[Segment {
            p_type: PT_LOAD,
            p_flags: PF_R | PF_W,
            p_offset: 0x200,
            p_vaddr: 0x401234,
            p_filesz: 4,
            p_memsz: 0x100,
        }],
        b"abcd",
    );
    let plan = plan_load(&image).expect("loadable");
    let c = &plan.segments[0];
    assert_eq!(c.base, 0x401000);
    assert_eq!(c.base + c.size, 0x402000);
    assert_eq!(c.vaddr, 0x401234);
    let mut kernel = FakeKernel::new();
    let mut driver = LoadDriver::new(plan);
    kernel.run(&mut driver, &image).expect("load succeeds");
    assert_eq!(kernel.memory[&0x401234], b'a');
}

#[test]
fn address_conflict_stops_the_load() {
    // Two LOAD segments sharing a page: the second mapping cannot land at
    // its requested base, and the driver must stop with AddressInUse.
    let image = build_elf(
        0x400000,
        &[
            Segment {
                p_type: PT_LOAD,
                p_flags: PF_R,
                p_offset: 0x200,
                p_vaddr: 0x400000,
                p_filesz: 4,
                p_memsz: 0x1000,
            },
            Segment {
                p_type: PT_LOAD,
                p_flags: PF_R | PF_W,
                p_offset: 0x200,
                p_vaddr: 0x400800,
                p_filesz: 4,
                p_memsz: 0x100,
            },
        ],
        b"abcd",
    );
    let plan = plan_load(&image).expect("structurally fine");
    assert_eq!(plan.segments.len(), 2);
    let mut kernel = FakeKernel::new();
    let mut driver = LoadDriver::new(plan);
    let err = kernel.run(&mut driver, &image).expect_err("conflict");
    assert_eq!(err, LoadError::AddressInUse);
    // Only the first segment was mapped; the driver did not proceed.
    assert_eq!(kernel.maps.len(), 1);
    assert!(matches!(driver.next_action(), LoadAction::MapFixed { .. }));
}

#[test]
fn short_buffer_is_malformed() {
    let image = vec![0x7f, b'E', b'L', b'F', 2];
    assert_eq!(plan_load(&image), Err(LoadError::Malformed));
}

#[test]
fn bad_magic_is_malformed() {
    let mut image = build_elf(0, &[], &[]);
    image[1] = b'X';
    assert_eq!(plan_load(&image), Err(LoadError::Malformed));
    // 32-bit class byte is rejected too.
    let mut image32 = build_elf(0, &[], &[]);
    image32[4] = 1;
    assert_eq!(plan_load(&image32), Err(LoadError::Malformed));
}

#[test]
fn program_header_out_of_range_is_malformed() {
    let mut image = build_elf(0, &[], &[]);
    put16(&mut image, 56, 40); // claim 40 entries that are not there
    assert_eq!(plan_load(&image), Err(LoadError::Malformed));
}

#[test]
fn file_range_out_of_range_is_malformed() {
    let image = build_elf(
        0,
        &[Segment {
            p_type: PT_LOAD,
            p_flags: PF_R,
            p_offset: 0x10000,
            p_vaddr: 0x400000,
            p_filesz: 4,
            p_memsz: 4,
        }],
        &[],
    );
    assert_eq!(plan_load(&image), Err(LoadError::Malformed));
}

#[test]
fn non_load_segments_are_ignored() {
    let image = build_elf(
        0x1000,
        &[
            Segment {
                p_type: 4, // PT_NOTE
                p_flags: PF_R,
                p_offset: 0x200,
                p_vaddr: 0,
                p_filesz: 0,
                p_memsz: 0,
            },
            Segment {
                p_type: PT_LOAD,
                p_flags: PF_R,
                p_offset: 0x200,
                p_vaddr: 0x1000,
                p_filesz: 0,
                p_memsz: 0x10,
            },
        ],
        &[],
    );
    let plan = plan_load(&image).expect("loadable");
    assert_eq!(plan.segments.len(), 1);
    assert_eq!(plan.segments[0].vaddr, 0x1000);
}

#[test]
fn zero_filesz_segment_skips_copy() {
    let image = build_elf(
        0x5000,
        &[Segment {
            p_type: PT_LOAD,
            p_flags: PF_R | PF_W,
            p_offset: 0,
            p_vaddr: 0x5000,
            p_filesz: 0,
            p_memsz: 0x800,
        }],
        &[],
    );
    let plan = plan_load(&image).expect("loadable");
    let mut kernel = FakeKernel::new();
    let mut driver = LoadDriver::new(plan);
    let entry = kernel.run(&mut driver, &image).expect("load succeeds");
    assert_eq!(entry, 0x5000);
    for a in 0x5000..0x5800 {
        assert_eq!(kernel.memory[&a], 0);
    }
}

#[test]
fn header_fields_decode_little_endian() {
    let image = build_elf(0x123456789a, &[], &[]);
    let h = parse_elf_header(&image).expect("valid header");
    assert_eq!(h.e_entry, 0x123456789a);
    assert_eq!(h.e_phoff, 64);
    assert_eq!(h.e_phentsize, 56);
    assert_eq!(h.e_phnum, 0);
    assert_eq!(h.e_type, 2);
    assert_eq!(h.e_machine, 0x3e);
    assert_eq!(&h.e_ident[0..4], b"\x7fELF");
}

#[test]
fn program_header_decode_and_bounds() {
    let image = build_elf(
        0,
        &[Segment {
            p_type: PT_LOAD,
            p_flags: PF_R | PF_W | PF_X,
            p_offset: 0x200,
            p_vaddr: 0x400000,
            p_filesz: 1,
            p_memsz: 2,
        }],
        b"z",
    );
    let ph = parse_program_header(&image, 64).expect("in range");
    assert_eq!(ph.p_type, PT_LOAD);
    assert_eq!(ph.p_flags, PF_R | PF_W | PF_X);
    assert_eq!(ph.p_vaddr, 0x400000);
    assert_eq!(ph.p_memsz, 2);
    let far = image.len() - 10;
    assert_eq!(parse_program_header(&image, far), Err(LoadError::Malformed));
}

#[test]
fn alignment_helpers_round_to_pages() {
    assert_eq!(align_down(0x401234, PAGE_SIZE), 0x401000);
    assert_eq!(align_up(0x401234, PAGE_SIZE), 0x402000);
    assert_eq!(align_down(0x400000, PAGE_SIZE), 0x400000);
    assert_eq!(align_up(0x400000, PAGE_SIZE), 0x400000);
    assert_eq!(align_up(0, PAGE_SIZE), 0);
    assert_eq!(align_up(1, PAGE_SIZE), PAGE_SIZE);
}
