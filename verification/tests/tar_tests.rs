use initload::tar::{TarArchive, TarError, TarTypeFlag};

fn push_bytes(block: &mut [u8], at: usize, bytes: &[u8]) {
    block[at..at + bytes.len()].copy_from_slice(bytes);
}

/// One 512-byte USTAR header record with the given name, size, and type
/// flag byte.
fn tar_header(name: &str, size: usize, typeflag: u8) -> Vec<u8> {
    let mut block = vec![0u8; 512];
    push_bytes(&mut block, 0, name.as_bytes());
    let octal = format!("{:011o}", size);
    push_bytes(&mut block, 124, octal.as_bytes());
    block[136] = b'0'; // mtime, irrelevant
    block[156] = typeflag;
    block
}

fn file_entry(name: &str, content: &[u8]) -> Vec<u8> {
    let mut out = tar_header(name, content.len(), b'0');
    out.extend_from_slice(content);
    let pad = (512 - content.len() % 512) % 512;
    out.extend(std::iter::repeat(0u8).take(pad));
    out
}

#[test]
fn single_file_listing_and_read() {
    // An archive with one regular entry `./test.elf`, declared size 24,
    // followed by 24 content bytes padded to a whole block.
    let content: Vec<u8> = (0u8..24u8).collect();
    let mut archive = file_entry("./test.elf", &content);
    archive.extend(std::iter::repeat(0u8).take(1024)); // end-of-archive blocks
    let tar = TarArchive::new(&archive);
    let names = tar.list("/");
    assert_eq!(names, vec!["/test.elf".to_string()]);
    let data = tar.read("/test.elf").expect("entry must be readable");
    assert_eq!(data, &content[..]);
    assert_eq!(data.len(), 24);
}

#[test]
fn list_returns_all_normalized_paths() {
    let mut archive = file_entry("./bin/init", b"abc");
    archive.extend(tar_header("./etc", 0, b'5'));
    archive.extend(file_entry("./etc/motd", b"hello"));
    archive.extend(std::iter::repeat(0u8).take(1024));
    let tar = TarArchive::new(&archive);
    let names = tar.list("/");
    assert_eq!(names, vec!["/bin/init", "/etc", "/etc/motd"]);
    let under_etc = tar.list("/etc");
    assert_eq!(under_etc, vec!["/etc", "/etc/motd"]);
}

#[test]
fn name_without_dot_slash_is_verbatim() {
    let mut archive = file_entry("plain.txt", b"x");
    archive.extend(std::iter::repeat(0u8).take(1024));
    let tar = TarArchive::new(&archive);
    assert_eq!(tar.list("/"), Vec::<String>::new());
    assert_eq!(tar.list("plain"), vec!["plain.txt"]);
    assert_eq!(tar.read("plain.txt"), Some(&b"x"[..]));
}

#[test]
fn read_directory_gives_none() {
    let mut archive = tar_header("./etc", 0, b'5');
    archive.extend(std::iter::repeat(0u8).take(1024));
    let tar = TarArchive::new(&archive);
    assert_eq!(tar.read("/etc"), None);
}

#[test]
fn read_empty_file_gives_empty_slice() {
    let mut archive = file_entry("./empty", b"");
    archive.extend(std::iter::repeat(0u8).take(1024));
    let tar = TarArchive::new(&archive);
    let data = tar.read("/empty").expect("empty file is still readable");
    assert_eq!(data.len(), 0);
}

#[test]
fn read_missing_path_gives_none() {
    let mut archive = file_entry("./a", b"a");
    archive.extend(std::iter::repeat(0u8).take(1024));
    let tar = TarArchive::new(&archive);
    assert_eq!(tar.read("/b"), None);
}

#[test]
fn malformed_size_field_is_a_typed_error() {
    let mut archive = file_entry("./ok", b"fine");
    let mut bad = tar_header("./bad", 0, b'0');
    bad[124..136].copy_from_slice(b"deadbeef\0\0\0\0");
    archive.extend(bad);
    archive.extend(std::iter::repeat(0u8).take(1024));
    let tar = TarArchive::new(&archive);
    let mut it = tar.iter_headers();
    let first = it.next().expect("first entry is fine").expect("not end");
    assert_eq!(first.name, b"./ok".to_vec());
    assert_eq!(first.get_size(), 4);
    assert_eq!(it.next(), Err(TarError::BadSize));
    // The listing stops at the malformed record; reads past it fail.
    assert_eq!(tar.list("/"), vec!["/ok"]);
    assert_eq!(tar.read("/bad"), None);
}

#[test]
fn truncated_header_is_a_typed_error() {
    let archive = vec![b'x'; 100]; // less than one block, name not NUL
    let tar = TarArchive::new(&archive);
    let mut it = tar.iter_headers();
    assert_eq!(it.next(), Err(TarError::Truncated));
    assert_eq!(tar.list("/"), Vec::<String>::new());
}

#[test]
fn content_running_past_buffer_is_truncated() {
    let archive = tar_header("./big", 4096, b'0'); // declares more than present
    let tar = TarArchive::new(&archive);
    let mut it = tar.iter_headers();
    assert_eq!(it.next(), Err(TarError::Truncated));
    assert_eq!(tar.read("/big"), None);
}

#[test]
fn nul_led_name_is_an_error_not_the_end() {
    // A record whose name starts with NUL but is not entirely zero is
    // malformed, not the end-of-archive marker.
    let mut archive = file_entry("./ok", b"fine");
    let mut odd = tar_header("", 0, b'0');
    odd[1] = b'x'; // name field: [0, 'x', 0, ...]
    archive.extend(odd);
    archive.extend(std::iter::repeat(0u8).take(1024));
    let tar = TarArchive::new(&archive);
    let mut it = tar.iter_headers();
    assert!(it.next().unwrap().is_some());
    assert_eq!(it.next(), Err(TarError::BadName));
    assert_eq!(tar.list("/"), vec!["/ok"]);
}

#[test]
fn all_zero_name_field_ends_the_archive() {
    let mut archive = file_entry("./ok", b"fine");
    archive.extend(std::iter::repeat(0u8).take(1024));
    let tar = TarArchive::new(&archive);
    let mut it = tar.iter_headers();
    assert!(it.next().unwrap().is_some());
    assert_eq!(it.next(), Ok(None));
    assert_eq!(it.next(), Ok(None));
}

#[test]
fn unknown_typeflag_is_a_typed_error() {
    let mut archive = tar_header("./link", 0, b'2'); // symlink: not modeled
    archive.extend(std::iter::repeat(0u8).take(1024));
    let tar = TarArchive::new(&archive);
    let mut it = tar.iter_headers();
    assert_eq!(it.next(), Err(TarError::BadType));
}

#[test]
fn iterator_walks_headers_in_order() {
    let mut archive = file_entry("./one", b"1");
    archive.extend(file_entry("./two", b"22"));
    archive.extend(std::iter::repeat(0u8).take(1024));
    let tar = TarArchive::new(&archive);
    let mut it = tar.iter_headers();
    let h1 = it.next().unwrap().unwrap();
    assert_eq!(h1.name, b"./one".to_vec());
    assert_eq!(h1.size, 1);
    assert_eq!(h1.typeflag, TarTypeFlag::Regular);
    assert_eq!(h1.content_offset, 512);
    let h2 = it.next().unwrap().unwrap();
    assert_eq!(h2.name, b"./two".to_vec());
    assert_eq!(h2.content_offset, 512 * 3);
    assert_eq!(it.next(), Ok(None));
}

#[test]
fn octal_size_with_leading_spaces_decodes() {
    let mut archive = tar_header("./sp", 0, b'0');
    archive[124..136].copy_from_slice(b"     30 \0\0\0\0");
    archive.extend((0u8..24).collect::<Vec<u8>>());
    archive.extend(std::iter::repeat(0u8).take(1024 + 488));
    let tar = TarArchive::new(&archive);
    let data = tar.read("/sp").expect("readable");
    assert_eq!(data.len(), 24);
}

#[test]
fn repeated_calls_yield_identical_results() {
    let content = b"same bytes every time";
    let mut archive = file_entry("./stable", content);
    archive.extend(std::iter::repeat(0u8).take(1024));
    let tar = TarArchive::new(&archive);
    let first_list = tar.list("/");
    let second_list = tar.list("/");
    assert_eq!(first_list, second_list);
    let first_read = tar.read("/stable");
    let second_read = tar.read("/stable");
    assert_eq!(first_read, second_read);
    let (a, b) = initload::tar::list_is_repeatable(&tar, "/");
    assert_eq!(a, b);
    let (c, d) = initload::tar::read_is_repeatable(&tar, "/stable");
    assert_eq!(c, d);
}

#[test]
fn octal_size_with_tab_whitespace_decodes() {
    let mut archive = tar_header("./tab", 0, b'0');
    archive[124..136].copy_from_slice(b"\t 30\t\r\n \0\0\0\0");
    archive.extend((0u8..24).collect::<Vec<u8>>());
    archive.extend(std::iter::repeat(0u8).take(1024 + 488));
    let tar = TarArchive::new(&archive);
    let data = tar.read("/tab").expect("readable");
    assert_eq!(data.len(), 24);
}

#[test]
fn parse_octal_exact_values() {
    assert_eq!(initload::tar::parse_octal(b"00000000030\0"), Ok(24));
    assert_eq!(initload::tar::parse_octal(b"\t\t30 \0\0\0\0\0\0\0"), Ok(24));
    assert_eq!(initload::tar::parse_octal(b"00000000000\0"), Ok(0));
    assert_eq!(initload::tar::parse_octal(b"77777777777\0"), Ok(0o77777777777));
    assert_eq!(
        initload::tar::parse_octal(b"0000000008\0\0"),
        Err(TarError::BadSize)
    );
    assert_eq!(
        initload::tar::parse_octal(b"\0\0\0\0\0\0\0\0\0\0\0\0"),
        Err(TarError::BadSize)
    );
}
