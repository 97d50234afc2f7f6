//! USTAR archive reading.
//!
//! An archive is a borrowed byte buffer holding a sequence of 512-byte
//! header records, each followed by its content rounded up to the next
//! 512-byte boundary. Scanning stops at the first all-zero name field, at
//! buffer exhaustion, or at the first malformed record, which is reported
//! as a typed error instead of being read out of bounds.

use vstd::prelude::*;
use vstd::slice::slice_subrange;
use vstd::slice::slice_to_vec;

verus! {

broadcast use vstd::slice::axiom_spec_len;

/// Record granularity of the archive: headers and content both advance in
/// blocks of this many bytes.
pub const BLOCK_SIZE: usize = 512;

/// Length of the name field at the start of a header record.
pub const NAME_LEN: usize = 100;

/// Offset of the 12-byte octal size field within a header record.
pub const SIZE_OFFSET: usize = 124;

/// Length of the octal size field.
pub const SIZE_LEN: usize = 12;

/// Offset of the type flag byte within a header record.
pub const FLAG_OFFSET: usize = 156;

/// The kinds of entry this reader models.
#[derive(PartialEq, Eq, Structural, Clone, Copy, Debug)]
pub enum TarTypeFlag {
    Regular,
    Directory,
}

/// Why a scan stopped on a malformed record.
#[derive(PartialEq, Eq, Structural, Clone, Copy, Debug)]
pub enum TarError {
    /// A header record or its declared content runs past the buffer.
    Truncated,
    /// The name is empty while the field is not entirely zero, or it holds
    /// a byte outside ASCII.
    BadName,
    /// The size field is not a padded octal number that fits the machine
    /// word.
    BadSize,
    /// The type flag is neither a regular file nor a directory.
    BadType,
}

/// Index of the first NUL byte at or after `i`, or the sequence's length.
pub open spec fn nul_pos(s: Seq<u8>, i: int) -> int
    decreases s.len() - i,
{
    if i < s.len() && 0 <= i && s[i] != 0 {
        nul_pos(s, i + 1)
    } else {
        i
    }
}

/// `nul_pos` finds an in-range index, everything before it is non-NUL, and
/// the byte there (if any) is NUL.
pub proof fn lemma_nul_pos(s: Seq<u8>, i: int)
    requires
        0 <= i <= s.len(),
    ensures
        i <= nul_pos(s, i) <= s.len(),
        forall|j: int| i <= j < nul_pos(s, i) ==> s[j] != 0,
        nul_pos(s, i) < s.len() ==> s[nul_pos(s, i)] == 0,
    decreases s.len() - i,
{
    if i < s.len() && s[i] != 0 {
        lemma_nul_pos(s, i + 1);
    }
}

/// Whether `b` is ASCII whitespace, which the size field may carry around
/// its digits.
pub open spec fn is_space(b: u8) -> bool {
    b == 32 || 9 <= b <= 13
}

/// Index of the first non-whitespace byte at or after `i`.
pub open spec fn skip_spaces(s: Seq<u8>, i: int) -> int
    decreases s.len() - i,
{
    if i < s.len() && 0 <= i && is_space(s[i]) {
        skip_spaces(s, i + 1)
    } else {
        i
    }
}

/// Whether `b` is an ASCII octal digit.
pub open spec fn is_octal_digit(b: u8) -> bool {
    48 <= b <= 55
}

/// Index of the first non-octal-digit byte at or after `i`.
pub open spec fn digits_end(s: Seq<u8>, i: int) -> int
    decreases s.len() - i,
{
    if i < s.len() && 0 <= i && is_octal_digit(s[i]) {
        digits_end(s, i + 1)
    } else {
        i
    }
}

/// Value of a sequence of ASCII octal digits, most significant first.
pub open spec fn octal_val(s: Seq<u8>) -> nat
    decreases s.len(),
{
    if s.len() == 0 {
        0
    } else {
        octal_val(s.drop_last()) * 8 + (s.last() - 48) as nat
    }
}

pub open spec fn pow8(n: nat) -> nat
    decreases n,
{
    if n == 0 {
        1
    } else {
        8 * pow8((n - 1) as nat)
    }
}

proof fn lemma_pow8_le(m: nat, n: nat)
    requires
        m <= n,
    ensures
        pow8(m) <= pow8(n),
    decreases n,
{
    if m < n {
        lemma_pow8_le(m, (n - 1) as nat);
    }
}

/// Start of the digit span of a size field: leading spaces are skipped.
pub open spec fn size_begin(f: Seq<u8>) -> int {
    skip_spaces(f, 0)
}

/// End of the digit span of a size field.
pub open spec fn size_end(f: Seq<u8>) -> int {
    digits_end(f, size_begin(f))
}

/// The size field decodes: at least one octal digit between optional
/// leading whitespace and trailing NUL or whitespace padding, with a value
/// that fits the machine word.
pub open spec fn size_field_ok(f: Seq<u8>) -> bool {
    &&& size_begin(f) < size_end(f)
    &&& forall|j: int| size_end(f) <= j < f.len() ==> ((#[trigger] f[j]) == 0 || is_space(f[j]))
    &&& octal_val(f.subrange(size_begin(f), size_end(f))) <= usize::MAX
}

/// The decoded value of a size field.
pub open spec fn size_value(f: Seq<u8>) -> nat {
    octal_val(f.subrange(size_begin(f), size_end(f)))
}

/// Decode the fixed-width ASCII octal size field: optional leading
/// whitespace, one or more octal digits, then NUL or whitespace padding to
/// the end.
pub fn parse_octal(f: &[u8]) -> (r: Result<usize, TarError>)
    requires
        f@.len() == SIZE_LEN,
    ensures
        match r {
            Ok(v) => size_field_ok(f@) && v == size_value(f@),
            Err(e) => e == TarError::BadSize && !size_field_ok(f@),
        },
{
    let n = f.len();
    let mut b: usize = 0;
    while b < n && (f[b] == 32 || (f[b] >= 9 && f[b] <= 13))
        invariant
            b <= n,
            n == f@.len() == SIZE_LEN,
            skip_spaces(f@, 0) == skip_spaces(f@, b as int),
        decreases n - b,
    {
        b = b + 1;
    }
    assert(size_begin(f@) == b);
    let mut e: usize = b;
    while e < n && f[e] >= 48 && f[e] <= 55
        invariant
            b <= e <= n,
            n == f@.len() == SIZE_LEN,
            b == size_begin(f@),
            digits_end(f@, b as int) == digits_end(f@, e as int),
            forall|t: int| b <= t < e ==> is_octal_digit(#[trigger] f@[t]),
        decreases n - e,
    {
        e = e + 1;
    }
    assert(size_end(f@) == e);
    if e == b {
        return Err(TarError::BadSize);
    }
    let mut j: usize = e;
    while j < n
        invariant
            e <= j <= n,
            n == f@.len() == SIZE_LEN,
            b == size_begin(f@),
            e == size_end(f@),
            forall|k: int| e <= k < j ==> ((#[trigger] f@[k]) == 0 || is_space(f@[k])),
        decreases n - j,
    {
        let c = f[j];
        if c != 0 && c != 32 && !(c >= 9 && c <= 13) {
            assert(!size_field_ok(f@)) by {
                assert(size_end(f@) <= j < f@.len());
                assert(f@[j as int] != 0 && !is_space(f@[j as int]));
            }
            return Err(TarError::BadSize);
        }
        j = j + 1;
    }
    let ghost digits = f@.subrange(b as int, e as int);
    let mut v: u64 = 0;
    let mut k: usize = b;
    proof {
        assert(f@.subrange(b as int, b as int) =~= digits.subrange(0, 0));
        assert(pow8(11) == 0x2_0000_0000) by {
            reveal_with_fuel(pow8, 12);
        }
    }
    while k < e
        invariant
            b <= k <= e <= n,
            n == f@.len() == SIZE_LEN,
            b == size_begin(f@),
            e == size_end(f@),
            digits == f@.subrange(b as int, e as int),
            forall|t: int| b <= t < e ==> is_octal_digit(f@[t]),
            v == octal_val(f@.subrange(b as int, k as int)),
            v < pow8((k - b) as nat),
            pow8(11) == 0x2_0000_0000,
        decreases e - k,
    {
        proof {
            lemma_pow8_le((k - b) as nat, 11);
            assert(f@.subrange(b as int, k as int + 1).drop_last() =~= f@.subrange(
                b as int,
                k as int,
            ));
        }
        let d = f[k];
        assert(is_octal_digit(f@[k as int]));
        v = v * 8 + ((d - 48) as u64);
        k = k + 1;
    }
    if v > (usize::MAX as u64) {
        return Err(TarError::BadSize);
    }
    Ok(v as usize)
}

/// A decoded header record: the name up to its NUL padding, the decoded
/// content size, the entry kind, and where the content starts in the
/// archive.
#[derive(Debug, PartialEq, Eq)]
pub struct TarHeader {
    pub name: Vec<u8>,
    pub size: usize,
    pub typeflag: TarTypeFlag,
    pub content_offset: usize,
}

impl TarHeader {
    /// The declared content size, as decoded from the octal size field.
    pub fn get_size(&self) -> (r: usize)
        ensures
            r == self.size,
    {
        self.size
    }
}

/// What one archive entry is, as a mathematical value.
pub struct TarEntrySpec {
    pub name: Seq<u8>,
    pub size: nat,
    pub typeflag: TarTypeFlag,
    pub content_offset: nat,
}

/// The 100-byte name field of the record at `off`.
pub open spec fn name_field(d: Seq<u8>, off: int) -> Seq<u8> {
    d.subrange(off, off + NAME_LEN)
}

/// The record's name: the name field up to its first NUL byte.
pub open spec fn entry_name(d: Seq<u8>, off: int) -> Seq<u8> {
    name_field(d, off).take(nul_pos(name_field(d, off), 0))
}

/// The 12-byte size field of the record at `off`.
pub open spec fn size_field(d: Seq<u8>, off: int) -> Seq<u8> {
    d.subrange(off + SIZE_OFFSET, off + SIZE_OFFSET + SIZE_LEN)
}

/// The type flag byte of the record at `off`.
pub open spec fn flag_byte(d: Seq<u8>, off: int) -> u8 {
    d[off + FLAG_OFFSET]
}

/// The record's name holds only ASCII bytes.
pub open spec fn name_ok(d: Seq<u8>, off: int) -> bool {
    forall|j: int| 0 <= j < entry_name(d, off).len() ==> #[trigger] entry_name(d, off)[j] < 128
}

/// The whole 100-byte name field of the record at `off` is zero.
pub open spec fn name_all_zero(d: Seq<u8>, off: int) -> bool {
    forall|j: int| 0 <= j < NAME_LEN ==> #[trigger] name_field(d, off)[j] == 0
}

/// Scanning at `off` has reached the archive's end: the buffer is
/// exhausted, or a whole record remains and its name field is entirely
/// zero.
pub open spec fn at_end(d: Seq<u8>, off: int) -> bool {
    off >= d.len() || (d.len() - off >= BLOCK_SIZE && name_all_zero(d, off))
}

/// Why scanning at `off` fails, if it does. `None` means the scan either
/// ended cleanly or found a whole entry.
pub open spec fn scan_error(d: Seq<u8>, off: int) -> Option<TarError> {
    if at_end(d, off) {
        Option::None
    } else if d.len() - off < BLOCK_SIZE {
        Option::Some(TarError::Truncated)
    } else if d[off] == 0 || !name_ok(d, off) {
        Option::Some(TarError::BadName)
    } else if !size_field_ok(size_field(d, off)) {
        Option::Some(TarError::BadSize)
    } else if flag_byte(d, off) != 48 && flag_byte(d, off) != 53 {
        Option::Some(TarError::BadType)
    } else if off + BLOCK_SIZE + size_value(size_field(d, off)) > d.len() {
        Option::Some(TarError::Truncated)
    } else {
        Option::None
    }
}

/// A whole, well-formed entry starts at `off`.
pub open spec fn header_valid(d: Seq<u8>, off: int) -> bool {
    !at_end(d, off) && scan_error(d, off) is None
}

/// The entry decoded from the record at `off`.
pub open spec fn entry_at(d: Seq<u8>, off: int) -> TarEntrySpec {
    TarEntrySpec {
        name: entry_name(d, off),
        size: size_value(size_field(d, off)),
        typeflag: if flag_byte(d, off) == 48 {
            TarTypeFlag::Regular
        } else {
            TarTypeFlag::Directory
        },
        content_offset: (off + BLOCK_SIZE) as nat,
    }
}

/// A content length rounded up to the next whole block.
pub open spec fn padded_size(sz: int) -> int {
    sz + ((BLOCK_SIZE - sz % (BLOCK_SIZE as int)) % (BLOCK_SIZE as int))
}

/// Where the record after the one at `off` starts, capped at the buffer's
/// end.
pub open spec fn next_offset(d: Seq<u8>, off: int) -> int {
    let n = off + BLOCK_SIZE + padded_size(size_value(size_field(d, off)) as int);
    if n > d.len() {
        d.len() as int
    } else {
        n
    }
}

/// Every entry reachable by scanning forward from `off`: one entry per
/// valid record, ending at the archive end or the first malformed record.
pub open spec fn entries_from(d: Seq<u8>, off: int) -> Seq<TarEntrySpec>
    decreases d.len() - off,
{
    if !header_valid(d, off) {
        Seq::empty()
    } else {
        seq![entry_at(d, off)] + entries_from(d, next_offset(d, off))
    }
}

/// The archive's entries, scanned from the start of the buffer.
pub open spec fn entries(d: Seq<u8>) -> Seq<TarEntrySpec> {
    entries_from(d, 0)
}

/// Structural facts that hold of every scanned entry.
pub open spec fn entry_wf(d: Seq<u8>, e: TarEntrySpec) -> bool {
    &&& e.name.len() <= NAME_LEN
    &&& forall|j: int| 0 <= j < e.name.len() ==> 0 < #[trigger] e.name[j] < 128
    &&& e.size <= usize::MAX
    &&& BLOCK_SIZE <= e.content_offset
    &&& e.content_offset + e.size <= d.len()
}

/// Every scanned entry is structurally sound: an ASCII name of at most the
/// field's width, and declared content that lies wholly within the buffer.
pub proof fn lemma_entries_wf(d: Seq<u8>, off: int)
    requires
        0 <= off,
    ensures
        forall|i: int|
            0 <= i < entries_from(d, off).len() ==> entry_wf(
                d,
                #[trigger] entries_from(d, off)[i],
            ),
    decreases d.len() - off,
{
    if header_valid(d, off) {
        let nf = name_field(d, off);
        lemma_nul_pos(nf, 0);
        lemma_entries_wf(d, next_offset(d, off));
        let e0 = entry_at(d, off);
        assert forall|j: int| 0 <= j < e0.name.len() implies 0 < #[trigger] e0.name[j] < 128 by {
            assert(e0.name[j] == nf[j]);
            assert(nf[j] != 0);
            assert(entry_name(d, off)[j] < 128);
        }
        assert(entry_wf(d, e0));
        assert forall|i: int| 0 <= i < entries_from(d, off).len() implies entry_wf(
            d,
            #[trigger] entries_from(d, off)[i],
        ) by {
            if i == 0 {
                assert(entries_from(d, off)[0] == e0);
            } else {
                assert(entries_from(d, off)[i] == entries_from(d, next_offset(d, off))[i - 1]);
            }
        }
    }
}

/// The ASCII characters spelled by a byte sequence.
pub open spec fn chars_of(s: Seq<u8>) -> Seq<char> {
    s.map_values(|b: u8| b as char)
}

/// A name starting with `./` is rewritten to start with a single `/`;
/// any other name is kept verbatim.
pub open spec fn normalize_name(name: Seq<u8>) -> Seq<u8> {
    if name.len() >= 2 && name[0] == 46 && name[1] == 47 {
        seq![47u8] + name.skip(2)
    } else {
        name
    }
}

/// The normalized path of an entry, as characters.
pub open spec fn entry_path(e: TarEntrySpec) -> Seq<char> {
    chars_of(normalize_name(e.name))
}

/// Whether `p` is a prefix of `s`.
pub open spec fn starts_with(s: Seq<char>, p: Seq<char>) -> bool {
    p.len() <= s.len() && s.take(p.len() as int) == p
}

/// The normalized paths of the entries whose path starts with `prefix`,
/// in encounter order.
pub open spec fn listing(es: Seq<TarEntrySpec>, prefix: Seq<char>) -> Seq<Seq<char>>
    decreases es.len(),
{
    if es.len() == 0 {
        Seq::empty()
    } else {
        let rest = listing(es.drop_first(), prefix);
        if starts_with(entry_path(es[0]), prefix) {
            seq![entry_path(es[0])] + rest
        } else {
            rest
        }
    }
}

/// The first entry whose normalized path equals `path`, if any.
pub open spec fn lookup(es: Seq<TarEntrySpec>, path: Seq<char>) -> Option<TarEntrySpec>
    decreases es.len(),
{
    if es.len() == 0 {
        Option::None
    } else if entry_path(es[0]) == path {
        Option::Some(es[0])
    } else {
        lookup(es.drop_first(), path)
    }
}

/// An entry's name holds only ASCII bytes.
pub open spec fn ascii_name(e: TarEntrySpec) -> bool {
    forall|j: int| 0 <= j < e.name.len() ==> (#[trigger] e.name[j]) < 128
}

/// ASCII bytes spell a character sequence exactly when the bytes are the
/// characters' code points.
pub proof fn lemma_ascii_path_eq(a: Seq<u8>, p: Seq<char>)
    requires
        forall|i: int| 0 <= i < a.len() ==> (#[trigger] a[i]) < 128,
        vstd::utf8::is_ascii_chars(p),
    ensures
        (chars_of(a) == p) <==> (a == Seq::new(p.len(), |i: int| p[i] as u8)),
{
    let pb = Seq::new(p.len(), |i: int| p[i] as u8);
    if chars_of(a) == p {
        assert forall|i: int| 0 <= i < a.len() implies a[i] == pb[i] by {
            assert(p[i] == chars_of(a)[i]);
        }
        assert(a =~= pb);
    }
    if a == pb {
        assert forall|i: int| 0 <= i < a.len() implies chars_of(a)[i] == p[i] by {
            assert(a[i] == pb[i]);
        }
        assert(chars_of(a) =~= p);
    }
}

/// Prefix comparison can be done on the bytes when both sides are ASCII.
pub proof fn lemma_ascii_starts_with(a: Seq<u8>, p: Seq<char>)
    requires
        forall|i: int| 0 <= i < a.len() ==> (#[trigger] a[i]) < 128,
        vstd::utf8::is_ascii_chars(p),
    ensures
        starts_with(chars_of(a), p) <==> (p.len() <= a.len() && a.take(p.len() as int) == Seq::new(
            p.len(),
            |i: int| p[i] as u8,
        )),
{
    if p.len() <= a.len() {
        let at = a.take(p.len() as int);
        lemma_ascii_path_eq(at, p);
        assert(chars_of(at) =~= chars_of(a).take(p.len() as int));
    }
}

/// A path holding a character outside ASCII can never match or prefix any
/// entry, since every entry name is ASCII.
pub proof fn lemma_non_ascii_path(es: Seq<TarEntrySpec>, p: Seq<char>)
    requires
        !vstd::utf8::is_ascii_chars(p),
        forall|i: int| 0 <= i < es.len() ==> ascii_name(#[trigger] es[i]),
    ensures
        listing(es, p) == Seq::<Seq<char>>::empty(),
        lookup(es, p) is None,
    decreases es.len(),
{
    if es.len() > 0 {
        let e = es[0];
        let norm = normalize_name(e.name);
        assert forall|j: int| 0 <= j < norm.len() implies (#[trigger] norm[j]) < 128 by {
            if e.name.len() >= 2 && e.name[0] == 46 && e.name[1] == 47 {
                if j > 0 {
                    assert(norm[j] == e.name[j + 1]);
                }
            } else {
                assert(norm[j] == e.name[j]);
            }
        }
        if starts_with(entry_path(e), p) || entry_path(e) == p {
            assert forall|i: int| 0 <= i < p.len() implies '\0' <= #[trigger] p[i] <= '\u{7f}' by {
                assert(p[i] == entry_path(e)[i]);
                assert(entry_path(e)[i] == norm[i] as char);
            }
            assert(vstd::utf8::is_ascii_chars(p));
        }
        assert(forall|i: int| 0 <= i < es.drop_first().len() ==> ascii_name(
            #[trigger] es.drop_first()[i],
        ));
        lemma_non_ascii_path(es.drop_first(), p);
    }
}

/// Whether a decoded header equals an entry of the model.
pub open spec fn header_matches(h: TarHeader, e: TarEntrySpec) -> bool {
    &&& h.name@ == e.name
    &&& h.size as nat == e.size
    &&& h.typeflag == e.typeflag
    &&& h.content_offset as nat == e.content_offset
}

/// A restartable scan over the archive's header records.
pub struct TarHeaderIterator<'a> {
    data: &'a [u8],
    offset: usize,
}

impl<'a> TarHeaderIterator<'a> {
    /// The archive bytes being scanned.
    pub closed spec fn contents(self) -> Seq<u8> {
        self.data@
    }

    /// The scan's current byte offset.
    pub closed spec fn pos(self) -> nat {
        self.offset as nat
    }

    /// The entries not yet handed out.
    pub open spec fn remaining(self) -> Seq<TarEntrySpec> {
        entries_from(self.contents(), self.pos() as int)
    }

    /// Decode the record at the current offset and advance past its
    /// content. `Ok(None)` is the archive's clean end; an error reports the
    /// first malformed record and leaves the scan where it stood.
    pub fn next(&mut self) -> (r: Result<Option<TarHeader>, TarError>)
        ensures
            final(self).contents() == old(self).contents(),
            match r {
                Ok(opt) => match opt {
                    Some(h) => {
                        &&& old(self).remaining().len() > 0
                        &&& header_matches(h, old(self).remaining()[0])
                        &&& final(self).remaining() == old(self).remaining().drop_first()
                    },
                    None => {
                        &&& at_end(old(self).contents(), old(self).pos() as int)
                        &&& final(self).pos() == old(self).pos()
                    },
                },
                Err(e) => {
                    &&& scan_error(old(self).contents(), old(self).pos() as int) == Some(e)
                    &&& final(self).pos() == old(self).pos()
                },
            },
    {
        let ghost d = self.data@;
        let n = self.data.len();
        let off = self.offset;
        if off >= n {
            return Ok(None);
        }
        if n - off < BLOCK_SIZE {
            return Err(TarError::Truncated);
        }
        let w = slice_subrange(self.data, off, off + NAME_LEN);
        let mut k: usize = 0;
        while k < NAME_LEN && w[k] != 0
            invariant
                k <= NAME_LEN,
                w@.len() == NAME_LEN,
                nul_pos(w@, 0) == nul_pos(w@, k as int),
            decreases NAME_LEN - k,
        {
            k = k + 1;
        }
        assert(nul_pos(w@, 0) == k);
        proof {
            lemma_nul_pos(w@, 0);
        }
        if k == 0 {
            // The name begins with NUL: the archive ends here if the whole
            // field is zero, and the record is malformed otherwise.
            let mut z: usize = 0;
            while z < NAME_LEN && w[z] == 0
                invariant
                    z <= NAME_LEN,
                    w@.len() == NAME_LEN,
                    forall|t: int| 0 <= t < z ==> #[trigger] w@[t] == 0,
                decreases NAME_LEN - z,
            {
                z = z + 1;
            }
            if z == NAME_LEN {
                assert(at_end(d, off as int)) by {
                    assert forall|t: int| 0 <= t < NAME_LEN implies #[trigger] name_field(
                        d,
                        off as int,
                    )[t] == 0 by {
                        assert(name_field(d, off as int)[t] == w@[t]);
                    }
                }
                return Ok(None);
            }
            assert(!at_end(d, off as int)) by {
                assert(name_field(d, off as int)[z as int] == w@[z as int]);
                assert(w@[z as int] != 0);
            }
            assert(d[off as int] == w@[0]);
            return Err(TarError::BadName);
        }
        assert(!at_end(d, off as int)) by {
            assert(name_field(d, off as int)[0] == w@[0]);
        }
        let mut j: usize = 0;
        while j < k
            invariant
                j <= k <= NAME_LEN,
                0 < k,
                w@[0] != 0,
                k == nul_pos(w@, 0),
                w@.len() == NAME_LEN,
                w@ == name_field(d, off as int),
                d == self.data@,
                self.data == old(self).data,
                self.offset == old(self).offset,
                off == self.offset,
                off < d.len(),
                d.len() - off >= BLOCK_SIZE,
                forall|t: int| 0 <= t < j ==> (#[trigger] w@[t]) < 128,
            decreases k - j,
        {
            if w[j] >= 128 {
                assert(!name_ok(d, off as int)) by {
                    assert(entry_name(d, off as int)[j as int] == w@[j as int]);
                }
                return Err(TarError::BadName);
            }
            j = j + 1;
        }
        assert(name_ok(d, off as int)) by {
            assert forall|t: int|
                0 <= t < entry_name(d, off as int).len() implies #[trigger] entry_name(
                d,
                off as int,
            )[t] < 128 by {
                assert(entry_name(d, off as int)[t] == w@[t]);
            }
        }
        let sf = slice_subrange(self.data, off + SIZE_OFFSET, off + SIZE_OFFSET + SIZE_LEN);
        assert(sf@ == size_field(d, off as int));
        let size = match parse_octal(sf) {
            Ok(v) => v,
            Err(_) => {
                return Err(TarError::BadSize);
            },
        };
        let fb = self.data[off + FLAG_OFFSET];
        assert(fb == flag_byte(d, off as int));
        let typeflag = if fb == 48 {
            TarTypeFlag::Regular
        } else if fb == 53 {
            TarTypeFlag::Directory
        } else {
            return Err(TarError::BadType);
        };
        if size > n - (off + BLOCK_SIZE) {
            return Err(TarError::Truncated);
        }
        assert(header_valid(d, off as int));
        let name = slice_to_vec(slice_subrange(self.data, off, off + k));
        proof {
            assert(name@ =~= entry_name(d, off as int));
        }
        let header = TarHeader { name, size, typeflag, content_offset: off + BLOCK_SIZE };
        let rem = size % BLOCK_SIZE;
        let pad = if rem == 0 {
            0
        } else {
            BLOCK_SIZE - rem
        };
        let after = off + BLOCK_SIZE + size;
        let next = if pad <= n - after {
            after + pad
        } else {
            n
        };
        assert(next == next_offset(d, off as int));
        self.offset = next;
        proof {
            assert(header_matches(header, entry_at(d, off as int)));
            assert(entries_from(d, off as int) == seq![entry_at(d, off as int)] + entries_from(
                d,
                next as int,
            ));
            assert(entries_from(d, off as int).drop_first() =~= entries_from(d, next as int));
        }
        Ok(Some(header))
    }
}

fn bytes_eq(a: &[u8], b: &[u8]) -> (r: bool)
    ensures
        r == (a@ == b@),
{
    if a.len() != b.len() {
        return false;
    }
    let n = a.len();
    let mut i: usize = 0;
    while i < n
        invariant
            i <= n,
            n == a@.len() == b@.len(),
            forall|t: int| 0 <= t < i ==> a@[t] == #[trigger] b@[t],
        decreases n - i,
    {
        if a[i] != b[i] {
            return false;
        }
        i = i + 1;
    }
    proof {
        assert(a@ =~= b@);
    }
    true
}

fn bytes_starts_with(a: &[u8], p: &[u8]) -> (r: bool)
    ensures
        r == (p@.len() <= a@.len() && a@.take(p@.len() as int) == p@),
{
    let n = p.len();
    if n > a.len() {
        return false;
    }
    let mut i: usize = 0;
    while i < n
        invariant
            i <= n,
            n == p@.len(),
            n <= a@.len(),
            forall|t: int| 0 <= t < i ==> a@[t] == #[trigger] p@[t],
        decreases n - i,
    {
        if a[i] != p[i] {
            assert(a@.take(p@.len() as int)[i as int] != p@[i as int]);
            return false;
        }
        i = i + 1;
    }
    proof {
        assert(a@.take(p@.len() as int) =~= p@);
    }
    true
}

/// Rewrite a leading `./` to a single absolute `/`.
fn normalize_vec(name: &Vec<u8>) -> (r: Vec<u8>)
    ensures
        r@ == normalize_name(name@),
{
    let n = name.len();
    if n >= 2 && name[0] == 46 && name[1] == 47 {
        let mut out: Vec<u8> = Vec::new();
        out.push(47);
        let mut j: usize = 2;
        while j < n
            invariant
                2 <= j <= n,
                n == name@.len(),
                out@ == seq![47u8] + name@.subrange(2, j as int),
            decreases n - j,
        {
            out.push(name[j]);
            proof {
                assert(out@ =~= seq![47u8] + name@.subrange(2, j + 1));
            }
            j = j + 1;
        }
        proof {
            assert(out@ =~= normalize_name(name@));
        }
        out
    } else {
        slice_to_vec(name.as_slice())
    }
}

/// Relies on `String::from_utf8`: ASCII bytes decode to exactly the
/// characters with those code points. The unreachable error arm keeps the
/// body total.
#[verifier::external_body]
fn string_from_ascii(bytes: Vec<u8>) -> (r: String)
    requires
        forall|i: int| 0 <= i < bytes@.len() ==> (#[trigger] bytes@[i]) < 128,
    ensures
        r@ == chars_of(bytes@),
{
    match String::from_utf8(bytes) {
        Ok(s) => s,
        Err(_) => String::new(),
    }
}

/// A borrowed view of a byte buffer as a USTAR archive.
pub struct TarArchive<'a> {
    data: &'a [u8],
}

impl<'a> TarArchive<'a> {
    /// The archive's bytes.
    pub closed spec fn contents(self) -> Seq<u8> {
        self.data@
    }

    pub fn new(data: &'a [u8]) -> (r: TarArchive<'a>)
        ensures
            r.contents() == data@,
    {
        TarArchive { data }
    }

    /// A fresh scan over the archive's records, starting at the first.
    pub fn iter_headers(&self) -> (it: TarHeaderIterator<'a>)
        ensures
            it.contents() == self.contents(),
            it.pos() == 0,
            it.remaining() == entries(self.contents()),
    {
        TarHeaderIterator { data: self.data, offset: 0 }
    }

    /// The normalized paths of every entry whose path starts with `path`,
    /// in encounter order. A malformed record ends the listing there.
    pub fn list(&self, path: &str) -> (r: Vec<String>)
        ensures
            r.deep_view() == listing(entries(self.contents()), path@),
    {
        let ghost c = self.contents();
        let mut out: Vec<String> = Vec::new();
        if !path.is_ascii() {
            proof {
                lemma_entries_wf(c, 0);
                assert forall|i: int| 0 <= i < entries(c).len() implies ascii_name(
                    #[trigger] entries(c)[i],
                ) by {
                    assert(entry_wf(c, entries(c)[i]));
                }
                lemma_non_ascii_path(entries(c), path@);
                assert(out.deep_view() =~= listing(entries(c), path@));
            }
            return out;
        }
        let pbytes = path.as_bytes();
        proof {
            broadcast use vstd::string::is_ascii_spec_bytes;

            assert(pbytes@ =~= Seq::new(path@.len(), |i: int| path@[i] as u8));
        }
        let mut it = self.iter_headers();
        loop
            invariant
                it.contents() == c,
                c == self.contents(),
                path.is_ascii(),
                pbytes@ == Seq::new(path@.len(), |i: int| path@[i] as u8),
                pbytes@.len() == path@.len(),
                out.deep_view() + listing(it.remaining(), path@) == listing(entries(c), path@),
            decreases it.remaining().len(),
        {
            let ghost pre = it;
            proof {
                lemma_entries_wf(c, it.pos() as int);
            }
            match it.next() {
                Ok(Some(h)) => {
                    let ghost e = pre.remaining()[0];
                    proof {
                        assert(entry_wf(c, e));
                    }
                    let norm = normalize_vec(&h.name);
                    proof {
                        assert forall|t: int| 0 <= t < norm@.len() implies (#[trigger] norm@[t])
                            < 128 by {
                            if e.name.len() >= 2 && e.name[0] == 46 && e.name[1] == 47 {
                                if t > 0 {
                                    assert(norm@[t] == e.name[t + 1]);
                                }
                            } else {
                                assert(norm@[t] == e.name[t]);
                            }
                        }
                        lemma_ascii_starts_with(norm@, path@);
                    }
                    let ghost prev_dv = out.deep_view();
                    let sw = bytes_starts_with(&norm, pbytes);
                    proof {
                        assert(sw == starts_with(entry_path(e), path@));
                        assert(pre.remaining()[0] == e);
                        assert(pre.remaining().drop_first() == it.remaining());
                        assert(listing(pre.remaining(), path@) == if sw {
                            seq![entry_path(e)] + listing(it.remaining(), path@)
                        } else {
                            listing(it.remaining(), path@)
                        });
                    }
                    if sw {
                        let s = string_from_ascii(norm);
                        proof {
                            assert(s@ == entry_path(e));
                        }
                        out.push(s);
                        proof {
                            assert(out.deep_view() =~= prev_dv.push(entry_path(e)));
                            assert(out.deep_view() + listing(it.remaining(), path@)
                                =~= listing(entries(c), path@));
                        }
                    } else {
                        proof {
                            assert(out.deep_view() + listing(it.remaining(), path@)
                                =~= listing(entries(c), path@));
                        }
                    }
                },
                Ok(None) => {
                    proof {
                        assert(it.remaining().len() == 0);
                        assert(out.deep_view() =~= listing(entries(c), path@));
                    }
                    return out;
                },
                Err(_) => {
                    proof {
                        assert(it.remaining().len() == 0);
                        assert(out.deep_view() =~= listing(entries(c), path@));
                    }
                    return out;
                },
            }
        }
    }

    /// The content bytes of the first entry whose normalized path equals
    /// `path`: `None` when no entry matches before the archive ends or
    /// turns malformed, or when the match is a directory; the declared
    /// size many bytes otherwise.
    pub fn read(&self, path: &str) -> (r: Option<&'a [u8]>)
        ensures
            ({
                let found = lookup(entries(self.contents()), path@);
                match r {
                    Some(s) => {
                        &&& found is Some
                        &&& found.unwrap().typeflag == TarTypeFlag::Regular
                        &&& s@ == self.contents().subrange(
                            found.unwrap().content_offset as int,
                            (found.unwrap().content_offset + found.unwrap().size) as int,
                        )
                    },
                    None => found is None || found.unwrap().typeflag == TarTypeFlag::Directory,
                }
            }),
    {
        let ghost c = self.contents();
        if !path.is_ascii() {
            proof {
                lemma_entries_wf(c, 0);
                assert forall|i: int| 0 <= i < entries(c).len() implies ascii_name(
                    #[trigger] entries(c)[i],
                ) by {
                    assert(entry_wf(c, entries(c)[i]));
                }
                lemma_non_ascii_path(entries(c), path@);
            }
            return None;
        }
        let pbytes = path.as_bytes();
        proof {
            broadcast use vstd::string::is_ascii_spec_bytes;

            assert(pbytes@ =~= Seq::new(path@.len(), |i: int| path@[i] as u8));
        }
        let mut it = self.iter_headers();
        loop
            invariant
                it.contents() == c,
                c == self.contents(),
                self.data@ == c,
                path.is_ascii(),
                pbytes@ == Seq::new(path@.len(), |i: int| path@[i] as u8),
                pbytes@.len() == path@.len(),
                lookup(entries(c), path@) == lookup(it.remaining(), path@),
            decreases it.remaining().len(),
        {
            let ghost pre = it;
            proof {
                lemma_entries_wf(c, it.pos() as int);
            }
            match it.next() {
                Ok(Some(h)) => {
                    let ghost e = pre.remaining()[0];
                    proof {
                        assert(entry_wf(c, e));
                    }
                    let norm = normalize_vec(&h.name);
                    proof {
                        assert forall|t: int| 0 <= t < norm@.len() implies (#[trigger] norm@[t])
                            < 128 by {
                            if e.name.len() >= 2 && e.name[0] == 46 && e.name[1] == 47 {
                                if t > 0 {
                                    assert(norm@[t] == e.name[t + 1]);
                                }
                            } else {
                                assert(norm@[t] == e.name[t]);
                            }
                        }
                        lemma_ascii_path_eq(norm@, path@);
                    }
                    let same = bytes_eq(&norm, pbytes);
                    proof {
                        assert(same == (entry_path(e) == path@));
                        assert(pre.remaining()[0] == e);
                        assert(pre.remaining().drop_first() == it.remaining());
                    }
                    if same {
                        assert(lookup(entries(c), path@) == Some(e));
                        if matches!(h.typeflag, TarTypeFlag::Directory) {
                            return None;
                        }
                        proof {
                            assert(c.len() == vstd::slice::spec_slice_len(self.data));
                        }
                        let s = slice_subrange(self.data, h.content_offset, h.content_offset
                            + h.size);
                        return Some(s);
                    }
                    proof {
                        assert(lookup(pre.remaining(), path@) == lookup(it.remaining(), path@));
                    }
                },
                Ok(None) => {
                    proof {
                        assert(it.remaining().len() == 0);
                    }
                    return None;
                },
                Err(_) => {
                    proof {
                        assert(it.remaining().len() == 0);
                    }
                    return None;
                },
            }
        }
    }
}

/// What `lookup` returns is one of the scanned entries.
pub proof fn lemma_lookup_is_entry(es: Seq<TarEntrySpec>, p: Seq<char>)
    requires
        lookup(es, p) is Some,
    ensures
        exists|i: int| 0 <= i < es.len() && es[i] == lookup(es, p).unwrap(),
    decreases es.len(),
{
    if es.len() > 0 && entry_path(es[0]) != p {
        lemma_lookup_is_entry(es.drop_first(), p);
        let i0 = choose|i: int|
            0 <= i < es.drop_first().len() && es.drop_first()[i] == lookup(
                es.drop_first(),
                p,
            ).unwrap();
        assert(es[i0 + 1] == lookup(es, p).unwrap());
    }
}

/// Law: when every entry's normalized path is absolute, listing under the
/// root prefix returns exactly every entry's normalized path, in encounter
/// order.
pub proof fn lemma_list_root_complete(es: Seq<TarEntrySpec>)
    requires
        forall|i: int| 0 <= i < es.len() ==> starts_with(#[trigger] entry_path(es[i]), seq!['/']),
    ensures
        listing(es, seq!['/']) == es.map_values(|e: TarEntrySpec| entry_path(e)),
    decreases es.len(),
{
    if es.len() > 0 {
        assert forall|i: int|
            0 <= i < es.drop_first().len() implies starts_with(
            #[trigger] entry_path(es.drop_first()[i]),
            seq!['/'],
        ) by {
            assert(es.drop_first()[i] == es[i + 1]);
        }
        lemma_list_root_complete(es.drop_first());
        assert(listing(es, seq!['/']) =~= es.map_values(|e: TarEntrySpec| entry_path(e)));
    }
}

/// Law: any entry found by path lookup declares a size whose bytes lie
/// wholly within the archive, so reading that path returns a slice of
/// exactly the declared length.
pub proof fn lemma_read_length(d: Seq<u8>, path: Seq<char>)
    requires
        lookup(entries(d), path) is Some,
    ensures
        ({
            let e = lookup(entries(d), path).unwrap();
            &&& e.content_offset + e.size <= d.len()
            &&& d.subrange(e.content_offset as int, (e.content_offset + e.size) as int).len() == e.size
        }),
{
    lemma_entries_wf(d, 0);
    lemma_lookup_is_entry(entries(d), path);
}

/// Law: listing never mutates the archive, so repeating it on the same
/// buffer and prefix yields identical results, each the archive's one
/// listing under that prefix.
pub fn list_is_repeatable(archive: &TarArchive<'_>, path: &str) -> (r: (Vec<String>, Vec<String>))
    ensures
        r.0.deep_view() == listing(entries(archive.contents()), path@),
        r.0.deep_view() == r.1.deep_view(),
{
    (archive.list(path), archive.list(path))
}

/// Law: reading never mutates the archive, so repeating it on the same
/// buffer and path yields identical results, each as the archive's one
/// lookup of that path determines.
pub fn read_is_repeatable<'a>(archive: &TarArchive<'a>, path: &str) -> (r: (
    Option<&'a [u8]>,
    Option<&'a [u8]>,
))
    ensures
        ({
            let found = lookup(entries(archive.contents()), path@);
            match r.0 {
                Some(s) => {
                    &&& found is Some
                    &&& found.unwrap().typeflag == TarTypeFlag::Regular
                    &&& s@ == archive.contents().subrange(
                        found.unwrap().content_offset as int,
                        (found.unwrap().content_offset + found.unwrap().size) as int,
                    )
                },
                None => found is None || found.unwrap().typeflag == TarTypeFlag::Directory,
            }
        }),
        r.0 is Some <==> r.1 is Some,
        r.0 is Some ==> r.0.unwrap()@ == r.1.unwrap()@,
{
    (archive.read(path), archive.read(path))
}

} // verus!
