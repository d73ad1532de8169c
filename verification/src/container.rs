//! The tar container: a byte-exact model of the USTAR layout this crate
//! writes, an executable writer proved equal to that model, and (further
//! down) a parser for the extract direction.
//!
//! One archive entry is a 512-byte header block followed, for regular files,
//! by the contents padded with zero bytes to a multiple of 512; the container
//! ends with two zero blocks. Numeric header fields are zero-padded octal.

use crate::digits::{all_oct_digits, oct_digits, oct_of, oct_val};
use crate::error::ArchiveError;
use vstd::prelude::*;

verus! {

/// What one archive entry is: a regular file with its contents, a directory,
/// or a symbolic link with its target path.
#[derive(Debug, Clone, PartialEq, Eq)]
pub enum EntryKind {
    /// A regular file and its full contents.
    File(Vec<u8>),
    /// A directory; its children are entries of their own.
    Directory,
    /// A symbolic link and the path it points at (never dereferenced).
    Symlink(Vec<u8>),
}

/// One entry of an archive: a path relative to the archive root and what
/// stands at that path.
#[derive(Debug, Clone, PartialEq, Eq)]
pub struct ArchiveEntry {
    /// The entry's path inside the archive, as bytes.
    pub path: Vec<u8>,
    /// What the entry is.
    pub kind: EntryKind,
}

/// The mathematical shape of an entry's kind.
pub enum KindModel {
    File(Seq<u8>),
    Directory,
    Symlink(Seq<u8>),
}

/// The mathematical shape of one entry.
pub struct EntryModel {
    pub path: Seq<u8>,
    pub kind: KindModel,
}

impl View for ArchiveEntry {
    type V = EntryModel;

    open spec fn view(&self) -> EntryModel {
        EntryModel {
            path: self.path@,
            kind: match self.kind {
                EntryKind::File(c) => KindModel::File(c@),
                EntryKind::Directory => KindModel::Directory,
                EntryKind::Symlink(t) => KindModel::Symlink(t@),
            },
        }
    }
}

/// The models of a sequence of entries, in order.
pub open spec fn models(es: Seq<ArchiveEntry>) -> Seq<EntryModel> {
    es.map_values(|e: ArchiveEntry| e@)
}

/// True when no byte of `s` is NUL.
pub open spec fn no_nul(s: Seq<u8>) -> bool {
    forall|i: int| 0 <= i < s.len() ==> #[trigger] s[i] != 0
}

/// A path the name field of a header can carry: nonempty, at most 100 bytes,
/// free of NUL bytes.
pub open spec fn valid_name(s: Seq<u8>) -> bool {
    1 <= s.len() <= 100 && no_nul(s)
}

/// The largest file size the 11-digit octal size field can carry, `8^11`.
pub const SIZE_LIMIT: u64 = 0x200000000;

/// An entry the container can carry: a valid path, file contents below the
/// size field's limit, and for a symlink a valid target path.
pub open spec fn valid_entry(e: EntryModel) -> bool {
    valid_name(e.path) && match e.kind {
        KindModel::File(c) => c.len() < SIZE_LIMIT,
        KindModel::Directory => true,
        KindModel::Symlink(t) => valid_name(t),
    }
}

/// All entries of a sequence are valid.
pub open spec fn valid_entries(es: Seq<EntryModel>) -> bool {
    forall|i: int| 0 <= i < es.len() ==> valid_entry(#[trigger] es[i])
}

/// `n` copies of the byte `c`.
pub open spec fn repeat_byte(n: nat, c: u8) -> Seq<u8> {
    Seq::new(n, |i: int| c)
}

/// `n` zero bytes.
pub open spec fn zeros(n: nat) -> Seq<u8> {
    repeat_byte(n, 0)
}

/// The sum of a byte sequence, as a natural number.
pub open spec fn byte_sum(s: Seq<u8>) -> nat
    decreases s.len(),
{
    if s.len() == 0 {
        0
    } else {
        (byte_sum(s.drop_last()) + s.last()) as nat
    }
}

/// Summing distributes over concatenation.
pub proof fn lemma_byte_sum_concat(a: Seq<u8>, b: Seq<u8>)
    ensures
        byte_sum(a + b) == byte_sum(a) + byte_sum(b),
    decreases b.len(),
{
    if b.len() == 0 {
        assert(a + b =~= a);
    } else {
        assert((a + b).drop_last() =~= a + b.drop_last());
        lemma_byte_sum_concat(a, b.drop_last());
        assert((a + b).last() == b.last());
    }
}

/// The sum of `n` copies of one byte is `n` times that byte.
pub proof fn lemma_byte_sum_repeat(n: nat, c: u8)
    ensures
        byte_sum(repeat_byte(n, c)) == n * c,
    decreases n,
{
    if n > 0 {
        assert(repeat_byte(n, c).drop_last() =~= repeat_byte((n - 1) as nat, c));
        lemma_byte_sum_repeat((n - 1) as nat, c);
        assert(repeat_byte(n, c).last() == c);
        assert((n - 1) * c + c == n * c) by (nonlinear_arith);
    } else {
        assert(repeat_byte(0, c) =~= Seq::<u8>::empty());
    }
}

/// The sum of a byte sequence is at most 255 per byte.
pub proof fn lemma_byte_sum_bound(s: Seq<u8>)
    ensures
        byte_sum(s) <= 255 * s.len(),
    decreases s.len(),
{
    if s.len() > 0 {
        lemma_byte_sum_bound(s.drop_last());
    }
}

/// The mode field value of an entry: `0o644` for files, `0o755` for
/// directories, `0o777` for symlinks.
pub open spec fn mode_of(e: EntryModel) -> nat {
    match e.kind {
        KindModel::File(c) => 0o644 as nat,
        KindModel::Directory => 0o755 as nat,
        KindModel::Symlink(t) => 0o777 as nat,
    }
}

/// The size field value of an entry: the content length for files, zero
/// otherwise.
pub open spec fn size_of(e: EntryModel) -> nat {
    match e.kind {
        KindModel::File(c) => c.len(),
        KindModel::Directory => 0,
        KindModel::Symlink(t) => 0,
    }
}

/// The typeflag byte of an entry: `'0'` file, `'5'` directory, `'2'` symlink.
pub open spec fn typeflag_of(e: EntryModel) -> u8 {
    match e.kind {
        KindModel::File(c) => 48u8,
        KindModel::Directory => 53u8,
        KindModel::Symlink(t) => 50u8,
    }
}

/// The contents an entry stores after its header: file bytes, else nothing.
pub open spec fn content_of(e: EntryModel) -> Seq<u8> {
    match e.kind {
        KindModel::File(c) => c,
        KindModel::Directory => Seq::empty(),
        KindModel::Symlink(t) => Seq::empty(),
    }
}

/// A name-sized field: the path, zero-padded to 100 bytes.
pub open spec fn name_padded(s: Seq<u8>) -> Seq<u8> {
    s + zeros((100 - s.len()) as nat)
}

/// A numeric field: fixed-width octal digits and a NUL terminator.
pub open spec fn octal_field(v: nat, digits: nat) -> Seq<u8> {
    oct_digits(v, digits) + seq![0u8]
}

/// The header bytes before the checksum field: name, mode, uid, gid, size,
/// and mtime (148 bytes). Owner ids and the timestamp are fixed at zero, so
/// identical trees give identical containers.
pub open spec fn header_front(e: EntryModel) -> Seq<u8> {
    name_padded(e.path) + octal_field(mode_of(e), 7) + octal_field(0, 7) + octal_field(0, 7)
        + octal_field(size_of(e), 11) + octal_field(0, 11)
}

/// The header bytes after the checksum field: typeflag, link name, the USTAR
/// magic `"ustar\0"` with version `"00"`, and 247 zero bytes covering the
/// owner names, device numbers, prefix, and padding (356 bytes).
pub open spec fn header_back(e: EntryModel) -> Seq<u8> {
    seq![typeflag_of(e)] + (match e.kind {
        KindModel::Symlink(t) => name_padded(t),
        KindModel::File(c) => zeros(100),
        KindModel::Directory => zeros(100),
    }) + seq![117u8, 115u8, 116u8, 97u8, 114u8, 0u8, 48u8, 48u8] + zeros(247)
}

/// Eight spaces: what the checksum field holds while the checksum is summed.
pub open spec fn spaces8() -> Seq<u8> {
    repeat_byte(8, 32)
}

/// The header checksum: the sum of all 512 header bytes with the checksum
/// field itself read as eight spaces.
pub open spec fn checksum_of(e: EntryModel) -> nat {
    byte_sum(header_front(e) + spaces8() + header_back(e))
}

/// The checksum field: six octal digits, a NUL, and a space.
pub open spec fn checksum_field(e: EntryModel) -> Seq<u8> {
    oct_digits(checksum_of(e), 6) + seq![0u8, 32u8]
}

/// The full 512-byte header of an entry.
pub open spec fn header_bytes(e: EntryModel) -> Seq<u8> {
    header_front(e) + checksum_field(e) + header_back(e)
}

/// The zero padding that follows `n` content bytes up to a block boundary.
pub open spec fn pad_len(n: nat) -> nat {
    (((512 - n % 512) as nat) % 512) as nat
}

/// The bytes one entry occupies: header, contents, block padding.
pub open spec fn entry_bytes(e: EntryModel) -> Seq<u8> {
    header_bytes(e) + content_of(e) + zeros(pad_len(size_of(e)))
}

/// The bytes of all entries, in order.
pub open spec fn entries_concat(es: Seq<EntryModel>) -> Seq<u8>
    decreases es.len(),
{
    if es.len() == 0 {
        Seq::empty()
    } else {
        entry_bytes(es[0]) + entries_concat(es.drop_first())
    }
}

/// The whole container: every entry's bytes, then two zero blocks.
pub open spec fn tar_bytes(es: Seq<EntryModel>) -> Seq<u8> {
    entries_concat(es) + zeros(1024)
}

/// Appending an entry appends its bytes.
pub proof fn lemma_entries_concat_snoc(es: Seq<EntryModel>, e: EntryModel)
    ensures
        entries_concat(es.push(e)) == entries_concat(es) + entry_bytes(e),
    decreases es.len(),
{
    if es.len() == 0 {
        assert(es.push(e)[0] == e);
        assert(es.push(e).drop_first() =~= Seq::<EntryModel>::empty());
        assert(entries_concat(Seq::<EntryModel>::empty()) == Seq::<u8>::empty());
        assert(entries_concat(es.push(e)) == entry_bytes(e) + entries_concat(
            es.push(e).drop_first(),
        ));
        assert(entries_concat(es.push(e)) =~= entries_concat(es) + entry_bytes(e));
    } else {
        assert(es.push(e).drop_first() =~= es.drop_first().push(e));
        assert(es.push(e)[0] == es[0]);
        lemma_entries_concat_snoc(es.drop_first(), e);
        assert(entry_bytes(es[0]) + (entries_concat(es.drop_first()) + entry_bytes(e)) =~= (
        entry_bytes(es[0]) + entries_concat(es.drop_first())) + entry_bytes(e));
    }
}

/// The sizes of the header pieces.
pub proof fn lemma_header_lens(e: EntryModel)
    requires
        valid_entry(e),
    ensures
        header_front(e).len() == 148,
        header_back(e).len() == 356,
        checksum_field(e).len() == 8,
        header_bytes(e).len() == 512,
        entry_bytes(e).len() == 512 + size_of(e) + pad_len(size_of(e)),
{
    crate::digits::lemma_oct_digits_val(mode_of(e), 7);
    crate::digits::lemma_oct_digits_val(0, 7);
    crate::digits::lemma_oct_digits_val(size_of(e), 11);
    crate::digits::lemma_oct_digits_val(0, 11);
    crate::digits::lemma_oct_digits_val(checksum_of(e), 6);
}

/// Appends all of `src` to `out`.
fn push_bytes(out: &mut Vec<u8>, src: &Vec<u8>)
    ensures
        final(out)@ == old(out)@ + src@,
{
    let ghost base = out@;
    let mut i: usize = 0;
    while i < src.len()
        invariant
            i <= src@.len(),
            out@ == base + src@.take(i as int),
        decreases src@.len() - i,
    {
        out.push(src[i]);
        proof {
            assert(base + src@.take(i as int) + seq![src@[i as int]] =~= base + src@.take(
                i as int + 1,
            ));
        }
        i = i + 1;
    }
    proof {
        assert(base + src@.take(src@.len() as int) =~= base + src@);
    }
}

/// Appends `n` zero bytes to `out`.
fn push_zeros(out: &mut Vec<u8>, n: usize)
    ensures
        final(out)@ == old(out)@ + zeros(n as nat),
{
    let ghost base = out@;
    let mut i: usize = 0;
    while i < n
        invariant
            i <= n,
            out@ == base + zeros(i as nat),
        decreases n - i,
    {
        out.push(0);
        proof {
            assert(base + zeros(i as nat) + seq![0u8] =~= base + zeros((i + 1) as nat));
        }
        i = i + 1;
    }
    proof {
        assert(base + zeros(0) =~= base);
    }
}

/// Sums the bytes of a short vector.
fn sum_bytes(v: &Vec<u8>) -> (r: u64)
    requires
        v@.len() <= 4096,
    ensures
        r as nat == byte_sum(v@),
{
    let mut sum: u64 = 0;
    let mut i: usize = 0;
    proof {
        assert(v@.take(0) =~= Seq::<u8>::empty());
    }
    while i < v.len()
        invariant
            i <= v@.len(),
            v@.len() <= 4096,
            sum as nat == byte_sum(v@.take(i as int)),
            sum <= 255 * i,
        decreases v@.len() - i,
    {
        proof {
            assert(v@.take(i as int + 1).drop_last() =~= v@.take(i as int));
            assert(v@.take(i as int + 1).last() == v@[i as int]);
        }
        sum = sum + v[i] as u64;
        i = i + 1;
    }
    proof {
        assert(v@.take(v@.len() as int) =~= v@);
    }
    sum
}

/// Builds one numeric field: `digits` octal digits and a NUL terminator.
fn octal_field_of(v: u64, digits: usize) -> (r: Vec<u8>)
    ensures
        r@ == octal_field(v as nat, digits as nat),
{
    let mut f = oct_of(v, digits);
    f.push(0);
    proof {
        assert(f@ =~= octal_field(v as nat, digits as nat));
    }
    f
}

/// Whether this entry can go into a container; mirrors [`valid_entry`].
pub fn entry_is_valid(e: &ArchiveEntry) -> (r: bool)
    ensures
        r == valid_entry(e@),
{
    if !name_is_valid(&e.path) {
        return false;
    }
    match &e.kind {
        EntryKind::File(c) => (c.len() as u64) < SIZE_LIMIT,
        EntryKind::Directory => true,
        EntryKind::Symlink(t) => name_is_valid(t),
    }
}

/// Whether these bytes can fill a name field; mirrors [`valid_name`].
fn name_is_valid(s: &Vec<u8>) -> (r: bool)
    ensures
        r == valid_name(s@),
{
    if s.len() == 0 || s.len() > 100 {
        return false;
    }
    let mut i: usize = 0;
    while i < s.len()
        invariant
            i <= s@.len(),
            forall|j: int| 0 <= j < i ==> #[trigger] s@[j] != 0,
        decreases s@.len() - i,
    {
        if s[i] == 0 {
            return false;
        }
        i = i + 1;
    }
    true
}

/// Builds the 512-byte header of a valid entry.
fn header_of(e: &ArchiveEntry) -> (r: Vec<u8>)
    requires
        valid_entry(e@),
    ensures
        r@ == header_bytes(e@),
{
    // Everything before the checksum field.
    let mut front: Vec<u8> = Vec::new();
    push_bytes(&mut front, &e.path);
    push_zeros(&mut front, 100 - e.path.len());
    let mode: u64 = match &e.kind {
        EntryKind::File(_) => 0o644,
        EntryKind::Directory => 0o755,
        EntryKind::Symlink(_) => 0o777,
    };
    let mut f = octal_field_of(mode, 7);
    front.append(&mut f);
    let mut f = octal_field_of(0, 7);
    front.append(&mut f);
    let mut f = octal_field_of(0, 7);
    front.append(&mut f);
    let size: u64 = match &e.kind {
        EntryKind::File(c) => c.len() as u64,
        EntryKind::Directory => 0,
        EntryKind::Symlink(_) => 0,
    };
    let mut f = octal_field_of(size, 11);
    front.append(&mut f);
    let mut f = octal_field_of(0, 11);
    front.append(&mut f);
    proof {
        assert(front@ =~= header_front(e@));
        lemma_header_lens(e@);
    }
    // Everything after the checksum field.
    let mut back: Vec<u8> = Vec::new();
    match &e.kind {
        EntryKind::File(_) => back.push(48),
        EntryKind::Directory => back.push(53),
        EntryKind::Symlink(_) => back.push(50),
    };
    match &e.kind {
        EntryKind::Symlink(t) => {
            push_bytes(&mut back, t);
            push_zeros(&mut back, 100 - t.len());
        },
        _ => {
            push_zeros(&mut back, 100);
        },
    };
    back.push(117);
    back.push(115);
    back.push(116);
    back.push(97);
    back.push(114);
    back.push(0);
    back.push(48);
    back.push(48);
    push_zeros(&mut back, 247);
    proof {
        assert(back@ =~= header_back(e@));
    }
    // The checksum counts the eight spaces that stand in its own field.
    let s1 = sum_bytes(&front);
    let s3 = sum_bytes(&back);
    proof {
        lemma_byte_sum_bound(front@);
        lemma_byte_sum_bound(back@);
        lemma_byte_sum_repeat(8, 32);
        lemma_byte_sum_concat(header_front(e@) + spaces8(), header_back(e@));
        lemma_byte_sum_concat(header_front(e@), spaces8());
    }
    let cks = s1 + 256 + s3;
    let mut chk = oct_of(cks, 6);
    chk.push(0);
    chk.push(32);
    proof {
        assert(chk@ =~= checksum_field(e@));
    }
    let mut h = front;
    h.append(&mut chk);
    h.append(&mut back);
    proof {
        assert(h@ =~= header_bytes(e@));
    }
    h
}

/// Appends a valid entry's bytes (header, contents, padding) to `out`.
fn push_entry(out: &mut Vec<u8>, e: &ArchiveEntry)
    requires
        valid_entry(e@),
        old(out)@.len() + 512 + size_of(e@) + pad_len(size_of(e@)) <= usize::MAX,
    ensures
        final(out)@ == old(out)@ + entry_bytes(e@),
{
    let mut h = header_of(e);
    let ghost base = out@;
    out.append(&mut h);
    match &e.kind {
        EntryKind::File(c) => {
            push_bytes(out, c);
            let pad = (512 - (c.len() % 512)) % 512;
            push_zeros(out, pad);
        },
        _ => {
        },
    };
    proof {
        lemma_header_lens(e@);
        if e@.kind is File {
            assert(out@ =~= base + entry_bytes(e@));
        } else {
            assert(pad_len(size_of(e@)) == 0);
            assert(content_of(e@) =~= Seq::<u8>::empty());
            assert(out@ =~= base + entry_bytes(e@));
        }
    }
}

/// Builds the tar container holding the given entries, in order.
///
/// Returns `IoFailure` exactly when some entry cannot be represented: a path
/// that is empty, longer than 100 bytes, or holding a NUL byte; file contents
/// at or over [`SIZE_LIMIT`] bytes; or a symlink target with an invalid path.
/// The container grows past what a vector can hold only on inputs no real
/// machine produces, so the length premise asks the caller for room.
pub fn build_tar(entries: &Vec<ArchiveEntry>) -> (r: Result<Vec<u8>, ArchiveError>)
    requires
        tar_bytes(models(entries@)).len() <= usize::MAX,
    ensures
        match r {
            Ok(bytes) => valid_entries(models(entries@)) && bytes@ == tar_bytes(models(entries@)),
            Err(err) => err == ArchiveError::IoFailure && !valid_entries(models(entries@)),
        },
{
    let ghost all = models(entries@);
    let mut out: Vec<u8> = Vec::new();
    let mut i: usize = 0;
    proof {
        assert(all.take(0) =~= Seq::<EntryModel>::empty());
        assert(out@ =~= entries_concat(all.take(0)));
    }
    while i < entries.len()
        invariant
            i <= entries@.len(),
            all == models(entries@),
            tar_bytes(all).len() <= usize::MAX,
            forall|j: int| 0 <= j < i ==> valid_entry(#[trigger] all[j]),
            out@ == entries_concat(all.take(i as int)),
        decreases entries@.len() - i,
    {
        let e = &entries[i];
        proof {
            assert(models(entries@)[i as int] == entries@[i as int]@);
            assert(all[i as int] == e@);
        }
        if !entry_is_valid(e) {
            proof {
                assert(!valid_entry(all[i as int]));
            }
            return Err(ArchiveError::IoFailure);
        }
        proof {
            lemma_entries_concat_prefix_len(all, i as nat);
            lemma_entries_concat_snoc(all.take(i as int), e@);
            assert(all.take(i as int).push(e@) =~= all.take(i as int + 1));
        }
        push_entry(&mut out, e);
        i = i + 1;
    }
    proof {
        assert(all.take(all.len() as int) =~= all);
    }
    push_zeros(&mut out, 1024);
    Ok(out)
}

/// True when every byte of `b` is zero.
pub open spec fn is_zero_block(b: Seq<u8>) -> bool {
    forall|i: int| 0 <= i < b.len() ==> #[trigger] b[i] == 0
}

/// How many bytes stand before the first NUL of `s` (all of them if none).
pub open spec fn nul_prefix_len(s: Seq<u8>) -> nat
    decreases s.len(),
{
    if s.len() == 0 {
        0
    } else if s[0] == 0 {
        0
    } else {
        (1 + nul_prefix_len(s.drop_first())) as nat
    }
}

/// The bytes of `s` before its first NUL.
pub open spec fn trim_nul(s: Seq<u8>) -> Seq<u8> {
    s.take(nul_prefix_len(s) as int)
}

/// `nul_prefix_len` is the unique cut: everything before it is nonzero and
/// it stops at a NUL or at the end.
pub proof fn lemma_nul_prefix_char(s: Seq<u8>, k: nat)
    requires
        k <= s.len(),
        forall|i: int| 0 <= i < k ==> #[trigger] s[i] != 0,
        k == s.len() || s[k as int] == 0,
    ensures
        nul_prefix_len(s) == k,
    decreases s.len(),
{
    if s.len() == 0 {
    } else if s[0] == 0 {
        if k > 0 {
            assert(s[0] != 0);
        }
    } else {
        assert(k >= 1) by {
            if k == 0 {
                assert(s[0] == 0);
            }
        }
        let t = s.drop_first();
        assert forall|i: int| 0 <= i < k - 1 implies #[trigger] t[i] != 0 by {
            assert(t[i] == s[i + 1]);
        }
        assert(k - 1 == t.len() || t[k - 1] == s[k as int]);
        lemma_nul_prefix_char(t, (k - 1) as nat);
    }
}

/// Reads a 12-byte numeric field: 11 octal digits and a NUL or space
/// terminator give the value; anything else is invalid.
pub open spec fn parse_size_field(f: Seq<u8>) -> Option<nat> {
    if all_oct_digits(f.take(11)) && (f[11] == 0 || f[11] == 32) {
        Option::Some(oct_val(f.take(11)))
    } else {
        Option::None
    }
}

/// Parses a tar container into its entries.
///
/// The container ends at its first zero block (or, leniently, at the end of
/// the bytes); anything after the zero block is ignored, as real containers
/// pad their tail with zeros. Each header yields an entry from its name,
/// size, typeflag, and (for symlinks) link name; checksum, mode, owner, and
/// timestamp fields are not inspected. A header that is cut short, a name or
/// link that is empty, a malformed size, a nonzero size on a directory or
/// symlink, a typeflag this crate does not write, or contents that run past
/// the end make the whole container invalid.
pub open spec fn parse_tar(b: Seq<u8>) -> Option<Seq<EntryModel>>
    decreases b.len(),
{
    if b.len() == 0 {
        Option::Some(Seq::empty())
    } else if b.len() < 512 {
        Option::None
    } else if is_zero_block(b.take(512)) {
        Option::Some(Seq::empty())
    } else {
        let name = trim_nul(b.take(100));
        let size_opt = parse_size_field(b.subrange(124, 136));
        let tf = b[156];
        if name.len() == 0 || size_opt is None {
            Option::None
        } else {
            let size = size_opt->Some_0;
            if tf == 48 || tf == 0 {
                let total = 512 + size + pad_len(size);
                if b.len() < total {
                    Option::None
                } else {
                    let e = EntryModel {
                        path: name,
                        kind: KindModel::File(b.subrange(512, 512 + size as int)),
                    };
                    match parse_tar(b.skip(total as int)) {
                        Option::Some(rest) => Option::Some(seq![e] + rest),
                        Option::None => Option::None,
                    }
                }
            } else if tf == 53 {
                if size != 0 {
                    Option::None
                } else {
                    let e = EntryModel { path: name, kind: KindModel::Directory };
                    match parse_tar(b.skip(512)) {
                        Option::Some(rest) => Option::Some(seq![e] + rest),
                        Option::None => Option::None,
                    }
                }
            } else if tf == 50 {
                if size != 0 {
                    Option::None
                } else {
                    let target = trim_nul(b.subrange(157, 257));
                    if target.len() == 0 {
                        Option::None
                    } else {
                        let e = EntryModel { path: name, kind: KindModel::Symlink(target) };
                        match parse_tar(b.skip(512)) {
                            Option::Some(rest) => Option::Some(seq![e] + rest),
                            Option::None => Option::None,
                        }
                    }
                }
            } else {
                Option::None
            }
        }
    }
}

/// `o` with `p` prepended to a successful parse.
pub open spec fn opt_prepend(p: Seq<EntryModel>, o: Option<Seq<EntryModel>>) -> Option<
    Seq<EntryModel>,
> {
    match o {
        Option::Some(s) => Option::Some(p + s),
        Option::None => Option::None,
    }
}

/// Whether all of `data[pos..pos + cnt]` is zero bytes.
fn region_is_zero(data: &Vec<u8>, pos: usize, cnt: usize) -> (r: bool)
    requires
        pos + cnt <= data@.len(),
    ensures
        r == is_zero_block(data@.subrange(pos as int, pos as int + cnt as int)),
{
    let ghost region = data@.subrange(pos as int, pos as int + cnt as int);
    let mut i: usize = 0;
    while i < cnt
        invariant
            i <= cnt,
            pos + cnt <= data@.len(),
            region == data@.subrange(pos as int, pos as int + cnt as int),
            forall|j: int| 0 <= j < i ==> #[trigger] region[j] == 0,
        decreases cnt - i,
    {
        proof {
            vstd::std_specs::vec::axiom_spec_len(data);
        }
        if data[pos + i] != 0 {
            proof {
                assert(region[i as int] != 0);
            }
            return false;
        }
        proof {
            assert(region[i as int] == data@[pos + i]);
        }
        i = i + 1;
    }
    true
}

/// The offset of the first NUL in `data[pos..pos + width]`, or `width`.
fn find_nul(data: &Vec<u8>, pos: usize, width: usize) -> (r: usize)
    requires
        pos + width <= data@.len(),
    ensures
        r as nat == nul_prefix_len(data@.subrange(pos as int, pos as int + width as int)),
        r <= width,
{
    let ghost region = data@.subrange(pos as int, pos as int + width as int);
    let mut i: usize = 0;
    while i < width
        invariant
            i <= width,
            pos + width <= data@.len(),
            region == data@.subrange(pos as int, pos as int + width as int),
            forall|j: int| 0 <= j < i ==> #[trigger] region[j] != 0,
        decreases width - i,
    {
        proof {
            vstd::std_specs::vec::axiom_spec_len(data);
        }
        if data[pos + i] == 0 {
            proof {
                assert(region[i as int] == 0);
                lemma_nul_prefix_char(region, i as nat);
            }
            return i;
        }
        proof {
            assert(region[i as int] == data@[pos + i]);
        }
        i = i + 1;
    }
    proof {
        lemma_nul_prefix_char(region, width as nat);
    }
    width
}

/// Copies `data[pos..pos + cnt]` out into a fresh vector.
fn copy_range(data: &Vec<u8>, pos: usize, cnt: usize) -> (r: Vec<u8>)
    requires
        pos + cnt <= data@.len(),
    ensures
        r@ == data@.subrange(pos as int, pos as int + cnt as int),
{
    let mut out: Vec<u8> = Vec::new();
    let mut i: usize = 0;
    while i < cnt
        invariant
            i <= cnt,
            pos + cnt <= data@.len(),
            out@ == data@.subrange(pos as int, pos as int + i as int),
        decreases cnt - i,
    {
        proof {
            vstd::std_specs::vec::axiom_spec_len(data);
        }
        out.push(data[pos + i]);
        proof {
            assert(data@.subrange(pos as int, pos as int + i as int).push(data@[pos + i]) =~= data@
                .subrange(pos as int, pos as int + i as int + 1));
        }
        i = i + 1;
    }
    out
}

/// Reads the 12-byte numeric field at `pos`, as [`parse_size_field`] does.
fn read_size_field(data: &Vec<u8>, pos: usize) -> (r: Option<u64>)
    requires
        pos + 12 <= data@.len(),
    ensures
        ({
            let f = data@.subrange(pos as int, pos as int + 12);
            match r {
                Option::Some(v) => parse_size_field(f) == Option::Some(v as nat) && v
                    < SIZE_LIMIT,
                Option::None => parse_size_field(f) is None,
            }
        }),
{
    let ghost f = data@.subrange(pos as int, pos as int + 12);
    let ghost digits = f.take(11);
    let mut val: u64 = 0;
    let mut i: usize = 0;
    proof {
        assert(digits.take(0) =~= Seq::<u8>::empty());
    }
    while i < 11
        invariant
            i <= 11,
            pos + 12 <= data@.len(),
            f == data@.subrange(pos as int, pos as int + 12),
            digits == f.take(11),
            all_oct_digits(digits.take(i as int)),
            val as nat == oct_val(digits.take(i as int)),
            (val as nat) < crate::digits::pow8(i as nat),
        decreases 11 - i,
    {
        proof {
            vstd::std_specs::vec::axiom_spec_len(data);
        }
        let b = data[pos + i];
        if b < 48 || b > 55 {
            proof {
                assert(digits[i as int] == b);
                assert(!all_oct_digits(digits));
            }
            return Option::None;
        }
        proof {
            assert(digits[i as int] == b);
            assert(digits.take(i as int + 1).drop_last() =~= digits.take(i as int));
            assert(digits.take(i as int + 1).last() == b);
            assert forall|j: int| 0 <= j < i + 1 implies 48 <= #[trigger] digits.take(
                i as int + 1,
            )[j] <= 55 by {
                assert(digits.take(i as int + 1)[j] == digits[j]);
                if j < i {
                    assert(digits.take(i as int)[j] == digits[j]);
                }
            }
            crate::digits::lemma_pow8_mono(i as nat, 10);
            crate::digits::lemma_pow8_11();
        }
        val = val * 8 + (b - 48) as u64;
        i = i + 1;
    }
    proof {
        vstd::std_specs::vec::axiom_spec_len(data);
    }
    let term = data[pos + 11];
    if term != 0 && term != 32 {
        proof {
            assert(f[11] == term);
        }
        return Option::None;
    }
    proof {
        assert(digits.take(11) =~= digits);
        assert(f[11] == term);
        crate::digits::lemma_pow8_11();
    }
    Option::Some(val)
}

/// Parses a tar container into its entries, as [`parse_tar`] says; a
/// container [`parse_tar`] rejects yields `ExtractionFailed`.
pub fn parse_archive(data: &Vec<u8>) -> (r: Result<Vec<ArchiveEntry>, ArchiveError>)
    ensures
        match r {
            Ok(es) => parse_tar(data@) == Option::Some(models(es@)),
            Err(err) => err == ArchiveError::ExtractionFailed && parse_tar(data@) is None,
        },
{
    let n = data.len();
    let mut pos: usize = 0;
    let mut acc: Vec<ArchiveEntry> = Vec::new();
    proof {
        assert(data@.skip(0) =~= data@);
        assert(models(acc@) =~= Seq::<EntryModel>::empty());
        assert(Seq::<EntryModel>::empty() + parse_tar(data@)->Some_0 =~= parse_tar(
            data@,
        )->Some_0);
    }
    loop
        invariant
            pos <= n,
            n == data@.len(),
            parse_tar(data@) == opt_prepend(models(acc@), parse_tar(data@.skip(pos as int))),
        decreases n - pos,
    {
        let ghost rem = data@.skip(pos as int);
        if pos == n {
            proof {
                assert(rem =~= Seq::<u8>::empty());
                assert(models(acc@) + Seq::<EntryModel>::empty() =~= models(acc@));
            }
            return Ok(acc);
        }
        if n - pos < 512 {
            proof {
                assert(rem.len() == n - pos);
            }
            return Err(ArchiveError::ExtractionFailed);
        }
        if region_is_zero(data, pos, 512) {
            proof {
                assert(rem.take(512) =~= data@.subrange(pos as int, pos as int + 512));
                assert(models(acc@) + Seq::<EntryModel>::empty() =~= models(acc@));
            }
            return Ok(acc);
        }
        proof {
            assert(rem.take(512) =~= data@.subrange(pos as int, pos as int + 512));
            assert(!is_zero_block(rem.take(512)));
            assert(rem.take(100) =~= data@.subrange(pos as int, pos as int + 100));
            assert(rem.subrange(124, 136) =~= data@.subrange(pos as int + 124, pos as int + 136));
            assert(rem[156] == data@[pos as int + 156]);
        }
        let name_len = find_nul(data, pos, 100);
        if name_len == 0 {
            return Err(ArchiveError::ExtractionFailed);
        }
        let name = copy_range(data, pos, name_len);
        proof {
            assert(name@ =~= trim_nul(rem.take(100)));
        }
        let size = match read_size_field(data, pos + 124) {
            Option::Some(v) => v,
            Option::None => {
                return Err(ArchiveError::ExtractionFailed);
            },
        };
        let tf = data[pos + 156];
        if tf == 48 || tf == 0 {
            let pad = (512 - (size % 512)) % 512;
            let total = 512 + size + pad;
            proof {
                assert(total as nat == 512 + (size as nat) + pad_len(size as nat));
            }
            if ((n - pos) as u64) < total {
                proof {
                    assert(rem.len() < total);
                }
                return Err(ArchiveError::ExtractionFailed);
            }
            let size_u = size as usize;
            let content = copy_range(data, pos + 512, size_u);
            proof {
                assert(content@ =~= rem.subrange(512, 512 + size as int));
            }
            let entry = ArchiveEntry { path: name, kind: EntryKind::File(content) };
            let step = (total as usize);
            proof {
                assert(rem.skip(step as int) =~= data@.skip(pos as int + step as int));
                assert(parse_tar(rem) == opt_prepend(
                    seq![entry@],
                    parse_tar(rem.skip(step as int)),
                ));
                lemma_parse_loop_step(data@, pos as nat, acc@, entry, step as nat);
            }
            acc.push(entry);
            pos = pos + step;
        } else if tf == 53 {
            if size != 0 {
                return Err(ArchiveError::ExtractionFailed);
            }
            let entry = ArchiveEntry { path: name, kind: EntryKind::Directory };
            proof {
                assert(rem.skip(512) =~= data@.skip(pos as int + 512));
                assert(parse_tar(rem) == opt_prepend(seq![entry@], parse_tar(rem.skip(512))));
                lemma_parse_loop_step(data@, pos as nat, acc@, entry, 512);
            }
            acc.push(entry);
            pos = pos + 512;
        } else if tf == 50 {
            if size != 0 {
                return Err(ArchiveError::ExtractionFailed);
            }
            let target_len = find_nul(data, pos + 157, 100);
            proof {
                assert(rem.subrange(157, 257) =~= data@.subrange(
                    pos as int + 157,
                    pos as int + 257,
                ));
            }
            if target_len == 0 {
                return Err(ArchiveError::ExtractionFailed);
            }
            let target = copy_range(data, pos + 157, target_len);
            proof {
                assert(target@ =~= trim_nul(rem.subrange(157, 257)));
            }
            let entry = ArchiveEntry { path: name, kind: EntryKind::Symlink(target) };
            proof {
                assert(rem.skip(512) =~= data@.skip(pos as int + 512));
                assert(parse_tar(rem) == opt_prepend(seq![entry@], parse_tar(rem.skip(512))));
                lemma_parse_loop_step(data@, pos as nat, acc@, entry, 512);
            }
            acc.push(entry);
            pos = pos + 512;
        } else {
            return Err(ArchiveError::ExtractionFailed);
        }
    }
}

/// One parser step: when the header at `pos` parses to exactly `entry` and
/// occupies `step` bytes, consuming it keeps the loop's running equation.
proof fn lemma_parse_loop_step(
    data: Seq<u8>,
    pos: nat,
    acc: Seq<ArchiveEntry>,
    entry: ArchiveEntry,
    step: nat,
)
    requires
        pos + step <= data.len(),
        parse_tar(data.skip(pos as int)) == opt_prepend(
            seq![entry@],
            parse_tar(data.skip((pos + step) as int)),
        ),
        parse_tar(data) == opt_prepend(models(acc), parse_tar(data.skip(pos as int))),
    ensures
        parse_tar(data) == opt_prepend(
            models(acc.push(entry)),
            parse_tar(data.skip((pos + step) as int)),
        ),
{
    assert(models(acc.push(entry)) =~= models(acc).push(entry@));
    match parse_tar(data.skip((pos + step) as int)) {
        Option::Some(rest) => {
            assert(models(acc) + (seq![entry@] + rest) =~= models(acc).push(entry@) + rest);
        },
        Option::None => {
        },
    }
}

/// What the parser reads out of a valid entry's header: the path, the size,
/// the typeflag, a nonzero magic byte, and (for symlinks) the target.
proof fn lemma_header_fields(e: EntryModel)
    requires
        valid_entry(e),
    ensures
        header_bytes(e).len() == 512,
        trim_nul(header_bytes(e).take(100)) == e.path,
        parse_size_field(header_bytes(e).subrange(124, 136)) == Option::Some(size_of(e)),
        header_bytes(e)[156] == typeflag_of(e),
        header_bytes(e)[257] == 117u8,
        e.kind is Symlink ==> trim_nul(header_bytes(e).subrange(157, 257)) == e.kind->Symlink_0,
{
    lemma_header_lens(e);
    let h = header_bytes(e);
    crate::digits::lemma_oct_digits_val(mode_of(e), 7);
    crate::digits::lemma_oct_digits_val(0, 7);
    crate::digits::lemma_oct_digits_val(size_of(e), 11);
    crate::digits::lemma_oct_digits_val(0, 11);
    crate::digits::lemma_oct_digits_val(checksum_of(e), 6);
    assert(name_padded(e.path).len() == 100);
    // The name field and the path it trims back to.
    assert(h.take(100) =~= name_padded(e.path));
    lemma_trim_of_padded(e.path);
    // The size field.
    assert(h.subrange(124, 136) =~= octal_field(size_of(e), 11));
    assert(octal_field(size_of(e), 11).take(11) =~= oct_digits(size_of(e), 11));
    assert(size_of(e) < 0x200000000) by {
        match e.kind {
            KindModel::File(c) => {},
            KindModel::Directory => {},
            KindModel::Symlink(t) => {},
        }
    }
    assert(size_of(e) < vstd::arithmetic::power::pow(8, 11)) by {
        crate::digits::lemma_pow8_11();
        crate::digits::lemma_pow8_is_pow(11);
    }
    crate::digits::lemma_oct_digits_roundtrip(size_of(e), 11);
    assert(octal_field(size_of(e), 11)[11] == 0);
    // The typeflag and the first magic byte.
    assert(h[156] == header_back(e)[0]);
    assert(h[257] == header_back(e)[101]);
    assert(header_back(e)[101] == 117u8);
    // The link field.
    if e.kind is Symlink {
        let t = e.kind->Symlink_0;
        assert(h.subrange(157, 257) =~= name_padded(t));
        lemma_trim_of_padded(t);
    }
}

/// Trimming the zero padding off a padded valid name gives the name back.
proof fn lemma_trim_of_padded(s: Seq<u8>)
    requires
        valid_name(s),
    ensures
        trim_nul(name_padded(s)) == s,
{
    let p = name_padded(s);
    assert(p.len() == 100);
    assert forall|i: int| 0 <= i < s.len() implies #[trigger] p[i] != 0 by {
        assert(p[i] == s[i]);
    }
    if s.len() < 100 {
        assert(p[s.len() as int] == zeros((100 - s.len()) as nat)[0]);
        assert(p[s.len() as int] == 0);
    }
    lemma_nul_prefix_char(p, s.len());
    assert(p.take(s.len() as int) =~= s);
}

/// Parsing one valid entry's bytes followed by anything peels off exactly
/// that entry and goes on with the rest.
#[verifier::rlimit(100)]
proof fn lemma_parse_of_entry(e: EntryModel, tail: Seq<u8>)
    requires
        valid_entry(e),
    ensures
        parse_tar(entry_bytes(e) + tail) == opt_prepend(seq![e], parse_tar(tail)),
{
    lemma_header_lens(e);
    lemma_header_fields(e);
    let h = header_bytes(e);
    let eb = entry_bytes(e);
    let b = eb + tail;
    assert(b.len() == eb.len() + tail.len());
    assert(b.take(512) =~= h);
    assert(!is_zero_block(b.take(512))) by {
        assert(b.take(512)[257] == 117u8);
    }
    assert(b.take(100) =~= h.take(100));
    assert(b.subrange(124, 136) =~= h.subrange(124, 136));
    assert(b[156] == h[156]);
    let size = size_of(e);
    let total = 512 + size + pad_len(size);
    assert(eb.len() == total);
    assert(b.skip(total as int) =~= tail);
    assert(trim_nul(b.take(100)) == e.path);
    assert(e.path.len() > 0);
    match e.kind {
        KindModel::File(c) => {
            assert(b[156] == 48u8);
            assert(b.subrange(512, 512 + size as int) =~= c) by {
                assert forall|j: int| 0 <= j < size implies #[trigger] b.subrange(
                    512,
                    512 + size as int,
                )[j] == c[j] by {
                    assert(b[512 + j] == eb[512 + j]);
                    assert(eb[512 + j] == c[j]);
                }
            }
            let e2 = EntryModel { path: trim_nul(b.take(100)), kind: KindModel::File(c) };
            assert(e2 == e);
            assert(parse_tar(b) == opt_prepend(seq![e], parse_tar(tail)));
        },
        KindModel::Directory => {
            assert(b[156] == 53u8);
            assert(size == 0);
            assert(pad_len(0) == 0);
            assert(total == 512);
            let e2 = EntryModel { path: trim_nul(b.take(100)), kind: KindModel::Directory };
            assert(e2 == e);
            assert(parse_tar(b) == opt_prepend(seq![e], parse_tar(tail)));
        },
        KindModel::Symlink(t) => {
            assert(b[156] == 50u8);
            assert(size == 0);
            assert(pad_len(0) == 0);
            assert(total == 512);
            assert(b.subrange(157, 257) =~= h.subrange(157, 257));
            assert(trim_nul(b.subrange(157, 257)) == t);
            assert(t.len() > 0);
            let e2 = EntryModel { path: trim_nul(b.take(100)), kind: KindModel::Symlink(t) };
            assert(e2 == e);
            assert(parse_tar(b) == opt_prepend(seq![e], parse_tar(tail)));
        },
    }
}

/// Reading back what the writer wrote gives the written entries: the
/// container round-trip, stated at the byte level.
pub proof fn lemma_parse_of_tar_bytes(es: Seq<EntryModel>)
    requires
        valid_entries(es),
    ensures
        parse_tar(tar_bytes(es)) == Option::Some(es),
    decreases es.len(),
{
    let b = tar_bytes(es);
    if es.len() == 0 {
        assert(entries_concat(es) =~= Seq::<u8>::empty());
        assert(b =~= zeros(1024));
        assert(b.len() == 1024);
        assert(is_zero_block(b.take(512))) by {
            assert forall|i: int| 0 <= i < 512 implies #[trigger] b.take(512)[i] == 0 by {
                assert(b.take(512)[i] == zeros(1024)[i]);
            }
        }
        assert(es =~= Seq::<EntryModel>::empty());
    } else {
        let e = es[0];
        let rest = es.drop_first();
        assert(valid_entry(e));
        assert(valid_entries(rest)) by {
            assert forall|i: int| 0 <= i < rest.len() implies valid_entry(#[trigger] rest[i]) by {
                assert(rest[i] == es[i + 1]);
            }
        }
        assert(b =~= entry_bytes(e) + tar_bytes(rest)) by {
            assert(entries_concat(es) == entry_bytes(e) + entries_concat(rest));
        }
        lemma_parse_of_entry(e, tar_bytes(rest));
        lemma_parse_of_tar_bytes(rest);
        assert(seq![e] + rest =~= es);
    }
}

/// A prefix of the entries occupies no more bytes than the whole container.
proof fn lemma_entries_concat_prefix_len(es: Seq<EntryModel>, i: nat)
    requires
        i < es.len(),
    ensures
        entries_concat(es.take(i as int)).len() + entry_bytes(es[i as int]).len()
            <= entries_concat(es).len(),
    decreases i,
{
    if i == 0 {
        assert(es.take(0) =~= Seq::<EntryModel>::empty());
        assert(entries_concat(es) == entry_bytes(es[0]) + entries_concat(es.drop_first()));
    } else {
        lemma_entries_concat_prefix_len(es.drop_first(), (i - 1) as nat);
        assert(es.take(i as int).drop_first() =~= es.drop_first().take(i as int - 1));
        assert(es.take(i as int)[0] == es[0]);
        assert(es.drop_first()[i as int - 1] == es[i as int]);
    }
}

} // verus!
