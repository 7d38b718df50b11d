use vstd::prelude::*;

use crate::buffered::{ChunkReader, StreamingBuffer};
use crate::connection::Connection;
use crate::errors::ClusterError;
use crate::search::{
    append_slice, first_match, has_match, is_first_match, lemma_first_match,
    lemma_first_match_unique, lemma_occurs_in_window, occurs_at,
};
use vstd::slice::slice_to_vec;

verus! {

/// Flag to represent the type of file.
#[derive(Clone, Copy, Debug, PartialEq, Eq, Structural)]
pub enum FileType {
    Directory,
    File,
}

/// The single wire byte that stands for a file type.
pub open spec fn file_type_byte(t: FileType) -> u8 {
    match t {
        FileType::Directory => 0u8,
        FileType::File => 1u8,
    }
}

/// The file type a wire byte stands for, if any: any byte other than 0 or 1
/// fails decoding.
pub open spec fn file_type_of_byte(b: u8) -> Option<FileType> {
    if b == 0 {
        Some(FileType::Directory)
    } else if b == 1 {
        Some(FileType::File)
    } else {
        None
    }
}

pub fn file_type_to_byte(t: FileType) -> (b: u8)
    ensures
        b == file_type_byte(t),
{
    match t {
        FileType::Directory => 0u8,
        FileType::File => 1u8,
    }
}

pub fn file_type_from_byte(b: u8) -> (r: Option<FileType>)
    ensures
        r == file_type_of_byte(b),
{
    if b == 0 {
        Some(FileType::Directory)
    } else if b == 1 {
        Some(FileType::File)
    } else {
        None
    }
}

/// Law: every file type survives the byte round trip, and a byte decodes
/// exactly when it is 0 or 1.
pub proof fn lemma_file_type_round_trip(t: FileType, b: u8)
    ensures
        file_type_of_byte(file_type_byte(t)) == Some(t),
        (file_type_of_byte(b) is None) <==> b > 1,
{
}

/// The eight bytes of `n`, big-endian.
pub open spec fn spec_u64_be_bytes(n: u64) -> Seq<u8> {
    seq![
        (n >> 56 & 0xff) as u8,
        (n >> 48 & 0xff) as u8,
        (n >> 40 & 0xff) as u8,
        (n >> 32 & 0xff) as u8,
        (n >> 24 & 0xff) as u8,
        (n >> 16 & 0xff) as u8,
        (n >> 8 & 0xff) as u8,
        (n & 0xff) as u8,
    ]
}

/// The unsigned 64-bit value eight big-endian bytes stand for.
pub open spec fn spec_u64_from_be_bytes(s: Seq<u8>) -> u64
    recommends
        s.len() == 8,
{
    (s[0] as u64) << 56 | (s[1] as u64) << 48 | (s[2] as u64) << 40 | (s[3] as u64) << 32 | (
    s[4] as u64) << 24 | (s[5] as u64) << 16 | (s[6] as u64) << 8 | (s[7] as u64)
}

/// Law: the big-endian byte round trip is the identity, in both directions.
pub proof fn lemma_u64_be_round_trip(n: u64, b0: u8, b1: u8, b2: u8, b3: u8, b4: u8, b5: u8, b6: u8, b7: u8)
    ensures
        spec_u64_from_be_bytes(spec_u64_be_bytes(n)) == n,
        spec_u64_be_bytes(spec_u64_from_be_bytes(seq![b0, b1, b2, b3, b4, b5, b6, b7])) == seq![b0, b1, b2, b3, b4, b5, b6, b7],
{
    let c0 = (n >> 56 & 0xff) as u8;
    let c1 = (n >> 48 & 0xff) as u8;
    let c2 = (n >> 40 & 0xff) as u8;
    let c3 = (n >> 32 & 0xff) as u8;
    let c4 = (n >> 24 & 0xff) as u8;
    let c5 = (n >> 16 & 0xff) as u8;
    let c6 = (n >> 8 & 0xff) as u8;
    let c7 = (n & 0xff) as u8;
    assert(spec_u64_be_bytes(n) == seq![c0, c1, c2, c3, c4, c5, c6, c7]);
    assert((c0 as u64) << 56 | (c1 as u64) << 48 | (c2 as u64) << 40 | (c3 as u64) << 32 | (
        c4 as u64) << 24 | (c5 as u64) << 16 | (c6 as u64) << 8 | (c7 as u64) == n) by (bit_vector)
        requires
            c0 == (n >> 56 & 0xff) as u8,
            c1 == (n >> 48 & 0xff) as u8,
            c2 == (n >> 40 & 0xff) as u8,
            c3 == (n >> 32 & 0xff) as u8,
            c4 == (n >> 24 & 0xff) as u8,
            c5 == (n >> 16 & 0xff) as u8,
            c6 == (n >> 8 & 0xff) as u8,
            c7 == (n & 0xff) as u8,
    ;
    let s = seq![b0, b1, b2, b3, b4, b5, b6, b7];
    let m = spec_u64_from_be_bytes(s);
    assert(m == (b0 as u64) << 56 | (b1 as u64) << 48 | (b2 as u64) << 40 | (b3 as u64) << 32 | (b4 as u64) << 24 | (b5 as u64) << 16 | (b6 as u64) << 8 | (b7 as u64));
    assert((m >> 56 & 0xff) as u8 == b0) by (bit_vector)
        requires
            m == (b0 as u64) << 56 | (b1 as u64) << 48 | (b2 as u64) << 40 | (b3 as u64) << 32 | (b4 as u64) << 24 | (b5 as u64) << 16 | (b6 as u64) << 8 | (b7 as u64),
    ;
    assert((m >> 48 & 0xff) as u8 == b1) by (bit_vector)
        requires
            m == (b0 as u64) << 56 | (b1 as u64) << 48 | (b2 as u64) << 40 | (b3 as u64) << 32 | (b4 as u64) << 24 | (b5 as u64) << 16 | (b6 as u64) << 8 | (b7 as u64),
    ;
    assert((m >> 40 & 0xff) as u8 == b2) by (bit_vector)
        requires
            m == (b0 as u64) << 56 | (b1 as u64) << 48 | (b2 as u64) << 40 | (b3 as u64) << 32 | (b4 as u64) << 24 | (b5 as u64) << 16 | (b6 as u64) << 8 | (b7 as u64),
    ;
    assert((m >> 32 & 0xff) as u8 == b3) by (bit_vector)
        requires
            m == (b0 as u64) << 56 | (b1 as u64) << 48 | (b2 as u64) << 40 | (b3 as u64) << 32 | (b4 as u64) << 24 | (b5 as u64) << 16 | (b6 as u64) << 8 | (b7 as u64),
    ;
    assert((m >> 24 & 0xff) as u8 == b4) by (bit_vector)
        requires
            m == (b0 as u64) << 56 | (b1 as u64) << 48 | (b2 as u64) << 40 | (b3 as u64) << 32 | (b4 as u64) << 24 | (b5 as u64) << 16 | (b6 as u64) << 8 | (b7 as u64),
    ;
    assert((m >> 16 & 0xff) as u8 == b5) by (bit_vector)
        requires
            m == (b0 as u64) << 56 | (b1 as u64) << 48 | (b2 as u64) << 40 | (b3 as u64) << 32 | (b4 as u64) << 24 | (b5 as u64) << 16 | (b6 as u64) << 8 | (b7 as u64),
    ;
    assert((m >> 8 & 0xff) as u8 == b6) by (bit_vector)
        requires
            m == (b0 as u64) << 56 | (b1 as u64) << 48 | (b2 as u64) << 40 | (b3 as u64) << 32 | (b4 as u64) << 24 | (b5 as u64) << 16 | (b6 as u64) << 8 | (b7 as u64),
    ;
    assert((m & 0xff) as u8 == b7) by (bit_vector)
        requires
            m == (b0 as u64) << 56 | (b1 as u64) << 48 | (b2 as u64) << 40 | (b3 as u64) << 32 | (b4 as u64) << 24 | (b5 as u64) << 16 | (b6 as u64) << 8 | (b7 as u64),
    ;
    assert(spec_u64_be_bytes(m) =~= s);
}

pub fn u64_to_be_bytes(n: u64) -> (r: Vec<u8>)
    ensures
        r@ == spec_u64_be_bytes(n),
{
    let mut r: Vec<u8> = Vec::new();
    r.push((n >> 56 & 0xff) as u8);
    r.push((n >> 48 & 0xff) as u8);
    r.push((n >> 40 & 0xff) as u8);
    r.push((n >> 32 & 0xff) as u8);
    r.push((n >> 24 & 0xff) as u8);
    r.push((n >> 16 & 0xff) as u8);
    r.push((n >> 8 & 0xff) as u8);
    r.push((n & 0xff) as u8);
    proof {
        assert(r@ =~= spec_u64_be_bytes(n));
    }
    r
}

pub fn u64_from_be_bytes(b: &[u8]) -> (n: u64)
    requires
        b@.len() == 8,
    ensures
        n == spec_u64_from_be_bytes(b@),
{
    (b[0] as u64) << 56 | (b[1] as u64) << 48 | (b[2] as u64) << 40 | (b[3] as u64) << 32 | (
        b[4] as u64) << 24 | (b[5] as u64) << 16 | (b[6] as u64) << 8 | (b[7] as u64)
}

/// One filesystem entry encountered by a depth-first walk of a source root:
/// its type, its byte size (zero for directories), its path relative to the
/// parent of the source root, and, for regular files, its contents. Symbolic
/// links are carried with `is_symlink` set and are skipped on the wire.
#[derive(Clone, Debug)]
pub struct WalkEntry {
    pub is_symlink: bool,
    pub entry_type: FileType,
    pub size: u64,
    pub rel_path: Vec<u8>,
    pub contents: Vec<u8>,
}

/// No byte of `s` is a newline.
pub open spec fn newline_free(s: Seq<u8>) -> bool {
    forall|j: int| 0 <= j < s.len() ==> s[j] != 10u8
}

/// The terminator does not occur anywhere in `contents ++ magic` before its
/// final position, so a receiver scanning for the terminator stops exactly at
/// the end of the contents.
pub open spec fn terminator_free(contents: Seq<u8>, magic: Seq<u8>) -> bool {
    forall|j: int| 0 <= j < contents.len() ==> !occurs_at(contents + magic, magic, j)
}

/// What the wire format requires of one entry before it can be encoded and
/// decoded faithfully.
pub open spec fn valid_entry(e: WalkEntry, magic: Seq<u8>) -> bool {
    !e.is_symlink ==> {
        &&& newline_free(e.rel_path@)
        &&& (e.entry_type is File ==> terminator_free(e.contents@, magic))
        &&& (e.entry_type is Directory ==> e.contents@.len() == 0)
    }
}

pub open spec fn valid_entries(entries: Seq<WalkEntry>, magic: Seq<u8>) -> bool {
    forall|i: int| 0 <= i < entries.len() ==> valid_entry(#[trigger] entries[i], magic)
}

pub open spec fn no_symlinks(entries: Seq<WalkEntry>) -> bool {
    forall|i: int| 0 <= i < entries.len() ==> !(#[trigger] entries[i]).is_symlink
}

/// The wire form of one walk entry: 8 bytes of big-endian size, one type
/// byte, the relative path, a newline, and, for files only, the contents
/// followed by the session magic.
pub open spec fn encode_entry(e: WalkEntry, magic: Seq<u8>) -> Seq<u8> {
    spec_u64_be_bytes(e.size) + seq![file_type_byte(e.entry_type)] + e.rel_path@ + seq![10u8] + (
    if e.entry_type is File {
        e.contents@ + magic
    } else {
        Seq::<u8>::empty()
    })
}

/// The wire form of a walk: each entry in walk order, symlinks skipped.
pub open spec fn encode_entries(entries: Seq<WalkEntry>, magic: Seq<u8>) -> Seq<u8>
    decreases entries.len(),
{
    if entries.len() == 0 {
        Seq::<u8>::empty()
    } else if entries[0].is_symlink {
        encode_entries(entries.skip(1), magic)
    } else {
        encode_entry(entries[0], magic) + encode_entries(entries.skip(1), magic)
    }
}

/// The full push wire format: the newline-terminated destination path,
/// then the walked entries.
pub open spec fn encode_walk(dest: Seq<u8>, entries: Seq<WalkEntry>, magic: Seq<u8>) -> Seq<u8> {
    dest + seq![10u8] + encode_entries(entries, magic)
}

proof fn lemma_encode_entries_concat(a: Seq<WalkEntry>, b: Seq<WalkEntry>, magic: Seq<u8>)
    ensures
        encode_entries(a + b, magic) == encode_entries(a, magic) + encode_entries(b, magic),
    decreases a.len(),
{
    if a.len() == 0 {
        assert(a + b =~= b);
        assert(encode_entries(a, magic) + encode_entries(b, magic) =~= encode_entries(b, magic));
    } else {
        assert((a + b).skip(1) =~= a.skip(1) + b);
        assert((a + b).len() != 0);
        assert((a + b)[0] == a[0]);
        lemma_encode_entries_concat(a.skip(1), b, magic);
        if a[0].is_symlink {
        } else {
            assert(encode_entry(a[0], magic) + (encode_entries(a.skip(1), magic) + encode_entries(
                b,
                magic,
            )) =~= (encode_entry(a[0], magic) + encode_entries(a.skip(1), magic)) + encode_entries(
                b,
                magic,
            ));
        }
    }
}

proof fn lemma_encode_entries_snoc(entries: Seq<WalkEntry>, magic: Seq<u8>, i: int)
    requires
        0 <= i < entries.len(),
    ensures
        encode_entries(entries.take(i + 1), magic) == encode_entries(entries.take(i), magic) + (
        if entries[i].is_symlink {
            Seq::<u8>::empty()
        } else {
            encode_entry(entries[i], magic)
        }),
{
    let single = seq![entries[i]];
    assert(entries.take(i + 1) =~= entries.take(i) + single);
    lemma_encode_entries_concat(entries.take(i), single, magic);
    assert(single.skip(1) =~= Seq::<WalkEntry>::empty());
    assert(encode_entries(Seq::<WalkEntry>::empty(), magic) == Seq::<u8>::empty());
    assert(single[0] == entries[i]);
    if entries[i].is_symlink {
        assert(encode_entries(single, magic) =~= Seq::<u8>::empty());
        assert(encode_entries(entries.take(i), magic) + Seq::<u8>::empty() =~= encode_entries(
            entries.take(i),
            magic,
        ));
    } else {
        assert(encode_entries(single, magic) =~= encode_entry(entries[i], magic));
    }
}

/// Law: a symbolic link contributes nothing to the stream — inserting one
/// anywhere in the walk leaves the encoded bytes unchanged.
pub proof fn lemma_symlinks_skipped(entries: Seq<WalkEntry>, e: WalkEntry, i: int, magic: Seq<u8>)
    requires
        e.is_symlink,
        0 <= i <= entries.len(),
    ensures
        encode_entries(entries.insert(i, e), magic) == encode_entries(entries, magic),
{
    let with = entries.insert(i, e);
    assert(with =~= entries.take(i) + seq![e] + entries.skip(i));
    lemma_encode_entries_concat(entries.take(i) + seq![e], entries.skip(i), magic);
    lemma_encode_entries_concat(entries.take(i), seq![e], magic);
    lemma_encode_entries_concat(entries.take(i), entries.skip(i), magic);
    assert(seq![e].skip(1) =~= Seq::<WalkEntry>::empty());
    assert(encode_entries(Seq::<WalkEntry>::empty(), magic) == Seq::<u8>::empty());
    assert(encode_entries(seq![e], magic) =~= Seq::<u8>::empty());
    assert(entries.take(i) + entries.skip(i) =~= entries);
    assert(encode_entries(entries.take(i), magic) + Seq::<u8>::empty() =~= encode_entries(
        entries.take(i),
        magic,
    ));
}


/// Two walk entries carry the same data.
pub open spec fn entry_equiv(a: WalkEntry, b: WalkEntry) -> bool {
    &&& a.is_symlink == b.is_symlink
    &&& a.entry_type == b.entry_type
    &&& a.size == b.size
    &&& a.rel_path@ == b.rel_path@
    &&& a.contents@ == b.contents@
}

/// Two walks carry the same entries, entry for entry.
pub open spec fn entries_equiv(a: Seq<WalkEntry>, b: Seq<WalkEntry>) -> bool {
    a.len() == b.len() && forall|i: int| 0 <= i < a.len() ==> entry_equiv(#[trigger] a[i], b[i])
}

/// `s` is the wire form of some list of walked entries.
spec fn is_entry_stream(s: Seq<u8>, magic: Seq<u8>) -> bool {
    exists|es: Seq<WalkEntry>|
        valid_entries(es, magic) && no_symlinks(es) && #[trigger] encode_entries(es, magic) == s
}

/// `s` is the wire form of some destination path and list of walked entries.
pub open spec fn is_walk_stream(s: Seq<u8>, magic: Seq<u8>) -> bool {
    exists|d: Seq<u8>, es: Seq<WalkEntry>|
        newline_free(d) && valid_entries(es, magic) && no_symlinks(es) && #[trigger] encode_walk(
            d,
            es,
            magic,
        ) == s
}

proof fn lemma_encode_entries_push(es: Seq<WalkEntry>, e: WalkEntry, magic: Seq<u8>)
    requires
        !e.is_symlink,
    ensures
        encode_entries(es.push(e), magic) == encode_entries(es, magic) + encode_entry(e, magic),
{
    assert(es.push(e) =~= es + seq![e]);
    lemma_encode_entries_concat(es, seq![e], magic);
    assert(seq![e].skip(1) =~= Seq::<WalkEntry>::empty());
    assert(encode_entries(Seq::<WalkEntry>::empty(), magic) == Seq::<u8>::empty());
    assert(encode_entries(seq![e], magic) =~= encode_entry(e, magic));
}

/// Two entries whose wire forms begin the same byte stream are the same
/// entry: the wire format is unambiguous from the front.
#[verifier::rlimit(100)]
proof fn lemma_entry_prefix_unique(s: Seq<u8>, magic: Seq<u8>, e1: WalkEntry, e2: WalkEntry)
    requires
        magic.len() >= 1,
        !e1.is_symlink,
        !e2.is_symlink,
        valid_entry(e1, magic),
        valid_entry(e2, magic),
        encode_entry(e1, magic).len() <= s.len(),
        encode_entry(e2, magic).len() <= s.len(),
        s.subrange(0, encode_entry(e1, magic).len() as int) == encode_entry(e1, magic),
        s.subrange(0, encode_entry(e2, magic).len() as int) == encode_entry(e2, magic),
    ensures
        e1.entry_type == e2.entry_type,
        e1.size == e2.size,
        e1.rel_path@ == e2.rel_path@,
        e1.contents@ == e2.contents@,
        encode_entry(e1, magic) == encode_entry(e2, magic),
{
    let enc1 = encode_entry(e1, magic);
    let enc2 = encode_entry(e2, magic);
    let n1 = enc1.len() as int;
    let n2 = enc2.len() as int;
    assert forall|idx: int| 0 <= idx < n1 implies s[idx] == enc1[idx] by {
        assert(s.subrange(0, n1)[idx] == enc1[idx]);
    }
    assert forall|idx: int| 0 <= idx < n2 implies s[idx] == enc2[idx] by {
        assert(s.subrange(0, n2)[idx] == enc2[idx]);
    }
    assert(enc1[8] == file_type_byte(e1.entry_type));
    assert(enc2[8] == file_type_byte(e2.entry_type));
    assert(e1.entry_type == e2.entry_type);
    assert(spec_u64_be_bytes(e1.size) =~= spec_u64_be_bytes(e2.size)) by {
        assert forall|idx: int| 0 <= idx < 8 implies spec_u64_be_bytes(e1.size)[idx]
            == spec_u64_be_bytes(e2.size)[idx] by {
            assert(enc1[idx] == spec_u64_be_bytes(e1.size)[idx]);
            assert(enc2[idx] == spec_u64_be_bytes(e2.size)[idx]);
        }
    }
    assert(e1.size == e2.size) by {
        lemma_u64_be_round_trip(e1.size, 0, 0, 0, 0, 0, 0, 0, 0);
        lemma_u64_be_round_trip(e2.size, 0, 0, 0, 0, 0, 0, 0, 0);
    }
    let a1 = e1.rel_path@;
    let a2 = e2.rel_path@;
    assert(a1.len() == a2.len()) by {
        if a1.len() < a2.len() {
            assert(enc1[9 + a1.len() as int] == 10u8);
            assert(enc2[9 + a1.len() as int] == a2[a1.len() as int]);
            assert(a2[a1.len() as int] != 10u8);
            assert(false);
        }
        if a2.len() < a1.len() {
            assert(enc2[9 + a2.len() as int] == 10u8);
            assert(enc1[9 + a2.len() as int] == a1[a2.len() as int]);
            assert(a1[a2.len() as int] != 10u8);
            assert(false);
        }
    }
    assert(a1 =~= a2) by {
        assert forall|idx: int| 0 <= idx < a1.len() implies a1[idx] == a2[idx] by {
            assert(enc1[9 + idx] == a1[idx]);
            assert(enc2[9 + idx] == a2[idx]);
        }
    }
    let is_file = e1.entry_type is File;
    if is_file {
        let h = 10 + a1.len() as int;
        let c1 = e1.contents@;
        let c2 = e2.contents@;
        let sm = s.subrange(h, s.len() as int);
        assert(n1 == h + c1.len() + magic.len());
        assert(n2 == h + c2.len() + magic.len());
        assert forall|idx: int| 0 <= idx < c1.len() + magic.len() implies sm[idx] == enc1[h + idx]
            by {
            assert(s[h + idx] == enc1[h + idx]);
        }
        assert forall|idx: int| 0 <= idx < c2.len() + magic.len() implies sm[idx] == enc2[h + idx]
            by {
            assert(s[h + idx] == enc2[h + idx]);
        }
        assert(is_first_match(sm, magic, c1.len() as int)) by {
            assert(occurs_at(sm, magic, c1.len() as int)) by {
                assert(sm.subrange(c1.len() as int, c1.len() + magic.len() as int) =~= magic) by {
                    assert forall|idx: int| 0 <= idx < magic.len() implies sm[c1.len() + idx]
                        == magic[idx] by {
                        assert(enc1[h + c1.len() + idx] == magic[idx]);
                    }
                }
            }
            assert forall|j: int| 0 <= j < c1.len() implies !occurs_at(sm, magic, j) by {
                if occurs_at(sm, magic, j) {
                    assert(c1 + magic =~= sm.subrange(0, c1.len() + magic.len() as int)) by {
                        assert forall|idx: int| 0 <= idx < c1.len() + magic.len() implies (c1
                            + magic)[idx] == sm[idx] by {
                            if idx < c1.len() {
                                assert(enc1[h + idx] == c1[idx]);
                            } else {
                                assert(enc1[h + idx] == magic[idx - c1.len()]);
                            }
                        }
                    }
                    lemma_occurs_in_window(sm, magic, 0, c1.len() + magic.len() as int, j);
                    assert(occurs_at(c1 + magic, magic, j));
                    assert(false);
                }
            }
        }
        assert(is_first_match(sm, magic, c2.len() as int)) by {
            assert(occurs_at(sm, magic, c2.len() as int)) by {
                assert(sm.subrange(c2.len() as int, c2.len() + magic.len() as int) =~= magic) by {
                    assert forall|idx: int| 0 <= idx < magic.len() implies sm[c2.len() + idx]
                        == magic[idx] by {
                        assert(enc2[h + c2.len() + idx] == magic[idx]);
                    }
                }
            }
            assert forall|j: int| 0 <= j < c2.len() implies !occurs_at(sm, magic, j) by {
                if occurs_at(sm, magic, j) {
                    assert(c2 + magic =~= sm.subrange(0, c2.len() + magic.len() as int)) by {
                        assert forall|idx: int| 0 <= idx < c2.len() + magic.len() implies (c2
                            + magic)[idx] == sm[idx] by {
                            if idx < c2.len() {
                                assert(enc2[h + idx] == c2[idx]);
                            } else {
                                assert(enc2[h + idx] == magic[idx - c2.len()]);
                            }
                        }
                    }
                    lemma_occurs_in_window(sm, magic, 0, c2.len() + magic.len() as int, j);
                    assert(occurs_at(c2 + magic, magic, j));
                    assert(false);
                }
            }
        }
        lemma_first_match_unique(sm, magic, c1.len() as int, c2.len() as int);
        assert(c1 =~= c2) by {
            assert forall|idx: int| 0 <= idx < c1.len() implies c1[idx] == c2[idx] by {
                assert(enc1[h + idx] == c1[idx]);
                assert(enc2[h + idx] == c2[idx]);
            }
        }
    } else {
        assert(e1.contents@ =~= e2.contents@);
    }
    assert(enc1 =~= enc2);
}

/// Built on the framed connection: serializes a directory walk into the
/// stream, and symmetrically reconstructs the walked entries from a stream.
pub struct PathSync(pub Connection);

impl PathSync {
    /// Serialize a walk into the stream: the destination path followed by
    /// every non-symlink entry in walk order, in the wire form of
    /// `encode_walk`. The session magic terminates each file's contents.
    #[verifier::loop_isolation(false)]
    pub fn source_to_stream(self, dest: &[u8], entries: &Vec<WalkEntry>) -> (out: Connection)
        requires
            self.0.wf(),
        ensures
            out.writer@ == self.0.writer@ + encode_walk(dest@, entries@, self.0.magic@),
            out.reader == self.0.reader,
            out.magic@ == self.0.magic@,
            out.wf(),
    {
        let ghost w0 = self.0.writer@;
        let ghost magic_s = self.0.magic@;
        let mut conn = self.0;
        conn = conn.write_bytes(dest);
        let mut nl: Vec<u8> = Vec::new();
        nl.push(10u8);
        conn = conn.write_bytes(nl.as_slice());
        proof {
            assert(nl@ =~= seq![10u8]);
            assert(conn.writer@ =~= w0 + dest@ + seq![10u8]);
            assert(encode_entries(entries@.take(0), magic_s) =~= Seq::<u8>::empty());
            assert(conn.writer@ =~= w0 + dest@ + seq![10u8] + encode_entries(
                entries@.take(0),
                magic_s,
            ));
        }
        let n = entries.len();
        let mut i: usize = 0;
        while i < n
            invariant
                0 <= i <= n,
                conn.writer@ == w0 + dest@ + seq![10u8] + encode_entries(
                    entries@.take(i as int),
                    magic_s,
                ),
                conn.reader == self.0.reader,
                conn.magic@ == magic_s,
                conn.wf(),
            decreases n - i,
        {
            let e = &entries[i];
            if e.is_symlink {
                proof {
                    lemma_encode_entries_snoc(entries@, magic_s, i as int);
                    assert(encode_entries(entries@.take(i + 1), magic_s) =~= encode_entries(
                        entries@.take(i as int),
                        magic_s,
                    ));
                }
                i += 1;
                continue ;
            }
            let ghost w_before = conn.writer@;
            let mut header = u64_to_be_bytes(e.size);
            header.push(file_type_to_byte(e.entry_type));
            append_slice(&mut header, e.rel_path.as_slice());
            header.push(10u8);
            conn = conn.write_bytes(header.as_slice());
            let is_file = match e.entry_type {
                FileType::File => true,
                FileType::Directory => false,
            };
            if is_file {
                conn = conn.write_bytes(e.contents.as_slice());
                conn = conn.write_magic();
            }
            proof {
                assert(header@ =~= spec_u64_be_bytes(e.size) + seq![file_type_byte(e.entry_type)]
                    + e.rel_path@ + seq![10u8]);
                assert(conn.writer@ =~= w_before + encode_entry(entries@[i as int], magic_s));
                lemma_encode_entries_snoc(entries@, magic_s, i as int);
                assert(conn.writer@ =~= w0 + dest@ + seq![10u8] + encode_entries(
                    entries@.take(i + 1),
                    magic_s,
                ));
            }
            i += 1;
        }
        proof {
            assert(entries@.take(n as int) =~= entries@);
            assert(conn.writer@ =~= w0 + encode_walk(dest@, entries@, magic_s));
        }
        conn
    }
}



/// The fixed front of every entry's wire form: eight size bytes, the type
/// byte, the relative path, and its newline terminator.
pub open spec fn header_bytes(size: u64, t: FileType, path: Seq<u8>) -> Seq<u8> {
    spec_u64_be_bytes(size) + seq![file_type_byte(t)] + path + seq![10u8]
}

/// `e`'s wire form begins the byte stream `s`.
pub open spec fn entry_prefix(s: Seq<u8>, e: WalkEntry, magic: Seq<u8>) -> bool {
    &&& !e.is_symlink
    &&& valid_entry(e, magic)
    &&& encode_entry(e, magic).len() <= s.len()
    &&& s.subrange(0, encode_entry(e, magic).len() as int) == encode_entry(e, magic)
}

/// Parse the fixed front of one entry. What was consumed is exactly the
/// header handed back; and whenever the reader begins with some well-formed
/// header, parsing succeeds and recovers exactly its fields.
#[verifier::rlimit(100)]
fn read_header(reader: ChunkReader) -> (r: Result<(ChunkReader, u64, FileType, Vec<u8>), ClusterError>)
    requires
        reader.wf(),
    ensures
        r matches Ok(p) ==> ({
            let hdr = header_bytes(p.1, p.2, p.3@);
            &&& p.0.data@ == reader.data@
            &&& p.0.cap == reader.cap
            &&& p.0.wf()
            &&& newline_free(p.3@)
            &&& hdr.len() <= reader.remaining().len()
            &&& reader.remaining().subrange(0, hdr.len() as int) == hdr
            &&& p.0.pos == reader.pos + hdr.len()
        }),
        forall|size0: u64, t0: FileType, path0: Seq<u8>|
            #![trigger header_bytes(size0, t0, path0)]
            (newline_free(path0) && header_bytes(size0, t0, path0).len()
                <= reader.remaining().len() && reader.remaining().subrange(
                0,
                header_bytes(size0, t0, path0).len() as int,
            ) == header_bytes(size0, t0, path0)) ==> (r matches Ok(p) && p.1 == size0 && p.2 == t0
                && p.3@ == path0),
{
    let ghost rem0 = reader.remaining();
    proof {
        assert forall|size0: u64, t0: FileType, path0: Seq<u8>|
            #![trigger header_bytes(size0, t0, path0)]
            (newline_free(path0) && header_bytes(size0, t0, path0).len() <= rem0.len()
                && rem0.subrange(0, header_bytes(size0, t0, path0).len() as int) == header_bytes(
                size0,
                t0,
                path0,
            )) implies (forall|idx: int|
            0 <= idx < header_bytes(size0, t0, path0).len() ==> rem0[idx] == #[trigger] header_bytes(
                size0,
                t0,
                path0,
            )[idx]) by {
            let h = header_bytes(size0, t0, path0);
            assert forall|idx: int| 0 <= idx < h.len() implies rem0[idx] == h[idx] by {
                assert(rem0.subrange(0, h.len() as int)[idx] == h[idx]);
            }
        }
    }
    let mut reader = reader;
    let size_buf = match reader.read_exact(8) {
        Ok(v) => v,
        Err(_) => {
            return Err(ClusterError::Io);
        },
    };
    let size = u64_from_be_bytes(size_buf.as_slice());
    proof {
        assert(size_buf@ == rem0.subrange(0, 8));
        assert(reader.remaining() =~= rem0.subrange(8, rem0.len() as int));
    }
    let tb = match reader.read_exact(1) {
        Ok(v) => v,
        Err(_) => {
            return Err(ClusterError::Io);
        },
    };
    proof {
        assert(tb@[0] == rem0.subrange(8, rem0.len() as int)[0]);
        assert(tb@[0] == rem0[8]);
        assert(reader.remaining() =~= rem0.subrange(9, rem0.len() as int));
    }
    let ft = match file_type_from_byte(tb[0]) {
        Some(t) => t,
        None => {
            proof {
                assert forall|size0: u64, t0: FileType, path0: Seq<u8>|
                    #![trigger header_bytes(size0, t0, path0)]
                    !(newline_free(path0) && header_bytes(size0, t0, path0).len() <= rem0.len()
                        && rem0.subrange(0, header_bytes(size0, t0, path0).len() as int)
                        == header_bytes(size0, t0, path0)) by {
                    if newline_free(path0) && header_bytes(size0, t0, path0).len() <= rem0.len()
                        && rem0.subrange(0, header_bytes(size0, t0, path0).len() as int)
                        == header_bytes(size0, t0, path0) {
                        assert(rem0[8] == header_bytes(size0, t0, path0)[8]);
                        assert(header_bytes(size0, t0, path0)[8] == file_type_byte(t0));
                        assert(false);
                    }
                }
            }
            return Err(ClusterError::UnknownFlag);
        },
    };
    let ghost rem2 = reader.remaining();
    let rel_path = match reader.read_line() {
        Ok(v) => v,
        Err(_) => {
            proof {
                assert forall|size0: u64, t0: FileType, path0: Seq<u8>|
                    #![trigger header_bytes(size0, t0, path0)]
                    !(newline_free(path0) && header_bytes(size0, t0, path0).len() <= rem0.len()
                        && rem0.subrange(0, header_bytes(size0, t0, path0).len() as int)
                        == header_bytes(size0, t0, path0)) by {
                    if newline_free(path0) && header_bytes(size0, t0, path0).len() <= rem0.len()
                        && rem0.subrange(0, header_bytes(size0, t0, path0).len() as int)
                        == header_bytes(size0, t0, path0) {
                        let l0 = path0.len() as int;
                        assert(rem0[9 + l0] == header_bytes(size0, t0, path0)[9 + l0]);
                        assert(header_bytes(size0, t0, path0)[9 + l0] == 10u8);
                        assert(rem2[l0] == rem0[9 + l0]);
                        assert(false);
                    }
                }
            }
            return Err(ClusterError::Io);
        },
    };
    let ghost rp = rel_path@;
    let ghost l = rel_path@.len() as int;
    proof {
        assert(reader.remaining() =~= rem0.subrange(10 + l, rem0.len() as int));
        assert forall|idx: int| 0 <= idx < l implies rem0[9 + idx] == rp[idx] by {
            assert(rem2.subrange(0, l)[idx] == rp[idx]);
            assert(rem2[idx] == rem0[9 + idx]);
        }
        assert(rem2[l] == rem0[9 + l]);
        lemma_u64_be_round_trip(
            0,
            size_buf[0],
            size_buf[1],
            size_buf[2],
            size_buf[3],
            size_buf[4],
            size_buf[5],
            size_buf[6],
            size_buf[7],
        );
        assert(seq![
            size_buf[0],
            size_buf[1],
            size_buf[2],
            size_buf[3],
            size_buf[4],
            size_buf[5],
            size_buf[6],
            size_buf[7],
        ] =~= size_buf@);
        assert(spec_u64_be_bytes(size) == size_buf@);
        let hdr = header_bytes(size, ft, rp);
        assert(rem0.subrange(0, hdr.len() as int) =~= hdr) by {
            assert forall|idx: int| 0 <= idx < hdr.len() implies rem0[idx] == hdr[idx] by {
                if idx < 8 {
                    assert(rem0.subrange(0, 8)[idx] == rem0[idx]);
                    assert(hdr[idx] == spec_u64_be_bytes(size)[idx]);
                } else if idx == 8 {
                    assert(hdr[8] == file_type_byte(ft));
                } else if idx < 9 + l {
                    assert(hdr[idx] == rp[idx - 9]);
                } else {
                    assert(hdr[idx] == 10u8);
                }
            }
        }
        assert forall|size0: u64, t0: FileType, path0: Seq<u8>|
            #![trigger header_bytes(size0, t0, path0)]
            (newline_free(path0) && header_bytes(size0, t0, path0).len() <= rem0.len()
                && rem0.subrange(0, header_bytes(size0, t0, path0).len() as int) == header_bytes(
                size0,
                t0,
                path0,
            )) implies size == size0 && ft == t0 && rp == path0 by {
            let h0 = header_bytes(size0, t0, path0);
            let l0 = path0.len() as int;
            assert(rem0[8] == h0[8]);
            assert(file_type_byte(t0) == tb@[0]);
            assert(ft == t0);
            assert(spec_u64_be_bytes(size0) =~= size_buf@) by {
                assert forall|idx: int| 0 <= idx < 8 implies spec_u64_be_bytes(size0)[idx]
                    == size_buf@[idx] by {
                    assert(rem0[idx] == h0[idx]);
                    assert(h0[idx] == spec_u64_be_bytes(size0)[idx]);
                    assert(size_buf@[idx] == rem0.subrange(0, 8)[idx]);
                }
            }
            assert(size == size0) by {
                lemma_u64_be_round_trip(size0, 0, 0, 0, 0, 0, 0, 0, 0);
            }
            if l0 < l {
                assert(rem0[9 + l0] == h0[9 + l0]);
                assert(h0[9 + l0] == 10u8);
                assert(rem2[l0] != 10u8);
                assert(false);
            }
            if l0 > l {
                assert(rem0[9 + l] == h0[9 + l]);
                assert(h0[9 + l] == path0[l]);
                assert(path0[l] != 10u8);
                assert(rem2[l] == 10u8);
                assert(false);
            }
            assert(rp =~= path0) by {
                assert forall|idx: int| 0 <= idx < l implies rp[idx] == path0[idx] by {
                    assert(rem0[9 + idx] == h0[9 + idx]);
                    assert(h0[9 + idx] == path0[idx]);
                }
            }
        }
    }
    Ok((reader, size, ft, rel_path))
}


/// Parse one walk entry from the front of the reader: the header, then, for
/// a file, the contents up to and including the session magic. What was
/// consumed is exactly the wire form of the entry handed back; and whenever
/// the reader begins with the wire form of some valid entry, parsing
/// succeeds and recovers exactly that wire form.
#[verifier::rlimit(100)]
fn read_entry(reader: ChunkReader, magic: &Vec<u8>) -> (r: Result<(ChunkReader, WalkEntry), ClusterError>)
    requires
        reader.wf(),
        magic@.len() == crate::connection::MAGIC_LENGTH,
    ensures
        r matches Ok(p) ==> ({
            &&& p.0.data@ == reader.data@
            &&& p.0.cap == reader.cap
            &&& p.0.wf()
            &&& entry_prefix(reader.remaining(), p.1, magic@)
            &&& p.0.pos == reader.pos + encode_entry(p.1, magic@).len()
        }),
        forall|e0: WalkEntry|
            #![trigger entry_prefix(reader.remaining(), e0, magic@)]
            entry_prefix(reader.remaining(), e0, magic@) ==> (r matches Ok(p) && encode_entry(
                p.1,
                magic@,
            ) == encode_entry(e0, magic@)),
{
    let ghost rem0 = reader.remaining();
    let ghost q0 = reader.pos as int;
    proof {
        assert forall|e0: WalkEntry| entry_prefix(rem0, e0, magic@) implies (newline_free(
            e0.rel_path@,
        ) && header_bytes(e0.size, e0.entry_type, e0.rel_path@).len() <= rem0.len()
            && rem0.subrange(
            0,
            header_bytes(e0.size, e0.entry_type, e0.rel_path@).len() as int,
        ) == header_bytes(e0.size, e0.entry_type, e0.rel_path@)) by {
            let h0 = header_bytes(e0.size, e0.entry_type, e0.rel_path@);
            let enc0 = encode_entry(e0, magic@);
            assert(enc0 =~= h0 + (if e0.entry_type is File {
                e0.contents@ + magic@
            } else {
                Seq::<u8>::empty()
            }));
            assert(rem0.subrange(0, h0.len() as int) =~= h0) by {
                assert forall|idx: int| 0 <= idx < h0.len() implies rem0[idx] == h0[idx] by {
                    assert(rem0.subrange(0, enc0.len() as int)[idx] == enc0[idx]);
                }
            }
        }
    }
    let header = match read_header(reader) {
        Ok(p) => p,
        Err(e) => {
            return Err(e);
        },
    };
    let (reader_1, size, ft, rel_path) = header;
    let mut reader = reader_1;
    let ghost rp = rel_path@;
    let ghost l = rel_path@.len() as int;
    let ghost hdr = header_bytes(size, ft, rp);
    let ghost hl = hdr.len() as int;
    proof {
        assert forall|e0: WalkEntry| entry_prefix(rem0, e0, magic@) implies e0.size == size
            && e0.entry_type == ft && e0.rel_path@ == rp by {
            assert(header_bytes(e0.size, e0.entry_type, e0.rel_path@) == header_bytes(
                e0.size,
                e0.entry_type,
                e0.rel_path@,
            ));
        }
    }
    let is_file = match ft {
        FileType::File => true,
        FileType::Directory => false,
    };
    if is_file {
        let ghost rem3 = reader.remaining();
        proof {
            assert(rem3 =~= rem0.subrange(hl, rem0.len() as int));
            assert forall|idx: int| 0 <= idx < hl implies rem0[idx] == hdr[idx] by {
                assert(rem0.subrange(0, hl)[idx] == hdr[idx]);
            }
        }
        let stop = slice_to_vec(magic.as_slice());
        let sb = StreamingBuffer::new(reader, Vec::new(), stop);
        let streamed = sb.stream();
        reader = streamed.0;
        let contents = streamed.1;
        let found = streamed.2;
        let ghost cs = contents@;
        if !found {
            proof {
                assert forall|e0: WalkEntry| !entry_prefix(rem0, e0, magic@) by {
                    if entry_prefix(rem0, e0, magic@) {
                        let c0 = e0.contents@;
                        let enc0 = encode_entry(e0, magic@);
                        assert(enc0 =~= header_bytes(e0.size, e0.entry_type, e0.rel_path@) + (
                        c0 + magic@));
                        assert(occurs_at(rem3, magic@, c0.len() as int)) by {
                            assert(rem3.subrange(c0.len() as int, c0.len() + magic@.len() as int)
                                =~= magic@) by {
                                assert forall|idx: int| 0 <= idx < magic@.len() implies rem3[c0.len()
                                    + idx] == magic@[idx] by {
                                    assert(rem3[c0.len() + idx] == rem0[hl + c0.len() + idx]);
                                    assert(rem0.subrange(0, enc0.len() as int)[hl + c0.len() + idx]
                                        == enc0[hl + c0.len() + idx]);
                                }
                            }
                        }
                        assert(has_match(rem3, magic@));
                        assert(false);
                    }
                }
            }
            return Err(ClusterError::Io);
        }
        proof {
            lemma_first_match(rem3, magic@);
        }
        let ghost first = first_match(rem3, magic@);
        let e = WalkEntry { is_symlink: false, entry_type: ft, size, rel_path, contents };
        proof {
            let enc = encode_entry(e, magic@);
            let c = cs.len() as int;
            assert(cs == rem3.subrange(0, first));
            assert(occurs_at(rem3, magic@, first));
            assert(c == first);
            assert(enc =~= hdr + (cs + magic@));
            assert(enc.len() == hl + c + magic@.len());
            assert(reader.pos == q0 + hl + c + magic@.len());
            assert(rem0.subrange(0, enc.len() as int) =~= enc) by {
                assert forall|idx: int| 0 <= idx < enc.len() implies rem0[idx] == enc[idx] by {
                    if idx < hl {
                        assert(rem0.subrange(0, hl)[idx] == hdr[idx]);
                    } else if idx < hl + c {
                        assert(rem3.subrange(0, first)[idx - hl] == rem3[idx - hl]);
                        assert(rem3[idx - hl] == rem0[idx]);
                    } else {
                        assert(rem3.subrange(c, c + magic@.len() as int)[idx - hl - c] == magic@[idx
                            - hl - c]);
                        assert(rem3[idx - hl] == rem0[idx]);
                    }
                }
            }
            assert(terminator_free(cs, magic@)) by {
                assert forall|j: int| 0 <= j < cs.len() implies !occurs_at(cs + magic@, magic@, j)
                    by {
                    if occurs_at(cs + magic@, magic@, j) {
                        assert(cs + magic@ =~= rem3.subrange(0, c + magic@.len() as int)) by {
                            assert forall|idx: int| 0 <= idx < c + magic@.len() implies (cs
                                + magic@)[idx] == rem3[idx] by {
                                if idx < c {
                                } else {
                                    assert(rem3.subrange(c, c + magic@.len() as int)[idx - c]
                                        == magic@[idx - c]);
                                }
                            }
                        }
                        lemma_occurs_in_window(rem3, magic@, 0, c + magic@.len() as int, j);
                        assert(occurs_at(rem3, magic@, j));
                        assert(false);
                    }
                }
            }
            assert(valid_entry(e, magic@));
            assert(entry_prefix(rem0, e, magic@));
            assert forall|e0: WalkEntry| entry_prefix(rem0, e0, magic@) implies encode_entry(
                e,
                magic@,
            ) == encode_entry(e0, magic@) by {
                lemma_entry_prefix_unique(rem0, magic@, e, e0);
            }
        }
        Ok((reader, e))
    } else {
        let contents: Vec<u8> = Vec::new();
        let e = WalkEntry { is_symlink: false, entry_type: ft, size, rel_path, contents };
        proof {
            let enc = encode_entry(e, magic@);
            assert(enc =~= hdr);
            assert(reader.pos == q0 + enc.len());
            assert(valid_entry(e, magic@));
            assert(entry_prefix(rem0, e, magic@));
            assert forall|e0: WalkEntry| entry_prefix(rem0, e0, magic@) implies encode_entry(
                e,
                magic@,
            ) == encode_entry(e0, magic@) by {
                assert(encode_entry(e0, magic@) =~= header_bytes(
                    e0.size,
                    e0.entry_type,
                    e0.rel_path@,
                ));
            }
        }
        Ok((reader, e))
    }
}


impl PathSync {
    /// Reconstruct a walk from the stream: read the newline-terminated
    /// destination path, then entries until the source is exhausted. On
    /// success the bytes consumed are exactly the wire form of what is handed
    /// back; and whenever the source holds the wire form of some walk,
    /// reconstruction succeeds.
    #[verifier::loop_isolation(false)]
    #[verifier::rlimit(100)]
    pub fn stream_to_source(self) -> (r: Result<(Connection, Vec<u8>, Vec<WalkEntry>), ClusterError>)
        requires
            self.0.wf(),
        ensures
            r matches Ok(t) ==> {
                &&& t.0.reader.data@ == self.0.reader.data@
                &&& t.0.reader.cap == self.0.reader.cap
                &&& t.0.reader.pos == self.0.reader.data@.len()
                &&& t.0.writer@ == self.0.writer@
                &&& t.0.magic@ == self.0.magic@
                &&& t.0.wf()
                &&& newline_free(t.1@)
                &&& valid_entries(t.2@, self.0.magic@)
                &&& no_symlinks(t.2@)
                &&& self.0.reader.remaining() == encode_walk(t.1@, t.2@, self.0.magic@)
            },
            is_walk_stream(self.0.reader.remaining(), self.0.magic@) ==> r is Ok,
    {
        let ghost magic_s = self.0.magic@;
        let ghost input = self.0.reader.remaining();
        let Connection { reader: reader_0, writer, magic } = self.0;
        let mut reader = reader_0;
        let ghost data0 = reader.data@;
        let ghost pos0 = reader.pos as int;
        let ghost cap0 = reader.cap;
        let dest = match reader.read_line() {
            Ok(v) => v,
            Err(_) => {
                proof {
                    if is_walk_stream(input, magic_s) {
                        let (d, es) = choose|d: Seq<u8>, es: Seq<WalkEntry>|
                            newline_free(d) && valid_entries(es, magic_s) && no_symlinks(es)
                                && #[trigger] encode_walk(d, es, magic_s) == input;
                        assert(input[d.len() as int] == 10u8) by {
                            assert(encode_walk(d, es, magic_s)[d.len() as int] == 10u8);
                        }
                        assert(false);
                    }
                }
                return Err(ClusterError::Io);
            },
        };
        let ghost dl = dest@.len() as int;
        let ghost base = reader.pos as int;
        proof {
            assert(base == pos0 + dl + 1);
            assert(reader.remaining() =~= input.subrange(dl + 1, input.len() as int));
            if is_walk_stream(input, magic_s) {
                let (d, es) = choose|d: Seq<u8>, es: Seq<WalkEntry>|
                    newline_free(d) && valid_entries(es, magic_s) && no_symlinks(es)
                        && #[trigger] encode_walk(d, es, magic_s) == input;
                let dl0 = d.len() as int;
                if dl0 < dl {
                    assert(input[dl0] == 10u8) by {
                        assert(encode_walk(d, es, magic_s)[dl0] == 10u8);
                    }
                    assert(false);
                }
                if dl0 > dl {
                    assert(input[dl] == d[dl]) by {
                        assert(encode_walk(d, es, magic_s)[dl] == d[dl]);
                    }
                    assert(d[dl] != 10u8);
                    assert(input.subrange(0, dl)[dl] == 10u8 || input[dl] == 10u8);
                    assert(false);
                }
                assert(input.subrange(dl + 1, input.len() as int) =~= encode_entries(es, magic_s))
                    by {
                    assert forall|i: int|
                        0 <= i < input.len() - dl - 1 implies input[dl + 1 + i] == encode_entries(
                        es,
                        magic_s,
                    )[i] by {
                        assert(encode_walk(d, es, magic_s)[dl + 1 + i] == encode_entries(
                            es,
                            magic_s,
                        )[i]);
                    }
                }
                assert(is_entry_stream(reader.remaining(), magic_s));
            }
        }
        let mut entries: Vec<WalkEntry> = Vec::new();
        proof {
            assert(encode_entries(Seq::<WalkEntry>::empty(), magic_s) == Seq::<u8>::empty());
            assert(entries@ =~= Seq::<WalkEntry>::empty());
            assert(data0.subrange(base, base) =~= encode_entries(entries@, magic_s));
        }
        loop
            invariant
                reader.wf(),
                reader.data@ == data0,
                reader.cap == cap0,
                base <= reader.pos as int <= data0.len(),
                data0.subrange(base, reader.pos as int) == encode_entries(entries@, magic_s),
                valid_entries(entries@, magic_s),
                no_symlinks(entries@),
                is_walk_stream(input, magic_s) ==> is_entry_stream(reader.remaining(), magic_s),
            decreases data0.len() - reader.pos,
        {
            if reader.data.len() == reader.pos {
                break ;
            }
            let ghost rem = reader.remaining();
            let ghost entries_old = entries@;
            let ghost pos_old = reader.pos as int;
            let parsed = read_entry(reader, &magic);
            match parsed {
                Ok(p) => {
                    let (reader_2, e) = p;
                    reader = reader_2;
                    let ghost enc_e = encode_entry(e, magic_s);
                    proof {
                        assert(entry_prefix(rem, e, magic_s));
                        lemma_encode_entries_push(entries_old, e, magic_s);
                        assert(data0.subrange(pos_old, reader.pos as int) =~= enc_e) by {
                            assert(rem.subrange(0, enc_e.len() as int) == enc_e);
                            assert forall|i: int| 0 <= i < enc_e.len() implies data0[pos_old + i]
                                == enc_e[i] by {
                                assert(rem[i] == data0[pos_old + i]);
                                assert(rem.subrange(0, enc_e.len() as int)[i] == enc_e[i]);
                            }
                        }
                        assert(data0.subrange(base, reader.pos as int) =~= data0.subrange(
                            base,
                            pos_old,
                        ) + enc_e);
                    }
                    entries.push(e);
                    proof {
                        assert(entries@ == entries_old.push(e));
                        assert(data0.subrange(base, reader.pos as int) == encode_entries(
                            entries@,
                            magic_s,
                        ));
                        assert(valid_entries(entries@, magic_s)) by {
                            assert forall|i: int| 0 <= i < entries@.len() implies valid_entry(
                                entries@[i],
                                magic_s,
                            ) by {
                                if i < entries_old.len() {
                                    assert(entries@[i] == entries_old[i]);
                                    assert(valid_entry(entries_old[i], magic_s));
                                } else {
                                    assert(entries@[i] == e);
                                }
                            }
                        }
                        assert(no_symlinks(entries@)) by {
                            assert forall|i: int| 0 <= i < entries@.len() implies !entries@[i].is_symlink
                                by {
                                if i < entries_old.len() {
                                    assert(entries@[i] == entries_old[i]);
                                    assert(!entries_old[i].is_symlink);
                                } else {
                                    assert(entries@[i] == e);
                                }
                            }
                        }
                        if is_walk_stream(input, magic_s) {
                            let es = choose|es: Seq<WalkEntry>|
                                valid_entries(es, magic_s) && no_symlinks(es)
                                    && #[trigger] encode_entries(es, magic_s) == rem;
                            assert(es.len() > 0) by {
                                if es.len() == 0 {
                                    assert(encode_entries(es, magic_s) == Seq::<u8>::empty());
                                    assert(rem.len() == 0);
                                    assert(false);
                                }
                            }
                            assert(!es[0].is_symlink);
                            assert(valid_entry(es[0], magic_s));
                            let enc0 = encode_entry(es[0], magic_s);
                            let tail = encode_entries(es.skip(1), magic_s);
                            assert(encode_entries(es, magic_s) == enc0 + tail);
                            assert(entry_prefix(rem, es[0], magic_s)) by {
                                assert(rem.subrange(0, enc0.len() as int) =~= enc0);
                            }
                            assert(encode_entry(e, magic_s) == enc0);
                            assert(reader.remaining() =~= rem.subrange(
                                enc0.len() as int,
                                rem.len() as int,
                            ));
                            assert(rem.subrange(enc0.len() as int, rem.len() as int) =~= tail) by {
                                assert forall|i: int| 0 <= i < rem.len() - enc0.len() implies rem[
                                enc0.len() + i] == tail[i] by {
                                    assert((enc0 + tail)[enc0.len() + i] == tail[i]);
                                }
                            }
                            assert(valid_entries(es.skip(1), magic_s)) by {
                                assert forall|i: int| 0 <= i < es.skip(1).len() implies valid_entry(
                                    es.skip(1)[i],
                                    magic_s,
                                ) by {
                                    assert(es.skip(1)[i] == es[i + 1]);
                                    assert(valid_entry(es[i + 1], magic_s));
                                }
                            }
                            assert(no_symlinks(es.skip(1))) by {
                                assert forall|i: int| 0 <= i < es.skip(1).len() implies !es.skip(
                                    1,
                                )[i].is_symlink by {
                                    assert(es.skip(1)[i] == es[i + 1]);
                                    assert(!es[i + 1].is_symlink);
                                }
                            }
                            assert(is_entry_stream(reader.remaining(), magic_s));
                        }
                    }
                },
                Err(err) => {
                    proof {
                        if is_walk_stream(input, magic_s) {
                            let es = choose|es: Seq<WalkEntry>|
                                valid_entries(es, magic_s) && no_symlinks(es)
                                    && #[trigger] encode_entries(es, magic_s) == rem;
                            assert(es.len() > 0) by {
                                if es.len() == 0 {
                                    assert(encode_entries(es, magic_s) == Seq::<u8>::empty());
                                    assert(rem.len() == 0);
                                    assert(false);
                                }
                            }
                            assert(!es[0].is_symlink);
                            assert(valid_entry(es[0], magic_s));
                            let enc0 = encode_entry(es[0], magic_s);
                            let tail = encode_entries(es.skip(1), magic_s);
                            assert(encode_entries(es, magic_s) == enc0 + tail);
                            assert(entry_prefix(rem, es[0], magic_s)) by {
                                assert(rem.subrange(0, enc0.len() as int) =~= enc0);
                            }
                            assert(false);
                        }
                    }
                    return Err(err);
                },
            }
        }
        proof {
            assert(reader.pos == data0.len());
            assert(input =~= dest@ + seq![10u8] + encode_entries(entries@, magic_s)) by {
                let whole = dest@ + seq![10u8] + encode_entries(entries@, magic_s);
                assert(data0.subrange(base, data0.len() as int) == encode_entries(
                    entries@,
                    magic_s,
                ));
                assert(input.len() == dl + 1 + (data0.len() - base));
                assert forall|idx: int| 0 <= idx < input.len() implies input[idx] == whole[idx] by {
                    if idx < dl {
                        assert(input.subrange(0, dl)[idx] == input[idx]);
                        assert(whole[idx] == dest@[idx]);
                    } else if idx == dl {
                        assert(whole[idx] == 10u8);
                    } else {
                        assert(whole[idx] == encode_entries(entries@, magic_s)[idx - dl - 1]);
                        assert(data0.subrange(base, data0.len() as int)[idx - dl - 1] == data0[base
                            + idx - dl - 1]);
                        assert(input[idx] == data0[pos0 + idx]);
                    }
                }
            }
            assert(input == encode_walk(dest@, entries@, magic_s));
        }
        let conn_out = Connection { reader, writer, magic };
        Ok((conn_out, dest, entries))
    }
}



/// Law: what the sender's encoder emits is a walk stream, so by the
/// receiver's contract decoding it must succeed; with the unambiguity of the
/// wire format it then reconstructs exactly what was sent.
pub proof fn lemma_encoded_walk_is_stream(d: Seq<u8>, es: Seq<WalkEntry>, magic: Seq<u8>)
    requires
        newline_free(d),
        valid_entries(es, magic),
        no_symlinks(es),
    ensures
        is_walk_stream(encode_walk(d, es, magic), magic),
{
    let s = encode_walk(d, es, magic);
    assert(newline_free(d) && valid_entries(es, magic) && no_symlinks(es) && encode_walk(
        d,
        es,
        magic,
    ) == s);
}

proof fn lemma_encode_entries_injective(es1: Seq<WalkEntry>, es2: Seq<WalkEntry>, magic: Seq<u8>)
    requires
        magic.len() >= 1,
        valid_entries(es1, magic),
        no_symlinks(es1),
        valid_entries(es2, magic),
        no_symlinks(es2),
        encode_entries(es1, magic) == encode_entries(es2, magic),
    ensures
        entries_equiv(es1, es2),
    decreases es1.len(),
{
    if es1.len() == 0 && es2.len() == 0 {
        assert(entries_equiv(es1, es2));
    } else if es1.len() == 0 {
        assert(!es2[0].is_symlink);
        assert(valid_entry(es2[0], magic));
        assert(encode_entries(es2, magic) == encode_entry(es2[0], magic) + encode_entries(
            es2.skip(1),
            magic,
        ));
        assert(encode_entries(es1, magic).len() == 0);
        assert(false);
    } else if es2.len() == 0 {
        assert(!es1[0].is_symlink);
        assert(valid_entry(es1[0], magic));
        assert(encode_entries(es1, magic) == encode_entry(es1[0], magic) + encode_entries(
            es1.skip(1),
            magic,
        ));
        assert(encode_entries(es2, magic).len() == 0);
        assert(false);
    } else {
        let s = encode_entries(es1, magic);
        assert(!es1[0].is_symlink && !es2[0].is_symlink);
        assert(valid_entry(es1[0], magic) && valid_entry(es2[0], magic));
        let enc1 = encode_entry(es1[0], magic);
        let enc2 = encode_entry(es2[0], magic);
        let tail1 = encode_entries(es1.skip(1), magic);
        let tail2 = encode_entries(es2.skip(1), magic);
        assert(s == enc1 + tail1);
        assert(s == enc2 + tail2);
        assert(s.subrange(0, enc1.len() as int) =~= enc1);
        assert(s.subrange(0, enc2.len() as int) =~= enc2);
        lemma_entry_prefix_unique(s, magic, es1[0], es2[0]);
        assert(tail1 =~= tail2) by {
            assert forall|i: int| 0 <= i < tail1.len() implies tail1[i] == tail2[i] by {
                assert((enc1 + tail1)[enc1.len() + i] == tail1[i]);
                assert((enc2 + tail2)[enc2.len() + i] == tail2[i]);
            }
        }
        assert(valid_entries(es1.skip(1), magic) && no_symlinks(es1.skip(1))) by {
            assert forall|i: int|
                0 <= i < es1.skip(1).len() implies valid_entry(es1.skip(1)[i], magic) && !es1.skip(
                1,
            )[i].is_symlink by {
                assert(es1.skip(1)[i] == es1[i + 1]);
                assert(valid_entry(es1[i + 1], magic) && !es1[i + 1].is_symlink);
            }
        }
        assert(valid_entries(es2.skip(1), magic) && no_symlinks(es2.skip(1))) by {
            assert forall|i: int|
                0 <= i < es2.skip(1).len() implies valid_entry(es2.skip(1)[i], magic) && !es2.skip(
                1,
            )[i].is_symlink by {
                assert(es2.skip(1)[i] == es2[i + 1]);
                assert(valid_entry(es2[i + 1], magic) && !es2[i + 1].is_symlink);
            }
        }
        lemma_encode_entries_injective(es1.skip(1), es2.skip(1), magic);
        assert(entries_equiv(es1, es2)) by {
            assert(es1.len() == es2.len());
            assert forall|i: int| 0 <= i < es1.len() implies entry_equiv(es1[i], es2[i]) by {
                if i == 0 {
                    assert(entry_equiv(es1[0], es2[0]));
                } else {
                    assert(es1.skip(1)[i - 1] == es1[i]);
                    assert(es2.skip(1)[i - 1] == es2[i]);
                    assert(entry_equiv(es1.skip(1)[i - 1], es2.skip(1)[i - 1]));
                }
            }
        }
    }
}

/// Law: the walk wire format is unambiguous — two walks with the same wire
/// form name the same destination and carry the same entries, entry for
/// entry. Together with the contracts of `PathSync::source_to_stream` and
/// `PathSync::stream_to_source` this says that what a receiver reconstructs
/// from a sender's stream is exactly the walk that was sent, and that
/// receiving the same stream twice reconstructs the same walk both times.
pub proof fn lemma_encode_walk_injective(
    d1: Seq<u8>,
    es1: Seq<WalkEntry>,
    d2: Seq<u8>,
    es2: Seq<WalkEntry>,
    magic: Seq<u8>,
)
    requires
        magic.len() >= 1,
        newline_free(d1),
        newline_free(d2),
        valid_entries(es1, magic),
        no_symlinks(es1),
        valid_entries(es2, magic),
        no_symlinks(es2),
        encode_walk(d1, es1, magic) == encode_walk(d2, es2, magic),
    ensures
        d1 == d2,
        entries_equiv(es1, es2),
{
    let s = encode_walk(d1, es1, magic);
    let l1 = d1.len() as int;
    let l2 = d2.len() as int;
    assert(d1.len() == d2.len()) by {
        if l1 < l2 {
            assert(s[l1] == 10u8) by {
                assert(encode_walk(d1, es1, magic)[l1] == 10u8);
            }
            assert(s[l1] == d2[l1]) by {
                assert(encode_walk(d2, es2, magic)[l1] == d2[l1]);
            }
            assert(d2[l1] != 10u8);
            assert(false);
        }
        if l2 < l1 {
            assert(s[l2] == 10u8) by {
                assert(encode_walk(d2, es2, magic)[l2] == 10u8);
            }
            assert(s[l2] == d1[l2]) by {
                assert(encode_walk(d1, es1, magic)[l2] == d1[l2]);
            }
            assert(d1[l2] != 10u8);
            assert(false);
        }
    }
    assert(d1 =~= d2) by {
        assert forall|i: int| 0 <= i < l1 implies d1[i] == d2[i] by {
            assert(encode_walk(d1, es1, magic)[i] == d1[i]);
            assert(encode_walk(d2, es2, magic)[i] == d2[i]);
        }
    }
    assert(encode_entries(es1, magic) =~= encode_entries(es2, magic)) by {
        assert(encode_walk(d1, es1, magic).len() == l1 + 1 + encode_entries(es1, magic).len());
        assert(encode_walk(d2, es2, magic).len() == l1 + 1 + encode_entries(es2, magic).len());
        assert(encode_entries(es1, magic).len() == encode_entries(es2, magic).len());
        assert forall|i: int|
            0 <= i < encode_entries(es1, magic).len() implies encode_entries(es1, magic)[i]
            == encode_entries(es2, magic)[i] by {
            assert(encode_walk(d1, es1, magic)[l1 + 1 + i] == encode_entries(es1, magic)[i]);
            assert(encode_walk(d2, es2, magic)[l1 + 1 + i] == encode_entries(es2, magic)[i]);
        }
    }
    lemma_encode_entries_injective(es1, es2, magic);
}

} // verus!
