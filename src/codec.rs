//! The byte layout of an archive: for each entry its path's UTF-8 bytes, a
//! zero byte, one kind byte, the contents' length as four little-endian bytes
//! and the contents; after the last entry one more zero byte.
use vstd::bytes::*;
use vstd::prelude::*;
use vstd::slice::*;
use vstd::utf8::*;

use crate::{entries, EntryView, FileSpec, FileType, Savn};

verus! {

/// Why a byte stream is not an archive.
#[derive(Debug, Clone, Copy, PartialEq, Eq, Structural)]
pub enum DecodeError {
    /// A path that is not UTF-8, or a kind byte that is not read back.
    InvalidEncoding,
    /// The stream ends inside an entry.
    TruncatedStream,
}

/// The kind byte written for each kind.
pub open spec fn tag_of(k: FileType) -> u8 {
    match k {
        FileType::RegularFile => 1,
        FileType::ExecutableFile => 2,
        FileType::SoftSymlink => 3,
    }
}

/// The kind that a kind byte is read back as, if any.
pub open spec fn kind_of_tag(t: u8) -> Option<FileType> {
    if t == 1 {
        Some(FileType::RegularFile)
    } else if t == 3 {
        Some(FileType::SoftSymlink)
    } else {
        None
    }
}

/// The bytes of one entry.
pub open spec fn entry_bytes(e: EntryView) -> Seq<u8> {
    encode_utf8(e.path) + seq![0u8, tag_of(e.file_type)] + spec_u32_to_le_bytes(
        e.contents.len() as u32,
    ) + e.contents
}

/// The bytes of a run of entries, one after the other.
pub open spec fn entries_bytes(es: Seq<EntryView>) -> Seq<u8>
    decreases es.len(),
{
    if es.len() == 0 {
        seq![]
    } else {
        entries_bytes(es.drop_last()) + entry_bytes(es.last())
    }
}

/// The encoding of an archive: its entries, then the closing zero byte.
pub open spec fn archive_bytes(es: Seq<EntryView>) -> Seq<u8> {
    entries_bytes(es) + seq![0u8]
}

/// Whether every entry's length fits the four bytes that hold it.
pub open spec fn lengths_fit(es: Seq<EntryView>) -> bool {
    forall|i: int| 0 <= i < es.len() ==> #[trigger] es[i].contents.len() <= u32::MAX
}

/// How many non-zero bytes stand at `i` and after it before a zero or the end.
pub open spec fn path_len(b: Seq<u8>, i: int) -> nat
    decreases b.len() - i,
{
    if i < 0 || i >= b.len() || b[i] == 0 {
        0
    } else {
        1 + path_len(b, i + 1)
    }
}

/// Decoding from offset `i`: the entries up to the closing zero byte, or the
/// first error met on the way.
pub open spec fn parse_from(b: Seq<u8>, i: int) -> Result<Seq<EntryView>, DecodeError>
    decreases b.len() - i,
{
    let z = i + path_len(b, i);
    if i < 0 || z >= b.len() {
        Err(DecodeError::TruncatedStream)
    } else if z == i {
        Ok(seq![])
    } else if !valid_utf8(b.subrange(i, z)) {
        Err(DecodeError::InvalidEncoding)
    } else if z + 1 >= b.len() {
        Err(DecodeError::TruncatedStream)
    } else if kind_of_tag(b[z + 1]) is None {
        Err(DecodeError::InvalidEncoding)
    } else if z + 6 > b.len() {
        Err(DecodeError::TruncatedStream)
    } else {
        let n = spec_u32_from_le_bytes(b.subrange(z + 2, z + 6)) as int;
        if z + 6 + n > b.len() {
            Err(DecodeError::TruncatedStream)
        } else {
            let e = EntryView {
                path: decode_utf8(b.subrange(i, z)),
                file_type: kind_of_tag(b[z + 1])->0,
                contents: b.subrange(z + 6, z + 6 + n),
            };
            prepend(seq![e], parse_from(b, z + 6 + n))
        }
    }
}

/// What decoding a whole byte stream gives.
pub open spec fn parse(b: Seq<u8>) -> Result<Seq<EntryView>, DecodeError> {
    parse_from(b, 0)
}

/// `acc` put in front of the entries of a decoding result.
pub open spec fn prepend(acc: Seq<EntryView>, r: Result<Seq<EntryView>, DecodeError>) -> Result<
    Seq<EntryView>,
    DecodeError,
> {
    match r {
        Ok(es) => Ok(acc + es),
        Err(e) => Err(e),
    }
}

/// The value of a decoded archive.
pub open spec fn decoded(r: Result<Savn, DecodeError>) -> Result<Seq<EntryView>, DecodeError> {
    match r {
        Ok(s) => Ok(entries(s@)),
        Err(e) => Err(e),
    }
}

/// Relies on String::from_utf8: it fails exactly on bytes that are not
/// well-formed UTF-8, and otherwise holds those very bytes.
#[verifier::external_body]
fn string_from_utf8(bytes: Vec<u8>) -> (r: Option<String>)
    ensures
        r is Some <==> valid_utf8(bytes@),
        r is Some ==> encode_utf8(r->0@) == bytes@,
{
    String::from_utf8(bytes).ok()
}

fn push_all(out: &mut Vec<u8>, b: &[u8])
    ensures
        final(out)@ == old(out)@ + b@,
{
    let mut i: usize = 0;
    while i < b.len()
        invariant
            i <= b@.len(),
            out@ == old(out)@ + b@.subrange(0, i as int),
        decreases b@.len() - i,
    {
        out.push(b[i]);
        i += 1;
        assert(out@ =~= old(out)@ + b@.subrange(0, i as int));
    }
    assert(b@.subrange(0, i as int) =~= b@);
}

fn tag(k: FileType) -> (r: u8)
    ensures
        r == tag_of(k),
{
    match k {
        FileType::RegularFile => 1,
        FileType::ExecutableFile => 2,
        FileType::SoftSymlink => 3,
    }
}

/// Encodes an archive.
pub fn write_savn(savn: &Savn) -> (r: Vec<u8>)
    requires
        lengths_fit(entries(savn@)),
    ensures
        r@ == archive_bytes(entries(savn@)),
{
    let ghost es = entries(savn@);
    let mut out: Vec<u8> = Vec::new();
    let mut i: usize = 0;
    while i < savn.len()
        invariant
            i <= savn@.len(),
            es == entries(savn@),
            lengths_fit(es),
            out@ == entries_bytes(es.take(i as int)),
        decreases savn@.len() - i,
    {
        let spec = &savn[i];
        assert(es[i as int] == spec@);
        push_all(&mut out, spec.path.as_str().as_bytes());
        out.push(0);
        out.push(tag(spec.file_type));
        let len = u32_to_le_bytes(spec.contents.len() as u32);
        push_all(&mut out, len.as_slice());
        push_all(&mut out, spec.contents.as_slice());
        assert(es.take(i + 1).drop_last() =~= es.take(i as int));
        i += 1;
        assert(out@ =~= entries_bytes(es.take(i as int)));
    }
    assert(es.take(i as int) =~= es);
    out.push(0);
    out
}

/// Decodes an archive from the start of `bytes`; what follows the closing
/// zero byte is not read.
pub fn read_savn(bytes: &[u8]) -> (r: Result<Savn, DecodeError>)
    ensures
        decoded(r) == parse(bytes@),
{
    let ghost b = bytes@;
    let mut savn: Savn = Vec::new();
    let mut pos: usize = 0;
    loop
        invariant
            b == bytes@,
            pos <= b.len(),
            parse(b) == prepend(entries(savn@), parse_from(b, pos as int)),
        decreases b.len() - pos,
    {
        let mut z: usize = pos;
        let mut path: Vec<u8> = Vec::new();
        while z < bytes.len() && bytes[z] != 0
            invariant
                b == bytes@,
                pos <= z <= b.len(),
                path@ == b.subrange(pos as int, z as int),
                pos + path_len(b, pos as int) == z + path_len(b, z as int),
            decreases b.len() - z,
        {
            path.push(bytes[z]);
            z += 1;
            assert(path@ =~= b.subrange(pos as int, z as int));
        }
        assert(z + path_len(b, z as int) == z);
        if z >= bytes.len() {
            return Err(DecodeError::TruncatedStream);
        }
        if z == pos {
            assert(entries(savn@) + seq![] =~= entries(savn@));
            return Ok(savn);
        }
        let path = match string_from_utf8(path) {
            Some(s) => s,
            None => {
                return Err(DecodeError::InvalidEncoding);
            },
        };
        proof {
            encode_utf8_decode_utf8(path@);
        }
        if z + 1 >= bytes.len() {
            return Err(DecodeError::TruncatedStream);
        }
        let t = bytes[z + 1];
        let file_type = if t == 1 {
            FileType::RegularFile
        } else if t == 3 {
            FileType::SoftSymlink
        } else {
            return Err(DecodeError::InvalidEncoding);
        };
        if bytes.len() - (z + 2) < 4 {
            return Err(DecodeError::TruncatedStream);
        }
        let n = u32_from_le_bytes(slice_subrange(bytes, z + 2, z + 6));
        let start = z + 6;
        if bytes.len() - start < n as usize {
            return Err(DecodeError::TruncatedStream);
        }
        let end = start + n as usize;
        let contents = slice_to_vec(slice_subrange(bytes, start, end));
        let ghost e = EntryView { path: path@, file_type, contents: contents@ };
        let ghost before = entries(savn@);
        savn.push(FileSpec { path, file_type, contents });
        assert(entries(savn@) =~= before + seq![e]);
        pos = end;
        assert(prepend(before, prepend(seq![e], parse_from(b, pos as int))) == prepend(
            entries(savn@),
            parse_from(b, pos as int),
        )) by {
            match parse_from(b, pos as int) {
                Ok(rest) => {
                    assert(before + (seq![e] + rest) =~= entries(savn@) + rest);
                },
                Err(_) => {},
            }
        }
    }
}

/// Decodes an archive from what was read of its storage, `None` where there
/// was nothing to read: that is an archive with no entries.
pub fn read_savn_or_empty(stored: Option<&[u8]>) -> (r: Result<Savn, DecodeError>)
    ensures
        stored is None ==> r is Ok && r->Ok_0@.len() == 0,
        stored is Some ==> decoded(r) == parse(stored->0@),
{
    match stored {
        Some(bytes) => read_savn(bytes),
        None => Ok(Vec::new()),
    }
}

/// An entry that encoding and decoding carry over unchanged: a non-empty path
/// whose UTF-8 bytes hold no zero, a kind that is read back, and contents
/// whose length fits in four bytes.
pub open spec fn valid_entry(e: EntryView) -> bool {
    &&& e.path.len() > 0
    &&& !encode_utf8(e.path).contains(0u8)
    &&& e.file_type != FileType::ExecutableFile
    &&& e.contents.len() <= u32::MAX
}

proof fn lemma_path_len(b: Seq<u8>, i: int, z: int)
    requires
        0 <= i <= z < b.len(),
        b[z] == 0,
        forall|k: int| i <= k < z ==> b[k] != 0,
    ensures
        path_len(b, i) == z - i,
    decreases z - i,
{
    if i < z {
        lemma_path_len(b, i + 1, z);
    }
}

proof fn lemma_parse_entry(x: Seq<u8>, e: EntryView, y: Seq<u8>)
    requires
        valid_entry(e),
    ensures
        ({
            let b = x + entry_bytes(e) + y;
            parse_from(b, x.len() as int) == prepend(
                seq![e],
                parse_from(b, (x.len() + entry_bytes(e).len()) as int),
            )
        }),
{
    let p = encode_utf8(e.path);
    let l = spec_u32_to_le_bytes(e.contents.len() as u32);
    let b = x + entry_bytes(e) + y;
    let i = x.len() as int;
    let z = i + p.len();
    lemma_auto_spec_u32_to_from_le_bytes();
    encode_utf8_valid_utf8(e.path);
    encode_utf8_decode_utf8(e.path);
    assert(p.len() > 0);
    assert(b =~= x + p + seq![0u8, tag_of(e.file_type)] + l + e.contents + y);
    assert forall|k: int| i <= k < z implies b[k] != 0 by {
        assert(b[k] == p[k - i]);
    }
    lemma_path_len(b, i, z);
    assert(b.subrange(i, z) =~= p);
    assert(b.subrange(z + 2, z + 6) =~= l);
    assert(b.subrange(z + 6, z + 6 + e.contents.len()) =~= e.contents);
}

proof fn lemma_parse_entries(x: Seq<u8>, es: Seq<EntryView>, y: Seq<u8>)
    requires
        forall|k: int| 0 <= k < es.len() ==> valid_entry(#[trigger] es[k]),
    ensures
        ({
            let b = x + entries_bytes(es) + y;
            parse_from(b, x.len() as int) == prepend(
                es,
                parse_from(b, (x.len() + entries_bytes(es).len()) as int),
            )
        }),
    decreases es.len(),
{
    let b = x + entries_bytes(es) + y;
    if es.len() == 0 {
        assert(b =~= x + y);
        match parse_from(b, x.len() as int) {
            Ok(r) => {
                assert(es + r =~= r);
            },
            Err(_) => {},
        }
    } else {
        let init = es.drop_last();
        let last = es.last();
        let ei = entries_bytes(init);
        assert(valid_entry(es[es.len() - 1]));
        lemma_parse_entries(x, init, entry_bytes(last) + y);
        assert(b =~= x + ei + (entry_bytes(last) + y));
        lemma_parse_entry(x + ei, last, y);
        assert(b =~= x + ei + entry_bytes(last) + y);
        match parse_from(b, (x.len() + entries_bytes(es).len()) as int) {
            Ok(r) => {
                assert(init + (seq![last] + r) =~= es + r);
            },
            Err(_) => {},
        }
    }
}

/// Decoding what encoding gives returns the same entries, in the same order,
/// for every archive of valid entries.
pub proof fn lemma_round_trip(es: Seq<EntryView>)
    requires
        forall|k: int| 0 <= k < es.len() ==> valid_entry(#[trigger] es[k]),
    ensures
        parse(archive_bytes(es)) == Ok::<Seq<EntryView>, DecodeError>(es),
{
    let b = archive_bytes(es);
    lemma_parse_entries(seq![], es, seq![0u8]);
    assert(b =~= seq![] + entries_bytes(es) + seq![0u8]);
    let z = entries_bytes(es).len() as int;
    assert(path_len(b, z) == 0);
    assert(es + seq![] =~= es);
}

/// The archive with no entries is the single byte zero, and that byte
/// decodes to no entries.
pub proof fn lemma_empty_archive()
    ensures
        archive_bytes(seq![]) == seq![0u8],
        parse(seq![0u8]) == Ok::<Seq<EntryView>, DecodeError>(seq![]),
{
    assert(archive_bytes(seq![]) =~= seq![0u8]);
    assert(path_len(seq![0u8], 0) == 0);
}

/// After any run of valid entries, a path that is not UTF-8 makes decoding
/// fail with `InvalidEncoding`, whatever follows its zero byte.
pub proof fn lemma_invalid_path(es: Seq<EntryView>, path: Seq<u8>, rest: Seq<u8>)
    requires
        forall|k: int| 0 <= k < es.len() ==> valid_entry(#[trigger] es[k]),
        path.len() > 0,
        !path.contains(0u8),
        !valid_utf8(path),
    ensures
        parse(entries_bytes(es) + path + seq![0u8] + rest) == Err::<Seq<EntryView>, DecodeError>(
            DecodeError::InvalidEncoding,
        ),
{
    let y = path + seq![0u8] + rest;
    let b = entries_bytes(es) + path + seq![0u8] + rest;
    assert(b =~= seq![] + entries_bytes(es) + y);
    lemma_parse_entries(seq![], es, y);
    let i = entries_bytes(es).len() as int;
    let z = i + path.len();
    assert forall|k: int| i <= k < z implies b[k] != 0 by {
        assert(b[k] == path[k - i]);
    }
    lemma_path_len(b, i, z);
    assert(b.subrange(i, z) =~= path);
}

/// After any run of valid entries, an entry whose stated length is more than
/// the bytes that remain makes decoding fail with `TruncatedStream`.
pub proof fn lemma_truncated_contents(
    es: Seq<EntryView>,
    path: Seq<char>,
    kind: FileType,
    len: u32,
    contents: Seq<u8>,
)
    requires
        forall|k: int| 0 <= k < es.len() ==> valid_entry(#[trigger] es[k]),
        path.len() > 0,
        !encode_utf8(path).contains(0u8),
        kind != FileType::ExecutableFile,
        contents.len() < len,
    ensures
        parse(
            entries_bytes(es) + encode_utf8(path) + seq![0u8, tag_of(kind)] + spec_u32_to_le_bytes(
                len,
            ) + contents,
        ) == Err::<Seq<EntryView>, DecodeError>(DecodeError::TruncatedStream),
{
    let p = encode_utf8(path);
    let l = spec_u32_to_le_bytes(len);
    let y = p + seq![0u8, tag_of(kind)] + l + contents;
    let b = entries_bytes(es) + y;
    assert(b =~= entries_bytes(es) + p + seq![0u8, tag_of(kind)] + l + contents);
    assert(b =~= seq![] + entries_bytes(es) + y);
    lemma_parse_entries(seq![], es, y);
    lemma_auto_spec_u32_to_from_le_bytes();
    encode_utf8_valid_utf8(path);
    assert(p.len() > 0);
    let i = entries_bytes(es).len() as int;
    let z = i + p.len();
    assert forall|k: int| i <= k < z implies b[k] != 0 by {
        assert(b[k] == p[k - i]);
    }
    lemma_path_len(b, i, z);
    assert(b.subrange(i, z) =~= p);
    assert(b.subrange(z + 2, z + 6) =~= l);
}

} // verus!
