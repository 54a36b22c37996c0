//! The persistence codec: a deterministic byte encoding of a whole tree, and
//! the decoder that rebuilds an equal tree from exactly that encoding.
//!
//! Layout: a directory is its name, then its file count and files, then its
//! child count and children, recursively. A string is its character count
//! (eight little-endian bytes) followed by one four-byte little-endian code
//! point per character; a content is its byte count followed by its raw
//! bytes. Every count is written before what it counts, so the encoding is
//! self-delimiting.
use vstd::prelude::*;

verus! {

use vstd::bytes::lemma_auto_spec_u32_to_from_le_bytes;
use vstd::bytes::lemma_auto_spec_u64_to_from_le_bytes;
use vstd::bytes::spec_u32_to_le_bytes;
use vstd::bytes::spec_u64_to_le_bytes;
use vstd::bytes::u32_from_le_bytes;
use vstd::bytes::u32_to_le_bytes;
use vstd::bytes::u64_from_le_bytes;
use vstd::bytes::u64_to_le_bytes;
use vstd::slice::slice_subrange;
use vstd::slice::slice_to_vec;
use vstd::utf8::char_is_scalar;
use vstd::utf8::char_u32_cast;
use vstd::utf8::is_scalar;
use crate::fs::Directory;
use crate::fs::File;
use crate::fs::FileSystem;
use crate::fs::file_bounded;

/// Why a byte stream was rejected by [`FileSystem::load`].
#[derive(Debug)]
pub enum DecodingError {
    /// The stream ends before the structure it announces is complete.
    Truncated,
    /// A four-byte group does not name a Unicode scalar value.
    InvalidChar,
    /// Two entries of one directory map carry the same name.
    DuplicateName,
    /// Bytes remain after the tree is complete.
    TrailingBytes,
}

/// A length or count, as eight little-endian bytes.
pub open spec fn enc_u64(n: nat) -> Seq<u8> {
    spec_u64_to_le_bytes(n as u64)
}

/// The first `n` characters of `s`, four little-endian bytes each.
pub open spec fn enc_chars(s: Seq<char>, n: int) -> Seq<u8>
    decreases n,
{
    if n <= 0 {
        Seq::empty()
    } else {
        enc_chars(s, n - 1) + spec_u32_to_le_bytes(s[n - 1] as u32)
    }
}

/// A string: its character count, then its characters.
pub open spec fn enc_str(s: Seq<char>) -> Seq<u8> {
    enc_u64(s.len()) + enc_chars(s, s.len() as int)
}

/// A file content: its byte count, then its raw bytes.
pub open spec fn enc_content(b: Seq<u8>) -> Seq<u8> {
    enc_u64(b.len()) + b
}

/// A file: its name, then its content.
pub open spec fn enc_file(f: File) -> Seq<u8> {
    enc_str(f.name@) + enc_content(f.content@)
}

/// The first `n` files of `s`, in order.
pub open spec fn enc_files(s: Seq<File>, n: int) -> Seq<u8>
    decreases n,
{
    if n <= 0 {
        Seq::empty()
    } else {
        enc_files(s, n - 1) + enc_file(s[n - 1])
    }
}

/// A directory: its name, its counted files, its counted children.
pub open spec fn enc_dir(d: Directory) -> Seq<u8>
    decreases d, 0int,
{
    enc_str(d.name@) + enc_u64(d.files@.len()) + enc_files(d.files@, d.files@.len() as int)
        + enc_u64(d.directories@.len()) + enc_dirs(d.directories@, d.directories@.len() as int)
}

/// The first `n` directories of `s`, in order.
pub open spec fn enc_dirs(s: Seq<Directory>, n: int) -> Seq<u8>
    decreases s, n,
{
    if n <= 0 || s.len() < n {
        Seq::empty()
    } else {
        enc_dirs(s, n - 1) + enc_dir(s[n - 1])
    }
}

/// `e` stands written in `b` at offset `pos`.
pub open spec fn fits(b: Seq<u8>, pos: int, e: Seq<u8>) -> bool {
    &&& 0 <= pos
    &&& pos + e.len() <= b.len()
    &&& b.subrange(pos, pos + e.len()) == e
}

proof fn lemma_fits_concat(b: Seq<u8>, pos: int, x: Seq<u8>, y: Seq<u8>)
    requires
        fits(b, pos, x + y),
    ensures
        fits(b, pos, x),
        fits(b, pos + x.len(), y),
{
    let xy = x + y;
    assert(forall|u: int| 0 <= u < xy.len() ==> b[pos + u] == xy[u]) by {
        assert(forall|u: int|
            0 <= u < xy.len() ==> b.subrange(pos, pos + xy.len())[u] == #[trigger] xy[u]);
    }
    assert(b.subrange(pos, pos + x.len()) =~= x) by {
        assert(forall|u: int| 0 <= u < x.len() ==> xy[u] == #[trigger] x[u]);
    }
    assert(b.subrange(pos + x.len(), pos + x.len() + y.len()) =~= y) by {
        assert(forall|t: int| 0 <= t < y.len() ==> xy[x.len() + t] == #[trigger] y[t]);
    }
}

proof fn lemma_enc_chars_len(s: Seq<char>, n: int)
    requires
        n >= 0,
    ensures
        enc_chars(s, n).len() == 4 * n,
    decreases n,
{
    lemma_auto_spec_u32_to_from_le_bytes();
    if n > 0 {
        lemma_enc_chars_len(s, n - 1);
    }
}

proof fn lemma_enc_chars_index(s: Seq<char>, n: int, i: int)
    requires
        0 <= i < n,
    ensures
        enc_chars(s, n).subrange(4 * i, 4 * i + 4) == spec_u32_to_le_bytes(s[i] as u32),
    decreases n,
{
    lemma_auto_spec_u32_to_from_le_bytes();
    lemma_enc_chars_len(s, n);
    if i == n - 1 {
        lemma_enc_chars_len(s, n - 1);
        assert(enc_chars(s, n).subrange(4 * i, 4 * i + 4) =~= spec_u32_to_le_bytes(s[i] as u32));
    } else {
        lemma_enc_chars_index(s, n - 1, i);
        lemma_enc_chars_len(s, n - 1);
        assert(enc_chars(s, n).subrange(4 * i, 4 * i + 4) =~= enc_chars(s, n - 1).subrange(
            4 * i,
            4 * i + 4,
        ));
    }
}

proof fn lemma_enc_str_len(s: Seq<char>)
    ensures
        enc_str(s).len() == 8 + 4 * s.len(),
        enc_str(s).subrange(0, 8) == enc_u64(s.len()),
{
    lemma_auto_spec_u64_to_from_le_bytes();
    lemma_enc_chars_len(s, s.len() as int);
    assert(enc_str(s).subrange(0, 8) =~= enc_u64(s.len()));
}

proof fn lemma_fits_inner(b: Seq<u8>, pos: int, e: Seq<u8>, a: int, c: int)
    requires
        fits(b, pos, e),
        0 <= a <= c <= e.len(),
    ensures
        b.subrange(pos + a, pos + c) == e.subrange(a, c),
{
    assert(forall|u: int| 0 <= u < e.len() ==> b[pos + u] == #[trigger] e[u]) by {
        assert(forall|u: int|
            0 <= u < e.len() ==> b.subrange(pos, pos + e.len())[u] == #[trigger] e[u]);
    }
    assert(b.subrange(pos + a, pos + c) =~= e.subrange(a, c));
}

proof fn lemma_enc_chars_congruence(s1: Seq<char>, s2: Seq<char>, n: int)
    requires
        forall|t: int| 0 <= t < n ==> s1[t] == s2[t],
    ensures
        enc_chars(s1, n) == enc_chars(s2, n),
    decreases n,
{
    if n > 0 {
        lemma_enc_chars_congruence(s1, s2, n - 1);
    }
}

/// Relies on char::from_u32 of std: it returns a character exactly for the
/// Unicode scalar values (below the surrogate range, or above it and at most
/// the maximum code point), and that character casts back to the same value.
#[verifier::external_body]
fn char_from_u32(u: u32) -> (r: Option<char>)
    ensures
        match r {
            Some(c) => is_scalar(u) && c as u32 == u,
            None => !is_scalar(u),
        },
{
    char::from_u32(u)
}

/// Relies on String::push of std: it appends exactly the one character.
#[verifier::external_body]
fn string_push_char(s: &mut String, c: char)
    ensures
        final(s)@ == old(s)@.push(c),
{
    s.push(c);
}

fn push_u64(out: &mut Vec<u8>, n: u64)
    ensures
        final(out)@ == old(out)@ + enc_u64(n as nat),
{
    proof {
        lemma_auto_spec_u64_to_from_le_bytes();
    }
    let mut b = u64_to_le_bytes(n);
    out.append(&mut b);
}

fn push_str(out: &mut Vec<u8>, s: &String)
    requires
        s@.len() <= usize::MAX,
    ensures
        final(out)@ == old(out)@ + enc_str(s@),
{
    let len = s.as_str().unicode_len();
    push_u64(out, len as u64);
    let ghost base = out@;
    let mut i: usize = 0;
    while i < len
        invariant
            i <= len,
            len == s@.len(),
            out@ == base + enc_chars(s@, i as int),
        decreases len - i,
    {
        let c = s.as_str().get_char(i);
        let mut b = u32_to_le_bytes(c as u32);
        out.append(&mut b);
        i += 1;
    }
    assert(out@ =~= old(out)@ + enc_str(s@));
}

fn push_content(out: &mut Vec<u8>, content: &Vec<u8>)
    requires
        content@.len() <= usize::MAX,
    ensures
        final(out)@ == old(out)@ + enc_content(content@),
{
    push_u64(out, content.len() as u64);
    let ghost base = out@;
    let mut i: usize = 0;
    while i < content.len()
        invariant
            i <= content@.len(),
            out@ == base + content@.take(i as int),
        decreases content@.len() - i,
    {
        out.push(content[i]);
        assert(out@ =~= base + content@.take(i + 1));
        i += 1;
    }
    assert(out@ =~= old(out)@ + enc_content(content@));
}

fn encode_dir(d: &Directory, out: &mut Vec<u8>)
    requires
        d.wf(),
    ensures
        final(out)@ == old(out)@ + enc_dir(*d),
    decreases *d,
{
    push_str(out, &d.name);
    push_u64(out, d.files.len() as u64);
    let ghost base_f = out@;
    let nf = d.files.len();
    let mut i: usize = 0;
    while i < nf
        invariant
            d.wf(),
            i <= nf,
            nf == d.files@.len(),
            out@ == base_f + enc_files(d.files@, i as int),
        decreases nf - i,
    {
        assert(file_bounded(d.files@[i as int]));
        push_str(out, &d.files[i].name);
        push_content(out, &d.files[i].content);
        assert(out@ =~= base_f + enc_files(d.files@, i + 1));
        i += 1;
    }
    push_u64(out, d.directories.len() as u64);
    let ghost base_d = out@;
    let nd = d.directories.len();
    let mut j: usize = 0;
    while j < nd
        invariant
            d.wf(),
            j <= nd,
            nd == d.directories@.len(),
            out@ == base_d + enc_dirs(d.directories@, j as int),
        decreases nd - j,
    {
        assert(d.directories@[j as int].wf());
        encode_dir(&d.directories[j], out);
        assert(out@ =~= base_d + enc_dirs(d.directories@, j + 1));
        j += 1;
    }
    assert(out@ =~= old(out)@ + enc_dir(*d));
}

/// Reads an eight-byte count. Fails only when fewer than eight bytes remain.
fn read_u64(bytes: &Vec<u8>, pos: usize) -> (r: Option<(u64, usize)>)
    requires
        pos <= bytes@.len(),
    ensures
        match r {
            Some((v, end)) => {
                &&& end == pos + 8 <= bytes@.len()
                &&& bytes@.subrange(pos as int, end as int) == enc_u64(v as nat)
            },
            None => bytes@.len() - pos < 8,
        },
{
    proof {
        lemma_auto_spec_u64_to_from_le_bytes();
    }
    if bytes.len() - pos < 8 {
        return None;
    }
    let s = slice_subrange(bytes.as_slice(), pos, pos + 8);
    let v = u64_from_le_bytes(s);
    assert(enc_u64(v as nat) == s@);
    Some((v, pos + 8))
}

/// Decodes a string: its character count, then that many code points.
fn decode_string(bytes: &Vec<u8>, pos: usize) -> (r: Result<(String, usize), DecodingError>)
    requires
        pos <= bytes@.len(),
    ensures
        match r {
            Ok((s, end)) => {
                &&& pos <= end <= bytes@.len()
                &&& s@.len() <= usize::MAX
                &&& end == pos + enc_str(s@).len()
                &&& bytes@.subrange(pos as int, end as int) == enc_str(s@)
            },
            Err(_) => true,
        },
        forall|s: Seq<char>|
            s.len() <= usize::MAX && fits(bytes@, pos as int, #[trigger] enc_str(s)) ==> (match r {
                Ok((t, end)) => t@ == s && end == pos + enc_str(s).len(),
                Err(_) => false,
            }),
{
    proof {
        lemma_auto_spec_u64_to_from_le_bytes();
        lemma_auto_spec_u32_to_from_le_bytes();
    }
    let b = read_u64(bytes, pos);
    if b.is_none() {
        proof {
            assert forall|s: Seq<char>|
                s.len() <= usize::MAX && fits(bytes@, pos as int, #[trigger] enc_str(s))
                implies false by {
                lemma_enc_str_len(s);
            }
        }
        return Err(DecodingError::Truncated);
    }
    let (n64, cpos) = b.unwrap();
    let rem = bytes.len() - cpos;
    if n64 > (rem as u64) / 4 {
        proof {
            assert forall|s: Seq<char>|
                s.len() <= usize::MAX && fits(bytes@, pos as int, #[trigger] enc_str(s))
                implies false by {
                lemma_enc_str_len(s);
                lemma_fits_inner(bytes@, pos as int, enc_str(s), 0, 8);
                assert(enc_u64(s.len()) == enc_u64(n64 as nat));
                assert(s.len() as u64 == n64);
                assert(4 * s.len() <= rem);
            }
        }
        return Err(DecodingError::Truncated);
    }
    let n = n64 as usize;
    assert(4 * n <= rem) by {
        assert(rem as u64 == 4 * ((rem as u64) / 4) + (rem as u64) % 4);
    }
    let ghost lenb = bytes@.subrange(pos as int, cpos as int);
    let mut st = String::new();
    let mut i: usize = 0;
    while i < n
        invariant
            pos + 8 == cpos,
            cpos + 4 * n <= bytes@.len(),
            bytes@.len() <= usize::MAX,
            i <= n,
            n == n64 as nat,
            lenb == bytes@.subrange(pos as int, cpos as int),
            lenb == enc_u64(n as nat),
            st@.len() == i,
            enc_chars(st@, i as int) == bytes@.subrange(cpos as int, cpos + 4 * i),
        decreases n - i,
    {
        proof {
            lemma_auto_spec_u32_to_from_le_bytes();
        }
        let off = cpos + 4 * i;
        let cs = slice_subrange(bytes.as_slice(), off, off + 4);
        let u = u32_from_le_bytes(cs);
        assert(cs@ == spec_u32_to_le_bytes(u));
        match char_from_u32(u) {
            None => {
                proof {
                    assert forall|s: Seq<char>|
                        s.len() <= usize::MAX && fits(bytes@, pos as int, #[trigger] enc_str(s))
                        implies false by {
                        lemma_auto_spec_u64_to_from_le_bytes();
                        lemma_enc_str_len(s);
                        lemma_fits_inner(bytes@, pos as int, enc_str(s), 0, 8);
                        assert(s.len() as u64 == n64);
                        lemma_enc_chars_index(s, s.len() as int, i as int);
                        lemma_enc_chars_len(s, s.len() as int);
                        lemma_fits_inner(
                            bytes@,
                            pos as int,
                            enc_str(s),
                            8 + 4 * i,
                            8 + 4 * i + 4,
                        );
                        assert(enc_str(s).subrange(8 + 4 * i, 8 + 4 * i + 4) =~= enc_chars(
                            s,
                            s.len() as int,
                        ).subrange(4 * i, 4 * i + 4));
                        assert(cs@ == spec_u32_to_le_bytes(s[i as int] as u32));
                        assert(u == s[i as int] as u32);
                        char_is_scalar(s[i as int]);
                    }
                }
                return Err(DecodingError::InvalidChar);
            },
            Some(c) => {
                let ghost st_old = st@;
                string_push_char(&mut st, c);
                proof {
                    lemma_enc_chars_congruence(st_old, st@, i as int);
                    assert(enc_chars(st@, i + 1) =~= bytes@.subrange(cpos as int, cpos + 4 * (i + 1)))
                        by {
                        assert(enc_chars(st@, i + 1) == enc_chars(st@, i as int) + spec_u32_to_le_bytes(
                            st@[i as int] as u32,
                        ));
                        assert(st@[i as int] as u32 == u);
                        assert(forall|t: int|
                            0 <= t < 4 * i ==> #[trigger] bytes@.subrange(
                                cpos as int,
                                cpos + 4 * i,
                            )[t] == bytes@[cpos + t]);
                        assert(forall|t: int|
                            0 <= t < 4 ==> #[trigger] cs@[t] == bytes@.subrange(
                                off as int,
                                off + 4,
                            )[t]);
                    }
                }
                i += 1;
            },
        }
    }
    let end = cpos + 4 * n;
    proof {
        lemma_enc_str_len(st@);
        assert(bytes@.subrange(pos as int, end as int) =~= enc_str(st@)) by {
            assert(enc_str(st@) == enc_u64(n as nat) + enc_chars(st@, n as int));
            assert(forall|t: int|
                0 <= t < 8 ==> lenb[t] == bytes@.subrange(pos as int, end as int)[t]);
            assert(forall|t: int|
                0 <= t < 4 * n ==> #[trigger] bytes@.subrange(cpos as int, cpos + 4 * n)[t]
                    == bytes@.subrange(pos as int, end as int)[8 + t]);
        }
        assert forall|s: Seq<char>|
            s.len() <= usize::MAX && fits(bytes@, pos as int, #[trigger] enc_str(s)) implies (s
            == st@ && pos + enc_str(s).len() == end) by {
            lemma_enc_str_len(s);
            lemma_fits_inner(bytes@, pos as int, enc_str(s), 0, 8);
            assert(s.len() as u64 == n64);
            assert(s.len() == n);
            assert forall|t: int| 0 <= t < n implies s[t] == st@[t] by {
                lemma_enc_chars_index(s, n as int, t);
                lemma_enc_chars_index(st@, n as int, t);
                lemma_enc_chars_len(s, n as int);
                lemma_fits_inner(bytes@, pos as int, enc_str(s), 8 + 4 * t, 8 + 4 * t + 4);
                assert(enc_str(s).subrange(8 + 4 * t, 8 + 4 * t + 4) =~= enc_chars(
                    s,
                    n as int,
                ).subrange(4 * t, 4 * t + 4));
                assert(fits(bytes@, cpos as int, enc_chars(st@, n as int))) by {
                    lemma_enc_chars_len(st@, n as int);
                }
                assert(enc_chars(st@, n as int).len() == 4 * n);
                assert(enc_chars(st@, n as int).subrange(4 * t, 4 * t + 4) == spec_u32_to_le_bytes(
                    st@[t] as u32,
                ));
                lemma_fits_inner(bytes@, cpos as int, enc_chars(st@, n as int), 4 * t, 4 * t + 4);
                assert(bytes@.subrange(pos + 8 + 4 * t, pos + 8 + 4 * t + 4) == spec_u32_to_le_bytes(
                    s[t] as u32,
                ));
                assert(cpos + 4 * t == pos + 8 + 4 * t);
                assert(bytes@.subrange(cpos + 4 * t, cpos + 4 * t + 4) == spec_u32_to_le_bytes(
                    st@[t] as u32,
                ));
                assert(spec_u32_to_le_bytes(s[t] as u32) == spec_u32_to_le_bytes(st@[t] as u32));
                assert(s[t] as u32 == st@[t] as u32);
                char_u32_cast(s[t], s[t] as u32);
                char_u32_cast(st@[t], st@[t] as u32);
            }
            assert(s =~= st@);
        }
    }
    Ok((st, end))
}

proof fn lemma_enc_files_prefix(s: Seq<File>, i: int, n: int)
    requires
        0 <= i <= n,
    ensures
        enc_files(s, i).len() <= enc_files(s, n).len(),
        enc_files(s, n).subrange(0, enc_files(s, i).len() as int) == enc_files(s, i),
    decreases n,
{
    if i < n {
        lemma_enc_files_prefix(s, i, n - 1);
        assert(enc_files(s, n).subrange(0, enc_files(s, i).len() as int) =~= enc_files(
            s,
            n - 1,
        ).subrange(0, enc_files(s, i).len() as int));
    } else {
        assert(enc_files(s, n).subrange(0, enc_files(s, n).len() as int) =~= enc_files(s, n));
    }
}

proof fn lemma_enc_files_min(s: Seq<File>, n: int)
    requires
        n >= 0,
    ensures
        enc_files(s, n).len() >= 16 * n,
    decreases n,
{
    lemma_auto_spec_u64_to_from_le_bytes();
    if n > 0 {
        lemma_enc_files_min(s, n - 1);
        lemma_enc_str_len(s[n - 1].name@);
    }
}

proof fn lemma_enc_dirs_prefix(s: Seq<Directory>, i: int, n: int)
    requires
        0 <= i <= n <= s.len(),
    ensures
        enc_dirs(s, i).len() <= enc_dirs(s, n).len(),
        enc_dirs(s, n).subrange(0, enc_dirs(s, i).len() as int) == enc_dirs(s, i),
    decreases n,
{
    if i < n {
        lemma_enc_dirs_prefix(s, i, n - 1);
        assert(enc_dirs(s, n).subrange(0, enc_dirs(s, i).len() as int) =~= enc_dirs(
            s,
            n - 1,
        ).subrange(0, enc_dirs(s, i).len() as int));
    } else {
        assert(enc_dirs(s, n).subrange(0, enc_dirs(s, n).len() as int) =~= enc_dirs(s, n));
    }
}

proof fn lemma_enc_dir_min(d: Directory)
    ensures
        enc_dir(d).len() >= 24,
{
    lemma_auto_spec_u64_to_from_le_bytes();
    lemma_enc_str_len(d.name@);
}

proof fn lemma_enc_dirs_min(s: Seq<Directory>, n: int)
    requires
        0 <= n <= s.len(),
    ensures
        enc_dirs(s, n).len() >= 24 * n,
    decreases n,
{
    if n > 0 {
        lemma_enc_dirs_min(s, n - 1);
        lemma_enc_dir_min(s[n - 1]);
    }
}

/// Decodes a file: its name, then its counted content bytes.
fn decode_file(bytes: &Vec<u8>, pos: usize) -> (r: Result<(File, usize), DecodingError>)
    requires
        pos <= bytes@.len(),
    ensures
        match r {
            Ok((f, end)) => {
                &&& pos <= end <= bytes@.len()
                &&& file_bounded(f)
                &&& end == pos + enc_file(f).len()
                &&& bytes@.subrange(pos as int, end as int) == enc_file(f)
            },
            Err(_) => true,
        },
        forall|f: File|
            file_bounded(f) && fits(bytes@, pos as int, #[trigger] enc_file(f)) ==> (match r {
                Ok((g, end)) => {
                    &&& g.name@ == f.name@
                    &&& g.content@ == f.content@
                    &&& end == pos + enc_file(f).len()
                },
                Err(_) => false,
            }),
{
    proof {
        lemma_auto_spec_u64_to_from_le_bytes();
    }
    let nm = decode_string(bytes, pos);
    if let Err(e) = nm {
        proof {
            assert forall|f: File|
                file_bounded(f) && fits(bytes@, pos as int, #[trigger] enc_file(f))
                implies false by {
                lemma_fits_concat(bytes@, pos as int, enc_str(f.name@), enc_content(f.content@));
            }
        }
        return Err(e);
    }
    let (name, p1) = nm.unwrap();
    let b = read_u64(bytes, p1);
    if b.is_none() {
        proof {
            assert forall|f: File|
                file_bounded(f) && fits(bytes@, pos as int, #[trigger] enc_file(f))
                implies false by {
                lemma_fits_concat(bytes@, pos as int, enc_str(f.name@), enc_content(f.content@));
                lemma_fits_concat(
                    bytes@,
                    pos + enc_str(f.name@).len(),
                    enc_u64(f.content@.len()),
                    f.content@,
                );
            }
        }
        return Err(DecodingError::Truncated);
    }
    let (clen, p2) = b.unwrap();
    let rem = bytes.len() - p2;
    if clen > rem as u64 {
        proof {
            assert forall|f: File|
                file_bounded(f) && fits(bytes@, pos as int, #[trigger] enc_file(f))
                implies false by {
                lemma_fits_concat(bytes@, pos as int, enc_str(f.name@), enc_content(f.content@));
                lemma_fits_concat(
                    bytes@,
                    pos + enc_str(f.name@).len(),
                    enc_u64(f.content@.len()),
                    f.content@,
                );
                assert(f.content@.len() as u64 == clen);
            }
        }
        return Err(DecodingError::Truncated);
    }
    let cl = clen as usize;
    let cs = slice_subrange(bytes.as_slice(), p2, p2 + cl);
    let content = slice_to_vec(cs);
    let end = p2 + cl;
    let f = File { name, content };
    proof {
        assert(bytes@.subrange(pos as int, end as int) =~= enc_file(f)) by {
            assert(forall|t: int|
                0 <= t < p1 - pos ==> #[trigger] enc_str(f.name@)[t] == bytes@.subrange(
                    pos as int,
                    p1 as int,
                )[t]);
            assert(forall|t: int|
                0 <= t < 8 ==> #[trigger] enc_u64(cl as nat)[t] == bytes@.subrange(
                    p1 as int,
                    p2 as int,
                )[t]);
            assert(forall|t: int|
                0 <= t < cl ==> #[trigger] f.content@[t] == bytes@[p2 + t]);
        }
        assert forall|f2: File|
            file_bounded(f2) && fits(bytes@, pos as int, #[trigger] enc_file(f2)) implies ({
            &&& f.name@ == f2.name@
            &&& f.content@ == f2.content@
            &&& end == pos + enc_file(f2).len()
        }) by {
            lemma_fits_concat(bytes@, pos as int, enc_str(f2.name@), enc_content(f2.content@));
            assert(f2.name@ == name@ && pos + enc_str(f2.name@).len() == p1);
            lemma_fits_concat(bytes@, p1 as int, enc_u64(f2.content@.len()), f2.content@);
            assert(f2.content@.len() as u64 == clen);
            assert(f.content@ =~= f2.content@) by {
                assert(forall|t: int|
                    0 <= t < cl ==> #[trigger] f2.content@[t] == bytes@.subrange(
                        p2 as int,
                        p2 + cl,
                    )[t]);
            }
        }
    }
    Ok((f, end))
}

proof fn lemma_enc_files_congruence_values(s1: Seq<File>, s2: Seq<File>, n: int)
    requires
        forall|t: int| 0 <= t < n ==> s1[t] == s2[t],
    ensures
        enc_files(s1, n) == enc_files(s2, n),
    decreases n,
{
    if n > 0 {
        lemma_enc_files_congruence_values(s1, s2, n - 1);
    }
}

proof fn lemma_enc_dirs_congruence_values(s1: Seq<Directory>, s2: Seq<Directory>, n: int)
    requires
        n <= s1.len(),
        n <= s2.len(),
        forall|t: int| 0 <= t < n ==> s1[t] == s2[t],
    ensures
        enc_dirs(s1, n) == enc_dirs(s2, n),
    decreases n,
{
    if n > 0 {
        lemma_enc_dirs_congruence_values(s1, s2, n - 1);
        assert(enc_dirs(s1, n) == enc_dirs(s1, n - 1) + enc_dir(s1[n - 1]));
        assert(enc_dirs(s2, n) == enc_dirs(s2, n - 1) + enc_dir(s2[n - 1]));
    }
}

proof fn lemma_enc_str_same_start(b: Seq<u8>, pos: int, s1: Seq<char>, s2: Seq<char>)
    requires
        fits(b, pos, enc_str(s1)),
        fits(b, pos, enc_str(s2)),
        s1.len() <= usize::MAX,
        s2.len() <= usize::MAX,
    ensures
        s1 == s2,
{
    lemma_auto_spec_u64_to_from_le_bytes();
    lemma_auto_spec_u32_to_from_le_bytes();
    lemma_enc_str_len(s1);
    lemma_enc_str_len(s2);
    lemma_fits_inner(b, pos, enc_str(s1), 0, 8);
    lemma_fits_inner(b, pos, enc_str(s2), 0, 8);
    assert(enc_u64(s1.len()) == enc_u64(s2.len()));
    assert(s1.len() as u64 == s2.len() as u64);
    assert(s1.len() == s2.len());
    let n = s1.len() as int;
    assert forall|t: int| 0 <= t < n implies s1[t] == s2[t] by {
        lemma_enc_chars_index(s1, n, t);
        lemma_enc_chars_index(s2, n, t);
        lemma_enc_chars_len(s1, n);
        lemma_enc_chars_len(s2, n);
        lemma_fits_inner(b, pos, enc_str(s1), 8 + 4 * t, 8 + 4 * t + 4);
        lemma_fits_inner(b, pos, enc_str(s2), 8 + 4 * t, 8 + 4 * t + 4);
        assert(enc_str(s1).subrange(8 + 4 * t, 8 + 4 * t + 4) =~= enc_chars(s1, n).subrange(
            4 * t,
            4 * t + 4,
        ));
        assert(enc_str(s2).subrange(8 + 4 * t, 8 + 4 * t + 4) =~= enc_chars(s2, n).subrange(
            4 * t,
            4 * t + 4,
        ));
        assert(spec_u32_to_le_bytes(s1[t] as u32) == spec_u32_to_le_bytes(s2[t] as u32));
        assert(s1[t] as u32 == s2[t] as u32);
        char_u32_cast(s1[t], s1[t] as u32);
        char_u32_cast(s2[t], s2[t] as u32);
    }
    assert(s1 =~= s2);
}

proof fn lemma_enc_dir_split(d: Directory)
    ensures
        enc_dir(d) == enc_str(d.name@) + (enc_u64(d.files@.len()) + (enc_files(
            d.files@,
            d.files@.len() as int,
        ) + (enc_u64(d.directories@.len()) + enc_dirs(
            d.directories@,
            d.directories@.len() as int,
        )))),
{
    assert(enc_dir(d) =~= enc_str(d.name@) + (enc_u64(d.files@.len()) + (enc_files(
        d.files@,
        d.files@.len() as int,
    ) + (enc_u64(d.directories@.len()) + enc_dirs(
        d.directories@,
        d.directories@.len() as int,
    )))));
}

/// Whether two files of the vector share a name.
fn find_dup_file_name(files: &Vec<File>) -> (r: bool)
    ensures
        r <==> exists|p: int, q: int|
            0 <= p < q < files@.len() && (#[trigger] files@[p].name@) == (
            #[trigger] files@[q].name@),
{
    let n = files.len();
    let mut p: usize = 0;
    while p < n
        invariant
            p <= n,
            n == files@.len(),
            forall|a: int, b: int|
                0 <= a < b < files@.len() && a < p ==> (#[trigger] files@[a].name@) != (
                #[trigger] files@[b].name@),
        decreases n - p,
    {
        let mut q = p + 1;
        while q < n
            invariant
                p < n,
                p < q <= n,
                n == files@.len(),
                forall|b: int|
                    p < b < q ==> files@[p as int].name@ != (#[trigger] files@[b].name@),
            decreases n - q,
        {
            if files[p].name == files[q].name {
                assert(0 <= p < q < files@.len() && files@[p as int].name@ == files@[q as int].name@);
                return true;
            }
            q += 1;
        }
        p += 1;
    }
    false
}

/// Whether two child directories of the vector share a name.
fn find_dup_dir_name(dirs: &Vec<Directory>) -> (r: bool)
    ensures
        r <==> exists|p: int, q: int|
            0 <= p < q < dirs@.len() && (#[trigger] dirs@[p].name@) == (#[trigger] dirs@[q].name@),
{
    let n = dirs.len();
    let mut p: usize = 0;
    while p < n
        invariant
            p <= n,
            n == dirs@.len(),
            forall|a: int, b: int|
                0 <= a < b < dirs@.len() && a < p ==> (#[trigger] dirs@[a].name@) != (
                #[trigger] dirs@[b].name@),
        decreases n - p,
    {
        let mut q = p + 1;
        while q < n
            invariant
                p < n,
                p < q <= n,
                n == dirs@.len(),
                forall|b: int| p < b < q ==> dirs@[p as int].name@ != (#[trigger] dirs@[b].name@),
            decreases n - q,
        {
            if dirs[p].name == dirs[q].name {
                assert(0 <= p < q < dirs@.len() && dirs@[p as int].name@ == dirs@[q as int].name@);
                return true;
            }
            q += 1;
        }
        p += 1;
    }
    false
}

/// Decodes a directory: its name, its counted files, then its counted
/// children, recursively.
fn decode_dir(bytes: &Vec<u8>, pos: usize) -> (r: Result<(Directory, usize), DecodingError>)
    requires
        pos <= bytes@.len(),
    ensures
        match r {
            Ok((d, end)) => {
                &&& pos <= end <= bytes@.len()
                &&& d.wf()
                &&& end == pos + enc_dir(d).len()
                &&& bytes@.subrange(pos as int, end as int) == enc_dir(d)
            },
            Err(_) => true,
        },
        forall|d: Directory|
            d.wf() && fits(bytes@, pos as int, #[trigger] enc_dir(d)) ==> (match r {
                Ok((g, end)) => g@ == d@ && end == pos + enc_dir(d).len(),
                Err(_) => false,
            }),
    decreases bytes@.len() - pos,
{
    proof {
        lemma_auto_spec_u64_to_from_le_bytes();
    }
    let nm = decode_string(bytes, pos);
    if let Err(e) = nm {
        proof {
            assert forall|d: Directory|
                d.wf() && fits(bytes@, pos as int, #[trigger] enc_dir(d)) implies false by {
                lemma_enc_dir_split(d);
                lemma_fits_concat(
                    bytes@,
                    pos as int,
                    enc_str(d.name@),
                    enc_u64(d.files@.len()) + (enc_files(d.files@, d.files@.len() as int) + (
                    enc_u64(d.directories@.len()) + enc_dirs(
                        d.directories@,
                        d.directories@.len() as int,
                    ))),
                );
            }
        }
        return Err(e);
    }
    let (name, p1) = nm.unwrap();
    let b1 = read_u64(bytes, p1);
    if b1.is_none() {
        proof {
            assert forall|d: Directory|
                d.wf() && fits(bytes@, pos as int, #[trigger] enc_dir(d)) implies false by {
                lemma_enc_dir_split(d);
                let rest1 = enc_files(d.files@, d.files@.len() as int) + (enc_u64(
                    d.directories@.len(),
                ) + enc_dirs(d.directories@, d.directories@.len() as int));
                lemma_fits_concat(
                    bytes@,
                    pos as int,
                    enc_str(d.name@),
                    enc_u64(d.files@.len()) + rest1,
                );
                lemma_fits_concat(
                    bytes@,
                    pos + enc_str(d.name@).len(),
                    enc_u64(d.files@.len()),
                    rest1,
                );
            }
        }
        return Err(DecodingError::Truncated);
    }
    let (nf64, pf) = b1.unwrap();
    let remf = bytes.len() - pf;
    if nf64 > (remf as u64) / 16 {
        proof {
            assert forall|d: Directory|
                d.wf() && fits(bytes@, pos as int, #[trigger] enc_dir(d)) implies false by {
                lemma_enc_dir_split(d);
                let rest1 = enc_files(d.files@, d.files@.len() as int) + (enc_u64(
                    d.directories@.len(),
                ) + enc_dirs(d.directories@, d.directories@.len() as int));
                lemma_fits_concat(
                    bytes@,
                    pos as int,
                    enc_str(d.name@),
                    enc_u64(d.files@.len()) + rest1,
                );
                lemma_fits_concat(
                    bytes@,
                    pos + enc_str(d.name@).len(),
                    enc_u64(d.files@.len()),
                    rest1,
                );
                assert(d.files@.len() as u64 == nf64);
                lemma_enc_files_min(d.files@, d.files@.len() as int);
                assert((remf as u64) == 4 * ((remf as u64) / 4) + (remf as u64) % 4);
                assert((remf as u64) == 16 * ((remf as u64) / 16) + (remf as u64) % 16);
            }
        }
        return Err(DecodingError::Truncated);
    }
    let nf = nf64 as usize;
    let mut files: Vec<File> = Vec::new();
    let mut fpos = pf;
    let mut i: usize = 0;
    while i < nf
        invariant
            bytes@.len() <= usize::MAX,
            pos <= p1 <= pf <= fpos <= bytes@.len(),
            pf == p1 + 8,
            i <= nf,
            nf as nat == nf64 as nat,
            name@.len() <= usize::MAX,
            enc_str(name@) == bytes@.subrange(pos as int, p1 as int),
            p1 == pos + enc_str(name@).len(),
            enc_u64(nf as nat) == bytes@.subrange(p1 as int, pf as int),
            files@.len() == i,
            forall|t: int| 0 <= t < i ==> file_bounded(#[trigger] files@[t]),
            enc_files(files@, i as int) == bytes@.subrange(pf as int, fpos as int),
            fpos == pf + enc_files(files@, i as int).len(),
            forall|fs: Seq<File>|
                {
                    (forall|t: int| 0 <= t < fs.len() ==> file_bounded(#[trigger] fs[t]))
                        && fs.len() == nf && fits(
                        bytes@,
                        pf as int,
                        #[trigger] enc_files(fs, nf as int),
                    )
                } ==> {
                    &&& fpos == pf + enc_files(fs, i as int).len()
                    &&& forall|t: int|
                        0 <= t < i ==> (#[trigger] fs[t]).name@ == files@[t].name@
                            && fs[t].content@ == files@[t].content@
                },
        decreases nf - i,
    {
        proof {
            assert forall|fs: Seq<File>|
                {
                    (forall|t: int| 0 <= t < fs.len() ==> file_bounded(#[trigger] fs[t]))
                        && fs.len() == nf && fits(
                        bytes@,
                        pf as int,
                        #[trigger] enc_files(fs, nf as int),
                    )
                } implies fits(bytes@, fpos as int, enc_file(fs[i as int])) by {
                lemma_enc_files_prefix(fs, i + 1, nf as int);
                assert(fits(bytes@, pf as int, enc_files(fs, i + 1))) by {
                    lemma_fits_inner(
                        bytes@,
                        pf as int,
                        enc_files(fs, nf as int),
                        0,
                        enc_files(fs, i + 1).len() as int,
                    );
                }
                lemma_fits_concat(
                    bytes@,
                    pf as int,
                    enc_files(fs, i as int),
                    enc_file(fs[i as int]),
                );
            }
        }
        let fr = decode_file(bytes, fpos);
        match fr {
            Err(e) => {
                proof {
                    assert forall|d: Directory|
                        d.wf() && fits(bytes@, pos as int, #[trigger] enc_dir(d)) implies false by {
                        lemma_enc_dir_split(d);
                        let rest1 = enc_files(d.files@, d.files@.len() as int) + (enc_u64(
                            d.directories@.len(),
                        ) + enc_dirs(d.directories@, d.directories@.len() as int));
                        lemma_fits_concat(
                            bytes@,
                            pos as int,
                            enc_str(d.name@),
                            enc_u64(d.files@.len()) + rest1,
                        );
                        lemma_fits_concat(
                            bytes@,
                            pos + enc_str(d.name@).len(),
                            enc_u64(d.files@.len()),
                            rest1,
                        );
                        lemma_auto_spec_u64_to_from_le_bytes();
                        assert(fits(bytes@, pos as int, enc_str(name@)));
                        lemma_enc_str_same_start(bytes@, pos as int, d.name@, name@);
                        assert(pos + enc_str(d.name@).len() == p1);
                        assert(bytes@.subrange(p1 as int, pf as int) == enc_u64(
                            d.files@.len(),
                        ));
                        lemma_fits_concat(
                            bytes@,
                            pf as int,
                            enc_files(d.files@, d.files@.len() as int),
                            enc_u64(d.directories@.len()) + enc_dirs(
                                d.directories@,
                                d.directories@.len() as int,
                            ),
                        );
                        assert(d.files@.len() as u64 == nf64);
                        assert(fits(bytes@, pf as int, enc_files(d.files@, nf as int)));
                    }
                }
                return Err(e);
            },
            Ok((f, fend)) => {
                let ghost files_old = files@;
                let ghost fpos_old = fpos;
                files.push(f);
                fpos = fend;
                proof {
                    assert(enc_files(files@, i + 1) =~= bytes@.subrange(pf as int, fpos as int))
                        by {
                        assert(forall|t: int|
                            0 <= t < i ==> files@[t] == #[trigger] files_old[t]);
                        lemma_enc_files_congruence_values(files_old, files@, i as int);
                        assert(forall|t: int|
                            0 <= t < fpos_old - pf ==> #[trigger] bytes@.subrange(
                                pf as int,
                                fpos_old as int,
                            )[t] == bytes@[pf + t]);
                        assert(forall|t: int|
                            0 <= t < fend - fpos_old ==> #[trigger] bytes@.subrange(
                                fpos_old as int,
                                fend as int,
                            )[t] == bytes@[fpos_old + t]);
                    }
                }
                i += 1;
            },
        }
    }
    if find_dup_file_name(&files) {
        proof {
            assert forall|d: Directory|
                d.wf() && fits(bytes@, pos as int, #[trigger] enc_dir(d)) implies false by {
                lemma_enc_dir_split(d);
                let rest1 = enc_files(d.files@, d.files@.len() as int) + (enc_u64(
                    d.directories@.len(),
                ) + enc_dirs(d.directories@, d.directories@.len() as int));
                lemma_fits_concat(
                    bytes@,
                    pos as int,
                    enc_str(d.name@),
                    enc_u64(d.files@.len()) + rest1,
                );
                lemma_fits_concat(
                    bytes@,
                    pos + enc_str(d.name@).len(),
                    enc_u64(d.files@.len()),
                    rest1,
                );
                lemma_fits_concat(
                    bytes@,
                    pf as int,
                    enc_files(d.files@, d.files@.len() as int),
                    enc_u64(d.directories@.len()) + enc_dirs(
                        d.directories@,
                        d.directories@.len() as int,
                    ),
                );
                assert(d.files@.len() as u64 == nf64);
                assert(fits(bytes@, pf as int, enc_files(d.files@, nf as int)));
                let (p, q) = choose|p: int, q: int|
                    0 <= p < q < files@.len() && (#[trigger] files@[p].name@) == (
                    #[trigger] files@[q].name@);
                assert(d.files@[p].name@ == d.files@[q].name@);
            }
        }
        return Err(DecodingError::DuplicateName);
    }
    let b2 = read_u64(bytes, fpos);
    if b2.is_none() {
        proof {
            assert forall|d: Directory|
                d.wf() && fits(bytes@, pos as int, #[trigger] enc_dir(d)) implies false by {
                lemma_enc_dir_split(d);
                let rest1 = enc_files(d.files@, d.files@.len() as int) + (enc_u64(
                    d.directories@.len(),
                ) + enc_dirs(d.directories@, d.directories@.len() as int));
                lemma_fits_concat(
                    bytes@,
                    pos as int,
                    enc_str(d.name@),
                    enc_u64(d.files@.len()) + rest1,
                );
                lemma_fits_concat(
                    bytes@,
                    pos + enc_str(d.name@).len(),
                    enc_u64(d.files@.len()),
                    rest1,
                );
                lemma_fits_concat(
                    bytes@,
                    pf as int,
                    enc_files(d.files@, d.files@.len() as int),
                    enc_u64(d.directories@.len()) + enc_dirs(
                        d.directories@,
                        d.directories@.len() as int,
                    ),
                );
                assert(d.files@.len() as u64 == nf64);
                assert(fits(bytes@, pf as int, enc_files(d.files@, nf as int)));
                lemma_fits_concat(
                    bytes@,
                    fpos as int,
                    enc_u64(d.directories@.len()),
                    enc_dirs(d.directories@, d.directories@.len() as int),
                );
            }
        }
        return Err(DecodingError::Truncated);
    }
    let (nd64, pd) = b2.unwrap();
    let remd = bytes.len() - pd;
    if nd64 > (remd as u64) / 24 {
        proof {
            assert forall|d: Directory|
                d.wf() && fits(bytes@, pos as int, #[trigger] enc_dir(d)) implies false by {
                lemma_enc_dir_split(d);
                let rest1 = enc_files(d.files@, d.files@.len() as int) + (enc_u64(
                    d.directories@.len(),
                ) + enc_dirs(d.directories@, d.directories@.len() as int));
                lemma_fits_concat(
                    bytes@,
                    pos as int,
                    enc_str(d.name@),
                    enc_u64(d.files@.len()) + rest1,
                );
                lemma_fits_concat(
                    bytes@,
                    pos + enc_str(d.name@).len(),
                    enc_u64(d.files@.len()),
                    rest1,
                );
                lemma_fits_concat(
                    bytes@,
                    pf as int,
                    enc_files(d.files@, d.files@.len() as int),
                    enc_u64(d.directories@.len()) + enc_dirs(
                        d.directories@,
                        d.directories@.len() as int,
                    ),
                );
                assert(d.files@.len() as u64 == nf64);
                assert(fits(bytes@, pf as int, enc_files(d.files@, nf as int)));
                lemma_fits_concat(
                    bytes@,
                    fpos as int,
                    enc_u64(d.directories@.len()),
                    enc_dirs(d.directories@, d.directories@.len() as int),
                );
                assert(d.directories@.len() as u64 == nd64);
                lemma_enc_dirs_min(d.directories@, d.directories@.len() as int);
                assert((remd as u64) == 24 * ((remd as u64) / 24) + (remd as u64) % 24);
            }
        }
        return Err(DecodingError::Truncated);
    }
    let nd = nd64 as usize;
    let mut dirs: Vec<Directory> = Vec::new();
    let mut dpos = pd;
    let mut j: usize = 0;
    while j < nd
        invariant
            bytes@.len() <= usize::MAX,
            pos <= p1 <= pf <= fpos < pd <= dpos <= bytes@.len(),
            pf == p1 + 8,
            pd == fpos + 8,
            j <= nd,
            nf as nat == nf64 as nat,
            nd as nat == nd64 as nat,
            name@.len() <= usize::MAX,
            enc_str(name@) == bytes@.subrange(pos as int, p1 as int),
            p1 == pos + enc_str(name@).len(),
            enc_u64(nf as nat) == bytes@.subrange(p1 as int, pf as int),
            files@.len() == nf,
            forall|t: int| 0 <= t < nf ==> file_bounded(#[trigger] files@[t]),
            forall|a: int, b: int|
                0 <= a < b < files@.len() ==> (#[trigger] files@[a].name@) != (
                #[trigger] files@[b].name@),
            enc_files(files@, nf as int) == bytes@.subrange(pf as int, fpos as int),
            fpos == pf + enc_files(files@, nf as int).len(),
            forall|fs: Seq<File>|
                {
                    (forall|t: int| 0 <= t < fs.len() ==> file_bounded(#[trigger] fs[t]))
                        && fs.len() == nf && fits(
                        bytes@,
                        pf as int,
                        #[trigger] enc_files(fs, nf as int),
                    )
                } ==> {
                    &&& fpos == pf + enc_files(fs, nf as int).len()
                    &&& forall|t: int|
                        0 <= t < nf ==> (#[trigger] fs[t]).name@ == files@[t].name@
                            && fs[t].content@ == files@[t].content@
                },
            enc_u64(nd as nat) == bytes@.subrange(fpos as int, pd as int),
            dirs@.len() == j,
            forall|t: int| 0 <= t < j ==> (#[trigger] dirs@[t]).wf(),
            enc_dirs(dirs@, j as int) == bytes@.subrange(pd as int, dpos as int),
            dpos == pd + enc_dirs(dirs@, j as int).len(),
            forall|ds: Seq<Directory>|
                {
                    (forall|t: int| 0 <= t < ds.len() ==> (#[trigger] ds[t]).wf()) && ds.len() == nd
                        && fits(bytes@, pd as int, #[trigger] enc_dirs(ds, nd as int))
                } ==> {
                    &&& dpos == pd + enc_dirs(ds, j as int).len()
                    &&& forall|t: int|
                        0 <= t < j ==> (#[trigger] ds[t])@ == dirs@[t]@ && ds[t].name@
                            == dirs@[t].name@
                },
        decreases nd - j,
    {
        proof {
            assert forall|ds: Seq<Directory>|
                {
                    (forall|t: int| 0 <= t < ds.len() ==> (#[trigger] ds[t]).wf()) && ds.len() == nd
                        && fits(bytes@, pd as int, #[trigger] enc_dirs(ds, nd as int))
                } implies fits(bytes@, dpos as int, enc_dir(ds[j as int])) && ds[j as int].wf() by {
                lemma_enc_dirs_prefix(ds, j + 1, nd as int);
                assert(fits(bytes@, pd as int, enc_dirs(ds, j + 1))) by {
                    lemma_fits_inner(
                        bytes@,
                        pd as int,
                        enc_dirs(ds, nd as int),
                        0,
                        enc_dirs(ds, j + 1).len() as int,
                    );
                }
                lemma_fits_concat(bytes@, pd as int, enc_dirs(ds, j as int), enc_dir(ds[j as int]));
            }
        }
        let dr = decode_dir(bytes, dpos);
        match dr {
            Err(e) => {
                proof {
                    assert forall|d: Directory|
                        d.wf() && fits(bytes@, pos as int, #[trigger] enc_dir(d)) implies false by {
                        lemma_enc_dir_split(d);
                        let rest1 = enc_files(d.files@, d.files@.len() as int) + (enc_u64(
                            d.directories@.len(),
                        ) + enc_dirs(d.directories@, d.directories@.len() as int));
                        lemma_fits_concat(
                            bytes@,
                            pos as int,
                            enc_str(d.name@),
                            enc_u64(d.files@.len()) + rest1,
                        );
                        lemma_fits_concat(
                            bytes@,
                            pos + enc_str(d.name@).len(),
                            enc_u64(d.files@.len()),
                            rest1,
                        );
                        lemma_auto_spec_u64_to_from_le_bytes();
                        assert(fits(bytes@, pos as int, enc_str(name@)));
                        lemma_enc_str_same_start(bytes@, pos as int, d.name@, name@);
                        assert(pos + enc_str(d.name@).len() == p1);
                        assert(bytes@.subrange(p1 as int, pf as int) == enc_u64(
                            d.files@.len(),
                        ));
                        lemma_fits_concat(
                            bytes@,
                            pf as int,
                            enc_files(d.files@, d.files@.len() as int),
                            enc_u64(d.directories@.len()) + enc_dirs(
                                d.directories@,
                                d.directories@.len() as int,
                            ),
                        );
                        assert(d.files@.len() as u64 == nf64);
                        assert(fits(bytes@, pf as int, enc_files(d.files@, nf as int)));
                        lemma_fits_concat(
                            bytes@,
                            fpos as int,
                            enc_u64(d.directories@.len()),
                            enc_dirs(d.directories@, d.directories@.len() as int),
                        );
                        assert(d.directories@.len() as u64 == nd64);
                        assert(fits(bytes@, pd as int, enc_dirs(d.directories@, nd as int)));
                    }
                }
                return Err(e);
            },
            Ok((c, cend)) => {
                let ghost dirs_old = dirs@;
                let ghost dpos_old = dpos;
                dirs.push(c);
                dpos = cend;
                proof {
                    assert(enc_dirs(dirs@, j + 1) =~= bytes@.subrange(pd as int, dpos as int)) by {
                        assert(forall|t: int| 0 <= t < j ==> dirs@[t] == #[trigger] dirs_old[t]);
                        lemma_enc_dirs_congruence_values(dirs_old, dirs@, j as int);
                        assert(forall|t: int|
                            0 <= t < dpos_old - pd ==> #[trigger] bytes@.subrange(
                                pd as int,
                                dpos_old as int,
                            )[t] == bytes@[pd + t]);
                        assert(forall|t: int|
                            0 <= t < cend - dpos_old ==> #[trigger] bytes@.subrange(
                                dpos_old as int,
                                cend as int,
                            )[t] == bytes@[dpos_old + t]);
                    }
                }
                j += 1;
            },
        }
    }
    if find_dup_dir_name(&dirs) {
        proof {
            assert forall|d: Directory|
                d.wf() && fits(bytes@, pos as int, #[trigger] enc_dir(d)) implies false by {
                lemma_enc_dir_split(d);
                let rest1 = enc_files(d.files@, d.files@.len() as int) + (enc_u64(
                    d.directories@.len(),
                ) + enc_dirs(d.directories@, d.directories@.len() as int));
                lemma_fits_concat(
                    bytes@,
                    pos as int,
                    enc_str(d.name@),
                    enc_u64(d.files@.len()) + rest1,
                );
                lemma_fits_concat(
                    bytes@,
                    pos + enc_str(d.name@).len(),
                    enc_u64(d.files@.len()),
                    rest1,
                );
                lemma_fits_concat(
                    bytes@,
                    pf as int,
                    enc_files(d.files@, d.files@.len() as int),
                    enc_u64(d.directories@.len()) + enc_dirs(
                        d.directories@,
                        d.directories@.len() as int,
                    ),
                );
                assert(d.files@.len() as u64 == nf64);
                assert(fits(bytes@, pf as int, enc_files(d.files@, nf as int)));
                lemma_fits_concat(
                    bytes@,
                    fpos as int,
                    enc_u64(d.directories@.len()),
                    enc_dirs(d.directories@, d.directories@.len() as int),
                );
                assert(d.directories@.len() as u64 == nd64);
                assert(fits(bytes@, pd as int, enc_dirs(d.directories@, nd as int)));
                let (p, q) = choose|p: int, q: int|
                    0 <= p < q < dirs@.len() && (#[trigger] dirs@[p].name@) == (
                    #[trigger] dirs@[q].name@);
                assert(d.directories@[p].name@ == d.directories@[p]@.name);
                assert(d.directories@[p]@.name == dirs@[p]@.name);
                assert(d.directories@[q].name@ == d.directories@[q]@.name);
                assert(d.directories@[p].name@ == d.directories@[q].name@);
            }
        }
        return Err(DecodingError::DuplicateName);
    }
    let d = Directory { name, files, directories: dirs };
    proof {
        assert(d.wf());
        assert(bytes@.subrange(pos as int, dpos as int) =~= enc_dir(d)) by {
            assert(forall|t: int|
                0 <= t < p1 - pos ==> #[trigger] enc_str(d.name@)[t] == bytes@[pos + t]);
            assert(forall|t: int|
                0 <= t < 8 ==> #[trigger] enc_u64(d.files@.len())[t] == bytes@[p1 + t]);
            assert(forall|t: int|
                0 <= t < fpos - pf ==> #[trigger] enc_files(d.files@, d.files@.len() as int)[t]
                    == bytes@[pf + t]);
            assert(forall|t: int|
                0 <= t < 8 ==> #[trigger] enc_u64(d.directories@.len())[t] == bytes@[fpos + t]);
            assert(forall|t: int|
                0 <= t < dpos - pd ==> #[trigger] enc_dirs(
                    d.directories@,
                    d.directories@.len() as int,
                )[t] == bytes@[pd + t]);
        }
        assert forall|d2: Directory|
            d2.wf() && fits(bytes@, pos as int, #[trigger] enc_dir(d2)) implies (d@ == d2@ && dpos
            == pos + enc_dir(d2).len()) by {
            lemma_enc_dir_split(d2);
            let rest1 = enc_files(d2.files@, d2.files@.len() as int) + (enc_u64(
                d2.directories@.len(),
            ) + enc_dirs(d2.directories@, d2.directories@.len() as int));
            lemma_fits_concat(
                bytes@,
                pos as int,
                enc_str(d2.name@),
                enc_u64(d2.files@.len()) + rest1,
            );
            lemma_fits_concat(
                bytes@,
                pos + enc_str(d2.name@).len(),
                enc_u64(d2.files@.len()),
                rest1,
            );
            lemma_fits_concat(
                bytes@,
                pf as int,
                enc_files(d2.files@, d2.files@.len() as int),
                enc_u64(d2.directories@.len()) + enc_dirs(
                    d2.directories@,
                    d2.directories@.len() as int,
                ),
            );
            assert(d2.files@.len() as u64 == nf64);
            assert(fits(bytes@, pf as int, enc_files(d2.files@, nf as int)));
            lemma_fits_concat(
                bytes@,
                fpos as int,
                enc_u64(d2.directories@.len()),
                enc_dirs(d2.directories@, d2.directories@.len() as int),
            );
            assert(d2.directories@.len() as u64 == nd64);
            assert(fits(bytes@, pd as int, enc_dirs(d2.directories@, nd as int)));
            assert(d2.name@ == name@);
            assert(forall|t: int|
                0 <= t < nf ==> (#[trigger] d2.files@[t]).name@ == files@[t].name@
                    && d2.files@[t].content@ == files@[t].content@);
            assert(forall|t: int|
                0 <= t < nd ==> (#[trigger] d2.directories@[t])@ == dirs@[t]@
                    && d2.directories@[t].name@ == dirs@[t].name@);
            crate::fs::lemma_files_model_congruence(d2.files@, files@, nf as int);
            crate::fs::lemma_dirs_model_congruence(d2.directories@, dirs@, nd as int);
            assert(dpos == pd + enc_dirs(d2.directories@, nd as int).len());
            assert(d@ == d2@);
        }
    }
    Ok((d, dpos))
}

impl FileSystem {
    /// Encodes the whole tree, root and all descendants, deterministically.
    /// Every well-formed tree can be encoded, so this cannot fail.
    pub fn save(&self) -> (r: Vec<u8>)
        requires
            self.wf(),
        ensures
            r@ == enc_dir(self.root),
    {
        let mut out: Vec<u8> = Vec::new();
        encode_dir(&self.root, &mut out);
        assert(out@ =~= enc_dir(self.root));
        out
    }

    /// Decodes a previously encoded tree. The whole stream must be exactly
    /// one encoded root directory: whatever is accepted encodes back to the
    /// very input, and the encoding of any well-formed tree is accepted and
    /// yields a structurally equal tree — so a load after a save always
    /// succeeds and rebuilds the saved tree.
    pub fn load(bytes: &Vec<u8>) -> (r: Result<FileSystem, DecodingError>)
        ensures
            match r {
                Ok(f) => f.wf() && enc_dir(f.root) == bytes@,
                Err(_) => true,
            },
            forall|t: FileSystem|
                t.wf() && #[trigger] enc_dir(t.root) == bytes@ ==> (match r {
                    Ok(f) => f@ == t@,
                    Err(_) => false,
                }),
    {
        let dr = decode_dir(bytes, 0);
        proof {
            assert forall|t: FileSystem|
                t.wf() && #[trigger] enc_dir(t.root) == bytes@ implies fits(
                bytes@,
                0,
                enc_dir(t.root),
            ) by {
                assert(bytes@.subrange(0, enc_dir(t.root).len() as int) =~= enc_dir(t.root));
            }
        }
        match dr {
            Err(e) => Err(e),
            Ok((d, end)) => {
                if end != bytes.len() {
                    return Err(DecodingError::TrailingBytes);
                }
                assert(bytes@.subrange(0, end as int) =~= bytes@);
                Ok(FileSystem { root: d })
            },
        }
    }
}

} // verus!
