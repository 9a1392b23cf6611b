//! The metadata of a standalone binary and its encoding.
//!
//! The payload is a sequence of tagged fields. Field 1 is the entry
//! source, field 2 the entry path, each field 3 one bundled file (key and
//! contents), each field 4 one alias (reference and key). Every value is a
//! chunk: its length as eight big-endian bytes, then its bytes. Text is
//! written as UTF-8.

use crate::trailer::{append_be64, append_chunk, chunk, copy_range, ends_with_magic, frame, framed_payload, is_standalone, read_be64, take_chunk};
use vstd::prelude::*;
use vstd::utf8::{decode_utf8, encode_utf8, valid_utf8};

verus! {

/// What a standalone binary carries: the source of the entry script, the
/// key of the entry script, and the bundle.
#[derive(Debug, Clone, PartialEq, Eq)]
pub struct Metadata {
    pub source: Vec<u8>,
    pub entry_path: String,
    pub files: Vec<(String, Vec<u8>)>,
    pub aliases: Vec<(String, String)>,
}

/// Why bytes could not be read as a standalone binary.
#[derive(Debug, Clone, Copy, PartialEq, Eq, Structural)]
pub enum MetadataError {
    /// The bytes are too short or do not end with the magic marker.
    NotStandalone,
    /// The bytes end with the magic marker, but what stands before it is
    /// no payload.
    CorruptMetadata,
}

/// Metadata over plain values.
pub struct MetadataView {
    pub source: Seq<u8>,
    pub entry_path: Seq<char>,
    pub files: Seq<(Seq<char>, Seq<u8>)>,
    pub aliases: Seq<(Seq<char>, Seq<char>)>,
}

/// What has been read of a payload so far.
pub struct Partial {
    pub source: Option<Seq<u8>>,
    pub entry_path: Option<Seq<char>>,
    pub files: Seq<(Seq<char>, Seq<u8>)>,
    pub aliases: Seq<(Seq<char>, Seq<char>)>,
}

/// The keys and contents of `files`.
pub open spec fn file_views(files: Seq<(String, Vec<u8>)>) -> Seq<(Seq<char>, Seq<u8>)> {
    Seq::new(files.len(), |i: int| (files[i].0@, files[i].1@))
}

/// The references and keys of `aliases`.
pub open spec fn alias_views(aliases: Seq<(String, String)>) -> Seq<(Seq<char>, Seq<char>)> {
    Seq::new(aliases.len(), |i: int| (aliases[i].0@, aliases[i].1@))
}

impl View for Metadata {
    type V = MetadataView;

    /// The value over plain sequences and texts.
    open spec fn view(&self) -> MetadataView {
        MetadataView {
            source: self.source@,
            entry_path: self.entry_path@,
            files: file_views(self.files@),
            aliases: alias_views(self.aliases@),
        }
    }
}

/// The text `t` as a chunk of UTF-8.
pub open spec fn text_chunk(t: Seq<char>) -> Seq<u8> {
    chunk(encode_utf8(t))
}

/// One field 3 for each of `files`, in order.
pub open spec fn encode_files(files: Seq<(Seq<char>, Seq<u8>)>) -> Seq<u8>
    decreases files.len(),
{
    if files.len() == 0 {
        Seq::empty()
    } else {
        encode_files(files.drop_last()) + seq![3u8] + text_chunk(files.last().0) + chunk(
            files.last().1,
        )
    }
}

/// One field 4 for each of `aliases`, in order.
pub open spec fn encode_aliases(aliases: Seq<(Seq<char>, Seq<char>)>) -> Seq<u8>
    decreases aliases.len(),
{
    if aliases.len() == 0 {
        Seq::empty()
    } else {
        encode_aliases(aliases.drop_last()) + seq![4u8] + text_chunk(aliases.last().0)
            + text_chunk(aliases.last().1)
    }
}

/// The payload that stands for `m`.
pub open spec fn payload(m: MetadataView) -> Seq<u8> {
    seq![1u8] + chunk(m.source) + seq![2u8] + text_chunk(m.entry_path) + encode_files(m.files)
        + encode_aliases(m.aliases)
}

/// The end of a standalone binary that carries `m`.
pub open spec fn encoding(m: MetadataView) -> Seq<u8> {
    frame(payload(m))
}

/// Nothing read yet.
pub open spec fn nothing() -> Partial {
    Partial { source: None, entry_path: None, files: Seq::empty(), aliases: Seq::empty() }
}

/// Reads the fields of `bytes` one after the other, starting from what
/// `acc` holds. A later field 1 or 2 replaces an earlier one. `None`
/// where a tag is unknown, a chunk is cut short or a text is no UTF-8.
pub open spec fn parse(bytes: Seq<u8>, acc: Partial) -> Option<Partial>
    decreases bytes.len(),
{
    if bytes.len() == 0 {
        Some(acc)
    } else {
        let rest = bytes.skip(1);
        match take_chunk(rest) {
            None => None,
            Some((first, after)) => if bytes[0] == 1 {
                parse(after, Partial { source: Some(first), ..acc })
            } else if bytes[0] == 2 {
                if valid_utf8(first) {
                    parse(after, Partial { entry_path: Some(decode_utf8(first)), ..acc })
                } else {
                    None
                }
            } else if bytes[0] == 3 {
                match take_chunk(after) {
                    None => None,
                    Some((second, end)) => if valid_utf8(first) {
                        parse(
                            end,
                            Partial { files: acc.files.push((decode_utf8(first), second)), ..acc },
                        )
                    } else {
                        None
                    },
                }
            } else if bytes[0] == 4 {
                match take_chunk(after) {
                    None => None,
                    Some((second, end)) => if valid_utf8(first) && valid_utf8(second) {
                        parse(
                            end,
                            Partial {
                                aliases: acc.aliases.push(
                                    (decode_utf8(first), decode_utf8(second)),
                                ),
                                ..acc
                            },
                        )
                    } else {
                        None
                    },
                }
            } else {
                None
            },
        }
    }
}

/// The metadata that `acc` holds, where it holds a source and an entry path.
pub open spec fn finish(acc: Partial) -> Option<MetadataView> {
    match (acc.source, acc.entry_path) {
        (Some(source), Some(entry_path)) => Some(
            MetadataView { source, entry_path, files: acc.files, aliases: acc.aliases },
        ),
        _ => None,
    }
}

/// What the bytes of a file say: the metadata of a standalone binary,
/// that the file is none, or that it is one with a broken payload.
pub open spec fn decoding(bytes: Seq<u8>) -> Result<MetadataView, MetadataError> {
    if !is_standalone(bytes) {
        Err(MetadataError::NotStandalone)
    } else {
        match framed_payload(bytes) {
            None => Err(MetadataError::CorruptMetadata),
            Some(p) => match parse(p, nothing()) {
                None => Err(MetadataError::CorruptMetadata),
                Some(acc) => match finish(acc) {
                    None => Err(MetadataError::CorruptMetadata),
                    Some(m) => Ok(m),
                },
            },
        }
    }
}

/// Every length that the encoding of `m` writes fits in 64 bits.
pub open spec fn fits(m: MetadataView) -> bool {
    &&& m.source.len() <= u64::MAX
    &&& encode_utf8(m.entry_path).len() <= u64::MAX
    &&& forall|i: int|
        0 <= i < m.files.len() ==> encode_utf8((#[trigger] m.files[i]).0).len() <= u64::MAX
            && m.files[i].1.len() <= u64::MAX
    &&& forall|i: int|
        0 <= i < m.aliases.len() ==> encode_utf8((#[trigger] m.aliases[i]).0).len() <= u64::MAX
            && encode_utf8(m.aliases[i].1).len() <= u64::MAX
    &&& payload(m).len() <= u64::MAX
}

/// What has been read so far, over plain values.
pub open spec fn partial_of(
    source: Option<Vec<u8>>,
    entry_path: Option<String>,
    files: Seq<(String, Vec<u8>)>,
    aliases: Seq<(String, String)>,
) -> Partial {
    Partial {
        source: match source {
            Some(v) => Some(v@),
            None => None,
        },
        entry_path: match entry_path {
            Some(t) => Some(t@),
            None => None,
        },
        files: file_views(files),
        aliases: alias_views(aliases),
    }
}

/// Calls `String::from_utf8`: the text that `bytes` encode, where they
/// are valid UTF-8, and nothing where they are not.
#[verifier::external_body]
fn text_from_utf8(bytes: Vec<u8>) -> (r: Option<String>)
    ensures
        r is Some <==> valid_utf8(bytes@),
        r matches Some(s) ==> s@ == decode_utf8(bytes@),
{
    String::from_utf8(bytes).ok()
}

/// Reads the chunk that starts at position `pos` of `bytes`, and says
/// where what follows it starts.
fn read_chunk(bytes: &Vec<u8>, pos: usize) -> (r: Option<(Vec<u8>, usize)>)
    requires
        pos <= bytes@.len(),
    ensures
        match r {
            Some((c, next)) => take_chunk(bytes@.skip(pos as int)) == Some(
                (c@, bytes@.skip(next as int)),
            ) && pos < next <= bytes@.len(),
            None => take_chunk(bytes@.skip(pos as int)) is None,
        },
{
    let len = bytes.len();
    if len - pos < 8 {
        return None;
    }
    let n = read_be64(bytes.as_slice(), pos);
    if n > (len - pos - 8) as u64 {
        return None;
    }
    let next = pos + 8 + n as usize;
    let c = copy_range(bytes.as_slice(), pos + 8, next);
    proof {
        let rest = bytes@.skip(pos as int);
        assert(rest.subrange(8, 8 + n as int) =~= bytes@.subrange(pos + 8, next as int));
        assert(rest.skip(8 + n as int) =~= bytes@.skip(next as int));
    }
    Some((c, next))
}

/// What has been read of a payload so far.
pub struct Reading {
    pub source: Option<Vec<u8>>,
    pub entry_path: Option<String>,
    pub files: Vec<(String, Vec<u8>)>,
    pub aliases: Vec<(String, String)>,
}

impl View for Reading {
    type V = Partial;

    /// The value over plain sequences and texts.
    open spec fn view(&self) -> Partial {
        partial_of(self.source, self.entry_path, self.files@, self.aliases@)
    }
}

/// Reads the field that starts at position `pos` of `payload` into `acc`,
/// and says where the next field starts.
#[verifier::rlimit(50)]
fn read_field(payload: &Vec<u8>, pos: usize, acc: Reading) -> (r: Option<(Reading, usize)>)
    requires
        pos < payload@.len(),
    ensures
        match r {
            Some((next_acc, next)) => pos < next <= payload@.len() && parse(
                payload@.skip(pos as int),
                acc@,
            ) == parse(payload@.skip(next as int), next_acc@),
            None => parse(payload@.skip(pos as int), acc@) is None,
        },
{
    let ghost here = payload@.skip(pos as int);
    assert(here[0] == payload@[pos as int]);
    assert(here.skip(1) =~= payload@.skip(pos + 1));
    let _len = payload.len();
    let tag = payload[pos];
    let (first, after) = match read_chunk(payload, pos + 1) {
        Some(x) => x,
        None => {
            return None;
        },
    };
    let Reading { source, entry_path, files, aliases } = acc;
    if tag == 1 {
        Some((Reading { source: Some(first), entry_path, files, aliases }, after))
    } else if tag == 2 {
        match text_from_utf8(first) {
            Some(t) => Some((Reading { source, entry_path: Some(t), files, aliases }, after)),
            None => None,
        }
    } else if tag == 3 {
        let (second, end) = match read_chunk(payload, after) {
            Some(x) => x,
            None => {
                return None;
            },
        };
        match text_from_utf8(first) {
            Some(key) => {
                let ghost before = file_views(files@);
                let mut files = files;
                files.push((key, second));
                assert(file_views(files@) =~= before.push((key@, second@)));
                Some((Reading { source, entry_path, files, aliases }, end))
            },
            None => None,
        }
    } else if tag == 4 {
        let (second, end) = match read_chunk(payload, after) {
            Some(x) => x,
            None => {
                return None;
            },
        };
        match text_from_utf8(first) {
            Some(lit) => {
                match text_from_utf8(second) {
                    Some(key) => {
                        let ghost before = alias_views(aliases@);
                        let mut aliases = aliases;
                        aliases.push((lit, key));
                        assert(alias_views(aliases@) =~= before.push((lit@, key@)));
                        Some((Reading { source, entry_path, files, aliases }, end))
                    },
                    None => None,
                }
            },
            None => None,
        }
    } else {
        None
    }
}

impl Metadata {
    /// The end of a standalone binary that carries this metadata: the
    /// payload, its length and the magic marker.
    pub fn to_bytes(&self) -> (r: Vec<u8>)
        ensures
            r@ == encoding(self@),
    {
        let mut out: Vec<u8> = Vec::new();
        out.push(1u8);
        append_chunk(&mut out, self.source.as_slice());
        out.push(2u8);
        append_chunk(&mut out, self.entry_path.as_str().as_bytes());
        let ghost head = out@;
        assert(head =~= seq![1u8] + chunk(self.source@) + seq![2u8] + text_chunk(
            self.entry_path@,
        ));
        let mut i: usize = 0;
        assert(file_views(self.files@).take(0) =~= Seq::empty());
        while i < self.files.len()
            invariant
                i <= self.files@.len(),
                out@ == head + encode_files(file_views(self.files@).take(i as int)),
            decreases self.files@.len() - i,
        {
            proof {
                let t = file_views(self.files@).take(i as int + 1);
                assert(t.drop_last() =~= file_views(self.files@).take(i as int));
                assert(t.last() == (self.files@[i as int].0@, self.files@[i as int].1@));
            }
            let ghost before = out@;
            out.push(3u8);
            append_chunk(&mut out, self.files[i].0.as_str().as_bytes());
            append_chunk(&mut out, self.files[i].1.as_slice());
            assert(out@ =~= before + seq![3u8] + text_chunk(self.files@[i as int].0@) + chunk(
                self.files@[i as int].1@,
            ));
            i += 1;
            assert(out@ =~= head + encode_files(file_views(self.files@).take(i as int)));
        }
        assert(file_views(self.files@).take(i as int) =~= file_views(self.files@));
        let ghost mid = out@;
        let mut j: usize = 0;
        assert(alias_views(self.aliases@).take(0) =~= Seq::empty());
        assert(out@ =~= mid + encode_aliases(alias_views(self.aliases@).take(0)));
        while j < self.aliases.len()
            invariant
                j <= self.aliases@.len(),
                out@ == mid + encode_aliases(alias_views(self.aliases@).take(j as int)),
            decreases self.aliases@.len() - j,
        {
            proof {
                let t = alias_views(self.aliases@).take(j as int + 1);
                assert(t.drop_last() =~= alias_views(self.aliases@).take(j as int));
                assert(t.last() == (self.aliases@[j as int].0@, self.aliases@[j as int].1@));
            }
            let ghost before = out@;
            out.push(4u8);
            append_chunk(&mut out, self.aliases[j].0.as_str().as_bytes());
            append_chunk(&mut out, self.aliases[j].1.as_str().as_bytes());
            assert(out@ =~= before + seq![4u8] + text_chunk(self.aliases@[j as int].0@)
                + text_chunk(self.aliases@[j as int].1@));
            j += 1;
            assert(out@ =~= mid + encode_aliases(alias_views(self.aliases@).take(j as int)));
        }
        assert(alias_views(self.aliases@).take(j as int) =~= alias_views(self.aliases@));
        assert(out@ =~= payload(self@));
        let n = out.len() as u64;
        append_be64(&mut out, n);
        out.push(0x63u8);
        out.push(0x72u8);
        out.push(0x33u8);
        out.push(0x73u8);
        out.push(0x63u8);
        out.push(0x33u8);
        out.push(0x6eu8);
        out.push(0x74u8);
        assert(out@ =~= frame(payload(self@)));
        out
    }

    /// Reads the metadata that the bytes of a file carry.
    pub fn from_bytes(bytes: &[u8]) -> (r: Result<Metadata, MetadataError>)
        ensures
            match r {
                Ok(m) => decoding(bytes@) == Ok::<MetadataView, MetadataError>(m@),
                Err(e) => decoding(bytes@) == Err::<MetadataView, MetadataError>(e),
            },
    {
        if !ends_with_magic(bytes) {
            return Err(MetadataError::NotStandalone);
        }
        let len = bytes.len();
        let n = read_be64(bytes, len - 16);
        if n > (len - 16) as u64 {
            return Err(MetadataError::CorruptMetadata);
        }
        let payload = copy_range(bytes, len - 16 - n as usize, len - 16);
        assert(framed_payload(bytes@) == Some(payload@));
        let mut acc = Reading {
            source: None,
            entry_path: None,
            files: Vec::new(),
            aliases: Vec::new(),
        };
        let mut pos: usize = 0;
        assert(payload@.skip(0) =~= payload@);
        assert(file_views(acc.files@) =~= Seq::empty());
        assert(alias_views(acc.aliases@) =~= Seq::empty());
        while pos < payload.len()
            invariant
                pos <= payload@.len(),
                is_standalone(bytes@),
                framed_payload(bytes@) == Some(payload@),
                parse(payload@, nothing()) == parse(payload@.skip(pos as int), acc@),
            decreases payload@.len() - pos,
        {
            match read_field(&payload, pos, acc) {
                Some((next_acc, next)) => {
                    acc = next_acc;
                    pos = next;
                },
                None => {
                    return Err(MetadataError::CorruptMetadata);
                },
            }
        }
        assert(payload@.skip(pos as int).len() == 0);
        match (acc.source, acc.entry_path) {
            (Some(source), Some(entry_path)) => Ok(
                Metadata { source, entry_path, files: acc.files, aliases: acc.aliases },
            ),
            _ => Err(MetadataError::CorruptMetadata),
        }
    }

    /// The bytes of a standalone binary: the bytes of the base executable
    /// with the encoding of the script and its bundle at their end.
    pub fn create_env_patched_bin(
        base_exe: Vec<u8>,
        script_contents: Vec<u8>,
        entry_path: String,
        files: Vec<(String, Vec<u8>)>,
        aliases: Vec<(String, String)>,
    ) -> (r: Vec<u8>)
        ensures
            r@ == base_exe@ + encoding(
                MetadataView {
                    source: script_contents@,
                    entry_path: entry_path@,
                    files: file_views(files@),
                    aliases: alias_views(aliases@),
                },
            ),
    {
        let meta = Metadata { source: script_contents, entry_path, files, aliases };
        let mut out = base_exe;
        let tail = meta.to_bytes();
        crate::trailer::append_bytes(&mut out, tail.as_slice());
        out
    }

    /// Whether `contents`, the bytes of the running executable, are those
    /// of a standalone binary; and the bytes.
    pub fn check_env(contents: Vec<u8>) -> (r: (bool, Vec<u8>))
        ensures
            r.0 == is_standalone(contents@),
            r.1@ == contents@,
    {
        let is_standalone = ends_with_magic(contents.as_slice());
        (is_standalone, contents)
    }
}

/// The bytes of the running executable, where they are those of a
/// standalone binary.
pub fn check(contents: Vec<u8>) -> (r: Option<Vec<u8>>)
    ensures
        match r {
            Some(bin) => is_standalone(contents@) && bin@ == contents@,
            None => !is_standalone(contents@),
        },
{
    let (is_standalone, patched_bin) = Metadata::check_env(contents);
    if is_standalone {
        Some(patched_bin)
    } else {
        None
    }
}

/// Whether the bytes of a file are those of a standalone binary.
pub fn check_standalone(bytes: &[u8]) -> (r: bool)
    ensures
        r == is_standalone(bytes@),
{
    ends_with_magic(bytes)
}

} // verus!
