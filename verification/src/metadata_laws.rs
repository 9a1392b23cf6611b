//! What holds of the encoding of metadata: what was written is read back.

use crate::metadata::{
    decoding, encode_aliases, encode_files, encoding, finish, fits, nothing, parse, payload,
    text_chunk, MetadataError, MetadataView, Partial,
};
use crate::trailer::{chunk, is_standalone, lemma_frame, lemma_take_chunk};
use vstd::prelude::*;
use vstd::utf8::{encode_utf8, encode_utf8_decode_utf8, encode_utf8_valid_utf8};

verus! {

/// A field 1 is read as the source.
pub proof fn lemma_parse_source(source: Seq<u8>, rest: Seq<u8>, acc: Partial)
    requires
        source.len() <= u64::MAX,
    ensures
        parse(seq![1u8] + chunk(source) + rest, acc) == parse(
            rest,
            Partial { source: Some(source), ..acc },
        ),
{
    let bytes = seq![1u8] + chunk(source) + rest;
    assert(bytes.skip(1) =~= chunk(source) + rest);
    lemma_take_chunk(source, rest);
}

/// A field 2 is read as the entry path.
pub proof fn lemma_parse_entry(path: Seq<char>, rest: Seq<u8>, acc: Partial)
    requires
        encode_utf8(path).len() <= u64::MAX,
    ensures
        parse(seq![2u8] + text_chunk(path) + rest, acc) == parse(
            rest,
            Partial { entry_path: Some(path), ..acc },
        ),
{
    let bytes = seq![2u8] + text_chunk(path) + rest;
    assert(bytes.skip(1) =~= text_chunk(path) + rest);
    lemma_take_chunk(encode_utf8(path), rest);
    encode_utf8_valid_utf8(path);
    encode_utf8_decode_utf8(path);
}

/// A field 3 is read as one more file.
pub proof fn lemma_parse_file(key: Seq<char>, contents: Seq<u8>, rest: Seq<u8>, acc: Partial)
    requires
        encode_utf8(key).len() <= u64::MAX,
        contents.len() <= u64::MAX,
    ensures
        parse(seq![3u8] + text_chunk(key) + chunk(contents) + rest, acc) == parse(
            rest,
            Partial { files: acc.files.push((key, contents)), ..acc },
        ),
{
    let bytes = seq![3u8] + text_chunk(key) + chunk(contents) + rest;
    assert(bytes.skip(1) =~= text_chunk(key) + (chunk(contents) + rest));
    lemma_take_chunk(encode_utf8(key), chunk(contents) + rest);
    lemma_take_chunk(contents, rest);
    encode_utf8_valid_utf8(key);
    encode_utf8_decode_utf8(key);
}

/// A field 4 is read as one more alias.
pub proof fn lemma_parse_alias(lit: Seq<char>, key: Seq<char>, rest: Seq<u8>, acc: Partial)
    requires
        encode_utf8(lit).len() <= u64::MAX,
        encode_utf8(key).len() <= u64::MAX,
    ensures
        parse(seq![4u8] + text_chunk(lit) + text_chunk(key) + rest, acc) == parse(
            rest,
            Partial { aliases: acc.aliases.push((lit, key)), ..acc },
        ),
{
    let bytes = seq![4u8] + text_chunk(lit) + text_chunk(key) + rest;
    assert(bytes.skip(1) =~= text_chunk(lit) + (text_chunk(key) + rest));
    lemma_take_chunk(encode_utf8(lit), text_chunk(key) + rest);
    lemma_take_chunk(encode_utf8(key), rest);
    encode_utf8_valid_utf8(lit);
    encode_utf8_decode_utf8(lit);
    encode_utf8_valid_utf8(key);
    encode_utf8_decode_utf8(key);
}

/// The fields of some files are read as those files, in order.
#[verifier::rlimit(50)]
#[verifier::spinoff_prover]
pub proof fn lemma_parse_files(files: Seq<(Seq<char>, Seq<u8>)>, rest: Seq<u8>, acc: Partial)
    requires
        forall|i: int|
            0 <= i < files.len() ==> encode_utf8((#[trigger] files[i]).0).len() <= u64::MAX
                && files[i].1.len() <= u64::MAX,
    ensures
        parse(encode_files(files) + rest, acc) == parse(
            rest,
            Partial { files: acc.files + files, ..acc },
        ),
    decreases files.len(),
{
    if files.len() == 0 {
        assert(encode_files(files) + rest =~= rest);
        assert(acc.files + files =~= acc.files);
    } else {
        let init = files.drop_last();
        let last = files.last();
        let field = seq![3u8] + text_chunk(last.0) + chunk(last.1) + rest;
        assert(encode_files(files) + rest =~= encode_files(init) + field);
        assert forall|i: int| 0 <= i < init.len() implies encode_utf8(
            (#[trigger] init[i]).0,
        ).len() <= u64::MAX && init[i].1.len() <= u64::MAX by {
            assert(init[i] == files[i]);
        }
        lemma_parse_files(init, field, acc);
        let mid = Partial { files: acc.files + init, ..acc };
        assert(files[files.len() - 1] == last);
        lemma_parse_file(last.0, last.1, rest, mid);
        assert((acc.files + init).push(last) =~= acc.files + files);
    }
}

/// The fields of some aliases are read as those aliases, in order.
#[verifier::rlimit(50)]
#[verifier::spinoff_prover]
pub proof fn lemma_parse_aliases(
    aliases: Seq<(Seq<char>, Seq<char>)>,
    rest: Seq<u8>,
    acc: Partial,
)
    requires
        forall|i: int|
            0 <= i < aliases.len() ==> encode_utf8((#[trigger] aliases[i]).0).len() <= u64::MAX
                && encode_utf8(aliases[i].1).len() <= u64::MAX,
    ensures
        parse(encode_aliases(aliases) + rest, acc) == parse(
            rest,
            Partial { aliases: acc.aliases + aliases, ..acc },
        ),
    decreases aliases.len(),
{
    if aliases.len() == 0 {
        assert(encode_aliases(aliases) + rest =~= rest);
        assert(acc.aliases + aliases =~= acc.aliases);
    } else {
        let init = aliases.drop_last();
        let last = aliases.last();
        let field = seq![4u8] + text_chunk(last.0) + text_chunk(last.1) + rest;
        assert(encode_aliases(aliases) + rest =~= encode_aliases(init) + field);
        assert forall|i: int| 0 <= i < init.len() implies encode_utf8(
            (#[trigger] init[i]).0,
        ).len() <= u64::MAX && encode_utf8(init[i].1).len() <= u64::MAX by {
            assert(init[i] == aliases[i]);
        }
        lemma_parse_aliases(init, field, acc);
        let mid = Partial { aliases: acc.aliases + init, ..acc };
        assert(aliases[aliases.len() - 1] == last);
        lemma_parse_alias(last.0, last.1, rest, mid);
        assert((acc.aliases + init).push(last) =~= acc.aliases + aliases);
    }
}

/// The payload of metadata is read back as that metadata.
pub proof fn lemma_parse_payload(m: MetadataView)
    requires
        fits(m),
    ensures
        parse(payload(m), nothing()) matches Some(acc) && finish(acc) == Some(m),
{
    let tail3 = encode_aliases(m.aliases);
    let tail2 = encode_files(m.files) + tail3;
    let tail1 = seq![2u8] + text_chunk(m.entry_path) + tail2;
    assert(payload(m) =~= seq![1u8] + chunk(m.source) + tail1);
    lemma_parse_source(m.source, tail1, nothing());
    let a1 = Partial { source: Some(m.source), ..nothing() };
    lemma_parse_entry(m.entry_path, tail2, a1);
    let a2 = Partial { entry_path: Some(m.entry_path), ..a1 };
    lemma_parse_files(m.files, tail3, a2);
    let a3 = Partial { files: a2.files + m.files, ..a2 };
    assert(tail3 =~= tail3 + Seq::<u8>::empty());
    lemma_parse_aliases(m.aliases, Seq::empty(), a3);
    let a4 = Partial { aliases: a3.aliases + m.aliases, ..a3 };
    assert(a2.files + m.files =~= m.files);
    assert(a3.aliases + m.aliases =~= m.aliases);
    assert(parse(Seq::<u8>::empty(), a4) == Some(a4));
}

/// Round trip: the encoding of any metadata, behind any host executable,
/// is decoded as that metadata.
pub proof fn law_round_trip(host: Seq<u8>, m: MetadataView)
    requires
        fits(m),
    ensures
        decoding(host + encoding(m)) == Ok::<MetadataView, MetadataError>(m),
{
    lemma_frame(host, payload(m));
    lemma_parse_payload(m);
}

/// Bytes that do not end with the magic marker, or are shorter than a
/// frame, are no standalone binary; bytes that end with it are never
/// taken for anything but a standalone binary, whole or corrupt.
pub proof fn law_not_standalone(bytes: Seq<u8>)
    ensures
        !is_standalone(bytes) <==> decoding(bytes) == Err::<MetadataView, MetadataError>(
            MetadataError::NotStandalone,
        ),
{
}

} // verus!
