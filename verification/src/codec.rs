//! The stored form of a model: one file, one model.
//!
//! The file begins with the number of words `N` as eight bytes, least
//! significant first, and a newline. One record per word follows, in the
//! order of the vocabulary: the word in UTF-8, a colon, the `N` components of
//! its vector as four bytes each, least significant first, and a newline.
use vstd::prelude::*;
use vstd::bytes::{
    spec_u32_from_le_bytes, spec_u32_to_le_bytes, spec_u64_from_le_bytes, spec_u64_to_le_bytes,
    u32_from_le_bytes, u32_to_le_bytes, u64_from_le_bytes, u64_to_le_bytes,
    lemma_auto_spec_u32_to_from_le_bytes, lemma_auto_spec_u64_to_from_le_bytes,
};
use vstd::slice::{slice_subrange, slice_to_vec};
use vstd::utf8::{decode_utf8, encode_utf8, valid_utf8};
use crate::error::Error;
use crate::models::{WordVec, WordVecView};
use crate::text::string_from_utf8;

verus! {

/// The byte that ends a word.
pub const COLON: u8 = 58;

/// The byte that ends the header and each record.
pub const NEWLINE: u8 = 10;

/// The components of a vector, four bytes each.
pub open spec fn encode_values(bits: Seq<u32>) -> Seq<u8>
    decreases bits.len(),
{
    if bits.len() == 0 {
        Seq::empty()
    } else {
        spec_u32_to_le_bytes(bits[0]) + encode_values(bits.drop_first())
    }
}

/// One record: the word, a colon, the components, a newline.
pub open spec fn encode_record(record: WordVecView) -> Seq<u8> {
    encode_utf8(record.word) + seq![COLON] + encode_values(record.bits) + seq![NEWLINE]
}

/// The records one after another.
pub open spec fn encode_records(records: Seq<WordVecView>) -> Seq<u8>
    decreases records.len(),
{
    if records.len() == 0 {
        Seq::empty()
    } else {
        encode_record(records[0]) + encode_records(records.drop_first())
    }
}

/// The whole file for the given records.
pub open spec fn encode(records: Seq<WordVecView>) -> Seq<u8> {
    spec_u64_to_le_bytes(records.len() as u64) + seq![NEWLINE] + encode_records(records)
}

/// Every vector has as many components as there are records.
pub open spec fn square(records: Seq<WordVecView>) -> bool {
    forall|i: int| 0 <= i < records.len() ==> (#[trigger] records[i]).bits.len() == records.len()
}

/// A word that a file can hold: it holds neither a colon nor a newline.
pub open spec fn storable_word(word: Seq<char>) -> bool {
    !word.contains(':') && !word.contains('\n')
}

/// Every word of the records is one that a file can hold.
pub open spec fn storable(records: Seq<WordVecView>) -> bool {
    forall|i: int| 0 <= i < records.len() ==> storable_word((#[trigger] records[i]).word)
}

/// `k` is the place of the first colon in `bytes`.
pub open spec fn first_colon_at(bytes: Seq<u8>, k: int) -> bool {
    &&& 0 <= k < bytes.len()
    &&& bytes[k] == COLON
    &&& forall|j: int| 0 <= j < k ==> bytes[j] != COLON
}

/// The place of the first colon in `bytes`, if there is a colon.
pub open spec fn first_colon(bytes: Seq<u8>) -> Option<int> {
    if exists|k: int| first_colon_at(bytes, k) {
        Some(choose|k: int| first_colon_at(bytes, k))
    } else {
        None
    }
}

/// The `n` components that `bytes` holds, four bytes each.
pub open spec fn decode_values(bytes: Seq<u8>, n: nat) -> Seq<u32> {
    Seq::new(n, |j: int| spec_u32_from_le_bytes(bytes.subrange(4 * j, 4 * j + 4)))
}

/// The number of bytes of a record whose word ends at `k`, in a file of
/// vectors with `dim` components.
pub open spec fn record_len(k: int, dim: nat) -> int {
    k + 1 + 4 * dim + 1
}

/// `bytes` begins with a whole record of `dim` components.
pub open spec fn record_ahead(bytes: Seq<u8>, dim: nat) -> bool {
    match first_colon(bytes) {
        None => false,
        Some(k) => {
            &&& valid_utf8(bytes.take(k))
            &&& record_len(k, dim) <= bytes.len()
            &&& bytes[record_len(k, dim) - 1] == NEWLINE
        },
    }
}

/// The record that `bytes` begins with.
pub open spec fn decode_record(bytes: Seq<u8>, dim: nat) -> WordVecView
    recommends
        record_ahead(bytes, dim),
{
    let k = first_colon(bytes)->0;
    WordVecView {
        word: decode_utf8(bytes.take(k)),
        bits: decode_values(bytes.subrange(k + 1, k + 1 + 4 * dim), dim),
    }
}

/// The `count` records of `dim` components each that make up `bytes`
/// exactly, if `bytes` is made up so.
pub open spec fn decode_records(bytes: Seq<u8>, count: nat, dim: nat) -> Option<Seq<WordVecView>>
    decreases count,
{
    if count == 0 {
        if bytes.len() == 0 {
            Some(Seq::empty())
        } else {
            None
        }
    } else if !record_ahead(bytes, dim) {
        None
    } else {
        let k = first_colon(bytes)->0;
        match decode_records(bytes.skip(record_len(k, dim)), (count - 1) as nat, dim) {
            None => None,
            Some(rest) => Some(seq![decode_record(bytes, dim)] + rest),
        }
    }
}

/// The records of a file, if the bytes are a well-formed file: a header of
/// nine bytes that ends in a newline, then exactly as many records as the
/// header says, each with that many components, and nothing behind them.
pub open spec fn decode(bytes: Seq<u8>) -> Option<Seq<WordVecView>> {
    if bytes.len() < 9 || bytes[8] != NEWLINE {
        None
    } else {
        let n = spec_u64_from_le_bytes(bytes.take(8)) as nat;
        decode_records(bytes.skip(9), n, n)
    }
}

/// The views of the records of a vector.
pub open spec fn views(records: Seq<WordVec>) -> Seq<WordVecView> {
    records.map_values(|w: WordVec| w@)
}

proof fn lemma_encode_values_push(bits: Seq<u32>, last: u32)
    ensures
        encode_values(bits.push(last)) == encode_values(bits) + spec_u32_to_le_bytes(last),
    decreases bits.len(),
{
    if bits.len() == 0 {
        assert(bits.push(last).drop_first() =~= Seq::<u32>::empty());
        assert(encode_values(bits.push(last)) =~= spec_u32_to_le_bytes(last) + encode_values(
            Seq::<u32>::empty(),
        ));
        assert(encode_values(bits.push(last)) =~= encode_values(bits) + spec_u32_to_le_bytes(last));
    } else {
        assert(bits.push(last).drop_first() =~= bits.drop_first().push(last));
        lemma_encode_values_push(bits.drop_first(), last);
        assert(encode_values(bits.push(last)) =~= encode_values(bits) + spec_u32_to_le_bytes(last));
    }
}

proof fn lemma_encode_records_push(records: Seq<WordVecView>, last: WordVecView)
    ensures
        encode_records(records.push(last)) == encode_records(records) + encode_record(last),
    decreases records.len(),
{
    if records.len() == 0 {
        assert(records.push(last).drop_first() =~= Seq::<WordVecView>::empty());
        assert(encode_records(records.push(last)) =~= encode_record(last) + encode_records(
            Seq::<WordVecView>::empty(),
        ));
        assert(encode_records(records.push(last)) =~= encode_records(records) + encode_record(last));
    } else {
        assert(records.push(last).drop_first() =~= records.drop_first().push(last));
        lemma_encode_records_push(records.drop_first(), last);
        assert(encode_records(records.push(last)) =~= encode_records(records) + encode_record(last));
    }
}

/// Whether the word is one that a file can hold.
fn word_fits(word: &str) -> (r: bool)
    ensures
        r == storable_word(word@),
{
    let chars = crate::text::chars_of(word);
    let mut i: usize = 0;
    while i < chars.len()
        invariant
            i <= chars.len(),
            chars@ == word@,
            forall|j: int| 0 <= j < i ==> chars@[j] != ':' && chars@[j] != '\n',
        decreases chars.len() - i,
    {
        if chars[i] == ':' || chars[i] == '\n' {
            assert(word@.contains(chars@[i as int]));
            return false;
        }
        i += 1;
    }
    true
}

/// Whether every word of the records is one that a file can hold.
pub fn can_store(records: &Vec<WordVec>) -> (r: bool)
    ensures
        r == storable(views(records@)),
{
    let mut i: usize = 0;
    while i < records.len()
        invariant
            i <= records.len(),
            forall|j: int| 0 <= j < i ==> storable_word((#[trigger] views(records@)[j]).word),
        decreases records.len() - i,
    {
        assert(views(records@)[i as int].word == records@[i as int].word@);
        if !word_fits(records[i].word.as_str()) {
            return false;
        }
        i += 1;
    }
    true
}

/// Appends the components of a vector to `out`.
fn write_values(out: &mut Vec<u8>, bits: &Vec<u32>)
    ensures
        final(out)@ == old(out)@ + encode_values(bits@),
{
    let mut j: usize = 0;
    assert(old(out)@ + encode_values(bits@.take(0)) =~= old(out)@);
    while j < bits.len()
        invariant
            j <= bits.len(),
            out@ == old(out)@ + encode_values(bits@.take(j as int)),
        decreases bits.len() - j,
    {
        let four = u32_to_le_bytes(bits[j]);
        out.extend_from_slice(four.as_slice());
        proof {
            lemma_encode_values_push(bits@.take(j as int), bits@[j as int]);
            assert(bits@.take(j as int).push(bits@[j as int]) =~= bits@.take(j + 1));
            assert(out@ =~= old(out)@ + encode_values(bits@.take(j + 1)));
        }
        j += 1;
    }
    assert(bits@.take(bits.len() as int) =~= bits@);
}

/// Appends one record to `out`.
fn write_record(out: &mut Vec<u8>, record: &WordVec)
    ensures
        final(out)@ == old(out)@ + encode_record(record@),
{
    out.extend_from_slice(record.word.as_str().as_bytes());
    out.push(COLON);
    write_values(out, &record.vec);
    out.push(NEWLINE);
    assert(out@ =~= old(out)@ + encode_record(record@));
}

/// The bytes of the file that stores the given records.
pub fn write_model(records: &Vec<WordVec>) -> (out: Vec<u8>)
    ensures
        out@ == encode(views(records@)),
{
    let mut out = u64_to_le_bytes(records.len() as u64);
    out.push(NEWLINE);
    let ghost head = out@;
    let mut i: usize = 0;
    assert(views(records@).take(0) =~= Seq::<WordVecView>::empty());
    assert(head + encode_records(views(records@).take(0)) =~= head);
    while i < records.len()
        invariant
            i <= records.len(),
            head == spec_u64_to_le_bytes(records.len() as u64) + seq![NEWLINE],
            out@ == head + encode_records(views(records@).take(i as int)),
        decreases records.len() - i,
    {
        write_record(&mut out, &records[i]);
        proof {
            let done = views(records@).take(i as int);
            lemma_encode_records_push(done, records@[i as int]@);
            assert(done.push(records@[i as int]@) =~= views(records@).take(i + 1));
            assert(out@ =~= head + encode_records(views(records@).take(i + 1)));
        }
        i += 1;
    }
    assert(views(records@).take(records.len() as int) =~= views(records@));
    out
}

/// There is at most one first colon.
proof fn lemma_first_colon(bytes: Seq<u8>, k: int)
    requires
        first_colon_at(bytes, k),
    ensures
        first_colon(bytes) == Some(k),
{
    let c = choose|c: int| first_colon_at(bytes, c);
    assert(first_colon_at(bytes, c));
    if c < k {
        assert(bytes[c] != COLON);
    } else if k < c {
        assert(bytes[k] != COLON);
    }
}

/// The place of the first colon at or behind `from`.
fn find_colon(bytes: &[u8], from: usize) -> (r: Option<usize>)
    requires
        from <= bytes.len(),
    ensures
        match r {
            Some(k) => from <= k < bytes.len() && first_colon(bytes@.skip(from as int)) == Some(
                k - from,
            ),
            None => first_colon(bytes@.skip(from as int)) is None,
        },
{
    let ghost rest = bytes@.skip(from as int);
    let mut k: usize = from;
    while k < bytes.len()
        invariant
            from <= k <= bytes.len(),
            rest == bytes@.skip(from as int),
            forall|j: int| 0 <= j < k - from ==> rest[j] != COLON,
        decreases bytes.len() - k,
    {
        if bytes[k] == COLON {
            proof {
                assert(rest[k - from] == bytes@[k as int]);
                lemma_first_colon(rest, k - from);
            }
            return Some(k);
        }
        assert(rest[k - from] == bytes@[k as int]);
        k += 1;
    }
    proof {
        if exists|c: int| first_colon_at(rest, c) {
            let c = choose|c: int| first_colon_at(rest, c);
            assert(rest[c] != COLON);
        }
    }
    None
}

/// The `n` components stored from `start` on.
fn read_values(bytes: &[u8], start: usize, n: usize) -> (v: Vec<u32>)
    requires
        start + 4 * n <= bytes.len(),
    ensures
        v@ == decode_values(bytes@.subrange(start as int, start + 4 * n), n as nat),
{
    let ghost block = bytes@.subrange(start as int, start + 4 * n);
    let mut v: Vec<u32> = Vec::new();
    let mut j: usize = 0;
    while j < n
        invariant
            j <= n,
            start + 4 * n <= bytes.len(),
            block == bytes@.subrange(start as int, start + 4 * n),
            v@ == decode_values(block, j as nat),
        decreases n - j,
    {
        let four = slice_subrange(bytes, start + 4 * j, start + 4 * j + 4);
        let x = u32_from_le_bytes(four);
        v.push(x);
        proof {
            assert(four@ =~= block.subrange(4 * j, 4 * j + 4));
            assert(v@ =~= decode_values(block, (j + 1) as nat));
        }
        j += 1;
    }
    v
}

/// The record that begins at `pos`, with the place behind it.
fn read_record(bytes: &[u8], pos: usize, dim: usize) -> (r: Option<(WordVec, usize)>)
    requires
        pos <= bytes.len(),
    ensures
        match r {
            Some((record, next)) => {
                &&& record_ahead(bytes@.skip(pos as int), dim as nat)
                &&& record@ == decode_record(bytes@.skip(pos as int), dim as nat)
                &&& next == pos + record_len(first_colon(bytes@.skip(pos as int))->0, dim as nat)
                &&& next <= bytes.len()
            },
            None => !record_ahead(bytes@.skip(pos as int), dim as nat),
        },
{
    let ghost rest = bytes@.skip(pos as int);
    let colon = match find_colon(bytes, pos) {
        Some(k) => k,
        None => {
            return None;
        },
    };
    let ghost k = colon - pos;
    let left: usize = bytes.len() - colon - 1;
    if left == 0 || dim > (left - 1) / 4 {
        return None;
    }
    let end: usize = colon + 1 + 4 * dim;
    if bytes[end] != NEWLINE {
        assert(rest[record_len(k, dim as nat) - 1] == bytes@[end as int]);
        return None;
    }
    assert(rest[record_len(k, dim as nat) - 1] == bytes@[end as int]);
    let name = slice_to_vec(slice_subrange(bytes, pos, colon));
    assert(name@ =~= rest.take(k));
    let word = match string_from_utf8(name) {
        Some(w) => w,
        None => {
            return None;
        },
    };
    let vec = read_values(bytes, colon + 1, dim);
    assert(bytes@.subrange(colon + 1, colon + 1 + 4 * dim) =~= rest.subrange(
        k + 1,
        k + 1 + 4 * dim,
    ));
    Some((WordVec { word, vec }, end + 1))
}

/// The records that the bytes of a file store. Fails with `FormatError`
/// exactly when the bytes are not a well-formed file.
pub fn read_model(bytes: &[u8]) -> (r: Result<Vec<WordVec>, Error>)
    ensures
        match r {
            Ok(records) => decode(bytes@) == Some(views(records@)),
            Err(e) => e@ == crate::error::ErrorView::FormatError && decode(bytes@) is None,
        },
{
    if bytes.len() < 9 || bytes[8] != NEWLINE {
        return Err(Error::FormatError);
    }
    let head = slice_subrange(bytes, 0, 8);
    assert(head@ =~= bytes@.take(8));
    let n: u64 = u64_from_le_bytes(head);
    let ghost body = bytes@.skip(9);
    if n > bytes.len() as u64 {
        proof {
            if record_ahead(body, n as nat) {
                let k = first_colon(body)->0;
                assert(record_len(k, n as nat) <= body.len());
                if !first_colon_at(body, k) {
                    assert(exists|c: int| first_colon_at(body, c));
                }
            }
        }
        return Err(Error::FormatError);
    }
    let dim: usize = n as usize;
    let mut records: Vec<WordVec> = Vec::new();
    let mut pos: usize = 9;
    let mut i: usize = 0;
    assert(views(records@) =~= Seq::<WordVecView>::empty());
    assert(bytes@.skip(9) == body);
    assert(match decode_records(bytes@.skip(pos as int), (dim - i) as nat, dim as nat) {
        None => decode_records(body, dim as nat, dim as nat) is None,
        Some(rest) => decode_records(body, dim as nat, dim as nat) == Some(views(records@) + rest),
    }) by {
        match decode_records(body, dim as nat, dim as nat) {
            None => {},
            Some(rest) => {
                assert(views(records@) + rest =~= rest);
            },
        }
    }
    while i < dim
        invariant
            i <= dim,
            9 <= pos <= bytes.len(),
            records.len() == i,
            body == bytes@.skip(9),
            decode(bytes@) == decode_records(body, dim as nat, dim as nat),
            match decode_records(bytes@.skip(pos as int), (dim - i) as nat, dim as nat) {
                None => decode_records(body, dim as nat, dim as nat) is None,
                Some(rest) => decode_records(body, dim as nat, dim as nat) == Some(
                    views(records@) + rest,
                ),
            },
        decreases dim - i,
    {
        let ghost here = bytes@.skip(pos as int);
        let ghost before = views(records@);
        match read_record(bytes, pos, dim) {
            None => {
                assert(decode_records(here, (dim - i) as nat, dim as nat) is None);
                return Err(Error::FormatError);
            },
            Some((record, next)) => {
                proof {
                    let k = first_colon(here)->0;
                    assert(here.skip(record_len(k, dim as nat)) =~= bytes@.skip(next as int));
                    let tail = decode_records(
                        bytes@.skip(next as int),
                        (dim - i - 1) as nat,
                        dim as nat,
                    );
                    assert(views(records@.push(record)) =~= before.push(record@));
                    match tail {
                        None => {},
                        Some(rest) => {
                            assert(before + (seq![record@] + rest) =~= before.push(record@) + rest);
                        },
                    }
                }
                records.push(record);
                pos = next;
            },
        }
        i += 1;
    }
    if pos != bytes.len() {
        assert(bytes@.skip(pos as int).len() != 0);
        return Err(Error::FormatError);
    }
    proof {
        assert(bytes@.skip(pos as int).len() == 0);
        assert(views(records@) + Seq::<WordVecView>::empty() =~= views(records@));
    }
    Ok(records)
}

/// The encoding of a character other than the colon holds no colon byte.
proof fn lemma_scalar_without_colon(scalar: u32)
    requires
        vstd::utf8::is_scalar(scalar),
        scalar != 58,
    ensures
        forall|j: int|
            0 <= j < vstd::utf8::encode_scalar(scalar).len() ==> vstd::utf8::encode_scalar(
                scalar,
            )[j] != COLON,
{
    assert(scalar <= 0x7f ==> (scalar & 0x7F) as u8 != 58u8) by (bit_vector)
        requires
            scalar != 58,
    ;
    assert(0xC0u8 | ((scalar >> 6) & 0x1F) as u8 != 58u8) by (bit_vector);
    assert(0xE0u8 | ((scalar >> 12) & 0x0F) as u8 != 58u8) by (bit_vector);
    assert(0xF0u8 | ((scalar >> 18) & 0x7) as u8 != 58u8) by (bit_vector);
    assert(0x80u8 | (scalar & 0x3F) as u8 != 58u8) by (bit_vector);
    assert(0x80u8 | ((scalar >> 6) & 0x3F) as u8 != 58u8) by (bit_vector);
    assert(0x80u8 | ((scalar >> 12) & 0x3F) as u8 != 58u8) by (bit_vector);
}

/// The encoding of a text without a colon holds no colon byte.
proof fn lemma_text_without_colon(text: Seq<char>)
    requires
        !text.contains(':'),
    ensures
        forall|j: int| 0 <= j < encode_utf8(text).len() ==> encode_utf8(text)[j] != COLON,
    decreases text.len(),
{
    if text.len() > 0 {
        let first = text[0];
        assert(text.contains(first));
        vstd::utf8::char_is_scalar(first);
        assert(first as u32 != 58) by {
            if first as u32 == 58 {
                vstd::utf8::char_u32_cast(first, 58u32);
                vstd::utf8::char_u32_cast(':', 58u32);
            }
        }
        lemma_scalar_without_colon(first as u32);
        assert forall|c: char| text.drop_first().contains(c) implies text.contains(c) by {
            let i = choose|i: int| 0 <= i < text.drop_first().len() && text.drop_first()[i] == c;
            assert(text[i + 1] == c);
        }
        lemma_text_without_colon(text.drop_first());
        let head = vstd::utf8::encode_scalar(first as u32);
        let tail = encode_utf8(text.drop_first());
        assert forall|j: int| 0 <= j < (head + tail).len() implies (head + tail)[j] != COLON by {
            if j < head.len() {
                assert((head + tail)[j] == head[j]);
            } else {
                assert((head + tail)[j] == tail[j - head.len()]);
            }
        }
    }
}

proof fn lemma_encode_values_len(bits: Seq<u32>)
    ensures
        encode_values(bits).len() == 4 * bits.len(),
    decreases bits.len(),
{
    lemma_auto_spec_u32_to_from_le_bytes();
    if bits.len() > 0 {
        lemma_encode_values_len(bits.drop_first());
    }
}

proof fn lemma_encode_values_at(bits: Seq<u32>, j: int)
    requires
        0 <= j < bits.len(),
    ensures
        encode_values(bits).len() == 4 * bits.len(),
        encode_values(bits).subrange(4 * j, 4 * j + 4) == spec_u32_to_le_bytes(bits[j]),
    decreases bits.len(),
{
    lemma_auto_spec_u32_to_from_le_bytes();
    lemma_encode_values_len(bits);
    lemma_encode_values_len(bits.drop_first());
    let first = spec_u32_to_le_bytes(bits[0]);
    let rest = encode_values(bits.drop_first());
    if j == 0 {
        assert((first + rest).subrange(0, 4) =~= first);
    } else {
        lemma_encode_values_at(bits.drop_first(), j - 1);
        assert((first + rest).subrange(4 * j, 4 * j + 4) =~= rest.subrange(
            4 * (j - 1),
            4 * (j - 1) + 4,
        ));
    }
}

/// The components read back from their bytes are the components.
proof fn lemma_decode_values(bits: Seq<u32>)
    ensures
        decode_values(encode_values(bits), bits.len()) == bits,
{
    lemma_auto_spec_u32_to_from_le_bytes();
    assert forall|j: int| 0 <= j < bits.len() implies decode_values(
        encode_values(bits),
        bits.len(),
    )[j] == bits[j] by {
        lemma_encode_values_at(bits, j);
        assert(spec_u32_to_le_bytes(bits[j]).len() == 4);
    }
    assert(decode_values(encode_values(bits), bits.len()) =~= bits);
}

/// A record in front of any bytes is read back as it was written, and the
/// reading ends where those bytes begin.
proof fn lemma_decode_record(record: WordVecView, tail: Seq<u8>)
    requires
        !record.word.contains(':'),
    ensures
        ({
            let bytes = encode_record(record) + tail;
            let dim = record.bits.len();
            &&& first_colon(bytes) == Some(encode_utf8(record.word).len() as int)
            &&& record_ahead(bytes, dim)
            &&& decode_record(bytes, dim) == record
            &&& bytes.skip(record_len(encode_utf8(record.word).len() as int, dim)) == tail
        }),
{
    let name = encode_utf8(record.word);
    let values = encode_values(record.bits);
    let bytes = encode_record(record) + tail;
    let k = name.len() as int;
    let dim = record.bits.len();
    lemma_text_without_colon(record.word);
    lemma_encode_values_len(record.bits);
    assert(bytes[k] == COLON);
    assert forall|j: int| 0 <= j < k implies bytes[j] != COLON by {
        assert(bytes[j] == name[j]);
    }
    lemma_first_colon(bytes, k);
    assert(bytes.take(k) =~= name);
    vstd::utf8::encode_utf8_valid_utf8(record.word);
    vstd::utf8::encode_utf8_decode_utf8(record.word);
    assert(bytes[record_len(k, dim) - 1] == NEWLINE);
    assert(bytes.subrange(k + 1, k + 1 + 4 * dim) =~= values);
    lemma_decode_values(record.bits);
    assert(bytes.skip(record_len(k, dim)) =~= tail);
}

proof fn lemma_decode_records(records: Seq<WordVecView>, dim: nat)
    requires
        forall|i: int| 0 <= i < records.len() ==> (#[trigger] records[i]).bits.len() == dim,
        forall|i: int| 0 <= i < records.len() ==> !(#[trigger] records[i]).word.contains(':'),
    ensures
        decode_records(encode_records(records), records.len(), dim) == Some(records),
    decreases records.len(),
{
    if records.len() == 0 {
        assert(records =~= Seq::<WordVecView>::empty());
    } else {
        let rest = records.drop_first();
        lemma_decode_record(records[0], encode_records(rest));
        lemma_decode_records(rest, dim);
        assert(seq![records[0]] + rest =~= records);
    }
}

/// Reading a file that was written gives back what was written: the same
/// words in the same order, each with the same components bit for bit. This
/// holds of records whose vectors have as many components as there are
/// records, and whose words hold no colon.
pub proof fn lemma_decode_encode(records: Seq<WordVecView>)
    requires
        square(records),
        records.len() <= u64::MAX,
        forall|i: int| 0 <= i < records.len() ==> !(#[trigger] records[i]).word.contains(':'),
    ensures
        decode(encode(records)) == Some(records),
{
    lemma_auto_spec_u64_to_from_le_bytes();
    let n = records.len() as u64;
    let head = spec_u64_to_le_bytes(n);
    let bytes = encode(records);
    assert(bytes.take(8) =~= head);
    assert(bytes[8] == NEWLINE);
    assert(bytes.skip(9) =~= encode_records(records));
    lemma_decode_records(records, records.len());
}

proof fn lemma_decode_records_square(bytes: Seq<u8>, count: nat, dim: nat)
    requires
        decode_records(bytes, count, dim) is Some,
    ensures
        decode_records(bytes, count, dim)->0.len() == count,
        forall|i: int|
            0 <= i < count ==> (#[trigger] decode_records(bytes, count, dim)->0[i]).bits.len()
                == dim,
    decreases count,
{
    if count > 0 {
        let k = first_colon(bytes)->0;
        lemma_decode_records_square(bytes.skip(record_len(k, dim)), (count - 1) as nat, dim);
    }
}

/// What is read from a well-formed file has one vector per word, and each
/// vector has one component per word.
pub proof fn lemma_decode_square(bytes: Seq<u8>)
    requires
        decode(bytes) is Some,
    ensures
        square(decode(bytes)->0),
{
    let n = spec_u64_from_le_bytes(bytes.take(8)) as nat;
    lemma_decode_records_square(bytes.skip(9), n, n);
}

/// The bytes of components that were read are the bytes they were read from.
proof fn lemma_encode_decoded_values(block: Seq<u8>, n: nat)
    requires
        block.len() == 4 * n,
    ensures
        encode_values(decode_values(block, n)) == block,
    decreases n,
{
    lemma_auto_spec_u32_to_from_le_bytes();
    let bits = decode_values(block, n);
    if n == 0 {
        assert(block =~= Seq::<u8>::empty());
    } else {
        let rest = block.skip(4);
        lemma_encode_decoded_values(rest, (n - 1) as nat);
        assert forall|j: int| 0 <= j < n - 1 implies bits.drop_first()[j] == decode_values(
            rest,
            (n - 1) as nat,
        )[j] by {
            assert(rest.subrange(4 * j, 4 * j + 4) =~= block.subrange(4 * (j + 1), 4 * (j + 1) + 4));
        }
        assert(bits.drop_first() =~= decode_values(rest, (n - 1) as nat));
        assert(block.subrange(0, 4).len() == 4);
        assert(spec_u32_to_le_bytes(bits[0]) == block.subrange(0, 4));
        assert(block.subrange(0, 4) + rest =~= block);
    }
}

proof fn lemma_encode_decoded_records(bytes: Seq<u8>, count: nat, dim: nat)
    requires
        decode_records(bytes, count, dim) is Some,
    ensures
        encode_records(decode_records(bytes, count, dim)->0) == bytes,
    decreases count,
{
    if count == 0 {
        assert(bytes =~= Seq::<u8>::empty());
    } else {
        let k = first_colon(bytes)->0;
        assert(first_colon_at(bytes, k));
        let len = record_len(k, dim);
        let tail = bytes.skip(len);
        let record = decode_record(bytes, dim);
        let others = decode_records(tail, (count - 1) as nat, dim)->0;
        let block = bytes.subrange(k + 1, k + 1 + 4 * dim);
        lemma_encode_decoded_records(tail, (count - 1) as nat, dim);
        lemma_encode_decoded_values(block, dim);
        vstd::utf8::decode_utf8_encode_utf8(bytes.take(k));
        assert(encode_record(record) =~= bytes.take(len));
        assert((seq![record] + others).drop_first() =~= others);
        assert(bytes.take(len) + tail =~= bytes);
    }
}

/// A well-formed file is written in only one way: writing what is read from
/// it gives back its bytes.
pub proof fn lemma_encode_decode(bytes: Seq<u8>)
    requires
        decode(bytes) is Some,
    ensures
        encode(decode(bytes)->0) == bytes,
{
    lemma_auto_spec_u64_to_from_le_bytes();
    let n = spec_u64_from_le_bytes(bytes.take(8));
    lemma_decode_records_square(bytes.skip(9), n as nat, n as nat);
    lemma_encode_decoded_records(bytes.skip(9), n as nat, n as nat);
    assert(bytes.take(8).len() == 8);
    assert(bytes.take(8) + seq![NEWLINE] + bytes.skip(9) =~= bytes);
}

} // verus!
