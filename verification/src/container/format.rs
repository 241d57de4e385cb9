//! The records of the container other than the revision log: the index,
//! the descriptor and the tagged training payload.

use crate::codec::wire::{
    holds, lemma_bytes_at, lemma_holds_concat, lemma_le32_len, lemma_le64_len, lemma_u32_at,
    lemma_u64_at, read_bytes, read_u32, read_u64, spec_bytes_at, spec_encode_bytes, spec_le32,
    spec_le64, spec_u32_at, spec_u64_at, write_bytes, write_u32, write_u64,
};
use crate::error::{CorruptReason, MdaError};
use crate::text::string_from_utf8;
use vstd::prelude::*;
use vstd::utf8::{encode_utf8, valid_utf8};

verus! {

/// Size in bytes of the index record at the start of an archive.
pub const INDEX_SIZE: usize = 32;

/// Absolute byte offsets of the four regions that follow the index.
#[derive(Clone, Copy, Debug, PartialEq, Eq, Structural)]
pub struct MDAIndex {
    pub header_offset: u64,
    pub train_data_offset: u64,
    pub anno_headers_offset: u64,
    pub anno_entries_offset: u64,
}

/// The media kind of a training payload.
#[derive(Clone, Copy, Debug, PartialEq, Eq, Structural)]
pub enum DataType {
    Text,
    Image,
    Video,
    Audio,
}

/// Mathematical model of [`TrainingData`]: the kind and the raw payload.
pub struct TrainingSpec {
    pub kind: DataType,
    pub payload: Seq<u8>,
}

/// One unit of training data, tagged with its media kind.
#[derive(Debug, PartialEq, Eq)]
pub enum TrainingData {
    Text(String),
    Image(Vec<u8>),
    Video(Vec<u8>),
    Audio(Vec<u8>),
}

impl View for TrainingData {
    type V = TrainingSpec;

    open spec fn view(&self) -> TrainingSpec {
        match self {
            TrainingData::Text(text) => TrainingSpec {
                kind: DataType::Text,
                payload: encode_utf8(text@),
            },
            TrainingData::Image(bytes) => TrainingSpec { kind: DataType::Image, payload: bytes@ },
            TrainingData::Video(bytes) => TrainingSpec { kind: DataType::Video, payload: bytes@ },
            TrainingData::Audio(bytes) => TrainingSpec { kind: DataType::Audio, payload: bytes@ },
        }
    }
}

/// The descriptor of the training payload, kept as the opaque record that
/// stands between the index and the training data.
#[derive(Debug, PartialEq, Eq)]
pub struct Header {
    pub record: Vec<u8>,
}

impl View for Header {
    type V = Seq<u8>;

    open spec fn view(&self) -> Seq<u8> {
        self.record@
    }
}

impl Clone for TrainingData {
    fn clone(&self) -> (res: Self)
        ensures
            res@ == self@,
    {
        match self {
            TrainingData::Text(text) => TrainingData::Text(text.clone()),
            TrainingData::Image(bytes) => TrainingData::Image(bytes.clone()),
            TrainingData::Video(bytes) => TrainingData::Video(bytes.clone()),
            TrainingData::Audio(bytes) => TrainingData::Audio(bytes.clone()),
        }
    }
}

impl Clone for Header {
    fn clone(&self) -> (res: Self)
        ensures
            res@ == self@,
    {
        Header { record: self.record.clone() }
    }
}

/// The index on the wire: its four offsets in declaration order.
pub open spec fn spec_encode_index(index: MDAIndex) -> Seq<u8> {
    spec_le64(index.header_offset) + spec_le64(index.train_data_offset) + spec_le64(
        index.anno_headers_offset,
    ) + spec_le64(index.anno_entries_offset)
}

/// The index record that stands at the start of `b`.
pub open spec fn spec_index_at(b: Seq<u8>) -> Option<MDAIndex> {
    if b.len() >= INDEX_SIZE {
        Some(
            MDAIndex {
                header_offset: spec_u64_at(b, 0).unwrap().0,
                train_data_offset: spec_u64_at(b, 8).unwrap().0,
                anno_headers_offset: spec_u64_at(b, 16).unwrap().0,
                anno_entries_offset: spec_u64_at(b, 24).unwrap().0,
            },
        )
    } else {
        None
    }
}

/// The regions named by `index` follow the index record in order and end
/// within a file of `len` bytes.
pub open spec fn index_in_range(index: MDAIndex, len: int) -> bool {
    INDEX_SIZE <= index.header_offset <= index.train_data_offset <= index.anno_headers_offset
        <= index.anno_entries_offset <= len
}

/// The index of the archive `b`, accepted only where its regions are in
/// order and inside the file.
pub open spec fn spec_read_index(b: Seq<u8>) -> Result<MDAIndex, MdaError> {
    match spec_index_at(b) {
        None => Err(MdaError::CorruptArchive(CorruptReason::TruncatedIndex)),
        Some(index) => if index_in_range(index, b.len() as int) {
            Ok(index)
        } else {
            Err(MdaError::CorruptArchive(CorruptReason::RegionOutOfRange))
        },
    }
}

/// The index record has a fixed size.
pub proof fn lemma_index_len(index: MDAIndex)
    ensures
        spec_encode_index(index).len() == INDEX_SIZE,
{
    lemma_le64_len(index.header_offset);
    lemma_le64_len(index.train_data_offset);
    lemma_le64_len(index.anno_headers_offset);
    lemma_le64_len(index.anno_entries_offset);
}

/// An index record that stands at the start of `b` is read back from it.
pub proof fn lemma_index_written(b: Seq<u8>, index: MDAIndex)
    requires
        holds(b, 0, spec_encode_index(index)),
    ensures
        spec_index_at(b) == Some(index),
{
    lemma_index_len(index);
    lemma_le64_len(index.header_offset);
    lemma_le64_len(index.train_data_offset);
    lemma_le64_len(index.anno_headers_offset);
    lemma_le64_len(index.anno_entries_offset);
    let part1 = spec_le64(index.header_offset);
    let part2 = part1 + spec_le64(index.train_data_offset);
    let part3 = part2 + spec_le64(index.anno_headers_offset);
    lemma_holds_concat(b, 0, part1, spec_le64(index.train_data_offset));
    lemma_holds_concat(b, 0, part2, spec_le64(index.anno_headers_offset));
    lemma_holds_concat(b, 0, part3, spec_le64(index.anno_entries_offset));
    lemma_u64_at(b, 0);
    lemma_u64_at(b, 8);
    lemma_u64_at(b, 16);
    lemma_u64_at(b, 24);
}

/// An index record that was read from `b` stands at the start of `b`.
pub proof fn lemma_index_read(b: Seq<u8>)
    requires
        spec_index_at(b).is_some(),
    ensures
        holds(b, 0, spec_encode_index(spec_index_at(b).unwrap())),
{
    let index = spec_index_at(b).unwrap();
    lemma_index_len(index);
    lemma_le64_len(index.header_offset);
    lemma_le64_len(index.train_data_offset);
    lemma_le64_len(index.anno_headers_offset);
    lemma_le64_len(index.anno_entries_offset);
    let part1 = spec_le64(index.header_offset);
    let part2 = part1 + spec_le64(index.train_data_offset);
    let part3 = part2 + spec_le64(index.anno_headers_offset);
    lemma_u64_at(b, 0);
    lemma_u64_at(b, 8);
    lemma_u64_at(b, 16);
    lemma_u64_at(b, 24);
    lemma_holds_concat(b, 0, part1, spec_le64(index.train_data_offset));
    lemma_holds_concat(b, 0, part2, spec_le64(index.anno_headers_offset));
    lemma_holds_concat(b, 0, part3, spec_le64(index.anno_entries_offset));
}

/// The tag that stands for a media kind on the wire.
pub open spec fn spec_kind_tag(kind: DataType) -> u32 {
    match kind {
        DataType::Text => 0,
        DataType::Image => 1,
        DataType::Video => 2,
        DataType::Audio => 3,
    }
}

/// The media kind that a tag stands for.
pub open spec fn spec_kind_of_tag(tag: u32) -> Option<DataType> {
    if tag == 0 {
        Some(DataType::Text)
    } else if tag == 1 {
        Some(DataType::Image)
    } else if tag == 2 {
        Some(DataType::Video)
    } else if tag == 3 {
        Some(DataType::Audio)
    } else {
        None
    }
}

/// A training payload is storable where it is short enough for its length
/// prefix and, for text, is valid UTF-8.
pub open spec fn training_valid(t: TrainingSpec) -> bool {
    &&& t.payload.len() <= u64::MAX
    &&& t.kind == DataType::Text ==> valid_utf8(t.payload)
}

/// The training-data region: the kind's tag as a 32-bit integer, then the
/// payload with its length prefix.
pub open spec fn spec_encode_training(t: TrainingSpec) -> Seq<u8> {
    spec_le32(spec_kind_tag(t.kind)) + spec_encode_bytes(t.payload)
}

/// The training data that the region `b` holds. The payload must fill the
/// region to its end.
pub open spec fn spec_decode_training(b: Seq<u8>) -> Result<TrainingSpec, MdaError> {
    match spec_u32_at(b, 0) {
        None => Err(MdaError::CorruptArchive(CorruptReason::BadTrainingData)),
        Some((tag, p)) => match spec_kind_of_tag(tag) {
            None => Err(MdaError::MediaKindUnknown),
            Some(kind) => match spec_bytes_at(b, p) {
                None => Err(MdaError::CorruptArchive(CorruptReason::BadTrainingData)),
                Some((payload, end)) => if end != b.len() {
                    Err(MdaError::CorruptArchive(CorruptReason::BadTrainingData))
                } else if kind == DataType::Text && !valid_utf8(payload) {
                    Err(MdaError::CorruptArchive(CorruptReason::InvalidText))
                } else {
                    Ok(TrainingSpec { kind, payload })
                },
            },
        },
    }
}

/// Decoding a training-data region inverts encoding it.
pub proof fn lemma_decode_encode_training(t: TrainingSpec)
    requires
        training_valid(t),
    ensures
        spec_decode_training(spec_encode_training(t)) == Ok::<TrainingSpec, MdaError>(t),
        spec_encode_training(t).len() == 12 + t.payload.len(),
{
    let b = spec_encode_training(t);
    let tag = spec_le32(spec_kind_tag(t.kind));
    lemma_le32_len(spec_kind_tag(t.kind));
    lemma_le64_len(t.payload.len() as u64);
    assert(b.subrange(0, b.len() as int) =~= b);
    lemma_holds_concat(b, 0, tag, spec_encode_bytes(t.payload));
    lemma_u32_at(b, 0);
    lemma_bytes_at(b, 4);
}

/// A region that decodes to training data is the encoding of that data.
pub proof fn lemma_encode_decode_training(b: Seq<u8>)
    requires
        spec_decode_training(b).is_ok(),
    ensures
        spec_encode_training(spec_decode_training(b).unwrap()) == b,
        training_valid(spec_decode_training(b).unwrap()),
{
    let t = spec_decode_training(b).unwrap();
    let tag = spec_u32_at(b, 0).unwrap().0;
    lemma_u32_at(b, 0);
    lemma_bytes_at(b, 4);
    lemma_le32_len(tag);
    assert(spec_kind_tag(t.kind) == tag);
    lemma_le64_len(t.payload.len() as u64);
    lemma_holds_concat(b, 0, spec_le32(tag), spec_encode_bytes(t.payload));
    assert(holds(b, 0, spec_encode_training(t)));
    assert(spec_encode_training(t).len() == b.len());
    assert(b.subrange(0, b.len() as int) =~= b);
}

impl TrainingData {
    /// The media kind of the payload.
    pub fn kind(&self) -> (res: DataType)
        ensures
            res == self@.kind,
    {
        match self {
            TrainingData::Text(_) => DataType::Text,
            TrainingData::Image(_) => DataType::Image,
            TrainingData::Video(_) => DataType::Video,
            TrainingData::Audio(_) => DataType::Audio,
        }
    }

    /// The raw payload; text is given as its UTF-8 bytes.
    pub fn payload(&self) -> (res: &[u8])
        ensures
            res@ == self@.payload,
    {
        match self {
            TrainingData::Text(text) => text.as_str().as_bytes(),
            TrainingData::Image(bytes) => bytes.as_slice(),
            TrainingData::Video(bytes) => bytes.as_slice(),
            TrainingData::Audio(bytes) => bytes.as_slice(),
        }
    }

    /// Tags `payload` with `kind`. A text payload that is not valid UTF-8
    /// is rejected.
    pub fn from_parts(kind: DataType, payload: Vec<u8>) -> (res: Result<TrainingData, MdaError>)
        ensures
            kind == DataType::Text && !valid_utf8(payload@) ==> res == Err::<TrainingData, MdaError>(
                MdaError::CorruptArchive(CorruptReason::InvalidText),
            ),
            !(kind == DataType::Text && !valid_utf8(payload@)) ==> res.is_ok() && res.unwrap()@ == (
            TrainingSpec { kind, payload: payload@ }),
    {
        match kind {
            DataType::Text => match string_from_utf8(payload) {
                Some(text) => Ok(TrainingData::Text(text)),
                None => Err(MdaError::CorruptArchive(CorruptReason::InvalidText)),
            },
            DataType::Image => Ok(TrainingData::Image(payload)),
            DataType::Video => Ok(TrainingData::Video(payload)),
            DataType::Audio => Ok(TrainingData::Audio(payload)),
        }
    }
}

/// The tag of a media kind.
pub fn kind_tag(kind: DataType) -> (res: u32)
    ensures
        res == spec_kind_tag(kind),
{
    match kind {
        DataType::Text => 0,
        DataType::Image => 1,
        DataType::Video => 2,
        DataType::Audio => 3,
    }
}

/// The media kind of a tag.
pub fn kind_of_tag(tag: u32) -> (res: Option<DataType>)
    ensures
        res == spec_kind_of_tag(tag),
{
    if tag == 0 {
        Some(DataType::Text)
    } else if tag == 1 {
        Some(DataType::Image)
    } else if tag == 2 {
        Some(DataType::Video)
    } else if tag == 3 {
        Some(DataType::Audio)
    } else {
        None
    }
}

/// Appends the index record to `out`.
pub fn write_index(out: &mut Vec<u8>, index: &MDAIndex)
    ensures
        final(out)@ == old(out)@ + spec_encode_index(*index),
{
    write_u64(out, index.header_offset);
    write_u64(out, index.train_data_offset);
    write_u64(out, index.anno_headers_offset);
    write_u64(out, index.anno_entries_offset);
    assert(out@ =~= old(out)@ + spec_encode_index(*index));
}

/// Reads and validates the index of the archive `bytes`.
pub fn read_index(bytes: &[u8]) -> (res: Result<MDAIndex, MdaError>)
    ensures
        res == spec_read_index(bytes@),
        res.is_ok() ==> index_in_range(res.unwrap(), bytes@.len() as int),
        bytes@.len() <= usize::MAX,
{
    if bytes.len() < INDEX_SIZE {
        return Err(MdaError::CorruptArchive(CorruptReason::TruncatedIndex));
    }
    let index = MDAIndex {
        header_offset: read_u64(bytes, 0).unwrap().0,
        train_data_offset: read_u64(bytes, 8).unwrap().0,
        anno_headers_offset: read_u64(bytes, 16).unwrap().0,
        anno_entries_offset: read_u64(bytes, 24).unwrap().0,
    };
    if INDEX_SIZE as u64 <= index.header_offset && index.header_offset <= index.train_data_offset
        && index.train_data_offset <= index.anno_headers_offset && index.anno_headers_offset
        <= index.anno_entries_offset && index.anno_entries_offset <= bytes.len() as u64 {
        Ok(index)
    } else {
        Err(MdaError::CorruptArchive(CorruptReason::RegionOutOfRange))
    }
}

/// Appends the training-data region to `out`.
pub fn write_training(out: &mut Vec<u8>, train_data: &TrainingData)
    ensures
        final(out)@ == old(out)@ + spec_encode_training(train_data@),
{
    write_u32(out, kind_tag(train_data.kind()));
    write_bytes(out, train_data.payload());
    assert(out@ =~= old(out)@ + spec_encode_training(train_data@));
}

/// Decodes the training-data region `region`.
pub fn decode_training(region: &[u8]) -> (res: Result<TrainingData, MdaError>)
    ensures
        match spec_decode_training(region@) {
            Ok(t) => res.is_ok() && res.unwrap()@ == t,
            Err(e) => res matches Err(x) && x == e,
        },
{
    let (tag, p) = match read_u32(region, 0) {
        Some(pair) => pair,
        None => {
            return Err(MdaError::CorruptArchive(CorruptReason::BadTrainingData));
        },
    };
    let kind = match kind_of_tag(tag) {
        Some(kind) => kind,
        None => {
            return Err(MdaError::MediaKindUnknown);
        },
    };
    let (payload, end) = match read_bytes(region, p) {
        Some(pair) => pair,
        None => {
            return Err(MdaError::CorruptArchive(CorruptReason::BadTrainingData));
        },
    };
    if end != region.len() {
        return Err(MdaError::CorruptArchive(CorruptReason::BadTrainingData));
    }
    TrainingData::from_parts(kind, payload)
}

} // verus!
