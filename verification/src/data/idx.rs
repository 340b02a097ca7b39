//! The IDX archive format: a magic number, the element type, the dimensions
//! big-endian, and the elements in row-major order, gzipped or not.

use flate2::read::GzDecoder;
use std::io::Read;
use vstd::prelude::*;
use vstd::slice::*;
use vstd::string::*;

use crate::index::{checked_volume, volume};
use crate::tensor::Array;
use crate::text::{decimal, decimal_text, hex, hex_text};

verus! {

/// An archive decoded: its dimensions, and its bytes in row-major order.
#[derive(Debug, Clone, PartialEq, Eq)]
pub struct IdxArray {
    shape: Vec<usize>,
    data: Vec<u8>,
}

/// Why an archive could not be decoded.
#[derive(Debug, Clone, PartialEq, Eq)]
pub enum IdxError {
    /// The file ends inside the header.
    Truncated { needed: usize, found: usize },
    /// The file does not start with two zero bytes.
    NotIdx { magic: [u8; 2] },
    /// The elements are not unsigned bytes.
    UnsupportedElementType { code: u8 },
    /// There are more or fewer elements than the dimensions say.
    PayloadLength { expected: usize, found: usize },
    /// The dimensions multiply to more than can be counted.
    ShapeOverflow,
    /// The gzip container could not be read.
    Gzip(String),
}

/// The mathematical error: an [`IdxError`] with its message taken as text.
pub ghost enum IdxFailure {
    Truncated { needed: int, found: int },
    NotIdx { magic: Seq<u8> },
    UnsupportedElementType { code: u8 },
    PayloadLength { expected: int, found: int },
    ShapeOverflow,
    Gzip(Seq<char>),
}

impl View for IdxArray {
    type V = Array<u8>;

    closed spec fn view(&self) -> Array<u8> {
        Array { shape: self.shape@, data: self.data@ }
    }
}

impl View for IdxError {
    type V = IdxFailure;

    open spec fn view(&self) -> IdxFailure {
        match *self {
            IdxError::Truncated { needed, found } => IdxFailure::Truncated {
                needed: needed as int,
                found: found as int,
            },
            IdxError::NotIdx { magic } => IdxFailure::NotIdx { magic: magic@ },
            IdxError::UnsupportedElementType { code } => IdxFailure::UnsupportedElementType {
                code,
            },
            IdxError::PayloadLength { expected, found } => IdxFailure::PayloadLength {
                expected: expected as int,
                found: found as int,
            },
            IdxError::ShapeOverflow => IdxFailure::ShapeOverflow,
            IdxError::Gzip(message) => IdxFailure::Gzip(message@),
        }
    }
}

/// The outcome of decoding, taken by its view.
pub open spec fn outcome(r: Result<IdxArray, IdxError>) -> Result<Array<u8>, IdxFailure> {
    match r {
        Ok(a) => Ok(a@),
        Err(e) => Err(e@),
    }
}

impl IdxArray {
    /// The dimensions.
    #[must_use]
    pub fn shape(&self) -> (r: &[usize])
        ensures
            r@ == self@.shape,
    {
        self.shape.as_slice()
    }

    /// The elements, in row-major order.
    #[must_use]
    pub fn data(&self) -> (r: &[u8])
        ensures
            r@ == self@.data,
    {
        self.data.as_slice()
    }

    /// The number of elements.
    #[must_use]
    pub fn len(&self) -> (r: usize)
        ensures
            r == self@.data.len(),
    {
        self.data.len()
    }

    /// Whether there are no elements.
    #[must_use]
    pub fn is_empty(&self) -> (r: bool)
        ensures
            r == (self@.data.len() == 0),
    {
        self.data.len() == 0
    }

    /// The number of dimensions.
    #[must_use]
    pub fn ndim(&self) -> (r: usize)
        ensures
            r == self@.shape.len(),
    {
        self.shape.len()
    }

    /// The elements, handed over.
    #[must_use]
    pub fn into_data(self) -> (r: Vec<u8>)
        ensures
            r@ == self@.data,
    {
        self.data
    }
}

impl IdxFailure {
    /// What the error says to a reader.
    pub open spec fn text(self) -> Seq<char> {
        match self {
            IdxFailure::Truncated { needed, found } => "IDX: the file needs at least "@
                + decimal_text(needed) + " bytes but has "@ + decimal_text(found),
            IdxFailure::NotIdx { magic } =>
                "IDX: expected the magic bytes 00 00 but found "@ + hex_text(magic[0] as int)
                + " "@ + hex_text(magic[1] as int),
            IdxFailure::UnsupportedElementType { code } => "IDX: element type 0x"@ + hex_text(
                code as int,
            )
                + " is not supported; this reader decodes 0x08 (unsigned byte), which is what MNIST uses"@,
            IdxFailure::PayloadLength { expected, found } => "IDX: the header describes "@
                + decimal_text(expected) + " elements but the file holds "@ + decimal_text(found)
                + " bytes"@,
            IdxFailure::ShapeOverflow =>
                "IDX: the dimensions multiply to more than a usize holds"@,
            IdxFailure::Gzip(message) => "IDX: the gzip container is unreadable: "@ + message,
        }
    }
}

impl IdxError {
    /// What the error says to a reader.
    #[must_use]
    pub fn to_string(&self) -> (r: String)
        ensures
            r@ == self@.text(),
    {
        match self {
            IdxError::Truncated { needed, found } => {
                let mut s: String = "IDX: the file needs at least ".to_owned();
                s.append(decimal(*needed).as_str());
                s.append(" bytes but has ");
                s.append(decimal(*found).as_str());
                s
            },
            IdxError::NotIdx { magic } => {
                let mut s: String = "IDX: expected the magic bytes 00 00 but found ".to_owned();
                s.append(hex(magic[0]).as_str());
                s.append(" ");
                s.append(hex(magic[1]).as_str());
                s
            },
            IdxError::UnsupportedElementType { code } => {
                let mut s: String = "IDX: element type 0x".to_owned();
                s.append(hex(*code).as_str());
                s.append(
                    " is not supported; this reader decodes 0x08 (unsigned byte), which is what MNIST uses",
                );
                s
            },
            IdxError::PayloadLength { expected, found } => {
                let mut s: String = "IDX: the header describes ".to_owned();
                s.append(decimal(*expected).as_str());
                s.append(" elements but the file holds ");
                s.append(decimal(*found).as_str());
                s.append(" bytes");
                s
            },
            IdxError::ShapeOverflow => {
                "IDX: the dimensions multiply to more than a usize holds".to_owned()
            },
            IdxError::Gzip(message) => {
                let mut s: String = "IDX: the gzip container is unreadable: ".to_owned();
                s.append(message.as_str());
                s
            },
        }
    }
}

/// The big-endian number in the four bytes from `at` on.
pub open spec fn big_endian(bytes: Seq<u8>, at: int) -> int {
    16777216 * bytes[at] + 65536 * bytes[at + 1] + 256 * bytes[at + 2] + bytes[at + 3]
}

/// The first `n` dimensions that the header names.
pub open spec fn dimensions(bytes: Seq<u8>, n: nat) -> Seq<usize> {
    Seq::new(n, |d: int| big_endian(bytes, 4 + 4 * d) as usize)
}

/// What an archive holds, or what is wrong with it: the first complaint in the
/// order of the header's fields.
pub open spec fn decoded(bytes: Seq<u8>) -> Result<Array<u8>, IdxFailure> {
    if bytes.len() < 4 {
        Err(IdxFailure::Truncated { needed: 4, found: bytes.len() as int })
    } else if bytes[0] != 0 || bytes[1] != 0 {
        Err(IdxFailure::NotIdx { magic: bytes.take(2) })
    } else if bytes[2] != 8 {
        Err(IdxFailure::UnsupportedElementType { code: bytes[2] })
    } else {
        let header = 4 + 4 * bytes[3];
        let shape = dimensions(bytes, bytes[3] as nat);
        if bytes.len() < header {
            Err(IdxFailure::Truncated { needed: header, found: bytes.len() as int })
        } else if volume(shape) > usize::MAX {
            Err(IdxFailure::ShapeOverflow)
        } else if bytes.len() - header != volume(shape) {
            Err(
                IdxFailure::PayloadLength {
                    expected: volume(shape) as int,
                    found: bytes.len() - header,
                },
            )
        } else {
            Ok(Array { shape, data: bytes.skip(header) })
        }
    }
}

/// Whether the bytes are a gzip container.
pub open spec fn is_gzip(bytes: Seq<u8>) -> bool {
    bytes.len() >= 2 && bytes[0] == 0x1f && bytes[1] == 0x8b
}

/// The dimension in the four bytes from `at` on.
fn dimension_at(bytes: &[u8], at: usize) -> (r: usize)
    requires
        at + 4 <= bytes@.len(),
    ensures
        r == big_endian(bytes@, at as int),
{
    (bytes[at] as usize) * 16777216 + (bytes[at + 1] as usize) * 65536 + (bytes[at + 2] as usize)
        * 256 + (bytes[at + 3] as usize)
}

/// Decodes an archive that is not gzipped.
pub fn decode_idx(bytes: &[u8]) -> (r: Result<IdxArray, IdxError>)
    ensures
        outcome(r) == decoded(bytes@),
        r matches Ok(a) ==> a@.wf(),
{
    let found: usize = bytes.len();
    if found < 4 {
        return Err(IdxError::Truncated { needed: 4, found });
    }
    if bytes[0] != 0 || bytes[1] != 0 {
        let magic: [u8; 2] = [bytes[0], bytes[1]];
        assert(magic@ =~= bytes@.take(2));
        return Err(IdxError::NotIdx { magic });
    }
    if bytes[2] != 8 {
        return Err(IdxError::UnsupportedElementType { code: bytes[2] });
    }
    let ndim: usize = bytes[3] as usize;
    let header: usize = 4 + 4 * ndim;
    if found < header {
        return Err(IdxError::Truncated { needed: header, found });
    }
    let mut shape: Vec<usize> = Vec::new();
    let mut d: usize = 0;
    let ghost dims = dimensions(bytes@, ndim as nat);
    while d < ndim
        invariant
            d <= ndim <= 255,
            found == bytes@.len(),
            found >= 4 + 4 * ndim,
            dims == dimensions(bytes@, ndim as nat),
            shape@ == dims.take(d as int),
        decreases ndim - d,
    {
        let size: usize = dimension_at(bytes, 4 + 4 * d);
        shape.push(size);
        assert(shape@ =~= dims.take(d + 1));
        d = d + 1;
    }
    assert(shape@ =~= dims);
    let expected: usize = match checked_volume(shape.as_slice()) {
        Some(expected) => expected,
        None => return Err(IdxError::ShapeOverflow),
    };
    if found - header != expected {
        return Err(IdxError::PayloadLength { expected, found: found - header });
    }
    let data: Vec<u8> = slice_to_vec(slice_subrange(bytes, header, found));
    assert(data@ =~= bytes@.skip(header as int));
    Ok(IdxArray { shape, data })
}

/// What unpacking a gzip container gives: its bytes, or what is wrong with it.
pub uninterp spec fn gunzipped(bytes: Seq<u8>) -> Result<Seq<u8>, Seq<char>>;

/// The outcome of unpacking, taken by its view.
pub open spec fn unpacking(r: Result<Vec<u8>, String>) -> Result<Seq<u8>, Seq<char>> {
    match r {
        Ok(bytes) => Ok(bytes@),
        Err(message) => Err(message@),
    }
}

/// Reads a `flate2::read::GzDecoder` over the bytes to its end. The decoder
/// takes the first member of the container and checks its length and checksum;
/// what it yields, and the text of the error where there is one, depend on the
/// bytes alone. Nothing more is claimed of either.
#[verifier::external_body]
fn gunzip(bytes: &[u8]) -> (r: Result<Vec<u8>, String>)
    ensures
        unpacking(r) == gunzipped(bytes@),
{
    let mut unpacked: Vec<u8> = Vec::new();
    match GzDecoder::new(bytes).read_to_end(&mut unpacked) {
        Ok(_) => Ok(unpacked),
        Err(e) => Err(e.to_string()),
    }
}

/// What an unpacked container holds.
pub open spec fn decoded_unpacked(u: Result<Seq<u8>, Seq<char>>) -> Result<Array<u8>, IdxFailure> {
    match u {
        Ok(bytes) => decoded(bytes),
        Err(message) => Err(IdxFailure::Gzip(message)),
    }
}

/// Decodes what unpacking a gzip container gave.
pub fn decode_unpacked(unpacked: Result<Vec<u8>, String>) -> (r: Result<IdxArray, IdxError>)
    ensures
        outcome(r) == decoded_unpacked(unpacking(unpacked)),
        r matches Ok(a) ==> a@.wf(),
{
    match unpacked {
        Ok(bytes) => decode_idx(bytes.as_slice()),
        Err(message) => Err(IdxError::Gzip(message)),
    }
}

/// Decodes an archive, unpacking it first where it is gzipped.
pub fn read_idx(bytes: &[u8]) -> (r: Result<IdxArray, IdxError>)
    ensures
        outcome(r) == if is_gzip(bytes@) {
            decoded_unpacked(gunzipped(bytes@))
        } else {
            decoded(bytes@)
        },
        r matches Ok(a) ==> a@.wf(),
{
    if bytes.len() >= 2 && bytes[0] == 0x1f && bytes[1] == 0x8b {
        decode_unpacked(gunzip(bytes))
    } else {
        decode_idx(bytes)
    }
}

/// Four bytes that spell a number big-endian.
pub open spec fn spelled(n: int) -> Seq<u8> {
    seq![
        (n / 16777216) as u8,
        (n / 65536 % 256) as u8,
        (n / 256 % 256) as u8,
        (n % 256) as u8,
    ]
}

/// The dimensions as the header spells them.
pub open spec fn spelled_shape(shape: Seq<usize>) -> Seq<u8>
    decreases shape.len(),
{
    if shape.len() == 0 {
        Seq::empty()
    } else {
        spelled_shape(shape.drop_last()) + spelled(shape.last() as int)
    }
}

/// The archive of an array of bytes.
pub open spec fn archive(a: Array<u8>) -> Seq<u8> {
    seq![0u8, 0u8, 8u8, a.shape.len() as u8] + spelled_shape(a.shape) + a.data
}

proof fn lemma_spelled_shape(shape: Seq<usize>, rest: Seq<u8>, d: int)
    requires
        forall|i: int| 0 <= i < shape.len() ==> #[trigger] shape[i] <= u32::MAX,
    ensures
        spelled_shape(shape).len() == 4 * shape.len(),
        0 <= d < shape.len() ==> big_endian(spelled_shape(shape) + rest, 4 * d) == shape[d],
    decreases shape.len(),
{
    if shape.len() > 0 {
        let front = shape.drop_last();
        let n = shape.last() as int;
        assert(shape[shape.len() - 1] <= u32::MAX);
        lemma_spelled_shape(front, spelled(n) + rest, d);
        let all = spelled_shape(shape) + rest;
        assert(all =~= spelled_shape(front) + (spelled(n) + rest));
        if d == shape.len() - 1 {
            let at = 4 * d;
            assert(all[at] == (n / 16777216) as u8);
            assert(all[at + 1] == (n / 65536 % 256) as u8);
            assert(all[at + 2] == (n / 256 % 256) as u8);
            assert(all[at + 3] == (n % 256) as u8);
            assert(0 <= n / 16777216 < 256);
            assert(16777216 * (n / 16777216) + 65536 * (n / 65536 % 256) + 256 * (n / 256 % 256)
                + n % 256 == n);
        }
    }
}

/// An array of bytes is read back from its archive, its dimensions in their
/// order and its bytes in theirs.
pub proof fn archives_read_back(a: Array<u8>)
    requires
        a.wf(),
        a.shape.len() <= u8::MAX,
        forall|i: int| 0 <= i < a.shape.len() ==> #[trigger] a.shape[i] <= u32::MAX,
    ensures
        !is_gzip(archive(a)),
        decoded(archive(a)) == Ok::<Array<u8>, IdxFailure>(a),
{
    let bytes = archive(a);
    let head = seq![0u8, 0u8, 8u8, a.shape.len() as u8];
    let tail = spelled_shape(a.shape) + a.data;
    lemma_spelled_shape(a.shape, a.data, 0);
    assert(bytes =~= head + tail);
    let shape = dimensions(bytes, bytes[3] as nat);
    assert forall|d: int| 0 <= d < a.shape.len() implies shape[d] == a.shape[d] by {
        lemma_spelled_shape(a.shape, a.data, d);
        assert(bytes[4 + 4 * d] == tail[4 * d]);
        assert(bytes[4 + 4 * d + 1] == tail[4 * d + 1]);
        assert(bytes[4 + 4 * d + 2] == tail[4 * d + 2]);
        assert(bytes[4 + 4 * d + 3] == tail[4 * d + 3]);
    }
    assert(shape =~= a.shape);
    assert(bytes.skip(4 + 4 * a.shape.len() as int) =~= a.data);
}

} // verus!
