//! The header that marks an encrypted file, and the in-memory view of a file
//! that may carry one.
//!
//! An encrypted file starts with twelve bytes: a four-byte marker, the key
//! version and the layer count, the two numbers as big-endian `u32`. A file
//! without that header is plain: its layer count is zero.
use vstd::prelude::*;
use crate::encryption::keys::{latest_encryption_version, latest_version};
use crate::encryption::EncryptionError;
use crate::utils::config_interact::Config;

verus! {

pub const HEADER_SIZE: usize = 4;

pub const VERSION_SIZE: usize = 4;

pub const LAYER_SIZE: usize = 4;

/// The length of the whole header: marker, version and layer.
pub const HEADER_LENGTH: usize = 12;

/// The four bytes that open an encrypted file.
pub open spec fn marker() -> Seq<u8> {
    seq![0xAAu8, 0xBBu8, 0xCCu8, 0xDDu8]
}

/// The four bytes of `v`, the most significant first.
pub open spec fn be32(v: u32) -> Seq<u8> {
    seq![
        (v / 0x100_0000) as u8,
        ((v / 0x1_0000) % 0x100) as u8,
        ((v / 0x100) % 0x100) as u8,
        (v % 0x100) as u8,
    ]
}

/// The number whose big-endian bytes are `b[at..at + 4]`.
pub open spec fn be32_at(b: Seq<u8>, at: int) -> u32 {
    (b[at] as int * 0x100_0000 + b[at + 1] as int * 0x1_0000 + b[at + 2] as int * 0x100 + b[at
        + 3] as int) as u32
}

/// What the header of a file records.
#[derive(Clone, Copy, Debug, PartialEq, Eq, Structural)]
pub struct FileHeader {
    /// Which key of the registry encrypts the outermost layer.
    pub version: u32,
    /// How many times the content has been encrypted; zero for a plain file.
    pub layer: u32,
}

/// Whether `bytes` starts with the marker.
pub open spec fn has_marker(bytes: Seq<u8>) -> bool {
    bytes.len() >= 4 && bytes.subrange(0, 4) == marker()
}

/// Whether `bytes` starts with a whole header.
pub open spec fn has_header(bytes: Seq<u8>) -> bool {
    bytes.len() >= 12 && has_marker(bytes)
}

/// The twelve header bytes for `h`.
pub open spec fn encode_header(h: FileHeader) -> Seq<u8> {
    marker() + be32(h.version) + be32(h.layer)
}

/// The layer count of a file: what its header records, or zero where it has
/// no header.
pub open spec fn layer_of(bytes: Seq<u8>) -> u32 {
    if has_header(bytes) {
        be32_at(bytes, 8)
    } else {
        0
    }
}

/// The header of a file: the one it starts with, or, for a file without one,
/// layer zero and the version `latest`.
pub open spec fn parse_header(bytes: Seq<u8>, latest: u32) -> FileHeader {
    if has_header(bytes) {
        FileHeader { version: be32_at(bytes, 4), layer: be32_at(bytes, 8) }
    } else {
        FileHeader { version: latest, layer: 0 }
    }
}

/// The content of a file after its header: everything after the first twelve
/// bytes where the layer count is positive, the whole file where it is zero.
pub open spec fn payload_of(bytes: Seq<u8>) -> Seq<u8> {
    if layer_of(bytes) > 0 {
        bytes.skip(12)
    } else {
        bytes
    }
}

/// A file with the given header and payload: the header is written if and
/// only if the layer count is positive.
pub open spec fn assemble(h: FileHeader, payload: Seq<u8>) -> Seq<u8> {
    if h.layer > 0 {
        encode_header(h) + payload
    } else {
        payload
    }
}

/// Whether `bytes` starts with the marker.
pub fn starts_with_marker(bytes: &[u8]) -> (b: bool)
    ensures
        b == has_marker(bytes@),
{
    if bytes.len() < 4 {
        return false;
    }
    let b = bytes[0] == 0xAA && bytes[1] == 0xBB && bytes[2] == 0xCC && bytes[3] == 0xDD;
    proof {
        let head = bytes@.subrange(0, 4);
        if b {
            assert(head =~= marker());
        } else {
            assert(head[0] == bytes@[0] && head[1] == bytes@[1] && head[2] == bytes@[2] && head[3]
                == bytes@[3]);
        }
    }
    b
}

/// Appends the four bytes of `v`, the most significant first.
fn push_be32(out: &mut Vec<u8>, v: u32)
    ensures
        final(out)@ == old(out)@ + be32(v),
{
    out.push((v / 0x100_0000) as u8);
    out.push(((v / 0x1_0000) % 0x100) as u8);
    out.push(((v / 0x100) % 0x100) as u8);
    out.push((v % 0x100) as u8);
    assert(out@ =~= old(out)@ + be32(v));
}

/// Reads the big-endian number at `bytes[at..at + 4]`.
fn read_be32(bytes: &[u8], at: usize) -> (v: u32)
    requires
        at + 4 <= bytes@.len(),
    ensures
        v == be32_at(bytes@, at as int),
{
    (bytes[at] as u32) * 0x100_0000 + (bytes[at + 1] as u32) * 0x1_0000 + (bytes[at + 2] as u32)
        * 0x100 + (bytes[at + 3] as u32)
}

impl FileHeader {
    /// The twelve bytes of this header.
    pub fn encode(&self) -> (r: Vec<u8>)
        ensures
            r@ == encode_header(*self),
            r@.len() == 12,
    {
        let mut out: Vec<u8> = Vec::new();
        out.push(0xAA);
        out.push(0xBB);
        out.push(0xCC);
        out.push(0xDD);
        assert(out@ =~= marker());
        push_be32(&mut out, self.version);
        push_be32(&mut out, self.layer);
        out
    }

    /// The header of the file `bytes`, where `latest` is the newest key
    /// version: a file without a header is plain and takes that version.
    pub fn parse(bytes: &[u8], latest: u32) -> (h: FileHeader)
        ensures
            h == parse_header(bytes@, latest),
    {
        if bytes.len() >= 12 && starts_with_marker(bytes) {
            FileHeader { version: read_be32(bytes, 4), layer: read_be32(bytes, 8) }
        } else {
            FileHeader { version: latest, layer: 0 }
        }
    }

    /// The file that carries this header before `payload`; a header with
    /// layer zero is not written.
    pub fn wrap(&self, payload: &[u8]) -> (r: Vec<u8>)
        ensures
            r@ == assemble(*self, payload@),
    {
        let mut out: Vec<u8> = if self.layer > 0 {
            self.encode()
        } else {
            Vec::new()
        };
        out.extend_from_slice(payload);
        assert(out@ =~= assemble(*self, payload@));
        out
    }
}

/// The layer count of the file `bytes`.
pub fn file_layer(bytes: &[u8]) -> (layer: u32)
    ensures
        layer == layer_of(bytes@),
{
    if bytes.len() >= 12 && starts_with_marker(bytes) {
        read_be32(bytes, 8)
    } else {
        0
    }
}

/// Decoding four encoded bytes gives the number back.
pub proof fn lemma_be32_round_trip(b: Seq<u8>, at: int, v: u32)
    requires
        0 <= at,
        at + 4 <= b.len(),
        b.subrange(at, at + 4) == be32(v),
    ensures
        be32_at(b, at) == v,
{
    let piece = b.subrange(at, at + 4);
    assert(piece[0] == b[at] && piece[1] == b[at + 1] && piece[2] == b[at + 2] && piece[3] == b[at
        + 3]);
}

/// Encoding the number read from four bytes gives those bytes back.
pub proof fn lemma_be32_of_bytes(b: Seq<u8>, at: int)
    requires
        0 <= at,
        at + 4 <= b.len(),
    ensures
        be32(be32_at(b, at)) == b.subrange(at, at + 4),
{
    let (b0, b1, b2, b3) = (b[at] as int, b[at + 1] as int, b[at + 2] as int, b[at + 3] as int);
    let v = b0 * 0x100_0000 + b1 * 0x1_0000 + b2 * 0x100 + b3;
    assert(v / 0x100_0000 == b0 && (v / 0x1_0000) % 0x100 == b1 && (v / 0x100) % 0x100 == b2 && v
        % 0x100 == b3) by (nonlinear_arith)
        requires
            v == b0 * 0x100_0000 + b1 * 0x1_0000 + b2 * 0x100 + b3,
            0 <= b0 < 256,
            0 <= b1 < 256,
            0 <= b2 < 256,
            0 <= b3 < 256,
    ;
    assert(be32_at(b, at) == v);
    assert(be32(be32_at(b, at)) =~= b.subrange(at, at + 4));
}

/// A header followed by any payload is read back as that header, and a positive layer
/// count leaves the payload as what follows the header.
pub proof fn lemma_parse_encoded(h: FileHeader, payload: Seq<u8>, latest: u32)
    ensures
        has_header(encode_header(h) + payload),
        parse_header(encode_header(h) + payload, latest) == h,
        layer_of(encode_header(h) + payload) == h.layer,
        h.layer > 0 ==> payload_of(encode_header(h) + payload) == payload,
{
    let file = encode_header(h) + payload;
    assert(file.subrange(0, 4) =~= marker());
    assert(file.subrange(4, 8) =~= be32(h.version));
    assert(file.subrange(8, 12) =~= be32(h.layer));
    lemma_be32_round_trip(file, 4, h.version);
    lemma_be32_round_trip(file, 8, h.layer);
    assert(file.skip(12) =~= payload);
}

/// A file with a header is that header, encoded, followed by its payload.
pub proof fn lemma_encode_parsed(bytes: Seq<u8>, latest: u32)
    requires
        has_header(bytes),
    ensures
        bytes == encode_header(parse_header(bytes, latest)) + bytes.skip(12),
{
    lemma_be32_of_bytes(bytes, 4);
    lemma_be32_of_bytes(bytes, 8);
    let h = parse_header(bytes, latest);
    assert(bytes =~= bytes.subrange(0, 4) + bytes.subrange(4, 8) + bytes.subrange(8, 12)
        + bytes.skip(12));
}

/// A file carries a header with a positive layer count exactly when its layer
/// count is positive: an assembled file starts with its header if and only if
/// the layer is at least one, and is then read back with that layer.
pub proof fn lemma_header_presence(h: FileHeader, payload: Seq<u8>)
    ensures
        h.layer >= 1 <==> assemble(h, payload) == encode_header(h) + payload,
        h.layer >= 1 ==> has_header(assemble(h, payload)) && layer_of(assemble(h, payload))
            == h.layer,
        h.layer == 0 ==> assemble(h, payload) == payload,
{
    lemma_parse_encoded(h, payload, 0);
    if h.layer == 0 {
        assert(encode_header(h).len() == 12);
        assert((encode_header(h) + payload).len() == 12 + payload.len());
    }
}

/// A file's layer count is positive if and only if the file starts with a
/// whole header that records a layer other than zero.
pub proof fn lemma_layer_positive_iff_header(bytes: Seq<u8>)
    ensures
        layer_of(bytes) >= 1 <==> has_header(bytes) && be32_at(bytes, 8) != 0,
{
}

/// A result with the bytes of its value as a sequence.
pub open spec fn bytes_view(r: Result<Vec<u8>, EncryptionError>) -> Result<
    Seq<u8>,
    EncryptionError,
> {
    match r {
        Ok(bytes) => Ok(bytes@),
        Err(e) => Err(e),
    }
}

/// The payload of `file`, or why it has none: an empty file is refused
/// with `CannotProcessEmptyFile`, one that starts with the marker but is
/// too short for a header with `InvalidFileContent`.
pub open spec fn main_content(file: Seq<u8>) -> Result<Seq<u8>, EncryptionError> {
    if file.len() == 0 {
        Err(EncryptionError::CannotProcessEmptyFile)
    } else if has_marker(file) && file.len() < HEADER_LENGTH {
        Err(EncryptionError::InvalidFileContent)
    } else {
        Ok(payload_of(file))
    }
}

/// The payload of `file`: what follows its header, or all of it where its
/// layer count is zero.
pub fn main_file_content(file: &[u8]) -> (r: Result<Vec<u8>, EncryptionError>)
    ensures
        bytes_view(r) == main_content(file@),
{
    if file.len() == 0 {
        return Err(EncryptionError::CannotProcessEmptyFile);
    }
    if starts_with_marker(file) && file.len() < HEADER_LENGTH {
        return Err(EncryptionError::InvalidFileContent);
    }
    let from: usize = if file_layer(file) > 0 {
        HEADER_LENGTH
    } else {
        0
    };
    let out = vstd::slice::slice_to_vec(vstd::slice::slice_subrange(file, from, file.len()));
    assert(out@ =~= payload_of(file@));
    Ok(out)
}

/// The layer count and the version of `file` under the registry in
/// `content`: what its header records, or, for a file without a header,
/// layer zero and the newest version of the registry.
pub open spec fn header_of(file: Seq<u8>, content: Seq<char>) -> Result<
    (u32, u32),
    EncryptionError,
> {
    if has_header(file) {
        Ok((be32_at(file, 8), be32_at(file, 4)))
    } else {
        match latest_version(content) {
            Ok(v) => Ok((0u32, v)),
            Err(e) => Err(e),
        }
    }
}

/// The bytes of a file that may carry layers of encryption.
#[derive(Debug, Clone)]
pub struct CryptedFile {
    content: Vec<u8>,
}

impl View for CryptedFile {
    type V = Seq<u8>;

    /// The bytes of the file.
    closed spec fn view(&self) -> Seq<u8> {
        self.content@
    }
}

impl CryptedFile {
    /// The file with the given bytes.
    pub fn new(content: Vec<u8>) -> (file: CryptedFile)
        ensures
            file@ == content@,
    {
        CryptedFile { content }
    }

    /// The file that holds the header of `other_file` and nothing after it;
    /// it is empty where `other_file` has layer zero.
    pub fn from(self, other_file: &CryptedFile, config: &Config) -> (r: Result<
        CryptedFile,
        EncryptionError,
    >)
        ensures
            match r {
                Ok(file) => header_of(other_file@, config@) is Ok && file@ == assemble(
                    FileHeader {
                        version: header_of(other_file@, config@)->Ok_0.1,
                        layer: header_of(other_file@, config@)->Ok_0.0,
                    },
                    Seq::empty(),
                ),
                Err(e) => header_of(other_file@, config@) == Err::<(u32, u32), EncryptionError>(e),
            },
    {
        let (layer, version) = other_file.header(config)?;
        let header = FileHeader { version, layer };
        let nothing: Vec<u8> = Vec::new();
        Ok(CryptedFile { content: header.wrap(nothing.as_slice()) })
    }

    /// A copy of the bytes of the file.
    pub fn content_as_bytes(&self) -> (bytes: Vec<u8>)
        ensures
            bytes@ == self@,
    {
        vstd::slice::slice_to_vec(self.content.as_slice())
    }

    /// The layer count of the file.
    pub fn encryption_layer(&self, config: &Config) -> (r: Result<u32, EncryptionError>)
        ensures
            match r {
                Ok(layer) => header_of(self@, config@) is Ok && layer == header_of(
                    self@,
                    config@,
                )->Ok_0.0 && layer == layer_of(self@),
                Err(e) => header_of(self@, config@) == Err::<(u32, u32), EncryptionError>(e),
            },
    {
        let (layer, _) = self.header(config)?;
        Ok(layer)
    }

    /// The key version of the file.
    pub fn encryption_version(&self, config: &Config) -> (r: Result<u32, EncryptionError>)
        ensures
            match r {
                Ok(version) => header_of(self@, config@) is Ok && version == header_of(
                    self@,
                    config@,
                )->Ok_0.1,
                Err(e) => header_of(self@, config@) == Err::<(u32, u32), EncryptionError>(e),
            },
    {
        let (_, version) = self.header(config)?;
        Ok(version)
    }

    /// Replaces what follows the header by `new_content`. The header stays;
    /// a file of layer zero has none, and becomes `new_content`.
    pub fn update_content(&mut self, new_content: Vec<u8>, config: &Config) -> (r: Result<
        (),
        EncryptionError,
    >)
        ensures
            match r {
                Ok(_) => header_of(old(self)@, config@) is Ok && final(self)@ == assemble(
                    FileHeader {
                        version: header_of(old(self)@, config@)->Ok_0.1,
                        layer: header_of(old(self)@, config@)->Ok_0.0,
                    },
                    new_content@,
                ),
                Err(e) => header_of(old(self)@, config@) == Err::<(u32, u32), EncryptionError>(e)
                    && final(self)@ == old(self)@,
            },
    {
        let (layer, version) = self.header(config)?;
        let header = FileHeader { version, layer };
        self.content = header.wrap(new_content.as_slice());
        Ok(())
    }

    /// Raises the layer count in the header by one; a file of layer zero
    /// gets a header. The payload stays. Fails as `header` and
    /// `main_file_content` do, and with `InvalidFileContent` where the layer
    /// count is the largest `u32`; the file is then left as it was.
    pub fn increment_layer(&mut self, config: &Config) -> (r: Result<(), EncryptionError>)
        ensures
            match r {
                Ok(_) => header_of(old(self)@, config@) is Ok && main_content(old(self)@) is Ok
                    && layer_of(old(self)@) < u32::MAX && final(self)@ == encode_header(
                    FileHeader {
                        version: header_of(old(self)@, config@)->Ok_0.1,
                        layer: (layer_of(old(self)@) + 1) as u32,
                    },
                ) + payload_of(old(self)@),
                Err(e) => final(self)@ == old(self)@ && match header_of(old(self)@, config@) {
                    Err(cause) => e == cause,
                    Ok(_) => if layer_of(old(self)@) == u32::MAX {
                        e == EncryptionError::InvalidFileContent
                    } else {
                        main_content(old(self)@) == Err::<Seq<u8>, EncryptionError>(e)
                    },
                },
            },
    {
        let (layer, version) = self.header(config)?;
        if layer == u32::MAX {
            return Err(EncryptionError::InvalidFileContent);
        }
        let payload = self.main_file_content()?;
        let header = FileHeader { version, layer: layer + 1 };
        self.content = header.wrap(payload.as_slice());
        Ok(())
    }

    /// Lowers the layer count in the header by one; the header goes where
    /// the count reaches zero. The payload stays. Fails as `header` and
    /// `main_file_content` do, and with `DecryptNotCryptedFile` where the
    /// layer count is zero; the file is then left as it was.
    pub fn decrement_layer(&mut self, config: &Config) -> (r: Result<(), EncryptionError>)
        ensures
            match r {
                Ok(_) => header_of(old(self)@, config@) is Ok && main_content(old(self)@) is Ok
                    && layer_of(old(self)@) > 0 && final(self)@ == assemble(
                    FileHeader {
                        version: header_of(old(self)@, config@)->Ok_0.1,
                        layer: (layer_of(old(self)@) - 1) as u32,
                    },
                    payload_of(old(self)@),
                ),
                Err(e) => final(self)@ == old(self)@ && match header_of(old(self)@, config@) {
                    Err(cause) => e == cause,
                    Ok(_) => if layer_of(old(self)@) == 0 {
                        e == EncryptionError::DecryptNotCryptedFile
                    } else {
                        main_content(old(self)@) == Err::<Seq<u8>, EncryptionError>(e)
                    },
                },
            },
    {
        let (layer, version) = self.header(config)?;
        if layer == 0 {
            return Err(EncryptionError::DecryptNotCryptedFile);
        }
        let payload = self.main_file_content()?;
        let header = FileHeader { version, layer: layer - 1 };
        self.content = header.wrap(payload.as_slice());
        Ok(())
    }

    /// The layer count and the version of the file, in this order: what its
    /// header records, or, for a file without a header, layer zero and the
    /// newest version of the registry.
    pub fn header(&self, config: &Config) -> (r: Result<(u32, u32), EncryptionError>)
        ensures
            r == header_of(self@, config@),
    {
        if self.content.len() >= 12 && starts_with_marker(self.content.as_slice()) {
            Ok((read_be32(self.content.as_slice(), 8), read_be32(self.content.as_slice(), 4)))
        } else {
            let latest = latest_encryption_version(config)?;
            Ok((0, latest))
        }
    }

    /// The payload of the file: what follows its header, or all of it where
    /// its layer count is zero.
    pub fn main_file_content(&self) -> (r: Result<Vec<u8>, EncryptionError>)
        ensures
            bytes_view(r) == main_content(self@),
    {
        main_file_content(self.content.as_slice())
    }
}

} // verus!
