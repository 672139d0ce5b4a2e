//! The Android boot image v2 header as plain values, its byte layout, and
//! the `abootimg-oxide` calls that decode, encode and hash it.

use vstd::prelude::*;
use vstd::bytes::{spec_u32_to_le_bytes, spec_u64_to_le_bytes};

use crate::cmdline::zeros;
use crate::package::{le32, le64};

use abootimg_oxide::binrw::io::Cursor;
use abootimg_oxide::binrw::{BinRead, BinWrite, Error as BinrwError};
use abootimg_oxide::{HeaderV0, HeaderV0Versioned, OsVersionPatch};

verus! {

/// Size of the Android boot image v2 header in bytes.
pub const HEADER_V2_SIZE: u32 = 1660;
/// Offset of the `header_version` field.
pub const HEADER_VERSION_OFFSET: usize = 40;
/// Size of the `cmdline` field.
pub const CMDLINE_FIELD_SIZE: usize = 512;
/// Size of the `extra_cmdline` field.
pub const EXTRA_CMDLINE_FIELD_SIZE: usize = 1024;
/// Size of both command line fields together.
pub const CMDLINE_FIELDS_SIZE: usize = 1536;
/// Bytes of a SHA-1 digest.
pub const SHA1_SIZE: usize = 20;
/// `ANDROID!`, the header's magic.
pub const BOOT_MAGIC: [u8; 8] = [0x41, 0x4e, 0x44, 0x52, 0x4f, 0x49, 0x44, 0x21];

/// The version-specific tail of a v0, v1 or v2 header.
#[derive(Clone, Copy, Debug, PartialEq, Eq)]
pub enum HeaderVersioned {
    V0,
    V1 { recovery_dtbo_size: u32, recovery_dtbo_addr: u64 },
    V2 { recovery_dtbo_size: u32, recovery_dtbo_addr: u64, dtb_size: u32, dtb_addr: u64 },
}

/// An Android boot image header v0 to v2, field by field.
#[derive(Clone, Debug, PartialEq, Eq)]
pub struct BootHeader {
    pub kernel_size: u32,
    pub kernel_addr: u32,
    pub ramdisk_size: u32,
    pub ramdisk_addr: u32,
    pub second_bootloader_size: u32,
    pub second_bootloader_addr: u32,
    pub tags_addr: u32,
    pub page_size: u32,
    pub osversionpatch: u32,
    pub board_name: [u8; 16],
    /// `cmdline` followed by `extra_cmdline`.
    pub cmdline: Vec<u8>,
    pub hash_digest: [u8; 32],
    pub versioned: HeaderVersioned,
}

/// A header as mathematical values.
#[verifier::ext_equal]
pub struct HeaderModel {
    pub kernel_size: u32,
    pub kernel_addr: u32,
    pub ramdisk_size: u32,
    pub ramdisk_addr: u32,
    pub second_bootloader_size: u32,
    pub second_bootloader_addr: u32,
    pub tags_addr: u32,
    pub page_size: u32,
    pub osversionpatch: u32,
    pub board_name: Seq<u8>,
    pub cmdline: Seq<u8>,
    pub hash_digest: Seq<u8>,
    pub versioned: HeaderVersioned,
}

impl View for BootHeader {
    type V = HeaderModel;

    open spec fn view(&self) -> HeaderModel {
        HeaderModel {
            kernel_size: self.kernel_size,
            kernel_addr: self.kernel_addr,
            ramdisk_size: self.ramdisk_size,
            ramdisk_addr: self.ramdisk_addr,
            second_bootloader_size: self.second_bootloader_size,
            second_bootloader_addr: self.second_bootloader_addr,
            tags_addr: self.tags_addr,
            page_size: self.page_size,
            osversionpatch: self.osversionpatch,
            board_name: self.board_name@,
            cmdline: self.cmdline@,
            hash_digest: self.hash_digest@,
            versioned: self.versioned,
        }
    }
}

impl HeaderModel {
    /// The field sizes that the encoding needs.
    pub open spec fn well_formed(self) -> bool {
        &&& self.board_name.len() == 16
        &&& self.cmdline.len() == CMDLINE_FIELDS_SIZE
        &&& self.hash_digest.len() == 32
    }

    /// The version number the tail stands for.
    pub open spec fn header_version(self) -> u32 {
        version_of(self.versioned)
    }
}

/// The version number a tail stands for.
pub open spec fn version_of(versioned: HeaderVersioned) -> u32 {
    match versioned {
        HeaderVersioned::V0 => 0,
        HeaderVersioned::V1 { .. } => 1,
        HeaderVersioned::V2 { .. } => 2,
    }
}

/// The header's bytes: little-endian fields in declaration order, the
/// command line split around the digest, then the version's tail.
pub open spec fn encode_header(h: HeaderModel) -> Seq<u8> {
    BOOT_MAGIC@ + spec_u32_to_le_bytes(h.kernel_size) + spec_u32_to_le_bytes(h.kernel_addr) + spec_u32_to_le_bytes(
        h.ramdisk_size,
    ) + spec_u32_to_le_bytes(h.ramdisk_addr) + spec_u32_to_le_bytes(h.second_bootloader_size)
        + spec_u32_to_le_bytes(h.second_bootloader_addr) + spec_u32_to_le_bytes(h.tags_addr)
        + spec_u32_to_le_bytes(h.page_size) + spec_u32_to_le_bytes(h.header_version()) + spec_u32_to_le_bytes(
        h.osversionpatch,
    ) + h.board_name + h.cmdline.subrange(0, 512) + h.hash_digest + h.cmdline.subrange(512, 1536)
        + encode_versioned(h.versioned)
}

/// The bytes of the version-specific tail.
pub open spec fn encode_versioned(v: HeaderVersioned) -> Seq<u8> {
    match v {
        HeaderVersioned::V0 => Seq::empty(),
        HeaderVersioned::V1 { recovery_dtbo_size, recovery_dtbo_addr } => spec_u32_to_le_bytes(recovery_dtbo_size)
            + spec_u64_to_le_bytes(recovery_dtbo_addr) + spec_u32_to_le_bytes(1648),
        HeaderVersioned::V2 { recovery_dtbo_size, recovery_dtbo_addr, dtb_size, dtb_addr } => spec_u32_to_le_bytes(
            recovery_dtbo_size,
        ) + spec_u64_to_le_bytes(recovery_dtbo_addr) + spec_u32_to_le_bytes(1660) + spec_u32_to_le_bytes(dtb_size)
            + spec_u64_to_le_bytes(dtb_addr),
    }
}

/// The v2 header that the first 1660 bytes of `image` hold.
pub open spec fn header_at(image: Seq<u8>) -> HeaderModel {
    HeaderModel {
        kernel_size: le32(image, 8) as u32,
        kernel_addr: le32(image, 12) as u32,
        ramdisk_size: le32(image, 16) as u32,
        ramdisk_addr: le32(image, 20) as u32,
        second_bootloader_size: le32(image, 24) as u32,
        second_bootloader_addr: le32(image, 28) as u32,
        tags_addr: le32(image, 32) as u32,
        page_size: le32(image, 36) as u32,
        osversionpatch: le32(image, 44) as u32,
        board_name: image.subrange(48, 64),
        cmdline: image.subrange(64, 576) + image.subrange(608, 1632),
        hash_digest: image.subrange(576, 608),
        versioned: HeaderVersioned::V2 {
            recovery_dtbo_size: le32(image, 1632) as u32,
            recovery_dtbo_addr: le64(image, 1636) as u64,
            dtb_size: le32(image, 1648) as u32,
            dtb_addr: le64(image, 1652) as u64,
        },
    }
}

/// Why the header decoder gave up.
pub enum HeaderDecodeError {
    /// The first eight bytes are not `ANDROID!`.
    BadMagic,
    /// The input ended inside a field.
    Truncated,
    /// Anything else, in the decoder's words.
    Invalid(String),
}

/// The decoder's explanation of why it rejects `image`.
pub uninterp spec fn spec_header_error_text(image: Seq<u8>) -> Seq<char>;

/// `decoded` is what the decoder makes of `image`, whose version field, when
/// present, is 2: a short input fails in the field it ends in, a bad magic
/// is reported as such, and a v2 tail that is cut off or names another
/// header size is invalid.
pub open spec fn header_decoded(image: Seq<u8>, decoded: Result<BootHeader, HeaderDecodeError>) -> bool {
    if image.len() < 8 {
        decoded matches Err(HeaderDecodeError::Truncated)
    } else if image.subrange(0, 8) != BOOT_MAGIC@ {
        decoded matches Err(HeaderDecodeError::BadMagic)
    } else if image.len() < 1632 {
        decoded matches Err(HeaderDecodeError::Truncated)
    } else if image.len() < HEADER_V2_SIZE || le32(image, 1644) != HEADER_V2_SIZE {
        decoded matches Err(HeaderDecodeError::Invalid(_))
    } else {
        decoded matches Ok(header) && header@ == header_at(image)
    }
}

/// Decodes a boot image header with `HeaderV0::read`.
///
/// Trusted: the decoder reads the magic and then the little-endian fields in
/// declaration order, so it fails on an input that ends before a field, on
/// a wrong magic, and (the version being 2) on a v2 tail that is cut off or
/// whose header size is not 1660; binrw reports the tail's failure as an
/// enum error, which is told apart here from end-of-input and bad magic by
/// its root cause. On success the fields are those at their offsets.
#[verifier::external_body]
pub(crate) fn decode_header(image: &[u8]) -> (decoded: Result<BootHeader, HeaderDecodeError>)
    requires
        image@.len() >= 44 ==> le32(image@, 40) == 2,
    ensures
        header_decoded(image@, decoded),
        decoded matches Err(HeaderDecodeError::Invalid(text)) ==> text@ == spec_header_error_text(image@),
{
    match HeaderV0::read(&mut Cursor::new(image)) {
        Ok(HeaderV0 { kernel_size, kernel_addr, ramdisk_size, ramdisk_addr, second_bootloader_size, second_bootloader_addr, tags_addr, page_size, osversionpatch, board_name, cmdline, hash_digest, versioned }) => Ok(BootHeader { kernel_size, kernel_addr, ramdisk_size, ramdisk_addr, second_bootloader_size, second_bootloader_addr, tags_addr, page_size, osversionpatch: osversionpatch.0, board_name, cmdline: cmdline.to_vec(), hash_digest, versioned: match versioned {
            HeaderV0Versioned::V0 => HeaderVersioned::V0,
            HeaderV0Versioned::V1 { recovery_dtbo_size, recovery_dtbo_addr } => HeaderVersioned::V1 { recovery_dtbo_size, recovery_dtbo_addr },
            HeaderV0Versioned::V2 { recovery_dtbo_size, recovery_dtbo_addr, dtb_size, dtb_addr } => HeaderVersioned::V2 { recovery_dtbo_size, recovery_dtbo_addr, dtb_size, dtb_addr },
        } }),
        Err(err) => Err(match err.root_cause() {
            BinrwError::BadMagic { .. } => HeaderDecodeError::BadMagic,
            BinrwError::Io(_) => HeaderDecodeError::Truncated,
            other => HeaderDecodeError::Invalid(other.to_string()),
        }),
    }
}


/// Encodes a header with binrw's `BinWrite::write` for `HeaderV0` into an
/// in-memory buffer.
///
/// Trusted: the writer emits the magic, the little-endian fields in
/// declaration order with the version computed from the tail, the command
/// line split around the digest, and the tail with its fixed header size;
/// writing into a growing `Vec` does not fail.
#[verifier::external_body]
pub(crate) fn encode_header_bytes(header: BootHeader) -> (bytes: Result<Vec<u8>, String>)
    requires
        header@.well_formed(),
    ensures
        bytes is Ok,
        bytes matches Ok(encoded) ==> encoded@ == encode_header(header@),
{
    let BootHeader { kernel_size, kernel_addr, ramdisk_size, ramdisk_addr, second_bootloader_size, second_bootloader_addr, tags_addr, page_size, osversionpatch, board_name, cmdline, hash_digest, versioned } = header;
    let versioned = match versioned {
        HeaderVersioned::V0 => HeaderV0Versioned::V0,
        HeaderVersioned::V1 { recovery_dtbo_size, recovery_dtbo_addr } => HeaderV0Versioned::V1 { recovery_dtbo_size, recovery_dtbo_addr },
        HeaderVersioned::V2 { recovery_dtbo_size, recovery_dtbo_addr, dtb_size, dtb_addr } => HeaderV0Versioned::V2 { recovery_dtbo_size, recovery_dtbo_addr, dtb_size, dtb_addr },
    };
    let raw = HeaderV0 { kernel_size, kernel_addr, ramdisk_size, ramdisk_addr, second_bootloader_size, second_bootloader_addr, tags_addr, page_size, osversionpatch: OsVersionPatch(osversionpatch), board_name, cmdline: Box::new(cmdline.try_into().unwrap()), hash_digest, versioned };
    let mut out = Vec::new();
    raw.write(&mut Cursor::new(&mut out)).map(|_| out).map_err(|err| err.to_string())
}

/// The `id` digest over the five payloads: one SHA-1 over all of them, each
/// payload followed by its length as a little-endian `u32`, in 32 bytes.
pub uninterp spec fn spec_payload_digest(
    kernel: Seq<u8>,
    ramdisk: Seq<u8>,
    second: Seq<u8>,
    recovery: Seq<u8>,
    dtb: Seq<u8>,
) -> [u8; 32];

/// `HeaderV0::compute_hash_digest::<&[u8], Sha1>` over the five payloads.
///
/// Trusted: it fails exactly when a payload is longer than `u32::MAX` bytes
/// (reading an in-memory slice does not fail); otherwise the 32 bytes are
/// the named digest, the 20 bytes of SHA-1 followed by zeros.
#[verifier::external_body]
pub(crate) fn payload_digest(kernel: &[u8], ramdisk: &[u8], second: &[u8], recovery: &[u8], dtb: &[u8]) -> (digest:
    Option<[u8; 32]>)
    ensures
        digest is Some <==> (kernel@.len() <= u32::MAX && ramdisk@.len() <= u32::MAX && second@.len() <= u32::MAX
            && recovery@.len() <= u32::MAX && dtb@.len() <= u32::MAX),
        digest matches Some(d) ==> d == spec_payload_digest(kernel@, ramdisk@, second@, recovery@, dtb@),
        digest matches Some(d) ==> d@.subrange(20, 32) == zeros(12),
{
    let (mut kernel, mut ramdisk, mut second, mut recovery, mut dtb) = (kernel, ramdisk, second, recovery, dtb);
    HeaderV0::compute_hash_digest::<&[u8], sha1::Sha1>(Some(&mut kernel), Some(&mut ramdisk), Some(&mut second), Some(&mut recovery), Some(&mut dtb)).ok()
}


/// Decoding what `encode_header` wrote gives the header back, whatever
/// follows it: the fields sit at the offsets the decoder reads, the version
/// reads 2 and the header size 1660.
#[verifier::rlimit(50)]
pub proof fn lemma_decode_encoded_header(h: HeaderModel, rest: Seq<u8>)
    requires
        h.well_formed(),
        h.versioned is V2,
    ensures
        (encode_header(h) + rest).subrange(0, 8) == BOOT_MAGIC@,
        le32(encode_header(h) + rest, 40) == 2,
        le32(encode_header(h) + rest, 1644) == HEADER_V2_SIZE,
        header_at(encode_header(h) + rest) == h,
        encode_header(h).len() == HEADER_V2_SIZE,
{
    vstd::bytes::lemma_auto_spec_u32_to_from_le_bytes();
    vstd::bytes::lemma_auto_spec_u64_to_from_le_bytes();
    let e = encode_header(h);
    let s = e + rest;
    assert(s.subrange(0, 1660) =~= e);
    let recovery_dtbo_size = h.versioned->V2_recovery_dtbo_size;
    let recovery_dtbo_addr = h.versioned->V2_recovery_dtbo_addr;
    let dtb_size = h.versioned->dtb_size;
    let dtb_addr = h.versioned->dtb_addr;
    assert forall|a: int, b: int| 0 <= a <= b <= 1660 implies #[trigger] s.subrange(a, b) == e.subrange(a, b) by {
        assert(s.subrange(a, b) =~= e.subrange(a, b));
    }
    assert(e.subrange(0, 8) =~= BOOT_MAGIC@);
    assert(e.subrange(8, 12) =~= spec_u32_to_le_bytes(h.kernel_size));
    assert(e.subrange(12, 16) =~= spec_u32_to_le_bytes(h.kernel_addr));
    assert(e.subrange(16, 20) =~= spec_u32_to_le_bytes(h.ramdisk_size));
    assert(e.subrange(20, 24) =~= spec_u32_to_le_bytes(h.ramdisk_addr));
    assert(e.subrange(24, 28) =~= spec_u32_to_le_bytes(h.second_bootloader_size));
    assert(e.subrange(28, 32) =~= spec_u32_to_le_bytes(h.second_bootloader_addr));
    assert(e.subrange(32, 36) =~= spec_u32_to_le_bytes(h.tags_addr));
    assert(e.subrange(36, 40) =~= spec_u32_to_le_bytes(h.page_size));
    assert(e.subrange(40, 44) =~= spec_u32_to_le_bytes(2));
    assert(e.subrange(44, 48) =~= spec_u32_to_le_bytes(h.osversionpatch));
    assert(e.subrange(48, 64) =~= h.board_name);
    assert(e.subrange(64, 576) =~= h.cmdline.subrange(0, 512));
    assert(e.subrange(576, 608) =~= h.hash_digest);
    assert(e.subrange(608, 1632) =~= h.cmdline.subrange(512, 1536));
    assert(e.subrange(1632, 1636) =~= spec_u32_to_le_bytes(recovery_dtbo_size));
    assert(e.subrange(1636, 1644) =~= spec_u64_to_le_bytes(recovery_dtbo_addr));
    assert(e.subrange(1644, 1648) =~= spec_u32_to_le_bytes(1660));
    assert(e.subrange(1648, 1652) =~= spec_u32_to_le_bytes(dtb_size));
    assert(e.subrange(1652, 1660) =~= spec_u64_to_le_bytes(dtb_addr));
    assert(le32(s, 8) == h.kernel_size);
    assert(le32(s, 12) == h.kernel_addr);
    assert(le32(s, 16) == h.ramdisk_size);
    assert(le32(s, 20) == h.ramdisk_addr);
    assert(le32(s, 24) == h.second_bootloader_size);
    assert(le32(s, 28) == h.second_bootloader_addr);
    assert(le32(s, 32) == h.tags_addr);
    assert(le32(s, 36) == h.page_size);
    assert(le32(s, 40) == 2);
    assert(le32(s, 44) == h.osversionpatch);
    assert(le32(s, 1632) == recovery_dtbo_size);
    assert(le64(s, 1636) == recovery_dtbo_addr);
    assert(le32(s, 1644) == 1660);
    assert(le32(s, 1648) == dtb_size);
    assert(le64(s, 1652) == dtb_addr);
    assert(s.subrange(64, 576) + s.subrange(608, 1632) =~= h.cmdline);
    assert(header_at(s) =~= h);
}


/// Encoding the header that the first 1660 bytes of `image` hold gives
/// those bytes back.
#[verifier::rlimit(50)]
pub proof fn lemma_encode_decoded_header(image: Seq<u8>)
    requires
        image.len() >= HEADER_V2_SIZE,
        image.subrange(0, 8) == BOOT_MAGIC@,
        le32(image, 40) == 2,
        le32(image, 1644) == HEADER_V2_SIZE,
    ensures
        header_at(image).well_formed(),
        encode_header(header_at(image)) == image.subrange(0, HEADER_V2_SIZE as int),
{
    vstd::bytes::lemma_auto_spec_u32_to_from_le_bytes();
    vstd::bytes::lemma_auto_spec_u64_to_from_le_bytes();
    let h = header_at(image);
    let e = encode_header(h);
    assert(spec_u32_to_le_bytes(2) == image.subrange(40, 44));
    assert(spec_u32_to_le_bytes(1660) == image.subrange(1644, 1648));
    assert(h.cmdline.subrange(0, 512) =~= image.subrange(64, 576));
    assert(h.cmdline.subrange(512, 1536) =~= image.subrange(608, 1632));
    assert(e =~= image.subrange(0, 1660));
}

} // verus!
