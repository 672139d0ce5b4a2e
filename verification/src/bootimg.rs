//! Android boot image v2 parsing, structural verification and repacking.
//!
//! The header's layout, its decoding and encoding and the `id` digest come
//! from `abootimg-oxide`; this module decides which sections a repack may
//! replace, where the payloads go, and what a device-ready image must pass.

use vstd::prelude::*;
use vstd::string::StringExecFns;

use crate::align::{is_pow2, is_power_of_two};
use crate::boot_header::{
    decode_header, header_at, payload_digest, spec_header_error_text, spec_payload_digest, BootHeader,
    HeaderDecodeError, HeaderModel, HeaderVersioned, version_of, BOOT_MAGIC, CMDLINE_FIELD_SIZE, HEADER_V2_SIZE,
    HEADER_VERSION_OFFSET, SHA1_SIZE,
};
use crate::assembler::{pad_to, push_bytes};
use crate::boot_cmdline::{cmdline_fields, field_text, lemma_field_text, spec_cmdline_fields, spec_wrap_cmdline_markers, wrap_cmdline_markers, CMDLINE_CAPACITY};
use crate::boot_header::{
    encode_header, encode_header_bytes, lemma_decode_encoded_header, lemma_encode_decoded_header, CMDLINE_FIELDS_SIZE,
};
use crate::cmdline::{nul_terminated_len, text_len, zeros};
use vstd::utf8::{
    decode_utf8, decode_utf8_split, encode_utf8, encode_utf8_decode_utf8, encode_utf8_valid_utf8,
    is_char_boundary_iff_not_is_continuation_byte, is_char_boundary_start_end_of_seq, is_continuation_byte,
    valid_utf8, valid_utf8_split,
};
use crate::codecs::utf8_lossy;
use crate::package::{le32, read_le_u32};
use vstd::slice::slice_to_vec;

verus! {

/// A payload's byte range within an image.
#[derive(Clone, Copy, Debug, PartialEq, Eq)]
pub struct Section {
    pub offset: usize,
    pub len: usize,
}

/// Where a header puts the five payloads, and the page-aligned end of the
/// last one.
#[derive(Clone, Copy, Debug, PartialEq, Eq)]
pub struct Layout {
    pub kernel: Section,
    pub ramdisk: Section,
    pub second: Section,
    pub recovery_dtbo: Section,
    pub dtb: Section,
    pub total_len: usize,
}

/// A parsed Android boot image v2.
#[derive(Clone, Debug, PartialEq, Eq)]
pub struct BootImage {
    pub header: BootHeader,
    /// `cmdline` field plus `extra_cmdline` field, concatenated and NUL-trimmed.
    pub cmdline: String,
    pub kernel: Section,
    pub ramdisk: Section,
    pub second: Section,
    pub recovery_dtbo: Section,
    pub dtb: Section,
    /// Page-aligned end of the last payload.
    pub total_len: usize,
}

/// A parsed image as mathematical values.
#[verifier::ext_equal]
pub struct ParsedModel {
    pub header: HeaderModel,
    pub cmdline: Seq<char>,
    pub layout: Layout,
}

impl View for BootImage {
    type V = ParsedModel;

    open spec fn view(&self) -> ParsedModel {
        ParsedModel {
            header: self.header@,
            cmdline: self.cmdline@,
            layout: Layout {
                kernel: self.kernel,
                ramdisk: self.ramdisk,
                second: self.second,
                recovery_dtbo: self.recovery_dtbo,
                dtb: self.dtb,
                total_len: self.total_len,
            },
        }
    }
}

/// A distinct Android boot image failure.
#[derive(Clone, Debug, PartialEq, Eq)]
pub enum BootImgError {
    BadMagic,
    Truncated { needed: usize, actual: usize },
    UnsupportedHeaderVersion(u32),
    BadPageSize(u32),
    /// The header did not decode; carries the decoder's own explanation.
    Header(String),
    TrailingData { expected: usize, actual: usize },
    EmptyKernel,
    EmptyRamdisk,
    EmptyDtb,
    CmdlineTooLong(usize),
    CmdlineForbiddenCharacter,
    CmdlineNotTerminated,
    CmdlineGarbage,
    IdMismatch,
    RecoveryOffsetMismatch { header: u64, computed: u64 },
    SectionOutOfBounds { section: &'static str, offset: usize, len: usize, image_len: usize },
    SizeOverflow(&'static str),
}

/// `error` is the decoder's own explanation of why `image` is rejected.
pub open spec fn decoder_error(image: Seq<u8>, error: BootImgError) -> bool {
    error matches BootImgError::Header(text) && text@ == spec_header_error_text(image)
}

/// The zero padding that takes `size` to the next multiple of `page`.
pub open spec fn padding_for(size: int, page: int) -> int {
    (page - size % page) % page
}

/// Where a v2 header puts the payloads, each at the page boundary after
/// the one before; a v0 or v1 header and a page size that is not a power
/// of two of at least the header's size are refused.
pub open spec fn spec_layout(h: HeaderModel) -> Result<Layout, BootImgError> {
    match h.versioned {
        HeaderVersioned::V2 { recovery_dtbo_size, dtb_size, .. } => {
            if h.page_size < HEADER_V2_SIZE || !is_pow2(h.page_size as int) {
                Err(BootImgError::BadPageSize(h.page_size))
            } else {
                let page = h.page_size as int;
                let kernel = HEADER_V2_SIZE + padding_for(HEADER_V2_SIZE as int, page);
                let ramdisk = kernel + h.kernel_size + padding_for(h.kernel_size as int, page);
                let second = ramdisk + h.ramdisk_size + padding_for(h.ramdisk_size as int, page);
                let recovery = second + h.second_bootloader_size + padding_for(h.second_bootloader_size as int, page);
                let recovery_end = recovery + recovery_dtbo_size;
                let dtb = recovery_end + padding_for(recovery_end, page);
                let dtb_end = dtb + dtb_size;
                let total = dtb_end + padding_for(dtb_end, page);
                if total > usize::MAX {
                    Err(BootImgError::SizeOverflow("boot image layout"))
                } else {
                    Ok(
                        Layout {
                            kernel: Section { offset: kernel as usize, len: h.kernel_size as usize },
                            ramdisk: Section { offset: ramdisk as usize, len: h.ramdisk_size as usize },
                            second: Section { offset: second as usize, len: h.second_bootloader_size as usize },
                            recovery_dtbo: Section { offset: recovery as usize, len: recovery_dtbo_size as usize },
                            dtb: Section { offset: dtb as usize, len: dtb_size as usize },
                            total_len: total as usize,
                        },
                    )
                }
            }
        },
        _ => Err(BootImgError::UnsupportedHeaderVersion(h.header_version())),
    }
}

fn padding(size: u64, page: u64) -> (pad: u64)
    requires
        page > 0,
    ensures
        pad == padding_for(size as int, page as int),
        pad < page,
{
    assert(size % page < page) by (nonlinear_arith)
        requires
            page > 0,
    ;
    let rest = page - size % page;
    let pad = rest % page;
    assert(pad < page) by (nonlinear_arith)
        requires
            page > 0,
            pad == rest % page,
    ;
    pad
}

fn header_version(versioned: &HeaderVersioned) -> (version: u32)
    ensures
        version == version_of(*versioned),
{
    match versioned {
        HeaderVersioned::V0 => 0,
        HeaderVersioned::V1 { .. } => 1,
        HeaderVersioned::V2 { .. } => 2,
    }
}

impl BootImage {
    /// Lays out the sections a header describes. The command line is left
    /// empty; `parse` fills it.
    pub fn new(header: BootHeader) -> (image: Result<BootImage, BootImgError>)
        ensures
            match spec_layout(header@) {
                Ok(layout) => image matches Ok(img) && img@ == (ParsedModel {
                    header: header@,
                    cmdline: Seq::empty(),
                    layout,
                }),
                Err(e) => image == Err::<BootImage, BootImgError>(e),
            },
    {
        let (recovery_dtbo_size, dtb_size) = match header.versioned {
            HeaderVersioned::V2 { recovery_dtbo_size, dtb_size, .. } => (recovery_dtbo_size, dtb_size),
            _ => return Err(BootImgError::UnsupportedHeaderVersion(header_version(&header.versioned))),
        };
        if header.page_size < HEADER_V2_SIZE || !is_power_of_two(header.page_size as u64) {
            return Err(BootImgError::BadPageSize(header.page_size));
        }
        let page = header.page_size as u64;
        let kernel = HEADER_V2_SIZE as u64 + padding(HEADER_V2_SIZE as u64, page);
        let ramdisk = kernel + header.kernel_size as u64 + padding(header.kernel_size as u64, page);
        let second = ramdisk + header.ramdisk_size as u64 + padding(header.ramdisk_size as u64, page);
        let recovery = second + header.second_bootloader_size as u64 + padding(
            header.second_bootloader_size as u64,
            page,
        );
        let recovery_end = recovery + recovery_dtbo_size as u64;
        let dtb = recovery_end + padding(recovery_end, page);
        let dtb_end = dtb + dtb_size as u64;
        let total = dtb_end + padding(dtb_end, page);
        if total as u128 > usize::MAX as u128 {
            return Err(BootImgError::SizeOverflow("boot image layout"));
        }
        Ok(
            BootImage {
                kernel: Section { offset: kernel as usize, len: header.kernel_size as usize },
                ramdisk: Section { offset: ramdisk as usize, len: header.ramdisk_size as usize },
                second: Section { offset: second as usize, len: header.second_bootloader_size as usize },
                recovery_dtbo: Section { offset: recovery as usize, len: recovery_dtbo_size as usize },
                dtb: Section { offset: dtb as usize, len: dtb_size as usize },
                total_len: total as usize,
                cmdline: String::new(),
                header,
            },
        )
    }
}


/// What `read_header` gives for `image`: `None` where the decoder rejects
/// the header in its own words. The version field is checked first, when
/// the image reaches it.
pub open spec fn spec_read_header(image: Seq<u8>) -> Option<Result<HeaderModel, BootImgError>> {
    let truncated = BootImgError::Truncated { needed: HEADER_V2_SIZE as usize, actual: image.len() as usize };
    if image.len() >= 44 && le32(image, 40) != 2 {
        Some(Err(BootImgError::UnsupportedHeaderVersion(le32(image, 40) as u32)))
    } else if image.len() < 8 {
        Some(Err(truncated))
    } else if image.subrange(0, 8) != BOOT_MAGIC@ {
        Some(Err(BootImgError::BadMagic))
    } else if image.len() < 1632 {
        Some(Err(truncated))
    } else if image.len() < HEADER_V2_SIZE || le32(image, 1644) != HEADER_V2_SIZE {
        None
    } else {
        Some(Ok(header_at(image)))
    }
}

/// Decodes the v2 header at the start of `image`.
pub fn read_header(image: &[u8]) -> (header: Result<BootHeader, BootImgError>)
    ensures
        match spec_read_header(image@) {
            None => header matches Err(e) && decoder_error(image@, e),
            Some(Err(e)) => header == Err::<BootHeader, BootImgError>(e),
            Some(Ok(h)) => header matches Ok(found) && found@ == h,
        },
{
    if let Some(version) = read_le_u32(image, HEADER_VERSION_OFFSET) {
        if version != 2 {
            return Err(BootImgError::UnsupportedHeaderVersion(version));
        }
    }
    match decode_header(image) {
        Ok(header) => Ok(header),
        Err(HeaderDecodeError::BadMagic) => Err(BootImgError::BadMagic),
        Err(HeaderDecodeError::Truncated) => Err(
            BootImgError::Truncated { needed: HEADER_V2_SIZE as usize, actual: image.len() },
        ),
        Err(HeaderDecodeError::Invalid(text)) => Err(BootImgError::Header(text)),
    }
}

/// The command line that the two fields hold together.
pub open spec fn spec_cmdline_text(fields: Seq<u8>) -> Seq<char> {
    field_text(fields.subrange(0, CMDLINE_FIELD_SIZE as int)) + field_text(
        fields.subrange(CMDLINE_FIELD_SIZE as int, fields.len() as int),
    )
}

/// The text of `field` up to its first NUL, decoded leniently.
pub fn nul_terminated(field: &[u8]) -> (text: String)
    ensures
        text@ == field_text(field@),
{
    let end = nul_terminated_len(field);
    proof {
        lemma_field_text(field@);
    }
    utf8_lossy(&field[0..end])
}

/// The command line that the `cmdline` and `extra_cmdline` fields hold.
pub fn cmdline_text(fields: &[u8]) -> (text: String)
    requires
        fields@.len() >= CMDLINE_FIELD_SIZE,
    ensures
        text@ == spec_cmdline_text(fields@),
{
    let mut text = nul_terminated(&fields[0..CMDLINE_FIELD_SIZE]);
    let extra = nul_terminated(&fields[CMDLINE_FIELD_SIZE..fields.len()]);
    text.append(extra.as_str());
    text
}

/// The error for `section` when it does not lie within `image_len` bytes.
pub open spec fn section_error(name: &'static str, section: Section, image_len: int) -> Option<BootImgError> {
    if section.offset + section.len > usize::MAX || section.offset + section.len > image_len {
        Some(
            BootImgError::SectionOutOfBounds {
                section: name,
                offset: section.offset,
                len: section.len,
                image_len: image_len as usize,
            },
        )
    } else {
        None
    }
}

/// The first section, in image order, that does not lie within
/// `image_len` bytes.
pub open spec fn bounds_error(layout: Layout, image_len: int) -> Option<BootImgError> {
    if section_error("kernel", layout.kernel, image_len) is Some {
        section_error("kernel", layout.kernel, image_len)
    } else if section_error("ramdisk", layout.ramdisk, image_len) is Some {
        section_error("ramdisk", layout.ramdisk, image_len)
    } else if section_error("second", layout.second, image_len) is Some {
        section_error("second", layout.second, image_len)
    } else if section_error("recovery_dtbo", layout.recovery_dtbo, image_len) is Some {
        section_error("recovery_dtbo", layout.recovery_dtbo, image_len)
    } else {
        section_error("dtb", layout.dtb, image_len)
    }
}

fn check_section(name: &'static str, section: Section, image_len: usize) -> (checked: Result<(), BootImgError>)
    ensures
        match section_error(name, section, image_len as int) {
            Some(e) => checked == Err::<(), BootImgError>(e),
            None => checked is Ok,
        },
{
    match section.offset.checked_add(section.len) {
        Some(end) => if end <= image_len {
            return Ok(());
        },
        None => {},
    }
    Err(BootImgError::SectionOutOfBounds { section: name, offset: section.offset, len: section.len, image_len })
}

/// What `parse` gives for `image`: `None` where the decoder rejects the
/// header in its own words.
pub open spec fn spec_parse(image: Seq<u8>) -> Option<Result<ParsedModel, BootImgError>> {
    match spec_read_header(image) {
        None => None,
        Some(Err(e)) => Some(Err(e)),
        Some(Ok(h)) => match spec_layout(h) {
            Err(e) => Some(Err(e)),
            Ok(layout) => match bounds_error(layout, image.len() as int) {
                Some(e) => Some(Err(e)),
                None => Some(Ok(ParsedModel { header: h, cmdline: spec_cmdline_text(h.cmdline), layout })),
            },
        },
    }
}

/// `section` lies within `image_len` bytes.
pub open spec fn section_within(section: Section, image_len: int) -> bool {
    section.offset + section.len <= image_len
}

/// `total` is the least multiple of `page` that is at least `end`.
pub open spec fn least_page_multiple(total: int, end: int, page: int) -> bool {
    &&& total % page == 0
    &&& end <= total < end + page
}

/// Padding to the next page boundary gives the least page multiple.
proof fn lemma_padding_rounds_up(end: int, page: int)
    requires
        0 <= end,
        0 < page,
    ensures
        least_page_multiple(end + padding_for(end, page), end, page),
{
    let r = end % page;
    let q = end / page;
    assert(end == q * page + r && 0 <= r < page) by (nonlinear_arith)
        requires
            0 < page,
            r == end % page,
            q == end / page,
    ;
    if r == 0 {
        assert(padding_for(end, page) == 0) by (nonlinear_arith)
            requires
                0 < page,
                r == end % page,
                r == 0,
        ;
    } else {
        assert(padding_for(end, page) == page - r) by (nonlinear_arith)
            requires
                0 < page,
                0 < r < page,
                r == end % page,
        ;
        assert((q * page + r + (page - r)) % page == 0) by (nonlinear_arith)
            requires
                0 < page,
        ;
    }
}

/// A parsed image has every section inside it and its total length is
/// the least page multiple that holds the DTB; bytes appended to it do not
/// change what it parses to.
pub proof fn lemma_parse_layout(image: Seq<u8>, extra: Seq<u8>)
    requires
        spec_parse(image) matches Some(Ok(_)),
    ensures
        spec_parse(image) matches Some(Ok(m)) && {
            &&& section_within(m.layout.kernel, image.len() as int)
            &&& section_within(m.layout.ramdisk, image.len() as int)
            &&& section_within(m.layout.second, image.len() as int)
            &&& section_within(m.layout.recovery_dtbo, image.len() as int)
            &&& section_within(m.layout.dtb, image.len() as int)
            &&& least_page_multiple(
                m.layout.total_len as int,
                m.layout.dtb.offset + m.layout.dtb.len,
                m.header.page_size as int,
            )
            &&& spec_parse(image + extra) == spec_parse(image)
        },
{
    let m = spec_parse(image)->0->Ok_0;
    let h = m.header;
    let big = image + extra;
    let page = h.page_size as int;
    let v = h.versioned;
    let dtb_end = m.layout.dtb.offset + m.layout.dtb.len;
    lemma_padding_rounds_up(dtb_end, page);
    assert forall|a: int, b: int| 0 <= a <= b <= image.len() implies #[trigger] big.subrange(a, b) == image.subrange(
        a,
        b,
    ) by {
        assert(big.subrange(a, b) =~= image.subrange(a, b));
    }
    assert(big.subrange(40, 44) == image.subrange(40, 44));
    assert(big.subrange(0, 8) == image.subrange(0, 8));
    assert(big.subrange(1644, 1648) == image.subrange(1644, 1648));
    assert(header_at(big) =~= header_at(image)) by {
        assert(big.subrange(8, 12) == image.subrange(8, 12));
        assert(big.subrange(12, 16) == image.subrange(12, 16));
        assert(big.subrange(16, 20) == image.subrange(16, 20));
        assert(big.subrange(20, 24) == image.subrange(20, 24));
        assert(big.subrange(24, 28) == image.subrange(24, 28));
        assert(big.subrange(28, 32) == image.subrange(28, 32));
        assert(big.subrange(32, 36) == image.subrange(32, 36));
        assert(big.subrange(36, 40) == image.subrange(36, 40));
        assert(big.subrange(44, 48) == image.subrange(44, 48));
        assert(big.subrange(48, 64) == image.subrange(48, 64));
        assert(big.subrange(64, 576) == image.subrange(64, 576));
        assert(big.subrange(576, 608) == image.subrange(576, 608));
        assert(big.subrange(608, 1632) == image.subrange(608, 1632));
        assert(big.subrange(1632, 1636) == image.subrange(1632, 1636));
        assert(big.subrange(1636, 1644) == image.subrange(1636, 1644));
        assert(big.subrange(1648, 1652) == image.subrange(1648, 1652));
        assert(big.subrange(1652, 1660) == image.subrange(1652, 1660));
    }
    assert(spec_read_header(big) == spec_read_header(image));
}

/// `result` is what the outcome `expected` of reading `image` describes.
pub open spec fn parse_outcome(
    image: Seq<u8>,
    expected: Option<Result<ParsedModel, BootImgError>>,
    result: Result<BootImage, BootImgError>,
) -> bool {
    match expected {
        None => result matches Err(e) && decoder_error(image, e),
        Some(Err(e)) => result == Err::<BootImage, BootImgError>(e),
        Some(Ok(m)) => result matches Ok(parsed) && parsed@ == m,
    }
}

impl BootImage {
    /// The five payloads by name, in image order.
    pub fn sections(&self) -> (sections: [(&'static str, Section); 5])
        ensures
            sections@ == seq![
                ("kernel", self.kernel),
                ("ramdisk", self.ramdisk),
                ("second", self.second),
                ("recovery_dtbo", self.recovery_dtbo),
                ("dtb", self.dtb),
            ],
    {
        let sections = [
            ("kernel", self.kernel),
            ("ramdisk", self.ramdisk),
            ("second", self.second),
            ("recovery_dtbo", self.recovery_dtbo),
            ("dtb", self.dtb),
        ];
        assert(sections@ =~= seq![
            ("kernel", self.kernel),
            ("ramdisk", self.ramdisk),
            ("second", self.second),
            ("recovery_dtbo", self.recovery_dtbo),
            ("dtb", self.dtb),
        ]);
        sections
    }
}

/// Parses an Android boot image v2. Payload bounds are checked against the
/// image length, but trailing data is tolerated.
pub fn parse(image: &[u8]) -> (parsed: Result<BootImage, BootImgError>)
    ensures
        parse_outcome(image@, spec_parse(image@), parsed),
{
    let header = read_header(image)?;
    let mut parsed = BootImage::new(header)?;
    parsed.cmdline = cmdline_text(parsed.header.cmdline.as_slice());
    check_section("kernel", parsed.kernel, image.len())?;
    check_section("ramdisk", parsed.ramdisk, image.len())?;
    check_section("second", parsed.second, image.len())?;
    check_section("recovery_dtbo", parsed.recovery_dtbo, image.len())?;
    check_section("dtb", parsed.dtb, image.len())?;
    Ok(parsed)
}


/// The checks a bootable image passes beyond decoding: the kernel, ramdisk
/// and DTB are present and the file is exactly the layout's length.
pub open spec fn completeness_error(layout: Layout, image_len: int) -> Option<BootImgError> {
    if layout.kernel.len == 0 {
        Some(BootImgError::EmptyKernel)
    } else if layout.ramdisk.len == 0 {
        Some(BootImgError::EmptyRamdisk)
    } else if layout.dtb.len == 0 {
        Some(BootImgError::EmptyDtb)
    } else if image_len < layout.total_len {
        Some(BootImgError::Truncated { needed: layout.total_len, actual: image_len as usize })
    } else if image_len > layout.total_len {
        Some(BootImgError::TrailingData { expected: layout.total_len, actual: image_len as usize })
    } else {
        None
    }
}

impl BootImage {
    /// Checks that the mandatory payloads are present and that the file is
    /// exactly the layout's length.
    pub fn check_complete(&self, image_len: usize) -> (checked: Result<(), BootImgError>)
        ensures
            match completeness_error(self@.layout, image_len as int) {
                Some(e) => checked == Err::<(), BootImgError>(e),
                None => checked is Ok,
            },
    {
        if self.kernel.len == 0 {
            return Err(BootImgError::EmptyKernel);
        }
        if self.ramdisk.len == 0 {
            return Err(BootImgError::EmptyRamdisk);
        }
        if self.dtb.len == 0 {
            return Err(BootImgError::EmptyDtb);
        }
        if image_len < self.total_len {
            return Err(BootImgError::Truncated { needed: self.total_len, actual: image_len });
        }
        if image_len > self.total_len {
            return Err(BootImgError::TrailingData { expected: self.total_len, actual: image_len });
        }
        Ok(())
    }
}

/// What `verify_cmdline_field` finds in `field`: no NUL at all, or
/// something other than NUL after the first one.
pub open spec fn cmdline_field_error(field: Seq<u8>) -> Option<BootImgError> {
    let end = text_len(field, 0);
    if end >= field.len() {
        Some(BootImgError::CmdlineNotTerminated)
    } else if exists|i: int| end < i < field.len() && field[i] != 0 {
        Some(BootImgError::CmdlineGarbage)
    } else {
        None
    }
}

/// Checks that a command line field is NUL-terminated and NUL-padded.
pub fn verify_cmdline_field(field: &[u8]) -> (checked: Result<(), BootImgError>)
    ensures
        match cmdline_field_error(field@) {
            Some(e) => checked == Err::<(), BootImgError>(e),
            None => checked is Ok,
        },
{
    let end = nul_terminated_len(field);
    if end >= field.len() {
        return Err(BootImgError::CmdlineNotTerminated);
    }
    let mut i = end + 1;
    while i < field.len()
        invariant
            end == text_len(field@, 0),
            end < i <= field@.len(),
            forall|j: int| end < j < i ==> field@[j] == 0,
        decreases field@.len() - i,
    {
        if field[i] != 0 {
            assert(end < i < field@.len() && field@[i as int] != 0);
            return Err(BootImgError::CmdlineGarbage);
        }
        i += 1;
    }
    Ok(())
}

/// The bytes of `section` in `image`.
pub open spec fn payload(image: Seq<u8>, section: Section) -> Seq<u8> {
    image.subrange(section.offset as int, section.offset + section.len)
}

/// `section` lies within `image_len` bytes.
pub open spec fn within(section: Section, image_len: int) -> bool {
    section.offset + section.len <= image_len
}

/// All five sections lie within `image_len` bytes.
pub open spec fn sections_within(layout: Layout, image_len: int) -> bool {
    &&& within(layout.kernel, image_len)
    &&& within(layout.ramdisk, image_len)
    &&& within(layout.second, image_len)
    &&& within(layout.recovery_dtbo, image_len)
    &&& within(layout.dtb, image_len)
}

/// The digest over the five payloads `layout` places in `image`.
pub open spec fn layout_digest(image: Seq<u8>, layout: Layout) -> Seq<u8> {
    spec_payload_digest(
        payload(image, layout.kernel),
        payload(image, layout.ramdisk),
        payload(image, layout.second),
        payload(image, layout.recovery_dtbo),
        payload(image, layout.dtb),
    )@
}

/// The five payloads fit the `u32` lengths the digest records.
pub open spec fn payload_lengths_fit(layout: Layout) -> bool {
    &&& layout.kernel.len <= u32::MAX
    &&& layout.ramdisk.len <= u32::MAX
    &&& layout.second.len <= u32::MAX
    &&& layout.recovery_dtbo.len <= u32::MAX
    &&& layout.dtb.len <= u32::MAX
}

fn section_bytes<'a>(image: &'a [u8], section: Section) -> (bytes: &'a [u8])
    requires
        within(section, image@.len() as int),
    ensures
        bytes@ == payload(image@, section),
{
    let image_len = image.len();
    let end = section.offset + section.len;
    &image[section.offset..end]
}

/// The SHA-1 that the header's `id` field must hold for this image.
pub fn compute_id(image: &[u8], parsed: &BootImage) -> (id: Result<[u8; 20], BootImgError>)
    requires
        sections_within(parsed@.layout, image@.len() as int),
    ensures
        payload_lengths_fit(parsed@.layout) ==> (id matches Ok(bytes) && bytes@ == layout_digest(
            image@,
            parsed@.layout,
        ).subrange(0, SHA1_SIZE as int)),
        !payload_lengths_fit(parsed@.layout) ==> id == Err::<[u8; 20], BootImgError>(
            BootImgError::SizeOverflow("payload length"),
        ),
{
    let digest = match payload_digest(
        section_bytes(image, parsed.kernel),
        section_bytes(image, parsed.ramdisk),
        section_bytes(image, parsed.second),
        section_bytes(image, parsed.recovery_dtbo),
        section_bytes(image, parsed.dtb),
    ) {
        Some(digest) => digest,
        None => return Err(BootImgError::SizeOverflow("payload length")),
    };
    let mut id = [0u8; 20];
    let mut i: usize = 0;
    while i < 20
        invariant
            i <= 20,
            forall|j: int| 0 <= j < i ==> id@[j] == digest@[j],
        decreases 20 - i,
    {
        id[i] = digest[i];
        i += 1;
    }
    assert(id@ =~= digest@.subrange(0, SHA1_SIZE as int));
    Ok(id)
}

/// What `verify` gives for `image`: `None` where the decoder rejects the
/// header in its own words.
pub open spec fn spec_verify(image: Seq<u8>) -> Option<Result<ParsedModel, BootImgError>> {
    match spec_parse(image) {
        Some(Ok(m)) => match completeness_error(m.layout, image.len() as int) {
            Some(e) => Some(Err(e)),
            None => match cmdline_field_error(m.header.cmdline.subrange(0, CMDLINE_FIELD_SIZE as int)) {
                Some(e) => Some(Err(e)),
                None => match cmdline_field_error(
                    m.header.cmdline.subrange(CMDLINE_FIELD_SIZE as int, m.header.cmdline.len() as int),
                ) {
                    Some(e) => Some(Err(e)),
                    None => if m.header.hash_digest.subrange(0, SHA1_SIZE as int) != layout_digest(
                        image,
                        m.layout,
                    ).subrange(0, SHA1_SIZE as int) {
                        Some(Err(BootImgError::IdMismatch))
                    } else {
                        Some(Ok(m))
                    },
                },
            },
        },
        other => other,
    }
}

/// Structural and integrity verification: the image parses, is complete,
/// its command line fields are clean and its `id` matches the payloads.
/// Returns the parsed image on success.
pub fn verify(image: &[u8]) -> (verified: Result<BootImage, BootImgError>)
    ensures
        parse_outcome(image@, spec_verify(image@), verified),
{
    let parsed = parse(image)?;
    parsed.check_complete(image.len())?;
    verify_cmdline_field(&parsed.header.cmdline.as_slice()[0..CMDLINE_FIELD_SIZE])?;
    verify_cmdline_field(&parsed.header.cmdline.as_slice()[CMDLINE_FIELD_SIZE..parsed.header.cmdline.len()])?;
    let id = compute_id(image, &parsed)?;
    if !crate::fdt::bytes_equal(&parsed.header.hash_digest.as_slice()[0..SHA1_SIZE], &id) {
        return Err(BootImgError::IdMismatch);
    }
    Ok(parsed)
}


/// A request to rebuild an Android boot image with some sections replaced.
///
/// Sections left as `None` are copied verbatim. `second`, `recovery_dtbo` and
/// `dtb` are always copied from the template.
#[derive(Clone, Copy, Debug, Default)]
pub struct Repack<'a> {
    pub kernel: Option<&'a [u8]>,
    pub ramdisk: Option<&'a [u8]>,
    pub cmdline: Option<&'a str>,
    /// When true, the cmdline written is `wrap_cmdline_markers(cmdline)`.
    pub wrap_markers: bool,
}

/// The recovery DTBO address a header's tail records; v0 has none.
pub open spec fn recovery_addr_of(versioned: HeaderVersioned) -> u64 {
    match versioned {
        HeaderVersioned::V0 => 0,
        HeaderVersioned::V1 { recovery_dtbo_addr, .. } => recovery_dtbo_addr,
        HeaderVersioned::V2 { recovery_dtbo_addr, .. } => recovery_dtbo_addr,
    }
}

/// The tail with its recovery DTBO address set to `addr`, where it has one.
pub open spec fn with_recovery_addr(versioned: HeaderVersioned, addr: u64) -> HeaderVersioned {
    match versioned {
        HeaderVersioned::V0 => HeaderVersioned::V0,
        HeaderVersioned::V1 { recovery_dtbo_size, .. } => HeaderVersioned::V1 {
            recovery_dtbo_size,
            recovery_dtbo_addr: addr,
        },
        HeaderVersioned::V2 { recovery_dtbo_size, dtb_size, dtb_addr, .. } => HeaderVersioned::V2 {
            recovery_dtbo_size,
            recovery_dtbo_addr: addr,
            dtb_size,
            dtb_addr,
        },
    }
}

/// The recovery DTBO address the header records.
pub fn recovery_dtbo_offset(header: &BootHeader) -> (offset: u64)
    ensures
        offset == recovery_addr_of(header.versioned),
{
    match header.versioned {
        HeaderVersioned::V0 => 0,
        HeaderVersioned::V1 { recovery_dtbo_addr, .. } => recovery_dtbo_addr,
        HeaderVersioned::V2 { recovery_dtbo_addr, .. } => recovery_dtbo_addr,
    }
}

/// Records `offset` as the recovery DTBO address, where the header has one.
pub fn set_recovery_dtbo_offset(header: &mut BootHeader, offset: u64)
    ensures
        final(header)@ == (HeaderModel { versioned: with_recovery_addr(old(header).versioned, offset), ..old(header)@ }),
        recovery_addr_of(final(header).versioned) == if old(header).versioned is V0 {
            0
        } else {
            offset
        },
{
    header.versioned = match header.versioned {
        HeaderVersioned::V0 => HeaderVersioned::V0,
        HeaderVersioned::V1 { recovery_dtbo_size, .. } => HeaderVersioned::V1 {
            recovery_dtbo_size,
            recovery_dtbo_addr: offset,
        },
        HeaderVersioned::V2 { recovery_dtbo_size, dtb_size, dtb_addr, .. } => HeaderVersioned::V2 {
            recovery_dtbo_size,
            recovery_dtbo_addr: offset,
            dtb_size,
            dtb_addr,
        },
    };
}

/// `bytes` at `offset`, after zero padding from the end of `out`.
pub open spec fn place(out: Seq<u8>, offset: int, bytes: Seq<u8>) -> Seq<u8> {
    out + zeros(offset - out.len()) + bytes
}

/// An image: the encoded header, each payload at its section's offset
/// with zeros between, and zeros up to the total length.
pub open spec fn image_bytes(
    header: Seq<u8>,
    layout: Layout,
    kernel: Seq<u8>,
    ramdisk: Seq<u8>,
    second: Seq<u8>,
    recovery: Seq<u8>,
    dtb: Seq<u8>,
) -> Seq<u8> {
    let out = place(header, layout.kernel.offset as int, kernel);
    let out = place(out, layout.ramdisk.offset as int, ramdisk);
    let out = place(out, layout.second.offset as int, second);
    let out = place(out, layout.recovery_dtbo.offset as int, recovery);
    let out = place(out, layout.dtb.offset as int, dtb);
    out + zeros(layout.total_len - out.len())
}

/// Each section of `layout` ends before the next begins, and the last
/// before the total length.
pub open spec fn layout_ordered(layout: Layout) -> bool {
    &&& HEADER_V2_SIZE <= layout.kernel.offset
    &&& layout.kernel.offset + layout.kernel.len <= layout.ramdisk.offset
    &&& layout.ramdisk.offset + layout.ramdisk.len <= layout.second.offset
    &&& layout.second.offset + layout.second.len <= layout.recovery_dtbo.offset
    &&& layout.recovery_dtbo.offset + layout.recovery_dtbo.len <= layout.dtb.offset
    &&& layout.dtb.offset + layout.dtb.len <= layout.total_len
}

proof fn lemma_padding(size: int, page: int)
    requires
        page > 0,
    ensures
        0 <= padding_for(size, page) < page,
        (size + padding_for(size, page)) % page == 0,
{
    let r = size % page;
    assert(0 <= r < page) by (nonlinear_arith)
        requires
            page > 0,
            r == size % page,
    ;
    if r == 0 {
        assert(padding_for(size, page) == 0) by (nonlinear_arith)
            requires
                page > 0,
                r == size % page,
                r == 0,
        ;
    } else {
        assert(padding_for(size, page) == page - r) by (nonlinear_arith)
            requires
                page > 0,
                r == size % page,
                0 < r < page,
        ;
        assert((size + page - r) % page == 0) by (nonlinear_arith)
            requires
                page > 0,
                r == size % page,
        ;
    }
}

/// A layout that a header gives is ordered.
pub proof fn lemma_layout_ordered(h: HeaderModel)
    ensures
        spec_layout(h) matches Ok(layout) ==> layout_ordered(layout),
{
    if let Ok(layout) = spec_layout(h) {
        let page = h.page_size as int;
        if let HeaderVersioned::V2 { recovery_dtbo_size, dtb_size, .. } = h.versioned {
            lemma_padding(HEADER_V2_SIZE as int, page);
            lemma_padding(h.kernel_size as int, page);
            lemma_padding(h.ramdisk_size as int, page);
            lemma_padding(h.second_bootloader_size as int, page);
            lemma_padding(layout.recovery_dtbo.offset + recovery_dtbo_size, page);
            lemma_padding(layout.dtb.offset + dtb_size, page);
        }
    }
}

fn place_payloads(
    header: &[u8],
    layout: &Layout,
    kernel: &[u8],
    ramdisk: &[u8],
    second: &[u8],
    recovery: &[u8],
    dtb: &[u8],
) -> (image: Vec<u8>)
    requires
        layout_ordered(*layout),
        header@.len() <= layout.kernel.offset,
        kernel@.len() == layout.kernel.len,
        ramdisk@.len() == layout.ramdisk.len,
        second@.len() == layout.second.len,
        recovery@.len() == layout.recovery_dtbo.len,
        dtb@.len() == layout.dtb.len,
    ensures
        image@ == image_bytes(header@, *layout, kernel@, ramdisk@, second@, recovery@, dtb@),
{
    let mut out: Vec<u8> = Vec::with_capacity(layout.total_len);
    push_bytes(&mut out, header);
    pad_to(&mut out, layout.kernel.offset);
    push_bytes(&mut out, kernel);
    pad_to(&mut out, layout.ramdisk.offset);
    push_bytes(&mut out, ramdisk);
    pad_to(&mut out, layout.second.offset);
    push_bytes(&mut out, second);
    pad_to(&mut out, layout.recovery_dtbo.offset);
    push_bytes(&mut out, recovery);
    pad_to(&mut out, layout.dtb.offset);
    push_bytes(&mut out, dtb);
    pad_to(&mut out, layout.total_len);
    out
}

/// A v2 header encodes to exactly its 1660 bytes.
pub proof fn lemma_encoded_header_len(h: HeaderModel)
    requires
        h.well_formed(),
        h.versioned is V2,
    ensures
        encode_header(h).len() == HEADER_V2_SIZE,
{
    vstd::bytes::lemma_auto_spec_u32_to_from_le_bytes();
    vstd::bytes::lemma_auto_spec_u64_to_from_le_bytes();
}


/// The bytes a payload request stands for: the replacement when there is
/// one, else the template's own payload.
pub open spec fn chosen_payload(choice: Option<&[u8]>, template: Seq<u8>, section: Section) -> Seq<u8> {
    match choice {
        Some(bytes) => bytes@,
        None => payload(template, section),
    }
}

/// The command line bytes a request asks for; `None` keeps the template's
/// fields.
pub open spec fn requested_cmdline(req: Repack) -> Option<Seq<u8>> {
    match req.cmdline {
        None => None,
        Some(text) => Some(
            encode_utf8(
                if req.wrap_markers {
                    spec_wrap_cmdline_markers(text@)
                } else {
                    text@
                },
            ),
        ),
    }
}

/// `bytes` holds a NUL, a newline or a carriage return.
pub open spec fn has_forbidden_byte(bytes: Seq<u8>) -> bool {
    exists|i: int| 0 <= i < bytes.len() && (bytes[i] == 0 || bytes[i] == 10 || bytes[i] == 13)
}

/// The command line fields a repack writes, or why the requested command
/// line is refused.
pub open spec fn repacked_cmdline(req: Repack, fields: Seq<u8>) -> Result<Seq<u8>, BootImgError> {
    match requested_cmdline(req) {
        None => Ok(fields),
        Some(bytes) => if has_forbidden_byte(bytes) {
            Err(BootImgError::CmdlineForbiddenCharacter)
        } else if bytes.len() > CMDLINE_CAPACITY {
            Err(BootImgError::CmdlineTooLong(bytes.len() as usize))
        } else {
            Ok(spec_cmdline_fields(bytes))
        },
    }
}

/// What repacking the parsed template `m` gives.
pub open spec fn spec_repack_parsed(template: Seq<u8>, m: ParsedModel, req: Repack) -> Result<Seq<u8>, BootImgError> {
    let layout = m.layout;
    let header = m.header;
    let recovery_offset = recovery_addr_of(header.versioned);
    let kernel = chosen_payload(req.kernel, template, layout.kernel);
    let ramdisk = chosen_payload(req.ramdisk, template, layout.ramdisk);
    let second = payload(template, layout.second);
    let recovery = payload(template, layout.recovery_dtbo);
    let dtb = payload(template, layout.dtb);
    match completeness_error(layout, template.len() as int) {
        Some(e) => Err(e),
        None => if layout.recovery_dtbo.len != 0 && recovery_offset != layout.recovery_dtbo.offset {
            Err(
                BootImgError::RecoveryOffsetMismatch {
                    header: recovery_offset,
                    computed: layout.recovery_dtbo.offset as u64,
                },
            )
        } else if kernel.len() == 0 {
            Err(BootImgError::EmptyKernel)
        } else if ramdisk.len() == 0 {
            Err(BootImgError::EmptyRamdisk)
        } else if kernel.len() > u32::MAX {
            Err(BootImgError::SizeOverflow("kernel section length"))
        } else if ramdisk.len() > u32::MAX {
            Err(BootImgError::SizeOverflow("ramdisk section length"))
        } else {
            match repacked_cmdline(req, header.cmdline) {
                Err(e) => Err(e),
                Ok(fields) => {
                    let rebuilt = HeaderModel {
                        kernel_size: kernel.len() as u32,
                        ramdisk_size: ramdisk.len() as u32,
                        cmdline: fields,
                        hash_digest: spec_payload_digest(kernel, ramdisk, second, recovery, dtb)@,
                        ..header
                    };
                    match spec_layout(rebuilt) {
                        Err(e) => Err(e),
                        Ok(placed) => {
                            let written = if recovery.len() != 0 {
                                HeaderModel {
                                    versioned: with_recovery_addr(rebuilt.versioned, placed.recovery_dtbo.offset as u64),
                                    ..rebuilt
                                }
                            } else {
                                rebuilt
                            };
                            Ok(image_bytes(encode_header(written), placed, kernel, ramdisk, second, recovery, dtb))
                        },
                    }
                },
            }
        },
    }
}

/// What `repack` gives: `None` where the decoder rejects the template's
/// header in its own words.
pub open spec fn spec_repack(template: Seq<u8>, req: Repack) -> Option<Result<Seq<u8>, BootImgError>> {
    match spec_parse(template) {
        None => None,
        Some(Err(e)) => Some(Err(e)),
        Some(Ok(m)) => Some(spec_repack_parsed(template, m, req)),
    }
}

/// `result` is what the outcome `expected` of building from `image`
/// describes.
pub open spec fn bytes_outcome(
    image: Seq<u8>,
    expected: Option<Result<Seq<u8>, BootImgError>>,
    result: Result<Vec<u8>, BootImgError>,
) -> bool {
    match expected {
        None => result matches Err(e) && decoder_error(image, e),
        Some(Err(e)) => result == Err::<Vec<u8>, BootImgError>(e),
        Some(Ok(bytes)) => result matches Ok(out) && out@ == bytes,
    }
}

fn has_forbidden(bytes: &[u8]) -> (found: bool)
    ensures
        found == has_forbidden_byte(bytes@),
{
    let mut i: usize = 0;
    while i < bytes.len()
        invariant
            i <= bytes@.len(),
            forall|j: int| 0 <= j < i ==> !(bytes@[j] == 0 || bytes@[j] == 10 || bytes@[j] == 13),
        decreases bytes@.len() - i,
    {
        let b = bytes[i];
        if b == 0 || b == 10 || b == 13 {
            assert(0 <= i < bytes@.len() && (bytes@[i as int] == 0 || bytes@[i as int] == 10 || bytes@[i as int] == 13));
            return true;
        }
        i += 1;
    }
    false
}

fn requested_fields(req: &Repack<'_>, fields: Vec<u8>) -> (rewritten: Result<Vec<u8>, BootImgError>)
    requires
        fields@.len() == CMDLINE_FIELDS_SIZE,
    ensures
        match repacked_cmdline(*req, fields@) {
            Ok(f) => rewritten matches Ok(out) && out@ == f && out@.len() == CMDLINE_FIELDS_SIZE,
            Err(e) => rewritten == Err::<Vec<u8>, BootImgError>(e),
        },
{
    match req.cmdline {
        None => Ok(fields),
        Some(cmdline) => {
            let text = if req.wrap_markers {
                wrap_cmdline_markers(cmdline)
            } else {
                String::from_str(cmdline)
            };
            let bytes = text.as_str().as_bytes();
            if has_forbidden(bytes) {
                return Err(BootImgError::CmdlineForbiddenCharacter);
            }
            if bytes.len() > CMDLINE_CAPACITY {
                return Err(BootImgError::CmdlineTooLong(bytes.len()));
            }
            Ok(cmdline_fields(bytes))
        },
    }
}

/// Rebuilds `template` with the sections the request replaces: the header
/// records the new sizes, command line and `id`, and the payloads are laid
/// out again page by page.
#[verifier::rlimit(40)]
pub fn repack(template: &[u8], req: &Repack<'_>) -> (repacked: Result<Vec<u8>, BootImgError>)
    ensures
        bytes_outcome(template@, spec_repack(template@, *req), repacked),
{
    let parsed = parse(template)?;
    parsed.check_complete(template.len())?;
    let recovery_offset = recovery_dtbo_offset(&parsed.header);
    if parsed.recovery_dtbo.len != 0 && recovery_offset != parsed.recovery_dtbo.offset as u64 {
        return Err(
            BootImgError::RecoveryOffsetMismatch {
                header: recovery_offset,
                computed: parsed.recovery_dtbo.offset as u64,
            },
        );
    }
    let ghost m = parsed@;
    let BootImage { header, kernel: kernel_at, ramdisk: ramdisk_at, second: second_at, recovery_dtbo: recovery_at, dtb: dtb_at, .. } = parsed;
    let kernel = match req.kernel {
        Some(bytes) => bytes,
        None => section_bytes(template, kernel_at),
    };
    let ramdisk = match req.ramdisk {
        Some(bytes) => bytes,
        None => section_bytes(template, ramdisk_at),
    };
    let second = section_bytes(template, second_at);
    let recovery = section_bytes(template, recovery_at);
    let dtb = section_bytes(template, dtb_at);
    if kernel.len() == 0 {
        return Err(BootImgError::EmptyKernel);
    }
    if ramdisk.len() == 0 {
        return Err(BootImgError::EmptyRamdisk);
    }
    if kernel.len() as u64 > u32::MAX as u64 {
        return Err(BootImgError::SizeOverflow("kernel section length"));
    }
    if ramdisk.len() as u64 > u32::MAX as u64 {
        return Err(BootImgError::SizeOverflow("ramdisk section length"));
    }
    let mut header = header;
    header.kernel_size = kernel.len() as u32;
    header.ramdisk_size = ramdisk.len() as u32;
    let BootHeader {
        kernel_size,
        kernel_addr,
        ramdisk_size,
        ramdisk_addr,
        second_bootloader_size,
        second_bootloader_addr,
        tags_addr,
        page_size,
        osversionpatch,
        board_name,
        cmdline,
        hash_digest: _,
        versioned,
    } = header;
    let cmdline = requested_fields(req, cmdline)?;
    let hash_digest = match payload_digest(kernel, ramdisk, second, recovery, dtb) {
        Some(digest) => digest,
        None => return Err(BootImgError::SizeOverflow("payload length")),
    };
    let rebuilt = BootHeader {
        kernel_size,
        kernel_addr,
        ramdisk_size,
        ramdisk_addr,
        second_bootloader_size,
        second_bootloader_addr,
        tags_addr,
        page_size,
        osversionpatch,
        board_name,
        cmdline,
        hash_digest,
        versioned,
    };
    let layout = BootImage::new(rebuilt)?;
    let placed = Layout {
        kernel: layout.kernel,
        ramdisk: layout.ramdisk,
        second: layout.second,
        recovery_dtbo: layout.recovery_dtbo,
        dtb: layout.dtb,
        total_len: layout.total_len,
    };
    let mut header = layout.header;
    if recovery.len() != 0 {
        set_recovery_dtbo_offset(&mut header, placed.recovery_dtbo.offset as u64);
    }
    proof {
        lemma_layout_ordered(header@);
        lemma_encoded_header_len(header@);
    }
    let encoded = match encode_header_bytes(header) {
        Ok(bytes) => bytes,
        Err(text) => return Err(BootImgError::Header(text)),
    };
    Ok(place_payloads(encoded.as_slice(), &placed, kernel, ramdisk, second, recovery, dtb))
}


/// The first NUL of `s` is at `k` when the bytes before it are not NUL.
pub proof fn lemma_text_len_at(s: Seq<u8>, pos: int, k: int)
    requires
        0 <= pos <= k < s.len(),
        s[k] == 0,
        forall|i: int| pos <= i < k ==> s[i] != 0,
    ensures
        text_len(s, pos) == k,
    decreases k - pos,
{
    if pos < k {
        lemma_text_len_at(s, pos + 1, k);
    }
}

/// The two fields that a command line without NULs is split over are
/// each NUL-terminated and NUL-padded.
pub proof fn lemma_cmdline_fields_clean(content: Seq<u8>)
    requires
        content.len() <= CMDLINE_CAPACITY,
        forall|i: int| 0 <= i < content.len() ==> content[i] != 0,
    ensures
        spec_cmdline_fields(content).len() == CMDLINE_FIELDS_SIZE,
        cmdline_fields_clean(spec_cmdline_fields(content)),
{
    let f = spec_cmdline_fields(content);
    let head = if content.len() < 511 { content.len() as int } else { 511 };
    let first = f.subrange(0, 512);
    let second = f.subrange(512, 1536);
    assert(first =~= content.subrange(0, head) + zeros(512 - head));
    assert(second =~= content.subrange(head, content.len() as int) + zeros(1024 - (content.len() - head)));
    lemma_text_len_at(first, 0, head);
    lemma_text_len_at(second, 0, content.len() - head);
}

/// Where `spec_cmdline_fields` splits `bytes`, after byte 511, it does not
/// cut a UTF-8 character in two.
pub open spec fn splits_between_chars(bytes: Seq<u8>) -> bool {
    bytes.len() <= CMDLINE_FIELD_SIZE - 1 || !is_continuation_byte(bytes[CMDLINE_FIELD_SIZE - 1])
}

/// A UTF-8 command line without NULs, split between two characters, reads
/// back from its two fields as the text it encodes.
pub proof fn lemma_cmdline_fields_text(content: Seq<u8>)
    requires
        content.len() <= CMDLINE_CAPACITY,
        forall|i: int| 0 <= i < content.len() ==> content[i] != 0,
        valid_utf8(content),
        splits_between_chars(content),
    ensures
        spec_cmdline_text(spec_cmdline_fields(content)) == decode_utf8(content),
{
    let f = spec_cmdline_fields(content);
    let len = content.len() as int;
    let head = if len < 511 { len } else { 511 };
    let first = f.subrange(0, 512);
    let second = f.subrange(512, 1536);
    assert(first =~= content.subrange(0, head) + zeros(512 - head));
    assert(second =~= content.subrange(head, len) + zeros(1024 - (len - head)));
    lemma_text_len_at(first, 0, head);
    lemma_text_len_at(second, 0, len - head);
    assert(first.subrange(0, head) =~= content.subrange(0, head));
    assert(second.subrange(0, len - head) =~= content.subrange(head, len));
    lemma_field_text(first);
    lemma_field_text(second);
    if head == len {
        is_char_boundary_start_end_of_seq(content);
    } else {
        is_char_boundary_iff_not_is_continuation_byte(content, head);
    }
    valid_utf8_split(content, head);
    decode_utf8_split(content, head);
}

/// The text a request asks `repack` to write as the command line: the
/// given one, marker-wrapped when asked; `None` keeps the template's.
pub open spec fn requested_text(req: Repack) -> Option<Seq<char>> {
    match req.cmdline {
        None => None,
        Some(text) => Some(
            if req.wrap_markers {
                spec_wrap_cmdline_markers(text@)
            } else {
                text@
            },
        ),
    }
}

/// Both command line fields are NUL-terminated and NUL-padded.
pub open spec fn cmdline_fields_clean(fields: Seq<u8>) -> bool {
    &&& cmdline_field_error(fields.subrange(0, CMDLINE_FIELD_SIZE as int)) is None
    &&& cmdline_field_error(fields.subrange(CMDLINE_FIELD_SIZE as int, fields.len() as int)) is None
}

proof fn lemma_place(out: Seq<u8>, offset: int, bytes: Seq<u8>)
    requires
        out.len() <= offset,
    ensures
        place(out, offset, bytes).len() == offset + bytes.len(),
        forall|a: int, b: int|
            0 <= a <= b <= out.len() ==> #[trigger] place(out, offset, bytes).subrange(a, b) == out.subrange(a, b),
        place(out, offset, bytes).subrange(offset, offset + bytes.len()) == bytes,
{
    let p = place(out, offset, bytes);
    assert forall|a: int, b: int| 0 <= a <= b <= out.len() implies #[trigger] p.subrange(a, b) == out.subrange(a, b) by {
        assert(p.subrange(a, b) =~= out.subrange(a, b));
    }
    assert(p.subrange(offset, offset + bytes.len()) =~= bytes);
}

/// An image laid out by an ordered layout is as long as the layout says,
/// starts with its header and holds each payload in its section.
pub proof fn lemma_image_bytes(
    header: Seq<u8>,
    layout: Layout,
    kernel: Seq<u8>,
    ramdisk: Seq<u8>,
    second: Seq<u8>,
    recovery: Seq<u8>,
    dtb: Seq<u8>,
)
    requires
        layout_ordered(layout),
        header.len() <= layout.kernel.offset,
        kernel.len() == layout.kernel.len,
        ramdisk.len() == layout.ramdisk.len,
        second.len() == layout.second.len,
        recovery.len() == layout.recovery_dtbo.len,
        dtb.len() == layout.dtb.len,
    ensures
        ({
            let image = image_bytes(header, layout, kernel, ramdisk, second, recovery, dtb);
            &&& image.len() == layout.total_len
            &&& image.subrange(0, header.len() as int) == header
            &&& payload(image, layout.kernel) == kernel
            &&& payload(image, layout.ramdisk) == ramdisk
            &&& payload(image, layout.second) == second
            &&& payload(image, layout.recovery_dtbo) == recovery
            &&& payload(image, layout.dtb) == dtb
        }),
{
    let o1 = place(header, layout.kernel.offset as int, kernel);
    lemma_place(header, layout.kernel.offset as int, kernel);
    let o2 = place(o1, layout.ramdisk.offset as int, ramdisk);
    lemma_place(o1, layout.ramdisk.offset as int, ramdisk);
    let o3 = place(o2, layout.second.offset as int, second);
    lemma_place(o2, layout.second.offset as int, second);
    let o4 = place(o3, layout.recovery_dtbo.offset as int, recovery);
    lemma_place(o3, layout.recovery_dtbo.offset as int, recovery);
    let o5 = place(o4, layout.dtb.offset as int, dtb);
    lemma_place(o4, layout.dtb.offset as int, dtb);
    let image = o5 + zeros(layout.total_len - o5.len());
    assert forall|a: int, b: int| 0 <= a <= b <= o5.len() implies #[trigger] image.subrange(a, b) == o5.subrange(a, b) by {
        assert(image.subrange(a, b) =~= o5.subrange(a, b));
    }
    let k = layout.kernel;
    let r = layout.ramdisk;
    let s = layout.second;
    let v = layout.recovery_dtbo;
    let d = layout.dtb;
    assert(image.subrange(0, header.len() as int) == o5.subrange(0, header.len() as int));
    assert(o5.subrange(0, header.len() as int) == o4.subrange(0, header.len() as int));
    assert(o4.subrange(0, header.len() as int) == o3.subrange(0, header.len() as int));
    assert(o3.subrange(0, header.len() as int) == o2.subrange(0, header.len() as int));
    assert(o2.subrange(0, header.len() as int) == o1.subrange(0, header.len() as int));
    assert(o1.subrange(0, header.len() as int) == header.subrange(0, header.len() as int));
    assert(header.subrange(0, header.len() as int) =~= header);
    assert(image.subrange(k.offset as int, k.offset + k.len) == o5.subrange(k.offset as int, k.offset + k.len));
    assert(o5.subrange(k.offset as int, k.offset + k.len) == o4.subrange(k.offset as int, k.offset + k.len));
    assert(o4.subrange(k.offset as int, k.offset + k.len) == o3.subrange(k.offset as int, k.offset + k.len));
    assert(o3.subrange(k.offset as int, k.offset + k.len) == o2.subrange(k.offset as int, k.offset + k.len));
    assert(o2.subrange(k.offset as int, k.offset + k.len) == o1.subrange(k.offset as int, k.offset + k.len));
    assert(image.subrange(r.offset as int, r.offset + r.len) == o5.subrange(r.offset as int, r.offset + r.len));
    assert(o5.subrange(r.offset as int, r.offset + r.len) == o4.subrange(r.offset as int, r.offset + r.len));
    assert(o4.subrange(r.offset as int, r.offset + r.len) == o3.subrange(r.offset as int, r.offset + r.len));
    assert(o3.subrange(r.offset as int, r.offset + r.len) == o2.subrange(r.offset as int, r.offset + r.len));
    assert(image.subrange(s.offset as int, s.offset + s.len) == o5.subrange(s.offset as int, s.offset + s.len));
    assert(o5.subrange(s.offset as int, s.offset + s.len) == o4.subrange(s.offset as int, s.offset + s.len));
    assert(o4.subrange(s.offset as int, s.offset + s.len) == o3.subrange(s.offset as int, s.offset + s.len));
    assert(image.subrange(v.offset as int, v.offset + v.len) == o5.subrange(v.offset as int, v.offset + v.len));
    assert(o5.subrange(v.offset as int, v.offset + v.len) == o4.subrange(v.offset as int, v.offset + v.len));
    assert(image.subrange(d.offset as int, d.offset + d.len) == o5.subrange(d.offset as int, d.offset + d.len));
}


/// `repack` succeeds on `template` and `verify` accepts what it builds,
/// with each payload where the request put it and the recovery DTBO
/// address recording where that payload now lies.
pub open spec fn repacked_image_verifies(template: Seq<u8>, req: Repack) -> bool {
    match (spec_parse(template), spec_repack(template, req)) {
        (Some(Ok(m)), Some(Ok(out))) => match spec_verify(out) {
            Some(Ok(v)) => {
                &&& payload(out, v.layout.kernel) == chosen_payload(req.kernel, template, m.layout.kernel)
                &&& payload(out, v.layout.ramdisk) == chosen_payload(req.ramdisk, template, m.layout.ramdisk)
                &&& payload(out, v.layout.second) == payload(template, m.layout.second)
                &&& payload(out, v.layout.recovery_dtbo) == payload(template, m.layout.recovery_dtbo)
                &&& payload(out, v.layout.dtb) == payload(template, m.layout.dtb)
                &&& v.layout.recovery_dtbo.len != 0 ==> recovery_addr_of(v.header.versioned)
                    == v.layout.recovery_dtbo.offset
                &&& v.cmdline == spec_cmdline_text(repacked_cmdline(req, m.header.cmdline)->Ok_0)
            },
            _ => false,
        },
        _ => false,
    }
}

/// What `repack` builds passes `verify`, holding the payloads it was asked
/// for, whenever the command line it writes is clean: a requested one
/// always is, since `repack` refuses NULs in it; when the template's own
/// fields are kept, they must be.
#[verifier::rlimit(100)]
#[verifier::spinoff_prover]
pub proof fn lemma_repack_output_verifies(template: Seq<u8>, req: Repack)
    requires
        spec_repack(template, req) matches Some(Ok(_)),
        req.cmdline is None ==> (spec_parse(template) matches Some(Ok(m)) ==> cmdline_fields_clean(m.header.cmdline)),
    ensures
        repacked_image_verifies(template, req),
{
    let m = spec_parse(template)->0->Ok_0;
    let l = m.layout;
    let h = m.header;
    assert(h == header_at(template));
    let kernel = chosen_payload(req.kernel, template, l.kernel);
    let ramdisk = chosen_payload(req.ramdisk, template, l.ramdisk);
    let second = payload(template, l.second);
    let recovery = payload(template, l.recovery_dtbo);
    let dtb = payload(template, l.dtb);
    let fields = repacked_cmdline(req, h.cmdline)->Ok_0;
    assert(h.cmdline.len() == CMDLINE_FIELDS_SIZE);
    match requested_cmdline(req) {
        Some(bytes) => {
            assert forall|i: int| 0 <= i < bytes.len() implies bytes[i] != 0 by {
                if bytes[i] == 0 {
                    assert(has_forbidden_byte(bytes));
                }
            }
            lemma_cmdline_fields_clean(bytes);
        },
        None => {},
    }
    let rebuilt = HeaderModel {
        kernel_size: kernel.len() as u32,
        ramdisk_size: ramdisk.len() as u32,
        cmdline: fields,
        hash_digest: spec_payload_digest(kernel, ramdisk, second, recovery, dtb)@,
        ..h
    };
    let placed = spec_layout(rebuilt)->Ok_0;
    let written = if recovery.len() != 0 {
        HeaderModel { versioned: with_recovery_addr(rebuilt.versioned, placed.recovery_dtbo.offset as u64), ..rebuilt }
    } else {
        rebuilt
    };
    let header_bytes = encode_header(written);
    let out = image_bytes(header_bytes, placed, kernel, ramdisk, second, recovery, dtb);
    assert(spec_repack(template, req) == Some(Ok::<Seq<u8>, BootImgError>(out)));
    assert(written.well_formed());
    assert(spec_layout(written) == Ok::<Layout, BootImgError>(placed));
    lemma_layout_ordered(rebuilt);
    lemma_decode_encoded_header(written, Seq::empty());
    lemma_image_bytes(header_bytes, placed, kernel, ramdisk, second, recovery, dtb);
    let rest = out.subrange(HEADER_V2_SIZE as int, out.len() as int);
    assert(out =~= header_bytes + rest);
    lemma_decode_encoded_header(written, rest);
    assert(spec_read_header(out) == Some(Ok::<HeaderModel, BootImgError>(written)));
    assert(bounds_error(placed, out.len() as int) is None);
    let v = ParsedModel { header: written, cmdline: spec_cmdline_text(written.cmdline), layout: placed };
    assert(spec_parse(out) == Some(Ok::<ParsedModel, BootImgError>(v)));
    assert(completeness_error(placed, out.len() as int) is None);
    assert(layout_digest(out, placed) == written.hash_digest);
    assert(spec_verify(out) == Some(Ok::<ParsedModel, BootImgError>(v)));
}

/// What `verify` reads back as the command line of what `repack` wrote is
/// the text the request asked for, or the template's own command line
/// when it asked for none. A requested text must not have a character cut
/// in two where the first field ends.
pub proof fn lemma_repack_cmdline_reads_back(template: Seq<u8>, req: Repack)
    requires
        spec_repack(template, req) matches Some(Ok(_)),
        req.cmdline is None ==> (spec_parse(template) matches Some(Ok(m)) ==> cmdline_fields_clean(m.header.cmdline)),
        requested_text(req) matches Some(text) ==> splits_between_chars(encode_utf8(text)),
    ensures
        spec_repack(template, req) matches Some(Ok(out)) && spec_verify(out) matches Some(Ok(v)) && v.cmdline
            == match requested_text(req) {
            Some(text) => text,
            None => spec_parse(template)->0->Ok_0.cmdline,
        },
{
    lemma_repack_output_verifies(template, req);
    if let Some(text) = requested_text(req) {
        let bytes = encode_utf8(text);
        assert(requested_cmdline(req) == Some(bytes));
        assert forall|i: int| 0 <= i < bytes.len() implies bytes[i] != 0 by {
            if bytes[i] == 0 {
                assert(has_forbidden_byte(bytes));
            }
        }
        encode_utf8_valid_utf8(text);
        encode_utf8_decode_utf8(text);
        lemma_cmdline_fields_text(bytes);
    }
}

/// `image` is laid out the way `repack` writes one: `verify` accepts it,
/// its header records the whole digest of its payloads and, where there is
/// a recovery DTBO, that payload's offset, and zeros fill the space
/// between the payloads.
pub open spec fn canonical_image(image: Seq<u8>) -> bool {
    match spec_verify(image) {
        Some(Ok(m)) => {
            &&& m.header.hash_digest == layout_digest(image, m.layout)
            &&& m.layout.recovery_dtbo.len != 0 ==> recovery_addr_of(m.header.versioned) == m.layout.recovery_dtbo.offset
            &&& image == image_bytes(
                image.subrange(0, HEADER_V2_SIZE as int),
                m.layout,
                payload(image, m.layout.kernel),
                payload(image, m.layout.ramdisk),
                payload(image, m.layout.second),
                payload(image, m.layout.recovery_dtbo),
                payload(image, m.layout.dtb),
            )
        },
        _ => false,
    }
}

/// Repacking a canonical image without replacing anything gives it back
/// byte for byte.
#[verifier::rlimit(100)]
#[verifier::spinoff_prover]
pub proof fn lemma_repack_without_replacements_is_identity(template: Seq<u8>, req: Repack)
    requires
        canonical_image(template),
        req.kernel is None,
        req.ramdisk is None,
        req.cmdline is None,
    ensures
        spec_repack(template, req) == Some(Ok::<Seq<u8>, BootImgError>(template)),
{
    let m = spec_verify(template)->0->Ok_0;
    let l = m.layout;
    let h = m.header;
    assert(spec_parse(template) == Some(Ok::<ParsedModel, BootImgError>(m)));
    assert(h == header_at(template));
    lemma_encode_decoded_header(template);
    let kernel = payload(template, l.kernel);
    let ramdisk = payload(template, l.ramdisk);
    let second = payload(template, l.second);
    let recovery = payload(template, l.recovery_dtbo);
    let dtb = payload(template, l.dtb);
    let rebuilt = HeaderModel {
        kernel_size: kernel.len() as u32,
        ramdisk_size: ramdisk.len() as u32,
        cmdline: h.cmdline,
        hash_digest: spec_payload_digest(kernel, ramdisk, second, recovery, dtb)@,
        ..h
    };
    assert(rebuilt == h);
    if recovery.len() != 0 {
        assert(with_recovery_addr(h.versioned, l.recovery_dtbo.offset as u64) == h.versioned);
    }
}

} // verus!
