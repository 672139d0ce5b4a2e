//! The assembler's command line and what a run computes from the two input
//! files: the validated kernel, then the shim payload or the ramdisk
//! container.

use vstd::prelude::*;

use std::path::PathBuf;

use crate::arm64::AssembleError;
use crate::assembler::{assemble, assemble_ramdisk, spec_assemble, spec_assemble_ramdisk, spec_compress_kernel};
use crate::kernel_image::{
    canonicalize_kernel, canonicalize_outcome, lemma_canonical_kernel, spec_canonical_kernel, KernelImageError,
};

verus! {

#[verifier::external_type_specification]
#[verifier::external_body]
pub struct ExPathBuf(PathBuf);

/// Assemble a kernel payload and write the binary image to stdout.
///
/// The default mode appends a compressed kernel package to a raw,
/// device-appropriate abl-exorcist AArch64 shim. With `--ramdisk`, the output
/// is an ABLXRD1 container holding the compressed kernel followed by the
/// supplied initramfs bytes, unchanged.
pub struct Cli {
    /// Build an ABLX ramdisk container instead of a shim+kernel payload
    pub ramdisk: bool,
    /// Raw arm64 Image, Image.gz, Image.zst, or Linux EFI zboot image
    pub kernel: PathBuf,
    /// Raw abl-exorcist arm64 Image, or initramfs bytes with --ramdisk
    pub input: PathBuf,
}

/// Why a run could not build its output.
#[derive(Debug)]
pub enum PayloadError {
    /// The kernel input is not, and does not unwrap to, a raw arm64 `Image`.
    Kernel(KernelImageError),
    /// The kernel and the shim or initramfs do not assemble.
    Assemble(AssembleError),
}

/// What assembling the validated kernel `kernel` with `input` gives in
/// either mode.
pub open spec fn spec_assembled(ramdisk: bool, kernel: Seq<u8>, input: Seq<u8>) -> Result<Seq<u8>, AssembleError> {
    if ramdisk {
        spec_assemble_ramdisk(kernel, input, spec_compress_kernel(kernel))
    } else {
        spec_assemble(kernel, input, spec_compress_kernel(kernel))
    }
}

/// Builds a run's output from the bytes of its two input files: the kernel
/// is validated or unwrapped first, then assembled with the shim, or with
/// the initramfs into a ramdisk container.
pub fn build_payload(ramdisk: bool, kernel: &[u8], input: &[u8]) -> (built: Result<Vec<u8>, PayloadError>)
    ensures
        match spec_canonical_kernel(kernel@) {
            None => built matches Err(PayloadError::Kernel(e)) && canonicalize_outcome(
                kernel@,
                Err::<Vec<u8>, KernelImageError>(e),
            ),
            Some(raw) => match spec_assembled(ramdisk, raw, input@) {
                Ok(bytes) => built matches Ok(out) && out@ == bytes,
                Err(e) => built matches Err(PayloadError::Assemble(found)) && found == e,
            },
        },
{
    let canonical = canonicalize_kernel(kernel);
    proof {
        lemma_canonical_kernel(kernel@, canonical);
    }
    let raw = match canonical {
        Ok(raw) => raw,
        Err(e) => return Err(PayloadError::Kernel(e)),
    };
    let assembled = if ramdisk {
        assemble_ramdisk(raw.as_slice(), input)
    } else {
        assemble(raw.as_slice(), input)
    };
    match assembled {
        Ok(out) => Ok(out),
        Err(e) => Err(PayloadError::Assemble(e)),
    }
}

} // verus!
