# abl_exorcist

Payload assembly for the abl-exorcist AArch64 boot shim, and the parsers the
shim runs at boot, written in Verus with their contracts proved.

- `src/` is the verified library.
  - Host side: `kernel_image` (raw, gzip, zstd and EFI zboot kernels to a
    checked arm64 `Image`), `assembler` (shim + kernel package, and the
    `ABLXRD1` ramdisk container), `bootimg`, `boot_header` and
    `boot_cmdline` (Android boot image v2 parsing, verification and
    repacking), `cli` (the two assembly modes).
  - Shim side: `package` (reading the kernel package and the ramdisk
    container), `lz4` (raw LZ4 block decoding), `fdt` and `fdt_rewrite`
    (device tree lookups, `/chosen` rewrites, reserved memory), `cmdline`
    (the `<S>`/`<E>` command line filter), `shim` (placement and
    decompression of the kernel), `mmu` (identity-map tables and cache line
    arithmetic), `serial` (trace text).
  - `handoff` proves that what the assembler writes is what the shim reads.
  - `codecs` holds the trusted wrappers around the outside compression
    crates and lossy UTF-8 decoding.
  - `messages` gives each error type a `message` method with its text.
- `tests/` runs the library on concrete inputs.
- `app/` is the command-line tool and the bare-metal side of the shim:
  file and register I/O around the library.
