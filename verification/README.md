# tokimo-package-iso

Blu-ray ISO reading for remote disc images: finds the main M2TS stream in
`/BDMV/STREAM/` of the image's UDF file system and reads it through the byte
extents it occupies in the image.

- `src/` is the library, with its contracts and proofs:
  - `extents.rs`: the extents of a file from the disc addresses of its blocks,
    as a state machine fed one address at a time, with its laws (coverage,
    sector alignment, no overlap, the contiguous fast path);
  - `scan.rs`: the scan of the stream directory as a step function
    (`find_m2ts_files`) from the reader's last answer to the next call, the
    name filter, and the choice of the main title;
  - `meta.rs`: the stored metadata and the read of a stream range through its
    extents, with the law that it gives the stream's bytes;
  - `udf.rs`, `read_at.rs`: handles, sector arithmetic of the reader's
    callbacks, and the random-access reader trait.
- `app/` is the I/O around it: the libudfread bindings and callbacks, the loop
  that performs the calls the scan asks for, and the serde form of the
  metadata.
- `tests/` runs the library on concrete values.

Not here: the entry points that build an FFmpeg `DirectInput`
(`build_iso_m2ts_input`, `build_iso_m2ts_input_with`) and the ones that take
a `tokimo_vfs::Vfs` (`parse_iso_m2ts`, the VFS reader adapter). They are made
of types of the `tokimo_vfs` and `tokimo_package_ffmpeg` crates, which are
not available to this crate. What they do beyond those types is here: the
stream read function (`app::m2ts_read_fn`, over the verified
`read_from_m2ts_extents`) and the choice between stored metadata and a live
parse (`app::resolve_iso_meta`). On platforms other than Linux and macOS,
`app::find_m2ts_files` reports that ISO reading is not supported.

The UDF handle types `Udfread`, `UdfDir` and `UdfFile` are opaque structs with
a private field, since the verifier does not accept enums without variants.
