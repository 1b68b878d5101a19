//! Adaptive Zstd compression of image data.

use crate::error::ProtocolError;
use vstd::prelude::*;

verus! {

/// Size of the buffer through which large files are streamed.
pub const BUFFER_SIZE: usize = 65536;

/// Compression level for less than 100 KiB.
pub const COMPRESSION_LEVEL_SMALL: i32 = 6;

/// Compression level for 100 KiB to 1 MiB.
pub const COMPRESSION_LEVEL_MEDIUM: i32 = 3;

/// Compression level for more than 1 MiB.
pub const COMPRESSION_LEVEL_LARGE: i32 = 1;

/// 100 KiB.
pub const SIZE_THRESHOLD_SMALL: usize = 102_400;

/// 1 MiB. Larger files are not kept in memory.
pub const SIZE_THRESHOLD_LARGE: usize = 1_048_576;

/// `std::io::Error`, which the Zstd coders report.
#[verifier::external_type_specification]
#[verifier::external_body]
pub struct ExIoError(std::io::Error);

/// The frame that `zstd::Encoder` writes for `data` at `level`, or `None`
/// where it reports an error.
pub uninterp spec fn zstd_frame(data: Seq<u8>, level: i32) -> Option<Seq<u8>>;

/// The data that `zstd::Decoder` reads out of `frame`, or `None` where it
/// reports an error.
pub uninterp spec fn zstd_content(frame: Seq<u8>) -> Option<Seq<u8>>;

/// `zstd::Encoder::new`, `write_all` and `finish` on an empty `Vec`: the
/// frame for `data`, out of which the decoder reads `data` again. The outcome
/// is that of a run which gets the memory it asks for.
#[verifier::external_body]
fn zstd_encode(data: &[u8], level: i32) -> (r: Result<Vec<u8>, std::io::Error>)
    requires
        1 <= level <= 22,
    ensures
        match r {
            Ok(frame) => zstd_frame(data@, level) == Some(frame@) && zstd_content(frame@) == Some(
                data@,
            ),
            Err(_) => zstd_frame(data@, level) is None,
        },
{
    let mut encoder = zstd::Encoder::new(Vec::new(), level)?;
    std::io::Write::write_all(&mut encoder, data)?;
    encoder.finish()
}

/// `zstd::Decoder::new` and `read_to_end`: the data in `frame`, or an error
/// if it is no complete Zstd data. The outcome is that of a run which gets
/// the memory it asks for.
#[verifier::external_body]
fn zstd_decode(frame: &[u8]) -> (r: Result<Vec<u8>, std::io::Error>)
    ensures
        match r {
            Ok(data) => zstd_content(frame@) == Some(data@),
            Err(_) => zstd_content(frame@) is None,
        },
{
    let mut decoder = zstd::Decoder::new(frame)?;
    let mut data = Vec::new();
    std::io::Read::read_to_end(&mut decoder, &mut data)?;
    Ok(data)
}

/// What compression did to an image.
#[derive(Debug, Clone, Copy, PartialEq, Eq, Structural)]
pub struct CompressionStats {
    pub original_size: usize,
    pub compressed_size: usize,
    pub used_compression: bool,
}

impl CompressionStats {
    /// The statistics of an image that is sent as it is.
    pub fn no_compression(size: usize) -> (stats: Self)
        ensures
            stats == (CompressionStats {
                original_size: size,
                compressed_size: size,
                used_compression: false,
            }),
    {
        CompressionStats { original_size: size, compressed_size: size, used_compression: false }
    }
}

/// The compression level for data of this size.
pub open spec fn compression_level(size: int) -> i32 {
    if size < SIZE_THRESHOLD_SMALL {
        COMPRESSION_LEVEL_SMALL
    } else if size <= SIZE_THRESHOLD_LARGE {
        COMPRESSION_LEVEL_MEDIUM
    } else {
        COMPRESSION_LEVEL_LARGE
    }
}

/// Computes `compression_level`.
pub fn get_compression_level(size: usize) -> (level: i32)
    ensures
        level == compression_level(size as int),
{
    if size < SIZE_THRESHOLD_SMALL {
        COMPRESSION_LEVEL_SMALL
    } else if size <= SIZE_THRESHOLD_LARGE {
        COMPRESSION_LEVEL_MEDIUM
    } else {
        COMPRESSION_LEVEL_LARGE
    }
}

/// Keeps `frame` as the compressed form of data of `original_size` bytes if
/// that is worth it, and drops it otherwise.
pub fn settle_compression(original_size: usize, frame: Vec<u8>, worth_it: bool) -> (r: (
    Option<Vec<u8>>,
    CompressionStats,
))
    ensures
        worth_it ==> r.0 == Some(frame) && r.1 == (CompressionStats {
            original_size,
            compressed_size: frame@.len() as usize,
            used_compression: true,
        }),
        !worth_it ==> r.0 is None && r.1 == (CompressionStats {
            original_size,
            compressed_size: original_size,
            used_compression: false,
        }),
{
    if worth_it {
        let compressed_size: usize = frame.len();
        (Some(frame), CompressionStats { original_size, compressed_size, used_compression: true })
    } else {
        (None, CompressionStats::no_compression(original_size))
    }
}

/// Whether a closure can judge any two sizes, and judges the same two always
/// in the same way.
pub open spec fn decisive<F: Fn(usize, usize) -> bool>(worth_it: F) -> bool {
    &&& forall|compressed: usize, original: usize| #[trigger]
        worth_it.requires((compressed, original))
    &&& forall|compressed: usize, original: usize|
        !(#[trigger] worth_it.ensures((compressed, original), true) && worth_it.ensures(
            (compressed, original),
            false,
        ))
}

/// The judgement of such a closure on a compressed and an original size.
pub open spec fn judgement<F: Fn(usize, usize) -> bool>(worth_it: F) -> spec_fn(usize, usize) -> bool {
    |compressed: usize, original: usize| worth_it.ensures((compressed, original), true)
}

/// The compressed form of `data`, if there is one and it is worth it.
pub open spec fn kept_frame(data: Seq<u8>, keep: spec_fn(usize, usize) -> bool) -> Option<Seq<u8>> {
    match zstd_frame(data, compression_level(data.len() as int)) {
        Some(frame) => if keep(frame.len() as usize, data.len() as usize) {
            Some(frame)
        } else {
            None
        },
        None => None,
    }
}

/// What compressing `data` amounts to.
pub open spec fn stats_for(data: Seq<u8>, keep: spec_fn(usize, usize) -> bool) -> CompressionStats {
    CompressionStats {
        original_size: data.len() as usize,
        compressed_size: match kept_frame(data, keep) {
            Some(frame) => frame.len() as usize,
            None => data.len() as usize,
        },
        used_compression: kept_frame(data, keep) is Some,
    }
}

/// Compresses `data` at the level for its size. The frame is kept if
/// `worth_it`, called with the compressed and the original size, says so.
pub fn try_compress<F: Fn(usize, usize) -> bool>(data: &[u8], worth_it: &F) -> (r: Result<
    (Option<Vec<u8>>, CompressionStats),
    ProtocolError,
>)
    requires
        decisive(*worth_it),
    ensures
        match zstd_frame(data@, compression_level(data@.len() as int)) {
            Some(frame) => {
                let keep = judgement(*worth_it);
                &&& zstd_content(frame) == Some(data@)
                &&& frame.len() <= usize::MAX
                &&& r matches Ok((kept, stats))
                &&& stats == stats_for(data@, keep)
                &&& match kept_frame(data@, keep) {
                    Some(f) => kept matches Some(v) && v@ == f,
                    None => kept is None,
                }
            },
            None => r == Err::<(Option<Vec<u8>>, CompressionStats), ProtocolError>(
                ProtocolError::CompressionFailed,
            ),
        },
{
    let level: i32 = get_compression_level(data.len());
    match zstd_encode(data, level) {
        Ok(frame) => {
            let keep = worth_it(frame.len(), data.len());
            Ok(settle_compression(data.len(), frame, keep))
        },
        Err(_) => Err(ProtocolError::CompressionFailed),
    }
}

/// If only frames that are shorter than the data are worth it, what is kept is
/// shorter, and of empty data nothing is kept.
pub proof fn law_compression_saves(data: Seq<u8>, keep: spec_fn(usize, usize) -> bool)
    requires
        data.len() <= usize::MAX,
        zstd_frame(data, compression_level(data.len() as int)) matches Some(frame) ==> frame.len()
            <= usize::MAX,
        forall|compressed: usize, original: usize| #[trigger]
            keep(compressed, original) ==> compressed < original,
    ensures
        kept_frame(data, keep) matches Some(frame) ==> frame.len() < data.len(),
        data.len() == 0 ==> kept_frame(data, keep) is None,
{
}

/// Decompresses image data.
pub fn decompress(frame: &[u8]) -> (r: Result<Vec<u8>, ProtocolError>)
    ensures
        match zstd_content(frame@) {
            Some(data) => r matches Ok(d) && d@ == data,
            None => r == Err::<Vec<u8>, ProtocolError>(ProtocolError::DecompressionFailed),
        },
{
    match zstd_decode(frame) {
        Ok(data) => Ok(data),
        Err(_) => Err(ProtocolError::DecompressionFailed),
    }
}

/// Data is compressed at level 6 below 100 KiB, at level 3 from there to 1 MiB,
/// and at level 1 above.
pub proof fn law_compression_level(size: int)
    ensures
        size < 100 * 1024 ==> compression_level(size) == 6,
        100 * 1024 <= size <= 1024 * 1024 ==> compression_level(size) == 3,
        size > 1024 * 1024 ==> compression_level(size) == 1,
{
}

/// What is kept of compressed data is the whole frame that Zstd gives at the
/// level for its size, and it is kept exactly if it is worth it.
pub proof fn law_kept_frame(data: Seq<u8>, keep: spec_fn(usize, usize) -> bool)
    ensures
        ({
            let level: i32 = if data.len() < 100 * 1024 {
                6
            } else if data.len() <= 1024 * 1024 {
                3
            } else {
                1
            };
            match zstd_frame(data, level) {
                None => kept_frame(data, keep) is None,
                Some(frame) => {
                    &&& keep(frame.len() as usize, data.len() as usize) ==> kept_frame(data, keep)
                        == Some(frame)
                    &&& !keep(frame.len() as usize, data.len() as usize) ==> kept_frame(data, keep)
                        is None
                },
            }
        }),
        kept_frame(data, keep) is Some <==> stats_for(data, keep).used_compression,
        stats_for(data, keep).original_size == data.len() as usize,
        kept_frame(data, keep) matches Some(frame) ==> stats_for(data, keep).compressed_size
            == frame.len() as usize,
        kept_frame(data, keep) is None ==> stats_for(data, keep).compressed_size
            == data.len() as usize,
{
    law_compression_level(data.len() as int);
}

} // verus!
