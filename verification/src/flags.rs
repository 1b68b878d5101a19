//! The flag bytes of requests, image packets and catalog entries.

use crate::error::ProtocolError;
use vstd::prelude::*;

verus! {

/// Bit 0 of a request's flags: keep the connection open after the response.
pub const REQUEST_FLAG_KEEP_ALIVE: u8 = 0b0000_0001;

/// The bits of a request's flags that must be zero.
pub const REQUEST_FLAGS_RESERVED_MASK: u8 = 0b1111_1110;

/// The bits of an image's flags that hold its file type.
pub const FLAGS_FILE_TYPE_MASK: u8 = 0b0000_0111;

/// Bit 3 of an image's flags: the data is Zstd compressed.
pub const FLAG_COMPRESSED: u8 = 0b0000_1000;

/// Bit 4 of an image's flags: reserved for encryption, must be zero.
pub const FLAG_ENCRYPTED: u8 = 0b0001_0000;

/// The bits of an image's flags that are reserved for extensions.
pub const FLAGS_RESERVED_MASK: u8 = 0b1110_0000;

/// Catalog filter bit for PNG files.
pub const LIST_FILTER_PNG: u8 = 0b0000_0001;

/// Catalog filter bit for JPEG files.
pub const LIST_FILTER_JPEG: u8 = 0b0000_0010;

/// Catalog filter bit for WebP files.
pub const LIST_FILTER_WEBP: u8 = 0b0000_0100;

/// Catalog filter bit for BMP files.
pub const LIST_FILTER_BMP: u8 = 0b0000_1000;

/// Catalog filter bit for GIF files.
pub const LIST_FILTER_GIF: u8 = 0b0001_0000;

/// Catalog filter bit for PDF files.
pub const LIST_FILTER_PDF: u8 = 0b0010_0000;

/// Every catalog filter bit.
pub const LIST_FILTER_ALL: u8 = 0b0011_1111;

/// The file type code in an image's flags.
pub fn file_type_from_flags(flags: u8) -> (file_type: u8)
    ensures
        file_type == flags & FLAGS_FILE_TYPE_MASK,
        file_type == flags % 8,
{
    proof {
        assert(flags & 0b0000_0111u8 == flags % 8) by (bit_vector);
    }
    flags & FLAGS_FILE_TYPE_MASK
}

/// The flags of an uncompressed image of type `file_type`.
pub fn flags_from_file_type(file_type: u8) -> (flags: u8)
    ensures
        flags == file_type & FLAGS_FILE_TYPE_MASK,
        flags == file_type % 8,
{
    proof {
        assert(file_type & 0b0000_0111u8 == file_type % 8) by (bit_vector);
    }
    file_type & FLAGS_FILE_TYPE_MASK
}

/// Whether an image's flags say that its data is compressed.
pub fn is_compressed(flags: u8) -> (r: bool)
    ensures
        r == (flags & FLAG_COMPRESSED != 0),
{
    flags & FLAG_COMPRESSED != 0
}

/// Accepts a request's flags if no reserved bit is set: only 0 and
/// keep-alive remain.
pub fn validate_request_flags(flags: u8) -> (r: Result<(), ProtocolError>)
    ensures
        r == request_flags_check(flags),
        r is Ok <==> flags == 0 || flags == REQUEST_FLAG_KEEP_ALIVE,
{
    proof {
        assert((flags & 0b1111_1110u8) == 0 <==> flags == 0 || flags == 1) by (bit_vector);
    }
    if (flags & REQUEST_FLAGS_RESERVED_MASK) != 0 {
        return Err(ProtocolError::ReservedRequestFlags);
    }
    Ok(())
}

/// What `validate_request_flags` says of `flags`.
pub open spec fn request_flags_check(flags: u8) -> Result<(), ProtocolError> {
    if flags & REQUEST_FLAGS_RESERVED_MASK != 0 {
        Err(ProtocolError::ReservedRequestFlags)
    } else {
        Ok(())
    }
}

/// What `validate_image_flags` says of `flags`.
pub open spec fn image_flags_check(flags: u8) -> Result<(), ProtocolError> {
    if flags & FLAG_ENCRYPTED != 0 {
        Err(ProtocolError::EncryptedFlag)
    } else if flags & FLAGS_RESERVED_MASK != 0 {
        Err(ProtocolError::ReservedFlags)
    } else {
        Ok(())
    }
}

/// Accepts the flags of a received packet or catalog entry if they hold a
/// file type and the compression bit only.
pub fn validate_image_flags(flags: u8) -> (r: Result<(), ProtocolError>)
    ensures
        r == image_flags_check(flags),
        r is Ok <==> flags < 16,
{
    proof {
        assert((flags & 0b0001_0000u8) == 0 && (flags & 0b1110_0000u8) == 0 <==> flags < 16)
            by (bit_vector);
    }
    if flags & FLAG_ENCRYPTED != 0 {
        return Err(ProtocolError::EncryptedFlag);
    }
    if flags & FLAGS_RESERVED_MASK != 0 {
        return Err(ProtocolError::ReservedFlags);
    }
    Ok(())
}

/// The usual file name extension of a file type; codes 6 and 7 have none.
pub open spec fn type_extension(file_type: u8) -> Option<Seq<char>> {
    if file_type == 0 {
        Some("png"@)
    } else if file_type == 1 {
        Some("jpg"@)
    } else if file_type == 2 {
        Some("webp"@)
    } else if file_type == 3 {
        Some("bmp"@)
    } else if file_type == 4 {
        Some("gif"@)
    } else if file_type == 5 {
        Some("pdf"@)
    } else {
        None
    }
}

/// The usual extension of `file_type`, or `otherwise` if it has none.
pub fn extension_or(file_type: u8, otherwise: &'static str) -> (r: &'static str)
    ensures
        r@ == (match type_extension(file_type) {
            Some(ext) => ext,
            None => otherwise@,
        }),
{
    match file_type {
        0 => "png",
        1 => "jpg",
        2 => "webp",
        3 => "bmp",
        4 => "gif",
        5 => "pdf",
        _ => otherwise,
    }
}

/// The catalog filter bit of a file type; codes 6 and 7 have none.
pub open spec fn filter_bit(file_type: u8) -> u8 {
    if file_type == 0 {
        LIST_FILTER_PNG
    } else if file_type == 1 {
        LIST_FILTER_JPEG
    } else if file_type == 2 {
        LIST_FILTER_WEBP
    } else if file_type == 3 {
        LIST_FILTER_BMP
    } else if file_type == 4 {
        LIST_FILTER_GIF
    } else if file_type == 5 {
        LIST_FILTER_PDF
    } else {
        0
    }
}

/// Whether a catalog filter lets an entry with these flags through. Without a
/// filter every entry passes.
pub open spec fn filter_admits(mask: Option<u8>, flags: u8) -> bool {
    match mask {
        None => true,
        Some(m) => m & filter_bit(flags % 8) != 0,
    }
}

/// Decides `filter_admits`.
pub fn passes_filter(mask: Option<u8>, flags: u8) -> (r: bool)
    ensures
        r == filter_admits(mask, flags),
{
    match mask {
        None => true,
        Some(m) => {
            let bit: u8 = match file_type_from_flags(flags) {
                0 => LIST_FILTER_PNG,
                1 => LIST_FILTER_JPEG,
                2 => LIST_FILTER_WEBP,
                3 => LIST_FILTER_BMP,
                4 => LIST_FILTER_GIF,
                5 => LIST_FILTER_PDF,
                _ => 0,
            };
            m & bit != 0
        },
    }
}

/// A file type survives the way into the flags and back, whether or not the
/// compression bit is added, and adding that bit is seen.
pub proof fn law_file_type_round_trip(file_type: u8)
    requires
        file_type < 8,
    ensures
        (file_type & FLAGS_FILE_TYPE_MASK) & FLAGS_FILE_TYPE_MASK == file_type,
        ((file_type & FLAGS_FILE_TYPE_MASK) | FLAG_COMPRESSED) & FLAGS_FILE_TYPE_MASK == file_type,
        ((file_type & FLAGS_FILE_TYPE_MASK) | FLAG_COMPRESSED) & FLAG_COMPRESSED != 0,
        (file_type & FLAGS_FILE_TYPE_MASK) & FLAG_COMPRESSED == 0,
{
    assert(file_type < 8 ==> {
        &&& (file_type & 7) & 7 == file_type
        &&& ((file_type & 7) | 8) & 7 == file_type
        &&& ((file_type & 7) | 8) & 8 != 0
        &&& (file_type & 7) & 8 == 0
    }) by (bit_vector);
}

/// The bits of a filter are distinct: a filter made of one type's bit lets
/// that type through and no other.
pub proof fn law_filter_bits_distinct(a: u8, b: u8)
    requires
        a < 6,
        b < 6,
    ensures
        filter_admits(Some(filter_bit(a)), b) <==> a == b,
        filter_admits(Some(LIST_FILTER_ALL), b),
{
    assert(0b01u8 & 0b01u8 != 0 && 0b01u8 & 0b10u8 == 0 && 0b01u8 & 0b100u8 == 0 && 0b01u8 & 0b1000u8
        == 0 && 0b01u8 & 0b1_0000u8 == 0 && 0b01u8 & 0b10_0000u8 == 0) by (bit_vector);
    assert(0b10u8 & 0b01u8 == 0 && 0b10u8 & 0b10u8 != 0 && 0b10u8 & 0b100u8 == 0 && 0b10u8 & 0b1000u8
        == 0 && 0b10u8 & 0b1_0000u8 == 0 && 0b10u8 & 0b10_0000u8 == 0) by (bit_vector);
    assert(0b100u8 & 0b01u8 == 0 && 0b100u8 & 0b10u8 == 0 && 0b100u8 & 0b100u8 != 0 && 0b100u8
        & 0b1000u8 == 0 && 0b100u8 & 0b1_0000u8 == 0 && 0b100u8 & 0b10_0000u8 == 0) by (bit_vector);
    assert(0b1000u8 & 0b01u8 == 0 && 0b1000u8 & 0b10u8 == 0 && 0b1000u8 & 0b100u8 == 0 && 0b1000u8
        & 0b1000u8 != 0 && 0b1000u8 & 0b1_0000u8 == 0 && 0b1000u8 & 0b10_0000u8 == 0)
        by (bit_vector);
    assert(0b1_0000u8 & 0b01u8 == 0 && 0b1_0000u8 & 0b10u8 == 0 && 0b1_0000u8 & 0b100u8 == 0
        && 0b1_0000u8 & 0b1000u8 == 0 && 0b1_0000u8 & 0b1_0000u8 != 0 && 0b1_0000u8 & 0b10_0000u8
        == 0) by (bit_vector);
    assert(0b10_0000u8 & 0b01u8 == 0 && 0b10_0000u8 & 0b10u8 == 0 && 0b10_0000u8 & 0b100u8 == 0
        && 0b10_0000u8 & 0b1000u8 == 0 && 0b10_0000u8 & 0b1_0000u8 == 0 && 0b10_0000u8
        & 0b10_0000u8 != 0) by (bit_vector);
    assert(0b11_1111u8 & 0b01u8 != 0 && 0b11_1111u8 & 0b10u8 != 0 && 0b11_1111u8 & 0b100u8 != 0
        && 0b11_1111u8 & 0b1000u8 != 0 && 0b11_1111u8 & 0b1_0000u8 != 0 && 0b11_1111u8
        & 0b10_0000u8 != 0) by (bit_vector);
}

/// The extensions of the file types, and that codes 6 and 7 have none.
pub proof fn law_type_extensions()
    ensures
        type_extension(0) == Some("png"@),
        type_extension(1) == Some("jpg"@),
        type_extension(2) == Some("webp"@),
        type_extension(3) == Some("bmp"@),
        type_extension(4) == Some("gif"@),
        type_extension(5) == Some("pdf"@),
        forall|t: u8| t > 5 ==> type_extension(t) is None,
{
}

/// A filter lets through exactly the file types whose bit it has: bit 0 for
/// PNG, 1 for JPEG, 2 for WebP, 3 for BMP, 4 for GIF and 5 for PDF, whatever
/// the other flags say. No filter lets everything through.
pub proof fn law_filter_admits(mask: u8, flags: u8)
    ensures
        filter_admits(None, flags),
        flags % 8 == 0 ==> (filter_admits(Some(mask), flags) <==> mask % 2 == 1),
        flags % 8 == 1 ==> (filter_admits(Some(mask), flags) <==> mask / 2 % 2 == 1),
        flags % 8 == 2 ==> (filter_admits(Some(mask), flags) <==> mask / 4 % 2 == 1),
        flags % 8 == 3 ==> (filter_admits(Some(mask), flags) <==> mask / 8 % 2 == 1),
        flags % 8 == 4 ==> (filter_admits(Some(mask), flags) <==> mask / 16 % 2 == 1),
        flags % 8 == 5 ==> (filter_admits(Some(mask), flags) <==> mask / 32 % 2 == 1),
        flags % 8 > 5 ==> !filter_admits(Some(mask), flags),
{
    assert((mask & 1u8 != 0) == (mask % 2 == 1) && (mask & 2u8 != 0) == (mask / 2 % 2 == 1) && (mask
        & 4u8 != 0) == (mask / 4 % 2 == 1) && (mask & 8u8 != 0) == (mask / 8 % 2 == 1) && (mask
        & 16u8 != 0) == (mask / 16 % 2 == 1) && (mask & 32u8 != 0) == (mask / 32 % 2 == 1) && mask
        & 0u8 == 0) by (bit_vector);
}

/// Image flags are accepted exactly if only the file type and the compression
/// bit are set. Of those refused, the ones with bit 4 are told apart.
pub proof fn law_image_flags(flags: u8)
    ensures
        image_flags_check(flags) is Ok <==> flags < 16,
        image_flags_check(flags) == Err::<(), ProtocolError>(ProtocolError::EncryptedFlag) <==>
            flags / 16 % 2 == 1,
        image_flags_check(flags) == Err::<(), ProtocolError>(ProtocolError::ReservedFlags) <==>
            flags >= 32 && flags / 16 % 2 == 0,
        request_flags_check(flags) is Ok <==> flags < 2,
{
    assert((flags & 16u8 != 0) == (flags / 16 % 2 == 1) && (flags & 0b1110_0000u8 != 0) == (flags
        >= 32) && (flags & 0b1111_1110u8 != 0) == (flags >= 2)) by (bit_vector);
}

} // verus!
