//! The protocol's items under one roof.

pub use crate::bytes::{read_u16, read_u64, write_u16, write_u64};
pub use crate::catalog::{DirFile, ImageCatalog, ImageMetadata, Loaded};
pub use crate::compression::{
    decompress, get_compression_level, settle_compression, try_compress, CompressionStats,
    BUFFER_SIZE, COMPRESSION_LEVEL_LARGE, COMPRESSION_LEVEL_MEDIUM, COMPRESSION_LEVEL_SMALL,
    SIZE_THRESHOLD_LARGE, SIZE_THRESHOLD_SMALL,
};
pub use crate::error::ProtocolError;
pub use crate::flags::{
    file_type_from_flags, flags_from_file_type, passes_filter, validate_image_flags,
    validate_request_flags, FLAGS_FILE_TYPE_MASK, FLAGS_RESERVED_MASK, FLAG_COMPRESSED,
    FLAG_ENCRYPTED, LIST_FILTER_ALL, LIST_FILTER_BMP, LIST_FILTER_GIF, LIST_FILTER_JPEG,
    LIST_FILTER_PDF, LIST_FILTER_PNG, LIST_FILTER_WEBP, REQUEST_FLAGS_RESERVED_MASK,
    REQUEST_FLAG_KEEP_ALIVE,
};
pub use crate::frames::{
    read_entry, read_error, send_cancel_ack, send_error, ErrorCode, RawEntry, RESPONSE_BATCH,
    RESPONSE_CANCEL, RESPONSE_ERROR, RESPONSE_GET_BY_ID, RESPONSE_LIST, RESPONSE_LIST_AND_GET,
    RESPONSE_WATCH,
};
pub use crate::image_id::{
    compute_image_id, image_id_text, ImageId, IMAGE_ID_HEX_LEN, IMAGE_ID_LEN_BYTES, IMAGE_ID_SEED,
};
pub use crate::listing::{
    index_by_id, read_list_response, send_catalog, send_catalog_buffered, ListedImage,
};
pub use crate::packet::{
    accept_image, choose_output_name, read_image_header, receive_image, send_image_with_options,
    write_image_header_buffered, ImageHeader, ReceivedImage, SentImage,
};
pub use crate::request::{
    read_image_ids, read_request, write_batch_request_buffered, write_cancel_request_buffered,
    write_get_request_buffered, write_list_and_get_request_buffered, write_list_request_buffered,
    write_watch_request_buffered, Request, RequestError, MAX_HAVE_COUNT, REQUEST_BATCH,
    REQUEST_CANCEL, REQUEST_ERROR, REQUEST_GET_BY_ID, REQUEST_LIST, REQUEST_LIST_AND_GET,
    REQUEST_WATCH,
};
pub use crate::varint::{encode_varint_to_buf, read_varint_u32, write_varint_u32};
pub use crate::watch::{read_watch_frame, send_watch_event, WatchEvent, WatchFrame};
