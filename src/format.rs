use martin_tile_utils::{Encoding, Format, TileInfo};
use vstd::prelude::*;

verus! {

#[verifier::external_type_specification]
pub struct ExFormat(Format);

#[verifier::external_type_specification]
pub struct ExEncoding(Encoding);

#[verifier::external_type_specification]
pub struct ExTileInfo(TileInfo);

/// The media type that a tile format is served with.
pub open spec fn content_type_spec(f: Format) -> Seq<char> {
    match f {
        Format::Gif => "image/gif"@,
        Format::Jpeg => "image/jpeg"@,
        Format::Json => "application/json"@,
        Format::Mvt => "application/x-protobuf"@,
        Format::Png => "image/png"@,
        Format::Webp => "image/webp"@,
    }
}

/// The HTTP content encoding of a compression, absent when the payload is not
/// compressed outside its format.
pub open spec fn compression_spec(e: Encoding) -> Option<Seq<char>> {
    match e {
        Encoding::Uncompressed => None,
        Encoding::Internal => None,
        Encoding::Gzip => Some("gzip"@),
        Encoding::Zlib => Some("deflate"@),
        Encoding::Brotli => Some("br"@),
        Encoding::Zstd => Some("zstd"@),
    }
}

pub assume_specification[ Format::content_type ](f: &Format) -> (r: &str)
    ensures
        r@ == content_type_spec(*f),
;

pub assume_specification[ Encoding::content_encoding ](e: &Encoding) -> (r: Option<&str>)
    ensures
        r.is_none() <==> compression_spec(*e).is_none(),
        r.is_some() ==> r.unwrap()@ == compression_spec(*e).unwrap(),
;

/// Relies on the `PartialEq` that `TileInfo` derives: its fields are two
/// enums without data, so two values compare equal exactly when they are the same.
#[verifier::external_body]
pub fn same_tile_info(a: &TileInfo, b: &TileInfo) -> (r: bool)
    ensures
        r == (*a == *b),
{
    a == b
}

} // verus!
