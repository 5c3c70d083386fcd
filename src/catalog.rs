use crate::format::{compression_spec, content_type_spec};
use crate::ids::text_eq;
use crate::metadata::{copy_text, Metadata};
use martin_tile_utils::TileInfo;
use vstd::prelude::*;

verus! {

/// How a tile source is described to clients: the media type and content
/// encoding of its tiles, and the optional texts of its metadata.
#[derive(Debug, Clone, Default, PartialEq, Eq)]
pub struct CatalogSourceEntry {
    pub content_type: String,
    pub content_encoding: Option<String>,
    pub name: Option<String>,
    pub description: Option<String>,
    pub attribution: Option<String>,
}

/// Catalog entries paired with the identifiers of their sources.
pub type TileCatalog = Vec<(String, CatalogSourceEntry)>;

/// The characters of an optional text.
pub open spec fn opt_text(o: Option<String>) -> Option<Seq<char>> {
    match o {
        Some(s) => Some(s@),
        None => None,
    }
}

/// The display name shown for a source: its name, unless that repeats the identifier.
pub open spec fn shown_name(id: Seq<char>, name: Option<String>) -> Option<Seq<char>> {
    match name {
        Some(n) => if n@ != id { Some(n@) } else { None },
        None => None,
    }
}

/// `e` describes the source with identifier `id`, metadata `m` and tile format `info`.
pub open spec fn describes(e: CatalogSourceEntry, id: Seq<char>, m: Metadata, info: TileInfo) -> bool {
    &&& e.content_type@ == content_type_spec(info.format)
    &&& opt_text(e.content_encoding) == compression_spec(info.encoding)
    &&& opt_text(e.name) == shown_name(id, m.name)
    &&& opt_text(e.description) == opt_text(m.description)
    &&& opt_text(e.attribution) == opt_text(m.attribution)
}

/// Builds the catalog entry of a source from its identifier, metadata and tile format.
pub fn make_catalog_entry(id: &str, metadata: &Metadata, info: &TileInfo) -> (r: CatalogSourceEntry)
    ensures
        describes(r, id@, *metadata, *info),
{
    let content_type = String::from_str(info.format.content_type());
    let content_encoding = match info.encoding.content_encoding() {
        Some(enc) => Some(String::from_str(enc)),
        None => None,
    };
    let name = match &metadata.name {
        Some(n) => if text_eq(n.as_str(), id) { None } else { Some(n.clone()) },
        None => None,
    };
    CatalogSourceEntry {
        content_type,
        content_encoding,
        name,
        description: copy_text(&metadata.description),
        attribution: copy_text(&metadata.attribution),
    }
}

} // verus!
