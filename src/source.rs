use crate::catalog::{describes, make_catalog_entry, CatalogSourceEntry};
use crate::metadata::Metadata;
use martin_tile_utils::TileInfo;
use vstd::prelude::*;

verus! {

/// A backend that produces tiles: it has an identifier, metadata and a tile
/// format, all fixed for its lifetime, and says whether its tiles take query
/// parameters. The registry reads these once, when the source is registered.
pub trait Source: Sized {
    /// The identifier, as a sequence of characters.
    spec fn spec_id(&self) -> Seq<char>;

    /// The metadata the source reports.
    spec fn spec_metadata(&self) -> Metadata;

    /// The tile format the source reports.
    spec fn spec_info(&self) -> TileInfo;

    /// Whether the source takes query parameters.
    spec fn spec_url_query(&self) -> bool;

    /// The identifier the source is registered and requested under.
    fn get_id(&self) -> (r: &str)
        ensures
            r@ == self.spec_id(),
    ;

    /// The zoom bounds and descriptive texts of the source.
    fn get_metadata(&self) -> (r: &Metadata)
        ensures
            *r == self.spec_metadata(),
    ;

    /// The format and compression of the tiles the source produces.
    fn get_tile_info(&self) -> (r: TileInfo)
        ensures
            r == self.spec_info(),
    ;

    /// An independent copy that behaves as this source does.
    fn clone_source(&self) -> (r: Self)
        ensures
            r.spec_id() == self.spec_id(),
            r.spec_metadata() == self.spec_metadata(),
            r.spec_info() == self.spec_info(),
            r.spec_url_query() == self.spec_url_query(),
    ;

    /// Whether tile requests to this source take query parameters.
    fn support_url_query(&self) -> (r: bool)
        ensures
            r == self.spec_url_query(),
    ;

    /// Whether this source covers `zoom`, by the bounds of its metadata.
    fn is_valid_zoom(&self, zoom: u8) -> (r: bool)
        ensures
            r == self.spec_metadata().covers(zoom),
    {
        self.get_metadata().is_valid_zoom(zoom)
    }

    /// The entry that describes this source in the catalog.
    fn get_catalog_entry(&self) -> (r: CatalogSourceEntry)
        ensures
            describes(r, self.spec_id(), self.spec_metadata(), self.spec_info()),
    {
        let info = self.get_tile_info();
        make_catalog_entry(self.get_id(), self.get_metadata(), &info)
    }
}

/// `r` holds `s` and what `s` reports of itself.
pub open spec fn records<S: Source>(r: Registered<S>, s: S) -> bool {
    &&& r.source == s
    &&& r.id@ == s.spec_id()
    &&& r.metadata == s.spec_metadata()
    &&& r.info == s.spec_info()
    &&& r.url_query == s.spec_url_query()
}

/// `e` holds what its own source reports of itself.
pub open spec fn self_recorded<S: Source>(e: Registered<S>) -> bool {
    records(e, e.source)
}

/// `a` holds what `b` recorded, and a source that reports what `b`'s does.
pub open spec fn copies<S: Source>(a: Registered<S>, b: Registered<S>) -> bool {
    &&& a.id == b.id
    &&& a.metadata == b.metadata
    &&& a.info == b.info
    &&& a.url_query == b.url_query
    &&& a.source.spec_id() == b.source.spec_id()
    &&& a.source.spec_metadata() == b.source.spec_metadata()
    &&& a.source.spec_info() == b.source.spec_info()
    &&& a.source.spec_url_query() == b.source.spec_url_query()
}

/// A source together with what it reported of itself when it was registered.
pub struct Registered<S> {
    pub id: String,
    pub metadata: Metadata,
    pub info: TileInfo,
    pub url_query: bool,
    pub source: S,
}

impl<S: Source> Registered<S> {
    /// Reads the identifier, metadata, tile format and query support of `source`.
    pub fn of(source: S) -> (r: Self)
        ensures
            records(r, source),
    {
        let id = String::from_str(source.get_id());
        let metadata = source.get_metadata().copied();
        let info = source.get_tile_info();
        let url_query = source.support_url_query();
        Registered { id, metadata, info, url_query, source }
    }

    /// A copy holding what was recorded and a duplicate of the source.
    pub fn duplicate(&self) -> (r: Self)
        ensures
            copies(r, *self),
    {
        Registered {
            id: self.id.clone(),
            metadata: self.metadata.copied(),
            info: self.info,
            url_query: self.url_query,
            source: self.source.clone_source(),
        }
    }

    /// Whether the source covers `zoom`.
    pub fn is_valid_zoom(&self, zoom: u8) -> (r: bool)
        ensures
            r == self.metadata.covers(zoom),
    {
        self.metadata.is_valid_zoom(zoom)
    }

    /// The catalog entry of the source, built from what it reported.
    pub fn get_catalog_entry(&self) -> (r: CatalogSourceEntry)
        ensures
            describes(r, self.id@, self.metadata, self.info),
    {
        make_catalog_entry(self.id.as_str(), &self.metadata, &self.info)
    }
}

} // verus!
