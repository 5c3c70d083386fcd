use vstd::seq::Seq;
use martin_tile_utils::{Encoding, Format, TileInfo};
use tile_sources::catalog::{make_catalog_entry, CatalogSourceEntry};
use tile_sources::metadata::Metadata;
use tile_sources::registry::TileSources;
use tile_sources::source::Source;

struct TestSource {
    id: String,
    metadata: Metadata,
    info: TileInfo,
    url_query: bool,
}

// The spec views exist for the verifier only; nothing calls them at run time.
impl Source for TestSource {
    fn spec_id(&self) -> Seq<char> {
        unreachable!()
    }

    fn spec_metadata(&self) -> Metadata {
        unreachable!()
    }

    fn spec_info(&self) -> TileInfo {
        unreachable!()
    }

    fn spec_url_query(&self) -> bool {
        unreachable!()
    }

    fn get_id(&self) -> &str {
        &self.id
    }

    fn get_metadata(&self) -> &Metadata {
        &self.metadata
    }

    fn get_tile_info(&self) -> TileInfo {
        self.info
    }

    fn clone_source(&self) -> Self {
        TestSource {
            id: self.id.clone(),
            metadata: self.metadata.copied(),
            info: self.info,
            url_query: self.url_query,
        }
    }

    fn support_url_query(&self) -> bool {
        self.url_query
    }
}

fn source(id: &str, info: TileInfo, minzoom: Option<u8>, maxzoom: Option<u8>, url_query: bool) -> TestSource {
    TestSource {
        id: id.to_string(),
        metadata: Metadata {
            minzoom,
            maxzoom,
            name: None,
            description: None,
            attribution: None,
        },
        info,
        url_query,
    }
}

fn mvt() -> TileInfo {
    TileInfo::new(Format::Mvt, Encoding::Gzip)
}

fn png() -> TileInfo {
    TileInfo::new(Format::Png, Encoding::Internal)
}

fn described(id: &str, name: Option<&str>) -> TestSource {
    TestSource {
        id: id.to_string(),
        metadata: Metadata {
            minzoom: Some(2),
            maxzoom: None,
            name: name.map(ToString::to_string),
            description: Some("roads".to_string()),
            attribution: Some("OSM".to_string()),
        },
        info: mvt(),
        url_query: false,
    }
}

#[test]
fn catalog_entry_omits_name_equal_to_id() {
    let entry = described("roads", Some("roads")).get_catalog_entry();
    assert_eq!(
        entry,
        CatalogSourceEntry {
            content_type: "application/x-protobuf".to_string(),
            content_encoding: Some("gzip".to_string()),
            name: None,
            description: Some("roads".to_string()),
            attribution: Some("OSM".to_string()),
        }
    );
}

#[test]
fn catalog_entry_keeps_distinct_name() {
    let entry = described("roads", Some("Road network")).get_catalog_entry();
    assert_eq!(entry.name, Some("Road network".to_string()));
    let entry = described("roads", None).get_catalog_entry();
    assert_eq!(entry.name, None);
}

#[test]
fn catalog_entry_without_compression_has_no_encoding() {
    let meta = Metadata {
        minzoom: None,
        maxzoom: None,
        name: None,
        description: None,
        attribution: None,
    };
    let entry = make_catalog_entry("img", &meta, &png());
    assert_eq!(entry.content_type, "image/png");
    assert_eq!(entry.content_encoding, None);
    let entry = make_catalog_entry("img", &meta, &TileInfo::new(Format::Json, Encoding::Uncompressed));
    assert_eq!(entry.content_type, "application/json");
    assert_eq!(entry.content_encoding, None);
    let entry = make_catalog_entry("img", &meta, &TileInfo::new(Format::Webp, Encoding::Zlib));
    assert_eq!(entry.content_encoding, Some("deflate".to_string()));
    assert_eq!(entry.description, None);
}

#[test]
fn catalog_is_sorted_by_identifier() {
    let sources = TileSources::new(vec![
        vec![source("water", mvt(), None, None, false), source("Roads", png(), None, None, false)],
        vec![],
        vec![source("b", mvt(), None, None, false), source("ab", mvt(), None, None, false), source("a", mvt(), None, None, false)],
    ]);
    let catalog = sources.get_catalog();
    let ids: Vec<&str> = catalog.iter().map(|(id, _)| id.as_str()).collect();
    assert_eq!(ids, vec!["Roads", "a", "ab", "b", "water"]);
    assert_eq!(catalog[0].1.content_type, "image/png");
    assert_eq!(catalog[1].1.content_type, "application/x-protobuf");
}

#[test]
fn catalog_of_no_sources_is_empty() {
    let sources: TileSources<TestSource> = TileSources::new(vec![]);
    assert!(sources.get_catalog().is_empty());
}

#[test]
fn later_source_replaces_earlier_with_same_id() {
    let sources = TileSources::new(vec![
        vec![source("a", mvt(), None, None, false)],
        vec![source("a", png(), None, None, false)],
    ]);
    let catalog = sources.get_catalog();
    assert_eq!(catalog.len(), 1);
    assert_eq!(catalog[0].1.content_type, "image/png");
}

#[test]
fn valid_zoom_bounds_are_inclusive() {
    let s = source("a", mvt(), Some(2), Some(5), false);
    assert!(!s.is_valid_zoom(1));
    assert!(s.is_valid_zoom(2));
    assert!(s.is_valid_zoom(5));
    assert!(!s.is_valid_zoom(6));
    let open = source("b", mvt(), None, None, false);
    assert!(open.is_valid_zoom(0));
    assert!(open.is_valid_zoom(255));
    let low = source("c", mvt(), Some(3), None, false);
    assert!(!low.is_valid_zoom(2));
    assert!(low.is_valid_zoom(200));
}
