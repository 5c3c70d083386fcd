use vstd::seq::Seq;
use martin_tile_utils::{Encoding, Format, TileInfo};
use tile_sources::metadata::Metadata;
use tile_sources::registry::TileSources;
use tile_sources::resolve::SourceError;
use tile_sources::source::{Registered, Source};

struct TestSource {
    id: String,
    metadata: Metadata,
    info: TileInfo,
    url_query: bool,
}

// The spec views exist for the verifier only; nothing calls them at run time.
impl Source for TestSource {
    fn spec_id(&self) -> Seq<char> {
        unreachable!()
    }

    fn spec_metadata(&self) -> Metadata {
        unreachable!()
    }

    fn spec_info(&self) -> TileInfo {
        unreachable!()
    }

    fn spec_url_query(&self) -> bool {
        unreachable!()
    }

    fn get_id(&self) -> &str {
        &self.id
    }

    fn get_metadata(&self) -> &Metadata {
        &self.metadata
    }

    fn get_tile_info(&self) -> TileInfo {
        self.info
    }

    fn clone_source(&self) -> Self {
        TestSource {
            id: self.id.clone(),
            metadata: self.metadata.copied(),
            info: self.info,
            url_query: self.url_query,
        }
    }

    fn support_url_query(&self) -> bool {
        self.url_query
    }
}

fn source(id: &str, info: TileInfo, minzoom: Option<u8>, maxzoom: Option<u8>, url_query: bool) -> TestSource {
    TestSource {
        id: id.to_string(),
        metadata: Metadata {
            minzoom,
            maxzoom,
            name: None,
            description: None,
            attribution: None,
        },
        info,
        url_query,
    }
}

fn mvt() -> TileInfo {
    TileInfo::new(Format::Mvt, Encoding::Gzip)
}

fn png() -> TileInfo {
    TileInfo::new(Format::Png, Encoding::Internal)
}

fn registry() -> TileSources<TestSource> {
    TileSources::new(vec![
        vec![
            source("a", mvt(), Some(0), Some(10), false),
            source("b", mvt(), Some(5), Some(14), true),
        ],
        vec![
            source("img", png(), None, None, false),
            source("c", mvt(), None, Some(3), false),
        ],
    ])
}

fn ids(found: &[&TestSource]) -> Vec<String> {
    found.iter().map(|s| s.get_id().to_string()).collect()
}

#[test]
fn same_format_pair_returns_both_in_order() {
    let reg = registry();
    let (found, query, info) = reg.get_sources("a,b", None).unwrap();
    assert_eq!(ids(&found), vec!["a", "b"]);
    assert!(query);
    assert_eq!(info, mvt());
    let (found, query, _) = reg.get_sources("c,a", None).unwrap();
    assert_eq!(ids(&found), vec!["c", "a"]);
    assert!(!query);
}

#[test]
fn different_formats_conflict() {
    let reg = registry();
    match reg.get_sources("a,img", None) {
        Err(SourceError::FormatConflict(first, second)) => {
            assert_eq!(first, mvt());
            assert_eq!(second, png());
        }
        _ => panic!("expected a format conflict"),
    }
}

#[test]
fn missing_second_is_not_found() {
    let reg = registry();
    match reg.get_sources("a,missing", None) {
        Err(SourceError::NotFound(id)) => assert_eq!(id, "missing"),
        _ => panic!("expected not found"),
    }
    match reg.get_sources("img,missing", Some(3)) {
        Err(SourceError::NotFound(id)) => assert_eq!(id, "missing"),
        _ => panic!("expected not found"),
    }
}

#[test]
fn zoom_drops_uncovered_source() {
    let reg = registry();
    let (found, query, info) = reg.get_sources("a,b", Some(2)).unwrap();
    assert_eq!(ids(&found), vec!["a"]);
    assert!(query);
    assert_eq!(info, mvt());
    let (found, _, _) = reg.get_sources("a,b", Some(5)).unwrap();
    assert_eq!(ids(&found), vec!["a", "b"]);
    let (found, _, info) = reg.get_sources("b,c", Some(4)).unwrap();
    assert!(found.is_empty());
    assert_eq!(info, mvt());
}

#[test]
fn duplicate_identifiers_are_kept() {
    let reg = registry();
    let (found, _, _) = reg.get_sources("a,a", None).unwrap();
    assert_eq!(ids(&found), vec!["a", "a"]);
}

#[test]
fn identifiers_are_not_trimmed() {
    let reg = registry();
    match reg.get_sources("a, b", None) {
        Err(SourceError::NotFound(id)) => assert_eq!(id, " b"),
        _ => panic!("expected not found"),
    }
    match reg.get_sources("a,,b", None) {
        Err(SourceError::NotFound(id)) => assert_eq!(id, ""),
        _ => panic!("expected not found"),
    }
    match reg.get_sources("", None) {
        Err(SourceError::NotFound(id)) => assert_eq!(id, ""),
        _ => panic!("expected not found"),
    }
}

#[test]
fn get_source_finds_registered() {
    let reg = registry();
    assert_eq!(reg.get_source("img").unwrap().get_id(), "img");
    match reg.get_source("nope") {
        Err(SourceError::NotFound(id)) => assert_eq!(id, "nope"),
        _ => panic!("expected not found"),
    }
}

#[test]
fn check_zoom_uses_registered_bounds() {
    let r = Registered::of(source("a", mvt(), Some(4), Some(4), false));
    assert!(TileSources::<TestSource>::check_zoom(&r, 4));
    assert!(!TileSources::<TestSource>::check_zoom(&r, 3));
    assert!(!TileSources::<TestSource>::check_zoom(&r, 5));
    assert_eq!(r.id, "a");
    assert_eq!(r.get_catalog_entry().content_type, "application/x-protobuf");
}

#[test]
fn cloned_source_behaves_the_same() {
    let s = source("a", mvt(), Some(1), None, true);
    let c = s.clone_source();
    assert_eq!(c.get_id(), "a");
    assert!(c.support_url_query());
    assert_eq!(c.get_catalog_entry(), s.get_catalog_entry());
}

#[test]
fn default_registry_is_empty() {
    let reg: TileSources<TestSource> = TileSources::default();
    assert!(reg.get_catalog().is_empty());
    assert!(reg.get_source("a").is_err());
}

#[test]
fn cloned_registry_resolves_the_same() {
    let reg = registry();
    let copy = reg.clone();
    let (found, query, info) = copy.get_sources("a,b", Some(2)).unwrap();
    assert_eq!(ids(&found), vec!["a"]);
    assert!(query);
    assert_eq!(info, mvt());
    assert_eq!(copy.get_catalog(), reg.get_catalog());
}

#[test]
fn catalog_ignores_order_and_grouping() {
    let one = TileSources::new(vec![vec![
        source("b", mvt(), None, None, false),
        source("a", png(), None, None, false),
        source("c", mvt(), None, None, true),
    ]]);
    let other = TileSources::new(vec![
        vec![source("c", mvt(), None, None, true)],
        vec![source("a", png(), None, None, false), source("b", mvt(), None, None, false)],
    ]);
    assert_eq!(one.get_catalog(), other.get_catalog());
}
