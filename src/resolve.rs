use crate::source::Registered;
use martin_tile_utils::TileInfo;
use vstd::prelude::*;
use vstd::string::*;

verus! {

/// Why a request for sources failed.
#[derive(Debug)]
pub enum SourceError {
    /// No source is registered under this identifier.
    NotFound(String),
    /// Two requested sources produce tiles of different formats: the format of
    /// the sources before, then that of the source that differs.
    FormatConflict(TileInfo, TileInfo),
}

/// The failures of a request, over plain values.
pub enum ResolveFailure {
    NotFound(Seq<char>),
    FormatConflict(TileInfo, TileInfo),
}

impl View for SourceError {
    type V = ResolveFailure;

    open spec fn view(&self) -> ResolveFailure {
        match self {
            SourceError::NotFound(id) => ResolveFailure::NotFound(id@),
            SourceError::FormatConflict(a, b) => ResolveFailure::FormatConflict(*a, *b),
        }
    }
}

/// The pieces of `s` between commas, in order; a text without a comma is one piece.
pub open spec fn split_ids(s: Seq<char>) -> Seq<Seq<char>>
    decreases s.len(),
{
    if s.len() == 0 {
        seq![Seq::empty()]
    } else {
        let rest = split_ids(s.drop_last());
        if s.last() == ',' {
            rest.push(Seq::empty())
        } else {
            rest.update(rest.len() - 1, rest.last().push(s.last()))
        }
    }
}

pub proof fn lemma_split_ids_not_empty(s: Seq<char>)
    ensures
        split_ids(s).len() >= 1,
    decreases s.len(),
{
    if s.len() > 0 {
        lemma_split_ids_not_empty(s.drop_last());
    }
}

/// Whether a request for `zoom` keeps the registered source `e`.
pub open spec fn keeps<S>(e: Registered<S>, zoom: Option<u8>) -> bool {
    match zoom {
        Some(z) => e.metadata.covers(z),
        None => true,
    }
}

/// Resolves the identifiers `ids` against the sources `m`, one after the other:
/// the sources kept so far, whether any of them takes query parameters, and the
/// format that the first of them fixed; or the first failure.
pub open spec fn resolve<S>(
    m: Map<Seq<char>, Registered<S>>,
    ids: Seq<Seq<char>>,
    zoom: Option<u8>,
) -> Result<(Seq<S>, bool, Option<TileInfo>), ResolveFailure>
    decreases ids.len(),
{
    if ids.len() == 0 {
        Ok((Seq::empty(), false, None))
    } else {
        match resolve(m, ids.drop_last(), zoom) {
            Err(f) => Err(f),
            Ok((kept, query, info)) => {
                let id = ids.last();
                if !m.contains_key(id) {
                    Err(ResolveFailure::NotFound(id))
                } else {
                    let e = m[id];
                    if info is Some && info->0 != e.info {
                        Err(ResolveFailure::FormatConflict(info->0, e.info))
                    } else {
                        Ok(
                            (
                                if keeps(e, zoom) {
                                    kept.push(e.source)
                                } else {
                                    kept
                                },
                                query || e.url_query,
                                Some(e.info),
                            ),
                        )
                    }
                }
            },
        }
    }
}

pub proof fn lemma_resolve_fails_on<S>(
    m: Map<Seq<char>, Registered<S>>,
    ids: Seq<Seq<char>>,
    k: int,
    zoom: Option<u8>,
)
    requires
        0 <= k <= ids.len(),
        resolve(m, ids.subrange(0, k), zoom) is Err,
    ensures
        resolve(m, ids, zoom) == resolve(m, ids.subrange(0, k), zoom),
    decreases ids.len() - k,
{
    if k < ids.len() {
        let p = ids.subrange(0, k + 1);
        assert(p.drop_last() =~= ids.subrange(0, k));
        lemma_resolve_fails_on(m, ids, k + 1, zoom);
    } else {
        assert(ids.subrange(0, k) =~= ids);
    }
}

/// The pieces of `s` between commas.
pub fn split_commas(s: &str) -> (r: Vec<&str>)
    ensures
        r@.map_values(|p: &str| p@) == split_ids(s@),
{
    let n = s.unicode_len();
    let mut pieces: Vec<&str> = Vec::new();
    let mut start: usize = 0;
    let mut i: usize = 0;
    assert(s@.subrange(0, 0) =~= Seq::<char>::empty());
    assert(pieces@.map_values(|p: &str| p@).push(s@.subrange(0, 0)) =~= seq![Seq::<char>::empty()]);
    while i < n
        invariant
            n == s@.len(),
            start <= i <= n,
            split_ids(s@.subrange(0, i as int)) == pieces@.map_values(|p: &str| p@).push(
                s@.subrange(start as int, i as int),
            ),
        decreases n - i,
    {
        let ghost before = pieces@.map_values(|p: &str| p@);
        let c = s.get_char(i);
        assert(s@.subrange(0, i + 1).drop_last() =~= s@.subrange(0, i as int));
        if c == ',' {
            let piece = s.substring_char(start, i);
            pieces.push(piece);
            start = i + 1;
            assert(pieces@.map_values(|p: &str| p@) =~= before.push(piece@));
            assert(s@.subrange(start as int, i + 1) =~= Seq::<char>::empty());
        } else {
            assert(s@.subrange(start as int, i + 1) =~= s@.subrange(start as int, i as int).push(c));
            assert(pieces@.map_values(|p: &str| p@).push(s@.subrange(start as int, i + 1))
                =~= before.push(s@.subrange(start as int, i as int)).update(
                before.len() as int,
                s@.subrange(start as int, i as int).push(c),
            ));
        }
        i = i + 1;
    }
    let ghost before = pieces@.map_values(|p: &str| p@);
    let last = s.substring_char(start, n);
    pieces.push(last);
    assert(s@.subrange(0, n as int) =~= s@);
    assert(pieces@.map_values(|p: &str| p@) =~= before.push(last@));
    pieces
}

} // verus!
