use crate::resolve::{resolve, split_ids, ResolveFailure};
use crate::catalog::{opt_text, CatalogSourceEntry};
use crate::ids::{lemma_text_less_total, text_less};
use crate::registry::{catalog_for, keys_report, registry_for};
use crate::source::{records, Registered, Source};
use martin_tile_utils::TileInfo;
use vstd::prelude::*;

verus! {

pub open spec fn has_no_comma(s: Seq<char>) -> bool {
    forall|i: int| 0 <= i < s.len() ==> s[i] != ','
}

/// The request `a,b`.
pub open spec fn pair_request(a: Seq<char>, b: Seq<char>) -> Seq<char> {
    a + seq![','] + b
}

proof fn lemma_split_append(x: Seq<char>, b: Seq<char>)
    requires
        has_no_comma(b),
    ensures
        split_ids(x + b) == split_ids(x).update(
            split_ids(x).len() - 1,
            split_ids(x).last() + b,
        ),
    decreases b.len(),
{
    crate::resolve::lemma_split_ids_not_empty(x);
    if b.len() == 0 {
        assert(x + b =~= x);
        assert(split_ids(x).last() + b =~= split_ids(x).last());
        assert(split_ids(x).update(split_ids(x).len() - 1, split_ids(x).last()) =~= split_ids(x));
    } else {
        let c = b.last();
        let b0 = b.drop_last();
        assert(has_no_comma(b0));
        lemma_split_append(x, b0);
        assert((x + b).drop_last() =~= x + b0);
        assert((x + b).last() == c);
        let sx = split_ids(x);
        let s0 = split_ids(x + b0);
        assert(s0 == sx.update(sx.len() - 1, sx.last() + b0));
        assert(s0.len() == sx.len());
        assert(s0.last() == sx.last() + b0);
        assert(c != ',');
        assert(split_ids(x + b) == s0.update(s0.len() - 1, s0.last().push(c)));
        assert((sx.last() + b0).push(c) =~= sx.last() + b);
        assert(s0.update(s0.len() - 1, s0.last().push(c)) =~= sx.update(
            sx.len() - 1,
            sx.last() + b,
        ));
    }
}

/// Splitting `a,b` on commas gives `a` and `b`, when neither holds a comma.
pub proof fn lemma_split_pair(a: Seq<char>, b: Seq<char>)
    requires
        has_no_comma(a),
        has_no_comma(b),
    ensures
        split_ids(pair_request(a, b)) == seq![a, b],
{
    let e = Seq::<char>::empty();
    lemma_split_append(e, a);
    assert(e + a =~= a);
    assert(split_ids(e) == seq![e]);
    assert(seq![e].update(0, e + a) =~= seq![a]);
    let ac = a + seq![','];
    assert(ac.drop_last() =~= a);
    assert(split_ids(ac) =~= seq![a, e]);
    lemma_split_append(ac, b);
    assert(e + b =~= b);
    assert(seq![a, e].update(1, e + b) =~= seq![a, b]);
}

proof fn lemma_resolve_empty<S: Source>(m: Map<Seq<char>, Registered<S>>, zoom: Option<u8>)
    ensures
        resolve(m, Seq::<Seq<char>>::empty(), zoom) == Ok::<
            (Seq<S>, bool, Option<TileInfo>),
            ResolveFailure,
        >((Seq::<S>::empty(), false, None)),
{
}

/// Two registered sources with one format, requested together without a zoom,
/// are both returned in request order, with the query flags combined by `or`
/// and the format of the first.
pub proof fn law_same_format_keeps_both<S: Source>(
    m: Map<Seq<char>, Registered<S>>,
    a: Seq<char>,
    b: Seq<char>,
)
    requires
        has_no_comma(a),
        has_no_comma(b),
        m.contains_key(a),
        m.contains_key(b),
        m[a].info == m[b].info,
        keys_report(m),
    ensures
        m[a].source.spec_id() == a,
        m[b].source.spec_id() == b,
        resolve(m, split_ids(pair_request(a, b)), None) == Ok::<
            (Seq<S>, bool, Option<TileInfo>),
            ResolveFailure,
        >((seq![m[a].source, m[b].source], m[a].url_query || m[b].url_query, Some(m[a].info))),
{
    lemma_split_pair(a, b);
    let ids = seq![a, b];
    assert(ids.drop_last() =~= seq![a]);
    assert(seq![a].drop_last() =~= Seq::<Seq<char>>::empty());
    lemma_resolve_empty(m, None::<u8>);
    let first = resolve(m, seq![a], None::<u8>);
    assert(first == Ok::<(Seq<S>, bool, Option<TileInfo>), ResolveFailure>(
        (Seq::<S>::empty().push(m[a].source), m[a].url_query, Some(m[a].info)),
    ));
    assert(Seq::<S>::empty().push(m[a].source).push(m[b].source) =~= seq![m[a].source, m[b].source]);
}

/// Two registered sources of different formats, requested together, fail with
/// a conflict that names the format of the first, then that of the second.
pub proof fn law_different_formats_conflict<S: Source>(
    m: Map<Seq<char>, Registered<S>>,
    a: Seq<char>,
    b: Seq<char>,
)
    requires
        has_no_comma(a),
        has_no_comma(b),
        m.contains_key(a),
        m.contains_key(b),
        m[a].info != m[b].info,
    ensures
        resolve(m, split_ids(pair_request(a, b)), None) == Err::<
            (Seq<S>, bool, Option<TileInfo>),
            ResolveFailure,
        >(ResolveFailure::FormatConflict(m[a].info, m[b].info)),
{
    lemma_split_pair(a, b);
    let ids = seq![a, b];
    assert(ids.drop_last() =~= seq![a]);
    assert(seq![a].drop_last() =~= Seq::<Seq<char>>::empty());
    lemma_resolve_empty(m, None::<u8>);
    let first = resolve(m, seq![a], None::<u8>);
    assert(first == Ok::<(Seq<S>, bool, Option<TileInfo>), ResolveFailure>(
        (Seq::<S>::empty().push(m[a].source), m[a].url_query, Some(m[a].info)),
    ));
}

/// A request for a registered source and then an unregistered one fails with
/// the second identifier as not found, whatever the zoom.
pub proof fn law_missing_second_not_found<S: Source>(
    m: Map<Seq<char>, Registered<S>>,
    a: Seq<char>,
    missing: Seq<char>,
    zoom: Option<u8>,
)
    requires
        has_no_comma(a),
        has_no_comma(missing),
        m.contains_key(a),
        !m.contains_key(missing),
    ensures
        resolve(m, split_ids(pair_request(a, missing)), zoom) == Err::<
            (Seq<S>, bool, Option<TileInfo>),
            ResolveFailure,
        >(ResolveFailure::NotFound(missing)),
{
    lemma_split_pair(a, missing);
    let ids = seq![a, missing];
    assert(ids.drop_last() =~= seq![a]);
    assert(seq![a].drop_last() =~= Seq::<Seq<char>>::empty());
    lemma_resolve_empty(m, zoom);
    assert(resolve(m, seq![a], zoom) is Ok);
}

/// Of two sources of one format requested at a zoom that only the first
/// covers, only the first is returned, with its format and no failure.
pub proof fn law_zoom_filters_uncovered<S: Source>(
    m: Map<Seq<char>, Registered<S>>,
    a: Seq<char>,
    b: Seq<char>,
    z: u8,
)
    requires
        has_no_comma(a),
        has_no_comma(b),
        m.contains_key(a),
        m.contains_key(b),
        m[a].info == m[b].info,
        m[a].metadata.covers(z),
        !m[b].metadata.covers(z),
        keys_report(m),
    ensures
        m[a].source.spec_id() == a,
        resolve(m, split_ids(pair_request(a, b)), Some(z)) == Ok::<
            (Seq<S>, bool, Option<TileInfo>),
            ResolveFailure,
        >((seq![m[a].source], m[a].url_query || m[b].url_query, Some(m[a].info))),
{
    lemma_split_pair(a, b);
    let ids = seq![a, b];
    assert(ids.drop_last() =~= seq![a]);
    assert(seq![a].drop_last() =~= Seq::<Seq<char>>::empty());
    lemma_resolve_empty(m, Some(z));
    let first = resolve(m, seq![a], Some(z));
    assert(first == Ok::<(Seq<S>, bool, Option<TileInfo>), ResolveFailure>(
        (Seq::<S>::empty().push(m[a].source), m[a].url_query, Some(m[a].info)),
    ));
    assert(Seq::<S>::empty().push(m[a].source) =~= seq![m[a].source]);
}

/// Under every identifier, two registries hold the same source and what it
/// reports.
pub open spec fn same_reports<S>(m1: Map<Seq<char>, Registered<S>>, m2: Map<Seq<char>, Registered<S>>) -> bool {
    &&& m1.dom() == m2.dom()
    &&& forall|k: Seq<char>|
        #[trigger] m1.contains_key(k) ==> {
            &&& m1[k].metadata == m2[k].metadata
            &&& m1[k].info == m2[k].info
            &&& m1[k].url_query == m2[k].url_query
            &&& m1[k].source == m2[k].source
        }
}

/// Two catalog entries hold the same texts.
pub open spec fn same_entry(a: CatalogSourceEntry, b: CatalogSourceEntry) -> bool {
    &&& a.content_type@ == b.content_type@
    &&& opt_text(a.content_encoding) == opt_text(b.content_encoding)
    &&& opt_text(a.name) == opt_text(b.name)
    &&& opt_text(a.description) == opt_text(b.description)
    &&& opt_text(a.attribution) == opt_text(b.attribution)
}

/// Two catalogs list the same identifiers in the same order, with the same entries.
pub open spec fn same_catalog(c1: Seq<(String, CatalogSourceEntry)>, c2: Seq<(String, CatalogSourceEntry)>) -> bool {
    &&& c1.len() == c2.len()
    &&& forall|i: int|
        0 <= i < c1.len() ==> (#[trigger] c1[i]).0@ == c2[i].0@ && same_entry(c1[i].1, c2[i].1)
}

/// No two of the sources report the same identifier.
pub open spec fn ids_distinct<S: Source>(f: Seq<S>) -> bool {
    forall|i: int, j: int|
        0 <= i < f.len() && 0 <= j < f.len() && i != j ==> f[i].spec_id() != f[j].spec_id()
}

/// Registering the same sequence of sources gives the same registry, however
/// the sources were split into lists.
pub proof fn law_registry_ignores_grouping<S: Source>(
    m1: Map<Seq<char>, Registered<S>>,
    m2: Map<Seq<char>, Registered<S>>,
    f: Seq<S>,
)
    requires
        registry_for(m1, f),
        registry_for(m2, f),
    ensures
        same_reports(m1, m2),
{
    assert(m1.dom() =~= m2.dom());
    assert forall|k: Seq<char>| #[trigger] m1.contains_key(k) implies {
        &&& m1[k].metadata == m2[k].metadata
        &&& m1[k].info == m2[k].info
        &&& m1[k].url_query == m2[k].url_query
        &&& m1[k].source == m2[k].source
    } by {
        assert(m2.contains_key(k));
        let j1 = choose|j: int|
            0 <= j < f.len() && f[j].spec_id() == k && records(m1[k], f[j]) && forall|i: int|
                j < i < f.len() ==> f[i].spec_id() != k;
        let j2 = choose|j: int|
            0 <= j < f.len() && f[j].spec_id() == k && records(m2[k], f[j]) && forall|i: int|
                j < i < f.len() ==> f[i].spec_id() != k;
        if j1 < j2 {
            assert(f[j2].spec_id() == k);
        } else if j2 < j1 {
            assert(f[j1].spec_id() == k);
        }
    }
}

/// Registering the same sources in another order gives the same registry, when
/// no two of them report the same identifier.
pub proof fn law_registry_ignores_order<S: Source>(
    m1: Map<Seq<char>, Registered<S>>,
    m2: Map<Seq<char>, Registered<S>>,
    f1: Seq<S>,
    f2: Seq<S>,
)
    requires
        registry_for(m1, f1),
        registry_for(m2, f2),
        f1.to_multiset() == f2.to_multiset(),
        ids_distinct(f1),
    ensures
        same_reports(m1, m2),
{
    f1.to_multiset_ensures();
    f2.to_multiset_ensures();
    assert forall|x: S| f1.contains(x) <==> f2.contains(x) by {
        if f1.contains(x) {
            assert(f1.to_multiset().count(x) > 0);
            assert(f2.to_multiset().count(x) > 0);
        }
        if f2.contains(x) {
            assert(f2.to_multiset().count(x) > 0);
            assert(f1.to_multiset().count(x) > 0);
        }
    }
    assert forall|k: Seq<char>| m1.contains_key(k) <==> m2.contains_key(k) by {
        if m1.contains_key(k) {
            let j = choose|j: int| 0 <= j < f1.len() && f1[j].spec_id() == k;
            assert(f1.contains(f1[j]));
            let i = choose|i: int| 0 <= i < f2.len() && f2[i] == f1[j];
            assert(f2[i].spec_id() == k);
        }
        if m2.contains_key(k) {
            let j = choose|j: int| 0 <= j < f2.len() && f2[j].spec_id() == k;
            assert(f2.contains(f2[j]));
            let i = choose|i: int| 0 <= i < f1.len() && f1[i] == f2[j];
            assert(f1[i].spec_id() == k);
        }
    }
    assert(m1.dom() =~= m2.dom());
    assert forall|k: Seq<char>| #[trigger] m1.contains_key(k) implies {
        &&& m1[k].metadata == m2[k].metadata
        &&& m1[k].info == m2[k].info
        &&& m1[k].url_query == m2[k].url_query
        &&& m1[k].source == m2[k].source
    } by {
        assert(m2.contains_key(k));
        let j1 = choose|j: int|
            0 <= j < f1.len() && f1[j].spec_id() == k && records(m1[k], f1[j]) && forall|i: int|
                j < i < f1.len() ==> f1[i].spec_id() != k;
        let j2 = choose|j: int|
            0 <= j < f2.len() && f2[j].spec_id() == k && records(m2[k], f2[j]) && forall|i: int|
                j < i < f2.len() ==> f2[i].spec_id() != k;
        assert(f2.contains(f2[j2]));
        let i = choose|i: int| 0 <= i < f1.len() && f1[i] == f2[j2];
        assert(f1[i].spec_id() == k);
        assert(i == j1);
    }
}

/// Registries that hold the same under every identifier have the same catalog.
pub proof fn law_catalog_follows_reports<S>(
    m1: Map<Seq<char>, Registered<S>>,
    m2: Map<Seq<char>, Registered<S>>,
    c1: Seq<(String, CatalogSourceEntry)>,
    c2: Seq<(String, CatalogSourceEntry)>,
)
    requires
        same_reports(m1, m2),
        catalog_for(c1, m1),
        catalog_for(c2, m2),
    ensures
        same_catalog(c1, c2),
{
    let n = if c1.len() < c2.len() { c1.len() as int } else { c2.len() as int };
    lemma_prefix_keys(m1, m2, c1, c2, n);
    if c1.len() > n {
        let k = c1[n].0@;
        assert(m1.contains_key(k));
        assert(m2.contains_key(k));
        let j = choose|j: int| 0 <= j < c2.len() && c2[j].0@ == k;
        assert(c1[j].0@ == c2[j].0@);
        assert(text_less(c1[j].0@, c1[n].0@));
        crate::ids::lemma_text_less_irreflexive(k);
    }
    if c2.len() > n {
        let k = c2[n].0@;
        assert(m2.contains_key(k));
        assert(m1.contains_key(k));
        let j = choose|j: int| 0 <= j < c1.len() && c1[j].0@ == k;
        assert(c1[j].0@ == c2[j].0@);
        assert(text_less(c2[j].0@, c2[n].0@));
        crate::ids::lemma_text_less_irreflexive(k);
    }
    assert forall|i: int| 0 <= i < c1.len() implies (#[trigger] c1[i]).0@ == c2[i].0@ && same_entry(
        c1[i].1,
        c2[i].1,
    ) by {
        assert(m1.contains_key(c1[i].0@));
        assert(m2.contains_key(c2[i].0@));
    }
}

proof fn lemma_prefix_keys<S>(
    m1: Map<Seq<char>, Registered<S>>,
    m2: Map<Seq<char>, Registered<S>>,
    c1: Seq<(String, CatalogSourceEntry)>,
    c2: Seq<(String, CatalogSourceEntry)>,
    n: int,
)
    requires
        0 <= n <= c1.len(),
        n <= c2.len(),
        same_reports(m1, m2),
        catalog_for(c1, m1),
        catalog_for(c2, m2),
    ensures
        forall|j: int| 0 <= j < n ==> (#[trigger] c1[j]).0@ == c2[j].0@,
    decreases n,
{
    if n > 0 {
        lemma_prefix_keys(m1, m2, c1, c2, n - 1);
        lemma_same_key_at(m1, m2, c1, c2, n - 1);
    }
}

proof fn lemma_same_key_at<S>(
    m1: Map<Seq<char>, Registered<S>>,
    m2: Map<Seq<char>, Registered<S>>,
    c1: Seq<(String, CatalogSourceEntry)>,
    c2: Seq<(String, CatalogSourceEntry)>,
    i: int,
)
    requires
        0 <= i < c1.len(),
        i < c2.len(),
        same_reports(m1, m2),
        catalog_for(c1, m1),
        catalog_for(c2, m2),
        forall|j: int| 0 <= j < i ==> (#[trigger] c1[j]).0@ == c2[j].0@,
    ensures
        c1[i].0@ == c2[i].0@,
{
    let k1 = c1[i].0@;
    let k2 = c2[i].0@;
    if k1 != k2 {
        assert(m1.contains_key(k1));
        assert(m2.contains_key(k1));
        let a = choose|a: int| 0 <= a < c2.len() && c2[a].0@ == k1;
        assert(m2.contains_key(k2));
        assert(m1.contains_key(k2));
        let b = choose|b: int| 0 <= b < c1.len() && c1[b].0@ == k2;
        if a < i {
            assert(c1[a].0@ == k1);
            assert(text_less(c1[a].0@, c1[i].0@));
            crate::ids::lemma_text_less_irreflexive(k1);
        } else if b < i {
            assert(c2[b].0@ == k2);
            assert(text_less(c2[b].0@, c2[i].0@));
            crate::ids::lemma_text_less_irreflexive(k2);
        } else {
            assert(a != i);
            assert(b != i);
            assert(text_less(k2, k1));
            assert(text_less(k1, k2));
            lemma_text_less_total(k1, k2);
        }
    }
}

} // verus!
