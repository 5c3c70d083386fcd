use crate::catalog::{describes, CatalogSourceEntry, TileCatalog};
use crate::format::same_tile_info;
use crate::ids::{lemma_text_less_total, text_cmp, text_eq, text_less};
use crate::resolve::{
    lemma_resolve_fails_on, lemma_split_ids_not_empty, resolve, split_commas, split_ids,
    ResolveFailure, SourceError,
};
use crate::source::{copies, records, self_recorded, Registered, Source};
use itertools::Itertools;
use martin_tile_utils::TileInfo;
use vstd::prelude::*;

verus! {

/// The sources of several lists, one list after the other.
pub open spec fn flat<A>(groups: Seq<Vec<A>>) -> Seq<A>
    decreases groups.len(),
{
    if groups.len() == 0 {
        Seq::empty()
    } else {
        groups[0]@ + flat(groups.drop_first())
    }
}

/// `regs` records the sources of `srcs`, one for one.
pub open spec fn same_sources<S: Source>(regs: Seq<Registered<S>>, srcs: Seq<S>) -> bool {
    regs.len() == srcs.len() && forall|j: int| 0 <= j < regs.len() ==> records(#[trigger] regs[j], srcs[j])
}

proof fn lemma_flat_same<S: Source>(regs: Seq<Vec<Registered<S>>>, srcs: Seq<Vec<S>>)
    requires
        regs.len() == srcs.len(),
        forall|g: int| 0 <= g < regs.len() ==> same_sources(#[trigger] regs[g]@, srcs[g]@),
    ensures
        same_sources(flat(regs), flat(srcs)),
    decreases regs.len(),
{
    if regs.len() > 0 {
        let rest = regs.drop_first();
        let srest = srcs.drop_first();
        assert(same_sources(regs[0]@, srcs[0]@));
        assert forall|g: int| 0 <= g < rest.len() implies same_sources(#[trigger] rest[g]@, srest[g]@) by {
            assert(same_sources(regs[g + 1]@, srcs[g + 1]@));
        }
        lemma_flat_same(rest, srest);
        let n = regs[0]@.len() as int;
        assert forall|j: int| 0 <= j < flat(regs).len() implies records(
            #[trigger] flat(regs)[j],
            flat(srcs)[j],
        ) by {
            if j >= n {
                assert(flat(regs)[j] == flat(rest)[j - n]);
                assert(flat(srcs)[j] == flat(srest)[j - n]);
            }
        }
    }
}

/// The sources by identifier, where a later source replaces an earlier one
/// with the same identifier.
pub open spec fn index_by_id<S>(s: Seq<Registered<S>>) -> Map<Seq<char>, Registered<S>>
    decreases s.len(),
{
    if s.len() == 0 {
        Map::empty()
    } else {
        index_by_id(s.drop_last()).insert(s.last().id@, s.last())
    }
}

/// In `index_by_id(s)`, the keys are the identifiers of `s`, and each maps to
/// the last entry of `s` with that identifier.
pub proof fn lemma_index_last<S>(s: Seq<Registered<S>>)
    ensures
        forall|k: Seq<char>|
            #[trigger] index_by_id(s).contains_key(k) <==> exists|j: int|
                0 <= j < s.len() && s[j].id@ == k,
        forall|k: Seq<char>|
            #[trigger] index_by_id(s).contains_key(k) ==> exists|j: int|
                0 <= j < s.len() && s[j].id@ == k && index_by_id(s)[k] == s[j] && forall|i: int|
                    j < i < s.len() ==> s[i].id@ != k,
    decreases s.len(),
{
    if s.len() > 0 {
        let t = s.drop_last();
        let n = s.len() - 1;
        lemma_index_last(t);
        assert(index_by_id(s) == index_by_id(t).insert(s.last().id@, s.last()));
        assert forall|k: Seq<char>| #[trigger] index_by_id(s).contains_key(k) <==> exists|j: int|
            0 <= j < s.len() && s[j].id@ == k by {
            if index_by_id(s).contains_key(k) && k != s.last().id@ {
                let j = choose|j: int| 0 <= j < t.len() && t[j].id@ == k;
                assert(s[j] == t[j]);
            }
            if exists|j: int| 0 <= j < s.len() && s[j].id@ == k {
                let j = choose|j: int| 0 <= j < s.len() && s[j].id@ == k;
                if j < n {
                    assert(t[j] == s[j]);
                }
            }
        }
        assert forall|k: Seq<char>| #[trigger] index_by_id(s).contains_key(k) implies exists|j: int|
            0 <= j < s.len() && s[j].id@ == k && index_by_id(s)[k] == s[j] && forall|i: int|
                j < i < s.len() ==> s[i].id@ != k by {
            if k == s.last().id@ {
                assert(s[n].id@ == k);
            } else {
                let j = choose|j: int|
                    0 <= j < t.len() && t[j].id@ == k && index_by_id(t)[k] == t[j] && forall|i: int|
                        j < i < t.len() ==> t[i].id@ != k;
                assert(s[j] == t[j]);
                assert forall|i: int| j < i < s.len() implies s[i].id@ != k by {
                    if i < n {
                        assert(s[i] == t[i]);
                    }
                }
            }
        }
    }
}

proof fn lemma_index_copies<S: Source>(s: Seq<Registered<S>>, t: Seq<Registered<S>>)
    requires
        s.len() == t.len(),
        forall|j: int| 0 <= j < s.len() ==> copies(#[trigger] t[j], s[j]),
    ensures
        index_by_id(t).dom() == index_by_id(s).dom(),
        forall|k: Seq<char>|
            #[trigger] index_by_id(s).contains_key(k) ==> copies(index_by_id(t)[k], index_by_id(s)[k]),
        ids_unique(s) ==> ids_unique(t),
    decreases s.len(),
{
    if s.len() > 0 {
        let n = s.len() - 1;
        assert forall|j: int| 0 <= j < n implies copies(#[trigger] t.drop_last()[j], s.drop_last()[j]) by {
            assert(copies(t[j], s[j]));
        }
        lemma_index_copies(s.drop_last(), t.drop_last());
        assert(copies(t[n], s[n]));
        assert(index_by_id(t).dom() =~= index_by_id(s).dom());
    }
    if ids_unique(s) {
        assert forall|i: int, j: int|
            0 <= i < t.len() && 0 <= j < t.len() && i != j implies t[i].id@ != t[j].id@ by {
            assert(copies(t[i], s[i]));
            assert(copies(t[j], s[j]));
        }
    }
}

/// Each key is the identifier that the source stored under it reports, and
/// each entry holds what its source reports.
pub open spec fn keys_report<S: Source>(m: Map<Seq<char>, Registered<S>>) -> bool {
    forall|k: Seq<char>|
        #[trigger] m.contains_key(k) ==> m[k].id@ == k && self_recorded(m[k]) && m[k].source.spec_id()
            == k
}

/// `c` lists, in strictly ascending order of identifiers, one entry for each
/// key of `m`, describing the source stored there.
pub open spec fn catalog_for<S>(c: Seq<(String, CatalogSourceEntry)>, m: Map<Seq<char>, Registered<S>>) -> bool {
    &&& forall|i: int, j: int| 0 <= i < j < c.len() ==> text_less(c[i].0@, c[j].0@)
    &&& forall|i: int|
        0 <= i < c.len() ==> m.contains_key(#[trigger] c[i].0@) && describes(
            c[i].1,
            c[i].0@,
            m[c[i].0@].metadata,
            m[c[i].0@].info,
        )
    &&& forall|k: Seq<char>| #[trigger] m.contains_key(k) ==> exists|i: int| 0 <= i < c.len() && c[i].0@ == k
}

/// `m` registers the sources `f`, in order: its keys are the identifiers they
/// report, and each key holds what the last source with that identifier reports.
pub open spec fn registry_for<S: Source>(m: Map<Seq<char>, Registered<S>>, f: Seq<S>) -> bool {
    &&& forall|k: Seq<char>|
        #[trigger] m.contains_key(k) <==> exists|j: int| 0 <= j < f.len() && f[j].spec_id() == k
    &&& forall|k: Seq<char>|
        #[trigger] m.contains_key(k) ==> exists|j: int|
            0 <= j < f.len() && f[j].spec_id() == k && records(m[k], f[j]) && forall|i: int|
                j < i < f.len() ==> f[i].spec_id() != k
}

/// No two entries share an identifier.
pub open spec fn ids_unique<S>(s: Seq<Registered<S>>) -> bool {
    forall|i: int, j: int|
        0 <= i < s.len() && 0 <= j < s.len() && i != j ==> s[i].id@ != s[j].id@
}

proof fn lemma_index_facts<S>(s: Seq<Registered<S>>)
    requires
        ids_unique(s),
    ensures
        forall|i: int|
            0 <= i < s.len() ==> #[trigger] index_by_id(s).contains_key(s[i].id@)
                && index_by_id(s)[s[i].id@] == s[i],
        forall|k: Seq<char>|
            #[trigger] index_by_id(s).contains_key(k) ==> exists|i: int|
                0 <= i < s.len() && s[i].id@ == k,
    decreases s.len(),
{
    if s.len() > 0 {
        let t = s.drop_last();
        assert(forall|i: int| 0 <= i < t.len() ==> t[i] == s[i]);
        assert(ids_unique(t));
        assert(index_by_id(s) == index_by_id(t).insert(s.last().id@, s.last()));
        lemma_index_facts(t);
        assert forall|i: int| 0 <= i < s.len() implies #[trigger] index_by_id(s).contains_key(
            s[i].id@,
        ) && index_by_id(s)[s[i].id@] == s[i] by {
            if i < s.len() - 1 {
                assert(t[i] == s[i]);
            }
        }
        assert forall|k: Seq<char>| #[trigger] index_by_id(s).contains_key(k) implies exists|
            i: int,
        | 0 <= i < s.len() && s[i].id@ == k by {
            if k != s.last().id@ {
                assert(index_by_id(t).contains_key(k));
                let i = choose|i: int| 0 <= i < t.len() && t[i].id@ == k;
                assert(s[i] == t[i]);
            } else {
                assert(s[s.len() - 1].id@ == k);
            }
        }
    }
}

proof fn lemma_index_replace<S>(s: Seq<Registered<S>>, i: int, x: Registered<S>)
    requires
        ids_unique(s),
        0 <= i < s.len(),
        x.id@ == s[i].id@,
    ensures
        ids_unique(s.update(i, x)),
        index_by_id(s.update(i, x)) == index_by_id(s).insert(x.id@, x),
{
    let u = s.update(i, x);
    assert(ids_unique(u));
    lemma_index_facts(s);
    lemma_index_facts(u);
    let a = index_by_id(u);
    let b = index_by_id(s).insert(x.id@, x);
    assert forall|k: Seq<char>| a.contains_key(k) <==> b.contains_key(k) by {
        if a.contains_key(k) {
            let j = choose|j: int| 0 <= j < u.len() && u[j].id@ == k;
            if j != i {
                assert(index_by_id(s).contains_key(s[j].id@));
            }
        }
        if b.contains_key(k) && k != x.id@ {
            let j = choose|j: int| 0 <= j < s.len() && s[j].id@ == k;
            assert(u[j] == s[j]);
            assert(a.contains_key(u[j].id@));
        }
        if k == x.id@ {
            assert(a.contains_key(u[i].id@));
        }
    }
    assert forall|k: Seq<char>| a.contains_key(k) implies a[k] == b[k] by {
        let j = choose|j: int| 0 <= j < u.len() && u[j].id@ == k;
        if j != i {
            assert(u[j] == s[j]);
        }
    }
    assert(a =~= b);
}

proof fn lemma_index_push<S>(s: Seq<Registered<S>>, x: Registered<S>)
    requires
        ids_unique(s),
        forall|i: int| 0 <= i < s.len() ==> s[i].id@ != x.id@,
    ensures
        ids_unique(s.push(x)),
        index_by_id(s.push(x)) == index_by_id(s).insert(x.id@, x),
{
    assert(s.push(x).drop_last() =~= s);
}

/// Adds `r` to `entries`, in place of a source with the same identifier if there is one.
fn register<S>(entries: &mut Vec<Registered<S>>, r: Registered<S>)
    requires
        ids_unique(old(entries)@),
    ensures
        ids_unique(final(entries)@),
        index_by_id(final(entries)@) == index_by_id(old(entries)@).insert(r.id@, r),
        forall|i: int|
            0 <= i < final(entries)@.len() ==> old(entries)@.contains(#[trigger] final(entries)@[i])
                || final(entries)@[i] == r,
{
    let mut i: usize = 0;
    while i < entries.len()
        invariant
            entries@ == old(entries)@,
            ids_unique(entries@),
            i <= entries@.len(),
            forall|j: int| 0 <= j < i ==> entries@[j].id@ != r.id@,
        decreases entries@.len() - i,
    {
        if text_eq(entries[i].id.as_str(), r.id.as_str()) {
            proof {
                lemma_index_replace(entries@, i as int, r);
            }
            let ghost before = entries@;
            entries.set(i, r);
            assert forall|j: int| 0 <= j < entries@.len() implies before.contains(
                #[trigger] entries@[j],
            ) || entries@[j] == r by {
                if j != i {
                    assert(before[j] == entries@[j]);
                }
            }
            return;
        }
        i = i + 1;
    }
    proof {
        lemma_index_push(entries@, r);
    }
    let ghost before = entries@;
    entries.push(r);
    assert forall|j: int| 0 <= j < entries@.len() implies before.contains(#[trigger] entries@[j])
        || entries@[j] == r by {
        if j < before.len() {
            assert(before[j] == entries@[j]);
        }
    }
}

/// Relies on itertools' `Itertools::sorted_by`: it returns all items, sorted by
/// the comparison given, here `text_cmp` on the identifiers, a total order.
#[verifier::external_body]
fn sort_by_id(entries: TileCatalog) -> (r: TileCatalog)
    ensures
        r@.to_multiset() == entries@.to_multiset(),
        forall|i: int, j: int| 0 <= i < j < r@.len() ==> !text_less(r@[j].0@, r@[i].0@),
{
    entries.into_iter().sorted_by(|a, b| text_cmp(&a.0, &b.0)).collect()
}

/// The registered tile sources, by identifier.
pub struct TileSources<S> {
    entries: Vec<Registered<S>>,
}

impl<S> View for TileSources<S> {
    type V = Map<Seq<char>, Registered<S>>;

    closed spec fn view(&self) -> Map<Seq<char>, Registered<S>> {
        index_by_id(self.entries@)
    }
}

impl<S: Source> TileSources<S> {
    /// No two registered sources share an identifier.
    pub closed spec fn wf(&self) -> bool {
        &&& ids_unique(self.entries@)
        &&& forall|i: int| 0 <= i < self.entries@.len() ==> self_recorded(#[trigger] self.entries@[i])
    }

    proof fn lemma_view(&self)
        requires
            self.wf(),
        ensures
            forall|i: int|
                0 <= i < self.entries@.len() ==> #[trigger] self@.contains_key(
                    self.entries@[i].id@,
                ) && self@[self.entries@[i].id@] == self.entries@[i],
            forall|k: Seq<char>| #[trigger]
                self@.contains_key(k) ==> exists|i: int|
                    0 <= i < self.entries@.len() && self.entries@[i].id@ == k,
    {
        lemma_index_facts(self.entries@);
    }

    /// Each registered source is kept under the identifier it reports, with
    /// what it reports of itself.
    pub proof fn lemma_keys_report(&self)
        requires
            self.wf(),
        ensures
            keys_report(self@),
    {
        self.lemma_view();
        assert forall|k: Seq<char>| #[trigger] self@.contains_key(k) implies self@[k].id@ == k
            && self_recorded(self@[k]) && self@[k].source.spec_id() == k by {
            let i = choose|i: int| 0 <= i < self.entries@.len() && self.entries@[i].id@ == k;
            assert(self_recorded(self.entries@[i]));
        }
    }

    /// Registers the sources of all lists, in order: a later source replaces an
    /// earlier one with the same identifier.
    pub fn from_registered(groups: Vec<Vec<Registered<S>>>) -> (r: Self)
        requires
            forall|x: Registered<S>| #[trigger] flat(groups@).contains(x) ==> self_recorded(x),
        ensures
            r.wf(),
            r@ == index_by_id(flat(groups@)),
            forall|k: Seq<char>| #[trigger] r@.contains_key(k) ==> flat(groups@).contains(r@[k]),
    {
        let ghost all = flat(groups@);
        let mut groups = groups;
        let mut entries: Vec<Registered<S>> = Vec::new();
        let ghost mut done: Seq<Registered<S>> = Seq::empty();
        while groups.len() > 0
            invariant
                ids_unique(entries@),
                index_by_id(entries@) == index_by_id(done),
                done + flat(groups@) == all,
                forall|i: int| 0 <= i < entries@.len() ==> done.contains(#[trigger] entries@[i]),
                forall|x: Registered<S>| #[trigger] all.contains(x) ==> self_recorded(x),
                forall|i: int| 0 <= i < entries@.len() ==> self_recorded(#[trigger] entries@[i]),
            decreases groups@.len(),
        {
            let ghost before = groups@;
            let mut group = groups.remove(0);
            assert(before.drop_first() =~= groups@);
            assert(done + group@ + flat(groups@) =~= all);
            while group.len() > 0
                invariant
                    ids_unique(entries@),
                    index_by_id(entries@) == index_by_id(done),
                    done + group@ + flat(groups@) == all,
                    forall|i: int| 0 <= i < entries@.len() ==> done.contains(#[trigger] entries@[i]),
                    forall|x: Registered<S>| #[trigger] all.contains(x) ==> self_recorded(x),
                    forall|i: int| 0 <= i < entries@.len() ==> self_recorded(#[trigger] entries@[i]),
                decreases group@.len(),
            {
                let ghost g = group@;
                let r = group.remove(0);
                let ghost old_entries = entries@;
                proof {
                    assert(all[done.len() as int] == r);
                    assert(all.contains(r));
                }
                register(&mut entries, r);
                proof {
                    assert forall|i: int| 0 <= i < entries@.len() implies self_recorded(
                        #[trigger] entries@[i],
                    ) by {
                        if entries@[i] != r {
                            assert(old_entries.contains(entries@[i]));
                            let j = choose|j: int| 0 <= j < old_entries.len() && old_entries[j] == entries@[i];
                            assert(self_recorded(old_entries[j]));
                        }
                    }
                    assert forall|i: int| 0 <= i < entries@.len() implies done.push(r).contains(
                        #[trigger] entries@[i],
                    ) by {
                        if entries@[i] == r {
                            assert(done.push(r)[done.len() as int] == r);
                        } else {
                            assert(old_entries.contains(entries@[i]));
                            let j = choose|j: int| 0 <= j < old_entries.len() && old_entries[j] == entries@[i];
                            assert(done.contains(old_entries[j]));
                            let d = choose|d: int| 0 <= d < done.len() && done[d] == old_entries[j];
                            assert(done.push(r)[d] == entries@[i]);
                        }
                    }
                    assert(done.push(r).drop_last() =~= done);
                    assert(done.push(r) + group@ =~= done + g);
                    done = done.push(r);
                }
            }
            assert(done + group@ =~= done);
        }
        assert(done + flat(groups@) =~= done);
        let r = TileSources { entries };
        proof {
            r.lemma_view();
            assert forall|k: Seq<char>| #[trigger] r@.contains_key(k) implies all.contains(r@[k]) by {
                let i = choose|i: int| 0 <= i < r.entries@.len() && r.entries@[i].id@ == k;
                assert(r@.contains_key(r.entries@[i].id@));
            }
        }
        r
    }

    /// Registers the sources of all lists, in order: a later source replaces an
    /// earlier one with the same identifier. Each source is asked once for its
    /// identifier, metadata, format and query support (see `Registered::of`),
    /// and is kept under the identifier it gave.
    pub fn new(sources: Vec<Vec<S>>) -> (r: Self)
        ensures
            r.wf(),
            keys_report(r@),
            exists|regs: Seq<Registered<S>>|
                same_sources(regs, flat(sources@)) && r@ == index_by_id(regs),
            registry_for(r@, flat(sources@)),
    {
        let ghost orig = sources@;
        let mut sources = sources;
        let mut groups: Vec<Vec<Registered<S>>> = Vec::new();
        while sources.len() > 0
            invariant
                groups@.len() + sources@.len() == orig.len(),
                sources@ == orig.subrange(groups@.len() as int, orig.len() as int),
                forall|g: int| 0 <= g < groups@.len() ==> same_sources(#[trigger] groups@[g]@, orig[g]@),
            decreases sources@.len(),
        {
            let ghost taken = sources@;
            let mut group = sources.remove(0);
            let ghost whole = group@;
            assert(whole == orig[groups@.len() as int]@);
            assert(sources@ =~= orig.subrange(groups@.len() as int + 1, orig.len() as int));
            let mut registered: Vec<Registered<S>> = Vec::new();
            while group.len() > 0
                invariant
                    registered@.len() + group@.len() == whole.len(),
                    group@ == whole.subrange(registered@.len() as int, whole.len() as int),
                    forall|j: int| 0 <= j < registered@.len() ==> records(#[trigger] registered@[j], whole[j]),
                decreases group@.len(),
            {
                let src = group.remove(0);
                assert(src == whole[registered@.len() as int]);
                registered.push(Registered::of(src));
                assert(group@ =~= whole.subrange(registered@.len() as int, whole.len() as int));
            }
            groups.push(registered);
        }
        let ghost regs = groups@;
        proof {
            assert(orig.subrange(regs.len() as int, orig.len() as int).len() == 0);
            lemma_flat_same(regs, orig);
            assert forall|x: Registered<S>| #[trigger] flat(regs).contains(x) implies self_recorded(x) by {
                let j = choose|j: int| 0 <= j < flat(regs).len() && flat(regs)[j] == x;
                assert(records(flat(regs)[j], flat(orig)[j]));
            }
        }
        let r = Self::from_registered(groups);
        proof {
            r.lemma_keys_report();
            let fr = flat(regs);
            let fo = flat(orig);
            assert(same_sources(fr, fo) && r@ == index_by_id(fr));
            lemma_index_last(fr);
            assert forall|k: Seq<char>| #[trigger] r@.contains_key(k) <==> exists|j: int|
                0 <= j < fo.len() && fo[j].spec_id() == k by {
                if r@.contains_key(k) {
                    let j = choose|j: int| 0 <= j < fr.len() && fr[j].id@ == k;
                    assert(records(fr[j], fo[j]));
                }
                if exists|j: int| 0 <= j < fo.len() && fo[j].spec_id() == k {
                    let j = choose|j: int| 0 <= j < fo.len() && fo[j].spec_id() == k;
                    assert(records(fr[j], fo[j]));
                }
            }
            assert forall|k: Seq<char>| #[trigger] r@.contains_key(k) implies exists|j: int|
                0 <= j < fo.len() && fo[j].spec_id() == k && records(r@[k], fo[j]) && forall|i: int|
                    j < i < fo.len() ==> fo[i].spec_id() != k by {
                let j = choose|j: int|
                    0 <= j < fr.len() && fr[j].id@ == k && index_by_id(fr)[k] == fr[j] && forall|i: int|
                        j < i < fr.len() ==> fr[i].id@ != k;
                assert(records(fr[j], fo[j]));
                assert forall|i: int| j < i < fo.len() implies fo[i].spec_id() != k by {
                    assert(records(fr[i], fo[i]));
                }
            }
        }
        r
    }

    fn find(&self, id: &str) -> (r: Option<usize>)
        requires
            self.wf(),
        ensures
            match r {
                Some(i) => i < self.entries@.len() && self.entries@[i as int].id@ == id@
                    && self@.contains_key(id@) && self@[id@] == self.entries@[i as int],
                None => !self@.contains_key(id@),
            },
    {
        let mut i: usize = 0;
        while i < self.entries.len()
            invariant
                self.wf(),
                i <= self.entries@.len(),
                forall|j: int| 0 <= j < i ==> self.entries@[j].id@ != id@,
            decreases self.entries@.len() - i,
        {
            if text_eq(self.entries[i].id.as_str(), id) {
                proof {
                    self.lemma_view();
                    assert(self@.contains_key(self.entries@[i as int].id@));
                }
                return Some(i);
            }
            i = i + 1;
        }
        proof {
            self.lemma_view();
            if self@.contains_key(id@) {
                let j = choose|j: int| 0 <= j < self.entries@.len() && self.entries@[j].id@ == id@;
            }
        }
        None
    }

    /// The source registered under `id`.
    pub fn get_source(&self, id: &str) -> (r: Result<&S, SourceError>)
        requires
            self.wf(),
        ensures
            keys_report(self@),
            match r {
                Ok(s) => self@.contains_key(id@) && *s == self@[id@].source && s.spec_id() == id@,
                Err(e) => !self@.contains_key(id@) && e@ == ResolveFailure::NotFound(id@),
            },
    {
        proof {
            self.lemma_keys_report();
        }
        match self.find(id) {
            Some(i) => Ok(&self.entries[i].source),
            None => Err(SourceError::NotFound(String::from_str(id))),
        }
    }

    /// The catalog: one entry for each registered source, in ascending order
    /// of identifiers.
    pub fn get_catalog(&self) -> (r: TileCatalog)
        requires
            self.wf(),
        ensures
            catalog_for(r@, self@),
    {
        let mut v: TileCatalog = Vec::new();
        let mut i: usize = 0;
        while i < self.entries.len()
            invariant
                i <= self.entries@.len(),
                v@.len() == i,
                forall|j: int|
                    0 <= j < i ==> (#[trigger] v@[j]).0@ == self.entries@[j].id@ && describes(
                        v@[j].1,
                        self.entries@[j].id@,
                        self.entries@[j].metadata,
                        self.entries@[j].info,
                    ),
            decreases self.entries@.len() - i,
        {
            let e = &self.entries[i];
            let id = e.id.clone();
            let entry = e.get_catalog_entry();
            v.push((id, entry));
            i = i + 1;
        }
        let r = sort_by_id(v);
        proof {
            broadcast use vstd::seq_lib::group_to_multiset_ensures;

            self.lemma_view();
            assert(v@.no_duplicates()) by {
                assert forall|a: int, b: int|
                    0 <= a < v@.len() && 0 <= b < v@.len() && a != b implies v@[a] != v@[b] by {
                    assert(v@[a].0@ == self.entries@[a].id@);
                    assert(v@[b].0@ == self.entries@[b].id@);
                }
            }
            v@.lemma_multiset_has_no_duplicates();
            r@.lemma_multiset_has_no_duplicates_conv();
            assert forall|i: int| 0 <= i < r@.len() implies #[trigger] v@.contains(r@[i]) by {
                assert(r@.contains(r@[i]));
                assert(r@.to_multiset().count(r@[i]) > 0);
            }
            assert forall|i: int| 0 <= i < r@.len() implies self@.contains_key(#[trigger] r@[i].0@)
                && describes(
                r@[i].1,
                r@[i].0@,
                self@[r@[i].0@].metadata,
                self@[r@[i].0@].info,
            ) by {
                assert(v@.contains(r@[i]));
                let j = choose|j: int| 0 <= j < v@.len() && v@[j] == r@[i];
                assert(v@[j].0@ == self.entries@[j].id@);
                assert(self@.contains_key(self.entries@[j].id@));
            }
            assert forall|k: Seq<char>| #[trigger] self@.contains_key(k) implies exists|i: int|
                0 <= i < r@.len() && r@[i].0@ == k by {
                let j = choose|j: int| 0 <= j < self.entries@.len() && self.entries@[j].id@ == k;
                assert(v@[j].0@ == k);
                assert(v@.contains(v@[j]));
                assert(v@.to_multiset().count(v@[j]) > 0);
                assert(r@.contains(v@[j]));
            }
            assert forall|i: int, j: int| 0 <= i < j < r@.len() implies text_less(
                r@[i].0@,
                r@[j].0@,
            ) by {
                assert(v@.contains(r@[i]));
                assert(v@.contains(r@[j]));
                let a = choose|a: int| 0 <= a < v@.len() && v@[a] == r@[i];
                let b = choose|b: int| 0 <= b < v@.len() && v@[b] == r@[j];
                assert(v@[a].0@ == self.entries@[a].id@);
                assert(v@[b].0@ == self.entries@[b].id@);
                assert(a != b);
                lemma_text_less_total(r@[i].0@, r@[j].0@);
            }
        }
        r
    }

    /// Resolves a comma-separated list of source identifiers, in order: every
    /// identifier must be registered and all of them must share one tile
    /// format. With a zoom, sources that do not cover it are left out. Returns
    /// the sources kept, whether any requested source takes query parameters,
    /// and the common format.
    pub fn get_sources(&self, source_ids: &str, zoom: Option<u8>) -> (r: Result<
        (Vec<&S>, bool, TileInfo),
        SourceError,
    >)
        requires
            self.wf(),
        ensures
            keys_report(self@),
            match r {
                Ok((kept, query, info)) => resolve(self@, split_ids(source_ids@), zoom) == Ok::<
                    (Seq<S>, bool, Option<TileInfo>),
                    ResolveFailure,
                >((kept@.map_values(|p: &S| *p), query, Some(info))),
                Err(e) => resolve(self@, split_ids(source_ids@), zoom) == Err::<
                    (Seq<S>, bool, Option<TileInfo>),
                    ResolveFailure,
                >(e@),
            },
    {
        proof {
            self.lemma_keys_report();
        }
        let pieces = split_commas(source_ids);
        let ghost ids = split_ids(source_ids@);
        let mut sources: Vec<&S> = Vec::new();
        let mut info: Option<TileInfo> = None;
        let mut use_url_query = false;
        let mut i: usize = 0;
        assert(ids.subrange(0, 0) =~= Seq::<Seq<char>>::empty());
        assert(sources@.map_values(|p: &S| *p) =~= Seq::<S>::empty());
        while i < pieces.len()
            invariant
                self.wf(),
                keys_report(self@),
                ids == split_ids(source_ids@),
                pieces@.map_values(|p: &str| p@) == ids,
                i <= pieces@.len(),
                resolve(self@, ids.subrange(0, i as int), zoom) == Ok::<
                    (Seq<S>, bool, Option<TileInfo>),
                    ResolveFailure,
                >((sources@.map_values(|p: &S| *p), use_url_query, info)),
            decreases pieces@.len() - i,
        {
            let id = pieces[i];
            let ghost prefix = ids.subrange(0, i + 1);
            assert(prefix.drop_last() =~= ids.subrange(0, i as int));
            assert(prefix.last() == id@);
            let e = match self.find(id) {
                Some(k) => &self.entries[k],
                None => {
                    let err = SourceError::NotFound(String::from_str(id));
                    proof {
                        assert(resolve(self@, prefix, zoom) == Err::<
                            (Seq<S>, bool, Option<TileInfo>),
                            ResolveFailure,
                        >(err@));
                        lemma_resolve_fails_on(self@, ids, i + 1, zoom);
                    }
                    return Err(err);
                },
            };
            use_url_query = use_url_query || e.url_query;
            match info {
                Some(inf) => {
                    if !same_tile_info(&inf, &e.info) {
                        let err = SourceError::FormatConflict(inf, e.info);
                        proof {
                            assert(resolve(self@, prefix, zoom) == Err::<
                                (Seq<S>, bool, Option<TileInfo>),
                                ResolveFailure,
                            >(err@));
                            lemma_resolve_fails_on(self@, ids, i + 1, zoom);
                        }
                        return Err(err);
                    }
                },
                None => {
                    info = Some(e.info);
                },
            }
            let keep = match zoom {
                Some(z) => Self::check_zoom(e, z),
                None => true,
            };
            let ghost before = sources@.map_values(|p: &S| *p);
            if keep {
                sources.push(&e.source);
                assert(sources@.map_values(|p: &S| *p) =~= before.push(e.source));
            }
            i = i + 1;
        }
        assert(ids.subrange(0, i as int) =~= ids);
        proof {
            lemma_split_ids_not_empty(source_ids@);
        }
        Ok((sources, use_url_query, info.unwrap()))
    }

    /// A registry of duplicates: the same identifiers, each with what was
    /// recorded and a copy of its source.
    pub fn duplicate(&self) -> (r: Self)
        ensures
            self.wf() ==> r.wf(),
            r@.dom() == self@.dom(),
            forall|k: Seq<char>| #[trigger] self@.contains_key(k) ==> copies(r@[k], self@[k]),
    {
        let mut entries: Vec<Registered<S>> = Vec::new();
        let mut i: usize = 0;
        while i < self.entries.len()
            invariant
                i <= self.entries@.len(),
                entries@.len() == i,
                forall|j: int| 0 <= j < i ==> copies(#[trigger] entries@[j], self.entries@[j]),
            decreases self.entries@.len() - i,
        {
            entries.push(self.entries[i].duplicate());
            i = i + 1;
        }
        proof {
            lemma_index_copies(self.entries@, entries@);
        }
        TileSources { entries }
    }

    /// Whether the registered source covers `zoom`.
    pub fn check_zoom(src: &Registered<S>, zoom: u8) -> (r: bool)
        ensures
            r == src.metadata.covers(zoom),
    {
        src.is_valid_zoom(zoom)
    }
}

impl<S: Source> Default for TileSources<S> {
    /// A registry with no sources.
    fn default() -> (r: Self)
        ensures
            r.wf(),
            r@ == Map::<Seq<char>, Registered<S>>::empty(),
    {
        TileSources { entries: Vec::new() }
    }
}

impl<S: Source> Clone for TileSources<S> {
    fn clone(&self) -> Self {
        self.duplicate()
    }
}

} // verus!
