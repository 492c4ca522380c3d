use vstd::prelude::*;
use crate::index::{
    lemma_docs_map,
    lemma_docs_map_len,
    DocModel,
    Index,
    LoadedDoc,
    loaded_view,
    models,
    distinct_paths,
    docs_map,
    entry_for,
    fresh_model,
    sync_map,
    added_count,
    updated_count,
    removed_count,
};
use crate::text::hash_spec;
use crate::index::sorted_paths;
use crate::query::lemma_lex_lt_asymmetric;
use crate::fuzzy_query::{FuzzyQuery, base_docs};

verus! {

proof fn lemma_sync_map_grows(
    old: Map<Seq<char>, DocModel>,
    loaded: Seq<(Seq<char>, Seq<char>)>,
    now: nat,
    stop: Seq<Seq<char>>,
    n: nat,
    m: nat,
)
    requires
        n <= m <= loaded.len(),
    ensures
        sync_map(old, loaded, now, stop, n).submap_of(sync_map(old, loaded, now, stop, m)),
    decreases m,
{
    if n < m {
        lemma_sync_map_grows(old, loaded, now, stop, n, (m - 1) as nat);
        let a = sync_map(old, loaded, now, stop, n);
        let b = sync_map(old, loaded, now, stop, (m - 1) as nat);
        let c = sync_map(old, loaded, now, stop, m);
        assert(b.submap_of(c));
        assert forall|p: Seq<char>| #[trigger] a.contains_key(p) implies c.contains_key(p) && c[p]
            == a[p] by {
            assert(b.contains_key(p));
        }
    }
}

proof fn lemma_sync_map_dom(
    old: Map<Seq<char>, DocModel>,
    loaded: Seq<(Seq<char>, Seq<char>)>,
    now: nat,
    stop: Seq<Seq<char>>,
    n: nat,
)
    requires
        n <= loaded.len(),
    ensures
        forall|p: Seq<char>|
            sync_map(old, loaded, now, stop, n).contains_key(p) <==> exists|i: int|
                0 <= i < n && loaded[i].0 == p,
    decreases n,
{
    if n > 0 {
        lemma_sync_map_dom(old, loaded, now, stop, (n - 1) as nat);
        assert forall|p: Seq<char>|
            sync_map(old, loaded, now, stop, n).contains_key(p) <==> exists|i: int|
                0 <= i < n && loaded[i].0 == p by {
            let prev = sync_map(old, loaded, now, stop, (n - 1) as nat);
            if exists|i: int| 0 <= i < n && loaded[i].0 == p {
                let i = choose|i: int| 0 <= i < n && loaded[i].0 == p;
                if i < n - 1 {
                    assert(prev.contains_key(p));
                }
            }
            if sync_map(old, loaded, now, stop, n).contains_key(p) {
                if prev.contains_key(p) {
                    let i = choose|i: int| 0 <= i < n - 1 && loaded[i].0 == p;
                    assert(0 <= i < n && loaded[i].0 == p);
                } else {
                    assert(loaded[n - 1].0 == p);
                }
            }
        }
    }
}

proof fn lemma_entry_hash(
    old: Map<Seq<char>, DocModel>,
    ld: (Seq<char>, Seq<char>),
    now: nat,
    stop: Seq<Seq<char>>,
)
    ensures
        entry_for(old, ld, now, stop).hash == hash_spec(ld.1),
{
}

pub proof fn lemma_resync_prefix(
    old: Map<Seq<char>, DocModel>,
    loaded: Seq<(Seq<char>, Seq<char>)>,
    now1: nat,
    now2: nat,
    stop: Seq<Seq<char>>,
    n: nat,
)
    requires
        n <= loaded.len(),
    ensures
        ({
            let m1 = sync_map(old, loaded, now1, stop, loaded.len());
            &&& sync_map(m1, loaded, now2, stop, n) == sync_map(old, loaded, now1, stop, n)
            &&& added_count(m1, loaded, now2, stop, n) == 0
            &&& updated_count(m1, loaded, now2, stop, n) == 0
        }),
    decreases n,
{
    if n > 0 {
        let m1 = sync_map(old, loaded, now1, stop, loaded.len());
        lemma_resync_prefix(old, loaded, now1, now2, stop, (n - 1) as nat);
        let prev = sync_map(old, loaded, now1, stop, (n - 1) as nat);
        let ld = loaded[n - 1];
        if !prev.contains_key(ld.0) {
            lemma_sync_map_grows(old, loaded, now1, stop, n, loaded.len());
            lemma_entry_hash(old, ld, now1, stop);
            let cur = sync_map(old, loaded, now1, stop, n);
            assert(cur == prev.insert(ld.0, entry_for(old, ld, now1, stop)));
            assert(cur.contains_key(ld.0) && cur[ld.0] == entry_for(old, ld, now1, stop));
            assert(m1.contains_key(ld.0));
            assert(m1[ld.0] == entry_for(old, ld, now1, stop));
            assert(entry_for(m1, ld, now2, stop) == entry_for(old, ld, now1, stop));
        }
    }
}

pub proof fn lemma_removed_none(s: Seq<DocModel>, k: nat)
    requires
        distinct_paths(s),
        k <= s.len(),
    ensures
        removed_count(s, docs_map(s), k) == 0,
{
    lemma_docs_map(s);
    lemma_removed_none_in(s, docs_map(s), k);
}

proof fn lemma_removed_none_in(s: Seq<DocModel>, m: Map<Seq<char>, DocModel>, k: nat)
    requires
        k <= s.len(),
        forall|i: int| 0 <= i < s.len() ==> m.contains_key(#[trigger] s[i].path),
    ensures
        removed_count(s, m, k) == 0,
    decreases k,
{
    if k > 0 {
        lemma_removed_none_in(s, m, (k - 1) as nat);
    }
}

/// Syncing a second time over the same loaded documents leaves the index as
/// it was and reports nothing added, updated or removed, whatever the clock
/// says on the second run.
pub proof fn lemma_sync_idempotent(
    old: Index,
    loaded: Seq<LoadedDoc>,
    now1: nat,
    now2: nat,
    stop: Seq<Seq<char>>,
    first: Index,
)
    requires
        old.wf(),
        first.wf(),
        first@ == sync_map(old@, loaded_view(loaded), now1, stop, loaded.len()),
    ensures
        sync_map(first@, loaded_view(loaded), now2, stop, loaded.len()) == first@,
        added_count(first@, loaded_view(loaded), now2, stop, loaded.len()) == 0,
        updated_count(first@, loaded_view(loaded), now2, stop, loaded.len()) == 0,
        removed_count(models(first.docs@), first@, first.docs.len() as nat) == 0,
{
    let lv = loaded_view(loaded);
    lemma_resync_prefix(old@, lv, now1, now2, stop, lv.len());
    lemma_removed_none(models(first.docs@), first.docs.len() as nat);
}

proof fn lemma_change_prefix(
    old: Map<Seq<char>, DocModel>,
    loaded: Seq<(Seq<char>, Seq<char>)>,
    k: int,
    text: Seq<char>,
    now1: nat,
    now2: nat,
    stop: Seq<Seq<char>>,
    n: nat,
)
    requires
        0 <= k < loaded.len(),
        n <= loaded.len(),
        forall|j: int| 0 <= j < k ==> loaded[j].0 != loaded[k].0,
        hash_spec(text) != hash_spec(loaded[k].1),
    ensures
        ({
            let q = loaded[k].0;
            let m1 = sync_map(old, loaded, now1, stop, loaded.len());
            let m2 = sync_map(m1, loaded.update(k, (q, text)), now2, stop, n);
            let m = sync_map(old, loaded, now1, stop, n);
            &&& m2.dom() == m.dom()
            &&& forall|p: Seq<char>| m.contains_key(p) && p != q ==> m2[p] == m[p]
            &&& m.contains_key(q) ==> m2[q] == fresh_model(q, text, now2, stop)
            &&& added_count(m1, loaded.update(k, (q, text)), now2, stop, n) == 0
            &&& updated_count(m1, loaded.update(k, (q, text)), now2, stop, n) == if k < n {
                1nat
            } else {
                0nat
            }
        }),
    decreases n,
{
    if n > 0 {
        let q = loaded[k].0;
        let changed = loaded.update(k, (q, text));
        let m1 = sync_map(old, loaded, now1, stop, loaded.len());
        lemma_change_prefix(old, loaded, k, text, now1, now2, stop, (n - 1) as nat);
        let prev = sync_map(old, loaded, now1, stop, (n - 1) as nat);
        let prev2 = sync_map(m1, changed, now2, stop, (n - 1) as nat);
        let ld = loaded[n - 1];
        assert(changed[n - 1].0 == ld.0);
        if !prev.contains_key(ld.0) {
            assert(!prev2.contains_key(ld.0));
            lemma_sync_map_grows(old, loaded, now1, stop, n, loaded.len());
            lemma_entry_hash(old, ld, now1, stop);
            let cur = sync_map(old, loaded, now1, stop, n);
            assert(cur == prev.insert(ld.0, entry_for(old, ld, now1, stop)));
            assert(cur.contains_key(ld.0) && cur[ld.0] == entry_for(old, ld, now1, stop));
            assert(cur.submap_of(m1));
            assert(m1.contains_key(ld.0));
            assert(m1[ld.0] == entry_for(old, ld, now1, stop));
            if n - 1 == k {
                assert(changed[n - 1] == (q, text));
                assert(m1[q].hash != hash_spec(text));
            } else {
                assert(changed[n - 1] == ld);
                if ld.0 == q {
                    lemma_sync_map_dom(old, loaded, now1, stop, (n - 1) as nat);
                    if (n - 1) > k {
                        assert(prev.contains_key(q));
                    }
                }
            }
        } else {
            assert(prev2.contains_key(ld.0));
            if n - 1 == k {
                lemma_sync_map_dom(old, loaded, now1, stop, (n - 1) as nat);
                let i = choose|i: int| 0 <= i < n - 1 && loaded[i].0 == q;
                assert(loaded[i].0 == loaded[k].0);
            }
        }
        let m2 = sync_map(m1, changed, now2, stop, n);
        let m = sync_map(old, loaded, now1, stop, n);
        assert(m2.dom() =~= m.dom());
    }
}

/// After a sync, changing the text of one loaded document (its first
/// occurrence, to a text of another hash) and syncing again rebuilds exactly
/// that document's entry and leaves every other entry untouched.
pub proof fn lemma_sync_change_detection(
    old: Map<Seq<char>, DocModel>,
    loaded: Seq<(Seq<char>, Seq<char>)>,
    k: int,
    text: Seq<char>,
    now1: nat,
    now2: nat,
    stop: Seq<Seq<char>>,
)
    requires
        0 <= k < loaded.len(),
        forall|j: int| 0 <= j < k ==> loaded[j].0 != loaded[k].0,
        hash_spec(text) != hash_spec(loaded[k].1),
    ensures
        ({
            let q = loaded[k].0;
            let m1 = sync_map(old, loaded, now1, stop, loaded.len());
            let m2 = sync_map(m1, loaded.update(k, (q, text)), now2, stop, loaded.len());
            &&& m2.dom() == m1.dom()
            &&& forall|p: Seq<char>| m1.contains_key(p) && p != q ==> m2[p] == m1[p]
            &&& m2[q] == fresh_model(q, text, now2, stop)
        }),
{
    lemma_change_prefix(old, loaded, k, text, now1, now2, stop, loaded.len());
    lemma_sync_map_dom(old, loaded, now1, stop, loaded.len());
    assert(loaded[k].0 == loaded[k].0);
}

/// A path that none of the loaded documents has is not in the synced index,
/// whatever the index held before.
pub proof fn lemma_sync_drops_absent(
    old: Map<Seq<char>, DocModel>,
    loaded: Seq<(Seq<char>, Seq<char>)>,
    now: nat,
    stop: Seq<Seq<char>>,
    path: Seq<char>,
)
    requires
        forall|i: int| 0 <= i < loaded.len() ==> loaded[i].0 != path,
    ensures
        !sync_map(old, loaded, now, stop, loaded.len()).contains_key(path),
{
    lemma_sync_map_dom(old, loaded, now, stop, loaded.len());
}

/// Two sorted layouts with no repeated path that hold the same documents
/// are the same layout.
pub proof fn lemma_sorted_layout_unique(s: Seq<DocModel>, t: Seq<DocModel>)
    requires
        distinct_paths(s),
        distinct_paths(t),
        sorted_paths(s),
        sorted_paths(t),
        docs_map(s) == docs_map(t),
    ensures
        s == t,
    decreases s.len(),
{
    lemma_docs_map_len(s);
    lemma_docs_map_len(t);
    if s.len() == 0 {
        assert(s =~= t);
    } else {
        let n = s.len() as int;
        let x = s.last();
        let y = t.last();
        lemma_docs_map(s);
        lemma_docs_map(t);
        assert(docs_map(s).contains_key(s[n - 1].path));
        assert(docs_map(t).contains_key(t[n - 1].path));
        let j = choose|j: int| 0 <= j < t.len() && t[j].path == x.path;
        let i = choose|i: int| 0 <= i < s.len() && s[i].path == y.path;
        if x.path != y.path {
            assert(j < n - 1 && i < n - 1);
            assert(crate::query::lex_lt(t[j].path, t[n - 1].path));
            assert(crate::query::lex_lt(s[i].path, s[n - 1].path));
            lemma_lex_lt_asymmetric(x.path, y.path);
        }
        assert(docs_map(s)[s[n - 1].path] == x);
        assert(docs_map(t)[t[n - 1].path] == y);
        let s1 = s.drop_last();
        let t1 = t.drop_last();
        assert(distinct_paths(s1) && distinct_paths(t1));
        assert(sorted_paths(s1) && sorted_paths(t1));
        lemma_docs_map(s1);
        lemma_docs_map(t1);
        assert(!docs_map(s1).contains_key(x.path)) by {
            if docs_map(s1).contains_key(x.path) {
                let k = choose|k: int| 0 <= k < s1.len() && s1[k].path == x.path;
                assert(s[k].path == s[n - 1].path);
            }
        }
        assert(!docs_map(t1).contains_key(y.path)) by {
            if docs_map(t1).contains_key(y.path) {
                let k = choose|k: int| 0 <= k < t1.len() && t1[k].path == y.path;
                assert(t[k].path == t[n - 1].path);
            }
        }
        assert(docs_map(s1) =~= docs_map(s).remove(x.path));
        assert(docs_map(t1) =~= docs_map(t).remove(y.path));
        lemma_sorted_layout_unique(s1, t1);
        assert(s =~= s1.push(x));
        assert(t =~= t1.push(y));
    }
}

/// Syncing an engine a second time over the same loaded documents leaves
/// its index laid out exactly as before and reports nothing added, updated
/// or removed.
pub proof fn lemma_engine_sync_idempotent(
    start: FuzzyQuery,
    first: FuzzyQuery,
    second: FuzzyQuery,
    loaded: Seq<LoadedDoc>,
    now1: u64,
    now2: u64,
    errors1: Seq<crate::index::PathError>,
    errors2: Seq<crate::index::PathError>,
    r1: crate::index::SyncSummary,
    r2: crate::index::SyncSummary,
)
    requires
        start.wf(),
        start.sync_post(&first, loaded, now1, errors1, &r1),
        first.sync_post(&second, loaded, now2, errors2, &r2),
    ensures
        models(second.index->0.docs@) == models(first.index->0.docs@),
        second.index->0@ == first.index->0@,
        r2.added == 0,
        r2.updated == 0,
        r2.removed == 0,
{
    let lv = loaded_view(loaded);
    let sw = crate::text::stop_view(start.stop_words@);
    lemma_resync_prefix(
        crate::fuzzy_query::base_map(start.index),
        lv,
        now1 as nat,
        now2 as nat,
        sw,
        lv.len(),
    );
    let f = first.index->0;
    let g = second.index->0;
    assert(base_docs(first.index) == models(f.docs@));
    lemma_removed_none(models(f.docs@), f.docs.len() as nat);
    lemma_sorted_layout_unique(models(g.docs@), models(f.docs@));
}

/// After a sync of an engine, changing the text of one loaded document (its
/// first occurrence, to a text of another hash) and syncing again rebuilds
/// exactly that document's entry from the new text, leaves every other entry
/// untouched, and reports one update and nothing added or removed.
pub proof fn lemma_engine_change_detection(
    start: FuzzyQuery,
    first: FuzzyQuery,
    second: FuzzyQuery,
    loaded: Seq<LoadedDoc>,
    k: int,
    changed: LoadedDoc,
    now1: u64,
    now2: u64,
    errors1: Seq<crate::index::PathError>,
    errors2: Seq<crate::index::PathError>,
    r1: crate::index::SyncSummary,
    r2: crate::index::SyncSummary,
)
    requires
        start.wf(),
        0 <= k < loaded.len(),
        changed.path@ == loaded[k].path@,
        forall|j: int| 0 <= j < k ==> loaded[j].path@ != loaded[k].path@,
        hash_spec(changed.content@) != hash_spec(loaded[k].content@),
        start.sync_post(&first, loaded, now1, errors1, &r1),
        first.sync_post(&second, loaded.update(k, changed), now2, errors2, &r2),
    ensures
        ({
            let q = loaded[k].path@;
            let m1 = first.index->0@;
            let m2 = second.index->0@;
            let sw = crate::text::stop_view(start.stop_words@);
            &&& m2.dom() == m1.dom()
            &&& forall|p: Seq<char>| m1.contains_key(p) && p != q ==> m2[p] == m1[p]
            &&& m2[q] == fresh_model(q, changed.content@, now2 as nat, sw)
            &&& m2[q].tokens == crate::text::tokenize_spec(changed.content@, sw)
            &&& r2.added == 0
            &&& r2.updated == 1
            &&& r2.removed == 0
        }),
{
    let lv = loaded_view(loaded);
    let q = loaded[k].path@;
    let sw = crate::text::stop_view(start.stop_words@);
    let base = crate::fuzzy_query::base_map(start.index);
    assert(loaded_view(loaded.update(k, changed)) =~= lv.update(k, (q, changed.content@)));
    assert(lv[k] == (q, loaded[k].content@));
    lemma_change_prefix(base, lv, k, changed.content@, now1 as nat, now2 as nat, sw, lv.len());
    lemma_sync_map_dom(base, lv, now1 as nat, sw, lv.len());
    let f = first.index->0;
    lemma_docs_map(models(f.docs@));
    assert(base_docs(first.index) == models(f.docs@));
    lemma_removed_none_in(models(f.docs@), second.index->0@, f.docs.len() as nat);
}

/// Once a path is no longer loaded, a sync drops it, and no query on the
/// synced engine returns it.
pub proof fn lemma_engine_deleted_never_returned(
    start: FuzzyQuery,
    next: FuzzyQuery,
    loaded: Seq<LoadedDoc>,
    now: u64,
    errors: Seq<crate::index::PathError>,
    r: crate::index::SyncSummary,
    path: Seq<char>,
    keyword: Seq<char>,
    answer: Result<Vec<crate::query::QueryHit>, crate::fuzzy_query::FuzzyQueryError>,
)
    requires
        start.wf(),
        forall|i: int| 0 <= i < loaded.len() ==> loaded[i].path@ != path,
        start.sync_post(&next, loaded, now, errors, &r),
        next.find_post(keyword, answer),
    ensures
        !next.index->0@.contains_key(path),
        answer matches Ok(hits) ==> forall|i: int|
            0 <= i < hits.len() ==> #[trigger] hits@[i]@.path != path,
{
    let lv = loaded_view(loaded);
    assert forall|i: int| 0 <= i < lv.len() implies lv[i].0 != path by {
        assert(lv[i].0 == loaded[i].path@);
    }
    lemma_sync_drops_absent(
        crate::fuzzy_query::base_map(start.index),
        lv,
        now as nat,
        crate::text::stop_view(start.stop_words@),
        path,
    );
}

proof fn lemma_hits_within_index(idx: Map<Seq<char>, DocModel>, hits: Seq<crate::query::HitModel>)
    requires
        idx.dom().finite(),
        forall|i: int, j: int| 0 <= i < j < hits.len() ==> #[trigger] hits[i].path != #[trigger] hits[j].path,
        forall|i: int| 0 <= i < hits.len() ==> idx.contains_key(#[trigger] hits[i].path),
    ensures
        hits.len() <= idx.dom().len(),
{
    let ps = hits.map_values(|h: crate::query::HitModel| h.path);
    assert forall|i: int, j: int| 0 <= i < ps.len() && 0 <= j < ps.len() && i != j implies ps[i] != ps[j] by {
        if i < j {
            assert(hits[i].path != hits[j].path);
        } else {
            assert(hits[j].path != hits[i].path);
        }
    }
    assert(ps.no_duplicates());
    ps.unique_seq_to_set();
    assert forall|p: Seq<char>| ps.to_set().contains(p) implies idx.dom().contains(p) by {
        let i = choose|i: int| 0 <= i < ps.len() && ps[i] == p;
        assert(idx.contains_key(hits[i].path));
    }
    vstd::set_lib::lemma_len_subset(ps.to_set(), idx.dom());
}

/// A keyword whose folded form is one of an indexed document's tokens with
/// one character replaced finds that document, when the engine tolerates at
/// least one edit and its limit exceeds the number of documents.
pub proof fn lemma_engine_typo_found(
    e: FuzzyQuery,
    path: Seq<char>,
    t: int,
    k: int,
    c: char,
    keyword: Seq<char>,
    answer: Result<Vec<crate::query::QueryHit>, crate::fuzzy_query::FuzzyQueryError>,
)
    requires
        e.wf(),
        e.index is Some,
        e.index->0@.contains_key(path),
        0 <= t < e.index->0@[path].tokens.len(),
        0 <= k < e.index->0@[path].tokens[t].text.len(),
        crate::text::normalize(keyword) == e.index->0@[path].tokens[t].text.update(k, c),
        crate::fuzzy_query::keyword_ok(keyword),
        e.tolerance >= 1,
        e.index->0@.dom().len() < e.limit,
        e.find_post(keyword, answer),
    ensures
        answer matches Ok(hits) && exists|i: int|
            0 <= i < hits.len() && hits@[i]@.path == path && hits@[i]@.score > 0,
{
    let idx = e.index->0@;
    let d = idx[path];
    lemma_docs_map_len(models(e.index->0.docs@));
    crate::query::lemma_typo_still_matches(d, t, k, c, e.tolerance as nat);
    let hits = answer->Ok_0;
    lemma_hits_within_index(idx, crate::query::hits_view(hits@));
    assert(idx.contains_key(path) && crate::query::doc_score(
        crate::text::normalize(keyword),
        e.tolerance as nat,
        idx[path],
    ) > 0);
}

/// A keyword similar to no token of the index finds nothing.
pub proof fn lemma_engine_no_match_is_empty(
    e: FuzzyQuery,
    keyword: Seq<char>,
    answer: Result<Vec<crate::query::QueryHit>, crate::fuzzy_query::FuzzyQueryError>,
)
    requires
        e.wf(),
        e.index is Some,
        crate::fuzzy_query::keyword_ok(keyword),
        forall|p: Seq<char>, i: int|
            #[trigger] e.index->0@.contains_key(p) && 0 <= i < e.index->0@[p].tokens.len()
                ==> crate::fuzzy::similarity(
                crate::text::normalize(keyword),
                #[trigger] e.index->0@[p].tokens[i].text,
                e.tolerance as nat,
            ) == 0,
        e.find_post(keyword, answer),
    ensures
        answer matches Ok(hits) && hits.len() == 0,
{
    let hits = answer->Ok_0;
    if hits.len() > 0 {
        let p = hits@[0]@.path;
        let kw = crate::text::normalize(keyword);
        assert(e.index->0@.contains_key(p));
        crate::query::lemma_doc_score_bounds(kw, e.tolerance as nat, e.index->0@[p]);
    }
}

proof fn lemma_sync_map_values(
    old: Map<Seq<char>, DocModel>,
    loaded: Seq<(Seq<char>, Seq<char>)>,
    now: nat,
    stop: Seq<Seq<char>>,
    n: nat,
)
    requires
        n <= loaded.len(),
        forall|i: int, j: int| 0 <= i < j < loaded.len() ==> loaded[i].0 != loaded[j].0,
    ensures
        forall|i: int|
            0 <= i < n ==> #[trigger] sync_map(old, loaded, now, stop, n)[loaded[i].0] == entry_for(
                old,
                loaded[i],
                now,
                stop,
            ),
    decreases n,
{
    if n > 0 {
        lemma_sync_map_values(old, loaded, now, stop, (n - 1) as nat);
        lemma_sync_map_dom(old, loaded, now, stop, (n - 1) as nat);
        let prev = sync_map(old, loaded, now, stop, (n - 1) as nat);
        let ld = loaded[n - 1];
        assert(!prev.contains_key(ld.0)) by {
            if prev.contains_key(ld.0) {
                let i = choose|i: int| 0 <= i < n - 1 && loaded[i].0 == ld.0;
                assert(loaded[i].0 != loaded[n - 1].0);
            }
        }
        assert forall|i: int| 0 <= i < n implies #[trigger] sync_map(old, loaded, now, stop, n)[loaded[i].0]
            == entry_for(old, loaded[i], now, stop) by {
            if i < n - 1 {
                assert(loaded[i].0 != loaded[n - 1].0);
            }
        }
    }
}

proof fn lemma_sync_map_order_free(
    base: Map<Seq<char>, DocModel>,
    la: Seq<(Seq<char>, Seq<char>)>,
    lb: Seq<(Seq<char>, Seq<char>)>,
    now: nat,
    sw: Seq<Seq<char>>,
)
    requires
        forall|i: int, j: int| 0 <= i < j < la.len() ==> la[i].0 != la[j].0,
        forall|i: int, j: int| 0 <= i < j < lb.len() ==> lb[i].0 != lb[j].0,
        forall|i: int| 0 <= i < la.len() ==> exists|j: int| 0 <= j < lb.len() && #[trigger] la[i] == lb[j],
        forall|j: int| 0 <= j < lb.len() ==> exists|i: int| 0 <= i < la.len() && la[i] == #[trigger] lb[j],
    ensures
        sync_map(base, la, now, sw, la.len()) == sync_map(base, lb, now, sw, lb.len()),
{
    lemma_sync_map_dom(base, la, now, sw, la.len());
    lemma_sync_map_dom(base, lb, now, sw, lb.len());
    lemma_sync_map_values(base, la, now, sw, la.len());
    lemma_sync_map_values(base, lb, now, sw, lb.len());
    let ma = sync_map(base, la, now, sw, la.len());
    let mb = sync_map(base, lb, now, sw, lb.len());
    assert forall|p: Seq<char>| ma.contains_key(p) implies mb.contains_key(p) && ma[p] == mb[p] by {
        let i = choose|i: int| 0 <= i < la.len() && la[i].0 == p;
        let j = choose|j: int| 0 <= j < lb.len() && la[i] == lb[j];
        assert(ma[la[i].0] == entry_for(base, la[i], now, sw));
        assert(mb[lb[j].0] == entry_for(base, lb[j], now, sw));
    }
    assert forall|p: Seq<char>| mb.contains_key(p) implies ma.contains_key(p) by {
        let j = choose|j: int| 0 <= j < lb.len() && lb[j].0 == p;
        let i = choose|i: int| 0 <= i < la.len() && la[i] == lb[j];
        assert(la[i].0 == p);
    }
    assert(ma =~= mb);
}

/// Syncing the same documents, with no path loaded twice, in any order
/// gives the same index, laid out the same.
pub proof fn lemma_engine_sync_order_free(
    start: FuzzyQuery,
    one: FuzzyQuery,
    two: FuzzyQuery,
    a: Seq<LoadedDoc>,
    b: Seq<LoadedDoc>,
    now: u64,
    errors1: Seq<crate::index::PathError>,
    errors2: Seq<crate::index::PathError>,
    r1: crate::index::SyncSummary,
    r2: crate::index::SyncSummary,
)
    requires
        start.wf(),
        forall|i: int, j: int| 0 <= i < j < a.len() ==> a[i].path@ != a[j].path@,
        forall|i: int, j: int| 0 <= i < j < b.len() ==> b[i].path@ != b[j].path@,
        forall|i: int|
            0 <= i < a.len() ==> exists|j: int|
                0 <= j < b.len() && #[trigger] a[i].path@ == b[j].path@ && a[i].content@
                    == b[j].content@,
        forall|j: int|
            0 <= j < b.len() ==> exists|i: int|
                0 <= i < a.len() && a[i].path@ == #[trigger] b[j].path@ && a[i].content@
                    == b[j].content@,
        start.sync_post(&one, a, now, errors1, &r1),
        start.sync_post(&two, b, now, errors2, &r2),
    ensures
        one.index->0@ == two.index->0@,
        models(one.index->0.docs@) == models(two.index->0.docs@),
{
    let base = crate::fuzzy_query::base_map(start.index);
    let sw = crate::text::stop_view(start.stop_words@);
    let la = loaded_view(a);
    let lb = loaded_view(b);
    assert forall|i: int, j: int| 0 <= i < j < la.len() implies la[i].0 != la[j].0 by {
        assert(la[i].0 == a[i].path@ && la[j].0 == a[j].path@);
    }
    assert forall|i: int, j: int| 0 <= i < j < lb.len() implies lb[i].0 != lb[j].0 by {
        assert(lb[i].0 == b[i].path@ && lb[j].0 == b[j].path@);
    }
    assert forall|i: int| 0 <= i < la.len() implies exists|j: int| 0 <= j < lb.len() && #[trigger] la[i] == lb[j] by {
        let j = choose|j: int| 0 <= j < b.len() && a[i].path@ == b[j].path@ && a[i].content@ == b[j].content@;
        assert(la[i] == lb[j]);
    }
    assert forall|j: int| 0 <= j < lb.len() implies exists|i: int| 0 <= i < la.len() && la[i] == #[trigger] lb[j] by {
        let i = choose|i: int| 0 <= i < a.len() && a[i].path@ == b[j].path@ && a[i].content@ == b[j].content@;
        assert(la[i] == lb[j]);
    }
    lemma_sync_map_order_free(base, la, lb, now as nat, sw);
    lemma_sorted_layout_unique(models(one.index->0.docs@), models(two.index->0.docs@));
}

} // verus!
