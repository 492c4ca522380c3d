use vstd::prelude::*;
use crate::query::{lex_lt, lex_less, lemma_lex_lt_total, lemma_lex_lt_transitive};
use crate::text::{
    Token,
    TokenModel,
    tokens_view,
    tokenize,
    tokenize_spec,
    normalize,
    normalize_text,
    hash_spec,
    content_hash,
    chars_eq,
    stop_view,
};

verus! {

/// One indexed document.
#[derive(Debug)]
pub struct DocEntry {
    pub path: Vec<char>,
    pub hash: u64,
    pub synced_at: u64,
    pub text: Vec<char>,
    pub tokens: Vec<Token>,
}

pub ghost struct DocModel {
    pub path: Seq<char>,
    pub hash: nat,
    pub synced_at: nat,
    pub text: Seq<char>,
    pub tokens: Seq<TokenModel>,
}

impl View for DocEntry {
    type V = DocModel;

    open spec fn view(&self) -> DocModel {
        DocModel {
            path: self.path@,
            hash: self.hash as nat,
            synced_at: self.synced_at as nat,
            text: self.text@,
            tokens: tokens_view(self.tokens@),
        }
    }
}

/// A file as the loader read it: its path and its text.
#[derive(Debug)]
pub struct LoadedDoc {
    pub path: Vec<char>,
    pub content: Vec<char>,
}

pub open spec fn loaded_view(v: Seq<LoadedDoc>) -> Seq<(Seq<char>, Seq<char>)> {
    v.map_values(|d: LoadedDoc| (d.path@, d.content@))
}

/// A file that could not be read, and why.
#[derive(Debug)]
pub struct PathError {
    pub path: Vec<char>,
    pub reason: Vec<char>,
}

/// What a sync changed.
#[derive(Debug)]
pub struct SyncSummary {
    pub added: usize,
    pub updated: usize,
    pub removed: usize,
    pub errors: Vec<PathError>,
}

/// The searchable index: one entry per document, no two with the same path.
#[derive(Debug)]
pub struct Index {
    pub docs: Vec<DocEntry>,
}

pub open spec fn models(v: Seq<DocEntry>) -> Seq<DocModel> {
    v.map_values(|d: DocEntry| d@)
}

pub open spec fn distinct_paths(s: Seq<DocModel>) -> bool {
    forall|i: int, j: int| 0 <= i < j < s.len() ==> s[i].path != s[j].path
}

/// Entries stand in increasing lexicographic order of their paths.
pub open spec fn sorted_paths(s: Seq<DocModel>) -> bool {
    forall|i: int, j: int| 0 <= i < j < s.len() ==> lex_lt(#[trigger] s[i].path, #[trigger] s[j].path)
}

/// The documents of a sequence of entries, keyed by path.
pub open spec fn docs_map(s: Seq<DocModel>) -> Map<Seq<char>, DocModel>
    decreases s.len(),
{
    if s.len() == 0 {
        Map::empty()
    } else {
        docs_map(s.drop_last()).insert(s.last().path, s.last())
    }
}

impl View for Index {
    type V = Map<Seq<char>, DocModel>;

    open spec fn view(&self) -> Map<Seq<char>, DocModel> {
        docs_map(models(self.docs@))
    }
}

/// A freshly built entry for a document.
pub open spec fn fresh_model(
    path: Seq<char>,
    content: Seq<char>,
    now: nat,
    stop: Seq<Seq<char>>,
) -> DocModel {
    DocModel {
        path,
        hash: hash_spec(content),
        synced_at: now,
        text: normalize(content),
        tokens: tokenize_spec(content, stop),
    }
}

/// The entry a loaded document gets: the old one where its hash is unchanged,
/// else a fresh one.
pub open spec fn entry_for(
    old: Map<Seq<char>, DocModel>,
    ld: (Seq<char>, Seq<char>),
    now: nat,
    stop: Seq<Seq<char>>,
) -> DocModel {
    if old.contains_key(ld.0) && old[ld.0].hash == hash_spec(ld.1) {
        old[ld.0]
    } else {
        fresh_model(ld.0, ld.1, now, stop)
    }
}

/// The index after syncing the first `n` loaded documents into an empty one,
/// taking unchanged entries from `old`; a path loaded twice keeps its first text.
pub open spec fn sync_map(
    old: Map<Seq<char>, DocModel>,
    loaded: Seq<(Seq<char>, Seq<char>)>,
    now: nat,
    stop: Seq<Seq<char>>,
    n: nat,
) -> Map<Seq<char>, DocModel>
    decreases n,
{
    if n == 0 || n > loaded.len() {
        Map::empty()
    } else {
        let prev = sync_map(old, loaded, now, stop, (n - 1) as nat);
        let ld = loaded[n - 1];
        if prev.contains_key(ld.0) {
            prev
        } else {
            prev.insert(ld.0, entry_for(old, ld, now, stop))
        }
    }
}

/// The number of loaded documents among the first `n` that are new to `old`.
pub open spec fn added_count(
    old: Map<Seq<char>, DocModel>,
    loaded: Seq<(Seq<char>, Seq<char>)>,
    now: nat,
    stop: Seq<Seq<char>>,
    n: nat,
) -> nat
    decreases n,
{
    if n == 0 || n > loaded.len() {
        0
    } else {
        let ld = loaded[n - 1];
        added_count(old, loaded, now, stop, (n - 1) as nat) + if !sync_map(old, loaded, now, stop, (n - 1) as nat).contains_key(ld.0) && !old.contains_key(ld.0) {
            1nat
        } else {
            0nat
        }
    }
}

/// The number of loaded documents among the first `n` whose text changed.
pub open spec fn updated_count(
    old: Map<Seq<char>, DocModel>,
    loaded: Seq<(Seq<char>, Seq<char>)>,
    now: nat,
    stop: Seq<Seq<char>>,
    n: nat,
) -> nat
    decreases n,
{
    if n == 0 || n > loaded.len() {
        0
    } else {
        let ld = loaded[n - 1];
        updated_count(old, loaded, now, stop, (n - 1) as nat) + if !sync_map(old, loaded, now, stop, (n - 1) as nat).contains_key(ld.0) && old.contains_key(ld.0) && old[ld.0].hash != hash_spec(ld.1) {
            1nat
        } else {
            0nat
        }
    }
}

/// The number of the first `k` old entries whose path `m` no longer holds.
pub open spec fn removed_count(s: Seq<DocModel>, m: Map<Seq<char>, DocModel>, k: nat) -> nat
    decreases k,
{
    if k == 0 || k > s.len() {
        0
    } else {
        removed_count(s, m, (k - 1) as nat) + if m.contains_key(s[k - 1].path) {
            0nat
        } else {
            1nat
        }
    }
}

pub proof fn lemma_docs_map(s: Seq<DocModel>)
    requires
        distinct_paths(s),
    ensures
        forall|p: Seq<char>|
            docs_map(s).contains_key(p) <==> exists|i: int| 0 <= i < s.len() && s[i].path == p,
        forall|i: int| 0 <= i < s.len() ==> #[trigger] docs_map(s)[s[i].path] == s[i],
        forall|i: int| 0 <= i < s.len() ==> docs_map(s).contains_key(#[trigger] s[i].path),
    decreases s.len(),
{
    if s.len() > 0 {
        let t = s.drop_last();
        assert(distinct_paths(t));
        lemma_docs_map(t);
        assert forall|p: Seq<char>|
            docs_map(s).contains_key(p) <==> exists|i: int| 0 <= i < s.len() && s[i].path == p by {
            if docs_map(t).contains_key(p) {
                let i = choose|i: int| 0 <= i < t.len() && t[i].path == p;
                assert(s[i].path == p);
            }
            if exists|i: int| 0 <= i < s.len() && s[i].path == p {
                let i = choose|i: int| 0 <= i < s.len() && s[i].path == p;
                if i < s.len() - 1 {
                    assert(t[i].path == p);
                }
            }
        }
        assert forall|i: int| 0 <= i < s.len() implies #[trigger] docs_map(s)[s[i].path] == s[i] by {
            if i < s.len() - 1 {
                assert(t[i] == s[i]);
            }
        }
        assert forall|i: int| 0 <= i < s.len() implies docs_map(s).contains_key(
            #[trigger] s[i].path,
        ) by {
            if i < s.len() - 1 {
                assert(t[i] == s[i]);
            }
        }
    }
}

fn copy_chars(v: &Vec<char>) -> (r: Vec<char>)
    ensures
        r@ == v@,
{
    let mut r: Vec<char> = Vec::new();
    let mut k: usize = 0;
    while k < v.len()
        invariant
            k <= v.len(),
            r@ == v@.subrange(0, k as int),
        decreases v.len() - k,
    {
        r.push(v[k]);
        k = k + 1;
        assert(r@ =~= v@.subrange(0, k as int));
    }
    assert(v@.subrange(0, v@.len() as int) =~= v@);
    r
}

impl DocEntry {
    /// A copy of this entry.
    pub fn duplicate(&self) -> (r: DocEntry)
        ensures
            r@ == self@,
    {
        let mut tokens: Vec<Token> = Vec::new();
        let mut k: usize = 0;
        while k < self.tokens.len()
            invariant
                k <= self.tokens.len(),
                tokens_view(tokens@) == tokens_view(self.tokens@).subrange(0, k as int),
            decreases self.tokens.len() - k,
        {
            let t = &self.tokens[k];
            let ghost pre = tokens@;
            let nt = Token { text: copy_chars(&t.text), offset: t.offset };
            assert(nt@ == self.tokens@[k as int]@);
            tokens.push(nt);
            assert(tokens@ =~= pre.push(nt));
            assert(tokens_view(tokens@) =~= tokens_view(pre).push(nt@));
            k = k + 1;
            assert(tokens_view(tokens@) =~= tokens_view(self.tokens@).subrange(0, k as int));
        }
        assert(tokens_view(self.tokens@).subrange(0, self.tokens.len() as int) =~= tokens_view(
            self.tokens@,
        ));
        DocEntry {
            path: copy_chars(&self.path),
            hash: self.hash,
            synced_at: self.synced_at,
            text: copy_chars(&self.text),
            tokens,
        }
    }
}

/// Builds the entry of a new or changed document.
pub fn fresh_entry(path: &Vec<char>, content: &Vec<char>, now: u64, stop: &Vec<Vec<char>>) -> (r:
    DocEntry)
    ensures
        r@ == fresh_model(path@, content@, now as nat, stop_view(stop@)),
{
    DocEntry {
        path: copy_chars(path),
        hash: content_hash(content),
        synced_at: now,
        text: normalize_text(content),
        tokens: tokenize(content, stop),
    }
}

/// Where the entry for `p` stands in `docs`, if anywhere.
pub fn find_doc(docs: &Vec<DocEntry>, p: &Vec<char>) -> (r: Option<usize>)
    ensures
        r matches Some(i) ==> i < docs.len() && docs@[i as int].path@ == p@,
        r is None ==> forall|i: int| 0 <= i < docs.len() ==> docs@[i].path@ != p@,
{
    let mut k: usize = 0;
    while k < docs.len()
        invariant
            k <= docs.len(),
            forall|i: int| 0 <= i < k ==> docs@[i].path@ != p@,
        decreases docs.len() - k,
    {
        if chars_eq(&docs[k].path, p) {
            return Some(k);
        }
        k = k + 1;
    }
    None
}

/// Where `p`, a path that `docs` does not hold, goes to keep `docs` sorted.
fn sorted_position(docs: &Vec<DocEntry>, p: &Vec<char>) -> (k: usize)
    requires
        sorted_paths(models(docs@)),
        forall|i: int| 0 <= i < docs.len() ==> docs@[i].path@ != p@,
    ensures
        k <= docs.len(),
        forall|i: int| 0 <= i < k ==> lex_lt(#[trigger] docs@[i].path@, p@),
        forall|i: int| k <= i < docs.len() ==> lex_lt(p@, #[trigger] docs@[i].path@),
{
    let ghost m = models(docs@);
    let mut k: usize = 0;
    while k < docs.len()
        invariant
            k <= docs.len(),
            m == models(docs@),
            sorted_paths(m),
            forall|i: int| 0 <= i < docs.len() ==> docs@[i].path@ != p@,
            forall|i: int| 0 <= i < k ==> lex_lt(#[trigger] docs@[i].path@, p@),
        decreases docs.len() - k,
    {
        if !lex_less(&docs[k].path, p) {
            proof {
                lemma_lex_lt_total(docs@[k as int].path@, p@);
                assert forall|i: int| k <= i < docs.len() implies lex_lt(p@, #[trigger] docs@[i].path@) by {
                    if i > k {
                        assert(m[k as int] == docs@[k as int]@ && m[i] == docs@[i]@);
                        assert(lex_lt(m[k as int].path, m[i].path));
                        lemma_lex_lt_transitive(p@, docs@[k as int].path@, docs@[i].path@);
                    }
                }
            }
            return k;
        }
        k = k + 1;
    }
    k
}

proof fn lemma_docs_map_insert(s: Seq<DocModel>, k: int, e: DocModel)
    requires
        distinct_paths(s),
        0 <= k <= s.len(),
        forall|i: int| 0 <= i < s.len() ==> s[i].path != e.path,
        sorted_paths(s),
        forall|i: int| 0 <= i < k ==> lex_lt(#[trigger] s[i].path, e.path),
        forall|i: int| k <= i < s.len() ==> lex_lt(e.path, #[trigger] s[i].path),
    ensures
        distinct_paths(s.insert(k, e)),
        sorted_paths(s.insert(k, e)),
        docs_map(s.insert(k, e)) == docs_map(s).insert(e.path, e),
{
    let t = s.insert(k, e);
    assert forall|i: int, j: int| 0 <= i < j < t.len() implies lex_lt(#[trigger] t[i].path, #[trigger] t[j].path) by {
        if j < k {
            assert(t[i] == s[i] && t[j] == s[j]);
        } else if j == k {
            assert(t[i] == s[i] && t[j] == e);
        } else if i == k {
            assert(t[j] == s[j - 1]);
        } else if i < k {
            assert(t[i] == s[i] && t[j] == s[j - 1]);
        } else {
            assert(t[i] == s[i - 1] && t[j] == s[j - 1]);
        }
    }
    assert forall|i: int, j: int| 0 <= i < j < t.len() implies t[i].path != t[j].path by {
        assert(lex_lt(t[i].path, t[j].path));
    }
    lemma_docs_map(s);
    lemma_docs_map(t);
    let a = docs_map(t);
    let b = docs_map(s).insert(e.path, e);
    assert forall|p: Seq<char>| a.contains_key(p) <==> b.contains_key(p) by {
        if a.contains_key(p) {
            let i = choose|i: int| 0 <= i < t.len() && t[i].path == p;
            if i < k {
                assert(s[i] == t[i]);
            } else if i > k {
                assert(s[i - 1] == t[i]);
            }
        }
        if docs_map(s).contains_key(p) {
            let i = choose|i: int| 0 <= i < s.len() && s[i].path == p;
            if i < k {
                assert(s[i] == t[i]);
            } else {
                assert(s[i] == t[i + 1]);
            }
        }
        if p == e.path {
            assert(t[k] == e);
        }
    }
    assert forall|p: Seq<char>| a.contains_key(p) implies a[p] == b[p] by {
        let i = choose|i: int| 0 <= i < t.len() && t[i].path == p;
        assert(a[t[i].path] == t[i]);
        if i < k {
            assert(s[i] == t[i]);
            assert(docs_map(s)[s[i].path] == s[i]);
        } else if i > k {
            assert(s[i - 1] == t[i]);
            assert(docs_map(s)[s[i - 1].path] == s[i - 1]);
        }
    }
    assert(a =~= b);
}

impl Index {
    /// No two entries share a path, and the entries are sorted by path, so
    /// that an index is laid out the same whatever order its documents
    /// were loaded in.
    pub open spec fn wf(&self) -> bool {
        &&& distinct_paths(models(self.docs@))
        &&& sorted_paths(models(self.docs@))
    }

    /// Whether the entries are sorted by path with none repeated.
    pub fn is_well_formed(&self) -> (r: bool)
        ensures
            r == self.wf(),
    {
        let ghost m = models(self.docs@);
        let mut k: usize = 1;
        while k < self.docs.len()
            invariant
                1 <= k,
                m == models(self.docs@),
                forall|i: int, j: int| 0 <= i < j < k && j < m.len() ==> lex_lt(#[trigger] m[i].path, #[trigger] m[j].path),
            decreases self.docs.len() - k,
        {
            if !lex_less(&self.docs[k - 1].path, &self.docs[k].path) {
                assert(m[k - 1] == self.docs@[k - 1]@ && m[k as int] == self.docs@[k as int]@);
                proof {
                    if sorted_paths(m) {
                        assert(lex_lt(m[k - 1].path, m[k as int].path));
                    }
                }
                return false;
            }
            proof {
                assert forall|i: int, j: int| 0 <= i < j < k + 1 && j < m.len() implies lex_lt(#[trigger] m[i].path, #[trigger] m[j].path) by {
                    if j == k && i < k - 1 {
                        lemma_lex_lt_transitive(m[i].path, m[k - 1].path, m[k as int].path);
                    }
                }
            }
            k = k + 1;
        }
        proof {
            assert forall|i: int, j: int| 0 <= i < j < m.len() implies m[i].path != m[j].path by {
                assert(lex_lt(m[i].path, m[j].path));
            }
        }
        true
    }

    /// An index with no documents.
    pub fn new() -> (r: Index)
        ensures
            r.wf(),
            r.docs@.len() == 0,
            r@ == Map::<Seq<char>, DocModel>::empty(),
    {
        Index { docs: Vec::new() }
    }

    /// The number of documents.
    pub fn len(&self) -> (r: usize)
        requires
            self.wf(),
        ensures
            r == self@.dom().len(),
    {
        proof {
            lemma_docs_map_len(models(self.docs@));
        }
        self.docs.len()
    }

    /// Reconciles the index with the documents just loaded: new paths get an
    /// entry, changed texts a fresh one, unchanged ones keep theirs, and paths
    /// no longer loaded leave. The per-file errors are passed on.
    pub fn sync(
        &self,
        loaded: &Vec<LoadedDoc>,
        now: u64,
        stop: &Vec<Vec<char>>,
        errors: Vec<PathError>,
    ) -> (r: (
        Index,
        SyncSummary,
    ))
        requires
            self.wf(),
        ensures
            r.0.wf(),
            r.0@ == sync_map(self@, loaded_view(loaded@), now as nat, stop_view(stop@), loaded.len() as nat),
            r.1.added == added_count(self@, loaded_view(loaded@), now as nat, stop_view(stop@), loaded.len() as nat),
            r.1.updated == updated_count(
                self@,
                loaded_view(loaded@),
                now as nat,
                stop_view(stop@),
                loaded.len() as nat,
            ),
            r.1.removed == removed_count(models(self.docs@), r.0@, self.docs.len() as nat),
            r.1.errors@ == errors@,
    {
        let ghost lv = loaded_view(loaded@);
        let ghost sw = stop_view(stop@);
        let ghost old_map = self@;
        proof {
            lemma_docs_map(models(self.docs@));
        }
        let mut out: Vec<DocEntry> = Vec::new();
        let mut added: usize = 0;
        let mut updated: usize = 0;
        let mut n: usize = 0;
        while n < loaded.len()
            invariant
                n <= loaded.len(),
                lv == loaded_view(loaded@),
                sw == stop_view(stop@),
                old_map == self@,
                self.wf(),
                forall|p: Seq<char>|
                    old_map.contains_key(p) <==> exists|i: int|
                        0 <= i < self.docs.len() && models(self.docs@)[i].path == p,
                forall|i: int|
                    0 <= i < self.docs.len() ==> #[trigger] old_map[models(self.docs@)[i].path]
                        == models(self.docs@)[i],
                distinct_paths(models(out@)),
                sorted_paths(models(out@)),
                docs_map(models(out@)) == sync_map(old_map, lv, now as nat, sw, n as nat),
                added <= n,
                updated <= n,
                added == added_count(old_map, lv, now as nat, sw, n as nat),
                updated == updated_count(old_map, lv, now as nat, sw, n as nat),
            decreases loaded.len() - n,
        {
            let ld = &loaded[n];
            let ghost prev = models(out@);
            proof {
                lemma_docs_map(prev);
                assert(lv[n as int] == (ld.path@, ld.content@));
            }
            match find_doc(&out, &ld.path) {
                Some(i) => {
                    assert(prev[i as int].path == ld.path@);
                },
                None => {
                    let h = content_hash(&ld.content);
                    let entry = match find_doc(&self.docs, &ld.path) {
                        Some(j) => {
                            assert(models(self.docs@)[j as int].path == ld.path@);
                            if self.docs[j].hash == h {
                                self.docs[j].duplicate()
                            } else {
                                updated = updated + 1;
                                fresh_entry(&ld.path, &ld.content, now, stop)
                            }
                        },
                        None => {
                            assert(!old_map.contains_key(ld.path@));
                            added = added + 1;
                            fresh_entry(&ld.path, &ld.content, now, stop)
                        },
                    };
                    assert(entry@ == entry_for(old_map, lv[n as int], now as nat, sw));
                    assert(!docs_map(prev).contains_key(ld.path@));
                    let k = sorted_position(&out, &ld.path);
                    out.insert(k, entry);
                    proof {
                        assert(models(out@) =~= prev.insert(k as int, entry@));
                        lemma_docs_map_insert(prev, k as int, entry@);
                    }
                },
            }
            n = n + 1;
        }
        let ghost new_map = docs_map(models(out@));
        proof {
            lemma_docs_map(models(out@));
        }
        let mut removed: usize = 0;
        let mut k: usize = 0;
        while k < self.docs.len()
            invariant
                k <= self.docs.len(),
                removed <= k,
                new_map == docs_map(models(out@)),
                forall|p: Seq<char>|
                    new_map.contains_key(p) <==> exists|i: int|
                        0 <= i < out.len() && models(out@)[i].path == p,
                removed == removed_count(models(self.docs@), new_map, k as nat),
            decreases self.docs.len() - k,
        {
            match find_doc(&out, &self.docs[k].path) {
                Some(i) => {
                    assert(models(out@)[i as int].path == models(self.docs@)[k as int].path);
                },
                None => {
                    removed = removed + 1;
                },
            }
            k = k + 1;
        }
        (Index { docs: out }, SyncSummary { added, updated, removed, errors })
    }
}

pub proof fn lemma_docs_map_len(s: Seq<DocModel>)
    requires
        distinct_paths(s),
    ensures
        docs_map(s).dom().len() == s.len(),
        docs_map(s).dom().finite(),
    decreases s.len(),
{
    if s.len() > 0 {
        let t = s.drop_last();
        assert(distinct_paths(t));
        lemma_docs_map_len(t);
        lemma_docs_map(t);
        assert(!docs_map(t).contains_key(s.last().path)) by {
            if docs_map(t).contains_key(s.last().path) {
                let i = choose|i: int| 0 <= i < t.len() && t[i].path == s.last().path;
                assert(s[i].path == s[s.len() - 1].path);
            }
        }
    }
}

} // verus!
