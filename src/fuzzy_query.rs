use vstd::prelude::*;
use crate::fuzzy::DEFAULT_TOLERANCE;
use crate::text::{MIN_TOKEN_LEN, normalize, normalize_text, stop_view};
use crate::index::{
    Index,
    DocModel,
    LoadedDoc,
    PathError,
    SyncSummary,
    loaded_view,
    models,
    sync_map,
    added_count,
    updated_count,
    removed_count,
};
use crate::query::{QueryHit, hits_view, hit_for, hit_before, doc_score, ranked};

verus! {

/// How many hits a query returns unless told otherwise.
pub const DEFAULT_LIMIT: usize = 20;

/// Why a query was refused.
#[derive(Debug, PartialEq, Eq)]
pub enum FuzzyQueryError {
    /// The keyword is shorter than the shortest token.
    InvalidQuery,
    /// Nothing has been synced yet.
    IndexUnavailable,
}

/// Something that can index documents and answer keyword queries.
pub trait Query {
    type Error;

    spec fn ready(&self) -> bool;

    /// What a query for `keyword` answers.
    spec fn query_post(&self, keyword: Seq<char>, r: Result<Vec<QueryHit>, Self::Error>) -> bool;

    /// What a sync of `loaded` at time `now`, with the per-file `errors`,
    /// makes of this engine (`next`) and reports (`r`).
    spec fn sync_post(
        &self,
        next: &Self,
        loaded: Seq<LoadedDoc>,
        now: u64,
        errors: Seq<PathError>,
        r: &SyncSummary,
    ) -> bool;

    /// The documents matching `keyword`, best first.
    fn query(&self, keyword: &Vec<char>) -> (r: Result<Vec<QueryHit>, Self::Error>)
        requires
            self.ready(),
        ensures
            self.query_post(keyword@, r),
    ;

    /// Brings the index up to date with the documents just loaded.
    fn sync(&mut self, loaded: &Vec<LoadedDoc>, now: u64, errors: Vec<PathError>) -> (r:
        SyncSummary)
        requires
            old(self).ready(),
        ensures
            final(self).ready(),
            old(self).sync_post(final(self), loaded@, now, errors@, &r),
    ;
}

/// The fuzzy engine: an index (none before the first sync), a result limit,
/// the words that are never indexed, and how many edits a keyword of four
/// or more characters tolerates.
#[derive(Debug)]
pub struct FuzzyQuery {
    pub index: Option<Index>,
    pub limit: usize,
    pub stop_words: Vec<Vec<char>>,
    pub tolerance: u8,
}

/// A keyword the engine accepts: long enough to be a token, and short
/// enough that the edit distance fits in memory arithmetic.
pub open spec fn keyword_ok(keyword: Seq<char>) -> bool {
    MIN_TOKEN_LEN <= keyword.len() < usize::MAX / 2 - 256
}

/// The entries a sync starts from: the current ones, or none.
pub open spec fn base_docs(index: Option<Index>) -> Seq<DocModel> {
    match index {
        Some(i) => models(i.docs@),
        None => Seq::empty(),
    }
}

/// The index a sync starts from: the current one, or an empty one.
pub open spec fn base_map(index: Option<Index>) -> Map<Seq<char>, DocModel> {
    match index {
        Some(i) => i@,
        None => Map::empty(),
    }
}

impl FuzzyQuery {
    pub open spec fn wf(&self) -> bool {
        self.index matches Some(i) ==> i.wf()
    }

    /// An engine over `index`, with the default limit and tolerance and no
    /// stop words.
    pub fn new(index: Option<Index>) -> (r: FuzzyQuery)
        ensures
            r.index == index,
            r.limit == DEFAULT_LIMIT,
            r.stop_words@.len() == 0,
            r.tolerance == DEFAULT_TOLERANCE,
    {
        FuzzyQuery { index, limit: DEFAULT_LIMIT, stop_words: Vec::new(), tolerance: DEFAULT_TOLERANCE }
    }

    /// What `find` answers for `keyword`: an invalid keyword and a missing
    /// index are errors; otherwise the matching documents of the index, each
    /// once, ranked, at most `limit` of them and none left out that ranks
    /// above one returned, all of them where fewer than `limit` come back.
    pub open spec fn find_post(
        &self,
        keyword: Seq<char>,
        r: Result<Vec<QueryHit>, FuzzyQueryError>,
    ) -> bool {
        &&& !keyword_ok(keyword) ==> r == Err::<Vec<QueryHit>, FuzzyQueryError>(
            FuzzyQueryError::InvalidQuery,
        )
        &&& keyword_ok(keyword) && self.index is None ==> r == Err::<Vec<QueryHit>, FuzzyQueryError>(
            FuzzyQueryError::IndexUnavailable,
        )
        &&& keyword_ok(keyword) && self.index is Some ==> r is Ok
        &&& r matches Ok(hits) ==> ({
            let idx = self.index->0@;
            let kw = normalize(keyword);
            &&& hits.len() <= self.limit
            &&& ranked(hits_view(hits@))
            &&& forall|i: int, j: int|
                0 <= i < j < hits.len() ==> #[trigger] hits@[i]@.path != #[trigger] hits@[j]@.path
            &&& forall|i: int|
                0 <= i < hits.len() ==> idx.contains_key(#[trigger] hits@[i]@.path) && hits@[i]@
                    == hit_for(kw, self.tolerance as nat, idx[hits@[i]@.path]) && hits@[i]@.score > 0
            &&& hits.len() < self.limit ==> forall|p: Seq<char>|
                #[trigger] idx.contains_key(p) && doc_score(kw, self.tolerance as nat, idx[p]) > 0 ==> exists|i: int|
                    0 <= i < hits.len() && hits@[i]@.path == p
            &&& forall|p: Seq<char>, i: int|
                #[trigger] idx.contains_key(p) && doc_score(kw, self.tolerance as nat, idx[p]) > 0 && 0 <= i < hits.len()
                    && (forall|j: int| 0 <= j < hits.len() ==> hits@[j]@.path != p) ==> !hit_before(
                    hit_for(kw, self.tolerance as nat, idx[p]),
                    #[trigger] hits@[i]@,
                )
        })
    }

    /// What `sync_docs` makes of this engine: the same settings, and the
    /// index reconciled with the loaded documents (from an empty one before
    /// the first sync); the summary counts the new, changed and dropped
    /// entries and passes the per-file errors on.
    pub open spec fn sync_post(
        &self,
        next: &FuzzyQuery,
        loaded: Seq<LoadedDoc>,
        now: u64,
        errors: Seq<PathError>,
        r: &SyncSummary,
    ) -> bool {
        let lv = loaded_view(loaded);
        let sw = stop_view(self.stop_words@);
        let base = base_map(self.index);
        &&& next.wf()
        &&& next.limit == self.limit
        &&& next.stop_words == self.stop_words
        &&& next.tolerance == self.tolerance
        &&& next.index is Some
        &&& next.index->0@ == sync_map(base, lv, now as nat, sw, loaded.len())
        &&& r.added == added_count(base, lv, now as nat, sw, loaded.len())
        &&& r.updated == updated_count(base, lv, now as nat, sw, loaded.len())
        &&& r.removed == removed_count(
            base_docs(self.index),
            next.index->0@,
            base_docs(self.index).len(),
        )
        &&& r.errors@ == errors
    }

    /// Answers a query: the keyword is case-folded and matched against the
    /// index; a too-short keyword and a missing index are errors.
    pub fn find(&self, keyword: &Vec<char>) -> (r: Result<Vec<QueryHit>, FuzzyQueryError>)
        requires
            self.wf(),
        ensures
            self.find_post(keyword@, r),
    {
        if keyword.len() < MIN_TOKEN_LEN || keyword.len() >= usize::MAX / 2 - 256 {
            return Err(FuzzyQueryError::InvalidQuery);
        }
        match &self.index {
            None => Err(FuzzyQueryError::IndexUnavailable),
            Some(index) => {
                let kw = normalize_text(keyword);
                Ok(index.search(&kw, self.tolerance, self.limit))
            },
        }
    }

    /// Syncs the loaded documents into the index (an empty one before the
    /// first sync) and reports what changed.
    pub fn sync_docs(&mut self, loaded: &Vec<LoadedDoc>, now: u64, errors: Vec<PathError>) -> (r:
        SyncSummary)
        requires
            old(self).wf(),
        ensures
            old(self).sync_post(final(self), loaded@, now, errors@, &r),
    {
        let ghost start = self.index;
        let base = match self.index.take() {
            Some(i) => i,
            None => Index::new(),
        };
        assert(models(base.docs@) =~= base_docs(start));
        assert(base@ == base_map(start));
        let (next, summary) = base.sync(loaded, now, &self.stop_words, errors);
        self.index = Some(next);
        summary
    }
}

impl Query for FuzzyQuery {
    type Error = FuzzyQueryError;

    open spec fn ready(&self) -> bool {
        self.wf()
    }

    open spec fn query_post(&self, keyword: Seq<char>, r: Result<Vec<QueryHit>, FuzzyQueryError>) -> bool {
        self.find_post(keyword, r)
    }

    open spec fn sync_post(
        &self,
        next: &FuzzyQuery,
        loaded: Seq<LoadedDoc>,
        now: u64,
        errors: Seq<PathError>,
        r: &SyncSummary,
    ) -> bool {
        FuzzyQuery::sync_post(self, next, loaded, now, errors, r)
    }

    fn query(&self, keyword: &Vec<char>) -> (r: Result<Vec<QueryHit>, FuzzyQueryError>) {
        self.find(keyword)
    }

    fn sync(&mut self, loaded: &Vec<LoadedDoc>, now: u64, errors: Vec<PathError>) -> (r:
        SyncSummary) {
        self.sync_docs(loaded, now, errors)
    }
}

} // verus!
