use vstd::prelude::*;
use crate::fuzzy::{similarity, token_similarity, lemma_one_substitution_matches};
use crate::text::TokenModel;
use crate::index::{DocEntry, DocModel, Index, models, lemma_docs_map, sync_map};
use crate::sync_laws::lemma_sync_drops_absent;

verus! {

/// Characters of context kept on each side of the best match.
pub const SNIPPET_RADIUS: usize = 40;

/// One document that matched a query.
#[derive(Debug)]
pub struct QueryHit {
    pub path: Vec<char>,
    pub score: usize,
    pub snippet: Vec<char>,
    pub synced_at: u64,
}

pub ghost struct HitModel {
    pub path: Seq<char>,
    pub score: nat,
    pub snippet: Seq<char>,
    pub synced_at: nat,
}

impl View for QueryHit {
    type V = HitModel;

    open spec fn view(&self) -> HitModel {
        HitModel {
            path: self.path@,
            score: self.score as nat,
            snippet: self.snippet@,
            synced_at: self.synced_at as nat,
        }
    }
}

pub open spec fn hits_view(v: Seq<QueryHit>) -> Seq<HitModel> {
    v.map_values(|h: QueryHit| h@)
}

/// The position of the best-scoring token among the first `n`; the earliest
/// one wins a tie.
pub open spec fn best_token(keyword: Seq<char>, tol: nat, toks: Seq<TokenModel>, n: nat) -> int
    decreases n,
{
    if n <= 1 {
        0
    } else {
        let b = best_token(keyword, tol, toks, (n - 1) as nat);
        if similarity(keyword, toks[n - 1].text, tol) > similarity(keyword, toks[b].text, tol) {
            n - 1
        } else {
            b
        }
    }
}

/// A document's score: the similarity of its best token, zero if it has none.
pub open spec fn doc_score(keyword: Seq<char>, tol: nat, d: DocModel) -> nat {
    if d.tokens.len() == 0 {
        0
    } else {
        similarity(keyword, d.tokens[best_token(keyword, tol, d.tokens, d.tokens.len())].text, tol)
    }
}

pub open spec fn clamp(x: int, hi: int) -> int {
    if x < 0 {
        0
    } else if x > hi {
        hi
    } else {
        x
    }
}

/// The normalized text around a token, up to the radius on each side.
pub open spec fn snippet_spec(d: DocModel, t: TokenModel) -> Seq<char> {
    let len = d.text.len() as int;
    let start = clamp(t.offset - SNIPPET_RADIUS, len);
    let end = clamp(t.offset + t.text.len() + SNIPPET_RADIUS, len);
    d.text.subrange(start, end)
}

/// The hit a document gives for a keyword.
pub open spec fn hit_for(keyword: Seq<char>, tol: nat, d: DocModel) -> HitModel {
    HitModel {
        path: d.path,
        score: doc_score(keyword, tol, d),
        snippet: snippet_spec(d, d.tokens[best_token(keyword, tol, d.tokens, d.tokens.len())]),
        synced_at: d.synced_at,
    }
}

/// `a` and `b` agree before position `k`, and there `a` ends while `b` goes
/// on, or `a` holds the smaller character.
pub open spec fn lex_witness(a: Seq<char>, b: Seq<char>, k: int) -> bool {
    0 <= k <= a.len() && k <= b.len() && (forall|j: int| 0 <= j < k ==> a[j] == b[j]) && ((k
        == a.len() && k < b.len()) || (k < a.len() && k < b.len() && a[k] < b[k]))
}

/// Lexicographic order of texts: `a` is a proper prefix of `b`, or the two
/// first differ at a character that is smaller in `a`.
pub open spec fn lex_lt(a: Seq<char>, b: Seq<char>) -> bool {
    exists|k: int| #[trigger] lex_witness(a, b, k)
}

/// `x` ranks above `y`: a higher score, or the same score and a smaller path.
pub open spec fn hit_before(x: HitModel, y: HitModel) -> bool {
    x.score > y.score || (x.score == y.score && lex_lt(x.path, y.path))
}

/// No hit ranks above one that comes before it.
pub open spec fn ranked(s: Seq<HitModel>) -> bool {
    forall|i: int, j: int| 0 <= i < j < s.len() ==> !hit_before(#[trigger] s[j], #[trigger] s[i])
}

pub proof fn lemma_lex_lt_asymmetric(a: Seq<char>, b: Seq<char>)
    ensures
        lex_lt(a, b) ==> !lex_lt(b, a),
{
    if lex_lt(a, b) && lex_lt(b, a) {
        let k1 = choose|k: int| lex_witness(a, b, k);
        let k2 = choose|k: int| lex_witness(b, a, k);
        if k1 < k2 {
            assert(b[k1] == a[k1]);
        } else if k2 < k1 {
            assert(a[k2] == b[k2]);
        }
    }
}

/// Whether `a` comes before `b` in lexicographic order.
pub fn lex_less(a: &Vec<char>, b: &Vec<char>) -> (r: bool)
    ensures
        r == lex_lt(a@, b@),
{
    let mut k: usize = 0;
    while k < a.len() && k < b.len()
        invariant
            k <= a.len(),
            k <= b.len(),
            forall|j: int| 0 <= j < k ==> a@[j] == b@[j],
        decreases a.len() - k,
    {
        if a[k] != b[k] {
            let r = a[k] < b[k];
            proof {
                if r {
                    assert(lex_witness(a@, b@, k as int));
                } else {
                    assert(!lex_lt(a@, b@)) by {
                        if lex_lt(a@, b@) {
                            let w = choose|w: int| lex_witness(a@, b@, w);
                            if w > k {
                                assert(a@[k as int] == b@[k as int]);
                            }
                        }
                    }
                }
            }
            return r;
        }
        k = k + 1;
    }
    let r = a.len() < b.len();
    proof {
        if r {
            assert(lex_witness(a@, b@, k as int));
        } else {
            if lex_lt(a@, b@) {
                let w = choose|w: int| lex_witness(a@, b@, w);
                if w < k {
                    assert(a@[w] == b@[w]);
                }
                assert(false);
            }
        }
    }
    r
}

/// Whether `x` ranks above `y`.
pub fn ranks_before(x: &QueryHit, y: &QueryHit) -> (r: bool)
    ensures
        r == hit_before(x@, y@),
{
    x.score > y.score || (x.score == y.score && lex_less(&x.path, &y.path))
}

pub proof fn lemma_lex_lt_transitive(a: Seq<char>, b: Seq<char>, c: Seq<char>)
    ensures
        lex_lt(a, b) && lex_lt(b, c) ==> lex_lt(a, c),
{
    if lex_lt(a, b) && lex_lt(b, c) {
        let k1 = choose|k: int| lex_witness(a, b, k);
        let k2 = choose|k: int| lex_witness(b, c, k);
        let k = if k1 <= k2 {
            k1
        } else {
            k2
        };
        assert forall|j: int| 0 <= j < k implies a[j] == c[j] by {
            assert(a[j] == b[j] && b[j] == c[j]);
        }
        if k1 < k2 {
            assert(b[k1] == c[k1]);
        } else if k1 == k2 {
        } else {
            assert(a[k2] == b[k2]);
        }
        assert(lex_witness(a, c, k));
    }
}

/// Two different texts are ordered one way or the other.
pub proof fn lemma_lex_lt_total(a: Seq<char>, b: Seq<char>)
    ensures
        a != b ==> lex_lt(a, b) || lex_lt(b, a),
    decreases a.len(),
{
    if a != b {
        if a.len() == 0 {
            if b.len() == 0 {
                assert(a =~= b);
            }
            assert(lex_witness(a, b, 0));
        } else if b.len() == 0 {
            assert(lex_witness(b, a, 0));
        } else if a[0] != b[0] {
            if a[0] < b[0] {
                assert(lex_witness(a, b, 0));
            } else {
                assert(lex_witness(b, a, 0));
            }
        } else {
            let a1 = a.drop_first();
            let b1 = b.drop_first();
            if a1 == b1 {
                assert(a =~= seq![a[0]] + a1);
                assert(b =~= seq![b[0]] + b1);
            }
            lemma_lex_lt_total(a1, b1);
            if lex_lt(a1, b1) {
                let k = choose|k: int| lex_witness(a1, b1, k);
                assert forall|j: int| 0 <= j < k + 1 implies a[j] == b[j] by {
                    if j > 0 {
                        assert(a[j] == a1[j - 1] && b[j] == b1[j - 1]);
                    }
                }
                assert(lex_witness(a, b, k + 1));
            } else {
                let k = choose|k: int| lex_witness(b1, a1, k);
                assert forall|j: int| 0 <= j < k + 1 implies b[j] == a[j] by {
                    if j > 0 {
                        assert(a[j] == a1[j - 1] && b[j] == b1[j - 1]);
                    }
                }
                assert(lex_witness(b, a, k + 1));
            }
        }
    }
}

/// No text comes before itself.
pub proof fn lemma_lex_lt_irreflexive(a: Seq<char>)
    ensures
        !lex_lt(a, a),
{
}

/// `hit_before` is transitive.
pub proof fn lemma_hit_before_transitive(x: HitModel, y: HitModel, z: HitModel)
    ensures
        hit_before(x, y) && hit_before(y, z) ==> hit_before(x, z),
{
    lemma_lex_lt_transitive(x.path, y.path, z.path);
}

/// `hit_before` is asymmetric.
pub proof fn lemma_hit_before_asymmetric(x: HitModel, y: HitModel)
    ensures
        hit_before(x, y) ==> !hit_before(y, x),
{
    lemma_lex_lt_asymmetric(x.path, y.path);
}

/// Inserts a hit into a ranked list, after every hit that it does not rank
/// above, and returns where it went.
pub fn insert_ranked(hits: &mut Vec<QueryHit>, x: QueryHit) -> (k: usize)
    requires
        ranked(hits_view(old(hits)@)),
    ensures
        ranked(hits_view(final(hits)@)),
        k <= old(hits).len(),
        final(hits)@ == old(hits)@.insert(k as int, x),
{
    let mut k: usize = 0;
    let mut found = false;
    while !found && k < hits.len()
        invariant
            k <= hits.len(),
            forall|i: int| 0 <= i < k ==> !hit_before(x@, #[trigger] hits@[i]@),
            found ==> k < hits.len() && hit_before(x@, hits@[k as int]@),
        decreases hits.len() - k + if found {
            0int
        } else {
            1int
        },
    {
        if ranks_before(&x, &hits[k]) {
            found = true;
        } else {
            k = k + 1;
        }
    }
    let ghost before = hits@;
    let ghost xv = x@;
    let ghost o = hits_view(before);
    proof {
        if k < hits.len() {
            lemma_hit_before_asymmetric(xv, o[k as int]);
        }
    }
    hits.insert(k, x);
    proof {
        let s = hits_view(hits@);
        assert(s =~= o.insert(k as int, xv));
        assert forall|i: int, j: int| 0 <= i < j < s.len() implies !hit_before(
            #[trigger] s[j],
            #[trigger] s[i],
        ) by {
            if j < k {
                assert(s[i] == o[i] && s[j] == o[j]);
            } else if j == k {
                assert(s[j] == xv && s[i] == o[i]);
                assert(before[i]@ == o[i]);
            } else if i == k {
                assert(s[i] == xv && s[j] == o[j - 1]);
                if j - 1 > k {
                    assert(!hit_before(o[j - 1], o[k as int]));
                    lemma_hit_before_transitive(o[j - 1], xv, o[k as int]);
                }
            } else if i < k {
                assert(s[i] == o[i] && s[j] == o[j - 1]);
            } else {
                assert(s[i] == o[i - 1] && s[j] == o[j - 1]);
            }
        }
    }
    k
}

impl Index {
    /// The score of a document and the position of its best token.
    fn score_doc(keyword: &Vec<char>, tolerance: u8, d: &DocEntry) -> (r: (usize, usize))
        requires
            keyword.len() < usize::MAX / 2 - 256,
            d.tokens.len() > 0,
        ensures
            r.0 == doc_score(keyword@, tolerance as nat, d@),
            r.1 == best_token(keyword@, tolerance as nat, d@.tokens, d@.tokens.len()),
            r.1 < d.tokens.len(),
    {
        let ghost toks = d@.tokens;
        let mut best: usize = 0;
        let mut best_score = token_similarity(keyword, &d.tokens[0].text, tolerance);
        let mut n: usize = 1;
        while n < d.tokens.len()
            invariant
                1 <= n <= d.tokens.len(),
                keyword.len() < usize::MAX / 2 - 256,
                toks == d@.tokens,
                best < n,
                best == best_token(keyword@, tolerance as nat, toks, n as nat),
                best_score == similarity(keyword@, toks[best as int].text, tolerance as nat),
            decreases d.tokens.len() - n,
        {
            let s = token_similarity(keyword, &d.tokens[n].text, tolerance);
            assert(toks[n as int].text == d.tokens@[n as int].text@);
            if s > best_score {
                best = n;
                best_score = s;
            }
            n = n + 1;
        }
        (best_score, best)
    }

    /// The hit a document gives, if it matches at all.
    fn hit_of(keyword: &Vec<char>, tolerance: u8, d: &DocEntry) -> (r: Option<QueryHit>)
        requires
            keyword.len() < usize::MAX / 2 - 256,
        ensures
            doc_score(keyword@, tolerance as nat, d@) > 0 <==> r is Some,
            r matches Some(h) ==> h@ == hit_for(keyword@, tolerance as nat, d@),
    {
        if d.tokens.len() == 0 {
            return None;
        }
        let (score, best) = Index::score_doc(keyword, tolerance, d);
        if score == 0 {
            return None;
        }
        let t = &d.tokens[best];
        let len = d.text.len();
        let start = if t.offset > SNIPPET_RADIUS {
            t.offset - SNIPPET_RADIUS
        } else {
            0
        };
        let start = if start > len {
            len
        } else {
            start
        };
        let tl = t.text.len();
        let end = if t.offset >= len || tl >= len - t.offset || len - t.offset - tl
            <= SNIPPET_RADIUS {
            len
        } else {
            t.offset + tl + SNIPPET_RADIUS
        };
        let mut snippet: Vec<char> = Vec::new();
        let mut k: usize = start;
        while k < end
            invariant
                start <= k <= end <= len,
                len == d.text.len(),
                snippet@ == d.text@.subrange(start as int, k as int),
            decreases end - k,
        {
            snippet.push(d.text[k]);
            k = k + 1;
            assert(snippet@ =~= d.text@.subrange(start as int, k as int));
        }
        let path = copy_path(&d.path);
        Some(QueryHit { path, score, snippet, synced_at: d.synced_at })
    }

    /// The documents that match `keyword`, best first (ties by path), at most
    /// `limit` of them. Each hit is the one its document gives; where fewer
    /// than `limit` come back, every matching document is among them.
    pub fn search(&self, keyword: &Vec<char>, tolerance: u8, limit: usize) -> (r: Vec<QueryHit>)
        requires
            self.wf(),
            keyword.len() < usize::MAX / 2 - 256,
        ensures
            r.len() <= limit,
            ranked(hits_view(r@)),
            forall|i: int, j: int|
                0 <= i < j < r.len() ==> #[trigger] r@[i]@.path != #[trigger] r@[j]@.path,
            forall|i: int|
                0 <= i < r.len() ==> self@.contains_key(#[trigger] r@[i]@.path) && r@[i]@
                    == hit_for(keyword@, tolerance as nat, self@[r@[i]@.path]) && r@[i]@.score > 0,
            r.len() < limit ==> forall|p: Seq<char>|
                #[trigger] self@.contains_key(p) && doc_score(keyword@, tolerance as nat, self@[p]) > 0
                    ==> exists|i: int| 0 <= i < r.len() && r@[i]@.path == p,
            forall|p: Seq<char>, i: int|
                #[trigger] self@.contains_key(p) && doc_score(keyword@, tolerance as nat, self@[p]) > 0 && 0 <= i
                    < r.len() && (forall|j: int| 0 <= j < r.len() ==> r@[j]@.path != p)
                    ==> !hit_before(hit_for(keyword@, tolerance as nat, self@[p]), #[trigger] r@[i]@),
    {
        let ghost docs = models(self.docs@);
        proof {
            lemma_docs_map(docs);
        }
        let mut all: Vec<QueryHit> = Vec::new();
        let ghost mut src: Seq<int> = Seq::empty();
        let mut j: usize = 0;
        while j < self.docs.len()
            invariant
                j <= self.docs.len(),
                docs == models(self.docs@),
                keyword.len() < usize::MAX / 2 - 256,
                ranked(hits_view(all@)),
                src.len() == all.len(),
                forall|i: int, i2: int|
                    0 <= i < i2 < all.len() ==> #[trigger] src[i] != #[trigger] src[i2],
                forall|i: int|
                    0 <= i < all.len() ==> 0 <= #[trigger] src[i] < j && all@[i]@ == hit_for(
                        keyword@,
                        tolerance as nat,
                        docs[src[i]],
                    ) && all@[i]@.score > 0,
                forall|d: int|
                    0 <= d < j && doc_score(keyword@, tolerance as nat, #[trigger] docs[d]) > 0 ==> exists|i: int|
                        0 <= i < all.len() && src[i] == d,
            decreases self.docs.len() - j,
        {
            match Index::hit_of(keyword, tolerance, &self.docs[j]) {
                Some(h) => {
                    let ghost pre = all@;
                    let ghost pre_src = src;
                    let k = insert_ranked(&mut all, h);
                    proof {
                        src = pre_src.insert(k as int, j as int);
                        assert forall|i: int, i2: int|
                            0 <= i < i2 < all.len() implies #[trigger] src[i] != #[trigger] src[i2] by {
                            let a = if i < k { i } else if i == k { -1 } else { i - 1 };
                            let b = if i2 < k { i2 } else if i2 == k { -1 } else { i2 - 1 };
                            if a >= 0 {
                                assert(src[i] == pre_src[a] && pre_src[a] < j);
                            }
                            if b >= 0 {
                                assert(src[i2] == pre_src[b] && pre_src[b] < j);
                            }
                        }
                        assert forall|i: int| 0 <= i < all.len() implies 0 <= #[trigger] src[i]
                            < j + 1 && all@[i]@ == hit_for(keyword@, tolerance as nat, docs[src[i]])
                            && all@[i]@.score > 0 by {
                            if i < k {
                                assert(all@[i] == pre[i] && src[i] == pre_src[i]);
                            } else if i > k {
                                assert(all@[i] == pre[i - 1] && src[i] == pre_src[i - 1]);
                            }
                        }
                        assert forall|d: int|
                            0 <= d < j + 1 && doc_score(keyword@, tolerance as nat, #[trigger] docs[d])
                                > 0 implies exists|i: int| 0 <= i < all.len() && src[i] == d by {
                            if d == j {
                                assert(src[k as int] == d);
                            } else {
                                let i = choose|i: int| 0 <= i < pre.len() && pre_src[i] == d;
                                if i < k {
                                    assert(src[i] == d);
                                } else {
                                    assert(src[i + 1] == d);
                                }
                            }
                        }
                    }
                },
                None => {},
            }
            j = j + 1;
        }
        let ghost full = all@;
        all.truncate(limit);
        proof {
            assert forall|i: int| 0 <= i < all.len() implies self@.contains_key(#[trigger] all@[i]@.path)
                && all@[i]@ == hit_for(keyword@, tolerance as nat, self@[all@[i]@.path]) && all@[i]@.score > 0 by {
                let d = src[i];
                assert(all@[i] == full[i]);
                assert(0 <= src[i] < docs.len());
                assert(self@[docs[d].path] == docs[d]);
            }
            let s = hits_view(all@);
            let o = hits_view(full);
            assert forall|i: int, j: int| 0 <= i < j < s.len() implies !hit_before(
                #[trigger] s[j],
                #[trigger] s[i],
            ) by {
                assert(s[i] == o[i] && s[j] == o[j]);
            }
            assert forall|p: Seq<char>, i: int|
                #[trigger] self@.contains_key(p) && doc_score(keyword@, tolerance as nat, self@[p]) > 0 && 0 <= i
                    < all.len() && (forall|j: int| 0 <= j < all.len() ==> all@[j]@.path != p)
                    implies !hit_before(hit_for(keyword@, tolerance as nat, self@[p]), #[trigger] all@[i]@) by {
                let d = choose|d: int| 0 <= d < docs.len() && docs[d].path == p;
                assert(self@[docs[d].path] == docs[d]);
                let j = choose|j: int| 0 <= j < full.len() && src[j] == d;
                if j < all.len() {
                    assert(all@[j] == full[j]);
                    assert(all@[j]@.path == p);
                } else {
                    assert(all@[i] == full[i]);
                    assert(o[i] == full[i]@ && o[j] == full[j]@);
                    assert(!hit_before(o[j], o[i]));
                }
            }
            assert forall|i: int, i2: int|
                0 <= i < i2 < all.len() implies #[trigger] all@[i]@.path != #[trigger] all@[i2]@.path by {
                assert(all@[i] == full[i] && all@[i2] == full[i2]);
                assert(docs[src[i]].path != docs[src[i2]].path);
            }
            if all.len() < limit {
                assert(all@ == full);
                assert forall|p: Seq<char>|
                    #[trigger] self@.contains_key(p) && doc_score(keyword@, tolerance as nat, self@[p]) > 0
                        implies exists|i: int| 0 <= i < all.len() && all@[i]@.path == p by {
                    let d = choose|d: int| 0 <= d < docs.len() && docs[d].path == p;
                    assert(self@[docs[d].path] == docs[d]);
                    let i = choose|i: int| 0 <= i < full.len() && src[i] == d;
                    assert(all@[i]@.path == p);
                }
            }
        }
        all
    }
}

fn copy_path(v: &Vec<char>) -> (r: Vec<char>)
    ensures
        r@ == v@,
{
    let mut r: Vec<char> = Vec::new();
    let mut k: usize = 0;
    while k < v.len()
        invariant
            k <= v.len(),
            r@ == v@.subrange(0, k as int),
        decreases v.len() - k,
    {
        r.push(v[k]);
        k = k + 1;
        assert(r@ =~= v@.subrange(0, k as int));
    }
    assert(v@.subrange(0, v@.len() as int) =~= v@);
    r
}

/// In a ranked list scores never rise, and among equal scores no path comes
/// after a larger one.
pub proof fn lemma_ranked_order(s: Seq<HitModel>, i: int, j: int)
    requires
        ranked(s),
        0 <= i < j < s.len(),
    ensures
        s[i].score >= s[j].score,
        s[i].score == s[j].score ==> !lex_lt(s[j].path, s[i].path),
{
    assert(!hit_before(s[j], s[i]));
}

proof fn lemma_best_token_max(keyword: Seq<char>, tol: nat, toks: Seq<TokenModel>, n: nat)
    requires
        1 <= n <= toks.len(),
    ensures
        0 <= best_token(keyword, tol, toks, n) < n,
        forall|i: int|
            0 <= i < n ==> similarity(keyword, #[trigger] toks[i].text, tol) <= similarity(keyword, toks[best_token(keyword, tol, toks, n)].text, tol),
    decreases n,
{
    if n > 1 {
        lemma_best_token_max(keyword, tol, toks, (n - 1) as nat);
    }
}

/// A document's score is at least the similarity of each of its tokens, and
/// zero only when no token is similar at all.
pub proof fn lemma_doc_score_bounds(keyword: Seq<char>, tol: nat, d: DocModel)
    ensures
        forall|i: int|
            0 <= i < d.tokens.len() ==> similarity(keyword, #[trigger] d.tokens[i].text, tol)
                <= doc_score(keyword, tol, d),
        doc_score(keyword, tol, d) == 0 <==> forall|i: int|
            0 <= i < d.tokens.len() ==> similarity(keyword, #[trigger] d.tokens[i].text, tol) == 0,
{
    if d.tokens.len() > 0 {
        lemma_best_token_max(keyword, tol, d.tokens, d.tokens.len());
        let b = best_token(keyword, tol, d.tokens, d.tokens.len());
        assert(d.tokens[b].text == d.tokens[b].text);
    }
}

/// A keyword made from one of a document's tokens by replacing a single
/// character still gives the document a positive score, under any
/// tolerance of one edit or more.
pub proof fn lemma_typo_still_matches(d: DocModel, t: int, k: int, c: char, tol: nat)
    requires
        0 <= t < d.tokens.len(),
        0 <= k < d.tokens[t].text.len(),
        tol >= 1,
    ensures
        doc_score(d.tokens[t].text.update(k, c), tol, d) > 0,
{
    lemma_one_substitution_matches(d.tokens[t].text, k, c, tol);
    lemma_doc_score_bounds(d.tokens[t].text.update(k, c), tol, d);
}

/// Once a path is no longer loaded, no query answered from the synced index
/// returns it: every hit names a document that the index holds.
pub proof fn lemma_deleted_never_returned(
    old: Map<Seq<char>, DocModel>,
    loaded: Seq<(Seq<char>, Seq<char>)>,
    now: nat,
    stop: Seq<Seq<char>>,
    path: Seq<char>,
    hits: Seq<HitModel>,
)
    requires
        forall|i: int| 0 <= i < loaded.len() ==> loaded[i].0 != path,
        forall|i: int|
            0 <= i < hits.len() ==> sync_map(old, loaded, now, stop, loaded.len()).contains_key(
                #[trigger] hits[i].path,
            ),
    ensures
        forall|i: int| 0 <= i < hits.len() ==> #[trigger] hits[i].path != path,
{
    lemma_sync_drops_absent(old, loaded, now, stop, path);
}

} // verus!
