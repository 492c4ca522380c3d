use vstd::prelude::*;

verus! {

/// One watched path, and whether it has been synced.
#[derive(Debug)]
pub struct Doc {
    pub path: String,
    pub is_indexed: bool,
}

impl View for Doc {
    type V = (Seq<char>, bool);

    open spec fn view(&self) -> (Seq<char>, bool) {
        (self.path@, self.is_indexed)
    }
}

/// The watchlist.
#[derive(Debug)]
pub struct AppConfig {
    pub docs: Vec<Doc>,
}

/// What became of one path handed to `add_docs`.
#[derive(Debug, PartialEq, Eq)]
pub enum AddOutcome {
    Added,
    AlreadyWatched,
    Missing,
}

pub open spec fn docs_view(v: Seq<Doc>) -> Seq<(Seq<char>, bool)> {
    v.map_values(|d: Doc| d@)
}

pub open spec fn strings_view(v: Seq<String>) -> Seq<Seq<char>> {
    v.map_values(|s: String| s@)
}

pub open spec fn has_path(docs: Seq<(Seq<char>, bool)>, p: Seq<char>) -> bool {
    exists|i: int| 0 <= i < docs.len() && docs[i].0 == p
}

/// The watchlist after offering the first `n` paths: a path joins, not yet
/// indexed, when it exists and is not watched already.
pub open spec fn add_spec(
    docs: Seq<(Seq<char>, bool)>,
    paths: Seq<Seq<char>>,
    exists: Seq<bool>,
    n: nat,
) -> Seq<(Seq<char>, bool)>
    decreases n,
{
    if n == 0 || n > paths.len() {
        docs
    } else {
        let prev = add_spec(docs, paths, exists, (n - 1) as nat);
        if has_path(prev, paths[n - 1]) || !exists[n - 1] {
            prev
        } else {
            prev.push((paths[n - 1], false))
        }
    }
}

/// What offering the `i`-th path did.
pub open spec fn add_outcome(
    docs: Seq<(Seq<char>, bool)>,
    paths: Seq<Seq<char>>,
    exists: Seq<bool>,
    i: nat,
) -> AddOutcome {
    let prev = add_spec(docs, paths, exists, i);
    if has_path(prev, paths[i as int]) {
        AddOutcome::AlreadyWatched
    } else if !exists[i as int] {
        AddOutcome::Missing
    } else {
        AddOutcome::Added
    }
}

/// The entries of `docs` whose path is not among `remove`, in order.
pub open spec fn retained(docs: Seq<(Seq<char>, bool)>, remove: Seq<Seq<char>>) -> Seq<
    (Seq<char>, bool),
> {
    docs.filter(|d: (Seq<char>, bool)| !remove.contains(d.0))
}

fn watches(docs: &Vec<Doc>, p: &String) -> (r: bool)
    ensures
        r == has_path(docs_view(docs@), p@),
{
    let mut k: usize = 0;
    while k < docs.len()
        invariant
            k <= docs.len(),
            forall|i: int| 0 <= i < k ==> docs@[i].path@ != p@,
        decreases docs.len() - k,
    {
        if docs[k].path == *p {
            assert(docs_view(docs@)[k as int].0 == p@);
            return true;
        }
        k = k + 1;
    }
    assert forall|i: int| 0 <= i < docs.len() implies docs_view(docs@)[i].0 != p@ by {
        assert(docs_view(docs@)[i] == docs@[i]@);
    }
    false
}

fn listed(paths: &Vec<String>, p: &String) -> (r: bool)
    ensures
        r == strings_view(paths@).contains(p@),
{
    let mut k: usize = 0;
    while k < paths.len()
        invariant
            k <= paths.len(),
            forall|i: int| 0 <= i < k ==> paths@[i]@ != p@,
        decreases paths.len() - k,
    {
        if paths[k] == *p {
            assert(strings_view(paths@)[k as int] == p@);
            return true;
        }
        k = k + 1;
    }
    assert forall|i: int| 0 <= i < paths.len() implies strings_view(paths@)[i] != p@ by {
        assert(strings_view(paths@)[i] == paths@[i]@);
    }
    false
}

impl AppConfig {
    /// An empty watchlist.
    pub fn new() -> (r: AppConfig)
        ensures
            r.docs@.len() == 0,
    {
        AppConfig { docs: Vec::new() }
    }

    /// Offers each path to the watchlist; `exists[i]` tells whether the
    /// `i`-th path is on disk. Returns what became of each path.
    pub fn add_docs(&mut self, new_paths: &Vec<String>, exists: &Vec<bool>) -> (r: Vec<AddOutcome>)
        requires
            exists.len() == new_paths.len(),
        ensures
            docs_view(final(self).docs@) == add_spec(
                docs_view(old(self).docs@),
                strings_view(new_paths@),
                exists@,
                new_paths.len() as nat,
            ),
            r.len() == new_paths.len(),
            forall|i: int|
                0 <= i < r.len() ==> #[trigger] r@[i] == add_outcome(
                    docs_view(old(self).docs@),
                    strings_view(new_paths@),
                    exists@,
                    i as nat,
                ),
    {
        let ghost d0 = docs_view(self.docs@);
        let ghost ps = strings_view(new_paths@);
        let mut out: Vec<AddOutcome> = Vec::new();
        let mut n: usize = 0;
        while n < new_paths.len()
            invariant
                n <= new_paths.len() == exists.len(),
                ps == strings_view(new_paths@),
                docs_view(self.docs@) == add_spec(d0, ps, exists@, n as nat),
                out.len() == n,
                forall|i: int| 0 <= i < n ==> #[trigger] out@[i] == add_outcome(d0, ps, exists@, i as nat),
            decreases new_paths.len() - n,
        {
            let p = &new_paths[n];
            assert(ps[n as int] == p@);
            if watches(&self.docs, p) {
                out.push(AddOutcome::AlreadyWatched);
            } else if !exists[n] {
                out.push(AddOutcome::Missing);
            } else {
                let ghost pre = self.docs@;
                self.docs.push(Doc { path: p.clone(), is_indexed: false });
                assert(docs_view(self.docs@) =~= docs_view(pre).push((p@, false)));
                out.push(AddOutcome::Added);
            }
            n = n + 1;
        }
        out
    }

    /// Drops every watched path that is among `remove_paths`, keeping the
    /// order of the rest.
    pub fn remove_doc_paths(&mut self, remove_paths: &Vec<String>)
        ensures
            docs_view(final(self).docs@) == retained(
                docs_view(old(self).docs@),
                strings_view(remove_paths@),
            ),
    {
        let ghost d0 = docs_view(self.docs@);
        let ghost rm = strings_view(remove_paths@);
        let mut old_docs: Vec<Doc> = Vec::new();
        std::mem::swap(&mut old_docs, &mut self.docs);
        assert(docs_view(old_docs@) == d0);
        let total = old_docs.len();
        let mut kept: Vec<Doc> = Vec::new();
        let mut n: usize = 0;
        while n < total
            invariant
                n <= total == old_docs.len() + n,
                d0.len() == total,
                forall|i: int| 0 <= i < old_docs.len() ==> old_docs@[i]@ == d0[n + i],
                rm == strings_view(remove_paths@),
                docs_view(kept@) == retained(d0.subrange(0, n as int), rm),
            decreases total - n,
        {
            let d = old_docs.remove(0);
            assert(d@ == d0[n as int]);
            let ghost pre = kept@;
            proof {
                reveal(Seq::filter);
                assert(d0.subrange(0, n + 1).drop_last() =~= d0.subrange(0, n as int));
            }
            if !listed(remove_paths, &d.path) {
                kept.push(d);
                assert(docs_view(kept@) =~= docs_view(pre).push(d0[n as int]));
            }
            n = n + 1;
        }
        assert(d0.subrange(0, total as int) =~= d0);
        self.docs = kept;
    }

    /// Marks every watched path as synced, keeping the paths and their order.
    pub fn mark_indexed(&mut self)
        ensures
            final(self).docs.len() == old(self).docs.len(),
            forall|i: int|
                0 <= i < final(self).docs.len() ==> #[trigger] final(self).docs@[i]@ == (
                    old(self).docs@[i].path@,
                    true,
                ),
    {
        let ghost d0 = self.docs@;
        let mut rest: Vec<Doc> = Vec::new();
        std::mem::swap(&mut rest, &mut self.docs);
        let total = rest.len();
        let mut done: Vec<Doc> = Vec::new();
        let mut n: usize = 0;
        while n < total
            invariant
                n <= total == rest.len() + n,
                d0.len() == total,
                forall|i: int| 0 <= i < rest.len() ==> rest@[i]@ == d0[n + i]@,
                done.len() == n,
                forall|i: int| 0 <= i < n ==> #[trigger] done@[i]@ == (d0[i].path@, true),
            decreases total - n,
        {
            let d = rest.remove(0);
            assert(d@ == d0[n as int]@);
            done.push(Doc { path: d.path, is_indexed: true });
            n = n + 1;
        }
        self.docs = done;
    }

    /// The watched paths, in order.
    pub fn paths(&self) -> (r: Vec<String>)
        ensures
            r.len() == self.docs.len(),
            forall|i: int| 0 <= i < r.len() ==> #[trigger] r@[i]@ == self.docs@[i].path@,
    {
        let mut r: Vec<String> = Vec::new();
        let mut k: usize = 0;
        while k < self.docs.len()
            invariant
                k <= self.docs.len(),
                r.len() == k,
                forall|i: int| 0 <= i < k ==> #[trigger] r@[i]@ == self.docs@[i].path@,
            decreases self.docs.len() - k,
        {
            r.push(self.docs[k].path.clone());
            k = k + 1;
        }
        r
    }
}

} // verus!
