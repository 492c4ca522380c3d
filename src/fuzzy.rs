use vstd::prelude::*;

verus! {

/// Edit (Levenshtein) distance between the first `i` characters of `a` and
/// the first `j` characters of `b`.
pub open spec fn lev_prefix(a: Seq<char>, b: Seq<char>, i: nat, j: nat) -> nat
    decreases i + j,
{
    if i == 0 {
        j
    } else if j == 0 {
        i
    } else {
        let del = lev_prefix(a, b, (i - 1) as nat, j) + 1;
        let ins = lev_prefix(a, b, i, (j - 1) as nat) + 1;
        let sub = lev_prefix(a, b, (i - 1) as nat, (j - 1) as nat) + if a[i - 1] == b[j - 1] {
            0nat
        } else {
            1nat
        };
        min3(del, ins, sub)
    }
}

pub open spec fn min3(x: nat, y: nat, z: nat) -> nat {
    if x <= y && x <= z {
        x
    } else if y <= z {
        y
    } else {
        z
    }
}

/// Edit distance between two whole sequences.
pub open spec fn lev(a: Seq<char>, b: Seq<char>) -> nat {
    lev_prefix(a, b, a.len(), b.len())
}

/// The default number of edits a keyword of four or more characters tolerates.
pub const DEFAULT_TOLERANCE: u8 = 2;

/// How many edits a keyword of length `len` tolerates: `tolerance` from four
/// characters on, at most one below that.
pub open spec fn max_edits(len: nat, tolerance: nat) -> nat {
    if len >= 4 {
        tolerance
    } else if tolerance >= 1 {
        1
    } else {
        0
    }
}

/// Similarity of a token to a keyword: zero when the token is too far away,
/// else one more than the edits left unused (an exact match scores highest).
pub open spec fn similarity(keyword: Seq<char>, token: Seq<char>, tolerance: nat) -> nat {
    let d = lev(keyword, token);
    let m = max_edits(keyword.len(), tolerance);
    if d <= m {
        (m + 1 - d) as nat
    } else {
        0
    }
}

proof fn lemma_lev_prefix_bound(a: Seq<char>, b: Seq<char>, i: nat, j: nat)
    ensures
        lev_prefix(a, b, i, j) <= i + j,
    decreases i + j,
{
    if i > 0 && j > 0 {
        lemma_lev_prefix_bound(a, b, (i - 1) as nat, j);
    }
}

proof fn lemma_lev_prefix_lower(a: Seq<char>, b: Seq<char>, i: nat, j: nat)
    ensures
        lev_prefix(a, b, i, j) >= j - i,
        lev_prefix(a, b, i, j) >= i - j,
    decreases i + j,
{
    if i > 0 && j > 0 {
        lemma_lev_prefix_lower(a, b, (i - 1) as nat, j);
        lemma_lev_prefix_lower(a, b, i, (j - 1) as nat);
        lemma_lev_prefix_lower(a, b, (i - 1) as nat, (j - 1) as nat);
    }
}

/// The edit distance between `a` and `b`, computed row by row.
pub fn edit_distance(a: &Vec<char>, b: &Vec<char>) -> (r: usize)
    requires
        a.len() + b.len() < usize::MAX,
    ensures
        r == lev(a@, b@),
{
    let n = b.len();
    let mut prev: Vec<usize> = Vec::new();
    let mut j: usize = 0;
    while j <= n
        invariant
            j <= n + 1,
            n == b.len(),
            a.len() + b.len() < usize::MAX,
            prev.len() == j,
            forall|k: int| 0 <= k < j ==> prev[k] == lev_prefix(a@, b@, 0, k as nat),
        decreases n + 1 - j,
    {
        prev.push(j);
        j = j + 1;
    }
    let mut i: usize = 1;
    while i <= a.len()
        invariant
            1 <= i <= a.len() + 1,
            n == b.len(),
            a.len() + b.len() < usize::MAX,
            prev.len() == n + 1,
            forall|k: int| 0 <= k <= n ==> prev[k] == lev_prefix(a@, b@, (i - 1) as nat, k as nat),
        decreases a.len() + 1 - i,
    {
        let mut cur: Vec<usize> = Vec::new();
        cur.push(i);
        let mut j: usize = 1;
        while j <= n
            invariant
                1 <= i <= a.len(),
                1 <= j <= n + 1,
                n == b.len(),
                a.len() + b.len() < usize::MAX,
                prev.len() == n + 1,
                cur.len() == j,
                forall|k: int|
                    0 <= k <= n ==> prev[k] == lev_prefix(a@, b@, (i - 1) as nat, k as nat),
                forall|k: int| 0 <= k < j ==> cur[k] == lev_prefix(a@, b@, i as nat, k as nat),
            decreases n + 1 - j,
        {
            proof {
                lemma_lev_prefix_bound(a@, b@, (i - 1) as nat, j as nat);
                lemma_lev_prefix_bound(a@, b@, i as nat, (j - 1) as nat);
                lemma_lev_prefix_bound(a@, b@, (i - 1) as nat, (j - 1) as nat);
            }
            let del = prev[j] + 1;
            let ins = cur[j - 1] + 1;
            let sub = if a[i - 1] == b[j - 1] {
                prev[j - 1]
            } else {
                prev[j - 1] + 1
            };
            let best = if del <= ins && del <= sub {
                del
            } else if ins <= sub {
                ins
            } else {
                sub
            };
            cur.push(best);
            j = j + 1;
        }
        prev = cur;
        i = i + 1;
    }
    prev[n]
}

/// The edit budget of a keyword of `len` characters.
pub fn edit_budget(len: usize, tolerance: u8) -> (r: usize)
    ensures
        r == max_edits(len as nat, tolerance as nat),
        r <= 255,
{
    if len >= 4 {
        tolerance as usize
    } else if tolerance >= 1 {
        1
    } else {
        0
    }
}

/// Scores `token` against `keyword`; zero means no match.
pub fn token_similarity(keyword: &Vec<char>, token: &Vec<char>, tolerance: u8) -> (r: usize)
    requires
        keyword.len() < usize::MAX / 2 - 256,
    ensures
        r == similarity(keyword@, token@, tolerance as nat),
{
    let m = edit_budget(keyword.len(), tolerance);
    if token.len() > keyword.len() + m || keyword.len() > token.len() + m {
        proof {
            lemma_lev_prefix_lower(keyword@, token@, keyword.len() as nat, token.len() as nat);
        }
        return 0;
    }
    let d = edit_distance(keyword, token);
    if d <= m {
        m + 1 - d
    } else {
        0
    }
}

/// A keyword made from a token by replacing one character lies within one
/// edit of it, so it still matches the token under any tolerance of one
/// edit or more.
pub proof fn lemma_one_substitution_matches(token: Seq<char>, k: int, c: char, tolerance: nat)
    requires
        0 <= k < token.len(),
        tolerance >= 1,
    ensures
        lev(token.update(k, c), token) <= 1,
        similarity(token.update(k, c), token, tolerance) > 0,
{
    let q = token.update(k, c);
    lemma_lev_same_prefix(q, token, k as nat);
    lemma_lev_one_off(q, token, k, token.len() as nat);
}

proof fn lemma_lev_same_prefix(a: Seq<char>, b: Seq<char>, i: nat)
    requires
        i <= a.len(),
        i <= b.len(),
        forall|x: int| 0 <= x < i ==> a[x] == b[x],
    ensures
        lev_prefix(a, b, i, i) == 0,
    decreases i,
{
    if i > 0 {
        lemma_lev_same_prefix(a, b, (i - 1) as nat);
    }
}

proof fn lemma_lev_one_off(a: Seq<char>, b: Seq<char>, k: int, i: nat)
    requires
        a.len() == b.len(),
        0 <= k < a.len(),
        k < i <= a.len(),
        forall|x: int| 0 <= x < a.len() && x != k ==> a[x] == b[x],
        lev_prefix(a, b, k as nat, k as nat) == 0,
    ensures
        lev_prefix(a, b, i, i) <= 1,
    decreases i,
{
    if i > k + 1 {
        lemma_lev_one_off(a, b, k, (i - 1) as nat);
    }
}

} // verus!
