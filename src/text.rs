use vstd::prelude::*;

verus! {

/// Tokens shorter than this are discarded.
pub const MIN_TOKEN_LEN: usize = 2;

/// Modulus of the polynomial content hash (a prime).
pub const HASH_MODULUS: u64 = 1000000007;

/// Base of the polynomial content hash.
pub const HASH_BASE: u64 = 131;

/// A normalized word of a document, with the character offset where it starts.
#[derive(Debug)]
pub struct Token {
    pub text: Vec<char>,
    pub offset: usize,
}

pub ghost struct TokenModel {
    pub text: Seq<char>,
    pub offset: nat,
}

impl View for Token {
    type V = TokenModel;

    open spec fn view(&self) -> TokenModel {
        TokenModel { text: self.text@, offset: self.offset as nat }
    }
}

pub open spec fn tokens_view(v: Seq<Token>) -> Seq<TokenModel> {
    v.map_values(|t: Token| t@)
}

/// Case folding: ASCII capitals become lower case, everything else stays.
pub open spec fn fold_char(c: char) -> char {
    if 'A' <= c && c <= 'Z' {
        ((c as u8) + 32) as char
    } else {
        c
    }
}

/// Letters, digits and every non-ASCII character belong to words; ASCII
/// punctuation, including Markdown markers, and white space separate them.
pub open spec fn is_word_char(c: char) -> bool {
    ('a' <= c && c <= 'z') || ('A' <= c && c <= 'Z') || ('0' <= c && c <= '9') || (c as u32)
        >= 128
}

/// The case-folded form of a whole text.
pub open spec fn normalize(s: Seq<char>) -> Seq<char> {
    s.map_values(|c: char| fold_char(c))
}

pub open spec fn stop_view(v: Seq<Vec<char>>) -> Seq<Seq<char>> {
    v.map_values(|w: Vec<char>| w@)
}

/// The token for the word `s[start..end]`, if it is long enough and its
/// folded form is not a stop word.
pub open spec fn word_token(s: Seq<char>, stop: Seq<Seq<char>>, start: nat, end: nat) -> Seq<
    TokenModel,
> {
    if end >= start + MIN_TOKEN_LEN && !stop.contains(
        normalize(s.subrange(start as int, end as int)),
    ) {
        seq![TokenModel { text: normalize(s.subrange(start as int, end as int)), offset: start }]
    } else {
        seq![]
    }
}

/// The tokens of `s[i..]`, where the word in progress began at `start`.
pub open spec fn tokens_from(s: Seq<char>, stop: Seq<Seq<char>>, start: nat, i: nat) -> Seq<TokenModel>
    decreases s.len() - i,
{
    if i >= s.len() {
        word_token(s, stop, start, s.len())
    } else if is_word_char(s[i as int]) {
        tokens_from(s, stop, start, i + 1)
    } else {
        word_token(s, stop, start, i) + tokens_from(s, stop, i + 1, i + 1)
    }
}

/// The tokens of a text: its maximal runs of word characters of at least
/// the minimum length, case-folded, in order, each with its offset; stop
/// words left out.
pub open spec fn tokenize_spec(s: Seq<char>, stop: Seq<Seq<char>>) -> Seq<TokenModel> {
    tokens_from(s, stop, 0, 0)
}

/// Polynomial hash of a text, for change detection.
pub open spec fn hash_spec(s: Seq<char>) -> nat
    decreases s.len(),
{
    if s.len() == 0 {
        0
    } else {
        ((hash_spec(s.drop_last()) * HASH_BASE as nat + (s.last() as u32) as nat)
            % HASH_MODULUS as nat)
    }
}

pub fn fold_char_exec(c: char) -> (r: char)
    ensures
        r == fold_char(c),
{
    if 'A' <= c && c <= 'Z' {
        ((c as u8) + 32) as char
    } else {
        c
    }
}

pub fn is_word_char_exec(c: char) -> (r: bool)
    ensures
        r == is_word_char(c),
{
    ('a' <= c && c <= 'z') || ('A' <= c && c <= 'Z') || ('0' <= c && c <= '9') || (c as u32)
        >= 128
}

/// The case-folded copy of `s[start..end]`.
pub fn normalized_slice(s: &Vec<char>, start: usize, end: usize) -> (r: Vec<char>)
    requires
        start <= end <= s.len(),
    ensures
        r@ == normalize(s@.subrange(start as int, end as int)),
{
    let mut r: Vec<char> = Vec::new();
    let mut k: usize = start;
    while k < end
        invariant
            start <= k <= end <= s.len(),
            r@ == normalize(s@.subrange(start as int, k as int)),
        decreases end - k,
    {
        r.push(fold_char_exec(s[k]));
        k = k + 1;
        assert(r@ =~= normalize(s@.subrange(start as int, k as int)));
    }
    r
}

/// The case-folded form of a whole text.
pub fn normalize_text(s: &Vec<char>) -> (r: Vec<char>)
    ensures
        r@ == normalize(s@),
{
    let r = normalized_slice(s, 0, s.len());
    assert(s@.subrange(0, s@.len() as int) =~= s@);
    r
}

/// Whether two texts are equal.
pub fn chars_eq(a: &Vec<char>, b: &Vec<char>) -> (r: bool)
    ensures
        r == (a@ == b@),
{
    if a.len() != b.len() {
        return false;
    }
    let mut k: usize = 0;
    while k < a.len()
        invariant
            k <= a.len() == b.len(),
            forall|x: int| 0 <= x < k ==> a@[x] == b@[x],
        decreases a.len() - k,
    {
        if a[k] != b[k] {
            return false;
        }
        k = k + 1;
    }
    assert(a@ =~= b@);
    true
}

/// Whether `w` is one of the stop words.
pub fn is_stop_word(stop: &Vec<Vec<char>>, w: &Vec<char>) -> (r: bool)
    ensures
        r == stop_view(stop@).contains(w@),
{
    let mut k: usize = 0;
    while k < stop.len()
        invariant
            k <= stop.len(),
            forall|i: int| 0 <= i < k ==> stop@[i]@ != w@,
        decreases stop.len() - k,
    {
        if chars_eq(&stop[k], w) {
            assert(stop_view(stop@)[k as int] == w@);
            return true;
        }
        k = k + 1;
    }
    assert forall|i: int| 0 <= i < stop.len() implies stop_view(stop@)[i] != w@ by {
        assert(stop_view(stop@)[i] == stop@[i]@);
    }
    false
}

/// Appends the token for `s[start..end]`, if there is one.
fn push_word(out: &mut Vec<Token>, s: &Vec<char>, stop: &Vec<Vec<char>>, start: usize, end: usize)
    requires
        start <= end <= s.len(),
    ensures
        tokens_view(final(out)@) == tokens_view(old(out)@) + word_token(
            s@,
            stop_view(stop@),
            start as nat,
            end as nat,
        ),
{
    let ghost before = tokens_view(out@);
    if end - start >= MIN_TOKEN_LEN {
        let text = normalized_slice(s, start, end);
        if !is_stop_word(stop, &text) {
            out.push(Token { text, offset: start });
        }
    }
    assert(tokens_view(out@) =~= before + word_token(
        s@,
        stop_view(stop@),
        start as nat,
        end as nat,
    ));
}

/// Splits a text into tokens, leaving out the stop words.
pub fn tokenize(s: &Vec<char>, stop: &Vec<Vec<char>>) -> (r: Vec<Token>)
    ensures
        tokens_view(r@) == tokenize_spec(s@, stop_view(stop@)),
{
    let ghost sw = stop_view(stop@);
    let mut out: Vec<Token> = Vec::new();
    let mut start: usize = 0;
    let mut i: usize = 0;
    while i < s.len()
        invariant
            start <= i <= s.len(),
            sw == stop_view(stop@),
            tokens_view(out@) + tokens_from(s@, sw, start as nat, i as nat) == tokenize_spec(
                s@,
                sw,
            ),
        decreases s.len() - i,
    {
        if is_word_char_exec(s[i]) {
            i = i + 1;
        } else {
            let ghost before = tokens_view(out@);
            push_word(&mut out, s, stop, start, i);
            proof {
                assert(before + word_token(s@, sw, start as nat, i as nat) + tokens_from(
                    s@,
                    sw,
                    (i + 1) as nat,
                    (i + 1) as nat,
                ) =~= before + (word_token(s@, sw, start as nat, i as nat) + tokens_from(
                    s@,
                    sw,
                    (i + 1) as nat,
                    (i + 1) as nat,
                )));
            }
            i = i + 1;
            start = i;
        }
    }
    push_word(&mut out, s, stop, start, s.len());
    out
}

/// The content hash of a text.
pub fn content_hash(s: &Vec<char>) -> (r: u64)
    ensures
        r as nat == hash_spec(s@),
{
    let mut h: u64 = 0;
    let mut k: usize = 0;
    while k < s.len()
        invariant
            k <= s.len(),
            h < HASH_MODULUS,
            h as nat == hash_spec(s@.subrange(0, k as int)),
        decreases s.len() - k,
    {
        let c = s[k] as u32;
        assert(s@.subrange(0, k + 1).drop_last() =~= s@.subrange(0, k as int));
        assert(h * 131 + c < 0x1_0000_0000_0000) by (nonlinear_arith)
            requires
                h < 1000000007,
                c <= 0xffff_ffff,
        ;
        h = (h * HASH_BASE + c as u64) % HASH_MODULUS;
        k = k + 1;
    }
    assert(s@.subrange(0, s@.len() as int) =~= s@);
    h
}

/// `s` ends with `suffix`.
pub open spec fn has_suffix(s: Seq<char>, suffix: Seq<char>) -> bool {
    suffix.len() <= s.len() && s.subrange(s.len() - suffix.len(), s.len() as int) == suffix
}

/// A path names a Markdown file when it ends in `.md` or `.markdown`.
pub open spec fn markdown_path(s: Seq<char>) -> bool {
    has_suffix(s, seq!['.', 'm', 'd']) || has_suffix(
        s,
        seq!['.', 'm', 'a', 'r', 'k', 'd', 'o', 'w', 'n'],
    )
}

/// Whether `s` ends with `suffix`.
pub fn ends_with(s: &Vec<char>, suffix: &Vec<char>) -> (r: bool)
    ensures
        r == has_suffix(s@, suffix@),
{
    if suffix.len() > s.len() {
        return false;
    }
    let start = s.len() - suffix.len();
    let mut k: usize = 0;
    while k < suffix.len()
        invariant
            start + suffix.len() == s.len(),
            k <= suffix.len(),
            forall|x: int| 0 <= x < k ==> s@[start + x] == suffix@[x],
        decreases suffix.len() - k,
    {
        if s[start + k] != suffix[k] {
            assert(s@.subrange(start as int, s@.len() as int)[k as int] != suffix@[k as int]);
            return false;
        }
        k = k + 1;
    }
    assert(s@.subrange(start as int, s@.len() as int) =~= suffix@);
    true
}

/// Whether a path names a Markdown file.
pub fn is_markdown_path(s: &Vec<char>) -> (r: bool)
    ensures
        r == markdown_path(s@),
{
    let md = vec!['.', 'm', 'd'];
    let long = vec!['.', 'm', 'a', 'r', 'k', 'd', 'o', 'w', 'n'];
    assert(md@ =~= seq!['.', 'm', 'd']);
    assert(long@ =~= seq!['.', 'm', 'a', 'r', 'k', 'd', 'o', 'w', 'n']);
    ends_with(s, &md) || ends_with(s, &long)
}

} // verus!
