use vstd::prelude::*;

verus! {

/// A character that may follow a marker: an ASCII letter or digit, `_`, `-` or `.`.
pub open spec fn is_body_char(c: char) -> bool {
    ('a' <= c && c <= 'z') || ('A' <= c && c <= 'Z') || ('0' <= c && c <= '9') || c == '_'
        || c == '-' || c == '.'
}

/// Position `i` of `s` holds `marker`, and a body character follows it.
pub open spec fn starts_token(s: Seq<char>, marker: char, i: int) -> bool {
    0 <= i && i + 1 < s.len() && s[i] == marker && is_body_char(s[i + 1])
}

/// `j` ends the longest run of body characters that follows position `i`.
pub open spec fn run_end(s: Seq<char>, i: int, j: int) -> bool {
    &&& i < j <= s.len()
    &&& forall|k: int| i < k < j ==> is_body_char(#[trigger] s[k])
    &&& j == s.len() || !is_body_char(s[j])
}

/// `t` is the token that starts at some position below `n` of `s`: the marker
/// and the whole run of body characters after it, exactly as they stand.
pub open spec fn token_before(s: Seq<char>, marker: char, n: int, t: Seq<char>) -> bool {
    exists|i: int, j: int|
        #![trigger starts_token(s, marker, i), run_end(s, i, j)]
        i < n && starts_token(s, marker, i) && run_end(s, i, j) && t == s.subrange(i, j)
}

/// The set of distinct tokens of `s` that begin with `marker`.
pub open spec fn tokens(s: Seq<char>, marker: char) -> Set<Seq<char>> {
    Set::new(|t: Seq<char>| token_before(s, marker, s.len() as int, t))
}

/// Executable test of the body class.
pub fn body_char(c: char) -> (r: bool)
    ensures
        r == is_body_char(c),
{
    ('a' <= c && c <= 'z') || ('A' <= c && c <= 'Z') || ('0' <= c && c <= '9') || c == '_'
        || c == '-' || c == '.'
}

/// Relies on `String::push`: it appends one character to the string.
#[verifier::external_body]
fn push_char(s: &mut String, c: char)
    ensures
        final(s)@ == old(s)@.push(c),
{
    s.push(c);
}

/// The characters of `text`, in order.
fn chars_of(text: &str) -> (r: Vec<char>)
    ensures
        r@ == text@,
{
    let mut v: Vec<char> = Vec::new();
    for c in it: text.chars()
        invariant
            v@ == it.seq().take(it.index()),
    {
        v.push(c);
    }
    v
}

/// Whether `t` is already among the strings of `v`.
fn contains_text(v: &Vec<String>, t: &String) -> (r: bool)
    ensures
        r == v.deep_view().contains(t@),
{
    let mut k: usize = 0;
    while k < v.len()
        invariant
            k <= v.len(),
            forall|m: int| 0 <= m < k ==> v.deep_view()[m] != t@,
        decreases v.len() - k,
    {
        if v[k] == *t {
            assert(v.deep_view()[k as int] == t@);
            return true;
        }
        k += 1;
    }
    false
}

/// Moving the scan from `i` to `j` adds the token at `i`, if one starts there,
/// and nothing else: no body character is a marker.
proof fn lemma_advance(s: Seq<char>, marker: char, i: int, j: int)
    requires
        !is_body_char(marker),
        0 <= i < j <= s.len(),
        starts_token(s, marker, i) ==> run_end(s, i, j),
        !starts_token(s, marker, i) ==> j == i + 1,
    ensures
        forall|t: Seq<char>|
            token_before(s, marker, j, t) <==> (token_before(s, marker, i, t) || (starts_token(
                s,
                marker,
                i,
            ) && t == s.subrange(i, j))),
{
    assert forall|t: Seq<char>|
        token_before(s, marker, j, t) implies (token_before(s, marker, i, t) || (starts_token(
            s,
            marker,
            i,
        ) && t == s.subrange(i, j))) by {
        let (i0, j0) = choose|i0: int, j0: int|
            #![trigger starts_token(s, marker, i0), run_end(s, i0, j0)]
            i0 < j && starts_token(s, marker, i0) && run_end(s, i0, j0) && t == s.subrange(i0, j0);
        if i0 < i {
            assert(token_before(s, marker, i, t));
        } else if i0 == i {
            if j0 < j {
                assert(is_body_char(s[j0]));
            } else if j0 > j {
                assert(is_body_char(s[j]));
            }
        } else {
            assert(is_body_char(s[i0]));
        }
    }
    assert forall|t: Seq<char>|
        token_before(s, marker, i, t) || (starts_token(s, marker, i) && t == s.subrange(i, j))
        implies token_before(s, marker, j, t) by {
        if starts_token(s, marker, i) && t == s.subrange(i, j) {
            assert(starts_token(s, marker, i) && run_end(s, i, j));
        }
    }
}

/// The distinct tokens of `s` that begin with `marker`, each once, in the order of
/// their first occurrence.
pub fn scan_tokens(s: &Vec<char>, marker: char) -> (r: Vec<String>)
    requires
        !is_body_char(marker),
    ensures
        r.deep_view().to_set() == tokens(s@, marker),
        r.deep_view().no_duplicates(),
{
    let mut out: Vec<String> = Vec::new();
    let n = s.len();
    let mut i: usize = 0;
    while i < n
        invariant
            i <= n,
            n == s.len(),
            !is_body_char(marker),
            forall|t: Seq<char>| out.deep_view().contains(t) <==> token_before(s@, marker, i as int, t),
            out.deep_view().no_duplicates(),
        decreases n - i,
    {
        if s[i] == marker && i + 1 < n && body_char(s[i + 1]) {
            let mut tok = String::new();
            push_char(&mut tok, marker);
            let mut j: usize = i + 1;
            assert(tok@ =~= s@.subrange(i as int, j as int));
            while j < n && body_char(s[j])
                invariant
                    i < j <= n,
                    n == s.len(),
                    tok@ == s@.subrange(i as int, j as int),
                    forall|k: int| i < k < j ==> is_body_char(#[trigger] s@[k]),
                decreases n - j,
            {
                push_char(&mut tok, s[j]);
                j += 1;
                assert(tok@ =~= s@.subrange(i as int, j as int));
            }
            proof {
                lemma_advance(s@, marker, i as int, j as int);
            }
            if !contains_text(&out, &tok) {
                let ghost before = out.deep_view();
                out.push(tok);
                assert(out.deep_view() =~= before.push(tok@));
                broadcast use vstd::seq_lib::lemma_seq_contains_after_push;
            }
            i = j;
        } else {
            proof {
                lemma_advance(s@, marker, i as int, i + 1);
            }
            i += 1;
        }
    }
    assert(out.deep_view().to_set() =~= tokens(s@, marker));
    out
}

/// What a pass contributes: the tokens of `s` for `marker` when it is wanted,
/// and nothing otherwise.
pub open spec fn extracted(s: Seq<char>, marker: char, wanted: bool) -> Set<Seq<char>> {
    if wanted {
        tokens(s, marker)
    } else {
        Set::empty()
    }
}

/// The failure that extraction can report: a matching pattern that is not valid.
/// The token rules here are fixed, so no call returns it.
#[derive(Debug, Clone, Copy, PartialEq, Eq)]
pub enum PatternError {
    InvalidPattern,
}

/// The unique mentions and hashtags found in a text.
#[derive(Debug)]
pub struct MentionsHashtags {
    pub mentions: Vec<String>,
    pub hashtags: Vec<String>,
}

impl Default for MentionsHashtags {
    fn default() -> (r: MentionsHashtags)
        ensures
            r.mentions.len() == 0,
            r.hashtags.len() == 0,
    {
        MentionsHashtags { mentions: Vec::new(), hashtags: Vec::new() }
    }
}

/// Extracts the unique `@mentions` of `description`, each with its casing as written.
/// The order of the result is that of first occurrence; callers should not rely on it.
pub fn parse_mentions(description: &str) -> (r: Result<Vec<String>, PatternError>)
    ensures
        r is Ok,
        r->Ok_0.deep_view().to_set() == tokens(description@, '@'),
        r->Ok_0.deep_view().no_duplicates(),
{
    let chars = chars_of(description);
    Ok(scan_tokens(&chars, '@'))
}

/// Extracts the unique `#hashtags` of `description`, each with its casing as written.
/// The order of the result is that of first occurrence; callers should not rely on it.
pub fn parse_hashtags(description: &str) -> (r: Result<Vec<String>, PatternError>)
    ensures
        r is Ok,
        r->Ok_0.deep_view().to_set() == tokens(description@, '#'),
        r->Ok_0.deep_view().no_duplicates(),
{
    let chars = chars_of(description);
    Ok(scan_tokens(&chars, '#'))
}

/// Extracts the mentions of `description` when `mentions` is set and its hashtags
/// when `hashtags` is set; a pass that is not wanted leaves its list empty, and
/// with neither flag set the text is not scanned at all.
pub fn parse_mentions_hashtags(
    description: &str,
    mentions: bool,
    hashtags: bool,
) -> (r: Result<MentionsHashtags, PatternError>)
    ensures
        r is Ok,
        r->Ok_0.mentions.deep_view().to_set() == extracted(description@, '@', mentions),
        r->Ok_0.hashtags.deep_view().to_set() == extracted(description@, '#', hashtags),
        r->Ok_0.mentions.deep_view().no_duplicates(),
        r->Ok_0.hashtags.deep_view().no_duplicates(),
        !mentions ==> r->Ok_0.mentions.len() == 0,
        !hashtags ==> r->Ok_0.hashtags.len() == 0,
{
    let mut result = MentionsHashtags::default();
    if !mentions && !hashtags {
        assert(result.mentions.deep_view().to_set() =~= Set::empty());
        assert(result.hashtags.deep_view().to_set() =~= Set::empty());
        return Ok(result);
    }
    if mentions {
        match parse_mentions(description) {
            Ok(found) => {
                result.mentions = found;
            },
            Err(e) => {
                return Err(e);
            },
        }
    } else {
        assert(result.mentions.deep_view().to_set() =~= Set::empty());
    }
    if hashtags {
        match parse_hashtags(description) {
            Ok(found) => {
                result.hashtags = found;
            },
            Err(e) => {
                return Err(e);
            },
        }
    } else {
        assert(result.hashtags.deep_view().to_set() =~= Set::empty());
    }
    Ok(result)
}

/// Two different tokens of the same text are both returned, as distinct entries:
/// `@Name` and `@name` are two mentions. `r` is any list of the text's tokens
/// without repeats, as the extractors return.
pub proof fn lemma_distinct_tokens_both_kept(
    s: Seq<char>,
    marker: char,
    r: Seq<Seq<char>>,
    i1: int,
    j1: int,
    i2: int,
    j2: int,
)
    requires
        r.to_set() == tokens(s, marker),
        r.no_duplicates(),
        starts_token(s, marker, i1),
        run_end(s, i1, j1),
        starts_token(s, marker, i2),
        run_end(s, i2, j2),
        s.subrange(i1, j1) != s.subrange(i2, j2),
    ensures
        r.contains(s.subrange(i1, j1)),
        r.contains(s.subrange(i2, j2)),
        r.len() >= 2,
{
    let t1 = s.subrange(i1, j1);
    let t2 = s.subrange(i2, j2);
    assert(token_before(s, marker, s.len() as int, t1));
    assert(token_before(s, marker, s.len() as int, t2));
    assert(r.to_set().contains(t1));
    assert(r.to_set().contains(t2));
    let k1 = choose|k: int| 0 <= k < r.len() && r[k] == t1;
    let k2 = choose|k: int| 0 <= k < r.len() && r[k] == t2;
    assert(k1 != k2);
}

/// An empty text yields nothing, whichever passes are wanted.
pub proof fn lemma_empty_text(marker: char, wanted: bool, r: Seq<Seq<char>>)
    requires
        r.to_set() == extracted(Seq::empty(), marker, wanted),
    ensures
        r.len() == 0,
{
    if r.len() > 0 {
        assert(r.to_set().contains(r[0]));
    }
}

/// Every token is its marker followed by one or more body characters, so a marker
/// with no body character after it yields nothing; a text in which no marker is
/// followed by a body character has no tokens at all.
pub proof fn lemma_tokens_have_body(s: Seq<char>, marker: char)
    ensures
        forall|t: Seq<char>|
            #[trigger] tokens(s, marker).contains(t) ==> t.len() >= 2 && t[0] == marker && forall|
                k: int,
            |
                1 <= k < t.len() ==> is_body_char(#[trigger] t[k]),
        (forall|i: int| !starts_token(s, marker, i)) ==> tokens(s, marker) == Set::<
            Seq<char>,
        >::empty(),
{
    assert forall|t: Seq<char>| #[trigger]
        tokens(s, marker).contains(t) implies t.len() >= 2 && t[0] == marker && forall|k: int|
        1 <= k < t.len() ==> is_body_char(#[trigger] t[k]) by {
        let (i, j) = choose|i: int, j: int|
            #![trigger starts_token(s, marker, i), run_end(s, i, j)]
            i < s.len() && starts_token(s, marker, i) && run_end(s, i, j) && t == s.subrange(i, j);
        assert forall|k: int| 1 <= k < t.len() implies is_body_char(#[trigger] t[k]) by {
            assert(t[k] == s[i + k]);
        }
    }
    if forall|i: int| !starts_token(s, marker, i) {
        assert(tokens(s, marker) =~= Set::<Seq<char>>::empty());
    }
}

} // verus!
