use vstd::prelude::*;

verus! {

/// An illustration handle: where a picture of an entry can be found and its
/// reported dimensions.  The ranking core stores it for its owner, an
/// external collaborator, and never inspects it.
#[derive(Clone, Debug)]
pub struct Image {
    pub url: String,
    pub width: i64,
    pub height: i64,
}

/// The pattern `pat` occurs in `s` starting at position `i`.
pub open spec fn occurs_at(s: Seq<char>, pat: Seq<char>, i: int) -> bool {
    &&& 0 <= i
    &&& i + pat.len() <= s.len()
    &&& s.subrange(i, i + pat.len()) == pat
}

/// `i` is the first occurrence of `pat` in `s`.
pub open spec fn first_occurrence(s: Seq<char>, pat: Seq<char>, i: int) -> bool {
    &&& occurs_at(s, pat, i)
    &&& forall|j: int| 0 <= j < i ==> !occurs_at(s, pat, j)
}

/// The character at `i` closes a token: a double or single quote.
pub open spec fn quote_at(s: Seq<char>, i: int) -> bool {
    s[i] == '"' || s[i] == '\''
}

/// `e` is the first quote at or after `start`.
pub open spec fn first_quote_from(s: Seq<char>, start: int, e: int) -> bool {
    &&& start <= e < s.len()
    &&& quote_at(s, e)
    &&& forall|q: int| start <= q < e ==> !quote_at(s, q)
}

/// Scraping with marker `pat` succeeds and hands back `token`: the text
/// between the end of the first occurrence of `pat` and the next quote.
pub open spec fn marker_yields(s: Seq<char>, pat: Seq<char>, token: Seq<char>) -> bool {
    exists|i: int, e: int|
        {
            &&& #[trigger] first_occurrence(s, pat, i)
            &&& #[trigger] first_quote_from(s, i + pat.len(), e)
            &&& token == s.subrange(i + pat.len(), e)
        }
}

/// Scraping with marker `pat` fails: the marker never occurs, or no quote
/// follows its first occurrence.
pub open spec fn marker_fails(s: Seq<char>, pat: Seq<char>) -> bool {
    ||| forall|i: int| !occurs_at(s, pat, i)
    ||| exists|i: int|
        {
            &&& #[trigger] first_occurrence(s, pat, i)
            &&& forall|q: int| i + pat.len() <= q < s.len() ==> !quote_at(s, q)
        }
}

/// The first occurrence of `pat` in `s`, if any.
fn find_sub(s: &str, pat: &str) -> (found: Option<usize>)
    ensures
        match found {
            Some(i) => first_occurrence(s@, pat@, i as int),
            None => forall|j: int| !occurs_at(s@, pat@, j),
        },
{
    let n = s.unicode_len();
    let m = pat.unicode_len();
    if m > n {
        return None;
    }
    let mut i: usize = 0;
    while i <= n - m
        invariant
            m <= n,
            n == s@.len(),
            m == pat@.len(),
            i <= n - m + 1,
            forall|j: int| 0 <= j < i ==> !occurs_at(s@, pat@, j),
        decreases n + 1 - i,
    {
        let mut k: usize = 0;
        let mut matched = true;
        while k < m && matched
            invariant
                k <= m,
                n == s@.len(),
                m == pat@.len(),
                i + m <= n,
                matched ==> forall|q: int| 0 <= q < k ==> s@[i + q] == pat@[q],
                !matched ==> exists|q: int| 0 <= q < m && s@[i + q] != pat@[q],
            decreases m - k,
        {
            if s.get_char(i + k) != pat.get_char(k) {
                matched = false;
            }
            k = k + 1;
        }
        if matched {
            proof {
                assert(s@.subrange(i as int, i + m) =~= pat@) by {
                    assert forall|q: int| 0 <= q < m implies s@.subrange(i as int, i + m)[q]
                        == pat@[q] by {
                        assert(s@.subrange(i as int, i + m)[q] == s@[i + q]);
                    }
                }
            }
            return Some(i);
        }
        proof {
            if occurs_at(s@, pat@, i as int) {
                let q = choose|q: int| 0 <= q < m && s@[i + q] != pat@[q];
                assert(s@.subrange(i as int, i + m)[q] == s@[i + q]);
            }
        }
        i = i + 1;
    }
    proof {
        assert forall|j: int| !occurs_at(s@, pat@, j) by {
            if occurs_at(s@, pat@, j) {
                assert(0 <= j <= n - m);
            }
        }
    }
    None
}

/// The first quote at or after `start`, if any.
fn find_quote(s: &str, start: usize) -> (found: Option<usize>)
    requires
        start <= s@.len(),
    ensures
        match found {
            Some(e) => first_quote_from(s@, start as int, e as int),
            None => forall|q: int| start <= q < s@.len() ==> !quote_at(s@, q),
        },
{
    let n = s.unicode_len();
    let mut e: usize = start;
    while e < n
        invariant
            start <= e <= n,
            n == s@.len(),
            forall|q: int| start <= q < e ==> !quote_at(s@, q),
        decreases n - e,
    {
        let c = s.get_char(e);
        if c == '"' || c == '\'' {
            return Some(e);
        }
        e = e + 1;
    }
    None
}

/// An illustration-name character that the normalization strips: the plain
/// whitespace family.
pub open spec fn is_space_char(ch: char) -> bool {
    ch == ' ' || ch == '\t' || ch == '\n' || ch == '\r'
}

/// `c` is where a title is cut: the first `(` — everything from the first
/// parenthesised annotation on is dropped — or the end when there is none.
pub open spec fn paren_boundary(s: Seq<char>, c: int) -> bool {
    &&& 0 <= c <= s.len()
    &&& (forall|j: int| 0 <= j < c ==> s[j] != '(')
    &&& (c == s.len() || s[c] == '(')
}

/// `t` is `s` with its leading and trailing whitespace stripped: empty when
/// `s` is all whitespace, otherwise the span from the first to the last
/// non-whitespace character.
pub open spec fn trimmed_of(s: Seq<char>, t: Seq<char>) -> bool {
    if forall|j: int| 0 <= j < s.len() ==> is_space_char(#[trigger] s[j]) {
        t == Seq::<char>::empty()
    } else {
        exists|a: int, b: int|
            {
                &&& 0 <= a < b <= s.len()
                &&& !is_space_char(s[a])
                &&& !is_space_char(s[b - 1])
                &&& (forall|j: int| 0 <= j < a ==> is_space_char(#[trigger] s[j]))
                &&& (forall|j: int| b <= j < s.len() ==> is_space_char(#[trigger] s[j]))
                &&& t == s.subrange(a, b)
            }
    }
}

/// The name an entry's illustration is filed under: the title cut at its
/// first parenthesis, with surrounding whitespace stripped.
pub fn image_title_key(title: &str) -> (key: String)
    ensures
        exists|c: int|
            #[trigger] paren_boundary(title@, c) && trimmed_of(title@.subrange(0, c), key@),
{
    let n = title.unicode_len();
    let mut c: usize = 0;
    while c < n && title.get_char(c) != '('
        invariant
            c <= n,
            n == title@.len(),
            forall|j: int| 0 <= j < c ==> title@[j] != '(',
        decreases n - c,
    {
        c = c + 1;
    }
    let ghost cut = title@.subrange(0, c as int);
    let mut a: usize = 0;
    while a < c && is_space(title.get_char(a))
        invariant
            a <= c <= n,
            n == title@.len(),
            forall|j: int| 0 <= j < a ==> is_space_char(#[trigger] title@[j]),
        decreases c - a,
    {
        a = a + 1;
    }
    if a == c {
        let out = String::new();
        proof {
            assert(paren_boundary(title@, c as int));
            assert(forall|j: int| 0 <= j < cut.len() ==> is_space_char(#[trigger] cut[j]));
            assert(trimmed_of(cut, out@));
        }
        return out;
    }
    let mut b: usize = c;
    while b > a && is_space(title.get_char(b - 1))
        invariant
            a <= b <= c <= n,
            n == title@.len(),
            a < c,
            !is_space_char(title@[a as int]),
            forall|j: int| b <= j < c ==> is_space_char(#[trigger] title@[j]),
        decreases b - a,
    {
        b = b - 1;
    }
    proof {
        assert(b > a);
        assert(!is_space_char(title@[b - 1]));
        assert(forall|j: int| 0 <= j < cut.len() ==> cut[j] == title@[j]);
        assert(cut.subrange(a as int, b as int) =~= title@.subrange(a as int, b as int));
    }
    let piece = title.substring_char(a, b);
    let out = piece.to_owned();
    proof {
        assert(paren_boundary(title@, c as int));
        assert(out@ == cut.subrange(a as int, b as int));
        assert(trimmed_of(cut, out@)) by {
            assert(!(forall|j: int| 0 <= j < cut.len() ==> is_space_char(#[trigger] cut[j]))) by {
                assert(cut[a as int] == title@[a as int]);
            }
            assert(0 <= a < b <= cut.len());
            assert(!is_space_char(cut[a as int]));
            assert(!is_space_char(cut[b - 1]));
            assert(forall|j: int| 0 <= j < a ==> is_space_char(#[trigger] cut[j]));
            assert(forall|j: int| b <= j < cut.len() ==> is_space_char(#[trigger] cut[j]));
        }
    }
    out
}

/// `is_space_char` computed on the machine.
fn is_space(ch: char) -> (r: bool)
    ensures
        r == is_space_char(ch),
{
    ch == ' ' || ch == '\t' || ch == '\n' || ch == '\r'
}

/// The name a category's illustrations are filed under: the category name
/// without its final character (the stored names carry a trailing marker).
pub fn image_category_key(category: &str) -> (key: String)
    ensures
        category@.len() > 0 ==> key@ == category@.drop_last(),
        category@.len() == 0 ==> key@ == Seq::<char>::empty(),
{
    let n = category.unicode_len();
    if n == 0 {
        String::new()
    } else {
        let piece = category.substring_char(0, n - 1);
        proof {
            assert(category@.subrange(0, n - 1) =~= category@.drop_last());
        }
        piece.to_owned()
    }
}

/// Scrapes the search token out of a result page: the text between the
/// first `vqd="` marker and the next quote, falling back to the `vqd='`
/// marker when the first yields nothing.
pub fn extract_vqd(html: &str) -> (token: Option<String>)
    ensures
        match token {
            Some(t) => marker_yields(html@, "vqd=\""@, t@) || (marker_fails(html@, "vqd=\""@)
                && marker_yields(html@, "vqd='"@, t@)),
            None => marker_fails(html@, "vqd=\""@) && marker_fails(html@, "vqd='"@),
        },
{
    let t1 = extract_with_marker(html, "vqd=\"");
    match t1 {
        Some(t) => Some(t),
        None => extract_with_marker(html, "vqd='"),
    }
}

/// One scraping attempt with a single marker.
fn extract_with_marker(html: &str, pat: &str) -> (token: Option<String>)
    ensures
        match token {
            Some(t) => marker_yields(html@, pat@, t@),
            None => marker_fails(html@, pat@),
        },
{
    let n = html.unicode_len();
    match find_sub(html, pat) {
        Some(i) => {
            let start = i + pat.unicode_len();
            proof {
                assert(start <= n);
            }
            match find_quote(html, start) {
                Some(e) => {
                    let piece = html.substring_char(start, e);
                    Some(piece.to_owned())
                },
                None => None,
            }
        },
        None => None,
    }
}

} // verus!
