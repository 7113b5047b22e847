use vstd::prelude::*;
use vstd::seq_lib::{to_multiset_insert, to_multiset_build};
use crate::store::{Entry, has_title, unique_titles, ratings_bounded, RATING_LIMIT};
use crate::store::{lemma_insert_keeps_titles, clone_entry};

verus! {

/// Strict lexicographic order on character sequences: `a` comes before `b`.
pub open spec fn lex_lt(a: Seq<char>, b: Seq<char>) -> bool
    decreases a.len(),
{
    if b.len() == 0 {
        false
    } else if a.len() == 0 {
        true
    } else if a[0] < b[0] {
        true
    } else if a[0] > b[0] {
        false
    } else {
        lex_lt(a.drop_first(), b.drop_first())
    }
}

pub proof fn lemma_lex_lt_asym(a: Seq<char>, b: Seq<char>)
    ensures
        lex_lt(a, b) ==> !lex_lt(b, a),
    decreases a.len(),
{
    if a.len() > 0 && b.len() > 0 && a[0] == b[0] {
        lemma_lex_lt_asym(a.drop_first(), b.drop_first());
    }
}

/// Two sequences neither of which comes before the other are equal.
pub proof fn lemma_lex_lt_connected(a: Seq<char>, b: Seq<char>)
    requires
        !lex_lt(a, b),
        !lex_lt(b, a),
    ensures
        a == b,
    decreases a.len(),
{
    if a.len() == 0 {
        assert(b.len() == 0);
        assert(a =~= b);
    } else {
        assert(b.len() > 0);
        assert(a[0] == b[0]);
        lemma_lex_lt_connected(a.drop_first(), b.drop_first());
        assert(a =~= b) by {
            assert(forall|i: int|
                1 <= i < a.len() ==> a[i] == a.drop_first()[i - 1] && b[i] == b.drop_first()[i
                    - 1]);
        }
    }
}

pub proof fn lemma_lex_lt_trans(a: Seq<char>, b: Seq<char>, c: Seq<char>)
    requires
        lex_lt(a, b),
        lex_lt(b, c),
    ensures
        lex_lt(a, c),
    decreases a.len(),
{
    if a.len() > 0 && b.len() > 0 && c.len() > 0 && a[0] == b[0] && b[0] == c[0] {
        lemma_lex_lt_trans(a.drop_first(), b.drop_first(), c.drop_first());
    }
}

/// The stored Elo order: `a` stands strictly before `b` when its rating is
/// higher, or the ratings tie and its title comes first.
pub open spec fn entry_precedes(a: Entry, b: Entry) -> bool {
    a.rating > b.rating || (a.rating == b.rating && lex_lt(a.title@, b.title@))
}

pub proof fn lemma_entry_precedes_asym(a: Entry, b: Entry)
    ensures
        entry_precedes(a, b) ==> !entry_precedes(b, a),
{
    lemma_lex_lt_asym(a.title@, b.title@);
}

/// The non-strict order is transitive: if `a` does not come after `b` and
/// `b` does not come after `c`, then `a` does not come after `c`.
pub proof fn lemma_entry_le_trans(a: Entry, b: Entry, c: Entry)
    requires
        !entry_precedes(b, a),
        !entry_precedes(c, b),
    ensures
        !entry_precedes(c, a),
{
    if entry_precedes(c, a) {
        assert(c.rating == a.rating && c.rating == b.rating);
        let ta = a.title@;
        let tb = b.title@;
        let tc = c.title@;
        if lex_lt(tb, tc) {
            lemma_lex_lt_trans(tb, tc, ta);
            assert(false);
        } else {
            lemma_lex_lt_connected(tb, tc);
            assert(false);
        }
    }
}

/// No entry stands before one that should precede it: the stored order of
/// an Elo category, rating descending with title-ascending tiebreak.
pub open spec fn sorted_desc(s: Seq<Entry>) -> bool {
    forall|i: int, j: int| 0 <= i < j < s.len() ==> !entry_precedes(s[j], s[i])
}

/// Where a descending insertion places `e`: after every entry that precedes
/// it, before the first that does not.
pub open spec fn insert_pos(s: Seq<Entry>, e: Entry) -> int
    decreases s.len(),
{
    if s.len() == 0 {
        0
    } else if entry_precedes(s[0], e) {
        1 + insert_pos(s.drop_first(), e)
    } else {
        0
    }
}

/// `s` with `e` inserted at `insert_pos(s, e)`.
pub open spec fn insert_desc(s: Seq<Entry>, e: Entry) -> Seq<Entry>
    decreases s.len(),
{
    if s.len() == 0 {
        seq![e]
    } else if entry_precedes(s[0], e) {
        seq![s[0]] + insert_desc(s.drop_first(), e)
    } else {
        seq![e] + s
    }
}

/// The descending sort of `s`: rating descending, ratings that tie ordered
/// by ascending title.
pub open spec fn sort_desc(s: Seq<Entry>) -> Seq<Entry>
    decreases s.len(),
{
    if s.len() == 0 {
        Seq::empty()
    } else {
        insert_desc(sort_desc(s.drop_last()), s.last())
    }
}

/// A descending insertion is an insertion at `insert_pos`, and `insert_pos`
/// is the boundary of the leading run of entries that precede `e`.
pub proof fn lemma_insert_desc_is_insert(s: Seq<Entry>, e: Entry)
    ensures
        0 <= insert_pos(s, e) <= s.len(),
        insert_desc(s, e) == s.insert(insert_pos(s, e), e),
        forall|i: int| 0 <= i < insert_pos(s, e) ==> entry_precedes(s[i], e),
        insert_pos(s, e) == s.len() || !entry_precedes(s[insert_pos(s, e)], e),
    decreases s.len(),
{
    let p = insert_pos(s, e);
    if s.len() == 0 {
        assert(insert_desc(s, e) =~= s.insert(0, e));
    } else if entry_precedes(s[0], e) {
        let rest = s.drop_first();
        lemma_insert_desc_is_insert(rest, e);
        assert(insert_desc(s, e) =~= s.insert(p, e)) by {
            assert(insert_desc(s, e) == seq![s[0]] + rest.insert(p - 1, e));
        }
        assert forall|i: int| 0 <= i < p implies entry_precedes(s[i], e) by {
            if i > 0 {
                assert(s[i] == rest[i - 1]);
            }
        }
        if p < s.len() {
            assert(s[p] == rest[p - 1]);
        }
    } else {
        assert(insert_desc(s, e) =~= s.insert(0, e));
    }
}

/// Inserting into a sorted sequence at the computed position keeps it
/// sorted.
pub proof fn lemma_insert_desc_sorted(s: Seq<Entry>, e: Entry)
    requires
        sorted_desc(s),
    ensures
        sorted_desc(insert_desc(s, e)),
{
    lemma_insert_desc_is_insert(s, e);
    let p = insert_pos(s, e);
    let r = s.insert(p, e);
    s.insert_ensures(p, e);
    assert forall|i: int, j: int| 0 <= i < j < r.len() implies !entry_precedes(r[j], r[i]) by {
        if i < p && j == p {
            lemma_entry_precedes_asym(s[i], e);
        } else if i == p && j > p {
            if j - 1 > p {
                lemma_entry_le_trans(e, s[p], s[j - 1]);
            }
        }
    }
}

/// The titles present in `s.insert(p, e)` are those of `s` plus `e`'s.
pub proof fn lemma_insert_titles_iff(s: Seq<Entry>, p: int, e: Entry)
    requires
        0 <= p <= s.len(),
    ensures
        forall|t: Seq<char>| has_title(s.insert(p, e), t) <==> has_title(s, t) || e.title@ == t,
{
    let r = s.insert(p, e);
    s.insert_ensures(p, e);
    assert forall|t: Seq<char>| has_title(r, t) implies has_title(s, t) || e.title@ == t by {
        let i = choose|i: int| 0 <= i < r.len() && r[i].title@ == t;
        if i < p {
            assert(s[i].title@ == t);
        } else if i > p {
            assert(s[i - 1].title@ == t);
        }
    }
    assert forall|t: Seq<char>| has_title(s, t) || e.title@ == t implies has_title(r, t) by {
        if has_title(s, t) {
            let i = choose|i: int| 0 <= i < s.len() && s[i].title@ == t;
            if i < p {
                assert(r[i].title@ == t);
            } else {
                assert(r[i + 1].title@ == t);
            }
        } else {
            assert(r[p].title@ == t);
        }
    }
}

/// The descending sort is a permutation that keeps the category invariant:
/// it is sorted with the title tiebreak, it has exactly the entries of `s`,
/// and it keeps titles unique and ratings on the scale.
pub proof fn lemma_sort_desc_wf(s: Seq<Entry>)
    requires
        unique_titles(s),
        ratings_bounded(s),
    ensures
        sorted_desc(sort_desc(s)),
        sort_desc(s).to_multiset() == s.to_multiset(),
        sort_desc(s).len() == s.len(),
        unique_titles(sort_desc(s)),
        ratings_bounded(sort_desc(s)),
        forall|t: Seq<char>| has_title(sort_desc(s), t) <==> has_title(s, t),
    decreases s.len(),
{
    if s.len() == 0 {
        assert(sort_desc(s) =~= s);
    } else {
        let s1 = s.drop_last();
        let e = s.last();
        assert(unique_titles(s1) && ratings_bounded(s1)) by {
            assert(forall|i: int| 0 <= i < s1.len() ==> s1[i] == s[i]);
        }
        lemma_sort_desc_wf(s1);
        let t = sort_desc(s1);
        lemma_insert_desc_is_insert(t, e);
        lemma_insert_desc_sorted(t, e);
        let p = insert_pos(t, e);
        let r = t.insert(p, e);
        assert(sort_desc(s) == r);
        // The permutation claim.
        to_multiset_insert(t, p, e);
        to_multiset_build(s1, e);
        assert(s1.push(e) =~= s);
        // Unique titles carry over because e's title is absent from s1.
        assert(!has_title(s1, e.title@)) by {
            if has_title(s1, e.title@) {
                let i = choose|i: int| 0 <= i < s1.len() && s1[i].title@ == e.title@;
                assert(s[i].title@ == s[s.len() - 1].title@);
            }
        }
        assert(e.title@ == e.title@);
        lemma_insert_keeps_titles(t, p, e);
        assert(-RATING_LIMIT <= e.rating <= RATING_LIMIT) by {
            assert(s[s.len() - 1].rating == e.rating);
        }
        lemma_insert_titles_iff(t, p, e);
        assert forall|tt: Seq<char>| has_title(s, tt) implies has_title(s1, tt) || e.title@ == tt by {
            let i = choose|i: int| 0 <= i < s.len() && s[i].title@ == tt;
            if i < s.len() - 1 {
                assert(s1[i].title@ == tt);
            }
        }
        assert forall|tt: Seq<char>| has_title(s1, tt) implies has_title(s, tt) by {
            let i = choose|i: int| 0 <= i < s1.len() && s1[i].title@ == tt;
            assert(s[i].title@ == tt);
        }
    }
}

/// `lex_lt` computed on the machine.
fn title_lt(a: &str, b: &str) -> (r: bool)
    ensures
        r == lex_lt(a@, b@),
{
    let an = a.unicode_len();
    let bn = b.unicode_len();
    let mut i: usize = 0;
    proof {
        assert(a@.skip(0) =~= a@);
        assert(b@.skip(0) =~= b@);
    }
    while i < an && i < bn
        invariant
            i <= an,
            i <= bn,
            an == a@.len(),
            bn == b@.len(),
            lex_lt(a@, b@) == lex_lt(a@.skip(i as int), b@.skip(i as int)),
        decreases an - i,
    {
        let ca = a.get_char(i);
        let cb = b.get_char(i);
        proof {
            assert(a@.skip(i as int)[0] == a@[i as int]);
            assert(b@.skip(i as int)[0] == b@[i as int]);
        }
        if ca < cb {
            return true;
        }
        if cb < ca {
            return false;
        }
        proof {
            assert(a@.skip(i as int).drop_first() =~= a@.skip(i as int + 1));
            assert(b@.skip(i as int).drop_first() =~= b@.skip(i as int + 1));
        }
        i = i + 1;
    }
    i < bn
}

/// `entry_precedes` computed on the machine.
fn entry_precedes_exec(a: &Entry, b: &Entry) -> (r: bool)
    ensures
        r == entry_precedes(*a, *b),
{
    if a.rating > b.rating {
        true
    } else if a.rating == b.rating {
        title_lt(a.title.as_str(), b.title.as_str())
    } else {
        false
    }
}

/// Sorts a category's entries into the stored Elo order — rating
/// descending, title-ascending tiebreak: the result is exactly the
/// descending sort of the input.
pub fn sort_entries(v: &mut Vec<Entry>)
    ensures
        final(v)@ == sort_desc(old(v)@),
{
    let ghost orig = v@;
    let n = v.len();
    if n == 0 {
        proof {
            assert(v@ =~= sort_desc(orig));
        }
        return ;
    }
    let mut i: usize = 1;
    proof {
        assert(v@.subrange(0, 1) =~= sort_desc(orig.subrange(0, 1))) by {
            let pfx = orig.subrange(0, 1);
            assert(pfx.drop_last() =~= Seq::<Entry>::empty());
            assert(sort_desc(pfx.drop_last()) == Seq::<Entry>::empty());
            assert(insert_desc(Seq::<Entry>::empty(), pfx.last()) == seq![pfx.last()]);
            assert(v@.subrange(0, 1) =~= seq![pfx.last()]);
        }
        assert(v@.subrange(1, n as int) =~= orig.subrange(1, n as int));
    }
    while i < n
        invariant
            1 <= i <= n,
            v@.len() == n,
            orig.len() == n,
            v@.subrange(0, i as int) == sort_desc(orig.subrange(0, i as int)),
            v@.subrange(i as int, n as int) == orig.subrange(i as int, n as int),
        decreases n - i,
    {
        let ghost before = v@;
        let ghost pfx = before.subrange(0, i as int);
        let cand = clone_entry(&v[i]);
        let mut j: usize = 0;
        while j < i && entry_precedes_exec(&v[j], &cand)
            invariant
                j <= i < n,
                v@ == before,
                v@.len() == n,
                cand == before[i as int],
                forall|m: int| 0 <= m < j ==> entry_precedes(before[m], before[i as int]),
            decreases i - j,
        {
            j = j + 1;
        }
        let e = v.remove(i);
        v.insert(j, e);
        proof {
            let x = orig[i as int];
            assert(cand == x) by {
                assert(before.subrange(i as int, n as int)[0] == x);
            }
            lemma_insert_desc_is_insert(pfx, x);
            let p = insert_pos(pfx, x);
            assert(j == p) by {
                if j < p {
                    assert(entry_precedes(pfx[j as int], x));
                    assert(before[j as int] == pfx[j as int]);
                } else if j > p {
                    assert(before[p] == pfx[p]);
                }
            }
            assert(v@.subrange(0, i as int + 1) =~= pfx.insert(p, x)) by {
                assert(v@ == before.remove(i as int).insert(j as int, x));
                assert(forall|m: int| 0 <= m < i ==> before.remove(i as int)[m] == before[m]);
            }
            let pfx1 = orig.subrange(0, i as int + 1);
            assert(pfx1.drop_last() =~= orig.subrange(0, i as int));
            assert(pfx1.last() == x);
            assert(sort_desc(pfx1) == insert_desc(pfx, x));
            assert(v@.subrange(i as int + 1, n as int) =~= orig.subrange(i as int + 1, n as int))
                by {
                assert(forall|m: int| i + 1 <= m < n ==> v@[m] == before[m]);
                assert forall|m: int| i + 1 <= m < n implies before[m] == orig[m] by {
                    assert(before.subrange(i as int, n as int)[m - i] == orig.subrange(
                        i as int,
                        n as int,
                    )[m - i]);
                }
            }
        }
        i = i + 1;
    }
    proof {
        assert(v@ =~= v@.subrange(0, n as int));
        assert(orig =~= orig.subrange(0, n as int));
    }
}

/// Sortedness of the descending sort, with no well-formedness assumption on
/// the input.
pub proof fn lemma_sort_desc_sorted_only(s: Seq<Entry>)
    ensures
        sorted_desc(sort_desc(s)),
        sort_desc(s).len() == s.len(),
        sort_desc(s).to_multiset() == s.to_multiset(),
    decreases s.len(),
{
    if s.len() == 0 {
        assert(sort_desc(s) =~= s);
        assert(s.to_multiset() =~= Seq::<Entry>::empty().to_multiset());
    } else {
        let s1 = s.drop_last();
        let e = s.last();
        lemma_sort_desc_sorted_only(s1);
        let t = sort_desc(s1);
        lemma_insert_desc_is_insert(t, e);
        lemma_insert_desc_sorted(t, e);
        to_multiset_insert(t, insert_pos(t, e), e);
        to_multiset_build(s1, e);
        assert(s1.push(e) =~= s);
    }
}

} // verus!
