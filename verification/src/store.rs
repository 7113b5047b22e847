use vstd::prelude::*;
use crate::image_search::Image;

verus! {

/// Ratings live on a bounded scale so that every Elo update provably fits in
/// an `i64`.  Loading rejects scores outside this range.
pub const RATING_LIMIT: i64 = 1_000_000_000;

/// The rating given to a freshly created entry before any match is played.
pub const BASELINE_RATING: i64 = 400;

/// One ranked item: a title (unique within its category), an integer rating,
/// a stable identity that is never reused within one store, and an optional
/// illustration handle.
#[derive(Clone, Debug)]
pub struct Entry {
    pub title: String,
    pub rating: i64,
    pub id: u64,
    pub image: Option<Image>,
}

/// A named, ordered sequence of entries.  The stored order is the
/// authoritative ranking in order-statistic mode and is kept
/// rating-descending (title-ascending on ties) in Elo mode.
#[derive(Clone, Debug)]
pub struct Category {
    pub name: String,
    pub entries: Vec<Entry>,
}

/// Some entry of `s` carries the title `t`.
pub open spec fn has_title(s: Seq<Entry>, t: Seq<char>) -> bool {
    exists|i: int| 0 <= i < s.len() && s[i].title@ == t
}

/// No two entries of `s` share a title.
pub open spec fn unique_titles(s: Seq<Entry>) -> bool {
    forall|i: int, j: int| 0 <= i < j < s.len() ==> s[i].title@ != s[j].title@
}

/// Every rating of `s` lies on the bounded rating scale.
pub open spec fn ratings_bounded(s: Seq<Entry>) -> bool {
    forall|i: int| 0 <= i < s.len() ==> -RATING_LIMIT <= #[trigger] s[i].rating <= RATING_LIMIT
}

/// Some category of `cats` carries the name `n`.
pub open spec fn has_cat(cats: Seq<Category>, n: Seq<char>) -> bool {
    exists|i: int| 0 <= i < cats.len() && cats[i].name@ == n
}

/// No two categories of `cats` share a name.
pub open spec fn unique_names(cats: Seq<Category>) -> bool {
    forall|i: int, j: int| 0 <= i < j < cats.len() ==> cats[i].name@ != cats[j].name@
}

/// The consistency invariant of one category.
pub open spec fn category_wf(c: Category) -> bool {
    &&& unique_titles(c.entries@)
    &&& ratings_bounded(c.entries@)
}

/// The consistency invariant of a whole store of categories.
pub open spec fn store_wf(cats: Seq<Category>) -> bool {
    &&& unique_names(cats)
    &&& forall|i: int| 0 <= i < cats.len() ==> category_wf(#[trigger] cats[i])
}

/// An exact copy of an entry.  The derived `Clone` would not let us prove
/// that the copy equals the original, so the fields are rebuilt by hand.
pub fn clone_entry(e: &Entry) -> (r: Entry)
    ensures
        r == *e,
{
    let image = match &e.image {
        Some(img) => Some(Image { url: img.url.clone(), width: img.width, height: img.height }),
        None => None,
    };
    Entry { title: e.title.clone(), rating: e.rating, id: e.id, image }
}

/// The position of the first entry of `v` titled `t`, if any.
pub fn find_title(v: &Vec<Entry>, t: &String) -> (r: Option<usize>)
    ensures
        match r {
            Some(i) => i < v@.len() && v@[i as int].title@ == t@
                && forall|j: int| 0 <= j < i ==> v@[j].title@ != t@,
            None => !has_title(v@, t@),
        },
{
    let mut i: usize = 0;
    while i < v.len()
        invariant
            i <= v@.len(),
            forall|j: int| 0 <= j < i ==> v@[j].title@ != t@,
        decreases v@.len() - i,
    {
        if v[i].title.eq(t) {
            return Some(i);
        }
        i = i + 1;
    }
    None
}

/// The position of the first entry of `v` with identity `id`, if any.
pub fn find_id(v: &Vec<Entry>, id: u64) -> (r: Option<usize>)
    ensures
        match r {
            Some(i) => i < v@.len() && v@[i as int].id == id,
            None => forall|j: int| 0 <= j < v@.len() ==> v@[j].id != id,
        },
{
    let mut i: usize = 0;
    while i < v.len()
        invariant
            i <= v@.len(),
            forall|j: int| 0 <= j < i ==> v@[j].id != id,
        decreases v@.len() - i,
    {
        if v[i].id == id {
            return Some(i);
        }
        i = i + 1;
    }
    None
}

/// The position of the first category of `cats` named `n`, if any.
pub fn find_cat(cats: &Vec<Category>, n: &String) -> (r: Option<usize>)
    ensures
        match r {
            Some(i) => i < cats@.len() && cats@[i as int].name@ == n@
                && forall|j: int| 0 <= j < i ==> cats@[j].name@ != n@,
            None => !has_cat(cats@, n@),
        },
{
    let mut i: usize = 0;
    while i < cats.len()
        invariant
            i <= cats@.len(),
            forall|j: int| 0 <= j < i ==> cats@[j].name@ != n@,
        decreases cats@.len() - i,
    {
        if cats[i].name.eq(n) {
            return Some(i);
        }
        i = i + 1;
    }
    None
}

/// Removing an entry keeps the remaining titles unique and keeps ratings
/// bounded, and a title absent before stays absent.
pub proof fn lemma_remove_keeps_titles(s: Seq<Entry>, i: int)
    requires
        0 <= i < s.len(),
    ensures
        unique_titles(s) ==> unique_titles(s.remove(i)),
        ratings_bounded(s) ==> ratings_bounded(s.remove(i)),
        forall|t: Seq<char>| !has_title(s, t) ==> !has_title(s.remove(i), t),
        unique_titles(s) ==> !has_title(s.remove(i), s[i].title@),
{
    let r = s.remove(i);
    assert forall|t: Seq<char>| has_title(r, t) implies has_title(s, t) by {
        let k = choose|k: int| 0 <= k < r.len() && r[k].title@ == t;
        if k < i {
            assert(s[k].title@ == t);
        } else {
            assert(s[k + 1].title@ == t);
        }
    }
    if unique_titles(s) {
        assert forall|p: int, q: int| 0 <= p < q < r.len() implies r[p].title@ != r[q].title@ by {
            let sp = if p < i { p } else { p + 1 };
            let sq = if q < i { q } else { q + 1 };
            assert(r[p] == s[sp] && r[q] == s[sq] && sp < sq);
        }
        if has_title(r, s[i].title@) {
            let k = choose|k: int| 0 <= k < r.len() && r[k].title@ == s[i].title@;
            let sk = if k < i { k } else { k + 1 };
            assert(r[k] == s[sk] && sk != i);
        }
    }
    if ratings_bounded(s) {
        assert forall|p: int| 0 <= p < r.len() implies
            -RATING_LIMIT <= #[trigger] r[p].rating <= RATING_LIMIT by {
            let sp = if p < i { p } else { p + 1 };
            assert(r[p] == s[sp]);
        }
    }
}

/// Inserting an entry whose title is absent keeps titles unique, and keeps
/// ratings bounded when the new rating is on the scale.
pub proof fn lemma_insert_keeps_titles(s: Seq<Entry>, i: int, e: Entry)
    requires
        0 <= i <= s.len(),
        unique_titles(s),
        !has_title(s, e.title@),
    ensures
        unique_titles(s.insert(i, e)),
        ratings_bounded(s) && -RATING_LIMIT <= e.rating <= RATING_LIMIT
            ==> ratings_bounded(s.insert(i, e)),
{
    let r = s.insert(i, e);
    assert forall|p: int, q: int| 0 <= p < q < r.len() implies r[p].title@ != r[q].title@ by {
        if p != i && q != i {
            let sp = if p < i { p } else { p - 1 };
            let sq = if q < i { q } else { q - 1 };
            assert(r[p] == s[sp] && r[q] == s[sq] && 0 <= sp < sq < s.len());
        } else if p == i {
            let sq = q - 1;
            assert(r[q] == s[sq]);
        } else {
            let sp = p;
            assert(r[p] == s[sp]);
        }
    }
    if ratings_bounded(s) && -RATING_LIMIT <= e.rating <= RATING_LIMIT {
        assert forall|p: int| 0 <= p < r.len() implies
            -RATING_LIMIT <= #[trigger] r[p].rating <= RATING_LIMIT by {
            if p != i {
                let sp = if p < i { p } else { p - 1 };
                assert(r[p] == s[sp]);
            }
        }
    }
}

} // verus!
