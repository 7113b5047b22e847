use vstd::prelude::*;
use crate::store::{Category, RATING_LIMIT};

verus! {

/// One spreadsheet cell, as the storage collaborator hands it over or takes
/// it: empty, a piece of text, or an integer score.
#[derive(Clone, Debug, PartialEq, Eq)]
pub enum CellValue {
    Empty,
    Text(String),
    Number(i64),
}

/// The title column a category is written to: the category name as the
/// header, then one title per entry, best to worst.
pub open spec fn title_column(c: Category) -> Seq<CellValue> {
    Seq::new(
        c.entries@.len() + 1,
        |r: int|
            if r == 0 {
                CellValue::Text(c.name)
            } else {
                CellValue::Text(c.entries@[r - 1].title)
            },
    )
}

/// The score column written beside a title column: an empty header, then
/// one rating per entry.
pub open spec fn rating_column(c: Category) -> Seq<CellValue> {
    Seq::new(
        c.entries@.len() + 1,
        |r: int|
            if r == 0 {
                CellValue::Empty
            } else {
                CellValue::Number(c.entries@[r - 1].rating)
            },
    )
}

/// The whole grid a store is written to, column by column: each category
/// owns two adjacent columns.
pub open spec fn cells_of(cats: Seq<Category>) -> Seq<Seq<CellValue>> {
    Seq::new(
        2 * cats.len(),
        |j: int|
            if j % 2 == 0 {
                title_column(cats[j / 2])
            } else {
                rating_column(cats[j / 2])
            },
    )
}

/// A well-formed pair of adjacent columns: a text header over titles, an
/// empty header over on-scale integer scores of the same length, and no
/// title repeated.
pub open spec fn column_pair_ok(ta: Seq<CellValue>, tb: Seq<CellValue>) -> bool {
    &&& ta.len() >= 1
    &&& tb.len() == ta.len()
    &&& ta[0] is Text
    &&& tb[0] is Empty
    &&& forall|r: int| 1 <= r < ta.len() ==> (#[trigger] ta[r]) is Text
    &&& forall|r: int|
        1 <= r < tb.len() ==> (#[trigger] tb[r]) is Number && -RATING_LIMIT <= tb[r]->Number_0
            <= RATING_LIMIT
    &&& forall|r: int, s: int| 1 <= r < s < ta.len() ==> ta[r]->Text_0@ != ta[s]->Text_0@
}

/// A whole grid the loader accepts: column pairs, each well formed, with no
/// category name repeated.
pub open spec fn grid_ok(grid: Seq<Seq<CellValue>>) -> bool {
    &&& grid.len() % 2 == 0
    &&& forall|k: int| 0 <= k < grid.len() / 2 ==> column_pair_ok(#[trigger] grid[2 * k], grid[2 * k + 1])
    &&& forall|k: int, l: int|
        0 <= k < l < grid.len() / 2 ==> (#[trigger] grid[2 * k])[0]->Text_0@
            != (#[trigger] grid[2 * l])[0]->Text_0@
}

/// What one well-formed column pair denotes: a category name and its
/// (title, rating) list.
pub open spec fn pair_view(ta: Seq<CellValue>, tb: Seq<CellValue>) -> (
    Seq<char>,
    Seq<(Seq<char>, int)>,
) {
    (
        ta[0]->Text_0@,
        Seq::new(
            (ta.len() - 1) as nat,
            |r: int| (ta[r + 1]->Text_0@, tb[r + 1]->Number_0 as int),
        ),
    )
}

/// What a whole well-formed grid denotes, category by category.
pub open spec fn parsed_cats(grid: Seq<Seq<CellValue>>) -> Seq<(Seq<char>, Seq<(Seq<char>, int)>)> {
    Seq::new((grid.len() / 2) as nat, |k: int| pair_view(grid[2 * k], grid[2 * k + 1]))
}

/// The persistent projection of one category: its name and its
/// (title, rating) list, in stored order.
pub open spec fn cat_view(c: Category) -> (Seq<char>, Seq<(Seq<char>, int)>) {
    (c.name@, c.entries@.map_values(|e: crate::store::Entry| (e.title@, e.rating as int)))
}

/// The persistent projection of a whole store.
pub open spec fn cats_view(cats: Seq<Category>) -> Seq<(Seq<char>, Seq<(Seq<char>, int)>)> {
    cats.map_values(|c: Category| cat_view(c))
}

/// Saving and loading round-trip: the grid a well-formed store is written
/// to is accepted by the loader, and it denotes exactly the store's
/// categories — the same names in the same order, each with the same
/// (title, rating) list.
pub proof fn lemma_save_load_round_trip(cats: Seq<Category>)
    requires
        crate::store::store_wf(cats),
    ensures
        grid_ok(cells_of(cats)),
        parsed_cats(cells_of(cats)) == cats_view(cats),
{
    let grid = cells_of(cats);
    assert forall|k: int| 0 <= k < grid.len() / 2 implies column_pair_ok(
        #[trigger] grid[2 * k],
        grid[2 * k + 1],
    ) by {
        assert((2 * k) / 2 == k && (2 * k + 1) / 2 == k);
        assert(grid[2 * k] == title_column(cats[k]));
        assert(grid[2 * k + 1] == rating_column(cats[k]));
        lemma_category_pair_ok(cats[k]);
    }
    assert forall|k: int, l: int| 0 <= k < l < grid.len() / 2 implies (#[trigger] grid[2 * k])[0]->Text_0@
        != (#[trigger] grid[2 * l])[0]->Text_0@ by {
        assert(grid[2 * k] == title_column(cats[k]));
        assert(grid[2 * l] == title_column(cats[l]));
    }
    let p = parsed_cats(grid);
    let v = cats_view(cats);
    assert forall|k: int| 0 <= k < p.len() implies p[k] == v[k] by {
        assert((2 * k) / 2 == k && (2 * k + 1) / 2 == k);
        assert(grid[2 * k] == title_column(cats[k]));
        assert(grid[2 * k + 1] == rating_column(cats[k]));
        assert(p[k].1 =~= v[k].1);
    }
    assert(p =~= v);
}

/// Checks one column pair against the accepted shape and takes its name,
/// titles and ratings out of it.  Returns `None` exactly when the pair is
/// not well formed.
pub fn check_and_parse_pair(ta: &Vec<CellValue>, tb: &Vec<CellValue>) -> (parsed: Option<
    (String, Vec<String>, Vec<i64>),
>)
    ensures
        match parsed {
            Some(t) => {
                &&& column_pair_ok(ta@, tb@)
                &&& t.0@ == ta@[0]->Text_0@
                &&& t.1@.len() == ta@.len() - 1
                &&& t.2@.len() == ta@.len() - 1
                &&& (forall|i: int| 0 <= i < t.1@.len() ==> t.1@[i]@ == ta@[i + 1]->Text_0@)
                &&& (forall|i: int| 0 <= i < t.2@.len() ==> t.2@[i] == tb@[i + 1]->Number_0)
            },
            None => !column_pair_ok(ta@, tb@),
        },
{
    if ta.len() < 1 || tb.len() != ta.len() {
        return None;
    }
    let name = match &ta[0] {
        CellValue::Text(s) => s.clone(),
        _ => {
            return None;
        },
    };
    match &tb[0] {
        CellValue::Empty => {},
        _ => {
            return None;
        },
    }
    let n = ta.len();
    let mut titles: Vec<String> = Vec::new();
    let mut ratings: Vec<i64> = Vec::new();
    let mut r: usize = 1;
    while r < n
        invariant
            1 <= r <= n,
            n == ta@.len(),
            n == tb@.len(),
            titles@.len() == r - 1,
            ratings@.len() == r - 1,
            forall|q: int| 1 <= q < r ==> (#[trigger] ta@[q]) is Text,
            forall|q: int|
                1 <= q < r ==> (#[trigger] tb@[q]) is Number && -RATING_LIMIT <= tb@[q]->Number_0
                    <= RATING_LIMIT,
            forall|i: int| 0 <= i < r - 1 ==> titles@[i]@ == ta@[i + 1]->Text_0@,
            forall|i: int| 0 <= i < r - 1 ==> ratings@[i] == tb@[i + 1]->Number_0,
        decreases n - r,
    {
        match &ta[r] {
            CellValue::Text(s) => {
                titles.push(s.clone());
            },
            _ => {
                return None;
            },
        }
        match &tb[r] {
            CellValue::Number(v) => {
                if *v < -RATING_LIMIT || *v > RATING_LIMIT {
                    return None;
                }
                ratings.push(*v);
            },
            _ => {
                return None;
            },
        }
        r = r + 1;
    }
    let m = titles.len();
    let mut a: usize = 0;
    while a < m
        invariant
            a <= m,
            m == titles@.len(),
            m == ta@.len() - 1,
            forall|i: int| 0 <= i < m ==> titles@[i]@ == ta@[i + 1]->Text_0@,
            forall|p: int, q: int| 0 <= p < a && p < q < m ==> titles@[p]@ != titles@[q]@,
        decreases m - a,
    {
        let mut b: usize = a + 1;
        while b < m
            invariant
                a < b <= m,
                a < m,
                m == titles@.len(),
                m == ta@.len() - 1,
                forall|i: int| 0 <= i < m ==> titles@[i]@ == ta@[i + 1]->Text_0@,
                forall|q: int| a < q < b ==> titles@[a as int]@ != titles@[q]@,
            decreases m - b,
        {
            if titles[a].eq(&titles[b]) {
                proof {
                    assert(ta@[a as int + 1]->Text_0@ == ta@[b as int + 1]->Text_0@);
                    assert(1 <= a as int + 1 < b as int + 1 < ta@.len());
                }
                return None;
            }
            b = b + 1;
        }
        a = a + 1;
    }
    proof {
        assert forall|rr: int, ss: int| 1 <= rr < ss < ta@.len() implies ta@[rr]->Text_0@
            != ta@[ss]->Text_0@ by {
            assert(titles@[rr - 1]@ == ta@[rr]->Text_0@);
            assert(titles@[ss - 1]@ == ta@[ss]->Text_0@);
            assert(titles@[rr - 1]@ != titles@[ss - 1]@);
        }
    }
    Some((name, titles, ratings))
}

/// A well-formed category writes a well-formed column pair.
proof fn lemma_category_pair_ok(c: Category)
    requires
        crate::store::category_wf(c),
    ensures
        column_pair_ok(title_column(c), rating_column(c)),
{
}

} // verus!
