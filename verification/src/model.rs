use vstd::prelude::*;
use crate::errors::RankError;
use crate::store::{
    Category, Entry, has_cat, has_title, unique_names, unique_titles, ratings_bounded, store_wf,
    category_wf, find_cat, find_title, clone_entry, RATING_LIMIT, BASELINE_RATING,
};

verus! {

/// Which update rule judged matches feed.
#[derive(Clone, Copy, Debug, PartialEq, Eq, Structural)]
pub enum Strategy {
    /// The stored order is the authoritative ranking; matches move entries
    /// by position (binary insertion and adjacent-swap repair).
    OrderStatistic,
    /// Entries carry continuous ratings updated by the Elo rule with
    /// sensitivity `k`; `clamped` additionally forces every updated rating
    /// onto the compressed display scale.
    Elo { k: i64, clamped: bool },
}

/// The resumable state of the ranking session, held as plain data so that a
/// session survives being persisted and resumed.
pub enum SessionState {
    /// No match is awaiting a decision.
    Idle,
    /// A candidate entry is being placed by binary insertion into the named
    /// category.  The open positions are `lower..=upper`; `restore_at`
    /// remembers where an extracted entry came from, so a cancelled re-rank
    /// can put it back exactly; `outcomes` records every judgment taken so
    /// far as (opponent position, candidate won).
    InsertingNewEntry {
        category: String,
        candidate: Entry,
        lower: usize,
        upper: usize,
        restore_at: Option<usize>,
        outcomes: Ghost<Seq<(int, bool)>>,
    },
    /// A directional adjacent-swap pass over the named category, currently
    /// comparing positions `index` and `index + 1`.
    RepairPass { category: String, index: usize, ascending: bool },
    /// An Elo match between the entries at `left` and `right` of the named
    /// category, with `remaining` matches still to play.  A pinned entry is
    /// kept as the left side of every match of its sub-session.
    AwaitingEloDecision {
        category: String,
        left: usize,
        right: usize,
        remaining: usize,
        pinned: Option<u64>,
    },
}

/// The judgments recorded by a binary insertion are consistent with its
/// bounds: every opponent the candidate beat sits at or above `upper`, and
/// every opponent the candidate lost to sits below `lower`.
pub open spec fn insert_outcomes_ok(os: Seq<(int, bool)>, lower: int, upper: int) -> bool {
    forall|k: int|
        0 <= k < os.len() ==> {
            let o = #[trigger] os[k];
            &&& 0 <= o.0
            &&& (o.1 ==> upper <= o.0)
            &&& (!o.1 ==> o.0 < lower)
        }
}

/// The ranking engine: categories of entries, one strategy fixed at
/// construction, and the resumable session driving pairwise judgments.
pub struct Model {
    pub categories: Vec<Category>,
    pub session: SessionState,
    pub strategy: Strategy,
    /// The next stable entry identity; identities are never reused.
    pub next_id: u64,
}

impl Model {
    /// The strategy's parameters are on their legal scale.
    pub open spec fn strategy_wf(&self) -> bool {
        match self.strategy {
            Strategy::Elo { k, .. } => 1 <= k <= 1024,
            Strategy::OrderStatistic => true,
        }
    }

    /// The session holds only states its strategy can produce, with
    /// consistent protocol data.
    pub open spec fn session_wf(&self) -> bool {
        match self.session {
            SessionState::Idle => true,
            SessionState::InsertingNewEntry { lower, upper, candidate, outcomes, .. } => {
                &&& self.strategy is OrderStatistic
                &&& lower < upper
                &&& -RATING_LIMIT <= candidate.rating <= RATING_LIMIT
                &&& insert_outcomes_ok(outcomes@, lower as int, upper as int)
            },
            SessionState::RepairPass { .. } => self.strategy is OrderStatistic,
            SessionState::AwaitingEloDecision { left, right, remaining, .. } => {
                &&& self.strategy is Elo
                &&& left != right
                &&& remaining >= 1
            },
        }
    }

    /// The engine's consistency invariant: category names unique, titles
    /// unique and ratings on scale within each category, and a session its
    /// strategy can produce.
    pub open spec fn wf(&self) -> bool {
        &&& store_wf(self.categories@)
        &&& self.strategy_wf()
        &&& self.session_wf()
    }

    /// The position of the category named `n`, where one exists.
    pub open spec fn cat_index(&self, n: Seq<char>) -> int {
        choose|i: int| 0 <= i < self.categories@.len() && self.categories@[i].name@ == n
    }

    /// A fresh engine with no categories, ranking by position.
    pub fn new() -> (m: Model)
        ensures
            m.wf(),
            m.categories@.len() == 0,
            m.session is Idle,
            m.strategy == Strategy::OrderStatistic,
            m.next_id == 0,
    {
        Model {
            categories: Vec::new(),
            session: SessionState::Idle,
            strategy: Strategy::OrderStatistic,
            next_id: 0,
        }
    }

    /// A fresh engine ranking by continuous rating, with per-deployment
    /// sensitivity `k`, optionally clamping every update onto the
    /// compressed display scale.
    pub fn new_elo(k: i64, clamped: bool) -> (m: Model)
        requires
            1 <= k <= 1024,
        ensures
            m.wf(),
            m.categories@.len() == 0,
            m.session is Idle,
            m.strategy == (Strategy::Elo { k, clamped }),
            m.next_id == 0,
    {
        Model {
            categories: Vec::new(),
            session: SessionState::Idle,
            strategy: Strategy::Elo { k, clamped },
            next_id: 0,
        }
    }

    /// Makes a new, empty category.  Fails if the name is taken, leaving
    /// the engine untouched.
    pub fn create_category(&mut self, category: String) -> (result: Result<(), RankError>)
        requires
            old(self).wf(),
        ensures
            final(self).wf(),
            final(self).session == old(self).session,
            final(self).strategy == old(self).strategy,
            final(self).next_id == old(self).next_id,
            match result {
                Ok(()) => {
                    &&& !has_cat(old(self).categories@, category@)
                    &&& final(self).categories@.len() == old(self).categories@.len() + 1
                    &&& forall|j: int|
                        0 <= j < old(self).categories@.len() ==> final(self).categories@[j] == old(
                            self,
                        ).categories@[j]
                    &&& final(self).categories@.last().name@ == category@
                    &&& final(self).categories@.last().entries@.len() == 0
                },
                Err(e) => {
                    &&& e == RankError::DuplicateCategory
                    &&& has_cat(old(self).categories@, category@)
                    &&& final(self).categories@ == old(self).categories@
                },
            },
    {
        if find_cat(&self.categories, &category).is_some() {
            return Err(RankError::DuplicateCategory);
        }
        let ghost before = self.categories@;
        self.categories.push(Category { name: category, entries: Vec::new() });
        proof {
            assert forall|i: int, j: int|
                0 <= i < j < self.categories@.len() implies self.categories@[i].name@
                != self.categories@[j].name@ by {
                if j < self.categories@.len() - 1 {
                    assert(self.categories@[i] == before[i] && self.categories@[j] == before[j]);
                } else {
                    assert(self.categories@[i] == before[i]);
                }
            }
            assert forall|i: int| 0 <= i < self.categories@.len() implies category_wf(
                #[trigger] self.categories@[i],
            ) by {
                if i < self.categories@.len() - 1 {
                    assert(self.categories@[i] == before[i]);
                }
            }
        }
        Ok(())
    }

    /// Removes a category and every entry in it.  Removing an absent name
    /// is a no-op.
    pub fn delete_category(&mut self, category: &String)
        requires
            old(self).wf(),
        ensures
            final(self).wf(),
            final(self).session == old(self).session,
            final(self).strategy == old(self).strategy,
            final(self).next_id == old(self).next_id,
            has_cat(old(self).categories@, category@) ==> {
                let i = old(self).cat_index(category@);
                &&& 0 <= i < old(self).categories@.len()
                &&& old(self).categories@[i].name@ == category@
                &&& final(self).categories@ == old(self).categories@.remove(i)
            },
            !has_cat(old(self).categories@, category@) ==> final(self).categories@ == old(
                self,
            ).categories@,
    {
        let found = find_cat(&self.categories, category);
        match found {
            Some(i) => {
                let ghost before = self.categories@;
                self.categories.remove(i);
                proof {
                    assert(i as int == old(self).cat_index(category@)) by {
                        let ci = old(self).cat_index(category@);
                        assert(0 <= ci < before.len() && before[ci].name@ == category@);
                    }
                    lemma_remove_cat_wf(before, i as int);
                }
            },
            None => {},
        }
    }

    /// The names of all categories, in stored order.
    pub fn get_categories(&self) -> (names: Vec<String>)
        ensures
            names@.len() == self.categories@.len(),
            forall|i: int|
                0 <= i < names@.len() ==> names@[i]@ == #[trigger] self.categories@[i].name@,
    {
        let mut names: Vec<String> = Vec::new();
        let mut i: usize = 0;
        while i < self.categories.len()
            invariant
                i <= self.categories@.len(),
                names@.len() == i,
                forall|j: int|
                    0 <= j < i ==> names@[j]@ == #[trigger] self.categories@[j].name@,
            decreases self.categories@.len() - i,
        {
            names.push(self.categories[i].name.clone());
            i = i + 1;
        }
        names
    }

    /// The live ordered entries of a category.  The category must exist;
    /// asking for an absent one is a programmer error.
    pub fn get_category_entries(&self, category: &String) -> (entries: &Vec<Entry>)
        requires
            self.wf(),
            has_cat(self.categories@, category@),
        ensures
            entries@ == self.categories@[self.cat_index(category@)].entries@,
            self.categories@[self.cat_index(category@)].name@ == category@,
            0 <= self.cat_index(category@) < self.categories@.len(),
    {
        let found = find_cat(&self.categories, category);
        match found {
            Some(i) => {
                proof {
                    lemma_cat_index_unique(self, i as int, category@);
                }
                &self.categories[i].entries
            },
            None => {
                proof {
                    assert(false);
                }
                unreached()
            },
        }
    }

    /// How many entries a category holds.  The category must exist.
    pub fn get_num_entries(&self, category: &String) -> (n: usize)
        requires
            self.wf(),
            has_cat(self.categories@, category@),
        ensures
            n == self.categories@[self.cat_index(category@)].entries@.len(),
    {
        self.get_category_entries(category).len()
    }

    /// The title of the entry at `index` of a category.  Both must exist;
    /// an out-of-range index is a programmer error.
    pub fn get_entry(&self, category: &String, index: usize) -> (title: String)
        requires
            self.wf(),
            has_cat(self.categories@, category@),
            index < self.categories@[self.cat_index(category@)].entries@.len(),
        ensures
            title@ == self.categories@[self.cat_index(category@)].entries@[index as int].title@,
    {
        let entries = self.get_category_entries(category);
        entries[index].title.clone()
    }

    /// Whether a session is awaiting a decision.
    pub fn is_ranking(&self) -> (b: bool)
        ensures
            b == !(self.session is Idle),
    {
        match &self.session {
            SessionState::Idle => false,
            _ => true,
        }
    }

    /// Renames the entry at `index`.  Fails with the position of the clash
    /// if another entry of the category already carries the new name,
    /// leaving the engine untouched.  Renaming an entry to its own name is
    /// allowed.  The category and index must exist.
    pub fn rename_entry(&mut self, category: &String, index: usize, new_name: String) -> (result:
        Result<(), RankError>)
        requires
            old(self).wf(),
            has_cat(old(self).categories@, category@),
            index < old(self).categories@[old(self).cat_index(category@)].entries@.len(),
        ensures
            final(self).wf(),
            final(self).session == old(self).session,
            final(self).strategy == old(self).strategy,
            final(self).next_id == old(self).next_id,
            ({
                let ci = old(self).cat_index(category@);
                let olde = old(self).categories@[ci].entries@;
                match result {
                    Ok(()) => {
                        let ne = final(self).categories@[ci].entries@[index as int];
                        &&& forall|j: int| 0 <= j < olde.len() && j != index ==> olde[j].title@
                            != new_name@
                        &&& ne.title@ == new_name@
                        &&& ne.rating == olde[index as int].rating
                        &&& ne.id == olde[index as int].id
                        &&& ne.image == olde[index as int].image
                        &&& final(self).categories@ == old(self).categories@.update(
                            ci,
                            Category {
                                name: old(self).categories@[ci].name,
                                entries: final(self).categories@[ci].entries,
                            },
                        )
                        &&& final(self).categories@[ci].entries@ == olde.update(index as int, ne)
                    },
                    Err(e) => {
                        &&& e matches RankError::DuplicateEntry(p)
                        &&& 0 <= (p as int) < olde.len()
                        &&& p != index
                        &&& olde[p as int].title@ == new_name@
                        &&& final(self).categories@ == old(self).categories@
                    },
                }
            }),
    {
        let ci = match find_cat(&self.categories, category) {
            Some(i) => i,
            None => {
                proof {
                    assert(false);
                }
                unreached()
            },
        };
        proof {
            lemma_cat_index_unique(self, ci as int, category@);
        }
        match find_title(&self.categories[ci].entries, &new_name) {
            Some(p) => {
                if p != index {
                    return Err(RankError::DuplicateEntry(p));
                }
            },
            None => {},
        }
        let ghost before = self.categories@;
        let old_entry = clone_entry(&self.categories[ci].entries[index]);
        let ne = Entry {
            title: new_name,
            rating: old_entry.rating,
            id: old_entry.id,
            image: old_entry.image,
        };
        let cat = &mut self.categories[ci];
        cat.entries[index] = ne;
        proof {
            let cin = ci as int;
            assert(unique_names(self.categories@)) by {
                assert(forall|j: int|
                    0 <= j < self.categories@.len() ==> #[trigger] self.categories@[j].name@
                        == before[j].name@);
            }
            assert forall|i: int| 0 <= i < self.categories@.len() implies category_wf(
                #[trigger] self.categories@[i],
            ) by {
                if i != cin {
                    assert(self.categories@[i] == before[i]);
                } else {
                    let ee = self.categories@[cin].entries@;
                    let oe = before[cin].entries@;
                    assert(forall|j: int| 0 <= j < ee.len() && j != index ==> ee[j] == oe[j]);
                    assert(unique_titles(ee)) by {
                        assert forall|p: int, q: int| 0 <= p < q < ee.len() implies ee[p].title@
                            != ee[q].title@ by {
                            if p != index && q != index {
                                assert(ee[p] == oe[p] && ee[q] == oe[q]);
                            }
                        }
                    }
                }
            }
        }
        Ok(())
    }

    /// Removes the entry at `index` of a category.  Both must exist; an
    /// out-of-range index is a programmer error.
    pub fn delete_entry(&mut self, category: &String, index: usize)
        requires
            old(self).wf(),
            has_cat(old(self).categories@, category@),
            index < old(self).categories@[old(self).cat_index(category@)].entries@.len(),
        ensures
            final(self).wf(),
            final(self).session == old(self).session,
            final(self).strategy == old(self).strategy,
            final(self).next_id == old(self).next_id,
            ({
                let ci = old(self).cat_index(category@);
                &&& final(self).categories@ == old(self).categories@.update(
                    ci,
                    Category {
                        name: old(self).categories@[ci].name,
                        entries: final(self).categories@[ci].entries,
                    },
                )
                &&& final(self).categories@[ci].entries@ == old(self).categories@[ci].entries@
                    .remove(index as int)
            }),
    {
        let ci = match find_cat(&self.categories, category) {
            Some(i) => i,
            None => {
                proof {
                    assert(false);
                }
                unreached()
            },
        };
        proof {
            lemma_cat_index_unique(self, ci as int, category@);
        }
        let ghost before = self.categories@;
        let cat = &mut self.categories[ci];
        cat.entries.remove(index);
        proof {
            let cin = ci as int;
            assert(unique_names(self.categories@)) by {
                assert(forall|j: int|
                    0 <= j < self.categories@.len() ==> #[trigger] self.categories@[j].name@
                        == before[j].name@);
            }
            crate::store::lemma_remove_keeps_titles(before[cin].entries@, index as int);
            assert forall|i: int| 0 <= i < self.categories@.len() implies category_wf(
                #[trigger] self.categories@[i],
            ) by {
                if i != cin {
                    assert(self.categories@[i] == before[i]);
                }
            }
        }
    }

    /// The pair the oracle is being asked about, as (left title, left
    /// position, right title, right position), or `None` when no judgment
    /// is awaited.  During a binary insertion the left side is the
    /// candidate, shown with the category length as its position, since it
    /// holds no rank yet.  A pure query: the engine is never changed.  If a
    /// direct mutation has invalidated the session's positions, the query
    /// reports no match.
    pub fn get_current_match(&self) -> (m: Option<(String, usize, String, usize)>)
        requires
            self.wf(),
        ensures
            match self.session {
                SessionState::Idle => m is None,
                SessionState::InsertingNewEntry { category, candidate, lower, upper, .. } => {
                    let es = self.categories@[self.cat_index(category@)].entries@;
                    let mid = (lower + upper) as int / 2;
                    if has_cat(self.categories@, category@) && upper <= es.len() {
                        m matches Some(t) && t.0@ == candidate.title@ && t.1 == es.len() && t.2@
                            == es[mid].title@ && t.3 as int == mid
                    } else {
                        m is None
                    }
                },
                SessionState::RepairPass { category, index, .. } => {
                    let es = self.categories@[self.cat_index(category@)].entries@;
                    if has_cat(self.categories@, category@) && index + 1 < es.len() {
                        m matches Some(t) && t.0@ == es[index as int].title@ && t.1 == index
                            && t.2@ == es[index as int + 1].title@ && t.3 == index + 1
                    } else {
                        m is None
                    }
                },
                SessionState::AwaitingEloDecision { category, left, right, .. } => {
                    let es = self.categories@[self.cat_index(category@)].entries@;
                    if has_cat(self.categories@, category@) && left < es.len() && right
                        < es.len() {
                        m matches Some(t) && t.0@ == es[left as int].title@ && t.1 == left && t.2@
                            == es[right as int].title@ && t.3 == right
                    } else {
                        m is None
                    }
                },
            },
    {
        match &self.session {
            SessionState::Idle => None,
            SessionState::InsertingNewEntry { category, candidate, lower, upper, .. } => {
                match find_cat(&self.categories, category) {
                    Some(ci) => {
                        proof {
                            lemma_cat_index_unique(self, ci as int, category@);
                        }
                        let es = &self.categories[ci].entries;
                        if *upper <= es.len() {
                            let mid = *lower + (*upper - *lower) / 2;
                            proof {
                                vstd::arithmetic::div_mod::lemma_hoist_over_denominator(
                                    *upper - *lower,
                                    *lower as int,
                                    2,
                                );
                            }
                            Some((candidate.title.clone(), es.len(), es[mid].title.clone(), mid))
                        } else {
                            None
                        }
                    },
                    None => None,
                }
            },
            SessionState::RepairPass { category, index, .. } => {
                match find_cat(&self.categories, category) {
                    Some(ci) => {
                        proof {
                            lemma_cat_index_unique(self, ci as int, category@);
                        }
                        let es = &self.categories[ci].entries;
                        if *index < es.len() && *index + 1 < es.len() {
                            Some((
                                es[*index].title.clone(),
                                *index,
                                es[*index + 1].title.clone(),
                                *index + 1,
                            ))
                        } else {
                            None
                        }
                    },
                    None => None,
                }
            },
            SessionState::AwaitingEloDecision { category, left, right, .. } => {
                match find_cat(&self.categories, category) {
                    Some(ci) => {
                        proof {
                            lemma_cat_index_unique(self, ci as int, category@);
                        }
                        let es = &self.categories[ci].entries;
                        if *left < es.len() && *right < es.len() {
                            Some((
                                es[*left].title.clone(),
                                *left,
                                es[*right].title.clone(),
                                *right,
                            ))
                        } else {
                            None
                        }
                    },
                    None => None,
                }
            },
        }
    }

    /// Feeds the oracle's judgment of the current match into the active
    /// strategy.  `left_won` names the winner of the pair that
    /// `get_current_match` returned.  Fails with `NoActiveMatch` when no
    /// session is running.  If a direct mutation invalidated the session's
    /// positions meanwhile, the session is abandoned with `InvalidState`.
    ///
    /// During a binary insertion the judgment halves the open positions,
    /// strictly shrinking the oracle-call measure `insert_steps_left`; the
    /// final splice position is consistent with every recorded judgment.
    /// During a repair pass an out-of-order pair is swapped in place.  After
    /// an Elo judgment both ratings are updated by the Elo rule and the
    /// category is re-sorted into rating-descending order, ratings that tie
    /// ordered by ascending title.
    pub fn report_match_winner(&mut self, left_won: bool) -> (result: Result<(), RankError>)
        requires
            old(self).wf(),
        ensures
            final(self).wf(),
            final(self).strategy == old(self).strategy,
            final(self).next_id == old(self).next_id,
            match old(self).session {
                SessionState::Idle => {
                    &&& result == Err::<(), RankError>(RankError::NoActiveMatch)
                    &&& final(self).categories@ == old(self).categories@
                    &&& final(self).session is Idle
                },
                SessionState::InsertingNewEntry {
                    category,
                    candidate,
                    lower,
                    upper,
                    restore_at,
                    outcomes,
                } => {
                    let ci = old(self).cat_index(category@);
                    let es = old(self).categories@[ci].entries@;
                    let mid = (lower + upper) as int / 2;
                    let l2 = if left_won {
                        lower as int
                    } else {
                        mid + 1
                    };
                    let u2 = if left_won {
                        mid
                    } else {
                        upper as int
                    };
                    let recorded = outcomes@.push((mid, left_won));
                    if has_cat(old(self).categories@, category@) && upper <= es.len() {
                        &&& crate::order_stat::insert_steps_left(l2, u2)
                            < crate::order_stat::insert_steps_left(lower as int, upper as int)
                        &&& if l2 < u2 {
                            &&& result is Ok
                            &&& final(self).categories@ == old(self).categories@
                            &&& final(self).session matches SessionState::InsertingNewEntry {
                                category: c2,
                                candidate: cd2,
                                lower: nl,
                                upper: nu,
                                restore_at: r2,
                                outcomes: o2,
                            } && c2 == category && cd2 == candidate && nl as int == l2 && nu as int
                                == u2 && r2 == restore_at && o2@ == recorded
                        } else if !has_title(es, candidate.title@) {
                            &&& result is Ok
                            &&& final(self).session is Idle
                            &&& updated_entries(
                                old(self).categories@,
                                final(self).categories@,
                                ci,
                                es.insert(l2, candidate),
                            )
                            &&& forall|q: int|
                                0 <= q < recorded.len() ==> {
                                    let o = #[trigger] recorded[q];
                                    &&& (o.1 ==> l2 <= o.0)
                                    &&& (!o.1 ==> o.0 < l2)
                                }
                        } else {
                            &&& result == Err::<(), RankError>(RankError::InvalidState)
                            &&& final(self).categories@ == old(self).categories@
                            &&& final(self).session is Idle
                        }
                    } else {
                        &&& result == Err::<(), RankError>(RankError::InvalidState)
                        &&& final(self).categories@ == old(self).categories@
                        &&& final(self).session is Idle
                    }
                },
                SessionState::RepairPass { category, index, ascending } => {
                    let ci = old(self).cat_index(category@);
                    let es = old(self).categories@[ci].entries@;
                    let ii = index as int;
                    if has_cat(old(self).categories@, category@) && index + 1 < es.len() {
                        &&& result is Ok
                        &&& updated_entries(
                            old(self).categories@,
                            final(self).categories@,
                            ci,
                            if left_won {
                                es
                            } else {
                                es.update(ii, es[ii + 1]).update(ii + 1, es[ii])
                            },
                        )
                        &&& if ascending && index + 2 < es.len() {
                            final(self).session matches SessionState::RepairPass {
                                category: c2,
                                index: i2,
                                ascending: a2,
                            } && c2 == category && i2 == index + 1 && a2 == ascending
                        } else if !ascending && index > 0 {
                            final(self).session matches SessionState::RepairPass {
                                category: c2,
                                index: i2,
                                ascending: a2,
                            } && c2 == category && i2 == index - 1 && a2 == ascending
                        } else {
                            final(self).session is Idle
                        }
                    } else {
                        &&& result == Err::<(), RankError>(RankError::InvalidState)
                        &&& final(self).categories@ == old(self).categories@
                        &&& final(self).session is Idle
                    }
                },
                SessionState::AwaitingEloDecision { category, left, right, remaining, pinned } => {
                    let ci = old(self).cat_index(category@);
                    let es = old(self).categories@[ci].entries@;
                    let wi = if left_won {
                        left as int
                    } else {
                        right as int
                    };
                    let li = if left_won {
                        right as int
                    } else {
                        left as int
                    };
                    if has_cat(old(self).categories@, category@) && left < es.len() && right
                        < es.len() {
                        &&& result is Ok
                        &&& (old(self).strategy matches Strategy::Elo { k, clamped } ==> {
                            let es2 = crate::sort::sort_desc(
                                elo_updated_entries(es, wi, li, k as int, clamped),
                            );
                            &&& updated_entries(
                                old(self).categories@,
                                final(self).categories@,
                                ci,
                                es2,
                            )
                            &&& crate::sort::sorted_desc(final(self).categories@[ci].entries@)
                        })
                        &&& (remaining == 1 ==> final(self).session is Idle)
                        &&& (final(self).session is Idle || (final(self).session
                            matches SessionState::AwaitingEloDecision {
                            category: c2,
                            left: l2,
                            right: r2,
                            remaining: rem2,
                            pinned: p2,
                        } && c2 == category && rem2 == remaining - 1 && p2 == pinned && l2 != r2
                            && (l2 as int) < es.len() && (r2 as int) < es.len() && (l2 as int)
                            - crate::scheduler::window_radius(es.len() as int) <= r2 as int <= (
                        l2 as int) + crate::scheduler::window_radius(es.len() as int) && (pinned
                            matches Some(pid) ==> final(self).categories@[ci].entries@[l2 as int].id
                            == pid)))
                        &&& (remaining > 1 && final(self).session is Idle ==> (pinned
                            matches Some(pid) && (forall|j: int|
                            0 <= j < final(self).categories@[ci].entries@.len()
                                ==> final(self).categories@[ci].entries@[j].id != pid)))
                    } else {
                        &&& result == Err::<(), RankError>(RankError::InvalidState)
                        &&& final(self).categories@ == old(self).categories@
                        &&& final(self).session is Idle
                    }
                },
            },
    {
        let mut prev = SessionState::Idle;
        core::mem::swap(&mut prev, &mut self.session);
        match prev {
            SessionState::Idle => Err(RankError::NoActiveMatch),
            SessionState::InsertingNewEntry {
                category,
                candidate,
                lower,
                upper,
                restore_at,
                outcomes,
            } => {
                let found = find_cat(&self.categories, &category);
                let ci = match found {
                    Some(ci) => ci,
                    None => {
                        return Err(RankError::InvalidState);
                    },
                };
                proof {
                    lemma_cat_index_unique(self, ci as int, category@);
                }
                if upper > self.categories[ci].entries.len() {
                    return Err(RankError::InvalidState);
                }
                let mid = lower + (upper - lower) / 2;
                proof {
                    vstd::arithmetic::div_mod::lemma_hoist_over_denominator(
                        upper - lower,
                        lower as int,
                        2,
                    );
                    crate::order_stat::lemma_insert_step_decreases(lower as int, upper as int);
                }
                let l2: usize = if left_won {
                    lower
                } else {
                    mid + 1
                };
                let u2: usize = if left_won {
                    mid
                } else {
                    upper
                };
                let ghost recorded = outcomes@.push((mid as int, left_won));
                if l2 < u2 {
                    self.session = SessionState::InsertingNewEntry {
                        category,
                        candidate,
                        lower: l2,
                        upper: u2,
                        restore_at,
                        outcomes: Ghost(recorded),
                    };
                    return Ok(());
                }
                if find_title(&self.categories[ci].entries, &candidate.title).is_some() {
                    return Err(RankError::InvalidState);
                }
                let ghost before = self.categories@;
                let ghost gcand = candidate;
                let cat = &mut self.categories[ci];
                cat.entries.insert(l2, candidate);
                proof {
                    let cin = ci as int;
                    crate::store::lemma_insert_keeps_titles(before[cin].entries@, l2 as int, gcand);
                    assert(unique_names(self.categories@)) by {
                        assert(forall|j: int|
                            0 <= j < self.categories@.len() ==> #[trigger] self.categories@[j].name@
                                == before[j].name@);
                    }
                    assert forall|i: int| 0 <= i < self.categories@.len() implies category_wf(
                        #[trigger] self.categories@[i],
                    ) by {
                        if i != cin {
                            assert(self.categories@[i] == before[i]);
                        }
                    }
                }
                Ok(())
            },
            SessionState::RepairPass { category, index, ascending } => {
                let found = find_cat(&self.categories, &category);
                let ci = match found {
                    Some(ci) => ci,
                    None => {
                        return Err(RankError::InvalidState);
                    },
                };
                proof {
                    lemma_cat_index_unique(self, ci as int, category@);
                }
                let n = self.categories[ci].entries.len();
                if index >= n || index + 1 >= n {
                    return Err(RankError::InvalidState);
                }
                if !left_won {
                    let ghost before = self.categories@;
                    let a = clone_entry(&self.categories[ci].entries[index]);
                    let b = clone_entry(&self.categories[ci].entries[index + 1]);
                    let cat = &mut self.categories[ci];
                    cat.entries[index] = b;
                    cat.entries[index + 1] = a;
                    proof {
                        let cin = ci as int;
                        let ii = index as int;
                        let olde = before[cin].entries@;
                        let swapped = olde.update(ii, olde[ii + 1]).update(ii + 1, olde[ii]);
                        assert(self.categories@[cin].entries@ =~= swapped);
                        assert(unique_names(self.categories@)) by {
                            assert(forall|j: int|
                                0 <= j < self.categories@.len()
                                    ==> #[trigger] self.categories@[j].name@ == before[j].name@);
                        }
                        assert forall|i: int| 0 <= i < self.categories@.len() implies category_wf(
                            #[trigger] self.categories@[i],
                        ) by {
                            if i != cin {
                                assert(self.categories@[i] == before[i]);
                            } else {
                                lemma_swap_keeps_category_wf(olde, ii);
                            }
                        }
                    }
                }
                if ascending && index + 2 < n {
                    self.session = SessionState::RepairPass {
                        category,
                        index: index + 1,
                        ascending,
                    };
                } else if !ascending && index > 0 {
                    self.session = SessionState::RepairPass {
                        category,
                        index: index - 1,
                        ascending,
                    };
                }
                Ok(())
            },
            SessionState::AwaitingEloDecision { category, left, right, remaining, pinned } => {
                let found = find_cat(&self.categories, &category);
                let ci = match found {
                    Some(ci) => ci,
                    None => {
                        return Err(RankError::InvalidState);
                    },
                };
                proof {
                    lemma_cat_index_unique(self, ci as int, category@);
                }
                let n = self.categories[ci].entries.len();
                if left >= n || right >= n {
                    return Err(RankError::InvalidState);
                }
                let (k, clamped) = match self.strategy {
                    Strategy::Elo { k, clamped } => (k, clamped),
                    Strategy::OrderStatistic => {
                        proof {
                            assert(false);
                        }
                        unreached()
                    },
                };
                let wi = if left_won {
                    left
                } else {
                    right
                };
                let li = if left_won {
                    right
                } else {
                    left
                };
                let ghost before = self.categories@;
                let ghost olde = before[ci as int].entries@;
                proof {
                    assert(ratings_bounded(olde));
                }
                let rw = self.categories[ci].entries[wi].rating;
                let rl = self.categories[ci].entries[li].rating;
                let updated = crate::elo::elo_update(k, clamped, rw, rl);
                let new_w = entry_with_rating(&self.categories[ci].entries[wi], updated.0);
                let new_l = entry_with_rating(&self.categories[ci].entries[li], updated.1);
                let cat = &mut self.categories[ci];
                cat.entries[wi] = new_w;
                cat.entries[li] = new_l;
                proof {
                    let pre_sort = elo_updated_entries(
                        olde,
                        wi as int,
                        li as int,
                        k as int,
                        clamped,
                    );
                    assert(cat.entries@ =~= pre_sort);
                    assert(unique_titles(pre_sort) && ratings_bounded(pre_sort)) by {
                        lemma_update_rating_keeps_wf(olde, wi as int, updated.0);
                        lemma_update_rating_keeps_wf(
                            olde.update(wi as int, with_rating(olde[wi as int], updated.0)),
                            li as int,
                            updated.1,
                        );
                        assert(pre_sort =~= olde.update(
                            wi as int,
                            with_rating(olde[wi as int], updated.0),
                        ).update(li as int, with_rating(olde[li as int], updated.1)));
                    }
                    crate::sort::lemma_sort_desc_wf(pre_sort);
                }
                crate::sort::sort_entries(&mut cat.entries);
                proof {
                    let cin = ci as int;
                    assert(unique_names(self.categories@)) by {
                        assert(forall|j: int|
                            0 <= j < self.categories@.len() ==> #[trigger] self.categories@[j].name@
                                == before[j].name@);
                    }
                    assert forall|i: int| 0 <= i < self.categories@.len() implies category_wf(
                        #[trigger] self.categories@[i],
                    ) by {
                        if i != cin {
                            assert(self.categories@[i] == before[i]);
                        }
                    }
                }
                if remaining <= 1 {
                    return Ok(());
                }
                proof {
                    assert(self.categories@[ci as int].entries@.len() == n as int);
                }
                let pair: (usize, usize) = match pinned {
                    Some(pid) => {
                        match crate::store::find_id(&self.categories[ci].entries, pid) {
                            Some(ia) => (ia, crate::scheduler::pick_opponent(ia, n)),
                            None => {
                                return Ok(());
                            },
                        }
                    },
                    None => crate::scheduler::pick_random_pair(n),
                };
                self.session = SessionState::AwaitingEloDecision {
                    category,
                    left: pair.0,
                    right: pair.1,
                    remaining: remaining - 1,
                    pinned,
                };
                Ok(())
            },
        }
    }

    /// Writes the store out as spreadsheet cells: per category a title
    /// column headed by its name and a score column beside it, entries best
    /// to worst.  The storage collaborator only moves these cells to and
    /// from disk.
    pub fn save_to_cells(&self) -> (grid: Vec<Vec<crate::codec::CellValue>>)
        ensures
            grid@.map_values(|col: Vec<crate::codec::CellValue>| col@) == crate::codec::cells_of(
                self.categories@,
            ),
    {
        let target = Ghost(crate::codec::cells_of(self.categories@));
        let mut grid: Vec<Vec<crate::codec::CellValue>> = Vec::new();
        let mut i: usize = 0;
        while i < self.categories.len()
            invariant
                i <= self.categories@.len(),
                target@ == crate::codec::cells_of(self.categories@),
                grid@.len() == 2 * i,
                forall|j: int| 0 <= j < 2 * i ==> (#[trigger] grid@[j])@ == target@[j],
            decreases self.categories@.len() - i,
        {
            let c = &self.categories[i];
            let mut ca: Vec<crate::codec::CellValue> = Vec::new();
            let mut cb: Vec<crate::codec::CellValue> = Vec::new();
            ca.push(crate::codec::CellValue::Text(c.name.clone()));
            cb.push(crate::codec::CellValue::Empty);
            let mut r: usize = 0;
            while r < c.entries.len()
                invariant
                    r <= c.entries@.len(),
                    ca@.len() == r + 1,
                    cb@.len() == r + 1,
                    ca@[0] == crate::codec::CellValue::Text(c.name),
                    cb@[0] == crate::codec::CellValue::Empty,
                    forall|q: int|
                        1 <= q <= r ==> (#[trigger] ca@[q]) == crate::codec::CellValue::Text(
                            c.entries@[q - 1].title,
                        ),
                    forall|q: int|
                        1 <= q <= r ==> (#[trigger] cb@[q]) == crate::codec::CellValue::Number(
                            c.entries@[q - 1].rating,
                        ),
                decreases c.entries@.len() - r,
            {
                ca.push(crate::codec::CellValue::Text(c.entries[r].title.clone()));
                cb.push(crate::codec::CellValue::Number(c.entries[r].rating));
                r = r + 1;
            }
            proof {
                assert(ca@ =~= crate::codec::title_column(self.categories@[i as int]));
                assert(cb@ =~= crate::codec::rating_column(self.categories@[i as int]));
                assert((2 * i as int) % 2 == 0 && (2 * i as int) / 2 == i as int);
                assert((2 * i as int + 1) % 2 == 1 && (2 * i as int + 1) / 2 == i as int);
            }
            grid.push(ca);
            grid.push(cb);
            i = i + 1;
        }
        proof {
            assert(grid@.map_values(|col: Vec<crate::codec::CellValue>| col@) =~= target@);
        }
        grid
    }

    /// Replaces the store with what a grid of spreadsheet cells denotes.
    /// The grid must be exactly what `save_to_cells` produces: column
    /// pairs, a text header over titles, scores on the legal scale, no
    /// category name and no title within a category repeated.  Returns
    /// `false` — leaving the engine untouched — exactly when the grid does
    /// not have that shape.  On success every loaded entry gets a fresh
    /// identity, no illustration, and the session is idle.
    pub fn load_from_cells(&mut self, grid: &Vec<Vec<crate::codec::CellValue>>) -> (ok: bool)
        requires
            old(self).wf(),
        ensures
            final(self).wf(),
            final(self).strategy == old(self).strategy,
            ok == crate::codec::grid_ok(
                grid@.map_values(|col: Vec<crate::codec::CellValue>| col@),
            ),
            ok ==> crate::codec::cats_view(final(self).categories@) == crate::codec::parsed_cats(
                grid@.map_values(|col: Vec<crate::codec::CellValue>| col@),
            ) && final(self).session is Idle,
            !ok ==> final(self).categories@ == old(self).categories@ && final(self).session == old(
                self,
            ).session,
            final(self).next_id >= old(self).next_id,
            ok && final(self).next_id < u64::MAX ==> store_ids_distinct(final(self).categories@)
                && store_ids_in(
                final(self).categories@,
                old(self).next_id as int,
                final(self).next_id as int,
            ),
    {
        let ghost gv = grid@.map_values(|col: Vec<crate::codec::CellValue>| col@);
        proof {
            assert(forall|j: int| 0 <= j < grid@.len() ==> gv[j] == (#[trigger] grid@[j])@);
        }
        let glen = grid.len();
        if glen % 2 != 0 {
            return false;
        }
        let npairs = glen / 2;
        let mut newcats: Vec<Category> = Vec::new();
        let mut k: usize = 0;
        while k < npairs
            invariant
                k <= npairs,
                glen == grid@.len(),
                glen % 2 == 0,
                npairs == glen / 2,
                gv == grid@.map_values(|col: Vec<crate::codec::CellValue>| col@),
                gv.len() == grid@.len(),
                forall|j: int| 0 <= j < grid@.len() ==> gv[j] == (#[trigger] grid@[j])@,
                newcats@.len() == k,
                forall|j: int|
                    0 <= j < k ==> crate::codec::column_pair_ok(
                        gv[2 * j],
                        #[trigger] gv[2 * j + 1],
                    ),
                forall|j: int|
                    0 <= j < k ==> crate::codec::cat_view(#[trigger] newcats@[j])
                        == crate::codec::pair_view(gv[2 * j], gv[2 * j + 1]),
                forall|j: int|
                    0 <= j < k ==> (#[trigger] newcats@[j]).name@ == gv[2 * j][0]->Text_0@,
                store_wf(newcats@),
                self.categories == old(self).categories,
                self.session == old(self).session,
                self.strategy == old(self).strategy,
                self.wf(),
                self.next_id >= old(self).next_id,
                self.next_id < u64::MAX ==> store_ids_distinct(newcats@) && store_ids_in(
                    newcats@,
                    old(self).next_id as int,
                    self.next_id as int,
                ),
            decreases npairs - k,
        {
            let parsed = crate::codec::check_and_parse_pair(&grid[2 * k], &grid[2 * k + 1]);
            let (name, titles, ratings) = match parsed {
                Some(t) => t,
                None => {
                    proof {
                        assert(!crate::codec::column_pair_ok(gv[2 * k], gv[2 * k + 1]));
                    }
                    return false;
                },
            };
            if find_cat(&newcats, &name).is_some() {
                proof {
                    let j = choose|j: int|
                        0 <= j < newcats@.len() && newcats@[j].name@ == name@;
                    assert(gv[2 * j][0]->Text_0@ == gv[2 * k][0]->Text_0@);
                }
                return false;
            }
            proof {
                let ta = gv[2 * (k as int)];
                assert forall|q: int, w: int| 0 <= q < w < titles@.len() implies titles@[q]@
                    != titles@[w]@ by {
                    assert(titles@[q]@ == ta[q + 1]->Text_0@);
                    assert(titles@[w]@ == ta[w + 1]->Text_0@);
                    assert(1 <= q + 1 < w + 1 < ta.len());
                }
            }
            let m = titles.len();
            let mut entries: Vec<Entry> = Vec::new();
            let mut j: usize = 0;
            let ghost pair_start_id = self.next_id;
            while j < m
                invariant
                    j <= m,
                    m == titles@.len(),
                    m == ratings@.len(),
                    entries@.len() == j,
                    forall|q: int|
                        0 <= q < j ==> (#[trigger] entries@[q]).title@ == titles@[q]@,
                    forall|q: int| 0 <= q < j ==> (#[trigger] entries@[q]).rating == ratings@[q],
                    forall|q: int, w: int| 0 <= q < w < m ==> titles@[q]@ != titles@[w]@,
                    forall|q: int| 0 <= q < m ==> -RATING_LIMIT <= #[trigger] ratings@[q]
                        <= RATING_LIMIT,
                    self.categories == old(self).categories,
                    self.session == old(self).session,
                    self.strategy == old(self).strategy,
                    self.wf(),
                    old(self).next_id <= pair_start_id <= self.next_id,
                    self.next_id < u64::MAX ==> store_ids_distinct(newcats@) && store_ids_in(
                        newcats@,
                        old(self).next_id as int,
                        pair_start_id as int,
                    ) && entry_ids_distinct(entries@) && entry_ids_in(
                        entries@,
                        pair_start_id as int,
                        self.next_id as int,
                    ),
                decreases m - j,
            {
                let ghost id_before = self.next_id;
                let id = self.fresh_id();
                let ghost prior_entries = entries@;
                entries.push(
                    Entry { title: titles[j].clone(), rating: ratings[j], id, image: None },
                );
                proof {
                    if self.next_id < u64::MAX {
                        assert(id_before < u64::MAX);
                        assert(entry_ids_distinct(entries@)) by {
                            assert(forall|q: int|
                                0 <= q < prior_entries.len() ==> (#[trigger] entries@[q]).id
                                    == prior_entries[q].id);
                            assert(entries@[prior_entries.len() as int].id == id);
                        }
                        assert(entry_ids_in(
                            entries@,
                            pair_start_id as int,
                            self.next_id as int,
                        )) by {
                            assert(forall|q: int|
                                0 <= q < prior_entries.len() ==> (#[trigger] entries@[q]).id
                                    == prior_entries[q].id);
                        }
                    }
                }
                j = j + 1;
            }
            proof {
                assert(unique_titles(entries@)) by {
                    assert forall|p: int, q: int| 0 <= p < q < entries@.len() implies entries@[p].title@
                        != entries@[q].title@ by {
                        assert(entries@[p].title@ == titles@[p]@);
                        assert(entries@[q].title@ == titles@[q]@);
                    }
                }
                assert(ratings_bounded(entries@));
            }
            let ghost oldcats = newcats@;
            newcats.push(Category { name, entries });
            proof {
                assert(unique_names(newcats@)) by {
                    assert forall|p: int, q: int| 0 <= p < q < newcats@.len() implies newcats@[p].name@
                        != newcats@[q].name@ by {
                        if q < newcats@.len() - 1 {
                            assert(newcats@[p] == oldcats[p] && newcats@[q] == oldcats[q]);
                        } else {
                            assert(newcats@[p] == oldcats[p]);
                        }
                    }
                }
                assert forall|p: int| 0 <= p < newcats@.len() implies category_wf(
                    #[trigger] newcats@[p],
                ) by {
                    if p < newcats@.len() - 1 {
                        assert(newcats@[p] == oldcats[p]);
                    }
                }
                let lastc = newcats@[newcats@.len() - 1];
                assert(crate::codec::cat_view(lastc) == crate::codec::pair_view(
                    gv[2 * (k as int)],
                    gv[2 * (k as int) + 1],
                )) by {
                    assert(crate::codec::cat_view(lastc).1 =~= crate::codec::pair_view(
                        gv[2 * (k as int)],
                        gv[2 * (k as int) + 1],
                    ).1);
                }
                assert forall|j2: int| 0 <= j2 < newcats@.len() implies crate::codec::cat_view(
                    #[trigger] newcats@[j2],
                ) == crate::codec::pair_view(gv[2 * j2], gv[2 * j2 + 1]) by {
                    if j2 < newcats@.len() - 1 {
                        assert(newcats@[j2] == oldcats[j2]);
                    }
                }
                if self.next_id < u64::MAX {
                    let last = newcats@.len() - 1;
                    assert(forall|a: int| 0 <= a < last ==> newcats@[a] == oldcats[a]);
                    assert(store_ids_in(
                        newcats@,
                        old(self).next_id as int,
                        self.next_id as int,
                    )) by {
                        assert forall|a: int| 0 <= a < newcats@.len() implies entry_ids_in(
                            (#[trigger] newcats@[a]).entries@,
                            old(self).next_id as int,
                            self.next_id as int,
                        ) by {
                            if a < last {
                                assert(entry_ids_in(
                                    oldcats[a].entries@,
                                    old(self).next_id as int,
                                    pair_start_id as int,
                                ));
                            }
                        }
                    }
                    assert(store_ids_distinct(newcats@)) by {
                        assert forall|a: int, b: int, p: int, q: int|
                            0 <= a < b < newcats@.len() && 0 <= p < newcats@[a].entries@.len() && 0
                                <= q < newcats@[b].entries@.len() implies (#[trigger] newcats@[a].entries@[p].id)
                            != (#[trigger] newcats@[b].entries@[q].id) by {
                            if b < last {
                                assert(newcats@[a] == oldcats[a] && newcats@[b] == oldcats[b]);
                            } else {
                                assert(newcats@[a] == oldcats[a]);
                                assert(oldcats[a].entries@[p].id < pair_start_id);
                                assert(newcats@[b].entries@[q].id >= pair_start_id);
                            }
                        }
                    }
                }
            }
            k = k + 1;
        }
        proof {
            assert(crate::codec::grid_ok(gv)) by {
                assert(gv.len() % 2 == 0);
                assert forall|a: int, b: int| 0 <= a < b < gv.len() / 2 implies (#[trigger] gv[2
                    * a])[0]->Text_0@ != (#[trigger] gv[2 * b])[0]->Text_0@ by {
                    assert(newcats@[a].name@ == gv[2 * a][0]->Text_0@);
                    assert(newcats@[b].name@ == gv[2 * b][0]->Text_0@);
                    assert(newcats@[a].name@ != newcats@[b].name@);
                }
            }
            assert(crate::codec::cats_view(newcats@) =~= crate::codec::parsed_cats(gv));
        }
        self.categories = newcats;
        self.session = SessionState::Idle;
        true
    }

    /// A fresh stable identity.  The counter saturates at the top of its
    /// range instead of wrapping.
    fn fresh_id(&mut self) -> (id: u64)
        ensures
            id == old(self).next_id,
            final(self).next_id >= old(self).next_id,
            old(self).next_id < u64::MAX ==> final(self).next_id == old(self).next_id + 1,
            old(self).next_id == u64::MAX ==> final(self).next_id == u64::MAX,
            final(self).categories == old(self).categories,
            final(self).session == old(self).session,
            final(self).strategy == old(self).strategy,
    {
        let id = self.next_id;
        if self.next_id < u64::MAX {
            self.next_id = self.next_id + 1;
        }
        id
    }

    /// Ends the session.  A cancelled re-rank of an existing entry puts the
    /// extracted candidate back exactly where it came from; every other
    /// session state is simply dropped, leaving the store as it was.  (If
    /// the category vanished meanwhile, or a direct mutation took the
    /// candidate's title or shrank the category past the remembered
    /// position, the candidate is put at the nearest legal position, or
    /// dropped when its title is taken.)
    pub fn end_ranking(&mut self)
        requires
            old(self).wf(),
        ensures
            final(self).wf(),
            final(self).session is Idle,
            final(self).strategy == old(self).strategy,
            final(self).next_id == old(self).next_id,
            match old(self).session {
                SessionState::InsertingNewEntry { category, candidate, restore_at: Some(pos), .. } => {
                    if has_cat(old(self).categories@, category@) && !has_title(
                        old(self).categories@[old(self).cat_index(category@)].entries@,
                        candidate.title@,
                    ) {
                        let ci = old(self).cat_index(category@);
                        let olde = old(self).categories@[ci].entries@;
                        let at = if pos <= olde.len() {
                            pos as int
                        } else {
                            olde.len() as int
                        };
                        &&& final(self).categories@.len() == old(self).categories@.len()
                        &&& (forall|j: int|
                            0 <= j < old(self).categories@.len() && j != ci
                                ==> final(self).categories@[j] == old(self).categories@[j])
                        &&& final(self).categories@[ci].name == old(self).categories@[ci].name
                        &&& final(self).categories@[ci].entries@ == olde.insert(at, candidate)
                    } else {
                        final(self).categories@ == old(self).categories@
                    }
                },
                _ => final(self).categories@ == old(self).categories@,
            },
    {
        let mut prev = SessionState::Idle;
        core::mem::swap(&mut prev, &mut self.session);
        match prev {
            SessionState::InsertingNewEntry {
                category,
                candidate,
                restore_at: Some(pos),
                ..
            } => {
                let found = find_cat(&self.categories, &category);
                match found {
                    Some(ci) => {
                        proof {
                            lemma_cat_index_unique(self, ci as int, category@);
                        }
                        if find_title(&self.categories[ci].entries, &candidate.title).is_none() {
                            let ghost before = self.categories@;
                            let len = self.categories[ci].entries.len();
                            let at = if pos <= len {
                                pos
                            } else {
                                len
                            };
                            let cat = &mut self.categories[ci];
                            cat.entries.insert(at, candidate);
                            proof {
                                let cin = ci as int;
                                crate::store::lemma_insert_keeps_titles(
                                    before[cin].entries@,
                                    at as int,
                                    self.categories@[cin].entries@[at as int],
                                );
                                assert(unique_names(self.categories@)) by {
                                    assert(forall|j: int|
                                        0 <= j < self.categories@.len()
                                            ==> #[trigger] self.categories@[j].name@
                                            == before[j].name@);
                                }
                                assert forall|i: int|
                                    0 <= i < self.categories@.len() implies category_wf(
                                    #[trigger] self.categories@[i],
                                ) by {
                                    if i != cin {
                                        assert(self.categories@[i] == before[i]);
                                    }
                                }
                            }
                        }
                    },
                    None => {},
                }
            },
            _ => {},
        }
    }

    /// Offers a new titled entry to a category.  A title already present is
    /// a non-fatal duplicate: the engine reports the existing position and
    /// changes nothing.  Otherwise, in order-statistic mode the entry
    /// becomes the candidate of a binary insertion (or is placed directly
    /// when the category was empty); in Elo mode it is appended at the
    /// baseline rating and pinned for a fixed run of matches (none when it
    /// has no opponents).  The category must exist and no session may be in
    /// progress.
    pub fn add_entry(&mut self, entry: String, category: &String) -> (result: Result<
        (),
        RankError,
    >)
        requires
            old(self).wf(),
            has_cat(old(self).categories@, category@),
        ensures
            final(self).wf(),
            final(self).strategy == old(self).strategy,
            !(old(self).session is Idle) ==> result == Err::<(), RankError>(
                RankError::InvalidState,
            ) && final(self).categories@ == old(self).categories@ && final(self).session == old(
                self,
            ).session && final(self).next_id == old(self).next_id,
            old(self).session is Idle ==> ({
                let ci = old(self).cat_index(category@);
                let olde = old(self).categories@[ci].entries@;
                match result {
                    Err(e) => {
                        &&& e matches RankError::DuplicateEntry(p)
                        &&& 0 <= (p as int) < olde.len()
                        &&& olde[p as int].title@ == entry@
                        &&& (forall|j: int| 0 <= j < p ==> olde[j].title@ != entry@)
                        &&& final(self).categories@ == old(self).categories@
                        &&& final(self).session == old(self).session
                    },
                    Ok(()) => {
                        &&& !has_title(olde, entry@)
                        &&& (old(self).strategy is OrderStatistic ==> {
                            if olde.len() == 0 {
                                &&& final(self).session is Idle
                                &&& appended_entry(
                                    old(self).categories@,
                                    final(self).categories@,
                                    ci,
                                    entry@,
                                    BASELINE_RATING as int,
                                    old(self).next_id,
                                )
                            } else {
                                &&& final(self).categories@ == old(self).categories@
                                &&& final(self).session matches SessionState::InsertingNewEntry {
                                    category: c,
                                    candidate,
                                    lower,
                                    upper,
                                    restore_at,
                                    outcomes,
                                } && c@ == category@ && candidate.title@ == entry@
                                    && candidate.rating == BASELINE_RATING && candidate.id == old(
                                    self,
                                ).next_id && lower == 0 && upper == olde.len() && restore_at
                                    is None && outcomes@.len() == 0
                            }
                        })
                        &&& (old(self).strategy is Elo ==> {
                            &&& appended_entry(
                                old(self).categories@,
                                final(self).categories@,
                                ci,
                                entry@,
                                BASELINE_RATING as int,
                                old(self).next_id,
                            )
                            &&& (olde.len() == 0 ==> final(self).session is Idle)
                            &&& (olde.len() > 0 ==> (final(self).session
                                matches SessionState::AwaitingEloDecision {
                                    category: c,
                                    left,
                                    right,
                                    remaining,
                                    pinned,
                                } && c@ == category@ && left == olde.len() && (right as int)
                                < olde.len() + 1 && right != left && (left as int)
                                - crate::scheduler::window_radius(olde.len() as int + 1) <= right as int
                                <= (left as int) + crate::scheduler::window_radius(olde.len() as int + 1)
                                && remaining == crate::scheduler::ELO_INSERT_MATCHES && pinned
                                == Some(old(self).next_id)))
                        })
                    },
                }
            }),
    {
        if self.is_ranking() {
            return Err(RankError::InvalidState);
        }
        let ci = match find_cat(&self.categories, category) {
            Some(i) => i,
            None => {
                proof {
                    assert(false);
                }
                unreached()
            },
        };
        proof {
            lemma_cat_index_unique(self, ci as int, category@);
        }
        match find_title(&self.categories[ci].entries, &entry) {
            Some(p) => {
                return Err(RankError::DuplicateEntry(p));
            },
            None => {},
        }
        let n = self.categories[ci].entries.len();
        let id = self.fresh_id();
        let candidate = Entry { title: entry, rating: BASELINE_RATING, id, image: None };
        let ghost gcand = candidate;
        let is_elo = match self.strategy {
            Strategy::Elo { .. } => true,
            Strategy::OrderStatistic => false,
        };
        if !is_elo {
            if n == 0 {
                self.append_entry_wf(ci, candidate);
                proof {
                    lemma_push_is_append(old(self).categories@, self.categories@, ci as int, gcand);
                }
                return Ok(());
            }
            self.session = SessionState::InsertingNewEntry {
                category: category.clone(),
                candidate,
                lower: 0,
                upper: n,
                restore_at: None,
                outcomes: Ghost(Seq::empty()),
            };
            Ok(())
        } else {
            self.append_entry_wf(ci, candidate);
            proof {
                lemma_push_is_append(old(self).categories@, self.categories@, ci as int, gcand);
            }
            if n == 0 {
                return Ok(());
            }
            let len_now = self.categories[ci].entries.len();
            let b = crate::scheduler::pick_opponent(n, len_now);
            self.session = SessionState::AwaitingEloDecision {
                category: category.clone(),
                left: n,
                right: b,
                remaining: crate::scheduler::ELO_INSERT_MATCHES,
                pinned: Some(id),
            };
            Ok(())
        }
    }

    /// Appends a fresh, absent-titled, on-scale entry to category `ci`,
    /// keeping the store invariant.
    fn append_entry_wf(&mut self, ci: usize, e: Entry)
        requires
            store_wf(old(self).categories@),
            (ci as int) < old(self).categories@.len(),
            !has_title(old(self).categories@[ci as int].entries@, e.title@),
            -RATING_LIMIT <= e.rating <= RATING_LIMIT,
        ensures
            store_wf(final(self).categories@),
            final(self).session == old(self).session,
            final(self).strategy == old(self).strategy,
            final(self).next_id == old(self).next_id,
            appended_raw(old(self).categories@, final(self).categories@, ci as int, e),
    {
        let ghost before = self.categories@;
        let cat = &mut self.categories[ci];
        cat.entries.push(e);
        proof {
            let cin = ci as int;
            assert(self.categories@[cin].entries@ =~= before[cin].entries@.insert(
                before[cin].entries@.len() as int,
                e,
            ));
            crate::store::lemma_insert_keeps_titles(
                before[cin].entries@,
                before[cin].entries@.len() as int,
                e,
            );
            assert(unique_names(self.categories@)) by {
                assert(forall|j: int|
                    0 <= j < self.categories@.len() ==> #[trigger] self.categories@[j].name@
                        == before[j].name@);
            }
            assert forall|i: int| 0 <= i < self.categories@.len() implies category_wf(
                #[trigger] self.categories@[i],
            ) by {
                if i != cin {
                    assert(self.categories@[i] == before[i]);
                }
            }
        }
    }

    /// Extracts the entry at `position` and offers it back through the
    /// normal insertion process, remembering where it came from so a cancel
    /// can restore it.  In Elo mode nothing is extracted: the entry keeps
    /// its rating and is pinned for a fixed run of matches, failing with
    /// `InvalidState` when it has no opponents.  The category, position and
    /// title must agree, and no session may be in progress.
    pub fn rerank_entry(&mut self, entry: String, position: usize, category: &String) -> (result:
        Result<(), RankError>)
        requires
            old(self).wf(),
            has_cat(old(self).categories@, category@),
            (position as int) < old(self).categories@[old(self).cat_index(category@)].entries@.len(),
            old(self).categories@[old(self).cat_index(category@)].entries@[position as int].title@
                == entry@,
        ensures
            final(self).wf(),
            final(self).strategy == old(self).strategy,
            final(self).next_id == old(self).next_id,
            !(old(self).session is Idle) ==> result == Err::<(), RankError>(
                RankError::InvalidState,
            ) && final(self).categories@ == old(self).categories@ && final(self).session == old(
                self,
            ).session && final(self).next_id == old(self).next_id,
            old(self).session is Idle ==> ({
                let ci = old(self).cat_index(category@);
                let olde = old(self).categories@[ci].entries@;
                match result {
                    Err(e) => {
                        &&& e == RankError::InvalidState
                        &&& old(self).strategy is Elo
                        &&& olde.len() < 2
                        &&& final(self).categories@ == old(self).categories@
                        &&& final(self).session is Idle
                    },
                    Ok(()) => {
                        &&& (old(self).strategy is OrderStatistic ==> {
                            if olde.len() == 1 {
                                &&& final(self).categories@ == old(self).categories@
                                &&& final(self).session is Idle
                            } else {
                                &&& final(self).categories@.len() == old(self).categories@.len()
                                &&& (forall|j: int|
                                    0 <= j < old(self).categories@.len() && j != ci
                                        ==> final(self).categories@[j] == old(self).categories@[j])
                                &&& final(self).categories@[ci].name == old(
                                    self,
                                ).categories@[ci].name
                                &&& final(self).categories@[ci].entries@ == olde.remove(
                                    position as int,
                                )
                                &&& final(self).session
                                    matches SessionState::InsertingNewEntry {
                                    category: c,
                                    candidate,
                                    lower,
                                    upper,
                                    restore_at,
                                    outcomes,
                                } && c@ == category@ && candidate == olde[position as int] && lower
                                    == 0 && upper == olde.len() - 1 && restore_at == Some(position)
                                    && outcomes@.len() == 0
                            }
                        })
                        &&& (old(self).strategy is Elo ==> {
                            &&& olde.len() >= 2
                            &&& final(self).categories@ == old(self).categories@
                            &&& final(self).session
                                matches SessionState::AwaitingEloDecision {
                                category: c,
                                left,
                                right,
                                remaining,
                                pinned,
                            } && c@ == category@ && left == position && (right as int)
                                < olde.len() && right != left && (left as int)
                                - crate::scheduler::window_radius(olde.len() as int)
                                <= right as int <= (left as int)
                                + crate::scheduler::window_radius(olde.len() as int) && remaining
                                == crate::scheduler::ELO_INSERT_MATCHES && pinned == Some(
                                olde[position as int].id,
                            )
                        })
                    },
                }
            }),
    {
        let _ = &entry;
        if self.is_ranking() {
            return Err(RankError::InvalidState);
        }
        let ci = match find_cat(&self.categories, category) {
            Some(i) => i,
            None => {
                proof {
                    assert(false);
                }
                unreached()
            },
        };
        proof {
            lemma_cat_index_unique(self, ci as int, category@);
        }
        let n = self.categories[ci].entries.len();
        let is_elo = match self.strategy {
            Strategy::Elo { .. } => true,
            Strategy::OrderStatistic => false,
        };
        if !is_elo {
            if n == 1 {
                return Ok(());
            }
            let ghost before = self.categories@;
            let cat = &mut self.categories[ci];
            let candidate = cat.entries.remove(position);
            proof {
                let cin = ci as int;
                crate::store::lemma_remove_keeps_titles(before[cin].entries@, position as int);
                assert(unique_names(self.categories@)) by {
                    assert(forall|j: int|
                        0 <= j < self.categories@.len() ==> #[trigger] self.categories@[j].name@
                            == before[j].name@);
                }
                assert forall|i: int| 0 <= i < self.categories@.len() implies category_wf(
                    #[trigger] self.categories@[i],
                ) by {
                    if i != cin {
                        assert(self.categories@[i] == before[i]);
                    }
                }
                assert(-RATING_LIMIT <= candidate.rating <= RATING_LIMIT) by {
                    assert(ratings_bounded(before[cin].entries@));
                }
            }
            let new_len = self.categories[ci].entries.len();
            self.session = SessionState::InsertingNewEntry {
                category: category.clone(),
                candidate,
                lower: 0,
                upper: new_len,
                restore_at: Some(position),
                outcomes: Ghost(Seq::empty()),
            };
            Ok(())
        } else {
            if n < 2 {
                return Err(RankError::InvalidState);
            }
            let b = crate::scheduler::pick_opponent(position, n);
            let pinned_id = self.categories[ci].entries[position].id;
            self.session = SessionState::AwaitingEloDecision {
                category: category.clone(),
                left: position,
                right: b,
                remaining: crate::scheduler::ELO_INSERT_MATCHES,
                pinned: Some(pinned_id),
            };
            Ok(())
        }
    }

    /// Starts a whole-category re-rank of the category at position `ci`,
    /// which must hold at least two entries.  In order-statistic mode this
    /// is a directional repair pass; in Elo mode it schedules
    /// `n * clog2(n)` matches (failing with `InvalidState` only when that
    /// count exceeds the machine word).
    fn begin_category_rerank(&mut self, ci: usize, is_ascending: bool) -> (result: Result<
        (),
        RankError,
    >)
        requires
            old(self).wf(),
            old(self).session is Idle,
            (ci as int) < old(self).categories@.len(),
            old(self).categories@[ci as int].entries@.len() >= 2,
        ensures
            final(self).wf(),
            final(self).categories@ == old(self).categories@,
            final(self).strategy == old(self).strategy,
            final(self).next_id == old(self).next_id,
            ({
                let n = old(self).categories@[ci as int].entries@.len() as int;
                let name = old(self).categories@[ci as int].name@;
                match result {
                    Err(e) => {
                        &&& e == RankError::InvalidState
                        &&& old(self).strategy is Elo
                        &&& n * crate::order_stat::clog2(n) > usize::MAX
                        &&& final(self).session is Idle
                    },
                    Ok(()) => {
                        &&& (old(self).strategy is OrderStatistic ==> (final(self).session
                            matches SessionState::RepairPass { category: c, index, ascending }
                            && c@ == name && ascending == is_ascending && index as int == (
                        if is_ascending {
                            0int
                        } else {
                            n - 2
                        })))
                        &&& (old(self).strategy is Elo ==> (final(self).session
                            matches SessionState::AwaitingEloDecision {
                            category: c,
                            left,
                            right,
                            remaining,
                            pinned,
                        } && c@ == name && (left as int) < n && (right as int) < n && left != right
                            && (left as int) - crate::scheduler::window_radius(n) <= right as int
                            <= (left as int) + crate::scheduler::window_radius(n) && remaining == n
                            * crate::order_stat::clog2(n) && pinned is None))
                    },
                }
            }),
    {
        let n = self.categories[ci].entries.len();
        let name = self.categories[ci].name.clone();
        let is_elo = match self.strategy {
            Strategy::Elo { .. } => true,
            Strategy::OrderStatistic => false,
        };
        if !is_elo {
            let index = if is_ascending {
                0
            } else {
                n - 2
            };
            self.session = SessionState::RepairPass { category: name, index, ascending: is_ascending };
            Ok(())
        } else {
            let lg = crate::order_stat::ceil_log2(n);
            match n.checked_mul(lg) {
                None => Err(RankError::InvalidState),
                Some(total) => {
                    proof {
                        crate::order_stat::lemma_clog2_nonneg((n as int + 1) / 2);
                        assert(crate::order_stat::clog2(n as int) >= 1);
                        assert(total >= 1) by (nonlinear_arith)
                            requires
                                total == n * lg,
                                n >= 2,
                                lg >= 1,
                        ;
                    }
                    let pair = crate::scheduler::pick_random_pair(n);
                    self.session = SessionState::AwaitingEloDecision {
                        category: name,
                        left: pair.0,
                        right: pair.1,
                        remaining: total,
                        pinned: None,
                    };
                    Ok(())
                },
            }
        }
    }

    /// Starts a whole-category re-rank of the named category: a directional
    /// repair pass in order-statistic mode, a scheduled run of Elo matches
    /// otherwise.  Fails with `InvalidState` when the category holds fewer
    /// than two entries.  The category must exist and no session may be in
    /// progress.
    pub fn rank_category(&mut self, category: String, is_ascending: bool) -> (result: Result<
        (),
        RankError,
    >)
        requires
            old(self).wf(),
            has_cat(old(self).categories@, category@),
        ensures
            final(self).wf(),
            final(self).categories@ == old(self).categories@,
            final(self).strategy == old(self).strategy,
            final(self).next_id == old(self).next_id,
            !(old(self).session is Idle) ==> result == Err::<(), RankError>(
                RankError::InvalidState,
            ) && final(self).categories@ == old(self).categories@ && final(self).session == old(
                self,
            ).session && final(self).next_id == old(self).next_id,
            old(self).session is Idle ==> ({
                let ci = old(self).cat_index(category@);
                let n = old(self).categories@[ci].entries@.len() as int;
                match result {
                    Err(e) => {
                        &&& e == RankError::InvalidState
                        &&& (n < 2 || (old(self).strategy is Elo && n
                            * crate::order_stat::clog2(n) > usize::MAX))
                        &&& final(self).session is Idle
                    },
                    Ok(()) => {
                        &&& n >= 2
                        &&& (old(self).strategy is OrderStatistic ==> (final(self).session
                            matches SessionState::RepairPass { category: c, index, ascending }
                            && c@ == category@ && ascending == is_ascending && index as int == (
                        if is_ascending {
                            0int
                        } else {
                            n - 2
                        })))
                        &&& (old(self).strategy is Elo ==> (final(self).session
                            matches SessionState::AwaitingEloDecision {
                            category: c,
                            left,
                            right,
                            remaining,
                            pinned,
                        } && c@ == category@ && (left as int) < n && (right as int) < n && left
                            != right && (left as int) - crate::scheduler::window_radius(n)
                            <= right as int <= (left as int) + crate::scheduler::window_radius(n)
                            && remaining == n * crate::order_stat::clog2(n) && pinned is None))
                    },
                }
            }),
    {
        if self.is_ranking() {
            return Err(RankError::InvalidState);
        }
        let ci = match find_cat(&self.categories, &category) {
            Some(i) => i,
            None => {
                proof {
                    assert(false);
                }
                unreached()
            },
        };
        proof {
            lemma_cat_index_unique(self, ci as int, category@);
        }
        if self.categories[ci].entries.len() < 2 {
            return Err(RankError::InvalidState);
        }
        self.begin_category_rerank(ci, is_ascending)
    }

    /// Starts a re-rank of a category sampled with probability proportional
    /// to its entry count.  Fails with `InvalidState` when there are no
    /// categories, no entries at all, or the sampled category holds fewer
    /// than two entries.  No session may be in progress.
    pub fn rerank_random_entry(&mut self) -> (result: Result<(), RankError>)
        requires
            old(self).wf(),
        ensures
            final(self).wf(),
            final(self).categories@ == old(self).categories@,
            final(self).strategy == old(self).strategy,
            final(self).next_id == old(self).next_id,
            !(old(self).session is Idle) ==> result == Err::<(), RankError>(
                RankError::InvalidState,
            ) && final(self).categories@ == old(self).categories@ && final(self).session == old(
                self,
            ).session && final(self).next_id == old(self).next_id,
            old(self).categories@.len() == 0 ==> result == Err::<(), RankError>(
                RankError::InvalidState,
            ),
            (forall|i: int|
                0 <= i < old(self).categories@.len() ==> #[trigger] old(
                    self,
                ).categories@[i].entries@.len() == 0) ==> result == Err::<(), RankError>(
                RankError::InvalidState,
            ),
            old(self).session is Idle && result is Err ==> final(self).session is Idle,
            old(self).session is Idle && all_categories_rankable(*old(self)) ==> result is Ok,
            old(self).session is Idle && result is Err ==> no_rankable_reason(*old(self)),
            result is Ok ==> exists|i: int|
                {
                    &&& 0 <= i < old(self).categories@.len()
                    &&& old(self).categories@[i].entries@.len() >= 2
                    &&& exists|u: int|
                        0 <= u < crate::scheduler::total_weight(
                            category_weights(old(self).categories@),
                        ) && i == crate::scheduler::weighted_pick_spec(
                            category_weights(old(self).categories@),
                            u,
                        )
                    &&& match final(self).session {
                        SessionState::RepairPass { category: c, .. } => c@ == old(
                            self,
                        ).categories@[i].name@,
                        SessionState::AwaitingEloDecision { category: c, .. } => c@ == old(
                            self,
                        ).categories@[i].name@,
                        _ => false,
                    }
                },
    {
        if self.is_ranking() {
            return Err(RankError::InvalidState);
        }
        let ncats = self.categories.len();
        if ncats == 0 {
            return Err(RankError::InvalidState);
        }
        let mut sizes: Vec<usize> = Vec::new();
        let mut total: usize = 0;
        let mut i: usize = 0;
        let mut overflowed = false;
        let ghost weights = category_weights(self.categories@);
        while i < ncats
            invariant
                i <= ncats,
                ncats == self.categories@.len(),
                weights == category_weights(self.categories@),
                sizes@.len() == i,
                forall|j: int|
                    0 <= j < i ==> sizes@[j] == #[trigger] self.categories@[j].entries@.len(),
                forall|j: int| 0 <= j < i ==> sizes@[j] == weights[j],
                !overflowed ==> total as int == crate::scheduler::total_weight(sizes@),
                overflowed ==> crate::scheduler::total_weight(weights) > usize::MAX as int,
            decreases ncats - i,
        {
            let s = self.categories[i].entries.len();
            let ghost old_sizes = sizes@;
            sizes.push(s);
            if !overflowed {
                match total.checked_add(s) {
                    Some(t) => {
                        total = t;
                        proof {
                            crate::scheduler::lemma_total_weight_push(old_sizes, s);
                        }
                    },
                    None => {
                        proof {
                            assert(old_sizes =~= weights.subrange(0, i as int));
                            crate::scheduler::lemma_total_weight_prefix(weights, i as int);
                            assert(crate::scheduler::weight_before(weights, i as int + 1)
                                > usize::MAX as int);
                            crate::scheduler::lemma_weight_before_grows(
                                weights,
                                i as int + 1,
                                ncats as int,
                            );
                            crate::scheduler::lemma_weight_before_total(weights);
                        }
                        overflowed = true;
                    },
                }
            }
            i = i + 1;
        }
        proof {
            if !overflowed {
                assert(sizes@ =~= weights);
            }
        }
        if overflowed || total == 0 {
            proof {
                if !overflowed {
                    assert(crate::scheduler::total_weight(weights) == 0);
                    if all_categories_rankable(*old(self)) {
                        assert(sizes@[0] == old(self).categories@[0].entries@.len());
                        assert(weights[0] == sizes@[0]);
                        assert(weights[0] >= 2);
                        assert(crate::scheduler::weight_before(weights, 0) == 0);
                        crate::scheduler::lemma_weight_before_grows(weights, 1, ncats as int);
                        crate::scheduler::lemma_weight_before_total(weights);
                        assert(crate::scheduler::weight_before(weights, 1) >= 2);
                        assert(false);
                    }
                }
            }
            return Err(RankError::InvalidState);
        }
        let pick = crate::scheduler::weighted_random_pick(&sizes, total);
        if sizes[pick] < 2 {
            proof {
                assert(self.categories@[pick as int].entries@.len() < 2);
            }
            return Err(RankError::InvalidState);
        }
        let result = self.begin_category_rerank(pick, true);
        proof {
            assert(sizes@ == weights);
            if result is Ok {
                assert(old(self).categories@[pick as int].entries@.len() >= 2);
            } else {
                assert(old(self).strategy is Elo && !category_elo_budget_ok(
                    old(self).categories@[pick as int],
                ));
            }
        }
        result
    }
}

/// Every identity of `es` lies in `[lo, hi)`.
pub open spec fn entry_ids_in(es: Seq<Entry>, lo: int, hi: int) -> bool {
    forall|p: int| 0 <= p < es.len() ==> lo <= (#[trigger] es[p]).id < hi
}

/// No two entries of `es` share an identity.
pub open spec fn entry_ids_distinct(es: Seq<Entry>) -> bool {
    forall|p: int, q: int| 0 <= p < q < es.len() ==> es[p].id != es[q].id
}

/// Every identity anywhere in `cats` lies in `[lo, hi)`.
pub open spec fn store_ids_in(cats: Seq<Category>, lo: int, hi: int) -> bool {
    forall|a: int| 0 <= a < cats.len() ==> entry_ids_in((#[trigger] cats[a]).entries@, lo, hi)
}

/// No two entries anywhere in `cats` share an identity.
pub open spec fn store_ids_distinct(cats: Seq<Category>) -> bool {
    &&& (forall|a: int|
        0 <= a < cats.len() ==> entry_ids_distinct((#[trigger] cats[a]).entries@))
    &&& (forall|a: int, b: int, p: int, q: int|
        0 <= a < b < cats.len() && 0 <= p < cats[a].entries@.len() && 0 <= q
            < cats[b].entries@.len() ==> (#[trigger] cats[a].entries@[p].id) != (#[trigger] cats[b].entries@[q].id))
}

/// The category lists of `older` and `newer` agree except at `ci`, where an
/// entry titled `t` with rating `r` and identity `id` (and no illustration)
/// was appended.
pub open spec fn appended_entry(
    older: Seq<Category>,
    newer: Seq<Category>,
    ci: int,
    t: Seq<char>,
    r: int,
    id: u64,
) -> bool {
    &&& newer.len() == older.len()
    &&& (forall|j: int| 0 <= j < older.len() && j != ci ==> newer[j] == older[j])
    &&& newer[ci].name == older[ci].name
    &&& newer[ci].entries@.len() == older[ci].entries@.len() + 1
    &&& newer[ci].entries@.drop_last() == older[ci].entries@
    &&& newer[ci].entries@.last().title@ == t
    &&& newer[ci].entries@.last().rating == r
    &&& newer[ci].entries@.last().id == id
    &&& newer[ci].entries@.last().image is None
}

/// As `appended_entry`, with the appended entry given as a value.
pub open spec fn appended_raw(older: Seq<Category>, newer: Seq<Category>, ci: int, e: Entry) -> bool {
    &&& newer.len() == older.len()
    &&& (forall|j: int| 0 <= j < older.len() && j != ci ==> newer[j] == older[j])
    &&& newer[ci].name == older[ci].name
    &&& newer[ci].entries@ == older[ci].entries@.push(e)
}

/// The entry count of each category, in stored order: the weights of the
/// proportional category sampler.
pub open spec fn category_weights(cats: Seq<Category>) -> Seq<usize> {
    Seq::new(cats.len(), |i: int| cats[i].entries@.len() as usize)
}

/// A whole-category Elo re-rank of `c` can be scheduled: its match count
/// `n * clog2(n)` fits the machine word.
pub open spec fn category_elo_budget_ok(c: Category) -> bool {
    (c.entries@.len() as int) * crate::order_stat::clog2(c.entries@.len() as int)
        <= usize::MAX as int
}

/// Every category can be re-ranked, whichever one the sampler picks: there
/// is at least one, each holds at least two entries, the combined entry
/// count fits the machine word, and in Elo mode each category's match count
/// does too.  Under these conditions a weighted random re-rank is owed
/// success.
pub open spec fn all_categories_rankable(m: Model) -> bool {
    &&& m.categories@.len() >= 1
    &&& (forall|i: int|
        0 <= i < m.categories@.len() ==> (#[trigger] m.categories@[i]).entries@.len() >= 2)
    &&& crate::scheduler::total_weight(category_weights(m.categories@)) <= usize::MAX as int
    &&& (m.strategy is Elo ==> forall|i: int|
        0 <= i < m.categories@.len() ==> category_elo_budget_ok(#[trigger] m.categories@[i]))
}

/// Why a weighted random re-rank can fail: no categories, no entries at
/// all, a combined entry count beyond the machine word, or some category
/// the sampler could pick that cannot be re-ranked.
pub open spec fn no_rankable_reason(m: Model) -> bool {
    ||| m.categories@.len() == 0
    ||| crate::scheduler::total_weight(category_weights(m.categories@)) == 0
    ||| crate::scheduler::total_weight(category_weights(m.categories@)) > usize::MAX as int
    ||| exists|i: int|
        0 <= i < m.categories@.len() && ((#[trigger] m.categories@[i]).entries@.len() < 2 || (
        m.strategy is Elo && !category_elo_budget_ok(m.categories@[i])))
}

/// The category lists agree except at `ci`, whose entries became `es` and
/// whose name is unchanged.
pub open spec fn updated_entries(
    older: Seq<Category>,
    newer: Seq<Category>,
    ci: int,
    es: Seq<Entry>,
) -> bool {
    &&& newer.len() == older.len()
    &&& (forall|j: int| 0 <= j < older.len() && j != ci ==> newer[j] == older[j])
    &&& newer[ci].name == older[ci].name
    &&& newer[ci].entries@ == es
}

/// `e` with its rating replaced: the same title, identity and illustration.
pub open spec fn with_rating(e: Entry, r: i64) -> Entry {
    Entry { title: e.title, rating: r, id: e.id, image: e.image }
}

/// The entries after one Elo judgment, before re-sorting: the winner at
/// `wi` and the loser at `li` carry their ratings as the Elo rule updates
/// them.
pub open spec fn elo_updated_entries(es: Seq<Entry>, wi: int, li: int, k: int, clamped: bool) -> Seq<
    Entry,
> {
    let nw = crate::elo::elo_winner_new(k, clamped, es[wi].rating as int, es[li].rating as int);
    let nl = crate::elo::elo_loser_new(k, clamped, es[wi].rating as int, es[li].rating as int);
    es.update(wi, with_rating(es[wi], nw as i64)).update(li, with_rating(es[li], nl as i64))
}

/// `with_rating` computed on the machine.
fn entry_with_rating(e: &Entry, r: i64) -> (out: Entry)
    ensures
        out == with_rating(*e, r),
{
    let copy = clone_entry(e);
    Entry { title: copy.title, rating: r, id: copy.id, image: copy.image }
}

/// Swapping two adjacent entries keeps a category's invariant.
proof fn lemma_swap_keeps_category_wf(es: Seq<Entry>, ii: int)
    requires
        unique_titles(es),
        ratings_bounded(es),
        0 <= ii,
        ii + 1 < es.len(),
    ensures
        unique_titles(es.update(ii, es[ii + 1]).update(ii + 1, es[ii])),
        ratings_bounded(es.update(ii, es[ii + 1]).update(ii + 1, es[ii])),
{
    let sw = es.update(ii, es[ii + 1]).update(ii + 1, es[ii]);
    assert forall|p: int, q: int| 0 <= p < q < sw.len() implies sw[p].title@ != sw[q].title@ by {
        let sp = if p == ii {
            ii + 1
        } else if p == ii + 1 {
            ii
        } else {
            p
        };
        let sq = if q == ii {
            ii + 1
        } else if q == ii + 1 {
            ii
        } else {
            q
        };
        assert(sw[p] == es[sp] && sw[q] == es[sq] && sp != sq);
        if sp < sq {
            assert(es[sp].title@ != es[sq].title@);
        } else {
            assert(es[sq].title@ != es[sp].title@);
        }
    }
    assert forall|p: int| 0 <= p < sw.len() implies -RATING_LIMIT <= #[trigger] sw[p].rating
        <= RATING_LIMIT by {
        let sp = if p == ii {
            ii + 1
        } else if p == ii + 1 {
            ii
        } else {
            p
        };
        assert(sw[p] == es[sp]);
    }
}

/// Replacing one entry's rating with an on-scale value keeps a category's
/// invariant: the titles do not move.
proof fn lemma_update_rating_keeps_wf(es: Seq<Entry>, i: int, r: i64)
    requires
        unique_titles(es),
        ratings_bounded(es),
        0 <= i < es.len(),
        -RATING_LIMIT <= r <= RATING_LIMIT,
    ensures
        unique_titles(es.update(i, with_rating(es[i], r))),
        ratings_bounded(es.update(i, with_rating(es[i], r))),
{
    let up = es.update(i, with_rating(es[i], r));
    assert(forall|j: int| 0 <= j < up.len() ==> #[trigger] up[j].title@ == es[j].title@);
    assert forall|p: int, q: int| 0 <= p < q < up.len() implies up[p].title@ != up[q].title@ by {
        assert(es[p].title@ != es[q].title@);
    }
}

/// A pushed entry is an appended entry: the new list drops back to the old
/// one and ends in the pushed value.
proof fn lemma_push_is_append(older: Seq<Category>, newer: Seq<Category>, ci: int, e: Entry)
    requires
        0 <= ci < older.len(),
        newer[ci].entries@ == older[ci].entries@.push(e),
    ensures
        newer[ci].entries@.drop_last() =~= older[ci].entries@,
        newer[ci].entries@.last() == e,
        newer[ci].entries@.len() == older[ci].entries@.len() + 1,
{
    assert(newer[ci].entries@.drop_last() =~= older[ci].entries@);
}

/// With unique category names, the found position is the chosen one.
proof fn lemma_cat_index_unique(m: &Model, i: int, n: Seq<char>)
    requires
        unique_names(m.categories@),
        0 <= i < m.categories@.len(),
        m.categories@[i].name@ == n,
    ensures
        m.cat_index(n) == i,
{
    let c = m.cat_index(n);
    assert(0 <= c < m.categories@.len() && m.categories@[c].name@ == n);
    if c != i {
        if c < i {
            assert(m.categories@[c].name@ != m.categories@[i].name@);
        } else {
            assert(m.categories@[i].name@ != m.categories@[c].name@);
        }
    }
}

/// Removing a category keeps the store invariant.
proof fn lemma_remove_cat_wf(cats: Seq<Category>, i: int)
    requires
        store_wf(cats),
        0 <= i < cats.len(),
    ensures
        store_wf(cats.remove(i)),
{
    let r = cats.remove(i);
    assert forall|p: int, q: int| 0 <= p < q < r.len() implies r[p].name@ != r[q].name@ by {
        let sp = if p < i { p } else { p + 1 };
        let sq = if q < i { q } else { q + 1 };
        assert(r[p] == cats[sp] && r[q] == cats[sq] && sp < sq);
    }
    assert forall|p: int| 0 <= p < r.len() implies category_wf(#[trigger] r[p]) by {
        let sp = if p < i { p } else { p + 1 };
        assert(r[p] == cats[sp]);
    }
}

} // verus!
