use vstd::prelude::*;

use crate::entry::{entry_views, is_blank, ranked_views, validate_name, EntryView, RankedEntry, RankedView, ScoreEntry};
use crate::error::LeaderboardError;
use crate::ranking::{among_top, lemma_top_n_lists_entry, levels, rank_top_n, top_n_view};

verus! {

/// An append-only in-memory score store: entries in insertion order, each
/// with an identity drawn from a monotonic counter.
pub struct Leaderboard {
    entries: Vec<ScoreEntry>,
    next_id: u64,
}

impl View for Leaderboard {
    type V = Seq<EntryView>;

    closed spec fn view(&self) -> Seq<EntryView> {
        entry_views(self.entries@)
    }
}

/// Identities strictly increase in insertion order and stay below `next`.
pub open spec fn ids_ordered(es: Seq<EntryView>, next: u64) -> bool {
    &&& forall|i: int, j: int| 0 <= i < j < es.len() ==> (#[trigger] es[i]).id < (#[trigger] es[j]).id
    &&& forall|i: int| 0 <= i < es.len() ==> (#[trigger] es[i]).id < next
}

impl Leaderboard {
    /// The identity the next recorded entry receives.
    pub closed spec fn next_id_spec(&self) -> u64 {
        self.next_id
    }

    pub open spec fn wf(&self) -> bool {
        ids_ordered(self@, self.next_id_spec())
    }

    /// An empty store.
    pub fn new() -> (r: Leaderboard)
        ensures
            r.wf(),
            r@ == Seq::<EntryView>::empty(),
            r.next_id_spec() == 1,
    {
        let r = Leaderboard { entries: Vec::new(), next_id: 1 };
        assert(r@ =~= Seq::<EntryView>::empty());
        r
    }

    /// The number of stored entries.
    pub fn len(&self) -> (r: usize)
        ensures
            r == self@.len(),
    {
        self.entries.len()
    }

    /// Records `score` under `name`. A blank name is refused before the store
    /// is touched; when the identities are used up the store refuses the row.
    /// On success exactly one entry, with the next identity, is appended.
    pub fn submit(&mut self, name: &str, score: i32) -> (r: Result<(), LeaderboardError>)
        requires
            old(self).wf(),
        ensures
            final(self).wf(),
            is_blank(name@) ==> r == Err::<(), LeaderboardError>(LeaderboardError::ValidationError),
            !is_blank(name@) && old(self).next_id_spec() == u64::MAX ==> r == Err::<
                (),
                LeaderboardError,
            >(LeaderboardError::StorageError),
            !is_blank(name@) && old(self).next_id_spec() < u64::MAX ==> r is Ok,
            r is Ok ==> final(self)@ == old(self)@.push(
                EntryView { id: old(self).next_id_spec(), name: name@, score },
            ) && final(self).next_id_spec() == old(self).next_id_spec() + 1,
            r is Err ==> final(self)@ == old(self)@ && final(self).next_id_spec()
                == old(self).next_id_spec(),
    {
        match validate_name(name) {
            Err(e) => {
                return Err(e);
            },
            Ok(()) => {},
        }
        if self.next_id == u64::MAX {
            return Err(LeaderboardError::StorageError);
        }
        let ghost before = self.entries@;
        let id = self.next_id;
        self.entries.push(ScoreEntry { id, name: name.to_string(), score });
        self.next_id = id + 1;
        assert(entry_views(self.entries@) =~= entry_views(before).push(
            EntryView { id, name: name@, score },
        ));
        Ok(())
    }

    /// The entries whose score is among the `n` highest distinct scores, with
    /// their dense ranks; ties in insertion order. The store is not changed.
    pub fn top_n(&self, n: usize) -> (r: Vec<RankedEntry>)
        ensures
            ranked_views(r@) == top_n_view(self@, n as nat),
            n == 0 ==> r@.len() == 0,
    {
        let r = rank_top_n(&self.entries, n);
        assert(ranked_views(r@).len() == r@.len());
        r
    }
}

/// A score just recorded is listed by a following top-`n` query, under its
/// name, whenever its value is among the `n` highest distinct scores held.
pub proof fn lemma_submit_then_listed(before: Seq<EntryView>, id: u64, name: Seq<char>, score: i32, n: nat)
    requires
        among_top(before.push(EntryView { id, name, score }), score, n),
    ensures
        exists|i: int|
            0 <= i < top_n_view(before.push(EntryView { id, name, score }), n).len() && {
                let e = #[trigger] top_n_view(before.push(EntryView { id, name, score }), n)[i];
                e.name == name && e.score == score
            },
{
    let es = before.push(EntryView { id, name, score });
    let last = before.len() as int;
    assert(es[last].score == score);
    lemma_top_n_lists_entry(es, last, n);
    let k = choose|k: int|
        0 <= k < n && k < levels(es).len() && levels(es)[k]
            == es[last].score && top_n_view(es, n).contains(
            RankedView { name: es[last].name, score: es[last].score, rank: (k + 1) as nat },
        );
    let item = RankedView { name, score, rank: (k + 1) as nat };
    let m = choose|m: int| 0 <= m < top_n_view(es, n).len() && top_n_view(es, n)[m] == item;
    assert(top_n_view(es, n)[m].name == name);
}

/// Reading does not disturb reading: two top-`n` queries on a store with no
/// submission between them give answers with equal values.
pub proof fn lemma_read_repeatable(board: Leaderboard, first: Seq<RankedEntry>, second: Seq<RankedEntry>, n: nat)
    requires
        ranked_views(first) == top_n_view(board@, n),
        ranked_views(second) == top_n_view(board@, n),
    ensures
        ranked_views(first) == ranked_views(second),
{
}

} // verus!
