use vstd::prelude::*;
use vstd::string::*;

use crate::error::LeaderboardError;

verus! {

/// A persisted score: an identity assigned by the store, a name and a score.
#[derive(Debug)]
pub struct ScoreEntry {
    pub id: u64,
    pub name: String,
    pub score: i32,
}

/// The mathematical value of a `ScoreEntry`.
pub ghost struct EntryView {
    pub id: u64,
    pub name: Seq<char>,
    pub score: i32,
}

impl View for ScoreEntry {
    type V = EntryView;

    open spec fn view(&self) -> EntryView {
        EntryView { id: self.id, name: self.name@, score: self.score }
    }
}

/// An entry of a top-N answer: a name, its score and the dense rank of that score.
#[derive(Debug)]
pub struct RankedEntry {
    pub name: String,
    pub score: i32,
    pub rank: usize,
}

/// The mathematical value of a `RankedEntry`.
pub ghost struct RankedView {
    pub name: Seq<char>,
    pub score: i32,
    pub rank: nat,
}

impl View for RankedEntry {
    type V = RankedView;

    open spec fn view(&self) -> RankedView {
        RankedView { name: self.name@, score: self.score, rank: self.rank as nat }
    }
}

pub open spec fn entry_views(es: Seq<ScoreEntry>) -> Seq<EntryView> {
    es.map_values(|e: ScoreEntry| e@)
}

pub open spec fn ranked_views(rs: Seq<RankedEntry>) -> Seq<RankedView> {
    rs.map_values(|r: RankedEntry| r@)
}

/// Whether a character has the Unicode White_Space property.
pub uninterp spec fn is_space(c: char) -> bool;

/// Relies on `char::is_whitespace`: whether `c` has the Unicode White_Space
/// property (a fixed table; the space character is one of them).
#[verifier::external_body]
fn char_is_space(c: char) -> (r: bool)
    ensures
        r == is_space(c),
        c == ' ' ==> r,
{
    c.is_whitespace()
}

/// A name is blank when it is empty or made of white space only.
pub open spec fn is_blank(name: Seq<char>) -> bool {
    forall|i: int| 0 <= i < name.len() ==> is_space(#[trigger] name[i])
}

/// Accepts a name unless it is blank.
pub fn validate_name(name: &str) -> (r: Result<(), LeaderboardError>)
    ensures
        r is Err <==> is_blank(name@),
        r is Err ==> r == Err::<(), LeaderboardError>(LeaderboardError::ValidationError),
{
    let len = name.unicode_len();
    let mut i: usize = 0;
    while i < len
        invariant
            len == name@.len(),
            i <= len,
            forall|j: int| 0 <= j < i ==> is_space(#[trigger] name@[j]),
        decreases len - i,
    {
        let c = name.get_char(i);
        if !char_is_space(c) {
            return Ok(());
        }
        i += 1;
    }
    Err(LeaderboardError::ValidationError)
}

} // verus!
