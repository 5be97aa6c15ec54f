//! Ranked results.
//!
//! A score is a 32-bit floating-point number. It is kept here by its bits,
//! as IEEE 754 lays them out: the sign, eight bits of exponent, twenty-three
//! bits of fraction. In this form scores can be told apart and put in order
//! with integers alone.

use crate::strmap::lemma_take_next;
use vstd::multiset::Multiset;
use vstd::prelude::*;

verus! {

/// The bits of a score without its sign.
pub open spec fn magnitude(score: u32) -> int {
    score as int % 0x8000_0000
}

/// The score is not a number: its exponent is all ones and its fraction is
/// not zero.
pub open spec fn is_nan(score: u32) -> bool {
    magnitude(score) > 0x7f80_0000
}

/// The score is zero, positive or negative.
pub open spec fn is_zero(score: u32) -> bool {
    magnitude(score) == 0
}

/// A score earns its document a place in the results if it is a number and
/// not zero.
pub open spec fn counts(score: u32) -> bool {
    !is_nan(score) && !is_zero(score)
}

/// An integer that orders scores as their values do: of two scores that are
/// numbers, the greater has the greater rank.
pub open spec fn rank(score: u32) -> int {
    if score < 0x8000_0000 {
        score as int
    } else {
        0x8000_0000 - score
    }
}

/// A document with its score.
#[derive(Debug)]
pub struct Record {
    pub path: String,
    /// The bits of the score.
    pub score: u32,
}

impl Record {
    /// The record of the document at `path` with the score whose bits are
    /// `score`.
    pub fn new(path: String, score: u32) -> (record: Record)
        ensures
            record.path == path,
            record.score == score,
    {
        Record { path, score }
    }
}

/// The answer to a query.
#[derive(Debug)]
pub struct QueryResult {
    pub result: Vec<Record>,
}

impl From<Vec<Record>> for QueryResult {
    fn from(value: Vec<Record>) -> (result: QueryResult) {
        QueryResult { result: value }
    }
}

impl vstd::std_specs::convert::FromSpecImpl<Vec<Record>> for QueryResult {
    open spec fn obeys_from_spec() -> bool {
        true
    }

    open spec fn from_spec(value: Vec<Record>) -> QueryResult {
        QueryResult { result: value }
    }
}

/// The records are in the order of their scores, the greatest first.
pub open spec fn descending(records: Seq<Record>) -> bool {
    forall|i: int, j: int|
        0 <= i < j < records.len() ==> rank(#[trigger] records[i].score) >= rank(
            #[trigger] records[j].score,
        )
}

/// The records of `scored` whose score counts.
pub open spec fn countable(scored: Seq<Record>) -> Seq<Record> {
    scored.filter(|r: Record| counts(r.score))
}

fn score_counts(score: u32) -> (r: bool)
    ensures
        r == counts(score),
{
    let magnitude = score % 0x8000_0000;
    magnitude != 0 && magnitude <= 0x7f80_0000
}

fn rank_of(score: u32) -> (r: i64)
    ensures
        r == rank(score),
{
    if score < 0x8000_0000 {
        score as i64
    } else {
        0x8000_0000i64 - (score as i64)
    }
}

/// The place in `records` of a record that no other outranks.
fn best_of(records: &Vec<Record>) -> (best: usize)
    requires
        records@.len() > 0,
    ensures
        best < records@.len(),
        forall|k: int|
            0 <= k < records@.len() ==> rank(#[trigger] records@[k].score) <= rank(
                records@[best as int].score,
            ),
{
    let mut best: usize = 0;
    let mut j: usize = 1;
    while j < records.len()
        invariant
            best < records@.len(),
            1 <= j <= records@.len(),
            forall|k: int|
                0 <= k < j ==> rank(#[trigger] records@[k].score) <= rank(
                    records@[best as int].score,
                ),
        decreases records@.len() - j,
    {
        if rank_of(records[j].score) >= rank_of(records[best].score) {
            best = j;
        }
        j = j + 1;
    }
    best
}

impl QueryResult {
    /// Ranks scored documents: drops those whose score is zero or not a
    /// number, and puts the others in the order of their scores, the
    /// greatest first. The order among equal scores is not fixed.
    pub fn ranked(scored: Vec<Record>) -> (ranking: QueryResult)
        ensures
            descending(ranking.result@),
            ranking.result@.to_multiset() == countable(scored@).to_multiset(),
    {
        let ghost all = scored@;
        let ghost keep = |r: Record| counts(r.score);
        let mut rest: Vec<Record> = Vec::new();
        proof {
            assert(all.take(0) =~= Seq::<Record>::empty());
            all.take(0).lemma_filter_len(keep);
            assert(rest@ =~= all.take(0).filter(keep));
        }
        for record in it: scored
            invariant
                it.seq() == all,
                keep == |r: Record| counts(r.score),
                rest@ == all.take(it.index() as int).filter(keep),
        {
            proof {
                lemma_take_next(all, it.index() as int);
                all.take(it.index() as int).lemma_filter_push(record, keep);
            }
            if score_counts(record.score) {
                rest.push(record);
            }
        }
        assert(all.take(all.len() as int) =~= all);
        let ghost kept = rest@;
        let mut out: Vec<Record> = Vec::new();
        proof {
            assert(out@.to_multiset().add(rest@.to_multiset()) =~= kept.to_multiset()) by {
                broadcast use vstd::multiset::group_multiset_axioms;

                out@.to_multiset_ensures();
            }
        }
        while rest.len() > 0
            invariant
                out@.to_multiset().add(rest@.to_multiset()) == kept.to_multiset(),
                descending(out@),
                forall|a: int, b: int|
                    0 <= a < out@.len() && 0 <= b < rest@.len() ==> rank(
                        #[trigger] out@[a].score,
                    ) >= rank(#[trigger] rest@[b].score),
            decreases rest@.len(),
        {
            let best = best_of(&rest);
            let ghost before_rest = rest@;
            let ghost before_out = out@;
            let record = rest.remove(best);
            out.push(record);
            proof {
                broadcast use vstd::multiset::group_multiset_axioms;

                before_rest.to_multiset_ensures();
                before_out.to_multiset_ensures();
                assert(rest@ =~= before_rest.remove(best as int));
                assert(before_rest.contains(record));
                assert(out@.to_multiset().add(rest@.to_multiset()) =~= before_out.to_multiset().add(
                    before_rest.to_multiset(),
                ));
                assert forall|b: int| 0 <= b < rest@.len() implies rank(record.score) >= rank(
                    #[trigger] rest@[b].score,
                ) by {
                    let b0 = if b < best { b } else { b + 1 };
                    assert(rest@[b] == before_rest[b0]);
                }
            }
        }
        proof {
            broadcast use vstd::multiset::group_multiset_axioms;

            rest@.to_multiset_ensures();
            assert(rest@.to_multiset() =~= Multiset::<Record>::empty());
            assert(out@.to_multiset() =~= kept.to_multiset());
        }
        QueryResult { result: out }
    }
}

} // verus!
