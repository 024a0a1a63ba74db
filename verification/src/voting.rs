//! Votes, rounds of votes and finality certificates.

use std::collections::HashMap;
use vstd::prelude::*;
use vstd::std_specs::hash::spec_keys_iter;
use vstd::std_specs::iter::IteratorSpec;
use crate::block::{Block, BlockNumber};
use crate::fault::Fault;
use crate::chain::{includes, too_deep, Chain, ChainError};
use crate::names::{
    first_occurrences, lemma_first_occurrences, lemma_name_lt_irreflexive,
    lemma_name_lt_transitive, name_lt, names_ascending, same_name, sort_names, unique_names, Name,
    VoterId, VoterName,
};
use crate::protocol::{Equivocation, EquivocationView, QueryResponse};

verus! {

broadcast use vstd::std_specs::hash::group_hash_axioms;

pub type RoundNumber = u64;

/// What a vote says as the contracts see it: who voted, and for which block.
pub struct Ballot {
    pub voter: Name,
    pub target: BlockNumber,
}

/// A finality certificate as the contracts see it.
pub struct CommitView {
    pub target: BlockNumber,
    pub precommits: Seq<Ballot>,
}

/// A vote of the first phase of a round.
#[derive(Clone, Copy, Debug, Hash, PartialEq, Eq)]
pub struct Prevote {
    pub target_number: BlockNumber,
    pub id: VoterName,
}

/// A vote of the second phase of a round. A supermajority of precommits for
/// a block finalizes it.
#[derive(Clone, Copy, Debug, Hash, PartialEq, Eq)]
pub struct Precommit {
    pub target_number: BlockNumber,
    pub id: VoterName,
}

impl View for Prevote {
    type V = Ballot;

    open spec fn view(&self) -> Ballot {
        Ballot { voter: self.id@, target: self.target_number }
    }
}

impl DeepView for Prevote {
    type V = Ballot;

    open spec fn deep_view(&self) -> Ballot {
        self@
    }
}

impl View for Precommit {
    type V = Ballot;

    open spec fn view(&self) -> Ballot {
        Ballot { voter: self.id@, target: self.target_number }
    }
}

impl DeepView for Precommit {
    type V = Ballot;

    open spec fn deep_view(&self) -> Ballot {
        self@
    }
}

impl Prevote {
    pub fn new(target_number: BlockNumber, id: VoterName) -> (vote: Self)
        ensures
            vote.target_number == target_number,
            vote.id == id,
    {
        Self { target_number, id }
    }
}

impl Precommit {
    pub fn new(target_number: BlockNumber, id: VoterName) -> (vote: Self)
        ensures
            vote.target_number == target_number,
            vote.id == id,
    {
        Self { target_number, id }
    }
}

/// A finality certificate: a block and the precommits that finalized it.
/// Whether the precommits are a supermajority is for the caller to judge.
#[derive(Debug, PartialEq, Eq)]
pub struct Commit {
    pub target_number: BlockNumber,
    pub precommits: Vec<Precommit>,
}

impl DeepView for Commit {
    type V = CommitView;

    open spec fn deep_view(&self) -> CommitView {
        CommitView { target: self.target_number, precommits: self.precommits.deep_view() }
    }
}

impl Clone for Commit {
    fn clone(&self) -> (copy: Self)
        ensures
            copy.target_number == self.target_number,
            copy.precommits@ == self.precommits@,
            copy.deep_view() == self.deep_view(),
    {
        let copy = Commit {
            target_number: self.target_number,
            precommits: copy_votes(&self.precommits),
        };
        assert(copy.precommits.deep_view() =~= self.precommits.deep_view());
        copy
    }
}

impl Commit {
    pub fn new(target_number: BlockNumber, precommits: Vec<Precommit>) -> (commit: Self)
        ensures
            commit.target_number == target_number,
            commit.precommits == precommits,
    {
        Self { target_number, precommits }
    }

    /// Who precommitted, precommit by precommit.
    pub fn names(&self) -> (names: Vec<VoterName>)
        ensures
            names.deep_view() == voter_names(self.deep_view().precommits),
    {
        let mut names: Vec<VoterName> = Vec::new();
        let mut i: usize = 0;
        while i < self.precommits.len()
            invariant
                i <= self.precommits.len(),
                names.len() == i,
                forall|k: int| 0 <= k < i ==> names[k]@ == self.precommits[k].id@,
            decreases self.precommits.len() - i,
        {
            names.push(self.precommits[i].id);
            i += 1;
        }
        assert(names.deep_view() =~= voter_names(self.deep_view().precommits));
        names
    }

    /// Who precommitted, precommit by precommit, as owned names.
    pub fn ids(&self) -> (names: Vec<VoterId>)
        ensures
            names.deep_view() == voter_names(self.deep_view().precommits),
    {
        assert(ballots_of(self.precommits@) =~= self.precommits.deep_view());
        names_of(&self.precommits)
    }

    /// Whether two certificates name the same block and list the same
    /// precommits in the same order.
    pub fn same_as(&self, other: &Commit) -> (same: bool)
        ensures
            same == (self.deep_view() == other.deep_view()),
    {
        if self.target_number != other.target_number {
            return false;
        }
        if self.precommits.len() != other.precommits.len() {
            assert(self.precommits.deep_view().len() != other.precommits.deep_view().len());
            return false;
        }
        let mut i: usize = 0;
        while i < self.precommits.len()
            invariant
                i <= self.precommits.len(),
                self.precommits.len() == other.precommits.len(),
                forall|j: int| 0 <= j < i ==> self.precommits[j]@ == other.precommits[j]@,
            decreases self.precommits.len() - i,
        {
            let a = &self.precommits[i];
            let b = &other.precommits[i];
            if a.target_number != b.target_number || !same_name(a.id, b.id) {
                let ghost k = i as int;
                assert(self.precommits.deep_view()[k] != other.precommits.deep_view()[k]);
                return false;
            }
            i += 1;
        }
        assert(self.precommits.deep_view() =~= other.precommits.deep_view());
        true
    }
}

/// A vote: who cast it, and for which block.
pub trait Vote: std::hash::Hash + Eq {
    /// What the vote says.
    spec fn ballot(&self) -> Ballot;

    fn id(&self) -> (name: VoterName)
        ensures
            name@ == self.ballot().voter,
    ;

    fn target(&self) -> (number: BlockNumber)
        ensures
            number == self.ballot().target,
    ;
}

impl Vote for Prevote {
    open spec fn ballot(&self) -> Ballot {
        self@
    }

    fn id(&self) -> (name: VoterName) {
        self.id
    }

    fn target(&self) -> (number: BlockNumber) {
        self.target_number
    }
}

impl Vote for Precommit {
    open spec fn ballot(&self) -> Ballot {
        self@
    }

    fn id(&self) -> (name: VoterName) {
        self.id
    }

    fn target(&self) -> (number: BlockNumber) {
        self.target_number
    }
}

/// What each of the votes says.
pub open spec fn ballots_of<V: Vote>(votes: Seq<V>) -> Seq<Ballot> {
    votes.map_values(|v: V| v.ballot())
}

/// `voter` voted for two different blocks.
pub open spec fn equivocated(votes: Seq<Ballot>, voter: Name) -> bool {
    exists|t1: BlockNumber, t2: BlockNumber|
        t1 != t2 && #[trigger] votes.contains(Ballot { voter, target: t1 }) && #[trigger] votes.contains(
            Ballot { voter, target: t2 },
        )
}

/// The numbers are strictly ascending.
pub open spec fn numbers_ascending(numbers: Seq<BlockNumber>) -> bool {
    forall|i: int, j: int| 0 <= i < j < numbers.len() ==> numbers[i] < numbers[j]
}

/// `evidence` shows that its voter equivocated in `votes`: it lists, in
/// ascending order and each once, the blocks that the voter voted for, and
/// they are two at least.
pub open spec fn proves_equivocation(votes: Seq<Ballot>, evidence: EquivocationView) -> bool {
    &&& evidence.blocks.len() >= 2
    &&& numbers_ascending(evidence.blocks)
    &&& forall|t: BlockNumber|
        evidence.blocks.contains(t) <==> votes.contains(Ballot { voter: evidence.voter, target: t })
}

/// `found` is what a cross-check of `votes` finds: a proof for each voter
/// who equivocated, and for no one else, in ascending order of the voters.
pub open spec fn is_cross_check(votes: Seq<Ballot>, found: Seq<EquivocationView>) -> bool {
    &&& forall|i: int| 0 <= i < found.len() ==> proves_equivocation(votes, #[trigger] found[i])
    &&& forall|i: int, j: int|
        0 <= i < j < found.len() ==> name_lt(#[trigger] found[i].voter, #[trigger] found[j].voter)
    &&& forall|voter: Name|
        equivocated(votes, voter) ==> exists|i: int|
            0 <= i < found.len() && #[trigger] found[i].voter == voter
}

/// Two ascending sequences of names with the same members are the same.
proof fn lemma_ascending_names_equal(a: Seq<Name>, b: Seq<Name>)
    requires
        names_ascending(a),
        names_ascending(b),
        forall|n: Name| a.contains(n) <==> b.contains(n),
    ensures
        a == b,
    decreases a.len(),
{
    if a.len() == 0 {
        if b.len() > 0 {
            assert(b.contains(b[0]));
        }
        assert(a =~= b);
    } else if b.len() == 0 {
        assert(a.contains(a[0]));
    } else {
        assert(a.contains(a[0]));
        assert(b.contains(b[0]));
        let j = choose|j: int| 0 <= j < b.len() && b[j] == a[0];
        let i = choose|i: int| 0 <= i < a.len() && a[i] == b[0];
        if a[0] != b[0] {
            lemma_name_lt_transitive(a[0], a[i], a[0]);
            lemma_name_lt_irreflexive(a[0]);
        }
        let ta = a.drop_first();
        let tb = b.drop_first();
        assert forall|n: Name| ta.contains(n) <==> tb.contains(n) by {
            if ta.contains(n) {
                let k = choose|k: int| 0 <= k < ta.len() && ta[k] == n;
                assert(a[k + 1] == n);
                assert(a.contains(n));
                let m = choose|m: int| 0 <= m < b.len() && b[m] == n;
                if m == 0 {
                    lemma_name_lt_irreflexive(n);
                }
                assert(tb[m - 1] == n);
            }
            if tb.contains(n) {
                let k = choose|k: int| 0 <= k < tb.len() && tb[k] == n;
                assert(b[k + 1] == n);
                assert(b.contains(n));
                let m = choose|m: int| 0 <= m < a.len() && a[m] == n;
                if m == 0 {
                    lemma_name_lt_irreflexive(n);
                }
                assert(ta[m - 1] == n);
            }
        }
        lemma_ascending_names_equal(ta, tb);
        assert(a =~= seq![a[0]] + ta);
        assert(b =~= seq![b[0]] + tb);
    }
}

/// Two ascending sequences of numbers with the same members are the same.
proof fn lemma_ascending_numbers_equal(a: Seq<BlockNumber>, b: Seq<BlockNumber>)
    requires
        numbers_ascending(a),
        numbers_ascending(b),
        forall|n: BlockNumber| a.contains(n) <==> b.contains(n),
    ensures
        a == b,
    decreases a.len(),
{
    if a.len() == 0 {
        if b.len() > 0 {
            assert(b.contains(b[0]));
        }
        assert(a =~= b);
    } else if b.len() == 0 {
        assert(a.contains(a[0]));
    } else {
        assert(a.contains(a[0]));
        assert(b.contains(b[0]));
        let j = choose|j: int| 0 <= j < b.len() && b[j] == a[0];
        let i = choose|i: int| 0 <= i < a.len() && a[i] == b[0];
        assert(a[0] == b[0]);
        let ta = a.drop_first();
        let tb = b.drop_first();
        assert forall|n: BlockNumber| ta.contains(n) <==> tb.contains(n) by {
            if ta.contains(n) {
                let k = choose|k: int| 0 <= k < ta.len() && ta[k] == n;
                assert(a[k + 1] == n);
                assert(a.contains(n));
                let m = choose|m: int| 0 <= m < b.len() && b[m] == n;
                assert(tb[m - 1] == n);
            }
            if tb.contains(n) {
                let k = choose|k: int| 0 <= k < tb.len() && tb[k] == n;
                assert(b[k + 1] == n);
                assert(b.contains(n));
                let m = choose|m: int| 0 <= m < a.len() && a[m] == n;
                assert(ta[m - 1] == n);
            }
        }
        lemma_ascending_numbers_equal(ta, tb);
        assert(a =~= seq![a[0]] + ta);
        assert(b =~= seq![b[0]] + tb);
    }
}

/// A proof of equivocation names a voter who equivocated.
pub proof fn lemma_proof_names_equivocator(votes: Seq<Ballot>, evidence: EquivocationView)
    requires
        proves_equivocation(votes, evidence),
    ensures
        equivocated(votes, evidence.voter),
{
    let t1 = evidence.blocks[0];
    let t2 = evidence.blocks[1];
    assert(evidence.blocks.contains(t1));
    assert(evidence.blocks.contains(t2));
    assert(votes.contains(Ballot { voter: evidence.voter, target: t1 }));
    assert(votes.contains(Ballot { voter: evidence.voter, target: t2 }));
}

/// A set of votes has one cross-check and no other: which voters it names,
/// in which order, and with which blocks, is settled by the votes.
pub proof fn lemma_cross_check_unique(
    votes: Seq<Ballot>,
    found: Seq<EquivocationView>,
    other: Seq<EquivocationView>,
)
    requires
        is_cross_check(votes, found),
        is_cross_check(votes, other),
    ensures
        found == other,
{
    let a = found.map_values(|e: EquivocationView| e.voter);
    let b = other.map_values(|e: EquivocationView| e.voter);
    assert forall|n: Name| a.contains(n) <==> b.contains(n) by {
        if a.contains(n) {
            let i = choose|i: int| 0 <= i < a.len() && a[i] == n;
            lemma_proof_names_equivocator(votes, found[i]);
            let j = choose|j: int| 0 <= j < other.len() && #[trigger] other[j].voter == n;
            assert(b[j] == n);
        }
        if b.contains(n) {
            let i = choose|i: int| 0 <= i < b.len() && b[i] == n;
            lemma_proof_names_equivocator(votes, other[i]);
            let j = choose|j: int| 0 <= j < found.len() && #[trigger] found[j].voter == n;
            assert(a[j] == n);
        }
    }
    assert(names_ascending(a)) by {
        assert forall|i: int, j: int| 0 <= i < j < a.len() implies name_lt(a[i], a[j]) by {
            assert(a[i] == found[i].voter && a[j] == found[j].voter);
        }
    }
    assert(names_ascending(b)) by {
        assert forall|i: int, j: int| 0 <= i < j < b.len() implies name_lt(b[i], b[j]) by {
            assert(b[i] == other[i].voter && b[j] == other[j].voter);
        }
    }
    lemma_ascending_names_equal(a, b);
    assert(a.len() == found.len());
    assert(b.len() == other.len());
    assert(found.len() == other.len());
    assert forall|i: int| 0 <= i < found.len() implies found[i] == other[i] by {
        assert(a[i] == found[i].voter);
        assert(b[i] == other[i].voter);
        assert(proves_equivocation(votes, found[i]));
        assert(proves_equivocation(votes, other[i]));
        lemma_ascending_numbers_equal(found[i].blocks, other[i].blocks);
    }
    assert(found =~= other);
}

/// Puts `number` into the ascending numbers `numbers`, unless it is there.
fn insert_number(numbers: &mut Vec<BlockNumber>, number: BlockNumber)
    requires
        numbers_ascending(old(numbers)@),
    ensures
        numbers_ascending(final(numbers)@),
        forall|t: BlockNumber|
            final(numbers)@.contains(t) <==> (old(numbers)@.contains(t) || t == number),
{
    let ghost before = numbers@;
    let mut at: usize = 0;
    while at < numbers.len() && numbers[at] < number
        invariant
            at <= numbers.len(),
            numbers@ == before,
            forall|k: int| 0 <= k < at ==> before[k] < number,
        decreases numbers.len() - at,
    {
        at += 1;
    }
    if at < numbers.len() && numbers[at] == number {
        assert(before.contains(number));
        return ;
    }
    numbers.insert(at, number);
    proof {
        let after = numbers@;
        assert forall|t: BlockNumber| after.contains(t) <==> (before.contains(t) || t
            == number) by {
            if after.contains(t) {
                let k = choose|k: int| 0 <= k < after.len() && after[k] == t;
                if k < at {
                    assert(before[k] == t);
                } else if k > at {
                    assert(before[k - 1] == t);
                }
            }
            if before.contains(t) {
                let b = choose|b: int| 0 <= b < before.len() && before[b] == t;
                if b < at {
                    assert(after[b] == t);
                } else {
                    assert(after[b + 1] == t);
                }
            }
            if t == number {
                assert(after[at as int] == t);
            }
        }
    }
}

/// The blocks that `voter` voted for in `votes`, ascending and each once.
fn targets_of<V: Vote>(votes: &Vec<V>, voter: &str) -> (targets: Vec<BlockNumber>)
    ensures
        numbers_ascending(targets@),
        forall|t: BlockNumber|
            targets@.contains(t) <==> ballots_of(votes@).contains(
                Ballot { voter: voter@, target: t },
            ),
{
    let mut targets: Vec<BlockNumber> = Vec::new();
    let mut i: usize = 0;
    let ghost all = ballots_of(votes@);
    while i < votes.len()
        invariant
            i <= votes.len(),
            all == ballots_of(votes@),
            numbers_ascending(targets@),
            forall|t: BlockNumber|
                targets@.contains(t) <==> all.subrange(0, i as int).contains(
                    Ballot { voter: voter@, target: t },
                ),
        decreases votes.len() - i,
    {
        let ghost seen = all.subrange(0, i as int);
        let ghost next = all.subrange(0, i + 1);
        let ghost old_targets = targets@;
        assert(all[i as int] == votes@[i as int].ballot());
        let vote = &votes[i];
        let is_voters = same_name(vote.id(), voter);
        if is_voters {
            insert_number(&mut targets, vote.target());
        }
        proof {
            assert forall|t: BlockNumber| targets@.contains(t) <==> next.contains(
                Ballot { voter: voter@, target: t },
            ) by {
                let b = Ballot { voter: voter@, target: t };
                if next.contains(b) {
                    let k = choose|k: int| 0 <= k < next.len() && next[k] == b;
                    if k < i {
                        assert(seen[k] == b);
                    }
                }
                if seen.contains(b) {
                    let k = choose|k: int| 0 <= k < seen.len() && seen[k] == b;
                    assert(next[k] == b);
                }
                if is_voters && t == vote.ballot().target {
                    assert(next[i as int] == b);
                }
            }
        }
        i += 1;
    }
    assert(all.subrange(0, i as int) == all);
    targets
}

/// The names of those who cast `votes`, vote by vote.
pub fn names_of<V: Vote>(votes: &Vec<V>) -> (names: Vec<VoterId>)
    ensures
        names.deep_view() == ballots_of(votes@).map_values(|b: Ballot| b.voter),
{
    let mut names: Vec<VoterId> = Vec::new();
    let mut i: usize = 0;
    while i < votes.len()
        invariant
            i <= votes.len(),
            names.len() == i,
            forall|k: int| 0 <= k < i ==> names[k]@ == votes@[k].ballot().voter,
        decreases votes.len() - i,
    {
        names.push(votes[i].id().to_owned());
        i += 1;
    }
    assert(names.deep_view() =~= ballots_of(votes@).map_values(|b: Ballot| b.voter));
    names
}

/// Looks in the two sets of votes together for voters who voted for more
/// than one block. Returns a proof for each such voter, in ascending order of
/// the voters, or `None` if there is no such voter.
pub fn cross_check_votes<V: Vote>(votes0: Vec<V>, votes1: Vec<V>) -> (result: Option<
    Vec<Equivocation>,
>)
    ensures
        match result {
            Some(found) => found.len() > 0 && is_cross_check(
                ballots_of(votes0@) + ballots_of(votes1@),
                found.deep_view(),
            ),
            None => forall|voter: Name|
                !equivocated(ballots_of(votes0@) + ballots_of(votes1@), voter),
        },
{
    let mut all = votes0;
    let mut second = votes1;
    all.append(&mut second);
    let ghost votes = ballots_of(all@);
    assert(votes =~= ballots_of(votes0@) + ballots_of(votes1@));
    let names = names_of(&all);
    let distinct = unique_names(names);
    proof {
        lemma_first_occurrences(names.deep_view());
    }
    let sorted = sort_names(&distinct);
    let mut found: Vec<Equivocation> = Vec::new();
    let mut k: usize = 0;
    while k < sorted.len()
        invariant
            k <= sorted.len(),
            votes == ballots_of(all@),
            names_ascending(sorted.deep_view()),
            forall|i: int|
                0 <= i < found.len() ==> proves_equivocation(votes, #[trigger] found.deep_view()[i]),
            forall|i: int|
                0 <= i < found.len() ==> exists|j: int|
                    0 <= j < k && sorted.deep_view()[j] == (#[trigger] found.deep_view()[i]).voter,
            forall|i: int, j: int|
                0 <= i < j < found.len() ==> name_lt(
                    #[trigger] found.deep_view()[i].voter,
                    #[trigger] found.deep_view()[j].voter,
                ),
            forall|j: int|
                0 <= j < k && equivocated(votes, #[trigger] sorted.deep_view()[j]) ==> exists|i: int|
                    0 <= i < found.len() && #[trigger] found.deep_view()[i].voter
                        == sorted.deep_view()[j],
        decreases sorted.len() - k,
    {
        let ghost before = found.deep_view();
        let ghost voter = sorted.deep_view()[k as int];
        assert(voter == sorted[k as int]@);
        let targets = targets_of(&all, sorted[k].as_str());
        if targets.len() > 1 {
            let entry = Equivocation { voter: sorted[k].clone(), blocks: targets };
            found.push(entry);
            proof {
                let after = found.deep_view();
                let last = before.len() as int;
                assert(after[last] == entry.deep_view());
                assert(after[last].voter == voter);
                assert forall|i: int| 0 <= i < after.len() implies proves_equivocation(
                    votes,
                    #[trigger] after[i],
                ) by {
                    if i < last {
                        assert(after[i] == before[i]);
                    }
                }
                assert forall|i: int| 0 <= i < after.len() implies exists|j: int|
                    0 <= j < k + 1 && sorted.deep_view()[j] == (#[trigger] after[i]).voter by {
                    if i < last {
                        assert(after[i] == before[i]);
                        let j = choose|j: int|
                            0 <= j < k && sorted.deep_view()[j] == before[i].voter;
                        assert(sorted.deep_view()[j] == after[i].voter);
                    } else {
                        assert(sorted.deep_view()[k as int] == after[i].voter);
                    }
                }
                assert forall|i: int, j: int| 0 <= i < j < after.len() implies name_lt(
                    #[trigger] after[i].voter,
                    #[trigger] after[j].voter,
                ) by {
                    assert(after[i] == before[i]);
                    if j < last {
                        assert(after[j] == before[j]);
                    } else {
                        let s = choose|s: int|
                            0 <= s < k && sorted.deep_view()[s] == before[i].voter;
                    }
                }
                assert forall|j: int|
                    0 <= j < k + 1 && equivocated(
                        votes,
                        #[trigger] sorted.deep_view()[j],
                    ) implies exists|i: int|
                    0 <= i < after.len() && #[trigger] after[i].voter == sorted.deep_view()[j] by {
                    if j < k {
                        let i = choose|i: int|
                            0 <= i < before.len() && #[trigger] before[i].voter
                                == sorted.deep_view()[j];
                        assert(after[i] == before[i]);
                    } else {
                        assert(after[last].voter == sorted.deep_view()[j]);
                    }
                }
            }
        } else {
            proof {
                if equivocated(votes, voter) {
                    let (t1, t2) = choose|t1: BlockNumber, t2: BlockNumber|
                        t1 != t2 && #[trigger] votes.contains(Ballot { voter, target: t1 })
                            && #[trigger] votes.contains(Ballot { voter, target: t2 });
                    assert(targets@.contains(t1));
                    assert(targets@.contains(t2));
                    let a = choose|a: int| 0 <= a < targets@.len() && targets@[a] == t1;
                    let b = choose|b: int| 0 <= b < targets@.len() && targets@[b] == t2;
                    assert(false);
                }
            }
        }
        k += 1;
    }
    proof {
        assert forall|voter: Name| equivocated(votes, voter) implies exists|i: int|
            0 <= i < found.len() && #[trigger] found.deep_view()[i].voter == voter by {
            let (t1, t2) = choose|t1: BlockNumber, t2: BlockNumber|
                t1 != t2 && #[trigger] votes.contains(Ballot { voter, target: t1 })
                    && #[trigger] votes.contains(Ballot { voter, target: t2 });
            let b = Ballot { voter, target: t1 };
            let at = choose|at: int| 0 <= at < votes.len() && votes[at] == b;
            assert(names.deep_view()[at] == voter);
            assert(names.deep_view().contains(voter));
            assert(distinct.deep_view().contains(voter));
            assert(sorted.deep_view().contains(voter));
            let j = choose|j: int| 0 <= j < sorted.len() && sorted.deep_view()[j] == voter;
            assert(equivocated(votes, sorted.deep_view()[j]));
        }
    }
    if found.len() == 0 {
        None
    } else {
        Some(found)
    }
}

/// Who cast the votes, vote by vote.
pub open spec fn voter_names(votes: Seq<Ballot>) -> Seq<Name> {
    votes.map_values(|b: Ballot| b.voter)
}

/// The number of votes for a block whose chain includes `block`.
pub open spec fn supporting(
    blocks: Map<BlockNumber, Block>,
    votes: Seq<Ballot>,
    block: BlockNumber,
) -> nat
    decreases votes.len(),
{
    if votes.len() == 0 {
        0
    } else {
        supporting(blocks, votes.drop_last(), block) + if includes(
            blocks,
            votes.last().target,
            block,
        ) {
            1nat
        } else {
            0nat
        }
    }
}

/// The number of voters, each counted once.
pub open spec fn electorate(voters: Seq<Name>) -> nat {
    first_occurrences(voters).len()
}

/// The number of voters that the votes name, each counted once.
pub open spec fn heard(votes: Seq<Ballot>) -> nat {
    first_occurrences(voter_names(votes)).len()
}

/// The voters less those that the votes name: as many may have voted
/// without their votes being shown, and they might have voted for anything.
pub open spec fn absent(votes: Seq<Ballot>, voters: Seq<Name>) -> int {
    electorate(voters) - heard(votes)
}

/// With `supporting` votes for a block and `absent` voters unheard, out of
/// `voters`, the block cannot have had more than two thirds of the votes.
pub open spec fn supermajority_impossible(supporting: nat, absent: int, voters: nat) -> bool {
    3 * (supporting + absent) <= 2 * voters
}

/// The number of entries of `voters` that `named` does not contain.
pub open spec fn count_missing(named: Seq<Name>, voters: Seq<Name>) -> nat
    decreases voters.len(),
{
    if voters.len() == 0 {
        0
    } else {
        count_missing(named, voters.drop_last()) + if named.contains(voters.last()) {
            0nat
        } else {
            1nat
        }
    }
}

/// The votes name no voter twice, and show that `block` cannot have had a
/// supermajority among `voters`.
pub open spec fn reply_is_valid(
    blocks: Map<BlockNumber, Block>,
    votes: Seq<Ballot>,
    block: BlockNumber,
    voters: Seq<Name>,
) -> bool {
    &&& voter_names(votes).no_duplicates()
    &&& supermajority_impossible(
        supporting(blocks, votes, block),
        absent(votes, voters),
        electorate(voters),
    )
}

/// One of the votes is for a block other than `block` that lies too deep
/// in the ledger to be traversed.
pub open spec fn some_target_too_deep(
    blocks: Map<BlockNumber, Block>,
    votes: Seq<Ballot>,
    block: BlockNumber,
) -> bool {
    exists|i: int|
        0 <= i < votes.len() && (#[trigger] votes[i]).target != block && too_deep(
            blocks,
            votes[i].target,
        )
}

/// What checking an answer comes to: votes that name a voter twice are
/// invalid whatever else they hold; otherwise the ledger is searched, which
/// can fail; otherwise the answer is valid or not.
pub open spec fn reply_check(
    blocks: Map<BlockNumber, Block>,
    votes: Seq<Ballot>,
    block: BlockNumber,
    voters: Seq<Name>,
) -> Result<bool, ChainError> {
    if !voter_names(votes).no_duplicates() {
        Ok(false)
    } else if some_target_too_deep(blocks, votes, block) {
        Err(ChainError::CycleDetected)
    } else {
        Ok(reply_is_valid(blocks, votes, block, voters))
    }
}

/// Fewer supporting votes or fewer absent voters never turn a valid answer
/// into an invalid one: more of either can only move an answer from valid to
/// invalid.
pub proof fn lemma_validity_is_monotonic(
    supporting: nat,
    absent: int,
    more_supporting: nat,
    more_absent: int,
    voters: nat,
)
    requires
        supporting <= more_supporting,
        absent <= more_absent,
        supermajority_impossible(more_supporting, more_absent, voters),
    ensures
        supermajority_impossible(supporting, absent, voters),
{
}

/// What is missing depends only on which of the voters are named.
proof fn lemma_count_missing_by_membership(named: Seq<Name>, other: Seq<Name>, voters: Seq<Name>)
    requires
        forall|i: int|
            0 <= i < voters.len() ==> (named.contains(#[trigger] voters[i]) <==> other.contains(
                voters[i],
            )),
    ensures
        count_missing(named, voters) == count_missing(other, voters),
    decreases voters.len(),
{
    if voters.len() > 0 {
        let init = voters.drop_last();
        assert forall|i: int| 0 <= i < init.len() implies (named.contains(#[trigger] init[i])
            <==> other.contains(init[i])) by {
            assert(init[i] == voters[i]);
        }
        lemma_count_missing_by_membership(named, other, init);
        assert(voters.last() == voters[voters.len() - 1]);
    }
}

/// Where the named are among the voters, and nobody is listed twice, the
/// missing are the voters less the named.
proof fn lemma_count_missing_is_difference(named: Seq<Name>, voters: Seq<Name>)
    requires
        named.no_duplicates(),
        voters.no_duplicates(),
        forall|i: int| 0 <= i < named.len() ==> voters.contains(#[trigger] named[i]),
    ensures
        named.len() <= voters.len(),
        count_missing(named, voters) == voters.len() - named.len(),
    decreases voters.len(),
{
    if voters.len() == 0 {
        if named.len() > 0 {
            assert(voters.contains(named[0]));
        }
    } else {
        let init = voters.drop_last();
        let last = voters.last();
        assert(init.no_duplicates());
        assert(!init.contains(last)) by {
            if init.contains(last) {
                let k = choose|k: int| 0 <= k < init.len() && init[k] == last;
                assert(voters[k] == voters[voters.len() - 1]);
            }
        }
        if named.contains(last) {
            let at = choose|at: int| 0 <= at < named.len() && named[at] == last;
            let fewer = named.remove(at);
            assert(fewer.no_duplicates()) by {
                assert forall|i: int, j: int|
                    0 <= i < fewer.len() && 0 <= j < fewer.len() && i != j implies fewer[i]
                    != fewer[j] by {
                    let oi = if i < at {
                        i
                    } else {
                        i + 1
                    };
                    let oj = if j < at {
                        j
                    } else {
                        j + 1
                    };
                    assert(fewer[i] == named[oi] && fewer[j] == named[oj]);
                }
            }
            assert forall|i: int| 0 <= i < fewer.len() implies init.contains(
                #[trigger] fewer[i],
            ) by {
                let oi = if i < at {
                    i
                } else {
                    i + 1
                };
                assert(fewer[i] == named[oi]);
                assert(voters.contains(named[oi]));
                let k = choose|k: int| 0 <= k < voters.len() && voters[k] == named[oi];
                if k == voters.len() - 1 {
                    assert(named[oi] == named[at]);
                }
                assert(init[k] == fewer[i]);
            }
            lemma_count_missing_is_difference(fewer, init);
            assert forall|i: int| 0 <= i < init.len() implies (named.contains(#[trigger] init[i])
                <==> fewer.contains(init[i])) by {
                if named.contains(init[i]) {
                    let k = choose|k: int| 0 <= k < named.len() && named[k] == init[i];
                    assert(init.contains(init[i]));
                    assert(k != at);
                    let fk = if k < at {
                        k
                    } else {
                        k - 1
                    };
                    assert(fewer[fk] == init[i]);
                }
                if fewer.contains(init[i]) {
                    let k = choose|k: int| 0 <= k < fewer.len() && fewer[k] == init[i];
                    let ok = if k < at {
                        k
                    } else {
                        k + 1
                    };
                    assert(named[ok] == init[i]);
                }
            }
            lemma_count_missing_by_membership(named, fewer, init);
        } else {
            assert forall|i: int| 0 <= i < named.len() implies init.contains(
                #[trigger] named[i],
            ) by {
                assert(voters.contains(named[i]));
                let k = choose|k: int| 0 <= k < voters.len() && voters[k] == named[i];
                if k == voters.len() - 1 {
                    assert(named.contains(last));
                }
                assert(init[k] == named[i]);
            }
            lemma_count_missing_is_difference(named, init);
        }
    }
}

/// Where the votes name only voters of `voters`, the absent are those of the
/// voters that the votes do not name.
pub proof fn lemma_absent_are_the_voters_not_named(votes: Seq<Ballot>, voters: Seq<Name>)
    requires
        forall|i: int| 0 <= i < votes.len() ==> voters.contains(#[trigger] votes[i].voter),
    ensures
        absent(votes, voters) == count_missing(voter_names(votes), first_occurrences(voters)),
        absent(votes, voters) >= 0,
{
    let named = voter_names(votes);
    let once = first_occurrences(named);
    let asked = first_occurrences(voters);
    lemma_first_occurrences(voters);
    lemma_first_occurrences(named);
    assert forall|i: int| 0 <= i < once.len() implies asked.contains(#[trigger] once[i]) by {
        assert(once.contains(once[i]));
        assert(named.contains(once[i]));
        let k = choose|k: int| 0 <= k < named.len() && named[k] == once[i];
        assert(named[k] == votes[k].voter);
    }
    lemma_count_missing_is_difference(once, asked);
    assert forall|i: int| 0 <= i < asked.len() implies (once.contains(#[trigger] asked[i])
        <==> named.contains(asked[i])) by {}
    lemma_count_missing_by_membership(once, named, asked);
}

/// A copy of the votes.
pub fn copy_votes<V: Copy>(votes: &Vec<V>) -> (copy: Vec<V>)
    ensures
        copy@ == votes@,
{
    let mut copy: Vec<V> = Vec::new();
    let mut i: usize = 0;
    while i < votes.len()
        invariant
            i <= votes.len(),
            copy@ == votes@.subrange(0, i as int),
        decreases votes.len() - i,
    {
        copy.push(votes[i]);
        assert(votes@.subrange(0, i + 1) == votes@.subrange(0, i as int).push(votes@[i as int]));
        i += 1;
    }
    assert(votes@.subrange(0, i as int) == votes@);
    copy
}

/// A copy of the names.
pub fn clone_names(names: &[VoterId]) -> (copy: Vec<VoterId>)
    ensures
        copy.deep_view() == names.deep_view(),
{
    let mut copy: Vec<VoterId> = Vec::new();
    let mut i: usize = 0;
    while i < names.len()
        invariant
            i <= names.len(),
            copy.len() == i,
            forall|k: int| 0 <= k < i ==> copy[k]@ == names[k]@,
        decreases names.len() - i,
    {
        copy.push(names[i].clone());
        i += 1;
    }
    assert(copy.deep_view() =~= names.deep_view());
    copy
}

/// Checks votes given in answer to a query, as `check_query_reply_is_valid`
/// does for an answer.
fn check_votes<V: Vote>(
    votes: &Vec<V>,
    block: BlockNumber,
    voters: &[VoterId],
    chain: &Chain,
) -> (result: Result<bool, ChainError>)
    requires
        chain.wf(),
    ensures
        result == reply_check(chain.blocks(), ballots_of(votes@), block, voters.deep_view()),
{
    let ghost all = ballots_of(votes@);
    let names = names_of(votes);
    let ghost named = names.deep_view();
    assert(named == voter_names(all));
    let count = names.len();
    let distinct = unique_names(names);
    proof {
        lemma_first_occurrences(named);
    }
    if distinct.len() != count {
        return Ok(false);
    }
    assert(named.no_duplicates());
    assert(distinct.deep_view() == named);

    let mut in_favour: usize = 0;
    let mut i: usize = 0;
    assert(all.subrange(0, 0) =~= Seq::<Ballot>::empty());
    while i < votes.len()
        invariant
            i <= votes.len(),
            chain.wf(),
            all == ballots_of(votes@),
            voter_names(all).no_duplicates(),
            in_favour <= i,
            in_favour == supporting(chain.blocks(), all.subrange(0, i as int), block),
            forall|k: int|
                0 <= k < i ==> !((#[trigger] all[k]).target != block && too_deep(
                    chain.blocks(),
                    all[k].target,
                )),
        decreases votes.len() - i,
    {
        let ghost next = all.subrange(0, i + 1);
        assert(next.drop_last() == all.subrange(0, i as int));
        assert(next.last() == all[i as int]);
        assert(all[i as int] == votes@[i as int].ballot());
        match chain.block_includes(votes[i].target(), block) {
            Ok(included) => {
                if included {
                    in_favour += 1;
                }
            },
            Err(e) => {
                assert(some_target_too_deep(chain.blocks(), all, block));
                return Err(e);
            },
        }
        i += 1;
    }
    assert(all.subrange(0, i as int) == all);
    assert(!some_target_too_deep(chain.blocks(), all, block));

    let everyone = unique_names(clone_names(voters));
    let total = everyone.len();
    Ok(3 * (in_favour as u128 + total as u128) <= 2 * (total as u128) + 3 * (count as u128))
}

/// Checks an answer to the question why an estimate did not include
/// `block`. The answer is valid if it names no voter twice and shows that
/// `block` cannot have had a supermajority: three times the votes for blocks
/// that include `block`, together with the absent, are no more than twice the
/// voters. The absent are the voters less the voters that the answer names.
pub fn check_query_reply_is_valid(
    response: &QueryResponse,
    block: BlockNumber,
    voters: &[VoterId],
    chain: &Chain,
) -> (result: Result<bool, ChainError>)
    requires
        chain.wf(),
    ensures
        result == reply_check(
            chain.blocks(),
            response.deep_view().ballots(),
            block,
            voters.deep_view(),
        ),
{
    match response {
        QueryResponse::Prevotes(votes) => {
            assert(ballots_of(votes@) =~= votes.deep_view());
            check_votes(votes, block, voters, chain)
        },
        QueryResponse::Precommits(votes) => {
            assert(ballots_of(votes@) =~= votes.deep_view());
            check_votes(votes, block, voters, chain)
        },
    }
}

/// Two sets of votes in each of which nobody voted for two blocks, and
/// which share no voter, hold no equivocation when put together.
pub proof fn lemma_no_shared_voter_no_equivocation(votes0: Seq<Ballot>, votes1: Seq<Ballot>)
    requires
        forall|v: Name| !equivocated(votes0, v),
        forall|v: Name| !equivocated(votes1, v),
        forall|i: int, j: int|
            0 <= i < votes0.len() && 0 <= j < votes1.len() ==> votes0[i].voter != votes1[j].voter,
    ensures
        forall|v: Name| !equivocated(votes0 + votes1, v),
{
    let both = votes0 + votes1;
    assert forall|voter: Name| !equivocated(both, voter) by {
        if equivocated(both, voter) {
            let (t1, t2) = choose|t1: BlockNumber, t2: BlockNumber|
                t1 != t2 && #[trigger] both.contains(Ballot { voter, target: t1 })
                    && #[trigger] both.contains(Ballot { voter, target: t2 });
            let b1 = Ballot { voter, target: t1 };
            let b2 = Ballot { voter, target: t2 };
            let i1 = choose|i: int| 0 <= i < both.len() && both[i] == b1;
            let i2 = choose|i: int| 0 <= i < both.len() && both[i] == b2;
            if i1 < votes0.len() && i2 < votes0.len() {
                assert(votes0[i1] == b1 && votes0[i2] == b2);
                assert(votes0.contains(b1) && votes0.contains(b2));
                assert(equivocated(votes0, voter));
            } else if i1 >= votes0.len() && i2 >= votes0.len() {
                assert(votes1[i1 - votes0.len()] == b1 && votes1[i2 - votes0.len()] == b2);
                assert(votes1.contains(b1) && votes1.contains(b2));
                assert(equivocated(votes1, voter));
            } else if i1 < votes0.len() {
                assert(votes0[i1].voter == votes1[i2 - votes0.len()].voter);
            } else {
                assert(votes0[i2].voter == votes1[i1 - votes0.len()].voter);
            }
        }
    }
}

/// Where nobody voted for two blocks, the cross-check finds nothing.
pub proof fn lemma_cross_check_without_equivocation_is_empty(
    votes: Seq<Ballot>,
    found: Seq<EquivocationView>,
)
    requires
        is_cross_check(votes, found),
        forall|v: Name| !equivocated(votes, v),
    ensures
        found.len() == 0,
{
    if found.len() > 0 {
        lemma_proof_names_equivocator(votes, found[0]);
    }
}

/// A voter with votes for two different blocks has one entry in the
/// cross-check and no more, and the entry lists both blocks, in ascending
/// order.
pub proof fn lemma_equivocator_is_listed_once(
    votes: Seq<Ballot>,
    found: Seq<EquivocationView>,
    voter: Name,
    t1: BlockNumber,
    t2: BlockNumber,
)
    requires
        is_cross_check(votes, found),
        votes.contains(Ballot { voter, target: t1 }),
        votes.contains(Ballot { voter, target: t2 }),
        t1 != t2,
    ensures
        exists|i: int|
            {
                &&& 0 <= i < found.len()
                &&& (#[trigger] found[i]).voter == voter
                &&& found[i].blocks.contains(t1)
                &&& found[i].blocks.contains(t2)
                &&& numbers_ascending(found[i].blocks)
                &&& forall|j: int| 0 <= j < found.len() && found[j].voter == voter ==> j == i
            },
{
    assert(equivocated(votes, voter));
    let i = choose|i: int| 0 <= i < found.len() && #[trigger] found[i].voter == voter;
    assert(proves_equivocation(votes, found[i]));
    assert forall|j: int| 0 <= j < found.len() && found[j].voter == voter implies j == i by {
        lemma_name_lt_irreflexive(voter);
        if j < i {
            assert(name_lt(found[j].voter, found[i].voter));
        } else if i < j {
            assert(name_lt(found[i].voter, found[j].voter));
        }
    }
}

/// Whether `name` is one of `names`.
fn holds_name(names: &Vec<VoterName>, name: &str) -> (found: bool)
    ensures
        found == names.deep_view().contains(name@),
{
    let mut i: usize = 0;
    while i < names.len()
        invariant
            i <= names.len(),
            forall|k: int| 0 <= k < i ==> names.deep_view()[k] != name@,
        decreases names.len() - i,
    {
        if same_name(names[i], name) {
            assert(names.deep_view()[i as int] == name@);
            return true;
        }
        i += 1;
    }
    false
}

/// The voters of a protocol run. The set does not change while it runs.
#[derive(Clone, Debug)]
pub struct VoterSet {
    // Each voter once, in the order in which they were first named.
    voters: Vec<VoterName>,
}

impl VoterSet {
    /// The voters, each once, in the order in which they were first named.
    pub closed spec fn names(&self) -> Seq<Name> {
        self.voters.deep_view()
    }

    /// The set of the voters named in `voter_ids`.
    pub fn new(voter_ids: &[VoterName]) -> (set: Self)
        ensures
            set.names() == first_occurrences(voter_ids.deep_view()),
    {
        let ghost given = voter_ids.deep_view();
        let mut voters: Vec<VoterName> = Vec::new();
        let mut i: usize = 0;
        assert(given.subrange(0, 0) =~= Seq::<Name>::empty());
        assert(voters.deep_view() =~= Seq::<Name>::empty());
        while i < voter_ids.len()
            invariant
                i <= voter_ids.len(),
                given == voter_ids.deep_view(),
                voters.deep_view() == first_occurrences(given.subrange(0, i as int)),
            decreases voter_ids.len() - i,
        {
            let ghost next = given.subrange(0, i + 1);
            assert(next.drop_last() == given.subrange(0, i as int));
            assert(next.last() == given[i as int]);
            assert(given[i as int] == voter_ids[i as int]@);
            let ghost before = voters.deep_view();
            let known = holds_name(&voters, voter_ids[i]);
            if !known {
                voters.push(voter_ids[i]);
                assert(voters.deep_view() =~= before.push(voter_ids[i as int]@));
            }
            i += 1;
        }
        assert(given.subrange(0, i as int) == given);
        Self { voters }
    }

    pub fn is_member(&self, voter: VoterName) -> (member: bool)
        ensures
            member == self.names().contains(voter@),
    {
        holds_name(&self.voters, voter)
    }

    /// The voters as owned names, each once, in the order in which they were
    /// first named.
    pub fn voter_ids(&self) -> (ids: Vec<VoterId>)
        ensures
            ids.deep_view() == self.names(),
    {
        let mut ids: Vec<VoterId> = Vec::new();
        let mut i: usize = 0;
        while i < self.voters.len()
            invariant
                i <= self.voters.len(),
                ids.len() == i,
                forall|k: int| 0 <= k < i ==> ids[k]@ == self.voters[k]@,
            decreases self.voters.len() - i,
        {
            ids.push(self.voters[i].to_owned());
            i += 1;
        }
        assert(ids.deep_view() =~= self.names());
        ids
    }
}

/// The votes of one round as one voter recorded them. A voter who showed
/// different votes to different peers has several such records of one round;
/// the tag tells them apart.
#[derive(Clone, Debug)]
pub struct VotingRound {
    pub round_number: RoundNumber,
    pub voter_set: VoterSet,
    pub prevotes: Vec<Prevote>,
    pub precommits: Vec<Precommit>,
    pub finalized: Option<BlockNumber>,
    pub tag: u32,
}

/// Every one of the votes, given as pairs of a block and a voter, is cast by
/// one of `voters`.
pub open spec fn all_members(voters: Seq<Name>, votes: Seq<(BlockNumber, VoterName)>) -> bool {
    forall|i: int| 0 <= i < votes.len() ==> voters.contains(votes[i].1@)
}

impl VotingRound {
    pub fn new(round_number: RoundNumber, voter_set: VoterSet) -> (round: Self)
        ensures
            round.round_number == round_number,
            round.voter_set == voter_set,
            round.prevotes@ == Seq::<Prevote>::empty(),
            round.precommits@ == Seq::<Precommit>::empty(),
            round.finalized == None::<BlockNumber>,
            round.tag == 0,
    {
        Self {
            round_number,
            voter_set,
            prevotes: Vec::new(),
            precommits: Vec::new(),
            finalized: None,
            tag: 0,
        }
    }

    pub fn new_with_tag(round_number: RoundNumber, voter_set: VoterSet, tag: u32) -> (round: Self)
        ensures
            round.round_number == round_number,
            round.voter_set == voter_set,
            round.prevotes@ == Seq::<Prevote>::empty(),
            round.precommits@ == Seq::<Precommit>::empty(),
            round.finalized == None::<BlockNumber>,
            round.tag == tag,
    {
        Self {
            round_number,
            voter_set,
            prevotes: Vec::new(),
            precommits: Vec::new(),
            finalized: None,
            tag,
        }
    }

    /// Whether every one of the votes is cast by a voter of the round.
    fn votes_are_from_members(&self, votes: &[(BlockNumber, VoterName)]) -> (all: bool)
        ensures
            all == all_members(self.voter_set.names(), votes@),
    {
        let mut i: usize = 0;
        while i < votes.len()
            invariant
                i <= votes.len(),
                forall|k: int| 0 <= k < i ==> self.voter_set.names().contains(votes@[k].1@),
            decreases votes.len() - i,
        {
            if !self.voter_set.is_member(votes[i].1) {
                return false;
            }
            i += 1;
        }
        true
    }

    /// Records prevotes, given as pairs of a block and a voter, after those
    /// recorded before. If one of them is not cast by a voter of the round,
    /// none is recorded.
    pub fn prevote(&mut self, votes: &[(BlockNumber, VoterName)]) -> (result: Result<(), Fault>)
        ensures
            final(self).round_number == old(self).round_number,
            final(self).voter_set == old(self).voter_set,
            final(self).precommits == old(self).precommits,
            final(self).finalized == old(self).finalized,
            final(self).tag == old(self).tag,
            all_members(old(self).voter_set.names(), votes@) ==> result == Ok::<(), Fault>(())
                && final(self).prevotes@ == old(self).prevotes@ + votes@.map_values(
                |v: (BlockNumber, VoterName)| Prevote { target_number: v.0, id: v.1 },
            ),
            !all_members(old(self).voter_set.names(), votes@) ==> result == Err::<(), Fault>(
                Fault::NotAMember,
            ) && final(self).prevotes == old(self).prevotes,
    {
        if !self.votes_are_from_members(votes) {
            return Err(Fault::NotAMember);
        }
        let ghost before = self.prevotes@;
        let ghost more = votes@.map_values(
            |v: (BlockNumber, VoterName)| Prevote { target_number: v.0, id: v.1 },
        );
        let mut i: usize = 0;
        assert(before + more.subrange(0, 0) =~= before);
        while i < votes.len()
            invariant
                i <= votes.len(),
                more == votes@.map_values(
                    |v: (BlockNumber, VoterName)| Prevote { target_number: v.0, id: v.1 },
                ),
                self.prevotes@ == before + more.subrange(0, i as int),
                self.round_number == old(self).round_number,
                self.voter_set == old(self).voter_set,
                self.precommits == old(self).precommits,
                self.finalized == old(self).finalized,
                self.tag == old(self).tag,
            decreases votes.len() - i,
        {
            self.prevotes.push(Prevote::new(votes[i].0, votes[i].1));
            assert(before + more.subrange(0, i + 1) =~= (before + more.subrange(0, i as int)).push(
                more[i as int],
            ));
            i += 1;
        }
        assert(more.subrange(0, i as int) == more);
        Ok(())
    }

    /// Records precommits, given as pairs of a block and a voter, after
    /// those recorded before. If one of them is not cast by a voter of the
    /// round, none is recorded.
    pub fn precommit(&mut self, votes: &[(BlockNumber, VoterName)]) -> (result: Result<(), Fault>)
        ensures
            final(self).round_number == old(self).round_number,
            final(self).voter_set == old(self).voter_set,
            final(self).prevotes == old(self).prevotes,
            final(self).finalized == old(self).finalized,
            final(self).tag == old(self).tag,
            all_members(old(self).voter_set.names(), votes@) ==> result == Ok::<(), Fault>(())
                && final(self).precommits@ == old(self).precommits@ + votes@.map_values(
                |v: (BlockNumber, VoterName)| Precommit { target_number: v.0, id: v.1 },
            ),
            !all_members(old(self).voter_set.names(), votes@) ==> result == Err::<(), Fault>(
                Fault::NotAMember,
            ) && final(self).precommits == old(self).precommits,
    {
        if !self.votes_are_from_members(votes) {
            return Err(Fault::NotAMember);
        }
        let ghost before = self.precommits@;
        let ghost more = votes@.map_values(
            |v: (BlockNumber, VoterName)| Precommit { target_number: v.0, id: v.1 },
        );
        let mut i: usize = 0;
        assert(before + more.subrange(0, 0) =~= before);
        while i < votes.len()
            invariant
                i <= votes.len(),
                more == votes@.map_values(
                    |v: (BlockNumber, VoterName)| Precommit { target_number: v.0, id: v.1 },
                ),
                self.precommits@ == before + more.subrange(0, i as int),
                self.round_number == old(self).round_number,
                self.voter_set == old(self).voter_set,
                self.prevotes == old(self).prevotes,
                self.finalized == old(self).finalized,
                self.tag == old(self).tag,
            decreases votes.len() - i,
        {
            self.precommits.push(Precommit::new(votes[i].0, votes[i].1));
            assert(before + more.subrange(0, i + 1) =~= (before + more.subrange(0, i as int)).push(
                more[i as int],
            ));
            i += 1;
        }
        assert(more.subrange(0, i as int) == more);
        Ok(())
    }
}

/// The recorded votes of all rounds: for each round number the records of
/// that round, in the order in which they were added. A round may have
/// several records that contradict each other; none replaces another.
#[derive(Clone, Debug)]
pub struct VotingRounds(pub HashMap<RoundNumber, Vec<VotingRound>>);

impl VotingRounds {
    pub fn new() -> (rounds: Self)
        ensures
            rounds.0@ == Map::<RoundNumber, Vec<VotingRound>>::empty(),
    {
        Self(HashMap::new())
    }

    /// The records of a round.
    pub fn get(&self, round_number: &RoundNumber) -> (found: Option<&Vec<VotingRound>>)
        ensures
            match found {
                Some(records) => self.0@.contains_key(*round_number) && *records
                    == self.0@[*round_number],
                None => !self.0@.contains_key(*round_number),
            },
    {
        self.0.get(round_number)
    }

    /// Adds a record after the records that its round has already.
    pub fn add(&mut self, voting_round: VotingRound)
        ensures
            final(self).0@.dom() == old(self).0@.dom().insert(voting_round.round_number),
            final(self).0@[voting_round.round_number]@ == (if old(self).0@.contains_key(
                voting_round.round_number,
            ) {
                old(self).0@[voting_round.round_number]@
            } else {
                Seq::<VotingRound>::empty()
            }).push(voting_round),
            forall|r: RoundNumber|
                r != voting_round.round_number && old(self).0@.contains_key(r) ==> final(self).0@[r]
                    == old(self).0@[r],
    {
        let round_number = voting_round.round_number;
        let mut records = match self.0.remove(&round_number) {
            Some(records) => records,
            None => Vec::new(),
        };
        records.push(voting_round);
        self.0.insert(round_number, records);
        assert(final(self).0@.dom() =~= old(self).0@.dom().insert(voting_round.round_number));
    }

    /// The round numbers that have records, each once, in no particular
    /// order.
    fn round_numbers(&self) -> (numbers: Vec<RoundNumber>)
        ensures
            numbers@.no_duplicates(),
            numbers@.to_set() == self.0@.dom(),
    {
        let mut numbers: Vec<RoundNumber> = Vec::new();
        let keys = self.0.keys();
        let ghost all = keys.remaining();
        assert(keys == spec_keys_iter(&self.0));
        assert(all.unref().to_set() == self.0@.dom());
        assert(all.no_duplicates());
        for number in iter: keys
            invariant
                iter.seq() == all,
                numbers@ == all.unref().take(iter.index() as int),
        {
            assert(all.unref().take(iter.index() + 1) == all.unref().take(
                iter.index() as int,
            ).push(*number));
            numbers.push(*number);
        }
        assert(numbers@ == all.unref());
        numbers
    }

    /// Takes over the rounds of `other`. Where both have records of a round,
    /// those of `other` take the place of those that were there.
    pub fn extend(&mut self, other: VotingRounds)
        ensures
            final(self).0@ == old(self).0@.union_prefer_right(other.0@),
    {
        let numbers = other.round_numbers();
        let mut source = other.0;
        let ghost from = source@;
        let ghost into = self.0@;
        let mut i: usize = 0;
        assert(self.0@ =~= into.union_prefer_right(from.restrict(numbers@.take(0).to_set())));
        assert(source@ =~= from.remove_keys(numbers@.take(0).to_set()));
        while i < numbers.len()
            invariant
                i <= numbers.len(),
                numbers@.no_duplicates(),
                numbers@.to_set() == from.dom(),
                source@ == from.remove_keys(numbers@.take(i as int).to_set()),
                self.0@ == into.union_prefer_right(
                    from.restrict(numbers@.take(i as int).to_set()),
                ),
            decreases numbers.len() - i,
        {
            let number = numbers[i];
            let ghost taken = numbers@.take(i as int);
            let ghost more = numbers@.take(i + 1);
            assert(more == taken.push(number));
            assert(numbers@.contains(number));
            assert(from.contains_key(number));
            assert(!taken.contains(number)) by {
                if taken.contains(number) {
                    let k = choose|k: int| 0 <= k < taken.len() && taken[k] == number;
                    assert(numbers@[k] == numbers@[i as int]);
                }
            }
            match source.remove(&number) {
                Some(records) => {
                    self.0.insert(number, records);
                },
                None => {},
            }
            proof {
                assert forall|k: RoundNumber| more.contains(k) <==> taken.contains(k) || k
                    == number by {
                    if taken.contains(k) {
                        let j = choose|j: int| 0 <= j < taken.len() && taken[j] == k;
                        assert(more[j] == k);
                    }
                    if k == number {
                        assert(more[i as int] == k);
                    }
                    if more.contains(k) {
                        let j = choose|j: int| 0 <= j < more.len() && more[j] == k;
                        if j < i {
                            assert(taken[j] == k);
                        }
                    }
                }
                assert(more.to_set() =~= taken.to_set().insert(number));
                assert(source@ =~= from.remove_keys(more.to_set()));
                assert(self.0@ =~= into.union_prefer_right(from.restrict(more.to_set())));
            }
            i += 1;
        }
        proof {
            assert(numbers@.take(i as int) == numbers@);
            assert(from.restrict(numbers@.to_set()) =~= from);
        }
    }
}

impl Default for VotingRounds {
    fn default() -> (rounds: Self)
        ensures
            rounds.0@ == Map::<RoundNumber, Vec<VotingRound>>::empty(),
    {
        Self::new()
    }
}

} // verus!
