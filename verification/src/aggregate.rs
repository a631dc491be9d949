//! The bump aggregator: folds the per-message signals of a walk into one
//! aggregate of three monotonic flags and a count of commits visited. The
//! fold is a boolean OR, so the order of the walk cannot change it.

use crate::classify::{classify, classify_spec, BumpPatterns, BumpSignal, PatternsView};
use vstd::prelude::*;
use vstd::string::*;

verus! {

/// The aggregate of a walk: how many commits were visited, and which bump
/// levels at least one of them signalled. Once set, a flag never clears.
#[derive(Debug, PartialEq, Eq, Structural, Clone, Copy)]
pub struct BumpAggregate {
    pub objects_visited: usize,
    pub major: bool,
    pub minor: bool,
    pub patch: bool,
}

/// The aggregate of a message sequence: the count of messages, and one
/// flag per level for whether any message classifies at it.
pub open spec fn aggregate_spec(msgs: Seq<Seq<char>>, pats: PatternsView) -> BumpAggregate {
    BumpAggregate {
        objects_visited: msgs.len() as usize,
        major: exists|i: int|
            0 <= i < msgs.len() && classify_spec(#[trigger] msgs[i], pats) == BumpSignal::Major,
        minor: exists|i: int|
            0 <= i < msgs.len() && classify_spec(#[trigger] msgs[i], pats) == BumpSignal::Minor,
        patch: exists|i: int|
            0 <= i < msgs.len() && classify_spec(#[trigger] msgs[i], pats) == BumpSignal::Patch,
    }
}

impl BumpAggregate {
    /// The empty aggregate, before any commit is visited.
    pub fn new() -> (r: BumpAggregate)
        ensures
            r.objects_visited == 0,
            !r.major,
            !r.minor,
            !r.patch,
    {
        BumpAggregate { objects_visited: 0, major: false, minor: false, patch: false }
    }

    /// Folds one signal in: the count rises by one and the signalled
    /// level's flag is set; no flag ever clears.
    pub fn record(&mut self, signal: BumpSignal)
        requires
            old(self).objects_visited < usize::MAX,
        ensures
            final(self).objects_visited == old(self).objects_visited + 1,
            final(self).major == (old(self).major || signal == BumpSignal::Major),
            final(self).minor == (old(self).minor || signal == BumpSignal::Minor),
            final(self).patch == (old(self).patch || signal == BumpSignal::Patch),
    {
        self.objects_visited = self.objects_visited + 1;
        match signal {
            BumpSignal::Major => {
                self.major = true;
            },
            BumpSignal::Minor => {
                self.minor = true;
            },
            BumpSignal::Patch => {
                self.patch = true;
            },
            BumpSignal::NoBump => {},
        }
    }
}

/// Extending a walk by one message extends the aggregate by that
/// message's signal alone.
proof fn lemma_exists_take_step(msgs: Seq<Seq<char>>, pats: PatternsView, i: int, sig: BumpSignal)
    requires
        0 <= i < msgs.len(),
    ensures
        (exists|k: int|
            0 <= k < msgs.take(i + 1).len() && classify_spec(#[trigger] msgs.take(i + 1)[k], pats)
                == sig) <==> ((exists|k: int|
            0 <= k < msgs.take(i).len() && classify_spec(#[trigger] msgs.take(i)[k], pats) == sig)
            || classify_spec(msgs[i], pats) == sig),
{
    let prev = msgs.take(i);
    let cur = msgs.take(i + 1);
    assert(cur[i] == msgs[i]);
    if exists|k: int| 0 <= k < cur.len() && classify_spec(#[trigger] cur[k], pats) == sig {
        let k: int = choose|k: int| 0 <= k < cur.len() && classify_spec(#[trigger] cur[k], pats) == sig;
        if k < i {
            assert(prev[k] == cur[k]);
            assert(classify_spec(prev[k], pats) == sig);
        }
    }
    if exists|k: int| 0 <= k < prev.len() && classify_spec(#[trigger] prev[k], pats) == sig {
        let k: int = choose|k: int|
            0 <= k < prev.len() && classify_spec(#[trigger] prev[k], pats) == sig;
        assert(cur[k] == prev[k]);
        assert(classify_spec(cur[k], pats) == sig);
    }
    if classify_spec(msgs[i], pats) == sig {
        assert(classify_spec(cur[i], pats) == sig);
    }
}

/// Classifies every message of a walk, in order, and folds the signals
/// into one aggregate.
pub fn aggregate_messages(messages: &Vec<String>, patterns: &BumpPatterns) -> (r: BumpAggregate)
    ensures
        r == aggregate_spec(messages.deep_view(), patterns@),
{
    let ghost mv = messages.deep_view();
    let mut agg = BumpAggregate::new();
    let mut i: usize = 0;
    proof {
        assert(mv.take(0) =~= Seq::<Seq<char>>::empty());
        assert(agg == aggregate_spec(mv.take(0), patterns@));
    }
    while i < messages.len()
        invariant
            mv == messages.deep_view(),
            i <= messages@.len() == mv.len(),
            agg == aggregate_spec(mv.take(i as int), patterns@),
        decreases mv.len() - i,
    {
        proof {
            assert(messages@[i as int]@ == mv[i as int]);
        }
        let s = classify(messages[i].as_str(), patterns);
        agg.record(s);
        proof {
            lemma_exists_take_step(mv, patterns@, i as int, BumpSignal::Major);
            lemma_exists_take_step(mv, patterns@, i as int, BumpSignal::Minor);
            lemma_exists_take_step(mv, patterns@, i as int, BumpSignal::Patch);
            assert(mv.take(i as int).len() == i as int);
            assert(mv.take(i as int + 1).len() == i as int + 1);
            assert(agg == aggregate_spec(mv.take(i as int + 1), patterns@));
        }
        i = i + 1;
    }
    proof {
        assert(mv.take(mv.len() as int) =~= mv);
    }
    agg
}

/// One signal's flag carries over between walks of the same multiset.
proof fn lemma_exists_signal_permutation(
    m1: Seq<Seq<char>>,
    m2: Seq<Seq<char>>,
    pats: PatternsView,
    sig: BumpSignal,
)
    requires
        m1.to_multiset() == m2.to_multiset(),
    ensures
        (exists|i: int| 0 <= i < m1.len() && classify_spec(#[trigger] m1[i], pats) == sig) <==> (
        exists|i: int| 0 <= i < m2.len() && classify_spec(#[trigger] m2[i], pats) == sig),
{
    m1.to_multiset_ensures();
    m2.to_multiset_ensures();
    if exists|i: int| 0 <= i < m1.len() && classify_spec(#[trigger] m1[i], pats) == sig {
        let i: int = choose|i: int| 0 <= i < m1.len() && classify_spec(#[trigger] m1[i], pats) == sig;
        let x = m1[i];
        assert(m1.contains(x));
        assert(m2.to_multiset().count(x) > 0);
        assert(m2.contains(x));
        let j: int = choose|j: int| 0 <= j < m2.len() && m2[j] == x;
        assert(classify_spec(m2[j], pats) == sig);
    }
    if exists|i: int| 0 <= i < m2.len() && classify_spec(#[trigger] m2[i], pats) == sig {
        let i: int = choose|i: int| 0 <= i < m2.len() && classify_spec(#[trigger] m2[i], pats) == sig;
        let x = m2[i];
        assert(m2.contains(x));
        assert(m1.to_multiset().count(x) > 0);
        assert(m1.contains(x));
        let j: int = choose|j: int| 0 <= j < m1.len() && m1[j] == x;
        assert(classify_spec(m1[j], pats) == sig);
    }
}

/// Aggregation is insensitive to the order of the walk: two walks of the
/// same multiset of messages fold to the identical aggregate.
pub proof fn lemma_aggregate_permutation(
    m1: Seq<Seq<char>>,
    m2: Seq<Seq<char>>,
    pats: PatternsView,
)
    requires
        m1.to_multiset() == m2.to_multiset(),
    ensures
        aggregate_spec(m1, pats) == aggregate_spec(m2, pats),
{
    m1.to_multiset_ensures();
    m2.to_multiset_ensures();
    assert(m1.len() == m1.to_multiset().len());
    assert(m2.len() == m2.to_multiset().len());
    lemma_exists_signal_permutation(m1, m2, pats, BumpSignal::Major);
    lemma_exists_signal_permutation(m1, m2, pats, BumpSignal::Minor);
    lemma_exists_signal_permutation(m1, m2, pats, BumpSignal::Patch);
}

} // verus!
