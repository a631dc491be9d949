//! The bump classifier: which bump level a commit message signals. A
//! message is tested against the major marker first, then the minor one,
//! then the patch one; the first marker it holds decides.

use vstd::prelude::*;
use vstd::string::*;

verus! {

/// The bump level signalled by one commit message.
#[derive(Debug, PartialEq, Eq, Structural, Clone, Copy)]
pub enum BumpSignal {
    Major,
    Minor,
    Patch,
    NoBump,
}

/// The three marker patterns, one per bump level. A message that holds
/// several markers classifies at the highest level only.
pub struct BumpPatterns {
    pub major: String,
    pub minor: String,
    pub patch: String,
}

/// The mathematical value of a pattern set.
#[verifier::ext_equal]
pub ghost struct PatternsView {
    pub major: Seq<char>,
    pub minor: Seq<char>,
    pub patch: Seq<char>,
}

impl View for BumpPatterns {
    type V = PatternsView;

    open spec fn view(&self) -> PatternsView {
        PatternsView { major: self.major@, minor: self.minor@, patch: self.patch@ }
    }
}

/// The marker stands at position `k` of the message.
pub open spec fn marker_at_spec(msg: Seq<char>, marker: Seq<char>, k: int) -> bool {
    msg.subrange(k, k + marker.len()) == marker
}

/// The marker occurs in the message as a contiguous part.
pub open spec fn contains_marker(msg: Seq<char>, marker: Seq<char>) -> bool {
    exists|k: int| 0 <= k <= msg.len() - marker.len() && #[trigger] marker_at_spec(msg, marker, k)
}

/// The classification of one message: the highest bump level whose marker
/// the message holds, `NoBump` when none occurs.
pub open spec fn classify_spec(msg: Seq<char>, pats: PatternsView) -> BumpSignal {
    if contains_marker(msg, pats.major) {
        BumpSignal::Major
    } else if contains_marker(msg, pats.minor) {
        BumpSignal::Minor
    } else if contains_marker(msg, pats.patch) {
        BumpSignal::Patch
    } else {
        BumpSignal::NoBump
    }
}

/// Whether `marker` stands at position `k` of `msg`.
fn marker_at(msg: &str, marker: &str, k: usize) -> (r: bool)
    requires
        k + marker@.len() <= msg@.len(),
        k + marker@.len() <= usize::MAX,
    ensures
        r == (msg@.subrange(k as int, k as int + marker@.len() as int) == marker@),
{
    let m: usize = marker.unicode_len();
    let ghost sub = msg@.subrange(k as int, k as int + m as int);
    let mut t: usize = 0;
    while t < m
        invariant
            t <= m == marker@.len(),
            k + m <= msg@.len(),
            k + m <= usize::MAX,
            sub == msg@.subrange(k as int, k as int + m as int),
            forall|j: int| 0 <= j < t ==> msg@[k + j] == marker@[j],
        decreases m - t,
    {
        proof {
            assert(sub[t as int] == msg@[k + t]);
        }
        if msg.get_char(k + t) != marker.get_char(t) {
            proof {
                assert(sub != marker@);
            }
            return false;
        }
        t = t + 1;
    }
    proof {
        assert(sub =~= marker@);
    }
    true
}

/// Whether `marker` occurs anywhere in `msg`.
fn matches_marker(msg: &str, marker: &str) -> (r: bool)
    ensures
        r == contains_marker(msg@, marker@),
{
    let n: usize = msg.unicode_len();
    let m: usize = marker.unicode_len();
    if m > n {
        return false;
    }
    if m == 0 {
        proof {
            assert(msg@.subrange(0, 0) =~= marker@);
            assert(marker_at_spec(msg@, marker@, 0));
        }
        return true;
    }
    let mut k: usize = 0;
    while k <= n - m
        invariant
            m <= n == msg@.len(),
            m == marker@.len(),
            m >= 1,
            k <= n - m + 1,
            forall|k2: int| 0 <= k2 < k ==> !(#[trigger] marker_at_spec(msg@, marker@, k2)),
        decreases n - m - k + 1,
    {
        if marker_at(msg, marker, k) {
            proof {
                assert(marker_at_spec(msg@, marker@, k as int));
            }
            return true;
        }
        k = k + 1;
    }
    proof {
        if contains_marker(msg@, marker@) {
            let k0: int = choose|k0: int|
                0 <= k0 <= msg@.len() - marker@.len() && #[trigger] marker_at_spec(
                    msg@,
                    marker@,
                    k0,
                );
            assert(!marker_at_spec(msg@, marker@, k0));
        }
    }
    false
}

/// Classifies one commit message against the patterns: the major marker
/// first, then the minor one, then the patch one.
pub fn classify(message: &str, patterns: &BumpPatterns) -> (s: BumpSignal)
    ensures
        s == classify_spec(message@, patterns@),
{
    if matches_marker(message, patterns.major.as_str()) {
        BumpSignal::Major
    } else if matches_marker(message, patterns.minor.as_str()) {
        BumpSignal::Minor
    } else if matches_marker(message, patterns.patch.as_str()) {
        BumpSignal::Patch
    } else {
        BumpSignal::NoBump
    }
}

/// The default marker set.
pub fn default_patterns() -> (p: BumpPatterns)
    ensures
        p@.major == "major:"@,
        p@.minor == "minor:"@,
        p@.patch == "patch:"@,
{
    BumpPatterns {
        major: String::from_str("major:"),
        minor: String::from_str("minor:"),
        patch: String::from_str("patch:"),
    }
}

/// A message that holds the major marker classifies as major, whatever
/// other markers it also holds; in particular one that holds both the
/// major and the minor marker is never classified as minor.
pub proof fn lemma_classify_priority(msg: Seq<char>, pats: PatternsView)
    requires
        contains_marker(msg, pats.major),
        contains_marker(msg, pats.minor),
    ensures
        classify_spec(msg, pats) == BumpSignal::Major,
        classify_spec(msg, pats) != BumpSignal::Minor,
{
}

} // verus!
