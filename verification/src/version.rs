//! The semantic-version value type: numeric components, pre-release and
//! build-metadata identifiers, increment operations, and the rendering of a
//! version as text. Precedence is excluded here; see the order module.

use crate::numerals::{
    all_digits, digits_val, is_digit, is_numeral, parse_digits_val, render_nat, render_u64,
};
use vstd::prelude::*;
use vstd::string::*;

verus! {

/// A character allowed in a pre-release or build identifier.
pub open spec fn is_ident_char(c: char) -> bool {
    ||| is_digit(c)
    ||| 65 <= c as u32 && c as u32 <= 90
    ||| 97 <= c as u32 && c as u32 <= 122
    ||| c == '-'
}

/// A build-metadata identifier: non-empty, identifier characters only.
pub open spec fn is_build_ident(s: Seq<char>) -> bool {
    s.len() > 0 && forall|i: int| 0 <= i < s.len() ==> is_ident_char(#[trigger] s[i])
}

/// A pre-release identifier: a build identifier that, when it is all
/// digits, carries no leading zero.
pub open spec fn is_pre_ident(s: Seq<char>) -> bool {
    is_build_ident(s) && (all_digits(s) ==> is_numeral(s))
}

/// The mathematical value of a semantic version.
#[verifier::ext_equal]
pub ghost struct VersionView {
    pub major: nat,
    pub minor: nat,
    pub patch: nat,
    pub pre: Seq<Seq<char>>,
    pub build: Seq<Seq<char>>,
}

/// A well-formed version: numeric components that fit in a machine word and
/// none but valid identifiers.
pub open spec fn wf_version(v: VersionView) -> bool {
    &&& v.major <= u64::MAX && v.minor <= u64::MAX && v.patch <= u64::MAX
    &&& forall|i: int| 0 <= i < v.pre.len() ==> is_pre_ident(#[trigger] v.pre[i])
    &&& forall|i: int| 0 <= i < v.build.len() ==> is_build_ident(#[trigger] v.build[i])
}

/// A semantic version: `major.minor.patch`, an optional pre-release tail,
/// and optional build metadata.
pub struct SemanticVersion {
    pub major: u64,
    pub minor: u64,
    pub patch: u64,
    pub pre: Vec<String>,
    pub build: Vec<String>,
}

impl View for SemanticVersion {
    type V = VersionView;

    open spec fn view(&self) -> VersionView {
        VersionView {
            major: self.major as nat,
            minor: self.minor as nat,
            patch: self.patch as nat,
            pre: self.pre.deep_view(),
            build: self.build.deep_view(),
        }
    }
}

/// The version after a major increment: lower components reset,
/// identifiers cleared.
pub open spec fn incremented_major(v: VersionView) -> VersionView {
    VersionView { major: v.major + 1, minor: 0, patch: 0, pre: Seq::empty(), build: Seq::empty() }
}

/// The version after a minor increment: patch reset, identifiers cleared.
pub open spec fn incremented_minor(v: VersionView) -> VersionView {
    VersionView {
        major: v.major,
        minor: v.minor + 1,
        patch: 0,
        pre: Seq::empty(),
        build: Seq::empty(),
    }
}

/// The version after a patch increment: identifiers cleared.
pub open spec fn incremented_patch(v: VersionView) -> VersionView {
    VersionView {
        major: v.major,
        minor: v.minor,
        patch: v.patch + 1,
        pre: Seq::empty(),
        build: Seq::empty(),
    }
}

/// The numeric build-metadata counter of a version: present exactly when
/// there is one single build identifier, it is all digits, and its value
/// fits in `u64`.
pub open spec fn build_number_spec(v: VersionView) -> Option<nat> {
    if v.build.len() == 1 && v.build[0].len() > 0 && all_digits(v.build[0]) && digits_val(
        v.build[0],
    ) <= u64::MAX {
        Some(digits_val(v.build[0]))
    } else {
        None
    }
}

/// The textual numeric core of a version: `major.minor.patch`.
pub open spec fn render_core(v: VersionView) -> Seq<char> {
    render_nat(v.major) + seq!['.'] + render_nat(v.minor) + seq!['.'] + render_nat(v.patch)
}

/// Identifiers joined with dots.
pub open spec fn join_idents(ids: Seq<Seq<char>>) -> Seq<char>
    decreases ids.len(),
{
    if ids.len() == 0 {
        Seq::empty()
    } else if ids.len() == 1 {
        ids[0]
    } else {
        join_idents(ids.drop_last()) + seq!['.'] + ids.last()
    }
}

/// The rendering of a version: the numeric core, and the build identifiers
/// after a plus sign when build metadata is present. Pre-release tails are
/// never part of an output version.
pub open spec fn render_full(v: VersionView) -> Seq<char> {
    if v.build.len() == 0 {
        render_core(v)
    } else {
        render_core(v) + seq!['+'] + join_idents(v.build)
    }
}

impl SemanticVersion {
    /// Raises the major component; minor and patch reset to zero,
    /// pre-release and build metadata clear.
    pub fn increment_major(&mut self)
        requires
            old(self).major < u64::MAX,
        ensures
            final(self)@ == incremented_major(old(self)@),
    {
        self.major = self.major + 1;
        self.minor = 0;
        self.patch = 0;
        self.pre = Vec::new();
        self.build = Vec::new();
        proof {
            assert(self@ =~= incremented_major(old(self)@));
        }
    }

    /// Raises the minor component; patch resets to zero, pre-release and
    /// build metadata clear.
    pub fn increment_minor(&mut self)
        requires
            old(self).minor < u64::MAX,
        ensures
            final(self)@ == incremented_minor(old(self)@),
    {
        self.minor = self.minor + 1;
        self.patch = 0;
        self.pre = Vec::new();
        self.build = Vec::new();
        proof {
            assert(self@ =~= incremented_minor(old(self)@));
        }
    }

    /// Raises the patch component; pre-release and build metadata clear.
    pub fn increment_patch(&mut self)
        requires
            old(self).patch < u64::MAX,
        ensures
            final(self)@ == incremented_patch(old(self)@),
    {
        self.patch = self.patch + 1;
        self.pre = Vec::new();
        self.build = Vec::new();
        proof {
            assert(self@ =~= incremented_patch(old(self)@));
        }
    }

    /// The numeric build-metadata counter, absent when there is no build
    /// metadata, more than one identifier, or a non-numeric one.
    pub fn build_number(&self) -> (r: Option<u64>)
        ensures
            (match r {
                Some(n) => build_number_spec(self@) == Some(n as nat),
                None => build_number_spec(self@) is None,
            }),
    {
        if self.build.len() != 1 {
            return None;
        }
        let id: &String = &self.build[0];
        proof {
            assert(id@ == self@.build[0]);
        }
        let n: usize = id.as_str().unicode_len();
        let r = parse_digits_val(id.as_str(), 0, n);
        proof {
            assert(id@.subrange(0, id@.len() as int) =~= id@);
        }
        r
    }

    /// Renders the version: the numeric core, with `+` and the build
    /// identifiers when build metadata is present.
    pub fn version_string(&self) -> (r: String)
        ensures
            r@ == render_full(self@),
    {
        proof {
            reveal_strlit(".");
            reveal_strlit("+");
        }
        let mut r = render_u64(self.major);
        r.append(".");
        let mi = render_u64(self.minor);
        r.append(mi.as_str());
        r.append(".");
        let pa = render_u64(self.patch);
        r.append(pa.as_str());
        proof {
            assert(r@ =~= render_core(self@));
        }
        if self.build.len() > 0 {
            r.append("+");
            let end: usize = self.build.len();
            let mut k: usize = 0;
            while k < end
                invariant
                    0 < end == self.build.len() == self@.build.len(),
                    k <= end,
                    k == 0 ==> r@ == render_core(self@) + seq!['+'],
                    k > 0 ==> r@ == render_core(self@) + seq!['+'] + join_idents(
                        self@.build.take(k as int),
                    ),
                decreases end - k,
            {
                proof {
                    reveal_strlit(".");
                }
                if k > 0 {
                    r.append(".");
                }
                r.append(self.build[k].as_str());
                proof {
                    assert(self.build[k as int]@ == self@.build[k as int]);
                    if k > 0 {
                        assert(self@.build.take(k as int + 1).drop_last() =~= self@.build.take(
                            k as int,
                        ));
                        assert(self@.build.take(k as int + 1).last() == self@.build[k as int]);
                    } else {
                        assert(self@.build.take(1).len() == 1);
                        assert(self@.build.take(1)[0] == self@.build[0]);
                    }
                }
                k = k + 1;
            }
            proof {
                assert(self@.build.take(end as int) =~= self@.build);
            }
        }
        r
    }
}

/// Incrementing the patch level twice raises it by exactly two and keeps
/// major and minor.
pub proof fn lemma_double_patch_increment(v: VersionView)
    ensures
        incremented_patch(incremented_patch(v)).patch == v.patch + 2,
        incremented_patch(incremented_patch(v)).minor == v.minor,
        incremented_patch(incremented_patch(v)).major == v.major,
{
}

/// A minor increment resets the patch level; a major increment resets both
/// minor and patch.
pub proof fn lemma_increment_resets(v: VersionView)
    ensures
        incremented_minor(v).patch == 0,
        incremented_major(v).minor == 0,
        incremented_major(v).patch == 0,
{
}

} // verus!
