//! The version resolver: the base version and the final aggregate combine
//! into the next version. Increments compose patch first, then minor,
//! then major, each resetting what stands below it; when commits were
//! walked but none signalled a bump, the unchanged numeric core carries
//! the next build-metadata counter instead; when no commit was walked at
//! all, there is nothing to release.

use crate::aggregate::BumpAggregate;
use crate::numerals::{lemma_render_nat_digits, render_nat, render_u64};
use crate::version::{
    build_number_spec, incremented_major, incremented_minor, incremented_patch, wf_version,
    SemanticVersion, VersionView,
};
use vstd::prelude::*;
use vstd::string::*;

verus! {

/// The next build-metadata counter over a base version: one past the
/// base's numeric build identifier, or one when the base carries none.
pub open spec fn next_build_counter(base: VersionView) -> nat {
    match build_number_spec(base) {
        Some(n) => n + 1,
        None => 1,
    }
}

/// The resolved version: the bumped components when any flag is set
/// (patch, then minor, then major, each resetting what stands below it),
/// else the unchanged numeric core carrying the next build counter.
pub open spec fn resolved_spec(base: VersionView, agg: BumpAggregate) -> VersionView {
    if agg.major || agg.minor || agg.patch {
        let v1 = if agg.patch {
            incremented_patch(base)
        } else {
            base
        };
        let v2 = if agg.minor {
            incremented_minor(v1)
        } else {
            v1
        };
        if agg.major {
            incremented_major(v2)
        } else {
            v2
        }
    } else {
        VersionView {
            major: base.major,
            minor: base.minor,
            patch: base.patch,
            pre: Seq::empty(),
            build: seq![render_nat(next_build_counter(base))],
        }
    }
}

/// The inputs on which resolution stays within the machine word: only the
/// very edge of the numeric range is excluded.
pub open spec fn resolvable(base: VersionView, agg: BumpAggregate) -> bool {
    &&& agg.patch ==> base.patch < u64::MAX
    &&& agg.minor ==> base.minor < u64::MAX
    &&& agg.major ==> base.major < u64::MAX
    &&& !(agg.major || agg.minor || agg.patch) ==> next_build_counter(base) <= u64::MAX
}

/// Whether `resolve` may be applied to these inputs.
pub fn can_resolve(base: &SemanticVersion, agg: &BumpAggregate) -> (r: bool)
    ensures
        r == resolvable(base@, *agg),
{
    if agg.patch && base.patch == u64::MAX {
        return false;
    }
    if agg.minor && base.minor == u64::MAX {
        return false;
    }
    if agg.major && base.major == u64::MAX {
        return false;
    }
    if !agg.major && !agg.minor && !agg.patch {
        match base.build_number() {
            Some(n) => n < u64::MAX,
            None => true,
        }
    } else {
        true
    }
}

/// Resolves the aggregate against the base version: `None` exactly when
/// no commit was walked (the no-release condition), else the next version
/// per the decision table, with the build-metadata fallback when no bump
/// flag is set.
pub fn resolve(base: &SemanticVersion, agg: &BumpAggregate) -> (r: Option<SemanticVersion>)
    requires
        resolvable(base@, *agg),
    ensures
        (match r {
            Some(v) => agg.objects_visited > 0 && v@ == resolved_spec(base@, *agg) && wf_version(
                v@,
            ),
            None => agg.objects_visited == 0,
        }),
{
    if agg.objects_visited == 0 {
        return None;
    }
    if agg.major || agg.minor || agg.patch {
        let mut v = SemanticVersion {
            major: base.major,
            minor: base.minor,
            patch: base.patch,
            pre: Vec::new(),
            build: Vec::new(),
        };
        proof {
            assert(v@.pre =~= Seq::<Seq<char>>::empty());
            assert(v@.build =~= Seq::<Seq<char>>::empty());
        }
        if agg.patch {
            v.increment_patch();
        }
        if agg.minor {
            v.increment_minor();
        }
        if agg.major {
            v.increment_major();
        }
        proof {
            assert(v@ =~= resolved_spec(base@, *agg));
        }
        Some(v)
    } else {
        let counter: u64 = match base.build_number() {
            Some(n) => n + 1,
            None => 1,
        };
        let ident = render_u64(counter);
        let mut build: Vec<String> = Vec::new();
        build.push(ident);
        let v = SemanticVersion {
            major: base.major,
            minor: base.minor,
            patch: base.patch,
            pre: Vec::new(),
            build,
        };
        proof {
            assert(v@.pre =~= Seq::<Seq<char>>::empty());
            assert(v@.build =~= seq![render_nat(counter as nat)]);
            assert(v@ =~= resolved_spec(base@, *agg));
            lemma_render_nat_digits(counter as nat);
        }
        Some(v)
    }
}

} // verus!
