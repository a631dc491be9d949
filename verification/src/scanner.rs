//! The tag scanner: among a list of tag names, the highest one that
//! parses as a semantic version. Tags that are no versions are passed
//! over silently.

use crate::order::{
    compare, lemma_version_eq_not_lt, lemma_version_lt_asym, lemma_version_lt_trans, version_eq,
    version_lt, VersionOrder,
};
use crate::parse::{parse, parse_version_spec};
use crate::version::{wf_version, SemanticVersion, VersionView};
use vstd::prelude::*;
use vstd::string::*;

verus! {

/// The highest semantic version among the tag names, or `None` when no
/// tag parses as one.
pub fn highest_version(tags: &Vec<String>) -> (r: Option<SemanticVersion>)
    ensures
        (match r {
            Some(v) => {
                &&& wf_version(v@)
                &&& exists|k: int|
                    0 <= k < tags@.len() && parse_version_spec(#[trigger] tags@[k]@) == Some(v@)
                &&& forall|k: int|
                    0 <= k < tags@.len() ==> (#[trigger] parse_version_spec(tags@[k]@) matches Some(
                        u,
                    ) ==> !version_lt(v@, u))
            },
            None => forall|k: int|
                0 <= k < tags@.len() ==> parse_version_spec(#[trigger] tags@[k]@) is None,
        }),
{
    let mut best: Option<SemanticVersion> = None;
    let mut i: usize = 0;
    while i < tags.len()
        invariant
            i <= tags@.len(),
            (match best {
                Some(v) => {
                    &&& wf_version(v@)
                    &&& exists|k: int|
                        0 <= k < i && parse_version_spec(#[trigger] tags@[k]@) == Some(v@)
                    &&& forall|k: int|
                        0 <= k < i ==> (#[trigger] parse_version_spec(tags@[k]@) matches Some(u)
                            ==> !version_lt(v@, u))
                },
                None => forall|k: int|
                    0 <= k < i ==> parse_version_spec(#[trigger] tags@[k]@) is None,
            }),
        decreases tags@.len() - i,
    {
        let tag = &tags[i];
        proof {
            assert(tag@ == tags@[i as int]@);
        }
        match parse(tag.as_str()) {
            Ok(v) => {
                proof {
                    assert(parse_version_spec(tags@[i as int]@) == Some(v@));
                    lemma_version_eq_not_lt(v@, v@);
                }
                match best {
                    None => {
                        best = Some(v);
                    },
                    Some(b) => {
                        let c = compare(&v, &b);
                        match c {
                            VersionOrder::Less => {
                                // the new version sits below the maximum kept
                                proof {
                                    lemma_version_lt_asym(v@, b@);
                                }
                                best = Some(b);
                            },
                            _ => {
                                // the new version is not below the old maximum,
                                // so nothing the old one topped can top it
                                proof {
                                    assert forall|k: int|
                                        0 <= k < i + 1 implies (#[trigger] parse_version_spec(
                                        tags@[k]@,
                                    ) matches Some(u) ==> !version_lt(v@, u)) by {
                                        if k < i {
                                            match parse_version_spec(tags@[k]@) {
                                                Some(u) => {
                                                    if version_eq(v@, b@) {
                                                        assert(version_lt(v@, u) == version_lt(
                                                            b@,
                                                            u,
                                                        ));
                                                    } else if version_lt(v@, u) {
                                                        lemma_version_lt_trans(b@, v@, u);
                                                    }
                                                },
                                                None => {},
                                            }
                                        }
                                    }
                                }
                                best = Some(v);
                            },
                        }
                    },
                }
            },
            Err(_) => {},
        }
        i = i + 1;
    }
    best
}

/// The seed base version substituted when no tag parses: `0.0.1`, so that
/// the very first bump yields `0.0.2`, `0.1.0` or `1.0.0` and never
/// `0.0.0`.
pub fn default_base() -> (r: SemanticVersion)
    ensures
        r@.major == 0,
        r@.minor == 0,
        r@.patch == 1,
        r@.pre.len() == 0,
        r@.build.len() == 0,
        wf_version(r@),
{
    let r = SemanticVersion {
        major: 0,
        minor: 0,
        patch: 1,
        pre: Vec::new(),
        build: Vec::new(),
    };
    proof {
        assert(r@.pre =~= Seq::<Seq<char>>::empty());
        assert(r@.build =~= Seq::<Seq<char>>::empty());
    }
    r
}

} // verus!
