//! Parsing version strings: the numeric core `major.minor.patch`, an
//! optional pre-release tail after the first hyphen, and optional build
//! metadata after the first plus sign.

use crate::numerals::{digits_val, is_numeral, lemma_numeral_render, parse_numeral};
use crate::version::{
    is_build_ident, is_pre_ident, render_core, render_full, wf_version, SemanticVersion,
    VersionView,
};
use vstd::prelude::*;
use vstd::string::*;

verus! {

/// The mark of a string that is not a semantic version.
#[derive(Debug, PartialEq, Eq, Structural, Clone, Copy)]
pub struct ParseError;

/// The index of the first occurrence of `c` in `s`, or the length of `s`
/// when `c` does not occur.
pub open spec fn first_ix(s: Seq<char>, c: char) -> nat
    decreases s.len(),
{
    if s.len() == 0 {
        0
    } else if s[0] == c {
        0
    } else {
        1 + first_ix(s.drop_first(), c)
    }
}

pub proof fn lemma_first_ix(s: Seq<char>, c: char)
    ensures
        first_ix(s, c) <= s.len(),
        first_ix(s, c) < s.len() ==> s[first_ix(s, c) as int] == c,
        forall|j: int| 0 <= j < first_ix(s, c) ==> s[j] != c,
    decreases s.len(),
{
    if s.len() > 0 && s[0] != c {
        lemma_first_ix(s.drop_first(), c);
        assert forall|j: int| 0 <= j < first_ix(s, c) implies s[j] != c by {
            if j > 0 {
                assert(s.drop_first()[j - 1] == s[j]);
            }
        }
    }
}

/// An index with the first-occurrence shape is the first occurrence.
pub proof fn lemma_first_ix_is(s: Seq<char>, c: char, k: int)
    requires
        0 <= k <= s.len(),
        forall|j: int| 0 <= j < k ==> s[j] != c,
        k < s.len() ==> s[k] == c,
    ensures
        first_ix(s, c) == k,
    decreases s.len(),
{
    if s.len() == 0 {
    } else if s[0] == c {
    } else {
        assert forall|j: int| 0 <= j < k - 1 implies s.drop_first()[j] != c by {
            assert(s.drop_first()[j] == s[j + 1]);
        }
        if k - 1 < s.drop_first().len() {
            assert(s.drop_first()[k - 1] == s[k]);
        }
        lemma_first_ix_is(s.drop_first(), c, k - 1);
    }
}

/// The parsed numeric core `major.minor.patch`: present exactly when the
/// text is three canonical numerals, dot-separated, each fitting in `u64`.
pub open spec fn parse_core(core: Seq<char>) -> Option<(nat, nat, nat)> {
    let i: nat = first_ix(core, '.');
    if i >= core.len() {
        None
    } else {
        let n1 = core.take(i as int);
        let rest = core.skip(i as int + 1);
        let j: nat = first_ix(rest, '.');
        if j >= rest.len() {
            None
        } else {
            let n2 = rest.take(j as int);
            let n3 = rest.skip(j as int + 1);
            if is_numeral(n1) && digits_val(n1) <= u64::MAX && is_numeral(n2) && digits_val(n2)
                <= u64::MAX && is_numeral(n3) && digits_val(n3) <= u64::MAX {
                Some((digits_val(n1), digits_val(n2), digits_val(n3)))
            } else {
                None
            }
        }
    }
}

/// The dot-separated identifiers of a pre-release or build part; `None`
/// when any identifier is invalid (an empty part has no identifier and is
/// invalid too).
pub open spec fn parse_idents(s: Seq<char>, pre: bool) -> Option<Seq<Seq<char>>>
    decreases s.len(),
{
    let i: nat = first_ix(s, '.');
    if i >= s.len() {
        if (pre && is_pre_ident(s)) || (!pre && is_build_ident(s)) {
            Some(seq![s])
        } else {
            None
        }
    } else {
        let id = s.take(i as int);
        let ok = if pre {
            is_pre_ident(id)
        } else {
            is_build_ident(id)
        };
        if !ok {
            None
        } else {
            match parse_idents(s.skip(i as int + 1), pre) {
                Some(rest) => Some(seq![id] + rest),
                None => None,
            }
        }
    }
}

/// The version denoted by a string, when the string is a valid semantic
/// version whose numeric components fit in `u64`.
pub open spec fn parse_version_spec(s: Seq<char>) -> Option<VersionView> {
    let p: nat = first_ix(s, '+');
    let head = s.take(p as int);
    let m: nat = first_ix(head, '-');
    let core = head.take(m as int);
    match parse_core(core) {
        None => None,
        Some(c) => {
            let pre = if m < head.len() {
                parse_idents(head.skip(m as int + 1), true)
            } else {
                Some(Seq::empty())
            };
            let build = if p < s.len() {
                parse_idents(s.skip(p as int + 1), false)
            } else {
                Some(Seq::empty())
            };
            match (pre, build) {
                (Some(pr), Some(bu)) => Some(
                    VersionView { major: c.0, minor: c.1, patch: c.2, pre: pr, build: bu },
                ),
                _ => None,
            }
        },
    }
}

/// Every identifier of a parsed pre-release or build part is valid.
pub proof fn lemma_parse_idents_valid(s: Seq<char>, pre: bool, ids: Seq<Seq<char>>)
    requires
        parse_idents(s, pre) == Some(ids),
    ensures
        forall|k: int|
            0 <= k < ids.len() ==> (if pre {
                is_pre_ident(#[trigger] ids[k])
            } else {
                is_build_ident(#[trigger] ids[k])
            }),
    decreases s.len(),
{
    let i: nat = first_ix(s, '.');
    lemma_first_ix(s, '.');
    if i >= s.len() {
    } else {
        let rest = parse_idents(s.skip(i as int + 1), pre);
        match rest {
            Some(r) => {
                lemma_parse_idents_valid(s.skip(i as int + 1), pre, r);
                assert(forall|k: int| 1 <= k < ids.len() ==> ids[k] == r[k - 1]);
            },
            None => {},
        }
    }
}

/// A parsed pre-release or build part holds at least one identifier.
proof fn lemma_parse_idents_nonempty(s: Seq<char>, pre: bool, ids: Seq<Seq<char>>)
    requires
        parse_idents(s, pre) == Some(ids),
    ensures
        ids.len() >= 1,
{
}

/// Finds the first occurrence of `c` in `s[from..to]`, or `to` when there
/// is none.
fn find_char(s: &str, from: usize, to: usize, c: char) -> (r: usize)
    requires
        from <= to <= s@.len(),
    ensures
        from <= r <= to,
        r < to ==> s@[r as int] == c,
        forall|j: int| from <= j < r ==> s@[j] != c,
{
    let mut i: usize = from;
    while i < to
        invariant
            from <= i <= to <= s@.len(),
            forall|j: int| from <= j < i ==> s@[j] != c,
        decreases to - i,
    {
        if s.get_char(i) == c {
            return i;
        }
        i = i + 1;
    }
    to
}

/// Checks the identifier `s[from..to]` as a pre-release or build
/// identifier.
fn check_ident(s: &str, from: usize, to: usize, pre: bool) -> (r: bool)
    requires
        from <= to <= s@.len(),
    ensures
        r == (if pre {
            is_pre_ident(s@.subrange(from as int, to as int))
        } else {
            is_build_ident(s@.subrange(from as int, to as int))
        }),
{
    let ghost sub = s@.subrange(from as int, to as int);
    if from == to {
        return false;
    }
    let mut i: usize = from;
    let mut dig: bool = true;
    while i < to
        invariant
            from <= i <= to <= s@.len(),
            from < to,
            sub == s@.subrange(from as int, to as int),
            forall|j: int| 0 <= j < i - from ==> crate::version::is_ident_char(#[trigger] sub[j]),
            dig == crate::numerals::all_digits(sub.take(i as int - from as int)),
        decreases to - i,
    {
        let c = s.get_char(i);
        let code: u32 = c as u32;
        proof {
            assert(sub[i as int - from as int] == s@[i as int]);
            assert(sub.take(i as int - from as int + 1).drop_last() =~= sub.take(
                i as int - from as int,
            ));
            assert(sub.take(i as int - from as int + 1).last() == sub[i as int - from as int]);
        }
        let is_dig = code >= 48 && code <= 57;
        let is_ident = is_dig || (code >= 65 && code <= 90) || (code >= 97 && code <= 122) || c
            == '-';
        if !is_ident {
            return false;
        }
        if !is_dig {
            dig = false;
        }
        proof {
            if dig {
                assert forall|j: int| 0 <= j < i as int - from as int + 1 implies
                    crate::numerals::is_digit(#[trigger] sub.take(i as int - from as int + 1)[j])
                by {
                    assert(sub.take(i as int - from as int + 1)[j] == sub.take(
                        i as int - from as int,
                    )[j] || j == i as int - from as int);
                }
            } else {
                if crate::numerals::all_digits(sub.take(i as int - from as int + 1)) {
                    assert(crate::numerals::all_digits(sub.take(i as int - from as int)));
                }
            }
        }
        i = i + 1;
    }
    proof {
        assert(sub.take(to as int - from as int) =~= sub);
        assert(is_build_ident(sub));
    }
    if pre && dig {
        if to - from > 1 {
            let c0 = s.get_char(from);
            proof {
                assert(sub[0] == s@[from as int]);
            }
            if c0 == '0' {
                // a numeric pre-release identifier must not carry a leading zero
                return false;
            }
        }
        proof {
            assert(is_numeral(sub));
        }
    }
    true
}

/// Parses the identifiers of `s[from..to]`, dot-separated.
fn parse_idents_exec(s: &str, from: usize, to: usize, pre: bool) -> (r: Option<Vec<String>>)
    requires
        from <= to <= s@.len(),
    ensures
        (match r {
            Some(ids) => parse_idents(s@.subrange(from as int, to as int), pre) == Some(
                ids.deep_view(),
            ),
            None => parse_idents(s@.subrange(from as int, to as int), pre) is None,
        }),
    decreases to - from,
{
    let ghost sub = s@.subrange(from as int, to as int);
    let dot: usize = find_char(s, from, to, '.');
    proof {
        assert forall|j: int| 0 <= j < dot - from implies sub[j] != '.' by {
            assert(sub[j] == s@[from + j]);
        }
        if dot < to {
            assert(sub[dot - from] == s@[dot as int]);
        }
        lemma_first_ix_is(sub, '.', dot as int - from as int);
    }
    if dot == to {
        if check_ident(s, from, to, pre) {
            let id = s.substring_char(from, to).to_owned();
            let mut v: Vec<String> = Vec::new();
            v.push(id);
            proof {
                assert(v.deep_view() =~= seq![sub]);
            }
            Some(v)
        } else {
            None
        }
    } else {
        proof {
            assert(sub.take(dot as int - from as int) =~= s@.subrange(from as int, dot as int));
        }
        if !check_ident(s, from, dot, pre) {
            return None;
        }
        proof {
            assert(sub.skip(dot as int - from as int + 1) =~= s@.subrange(
                dot as int + 1,
                to as int,
            ));
        }
        match parse_idents_exec(s, dot + 1, to, pre) {
            None => None,
            Some(rest) => {
                let id = s.substring_char(from, dot).to_owned();
                let mut v: Vec<String> = Vec::new();
                v.push(id);
                let mut t: usize = 0;
                while t < rest.len()
                    invariant
                        t <= rest.len(),
                        v.len() == t + 1,
                        v@[0]@ == s@.subrange(from as int, dot as int),
                        forall|k: int| 1 <= k < v.len() ==> v@[k]@ == rest@[k - 1]@,
                    decreases rest.len() - t,
                {
                    let e = rest[t].clone();
                    v.push(e);
                    t = t + 1;
                }
                proof {
                    assert forall|k: int| 0 <= k < v.deep_view().len() implies v.deep_view()[k]
                        == (seq![sub.take(dot as int - from as int)] + rest.deep_view())[k] by {
                        assert(v.deep_view()[k] == v@[k]@);
                        if k >= 1 {
                            assert(rest.deep_view()[k - 1] == rest@[k - 1]@);
                        }
                    }
                    assert(v.deep_view() =~= seq![sub.take(dot as int - from as int)]
                        + rest.deep_view());
                }
                Some(v)
            },
        }
    }
}

/// Parses a semantic version; `Err` exactly on the strings that are not
/// valid semantic versions with `u64`-sized numeric components.
pub fn parse(s: &str) -> (r: Result<SemanticVersion, ParseError>)
    ensures
        (match r {
            Ok(v) => parse_version_spec(s@) == Some(v@) && wf_version(v@),
            Err(_) => parse_version_spec(s@) is None,
        }),
{
    let n: usize = s.unicode_len();
    let plus: usize = find_char(s, 0, n, '+');
    proof {
        lemma_first_ix_is(s@, '+', plus as int);
    }
    let ghost head = s@.take(plus as int);
    let minus: usize = find_char(s, 0, plus, '-');
    proof {
        assert forall|j: int| 0 <= j < minus implies head[j] != '-' by {
            assert(head[j] == s@[j]);
        }
        if minus < plus {
            assert(head[minus as int] == s@[minus as int]);
        }
        lemma_first_ix_is(head, '-', minus as int);
    }
    let ghost core = head.take(minus as int);
    let d1: usize = find_char(s, 0, minus, '.');
    proof {
        assert forall|j: int| 0 <= j < d1 implies core[j] != '.' by {
            assert(core[j] == s@[j]);
        }
        if d1 < minus {
            assert(core[d1 as int] == s@[d1 as int]);
        }
        lemma_first_ix_is(core, '.', d1 as int);
    }
    if d1 == minus {
        return Err(ParseError);
    }
    proof {
        assert(core.take(d1 as int) =~= s@.subrange(0, d1 as int));
    }
    let major: u64 = match parse_numeral(s, 0, d1) {
        Some(x) => x,
        None => {
            return Err(ParseError);
        },
    };
    let ghost rest = core.skip(d1 as int + 1);
    let d2: usize = find_char(s, d1 + 1, minus, '.');
    proof {
        assert forall|j: int| 0 <= j < d2 - d1 - 1 implies rest[j] != '.' by {
            assert(rest[j] == s@[d1 + 1 + j]);
        }
        if d2 < minus {
            assert(rest[d2 - d1 - 1] == s@[d2 as int]);
        }
        lemma_first_ix_is(rest, '.', d2 as int - d1 as int - 1);
    }
    if d2 == minus {
        return Err(ParseError);
    }
    proof {
        assert(rest.take(d2 as int - d1 as int - 1) =~= s@.subrange(d1 as int + 1, d2 as int));
        assert(rest.skip(d2 as int - d1 as int) =~= s@.subrange(d2 as int + 1, minus as int));
    }
    let minor: u64 = match parse_numeral(s, d1 + 1, d2) {
        Some(x) => x,
        None => {
            return Err(ParseError);
        },
    };
    let patch: u64 = match parse_numeral(s, d2 + 1, minus) {
        Some(x) => x,
        None => {
            return Err(ParseError);
        },
    };
    let pre: Vec<String> = if minus < plus {
        proof {
            assert(head.skip(minus as int + 1) =~= s@.subrange(minus as int + 1, plus as int));
        }
        match parse_idents_exec(s, minus + 1, plus, true) {
            Some(v) => v,
            None => {
                return Err(ParseError);
            },
        }
    } else {
        Vec::new()
    };
    let build: Vec<String> = if plus < n {
        proof {
            assert(s@.skip(plus as int + 1) =~= s@.subrange(plus as int + 1, n as int));
        }
        match parse_idents_exec(s, plus + 1, n, false) {
            Some(v) => v,
            None => {
                return Err(ParseError);
            },
        }
    } else {
        Vec::new()
    };
    let v = SemanticVersion { major, minor, patch, pre, build };
    proof {
        if minus >= plus {
            assert(v@.pre =~= Seq::<Seq<char>>::empty());
        } else {
            lemma_parse_idents_valid(head.skip(minus as int + 1), true, v@.pre);
        }
        if plus >= n {
            assert(v@.build =~= Seq::<Seq<char>>::empty());
        } else {
            lemma_parse_idents_valid(s@.skip(plus as int + 1), false, v@.build);
        }
        assert(parse_version_spec(s@) == Some(v@));
    }
    Ok(v)
}

/// The deterministic end of the numeric core of a version string: the
/// first hyphen before the first plus sign (or the end of what precedes
/// that plus sign).
pub open spec fn core_end(s: Seq<char>) -> int {
    first_ix(s.take(first_ix(s, '+') as int), '-') as int
}

/// Parsing and rendering round-trip the numeric core: a version parsed
/// from a string renders back to exactly that string's numeric core.
pub proof fn lemma_parse_render_core(s: Seq<char>, v: VersionView)
    requires
        parse_version_spec(s) == Some(v),
    ensures
        render_core(v) == s.take(core_end(s)),
{
    let p: nat = first_ix(s, '+');
    lemma_first_ix(s, '+');
    let head = s.take(p as int);
    let m: nat = first_ix(head, '-');
    lemma_first_ix(head, '-');
    let core = head.take(m as int);
    assert(core =~= s.take(core_end(s)));
    let i: nat = first_ix(core, '.');
    lemma_first_ix(core, '.');
    let n1 = core.take(i as int);
    let rest = core.skip(i as int + 1);
    let j: nat = first_ix(rest, '.');
    lemma_first_ix(rest, '.');
    let n2 = rest.take(j as int);
    let n3 = rest.skip(j as int + 1);
    lemma_numeral_render(n1);
    lemma_numeral_render(n2);
    lemma_numeral_render(n3);
    assert(core =~= n1 + seq!['.'] + n2 + seq!['.'] + n3);
    assert(render_core(v) == core);
}

/// A version carrying neither pre-release nor build metadata renders back
/// to the whole string it was parsed from, not only to its numeric core.
pub proof fn lemma_parse_render_exact(s: Seq<char>, v: VersionView)
    requires
        parse_version_spec(s) == Some(v),
        v.pre.len() == 0,
        v.build.len() == 0,
    ensures
        render_full(v) == s,
{
    let p: nat = first_ix(s, '+');
    lemma_first_ix(s, '+');
    let head = s.take(p as int);
    let m: nat = first_ix(head, '-');
    lemma_first_ix(head, '-');
    if p < s.len() {
        // a plus sign would force at least one build identifier
        match parse_idents(s.skip(p as int + 1), false) {
            Some(bu) => {
                lemma_parse_idents_nonempty(s.skip(p as int + 1), false, bu);
            },
            None => {},
        }
    }
    if m < head.len() {
        // a hyphen would force at least one pre-release identifier
        match parse_idents(head.skip(m as int + 1), true) {
            Some(pr) => {
                lemma_parse_idents_nonempty(head.skip(m as int + 1), true, pr);
            },
            None => {},
        }
    }
    assert(head =~= s);
    lemma_parse_render_core(s, v);
    assert(s.take(core_end(s)) =~= s);
}

} // verus!
