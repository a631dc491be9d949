//! The precedence order of semantic versions: numeric components first,
//! then the rule that any pre-release precedes its release, then the
//! pre-release identifiers one by one. Build metadata never takes part.

use crate::numerals::{
    all_digits, digit_val, digits_val, is_numeral, lemma_digits_val_lower, lemma_digits_val_upper,
    lemma_pow10_pos, pow10,
};
use crate::version::{is_pre_ident, wf_version, SemanticVersion, VersionView};
use vstd::assert_seqs_equal;
use vstd::prelude::*;

verus! {

/// The outcome of a comparison.
#[derive(Debug, PartialEq, Eq, Structural, Clone, Copy)]
pub enum VersionOrder {
    Less,
    Equal,
    Greater,
}

/// Strict lexicographic order on character sequences, by code point, a
/// proper prefix preceding its extensions.
pub open spec fn lex_lt(a: Seq<char>, b: Seq<char>) -> bool
    decreases a.len(),
{
    if b.len() == 0 {
        false
    } else if a.len() == 0 {
        true
    } else if a[0] != b[0] {
        (a[0] as u32) < (b[0] as u32)
    } else {
        lex_lt(a.drop_first(), b.drop_first())
    }
}

/// Strict order on single pre-release identifiers: numeric identifiers
/// compare by value and precede alphanumeric ones; alphanumeric ones
/// compare lexically.
pub open spec fn ident_lt(a: Seq<char>, b: Seq<char>) -> bool {
    let na = a.len() > 0 && all_digits(a);
    let nb = b.len() > 0 && all_digits(b);
    if na && nb {
        digits_val(a) < digits_val(b)
    } else if na {
        true
    } else if nb {
        false
    } else {
        lex_lt(a, b)
    }
}

/// Strict order on pre-release identifier sequences, identifier by
/// identifier, a shorter prefix preceding its extensions.
pub open spec fn pre_lt(a: Seq<Seq<char>>, b: Seq<Seq<char>>) -> bool
    decreases a.len(),
{
    if b.len() == 0 {
        false
    } else if a.len() == 0 {
        true
    } else if ident_lt(a[0], b[0]) {
        true
    } else if ident_lt(b[0], a[0]) {
        false
    } else {
        pre_lt(a.drop_first(), b.drop_first())
    }
}

/// Strict precedence on versions: numeric components, then the rule that
/// a pre-release precedes its release, then the pre-release identifiers.
pub open spec fn version_lt(a: VersionView, b: VersionView) -> bool {
    if a.major != b.major {
        a.major < b.major
    } else if a.minor != b.minor {
        a.minor < b.minor
    } else if a.patch != b.patch {
        a.patch < b.patch
    } else if a.pre.len() == 0 {
        false
    } else if b.pre.len() == 0 {
        true
    } else {
        pre_lt(a.pre, b.pre)
    }
}

/// Equal precedence: equal numeric components and pre-release
/// identifiers; build metadata is excluded.
pub open spec fn version_eq(a: VersionView, b: VersionView) -> bool {
    a.major == b.major && a.minor == b.minor && a.patch == b.patch && a.pre == b.pre
}

proof fn lemma_pow10_mono(a: nat, b: nat)
    requires
        a <= b,
    ensures
        pow10(a) <= pow10(b),
    decreases b,
{
    if a < b {
        lemma_pow10_mono(a, (b - 1) as nat);
        lemma_pow10_pos((b - 1) as nat);
    }
}

proof fn lemma_lex_irrefl(a: Seq<char>)
    ensures
        !lex_lt(a, a),
    decreases a.len(),
{
    if a.len() > 0 {
        lemma_lex_irrefl(a.drop_first());
    }
}

proof fn lemma_lex_asym(a: Seq<char>, b: Seq<char>)
    requires
        lex_lt(a, b),
    ensures
        !lex_lt(b, a),
    decreases a.len(),
{
    if b.len() == 0 {
    } else if a.len() == 0 {
    } else if a[0] != b[0] {
    } else {
        lemma_lex_asym(a.drop_first(), b.drop_first());
    }
}

/// Distinct characters have distinct code points.
proof fn char_codes_differ(c: char, d: char)
    requires
        c != d,
    ensures
        c as u32 != d as u32,
{
}

proof fn lemma_lex_connex(a: Seq<char>, b: Seq<char>)
    requires
        !lex_lt(a, b),
        !lex_lt(b, a),
    ensures
        a == b,
    decreases a.len(),
{
    if b.len() == 0 {
        assert(a =~= b);
    } else if a.len() == 0 {
        assert(lex_lt(a, b));
    } else if a[0] != b[0] {
        char_codes_differ(a[0], b[0]);
        assert(lex_lt(a, b) || lex_lt(b, a));
    } else {
        lemma_lex_connex(a.drop_first(), b.drop_first());
        assert(a.drop_first() == b.drop_first());
        assert(a.drop_first().len() == b.drop_first().len());
        assert(a.len() == b.len());
        assert_seqs_equal!(a == b, j => {
            if j > 0 {
                assert(a[j] == a.drop_first()[j - 1]);
                assert(b[j] == b.drop_first()[j - 1]);
            }
        });
    }
}

proof fn lemma_lex_trans(a: Seq<char>, b: Seq<char>, c: Seq<char>)
    requires
        lex_lt(a, b),
        lex_lt(b, c),
    ensures
        lex_lt(a, c),
    decreases a.len(),
{
    if c.len() == 0 {
    } else if a.len() == 0 {
    } else {
        if a[0] == b[0] && b[0] == c[0] {
            lemma_lex_trans(a.drop_first(), b.drop_first(), c.drop_first());
        }
    }
}

/// The value of a digit string read from its leading digit.
proof fn lemma_digits_val_front(s: Seq<char>)
    requires
        s.len() > 0,
    ensures
        digits_val(s) == digit_val(s[0]) * pow10((s.len() - 1) as nat) + digits_val(
            s.drop_first(),
        ),
    decreases s.len(),
{
    if s.len() == 1 {
        reveal_with_fuel(digits_val, 2);
        assert(s.drop_last() =~= Seq::<char>::empty());
        assert(s.drop_first() =~= Seq::<char>::empty());
        assert(s.last() == s[0]);
        assert(digits_val(s.drop_first()) == 0);
        assert(digits_val(s) == digit_val(s[0]));
        assert(pow10((s.len() - 1) as nat) == 1);
        let d0: nat = digit_val(s[0]);
        let p1: nat = pow10((s.len() - 1) as nat);
        assert(d0 * p1 == d0) by (nonlinear_arith)
            requires
                p1 == 1,
        ;
    } else {
        let t = s.drop_last();
        lemma_digits_val_front(t);
        assert(t.drop_first() =~= s.drop_first().drop_last());
        assert(t[0] == s[0]);
        assert(s.drop_first().len() > 0);
        assert(s.drop_first().last() == s.last());
        let d0: nat = digit_val(s[0]);
        let p: nat = pow10((s.len() - 2) as nat);
        let w: nat = digits_val(t.drop_first());
        let dl: nat = digit_val(s.last());
        assert(digits_val(s) == digits_val(t) * 10 + dl);
        assert(digits_val(t) == d0 * p + w);
        assert((d0 * p + w) * 10 == d0 * (p * 10) + w * 10) by (nonlinear_arith);
        assert(digits_val(s) == d0 * (p * 10) + (w * 10 + dl));
        assert(digits_val(s.drop_first()) == digits_val(s.drop_first().drop_last()) * 10
            + digit_val(s.drop_first().last()));
        assert(digits_val(s.drop_first()) == w * 10 + dl);
        assert(pow10((s.len() - 1) as nat) == 10 * p);
        assert(d0 * (p * 10) == d0 * pow10((s.len() - 1) as nat));
    }
}

/// On equal-length digit strings, the lexicographic order is the numeric
/// order.
proof fn lemma_digits_lex_val(a: Seq<char>, b: Seq<char>)
    requires
        all_digits(a),
        all_digits(b),
        a.len() == b.len(),
        lex_lt(a, b),
    ensures
        digits_val(a) < digits_val(b),
    decreases a.len(),
{
    if a[0] != b[0] {
        lemma_digits_val_front(a);
        lemma_digits_val_front(b);
        lemma_digits_val_upper(a.drop_first());
        let p: nat = pow10((a.len() - 1) as nat);
        let da: nat = digit_val(a[0]);
        let db: nat = digit_val(b[0]);
        assert(da < db);
        assert(da * p + p == (da + 1) * p) by (nonlinear_arith);
        assert((da + 1) * p <= db * p) by (nonlinear_arith)
            requires
                da + 1 <= db,
                p >= 0,
        ;
    } else {
        lemma_digits_val_front(a);
        lemma_digits_val_front(b);
        assert forall|j: int| 0 <= j < a.drop_first().len() implies crate::numerals::is_digit(
            #[trigger] a.drop_first()[j],
        ) by {
            assert(a.drop_first()[j] == a[j + 1]);
        }
        assert forall|j: int| 0 <= j < b.drop_first().len() implies crate::numerals::is_digit(
            #[trigger] b.drop_first()[j],
        ) by {
            assert(b.drop_first()[j] == b[j + 1]);
        }
        lemma_digits_lex_val(a.drop_first(), b.drop_first());
    }
}

/// On canonical numerals, the numeric order is length first, then the
/// lexicographic order.
proof fn lemma_numeral_order(a: Seq<char>, b: Seq<char>)
    requires
        is_numeral(a),
        is_numeral(b),
    ensures
        digits_val(a) < digits_val(b) <==> (a.len() < b.len() || (a.len() == b.len() && lex_lt(
            a,
            b,
        ))),
{
    if a.len() < b.len() {
        lemma_digits_val_upper(a);
        lemma_digits_val_lower(b);
        lemma_pow10_mono(a.len(), (b.len() - 1) as nat);
    } else if b.len() < a.len() {
        lemma_digits_val_upper(b);
        lemma_digits_val_lower(a);
        lemma_pow10_mono(b.len(), (a.len() - 1) as nat);
    } else {
        if lex_lt(a, b) {
            lemma_digits_lex_val(a, b);
        } else if lex_lt(b, a) {
            lemma_digits_lex_val(b, a);
        } else {
            lemma_lex_connex(a, b);
        }
    }
}

proof fn lemma_ident_irrefl(a: Seq<char>)
    ensures
        !ident_lt(a, a),
{
    lemma_lex_irrefl(a);
}

proof fn lemma_ident_asym(a: Seq<char>, b: Seq<char>)
    requires
        ident_lt(a, b),
    ensures
        !ident_lt(b, a),
{
    lemma_lex_asym2(a, b);
}

proof fn lemma_lex_asym2(a: Seq<char>, b: Seq<char>)
    ensures
        lex_lt(a, b) ==> !lex_lt(b, a),
{
    if lex_lt(a, b) {
        lemma_lex_asym(a, b);
    }
}

proof fn lemma_ident_trans(a: Seq<char>, b: Seq<char>, c: Seq<char>)
    requires
        ident_lt(a, b),
        ident_lt(b, c),
    ensures
        ident_lt(a, c),
{
    let na = a.len() > 0 && all_digits(a);
    let nb = b.len() > 0 && all_digits(b);
    let nc = c.len() > 0 && all_digits(c);
    if !na && !nb && !nc {
        lemma_lex_trans(a, b, c);
    }
}

/// Identifiers of equal rank order alike against any third identifier.
proof fn lemma_ident_eq_lt(a: Seq<char>, b: Seq<char>, c: Seq<char>)
    requires
        !ident_lt(a, b),
        !ident_lt(b, a),
        ident_lt(b, c),
    ensures
        ident_lt(a, c),
{
    let na = a.len() > 0 && all_digits(a);
    let nb = b.len() > 0 && all_digits(b);
    if !na && !nb {
        lemma_lex_connex(a, b);
    }
}

proof fn lemma_ident_lt_eq(a: Seq<char>, b: Seq<char>, c: Seq<char>)
    requires
        ident_lt(a, b),
        !ident_lt(b, c),
        !ident_lt(c, b),
    ensures
        ident_lt(a, c),
{
    let nb = b.len() > 0 && all_digits(b);
    let nc = c.len() > 0 && all_digits(c);
    if !nb && !nc {
        lemma_lex_connex(b, c);
    }
}

proof fn lemma_ident_eq_trans(a: Seq<char>, b: Seq<char>, c: Seq<char>)
    requires
        !ident_lt(a, b),
        !ident_lt(b, a),
        !ident_lt(b, c),
        !ident_lt(c, b),
    ensures
        !ident_lt(a, c),
        !ident_lt(c, a),
{
    let na = a.len() > 0 && all_digits(a);
    let nb = b.len() > 0 && all_digits(b);
    let nc = c.len() > 0 && all_digits(c);
    if !na && !nb {
        lemma_lex_connex(a, b);
    }
    if !nb && !nc {
        lemma_lex_connex(b, c);
    }
}

proof fn lemma_pre_irrefl(p: Seq<Seq<char>>)
    ensures
        !pre_lt(p, p),
    decreases p.len(),
{
    if p.len() > 0 {
        lemma_ident_irrefl(p[0]);
        lemma_pre_irrefl(p.drop_first());
    }
}

proof fn lemma_pre_asym(a: Seq<Seq<char>>, b: Seq<Seq<char>>)
    requires
        pre_lt(a, b),
    ensures
        !pre_lt(b, a),
    decreases a.len(),
{
    if b.len() == 0 {
    } else if a.len() == 0 {
    } else if ident_lt(a[0], b[0]) {
        lemma_ident_asym(a[0], b[0]);
    } else if ident_lt(b[0], a[0]) {
    } else {
        lemma_pre_asym(a.drop_first(), b.drop_first());
    }
}

proof fn lemma_pre_trans(a: Seq<Seq<char>>, b: Seq<Seq<char>>, c: Seq<Seq<char>>)
    requires
        pre_lt(a, b),
        pre_lt(b, c),
    ensures
        pre_lt(a, c),
    decreases a.len(),
{
    if c.len() == 0 {
    } else if a.len() == 0 {
    } else {
        // both hypotheses force b to be non-empty
        if ident_lt(a[0], b[0]) {
            if ident_lt(b[0], c[0]) {
                lemma_ident_trans(a[0], b[0], c[0]);
            } else if ident_lt(c[0], b[0]) {
            } else {
                lemma_ident_lt_eq(a[0], b[0], c[0]);
            }
        } else if ident_lt(b[0], a[0]) {
        } else {
            if ident_lt(b[0], c[0]) {
                lemma_ident_eq_lt(a[0], b[0], c[0]);
            } else if ident_lt(c[0], b[0]) {
            } else {
                lemma_ident_eq_trans(a[0], b[0], c[0]);
                lemma_pre_trans(a.drop_first(), b.drop_first(), c.drop_first());
            }
        }
    }
}

/// Precedence is asymmetric: no two versions precede each other.
pub proof fn lemma_version_lt_asym(a: VersionView, b: VersionView)
    requires
        version_lt(a, b),
    ensures
        !version_lt(b, a),
{
    if a.major == b.major && a.minor == b.minor && a.patch == b.patch {
        if a.pre.len() > 0 && b.pre.len() > 0 {
            lemma_pre_asym(a.pre, b.pre);
        }
    }
}

/// Precedence is transitive.
pub proof fn lemma_version_lt_trans(a: VersionView, b: VersionView, c: VersionView)
    requires
        version_lt(a, b),
        version_lt(b, c),
    ensures
        version_lt(a, c),
{
    if a.major == b.major && b.major == c.major && a.minor == b.minor && b.minor == c.minor
        && a.patch == b.patch && b.patch == c.patch {
        if a.pre.len() > 0 && b.pre.len() > 0 && c.pre.len() > 0 {
            lemma_pre_trans(a.pre, b.pre, c.pre);
        }
    }
}

/// Versions of equal precedence precede nothing the other does not.
pub proof fn lemma_version_eq_not_lt(a: VersionView, b: VersionView)
    requires
        version_eq(a, b),
    ensures
        !version_lt(a, b),
        !version_lt(b, a),
{
    if a.pre.len() > 0 {
        lemma_pre_irrefl(a.pre);
    }
}

/// True exactly when the whole string is digits.
fn all_digits_str(s: &str) -> (r: bool)
    ensures
        r == all_digits(s@),
{
    let n: usize = s.unicode_len();
    let mut i: usize = 0;
    while i < n
        invariant
            i <= n == s@.len(),
            forall|j: int| 0 <= j < i ==> crate::numerals::is_digit(#[trigger] s@[j]),
        decreases n - i,
    {
        let c = s.get_char(i);
        let code: u32 = c as u32;
        if code < 48 || code > 57 {
            return false;
        }
        i = i + 1;
    }
    true
}

/// Compares two strings lexicographically by code point.
fn lex_cmp(a: &str, b: &str) -> (r: VersionOrder)
    ensures
        (r == VersionOrder::Less) <==> lex_lt(a@, b@),
        (r == VersionOrder::Greater) <==> lex_lt(b@, a@),
        (r == VersionOrder::Equal) <==> a@ == b@,
{
    let an: usize = a.unicode_len();
    let bn: usize = b.unicode_len();
    let mut i: usize = 0;
    proof {
        assert(a@.skip(0) =~= a@);
        assert(b@.skip(0) =~= b@);
    }
    while i < an && i < bn
        invariant
            i <= an == a@.len(),
            i <= bn == b@.len(),
            forall|j: int| 0 <= j < i ==> a@[j] == b@[j],
            lex_lt(a@, b@) == lex_lt(a@.skip(i as int), b@.skip(i as int)),
            lex_lt(b@, a@) == lex_lt(b@.skip(i as int), a@.skip(i as int)),
        decreases an - i,
    {
        let ca = a.get_char(i);
        let cb = b.get_char(i);
        proof {
            assert(a@.skip(i as int)[0] == a@[i as int]);
            assert(b@.skip(i as int)[0] == b@[i as int]);
        }
        if ca != cb {
            if (ca as u32) < (cb as u32) {
                return VersionOrder::Less;
            } else {
                proof {
                    assert(a@ != b@);
                }
                return VersionOrder::Greater;
            }
        }
        proof {
            assert(a@.skip(i as int).drop_first() =~= a@.skip(i as int + 1));
            assert(b@.skip(i as int).drop_first() =~= b@.skip(i as int + 1));
        }
        i = i + 1;
    }
    if an == bn {
        proof {
            assert(a@ =~= b@);
            lemma_lex_irrefl(a@);
        }
        VersionOrder::Equal
    } else if an < bn {
        proof {
            assert(a@.skip(i as int).len() == 0);
            assert(b@.skip(i as int).len() > 0);
            assert(a@.len() != b@.len());
        }
        VersionOrder::Less
    } else {
        proof {
            assert(b@.skip(i as int).len() == 0);
            assert(a@.skip(i as int).len() > 0);
        }
        VersionOrder::Greater
    }
}

/// Compares two pre-release identifiers.
fn ident_cmp(p: &String, q: &String) -> (r: VersionOrder)
    requires
        is_pre_ident(p@),
        is_pre_ident(q@),
    ensures
        (r == VersionOrder::Less) <==> ident_lt(p@, q@),
        (r == VersionOrder::Greater) <==> ident_lt(q@, p@),
        (r == VersionOrder::Equal) <==> p@ == q@,
{
    let pd = all_digits_str(p.as_str());
    let qd = all_digits_str(q.as_str());
    if pd && qd {
        proof {
            lemma_numeral_order(p@, q@);
            lemma_numeral_order(q@, p@);
        }
        let pn: usize = p.as_str().unicode_len();
        let qn: usize = q.as_str().unicode_len();
        if pn < qn {
            VersionOrder::Less
        } else if qn < pn {
            VersionOrder::Greater
        } else {
            let r = lex_cmp(p.as_str(), q.as_str());
            proof {
                if r == VersionOrder::Equal {
                    lemma_lex_irrefl(p@);
                }
            }
            r
        }
    } else if pd {
        VersionOrder::Less
    } else if qd {
        VersionOrder::Greater
    } else {
        lex_cmp(p.as_str(), q.as_str())
    }
}

/// Compares two pre-release identifier sequences.
fn pre_cmp(x: &Vec<String>, y: &Vec<String>) -> (r: VersionOrder)
    requires
        forall|i: int| 0 <= i < x.deep_view().len() ==> is_pre_ident(#[trigger] x.deep_view()[i]),
        forall|i: int| 0 <= i < y.deep_view().len() ==> is_pre_ident(#[trigger] y.deep_view()[i]),
    ensures
        (r == VersionOrder::Less) <==> pre_lt(x.deep_view(), y.deep_view()),
        (r == VersionOrder::Greater) <==> pre_lt(y.deep_view(), x.deep_view()),
        (r == VersionOrder::Equal) <==> x.deep_view() == y.deep_view(),
{
    let ghost xv = x.deep_view();
    let ghost yv = y.deep_view();
    let mut i: usize = 0;
    proof {
        assert(xv.skip(0) =~= xv);
        assert(yv.skip(0) =~= yv);
    }
    while i < x.len() && i < y.len()
        invariant
            xv == x.deep_view(),
            yv == y.deep_view(),
            forall|k: int| 0 <= k < xv.len() ==> is_pre_ident(#[trigger] xv[k]),
            forall|k: int| 0 <= k < yv.len() ==> is_pre_ident(#[trigger] yv[k]),
            i <= x.len() == xv.len(),
            i <= y.len() == yv.len(),
            forall|j: int| 0 <= j < i ==> xv[j] == yv[j],
            pre_lt(xv, yv) == pre_lt(xv.skip(i as int), yv.skip(i as int)),
            pre_lt(yv, xv) == pre_lt(yv.skip(i as int), xv.skip(i as int)),
        decreases x.len() - i,
    {
        proof {
            assert(xv.skip(i as int)[0] == xv[i as int]);
            assert(yv.skip(i as int)[0] == yv[i as int]);
            assert(x@[i as int]@ == xv[i as int]);
            assert(y@[i as int]@ == yv[i as int]);
        }
        let c = ident_cmp(&x[i], &y[i]);
        match c {
            VersionOrder::Less => {
                proof {
                    lemma_ident_asym(xv[i as int], yv[i as int]);
                    lemma_ident_irrefl(xv[i as int]);
                }
                return VersionOrder::Less;
            },
            VersionOrder::Greater => {
                proof {
                    lemma_ident_asym(yv[i as int], xv[i as int]);
                    lemma_ident_irrefl(xv[i as int]);
                }
                return VersionOrder::Greater;
            },
            VersionOrder::Equal => {
                proof {
                    lemma_ident_irrefl(xv[i as int]);
                    assert(xv.skip(i as int).drop_first() =~= xv.skip(i as int + 1));
                    assert(yv.skip(i as int).drop_first() =~= yv.skip(i as int + 1));
                }
                i = i + 1;
            },
        }
    }
    if x.len() == y.len() {
        proof {
            assert(xv =~= yv);
            lemma_pre_irrefl(xv);
        }
        VersionOrder::Equal
    } else if x.len() < y.len() {
        proof {
            assert(xv.skip(i as int).len() == 0);
            assert(yv.skip(i as int).len() > 0);
            assert(xv.len() != yv.len());
        }
        VersionOrder::Less
    } else {
        proof {
            assert(yv.skip(i as int).len() == 0);
            assert(xv.skip(i as int).len() > 0);
        }
        VersionOrder::Greater
    }
}

/// Compares two well-formed versions by semantic-version precedence.
pub fn compare(a: &SemanticVersion, b: &SemanticVersion) -> (r: VersionOrder)
    requires
        wf_version(a@),
        wf_version(b@),
    ensures
        (r == VersionOrder::Less) <==> version_lt(a@, b@),
        (r == VersionOrder::Greater) <==> version_lt(b@, a@),
        (r == VersionOrder::Equal) <==> version_eq(a@, b@),
{
    if a.major != b.major {
        if a.major < b.major {
            VersionOrder::Less
        } else {
            VersionOrder::Greater
        }
    } else if a.minor != b.minor {
        if a.minor < b.minor {
            VersionOrder::Less
        } else {
            VersionOrder::Greater
        }
    } else if a.patch != b.patch {
        if a.patch < b.patch {
            VersionOrder::Less
        } else {
            VersionOrder::Greater
        }
    } else if a.pre.len() == 0 && b.pre.len() == 0 {
        proof {
            assert(a@.pre =~= b@.pre);
        }
        VersionOrder::Equal
    } else if a.pre.len() == 0 {
        VersionOrder::Greater
    } else if b.pre.len() == 0 {
        VersionOrder::Less
    } else {
        proof {
            assert(a.pre.deep_view() == a@.pre);
            assert(b.pre.deep_view() == b@.pre);
            assert(forall|i: int| 0 <= i < a@.pre.len() ==> is_pre_ident(#[trigger] a@.pre[i]));
            assert(forall|i: int| 0 <= i < b@.pre.len() ==> is_pre_ident(#[trigger] b@.pre[i]));
        }
        pre_cmp(&a.pre, &b.pre)
    }
}

} // verus!
