//! Semantic version numbers: the registry's version identifiers and the
//! ordering keys of stable toolchains.
//!
//! Recognising the SemVer grammar is delegated to the `semver` crate
//! behind one trusted wrapper; everything read out of a parsed version
//! (fields, precedence order, canonical rendering) is plain data that
//! this module holds and reasons about itself.
use crate::datetime::all_digits;
use crate::datetime::is_digit;
use crate::strutil;
use vstd::prelude::*;
use vstd::string::StrSliceExecFns;
use vstd::string::StringExecFns;

verus! {

/// A parsed semantic version. `pre` and `build` hold the dot-separated
/// identifier lists verbatim, empty when absent.
#[derive(Debug)]
pub struct SemVer {
    pub major: u64,
    pub minor: u64,
    pub patch: u64,
    pub pre: String,
    pub build: String,
}

/// Mathematical image of a [`SemVer`].
#[verifier::ext_equal]
pub ghost struct SemVerV {
    pub major: u64,
    pub minor: u64,
    pub patch: u64,
    pub pre: Seq<char>,
    pub build: Seq<char>,
}

impl View for SemVer {
    type V = SemVerV;

    open spec fn view(&self) -> SemVerV {
        SemVerV {
            major: self.major,
            minor: self.minor,
            patch: self.patch,
            pre: self.pre@,
            build: self.build@,
        }
    }
}

impl Clone for SemVer {
    fn clone(&self) -> (r: Self)
        ensures
            r@ == self@,
    {
        SemVer {
            major: self.major,
            minor: self.minor,
            patch: self.patch,
            pre: self.pre.clone(),
            build: self.build.clone(),
        }
    }
}

/// What `semver::Version::parse` accepts and returns on a given character
/// sequence: `None` where the grammar rejects the input.
pub uninterp spec fn semver_parse(s: Seq<char>) -> Option<SemVerV>;

/// Relies on `semver::Version::parse`: it recognises exactly the SemVer
/// 2.0 grammar, and its result depends on the input characters alone.
#[verifier::external_body]
pub(crate) fn parse_semver(s: &str) -> (r: Option<SemVer>)
    ensures
        r is Some <==> semver_parse(s@) is Some,
        r matches Some(v) ==> Some(v@) == semver_parse(s@),
{
    match semver::Version::parse(s) {
        Ok(v) => Some(
            SemVer {
                major: v.major,
                minor: v.minor,
                patch: v.patch,
                pre: v.pre.as_str().to_string(),
                build: v.build.as_str().to_string(),
            },
        ),
        Err(_) => None,
    }
}

/// The zero version\'s mathematical image.
pub open spec fn zero_version() -> SemVerV {
    SemVerV { major: 0, minor: 0, patch: 0, pre: Seq::empty(), build: Seq::empty() }
}

/// Canonical rendering: `major.minor.patch`, then `-pre` when a
/// pre-release is present, then `+build` when build metadata is present.
pub open spec fn semver_repr(v: SemVerV) -> Seq<char> {
    strutil::dec_digits(v.major as int) + seq!['.'] + strutil::dec_digits(v.minor as int)
        + seq!['.'] + strutil::dec_digits(v.patch as int) + (if v.pre.len() > 0 {
        seq!['-'] + v.pre
    } else {
        Seq::empty()
    }) + (if v.build.len() > 0 {
        seq!['+'] + v.build
    } else {
        Seq::empty()
    })
}

impl SemVer {
    /// Whether this version is a plain release, without a pre-release
    /// component.
    pub open spec fn spec_is_release(self) -> bool {
        self@.pre.len() == 0
    }

    /// Whether the pre-release component is absent.
    pub fn is_release(&self) -> (r: bool)
        ensures
            r == self.spec_is_release(),
    {
        self.pre.as_str().is_empty()
    }

    /// Render the version in its canonical form.
    pub fn to_version_string(&self) -> (s: String)
        ensures
            s@ == semver_repr(self@),
    {
        let mut s = strutil::u64_to_string(self.major);
        s.append(".");
        s.append(strutil::u64_to_string(self.minor).as_str());
        s.append(".");
        s.append(strutil::u64_to_string(self.patch).as_str());
        if !self.pre.as_str().is_empty() {
            s.append("-");
            s.append(self.pre.as_str());
        }
        if !self.build.as_str().is_empty() {
            s.append("+");
            s.append(self.build.as_str());
        }
        proof {
            reveal_strlit(".");
            reveal_strlit("-");
            reveal_strlit("+");
            assert(s@ =~= semver_repr(self@));
        }
        s
    }

    /// The zero version `0.0.0`, the default when a package has no
    /// versions at all.
    pub fn zero() -> (v: SemVer)
        ensures
            v@ == zero_version(),
    {
        let v = SemVer { major: 0, minor: 0, patch: 0, pre: String::new(), build: String::new() };
        assert(v@ == zero_version());
        v
    }
}

/// Identifiers of a dot-separated list, read left to right with `cur`
/// the identifier under construction.
pub open spec fn idents_acc(s: Seq<char>, cur: Seq<char>) -> Seq<Seq<char>>
    decreases s.len(),
{
    if s.len() == 0 {
        if cur.len() == 0 {
            Seq::empty()
        } else {
            seq![cur]
        }
    } else if s[0] == '.' {
        if cur.len() == 0 {
            idents_acc(s.drop_first(), Seq::empty())
        } else {
            seq![cur] + idents_acc(s.drop_first(), Seq::empty())
        }
    } else {
        idents_acc(s.drop_first(), cur.push(s[0]))
    }
}

/// The identifiers of a pre-release or build component.
pub open spec fn idents_of(s: Seq<char>) -> Seq<Seq<char>> {
    idents_acc(s, Seq::empty())
}

/// Split a pre-release or build component at the dots.
fn split_dots(s: &str) -> (ids: Vec<String>)
    ensures
        ids@.map_values(|t: String| t@) == idents_of(s@),
{
    let n = s.unicode_len();
    let mut ids: Vec<String> = Vec::new();
    let mut i: usize = 0;
    let mut start: usize = 0;
    proof {
        assert(s@.skip(0) =~= s@);
        assert(s@.subrange(0, 0) =~= Seq::<char>::empty());
        assert(ids@.map_values(|t: String| t@) + idents_acc(s@, Seq::empty()) =~= idents_of(s@));
    }
    while i < n
        invariant
            start <= i <= n,
            n == s@.len(),
            idents_of(s@) == ids@.map_values(|t: String| t@) + idents_acc(
                s@.skip(i as int),
                s@.subrange(start as int, i as int),
            ),
        decreases n - i,
    {
        proof {
            assert(s@.skip(i as int)[0] == s@[i as int]);
            assert(s@.skip(i as int).drop_first() =~= s@.skip(i + 1));
        }
        if s.get_char(i) == '.' {
            if i > start {
                let tok = s.substring_char(start, i).to_owned();
                proof {
                    assert(idents_acc(s@.skip(i as int), s@.subrange(start as int, i as int))
                        =~= seq![s@.subrange(start as int, i as int)] + idents_acc(
                        s@.skip(i + 1),
                        Seq::empty(),
                    ));
                }
                ids.push(tok);
                proof {
                    assert(ids@.map_values(|t: String| t@) =~= ids@.map_values(
                        |t: String| t@,
                    ).subrange(0, ids@.len() - 1) + seq![s@.subrange(start as int, i as int)]);
                }
            } else {
                assert(s@.subrange(start as int, i as int) =~= Seq::<char>::empty());
            }
            i = i + 1;
            start = i;
            assert(s@.subrange(start as int, i as int) =~= Seq::<char>::empty());
        } else {
            proof {
                assert(s@.subrange(start as int, i as int).push(s@[i as int]) =~= s@.subrange(
                    start as int,
                    i + 1,
                ));
            }
            i = i + 1;
        }
    }
    proof {
        assert(s@.skip(n as int) =~= Seq::<char>::empty());
    }
    if i > start {
        let tok = s.substring_char(start, i).to_owned();
        ids.push(tok);
        proof {
            assert(ids@.map_values(|t: String| t@) =~= ids@.map_values(|t: String| t@).subrange(
                0,
                ids@.len() - 1,
            ) + seq![s@.subrange(start as int, i as int)]);
            assert(ids@.map_values(|t: String| t@) =~= idents_of(s@));
        }
    } else {
        proof {
            assert(s@.subrange(start as int, i as int) =~= Seq::<char>::empty());
            assert(ids@.map_values(|t: String| t@) =~= idents_of(s@));
        }
    }
    ids
}

/// Strict lexicographic order on character sequences, by code point.
pub open spec fn lex_lt(a: Seq<char>, b: Seq<char>) -> bool
    decreases a.len(),
{
    if b.len() == 0 {
        false
    } else if a.len() == 0 {
        true
    } else if a[0] != b[0] {
        (a[0] as int) < (b[0] as int)
    } else {
        lex_lt(a.drop_first(), b.drop_first())
    }
}

pub fn lex_lt_exec(a: &str, b: &str) -> (r: bool)
    ensures
        r == lex_lt(a@, b@),
{
    let an = a.unicode_len();
    let bn = b.unicode_len();
    let mut i: usize = 0;
    proof {
        assert(a@.skip(0) =~= a@);
        assert(b@.skip(0) =~= b@);
    }
    while i < an && i < bn
        invariant
            i <= an,
            i <= bn,
            an == a@.len(),
            bn == b@.len(),
            lex_lt(a@, b@) == lex_lt(a@.skip(i as int), b@.skip(i as int)),
        decreases an - i,
    {
        proof {
            assert(a@.skip(i as int)[0] == a@[i as int]);
            assert(b@.skip(i as int)[0] == b@[i as int]);
            assert(a@.skip(i as int).drop_first() =~= a@.skip(i + 1));
            assert(b@.skip(i as int).drop_first() =~= b@.skip(i + 1));
        }
        let ca = a.get_char(i);
        let cb = b.get_char(i);
        if ca != cb {
            return (ca as u32) < (cb as u32);
        }
        i = i + 1;
    }
    proof {
        if i >= bn {
            assert(b@.skip(i as int).len() == 0);
        } else {
            assert(a@.skip(i as int).len() == 0);
            assert(b@.skip(i as int).len() > 0);
        }
    }
    i >= an && i < bn
}

/// SemVer order on a single identifier: purely numeric identifiers come
/// first and compare numerically (equal-length identifiers have no
/// leading zeros under the grammar, so length then code points agrees
/// with numeric value); all others compare in code point order.
pub open spec fn ident_lt(a: Seq<char>, b: Seq<char>) -> bool {
    if all_digits(a) && all_digits(b) {
        a.len() < b.len() || (a.len() == b.len() && lex_lt(a, b))
    } else if all_digits(a) {
        true
    } else if all_digits(b) {
        false
    } else {
        lex_lt(a, b)
    }
}

fn all_digits_exec(s: &str) -> (r: bool)
    ensures
        r == all_digits(s@),
{
    let n = s.unicode_len();
    let mut i: usize = 0;
    while i < n
        invariant
            i <= n,
            n == s@.len(),
            forall|j: int| 0 <= j < i ==> is_digit(#[trigger] s@[j]),
        decreases n - i,
    {
        let c = s.get_char(i);
        if !('0' <= c && c <= '9') {
            return false;
        }
        i = i + 1;
    }
    true
}

fn ident_lt_exec(a: &str, b: &str) -> (r: bool)
    ensures
        r == ident_lt(a@, b@),
{
    let na = all_digits_exec(a);
    let nb = all_digits_exec(b);
    if na && nb {
        let al = a.unicode_len();
        let bl = b.unicode_len();
        al < bl || (al == bl && lex_lt_exec(a, b))
    } else if na {
        true
    } else if nb {
        false
    } else {
        lex_lt_exec(a, b)
    }
}

/// SemVer order on identifier lists: identifier by identifier, a missing
/// identifier comparing below any present one.
pub open spec fn idents_lt(a: Seq<Seq<char>>, b: Seq<Seq<char>>) -> bool
    decreases a.len(),
{
    if a.len() == 0 {
        b.len() > 0
    } else if b.len() == 0 {
        false
    } else if a[0] == b[0] {
        idents_lt(a.drop_first(), b.drop_first())
    } else {
        ident_lt(a[0], b[0])
    }
}

fn idents_lt_exec(a: &Vec<String>, b: &Vec<String>) -> (r: bool)
    ensures
        r == idents_lt(a@.map_values(|t: String| t@), b@.map_values(|t: String| t@)),
{
    let ghost av = a@.map_values(|t: String| t@);
    let ghost bv = b@.map_values(|t: String| t@);
    let an = a.len();
    let bn = b.len();
    let mut i: usize = 0;
    proof {
        assert(av.skip(0) =~= av);
        assert(bv.skip(0) =~= bv);
    }
    while i < an && i < bn
        invariant
            i <= an,
            i <= bn,
            an == av.len(),
            bn == bv.len(),
            av == a@.map_values(|t: String| t@),
            bv == b@.map_values(|t: String| t@),
            idents_lt(av, bv) == idents_lt(av.skip(i as int), bv.skip(i as int)),
        decreases an - i,
    {
        proof {
            assert(av.skip(i as int)[0] == av[i as int]);
            assert(bv.skip(i as int)[0] == bv[i as int]);
            assert(av.skip(i as int).drop_first() =~= av.skip(i + 1));
            assert(bv.skip(i as int).drop_first() =~= bv.skip(i + 1));
        }
        if !strutil::str_eq(a[i].as_str(), b[i].as_str()) {
            return ident_lt_exec(a[i].as_str(), b[i].as_str());
        }
        i = i + 1;
    }
    proof {
        if i >= an {
            assert(av.skip(i as int).len() == 0);
        } else {
            assert(bv.skip(i as int).len() == 0);
            assert(av.skip(i as int).len() > 0);
        }
    }
    i >= an && i < bn
}

/// Pre-release order: a version without a pre-release outranks every
/// pre-release of the same number.
pub open spec fn pre_lt(a: Seq<char>, b: Seq<char>) -> bool {
    if a.len() == 0 {
        false
    } else if b.len() == 0 {
        true
    } else {
        idents_lt(idents_of(a), idents_of(b))
    }
}

/// SemVer precedence: numeric fields in order, then the pre-release
/// rules; build metadata does not participate.
pub open spec fn precedence_lt(a: SemVerV, b: SemVerV) -> bool {
    a.major < b.major || (a.major == b.major && (a.minor < b.minor || (a.minor == b.minor && (
    a.patch < b.patch || (a.patch == b.patch && pre_lt(a.pre, b.pre))))))
}

impl SemVer {
    /// Strict SemVer precedence comparison.
    pub fn lt(&self, other: &SemVer) -> (r: bool)
        ensures
            r == precedence_lt(self@, other@),
    {
        if self.major != other.major {
            return self.major < other.major;
        }
        if self.minor != other.minor {
            return self.minor < other.minor;
        }
        if self.patch != other.patch {
            return self.patch < other.patch;
        }
        if self.pre.as_str().is_empty() {
            return false;
        }
        if other.pre.as_str().is_empty() {
            return true;
        }
        let a = split_dots(self.pre.as_str());
        let b = split_dots(other.pre.as_str());
        idents_lt_exec(&a, &b)
    }
}

/// The highest of a list of versions by precedence, `0.0.0` when the
/// list is empty.
pub fn max_version(versions: &Vec<SemVer>) -> (m: SemVer)
    ensures
        versions@.len() == 0 ==> m@ == zero_version(),
        versions@.len() > 0 ==> exists|i: int| 0 <= i < versions@.len() && m@ == versions@[i]@,
        forall|i: int| 0 <= i < versions@.len() ==> !precedence_lt(m@, #[trigger] versions@[i]@),
{
    if versions.len() == 0 {
        return SemVer::zero();
    }
    let mut m = versions[0].clone();
    let mut i: usize = 1;
    proof {
        lemma_precedence_irreflexive(m@);
    }
    while i < versions.len()
        invariant
            1 <= i <= versions@.len(),
            exists|k: int| 0 <= k < i && m@ == versions@[k]@,
            forall|k: int| 0 <= k < i ==> !precedence_lt(m@, #[trigger] versions@[k]@),
        decreases versions@.len() - i,
    {
        if m.lt(&versions[i]) {
            let ghost prev = m@;
            m = versions[i].clone();
            proof {
                lemma_precedence_irreflexive(m@);
                assert forall|k: int| 0 <= k < i implies !precedence_lt(
                    m@,
                    #[trigger] versions@[k]@,
                ) by {
                    if precedence_lt(m@, versions@[k]@) {
                        lemma_precedence_trans(prev, m@, versions@[k]@);
                    }
                }
            }
        }
        i = i + 1;
    }
    m
}

/// Code point order is asymmetric, transitive and total.
pub proof fn lemma_lex_lt_order(a: Seq<char>, b: Seq<char>)
    ensures
        lex_lt(a, b) ==> !lex_lt(b, a),
        !lex_lt(a, b) && !lex_lt(b, a) ==> a == b,
    decreases a.len(),
{
    if a.len() > 0 && b.len() > 0 && a[0] == b[0] {
        lemma_lex_lt_order(a.drop_first(), b.drop_first());
        if !lex_lt(a, b) && !lex_lt(b, a) {
            assert(a.drop_first() == b.drop_first());
            assert forall|i: int| 0 <= i < a.len() implies a[i] == b[i] by {
                if i > 0 {
                    assert(a[i] == a.drop_first()[i - 1]);
                    assert(b[i] == b.drop_first()[i - 1]);
                }
            }
            assert(a =~= b);
        }
    } else {
        if !lex_lt(a, b) && !lex_lt(b, a) {
            assert(a =~= b);
        }
    }
}

pub proof fn lemma_lex_lt_trans(a: Seq<char>, b: Seq<char>, c: Seq<char>)
    requires
        lex_lt(a, b),
        lex_lt(b, c),
    ensures
        lex_lt(a, c),
    decreases a.len(),
{
    if a.len() > 0 && b.len() > 0 && c.len() > 0 && a[0] == b[0] && b[0] == c[0] {
        lemma_lex_lt_trans(a.drop_first(), b.drop_first(), c.drop_first());
    }
}

proof fn lemma_ident_lt_order(a: Seq<char>, b: Seq<char>)
    ensures
        ident_lt(a, b) ==> !ident_lt(b, a),
        !ident_lt(a, b) && !ident_lt(b, a) ==> a == b,
{
    lemma_lex_lt_order(a, b);
}

proof fn lemma_ident_lt_trans(a: Seq<char>, b: Seq<char>, c: Seq<char>)
    requires
        ident_lt(a, b),
        ident_lt(b, c),
    ensures
        ident_lt(a, c),
{
    if all_digits(a) && all_digits(b) && all_digits(c) {
        if a.len() == b.len() && b.len() == c.len() {
            lemma_lex_lt_trans(a, b, c);
        }
    } else if !all_digits(a) && !all_digits(b) && !all_digits(c) {
        lemma_lex_lt_trans(a, b, c);
    }
}

proof fn lemma_idents_lt_order(a: Seq<Seq<char>>, b: Seq<Seq<char>>)
    ensures
        idents_lt(a, b) ==> !idents_lt(b, a),
        !idents_lt(a, b) && !idents_lt(b, a) ==> a == b,
    decreases a.len(),
{
    if a.len() > 0 && b.len() > 0 {
        if a[0] == b[0] {
            lemma_idents_lt_order(a.drop_first(), b.drop_first());
            if !idents_lt(a, b) && !idents_lt(b, a) {
                assert(a.drop_first() == b.drop_first());
                assert forall|i: int| 0 <= i < a.len() implies a[i] == b[i] by {
                    if i > 0 {
                        assert(a[i] == a.drop_first()[i - 1]);
                        assert(b[i] == b.drop_first()[i - 1]);
                    }
                }
                assert(a =~= b);
            }
        } else {
            lemma_ident_lt_order(a[0], b[0]);
        }
    }
}

proof fn lemma_idents_lt_trans(a: Seq<Seq<char>>, b: Seq<Seq<char>>, c: Seq<Seq<char>>)
    requires
        idents_lt(a, b),
        idents_lt(b, c),
    ensures
        idents_lt(a, c),
    decreases a.len(),
{
    if a.len() == 0 {
        assert(b.len() > 0);
        assert(c.len() > 0);
    } else {
        assert(b.len() > 0 && c.len() > 0);
        if a[0] == b[0] && b[0] == c[0] {
            lemma_idents_lt_trans(a.drop_first(), b.drop_first(), c.drop_first());
        } else if a[0] == b[0] {
            assert(ident_lt(b[0], c[0]));
        } else if b[0] == c[0] {
            assert(ident_lt(a[0], b[0]));
        } else {
            lemma_ident_lt_trans(a[0], b[0], c[0]);
            lemma_ident_lt_order(a[0], c[0]);
            if a[0] == c[0] {
                lemma_ident_lt_order(a[0], b[0]);
            }
        }
    }
}

/// Precedence is asymmetric, and two versions that neither outranks
/// share their numeric fields and their pre-release identifier lists.
pub proof fn lemma_precedence_order(a: SemVerV, b: SemVerV)
    ensures
        precedence_lt(a, b) ==> !precedence_lt(b, a),
        !precedence_lt(a, b) && !precedence_lt(b, a) ==> a.major == b.major && a.minor == b.minor
            && a.patch == b.patch && (a.pre.len() == 0 <==> b.pre.len() == 0) && idents_of(a.pre)
            == idents_of(b.pre),
{
    if a.pre.len() > 0 && b.pre.len() > 0 {
        lemma_idents_lt_order(idents_of(a.pre), idents_of(b.pre));
    } else if a.pre.len() == 0 && b.pre.len() == 0 {
        assert(idents_of(a.pre) =~= idents_of(b.pre));
    }
}

/// Precedence is transitive.
pub proof fn lemma_precedence_trans(a: SemVerV, b: SemVerV, c: SemVerV)
    requires
        precedence_lt(a, b),
        precedence_lt(b, c),
    ensures
        precedence_lt(a, c),
{
    if a.major == c.major && a.minor == c.minor && a.patch == c.patch {
        if a.pre.len() > 0 && b.pre.len() > 0 && c.pre.len() > 0 {
            lemma_idents_lt_trans(idents_of(a.pre), idents_of(b.pre), idents_of(c.pre));
        }
    }
}


/// Precedence is irreflexive: no version is below itself.
pub proof fn lemma_precedence_irreflexive(a: SemVerV)
    ensures
        !precedence_lt(a, a),
{
    if a.pre.len() > 0 {
        lemma_idents_lt_irreflexive(idents_of(a.pre));
    }
}

proof fn lemma_idents_lt_irreflexive(a: Seq<Seq<char>>)
    ensures
        !idents_lt(a, a),
    decreases a.len(),
{
    if a.len() > 0 {
        lemma_idents_lt_irreflexive(a.drop_first());
    }
}


/// Total order on versions used for ordering-key lists: SemVer
/// precedence first, versions of equal precedence ordered by their
/// pre-release and build text in code point order.
pub open spec fn sv_lt(a: SemVerV, b: SemVerV) -> bool {
    precedence_lt(a, b) || (!precedence_lt(a, b) && !precedence_lt(b, a) && (lex_lt(a.pre, b.pre)
        || (a.pre == b.pre && lex_lt(a.build, b.build))))
}

impl SemVer {
    /// Whether two versions are the same in every component.
    pub fn eq_ver(&self, other: &SemVer) -> (r: bool)
        ensures
            r == (self@ == other@),
    {
        let r = self.major == other.major && self.minor == other.minor && self.patch == other.patch
            && strutil::str_eq(self.pre.as_str(), other.pre.as_str()) && strutil::str_eq(
            self.build.as_str(),
            other.build.as_str(),
        );
        proof {
            if r {
                assert(self@ =~= other@);
            }
        }
        r
    }

    /// Strict comparison in the total ordering-key order.
    pub fn lt_total(&self, other: &SemVer) -> (r: bool)
        ensures
            r == sv_lt(self@, other@),
    {
        if self.lt(other) {
            true
        } else if other.lt(self) {
            false
        } else if lex_lt_exec(self.pre.as_str(), other.pre.as_str()) {
            true
        } else if strutil::str_eq(self.pre.as_str(), other.pre.as_str()) {
            lex_lt_exec(self.build.as_str(), other.build.as_str())
        } else {
            false
        }
    }
}

/// The ordering-key order is asymmetric and total: distinct versions are
/// comparable.
pub proof fn lemma_sv_lt_order(a: SemVerV, b: SemVerV)
    ensures
        sv_lt(a, b) ==> !sv_lt(b, a),
        !sv_lt(a, b) && !sv_lt(b, a) ==> a == b,
{
    lemma_precedence_order(a, b);
    lemma_lex_lt_order(a.pre, b.pre);
    lemma_lex_lt_order(a.build, b.build);
    if !sv_lt(a, b) && !sv_lt(b, a) {
        assert(a =~= b);
    }
}

/// The ordering-key order is transitive.
pub proof fn lemma_sv_lt_trans(a: SemVerV, b: SemVerV, c: SemVerV)
    requires
        sv_lt(a, b),
        sv_lt(b, c),
    ensures
        sv_lt(a, c),
{
    lemma_precedence_order(a, b);
    lemma_precedence_order(b, c);
    lemma_precedence_order(a, c);
    if precedence_lt(a, b) && precedence_lt(b, c) {
        lemma_precedence_trans(a, b, c);
    } else if precedence_lt(a, b) {
        // b and c share precedence rank
        lemma_precedence_rank_right(a, b, c);
    } else if precedence_lt(b, c) {
        lemma_precedence_rank_left(a, b, c);
    } else {
        // all three share precedence rank; the text tiebreak decides
        if !precedence_lt(a, c) && !precedence_lt(c, a) {
            lemma_lex_lt_order(a.pre, b.pre);
            lemma_lex_lt_order(b.pre, c.pre);
            if lex_lt(a.pre, b.pre) && lex_lt(b.pre, c.pre) {
                lemma_lex_lt_trans(a.pre, b.pre, c.pre);
            } else if lex_lt(a.pre, b.pre) && b.pre == c.pre {
                assert(lex_lt(a.pre, c.pre));
            } else if a.pre == b.pre && lex_lt(b.pre, c.pre) {
                assert(lex_lt(a.pre, c.pre));
            } else {
                assert(a.pre == b.pre && b.pre == c.pre);
                lemma_lex_lt_trans(a.build, b.build, c.build);
            }
        } else {
            // impossible: equal ranks propagate
            lemma_precedence_rank_trans(a, b, c);
        }
    }
}

/// A version below `b` in precedence is below anything sharing `b`'s
/// precedence rank.
proof fn lemma_precedence_rank_right(a: SemVerV, b: SemVerV, c: SemVerV)
    requires
        precedence_lt(a, b),
        !precedence_lt(b, c),
        !precedence_lt(c, b),
    ensures
        precedence_lt(a, c),
{
    lemma_precedence_order(b, c);
    if a.major == c.major && a.minor == c.minor && a.patch == c.patch {
        if a.pre.len() > 0 && b.pre.len() > 0 && c.pre.len() > 0 {
            assert(idents_lt(idents_of(a.pre), idents_of(b.pre)));
            assert(idents_of(b.pre) == idents_of(c.pre));
        }
    }
}

/// Anything sharing `b`'s precedence rank is below what `b` is below.
proof fn lemma_precedence_rank_left(a: SemVerV, b: SemVerV, c: SemVerV)
    requires
        !precedence_lt(a, b),
        !precedence_lt(b, a),
        precedence_lt(b, c),
    ensures
        precedence_lt(a, c),
{
    lemma_precedence_order(a, b);
    if a.major == c.major && a.minor == c.minor && a.patch == c.patch {
        if a.pre.len() > 0 && b.pre.len() > 0 && c.pre.len() > 0 {
            assert(idents_lt(idents_of(b.pre), idents_of(c.pre)));
            assert(idents_of(a.pre) == idents_of(b.pre));
        }
    }
}

/// Sharing a precedence rank is transitive.
proof fn lemma_precedence_rank_trans(a: SemVerV, b: SemVerV, c: SemVerV)
    requires
        !precedence_lt(a, b),
        !precedence_lt(b, a),
        !precedence_lt(b, c),
        !precedence_lt(c, b),
    ensures
        !precedence_lt(a, c),
        !precedence_lt(c, a),
{
    lemma_precedence_order(a, b);
    lemma_precedence_order(b, c);
    if a.pre.len() > 0 && c.pre.len() > 0 {
        lemma_idents_lt_irreflexive(idents_of(a.pre));
        assert(idents_of(a.pre) == idents_of(c.pre));
    }
}

} // verus!

