//! The build-channel classifier and the per-version build matrix.
//!
//! A free-form toolchain descriptor such as `rustc 1.14.0 (e8a012324
//! 2016-12-16)` is classified into a channel with an ordering key;
//! recorded pass/fail results are kept one row per (descriptor, target)
//! pair and aggregated into a per-channel matrix with sorted key lists.
use crate::datetime::ymd_date;
use crate::datetime::ymd_wf;
use crate::datetime::Date;
use crate::datetime::DateTime;
use crate::datetime;
use crate::errors::CargoError;
use crate::semver_num::semver_parse;
use crate::semver_num::SemVer;
use crate::semver_num;
use crate::strutil::contains_seq;
use crate::strutil::tokens_of;
use crate::strutil;
use vstd::prelude::*;
use vstd::string::StrSliceExecFns;

verus! {

/// A classified toolchain: its channel together with the channel's
/// ordering key — the semantic version for stable, the day for beta and
/// nightly.
#[derive(Debug)]
pub enum ChannelVersion {
    Stable(SemVer),
    Beta(Date),
    Nightly(Date),
}

/// Whether a descriptor classifies successfully.
#[verifier::opaque]
pub open spec fn classify_ok(s: Seq<char>) -> bool {
    let toks = tokens_of(s);
    toks.len() == 4 && {
        let t1 = toks[1];
        let t3 = toks[3];
        if contains_seq(t1, "nightly"@) || contains_seq(t1, "beta"@) {
            ymd_wf(t3)
        } else {
            semver_parse(t1) matches Option::Some(v) && v.pre.len() == 0
        }
    }
}

/// Whether a descriptor names the nightly channel.
#[verifier::opaque]
pub open spec fn is_nightly_desc(s: Seq<char>) -> bool {
    classify_ok(s) && contains_seq(tokens_of(s)[1], "nightly"@)
}

/// Whether a descriptor names the beta channel.
#[verifier::opaque]
pub open spec fn is_beta_desc(s: Seq<char>) -> bool {
    classify_ok(s) && !contains_seq(tokens_of(s)[1], "nightly"@) && contains_seq(
        tokens_of(s)[1],
        "beta"@,
    )
}

/// Whether a descriptor names the stable channel.
#[verifier::opaque]
pub open spec fn is_stable_desc(s: Seq<char>) -> bool {
    classify_ok(s) && !contains_seq(tokens_of(s)[1], "nightly"@) && !contains_seq(
        tokens_of(s)[1],
        "beta"@,
    )
}

/// The day keying a nightly or beta descriptor.
#[verifier::opaque]
pub open spec fn desc_date(s: Seq<char>) -> Date {
    ymd_date(tokens_of(s)[3])
}

/// The version keying a stable descriptor.
#[verifier::opaque]
pub open spec fn desc_stable(s: Seq<char>) -> semver_num::SemVerV {
    semver_parse(tokens_of(s)[1])->0
}

/// Whether `cv` is the classification of descriptor `s`.
#[verifier::opaque]
pub open spec fn classified_as(s: Seq<char>, cv: ChannelVersion) -> bool {
    if is_nightly_desc(s) {
        cv matches ChannelVersion::Nightly(d) && d == desc_date(s)
    } else if is_beta_desc(s) {
        cv matches ChannelVersion::Beta(d) && d == desc_date(s)
    } else if is_stable_desc(s) {
        cv matches ChannelVersion::Stable(v) && v@ == desc_stable(s)
    } else {
        false
    }
}

/// Whether `e` is the error that classifying descriptor `s` reports.
#[verifier::opaque]
pub open spec fn classify_err(s: Seq<char>, e: CargoError) -> bool {
    let toks = tokens_of(s);
    if toks.len() != 4 {
        e matches CargoError::MalformedVersionDescriptor(d) && d@ == s
    } else {
        let t1 = toks[1];
        let t3 = toks[3];
        if contains_seq(t1, "nightly"@) || contains_seq(t1, "beta"@) {
            !ymd_wf(t3) && (e matches CargoError::InvalidDate(x) && x@ == t3)
        } else {
            match semver_parse(t1) {
                Option::None => e matches CargoError::InvalidSemver(x) && x@ == t1,
                Option::Some(v) => v.pre.len() > 0 && (e matches CargoError::UnrecognizedChannel(
                    d,
                ) && d@ == s),
            }
        }
    }
}

impl ChannelVersion {
    /// Classify a toolchain descriptor of the shape
    /// `rustc X.Y.Z[-pre] (SHA YYYY-MM-DD)`.
    ///
    /// The descriptor is split at spaces and parentheses with empty
    /// tokens discarded; exactly four tokens are required. A version
    /// token containing `nightly` or `beta` names that channel, keyed by
    /// the date token; otherwise the version token must be a semantic
    /// version without a pre-release component, naming stable.
    pub fn from_str(s: &str) -> (r: Result<ChannelVersion, CargoError>)
        ensures
            r is Ok <==> classify_ok(s@),
            r matches Ok(cv) ==> classified_as(s@, cv),
            r matches Err(e) ==> classify_err(s@, e),
            r matches Err(e) ==> (e is MalformedVersionDescriptor || e is UnrecognizedChannel || e
                is InvalidDate || e is InvalidSemver),
    {
        proof {
            reveal(classify_ok);
            reveal(is_nightly_desc);
            reveal(is_beta_desc);
            reveal(is_stable_desc);
            reveal(desc_date);
            reveal(desc_stable);
            reveal(classified_as);
            reveal(classify_err);
        }
        let pieces = strutil::split_tokens(s);
        if pieces.len() != 4 {
            return Err(CargoError::MalformedVersionDescriptor(s.to_owned()));
        }
        proof {
            assert(pieces@.map_values(|t: String| t@)[1] == pieces@[1]@);
            assert(pieces@.map_values(|t: String| t@)[3] == pieces@[3]@);
        }
        if strutil::str_contains(pieces[1].as_str(), "nightly") {
            match datetime::parse_ymd(pieces[3].as_str()) {
                Some(d) => Ok(ChannelVersion::Nightly(d)),
                None => Err(CargoError::InvalidDate(pieces[3].clone())),
            }
        } else if strutil::str_contains(pieces[1].as_str(), "beta") {
            match datetime::parse_ymd(pieces[3].as_str()) {
                Some(d) => Ok(ChannelVersion::Beta(d)),
                None => Err(CargoError::InvalidDate(pieces[3].clone())),
            }
        } else {
            match semver_num::parse_semver(pieces[1].as_str()) {
                Some(v) => {
                    if v.is_release() {
                        Ok(ChannelVersion::Stable(v))
                    } else {
                        Err(CargoError::UnrecognizedChannel(s.to_owned()))
                    }
                },
                None => Err(CargoError::InvalidSemver(pieces[1].clone())),
            }
        }
    }
}


/// One recorded build result: the raw toolchain descriptor, the target
/// triple, whether the build passed, and when the row was last written.
#[derive(Debug)]
pub struct BuildRecord {
    pub rust_version: String,
    pub target: String,
    pub passed: bool,
    pub updated_at: DateTime,
}

/// Mathematical image of a [`BuildRecord`].
#[verifier::ext_equal]
pub ghost struct BuildRecordV {
    pub rust_version: Seq<char>,
    pub target: Seq<char>,
    pub passed: bool,
    pub updated_at: DateTime,
}

impl View for BuildRecord {
    type V = BuildRecordV;

    open spec fn view(&self) -> BuildRecordV {
        BuildRecordV {
            rust_version: self.rust_version@,
            target: self.target@,
            passed: self.passed,
            updated_at: self.updated_at,
        }
    }
}

/// The images of a list of records.
pub open spec fn rec_views(rs: Seq<BuildRecord>) -> Seq<BuildRecordV> {
    rs.map_values(|r: BuildRecord| r@)
}

/// No two rows share a (descriptor, target) key.
pub open spec fn records_unique(rs: Seq<BuildRecordV>) -> bool {
    forall|i: int, j: int|
        0 <= i < j < rs.len() ==> !(#[trigger] rs[i].rust_version == #[trigger] rs[j].rust_version
            && rs[i].target == rs[j].target)
}

/// First index holding the (descriptor, target) key, or the length when
/// the key is absent.
pub open spec fn rec_idx(rs: Seq<BuildRecordV>, rv: Seq<char>, tgt: Seq<char>) -> int
    decreases rs.len(),
{
    if rs.len() == 0 {
        0
    } else if rs[0].rust_version == rv && rs[0].target == tgt {
        0
    } else {
        1 + rec_idx(rs.drop_first(), rv, tgt)
    }
}

/// `rec_idx` is the least matching index and is in bounds exactly when
/// the key occurs.
pub proof fn lemma_rec_idx(rs: Seq<BuildRecordV>, rv: Seq<char>, tgt: Seq<char>)
    ensures
        0 <= rec_idx(rs, rv, tgt) <= rs.len(),
        forall|j: int|
            0 <= j < rec_idx(rs, rv, tgt) ==> !(#[trigger] rs[j].rust_version == rv && rs[j].target
                == tgt),
        rec_idx(rs, rv, tgt) < rs.len() ==> rs[rec_idx(rs, rv, tgt)].rust_version == rv && rs[
            rec_idx(rs, rv, tgt)
        ].target == tgt,
    decreases rs.len(),
{
    if rs.len() > 0 && !(rs[0].rust_version == rv && rs[0].target == tgt) {
        let d = rs.drop_first();
        lemma_rec_idx(d, rv, tgt);
        assert(rec_idx(rs, rv, tgt) == 1 + rec_idx(d, rv, tgt));
        assert forall|j: int|
            0 <= j < rec_idx(rs, rv, tgt) implies !(#[trigger] rs[j].rust_version == rv
            && rs[j].target == tgt) by {
            if j > 0 {
                assert(rs[j] == d[j - 1]);
                assert(!(d[j - 1].rust_version == rv && d[j - 1].target == tgt));
            }
        }
        if rec_idx(rs, rv, tgt) < rs.len() {
            assert(rs[rec_idx(rs, rv, tgt)] == d[rec_idx(d, rv, tgt)]);
        }
    }
}

/// The submitted build result of one toolchain on one target, as the
/// publish endpoint carries it.
#[derive(Debug)]
pub struct VersionBuildInfo {
    pub rust_version: String,
    pub target: String,
    pub passed: bool,
}

impl VersionBuildInfo {
    /// Classify this submission's toolchain descriptor.
    pub fn channel_version(&self) -> (r: Result<ChannelVersion, CargoError>)
        ensures
            r is Ok <==> classify_ok(self.rust_version@),
            r matches Ok(cv) ==> classified_as(self.rust_version@, cv),
            r matches Err(e) ==> classify_err(self.rust_version@, e),
            r matches Err(e) ==> (e is MalformedVersionDescriptor || e is UnrecognizedChannel || e
                is InvalidDate || e is InvalidSemver),
    {
        ChannelVersion::from_str(self.rust_version.as_str())
    }
}

/// The records of `post` are those of `pre` with the (descriptor,
/// target) row upserted: an existing row keeps its place with only the
/// outcome and the timestamp replaced, a missing row is appended.
pub open spec fn upserted(
    pre: Seq<BuildRecord>,
    post: Seq<BuildRecord>,
    rv: Seq<char>,
    tgt: Seq<char>,
    passed: bool,
    at: DateTime,
) -> bool {
    let rsv = rec_views(pre);
    let i = rec_idx(rsv, rv, tgt);
    if i < rsv.len() {
        &&& post.len() == pre.len()
        &&& forall|j: int| 0 <= j < pre.len() && j != i ==> post[j] == #[trigger] pre[j]
        &&& post[i]@.rust_version == rv
        &&& post[i]@.target == tgt
        &&& post[i]@.passed == passed
        &&& post[i]@.updated_at == at
    } else {
        &&& post.len() == pre.len() + 1
        &&& forall|j: int| 0 <= j < pre.len() ==> post[j] == #[trigger] pre[j]
        &&& post.last()@.rust_version == rv
        &&& post.last()@.target == tgt
        &&& post.last()@.passed == passed
        &&& post.last()@.updated_at == at
    }
}

/// Record a build result: verify that the descriptor classifies before
/// any write, then upsert the (descriptor, target) row, touching only
/// `passed` and the timestamp of an existing row.
pub fn store_build_info(records: &mut Vec<BuildRecord>, info: &VersionBuildInfo, now: DateTime) -> (r:
    Result<(), CargoError>)
    requires
        records_unique(rec_views(old(records)@)),
    ensures
        records_unique(rec_views(final(records)@)),
        r is Ok <==> classify_ok(info.rust_version@),
        r matches Err(e) ==> classify_err(info.rust_version@, e) && final(records)@ == old(
            records,
        )@,
        r is Ok ==> upserted(
            old(records)@,
            final(records)@,
            info.rust_version@,
            info.target@,
            info.passed,
            now,
        ),
{
    match info.channel_version() {
        Err(e) => Err(e),
        Ok(_) => {
            proof {
                lemma_rec_idx(rec_views(records@), info.rust_version@, info.target@);
            }
            let ghost rsv = rec_views(records@);
            let ghost target_i = rec_idx(rsv, info.rust_version@, info.target@);
            let mut i: usize = 0;
            let n = records.len();
            while i < n
                invariant
                    0 <= i <= n,
                    n == records@.len(),
                    records@ == old(records)@,
                    classify_ok(info.rust_version@),
                    records_unique(rsv),
                    rsv == rec_views(records@),
                    target_i == rec_idx(rsv, info.rust_version@, info.target@),
                    0 <= target_i <= rsv.len(),
                    forall|j: int|
                        0 <= j < target_i ==> !(#[trigger] rsv[j].rust_version
                            == info.rust_version@ && rsv[j].target == info.target@),
                    target_i < rsv.len() ==> rsv[target_i].rust_version == info.rust_version@
                        && rsv[target_i].target == info.target@,
                    i <= target_i,
                decreases n - i,
            {
                proof {
                    assert(rsv[i as int] == records@[i as int]@);
                }
                if strutil::str_eq(records[i].rust_version.as_str(), info.rust_version.as_str())
                    && strutil::str_eq(records[i].target.as_str(), info.target.as_str()) {
                    let rec = BuildRecord {
                        rust_version: info.rust_version.clone(),
                        target: info.target.clone(),
                        passed: info.passed,
                        updated_at: now,
                    };
                    records.set(i, rec);
                    proof {
                        let nv = rec_views(records@);
                        assert(forall|j: int|
                            0 <= j < records@.len() ==> nv[j] == #[trigger] records@[j]@);
                        assert(forall|j: int|
                            0 <= j < records@.len() && j != i ==> nv[j] == #[trigger] rsv[j]);
                        assert(nv[i as int].rust_version == rsv[i as int].rust_version);
                        assert(nv[i as int].target == rsv[i as int].target);
                        assert forall|a: int, b: int|
                            0 <= a < b < nv.len() implies !(#[trigger] nv[a].rust_version
                            == #[trigger] nv[b].rust_version && nv[a].target == nv[b].target) by {
                            assert(nv[a].rust_version == rsv[a].rust_version && nv[a].target
                                == rsv[a].target);
                            assert(nv[b].rust_version == rsv[b].rust_version && nv[b].target
                                == rsv[b].target);
                        }
                        assert(records_unique(nv));
                    }
                    return Ok(());
                }
                i = i + 1;
            }
            let rec = BuildRecord {
                rust_version: info.rust_version.clone(),
                target: info.target.clone(),
                passed: info.passed,
                updated_at: now,
            };
            records.push(rec);
            proof {
                let nv = rec_views(records@);
                assert(forall|j: int|
                    0 <= j < records@.len() ==> nv[j] == #[trigger] records@[j]@);
                assert(forall|j: int| 0 <= j < rsv.len() ==> nv[j] == #[trigger] rsv[j]);
                assert(nv.last() == records@.last()@);
                assert(nv.last().rust_version == info.rust_version@);
                assert(nv.last().target == info.target@);
                assert forall|a: int, b: int|
                    0 <= a < b < nv.len() implies !(#[trigger] nv[a].rust_version
                    == #[trigger] nv[b].rust_version && nv[a].target == nv[b].target) by {
                    if b < rsv.len() {
                        assert(nv[a] == rsv[a] && nv[b] == rsv[b]);
                    } else {
                        assert(b == rsv.len());
                        assert(nv[a] == rsv[a]);
                        assert(!(rsv[a].rust_version == info.rust_version@ && rsv[a].target
                            == info.target@));
                    }
                }
                assert(records_unique(nv));
            }
            Ok(())
        },
    }
}


/// One cell of the build matrix: a target triple and whether the build
/// passed there.
#[derive(Debug)]
pub struct TargetResult {
    pub target: String,
    pub passed: bool,
}

/// No two cells name the same target.
pub open spec fn targets_unique(rs: Seq<TargetResult>) -> bool {
    forall|i: int, j: int|
        0 <= i < j < rs.len() ==> #[trigger] rs[i].target@ != #[trigger] rs[j].target@
}

/// First cell index holding `tgt`, or the length when absent.
pub open spec fn res_idx(rs: Seq<TargetResult>, tgt: Seq<char>) -> int
    decreases rs.len(),
{
    if rs.len() == 0 {
        0
    } else if rs[0].target@ == tgt {
        0
    } else {
        1 + res_idx(rs.drop_first(), tgt)
    }
}

proof fn lemma_res_idx(rs: Seq<TargetResult>, tgt: Seq<char>)
    ensures
        0 <= res_idx(rs, tgt) <= rs.len(),
        forall|j: int| 0 <= j < res_idx(rs, tgt) ==> #[trigger] rs[j].target@ != tgt,
        res_idx(rs, tgt) < rs.len() ==> rs[res_idx(rs, tgt)].target@ == tgt,
    decreases rs.len(),
{
    if rs.len() > 0 && rs[0].target@ != tgt {
        let d = rs.drop_first();
        lemma_res_idx(d, tgt);
        assert(res_idx(rs, tgt) == 1 + res_idx(d, tgt));
        assert forall|j: int|
            0 <= j < res_idx(rs, tgt) implies #[trigger] rs[j].target@ != tgt by {
            if j > 0 {
                assert(rs[j] == d[j - 1]);
                assert(d[j - 1].target@ != tgt);
            }
        }
        if res_idx(rs, tgt) < rs.len() {
            assert(rs[res_idx(rs, tgt)] == d[res_idx(d, tgt)]);
        }
    }
}

/// Update the cell of `target`, or append one.
fn upsert_result(results: &mut Vec<TargetResult>, target: &str, passed: bool)
    ensures
        ({
            let i = res_idx(old(results)@, target@);
            if i < old(results)@.len() {
                &&& final(results)@.len() == old(results)@.len()
                &&& forall|j: int|
                    0 <= j < old(results)@.len() && j != i ==> final(results)@[j] == old(
                        results,
                    )@[j]
                &&& final(results)@[i].target@ == target@
                &&& final(results)@[i].passed == passed
            } else {
                &&& final(results)@.len() == old(results)@.len() + 1
                &&& forall|j: int|
                    0 <= j < old(results)@.len() ==> final(results)@[j] == old(results)@[j]
                &&& final(results)@.last().target@ == target@
                &&& final(results)@.last().passed == passed
            }
        }),
        targets_unique(old(results)@) ==> targets_unique(final(results)@),
{
    proof {
        lemma_res_idx(results@, target@);
    }
    let ghost orig = results@;
    let ghost target_i = res_idx(orig, target@);
    let n = results.len();
    let mut i: usize = 0;
    while i < n
        invariant
            0 <= i <= n,
            n == results@.len(),
            results@ == orig,
            orig == old(results)@,
            target_i == res_idx(orig, target@),
            0 <= target_i <= n,
            forall|j: int| 0 <= j < target_i ==> #[trigger] orig[j].target@ != target@,
            target_i < n ==> orig[target_i].target@ == target@,
            i <= target_i,
        decreases n - i,
    {
        if strutil::str_eq(results[i].target.as_str(), target) {
            results.set(i, TargetResult { target: target.to_owned(), passed });
            proof {
                if targets_unique(orig) {
                    assert forall|a: int, b: int|
                        0 <= a < b < results@.len() implies #[trigger] results@[a].target@
                        != #[trigger] results@[b].target@ by {
                        assert(results@[a].target@ == orig[a].target@);
                        assert(results@[b].target@ == orig[b].target@);
                    }
                }
            }
            return ;
        }
        i = i + 1;
    }
    results.push(TargetResult { target: target.to_owned(), passed });
    proof {
        if targets_unique(orig) {
            assert forall|a: int, b: int|
                0 <= a < b < results@.len() implies #[trigger] results@[a].target@
                != #[trigger] results@[b].target@ by {
                if b < orig.len() {
                    assert(results@[a] == orig[a] && results@[b] == orig[b]);
                    assert(orig[a].target@ != orig[b].target@);
                } else {
                    assert(b == orig.len());
                    assert(results@[a] == orig[a]);
                    assert(results@[b].target@ == target@);
                    assert(orig[a].target@ != target@);
                }
            }
        }
    }
}

/// Check that every recorded descriptor still classifies, reporting the
/// first classification error.
pub fn classify_all(records: &Vec<BuildRecord>) -> (r: Result<(), CargoError>)
    ensures
        r is Ok <==> (forall|ri: int|
            0 <= ri < records@.len() ==> classify_ok(#[trigger] records@[ri]@.rust_version)),
        r matches Err(e) ==> exists|ri: int|
            0 <= ri < records@.len() && !classify_ok(#[trigger] records@[ri]@.rust_version) && (
            forall|j: int| 0 <= j < ri ==> classify_ok(#[trigger] records@[j]@.rust_version))
                && classify_err(records@[ri]@.rust_version, e),
{
    let n = records.len();
    let mut i: usize = 0;
    while i < n
        invariant
            0 <= i <= n,
            n == records@.len(),
            forall|j: int| 0 <= j < i ==> classify_ok(#[trigger] records@[j]@.rust_version),
        decreases n - i,
    {
        match ChannelVersion::from_str(records[i].rust_version.as_str()) {
            Ok(_) => {},
            Err(e) => {
                proof {
                    assert(!classify_ok(records@[i as int]@.rust_version));
                }
                return Err(e);
            },
        }
        i = i + 1;
    }
    Ok(())
}


/// Whether record `r` is a stable build of version `v` on target `tgt`.
pub open spec fn stable_rec(r: BuildRecordV, v: semver_num::SemVerV, tgt: Seq<char>) -> bool {
    is_stable_desc(r.rust_version) && desc_stable(r.rust_version) == v && r.target == tgt
}

/// Whether record `r` is a nightly (or beta) build of day `d` on target
/// `tgt`.
pub open spec fn date_rec(r: BuildRecordV, nightly: bool, d: Date, tgt: Seq<char>) -> bool {
    &&& if nightly {
        is_nightly_desc(r.rust_version)
    } else {
        is_beta_desc(r.rust_version)
    }
    &&& desc_date(r.rust_version) == d
    &&& r.target == tgt
}

/// Insert a version into a strictly ascending key list, keeping it
/// sorted; a present key is left alone.
fn insert_stable_key(keys: &mut Vec<SemVer>, v: &SemVer)
    requires
        forall|i: int, j: int|
            0 <= i < j < old(keys)@.len() ==> semver_num::sv_lt(
                #[trigger] old(keys)@[i]@,
                #[trigger] old(keys)@[j]@,
            ),
    ensures
        forall|i: int, j: int|
            0 <= i < j < final(keys)@.len() ==> semver_num::sv_lt(
                #[trigger] final(keys)@[i]@,
                #[trigger] final(keys)@[j]@,
            ),
        (final(keys)@ == old(keys)@ && exists|q: int|
            0 <= q < old(keys)@.len() && (#[trigger] old(keys)@[q])@ == v@) || (exists|p: int|
            {
                &&& 0 <= p <= old(keys)@.len()
                &&& final(keys)@.len() == old(keys)@.len() + 1
                &&& (#[trigger] final(keys)@[p])@ == v@
                &&& forall|j: int| 0 <= j < p ==> final(keys)@[j] == #[trigger] old(keys)@[j]
                &&& forall|j: int|
                    p <= j < old(keys)@.len() ==> final(keys)@[j + 1] == #[trigger] old(keys)@[j]
            }),
{
    let n = keys.len();
    let mut p: usize = 0;
    while p < n && keys[p].lt_total(v)
        invariant
            0 <= p <= n,
            n == keys@.len(),
            keys@ == old(keys)@,
            forall|j: int| 0 <= j < p ==> semver_num::sv_lt((#[trigger] keys@[j])@, v@),
        decreases n - p,
    {
        p = p + 1;
    }
    if p < n && keys[p].eq_ver(v) {
        proof {
            assert((old(keys)@[p as int])@ == v@);
        }
        return ;
    }
    proof {
        if p < n {
            semver_num::lemma_sv_lt_order(keys@[p as int]@, v@);
        }
    }
    keys.insert(p, v.clone());
    proof {
        let oldk = old(keys)@;
        let newk = keys@;
        assert(newk[p as int]@ == v@);
        assert(forall|j: int| 0 <= j < p ==> newk[j] == #[trigger] oldk[j]);
        assert(forall|j: int| p <= j < oldk.len() ==> newk[j + 1] == #[trigger] oldk[j]);
        assert forall|i: int, j: int|
            0 <= i < j < newk.len() implies semver_num::sv_lt(
            (#[trigger] newk[i])@,
            (#[trigger] newk[j])@,
        ) by {
            if i < p && j < p {
            } else if i < p && j == p {
                assert(semver_num::sv_lt(oldk[i]@, v@));
            } else if i < p && j > p {
                assert(newk[j] == oldk[j - 1]);
                assert(semver_num::sv_lt(oldk[i]@, oldk[j - 1]@));
            } else if i == p && j > p {
                if j - 1 == p {
                    assert(semver_num::sv_lt(v@, oldk[p as int]@));
                } else {
                    assert(semver_num::sv_lt(v@, oldk[p as int]@));
                    assert(semver_num::sv_lt(oldk[p as int]@, oldk[j - 1]@));
                    semver_num::lemma_sv_lt_trans(v@, oldk[p as int]@, oldk[j - 1]@);
                }
            } else {
                assert(newk[i] == oldk[i - 1] && newk[j] == oldk[j - 1]);
                assert(semver_num::sv_lt(oldk[i - 1]@, oldk[j - 1]@));
            }
        }
    }
}

/// A classification pins the descriptor's channel: the channels are
/// mutually exclusive.
proof fn lemma_classified_channel(s: Seq<char>, cv: ChannelVersion)
    requires
        classified_as(s, cv),
    ensures
        cv matches ChannelVersion::Stable(v) ==> is_stable_desc(s) && v@ == desc_stable(s),
        cv matches ChannelVersion::Beta(d) ==> is_beta_desc(s) && d == desc_date(s)
            && !is_stable_desc(s) && !is_nightly_desc(s),
        cv matches ChannelVersion::Nightly(d) ==> is_nightly_desc(s) && d == desc_date(s)
            && !is_stable_desc(s) && !is_beta_desc(s),
        cv is Stable ==> !is_beta_desc(s) && !is_nightly_desc(s),
{
    reveal(classified_as);
    reveal(is_stable_desc);
    reveal(is_beta_desc);
    reveal(is_nightly_desc);
}

/// Some record among the first `n` is a stable build keyed by `v`.
pub open spec fn some_stable_rec(records: Seq<BuildRecord>, n: int, v: semver_num::SemVerV) -> bool {
    exists|ri: int|
        0 <= ri < n && is_stable_desc(#[trigger] records[ri]@.rust_version) && desc_stable(
            records[ri]@.rust_version,
        ) == v
}

/// The key list holds version `v`.
pub open spec fn keys_have(keys: Seq<SemVer>, v: semver_num::SemVerV) -> bool {
    exists|ki: int| 0 <= ki < keys.len() && (#[trigger] keys[ki])@ == v
}

/// Every key in the list is the stable ordering key of some record
/// among the first `n`.
pub open spec fn stable_keys_sound(records: Seq<BuildRecord>, keys: Seq<SemVer>, n: int) -> bool {
    forall|ki: int|
        0 <= ki < keys.len() ==> some_stable_rec(records, n, (#[trigger] keys[ki])@)
}

/// Every stable record among the first `n` has its ordering key in the
/// list.
pub open spec fn stable_keys_complete(records: Seq<BuildRecord>, keys: Seq<SemVer>, n: int) -> bool {
    forall|ri: int|
        0 <= ri < n && is_stable_desc(#[trigger] records[ri]@.rust_version) ==> keys_have(
            keys,
            desc_stable(records[ri]@.rust_version),
        )
}

/// Strictly ascending in the total ordering-key order.
pub open spec fn stable_keys_sorted(keys: Seq<SemVer>) -> bool {
    forall|i: int, j: int|
        0 <= i < j < keys.len() ==> semver_num::sv_lt((#[trigger] keys[i])@, (#[trigger] keys[j])@)
}

/// Soundness carries to any longer record prefix.
proof fn lemma_stable_keys_sound_mono(
    records: Seq<BuildRecord>,
    keys: Seq<SemVer>,
    n1: int,
    n2: int,
)
    requires
        0 <= n1 <= n2,
        stable_keys_sound(records, keys, n1),
    ensures
        stable_keys_sound(records, keys, n2),
{
    assert forall|ki: int|
        0 <= ki < keys.len() implies some_stable_rec(records, n2, (#[trigger] keys[ki])@) by {
        assert(some_stable_rec(records, n1, keys[ki]@));
        let ri = choose|ri: int|
            0 <= ri < n1 && is_stable_desc(#[trigger] records[ri]@.rust_version) && desc_stable(
                records[ri]@.rust_version,
            ) == keys[ki]@;
        assert(0 <= ri < n2 && is_stable_desc(records[ri]@.rust_version) && desc_stable(
            records[ri]@.rust_version,
        ) == keys[ki]@);
    }
}

/// Completeness carries over a record that is not stable.
proof fn lemma_stable_keys_complete_skip(records: Seq<BuildRecord>, keys: Seq<SemVer>, n: int)
    requires
        0 <= n < records.len(),
        stable_keys_complete(records, keys, n),
        !is_stable_desc(records[n]@.rust_version),
    ensures
        stable_keys_complete(records, keys, n + 1),
{
    assert forall|ri: int|
        0 <= ri < n + 1 && is_stable_desc(#[trigger] records[ri]@.rust_version) implies keys_have(
        keys,
        desc_stable(records[ri]@.rust_version),
    ) by {
        assert(ri < n);
    }
}

/// The same key list stays sound and complete when the key of record
/// `n` was already present.
proof fn lemma_stable_keys_present_step(
    records: Seq<BuildRecord>,
    keys: Seq<SemVer>,
    n: int,
    v: semver_num::SemVerV,
)
    requires
        0 <= n < records.len(),
        is_stable_desc(records[n]@.rust_version),
        desc_stable(records[n]@.rust_version) == v,
        keys_have(keys, v),
        stable_keys_sound(records, keys, n),
        stable_keys_complete(records, keys, n),
    ensures
        stable_keys_sound(records, keys, n + 1),
        stable_keys_complete(records, keys, n + 1),
{
    lemma_stable_keys_sound_mono(records, keys, n, n + 1);
    assert forall|ri: int|
        0 <= ri < n + 1 && is_stable_desc(#[trigger] records[ri]@.rust_version) implies keys_have(
        keys,
        desc_stable(records[ri]@.rust_version),
    ) by {
        if ri == n {
            assert(keys_have(keys, v));
        }
    }
}

/// A sorted insertion of the key of record `n` advances soundness and
/// completeness from prefix `n` to prefix `n + 1`.
proof fn lemma_stable_keys_insert_step(
    records: Seq<BuildRecord>,
    prev: Seq<SemVer>,
    cur: Seq<SemVer>,
    n: int,
    p: int,
    v: semver_num::SemVerV,
)
    requires
        0 <= n < records.len(),
        is_stable_desc(records[n]@.rust_version),
        desc_stable(records[n]@.rust_version) == v,
        0 <= p <= prev.len(),
        cur.len() == prev.len() + 1,
        (cur[p])@ == v,
        forall|j: int| 0 <= j < p ==> cur[j] == #[trigger] prev[j],
        forall|j: int| p <= j < prev.len() ==> cur[j + 1] == #[trigger] prev[j],
        stable_keys_sound(records, prev, n),
        stable_keys_complete(records, prev, n),
    ensures
        stable_keys_sound(records, cur, n + 1),
        stable_keys_complete(records, cur, n + 1),
{
    assert forall|ki: int|
        0 <= ki < cur.len() implies some_stable_rec(records, n + 1, (#[trigger] cur[ki])@) by {
        if ki == p {
            assert(is_stable_desc(records[n]@.rust_version) && desc_stable(
                records[n]@.rust_version,
            ) == cur[ki]@);
        } else {
            let kj = if ki < p {
                ki
            } else {
                ki - 1
            };
            assert(cur[ki] == prev[kj]);
            assert(some_stable_rec(records, n, prev[kj]@));
            let ri = choose|ri: int|
                0 <= ri < n && is_stable_desc(#[trigger] records[ri]@.rust_version)
                    && desc_stable(records[ri]@.rust_version) == prev[kj]@;
            assert(0 <= ri < n + 1 && is_stable_desc(records[ri]@.rust_version) && desc_stable(
                records[ri]@.rust_version,
            ) == cur[ki]@);
        }
    }
    assert forall|ri: int|
        0 <= ri < n + 1 && is_stable_desc(#[trigger] records[ri]@.rust_version) implies keys_have(
        cur,
        desc_stable(records[ri]@.rust_version),
    ) by {
        if ri == n {
            assert((cur[p])@ == desc_stable(records[ri]@.rust_version));
        } else {
            assert(keys_have(prev, desc_stable(records[ri]@.rust_version)));
            let kj = choose|kj: int|
                0 <= kj < prev.len() && (#[trigger] prev[kj])@ == desc_stable(
                    records[ri]@.rust_version,
                );
            let ki = if kj < p {
                kj
            } else {
                kj + 1
            };
            assert(cur[ki] == prev[kj]);
            assert((cur[ki])@ == desc_stable(records[ri]@.rust_version));
        }
    }
}

/// Fold record `i` into the stable key list.
fn stable_keys_step(keys: &mut Vec<SemVer>, records: &Vec<BuildRecord>, i: usize)
    requires
        i < records@.len(),
        classify_ok(records@[i as int]@.rust_version),
        stable_keys_sorted(old(keys)@),
        stable_keys_sound(records@, old(keys)@, i as int),
        stable_keys_complete(records@, old(keys)@, i as int),
    ensures
        stable_keys_sorted(final(keys)@),
        stable_keys_sound(records@, final(keys)@, i + 1),
        stable_keys_complete(records@, final(keys)@, i + 1),
{
    let ghost prev = keys@;
    let ghost rv = records@[i as int]@.rust_version;
    let r = ChannelVersion::from_str(records[i].rust_version.as_str());
    match r {
        Ok(cv) => {
            let ghost gcv = cv;
            proof {
                lemma_classified_channel(rv, gcv);
            }
            match cv {
                ChannelVersion::Stable(sv) => {
                    insert_stable_key(keys, &sv);
                    proof {
                        if keys@ == prev {
                            assert(keys_have(prev, sv@));
                            lemma_stable_keys_present_step(records@, keys@, i as int, sv@);
                        } else {
                            let p = choose|p: int|
                                {
                                    &&& 0 <= p <= prev.len()
                                    &&& keys@.len() == prev.len() + 1
                                    &&& (#[trigger] keys@[p])@ == sv@
                                    &&& forall|j: int| 0 <= j < p ==> keys@[j] == #[trigger] prev[j]
                                    &&& forall|j: int|
                                        p <= j < prev.len() ==> keys@[j + 1] == #[trigger] prev[j]
                                };
                            lemma_stable_keys_insert_step(records@, prev, keys@, i as int, p, sv@);
                        }
                    }
                },
                _ => {
                    proof {
                        assert(!is_stable_desc(rv));
                        lemma_stable_keys_sound_mono(records@, keys@, i as int, i + 1);
                        lemma_stable_keys_complete_skip(records@, keys@, i as int);
                    }
                },
            }
        },
        Err(_) => {
            proof {
                assert(false);
            }
        },
    }
}

/// The sorted list of distinct stable ordering keys among the records.
fn stable_keys(records: &Vec<BuildRecord>) -> (keys: Vec<SemVer>)
    requires
        forall|ri: int|
            0 <= ri < records@.len() ==> classify_ok(#[trigger] records@[ri]@.rust_version),
    ensures
        stable_keys_sorted(keys@),
        stable_keys_sound(records@, keys@, records@.len() as int),
        stable_keys_complete(records@, keys@, records@.len() as int),
{
    let n = records.len();
    let mut keys: Vec<SemVer> = Vec::new();
    let mut i: usize = 0;
    while i < n
        invariant
            0 <= i <= n,
            n == records@.len(),
            forall|ri: int|
                0 <= ri < records@.len() ==> classify_ok(#[trigger] records@[ri]@.rust_version),
            stable_keys_sorted(keys@),
            stable_keys_sound(records@, keys@, i as int),
            stable_keys_complete(records@, keys@, i as int),
        decreases n - i,
    {
        stable_keys_step(&mut keys, records, i);
        i = i + 1;
    }
    keys
}

/// Some record among the first `n` is a nightly/beta build keyed by day
/// `d`.
pub open spec fn some_date_rec(records: Seq<BuildRecord>, nightly: bool, n: int, d: Date) -> bool {
    exists|ri: int|
        0 <= ri < n && (if nightly {
            is_nightly_desc(#[trigger] records[ri]@.rust_version)
        } else {
            is_beta_desc(#[trigger] records[ri]@.rust_version)
        }) && desc_date(records[ri]@.rust_version) == d
}

/// The day list holds `d`.
pub open spec fn days_have(keys: Seq<Date>, d: Date) -> bool {
    exists|ki: int| 0 <= ki < keys.len() && #[trigger] keys[ki] == d
}

/// Every day in the list keys some nightly/beta record among the first
/// `n`.
pub open spec fn date_keys_sound(records: Seq<BuildRecord>, nightly: bool, keys: Seq<Date>, n: int) -> bool {
    forall|ki: int| 0 <= ki < keys.len() ==> some_date_rec(records, nightly, n, #[trigger] keys[ki])
}

/// Every nightly/beta record among the first `n` has its day in the
/// list.
pub open spec fn date_keys_complete(
    records: Seq<BuildRecord>,
    nightly: bool,
    keys: Seq<Date>,
    n: int,
) -> bool {
    forall|ri: int|
        0 <= ri < n && (if nightly {
            is_nightly_desc(#[trigger] records[ri]@.rust_version)
        } else {
            is_beta_desc(#[trigger] records[ri]@.rust_version)
        }) ==> days_have(keys, desc_date(records[ri]@.rust_version))
}

/// Strictly ascending days.
pub open spec fn date_keys_sorted(keys: Seq<Date>) -> bool {
    forall|i: int, j: int|
        0 <= i < j < keys.len() ==> (#[trigger] keys[i]).spec_lt(#[trigger] keys[j])
}

/// Insert a day into a strictly ascending list; a present day is left
/// alone.
fn insert_date_key(keys: &mut Vec<Date>, d: Date)
    requires
        date_keys_sorted(old(keys)@),
    ensures
        date_keys_sorted(final(keys)@),
        (final(keys)@ == old(keys)@ && days_have(old(keys)@, d)) || (exists|p: int|
            {
                &&& 0 <= p <= old(keys)@.len()
                &&& final(keys)@.len() == old(keys)@.len() + 1
                &&& #[trigger] final(keys)@[p] == d
                &&& forall|j: int| 0 <= j < p ==> final(keys)@[j] == #[trigger] old(keys)@[j]
                &&& forall|j: int|
                    p <= j < old(keys)@.len() ==> final(keys)@[j + 1] == #[trigger] old(keys)@[j]
            }),
{
    let n = keys.len();
    let mut p: usize = 0;
    while p < n && keys[p].lt(&d)
        invariant
            0 <= p <= n,
            n == keys@.len(),
            keys@ == old(keys)@,
            forall|j: int| 0 <= j < p ==> (#[trigger] keys@[j]).spec_lt(d),
        decreases n - p,
    {
        p = p + 1;
    }
    if p < n && keys[p] == d {
        proof {
            assert(old(keys)@[p as int] == d);
        }
        return ;
    }
    keys.insert(p, d);
    proof {
        let oldk = old(keys)@;
        let newk = keys@;
        assert(newk[p as int] == d);
        assert(forall|j: int| 0 <= j < p ==> newk[j] == #[trigger] oldk[j]);
        assert(forall|j: int| p <= j < oldk.len() ==> newk[j + 1] == #[trigger] oldk[j]);
        assert forall|i: int, j: int|
            0 <= i < j < newk.len() implies (#[trigger] newk[i]).spec_lt(#[trigger] newk[j]) by {
            if i < p && j == p {
                assert(oldk[i].spec_lt(d));
            } else if i < p && j > p {
                assert(newk[j] == oldk[j - 1]);
            } else if i == p && j > p {
                assert(newk[j] == oldk[j - 1]);
                if j - 1 > p {
                    assert(oldk[p as int].spec_lt(oldk[j - 1]));
                }
            } else if i > p {
                assert(newk[i] == oldk[i - 1] && newk[j] == oldk[j - 1]);
            }
        }
    }
}

/// Soundness carries to any longer record prefix.
proof fn lemma_date_keys_sound_mono(
    records: Seq<BuildRecord>,
    nightly: bool,
    keys: Seq<Date>,
    n1: int,
    n2: int,
)
    requires
        0 <= n1 <= n2,
        date_keys_sound(records, nightly, keys, n1),
    ensures
        date_keys_sound(records, nightly, keys, n2),
{
    assert forall|ki: int|
        0 <= ki < keys.len() implies some_date_rec(records, nightly, n2, #[trigger] keys[ki]) by {
        assert(some_date_rec(records, nightly, n1, keys[ki]));
        let ri = choose|ri: int|
            0 <= ri < n1 && (if nightly {
                is_nightly_desc(#[trigger] records[ri]@.rust_version)
            } else {
                is_beta_desc(#[trigger] records[ri]@.rust_version)
            }) && desc_date(records[ri]@.rust_version) == keys[ki];
        assert(0 <= ri < n2 && (if nightly {
            is_nightly_desc(records[ri]@.rust_version)
        } else {
            is_beta_desc(records[ri]@.rust_version)
        }) && desc_date(records[ri]@.rust_version) == keys[ki]);
    }
}

/// Completeness carries over a record of another channel.
proof fn lemma_date_keys_complete_skip(
    records: Seq<BuildRecord>,
    nightly: bool,
    keys: Seq<Date>,
    n: int,
)
    requires
        0 <= n < records.len(),
        date_keys_complete(records, nightly, keys, n),
        !(if nightly {
            is_nightly_desc(records[n]@.rust_version)
        } else {
            is_beta_desc(records[n]@.rust_version)
        }),
    ensures
        date_keys_complete(records, nightly, keys, n + 1),
{
    assert forall|ri: int|
        0 <= ri < n + 1 && (if nightly {
            is_nightly_desc(#[trigger] records[ri]@.rust_version)
        } else {
            is_beta_desc(#[trigger] records[ri]@.rust_version)
        }) implies days_have(keys, desc_date(records[ri]@.rust_version)) by {
        assert(ri < n);
    }
}

/// The same day list serves when the day of record `n` was already
/// present.
proof fn lemma_date_keys_present_step(
    records: Seq<BuildRecord>,
    nightly: bool,
    keys: Seq<Date>,
    n: int,
    d: Date,
)
    requires
        0 <= n < records.len(),
        if nightly {
            is_nightly_desc(records[n]@.rust_version)
        } else {
            is_beta_desc(records[n]@.rust_version)
        },
        desc_date(records[n]@.rust_version) == d,
        days_have(keys, d),
        date_keys_sound(records, nightly, keys, n),
        date_keys_complete(records, nightly, keys, n),
    ensures
        date_keys_sound(records, nightly, keys, n + 1),
        date_keys_complete(records, nightly, keys, n + 1),
{
    lemma_date_keys_sound_mono(records, nightly, keys, n, n + 1);
    assert forall|ri: int|
        0 <= ri < n + 1 && (if nightly {
            is_nightly_desc(#[trigger] records[ri]@.rust_version)
        } else {
            is_beta_desc(#[trigger] records[ri]@.rust_version)
        }) implies days_have(keys, desc_date(records[ri]@.rust_version)) by {
        if ri == n {
            assert(days_have(keys, d));
        }
    }
}

/// A sorted insertion of the day of record `n` advances soundness and
/// completeness to prefix `n + 1`.
proof fn lemma_date_keys_insert_step(
    records: Seq<BuildRecord>,
    nightly: bool,
    prev: Seq<Date>,
    cur: Seq<Date>,
    n: int,
    p: int,
    d: Date,
)
    requires
        0 <= n < records.len(),
        if nightly {
            is_nightly_desc(records[n]@.rust_version)
        } else {
            is_beta_desc(records[n]@.rust_version)
        },
        desc_date(records[n]@.rust_version) == d,
        0 <= p <= prev.len(),
        cur.len() == prev.len() + 1,
        cur[p] == d,
        forall|j: int| 0 <= j < p ==> cur[j] == #[trigger] prev[j],
        forall|j: int| p <= j < prev.len() ==> cur[j + 1] == #[trigger] prev[j],
        date_keys_sound(records, nightly, prev, n),
        date_keys_complete(records, nightly, prev, n),
    ensures
        date_keys_sound(records, nightly, cur, n + 1),
        date_keys_complete(records, nightly, cur, n + 1),
{
    assert forall|ki: int|
        0 <= ki < cur.len() implies some_date_rec(records, nightly, n + 1, #[trigger] cur[ki]) by {
        if ki == p {
            assert(desc_date(records[n]@.rust_version) == cur[ki]);
        } else {
            let kj = if ki < p {
                ki
            } else {
                ki - 1
            };
            assert(cur[ki] == prev[kj]);
            assert(some_date_rec(records, nightly, n, prev[kj]));
            let ri = choose|ri: int|
                0 <= ri < n && (if nightly {
                    is_nightly_desc(#[trigger] records[ri]@.rust_version)
                } else {
                    is_beta_desc(#[trigger] records[ri]@.rust_version)
                }) && desc_date(records[ri]@.rust_version) == prev[kj];
            assert(0 <= ri < n + 1 && desc_date(records[ri]@.rust_version) == cur[ki]);
        }
    }
    assert forall|ri: int|
        0 <= ri < n + 1 && (if nightly {
            is_nightly_desc(#[trigger] records[ri]@.rust_version)
        } else {
            is_beta_desc(#[trigger] records[ri]@.rust_version)
        }) implies days_have(cur, desc_date(records[ri]@.rust_version)) by {
        if ri == n {
            assert(cur[p] == desc_date(records[ri]@.rust_version));
        } else {
            assert(days_have(prev, desc_date(records[ri]@.rust_version)));
            let kj = choose|kj: int|
                0 <= kj < prev.len() && #[trigger] prev[kj] == desc_date(
                    records[ri]@.rust_version,
                );
            let ki = if kj < p {
                kj
            } else {
                kj + 1
            };
            assert(cur[ki] == prev[kj]);
        }
    }
}

/// Fold record `i` into the day list of one date channel.
fn date_keys_step(keys: &mut Vec<Date>, records: &Vec<BuildRecord>, nightly: bool, i: usize)
    requires
        i < records@.len(),
        classify_ok(records@[i as int]@.rust_version),
        date_keys_sorted(old(keys)@),
        date_keys_sound(records@, nightly, old(keys)@, i as int),
        date_keys_complete(records@, nightly, old(keys)@, i as int),
    ensures
        date_keys_sorted(final(keys)@),
        date_keys_sound(records@, nightly, final(keys)@, i + 1),
        date_keys_complete(records@, nightly, final(keys)@, i + 1),
{
    let ghost prev = keys@;
    let ghost rv = records@[i as int]@.rust_version;
    let r = ChannelVersion::from_str(records[i].rust_version.as_str());
    match r {
        Ok(cv) => {
            let ghost gcv = cv;
            proof {
                lemma_classified_channel(rv, gcv);
            }
            let matching = match &cv {
                ChannelVersion::Nightly(_) => nightly,
                ChannelVersion::Beta(_) => !nightly,
                ChannelVersion::Stable(_) => false,
            };
            if matching {
                let d = match cv {
                    ChannelVersion::Nightly(d) => d,
                    ChannelVersion::Beta(d) => d,
                    ChannelVersion::Stable(_) => Date { year: 0, month: 0, day: 0 },
                };
                proof {
                    assert(if nightly {
                        is_nightly_desc(rv)
                    } else {
                        is_beta_desc(rv)
                    });
                    assert(desc_date(rv) == d);
                }
                insert_date_key(keys, d);
                proof {
                    if keys@ == prev {
                        assert(days_have(prev, d));
                        lemma_date_keys_present_step(records@, nightly, keys@, i as int, d);
                    } else {
                        let p = choose|p: int|
                            {
                                &&& 0 <= p <= prev.len()
                                &&& keys@.len() == prev.len() + 1
                                &&& #[trigger] keys@[p] == d
                                &&& forall|j: int| 0 <= j < p ==> keys@[j] == #[trigger] prev[j]
                                &&& forall|j: int|
                                    p <= j < prev.len() ==> keys@[j + 1] == #[trigger] prev[j]
                            };
                        lemma_date_keys_insert_step(
                            records@,
                            nightly,
                            prev,
                            keys@,
                            i as int,
                            p,
                            d,
                        );
                    }
                }
            } else {
                proof {
                    assert(!(if nightly {
                        is_nightly_desc(rv)
                    } else {
                        is_beta_desc(rv)
                    }));
                    lemma_date_keys_sound_mono(records@, nightly, keys@, i as int, i + 1);
                    lemma_date_keys_complete_skip(records@, nightly, keys@, i as int);
                }
            }
        },
        Err(_) => {
            proof {
                assert(false);
            }
        },
    }
}

/// The sorted list of distinct days of one date channel.
fn date_keys(records: &Vec<BuildRecord>, nightly: bool) -> (keys: Vec<Date>)
    requires
        forall|ri: int|
            0 <= ri < records@.len() ==> classify_ok(#[trigger] records@[ri]@.rust_version),
    ensures
        date_keys_sorted(keys@),
        date_keys_sound(records@, nightly, keys@, records@.len() as int),
        date_keys_complete(records@, nightly, keys@, records@.len() as int),
{
    let n = records.len();
    let mut keys: Vec<Date> = Vec::new();
    let mut i: usize = 0;
    while i < n
        invariant
            0 <= i <= n,
            n == records@.len(),
            forall|ri: int|
                0 <= ri < records@.len() ==> classify_ok(#[trigger] records@[ri]@.rust_version),
            date_keys_sorted(keys@),
            date_keys_sound(records@, nightly, keys@, i as int),
            date_keys_complete(records@, nightly, keys@, i as int),
        decreases n - i,
    {
        date_keys_step(&mut keys, records, nightly, i);
        i = i + 1;
    }
    keys
}

/// Some record is a stable build of `v` on `tgt` with outcome `passed`.
pub open spec fn some_stable_result(
    records: Seq<BuildRecord>,
    v: semver_num::SemVerV,
    tgt: Seq<char>,
    passed: bool,
) -> bool {
    exists|ri: int|
        0 <= ri < records.len() && is_stable_desc(#[trigger] records[ri]@.rust_version)
            && desc_stable(records[ri]@.rust_version) == v && records[ri]@.target == tgt
            && records[ri]@.passed == passed
}

/// Some record is a nightly/beta build of day `d` on `tgt` with outcome
/// `passed`.
pub open spec fn some_date_result(
    records: Seq<BuildRecord>,
    nightly: bool,
    d: Date,
    tgt: Seq<char>,
    passed: bool,
) -> bool {
    exists|ri: int|
        0 <= ri < records.len() && (if nightly {
            is_nightly_desc(#[trigger] records[ri]@.rust_version)
        } else {
            is_beta_desc(#[trigger] records[ri]@.rust_version)
        }) && desc_date(records[ri]@.rust_version) == d && records[ri]@.target == tgt
            && records[ri]@.passed == passed
}

/// The cell list has an entry for `tgt`.
pub open spec fn results_have(results: Seq<TargetResult>, tgt: Seq<char>) -> bool {
    exists|ti: int| 0 <= ti < results.len() && (#[trigger] results[ti]).target@ == tgt
}

/// Every cell reports the outcome of some stable record of `v`.
pub open spec fn stable_results_sound(
    records: Seq<BuildRecord>,
    v: semver_num::SemVerV,
    results: Seq<TargetResult>,
) -> bool {
    forall|ti: int|
        0 <= ti < results.len() ==> some_stable_result(
            records,
            v,
            (#[trigger] results[ti]).target@,
            results[ti].passed,
        )
}

/// Every stable record of `v` among the first `n` has a cell for its
/// target.
pub open spec fn stable_results_complete(
    records: Seq<BuildRecord>,
    v: semver_num::SemVerV,
    results: Seq<TargetResult>,
    n: int,
) -> bool {
    forall|ri: int|
        0 <= ri < n && is_stable_desc(#[trigger] records[ri]@.rust_version) && desc_stable(
            records[ri]@.rust_version,
        ) == v ==> results_have(results, records[ri]@.target)
}

/// Every cell reports the outcome of some nightly/beta record of `d`.
pub open spec fn date_results_sound(
    records: Seq<BuildRecord>,
    nightly: bool,
    d: Date,
    results: Seq<TargetResult>,
) -> bool {
    forall|ti: int|
        0 <= ti < results.len() ==> some_date_result(
            records,
            nightly,
            d,
            (#[trigger] results[ti]).target@,
            results[ti].passed,
        )
}

/// Every nightly/beta record of `d` among the first `n` has a cell for
/// its target.
pub open spec fn date_results_complete(
    records: Seq<BuildRecord>,
    nightly: bool,
    d: Date,
    results: Seq<TargetResult>,
    n: int,
) -> bool {
    forall|ri: int|
        0 <= ri < n && (if nightly {
            is_nightly_desc(#[trigger] records[ri]@.rust_version)
        } else {
            is_beta_desc(#[trigger] records[ri]@.rust_version)
        }) && desc_date(records[ri]@.rust_version) == d ==> results_have(
            results,
            records[ri]@.target,
        )
}

/// The pass/fail cells of version `v` on the stable channel.
#[verifier::rlimit(30)]
fn stable_results(records: &Vec<BuildRecord>, v: &SemVer) -> (results: Vec<TargetResult>)
    requires
        forall|ri: int|
            0 <= ri < records@.len() ==> classify_ok(#[trigger] records@[ri]@.rust_version),
    ensures
        targets_unique(results@),
        stable_results_sound(records@, v@, results@),
        stable_results_complete(records@, v@, results@, records@.len() as int),
{
    let n = records.len();
    let mut results: Vec<TargetResult> = Vec::new();
    let mut i: usize = 0;
    while i < n
        invariant
            0 <= i <= n,
            n == records@.len(),
            forall|ri: int|
                0 <= ri < records@.len() ==> classify_ok(#[trigger] records@[ri]@.rust_version),
            targets_unique(results@),
            stable_results_sound(records@, v@, results@),
            stable_results_complete(records@, v@, results@, i as int),
        decreases n - i,
    {
        let ghost prev = results@;
        let ghost rv = records@[i as int]@.rust_version;
        let r = ChannelVersion::from_str(records[i].rust_version.as_str());
        match r {
            Ok(cv) => {
                let ghost gcv = cv;
                proof {
                    lemma_classified_channel(rv, gcv);
                }
                let matching = match &cv {
                    ChannelVersion::Stable(sv) => sv.eq_ver(v),
                    _ => false,
                };
                if matching {
                    proof {
                        assert(is_stable_desc(rv) && desc_stable(rv) == v@);
                        lemma_res_idx(prev, records@[i as int]@.target);
                    }
                    let ghost c = res_idx(prev, records@[i as int]@.target);
                    upsert_result(&mut results, records[i].target.as_str(), records[i].passed);
                    proof {
                        assert forall|ti: int|
                            0 <= ti < results@.len() implies some_stable_result(
                            records@,
                            v@,
                            (#[trigger] results@[ti]).target@,
                            results@[ti].passed,
                        ) by {
                            if ti == c {
                                assert(results@[ti].target@ == records@[i as int]@.target
                                    && results@[ti].passed == records@[i as int]@.passed);
                            } else {
                                assert(results@[ti] == prev[ti]);
                                assert(some_stable_result(
                                    records@,
                                    v@,
                                    prev[ti].target@,
                                    prev[ti].passed,
                                ));
                            }
                        }
                        assert forall|ri: int|
                            0 <= ri < i + 1 && is_stable_desc(
                                #[trigger] records@[ri]@.rust_version,
                            ) && desc_stable(records@[ri]@.rust_version) == v@ implies results_have(
                            results@,
                            records@[ri]@.target,
                        ) by {
                            if ri == i {
                                assert((results@[c]).target@ == records@[i as int]@.target);
                            } else {
                                assert(results_have(prev, records@[ri]@.target));
                                let ti = choose|ti: int|
                                    0 <= ti < prev.len() && (#[trigger] prev[ti]).target@
                                        == records@[ri]@.target;
                                assert((results@[ti]).target@ == prev[ti].target@);
                            }
                        }
                    }
                } else {
                    proof {
                        assert(!(is_stable_desc(rv) && desc_stable(rv) == v@));
                        assert forall|ri: int|
                            0 <= ri < i + 1 && is_stable_desc(
                                #[trigger] records@[ri]@.rust_version,
                            ) && desc_stable(records@[ri]@.rust_version) == v@ implies results_have(
                            results@,
                            records@[ri]@.target,
                        ) by {
                            assert(ri < i);
                        }
                    }
                }
            },
            Err(_) => {
                proof {
                    assert(classify_ok(rv));
                    assert(false);
                }
            },
        }
        i = i + 1;
    }
    results
}

/// The pass/fail cells of day `d` on the nightly or beta channel.
#[verifier::rlimit(30)]
fn date_results(records: &Vec<BuildRecord>, nightly: bool, d: &Date) -> (results: Vec<
    TargetResult,
>)
    requires
        forall|ri: int|
            0 <= ri < records@.len() ==> classify_ok(#[trigger] records@[ri]@.rust_version),
    ensures
        targets_unique(results@),
        date_results_sound(records@, nightly, *d, results@),
        date_results_complete(records@, nightly, *d, results@, records@.len() as int),
{
    let n = records.len();
    let mut results: Vec<TargetResult> = Vec::new();
    let mut i: usize = 0;
    while i < n
        invariant
            0 <= i <= n,
            n == records@.len(),
            forall|ri: int|
                0 <= ri < records@.len() ==> classify_ok(#[trigger] records@[ri]@.rust_version),
            targets_unique(results@),
            date_results_sound(records@, nightly, *d, results@),
            date_results_complete(records@, nightly, *d, results@, i as int),
        decreases n - i,
    {
        let ghost prev = results@;
        let ghost rv = records@[i as int]@.rust_version;
        let r = ChannelVersion::from_str(records[i].rust_version.as_str());
        match r {
            Ok(cv) => {
                let ghost gcv = cv;
                proof {
                    lemma_classified_channel(rv, gcv);
                }
                let matching = match &cv {
                    ChannelVersion::Nightly(cd) => nightly && *cd == *d,
                    ChannelVersion::Beta(cd) => !nightly && *cd == *d,
                    ChannelVersion::Stable(_) => false,
                };
                if matching {
                    proof {
                        assert((if nightly {
                            is_nightly_desc(rv)
                        } else {
                            is_beta_desc(rv)
                        }) && desc_date(rv) == *d);
                        lemma_res_idx(prev, records@[i as int]@.target);
                    }
                    let ghost c = res_idx(prev, records@[i as int]@.target);
                    upsert_result(&mut results, records[i].target.as_str(), records[i].passed);
                    proof {
                        assert forall|ti: int|
                            0 <= ti < results@.len() implies some_date_result(
                            records@,
                            nightly,
                            *d,
                            (#[trigger] results@[ti]).target@,
                            results@[ti].passed,
                        ) by {
                            if ti == c {
                                assert(results@[ti].target@ == records@[i as int]@.target
                                    && results@[ti].passed == records@[i as int]@.passed);
                            } else {
                                assert(results@[ti] == prev[ti]);
                                assert(some_date_result(
                                    records@,
                                    nightly,
                                    *d,
                                    prev[ti].target@,
                                    prev[ti].passed,
                                ));
                            }
                        }
                        assert forall|ri: int|
                            0 <= ri < i + 1 && (if nightly {
                                is_nightly_desc(#[trigger] records@[ri]@.rust_version)
                            } else {
                                is_beta_desc(#[trigger] records@[ri]@.rust_version)
                            }) && desc_date(records@[ri]@.rust_version) == *d implies results_have(
                            results@,
                            records@[ri]@.target,
                        ) by {
                            if ri == i {
                                assert((results@[c]).target@ == records@[i as int]@.target);
                            } else {
                                assert(results_have(prev, records@[ri]@.target));
                                let ti = choose|ti: int|
                                    0 <= ti < prev.len() && (#[trigger] prev[ti]).target@
                                        == records@[ri]@.target;
                                assert((results@[ti]).target@ == prev[ti].target@);
                            }
                        }
                    }
                } else {
                    proof {
                        assert(!((if nightly {
                            is_nightly_desc(rv)
                        } else {
                            is_beta_desc(rv)
                        }) && desc_date(rv) == *d));
                        assert forall|ri: int|
                            0 <= ri < i + 1 && (if nightly {
                                is_nightly_desc(#[trigger] records@[ri]@.rust_version)
                            } else {
                                is_beta_desc(#[trigger] records@[ri]@.rust_version)
                            }) && desc_date(records@[ri]@.rust_version) == *d implies results_have(
                            results@,
                            records@[ri]@.target,
                        ) by {
                            assert(ri < i);
                        }
                    }
                }
            },
            Err(_) => {
                proof {
                    assert(classify_ok(rv));
                    assert(false);
                }
            },
        }
        i = i + 1;
    }
    results
}

/// A nightly or beta key is a plausible day.
pub proof fn lemma_desc_date_wf(s: Seq<char>)
    requires
        is_nightly_desc(s) || is_beta_desc(s),
    ensures
        desc_date(s).wf(),
{
    reveal(is_nightly_desc);
    reveal(is_beta_desc);
    reveal(classify_ok);
    reveal(desc_date);
    datetime::lemma_ymd_date_wf(tokens_of(s)[3]);
}

/// One column of the build matrix for the stable channel: a version and
/// its per-target outcomes.
#[derive(Debug)]
pub struct StableColumn {
    pub version: SemVer,
    pub results: Vec<TargetResult>,
}

/// One column of the build matrix for a date channel: a day and its
/// per-target outcomes.
#[derive(Debug)]
pub struct DateColumn {
    pub day: Date,
    pub results: Vec<TargetResult>,
}

/// The column list holds version `v`.
pub open spec fn stable_cols_have(cols: Seq<StableColumn>, v: semver_num::SemVerV) -> bool {
    exists|ci: int| 0 <= ci < cols.len() && (#[trigger] cols[ci]).version@ == v
}

/// The column list holds day `d`.
pub open spec fn date_cols_have(cols: Seq<DateColumn>, d: Date) -> bool {
    exists|ci: int| 0 <= ci < cols.len() && (#[trigger] cols[ci]).day == d
}

/// The stable columns aggregate exactly the stable records: sorted
/// distinct version keys, one cell list per key, sound and complete in
/// both keys and cells.
pub open spec fn stable_matrix_ok(records: Seq<BuildRecord>, cols: Seq<StableColumn>) -> bool {
    &&& forall|i: int, j: int|
        0 <= i < j < cols.len() ==> semver_num::sv_lt(
            (#[trigger] cols[i]).version@,
            (#[trigger] cols[j]).version@,
        )
    &&& forall|ci: int|
        0 <= ci < cols.len() ==> some_stable_rec(
            records,
            records.len() as int,
            (#[trigger] cols[ci]).version@,
        )
    &&& forall|ri: int|
        0 <= ri < records.len() && is_stable_desc(#[trigger] records[ri]@.rust_version)
            ==> stable_cols_have(cols, desc_stable(records[ri]@.rust_version))
    &&& forall|ci: int| 0 <= ci < cols.len() ==> targets_unique((#[trigger] cols[ci]).results@)
    &&& forall|ci: int|
        0 <= ci < cols.len() ==> stable_results_sound(
            records,
            (#[trigger] cols[ci]).version@,
            cols[ci].results@,
        )
    &&& forall|ci: int|
        0 <= ci < cols.len() ==> stable_results_complete(
            records,
            (#[trigger] cols[ci]).version@,
            cols[ci].results@,
            records.len() as int,
        )
}

/// The date-channel columns aggregate exactly that channel's records.
pub open spec fn date_matrix_ok(
    records: Seq<BuildRecord>,
    nightly: bool,
    cols: Seq<DateColumn>,
) -> bool {
    &&& forall|i: int, j: int|
        0 <= i < j < cols.len() ==> ((#[trigger] cols[i]).day).spec_lt((#[trigger] cols[j]).day)
    &&& forall|ci: int|
        0 <= ci < cols.len() ==> some_date_rec(
            records,
            nightly,
            records.len() as int,
            (#[trigger] cols[ci]).day,
        )
    &&& forall|ri: int|
        0 <= ri < records.len() && (if nightly {
            is_nightly_desc(#[trigger] records[ri]@.rust_version)
        } else {
            is_beta_desc(#[trigger] records[ri]@.rust_version)
        }) ==> date_cols_have(cols, desc_date(records[ri]@.rust_version))
    &&& forall|ci: int| 0 <= ci < cols.len() ==> targets_unique((#[trigger] cols[ci]).results@)
    &&& forall|ci: int|
        0 <= ci < cols.len() ==> date_results_sound(
            records,
            nightly,
            (#[trigger] cols[ci]).day,
            cols[ci].results@,
        )
    &&& forall|ci: int|
        0 <= ci < cols.len() ==> date_results_complete(
            records,
            nightly,
            (#[trigger] cols[ci]).day,
            cols[ci].results@,
            records.len() as int,
        )
}

/// Assemble the stable columns.
#[verifier::rlimit(30)]
fn stable_matrix(records: &Vec<BuildRecord>) -> (cols: Vec<StableColumn>)
    requires
        forall|ri: int|
            0 <= ri < records@.len() ==> classify_ok(#[trigger] records@[ri]@.rust_version),
    ensures
        stable_matrix_ok(records@, cols@),
{
    let keys = stable_keys(records);
    let mut cols: Vec<StableColumn> = Vec::new();
    let mut ki: usize = 0;
    while ki < keys.len()
        invariant
            0 <= ki <= keys@.len(),
            cols@.len() == ki,
            forall|ri: int|
                0 <= ri < records@.len() ==> classify_ok(#[trigger] records@[ri]@.rust_version),
            stable_keys_sorted(keys@),
            stable_keys_sound(records@, keys@, records@.len() as int),
            stable_keys_complete(records@, keys@, records@.len() as int),
            forall|ci: int| 0 <= ci < ki ==> (#[trigger] cols@[ci]).version@ == keys@[ci]@,
            forall|ci: int| 0 <= ci < ki ==> targets_unique((#[trigger] cols@[ci]).results@),
            forall|ci: int|
                0 <= ci < ki ==> stable_results_sound(
                    records@,
                    (#[trigger] cols@[ci]).version@,
                    cols@[ci].results@,
                ),
            forall|ci: int|
                0 <= ci < ki ==> stable_results_complete(
                    records@,
                    (#[trigger] cols@[ci]).version@,
                    cols@[ci].results@,
                    records@.len() as int,
                ),
        decreases keys@.len() - ki,
    {
        let results = stable_results(records, &keys[ki]);
        let col = StableColumn { version: keys[ki].clone(), results };
        cols.push(col);
        ki = ki + 1;
    }
    proof {
        assert forall|i: int, j: int|
            0 <= i < j < cols@.len() implies semver_num::sv_lt(
            (#[trigger] cols@[i]).version@,
            (#[trigger] cols@[j]).version@,
        ) by {
            assert(cols@[i].version@ == keys@[i]@ && cols@[j].version@ == keys@[j]@);
            assert(semver_num::sv_lt(keys@[i]@, keys@[j]@));
        }
        assert forall|ci: int|
            0 <= ci < cols@.len() implies some_stable_rec(
            records@,
            records@.len() as int,
            (#[trigger] cols@[ci]).version@,
        ) by {
            assert(cols@[ci].version@ == keys@[ci]@);
            assert(some_stable_rec(records@, records@.len() as int, keys@[ci]@));
        }
        assert forall|ri: int|
            0 <= ri < records@.len() && is_stable_desc(
                #[trigger] records@[ri]@.rust_version,
            ) implies stable_cols_have(cols@, desc_stable(records@[ri]@.rust_version)) by {
            assert(keys_have(keys@, desc_stable(records@[ri]@.rust_version)));
            let kj = choose|kj: int|
                0 <= kj < keys@.len() && (#[trigger] keys@[kj])@ == desc_stable(
                    records@[ri]@.rust_version,
                );
            assert((cols@[kj]).version@ == keys@[kj]@);
        }
    }
    cols
}

/// Assemble the columns of one date channel.
#[verifier::rlimit(30)]
fn date_matrix(records: &Vec<BuildRecord>, nightly: bool) -> (cols: Vec<DateColumn>)
    requires
        forall|ri: int|
            0 <= ri < records@.len() ==> classify_ok(#[trigger] records@[ri]@.rust_version),
    ensures
        date_matrix_ok(records@, nightly, cols@),
{
    let keys = date_keys(records, nightly);
    let mut cols: Vec<DateColumn> = Vec::new();
    let mut ki: usize = 0;
    while ki < keys.len()
        invariant
            0 <= ki <= keys@.len(),
            cols@.len() == ki,
            forall|ri: int|
                0 <= ri < records@.len() ==> classify_ok(#[trigger] records@[ri]@.rust_version),
            date_keys_sorted(keys@),
            date_keys_sound(records@, nightly, keys@, records@.len() as int),
            date_keys_complete(records@, nightly, keys@, records@.len() as int),
            forall|ci: int| 0 <= ci < ki ==> (#[trigger] cols@[ci]).day == keys@[ci],
            forall|ci: int| 0 <= ci < ki ==> targets_unique((#[trigger] cols@[ci]).results@),
            forall|ci: int|
                0 <= ci < ki ==> date_results_sound(
                    records@,
                    nightly,
                    (#[trigger] cols@[ci]).day,
                    cols@[ci].results@,
                ),
            forall|ci: int|
                0 <= ci < ki ==> date_results_complete(
                    records@,
                    nightly,
                    (#[trigger] cols@[ci]).day,
                    cols@[ci].results@,
                    records@.len() as int,
                ),
        decreases keys@.len() - ki,
    {
        let results = date_results(records, nightly, &keys[ki]);
        let col = DateColumn { day: keys[ki], results };
        cols.push(col);
        ki = ki + 1;
    }
    proof {
        assert forall|i: int, j: int|
            0 <= i < j < cols@.len() implies ((#[trigger] cols@[i]).day).spec_lt(
            (#[trigger] cols@[j]).day,
        ) by {
            assert(cols@[i].day == keys@[i] && cols@[j].day == keys@[j]);
        }
        assert forall|ci: int|
            0 <= ci < cols@.len() implies some_date_rec(
            records@,
            nightly,
            records@.len() as int,
            (#[trigger] cols@[ci]).day,
        ) by {
            assert(cols@[ci].day == keys@[ci]);
            assert(some_date_rec(records@, nightly, records@.len() as int, keys@[ci]));
        }
        assert forall|ri: int|
            0 <= ri < records@.len() && (if nightly {
                is_nightly_desc(#[trigger] records@[ri]@.rust_version)
            } else {
                is_beta_desc(#[trigger] records@[ri]@.rust_version)
            }) implies date_cols_have(cols@, desc_date(records@[ri]@.rust_version)) by {
            assert(days_have(keys@, desc_date(records@[ri]@.rust_version)));
            let kj = choose|kj: int|
                0 <= kj < keys@.len() && #[trigger] keys@[kj] == desc_date(
                    records@[ri]@.rust_version,
                );
            assert((cols@[kj]).day == keys@[kj]);
        }
    }
    cols
}

/// The aggregated build matrix of one package version: one sorted
/// column list per channel.
#[derive(Debug)]
pub struct BuildMatrix {
    pub stable: Vec<StableColumn>,
    pub beta: Vec<DateColumn>,
    pub nightly: Vec<DateColumn>,
}

/// Aggregate the recorded build results into the per-channel matrix.
/// A record whose descriptor no longer classifies aborts the whole
/// aggregation with that record's classification error.
pub fn build_matrix(records: &Vec<BuildRecord>) -> (r: Result<BuildMatrix, CargoError>)
    ensures
        r is Ok <==> (forall|ri: int|
            0 <= ri < records@.len() ==> classify_ok(#[trigger] records@[ri]@.rust_version)),
        r matches Err(e) ==> exists|ri: int|
            0 <= ri < records@.len() && !classify_ok(#[trigger] records@[ri]@.rust_version) && (
            forall|j: int| 0 <= j < ri ==> classify_ok(#[trigger] records@[j]@.rust_version))
                && classify_err(records@[ri]@.rust_version, e),
        r matches Ok(m) ==> stable_matrix_ok(records@, m.stable@) && date_matrix_ok(
            records@,
            false,
            m.beta@,
        ) && date_matrix_ok(records@, true, m.nightly@),
{
    match classify_all(records) {
        Err(e) => Err(e),
        Ok(()) => {
            let stable = stable_matrix(records);
            let beta = date_matrix(records, false);
            let nightly = date_matrix(records, true);
            Ok(BuildMatrix { stable, beta, nightly })
        },
    }
}

/// One rendered matrix column: the ordering key in its canonical string
/// form and the per-target outcomes.
#[derive(Debug)]
pub struct ChannelColumn {
    pub key: String,
    pub results: Vec<TargetResult>,
}

/// The three per-channel lists of ordering keys, each sorted ascending
/// and rendered canonically.
#[derive(Debug)]
pub struct ChannelOrdering {
    pub stable: Vec<String>,
    pub beta: Vec<String>,
    pub nightly: Vec<String>,
}

/// The public build-info view of one package version: the per-channel
/// matrices keyed by rendered ordering keys, plus the channel ordering.
#[derive(Debug)]
pub struct EncodableBuildInfo {
    pub id: i32,
    pub ordering: ChannelOrdering,
    pub stable: Vec<ChannelColumn>,
    pub beta: Vec<ChannelColumn>,
    pub nightly: Vec<ChannelColumn>,
}

/// Render one date-channel column list; keys become midnight timestamps.
fn render_date_cols(cols: &Vec<DateColumn>) -> (r: (Vec<ChannelColumn>, Vec<String>))
    requires
        forall|ci: int| 0 <= ci < cols@.len() ==> (#[trigger] cols@[ci]).day.wf(),
    ensures
        r.0@.len() == cols@.len(),
        r.1@.len() == cols@.len(),
        forall|ci: int|
            0 <= ci < cols@.len() ==> (#[trigger] r.0@[ci]).key@ == datetime::time_repr(
                DateTime { date: cols@[ci].day, hour: 0, minute: 0, second: 0 },
            ) && r.0@[ci].results@ == cols@[ci].results@,
        forall|ci: int|
            0 <= ci < cols@.len() ==> (#[trigger] r.1@[ci])@ == datetime::time_repr(
                DateTime { date: cols@[ci].day, hour: 0, minute: 0, second: 0 },
            ),
{
    let mut out: Vec<ChannelColumn> = Vec::new();
    let mut ord: Vec<String> = Vec::new();
    let mut ci: usize = 0;
    while ci < cols.len()
        invariant
            0 <= ci <= cols@.len(),
            out@.len() == ci,
            ord@.len() == ci,
            forall|k: int| 0 <= k < cols@.len() ==> (#[trigger] cols@[k]).day.wf(),
            forall|k: int|
                0 <= k < ci ==> (#[trigger] out@[k]).key@ == datetime::time_repr(
                    DateTime { date: cols@[k].day, hour: 0, minute: 0, second: 0 },
                ) && out@[k].results@ == cols@[k].results@,
            forall|k: int|
                0 <= k < ci ==> (#[trigger] ord@[k])@ == datetime::time_repr(
                    DateTime { date: cols@[k].day, hour: 0, minute: 0, second: 0 },
                ),
        decreases cols@.len() - ci,
    {
        let day = cols[ci].day;
        let key = datetime::encode_time(&day.midnight());
        let mut results: Vec<TargetResult> = Vec::new();
        let mut ti: usize = 0;
        while ti < cols[ci].results.len()
            invariant
                0 <= ci < cols@.len(),
                0 <= ti <= cols@[ci as int].results@.len(),
                results@.len() == ti,
                forall|t: int|
                    0 <= t < ti ==> #[trigger] results@[t] == cols@[ci as int].results@[t],
            decreases cols@[ci as int].results@.len() - ti,
        {
            let cell = TargetResult {
                target: cols[ci].results[ti].target.clone(),
                passed: cols[ci].results[ti].passed,
            };
            proof {
                assert(cell.target@ == cols@[ci as int].results@[ti as int].target@);
            }
            results.push(cell);
            ti = ti + 1;
        }
        proof {
            assert(results@ =~= cols@[ci as int].results@);
        }
        out.push(ChannelColumn { key: key.clone(), results });
        ord.push(key);
        ci = ci + 1;
    }
    (out, ord)
}

/// Render the stable column list; keys are canonical version strings.
fn render_stable_cols(cols: &Vec<StableColumn>) -> (r: (Vec<ChannelColumn>, Vec<String>))
    ensures
        r.0@.len() == cols@.len(),
        r.1@.len() == cols@.len(),
        forall|ci: int|
            0 <= ci < cols@.len() ==> (#[trigger] r.0@[ci]).key@ == semver_num::semver_repr(
                cols@[ci].version@,
            ) && r.0@[ci].results@ == cols@[ci].results@,
        forall|ci: int|
            0 <= ci < cols@.len() ==> (#[trigger] r.1@[ci])@ == semver_num::semver_repr(
                cols@[ci].version@,
            ),
{
    let mut out: Vec<ChannelColumn> = Vec::new();
    let mut ord: Vec<String> = Vec::new();
    let mut ci: usize = 0;
    while ci < cols.len()
        invariant
            0 <= ci <= cols@.len(),
            out@.len() == ci,
            ord@.len() == ci,
            forall|k: int|
                0 <= k < ci ==> (#[trigger] out@[k]).key@ == semver_num::semver_repr(
                    cols@[k].version@,
                ) && out@[k].results@ == cols@[k].results@,
            forall|k: int|
                0 <= k < ci ==> (#[trigger] ord@[k])@ == semver_num::semver_repr(
                    cols@[k].version@,
                ),
        decreases cols@.len() - ci,
    {
        let key = cols[ci].version.to_version_string();
        let mut results: Vec<TargetResult> = Vec::new();
        let mut ti: usize = 0;
        while ti < cols[ci].results.len()
            invariant
                0 <= ci < cols@.len(),
                0 <= ti <= cols@[ci as int].results@.len(),
                results@.len() == ti,
                forall|t: int|
                    0 <= t < ti ==> #[trigger] results@[t] == cols@[ci as int].results@[t],
            decreases cols@[ci as int].results@.len() - ti,
        {
            let cell = TargetResult {
                target: cols[ci].results[ti].target.clone(),
                passed: cols[ci].results[ti].passed,
            };
            proof {
                assert(cell.target@ == cols@[ci as int].results@[ti as int].target@);
            }
            results.push(cell);
            ti = ti + 1;
        }
        proof {
            assert(results@ =~= cols@[ci as int].results@);
        }
        out.push(ChannelColumn { key: key.clone(), results });
        ord.push(key);
        ci = ci + 1;
    }
    (out, ord)
}

/// `e` renders the stable columns of `m`: same length, canonical
/// version strings as keys, the cells carried over.
pub open spec fn renders_stable_cols(e: Seq<ChannelColumn>, m: Seq<StableColumn>) -> bool {
    e.len() == m.len() && forall|ci: int|
        0 <= ci < m.len() ==> (#[trigger] e[ci]).key@ == semver_num::semver_repr(m[ci].version@)
            && e[ci].results@ == m[ci].results@
}

/// `e` renders the columns of a date channel: midnight timestamps as
/// keys, the cells carried over.
pub open spec fn renders_date_cols(e: Seq<ChannelColumn>, m: Seq<DateColumn>) -> bool {
    e.len() == m.len() && forall|ci: int|
        0 <= ci < m.len() ==> (#[trigger] e[ci]).key@ == datetime::time_repr(
            DateTime { date: m[ci].day, hour: 0, minute: 0, second: 0 },
        ) && e[ci].results@ == m[ci].results@
}

/// `o` is the ordering list of the stable columns.
pub open spec fn renders_stable_ord(o: Seq<String>, m: Seq<StableColumn>) -> bool {
    o.len() == m.len() && forall|ci: int|
        0 <= ci < m.len() ==> (#[trigger] o[ci])@ == semver_num::semver_repr(m[ci].version@)
}

/// `o` is the ordering list of a date channel's columns.
pub open spec fn renders_date_ord(o: Seq<String>, m: Seq<DateColumn>) -> bool {
    o.len() == m.len() && forall|ci: int|
        0 <= ci < m.len() ==> (#[trigger] o[ci])@ == datetime::time_repr(
            DateTime { date: m[ci].day, hour: 0, minute: 0, second: 0 },
        )
}

impl BuildMatrix {
    /// Render the matrix into the public view: stable keys in canonical
    /// version form, beta and nightly keys as midnight timestamps, each
    /// channel's ordering list mirroring its columns.
    pub fn encodable(&self, id: i32) -> (e: EncodableBuildInfo)
        requires
            forall|ci: int| 0 <= ci < self.beta@.len() ==> (#[trigger] self.beta@[ci]).day.wf(),
            forall|ci: int|
                0 <= ci < self.nightly@.len() ==> (#[trigger] self.nightly@[ci]).day.wf(),
        ensures
            e.id == id,
            renders_stable_cols(e.stable@, self.stable@),
            renders_date_cols(e.beta@, self.beta@),
            renders_date_cols(e.nightly@, self.nightly@),
            renders_stable_ord(e.ordering.stable@, self.stable@),
            renders_date_ord(e.ordering.beta@, self.beta@),
            renders_date_ord(e.ordering.nightly@, self.nightly@),
    {
        let (stable, stable_ord) = render_stable_cols(&self.stable);
        let (beta, beta_ord) = render_date_cols(&self.beta);
        let (nightly, nightly_ord) = render_date_cols(&self.nightly);
        EncodableBuildInfo {
            id,
            ordering: ChannelOrdering { stable: stable_ord, beta: beta_ord, nightly: nightly_ord },
            stable,
            beta,
            nightly,
        }
    }
}

/// The days of a verified date matrix are plausible calendar days.
pub proof fn lemma_date_matrix_days_wf(
    records: Seq<BuildRecord>,
    nightly: bool,
    cols: Seq<DateColumn>,
)
    requires
        date_matrix_ok(records, nightly, cols),
    ensures
        forall|ci: int| 0 <= ci < cols.len() ==> (#[trigger] cols[ci]).day.wf(),
{
    assert forall|ci: int| 0 <= ci < cols.len() implies (#[trigger] cols[ci]).day.wf() by {
        assert(some_date_rec(records, nightly, records.len() as int, cols[ci].day));
        let ri = choose|ri: int|
            0 <= ri < records.len() && (if nightly {
                is_nightly_desc(#[trigger] records[ri]@.rust_version)
            } else {
                is_beta_desc(#[trigger] records[ri]@.rust_version)
            }) && desc_date(records[ri]@.rust_version) == cols[ci].day;
        lemma_desc_date_wf(records[ri]@.rust_version);
    }
}

/// The full build-info view of one version: aggregate the records and
/// render the matrix, aborting with the first classification error.
pub fn build_info_view(id: i32, records: &Vec<BuildRecord>) -> (r: Result<
    EncodableBuildInfo,
    CargoError,
>)
    ensures
        r is Ok <==> (forall|ri: int|
            0 <= ri < records@.len() ==> classify_ok(#[trigger] records@[ri]@.rust_version)),
        r matches Err(e) ==> exists|ri: int|
            0 <= ri < records@.len() && !classify_ok(#[trigger] records@[ri]@.rust_version) && (
            forall|j: int| 0 <= j < ri ==> classify_ok(#[trigger] records@[j]@.rust_version))
                && classify_err(records@[ri]@.rust_version, e),
        r matches Ok(e) ==> e.id == id && (exists|
            sm: Seq<StableColumn>,
            bm: Seq<DateColumn>,
            nm: Seq<DateColumn>,
        |
            #![trigger stable_matrix_ok(records@, sm), date_matrix_ok(records@, false, bm), date_matrix_ok(records@, true, nm)]
            {
                &&& stable_matrix_ok(records@, sm)
                &&& date_matrix_ok(records@, false, bm)
                &&& date_matrix_ok(records@, true, nm)
                &&& renders_stable_cols(e.stable@, sm)
                &&& renders_date_cols(e.beta@, bm)
                &&& renders_date_cols(e.nightly@, nm)
                &&& renders_stable_ord(e.ordering.stable@, sm)
                &&& renders_date_ord(e.ordering.beta@, bm)
                &&& renders_date_ord(e.ordering.nightly@, nm)
            }),
{
    match build_matrix(records) {
        Err(e) => Err(e),
        Ok(m) => {
            proof {
                lemma_date_matrix_days_wf(records@, false, m.beta@);
                lemma_date_matrix_days_wf(records@, true, m.nightly@);
            }
            let e = m.encodable(id);
            proof {
                assert(stable_matrix_ok(records@, m.stable@) && date_matrix_ok(
                    records@,
                    false,
                    m.beta@,
                ) && date_matrix_ok(records@, true, m.nightly@));
            }
            Ok(e)
        },
    }
}

} // verus!









