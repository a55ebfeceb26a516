//! Version records of a package: the semantic version number, the yank
//! flag, the feature map, the author rows and the recorded build
//! results, together with the public version view.
use crate::build_info::rec_views;
use crate::build_info::records_unique;
use crate::build_info::BuildRecord;
use crate::build_info::VersionBuildInfo;
use crate::build_info;
use crate::datetime::encode_time;
use crate::datetime::time_repr;
use crate::datetime::DateTime;
use crate::errors::CargoError;
use crate::semver_num::semver_repr;
use crate::semver_num::SemVer;
use crate::semver_num;
use vstd::prelude::*;
use vstd::string::StringExecFns;

verus! {

/// One entry of the feature map: a feature and the features it pulls
/// in.
#[derive(Debug)]
pub struct Feature {
    pub name: String,
    pub deps: Vec<String>,
}

/// Two feature entries carry the same name and the same dependency
/// list.
pub open spec fn feature_view_eq(a: Feature, b: Feature) -> bool {
    a.name@ == b.name@ && a.deps@.len() == b.deps@.len() && forall|i: int|
        0 <= i < a.deps@.len() ==> (#[trigger] a.deps@[i])@ == b.deps@[i]@
}

impl Feature {
    /// Copy of the entry.
    pub fn duplicate(&self) -> (r: Feature)
        ensures
            feature_view_eq(r, *self),
    {
        let mut deps: Vec<String> = Vec::new();
        let mut i: usize = 0;
        while i < self.deps.len()
            invariant
                0 <= i <= self.deps@.len(),
                deps@.len() == i,
                forall|j: int| 0 <= j < i ==> (#[trigger] deps@[j])@ == self.deps@[j]@,
            decreases self.deps@.len() - i,
        {
            deps.push(self.deps[i].clone());
            i = i + 1;
        }
        Feature { name: self.name.clone(), deps }
    }
}

/// One author row of a version.
#[derive(Debug)]
pub struct Author {
    pub name: String,
}

/// A published version of a package.
#[derive(Debug)]
pub struct Version {
    pub id: i32,
    pub crate_id: i32,
    pub num: SemVer,
    pub updated_at: DateTime,
    pub created_at: DateTime,
    pub downloads: i32,
    pub features: Vec<Feature>,
    pub yanked: bool,
    pub authors: Vec<String>,
    pub build_records: Vec<BuildRecord>,
}

impl Version {
    /// Build rows keyed uniquely, author names in ascending code point
    /// order.
    pub open spec fn wf(self) -> bool {
        &&& records_unique(rec_views(self.build_records@))
        &&& forall|i: int, j: int|
            0 <= i < j < self.authors@.len() ==> !semver_num::lex_lt(
                (#[trigger] self.authors@[j])@,
                (#[trigger] self.authors@[i])@,
            )
    }

    /// Whether a version string is a well-formed semantic version.
    pub fn valid(version: &str) -> (r: bool)
        ensures
            r == (semver_num::semver_parse(version@) is Some),
    {
        match semver_num::parse_semver(version) {
            Some(_) => true,
            None => false,
        }
    }

    /// The highest version by SemVer precedence, `0.0.0` when the list
    /// is empty.
    pub fn max(versions: &Vec<SemVer>) -> (m: SemVer)
        ensures
            versions@.len() == 0 ==> m@ == semver_num::zero_version(),
            versions@.len() > 0 ==> exists|i: int|
                0 <= i < versions@.len() && m@ == (#[trigger] versions@[i])@,
            forall|i: int|
                0 <= i < versions@.len() ==> !semver_num::precedence_lt(
                    m@,
                    (#[trigger] versions@[i])@,
                ),
    {
        semver_num::max_version(versions)
    }

    /// First index whose number equals `num`, if any.
    pub fn find_by_num(versions: &Vec<Version>, num: &SemVer) -> (r: Option<usize>)
        ensures
            r is None ==> forall|i: int|
                0 <= i < versions@.len() ==> (#[trigger] versions@[i]).num@ != num@,
            r matches Some(i) ==> 0 <= i < versions@.len() && versions@[i as int].num@ == num@ && (
            forall|j: int| 0 <= j < i ==> (#[trigger] versions@[j]).num@ != num@),
    {
        let mut i: usize = 0;
        while i < versions.len()
            invariant
                0 <= i <= versions@.len(),
                forall|j: int| 0 <= j < i ==> (#[trigger] versions@[j]).num@ != num@,
            decreases versions@.len() - i,
        {
            if versions[i].num.eq_ver(num) {
                return Some(i);
            }
            i = i + 1;
        }
        None
    }

    /// Set the yanked flag.
    pub fn yank(&mut self, yanked: bool)
        ensures
            final(self).yanked == yanked,
            final(self).id == old(self).id,
            final(self).crate_id == old(self).crate_id,
            final(self).num@ == old(self).num@,
            final(self).updated_at == old(self).updated_at,
            final(self).created_at == old(self).created_at,
            final(self).downloads == old(self).downloads,
            final(self).features@ == old(self).features@,
            final(self).authors@ == old(self).authors@,
            final(self).build_records@ == old(self).build_records@,
    {
        self.yanked = yanked;
    }

    /// Add an author row, keeping the rows in name order.
    pub fn add_author(&mut self, name: &str)
        requires
            old(self).wf(),
        ensures
            final(self).wf(),
            final(self).authors@.len() == old(self).authors@.len() + 1,
            exists|p: int|
                {
                    &&& 0 <= p <= old(self).authors@.len()
                    &&& (#[trigger] final(self).authors@[p])@ == name@
                    &&& forall|j: int|
                        0 <= j < p ==> final(self).authors@[j] == #[trigger] old(self).authors@[j]
                    &&& forall|j: int|
                        p <= j < old(self).authors@.len() ==> final(self).authors@[j + 1]
                            == #[trigger] old(self).authors@[j]
                },
            final(self).num@ == old(self).num@,
            final(self).yanked == old(self).yanked,
            final(self).build_records@ == old(self).build_records@,
    {
        let n = self.authors.len();
        let mut p: usize = 0;
        while p < n && semver_num::lex_lt_exec(self.authors[p].as_str(), name)
            invariant
                0 <= p <= n,
                old(self).wf(),
                n == self.authors@.len(),
                *self == *old(self),
                forall|j: int|
                    0 <= j < p ==> semver_num::lex_lt((#[trigger] self.authors@[j])@, name@),
            decreases n - p,
        {
            p = p + 1;
        }
        let ghost olda = self.authors@;
        self.authors.insert(p, name.to_owned());
        proof {
            let newa = self.authors@;
            assert((newa[p as int])@ == name@);
            assert(forall|j: int| 0 <= j < p ==> newa[j] == #[trigger] olda[j]);
            assert(forall|j: int| p <= j < olda.len() ==> newa[j + 1] == #[trigger] olda[j]);
            assert forall|i: int, j: int|
                0 <= i < j < newa.len() implies !semver_num::lex_lt(
                (#[trigger] newa[j])@,
                (#[trigger] newa[i])@,
            ) by {
                if i < p && j == p {
                    assert(semver_num::lex_lt((old(self).authors@[i])@, name@));
                    semver_num::lemma_lex_lt_order(olda[i]@, name@);
                } else if i < p && j > p {
                    assert(newa[j] == olda[j - 1]);
                    assert(!semver_num::lex_lt(
                        (old(self).authors@[j - 1])@,
                        (old(self).authors@[i])@,
                    ));
                } else if i == p && j > p {
                    assert(newa[j] == olda[j - 1]);
                    assert(j - 1 >= p && p < olda.len());
                    assert(!semver_num::lex_lt((old(self).authors@[p as int])@, name@));
                    if semver_num::lex_lt(olda[j - 1]@, name@) {
                        if j - 1 == p {
                        } else {
                            assert(!semver_num::lex_lt(
                                (old(self).authors@[j - 1])@,
                                (old(self).authors@[p as int])@,
                            ));
                            semver_num::lemma_lex_lt_order(olda[p as int]@, name@);
                            if olda[p as int]@ == name@ {
                            } else {
                                assert(semver_num::lex_lt(name@, olda[p as int]@));
                                semver_num::lemma_lex_lt_trans(
                                    olda[j - 1]@,
                                    name@,
                                    olda[p as int]@,
                                );
                            }
                        }
                    }
                } else if i > p {
                    assert(newa[i] == olda[i - 1] && newa[j] == olda[j - 1]);
                    assert(!semver_num::lex_lt(
                        (old(self).authors@[j - 1])@,
                        (old(self).authors@[i - 1])@,
                    ));
                }
            }
        }
    }

    /// The author rows, in name order.
    pub fn author_rows(&self) -> (r: Vec<Author>)
        ensures
            r@.len() == self.authors@.len(),
            forall|i: int| 0 <= i < r@.len() ==> (#[trigger] r@[i]).name@ == self.authors@[i]@,
    {
        let mut r: Vec<Author> = Vec::new();
        let mut i: usize = 0;
        while i < self.authors.len()
            invariant
                0 <= i <= self.authors@.len(),
                r@.len() == i,
                forall|j: int| 0 <= j < i ==> (#[trigger] r@[j]).name@ == self.authors@[j]@,
            decreases self.authors@.len() - i,
        {
            r.push(Author { name: self.authors[i].clone() });
            i = i + 1;
        }
        r
    }

    /// Record a build result on this version: verify the descriptor
    /// before any write, then upsert the (descriptor, target) row.
    pub fn store_build_info(&mut self, info: &VersionBuildInfo, now: DateTime) -> (r: Result<
        (),
        CargoError,
    >)
        requires
            old(self).wf(),
        ensures
            final(self).wf(),
            r is Ok <==> build_info::classify_ok(info.rust_version@),
            r matches Err(e) ==> build_info::classify_err(info.rust_version@, e) && final(self).build_records@ == old(self).build_records@,
            r is Ok ==> build_info::upserted(
                old(self).build_records@,
                final(self).build_records@,
                info.rust_version@,
                info.target@,
                info.passed,
                now,
            ),
            final(self).num@ == old(self).num@,
            final(self).yanked == old(self).yanked,
            final(self).authors@ == old(self).authors@,
            final(self).features@ == old(self).features@,
            final(self).id == old(self).id,
            final(self).crate_id == old(self).crate_id,
            final(self).updated_at == old(self).updated_at,
            final(self).created_at == old(self).created_at,
            final(self).downloads == old(self).downloads,
    {
        build_info::store_build_info(&mut self.build_records, info, now)
    }

    /// The public view of this version under its package's name.
    pub fn encodable(&self, crate_name: &str) -> (e: EncodableVersion)
        requires
            self.updated_at.wf(),
            self.created_at.wf(),
        ensures
            e.id == self.id,
            e.krate@ == crate_name@,
            e.num@ == semver_repr(self.num@),
            e.dl_path@ == "/api/v1/crates/"@ + crate_name@ + "/"@ + semver_repr(self.num@)
                + "/download"@,
            e.updated_at@ == time_repr(self.updated_at),
            e.created_at@ == time_repr(self.created_at),
            e.downloads == self.downloads,
            e.yanked == self.yanked,
            e.features@.len() == self.features@.len(),
            forall|i: int|
                0 <= i < self.features@.len() ==> feature_view_eq(
                    #[trigger] e.features@[i],
                    self.features@[i],
                ),
            e.links.dependencies@ == "/api/v1/crates/"@ + crate_name@ + "/"@ + semver_repr(
                self.num@,
            ) + "/dependencies"@,
            e.links.version_downloads@ == "/api/v1/crates/"@ + crate_name@ + "/"@ + semver_repr(
                self.num@,
            ) + "/downloads"@,
            e.links.authors@ == "/api/v1/crates/"@ + crate_name@ + "/"@ + semver_repr(self.num@)
                + "/authors"@,
    {
        let num = self.num.to_version_string();
        let mut base = "/api/v1/crates/".to_owned();
        base.append(crate_name);
        base.append("/");
        base.append(num.as_str());
        let mut dl_path = base.clone();
        dl_path.append("/download");
        let mut dependencies = base.clone();
        dependencies.append("/dependencies");
        let mut version_downloads = base.clone();
        version_downloads.append("/downloads");
        let mut authors_link = base.clone();
        authors_link.append("/authors");
        let mut features: Vec<Feature> = Vec::new();
        let mut i: usize = 0;
        while i < self.features.len()
            invariant
                0 <= i <= self.features@.len(),
                features@.len() == i,
                forall|j: int|
                    0 <= j < i ==> feature_view_eq(#[trigger] features@[j], self.features@[j]),
            decreases self.features@.len() - i,
        {
            features.push(self.features[i].duplicate());
            i = i + 1;
        }
        EncodableVersion {
            id: self.id,
            krate: crate_name.to_owned(),
            num,
            dl_path,
            updated_at: encode_time(&self.updated_at),
            created_at: encode_time(&self.created_at),
            downloads: self.downloads,
            features,
            yanked: self.yanked,
            links: VersionLinks { dependencies, version_downloads, authors: authors_link },
        }
    }
}

/// The public view of a version.
#[derive(Debug)]
pub struct EncodableVersion {
    pub id: i32,
    pub krate: String,
    pub num: String,
    pub dl_path: String,
    pub updated_at: String,
    pub created_at: String,
    pub downloads: i32,
    pub features: Vec<Feature>,
    pub yanked: bool,
    pub links: VersionLinks,
}

/// Follow-up links of the public version view.
#[derive(Debug)]
pub struct VersionLinks {
    pub dependencies: String,
    pub version_downloads: String,
    pub authors: String,
}

/// A version about to be inserted for a package.
#[derive(Debug)]
pub struct NewVersion {
    pub crate_id: i32,
    pub num: SemVer,
    pub features: Vec<Feature>,
}

impl NewVersion {
    /// Stage a new version row.
    pub fn new(crate_id: i32, num: &SemVer, features: Vec<Feature>) -> (r: NewVersion)
        ensures
            r.crate_id == crate_id,
            r.num@ == num@,
            r.features@ == features@,
    {
        NewVersion { crate_id, num: num.clone(), features }
    }

    /// Insert the staged version unless the package already has a
    /// version with this number; on success the new row carries the
    /// given identity and timestamps and the author rows, in order.
    pub fn save(&self, versions: &mut Vec<Version>, authors: &Vec<String>, id: i32, now: DateTime)
        -> (r: Result<(), CargoError>)
        ensures
            r is Ok <==> !(exists|i: int|
                0 <= i < old(versions)@.len() && (#[trigger] old(versions)@[i]).num@ == self.num@),
            r matches Err(e) ==> final(versions)@ == old(versions)@ && (e matches
                CargoError::DuplicateVersion(n) && n@ == semver_repr(self.num@)),
            r is Ok ==> final(versions)@.len() == old(versions)@.len() + 1 && (forall|i: int|
                0 <= i < old(versions)@.len() ==> final(versions)@[i] == #[trigger] old(versions)@[i]) && ({
                let v = final(versions)@.last();
                &&& v.id == id
                &&& v.crate_id == self.crate_id
                &&& v.num@ == self.num@
                &&& v.created_at == now
                &&& v.updated_at == now
                &&& v.downloads == 0
                &&& !v.yanked
                &&& v.features@.len() == self.features@.len()
                &&& (forall|k: int|
                    0 <= k < self.features@.len() ==> feature_view_eq(
                        #[trigger] v.features@[k],
                        self.features@[k],
                    ))
                &&& v.authors@ == authors@
                &&& v.build_records@.len() == 0
            }),
    {
        let mut i: usize = 0;
        while i < versions.len()
            invariant
                0 <= i <= versions@.len(),
                versions@ == old(versions)@,
                forall|j: int| 0 <= j < i ==> (#[trigger] versions@[j]).num@ != self.num@,
            decreases versions@.len() - i,
        {
            if versions[i].num.eq_ver(&self.num) {
                return Err(CargoError::DuplicateVersion(self.num.to_version_string()));
            }
            i = i + 1;
        }
        let mut author_rows: Vec<String> = Vec::new();
        let mut a: usize = 0;
        while a < authors.len()
            invariant
                0 <= a <= authors@.len(),
                author_rows@.len() == a,
                forall|k: int| 0 <= k < a ==> #[trigger] author_rows@[k] == authors@[k],
            decreases authors@.len() - a,
        {
            author_rows.push(authors[a].clone());
            a = a + 1;
        }
        proof {
            assert(author_rows@ =~= authors@);
        }
        let mut features: Vec<Feature> = Vec::new();
        let mut f: usize = 0;
        while f < self.features.len()
            invariant
                0 <= f <= self.features@.len(),
                features@.len() == f,
                forall|j: int|
                    0 <= j < f ==> feature_view_eq(#[trigger] features@[j], self.features@[j]),
            decreases self.features@.len() - f,
        {
            let entry = self.features[f].duplicate();
            features.push(entry);
            f = f + 1;
        }
        let v = Version {
            id,
            crate_id: self.crate_id,
            num: self.num.clone(),
            updated_at: now,
            created_at: now,
            downloads: 0,
            features,
            yanked: false,
            authors: author_rows,
            build_records: Vec::new(),
        };
        versions.push(v);
        Ok(())
    }
}

impl Version {
    /// Check well-formedness at run time.
    pub fn is_well_formed(&self) -> (r: bool)
        ensures
            r == self.wf(),
    {
        let ghost rsv = rec_views(self.build_records@);
        proof {
            assert(forall|k: int|
                0 <= k < self.build_records@.len() ==> rsv[k]
                    == #[trigger] self.build_records@[k]@);
        }
        let mut i: usize = 0;
        while i < self.build_records.len()
            invariant
                0 <= i <= self.build_records@.len(),
                rsv == rec_views(self.build_records@),
                forall|k: int|
                    0 <= k < self.build_records@.len() ==> rsv[k]
                        == #[trigger] self.build_records@[k]@,
                forall|a: int, b: int|
                    0 <= a < b < rsv.len() && a < i ==> !(#[trigger] rsv[a].rust_version
                        == #[trigger] rsv[b].rust_version && rsv[a].target == rsv[b].target),
            decreases self.build_records@.len() - i,
        {
            let mut j: usize = i + 1;
            while j < self.build_records.len()
                invariant
                    0 <= i < j <= self.build_records@.len(),
                    rsv == rec_views(self.build_records@),
                    forall|k: int|
                        0 <= k < self.build_records@.len() ==> rsv[k]
                            == #[trigger] self.build_records@[k]@,
                    forall|b: int|
                        i < b < j ==> !(rsv[i as int].rust_version == (
                        #[trigger] rsv[b]).rust_version && rsv[i as int].target
                            == rsv[b].target),
                decreases self.build_records@.len() - j,
            {
                if crate::strutil::str_eq(
                    self.build_records[i].rust_version.as_str(),
                    self.build_records[j].rust_version.as_str(),
                ) && crate::strutil::str_eq(
                    self.build_records[i].target.as_str(),
                    self.build_records[j].target.as_str(),
                ) {
                    proof {
                        assert(rsv[i as int].rust_version == rsv[j as int].rust_version
                            && rsv[i as int].target == rsv[j as int].target);
                    }
                    return false;
                }
                j = j + 1;
            }
            i = i + 1;
        }
        let mut i: usize = 0;
        while i < self.authors.len()
            invariant
                0 <= i <= self.authors@.len(),
                records_unique(rec_views(self.build_records@)),
                forall|a: int, b: int|
                    0 <= a < b < self.authors@.len() && a < i ==> !semver_num::lex_lt(
                        (#[trigger] self.authors@[b])@,
                        (#[trigger] self.authors@[a])@,
                    ),
            decreases self.authors@.len() - i,
        {
            let mut j: usize = i + 1;
            while j < self.authors.len()
                invariant
                    0 <= i < j <= self.authors@.len(),
                    records_unique(rec_views(self.build_records@)),
                    forall|b: int|
                        i < b < j ==> !semver_num::lex_lt(
                            (#[trigger] self.authors@[b])@,
                            (self.authors@[i as int])@,
                        ),
            decreases self.authors@.len() - j,
            {
                if semver_num::lex_lt_exec(self.authors[j].as_str(), self.authors[i].as_str()) {
                    return false;
                }
                j = j + 1;
            }
            i = i + 1;
        }
        true
    }
}

} // verus!

