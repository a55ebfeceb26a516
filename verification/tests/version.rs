use cargo_registry::build_info::VersionBuildInfo;
use cargo_registry::datetime::Date;
use cargo_registry::datetime::DateTime;
use cargo_registry::owners::OwnerSet;
use cargo_registry::owners::User;
use cargo_registry::registry::Package;
use cargo_registry::registry::Registry;
use cargo_registry::semver_num::SemVer;
use cargo_registry::version::NewVersion;
use cargo_registry::version::Version;

fn t0() -> DateTime {
    DateTime { date: Date { year: 2017, month: 1, day: 25 }, hour: 0, minute: 0, second: 0 }
}

fn sv(major: u64, minor: u64, patch: u64) -> SemVer {
    SemVer { major, minor, patch, pre: String::new(), build: String::new() }
}

fn svp(major: u64, minor: u64, patch: u64, pre: &str, build: &str) -> SemVer {
    SemVer { major, minor, patch, pre: pre.to_string(), build: build.to_string() }
}

fn registry_with_crate(name: &str, version: SemVer) -> Registry {
    let mut reg = Registry::new();
    let u1 = User { id: 1, gh_id: 100, gh_login: "foo".to_string() };
    reg.users.push(u1.duplicate());
    let mut owners = OwnerSet::new();
    owners.add_user(u1).unwrap();
    let mut pkg = Package {
        id: 10,
        name: name.to_string(),
        created_at: t0(),
        owners,
        versions: Vec::new(),
    };
    let staged = NewVersion::new(10, &version, Vec::new());
    let authors: Vec<String> = Vec::new();
    staged.save(&mut pkg.versions, &authors, 100, t0()).unwrap();
    reg.packages.push(pkg);
    reg
}

#[test]
fn index() {
    let mut reg = Registry::new();
    let u1 = User { id: 1, gh_id: 100, gh_login: "foo".to_string() };
    reg.users.push(u1.duplicate());
    let mut owners = OwnerSet::new();
    owners.add_user(u1).unwrap();
    let mut pkg = Package {
        id: 10,
        name: "foo_vers_index".to_string(),
        created_at: t0(),
        owners,
        versions: Vec::new(),
    };
    let authors: Vec<String> = Vec::new();
    NewVersion::new(10, &sv(2, 0, 0), Vec::new())
        .save(&mut pkg.versions, &authors, 100, t0())
        .unwrap();
    NewVersion::new(10, &sv(2, 0, 1), Vec::new())
        .save(&mut pkg.versions, &authors, 101, t0())
        .unwrap();
    reg.packages.push(pkg);

    let no_ids: Vec<i32> = Vec::new();
    assert_eq!(reg.versions_by_ids(&no_ids).len(), 0);

    let ids = vec![100, 101];
    let views = reg.versions_by_ids(&ids);
    assert_eq!(views.len(), 2);

    // inserting the same number again is refused
    let err = NewVersion::new(10, &sv(2, 0, 0), Vec::new())
        .save(&mut reg.packages[0].versions, &authors, 102, t0())
        .unwrap_err();
    assert_eq!(err.detail(), "crate version `2.0.0` is already uploaded");
}

#[test]
fn show() {
    let reg = registry_with_crate("foo_vers_show", sv(2, 0, 0));
    let (pi, vi) = reg.find_version_by_id(100).unwrap();
    let view = reg.packages[pi].versions[vi].encodable(reg.packages[pi].name.as_str());
    assert_eq!(view.id, 100);
    assert_eq!(view.krate, "foo_vers_show");
    assert_eq!(view.num, "2.0.0");
    assert_eq!(view.dl_path, "/api/v1/crates/foo_vers_show/2.0.0/download");
    assert_eq!(view.created_at, "2017-01-25T00:00:00Z");
}

#[test]
fn authors() {
    let mut reg = registry_with_crate("foo_authors", sv(1, 0, 0));
    reg.packages[0].versions[0].add_author("zed");
    reg.packages[0].versions[0].add_author("ann");
    let rows = reg.packages[0].versions[0].author_rows();
    assert_eq!(rows.len(), 2);
    assert_eq!(rows[0].name, "ann");
    assert_eq!(rows[1].name, "zed");
}

fn record(
    reg: &mut Registry,
    name: &str,
    rust_version: &str,
    passed: bool,
) -> Result<(), cargo_registry::errors::CargoError> {
    let grants: Vec<i32> = Vec::new();
    let info = VersionBuildInfo {
        rust_version: rust_version.to_string(),
        target: "x86_64-pc-windows-gnu".to_string(),
        passed,
    };
    reg.publish_build_info(1, name, "1.0.0", &info, &grants, t0())
}

#[test]
fn publish_build_info() {
    let mut reg = registry_with_crate("publish-build-info", sv(1, 0, 0));
    record(&mut reg, "publish-build-info", "rustc 1.16.0-nightly (df8debf6d 2017-01-25)", false).unwrap();
    record(&mut reg, "publish-build-info", "rustc 1.16.0-nightly (df8debf6d 2017-01-25)", true).unwrap();
    record(&mut reg, "publish-build-info", "rustc 1.13.0 (df8debf6d 2017-01-25)", true).unwrap();
    record(&mut reg, "publish-build-info", "rustc 1.15.0-beta (df8debf6d 2017-01-20)", true).unwrap();

    let matrix = cargo_registry::build_info::build_matrix(&reg.packages[0].versions[0].build_records)
        .unwrap();
    let view = matrix.encodable(100);

    assert_eq!(view.ordering.nightly, vec!["2017-01-25T00:00:00Z".to_string()]);
    assert_eq!(view.ordering.beta, vec!["2017-01-20T00:00:00Z".to_string()]);
    assert_eq!(view.ordering.stable, vec!["1.13.0".to_string()]);

    // re-submitting the same (toolchain, target) updated the one row
    assert_eq!(view.nightly.len(), 1);
    assert_eq!(view.nightly[0].results.len(), 1);
    assert!(view.nightly[0].results[0].passed);
    assert_eq!(reg.packages[0].versions[0].build_records.len(), 3);
}

#[test]
fn bad_rust_version_publish_build_info() {
    let mut reg = registry_with_crate("bad-rust-vers", sv(1, 0, 0));

    let err = record(&mut reg, "bad-rust-vers", "rustc 1.16.0-dev (df8debf6d 2017-01-25)", true).unwrap_err();
    assert_eq!(
        err.detail(),
        "rust_version `rustc 1.16.0-dev (df8debf6d 2017-01-25)` \
         not recognized as nightly, beta, or stable"
    );

    let err = record(&mut reg, "bad-rust-vers", "1.15.0", true).unwrap_err();
    assert_eq!(
        err.detail(),
        "rust_version `1.15.0` not recognized; \
        expected format like `rustc X.Y.Z (SHA YYYY-MM-DD)`"
    );
    assert_eq!(reg.packages[0].versions[0].build_records.len(), 0);
}

#[test]
fn yank_notifies_index_exactly_once() {
    let mut reg = registry_with_crate("yank_me", sv(1, 0, 0));
    let grants: Vec<i32> = Vec::new();

    let plan = reg.yank_plan(1, "yank_me", "1.0.0", &grants, true).unwrap();
    assert!(plan.notify_index);
    reg.apply_yank(&plan, true).unwrap();
    assert!(reg.packages[0].versions[0].yanked);

    // yanking again is a no-op with no second notification
    let plan = reg.yank_plan(1, "yank_me", "1.0.0", &grants, true).unwrap();
    assert!(!plan.notify_index);
    reg.apply_yank(&plan, true).unwrap();
    assert!(reg.packages[0].versions[0].yanked);

    // a failed index notification rolls the unyank back
    let plan = reg.yank_plan(1, "yank_me", "1.0.0", &grants, false).unwrap();
    assert!(plan.notify_index);
    assert!(reg.apply_yank(&plan, false).is_err());
    assert!(reg.packages[0].versions[0].yanked);
}

#[test]
fn yank_requires_publish_rights() {
    let mut reg = registry_with_crate("guarded", sv(1, 0, 0));
    reg.users.push(User { id: 2, gh_id: 200, gh_login: "intruder".to_string() });
    let grants: Vec<i32> = Vec::new();
    let err = reg.yank_plan(2, "guarded", "1.0.0", &grants, true).unwrap_err();
    assert_eq!(err.detail(), "must already be an owner to yank or unyank");

    let err = reg.yank_plan(1, "guarded", "not-a-version", &grants, true).unwrap_err();
    assert_eq!(err.detail(), "invalid semver: not-a-version");

    let err = reg.yank_plan(1, "guarded", "2.0.0", &grants, true).unwrap_err();
    assert_eq!(err.detail(), "crate `guarded` does not have a version `2.0.0`");
}

#[test]
fn version_validity_and_max() {
    assert!(Version::valid("1.2.3"));
    assert!(Version::valid("1.2.3-beta.1"));
    assert!(!Version::valid("1.2"));
    assert!(!Version::valid("not-a-version"));

    let versions = vec![sv(1, 9, 0), sv(1, 10, 0), svp(1, 10, 0, "beta.2", "")];
    let m = Version::max(&versions);
    assert_eq!(m.to_version_string(), "1.10.0");

    let none: Vec<SemVer> = Vec::new();
    assert_eq!(Version::max(&none).to_version_string(), "0.0.0");
}

#[test]
fn versions_render_canonically() {
    let v = svp(1, 2, 3, "beta.1", "build.7");
    assert_eq!(v.to_version_string(), "1.2.3-beta.1+build.7");
    assert!(!v.is_release());
    assert!(sv(1, 2, 3).is_release());
    assert_eq!(sv(1, 2, 3).to_version_string(), "1.2.3");
}

#[test]
fn namespace_owner_can_yank_and_publish_build_info_on_subcrate() {
    // actor 1 owns `foo`; `foo/bar` has a different explicit owner
    let mut reg = registry_with_crate("foo", sv(1, 0, 0));
    let u2 = User { id: 2, gh_id: 200, gh_login: "subowner".to_string() };
    reg.users.push(u2.duplicate());
    let mut owners = OwnerSet::new();
    owners.add_user(u2).unwrap();
    let mut pkg = Package {
        id: 11,
        name: "foo/bar".to_string(),
        created_at: t0(),
        owners,
        versions: Vec::new(),
    };
    let authors: Vec<String> = Vec::new();
    NewVersion::new(11, &sv(1, 0, 0), Vec::new())
        .save(&mut pkg.versions, &authors, 200, t0())
        .unwrap();
    reg.packages.push(pkg);
    let grants: Vec<i32> = Vec::new();

    // the namespace owner may yank the subcrate's version
    let plan = reg.yank_plan(1, "foo/bar", "1.0.0", &grants, true).unwrap();
    assert!(plan.notify_index);
    reg.apply_yank(&plan, true).unwrap();
    assert!(reg.packages[1].versions[0].yanked);

    // and may record build results there
    let info = VersionBuildInfo {
        rust_version: "rustc 1.14.0 (e8a012324 2016-12-16)".to_string(),
        target: "x86_64-unknown-linux-gnu".to_string(),
        passed: true,
    };
    reg.publish_build_info(1, "foo/bar", "1.0.0", &info, &grants, t0()).unwrap();
    assert_eq!(reg.packages[1].versions[0].build_records.len(), 1);

    // the subcrate's owner gains nothing on the namespace package
    let err = reg.yank_plan(2, "foo", "1.0.0", &grants, true).unwrap_err();
    assert_eq!(err.detail(), "must already be an owner to yank or unyank");
}
