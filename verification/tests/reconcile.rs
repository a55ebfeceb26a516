use cargo_registry::category::Category;
use cargo_registry::owners::OwnerSet;
use cargo_registry::owners::User;
use cargo_registry::registry::Package;
use cargo_registry::registry::Registry;
use cargo_registry::datetime::Date;
use cargo_registry::datetime::DateTime;
use cargo_registry::reconcile::reconcile;

fn t0() -> DateTime {
    DateTime { date: Date { year: 2017, month: 1, day: 25 }, hour: 0, minute: 0, second: 0 }
}

fn cat(id: i32, name: &str) -> Category {
    Category { id, category: name.to_string(), created_at: t0(), crates_cnt: 0 }
}

#[test]
fn reconcile_computes_minimal_diff() {
    // current = {A, B}, requested = {B, C}: remove A, add C
    let current = vec![1, 2];
    let requested = vec![2, 3];
    let (to_rm, to_add) = reconcile(&current, &requested);
    assert_eq!(to_rm, vec![1]);
    assert_eq!(to_add, vec![3]);
}

#[test]
fn reconcile_same_set_is_a_no_op() {
    let current = vec![1, 2, 3];
    let (to_rm, to_add) = reconcile(&current, &current);
    assert_eq!(to_rm.len(), 0);
    assert_eq!(to_add.len(), 0);
}

#[test]
fn update_crate_drops_unknown_names() {
    // current = {A, B}, requested = {B, C, unknown}: remove A, add C
    let cats = vec![cat(1, "A"), cat(2, "B"), cat(3, "C")];
    let current = vec![1, 2];
    let requested = vec!["B".to_string(), "C".to_string(), "unknown".to_string()];
    let (to_rm, to_add) = Category::update_crate(&cats, &current, &requested);
    assert_eq!(to_rm, vec![1]);
    assert_eq!(to_add, vec![3]);
}

#[test]
fn category_views_render_name_and_time() {
    let c = cat(7, "embedded");
    let e = c.encodable();
    assert_eq!(e.id, "embedded");
    assert_eq!(e.category, "embedded");
    assert_eq!(e.created_at, "2017-01-25T00:00:00Z");
    assert_eq!(e.crates_cnt, 0);

    let cats = vec![cat(1, "A"), cat(2, "B")];
    assert_eq!(Category::find_by_category(&cats, "B"), Some(1));
    assert_eq!(Category::find_by_category(&cats, "missing"), None);
}

#[test]
fn noncanonical_names_find_the_canonical_crate() {
    let mut reg = Registry::new();
    let u1 = User { id: 1, gh_id: 100, gh_login: "foo".to_string() };
    reg.users.push(u1.duplicate());
    let mut owners = OwnerSet::new();
    owners.add_user(u1).unwrap();
    reg.packages.push(Package {
        id: 10,
        name: "foo_download".to_string(),
        created_at: t0(),
        owners,
        versions: Vec::new(),
    });

    assert_eq!(reg.find_package_canonical("foo-download"), Some(0));
    assert_eq!(reg.find_package_canonical("FOO_DOWNLOAD"), Some(0));
    assert_eq!(reg.find_package_canonical("foo_download"), Some(0));
    assert_eq!(reg.find_package_canonical("other"), None);
    assert_eq!(cargo_registry::krate::canon_crate_name("Foo-Bar"), "foo_bar");
}

#[test]
fn crate_names_survive_the_file_safe_form() {
    let safe = cargo_registry::krate::file_safe_name("foo/bar");
    assert_eq!(safe, "foo~bar");
    assert_eq!(cargo_registry::krate::extract_crate_name(safe.as_str()), "foo/bar");
    assert_eq!(cargo_registry::krate::extract_crate_name("plain_name"), "plain_name");
}
