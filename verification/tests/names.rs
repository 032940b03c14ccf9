use registry_store::name::PackageName;
use registry_store::req::{Bound, Comparator, PackageReq};
use registry_store::text::{is_path_safe, place, Placement};
use registry_store::version::PackageVersion;

#[test]
fn path_safe_accepts_ordinary_names() {
    assert!(is_path_safe("biff"));
    assert!(is_path_safe("a-b_c"));
    assert!(is_path_safe("1.2.3"));
    assert!(is_path_safe(".hidden"));
    assert!(is_path_safe("a.b"));
    assert!(is_path_safe("ünï"));
}

#[test]
fn path_safe_rejects_empty_separators_and_traversal() {
    assert!(!is_path_safe(""));
    assert!(!is_path_safe("."));
    assert!(!is_path_safe(".."));
    assert!(!is_path_safe("a/b"));
    assert!(!is_path_safe("/"));
    assert!(!is_path_safe("a\\b"));
    assert!(!is_path_safe("a..b"));
    assert!(!is_path_safe("..."));
    assert!(!is_path_safe("x.."));
}

#[test]
fn name_is_built_only_from_safe_parts() {
    let name = PackageName::new("biff", "minimal").unwrap();
    assert_eq!(name.scope(), "biff");
    assert_eq!(name.name(), "minimal");
    assert!(PackageName::new("", "minimal").is_none());
    assert!(PackageName::new("biff", "").is_none());
    assert!(PackageName::new("..", "minimal").is_none());
    assert!(PackageName::new("biff", "a/b").is_none());
}

#[test]
fn name_is_written_with_a_slash() {
    let name = PackageName::new("biff", "minimal").unwrap();
    assert_eq!(name.to_text(), "biff/minimal");
}

#[test]
fn name_is_read_back_from_its_text() {
    let name = PackageName::parse("biff/minimal").unwrap();
    assert_eq!(name.scope(), "biff");
    assert_eq!(name.name(), "minimal");
    assert_eq!(name, PackageName::new("biff", "minimal").unwrap());
    let again = PackageName::parse(&name.to_text()).unwrap();
    assert!(again.same_as(&name));
}

#[test]
fn name_parse_rejects_what_is_no_name() {
    assert!(PackageName::parse("").is_none());
    assert!(PackageName::parse("biff").is_none());
    assert!(PackageName::parse("/minimal").is_none());
    assert!(PackageName::parse("biff/").is_none());
    assert!(PackageName::parse("a/b/c").is_none());
    assert!(PackageName::parse("../minimal").is_none());
    assert!(PackageName::parse("biff/.").is_none());
}

#[test]
fn same_as_compares_both_parts() {
    let a = PackageName::new("biff", "minimal").unwrap();
    assert!(a.same_as(&a.clone()));
    assert!(!a.same_as(&PackageName::new("biff", "other").unwrap()));
    assert!(!a.same_as(&PackageName::new("other", "minimal").unwrap()));
}

#[test]
fn version_is_written_as_three_numbers() {
    assert_eq!(PackageVersion::new(1, 2, 3).to_text(), "1.2.3");
    assert_eq!(PackageVersion::new(0, 0, 0).to_text(), "0.0.0");
    assert_eq!(PackageVersion::new(10, 200, 3000).to_text(), "10.200.3000");
    assert_eq!(
        PackageVersion::new(u64::MAX, 0, 9).to_text(),
        "18446744073709551615.0.9"
    );
}

#[test]
fn version_is_read_back_from_its_text() {
    assert_eq!(PackageVersion::parse("1.2.3"), Some(PackageVersion::new(1, 2, 3)));
    assert_eq!(PackageVersion::parse("0.0.0"), Some(PackageVersion::new(0, 0, 0)));
    assert_eq!(
        PackageVersion::parse("18446744073709551615.10.0"),
        Some(PackageVersion::new(u64::MAX, 10, 0))
    );
    let v = PackageVersion::new(7, 80, 900);
    assert_eq!(PackageVersion::parse(&v.to_text()), Some(v));
}

#[test]
fn version_parse_rejects_what_is_no_version() {
    assert_eq!(PackageVersion::parse(""), None);
    assert_eq!(PackageVersion::parse("1"), None);
    assert_eq!(PackageVersion::parse("1.2"), None);
    assert_eq!(PackageVersion::parse("1.2.3.4"), None);
    assert_eq!(PackageVersion::parse("1.2."), None);
    assert_eq!(PackageVersion::parse(".1.2"), None);
    assert_eq!(PackageVersion::parse("1..2"), None);
    assert_eq!(PackageVersion::parse("01.2.3"), None);
    assert_eq!(PackageVersion::parse("1.02.3"), None);
    assert_eq!(PackageVersion::parse("1.2.00"), None);
    assert_eq!(PackageVersion::parse("a.b.c"), None);
    assert_eq!(PackageVersion::parse("1.2.3 "), None);
    assert_eq!(PackageVersion::parse("-1.2.3"), None);
    assert_eq!(PackageVersion::parse("18446744073709551616.0.0"), None);
    assert_eq!(PackageVersion::parse("1.99999999999999999999999.0"), None);
}

#[test]
fn versions_are_ordered_from_the_major_number_down() {
    let v = |a, b, c| PackageVersion::new(a, b, c);
    assert!(v(1, 0, 0).is_before(&v(2, 0, 0)));
    assert!(v(1, 9, 9).is_before(&v(2, 0, 0)));
    assert!(v(1, 2, 0).is_before(&v(1, 3, 0)));
    assert!(v(1, 2, 3).is_before(&v(1, 2, 4)));
    assert!(!v(1, 2, 3).is_before(&v(1, 2, 3)));
    assert!(!v(2, 0, 0).is_before(&v(1, 9, 9)));
    assert!(!v(1, 3, 0).is_before(&v(1, 2, 9)));
}

#[test]
fn each_bound_admits_the_right_versions() {
    let v = |a, b, c| PackageVersion::new(a, b, c);
    let at = v(1, 2, 0);
    let below = v(1, 1, 9);
    let above = v(1, 2, 1);
    let met = |bound, version: &PackageVersion| Comparator::new(bound, at).is_met_by(version);
    assert!(met(Bound::Exact, &at) && !met(Bound::Exact, &below) && !met(Bound::Exact, &above));
    assert!(!met(Bound::Greater, &at) && !met(Bound::Greater, &below) && met(Bound::Greater, &above));
    assert!(met(Bound::GreaterEq, &at) && !met(Bound::GreaterEq, &below) && met(Bound::GreaterEq, &above));
    assert!(!met(Bound::Less, &at) && met(Bound::Less, &below) && !met(Bound::Less, &above));
    assert!(met(Bound::LessEq, &at) && met(Bound::LessEq, &below) && !met(Bound::LessEq, &above));
}

#[test]
fn request_matches_name_and_every_bound() {
    let name = PackageName::new("biff", "minimal").unwrap();
    let other = PackageName::new("biff", "other").unwrap();
    let req = PackageReq::new(
        name.clone(),
        vec![
            Comparator::new(Bound::GreaterEq, PackageVersion::new(1, 0, 0)),
            Comparator::new(Bound::Less, PackageVersion::new(2, 0, 0)),
        ],
    );
    assert!(req.name().same_as(&name));
    assert!(req.matches(&name, &PackageVersion::new(1, 0, 0)));
    assert!(req.matches(&name, &PackageVersion::new(1, 99, 99)));
    assert!(!req.matches(&name, &PackageVersion::new(2, 0, 0)));
    assert!(!req.matches(&name, &PackageVersion::new(0, 9, 9)));
    assert!(!req.matches(&other, &PackageVersion::new(1, 0, 0)));
    let any = PackageReq::new(name.clone(), vec![]);
    assert!(any.matches(&name, &PackageVersion::new(0, 0, 0)));
    assert!(!any.matches(&other, &PackageVersion::new(0, 0, 0)));
}

#[test]
fn names_are_placed_in_the_order_of_the_dictionary() {
    assert_eq!(place("a", "b"), Placement::Before);
    assert_eq!(place("b", "a"), Placement::After);
    assert_eq!(place("abc", "abc"), Placement::Same);
    assert_eq!(place("", ""), Placement::Same);
    assert_eq!(place("", "a"), Placement::Before);
    assert_eq!(place("a", ""), Placement::After);
    assert_eq!(place("ab", "abc"), Placement::Before);
    assert_eq!(place("abd", "abc"), Placement::After);
    assert_eq!(place("Z", "a"), Placement::Before);
    assert_eq!(place("z", "é"), Placement::Before);
    let mut names = vec!["b", "", "abc", "ab", "é", "Z", "a"];
    names.sort();
    for pair in names.windows(2) {
        assert_eq!(place(pair[0], pair[1]), Placement::Before);
    }
}
