use builder_core::ident::{is_valid_part, IdentError, PackageIdent};
use builder_core::record::{PackageRecord, RecordError};
use builder_core::target::PackageTarget;
use builder_core::text::{chars_less, chars_of, hash_char, hash_text, same_text};
use builder_core::version::{compare_version_chars, compare_version_text, Comparison};

fn id(origin: &str, name: &str, version: Option<&str>, release: Option<&str>) -> PackageIdent {
    PackageIdent {
        origin: origin.to_string(),
        name: name.to_string(),
        version: version.map(|v| v.to_string()),
        release: release.map(|r| r.to_string()),
    }
}

#[test]
fn parse_reads_two_three_and_four_fields() {
    assert_eq!(PackageIdent::parse("core/glibc"), Ok(id("core", "glibc", None, None)));
    assert_eq!(PackageIdent::parse("core/glibc/2.22"), Ok(id("core", "glibc", Some("2.22"), None)));
    assert_eq!(
        PackageIdent::parse("core/glibc/2.22/20160310192356"),
        Ok(id("core", "glibc", Some("2.22"), Some("20160310192356")))
    );
    assert_eq!(PackageIdent::parse("çore/näme"), Ok(id("çore", "näme", None, None)));
}

#[test]
fn parse_refuses_what_is_no_identifier() {
    assert_eq!(PackageIdent::parse(""), Err(IdentError::MissingField));
    assert_eq!(PackageIdent::parse("core"), Err(IdentError::MissingField));
    assert_eq!(PackageIdent::parse("a/b/c/d/e"), Err(IdentError::TooManyFields));
    assert_eq!(PackageIdent::parse("a/b/c/d/"), Err(IdentError::TooManyFields));
    assert_eq!(PackageIdent::parse("////"), Err(IdentError::TooManyFields));
    assert_eq!(PackageIdent::parse("core/"), Err(IdentError::EmptyField));
    assert_eq!(PackageIdent::parse("/glibc"), Err(IdentError::EmptyField));
    assert_eq!(PackageIdent::parse("core//2.22"), Err(IdentError::EmptyField));
    assert_eq!(PackageIdent::parse("core/glibc/2.22/"), Err(IdentError::EmptyField));
    assert_eq!(PackageIdent::parse("/"), Err(IdentError::EmptyField));
}

#[test]
fn render_is_read_back_by_parse() {
    for text in ["core/glibc", "core/glibc/2.22", "core/glibc/2.22/20160310192356"] {
        let ident = PackageIdent::parse(text).unwrap();
        assert_eq!(ident.render(), text);
        assert_eq!(PackageIdent::parse(&ident.render()), Ok(ident));
    }
    assert_eq!(id("a", "b", None, Some("r")).render(), "a/b");
}

#[test]
fn validity_of_identifiers() {
    assert!(id("core", "glibc", None, None).is_valid());
    assert!(id("core", "glibc", Some("1"), Some("2")).is_valid());
    assert!(!id("", "glibc", None, None).is_valid());
    assert!(!id("core", "", None, None).is_valid());
    assert!(!id("co/re", "glibc", None, None).is_valid());
    assert!(!id("core", "glibc", Some(""), None).is_valid());
    assert!(!id("core", "glibc", Some("1"), Some("a/b")).is_valid());
    assert!(!id("core", "glibc", None, Some("2")).is_valid());
    assert!(is_valid_part("x"));
    assert!(!is_valid_part(""));
    assert!(!is_valid_part("/"));
    assert!(id("core", "glibc", Some("1"), Some("2")).is_fully_qualified());
    assert!(!id("core", "glibc", Some("1"), None).is_fully_qualified());
}

#[test]
fn same_package_looks_at_origin_and_name_only() {
    let a = id("core", "glibc", Some("1.0"), Some("1"));
    let b = id("core", "glibc", Some("2.0"), Some("2"));
    let c = id("core", "musl", Some("1.0"), Some("1"));
    let d = id("acme", "glibc", Some("1.0"), Some("1"));
    assert!(a.same_package(&b));
    assert!(!a.same_package(&c));
    assert!(!a.same_package(&d));
    assert!(a.same_concrete(&a.clone()));
    assert!(!a.same_concrete(&b));
    assert!(!a.same_concrete(&id("core", "glibc", Some("1.0"), None)));
    assert_eq!(a.clone(), a);
}

#[test]
fn identifiers_are_ordered_field_by_field() {
    let base = id("core", "glibc", Some("1.10"), Some("2020"));
    assert_eq!(base.compare(&base.clone()), Comparison::Equal);
    assert_eq!(id("acme", "zzz", None, None).compare(&base), Comparison::Less);
    assert_eq!(id("core", "musl", None, None).compare(&base), Comparison::Greater);
    assert_eq!(id("core", "glibc", Some("1.9"), Some("2021")).compare(&base), Comparison::Less);
    assert_eq!(base.compare(&id("core", "glibc", Some("1.9"), Some("2021"))), Comparison::Greater);
    assert_eq!(id("core", "glibc", None, None).compare(&base), Comparison::Less);
    assert_eq!(id("core", "glibc", Some("1.10"), None).compare(&base), Comparison::Less);
    assert_eq!(id("core", "glibc", Some("1.10"), Some("2019")).compare(&base), Comparison::Less);
    assert_eq!(id("core", "glibc", Some("1.10"), Some("2021")).compare(&base), Comparison::Greater);
    assert_eq!(id("core", "glibc", Some("01.010"), Some("2020")).compare(&base), Comparison::Equal);
}

#[test]
fn versions_compare_runs_of_digits_as_numbers() {
    let cases = [
        ("1.0", "2.0", Comparison::Less),
        ("2.0", "1.0", Comparison::Greater),
        ("1.9", "1.10", Comparison::Less),
        ("1.10", "1.9", Comparison::Greater),
        ("1.0", "1.0", Comparison::Equal),
        ("1.0", "1.0.1", Comparison::Less),
        ("1.0.1", "1.0", Comparison::Greater),
        ("1.01", "1.1", Comparison::Equal),
        ("007", "7", Comparison::Equal),
        ("0", "000", Comparison::Equal),
        ("", "", Comparison::Equal),
        ("", "0", Comparison::Less),
        ("1", "", Comparison::Greater),
        ("10", "9", Comparison::Greater),
        ("99999999999999999999999999", "100000000000000000000000000", Comparison::Less),
        ("18446744073709551616", "18446744073709551615", Comparison::Greater),
        ("1.2.3-beta", "1.2.3-alpha", Comparison::Greater),
        ("1.2.3-rc2", "1.2.3-rc10", Comparison::Less),
        ("1.2.3", "1.2.3-rc1", Comparison::Less),
        ("a", "1", Comparison::Greater),
        ("1a", "1b", Comparison::Less),
        ("1.a", "1.1", Comparison::Greater),
        ("2019.01.02", "2019.1.10", Comparison::Less),
    ];
    for (a, b, expected) in cases {
        assert_eq!(compare_version_text(a, b), expected, "{} against {}", a, b);
        assert_eq!(compare_version_chars(&chars_of(a), &chars_of(b)), expected);
    }
}

#[test]
fn text_helpers() {
    assert!(same_text("abc", "abc"));
    assert!(!same_text("abc", "abd"));
    assert!(!same_text("abc", "ab"));
    assert_eq!(chars_of("héllo"), vec!['h', 'é', 'l', 'l', 'o']);
    assert!(chars_of("").is_empty());
    let less = |a: &str, b: &str| chars_less(&chars_of(a), &chars_of(b));
    assert!(less("a", "b"));
    assert!(less("", "a"));
    assert!(less("ab", "abc"));
    assert!(less("Z", "a"));
    assert!(less("core", "core-plans"));
    assert!(!less("b", "a"));
    assert!(!less("a", "a"));
    assert!(!less("", ""));
    assert!(!less("abc", "ab"));
    assert!(less("z", "é"));
}

#[test]
fn records_are_checked_as_a_whole() {
    let good = PackageRecord {
        target: "x86_64-linux-kernel2".to_string(),
        ident: id("core", "a", Some("1"), Some("2")),
        deps: vec![id("core", "b", None, None)],
        build_deps: vec![id("core", "c", Some("3"), None)],
    };
    assert_eq!(good.validate(), Ok(PackageTarget::X8664LinuxKernel2));

    let mut bad = good.clone();
    bad.target = "linux".to_string();
    bad.ident.origin = String::new();
    assert_eq!(bad.validate(), Err(RecordError::UnknownTarget));

    let mut bad = good.clone();
    bad.ident.origin = String::new();
    bad.ident.release = None;
    assert_eq!(bad.validate(), Err(RecordError::InvalidIdent));

    let mut bad = good.clone();
    bad.ident.version = None;
    bad.ident.release = None;
    bad.deps.push(id("", "", None, None));
    assert_eq!(bad.validate(), Err(RecordError::UnqualifiedIdent));

    let mut bad = good.clone();
    bad.deps.push(id("core", "with/slash", None, None));
    assert_eq!(bad.validate(), Err(RecordError::InvalidDependency));

    let mut bad = good.clone();
    bad.build_deps.push(id("core", "x", None, Some("1")));
    assert_eq!(bad.validate(), Err(RecordError::InvalidDependency));
}

#[test]
fn text_hash_is_thirty_one_times_plus_code_point() {
    assert_eq!(hash_text(0, ""), 0);
    assert_eq!(hash_text(5, ""), 5);
    assert_eq!(hash_char(0, 'a'), 97);
    assert_eq!(hash_char(2, '/'), 2 * 31 + 47);
    assert_eq!(hash_text(0, "ab"), 97 * 31 + 98);
    assert_eq!(hash_text(1, "ab"), (31 + 97) * 31 + 98);
    assert_eq!(hash_char(u64::MAX, 'a'), u64::MAX.wrapping_mul(31).wrapping_add(97));
    assert_eq!(hash_char(1 << 63, '\u{10FFFF}'), (1u64 << 63).wrapping_mul(31).wrapping_add(0x10FFFF));
    assert_ne!(hash_text(0, "core/glibc"), hash_text(0, "core/glibd"));
}

#[test]
fn a_cloned_record_equals_its_source() {
    let record = PackageRecord {
        target: "x86_64-linux".to_string(),
        ident: id("core", "a", Some("1"), Some("2")),
        deps: vec![id("core", "b", None, None), id("core", "c", Some("3"), None)],
        build_deps: vec![id("core", "d", None, None)],
    };
    let copy = record.clone();
    assert_eq!(copy, record);
    assert_eq!(copy.deps.len(), 2);
    assert_eq!(copy.build_deps[0], id("core", "d", None, None));
}
