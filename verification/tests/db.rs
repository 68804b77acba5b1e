use painter::calls::callee_crate;
use painter::db::semver_fields;
use painter::db::Error;
use painter::db::SemverFields;

fn fields(major: u32, minor: u32, patch: u32, build: &str, pre: &str) -> SemverFields {
    SemverFields { major, minor, patch, build: build.to_string(), pre: pre.to_string() }
}

#[test]
fn lenient_readings() {
    assert_eq!(semver_fields("1"), Ok(fields(1, 0, 0, "", "")));
    assert_eq!(semver_fields("v1.2.3"), Ok(fields(1, 2, 3, "", "")));
    assert_eq!(semver_fields("1.2.3.Final"), Ok(fields(1, 2, 3, "Final", "")));
    assert_eq!(semver_fields("1.2.x3y4"), Ok(fields(1, 2, 0, "", "x3y4")));
}

#[test]
fn first_three_parts_where_no_lenient_reading() {
    // of the third part only the digits count
    assert_eq!(semver_fields("+1.2.3x"), Ok(fields(1, 2, 3, "", "")));
    assert_eq!(semver_fields("1.2.3_4"), Ok(fields(1, 2, 34, "", "")));
    assert_eq!(semver_fields("a.b.c"), Err(Error::InvalidSemver("a.b.c".to_string())));
    assert_eq!(semver_fields("=1.2.3"), Err(Error::InvalidSemver("=1.2.3".to_string())));
    assert_eq!(semver_fields("1..3"), Err(Error::InvalidSemver("1..3".to_string())));
}

#[test]
fn numbers_that_do_not_fit() {
    assert_eq!(semver_fields("4294967295.0.0"), Ok(fields(u32::MAX, 0, 0, "", "")));
    assert_eq!(
        semver_fields("4294967296.0.0"),
        Err(Error::InvalidSemver("4294967296.0.0".to_string()))
    );
    assert_eq!(
        semver_fields("1.2.99999999999"),
        Err(Error::InvalidSemver("1.2.99999999999".to_string()))
    );
}

#[test]
fn plain_versions() {
    assert_eq!(semver_fields("1.2.3"), Ok(fields(1, 2, 3, "", "")));
    assert_eq!(semver_fields("0.19.13"), Ok(fields(0, 19, 13, "", "")));
    assert_eq!(semver_fields("1.2.3-alpha.1+build5"), Ok(fields(1, 2, 3, "build5", "alpha.1")));
}

#[test]
fn callee_crates() {
    assert_eq!(callee_crate("mycrate::module::function"), "mycrate");
    assert_eq!(callee_crate("plain_function"), "NONE");
    assert_eq!(callee_crate("::rooted"), "");
    assert_eq!(callee_crate("a:::b"), "a");
    assert_eq!(callee_crate("a:b::c"), "a:b");
    assert_eq!(callee_crate(""), "NONE");
}

#[test]
fn invalid_version_holds_the_text() {
    assert_eq!(semver_fields(""), Err(Error::InvalidSemver(String::new())));
}
