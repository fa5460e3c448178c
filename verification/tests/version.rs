use grimoire::version::compare;
use std::cmp::Ordering::{Equal, Greater, Less};

#[test]
fn semver_basic() {
    assert_eq!(compare("1.95.0", "1.95.0"), Equal);
    assert_eq!(compare("1.95.0", "1.96.0"), Less);
    assert_eq!(compare("2.0.0", "1.99.99"), Greater);
}

#[test]
fn unequal_lengths() {
    assert_eq!(compare("1.95", "1.95.0"), Less);
    assert_eq!(compare("1.95.0", "1.95"), Greater);
}

#[test]
fn dotted_dates() {
    assert_eq!(compare("2025.1.2.12", "2025.1.2.13"), Less);
    assert_eq!(compare("2025.10.0", "2025.2.0"), Greater);
}

#[test]
fn pre_release_lower() {
    assert_eq!(compare("1.0.0-rc1", "1.0.0"), Less);
    assert_eq!(compare("1.0.0", "1.0.0-rc1"), Greater);
    assert_eq!(compare("1.0.0-rc1", "1.0.0-rc2"), Less);
}

#[test]
fn numeric_beats_lexical() {
    assert_eq!(compare("1.10.0", "1.9.0"), Greater); // numeric, not lex
}

#[test]
fn compare_is_reflexive_on_examples() {
    for v in ["1.0", "2025.1.2.12", "1.0.0-rc1", "", "x.y"] {
        assert_eq!(compare(v, v), Equal);
    }
}

#[test]
fn compare_flips_when_swapped() {
    let pairs = [("1.2", "1.10"), ("1.0.0-rc1", "1.0.0"), ("3", "2.9.9")];
    for (a, b) in pairs {
        assert_eq!(compare(a, b), compare(b, a).reverse());
    }
}
