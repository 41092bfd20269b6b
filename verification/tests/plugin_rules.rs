use mddem::plugins::{contains_text, is_duplicate_plugin, missing_dependencies};

fn names(v: &[&str]) -> Vec<String> {
    v.iter().map(|s| s.to_string()).collect()
}

#[test]
fn substring_search() {
    assert!(contains_text("dem_atom::DemAtomPlugin", "DemAtomPlugin"));
    assert!(contains_text("abc", ""));
    assert!(contains_text("", ""));
    assert!(!contains_text("ab", "abc"));
    assert!(!contains_text("abcabd", "abe"));
    assert!(contains_text("abcabd", "abd"));
}

#[test]
fn dependencies_match_full_and_short_names() {
    let registered = names(&["dem_atom::DemAtomPlugin", "Verlet"]);
    let deps = names(&["DemAtomPlugin", "mddem_verlet::Verlet", "GranularPlugin"]);
    assert_eq!(missing_dependencies(&deps, &registered), names(&["GranularPlugin"]));
    assert!(missing_dependencies(&Vec::new(), &registered).is_empty());
    assert_eq!(missing_dependencies(&deps, &Vec::new()), deps);
}

#[test]
fn duplicates_only_for_unique_plugins() {
    let registered = names(&["a::P", "b::Q"]);
    assert!(is_duplicate_plugin(true, "b::Q", &registered));
    assert!(!is_duplicate_plugin(false, "b::Q", &registered));
    assert!(!is_duplicate_plugin(true, "Q", &registered));
}
