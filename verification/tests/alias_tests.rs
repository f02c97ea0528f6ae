use git_stats::alias::{build_author_mapping, split_entry};

fn strings(items: &[&str]) -> Vec<String> {
    items.iter().map(|s| s.to_string()).collect()
}

#[test]
fn absent_identity_is_its_own_canonical_form() {
    let m = build_author_mapping(&[]);
    assert_eq!(m.len(), 0);
    assert_eq!(m.resolve("Alice"), "Alice");
    assert_eq!(m.resolve(""), "");
}

#[test]
fn mapped_identity_resolves_to_its_canonical_name() {
    let m = build_author_mapping(&strings(&["bob=Bob K.", "rob=Bob K.", "al=Alice"]));
    assert_eq!(m.len(), 3);
    assert_eq!(m.resolve("bob"), "Bob K.");
    assert_eq!(m.resolve("rob"), "Bob K.");
    assert_eq!(m.resolve("al"), "Alice");
    assert_eq!(m.resolve("Bob K."), "Bob K.");
    assert_eq!(m.resolve("Bob"), "Bob");
}

#[test]
fn entry_without_separator_is_passed_over() {
    let m = build_author_mapping(&strings(&["no separator", "bob=Bob K.", ""]));
    assert_eq!(m.len(), 1);
    assert_eq!(m.resolve("no separator"), "no separator");
    assert_eq!(m.resolve("bob"), "Bob K.");
}

#[test]
fn later_entry_replaces_earlier_one() {
    let m = build_author_mapping(&strings(&["bob=Robert", "bob=Bob K."]));
    assert_eq!(m.len(), 1);
    assert_eq!(m.resolve("bob"), "Bob K.");
}

#[test]
fn entry_is_split_at_its_first_separator() {
    assert_eq!(split_entry("a=b=c"), Some(("a".to_string(), "b=c".to_string())));
    assert_eq!(split_entry("=x"), Some(("".to_string(), "x".to_string())));
    assert_eq!(split_entry("x="), Some(("x".to_string(), "".to_string())));
    assert_eq!(split_entry("="), Some(("".to_string(), "".to_string())));
    assert_eq!(split_entry(" a = b "), Some((" a ".to_string(), " b ".to_string())));
    assert_eq!(split_entry("abc"), None);
    assert_eq!(split_entry(""), None);
}

#[test]
fn resolution_takes_one_step() {
    let m = build_author_mapping(&strings(&["a=b", "b=c"]));
    assert_eq!(m.resolve("a"), "b");
    assert_eq!(m.resolve("b"), "c");
}

#[test]
fn identities_are_the_name_and_its_aliases() {
    let m = build_author_mapping(&strings(&["bob=Bob K.", "al=Alice", "rob=Bob K."]));
    assert_eq!(m.identities_of("Bob K."), strings(&["Bob K.", "bob", "rob"]));
    assert_eq!(m.identities_of("Alice"), strings(&["Alice", "al"]));
    assert_eq!(m.identities_of("bob"), strings(&["bob"]));
    assert_eq!(m.identities_of("Carol"), strings(&["Carol"]));
}
