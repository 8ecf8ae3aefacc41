use haste_map::canonical::get_deterministic_hastemap_string;
use haste_map::types::SourceFile;

fn record(path: &str, deps: &[&str]) -> SourceFile {
    SourceFile {
        path: String::from(path),
        dependencies: deps.iter().map(|d| String::from(*d)).collect(),
    }
}

#[test]
fn one_record_line_shape() {
    let index = vec![record("src/a.js", &["y", "x"])];
    let text = get_deterministic_hastemap_string(index);
    assert_eq!(text, "src/a.js|x|y");
}

#[test]
fn record_without_dependencies_keeps_the_bar() {
    let index = vec![record("a.js", &[])];
    let text = get_deterministic_hastemap_string(index);
    assert_eq!(text, "a.js|");
}

#[test]
fn lines_are_sorted_and_joined_with_newlines() {
    let index = vec![record("b.js", &["m"]), record("a.js", &["n"])];
    let text = get_deterministic_hastemap_string(index);
    assert_eq!(text, "a.js|n\nb.js|m");
}

#[test]
fn permuting_records_keeps_the_text() {
    let one = vec![record("b.js", &["m", "k"]), record("a.js", &["n"]), record("c.js", &[])];
    let two = vec![record("c.js", &[]), record("a.js", &["n"]), record("b.js", &["m", "k"])];
    assert_eq!(
        get_deterministic_hastemap_string(one),
        get_deterministic_hastemap_string(two),
    );
}

#[test]
fn duplicate_dependencies_are_kept_when_rendering() {
    let index = vec![record("a.js", &["x", "x"])];
    let text = get_deterministic_hastemap_string(index);
    assert_eq!(text, "a.js|x|x");
}

#[test]
fn empty_index_renders_empty_text() {
    let index: Vec<SourceFile> = vec![];
    let text = get_deterministic_hastemap_string(index);
    assert_eq!(text, "");
}
