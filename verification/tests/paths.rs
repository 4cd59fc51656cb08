use monadicast::paths::output_components;

fn strings(parts: &[&str]) -> Vec<String> {
    parts.iter().map(|p| p.to_string()).collect()
}

#[test]
fn input_under_examples_goes_under_output() {
    assert_eq!(
        output_components(&strings(&["examples", "complex", "bfs.rs"])),
        Some(strings(&["output", "complex", "bfs.rs"]))
    );
    assert_eq!(output_components(&strings(&["examples"])), Some(strings(&["output"])));
}

#[test]
fn input_elsewhere_has_no_output() {
    assert_eq!(output_components(&strings(&[".", "examples", "a.rs"])), None);
    assert_eq!(output_components(&strings(&["src", "main.rs"])), None);
    assert_eq!(output_components(&Vec::new()), None);
}
