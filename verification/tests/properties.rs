use cosense_core::convert;

/// A list nested thousands deep converts: each line one space deeper than the
/// last nests one level further.
#[test]
fn deeply_nested_list_does_not_overflow() {
    let depth = 5000;
    let input: String = (1..=depth)
        .map(|n| format!("{}item", " ".repeat(n)))
        .collect::<Vec<_>>()
        .join("\n");

    let out = convert(&input);

    let lines: Vec<&str> = out.lines().collect();
    assert_eq!(lines.len(), depth);
    assert_eq!(lines[depth - 1], format!("{}- item", "  ".repeat(depth - 1)));
}
