use boat_journey::message_log::{message_lines, MessageLine};

fn strings(v: &[&str]) -> Vec<String> {
    v.iter().map(|s| s.to_string()).collect()
}

#[test]
fn repeats_are_grouped_newest_first() {
    let lines = message_lines(&strings(&["a", "b", "b", "c"]));
    assert_eq!(
        lines,
        vec![
            MessageLine { text: "c".to_string(), alpha: 255, row: 3 },
            MessageLine { text: "b (x2)".to_string(), alpha: 205, row: 2 },
            MessageLine { text: "a".to_string(), alpha: 155, row: 1 },
        ]
    );
}

#[test]
fn at_most_four_groups_are_shown() {
    let lines = message_lines(&strings(&["x", "a", "b", "c", "d", "d", "d"]));
    assert_eq!(lines.len(), 4);
    assert_eq!(lines[0].text, "d (x3)");
    assert_eq!(lines[3].text, "a");
    assert_eq!(lines[3].alpha, 105);
    assert_eq!(lines[3].row, 0);
    assert!(message_lines(&Vec::new()).is_empty());
}
