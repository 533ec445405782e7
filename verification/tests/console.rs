use spark::editor::console::{Console, CONSOLE_LIMIT};

#[test]
fn console_keeps_the_newest_lines() {
    let mut c = Console::new();
    assert_eq!(c.len(), 0);
    for i in 0..(CONSOLE_LIMIT + 1) {
        c.log("info", &format!("line {i}"));
    }
    assert_eq!(c.len(), CONSOLE_LIMIT);
    assert_eq!(c.line(0), &("info".to_string(), "line 1".to_string()));
    assert_eq!(
        c.line(CONSOLE_LIMIT - 1),
        &("info".to_string(), format!("line {CONSOLE_LIMIT}"))
    );
}
