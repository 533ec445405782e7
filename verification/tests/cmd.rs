use spark::cmd::{Command, CommandStack};

/// A counter command: adds `n` on apply, subtracts on revert.
struct Add {
    n: i64,
}

impl Command<i64> for Add {
    fn label(&self) -> String {
        format!("add {}", self.n)
    }
    fn apply(&mut self, ctx: &mut i64) {
        *ctx += self.n;
    }
    fn revert(&mut self, ctx: &mut i64) {
        *ctx -= self.n;
    }
}

#[test]
fn undo_redo_round_trip() {
    let mut total = 0i64;
    let mut stack: CommandStack<Add> = CommandStack::new();
    stack.push(&mut total, Add { n: 5 });
    stack.push(&mut total, Add { n: 2 });
    assert_eq!(total, 7);
    assert_eq!(stack.peek_undo::<i64>(), Some("add 2".to_string()));
    assert_eq!(stack.undo(&mut total), Some("add 2".to_string()));
    assert_eq!(total, 5);
    assert!(stack.can_redo());
    assert_eq!(stack.peek_redo::<i64>(), Some("add 2".to_string()));
    assert_eq!(stack.redo(&mut total), Some("add 2".to_string()));
    assert_eq!(total, 7);
    assert!(!stack.can_redo());
}

#[test]
fn new_command_clears_redo() {
    let mut total = 0i64;
    let mut stack: CommandStack<Add> = CommandStack::new();
    for i in 0..5 {
        stack.push(&mut total, Add { n: i });
    }
    stack.undo(&mut total);
    assert!(stack.can_redo());
    stack.push(&mut total, Add { n: 100 });
    assert!(!stack.can_redo(), "new action must clear redo");
    assert_eq!(stack.redo(&mut total), None);
}

#[test]
fn history_is_bounded() {
    let mut total = 0i64;
    let mut stack: CommandStack<Add> = CommandStack::with_limit(3);
    for i in 1..=5 {
        stack.push(&mut total, Add { n: i });
    }
    assert_eq!(total, 15);
    let mut undone = 0;
    while stack.undo(&mut total).is_some() {
        undone += 1;
    }
    // Only the three newest commands can be undone.
    assert_eq!(undone, 3);
    assert_eq!(total, 3);
}

#[test]
fn empty_stack_has_nothing_to_undo() {
    let mut total = 0i64;
    let mut stack: CommandStack<Add> = CommandStack::new();
    assert!(!stack.can_undo());
    assert_eq!(stack.undo(&mut total), None);
    assert_eq!(stack.peek_undo::<i64>(), None);
    stack.push(&mut total, Add { n: 1 });
    stack.clear();
    assert!(!stack.can_undo() && !stack.can_redo());
    assert_eq!(total, 1);
}

#[test]
fn default_stack_is_empty() {
    let stack: CommandStack<Add> = CommandStack::default();
    assert!(!stack.can_undo() && !stack.can_redo());
}
