use std::sync::atomic::{AtomicBool, AtomicI64, Ordering};
use std::sync::Arc;

use aurion::history::{Command, History};

#[derive(Debug)]
struct TestCommand {
    executed: Arc<AtomicBool>,
    undone: Arc<AtomicBool>,
}

impl TestCommand {
    fn new() -> Self {
        Self {
            executed: Arc::new(AtomicBool::new(false)),
            undone: Arc::new(AtomicBool::new(false)),
        }
    }
}

impl Command for TestCommand {
    fn execute(&self) -> Result<(), String> {
        self.executed.store(true, Ordering::SeqCst);
        Ok(())
    }

    fn undo(&self) -> Result<(), String> {
        self.undone.store(true, Ordering::SeqCst);
        Ok(())
    }
}

#[test]
fn test_history_operations() {
    let mut history = History::new();
    let command = Box::new(TestCommand::new());

    // Test execute
    assert!(history.execute(command).is_ok());
    assert!(history.can_undo());
    assert!(!history.can_redo());

    // Test undo
    assert!(history.undo().is_ok());
    assert!(!history.can_undo());
    assert!(history.can_redo());

    // Test redo
    assert!(history.redo().is_ok());
    assert!(history.can_undo());
    assert!(!history.can_redo());
}

/// A command that adds a fixed amount to a shared counter, and subtracts
/// it again on undo.
struct AddCommand {
    counter: Arc<AtomicI64>,
    amount: i64,
    log: Arc<std::sync::Mutex<Vec<i64>>>,
}

impl Command for AddCommand {
    fn execute(&self) -> Result<(), String> {
        self.counter.fetch_add(self.amount, Ordering::SeqCst);
        self.log.lock().unwrap().push(self.amount);
        Ok(())
    }

    fn undo(&self) -> Result<(), String> {
        self.counter.fetch_sub(self.amount, Ordering::SeqCst);
        self.log.lock().unwrap().push(-self.amount);
        Ok(())
    }
}

// N executes followed by N undos restore the observable state the first
// execute found, and redo after k undos replays the same commands in
// their original order.
#[test]
fn undo_reverses_executes_and_redo_replays() {
    let counter = Arc::new(AtomicI64::new(0));
    let log = Arc::new(std::sync::Mutex::new(Vec::new()));
    let mut history = History::new();

    for amount in [1i64, 10, 100] {
        let cmd = AddCommand { counter: counter.clone(), amount, log: log.clone() };
        history.execute(Box::new(cmd)).unwrap();
    }
    assert_eq!(counter.load(Ordering::SeqCst), 111);
    assert_eq!(*log.lock().unwrap(), vec![1, 10, 100]);

    for _ in 0..3 {
        history.undo().unwrap();
    }
    assert_eq!(counter.load(Ordering::SeqCst), 0);
    // The undos ran in reverse order of the executes.
    assert_eq!(*log.lock().unwrap(), vec![1, 10, 100, -100, -10, -1]);

    for _ in 0..3 {
        history.redo().unwrap();
    }
    assert_eq!(counter.load(Ordering::SeqCst), 111);
    // The redos replayed the original commands in their original order.
    assert_eq!(
        *log.lock().unwrap(),
        vec![1, 10, 100, -100, -10, -1, 1, 10, 100]
    );
}

// Executing max_steps + 1 commands keeps exactly max_steps entries, with
// the applied index one less than unbounded growth would have given.
#[test]
fn bounded_history_evicts_oldest() {
    let counter = Arc::new(AtomicI64::new(0));
    let log = Arc::new(std::sync::Mutex::new(Vec::new()));
    let mut history = History::with_max_steps(2);

    for amount in [1i64, 2, 4] {
        let cmd = AddCommand { counter: counter.clone(), amount, log: log.clone() };
        history.execute(Box::new(cmd)).unwrap();
    }
    assert_eq!(history.commands.len(), 2);
    assert_eq!(history.current_index, 2);
    // Only the two newest commands can be undone.
    history.undo().unwrap();
    history.undo().unwrap();
    assert!(history.undo().is_err());
    assert_eq!(counter.load(Ordering::SeqCst), 1);
}

#[test]
fn undo_and_redo_report_exhaustion() {
    let mut history = History::new();
    assert!(history.undo().is_err());
    assert!(history.redo().is_err());
}

#[test]
fn execute_after_undo_discards_redo_timeline() {
    let counter = Arc::new(AtomicI64::new(0));
    let log = Arc::new(std::sync::Mutex::new(Vec::new()));
    let mut history = History::new();
    for amount in [1i64, 2] {
        let cmd = AddCommand { counter: counter.clone(), amount, log: log.clone() };
        history.execute(Box::new(cmd)).unwrap();
    }
    history.undo().unwrap();
    let cmd = AddCommand { counter: counter.clone(), amount: 8, log: log.clone() };
    history.execute(Box::new(cmd)).unwrap();
    assert_eq!(history.commands.len(), 2);
    assert!(!history.can_redo());
    assert_eq!(counter.load(Ordering::SeqCst), 9);
}
