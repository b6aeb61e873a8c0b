use fabric::kernel::process::{ProcessId, ProcessManager, Registers};
use fabric::kernel::sync::Once;

#[test]
fn process_ids_rise_from_one() {
    let mut manager = ProcessManager::new();
    assert_eq!(manager.process_count(), 0);
    assert_eq!(manager.create_process("init"), ProcessId(1));
    assert_eq!(manager.create_process("shell"), ProcessId(2));
    assert_eq!(manager.create_process("init"), ProcessId(3));
    assert_eq!(manager.process_count(), 3);
}

#[test]
fn default_registers_are_zero() {
    let registers = Registers::default();
    assert_eq!(registers.rax, 0);
    assert_eq!(registers.rip, 0);
    assert_eq!(registers.rflags, 0);
    assert_eq!(registers.ss, 0);
}

#[test]
fn once_keeps_the_first_value() {
    let mut once: Once<u32> = Once::new();
    assert_eq!(once.get(), None);
    assert_eq!(*once.call_once(|| 7), 7);
    assert_eq!(*once.call_once(|| 8), 7);
    assert_eq!(once.get(), Some(&7));
    let fresh: Once<String> = Once::default();
    assert!(fresh.get().is_none());
}
