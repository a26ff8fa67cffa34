use oubre_os::interrupts::InterruptIndex;
use oubre_os::task::simple_executor::SimpleExecutor;
use oubre_os::vga_buffer::{Color, ColorCode, ScreenChar};
use oubre_os::QemuExitCode;

#[test]
fn interrupt_vectors_follow_controller_offset() {
    assert_eq!(InterruptIndex::Timer.as_u8(), 32);
    assert_eq!(InterruptIndex::Keyboard.as_u8(), 33);
    assert_eq!(InterruptIndex::Keyboard.as_usize(), 33);
}

#[test]
fn exit_codes() {
    assert_eq!(QemuExitCode::Success.code(), 0x10);
    assert_eq!(QemuExitCode::Failed.code(), 0x11);
}

#[test]
fn color_code_packs_background_high() {
    assert_eq!(ColorCode::new(Color::White, Color::LightBlue), ColorCode(0x9f));
    assert_eq!(ColorCode::new(Color::Yellow, Color::Black), ColorCode(0x0e));
    assert_eq!(Color::Pink.as_u8(), 0xd);
}

#[test]
fn screen_char_is_white_on_light_blue() {
    let c = ScreenChar::new(b'A');
    assert_eq!(c.char_to_print, b'A');
    assert_eq!(c.color_code, ColorCode(0x9f));
}

#[test]
fn executor_hands_out_tasks_in_order() {
    let mut executor: SimpleExecutor<u32> = SimpleExecutor::new();
    assert_eq!(executor.next_task(), None);
    executor.spawn(1);
    executor.spawn(2);
    executor.spawn(3);
    assert_eq!(executor.next_task(), Some(1));
    executor.spawn(1);
    assert_eq!(executor.next_task(), Some(2));
    assert_eq!(executor.next_task(), Some(3));
    assert_eq!(executor.next_task(), Some(1));
    assert_eq!(executor.next_task(), None);
}

#[test]
fn executor_requeues_only_pending_tasks() {
    let mut executor: SimpleExecutor<u32> = SimpleExecutor::new();
    executor.spawn(1);
    executor.spawn(2);
    let first = executor.next_task().unwrap();
    executor.polled(first, false);
    let second = executor.next_task().unwrap();
    executor.polled(second, true);
    assert_eq!(executor.next_task(), Some(1));
    assert_eq!(executor.next_task(), None);
}
