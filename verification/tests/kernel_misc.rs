use kernel::boot::{free_ranges, satp_value, sub_range};
use kernel::sbi::{console_write_args, SbiError, SbiRet};
use kernel::sync::lazylock::State;
use kernel::sync::once::{
    call_once_force_step, call_once_force_takeover_step, call_once_step, wait_force_step,
    wait_step, OnceAction, Status,
};
use kernel::sync::{try_lock_outcome, LockError};

#[test]
fn sbi_error_codes() {
    assert_eq!(SbiError::from_code(0), SbiError::Success);
    assert_eq!(SbiError::from_code(-1), SbiError::Failed);
    assert_eq!(SbiError::from_code(-2), SbiError::NotSupported);
    assert_eq!(SbiError::from_code(-3), SbiError::InvalidParam);
    assert_eq!(SbiError::from_code(-4), SbiError::Denied);
    assert_eq!(SbiError::from_code(-5), SbiError::InvalidAddress);
    assert_eq!(SbiError::from_code(-6), SbiError::AlreadyAvailable);
    assert_eq!(SbiError::from_code(-7), SbiError::AlreadyStarted);
    assert_eq!(SbiError::from_code(-8), SbiError::AlreadyStopped);
    assert_eq!(SbiError::from_code(-9), SbiError::SharedMemoryNotAvailable);
    assert_eq!(SbiError::from_code(-10), SbiError::Unknown(-10));
    assert_eq!(SbiError::from_code(7), SbiError::Unknown(7));
}

#[test]
fn sbi_ret_into_result() {
    assert_eq!(SbiRet { error: 0, value: 42 }.into_result(), Ok(42));
    assert_eq!(SbiRet { error: -3, value: 42 }.into_result(), Err(SbiError::InvalidParam));
    assert_eq!(SbiRet { error: -77, value: 0 }.into_result(), Err(SbiError::Unknown(-77)));
}

#[test]
fn console_write_arguments() {
    let a = console_write_args(5, 0x8020_0000);
    assert_eq!((a.a0, a.a1, a.a2), (5, 0x8020_0000, 0));
}

#[test]
fn sub_range_cases() {
    assert_eq!(sub_range(10..20, 5..25), (None, None));
    assert_eq!(sub_range(10..20, 10..20), (None, None));
    assert_eq!(sub_range(10..20, 5..15), (Some(15..20), None));
    assert_eq!(sub_range(10..20, 12..18), (Some(10..12), Some(18..20)));
    // A piece to the right of `rhs` comes out as the overlap.
    assert_eq!(sub_range(0..10, 5..20), (Some(5..10), None));
}

#[test]
fn free_ranges_cut_out_the_kernel() {
    let regions = vec![(0x8000_0000usize, 0x0800_0000usize), (0x1_0000_0000, 0x1000)];
    let r = free_ranges(&regions, 0x8040_0000);
    assert_eq!(r, vec![0x8040_0000..0x8800_0000, 0x1_0000_0000..0x1_0000_1000]);
}

#[test]
fn free_ranges_keep_regions_without_the_heap_end() {
    let regions = vec![(0x1000usize, 0x1000usize)];
    assert_eq!(free_ranges(&regions, 0x8000_0000), vec![0x1000..0x2000]);
    assert!(free_ranges(&Vec::new(), 5).is_empty());
}

#[test]
fn satp_for_a_root_table() {
    assert_eq!(satp_value(0x8020_5000), (9 << 60) | (0xffff << 44) | 0x80205);
    assert_eq!(satp_value(0x8020_5fff), (9 << 60) | (0xffff << 44) | 0x80205);
}

#[test]
fn spin_lock_outcomes() {
    assert_eq!(try_lock_outcome(true), Err(LockError::WouldBlock));
    assert_eq!(try_lock_outcome(false), Ok(()));
}

#[test]
fn lazy_state_unwrap() {
    let s = State::Init(7u32);
    assert_eq!(*s.unwrap(), 7);
}

#[test]
fn once_status_numbers() {
    assert_eq!(Status::Uninit.as_u8(), 0);
    assert_eq!(Status::Panicked.as_u8(), 3);
    assert_eq!(Status::from_u8(2), Some(Status::Completed));
    assert_eq!(Status::from_u8(1), Some(Status::Running));
    assert_eq!(Status::from_u8(4), None);
    assert!(Status::Completed.is_completed());
    assert!(!Status::Running.is_completed());
}

#[test]
fn call_once_steps() {
    assert_eq!(call_once_step(Ok(Status::Uninit)), OnceAction::RunInit);
    assert_eq!(call_once_step(Err(Status::Running)), OnceAction::Retry);
    assert_eq!(call_once_step(Err(Status::Completed)), OnceAction::Return);
    assert_eq!(call_once_step(Err(Status::Panicked)), OnceAction::Panic);
}

#[test]
fn call_once_force_steps() {
    assert_eq!(call_once_force_step(Ok(Status::Uninit)), OnceAction::RunInit);
    assert_eq!(call_once_force_step(Err(Status::Running)), OnceAction::Retry);
    assert_eq!(call_once_force_step(Err(Status::Completed)), OnceAction::Return);
    assert_eq!(call_once_force_step(Err(Status::Panicked)), OnceAction::TakeOver);
    assert_eq!(call_once_force_takeover_step(Ok(Status::Panicked)), OnceAction::RunInit);
    assert_eq!(call_once_force_takeover_step(Err(Status::Running)), OnceAction::Retry);
    assert_eq!(call_once_force_takeover_step(Err(Status::Completed)), OnceAction::Return);
}

#[test]
fn wait_steps() {
    assert_eq!(wait_step(Status::Uninit), OnceAction::Retry);
    assert_eq!(wait_step(Status::Running), OnceAction::Retry);
    assert_eq!(wait_step(Status::Completed), OnceAction::Return);
    assert_eq!(wait_step(Status::Panicked), OnceAction::Panic);
    assert_eq!(wait_force_step(Status::Panicked), OnceAction::Retry);
    assert_eq!(wait_force_step(Status::Uninit), OnceAction::Retry);
    assert_eq!(wait_force_step(Status::Completed), OnceAction::Return);
}
