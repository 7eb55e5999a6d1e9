use aegis_microkernel::boot::{boot_self_test, BootReport};

#[test]
fn boot_self_tests_all_pass_and_the_sandbox_is_denied_the_uart() {
    let report = boot_self_test(0x0900_0000);
    assert_eq!(
        report,
        BootReport {
            frame_allocator_ok: true,
            descriptor_ok: true,
            console_has_uart: true,
            sandbox_has_uart: false,
            rendezvous_ok: true,
            syscall_authorized: true,
            schedule_ok: true,
        }
    );
}

#[test]
fn boot_self_tests_do_not_depend_on_the_uart_address() {
    assert_eq!(boot_self_test(0), boot_self_test(0x0900_0000));
    assert_eq!(boot_self_test(u64::MAX), boot_self_test(0x0900_0000));
}
