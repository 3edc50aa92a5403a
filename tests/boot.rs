use physmem::boot::{
    application_processor_init, boot_application_processors, boot_processor_init, message_output_init,
    message_sink, processor_online, BootEnvironment, BootError, BootOrchestrator, BootPhase, BootStep,
    CoreOnlineCounter, MessageSink,
};

const SINGLE: BootEnvironment = BootEnvironment { single_kernel: true, uhyve: false, vga: false };
const UHYVE: BootEnvironment = BootEnvironment { single_kernel: true, uhyve: true, vga: true };

fn booted(expected: u32) -> BootOrchestrator {
    let mut o = BootOrchestrator::new(expected);
    message_output_init(&mut o, SINGLE).unwrap();
    boot_processor_init(&mut o, SINGLE).unwrap();
    processor_online(&mut o, 0).unwrap();
    o
}

#[test]
fn output_init_starts_serial_only_when_single_kernel() {
    let mut o = BootOrchestrator::new(1);
    assert_eq!(message_output_init(&mut o, SINGLE), Ok(vec![BootStep::InitPerCore, BootStep::InitSerial]));
    assert_eq!(o.phase_now(), BootPhase::SerialReady);
    let mut o = BootOrchestrator::new(1);
    let multi = BootEnvironment { single_kernel: false, uhyve: false, vga: false };
    assert_eq!(message_output_init(&mut o, multi), Ok(vec![BootStep::InitPerCore]));
}

#[test]
fn messages_go_to_buffer_in_multi_kernel_mode() {
    assert_eq!(message_sink(SINGLE), MessageSink::SerialAndDisplay);
    let multi = BootEnvironment { single_kernel: false, uhyve: false, vga: true };
    assert_eq!(message_sink(multi), MessageSink::KernelMessageBuffer);
}

#[test]
fn boot_processor_steps_on_bare_hardware() {
    let mut o = BootOrchestrator::new(1);
    message_output_init(&mut o, SINGLE).unwrap();
    let steps = boot_processor_init(&mut o, SINGLE).unwrap();
    assert_eq!(
        steps,
        vec![
            BootStep::DetectFeatures,
            BootStep::ConfigureProcessor,
            BootStep::InitMemory,
            BootStep::PrintMemoryInformation,
            BootStep::InitEnvironment,
            BootStep::InitGdt,
            BootStep::AddCurrentCoreToGdt,
            BootStep::InstallIdt,
            BootStep::InitPic,
            BootStep::InstallIrq,
            BootStep::EnableIrq,
            BootStep::DetectFrequency,
            BootStep::PrintProcessorInformation,
            BootStep::InitPci,
            BootStep::PrintPciInformation,
            BootStep::InitAcpi,
            BootStep::InitApic,
            BootStep::InstallTimerHandler,
        ]
    );
    assert_eq!(o.phase_now(), BootPhase::BootProcessorInitializing);
}

#[test]
fn boot_processor_steps_under_hypervisor() {
    let mut o = BootOrchestrator::new(1);
    message_output_init(&mut o, UHYVE).unwrap();
    let steps = boot_processor_init(&mut o, UHYVE).unwrap();
    assert!(!steps.contains(&BootStep::InitPic));
    assert!(!steps.contains(&BootStep::InitPci));
    assert!(!steps.contains(&BootStep::InitVga));
    assert_eq!(steps.len(), 14);
}

#[test]
fn boot_processor_init_needs_output_first() {
    let mut o = BootOrchestrator::new(2);
    assert_eq!(boot_processor_init(&mut o, SINGLE), Err(BootError::OutOfOrder));
    assert_eq!(o.phase_now(), BootPhase::Uninitialized);
}

#[test]
fn application_processors_wait_for_boot_processor() {
    let mut o = BootOrchestrator::new(2);
    message_output_init(&mut o, SINGLE).unwrap();
    boot_processor_init(&mut o, SINGLE).unwrap();
    assert_eq!(boot_application_processors(&mut o), Err(BootError::OutOfOrder));
    assert_eq!(application_processor_init(&o), Err(BootError::OutOfOrder));
    processor_online(&mut o, 0).unwrap();
    assert_eq!(o.phase_now(), BootPhase::BootProcessorOnline);
    assert_eq!(
        boot_application_processors(&mut o),
        Ok(vec![BootStep::WakeApplicationProcessors, BootStep::PrintApicInformation])
    );
    assert_eq!(o.phase_now(), BootPhase::WakingApplicationProcessors);
}

#[test]
fn application_processor_steps() {
    let mut o = booted(2);
    boot_application_processors(&mut o).unwrap();
    assert_eq!(
        application_processor_init(&o),
        Ok(vec![
            BootStep::InitPerCore,
            BootStep::ConfigureProcessor,
            BootStep::AddCurrentCoreToGdt,
            BootStep::InstallIdt,
            BootStep::InitX2Apic,
            BootStep::InitLocalApic,
            BootStep::EnableIrq,
        ])
    );
}

#[test]
fn core_counter_counts_every_processor_once_in_any_order() {
    let mut o = booted(4);
    boot_application_processors(&mut o).unwrap();
    processor_online(&mut o, 3).unwrap();
    processor_online(&mut o, 1).unwrap();
    assert_eq!(processor_online(&mut o, 3), Err(BootError::AlreadyOnline));
    assert_eq!(o.cores_online(), 3);
    processor_online(&mut o, 2).unwrap();
    assert_eq!(o.cores_online(), 4);
    assert_eq!(o.phase_now(), BootPhase::AllCoresOnline);
    assert_eq!(processor_online(&mut o, 5), Err(BootError::OutOfOrder));
}

#[test]
fn single_processor_is_done_after_waking() {
    let mut o = booted(1);
    assert_eq!(o.cores_online(), 1);
    boot_application_processors(&mut o).unwrap();
    assert_eq!(o.phase_now(), BootPhase::AllCoresOnline);
}

#[test]
fn counter_refuses_double_count() {
    let mut c = CoreOnlineCounter::new();
    assert_eq!(c.increment(7), Ok(()));
    assert_eq!(c.increment(2), Ok(()));
    assert!(c.is_online(7));
    assert!(!c.is_online(3));
    assert_eq!(c.increment(7), Err(BootError::AlreadyOnline));
    assert_eq!(c.get(), 2);
}
