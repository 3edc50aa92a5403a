//! The order in which processors are brought up, and the count of
//! processors that are online.
//!
//! The library decides what is done and in which order; the caller performs
//! each step on the hardware and reports back when a processor is online.

use vstd::prelude::*;

verus! {

/// A hardware initialization step, performed by the caller.
#[derive(Clone, Copy, Debug, PartialEq, Eq, Structural)]
pub enum BootStep {
    InitPerCore,
    InitSerial,
    DetectFeatures,
    ConfigureProcessor,
    InitVga,
    InitMemory,
    PrintMemoryInformation,
    InitEnvironment,
    InitGdt,
    AddCurrentCoreToGdt,
    InstallIdt,
    InitPic,
    InstallIrq,
    EnableIrq,
    DetectFrequency,
    PrintProcessorInformation,
    InitPci,
    PrintPciInformation,
    InitAcpi,
    InitApic,
    InstallTimerHandler,
    WakeApplicationProcessors,
    PrintApicInformation,
    InitX2Apic,
    InitLocalApic,
}

/// How this kernel instance was started.
#[derive(Clone, Copy, Debug, PartialEq, Eq, Structural)]
pub struct BootEnvironment {
    /// The kernel owns the hardware alone (not one of several kernels).
    pub single_kernel: bool,
    /// The kernel runs under a hypervisor that set up interrupts for it.
    pub uhyve: bool,
    /// A text display driver is built in.
    pub vga: bool,
}

/// Where kernel messages go.
#[derive(Clone, Copy, Debug, PartialEq, Eq, Structural)]
pub enum MessageSink {
    /// The serial port, and the text display where there is one.
    SerialAndDisplay,
    /// The message buffer shared with the other kernels.
    KernelMessageBuffer,
}

/// How far bring-up has come.
#[derive(Clone, Copy, Debug, PartialEq, Eq, Structural)]
pub enum BootPhase {
    Uninitialized,
    SerialReady,
    BootProcessorInitializing,
    BootProcessorOnline,
    WakingApplicationProcessors,
    AllCoresOnline,
}

#[derive(Clone, Copy, Debug, PartialEq, Eq, Structural)]
pub enum BootError {
    /// The request does not belong in the current phase.
    OutOfOrder,
    /// This processor was already counted as online.
    AlreadyOnline,
}

pub open spec fn output_init_steps(env: BootEnvironment) -> Seq<BootStep> {
    if env.single_kernel {
        seq![BootStep::InitPerCore, BootStep::InitSerial]
    } else {
        seq![BootStep::InitPerCore]
    }
}

/// The boot processor's steps, each one's result needed by the next.
pub open spec fn boot_processor_steps(env: BootEnvironment) -> Seq<BootStep> {
    seq![BootStep::DetectFeatures, BootStep::ConfigureProcessor]
        + (if env.vga && env.single_kernel && !env.uhyve { seq![BootStep::InitVga] } else { seq![] })
        + seq![
            BootStep::InitMemory,
            BootStep::PrintMemoryInformation,
            BootStep::InitEnvironment,
            BootStep::InitGdt,
            BootStep::AddCurrentCoreToGdt,
            BootStep::InstallIdt,
        ]
        + (if !env.uhyve { seq![BootStep::InitPic] } else { seq![] })
        + seq![
            BootStep::InstallIrq,
            BootStep::EnableIrq,
            BootStep::DetectFrequency,
            BootStep::PrintProcessorInformation,
        ]
        + (if env.single_kernel && !env.uhyve {
            seq![BootStep::InitPci, BootStep::PrintPciInformation, BootStep::InitAcpi]
        } else {
            seq![]
        })
        + seq![BootStep::InitApic, BootStep::InstallTimerHandler]
}

pub open spec fn wake_steps() -> Seq<BootStep> {
    seq![BootStep::WakeApplicationProcessors, BootStep::PrintApicInformation]
}

/// An application processor's steps.
pub open spec fn application_processor_steps() -> Seq<BootStep> {
    seq![
        BootStep::InitPerCore,
        BootStep::ConfigureProcessor,
        BootStep::AddCurrentCoreToGdt,
        BootStep::InstallIdt,
        BootStep::InitX2Apic,
        BootStep::InitLocalApic,
        BootStep::EnableIrq,
    ]
}

/// Where messages go: the serial port when the kernel owns the hardware,
/// the shared message buffer otherwise.
pub fn message_sink(env: BootEnvironment) -> (r: MessageSink)
    ensures
        r == (if env.single_kernel { MessageSink::SerialAndDisplay } else { MessageSink::KernelMessageBuffer }),
{
    if env.single_kernel {
        MessageSink::SerialAndDisplay
    } else {
        MessageSink::KernelMessageBuffer
    }
}

/// The processors that have finished their initialization, each counted
/// once.
pub struct CoreOnlineCounter {
    count: u32,
    cores: Vec<u32>,
}

impl CoreOnlineCounter {
    pub closed spec fn count(&self) -> nat {
        self.count as nat
    }

    /// The processors counted, in the order they came online.
    pub closed spec fn cores(&self) -> Seq<u32> {
        self.cores@
    }

    pub open spec fn wf(&self) -> bool {
        &&& self.count() == self.cores().len()
        &&& self.cores().no_duplicates()
    }

    /// No processor is online.
    pub fn new() -> (r: CoreOnlineCounter)
        ensures
            r.wf(),
            r.count() == 0,
            r.cores() == Seq::<u32>::empty(),
    {
        CoreOnlineCounter { count: 0, cores: Vec::new() }
    }

    /// How many processors are online.
    pub fn get(&self) -> (r: u32)
        ensures
            r == self.count(),
    {
        self.count
    }

    /// Whether processor `core_id` was counted.
    pub fn is_online(&self, core_id: u32) -> (r: bool)
        ensures
            r == self.cores().contains(core_id),
    {
        let mut i: usize = 0;
        while i < self.cores.len()
            invariant
                0 <= i <= self.cores@.len(),
                forall|j: int| 0 <= j < i ==> self.cores@[j] != core_id,
            decreases self.cores@.len() - i,
        {
            if self.cores[i] == core_id {
                assert(self.cores@[i as int] == core_id);
                return true;
            }
            i = i + 1;
        }
        false
    }

    /// Counts processor `core_id` as online; a processor is counted once.
    pub fn increment(&mut self, core_id: u32) -> (r: Result<(), BootError>)
        requires
            old(self).wf(),
            old(self).count() < u32::MAX,
        ensures
            final(self).wf(),
            match r {
                Ok(()) => !old(self).cores().contains(core_id)
                    && final(self).cores() == old(self).cores().push(core_id)
                    && final(self).count() == old(self).count() + 1,
                Err(e) => e == BootError::AlreadyOnline && old(self).cores().contains(core_id)
                    && final(self).cores() == old(self).cores() && final(self).count() == old(self).count(),
            },
    {
        if self.is_online(core_id) {
            return Err(BootError::AlreadyOnline);
        }
        self.count = self.count + 1;
        self.cores.push(core_id);
        proof {
            let c = self.cores@;
            assert forall|i: int, j: int| 0 <= i < c.len() && 0 <= j < c.len() && i != j implies c[i] != c[j] by {
                if i < c.len() - 1 && j < c.len() - 1 {
                    assert(c[i] == old(self).cores()[i] && c[j] == old(self).cores()[j]);
                } else if i == c.len() - 1 {
                    assert(c[j] == old(self).cores()[j]);
                } else {
                    assert(c[i] == old(self).cores()[i]);
                }
            }
        }
        Ok(())
    }
}

/// The bring-up of all processors: the current phase, the processors
/// online, and how many are expected.
pub struct BootOrchestrator {
    phase: BootPhase,
    online: CoreOnlineCounter,
    expected_cores: u32,
}

impl BootOrchestrator {
    pub closed spec fn phase(&self) -> BootPhase {
        self.phase
    }

    pub closed spec fn online(&self) -> CoreOnlineCounter {
        self.online
    }

    pub closed spec fn expected_cores(&self) -> nat {
        self.expected_cores as nat
    }

    /// No processor counts before the boot processor is done; the boot
    /// processor alone counts once it is; all expected processors count
    /// once all are online.
    pub open spec fn wf(&self) -> bool {
        &&& self.online().wf()
        &&& self.expected_cores() >= 1
        &&& self.online().count() <= self.expected_cores()
        &&& match self.phase() {
            BootPhase::Uninitialized | BootPhase::SerialReady | BootPhase::BootProcessorInitializing =>
                self.online().count() == 0,
            BootPhase::BootProcessorOnline => self.online().count() == 1,
            BootPhase::WakingApplicationProcessors => self.online().count() < self.expected_cores(),
            BootPhase::AllCoresOnline => self.online().count() == self.expected_cores(),
        }
    }

    /// Nothing is initialized yet; `expected_cores` processors will come
    /// online, the boot processor among them.
    pub fn new(expected_cores: u32) -> (r: BootOrchestrator)
        requires
            expected_cores >= 1,
        ensures
            r.wf(),
            r.phase() == BootPhase::Uninitialized,
            r.online().count() == 0,
            r.expected_cores() == expected_cores,
    {
        BootOrchestrator { phase: BootPhase::Uninitialized, online: CoreOnlineCounter::new(), expected_cores }
    }

    pub fn phase_now(&self) -> (r: BootPhase)
        ensures
            r == self.phase(),
    {
        self.phase
    }

    /// How many processors are online.
    pub fn cores_online(&self) -> (r: u32)
        ensures
            r == self.online().count(),
    {
        self.online.get()
    }
}

/// The boot processor's earliest steps: its per-core state, and the serial
/// port when the kernel owns the hardware.
pub fn message_output_init(o: &mut BootOrchestrator, env: BootEnvironment) -> (r: Result<Vec<BootStep>, BootError>)
    requires
        old(o).wf(),
    ensures
        final(o).wf(),
        final(o).online() == old(o).online(),
        final(o).expected_cores() == old(o).expected_cores(),
        match r {
            Ok(steps) => old(o).phase() == BootPhase::Uninitialized && final(o).phase() == BootPhase::SerialReady
                && steps@ == output_init_steps(env),
            Err(e) => e == BootError::OutOfOrder && old(o).phase() != BootPhase::Uninitialized
                && final(o).phase() == old(o).phase(),
        },
{
    if o.phase != BootPhase::Uninitialized {
        return Err(BootError::OutOfOrder);
    }
    let mut steps: Vec<BootStep> = Vec::new();
    steps.push(BootStep::InitPerCore);
    if env.single_kernel {
        steps.push(BootStep::InitSerial);
    }
    o.phase = BootPhase::SerialReady;
    assert(steps@ =~= output_init_steps(env));
    Ok(steps)
}

/// The boot processor's initialization, once messages can be written:
/// processor, memory, descriptor tables, interrupts, timer, in that order.
pub fn boot_processor_init(o: &mut BootOrchestrator, env: BootEnvironment) -> (r: Result<Vec<BootStep>, BootError>)
    requires
        old(o).wf(),
    ensures
        final(o).wf(),
        final(o).online() == old(o).online(),
        final(o).expected_cores() == old(o).expected_cores(),
        match r {
            Ok(steps) => old(o).phase() == BootPhase::SerialReady
                && final(o).phase() == BootPhase::BootProcessorInitializing
                && steps@ == boot_processor_steps(env),
            Err(e) => e == BootError::OutOfOrder && old(o).phase() != BootPhase::SerialReady
                && final(o).phase() == old(o).phase(),
        },
{
    if o.phase != BootPhase::SerialReady {
        return Err(BootError::OutOfOrder);
    }
    let mut steps: Vec<BootStep> = Vec::new();
    steps.push(BootStep::DetectFeatures);
    steps.push(BootStep::ConfigureProcessor);
    if env.vga && env.single_kernel && !env.uhyve {
        steps.push(BootStep::InitVga);
    }
    steps.push(BootStep::InitMemory);
    steps.push(BootStep::PrintMemoryInformation);
    steps.push(BootStep::InitEnvironment);
    steps.push(BootStep::InitGdt);
    steps.push(BootStep::AddCurrentCoreToGdt);
    steps.push(BootStep::InstallIdt);
    if !env.uhyve {
        steps.push(BootStep::InitPic);
    }
    steps.push(BootStep::InstallIrq);
    steps.push(BootStep::EnableIrq);
    steps.push(BootStep::DetectFrequency);
    steps.push(BootStep::PrintProcessorInformation);
    if env.single_kernel && !env.uhyve {
        steps.push(BootStep::InitPci);
        steps.push(BootStep::PrintPciInformation);
        steps.push(BootStep::InitAcpi);
    }
    steps.push(BootStep::InitApic);
    steps.push(BootStep::InstallTimerHandler);
    o.phase = BootPhase::BootProcessorInitializing;
    assert(steps@ =~= boot_processor_steps(env));
    Ok(steps)
}

/// Processor `core_id` has performed all its steps and counts itself
/// online: first the boot processor, then each application processor once.
pub fn processor_online(o: &mut BootOrchestrator, core_id: u32) -> (r: Result<(), BootError>)
    requires
        old(o).wf(),
    ensures
        final(o).wf(),
        final(o).expected_cores() == old(o).expected_cores(),
        match r {
            Ok(()) => (old(o).phase() == BootPhase::BootProcessorInitializing
                || old(o).phase() == BootPhase::WakingApplicationProcessors)
                && !old(o).online().cores().contains(core_id)
                && final(o).online().cores() == old(o).online().cores().push(core_id)
                && final(o).online().count() == old(o).online().count() + 1
                && final(o).phase() == (if old(o).phase() == BootPhase::BootProcessorInitializing {
                    BootPhase::BootProcessorOnline
                } else if final(o).online().count() == old(o).expected_cores() {
                    BootPhase::AllCoresOnline
                } else {
                    BootPhase::WakingApplicationProcessors
                }),
            Err(e) => final(o).phase() == old(o).phase()
                && final(o).online().cores() == old(o).online().cores()
                && final(o).online().count() == old(o).online().count()
                && ((e == BootError::OutOfOrder && old(o).phase() != BootPhase::BootProcessorInitializing
                    && old(o).phase() != BootPhase::WakingApplicationProcessors)
                || (e == BootError::AlreadyOnline && (old(o).phase() == BootPhase::BootProcessorInitializing
                    || old(o).phase() == BootPhase::WakingApplicationProcessors)
                    && old(o).online().cores().contains(core_id))),
        },
{
    if o.phase != BootPhase::BootProcessorInitializing && o.phase != BootPhase::WakingApplicationProcessors {
        return Err(BootError::OutOfOrder);
    }
    match o.online.increment(core_id) {
        Ok(()) => {},
        Err(e) => {
            return Err(e);
        },
    }
    if o.phase == BootPhase::BootProcessorInitializing {
        o.phase = BootPhase::BootProcessorOnline;
    } else if o.online.get() == o.expected_cores {
        o.phase = BootPhase::AllCoresOnline;
    }
    Ok(())
}

/// Wakes the application processors, once the boot processor is online and
/// every structure they share is set up.
pub fn boot_application_processors(o: &mut BootOrchestrator) -> (r: Result<Vec<BootStep>, BootError>)
    requires
        old(o).wf(),
    ensures
        final(o).wf(),
        final(o).online() == old(o).online(),
        final(o).expected_cores() == old(o).expected_cores(),
        match r {
            Ok(steps) => old(o).phase() == BootPhase::BootProcessorOnline && steps@ == wake_steps()
                && final(o).phase() == (if old(o).expected_cores() == 1 {
                    BootPhase::AllCoresOnline
                } else {
                    BootPhase::WakingApplicationProcessors
                }),
            Err(e) => e == BootError::OutOfOrder && old(o).phase() != BootPhase::BootProcessorOnline
                && final(o).phase() == old(o).phase(),
        },
{
    if o.phase != BootPhase::BootProcessorOnline {
        return Err(BootError::OutOfOrder);
    }
    o.phase = if o.expected_cores == 1 { BootPhase::AllCoresOnline } else { BootPhase::WakingApplicationProcessors };
    let steps = vec![BootStep::WakeApplicationProcessors, BootStep::PrintApicInformation];
    assert(steps@ =~= wake_steps());
    Ok(steps)
}

/// An application processor's initialization, while the application
/// processors are being woken.
pub fn application_processor_init(o: &BootOrchestrator) -> (r: Result<Vec<BootStep>, BootError>)
    requires
        o.wf(),
    ensures
        match r {
            Ok(steps) => o.phase() == BootPhase::WakingApplicationProcessors && steps@ == application_processor_steps(),
            Err(e) => e == BootError::OutOfOrder && o.phase() != BootPhase::WakingApplicationProcessors,
        },
{
    if o.phase != BootPhase::WakingApplicationProcessors {
        return Err(BootError::OutOfOrder);
    }
    let steps = vec![
        BootStep::InitPerCore,
        BootStep::ConfigureProcessor,
        BootStep::AddCurrentCoreToGdt,
        BootStep::InstallIdt,
        BootStep::InitX2Apic,
        BootStep::InitLocalApic,
        BootStep::EnableIrq,
    ];
    assert(steps@ =~= application_processor_steps());
    Ok(steps)
}

/// However many processors come online, and in whatever order, the count
/// is the number of distinct processors that did.
pub proof fn lemma_count_is_distinct_cores(c: &CoreOnlineCounter)
    requires
        c.wf(),
    ensures
        c.count() == c.cores().to_set().len(),
        forall|core: u32| c.cores().contains(core) <==> #[trigger] c.cores().to_set().contains(core),
{
    c.cores().unique_seq_to_set();
}

} // verus!
