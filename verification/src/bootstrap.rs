//! Bootstrap of the Bluetooth backend on Android.
//!
//! Before its first use the backend must be given the Java virtual machine,
//! exactly once; a second time it panics. The machine and the application
//! context are registered with the process by the host, either for its own
//! purposes or through `NativeBle.initialise(context)`. Other platforms need
//! none of this.

use vstd::prelude::*;
use vstd::string::StringExecFns;

verus! {

/// What the process runs on.
#[derive(Clone, Copy, PartialEq, Eq, Structural)]
pub enum Platform {
    Android,
    Other,
}

/// What the host has registered: the addresses of the virtual machine and of
/// the application context; zero stands for a null pointer.
#[derive(Clone, Copy, PartialEq, Eq, Structural)]
pub struct HostContext {
    pub vm: usize,
    pub context: usize,
}

/// How far the one initialisation of the backend has come.
#[derive(Clone, Copy, PartialEq, Eq, Structural)]
pub enum InitStage {
    NotStarted,
    /// Begun and not ended. Where the backend panicked it stays so for good.
    Running,
    Done,
}

/// What is left to do for the caller.
#[derive(Clone, Copy, PartialEq, Eq, Structural)]
pub enum Init {
    /// Nothing: the backend can be used.
    Ready,
    /// To hand the virtual machine at this address to the backend, and then to
    /// report [`init_completed`].
    InitJvm { vm: usize },
}

/// Why the backend cannot be initialised.
pub open spec fn not_registered() -> Seq<char> {
    "ndk_context not set — call NativeBle.initialise(context) once at app startup"@
}

/// Whether the host has registered what the backend needs.
pub open spec fn is_registered(host: Option<HostContext>) -> bool {
    host matches Some(h) && h.vm != 0 && h.context != 0
}

/// Whether the host has registered what the backend needs.
pub fn host_is_registered(host: Option<HostContext>) -> (b: bool)
    ensures
        b == is_registered(host),
{
    match host {
        Some(h) => h.vm != 0 && h.context != 0,
        None => false,
    }
}

/// What comes of a call of [`ensure_initialised`].
pub enum Answer {
    /// The host has not registered what the backend needs.
    Refused,
    /// The one initialisation has begun and not ended. A caller waits for its
    /// end; where the backend panicked there is none, and the caller panics.
    Stuck,
    Granted(Init),
}

pub open spec fn answer_of(
    stage: InitStage,
    platform: Platform,
    host: Option<HostContext>,
) -> Answer {
    if platform == Platform::Other {
        Answer::Granted(Init::Ready)
    } else if !is_registered(host) {
        Answer::Refused
    } else {
        match stage {
            InitStage::NotStarted => Answer::Granted(Init::InitJvm { vm: host->Some_0.vm }),
            InitStage::Running => Answer::Stuck,
            InitStage::Done => Answer::Granted(Init::Ready),
        }
    }
}

/// The stage after that.
pub open spec fn stage_after(
    stage: InitStage,
    platform: Platform,
    host: Option<HostContext>,
) -> InitStage {
    if answer_of(stage, platform, host) matches Answer::Granted(Init::InitJvm { .. }) {
        InitStage::Running
    } else {
        stage
    }
}

/// Whether a call of [`ensure_initialised`] cannot be answered, because the
/// one initialisation has begun and not ended.
pub fn is_stuck(stage: InitStage, platform: Platform, host: Option<HostContext>) -> (b: bool)
    ensures
        b == (answer_of(stage, platform, host) is Stuck),
{
    match (platform, stage) {
        (Platform::Android, InitStage::Running) => host_is_registered(host),
        _ => false,
    }
}

/// Sees to it that the backend is initialised, from whatever the host has
/// registered. An error, and nothing done, if that is not enough. On Android
/// [`Init::Ready`] means that the one initialisation has been completed.
pub fn ensure_initialised(
    stage: &mut InitStage,
    platform: Platform,
    host: Option<HostContext>,
) -> (init: Result<Init, String>)
    requires
        answer_of(*old(stage), platform, host) !is Stuck,
    ensures
        match init {
            Ok(i) => answer_of(*old(stage), platform, host) == Answer::Granted(i),
            Err(reason) => {
                &&& answer_of(*old(stage), platform, host) is Refused
                &&& reason@ == not_registered()
                &&& reason@
                    == "ndk_context not set — call NativeBle.initialise(context) once at app startup"@
            },
        },
        *final(stage) == stage_after(*old(stage), platform, host),
        platform == Platform::Android && init == Ok::<Init, String>(Init::Ready) ==> *old(stage)
            == InitStage::Done,
{
    if let Platform::Other = platform {
        return Ok(Init::Ready);
    }
    if !host_is_registered(host) {
        return Err(
            "ndk_context not set — call NativeBle.initialise(context) once at app startup".to_owned(),
        );
    }
    let vm: usize = host.unwrap().vm;
    match *stage {
        InitStage::NotStarted => {
            *stage = InitStage::Running;
            Ok(Init::InitJvm { vm })
        },
        _ => Ok(Init::Ready),
    }
}

/// Records that the backend took the virtual machine, and gives the line to log.
pub fn init_completed(stage: &mut InitStage) -> (line: String)
    requires
        *old(stage) == InitStage::Running,
    ensures
        *final(stage) == InitStage::Done,
        line@ == "blew JNI initialised"@,
{
    *stage = InitStage::Done;
    "blew JNI initialised".to_owned()
}

/// Something that happens to the stage: a call of [`ensure_initialised`], or
/// the end of an initialisation. Calls come one after the other, however many
/// threads make them.
pub enum Happening {
    Call { platform: Platform, host: Option<HostContext> },
    Completed,
}

/// The stage after all of `happenings`.
pub open spec fn stage_at(happenings: Seq<Happening>) -> InitStage
    decreases happenings.len(),
{
    if happenings.len() == 0 {
        InitStage::NotStarted
    } else {
        let before = stage_at(happenings.drop_last());
        match happenings.last() {
            Happening::Call { platform, host } => stage_after(before, platform, host),
            Happening::Completed => if before == InitStage::Running {
                InitStage::Done
            } else {
                before
            },
        }
    }
}

/// The virtual machines that callers were told to hand to the backend.
pub open spec fn handed_over(happenings: Seq<Happening>) -> Seq<usize>
    decreases happenings.len(),
{
    if happenings.len() == 0 {
        Seq::empty()
    } else {
        let earlier = handed_over(happenings.drop_last());
        match happenings.last() {
            Happening::Call { platform, host } => match answer_of(
                stage_at(happenings.drop_last()),
                platform,
                host,
            ) {
                Answer::Granted(Init::InitJvm { vm }) => earlier.push(vm),
                _ => earlier,
            },
            Happening::Completed => earlier,
        }
    }
}

/// How often an initialisation was completed, and the line about it logged.
pub open spec fn completions(happenings: Seq<Happening>) -> nat
    decreases happenings.len(),
{
    if happenings.len() == 0 {
        0
    } else {
        let earlier = completions(happenings.drop_last());
        if happenings.last() is Completed && stage_at(happenings.drop_last())
            == InitStage::Running {
            earlier + 1
        } else {
            earlier
        }
    }
}

/// However often and from wherever initialisation is asked for, the virtual
/// machine is handed over at most once, and the line about it logged at most
/// once, after that.
pub proof fn law_jvm_is_initialised_at_most_once(happenings: Seq<Happening>)
    ensures
        handed_over(happenings).len() == 0 <==> stage_at(happenings) == InitStage::NotStarted,
        handed_over(happenings).len() <= 1,
        completions(happenings) == 1 <==> stage_at(happenings) == InitStage::Done,
        completions(happenings) <= handed_over(happenings).len(),
    decreases happenings.len(),
{
    if happenings.len() > 0 {
        law_jvm_is_initialised_at_most_once(happenings.drop_last());
    }
}

/// Nobody is told that the backend is ready before the one initialisation has
/// been completed: where a call on Android finds it ready, the virtual machine
/// was handed over once, and the backend has taken it since.
pub proof fn law_ready_means_completed(happenings: Seq<Happening>, host: Option<HostContext>)
    requires
        answer_of(stage_at(happenings), Platform::Android, host) == Answer::Granted(Init::Ready),
    ensures
        handed_over(happenings).len() == 1,
        completions(happenings) == 1,
        exists|i: int|
            0 <= i < happenings.len() && (#[trigger] happenings[i]) is Completed && handed_over(
                happenings.take(i),
            ).len() == 1,
{
    law_jvm_is_initialised_at_most_once(happenings);
    lemma_completed_after_hand_over(happenings);
}

proof fn lemma_completed_after_hand_over(happenings: Seq<Happening>)
    requires
        stage_at(happenings) == InitStage::Done,
    ensures
        exists|i: int|
            0 <= i < happenings.len() && (#[trigger] happenings[i]) is Completed && handed_over(
                happenings.take(i),
            ).len() == 1,
    decreases happenings.len(),
{
    let n = happenings.len() - 1;
    let before = happenings.drop_last();
    assert(happenings.take(n) =~= before);
    law_jvm_is_initialised_at_most_once(before);
    if stage_at(before) == InitStage::Done {
        lemma_completed_after_hand_over(before);
        let i = choose|i: int|
            0 <= i < before.len() && (#[trigger] before[i]) is Completed && handed_over(
                before.take(i),
            ).len() == 1;
        assert(happenings[i] == before[i]);
        assert(happenings.take(i) =~= before.take(i));
    } else {
        assert(happenings[n] is Completed);
    }
}

/// While the host has the same context registered, no call is refused: each
/// is answered at once, or as soon as the one initialisation ends, and what is
/// handed over is exactly the virtual machine that the host registered.
pub proof fn law_registered_hosts_are_served(happenings: Seq<Happening>, host: HostContext)
    requires
        is_registered(Some(host)),
        forall|i: int|
            0 <= i < happenings.len() ==> (#[trigger] happenings[i] is Completed || happenings[i]
                == (Happening::Call { platform: Platform::Android, host: Some(host) })),
    ensures
        answer_of(stage_at(happenings), Platform::Android, Some(host)) is Granted || stage_at(
            happenings,
        ) == InitStage::Running,
        stage_at(happenings) == InitStage::NotStarted ==> handed_over(happenings) == Seq::<
            usize,
        >::empty(),
        stage_at(happenings) != InitStage::NotStarted ==> handed_over(happenings)
            == seq![host.vm],
    decreases happenings.len(),
{
    if happenings.len() > 0 {
        let before = happenings.drop_last();
        assert forall|i: int| 0 <= i < before.len() implies (#[trigger] before[i] is Completed
            || before[i] == (Happening::Call { platform: Platform::Android, host: Some(host) })) by {
            assert(happenings[i] is Completed || happenings[i] == (Happening::Call {
                platform: Platform::Android,
                host: Some(host),
            }));
        }
        law_registered_hosts_are_served(before, host);
        let n = happenings.len() - 1;
        assert(happenings[n] is Completed || happenings[n] == (Happening::Call {
            platform: Platform::Android,
            host: Some(host),
        }));
        assert(Seq::<usize>::empty().push(host.vm) =~= seq![host.vm]);
    }
}

/// An initialisation that has begun and never ends, because the backend
/// panicked, is final: whatever is called later, no call on Android with a
/// registered context is answered, neither with success nor with an error, and
/// the virtual machine is not handed over again.
pub proof fn law_failed_initialisation_is_final(
    happenings: Seq<Happening>,
    later: Seq<Happening>,
    host: Option<HostContext>,
)
    requires
        stage_at(happenings) == InitStage::Running,
        forall|i: int| 0 <= i < later.len() ==> #[trigger] later[i] is Call,
        is_registered(host),
    ensures
        answer_of(stage_at(happenings + later), Platform::Android, host) is Stuck,
        handed_over(happenings + later) == handed_over(happenings),
        completions(happenings + later) == 0,
    decreases later.len(),
{
    let all = happenings + later;
    if later.len() == 0 {
        assert(all =~= happenings);
        law_jvm_is_initialised_at_most_once(happenings);
        lemma_completions_while_running(happenings);
    } else {
        let before = later.drop_last();
        assert forall|i: int| 0 <= i < before.len() implies #[trigger] before[i] is Call by {
            assert(later[i] is Call);
        }
        law_failed_initialisation_is_final(happenings, before, host);
        assert(all.drop_last() =~= happenings + before);
        assert(all.last() == later[later.len() - 1]);
    }
}

proof fn lemma_completions_while_running(happenings: Seq<Happening>)
    ensures
        stage_at(happenings) != InitStage::Done ==> completions(happenings) == 0,
    decreases happenings.len(),
{
    if happenings.len() > 0 {
        lemma_completions_while_running(happenings.drop_last());
    }
}

/// Once the backend is initialised, asking again does nothing, and is refused
/// only where the host has withdrawn what it registered.
pub proof fn law_initialisation_is_idempotent(platform: Platform, host: Option<HostContext>)
    ensures
        stage_after(InitStage::Done, platform, host) == InitStage::Done,
        answer_of(InitStage::Done, platform, host) == if platform == Platform::Android
            && !is_registered(host) {
            Answer::Refused
        } else {
            Answer::Granted(Init::Ready)
        },
{
}

/// A refused call changes nothing: the next call is answered as if it had not
/// been made, and granted if it is the first with what is needed registered.
pub proof fn law_refusal_leaves_no_trace(
    stage: InitStage,
    platform: Platform,
    refused: Option<HostContext>,
    host: Option<HostContext>,
)
    requires
        answer_of(stage, platform, refused) is Refused,
        is_registered(host),
    ensures
        stage_after(stage, platform, refused) == stage,
        stage == InitStage::NotStarted ==> answer_of(
            stage_after(stage, platform, refused),
            platform,
            host,
        ) == Answer::Granted(Init::InitJvm { vm: host->Some_0.vm }),
{
}

/// What the native side of `NativeBle.initialise(context)` does next.
pub enum NativeAction {
    /// Ask the environment for its virtual machine.
    GetJavaVm,
    /// Promote the context to a reference that lives as long as the process.
    NewGlobalRef,
    /// Register both with the process.
    Register { vm: usize, context: usize },
    /// Call [`ensure_initialised`].
    EnsureInitialised,
    /// Log this error and return.
    LogError(String),
    /// Throw a `RuntimeException` and return.
    Throw,
    Return,
}

/// How the last action went.
pub enum NativeOutcome {
    /// The virtual machine is at this address.
    JavaVm(usize),
    /// The lasting reference to the context is at this address.
    GlobalRef(usize),
    Registered,
    Initialised,
    /// The backend could not be initialised, for this reason.
    NotInitialised(String),
    /// Any of the steps up to the registration failed or panicked.
    Failed,
}

/// What the native side waits for.
#[derive(Clone, Copy, PartialEq, Eq, Structural)]
pub enum NativeStage {
    JavaVm,
    GlobalRef { vm: usize },
    Registration,
    Initialisation,
    Ended,
}

pub enum NativeActionView {
    GetJavaVm,
    NewGlobalRef,
    Register { vm: usize, context: usize },
    EnsureInitialised,
    LogError(Seq<char>),
    Throw,
    Return,
}

impl View for NativeAction {
    type V = NativeActionView;

    open spec fn view(&self) -> NativeActionView {
        match self {
            NativeAction::GetJavaVm => NativeActionView::GetJavaVm,
            NativeAction::NewGlobalRef => NativeActionView::NewGlobalRef,
            NativeAction::Register { vm, context } => NativeActionView::Register {
                vm: *vm,
                context: *context,
            },
            NativeAction::EnsureInitialised => NativeActionView::EnsureInitialised,
            NativeAction::LogError(text) => NativeActionView::LogError(text@),
            NativeAction::Throw => NativeActionView::Throw,
            NativeAction::Return => NativeActionView::Return,
        }
    }
}

/// What is logged when the backend could not be initialised.
pub open spec fn init_failure(reason: Seq<char>) -> Seq<char> {
    "blew init after NativeBle.initialise failed: "@ + reason
}

impl NativeStage {
    /// Whether an outcome is one of those that this stage waits for.
    pub open spec fn expects(self, outcome: NativeOutcome) -> bool {
        match self {
            NativeStage::JavaVm => outcome is JavaVm || outcome is Failed,
            NativeStage::GlobalRef { .. } => outcome is GlobalRef || outcome is Failed,
            NativeStage::Registration => outcome is Registered || outcome is Failed,
            NativeStage::Initialisation => outcome is Initialised || outcome is NotInitialised,
            NativeStage::Ended => false,
        }
    }

    pub open spec fn action_after(self, outcome: NativeOutcome) -> NativeActionView {
        match (self, outcome) {
            (NativeStage::JavaVm, NativeOutcome::JavaVm(_)) => NativeActionView::NewGlobalRef,
            (NativeStage::GlobalRef { vm }, NativeOutcome::GlobalRef(context)) => {
                NativeActionView::Register { vm, context }
            },
            (NativeStage::Registration, NativeOutcome::Registered) => {
                NativeActionView::EnsureInitialised
            },
            (NativeStage::Initialisation, NativeOutcome::NotInitialised(reason)) => {
                NativeActionView::LogError(init_failure(reason@))
            },
            (NativeStage::Initialisation, _) => NativeActionView::Return,
            _ => NativeActionView::Throw,
        }
    }

    pub open spec fn stage_after(self, outcome: NativeOutcome) -> NativeStage {
        match (self, outcome) {
            (NativeStage::JavaVm, NativeOutcome::JavaVm(vm)) => NativeStage::GlobalRef { vm },
            (NativeStage::GlobalRef { .. }, NativeOutcome::GlobalRef(_)) => {
                NativeStage::Registration
            },
            (NativeStage::Registration, NativeOutcome::Registered) => NativeStage::Initialisation,
            _ => NativeStage::Ended,
        }
    }

    /// Where the native side starts, and its first action.
    pub fn start() -> (started: (NativeStage, NativeAction))
        ensures
            started.0 == NativeStage::JavaVm,
            started.1@ == NativeActionView::GetJavaVm,
    {
        (NativeStage::JavaVm, NativeAction::GetJavaVm)
    }

    /// What to do once the last action went like this. Whatever fails up to
    /// the registration is thrown at the host; only what was registered is
    /// used to initialise the backend, and a failure of that is logged.
    pub fn next(&mut self, outcome: NativeOutcome) -> (action: NativeAction)
        requires
            old(self).expects(outcome),
        ensures
            action@ == old(self).action_after(outcome),
            *final(self) == old(self).stage_after(outcome),
    {
        match (*self, outcome) {
            (NativeStage::JavaVm, NativeOutcome::JavaVm(vm)) => {
                *self = NativeStage::GlobalRef { vm };
                NativeAction::NewGlobalRef
            },
            (NativeStage::GlobalRef { vm }, NativeOutcome::GlobalRef(context)) => {
                *self = NativeStage::Registration;
                NativeAction::Register { vm, context }
            },
            (NativeStage::Registration, NativeOutcome::Registered) => {
                *self = NativeStage::Initialisation;
                NativeAction::EnsureInitialised
            },
            (NativeStage::Initialisation, NativeOutcome::NotInitialised(reason)) => {
                *self = NativeStage::Ended;
                let text = "blew init after NativeBle.initialise failed: ".to_owned();
                NativeAction::LogError(text.concat(reason.as_str()))
            },
            (NativeStage::Initialisation, _) => {
                *self = NativeStage::Ended;
                NativeAction::Return
            },
            _ => {
                *self = NativeStage::Ended;
                NativeAction::Throw
            },
        }
    }
}

/// The stage after several outcomes.
pub open spec fn native_stage(outcomes: Seq<NativeOutcome>) -> NativeStage
    decreases outcomes.len(),
{
    if outcomes.len() == 0 {
        NativeStage::JavaVm
    } else {
        native_stage(outcomes.drop_last()).stage_after(outcomes.last())
    }
}

/// Every outcome is one that was waited for.
pub open spec fn is_run(outcomes: Seq<NativeOutcome>) -> bool
    decreases outcomes.len(),
{
    outcomes.len() > 0 ==> is_run(outcomes.drop_last()) && native_stage(
        outcomes.drop_last(),
    ).expects(outcomes.last())
}

/// The backend is initialised only after exactly the virtual machine and the
/// context that the environment gave were registered, and what failed before
/// is thrown, with nothing registered or initialised after it.
pub proof fn law_only_what_was_registered_is_used(outcomes: Seq<NativeOutcome>)
    requires
        is_run(outcomes),
        outcomes.len() > 0,
    ensures
        ({
            let before = native_stage(outcomes.drop_last());
            let action = before.action_after(outcomes.last());
            &&& action is EnsureInitialised ==> {
                &&& outcomes.len() == 3
                &&& outcomes[0] is JavaVm && outcomes[1] is GlobalRef && outcomes[2] is Registered
            }
            &&& action matches NativeActionView::Register { vm, context } ==> {
                &&& outcomes.len() == 2
                &&& outcomes[0] == NativeOutcome::JavaVm(vm)
                &&& outcomes[1] == NativeOutcome::GlobalRef(context)
            }
            &&& outcomes.last() is Failed ==> action is Throw && before.stage_after(
                outcomes.last(),
            ) == NativeStage::Ended
        }),
{
    reveal_with_fuel(native_stage, 5);
    reveal_with_fuel(is_run, 5);
    let n = outcomes.len();
    let one = outcomes.drop_last();
    if n > 1 {
        let two = one.drop_last();
        if n > 2 {
            let three = two.drop_last();
            if n > 3 {
                let four = three.drop_last();
                if n > 4 {
                    lemma_run_is_short(four);
                }
            }
        }
    }
}

/// A run ends after at most four outcomes.
proof fn lemma_run_is_short(outcomes: Seq<NativeOutcome>)
    requires
        is_run(outcomes),
    ensures
        native_stage(outcomes) == NativeStage::JavaVm ==> outcomes.len() == 0,
        native_stage(outcomes) is GlobalRef ==> outcomes.len() == 1,
        native_stage(outcomes) == NativeStage::Registration ==> outcomes.len() == 2,
        native_stage(outcomes) == NativeStage::Initialisation ==> outcomes.len() == 3,
        outcomes.len() <= 4,
    decreases outcomes.len(),
{
    if outcomes.len() > 0 {
        lemma_run_is_short(outcomes.drop_last());
    }
}

/// Which call gets which answer. Only on Android is anything asked of the host:
/// both addresses, neither of them null. The first call that has them is told to
/// hand that machine over; later ones find the backend ready once it is.
pub proof fn law_answers(
    stage: InitStage,
    platform: Platform,
    host: Option<HostContext>,
    vm: usize,
)
    ensures
        ({
            let answer = answer_of(stage, platform, host);
            let android = platform == Platform::Android;
            let lacks = host is None || host->Some_0.vm == 0 || host->Some_0.context == 0;
            &&& answer is Refused <==> android && lacks
            &&& answer == Answer::Granted(Init::Ready) <==> !android || (!lacks && stage
                == InitStage::Done)
            &&& answer == Answer::Granted(Init::InitJvm { vm }) <==> android && !lacks && stage
                == InitStage::NotStarted && host->Some_0.vm == vm
            &&& answer is Stuck <==> android && !lacks && stage == InitStage::Running
            &&& android && !lacks && stage == InitStage::NotStarted ==> stage_after(
                stage,
                platform,
                host,
            ) == InitStage::Running
            &&& !(android && !lacks && stage == InitStage::NotStarted) ==> stage_after(
                stage,
                platform,
                host,
            ) == stage
        }),
{
}

/// A run in which nothing fails, whatever the addresses: it promotes the
/// context once it has the machine, registers exactly these two, initialises,
/// and returns. A failure of the last step is logged with its reason, and ends
/// the run too; an earlier one is thrown.
pub proof fn law_native_run(vm: usize, context: usize, reason: String)
    ensures
        ({
            let first = seq![NativeOutcome::JavaVm(vm)];
            let second = first.push(NativeOutcome::GlobalRef(context));
            let third = second.push(NativeOutcome::Registered);
            let start = native_stage(Seq::empty());
            &&& start.action_after(first[0]) is NewGlobalRef
            &&& native_stage(first).action_after(second[1]) == (NativeActionView::Register {
                vm,
                context,
            })
            &&& native_stage(second).action_after(third[2]) is EnsureInitialised
            &&& native_stage(third).action_after(NativeOutcome::Initialised) is Return
            &&& native_stage(third).action_after(NativeOutcome::NotInitialised(reason))
                == NativeActionView::LogError(
                "blew init after NativeBle.initialise failed: "@ + reason@,
            )
            &&& native_stage(third.push(NativeOutcome::Initialised)) == NativeStage::Ended
            &&& native_stage(third.push(NativeOutcome::NotInitialised(reason)))
                == NativeStage::Ended
            &&& start.action_after(NativeOutcome::Failed) is Throw
            &&& native_stage(first).action_after(NativeOutcome::Failed) is Throw
            &&& native_stage(second).action_after(NativeOutcome::Failed) is Throw
        }),
{
    reveal_with_fuel(native_stage, 5);
    let first = seq![NativeOutcome::JavaVm(vm)];
    let second = first.push(NativeOutcome::GlobalRef(context));
    let third = second.push(NativeOutcome::Registered);
    assert(first.drop_last() =~= Seq::empty());
    assert(second.drop_last() =~= first);
    assert(third.drop_last() =~= second);
    assert(third.push(NativeOutcome::Initialised).drop_last() =~= third);
    assert(third.push(NativeOutcome::NotInitialised(reason)).drop_last() =~= third);
}

} // verus!
