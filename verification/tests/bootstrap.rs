use neutrino_ble::bootstrap::{
    ensure_initialised, host_is_registered, init_completed, is_stuck, HostContext, Init, InitStage,
    NativeAction, NativeOutcome, NativeStage, Platform,
};

const HOST: HostContext = HostContext { vm: 0x1000, context: 0x2000 };

const MESSAGE: &str =
    "ndk_context not set — call NativeBle.initialise(context) once at app startup";

#[test]
fn first_call_hands_over_the_virtual_machine() {
    let mut stage = InitStage::NotStarted;
    let init = ensure_initialised(&mut stage, Platform::Android, Some(HOST));
    assert!(matches!(init, Ok(Init::InitJvm { vm: 0x1000 })));
    assert_eq!(init_completed(&mut stage), "blew JNI initialised");
    for _ in 0..3 {
        let init = ensure_initialised(&mut stage, Platform::Android, Some(HOST));
        assert!(matches!(init, Ok(Init::Ready)), "only once");
    }
}

#[test]
fn unregistered_context_is_an_error_not_a_panic() {
    let unusable = [
        None,
        Some(HostContext { vm: 0, context: 0x2000 }),
        Some(HostContext { vm: 0x1000, context: 0 }),
        Some(HostContext { vm: 0, context: 0 }),
    ];
    assert!(host_is_registered(Some(HOST)));
    for host in unusable {
        assert!(!host_is_registered(host));
        let mut stage = InitStage::NotStarted;
        match ensure_initialised(&mut stage, Platform::Android, host) {
            Err(reason) => assert_eq!(reason, MESSAGE),
            Ok(_) => panic!("expected an error"),
        }
        assert!(matches!(stage, InitStage::NotStarted));
        let init = ensure_initialised(&mut stage, Platform::Android, Some(HOST));
        assert!(matches!(init, Ok(Init::InitJvm { .. })), "a refusal leaves no trace");
    }
}

#[test]
fn withdrawn_context_is_an_error_even_after_initialisation() {
    let mut stage = InitStage::Done;
    assert!(ensure_initialised(&mut stage, Platform::Android, None).is_err());
    assert!(matches!(stage, InitStage::Done));
}

#[test]
fn other_platforms_need_nothing() {
    let mut stage = InitStage::NotStarted;
    for host in [None, Some(HOST)] {
        assert!(matches!(ensure_initialised(&mut stage, Platform::Other, host), Ok(Init::Ready)));
    }
    assert!(matches!(stage, InitStage::NotStarted));
}

#[test]
fn native_side_registers_and_initialises() {
    let (mut stage, first) = NativeStage::start();
    assert!(matches!(first, NativeAction::GetJavaVm));
    assert!(matches!(stage.next(NativeOutcome::JavaVm(7)), NativeAction::NewGlobalRef));
    assert!(matches!(
        stage.next(NativeOutcome::GlobalRef(9)),
        NativeAction::Register { vm: 7, context: 9 }
    ));
    assert!(matches!(stage.next(NativeOutcome::Registered), NativeAction::EnsureInitialised));
    assert!(matches!(stage.next(NativeOutcome::Initialised), NativeAction::Return));
    assert!(matches!(stage, NativeStage::Ended));
}

#[test]
fn native_side_logs_a_backend_that_cannot_be_initialised() {
    let mut stage = NativeStage::Initialisation;
    match stage.next(NativeOutcome::NotInitialised("no vm".to_string())) {
        NativeAction::LogError(text) => {
            assert_eq!(text, "blew init after NativeBle.initialise failed: no vm");
        }
        _ => panic!("expected a log line"),
    }
}

#[test]
fn native_side_throws_what_fails_before_the_registration() {
    for mut stage in
        [NativeStage::JavaVm, NativeStage::GlobalRef { vm: 7 }, NativeStage::Registration]
    {
        assert!(matches!(stage.next(NativeOutcome::Failed), NativeAction::Throw));
        assert!(matches!(stage, NativeStage::Ended));
    }
}

#[test]
fn unfinished_initialisation_answers_nobody_with_a_registered_context() {
    assert!(is_stuck(InitStage::Running, Platform::Android, Some(HOST)));
    assert!(!is_stuck(InitStage::Running, Platform::Android, None), "that is an error");
    assert!(!is_stuck(InitStage::Running, Platform::Other, Some(HOST)));
    assert!(!is_stuck(InitStage::NotStarted, Platform::Android, Some(HOST)));
    assert!(!is_stuck(InitStage::Done, Platform::Android, Some(HOST)));
    let mut stage = InitStage::Running;
    assert!(ensure_initialised(&mut stage, Platform::Android, None).is_err());
    assert!(matches!(stage, InitStage::Running));
}

#[test]
fn what_is_handed_over_is_what_the_host_registered() {
    let mut stage = InitStage::NotStarted;
    let host = HostContext { vm: 0xABC0, context: 1 };
    let init = ensure_initialised(&mut stage, Platform::Android, Some(host));
    assert!(matches!(init, Ok(Init::InitJvm { vm: 0xABC0 })));
    assert!(is_stuck(stage, Platform::Android, Some(host)), "until it is completed");
}
