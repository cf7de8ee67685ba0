use rust_lio::init::{init_step, InitEvent, InitPhase, SYNC_TRIES};

fn run_sync(results: &[bool]) -> InitPhase {
    let mut phase = InitPhase::start();
    for &ok in results {
        let step = init_step(phase, InitEvent::Synced(ok));
        assert!(!step.record_time);
        phase = step.phase;
    }
    phase
}

#[test]
fn sync_counts_tries_and_fails() {
    assert_eq!(run_sync(&[true, false, false]), InitPhase::Sync { tries: 3, fails: 2 });
}

#[test]
fn sync_passes_when_one_packet_synchronises() {
    let mut results = vec![false; SYNC_TRIES as usize];
    results[7] = true;
    assert_eq!(run_sync(&results), InitPhase::Imu);
}

#[test]
fn sync_fails_when_no_packet_synchronises() {
    assert_eq!(run_sync(&vec![false; SYNC_TRIES as usize]), InitPhase::Failed);
}

#[test]
fn imu_initialisation_keeps_the_first_time_and_waits_until_done() {
    let step = init_step(InitPhase::Imu, InitEvent::ImuFed { time_unset: true, imu_ready: false });
    assert_eq!(step.phase, InitPhase::Imu);
    assert!(step.record_time);
    let step = init_step(InitPhase::Imu, InitEvent::ImuFed { time_unset: false, imu_ready: true });
    assert_eq!(step.phase, InitPhase::BuildMap);
    assert!(!step.record_time);
    let step = init_step(InitPhase::BuildMap, InitEvent::MapBuilt);
    assert_eq!(step.phase, InitPhase::Ready);
}

#[test]
fn events_of_another_phase_change_nothing() {
    let step = init_step(InitPhase::Imu, InitEvent::Synced(true));
    assert_eq!(step.phase, InitPhase::Imu);
    assert!(!step.record_time);
    let step = init_step(InitPhase::Ready, InitEvent::MapBuilt);
    assert_eq!(step.phase, InitPhase::Ready);
    let step = init_step(InitPhase::Failed, InitEvent::Synced(true));
    assert_eq!(step.phase, InitPhase::Failed);
}
