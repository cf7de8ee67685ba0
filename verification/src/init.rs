//! The start-up sequence of a sensor: a time synchronisation test over a
//! fixed number of packets, which passes when at least one packet
//! synchronises; then packets are fed to the IMU initialisation until it is
//! done, the first packet's LiDAR time being kept; then one packet builds the
//! initial map. Each step takes the phase and what the last packet gave and
//! returns the next phase and whether to keep the packet's LiDAR time.
use vstd::prelude::*;

verus! {

/// Number of packets of the time synchronisation test.
pub const SYNC_TRIES: u32 = 10;

/// Where the start-up sequence stands.
#[derive(Debug, Clone, Copy, PartialEq, Eq, Structural)]
pub enum InitPhase {
    /// Testing time synchronisation: `tries` packets tried so far, `fails`
    /// of them failed.
    Sync { tries: u32, fails: u32 },
    /// Feeding packets to the IMU initialisation.
    Imu,
    /// Building the initial map from the next packet.
    BuildMap,
    /// Done.
    Ready,
    /// No packet of the synchronisation test synchronised.
    Failed,
}

/// What handling the last packet gave.
#[derive(Debug, Clone, Copy, PartialEq, Eq, Structural)]
pub enum InitEvent {
    /// A packet of the synchronisation test synchronised or not.
    Synced(bool),
    /// A packet was fed to the IMU initialisation: whether no LiDAR time is
    /// kept yet, and whether the initialisation is now done.
    ImuFed { time_unset: bool, imu_ready: bool },
    /// The initial map was built.
    MapBuilt,
}

/// The outcome of a step.
#[derive(Debug, Clone, Copy, PartialEq, Eq, Structural)]
pub struct InitStep {
    pub phase: InitPhase,
    /// Whether to keep the LiDAR time of the packet just handled.
    pub record_time: bool,
}

impl InitPhase {
    /// The counters of a synchronisation test in progress are consistent.
    pub open spec fn wf(self) -> bool {
        match self {
            InitPhase::Sync { tries, fails } => fails <= tries < SYNC_TRIES,
            _ => true,
        }
    }

    /// The first phase: the synchronisation test, nothing tried yet.
    pub fn start() -> (p: InitPhase)
        ensures
            p == (InitPhase::Sync { tries: 0, fails: 0 }),
            p.wf(),
    {
        InitPhase::Sync { tries: 0, fails: 0 }
    }
}

/// The phase after `event` in `phase`: the synchronisation test counts the
/// packet, and after the last one goes on to the IMU initialisation when any
/// packet synchronised, else fails; the IMU initialisation goes on to the map
/// once it is done; the map build ends the sequence. An event that does not
/// belong to the phase leaves it as it is.
pub open spec fn next_phase(phase: InitPhase, event: InitEvent) -> InitPhase {
    match (phase, event) {
        (InitPhase::Sync { tries, fails }, InitEvent::Synced(ok)) => {
            let t = tries + 1;
            let f = if ok {
                fails as int
            } else {
                fails + 1
            };
            if t >= SYNC_TRIES {
                if f == t {
                    InitPhase::Failed
                } else {
                    InitPhase::Imu
                }
            } else {
                InitPhase::Sync { tries: t as u32, fails: f as u32 }
            }
        },
        (InitPhase::Imu, InitEvent::ImuFed { imu_ready, .. }) => if imu_ready {
            InitPhase::BuildMap
        } else {
            InitPhase::Imu
        },
        (InitPhase::BuildMap, InitEvent::MapBuilt) => InitPhase::Ready,
        _ => phase,
    }
}

/// The phase reached from the start by the synchronisation results `bs`, in
/// order.
pub open spec fn sync_run(bs: Seq<bool>) -> InitPhase
    decreases bs.len(),
{
    if bs.len() == 0 {
        InitPhase::Sync { tries: 0, fails: 0 }
    } else {
        next_phase(sync_run(bs.drop_last()), InitEvent::Synced(bs.last()))
    }
}

/// Number of failed results among `bs`.
pub open spec fn failures(bs: Seq<bool>) -> nat
    decreases bs.len(),
{
    if bs.len() == 0 {
        0
    } else {
        failures(bs.drop_last()) + if bs.last() {
            0nat
        } else {
            1nat
        }
    }
}

/// The synchronisation test over the results `bs` from the start: before the
/// last packet it has counted every packet and every failure; after
/// `SYNC_TRIES` packets it has failed exactly when no packet synchronised,
/// and has gone on to the IMU initialisation when any did.
pub proof fn lemma_sync_test(bs: Seq<bool>)
    requires
        bs.len() <= SYNC_TRIES,
    ensures
        bs.len() < SYNC_TRIES ==> sync_run(bs) == (InitPhase::Sync {
            tries: bs.len() as u32,
            fails: failures(bs) as u32,
        }),
        bs.len() == SYNC_TRIES ==> (sync_run(bs) == InitPhase::Failed <==> !bs.contains(true)),
        bs.len() == SYNC_TRIES ==> (sync_run(bs) == InitPhase::Imu <==> bs.contains(true)),
    decreases bs.len(),
{
    lemma_failures_count(bs);
    if bs.len() > 0 {
        lemma_sync_test(bs.drop_last());
        lemma_failures_count(bs.drop_last());
        if bs.len() == SYNC_TRIES {
            if bs.last() {
                assert(bs.contains(true)) by {
                    assert(bs[bs.len() - 1] == true);
                }
            } else if bs.drop_last().contains(true) {
                let i = choose|i: int| 0 <= i < bs.drop_last().len() && bs.drop_last()[i] == true;
                assert(bs[i] == true);
            }
            if bs.contains(true) && !bs.last() {
                let i = choose|i: int| 0 <= i < bs.len() && bs[i] == true;
                assert(bs.drop_last()[i] == true);
            }
        }
    }
}

/// The failures are at most the results, and all of them exactly when no
/// result is a success.
proof fn lemma_failures_count(bs: Seq<bool>)
    ensures
        failures(bs) <= bs.len(),
        failures(bs) == bs.len() <==> !bs.contains(true),
    decreases bs.len(),
{
    if bs.len() > 0 {
        lemma_failures_count(bs.drop_last());
        if bs.drop_last().contains(true) {
            let i = choose|i: int| 0 <= i < bs.drop_last().len() && bs.drop_last()[i] == true;
            assert(bs[i] == true);
        }
        if bs.contains(true) {
            let i = choose|i: int| 0 <= i < bs.len() && bs[i] == true;
            if i < bs.len() - 1 {
                assert(bs.drop_last()[i] == true);
            }
        }
    }
}

/// One step of the start-up sequence. The LiDAR time of a packet fed to the
/// IMU initialisation is kept when none is kept yet.
pub fn init_step(phase: InitPhase, event: InitEvent) -> (r: InitStep)
    requires
        phase.wf(),
    ensures
        r.phase == next_phase(phase, event),
        r.phase.wf(),
        r.record_time == (phase == InitPhase::Imu && event matches InitEvent::ImuFed {
            time_unset: true,
            ..
        }),
{
    match (phase, event) {
        (InitPhase::Sync { tries, fails }, InitEvent::Synced(ok)) => {
            let t = tries + 1;
            let f = if ok {
                fails
            } else {
                fails + 1
            };
            let next = if t >= SYNC_TRIES {
                if f == t {
                    InitPhase::Failed
                } else {
                    InitPhase::Imu
                }
            } else {
                InitPhase::Sync { tries: t, fails: f }
            };
            InitStep { phase: next, record_time: false }
        },
        (InitPhase::Imu, InitEvent::ImuFed { time_unset, imu_ready }) => {
            let next = if imu_ready {
                InitPhase::BuildMap
            } else {
                InitPhase::Imu
            };
            InitStep { phase: next, record_time: time_unset }
        },
        (InitPhase::BuildMap, InitEvent::MapBuilt) => InitStep { phase: InitPhase::Ready, record_time: false },
        _ => InitStep { phase, record_time: false },
    }
}

} // verus!
