use archetype_ecs::dependency::ExecutionStage;
use archetype_ecs::error::{EcsError, Result};
use archetype_ecs::executor::{frame_step, parallel_frame_step, FrameAction, StageAction};
use archetype_ecs::schedule::plan_stages;
use archetype_ecs::system::SystemAccess;

fn stage(ids: &[usize], depth: usize) -> ExecutionStage {
    ExecutionStage { system_indices: ids.to_vec(), depth }
}

/// Drives a frame the way the executor does, running `run` for each system.
fn run_frame(stages: &[ExecutionStage], count: usize, run: &mut dyn FnMut(usize) -> Result<()>) -> Result<()> {
    let mut pos = (0, 0);
    let mut last = None;
    loop {
        match frame_step(stages, count, pos, last) {
            FrameAction::Run { stage, slot, system } => {
                last = Some(run(system));
                pos = (stage, slot + 1);
            }
            FrameAction::Done(r) => return r,
        }
    }
}

fn schedule_stages(accesses: &[SystemAccess]) -> Vec<ExecutionStage> {
    let (_, stages) = plan_stages(accesses).unwrap();
    stages
        .iter()
        .enumerate()
        .map(|(depth, s)| ExecutionStage { system_indices: s.systems.iter().map(|id| id.0 as usize).collect(), depth })
        .collect()
}

struct Log;

#[test]
fn test_executor_runs_systems_in_order() {
    let accesses = vec![SystemAccess::empty().write::<Log>(), SystemAccess::empty().write::<Log>()];
    let stages = schedule_stages(&accesses);
    let names = ["first", "second"];
    let mut log: Vec<&str> = Vec::new();
    let r = run_frame(&stages, 2, &mut |i| {
        log.push(names[i]);
        Ok(())
    });
    assert!(r.is_ok());
    assert_eq!(log, vec!["first", "second"]);
}

#[test]
fn test_executor_propagates_errors_and_stops() {
    let accesses = vec![
        SystemAccess::empty().write::<Log>(),
        SystemAccess::empty().write::<Log>(),
        SystemAccess::empty().write::<Log>(),
    ];
    let stages = schedule_stages(&accesses);
    let mut log: Vec<&str> = Vec::new();
    let r = run_frame(&stages, 3, &mut |i| match i {
        1 => Err(EcsError::ScheduleError("intentional failure".into())),
        0 => {
            log.push("first");
            Ok(())
        }
        _ => {
            log.push("second");
            Ok(())
        }
    });
    assert!(r.is_err(), "executor should propagate system error");
    assert_eq!(log, vec!["first"]);
}

#[test]
fn frame_step_skips_empty_stages_and_reports_missing_systems() {
    let stages = vec![stage(&[], 0), stage(&[2, 0], 1), stage(&[], 2), stage(&[5], 3)];
    assert!(matches!(frame_step(&stages, 3, (0, 0), None), FrameAction::Run { stage: 1, slot: 0, system: 2 }));
    assert!(matches!(frame_step(&stages, 3, (1, 1), Some(Ok(()))), FrameAction::Run { stage: 1, slot: 1, system: 0 }));
    assert!(matches!(frame_step(&stages, 3, (1, 2), Some(Ok(()))), FrameAction::Done(Err(EcsError::SystemNotFound))));
    assert!(matches!(frame_step(&stages, 6, (1, 2), Some(Ok(()))), FrameAction::Run { stage: 3, slot: 0, system: 5 }));
    assert!(matches!(frame_step(&stages, 6, (3, 1), Some(Ok(()))), FrameAction::Done(Ok(()))));
    assert!(matches!(
        frame_step(&stages, 6, (0, 0), Some(Err(EcsError::EntityNotFound))),
        FrameAction::Done(Err(EcsError::EntityNotFound))
    ));
    assert!(matches!(frame_step(&[], 0, (0, 0), None), FrameAction::Done(Ok(()))));
}

#[test]
fn parallel_step_stops_after_a_failing_stage_with_its_first_error() {
    let stages = vec![stage(&[0, 1], 0), stage(&[2], 1)];
    assert!(matches!(parallel_frame_step(&stages, 0, None), StageAction::RunStage(0)));
    assert!(matches!(parallel_frame_step(&stages, 1, Some(vec![Ok(()), Ok(())])), StageAction::RunStage(1)));
    assert!(matches!(parallel_frame_step(&stages, 2, Some(vec![Ok(())])), StageAction::Done(Ok(()))));
    assert!(matches!(
        parallel_frame_step(
            &stages,
            1,
            Some(vec![Ok(()), Err(EcsError::EntityNotFound), Err(EcsError::SystemNotFound)])
        ),
        StageAction::Done(Err(EcsError::EntityNotFound))
    ));
}
