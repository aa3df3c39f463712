use data_shuffler::engine::{
    masked_instant, pick_mask_instant, resync_action, Engine, Event, Outcome, ResyncAction, Step, MASK_WINDOW_SECS,
};

fn drive(events: &[Event]) -> Vec<Step> {
    let mut e = Engine::new();
    let mut steps = vec![e.step];
    for ev in events {
        e = e.advance(*ev);
        steps.push(e.step);
    }
    steps
}

#[test]
fn missing_root_finishes_without_clock() {
    let steps = drive(&[Event::Answered(false)]);
    assert_eq!(steps, vec![Step::CheckRoot, Step::Finish(Outcome::RootNotFound)]);
}

#[test]
fn privileged_run_masks_and_restores() {
    let steps = drive(&[
        Event::Answered(true),
        Event::Answered(true),
        Event::Succeeded,
        Event::Listed(2),
        Event::Succeeded,
        Event::Succeeded,
        Event::Succeeded,
        Event::Succeeded,
        Event::Succeeded,
    ]);
    assert_eq!(
        steps,
        vec![
            Step::CheckRoot,
            Step::QueryPrivilege,
            Step::MaskClock,
            Step::ListSubjects,
            Step::Consolidate(0),
            Step::Anonymize(0),
            Step::Consolidate(1),
            Step::Anonymize(1),
            Step::RestoreClock,
            Step::Finish(Outcome::Completed),
        ]
    );
}

#[test]
fn unprivileged_run_leaves_clock_alone() {
    let steps = drive(&[Event::Answered(true), Event::Answered(false), Event::Listed(1), Event::Succeeded, Event::Succeeded]);
    assert_eq!(
        steps,
        vec![
            Step::CheckRoot,
            Step::QueryPrivilege,
            Step::ListSubjects,
            Step::Consolidate(0),
            Step::Anonymize(0),
            Step::Finish(Outcome::Completed),
        ]
    );
}

#[test]
fn failure_stops_remaining_subjects_but_restores_clock() {
    let steps = drive(&[
        Event::Answered(true),
        Event::Answered(true),
        Event::Failed,
        Event::Listed(3),
        Event::Succeeded,
        Event::Failed,
        Event::Succeeded,
    ]);
    assert_eq!(
        steps,
        vec![
            Step::CheckRoot,
            Step::QueryPrivilege,
            Step::MaskClock,
            Step::ListSubjects,
            Step::Consolidate(0),
            Step::Anonymize(0),
            Step::RestoreClock,
            Step::Finish(Outcome::Failed),
        ]
    );
}

#[test]
fn empty_root_completes() {
    let steps = drive(&[Event::Answered(true), Event::Answered(false), Event::Listed(0)]);
    assert_eq!(steps.last(), Some(&Step::Finish(Outcome::Completed)));
}

#[test]
fn finished_run_stays_finished() {
    let mut e = Engine::new().advance(Event::Answered(false));
    e = e.advance(Event::Succeeded);
    assert_eq!(e.step, Step::Finish(Outcome::RootNotFound));
}

#[test]
fn masked_instant_values() {
    assert_eq!(masked_instant(1_000_000, 250), 999_750);
    assert_eq!(masked_instant(100, 250), 0);
    assert_eq!(MASK_WINDOW_SECS, 864_000);
}

#[test]
fn picked_instant_lies_in_window() {
    let now = 1_700_000_000u64;
    for _ in 0..50 {
        let t = pick_mask_instant(now, MASK_WINDOW_SECS);
        assert!(t <= now);
        assert!(t > now - MASK_WINDOW_SECS);
    }
    assert_eq!(pick_mask_instant(now, 0), now);
}

#[test]
fn resync_steps() {
    assert_eq!(resync_action(true, None), ResyncAction::Sync);
    assert_eq!(resync_action(false, None), ResyncAction::Install);
    assert_eq!(resync_action(false, Some(true)), ResyncAction::Sync);
    assert_eq!(resync_action(false, Some(false)), ResyncAction::GiveUp);
}
