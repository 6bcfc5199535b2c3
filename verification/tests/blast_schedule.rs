use loom_cli::blast_schedule::BlastSchedule;

#[test]
fn blasts_go_off_on_their_tick_in_order() {
    // Blast i is due on ticks[i].
    let ticks = vec![5, 1, 5, 3, 9];
    let mut schedule = BlastSchedule::new(&ticks);
    assert_eq!(schedule.len(), 5);
    assert_eq!(schedule.due(0), Vec::<usize>::new());
    assert_eq!(schedule.due(1), vec![1]);
    assert_eq!(schedule.due(2), Vec::<usize>::new());
    assert_eq!(schedule.due(4), vec![3]);
    // Two on one tick: the one listed later goes first.
    assert_eq!(schedule.due(5), vec![2, 0]);
    assert_eq!(schedule.len(), 1);
    assert_eq!(schedule.due(100), vec![4]);
    assert_eq!(schedule.due(101), Vec::<usize>::new());
}

#[test]
fn a_late_first_call_fires_everything_due_earliest_first() {
    let mut schedule = BlastSchedule::new(&vec![7, 2, 4]);
    assert_eq!(schedule.due(10), vec![1, 2, 0]);
    assert_eq!(schedule.len(), 0);
}

#[test]
fn over_successive_ticks_each_blast_goes_off_once_at_its_tick() {
    let ticks = vec![3u64, 1, 3, 5, 2];
    let mut schedule = loom_cli::blast_schedule::BlastSchedule::new(&ticks);
    let mut seen = vec![0usize; ticks.len()];
    for tick in 1..=6u64 {
        for i in schedule.due(tick) {
            assert_eq!(ticks[i], tick, "blast {i} went off at {tick}");
            seen[i] += 1;
        }
    }
    assert_eq!(seen, vec![1; ticks.len()]);
    assert_eq!(schedule.len(), 0);
}

#[test]
fn only_armed_blasts_are_scheduled() {
    let armed = vec![true, false, true, true, false];
    let ticks = vec![4u64, 1, 2, 4, 2];
    let mut schedule = BlastSchedule::armed(&armed, &ticks);
    assert_eq!(schedule.len(), 3);
    assert_eq!(schedule.due(1), Vec::<usize>::new());
    assert_eq!(schedule.due(2), vec![2]);
    assert_eq!(schedule.due(4), vec![3, 0]);
    assert_eq!(schedule.due(100), Vec::<usize>::new());
    assert_eq!(BlastSchedule::armed(&vec![false, false], &vec![1, 2]).len(), 0);
}
