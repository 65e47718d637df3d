use minikernel::race::Phase;
use minikernel::race::RaceSim;
use minikernel::sync::MutexKind;

fn drive_to_completion(sim: &mut RaceSim, n: usize) {
    // An adversarial interleaving: every thread gets a step each round,
    // so spinners keep colliding with the holder.
    for _ in 0..1024 {
        if sim.finished() {
            return;
        }
        let round: Vec<usize> = (0..n).collect();
        sim.run(&round);
    }
    panic!("simulation did not finish");
}

#[test]
fn locked_increments_add_up_spin() {
    let mut sim = RaceSim::new(2, 2, MutexKind::Spin);
    drive_to_completion(&mut sim, 2);
    assert_eq!(sim.counter, 4);
}

#[test]
fn locked_increments_add_up_blocking() {
    let mut sim = RaceSim::new(3, 2, MutexKind::Blocking);
    drive_to_completion(&mut sim, 3);
    assert_eq!(sim.counter, 6);
}

#[test]
fn at_most_one_thread_in_critical_section() {
    let mut sim = RaceSim::new(3, 1, MutexKind::Spin);
    for _ in 0..64 {
        if sim.finished() {
            break;
        }
        let in_cs = sim
            .threads
            .iter()
            .filter(|t| matches!(t.phase, Phase::Read | Phase::Write | Phase::Unlock))
            .count();
        assert!(in_cs <= 1);
        let round: Vec<usize> = (0..3).collect();
        sim.run(&round);
    }
    assert_eq!(sim.counter, 3);
}
