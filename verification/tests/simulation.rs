use billiard::simulation::Simulation;

#[test]
fn simulation_starts_paused() {
    let s = Simulation::init("conditions", vec![1u32], vec![2u32]);
    assert!(!s.is_running());
    assert_eq!(*s.initial_conditions(), "conditions");
}

#[test]
fn toggle_pause_resumes_and_pauses() {
    let mut s = Simulation::init((), 10u8, 20u8);
    s.toggle_pause();
    assert!(s.is_running());
    s.toggle_pause();
    assert!(!s.is_running());
    assert_eq!(*s.balls(1), 10);
    assert_eq!(*s.balls(2), 20);
}

#[test]
fn balls_selects_the_billiard_by_number() {
    let s = Simulation::init((), vec![1.0f64], vec![2.0f64, 3.0]);
    assert_eq!(s.balls(1).len(), 1);
    assert_eq!(s.balls(2).len(), 2);
}

#[test]
fn balls_mut_updates_only_the_chosen_billiard() {
    let mut s = Simulation::init((), 1u32, 2u32);
    s.toggle_pause();
    *s.balls_mut(2) += 40;
    assert_eq!(*s.balls(1), 1);
    assert_eq!(*s.balls(2), 42);
    assert!(s.is_running());
}
