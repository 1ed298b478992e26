use tsp_anneal::cooling::{
    cooler1_step, cooler2_phase, cooler2_prob_rule, cooler_kind, prob_rule, CoolerKind, Phase,
    ProbRule,
};

#[test]
fn cooler_names() {
    assert_eq!(cooler_kind("climb"), CoolerKind::Climb);
    assert_eq!(cooler_kind("c1"), CoolerKind::Cooler1);
    assert_eq!(cooler_kind("c2"), CoolerKind::Cooler2);
    assert_eq!(cooler_kind("c3"), CoolerKind::Cooler3);
    assert_eq!(cooler_kind("c4"), CoolerKind::Climb);
    assert_eq!(cooler_kind(""), CoolerKind::Climb);
}

#[test]
fn probability_rules() {
    assert_eq!(prob_rule(0, 500), ProbRule::Initial);
    assert_eq!(prob_rule(3, 99), ProbRule::Initial);
    assert_eq!(prob_rule(3, 100), ProbRule::Boltzmann);
    assert_eq!(cooler2_prob_rule(3, 98), (99, ProbRule::Initial));
    assert_eq!(cooler2_prob_rule(3, 99), (100, ProbRule::Boltzmann));
    assert_eq!(cooler2_prob_rule(0, 99), (100, ProbRule::Initial));
}

#[test]
fn first_schedule_steps() {
    let (c, s) = cooler1_step(0, 0, 0);
    assert_eq!(c, 1);
    assert_eq!((s.phase, s.header, s.report), (Phase::Hold, true, false));
    let (c, s) = cooler1_step(5, 2, 3);
    assert_eq!(c, 6);
    assert_eq!((s.phase, s.header, s.report), (Phase::Calibrate, false, false));
    let (_, s) = cooler1_step(98, 2, 0);
    assert_eq!(s.phase, Phase::Hold);
    let (c, s) = cooler1_step(99, 0, 0);
    assert_eq!(c, 100);
    assert_eq!((s.phase, s.report), (Phase::Cool, false));
    let (_, s) = cooler1_step(299, 1, 1);
    assert_eq!((s.phase, s.report), (Phase::Cool, true));
    let (_, s) = cooler1_step(300, 1, 1);
    assert_eq!((s.phase, s.report), (Phase::Cool, false));
}

#[test]
fn second_schedule_phases() {
    assert_eq!(cooler2_phase(0, 1, 1), Phase::Calibrate);
    assert_eq!(cooler2_phase(50, 0, 1), Phase::Hold);
    assert_eq!(cooler2_phase(99, 1, 0), Phase::Hold);
    assert_eq!(cooler2_phase(100, 0, 0), Phase::Cool);
}
