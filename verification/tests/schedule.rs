use collector::schedule::finish_cycle;

#[test]
fn prunes_every_sixtieth_cycle() {
    let mut cycles = 0u64;
    let mut pruned_at = Vec::new();
    for _ in 0..180 {
        let (next, prune) = finish_cycle(cycles);
        cycles = next;
        if prune {
            pruned_at.push(cycles);
        }
    }
    assert_eq!(pruned_at, vec![60, 120, 180]);
}

#[test]
fn counter_wraps_at_its_maximum() {
    assert_eq!(finish_cycle(u64::MAX), (0, true));
    assert_eq!(finish_cycle(58), (59, false));
}
