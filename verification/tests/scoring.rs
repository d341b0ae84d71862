//! The candidate scoring formula: exact values and its ordering shape.

use sch::weight::weight;

#[test]
fn weight_exact_values() {
    // never scheduled: weeksSince = 99; 20*99 - 2 - 0 - 20*(2+0)^3
    assert_eq!(weight(None, 2, 0, 0), 20 * 99 - 2 - 160);
    // last seen 3 hops back, flexibility 2, total load 5, one assignment
    // this run: 20*2 - 2 - 4*5 - 20*(2+1)^3
    assert_eq!(weight(Some(3), 2, 5, 1), 40 - 2 - 20 - 540);
    // a last appearance in the node itself weighs the recency term at -20
    assert_eq!(weight(Some(0), 0, 0, 0), -20 - 160);
}

#[test]
fn longer_rest_weighs_more() {
    // identical flexibility, total and current load: larger weeks-since wins
    assert!(weight(Some(5), 3, 4, 1) > weight(Some(3), 3, 4, 1));
    assert!(weight(None, 3, 4, 1) > weight(Some(7), 3, 4, 1));
}

#[test]
fn load_weighs_down_with_rising_severity() {
    // total load depresses the weight linearly
    assert!(weight(Some(5), 3, 5, 0) < weight(Some(5), 3, 4, 0));
    // current-run load depresses it cubically: each step costs more
    let w0 = weight(Some(5), 3, 4, 0);
    let w1 = weight(Some(5), 3, 4, 1);
    let w2 = weight(Some(5), 3, 4, 2);
    assert!(w1 < w0 && w2 < w1);
    assert!(w1 - w2 > w0 - w1);
}
