use fdnverb::engine::{ControlCache, Controls};
use fdnverb::params::ReverbParam;

#[test]
fn params_in_host_order() {
    assert_eq!(ReverbParam::VARIANT_COUNT, 13);
    assert_eq!(ReverbParam::from_index(0), Some(ReverbParam::Gain));
    assert_eq!(ReverbParam::from_index(4), Some(ReverbParam::StereoSeparation));
    assert_eq!(ReverbParam::from_index(12), Some(ReverbParam::Phase));
    assert_eq!(ReverbParam::from_index(13), None);
}

#[test]
fn param_names_and_labels() {
    assert_eq!(ReverbParam::StereoSeparation.name(), "Stereo Separation");
    assert_eq!(ReverbParam::Prescence.name(), "Prescence");
    assert_eq!(ReverbParam::Floor.label(), "Hz");
    assert_eq!(ReverbParam::Gain.label(), "%");
    assert_eq!(ReverbParam::Phase.label(), "");
    assert_eq!(ReverbParam::Primes.label(), "");
}

fn controls() -> Controls {
    Controls {
        feedback: 0.5f64.to_bits(),
        phase: 3,
        floor: 20.0f64.to_bits(),
        ceiling: 20000.0f64.to_bits(),
        primes: 1.0f64.to_bits(),
        length: 0.1f64.to_bits(),
    }
}

#[test]
fn first_update_recomputes_everything() {
    let mut cache = ControlCache::new();
    let plan = cache.update(controls());
    assert!(plan.gains && plan.floor && plan.ceiling && plan.lengths);
    assert_eq!(cache.last, Some(controls()));
}

#[test]
fn unchanged_controls_recompute_nothing() {
    let mut cache = ControlCache::new();
    cache.update(controls());
    let plan = cache.update(controls());
    assert!(!plan.gains && !plan.floor && !plan.ceiling && !plan.lengths);
}

#[test]
fn each_change_recomputes_its_own_part() {
    let mut cache = ControlCache::new();
    cache.update(controls());
    let mut c = controls();
    c.phase = 4;
    let plan = cache.update(c);
    assert!(plan.gains && !plan.floor && !plan.ceiling && !plan.lengths);
    c.length = 0.2f64.to_bits();
    let plan = cache.update(c);
    assert!(!plan.gains && !plan.floor && !plan.ceiling && plan.lengths);
    c.ceiling = 8000.0f64.to_bits();
    let plan = cache.update(c);
    assert!(!plan.gains && !plan.floor && plan.ceiling && !plan.lengths);
    c.floor = 40.0f64.to_bits();
    c.feedback = 0.0f64.to_bits();
    let plan = cache.update(c);
    assert!(plan.gains && plan.floor && !plan.ceiling && !plan.lengths);
}
