use hexodsp::dsp::helpers::{next_xoroshiro128, RandGen, Rng, SplitMix64, TrigLevel, TrigSignal, Trigger, TriggerSampleClock};
use hexodsp::dsp::tracker::PatternColType;
use hexodsp::dsp::node_params::ParamId;
use hexodsp::dsp::{NodeId, RandNodeSelector, UICategory, UIType};

#[test]
fn xoroshiro_sequence() {
    let mut r = RandGen::new();
    assert_eq!(r.next(), 0xb0bd7559b9e37c24);
    assert_eq!(r.next(), 0x7a28d72dfad33553);
    assert_eq!(r.next(), 0x16c1410205cfde51);
}

#[test]
fn xoroshiro_state_step() {
    let mut s = [1u64, 2u64];
    assert_eq!(next_xoroshiro128(&mut s), 3);
}

#[test]
fn splitmix_sequence() {
    let mut r = Rng::new();
    assert_eq!(r.next_u64(), 13828068419439831190);
    assert_eq!(r.next_u64(), 14740933583927677360);
    r.seed(0);
    assert_eq!(r.next_u64(), 0xe220a8397b1dcdaf);
    let mut s = SplitMix64::new(0);
    assert_eq!(s.next_i64(), -2152535657050944081);
    let t = SplitMix64::new_from_i64(-1);
    assert_eq!(t.0, u64::MAX);
    let c = SplitMix64::seed_from_clock(None);
    assert_eq!(c.0, 123456789);
    let _ = SplitMix64::new_time_seed();
}

#[test]
fn trigger_helpers() {
    let mut t = TrigSignal::new();
    t.trigger();
    t.reset();
    let mut d = Trigger::new();
    d.reset();
    let mut c = TriggerSampleClock::new();
    c.reset();
}

#[test]
fn category_colors() {
    assert_eq!(UICategory::Uncategorized.default_color_idx(), 17);
    assert_eq!(UICategory::Osc.default_color_idx(), 0);
    assert_eq!(UICategory::Mod.default_color_idx(), 7);
    assert_eq!(UICategory::NtoM.default_color_idx(), 4);
    assert_eq!(UICategory::Signal.default_color_idx(), 2);
    assert_eq!(UICategory::Ctrl.default_color_idx(), 12);
    assert_eq!(UICategory::IOUtil.default_color_idx(), 10);
    assert_ne!(UIType::Generic, UIType::OscA);
    assert_ne!(RandNodeSelector::Any, RandNodeSelector::OnlyUseful);
    assert!(PatternColType::Note < PatternColType::Gate);
}

#[test]
fn check_node_size_staying_small() {
    assert_eq!(std::mem::size_of::<hexodsp::dsp::NodeId>(), 2);
    assert_eq!(std::mem::size_of::<ParamId>(), 24);
}

#[test]
fn trig_signal_pulse_length() {
    let mut ts = TrigSignal::new();
    assert!(!ts.next());
    ts.trigger();
    let mut high = 0;
    while ts.next() {
        high += 1;
    }
    assert_eq!(high, 89);
    ts.set_length(3);
    ts.trigger();
    assert!(ts.next() && ts.next() && ts.next());
    assert!(!ts.next());
    ts.trigger();
    ts.reset();
    assert!(!ts.next());
}

#[test]
fn trigger_detects_rising_edges() {
    let mut t = Trigger::new();
    assert!(!t.check_trigger(TrigLevel::Mid));
    assert!(t.check_trigger(TrigLevel::High));
    assert!(!t.check_trigger(TrigLevel::High));
    assert!(!t.check_trigger(TrigLevel::Mid));
    assert!(!t.check_trigger(TrigLevel::High));
    assert!(!t.check_trigger(TrigLevel::Low));
    assert!(t.check_trigger(TrigLevel::High));
    t.reset();
    assert!(t.check_trigger(TrigLevel::High));
}

#[test]
fn sample_clock_measures_trigger_distance() {
    let mut c = TriggerSampleClock::new();
    assert_eq!(c.next(TrigLevel::High), 0);
    assert_eq!(c.next(TrigLevel::Low), 0);
    assert_eq!(c.next(TrigLevel::High), 2);
    for _ in 0..4 {
        assert_eq!(c.next(TrigLevel::Low), 2);
    }
    assert_eq!(c.next(TrigLevel::High), 5);
    c.reset();
    assert_eq!(c.next(TrigLevel::Mid), 0);
}

#[test]
fn node_inputs_and_outputs_by_name() {
    assert_eq!(NodeId::Amp(0).inp("gain"), Some(1));
    assert_eq!(NodeId::Amp(0).inp("neg_att"), None);
    assert_eq!(NodeId::Amp(0).inp("nothing"), None);
    assert_eq!(NodeId::Nop.inp("inp"), None);
    assert_eq!(NodeId::TSeq(0).out("gat1"), Some(6));
    assert_eq!(NodeId::Sin(2).out("sig"), Some(0));
    assert_eq!(NodeId::Out(0).out("sig"), None);
}

#[test]
fn node_inputs_and_outputs_by_index() {
    assert_eq!(NodeId::SMap(0).inp_name_by_idx(2), Some("max"));
    assert_eq!(NodeId::SMap(0).inp_name_by_idx(3), Some("mode"));
    assert_eq!(NodeId::SMap(0).inp_name_by_idx(4), Some("clip"));
    assert_eq!(NodeId::SMap(0).inp_name_by_idx(5), None);
    assert_eq!(NodeId::Sin(0).out_name_by_idx(0), Some("sig"));
    assert_eq!(NodeId::Sin(0).out_name_by_idx(1), None);
    assert_eq!(NodeId::PVerb(0).out_name_by_idx(1), Some("sig_r"));
}

#[test]
fn parameter_ids_of_parameters_and_settings() {
    let p = NodeId::Amp(2).param_by_idx(3).unwrap();
    assert_eq!(p.name(), "neg_att");
    assert_eq!(p.inp(), 3);
    assert_eq!(p.node_id(), NodeId::Amp(2));
    assert!(p.is_atom());
    assert_eq!(p.atom_ui(), Some("mode"));
    assert_eq!(p.setting_min_max(), Some((0, 1)));
    assert!(NodeId::Amp(0).param_by_idx(4).is_none());
    assert!(NodeId::Amp(0).inp_param_by_idx(3).is_none());
    let g = NodeId::Amp(0).inp_param("att").unwrap();
    assert_eq!(g.inp(), 2);
    assert!(!g.is_atom());
    assert_eq!(g.atom_ui(), None);
    assert_eq!(g.setting_min_max(), None);
    assert_eq!(NodeId::Amp(0).inp_param("neg_att").unwrap().inp(), 3);
    assert!(NodeId::Amp(0).inp_param("nothing").is_none());
    let clip = NodeId::SMap(0).atom_param_by_idx(0).unwrap();
    assert_eq!(clip.name(), "clip");
    assert_eq!(clip.inp(), 4);
    assert!(NodeId::SMap(0).atom_param_by_idx(2).is_none());
    let knob = NodeId::Test(0).inp_param("p").unwrap();
    assert_eq!(knob.atom_ui(), Some("knob"));
    assert_eq!(knob.setting_min_max(), Some((0, 10)));
    assert_eq!(NodeId::Mix3(0).inp_param_by_idx(6).unwrap().name(), "ogain");
    let none = ParamId::none();
    assert_eq!(none.name(), "NOP");
    assert_eq!(none.node_id(), NodeId::Nop);
    assert_eq!(none.inp(), 0);
}

#[test]
fn seeded_rng_follows_splitmix() {
    let mut r = Rng::new();
    r.next_u64();
    r.seed(0xdead_beef);
    let mut s = SplitMix64::new(0xdead_beef);
    for _ in 0..5 {
        assert_eq!(r.next_u64(), s.next_u64());
    }
}
