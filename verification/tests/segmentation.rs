use rmi_lib::{HiddenUnit, ModelData, Probe, Segmenter, NN};

fn misses(data: &ModelData, probe: Probe, threshold: f64) -> bool {
    let (key_l, val_l) = data.get(probe.left);
    let (key_r, val_r) = data.get(probe.right);
    let (key_i, val_i) = data.get(probe.point);
    let (x_l, y_l) = (key_l as f64, val_l as f64);
    let (x_r, y_r) = (key_r as f64, val_r as f64);
    let (x_i, y_i) = (key_i as f64, val_i as f64);
    let a = (y_r - y_l) / (x_r - x_l);
    let b = y_l - a * x_l;
    let p = a * x_i + b;
    let err = if p > y_i { p - y_i } else { y_i - p };
    err > threshold
}

fn segment(data: &ModelData, from: usize, to: usize, threshold: f64) -> Vec<(u64, u64)> {
    let mut segmenter = Segmenter::new(data, from, to);
    while let Some(probe) = segmenter.pending() {
        let exceeded = misses(data, probe, threshold);
        segmenter = segmenter.advance(exceeded);
    }
    segmenter.finish()
}

fn train(breakpoints: &[(u64, u64)]) -> NN {
    let mut nn = NN::new();
    nn.set_output_bias((breakpoints[0].1 as f64).to_bits());
    let mut prev_slope = 0.0f64;
    for pair in breakpoints.windows(2) {
        let (x1, y1) = (pair[0].0 as f64, pair[0].1 as f64);
        let (x2, y2) = (pair[1].0 as f64, pair[1].1 as f64);
        let slope = (y2 - y1) / (x2 - x1);
        let weight = (slope - prev_slope).abs();
        let out_weight: f64 = if slope > prev_slope { 1.0 } else { -1.0 };
        nn.push_hidden_unit(HiddenUnit {
            weight: weight.to_bits(),
            bias: (-(x1 * weight)).to_bits(),
            out_weight: out_weight.to_bits(),
        });
        prev_slope = slope;
    }
    nn
}

fn inference(nn: &NN, input: f64) -> f64 {
    let mut sum = 0.0f64;
    for i in 0..nn.hidden_units() {
        let unit = nn.hidden_unit(i);
        let hidden = input.mul_add(f64::from_bits(unit.weight), f64::from_bits(unit.bias));
        sum += hidden.max(0.0) * f64::from_bits(unit.out_weight);
    }
    sum + f64::from_bits(nn.output_bias())
}

#[test]
fn entries_on_one_line_are_one_segment() {
    let entries: Vec<(u64, u64)> = (0..1000u64).map(|i| (i, i)).collect();
    let data = ModelData::new(entries);
    assert_eq!(segment(&data, 0, 1000, 0.5), vec![(0, 0), (999, 999)]);
}

#[test]
fn a_late_key_closes_the_segment_before_it() {
    let data = ModelData::new(vec![(1, 0), (2, 1), (3, 2), (10, 3)]);
    assert_eq!(segment(&data, 0, 4, 0.1), vec![(1, 0), (3, 2), (10, 3)]);
}

#[test]
fn first_question_is_about_the_first_line_with_a_point_inside() {
    let data = ModelData::new(vec![(1, 0), (2, 1), (3, 2), (10, 3)]);
    let segmenter = Segmenter::new(&data, 0, 4);
    assert_eq!(segmenter.pending(), Some(Probe { left: 0, right: 3, point: 1 }));
    let segmenter = segmenter.advance(true);
    assert_eq!(segmenter.pending(), None);
    assert_eq!(segmenter.finish(), vec![(1, 0), (3, 2), (10, 3)]);
}

#[test]
fn every_point_inside_is_asked_about_before_the_end_moves_on() {
    let entries: Vec<(u64, u64)> = (0..6u64).map(|i| (i, i)).collect();
    let data = ModelData::new(entries);
    let mut segmenter = Segmenter::new(&data, 0, 6);
    let mut asked = Vec::new();
    while let Some(probe) = segmenter.pending() {
        asked.push((probe.left, probe.right, probe.point));
        segmenter = segmenter.advance(false);
    }
    assert_eq!(
        asked,
        vec![(0, 3, 1), (0, 4, 1), (0, 4, 2), (0, 5, 1), (0, 5, 2), (0, 5, 3)]
    );
    assert_eq!(segmenter.finish(), vec![(0, 0), (5, 5)]);
}

#[test]
fn a_miss_moves_the_anchor_to_the_entry_before_the_end() {
    let entries: Vec<(u64, u64)> = (0..8u64).map(|i| (i, i)).collect();
    let data = ModelData::new(entries);
    let segmenter = Segmenter::new(&data, 0, 8);
    let segmenter = segmenter.advance(false);
    assert_eq!(segmenter.pending(), Some(Probe { left: 0, right: 4, point: 1 }));
    let segmenter = segmenter.advance(true);
    assert_eq!(segmenter.pending(), Some(Probe { left: 3, right: 6, point: 4 }));
    let segmenter = segmenter.advance(true);
    assert_eq!(segmenter.pending(), None);
    assert_eq!(segmenter.finish(), vec![(0, 0), (3, 3), (5, 5), (7, 7)]);
}

#[test]
fn an_answer_after_the_end_changes_nothing() {
    let data = ModelData::new(vec![(1, 0), (2, 1)]);
    let segmenter = Segmenter::new(&data, 0, 2);
    assert_eq!(segmenter.pending(), None);
    let segmenter = segmenter.advance(true);
    assert_eq!(segmenter.pending(), None);
    assert_eq!(segmenter.finish(), vec![(1, 0), (2, 1)]);
}

#[test]
fn several_segments_on_a_bent_training_set() {
    let data = ModelData::new(vec![
        (0, 0),
        (1, 1),
        (2, 2),
        (3, 3),
        (10, 4),
        (20, 5),
        (30, 6),
        (31, 7),
        (32, 8),
        (33, 9),
    ]);
    assert_eq!(
        segment(&data, 0, 10, 0.5),
        vec![(0, 0), (3, 3), (31, 7), (33, 9)]
    );
}

#[test]
fn threshold_decides_the_number_of_segments() {
    let entries: Vec<(u64, u64)> = (0..20u64).map(|i| (i * i, i)).collect();
    let data = ModelData::new(entries);
    assert_eq!(
        segment(&data, 0, 20, 1.0),
        vec![(0, 0), (16, 4), (144, 12), (361, 19)]
    );
    assert_eq!(
        segment(&data, 0, 20, 0.0),
        vec![
            (0, 0),
            (4, 2),
            (16, 4),
            (36, 6),
            (64, 8),
            (100, 10),
            (144, 12),
            (196, 14),
            (256, 16),
            (324, 18),
            (361, 19)
        ]
    );
}

#[test]
fn duplicate_keys_never_end_a_segment_of_zero_width() {
    let data = ModelData::new(vec![
        (0, 0),
        (1, 1),
        (1, 2),
        (1, 3),
        (2, 4),
        (5, 5),
        (5, 6),
        (9, 7),
    ]);
    let breakpoints = segment(&data, 0, 8, 0.25);
    assert_eq!(breakpoints, vec![(0, 0), (1, 2), (2, 4), (5, 6), (9, 7)]);
    for pair in breakpoints.windows(2) {
        assert!(pair[0].0 < pair[1].0);
    }
}

#[test]
fn a_range_inside_the_training_set_is_segmented_alone() {
    let data = ModelData::new(vec![
        (0, 0),
        (1, 1),
        (1, 2),
        (1, 3),
        (2, 4),
        (5, 5),
        (5, 6),
        (9, 7),
    ]);
    assert_eq!(segment(&data, 2, 7, 0.25), vec![(1, 2), (2, 4), (5, 6)]);
}

#[test]
fn last_entry_is_not_added_where_its_key_was_emitted() {
    let data = ModelData::new(vec![(1, 0), (2, 1), (4, 2), (4, 3)]);
    assert_eq!(segment(&data, 0, 4, 0.0), vec![(1, 0), (4, 3)]);
    let data = ModelData::new(vec![(1, 0), (2, 5), (4, 6), (4, 7), (4, 8)]);
    let segmenter = Segmenter::new(&data, 0, 5);
    assert_eq!(segmenter.pending(), Some(Probe { left: 0, right: 3, point: 1 }));
    let segmenter = segmenter.advance(true);
    assert_eq!(segmenter.pending(), None);
    assert_eq!(segmenter.finish(), vec![(1, 0), (4, 6)]);
}

#[test]
fn a_range_of_one_key_is_one_breakpoint() {
    let data = ModelData::new(vec![(5, 0), (5, 1), (5, 2)]);
    assert_eq!(segment(&data, 0, 3, 0.0), vec![(5, 0)]);
    let data = ModelData::new(vec![(7, 0)]);
    assert_eq!(segment(&data, 0, 1, 0.0), vec![(7, 0)]);
}

#[test]
fn a_range_of_two_entries_is_one_segment() {
    let data = ModelData::new(vec![(1, 0), (2, 1)]);
    assert_eq!(segment(&data, 0, 2, 0.0), vec![(1, 0), (2, 1)]);
}

#[test]
fn trained_corrector_passes_through_its_breakpoints() {
    let entries: Vec<(u64, u64)> = (0..200u64).map(|i| (i * i + 3 * i, i)).collect();
    let data = ModelData::new(entries);
    let breakpoints = segment(&data, 0, 200, 2.0);
    assert!(breakpoints.len() > 2);
    let nn = train(&breakpoints);
    assert_eq!(nn.hidden_units(), breakpoints.len() - 1);
    for (key, position) in &breakpoints {
        let estimate = inference(&nn, *key as f64);
        assert!((estimate - *position as f64).abs() < 1.0e-6);
    }
    let reloaded = NN::load(&nn.save()).unwrap();
    for (key, _) in &breakpoints {
        let x = *key as f64;
        assert_eq!(inference(&reloaded, x).to_bits(), inference(&nn, x).to_bits());
    }
}

#[test]
fn corrector_of_three_breakpoints_has_the_stated_parameters() {
    let nn = train(&[(1, 0), (3, 2), (10, 3)]);
    assert_eq!(nn.hidden_units(), 2);
    assert_eq!(f64::from_bits(nn.output_bias()), 0.0);
    let first = nn.hidden_unit(0);
    assert_eq!(f64::from_bits(first.weight), 1.0);
    assert_eq!(f64::from_bits(first.bias), -1.0);
    assert_eq!(f64::from_bits(first.out_weight), 1.0);
    let second = nn.hidden_unit(1);
    let kink = (1.0f64 / 7.0 - 1.0).abs();
    assert_eq!(f64::from_bits(second.weight), kink);
    assert_eq!(f64::from_bits(second.bias), -(3.0 * kink));
    assert_eq!(f64::from_bits(second.out_weight), -1.0);
    assert_eq!(inference(&nn, 1.0), 0.0);
    assert_eq!(inference(&nn, 3.0), 2.0);
    assert!((inference(&nn, 10.0) - 3.0).abs() < 1.0e-12);
}
