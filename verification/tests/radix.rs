use rmi_lib::{common_prefix_size, num_bits};
use rmi_lib::{Model, ModelData, ModelDataType, ModelParam, ModelRestriction};
use rmi_lib::{RadixModel, RadixTable};

fn top(field: u64, low: u64) -> u64 {
    (field << 62) | low
}

#[test]
fn test_empty() {
    RadixModel::new(&ModelData::empty());
}

#[test]
fn empty_training_set_gives_zero_widths() {
    let model = RadixModel::new(&ModelData::empty());
    assert_eq!(model.params(), vec![ModelParam::Int(0), ModelParam::Int(0)]);
    assert_eq!(model.predict_to_int(0), 0);
    assert_eq!(model.predict_to_int(u64::MAX), 0);
}

#[test]
fn num_bits_is_the_bit_length() {
    assert_eq!(num_bits(0), 0);
    assert_eq!(num_bits(1), 1);
    assert_eq!(num_bits(2), 2);
    assert_eq!(num_bits(3), 2);
    assert_eq!(num_bits(255), 8);
    assert_eq!(num_bits(256), 9);
    assert_eq!(num_bits(u64::MAX), 64);
}

#[test]
fn common_prefix_of_no_key_is_zero() {
    assert_eq!(common_prefix_size(&ModelData::empty()), 0);
}

#[test]
fn common_prefix_of_one_key_is_the_whole_key() {
    assert_eq!(common_prefix_size(&ModelData::new(vec![(12345, 0)])), 64);
    assert_eq!(common_prefix_size(&ModelData::new(vec![(7, 0), (7, 1), (7, 2)])), 64);
}

#[test]
fn common_prefix_stops_at_the_first_differing_bit() {
    let data = ModelData::new(vec![(0b1010 << 60, 0), (0b1011 << 60, 1)]);
    assert_eq!(common_prefix_size(&data), 3);
    let data = ModelData::new(vec![(0, 0), (1, 1)]);
    assert_eq!(common_prefix_size(&data), 63);
    let data = ModelData::new(vec![(0, 0), (u64::MAX, 1)]);
    assert_eq!(common_prefix_size(&data), 0);
    let data = ModelData::new(vec![(8, 0), (9, 1), (15, 2)]);
    assert_eq!(common_prefix_size(&data), 61);
}

#[test]
fn radix_model_takes_widths_from_the_training_set() {
    let data = ModelData::new(vec![(8, 0), (9, 1), (12, 2), (15, 3)]);
    let model = RadixModel::new(&data);
    assert_eq!(model.params(), vec![ModelParam::Int(61), ModelParam::Int(2)]);
    assert_eq!(model.predict_to_int(8), 0);
    assert_eq!(model.predict_to_int(9), 0);
    assert_eq!(model.predict_to_int(12), 2);
    assert_eq!(model.predict_to_int(15), 3);
}

#[test]
fn radix_model_estimates_stay_below_two_to_the_bits() {
    let entries: Vec<(u64, u64)> = (0..200u64).map(|i| (1000 + 3 * i, i)).collect();
    let data = ModelData::new(entries.clone());
    let model = RadixModel::new(&data);
    let bits = match &model.params()[1] {
        ModelParam::Int(bits) => *bits,
        _ => unreachable!(),
    };
    assert_eq!(bits, 8);
    for (key, _) in entries {
        assert!(model.predict_to_int(key) < (1u64 << bits));
    }
}

#[test]
fn radix_model_with_a_prefix_of_the_whole_key_estimates_zero() {
    let model = RadixModel::new(&ModelData::new(vec![(77, 5)]));
    assert_eq!(model.params(), vec![ModelParam::Int(64), ModelParam::Int(3)]);
    assert_eq!(model.predict_to_int(77), 0);
}

#[test]
fn radix_model_describes_itself() {
    let model = RadixModel::new(&ModelData::empty());
    assert_eq!(model.input_type(), ModelDataType::Int);
    assert_eq!(model.output_type(), ModelDataType::Int);
    assert_eq!(model.function_name(), "radix");
    assert_eq!(
        model.code(),
        "
inline uint64_t radix(uint64_t prefix_length, uint64_t bits, uint64_t inp) {
    return (inp << prefix_length) >> (64 - bits);
}"
    );
    assert!(!model.needs_bounds_check());
    assert_eq!(model.restriction(), ModelRestriction::MustBeTop);
    assert_eq!(model.error_bound(), None);
}

#[test]
fn hint_table_back_fills_skipped_slots() {
    let data = ModelData::new(vec![
        (top(0, 0), 0),
        (top(0, 1), 1),
        (top(2, 0), 2),
        (top(2, 1), 3),
        (top(3, 0), 4),
    ]);
    let table = RadixTable::new(&data, 2);
    assert_eq!(
        table.params(),
        vec![ModelParam::Int(0), ModelParam::Int32Array(vec![0, 2, 2, 4])]
    );
}

#[test]
fn hint_table_fills_trailing_slots_with_its_length() {
    let data = ModelData::new(vec![(top(0, 0), 0), (top(2, 0), 1), (top(2, 5), 2)]);
    let table = RadixTable::new(&data, 2);
    assert_eq!(
        table.params(),
        vec![ModelParam::Int(0), ModelParam::Int32Array(vec![0, 1, 1, 4])]
    );
    let data = ModelData::new(vec![(0, 0), (4 << 61, 1), (5 << 61, 2)]);
    let table = RadixTable::new(&data, 3);
    assert_eq!(
        table.params(),
        vec![ModelParam::Int(0), ModelParam::Int32Array(vec![0, 1, 1, 1, 1, 2, 8, 8])]
    );
    let table = RadixTable::new(&ModelData::empty(), 3);
    assert_eq!(
        table.params(),
        vec![ModelParam::Int(0), ModelParam::Int32Array(vec![0, 8, 8, 8, 8, 8, 8, 8])]
    );
}

#[test]
fn hint_table_of_no_bits_has_one_slot() {
    let data = ModelData::new(vec![(3, 0), (4, 1)]);
    let table = RadixTable::new(&data, 0);
    assert_eq!(
        table.params(),
        vec![ModelParam::Int(61), ModelParam::Int32Array(vec![0])]
    );
    assert_eq!(table.predict_to_int(3), 0);
    assert_eq!(table.predict_to_int(4), 0);
}

#[test]
fn hint_table_slot_zero_holds_the_first_position_of_field_zero() {
    let data = ModelData::new(vec![(top(0, 0), 5), (top(2, 0), 6)]);
    let table = RadixTable::new(&data, 2);
    assert_eq!(
        table.params(),
        vec![ModelParam::Int(0), ModelParam::Int32Array(vec![5, 6, 6, 4])]
    );
    assert_eq!(table.predict_to_int(top(0, 0)), 5);
    let data = ModelData::new(vec![(0, 5), (1 << 63, 6)]);
    let table = RadixTable::new(&data, 1);
    assert_eq!(
        table.params(),
        vec![ModelParam::Int(0), ModelParam::Int32Array(vec![5, 6])]
    );
    assert_eq!(table.predict_to_int(0), 5);
    assert_eq!(table.predict_to_int(1 << 63), 6);
    let data = ModelData::new(vec![(top(2, 0), 7), (top(3, 0), 8)]);
    let table = RadixTable::new(&data, 1);
    assert_eq!(
        table.params(),
        vec![ModelParam::Int(1), ModelParam::Int32Array(vec![7, 8])]
    );
}

#[test]
fn hint_table_slot_zero_is_zero_where_no_entry_has_field_zero() {
    let data = ModelData::new(vec![(top(1, 0), 7), (top(3, 0), 8)]);
    let table = RadixTable::new(&data, 2);
    assert_eq!(
        table.params(),
        vec![ModelParam::Int(0), ModelParam::Int32Array(vec![0, 7, 8, 8])]
    );
}

#[test]
fn hint_is_never_above_the_position_of_an_entry() {
    let entries: Vec<(u64, u64)> = (0..64u64).map(|i| (i * i * (1 << 51), 3 + i)).collect();
    let data = ModelData::new(entries.clone());
    let table = RadixTable::new(&data, 5);
    for (key, position) in entries {
        assert!(table.predict_to_int(key) <= position);
    }
}

#[test]
fn hint_table_cuts_positions_to_32_bits() {
    let data = ModelData::new(vec![(top(0, 0), 0), (top(2, 0), (1 << 32) + 7)]);
    let table = RadixTable::new(&data, 1);
    assert_eq!(
        table.params(),
        vec![ModelParam::Int(0), ModelParam::Int32Array(vec![0, 7])]
    );
}

#[test]
fn hint_table_looks_up_the_field_behind_the_common_prefix() {
    let data = ModelData::new(vec![(16, 0), (17, 1), (20, 2), (21, 3), (30, 4), (31, 5)]);
    assert_eq!(common_prefix_size(&data), 60);
    let table = RadixTable::new(&data, 2);
    assert_eq!(
        table.params(),
        vec![ModelParam::Int(60), ModelParam::Int32Array(vec![0, 2, 4, 4])]
    );
    assert_eq!(table.predict_to_int(16), 0);
    assert_eq!(table.predict_to_int(17), 0);
    assert_eq!(table.predict_to_int(20), 2);
    assert_eq!(table.predict_to_int(23), 2);
    assert_eq!(table.predict_to_int(30), 4);
}

#[test]
fn hint_table_entries_never_decrease_for_ranked_positions() {
    let entries: Vec<(u64, u64)> = (0..16u64).map(|i| (i * i * (1 << 54), i)).collect();
    let data = ModelData::new(entries);
    let table = RadixTable::new(&data, 4);
    let slots = match &table.params()[1] {
        ModelParam::Int32Array(slots) => slots.clone(),
        _ => unreachable!(),
    };
    assert_eq!(slots.len(), 16);
    for pair in slots.windows(2) {
        assert!(pair[0] <= pair[1]);
    }
}

#[test]
fn hint_table_describes_itself() {
    let data = ModelData::new(vec![(16, 0), (31, 1)]);
    let table = RadixTable::new(&data, 2);
    assert_eq!(table.input_type(), ModelDataType::Int);
    assert_eq!(table.output_type(), ModelDataType::Int);
    assert_eq!(table.function_name(), "radix_table");
    assert_eq!(
        table.code(),
        "
inline uint64_t radix_table(uint64_t prefix_length, uint32_t* table, uint64_t inp) {
    return table[((inp << prefix_length) >> prefix_length) >> (64 - 62)];
}"
    );
    assert!(!table.needs_bounds_check());
    assert_eq!(table.restriction(), ModelRestriction::Unrestricted);
    assert_eq!(table.error_bound(), None);
}

#[test]
fn hint_table_slot_of_a_field_holds_the_position_of_its_first_entry() {
    let entries = vec![
        (top(0, 0), 0),
        (top(0, 9), 1),
        (top(1, 0), 2),
        (top(3, 0), 3),
        (top(3, 1), 4),
    ];
    let data = ModelData::new(entries.clone());
    let table = RadixTable::new(&data, 2);
    assert_eq!(
        table.params(),
        vec![ModelParam::Int(0), ModelParam::Int32Array(vec![0, 2, 3, 3])]
    );
    let mut seen: Vec<u64> = Vec::new();
    for (key, position) in entries {
        let field = key >> 62;
        if !seen.contains(&field) {
            seen.push(field);
            assert_eq!(table.predict_to_int(key), position);
        }
    }
}
