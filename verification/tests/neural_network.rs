use rmi_lib::{HiddenUnit, LoadError, NN};

fn unit(weight: f64, bias: f64, out_weight: f64) -> HiddenUnit {
    HiddenUnit {
        weight: weight.to_bits(),
        bias: bias.to_bits(),
        out_weight: out_weight.to_bits(),
    }
}

fn sample() -> NN {
    let mut nn = NN::new();
    nn.set_output_bias(3.0f64.to_bits());
    nn.push_hidden_unit(unit(1.0, -1.0, 1.0));
    nn.push_hidden_unit(unit(0.5, 2.0, -1.0));
    nn
}

#[test]
fn new_corrector_has_no_hidden_unit() {
    let nn = NN::new();
    assert_eq!(nn.hidden_units(), 0);
    assert_eq!(nn.output_bias(), 0);
    assert_eq!(f64::from_bits(nn.output_bias()), 0.0);
}

#[test]
fn hidden_units_keep_their_order() {
    let nn = sample();
    assert_eq!(nn.hidden_units(), 2);
    assert_eq!(nn.hidden_unit(0), unit(1.0, -1.0, 1.0));
    assert_eq!(nn.hidden_unit(1), unit(0.5, 2.0, -1.0));
    assert_eq!(f64::from_bits(nn.output_bias()), 3.0);
}

#[test]
fn save_of_new_corrector_is_one_record() {
    assert_eq!(NN::new().save(), vec![0u8; 8]);
}

#[test]
fn save_writes_least_significant_byte_first() {
    let mut nn = NN::new();
    nn.set_output_bias(0x0102_0304_0506_0708);
    assert_eq!(nn.save(), vec![8, 7, 6, 5, 4, 3, 2, 1]);
    let mut nn = NN::new();
    nn.set_output_bias(1.0f64.to_bits());
    assert_eq!(nn.save(), vec![0, 0, 0, 0, 0, 0, 0xF0, 0x3F]);
}

#[test]
fn save_lays_out_weights_then_second_layer_then_biases_then_output_bias() {
    let mut expected: Vec<u8> = Vec::new();
    for value in [1.0f64, 0.5, 1.0, -1.0, -1.0, 2.0, 3.0] {
        expected.extend_from_slice(&value.to_le_bytes());
    }
    assert_eq!(sample().save(), expected);
}

#[test]
fn load_reads_least_significant_byte_first() {
    let nn = NN::load(&[8, 7, 6, 5, 4, 3, 2, 1]).unwrap();
    assert_eq!(nn.hidden_units(), 0);
    assert_eq!(nn.output_bias(), 0x0102_0304_0506_0708);
}

#[test]
fn load_splits_the_records_in_three_and_one() {
    let mut bytes: Vec<u8> = Vec::new();
    for value in [10.0f64, 20.0, 30.0, 40.0, 50.0, 60.0, 70.0] {
        bytes.extend_from_slice(&value.to_le_bytes());
    }
    let nn = NN::load(&bytes).unwrap();
    assert_eq!(nn.hidden_units(), 2);
    assert_eq!(nn.hidden_unit(0), unit(10.0, 50.0, 30.0));
    assert_eq!(nn.hidden_unit(1), unit(20.0, 60.0, 40.0));
    assert_eq!(f64::from_bits(nn.output_bias()), 70.0);
}

#[test]
fn load_of_save_gives_the_same_bits() {
    let mut nn = sample();
    nn.push_hidden_unit(HiddenUnit {
        weight: f64::NAN.to_bits() | 0x5555,
        bias: (-0.0f64).to_bits(),
        out_weight: f64::INFINITY.to_bits(),
    });
    nn.push_hidden_unit(unit(f64::MIN_POSITIVE / 2.0, 1.0e300, -1.0 / 3.0));
    let loaded = NN::load(&nn.save()).unwrap();
    assert_eq!(loaded, nn);
    assert_eq!(loaded.save(), nn.save());
    assert_eq!(NN::load(&NN::new().save()).unwrap(), NN::new());
}

#[test]
fn save_of_load_gives_the_same_bytes() {
    let bytes: Vec<u8> = (0..56u8).map(|i| i.wrapping_mul(37)).collect();
    assert_eq!(NN::load(&bytes).unwrap().save(), bytes);
}

#[test]
fn load_refuses_a_partial_record() {
    assert_eq!(NN::load(&[0u8; 7]), Err(LoadError::PartialRecord));
    assert_eq!(NN::load(&[0u8; 9]), Err(LoadError::PartialRecord));
    assert_eq!(NN::load(&[0u8; 1]), Err(LoadError::PartialRecord));
}

#[test]
fn load_refuses_a_record_count_that_is_not_one_more_than_a_multiple_of_three() {
    assert_eq!(NN::load(&[]), Err(LoadError::ParameterCount));
    assert_eq!(NN::load(&[0u8; 16]), Err(LoadError::ParameterCount));
    assert_eq!(NN::load(&[0u8; 24]), Err(LoadError::ParameterCount));
    assert_eq!(NN::load(&[0u8; 48]), Err(LoadError::ParameterCount));
    assert!(NN::load(&[0u8; 8]).is_ok());
    assert!(NN::load(&[0u8; 32]).is_ok());
    assert!(NN::load(&[0u8; 56]).is_ok());
}
