use fountain_engine::encoder::Encoder;
use fountain_engine::traits::{CodeScheme, PrecodePair};
use fountain_engine::types::{CodeParams, CodeType, DecodingConfig, DegreeSet, DegreeSetFn, Operation};

struct FirstVariable;

impl DegreeSet for FirstVariable {
    fn degree_set(&mut self, _symbol: usize) -> Vec<usize> {
        vec![0]
    }
}

#[derive(Clone)]
struct DummySystematic {
    k: usize,
}

impl CodeScheme for DummySystematic {
    fn get_params(&self) -> CodeParams {
        CodeParams::new(self.k, self.k, 0, 0)
    }

    fn code_type(&self) -> CodeType {
        CodeType::Systematic
    }

    fn create_degree_set_fn(&self) -> DegreeSetFn {
        DegreeSetFn::new(Box::new(FirstVariable))
    }

    fn create_precode(&self) -> PrecodePair {
        (None, None)
    }

    fn decoding_config(&self) -> DecodingConfig {
        DecodingConfig::default()
    }
}

#[derive(Clone)]
struct DummyOrdinary {
    k: usize,
    a: usize,
    b: usize,
}

impl CodeScheme for DummyOrdinary {
    fn get_params(&self) -> CodeParams {
        CodeParams::new(self.k, self.a, 1, self.b)
    }

    fn code_type(&self) -> CodeType {
        CodeType::Ordinary
    }

    fn create_degree_set_fn(&self) -> DegreeSetFn {
        DegreeSetFn::new(Box::new(FirstVariable))
    }

    fn create_precode(&self) -> PrecodePair {
        (None, None)
    }

    fn decoding_config(&self) -> DecodingConfig {
        DecodingConfig::default()
    }
}

fn ensure_zero_ids(enc: &Encoder) -> Option<Vec<usize>> {
    enc.manager.get_operations().iter().find_map(|op| match op {
        Operation::EnsureZero { list_id } => Some(list_id.clone()),
        _ => None,
    })
}

#[test]
fn new_with_num_source_sets_padding_count() {
    let scheme = DummySystematic { k: 12 };
    let enc = Encoder::new_without_precoding_with_num_source(&scheme, 10).unwrap();
    assert_eq!(enc.manager.num_source(), 10);
    assert!(enc.manager.has_padding());
}

#[test]
fn new_without_num_source_has_no_padding() {
    let scheme = DummySystematic { k: 12 };
    let enc = Encoder::new_without_precoding(&scheme).unwrap();
    assert_eq!(enc.manager.num_source(), 12);
    assert!(!enc.manager.has_padding());
}

#[test]
fn ordinary_precode_prepares_padding_slots() {
    let scheme = DummyOrdinary { k: 12, a: 11, b: 1 };
    let mut enc = Encoder::new_without_precoding_with_num_source(&scheme, 10).unwrap();
    enc.precode_encode(&scheme).unwrap();
    assert_eq!(ensure_zero_ids(&enc), Some(vec![9, 10]));
}
