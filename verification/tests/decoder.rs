use fountain_engine::decoder::Decoder;
use fountain_engine::traits::{CodeScheme, PrecodePair};
use fountain_engine::types::{CodeParams, CodeType, DecodingConfig, DegreeSet, DegreeSetFn};

struct FirstVariable;

impl DegreeSet for FirstVariable {
    fn degree_set(&mut self, _symbol: usize) -> Vec<usize> {
        vec![0]
    }
}

#[derive(Clone)]
struct DummySystematic {
    k: usize,
}

impl CodeScheme for DummySystematic {
    fn get_params(&self) -> CodeParams {
        CodeParams::new(self.k, self.k, 0, 0)
    }

    fn code_type(&self) -> CodeType {
        CodeType::Systematic
    }

    fn create_degree_set_fn(&self) -> DegreeSetFn {
        DegreeSetFn::new(Box::new(FirstVariable))
    }

    fn create_precode(&self) -> PrecodePair {
        (None, None)
    }

    fn decoding_config(&self) -> DecodingConfig {
        DecodingConfig::default()
    }
}

#[test]
fn new_with_num_source_registers_systematic_padding_coded_ids() {
    let scheme = DummySystematic { k: 12 };
    let decoder = Decoder::new_with_num_source(&scheme, 10).unwrap();
    assert_eq!(decoder.manager.num_source(), 10);
    assert!(decoder.manager.has_padding());
    assert!(decoder.manager.data_id_of_coded_vector(10).is_some());
    assert!(decoder.manager.data_id_of_coded_vector(11).is_some());
    assert!(decoder.manager.data_id_of_coded_vector(12).is_none());
}
