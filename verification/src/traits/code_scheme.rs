use vstd::prelude::*;
use crate::traits::hdpc::HDPC;
use crate::traits::ldpc::LDPC;
use crate::types::{CodeParams, CodeType, DecodingConfig, DegreeSetFn, InactivationStrategy, SubstitutionMethod};

verus! {

/// The precode of a scheme: an optional HDPC and an optional LDPC part.
pub type PrecodePair = (Option<Box<dyn HDPC>>, Option<Box<dyn LDPC>>);

/// A fountain code: its parameters, degree sets and precode.
pub trait CodeScheme {
    /// Code parameters.
    fn get_params(&self) -> CodeParams;

    /// Code type (systematic or ordinary).
    fn code_type(&self) -> CodeType;

    /// Creates the degree set generator.
    fn create_degree_set_fn(&self) -> DegreeSetFn;

    /// Creates the precode components.
    fn create_precode(&self) -> PrecodePair;

    /// Maximum number of inactivations (default: `h + b`, saturating).
    fn max_inactive_num(&self) -> usize {
        let params = self.get_params();
        params.h.saturating_add(params.b)
    }

    /// Decoding configuration (default: [`max_inactive_num`](Self::max_inactive_num)
    /// inactivations, [`InactivationStrategy::ByIndex`], [`SubstitutionMethod::Direct`]).
    fn decoding_config(&self) -> (r: DecodingConfig)
        default_ensures
            r.inac_strategy == InactivationStrategy::ByIndex,
            r.subs_method == SubstitutionMethod::Direct,
    {
        DecodingConfig {
            max_inactive_num: self.max_inactive_num(),
            inac_strategy: InactivationStrategy::ByIndex,
            subs_method: SubstitutionMethod::Direct,
        }
    }
}

} // verus!
