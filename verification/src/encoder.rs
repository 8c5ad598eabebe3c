use vstd::prelude::*;
use crate::data_manager::{DataManager, add_to_vector_ops, variable_data_ids};
use crate::engine::precode::precode_with;
use crate::engine::system_solver::{SolverError, SystemSolver};
use crate::traits::code_scheme::CodeScheme;
use crate::traits::data_operator::DataOperator;
use crate::traits::hdpc::HDPC;
use crate::traits::ldpc::LDPC;
use crate::types::{CodeParams, CodeType, DecodeStatus, DecodingConfig, DegreeSetFn, OpView, SolverType};

verus! {

broadcast use crate::data_manager::group_log_grows;

/// Why an encoder could not be set up or precode.
#[derive(Debug, Clone, Copy, PartialEq, Eq, Structural)]
pub enum EncoderError {
    /// The scheme's parameters are inconsistent (`a + b != k`, or the
    /// layout does not fit in a `usize`).
    InvalidParams,
    /// The source count is outside `b..=k`.
    InvalidNumSource,
    /// The systematic solver could not be set up.
    Solver(SolverError),
    /// The systematic encoding solve did not recover every variable.
    SystematicFailed,
    /// The HDPC precode system could not be solved.
    PrecodeFailed,
    /// Data IDs ran out.
    IdsExhausted,
}

/// The operations recorded for LT coded vector `coded_id` with data ID
/// `data_id` and degree set `degree_set`: a fresh zero vector, the variable
/// vectors of the degree set added into it, and the coded vector marker.
pub open spec fn lt_ops(coded_id: usize, data_id: usize, degree_set: Seq<usize>, var_base: int) -> Seq<OpView> {
    seq![OpView::EnsureZero { list_id: seq![data_id] }] + add_to_vector_ops(
        variable_data_ids(degree_set, var_base),
        data_id,
    ) + seq![OpView::InfoCodedVector { coded_id, data_id }]
}

/// Fountain code encoder with optional precoding.
///
/// The encoder emits operations through its [`DataManager`]; an attached
/// [`DataOperator`] carries them out on the data vectors.
pub struct Encoder {
    params: CodeParams,
    /// Manages all data vectors (message, coded, precode) and their operations.
    pub manager: DataManager,
    gen_degree_set: DegreeSetFn,
    code_type: CodeType,
}

impl Encoder {
    /// Code parameters.
    pub closed spec fn spec_params(&self) -> CodeParams {
        self.params
    }

    /// The data manager.
    pub closed spec fn spec_manager(&self) -> DataManager {
        self.manager
    }

    /// Code type.
    pub closed spec fn spec_code_type(&self) -> CodeType {
        self.code_type
    }

    /// The manager's session matches the code.
    pub closed spec fn wf(&self) -> bool {
        &&& self.manager.wf()
        &&& self.manager.spec_params() == self.params
        &&& self.manager.spec_solver_type() == (match self.code_type {
            CodeType::Systematic => SolverType::SysEnc,
            CodeType::Ordinary => SolverType::OrdEnc,
        })
    }

    /// Creates an encoder and runs precoding.
    pub fn new<T: CodeScheme>(custom: &T) -> (r: Result<Self, EncoderError>)
        ensures
            r matches Ok(e) ==> e.wf() && !e.spec_manager().has_operator() && e.spec_manager().spec_num_source()
                == e.spec_params().k,
            r != Err::<Self, EncoderError>(EncoderError::InvalidNumSource),
    {
        let manager = DataManager::new();
        Self::initialize(custom, manager, None)
    }

    /// Creates an encoder with application source count `num_source` (the
    /// internal block size stays `k`; `num_source < k` means padding) and
    /// runs precoding.
    pub fn new_with_num_source<T: CodeScheme>(custom: &T, num_source: usize) -> (r: Result<Self, EncoderError>)
        ensures
            r matches Ok(e) ==> e.wf() && !e.spec_manager().has_operator() && e.spec_manager().spec_num_source() == num_source,
    {
        let manager = DataManager::new();
        Self::initialize(custom, manager, Some(num_source))
    }

    /// Configures the encoder and data manager only; does not run precoding.
    pub fn new_without_precoding<T: CodeScheme>(custom: &T) -> (r: Result<Self, EncoderError>)
        ensures
            r matches Ok(e) ==> e.wf() && !e.spec_manager().has_operator() && e.spec_manager().log().len() == 0
                && e.spec_manager().spec_num_source() == e.spec_params().k,
            r is Err ==> r == Err::<Self, EncoderError>(EncoderError::InvalidParams),
    {
        let manager = DataManager::new();
        Self::initialize_without_precoding(custom, manager, None)
    }

    /// Like [`Self::new_with_num_source`], but leaves precoding to [`Self::precode_encode`].
    pub fn new_without_precoding_with_num_source<T: CodeScheme>(custom: &T, num_source: usize) -> (r: Result<
        Self,
        EncoderError,
    >)
        ensures
            r matches Ok(e) ==> e.wf() && !e.spec_manager().has_operator() && e.spec_manager().log().len() == 0
                && e.spec_manager().spec_num_source() == num_source,
    {
        let manager = DataManager::new();
        Self::initialize_without_precoding(custom, manager, Some(num_source))
    }

    /// Creates an encoder with a data operator and runs precoding.
    pub fn new_with_operator<T: CodeScheme>(custom: &T, operator: Box<dyn DataOperator>) -> (r: Result<
        Self,
        EncoderError,
    >)
        ensures
            r matches Ok(e) ==> e.wf() && e.spec_manager().has_operator() && e.spec_manager().spec_num_source()
                == e.spec_params().k,
            r != Err::<Self, EncoderError>(EncoderError::InvalidNumSource),
    {
        let manager = DataManager::new_with_operator(operator);
        Self::initialize(custom, manager, None)
    }

    /// Like [`Self::new_with_num_source`], with a data operator attached.
    pub fn new_with_operator_and_num_source<T: CodeScheme>(
        custom: &T,
        operator: Box<dyn DataOperator>,
        num_source: usize,
    ) -> (r: Result<Self, EncoderError>)
        ensures
            r matches Ok(e) ==> e.wf() && e.spec_manager().has_operator() && e.spec_manager().spec_num_source() == num_source,
    {
        let manager = DataManager::new_with_operator(operator);
        Self::initialize(custom, manager, Some(num_source))
    }

    /// Like [`Self::new_with_operator`], but does not record operations (execute-only).
    pub fn new_with_operator_execute_only<T: CodeScheme>(custom: &T, operator: Box<dyn DataOperator>) -> (r: Result<
        Self,
        EncoderError,
    >)
        ensures
            r matches Ok(e) ==> e.wf() && e.spec_manager().has_operator() && !e.spec_manager().records()
                && e.spec_manager().spec_num_source() == e.spec_params().k,
            r != Err::<Self, EncoderError>(EncoderError::InvalidNumSource),
    {
        let manager = DataManager::new_with_operator_execute_only(operator);
        Self::initialize(custom, manager, None)
    }

    /// Like [`Self::new_with_operator_and_num_source`], but skips recording operations.
    pub fn new_with_operator_execute_only_and_num_source<T: CodeScheme>(
        custom: &T,
        operator: Box<dyn DataOperator>,
        num_source: usize,
    ) -> (r: Result<Self, EncoderError>)
        ensures
            r matches Ok(e) ==> e.wf() && e.spec_manager().has_operator() && !e.spec_manager().records()
                && e.spec_manager().spec_num_source() == num_source,
    {
        let manager = DataManager::new_with_operator_execute_only(operator);
        Self::initialize(custom, manager, Some(num_source))
    }

    /// Like [`Self::new_with_operator`], but leaves precoding to [`Self::precode_encode`].
    pub fn new_with_operator_without_precoding<T: CodeScheme>(custom: &T, operator: Box<dyn DataOperator>) -> (r: Result<
        Self,
        EncoderError,
    >)
        ensures
            r matches Ok(e) ==> e.wf() && e.spec_manager().has_operator() && e.spec_manager().log().len() == 0
                && e.spec_manager().spec_num_source() == e.spec_params().k,
            r is Err ==> r == Err::<Self, EncoderError>(EncoderError::InvalidParams),
    {
        let manager = DataManager::new_with_operator(operator);
        Self::initialize_without_precoding(custom, manager, None)
    }

    /// Like [`Self::new_without_precoding_with_num_source`], with a data operator attached.
    pub fn new_with_operator_without_precoding_with_num_source<T: CodeScheme>(
        custom: &T,
        operator: Box<dyn DataOperator>,
        num_source: usize,
    ) -> (r: Result<Self, EncoderError>)
        ensures
            r matches Ok(e) ==> e.wf() && e.spec_manager().has_operator() && e.spec_manager().log().len() == 0
                && e.spec_manager().spec_num_source() == num_source,
    {
        let manager = DataManager::new_with_operator(operator);
        Self::initialize_without_precoding(custom, manager, Some(num_source))
    }

    /// Checks the parameters a scheme reports and the application source
    /// count: `InvalidParams` unless the parameters are consistent, then
    /// `InvalidNumSource` unless `b <= num_source <= k`.
    pub fn check_config(params: &CodeParams, num_source: usize) -> (r: Result<(), EncoderError>)
        ensures
            !params.wf() ==> r == Err::<(), EncoderError>(EncoderError::InvalidParams),
            params.wf() && (num_source < params.b || num_source > params.k) ==> r == Err::<(), EncoderError>(
                EncoderError::InvalidNumSource,
            ),
            params.wf() && params.b <= num_source <= params.k ==> r is Ok,
    {
        if !params.is_wf() {
            return Err(EncoderError::InvalidParams);
        }
        if num_source < params.b || num_source > params.k {
            return Err(EncoderError::InvalidNumSource);
        }
        Ok(())
    }

    fn initialize<T: CodeScheme>(custom: &T, manager: DataManager, num_source: Option<usize>) -> (r: Result<
        Self,
        EncoderError,
    >)
        requires
            manager.wf(),
            manager.log().len() == 0,
            manager.retrieved() == 0,
        ensures
            r matches Ok(e) ==> e.wf() && e.spec_manager().has_operator() == manager.has_operator()
                && e.spec_manager().records() == manager.records() && e.spec_manager().spec_num_source() == (
                match num_source {
                    Some(n) => n,
                    None => e.spec_params().k,
                }),
            num_source is None ==> r != Err::<Self, EncoderError>(EncoderError::InvalidNumSource),
    {
        let params = custom.get_params();
        let code_type = custom.code_type();
        let gen_degree_set = custom.create_degree_set_fn();
        let solver_degree_set = custom.create_degree_set_fn();
        let (hdpc, ldpc) = custom.create_precode();
        let decoding_config = custom.decoding_config();
        Self::from_parts(
            params,
            code_type,
            gen_degree_set,
            solver_degree_set,
            hdpc,
            ldpc,
            decoding_config,
            manager,
            num_source,
        )
    }

    /// The next fresh data ID of a session configured for `params` and `code_type`.
    pub open spec fn configured_next_id(params: CodeParams, code_type: CodeType) -> int {
        DataManager::base_for(
            params,
            match code_type {
                CodeType::Systematic => SolverType::SysEnc,
                CodeType::Ordinary => SolverType::OrdEnc,
            },
        ) + params.total()
    }

    /// [`Self::new_with_num_source`] on what a scheme reported: the encoder
    /// is assembled ([`Self::assemble`]) and precoded
    /// ([`Self::precode_with`]). It succeeds when the parameters and source
    /// count pass [`Self::check_config`] and: for an ordinary code without a
    /// precode, always; with one, when `h` data IDs are left and not both
    /// precode parts are present (otherwise only the HDPC solve can fail);
    /// for a systematic code, when the inactivation cap is in range and the
    /// data IDs suffice, unless the systematic solve does not decode.
    pub fn from_parts(
        params: CodeParams,
        code_type: CodeType,
        gen_degree_set: DegreeSetFn,
        solver_degree_set: DegreeSetFn,
        hdpc: Option<Box<dyn HDPC>>,
        ldpc: Option<Box<dyn LDPC>>,
        decoding_config: DecodingConfig,
        manager: DataManager,
        num_source: Option<usize>,
    ) -> (r: Result<Self, EncoderError>)
        requires
            manager.wf(),
            manager.log().len() == 0,
            manager.retrieved() == 0,
        ensures
            r matches Ok(e) ==> e.wf() && e.spec_manager().has_operator() == manager.has_operator()
                && e.spec_manager().records() == manager.records() && e.spec_manager().spec_num_source() == (
                match num_source {
                    Some(n) => n,
                    None => params.k,
                }) && e.spec_params() == params && e.spec_code_type() == code_type,
            !params.wf() ==> r == Err::<Self, EncoderError>(EncoderError::InvalidParams),
            params.wf() && (num_source matches Some(n) && (n < params.b || n > params.k)) ==> r == Err::<
                Self,
                EncoderError,
            >(EncoderError::InvalidNumSource),
            num_source is None ==> r != Err::<Self, EncoderError>(EncoderError::InvalidNumSource),
            params.wf() && (num_source matches Some(n) ==> params.b <= n <= params.k) ==> {
                &&& code_type == CodeType::Ordinary && !(params.l > 0 || params.h > 0) ==> r is Ok
                &&& code_type == CodeType::Ordinary && (params.l > 0 || params.h > 0) && usize::MAX
                    - Self::configured_next_id(params, code_type) >= params.h && !(ldpc is Some && hdpc is Some)
                    ==> r is Ok
                &&& code_type == CodeType::Systematic && params.b + params.h <= decoding_config.max_inactive_num
                    <= usize::MAX - 65 && params.l + params.k + params.h + 3 < usize::MAX
                    - Self::configured_next_id(params, code_type) ==> r is Ok || r == Err::<Self, EncoderError>(
                    EncoderError::SystematicFailed,
                )
            },
    {
        let mut enc = Self::assemble(params, gen_degree_set, code_type, manager, num_source)?;
        enc.precode_with(params, solver_degree_set, hdpc, ldpc, decoding_config)?;
        Ok(enc)
    }

    fn initialize_without_precoding<T: CodeScheme>(custom: &T, manager: DataManager, num_source: Option<usize>) -> (r: Result<
        Self,
        EncoderError,
    >)
        requires
            manager.wf(),
            manager.log().len() == 0,
            manager.retrieved() == 0,
        ensures
            r matches Ok(e) ==> {
                &&& e.wf()
                &&& e.spec_manager().has_operator() == manager.has_operator()
                &&& e.spec_manager().records() == manager.records()
                &&& e.spec_manager().log().len() == 0
                &&& e.spec_manager().spec_num_source() == match num_source {
                    Some(n) => n,
                    None => e.spec_params().k,
                }
            },
            r matches Ok(e) ==> e.spec_params().wf(),
            r is Err ==> r == Err::<Self, EncoderError>(EncoderError::InvalidParams) || (num_source is Some && r
                == Err::<Self, EncoderError>(EncoderError::InvalidNumSource)),
    {
        let params = custom.get_params();
        let gen_degree_set = custom.create_degree_set_fn();
        let code_type = custom.code_type();
        Self::assemble(params, gen_degree_set, code_type, manager, num_source)
    }

    /// Configures an encoder for what a scheme reported, without precoding:
    /// `Ok` exactly when the parameters and the source count (`k` when
    /// `None`) pass [`Self::check_config`]; the session then has those
    /// parameters, that source count and an empty log.
    pub fn assemble(
        params: CodeParams,
        gen_degree_set: DegreeSetFn,
        code_type: CodeType,
        manager: DataManager,
        num_source: Option<usize>,
    ) -> (r: Result<Self, EncoderError>)
        requires
            manager.wf(),
            manager.log().len() == 0,
            manager.retrieved() == 0,
        ensures
            r matches Ok(e) ==> {
                &&& e.wf()
                &&& e.spec_manager().has_operator() == manager.has_operator()
                &&& e.spec_manager().records() == manager.records()
                &&& e.spec_manager().log().len() == 0
                &&& e.spec_manager().spec_num_source() == match num_source {
                    Some(n) => n,
                    None => params.k,
                }
                &&& e.spec_params() == params
                &&& e.spec_code_type() == code_type
                &&& e.spec_manager().next_id() == Self::configured_next_id(params, code_type)
                &&& e.spec_manager().coded() == manager.coded()
            },
            r matches Ok(e) ==> e.spec_params().wf(),
            r is Ok <==> params.wf() && (num_source matches Some(n) ==> params.b <= n <= params.k),
            !params.wf() ==> r == Err::<Self, EncoderError>(EncoderError::InvalidParams),
            params.wf() && (num_source matches Some(n) && (n < params.b || n > params.k)) ==> r == Err::<
                Self,
                EncoderError,
            >(EncoderError::InvalidNumSource),
    {
        let mut manager = manager;
        let num_source = match num_source {
            Some(n) => n,
            None => params.k,
        };
        Self::check_config(&params, num_source)?;
        let solver_type = match code_type {
            CodeType::Systematic => SolverType::SysEnc,
            CodeType::Ordinary => SolverType::OrdEnc,
        };
        manager.config_from(params, solver_type);
        manager.set_num_source(num_source);
        Ok(Encoder { params, manager, gen_degree_set, code_type })
    }

    /// Runs LDPC/HDPC precoding (ordinary code with a precode) or the
    /// systematic encoding solve, after which coded IDs `0..k` are mapped to
    /// data IDs `0..k`. Call once, before LT encoding.
    pub fn precode_encode<T: CodeScheme>(&mut self, custom: &T) -> (r: Result<(), EncoderError>)
        requires
            old(self).wf(),
        ensures
            final(self).wf(),
            final(self).spec_params() == old(self).spec_params(),
            final(self).spec_code_type() == old(self).spec_code_type(),
            final(self).spec_manager().spec_num_source() == old(self).spec_manager().spec_num_source(),
            final(self).spec_manager().has_operator() == old(self).spec_manager().has_operator(),
            final(self).spec_manager().records() == old(self).spec_manager().records(),
            r != Err::<(), EncoderError>(EncoderError::InvalidNumSource),
            old(self).spec_code_type() == CodeType::Ordinary && !(old(self).spec_params().l > 0
                || old(self).spec_params().h > 0) ==> r is Ok && *final(self) == *old(self),
            old(self).spec_code_type() == CodeType::Ordinary && (old(self).spec_params().l > 0
                || old(self).spec_params().h > 0) && usize::MAX - old(self).spec_manager().next_id()
                < old(self).spec_params().h ==> {
                &&& r == Err::<(), EncoderError>(EncoderError::IdsExhausted)
                &&& final(self).spec_manager().same_config(&old(self).spec_manager())
                &&& final(self).spec_manager().log_extends(
                    &old(self).spec_manager(),
                    old(self).spec_manager().prepare_ops(),
                )
            },
            old(self).spec_code_type() == CodeType::Ordinary && (old(self).spec_params().l > 0
                || old(self).spec_params().h > 0) && usize::MAX - old(self).spec_manager().next_id()
                >= old(self).spec_params().h ==> r is Ok || r == Err::<(), EncoderError>(EncoderError::PrecodeFailed),
            old(self).spec_code_type() == CodeType::Ordinary && (old(self).spec_params().l > 0
                || old(self).spec_params().h > 0) && old(self).spec_manager().records() ==> (old(
                self,
            ).spec_manager().log() + old(self).spec_manager().prepare_ops()).is_prefix_of(
                final(self).spec_manager().log(),
            ),
            r is Ok && old(self).spec_code_type() == CodeType::Systematic ==> forall|c: usize|
                c < old(self).spec_params().k ==> #[trigger] final(self).spec_manager().coded().contains_key(c)
                    && final(self).spec_manager().coded()[c] == c,
    {
        let params = custom.get_params();
        let gen_degree_set = custom.create_degree_set_fn();
        let (hdpc, ldpc) = custom.create_precode();
        let decoding_config = custom.decoding_config();
        self.precode_with(params, gen_degree_set, hdpc, ldpc, decoding_config)
    }

    /// [`Self::precode_encode`] on what the scheme reported: its parameters,
    /// degree set generator, precode parts and decoding configuration.
    ///
    /// An ordinary code with a precode fails only when data IDs run out or
    /// when both precode parts are present and the HDPC system cannot be
    /// solved. A systematic code fails with [`EncoderError::Solver`]
    /// exactly as [`SystemSolver::setup`] does, which it does not when the
    /// parameters are the session's, the inactivation cap is in range and
    /// the data IDs suffice; otherwise only when the systematic solve does
    /// not decode.
    pub fn precode_with(
        &mut self,
        params: CodeParams,
        gen_degree_set: DegreeSetFn,
        hdpc: Option<Box<dyn HDPC>>,
        ldpc: Option<Box<dyn LDPC>>,
        decoding_config: DecodingConfig,
    ) -> (r: Result<(), EncoderError>)
        requires
            old(self).wf(),
        ensures
            final(self).wf(),
            final(self).spec_params() == old(self).spec_params(),
            final(self).spec_code_type() == old(self).spec_code_type(),
            final(self).spec_manager().spec_num_source() == old(self).spec_manager().spec_num_source(),
            final(self).spec_manager().has_operator() == old(self).spec_manager().has_operator(),
            final(self).spec_manager().records() == old(self).spec_manager().records(),
            r != Err::<(), EncoderError>(EncoderError::InvalidNumSource),
            old(self).spec_code_type() == CodeType::Ordinary && !(old(self).spec_params().l > 0
                || old(self).spec_params().h > 0) ==> r is Ok && *final(self) == *old(self),
            old(self).spec_code_type() == CodeType::Ordinary && (old(self).spec_params().l > 0
                || old(self).spec_params().h > 0) && usize::MAX - old(self).spec_manager().next_id()
                < old(self).spec_params().h ==> {
                &&& r == Err::<(), EncoderError>(EncoderError::IdsExhausted)
                &&& final(self).spec_manager().same_config(&old(self).spec_manager())
                &&& final(self).spec_manager().log_extends(
                    &old(self).spec_manager(),
                    old(self).spec_manager().prepare_ops(),
                )
            },
            old(self).spec_code_type() == CodeType::Ordinary && (old(self).spec_params().l > 0
                || old(self).spec_params().h > 0) && usize::MAX - old(self).spec_manager().next_id()
                >= old(self).spec_params().h ==> r is Ok || r == Err::<(), EncoderError>(EncoderError::PrecodeFailed),
            old(self).spec_code_type() == CodeType::Ordinary && (old(self).spec_params().l > 0
                || old(self).spec_params().h > 0) && old(self).spec_manager().records() ==> (old(
                self,
            ).spec_manager().log() + old(self).spec_manager().prepare_ops()).is_prefix_of(
                final(self).spec_manager().log(),
            ),
            old(self).spec_code_type() == CodeType::Ordinary && (old(self).spec_params().l > 0
                || old(self).spec_params().h > 0) && usize::MAX - old(self).spec_manager().next_id()
                >= old(self).spec_params().h && !(ldpc is Some && hdpc is Some) ==> r is Ok,
            old(self).spec_code_type() == CodeType::Systematic && params == old(self).spec_params()
                && params.b + params.h <= decoding_config.max_inactive_num <= usize::MAX - 65
                && SystemSolver::ids_suffice(&old(self).spec_manager()) ==> r is Ok || r == Err::<(), EncoderError>(
                EncoderError::SystematicFailed,
            ),
            old(self).spec_code_type() == CodeType::Systematic && params != old(self).spec_params() ==> r
                == Err::<(), EncoderError>(EncoderError::Solver(SolverError::ParamsMismatch)),
            r is Ok && old(self).spec_code_type() == CodeType::Systematic ==> forall|c: usize|
                c < old(self).spec_params().k ==> #[trigger] final(self).spec_manager().coded().contains_key(c)
                    && final(self).spec_manager().coded()[c] == c,
    {
        match self.code_type {
            CodeType::Ordinary => {
                if self.params.has_precode() {
                    self.manager.prepare_for_ordinary();
                    if self.manager.ids_left() < self.params.h {
                        return Err(EncoderError::IdsExhausted);
                    }
                    if !precode_with(&mut self.manager, hdpc, ldpc) {
                        return Err(EncoderError::PrecodeFailed);
                    }
                }
                Ok(())
            },
            CodeType::Systematic => {
                let solver = match SystemSolver::setup(
                    params,
                    gen_degree_set,
                    hdpc,
                    ldpc,
                    decoding_config,
                    &mut self.manager,
                    SolverType::SysEnc,
                ) {
                    Ok(s) => s,
                    Err(e) => {
                        return Err(EncoderError::Solver(e));
                    },
                };
                if solver.get_status() == DecodeStatus::NotDecoded {
                    return Err(EncoderError::SystematicFailed);
                }
                let k = self.params.k;
                let mut coded_id: usize = 0;
                while coded_id < k
                    invariant
                        self.wf(),
                        k == self.params.k,
                        self.code_type == old(self).code_type,
                        self.params == old(self).params,
                        self.manager.spec_num_source() == old(self).spec_manager().spec_num_source(),
                        self.manager.has_operator() == old(self).spec_manager().has_operator(),
                        self.manager.records() == old(self).spec_manager().records(),
                        coded_id <= k,
                        forall|c: usize| c < coded_id ==> #[trigger] self.manager.coded().contains_key(c)
                            && self.manager.coded()[c] == c,
                    decreases k - coded_id,
                {
                    self.manager.assign_data_id(coded_id, coded_id);
                    coded_id += 1;
                }
                assert(forall|c: usize| c < old(self).spec_params().k ==> #[trigger] self.manager.coded().contains_key(c)
                    && self.manager.coded()[c] == c);
                assert(self.spec_manager() == self.manager);
                assert(old(self).spec_code_type() == CodeType::Systematic);
                Ok(())
            },
        }
    }

    /// Returns the data vector with the given ID through the data operator.
    pub fn get_data_vector(&self, data_id: usize) -> (r: &[u8])
        requires
            self.spec_manager().has_operator(),
    {
        self.manager.get_data_vector(data_id)
    }

    /// The symbols the degree set generator was asked for, with its answers.
    pub closed spec fn spec_queries(&self) -> Seq<(usize, Seq<usize>)> {
        self.gen_degree_set.queries()
    }

    /// `e1` is `e0` after generating LT coded vector `coded_id`: the degree
    /// set generator was asked for `coded_id` once, and the coded vector, a
    /// fresh data vector, was built from the degree set it answered
    /// ([`lt_ops`]).
    pub open spec fn lt_encoded(e0: &Self, e1: &Self, coded_id: usize) -> bool {
        let q = e1.spec_queries();
        &&& q.len() == e0.spec_queries().len() + 1
        &&& q.drop_last() == e0.spec_queries()
        &&& q.last().0 == coded_id
        &&& e1.spec_manager().log_extends(
            &e0.spec_manager(),
            lt_ops(coded_id, e0.spec_manager().next_id(), q.last().1, e0.spec_manager().var_base() as int),
        )
    }

    /// An LT coded vector is the sum of the variable vectors of the degree
    /// set that the generator answered for its own ID: when recording, the
    /// operations it adds zero a fresh vector, add into it exactly the
    /// variable vectors of that answer, and mark it as coded vector
    /// `coded_id`.
    pub proof fn lemma_lt_encoded_law(e0: &Self, e1: &Self, coded_id: usize)
        requires
            Self::lt_encoded(e0, e1, coded_id),
            e0.spec_manager().records(),
        ensures
            e1.spec_queries().last() == (coded_id, e1.spec_queries().last().1),
            e1.spec_manager().log() == e0.spec_manager().log() + seq![
                OpView::EnsureZero { list_id: seq![e0.spec_manager().next_id()] },
            ] + add_to_vector_ops(
                variable_data_ids(e1.spec_queries().last().1, e0.spec_manager().var_base() as int),
                e0.spec_manager().next_id(),
            ) + seq![OpView::InfoCodedVector { coded_id, data_id: e0.spec_manager().next_id() }],
    {
        let ds = e1.spec_queries().last().1;
        assert(e0.spec_manager().log() + lt_ops(coded_id, e0.spec_manager().next_id(), ds, e0.spec_manager().var_base() as int)
            =~= e0.spec_manager().log() + seq![OpView::EnsureZero { list_id: seq![e0.spec_manager().next_id()] }]
            + add_to_vector_ops(variable_data_ids(ds, e0.spec_manager().var_base() as int), e0.spec_manager().next_id())
            + seq![OpView::InfoCodedVector { coded_id, data_id: e0.spec_manager().next_id() }]);
    }

    /// Generates coded vector `coded_id` and returns its data ID: for a
    /// systematic code the message vector itself when `coded_id < k`;
    /// `None` for an ordinary code below `k` and for the parity-check IDs
    /// `k..k + l + h`; otherwise a fresh vector holding the sum of the
    /// variable vectors of the coded vector's degree set (`None` when data
    /// IDs ran out).
    pub fn encode_coded_vector(&mut self, coded_id: usize) -> (r: Option<usize>)
        requires
            old(self).wf(),
        ensures
            final(self).wf(),
            final(self).spec_params() == old(self).spec_params(),
            final(self).spec_code_type() == old(self).spec_code_type(),
            final(self).spec_manager().same_layout(&old(self).spec_manager()),
            coded_id < old(self).spec_params().k ==> final(self).spec_manager() == old(self).spec_manager() && r == (if old(
                self,
            ).spec_code_type() == CodeType::Systematic {
                Some(coded_id)
            } else {
                None::<usize>
            }),
            old(self).spec_params().k <= coded_id < old(self).spec_params().total() ==> final(self).spec_manager() == old(
                self,
            ).spec_manager() && r is None,
            coded_id >= old(self).spec_params().total() && old(self).spec_manager().next_id() < usize::MAX ==> {
                &&& r == Some(old(self).spec_manager().next_id())
                &&& final(self).spec_manager().coded() == old(self).spec_manager().coded().insert(coded_id, old(self).spec_manager().next_id())
                &&& final(self).spec_manager().next_id() == old(self).spec_manager().next_id() + 1
            },
            coded_id >= old(self).spec_params().total() && old(self).spec_manager().next_id() == usize::MAX ==> r is None,
            coded_id >= old(self).spec_params().total() && old(self).spec_manager().next_id() < usize::MAX ==> exists|
                degree_set: Seq<usize>,
            |
                final(self).spec_manager().log_extends(
                    &old(self).spec_manager(),
                    #[trigger] lt_ops(
                        coded_id,
                        old(self).spec_manager().next_id(),
                        degree_set,
                        old(self).spec_manager().var_base() as int,
                    ),
                ),
            coded_id >= old(self).spec_params().total() && old(self).spec_manager().next_id() < usize::MAX
                ==> Self::lt_encoded(old(self), final(self), coded_id),
            coded_id < old(self).spec_params().total() ==> final(self).spec_queries() == old(self).spec_queries(),
    {
        if coded_id < self.params.k {
            if self.code_type == CodeType::Systematic {
                return Some(coded_id);
            } else {
                return None;
            }
        } else if coded_id < self.params.num_total() {
            return None;
        }
        if self.manager.ids_left() == 0 {
            return None;
        }
        let data_id = self.manager.coded_data_id(coded_id);
        let degree_set = self.gen_degree_set.degree_set(coded_id);
        let data_ids = self.manager.data_ids_of_variable_vectors(degree_set.as_slice());
        self.manager.add_to_vector_owned(data_ids, data_id);
        self.manager.encode_coded_vector(coded_id, data_id);
        proof {
            let m0 = old(self).spec_manager();
            if m0.records() {
                assert(self.manager.log() =~= m0.log() + lt_ops(coded_id, data_id, degree_set@, m0.var_base() as int));
            }
            if m0.has_operator() {
                assert(self.manager.executed() =~= m0.executed() + lt_ops(coded_id, data_id, degree_set@, m0.var_base() as int));
            }
            assert(self.spec_queries() == old(self).spec_queries().push((coded_id, degree_set@)));
            assert(self.spec_queries().drop_last() =~= old(self).spec_queries());
        }
        Some(data_id)
    }
}

} // verus!
