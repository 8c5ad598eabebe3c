use vstd::prelude::*;
use crate::data_manager::{DataManager, add_to_vector_ops, variable_data_ids};
use crate::engine::system_solver::{SolverError, SystemSolver, padding_registered};
use crate::traits::code_scheme::CodeScheme;
use crate::traits::data_operator::DataOperator;
use crate::traits::hdpc::HDPC;
use crate::traits::ldpc::LDPC;
use crate::types::{CodeParams, CodeType, DecodeStatus, DecodingConfig, DegreeSetFn, OpView, SolverType};

verus! {

broadcast use crate::data_manager::group_log_grows;

/// Why a decoder could not be set up.
#[derive(Debug, Clone, Copy, PartialEq, Eq, Structural)]
pub enum DecoderError {
    /// The scheme's parameters are inconsistent (`a + b != k`, or the
    /// layout does not fit in a `usize`).
    InvalidParams,
    /// The source count is outside `b..=k`.
    InvalidNumSource,
    /// The solver could not be set up.
    Solver(SolverError),
}

/// Number of `true` entries of `s`.
pub open spec fn count_true(s: Seq<bool>) -> nat
    decreases s.len(),
{
    if s.len() == 0 {
        0
    } else {
        count_true(s.drop_last()) + (if s.last() {
            1nat
        } else {
            0nat
        })
    }
}

/// The operations that rebuild message vector `msg_id` from the variable
/// vectors (data IDs from `base`) of its degree set: zero it, then add them in.
pub open spec fn rebuild_ops(msg_id: usize, degree_set: Seq<usize>, base: int) -> Seq<OpView> {
    seq![OpView::EnsureZero { list_id: seq![msg_id] }] + add_to_vector_ops(
        variable_data_ids(degree_set, base),
        msg_id,
    )
}

/// The rebuild operations of the message vectors `0..n` that `received`
/// does not flag, in order, message `j` with degree set `degree_sets[j]`.
pub open spec fn recovery_ops(received: Seq<bool>, degree_sets: Seq<Seq<usize>>, base: int, n: int) -> Seq<OpView>
    decreases n,
{
    if n <= 0 {
        seq![]
    } else {
        recovery_ops(received, degree_sets, base, n - 1) + (if received[n - 1] {
            seq![]
        } else {
            rebuild_ops((n - 1) as usize, degree_sets[n - 1], base)
        })
    }
}

/// The degree set queries of rebuilding the messages `0..n` that
/// `received` does not flag: message `j` asked for, answered `degree_sets[j]`.
pub open spec fn rebuild_queries(received: Seq<bool>, degree_sets: Seq<Seq<usize>>, n: int) -> Seq<(usize, Seq<usize>)>
    decreases n,
{
    if n <= 0 {
        seq![]
    } else {
        rebuild_queries(received, degree_sets, n - 1) + (if received[n - 1] {
            seq![]
        } else {
            seq![((n - 1) as usize, degree_sets[n - 1])]
        })
    }
}

/// The rebuild operations of the queried messages, in order, each from the
/// degree set answered for it.
pub open spec fn queried_rebuild_ops(queries: Seq<(usize, Seq<usize>)>, base: int) -> Seq<OpView>
    decreases queries.len(),
{
    if queries.len() == 0 {
        seq![]
    } else {
        queried_rebuild_ops(queries.drop_last(), base) + rebuild_ops(queries.last().0, queries.last().1, base)
    }
}

/// Queries of the first `n` messages do not depend on the degree sets past them.
pub proof fn lemma_rebuild_queries_push(received: Seq<bool>, degree_sets: Seq<Seq<usize>>, x: Seq<usize>, n: int)
    requires
        0 <= n <= degree_sets.len(),
    ensures
        rebuild_queries(received, degree_sets.push(x), n) == rebuild_queries(received, degree_sets, n),
    decreases n,
{
    if n > 0 {
        lemma_rebuild_queries_push(received, degree_sets, x, n - 1);
        assert(degree_sets.push(x)[n - 1] == degree_sets[n - 1]);
    }
}

/// Rebuilding missing messages asks the generator for each missing message
/// `j < n` in turn, and rebuilds `j` from the degree set answered for `j`:
/// the rebuild operations are those of the queries, in order, and every
/// query asks for a message below `n` that was not received.
pub proof fn lemma_recovery_law(received: Seq<bool>, degree_sets: Seq<Seq<usize>>, base: int, n: int)
    requires
        0 <= n <= received.len(),
        n <= degree_sets.len(),
        n <= usize::MAX + 1,
    ensures
        recovery_ops(received, degree_sets, base, n) == queried_rebuild_ops(rebuild_queries(received, degree_sets, n), base),
        forall|k: int|
            0 <= k < rebuild_queries(received, degree_sets, n).len() ==> {
                let q = #[trigger] rebuild_queries(received, degree_sets, n)[k];
                &&& q.0 < n
                &&& !received[q.0 as int]
                &&& q.1 == degree_sets[q.0 as int]
            },
    decreases n,
{
    if n > 0 {
        lemma_recovery_law(received, degree_sets, base, n - 1);
        let q0 = rebuild_queries(received, degree_sets, n - 1);
        let q = rebuild_queries(received, degree_sets, n);
        if !received[n - 1] {
            assert(q.drop_last() =~= q0);
            assert(recovery_ops(received, degree_sets, base, n) == recovery_ops(received, degree_sets, base, n - 1)
                + rebuild_ops((n - 1) as usize, degree_sets[n - 1], base));
        } else {
            assert(q =~= q0);
            assert(recovery_ops(received, degree_sets, base, n) =~= recovery_ops(received, degree_sets, base, n - 1));
        }
        assert forall|k: int| 0 <= k < q.len() implies {
            let e = #[trigger] q[k];
            &&& e.0 < n
            &&& !received[e.0 as int]
            &&& e.1 == degree_sets[e.0 as int]
        } by {
            if k < q0.len() {
                assert(q[k] == q0[k]);
            }
        }
    }
}

/// A copy of `src` into `dst`, which is recorded only when the two differ.
pub open spec fn copy_op(src: usize, dst: usize) -> Seq<OpView> {
    if src == dst {
        seq![]
    } else {
        seq![OpView::CopyTo { src_id: src, target_id: dst }]
    }
}

/// Recovery operations of the first `n` messages do not depend on the
/// degree sets past them.
pub proof fn lemma_recovery_ops_push(received: Seq<bool>, degree_sets: Seq<Seq<usize>>, x: Seq<usize>, base: int, n: int)
    requires
        0 <= n <= degree_sets.len(),
    ensures
        recovery_ops(received, degree_sets.push(x), base, n) == recovery_ops(received, degree_sets, base, n),
    decreases n,
{
    if n > 0 {
        lemma_recovery_ops_push(received, degree_sets, x, base, n - 1);
        assert(degree_sets.push(x)[n - 1] == degree_sets[n - 1]);
    }
}

/// Rebuilds message vector `msg_id` of a systematic code from the variable
/// vectors of its degree set `degree_set`: the vector is zeroed and the
/// variable vectors are added into it.
pub fn rebuild_message(manager: &mut DataManager, msg_id: usize, degree_set: &[usize])
    ensures
        final(manager).logged(old(manager), rebuild_ops(msg_id, degree_set@, old(manager).var_base() as int)),
{
    let data_ids = manager.data_ids_of_variable_vectors(degree_set);
    let ids = vec![msg_id];
    let ghost m0 = *manager;
    manager.ensure_zero(ids.as_slice());
    let ghost m1 = *manager;
    manager.add_to_vector(data_ids.as_slice(), msg_id);
    proof {
        assert(ids@ =~= seq![msg_id]);
        DataManager::lemma_logged_trans(&m0, &m1, manager, seq![OpView::EnsureZero { list_id: ids@ }], add_to_vector_ops(data_ids@, msg_id));
    }
}

/// Fountain code decoder: BP with inactivation, Gaussian elimination and
/// back-substitution over the received coded vectors.
pub struct Decoder {
    params: CodeParams,
    /// Manages all data vectors and their operations.
    pub manager: DataManager,
    solver: SystemSolver,
    /// For a systematic code: which message vectors were received directly.
    received_msg_vectors: Option<Vec<bool>>,
    /// For a systematic code: degree sets, to rebuild missing message vectors.
    gen_degree_set: Option<DegreeSetFn>,
}

impl Decoder {
    /// Code parameters.
    pub closed spec fn spec_params(&self) -> CodeParams {
        self.params
    }

    /// The data manager.
    pub closed spec fn spec_manager(&self) -> DataManager {
        self.manager
    }

    /// Message vectors received directly (systematic code), if tracked.
    pub closed spec fn received(&self) -> Option<Seq<bool>> {
        match self.received_msg_vectors {
            Some(v) => Some(v@),
            None => None,
        }
    }

    /// Status of the solver.
    pub closed spec fn solver_status(&self) -> DecodeStatus {
        self.solver.spec_status()
    }

    /// Consistent decoder: manager and solver share the session; the
    /// received flags, when tracked, cover the `num_source` message vectors
    /// and come with a degree set generator.
    pub closed spec fn wf(&self) -> bool {
        &&& self.manager.wf()
        &&& self.manager.spec_params() == self.params
        &&& self.solver.wf()
        &&& self.solver.spec_params() == self.params
        &&& self.received_msg_vectors matches Some(v) ==> v@.len() == self.manager.spec_num_source()
            && self.gen_degree_set is Some
    }

    /// A systematic decoder (one that solves for systematic decoding) tracks
    /// which message vectors were received, none of them yet when it is
    /// created; an ordinary one tracks none.
    pub open spec fn tracks_received(&self) -> bool {
        if self.spec_manager().spec_solver_type() == SolverType::SysDec {
            self.received() == Some(Seq::new(self.spec_manager().spec_num_source() as nat, |i: int| false))
        } else {
            self.received() is None
        }
    }

    /// The symbols the message-rebuilding degree set generator was asked
    /// for, with its answers (none without a generator).
    pub closed spec fn gen_queries(&self) -> Seq<(usize, Seq<usize>)> {
        match self.gen_degree_set {
            Some(g) => g.queries(),
            None => Seq::empty(),
        }
    }

    /// The data ID that coded ID `coded_id` has, or gets when it is registered.
    pub open spec fn data_id_for(m: &DataManager, coded_id: usize) -> usize {
        if m.coded().contains_key(coded_id) {
            m.coded()[coded_id]
        } else {
            m.next_id()
        }
    }

    /// The received flags once coded vector `coded_id` was taken in.
    pub open spec fn flags_after(&self, coded_id: usize) -> Seq<bool> {
        if coded_id < self.spec_manager().spec_num_source() {
            self.received().unwrap().update(coded_id as int, true)
        } else {
            self.received().unwrap()
        }
    }

    /// The only coded IDs registered are the LDPC check IDs `k..k + l` and
    /// the slots that setting up the solver filled
    /// ([`SystemSolver::slot_range`]).
    pub open spec fn only_setup_ids(&self) -> bool {
        let m = self.spec_manager();
        let p = m.spec_params();
        let range = SystemSolver::slot_range(&m, m.spec_solver_type());
        forall|c: usize| #[trigger] m.coded().contains_key(c) ==> (p.k <= c < p.k + p.l) || (range.0 <= c < range.1)
    }

    /// The status [`Self::decode_status`] reports.
    pub open spec fn status_of(&self) -> DecodeStatus {
        if self.received() is Some && count_true(self.received().unwrap())
            == self.spec_manager().spec_num_source() {
            DecodeStatus::Decoded
        } else {
            self.solver_status()
        }
    }

    /// What adding a registered (or registrable) coded vector `coded_id`
    /// to `d0` gives `d1` and returns `r`: a systematic message ID is marked
    /// received and `r` is the decoder's status; an ordinary message ID or a
    /// parity-check ID changes no status and returns the solver's; any other
    /// ID goes to the solver, whose status is returned (a decoded systematic
    /// decoder has every message vector).
    pub open spec fn coded_added(d0: &Self, d1: &Self, coded_id: usize, r: DecodeStatus) -> bool {
        let ns = d0.spec_manager().spec_num_source();
        &&& coded_id < ns && d0.received() is Some ==> {
            &&& r == d1.status_of()
            &&& d1.received() matches Some(f) && f[coded_id as int] && (forall|j: int|
                0 <= j < f.len() && #[trigger] d0.received().unwrap()[j] ==> f[j])
        }
        &&& coded_id < ns && d0.received() is None ==> r == d0.solver_status() && d1.solver_status()
            == d0.solver_status()
        &&& ns <= coded_id < d0.spec_params().total() ==> r == d0.solver_status() && d1.solver_status()
            == d0.solver_status() && d1.received() == d0.received()
        &&& coded_id >= d0.spec_params().total() ==> r == d1.solver_status()
        &&& coded_id >= d0.spec_params().total() && r == DecodeStatus::Decoded ==> (d1.received() matches Some(f)
            ==> forall|j: int| 0 <= j < f.len() ==> #[trigger] f[j])
    }

    /// Creates a decoder.
    pub fn new<T: CodeScheme>(custom: &T) -> (r: Result<Self, DecoderError>)
        ensures
            r matches Ok(d) ==> d.wf() && !d.spec_manager().has_operator() && d.spec_manager().spec_num_source()
                == d.spec_params().k,
            r matches Ok(d) ==> padding_registered(&d.spec_manager(), d.spec_manager().spec_solver_type()),
            r matches Ok(d) ==> d.tracks_received() && d.only_setup_ids(),
            r != Err::<Self, DecoderError>(DecoderError::InvalidNumSource),
    {
        let manager = DataManager::new();
        Self::initialize(custom, manager, None)
    }

    /// Creates a decoder with application source count `num_source`
    /// (`num_source < k` means padding).
    pub fn new_with_num_source<T: CodeScheme>(custom: &T, num_source: usize) -> (r: Result<Self, DecoderError>)
        ensures
            r matches Ok(d) ==> d.wf() && !d.spec_manager().has_operator() && d.spec_manager().spec_num_source()
                == num_source,
            r matches Ok(d) ==> padding_registered(&d.spec_manager(), d.spec_manager().spec_solver_type()),
            r matches Ok(d) ==> d.tracks_received() && d.only_setup_ids(),
    {
        let manager = DataManager::new();
        Self::initialize(custom, manager, Some(num_source))
    }

    /// Creates a decoder with a data operator attached.
    pub fn new_with_operator<T: CodeScheme>(custom: &T, operator: Box<dyn DataOperator>) -> (r: Result<
        Self,
        DecoderError,
    >)
        ensures
            r matches Ok(d) ==> d.wf() && d.spec_manager().has_operator() && d.spec_manager().spec_num_source()
                == d.spec_params().k,
            r matches Ok(d) ==> padding_registered(&d.spec_manager(), d.spec_manager().spec_solver_type()),
            r matches Ok(d) ==> d.tracks_received() && d.only_setup_ids(),
            r != Err::<Self, DecoderError>(DecoderError::InvalidNumSource),
    {
        let manager = DataManager::new_with_operator(operator);
        Self::initialize(custom, manager, None)
    }

    /// Like [`Self::new_with_num_source`], with a data operator attached.
    pub fn new_with_operator_and_num_source<T: CodeScheme>(
        custom: &T,
        operator: Box<dyn DataOperator>,
        num_source: usize,
    ) -> (r: Result<Self, DecoderError>)
        ensures
            r matches Ok(d) ==> d.wf() && d.spec_manager().has_operator() && d.spec_manager().spec_num_source()
                == num_source,
            r matches Ok(d) ==> padding_registered(&d.spec_manager(), d.spec_manager().spec_solver_type()),
            r matches Ok(d) ==> d.tracks_received() && d.only_setup_ids(),
    {
        let manager = DataManager::new_with_operator(operator);
        Self::initialize(custom, manager, Some(num_source))
    }

    /// Like [`Self::new_with_operator`], but does not record operations.
    pub fn new_with_operator_execute_only<T: CodeScheme>(custom: &T, operator: Box<dyn DataOperator>) -> (r: Result<
        Self,
        DecoderError,
    >)
        ensures
            r matches Ok(d) ==> d.wf() && d.spec_manager().has_operator() && !d.spec_manager().records()
                && d.spec_manager().spec_num_source() == d.spec_params().k,
            r matches Ok(d) ==> padding_registered(&d.spec_manager(), d.spec_manager().spec_solver_type()),
            r matches Ok(d) ==> d.tracks_received() && d.only_setup_ids(),
            r != Err::<Self, DecoderError>(DecoderError::InvalidNumSource),
    {
        let manager = DataManager::new_with_operator_execute_only(operator);
        Self::initialize(custom, manager, None)
    }

    /// Like [`Self::new_with_operator_and_num_source`], but does not record operations.
    pub fn new_with_operator_execute_only_and_num_source<T: CodeScheme>(
        custom: &T,
        operator: Box<dyn DataOperator>,
        num_source: usize,
    ) -> (r: Result<Self, DecoderError>)
        ensures
            r matches Ok(d) ==> d.wf() && d.spec_manager().has_operator() && !d.spec_manager().records()
                && d.spec_manager().spec_num_source() == num_source,
            r matches Ok(d) ==> padding_registered(&d.spec_manager(), d.spec_manager().spec_solver_type()),
            r matches Ok(d) ==> d.tracks_received() && d.only_setup_ids(),
    {
        let manager = DataManager::new_with_operator_execute_only(operator);
        Self::initialize(custom, manager, Some(num_source))
    }

    /// Checks the parameters a scheme reports and the application source
    /// count: `InvalidParams` unless the parameters are consistent, then
    /// `InvalidNumSource` unless `b <= num_source <= k`.
    pub fn check_config(params: &CodeParams, num_source: usize) -> (r: Result<(), DecoderError>)
        ensures
            !params.wf() ==> r == Err::<(), DecoderError>(DecoderError::InvalidParams),
            params.wf() && (num_source < params.b || num_source > params.k) ==> r == Err::<(), DecoderError>(
                DecoderError::InvalidNumSource,
            ),
            params.wf() && params.b <= num_source <= params.k ==> r is Ok,
    {
        if !params.is_wf() {
            return Err(DecoderError::InvalidParams);
        }
        if num_source < params.b || num_source > params.k {
            return Err(DecoderError::InvalidNumSource);
        }
        Ok(())
    }

    fn initialize<T: CodeScheme>(custom: &T, manager: DataManager, num_source: Option<usize>) -> (r: Result<
        Self,
        DecoderError,
    >)
        requires
            manager.wf(),
            manager.coded() == Map::<usize, usize>::empty(),
        ensures
            r matches Ok(d) ==> {
                &&& d.wf()
                &&& d.spec_manager().has_operator() == manager.has_operator()
                &&& d.spec_manager().records() == manager.records()
                &&& d.spec_manager().spec_num_source() == match num_source {
                    Some(n) => n,
                    None => d.spec_params().k,
                }
                &&& d.spec_params().wf()
                &&& padding_registered(&d.spec_manager(), d.spec_manager().spec_solver_type())
                &&& d.tracks_received()
                &&& d.only_setup_ids()
            },
            num_source is None ==> r != Err::<Self, DecoderError>(DecoderError::InvalidNumSource),
    {
        let params = custom.get_params();
        let code_type = custom.code_type();
        let gen_degree_set = custom.create_degree_set_fn();
        let solver_degree_set = custom.create_degree_set_fn();
        let (hdpc, ldpc) = custom.create_precode();
        let decoding_config = custom.decoding_config();
        Self::from_parts(
            params,
            code_type,
            gen_degree_set,
            solver_degree_set,
            hdpc,
            ldpc,
            decoding_config,
            manager,
            num_source,
        )
    }

    /// The next fresh data ID of a decoding session configured for `params`
    /// and `code_type`.
    pub open spec fn configured_next_id(params: CodeParams, code_type: CodeType) -> int {
        DataManager::base_for(
            params,
            match code_type {
                CodeType::Systematic => SolverType::SysDec,
                CodeType::Ordinary => SolverType::OrdDec,
            },
        ) + params.total()
    }

    /// [`Self::new_with_num_source`] on what a scheme reported: parameters,
    /// code type, degree set generators (one for rebuilding message vectors,
    /// one for the solver), precode parts and decoding configuration.
    ///
    /// Fails with `InvalidParams` or `InvalidNumSource` as
    /// [`Self::check_config`] says, then only as [`SystemSolver::setup`]
    /// does; it succeeds when the checks pass, the inactivation cap is in
    /// range and the data IDs left suffice.
    pub fn from_parts(
        params: CodeParams,
        code_type: CodeType,
        gen_degree_set: DegreeSetFn,
        solver_degree_set: DegreeSetFn,
        hdpc: Option<Box<dyn HDPC>>,
        ldpc: Option<Box<dyn LDPC>>,
        decoding_config: DecodingConfig,
        manager: DataManager,
        num_source: Option<usize>,
    ) -> (r: Result<Self, DecoderError>)
        requires
            manager.wf(),
            manager.coded() == Map::<usize, usize>::empty(),
        ensures
            r matches Ok(d) ==> {
                &&& d.wf()
                &&& d.spec_manager().has_operator() == manager.has_operator()
                &&& d.spec_manager().records() == manager.records()
                &&& d.spec_manager().spec_num_source() == match num_source {
                    Some(n) => n,
                    None => d.spec_params().k,
                }
                &&& d.spec_params().wf()
                &&& padding_registered(&d.spec_manager(), d.spec_manager().spec_solver_type())
                &&& d.tracks_received()
                &&& d.only_setup_ids()
            },
            num_source is None ==> r != Err::<Self, DecoderError>(DecoderError::InvalidNumSource),
            r matches Ok(d) ==> d.spec_params() == params,
            !params.wf() ==> r == Err::<Self, DecoderError>(DecoderError::InvalidParams),
            params.wf() && (num_source matches Some(n) && (n < params.b || n > params.k)) ==> r == Err::<
                Self,
                DecoderError,
            >(DecoderError::InvalidNumSource),
            params.wf() && (num_source matches Some(n) ==> params.b <= n <= params.k) && params.b + params.h
                <= decoding_config.max_inactive_num <= usize::MAX - 65 && params.l + params.k + params.h + 3
                < usize::MAX - Self::configured_next_id(params, code_type) ==> r is Ok,
    {
        let mut manager = manager;
        let num_source = match num_source {
            Some(n) => n,
            None => params.k,
        };
        Self::check_config(&params, num_source)?;
        let solver_type = match code_type {
            CodeType::Systematic => SolverType::SysDec,
            CodeType::Ordinary => SolverType::OrdDec,
        };
        manager.config_from(params, solver_type);
        manager.set_num_source(num_source);
        let mut received_msg_vectors: Option<Vec<bool>> = None;
        let mut gen: Option<DegreeSetFn> = None;
        if code_type == CodeType::Systematic {
            let flags = vec![false; num_source];
            assert(flags@ =~= Seq::new(num_source as nat, |i: int| false));
            received_msg_vectors = Some(flags);
            gen = Some(gen_degree_set);
        }
        let solver = match SystemSolver::setup(
            params,
            solver_degree_set,
            hdpc,
            ldpc,
            decoding_config,
            &mut manager,
            solver_type,
        ) {
            Ok(s) => s,
            Err(e) => {
                return Err(DecoderError::Solver(e));
            },
        };
        Ok(Decoder { params, manager, solver, received_msg_vectors, gen_degree_set: gen })
    }

    /// Number of received message vectors.
    fn count_received(v: &Vec<bool>) -> (r: usize)
        ensures
            r == count_true(v@),
    {
        let mut n: usize = 0;
        let mut i: usize = 0;
        while i < v.len()
            invariant
                i <= v@.len(),
                n == count_true(v@.take(i as int)),
                n <= i,
            decreases v@.len() - i,
        {
            proof {
                assert(v@.take(i + 1).drop_last() =~= v@.take(i as int));
            }
            if v[i] {
                n += 1;
            }
            i += 1;
        }
        assert(v@.take(v@.len() as int) =~= v@);
        n
    }

    /// Decoded when every message vector of a systematic code was received
    /// directly, otherwise the solver's status.
    pub fn decode_status(&self) -> (r: DecodeStatus)
        ensures
            r == self.status_of(),
    {
        match &self.received_msg_vectors {
            Some(received) => {
                if Self::count_received(received) == self.manager.num_source() {
                    return DecodeStatus::Decoded;
                }
            },
            None => {},
        }
        self.solver.get_status()
    }

    /// Stores the bytes of coded vector `coded_id` through the data operator
    /// and adds it (see [`Self::add_coded_id`]).
    pub fn add_coded_vector(&mut self, coded_id: usize, vector: &[u8]) -> (r: DecodeStatus)
        requires
            old(self).wf(),
            old(self).spec_manager().has_operator(),
        ensures
            final(self).wf(),
            final(self).spec_params() == old(self).spec_params(),
            final(self).spec_manager().has_operator(),
            !old(self).spec_manager().coded().contains_key(coded_id) && old(self).spec_manager().next_id() == usize::MAX
                ==> *final(self) == *old(self) && r == old(self).solver_status(),
            old(self).spec_manager().coded().contains_key(coded_id) || old(self).spec_manager().next_id() < usize::MAX
                ==> Self::coded_added(old(self), final(self), coded_id, r),
    {
        if !self.manager.data_id_of_coded_vector(coded_id).is_some() && self.manager.ids_left() == 0 {
            return self.solver.get_status();
        }
        self.manager.insert_coded_vector(coded_id, vector);
        self.add_coded_id(coded_id)
    }

    /// Adds coded vector `coded_id` (registering a data ID for it). For a
    /// systematic code, a message ID below `num_source` is copied into place
    /// and counts as received; parity-check IDs below `k + l + h` are
    /// ignored; any other ID goes to the solver. Once the solver has decoded,
    /// a systematic decoder rebuilds the message vectors it did not receive
    /// from their degree sets, and an ordinary decoder moves the inactive
    /// message vectors back into place. Returns the status after the step.
    pub fn add_coded_id(&mut self, coded_id: usize) -> (r: DecodeStatus)
        requires
            old(self).wf(),
        ensures
            final(self).wf(),
            final(self).spec_params() == old(self).spec_params(),
            final(self).spec_manager().has_operator() == old(self).spec_manager().has_operator(),
            !old(self).spec_manager().coded().contains_key(coded_id) && old(self).spec_manager().next_id() == usize::MAX
                ==> *final(self) == *old(self) && r == old(self).solver_status(),
            old(self).spec_manager().coded().contains_key(coded_id) || old(self).spec_manager().next_id() < usize::MAX
                ==> Self::coded_added(old(self), final(self), coded_id, r),
            (old(self).spec_manager().coded().contains_key(coded_id) || old(self).spec_manager().next_id() < usize::MAX)
                && old(self).spec_manager().records() ==> (old(self).spec_manager().log() + seq![
                OpView::InfoCodedVector { coded_id, data_id: Self::data_id_for(&old(self).spec_manager(), coded_id) },
            ]).is_prefix_of(final(self).spec_manager().log()),
            (old(self).spec_manager().coded().contains_key(coded_id) || old(self).spec_manager().next_id() < usize::MAX)
                && (coded_id < old(self).spec_manager().spec_num_source() && old(self).received() is None || old(
                self).spec_manager().spec_num_source() <= coded_id < old(self).spec_params().total())
                ==> final(self).spec_manager().log_extends(
                &old(self).spec_manager(),
                seq![
                    OpView::InfoCodedVector {
                        coded_id,
                        data_id: Self::data_id_for(&old(self).spec_manager(), coded_id),
                    },
                ],
            ),
            (old(self).spec_manager().coded().contains_key(coded_id) || old(self).spec_manager().next_id() < usize::MAX)
                && coded_id < old(self).spec_manager().spec_num_source() && old(self).received() is Some && count_true(
                old(self).flags_after(coded_id),
            ) == old(self).spec_manager().spec_num_source() ==> final(self).spec_manager().log_extends(
                &old(self).spec_manager(),
                seq![
                    OpView::InfoCodedVector {
                        coded_id,
                        data_id: Self::data_id_for(&old(self).spec_manager(), coded_id),
                    },
                ] + copy_op(Self::data_id_for(&old(self).spec_manager(), coded_id), coded_id),
            ),
            (old(self).spec_manager().coded().contains_key(coded_id) || old(self).spec_manager().next_id() < usize::MAX)
                && old(self).received() is Some && (coded_id >= old(self).spec_params().total() || coded_id
                < old(self).spec_manager().spec_num_source() && count_true(old(self).flags_after(coded_id))
                != old(self).spec_manager().spec_num_source()) && final(self).solver_status() == DecodeStatus::Decoded
                ==> exists|prior: DataManager, degree_sets: Seq<Seq<usize>>|
                final(self).spec_manager().logged(
                    &prior,
                    recovery_ops(
                        old(self).flags_after(coded_id),
                        degree_sets,
                        old(self).spec_manager().var_base() as int,
                        old(self).spec_manager().spec_num_source() as int,
                    ),
                ),
            (old(self).spec_manager().coded().contains_key(coded_id) || old(self).spec_manager().next_id() < usize::MAX)
                && old(self).received() is Some && (coded_id >= old(self).spec_params().total() || coded_id
                < old(self).spec_manager().spec_num_source() && count_true(old(self).flags_after(coded_id))
                != old(self).spec_manager().spec_num_source()) && final(self).solver_status() == DecodeStatus::Decoded
                ==> exists|prior: DataManager, degree_sets: Seq<Seq<usize>>|
                #![trigger rebuild_queries(old(self).flags_after(coded_id), degree_sets, old(self).spec_manager().spec_num_source() as int), final(self).spec_manager().logged(&prior, recovery_ops(old(self).flags_after(coded_id), degree_sets, old(self).spec_manager().var_base() as int, old(self).spec_manager().spec_num_source() as int))]
                final(self).spec_manager().logged(
                    &prior,
                    recovery_ops(
                        old(self).flags_after(coded_id),
                        degree_sets,
                        old(self).spec_manager().var_base() as int,
                        old(self).spec_manager().spec_num_source() as int,
                    ),
                ) && final(self).gen_queries() == old(self).gen_queries() + rebuild_queries(
                    old(self).flags_after(coded_id),
                    degree_sets,
                    old(self).spec_manager().spec_num_source() as int,
                ),
    {
        if !self.manager.data_id_of_coded_vector(coded_id).is_some() && self.manager.ids_left() == 0 {
            return self.solver.get_status();
        }
        let data_id = self.manager.insert_coded_id(coded_id);
        let ghost m_ins = self.manager;
        self.manager.add_coded_vector(coded_id, data_id);
        let num_msg = self.manager.num_source();
        if coded_id < num_msg {
            match self.received_msg_vectors.take() {
                Some(mut received) => {
                    let ghost m_info = self.manager;
                    self.manager.copy_to(data_id, coded_id);
                    proof {
                        DataManager::lemma_logged_trans(&m_ins, &m_info, &self.manager, seq![OpView::InfoCodedVector { coded_id, data_id }], copy_op(data_id, coded_id));
                    }
                    received.set(coded_id, true);
                    let num_received = Self::count_received(&received);
                    self.received_msg_vectors = Some(received);
                    if num_received == num_msg {
                        return DecodeStatus::Decoded;
                    }
                },
                None => {
                    return self.solver.get_status();
                },
            }
        } else if coded_id < self.params.num_total() {
            return self.solver.get_status();
        }
        let ghost rec_mid = self.received();
        assert(coded_id < old(self).spec_manager().spec_num_source() ==> rec_mid == Some(
            old(self).received().unwrap().update(coded_id as int, true),
        ) && count_true(rec_mid.unwrap()) != old(self).spec_manager().spec_num_source());
        assert(coded_id >= old(self).spec_manager().spec_num_source() ==> rec_mid == old(self).received());
        self.solver.add_coded_vector(&mut self.manager, coded_id, data_id);
        assert(self.received() == rec_mid);
        if self.solver.get_status() == DecodeStatus::Decoded {
            match self.received_msg_vectors.take() {
                Some(mut received) => {
                    let mut gen = self.gen_degree_set.take().unwrap();
                    let n = received.len();
                    let ghost rec0 = received@;
                    let ghost m_mid = self.manager;
                    let ghost degree_sets: Seq<Seq<usize>> = Seq::empty();
                    let ghost q0 = gen.queries();
                    proof {
                        assert(self.manager.log() =~= self.manager.log() + seq![]);
                        assert(q0 + rebuild_queries(rec0, degree_sets, 0) =~= q0);
                    }
                    let mut msg_id: usize = 0;
                    while msg_id < n
                        invariant
                            n == received@.len(),
                            rec0.len() == n,
                            forall|j: int| 0 <= j < n && #[trigger] rec0[j] ==> received@[j],
                            forall|j: int| 0 <= j < msg_id ==> #[trigger] received@[j],
                            msg_id <= n,
                            self.manager.wf(),
                            self.manager.spec_params() == self.params,
                            self.manager.spec_num_source() == n,
                            self.manager.has_operator() == old(self).manager.has_operator(),
                            self.params == old(self).params,
                            self.solver.wf(),
                            self.solver.spec_params() == self.params,
                            self.solver.spec_status() == DecodeStatus::Decoded,
                            degree_sets.len() == msg_id,
                            forall|j: int| msg_id <= j < n ==> #[trigger] received@[j] == rec0[j],
                            self.manager.var_base() == m_mid.var_base(),
                            self.manager.logged(&m_mid, recovery_ops(rec0, degree_sets, m_mid.var_base() as int, msg_id as int)),
                            gen.queries() == q0 + rebuild_queries(rec0, degree_sets, msg_id as int),
                        decreases n - msg_id,
                    {
                        let ghost m_before = self.manager;
                        let ghost ds0 = degree_sets;
                        if !received[msg_id] {
                            let degree_set = gen.degree_set(msg_id);
                            rebuild_message(&mut self.manager, msg_id, degree_set.as_slice());
                            received.set(msg_id, true);
                            proof {
                                DataManager::lemma_logged_trans(&m_mid, &m_before, &self.manager, recovery_ops(rec0, ds0, m_mid.var_base() as int, msg_id as int), rebuild_ops(msg_id, degree_set@, m_mid.var_base() as int));
                                degree_sets = ds0.push(degree_set@);
                            }
                        } else {
                            proof {
                                degree_sets = ds0.push(Seq::empty());
                                assert(self.manager.log() =~= self.manager.log() + seq![]);
                                DataManager::lemma_logged_trans(&m_mid, &m_before, &self.manager, recovery_ops(rec0, ds0, m_mid.var_base() as int, msg_id as int), seq![]);
                            }
                        }
                        proof {
                            lemma_rebuild_queries_push(rec0, ds0, degree_sets.last(), msg_id as int);
                            if !rec0[msg_id as int] {
                                assert(q0 + rebuild_queries(rec0, degree_sets, msg_id + 1) =~= q0 + rebuild_queries(
                                    rec0,
                                    ds0,
                                    msg_id as int,
                                ) + seq![(msg_id, degree_sets.last())]);
                            } else {
                                assert(rebuild_queries(rec0, degree_sets, msg_id + 1) =~= rebuild_queries(rec0, ds0, msg_id as int));
                            }
                            lemma_recovery_ops_push(rec0, ds0, degree_sets.last(), m_mid.var_base() as int, msg_id as int);
                            assert(degree_sets =~= ds0.push(degree_sets.last()));
                            assert(recovery_ops(rec0, ds0, m_mid.var_base() as int, msg_id as int) + seq![] =~= recovery_ops(rec0, ds0, m_mid.var_base() as int, msg_id as int));
                        }
                        msg_id += 1;
                    }
                    proof {
                        assert(rec0 == old(self).flags_after(coded_id));
                        assert(m_mid.var_base() == old(self).spec_manager().var_base());
                        assert(self.manager.logged(
                            &m_mid,
                            recovery_ops(
                                old(self).flags_after(coded_id),
                                degree_sets,
                                old(self).spec_manager().var_base() as int,
                                old(self).spec_manager().spec_num_source() as int,
                            ),
                        ));
                    }
                    self.gen_degree_set = Some(gen);
                    self.received_msg_vectors = Some(received);
                    assert(forall|j: int| 0 <= j < n && #[trigger] rec_mid.unwrap()[j] ==> received@[j]);
                },
                None => {
                    self.manager.restore_for_ordinary();
                },
            }
        }
        proof {
            if coded_id < old(self).spec_manager().spec_num_source() && old(self).received() is Some {
                let f = self.received().unwrap();
                assert(rec_mid.unwrap()[coded_id as int]);
                assert(f[coded_id as int]);
                assert forall|j: int| 0 <= j < f.len() && #[trigger] old(self).received().unwrap()[j] implies f[j] by {
                    assert(rec_mid.unwrap()[j]);
                }
            }
        }
        self.solver.get_status()
    }
}

} // verus!
