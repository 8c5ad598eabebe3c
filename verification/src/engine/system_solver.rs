//! The solver that drives the master system through BP, Gaussian
//! elimination on the inactive system, and back-substitution.
use vstd::prelude::*;
use crate::data_manager::{DataManager, add_to_vector_ops, move_op};
use crate::engine::binary_matrix::{lemma_set_bits_below, set_bits};
use crate::engine::inactivation::InactiveSystem;
use crate::engine::sparse_equation::{SparseSystem, all_below};
use crate::traits::code_scheme::CodeScheme;
use crate::traits::hdpc::HDPC;
use crate::traits::ldpc::LDPC;
use crate::types::{CodeParams, DecodeStatus, DecodingConfig, DegreeSetFn, OpView, SolverType, SubstitutionMethod};

verus! {

broadcast use crate::data_manager::group_log_grows;

/// Data IDs of the inactive solutions `sol` selected by the inactive
/// columns of equation `e` of the master system.
pub open spec fn row_solution_ids(s: SparseSystem, sol: Seq<usize>, e: int) -> Seq<usize> {
    set_bits(s.coeffs()@[e], s.inactive()).map_values(|c: usize| sol[c as int])
}

/// The first `x` decoded variables (data IDs from `base`) each get the
/// inactive solutions of its equation's row added in.
pub open spec fn decoded_subst_ops(s: SparseSystem, sol: Seq<usize>, base: int, x: int) -> Seq<OpView>
    decreases x,
{
    if x <= 0 {
        seq![]
    } else {
        decoded_subst_ops(s, sol, base, x - 1) + add_to_vector_ops(
            row_solution_ids(s, sol, s.equ_order()[x - 1] as int),
            (s.var_order()[x - 1] + base) as usize,
        )
    }
}

/// The first `x` inactive variables (data IDs from `base`) each get the
/// solution of its column moved in.
pub open spec fn inactive_move_ops(s: SparseSystem, sol: Seq<usize>, base: int, x: int) -> Seq<OpView>
    decreases x,
{
    if x <= 0 {
        seq![]
    } else {
        inactive_move_ops(s, sol, base, x - 1) + move_op(
            sol[s.matrix_seq(x - 1)] as int,
            s.var_order()[s.active_end() + x - 1] + base,
        )
    }
}

/// The operations of the direct back-substitution from the inactive
/// solutions `sol`, variable vectors from data ID `base`.
pub open spec fn back_substitution_ops(s: SparseSystem, sol: Seq<usize>, base: int) -> Seq<OpView> {
    decoded_subst_ops(s, sol, base, s.decoded()) + inactive_move_ops(s, sol, base, s.inactive())
}

/// The operations that register a fresh vector `data_id` for slot
/// `coded_id`: it is zeroed, then either the message vector `coded_id` is
/// copied into it or it is zeroed as a padding vector.
pub open spec fn slot_ops(coded_id: usize, data_id: usize, copy: bool) -> Seq<OpView> {
    seq![OpView::EnsureZero { list_id: seq![data_id] }] + (if copy {
        seq![OpView::CopyTo { src_id: coded_id, target_id: data_id }]
    } else {
        seq![OpView::EnsureZeroOne { id: data_id }]
    })
}

/// `log` holds, next to each other, the operations registering some vector
/// for slot `coded_id` (copied or zeroed as `copy` says).
pub open spec fn logs_slot(log: Seq<OpView>, coded_id: usize, copy: bool) -> bool {
    exists|i: int, d: usize|
        #![trigger log.subrange(i, i + 2), slot_ops(coded_id, d, copy)]
        0 <= i && i + 2 <= log.len() && log.subrange(i, i + 2) == slot_ops(coded_id, d, copy)
}

/// What a log holds stays in it as it grows.
pub proof fn lemma_logs_slot_grows(a: Seq<OpView>, b: Seq<OpView>, coded_id: usize, copy: bool)
    requires
        logs_slot(a, coded_id, copy),
        a.is_prefix_of(b),
    ensures
        logs_slot(b, coded_id, copy),
{
    let (i, d) = choose|i: int, d: usize|
        #![trigger a.subrange(i, i + 2), slot_ops(coded_id, d, copy)]
        0 <= i && i + 2 <= a.len() && a.subrange(i, i + 2) == slot_ops(coded_id, d, copy);
    assert(b.subrange(i, i + 2) =~= a.subrange(i, i + 2));
}

/// Phase of the solver.
#[derive(Debug, Clone, Copy, PartialEq, Eq, Structural)]
pub enum SolvingPhase {
    /// Belief propagation with inactivation.
    BP,
    /// Gaussian elimination on the inactive system.
    GE,
    /// Back-substitution done: every variable is recovered.
    BS,
}

/// Why a [`SystemSolver`] could not be set up.
#[derive(Debug, Clone, Copy, PartialEq, Eq, Structural)]
pub enum SolverError {
    /// The scheme's parameters differ from the manager's session.
    ParamsMismatch,
    /// The cap on inactive variables is below `b + h`, or too large to allocate.
    InactiveCap,
    /// The data IDs left cannot cover the vectors the setup allocates.
    IdsExhausted,
}

/// The two parameter sets agree field by field.
pub fn same_params(x: &CodeParams, y: &CodeParams) -> (r: bool)
    ensures
        r == (*x == *y),
{
    x.k == y.k && x.a == y.a && x.b == y.b && x.l == y.l && x.h == y.h && x.i == y.i
}

/// The vectors that setting up a solver of `solver_type` registers are
/// registered in `m`: for ordinary decoding the padding message variables
/// `a - (k - num_source)..a`, for systematic encoding the coded IDs `0..k`,
/// for systematic decoding the padding coded IDs `num_source..k`.
pub open spec fn padding_registered(m: &DataManager, solver_type: SolverType) -> bool {
    let p = m.spec_params();
    let ns = m.spec_num_source();
    match solver_type {
        SolverType::OrdDec => forall|c: usize| p.a - (p.k - ns) <= c < p.a ==> #[trigger] m.coded().contains_key(c),
        SolverType::SysEnc => forall|c: usize| c < p.k ==> #[trigger] m.coded().contains_key(c),
        SolverType::SysDec => forall|c: usize| ns <= c < p.k ==> #[trigger] m.coded().contains_key(c),
        SolverType::OrdEnc => true,
    }
}

/// Solver over the master system and the inactive system.
pub struct SystemSolver {
    params: CodeParams,
    hdpc: Option<Box<dyn HDPC>>,
    sparse_system: SparseSystem,
    gen_degree_set: DegreeSetFn,
    inactive_system: InactiveSystem,
    /// Current phase.
    pub phase: SolvingPhase,
    /// Decoding status after the last step.
    pub status: DecodeStatus,
    bs_method: SubstitutionMethod,
    /// Rows were added to the inactive system since it was last rebuilt.
    inactive_dirty: bool,
}

impl SystemSolver {
    /// Code parameters.
    pub closed spec fn spec_params(&self) -> CodeParams {
        self.params
    }

    /// Current phase.
    pub closed spec fn spec_phase(&self) -> SolvingPhase {
        self.phase
    }

    /// Current status.
    pub closed spec fn spec_status(&self) -> DecodeStatus {
        self.status
    }

    /// The master system.
    pub closed spec fn master(&self) -> SparseSystem {
        self.sparse_system
    }

    /// Back-substitution method.
    pub closed spec fn spec_bs_method(&self) -> SubstitutionMethod {
        self.bs_method
    }

    /// Data IDs the solver may still allocate: `h` for the HDPC rows while
    /// the HDPC part has not been used, none after.
    pub closed spec fn id_reserve(&self) -> int {
        if self.hdpc is Some {
            self.params.h as int
        } else {
            0
        }
    }

    /// The HDPC part is still unused.
    pub closed spec fn has_hdpc(&self) -> bool {
        self.hdpc is Some
    }

    /// Rank of the inactive system's factorization.
    pub closed spec fn inactive_rank(&self) -> int {
        self.inactive_system.rank()
    }

    /// Consistent solver: both systems consistent and sized by the same
    /// parameters; past BP every variable is decoded or inactive and the
    /// inactive system has one column per inactive variable; during GE the
    /// back-substitution peers are built; the status is decoded only once
    /// back-substitution ran, or while in BP with every variable decoded.
    pub closed spec fn wf(&self) -> bool {
        &&& self.sparse_system.wf()
        &&& self.inactive_system.wf()
        &&& self.sparse_system.spec_params() == self.params
        &&& self.inactive_system.spec_params() == self.params
        &&& self.phase != SolvingPhase::BP ==> {
            &&& self.sparse_system.decoded() + self.sparse_system.inactive() == self.sparse_system.total()
            &&& self.inactive_system.cols() == self.sparse_system.inactive()
        }
        &&& self.phase == SolvingPhase::GE ==> self.sparse_system.has_peers()
        &&& self.status == DecodeStatus::Decoded ==> self.phase == SolvingPhase::BS || (self.phase == SolvingPhase::BP
            && self.sparse_system.decoded() == self.sparse_system.total())
    }

    /// Decoding status after the last step.
    pub fn get_status(&self) -> (r: DecodeStatus)
        ensures
            r == self.spec_status(),
    {
        self.status
    }

    /// Current phase.
    pub fn get_phase(&self) -> (r: SolvingPhase)
        ensures
            r == self.spec_phase(),
    {
        self.phase
    }

    /// The manager keeps its session: consistent, same parameters and layout.
    pub open spec fn session_kept(m: &DataManager, o: &DataManager) -> bool {
        crate::engine::precode::session_kept(m, o)
    }

    /// Checks what a scheme reports against the session: `ParamsMismatch`
    /// unless the parameters equal the session's, then `InactiveCap` unless
    /// `b + h <= max_inactive_num <= usize::MAX - 65`, then `IdsExhausted`
    /// unless more than `l` data IDs are left.
    pub fn check_setup(params: &CodeParams, session: &CodeParams, max_inactive_num: usize, ids_left: usize) -> (r:
        Result<(), SolverError>)
        requires
            session.wf(),
        ensures
            *params != *session ==> r == Err::<(), SolverError>(SolverError::ParamsMismatch),
            *params == *session && (max_inactive_num < params.b + params.h || max_inactive_num > usize::MAX - 65)
                ==> r == Err::<(), SolverError>(SolverError::InactiveCap),
            *params == *session && params.b + params.h <= max_inactive_num <= usize::MAX - 65 && ids_left <= params.l
                ==> r == Err::<(), SolverError>(SolverError::IdsExhausted),
            *params == *session && params.b + params.h <= max_inactive_num <= usize::MAX - 65 && ids_left > params.l
                ==> r is Ok,
    {
        if !same_params(params, session) {
            return Err(SolverError::ParamsMismatch);
        }
        if max_inactive_num < params.b + params.h || max_inactive_num > usize::MAX - 65 {
            return Err(SolverError::InactiveCap);
        }
        if ids_left <= params.l {
            return Err(SolverError::IdsExhausted);
        }
        Ok(())
    }


    /// Every coded ID registered in `m` was registered in `o`, is an LDPC
    /// check ID (`k..k + l`), or lies in `lo..hi`.
    pub open spec fn registered_within(o: &DataManager, m: &DataManager, lo: int, hi: int) -> bool {
        let p = m.spec_params();
        forall|c: usize|
            #[trigger] m.coded().contains_key(c) ==> o.coded().contains_key(c) || (p.k <= c < p.k + p.l) || (lo <= c
                < hi)
    }

    /// The slots that setting up a solver of `solver_type` fills (see
    /// [`Self::slots_logged`]), as a range of IDs.
    pub open spec fn slot_range(m: &DataManager, solver_type: SolverType) -> (int, int) {
        let p = m.spec_params();
        let ns = m.spec_num_source();
        match solver_type {
            SolverType::SysEnc => (0, p.k as int),
            SolverType::SysDec => (ns as int, p.k as int),
            SolverType::OrdDec => (p.a - (p.k - ns), p.a as int),
            SolverType::OrdEnc => (0, 0),
        }
    }

    /// The log of `m` holds the registration operations ([`slot_ops`]) of
    /// the slots that setting up a solver of `solver_type` fills: for
    /// systematic encoding, coded IDs `0..k`, the first `num_source` copied
    /// from their message vectors and the rest zeroed; for systematic
    /// decoding, the padding coded IDs `num_source..k`, zeroed; for ordinary
    /// decoding, the padding message variables `a - (k - num_source)..a`,
    /// zeroed.
    pub open spec fn slots_logged(m: &DataManager, solver_type: SolverType) -> bool {
        let p = m.spec_params();
        let ns = m.spec_num_source();
        match solver_type {
            SolverType::SysEnc => (forall|c: usize| c < ns ==> #[trigger] logs_slot(m.log(), c, true)) && (forall|
                c: usize,
            |
                ns <= c < p.k ==> #[trigger] logs_slot(m.log(), c, false)),
            SolverType::SysDec => forall|c: usize| ns <= c < p.k ==> #[trigger] logs_slot(m.log(), c, false),
            SolverType::OrdDec => forall|c: usize| p.a - (p.k - ns) <= c < p.a ==> #[trigger] logs_slot(m.log(), c, false),
            SolverType::OrdEnc => true,
        }
    }

    /// Sets the solver up for `solver_type` (decoding, or systematic
    /// encoding): the master system with the scheme's LDPC constraints, the
    /// session's field from the HDPC part, and the vectors the session starts
    /// with. Ordinary decoding adds the padding variables as decoded
    /// (zero) vectors and runs BP; systematic encoding adds the `num_source`
    /// message vectors as coded vectors (copied) and the padding ones as
    /// zero vectors; systematic decoding adds the padding coded vectors as
    /// zero vectors.
    ///
    /// Fails when the scheme's parameters are not the session's, when the
    /// decoding configuration caps inactive variables below `b + h` (or too
    /// high to allocate), or when data IDs run out.
    pub fn new<T: CodeScheme>(custom: &T, manager: &mut DataManager, solver_type: SolverType) -> (r: Result<
        Self,
        SolverError,
    >)
        requires
            old(manager).wf(),
            solver_type != SolverType::OrdEnc,
        ensures
            Self::session_kept(final(manager), old(manager)),
            r matches Ok(s) ==> s.wf() && s.spec_params() == old(manager).spec_params(),
            r is Ok ==> padding_registered(final(manager), solver_type),
            r is Ok && old(manager).records() ==> Self::slots_logged(final(manager), solver_type),
            r is Ok ==> Self::registered_within(
                old(manager),
                final(manager),
                Self::slot_range(final(manager), solver_type).0,
                Self::slot_range(final(manager), solver_type).1,
            ),
    {
        let params = custom.get_params();
        let gen_degree_set = custom.create_degree_set_fn();
        let (hdpc, ldpc_opt) = custom.create_precode();
        let decoding_config = custom.decoding_config();
        Self::setup(params, gen_degree_set, hdpc, ldpc_opt, decoding_config, manager, solver_type)
    }

    /// The data IDs left after `m` cover the LDPC checks, every slot and
    /// the HDPC rows, with room to spare.
    pub open spec fn ids_suffice(m: &DataManager) -> bool {
        let p = m.spec_params();
        p.l + p.k + p.h + 3 < usize::MAX - m.next_id()
    }

    /// [`Self::new`] on what the scheme reported: its parameters, degree set
    /// generator, precode parts and decoding configuration.
    ///
    /// Fails as [`Self::check_setup`] says on the parameters, the cap on
    /// inactive variables and the data IDs left; succeeds whenever those
    /// checks pass and the data IDs left cover the LDPC checks, the slots
    /// and the HDPC rows. Without an HDPC part the slots get consecutive
    /// fresh data IDs, after those of the LDPC checks.
    pub fn setup(
        params: CodeParams,
        gen_degree_set: DegreeSetFn,
        hdpc: Option<Box<dyn HDPC>>,
        ldpc_opt: Option<Box<dyn LDPC>>,
        decoding_config: DecodingConfig,
        manager: &mut DataManager,
        solver_type: SolverType,
    ) -> (r: Result<Self, SolverError>)
        requires
            old(manager).wf(),
            solver_type != SolverType::OrdEnc,
        ensures
            Self::session_kept(final(manager), old(manager)),
            r matches Ok(s) ==> s.wf() && s.spec_params() == old(manager).spec_params(),
            r is Ok ==> padding_registered(final(manager), solver_type),
            r is Ok && old(manager).records() ==> Self::slots_logged(final(manager), solver_type),
            solver_type != SolverType::OrdDec && (r matches Err(SolverError::IdsExhausted)) ==> final(manager).next_id()
                == usize::MAX || usize::MAX - old(manager).next_id() <= old(manager).spec_params().l,
            r is Ok ==> Self::registered_within(
                old(manager),
                final(manager),
                Self::slot_range(final(manager), solver_type).0,
                Self::slot_range(final(manager), solver_type).1,
            ),
            params != old(manager).spec_params() ==> (r matches Err(SolverError::ParamsMismatch)),
            params == old(manager).spec_params() && (decoding_config.max_inactive_num < params.b + params.h
                || decoding_config.max_inactive_num > usize::MAX - 65) ==> (r matches Err(SolverError::InactiveCap)),
            params == old(manager).spec_params() && params.b + params.h <= decoding_config.max_inactive_num
                <= usize::MAX - 65 && usize::MAX - old(manager).next_id() <= params.l ==> (r matches Err(
                SolverError::IdsExhausted,
            )),
            params == old(manager).spec_params() && params.b + params.h <= decoding_config.max_inactive_num
                <= usize::MAX - 65 && Self::ids_suffice(old(manager)) ==> r is Ok,
            r is Ok && hdpc is None ==> forall|c: usize|
                Self::slot_range(final(manager), solver_type).0 <= c < Self::slot_range(final(manager), solver_type).1
                    ==> #[trigger] final(manager).coded()[c] == old(manager).next_id() + (if ldpc_opt is Some {
                    params.l as int
                } else {
                    0
                }) + c - Self::slot_range(final(manager), solver_type).0,
    {
        let max_inactive_num = decoding_config.max_inactive_num;
        let session = manager.code_params();
        Self::check_setup(&params, &session, max_inactive_num, manager.ids_left())?;
        let mut master = SparseSystem::new(&params, max_inactive_num, decoding_config.inac_strategy);
        let ghost ldpc_some = ldpc_opt is Some;
        match ldpc_opt {
            Some(ldpc) => {
                master.add_ldpc_constraints(manager, &*ldpc);
            },
            None => {},
        }
        match &hdpc {
            Some(h) => {
                let pp = h.gf_poly();
                manager.config_finite_field(pp);
            },
            None => {},
        }
        let inactive_system = InactiveSystem::new(&params);
        let mut solver = SystemSolver {
            params,
            hdpc,
            sparse_system: master,
            gen_degree_set,
            inactive_system,
            phase: SolvingPhase::BP,
            status: DecodeStatus::NotDecoded,
            bs_method: decoding_config.subs_method,
            inactive_dirty: false,
        };
        let ghost m0 = *manager;
        let ghost base = manager.next_id() as int;
        let ghost reserve0 = solver.id_reserve();
        let ghost eq0 = solver.sparse_system.equations();
        let ghost hdpc_none = solver.hdpc is None;
        proof {
            solver.sparse_system.lemma_wf();
            assert(base == old(manager).next_id() + (if ldpc_some {
                params.l as int
            } else {
                0
            }));
            assert(eq0 == (if ldpc_some {
                params.l as int
            } else {
                0
            }));
        }
        let num_source = manager.num_source();
        let num_k = params.k;
        let num_a = params.a;
        match solver_type {
            SolverType::OrdDec => {
                let start = num_a - manager.num_padding();
                let mut var_id = start;
                while var_id < num_a
                    invariant
                        solver.wf(),
                        solver.spec_params() == params,
                        params == manager.spec_params(),
                        num_a == params.a,
                        var_id <= num_a,
                        start <= var_id,
                        start == params.a - (params.k - manager.spec_num_source()),
                        solver.phase == SolvingPhase::BP,
                        solver.status == DecodeStatus::NotDecoded,
                        solver_type == SolverType::OrdDec,
                        params == old(manager).spec_params(),
                        params.b + params.h <= decoding_config.max_inactive_num <= usize::MAX - 65,
                        base + reserve0 <= old(manager).next_id() + params.l + params.h,
                        reserve0 == (if hdpc_none { 0 } else { params.h as int }),
                        manager.next_id() + solver.id_reserve() <= base + (var_id - start) + reserve0,
                        hdpc_none ==> solver.id_reserve() == 0 && manager.next_id() == base + (var_id - start),
                        hdpc_none ==> forall|c: usize| start <= c < var_id ==> #[trigger] manager.coded()[c] == base + c - start,
                        solver.sparse_system.equations() == eq0 + (var_id - start),
                        eq0 <= params.l,
                        Self::session_kept(manager, old(manager)),
                        forall|c: usize| start <= c < var_id ==> #[trigger] manager.coded().contains_key(c),
                        Self::registered_within(old(manager), manager, start as int, var_id as int),
                        manager.records() ==> forall|c: usize| start <= c < var_id ==> #[trigger] logs_slot(manager.log(), c, false),
                    decreases num_a - var_id,
                {
                    if manager.ids_left() == 0 || solver.sparse_system.num_equations() >= usize::MAX - 2 {
                        return Err(SolverError::IdsExhausted);
                    }
                    let ghost m0 = *manager;
                    let ghost log0 = manager.log();
                    let new_data_id = Self::register_slot(manager, var_id, false);
                    proof {
                        if manager.records() {
                            assert(manager.log().subrange(log0.len() as int, log0.len() as int + 2) =~= slot_ops(var_id, new_data_id, false));
                            assert(logs_slot(manager.log(), var_id, false));
                        }
                    }
                    let ids = vec![var_id];
                    proof {
                        solver.sparse_system.lemma_wf();
                    }
                    let ghost m1 = *manager;
                    solver.sparse_system.add_lt_coded_vector(manager, new_data_id, ids.as_slice());
                    proof {
                        if manager.records() {
                            assert forall|c: usize| start <= c < var_id + 1 implies #[trigger] logs_slot(manager.log(), c, false) by {
                                if c == var_id {
                                    lemma_logs_slot_grows(m1.log(), manager.log(), c, false);
                                } else {
                                    lemma_logs_slot_grows(m0.log(), manager.log(), c, false);
                                }
                            }
                        }
                    }
                    var_id += 1;
                }
                let ghost m2 = *manager;
                solver.sparse_system.run_bp_inactivation(manager);
                proof {
                    if manager.records() {
                        assert forall|c: usize| start <= c < num_a implies #[trigger] logs_slot(manager.log(), c, false) by {
                            lemma_logs_slot_grows(m2.log(), manager.log(), c, false);
                        }
                    }
                }
            },
            SolverType::SysEnc => {
                let mut coded_id: usize = 0;
                while coded_id < num_k
                    invariant
                        solver.wf(),
                        solver.spec_params() == params,
                        params == manager.spec_params(),
                        num_k == params.k,
                        num_source <= num_k,
                        coded_id <= num_k,
                        num_source == manager.spec_num_source(),
                        params == old(manager).spec_params(),
                        params.b + params.h <= decoding_config.max_inactive_num <= usize::MAX - 65,
                        base + reserve0 <= old(manager).next_id() + params.l + params.h,
                        reserve0 == (if hdpc_none { 0 } else { params.h as int }),
                        manager.next_id() + solver.id_reserve() <= base + (coded_id - 0) + reserve0,
                        hdpc_none ==> solver.id_reserve() == 0 && manager.next_id() == base + (coded_id - 0),
                        hdpc_none ==> forall|c: usize| 0 <= c < coded_id ==> #[trigger] manager.coded()[c] == base + c - 0,
                        Self::session_kept(manager, old(manager)),
                        forall|c: usize| c < coded_id ==> #[trigger] manager.coded().contains_key(c),
                        Self::registered_within(old(manager), manager, 0, coded_id as int),
                        manager.records() ==> forall|c: usize| c < coded_id && c < num_source ==> #[trigger] logs_slot(manager.log(), c, true),
                        manager.records() ==> forall|c: usize| num_source <= c < coded_id ==> #[trigger] logs_slot(manager.log(), c, false),
                    decreases num_k - coded_id,
                {
                    if manager.ids_left() == 0 {
                        return Err(SolverError::IdsExhausted);
                    }
                    let ghost m0 = *manager;
                    let ghost log0 = manager.log();
                    let copy = coded_id < num_source;
                    let new_data_id = Self::register_slot(manager, coded_id, copy);
                    proof {
                        if manager.records() {
                            assert(manager.log().subrange(log0.len() as int, log0.len() as int + 2) =~= slot_ops(coded_id, new_data_id, copy));
                            assert(logs_slot(manager.log(), coded_id, copy));
                        }
                    }
                    let ghost m1 = *manager;
                    solver.add_coded_vector(manager, coded_id, new_data_id);
                    proof {
                        if manager.records() {
                            assert forall|c: usize| c < coded_id + 1 && c < num_source implies #[trigger] logs_slot(manager.log(), c, true) by {
                                if c == coded_id {
                                    lemma_logs_slot_grows(m1.log(), manager.log(), c, true);
                                } else {
                                    lemma_logs_slot_grows(m0.log(), manager.log(), c, true);
                                }
                            }
                            assert forall|c: usize| num_source <= c < coded_id + 1 implies #[trigger] logs_slot(manager.log(), c, false) by {
                                if c == coded_id {
                                    lemma_logs_slot_grows(m1.log(), manager.log(), c, false);
                                } else {
                                    lemma_logs_slot_grows(m0.log(), manager.log(), c, false);
                                }
                            }
                        }
                    }
                    coded_id += 1;
                }
            },
            _ => {
                let mut coded_id = num_source;
                while coded_id < num_k
                    invariant
                        solver.wf(),
                        solver.spec_params() == params,
                        params == manager.spec_params(),
                        num_k == params.k,
                        coded_id <= num_k || coded_id == num_source,
                        num_source <= coded_id,
                        num_source == manager.spec_num_source(),
                        params == old(manager).spec_params(),
                        params.b + params.h <= decoding_config.max_inactive_num <= usize::MAX - 65,
                        base + reserve0 <= old(manager).next_id() + params.l + params.h,
                        reserve0 == (if hdpc_none { 0 } else { params.h as int }),
                        manager.next_id() + solver.id_reserve() <= base + (coded_id - num_source) + reserve0,
                        hdpc_none ==> solver.id_reserve() == 0 && manager.next_id() == base + (coded_id - num_source),
                        hdpc_none ==> forall|c: usize| num_source <= c < coded_id ==> #[trigger] manager.coded()[c] == base + c - num_source,
                        Self::session_kept(manager, old(manager)),
                        forall|c: usize| num_source <= c < coded_id ==> #[trigger] manager.coded().contains_key(c),
                        Self::registered_within(old(manager), manager, num_source as int, coded_id as int),
                        manager.records() ==> forall|c: usize| num_source <= c < coded_id ==> #[trigger] logs_slot(manager.log(), c, false),
                    decreases num_k - coded_id,
                {
                    if manager.ids_left() == 0 {
                        return Err(SolverError::IdsExhausted);
                    }
                    let ghost m0 = *manager;
                    let ghost log0 = manager.log();
                    let new_data_id = Self::register_slot(manager, coded_id, false);
                    proof {
                        if manager.records() {
                            assert(manager.log().subrange(log0.len() as int, log0.len() as int + 2) =~= slot_ops(coded_id, new_data_id, false));
                            assert(logs_slot(manager.log(), coded_id, false));
                        }
                    }
                    let ghost m1 = *manager;
                    solver.add_coded_vector(manager, coded_id, new_data_id);
                    proof {
                        if manager.records() {
                            assert forall|c: usize| num_source <= c < coded_id + 1 implies #[trigger] logs_slot(manager.log(), c, false) by {
                                if c == coded_id {
                                    lemma_logs_slot_grows(m1.log(), manager.log(), c, false);
                                } else {
                                    lemma_logs_slot_grows(m0.log(), manager.log(), c, false);
                                }
                            }
                        }
                    }
                    coded_id += 1;
                }
            },
        }
        Ok(solver)
    }

    /// Registers a fresh data vector for slot `coded_id` and records its
    /// [`slot_ops`]: the message vector `coded_id` copied in when `copy`,
    /// otherwise a zero vector.
    fn register_slot(manager: &mut DataManager, coded_id: usize, copy: bool) -> (r: usize)
        requires
            old(manager).wf(),
            old(manager).next_id() < usize::MAX,
            copy ==> coded_id < old(manager).next_id(),
        ensures
            r == old(manager).next_id(),
            final(manager).same_layout(old(manager)),
            final(manager).next_id() == old(manager).next_id() + 1,
            final(manager).coded() == old(manager).coded().insert(coded_id, r),
            final(manager).inserted() == old(manager).inserted(),
            final(manager).log_extends(old(manager), slot_ops(coded_id, r, copy)),
    {
        let data_id = manager.coded_data_id(coded_id);
        let ghost m0 = *manager;
        if copy {
            manager.copy_to(coded_id, data_id);
        } else {
            manager.ensure_zero_one(data_id);
        }
        proof {
            if old(manager).records() {
                assert(manager.log() =~= old(manager).log() + slot_ops(coded_id, data_id, copy));
            }
            if old(manager).has_operator() {
                assert(manager.executed() =~= old(manager).executed() + slot_ops(coded_id, data_id, copy));
            }
        }
        data_id
    }

    /// Every entry of `ids` is below `n`.
    fn ids_below(ids: &Vec<usize>, n: usize) -> (r: bool)
        ensures
            r == all_below(ids@, n as int),
    {
        let mut i: usize = 0;
        while i < ids.len()
            invariant
                i <= ids@.len(),
                forall|t: int| 0 <= t < i ==> #[trigger] ids@[t] < n,
            decreases ids@.len() - i,
        {
            if ids[i] >= n {
                return false;
            }
            i += 1;
        }
        true
    }

    /// Adds one coded vector (with data vector `data_id`) and advances the
    /// phases: during BP, runs BP with inactivation and, once BP is complete
    /// with inactive variables left, switches to Gaussian elimination; during
    /// GE, adds the vector's row to the inactive system and tries to solve;
    /// after back-substitution, the status stays decoded. A coded vector
    /// whose degree set names a variable outside the system is ignored.
    pub fn add_coded_vector(&mut self, manager: &mut DataManager, coded_id: usize, data_id: usize)
        requires
            old(self).wf(),
            old(manager).wf(),
            old(manager).spec_params() == old(self).spec_params(),
        ensures
            final(self).wf(),
            final(self).spec_params() == old(self).spec_params(),
            old(self).spec_phase() == SolvingPhase::BS ==> final(self).spec_phase() == SolvingPhase::BS
                && final(self).spec_status() == DecodeStatus::Decoded,
            final(self).spec_phase() == SolvingPhase::BS ==> final(self).spec_status() == DecodeStatus::Decoded,
            old(self).spec_phase() != SolvingPhase::BP ==> final(self).spec_phase() != SolvingPhase::BP,
            old(self).spec_status() == DecodeStatus::Decoded ==> final(self).spec_status() == DecodeStatus::Decoded,
            final(self).spec_status() == DecodeStatus::Decoded ==> final(self).spec_phase() == SolvingPhase::BS || (
            final(self).spec_phase() == SolvingPhase::BP && final(self).master().decoded() == final(self).master().total()),
            Self::session_kept(final(manager), old(manager)),
            final(manager).coded() == old(manager).coded(),
            final(manager).next_id() + final(self).id_reserve() <= old(manager).next_id() + old(self).id_reserve(),
    {
        let degree_set = self.gen_degree_set.degree_set(coded_id);
        let total = self.params.num_total();
        if !Self::ids_below(&degree_set, total) || self.sparse_system.num_equations() >= usize::MAX - 2 {
            if self.phase == SolvingPhase::BS {
                self.status = DecodeStatus::Decoded;
            }
            return ;
        }
        proof {
            self.sparse_system.lemma_wf();
        }
        let equ_id = self.sparse_system.add_lt_coded_vector(manager, data_id, degree_set.as_slice());
        match self.phase {
            SolvingPhase::BP => {
                let num_decoded = self.sparse_system.run_bp_inactivation(manager);
                proof {
                    self.sparse_system.lemma_wf();
                }
                if num_decoded < total {
                    if self.sparse_system.is_bp_complete() {
                        self.phase_change();
                        self.status = self.solve_inactive(manager);
                    } else {
                        self.status = DecodeStatus::NotDecoded;
                    }
                } else {
                    self.status = DecodeStatus::Decoded;
                }
            },
            SolvingPhase::GE => {
                proof {
                    self.sparse_system.lemma_wf();
                }
                self.inactive_system.add_row_from_master(self.sparse_system.inactive_coeff_matrix(), equ_id, data_id);
                self.inactive_dirty = true;
                self.status = self.solve_inactive(manager);
            },
            SolvingPhase::BS => {
                self.status = DecodeStatus::Decoded;
            },
        }
    }

    /// Rebuilds the inactive system from all unused sparse equations (fresh
    /// matrix, rank zero).
    fn rebuild_inactive_from_unused(&mut self)
        requires
            old(self).sparse_system.wf(),
            old(self).inactive_system.spec_params() == old(self).params,
        ensures
            final(self).sparse_system == old(self).sparse_system,
            final(self).inactive_system.wf(),
            final(self).inactive_system.spec_params() == old(self).params,
            final(self).inactive_system.cols() == old(self).sparse_system.inactive(),
            final(self).params == old(self).params,
            final(self).hdpc == old(self).hdpc,
            final(self).phase == old(self).phase,
            final(self).status == old(self).status,
            final(self).bs_method == old(self).bs_method,
            final(self).gen_degree_set == old(self).gen_degree_set,
            !final(self).inactive_dirty,
    {
        proof {
            self.sparse_system.lemma_wf();
        }
        self.inactive_system.init(self.sparse_system.num_inactive());
        let rows = self.sparse_system.inactive_system_from_unused_equations_packed();
        let mut i: usize = 0;
        while i < rows.len()
            invariant
                self.sparse_system.wf(),
                self.sparse_system == old(self).sparse_system,
                self.inactive_system.wf(),
                self.inactive_system.spec_params() == old(self).params,
                self.inactive_system.cols() == self.sparse_system.inactive(),
                forall|t: int| 0 <= t < rows@.len() ==> (#[trigger] rows@[t]).0 < self.sparse_system.equations(),
                i <= rows@.len(),
                self.params == old(self).params,
                self.hdpc == old(self).hdpc,
                self.phase == old(self).phase,
                self.status == old(self).status,
                self.bs_method == old(self).bs_method,
                self.gen_degree_set == old(self).gen_degree_set,
            decreases rows@.len() - i,
        {
            proof {
                self.sparse_system.lemma_wf();
            }
            let (equ_id, data_id) = rows[i];
            assert(rows@[i as int].0 < self.sparse_system.equations());
            self.inactive_system.add_row_from_master(self.sparse_system.inactive_coeff_matrix(), equ_id, data_id);
            i += 1;
        }
        self.inactive_dirty = false;
    }

    /// BP is complete with inactive variables left: builds the inactive
    /// system and the back-substitution peers, and enters GE.
    fn phase_change(&mut self)
        requires
            old(self).wf(),
            old(self).phase == SolvingPhase::BP,
            old(self).status != DecodeStatus::Decoded,
            old(self).sparse_system.decoded() + old(self).sparse_system.inactive() == old(self).sparse_system.total(),
        ensures
            final(self).wf(),
            final(self).phase == SolvingPhase::GE,
            final(self).params == old(self).params,
            final(self).hdpc == old(self).hdpc,
    {
        self.rebuild_inactive_from_unused();
        self.sparse_system.build_bs_peers();
        self.phase = SolvingPhase::GE;
    }

    /// Tries to solve the inactive system: incremental LU, with the HDPC
    /// constraints appended once when the rank falls short by at most `h`;
    /// on full rank, solves it and back-substitutes, entering the BS phase.
    fn solve_inactive(&mut self, manager: &mut DataManager) -> (r: DecodeStatus)
        requires
            old(self).wf(),
            old(self).phase == SolvingPhase::GE,
            old(manager).wf(),
            old(manager).spec_params() == old(self).spec_params(),
        ensures
            final(self).wf(),
            final(self).spec_params() == old(self).spec_params(),
            (r == DecodeStatus::Decoded) == (final(self).phase == SolvingPhase::BS),
            r == DecodeStatus::NotDecoded ==> final(self).phase == SolvingPhase::GE,
            final(manager).coded() == old(manager).coded(),
            final(manager).next_id() + final(self).id_reserve() <= old(manager).next_id() + old(self).id_reserve(),
            r == DecodeStatus::NotDecoded ==> final(self).inactive_rank() < final(self).master().inactive() || old(
                manager,
            ).field() is None,
            r == DecodeStatus::NotDecoded && final(self).has_hdpc() ==> final(self).master().inactive()
                - final(self).inactive_rank() > final(self).spec_params().h || old(manager).field() is None,
            r == DecodeStatus::Decoded && old(self).spec_bs_method() == SubstitutionMethod::Direct ==> exists|
                pre: DataManager,
                s: InactiveSystem,
                sol: Seq<usize>,
            |
                #![trigger final(manager).logged(&pre, s.solve_ops(pre.field()) + back_substitution_ops(final(self).master(), sol, pre.var_base() as int))]
                s.cols() == final(self).master().inactive() && sol.len() == s.cols() && (forall|i: int|
                    0 <= i < s.cols() ==> #[trigger] sol[s.perm()[i] as int] == s.rhs()[i]) && final(manager).logged(
                    &pre,
                    s.solve_ops(pre.field()) + back_substitution_ops(final(self).master(), sol, pre.var_base() as int),
                ),
            Self::session_kept(final(manager), old(manager)),
    {
        let remove_redundant = false;
        let mut r = self.inactive_system.lu_decomposition(manager, remove_redundant);
        let num_inactive = self.sparse_system.num_inactive();
        let h = self.params.h;
        if r < num_inactive && self.hdpc.is_some() && num_inactive - r <= h {
            if self.inactive_dirty {
                self.rebuild_inactive_from_unused();
                r = self.inactive_system.lu_decomposition(manager, remove_redundant);
            }
            if r < num_inactive && manager.ids_left() >= h {
                let hdpc = self.hdpc.take().unwrap();
                proof {
                    self.sparse_system.lemma_wf();
                    assert forall|v: int| 0 <= v < self.params.k + self.params.l implies !#[trigger] self.sparse_system.is_active(v) by {
                    }
                }
                if manager.gf256().is_none() {
                    let tilde_g = self.sparse_system.tilde_g_packed();
                    self.inactive_system.append_hdpc_constraints_packed(&*hdpc, &tilde_g, manager);
                } else {
                    let rows = self.sparse_system.tilde_g_rows();
                    self.inactive_system.append_hdpc_constraints(&*hdpc, rows.as_slice(), manager);
                }
                r = self.inactive_system.lu_decomposition(manager, remove_redundant);
            }
            self.hdpc = None;
            assert(manager.next_id() <= old(manager).next_id() + h);
        }
        assert(manager.next_id() + self.id_reserve() <= old(manager).next_id() + old(self).id_reserve());
        if r < num_inactive {
            return DecodeStatus::NotDecoded;
        }
        proof {
            self.inactive_system.lemma_full_rank_pivots();
        }
        if !self.inactive_system.has_full_rank_factorization() {
            self.rebuild_inactive_from_unused();
            r = self.inactive_system.lu_decomposition(manager, remove_redundant);
            if r < num_inactive {
                return DecodeStatus::NotDecoded;
            }
        }
        let ghost pre = *manager;
        let ghost s0 = self.inactive_system;
        let data_ids_sol_inactive = match self.inactive_system.lu_solve(manager) {
            Some(ids) => ids,
            None => {
                return DecodeStatus::NotDecoded;
            },
        };
        proof {
            assert(self.sparse_system.has_peers());
        }
        self.phase = SolvingPhase::BS;
        match self.bs_method {
            SubstitutionMethod::Direct => {
                let ghost m1 = *manager;
                self.direct_back_substitution(manager, &data_ids_sol_inactive);
                proof {
                    DataManager::lemma_logged_trans(
                        &pre,
                        &m1,
                        manager,
                        s0.solve_ops(pre.field()),
                        back_substitution_ops(self.master(), data_ids_sol_inactive@, pre.var_base() as int),
                    );
                    assert(s0.cols() == self.master().inactive());
                }
            },
            SubstitutionMethod::Original => {
                self.original_back_substitution(manager, &data_ids_sol_inactive);
            },
        }
        DecodeStatus::Decoded
    }

    /// Back-substitution from the inactive solution: each decoded variable
    /// gets the solutions of the inactive variables in its equation's row
    /// added in, and each inactive variable's solution is moved into place.
    fn direct_back_substitution(&mut self, manager: &mut DataManager, data_ids_sol_inactive: &Vec<usize>)
        requires
            old(self).wf(),
            data_ids_sol_inactive@.len() == old(self).sparse_system.inactive(),
            old(manager).wf(),
            old(manager).spec_params() == old(self).spec_params(),
        ensures
            *final(self) == *old(self),
            final(manager).logged(
                old(manager),
                back_substitution_ops(old(self).master(), data_ids_sol_inactive@, old(manager).var_base() as int),
            ),
            final(manager).wf(),
            final(manager).same_layout(old(manager)),
            final(manager).log_grows(old(manager)),
            final(manager).next_id() == old(manager).next_id(),
            final(manager).coded() == old(manager).coded(),
    {
        proof {
            self.sparse_system.lemma_wf();
        }
        let ghost sol = data_ids_sol_inactive@;
        let ghost base = manager.var_base() as int;
        let ghost ss = self.sparse_system;
        let num_inactive = self.sparse_system.num_inactive();
        let decoded = self.sparse_system.iter_decoded_var();
        proof {
            assert(old(manager).log() =~= old(manager).log() + Seq::<OpView>::empty());
        }
        let mut i: usize = 0;
        while i < decoded.len()
            invariant
                self.wf(),
                *self == *old(self),
                num_inactive == self.sparse_system.inactive(),
                data_ids_sol_inactive@.len() == num_inactive,
                decoded@.len() == self.sparse_system.decoded(),
                forall|x: int|
                    0 <= x < decoded@.len() ==> #[trigger] decoded@[x] == (
                        self.sparse_system.var_order()[x],
                        self.sparse_system.equ_order()[x],
                    ),
                i <= decoded@.len(),
                manager.wf(),
                manager.same_layout(old(manager)),
                manager.log_grows(old(manager)),
                manager.next_id() == old(manager).next_id(),
                manager.coded() == old(manager).coded(),
                manager.spec_params() == self.params,
                ss == self.sparse_system,
                ss == old(self).master(),
                sol == data_ids_sol_inactive@,
                base == manager.var_base(),
                manager.logged(old(manager), decoded_subst_ops(ss, sol, base, i as int)),
            decreases decoded@.len() - i,
        {
            proof {
                self.sparse_system.lemma_wf();
            }
            let ghost m0 = *manager;
            let (var_id, equ_id) = decoded[i];
            let target = manager.data_id_of_variable_vector(var_id);
            let bits = self.sparse_system.inactive_coeff_matrix().iter_set_bits(equ_id, num_inactive);
            proof {
                lemma_set_bits_below(self.sparse_system.coeffs()@[equ_id as int], num_inactive as int);
            }
            let mut srcs: Vec<usize> = Vec::with_capacity(bits.len());
            let mut t: usize = 0;
            while t < bits.len()
                invariant
                    data_ids_sol_inactive@.len() == num_inactive,
                    forall|x: int| 0 <= x < bits@.len() ==> #[trigger] bits@[x] < num_inactive,
                    t <= bits@.len(),
                    srcs@ == bits@.take(t as int).map_values(|c: usize| data_ids_sol_inactive@[c as int]),
                decreases bits@.len() - t,
            {
                srcs.push(data_ids_sol_inactive[bits[t]]);
                proof {
                    assert(srcs@ =~= bits@.take(t + 1).map_values(|c: usize| data_ids_sol_inactive@[c as int]));
                }
                t += 1;
            }
            proof {
                assert(bits@.take(bits@.len() as int) =~= bits@);
                assert(srcs@ == row_solution_ids(ss, sol, equ_id as int));
            }
            manager.add_to_vector(srcs.as_slice(), target);
            proof {
                let step = add_to_vector_ops(srcs@, target);
                DataManager::lemma_logged_trans(old(manager), &m0, manager, decoded_subst_ops(ss, sol, base, i as int), step);
                assert(decoded_subst_ops(ss, sol, base, i + 1) == decoded_subst_ops(ss, sol, base, i as int) + step);
            }
            i += 1;
        }
        let inactive = self.sparse_system.iter_inactive_var();
        proof {
            let d = decoded_subst_ops(ss, sol, base, ss.decoded());
            assert(d + inactive_move_ops(ss, sol, base, 0) =~= d);
        }
        let mut i: usize = 0;
        while i < inactive.len()
            invariant
                self.wf(),
                *self == *old(self),
                num_inactive == self.sparse_system.inactive(),
                data_ids_sol_inactive@.len() == num_inactive,
                inactive@.len() == num_inactive,
                forall|x: int|
                    0 <= x < inactive@.len() ==> #[trigger] inactive@[x] == (
                        self.sparse_system.var_order()[self.sparse_system.active_end() + x],
                        self.sparse_system.matrix_seq(x) as usize,
                    ),
                forall|x: int| 0 <= x < inactive@.len() ==> (#[trigger] inactive@[x]).1 < num_inactive,
                i <= inactive@.len(),
                manager.wf(),
                manager.same_layout(old(manager)),
                manager.log_grows(old(manager)),
                manager.next_id() == old(manager).next_id(),
                manager.coded() == old(manager).coded(),
                manager.spec_params() == self.params,
                ss == self.sparse_system,
                sol == data_ids_sol_inactive@,
                base == manager.var_base(),
                manager.logged(old(manager), decoded_subst_ops(ss, sol, base, ss.decoded()) + inactive_move_ops(ss, sol, base, i as int)),
            decreases inactive@.len() - i,
        {
            proof {
                self.sparse_system.lemma_wf();
            }
            let ghost m0 = *manager;
            let (var_id, pos) = inactive[i];
            assert(inactive@[i as int].1 < num_inactive);
            let target = manager.data_id_of_variable_vector(var_id);
            manager.move_to(data_ids_sol_inactive[pos], target);
            proof {
                let pre = decoded_subst_ops(ss, sol, base, ss.decoded()) + inactive_move_ops(ss, sol, base, i as int);
                let step = move_op(data_ids_sol_inactive@[pos as int] as int, target as int);
                DataManager::lemma_logged_trans(old(manager), &m0, manager, pre, step);
                assert(pre + step =~= decoded_subst_ops(ss, sol, base, ss.decoded()) + inactive_move_ops(ss, sol, base, i + 1));
            }
            i += 1;
        }
    }

    /// Back-substitution with reverse BP before and forward BP after the
    /// direct substitution; the peer lists are dropped at the end.
    fn original_back_substitution(&mut self, manager: &mut DataManager, data_ids_sol_inactive: &Vec<usize>)
        requires
            old(self).wf(),
            old(self).phase == SolvingPhase::BS,
            old(self).sparse_system.has_peers(),
            data_ids_sol_inactive@.len() == old(self).sparse_system.inactive(),
            old(manager).wf(),
            old(manager).spec_params() == old(self).spec_params(),
        ensures
            final(self).wf(),
            final(self).params == old(self).params,
            final(self).phase == old(self).phase,
            final(self).hdpc == old(self).hdpc,
            final(manager).wf(),
            final(manager).same_layout(old(manager)),
            final(manager).log_grows(old(manager)),
            final(manager).next_id() == old(manager).next_id(),
            final(manager).coded() == old(manager).coded(),
            exists|mid: SparseSystem|
                #![trigger back_substitution_ops(mid, data_ids_sol_inactive@, old(manager).var_base() as int)]
                mid.same_vars(&old(self).master()) && final(manager).logged(
                    old(manager),
                    old(self).master().peer_pass_ops(old(manager).var_base() as int, true, old(self).master().peer_steps())
                        + back_substitution_ops(mid, data_ids_sol_inactive@, old(manager).var_base() as int)
                        + old(self).master().peer_pass_ops(old(manager).var_base() as int, false, old(self).master().peer_steps()),
                ),
    {
        let ghost s0 = self.sparse_system;
        let ghost base = manager.var_base() as int;
        let ghost m0 = *manager;
        self.sparse_system.reverse_bp(manager);
        let ghost mid = self.sparse_system;
        let ghost m1 = *manager;
        self.direct_back_substitution(manager, data_ids_sol_inactive);
        let ghost m2 = *manager;
        self.sparse_system.forward_bp(manager);
        proof {
            let a = s0.peer_pass_ops(base, true, s0.peer_steps());
            let b = back_substitution_ops(mid, data_ids_sol_inactive@, base);
            let c = mid.peer_pass_ops(base, false, mid.peer_steps());
            mid.lemma_peer_pass_ops_congruent(&s0, base, false, mid.peer_steps());
            DataManager::lemma_logged_trans(&m0, &m1, &m2, a, b);
            DataManager::lemma_logged_trans(&m0, &m2, manager, a + b, c);
        }
        self.sparse_system.clear_bs_peers();
    }
}

} // verus!
