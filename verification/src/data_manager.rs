use vstd::prelude::*;
use std::collections::HashMap;
use crate::algebra::finite_field::{
    Field, GF256, is_primitive_polynomial_spec, least_inverse,
};
use crate::traits::data_operator::DataOperator;
use crate::types::{CodeParams, GF2_FIELD_POLY, OpView, Operation, SolverType};

verus! {

broadcast use vstd::std_specs::hash::group_hash_axioms;

/// Starting point for dynamically allocated data vector IDs.
pub const MAX_DATA_VECTOR_ID: usize = 10000000;

/// The identifiers `start, start + 1, ..., end - 1`.
pub open spec fn id_range(start: int, end: int) -> Seq<usize> {
    Seq::new((end - start) as nat, |i: int| (start + i) as usize)
}

/// Data IDs `base + v` of the variables `v` of `var_ids`, skipping those
/// whose data ID would not fit in a `usize`.
pub open spec fn variable_data_ids(var_ids: Seq<usize>, base: int) -> Seq<usize>
    decreases var_ids.len(),
{
    if var_ids.len() == 0 {
        seq![]
    } else {
        variable_data_ids(var_ids.drop_last(), base) + (if var_ids.last() + base <= usize::MAX {
            seq![(var_ids.last() + base) as usize]
        } else {
            seq![]
        })
    }
}

/// The identifiers `start..end` as a vector.
pub fn range_vec(start: usize, end: usize) -> (r: Vec<usize>)
    requires
        start <= end,
    ensures
        r@ == id_range(start as int, end as int),
{
    let mut v: Vec<usize> = Vec::with_capacity(end - start);
    let mut i = start;
    while i < end
        invariant
            start <= i <= end,
            v@ == id_range(start as int, i as int),
        decreases end - i,
    {
        v.push(i);
        i += 1;
        assert(v@ =~= id_range(start as int, i as int));
    }
    v
}

/// A move of `src` into `dst`, which is recorded only when the two differ.
pub open spec fn move_op(src: int, dst: int) -> Seq<OpView> {
    if src == dst {
        seq![]
    } else {
        seq![OpView::MoveTo { src_id: src as usize, target_id: dst as usize }]
    }
}

/// The operations recorded by adding the vectors `ids` into `target`.
pub open spec fn add_to_vector_ops(ids: Seq<usize>, target: usize) -> Seq<OpView> {
    if ids.len() == 0 {
        seq![]
    } else if ids.len() == 1 {
        seq![OpView::AddOneToVector { src_id: ids[0], target_id: target }]
    } else if ids.len() == 2 {
        if ids[0] == ids[1] {
            seq![]
        } else {
            seq![OpView::AddTwoToVector { s0: ids[0], s1: ids[1], target_id: target }]
        }
    } else if ids.len() == 3 {
        seq![OpView::AddThreeToVector { s0: ids[0], s1: ids[1], s2: ids[2], target_id: target }]
    } else {
        seq![OpView::AddToVector { list_id: ids, target_id: target }]
    }
}

/// Moves of the inactive message vectors into their inactive variable slots:
/// the `i`-th move (from one) takes `num_source - i` to `inactive0 + b - i`.
pub open spec fn prepare_moves(num_source: int, inactive0: int, b: int, i: int) -> Seq<OpView>
    decreases i,
{
    if i <= 0 {
        seq![]
    } else {
        prepare_moves(num_source, inactive0, b, i - 1) + move_op(num_source - i, inactive0 + b - i)
    }
}

/// Moves of the inactive variable vectors back behind the `num_a` active
/// message vectors: the `i`-th move (from zero) takes `inactive0 + i` to `num_a + i`.
pub open spec fn restore_moves(inactive0: int, num_a: int, i: int) -> Seq<OpView>
    decreases i,
{
    if i <= 0 {
        seq![]
    } else {
        restore_moves(inactive0, num_a, i - 1) + move_op(inactive0 + i - 1, num_a + i - 1)
    }
}

/// The move of `op` done backwards (other operations unchanged).
pub open spec fn backward(op: OpView) -> OpView {
    match op {
        OpView::MoveTo { src_id, target_id } => OpView::MoveTo { src_id: target_id, target_id: src_id },
        _ => op,
    }
}

/// The operations `ops` undone: in reverse order, each move backwards.
pub open spec fn undone(ops: Seq<OpView>) -> Seq<OpView>
    decreases ops.len(),
{
    if ops.len() == 0 {
        seq![]
    } else {
        seq![backward(ops.last())] + undone(ops.drop_last())
    }
}

/// Moves `lo..hi` of [`restore_moves`].
spec fn restore_range(inactive0: int, num_a: int, lo: int, hi: int) -> Seq<OpView>
    decreases hi - lo,
{
    if hi <= lo {
        seq![]
    } else {
        restore_range(inactive0, num_a, lo, hi - 1) + move_op(inactive0 + hi - 1, num_a + hi - 1)
    }
}

proof fn lemma_restore_range_prepend(inactive0: int, num_a: int, lo: int, hi: int)
    requires
        lo < hi,
    ensures
        restore_range(inactive0, num_a, lo, hi) == move_op(inactive0 + lo, num_a + lo) + restore_range(
            inactive0,
            num_a,
            lo + 1,
            hi,
        ),
    decreases hi - lo,
{
    if hi - 1 > lo {
        lemma_restore_range_prepend(inactive0, num_a, lo, hi - 1);
        assert(restore_range(inactive0, num_a, lo, hi) =~= move_op(inactive0 + lo, num_a + lo) + restore_range(
            inactive0,
            num_a,
            lo + 1,
            hi,
        ));
    } else {
        assert(restore_range(inactive0, num_a, lo, hi - 1) =~= seq![]);
        assert(restore_range(inactive0, num_a, lo + 1, hi) =~= seq![]);
        assert(restore_range(inactive0, num_a, lo, hi) =~= move_op(inactive0 + lo, num_a + lo) + restore_range(
            inactive0,
            num_a,
            lo + 1,
            hi,
        ));
    }
}

proof fn lemma_restore_moves_range(inactive0: int, num_a: int, n: int)
    requires
        0 <= n,
    ensures
        restore_moves(inactive0, num_a, n) == restore_range(inactive0, num_a, 0, n),
    decreases n,
{
    if n > 0 {
        lemma_restore_moves_range(inactive0, num_a, n - 1);
    }
}

proof fn lemma_undone_append(x: Seq<OpView>, y: Seq<OpView>)
    ensures
        undone(x + y) == undone(y) + undone(x),
    decreases y.len(),
{
    if y.len() == 0 {
        assert(x + y =~= x);
        assert(undone(y) + undone(x) =~= undone(x));
    } else {
        assert((x + y).drop_last() =~= x + y.drop_last());
        assert((x + y).last() == y.last());
        lemma_undone_append(x, y.drop_last());
        assert(undone(x + y) =~= undone(y) + undone(x));
    }
}

proof fn lemma_undone_prepare(num_source: int, inactive0: int, b: int, n: int)
    requires
        0 <= n <= b,
    ensures
        undone(prepare_moves(num_source, inactive0, b, n)) == restore_range(inactive0, num_source - b, b - n, b),
    decreases n,
{
    if n > 0 {
        lemma_undone_prepare(num_source, inactive0, b, n - 1);
        let last = move_op(num_source - n, inactive0 + b - n);
        lemma_undone_append(prepare_moves(num_source, inactive0, b, n - 1), last);
        assert(undone(last) =~= move_op(inactive0 + b - n, num_source - b + (b - n))) by {
            if num_source - n == inactive0 + b - n {
                assert(last =~= seq![]);
            } else {
                assert(last.drop_last() =~= Seq::<OpView>::empty());
                assert(undone(Seq::<OpView>::empty()) =~= Seq::<OpView>::empty());
                assert(undone(last) == seq![backward(last.last())] + undone(last.drop_last()));
            }
        }
        lemma_restore_range_prepend(inactive0, num_source - b, b - n, b);
    } else {
        assert(restore_range(inactive0, num_source - b, b, b) =~= seq![]);
    }
}

/// [`DataManager::restore_for_ordinary`] undoes the moves of
/// [`DataManager::prepare_for_ordinary`]: with `a - (k - num_source) ==
/// num_source - b`, its moves are those of the preparation, in reverse order
/// and each backwards.
pub proof fn lemma_restore_undoes_prepare(num_source: int, inactive0: int, b: int)
    requires
        0 <= b,
    ensures
        restore_moves(inactive0, num_source - b, b) == undone(prepare_moves(num_source, inactive0, b, b)),
{
    lemma_undone_prepare(num_source, inactive0, b, b);
    lemma_restore_moves_range(inactive0, num_source - b, b);
}

/// Interface between the encoder/decoder and the underlying data storage.
///
/// `DataManager` assigns and tracks unique data vector IDs, records
/// [`Operation`]s for delayed or immediate execution, and optionally
/// delegates to a [`DataOperator`] for actual vector storage and arithmetic.
pub struct DataManager {
    /// Code parameters defining the vector layout.
    params: CodeParams,
    /// Base offset for variable (intermediate) data vector IDs.
    variable_data_id_0: usize,
    /// Chronological log of all recorded operations.
    operations: Vec<Operation>,
    /// Index into `operations` up to which operations have been retrieved.
    last_retrieved_index: usize,
    /// Next available data vector ID for dynamic allocation.
    next_data_id: usize,
    /// Maps external coded vector IDs to internal data vector IDs.
    coded_id_to_data_id: HashMap<usize, usize>,
    /// Optional operator that executes operations on actual data.
    operator: Option<Box<dyn DataOperator>>,
    /// When `false`, operations are executed on the operator but not appended to `operations`.
    record_operations: bool,
    /// Count of coded vectors inserted so far.
    pub num_coded_vector_inserted: usize,
    /// GF(256) instance for this session; unset when configured with [`GF2_FIELD_POLY`].
    gf256: Option<GF256>,
    /// Application source count K (payload symbols).
    num_source: usize,
    /// Session direction from the last [`Self::config_from`] call (encode vs decode).
    solver_type: SolverType,
    /// The operations handed to the operator's `execute`, in order.
    executed: Ghost<Seq<OpView>>,
}

impl DataManager {
    /// Code parameters of the session.
    pub closed spec fn spec_params(&self) -> CodeParams {
        self.params
    }

    /// Data ID of variable vector zero.
    pub closed spec fn var_base(&self) -> usize {
        self.variable_data_id_0
    }

    /// The recorded operations, oldest first.
    pub closed spec fn log(&self) -> Seq<OpView> {
        self.operations@.map_values(|op: Operation| op@)
    }

    /// How many recorded operations have been handed out by [`Self::move_new_operations`].
    pub closed spec fn retrieved(&self) -> usize {
        self.last_retrieved_index
    }

    /// The next data ID to be allocated.
    pub closed spec fn next_id(&self) -> usize {
        self.next_data_id
    }

    /// Coded vector ID to data ID.
    pub closed spec fn coded(&self) -> Map<usize, usize> {
        self.coded_id_to_data_id@
    }

    /// Whether a data operator is attached.
    pub closed spec fn has_operator(&self) -> bool {
        self.operator is Some
    }

    /// Whether operations are appended to the log.
    pub closed spec fn records(&self) -> bool {
        self.record_operations
    }

    /// The session's GF(256), if any.
    pub closed spec fn spec_gf256(&self) -> Option<GF256> {
        self.gf256
    }

    /// The operations handed to the attached operator, in order.
    pub closed spec fn executed(&self) -> Seq<OpView> {
        self.executed@
    }

    /// Reduction byte of the session's GF(256), if one is configured.
    pub closed spec fn field(&self) -> Option<u8> {
        match self.gf256 {
            Some(g) => Some(g.poly()),
            None => None,
        }
    }

    /// Number of coded vectors registered by [`Self::insert_coded_id`] (saturating).
    pub closed spec fn inserted(&self) -> usize {
        self.num_coded_vector_inserted
    }

    /// Application source count K.
    pub closed spec fn spec_num_source(&self) -> usize {
        self.num_source
    }

    /// Solver type of the session.
    pub closed spec fn spec_solver_type(&self) -> SolverType {
        self.solver_type
    }

    /// Data ID of inactive variable zero.
    pub open spec fn inactive_base(&self) -> int {
        self.var_base() + self.spec_params().a + self.spec_params().l
    }

    /// Consistent session: well-formed parameters, variable IDs inside the
    /// layout, `b <= num_source <= k`, and the next fresh data ID past every
    /// variable vector's data ID.
    pub open spec fn wf(&self) -> bool {
        &&& self.spec_params().wf()
        &&& self.var_base() <= self.spec_params().k
        &&& self.retrieved() <= self.log().len()
        &&& self.spec_params().b <= self.spec_num_source() <= self.spec_params().k
        &&& self.var_base() + self.spec_params().total() <= self.next_id()
    }

    /// `m1` is `m0` after [`Self::insert_coded_id`]`(coded_id)` returned `r`.
    pub open spec fn coded_id_inserted(m0: &Self, m1: &Self, coded_id: usize, r: usize) -> bool {
        &&& m1.same_layout(m0)
        &&& m1.log() == m0.log()
        &&& m1.executed() == m0.executed()
        &&& m1.inserted() == (if m0.inserted() < usize::MAX {
            m0.inserted() + 1
        } else {
            m0.inserted() as int
        })
        &&& m0.coded().contains_key(coded_id) ==> {
            &&& r == m0.coded()[coded_id]
            &&& m1.coded() == m0.coded()
            &&& m1.next_id() == m0.next_id()
        }
        &&& !m0.coded().contains_key(coded_id) ==> {
            &&& r == m0.next_id()
            &&& m1.coded() == m0.coded().insert(coded_id, r)
            &&& m1.next_id() == m0.next_id() + 1
        }
    }

    /// Registering the same coded ID twice gives the same data ID the second
    /// time, and the second registration allocates nothing.
    pub proof fn lemma_insert_coded_id_idempotent(
        m0: &Self,
        m1: &Self,
        m2: &Self,
        coded_id: usize,
        r1: usize,
        r2: usize,
    )
        requires
            Self::coded_id_inserted(m0, m1, coded_id, r1),
            Self::coded_id_inserted(m1, m2, coded_id, r2),
        ensures
            r1 == r2,
            m2.coded() == m1.coded(),
            m2.next_id() == m1.next_id(),
    {
    }

    /// Registering two new coded IDs one after the other gives them
    /// different data IDs, each past every variable vector's data ID.
    pub proof fn lemma_insert_coded_id_fresh(
        m0: &Self,
        m1: &Self,
        m2: &Self,
        c1: usize,
        c2: usize,
        r1: usize,
        r2: usize,
    )
        requires
            m0.wf(),
            Self::coded_id_inserted(m0, m1, c1, r1),
            Self::coded_id_inserted(m1, m2, c2, r2),
            !m0.coded().contains_key(c1),
            !m1.coded().contains_key(c2),
        ensures
            r1 != r2,
            r1 >= m0.var_base() + m0.spec_params().total(),
            r2 >= m0.var_base() + m0.spec_params().total(),
            m2.coded()[c1] == r1,
            m2.coded()[c2] == r2,
    {
        if c1 == c2 {
            assert(m1.coded().contains_key(c1));
        }
    }

    /// A fresh data ID (the next one to be allocated) is the data ID of no
    /// variable vector.
    pub proof fn lemma_fresh_id_not_variable(m: &Self, var_id: int)
        requires
            m.wf(),
            0 <= var_id < m.spec_params().total(),
        ensures
            m.next_id() != m.var_base() + var_id,
    {
    }

    /// Once every recorded operation has been handed out, handing out the
    /// new ones gives nothing.
    pub proof fn lemma_no_new_operations_after_move(m: &Self)
        requires
            m.retrieved() == m.log().len(),
        ensures
            m.log().subrange(m.retrieved() as int, m.log().len() as int) == Seq::<OpView>::empty(),
    {
        assert(m.log().subrange(m.retrieved() as int, m.log().len() as int) =~= Seq::<OpView>::empty());
    }

    /// Everything but the log, the allocation state and the insert count is unchanged.
    pub open spec fn same_layout(&self, o: &Self) -> bool {
        &&& self.spec_params() == o.spec_params()
        &&& self.var_base() == o.var_base()
        &&& self.retrieved() == o.retrieved()
        &&& self.has_operator() == o.has_operator()
        &&& self.records() == o.records()
        &&& self.field() == o.field()
        &&& self.spec_num_source() == o.spec_num_source()
        &&& self.spec_solver_type() == o.spec_solver_type()
    }

    /// Every coded ID registered in `o` is still registered.
    pub open spec fn keeps_coded_ids(&self, o: &Self) -> bool {
        o.coded().dom().subset_of(self.coded().dom())
    }

    /// Everything but the log is unchanged.
    pub open spec fn same_config(&self, o: &Self) -> bool {
        &&& self.same_layout(o)
        &&& self.next_id() == o.next_id()
        &&& self.coded() == o.coded()
        &&& self.inserted() == o.inserted()
    }

    /// The log of `self` is that of `o` followed by `ops` when `o` records
    /// operations, and that of `o` otherwise; likewise the operator, when
    /// one is attached, was handed exactly `ops`, in order.
    pub open spec fn log_extends(&self, o: &Self, ops: Seq<OpView>) -> bool {
        &&& self.log() == (if o.records() {
            o.log() + ops
        } else {
            o.log()
        })
        &&& self.executed() == (if o.has_operator() {
            o.executed() + ops
        } else {
            o.executed()
        })
    }

    /// `self` is `o` after recording `ops`.
    pub open spec fn logged(&self, o: &Self, ops: Seq<OpView>) -> bool {
        self.same_config(o) && self.log_extends(o, ops)
    }

    /// The log of `o` is a prefix of that of `self`: nothing recorded was
    /// taken back.
    pub open spec fn log_grows(&self, o: &Self) -> bool {
        o.log().is_prefix_of(self.log())
    }

    /// Recording operations keeps what was recorded before.
    pub broadcast proof fn lemma_log_extends_grows(m: &Self, o: &Self, ops: Seq<OpView>)
        requires
            #[trigger] m.log_extends(o, ops),
        ensures
            m.log_grows(o),
    {
        if o.records() {
            assert(o.log() =~= (o.log() + ops).subrange(0, o.log().len() as int));
        } else {
            assert(o.log() =~= o.log().subrange(0, o.log().len() as int));
        }
    }

    /// A log that grew from one that grew from `a` grew from `a`.
    pub broadcast proof fn lemma_log_grows_trans(a: &Self, b: &Self, c: &Self)
        requires
            #[trigger] b.log_grows(a),
            #[trigger] c.log_grows(b),
        ensures
            c.log_grows(a),
    {
        assert(a.log() =~= c.log().subrange(0, a.log().len() as int)) by {
            assert(a.log() =~= b.log().subrange(0, a.log().len() as int));
            assert(b.log() =~= c.log().subrange(0, b.log().len() as int));
            assert forall|i: int| 0 <= i < a.log().len() implies a.log()[i] == c.log()[i] by {
                assert(a.log()[i] == b.log()[i]);
                assert(b.log()[i] == c.log()[i]);
            }
        }
    }

    /// A log has grown from itself.
    pub broadcast proof fn lemma_log_grows_refl(m: &Self)
        ensures
            #[trigger] m.log_grows(m),
    {
        assert(m.log() =~= m.log().subrange(0, m.log().len() as int));
    }

    /// A recording manager with an operator hands the operator exactly what
    /// it records: if the operator had been given the log so far, it has
    /// been given the log after any further recording.
    pub proof fn lemma_operator_runs_the_log(m0: &Self, m1: &Self, ops: Seq<OpView>)
        requires
            m0.records(),
            m0.has_operator(),
            m0.executed() == m0.log(),
            m1.log_extends(m0, ops),
        ensures
            m1.executed() == m1.log(),
    {
    }

    /// Recording `x` and then `y` records `x + y`.
    pub proof fn lemma_logged_trans(a: &Self, b: &Self, c: &Self, x: Seq<OpView>, y: Seq<OpView>)
        requires
            b.logged(a, x),
            c.logged(b, y),
        ensures
            c.logged(a, x + y),
    {
        if a.records() {
            assert(a.log() + x + y =~= a.log() + (x + y));
        }
        if a.has_operator() {
            assert(a.executed() + x + y =~= a.executed() + (x + y));
        }
    }

    fn empty_with(operator: Option<Box<dyn DataOperator>>, record: bool) -> (r: Self)
        ensures
            r.wf(),
            r.spec_params() == (CodeParams { k: 0, a: 0, b: 0, l: 0, h: 0, i: 0 }),
            r.var_base() == 0,
            r.log() == Seq::<OpView>::empty(),
            r.executed() == Seq::<OpView>::empty(),
            r.retrieved() == 0,
            r.next_id() == MAX_DATA_VECTOR_ID,
            r.coded() == Map::<usize, usize>::empty(),
            r.has_operator() == (operator is Some),
            r.records() == record,
            r.inserted() == 0,
            r.field() is None,
            r.spec_num_source() == 0,
            r.spec_solver_type() == SolverType::OrdEnc,
    {
        let r = DataManager {
            params: CodeParams::new(0, 0, 0, 0),
            variable_data_id_0: 0,
            operations: Vec::new(),
            last_retrieved_index: 0,
            next_data_id: MAX_DATA_VECTOR_ID,
            coded_id_to_data_id: HashMap::new(),
            operator,
            record_operations: record,
            num_coded_vector_inserted: 0,
            gf256: None,
            num_source: 0,
            solver_type: SolverType::OrdEnc,
            executed: Ghost(Seq::empty()),
        };
        assert(r.log() =~= Seq::<OpView>::empty());
        r
    }

    /// Create a new DataManager
    pub fn new() -> (r: Self)
        ensures
            r.wf(),
            r.spec_params() == (CodeParams { k: 0, a: 0, b: 0, l: 0, h: 0, i: 0 }),
            r.var_base() == 0,
            r.log() == Seq::<OpView>::empty(),
            r.executed() == Seq::<OpView>::empty(),
            r.retrieved() == 0,
            r.next_id() == MAX_DATA_VECTOR_ID,
            r.coded() == Map::<usize, usize>::empty(),
            !r.has_operator(),
            r.records(),
            r.inserted() == 0,
            r.field() is None,
            r.spec_num_source() == 0,
            r.spec_solver_type() == SolverType::OrdEnc,
    {
        Self::empty_with(None, true)
    }

    /// Creates a new `DataManager` with the given data operator for immediate execution.
    pub fn new_with_operator(operator: Box<dyn DataOperator>) -> (r: Self)
        ensures
            r.wf(),
            r.spec_params() == (CodeParams { k: 0, a: 0, b: 0, l: 0, h: 0, i: 0 }),
            r.var_base() == 0,
            r.log() == Seq::<OpView>::empty(),
            r.executed() == Seq::<OpView>::empty(),
            r.retrieved() == 0,
            r.next_id() == MAX_DATA_VECTOR_ID,
            r.coded() == Map::<usize, usize>::empty(),
            r.has_operator(),
            r.records(),
            r.inserted() == 0,
            r.field() is None,
            r.spec_num_source() == 0,
            r.spec_solver_type() == SolverType::OrdEnc,
    {
        Self::empty_with(Some(operator), true)
    }

    /// Like [`Self::new_with_operator`], but skips recording operations (execute-only).
    pub fn new_with_operator_execute_only(operator: Box<dyn DataOperator>) -> (r: Self)
        ensures
            r.wf(),
            r.spec_params() == (CodeParams { k: 0, a: 0, b: 0, l: 0, h: 0, i: 0 }),
            r.var_base() == 0,
            r.log() == Seq::<OpView>::empty(),
            r.executed() == Seq::<OpView>::empty(),
            r.retrieved() == 0,
            r.next_id() == MAX_DATA_VECTOR_ID,
            r.coded() == Map::<usize, usize>::empty(),
            r.has_operator(),
            !r.records(),
            r.inserted() == 0,
            r.field() is None,
            r.spec_num_source() == 0,
            r.spec_solver_type() == SolverType::OrdEnc,
    {
        let mut manager = Self::new_with_operator(operator);
        manager.record_operations = false;
        manager
    }

    /// When `false`, recorded operations still run on the operator but are
    /// not appended to the log.
    pub fn set_record_operations(&mut self, record: bool)
        ensures
            final(self).records() == record,
            final(self).spec_params() == old(self).spec_params(),
            final(self).var_base() == old(self).var_base(),
            final(self).retrieved() == old(self).retrieved(),
            final(self).has_operator() == old(self).has_operator(),
            final(self).field() == old(self).field(),
            final(self).spec_num_source() == old(self).spec_num_source(),
            final(self).spec_solver_type() == old(self).spec_solver_type(),
            final(self).next_id() == old(self).next_id(),
            final(self).coded() == old(self).coded(),
            final(self).inserted() == old(self).inserted(),
            final(self).log() == old(self).log(),
    {
        self.record_operations = record;
    }

    /// Returns whether operations are appended to the log after execution.
    pub fn records_operations(&self) -> (r: bool)
        ensures
            r == self.records(),
    {
        self.record_operations
    }

    /// Disables operation logging; operations are still executed on the attached operator.
    pub fn execute_only(&mut self)
        ensures
            !final(self).records(),
            final(self).spec_params() == old(self).spec_params(),
            final(self).var_base() == old(self).var_base(),
            final(self).retrieved() == old(self).retrieved(),
            final(self).has_operator() == old(self).has_operator(),
            final(self).field() == old(self).field(),
            final(self).spec_num_source() == old(self).spec_num_source(),
            final(self).spec_solver_type() == old(self).spec_solver_type(),
            final(self).next_id() == old(self).next_id(),
            final(self).coded() == old(self).coded(),
            final(self).inserted() == old(self).inserted(),
            final(self).log() == old(self).log(),
    {
        self.record_operations = false;
    }

    /// Data ID of variable vector zero for a session of `solver_type`: zero for
    /// ordinary coding, `k` for systematic coding.
    pub open spec fn base_for(params: CodeParams, solver_type: SolverType) -> int {
        match solver_type {
            SolverType::OrdEnc | SolverType::OrdDec => 0,
            SolverType::SysEnc | SolverType::SysDec => params.k as int,
        }
    }

    /// Configures the manager with code parameters and solver type, setting up ID ranges.
    pub fn config_from(&mut self, params: CodeParams, solver_type: SolverType)
        requires
            params.wf(),
            old(self).retrieved() <= old(self).log().len(),
        ensures
            final(self).wf(),
            final(self).spec_params() == params,
            final(self).spec_solver_type() == solver_type,
            final(self).spec_num_source() == params.k,
            final(self).var_base() == Self::base_for(params, solver_type),
            final(self).next_id() == Self::base_for(params, solver_type) + params.total(),
            final(self).retrieved() == old(self).retrieved(),
            final(self).has_operator() == old(self).has_operator(),
            final(self).records() == old(self).records(),
            final(self).field() == old(self).field(),
            final(self).coded() == old(self).coded(),
            final(self).inserted() == old(self).inserted(),
            final(self).log() == old(self).log(),
    {
        self.params = params;
        self.solver_type = solver_type;
        self.num_source = params.k;
        match solver_type {
            SolverType::OrdEnc => {
                self.variable_data_id_0 = 0;
            },
            SolverType::OrdDec => {
                self.variable_data_id_0 = 0;
            },
            SolverType::SysEnc => {
                self.variable_data_id_0 = params.k;
            },
            SolverType::SysDec => {
                self.variable_data_id_0 = params.k;
            },
        }
        self.next_data_id = self.variable_data_id_0 + params.num_total();
    }

    /// Sets the application source block size K (payload symbol count), with
    /// `b <= k <= params.k`. When `k < params.k`, implicit padding applies.
    pub fn set_num_source(&mut self, k: usize)
        requires
            old(self).spec_params().b <= k <= old(self).spec_params().k,
        ensures
            final(self).spec_num_source() == k,
            final(self).spec_params() == old(self).spec_params(),
            final(self).var_base() == old(self).var_base(),
            final(self).retrieved() == old(self).retrieved(),
            final(self).has_operator() == old(self).has_operator(),
            final(self).records() == old(self).records(),
            final(self).field() == old(self).field(),
            final(self).spec_solver_type() == old(self).spec_solver_type(),
            final(self).next_id() == old(self).next_id(),
            final(self).coded() == old(self).coded(),
            final(self).inserted() == old(self).inserted(),
            final(self).log() == old(self).log(),
    {
        self.num_source = k;
    }

    /// Code parameters of the session.
    pub fn code_params(&self) -> (r: CodeParams)
        ensures
            r == self.spec_params(),
    {
        self.params
    }

    /// Application source count K (payload symbols).
    pub fn num_source(&self) -> (r: usize)
        ensures
            r == self.spec_num_source(),
    {
        self.num_source
    }

    /// Implicit zero padding count: `params.k - num_source`.
    pub fn num_padding(&self) -> (r: usize)
        ensures
            r == (if self.spec_num_source() <= self.spec_params().k {
                self.spec_params().k - self.spec_num_source()
            } else {
                0
            }),
    {
        self.params.k.saturating_sub(self.num_source)
    }

    /// Whether this session uses implicit padding (`num_source < params.k`).
    pub fn has_padding(&self) -> (r: bool)
        ensures
            r == (self.spec_num_source() < self.spec_params().k),
    {
        self.num_padding() > 0
    }

    /// Solver type from the last [`Self::config_from`] call.
    pub fn solver_type(&self) -> (r: SolverType)
        ensures
            r == self.spec_solver_type(),
    {
        self.solver_type
    }

    /// Configures the finite field for LU solves and GF(256) scalar operations.
    ///
    /// `pp == GF2_FIELD_POLY` selects GF(2) mode (no GF(256) tables); any
    /// whitelisted primitive polynomial builds GF(256) tables. The choice is
    /// passed on to an attached operator.
    pub fn config_finite_field(&mut self, pp: u16)
        requires
            pp == GF2_FIELD_POLY || is_primitive_polynomial_spec(pp),
        ensures
            pp == GF2_FIELD_POLY ==> final(self).field() is None,
            pp != GF2_FIELD_POLY ==> (final(self).field() matches Some(q) && (0x100u16 + q as u16) as u16 == pp),
            final(self).spec_params() == old(self).spec_params(),
            final(self).var_base() == old(self).var_base(),
            final(self).retrieved() == old(self).retrieved(),
            final(self).has_operator() == old(self).has_operator(),
            final(self).records() == old(self).records(),
            final(self).spec_num_source() == old(self).spec_num_source(),
            final(self).spec_solver_type() == old(self).spec_solver_type(),
            final(self).next_id() == old(self).next_id(),
            final(self).coded() == old(self).coded(),
            final(self).inserted() == old(self).inserted(),
            final(self).log() == old(self).log(),
    {
        if pp == GF2_FIELD_POLY {
            self.gf256 = None;
        } else {
            self.gf256 = Some(GF256::new_with_primitive_polynomial(pp));
        }
        let op = self.operator.take();
        if let Some(mut o) = op {
            o.config_finite_field(pp);
            self.operator = Some(o);
        }
    }

    /// Same session field as `gf` (clones tables); propagates to the data operator.
    pub fn config_finite_field_from(&mut self, gf: &GF256)
        ensures
            final(self).field() == Some(gf.poly()),
            final(self).spec_params() == old(self).spec_params(),
            final(self).var_base() == old(self).var_base(),
            final(self).retrieved() == old(self).retrieved(),
            final(self).has_operator() == old(self).has_operator(),
            final(self).records() == old(self).records(),
            final(self).spec_num_source() == old(self).spec_num_source(),
            final(self).spec_solver_type() == old(self).spec_solver_type(),
            final(self).next_id() == old(self).next_id(),
            final(self).coded() == old(self).coded(),
            final(self).inserted() == old(self).inserted(),
            final(self).log() == old(self).log(),
    {
        self.gf256 = Some(gf.clone());
        let op = self.operator.take();
        if let Some(mut o) = op {
            o.config_finite_field_from(gf);
            self.operator = Some(o);
        }
    }

    /// GF(256) used for scalar multiply, divide, and matrix solves on this manager.
    pub fn gf256(&self) -> (r: Option<&GF256>)
        ensures
            r is Some <==> self.field() is Some,
            r matches Some(g) ==> self.field() == Some(g.poly()),
            r matches Some(g) ==> self.spec_gf256() == Some(*g),
            r is None ==> self.spec_gf256() is None,
    {
        self.gf256.as_ref()
    }

    /// Registers a coded vector ID, allocating a new data ID if not already
    /// mapped. Returns the data ID.
    pub fn insert_coded_id(&mut self, coded_id: usize) -> (r: usize)
        requires
            !old(self).coded().contains_key(coded_id) ==> old(self).next_id() < usize::MAX,
        ensures
            Self::coded_id_inserted(old(self), final(self), coded_id, r),
    {
        self.num_coded_vector_inserted = self.num_coded_vector_inserted.saturating_add(1);
        match self.coded_id_to_data_id.get(&coded_id) {
            Some(data_id) => *data_id,
            None => {
                let data_id = self.next_data_id;
                self.next_data_id += 1;
                self.coded_id_to_data_id.insert(coded_id, data_id);
                data_id
            },
        }
    }

    /// Explicitly maps a coded vector ID to an existing data vector ID.
    pub fn assign_data_id(&mut self, coded_id: usize, data_id: usize)
        ensures
            final(self).same_layout(old(self)),
            final(self).log() == old(self).log(),
            final(self).next_id() == old(self).next_id(),
            final(self).inserted() == old(self).inserted(),
            final(self).coded() == old(self).coded().insert(coded_id, data_id),
    {
        self.coded_id_to_data_id.insert(coded_id, data_id);
    }

    /// Allocates a fresh zero-initialized data vector for a coded vector and returns its data ID.
    pub fn coded_data_id(&mut self, coded_id: usize) -> (r: usize)
        requires
            old(self).next_id() < usize::MAX,
        ensures
            r == old(self).next_id(),
            final(self).same_layout(old(self)),
            final(self).next_id() == old(self).next_id() + 1,
            final(self).coded() == old(self).coded().insert(coded_id, r),
            final(self).inserted() == old(self).inserted(),
            final(self).log_extends(old(self), seq![OpView::EnsureZero { list_id: seq![r] }]),
    {
        let data_id = self.next_data_id;
        self.next_data_id += 1;
        self.coded_id_to_data_id.insert(coded_id, data_id);
        let ids = vec![data_id];
        self.ensure_zero(ids.as_slice());
        assert(ids@ =~= seq![data_id]);
        data_id
    }

    /// Allocates and returns a fresh zero-initialized temporary data vector ID.
    pub fn temp_data_id(&mut self) -> (r: usize)
        requires
            old(self).next_id() < usize::MAX,
        ensures
            r == old(self).next_id(),
            final(self).same_layout(old(self)),
            final(self).next_id() == old(self).next_id() + 1,
            final(self).coded() == old(self).coded(),
            final(self).inserted() == old(self).inserted(),
            final(self).log_extends(old(self), seq![OpView::EnsureZero { list_id: seq![r] }]),
    {
        let data_id = self.next_data_id;
        self.next_data_id += 1;
        let ids = vec![data_id];
        self.ensure_zero(ids.as_slice());
        assert(ids@ =~= seq![data_id]);
        data_id
    }

    /// How many more data IDs can be allocated.
    pub fn ids_left(&self) -> (r: usize)
        ensures
            r == usize::MAX - self.next_id(),
    {
        usize::MAX - self.next_data_id
    }

    /// Looks up the data vector ID for a previously inserted coded vector, if any.
    pub fn data_id_of_coded_vector(&self, coded_id: usize) -> (r: Option<usize>)
        ensures
            r == (if self.coded().contains_key(coded_id) {
                Some(self.coded()[coded_id])
            } else {
                None::<usize>
            }),
    {
        match self.coded_id_to_data_id.get(&coded_id) {
            Some(d) => Some(*d),
            None => None,
        }
    }

    /// Data IDs of the variable vectors `var_ids` (see [`variable_data_ids`]).
    pub fn data_ids_of_variable_vectors(&self, var_ids: &[usize]) -> (r: Vec<usize>)
        ensures
            r@ == variable_data_ids(var_ids@, self.var_base() as int),
    {
        let base = self.variable_data_id_0;
        let mut out: Vec<usize> = Vec::with_capacity(var_ids.len());
        let mut i: usize = 0;
        while i < var_ids.len()
            invariant
                base == self.var_base(),
                i <= var_ids@.len(),
                out@ == variable_data_ids(var_ids@.take(i as int), base as int),
            decreases var_ids@.len() - i,
        {
            proof {
                assert(var_ids@.take(i + 1).drop_last() =~= var_ids@.take(i as int));
            }
            if var_ids[i] <= usize::MAX - base {
                out.push(self.data_id_of_variable_vector(var_ids[i]));
            }
            i += 1;
        }
        assert(var_ids@.take(var_ids@.len() as int) =~= var_ids@);
        out
    }

    /// Returns the data vector ID for a variable vector at the given index.
    pub fn data_id_of_variable_vector(&self, var_id: usize) -> (r: usize)
        requires
            var_id + self.var_base() <= usize::MAX,
        ensures
            r == var_id + self.var_base(),
    {
        var_id + self.variable_data_id_0
    }

    /// Returns data IDs for all active variable vectors (active messages, then LDPC).
    pub fn data_id_range_of_active_variable(&self) -> (r: Vec<usize>)
        requires
            self.wf(),
        ensures
            r@ == id_range(
                self.var_base() as int,
                self.var_base() + self.spec_params().a + self.spec_params().l,
            ),
    {
        range_vec(self.variable_data_id_0, self.variable_data_id_0 + self.params.num_active())
    }

    /// Returns data IDs for all message and LDPC variable vectors.
    pub fn data_id_range_of_msg_ldpc_variable(&self) -> (r: Vec<usize>)
        requires
            self.wf(),
        ensures
            r@ == id_range(
                self.var_base() as int,
                self.var_base() + self.spec_params().k + self.spec_params().l,
            ),
    {
        range_vec(self.variable_data_id_0, self.variable_data_id_0 + self.params.num_message_ldpc())
    }

    /// Returns data IDs for all LDPC variable vectors.
    pub fn data_id_range_of_ldpc_variable(&self) -> (r: Vec<usize>)
        requires
            self.wf(),
        ensures
            r@ == id_range(
                self.var_base() + self.spec_params().a,
                self.var_base() + self.spec_params().a + self.spec_params().l,
            ),
    {
        range_vec(
            self.variable_data_id_0 + self.params.a,
            self.variable_data_id_0 + self.params.a + self.params.l,
        )
    }

    /// Returns data IDs for all HDPC variable vectors.
    pub fn data_id_range_of_hdpc_variable(&self) -> (r: Vec<usize>)
        requires
            self.wf(),
        ensures
            r@ == id_range(
                self.var_base() + self.spec_params().k + self.spec_params().l,
                self.var_base() + self.spec_params().total(),
            ),
    {
        range_vec(
            self.variable_data_id_0 + self.params.num_message_ldpc(),
            self.variable_data_id_0 + self.params.num_total(),
        )
    }

    /// Returns the data vector ID for the active variable at the given index.
    pub fn data_id_of_active_variable(&self, idx: usize) -> (r: usize)
        requires
            self.var_base() + idx <= usize::MAX,
        ensures
            r == self.var_base() + idx,
    {
        self.variable_data_id_0 + idx
    }

    /// Returns the data vector ID for the inactive variable at the given index.
    pub fn data_id_of_inactive_variable(&self, idx: usize) -> (r: usize)
        requires
            self.inactive_base() + idx <= usize::MAX,
        ensures
            r == self.inactive_base() + idx,
    {
        self.variable_data_id_0 + self.params.a + self.params.l + idx
    }

    /// Get the data vector ID for the LDPC variable vector at index idx
    pub fn data_id_of_ldpc_variable(&mut self, idx: usize) -> (r: usize)
        requires
            old(self).var_base() + old(self).spec_params().a + idx <= usize::MAX,
        ensures
            r == old(self).var_base() + old(self).spec_params().a + idx,
            *final(self) == *old(self),
    {
        self.variable_data_id_0 + self.params.a + idx
    }

    /// Returns the data vector ID for the HDPC variable at the given index.
    pub fn data_id_of_hdpc_variable(&self, idx: usize) -> (r: usize)
        requires
            self.var_base() + idx + self.spec_params().k + self.spec_params().l <= usize::MAX,
        ensures
            r == self.var_base() + idx + self.spec_params().k + self.spec_params().l,
    {
        self.variable_data_id_0 + idx + self.params.k + self.params.l
    }

    /// Get all stored operations
    pub fn get_operations(&self) -> (r: &[Operation])
        ensures
            r@.map_values(|op: Operation| op@) == self.log(),
    {
        self.operations.as_slice()
    }

    /// Clear all stored operations
    pub fn clear_operations(&mut self)
        ensures
            final(self).log() == Seq::<OpView>::empty(),
            final(self).retrieved() == 0,
            final(self).spec_params() == old(self).spec_params(),
            final(self).var_base() == old(self).var_base(),
            final(self).has_operator() == old(self).has_operator(),
            final(self).records() == old(self).records(),
            final(self).field() == old(self).field(),
            final(self).spec_num_source() == old(self).spec_num_source(),
            final(self).spec_solver_type() == old(self).spec_solver_type(),
            final(self).next_id() == old(self).next_id(),
            final(self).coded() == old(self).coded(),
            final(self).inserted() == old(self).inserted(),
    {
        self.operations.clear();
        self.last_retrieved_index = 0;
        assert(self.log() =~= Seq::<OpView>::empty());
    }

    /// The operations recorded since the last call (or since the log was
    /// cleared); they stay in the log.
    pub fn move_new_operations(&mut self) -> (r: Vec<Operation>)
        requires
            old(self).retrieved() <= old(self).log().len(),
        ensures
            r@.map_values(|op: Operation| op@) == old(self).log().subrange(
                old(self).retrieved() as int,
                old(self).log().len() as int,
            ),
            final(self).retrieved() == old(self).log().len(),
            final(self).log() == old(self).log(),
            final(self).spec_params() == old(self).spec_params(),
            final(self).var_base() == old(self).var_base(),
            final(self).has_operator() == old(self).has_operator(),
            final(self).records() == old(self).records(),
            final(self).field() == old(self).field(),
            final(self).spec_num_source() == old(self).spec_num_source(),
            final(self).spec_solver_type() == old(self).spec_solver_type(),
            final(self).next_id() == old(self).next_id(),
            final(self).coded() == old(self).coded(),
            final(self).inserted() == old(self).inserted(),
    {
        let start = self.last_retrieved_index;
        let end = self.operations.len();
        self.last_retrieved_index = end;
        let mut out: Vec<Operation> = Vec::with_capacity(end - start);
        let mut i = start;
        while i < end
            invariant
                start <= i <= end,
                end == self.operations@.len(),
                out@.map_values(|op: Operation| op@) =~= self.operations@.map_values(
                    |op: Operation| op@,
                ).subrange(start as int, i as int),
            decreases end - i,
        {
            let ghost before = out@;
            let op = self.operations[i].duplicate();
            out.push(op);
            assert(out@.map_values(|op: Operation| op@) =~= before.map_values(|op: Operation| op@).push(
                self.operations@[i as int]@,
            ));
            i += 1;
        }
        out
    }

    /// Takes the data operator out of this manager, returning ownership to the
    /// caller (`None` when no operator is attached).
    pub fn move_operator(&mut self) -> (r: Option<Box<dyn DataOperator>>)
        ensures
            r is Some <==> old(self).has_operator(),
            !final(self).has_operator(),
            final(self).spec_params() == old(self).spec_params(),
            final(self).var_base() == old(self).var_base(),
            final(self).retrieved() == old(self).retrieved(),
            final(self).records() == old(self).records(),
            final(self).field() == old(self).field(),
            final(self).spec_num_source() == old(self).spec_num_source(),
            final(self).spec_solver_type() == old(self).spec_solver_type(),
            final(self).next_id() == old(self).next_id(),
            final(self).coded() == old(self).coded(),
            final(self).inserted() == old(self).inserted(),
            final(self).log() == old(self).log(),
    {
        self.operator.take()
    }

    /// Installs a data operator into this manager for immediate operation execution.
    pub fn set_operator(&mut self, operator: Box<dyn DataOperator>)
        ensures
            final(self).has_operator(),
            final(self).spec_params() == old(self).spec_params(),
            final(self).var_base() == old(self).var_base(),
            final(self).retrieved() == old(self).retrieved(),
            final(self).records() == old(self).records(),
            final(self).field() == old(self).field(),
            final(self).spec_num_source() == old(self).spec_num_source(),
            final(self).spec_solver_type() == old(self).spec_solver_type(),
            final(self).next_id() == old(self).next_id(),
            final(self).coded() == old(self).coded(),
            final(self).inserted() == old(self).inserted(),
            final(self).log() == old(self).log(),
    {
        self.operator = Some(operator);
    }

    /// Runs `operation` on the attached operator and appends it to the log
    /// when recording.
    fn save_operation(&mut self, operation: Operation)
        ensures
            final(self).logged(old(self), seq![operation@]),
    {
        let op = self.operator.take();
        if let Some(mut o) = op {
            o.execute(&operation);
            self.operator = Some(o);
            proof {
                self.executed = Ghost(self.executed@.push(operation@));
                assert(self.executed@ =~= old(self).executed@ + seq![operation@]);
            }
        }
        if self.record_operations {
            let ghost before = self.operations@;
            self.operations.push(operation);
            assert(self.operations@.map_values(|op: Operation| op@) =~= before.map_values(
                |op: Operation| op@,
            ) + seq![operation@]);
        }
    }

    /// Returns a copy of the variable vector at the given variable index.
    /// Requires an operator.
    pub fn get_variable_vector(&self, var_id: usize) -> (r: Vec<u8>)
        requires
            self.has_operator(),
            var_id + self.var_base() <= usize::MAX,
    {
        let data_id = self.data_id_of_variable_vector(var_id);
        let o = self.operator.as_ref().unwrap();
        vstd::slice::slice_to_vec(o.get_vector(data_id))
    }

    /// Returns a reference to the data vector with the given ID. Requires an operator.
    pub fn get_data_vector(&self, data_id: usize) -> (r: &[u8])
        requires
            self.has_operator(),
    {
        let o = self.operator.as_ref().unwrap();
        o.get_vector(data_id)
    }

    /// Returns a copy of the coded vector with the given coded ID. Requires an
    /// operator and a registered coded ID.
    pub fn get_coded_vector(&self, coded_id: usize) -> (r: Vec<u8>)
        requires
            self.has_operator(),
            self.coded().contains_key(coded_id),
    {
        let data_id = self.data_id_of_coded_vector(coded_id).unwrap();
        let o = self.operator.as_ref().unwrap();
        vstd::slice::slice_to_vec(o.get_vector(data_id))
    }

    /// Stores raw data in the operator at the given data ID.
    pub fn insert_data_vector(&mut self, data_id: usize, vector: &[u8])
        requires
            old(self).has_operator(),
        ensures
            final(self).same_config(old(self)),
            final(self).log() == old(self).log(),
    {
        let mut o = self.operator.take().unwrap();
        o.insert_vector(vector, data_id);
        self.operator = Some(o);
    }

    /// Inserts a coded vector by coded ID, allocating a data ID (see
    /// [`Self::insert_coded_id`]) and storing the bytes via the operator.
    pub fn insert_coded_vector(&mut self, coded_id: usize, vector: &[u8])
        requires
            old(self).has_operator(),
            !old(self).coded().contains_key(coded_id) ==> old(self).next_id() < usize::MAX,
        ensures
            final(self).same_layout(old(self)),
            final(self).log() == old(self).log(),
            final(self).inserted() == (if old(self).inserted() < usize::MAX {
                old(self).inserted() + 1
            } else {
                old(self).inserted() as int
            }),
            final(self).coded().contains_key(coded_id),
            old(self).coded().contains_key(coded_id) ==> {
                &&& final(self).coded() == old(self).coded()
                &&& final(self).next_id() == old(self).next_id()
            },
            !old(self).coded().contains_key(coded_id) ==> {
                &&& final(self).coded() == old(self).coded().insert(coded_id, old(self).next_id())
                &&& final(self).next_id() == old(self).next_id() + 1
            },
    {
        let data_id = self.insert_coded_id(coded_id);
        let mut o = self.operator.take().unwrap();
        o.insert_vector(vector, data_id);
        self.operator = Some(o);
    }

    /// Records an [`Operation::EnsureZero`] to zero the given vectors.
    pub fn ensure_zero(&mut self, list_id: &[usize])
        ensures
            final(self).logged(old(self), seq![OpView::EnsureZero { list_id: list_id@ }]),
    {
        self.save_operation(Operation::EnsureZero { list_id: vstd::slice::slice_to_vec(list_id) });
    }

    /// Records an [`Operation::EnsureZeroOne`] to zero a single vector.
    pub fn ensure_zero_one(&mut self, id: usize)
        ensures
            final(self).logged(old(self), seq![OpView::EnsureZeroOne { id }]),
    {
        self.save_operation(Operation::EnsureZeroOne { id });
    }

    /// Records an [`Operation::MultiplyAlpha`] to multiply a vector by the primitive element.
    pub fn multiply_alpha(&mut self, id: usize)
        ensures
            final(self).logged(old(self), seq![OpView::MultiplyAlpha { id }]),
    {
        self.save_operation(Operation::MultiplyAlpha { id });
    }

    /// Multiplies a vector by a GF(256) scalar: zero clears it, one leaves it
    /// alone, the primitive element becomes [`Operation::MultiplyAlpha`].
    pub fn multiply_scalar(&mut self, scalar: u8, id: usize)
        requires
            scalar <= 1 || old(self).field() is Some,
        ensures
            scalar == 0 ==> final(self).logged(old(self), seq![OpView::EnsureZero { list_id: seq![id] }]),
            scalar == 1 ==> final(self).logged(old(self), seq![]),
            scalar == 2 ==> final(self).logged(old(self), seq![OpView::MultiplyAlpha { id }]),
            scalar > 2 ==> final(self).logged(old(self), seq![OpView::MultiplyScalar { scalar, id }]),
    {
        if scalar == 0 {
            let ids = vec![id];
            self.save_operation(Operation::EnsureZero { list_id: ids });
            assert(seq![id] =~= ids@);
        } else if scalar == 1 {
            assert(self.log() =~= self.log() + seq![]);
        } else {
            let alpha = self.gf256().unwrap().primitive_element();
            if scalar == alpha {
                self.save_operation(Operation::MultiplyAlpha { id });
            } else {
                self.save_operation(Operation::MultiplyScalar { scalar, id });
            }
        }
    }

    /// Divides a vector by a non-zero GF(256) scalar (multiplies by its inverse).
    pub fn divide_scalar(&mut self, scalar: u8, id: usize)
        requires
            scalar != 0,
            scalar == 1 || old(self).field() is Some,
        ensures
            scalar == 1 ==> final(self).logged(old(self), seq![]),
            scalar != 1 ==> final(self).logged(
                old(self),
                if least_inverse(scalar, old(self).field().unwrap()) == 2 {
                    seq![OpView::MultiplyAlpha { id }]
                } else {
                    seq![
                        OpView::MultiplyScalar {
                            scalar: least_inverse(scalar, old(self).field().unwrap()),
                            id,
                        },
                    ]
                },
            ),
    {
        if scalar == 1 {
            assert(self.log() =~= self.log() + seq![]);
        } else {
            let gf = self.gf256().unwrap();
            let inverse = gf.inv_lookup(scalar);
            let alpha = gf.primitive_element();
            if inverse == alpha {
                self.save_operation(Operation::MultiplyAlpha { id });
            } else {
                self.save_operation(Operation::MultiplyScalar { scalar: inverse, id });
            }
        }
    }

    /// XORs (adds) the source vectors `list_id` into the target vector.
    pub fn add_to_vector(&mut self, list_id: &[usize], target_id: usize)
        ensures
            final(self).logged(old(self), add_to_vector_ops(list_id@, target_id)),
    {
        let n = list_id.len();
        if n == 0 {
            assert(self.log() =~= self.log() + seq![]);
        } else if n == 1 {
            self.add_one_to_vector(list_id[0], target_id);
        } else if n == 2 {
            self.add_two_to_vector(list_id[0], list_id[1], target_id);
        } else if n == 3 {
            self.add_three_to_vector(list_id[0], list_id[1], list_id[2], target_id);
        } else {
            self.save_operation(
                Operation::AddToVector { list_id: vstd::slice::slice_to_vec(list_id), target_id },
            );
        }
    }

    /// XOR one source vector into a target.
    pub fn add_one_to_vector(&mut self, src_id: usize, target_id: usize)
        ensures
            final(self).logged(old(self), seq![OpView::AddOneToVector { src_id, target_id }]),
    {
        self.save_operation(Operation::AddOneToVector { src_id, target_id });
    }

    /// XOR two source vectors into a target; nothing is recorded when they
    /// are the same vector, whose two copies cancel.
    pub fn add_two_to_vector(&mut self, s0: usize, s1: usize, target_id: usize)
        ensures
            s0 == s1 ==> final(self).logged(old(self), seq![]),
            s0 != s1 ==> final(self).logged(old(self), seq![OpView::AddTwoToVector { s0, s1, target_id }]),
    {
        if s0 == s1 {
            assert(self.log() =~= self.log() + seq![]);
            return ;
        }
        self.save_operation(Operation::AddTwoToVector { s0, s1, target_id });
    }

    /// XOR three source vectors into a target.
    pub fn add_three_to_vector(&mut self, s0: usize, s1: usize, s2: usize, target_id: usize)
        ensures
            final(self).logged(old(self), seq![OpView::AddThreeToVector { s0, s1, s2, target_id }]),
    {
        self.save_operation(Operation::AddThreeToVector { s0, s1, s2, target_id });
    }

    /// XOR sources into a target, taking ownership of `list_id`.
    pub fn add_to_vector_owned(&mut self, list_id: Vec<usize>, target_id: usize)
        ensures
            final(self).logged(old(self), add_to_vector_ops(list_id@, target_id)),
    {
        let n = list_id.len();
        if n == 0 {
            assert(self.log() =~= self.log() + seq![]);
        } else if n == 1 {
            self.add_one_to_vector(list_id[0], target_id);
        } else if n == 2 {
            self.add_two_to_vector(list_id[0], list_id[1], target_id);
        } else if n == 3 {
            self.add_three_to_vector(list_id[0], list_id[1], list_id[2], target_id);
        } else {
            self.save_operation(Operation::AddToVector { list_id, target_id });
        }
    }

    /// XORs a single source vector into each of the given target vectors.
    pub fn broadcast_add(&mut self, src_id: usize, target_ids: &[usize])
        ensures
            final(self).logged(old(self), seq![OpView::BroadcastAdd { src_id, target_ids: target_ids@ }]),
    {
        self.save_operation(
            Operation::BroadcastAdd { src_id, target_ids: vstd::slice::slice_to_vec(target_ids) },
        );
    }

    /// Like [`Self::broadcast_add`], taking ownership of the targets.
    pub fn broadcast_add_owned(&mut self, src_id: usize, target_ids: Vec<usize>)
        ensures
            final(self).logged(old(self), seq![OpView::BroadcastAdd { src_id, target_ids: target_ids@ }]),
    {
        self.save_operation(Operation::BroadcastAdd { src_id, target_ids });
    }

    /// Computes `target += scalar * src` over GF(256), with fast paths for scalar 0 and 1.
    pub fn mul_add(&mut self, src_id: usize, scalar: u8, target_id: usize)
        ensures
            scalar == 0 ==> final(self).logged(old(self), seq![]),
            scalar == 1 ==> final(self).logged(old(self), seq![OpView::AddOneToVector { src_id, target_id }]),
            scalar > 1 ==> final(self).logged(old(self), seq![OpView::MulAdd { src_id, scalar, target_id }]),
    {
        if scalar == 0 {
            assert(self.log() =~= self.log() + seq![]);
        } else if scalar == 1 {
            self.add_one_to_vector(src_id, target_id);
        } else {
            self.save_operation(Operation::MulAdd { src_id, scalar, target_id });
        }
    }

    /// Moves a vector from `src_id` to `target_id`. No-op if they are equal.
    pub fn move_to(&mut self, src_id: usize, target_id: usize)
        ensures
            final(self).logged(old(self), move_op(src_id as int, target_id as int)),
    {
        if src_id == target_id {
            assert(self.log() =~= self.log() + seq![]);
            return ;
        }
        self.save_operation(Operation::MoveTo { src_id, target_id });
    }

    /// Copies a vector from `src_id` to `target_id`. No-op if they are equal.
    pub fn copy_to(&mut self, src_id: usize, target_id: usize)
        ensures
            src_id == target_id ==> final(self).logged(old(self), seq![]),
            src_id != target_id ==> final(self).logged(old(self), seq![OpView::CopyTo { src_id, target_id }]),
    {
        if src_id == target_id {
            assert(self.log() =~= self.log() + seq![]);
            return ;
        }
        self.save_operation(Operation::CopyTo { src_id, target_id });
    }

    /// Records a [`Operation::Remove`] to deallocate a vector.
    pub fn remove(&mut self, id: usize)
        ensures
            final(self).logged(old(self), seq![OpView::Remove { id }]),
    {
        self.save_operation(Operation::Remove { id });
    }

    /// Records an informational marker associating a coded vector with its data vector (decoding).
    pub fn add_coded_vector(&mut self, coded_id: usize, data_id: usize)
        ensures
            final(self).logged(old(self), seq![OpView::InfoCodedVector { coded_id, data_id }]),
    {
        self.save_operation(Operation::InfoCodedVector { coded_id, data_id });
    }

    /// Records an informational marker associating a coded vector with its data vector (encoding).
    pub fn encode_coded_vector(&mut self, coded_id: usize, data_id: usize)
        ensures
            final(self).logged(old(self), seq![OpView::InfoCodedVector { coded_id, data_id }]),
    {
        self.save_operation(Operation::InfoCodedVector { coded_id, data_id });
    }

    /// The operations of [`Self::prepare_for_ordinary`]: the moves of the
    /// inactive message vectors, then, with padding, the zeroing of the
    /// vectors `num_source - b .. a`.
    pub open spec fn prepare_ops(&self) -> Seq<OpView> {
        prepare_moves(
            self.spec_num_source() as int,
            self.inactive_base(),
            self.spec_params().b as int,
            self.spec_params().b as int,
        ) + (if self.spec_num_source() < self.spec_params().k {
            seq![
                OpView::EnsureZero {
                    list_id: id_range(self.spec_num_source() - self.spec_params().b, self.spec_params().a as int),
                },
            ]
        } else {
            seq![]
        })
    }

    /// For ordinary coding: moves the `b` inactive message vectors (the last
    /// `b` of the `num_source` payload vectors) into the inactive variable
    /// slots and, with padding, zeroes the vectors `num_source - b .. a` so
    /// that padding occupies the tail of the active message range.
    pub fn prepare_for_ordinary(&mut self)
        requires
            old(self).wf(),
        ensures
            final(self).same_config(old(self)),
            final(self).log_extends(old(self), old(self).prepare_ops()),
    {
        let b = self.params.b;
        let ns = self.num_source;
        let ghost start = *self;
        let mut i: usize = 1;
        while i <= b
            invariant
                1 <= i <= b + 1,
                b == start.spec_params().b,
                ns == start.spec_num_source(),
                start.wf(),
                self.logged(
                    &start,
                    prepare_moves(ns as int, start.inactive_base(), b as int, i - 1),
                ),
            decreases b + 1 - i,
        {
            let ghost before = *self;
            let src = ns - i;
            let dst = self.data_id_of_inactive_variable(b - i);
            self.move_to(src, dst);
            proof {
                Self::lemma_logged_trans(
                    &start,
                    &before,
                    self,
                    prepare_moves(ns as int, start.inactive_base(), b as int, i - 1),
                    move_op(src as int, dst as int),
                );
            }
            i += 1;
        }
        if self.has_padding() {
            let ghost before = *self;
            let ids = range_vec(ns - b, self.params.a);
            self.ensure_zero(ids.as_slice());
            proof {
                Self::lemma_logged_trans(
                    &start,
                    &before,
                    self,
                    prepare_moves(ns as int, start.inactive_base(), b as int, b as int),
                    seq![OpView::EnsureZero { list_id: ids@ }],
                );
            }
        } else {
            assert(prepare_moves(ns as int, start.inactive_base(), b as int, b as int) + seq![]
                =~= prepare_moves(ns as int, start.inactive_base(), b as int, b as int));
        }
    }

    /// Restores the data vector IDs after ordinary decoding: the inactive
    /// variable vectors move back behind the `a - num_padding` active message vectors.
    pub fn restore_for_ordinary(&mut self)
        requires
            old(self).wf(),
        ensures
            final(self).logged(
                old(self),
                restore_moves(
                    old(self).inactive_base(),
                    old(self).spec_params().a - (old(self).spec_params().k - old(self).spec_num_source()),
                    old(self).spec_params().b as int,
                ),
            ),
    {
        let num_a = self.params.a - self.num_padding();
        let b = self.params.b;
        let ghost start = *self;
        let mut i: usize = 0;
        while i < b
            invariant
                0 <= i <= b,
                b == start.spec_params().b,
                num_a == start.spec_params().a - (start.spec_params().k - start.spec_num_source()),
                start.wf(),
                self.logged(&start, restore_moves(start.inactive_base(), num_a as int, i as int)),
            decreases b - i,
        {
            let ghost before = *self;
            let src = self.data_id_of_inactive_variable(i);
            self.move_to(src, i + num_a);
            proof {
                Self::lemma_logged_trans(
                    &start,
                    &before,
                    self,
                    restore_moves(start.inactive_base(), num_a as int, i as int),
                    move_op(src as int, (i + num_a) as int),
                );
            }
            i += 1;
        }
    }
}

impl Default for DataManager {
    fn default() -> (r: Self)
        ensures
            r.wf(),
            r.log() == Seq::<OpView>::empty(),
            r.executed() == Seq::<OpView>::empty(),
            r.next_id() == MAX_DATA_VECTOR_ID,
            r.coded() == Map::<usize, usize>::empty(),
            !r.has_operator(),
            r.records(),
    {
        Self::new()
    }
}

/// What the log keeps across recordings.
pub broadcast group group_log_grows {
    DataManager::lemma_log_extends_grows,
    DataManager::lemma_log_grows_trans,
    DataManager::lemma_log_grows_refl,
}

} // verus!
