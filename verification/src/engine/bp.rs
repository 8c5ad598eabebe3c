use vstd::prelude::*;
use std::collections::VecDeque;
use crate::data_manager::DataManager;
use crate::traits::ldpc::LDPC;
use crate::types::{CodeParams, DegreeSetFn};

verus! {

broadcast use crate::data_manager::group_log_grows;

/// Initial adjacency capacity of a check node.
const CHECK_NODE_MAX_DEGREE: usize = 30;

/// State of a variable node of the Tanner graph.
#[derive(PartialEq, Eq, Debug, Clone, Copy, Structural)]
pub enum VarState {
    /// Not yet decoded nor inactivated.
    Active,
    /// Inactive, with its column `seq` in the inactive adjacency matrix.
    Inactive { seq: usize },
    /// Decoded by check node `check_id`.
    Decoded { check_id: usize },
}

/// State of a check node of the Tanner graph.
#[derive(PartialEq, Eq, Debug, Clone, Copy, Structural)]
pub enum CheckState {
    /// The check node solved a variable.
    Decoded,
    /// The check node has not been used to solve a variable.
    Unused,
}

/// Number of active variables in `s`.
pub open spec fn count_active(s: Seq<VarState>) -> nat
    decreases s.len(),
{
    if s.len() == 0 {
        0
    } else {
        count_active(s.drop_last()) + (if s.last() == VarState::Active {
            1nat
        } else {
            0nat
        })
    }
}

/// Replacing an active variable by a non-active state removes one active variable.
pub proof fn lemma_count_active_update(s: Seq<VarState>, i: int, x: VarState)
    requires
        0 <= i < s.len(),
    ensures
        count_active(s.update(i, x)) == count_active(s) - (if s[i] == VarState::Active {
            1int
        } else {
            0int
        }) + (if x == VarState::Active {
            1int
        } else {
            0int
        }),
    decreases s.len(),
{
    let t = s.update(i, x);
    if i == s.len() - 1 {
        assert(t.drop_last() =~= s.drop_last());
    } else {
        assert(t.drop_last() =~= s.drop_last().update(i, x));
        lemma_count_active_update(s.drop_last(), i, x);
    }
}

/// At most as many active variables as variables.
pub proof fn lemma_count_active_bound(s: Seq<VarState>)
    ensures
        count_active(s) <= s.len(),
        count_active(s) > 0 ==> exists|v: int| 0 <= v < s.len() && s[v] == VarState::Active,
    decreases s.len(),
{
    if s.len() > 0 {
        lemma_count_active_bound(s.drop_last());
        if count_active(s.drop_last()) > 0 {
            let v = choose|v: int| 0 <= v < s.drop_last().len() && s.drop_last()[v] == VarState::Active;
            assert(s[v] == VarState::Active);
        }
    }
}

/// No element occurs twice.
pub open spec fn distinct(s: Seq<usize>) -> bool {
    forall|i: int, j: int| 0 <= i < s.len() && 0 <= j < s.len() && i != j ==> s[i] != s[j]
}

/// Check node of the Tanner graph: its right-hand side data vector, its
/// state and its active neighbours (without repetition).
pub struct CheckNode {
    data_id: usize,
    state: CheckState,
    adjacent: Vec<usize>,
    degree: usize,
}

impl CheckNode {
    /// The cached degree is the number of active neighbours, which are distinct.
    pub closed spec fn wf(&self) -> bool {
        &&& self.degree == self.adjacent@.len()
        &&& distinct(self.adjacent@)
    }

    /// Number of active neighbours.
    fn degree(&self) -> (r: usize)
        requires
            self.wf(),
        ensures
            r == self.adjacent@.len(),
    {
        self.degree
    }

    /// Adds `var_id` to the neighbours unless it is there already.
    fn add_adjacent(&mut self, var_id: usize)
        requires
            old(self).wf(),
        ensures
            final(self).wf(),
            final(self).data_id == old(self).data_id,
            final(self).state == old(self).state,
            final(self).adjacent@ == (if old(self).adjacent@.contains(var_id) {
                old(self).adjacent@
            } else {
                old(self).adjacent@.push(var_id)
            }),
    {
        let mut i: usize = 0;
        let n = self.adjacent.len();
        while i < n
            invariant
                self.wf(),
                self.data_id == old(self).data_id,
                self.state == old(self).state,
                self.adjacent@ == old(self).adjacent@,
                n == self.adjacent@.len(),
                i <= n,
                forall|j: int| 0 <= j < i ==> self.adjacent@[j] != var_id,
            decreases n - i,
        {
            if self.adjacent[i] == var_id {
                return ;
            }
            i += 1;
        }
        self.adjacent.push(var_id);
        self.degree = self.adjacent.len();
    }

    /// Removes `var_id` from the neighbours (moving the last one into its place).
    fn remove_adjacent(&mut self, var_id: usize)
        requires
            old(self).wf(),
        ensures
            final(self).wf(),
            final(self).data_id == old(self).data_id,
            final(self).state == old(self).state,
            final(self).adjacent@.len() == old(self).adjacent@.len() - (if old(self).adjacent@.contains(var_id) {
                1int
            } else {
                0int
            }),
            forall|x: usize| #[trigger]
                final(self).adjacent@.contains(x) <==> (old(self).adjacent@.contains(x) && x != var_id),
    {
        let n = self.adjacent.len();
        let mut i: usize = 0;
        while i < n
            invariant
                self.wf(),
                self.data_id == old(self).data_id,
                self.state == old(self).state,
                self.adjacent@ == old(self).adjacent@,
                n == self.adjacent@.len(),
                i <= n,
                forall|j: int| 0 <= j < i ==> self.adjacent@[j] != var_id,
            decreases n - i,
        {
            if self.adjacent[i] == var_id {
                let ghost s = self.adjacent@;
                self.adjacent.swap_remove(i);
                self.degree = self.adjacent.len();
                proof {
                    assert forall|x: usize| #[trigger]
                        self.adjacent@.contains(x) <==> (s.contains(x) && x != var_id) by {
                        if s.contains(x) && x != var_id {
                            let j = choose|j: int| 0 <= j < s.len() && s[j] == x;
                            if j == n - 1 {
                                assert(self.adjacent@[i as int] == x);
                            } else {
                                assert(self.adjacent@[j] == x);
                            }
                        }
                        if self.adjacent@.contains(x) {
                            let j = choose|j: int| 0 <= j < self.adjacent@.len() && self.adjacent@[j] == x;
                            if j == i {
                                assert(s[n - 1] == x);
                            } else {
                                assert(s[j] == x);
                            }
                        }
                    }
                    assert forall|a: int, b: int|
                        0 <= a < self.adjacent@.len() && 0 <= b < self.adjacent@.len() && a != b implies self.adjacent@[a]
                        != self.adjacent@[b] by {
                        let ia = if a == i { n - 1 } else { a };
                        let ib = if b == i { n - 1 } else { b };
                        assert(self.adjacent@[a] == s[ia]);
                        assert(self.adjacent@[b] == s[ib]);
                    }
                }
                return ;
            }
            i += 1;
        }
    }
}

/// Belief-propagation decoder over the Tanner graph of the code: variable
/// nodes are active, inactive or decoded, check nodes hold the coded vectors,
/// and the inactive variables of each check node are kept as a 0/1 row.
pub struct BPDecoder {
    params: CodeParams,
    gen_degree_set: DegreeSetFn,
    variable_states: Vec<VarState>,
    variable_adjacent: Vec<Vec<usize>>,
    inactive_adj_matrix: Vec<Vec<u8>>,
    checks: Vec<CheckNode>,
    decodable_checks: VecDeque<usize>,
    num_decoded_vars: usize,
    next_inactive_seq: usize,
    max_inactive_num: usize,
}

impl BPDecoder {
    /// Code parameters.
    pub closed spec fn spec_params(&self) -> CodeParams {
        self.params
    }

    /// State of every variable node.
    pub closed spec fn states(&self) -> Seq<VarState> {
        self.variable_states@
    }

    /// Check nodes adjacent to variable `v`, in the order the edges were added.
    pub closed spec fn var_adj(&self, v: int) -> Seq<usize> {
        self.variable_adjacent@[v]@
    }

    /// Number of check nodes.
    pub closed spec fn num_checks(&self) -> int {
        self.checks@.len() as int
    }

    /// Active neighbours of check node `c`.
    pub closed spec fn check_adj(&self, c: int) -> Seq<usize> {
        self.checks@[c].adjacent@
    }

    /// State of check node `c`.
    pub closed spec fn check_state(&self, c: int) -> CheckState {
        self.checks@[c].state
    }

    /// Data vector ID of check node `c`.
    pub closed spec fn check_data(&self, c: int) -> usize {
        self.checks@[c].data_id
    }

    /// Inactive-variable row of check node `c` (one entry per column).
    pub closed spec fn row(&self, c: int) -> Seq<u8> {
        self.inactive_adj_matrix@[c]@
    }

    /// Check nodes waiting to be solved.
    pub closed spec fn queue(&self) -> Seq<usize> {
        self.decodable_checks@
    }

    /// Number of decoded variables.
    pub closed spec fn decoded(&self) -> int {
        self.num_decoded_vars as int
    }

    /// Number of variables inactivated while decoding.
    pub closed spec fn next_seq(&self) -> int {
        self.next_inactive_seq as int
    }

    /// Number of columns of the inactive rows.
    pub closed spec fn max_inactive(&self) -> int {
        self.max_inactive_num as int
    }

    /// Number of variables, `k + l + h`.
    pub open spec fn total(&self) -> int {
        self.spec_params().total()
    }

    /// Number of inactive variables: `b + h` from the start, plus those
    /// inactivated while decoding.
    pub open spec fn inactive(&self) -> int {
        self.next_seq() + self.spec_params().b + self.spec_params().h
    }

    /// First column of the pre-inactive variables.
    pub open spec fn pre_base(&self) -> int {
        self.max_inactive() - self.spec_params().b - self.spec_params().h
    }

    /// Consecutive index of inactive column `seq`: dynamically inactivated
    /// variables first, then the pre-inactive ones.
    pub open spec fn consecutive(&self, seq: int) -> int {
        if seq < self.pre_base() {
            seq
        } else {
            seq + self.next_seq() - self.pre_base()
        }
    }

    /// Sizes and index bounds; the last `b + h` variables keep their
    /// pre-inactive columns.
    spec fn shape_ok(&self) -> bool {
        let total = self.params.total();
        let n = self.checks@.len() as int;
        let max = self.max_inactive_num as int;
        let a_l = self.params.a + self.params.l;
        &&& self.params.wf()
        &&& self.params.b + self.params.h <= self.max_inactive_num
        &&& self.next_inactive_seq + self.params.b + self.params.h <= self.max_inactive_num
        &&& self.variable_states@.len() == total
        &&& self.variable_adjacent@.len() == total
        &&& self.inactive_adj_matrix@.len() == n
        &&& forall|c: int| 0 <= c < n ==> #[trigger] self.inactive_adj_matrix@[c]@.len() == max
        &&& forall|c: int| 0 <= c < n ==> #[trigger] self.checks@[c].wf()
        &&& forall|c: int, j: int|
            0 <= c < n && 0 <= j < self.checks@[c].adjacent@.len() ==> #[trigger] self.checks@[c].adjacent@[j] < total
        &&& forall|v: int, i: int|
            0 <= v < total && 0 <= i < self.variable_adjacent@[v]@.len() ==> #[trigger] self.variable_adjacent@[v]@[i]
                < n
        &&& forall|i: int| 0 <= i < self.decodable_checks@.len() ==> #[trigger] self.decodable_checks@[i] < n
        &&& forall|v: int|
            0 <= v < total ==> (#[trigger] self.variable_states@[v] matches VarState::Inactive { seq } ==> seq < max
                && (seq < self.next_inactive_seq || max - self.params.b - self.params.h <= seq))
        &&& forall|v: int|
            0 <= v < total ==> (#[trigger] self.variable_states@[v] matches VarState::Decoded { check_id }
                ==> check_id < n)
        &&& forall|v: int|
            a_l <= v < total ==> #[trigger] self.variable_states@[v] == (VarState::Inactive {
                seq: (max - self.params.b - self.params.h + (v - a_l)) as usize,
            })
    }

    /// Decoded, inactive and active variables add up to `k + l + h`.
    spec fn counts_ok(&self) -> bool {
        self.num_decoded_vars + self.next_inactive_seq + self.params.b + self.params.h + count_active(
            self.variable_states@,
        ) == self.params.total()
    }

    /// An unused check node has only active neighbours.
    spec fn unused_active(&self) -> bool {
        forall|c: int, j: int|
            0 <= c < self.checks@.len() && self.checks@[c].state == CheckState::Unused && 0 <= j
                < self.checks@[c].adjacent@.len() ==> self.variable_states@[#[trigger] self.checks@[c].adjacent@[j] as int]
                == VarState::Active
    }

    /// A check node that solved a variable has that variable as its only neighbour.
    spec fn decoded_single(&self) -> bool {
        forall|c: int|
            0 <= c < self.checks@.len() && #[trigger] self.checks@[c].state == CheckState::Decoded ==> {
                &&& self.checks@[c].adjacent@.len() == 1
                &&& self.variable_states@[self.checks@[c].adjacent@[0] as int] == (VarState::Decoded {
                    check_id: c as usize,
                })
            }
    }

    /// Every edge of a check node is recorded at its variable.
    spec fn edges_recorded(&self) -> bool {
        forall|c: int, j: int|
            0 <= c < self.checks@.len() && 0 <= j < self.checks@[c].adjacent@.len() ==> self.variable_adjacent@[
                #[trigger] self.checks@[c].adjacent@[j] as int]@.contains(c as usize)
    }

    /// A queued check node has at most one neighbour.
    spec fn queue_ok(&self) -> bool {
        forall|i: int|
            0 <= i < self.decodable_checks@.len() ==> self.checks@[#[trigger] self.decodable_checks@[i] as int].adjacent@.len()
                <= 1
    }

    /// Consistency of the graph: [`Self::shape_ok`], [`Self::counts_ok`],
    /// [`Self::unused_active`], [`Self::decoded_single`],
    /// [`Self::edges_recorded`] and [`Self::queue_ok`].
    pub closed spec fn wf(&self) -> bool {
        &&& self.shape_ok()
        &&& self.counts_ok()
        &&& self.unused_active()
        &&& self.decoded_single()
        &&& self.edges_recorded()
        &&& self.queue_ok()
    }

    /// What a consistent graph guarantees: decoded, inactive and active
    /// variables add up to `k + l + h`; a check node that solved a variable
    /// has that variable as its only neighbour, and the variable records it
    /// as its solver; an unused check node has only active neighbours; every
    /// edge is recorded at its variable; a queued check node has at most one
    /// neighbour; and every inactive variable has a consecutive column below
    /// the number of inactive variables.
    pub proof fn lemma_wf(&self)
        requires
            self.wf(),
        ensures
            self.spec_params().wf(),
            0 <= self.decoded(),
            0 <= self.next_seq(),
            0 <= self.num_checks(),
            self.next_seq() + self.spec_params().b + self.spec_params().h <= self.max_inactive(),
            self.states().len() == self.total(),
            forall|c: int| 0 <= c < self.num_checks() ==> #[trigger] self.row(c).len() == self.max_inactive(),
            self.decoded() + self.inactive() + count_active(self.states()) == self.total(),
            forall|c: int|
                0 <= c < self.num_checks() && #[trigger] self.check_state(c) == CheckState::Decoded ==> self.check_adj(c).len()
                    == 1 && self.states()[self.check_adj(c)[0] as int] == (VarState::Decoded { check_id: c as usize }),
            forall|c: int, j: int|
                0 <= c < self.num_checks() && self.check_state(c) == CheckState::Unused && 0 <= j < self.check_adj(c).len()
                    ==> self.states()[#[trigger] self.check_adj(c)[j] as int] == VarState::Active,
            forall|c: int, j: int|
                0 <= c < self.num_checks() && 0 <= j < self.check_adj(c).len() ==> self.var_adj(
                    #[trigger] self.check_adj(c)[j] as int,
                ).contains(c as usize),
            forall|i: int| 0 <= i < self.queue().len() ==> self.check_adj(#[trigger] self.queue()[i] as int).len() <= 1,
            forall|v: int|
                0 <= v < self.total() ==> (#[trigger] self.states()[v] matches VarState::Inactive { seq } ==> 0
                    <= self.consecutive(seq as int) < self.inactive()),
    {
        assert forall|c: int, j: int|
            0 <= c < self.num_checks() && self.check_state(c) == CheckState::Unused && 0 <= j < self.check_adj(c).len()
            implies self.states()[#[trigger] self.check_adj(c)[j] as int] == VarState::Active by {
            assert(self.checks@[c].adjacent@[j] == self.check_adj(c)[j]);
        }
        assert forall|c: int, j: int|
            0 <= c < self.num_checks() && 0 <= j < self.check_adj(c).len() implies self.var_adj(
            #[trigger] self.check_adj(c)[j] as int,
        ).contains(c as usize) by {
            assert(self.checks@[c].adjacent@[j] == self.check_adj(c)[j]);
        }
        assert forall|i: int| 0 <= i < self.queue().len() implies self.check_adj(#[trigger] self.queue()[i] as int).len()
            <= 1 by {
            assert(self.decodable_checks@[i] == self.queue()[i]);
        }
    }

    /// Creates the graph of `k + l + h` variables without check nodes: the
    /// `a` active message variables and the `l` LDPC variables are active,
    /// the `b` inactive message variables and the `h` HDPC variables take the
    /// last `b + h` of the `max_inactive_num` inactive columns, in order.
    pub fn new(params: &CodeParams, gen_degree_set: DegreeSetFn, max_inactive_num: usize) -> (r: Self)
        requires
            params.wf(),
            params.b + params.h <= max_inactive_num,
        ensures
            r.wf(),
            r.spec_params() == *params,
            r.max_inactive() == max_inactive_num,
            r.states().len() == params.total(),
            forall|v: int|
                0 <= v < params.total() ==> #[trigger] r.states()[v] == (if v < params.a + params.l {
                    VarState::Active
                } else {
                    VarState::Inactive { seq: (max_inactive_num - params.b - params.h + (v - params.a - params.l)) as usize }
                }),
            forall|v: int| 0 <= v < params.total() ==> #[trigger] r.var_adj(v).len() == 0,
            r.num_checks() == 0,
            r.queue().len() == 0,
            r.decoded() == 0,
            r.next_seq() == 0,
    {
        let total_variables = params.num_total();
        let num_active = params.num_active();
        let pre_base = max_inactive_num - params.num_inactive();
        let mut variable_states: Vec<VarState> = Vec::with_capacity(total_variables);
        let mut variable_adjacent: Vec<Vec<usize>> = Vec::with_capacity(total_variables);
        let mut v: usize = 0;
        while v < total_variables
            invariant
                params.wf(),
                total_variables == params.total(),
                num_active == params.a + params.l,
                pre_base == max_inactive_num - params.b - params.h,
                v <= total_variables,
                variable_states@.len() == v,
                variable_adjacent@.len() == v,
                forall|x: int|
                    0 <= x < v ==> #[trigger] variable_states@[x] == (if x < params.a + params.l {
                        VarState::Active
                    } else {
                        VarState::Inactive { seq: (pre_base + (x - params.a - params.l)) as usize }
                    }),
                forall|x: int| 0 <= x < v ==> #[trigger] variable_adjacent@[x]@.len() == 0,
                count_active(variable_states@) == (if v < num_active {
                    v as int
                } else {
                    num_active as int
                }),
            decreases total_variables - v,
        {
            let ghost before = variable_states@;
            if v < num_active {
                variable_states.push(VarState::Active);
            } else {
                variable_states.push(VarState::Inactive { seq: pre_base + (v - num_active) });
            }
            assert(variable_states@.drop_last() =~= before);
            variable_adjacent.push(Vec::new());
            v += 1;
        }
        let r = BPDecoder {
            params: *params,
            gen_degree_set,
            variable_states,
            variable_adjacent,
            inactive_adj_matrix: Vec::new(),
            checks: Vec::new(),
            decodable_checks: VecDeque::new(),
            num_decoded_vars: 0,
            next_inactive_seq: 0,
            max_inactive_num,
        };
        assert forall|v: int| 0 <= v < params.total() implies (#[trigger] r.variable_states@[v] matches VarState::Inactive { seq }
            ==> seq < max_inactive_num) by {
        }
        r
    }

    /// Number of inactive variables (`b + h` plus those inactivated so far).
    pub fn num_inactive(&self) -> (r: usize)
        requires
            self.wf(),
        ensures
            r == self.inactive(),
    {
        self.next_inactive_seq + self.params.num_inactive()
    }

    /// Data vector ID of check node `check_id`.
    pub fn get_data_id(&self, check_id: usize) -> (r: usize)
        requires
            check_id < self.num_checks(),
        ensures
            r == self.check_data(check_id as int),
    {
        self.checks[check_id].data_id
    }

    /// Whether every variable is decoded or inactive.
    pub fn is_complete(&self) -> (r: bool)
        requires
            self.wf(),
        ensures
            r == (self.decoded() + self.inactive() == self.total()),
    {
        self.num_decoded_vars + self.num_inactive() == self.params.num_total()
    }

    /// Everything but the check nodes, the adjacency lists, the rows and the queue is unchanged.
    spec fn same_vars(&self, o: &Self) -> bool {
        &&& self.params == o.params
        &&& self.variable_states@ == o.variable_states@
        &&& self.num_decoded_vars == o.num_decoded_vars
        &&& self.next_inactive_seq == o.next_inactive_seq
        &&& self.max_inactive_num == o.max_inactive_num
    }

    /// Appends a check node for data vector `data_id`, without neighbours
    /// and with an all-zero inactive row; returns its index.
    fn add_check_node(&mut self, data_id: usize) -> (r: usize)
        requires
            old(self).wf(),
        ensures
            final(self).wf(),
            final(self).same_vars(old(self)),
            r == old(self).checks@.len(),
            final(self).checks@ == old(self).checks@.push(final(self).checks@[r as int]),
            final(self).checks@[r as int].data_id == data_id,
            final(self).checks@[r as int].state == CheckState::Unused,
            final(self).checks@[r as int].adjacent@.len() == 0,
            final(self).inactive_adj_matrix@.len() == r + 1,
            forall|c: int| 0 <= c < r ==> #[trigger] final(self).inactive_adj_matrix@[c] == old(self).inactive_adj_matrix@[c],
            final(self).inactive_adj_matrix@[r as int]@ == Seq::new(old(self).max_inactive_num as nat, |i: int| 0u8),
            final(self).decodable_checks@ == old(self).decodable_checks@,
    {
        let row: Vec<u8> = vec![0u8; self.max_inactive_num];
        self.inactive_adj_matrix.push(row);
        let node = CheckNode {
            data_id,
            state: CheckState::Unused,
            adjacent: Vec::with_capacity(CHECK_NODE_MAX_DEGREE),
            degree: 0,
        };
        self.checks.push(node);
        let r = self.checks.len() - 1;
        proof {
            let n = self.checks@.len() as int;
            assert(self.inactive_adj_matrix@[r as int]@ =~= Seq::new(old(self).max_inactive_num as nat, |i: int| 0u8));
            assert forall|c: int, j: int|
                0 <= c < n && 0 <= j < self.checks@[c].adjacent@.len() implies self.variable_adjacent@[
                #[trigger] self.checks@[c].adjacent@[j] as int]@.contains(c as usize) by {
                assert(c < r);
                assert(self.checks@[c] == old(self).checks@[c]);
            }
        }
        r
    }

    /// Queues check node `check_id` for solving.
    fn add_decodable(&mut self, check_id: usize)
        requires
            old(self).wf(),
            check_id < old(self).checks@.len(),
            old(self).checks@[check_id as int].adjacent@.len() <= 1,
        ensures
            final(self).wf(),
            final(self).same_vars(old(self)),
            final(self).checks@ == old(self).checks@,
            final(self).inactive_adj_matrix@ == old(self).inactive_adj_matrix@,
            final(self).decodable_checks@ == old(self).decodable_checks@.push(check_id),
    {
        self.decodable_checks.push_back(check_id);
    }

    /// Takes the next queued check node.
    fn next_decodable(&mut self) -> (r: Option<usize>)
        requires
            old(self).wf(),
        ensures
            final(self).wf(),
            final(self).same_vars(old(self)),
            final(self).checks@ == old(self).checks@,
            final(self).inactive_adj_matrix@ == old(self).inactive_adj_matrix@,
            old(self).decodable_checks@.len() == 0 ==> r is None && final(self).decodable_checks@.len() == 0,
            old(self).decodable_checks@.len() > 0 ==> r == Some(old(self).decodable_checks@[0])
                && final(self).decodable_checks@ == old(self).decodable_checks@.drop_first(),
    {
        let r = self.decodable_checks.pop_front();
        proof {
            assert forall|i: int| 0 <= i < self.decodable_checks@.len() implies #[trigger] self.decodable_checks@[i]
                == old(self).decodable_checks@[i + 1] by {
            }
        }
        r
    }

    /// Toggles the column of the inactive variable `var_id` in the row of
    /// check node `check_id` (nothing when `var_id` is not inactive).
    fn add_edge_inactive(&mut self, var_id: usize, check_id: usize)
        requires
            old(self).shape_ok(),
            var_id < old(self).params.total(),
            check_id < old(self).checks@.len(),
        ensures
            final(self).shape_ok(),
            final(self).same_vars(old(self)),
            final(self).variable_adjacent@ == old(self).variable_adjacent@,
            final(self).checks@ == old(self).checks@,
            final(self).decodable_checks@ == old(self).decodable_checks@,
            final(self).inactive_adj_matrix@.len() == old(self).inactive_adj_matrix@.len(),
            forall|c: int| 0 <= c < final(self).inactive_adj_matrix@.len() && c != check_id ==> #[trigger] final(self).inactive_adj_matrix@[c] == old(self).inactive_adj_matrix@[c],
            final(self).inactive_adj_matrix@[check_id as int]@ == (match old(self).variable_states@[var_id as int] {
                VarState::Inactive { seq } => old(self).inactive_adj_matrix@[check_id as int]@.update(
                    seq as int,
                    old(self).inactive_adj_matrix@[check_id as int]@[seq as int] ^ 1u8,
                ),
                _ => old(self).inactive_adj_matrix@[check_id as int]@,
            }),
    {
        match self.variable_states[var_id] {
            VarState::Inactive { seq } => {
                let mut row: Vec<u8> = Vec::new();
                std::mem::swap(&mut row, &mut self.inactive_adj_matrix[check_id]);
                let x = row[seq] ^ 1u8;
                row.set(seq, x);
                std::mem::swap(&mut row, &mut self.inactive_adj_matrix[check_id]);
            },
            _ => {},
        }
    }

    /// Connects the active variable `var_id` to the newest check node `check_id`.
    fn add_edge_active(&mut self, var_id: usize, check_id: usize)
        requires
            old(self).wf(),
            var_id < old(self).params.total(),
            check_id < old(self).checks@.len(),
            old(self).variable_states@[var_id as int] == VarState::Active,
            old(self).checks@[check_id as int].state == CheckState::Unused,
            !old(self).decodable_checks@.contains(check_id),
        ensures
            final(self).wf(),
            final(self).params == old(self).params,
            final(self).variable_states@ == old(self).variable_states@,
            final(self).num_decoded_vars == old(self).num_decoded_vars,
            final(self).next_inactive_seq == old(self).next_inactive_seq,
            final(self).max_inactive_num == old(self).max_inactive_num,
            final(self).inactive_adj_matrix@ == old(self).inactive_adj_matrix@,
            final(self).decodable_checks@ == old(self).decodable_checks@,
            final(self).checks@.len() == old(self).checks@.len(),
            forall|c: int| 0 <= c < final(self).checks@.len() && c != check_id ==> #[trigger] final(self).checks@[c] == old(self).checks@[c],
            final(self).checks@[check_id as int].data_id == old(self).checks@[check_id as int].data_id,
            final(self).checks@[check_id as int].state == CheckState::Unused,
            final(self).checks@[check_id as int].adjacent@ == (if old(self).checks@[check_id as int].adjacent@.contains(var_id) {
                old(self).checks@[check_id as int].adjacent@
            } else {
                old(self).checks@[check_id as int].adjacent@.push(var_id)
            }),
    {
        let mut list: Vec<usize> = Vec::new();
        std::mem::swap(&mut list, &mut self.variable_adjacent[var_id]);
        list.push(check_id);
        std::mem::swap(&mut list, &mut self.variable_adjacent[var_id]);
        let mut node = CheckNode { data_id: 0, state: CheckState::Unused, adjacent: Vec::new(), degree: 0 };
        std::mem::swap(&mut node, &mut self.checks[check_id]);
        node.add_adjacent(var_id);
        std::mem::swap(&mut node, &mut self.checks[check_id]);
        proof {
            let n = self.checks@.len() as int;
            let total = self.params.total();
            assert forall|v: int, i: int|
                0 <= v < total && 0 <= i < self.variable_adjacent@[v]@.len() implies #[trigger] self.variable_adjacent@[v]@[i]
                < n by {
                if v != var_id {
                    assert(self.variable_adjacent@[v] == old(self).variable_adjacent@[v]);
                }
            }
            assert forall|c: int, j: int|
                0 <= c < n && 0 <= j < self.checks@[c].adjacent@.len() implies #[trigger] self.checks@[c].adjacent@[j] < total by {
                if c == check_id && !old(self).checks@[c].adjacent@.contains(var_id) && j == old(self).checks@[c].adjacent@.len() {
                } else {
                    assert(self.checks@[c].adjacent@[j] == old(self).checks@[c].adjacent@[j]);
                }
            }
            assert forall|c: int, j: int|
                0 <= c < n && self.checks@[c].state == CheckState::Unused && 0 <= j < self.checks@[c].adjacent@.len()
                implies self.variable_states@[#[trigger] self.checks@[c].adjacent@[j] as int] == VarState::Active by {
                if c == check_id && !old(self).checks@[c].adjacent@.contains(var_id) && j == old(self).checks@[c].adjacent@.len() {
                } else {
                    assert(self.checks@[c].adjacent@[j] == old(self).checks@[c].adjacent@[j]);
                }
            }
            assert forall|c: int, j: int|
                0 <= c < n && 0 <= j < self.checks@[c].adjacent@.len() implies self.variable_adjacent@[
                #[trigger] self.checks@[c].adjacent@[j] as int]@.contains(c as usize) by {
                let x = self.checks@[c].adjacent@[j];
                if c == check_id && !old(self).checks@[c].adjacent@.contains(var_id) && j == old(self).checks@[c].adjacent@.len() {
                    assert(self.variable_adjacent@[var_id as int]@.last() == check_id);
                } else {
                    assert(x == old(self).checks@[c].adjacent@[j]);
                    assert(old(self).variable_adjacent@[x as int]@.contains(c as usize));
                    let i = choose|i: int| 0 <= i < old(self).variable_adjacent@[x as int]@.len()
                        && old(self).variable_adjacent@[x as int]@[i] == c as usize;
                    assert(self.variable_adjacent@[x as int]@[i] == c as usize);
                }
            }
            assert forall|i: int| 0 <= i < self.decodable_checks@.len() implies self.checks@[
                #[trigger] self.decodable_checks@[i] as int].adjacent@.len() <= 1 by {
                assert(self.decodable_checks@[i] != check_id);
            }
        }
    }

    /// XORs the inactive row of check node `check1` into that of `check2`.
    fn xor_inactive_vars(&mut self, check1: usize, check2: usize)
        requires
            old(self).shape_ok(),
            check1 < old(self).checks@.len(),
            check2 < old(self).checks@.len(),
        ensures
            final(self).shape_ok(),
            final(self).same_vars(old(self)),
            final(self).variable_adjacent@ == old(self).variable_adjacent@,
            final(self).checks@ == old(self).checks@,
            final(self).decodable_checks@ == old(self).decodable_checks@,
            final(self).inactive_adj_matrix@.len() == old(self).inactive_adj_matrix@.len(),
            forall|c: int| 0 <= c < final(self).inactive_adj_matrix@.len() && c != check2 ==> #[trigger] final(self).inactive_adj_matrix@[c] == old(self).inactive_adj_matrix@[c],
            final(self).inactive_adj_matrix@[check2 as int]@ == Seq::new(
                old(self).max_inactive_num as nat,
                |i: int| old(self).inactive_adj_matrix@[check2 as int]@[i] ^ old(self).inactive_adj_matrix@[check1 as int]@[i],
            ),
    {
        let src = self.inactive_adj_matrix[check1].clone();
        assert(src@ =~= old(self).inactive_adj_matrix@[check1 as int]@);
        let mut row: Vec<u8> = Vec::new();
        std::mem::swap(&mut row, &mut self.inactive_adj_matrix[check2]);
        let n = self.max_inactive_num;
        let ghost r0 = row@;
        let mut i: usize = 0;
        while i < n
            invariant
                n == old(self).max_inactive_num,
                src@ == old(self).inactive_adj_matrix@[check1 as int]@,
                r0 == old(self).inactive_adj_matrix@[check2 as int]@,
                src@.len() == n,
                r0.len() == n,
                row@.len() == n,
                i <= n,
                forall|j: int| 0 <= j < i ==> #[trigger] row@[j] == r0[j] ^ src@[j],
                forall|j: int| i <= j < n ==> #[trigger] row@[j] == r0[j],
            decreases n - i,
        {
            let x = row[i] ^ src[i];
            row.set(i, x);
            i += 1;
        }
        std::mem::swap(&mut row, &mut self.inactive_adj_matrix[check2]);
        assert(self.inactive_adj_matrix@[check2 as int]@ =~= Seq::new(
            old(self).max_inactive_num as nat,
            |i: int| old(self).inactive_adj_matrix@[check2 as int]@[i] ^ old(self).inactive_adj_matrix@[check1 as int]@[i],
        ));
    }

    /// The manager is consistent, its layout and allocation state are
    /// unchanged, and its log only grew.
    pub open spec fn manager_kept(m: &DataManager, o: &DataManager) -> bool {
        &&& m.wf()
        &&& m.same_layout(o)
        &&& m.next_id() == o.next_id()
        &&& m.coded() == o.coded()
        &&& m.log_grows(o)
    }

    /// Connects variable `var_id` to the newest check node `check_id`, whose
    /// right-hand side is `data_id`: an active variable gets an edge, an
    /// inactive one sets its column, and a decoded one is substituted (its
    /// vector is added to `data_id` and its solving row XORed in).
    fn attach(&mut self, manager: &mut DataManager, var_id: usize, check_id: usize, data_id: usize)
        requires
            old(self).wf(),
            old(manager).wf(),
            old(manager).spec_params() == old(self).params,
            var_id < old(self).params.total(),
            check_id + 1 == old(self).checks@.len(),
            old(self).checks@[check_id as int].state == CheckState::Unused,
            forall|i: int| 0 <= i < old(self).decodable_checks@.len() ==> #[trigger] old(self).decodable_checks@[i] < check_id,
        ensures
            final(self).wf(),
            final(self).same_vars(old(self)),
            final(self).decodable_checks@ == old(self).decodable_checks@,
            final(self).checks@.len() == old(self).checks@.len(),
            final(self).inactive_adj_matrix@.len() == old(self).inactive_adj_matrix@.len(),
            forall|c: int| 0 <= c < check_id ==> #[trigger] final(self).checks@[c] == old(self).checks@[c],
            forall|c: int| 0 <= c < check_id ==> #[trigger] final(self).inactive_adj_matrix@[c] == old(self).inactive_adj_matrix@[c],
            final(self).checks@[check_id as int].data_id == old(self).checks@[check_id as int].data_id,
            final(self).checks@[check_id as int].state == CheckState::Unused,
            final(self).checks@[check_id as int].adjacent@ == (if old(self).variable_states@[var_id as int]
                == VarState::Active && !old(self).checks@[check_id as int].adjacent@.contains(var_id) {
                old(self).checks@[check_id as int].adjacent@.push(var_id)
            } else {
                old(self).checks@[check_id as int].adjacent@
            }),
            Self::manager_kept(final(manager), old(manager)),
    {
        match self.variable_states[var_id] {
            VarState::Active => {
                proof {
                    if old(self).decodable_checks@.contains(check_id) {
                        let i = choose|i: int| 0 <= i < old(self).decodable_checks@.len()
                            && old(self).decodable_checks@[i] == check_id;
                        assert(old(self).decodable_checks@[i] < check_id);
                    }
                }
                self.add_edge_active(var_id, check_id);
            },
            VarState::Inactive { seq: _ } => {
                self.add_edge_inactive(var_id, check_id);
            },
            VarState::Decoded { check_id: decoded_by } => {
                let var_data_id = manager.data_id_of_variable_vector(var_id);
                let ids = vec![var_data_id];
                manager.add_to_vector(ids.as_slice(), data_id);
                self.xor_inactive_vars(decoded_by, check_id);
            },
        }
    }

    /// Adds coded vector `coded_id`, whose right-hand side is `data_id`, as
    /// a check node over the variables of its degree set (indices outside
    /// `0..k + l + h` are skipped), and queues it when it has exactly one
    /// active neighbour. Returns the new check node's index.
    pub fn add_coded_vector(&mut self, manager: &mut DataManager, coded_id: usize, data_id: usize) -> (r: usize)
        requires
            old(self).wf(),
            old(manager).wf(),
            old(manager).spec_params() == old(self).spec_params(),
        ensures
            final(self).wf(),
            r == old(self).num_checks(),
            final(self).num_checks() == old(self).num_checks() + 1,
            final(self).check_data(r as int) == data_id,
            final(self).check_state(r as int) == CheckState::Unused,
            final(self).spec_params() == old(self).spec_params(),
            final(self).states() == old(self).states(),
            final(self).decoded() == old(self).decoded(),
            final(self).next_seq() == old(self).next_seq(),
            final(self).max_inactive() == old(self).max_inactive(),
            forall|c: int| 0 <= c < r ==> #[trigger] final(self).check_adj(c) == old(self).check_adj(c)
                && final(self).check_state(c) == old(self).check_state(c)
                && final(self).check_data(c) == old(self).check_data(c) && final(self).row(c) == old(self).row(c),
            final(self).queue() == old(self).queue() + (if final(self).check_adj(r as int).len() == 1 {
                seq![r]
            } else {
                seq![]
            }),
            Self::manager_kept(final(manager), old(manager)),
    {
        let degree_set = self.gen_degree_set.degree_set(coded_id);
        self.add_degree_set(manager, degree_set.as_slice(), data_id)
    }

    /// Adds a check node with right-hand side `data_id` connected to the
    /// single variable `var_id`; returns its index.
    pub fn add_degree_one_coded_vector(&mut self, manager: &mut DataManager, data_id: usize, var_id: usize) -> (r: usize)
        requires
            old(self).wf(),
            old(manager).wf(),
            old(manager).spec_params() == old(self).spec_params(),
            var_id < old(self).total(),
        ensures
            final(self).wf(),
            r == old(self).num_checks(),
            final(self).num_checks() == old(self).num_checks() + 1,
            final(self).check_data(r as int) == data_id,
            final(self).check_state(r as int) == CheckState::Unused,
            final(self).check_adj(r as int) == (if old(self).states()[var_id as int] == VarState::Active {
                seq![var_id]
            } else {
                seq![]
            }),
            final(self).spec_params() == old(self).spec_params(),
            final(self).states() == old(self).states(),
            final(self).decoded() == old(self).decoded(),
            final(self).next_seq() == old(self).next_seq(),
            final(self).max_inactive() == old(self).max_inactive(),
            forall|c: int| 0 <= c < r ==> #[trigger] final(self).check_adj(c) == old(self).check_adj(c)
                && final(self).check_state(c) == old(self).check_state(c)
                && final(self).check_data(c) == old(self).check_data(c) && final(self).row(c) == old(self).row(c),
            final(self).queue() == old(self).queue() + (if old(self).states()[var_id as int] == VarState::Active {
                seq![r]
            } else {
                seq![]
            }),
            Self::manager_kept(final(manager), old(manager)),
    {
        let check_id = self.add_check_node(data_id);
        self.attach(manager, var_id, check_id, data_id);
        proof {
            if old(self).variable_states@[var_id as int] == VarState::Active {
                assert(self.checks@[check_id as int].adjacent@ =~= seq![var_id]);
            } else {
                assert(self.checks@[check_id as int].adjacent@ =~= seq![]);
            }
        }
        if self.checks[check_id].degree() == 1 {
            self.add_decodable(check_id);
        }
        check_id
    }

    /// Adds a check node with right-hand side `data_id` over the variables
    /// `degree_set` (out-of-range indices skipped), queued when it has one
    /// active neighbour.
    fn add_degree_set(&mut self, manager: &mut DataManager, degree_set: &[usize], data_id: usize) -> (r: usize)
        requires
            old(self).wf(),
            old(manager).wf(),
            old(manager).spec_params() == old(self).spec_params(),
        ensures
            final(self).wf(),
            r == old(self).num_checks(),
            final(self).num_checks() == old(self).num_checks() + 1,
            final(self).check_data(r as int) == data_id,
            final(self).check_state(r as int) == CheckState::Unused,
            final(self).same_vars(old(self)),
            forall|c: int| 0 <= c < r ==> #[trigger] final(self).checks@[c] == old(self).checks@[c],
            forall|c: int| 0 <= c < r ==> #[trigger] final(self).inactive_adj_matrix@[c] == old(self).inactive_adj_matrix@[c],
            final(self).queue() == old(self).queue() + (if final(self).check_adj(r as int).len() == 1 {
                seq![r]
            } else {
                seq![]
            }),
            Self::manager_kept(final(manager), old(manager)),
    {
        let check_id = self.add_check_node(data_id);
        let total = self.params.num_total();
        let mut i: usize = 0;
        while i < degree_set.len()
            invariant
                self.wf(),
                self.same_vars(old(self)),
                total == self.params.total(),
                check_id == old(self).checks@.len(),
                self.checks@.len() == check_id + 1,
                self.inactive_adj_matrix@.len() == check_id + 1,
                self.checks@[check_id as int].data_id == data_id,
                self.checks@[check_id as int].state == CheckState::Unused,
                forall|c: int| 0 <= c < check_id ==> #[trigger] self.checks@[c] == old(self).checks@[c],
                forall|c: int| 0 <= c < check_id ==> #[trigger] self.inactive_adj_matrix@[c] == old(self).inactive_adj_matrix@[c],
                self.decodable_checks@ == old(self).decodable_checks@,
                forall|x: int| 0 <= x < old(self).decodable_checks@.len() ==> #[trigger] old(self).decodable_checks@[x] < check_id,
                Self::manager_kept(manager, old(manager)),
                manager.spec_params() == self.params,
                i <= degree_set@.len(),
            decreases degree_set@.len() - i,
        {
            let var_id = degree_set[i];
            if var_id < total {
                self.attach(manager, var_id, check_id, data_id);
            }
            i += 1;
        }
        if self.checks[check_id].degree() == 1 {
            self.add_decodable(check_id);
        }
        check_id
    }

    /// Adds the `l` LDPC check nodes: check `j` gets a fresh data vector for
    /// coded ID `k + j`, edges to the active variables of row `j` of the
    /// LDPC matrix and to LDPC variable `a + j`, and the columns of the
    /// inactive variables of row `j` (indices outside the graph are skipped).
    pub fn add_ldpc_check_node(&mut self, manager: &mut DataManager, ldpc: Box<dyn LDPC>)
        requires
            old(self).wf(),
            old(manager).wf(),
            old(manager).spec_params() == old(self).spec_params(),
            old(manager).next_id() + old(self).spec_params().l < usize::MAX,
        ensures
            final(self).wf(),
            final(self).num_checks() == old(self).num_checks() + old(self).spec_params().l,
            forall|j: int|
                0 <= j < old(self).spec_params().l ==> #[trigger] final(self).check_data(old(self).num_checks() + j)
                    == old(manager).next_id() + j,
            final(self).spec_params() == old(self).spec_params(),
            final(self).states() == old(self).states(),
            final(self).decoded() == old(self).decoded(),
            final(self).next_seq() == old(self).next_seq(),
            final(self).max_inactive() == old(self).max_inactive(),
            final(self).queue() == old(self).queue(),
            final(manager).wf(),
            final(manager).same_layout(old(manager)),
            final(manager).log_grows(old(manager)),
            final(manager).next_id() == old(manager).next_id() + old(self).spec_params().l,
            final(manager).keeps_coded_ids(old(manager)),
    {
        let l = self.params.l;
        let k = self.params.k;
        let a = self.params.a;
        let total = self.params.num_total();
        let num_active = self.params.num_active();
        let num_inactive = self.params.num_inactive();
        let n0 = self.checks.len();
        assert(forall|x: int| 0 <= x < old(self).decodable_checks@.len() ==> #[trigger] old(self).decodable_checks@[x] < n0);
        let mut ldpc_id: usize = 0;
        while ldpc_id < l
            invariant
                self.wf(),
                self.same_vars(old(self)),
                l == self.params.l,
                k == self.params.k,
                a == self.params.a,
                total == self.params.total(),
                num_active == a + l,
                num_inactive == self.params.b + self.params.h,
                n0 == old(self).checks@.len(),
                ldpc_id <= l,
                self.checks@.len() == n0 + ldpc_id,
                forall|j: int| 0 <= j < ldpc_id ==> #[trigger] self.checks@[n0 + j].data_id == old(manager).next_id() + j,
                self.decodable_checks@ == old(self).decodable_checks@,
                forall|x: int| 0 <= x < old(self).decodable_checks@.len() ==> #[trigger] old(self).decodable_checks@[x] < n0,
                manager.wf(),
                manager.same_layout(old(manager)),
                manager.log_grows(old(manager)),
                manager.spec_params() == self.params,
                manager.next_id() == old(manager).next_id() + ldpc_id,
                manager.keeps_coded_ids(old(manager)),
                old(manager).next_id() + l < usize::MAX,
            decreases l - ldpc_id,
        {
            let data_id = manager.coded_data_id(ldpc_id + k);
            let check_id = self.add_check_node(data_id);
            let active_neighbors = ldpc.active_row(ldpc_id);
            let mut t: usize = 0;
            while t < active_neighbors.len()
                invariant
                    self.wf(),
                    self.same_vars(old(self)),
                    total == self.params.total(),
                    check_id == n0 + ldpc_id,
                    self.checks@.len() == check_id + 1,
                    self.checks@[check_id as int].data_id == data_id,
                    self.checks@[check_id as int].state == CheckState::Unused,
                    forall|j: int| 0 <= j < ldpc_id ==> #[trigger] self.checks@[n0 + j].data_id == old(manager).next_id() + j,
                    self.decodable_checks@ == old(self).decodable_checks@,
                    forall|x: int| 0 <= x < old(self).decodable_checks@.len() ==> #[trigger] old(self).decodable_checks@[x] < n0,
                    t <= active_neighbors@.len(),
                decreases active_neighbors@.len() - t,
            {
                let neighbor = active_neighbors[t];
                if neighbor < total && self.variable_states[neighbor] == VarState::Active {
                    self.add_edge_active(neighbor, check_id);
                }
                t += 1;
            }
            let ldpc_var = ldpc_id + a;
            if self.variable_states[ldpc_var] == VarState::Active {
                self.add_edge_active(ldpc_var, check_id);
            }
            if num_inactive > 0 {
                let inactive_neighbors = ldpc.inactive_row(ldpc_id);
                let mut t: usize = 0;
                while t < inactive_neighbors.len()
                    invariant
                        self.wf(),
                        self.same_vars(old(self)),
                        total == self.params.total(),
                        num_active == self.params.a + self.params.l,
                        check_id == n0 + ldpc_id,
                        self.checks@.len() == check_id + 1,
                        self.checks@[check_id as int].data_id == data_id,
                        forall|j: int| 0 <= j < ldpc_id ==> #[trigger] self.checks@[n0 + j].data_id == old(manager).next_id() + j,
                        self.decodable_checks@ == old(self).decodable_checks@,
                        t <= inactive_neighbors@.len(),
                    decreases inactive_neighbors@.len() - t,
                {
                    let neighbor = inactive_neighbors[t];
                    if neighbor < total - num_active {
                        self.add_edge_inactive(neighbor + num_active, check_id);
                    }
                    t += 1;
                }
            }
            ldpc_id += 1;
        }
    }

    /// [`Self::unused_active`] while the edges of variable `var` are being
    /// removed: an unused check node may still have `var` as a neighbour
    /// when it is one of the entries `t..` of `var`'s adjacency list.
    spec fn unused_active_pending(&self, var: int, t: int) -> bool {
        forall|c: int, j: int|
            0 <= c < self.checks@.len() && self.checks@[c].state == CheckState::Unused && 0 <= j
                < self.checks@[c].adjacent@.len() ==> (self.variable_states@[#[trigger] self.checks@[c].adjacent@[j] as int]
                == VarState::Active || (self.checks@[c].adjacent@[j] == var && exists|i: int|
                t <= i < self.variable_adjacent@[var]@.len() && #[trigger] self.variable_adjacent@[var]@[i] == c))
    }

    /// The only element of a one-element sequence that contains `x` is `x`.
    proof fn lemma_single(s: Seq<usize>, x: usize)
        requires
            s.len() == 1,
            s.contains(x),
        ensures
            s[0] == x,
    {
    }

    /// Removes variable `var_id` from check node `sub` and queues `sub` when
    /// one neighbour is left; `var_id` is no longer active, and its edges
    /// `t..` are still to be removed.
    fn detach(&mut self, var_id: usize, sub: usize, Ghost(t): Ghost<int>)
        requires
            old(self).shape_ok(),
            old(self).counts_ok(),
            old(self).decoded_single(),
            old(self).edges_recorded(),
            old(self).queue_ok(),
            var_id < old(self).params.total(),
            old(self).variable_states@[var_id as int] != VarState::Active,
            old(self).unused_active_pending(var_id as int, t),
            0 <= t < old(self).variable_adjacent@[var_id as int]@.len(),
            old(self).variable_adjacent@[var_id as int]@[t] == sub,
            old(self).checks@[sub as int].state == CheckState::Decoded ==> old(self).variable_states@[
                old(self).checks@[sub as int].adjacent@[0] as int] != old(self).variable_states@[var_id as int],
        ensures
            final(self).shape_ok(),
            final(self).counts_ok(),
            final(self).decoded_single(),
            final(self).edges_recorded(),
            final(self).queue_ok(),
            final(self).unused_active_pending(var_id as int, t + 1),
            final(self).same_vars(old(self)),
            final(self).variable_adjacent@ == old(self).variable_adjacent@,
            final(self).inactive_adj_matrix@ == old(self).inactive_adj_matrix@,
            final(self).checks@.len() == old(self).checks@.len(),
            final(self).checks@[sub as int].data_id == old(self).checks@[sub as int].data_id,
            forall|c: int| 0 <= c < final(self).checks@.len() ==> #[trigger] final(self).checks@[c].state == old(self).checks@[c].state,
    {
        let ghost s0 = *self;
        let mut node = CheckNode { data_id: 0, state: CheckState::Unused, adjacent: Vec::new(), degree: 0 };
        std::mem::swap(&mut node, &mut self.checks[sub]);
        node.remove_adjacent(var_id);
        std::mem::swap(&mut node, &mut self.checks[sub]);
        let ghost s1 = *self;
        if self.checks[sub].degree() == 1 {
            self.decodable_checks.push_back(sub);
        }
        proof {
            let n = self.checks@.len() as int;
            let total = self.params.total();
            let old_adj = s0.checks@[sub as int].adjacent@;
            let new_adj = self.checks@[sub as int].adjacent@;
            assert forall|c: int| 0 <= c < n implies #[trigger] self.checks@[c].wf() by {
            }
            assert forall|j: int| 0 <= j < new_adj.len() implies old_adj.contains(#[trigger] new_adj[j]) && new_adj[j]
                != var_id by {
                assert(new_adj.contains(new_adj[j]));
            }
            assert forall|c: int, j: int|
                0 <= c < n && 0 <= j < self.checks@[c].adjacent@.len() implies #[trigger] self.checks@[c].adjacent@[j]
                < total by {
                if c == sub {
                    assert(old_adj.contains(new_adj[j]));
                } else {
                    assert(self.checks@[c] == s0.checks@[c]);
                }
            }
            assert forall|i: int| 0 <= i < self.decodable_checks@.len() implies #[trigger] self.decodable_checks@[i] < n by {
                if i < s0.decodable_checks@.len() {
                    assert(self.decodable_checks@[i] == s0.decodable_checks@[i]);
                }
            }
            assert forall|c: int, j: int|
                0 <= c < n && 0 <= j < self.checks@[c].adjacent@.len() implies self.variable_adjacent@[
                #[trigger] self.checks@[c].adjacent@[j] as int]@.contains(c as usize) by {
                if c == sub {
                    let x = new_adj[j];
                    assert(old_adj.contains(x));
                    let j0 = choose|j0: int| 0 <= j0 < old_adj.len() && old_adj[j0] == x;
                    assert(s0.variable_adjacent@[s0.checks@[c].adjacent@[j0] as int]@.contains(c as usize));
                } else {
                    assert(self.checks@[c] == s0.checks@[c]);
                }
            }
            assert forall|c: int|
                0 <= c < n && #[trigger] self.checks@[c].state == CheckState::Decoded implies {
                &&& self.checks@[c].adjacent@.len() == 1
                &&& self.variable_states@[self.checks@[c].adjacent@[0] as int] == (VarState::Decoded {
                    check_id: c as usize,
                })
            } by {
                if c == sub {
                    let v0 = old_adj[0];
                    assert(old_adj.contains(v0));
                    assert(v0 != var_id);
                    assert(!old_adj.contains(var_id)) by {
                        if old_adj.contains(var_id) {
                            let j0 = choose|j0: int| 0 <= j0 < old_adj.len() && old_adj[j0] == var_id;
                            assert(j0 == 0);
                        }
                    }
                    assert(new_adj.contains(v0));
                    Self::lemma_single(new_adj, v0);
                } else {
                    assert(self.checks@[c] == s0.checks@[c]);
                }
            }
            assert forall|i: int|
                0 <= i < self.decodable_checks@.len() implies self.checks@[#[trigger] self.decodable_checks@[i] as int].adjacent@.len()
                <= 1 by {
                if i < s0.decodable_checks@.len() {
                    assert(self.decodable_checks@[i] == s0.decodable_checks@[i]);
                    let c = s0.decodable_checks@[i] as int;
                    if c != sub {
                        assert(self.checks@[c] == s0.checks@[c]);
                    }
                }
            }
            assert forall|c: int, j: int|
                0 <= c < n && self.checks@[c].state == CheckState::Unused && 0 <= j < self.checks@[c].adjacent@.len()
                implies (self.variable_states@[#[trigger] self.checks@[c].adjacent@[j] as int] == VarState::Active || (
            self.checks@[c].adjacent@[j] == var_id as int && exists|i: int|
                t + 1 <= i < self.variable_adjacent@[var_id as int]@.len() && #[trigger] self.variable_adjacent@[
                var_id as int]@[i] == c)) by {
                if c == sub {
                    let x = new_adj[j];
                    assert(old_adj.contains(x));
                    let j0 = choose|j0: int| 0 <= j0 < old_adj.len() && old_adj[j0] == x;
                    assert(s0.checks@[c].adjacent@[j0] == x);
                } else {
                    assert(self.checks@[c] == s0.checks@[c]);
                    let x = self.checks@[c].adjacent@[j];
                    assert(s0.checks@[c].adjacent@[j] == x);
                    if self.variable_states@[x as int] != VarState::Active {
                        let i = choose|i: int|
                            t <= i < s0.variable_adjacent@[var_id as int]@.len() && #[trigger] s0.variable_adjacent@[
                            var_id as int]@[i] == c;
                        assert(i != t);
                    }
                }
            }
        }
    }

    /// Solves check node `check_id` when it has one neighbour and that
    /// neighbour is active: the variable becomes decoded by the check node,
    /// the check node's vector moves into the variable's, and the variable
    /// is substituted into every other check node adjacent to it (whose rows
    /// take the solving row, and which are queued when one neighbour is
    /// left). A check node without neighbours, or one that already solved
    /// its neighbour, is left as it is.
    fn solve_check(&mut self, manager: &mut DataManager, check_id: usize)
        requires
            old(self).wf(),
            old(manager).wf(),
            old(manager).spec_params() == old(self).params,
            check_id < old(self).checks@.len(),
            old(self).checks@[check_id as int].adjacent@.len() <= 1,
        ensures
            final(self).wf(),
            final(self).params == old(self).params,
            final(self).max_inactive_num == old(self).max_inactive_num,
            final(self).next_inactive_seq == old(self).next_inactive_seq,
            final(self).checks@.len() == old(self).checks@.len(),
            (final(self).num_decoded_vars == old(self).num_decoded_vars + 1 && count_active(final(self).variable_states@)
                + 1 == count_active(old(self).variable_states@)) || *final(self) == *old(self),
            old(self).checks@[check_id as int].adjacent@.len() == 1 && old(self).variable_states@[old(
                self,
            ).checks@[check_id as int].adjacent@[0] as int] == VarState::Active ==> {
                &&& final(self).num_decoded_vars == old(self).num_decoded_vars + 1
                &&& final(self).variable_states@[old(self).checks@[check_id as int].adjacent@[0] as int] == (VarState::Decoded {
                    check_id,
                })
                &&& final(self).checks@[check_id as int].state == CheckState::Decoded
            },
            !(old(self).checks@[check_id as int].adjacent@.len() == 1 && old(self).variable_states@[old(
                self,
            ).checks@[check_id as int].adjacent@[0] as int] == VarState::Active) ==> *final(self) == *old(self)
                && *final(manager) == *old(manager),
            Self::manager_kept(final(manager), old(manager)),
    {
        proof {
            assert(old(self).checks@[check_id as int].wf());
        }
        if self.checks[check_id].degree() == 0 {
            return ;
        }
        let var_id = self.checks[check_id].adjacent[0];
        match self.variable_states[var_id] {
            VarState::Active => {},
            _ => {
                return ;
            },
        }
        let ghost s0 = *self;
        proof {
            lemma_count_active_update(self.variable_states@, var_id as int, VarState::Decoded { check_id });
        }
        self.variable_states.set(var_id, VarState::Decoded { check_id });
        let mut node = CheckNode { data_id: 0, state: CheckState::Unused, adjacent: Vec::new(), degree: 0 };
        std::mem::swap(&mut node, &mut self.checks[check_id]);
        node.state = CheckState::Decoded;
        std::mem::swap(&mut node, &mut self.checks[check_id]);
        self.num_decoded_vars += 1;
        let var_data_id = manager.data_id_of_variable_vector(var_id);
        let check_data_id = self.checks[check_id].data_id;
        manager.move_to(check_data_id, var_data_id);
        let nchecks = self.checks.len();
        proof {
            let n = self.checks@.len() as int;
            let total = self.params.total();
            assert(s0.checks@[check_id as int].adjacent@.len() == 1);
            assert forall|c: int| 0 <= c < n implies #[trigger] self.checks@[c].wf() by {
                assert(s0.checks@[c].wf());
                if c != check_id {
                    assert(self.checks@[c] == s0.checks@[c]);
                }
            }
            assert forall|c: int, j: int|
                0 <= c < n && 0 <= j < self.checks@[c].adjacent@.len() implies #[trigger] self.checks@[c].adjacent@[j]
                < total by {
                assert(self.checks@[c].adjacent@ == s0.checks@[c].adjacent@);
            }
            assert forall|v: int|
                0 <= v < total implies (#[trigger] self.variable_states@[v] matches VarState::Decoded { check_id }
                ==> check_id < n) by {
            }
            assert forall|c: int|
                0 <= c < n && #[trigger] self.checks@[c].state == CheckState::Decoded implies {
                &&& self.checks@[c].adjacent@.len() == 1
                &&& self.variable_states@[self.checks@[c].adjacent@[0] as int] == (VarState::Decoded {
                    check_id: c as usize,
                })
            } by {
                if c != check_id {
                    assert(self.checks@[c] == s0.checks@[c]);
                    assert(s0.variable_states@[s0.checks@[c].adjacent@[0] as int] == (VarState::Decoded {
                        check_id: c as usize,
                    }));
                }
            }
            assert forall|c: int, j: int|
                0 <= c < n && 0 <= j < self.checks@[c].adjacent@.len() implies self.variable_adjacent@[
                #[trigger] self.checks@[c].adjacent@[j] as int]@.contains(c as usize) by {
                assert(self.checks@[c].adjacent@ == s0.checks@[c].adjacent@);
            }
            assert forall|i: int|
                0 <= i < self.decodable_checks@.len() implies self.checks@[#[trigger] self.decodable_checks@[i] as int].adjacent@.len()
                <= 1 by {
                assert(self.checks@[self.decodable_checks@[i] as int].adjacent@ == s0.checks@[s0.decodable_checks@[i] as int].adjacent@);
            }
            assert forall|c: int, j: int|
                0 <= c < n && self.checks@[c].state == CheckState::Unused && 0 <= j < self.checks@[c].adjacent@.len()
                implies (self.variable_states@[#[trigger] self.checks@[c].adjacent@[j] as int] == VarState::Active || (
            self.checks@[c].adjacent@[j] == var_id as int && exists|i: int|
                0 <= i < self.variable_adjacent@[var_id as int]@.len() && #[trigger] self.variable_adjacent@[
                var_id as int]@[i] == c)) by {
                assert(c != check_id);
                assert(self.checks@[c] == s0.checks@[c]);
                let x = s0.checks@[c].adjacent@[j];
                assert(s0.variable_states@[x as int] == VarState::Active);
                assert(s0.variable_adjacent@[x as int]@.contains(c as usize));
                if x == var_id {
                    assert(c < nchecks);
                    let i = choose|i: int| 0 <= i < s0.variable_adjacent@[x as int]@.len()
                        && s0.variable_adjacent@[x as int]@[i] == c as usize;
                    assert(self.variable_adjacent@[var_id as int]@[i] == c);
                }
            }
        }
        let n_adj = self.variable_adjacent[var_id].len();
        let mut t: usize = 0;
        while t < n_adj
            invariant
                self.shape_ok(),
                self.counts_ok(),
                self.decoded_single(),
                self.edges_recorded(),
                self.queue_ok(),
                self.unused_active_pending(var_id as int, t as int),
                self.params == old(self).params,
                self.max_inactive_num == old(self).max_inactive_num,
                self.next_inactive_seq == old(self).next_inactive_seq,
                self.num_decoded_vars == old(self).num_decoded_vars + 1,
                count_active(self.variable_states@) + 1 == count_active(old(self).variable_states@),
                self.checks@.len() == old(self).checks@.len(),
                var_id < self.params.total(),
                check_id < self.checks@.len(),
                self.variable_states@[var_id as int] == (VarState::Decoded { check_id }),
                self.checks@[check_id as int].state == CheckState::Decoded,
                n_adj == self.variable_adjacent@[var_id as int]@.len(),
                t <= n_adj,
                Self::manager_kept(manager, old(manager)),
                manager.spec_params() == self.params,
                var_data_id == manager.var_base() + var_id,
            decreases n_adj - t,
        {
            let sub = self.variable_adjacent[var_id][t];
            if sub != check_id {
                let sub_data = self.checks[sub].data_id;
                let ids = vec![var_data_id];
                manager.add_to_vector(ids.as_slice(), sub_data);
                self.xor_inactive_vars(check_id, sub);
                self.detach(var_id, sub, Ghost(t as int));
            } else {
                proof {
                    assert forall|c: int, j: int|
                        0 <= c < self.checks@.len() && self.checks@[c].state == CheckState::Unused && 0 <= j
                            < self.checks@[c].adjacent@.len() implies (self.variable_states@[
                        #[trigger] self.checks@[c].adjacent@[j] as int] == VarState::Active || (self.checks@[c].adjacent@[j]
                        == var_id as int && exists|i: int|
                        t + 1 <= i < self.variable_adjacent@[var_id as int]@.len() && #[trigger] self.variable_adjacent@[
                        var_id as int]@[i] == c)) by {
                        if self.variable_states@[self.checks@[c].adjacent@[j] as int] != VarState::Active {
                            let i = choose|i: int|
                                t <= i < self.variable_adjacent@[var_id as int]@.len() && #[trigger] self.variable_adjacent@[
                                var_id as int]@[i] == c;
                            assert(i != t);
                        }
                    }
                }
            }
            t += 1;
        }
    }

    /// The variable to inactivate: the first active one, when fewer than
    /// `max_inactive_num` variables are inactive and every message and LDPC
    /// check node has arrived.
    fn next_inactivation(&self) -> (r: Option<usize>)
        requires
            self.wf(),
        ensures
            r matches Some(v) ==> v < self.params.total() && self.variable_states@[v as int] == VarState::Active
                && self.next_inactive_seq + self.params.b + self.params.h < self.max_inactive_num,
            r is None ==> !(self.next_inactive_seq + self.params.b + self.params.h < self.max_inactive_num
                && self.checks@.len() >= self.params.k + self.params.l) || count_active(self.variable_states@) == 0,
    {
        if self.num_inactive() < self.max_inactive_num && self.checks.len() >= self.params.num_message_ldpc() {
            let n = self.variable_states.len();
            let mut i: usize = 0;
            while i < n
                invariant
                    self.wf(),
                    n == self.variable_states@.len(),
                    n == self.params.total(),
                    self.next_inactive_seq + self.params.b + self.params.h < self.max_inactive_num,
                    i <= n,
                    forall|x: int| 0 <= x < i ==> self.variable_states@[x] != VarState::Active,
                decreases n - i,
            {
                if self.variable_states[i] == VarState::Active {
                    return Some(i);
                }
                i += 1;
            }
            proof {
                lemma_count_active_bound(self.variable_states@);
            }
        }
        None
    }

    /// Inactivates the active variable `var_id`: it takes the next dynamic
    /// column, leaves its adjacent check nodes (which set that column and are
    /// queued when one neighbour is left).
    fn inactivate(&mut self, var_id: usize)
        requires
            old(self).wf(),
            var_id < old(self).params.total(),
            old(self).variable_states@[var_id as int] == VarState::Active,
            old(self).next_inactive_seq + old(self).params.b + old(self).params.h < old(self).max_inactive_num,
        ensures
            final(self).wf(),
            final(self).params == old(self).params,
            final(self).max_inactive_num == old(self).max_inactive_num,
            final(self).next_inactive_seq == old(self).next_inactive_seq + 1,
            final(self).num_decoded_vars == old(self).num_decoded_vars,
            final(self).checks@.len() == old(self).checks@.len(),
            count_active(final(self).variable_states@) + 1 == count_active(old(self).variable_states@),
            final(self).variable_states@ == old(self).variable_states@.update(
                var_id as int,
                VarState::Inactive { seq: old(self).next_inactive_seq },
            ),
    {
        let seq = self.next_inactive_seq;
        let ghost s0 = *self;
        proof {
            lemma_count_active_update(self.variable_states@, var_id as int, VarState::Inactive { seq });
        }
        self.variable_states.set(var_id, VarState::Inactive { seq });
        self.next_inactive_seq += 1;
        let nchecks = self.checks.len();
        proof {
            let n = self.checks@.len() as int;
            let total = self.params.total();
            assert forall|v: int|
                0 <= v < total implies (#[trigger] self.variable_states@[v] matches VarState::Inactive { seq }
                ==> seq < self.max_inactive_num) by {
            }
            assert forall|c: int|
                0 <= c < n && #[trigger] self.checks@[c].state == CheckState::Decoded implies {
                &&& self.checks@[c].adjacent@.len() == 1
                &&& self.variable_states@[self.checks@[c].adjacent@[0] as int] == (VarState::Decoded {
                    check_id: c as usize,
                })
            } by {
                assert(s0.variable_states@[s0.checks@[c].adjacent@[0] as int] == (VarState::Decoded {
                    check_id: c as usize,
                }));
            }
            assert forall|c: int, j: int|
                0 <= c < n && self.checks@[c].state == CheckState::Unused && 0 <= j < self.checks@[c].adjacent@.len()
                implies (self.variable_states@[#[trigger] self.checks@[c].adjacent@[j] as int] == VarState::Active || (
            self.checks@[c].adjacent@[j] == var_id as int && exists|i: int|
                0 <= i < self.variable_adjacent@[var_id as int]@.len() && #[trigger] self.variable_adjacent@[
                var_id as int]@[i] == c)) by {
                let x = s0.checks@[c].adjacent@[j];
                assert(s0.variable_states@[x as int] == VarState::Active);
                assert(s0.variable_adjacent@[x as int]@.contains(c as usize));
                if x == var_id {
                    assert(c < nchecks);
                    let i = choose|i: int| 0 <= i < s0.variable_adjacent@[x as int]@.len()
                        && s0.variable_adjacent@[x as int]@[i] == c as usize;
                    assert(self.variable_adjacent@[var_id as int]@[i] == c);
                }
            }
        }
        let n_adj = self.variable_adjacent[var_id].len();
        let mut t: usize = 0;
        while t < n_adj
            invariant
                self.shape_ok(),
                self.counts_ok(),
                self.decoded_single(),
                self.edges_recorded(),
                self.queue_ok(),
                self.unused_active_pending(var_id as int, t as int),
                self.params == old(self).params,
                self.max_inactive_num == old(self).max_inactive_num,
                self.next_inactive_seq == old(self).next_inactive_seq + 1,
                self.num_decoded_vars == old(self).num_decoded_vars,
                self.variable_states@ == old(self).variable_states@.update(
                    var_id as int,
                    VarState::Inactive { seq: old(self).next_inactive_seq },
                ),
                count_active(self.variable_states@) + 1 == count_active(old(self).variable_states@),
                self.checks@.len() == old(self).checks@.len(),
                var_id < self.params.total(),
                var_id < old(self).variable_states@.len(),
                n_adj == self.variable_adjacent@[var_id as int]@.len(),
                t <= n_adj,
            decreases n_adj - t,
        {
            let sub = self.variable_adjacent[var_id][t];
            self.detach(var_id, sub, Ghost(t as int));
            self.add_edge_inactive(var_id, sub);
            t += 1;
        }
    }

    /// Runs belief propagation: solves queued check nodes while there are
    /// any, otherwise inactivates the first active variable (while fewer
    /// than `max_inactive_num` are inactive and the `k + l` message and LDPC
    /// check nodes have arrived), until neither applies. Returns the number
    /// of decoded variables.
    pub fn run(&mut self, manager: &mut DataManager) -> (r: usize)
        requires
            old(self).wf(),
            old(manager).wf(),
            old(manager).spec_params() == old(self).spec_params(),
        ensures
            final(self).wf(),
            r == final(self).decoded(),
            final(self).queue().len() == 0,
            final(self).decoded() + final(self).inactive() == final(self).total() || final(self).inactive()
                >= final(self).max_inactive() || final(self).num_checks() < final(self).spec_params().k
                + final(self).spec_params().l,
            final(self).decoded() >= old(self).decoded(),
            final(self).next_seq() >= old(self).next_seq(),
            final(self).spec_params() == old(self).spec_params(),
            final(self).max_inactive() == old(self).max_inactive(),
            final(self).num_checks() == old(self).num_checks(),
            Self::manager_kept(final(manager), old(manager)),
    {
        loop
            invariant
                self.wf(),
                self.params == old(self).params,
                self.max_inactive_num == old(self).max_inactive_num,
                self.checks@.len() == old(self).checks@.len(),
                self.num_decoded_vars >= old(self).num_decoded_vars,
                self.next_inactive_seq >= old(self).next_inactive_seq,
                Self::manager_kept(manager, old(manager)),
                manager.spec_params() == self.params,
            ensures
                self.wf(),
                self.params == old(self).params,
                self.max_inactive_num == old(self).max_inactive_num,
                self.checks@.len() == old(self).checks@.len(),
                self.num_decoded_vars >= old(self).num_decoded_vars,
                self.next_inactive_seq >= old(self).next_inactive_seq,
                Self::manager_kept(manager, old(manager)),
                self.decodable_checks@.len() == 0,
                !(self.next_inactive_seq + self.params.b + self.params.h < self.max_inactive_num
                    && self.checks@.len() >= self.params.k + self.params.l) || count_active(self.variable_states@) == 0,
            decreases count_active(self.variable_states@), self.decodable_checks@.len(),
        {
            let ghost before = *self;
            match self.next_decodable() {
                Some(check_id) => {
                    assert(before.checks@[before.decodable_checks@[0] as int].adjacent@.len() <= 1);
                    self.solve_check(manager, check_id);
                },
                None => {
                    match self.next_inactivation() {
                        Some(var_id) => {
                            self.inactivate(var_id);
                        },
                        None => {
                            break ;
                        },
                    }
                },
            }
        }
        self.num_decoded_vars
    }

    /// Consecutive indices of the columns `i < n` that hold a one in `row`.
    pub open spec fn ones_consecutive(&self, row: Seq<u8>, n: int) -> Seq<usize>
        decreases n,
    {
        if n <= 0 {
            seq![]
        } else {
            self.ones_consecutive(row, n - 1) + (if row[n - 1] == 1u8 {
                seq![self.consecutive(n - 1) as usize]
            } else {
                seq![]
            })
        }
    }

    /// Row of check node `c` restricted to the columns in use: the dynamic
    /// columns `0..next_seq`, then the pre-inactive ones.
    pub open spec fn used_row(&self, c: int) -> Seq<u8> {
        self.row(c).subrange(0, self.next_seq()) + self.row(c).subrange(self.pre_base(), self.max_inactive())
    }

    /// The unused check nodes among the first `n`, each as its used row and data ID.
    pub open spec fn unused_checks(&self, n: int) -> Seq<(Seq<u8>, usize)>
        decreases n,
    {
        if n <= 0 {
            seq![]
        } else {
            self.unused_checks(n - 1) + (if self.check_state(n - 1) == CheckState::Unused {
                seq![(self.used_row(n - 1), self.check_data(n - 1))]
            } else {
                seq![]
            })
        }
    }

    /// The variables solved by the check nodes among the first `n` whose row
    /// has a one in column `seq`.
    pub open spec fn column_vars(&self, seq: int, n: int) -> Seq<usize>
        decreases n,
    {
        if n <= 0 {
            seq![]
        } else {
            self.column_vars(seq, n - 1) + (if self.row(n - 1)[seq] == 1u8 && self.check_state(n - 1)
                == CheckState::Decoded {
                seq![self.check_adj(n - 1)[0]]
            } else {
                seq![]
            })
        }
    }

    /// The inactive variables among the first `n`, each with its consecutive
    /// column and the variables whose solving rows have a one in its column.
    pub open spec fn inactive_vars(&self, n: int) -> Seq<(usize, usize, Seq<usize>)>
        decreases n,
    {
        if n <= 0 {
            seq![]
        } else {
            self.inactive_vars(n - 1) + (match self.states()[n - 1] {
                VarState::Inactive { seq } => seq![
                    ((n - 1) as usize, self.consecutive(seq as int) as usize, self.column_vars(seq as int, self.num_checks())),
                ],
                _ => seq![],
            })
        }
    }

    /// Consecutive index of inactive column `seq`.
    fn inactive_seq_to_consecutive(&self, seq: usize) -> (r: usize)
        requires
            self.wf(),
            seq < self.max_inactive(),
        ensures
            r == self.consecutive(seq as int),
    {
        let pre_base = self.max_inactive_num - self.params.num_inactive();
        if seq < pre_base {
            seq
        } else {
            seq - pre_base + self.next_inactive_seq
        }
    }

    /// For a decoded or inactive variable: the consecutive inactive columns
    /// of its row of `G~` (its own column when inactive, the ones of its
    /// solving row when decoded).
    pub fn indices_tilde_g_row(&self, var_id: usize) -> (r: Vec<usize>)
        requires
            self.wf(),
            var_id < self.total(),
            self.states()[var_id as int] != VarState::Active,
        ensures
            r@ == (match self.states()[var_id as int] {
                VarState::Inactive { seq } => seq![self.consecutive(seq as int) as usize],
                VarState::Decoded { check_id } => self.ones_consecutive(self.row(check_id as int), self.max_inactive()),
                VarState::Active => seq![],
            }),
    {
        let mut indices: Vec<usize> = Vec::with_capacity(self.num_inactive());
        match self.variable_states[var_id] {
            VarState::Inactive { seq } => {
                indices.push(self.inactive_seq_to_consecutive(seq));
                assert(indices@ =~= seq![self.consecutive(seq as int) as usize]);
            },
            VarState::Decoded { check_id } => {
                let n = self.max_inactive_num;
                let mut i: usize = 0;
                while i < n
                    invariant
                        self.wf(),
                        check_id < self.checks@.len(),
                        n == self.max_inactive_num,
                        i <= n,
                        indices@ == self.ones_consecutive(self.row(check_id as int), i as int),
                    decreases n - i,
                {
                    if self.inactive_adj_matrix[check_id][i] == 1 {
                        indices.push(self.inactive_seq_to_consecutive(i));
                    }
                    i += 1;
                }
            },
            VarState::Active => {},
        }
        indices
    }

    /// The row of check node `check_id` restricted to the columns in use.
    pub fn inactive_adj_matrix_row(&self, check_id: usize) -> (r: Vec<u8>)
        requires
            self.wf(),
            check_id < self.num_checks(),
        ensures
            r@ == self.used_row(check_id as int),
    {
        let row = &self.inactive_adj_matrix[check_id];
        let pre_base = self.max_inactive_num - self.params.num_inactive();
        let mut filtered: Vec<u8> = Vec::with_capacity(self.num_inactive());
        let mut i: usize = 0;
        while i < self.next_inactive_seq
            invariant
                self.wf(),
                row@ == self.row(check_id as int),
                check_id < self.checks@.len(),
                i <= self.next_inactive_seq,
                filtered@ == row@.subrange(0, i as int),
            decreases self.next_inactive_seq - i,
        {
            filtered.push(row[i]);
            assert(filtered@ =~= row@.subrange(0, i + 1));
            i += 1;
        }
        let mut i: usize = pre_base;
        while i < self.max_inactive_num
            invariant
                self.wf(),
                row@ == self.row(check_id as int),
                check_id < self.checks@.len(),
                pre_base == self.pre_base(),
                pre_base <= i <= self.max_inactive_num,
                filtered@ == row@.subrange(0, self.next_seq()) + row@.subrange(pre_base as int, i as int),
            decreases self.max_inactive_num - i,
        {
            filtered.push(row[i]);
            assert(filtered@ =~= row@.subrange(0, self.next_seq()) + row@.subrange(pre_base as int, i + 1));
            i += 1;
        }
        filtered
    }

    /// The unused check nodes, each as its row restricted to the columns in
    /// use and its data ID, in check node order.
    pub fn iter_unused_check(&mut self) -> (r: Vec<(Vec<u8>, usize)>)
        requires
            old(self).wf(),
        ensures
            *final(self) == *old(self),
            r@.map_values(|p: (Vec<u8>, usize)| (p.0@, p.1)) == old(self).unused_checks(old(self).num_checks()),
    {
        let mut out: Vec<(Vec<u8>, usize)> = Vec::new();
        let n = self.checks.len();
        let mut i: usize = 0;
        while i < n
            invariant
                self.wf(),
                *self == *old(self),
                n == self.checks@.len(),
                i <= n,
                out@.map_values(|p: (Vec<u8>, usize)| (p.0@, p.1)) == self.unused_checks(i as int),
            decreases n - i,
        {
            if self.checks[i].state == CheckState::Unused {
                let row = self.inactive_adj_matrix_row(i);
                let ghost prev = out@;
                out.push((row, self.checks[i].data_id));
                assert(out@.map_values(|p: (Vec<u8>, usize)| (p.0@, p.1)) =~= prev.map_values(
                    |p: (Vec<u8>, usize)| (p.0@, p.1),
                ).push((self.used_row(i as int), self.check_data(i as int))));
            } else {
                assert(self.unused_checks(i + 1) =~= self.unused_checks(i as int));
            }
            i += 1;
        }
        out
    }

    /// For inactive column `seq`: the variables solved by the check nodes
    /// whose row has a one in that column, in check node order.
    fn var_indices_inactive_adj_column(&self, seq: usize) -> (r: Vec<usize>)
        requires
            self.wf(),
            seq < self.max_inactive(),
        ensures
            r@ == self.column_vars(seq as int, self.num_checks()),
    {
        let n = self.inactive_adj_matrix.len();
        let mut indices: Vec<usize> = Vec::with_capacity(self.checks.len());
        let mut i: usize = 0;
        while i < n
            invariant
                self.wf(),
                seq < self.max_inactive(),
                n == self.checks@.len(),
                i <= n,
                indices@ == self.column_vars(seq as int, i as int),
            decreases n - i,
        {
            if self.inactive_adj_matrix[i][seq] == 1 && self.checks[i].state == CheckState::Decoded {
                let var_id = self.checks[i].adjacent[0];
                indices.push(var_id);
            }
            i += 1;
        }
        indices
    }

    /// The inactive variables in variable order, each with its consecutive
    /// column and the variables whose solving rows have a one in its column.
    pub fn iter_inactive_var(&self) -> (r: Vec<(usize, usize, Vec<usize>)>)
        requires
            self.wf(),
        ensures
            r@.map_values(|t: (usize, usize, Vec<usize>)| (t.0, t.1, t.2@)) == self.inactive_vars(self.total()),
    {
        let mut out: Vec<(usize, usize, Vec<usize>)> = Vec::new();
        let n = self.variable_states.len();
        let mut i: usize = 0;
        while i < n
            invariant
                self.wf(),
                n == self.total(),
                i <= n,
                out@.map_values(|t: (usize, usize, Vec<usize>)| (t.0, t.1, t.2@)) == self.inactive_vars(i as int),
            decreases n - i,
        {
            match self.variable_states[i] {
                VarState::Inactive { seq } => {
                    let idx = self.var_indices_inactive_adj_column(seq);
                    let seq_out = self.inactive_seq_to_consecutive(seq);
                    let ghost prev = out@;
                    out.push((i, seq_out, idx));
                    assert(out@.map_values(|t: (usize, usize, Vec<usize>)| (t.0, t.1, t.2@)) =~= prev.map_values(
                        |t: (usize, usize, Vec<usize>)| (t.0, t.1, t.2@),
                    ).push((i, seq_out, idx@)));
                },
                _ => {
                    assert(self.inactive_vars(i + 1) =~= self.inactive_vars(i as int));
                },
            }
            i += 1;
        }
        out
    }

    /// The used rows of the unused check nodes have one entry per inactive variable.
    pub proof fn lemma_unused_checks_rows(&self, n: int)
        requires
            self.wf(),
            0 <= n <= self.num_checks(),
        ensures
            forall|i: int| 0 <= i < self.unused_checks(n).len() ==> (#[trigger] self.unused_checks(n)[i]).0.len()
                == self.inactive(),
        decreases n,
    {
        if n > 0 {
            self.lemma_unused_checks_rows(n - 1);
            let prev = self.unused_checks(n - 1);
            assert(self.row(n - 1).len() == self.max_inactive());
            assert forall|i: int| 0 <= i < self.unused_checks(n).len() implies (#[trigger] self.unused_checks(n)[i]).0.len()
                == self.inactive() by {
                if i < prev.len() {
                    assert(self.unused_checks(n)[i] == prev[i]);
                }
            }
        }
    }

    /// The variables listed for an inactive column are variables of the graph.
    pub proof fn lemma_column_vars_bounds(&self, seq: int, n: int)
        requires
            self.wf(),
            0 <= n <= self.num_checks(),
        ensures
            forall|i: int| 0 <= i < self.column_vars(seq, n).len() ==> #[trigger] self.column_vars(seq, n)[i] < self.total(),
        decreases n,
    {
        if n > 0 {
            self.lemma_column_vars_bounds(seq, n - 1);
            let prev = self.column_vars(seq, n - 1);
            assert forall|i: int| 0 <= i < self.column_vars(seq, n).len() implies #[trigger] self.column_vars(seq, n)[i]
                < self.total() by {
                if i < prev.len() {
                    assert(self.column_vars(seq, n)[i] == prev[i]);
                } else {
                    assert(self.checks@[n - 1].adjacent@[0] < self.total());
                }
            }
        }
    }

    /// Each entry of [`Self::inactive_vars`] names a variable, a consecutive
    /// column below the number of inactive variables, and variables of the graph.
    pub proof fn lemma_inactive_vars_bounds(&self, n: int)
        requires
            self.wf(),
            0 <= n <= self.total(),
        ensures
            forall|i: int|
                0 <= i < self.inactive_vars(n).len() ==> {
                    let t = #[trigger] self.inactive_vars(n)[i];
                    &&& t.0 < self.total()
                    &&& t.1 < self.inactive()
                    &&& forall|x: int| 0 <= x < t.2.len() ==> #[trigger] t.2[x] < self.total()
                },
        decreases n,
    {
        if n > 0 {
            self.lemma_inactive_vars_bounds(n - 1);
            let prev = self.inactive_vars(n - 1);
            match self.states()[n - 1] {
                VarState::Inactive { seq } => {
                    self.lemma_column_vars_bounds(seq as int, self.num_checks());
                    self.lemma_wf();
                    assert(0 <= self.consecutive(seq as int) < self.inactive());
                },
                _ => {},
            }
            assert forall|i: int|
                0 <= i < self.inactive_vars(n).len() implies {
                let t = #[trigger] self.inactive_vars(n)[i];
                &&& t.0 < self.total()
                &&& t.1 < self.inactive()
                &&& forall|x: int| 0 <= x < t.2.len() ==> #[trigger] t.2[x] < self.total()
            } by {
                if i < prev.len() {
                    assert(self.inactive_vars(n)[i] == prev[i]);
                }
            }
        }
    }
}

/// With no active variable counted, no variable is active.
pub proof fn lemma_count_active_zero(s: Seq<VarState>)
    requires
        count_active(s) == 0,
    ensures
        forall|v: int| 0 <= v < s.len() ==> #[trigger] s[v] != VarState::Active,
    decreases s.len(),
{
    if s.len() > 0 {
        lemma_count_active_zero(s.drop_last());
        assert forall|v: int| 0 <= v < s.len() implies #[trigger] s[v] != VarState::Active by {
            if v < s.len() - 1 {
                assert(s[v] == s.drop_last()[v]);
            }
        }
    }
}

} // verus!
