//! Lightweight Tanner graph for trial BP decoding.
//!
//! Contains only active variable nodes and check nodes (unused equations of
//! degree two). Used to run trial BP without inactive coefficients, e.g. to
//! count the variables that BP solves once a given variable is inactivated.
use vstd::prelude::*;
use std::collections::HashMap;

verus! {

broadcast use vstd::std_specs::hash::group_hash_axioms;

/// Total length of a list of lists.
pub open spec fn adj_total(s: Seq<Vec<usize>>) -> nat
    decreases s.len(),
{
    if s.len() == 0 {
        0
    } else {
        adj_total(s.drop_last()) + s.last()@.len()
    }
}

/// Replacing one list changes the total by the difference of the lengths.
pub proof fn lemma_adj_total_update(s: Seq<Vec<usize>>, i: int, v: Vec<usize>)
    requires
        0 <= i < s.len(),
    ensures
        adj_total(s.update(i, v)) == adj_total(s) - s[i]@.len() + v@.len(),
        s[i]@.len() <= adj_total(s),
    decreases s.len(),
{
    let t = s.update(i, v);
    if i == s.len() - 1 {
        assert(t.drop_last() =~= s.drop_last());
    } else {
        assert(t.drop_last() =~= s.drop_last().update(i, v));
        lemma_adj_total_update(s.drop_last(), i, v);
    }
}

/// Every item of every list is below `n`.
pub open spec fn lists_below(s: Seq<Vec<usize>>, n: int) -> bool {
    forall|i: int, t: int| 0 <= i < s.len() && 0 <= t < s[i]@.len() ==> #[trigger] s[i]@[t] < n
}

/// The local index of global variable `g` among `vars`: its last position,
/// `None` when it is not there.
pub open spec fn local_of(vars: Seq<usize>, g: usize) -> Option<usize>
    decreases vars.len(),
{
    if vars.len() == 0 {
        None
    } else if vars.last() == g {
        Some((vars.len() - 1) as usize)
    } else {
        local_of(vars.drop_last(), g)
    }
}

/// The local indices of the global variables of `eq` that are among
/// `vars`, in order (the others left out).
pub open spec fn locals(vars: Seq<usize>, eq: Seq<usize>) -> Seq<usize>
    decreases eq.len(),
{
    if eq.len() == 0 {
        seq![]
    } else {
        locals(vars, eq.drop_last()) + match local_of(vars, eq.last()) {
            Some(l) => seq![l],
            None => seq![],
        }
    }
}

/// How often `x` occurs in `s`.
pub open spec fn occurrences(s: Seq<usize>, x: usize) -> nat
    decreases s.len(),
{
    if s.len() == 0 {
        0
    } else {
        occurrences(s.drop_last(), x) + (if s.last() == x {
            1nat
        } else {
            0nat
        })
    }
}

/// Tanner graph over active variables and unused equations only. Variable
/// indices inside the graph are local (`0..number of active variables`);
/// `active_var_ids` maps them to the master system's variable IDs.
pub struct TannerGraphDegree2 {
    /// Global variable IDs; index = local index.
    active_var_ids: Vec<usize>,
    /// For each check, its adjacent local variables.
    check_adjacent: Vec<Vec<usize>>,
    /// For each local variable, its adjacent checks.
    var_adjacent: Vec<Vec<usize>>,
}

impl TannerGraphDegree2 {
    /// Global IDs of the local variables.
    pub closed spec fn vars(&self) -> Seq<usize> {
        self.active_var_ids@
    }

    /// Number of checks.
    pub closed spec fn checks(&self) -> int {
        self.check_adjacent@.len() as int
    }

    /// The local variables of check `c`.
    pub closed spec fn check_vars(&self, c: int) -> Seq<usize> {
        self.check_adjacent@[c]@
    }

    /// The checks of local variable `v`.
    pub closed spec fn var_checks(&self, v: int) -> Seq<usize> {
        self.var_adjacent@[v]@
    }

    /// Number of check edges of local variable `v`.
    pub closed spec fn var_degree(&self, v: int) -> nat {
        self.var_adjacent@[v]@.len()
    }

    /// Number of check edges of all variables.
    pub closed spec fn edges(&self) -> nat {
        adj_total(self.var_adjacent@)
    }

    /// Local variable `v` is in some check.
    pub closed spec fn has_checks(&self, v: int) -> bool {
        self.var_adjacent@[v]@.len() > 0
    }

    /// Adjacency lists point inside the graph.
    pub closed spec fn wf(&self) -> bool {
        &&& self.var_adjacent@.len() == self.active_var_ids@.len()
        &&& lists_below(self.check_adjacent@, self.active_var_ids@.len() as int)
        &&& lists_below(self.var_adjacent@, self.check_adjacent@.len() as int)
    }

    /// Builds the graph of the active variables `active_var_ids` (global IDs)
    /// and the checks `equations` (each a list of global IDs; IDs that are not
    /// among the active variables are left out).
    pub fn from_active_and_equations(active_var_ids: &[usize], equations: &[Vec<usize>]) -> (r: Self)
        ensures
            r.wf(),
            r.vars() == active_var_ids@,
            r.checks() == equations@.len(),
            forall|c: int| 0 <= c < equations@.len() ==> #[trigger] r.check_vars(c) == locals(active_var_ids@, equations@[c]@),
            forall|v: int, c: usize|
                0 <= v < active_var_ids@.len() ==> #[trigger] occurrences(r.var_checks(v), c) == (if c
                    < equations@.len() {
                    occurrences(r.check_vars(c as int), v as usize)
                } else {
                    0
                }),
    {
        let n_var = active_var_ids.len();
        let mut global_to_local: HashMap<usize, usize> = HashMap::new();
        let mut i: usize = 0;
        while i < n_var
            invariant
                n_var == active_var_ids@.len(),
                i <= n_var,
                forall|g: usize| #[trigger] global_to_local@.contains_key(g) ==> global_to_local@[g] < n_var,
                forall|g: usize|
                    #[trigger] local_of(active_var_ids@.take(i as int), g) == (if global_to_local@.contains_key(g) {
                        Some(global_to_local@[g])
                    } else {
                        None
                    }),
            decreases n_var - i,
        {
            let ghost before = global_to_local@;
            global_to_local.insert(active_var_ids[i], i);
            proof {
                assert forall|g: usize| #[trigger] local_of(active_var_ids@.take(i + 1), g) == (if global_to_local@.contains_key(g) {
                    Some(global_to_local@[g])
                } else {
                    None
                }) by {
                    assert(active_var_ids@.take(i + 1).drop_last() =~= active_var_ids@.take(i as int));
                    assert(local_of(active_var_ids@.take(i as int), g) == (if before.contains_key(g) {
                        Some(before[g])
                    } else {
                        None
                    }));
                }
            }
            i += 1;
        }
        assert(active_var_ids@.take(n_var as int) =~= active_var_ids@);
        let mut var_adjacent: Vec<Vec<usize>> = Vec::with_capacity(n_var);
        let mut v: usize = 0;
        while v < n_var
            invariant
                v <= n_var,
                var_adjacent@.len() == v,
                forall|x: int| 0 <= x < v ==> (#[trigger] var_adjacent@[x])@.len() == 0,
            decreases n_var - v,
        {
            var_adjacent.push(Vec::new());
            v += 1;
        }
        let mut check_adjacent: Vec<Vec<usize>> = Vec::with_capacity(equations.len());
        let mut c: usize = 0;
        while c < equations.len()
            invariant
                c <= equations@.len(),
                check_adjacent@.len() == c,
                lists_below(check_adjacent@, n_var as int),
                forall|g: usize| #[trigger] global_to_local@.contains_key(g) ==> global_to_local@[g] < n_var,
                forall|g: usize|
                    #[trigger] local_of(active_var_ids@, g) == (if global_to_local@.contains_key(g) {
                        Some(global_to_local@[g])
                    } else {
                        None
                    }),
                forall|x: int| 0 <= x < c ==> #[trigger] check_adjacent@[x]@ == locals(active_var_ids@, equations@[x]@),
            decreases equations@.len() - c,
        {
            let eq_vars = &equations[c];
            let mut local_ids: Vec<usize> = Vec::new();
            let mut t: usize = 0;
            while t < eq_vars.len()
                invariant
                    t <= eq_vars@.len(),
                    forall|x: int| 0 <= x < local_ids@.len() ==> #[trigger] local_ids@[x] < n_var,
                    forall|g: usize| #[trigger] global_to_local@.contains_key(g) ==> global_to_local@[g] < n_var,
                    forall|g: usize|
                        #[trigger] local_of(active_var_ids@, g) == (if global_to_local@.contains_key(g) {
                            Some(global_to_local@[g])
                        } else {
                            None
                        }),
                    local_ids@ == locals(active_var_ids@, eq_vars@.take(t as int)),
                decreases eq_vars@.len() - t,
            {
                proof {
                    assert(eq_vars@.take(t + 1).drop_last() =~= eq_vars@.take(t as int));
                    assert(local_of(active_var_ids@, eq_vars@[t as int]) == (if global_to_local@.contains_key(eq_vars@[t as int]) {
                        Some(global_to_local@[eq_vars@[t as int]])
                    } else {
                        None
                    }));
                }
                match global_to_local.get(&eq_vars[t]) {
                    Some(l) => {
                        local_ids.push(*l);
                    },
                    None => {},
                }
                proof {
                    assert(local_ids@ =~= locals(active_var_ids@, eq_vars@.take(t + 1)));
                }
                t += 1;
            }
            assert(eq_vars@.take(eq_vars@.len() as int) =~= eq_vars@);
            let ghost before = check_adjacent@;
            check_adjacent.push(local_ids);
            assert forall|x: int, y: int|
                0 <= x < check_adjacent@.len() && 0 <= y < check_adjacent@[x]@.len() implies #[trigger] check_adjacent@[x]@[y]
                < n_var by {
                if x < before.len() {
                    assert(check_adjacent@[x] == before[x]);
                }
            }
            c += 1;
        }
        let n_check = check_adjacent.len();
        let mut c: usize = 0;
        while c < n_check
            invariant
                n_check == check_adjacent@.len(),
                c <= n_check,
                var_adjacent@.len() == n_var,
                lists_below(check_adjacent@, n_var as int),
                lists_below(var_adjacent@, n_check as int),
                forall|v: int, x: usize|
                    0 <= v < n_var ==> #[trigger] occurrences(var_adjacent@[v]@, x) == (if x < c {
                        occurrences(check_adjacent@[x as int]@, v as usize)
                    } else {
                        0
                    }),
            decreases n_check - c,
        {
            let m = check_adjacent[c].len();
            let mut t: usize = 0;
            while t < m
                invariant
                    n_check == check_adjacent@.len(),
                    c < n_check,
                    m == check_adjacent@[c as int]@.len(),
                    t <= m,
                    var_adjacent@.len() == n_var,
                    lists_below(check_adjacent@, n_var as int),
                    lists_below(var_adjacent@, n_check as int),
                    forall|v: int, x: usize|
                        0 <= v < n_var ==> #[trigger] occurrences(var_adjacent@[v]@, x) == (if x < c {
                            occurrences(check_adjacent@[x as int]@, v as usize)
                        } else if x == c {
                            occurrences(check_adjacent@[c as int]@.take(t as int), v as usize)
                        } else {
                            0
                        }),
                decreases m - t,
            {
                let v_local = check_adjacent[c][t];
                assert(check_adjacent@[c as int]@[t as int] < n_var);
                let ghost pre = var_adjacent@;
                let mut list: Vec<usize> = Vec::new();
                std::mem::swap(&mut list, &mut var_adjacent[v_local]);
                let ghost before = var_adjacent@;
                let ghost old_list = list@;
                list.push(c);
                var_adjacent.set(v_local, list);
                assert forall|x: int, y: int|
                    0 <= x < var_adjacent@.len() && 0 <= y < var_adjacent@[x]@.len() implies #[trigger] var_adjacent@[x]@[y]
                    < n_check by {
                    if x != v_local {
                        assert(var_adjacent@[x] == before[x]);
                    } else if y < old_list.len() {
                        assert(var_adjacent@[x]@[y] == old_list[y]);
                    }
                }
                proof {
                    let row = check_adjacent@[c as int]@;
                    assert(row.take(t + 1).drop_last() =~= row.take(t as int));
                    assert forall|v: int, x: usize| 0 <= v < n_var implies #[trigger] occurrences(var_adjacent@[v]@, x) == (
                    if x < c {
                        occurrences(check_adjacent@[x as int]@, v as usize)
                    } else if x == c {
                        occurrences(row.take(t + 1), v as usize)
                    } else {
                        0
                    }) by {
                        assert(occurrences(pre[v]@, x) == (if x < c {
                            occurrences(check_adjacent@[x as int]@, v as usize)
                        } else if x == c {
                            occurrences(row.take(t as int), v as usize)
                        } else {
                            0
                        }));
                        assert(occurrences(row.take(t + 1), v as usize) == occurrences(row.take(t as int), v as usize) + (
                        if row.take(t + 1).last() == v as usize {
                            1nat
                        } else {
                            0nat
                        }));
                        if v == v_local {
                            assert(var_adjacent@[v]@.drop_last() =~= old_list);
                            assert(occurrences(var_adjacent@[v]@, x) == occurrences(old_list, x) + (if c == x {
                                1nat
                            } else {
                                0nat
                            }));
                            assert(old_list == pre[v]@);
                            assert(row.take(t + 1).last() == v_local);
                        } else {
                            assert(var_adjacent@[v] == before[v]);
                            assert(before[v] == pre[v]);
                            assert(row.take(t + 1).last() != v as usize);
                        }
                    }
                }
                t += 1;
            }
            proof {
                assert(check_adjacent@[c as int]@.take(m as int) =~= check_adjacent@[c as int]@);
            }
            c += 1;
        }
        TannerGraphDegree2 { active_var_ids: vstd::slice::slice_to_vec(active_var_ids), check_adjacent, var_adjacent }
    }

    /// Removes `var_local` (solved or inactivated) from the graph and peels:
    /// every check left with a single variable solves that variable, which is
    /// removed in turn. Returns the number of variables removed this way,
    /// counting `var_local` (saturating).
    fn remove_variable(&mut self, var_local: usize) -> (r: usize)
        requires
            old(self).wf(),
            var_local < old(self).vars().len(),
        ensures
            final(self).wf(),
            final(self).vars() == old(self).vars(),
            final(self).checks() == old(self).checks(),
            adj_total(final(self).var_adjacent@) + old(self).var_adjacent@[var_local as int]@.len() <= adj_total(
                old(self).var_adjacent@,
            ),
            !final(self).has_checks(var_local as int),
            forall|v: int|
                0 <= v < old(self).var_adjacent@.len() ==> #[trigger] final(self).var_adjacent@[v]@.len() == 0
                    || final(self).var_adjacent@[v] == old(self).var_adjacent@[v],
            r >= 1,
        decreases adj_total(old(self).var_adjacent@),
    {
        let mut solved: usize = 1;
        let mut var_adj: Vec<usize> = Vec::new();
        std::mem::swap(&mut var_adj, &mut self.var_adjacent[var_local]);
        proof {
            assert(self.var_adjacent@ =~= old(self).var_adjacent@.update(
                var_local as int,
                self.var_adjacent@[var_local as int],
            ));
            assert(var_adj == old(self).var_adjacent@[var_local as int]);
            lemma_adj_total_update(old(self).var_adjacent@, var_local as int, self.var_adjacent@[var_local as int]);
            assert(lists_below(self.var_adjacent@, self.check_adjacent@.len() as int)) by {
                assert forall|x: int, y: int|
                    0 <= x < self.var_adjacent@.len() && 0 <= y < self.var_adjacent@[x]@.len() implies #[trigger] self.var_adjacent@[x]@[y]
                    < self.check_adjacent@.len() by {
                    assert(x != var_local);
                    assert(self.var_adjacent@[x] == old(self).var_adjacent@[x]);
                }
            }
            assert(forall|y: int| 0 <= y < var_adj@.len() ==> #[trigger] var_adj@[y] == old(self).var_adjacent@[var_local as int]@[y]);
        }
        let n = var_adj.len();
        let mut i: usize = 0;
        while i < n
            invariant
                self.wf(),
                self.vars() == old(self).vars(),
                self.checks() == old(self).checks(),
                n == var_adj@.len(),
                i <= n,
                forall|y: int| 0 <= y < n ==> #[trigger] var_adj@[y] < self.check_adjacent@.len(),
                adj_total(self.var_adjacent@) + n <= adj_total(old(self).var_adjacent@),
                self.var_adjacent@[var_local as int]@.len() == 0,
                self.var_adjacent@.len() == old(self).var_adjacent@.len(),
                var_local < self.var_adjacent@.len(),
                forall|v: int|
                    0 <= v < old(self).var_adjacent@.len() ==> #[trigger] self.var_adjacent@[v]@.len() == 0
                        || self.var_adjacent@[v] == old(self).var_adjacent@[v],
                solved >= 1,
            decreases n - i,
        {
            let c = var_adj[i];
            let mut list: Vec<usize> = Vec::new();
            std::mem::swap(&mut list, &mut self.check_adjacent[c]);
            let ghost before = self.check_adjacent@;
            let ghost l0 = list@;
            let m = list.len();
            let mut p: usize = 0;
            let mut found = false;
            while p < m && !found
                invariant
                    m == list@.len(),
                    list@ == l0,
                    p <= m,
                    found ==> p < m,
                decreases m - p + (if found { 0int } else { 1int }),
            {
                if list[p] == var_local {
                    found = true;
                } else {
                    p += 1;
                }
            }
            if found {
                let last = list[m - 1];
                list.set(p, last);
                list.pop();
            }
            proof {
                assert forall|y: int| 0 <= y < list@.len() implies #[trigger] list@[y] < self.active_var_ids@.len() by {
                    if found && y == p {
                        assert(list@[y] == l0[m - 1]);
                    } else {
                        assert(list@[y] == l0[y]);
                    }
                }
            }
            let single = list.len() == 1;
            let other = if single {
                list[0]
            } else {
                0
            };
            self.check_adjacent.set(c, list);
            proof {
                assert forall|x: int, y: int|
                    0 <= x < self.check_adjacent@.len() && 0 <= y < self.check_adjacent@[x]@.len() implies #[trigger] self.check_adjacent@[x]@[y]
                    < self.active_var_ids@.len() by {
                    if x != c {
                        assert(self.check_adjacent@[x] == before[x]);
                    }
                }
            }
            if single {
                let ghost mid = *self;
                let more = self.remove_variable(other);
                proof {
                    assert(mid.var_adjacent@.len() == old(self).var_adjacent@.len());
                    assert(self.var_adjacent@[var_local as int]@.len() == 0 || self.var_adjacent@[var_local as int]
                        == mid.var_adjacent@[var_local as int]);
                    assert forall|v: int| 0 <= v < old(self).var_adjacent@.len() implies #[trigger] self.var_adjacent@[v]@.len()
                        == 0 || self.var_adjacent@[v] == old(self).var_adjacent@[v] by {
                        assert(mid.var_adjacent@[v]@.len() == 0 || mid.var_adjacent@[v] == old(self).var_adjacent@[v]);
                        assert(self.var_adjacent@[v]@.len() == 0 || self.var_adjacent@[v] == mid.var_adjacent@[v]);
                    }
                }
                solved = solved.saturating_add(more);
            }
            i += 1;
        }
        solved
    }

    /// Runs BP with local variable `var_local` inactivated until no check of
    /// degree one remains; returns the number of variables removed (peeled),
    /// counting `var_local`. The graph is changed: `var_local` leaves all its
    /// checks, and the edges removed number at least its degree.
    pub fn run_bp_with_inactivation(&mut self, var_local: usize) -> (r: usize)
        requires
            old(self).wf(),
            var_local < old(self).vars().len(),
        ensures
            final(self).wf(),
            final(self).vars() == old(self).vars(),
            final(self).checks() == old(self).checks(),
            !final(self).has_checks(var_local as int),
            final(self).edges() + old(self).var_degree(var_local as int) <= old(self).edges(),
            forall|v: int| 0 <= v < old(self).vars().len() && #[trigger] final(self).has_checks(v) ==> old(self).has_checks(v),
            r >= 1,
    {
        self.remove_variable(var_local)
    }

    /// Trial runs: for each local variable that still has a check, in order,
    /// runs BP with it inactivated (on the graph as the earlier runs left it)
    /// and returns the global ID of the first one that peeled the most, or
    /// `None` when no variable has a check.
    pub fn best_inactivation_by_trial_run(&mut self) -> (r: Option<usize>)
        requires
            old(self).wf(),
        ensures
            final(self).wf(),
            final(self).vars() == old(self).vars(),
            r matches Some(v) ==> old(self).vars().contains(v),
            r matches Some(g) ==> exists|u: int|
                0 <= u < old(self).vars().len() && #[trigger] old(self).has_checks(u) && old(self).vars()[u] == g,
            r is Some <==> exists|v: int| 0 <= v < old(self).vars().len() && old(self).has_checks(v),
    {
        let mut best_var_id: Option<usize> = None;
        let mut best_count: usize = 0;
        let num_vars = self.var_adjacent.len();
        let mut v_local: usize = 0;
        while v_local < num_vars
            invariant
                self.wf(),
                self.vars() == old(self).vars(),
                num_vars == self.vars().len(),
                v_local <= num_vars,
                best_var_id matches Some(v) ==> old(self).vars().contains(v),
                forall|v: int| 0 <= v < old(self).vars().len() && #[trigger] self.has_checks(v) ==> old(self).has_checks(v),
                best_var_id matches Some(g) ==> exists|u: int|
                    0 <= u < old(self).vars().len() && #[trigger] old(self).has_checks(u) && old(self).vars()[u] == g,
                best_var_id is None ==> *self == *old(self) && best_count == 0,
                best_var_id is None ==> forall|u: int| 0 <= u < v_local ==> !#[trigger] old(self).has_checks(u),
                best_var_id is Some ==> exists|v: int| 0 <= v < old(self).vars().len() && old(self).has_checks(v),
            decreases num_vars - v_local,
        {
            if self.var_adjacent[v_local].len() > 0 {
                proof {
                    assert(self.has_checks(v_local as int));
                    assert(old(self).has_checks(v_local as int));
                    if best_var_id is None {
                        assert(old(self).has_checks(v_local as int));
                    }
                }
                let count = self.run_bp_with_inactivation(v_local);
                if count > best_count {
                    best_count = count;
                    best_var_id = Some(self.active_var_ids[v_local]);
                    assert(old(self).vars()[v_local as int] == self.active_var_ids@[v_local as int]);
                    assert(old(self).has_checks(v_local as int));
                }
            }
            v_local += 1;
        }
        best_var_id
    }

    /// Number of checks.
    pub fn size(&self) -> (r: usize)
        ensures
            r == self.checks(),
    {
        self.check_adjacent.len()
    }
}

} // verus!
