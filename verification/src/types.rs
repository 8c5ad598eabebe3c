use vstd::prelude::*;

verus! {

/// Maximum number of inactive vectors allowed in the system.
pub const MAX_INACTIVE_NUM: usize = 100;

/// Sentinel primitive polynomial selecting a GF(2)-only session.
///
/// It is not a real degree-8 polynomial: a manager configured with it has no
/// GF(256) tables, elimination uses XOR only, and only trivial scalars may be
/// requested.
pub const GF2_FIELD_POLY: u16 = 0x001u16;

/// Generator of degree sets: maps a coded symbol index to the variable indices
/// that are combined into that coded symbol.
pub trait DegreeSet {
    /// Variable indices (active and inactive) of coded symbol `symbol`.
    fn degree_set(&mut self, symbol: usize) -> Vec<usize>;
}

/// Boxed degree set generator, as handed out by a code scheme, with the
/// record of the symbols asked for and the degree sets handed back.
pub struct DegreeSetFn(pub Box<dyn DegreeSet>, pub Ghost<Seq<(usize, Seq<usize>)>>);

impl DegreeSetFn {
    /// The symbols asked for so far, in order, each with the degree set
    /// the generator handed back.
    pub open spec fn queries(&self) -> Seq<(usize, Seq<usize>)> {
        self.1@
    }

    /// Wraps a degree set generator, with nothing asked yet.
    pub fn new(f: Box<dyn DegreeSet>) -> (r: Self)
        ensures
            r == DegreeSetFn(f, Ghost(Seq::<(usize, Seq<usize>)>::empty())),
    {
        DegreeSetFn(f, Ghost(Seq::empty()))
    }

    /// Variable indices of coded symbol `symbol`, recorded with the symbol.
    pub fn degree_set(&mut self, symbol: usize) -> (r: Vec<usize>)
        ensures
            final(self).queries() == old(self).queries().push((symbol, r@)),
    {
        let r = self.0.degree_set(symbol);
        proof {
            self.1 = Ghost(self.1@.push((symbol, r@)));
        }
        r
    }
}

/// Distinguishes between systematic and ordinary fountain codes.
#[derive(Copy, Clone, Debug, PartialEq, Eq, Structural)]
pub enum CodeType {
    /// Ordinary (non-systematic) encoding and decoding.
    Ordinary,
    /// Systematic encoding and decoding, where source symbols appear unmodified in the output.
    Systematic,
}

/// Identifies which solver configuration to use based on code type and direction.
#[derive(Copy, Clone, Debug, PartialEq, Eq, Structural)]
pub enum SolverType {
    /// Ordinary encoding solver.
    OrdEnc,
    /// Ordinary decoding solver.
    OrdDec,
    /// Systematic encoding solver.
    SysEnc,
    /// Systematic decoding solver.
    SysDec,
}

/// Strategy for selecting which variable to inactivate during BP decoding.
#[derive(Copy, Clone, Debug, PartialEq, Eq, Structural)]
pub enum InactivationStrategy {
    /// Inactivate by original variable index order.
    ByIndex,
    /// Inactivate the first remaining active variable.
    FirstActive,
    /// Inactivate the last remaining active variable.
    LastActive,
    /// Inactivate the variable with minimum remaining degree.
    MinDegree,
    /// Use a trial-run heuristic to choose the best inactivation.
    TrailRun,
}

/// Method used for back-substitution after Gaussian elimination.
#[derive(Copy, Clone, Debug, PartialEq, Eq, Structural)]
pub enum SubstitutionMethod {
    /// Solve directly using the GE-reduced matrix.
    Direct,
    /// Solve using the original constraint matrix.
    Original,
}

/// Result of the decoding process.
#[derive(Copy, Clone, Debug, PartialEq, Eq, Structural)]
pub enum DecodeStatus {
    /// All source vectors have been successfully recovered.
    Decoded,
    /// Decoding is not yet complete.
    NotDecoded,
}

/// Decoding configuration.
#[derive(Clone, Copy, Debug)]
pub struct DecodingConfig {
    /// Cap on the number of inactive variables.
    pub max_inactive_num: usize,
    /// Which active variable is inactivated when BP stalls.
    pub inac_strategy: InactivationStrategy,
    /// How decoded variables are recovered after Gaussian elimination.
    pub subs_method: SubstitutionMethod,
}

impl Default for DecodingConfig {
    fn default() -> (r: Self)
        ensures
            r.max_inactive_num == 0,
            r.inac_strategy == InactivationStrategy::ByIndex,
            r.subs_method == SubstitutionMethod::Direct,
    {
        DecodingConfig {
            max_inactive_num: 0,
            inac_strategy: InactivationStrategy::ByIndex,
            subs_method: SubstitutionMethod::Direct,
        }
    }
}

impl DecodingConfig {
    /// Returns the configuration with `max_inactive_num` replaced.
    pub fn with_max_inact_num(self, max_inactive_num: usize) -> (r: Self)
        ensures
            r.max_inactive_num == max_inactive_num,
            r.inac_strategy == self.inac_strategy,
            r.subs_method == self.subs_method,
    {
        let mut c = self;
        c.max_inactive_num = max_inactive_num;
        c
    }
}

/// Parameters defining the structure of a fountain code.
///
/// Specifies the number of message, active, inactive, LDPC, and HDPC vectors
/// that together determine the code's parity-check matrix layout.
#[derive(Clone, Copy, Debug)]
pub struct CodeParams {
    /// Total number of message vectors.
    pub k: usize,
    /// Number of active message vectors (decoded via BP).
    pub a: usize,
    /// Number of inactive message vectors (decoded via GE), equal to `k - a`.
    pub b: usize,
    /// Number of LDPC (Low-Density Parity-Check) constraint vectors.
    pub l: usize,
    /// Number of HDPC (High-Density Parity-Check) constraint vectors.
    pub h: usize,
    /// Number of pre-inactive variable vectors.
    pub i: usize,
}

impl CodeParams {
    /// Consistent parameters: the message vectors split into `a` active and `b`
    /// inactive ones, and every data vector identifier derived from the layout
    /// (at most `k + k + l + h`) fits in a `usize`.
    pub open spec fn wf(self) -> bool {
        &&& self.a + self.b == self.k
        &&& self.k + self.k + self.l + self.h < usize::MAX
    }

    /// `k + l + h`, the number of variable vectors.
    pub open spec fn total(self) -> int {
        self.k + self.l + self.h
    }

    /// Runtime check of [`Self::wf`].
    pub fn is_wf(&self) -> (r: bool)
        ensures
            r == self.wf(),
    {
        if self.a > self.k || self.b != self.k - self.a {
            return false;
        }
        match self.k.checked_add(self.k) {
            None => false,
            Some(s1) => match s1.checked_add(self.l) {
                None => false,
                Some(s2) => match s2.checked_add(self.h) {
                    None => false,
                    Some(s3) => s3 < usize::MAX,
                },
            },
        }
    }

    /// Creates new code parameters with pre-inactivation:
    /// `b` is computed as `k - a` and `i` as `b + h`.
    pub fn new(k: usize, a: usize, l: usize, h: usize) -> (r: Self)
        requires
            a <= k,
            k - a + h <= usize::MAX,
        ensures
            r.k == k,
            r.a == a,
            r.b == k - a,
            r.l == l,
            r.h == h,
            r.i == k - a + h,
    {
        let b = k - a;
        let i = b + h;
        CodeParams { k, a, b, l, h, i }
    }

    /// Creates new code parameters without pre-inactivation (`a == k`, `b == i == 0`).
    pub fn new_without_pre_inact(k: usize, l: usize, h: usize) -> (r: Self)
        ensures
            r.k == k,
            r.a == k,
            r.b == 0,
            r.l == l,
            r.h == h,
            r.i == 0,
    {
        CodeParams { k, a: k, b: 0, l, h, i: 0 }
    }

    /// Returns the number of active variable vectors (`a + l`).
    pub fn num_active(&self) -> (r: usize)
        requires
            self.a + self.l <= usize::MAX,
        ensures
            r == self.a + self.l,
    {
        self.a + self.l
    }

    /// Returns the number of pre-inactive variable vectors (`i`).
    pub fn num_pre_inactive(&self) -> (r: usize)
        ensures
            r == self.i,
    {
        self.i
    }

    /// Returns the number of inactive variable vectors (`b + h`).
    pub fn num_inactive(&self) -> (r: usize)
        requires
            self.b + self.h <= usize::MAX,
        ensures
            r == self.b + self.h,
    {
        self.b + self.h
    }

    /// Returns the combined count of message and LDPC vectors (`k + l`).
    pub fn num_message_ldpc(&self) -> (r: usize)
        requires
            self.k + self.l <= usize::MAX,
        ensures
            r == self.k + self.l,
    {
        self.k + self.l
    }

    /// Returns the total number of variable vectors (`k + l + h`).
    pub fn num_total(&self) -> (r: usize)
        requires
            self.k + self.l + self.h <= usize::MAX,
        ensures
            r == self.k + self.l + self.h,
    {
        self.k + self.l + self.h
    }

    /// Whether the code has any precode constraints.
    pub fn has_precode(&self) -> (r: bool)
        ensures
            r == (self.l > 0 || self.h > 0),
    {
        self.l > 0 || self.h > 0
    }

    /// Returns the number of message vectors (`k`).
    pub fn num_message(&self) -> (r: usize)
        ensures
            r == self.k,
    {
        self.k
    }
}

/// Data vector operations that can be recorded for delayed execution.
///
/// Each variant is a single atomic operation on data vectors identified by
/// their unique IDs.
#[derive(Debug, Clone)]
pub enum Operation {
    /// Zero out the vectors with the given IDs.
    EnsureZero { list_id: Vec<usize> },
    /// Zero out a single vector.
    EnsureZeroOne { id: usize },
    /// Multiply a vector element-wise by the primitive element alpha in GF(256).
    MultiplyAlpha { id: usize },
    /// Multiply a vector element-wise by a GF(256) scalar.
    MultiplyScalar { scalar: u8, id: usize },
    /// XOR one source vector into a target.
    AddOneToVector { src_id: usize, target_id: usize },
    /// XOR two source vectors into a target.
    AddTwoToVector { s0: usize, s1: usize, target_id: usize },
    /// XOR three source vectors into a target.
    AddThreeToVector { s0: usize, s1: usize, s2: usize, target_id: usize },
    /// XOR multiple source vectors into a target vector.
    AddToVector { list_id: Vec<usize>, target_id: usize },
    /// XOR a single source vector into each of several target vectors.
    BroadcastAdd { src_id: usize, target_ids: Vec<usize> },
    /// `target += scalar * src`.
    MulAdd { src_id: usize, scalar: u8, target_id: usize },
    /// Move a vector from `src_id` to `target_id`, invalidating the source.
    MoveTo { src_id: usize, target_id: usize },
    /// Copy a vector from `src_id` to `target_id`, keeping the source intact.
    CopyTo { src_id: usize, target_id: usize },
    /// Remove (deallocate) a vector.
    Remove { id: usize },
    /// Informational marker associating a coded vector ID with its data vector ID.
    InfoCodedVector { coded_id: usize, data_id: usize },
}

/// Mathematical value of an [`Operation`]: the same variant, with each list
/// of identifiers taken as a sequence.
pub ghost enum OpView {
    EnsureZero { list_id: Seq<usize> },
    EnsureZeroOne { id: usize },
    MultiplyAlpha { id: usize },
    MultiplyScalar { scalar: u8, id: usize },
    AddOneToVector { src_id: usize, target_id: usize },
    AddTwoToVector { s0: usize, s1: usize, target_id: usize },
    AddThreeToVector { s0: usize, s1: usize, s2: usize, target_id: usize },
    AddToVector { list_id: Seq<usize>, target_id: usize },
    BroadcastAdd { src_id: usize, target_ids: Seq<usize> },
    MulAdd { src_id: usize, scalar: u8, target_id: usize },
    MoveTo { src_id: usize, target_id: usize },
    CopyTo { src_id: usize, target_id: usize },
    Remove { id: usize },
    InfoCodedVector { coded_id: usize, data_id: usize },
}

impl View for Operation {
    type V = OpView;

    open spec fn view(&self) -> OpView {
        match *self {
            Operation::EnsureZero { list_id } => OpView::EnsureZero { list_id: list_id@ },
            Operation::EnsureZeroOne { id } => OpView::EnsureZeroOne { id },
            Operation::MultiplyAlpha { id } => OpView::MultiplyAlpha { id },
            Operation::MultiplyScalar { scalar, id } => OpView::MultiplyScalar { scalar, id },
            Operation::AddOneToVector { src_id, target_id } => OpView::AddOneToVector { src_id, target_id },
            Operation::AddTwoToVector { s0, s1, target_id } => OpView::AddTwoToVector { s0, s1, target_id },
            Operation::AddThreeToVector { s0, s1, s2, target_id } => OpView::AddThreeToVector {
                s0,
                s1,
                s2,
                target_id,
            },
            Operation::AddToVector { list_id, target_id } => OpView::AddToVector { list_id: list_id@, target_id },
            Operation::BroadcastAdd { src_id, target_ids } => OpView::BroadcastAdd {
                src_id,
                target_ids: target_ids@,
            },
            Operation::MulAdd { src_id, scalar, target_id } => OpView::MulAdd { src_id, scalar, target_id },
            Operation::MoveTo { src_id, target_id } => OpView::MoveTo { src_id, target_id },
            Operation::CopyTo { src_id, target_id } => OpView::CopyTo { src_id, target_id },
            Operation::Remove { id } => OpView::Remove { id },
            Operation::InfoCodedVector { coded_id, data_id } => OpView::InfoCodedVector { coded_id, data_id },
        }
    }
}

impl Operation {
    /// A copy of this operation with the same value.
    pub fn duplicate(&self) -> (r: Operation)
        ensures
            r@ == self@,
    {
        match self {
            Operation::EnsureZero { list_id } => Operation::EnsureZero {
                list_id: vstd::slice::slice_to_vec(list_id.as_slice()),
            },
            Operation::EnsureZeroOne { id } => Operation::EnsureZeroOne { id: *id },
            Operation::MultiplyAlpha { id } => Operation::MultiplyAlpha { id: *id },
            Operation::MultiplyScalar { scalar, id } => Operation::MultiplyScalar { scalar: *scalar, id: *id },
            Operation::AddOneToVector { src_id, target_id } => Operation::AddOneToVector {
                src_id: *src_id,
                target_id: *target_id,
            },
            Operation::AddTwoToVector { s0, s1, target_id } => Operation::AddTwoToVector {
                s0: *s0,
                s1: *s1,
                target_id: *target_id,
            },
            Operation::AddThreeToVector { s0, s1, s2, target_id } => Operation::AddThreeToVector {
                s0: *s0,
                s1: *s1,
                s2: *s2,
                target_id: *target_id,
            },
            Operation::AddToVector { list_id, target_id } => Operation::AddToVector {
                list_id: vstd::slice::slice_to_vec(list_id.as_slice()),
                target_id: *target_id,
            },
            Operation::BroadcastAdd { src_id, target_ids } => Operation::BroadcastAdd {
                src_id: *src_id,
                target_ids: vstd::slice::slice_to_vec(target_ids.as_slice()),
            },
            Operation::MulAdd { src_id, scalar, target_id } => Operation::MulAdd {
                src_id: *src_id,
                scalar: *scalar,
                target_id: *target_id,
            },
            Operation::MoveTo { src_id, target_id } => Operation::MoveTo { src_id: *src_id, target_id: *target_id },
            Operation::CopyTo { src_id, target_id } => Operation::CopyTo { src_id: *src_id, target_id: *target_id },
            Operation::Remove { id } => Operation::Remove { id: *id },
            Operation::InfoCodedVector { coded_id, data_id } => Operation::InfoCodedVector {
                coded_id: *coded_id,
                data_id: *data_id,
            },
        }
    }
}

} // verus!
