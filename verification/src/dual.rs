//! The dual number type: a scalar together with first-order partial
//! derivatives with respect to a named, ordered set of labels.
//!
//! Scalars are IEEE-754 binary64 bit patterns (see `fbits`).  The derivative
//! vector is positionally aligned to the label set, and binary operations
//! first reconcile the two operands onto a common set.
use vstd::prelude::*;
use std::sync::Arc;
use crate::fbits::{ZERO_BITS, ONE_BITS, is_nan_bits, f_eq, neg_of, abs_of};
use crate::scalar::{add_bits, sub_bits, mul_bits, div_bits, bits_add, bits_sub, bits_mul, bits_div};
use crate::shared::{arc_ptr_eq, arc_clone};
use crate::varset::{VariableSet, unique_labels, subset_labels, union_of};
use crate::varset::{lemma_unique_index, lemma_union_unique, lemma_union_contains, lemma_union_subset};

verus! {

/// The failures of this library.
#[derive(Clone, Copy, Debug, PartialEq, Eq, Structural)]
pub enum DualError {
    /// Derivatives neither empty nor as long as the labels, or a repeated label.
    ConstructionError,
    /// Logarithm of a non-positive value, or a fractional power of one.
    DomainError,
    /// A power with a modulus argument.
    UnsupportedOperation,
    /// A pivot column with no non-zero magnitude left.
    SingularMatrixError,
}

/// The mathematical content of a dual number: scalar bits, labels, and the
/// derivative bits aligned to the labels.
#[verifier::ext_equal]
pub struct DualView {
    pub real: u64,
    pub vars: Seq<Seq<char>>,
    pub dual: Seq<u64>,
}

/// The derivative vector is aligned to the labels, which are distinct.
pub open spec fn wf_view(d: DualView) -> bool {
    unique_labels(d.vars) && d.dual.len() == d.vars.len()
}

/// The derivative of `d` with respect to label `v`: zero when `d` does not
/// track `v`.
pub open spec fn deriv_of(d: DualView, v: Seq<char>) -> u64 {
    if d.vars.contains(v) {
        d.dual[d.vars.index_of(v)]
    } else {
        ZERO_BITS
    }
}

/// `d` rewritten onto the label sequence `c`, zero-filled where `c` holds a
/// label that `d` does not track.
pub open spec fn aligned_to(d: DualView, c: Seq<Seq<char>>) -> DualView {
    DualView { real: d.real, vars: c, dual: Seq::new(c.len(), |i: int| deriv_of(d, c[i])) }
}

/// The common label sequence two operands are reconciled onto: the first
/// operand's set when it covers the second, the second's when it covers the
/// first, else the ordered union.
pub open spec fn combined_vars(a: Seq<Seq<char>>, b: Seq<Seq<char>>) -> Seq<Seq<char>> {
    if subset_labels(b, a) {
        a
    } else if subset_labels(a, b) {
        b
    } else {
        union_of(a, b)
    }
}

/// A dual holding a bare scalar: no labels, no derivatives.
pub open spec fn const_dual(x: u64) -> DualView {
    DualView { real: x, vars: Seq::empty(), dual: Seq::empty() }
}

/// Equality of dual numbers: equal scalar values and, label by label, equal
/// derivative values (zero for an untracked label).
pub open spec fn dual_eq_spec(a: DualView, b: DualView) -> bool {
    f_eq(a.real, b.real) && forall|v: Seq<char>| #[trigger] f_eq(deriv_of(a, v), deriv_of(b, v))
}

/// Neither the scalar nor any derivative is a NaN pattern.
pub open spec fn no_nan_dual(d: DualView) -> bool {
    !is_nan_bits(d.real) && forall|i: int| 0 <= i < d.dual.len() ==> !is_nan_bits(#[trigger] d.dual[i])
}

/// The two duals hold the same scalar bits and, for every label, the same
/// derivative bits.
pub open spec fn same_value(a: DualView, b: DualView) -> bool {
    a.real == b.real && forall|v: Seq<char>| #[trigger] deriv_of(a, v) == deriv_of(b, v)
}

/// The result of adding two duals, after reconciliation.
pub open spec fn spec_add(a: DualView, b: DualView) -> DualView {
    let c = combined_vars(a.vars, b.vars);
    DualView {
        real: add_bits(a.real, b.real),
        vars: c,
        dual: Seq::new(c.len(), |i: int| add_bits(deriv_of(a, c[i]), deriv_of(b, c[i]))),
    }
}

/// The result of subtracting two duals, after reconciliation.
pub open spec fn spec_sub(a: DualView, b: DualView) -> DualView {
    let c = combined_vars(a.vars, b.vars);
    DualView {
        real: sub_bits(a.real, b.real),
        vars: c,
        dual: Seq::new(c.len(), |i: int| sub_bits(deriv_of(a, c[i]), deriv_of(b, c[i]))),
    }
}

/// The result of multiplying two duals, after reconciliation: the product
/// rule, positionally.
pub open spec fn spec_mul(a: DualView, b: DualView) -> DualView {
    let c = combined_vars(a.vars, b.vars);
    DualView {
        real: mul_bits(a.real, b.real),
        vars: c,
        dual: Seq::new(
            c.len(),
            |i: int| add_bits(mul_bits(deriv_of(a, c[i]), b.real), mul_bits(deriv_of(b, c[i]), a.real)),
        ),
    }
}

/// Rewriting a well-formed dual onto its own label sequence changes nothing.
pub proof fn lemma_aligned_self(d: DualView)
    requires
        wf_view(d),
    ensures
        aligned_to(d, d.vars) == d,
{
    assert forall|i: int| 0 <= i < d.vars.len() implies deriv_of(d, d.vars[i]) == d.dual[i] by {
        lemma_unique_index(d.vars, i);
    }
    assert(aligned_to(d, d.vars) =~= d);
}

/// Both operands' labels occur in their combined label sequence, which is
/// unique, and it holds no other labels.
pub proof fn lemma_combined_vars(a: Seq<Seq<char>>, b: Seq<Seq<char>>)
    requires
        unique_labels(a),
        unique_labels(b),
    ensures
        unique_labels(combined_vars(a, b)),
        subset_labels(a, combined_vars(a, b)),
        subset_labels(b, combined_vars(a, b)),
        forall|v: Seq<char>|
            #[trigger] combined_vars(a, b).contains(v) <==> (a.contains(v) || b.contains(v)),
{
    let c = combined_vars(a, b);
    if subset_labels(b, a) {
        assert(forall|i: int| 0 <= i < a.len() ==> a.contains(a[i]));
    } else if subset_labels(a, b) {
        assert(forall|i: int| 0 <= i < b.len() ==> b.contains(b[i]));
    } else {
        lemma_union_unique(a, b);
        assert forall|v: Seq<char>| #[trigger] c.contains(v) <==> (a.contains(v) || b.contains(v)) by {
            lemma_union_contains(a, b, v);
        }
        assert forall|i: int| 0 <= i < a.len() implies c.contains(a[i]) by {
            lemma_union_contains(a, b, a[i]);
            assert(a.contains(a[i]));
        }
        assert forall|i: int| 0 <= i < b.len() implies c.contains(b[i]) by {
            lemma_union_contains(a, b, b[i]);
            assert(b.contains(b[i]));
        }
    }
}

/// A dual number: a scalar and its first-order derivatives with respect to
/// a shared, ordered, deduplicated set of labels.
#[derive(Debug)]
pub struct Dual {
    real: u64,
    vars: Arc<VariableSet>,
    dual: Vec<u64>,
}

impl View for Dual {
    type V = DualView;

    closed spec fn view(&self) -> DualView {
        DualView { real: self.real, vars: self.vars@, dual: self.dual@ }
    }
}

impl Clone for Dual {
    /// The clone holds the same value and shares the label set.
    fn clone(&self) -> (res: Dual)
        ensures
            res@ == self@,
    {
        let res = Dual { real: self.real, vars: arc_clone(&self.vars), dual: self.dual.clone() };
        proof {
            assert(res.dual@ =~= self.dual@);
            assert(res@ =~= self@);
        }
        res
    }
}

impl Dual {
    /// The derivative vector is aligned to the labels, which are distinct.
    pub open spec fn wf(&self) -> bool {
        wf_view(self@)
    }

    /// Builds a dual from a scalar, labels, and derivatives.
    ///
    /// Empty derivatives seed every label with unit sensitivity; otherwise
    /// their number must match the labels'.  A repeated label or a length
    /// mismatch is a `ConstructionError`.
    pub fn new(real_val: u64, vars: Vec<String>, dual: Vec<u64>) -> (r: Result<Dual, DualError>)
        ensures
            r.is_ok() <==> (unique_labels(vars.deep_view()) && (dual@.len() == 0 || dual@.len()
                == vars@.len())),
            match r {
                Ok(d) => {
                    &&& d.wf()
                    &&& d@.vars == vars.deep_view()
                    &&& d@.real == real_val
                    &&& d@.dual == (if dual@.len() == 0 {
                        Seq::new(vars@.len() as nat, |i: int| ONE_BITS)
                    } else {
                        dual@
                    })
                },
                Err(e) => e == DualError::ConstructionError,
            },
    {
        if dual.len() != 0 && vars.len() != dual.len() {
            return Err(DualError::ConstructionError);
        }
        let n = vars.len();
        let needs_seed = dual.len() == 0;
        match VariableSet::from_labels(vars) {
            None => Err(DualError::ConstructionError),
            Some(vs) => {
                if needs_seed {
                    let mut seeded: Vec<u64> = Vec::new();
                    for i in 0..n
                        invariant
                            seeded@.len() == i,
                            forall|k: int| 0 <= k < i ==> seeded@[k] == ONE_BITS,
                    {
                        seeded.push(ONE_BITS);
                    }
                    proof {
                        assert(seeded@ =~= Seq::new(n as nat, |i: int| ONE_BITS));
                    }
                    Ok(Dual { real: real_val, vars: Arc::new(vs), dual: seeded })
                } else {
                    Ok(Dual { real: real_val, vars: Arc::new(vs), dual })
                }
            },
        }
    }

    /// The scalar part.
    pub fn real_part(&self) -> (r: u64)
        ensures
            r == self@.real,
    {
        self.real
    }

    /// The tracked labels, in order.
    pub fn vars(&self) -> (r: &Vec<String>)
        ensures
            r.deep_view() == self@.vars,
    {
        self.vars.labels()
    }

    /// The derivatives, aligned to `vars`.
    pub fn dual(&self) -> (r: &Vec<u64>)
        ensures
            r@ == self@.dual,
    {
        &self.dual
    }

    /// Whether the two duals share one label-set allocation.  Sharing
    /// implies equal label sequences; distinct allocations imply nothing.
    pub fn arc_check(&self, other: &Dual) -> (r: bool)
        ensures
            r ==> self@.vars == other@.vars,
    {
        arc_ptr_eq(&self.vars, &other.vars)
    }

    /// The derivatives aligned to a caller-supplied label sequence: zero for
    /// a label this dual does not track; labels tracked here but absent from
    /// the query are dropped.
    pub fn gradient(&self, vars: &Vec<String>) -> (r: Vec<u64>)
        requires
            self.wf(),
        ensures
            r@.len() == vars@.len(),
            forall|i: int| 0 <= i < vars@.len() ==> r@[i] == deriv_of(self@, vars.deep_view()[i]),
            forall|i: int|
                0 <= i < vars@.len() && !self@.vars.contains(vars.deep_view()[i]) ==> r@[i]
                    == ZERO_BITS,
    {
        let n = vars.len();
        let mut out: Vec<u64> = Vec::new();
        for i in 0..n
            invariant
                n == vars@.len(),
                out@.len() == i,
                self.wf(),
                forall|k: int| 0 <= k < i ==> out@[k] == deriv_of(self@, vars.deep_view()[k]),
        {
            match self.vars.get_index_of(&vars[i]) {
                Some(j) => {
                    proof {
                        lemma_unique_index(self@.vars, j as int);
                        assert(vars.deep_view()[i as int] == vars@[i as int]@);
                    }
                    out.push(self.dual[j]);
                },
                None => {
                    proof {
                        assert(vars.deep_view()[i as int] == vars@[i as int]@);
                    }
                    out.push(ZERO_BITS);
                },
            }
        }
        out
    }

    /// Rewrites this dual onto a new label set by the zero-fill rule.
    pub fn to_new_vars(&self, new_vars: &Arc<VariableSet>) -> (r: Dual)
        requires
            self.wf(),
            unique_labels(new_vars@),
        ensures
            r@ == aligned_to(self@, new_vars@),
            r.wf(),
    {
        let n = new_vars.len();
        let mut dual: Vec<u64> = Vec::new();
        for i in 0..n
            invariant
                n == new_vars@.len(),
                dual@.len() == i,
                self.wf(),
                forall|k: int| 0 <= k < i ==> dual@[k] == deriv_of(self@, new_vars@[k]),
        {
            match self.vars.get_index_of(new_vars.label_at(i)) {
                Some(j) => {
                    proof {
                        lemma_unique_index(self@.vars, j as int);
                    }
                    dual.push(self.dual[j]);
                },
                None => {
                    dual.push(ZERO_BITS);
                },
            }
        }
        let r = Dual { real: self.real, vars: arc_clone(new_vars), dual };
        proof {
            assert(r@ =~= aligned_to(self@, new_vars@));
        }
        r
    }

    /// Rewrites onto a new label set, but only copies derivatives when the
    /// label order actually differs; an identically ordered set is adopted
    /// by reference.
    pub fn to_new_ordered_vars(&self, new_vars: &Arc<VariableSet>) -> (r: Dual)
        requires
            self.wf(),
            unique_labels(new_vars@),
        ensures
            r@ == aligned_to(self@, new_vars@),
            r.wf(),
    {
        if self.vars.same_order(new_vars) {
            let r = Dual { real: self.real, vars: arc_clone(new_vars), dual: self.dual.clone() };
            proof {
                lemma_aligned_self(self@);
                assert(r.dual@ =~= self.dual@);
                assert(r@ =~= aligned_to(self@, new_vars@));
            }
            r
        } else {
            self.to_new_vars(new_vars)
        }
    }

    /// Reconciles two duals onto their combined label set: both results
    /// carry the same labels, with zero-filled derivatives for labels an
    /// operand did not track.
    pub fn to_combined_vars(&self, other: &Dual) -> (r: (Dual, Dual))
        requires
            self.wf(),
            other.wf(),
        ensures
            r.0@ == aligned_to(self@, combined_vars(self@.vars, other@.vars)),
            r.1@ == aligned_to(other@, combined_vars(self@.vars, other@.vars)),
            r.0.wf(),
            r.1.wf(),
    {
        if arc_ptr_eq(&self.vars, &other.vars) {
            proof {
                lemma_aligned_self(self@);
                lemma_aligned_self(other@);
                assert(subset_labels(other@.vars, self@.vars)) by {
                    assert(forall|i: int|
                        0 <= i < other@.vars.len() ==> other@.vars.contains(other@.vars[i]));
                }
            }
            (self.clone(), other.clone())
        } else if other.vars.is_subset_of(&self.vars) {
            proof {
                lemma_aligned_self(self@);
            }
            (self.clone(), other.to_new_ordered_vars(&self.vars))
        } else if self.vars.is_subset_of(&other.vars) {
            proof {
                lemma_aligned_self(other@);
            }
            (self.to_new_ordered_vars(&other.vars), other.clone())
        } else {
            self.to_combined_vars_explicit(other)
        }
    }

    /// Reconciles two duals onto the explicit ordered union of their label
    /// sets.
    pub fn to_combined_vars_explicit(&self, other: &Dual) -> (r: (Dual, Dual))
        requires
            self.wf(),
            other.wf(),
        ensures
            r.0@ == aligned_to(self@, union_of(self@.vars, other@.vars)),
            r.1@ == aligned_to(other@, union_of(self@.vars, other@.vars)),
            r.0.wf(),
            r.1.wf(),
    {
        let comb = Arc::new(self.vars.union(&other.vars));
        (self.to_new_vars(&comb), other.to_new_vars(&comb))
    }
}


/// A zero pattern is not a NaN pattern.
pub proof fn lemma_zero_not_nan()
    ensures
        !is_nan_bits(ZERO_BITS),
{
    assert(0u64 & 0x7FF0_0000_0000_0000u64 == 0) by (bit_vector);
}

/// In a dual free of NaN patterns, every label's derivative is free of them.
pub proof fn lemma_deriv_no_nan(d: DualView, v: Seq<char>)
    requires
        no_nan_dual(d),
        wf_view(d),
    ensures
        !is_nan_bits(deriv_of(d, v)),
{
    lemma_zero_not_nan();
    if d.vars.contains(v) {
        let i = d.vars.index_of(v);
        assert(0 <= i < d.vars.len() && d.vars[i] == v) by {
            assert(exists|k: int| 0 <= k < d.vars.len() && d.vars[k] == v);
        }
    }
}

/// Adding two duals with no labels is adding their scalars.  Stated for the
/// bit patterns; under the library's equality it holds as well whenever the
/// sum is not NaN.
pub proof fn lemma_add_constants(x: u64, y: u64)
    ensures
        spec_add(const_dual(x), const_dual(y)) == const_dual(add_bits(x, y)),
        !is_nan_bits(add_bits(x, y)) ==> dual_eq_spec(
            spec_add(const_dual(x), const_dual(y)),
            const_dual(add_bits(x, y)),
        ),
{
    lemma_zero_not_nan();
    assert(spec_add(const_dual(x), const_dual(y)) =~= const_dual(add_bits(x, y)));
    assert forall|v: Seq<char>|
        #[trigger] f_eq(
            deriv_of(spec_add(const_dual(x), const_dual(y)), v),
            deriv_of(const_dual(add_bits(x, y)), v),
        ) by {
        assert(deriv_of(const_dual(add_bits(x, y)), v) == ZERO_BITS);
    }
}

/// The product rule, label by label: over the combined label set, the
/// derivative of a product is the first factor's derivative times the
/// second's scalar plus the second factor's derivative times the first's
/// scalar.
pub proof fn lemma_product_rule(a: DualView, b: DualView, v: Seq<char>)
    requires
        wf_view(a),
        wf_view(b),
        combined_vars(a.vars, b.vars).contains(v),
    ensures
        deriv_of(spec_mul(a, b), v) == add_bits(
            mul_bits(deriv_of(a, v), b.real),
            mul_bits(deriv_of(b, v), a.real),
        ),
{
    let c = combined_vars(a.vars, b.vars);
    lemma_combined_vars(a.vars, b.vars);
    let i = c.index_of(v);
    assert(0 <= i < c.len() && c[i] == v) by {
        assert(exists|k: int| 0 <= k < c.len() && c[k] == v);
    }
    lemma_unique_index(c, i);
    assert(spec_mul(a, b).dual[i] == add_bits(
        mul_bits(deriv_of(a, c[i]), b.real),
        mul_bits(deriv_of(b, c[i]), a.real),
    ));
}

impl Dual {
    /// The sum of two duals: scalars add, and over the combined label set
    /// the derivatives add positionally.  On operands free of NaN patterns
    /// the sum is commutative label by label.
    pub fn add(&self, other: &Dual) -> (r: Dual)
        requires
            self.wf(),
            other.wf(),
        ensures
            r@ == spec_add(self@, other@),
            r.wf(),
            no_nan_dual(self@) && no_nan_dual(other@) ==> same_value(r@, spec_add(other@, self@)),
    {
        let (x, y) = self.to_combined_vars(other);
        let ghost c = combined_vars(self@.vars, other@.vars);
        let real_bits = bits_add(x.real, y.real);
        let n = x.dual.len();
        let mut dual: Vec<u64> = Vec::new();
        for i in 0..n
            invariant
                n == c.len(),
                x@ == aligned_to(self@, c),
                y@ == aligned_to(other@, c),
                dual@.len() == i,
                forall|k: int| 0 <= k < i ==> dual@[k] == add_bits(x@.dual[k], y@.dual[k]),
                forall|k: int|
                    0 <= k < i ==> (!is_nan_bits(x@.dual[k]) && !is_nan_bits(y@.dual[k]) ==> dual@[k]
                        == add_bits(y@.dual[k], x@.dual[k])),
        {
            dual.push(bits_add(x.dual[i], y.dual[i]));
        }
        let r = Dual { real: real_bits, vars: arc_clone(&x.vars), dual };
        proof {
            lemma_combined_vars(self@.vars, other@.vars);
            assert(r@.dual =~= spec_add(self@, other@).dual);
            assert(r@ =~= spec_add(self@, other@));
            if no_nan_dual(self@) && no_nan_dual(other@) {
                let cr = combined_vars(other@.vars, self@.vars);
                lemma_combined_vars(other@.vars, self@.vars);
                assert forall|v: Seq<char>|
                    #[trigger] deriv_of(r@, v) == deriv_of(spec_add(other@, self@), v) by {
                    lemma_deriv_no_nan(self@, v);
                    lemma_deriv_no_nan(other@, v);
                    if c.contains(v) {
                        let i = c.index_of(v);
                        assert(0 <= i < c.len() && c[i] == v) by {
                            assert(exists|k: int| 0 <= k < c.len() && c[k] == v);
                        }
                        lemma_unique_index(c, i);
                        assert(x@.dual[i] == deriv_of(self@, v));
                        assert(y@.dual[i] == deriv_of(other@, v));
                        assert(deriv_of(r@, v) == dual@[i]);
                        assert(cr.contains(v));
                        let j = cr.index_of(v);
                        assert(0 <= j < cr.len() && cr[j] == v) by {
                            assert(exists|k: int| 0 <= k < cr.len() && cr[k] == v);
                        }
                        lemma_unique_index(cr, j);
                        assert(deriv_of(spec_add(other@, self@), v) == spec_add(other@, self@).dual[j]);
                        assert(spec_add(other@, self@).dual[j] == add_bits(
                            deriv_of(other@, v),
                            deriv_of(self@, v),
                        ));
                    } else {
                        assert(!cr.contains(v));
                        assert(deriv_of(r@, v) == ZERO_BITS);
                        assert(deriv_of(spec_add(other@, self@), v) == ZERO_BITS);
                    }
                }
            }
        }
        r
    }

    /// The difference of two duals: scalars subtract, and over the combined
    /// label set the derivatives subtract positionally.
    pub fn sub(&self, other: &Dual) -> (r: Dual)
        requires
            self.wf(),
            other.wf(),
        ensures
            r@ == spec_sub(self@, other@),
            r.wf(),
    {
        let (x, y) = self.to_combined_vars(other);
        let ghost c = combined_vars(self@.vars, other@.vars);
        let real_bits = bits_sub(x.real, y.real);
        let n = x.dual.len();
        let mut dual: Vec<u64> = Vec::new();
        for i in 0..n
            invariant
                n == c.len(),
                x@ == aligned_to(self@, c),
                y@ == aligned_to(other@, c),
                dual@.len() == i,
                forall|k: int| 0 <= k < i ==> dual@[k] == sub_bits(x@.dual[k], y@.dual[k]),
        {
            dual.push(bits_sub(x.dual[i], y.dual[i]));
        }
        let r = Dual { real: real_bits, vars: arc_clone(&x.vars), dual };
        proof {
            lemma_combined_vars(self@.vars, other@.vars);
            assert(r@.dual =~= spec_sub(self@, other@).dual);
            assert(r@ =~= spec_sub(self@, other@));
        }
        r
    }

    /// The product of two duals: scalars multiply, and over the combined
    /// label set the derivatives follow the product rule positionally.  On
    /// operands free of NaN patterns the product is commutative label by
    /// label.
    pub fn mul(&self, other: &Dual) -> (r: Dual)
        requires
            self.wf(),
            other.wf(),
        ensures
            r@ == spec_mul(self@, other@),
            r.wf(),
            no_nan_dual(self@) && no_nan_dual(other@) ==> same_value(r@, spec_mul(other@, self@)),
    {
        let (x, y) = self.to_combined_vars(other);
        let ghost c = combined_vars(self@.vars, other@.vars);
        let real_bits = bits_mul(x.real, y.real);
        let n = x.dual.len();
        let mut dual: Vec<u64> = Vec::new();
        for i in 0..n
            invariant
                n == c.len(),
                x@ == aligned_to(self@, c),
                y@ == aligned_to(other@, c),
                x@.real == self@.real,
                y@.real == other@.real,
                dual@.len() == i,
                forall|k: int|
                    0 <= k < i ==> dual@[k] == add_bits(
                        mul_bits(x@.dual[k], y@.real),
                        mul_bits(y@.dual[k], x@.real),
                    ),
                forall|k: int|
                    0 <= k < i ==> (!is_nan_bits(x@.dual[k]) && !is_nan_bits(y@.dual[k])
                        && !is_nan_bits(x@.real) && !is_nan_bits(y@.real) ==> dual@[k] == add_bits(
                        mul_bits(y@.dual[k], x@.real),
                        mul_bits(x@.dual[k], y@.real),
                    )),
        {
            let left = bits_mul(x.dual[i], y.real);
            let right = bits_mul(y.dual[i], x.real);
            let s = bits_add(left, right);
            proof {
                if !is_nan_bits(x@.dual[i as int]) && !is_nan_bits(y@.dual[i as int])
                    && !is_nan_bits(x@.real) && !is_nan_bits(y@.real) {
                    if is_nan_bits(left) && is_nan_bits(right) {
                        assert(left == right);
                    }
                    assert(s == add_bits(right, left));
                }
            }
            dual.push(s);
        }
        let r = Dual { real: real_bits, vars: arc_clone(&x.vars), dual };
        proof {
            lemma_combined_vars(self@.vars, other@.vars);
            assert(r@.dual =~= spec_mul(self@, other@).dual);
            assert(r@ =~= spec_mul(self@, other@));
            if no_nan_dual(self@) && no_nan_dual(other@) {
                let cr = combined_vars(other@.vars, self@.vars);
                lemma_combined_vars(other@.vars, self@.vars);
                assert forall|v: Seq<char>|
                    #[trigger] deriv_of(r@, v) == deriv_of(spec_mul(other@, self@), v) by {
                    lemma_deriv_no_nan(self@, v);
                    lemma_deriv_no_nan(other@, v);
                    if c.contains(v) {
                        let i = c.index_of(v);
                        assert(0 <= i < c.len() && c[i] == v) by {
                            assert(exists|k: int| 0 <= k < c.len() && c[k] == v);
                        }
                        lemma_unique_index(c, i);
                        assert(x@.dual[i] == deriv_of(self@, v));
                        assert(y@.dual[i] == deriv_of(other@, v));
                        assert(deriv_of(r@, v) == dual@[i]);
                        assert(cr.contains(v));
                        let j = cr.index_of(v);
                        assert(0 <= j < cr.len() && cr[j] == v) by {
                            assert(exists|k: int| 0 <= k < cr.len() && cr[k] == v);
                        }
                        lemma_unique_index(cr, j);
                        assert(deriv_of(spec_mul(other@, self@), v) == spec_mul(other@, self@).dual[j]);
                        assert(spec_mul(other@, self@).dual[j] == add_bits(
                            mul_bits(deriv_of(other@, v), self@.real),
                            mul_bits(deriv_of(self@, v), other@.real),
                        ));
                    } else {
                        assert(!cr.contains(v));
                        assert(deriv_of(r@, v) == ZERO_BITS);
                        assert(deriv_of(spec_mul(other@, self@), v) == ZERO_BITS);
                    }
                }
            }
        }
        r
    }
}


/// The negation of a dual: the scalar and every derivative flip sign; the
/// label set is shared, not recomputed.
pub open spec fn spec_neg(d: DualView) -> DualView {
    DualView {
        real: neg_of(d.real),
        vars: d.vars,
        dual: Seq::new(d.dual.len(), |i: int| neg_of(d.dual[i])),
    }
}

/// The left fold of dual addition over a sequence, from the zero dual.
pub open spec fn spec_sum(s: Seq<DualView>) -> DualView
    decreases s.len(),
{
    if s.len() == 0 {
        const_dual(ZERO_BITS)
    } else {
        spec_add(spec_sum(s.drop_last()), s.last())
    }
}

impl Dual {
    /// A dual holding a bare scalar: empty label set, no derivatives.
    pub fn constant(x: u64) -> (r: Dual)
        ensures
            r@ == const_dual(x),
            r.wf(),
    {
        let r = Dual { real: x, vars: Arc::new(VariableSet::empty()), dual: Vec::new() };
        proof {
            assert(r@ =~= const_dual(x));
        }
        r
    }

    /// The additive identity: a zero scalar with no labels.
    pub fn zero() -> (r: Dual)
        ensures
            r@ == const_dual(ZERO_BITS),
            r.wf(),
    {
        Dual::constant(ZERO_BITS)
    }

    /// The multiplicative identity: a unit scalar with no labels.
    pub fn one() -> (r: Dual)
        ensures
            r@ == const_dual(ONE_BITS),
            r.wf(),
    {
        Dual::constant(ONE_BITS)
    }

    /// Negation: flips the sign of the scalar and of every derivative and
    /// shares the label set.
    pub fn neg(&self) -> (r: Dual)
        ensures
            r@ == spec_neg(self@),
    {
        let n = self.dual.len();
        let mut dual: Vec<u64> = Vec::new();
        for i in 0..n
            invariant
                n == self@.dual.len(),
                dual@.len() == i,
                forall|k: int| 0 <= k < i ==> dual@[k] == neg_of(self@.dual[k]),
        {
            dual.push(crate::fbits::neg_bits(self.dual[i]));
        }
        let r = Dual { real: crate::fbits::neg_bits(self.real), vars: arc_clone(&self.vars), dual };
        proof {
            assert(r@ =~= spec_neg(self@));
        }
        r
    }

    /// The magnitude of the scalar part, as a bare scalar: derivative
    /// information is deliberately discarded.
    pub fn abs(&self) -> (r: u64)
        ensures
            r == abs_of(self@.real),
    {
        crate::fbits::abs_bits(self.real)
    }

    /// Dual plus scalar: the scalar part shifts, the derivatives and the
    /// label set stay.
    pub fn scalar_add(&self, b: u64) -> (r: Dual)
        ensures
            r@ == (DualView { real: add_bits(self@.real, b), ..self@ }),
    {
        Dual { real: bits_add(self.real, b), vars: arc_clone(&self.vars), dual: self.dual.clone() }
    }

    /// Dual minus scalar: the scalar part shifts, the derivatives and the
    /// label set stay.
    pub fn scalar_sub(&self, b: u64) -> (r: Dual)
        ensures
            r@ == (DualView { real: sub_bits(self@.real, b), ..self@ }),
    {
        Dual { real: bits_sub(self.real, b), vars: arc_clone(&self.vars), dual: self.dual.clone() }
    }

    /// Scalar minus dual: the scalar part is the difference and every
    /// derivative flips sign.
    pub fn scalar_rsub(&self, a: u64) -> (r: Dual)
        ensures
            r@ == (DualView { real: sub_bits(a, self@.real), ..spec_neg(self@) }),
    {
        let neg = self.neg();
        Dual { real: bits_sub(a, self.real), vars: neg.vars, dual: neg.dual }
    }

    /// Dual times scalar: the scalar part and every derivative are scaled.
    pub fn scalar_mul(&self, b: u64) -> (r: Dual)
        ensures
            r@.real == mul_bits(self@.real, b),
            r@.vars == self@.vars,
            r@.dual.len() == self@.dual.len(),
            forall|i: int| 0 <= i < self@.dual.len() ==> r@.dual[i] == mul_bits(b, self@.dual[i]),
    {
        let n = self.dual.len();
        let mut dual: Vec<u64> = Vec::new();
        for i in 0..n
            invariant
                n == self@.dual.len(),
                dual@.len() == i,
                forall|k: int| 0 <= k < i ==> dual@[k] == mul_bits(b, self@.dual[k]),
        {
            dual.push(bits_mul(b, self.dual[i]));
        }
        Dual { real: bits_mul(self.real, b), vars: arc_clone(&self.vars), dual }
    }

    /// Dual divided by scalar: the scalar part and every derivative are
    /// divided.
    pub fn scalar_div(&self, b: u64) -> (r: Dual)
        ensures
            r@.real == div_bits(self@.real, b),
            r@.vars == self@.vars,
            r@.dual.len() == self@.dual.len(),
            forall|i: int| 0 <= i < self@.dual.len() ==> r@.dual[i] == div_bits(self@.dual[i], b),
    {
        let n = self.dual.len();
        let mut dual: Vec<u64> = Vec::new();
        for i in 0..n
            invariant
                n == self@.dual.len(),
                dual@.len() == i,
                forall|k: int| 0 <= k < i ==> dual@[k] == div_bits(self@.dual[k], b),
        {
            dual.push(bits_div(self.dual[i], b));
        }
        Dual { real: bits_div(self.real, b), vars: arc_clone(&self.vars), dual }
    }

    /// The chain rule for an elementary function: a new scalar part, and
    /// every derivative scaled by the function's derivative at the old
    /// scalar; the label set is shared.
    pub fn chain_rule(&self, new_real: u64, factor: u64) -> (r: Dual)
        ensures
            r@.real == new_real,
            r@.vars == self@.vars,
            r@.dual.len() == self@.dual.len(),
            forall|i: int| 0 <= i < self@.dual.len() ==> r@.dual[i] == mul_bits(factor, self@.dual[i]),
    {
        let n = self.dual.len();
        let mut dual: Vec<u64> = Vec::new();
        for i in 0..n
            invariant
                n == self@.dual.len(),
                dual@.len() == i,
                forall|k: int| 0 <= k < i ==> dual@[k] == mul_bits(factor, self@.dual[k]),
        {
            dual.push(bits_mul(factor, self.dual[i]));
        }
        Dual { real: new_real, vars: arc_clone(&self.vars), dual }
    }

    /// Equality: the scalar values are equal and, after reconciliation, the
    /// derivative vectors are elementwise equal — equivalently, the
    /// derivative values agree label by label.
    pub fn eq(&self, other: &Dual) -> (r: bool)
        requires
            self.wf(),
            other.wf(),
        ensures
            r == dual_eq_spec(self@, other@),
    {
        proof {
            lemma_zero_not_nan();
        }
        if !crate::fbits::eq_bits(self.real, other.real) {
            return false;
        }
        let (x, y) = self.to_combined_vars(other);
        let ghost c = combined_vars(self@.vars, other@.vars);
        proof {
            lemma_combined_vars(self@.vars, other@.vars);
        }
        let n = x.dual.len();
        for i in 0..n
            invariant
                n == c.len(),
                x@ == aligned_to(self@, c),
                y@ == aligned_to(other@, c),
                self.wf(),
                other.wf(),
                unique_labels(c),
                forall|k: int| 0 <= k < i ==> f_eq(x@.dual[k], y@.dual[k]),
        {
            if !crate::fbits::eq_bits(x.dual[i], y.dual[i]) {
                proof {
                    assert(x@.dual[i as int] == deriv_of(self@, c[i as int]));
                    assert(y@.dual[i as int] == deriv_of(other@, c[i as int]));
                    assert(!f_eq(deriv_of(self@, c[i as int]), deriv_of(other@, c[i as int])));
                }
                return false;
            }
        }
        proof {
            assert forall|v: Seq<char>|
                #[trigger] f_eq(deriv_of(self@, v), deriv_of(other@, v)) by {
                if c.contains(v) {
                    let i = c.index_of(v);
                    assert(0 <= i < c.len() && c[i] == v) by {
                        assert(exists|k: int| 0 <= k < c.len() && c[k] == v);
                    }
                    assert(f_eq(x@.dual[i], y@.dual[i]));
                    assert(x@.dual[i] == deriv_of(self@, v));
                    assert(y@.dual[i] == deriv_of(other@, v));
                } else {
                    assert(!self@.vars.contains(v) && !other@.vars.contains(v));
                    assert(deriv_of(self@, v) == ZERO_BITS);
                    assert(deriv_of(other@, v) == ZERO_BITS);
                }
            }
        }
        true
    }

    /// Equality against a bare scalar: the dual equals the zero-derivative
    /// dual holding that scalar.
    pub fn eq_scalar(&self, other: u64) -> (r: bool)
        requires
            self.wf(),
        ensures
            r == dual_eq_spec(self@, const_dual(other)),
    {
        let c = Dual::constant(other);
        self.eq(&c)
    }

    /// Strict order compares only the scalar parts.
    pub fn lt(&self, other: &Dual) -> (r: bool)
        ensures
            r == crate::fbits::f_lt(self@.real, other@.real),
    {
        crate::fbits::lt_bits(self.real, other.real)
    }

    /// Non-strict order compares only the scalar parts.
    pub fn le(&self, other: &Dual) -> (r: bool)
        ensures
            r == crate::fbits::f_le(self@.real, other@.real),
    {
        crate::fbits::le_bits(self.real, other.real)
    }

    /// Strict reverse order: neither equal nor below on the scalar parts.
    pub fn gt(&self, other: &Dual) -> (r: bool)
        ensures
            r == (!f_eq(self@.real, other@.real) && !crate::fbits::f_lt(self@.real, other@.real)),
    {
        let e = crate::fbits::eq_bits(self.real, other.real);
        let l = crate::fbits::lt_bits(self.real, other.real);
        !e && !l
    }

    /// Non-strict reverse order: not below on the scalar parts.
    pub fn ge(&self, other: &Dual) -> (r: bool)
        ensures
            r == !crate::fbits::f_lt(self@.real, other@.real),
    {
        !crate::fbits::lt_bits(self.real, other.real)
    }

    /// Whether this dual equals the zero dual.
    pub fn is_zero(&self) -> (r: bool)
        requires
            self.wf(),
        ensures
            r == dual_eq_spec(self@, const_dual(ZERO_BITS)),
    {
        self.eq_scalar(ZERO_BITS)
    }

    /// Adds another dual into this one by computing a fresh value and
    /// rebinding; no shared buffer is written.
    pub fn add_assign(&mut self, other: &Dual)
        requires
            old(self).wf(),
            other.wf(),
        ensures
            final(self)@ == spec_add(old(self)@, other@),
            final(self).wf(),
    {
        let z = (&*self).add(other);
        *self = z;
    }

    /// Multiplies another dual into this one by computing a fresh value and
    /// rebinding; no shared buffer is written.
    pub fn mul_assign(&mut self, other: &Dual)
        requires
            old(self).wf(),
            other.wf(),
        ensures
            final(self)@ == spec_mul(old(self)@, other@),
            final(self).wf(),
    {
        let z = (&*self).mul(other);
        *self = z;
    }

    /// Sums a sequence of duals from the zero dual, left to right; the
    /// accumulated label set grows to the union of all summands'.
    pub fn sum(items: &Vec<Dual>) -> (r: Dual)
        requires
            forall|i: int| 0 <= i < items@.len() ==> (#[trigger] items@[i]).wf(),
        ensures
            r@ == spec_sum(items@.map_values(|d: Dual| d@)),
            r.wf(),
    {
        let ghost views = items@.map_values(|d: Dual| d@);
        let mut acc = Dual::zero();
        proof {
            assert(views.take(0) =~= Seq::<DualView>::empty());
        }
        let n = items.len();
        for i in 0..n
            invariant
                n == items@.len(),
                forall|k: int| 0 <= k < n ==> (#[trigger] items@[k]).wf(),
                views == items@.map_values(|d: Dual| d@),
                acc@ == spec_sum(views.take(i as int)),
                acc.wf(),
        {
            acc = acc.add(&items[i]);
            proof {
                assert(views.take(i + 1).drop_last() =~= views.take(i as int));
                assert(views.take(i + 1).last() == items@[i as int]@);
            }
        }
        proof {
            assert(views.take(n as int) =~= views);
        }
        acc
    }

}

/// The dot product of two equal-length sequences of duals: elementwise
/// products, then the sum reduction.
pub fn arr1_dot(a1: &Vec<Dual>, a2: &Vec<Dual>) -> (r: Dual)
    requires
        a1@.len() == a2@.len(),
        forall|i: int| 0 <= i < a1@.len() ==> (#[trigger] a1@[i]).wf(),
        forall|i: int| 0 <= i < a2@.len() ==> (#[trigger] a2@[i]).wf(),
    ensures
        r@ == spec_sum(Seq::new(a1@.len(), |i: int| spec_mul(a1@[i]@, a2@[i]@))),
        r.wf(),
{
    let n = a1.len();
    let mut prods: Vec<Dual> = Vec::new();
    for i in 0..n
        invariant
            n == a1@.len() == a2@.len(),
            forall|k: int| 0 <= k < n ==> (#[trigger] a1@[k]).wf(),
            forall|k: int| 0 <= k < n ==> (#[trigger] a2@[k]).wf(),
            prods@.len() == i,
            forall|k: int| 0 <= k < i ==> (#[trigger] prods@[k])@ == spec_mul(a1@[k]@, a2@[k]@),
            forall|k: int| 0 <= k < i ==> (#[trigger] prods@[k]).wf(),
    {
        prods.push(a1[i].mul(&a2[i]));
    }
    let r = Dual::sum(&prods);
    proof {
    assert(prods@.map_values(|d: Dual| d@) =~= Seq::new(
        a1@.len(),
        |i: int| spec_mul(a1@[i]@, a2@[i]@),
    ));
    }
    r
}


/// The mathematical content of a `DualOrF64`: a dual's view or a bare
/// scalar's bits.
pub enum DualOrF64View {
    Dual(DualView),
    F64(u64),
}

/// The magnitude of an entry's scalar part.
pub open spec fn mag_entry(e: DualOrF64View) -> u64 {
    match e {
        DualOrF64View::Dual(d) => abs_of(d.real),
        DualOrF64View::F64(x) => abs_of(x),
    }
}

/// Either a dual or a bare scalar (as its bit pattern), for code that must
/// treat constants and sensitivity-tracking values uniformly.
#[derive(Debug)]
pub enum DualOrF64 {
    Dual(Dual),
    F64(u64),
}

impl View for DualOrF64 {
    type V = DualOrF64View;

    open spec fn view(&self) -> DualOrF64View {
        match self {
            DualOrF64::Dual(d) => DualOrF64View::Dual(d@),
            DualOrF64::F64(x) => DualOrF64View::F64(*x),
        }
    }
}

impl Clone for DualOrF64 {
    /// The clone holds the same value.
    fn clone(&self) -> (res: DualOrF64)
        ensures
            res@ == self@,
    {
        match self {
            DualOrF64::Dual(d) => DualOrF64::Dual(d.clone()),
            DualOrF64::F64(x) => DualOrF64::F64(*x),
        }
    }
}

impl DualOrF64 {
    /// The magnitude of the scalar part, as a bare scalar entry: a dual's
    /// derivative information is discarded.
    pub fn abs(&self) -> (r: DualOrF64)
        ensures
            r@ == DualOrF64View::F64(mag_entry(self@)),
    {
        match self {
            DualOrF64::Dual(d) => DualOrF64::F64(d.abs()),
            DualOrF64::F64(x) => DualOrF64::F64(crate::fbits::abs_bits(*x)),
        }
    }
}

impl Dual {
    /// Whether the natural logarithm is defined here: the scalar part is
    /// neither non-positive nor zero.
    pub fn log_defined(&self) -> (r: bool)
        ensures
            r == !crate::fbits::f_le(self@.real, ZERO_BITS),
    {
        !crate::fbits::le_bits(self.real, ZERO_BITS)
    }

    /// Decides whether a power of this dual is supported: a non-zero
    /// modulus argument is unsupported, and a fractional power of a
    /// non-positive scalar is a domain failure.
    pub fn pow_support(&self, power: u64, modulo: Option<i32>) -> (r: Result<(), DualError>)
        ensures
            r == (if (match modulo {
                Some(k) => k != 0,
                None => false,
            }) {
                Err::<(), DualError>(DualError::UnsupportedOperation)
            } else if crate::fbits::f_le(self@.real, ZERO_BITS) && !crate::fbits::is_integer_bits(
                power,
            ) {
                Err::<(), DualError>(DualError::DomainError)
            } else {
                Ok::<(), DualError>(())
            }),
    {
        let bad_modulo = match modulo {
            Some(k) => k != 0,
            None => false,
        };
        if bad_modulo {
            Err(DualError::UnsupportedOperation)
        } else if crate::fbits::le_bits(self.real, ZERO_BITS) && !crate::fbits::integer_valued_bits(
            power,
        ) {
            Err(DualError::DomainError)
        } else {
            Ok(())
        }
    }
}

/// The ordered union keeps the first operand's labels as a prefix, in their
/// order, appends only labels of the second operand that the first does not
/// track, and holds a label exactly when one of the operands does.
pub proof fn lemma_union_structure(a: Seq<Seq<char>>, b: Seq<Seq<char>>)
    requires
        unique_labels(a),
        unique_labels(b),
    ensures
        union_of(a, b).len() >= a.len(),
        forall|i: int| 0 <= i < a.len() ==> union_of(a, b)[i] == a[i],
        forall|i: int|
            a.len() <= i < union_of(a, b).len() ==> b.contains(#[trigger] union_of(a, b)[i])
                && !a.contains(union_of(a, b)[i]),
        forall|v: Seq<char>| #[trigger] union_of(a, b).contains(v) <==> (a.contains(v) || b.contains(v)),
        unique_labels(union_of(a, b)),
        subset_labels(b, a) ==> union_of(a, b) == a,
{
    lemma_union_unique(a, b);
    assert forall|v: Seq<char>|
        #[trigger] union_of(a, b).contains(v) <==> (a.contains(v) || b.contains(v)) by {
        lemma_union_contains(a, b, v);
    }
    assert forall|i: int|
        a.len() <= i < union_of(a, b).len() implies b.contains(#[trigger] union_of(a, b)[i])
        && !a.contains(union_of(a, b)[i]) by {
        let e = crate::varset::extras(a, b);
        assert(union_of(a, b)[i] == e[i - a.len()]);
        assert(e.contains(e[i - a.len()]));
        crate::varset::lemma_extras_contains(a, b, e[i - a.len()]);
    }
    if subset_labels(b, a) {
        lemma_union_subset(a, b);
    }
}


/// Two duals that hold the same bits label by label, with no NaN among
/// them, are equal under the library's equality.
pub proof fn lemma_same_value_eq(a: DualView, b: DualView)
    requires
        wf_view(a),
        no_nan_dual(a),
        same_value(a, b),
    ensures
        dual_eq_spec(a, b),
{
    assert forall|v: Seq<char>| #[trigger] f_eq(deriv_of(a, v), deriv_of(b, v)) by {
        lemma_deriv_no_nan(a, v);
        assert(deriv_of(b, v) == deriv_of(a, v));
    }
}

impl Dual {
    /// Strict order against a bare scalar, on the scalar part.
    pub fn lt_scalar(&self, other: u64) -> (r: bool)
        ensures
            r == crate::fbits::f_lt(self@.real, other),
    {
        crate::fbits::lt_bits(self.real, other)
    }

    /// Non-strict order against a bare scalar, on the scalar part.
    pub fn le_scalar(&self, other: u64) -> (r: bool)
        ensures
            r == crate::fbits::f_le(self@.real, other),
    {
        crate::fbits::le_bits(self.real, other)
    }

    /// Strict reverse order against a bare scalar, on the scalar part.
    pub fn gt_scalar(&self, other: u64) -> (r: bool)
        ensures
            r == (!f_eq(self@.real, other) && !crate::fbits::f_lt(self@.real, other)),
    {
        let e = crate::fbits::eq_bits(self.real, other);
        let l = crate::fbits::lt_bits(self.real, other);
        !e && !l
    }

    /// Non-strict reverse order against a bare scalar, on the scalar part.
    pub fn ge_scalar(&self, other: u64) -> (r: bool)
        ensures
            r == !crate::fbits::f_lt(self@.real, other),
    {
        !crate::fbits::lt_bits(self.real, other)
    }
}

} // verus!
