//! Linear constraints over named variables: expressions with integer
//! coefficients, constraint systems, over-constraint detection and solving.

use vstd::prelude::*;

use crate::text::{seq_lt, str_eq, str_less, lemma_seq_lt_trichotomy, lemma_seq_lt_transitive};
use crate::linalg::{
    below_rank_zero, check_in_span, check_not_in_span, check_solution, combo, combo_dot, dot, entries_within, growth, in_i128,
    in_span, in_span_witness, int_rows, ints, lemma_combo_agrees, lemma_combo_dot_scaled, lemma_combo_dot_swap,
    lemma_combo_identity_column, lemma_combo_scale_sub, lemma_combo_within, lemma_dot_split, lemma_dot_support,
    lemma_dot_within, lemma_growth_mono, lemma_mul_within, lemma_power_base_grows, lemma_power_grows,
    lemma_weighted_dots_of_zero_rows, max_rounds, pivot_list, pivots_cleared, power, rectangular, reduce, reduce_within,
    rows_combine, scale_sub, scale_sub_coeffs, scale_sub_fits, solution_witness, solvable, weighted_dots, in_span_checked,
    column_checked, not_in_span_checked, dot_fits, combo_fits, row_checked,
};
use crate::units::Length;

verus! {

/// A variable's identity: (owner, attribute).
pub type VarKey = (Seq<char>, Seq<char>);

/// One named unknown: an attribute of an owning element.
#[derive(Debug)]
pub struct ConstraintVariable {
    owner: String,
    attribute: String,
}

impl View for ConstraintVariable {
    type V = VarKey;

    closed spec fn view(&self) -> VarKey {
        (self.owner@, self.attribute@)
    }
}

impl Clone for ConstraintVariable {
    fn clone(&self) -> (r: Self)
        ensures
            r@ == self@,
    {
        ConstraintVariable { owner: self.owner.clone(), attribute: self.attribute.clone() }
    }
}

impl PartialEq for ConstraintVariable {
    fn eq(&self, other: &Self) -> (r: bool) {
        self.owner == other.owner && self.attribute == other.attribute
    }
}

impl Eq for ConstraintVariable {

}

impl vstd::std_specs::cmp::PartialEqSpecImpl for ConstraintVariable {
    open spec fn obeys_eq_spec() -> bool {
        true
    }

    open spec fn eq_spec(&self, other: &ConstraintVariable) -> bool {
        self@ == other@
    }
}

/// The order of variables: by owner, then by attribute.
pub open spec fn var_lt(a: VarKey, b: VarKey) -> bool {
    seq_lt(a.0, b.0) || (a.0 == b.0 && seq_lt(a.1, b.1))
}

pub proof fn lemma_var_lt_trichotomy(a: VarKey, b: VarKey)
    ensures
        var_lt(a, b) || a == b || var_lt(b, a),
        !(var_lt(a, b) && var_lt(b, a)),
        !(var_lt(a, b) && a == b),
{
    lemma_seq_lt_trichotomy(a.0, b.0);
    lemma_seq_lt_trichotomy(a.1, b.1);
}

pub proof fn lemma_var_lt_transitive(a: VarKey, b: VarKey, c: VarKey)
    requires
        var_lt(a, b),
        var_lt(b, c),
    ensures
        var_lt(a, c),
{
    lemma_seq_lt_trichotomy(a.0, b.0);
    lemma_seq_lt_trichotomy(b.0, c.0);
    if seq_lt(a.0, b.0) && seq_lt(b.0, c.0) {
        lemma_seq_lt_transitive(a.0, b.0, c.0);
    } else if seq_lt(a.1, b.1) && seq_lt(b.1, c.1) {
        lemma_seq_lt_transitive(a.1, b.1, c.1);
    }
}

impl ConstraintVariable {
    pub fn new(owner: &str, attribute: &str) -> (r: ConstraintVariable)
        ensures
            r@ == (owner@, attribute@),
    {
        ConstraintVariable { owner: owner.to_owned(), attribute: attribute.to_owned() }
    }

    pub fn owner(&self) -> (r: &str)
        ensures
            r@ == self@.0,
    {
        self.owner.as_str()
    }

    pub fn attribute(&self) -> (r: &str)
        ensures
            r@ == self@.1,
    {
        self.attribute.as_str()
    }

    /// Whether `self` orders strictly before `other`.
    pub fn less_than(&self, other: &ConstraintVariable) -> (r: bool)
        ensures
            r == var_lt(self@, other@),
    {
        if str_less(self.owner.as_str(), other.owner.as_str()) {
            true
        } else if str_eq(self.owner.as_str(), other.owner.as_str()) {
            str_less(self.attribute.as_str(), other.attribute.as_str())
        } else {
            false
        }
    }
}

// ---------------------------------------------------------------------------
// Association lists keyed by variable
// ---------------------------------------------------------------------------

/// The keys of an association list are pairwise distinct.
pub open spec fn distinct_vars<V>(t: Seq<(ConstraintVariable, V)>) -> bool {
    forall|i: int, j: int| 0 <= i < j < t.len() ==> t[i].0@ != t[j].0@
}

/// Whether some entry has key `k`.
pub open spec fn has_var<V>(t: Seq<(ConstraintVariable, V)>, k: VarKey) -> bool {
    exists|i: int| 0 <= i < t.len() && t[i].0@ == k
}

/// The value at key `k` (meaningful when `has_var`).
pub open spec fn value_at<V>(t: Seq<(ConstraintVariable, V)>, k: VarKey) -> V {
    t[choose|i: int| 0 <= i < t.len() && t[i].0@ == k].1
}

pub proof fn lemma_value_at<V>(t: Seq<(ConstraintVariable, V)>, i: int)
    requires
        distinct_vars(t),
        0 <= i < t.len(),
    ensures
        has_var(t, t[i].0@),
        value_at(t, t[i].0@) == t[i].1,
{
    let k = t[i].0@;
    assert(t[i].0@ == k);
    let j = choose|j: int| 0 <= j < t.len() && t[j].0@ == k;
    if j != i {
        if j < i {
            assert(t[j].0@ != t[i].0@);
        } else {
            assert(t[i].0@ != t[j].0@);
        }
    }
}

/// Finds the position of key `k`.
fn find_var<V>(t: &Vec<(ConstraintVariable, V)>, k: &ConstraintVariable) -> (r: Option<usize>)
    ensures
        r matches Some(i) ==> i < t@.len() && t@[i as int].0@ == k@,
        r is None ==> !has_var(t@, k@),
{
    let mut i: usize = 0;
    while i < t.len()
        invariant
            i <= t.len(),
            forall|j: int| 0 <= j < i ==> t@[j].0@ != k@,
        decreases t.len() - i,
    {
        if t[i].0 == *k {
            return Some(i);
        }
        i = i + 1;
    }
    None
}

// ---------------------------------------------------------------------------
// Linear expressions
// ---------------------------------------------------------------------------

/// `Σ coefficient · variable` with distinct variables and no zero coefficient.
#[derive(Debug)]
pub struct LinearExpression {
    terms: Vec<(ConstraintVariable, i64)>,
}

/// The coefficient of `k` in a term list (0 when absent).
pub open spec fn coeff_in(t: Seq<(ConstraintVariable, i64)>, k: VarKey) -> int {
    if has_var(t, k) {
        value_at(t, k) as int
    } else {
        0
    }
}

/// The terms of an expression are well formed.
pub open spec fn terms_wf(t: Seq<(ConstraintVariable, i64)>) -> bool {
    &&& distinct_vars(t)
    &&& forall|i: int| 0 <= i < t.len() ==> (#[trigger] t[i]).1 != 0
}

impl LinearExpression {
    /// The terms are well formed: distinct variables, no zero coefficient.
    #[verifier::type_invariant]
    pub closed spec fn wf(self) -> bool {
        terms_wf(self.terms@)
    }

    /// The coefficient of variable `k` (0 when the variable does not occur).
    pub closed spec fn coeff(&self, k: VarKey) -> int {
        coeff_in(self.terms@, k)
    }

    /// The terms in internal order.
    pub closed spec fn term_seq(&self) -> Seq<(ConstraintVariable, i64)> {
        self.terms@
    }

    /// The terms of a well-formed expression are exactly its variables with a
    /// nonzero coefficient, each with that coefficient.
    pub proof fn lemma_wf(&self)
        requires
            self.wf(),
        ensures
            terms_wf(self.term_seq()),
            forall|k: VarKey| #[trigger] self.coeff(k) == coeff_in(self.term_seq(), k),
            forall|k: VarKey| #[trigger] self.coeff(k) != 0 <==> has_var(self.term_seq(), k),
    {
        assert forall|k: VarKey| #[trigger] self.coeff(k) != 0 <==> has_var(self.term_seq(), k) by {
            if has_var(self.terms@, k) {
                let i = choose|i: int| 0 <= i < self.terms@.len() && self.terms@[i].0@ == k;
                lemma_value_at(self.terms@, i);
            }
        }
    }

    pub fn new() -> (r: LinearExpression)
        ensures
            forall|k: VarKey| r.coeff(k) == 0,
    {
        LinearExpression { terms: Vec::new() }
    }

    pub fn variable(variable: ConstraintVariable, coefficient: i64) -> (r: LinearExpression)
        ensures
            r.coeff(variable@) == coefficient,
            forall|k: VarKey| k != variable@ ==> r.coeff(k) == 0,
    {
        let mut expression = LinearExpression::new();
        expression.add_term(variable, coefficient);
        expression
    }

    /// Adds `coefficient · variable`, dropping the term when it cancels to zero.
    pub fn add_term(&mut self, variable: ConstraintVariable, coefficient: i64)
        requires
            i64::MIN <= old(self).coeff(variable@) + coefficient <= i64::MAX,
        ensures
            final(self).coeff(variable@) == old(self).coeff(variable@) + coefficient,
            forall|k: VarKey| k != variable@ ==> final(self).coeff(k) == old(self).coeff(k),
    {
        proof {
            use_type_invariant(&*self);
        }
        if coefficient == 0 {
            return ;
        }
        let mut terms: Vec<(ConstraintVariable, i64)> = Vec::new();
        std::mem::swap(&mut terms, &mut self.terms);
        let ghost before = terms@;
        match find_var(&terms, &variable) {
            Some(i) => {
                proof {
                    lemma_value_at(before, i as int);
                }
                let next = terms[i].1 + coefficient;
                if next == 0 {
                    terms.remove(i);
                    proof {
                        let after = terms@;
                        assert(terms_wf(after)) by {
                            assert forall|a: int, b: int| 0 <= a < b < after.len() implies after[a].0@ != after[b].0@ by {
                                let a2 = if a < i { a } else { a + 1 };
                                let b2 = if b < i { b } else { b + 1 };
                                assert(after[a] == before[a2] && after[b] == before[b2]);
                            }
                            assert forall|a: int| 0 <= a < after.len() implies (#[trigger] after[a]).1 != 0 by {
                                let a2 = if a < i { a } else { a + 1 };
                                assert(after[a] == before[a2]);
                            }
                        }
                        assert(!has_var(after, variable@)) by {
                            if has_var(after, variable@) {
                                let a = choose|a: int| 0 <= a < after.len() && after[a].0@ == variable@;
                                let a2 = if a < i { a } else { a + 1 };
                                assert(after[a] == before[a2]);
                            }
                        }
                        assert forall|k: VarKey| k != variable@ implies coeff_in(after, k) == coeff_in(before, k) by {
                            if has_var(before, k) {
                                let j = choose|j: int| 0 <= j < before.len() && before[j].0@ == k;
                                lemma_value_at(before, j);
                                assert(j != i);
                                let j2 = if j < i { j } else { j - 1 };
                                assert(after[j2] == before[j]);
                                lemma_value_at(after, j2);
                            } else if has_var(after, k) {
                                let a = choose|a: int| 0 <= a < after.len() && after[a].0@ == k;
                                let a2 = if a < i { a } else { a + 1 };
                                assert(after[a] == before[a2]);
                            }
                        }
                    }
                } else {
                    let var = terms[i].0.clone();
                    terms.set(i, (var, next));
                    proof {
                        let after = terms@;
                        assert(terms_wf(after)) by {
                            assert forall|a: int, b: int| 0 <= a < b < after.len() implies after[a].0@ != after[b].0@ by {
                                assert(before[a].0@ != before[b].0@);
                            }
                        }
                        lemma_value_at(after, i as int);
                        assert forall|k: VarKey| k != variable@ implies coeff_in(after, k) == coeff_in(before, k) by {
                            if has_var(before, k) {
                                let j = choose|j: int| 0 <= j < before.len() && before[j].0@ == k;
                                lemma_value_at(before, j);
                                lemma_value_at(after, j);
                            } else if has_var(after, k) {
                                let a = choose|a: int| 0 <= a < after.len() && after[a].0@ == k;
                                assert(before[a].0@ == k);
                            }
                        }
                    }
                }
            },
            None => {
                let ghost n = before.len() as int;
                terms.push((variable, coefficient));
                proof {
                    let after = terms@;
                    assert(terms_wf(after)) by {
                        assert forall|a: int, b: int| 0 <= a < b < after.len() implies after[a].0@ != after[b].0@ by {
                            if b < n {
                                assert(before[a].0@ != before[b].0@);
                            } else {
                                assert(before[a].0@ != after[b].0@);
                            }
                        }
                        assert forall|a: int| 0 <= a < after.len() implies (#[trigger] after[a]).1 != 0 by {
                            if a < n {
                                assert(after[a] == before[a]);
                            }
                        }
                    }
                    lemma_value_at(after, n);
                    assert forall|k: VarKey| k != after[n].0@ implies coeff_in(after, k) == coeff_in(before, k) by {
                        if has_var(before, k) {
                            let j = choose|j: int| 0 <= j < before.len() && before[j].0@ == k;
                            lemma_value_at(before, j);
                            lemma_value_at(after, j);
                        } else if has_var(after, k) {
                            let a = choose|a: int| 0 <= a < after.len() && after[a].0@ == k;
                            assert(a < n);
                            assert(before[a].0@ == k);
                        }
                    }
                }
            },
        }
        self.terms = terms;
    }

    /// Adds `multiplier · expression` term by term.
    pub fn add_expression(&mut self, expression: &LinearExpression, multiplier: i64)
        requires
            forall|k: VarKey| i64::MIN <= #[trigger] expression.coeff(k) * multiplier <= i64::MAX,
            forall|k: VarKey| i64::MIN <= #[trigger] old(self).coeff(k) + expression.coeff(k) * multiplier <= i64::MAX,
        ensures
            forall|k: VarKey| #[trigger] final(self).coeff(k) == old(self).coeff(k) + expression.coeff(k) * multiplier,
    {
        proof {
            use_type_invariant(expression);
            expression.lemma_wf();
        }
        let ghost t = expression.term_seq();
        let ghost start = *self;
        let mut i: usize = 0;
        while i < expression.terms.len()
            invariant
                i <= expression.terms@.len(),
                t == expression.term_seq(),
                t == expression.terms@,
                terms_wf(t),
                forall|k: VarKey| #[trigger] expression.coeff(k) == coeff_in(t, k),
                forall|k: VarKey| i64::MIN <= #[trigger] expression.coeff(k) * multiplier <= i64::MAX,
                forall|k: VarKey| i64::MIN <= #[trigger] start.coeff(k) + expression.coeff(k) * multiplier <= i64::MAX,
                forall|j: int| 0 <= j < i ==> #[trigger] self.coeff(t[j].0@) == start.coeff(t[j].0@) + expression.coeff(t[j].0@) * multiplier,
                forall|k: VarKey| (forall|j: int| 0 <= j < i ==> t[j].0@ != k) ==> #[trigger] self.coeff(k) == start.coeff(k),
            decreases expression.terms@.len() - i,
        {
            let (variable, coefficient) = &expression.terms[i];
            proof {
                lemma_value_at(t, i as int);
                assert(expression.coeff(t[i as int].0@) == *coefficient);
                assert(self.coeff(variable@) == start.coeff(variable@)) by {
                    assert forall|j: int| 0 <= j < i implies t[j].0@ != variable@ by {
                        assert(t[j].0@ != t[i as int].0@);
                    }
                }
            }
            let scaled = *coefficient * multiplier;
            let ghost before = *self;
            self.add_term(variable.clone(), scaled);
            proof {
                assert forall|j: int| 0 <= j < i + 1 implies #[trigger] self.coeff(t[j].0@) == start.coeff(t[j].0@) + expression.coeff(t[j].0@) * multiplier by {
                    if j < i {
                        assert(t[j].0@ != t[i as int].0@);
                    }
                }
            }
            i = i + 1;
        }
        proof {
            assert forall|k: VarKey| #[trigger] self.coeff(k) == start.coeff(k) + expression.coeff(k) * multiplier by {
                if has_var(t, k) {
                    let j = choose|j: int| 0 <= j < t.len() && t[j].0@ == k;
                    assert(self.coeff(t[j].0@) == start.coeff(t[j].0@) + expression.coeff(t[j].0@) * multiplier);
                } else {
                    assert(expression.coeff(k) == 0);
                }
            }
        }
    }

    /// The coefficient of `variable` (0 when it does not occur).
    pub fn coefficient(&self, variable: &ConstraintVariable) -> (r: i64)
        ensures
            r as int == self.coeff(variable@),
    {
        proof {
            use_type_invariant(self);
        }
        match find_var(&self.terms, variable) {
            Some(i) => {
                proof {
                    lemma_value_at(self.terms@, i as int);
                }
                self.terms[i].1
            },
            None => 0,
        }
    }

    /// The variables with a nonzero coefficient, each once, in increasing order.
    pub fn variables(&self) -> (r: Vec<ConstraintVariable>)
        ensures
            sorted_vars(r@),
            forall|i: int, j: int| 0 <= i < j < r@.len() ==> r@[i]@ != r@[j]@,
            forall|i: int| 0 <= i < r@.len() ==> self.coeff(#[trigger] r@[i]@) != 0,
            forall|k: VarKey| self.coeff(k) != 0 ==> exists|i: int| 0 <= i < r@.len() && r@[i]@ == k,
            r@.len() == self.term_seq().len(),
    {
        proof {
            use_type_invariant(self);
            self.lemma_wf();
        }
        let ghost t = self.term_seq();
        let ghost tk = t.map_values(|x: (ConstraintVariable, i64)| x.0@);
        let mut out: Vec<ConstraintVariable> = Vec::new();
        let mut i: usize = 0;
        while i < self.terms.len()
            invariant
                i <= self.terms@.len(),
                terms_wf(self.terms@),
                self.terms@ == t,
                t == self.term_seq(),
                tk == t.map_values(|x: (ConstraintVariable, i64)| x.0@),
                forall|k: VarKey| #[trigger] self.coeff(k) != 0 <==> has_var(t, k),
                sorted_vars(out@),
                forall|k: VarKey| #[trigger] key_views(out@).contains(k) <==> tk.subrange(0, i as int).contains(k),
            decreases self.terms@.len() - i,
        {
            insert_sorted(&mut out, self.terms[i].0.clone());
            proof {
                assert forall|k: VarKey| #[trigger] key_views(out@).contains(k) <==> tk.subrange(0, i + 1).contains(k) by {
                    let s0 = tk.subrange(0, i as int);
                    let s1 = tk.subrange(0, i + 1);
                    if s1.contains(k) {
                        let j = choose|j: int| 0 <= j < s1.len() && s1[j] == k;
                        if j < i {
                            assert(s0[j] == k);
                        }
                    }
                    if s0.contains(k) {
                        let j = choose|j: int| 0 <= j < s0.len() && s0[j] == k;
                        assert(s1[j] == k);
                    }
                    assert(s1[i as int] == tk[i as int]);
                }
            }
            i = i + 1;
        }
        proof {
            assert(tk.subrange(0, t.len() as int) =~= tk);
            let ov = key_views(out@);
            assert forall|a: int, b: int| 0 <= a < out@.len() && 0 <= b < out@.len() && a != b implies ov[a] != ov[b] by {
                if a < b {
                    assert(var_lt(out@[a]@, out@[b]@));
                    lemma_var_lt_trichotomy(ov[a], ov[b]);
                } else {
                    assert(var_lt(out@[b]@, out@[a]@));
                    lemma_var_lt_trichotomy(ov[b], ov[a]);
                }
            }
            assert forall|a: int, b: int| 0 <= a < b < out@.len() implies out@[a]@ != out@[b]@ by {
                assert(ov[a] == out@[a]@ && ov[b] == out@[b]@);
            }
            assert forall|a: int| 0 <= a < out@.len() implies self.coeff(#[trigger] out@[a]@) != 0 by {
                assert(ov.contains(ov[a]));
                let j = choose|j: int| 0 <= j < tk.len() && tk[j] == ov[a];
                assert(t[j].0@ == out@[a]@);
                assert(has_var(t, out@[a]@));
            }
            assert forall|k: VarKey| self.coeff(k) != 0 implies exists|a: int| 0 <= a < out@.len() && out@[a]@ == k by {
                let j = choose|j: int| 0 <= j < t.len() && t[j].0@ == k;
                assert(tk[j] == k);
                assert(tk.contains(k));
                assert(ov.contains(k));
                let a = choose|a: int| 0 <= a < ov.len() && ov[a] == k;
                assert(out@[a]@ == k);
            }
            assert(tk.no_duplicates()) by {
                assert forall|a: int, b: int| 0 <= a < tk.len() && 0 <= b < tk.len() && a != b implies tk[a] != tk[b] by {
                    if a < b {
                        assert(t[a].0@ != t[b].0@);
                    } else {
                        assert(t[b].0@ != t[a].0@);
                    }
                }
            }
            assert forall|a: int| 0 <= a < ov.len() implies tk.contains(#[trigger] ov[a]) by {
                assert(ov.contains(ov[a]));
            }
            assert forall|a: int| 0 <= a < tk.len() implies ov.contains(#[trigger] tk[a]) by {
                assert(tk.contains(tk[a]));
            }
            lemma_distinct_within(ov, tk);
            lemma_distinct_within(tk, ov);
        }
        out
    }

    /// The terms `(variable, coefficient)`, each variable once, no zero coefficient.
    pub fn terms(&self) -> (r: &Vec<(ConstraintVariable, i64)>)
        ensures
            r@ == self.term_seq(),
            terms_wf(r@),
            forall|k: VarKey| #[trigger] self.coeff(k) == coeff_in(r@, k),
            forall|k: VarKey| #[trigger] self.coeff(k) != 0 <==> has_var(r@, k),
    {
        proof {
            use_type_invariant(self);
            self.lemma_wf();
        }
        &self.terms
    }

    /// `Σ coefficient · value`, or `None` when some variable has no value.
    pub fn evaluate(&self, values: &VariableValues) -> (r: Option<Length>)
        requires
            sum_fits(self.term_seq(), values.value_map()),
        ensures
            r is None <==> exists|k: VarKey| self.coeff(k) != 0 && !values.value_map().dom().contains(k),
            r matches Some(l) ==> l.ticks == weighted_sum(self.term_seq(), values.value_map(), self.term_seq().len() as int),
    {
        proof {
            use_type_invariant(self);
            use_type_invariant(values);
            self.lemma_wf();
            values.lemma_wf();
        }
        let ghost t = self.term_seq();
        let ghost vm = values.value_map();
        let mut total: i64 = 0;
        let mut i: usize = 0;
        while i < self.terms.len()
            invariant
                i <= t.len(),
                t == self.terms@,
                t == self.term_seq(),
                terms_wf(t),
                vm == values.value_map(),
                sum_fits(t, vm),
                forall|k: VarKey| #[trigger] self.coeff(k) != 0 <==> has_var(t, k),
                forall|j: int| 0 <= j < i ==> vm.dom().contains((#[trigger] t[j]).0@),
                total == weighted_sum(t, vm, i as int),
            decreases t.len() - i,
        {
            let (variable, coefficient) = &self.terms[i];
            match values.get(variable) {
                Some(value) => {
                    proof {
                        assert(t[i as int].0@ == variable@);
                        assert(vm[t[i as int].0@] == value);
                        assert(i64::MIN <= t[i as int].1 * vm[t[i as int].0@].ticks <= i64::MAX);
                        assert(weighted_sum(t, vm, i + 1) == weighted_sum(t, vm, i as int) + t[i as int].1 * vm[t[i as int].0@].ticks);
                        assert(i64::MIN <= weighted_sum(t, vm, i + 1) <= i64::MAX);
                    }
                    let product: i64 = *coefficient * value.ticks;
                    total = total + product;
                },
                None => {
                    proof {
                        assert(has_var(t, t[i as int].0@));
                        assert(self.coeff(t[i as int].0@) != 0);
                    }
                    return None;
                },
            }
            i = i + 1;
        }
        proof {
            assert forall|k: VarKey| self.coeff(k) != 0 implies vm.dom().contains(k) by {
                let j = choose|j: int| 0 <= j < t.len() && t[j].0@ == k;
                assert(vm.dom().contains(t[j].0@));
            }
        }
        Some(Length::from_ticks(total))
    }
}

/// `Σ_{j < n} coefficient_j · value_j` over a term list.
pub open spec fn weighted_sum(t: Seq<(ConstraintVariable, i64)>, values: Map<VarKey, Length>, n: int) -> int
    decreases n,
{
    if n <= 0 {
        0
    } else {
        weighted_sum(t, values, n - 1) + t[n - 1].1 * values[t[n - 1].0@].ticks
    }
}

/// Every product and running total of a weighted sum fits in an `i64`.
pub open spec fn sum_fits(t: Seq<(ConstraintVariable, i64)>, values: Map<VarKey, Length>) -> bool {
    &&& forall|j: int| 0 <= j < t.len() ==> i64::MIN <= (#[trigger] t[j]).1 * values[t[j].0@].ticks <= i64::MAX
    &&& forall|n: int| 0 <= n <= t.len() ==> i64::MIN <= #[trigger] weighted_sum(t, values, n) <= i64::MAX
}

/// Terms whose products are each at most `bound` in size, `len · bound` at
/// most `i64::MAX`, sum without overflow.
pub proof fn lemma_sum_fits_bounded(t: Seq<(ConstraintVariable, i64)>, values: Map<VarKey, Length>, bound: int)
    requires
        bound >= 0,
        forall|j: int| 0 <= j < t.len() ==> -bound <= (#[trigger] t[j]).1 * values[t[j].0@].ticks <= bound,
        t.len() * bound <= i64::MAX,
    ensures
        sum_fits(t, values),
{
    assert forall|j: int| 0 <= j < t.len() implies i64::MIN <= (#[trigger] t[j]).1 * values[t[j].0@].ticks <= i64::MAX by {
        assert(bound <= t.len() * bound) by (nonlinear_arith)
            requires
                t.len() >= 1,
                bound >= 0,
        ;
    }
    assert forall|n: int| 0 <= n <= t.len() implies i64::MIN <= #[trigger] weighted_sum(t, values, n) <= i64::MAX by {
        lemma_weighted_sum_bounded(t, values, bound, n);
        assert(n * bound <= t.len() * bound) by (nonlinear_arith)
            requires
                n <= t.len(),
                bound >= 0,
        ;
        assert(-n * bound == -(n * bound)) by (nonlinear_arith);
    }
}

proof fn lemma_weighted_sum_bounded(t: Seq<(ConstraintVariable, i64)>, values: Map<VarKey, Length>, bound: int, n: int)
    requires
        0 <= n <= t.len(),
        forall|j: int| 0 <= j < t.len() ==> -bound <= (#[trigger] t[j]).1 * values[t[j].0@].ticks <= bound,
    ensures
        -n * bound <= weighted_sum(t, values, n) <= n * bound,
    decreases n,
{
    if n > 0 {
        lemma_weighted_sum_bounded(t, values, bound, n - 1);
        assert(-bound <= t[n - 1].1 * values[t[n - 1].0@].ticks <= bound);
        assert((n - 1) * bound + bound == n * bound) by (nonlinear_arith);
        assert(-(n - 1) * bound - bound == -n * bound) by (nonlinear_arith);
    }
}

// ---------------------------------------------------------------------------
// Variable values
// ---------------------------------------------------------------------------

/// The map that a list of pairs describes, a later pair for a variable overriding an earlier one.
pub open spec fn pairs_map(s: Seq<(ConstraintVariable, Length)>) -> Map<VarKey, Length>
    decreases s.len(),
{
    if s.len() == 0 {
        Map::empty()
    } else {
        pairs_map(s.drop_last()).insert(s.last().0@, s.last().1)
    }
}

/// An assignment of lengths to variables (each variable at most once).
#[derive(Debug)]
pub struct VariableValues {
    entries: Vec<(ConstraintVariable, Length)>,
}

impl VariableValues {
    #[verifier::type_invariant]
    spec fn wf(self) -> bool {
        distinct_vars(self.entries@)
    }

    /// The assignment as a map.
    pub closed spec fn value_map(&self) -> Map<VarKey, Length> {
        Map::new(|k: VarKey| has_var(self.entries@, k), |k: VarKey| value_at(self.entries@, k))
    }

    proof fn lemma_wf(&self)
        requires
            self.wf(),
        ensures
            self.value_map().dom().finite(),
    {
        let s = Set::new(|k: VarKey| has_var(self.entries@, k));
        let keys = self.entries@.map_values(|e: (ConstraintVariable, Length)| e.0@).to_set();
        assert(s =~= keys) by {
            assert forall|k: VarKey| s.contains(k) implies keys.contains(k) by {
                let i = choose|i: int| 0 <= i < self.entries@.len() && self.entries@[i].0@ == k;
                assert(self.entries@.map_values(|e: (ConstraintVariable, Length)| e.0@)[i] == k);
            }
            assert forall|k: VarKey| keys.contains(k) implies s.contains(k) by {
                let sq = self.entries@.map_values(|e: (ConstraintVariable, Length)| e.0@);
                let i = choose|i: int| 0 <= i < sq.len() && sq[i] == k;
                assert(self.entries@[i].0@ == k);
            }
        }
        assert(self.value_map().dom() =~= s);
    }

    pub fn new() -> (r: VariableValues)
        ensures
            r.value_map() == Map::<VarKey, Length>::empty(),
    {
        let r = VariableValues { entries: Vec::new() };
        assert(r.value_map() =~= Map::<VarKey, Length>::empty());
        r
    }

    /// The value assigned to `variable`.
    pub fn get(&self, variable: &ConstraintVariable) -> (r: Option<Length>)
        ensures
            r matches Some(v) ==> self.value_map().dom().contains(variable@) && self.value_map()[variable@] == v,
            r is None ==> !self.value_map().dom().contains(variable@),
    {
        proof {
            use_type_invariant(self);
        }
        match find_var(&self.entries, variable) {
            Some(i) => {
                proof {
                    lemma_value_at(self.entries@, i as int);
                }
                Some(self.entries[i].1)
            },
            None => None,
        }
    }

    /// Assigns `value` to `variable`, replacing any earlier value.
    pub fn insert(&mut self, variable: ConstraintVariable, value: Length)
        ensures
            final(self).value_map() == old(self).value_map().insert(variable@, value),
    {
        proof {
            use_type_invariant(&*self);
        }
        let mut entries: Vec<(ConstraintVariable, Length)> = Vec::new();
        std::mem::swap(&mut entries, &mut self.entries);
        let ghost before = entries@;
        match find_var(&entries, &variable) {
            Some(i) => {
                entries.set(i, (variable, value));
                proof {
                    let after = entries@;
                    assert(distinct_vars(after)) by {
                        assert forall|a: int, b: int| 0 <= a < b < after.len() implies after[a].0@ != after[b].0@ by {
                            assert(before[a].0@ != before[b].0@);
                        }
                    }
                    lemma_value_at(after, i as int);
                    let m1 = Map::new(|k: VarKey| has_var(after, k), |k: VarKey| value_at(after, k));
                    let m0 = Map::new(|k: VarKey| has_var(before, k), |k: VarKey| value_at(before, k));
                    assert forall|k: VarKey| k != after[i as int].0@ implies (has_var(after, k) == has_var(before, k) && (has_var(after, k) ==> value_at(after, k) == value_at(before, k))) by {
                        if has_var(before, k) {
                            let j = choose|j: int| 0 <= j < before.len() && before[j].0@ == k;
                            lemma_value_at(before, j);
                            lemma_value_at(after, j);
                        }
                        if has_var(after, k) {
                            let j = choose|j: int| 0 <= j < after.len() && after[j].0@ == k;
                            assert(before[j].0@ == k);
                        }
                    }
                    assert(m1 =~= m0.insert(after[i as int].0@, value));
                }
            },
            None => {
                let ghost n = before.len() as int;
                entries.push((variable, value));
                proof {
                    let after = entries@;
                    assert(distinct_vars(after)) by {
                        assert forall|a: int, b: int| 0 <= a < b < after.len() implies after[a].0@ != after[b].0@ by {
                            if b < n {
                                assert(before[a].0@ != before[b].0@);
                            } else {
                                assert(before[a].0@ != after[b].0@);
                            }
                        }
                    }
                    lemma_value_at(after, n);
                    let m1 = Map::new(|k: VarKey| has_var(after, k), |k: VarKey| value_at(after, k));
                    let m0 = Map::new(|k: VarKey| has_var(before, k), |k: VarKey| value_at(before, k));
                    assert forall|k: VarKey| k != after[n].0@ implies (has_var(after, k) == has_var(before, k) && (has_var(after, k) ==> value_at(after, k) == value_at(before, k))) by {
                        if has_var(before, k) {
                            let j = choose|j: int| 0 <= j < before.len() && before[j].0@ == k;
                            lemma_value_at(before, j);
                            lemma_value_at(after, j);
                        }
                        if has_var(after, k) {
                            let j = choose|j: int| 0 <= j < after.len() && after[j].0@ == k;
                            assert(j < n);
                            assert(before[j].0@ == k);
                        }
                    }
                    assert(m1 =~= m0.insert(after[n].0@, value));
                }
            },
        }
        self.entries = entries;
    }

    /// Builds an assignment from pairs; a later pair for the same variable wins.
    pub fn from_pairs(pairs: Vec<(ConstraintVariable, Length)>) -> (r: VariableValues)
        ensures
            r.value_map() == pairs_map(pairs@),
    {
        let mut values = VariableValues::new();
        let mut i: usize = 0;
        while i < pairs.len()
            invariant
                i <= pairs.len(),
                values.value_map() == pairs_map(pairs@.subrange(0, i as int)),
            decreases pairs.len() - i,
        {
            let variable = pairs[i].0.clone();
            let value = pairs[i].1;
            values.insert(variable, value);
            proof {
                let s1 = pairs@.subrange(0, i + 1);
                assert(s1.drop_last() =~= pairs@.subrange(0, i as int));
            }
            i = i + 1;
        }
        assert(pairs@.subrange(0, pairs.len() as int) =~= pairs@);
        values
    }

    /// The assignments, each variable once.
    pub fn entries(&self) -> (r: &Vec<(ConstraintVariable, Length)>)
        ensures
            distinct_vars(r@),
            forall|k: VarKey| #[trigger] self.value_map().dom().contains(k) <==> has_var(r@, k),
            forall|i: int| 0 <= i < r@.len() ==> self.value_map()[#[trigger] r@[i].0@] == r@[i].1,
    {
        proof {
            use_type_invariant(self);
            assert forall|i: int| 0 <= i < self.entries@.len() implies self.value_map()[#[trigger] self.entries@[i].0@] == self.entries@[i].1 by {
                lemma_value_at(self.entries@, i);
            }
        }
        &self.entries
    }
}


// ---------------------------------------------------------------------------
// Linear constraints
// ---------------------------------------------------------------------------

/// `expression = target`, named by `id`.
#[derive(Debug)]
pub struct LinearConstraint {
    id: String,
    expression: LinearExpression,
    target: Length,
}

impl LinearConstraint {
    pub closed spec fn id_view(&self) -> Seq<char> {
        self.id@
    }

    pub closed spec fn expr(&self) -> LinearExpression {
        self.expression
    }

    pub closed spec fn target_value(&self) -> Length {
        self.target
    }

    pub fn new(id: &str, expression: LinearExpression, target: Length) -> (r: LinearConstraint)
        ensures
            r.id_view() == id@,
            r.expr() == expression,
            r.target_value() == target,
    {
        LinearConstraint { id: id.to_owned(), expression, target }
    }

    pub fn id(&self) -> (r: &str)
        ensures
            r@ == self.id_view(),
    {
        self.id.as_str()
    }

    pub fn expression(&self) -> (r: &LinearExpression)
        ensures
            *r == self.expr(),
    {
        &self.expression
    }

    pub fn target(&self) -> (r: Length)
        ensures
            r == self.target_value(),
    {
        self.target
    }

    /// Whether the expression evaluates to the target; `None` when some variable has no value.
    pub fn is_satisfied(&self, values: &VariableValues) -> (r: Option<bool>)
        requires
            sum_fits(self.expr().term_seq(), values.value_map()),
        ensures
            r is None <==> exists|k: VarKey| self.expr().coeff(k) != 0 && !values.value_map().dom().contains(k),
            r matches Some(b) ==> (b <==> weighted_sum(
                self.expr().term_seq(),
                values.value_map(),
                self.expr().term_seq().len() as int,
            ) == self.target_value().ticks),
    {
        match self.expression.evaluate(values) {
            Some(actual) => Some(actual.ticks == self.target.ticks),
            None => None,
        }
    }
}

// ---------------------------------------------------------------------------
// Specifications over constraint lists
// ---------------------------------------------------------------------------

/// The views of a list of variables.
pub open spec fn key_views(s: Seq<ConstraintVariable>) -> Seq<VarKey> {
    s.map_values(|v: ConstraintVariable| v@)
}

/// Variables strictly increasing (hence distinct).
pub open spec fn sorted_vars(s: Seq<ConstraintVariable>) -> bool {
    forall|i: int, j: int| 0 <= i < j < s.len() ==> var_lt(#[trigger] s[i]@, #[trigger] s[j]@)
}

/// The coefficients of `e` at the variables `keys`.
pub open spec fn coeff_row(e: LinearExpression, keys: Seq<VarKey>) -> Seq<int> {
    Seq::new(keys.len(), |j: int| e.coeff(keys[j]))
}

/// The coefficient matrix of the constraints over `keys`.
pub open spec fn coeff_rows(cs: Seq<LinearConstraint>, keys: Seq<VarKey>) -> Seq<Seq<int>> {
    Seq::new(cs.len(), |i: int| coeff_row(cs[i].expr(), keys))
}

/// The targets of the constraints, in ticks.
pub open spec fn target_vec(cs: Seq<LinearConstraint>) -> Seq<int> {
    Seq::new(cs.len(), |i: int| cs[i].target_value().ticks as int)
}

/// The coefficient of `k` in `Σ_{i<m} c[i]·cs[i]`.
pub open spec fn coeff_combo(cs: Seq<LinearConstraint>, c: Seq<int>, k: VarKey, m: int) -> int
    decreases m,
{
    if m <= 0 {
        0
    } else {
        coeff_combo(cs, c, k, m - 1) + c[m - 1] * cs[m - 1].expr().coeff(k)
    }
}

/// `d·e = Σ c[i]·cs[i]` as expressions, with `d ≠ 0`.
pub open spec fn dependence_witness(cs: Seq<LinearConstraint>, e: LinearExpression, c: Seq<int>, d: int) -> bool {
    &&& d != 0
    &&& c.len() == cs.len()
    &&& forall|k: VarKey| #[trigger] coeff_combo(cs, c, k, cs.len() as int) == d * e.coeff(k)
}

/// `e` is a rational combination of the constraints' expressions: adding a
/// constraint on `e` adds no new information about the variables.
pub open spec fn depends_on(cs: Seq<LinearConstraint>, e: LinearExpression) -> bool {
    exists|c: Seq<int>, d: int| #![trigger dependence_witness(cs, e, c, d)] dependence_witness(cs, e, c, d)
}

/// No constraint mentions `k`.
pub open spec fn unconstrained(cs: Seq<LinearConstraint>, k: VarKey) -> bool {
    forall|i: int| 0 <= i < cs.len() ==> #[trigger] cs[i].expr().coeff(k) == 0
}

/// Rounds `num / den` (with `den > 0`) to the nearest integer, halves away from zero.
pub open spec fn round_half_away(num: int, den: int) -> int {
    if num >= 0 {
        (2 * num + den) / (2 * den)
    } else {
        -((2 * (-num) + den) / (2 * den))
    }
}

/// `x` limited to the range of `i64`.
pub open spec fn clamp_i64(x: int) -> i64 {
    if x > i64::MAX {
        i64::MAX
    } else if x < i64::MIN {
        i64::MIN
    } else {
        x as i64
    }
}

/// The length nearest to `num / den` ticks.
pub open spec fn rounded_length(num: int, den: int) -> Length {
    Length { ticks: clamp_i64(round_half_away(num, den)) }
}

/// `sol` assigns each of `keys` the rounding of `x[j] / den`, and nothing else.
pub open spec fn rounded_solution(sol: Map<VarKey, Length>, keys: Seq<VarKey>, x: Seq<int>, den: int) -> bool {
    &&& forall|k: VarKey| #[trigger] sol.dom().contains(k) <==> keys.contains(k)
    &&& forall|j: int| 0 <= j < keys.len() ==> sol[#[trigger] keys[j]] == rounded_length(x[j], den)
}

proof fn lemma_combo_matches(cs: Seq<LinearConstraint>, keys: Seq<VarKey>, c: Seq<int>, j: int, m: int)
    requires
        0 <= j < keys.len(),
        m <= cs.len(),
    ensures
        combo(coeff_rows(cs, keys), c, j, m) == coeff_combo(cs, c, keys[j], m),
    decreases m,
{
    if m > 0 {
        lemma_combo_matches(cs, keys, c, j, m - 1);
    }
}

proof fn lemma_coeff_combo_unconstrained(cs: Seq<LinearConstraint>, c: Seq<int>, k: VarKey, m: int)
    requires
        m <= cs.len(),
        forall|i: int| 0 <= i < m ==> #[trigger] cs[i].expr().coeff(k) == 0,
    ensures
        coeff_combo(cs, c, k, m) == 0,
    decreases m,
{
    if m > 0 {
        lemma_coeff_combo_unconstrained(cs, c, k, m - 1);
        assert(cs[m - 1].expr().coeff(k) == 0);
        assert(c[m - 1] * 0 == 0);
    }
}

/// Row-space membership over a list of variables that covers every variable in use
/// is the same as dependence of the expressions.
proof fn lemma_in_span_iff_depends(cs: Seq<LinearConstraint>, e: LinearExpression, keys: Seq<VarKey>)
    requires
        forall|k: VarKey| #![trigger keys.contains(k)]
            (e.coeff(k) != 0 || exists|i: int| 0 <= i < cs.len() && #[trigger] cs[i].expr().coeff(k) != 0) ==> keys.contains(k),
    ensures
        in_span(coeff_rows(cs, keys), coeff_row(e, keys), keys.len() as int) <==> depends_on(cs, e),
{
    let rows = coeff_rows(cs, keys);
    let v = coeff_row(e, keys);
    let n = keys.len() as int;
    if in_span(rows, v, n) {
        let (c, d) = choose|c: Seq<int>, d: int| in_span_witness(rows, v, n, c, d);
        assert forall|k: VarKey| #[trigger] coeff_combo(cs, c, k, cs.len() as int) == d * e.coeff(k) by {
            if keys.contains(k) {
                let j = choose|j: int| 0 <= j < keys.len() && keys[j] == k;
                lemma_combo_matches(cs, keys, c, j, cs.len() as int);
                assert(combo(rows, c, j, rows.len() as int) == d * v[j]);
            } else {
                assert forall|i: int| 0 <= i < cs.len() implies #[trigger] cs[i].expr().coeff(k) == 0 by {
                    if cs[i].expr().coeff(k) != 0 {
                        assert(keys.contains(k));
                    }
                }
                lemma_coeff_combo_unconstrained(cs, c, k, cs.len() as int);
                assert(e.coeff(k) == 0);
                assert(d * 0 == 0);
            }
        }
        assert(dependence_witness(cs, e, c, d));
    }
    if depends_on(cs, e) {
        let (c, d) = choose|c: Seq<int>, d: int| dependence_witness(cs, e, c, d);
        assert forall|j: int| 0 <= j < n implies #[trigger] combo(rows, c, j, rows.len() as int) == d * v[j] by {
            lemma_combo_matches(cs, keys, c, j, cs.len() as int);
            assert(coeff_combo(cs, c, keys[j], cs.len() as int) == d * e.coeff(keys[j]));
        }
        assert(in_span_witness(rows, v, n, c, d));
    }
}

/// A constraint whose expression is a nonzero multiple of an existing one adds
/// nothing: the system would be over-constrained by it.
/// A constraint that uses a variable none of the others uses is independent of
/// them.
pub proof fn lemma_fresh_variable_independent(cs: Seq<LinearConstraint>, e: LinearExpression, k: VarKey)
    requires
        e.coeff(k) != 0,
        unconstrained(cs, k),
    ensures
        !depends_on(cs, e),
{
    if depends_on(cs, e) {
        let (c, d) = choose|c: Seq<int>, d: int| dependence_witness(cs, e, c, d);
        lemma_coeff_combo_unconstrained(cs, c, k, cs.len() as int);
        assert(coeff_combo(cs, c, k, cs.len() as int) == d * e.coeff(k));
        let x = e.coeff(k);
        assert(d * x != 0) by (nonlinear_arith)
            requires
                d != 0,
                x != 0,
        ;
    }
}

pub proof fn lemma_multiple_of_existing_depends(cs: Seq<LinearConstraint>, i: int, s: int, e: LinearExpression)
    requires
        0 <= i < cs.len(),
        s != 0,
        forall|k: VarKey| #[trigger] e.coeff(k) == s * cs[i].expr().coeff(k),
    ensures
        depends_on(cs, e),
{
    let c = Seq::new(cs.len(), |t: int| if t == i { s } else { 0 });
    assert forall|k: VarKey| #[trigger] coeff_combo(cs, c, k, cs.len() as int) == 1 * e.coeff(k) by {
        lemma_unit_combo(cs, c, k, i, s, cs.len() as int);
    }
    assert(dependence_witness(cs, e, c, 1));
}

proof fn lemma_unit_combo(cs: Seq<LinearConstraint>, c: Seq<int>, k: VarKey, i: int, s: int, m: int)
    requires
        0 <= i < cs.len(),
        m <= cs.len(),
        c.len() == cs.len(),
        forall|t: int| 0 <= t < c.len() ==> #[trigger] c[t] == if t == i { s } else { 0 },
    ensures
        coeff_combo(cs, c, k, m) == if i < m { s * cs[i].expr().coeff(k) } else { 0 },
    decreases m,
{
    if m > 0 {
        lemma_unit_combo(cs, c, k, i, s, m - 1);
        assert(c[m - 1] == if m - 1 == i { s } else { 0 });
        if m - 1 != i {
            assert(c[m - 1] * cs[m - 1].expr().coeff(k) == 0);
        }
    }
}

proof fn lemma_round_exact(v: int, den: int)
    requires
        den > 0,
    ensures
        round_half_away(den * v, den) == v,
{
    if v >= 0 {
        assert(den * v >= 0) by (nonlinear_arith)
            requires
                den > 0,
                v >= 0,
        ;
        assert(2 * (den * v) + den == v * (2 * den) + den) by (nonlinear_arith);
        vstd::arithmetic::div_mod::lemma_fundamental_div_mod_converse(2 * (den * v) + den, 2 * den, v, den);
    } else {
        assert(den * v < 0) by (nonlinear_arith)
            requires
                den > 0,
                v < 0,
        ;
        assert(2 * (-(den * v)) + den == (-v) * (2 * den) + den) by (nonlinear_arith);
        vstd::arithmetic::div_mod::lemma_fundamental_div_mod_converse(2 * (-(den * v)) + den, 2 * den, -v, den);
    }
}

proof fn lemma_round_nonneg(num: int, den: int, q: int, r: int)
    requires
        den > 0,
        num >= 0,
        0 <= r < den,
        num == den * q + r,
    ensures
        (2 * num + den) / (2 * den) == if r >= den - r { q + 1 } else { q },
{
    if r >= den - r {
        assert(2 * num + den == (q + 1) * (2 * den) + (2 * r - den)) by (nonlinear_arith)
            requires
                num == den * q + r,
        ;
        vstd::arithmetic::div_mod::lemma_fundamental_div_mod_converse(2 * num + den, 2 * den, q + 1, 2 * r - den);
    } else {
        assert(2 * num + den == q * (2 * den) + (2 * r + den)) by (nonlinear_arith)
            requires
                num == den * q + r,
        ;
        vstd::arithmetic::div_mod::lemma_fundamental_div_mod_converse(2 * num + den, 2 * den, q, 2 * r + den);
    }
}

/// `round_half_away(num, den)` on machine integers, or `None` when it leaves `i128`.
pub(crate) fn round_half_away_exec(num: i128, den: i128) -> (r: Option<i128>)
    requires
        den > 0,
    ensures
        r matches Some(v) ==> v == round_half_away(num as int, den as int),
        -0x4000_0000_0000_0000_0000_0000_0000_0000 <= num <= 0x4000_0000_0000_0000_0000_0000_0000_0000 ==> r is Some,
{
    let magnitude: i128 = if num >= 0 {
        num
    } else {
        match 0i128.checked_sub(num) {
            Some(m) => m,
            None => {
                return None;
            },
        }
    };
    let mag = magnitude as u128;
    let d = den as u128;
    let q = mag / d;
    let rem = mag % d;
    proof {
        vstd::arithmetic::div_mod::lemma_fundamental_div_mod(mag as int, d as int);
        lemma_round_nonneg(mag as int, d as int, q as int, rem as int);
        assert(q <= mag) by (nonlinear_arith)
            requires
                mag == d * q + rem,
                d >= 1,
                rem >= 0,
                q >= 0,
        ;
    }
    let rounded: u128 = if rem >= d - rem {
        q + 1
    } else {
        q
    };
    if rounded > i128::MAX as u128 {
        return None;
    }
    let value = rounded as i128;
    if num >= 0 {
        Some(value)
    } else {
        Some(-value)
    }
}

/// The nearest `i64` to `x`.
pub(crate) fn clamp_i64_exec(x: i128) -> (r: i64)
    ensures
        r == clamp_i64(x as int),
{
    if x > i64::MAX as i128 {
        i64::MAX
    } else if x < i64::MIN as i128 {
        i64::MIN
    } else {
        x as i64
    }
}

/// Copies a list of variables.
fn clone_vars(vars: &Vec<ConstraintVariable>) -> (r: Vec<ConstraintVariable>)
    ensures
        key_views(r@) == key_views(vars@),
        r@.len() == vars@.len(),
        forall|i: int| 0 <= i < vars@.len() ==> (#[trigger] r@[i])@ == vars@[i]@,
{
    let mut out: Vec<ConstraintVariable> = Vec::new();
    let mut i: usize = 0;
    while i < vars.len()
        invariant
            i <= vars.len(),
            out@.len() == i,
            forall|t: int| 0 <= t < i ==> (#[trigger] out@[t])@ == vars@[t]@,
        decreases vars.len() - i,
    {
        let c = vars[i].clone();
        out.push(c);
        i = i + 1;
    }
    assert(key_views(out@) =~= key_views(vars@));
    out
}

/// The coefficients of `e` at each of `keys`.
fn expression_row(e: &LinearExpression, keys: &Vec<ConstraintVariable>) -> (r: Vec<i128>)
    ensures
        ints(r@) == coeff_row(*e, key_views(keys@)),
        r.len() == keys.len(),
{
    let mut row: Vec<i128> = Vec::new();
    let mut j: usize = 0;
    while j < keys.len()
        invariant
            j <= keys.len(),
            row.len() == j,
            forall|t: int| 0 <= t < j ==> #[trigger] row[t] as int == e.coeff(keys[t]@),
        decreases keys.len() - j,
    {
        let c = e.coefficient(&keys[j]);
        row.push(c as i128);
        j = j + 1;
    }
    assert(ints(row@) =~= coeff_row(*e, key_views(keys@)));
    row
}

/// The coefficient matrix of `cs` over `keys`.
fn constraint_matrix(cs: &Vec<LinearConstraint>, keys: &Vec<ConstraintVariable>) -> (r: Vec<Vec<i128>>)
    ensures
        int_rows(r@) == coeff_rows(cs@, key_views(keys@)),
        r.len() == cs.len(),
        rectangular(r@, keys.len() as int),
{
    let mut rows: Vec<Vec<i128>> = Vec::new();
    let mut i: usize = 0;
    while i < cs.len()
        invariant
            i <= cs.len(),
            rows.len() == i,
            rectangular(rows@, keys.len() as int),
            forall|t: int| 0 <= t < i ==> ints(#[trigger] rows[t]@) == coeff_row(cs@[t].expr(), key_views(keys@)),
        decreases cs.len() - i,
    {
        let row = expression_row(&cs[i].expression, keys);
        rows.push(row);
        i = i + 1;
    }
    assert(int_rows(rows@) =~= coeff_rows(cs@, key_views(keys@)));
    rows
}

/// The targets of `cs`, in ticks.
fn target_vector(cs: &Vec<LinearConstraint>) -> (r: Vec<i128>)
    ensures
        ints(r@) == target_vec(cs@),
        r.len() == cs.len(),
{
    let mut out: Vec<i128> = Vec::new();
    let mut i: usize = 0;
    while i < cs.len()
        invariant
            i <= cs.len(),
            out.len() == i,
            forall|t: int| 0 <= t < i ==> #[trigger] out[t] as int == cs@[t].target_value().ticks as int,
        decreases cs.len() - i,
    {
        out.push(cs[i].target.ticks as i128);
        i = i + 1;
    }
    assert(ints(out@) =~= target_vec(cs@));
    out
}

/// `out` is each row of `rows` (width `w`), then `extra[i]` when `use_extra`,
/// then row `i` of an identity matrix.
pub open spec fn augmented(rows: Seq<Vec<i128>>, extra: Seq<i128>, use_extra: bool, w: int, out: Seq<Vec<i128>>) -> bool {
    let o = w + if use_extra { 1int } else { 0int };
    &&& out.len() == rows.len()
    &&& forall|i: int, j: int| 0 <= i < rows.len() && 0 <= j < w ==> #[trigger] out[i]@[j] == rows[i]@[j]
    &&& use_extra ==> forall|i: int| 0 <= i < rows.len() ==> #[trigger] out[i]@[w] == extra[i]
    &&& !use_extra ==> forall|i: int, t: int| 0 <= i < rows.len() && 0 <= t < rows.len() ==> #[trigger] out[i]@[w + t] == if t == i {
        1i128
    } else {
        0i128
    }
    &&& use_extra ==> forall|i: int, t: int| 0 <= i < rows.len() && 0 <= t < rows.len() ==> #[trigger] out[i]@[w + 1 + t] == if t == i {
        1i128
    } else {
        0i128
    }
}

/// Each row followed by `extra` further entries and then the matching row of an identity matrix.
fn augment_with_identity(rows: &Vec<Vec<i128>>, extra: &Vec<i128>, use_extra: bool, w: usize) -> (r: Vec<Vec<i128>>)
    requires
        rectangular(rows@, w as int),
        use_extra ==> extra.len() == rows.len(),
        w + 1 + rows.len() <= usize::MAX,
    ensures
        r.len() == rows.len(),
        rectangular(r@, (w + (if use_extra { 1int } else { 0int }) + rows.len()) as int),
        augmented(rows@, extra@, use_extra, w as int, r@),
{
    let m = rows.len();
    let mut out: Vec<Vec<i128>> = Vec::new();
    let mut i: usize = 0;
    let ghost width = (w + (if use_extra { 1int } else { 0int }) + m) as int;
    let ghost o = w + if use_extra { 1int } else { 0int };
    while i < m
        invariant
            i <= m,
            m == rows.len(),
            out.len() == i,
            use_extra ==> extra.len() == rows.len(),
            rectangular(rows@, w as int),
            rectangular(out@, width),
            width == (w + (if use_extra { 1int } else { 0int }) + m) as int,
            o == w + if use_extra { 1int } else { 0int },
            forall|a: int, j: int| 0 <= a < i && 0 <= j < w ==> #[trigger] out@[a]@[j] == rows@[a]@[j],
            use_extra ==> forall|a: int| 0 <= a < i ==> #[trigger] out@[a]@[w as int] == extra@[a],
            forall|a: int, t: int| 0 <= a < i && 0 <= t < m ==> #[trigger] out@[a]@[o + t] == if t == a {
                1i128
            } else {
                0i128
            },
        decreases m - i,
    {
        let mut row: Vec<i128> = Vec::new();
        let mut j: usize = 0;
        while j < w
            invariant
                j <= w,
                row.len() == j,
                i < rows.len(),
                rows[i as int].len() == w,
                forall|k: int| 0 <= k < j ==> #[trigger] row@[k] == rows@[i as int]@[k],
            decreases w - j,
        {
            row.push(rows[i][j]);
            j = j + 1;
        }
        if use_extra {
            row.push(extra[i]);
        }
        let ghost base = row@;
        let mut t: usize = 0;
        while t < m
            invariant
                t <= m,
                row.len() == w + (if use_extra { 1int } else { 0int }) + t,
                o == w + if use_extra { 1int } else { 0int },
                base.len() == o,
                forall|k: int| 0 <= k < o ==> #[trigger] row@[k] == base[k],
                forall|k: int| 0 <= k < t ==> #[trigger] row@[o + k] == if k == i {
                    1i128
                } else {
                    0i128
                },
            decreases m - t,
        {
            row.push(if t == i { 1 } else { 0 });
            t = t + 1;
        }
        let ghost prev = out@;
        out.push(row);
        proof {
            assert forall|a: int, j: int| 0 <= a < i + 1 && 0 <= j < w implies #[trigger] out@[a]@[j] == rows@[a]@[j] by {
                if a < i {
                    assert(out@[a] == prev[a]);
                } else {
                    assert(row@[j] == base[j]);
                }
            }
            if use_extra {
                assert forall|a: int| 0 <= a < i + 1 implies #[trigger] out@[a]@[w as int] == extra@[a] by {
                    if a < i {
                        assert(out@[a] == prev[a]);
                    } else {
                        assert(row@[w as int] == base[w as int]);
                    }
                }
            }
            assert forall|a: int, t2: int| 0 <= a < i + 1 && 0 <= t2 < m implies #[trigger] out@[a]@[o + t2] == if t2 == a {
                1i128
            } else {
                0i128
            } by {
                if a < i {
                    assert(out@[a] == prev[a]);
                }
            }
        }
        i = i + 1;
    }
    proof {
        if use_extra {
            assert forall|a: int, t: int| 0 <= a < m && 0 <= t < m implies #[trigger] out@[a]@[w + 1 + t] == if t == a {
                1i128
            } else {
                0i128
            } by {
                assert(out@[a]@[o + t] == if t == a { 1i128 } else { 0i128 });
            }
        } else {
            assert forall|a: int, t: int| 0 <= a < m && 0 <= t < m implies #[trigger] out@[a]@[w + t] == if t == a {
                1i128
            } else {
                0i128
            } by {
                assert(out@[a]@[o + t] == if t == a { 1i128 } else { 0i128 });
            }
        }
    }
    out
}

/// Entries `n .. n + m` of `v`, as integers.
pub open spec fn tail(v: Seq<i128>, n: int, m: int) -> Seq<int> {
    Seq::new(m as nat, |t: int| v[n + t] as int)
}

/// Each row of `work`, on its first `n` columns, is the combination of the
/// rows of `a` that its last `m` entries record.
pub open spec fn records_combination(work: Seq<Vec<i128>>, a: Seq<Seq<int>>, n: int, m: int) -> bool {
    forall|r: int, j: int|
        0 <= r < work.len() && 0 <= j < n ==> #[trigger] work[r]@[j] == combo(a, tail(work[r]@, n, m), j, m)
}

/// Reduces `[cand | 0]` against the pivot rows of `work` (in order), scaling
/// by each pivot used: the result `v` and scale `d` satisfy
/// `v = d·cand + Σ tail(v)ᵢ·aᵢ` on the first `n` columns, with `v` zero in
/// every pivot column. `None` on overflow, ruled out when entries stay within
/// `g` and `bb·(2g)^k` fits for `k` pivots.
fn reduce_candidate(
    work: &Vec<Vec<i128>>,
    pivots: &Vec<(usize, usize)>,
    cand: &Vec<i128>,
    n: usize,
    m: usize,
    Ghost(a): Ghost<Seq<Seq<int>>>,
    Ghost(g): Ghost<int>,
    Ghost(bb): Ghost<int>,
) -> (r: Option<(Vec<i128>, i128)>)
    requires
        n <= usize::MAX / 4,
        m <= usize::MAX / 4,
        cand.len() == n,
        work.len() == m,
        rectangular(work@, (n + m) as int),
        pivot_list(pivots@, n as int),
        pivots_cleared(work@, pivots@),
        pivots.len() <= m,
        records_combination(work@, a, n as int, m as int),
    ensures
        r matches Some((v, d)) ==> {
            &&& v.len() == n + m
            &&& d != 0
            &&& forall|j: int| 0 <= j < n ==> #[trigger] v@[j] == d * cand@[j] + combo(a, tail(v@, n as int, m as int), j, m as int)
            &&& forall|t: int| 0 <= t < pivots.len() ==> v@[(#[trigger] pivots@[t]).1 as int] == 0
            &&& (1 <= bb <= g && entries_within(work@, g) && (forall|j: int| 0 <= j < n ==> -bb <= #[trigger] cand@[j] <= bb))
                ==> (forall|j: int| 0 <= j < n + m ==> -(bb * power(2 * g, pivots.len() as nat)) <= #[trigger] v@[j] <= bb * power(
                2 * g,
                pivots.len() as nat,
            )) && -power(g, pivots.len() as nat) <= d <= power(g, pivots.len() as nat)
        },
        1 <= bb <= g && entries_within(work@, g) && (forall|j: int| 0 <= j < n ==> -bb <= #[trigger] cand@[j] <= bb) && bb * power(
            2 * g,
            m as nat,
        ) <= i128::MAX && power(g, m as nat) <= i128::MAX ==> r is Some,
{
    let ghost fits = 1 <= bb <= g && entries_within(work@, g) && (forall|j: int| 0 <= j < n ==> -bb <= #[trigger] cand@[j] <= bb);
    let ghost big = fits && bb * power(2 * g, m as nat) <= i128::MAX && power(g, m as nat) <= i128::MAX;
    let mut v: Vec<i128> = Vec::new();
    let mut j: usize = 0;
    while j < n + m
        invariant
            n <= usize::MAX / 4,
            m <= usize::MAX / 4,
            j <= n + m,
            v.len() == j,
            cand.len() == n,
            forall|t: int| 0 <= t < j ==> #[trigger] v@[t] == if t < n { cand@[t] } else { 0i128 },
        decreases n + m - j,
    {
        v.push(if j < n { cand[j] } else { 0 });
        j = j + 1;
    }
    proof {
        assert forall|t: int| 0 <= t < n implies #[trigger] v@[t] == 1 * cand@[t] + combo(a, tail(v@, n as int, m as int), t, m as int) by {
            assert forall|i: int| 0 <= i < m implies #[trigger] tail(v@, n as int, m as int)[i] == 0int by {
                assert(v@[n + i] == 0i128);
            }
            lemma_combo_zero_coeffs(a, tail(v@, n as int, m as int), t, m as int);
        }
        if fits {
            lemma_power_grows(2 * g, 0, 0);
            lemma_power_grows(g, 0, 0);
        }
    }
    let mut d: i128 = 1;
    let mut k: usize = 0;
    while k < pivots.len()
        invariant
            k <= pivots.len(),
            pivots.len() <= m,
            v.len() == n + m,
            cand.len() == n,
            work.len() == m,
            rectangular(work@, (n + m) as int),
            pivot_list(pivots@, n as int),
            pivots_cleared(work@, pivots@),
            records_combination(work@, a, n as int, m as int),
            d != 0,
            forall|j: int| 0 <= j < n ==> #[trigger] v@[j] == d * cand@[j] + combo(a, tail(v@, n as int, m as int), j, m as int),
            forall|t: int| 0 <= t < k ==> v@[(#[trigger] pivots@[t]).1 as int] == 0,
            fits == (1 <= bb <= g && entries_within(work@, g) && (forall|j: int| 0 <= j < n ==> -bb <= #[trigger] cand@[j] <= bb)),
            big == (fits && bb * power(2 * g, m as nat) <= i128::MAX && power(g, m as nat) <= i128::MAX),
            fits ==> forall|j: int| 0 <= j < n + m ==> -(bb * power(2 * g, k as nat)) <= #[trigger] v@[j] <= bb * power(2 * g, k as nat),
            fits ==> -power(g, k as nat) <= d <= power(g, k as nat),
        decreases pivots.len() - k,
    {
        let (row, col) = pivots[k];
        proof {
            assert(pivots@[k as int].0 == k);
            assert(work@[k as int]@[col as int] != 0);
        }
        if v[col] != 0 {
            let p = work[row][col];
            if p == 0 {
                return None;
            }
            let factor = v[col];
            let ghost vb = v@;
            let ghost wr = work@[row as int]@;
            let ghost vk = bb * power(2 * g, k as nat);
            proof {
                if big {
                    lemma_power_grows(2 * g, (k + 1) as nat, m as nat);
                    lemma_power_grows(2 * g, 0, k as nat);
                    assert(bb * power(2 * g, (k + 1) as nat) == 2 * g * vk) by (nonlinear_arith)
                        requires
                            power(2 * g, (k + 1) as nat) == 2 * g * power(2 * g, k as nat),
                            vk == bb * power(2 * g, k as nat),
                    ;
                    assert(bb * power(2 * g, (k + 1) as nat) <= bb * power(2 * g, m as nat)) by (nonlinear_arith)
                        requires
                            1 <= bb,
                            power(2 * g, (k + 1) as nat) <= power(2 * g, m as nat),
                    ;
                    assert(0 <= vk) by (nonlinear_arith)
                        requires
                            1 <= bb,
                            1 <= power(2 * g, k as nat),
                            vk == bb * power(2 * g, k as nat),
                    ;
                    assert forall|j: int| 0 <= j < vb.len() implies in_i128(#[trigger] (p * vb[j])) && in_i128(factor * wr[j])
                        && in_i128(p * vb[j] - factor * wr[j]) by {
                        assert(-g <= p <= g);
                        assert(-g <= wr[j] <= g);
                        assert(-vk <= vb[j] <= vk);
                        assert(-vk <= factor <= vk);
                        lemma_mul_within(p as int, vb[j] as int, g, vk);
                        lemma_mul_within(factor as int, wr[j] as int, vk, g);
                        assert(g * vk == vk * g) by (nonlinear_arith);
                        assert(2 * g * vk == g * vk + vk * g) by (nonlinear_arith);
                        assert(0 <= g * vk) by (nonlinear_arith)
                            requires
                                1 <= g,
                                0 <= vk,
                        ;
                    }
                }
            }
            let next = match scale_sub(&v, p, &work[row], factor) {
                Some(x) => x,
                None => {
                    return None;
                },
            };
            let ghost db = d;
            proof {
                if big {
                    lemma_power_grows(g, (k + 1) as nat, m as nat);
                    lemma_mul_within(d as int, p as int, power(g, k as nat), g);
                    assert(power(g, k as nat) * g == power(g, (k + 1) as nat)) by (nonlinear_arith)
                        requires
                            power(g, (k + 1) as nat) == g * power(g, k as nat),
                    ;
                }
            }
            d = match d.checked_mul(p) {
                Some(x) => x,
                None => {
                    return None;
                },
            };
            v = next;
            proof {
                lemma_nonzero_product(db as int, p as int);
                let tv = tail(vb, n as int, m as int);
                let tw = tail(wr, n as int, m as int);
                assert(tail(v@, n as int, m as int) =~= scale_sub_coeffs(p as int, tv, factor as int, tw));
                assert forall|j: int| 0 <= j < n implies #[trigger] v@[j] == d * cand@[j] + combo(a, tail(v@, n as int, m as int), j, m as int) by {
                    let c1 = combo(a, tv, j, m as int);
                    let c2 = combo(a, tw, j, m as int);
                    assert(vb[j] == db * cand@[j] + c1);
                    assert(wr[j] == c2);
                    lemma_combo_scale_sub(a, p as int, tv, factor as int, tw, j, m as int);
                    let x = cand@[j] as int;
                    assert(p * (db * x + c1) - factor * c2 == (db * p) * x + (p * c1 - factor * c2)) by (nonlinear_arith);
                }
                assert forall|t: int| 0 <= t < k + 1 implies v@[(#[trigger] pivots@[t]).1 as int] == 0 by {
                    let c = pivots@[t].1 as int;
                    if t < k {
                        assert(vb[c] == 0);
                        assert(wr[c] == 0);
                    } else {
                        assert(p * factor - factor * p == 0) by (nonlinear_arith);
                    }
                }
                if fits {
                    let vk1 = bb * power(2 * g, (k + 1) as nat);
                    assert(bb * power(2 * g, (k + 1) as nat) == 2 * g * vk) by (nonlinear_arith)
                        requires
                            power(2 * g, (k + 1) as nat) == 2 * g * power(2 * g, k as nat),
                            vk == bb * power(2 * g, k as nat),
                    ;
                    lemma_power_grows(2 * g, 0, k as nat);
                    assert(0 <= vk) by (nonlinear_arith)
                        requires
                            1 <= bb,
                            1 <= power(2 * g, k as nat),
                            vk == bb * power(2 * g, k as nat),
                    ;
                    assert forall|j: int| 0 <= j < n + m implies -vk1 <= #[trigger] v@[j] <= vk1 by {
                        assert(-g <= p <= g);
                        assert(-g <= wr[j] <= g);
                        assert(-vk <= vb[j] <= vk);
                        assert(-vk <= factor <= vk);
                        lemma_mul_within(p as int, vb[j] as int, g, vk);
                        lemma_mul_within(factor as int, wr[j] as int, vk, g);
                        assert(g * vk == vk * g) by (nonlinear_arith);
                        assert(2 * g * vk == g * vk + vk * g) by (nonlinear_arith);
                        assert(0 <= g * vk) by (nonlinear_arith)
                            requires
                                1 <= g,
                                0 <= vk,
                        ;
                    }
                    lemma_mul_within(db as int, p as int, power(g, k as nat), g);
                    assert(power(g, k as nat) * g == power(g, (k + 1) as nat)) by (nonlinear_arith)
                        requires
                            power(g, (k + 1) as nat) == g * power(g, k as nat),
                    ;
                }
            }
        } else {
            proof {
                if fits {
                    lemma_power_grows(2 * g, k as nat, (k + 1) as nat);
                    lemma_power_grows(g, k as nat, (k + 1) as nat);
                    lemma_power_grows(2 * g, 0, k as nat);
                    let vk = bb * power(2 * g, k as nat);
                    let vk1 = bb * power(2 * g, (k + 1) as nat);
                    assert(vk <= vk1) by (nonlinear_arith)
                        requires
                            1 <= bb,
                            power(2 * g, k as nat) <= power(2 * g, (k + 1) as nat),
                            vk == bb * power(2 * g, k as nat),
                            vk1 == bb * power(2 * g, (k + 1) as nat),
                    ;
                }
                assert forall|t: int| 0 <= t < k + 1 implies v@[(#[trigger] pivots@[t]).1 as int] == 0 by {
                    if t == k {
                        assert(v@[col as int] == 0);
                    }
                }
            }
        }
        k = k + 1;
    }
    Some((v, d))
}

proof fn lemma_nonzero_product(x: int, y: int)
    requires
        x != 0,
        y != 0,
    ensures
        x * y != 0,
{
    assert(x * y != 0) by (nonlinear_arith)
        requires
            x != 0,
            y != 0,
    ;
}

proof fn lemma_combo_zero_coeffs(a: Seq<Seq<int>>, c: Seq<int>, j: int, k: int)
    requires
        forall|i: int| 0 <= i < k ==> #[trigger] c[i] == 0int,
    ensures
        combo(a, c, j, k) == 0,
    decreases k,
{
    if k > 0 {
        lemma_combo_zero_coeffs(a, c, j, k - 1);
        assert(c[k - 1] == 0int);
        assert(c[k - 1] * a[k - 1][j] == 0);
    }
}

/// The product of the first `k` pivot entries leaving out entry `t`.
pub open spec fn pivot_prod_without(work: Seq<Vec<i128>>, pivots: Seq<(usize, usize)>, k: int, t: int) -> int
    decreases k,
{
    if k <= 0 {
        1
    } else if k - 1 == t {
        pivot_prod_without(work, pivots, k - 1, t)
    } else {
        pivot_prod_without(work, pivots, k - 1, t) * pivot_entry(work, pivots, k - 1)
    }
}

proof fn lemma_pivot_prod_factor(work: Seq<Vec<i128>>, pivots: Seq<(usize, usize)>, k: int, t: int)
    requires
        0 <= t < k,
    ensures
        pivot_prod(work, pivots, k) == pivot_entry(work, pivots, t) * pivot_prod_without(work, pivots, k, t),
    decreases k,
{
    if k - 1 == t {
        let e = pivot_entry(work, pivots, t);
        let q = pivot_prod(work, pivots, k - 1);
        lemma_pivot_prod_without_self(work, pivots, k - 1, t);
        assert(q * e == e * q) by (nonlinear_arith);
    } else {
        lemma_pivot_prod_factor(work, pivots, k - 1, t);
        let e = pivot_entry(work, pivots, t);
        let w = pivot_prod_without(work, pivots, k - 1, t);
        let x = pivot_entry(work, pivots, k - 1);
        assert((e * w) * x == e * (w * x)) by (nonlinear_arith);
    }
}

proof fn lemma_pivot_prod_without_self(work: Seq<Vec<i128>>, pivots: Seq<(usize, usize)>, k: int, t: int)
    requires
        t >= k,
    ensures
        pivot_prod_without(work, pivots, k, t) == pivot_prod(work, pivots, k),
    decreases k,
{
    if k > 0 {
        lemma_pivot_prod_without_self(work, pivots, k - 1, t);
    }
}

/// Every pivot product within `power(g, k)` when entries are within `g`.
proof fn lemma_pivot_prod_within(work: Seq<Vec<i128>>, pivots: Seq<(usize, usize)>, k: int, g: int)
    requires
        0 <= k <= pivots.len(),
        1 <= g,
        entries_within(work, g),
        forall|t: int| 0 <= t < pivots.len() ==> (#[trigger] pivots[t]).0 < work.len() && (pivots[t].1 as int) < work[pivots[t].0 as int]@.len(),
    ensures
        -power(g, k as nat) <= pivot_prod(work, pivots, k) <= power(g, k as nat),
    decreases k,
{
    if k > 0 {
        lemma_pivot_prod_within(work, pivots, k - 1, g);
        let e = pivot_entry(work, pivots, k - 1);
        assert(pivots[k - 1].0 < work.len());
        assert(-g <= e <= g);
        lemma_mul_within(pivot_prod(work, pivots, k - 1), e, power(g, (k - 1) as nat), g);
        assert(power(g, (k - 1) as nat) * g == power(g, k as nat)) by (nonlinear_arith)
            requires
                power(g, k as nat) == g * power(g, (k - 1) as nat),
        ;
    }
}

/// The quotient `checked_div` gives when `x = d·q` exactly.
proof fn lemma_exact_quotient(x: int, d: int, q: int)
    requires
        d != 0,
        x == d * q,
    ensures
        (if x == 0 {
            0
        } else if x > 0 && d > 0 {
            x / d
        } else if x < 0 && d < 0 {
            ((x * -1) / (d * -1))
        } else if x < 0 {
            ((x * -1) / d) * -1
        } else {
            (x / (d * -1)) * -1
        }) == q,
{
    if x == 0 {
        assert(q == 0) by (nonlinear_arith)
            requires
                d != 0,
                0 == d * q,
        ;
    } else if x > 0 && d > 0 {
        vstd::arithmetic::div_mod::lemma_div_multiples_vanish(q, d);
    } else if x < 0 && d < 0 {
        assert(x * -1 == (d * -1) * q) by (nonlinear_arith)
            requires
                x == d * q,
        ;
        vstd::arithmetic::div_mod::lemma_div_multiples_vanish(q, d * -1);
    } else if x < 0 {
        assert(x * -1 == d * (q * -1)) by (nonlinear_arith)
            requires
                x == d * q,
        ;
        vstd::arithmetic::div_mod::lemma_div_multiples_vanish(q * -1, d);
    } else {
        assert(x == (d * -1) * (q * -1)) by (nonlinear_arith)
            requires
                x == d * q,
        ;
        vstd::arithmetic::div_mod::lemma_div_multiples_vanish(q * -1, d * -1);
    }
}

/// A vector orthogonal to every row of a reduced `work` on its first `n`
/// columns: `product` at the free column `f`, and at each pivot column the
/// value that cancels that pivot row's entry at `f`. `None` on overflow, ruled
/// out when entries stay within `g` and `g^(k+1)` fits for `k` pivots.
fn null_vector(work: &Vec<Vec<i128>>, pivots: &Vec<(usize, usize)>, f: usize, n: usize, m: usize, product: i128, Ghost(g): Ghost<int>) -> (r: Option<Vec<i128>>)
    requires
        n <= usize::MAX / 4,
        m <= usize::MAX / 4,
        work.len() == m,
        rectangular(work@, (n + m) as int),
        pivot_list(pivots@, n as int),
        pivots_cleared(work@, pivots@),
        below_rank_zero(work@, pivots.len() as int, n as int),
        pivots.len() <= m,
        f < n,
        forall|t: int| 0 <= t < pivots.len() ==> (#[trigger] pivots@[t]).1 != f,
        product as int == pivot_prod(work@, pivots@, pivots.len() as int),
        product != 0,
    ensures
        r matches Some(y) ==> {
            &&& y.len() == n
            &&& y@[f as int] == product
            &&& forall|j: int| 0 <= j < n && j != f && (forall|t: int| 0 <= t < pivots.len() ==> (#[trigger] pivots@[t]).1 != j) ==> y@[j] == 0
            &&& forall|i: int| 0 <= i < m ==> dot(ints(#[trigger] work@[i]@), ints(y@), n as int) == 0
            &&& (1 <= g && entries_within(work@, g)) ==> forall|j: int| 0 <= j < n ==> -power(g, (pivots.len() + 1) as nat) <= #[trigger] y@[j]
                <= power(g, (pivots.len() + 1) as nat)
        },
        1 <= g && entries_within(work@, g) && power(g, (pivots.len() + 1) as nat) <= i128::MAX ==> r is Some,
{
    let ghost kk = pivots.len() as int;
    let ghost fits = 1 <= g && entries_within(work@, g);
    let ghost big = fits && power(g, (pivots.len() + 1) as nat) <= i128::MAX;
    proof {
        if fits {
            assert forall|t: int| 0 <= t < pivots.len() implies (#[trigger] pivots@[t]).0 < work@.len() && (pivots@[t].1 as int) < work@[pivots@[t].0 as int]@.len() by {
                assert(pivots@[t].0 == t);
            }
            lemma_pivot_prod_within(work@, pivots@, kk, g);
            lemma_power_grows(g, kk as nat, (kk + 1) as nat);
        }
    }
    let mut y: Vec<i128> = Vec::new();
    let mut j: usize = 0;
    while j < n
        invariant
            j <= n,
            f < n,
            y.len() == j,
            forall|t: int| 0 <= t < j ==> #[trigger] y@[t] == if t == f { product } else { 0i128 },
        decreases n - j,
    {
        y.push(if j == f { product } else { 0 });
        j = j + 1;
    }
    let mut k: usize = 0;
    while k < pivots.len()
        invariant
            k <= pivots.len(),
            kk == pivots.len(),
            pivots.len() <= m,
            n <= usize::MAX / 4,
            m <= usize::MAX / 4,
            y.len() == n,
            f < n,
            work.len() == m,
            rectangular(work@, (n + m) as int),
            pivot_list(pivots@, n as int),
            pivots_cleared(work@, pivots@),
            forall|t: int| 0 <= t < pivots.len() ==> (#[trigger] pivots@[t]).1 != f,
            product as int == pivot_prod(work@, pivots@, kk),
            product != 0,
            y@[f as int] == product,
            forall|t: int| 0 <= t < k ==> #[trigger] (y@[pivots@[t].1 as int] * pivot_entry(work@, pivots@, t)) == -(work@[t]@[f as int] * product),
            forall|j: int| 0 <= j < n && j != f && (forall|t: int| 0 <= t < k ==> (#[trigger] pivots@[t]).1 != j) ==> y@[j] == 0,
            fits == (1 <= g && entries_within(work@, g)),
            big == (fits && power(g, (kk + 1) as nat) <= i128::MAX),
            fits ==> -power(g, kk as nat) <= product <= power(g, kk as nat),
            fits ==> power(g, kk as nat) <= power(g, (kk + 1) as nat),
            fits ==> forall|j: int| 0 <= j < n ==> -power(g, (kk + 1) as nat) <= #[trigger] y@[j] <= power(g, (kk + 1) as nat),
        decreases pivots.len() - k,
    {
        let (row, col) = pivots[k];
        let piv = work[row][col];
        let ghost q = pivot_prod_without(work@, pivots@, kk, k as int);
        proof {
            assert(pivots@[k as int].0 == k);
            assert(piv as int == pivot_entry(work@, pivots@, k as int));
            assert(piv != 0);
            lemma_pivot_prod_factor(work@, pivots@, kk, k as int);
            lemma_exact_quotient(product as int, piv as int, q);
            if fits {
                assert(-g <= piv <= g);
            }
            assert(-(product as int) <= q <= product as int || (product as int) <= q <= -(product as int)) by (nonlinear_arith)
                requires
                    product == piv * q,
                    piv != 0,
            ;
        }
        let scale = match product.checked_div(piv) {
            Some(x) => x,
            None => {
                return None;
            },
        };
        proof {
            assert(scale as int == q);
            if big {
                assert(-g <= work@[k as int]@[f as int] <= g);
                lemma_mul_within(work@[k as int]@[f as int] as int, q, g, power(g, kk as nat));
                assert(g * power(g, kk as nat) == power(g, (kk + 1) as nat));
            }
        }
        let entry = match work[row][f].checked_mul(scale) {
            Some(x) => x,
            None => {
                return None;
            },
        };
        let value = match 0i128.checked_sub(entry) {
            Some(x) => x,
            None => {
                return None;
            },
        };
        let ghost yb = y@;
        y.set(col, value);
        proof {
            let w = work@[k as int]@[f as int] as int;
            assert(value * piv == -(w * product)) by (nonlinear_arith)
                requires
                    value == 0 - w * q,
                    product == piv * q,
            ;
            assert forall|t: int| 0 <= t < k + 1 implies #[trigger] (y@[pivots@[t].1 as int] * pivot_entry(work@, pivots@, t)) == -(work@[t]@[f as int] * product) by {
                if t < k {
                    assert(pivots@[t].1 != pivots@[k as int].1);
                    assert(y@[pivots@[t].1 as int] == yb[pivots@[t].1 as int]);
                }
            }
            assert forall|j: int| 0 <= j < n && j != f && (forall|t: int| 0 <= t < k + 1 ==> (#[trigger] pivots@[t]).1 != j) implies y@[j] == 0 by {
                assert(pivots@[k as int].1 != j);
                assert(y@[j] == yb[j]);
            }
            if fits {
                assert forall|j: int| 0 <= j < n implies -power(g, (kk + 1) as nat) <= #[trigger] y@[j] <= power(g, (kk + 1) as nat) by {
                    if j != col {
                        assert(y@[j] == yb[j]);
                    } else {
                        assert(-g <= work@[k as int]@[f as int] <= g);
                        lemma_mul_within(work@[k as int]@[f as int] as int, q, g, power(g, kk as nat));
                        assert(g * power(g, kk as nat) == power(g, (kk + 1) as nat));
                    }
                }
            }
        }
        k = k + 1;
    }
    proof {
        let yi = ints(y@);
        assert forall|i: int| 0 <= i < m implies dot(ints(#[trigger] work@[i]@), ints(y@), n as int) == 0 by {
            let u = ints(work@[i]@);
            if i < kk {
                let c = pivots@[i].1 as int;
                assert(pivots@[i].0 == i);
                assert forall|j: int| 0 <= j < n && j != f && j != c implies #[trigger] (u[j] * yi[j]) == 0 by {
                    if exists|t: int| 0 <= t < kk && (#[trigger] pivots@[t]).1 == j {
                        let t = choose|t: int| 0 <= t < kk && (#[trigger] pivots@[t]).1 == j;
                        assert(t != i);
                        assert(work@[i]@[pivots@[t].1 as int] == 0);
                        assert(u[j] == work@[i]@[j] as int);
                        assert(u[j] == 0);
                        assert(0 * yi[j] == 0);
                    } else {
                        assert(y@[j] == 0);
                        assert(yi[j] == 0);
                        assert(u[j] * 0 == 0);
                    }
                }
                lemma_dot_support(u, yi, n as int, f as int, c, n as int);
                assert(c != f);
                assert(0 <= c < n);
                assert(y@[c] * pivot_entry(work@, pivots@, i) == -(work@[i]@[f as int] * product));
                assert(u[c] == pivot_entry(work@, pivots@, i));
                assert(yi[c] == y@[c]);
                assert(yi[f as int] == product);
                assert(u[f as int] == work@[i]@[f as int]);
                assert(u[f as int] * yi[f as int] + u[c] * yi[c] == 0) by (nonlinear_arith)
                    requires
                        yi[f as int] == product,
                        yi[c] * u[c] == -(u[f as int] * product),
                ;
            } else {
                assert forall|j: int| 0 <= j < n && j != 0 && j != 0 implies #[trigger] (u[j] * yi[j]) == 0 by {
                    assert(work@[i]@[j] == 0);
                    assert(u[j] == work@[i]@[j] as int);
                    assert(u[j] == 0);
                    assert(0 * yi[j] == 0);
                }
                assert(work@[i]@[0] == 0);
                assert(u[0] == 0);
                assert(u[0] * yi[0] == 0);
                lemma_dot_support(u, yi, n as int, 0, 0, n as int);
            }
        }
    }
    Some(y)
}

/// Every coefficient of the constraints and of `e` lies within `b`.
pub open spec fn coeffs_within(cs: Seq<LinearConstraint>, e: LinearExpression, b: int) -> bool {
    &&& forall|i: int, k: VarKey| 0 <= i < cs.len() ==> -b <= #[trigger] cs[i].expr().coeff(k) <= b
    &&& forall|k: VarKey| -b <= #[trigger] e.coeff(k) <= b
}

/// A bound on every value exact elimination computes for `m` constraints
/// over `n` variables with coefficients within `b`: entries grow to at most
/// `growth(b, m)` during the reduction, and the certificates built from the
/// reduced rows stay within this.
pub open spec fn elimination_bound(b: int, n: int, m: int) -> int {
    (n + m + 1) * b * power(2 * growth(b, m as nat), (m + 1) as nat)
}

proof fn lemma_elimination_bound(b: int, n: int, m: int)
    requires
        1 <= b,
        0 <= n,
        0 <= m,
    ensures
        ({
            let g = growth(b, m as nat);
            let u = elimination_bound(b, n, m);
            &&& 1 <= b <= g <= u
            &&& b * power(2 * g, m as nat) <= u
            &&& 1 <= power(g, m as nat) <= power(g, (m + 1) as nat) <= u
            &&& power(g, m as nat) * b <= u
            &&& m * ((b * power(2 * g, m as nat)) * b) <= u
            &&& n * (b * power(g, (m + 1) as nat)) <= u
            &&& 1 <= power(2 * g, m as nat)
        }),
{
    let g = growth(b, m as nat);
    lemma_growth_mono(b, 0, m as nat);
    let p = power(2 * g, (m + 1) as nat);
    let q = power(2 * g, m as nat);
    lemma_power_grows(2 * g, 0, m as nat);
    assert(p == 2 * g * q);
    lemma_power_grows(g, m as nat, (m + 1) as nat);
    lemma_power_base_grows(g, 2 * g, (m + 1) as nat);
    let y = power(g, (m + 1) as nat);
    let u = (n + m + 1) * b * p;
    assert(b * p <= u) by (nonlinear_arith)
        requires
            1 <= b,
            1 <= p,
            0 <= n,
            0 <= m,
            u == (n + m + 1) * b * p,
    ;
    assert(2 * g <= p) by (nonlinear_arith)
        requires
            1 <= q,
            1 <= g,
            p == 2 * g * q,
    ;
    assert(p <= b * p) by (nonlinear_arith)
        requires
            1 <= b,
            1 <= p,
    ;
    assert(q <= p) by (nonlinear_arith)
        requires
            p == 2 * g * q,
            1 <= g,
            1 <= q,
    ;
    assert(b * q <= b * p) by (nonlinear_arith)
        requires
            1 <= b,
            q <= p,
            1 <= q,
            p == 2 * g * q,
            1 <= g,
    ;
    assert(power(g, m as nat) * b <= b * p) by (nonlinear_arith)
        requires
            1 <= b,
            power(g, m as nat) <= y,
            y <= p,
    ;
    assert((b * q) * b <= b * p) by (nonlinear_arith)
        requires
            1 <= b <= g,
            1 <= q,
            p == 2 * g * q,
    ;
    assert(m * ((b * q) * b) <= u) by (nonlinear_arith)
        requires
            0 <= m,
            0 <= n,
            0 <= (b * q) * b <= b * p,
            u == (n + m + 1) * b * p,
    ;
    assert(n * (b * y) <= u) by (nonlinear_arith)
        requires
            0 <= m,
            0 <= n,
            1 <= b,
            1 <= y <= p,
            u == (n + m + 1) * b * p,
    ;
}

/// [`elimination_bound`] grows with the number of variables and of constraints.
pub proof fn lemma_elimination_bound_grows(b: int, n1: int, m1: int, n2: int, m2: int)
    requires
        1 <= b,
        0 <= n1 <= n2,
        0 <= m1 <= m2,
    ensures
        elimination_bound(b, n1, m1) <= elimination_bound(b, n2, m2),
{
    lemma_growth_mono(b, m1 as nat, m2 as nat);
    lemma_growth_mono(b, 0, m1 as nat);
    let g1 = growth(b, m1 as nat);
    let g2 = growth(b, m2 as nat);
    lemma_power_base_grows(2 * g1, 2 * g2, (m1 + 1) as nat);
    lemma_power_grows(2 * g2, (m1 + 1) as nat, (m2 + 1) as nat);
    lemma_power_grows(2 * g1, 0, (m1 + 1) as nat);
    let p1 = power(2 * g1, (m1 + 1) as nat);
    let p2 = power(2 * g2, (m2 + 1) as nat);
    assert((n1 + m1 + 1) * b * p1 <= (n2 + m2 + 1) * b * p2) by (nonlinear_arith)
        requires
            1 <= b,
            0 <= n1 <= n2,
            0 <= m1 <= m2,
            1 <= p1 <= p2,
    ;
}

/// A duplicate-free sequence whose elements all occur in `t` is no longer than `t`.
pub proof fn lemma_distinct_within<A>(s: Seq<A>, t: Seq<A>)
    requires
        s.no_duplicates(),
        forall|i: int| 0 <= i < s.len() ==> t.contains(#[trigger] s[i]),
    ensures
        s.len() <= t.len(),
{
    s.unique_seq_to_set();
    t.lemma_cardinality_of_set();
    assert(s.to_set().subset_of(t.to_set())) by {
        assert forall|x: A| s.to_set().contains(x) implies t.to_set().contains(x) by {
            let i = choose|i: int| 0 <= i < s.len() && s[i] == x;
            assert(t.contains(s[i]));
        }
    }
    vstd::set_lib::lemma_len_subset(s.to_set(), t.to_set());
}

/// An expression has no more terms than a list holding all its variables.
pub proof fn lemma_term_count_within(e: LinearExpression, keys: Seq<VarKey>)
    requires
        e.wf(),
        forall|k: VarKey| #[trigger] e.coeff(k) != 0 ==> keys.contains(k),
    ensures
        e.term_seq().len() <= keys.len(),
{
    e.lemma_wf();
    let t = e.term_seq();
    let tk = t.map_values(|x: (ConstraintVariable, i64)| x.0@);
    assert forall|i: int| 0 <= i < tk.len() implies keys.contains(#[trigger] tk[i]) by {
        assert(has_var(t, t[i].0@));
        assert(e.coeff(t[i].0@) != 0);
    }
    assert(tk.no_duplicates()) by {
        assert forall|i: int, j: int| 0 <= i < tk.len() && 0 <= j < tk.len() && i != j implies tk[i] != tk[j] by {
            if i < j {
                assert(t[i].0@ != t[j].0@);
            } else {
                assert(t[j].0@ != t[i].0@);
            }
        }
    }
    lemma_distinct_within(tk, keys);
}

proof fn lemma_pivot_count(p: Seq<(usize, usize)>, m: int)
    requires
        0 <= m,
        forall|k: int| 0 <= k < p.len() ==> (#[trigger] p[k]).0 == k && p[k].0 < m,
    ensures
        p.len() <= m,
{
    if p.len() > m {
        assert(p[m].0 == m);
    }
}

/// After [`reduce`] of `a` augmented with an identity, each row's last `m`
/// entries record the combination of `a`'s rows its first `n` entries are.
proof fn lemma_records_combination(aug: Seq<Vec<i128>>, work: Seq<Vec<i128>>, a: Seq<Vec<i128>>, n: int, m: int)
    requires
        0 <= n,
        a.len() == m,
        rectangular(a, n),
        augmented(a, Seq::empty(), false, n, aug),
        rectangular(aug, n + m),
        work.len() == m,
        rectangular(work, n + m),
        exists|c: Seq<Seq<int>>| #[trigger] rows_combine(aug, work, c),
    ensures
        records_combination(work, int_rows(a), n, m),
{
    let c = choose|c: Seq<Seq<int>>| #[trigger] rows_combine(aug, work, c);
    let ag = int_rows(aug);
    assert forall|r: int, j: int| 0 <= r < work.len() && 0 <= j < n implies #[trigger] work[r]@[j] == combo(
        int_rows(a),
        tail(work[r]@, n, m),
        j,
        m,
    ) by {
        let tl = tail(work[r]@, n, m);
        assert forall|t: int| 0 <= t < m implies #[trigger] c[r][t] == tl[t] by {
            assert forall|i: int| 0 <= i < m implies #[trigger] ag[i][n + t] == if i == t { 1int } else { 0int } by {
                assert(aug[i]@[n + t] == if t == i { 1i128 } else { 0i128 });
            }
            lemma_combo_identity_column(ag, c[r], n + t, t, m);
            assert(work[r]@[n + t] == combo(ag, c[r], n + t, aug.len() as int));
        }
        assert forall|i: int| 0 <= i < m implies #[trigger] ag[i][j] == int_rows(a)[i][j] by {
            assert(aug[i]@[j] == a[i]@[j]);
        }
        lemma_combo_agrees(ag, int_rows(a), c[r], tl, j, j, m);
    }
}

/// The partial pivot products fit when entries are within `g` and `g^m` fits.
proof fn lemma_pivot_prods_fit(work: Seq<Vec<i128>>, pivots: Seq<(usize, usize)>, b: int, g: int, n: int, m: int, wd: int)
    requires
        1 <= g,
        entries_within(work, g),
        work.len() == m,
        n <= wd,
        rectangular(work, wd),
        pivot_list(pivots, n),
        pivots_cleared(work, pivots),
        pivots.len() <= m,
        power(g, m as nat) <= i128::MAX,
    ensures
        pivots_multiply(work, pivots),
{
    assert forall|t: int| 0 <= t < pivots.len() implies (#[trigger] pivots[t]).0 < work.len() && (pivots[t].1 as int) < work[pivots[t].0 as int]@.len() by {
        assert(pivots[t].0 == t);
    }
    assert forall|k: int| 0 <= k < pivots.len() implies #[trigger] pivot_entry(work, pivots, k) != 0 && in_i128(pivot_prod(work, pivots, k + 1)) by {
        assert(pivots[k].0 == k);
        lemma_pivot_prod_within(work, pivots, k + 1, g);
        lemma_power_grows(g, (k + 1) as nat, m as nat);
    }
}

/// When the reduced candidate vanishes on the first `n` columns, the negated
/// tail is a combination giving `d·cand`, and checking it stays within `i128`.
proof fn lemma_span_branch(
    ar: Seq<Seq<int>>,
    a: Seq<Vec<i128>>,
    c: Seq<i128>,
    cand: Seq<i128>,
    v: Seq<i128>,
    d: int,
    n: int,
    m: int,
    b: int,
    g: int,
    k: nat,
)
    requires
        0 <= n,
        0 <= m,
        1 <= b,
        g == growth(b, m as nat),
        elimination_bound(b, n, m) <= i128::MAX,
        ar == int_rows(a),
        a.len() == m,
        rectangular(a, n),
        c.len() == m,
        cand.len() == n,
        v.len() == n + m,
        d != 0,
        k <= m,
        forall|j: int| 0 <= j < n ==> #[trigger] v[j] == d * cand[j] + combo(ar, tail(v, n, m), j, m),
        forall|j: int| 0 <= j < n ==> v[j] == 0,
        forall|t: int| 0 <= t < m ==> #[trigger] c[t] as int == -(v[n + t] as int),
        forall|i: int, j: int| 0 <= i < m && 0 <= j < n ==> -b <= #[trigger] a[i]@[j] <= b,
        forall|j: int| 0 <= j < n ==> -b <= #[trigger] cand[j] <= b,
        forall|j: int| 0 <= j < n + m ==> -(b * power(2 * g, k)) <= #[trigger] v[j] <= b * power(2 * g, k),
        -power(g, k) <= d <= power(g, k),
    ensures
        in_span_checked(a, c, d, cand, n),
{
    lemma_elimination_bound(b, n, m);
    lemma_power_grows(2 * g, k, m as nat);
    lemma_power_grows(g, k, m as nat);
    let vb = b * power(2 * g, m as nat);
    assert(b * power(2 * g, k) <= vb) by (nonlinear_arith)
        requires
            1 <= b,
            power(2 * g, k) <= power(2 * g, m as nat),
            vb == b * power(2 * g, m as nat),
    ;
    let tv = tail(v, n, m);
    let ic = ints(c);
    assert(ic =~= scale_sub_coeffs(0, tv, 1, tv));
    assert forall|j: int| 0 <= j < n implies #[trigger] column_checked(a, c, d, cand, j) by {
        assert forall|i: int| 0 <= i < m implies -vb <= #[trigger] ic[i] <= vb by {
            assert(-vb <= v[n + i] <= vb);
        }
        assert forall|i: int| 0 <= i < m implies -b <= #[trigger] ar[i][j] <= b by {
            assert(ar[i][j] == a[i]@[j]);
        }
        assert(0 <= vb) by (nonlinear_arith)
            requires
                1 <= b,
                1 <= power(2 * g, m as nat),
                vb == b * power(2 * g, m as nat),
        ;
        assert forall|i: int| 0 <= i < m implies in_i128(#[trigger] (ic[i] * ar[i][j])) && in_i128(combo(ar, ic, j, i + 1)) by {
            lemma_mul_within(ic[i], ar[i][j], vb, b);
            assert(vb * b <= m * (vb * b)) by (nonlinear_arith)
                requires
                    1 <= m,
                    0 <= vb,
                    1 <= b,
            ;
            lemma_combo_within(ar, ic, j, m, vb, b, i + 1);
            assert((i + 1) * (vb * b) <= m * (vb * b)) by (nonlinear_arith)
                requires
                    i + 1 <= m,
                    0 <= vb * b,
            ;
            assert(0 <= vb * b) by (nonlinear_arith)
                requires
                    0 <= vb,
                    1 <= b,
            ;
        }
        lemma_mul_within(d, cand[j] as int, power(g, m as nat), b);
        lemma_combo_scale_sub(ar, 0, tv, 1, tv, j, m);
        assert(v[j] == 0);
        assert(combo(ar, ic, j, m) == d * cand[j]);
    }
}

/// When the reduced candidate does not vanish, the null vector `y` is
/// orthogonal to every constraint row but not to the candidate, and checking
/// it stays within `i128`.
proof fn lemma_null_branch(
    aug: Seq<Vec<i128>>,
    work: Seq<Vec<i128>>,
    pivots: Seq<(usize, usize)>,
    a: Seq<Vec<i128>>,
    cand: Seq<i128>,
    v: Seq<i128>,
    y: Seq<i128>,
    d: int,
    product: int,
    f: int,
    n: int,
    m: int,
    b: int,
    g: int,
)
    requires
        0 <= n,
        0 <= m,
        1 <= b,
        g == growth(b, m as nat),
        elimination_bound(b, n, m) <= i128::MAX,
        a.len() == m,
        rectangular(a, n),
        augmented(a, Seq::empty(), false, n, aug),
        rectangular(aug, n + m),
        work.len() == m,
        forall|k: int| 0 <= k < aug.len() ==> in_span(int_rows(work), ints((#[trigger] aug[k])@), n + m),
        cand.len() == n,
        v.len() == n + m,
        y.len() == n,
        pivots.len() <= m,
        0 <= f < n,
        d != 0,
        product != 0,
        v[f] != 0,
        y[f] == product,
        forall|j: int| 0 <= j < n ==> #[trigger] v[j] == d * cand[j] + combo(int_rows(a), tail(v, n, m), j, m),
        forall|t: int| 0 <= t < pivots.len() ==> v[(#[trigger] pivots[t]).1 as int] == 0,
        forall|j: int| 0 <= j < n && j != f && (forall|t: int| 0 <= t < pivots.len() ==> (#[trigger] pivots[t]).1 != j) ==> y[j] == 0,
        forall|i: int| 0 <= i < m ==> dot(ints(#[trigger] work[i]@), ints(y), n) == 0,
        forall|i: int, j: int| 0 <= i < m && 0 <= j < n ==> -b <= #[trigger] a[i]@[j] <= b,
        forall|j: int| 0 <= j < n ==> -b <= #[trigger] cand[j] <= b,
        forall|j: int| 0 <= j < n ==> -power(g, (pivots.len() + 1) as nat) <= #[trigger] y[j] <= power(g, (pivots.len() + 1) as nat),
    ensures
        not_in_span_checked(a, y, cand, n),
{
    lemma_elimination_bound(b, n, m);
    lemma_power_grows(g, (pivots.len() + 1) as nat, (m + 1) as nat);
    let yb = power(g, (m + 1) as nat);
    let yi = ints(y);
    let ar = int_rows(a);
    let wr = int_rows(work);
    assert forall|j: int| 0 <= j < n implies -yb <= #[trigger] yi[j] <= yb by {
        assert(-yb <= y[j] <= yb);
    }
    assert(0 <= b * yb) by (nonlinear_arith)
        requires
            1 <= b,
            1 <= yb,
    ;
    assert forall|i: int| 0 <= i < m implies #[trigger] dot(ar[i], yi, n) == 0 by {
        let (ci, di) = choose|ci: Seq<int>, di: int| #[trigger] in_span_witness(wr, ints(aug[i]@), n + m, ci, di);
        assert(in_span_witness(wr, ints(aug[i]@), n + m, ci, di));
        assert forall|j: int| 0 <= j < n implies #[trigger] combo(wr, ci, j, m) == di * ints(aug[i]@)[j] by {
            assert(combo(wr, ci, j, wr.len() as int) == di * ints(aug[i]@)[j]);
        }
        lemma_combo_dot_scaled(wr, ci, yi, ints(aug[i]@), di, n, m);
        lemma_combo_dot_swap(wr, ci, yi, n, m);
        assert forall|r: int| 0 <= r < m implies #[trigger] dot(wr[r], yi, n) == 0 by {
            assert(wr[r] == ints(work[r]@));
        }
        lemma_weighted_dots_of_zero_rows(wr, ci, yi, n, m);
        let t = dot(ints(aug[i]@), yi, n);
        assert(t == 0) by (nonlinear_arith)
            requires
                di * t == 0,
                di != 0,
        ;
        assert forall|j: int| 0 <= j < n implies #[trigger] ints(aug[i]@)[j] == ar[i][j] by {
            assert(aug[i]@[j] == a[i]@[j]);
        }
        lemma_dot_agrees(ints(aug[i]@), ar[i], yi, n);
    }
    assert forall|i: int| #![trigger a[i]] 0 <= i < a.len() implies dot_fits(ints(a[i]@), ints(y), n) && dot(ints(a[i]@), ints(y), n) == 0 by {
        let u = ints(a[i]@);
        assert(u == ar[i]);
        assert forall|j: int| 0 <= j < n implies -b <= #[trigger] u[j] <= b by {
            assert(-b <= a[i]@[j] <= b);
        }
        assert forall|j: int| 0 <= j < n implies in_i128(#[trigger] (u[j] * yi[j])) && in_i128(dot(u, yi, j + 1)) by {
            lemma_mul_within(u[j], yi[j], b, yb);
            lemma_dot_within(u, yi, n, b, yb, j + 1);
            assert(b * yb <= n * (b * yb)) by (nonlinear_arith)
                requires
                    1 <= n,
                    0 <= b * yb,
            ;
            assert((j + 1) * (b * yb) <= n * (b * yb)) by (nonlinear_arith)
                requires
                    j + 1 <= n,
                    0 <= b * yb,
            ;
        }
    }
    let uc = ints(cand);
    assert forall|j: int| 0 <= j < n implies -b <= #[trigger] uc[j] <= b by {
        assert(-b <= cand[j] <= b);
    }
    assert forall|j: int| 0 <= j < n implies in_i128(#[trigger] (uc[j] * yi[j])) && in_i128(dot(uc, yi, j + 1)) by {
        lemma_mul_within(uc[j], yi[j], b, yb);
        lemma_dot_within(uc, yi, n, b, yb, j + 1);
        assert(b * yb <= n * (b * yb)) by (nonlinear_arith)
            requires
                1 <= n,
                0 <= b * yb,
        ;
        assert((j + 1) * (b * yb) <= n * (b * yb)) by (nonlinear_arith)
            requires
                j + 1 <= n,
                0 <= b * yb,
        ;
    }
    // v·y = d·(cand·y) + (Σ tailᵢ·aᵢ)·y, and the last term vanishes.
    let vi = ints(v);
    let tv = tail(v, n, m);
    assert forall|j: int| 0 <= j < n implies #[trigger] vi[j] == d * uc[j] + combo(ar, tv, j, m) by {
        assert(vi[j] == v[j]);
    }
    lemma_dot_split(vi, uc, ar, tv, d, yi, n, m);
    lemma_combo_dot_swap(ar, tv, yi, n, m);
    lemma_weighted_dots_of_zero_rows(ar, tv, yi, n, m);
    assert forall|j: int| 0 <= j < n && j != f && j != f implies #[trigger] (vi[j] * yi[j]) == 0 by {
        if exists|t: int| 0 <= t < pivots.len() && (#[trigger] pivots[t]).1 == j {
            let t = choose|t: int| 0 <= t < pivots.len() && (#[trigger] pivots[t]).1 == j;
            assert(v[pivots[t].1 as int] == 0);
            assert(vi[j] == 0);
            assert(0 * yi[j] == 0);
        } else {
            assert(y[j] == 0);
            assert(yi[j] == 0);
            assert(vi[j] * 0 == 0);
        }
    }
    lemma_dot_support(vi, yi, n, f, f, n);
    lemma_nonzero_product(v[f] as int, product);
    let t = dot(uc, yi, n);
    assert(t != 0) by (nonlinear_arith)
        requires
            d * t == v[f] * product,
            v[f] * product != 0,
    ;
}

/// A dot product reads only the first `n` entries.
proof fn lemma_dot_agrees(u1: Seq<int>, u2: Seq<int>, y: Seq<int>, n: int)
    requires
        forall|j: int| 0 <= j < n ==> #[trigger] u1[j] == u2[j],
    ensures
        dot(u1, y, n) == dot(u2, y, n),
    decreases n,
{
    if n > 0 {
        lemma_dot_agrees(u1, u2, y, n - 1);
        assert(u1[n - 1] == u2[n - 1]);
    }
}

/// Column `j` holds a pivot.
pub open spec fn is_pivot_col(pivots: Seq<(usize, usize)>, j: int) -> bool {
    exists|t: int| 0 <= t < pivots.len() && (#[trigger] pivots[t]).1 == j
}

/// `Σ row[j]·defs[j]` over the non-pivot columns `j < k`.
pub open spec fn free_sum(row: Seq<i128>, defs: Seq<i128>, pivots: Seq<(usize, usize)>, k: int) -> int
    decreases k,
{
    if k <= 0 {
        0
    } else {
        free_sum(row, defs, pivots, k - 1) + if is_pivot_col(pivots, k - 1) {
            0
        } else {
            row[k - 1] * defs[k - 1]
        }
    }
}

/// The bound on every value [`back_substitute`] computes from entries within
/// `g`, defaults within `bb` and a pivot product within `g^m`.
pub open spec fn back_bound(g: int, bb: int, n: int, m: int) -> int {
    ((n + 1) * (g * bb)) * power(g, m as nat)
}

proof fn lemma_dot_free(row: Seq<i128>, x: Seq<i128>, defs: Seq<i128>, pivots: Seq<(usize, usize)>, p: int, c: int, n: int, k: int)
    requires
        0 <= k <= n,
        0 <= c < n,
        row.len() >= n,
        x.len() >= n,
        defs.len() >= n,
        is_pivot_col(pivots, c),
        forall|j: int| 0 <= j < n && !is_pivot_col(pivots, j) ==> #[trigger] x[j] == defs[j] * p,
        forall|j: int| 0 <= j < n && is_pivot_col(pivots, j) && j != c ==> #[trigger] row[j] == 0,
    ensures
        dot(ints(row), ints(x), k) == (if c < k { row[c] * x[c] } else { 0 }) + p * free_sum(row, defs, pivots, k),
    decreases k,
{
    if k > 0 {
        lemma_dot_free(row, x, defs, pivots, p, c, n, k - 1);
        let j = k - 1;
        let fs = free_sum(row, defs, pivots, k - 1);
        assert(ints(row)[j] == row[j]);
        assert(ints(x)[j] == x[j]);
        if !is_pivot_col(pivots, j) {
            let r = row[j] as int;
            let d = defs[j] as int;
            assert(x[j] == defs[j] * p);
            assert(p * fs + r * (d * p) == p * (fs + r * d)) by (nonlinear_arith);
        } else if j != c {
            assert(row[j] == 0);
            assert(0 * x[j] == 0);
        }
    }
}

/// Back substitution on a reduced system `[A | b | …]`: each free variable at
/// its default times `product`, each pivot variable solving its row, so that
/// every pivot row gives `row·x = product·rhs`. `None` on overflow, ruled out
/// when entries stay within `g`, defaults within `bb`, and [`back_bound`] fits.
fn back_substitute(
    work: &Vec<Vec<i128>>,
    pivots: &Vec<(usize, usize)>,
    defs: &Vec<i128>,
    product: i128,
    n: usize,
    m: usize,
    Ghost(g): Ghost<int>,
    Ghost(bb): Ghost<int>,
) -> (r: Option<Vec<i128>>)
    requires
        n <= usize::MAX / 4,
        m <= usize::MAX / 4,
        work.len() == m,
        rectangular(work@, (n + 1 + m) as int),
        pivot_list(pivots@, n as int),
        pivots_cleared(work@, pivots@),
        pivots.len() <= m,
        defs.len() == n,
        product as int == pivot_prod(work@, pivots@, pivots.len() as int),
        product != 0,
    ensures
        r matches Some(x) ==> {
            &&& x.len() == n
            &&& forall|j: int| 0 <= j < n && !is_pivot_col(pivots@, j) ==> #[trigger] x@[j] == defs@[j] * product
            &&& forall|t: int| 0 <= t < pivots.len() ==> dot(ints(#[trigger] work@[t]@), ints(x@), n as int) == product * work@[t]@[n as int]
            &&& (1 <= bb <= g && entries_within(work@, g) && (forall|j: int| 0 <= j < n ==> -bb <= #[trigger] defs@[j] <= bb)
                && -power(g, m as nat) <= product <= power(g, m as nat)) ==> forall|j: int| 0 <= j < n ==> -back_bound(g, bb, n as int, m as int)
                <= #[trigger] x@[j] <= back_bound(g, bb, n as int, m as int)
        },
        1 <= bb <= g && entries_within(work@, g) && (forall|j: int| 0 <= j < n ==> -bb <= #[trigger] defs@[j] <= bb) && -power(
            g,
            m as nat,
        ) <= product <= power(g, m as nat) && back_bound(g, bb, n as int, m as int) <= i128::MAX ==> r is Some,
{
    let ghost fits = 1 <= bb <= g && entries_within(work@, g) && (forall|j: int| 0 <= j < n ==> -bb <= #[trigger] defs@[j] <= bb)
        && -power(g, m as nat) <= product <= power(g, m as nat);
    let ghost big = fits && back_bound(g, bb, n as int, m as int) <= i128::MAX;
    let ghost xb = back_bound(g, bb, n as int, m as int);
    let ghost kk = pivots.len() as int;
    proof {
        if fits {
            lemma_power_grows(g, 0, m as nat);
            let pg = power(g, m as nat);
            assert(bb * pg <= xb && g * bb >= 1 && (n + 1) * (g * bb) >= 1) by (nonlinear_arith)
                requires
                    1 <= bb <= g,
                    1 <= pg,
                    xb == ((n + 1) * (g * bb)) * pg,
                    0 <= n,
            ;
        }
    }
    let mut isp: Vec<bool> = Vec::new();
    let mut j: usize = 0;
    while j < n
        invariant
            j <= n,
            isp.len() == j,
            forall|t: int| 0 <= t < j ==> !#[trigger] isp@[t],
        decreases n - j,
    {
        isp.push(false);
        j = j + 1;
    }
    let mut k: usize = 0;
    while k < pivots.len()
        invariant
            k <= pivots.len(),
            isp.len() == n,
            pivot_list(pivots@, n as int),
            forall|j: int| 0 <= j < n ==> (#[trigger] isp@[j] <==> exists|t: int| 0 <= t < k && (#[trigger] pivots@[t]).1 == j),
        decreases pivots.len() - k,
    {
        let (_, col) = pivots[k];
        let ghost before = isp@;
        isp.set(col, true);
        proof {
            assert forall|j: int| 0 <= j < n implies (#[trigger] isp@[j] <==> exists|t: int| 0 <= t < k + 1 && (#[trigger] pivots@[t]).1 == j) by {
                if j == col {
                    assert(pivots@[k as int].1 == j);
                } else {
                    assert(isp@[j] == before[j]);
                    if exists|t: int| 0 <= t < k + 1 && (#[trigger] pivots@[t]).1 == j {
                        let t = choose|t: int| 0 <= t < k + 1 && (#[trigger] pivots@[t]).1 == j;
                        assert(t < k);
                    }
                }
            }
        }
        k = k + 1;
    }
    let mut x: Vec<i128> = Vec::new();
    let mut j: usize = 0;
    while j < n
        invariant
            j <= n,
            x.len() == j,
            isp.len() == n,
            defs.len() == n,
            forall|t: int| 0 <= t < n ==> (#[trigger] isp@[t] <==> is_pivot_col(pivots@, t)),
            forall|t: int| 0 <= t < j ==> #[trigger] x@[t] == if is_pivot_col(pivots@, t) { 0 } else { defs@[t] * product },
            fits == (1 <= bb <= g && entries_within(work@, g) && (forall|j: int| 0 <= j < n ==> -bb <= #[trigger] defs@[j] <= bb)
                && -power(g, m as nat) <= product <= power(g, m as nat)),
            big == (fits && xb <= i128::MAX),
            xb == back_bound(g, bb, n as int, m as int),
            fits ==> bb * power(g, m as nat) <= xb,
            fits ==> forall|t: int| 0 <= t < j ==> -xb <= #[trigger] x@[t] <= xb,
        decreases n - j,
    {
        if isp[j] {
            x.push(0);
        } else {
            proof {
                if big {
                    lemma_mul_within(defs@[j as int] as int, product as int, bb, power(g, m as nat));
                }
            }
            match defs[j].checked_mul(product) {
                Some(v) => x.push(v),
                None => {
                    return None;
                },
            }
            proof {
                if fits {
                    lemma_mul_within(defs@[j as int] as int, product as int, bb, power(g, m as nat));
                }
            }
        }
        j = j + 1;
    }
    let mut k: usize = 0;
    while k < pivots.len()
        invariant
            k <= pivots.len(),
            kk == pivots.len(),
            pivots.len() <= m,
            n <= usize::MAX / 4,
            m <= usize::MAX / 4,
            x.len() == n,
            isp.len() == n,
            defs.len() == n,
            work.len() == m,
            rectangular(work@, (n + 1 + m) as int),
            pivot_list(pivots@, n as int),
            pivots_cleared(work@, pivots@),
            product as int == pivot_prod(work@, pivots@, kk),
            product != 0,
            forall|t: int| 0 <= t < n ==> (#[trigger] isp@[t] <==> is_pivot_col(pivots@, t)),
            forall|t: int| 0 <= t < n && !is_pivot_col(pivots@, t) ==> #[trigger] x@[t] == defs@[t] * product,
            forall|t: int| 0 <= t < k ==> #[trigger] (x@[pivots@[t].1 as int] * pivot_entry(work@, pivots@, t)) == (work@[t]@[n as int]
                - free_sum(work@[t]@, defs@, pivots@, n as int)) * product,
            fits == (1 <= bb <= g && entries_within(work@, g) && (forall|j: int| 0 <= j < n ==> -bb <= #[trigger] defs@[j] <= bb)
                && -power(g, m as nat) <= product <= power(g, m as nat)),
            big == (fits && xb <= i128::MAX),
            xb == back_bound(g, bb, n as int, m as int),
            fits ==> forall|t: int| 0 <= t < n ==> -xb <= #[trigger] x@[t] <= xb,
        decreases pivots.len() - k,
    {
        let (row, col) = pivots[k];
        proof {
            assert(pivots@[k as int].0 == k);
        }
        let ghost wr = work@[row as int]@;
        let mut rhs: i128 = work[row][n];
        let ghost rb = (n + 1) * (g * bb);
        proof {
            if fits {
                lemma_power_grows(g, 0, m as nat);
                assert(rb <= xb) by (nonlinear_arith)
                    requires
                        1 <= g,
                        1 <= bb,
                        0 <= n,
                        1 <= power(g, m as nat),
                        rb == (n + 1) * (g * bb),
                        xb == rb * power(g, m as nat),
                ;
            }
        }
        let mut j: usize = 0;
        while j < n
            invariant
                j <= n,
                row < work.len(),
                work@[row as int]@ == wr,
                wr.len() == n + 1 + m,
                isp.len() == n,
                defs.len() == n,
                forall|t: int| 0 <= t < n ==> (#[trigger] isp@[t] <==> is_pivot_col(pivots@, t)),
                rhs == wr[n as int] - free_sum(wr, defs@, pivots@, j as int),
                fits == (1 <= bb <= g && entries_within(work@, g) && (forall|j: int| 0 <= j < n ==> -bb <= #[trigger] defs@[j] <= bb)
                    && -power(g, m as nat) <= product <= power(g, m as nat)),
                big == (fits && xb <= i128::MAX),
                xb == back_bound(g, bb, n as int, m as int),
                rb == (n + 1) * (g * bb),
                fits ==> -(g + j * (g * bb)) <= rhs <= g + j * (g * bb),
                fits ==> rb <= xb,
            decreases n - j,
        {
            if !isp[j] {
                proof {
                    if big {
                        assert(-g <= wr[j as int] <= g);
                        lemma_mul_within(wr[j as int] as int, defs@[j as int] as int, g, bb);
                        assert(g + (j + 1) * (g * bb) <= rb) by (nonlinear_arith)
                            requires
                                j + 1 <= n,
                                1 <= g,
                                1 <= bb,
                                rb == (n + 1) * (g * bb),
                        ;
                        assert((j + 1) * (g * bb) == j * (g * bb) + g * bb) by (nonlinear_arith);
                    }
                }
                let term = match work[row][j].checked_mul(defs[j]) {
                    Some(v) => v,
                    None => {
                        return None;
                    },
                };
                rhs = match rhs.checked_sub(term) {
                    Some(v) => v,
                    None => {
                        return None;
                    },
                };
                proof {
                    if fits {
                        assert(-g <= wr[j as int] <= g);
                        lemma_mul_within(wr[j as int] as int, defs@[j as int] as int, g, bb);
                        assert((j + 1) * (g * bb) == j * (g * bb) + g * bb) by (nonlinear_arith);
                    }
                }
            } else {
                proof {
                    if fits {
                        assert(0 <= g * bb) by (nonlinear_arith)
                            requires
                                1 <= g,
                                1 <= bb,
                        ;
                        assert((j + 1) * (g * bb) == j * (g * bb) + g * bb) by (nonlinear_arith);
                    }
                }
            }
            j = j + 1;
        }
        let piv = work[row][col];
        let ghost q = pivot_prod_without(work@, pivots@, kk, k as int);
        proof {
            assert(piv as int == pivot_entry(work@, pivots@, k as int));
            assert(piv != 0);
            lemma_pivot_prod_factor(work@, pivots@, kk, k as int);
            lemma_exact_quotient(product as int, piv as int, q);
            assert(-(product as int) <= q <= product as int || (product as int) <= q <= -(product as int)) by (nonlinear_arith)
                requires
                    product == piv * q,
                    piv != 0,
            ;
            if big {
                lemma_power_grows(g, 0, m as nat);
                assert(1 <= rb) by (nonlinear_arith)
                    requires
                        1 <= g,
                        1 <= bb,
                        0 <= n,
                        rb == (n + 1) * (g * bb),
                ;
                assert(power(g, m as nat) <= xb) by (nonlinear_arith)
                    requires
                        1 <= rb,
                        1 <= power(g, m as nat),
                        xb == rb * power(g, m as nat),
                ;
            }
        }
        let scale = match product.checked_div(piv) {
            Some(v) => v,
            None => {
                return None;
            },
        };
        proof {
            assert(scale as int == q);
            if big {
                assert(g + n * (g * bb) <= rb) by (nonlinear_arith)
                    requires
                        1 <= g,
                        1 <= bb,
                        rb == (n + 1) * (g * bb),
                        0 <= n,
                ;
                lemma_mul_within(rhs as int, q, rb, power(g, m as nat));
            }
        }
        let value = match rhs.checked_mul(scale) {
            Some(v) => v,
            None => {
                return None;
            },
        };
        let ghost xo = x@;
        x.set(col, value);
        proof {
            assert(value * piv == (wr[n as int] - free_sum(wr, defs@, pivots@, n as int)) * product) by (nonlinear_arith)
                requires
                    value == rhs * q,
                    product == piv * q,
                    rhs == wr[n as int] - free_sum(wr, defs@, pivots@, n as int),
            ;
            assert(is_pivot_col(pivots@, col as int)) by {
                assert(pivots@[k as int].1 == col);
            }
            assert forall|t: int| 0 <= t < n && !is_pivot_col(pivots@, t) implies #[trigger] x@[t] == defs@[t] * product by {
                assert(t != col);
                assert(x@[t] == xo[t]);
            }
            assert forall|t: int| 0 <= t < k + 1 implies #[trigger] (x@[pivots@[t].1 as int] * pivot_entry(work@, pivots@, t)) == (work@[t]@[n as int]
                - free_sum(work@[t]@, defs@, pivots@, n as int)) * product by {
                if t < k {
                    assert(pivots@[t].1 != pivots@[k as int].1);
                    assert(x@[pivots@[t].1 as int] == xo[pivots@[t].1 as int]);
                }
            }
            if fits {
                assert(g + n * (g * bb) <= rb) by (nonlinear_arith)
                    requires
                        1 <= g,
                        1 <= bb,
                        rb == (n + 1) * (g * bb),
                        0 <= n,
                ;
                lemma_mul_within(rhs as int, q, rb, power(g, m as nat));
                assert forall|t: int| 0 <= t < n implies -xb <= #[trigger] x@[t] <= xb by {
                    if t != col {
                        assert(x@[t] == xo[t]);
                    }
                }
            }
        }
        k = k + 1;
    }
    proof {
        assert forall|t: int| 0 <= t < pivots.len() implies dot(ints(#[trigger] work@[t]@), ints(x@), n as int) == product * work@[t]@[n as int] by {
            let wr = work@[t]@;
            let c = pivots@[t].1 as int;
            assert(pivots@[t].0 == t);
            assert(is_pivot_col(pivots@, c));
            assert forall|j: int| 0 <= j < n && is_pivot_col(pivots@, j) && j != c implies #[trigger] wr[j] == 0 by {
                let s = choose|s: int| 0 <= s < pivots@.len() && (#[trigger] pivots@[s]).1 == j;
                assert(s != t);
                assert(work@[t]@[pivots@[s].1 as int] == 0);
            }
            lemma_dot_free(wr, x@, defs@, pivots@, product as int, c, n as int, n as int);
            let fs = free_sum(wr, defs@, pivots@, n as int);
            assert(x@[c] * pivot_entry(work@, pivots@, t) == (wr[n as int] - fs) * product);
            assert(wr[c] == pivot_entry(work@, pivots@, t));
            assert(wr[c] * x@[c] + product * fs == product * wr[n as int]) by (nonlinear_arith)
                requires
                    x@[c] * wr[c] == (wr[n as int] - fs) * product,
            ;
        }
    }
    Some(x)
}

/// `Σ cᵢ·(rowsᵢ·y)` when every `rowsᵢ·y` is `s·rowsᵢ[col]`.
proof fn lemma_weighted_dots_column(rows: Seq<Seq<int>>, c: Seq<int>, y: Seq<int>, n: int, m: int, s: int, col: int)
    requires
        0 <= m <= rows.len(),
        forall|k: int| 0 <= k < m ==> #[trigger] dot(rows[k], y, n) == s * rows[k][col],
    ensures
        weighted_dots(rows, c, y, n, m) == s * combo(rows, c, col, m),
    decreases m,
{
    if m > 0 {
        lemma_weighted_dots_column(rows, c, y, n, m - 1, s, col);
        let w = combo(rows, c, col, m - 1);
        let ck = c[m - 1];
        let r = rows[m - 1][col];
        assert(dot(rows[m - 1], y, n) == s * r);
        assert(s * w + ck * (s * r) == s * (w + ck * r)) by (nonlinear_arith);
    }
}

/// `u·y` for `u` with combination `c` of `rows` on its first `n` columns.
proof fn lemma_dot_of_combination(rows: Seq<Seq<int>>, c: Seq<int>, u: Seq<int>, y: Seq<int>, n: int, m: int)
    requires
        0 <= n,
        forall|j: int| 0 <= j < n ==> #[trigger] combo(rows, c, j, m) == u[j],
    ensures
        dot(u, y, n) == weighted_dots(rows, c, y, n, m),
{
    assert forall|j: int| 0 <= j < n implies #[trigger] combo(rows, c, j, m) == 1 * u[j] by {}
    lemma_combo_dot_scaled(rows, c, y, u, 1, n, m);
    lemma_combo_dot_swap(rows, c, y, n, m);
}

/// Every coefficient and target of `cs`, and every default of `keys`, lies within `b`.
pub open spec fn solve_inputs_within(cs: Seq<LinearConstraint>, keys: Seq<VarKey>, defaults: Map<VarKey, Length>, b: int) -> bool {
    &&& forall|i: int, k: VarKey| 0 <= i < cs.len() ==> -b <= #[trigger] cs[i].expr().coeff(k) <= b
    &&& forall|i: int| 0 <= i < cs.len() ==> -b <= (#[trigger] cs[i]).target_value().ticks <= b
    &&& forall|j: int| 0 <= j < keys.len() && defaults.dom().contains(#[trigger] keys[j]) ==> -b <= defaults[keys[j]].ticks <= b
}

/// A bound on every value exact solving computes for `m` constraints over `n`
/// variables with coefficients, targets and defaults within `b`.
pub open spec fn solve_bound(b: int, n: int, m: int) -> int {
    (n + 1) * (n + 1) * b * b * power(2 * growth(b, m as nat), (m + 1) as nat)
}

proof fn lemma_solve_bound(b: int, n: int, m: int)
    requires
        1 <= b,
        0 <= n,
        0 <= m,
    ensures
        ({
            let g = growth(b, m as nat);
            let u = solve_bound(b, n, m);
            let x = back_bound(g, b, n, m);
            &&& 1 <= b <= g <= u
            &&& 1 <= power(g, m as nat) <= u
            &&& power(g, m as nat) * b <= u
            &&& x <= u
            &&& n * (b * x) <= u
            &&& 0 <= b * x
        }),
{
    let g = growth(b, m as nat);
    lemma_growth_mono(b, 0, m as nat);
    let pm = power(g, m as nat);
    let p1 = power(g, (m + 1) as nat);
    let q = power(2 * g, (m + 1) as nat);
    lemma_power_grows(g, 0, m as nat);
    lemma_power_grows(g, m as nat, (m + 1) as nat);
    lemma_power_base_grows(g, 2 * g, (m + 1) as nat);
    lemma_power_grows(2 * g, 1, (m + 1) as nat);
    assert(power(2 * g, 1) == 2 * g * power(2 * g, 0));
    assert(p1 == g * pm);
    let x = ((n + 1) * (g * b)) * pm;
    let u = (n + 1) * (n + 1) * b * b * q;
    assert(x == (n + 1) * b * p1) by (nonlinear_arith)
        requires
            p1 == g * pm,
            x == ((n + 1) * (g * b)) * pm,
    ;
    assert(x <= u && n * (b * x) <= u && pm * b <= u && pm <= u && g <= u && 0 <= b * x) by (nonlinear_arith)
        requires
            1 <= b <= g,
            0 <= n,
            1 <= pm,
            pm <= p1,
            p1 <= q,
            2 * g <= q,
            x == (n + 1) * b * p1,
            u == (n + 1) * (n + 1) * b * b * q,
    ;
}

/// A zero row on the variables of a reduced solvable system has a zero right-hand side.
proof fn lemma_zero_row_consistent(aug: Seq<Vec<i128>>, work: Seq<Vec<i128>>, a: Seq<Vec<i128>>, b: Seq<i128>, n: int, m: int, i: int)
    requires
        0 <= n,
        0 <= i < m,
        a.len() == m,
        b.len() == m,
        rectangular(a, n),
        augmented(a, b, true, n, aug),
        rectangular(aug, n + 1 + m),
        work.len() == m,
        rectangular(work, n + 1 + m),
        exists|c: Seq<Seq<int>>| #[trigger] rows_combine(aug, work, c),
        solvable(int_rows(a), ints(b), n),
        forall|j: int| 0 <= j < n ==> #[trigger] work[i]@[j] == 0,
    ensures
        work[i]@[n] == 0,
{
    let c = choose|c: Seq<Seq<int>>| #[trigger] rows_combine(aug, work, c);
    let (x, den) = choose|x: Seq<int>, den: int| #[trigger] solution_witness(int_rows(a), ints(b), n, x, den);
    let ar = int_rows(aug);
    assert forall|k: int| 0 <= k < m implies #[trigger] dot(ar[k], x, n) == den * ar[k][n] by {
        assert forall|j: int| 0 <= j < n implies #[trigger] ar[k][j] == int_rows(a)[k][j] by {
            assert(aug[k]@[j] == a[k]@[j]);
        }
        lemma_dot_agrees(ar[k], int_rows(a)[k], x, n);
        assert(dot(int_rows(a)[k], x, n) == den * ints(b)[k]);
        assert(aug[k]@[n] == b[k]);
    }
    lemma_weighted_dots_column(ar, c[i], x, n, m, den, n);
    let u = ints(work[i]@);
    assert forall|j: int| 0 <= j < n implies #[trigger] combo(ar, c[i], j, m) == u[j] by {
        assert(work[i]@[j] == combo(ar, c[i], j, aug.len() as int));
    }
    lemma_dot_of_combination(ar, c[i], u, x, n, m);
    assert forall|j: int| 0 <= j < n && j != 0 && j != 0 implies #[trigger] (u[j] * x[j]) == 0 by {
        assert(u[j] == 0);
        assert(0 * x[j] == 0);
    }
    if n > 0 {
        assert(u[0] == 0);
        assert(u[0] * x[0] == 0);
    }
    lemma_dot_support(u, x, n, 0, 0, n);
    assert(work[i]@[n] == combo(ar, c[i], n, aug.len() as int));
    let t = combo(ar, c[i], n, m);
    assert(t == 0) by (nonlinear_arith)
        requires
            den * t == 0,
            den > 0,
    ;
}

/// A vector that satisfies every reduced row `row·x = p·rhs` satisfies every
/// original row of the system `p` times over.
proof fn lemma_solution_lifts(aug: Seq<Vec<i128>>, work: Seq<Vec<i128>>, a: Seq<Vec<i128>>, b: Seq<i128>, x: Seq<int>, p: int, n: int, m: int, k: int)
    requires
        0 <= n,
        0 <= k < m,
        a.len() == m,
        b.len() == m,
        rectangular(a, n),
        augmented(a, b, true, n, aug),
        rectangular(aug, n + 1 + m),
        work.len() == m,
        rectangular(work, n + 1 + m),
        in_span(int_rows(work), ints(aug[k]@), n + 1 + m),
        forall|r: int| 0 <= r < m ==> dot(ints(#[trigger] work[r]@), x, n) == p * work[r]@[n],
    ensures
        dot(ints(a[k]@), x, n) == p * b[k],
{
    let wr = int_rows(work);
    let (c, sc) = choose|c: Seq<int>, sc: int| #[trigger] in_span_witness(wr, ints(aug[k]@), n + 1 + m, c, sc);
    let v = ints(aug[k]@);
    assert forall|j: int| 0 <= j < n implies #[trigger] combo(wr, c, j, m) == sc * v[j] by {
        assert(combo(wr, c, j, wr.len() as int) == sc * v[j]);
    }
    lemma_combo_dot_scaled(wr, c, x, v, sc, n, m);
    lemma_combo_dot_swap(wr, c, x, n, m);
    assert forall|r: int| 0 <= r < m implies #[trigger] dot(wr[r], x, n) == p * wr[r][n] by {
        assert(wr[r] == ints(work[r]@));
    }
    lemma_weighted_dots_column(wr, c, x, n, m, p, n);
    assert(combo(wr, c, n, wr.len() as int) == sc * v[n]);
    assert(v[n] == b[k]) by {
        assert(aug[k]@[n] == b[k]);
    }
    assert forall|j: int| 0 <= j < n implies #[trigger] v[j] == ints(a[k]@)[j] by {
        assert(aug[k]@[j] == a[k]@[j]);
    }
    lemma_dot_agrees(v, ints(a[k]@), x, n);
    let t = dot(v, x, n);
    assert(t == p * b[k]) by (nonlinear_arith)
        requires
            sc * t == p * (sc * b[k]),
            sc != 0,
    ;
}

proof fn lemma_combo_zero_column(rows: Seq<Seq<int>>, c: Seq<int>, j: int, k: int)
    requires
        forall|i: int| 0 <= i < k ==> #[trigger] rows[i][j] == 0,
    ensures
        combo(rows, c, j, k) == 0,
    decreases k,
{
    if k > 0 {
        lemma_combo_zero_column(rows, c, j, k - 1);
        assert(rows[k - 1][j] == 0);
        assert(c[k - 1] * 0 == 0);
    }
}

/// Rows past the rank, zero on the variables, have a zero right-hand side, so
/// every row `r` gives `row·x = p·rhs` once the pivot rows do.
proof fn lemma_rows_solved(work: Seq<Vec<i128>>, x: Seq<i128>, p: int, n: int, m: int, kk: int)
    requires
        0 <= n,
        0 <= kk <= m,
        work.len() == m,
        rectangular(work, n + 1 + m),
        x.len() == n,
        below_rank_zero(work, kk, n),
        forall|r: int| 0 <= r < m && (forall|j: int| 0 <= j < n ==> #[trigger] work[r]@[j] == 0) ==> work[r]@[n] == 0,
        forall|t: int| 0 <= t < kk ==> dot(ints(#[trigger] work[t]@), ints(x), n) == p * work[t]@[n],
    ensures
        forall|r: int| 0 <= r < m ==> dot(ints(#[trigger] work[r]@), ints(x), n) == p * work[r]@[n],
{
    assert forall|r: int| 0 <= r < m implies dot(ints(#[trigger] work[r]@), ints(x), n) == p * work[r]@[n] by {
        if r >= kk {
            let u = ints(work[r]@);
            let xi = ints(x);
            assert forall|j: int| 0 <= j < n implies #[trigger] work[r]@[j] == 0 by {
                assert(work[r]@[j] == 0);
            }
            assert(work[r]@[n] == 0);
            assert forall|j: int| 0 <= j < n && j != 0 && j != 0 implies #[trigger] (u[j] * xi[j]) == 0 by {
                assert(work[r]@[j] == 0);
                assert(u[j] == 0);
                assert(0 * xi[j] == 0);
            }
            if n > 0 {
                assert(work[r]@[0] == 0);
                assert(u[0] == 0);
                let u0 = u[0];
                let x0 = xi[0];
                assert(u0 * x0 == 0) by (nonlinear_arith)
                    requires
                        u0 == 0,
                ;
            }
            lemma_dot_support(u, xi, n, 0, 0, n);
        }
    }
}

/// Negating every entry of `y` negates a dot product.
proof fn lemma_dot_negated(u: Seq<int>, y: Seq<int>, z: Seq<int>, n: int)
    requires
        0 <= n,
        forall|j: int| 0 <= j < n ==> #[trigger] z[j] == -y[j],
    ensures
        dot(u, z, n) == -dot(u, y, n),
    decreases n,
{
    if n > 0 {
        lemma_dot_negated(u, y, z, n - 1);
        let a = u[n - 1];
        let yy = y[n - 1];
        assert(a * (-yy) == -(a * yy)) by (nonlinear_arith);
    }
}

/// Whether entries `from..to` of `v` are all zero.
fn all_zero(v: &Vec<i128>, from: usize, to: usize) -> (r: bool)
    requires
        from <= to <= v.len(),
    ensures
        r <==> forall|j: int| from <= j < to ==> v[j] == 0,
{
    let mut j: usize = from;
    while j < to
        invariant
            from <= j <= to,
            to <= v.len(),
            forall|t: int| from <= t < j ==> v[t] == 0,
        decreases to - j,
    {
        if v[j] != 0 {
            return false;
        }
        j = j + 1;
    }
    true
}

/// The entry of `work` at the `k`-th pivot.
pub open spec fn pivot_entry(work: Seq<Vec<i128>>, pivots: Seq<(usize, usize)>, k: int) -> int {
    work[pivots[k].0 as int]@[pivots[k].1 as int] as int
}

/// The product of the entries at the first `k` pivots.
pub open spec fn pivot_prod(work: Seq<Vec<i128>>, pivots: Seq<(usize, usize)>, k: int) -> int
    decreases k,
{
    if k <= 0 {
        1
    } else {
        pivot_prod(work, pivots, k - 1) * pivot_entry(work, pivots, k - 1)
    }
}

/// No pivot entry is zero and every partial product fits in an `i128`.
pub open spec fn pivots_multiply(work: Seq<Vec<i128>>, pivots: Seq<(usize, usize)>) -> bool {
    forall|k: int| 0 <= k < pivots.len() ==> #[trigger] pivot_entry(work, pivots, k) != 0 && in_i128(pivot_prod(work, pivots, k + 1))
}

/// The product of the pivot entries, or `None` on overflow or a zero pivot.
fn pivot_product(work: &Vec<Vec<i128>>, pivots: &Vec<(usize, usize)>, w: usize) -> (r: Option<i128>)
    requires
        rectangular(work@, w as int),
        forall|k: int| 0 <= k < pivots.len() ==> (#[trigger] pivots[k]).0 < work.len() && pivots[k].1 < w,
    ensures
        r is Some <==> pivots_multiply(work@, pivots@),
        r matches Some(p) ==> p == pivot_prod(work@, pivots@, pivots@.len() as int) && p != 0,
{
    let mut product: i128 = 1;
    let mut k: usize = 0;
    while k < pivots.len()
        invariant
            k <= pivots.len(),
            product != 0,
            product == pivot_prod(work@, pivots@, k as int),
            forall|t: int| 0 <= t < k ==> #[trigger] pivot_entry(work@, pivots@, t) != 0 && in_i128(pivot_prod(work@, pivots@, t + 1)),
            rectangular(work@, w as int),
            forall|t: int| 0 <= t < pivots.len() ==> (#[trigger] pivots[t]).0 < work.len() && pivots[t].1 < w,
        decreases pivots.len() - k,
    {
        let (r, c) = pivots[k];
        let p = work[r][c];
        assert(p == pivot_entry(work@, pivots@, k as int));
        if p == 0 {
            return None;
        }
        product = match product.checked_mul(p) {
            Some(x) => {
                assert(x != 0) by (nonlinear_arith)
                    requires
                        x == product * p,
                        product != 0,
                        p != 0,
                ;
                x
            },
            None => {
                assert(!in_i128(pivot_prod(work@, pivots@, k as int + 1)));
                return None;
            },
        };
        assert(pivot_entry(work@, pivots@, k as int) != 0 && in_i128(pivot_prod(work@, pivots@, k as int + 1)));
        k = k + 1;
    }
    Some(product)
}

/// Whether column `j` of `a` is zero.
fn column_is_zero(a: &Vec<Vec<i128>>, j: usize) -> (r: bool)
    requires
        forall|i: int| 0 <= i < a.len() ==> j < (#[trigger] a[i]).len(),
    ensures
        r <==> forall|i: int| 0 <= i < a.len() ==> #[trigger] a@[i]@[j as int] == 0,
{
    let mut i: usize = 0;
    while i < a.len()
        invariant
            i <= a.len(),
            forall|t: int| 0 <= t < a.len() ==> j < (#[trigger] a[t]).len(),
            forall|t: int| 0 <= t < i ==> #[trigger] a@[t]@[j as int] == 0,
        decreases a.len() - i,
    {
        if a[i][j] != 0 {
            return false;
        }
        i = i + 1;
    }
    true
}

// ---------------------------------------------------------------------------
// Constraint systems
// ---------------------------------------------------------------------------

/// A set of variables and the constraints over them.
#[derive(Debug)]
pub struct ConstraintSystem {
    variables: Vec<ConstraintVariable>,
    constraints: Vec<LinearConstraint>,
}

/// Inserts `v` into a strictly increasing list, keeping it so.
fn insert_sorted(vars: &mut Vec<ConstraintVariable>, v: ConstraintVariable)
    requires
        sorted_vars(old(vars)@),
    ensures
        sorted_vars(final(vars)@),
        forall|k: VarKey| #[trigger] key_views(final(vars)@).contains(k) <==> (key_views(old(vars)@).contains(k) || k == v@),
{
    let ghost before = vars@;
    let mut i: usize = 0;
    while i < vars.len() && vars[i].less_than(&v)
        invariant
            i <= vars.len(),
            vars@ == before,
            forall|t: int| 0 <= t < i ==> var_lt(#[trigger] vars@[t]@, v@),
        decreases vars.len() - i,
    {
        i = i + 1;
    }
    if i < vars.len() && vars[i] == v {
        proof {
            assert forall|k: VarKey| #[trigger] key_views(vars@).contains(k) <==> (key_views(before).contains(k) || k == v@) by {
                if k == v@ {
                    assert(key_views(vars@)[i as int] == k);
                }
            }
        }
        return;
    }
    proof {
        if i < vars.len() {
            lemma_var_lt_trichotomy(vars@[i as int]@, v@);
        }
    }
    vars.insert(i, v);
    proof {
        let after = vars@;
        assert forall|a: int, b: int| 0 <= a < b < after.len() implies var_lt(#[trigger] after[a]@, #[trigger] after[b]@) by {
            if b < i {
                assert(after[a] == before[a] && after[b] == before[b]);
            } else if b == i {
                assert(after[a] == before[a]);
            } else if a == i {
                assert(after[b] == before[b - 1]);
                if b - 1 > i {
                    assert(var_lt(before[i as int]@, before[b - 1]@));
                    lemma_var_lt_transitive(v@, before[i as int]@, before[b - 1]@);
                }
            } else if a < i {
                assert(after[a] == before[a] && after[b] == before[b - 1]);
                if a < b - 1 {
                    assert(var_lt(before[a]@, before[b - 1]@));
                } else {
                }
            } else {
                assert(after[a] == before[a - 1] && after[b] == before[b - 1]);
                assert(var_lt(before[a - 1]@, before[b - 1]@));
            }
        }
        assert forall|k: VarKey| #[trigger] key_views(after).contains(k) <==> (key_views(before).contains(k) || k == v@) by {
            if key_views(after).contains(k) {
                let t = choose|t: int| 0 <= t < after.len() && key_views(after)[t] == k;
                if t < i {
                    assert(key_views(before)[t] == k);
                } else if t > i {
                    assert(key_views(before)[t - 1] == k);
                }
            }
            if key_views(before).contains(k) {
                let t = choose|t: int| 0 <= t < before.len() && key_views(before)[t] == k;
                if t < i {
                    assert(key_views(after)[t] == k);
                } else {
                    assert(key_views(after)[t + 1] == k);
                }
            }
            if k == v@ {
                assert(key_views(after)[i as int] == k);
            }
        }
    }
}

impl ConstraintSystem {
    #[verifier::type_invariant]
    spec fn wf(self) -> bool {
        &&& sorted_vars(self.variables@)
        &&& forall|i: int, k: VarKey|
            0 <= i < self.constraints@.len() && #[trigger] self.constraints@[i].expr().coeff(k) != 0
                ==> key_views(self.variables@).contains(k)
    }

    /// The variables, in increasing order.
    pub closed spec fn var_keys(&self) -> Seq<VarKey> {
        key_views(self.variables@)
    }

    /// The constraints, in insertion order.
    pub closed spec fn constraint_seq(&self) -> Seq<LinearConstraint> {
        self.constraints@
    }

    /// The exact over-constraint decision for a candidate `e` stays within
    /// `i128`: every coefficient lies within some `b` for which
    /// [`elimination_bound`] fits, and the sizes stay well inside `usize`.
    pub open spec fn decision_fits(&self, e: LinearExpression) -> bool {
        let n = self.var_keys().len() + e.term_seq().len();
        let m = self.constraint_seq().len();
        &&& n <= usize::MAX / 4
        &&& m <= usize::MAX / 4
        &&& exists|b: int|
            #![trigger coeffs_within(self.constraint_seq(), e, b)]
            1 <= b && coeffs_within(self.constraint_seq(), e, b) && elimination_bound(b, n as int, m as int) <= i128::MAX
    }

    /// Exact solving with `defaults` stays within `i128`: every coefficient,
    /// target and default lies within some `b` for which [`solve_bound`] stays
    /// below `2^126`, and the sizes stay well inside `usize`.
    pub open spec fn solve_fits(&self, defaults: VariableValues) -> bool {
        let n = self.var_keys().len();
        let m = self.constraint_seq().len();
        &&& n <= usize::MAX / 4
        &&& m <= usize::MAX / 4
        &&& exists|b: int|
            #![trigger solve_inputs_within(self.constraint_seq(), self.var_keys(), defaults.value_map(), b)]
            1 <= b && solve_inputs_within(self.constraint_seq(), self.var_keys(), defaults.value_map(), b) && solve_bound(
                b,
                n as int,
                m as int,
            ) <= 0x4000_0000_0000_0000_0000_0000_0000_0000
    }

    /// The coefficient matrix over the system's variables.
    pub open spec fn matrix(&self) -> Seq<Seq<int>> {
        coeff_rows(self.constraint_seq(), self.var_keys())
    }

    /// The constraint targets, in ticks.
    pub open spec fn targets(&self) -> Seq<int> {
        target_vec(self.constraint_seq())
    }

    /// A system over `variables` (duplicates collapse) without constraints.
    pub fn new(variables: Vec<ConstraintVariable>) -> (r: ConstraintSystem)
        ensures
            forall|k: VarKey| #[trigger] r.var_keys().contains(k) <==> key_views(variables@).contains(k),
            r.constraint_seq() == Seq::<LinearConstraint>::empty(),
    {
        let mut vars: Vec<ConstraintVariable> = Vec::new();
        let mut rest = variables;
        let ghost all = key_views(rest@);
        let ghost n = rest@.len();
        let mut taken: Vec<ConstraintVariable> = Vec::new();
        let mut i: usize = 0;
        while i < rest.len()
            invariant
                i <= rest.len(),
                key_views(rest@) == all,
                sorted_vars(vars@),
                forall|k: VarKey| #[trigger] key_views(vars@).contains(k) <==> all.subrange(0, i as int).contains(k),
            decreases rest.len() - i,
        {
            let v = rest[i].clone();
            insert_sorted(&mut vars, v);
            proof {
                assert forall|k: VarKey| #[trigger] key_views(vars@).contains(k) <==> all.subrange(0, i + 1).contains(k) by {
                    let s0 = all.subrange(0, i as int);
                    let s1 = all.subrange(0, i + 1);
                    if s1.contains(k) {
                        let t = choose|t: int| 0 <= t < s1.len() && s1[t] == k;
                        if t < i {
                            assert(s0[t] == k);
                        }
                    }
                    if s0.contains(k) {
                        let t = choose|t: int| 0 <= t < s0.len() && s0[t] == k;
                        assert(s1[t] == k);
                    }
                    if k == all[i as int] {
                        assert(s1[i as int] == k);
                    }
                }
            }
            i = i + 1;
        }
        assert(all.subrange(0, rest.len() as int) =~= all);
        let r = ConstraintSystem { variables: vars, constraints: Vec::new() };
        r
    }

    /// A system over `variables` and the variables of `constraints`, with those constraints in order.
    pub fn from_constraints(variables: Vec<ConstraintVariable>, constraints: Vec<LinearConstraint>) -> (r: ConstraintSystem)
        ensures
            forall|k: VarKey| #[trigger] r.var_keys().contains(k) <==> (key_views(variables@).contains(k)
                || exists|i: int| 0 <= i < constraints@.len() && #[trigger] constraints@[i].expr().coeff(k) != 0),
            r.constraint_seq() == constraints@,
            r.var_keys().no_duplicates(),
    {
        let mut system = ConstraintSystem::new(variables);
        let ghost first = key_views(variables@);
        let ghost all = constraints@;
        let mut rest = constraints;
        let ghost n = all.len();
        while rest.len() > 0
            invariant
                n == all.len(),
                rest@.len() <= n,
                rest@ == all.subrange(n - rest@.len(), n as int),
                system.constraint_seq() == all.subrange(0, n - rest@.len()),
                forall|k: VarKey| #[trigger] system.var_keys().contains(k) <==> (first.contains(k)
                    || exists|i: int| 0 <= i < n - rest@.len() && #[trigger] all[i].expr().coeff(k) != 0),
            decreases rest@.len(),
        {
            let ghost done = (n - rest@.len()) as int;
            let c = rest.remove(0);
            assert(c == all[done]);
            system.add_constraint(c);
            proof {
                assert(rest@ =~= all.subrange(n - rest@.len(), n as int));
                assert(system.constraint_seq() =~= all.subrange(0, n - rest@.len()));
                assert forall|k: VarKey| #[trigger] system.var_keys().contains(k) <==> (first.contains(k)
                    || exists|i: int| 0 <= i < done + 1 && #[trigger] all[i].expr().coeff(k) != 0) by {
                    if exists|i: int| 0 <= i < done + 1 && #[trigger] all[i].expr().coeff(k) != 0 {
                        let i = choose|i: int| 0 <= i < done + 1 && #[trigger] all[i].expr().coeff(k) != 0;
                        if i < done {
                            assert(exists|i: int| 0 <= i < done && #[trigger] all[i].expr().coeff(k) != 0);
                        }
                    }
                    if exists|i: int| 0 <= i < done && #[trigger] all[i].expr().coeff(k) != 0 {
                        let i = choose|i: int| 0 <= i < done && #[trigger] all[i].expr().coeff(k) != 0;
                        assert(0 <= i < done + 1 && all[i].expr().coeff(k) != 0);
                    }
                    if c.expr().coeff(k) != 0 {
                        assert(all[done].expr().coeff(k) != 0);
                    }
                }
            }
        }
        proof {
            use_type_invariant(&system);
            let kv = system.var_keys();
            assert forall|i: int, j: int| 0 <= i < kv.len() && 0 <= j < kv.len() && i != j implies kv[i] != kv[j] by {
                if i < j {
                    assert(var_lt(system.variables@[i]@, system.variables@[j]@));
                    lemma_var_lt_trichotomy(kv[i], kv[j]);
                } else {
                    assert(var_lt(system.variables@[j]@, system.variables@[i]@));
                    lemma_var_lt_trichotomy(kv[j], kv[i]);
                }
            }
        }
        system
    }

    /// Adds a constraint; its variables join the system's variables.
    pub fn add_constraint(&mut self, constraint: LinearConstraint)
        ensures
            final(self).constraint_seq() == old(self).constraint_seq().push(constraint),
            forall|k: VarKey| #[trigger] final(self).var_keys().contains(k) <==> (old(self).var_keys().contains(k)
                || constraint.expr().coeff(k) != 0),
    {
        proof {
            use_type_invariant(&*self);
        }
        let new_vars = constraint.expression.variables();
        let mut vars = clone_vars(&self.variables);
        assert(sorted_vars(vars@)) by {
            assert forall|a: int, b: int| 0 <= a < b < vars@.len() implies var_lt(#[trigger] vars@[a]@, #[trigger] vars@[b]@) by {
                assert(vars@[a]@ == self.variables@[a]@ && vars@[b]@ == self.variables@[b]@);
            }
        }
        let mut i: usize = 0;
        while i < new_vars.len()
            invariant
                i <= new_vars.len(),
                sorted_vars(vars@),
                forall|k: VarKey| #[trigger] key_views(vars@).contains(k) <==> (key_views(self.variables@).contains(k)
                    || exists|t: int| 0 <= t < i && new_vars@[t]@ == k),
            decreases new_vars.len() - i,
        {
            let v = new_vars[i].clone();
            insert_sorted(&mut vars, v);
            proof {
                assert forall|k: VarKey| #[trigger] key_views(vars@).contains(k) <==> (key_views(self.variables@).contains(k)
                    || exists|t: int| 0 <= t < i + 1 && new_vars@[t]@ == k) by {
                    if exists|t: int| 0 <= t < i + 1 && new_vars@[t]@ == k {
                        let t = choose|t: int| 0 <= t < i + 1 && new_vars@[t]@ == k;
                        if t < i {
                            assert(exists|t: int| 0 <= t < i && new_vars@[t]@ == k);
                        }
                    }
                    if exists|t: int| 0 <= t < i && new_vars@[t]@ == k {
                        let t = choose|t: int| 0 <= t < i && new_vars@[t]@ == k;
                        assert(0 <= t < i + 1 && new_vars@[t]@ == k);
                    }
                }
            }
            i = i + 1;
        }
        proof {
            assert forall|k: VarKey| #[trigger] key_views(vars@).contains(k) <==> (key_views(self.variables@).contains(k)
                || constraint.expr().coeff(k) != 0) by {
                if constraint.expr().coeff(k) != 0 {
                    let t = choose|t: int| 0 <= t < new_vars@.len() && new_vars@[t]@ == k;
                }
                if exists|t: int| 0 <= t < new_vars@.len() && new_vars@[t]@ == k {
                    let t = choose|t: int| 0 <= t < new_vars@.len() && new_vars@[t]@ == k;
                    assert(constraint.expression.coeff(new_vars@[t]@) != 0);
                }
            }
        }
        self.variables = vars;
        let mut cs: Vec<LinearConstraint> = Vec::new();
        std::mem::swap(&mut cs, &mut self.constraints);
        cs.push(constraint);
        self.constraints = cs;
    }

    /// Every variable at its default (the whole solution when nothing
    /// constrains them); `None` when a variable has no default.
    fn defaults_for_all(&self, defaults: &VariableValues) -> (r: Option<VariableValues>)
        requires
            self.constraint_seq().len() == 0,
        ensures
            r is Some <==> forall|j: int|
                0 <= j < self.var_keys().len() ==> defaults.value_map().dom().contains(#[trigger] self.var_keys()[j]),
            r matches Some(sol) ==> exists|x: Seq<int>, den: int|
                #![trigger solution_witness(self.matrix(), self.targets(), self.var_keys().len() as int, x, den)]
                solution_witness(self.matrix(), self.targets(), self.var_keys().len() as int, x, den)
                    && rounded_solution(sol.value_map(), self.var_keys(), x, den),
            r matches Some(sol) ==> forall|j: int|
                0 <= j < self.var_keys().len() ==> sol.value_map()[#[trigger] self.var_keys()[j]] == defaults.value_map()[self.var_keys()[j]],
    {
        let ghost kv = self.var_keys();
        let n = self.variables.len();
        let mut values = VariableValues::new();
        let mut j: usize = 0;
        while j < n
            invariant
                j <= n,
                n == self.variables@.len(),
                kv == self.var_keys(),
                kv == key_views(self.variables@),
                forall|t: int| 0 <= t < j ==> defaults.value_map().dom().contains(#[trigger] kv[t]),
                forall|k: VarKey| #[trigger] values.value_map().dom().contains(k) <==> kv.subrange(0, j as int).contains(k),
                forall|k: VarKey| values.value_map().dom().contains(k) ==> #[trigger] values.value_map()[k] == defaults.value_map()[k],
            decreases n - j,
        {
            let v = match defaults.get(&self.variables[j]) {
                Some(v) => v,
                None => {
                    proof {
                        assert(!defaults.value_map().dom().contains(kv[j as int]));
                    }
                    return None;
                },
            };
            let ghost before = values.value_map();
            values.insert(self.variables[j].clone(), v);
            proof {
                assert(kv[j as int] == self.variables@[j as int]@);
                assert forall|k: VarKey| #[trigger] values.value_map().dom().contains(k) <==> kv.subrange(0, j + 1).contains(k) by {
                    let s0 = kv.subrange(0, j as int);
                    let s1 = kv.subrange(0, j + 1);
                    if s0.contains(k) {
                        let t = choose|t: int| 0 <= t < s0.len() && s0[t] == k;
                        assert(s1[t] == k);
                    }
                    if k == kv[j as int] {
                        assert(s1[j as int] == k);
                    }
                    if s1.contains(k) {
                        let t = choose|t: int| 0 <= t < s1.len() && s1[t] == k;
                        if t < j {
                            assert(s0[t] == k);
                        }
                    }
                }
            }
            j = j + 1;
        }
        proof {
            assert(kv.subrange(0, n as int) =~= kv);
            let x = Seq::new(n as nat, |t: int| defaults.value_map()[kv[t]].ticks as int);
            assert(self.matrix().len() == 0);
            assert(solution_witness(self.matrix(), self.targets(), n as int, x, 1));
            assert forall|t: int| 0 <= t < n implies values.value_map()[#[trigger] kv[t]] == rounded_length(x[t], 1) by {
                assert(kv.contains(kv[t]));
                lemma_round_exact(x[t], 1);
            }
            assert(rounded_solution(values.value_map(), kv, x, 1));
        }
        Some(values)
    }

    /// Whether no constraint uses `variable`.
    fn column_unused(&self, variable: &ConstraintVariable) -> (r: bool)
        ensures
            r == unconstrained(self.constraint_seq(), variable@),
    {
        let mut i: usize = 0;
        while i < self.constraints.len()
            invariant
                i <= self.constraints.len(),
                forall|t: int| 0 <= t < i ==> #[trigger] self.constraints@[t].expr().coeff(variable@) == 0,
            decreases self.constraints.len() - i,
        {
            if self.constraints[i].expression.coefficient(variable) != 0 {
                assert(self.constraint_seq()[i as int].expr().coeff(variable@) != 0);
                return false;
            }
            i = i + 1;
        }
        true
    }

    /// Decides whether `candidate`'s expression is a rational combination of the
    /// existing constraints' expressions; `None` when the exact arithmetic leaves `i128`.
    /// A candidate that uses a variable no constraint uses is decided at once.
    pub fn overconstraint_decision(&self, candidate: &LinearConstraint) -> (r: Option<bool>)
        ensures
            r matches Some(b) ==> (b <==> depends_on(self.constraint_seq(), candidate.expr())),
            (exists|k: VarKey| candidate.expr().coeff(k) != 0 && #[trigger] unconstrained(self.constraint_seq(), k)) ==> r
                == Some(false),
            self.decision_fits(candidate.expr()) ==> r is Some,
    {
        proof {
            use_type_invariant(self);
        }
        let terms = candidate.expression.terms();
        let mut t: usize = 0;
        while t < terms.len()
            invariant
                t <= terms.len(),
                terms@ == candidate.expr().term_seq(),
                terms_wf(terms@),
                forall|u: int| 0 <= u < t ==> !#[trigger] unconstrained(self.constraint_seq(), terms@[u].0@),
            decreases terms.len() - t,
        {
            if self.column_unused(&terms[t].0) {
                proof {
                    lemma_fresh_variable_independent(self.constraint_seq(), candidate.expr(), terms@[t as int].0@);
                }
                return Some(false);
            }
            t = t + 1;
        }
        proof {
            assert forall|k: VarKey| candidate.expr().coeff(k) != 0 implies !#[trigger] unconstrained(self.constraint_seq(), k) by {
                assert(has_var(terms@, k));
                let u = choose|u: int| 0 <= u < terms@.len() && terms@[u].0@ == k;
                assert(!unconstrained(self.constraint_seq(), terms@[u].0@));
            }
        }
        self.decide_by_elimination(candidate)
    }

    /// Decides dependence by exact fraction-free elimination, with the
    /// combination checked before it is trusted; `None` when the arithmetic
    /// leaves `i128`.
    fn decide_by_elimination(&self, candidate: &LinearConstraint) -> (r: Option<bool>)
        ensures
            r matches Some(b) ==> (b <==> depends_on(self.constraint_seq(), candidate.expr())),
            self.decision_fits(candidate.expr()) ==> r is Some,
    {
        proof {
            use_type_invariant(self);
        }
        let mut keys = clone_vars(&self.variables);
        let extra = candidate.expression.variables();
        let ghost base = self.variables@.len();
        let mut t: usize = 0;
        while t < extra.len()
            invariant
                t <= extra.len(),
                base == self.variables@.len(),
                keys@.len() == base + t,
                forall|i: int| 0 <= i < base ==> (#[trigger] keys@[i])@ == self.variables@[i]@,
                forall|i: int| 0 <= i < t ==> (#[trigger] keys@[base + i])@ == extra@[i]@,
            decreases extra.len() - t,
        {
            let c = extra[t].clone();
            keys.push(c);
            t = t + 1;
        }
        let ghost kv = key_views(keys@);
        proof {
            assert forall|k: VarKey| #![trigger kv.contains(k)]
                (candidate.expr().coeff(k) != 0 || exists|i: int| 0 <= i < self.constraints@.len()
                    && #[trigger] self.constraints@[i].expr().coeff(k) != 0) implies kv.contains(k) by {
                if candidate.expr().coeff(k) != 0 {
                    let j = choose|j: int| 0 <= j < extra@.len() && extra@[j]@ == k;
                    assert(keys@[base + j]@ == k);
                    assert(kv[base + j] == k);
                } else {
                    let i = choose|i: int| 0 <= i < self.constraints@.len() && #[trigger] self.constraints@[i].expr().coeff(k) != 0;
                    assert(key_views(self.variables@).contains(k));
                    let j = choose|j: int| 0 <= j < self.variables@.len() && key_views(self.variables@)[j] == k;
                    assert(keys@[j]@ == k);
                    assert(kv[j] == k);
                }
            }
            lemma_in_span_iff_depends(self.constraints@, candidate.expr(), kv);
        }
        let n = keys.len();
        let a = constraint_matrix(&self.constraints, &keys);
        let cand = expression_row(&candidate.expression, &keys);
        let m = a.len();
        if n > usize::MAX / 4 || m > usize::MAX / 4 {
            return None;
        }
        let ghost fits = self.decision_fits(candidate.expr());
        let ghost b: int = choose|b: int|
            1 <= b && coeffs_within(self.constraint_seq(), candidate.expr(), b) && elimination_bound(b, n as int, m as int)
                <= i128::MAX;
        let ghost g = growth(b, m as nat);
        let ghost ar = int_rows(a@);
        let empty: Vec<i128> = Vec::new();
        let mut work = augment_with_identity(&a, &empty, false, n);
        let ghost aug = work@;
        proof {
            assert(fits ==> {
                &&& 1 <= b <= g
                &&& elimination_bound(b, n as int, m as int) <= i128::MAX
                &&& entries_within(aug, b)
                &&& forall|i: int, j: int| 0 <= i < m && 0 <= j < n ==> -b <= #[trigger] a@[i]@[j] <= b
                &&& forall|j: int| 0 <= j < n ==> -b <= #[trigger] cand@[j] <= b
                &&& growth(b, max_rounds(aug, n as int)) <= g <= elimination_bound(b, n as int, m as int)
            }) by {
                if fits {
                    assert(n as int == self.var_keys().len() + candidate.expr().term_seq().len());
                    lemma_elimination_bound(b, n as int, m as int);
                    assert forall|i: int, j: int| 0 <= i < m && 0 <= j < n implies -b <= #[trigger] a@[i]@[j] <= b by {
                        assert(ar[i][j] == a@[i]@[j]);
                        assert(ar[i][j] == self.constraint_seq()[i].expr().coeff(kv[j]));
                    }
                    assert forall|i: int, j: int| 0 <= i < aug.len() && 0 <= j < aug[i]@.len() implies -b <= #[trigger] aug[i]@[j] <= b by {
                        if j < n {
                            assert(aug[i]@[j] == a@[i]@[j]);
                        } else {
                            assert(aug[i]@[n + (j - n)] == if j - n == i { 1i128 } else { 0i128 });
                        }
                    }
                    assert forall|j: int| 0 <= j < n implies -b <= #[trigger] cand@[j] <= b by {
                        assert(ints(cand@)[j] == candidate.expr().coeff(kv[j]));
                    }
                    lemma_growth_mono(b, max_rounds(aug, n as int), m as nat);
                }
            }
        }
        let pivots = match reduce_within(&mut work, n, n + m, Ghost(b)) {
            Some(p) => p,
            None => {
                return None;
            },
        };
        proof {
            lemma_pivot_count(pivots@, m as int);
            lemma_records_combination(aug, work@, a@, n as int, m as int);
            assert(fits ==> entries_within(work@, g) && b * power(2 * g, m as nat) <= i128::MAX && power(g, m as nat) <= i128::MAX) by {
                if fits {
                    lemma_elimination_bound(b, n as int, m as int);
                }
            }
        }
        let (v, d) = match reduce_candidate(&work, &pivots, &cand, n, m, Ghost(ar), Ghost(g), Ghost(b)) {
            Some(x) => x,
            None => {
                return None;
            },
        };
        proof {
            assert(fits ==> forall|t: int| 0 <= t < n + m ==> -i128::MAX <= #[trigger] v@[t]) by {
                if fits {
                    lemma_elimination_bound(b, n as int, m as int);
                    lemma_power_grows(2 * g, pivots.len() as nat, m as nat);
                    assert(b * power(2 * g, pivots.len() as nat) <= b * power(2 * g, m as nat)) by (nonlinear_arith)
                        requires
                            1 <= b,
                            power(2 * g, pivots.len() as nat) <= power(2 * g, m as nat),
                    ;
                }
            }
        }
        if all_zero(&v, 0, n) {
            // d·candidate + Σ v[n+i]·rowᵢ = 0.
            let mut c: Vec<i128> = Vec::new();
            let mut i: usize = 0;
            while i < m
                invariant
                    i <= m,
                    c.len() == i,
                    v.len() == n + m,
                    forall|t: int| 0 <= t < i ==> #[trigger] c@[t] as int == -(v@[n + t] as int),
                    fits ==> forall|t: int| 0 <= t < n + m ==> -i128::MAX <= #[trigger] v@[t],
                    fits == self.decision_fits(candidate.expr()),
                decreases m - i,
            {
                let x = match 0i128.checked_sub(v[n + i]) {
                    Some(x) => x,
                    None => {
                        return None;
                    },
                };
                c.push(x);
                i = i + 1;
            }
            proof {
                if fits {
                    lemma_span_branch(ar, a@, c@, cand@, v@, d as int, n as int, m as int, b, g, pivots.len() as nat);
                }
            }
            if check_in_span(&a, &c, d, &cand, n) {
                Some(true)
            } else {
                None
            }
        } else {
            // A vector orthogonal to every constraint row but not to the candidate.
            let mut f: usize = 0;
            while f < n && v[f] == 0
                invariant
                    f <= n,
                    v.len() == n + m,
                    forall|t: int| 0 <= t < f ==> v@[t] == 0,
                decreases n - f,
            {
                f = f + 1;
            }
            if f >= n {
                return None;
            }
            proof {
                assert forall|t: int| 0 <= t < pivots.len() implies (#[trigger] pivots@[t]).1 != f by {
                    assert(v@[pivots@[t].1 as int] == 0);
                }
                if fits {
                    lemma_pivot_prods_fit(work@, pivots@, b, g, n as int, m as int, (n + m) as int);
                }
            }
            let product = match pivot_product(&work, &pivots, n + m) {
                Some(p) => p,
                None => {
                    return None;
                },
            };
            proof {
                if fits {
                    lemma_elimination_bound(b, n as int, m as int);
                    lemma_power_grows(g, (pivots.len() + 1) as nat, (m + 1) as nat);
                }
            }
            let y = match null_vector(&work, &pivots, f, n, m, product, Ghost(g)) {
                Some(y) => y,
                None => {
                    return None;
                },
            };
            proof {
                if fits {
                    lemma_null_branch(aug, work@, pivots@, a@, cand@, v@, y@, d as int, product as int, f as int, n as int, m as int, b, g);
                }
            }
            if check_not_in_span(&a, &y, &cand, n) {
                Some(false)
            } else {
                None
            }
        }
    }

    /// Whether adding `candidate` would add no independent information: its
    /// expression is a combination of the existing ones. The answer is exact
    /// whenever the coefficients are small enough for the elimination to stay
    /// in `i128` ([`ConstraintSystem::decision_fits`]); beyond that it is
    /// `true`, which refuses the candidate.
    pub fn would_overconstrain(&self, candidate: &LinearConstraint) -> (r: bool)
        ensures
            depends_on(self.constraint_seq(), candidate.expr()) ==> r,
            !r ==> !depends_on(self.constraint_seq(), candidate.expr()),
            (exists|k: VarKey| candidate.expr().coeff(k) != 0 && #[trigger] unconstrained(self.constraint_seq(), k)) ==> !r,
            self.decision_fits(candidate.expr()) ==> (r <==> depends_on(self.constraint_seq(), candidate.expr())),
    {
        match self.overconstraint_decision(candidate) {
            Some(b) => b,
            None => true,
        }
    }

    /// Solves the constraints exactly over the rationals, each variable that the
    /// elimination leaves free keeping its default, and rounds every value to the
    /// nearest tick (halves away from zero). `None` when a variable has no default,
    /// when the constraints contradict each other, or when the exact arithmetic
    /// leaves `i128`.
    pub fn solve_with_defaults(&self, defaults: &VariableValues) -> (r: Option<VariableValues>)
        ensures
            self.constraint_seq().len() == 0 && (forall|j: int|
                0 <= j < self.var_keys().len() ==> defaults.value_map().dom().contains(#[trigger] self.var_keys()[j]))
                ==> r is Some,
            (exists|j: int| 0 <= j < self.var_keys().len() && !defaults.value_map().dom().contains(#[trigger] self.var_keys()[j]))
                ==> r is None,
            !solvable(self.matrix(), self.targets(), self.var_keys().len() as int) ==> r is None,
            r matches Some(sol) ==> exists|x: Seq<int>, den: int|
                #![trigger solution_witness(self.matrix(), self.targets(), self.var_keys().len() as int, x, den)]
                solution_witness(self.matrix(), self.targets(), self.var_keys().len() as int, x, den)
                    && rounded_solution(sol.value_map(), self.var_keys(), x, den),
            r matches Some(sol) ==> forall|j: int|
                0 <= j < self.var_keys().len() && unconstrained(self.constraint_seq(), #[trigger] self.var_keys()[j])
                    ==> sol.value_map()[self.var_keys()[j]] == defaults.value_map()[self.var_keys()[j]],
            solvable(self.matrix(), self.targets(), self.var_keys().len() as int) && (forall|j: int|
                0 <= j < self.var_keys().len() ==> defaults.value_map().dom().contains(#[trigger] self.var_keys()[j]))
                && self.solve_fits(*defaults) ==> r is Some,
    {
        proof {
            use_type_invariant(self);
        }
        if self.constraints.len() == 0 {
            self.defaults_for_all(defaults)
        } else {
            self.solve_by_elimination(defaults)
        }
    }

    /// Exact fraction-free elimination, back substitution with the free
    /// variables at their defaults, a check of the solution, and rounding.
    fn solve_by_elimination(&self, defaults: &VariableValues) -> (r: Option<VariableValues>)
        ensures
            (exists|j: int| 0 <= j < self.var_keys().len() && !defaults.value_map().dom().contains(#[trigger] self.var_keys()[j]))
                ==> r is None,
            !solvable(self.matrix(), self.targets(), self.var_keys().len() as int) ==> r is None,
            r matches Some(sol) ==> exists|x: Seq<int>, den: int|
                #![trigger solution_witness(self.matrix(), self.targets(), self.var_keys().len() as int, x, den)]
                solution_witness(self.matrix(), self.targets(), self.var_keys().len() as int, x, den)
                    && rounded_solution(sol.value_map(), self.var_keys(), x, den),
            r matches Some(sol) ==> forall|j: int|
                0 <= j < self.var_keys().len() && unconstrained(self.constraint_seq(), #[trigger] self.var_keys()[j])
                    ==> sol.value_map()[self.var_keys()[j]] == defaults.value_map()[self.var_keys()[j]],
            solvable(self.matrix(), self.targets(), self.var_keys().len() as int) && (forall|j: int|
                0 <= j < self.var_keys().len() ==> defaults.value_map().dom().contains(#[trigger] self.var_keys()[j]))
                && self.solve_fits(*defaults) ==> r is Some,
    {
        proof {
            use_type_invariant(self);
        }
        let keys = &self.variables;
        let n = keys.len();
        let ghost kv = key_views(keys@);
        let a = constraint_matrix(&self.constraints, keys);
        let b = target_vector(&self.constraints);
        let m = a.len();
        if n > usize::MAX / 4 || m > usize::MAX / 4 {
            return None;
        }
        let ghost ok = solvable(self.matrix(), self.targets(), n as int) && (forall|j: int|
            0 <= j < n ==> defaults.value_map().dom().contains(#[trigger] kv[j])) && self.solve_fits(*defaults);
        let ghost bb: int = choose|bb: int|
            1 <= bb && solve_inputs_within(self.constraint_seq(), self.var_keys(), defaults.value_map(), bb) && solve_bound(
                bb,
                n as int,
                m as int,
            ) <= 0x4000_0000_0000_0000_0000_0000_0000_0000;
        let ghost g = growth(bb, m as nat);
        let ghost xb = back_bound(g, bb, n as int, m as int);
        let mut work = augment_with_identity(&a, &b, true, n);
        let w = n + 1 + m;
        let ghost aug = work@;
        proof {
            assert(int_rows(a@) == self.matrix());
            assert(ints(b@) == self.targets());
            assert(ok ==> {
                &&& 1 <= bb <= g
                &&& entries_within(aug, bb)
                &&& growth(bb, max_rounds(aug, n as int)) <= g
                &&& forall|i: int, j: int| 0 <= i < m && 0 <= j < n ==> -bb <= #[trigger] a@[i]@[j] <= bb
                &&& forall|i: int| 0 <= i < m ==> -bb <= #[trigger] b@[i] <= bb
                &&& 1 <= power(g, m as nat) <= solve_bound(bb, n as int, m as int)
                &&& power(g, m as nat) * bb <= solve_bound(bb, n as int, m as int)
                &&& xb <= solve_bound(bb, n as int, m as int)
                &&& n * (bb * xb) <= solve_bound(bb, n as int, m as int)
                &&& 0 <= bb * xb
                &&& g <= solve_bound(bb, n as int, m as int)
                &&& solve_bound(bb, n as int, m as int) <= 0x4000_0000_0000_0000_0000_0000_0000_0000
            }) by {
                if ok {
                    lemma_solve_bound(bb, n as int, m as int);
                    assert forall|i: int, j: int| 0 <= i < m && 0 <= j < n implies -bb <= #[trigger] a@[i]@[j] <= bb by {
                        assert(int_rows(a@)[i][j] == a@[i]@[j]);
                        assert(int_rows(a@)[i][j] == self.constraint_seq()[i].expr().coeff(kv[j]));
                    }
                    assert forall|i: int| 0 <= i < m implies -bb <= #[trigger] b@[i] <= bb by {
                        assert(ints(b@)[i] == self.constraint_seq()[i].target_value().ticks);
                    }
                    assert forall|i: int, j: int| 0 <= i < aug.len() && 0 <= j < aug[i]@.len() implies -bb <= #[trigger] aug[i]@[j] <= bb by {
                        if j < n {
                            assert(aug[i]@[j] == a@[i]@[j]);
                        } else if j == n {
                            assert(aug[i]@[n as int] == b@[i]);
                        } else {
                            assert(aug[i]@[n + 1 + (j - n - 1)] == if j - n - 1 == i { 1i128 } else { 0i128 });
                        }
                    }
                    lemma_growth_mono(bb, max_rounds(aug, n as int), m as nat);
                }
            }
        }
        let pivots = match reduce_within(&mut work, n, w, Ghost(bb)) {
            Some(p) => p,
            None => {
                return None;
            },
        };
        proof {
            lemma_pivot_count(pivots@, m as int);
            assert(ok ==> entries_within(work@, g));
        }
        // A row reduced to 0 = t with t ≠ 0: the constraints contradict each other.
        let mut i: usize = 0;
        while i < m
            invariant
                n as int == self.var_keys().len(),
                kv == self.var_keys(),
                ok == (solvable(self.matrix(), self.targets(), n as int) && (forall|j: int|
                    0 <= j < n ==> defaults.value_map().dom().contains(#[trigger] kv[j])) && self.solve_fits(*defaults)),
                i <= m,
                work.len() == m,
                n < w,
                w == n + 1 + m,
                rectangular(work@, w as int),
                forall|r: int| 0 <= r < i && (forall|j: int| 0 <= j < n ==> #[trigger] work@[r]@[j] == 0) ==> work@[r]@[n as int] == 0,
                a.len() == m,
                b.len() == m,
                rectangular(a@, n as int),
                augmented(a@, b@, true, n as int, aug),
                rectangular(aug, w as int),
                exists|c: Seq<Seq<int>>| #[trigger] rows_combine(aug, work@, c),
                ok ==> solvable(int_rows(a@), ints(b@), n as int),
            decreases m - i,
        {
            let zero = all_zero(&work[i], 0, n);
            if zero && work[i][n] != 0 {
                proof {
                    if ok {
                        lemma_zero_row_consistent(aug, work@, a@, b@, n as int, m as int, i as int);
                    }
                }
                return None;
            }
            i = i + 1;
        }
        // The defaults, in variable order.
        let mut defs: Vec<i128> = Vec::new();
        let mut j: usize = 0;
        while j < n
            invariant
                n as int == self.var_keys().len(),
                kv == self.var_keys(),
                ok == (solvable(self.matrix(), self.targets(), n as int) && (forall|j: int|
                    0 <= j < n ==> defaults.value_map().dom().contains(#[trigger] kv[j])) && self.solve_fits(*defaults)),
                j <= n,
                n == keys.len(),
                kv == key_views(keys@),
                defs.len() == j,
                forall|t: int| 0 <= t < j ==> defaults.value_map().dom().contains(#[trigger] kv[t])
                    && defs[t] as int == defaults.value_map()[kv[t]].ticks as int,
            decreases n - j,
        {
            match defaults.get(&keys[j]) {
                Some(l) => {
                    defs.push(l.ticks as i128);
                },
                None => {
                    proof {
                        assert(kv[j as int] == keys@[j as int]@);
                        assert(!defaults.value_map().dom().contains(kv[j as int]));
                    }
                    return None;
                },
            }
            j = j + 1;
        }
        proof {
            assert(ok ==> power(g, m as nat) <= i128::MAX && forall|t: int| 0 <= t < n ==> -bb <= #[trigger] defs@[t] <= bb) by {
                if ok {
                    assert forall|t: int| 0 <= t < n implies -bb <= #[trigger] defs@[t] <= bb by {
                        assert(defaults.value_map().dom().contains(kv[t]));
                    }
                    lemma_pivot_prods_fit(work@, pivots@, bb, g, n as int, m as int, w as int);
                }
            }
            if ok {
                lemma_pivot_prods_fit(work@, pivots@, bb, g, n as int, m as int, w as int);
            }
        }
        let product = match pivot_product(&work, &pivots, w) {
            Some(p) => p,
            None => {
                return None;
            },
        };
        proof {
            if ok {
                assert forall|t: int| 0 <= t < pivots.len() implies (#[trigger] pivots@[t]).0 < work@.len() && (pivots@[t].1 as int) < work@[pivots@[t].0 as int]@.len() by {
                    assert(pivots@[t].0 == t);
                }
                lemma_pivot_prod_within(work@, pivots@, pivots.len() as int, g);
                lemma_power_grows(g, pivots.len() as nat, m as nat);
            }
        }
        let mut x = match back_substitute(&work, &pivots, &defs, product, n, m, Ghost(g), Ghost(bb)) {
            Some(x) => x,
            None => {
                return None;
            },
        };
        let ghost raw = x@;
        proof {
            lemma_rows_solved(work@, raw, product as int, n as int, m as int, pivots.len() as int);
            assert forall|k: int| 0 <= k < m implies dot(ints(#[trigger] a@[k]@), ints(raw), n as int) == product * b@[k] by {
                lemma_solution_lifts(aug, work@, a@, b@, ints(raw), product as int, n as int, m as int, k);
            }
        }
        // A positive common denominator.
        let mut den = product;
        if den < 0 {
            den = match 0i128.checked_sub(den) {
                Some(v) => v,
                None => {
                    return None;
                },
            };
            let mut j: usize = 0;
            while j < n
                invariant
                    n as int == self.var_keys().len(),
                    kv == self.var_keys(),
                    ok == (solvable(self.matrix(), self.targets(), n as int) && (forall|j: int|
                        0 <= j < n ==> defaults.value_map().dom().contains(#[trigger] kv[j])) && self.solve_fits(*defaults)),
                    j <= n,
                    x.len() == n,
                    raw.len() == n,
                    forall|t: int| 0 <= t < j ==> #[trigger] x@[t] == -raw[t],
                    forall|t: int| j <= t < n ==> #[trigger] x@[t] == raw[t],
                    ok ==> forall|t: int| 0 <= t < n ==> -xb <= #[trigger] raw[t] <= xb,
                    ok ==> xb <= i128::MAX,
                decreases n - j,
            {
                let negated = match 0i128.checked_sub(x[j]) {
                    Some(v) => v,
                    None => {
                        return None;
                    },
                };
                x.set(j, negated);
                j = j + 1;
            }
        }
        proof {
            assert(den > 0);
            assert(den as int == if product < 0 { -product } else { product as int });
            assert(forall|t: int| 0 <= t < n ==> #[trigger] x@[t] == if product < 0 { -raw[t] } else { raw[t] as int });
            assert forall|k: int| 0 <= k < m implies dot(ints(#[trigger] a@[k]@), ints(x@), n as int) == den * b@[k] by {
                if product < 0 {
                    assert forall|t: int| 0 <= t < n implies #[trigger] ints(x@)[t] == -ints(raw)[t] by {}
                    lemma_dot_negated(ints(a@[k]@), ints(raw), ints(x@), n as int);
                    assert(dot(ints(a@[k]@), ints(raw), n as int) == product * b@[k]);
                    assert(-(product as int * b@[k]) == (-(product as int)) * b@[k]) by (nonlinear_arith);
                } else {
                    assert(ints(x@) == ints(raw));
                }
            }
            if ok {
                assert forall|i: int| 0 <= i < m implies #[trigger] row_checked(a@, x@, den as int, b@, n as int, i) by {
                    let u = ints(a@[i]@);
                    let xi = ints(x@);
                    assert forall|j: int| 0 <= j < n implies -bb <= #[trigger] u[j] <= bb by {
                        assert(-bb <= a@[i]@[j] <= bb);
                    }
                    assert forall|j: int| 0 <= j < n implies -xb <= #[trigger] xi[j] <= xb by {
                        assert(-xb <= raw[j] <= xb);
                    }
                    assert forall|j: int| 0 <= j < n implies in_i128(#[trigger] (u[j] * xi[j])) && in_i128(dot(u, xi, j + 1)) by {
                        lemma_mul_within(u[j], xi[j], bb, xb);
                        lemma_dot_within(u, xi, n as int, bb, xb, j + 1);
                        assert((j + 1) * (bb * xb) <= n * (bb * xb) && bb * xb <= n * (bb * xb)) by (nonlinear_arith)
                            requires
                                0 <= j,
                                j + 1 <= n,
                                0 <= bb * xb,
                        ;
                    }
                    lemma_mul_within(den as int, b@[i] as int, power(g, m as nat), bb);
                }
            }
        }
        if !check_solution(&a, &x, den, &b, n) {
            return None;
        }
        proof {
            let c = choose|c: Seq<Seq<int>>| #[trigger] rows_combine(aug, work@, c);
            let ar = int_rows(aug);
            assert forall|t: int| 0 <= t < n && (forall|i: int| 0 <= i < m ==> #[trigger] a@[i]@[t] == 0) implies !is_pivot_col(pivots@, t) by {
                if is_pivot_col(pivots@, t) {
                    let s2 = choose|s2: int| 0 <= s2 < pivots@.len() && (#[trigger] pivots@[s2]).1 == t;
                    assert(pivots@[s2].0 == s2);
                    assert(work@[s2]@[t] != 0);
                    assert forall|i: int| 0 <= i < m implies #[trigger] ar[i][t] == 0 by {
                        assert(aug[i]@[t] == a@[i]@[t]);
                    }
                    lemma_combo_zero_column(ar, c[s2], t, m as int);
                    assert(work@[s2]@[t] == combo(ar, c[s2], t, aug.len() as int));
                }
            }
            assert forall|t: int| 0 <= t < n && !is_pivot_col(pivots@, t) implies #[trigger] x@[t] == den * defs@[t] by {
                assert(raw[t] == defs@[t] * product);
                if product < 0 {
                    assert(-(defs@[t] * product) == (-(product as int)) * defs@[t]) by (nonlinear_arith);
                } else {
                    assert(defs@[t] * product == product * defs@[t]) by (nonlinear_arith);
                }
            }
            if ok {
                assert forall|t: int| 0 <= t < n implies -(power(g, m as nat) * bb) <= #[trigger] (den * defs@[t]) <= power(g, m as nat) * bb by {
                    lemma_mul_within(den as int, defs@[t] as int, power(g, m as nat), bb);
                }
            }
        }
        // Variables that no constraint mentions keep their defaults.
        let mut j: usize = 0;
        while j < n
            invariant
                n as int == self.var_keys().len(),
                kv == self.var_keys(),
                ok == (solvable(self.matrix(), self.targets(), n as int) && (forall|j: int|
                    0 <= j < n ==> defaults.value_map().dom().contains(#[trigger] kv[j])) && self.solve_fits(*defaults)),
                j <= n,
                x.len() == n,
                defs.len() == n,
                a.len() == m,
                rectangular(a@, n as int),
                forall|t: int| 0 <= t < j && (forall|i: int| 0 <= i < m ==> #[trigger] a@[i]@[t] == 0)
                    ==> x[t] as int == den as int * defs[t] as int,
                forall|t: int| 0 <= t < n && !is_pivot_col(pivots@, t) ==> #[trigger] x@[t] == den * defs@[t],
                forall|t: int| 0 <= t < n && (forall|i: int| 0 <= i < m ==> #[trigger] a@[i]@[t] == 0) ==> !is_pivot_col(pivots@, t),
                ok ==> forall|t: int| 0 <= t < n ==> -(power(g, m as nat) * bb) <= #[trigger] (den * defs@[t]) <= power(g, m as nat) * bb,
                ok ==> power(g, m as nat) * bb <= i128::MAX,
            decreases n - j,
        {
            if column_is_zero(&a, j) {
                let scaled = match den.checked_mul(defs[j]) {
                    Some(v) => v,
                    None => {
                        return None;
                    },
                };
                if x[j] != scaled {
                    return None;
                }
            }
            j = j + 1;
        }
        proof {
            assert(ok ==> forall|t: int| 0 <= t < n ==> -0x4000_0000_0000_0000_0000_0000_0000_0000 <= #[trigger] x@[t]
                <= 0x4000_0000_0000_0000_0000_0000_0000_0000) by {
                if ok {
                    assert forall|t: int| 0 <= t < n implies -0x4000_0000_0000_0000_0000_0000_0000_0000 <= #[trigger] x@[t]
                        <= 0x4000_0000_0000_0000_0000_0000_0000_0000 by {
                        assert(-xb <= raw[t] <= xb);
                    }
                }
            }
        }
        // Round and collect.
        let mut values = VariableValues::new();
        let mut j: usize = 0;
        while j < n
            invariant
                n as int == self.var_keys().len(),
                kv == self.var_keys(),
                ok == (solvable(self.matrix(), self.targets(), n as int) && (forall|j: int|
                    0 <= j < n ==> defaults.value_map().dom().contains(#[trigger] kv[j])) && self.solve_fits(*defaults)),
                j <= n,
                n == keys.len(),
                kv == key_views(keys@),
                sorted_vars(keys@),
                x.len() == n,
                den > 0,
                forall|k: VarKey| #[trigger] values.value_map().dom().contains(k) <==> kv.subrange(0, j as int).contains(k),
                forall|t: int| 0 <= t < j ==> values.value_map()[#[trigger] kv[t]] == rounded_length(x[t] as int, den as int),
                ok ==> forall|t: int| 0 <= t < n ==> -0x4000_0000_0000_0000_0000_0000_0000_0000 <= #[trigger] x@[t]
                    <= 0x4000_0000_0000_0000_0000_0000_0000_0000,
            decreases n - j,
        {
            let rounded = match round_half_away_exec(x[j], den) {
                Some(v) => v,
                None => {
                    return None;
                },
            };
            let ticks = clamp_i64_exec(rounded);
            let ghost before = values.value_map();
            values.insert(keys[j].clone(), Length::from_ticks(ticks));
            proof {
                assert forall|k: VarKey| #[trigger] values.value_map().dom().contains(k) <==> kv.subrange(0, j + 1).contains(k) by {
                    let s0 = kv.subrange(0, j as int);
                    let s1 = kv.subrange(0, j + 1);
                    if s1.contains(k) {
                        let t = choose|t: int| 0 <= t < s1.len() && s1[t] == k;
                        if t < j {
                            assert(s0[t] == k);
                        }
                    }
                    if s0.contains(k) {
                        let t = choose|t: int| 0 <= t < s0.len() && s0[t] == k;
                        assert(s1[t] == k);
                    }
                    if k == kv[j as int] {
                        assert(s1[j as int] == k);
                    }
                }
                assert forall|t: int| 0 <= t < j + 1 implies values.value_map()[#[trigger] kv[t]] == rounded_length(x[t] as int, den as int) by {
                    if t < j {
                        assert(var_lt(keys@[t]@, keys@[j as int]@));
                        lemma_var_lt_trichotomy(keys@[t]@, keys@[j as int]@);
                        assert(kv[t] != kv[j as int]);
                    }
                }
            }
            j = j + 1;
        }
        proof {
            assert(kv.subrange(0, n as int) =~= kv);
            let xs = ints(x@);
            assert(solution_witness(self.matrix(), self.targets(), n as int, xs, den as int));
            assert forall|t: int| 0 <= t < n implies values.value_map()[#[trigger] kv[t]] == rounded_length(xs[t], den as int) by {
                assert(values.value_map()[kv[t]] == rounded_length(x[t] as int, den as int));
            }
            assert(rounded_solution(values.value_map(), kv, xs, den as int));
            assert forall|t: int| 0 <= t < n && unconstrained(self.constraint_seq(), #[trigger] kv[t])
                implies values.value_map()[kv[t]] == defaults.value_map()[kv[t]] by {
                assert forall|i: int| 0 <= i < m implies #[trigger] a@[i]@[t] == 0 by {
                    assert(self.constraint_seq()[i].expr().coeff(kv[t]) == 0);
                    assert(int_rows(a@)[i][t] == a@[i]@[t] as int);
                }
                assert(x[t] as int == den as int * defs[t] as int);
                lemma_round_exact(defs[t] as int, den as int);
                let l = defaults.value_map()[kv[t]];
                assert(clamp_i64(defs[t] as int) == l.ticks);
            }
        }
        Some(values)
    }
}

} // verus!
