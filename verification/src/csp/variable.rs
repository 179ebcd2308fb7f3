//! Variables: a named slot that is either open, with a list of candidate
//! values, or committed to a single value.

use super::constraint::BinaryPredicate;
use vstd::laws_eq::obeys_concrete_eq;
use vstd::prelude::*;

verus! {

/// What can go wrong when a problem is set up or a variable is assigned.
#[derive(Clone, Copy, Debug, PartialEq, Eq, Structural)]
pub enum CspError {
    /// The value is not among the variable's candidates.
    InvalidAssignment,
    /// A constraint, or the key it is filed under, names a variable position
    /// that does not exist.
    IndexOutOfRange,
    /// A constraint is filed under a key other than its left position.
    MisfiledConstraint,
}

impl CspError {
    /// What went wrong, in words.
    pub fn message(self) -> (text: String)
        ensures
            text@ == (match self {
                CspError::InvalidAssignment => "the value is not a candidate of the variable"@,
                CspError::IndexOutOfRange => "a constraint names a variable that does not exist"@,
                CspError::MisfiledConstraint => "a constraint is not filed under its left position"@,
            }),
    {
        match self {
            CspError::InvalidAssignment => {
                "the value is not a candidate of the variable".to_string()
            },
            CspError::IndexOutOfRange => {
                "a constraint names a variable that does not exist".to_string()
            },
            CspError::MisfiledConstraint => {
                "a constraint is not filed under its left position".to_string()
            },
        }
    }
}

/// The mathematical content of a [`Variable`].
pub struct VarState<T> {
    pub name: Seq<char>,
    pub value: Option<T>,
    pub domain: Seq<T>,
}

impl<T> VarState<T> {
    /// The state is one of the two that a variable can be in, open or
    /// committed, and no candidate is listed twice.
    pub open spec fn wf(self) -> bool {
        &&& self.domain.no_duplicates()
        &&& self.is_open() || self.is_committed()
    }

    /// No value has been chosen yet.
    pub open spec fn is_open(self) -> bool {
        self.value is None
    }

    /// A value has been chosen and no candidates remain.
    pub open spec fn is_committed(self) -> bool {
        self.value is Some && self.domain.len() == 0
    }

    /// The state with `value` chosen and the candidates dropped.
    pub open spec fn commit(self, value: T) -> Self {
        VarState { name: self.name, value: Some(value), domain: Seq::empty() }
    }

    /// The effect of assigning `value`: commit to it when it is a candidate,
    /// otherwise leave the state as it is.
    pub open spec fn assign(self, value: T) -> Self {
        if self.domain.contains(value) {
            self.commit(value)
        } else {
            self
        }
    }
}

/// The values of `s` in order of first occurrence, each kept once.
pub open spec fn distinct<T>(s: Seq<T>) -> Seq<T>
    decreases s.len(),
{
    if s.len() == 0 {
        Seq::empty()
    } else {
        let rest = distinct(s.drop_last());
        if rest.contains(s.last()) {
            rest
        } else {
            rest.push(s.last())
        }
    }
}

/// `distinct` lists exactly the values of its argument, none of them twice.
pub proof fn lemma_distinct<T>(s: Seq<T>)
    ensures
        distinct(s).no_duplicates(),
        distinct(s).len() <= s.len(),
        forall|x: T| distinct(s).contains(x) <==> s.contains(x),
    decreases s.len(),
{
    if s.len() > 0 {
        let front = s.drop_last();
        let rest = distinct(front);
        let out = distinct(s);
        lemma_distinct(front);
        assert(out == if rest.contains(s.last()) { rest } else { rest.push(s.last()) });
        assert forall|x: T| out.contains(x) implies s.contains(x) by {
            let j = choose|j: int| 0 <= j < out.len() && out[j] == x;
            if j < rest.len() {
                assert(rest[j] == x);
                assert(rest.contains(x));
                assert(front.contains(x));
                let i = choose|i: int| 0 <= i < front.len() && front[i] == x;
                assert(s[i] == x);
            } else {
                assert(s[s.len() - 1] == x);
            }
        }
        assert forall|x: T| s.contains(x) implies out.contains(x) by {
            let i = choose|i: int| 0 <= i < s.len() && s[i] == x;
            if i < s.len() - 1 {
                assert(front[i] == x);
                assert(front.contains(x));
                assert(rest.contains(x));
                let j = choose|j: int| 0 <= j < rest.len() && rest[j] == x;
                assert(out[j] == x);
            } else if rest.contains(x) {
                let j = choose|j: int| 0 <= j < rest.len() && rest[j] == x;
                assert(out[j] == x);
            } else {
                assert(out[rest.len() as int] == x);
            }
        }
    }
}

/// A sequence without repetitions is its own `distinct`.
pub proof fn lemma_distinct_of_unique<T>(s: Seq<T>)
    requires
        s.no_duplicates(),
    ensures
        distinct(s) == s,
    decreases s.len(),
{
    if s.len() > 0 {
        let front = s.drop_last();
        lemma_distinct_of_unique(front);
        lemma_distinct(front);
        if front.contains(s.last()) {
            let i = choose|i: int| 0 <= i < front.len() && front[i] == s.last();
            assert(s[i] == s[s.len() - 1]);
        }
        assert(front.push(s.last()) =~= s);
    } else {
        assert(s =~= Seq::empty());
    }
}

/// Filtering a sequence without repetitions leaves none.
pub proof fn lemma_filter_unique<T>(s: Seq<T>, keep: spec_fn(T) -> bool)
    requires
        s.no_duplicates(),
    ensures
        s.filter(keep).no_duplicates(),
    decreases s.len(),
{
    reveal(Seq::filter);
    if s.len() > 0 {
        let front = s.drop_last();
        lemma_filter_unique(front, keep);
        if keep(s.last()) && front.filter(keep).contains(s.last()) {
            front.lemma_filter_contains_rev(keep, s.last());
            let i = choose|i: int| 0 <= i < front.len() && front[i] == s.last();
            assert(s[i] == s[s.len() - 1]);
        }
    }
}

/// The first position of `x` in `v`, if it occurs.
pub fn position<T: PartialEq>(v: &Vec<T>, x: &T) -> (found: Option<usize>)
    requires
        obeys_concrete_eq::<T>(),
    ensures
        match found {
            Some(i) => i < v.len() && v[i as int] == *x && forall|j: int| 0 <= j < i ==> v[j] != *x,
            None => !v@.contains(*x),
        },
{
    proof {
        reveal(obeys_concrete_eq);
    }
    let mut i: usize = 0;
    while i < v.len()
        invariant
            i <= v.len(),
            obeys_concrete_eq::<T>(),
            forall|j: int| 0 <= j < i ==> v[j] != *x,
        decreases v.len() - i,
    {
        proof {
            reveal(obeys_concrete_eq);
        }
        if v[i] == *x {
            return Some(i);
        }
        i += 1;
    }
    None
}

/// A named slot of the problem. It is open, with candidates, or committed
/// to a value, and never lists a candidate twice.
#[derive(Debug)]
pub struct Variable<T> {
    name: String,
    value: Option<T>,
    domain: Vec<T>,
}

impl<T> View for Variable<T> {
    type V = VarState<T>;

    closed spec fn view(&self) -> VarState<T> {
        VarState { name: self.name@, value: self.value, domain: self.domain@ }
    }
}

impl<T: Copy> Clone for Variable<T> {
    fn clone(&self) -> (copy: Self)
        ensures
            copy@ == self@,
    {
        proof {
            use_type_invariant(self);
        }
        let mut domain: Vec<T> = Vec::new();
        let mut i: usize = 0;
        while i < self.domain.len()
            invariant
                i <= self.domain.len(),
                domain@ == self.domain@.take(i as int),
            decreases self.domain.len() - i,
        {
            domain.push(self.domain[i]);
            assert(self.domain@.take(i + 1) =~= self.domain@.take(i as int).push(
                self.domain@[i as int],
            ));
            i += 1;
        }
        assert(self.domain@.take(i as int) =~= self.domain@);
        Variable { name: self.name.clone(), value: self.value, domain }
    }
}

impl<T> Variable<T> {
    /// The variable is open or committed, and no candidate is listed twice.
    #[verifier::type_invariant]
    pub open spec fn wf(&self) -> bool {
        self@.wf()
    }

    /// Brings to mind that the variable is well formed. Nothing happens
    /// when this runs.
    pub fn recall_wf(&self)
        ensures
            self.wf(),
    {
        proof {
            use_type_invariant(self);
        }
    }

    /// Builds a variable in either state: open, with the candidates of
    /// `domain` in the order given, each once; or committed to `value`, and
    /// then without candidates.
    pub fn new(name: String, domain: Vec<T>, value: Option<T>) -> (variable: Self)
        where T: Copy + PartialEq
        requires
            obeys_concrete_eq::<T>(),
        ensures
            variable@.name == name@,
            variable@.value == value,
            variable@.domain == (if value is Some {
                Seq::empty()
            } else {
                distinct(domain@)
            }),
    {
        if value.is_some() {
            return Variable { name, value, domain: Vec::new() };
        }
        let mut unique: Vec<T> = Vec::new();
        let mut i: usize = 0;
        while i < domain.len()
            invariant
                i <= domain.len(),
                obeys_concrete_eq::<T>(),
                unique@ == distinct(domain@.take(i as int)),
            decreases domain.len() - i,
        {
            let x = domain[i];
            assert(domain@.take(i + 1).drop_last() =~= domain@.take(i as int));
            if position(&unique, &x).is_none() {
                unique.push(x);
            }
            i += 1;
        }
        proof {
            assert(domain@.take(i as int) =~= domain@);
            lemma_distinct(domain@);
        }
        Variable { name, value, domain: unique }
    }

    /// Commits the variable to `value` if it is a candidate, and drops the
    /// other candidates. Any other value is refused and changes nothing.
    pub fn assign(&mut self, value: &T) -> (outcome: Result<(), CspError>)
        where T: Copy + PartialEq
        requires
            obeys_concrete_eq::<T>(),
        ensures
            final(self)@ == old(self)@.assign(*value),
            outcome is Ok <==> old(self)@.domain.contains(*value),
            outcome is Err ==> outcome == Err::<(), CspError>(CspError::InvalidAssignment),
    {
        match position(&self.domain, value) {
            Some(i) => {
                let chosen = self.domain[i];
                self.domain = Vec::new();
                self.value = Some(chosen);
                Ok(())
            },
            None => Err(CspError::InvalidAssignment),
        }
    }

    /// Commits the variable to its candidate at `index` and drops the other
    /// candidates.
    pub fn assign_candidate(&mut self, index: usize)
        where T: Copy
        requires
            index < old(self)@.domain.len(),
        ensures
            final(self)@ == old(self)@.commit(old(self)@.domain[index as int]),
            final(self)@ == old(self)@.assign(old(self)@.domain[index as int]),
    {
        let chosen = self.domain[index];
        self.domain = Vec::new();
        self.value = Some(chosen);
    }

    /// Drops every candidate that `check` rejects beside `left`, and keeps
    /// the others in their order. Says whether a candidate was dropped.
    pub fn prune<C: BinaryPredicate<T>>(&mut self, check: &C, left: &T) -> (removed: bool)
        where T: Copy
        ensures
            final(self)@ == (VarState {
                name: old(self)@.name,
                value: old(self)@.value,
                domain: old(self)@.domain.filter(|v: T| check.holds(*left, v)),
            }),
            removed == (final(self)@.domain.len() < old(self)@.domain.len()),
    {
        proof {
            use_type_invariant(&*self);
        }
        let ghost keep = |v: T| check.holds(*left, v);
        let mut kept: Vec<T> = Vec::new();
        let mut j: usize = 0;
        proof {
            reveal(Seq::filter);
        }
        while j < self.domain.len()
            invariant
                j <= self.domain.len(),
                *self == *old(self),
                keep == (|v: T| check.holds(*left, v)),
                kept@ == self.domain@.take(j as int).filter(keep),
            decreases self.domain.len() - j,
        {
            proof {
                reveal(Seq::filter);
                assert(self.domain@.take(j + 1).drop_last() =~= self.domain@.take(j as int));
            }
            if check.check(left, &self.domain[j]) {
                kept.push(self.domain[j]);
            }
            j += 1;
        }
        proof {
            assert(self.domain@.take(j as int) =~= self.domain@);
            self.domain@.lemma_filter_len(keep);
            lemma_filter_unique(self.domain@, keep);
        }
        let removed = kept.len() < self.domain.len();
        self.domain = kept;
        removed
    }

    /// Whether a value has been chosen.
    pub fn is_assigned(&self) -> (assigned: bool)
        ensures
            assigned == self@.value.is_some(),
    {
        self.value.is_some()
    }

    /// The variable's name.
    pub fn name(&self) -> (name: &String)
        ensures
            name@ == self@.name,
    {
        &self.name
    }

    /// The chosen value, if any.
    pub fn value(&self) -> (value: Option<T>)
        where T: Copy
        ensures
            value == self@.value,
    {
        self.value
    }

    /// The candidates that remain, in their fixed order.
    pub fn domain(&self) -> (domain: &Vec<T>)
        ensures
            domain@ == self@.domain,
    {
        &self.domain
    }
}

} // verus!
