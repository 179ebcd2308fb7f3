//! Algebraic expressions: sums and products of integers and variables, their
//! size and depth, their notation, and a simplifier that merges nested sums
//! and products and multiplies out neighbouring sums.

use crate::text::{push_char, push_signed_decimal, push_text, signed_decimal};
use vstd::prelude::*;

verus! {

/// A mathematical expression.
#[derive(Debug)]
pub enum Expression {
    Sum(Vec<Expression>),
    Product(Vec<Expression>),
    Integer(i64),
    Variable(i64, String),
}

/// The mathematical content of an expression.
pub enum Term {
    Sum(Seq<Term>),
    Product(Seq<Term>),
    Integer(i64),
    Variable(i64, Seq<char>),
}

/// The content of an expression.
pub open spec fn term_of(e: Expression) -> Term
    decreases e, 0nat,
{
    match e {
        Expression::Sum(terms) => Term::Sum(terms_of(terms@, terms@.len())),
        Expression::Product(terms) => Term::Product(terms_of(terms@, terms@.len())),
        Expression::Integer(i) => Term::Integer(i),
        Expression::Variable(c, name) => Term::Variable(c, name@),
    }
}

/// The contents of the first `n` expressions of a list.
pub open spec fn terms_of(list: Seq<Expression>, n: nat) -> Seq<Term>
    decreases list, n,
{
    if n == 0 || n > list.len() {
        Seq::empty()
    } else {
        terms_of(list, (n - 1) as nat).push(term_of(list[n - 1]))
    }
}

/// The contents of a list of expressions.
pub open spec fn terms(list: Seq<Expression>) -> Seq<Term> {
    terms_of(list, list.len())
}

/// `terms_of` lists the content of each of the first `n` expressions.
pub proof fn lemma_terms_of(list: Seq<Expression>, n: nat)
    requires
        n <= list.len(),
    ensures
        terms_of(list, n).len() == n,
        forall|k: int| 0 <= k < n ==> (#[trigger] terms_of(list, n)[k]) == term_of(list[k]),
    decreases n,
{
    if n > 0 {
        lemma_terms_of(list, (n - 1) as nat);
    }
}

/// The contents of a list that grew by one expression.
pub proof fn lemma_terms_push(list: Seq<Expression>, e: Expression)
    ensures
        terms(list.push(e)) == terms(list).push(term_of(e)),
{
    lemma_terms_of(list.push(e), list.len() + 1);
    lemma_terms_of(list, list.len());
    assert(terms(list.push(e)) =~= terms(list).push(term_of(e))) by {
        assert forall|k: int| 0 <= k < list.len() implies terms(list.push(e))[k] == terms(
            list,
        )[k] by {
            assert(list.push(e)[k] == list[k]);
        }
    }
}

/// The contents of two lists put together.
pub proof fn lemma_terms_add(a: Seq<Expression>, b: Seq<Expression>)
    ensures
        terms(a + b) == terms(a) + terms(b),
{
    lemma_terms_of(a + b, (a + b).len());
    lemma_terms_of(a, a.len());
    lemma_terms_of(b, b.len());
    assert(terms(a + b) =~= terms(a) + terms(b)) by {
        assert forall|k: int| 0 <= k < (a + b).len() implies terms(a + b)[k] == (terms(a)
            + terms(b))[k] by {
            if k < a.len() {
                assert((a + b)[k] == a[k]);
            } else {
                assert((a + b)[k] == b[k - a.len()]);
            }
        }
    }
}

impl View for Expression {
    type V = Term;

    open spec fn view(&self) -> Term {
        term_of(*self)
    }
}

/// The number of integers and variables in an expression.
pub open spec fn size(t: Term) -> nat
    decreases t, 0nat,
{
    match t {
        Term::Sum(ts) => total_size(ts, ts.len()),
        Term::Product(ts) => total_size(ts, ts.len()),
        Term::Integer(_) => 1,
        Term::Variable(_, _) => 1,
    }
}

/// The sizes of the first `n` terms, added up.
pub open spec fn total_size(ts: Seq<Term>, n: nat) -> nat
    decreases ts, n,
{
    if n == 0 || n > ts.len() {
        0
    } else {
        total_size(ts, (n - 1) as nat) + size(ts[n - 1])
    }
}

/// The depth of the tree of an expression: an integer, a variable and an
/// empty sum or product have depth 0.
pub open spec fn depth(t: Term) -> nat
    decreases t, 0nat,
{
    match t {
        Term::Sum(ts) => if ts.len() == 0 {
            0
        } else {
            deepest(ts, ts.len()) + 1
        },
        Term::Product(ts) => if ts.len() == 0 {
            0
        } else {
            deepest(ts, ts.len()) + 1
        },
        Term::Integer(_) => 0,
        Term::Variable(_, _) => 0,
    }
}

/// The largest depth among the first `n` terms.
pub open spec fn deepest(ts: Seq<Term>, n: nat) -> nat
    decreases ts, n,
{
    if n == 0 || n > ts.len() {
        0
    } else {
        let rest = deepest(ts, (n - 1) as nat);
        if rest < depth(ts[n - 1]) {
            depth(ts[n - 1])
        } else {
            rest
        }
    }
}

/// How tightly an expression binds: a sum least, then a product, then an
/// integer or a variable.
pub open spec fn binding(t: Term) -> nat {
    match t {
        Term::Sum(_) => 2,
        Term::Product(_) => 3,
        Term::Integer(_) => 4,
        Term::Variable(_, _) => 4,
    }
}

/// The sizes of more terms add up to more.
pub proof fn lemma_total_size_grows(ts: Seq<Term>, n: nat, m: nat)
    requires
        n <= m <= ts.len(),
    ensures
        total_size(ts, n) <= total_size(ts, m),
    decreases m,
{
    if n < m {
        lemma_total_size_grows(ts, n, (m - 1) as nat);
    }
}

/// No term is deeper than the deepest.
pub proof fn lemma_deepest(ts: Seq<Term>, n: nat, k: int)
    requires
        0 <= k < n <= ts.len(),
    ensures
        depth(ts[k]) <= deepest(ts, n),
    decreases n,
{
    if k < n - 1 {
        lemma_deepest(ts, (n - 1) as nat, k);
    }
}

/// The total size of a list of expressions.
fn size_of_list(list: &Vec<Expression>) -> (n: u64)
    requires
        total_size(terms(list@), list@.len()) <= u64::MAX,
    ensures
        n == total_size(terms(list@), list@.len()),
    decreases list, 1nat,
{
    broadcast use vstd::std_specs::vec::axiom_vec_index_decreases;

    let ghost ts = terms(list@);
    proof {
        lemma_terms_of(list@, list@.len());
    }
    let mut acc: u64 = 0;
    let mut i: usize = 0;
    while i < list.len()
        invariant
            i <= list.len(),
            ts == terms(list@),
            ts.len() == list.len(),
            forall|k: int| 0 <= k < list.len() ==> (#[trigger] ts[k]) == term_of(list@[k]),
            acc == total_size(ts, i as nat),
            total_size(ts, list@.len()) <= u64::MAX,
        decreases list.len() - i,
    {
        proof {
            lemma_total_size_grows(ts, (i + 1) as nat, list@.len());
        }
        acc = acc + list[i].size();
        i += 1;
    }
    acc
}

/// The largest depth in a list of expressions.
fn depth_of_list(list: &Vec<Expression>) -> (d: u64)
    requires
        deepest(terms(list@), list@.len()) <= u64::MAX,
    ensures
        d == deepest(terms(list@), list@.len()),
    decreases list, 1nat,
{
    broadcast use vstd::std_specs::vec::axiom_vec_index_decreases;

    let ghost ts = terms(list@);
    proof {
        lemma_terms_of(list@, list@.len());
    }
    let mut best: u64 = 0;
    let mut i: usize = 0;
    while i < list.len()
        invariant
            i <= list.len(),
            ts == terms(list@),
            ts.len() == list.len(),
            forall|k: int| 0 <= k < list.len() ==> (#[trigger] ts[k]) == term_of(list@[k]),
            best == deepest(ts, i as nat),
            deepest(ts, list@.len()) <= u64::MAX,
        decreases list.len() - i,
    {
        proof {
            lemma_deepest(ts, list@.len(), i as int);
        }
        let d = list[i].depth();
        if best < d {
            best = d;
        }
        i += 1;
    }
    best
}

impl Clone for Expression {
    fn clone(&self) -> (copy: Self)
        ensures
            copy@ == self@,
        decreases self, 0nat,
    {
        match self {
            Expression::Sum(s) => Expression::Sum(copy_list(s)),
            Expression::Product(p) => Expression::Product(copy_list(p)),
            Expression::Integer(i) => Expression::Integer(*i),
            Expression::Variable(c, name) => Expression::Variable(*c, name.clone()),
        }
    }
}

/// A copy of a list of expressions.
fn copy_list(list: &Vec<Expression>) -> (copy: Vec<Expression>)
    ensures
        terms(copy@) == terms(list@),
        copy.len() == list.len(),
    decreases list, 1nat,
{
    broadcast use vstd::std_specs::vec::axiom_vec_index_decreases;

    let mut copy: Vec<Expression> = Vec::new();
    let mut i: usize = 0;
    while i < list.len()
        invariant
            i <= list.len(),
            copy.len() == i,
            forall|k: int| 0 <= k < i ==> term_of(#[trigger] copy@[k]) == term_of(list@[k]),
        decreases list.len() - i,
    {
        copy.push(list[i].clone());
        i += 1;
    }
    proof {
        lemma_terms_of(list@, list@.len());
        lemma_terms_of(copy@, copy@.len());
        assert(terms(copy@) =~= terms(list@));
    }
    copy
}

impl Expression {
    /// The total number of terms in the expression.
    pub fn size(&self) -> (n: u64)
        requires
            size(self@) <= u64::MAX,
        ensures
            n == size(self@),
        decreases self, 2nat,
    {
        proof {
            match self {
                Expression::Sum(s) => lemma_terms_of(s@, s@.len()),
                Expression::Product(p) => lemma_terms_of(p@, p@.len()),
                _ => {},
            }
        }
        match self {
            Expression::Sum(s) => size_of_list(s),
            Expression::Product(p) => size_of_list(p),
            Expression::Integer(_) => 1,
            Expression::Variable(_, _) => 1,
        }
    }

    /// The depth of the full expression tree.
    pub fn depth(&self) -> (d: u64)
        requires
            depth(self@) <= u64::MAX,
        ensures
            d == depth(self@),
        decreases self, 2nat,
    {
        proof {
            match self {
                Expression::Sum(s) => lemma_terms_of(s@, s@.len()),
                Expression::Product(p) => lemma_terms_of(p@, p@.len()),
                _ => {},
            }
        }
        match self {
            Expression::Sum(s) => {
                if s.len() == 0 {
                    0
                } else {
                    depth_of_list(s) + 1
                }
            },
            Expression::Product(p) => {
                if p.len() == 0 {
                    0
                } else {
                    depth_of_list(p) + 1
                }
            },
            Expression::Integer(_) => 0,
            Expression::Variable(_, _) => 0,
        }
    }

    /// How tightly the expression binds.
    pub fn precedence(&self) -> (p: u64)
        ensures
            p == binding(self@),
    {
        match self {
            Expression::Sum(_) => 2,
            Expression::Product(_) => 3,
            Expression::Integer(_) => 4,
            Expression::Variable(_, _) => 4,
        }
    }
}

/// The notation of an expression: the terms of a sum joined by `+`, those of
/// a product by `*`, a term in brackets where it binds less tightly than the
/// expression around it; an integer in decimal; a variable by its name,
/// after its coefficient unless that is 1.
pub open spec fn notation(t: Term) -> Seq<char>
    decreases t, 0nat,
{
    match t {
        Term::Sum(ts) => joined(ts, 2, seq!['+'], ts.len()),
        Term::Product(ts) => joined(ts, 3, seq!['*'], ts.len()),
        Term::Integer(i) => signed_decimal(i as int),
        Term::Variable(c, name) => if c == 1 {
            name
        } else {
            signed_decimal(c as int) + name
        },
    }
}

/// The notation of a term inside an expression that binds at `level`.
pub open spec fn bracketed(t: Term, level: nat) -> Seq<char>
    decreases t, 1nat,
{
    if binding(t) < level {
        seq!['('] + notation(t) + seq![')']
    } else {
        notation(t)
    }
}

/// The first `n` terms of `ts` joined by `sep`, which stands between spaces
/// after every term but the last of `ts`.
pub open spec fn joined(ts: Seq<Term>, level: nat, sep: Seq<char>, n: nat) -> Seq<char>
    decreases ts, n,
{
    if n == 0 || n > ts.len() {
        Seq::empty()
    } else {
        joined(ts, level, sep, (n - 1) as nat) + bracketed(ts[n - 1], level) + (if n < ts.len() {
            seq![' '] + sep + seq![' ']
        } else {
            Seq::empty()
        })
    }
}

/// Writes the terms of a sum or product, joined by `sep`.
pub fn write_terms(terms: &Vec<Expression>, precedence: u64, out: &mut String, sep: &str)
    ensures
        final(out)@ == old(out)@ + joined(
            crate::algrebra::terms(terms@),
            precedence as nat,
            sep@,
            terms@.len(),
        ),
    decreases terms, 1nat,
{
    broadcast use vstd::std_specs::vec::axiom_vec_index_decreases;

    let ghost ts = crate::algrebra::terms(terms@);
    proof {
        lemma_terms_of(terms@, terms@.len());
    }
    let mut i: usize = 0;
    assert(out@ =~= old(out)@ + joined(ts, precedence as nat, sep@, 0));
    while i < terms.len()
        invariant
            i <= terms.len(),
            ts == crate::algrebra::terms(terms@),
            ts.len() == terms.len(),
            forall|k: int| 0 <= k < terms.len() ==> (#[trigger] ts[k]) == term_of(terms@[k]),
            out@ == old(out)@ + joined(ts, precedence as nat, sep@, i as nat),
        decreases terms.len() - i,
    {
        let ghost before = out@;
        // Wrap the term in parenthesis if it's of lower precendence to
        // preserve operation order
        if terms[i].precedence() < precedence {
            push_char(out, '(');
            terms[i].fmt(out);
            push_char(out, ')');
        } else {
            terms[i].fmt(out);
        }
        if i + 1 < terms.len() {
            push_char(out, ' ');
            push_text(out, sep);
            push_char(out, ' ');
        }
        proof {
            assert(out@ =~= before + bracketed(ts[i as int], precedence as nat) + (if i + 1
                < ts.len() {
                seq![' '] + sep@ + seq![' ']
            } else {
                Seq::empty()
            }));
            assert(out@ =~= old(out)@ + joined(ts, precedence as nat, sep@, (i + 1) as nat));
        }
        i += 1;
    }
}

impl Expression {
    /// Appends the notation of the expression to `out`.
    pub fn fmt(&self, out: &mut String)
        ensures
            final(out)@ == old(out)@ + notation(self@),
        decreases self, 2nat,
    {
        proof {
            reveal_strlit("+");
            reveal_strlit("*");
            assert("+"@ =~= seq!['+']);
            assert("*"@ =~= seq!['*']);
        }
        match self {
            Expression::Sum(terms) => {
                proof {
                    lemma_terms_of(terms@, terms@.len());
                }
                write_terms(terms, self.precedence(), out, "+");
            },
            Expression::Product(terms) => {
                proof {
                    lemma_terms_of(terms@, terms@.len());
                }
                write_terms(terms, self.precedence(), out, "*");
            },
            Expression::Integer(i) => {
                push_signed_decimal(out, *i);
            },
            Expression::Variable(c, v) => {
                if *c == 1 {
                    push_text(out, v.as_str());
                } else {
                    push_signed_decimal(out, *c);
                    push_text(out, v.as_str());
                    assert(out@ =~= old(out)@ + (signed_decimal(*c as int) + v@));
                }
            },
        }
    }

    /// The notation of the expression.
    pub fn to_text(&self) -> (text: String)
        ensures
            text@ == notation(self@),
    {
        let mut text = String::new();
        self.fmt(&mut text);
        assert(text@ =~= notation(self@));
        text
    }
}

/// The simplified expression. The terms of a sum are simplified, except
/// that a sum among them gives its own terms as they are. In a product, a
/// product among the terms gives its own terms as they are; a sum followed by
/// a sum is multiplied out with it; every other term is simplified. A product
/// that is left with one term is that term.
pub open spec fn simplified(t: Term) -> Term
    decreases t, 0nat,
{
    match t {
        Term::Sum(ts) => Term::Sum(merged_sum(ts, ts.len())),
        Term::Product(ts) => {
            let flat = merged_product(ts, 0);
            if flat.len() > 1 {
                Term::Product(flat)
            } else {
                flat[0]
            }
        },
        _ => t,
    }
}

/// The terms that the first `n` terms of a sum give.
pub open spec fn merged_sum(ts: Seq<Term>, n: nat) -> Seq<Term>
    decreases ts, n,
{
    if n == 0 || n > ts.len() {
        Seq::empty()
    } else {
        merged_sum(ts, (n - 1) as nat) + (match ts[n - 1] {
            Term::Sum(inner) => inner,
            other => seq![simplified(other)],
        })
    }
}

/// The terms that the terms of a product give, from the term at `from` on.
pub open spec fn merged_product(ts: Seq<Term>, from: nat) -> Seq<Term>
    decreases ts, ts.len() - from,
{
    if from >= ts.len() {
        Seq::empty()
    } else {
        match ts[from as int] {
            Term::Product(inner) => inner + merged_product(ts, from + 1),
            Term::Sum(left) => if from + 1 < ts.len() && ts[(from + 1) as int] is Sum {
                seq![Term::Sum(multiplied_out(left, ts[(from + 1) as int]->Sum_0, left.len()))]
                    + merged_product(ts, from + 2)
            } else {
                seq![simplified(ts[from as int])] + merged_product(ts, from + 1)
            },
            other => seq![simplified(other)] + merged_product(ts, from + 1),
        }
    }
}

/// The products of each of the first `n` terms of `left` with each term of
/// `right`, in that order.
pub open spec fn multiplied_out(left: Seq<Term>, right: Seq<Term>, n: nat) -> Seq<Term>
    decreases n,
{
    if n == 0 || n > left.len() {
        Seq::empty()
    } else {
        multiplied_out(left, right, (n - 1) as nat) + Seq::new(
            right.len(),
            |j: int| Term::Product(seq![left[n - 1], right[j]]),
        )
    }
}

/// Whether an expression can be simplified: no product in it that has to be
/// simplified is left without a term.
pub open spec fn simplifiable(t: Term) -> bool
    decreases t, 0nat,
{
    match t {
        Term::Sum(ts) => sum_simplifiable(ts, ts.len()),
        Term::Product(ts) => product_simplifiable(ts, 0) && merged_product(ts, 0).len() > 0,
        _ => true,
    }
}

/// Whether the first `n` terms of a sum can be simplified.
pub open spec fn sum_simplifiable(ts: Seq<Term>, n: nat) -> bool
    decreases ts, n,
{
    if n == 0 || n > ts.len() {
        true
    } else {
        sum_simplifiable(ts, (n - 1) as nat) && (ts[n - 1] is Sum || simplifiable(ts[n - 1]))
    }
}

/// Whether the terms of a product can be simplified, from the term at
/// `from` on.
pub open spec fn product_simplifiable(ts: Seq<Term>, from: nat) -> bool
    decreases ts, ts.len() - from,
{
    if from >= ts.len() {
        true
    } else {
        match ts[from as int] {
            Term::Product(_) => product_simplifiable(ts, from + 1),
            Term::Sum(_) => if from + 1 < ts.len() && ts[(from + 1) as int] is Sum {
                product_simplifiable(ts, from + 2)
            } else {
                simplifiable(ts[from as int]) && product_simplifiable(ts, from + 1)
            },
            other => simplifiable(other) && product_simplifiable(ts, from + 1),
        }
    }
}

/// The list in the opposite order.
fn reversed(list: Vec<Expression>) -> (turned: Vec<Expression>)
    ensures
        turned@ == list@.reverse(),
{
    let mut list = list;
    let ghost all = list@;
    let mut turned: Vec<Expression> = Vec::new();
    while list.len() > 0
        invariant
            list.len() + turned.len() == all.len(),
            list@ == all.take(list.len() as int),
            forall|k: int|
                0 <= k < turned.len() ==> (#[trigger] turned@[k]) == all[all.len() - 1 - k],
        decreases list.len(),
    {
        let ghost before = list@;
        match list.pop() {
            Some(e) => {
                turned.push(e);
            },
            None => {},
        }
        assert(list@ =~= all.take(list.len() as int));
    }
    assert(turned@ =~= all.reverse());
    turned
}

/// The products of each term of `left` with each term of `right`.
fn multiply_out(left: &Vec<Expression>, right: &Vec<Expression>) -> (products: Vec<Expression>)
    ensures
        terms(products@) == multiplied_out(terms(left@), terms(right@), left@.len()),
{
    let ghost a = terms(left@);
    let ghost b = terms(right@);
    proof {
        lemma_terms_of(left@, left@.len());
        lemma_terms_of(right@, right@.len());
    }
    let mut products: Vec<Expression> = Vec::new();
    let mut i: usize = 0;
    assert(terms(products@) =~= multiplied_out(a, b, 0));
    while i < left.len()
        invariant
            i <= left.len(),
            a == terms(left@),
            b == terms(right@),
            a.len() == left.len(),
            b.len() == right.len(),
            forall|k: int| 0 <= k < left.len() ==> (#[trigger] a[k]) == term_of(left@[k]),
            forall|k: int| 0 <= k < right.len() ==> (#[trigger] b[k]) == term_of(right@[k]),
            terms(products@) == multiplied_out(a, b, i as nat),
        decreases left.len() - i,
    {
        let ghost row = Seq::new(b.len(), |j: int| Term::Product(seq![a[i as int], b[j]]));
        let ghost done = terms(products@);
        let mut j: usize = 0;
        while j < right.len()
            invariant
                i < left.len(),
                j <= right.len(),
                a.len() == left.len(),
                b.len() == right.len(),
                forall|k: int| 0 <= k < left.len() ==> (#[trigger] a[k]) == term_of(left@[k]),
                forall|k: int| 0 <= k < right.len() ==> (#[trigger] b[k]) == term_of(right@[k]),
                row == Seq::new(b.len(), |j: int| Term::Product(seq![a[i as int], b[j]])),
                terms(products@) == done + row.take(j as int),
            decreases right.len() - j,
        {
            let mut pair: Vec<Expression> = Vec::new();
            pair.push(left[i].clone());
            pair.push(right[j].clone());
            let product = Expression::Product(pair);
            proof {
                lemma_terms_of(pair@, 2);
                assert(terms(pair@) =~= seq![a[i as int], b[j as int]]);
                assert(term_of(product) == row[j as int]);
                lemma_terms_push(products@, product);
                assert(done + row.take(j + 1) =~= (done + row.take(j as int)).push(row[j as int]));
            }
            products.push(product);
            j += 1;
        }
        assert(row.take(j as int) =~= row);
        i += 1;
    }
    products
}

/// The terms that the terms of a sum give when it is simplified.
fn simplify_sum(sum: Vec<Expression>) -> (merged: Vec<Expression>)
    requires
        sum_simplifiable(terms(sum@), sum@.len()),
    ensures
        terms(merged@) == merged_sum(terms(sum@), sum@.len()),
    decreases sum, 1nat,
{
    broadcast use vstd::std_specs::vec::axiom_vec_index_decreases;

    let ghost ts = terms(sum@);
    let ghost all = sum@;
    proof {
        lemma_terms_of(sum@, sum@.len());
    }
    let mut new_sum: Vec<Expression> = Vec::new();
    assert(terms(new_sum@) =~= merged_sum(ts, 0));
    for expr in iter: sum
        invariant
            iter.seq() == all,
            all == sum@,
            ts == terms(all),
            ts.len() == all.len(),
            forall|k: int| 0 <= k < all.len() ==> (#[trigger] ts[k]) == term_of(all[k]),
            sum_simplifiable(ts, all.len()),
            terms(new_sum@) == merged_sum(ts, iter.index() as nat),
    {
        let ghost i = iter.index();
        let ghost before = new_sum@;
        proof {
            lemma_sum_simplifiable(ts, all.len(), i);
            assert(expr == sum@[i]);
        }
        match expr {
            // Adjacent sums can be merged
            Expression::Sum(mut s) => {
                let ghost inner = s@;
                new_sum.append(&mut s);
                proof {
                    lemma_terms_add(before, inner);
                }
            },
            other => {
                let simple = other.simplify();
                proof {
                    lemma_terms_push(before, simple);
                }
                new_sum.push(simple);
            },
        }
    }
    new_sum
}

/// Every term of a sum that can be simplified is a sum or can be simplified.
pub proof fn lemma_sum_simplifiable(ts: Seq<Term>, n: nat, k: int)
    requires
        0 <= k < n <= ts.len(),
        sum_simplifiable(ts, n),
    ensures
        sum_simplifiable(ts, (k + 1) as nat),
        ts[k] is Sum || simplifiable(ts[k]),
    decreases n,
{
    if k < n - 1 {
        lemma_sum_simplifiable(ts, (n - 1) as nat, k);
    }
}

/// The terms that the terms of a product give when it is simplified.
fn simplify_product(product: Vec<Expression>) -> (merged: Vec<Expression>)
    requires
        product_simplifiable(terms(product@), 0),
    ensures
        terms(merged@) == merged_product(terms(product@), 0),
    decreases product, 1nat,
{
    broadcast use vstd::std_specs::vec::axiom_vec_index_decreases;

    let ghost ts = terms(product@);
    let ghost all = product@;
    proof {
        lemma_terms_of(product@, product@.len());
    }
    let total = product.len();
    let mut rest = reversed(product);
    let mut new_product: Vec<Expression> = Vec::new();
    let ghost mut from: nat = 0;
    assert(terms(new_product@) + merged_product(ts, 0) =~= merged_product(ts, 0));
    while rest.len() > 0
        invariant
            all == product@,
            total == all.len(),
            ts == terms(all),
            ts.len() == all.len(),
            forall|k: int| 0 <= k < all.len() ==> (#[trigger] ts[k]) == term_of(all[k]),
            from + rest.len() == total,
            forall|k: int| 0 <= k < rest.len() ==> (#[trigger] rest@[k]) == all[total - 1 - k],
            product_simplifiable(ts, from),
            terms(new_product@) + merged_product(ts, from) == merged_product(ts, 0),
        decreases rest.len(),
    {
        let ghost before = new_product@;
        let ghost tail = merged_product(ts, from);
        let expr = match rest.pop() {
            Some(e) => e,
            None => Expression::Integer(0),
        };
        assert(expr == all[from as int]);
        assert(term_of(expr) == ts[from as int]);
        match expr {
            // Adjacent products can be merged
            Expression::Product(mut p) => {
                let ghost inner = p@;
                new_product.append(&mut p);
                proof {
                    lemma_terms_add(before, inner);
                    assert(terms(new_product@) + merged_product(ts, from + 1) =~= terms(before)
                        + tail);
                    from = from + 1;
                }
            },
            Expression::Sum(s) => {
                // If the next expression is also a sum, they can be merged
                // via the distributive property
                // (a + b) * (c + d) == ac + ad + bc + bd
                let followed = rest.len() > 0 && rest[rest.len() - 1].is_sum();
                if followed {
                    let next = match rest.pop() {
                        Some(e) => e,
                        None => Expression::Integer(0),
                    };
                    assert(next == all[(from + 1) as int]);
                    assert(term_of(next) == ts[(from + 1) as int]);
                    let inner = match next {
                        Expression::Sum(inner) => inner,
                        _ => Vec::new(),
                    };
                    let products = Expression::Sum(multiply_out(&s, &inner));
                    proof {
                        lemma_terms_of(s@, s@.len());
                        lemma_terms_of(inner@, inner@.len());
                        assert(ts[from as int] == Term::Sum(terms(s@)));
                        assert(ts[(from + 1) as int] == Term::Sum(terms(inner@)));
                        assert(term_of(products) == Term::Sum(
                            multiplied_out(terms(s@), terms(inner@), terms(s@).len()),
                        ));
                        lemma_terms_push(before, products);
                        assert(terms(before.push(products)) + merged_product(ts, from + 2)
                            =~= terms(before) + tail);
                        from = from + 2;
                    }
                    new_product.push(products);
                } else {
                    proof {
                        if rest.len() > 0 {
                            assert(rest@[rest.len() - 1] == all[(from + 1) as int]);
                            assert(term_of(all[(from + 1) as int]) == ts[(from + 1) as int]);
                        }
                    }
                    let simple = Expression::Sum(s).simplify();
                    proof {
                        lemma_terms_push(before, simple);
                        assert(terms(before.push(simple)) + merged_product(ts, from + 1)
                            =~= terms(before) + tail);
                        from = from + 1;
                    }
                    new_product.push(simple);
                }
            },
            other => {
                let simple = other.simplify();
                proof {
                    lemma_terms_push(before, simple);
                    assert(terms(before.push(simple)) + merged_product(ts, from + 1) =~= terms(
                        before,
                    ) + tail);
                    from = from + 1;
                }
                new_product.push(simple);
            },
        }
    }
    proof {
        assert(terms(new_product@) + merged_product(ts, from) =~= terms(new_product@));
    }
    new_product
}

impl Expression {
    /// Whether the expression is a sum.
    pub fn is_sum(&self) -> (sum: bool)
        ensures
            sum == (self@ is Sum),
    {
        match self {
            Expression::Sum(_) => true,
            _ => false,
        }
    }

    /// Simplifies the expression: nested sums and products are merged into
    /// the sum or product around them, and two sums that stand side by side
    /// in a product are multiplied out.
    pub fn simplify(self) -> (simple: Self)
        requires
            simplifiable(self@),
        ensures
            simple@ == simplified(self@),
        decreases self, 0nat,
    {
        match self {
            Expression::Sum(sum) => {
                proof {
                    lemma_terms_of(sum@, sum@.len());
                }
                Expression::Sum(simplify_sum(sum))
            },
            Expression::Product(product) => {
                proof {
                    lemma_terms_of(product@, product@.len());
                }
                let mut new_product = simplify_product(product);
                proof {
                    lemma_terms_of(new_product@, new_product@.len());
                }
                // If there is only one term, just return the term
                if new_product.len() > 1 {
                    Expression::Product(new_product)
                } else {
                    match new_product.pop() {
                        Some(only) => only,
                        None => Expression::Integer(0),
                    }
                }
            },
            other => other,
        }
    }
}

} // verus!
