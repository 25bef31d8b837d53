use vstd::prelude::*;
use vstd::hash_set::StringHashSet;

verus! {

/// Mathematical model of an expression: names are character sequences.
pub enum Term {
    Var(Seq<char>),
    Abs(Seq<char>, Box<Term>),
    App(Box<Term>, Box<Term>),
}

/// The core lambda calculus expression AST.
#[derive(Debug, PartialEq, Eq)]
pub enum Expr {
    Var(String),
    Abs(String, Box<Expr>),
    App(Box<Expr>, Box<Expr>),
}

impl View for Expr {
    type V = Term;

    open spec fn view(&self) -> Term
        decreases self,
    {
        match self {
            Expr::Var(n) => Term::Var(n@),
            Expr::Abs(p, b) => Term::Abs(p@, Box::new((**b)@)),
            Expr::App(f, a) => Term::App(Box::new((**f)@), Box::new((**a)@)),
        }
    }
}

impl Clone for Expr {
    fn clone(&self) -> (r: Expr)
        ensures
            r == *self,
        decreases self,
    {
        match self {
            Expr::Var(n) => Expr::Var(n.clone()),
            Expr::Abs(p, b) => Expr::Abs(p.clone(), Box::new((**b).clone())),
            Expr::App(f, a) => Expr::App(Box::new((**f).clone()), Box::new((**a).clone())),
        }
    }
}

/// The free-variable set of a term.
pub open spec fn free_vars(t: Term) -> Set<Seq<char>>
    decreases t,
{
    match t {
        Term::Var(n) => set![n],
        Term::Abs(p, b) => free_vars(*b).remove(p),
        Term::App(f, a) => free_vars(*f).union(free_vars(*a)),
    }
}

/// Whether a name occurs anywhere in a term, as a variable or as a binder.
pub open spec fn occurs(t: Term, n: Seq<char>) -> bool
    decreases t,
{
    match t {
        Term::Var(m) => m == n,
        Term::Abs(p, b) => p == n || occurs(*b, n),
        Term::App(f, a) => occurs(*f, n) || occurs(*a, n),
    }
}

pub open spec fn max_nat(a: nat, b: nat) -> nat {
    if a >= b {
        a
    } else {
        b
    }
}

/// The length of the longest name in a term.
pub open spec fn longest_name(t: Term) -> nat
    decreases t,
{
    match t {
        Term::Var(n) => n.len(),
        Term::Abs(p, b) => max_nat(p.len(), longest_name(*b)),
        Term::App(f, a) => max_nat(longest_name(*f), longest_name(*a)),
    }
}

/// The number of nodes of a term.
pub open spec fn size(t: Term) -> nat
    decreases t,
{
    match t {
        Term::Var(_) => 1,
        Term::Abs(_, b) => 1 + size(*b),
        Term::App(f, a) => 1 + size(*f) + size(*a),
    }
}

/// Canonical, fully parenthesized notation.
pub open spec fn render_term(t: Term) -> Seq<char>
    decreases t,
{
    match t {
        Term::Var(n) => n,
        Term::Abs(p, b) => seq!['(', 'λ'] + p + seq!['.'] + render_term(*b) + seq![')'],
        Term::App(f, a) => seq!['('] + render_term(*f) + seq![' '] + render_term(*a) + seq![')'],
    }
}

pub proof fn lemma_free_vars_occur(t: Term, n: Seq<char>)
    ensures
        free_vars(t).contains(n) ==> occurs(t, n),
    decreases t,
{
    match t {
        Term::Var(_) => {},
        Term::Abs(_, b) => lemma_free_vars_occur(*b, n),
        Term::App(f, a) => {
            lemma_free_vars_occur(*f, n);
            lemma_free_vars_occur(*a, n);
        },
    }
}

pub proof fn lemma_occurs_not_longer(t: Term, n: Seq<char>)
    ensures
        occurs(t, n) ==> n.len() <= longest_name(t),
    decreases t,
{
    match t {
        Term::Var(_) => {},
        Term::Abs(_, b) => lemma_occurs_not_longer(*b, n),
        Term::App(f, a) => {
            lemma_occurs_not_longer(*f, n);
            lemma_occurs_not_longer(*a, n);
        },
    }
}

impl Expr {
    /// Compute the set of free variables in the expression.
    pub fn free_vars(&self) -> (r: StringHashSet)
        ensures
            r@ == free_vars(self@),
    {
        let mut acc = StringHashSet::new();
        let mut bound = StringHashSet::new();
        self.collect_free_vars(&mut bound, &mut acc);
        assert(acc@ =~= free_vars(self@));
        acc
    }

    /// Adds to `acc` the free variables that are not in `bound`.
    fn collect_free_vars(&self, bound: &mut StringHashSet, acc: &mut StringHashSet)
        ensures
            final(bound)@ == old(bound)@,
            final(acc)@ == old(acc)@.union(free_vars(self@).difference(old(bound)@)),
        decreases self,
    {
        match self {
            Expr::Var(n) => {
                if !bound.contains(n.as_str()) {
                    acc.insert(n.clone());
                }
                assert(final(acc)@ =~= old(acc)@.union(free_vars(self@).difference(old(bound)@)));
            },
            Expr::Abs(p, b) => {
                let fresh = bound.insert(p.clone());
                b.collect_free_vars(bound, acc);
                if fresh {
                    bound.remove(p.as_str());
                }
                assert(bound@ =~= old(bound)@);
                assert(acc@ =~= old(acc)@.union(free_vars(self@).difference(old(bound)@)));
            },
            Expr::App(f, a) => {
                f.collect_free_vars(bound, acc);
                a.collect_free_vars(bound, acc);
                assert(acc@ =~= old(acc)@.union(free_vars(self@).difference(old(bound)@)));
            },
        }
    }

    /// Canonical printer: variables as their name, abstractions as `(λp.body)`,
    /// applications as `(f a)`.
    pub fn render(&self) -> (r: String)
        ensures
            r@ == render_term(self@),
        decreases self,
    {
        match self {
            Expr::Var(n) => n.clone(),
            Expr::Abs(p, b) => {
                let body = b.render();
                let mut s = String::from_str("(λ");
                s.append(p.as_str());
                s.append(".");
                s.append(body.as_str());
                s.append(")");
                proof {
                    reveal_strlit("(λ");
                    reveal_strlit(".");
                    reveal_strlit(")");
                }
                assert(s@ =~= render_term(self@));
                s
            },
            Expr::App(f, a) => {
                let fs = f.render();
                let as_ = a.render();
                let mut s = String::from_str("(");
                s.append(fs.as_str());
                s.append(" ");
                s.append(as_.as_str());
                s.append(")");
                proof {
                    reveal_strlit("(");
                    reveal_strlit(" ");
                    reveal_strlit(")");
                }
                assert(s@ =~= render_term(self@));
                s
            },
        }
    }

    /// The length of the longest name in the expression.
    pub fn longest_name(&self) -> (r: usize)
        ensures
            r == longest_name(self@),
        decreases self,
    {
        match self {
            Expr::Var(n) => n.as_str().unicode_len(),
            Expr::Abs(p, b) => {
                let lp = p.as_str().unicode_len();
                let lb = b.longest_name();
                if lp >= lb {
                    lp
                } else {
                    lb
                }
            },
            Expr::App(f, a) => {
                let lf = f.longest_name();
                let la = a.longest_name();
                if lf >= la {
                    lf
                } else {
                    la
                }
            },
        }
    }
}

} // verus!
