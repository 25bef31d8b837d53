use vstd::prelude::*;
use vstd::hash_map::StringHashMap;
use vstd::hash_set::StringHashSet;
use crate::ast::{Expr, Term, free_vars, occurs, longest_name, size, max_nat, lemma_free_vars_occur, lemma_occurs_not_longer};

verus! {

/// The most reduction steps that `evaluate` takes before it gives up.
pub const MAX_STEPS: usize = 100000000;

/// A binder name built from `base` that is longer than `limit`: `base` followed by
/// one or more underscores.
pub open spec fn fresh_name(base: Seq<char>, limit: nat) -> Seq<char> {
    let pad: nat = if limit >= base.len() { (limit + 1 - base.len()) as nat } else { 1 };
    base + Seq::new(pad, |i: int| '_')
}

/// The length that a fresh binder must exceed when `value` is substituted for `var`
/// under a binder whose body is `body`.
pub open spec fn name_limit(body: Term, var: Seq<char>, value: Term) -> nat {
    max_nat(max_nat(longest_name(body), var.len()), longest_name(value))
}

/// Replaces the free occurrences of `old` in `t` by `new`; a binder of `old`
/// shadows it and stops the replacement.
pub open spec fn rename_term(t: Term, old: Seq<char>, new: Seq<char>) -> Term
    decreases t,
{
    match t {
        Term::Var(n) => if n == old { Term::Var(new) } else { t },
        Term::Abs(p, b) => if p == old {
            t
        } else {
            Term::Abs(p, Box::new(rename_term(*b, old, new)))
        },
        Term::App(f, a) => Term::App(
            Box::new(rename_term(*f, old, new)),
            Box::new(rename_term(*a, old, new)),
        ),
    }
}

pub proof fn lemma_rename_size(t: Term, old: Seq<char>, new: Seq<char>)
    ensures
        size(rename_term(t, old, new)) == size(t),
    decreases t,
{
    match t {
        Term::Var(_) => {},
        Term::Abs(_, b) => lemma_rename_size(*b, old, new),
        Term::App(f, a) => {
            lemma_rename_size(*f, old, new);
            lemma_rename_size(*a, old, new);
        },
    }
}

/// Capture-avoiding substitution of `value` for the free occurrences of `var` in `t`.
pub open spec fn subst(t: Term, var: Seq<char>, value: Term) -> Term
    decreases size(t),
{
    match t {
        Term::Var(n) => if n == var { value } else { t },
        Term::Abs(p, b) => {
            if p == var {
                t
            } else if free_vars(value).contains(p) {
                let f = fresh_name(p, name_limit(*b, var, value));
                proof {
                    lemma_rename_size(*b, p, f);
                }
                Term::Abs(f, Box::new(subst(rename_term(*b, p, f), var, value)))
            } else {
                Term::Abs(p, Box::new(subst(*b, var, value)))
            }
        },
        Term::App(f, a) => Term::App(Box::new(subst(*f, var, value)), Box::new(subst(*a, var, value))),
    }
}

/// One normal-order reduction step, or `None` on a term in normal form.
pub open spec fn step(t: Term) -> Option<Term>
    decreases t,
{
    match t {
        Term::App(f, a) => match *f {
            Term::Abs(p, b) => Some(subst(*b, p, *a)),
            _ => match step(*f) {
                Some(f2) => Some(Term::App(Box::new(f2), a)),
                None => match step(*a) {
                    Some(a2) => Some(Term::App(f, Box::new(a2))),
                    None => None,
                },
            },
        },
        Term::Abs(p, b) => match step(*b) {
            Some(b2) => Some(Term::Abs(p, Box::new(b2))),
            None => None,
        },
        Term::Var(_) => None,
    }
}

/// The normal form reached within `fuel` steps, or `None` when `fuel` steps all
/// found a redex.
pub open spec fn normalize(t: Term, fuel: nat) -> Option<Term>
    decreases fuel,
{
    if fuel == 0 {
        None
    } else {
        match step(t) {
            None => Some(t),
            Some(t2) => normalize(t2, (fuel - 1) as nat),
        }
    }
}

pub open spec fn opt_view(r: Option<Expr>) -> Option<Term> {
    match r {
        Some(e) => Some(e@),
        None => None,
    }
}

/// Generate a fresh variable name based on the given base, longer than `limit`.
fn fresh_var(base: &str, limit: usize) -> (r: String)
    ensures
        r@ == fresh_name(base@, limit as nat),
{
    let mut s = String::from_str(base);
    s.append("_");
    proof {
        reveal_strlit("_");
    }
    let ghost mut k: nat = 1;
    assert(s@ =~= base@ + Seq::new(k, |i: int| '_'));
    while s.as_str().unicode_len() <= limit
        invariant
            k >= 1,
            s@ == base@ + Seq::new(k, |i: int| '_'),
            k == 1 || base@.len() + k - 1 <= limit,
        decreases limit + 1 - s@.len(),
    {
        s.append("_");
        proof {
            reveal_strlit("_");
            k = k + 1;
        }
        assert(s@ =~= base@ + Seq::new(k, |i: int| '_'));
    }
    assert(s@ =~= fresh_name(base@, limit as nat));
    s
}

/// Rename free occurrences of `old` to `new` in the expression.
fn rename(expr: &Expr, old: &String, new: &String) -> (r: Expr)
    ensures
        r@ == rename_term(expr@, old@, new@),
    decreases expr,
{
    match expr {
        Expr::Var(n) => {
            if *n == *old {
                Expr::Var(new.clone())
            } else {
                Expr::Var(n.clone())
            }
        },
        Expr::Abs(param, body) => {
            if *param == *old {
                expr.clone()
            } else {
                Expr::Abs(param.clone(), Box::new(rename(body, old, new)))
            }
        },
        Expr::App(f, a) => Expr::App(Box::new(rename(f, old, new)), Box::new(rename(a, old, new))),
    }
}

/// Substitute `val` for variable `var` in `expr`, avoiding capture.
pub fn substitute(expr: &Expr, var: &String, val: &Expr) -> (r: Expr)
    ensures
        r@ == subst(expr@, var@, val@),
    decreases size(expr@),
{
    match expr {
        Expr::Var(n) => {
            if *n == *var {
                val.clone()
            } else {
                Expr::Var(n.clone())
            }
        },
        Expr::Abs(param, body) => {
            if *param == *var {
                expr.clone()
            } else if val.free_vars().contains(param.as_str()) {
                let lb = body.longest_name();
                let lv = val.longest_name();
                let lx = var.as_str().unicode_len();
                let limit = if lb >= lx { lb } else { lx };
                let limit = if limit >= lv { limit } else { lv };
                let new_param = fresh_var(param.as_str(), limit);
                let renamed = rename(body, param, &new_param);
                proof {
                    lemma_rename_size((**body)@, param@, new_param@);
                }
                Expr::Abs(new_param, Box::new(substitute(&renamed, var, val)))
            } else {
                Expr::Abs(param.clone(), Box::new(substitute(body, var, val)))
            }
        },
        Expr::App(f, a) => Expr::App(Box::new(substitute(f, var, val)), Box::new(substitute(a, var, val))),
    }
}

/// Perform one beta-reduction step, if possible.
pub fn reduce_once(expr: &Expr) -> (r: Option<Expr>)
    ensures
        opt_view(r) == step(expr@),
    decreases expr,
{
    match expr {
        Expr::App(f, a) => match &**f {
            Expr::Abs(param, body) => Some(substitute(body, param, a)),
            _ => {
                assert(!((**f)@ is Abs));
                match reduce_once(f) {
                    Some(new_f) => Some(Expr::App(Box::new(new_f), a.clone())),
                    None => match reduce_once(a) {
                        Some(new_a) => Some(Expr::App(f.clone(), Box::new(new_a))),
                        None => None,
                    },
                }
            },
        },
        Expr::Abs(param, body) => match reduce_once(body) {
            Some(new_body) => Some(Expr::Abs(param.clone(), Box::new(new_body))),
            None => None,
        },
        Expr::Var(_) => None,
    }
}

/// Reduce to normal form, taking at most `max_steps` reduction steps.
pub fn evaluate_with_limit(expr: &Expr, max_steps: usize) -> (r: Result<Expr, String>)
    ensures
        match r {
            Ok(n) => normalize(expr@, max_steps as nat) == Some(n@),
            Err(m) => normalize(expr@, max_steps as nat) is None
                && m@ == "Maximum reduction steps exceeded"@,
        },
{
    let mut current = expr.clone();
    let mut i: usize = 0;
    while i < max_steps
        invariant
            i <= max_steps,
            normalize(expr@, max_steps as nat) == normalize(current@, (max_steps - i) as nat),
        decreases max_steps - i,
    {
        match reduce_once(&current) {
            Some(next) => {
                current = next;
            },
            None => {
                return Ok(current);
            },
        }
        i = i + 1;
    }
    Err(String::from_str("Maximum reduction steps exceeded"))
}

/// Evaluate an expression to normal form by repeated reduction.
pub fn evaluate(expr: &Expr) -> (r: Result<Expr, String>)
    ensures
        match r {
            Ok(n) => normalize(expr@, MAX_STEPS as nat) == Some(n@) && step(n@) is None,
            Err(m) => normalize(expr@, MAX_STEPS as nat) is None
                && m@ == "Maximum reduction steps exceeded"@,
        },
{
    proof {
        lemma_normal_form_is_irreducible(expr@, MAX_STEPS as nat);
    }
    evaluate_with_limit(expr, MAX_STEPS)
}

/// Renaming `old` to a name that occurs nowhere in `t` moves the free `old` to `new`
/// and leaves the other free variables as they are.
pub proof fn lemma_rename_free_vars(t: Term, old: Seq<char>, new: Seq<char>)
    requires
        !occurs(t, new),
    ensures
        free_vars(rename_term(t, old, new)) == free_vars(t).remove(old).union(
            if free_vars(t).contains(old) { set![new] } else { Set::empty() },
        ),
    decreases t,
{
    match t {
        Term::Var(_) => {
            assert(free_vars(rename_term(t, old, new)) =~= free_vars(t).remove(old).union(
                if free_vars(t).contains(old) { set![new] } else { Set::empty() },
            ));
        },
        Term::Abs(p, b) => {
            lemma_rename_free_vars(*b, old, new);
            assert(free_vars(rename_term(t, old, new)) =~= free_vars(t).remove(old).union(
                if free_vars(t).contains(old) { set![new] } else { Set::empty() },
            ));
        },
        Term::App(f, a) => {
            lemma_rename_free_vars(*f, old, new);
            lemma_rename_free_vars(*a, old, new);
            assert(free_vars(rename_term(t, old, new)) =~= free_vars(t).remove(old).union(
                if free_vars(t).contains(old) { set![new] } else { Set::empty() },
            ));
        },
    }
}

/// A fresh binder is longer than every name that it must avoid.
pub proof fn lemma_fresh_name_avoids(body: Term, var: Seq<char>, value: Term, base: Seq<char>)
    ensures
        !occurs(body, fresh_name(base, name_limit(body, var, value))),
        fresh_name(base, name_limit(body, var, value)) != var,
        !free_vars(value).contains(fresh_name(base, name_limit(body, var, value))),
{
    let f = fresh_name(base, name_limit(body, var, value));
    assert(f.len() > name_limit(body, var, value));
    lemma_occurs_not_longer(body, f);
    lemma_occurs_not_longer(value, f);
    lemma_free_vars_occur(value, f);
}

/// Substitution is capture-free: the free variables of `subst(t, var, value)` are
/// those of `t` without `var`, together with those of `value` when `var` was free
/// in `t`.
pub proof fn lemma_subst_free_vars(t: Term, var: Seq<char>, value: Term)
    ensures
        free_vars(subst(t, var, value)) == free_vars(t).remove(var).union(
            if free_vars(t).contains(var) { free_vars(value) } else { Set::empty() },
        ),
    decreases size(t),
{
    match t {
        Term::Var(n) => {
            assert(free_vars(subst(t, var, value)) =~= free_vars(t).remove(var).union(
                if free_vars(t).contains(var) { free_vars(value) } else { Set::empty() },
            ));
        },
        Term::Abs(p, b) => {
            if p == var {
                assert(free_vars(subst(t, var, value)) =~= free_vars(t).remove(var).union(
                    if free_vars(t).contains(var) { free_vars(value) } else { Set::empty() },
                ));
            } else if free_vars(value).contains(p) {
                let f = fresh_name(p, name_limit(*b, var, value));
                lemma_fresh_name_avoids(*b, var, value, p);
                lemma_rename_size(*b, p, f);
                lemma_rename_free_vars(*b, p, f);
                let rb = rename_term(*b, p, f);
                lemma_subst_free_vars(rb, var, value);
                assert(subst(t, var, value) == Term::Abs(f, Box::new(subst(rb, var, value))));
                assert(free_vars(rb).contains(var) == free_vars(*b).contains(var));
                assert(free_vars(t).contains(var) == free_vars(*b).contains(var));
                let lhs = free_vars(subst(t, var, value));
                let rhs = free_vars(t).remove(var).union(
                    if free_vars(t).contains(var) { free_vars(value) } else { Set::empty() },
                );
                assert(lhs == free_vars(subst(rb, var, value)).remove(f));
                assert forall|n: Seq<char>| lhs.contains(n) == rhs.contains(n) by {
                    if n == f {
                        assert(!free_vars(*b).contains(f)) by {
                            lemma_free_vars_occur(*b, f);
                        }
                    }
                }
                assert(free_vars(subst(t, var, value)) =~= free_vars(t).remove(var).union(
                    if free_vars(t).contains(var) { free_vars(value) } else { Set::empty() },
                ));
            } else {
                lemma_subst_free_vars(*b, var, value);
                assert(free_vars(subst(t, var, value)) =~= free_vars(t).remove(var).union(
                    if free_vars(t).contains(var) { free_vars(value) } else { Set::empty() },
                ));
            }
        },
        Term::App(f, a) => {
            lemma_subst_free_vars(*f, var, value);
            lemma_subst_free_vars(*a, var, value);
            assert(free_vars(subst(t, var, value)) =~= free_vars(t).remove(var).union(
                if free_vars(t).contains(var) { free_vars(value) } else { Set::empty() },
            ));
        },
    }
}

/// A normal form that evaluation returns has no redex left.
pub proof fn lemma_normal_form_is_irreducible(t: Term, fuel: nat)
    ensures
        normalize(t, fuel) matches Some(n) ==> step(n) is None,
    decreases fuel,
{
    if fuel > 0 {
        if let Some(t2) = step(t) {
            lemma_normal_form_is_irreducible(t2, (fuel - 1) as nat);
        }
    }
}

/// Evaluation is a function of the structure of its input: equal inputs give equal
/// outcomes.
pub proof fn lemma_evaluation_deterministic(a: Expr, b: Expr, fuel: nat)
    requires
        a@ == b@,
    ensures
        normalize(a@, fuel) == normalize(b@, fuel),
{
}

/// The self-application of `\x.(x x)`.
pub open spec fn omega() -> Term {
    let d = Term::Abs(seq!['x'], Box::new(Term::App(Box::new(Term::Var(seq!['x'])), Box::new(Term::Var(seq!['x'])))));
    Term::App(Box::new(d), Box::new(d))
}

/// The self-application of `\x.(x x)` reduces to itself, so no amount of fuel
/// reaches a normal form.
pub proof fn lemma_omega_diverges(fuel: nat)
    ensures
        normalize(omega(), fuel) is None,
    decreases fuel,
{
    let d = Term::Abs(seq!['x'], Box::new(Term::App(Box::new(Term::Var(seq!['x'])), Box::new(Term::Var(seq!['x'])))));
    let xx = Term::App(Box::new(Term::Var(seq!['x'])), Box::new(Term::Var(seq!['x'])));
    assert(subst(Term::Var(seq!['x']), seq!['x'], d) == d);
    assert(subst(xx, seq!['x'], d) == omega());
    assert(step(omega()) == Some(omega()));
    if fuel > 0 {
        lemma_omega_diverges((fuel - 1) as nat);
    }
}

/// Named definitions that `expand` substitutes for free variables.
pub struct Environment {
    defs: StringHashMap<Expr>,
}

impl View for Environment {
    type V = Map<Seq<char>, Term>;

    closed spec fn view(&self) -> Map<Seq<char>, Term> {
        self.defs@.map_values(|e: Expr| e@)
    }
}

impl Environment {
    /// Well-formedness: finitely many names are bound.
    pub closed spec fn wf(&self) -> bool {
        self.defs@.dom().finite()
    }

    pub proof fn lemma_wf_finite(&self)
        requires
            self.wf(),
        ensures
            self@.dom().finite(),
    {
        assert(self@.dom() =~= self.defs@.dom());
    }

    /// An environment without definitions.
    pub fn new() -> (r: Self)
        ensures
            r@ == Map::<Seq<char>, Term>::empty(),
            r.wf(),
    {
        let r = Environment { defs: StringHashMap::new() };
        assert(r@ =~= Map::<Seq<char>, Term>::empty());
        r
    }

    /// Binds `name` to `def`, replacing an earlier binding of the same name.
    pub fn insert(&mut self, name: String, def: Expr)
        requires
            old(self).wf(),
        ensures
            final(self).wf(),
            final(self)@ == old(self)@.insert(name@, def@),
    {
        self.defs.insert(name, def);
        assert(self@ =~= old(self)@.insert(name@, def@));
    }

    /// The definition bound to `name`, if any.
    pub fn get(&self, name: &str) -> (r: Option<&Expr>)
        ensures
            match r {
                Some(e) => self@.contains_key(name@) && e@ == self@[name@],
                None => !self@.contains_key(name@),
            },
    {
        self.defs.get(name)
    }
}

/// Expansion of the definitions of `env` in `t`: a free variable whose name is bound
/// in `env` gives way to its definition, itself expanded. `bound` holds the names
/// that binders of `t` shadow; `active` holds the definitions being expanded, which
/// are not expanded again within themselves.
pub open spec fn expand_term(
    t: Term,
    env: Map<Seq<char>, Term>,
    bound: Set<Seq<char>>,
    active: Set<Seq<char>>,
) -> Term
    decreases env.dom().difference(active).len(), t,
    when env.dom().finite()
{
    match t {
        Term::Var(n) => {
            if !bound.contains(n) && env.contains_key(n) && !active.contains(n) {
                proof {
                    assert(env.dom().difference(active.insert(n)) =~= env.dom().difference(
                        active,
                    ).remove(n));
                }
                expand_term(env[n], env, Set::empty(), active.insert(n))
            } else {
                t
            }
        },
        Term::Abs(p, b) => Term::Abs(p, Box::new(expand_term(*b, env, bound.insert(p), active))),
        Term::App(f, a) => Term::App(
            Box::new(expand_term(*f, env, bound, active)),
            Box::new(expand_term(*a, env, bound, active)),
        ),
    }
}

/// Expansion of a whole expression.
pub open spec fn expansion(t: Term, env: Map<Seq<char>, Term>) -> Term {
    expand_term(t, env, Set::empty(), Set::empty())
}

fn expand_in(
    expr: &Expr,
    env: &Environment,
    bound: &mut StringHashSet,
    active: &mut StringHashSet,
) -> (r: Expr)
    requires
        env@.dom().finite(),
    ensures
        r@ == expand_term(expr@, env@, old(bound)@, old(active)@),
        final(bound)@ == old(bound)@,
        final(active)@ == old(active)@,
    decreases env@.dom().difference(old(active)@).len(), expr,
{
    match expr {
        Expr::Var(name) => {
            if !bound.contains(name.as_str()) && !active.contains(name.as_str()) {
                match env.get(name.as_str()) {
                    Some(def) => {
                        proof {
                            assert(env@.dom().difference(old(active)@.insert(name@))
                                =~= env@.dom().difference(old(active)@).remove(name@));
                        }
                        active.insert(name.clone());
                        let mut inner = StringHashSet::new();
                        let r = expand_in(def, env, &mut inner, active);
                        active.remove(name.as_str());
                        assert(active@ =~= old(active)@);
                        r
                    },
                    None => Expr::Var(name.clone()),
                }
            } else {
                Expr::Var(name.clone())
            }
        },
        Expr::Abs(param, body) => {
            let fresh = bound.insert(param.clone());
            let r = expand_in(body, env, bound, active);
            if fresh {
                bound.remove(param.as_str());
            }
            assert(bound@ =~= old(bound)@);
            Expr::Abs(param.clone(), Box::new(r))
        },
        Expr::App(f, a) => {
            let rf = expand_in(f, env, bound, active);
            let ra = expand_in(a, env, bound, active);
            Expr::App(Box::new(rf), Box::new(ra))
        },
    }
}

/// Expand defined variables from the environment.
pub fn expand(expr: &Expr, env: &Environment) -> (r: Expr)
    requires
        env.wf(),
    ensures
        r@ == expansion(expr@, env@),
{
    proof {
        env.lemma_wf_finite();
    }
    let mut bound = StringHashSet::new();
    let mut active = StringHashSet::new();
    expand_in(expr, env, &mut bound, &mut active)
}

} // verus!
