//! The symbol environment: variable names and the expression cache.
use crate::expr::{binop, num, share, unop, Bop, Expr, Uop, Var};
use std::rc::Rc;
use vstd::prelude::*;

verus! {

/// The variable that a name stands for: the last one that was given the
/// name, if any was.
pub open spec fn lookup(names: Seq<Seq<char>>, name: Seq<char>) -> Option<nat>
    decreases names.len(),
{
    if names.len() == 0 {
        None
    } else if names.last() == name {
        Some((names.len() - 1) as nat)
    } else {
        lookup(names.drop_last(), name)
    }
}

/// `lookup` finds the greatest position that holds the name.
pub proof fn lemma_lookup(names: Seq<Seq<char>>, name: Seq<char>)
    ensures
        match lookup(names, name) {
            Some(i) => i < names.len() && names[i as int] == name && forall|j: int|
                i < j < names.len() ==> names[j] != name,
            None => forall|j: int| 0 <= j < names.len() ==> names[j] != name,
        },
    decreases names.len(),
{
    if names.len() > 0 && names.last() != name {
        let shorter = names.drop_last();
        lemma_lookup(shorter, name);
        assert forall|j: int| 0 <= j < shorter.len() implies shorter[j] == names[j] by {}
    }
}

/// The names of the variables, in the order of their numbers, and a cache
/// that holds one shared instance of each expression put into it.
#[derive(Debug)]
pub struct Environment {
    vars: Vec<String>,
    exprs: Vec<Rc<Expr>>,
}

impl Environment {
    /// The name of each variable, at the position of its number.
    pub closed spec fn names(&self) -> Seq<Seq<char>> {
        Seq::new(self.vars@.len(), |i: int| self.vars@[i]@)
    }

    /// The expressions that the cache holds.
    pub closed spec fn cache(&self) -> Set<Expr> {
        Set::new(|x: Expr| exists|i: int| 0 <= i < self.exprs@.len() && *self.exprs@[i] == x)
    }

    /// An environment without variables and with an empty cache.
    pub fn new() -> (env: Environment)
        ensures
            env.names() == Seq::<Seq<char>>::empty(),
            env.cache() == Set::<Expr>::empty(),
    {
        let env = Environment { vars: Vec::new(), exprs: Vec::new() };
        assert(env.names() =~= Seq::<Seq<char>>::empty());
        assert(env.cache() =~= Set::<Expr>::empty());
        env
    }

    /// Gives the name a new variable, whether or not the name has one
    /// already: the caller looks it up first.
    pub fn extend_var(&mut self, var_str: String) -> (v: Var)
        ensures
            v@ == old(self).names().len(),
            final(self).names() == old(self).names().push(var_str@),
            final(self).cache() == old(self).cache(),
    {
        let v = Var::new(self.vars.len());
        self.vars.push(var_str);
        assert(self.names() =~= old(self).names().push(var_str@));
        assert(self.cache() =~= old(self).cache());
        v
    }

    /// The variable that the name stands for.
    pub fn search_var(&self, var_str: &String) -> (r: Option<Var>)
        ensures
            match r {
                Some(v) => lookup(self.names(), var_str@) == Some(v@),
                None => lookup(self.names(), var_str@) is None,
            },
    {
        let mut i = self.vars.len();
        assert(self.names().take(i as int) =~= self.names());
        while i > 0
            invariant
                i <= self.vars@.len(),
                lookup(self.names(), var_str@) == lookup(self.names().take(i as int), var_str@),
            decreases i,
        {
            let ghost prefix = self.names().take(i as int);
            assert(prefix.last() == self.vars@[i - 1]@);
            assert(prefix.drop_last() =~= self.names().take(i - 1));
            if self.vars[i - 1] == *var_str {
                return Some(Var::new(i - 1));
            }
            i = i - 1;
        }
        assert(self.names().take(0).len() == 0);
        None
    }

    /// The name of a variable.
    pub fn var_name(&self, v: Var) -> (s: &String)
        requires
            v@ < self.names().len(),
        ensures
            s@ == self.names()[v@ as int],
    {
        &self.vars[v.id()]
    }

    /// The number of variables.
    pub fn var_count(&self) -> (n: usize)
        ensures
            n == self.names().len(),
    {
        self.vars.len()
    }

    fn position(&self, e: &Expr) -> (r: Option<usize>)
        ensures
            match r {
                Some(i) => i < self.exprs@.len() && *self.exprs@[i as int] == *e,
                None => !self.cache().contains(*e),
            },
    {
        let mut i: usize = 0;
        while i < self.exprs.len()
            invariant
                i <= self.exprs@.len(),
                forall|j: int| 0 <= j < i ==> *self.exprs@[j] != *e,
            decreases self.exprs@.len() - i,
        {
            if self.exprs[i].same(e) {
                return Some(i);
            }
            i = i + 1;
        }
        None
    }

    /// The shared instance of the expression: the one in the cache if the
    /// cache holds an equal expression, else a new one, which from now on is
    /// in the cache.
    pub fn extend_expr(&mut self, e: Expr) -> (r: Rc<Expr>)
        ensures
            *r == e,
            final(self).cache() == old(self).cache().insert(e),
            final(self).names() == old(self).names(),
    {
        match self.position(&e) {
            Some(i) => {
                assert(self.cache() =~= old(self).cache().insert(e));
                share(&self.exprs[i])
            },
            None => {
                let ptr_e = Rc::new(e);
                let r = share(&ptr_e);
                self.exprs.push(ptr_e);
                assert(self.exprs@[old(self).exprs@.len() as int] == ptr_e);
                assert forall|x: Expr| self.cache().contains(x) == old(self).cache().insert(
                    e,
                ).contains(x) by {
                    if old(self).cache().insert(e).contains(x) {
                        if x == e {
                            assert(*self.exprs@[old(self).exprs@.len() as int] == x);
                        } else {
                            let i = choose|i: int|
                                0 <= i < old(self).exprs@.len() && *old(self).exprs@[i] == x;
                            assert(*self.exprs@[i] == x);
                        }
                    }
                }
                assert(self.cache() =~= old(self).cache().insert(e));
                assert(self.names() =~= old(self).names());
                r
            },
        }
    }

    /// The shared instance of the expression, if the cache holds one.
    pub fn search_expr(&self, e: &Expr) -> (r: Option<Rc<Expr>>)
        ensures
            match r {
                Some(p) => *p == *e && self.cache().contains(*e),
                None => !self.cache().contains(*e),
            },
    {
        match self.position(e) {
            Some(i) => Some(share(&self.exprs[i])),
            None => None,
        }
    }

    /// Takes the expression out of the cache, which must hold it.
    pub fn remove_expr(&mut self, e: &Expr)
        requires
            old(self).cache().contains(*e),
        ensures
            final(self).cache() == old(self).cache().remove(*e),
            final(self).names() == old(self).names(),
    {
        let mut kept: Vec<Rc<Expr>> = Vec::new();
        let mut i: usize = 0;
        while i < self.exprs.len()
            invariant
                i <= self.exprs@.len(),
                forall|k: int| 0 <= k < kept@.len() ==> *kept@[k] != *e,
                forall|k: int|
                    0 <= k < kept@.len() ==> exists|j: int|
                        0 <= j < i && *self.exprs@[j] == *#[trigger] kept@[k],
                forall|j: int|
                    0 <= j < i && *self.exprs@[j] != *e ==> exists|k: int|
                        0 <= k < kept@.len() && *kept@[k] == *#[trigger] self.exprs@[j],
            decreases self.exprs@.len() - i,
        {
            if !self.exprs[i].same(e) {
                let ghost before = kept@;
                kept.push(share(&self.exprs[i]));
                assert forall|j: int| 0 <= j < i + 1 && *self.exprs@[j] != *e implies exists|k: int|
                    0 <= k < kept@.len() && *kept@[k] == *#[trigger] self.exprs@[j] by {
                    if j < i {
                        let k = choose|k: int|
                            0 <= k < before.len() && *before[k] == *self.exprs@[j];
                        assert(*kept@[k] == *self.exprs@[j]);
                    } else {
                        assert(*kept@[before.len() as int] == *self.exprs@[j]);
                    }
                }
            }
            i = i + 1;
        }
        self.exprs = kept;
        assert forall|x: Expr| self.cache().contains(x) == old(self).cache().remove(*e).contains(
            x,
        ) by {
            if old(self).cache().remove(*e).contains(x) {
                let j = choose|j: int|
                    0 <= j < old(self).exprs@.len() && *old(self).exprs@[j] == x;
                let k = choose|k: int|
                    0 <= k < kept@.len() && *kept@[k] == *old(self).exprs@[j];
                assert(*self.exprs@[k] == x);
            }
            if self.cache().contains(x) {
                let k = choose|k: int| 0 <= k < kept@.len() && *kept@[k] == x;
                let j = choose|j: int|
                    0 <= j < old(self).exprs@.len() && *old(self).exprs@[j] == *kept@[k];
                assert(*old(self).exprs@[j] == x);
            }
        }
        assert(self.cache() =~= old(self).cache().remove(*e));
        assert(self.names() =~= old(self).names());
    }

    /// Empties the cache; the variables stay.
    pub fn clean(&mut self)
        ensures
            final(self).cache() == Set::<Expr>::empty(),
            final(self).names() == old(self).names(),
    {
        self.exprs.clear();
        assert(self.cache() =~= Set::<Expr>::empty());
        assert(self.names() =~= old(self).names());
    }
}

impl Expr {
    /// The shared constant `n`, which is in the cache from now on.
    pub fn new_num(n: i64, env: &mut Environment) -> (r: Rc<Expr>)
        ensures
            *r == num(n),
            final(env).cache() == old(env).cache().insert(num(n)),
            final(env).names() == old(env).names(),
    {
        let e = Expr::mk_num(n);
        env.extend_expr((*e).clone())
    }

    /// The shared expression of the variable with the given number, which is
    /// in the cache from now on.
    pub fn new_var(id: usize, env: &mut Environment) -> (r: Rc<Expr>)
        ensures
            *r == Expr::Var(Var::new_spec(id)),
            final(env).cache() == old(env).cache().insert(*r),
            final(env).names() == old(env).names(),
    {
        env.extend_expr(Expr::Var(Var::new(id)))
    }

    /// The shared expression `op(exp)`, which is in the cache from now on.
    pub fn new_unop(op: Uop, exp: Rc<Expr>, env: &mut Environment) -> (r: Rc<Expr>)
        ensures
            *r == unop(op, *exp),
            final(env).cache() == old(env).cache().insert(unop(op, *exp)),
            final(env).names() == old(env).names(),
    {
        env.extend_expr(Expr::UnOp { op, exp })
    }

    /// The shared expression `exp1 op exp2`, which is in the cache from now
    /// on.
    pub fn new_binop(op: Bop, exp1: Rc<Expr>, exp2: Rc<Expr>, env: &mut Environment) -> (r: Rc<
        Expr,
    >)
        ensures
            *r == binop(op, *exp1, *exp2),
            final(env).cache() == old(env).cache().insert(binop(op, *exp1, *exp2)),
            final(env).names() == old(env).names(),
    {
        env.extend_expr(Expr::BinOp { op, exp1, exp2 })
    }
}

} // verus!
