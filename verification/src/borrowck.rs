//! Ownership checking: affine resources are moved on use, die at the last
//! statement that observes them (or at the end of their scope), and raw
//! pointers are only bound and written through inside `unsafe`. The checker
//! rewrites a statement, inserting a `SyntheticDrop` where each affine
//! resource dies.

use vstd::prelude::*;
use vstd::string::*;
use crate::ast::{Expr, ExprV, Stmt, StmtV, Type, type_is_affine, stmts_view};

verus! {

broadcast use vstd::string::group_string_axioms;

/// The state of a resource bound to a name.
#[derive(Debug, PartialEq, Eq)]
pub enum ResourceState {
    Uninitialized,
    Active(Type),
    Moved,
    Dropped,
}

impl ResourceState {
    /// A copy of the state.
    pub fn copy_state(&self) -> (r: ResourceState)
        ensures
            r == *self,
    {
        match self {
            ResourceState::Uninitialized => ResourceState::Uninitialized,
            ResourceState::Active(t) => ResourceState::Active(t.copy_type()),
            ResourceState::Moved => ResourceState::Moved,
            ResourceState::Dropped => ResourceState::Dropped,
        }
    }
}

impl Clone for ResourceState {
    fn clone(&self) -> (r: ResourceState)
        ensures
            r == *self,
    {
        self.copy_state()
    }
}

/// A scope: the names it binds with their states, in the order of declaration.
pub type ScopeV = Seq<(Seq<char>, ResourceState)>;

/// The mathematical value of a checking context.
pub struct CtxV {
    pub scopes: Seq<ScopeV>,
    pub is_unsafe: bool,
}

/// The lexical scopes (innermost last), and whether checking is inside `unsafe`.
#[derive(Debug)]
pub struct BorrowContext {
    pub scopes: Vec<Vec<(String, ResourceState)>>,
    pub is_unsafe: bool,
}

pub open spec fn scope_view(sc: Seq<(String, ResourceState)>) -> ScopeV {
    Seq::new(sc.len(), |j: int| (sc[j].0@, sc[j].1))
}

pub open spec fn scopes_view(s: Seq<Vec<(String, ResourceState)>>) -> Seq<ScopeV> {
    Seq::new(s.len(), |i: int| scope_view(s[i]@))
}

impl View for BorrowContext {
    type V = CtxV;

    open spec fn view(&self) -> CtxV {
        CtxV { scopes: scopes_view(self.scopes@), is_unsafe: self.is_unsafe }
    }
}

/// The first entry of `sc` at or after `k` that binds `name`.
pub open spec fn scope_index_from(sc: ScopeV, name: Seq<char>, k: int) -> Option<int>
    decreases sc.len() - k,
{
    if k < 0 || k >= sc.len() {
        None
    } else if sc[k].0 == name {
        Some(k)
    } else {
        scope_index_from(sc, name, k + 1)
    }
}

/// The entry that binds `name` in the innermost of the first `i` scopes that binds it.
pub open spec fn ctx_find_from(scopes: Seq<ScopeV>, name: Seq<char>, i: int) -> Option<(int, int)>
    decreases i,
{
    if i <= 0 || i > scopes.len() {
        None
    } else {
        match scope_index_from(scopes[i - 1], name, 0) {
            Some(j) => Some((i - 1, j)),
            None => ctx_find_from(scopes, name, i - 1),
        }
    }
}

/// Where `name` is bound: the innermost scope that binds it.
pub open spec fn ctx_find(c: CtxV, name: Seq<char>) -> Option<(int, int)> {
    ctx_find_from(c.scopes, name, c.scopes.len() as int)
}

/// The context with the state of entry `j` of scope `i` replaced.
pub open spec fn ctx_set(c: CtxV, i: int, j: int, st: ResourceState) -> CtxV {
    CtxV { scopes: c.scopes.update(i, c.scopes[i].update(j, (c.scopes[i][j].0, st))), ..c }
}

/// Binding `name` in the innermost scope: an existing entry of that scope is
/// replaced, else a new one is added.
pub open spec fn ctx_declare(c: CtxV, name: Seq<char>, ty: Type) -> CtxV {
    let last = c.scopes.len() - 1;
    let sc = c.scopes[last];
    match scope_index_from(sc, name, 0) {
        Some(j) => CtxV { scopes: c.scopes.update(last, sc.update(j, (name, ResourceState::Active(ty)))), ..c },
        None => CtxV { scopes: c.scopes.update(last, sc.push((name, ResourceState::Active(ty)))), ..c },
    }
}

pub open spec fn quoted(prefix: Seq<char>, name: Seq<char>, suffix: Seq<char>) -> Seq<char> {
    prefix + name + suffix
}

pub open spec fn msg_undeclared(name: Seq<char>) -> Seq<char> {
    quoted("Variable no declarada '"@, name, "'"@)
}

pub open spec fn msg_use_after_move(name: Seq<char>) -> Seq<char> {
    quoted("Falsación de invariante: Uso después de Move en variable '"@, name, "'"@)
}

pub open spec fn msg_use_after_drop(name: Seq<char>) -> Seq<char> {
    quoted("Falsación de invariante: Uso después de Drop en variable '"@, name, "'"@)
}

pub open spec fn msg_uninitialized(name: Seq<char>) -> Seq<char> {
    quoted("Uso de variable no inicializada '"@, name, "'"@)
}

pub open spec fn msg_raw_let(name: Seq<char>) -> Seq<char> {
    quoted("Anergía detectada: Imposible vincular puntero físico '"@, name, "' fuera de una escotilla 'unsafe'"@)
}

pub open spec fn msg_raw_deref(name: Seq<char>) -> Seq<char> {
    quoted("Anergía detectada: Imposible desreferenciar puntero físico '"@, name, "' fuera de 'unsafe'"@)
}

pub open spec fn msg_unsupported() -> Seq<char> {
    "Expresión no soportada aún"@
}

/// Using `name` by value: an affine resource is moved, a copyable one stays
/// active; a moved, dropped, uninitialized or unknown name is an error.
pub open spec fn ctx_consume(c: CtxV, name: Seq<char>) -> (Result<Type, Seq<char>>, CtxV) {
    match ctx_find(c, name) {
        None => (Err(msg_undeclared(name)), c),
        Some((i, j)) => match c.scopes[i][j].1 {
            ResourceState::Active(ty) => if type_is_affine(ty) {
                (Ok(ty), ctx_set(c, i, j, ResourceState::Moved))
            } else {
                (Ok(ty), c)
            },
            ResourceState::Moved => (Err(msg_use_after_move(name)), c),
            ResourceState::Dropped => (Err(msg_use_after_drop(name)), c),
            ResourceState::Uninitialized => (Err(msg_uninitialized(name)), c),
        },
    }
}

/// Dropping `name` early: only an active affine resource is dropped, and a
/// `SyntheticDrop` is produced for it.
pub open spec fn ctx_early_drop(c: CtxV, name: Seq<char>) -> (Option<StmtV>, CtxV) {
    match ctx_find(c, name) {
        Some((i, j)) => match c.scopes[i][j].1 {
            ResourceState::Active(ty) => if type_is_affine(ty) {
                (Some(StmtV::SyntheticDrop(name)), ctx_set(c, i, j, ResourceState::Dropped))
            } else {
                (None, c)
            },
            _ => (None, c),
        },
        None => (None, c),
    }
}

/// The drops for the resources of a closed scope that are still active and
/// affine, in the scope's order.
pub open spec fn scope_drops(sc: ScopeV) -> Seq<StmtV>
    decreases sc.len(),
{
    if sc.len() == 0 {
        seq![]
    } else {
        let rest = scope_drops(sc.drop_last());
        match sc.last().1 {
            ResourceState::Active(ty) => if type_is_affine(ty) {
                rest.push(StmtV::SyntheticDrop(sc.last().0))
            } else {
                rest
            },
            _ => rest,
        }
    }
}

/// The names that an expression observes, in order of appearance.
pub open spec fn expr_uses(e: ExprV) -> Seq<Seq<char>>
    decreases e,
{
    match e {
        ExprV::Variable(n) => seq![n],
        ExprV::Move(n) => seq![n],
        ExprV::Borrow(n) => seq![n],
        ExprV::BorrowMut(n) => seq![n],
        ExprV::Deref(inner) => expr_uses(*inner),
        ExprV::Add(l, r) => expr_uses(*l) + expr_uses(*r),
        _ => seq![],
    }
}

/// The names that a statement observes, nested blocks included.
pub open spec fn stmt_uses(s: StmtV) -> Seq<Seq<char>>
    decreases s, 1int,
{
    match s {
        StmtV::Let(_, _, e) => expr_uses(e),
        StmtV::Assign(l, r) => expr_uses(l) + expr_uses(r),
        StmtV::Return(e) => expr_uses(e),
        StmtV::Block(ss) => stmts_uses(ss, ss.len() as int),
        StmtV::UnsafeBlock(ss) => stmts_uses(ss, ss.len() as int),
        StmtV::SyntheticDrop(_) => seq![],
    }
}

/// The names that the first `n` statements observe.
pub open spec fn stmts_uses(ss: Seq<StmtV>, n: int) -> Seq<Seq<char>>
    decreases ss, n,
{
    if n <= 0 || n > ss.len() {
        seq![]
    } else {
        stmts_uses(ss, n - 1) + stmt_uses(ss[n - 1])
    }
}

/// A liveness horizon: names with the index of a statement, first-seen order.
pub type HorizonV = Seq<(Seq<char>, int)>;

pub open spec fn horizon_index_from(h: HorizonV, name: Seq<char>, k: int) -> Option<int>
    decreases h.len() - k,
{
    if k < 0 || k >= h.len() {
        None
    } else if h[k].0 == name {
        Some(k)
    } else {
        horizon_index_from(h, name, k + 1)
    }
}

/// Sets the index of `name` (adding the name if it is new).
pub open spec fn horizon_set(h: HorizonV, name: Seq<char>, idx: int) -> HorizonV {
    match horizon_index_from(h, name, 0) {
        Some(k) => h.update(k, (name, idx)),
        None => h.push((name, idx)),
    }
}

/// Adds `name` with `idx` only if it is new.
pub open spec fn horizon_add(h: HorizonV, name: Seq<char>, idx: int) -> HorizonV {
    match horizon_index_from(h, name, 0) {
        Some(_) => h,
        None => h.push((name, idx)),
    }
}

/// Sets the index of the first `n` names of `names`.
pub open spec fn horizon_set_all(h: HorizonV, names: Seq<Seq<char>>, idx: int, n: int) -> HorizonV
    decreases n,
{
    if n <= 0 || n > names.len() {
        h
    } else {
        horizon_set(horizon_set_all(h, names, idx, n - 1), names[n - 1], idx)
    }
}

/// The liveness horizon of the first `n` statements of a block: each name maps
/// to the last statement that observes it, or, if none does, to the first
/// statement that binds it.
pub open spec fn horizon_upto(ss: Seq<StmtV>, n: int) -> HorizonV
    decreases n,
{
    if n <= 0 || n > ss.len() {
        seq![]
    } else {
        let h = horizon_upto(ss, n - 1);
        let idx = n - 1;
        let h1 = match ss[idx] {
            StmtV::Let(name, _, _) => horizon_add(h, name, idx),
            _ => h,
        };
        let u = stmt_uses(ss[idx]);
        horizon_set_all(h1, u, idx, u.len() as int)
    }
}

pub open spec fn horizon(ss: Seq<StmtV>) -> HorizonV {
    horizon_upto(ss, ss.len() as int)
}

/// The early drops after statement `idx`: each name of the first `k` entries
/// of the horizon whose last statement is `idx` is dropped if it is still an
/// active affine resource.
pub open spec fn drops_at(c: CtxV, h: HorizonV, idx: int, k: int) -> (Seq<StmtV>, CtxV)
    decreases k,
{
    if k <= 0 || k > h.len() {
        (seq![], c)
    } else {
        let (d, c1) = drops_at(c, h, idx, k - 1);
        if h[k - 1].1 == idx {
            let (o, c2) = ctx_early_drop(c1, h[k - 1].0);
            match o {
                Some(st) => (d.push(st), c2),
                None => (d, c2),
            }
        } else {
            (d, c1)
        }
    }
}

/// Checks an expression: literals have their types; a name is consumed;
/// other expressions are not supported.
pub open spec fn check_expr(e: ExprV, c: CtxV) -> (Result<Type, Seq<char>>, CtxV) {
    match e {
        ExprV::LiteralInt(_) => (Ok(Type::U64), c),
        ExprV::LiteralBool(_) => (Ok(Type::Bool), c),
        ExprV::Variable(n) => ctx_consume(c, n),
        ExprV::Move(n) => ctx_consume(c, n),
        _ => (Err(msg_unsupported()), c),
    }
}

pub open spec fn ctx_push(c: CtxV) -> CtxV {
    CtxV { scopes: c.scopes.push(seq![]), ..c }
}

pub open spec fn ctx_pop(c: CtxV) -> CtxV {
    CtxV { scopes: c.scopes.drop_last(), ..c }
}

/// Checks a statement, giving the rewritten statements (drops inserted) and
/// the context after; on a failure, the context as it was when checking stopped.
pub open spec fn check_stmt(s: StmtV, c: CtxV) -> (Result<Seq<StmtV>, Seq<char>>, CtxV)
    decreases s, 0int,
{
    match s {
        StmtV::Let(name, ty, e) => {
            let (r, c1) = check_expr(e, c);
            match r {
                Err(m) => (Err(m), c1),
                Ok(_) => if ty is RawPtr && !c1.is_unsafe {
                    (Err(msg_raw_let(name)), c1)
                } else {
                    (Ok(seq![s]), ctx_declare(c1, name, ty))
                },
            }
        },
        StmtV::Block(ss) => {
            let (r, c1) = check_items(ss, horizon(ss), ctx_push(c), 0, seq![]);
            match r {
                Err(m) => (Err(m), c1),
                Ok(out) => {
                    let closed = c1.scopes.last();
                    (Ok(seq![StmtV::Block(out + scope_drops(closed))]), ctx_pop(c1))
                },
            }
        },
        StmtV::UnsafeBlock(ss) => {
            let inner = CtxV { is_unsafe: true, ..ctx_push(c) };
            let (r, c1) = check_items(ss, horizon(ss), inner, 0, seq![]);
            match r {
                Err(m) => (Err(m), c1),
                Ok(out) => {
                    let closed = c1.scopes.last();
                    (
                        Ok(seq![StmtV::UnsafeBlock(out + scope_drops(closed))]),
                        CtxV { is_unsafe: c.is_unsafe, ..ctx_pop(c1) },
                    )
                },
            }
        },
        StmtV::Assign(l, rhs) => {
            let (r, c1) = check_expr(rhs, c);
            match r {
                Err(m) => (Err(m), c1),
                Ok(_) => match l {
                    ExprV::Deref(inner) => match *inner {
                        ExprV::Variable(name) => match ctx_find(c1, name) {
                            None => (Err(msg_undeclared(name)), c1),
                            Some((i, j)) => if c1.scopes[i][j].1 matches ResourceState::Active(Type::RawPtr(_))
                                && !c1.is_unsafe {
                                (Err(msg_raw_deref(name)), c1)
                            } else {
                                (Ok(seq![s]), c1)
                            },
                        },
                        _ => (Ok(seq![s]), c1),
                    },
                    _ => (Ok(seq![s]), c1),
                },
            }
        },
        _ => (Ok(seq![s]), c),
    }
}

/// Checks the statements of a block from `idx` on, after the output `acc`,
/// dropping after each statement the names whose horizon it is.
pub open spec fn check_items(ss: Seq<StmtV>, h: HorizonV, c: CtxV, idx: int, acc: Seq<StmtV>) -> (Result<Seq<StmtV>, Seq<char>>, CtxV)
    decreases ss, ss.len() - idx,
{
    if idx < 0 || idx >= ss.len() {
        (Ok(acc), c)
    } else {
        let (r, c1) = check_stmt(ss[idx], c);
        match r {
            Err(m) => (Err(m), c1),
            Ok(out) => {
                let (d, c2) = drops_at(c1, h, idx, h.len() as int);
                check_items(ss, h, c2, idx + 1, acc + out + d)
            },
        }
    }
}


/// The innermost scope that binds `name`, searched from the first `i` scopes.
proof fn lemma_find_from_bounds(c: CtxV, name: Seq<char>, i: int)
    requires
        0 <= i <= c.scopes.len(),
    ensures
        ctx_find_from(c.scopes, name, i) matches Some((a, b)) ==> 0 <= a < i && 0 <= b < c.scopes[a].len()
            && c.scopes[a][b].0 == name,
    decreases i,
{
    if i > 0 {
        lemma_scope_index_bounds(c.scopes[i - 1], name, 0);
        lemma_find_from_bounds(c, name, i - 1);
    }
}

proof fn lemma_scope_index_bounds(sc: ScopeV, name: Seq<char>, k: int)
    requires
        0 <= k,
    ensures
        scope_index_from(sc, name, k) matches Some(j) ==> k <= j < sc.len() && sc[j].0 == name,
    decreases sc.len() - k,
{
    if k < sc.len() && sc[k].0 != name {
        lemma_scope_index_bounds(sc, name, k + 1);
    }
}

/// Where a name is found, the entry binds that name.
pub proof fn lemma_find_bounds(c: CtxV, name: Seq<char>)
    ensures
        ctx_find(c, name) matches Some((a, b)) ==> 0 <= a < c.scopes.len() && 0 <= b < c.scopes[a].len()
            && c.scopes[a][b].0 == name,
{
    lemma_find_from_bounds(c, name, c.scopes.len() as int);
}

/// The index of the first entry of `sc` that binds `name`.
fn scope_lookup(sc: &Vec<(String, ResourceState)>, name: &str) -> (r: Option<usize>)
    ensures
        match r {
            Some(j) => scope_index_from(scope_view(sc@), name@, 0) == Some(j as int),
            None => scope_index_from(scope_view(sc@), name@, 0) is None,
        },
{
    let key = String::from_str(name);
    let mut j: usize = 0;
    while j < sc.len()
        invariant
            j <= sc@.len(),
            key@ == name@,
            scope_index_from(scope_view(sc@), name@, 0) == scope_index_from(scope_view(sc@), name@, j as int),
        decreases sc@.len() - j,
    {
        if sc[j].0 == key {
            return Some(j);
        }
        j += 1;
    }
    None
}

impl BorrowContext {
    /// A context with one empty scope, outside `unsafe`.
    pub fn new() -> (r: Self)
        ensures
            r@ == (CtxV { scopes: seq![seq![]], is_unsafe: false }),
    {
        let mut scopes: Vec<Vec<(String, ResourceState)>> = Vec::new();
        scopes.push(Vec::new());
        let r = Self { scopes, is_unsafe: false };
        assert(r@.scopes =~~= seq![seq![]]);
        r
    }

    /// Opens a new innermost scope.
    pub fn push_scope(&mut self)
        ensures
            final(self)@ == ctx_push(old(self)@),
    {
        self.scopes.push(Vec::new());
        assert(self@.scopes =~~= ctx_push(old(self)@).scopes);
    }

    /// Closes the innermost scope and gives it back.
    pub fn pop_scope(&mut self) -> (r: Vec<(String, ResourceState)>)
        requires
            old(self).scopes@.len() > 0,
        ensures
            scope_view(r@) == old(self)@.scopes.last(),
            final(self)@ == ctx_pop(old(self)@),
    {
        let r = self.scopes.pop().unwrap();
        assert(self@.scopes =~~= ctx_pop(old(self)@).scopes);
        r
    }

    /// Binds `name` as an active resource of type `ty` in the innermost scope.
    pub fn declare_var(&mut self, name: String, ty: Type)
        requires
            old(self).scopes@.len() > 0,
        ensures
            final(self)@ == ctx_declare(old(self)@, name@, ty),
    {
        let last = self.scopes.len() - 1;
        let ghost old_view = self@;
        let found = scope_lookup(&self.scopes[last], name.as_str());
        let mut sc = self.scopes.pop().unwrap();
        proof {
            lemma_scope_index_bounds(scope_view(sc@), name@, 0);
        }
        match found {
            Some(j) => {
                let ghost osc = sc@;
                sc.set(j, (name, ResourceState::Active(ty)));
                assert(scope_view(sc@) =~= scope_view(osc).update(j as int, (name@, ResourceState::Active(ty))));
            },
            None => {
                let ghost osc = sc@;
                sc.push((name, ResourceState::Active(ty)));
                assert(scope_view(sc@) =~= scope_view(osc).push((name@, ResourceState::Active(ty))));
            },
        }
        self.scopes.push(sc);
        assert(self@.scopes =~~= ctx_declare(old_view, name@, ty).scopes);
    }

    fn find_var(&self, name: &str) -> (r: Option<(usize, usize)>)
        ensures
            match r {
                Some((i, j)) => ctx_find(self@, name@) == Some((i as int, j as int)) && i < self.scopes@.len()
                    && j < self.scopes@[i as int]@.len(),
                None => ctx_find(self@, name@) is None,
            },
    {
        let mut i: usize = self.scopes.len();
        while i > 0
            invariant
                i <= self.scopes@.len(),
                ctx_find(self@, name@) == ctx_find_from(self@.scopes, name@, i as int),
            decreases i,
        {
            match scope_lookup(&self.scopes[i - 1], name) {
                Some(j) => {
                    proof {
                        lemma_scope_index_bounds(scope_view(self.scopes@[i - 1]@), name@, 0);
                    }
                    return Some((i - 1, j));
                },
                None => {},
            }
            i -= 1;
        }
        None
    }

    /// The state of the innermost binding of `name`, to read and change in place.
    pub fn get_mut_state(&mut self, name: &str) -> (r: Option<&mut ResourceState>)
        ensures
            match ctx_find(old(self)@, name@) {
                None => r is None && final(self)@ == old(self)@,
                Some((i, j)) => r matches Some(x) && *x == old(self)@.scopes[i][j].1
                    && final(self)@ == ctx_set(old(self)@, i, j, *final(x)),
            },
    {
        match self.find_var(name) {
            None => None,
            Some((i, j)) => {
                proof {
                    let olds = self.scopes@;
                    assert forall|nr: Vec<(String, ResourceState)>|
                        nr@ == olds[i as int]@.update(j as int, (olds[i as int]@[j as int].0, nr@[j as int].1)) implies
                        #[trigger] scopes_view(olds.update(i as int, nr)) == ctx_set(old(self)@, i as int, j as int, nr@[j as int].1).scopes by {
                        let st = nr@[j as int].1;
                        assert(scope_view(nr@) =~= scope_view(olds[i as int]@).update(j as int, (olds[i as int]@[j as int].0@, st)));
                        assert(scopes_view(olds.update(i as int, nr)) =~= ctx_set(old(self)@, i as int, j as int, st).scopes);
                    }
                }
                let row = &mut self.scopes[i];
                let e = &mut row[j];
                Some(&mut e.1)
            },
        }
    }

    /// Uses `name` by value: an active affine resource is moved; a copyable
    /// one stays active; any other state, or an unknown name, is an error.
    pub fn consume_var(&mut self, name: &str) -> (r: Result<Type, String>)
        ensures
            type_outcome_is(r, ctx_consume(old(self)@, name@).0),
            final(self)@ == ctx_consume(old(self)@, name@).1,
    {
        proof {
            lemma_find_bounds(self@, name@);
            lemma_ctx_set_same(self@);
        }
        let state_opt = self.get_mut_state(name);
        match state_opt {
            Some(state) => {
                let (affine, ty) = match state {
                    ResourceState::Active(ty) => (ty.is_affine(), ty.copy_type()),
                    ResourceState::Moved => {
                        return Err(quote_message("Falsación de invariante: Uso después de Move en variable '", name, "'"));
                    },
                    ResourceState::Dropped => {
                        return Err(quote_message("Falsación de invariante: Uso después de Drop en variable '", name, "'"));
                    },
                    ResourceState::Uninitialized => {
                        return Err(quote_message("Uso de variable no inicializada '", name, "'"));
                    },
                };
                if affine {
                    *state = ResourceState::Moved;
                }
                Ok(ty)
            },
            None => Err(quote_message("Variable no declarada '", name, "'")),
        }
    }

    /// The drops for the resources of a closed scope that are still active and
    /// affine, in the scope's order. The context itself is not changed.
    pub fn synthesize_drops_for_scope(&mut self, scope: Vec<(String, ResourceState)>) -> (r: Vec<Stmt>)
        ensures
            stmts_view(r@) == scope_drops(scope_view(scope@)),
            final(self)@ == old(self)@,
    {
        let mut drops: Vec<Stmt> = Vec::new();
        let mut k: usize = 0;
        while k < scope.len()
            invariant
                k <= scope@.len(),
                stmts_view(drops@) == scope_drops(scope_view(scope@).take(k as int)),
            decreases scope@.len() - k,
        {
            proof {
                assert(scope_view(scope@).take(k + 1).drop_last() =~= scope_view(scope@).take(k as int));
                assert(scope_view(scope@).take(k + 1).last() == scope_view(scope@)[k as int]);
            }
            if let ResourceState::Active(ty) = &scope[k].1 {
                if ty.is_affine() {
                    let d = Stmt::SyntheticDrop(scope[k].0.clone());
                    proof {
                        assert(stmts_view(drops@.push(d)) =~= stmts_view(drops@).push(d@));
                    }
                    drops.push(d);
                }
            }
            k += 1;
        }
        assert(scope_view(scope@).take(scope@.len() as int) =~= scope_view(scope@));
        drops
    }

    /// Drops `name` early if it is still an active affine resource, giving the
    /// `SyntheticDrop` for it.
    pub fn try_early_drop(&mut self, name: &str) -> (r: Option<Stmt>)
        ensures
            stmt_option_is(r, ctx_early_drop(old(self)@, name@).0),
            final(self)@ == ctx_early_drop(old(self)@, name@).1,
    {
        proof {
            lemma_find_bounds(self@, name@);
            lemma_ctx_set_same(self@);
        }
        if let Some(state) = self.get_mut_state(name) {
            let affine = match state {
                ResourceState::Active(ty) => ty.is_affine(),
                _ => false,
            };
            if affine {
                *state = ResourceState::Dropped;
                return Some(Stmt::SyntheticDrop(String::from_str(name)));
            }
        }
        None
    }
}


/// An exec type result agrees with a spec one: the same type, or the same message.
pub open spec fn type_outcome_is(r: Result<Type, String>, s: Result<Type, Seq<char>>) -> bool {
    match (r, s) {
        (Ok(a), Ok(b)) => a == b,
        (Err(m), Err(e)) => m@ == e,
        _ => false,
    }
}

pub open spec fn stmt_option_is(r: Option<Stmt>, s: Option<StmtV>) -> bool {
    match (r, s) {
        (Some(a), Some(b)) => a@ == b,
        (None, None) => true,
        _ => false,
    }
}

/// Setting an entry to the state it already has changes nothing.
pub proof fn lemma_ctx_set_same(c: CtxV)
    ensures
        forall|i: int, j: int|
            0 <= i < c.scopes.len() && 0 <= j < c.scopes[i].len() ==> #[trigger] ctx_set(c, i, j, c.scopes[i][j].1) == c,
{
    assert forall|i: int, j: int|
        0 <= i < c.scopes.len() && 0 <= j < c.scopes[i].len() implies #[trigger] ctx_set(c, i, j, c.scopes[i][j].1) == c by {
        assert(c.scopes[i].update(j, (c.scopes[i][j].0, c.scopes[i][j].1)) =~= c.scopes[i]);
        assert(ctx_set(c, i, j, c.scopes[i][j].1).scopes =~= c.scopes);
    }
}

fn quote_message(prefix: &str, name: &str, suffix: &str) -> (r: String)
    ensures
        r@ == quoted(prefix@, name@, suffix@),
{
    let mut m = String::from_str(prefix);
    m.append(name);
    m.append(suffix);
    m
}


/// The views of a list of names.
pub open spec fn names_view(v: Seq<String>) -> Seq<Seq<char>> {
    Seq::new(v.len(), |i: int| v[i]@)
}

proof fn lemma_names_push(v: Seq<String>, x: String)
    ensures
        names_view(v.push(x)) == names_view(v).push(x@),
{
    assert(names_view(v.push(x)) =~= names_view(v).push(x@));
}

/// Appends the names that `expr` observes to `vars`.
fn collect_used_vars_expr(expr: &Expr, vars: &mut Vec<String>)
    ensures
        names_view(final(vars)@) == names_view(old(vars)@) + expr_uses(expr@),
    decreases expr,
{
    match expr {
        Expr::Variable(name) | Expr::Move(name) | Expr::Borrow(name) | Expr::BorrowMut(name) => {
            proof {
                lemma_names_push(vars@, *name);
            }
            vars.push(name.clone());
            assert(names_view(vars@) =~= names_view(old(vars)@) + expr_uses(expr@));
        },
        Expr::Deref(inner) => collect_used_vars_expr(inner, vars),
        Expr::Add(l, r) => {
            collect_used_vars_expr(l, vars);
            collect_used_vars_expr(r, vars);
            assert(names_view(vars@) =~= names_view(old(vars)@) + expr_uses(expr@));
        },
        _ => {
            assert(names_view(vars@) =~= names_view(old(vars)@) + expr_uses(expr@));
        },
    }
}

/// Appends the names that `stmt` observes, nested blocks included, to `vars`.
fn collect_used_vars_stmt(stmt: &Stmt, vars: &mut Vec<String>)
    ensures
        names_view(final(vars)@) == names_view(old(vars)@) + stmt_uses(stmt@),
    decreases stmt,
{
    match stmt {
        Stmt::Let(_, _, expr) => collect_used_vars_expr(expr, vars),
        Stmt::Assign(left, right) => {
            collect_used_vars_expr(left, vars);
            collect_used_vars_expr(right, vars);
            assert(names_view(vars@) =~= names_view(old(vars)@) + stmt_uses(stmt@));
        },
        Stmt::Return(expr) => collect_used_vars_expr(expr, vars),
        Stmt::Block(inner) | Stmt::UnsafeBlock(inner) => {
            let ghost ss = stmts_view(inner@);
            let mut k: usize = 0;
            while k < inner.len()
                invariant
                    k <= inner@.len(),
                    ss == stmts_view(inner@),
                    *stmt == Stmt::Block(*inner) || *stmt == Stmt::UnsafeBlock(*inner),
                    names_view(vars@) == names_view(old(vars)@) + stmts_uses(ss, k as int),
                decreases inner@.len() - k,
            {
                proof {
                    if *stmt is Block {
                        assert(decreases_to!(*stmt => stmt->Block_0));
                    } else {
                        assert(decreases_to!(*stmt => stmt->UnsafeBlock_0));
                    }
                    assert(decreases_to!(*inner => inner@));
                    assert(decreases_to!(inner@ => inner@[k as int]));
                    assert(decreases_to!(*stmt => inner@[k as int]));
                }
                collect_used_vars_stmt(&inner[k], vars);
                assert(names_view(vars@) =~= names_view(old(vars)@) + stmts_uses(ss, k + 1));
                k += 1;
            }
        },
        _ => {
            assert(names_view(vars@) =~= names_view(old(vars)@) + stmt_uses(stmt@));
        },
    }
}

/// The view of an exec horizon.
pub open spec fn horizon_view(h: Seq<(String, usize)>) -> HorizonV {
    Seq::new(h.len(), |k: int| (h[k].0@, h[k].1 as int))
}

fn horizon_lookup(h: &Vec<(String, usize)>, name: &String) -> (r: Option<usize>)
    ensures
        match r {
            Some(k) => horizon_index_from(horizon_view(h@), name@, 0) == Some(k as int) && k < h@.len(),
            None => horizon_index_from(horizon_view(h@), name@, 0) is None,
        },
{
    let mut k: usize = 0;
    while k < h.len()
        invariant
            k <= h@.len(),
            horizon_index_from(horizon_view(h@), name@, 0) == horizon_index_from(horizon_view(h@), name@, k as int),
        decreases h@.len() - k,
    {
        if h[k].0 == *name {
            return Some(k);
        }
        k += 1;
    }
    None
}

fn horizon_set_exec(h: &mut Vec<(String, usize)>, name: &String, idx: usize)
    ensures
        horizon_view(final(h)@) == horizon_set(horizon_view(old(h)@), name@, idx as int),
{
    match horizon_lookup(h, name) {
        Some(k) => {
            h.set(k, (name.clone(), idx));
            assert(horizon_view(h@) =~= horizon_view(old(h)@).update(k as int, (name@, idx as int)));
        },
        None => {
            h.push((name.clone(), idx));
            assert(horizon_view(h@) =~= horizon_view(old(h)@).push((name@, idx as int)));
        },
    }
}

/// For each name, the index of the last statement of the block that observes
/// it, or, if none does, of the first that binds it; names in first-seen order.
fn compute_liveness_horizon(stmts: &[Stmt]) -> (r: Vec<(String, usize)>)
    ensures
        horizon_view(r@) == horizon(stmts_view(stmts@)),
{
    let ghost ss = stmts_view(stmts@);
    let mut h: Vec<(String, usize)> = Vec::new();
    let mut idx: usize = 0;
    assert(horizon_view(h@) =~= horizon_upto(ss, 0));
    while idx < stmts.len()
        invariant
            idx <= stmts@.len(),
            ss == stmts_view(stmts@),
            horizon_view(h@) == horizon_upto(ss, idx as int),
        decreases stmts@.len() - idx,
    {
        let stmt = &stmts[idx];
        if let Stmt::Let(name, _, _) = stmt {
            match horizon_lookup(&h, name) {
                Some(_) => {},
                None => {
                    let ghost oh = h@;
                    h.push((name.clone(), idx));
                    assert(horizon_view(h@) =~= horizon_view(oh).push((name@, idx as int)));
                },
            }
        }
        let mut used: Vec<String> = Vec::new();
        collect_used_vars_stmt(stmt, &mut used);
        let ghost h1 = horizon_view(h@);
        let ghost u = stmt_uses(ss[idx as int]);
        assert(names_view(used@) =~= u);
        let mut k: usize = 0;
        while k < used.len()
            invariant
                k <= used@.len(),
                names_view(used@) == u,
                horizon_view(h@) == horizon_set_all(h1, u, idx as int, k as int),
            decreases used@.len() - k,
        {
            horizon_set_exec(&mut h, &used[k], idx);
            k += 1;
        }
        idx += 1;
    }
    h
}

/// Checks an expression: literals have their types, a name is consumed,
/// other expressions are not supported.
pub fn check_expression(expr: &Expr, ctx: &mut BorrowContext) -> (r: Result<Type, String>)
    ensures
        type_outcome_is(r, check_expr(expr@, old(ctx)@).0),
        final(ctx)@ == check_expr(expr@, old(ctx)@).1,
{
    match expr {
        Expr::LiteralInt(_) => Ok(Type::U64),
        Expr::LiteralBool(_) => Ok(Type::Bool),
        Expr::Variable(name) => ctx.consume_var(name.as_str()),
        Expr::Move(name) => ctx.consume_var(name.as_str()),
        _ => Err(String::from_str("Expresión no soportada aún")),
    }
}


pub proof fn lemma_consume_frame(c: CtxV, name: Seq<char>)
    ensures
        ctx_consume(c, name).1.scopes.len() == c.scopes.len(),
        ctx_consume(c, name).1.is_unsafe == c.is_unsafe,
{
    lemma_find_bounds(c, name);
}

pub proof fn lemma_early_drop_frame(c: CtxV, name: Seq<char>)
    ensures
        ctx_early_drop(c, name).1.scopes.len() == c.scopes.len(),
        ctx_early_drop(c, name).1.is_unsafe == c.is_unsafe,
{
    lemma_find_bounds(c, name);
}

pub proof fn lemma_drops_at_frame(c: CtxV, h: HorizonV, idx: int, k: int)
    ensures
        drops_at(c, h, idx, k).1.scopes.len() == c.scopes.len(),
        drops_at(c, h, idx, k).1.is_unsafe == c.is_unsafe,
    decreases k,
{
    if 0 < k <= h.len() {
        lemma_drops_at_frame(c, h, idx, k - 1);
        let c1 = drops_at(c, h, idx, k - 1).1;
        lemma_early_drop_frame(c1, h[k - 1].0);
    }
}

/// A statement that checks leaves the scope stack as deep as it was and the
/// `unsafe` mode as it was.
pub proof fn lemma_check_stmt_frame(s: StmtV, c: CtxV)
    requires
        c.scopes.len() > 0,
    ensures
        check_stmt(s, c).0 is Ok ==> check_stmt(s, c).1.scopes.len() == c.scopes.len()
            && check_stmt(s, c).1.is_unsafe == c.is_unsafe,
    decreases s, 0int,
{
    match s {
        StmtV::Let(name, ty, e) => {
            lemma_expr_frame(e, c);
        },
        StmtV::Block(ss) => {
            lemma_check_items_frame(ss, horizon(ss), ctx_push(c), 0, seq![]);
        },
        StmtV::UnsafeBlock(ss) => {
            let inner = CtxV { is_unsafe: true, ..ctx_push(c) };
            lemma_check_items_frame(ss, horizon(ss), inner, 0, seq![]);
        },
        StmtV::Assign(l, rhs) => {
            lemma_expr_frame(rhs, c);
        },
        _ => {},
    }
}

pub proof fn lemma_expr_frame(e: ExprV, c: CtxV)
    ensures
        check_expr(e, c).1.scopes.len() == c.scopes.len(),
        check_expr(e, c).1.is_unsafe == c.is_unsafe,
{
    match e {
        ExprV::Variable(n) => lemma_consume_frame(c, n),
        ExprV::Move(n) => lemma_consume_frame(c, n),
        _ => {},
    }
}

pub proof fn lemma_check_items_frame(ss: Seq<StmtV>, h: HorizonV, c: CtxV, idx: int, acc: Seq<StmtV>)
    requires
        c.scopes.len() > 0,
    ensures
        check_items(ss, h, c, idx, acc).0 is Ok ==> check_items(ss, h, c, idx, acc).1.scopes.len() == c.scopes.len()
            && check_items(ss, h, c, idx, acc).1.is_unsafe == c.is_unsafe,
    decreases ss, ss.len() - idx,
{
    if 0 <= idx < ss.len() {
        lemma_check_stmt_frame(ss[idx], c);
        let (r, c1) = check_stmt(ss[idx], c);
        if r is Ok {
            lemma_drops_at_frame(c1, h, idx, h.len() as int);
            let (d, c2) = drops_at(c1, h, idx, h.len() as int);
            lemma_check_items_frame(ss, h, c2, idx + 1, acc + r->Ok_0 + d);
        }
    }
}

/// Checking `s` in context `c` would bind a name with no scope to bind it in.
pub open spec fn check_would_panic(s: StmtV, c: CtxV) -> bool {
    match s {
        StmtV::Let(_, ty, e) => c.scopes.len() == 0 && check_expr(e, c).0 is Ok && !(ty is RawPtr
            && !check_expr(e, c).1.is_unsafe),
        _ => false,
    }
}

/// An exec checking result agrees with a spec one.
pub open spec fn stmts_outcome_is(r: Result<Vec<Stmt>, String>, s: Result<Seq<StmtV>, Seq<char>>) -> bool {
    match (r, s) {
        (Ok(a), Ok(b)) => stmts_view(a@) == b,
        (Err(m), Err(e)) => m@ == e,
        _ => false,
    }
}

fn single(s: Stmt) -> (r: Vec<Stmt>)
    ensures
        stmts_view(r@) == seq![s@],
{
    let mut v: Vec<Stmt> = Vec::new();
    v.push(s);
    assert(stmts_view(v@) =~= seq![s@]);
    v
}

/// Checks a statement and rewrites it with its drops: a `let` binds a name
/// (a raw pointer only inside `unsafe`); a block checks its statements in a
/// new scope, drops each affine resource right after the last statement that
/// observes it, and drops what is left when the scope closes; a write through
/// a raw pointer must be inside `unsafe`.
pub fn check_statement(stmt: &Stmt, ctx: &mut BorrowContext) -> (r: Result<Vec<Stmt>, String>)
    requires
        !check_would_panic(stmt@, old(ctx)@),
    ensures
        stmts_outcome_is(r, check_stmt(stmt@, old(ctx)@).0),
        final(ctx)@ == check_stmt(stmt@, old(ctx)@).1,
    decreases stmt,
{
    let ghost c0 = ctx@;
    match stmt {
        Stmt::Let(name, ty, expr) => {
            proof {
                lemma_expr_frame(expr@, c0);
            }
            match check_expression(expr, ctx) {
                Err(m) => {
                    return Err(m);
                },
                Ok(_) => {},
            }
            if let Type::RawPtr(_) = ty {
                if !ctx.is_unsafe {
                    return Err(
                        quote_message("Anergía detectada: Imposible vincular puntero físico '", name.as_str(), "' fuera de una escotilla 'unsafe'"),
                    );
                }
            }
            ctx.declare_var(name.clone(), ty.copy_type());
            Ok(single(stmt.copy_stmt()))
        },
        Stmt::Block(stmts) => {
            ctx.push_scope();
            let liveness = compute_liveness_horizon(stmts.as_slice());
            let ghost ss = stmts_view(stmts@);
            let ghost h = horizon(ss);
            let ghost whole = check_items(ss, h, ctx_push(c0), 0, seq![]);
            let mut transformed: Vec<Stmt> = Vec::new();
            assert(stmts_view(transformed@) =~= seq![]);
            let mut idx: usize = 0;
            while idx < stmts.len()
                invariant
                    idx <= stmts@.len(),
                    ss == stmts_view(stmts@),
                    h == horizon(ss),
                    horizon_view(liveness@) == h,
                    *stmt == Stmt::Block(*stmts),
                    c0 == old(ctx)@,
                    whole == check_items(ss, h, ctx_push(c0), 0, seq![]),
                    ctx@.scopes.len() == c0.scopes.len() + 1,
                    check_items(ss, h, ctx@, idx as int, stmts_view(transformed@)) == whole,
                decreases stmts@.len() - idx,
            {
                proof {
                    assert(decreases_to!(*stmt => stmt->Block_0));
                    assert(decreases_to!(*stmts => stmts@));
                    assert(decreases_to!(stmts@ => stmts@[idx as int]));
                    lemma_check_stmt_frame(ss[idx as int], ctx@);
                }
                let ghost c = ctx@;
                let ghost acc = stmts_view(transformed@);
                match check_statement(&stmts[idx], ctx) {
                    Err(m) => {
                        assert(check_items(ss, h, c, idx as int, acc) == check_stmt(ss[idx as int], c));
                        return Err(m);
                    },
                    Ok(mut out) => {
                        let ghost ov = out@;
                        transformed.append(&mut out);
                        assert(stmts_view(transformed@) =~= acc + stmts_view(ov));
                    },
                }
                let ghost c1 = ctx@;
                let ghost base = stmts_view(transformed@);
                assert(base + seq![] =~= base);
                let mut k: usize = 0;
                while k < liveness.len()
                    invariant
                        k <= liveness@.len(),
                        horizon_view(liveness@) == h,
                        idx < stmts@.len(),
                        stmts_view(transformed@) == base + drops_at(c1, h, idx as int, k as int).0,
                        ctx@ == drops_at(c1, h, idx as int, k as int).1,
                    decreases liveness@.len() - k,
                {
                    if liveness[k].1 == idx {
                        match ctx.try_early_drop(liveness[k].0.as_str()) {
                            Some(d) => {
                                let ghost tv = transformed@;
                                transformed.push(d);
                                assert(stmts_view(transformed@) =~= stmts_view(tv).push(d@));
                            },
                            None => {},
                        }
                    }
                    k += 1;
                }
                proof {
                    lemma_drops_at_frame(c1, h, idx as int, h.len() as int);
                }
                idx += 1;
            }
            let scope_vars = ctx.pop_scope();
            let mut fallback_drops = ctx.synthesize_drops_for_scope(scope_vars);
            let ghost tv = transformed@;
            let ghost fv = fallback_drops@;
            transformed.append(&mut fallback_drops);
            assert(stmts_view(transformed@) =~= stmts_view(tv) + stmts_view(fv));
            Ok(single(Stmt::Block(transformed)))
        },
        Stmt::Assign(left, right) => {
            match check_expression(right, ctx) {
                Err(m) => {
                    return Err(m);
                },
                Ok(_) => {},
            }
            if let Expr::Deref(inner) = left {
                if let Expr::Variable(name) = &**inner {
                    assert((**inner)@ == ExprV::Variable(name@));
                    assert(left@ == ExprV::Deref(Box::new(ExprV::Variable(name@))));
                    let is_unsafe = ctx.is_unsafe;
                    proof {
                        lemma_find_bounds(ctx@, name@);
                        lemma_ctx_set_same(ctx@);
                    }
                    let state = match ctx.get_mut_state(name.as_str()) {
                        Some(st) => st,
                        None => {
                            return Err(quote_message("Variable no declarada '", name.as_str(), "'"));
                        },
                    };
                    if let ResourceState::Active(ty) = state {
                        if let Type::RawPtr(_) = ty {
                            if !is_unsafe {
                                return Err(
                                    quote_message("Anergía detectada: Imposible desreferenciar puntero físico '", name.as_str(), "' fuera de 'unsafe'"),
                                );
                            }
                        }
                    }
                }
            }
            Ok(single(stmt.copy_stmt()))
        },
        Stmt::UnsafeBlock(stmts) => {
            ctx.push_scope();
            let previous_unsafe = ctx.is_unsafe;
            ctx.is_unsafe = true;
            let liveness = compute_liveness_horizon(stmts.as_slice());
            let ghost ss = stmts_view(stmts@);
            let ghost h = horizon(ss);
            let ghost whole = check_items(ss, h, CtxV { is_unsafe: true, ..ctx_push(c0) }, 0, seq![]);
            let mut transformed: Vec<Stmt> = Vec::new();
            assert(stmts_view(transformed@) =~= seq![]);
            let mut idx: usize = 0;
            while idx < stmts.len()
                invariant
                    idx <= stmts@.len(),
                    ss == stmts_view(stmts@),
                    h == horizon(ss),
                    horizon_view(liveness@) == h,
                    *stmt == Stmt::UnsafeBlock(*stmts),
                    c0 == old(ctx)@,
                    whole == check_items(ss, h, CtxV { is_unsafe: true, ..ctx_push(c0) }, 0, seq![]),
                    ctx@.scopes.len() == c0.scopes.len() + 1,
                    ctx@.is_unsafe,
                    check_items(ss, h, ctx@, idx as int, stmts_view(transformed@)) == whole,
                decreases stmts@.len() - idx,
            {
                proof {
                    assert(decreases_to!(*stmt => stmt->UnsafeBlock_0));
                    assert(decreases_to!(*stmts => stmts@));
                    assert(decreases_to!(stmts@ => stmts@[idx as int]));
                    lemma_check_stmt_frame(ss[idx as int], ctx@);
                }
                let ghost c = ctx@;
                let ghost acc = stmts_view(transformed@);
                match check_statement(&stmts[idx], ctx) {
                    Err(m) => {
                        assert(check_items(ss, h, c, idx as int, acc) == check_stmt(ss[idx as int], c));
                        return Err(m);
                    },
                    Ok(mut out) => {
                        let ghost ov = out@;
                        transformed.append(&mut out);
                        assert(stmts_view(transformed@) =~= acc + stmts_view(ov));
                    },
                }
                let ghost c1 = ctx@;
                let ghost base = stmts_view(transformed@);
                assert(base + seq![] =~= base);
                let mut k: usize = 0;
                while k < liveness.len()
                    invariant
                        k <= liveness@.len(),
                        horizon_view(liveness@) == h,
                        idx < stmts@.len(),
                        stmts_view(transformed@) == base + drops_at(c1, h, idx as int, k as int).0,
                        ctx@ == drops_at(c1, h, idx as int, k as int).1,
                    decreases liveness@.len() - k,
                {
                    if liveness[k].1 == idx {
                        match ctx.try_early_drop(liveness[k].0.as_str()) {
                            Some(d) => {
                                let ghost tv = transformed@;
                                transformed.push(d);
                                assert(stmts_view(transformed@) =~= stmts_view(tv).push(d@));
                            },
                            None => {},
                        }
                    }
                    k += 1;
                }
                proof {
                    lemma_drops_at_frame(c1, h, idx as int, h.len() as int);
                }
                idx += 1;
            }
            ctx.is_unsafe = previous_unsafe;
            let scope_vars = ctx.pop_scope();
            let mut fallback_drops = ctx.synthesize_drops_for_scope(scope_vars);
            let ghost tv = transformed@;
            let ghost fv = fallback_drops@;
            transformed.append(&mut fallback_drops);
            assert(stmts_view(transformed@) =~= stmts_view(tv) + stmts_view(fv));
            Ok(single(Stmt::UnsafeBlock(transformed)))
        },
        _ => Ok(single(stmt.copy_stmt())),
    }
}


/// Whether `name` is bound to a resource that is active and affine.
pub open spec fn live_affine(c: CtxV, name: Seq<char>) -> bool {
    ctx_find(c, name) matches Some((i, j)) && c.scopes[i][j].1 matches ResourceState::Active(ty)
        && type_is_affine(ty)
}

proof fn lemma_scope_index_set(sc: ScopeV, j: int, st: ResourceState, name: Seq<char>, k: int)
    requires
        0 <= j < sc.len(),
        0 <= k,
    ensures
        scope_index_from(sc.update(j, (sc[j].0, st)), name, k) == scope_index_from(sc, name, k),
    decreases sc.len() - k,
{
    if k < sc.len() {
        lemma_scope_index_set(sc, j, st, name, k + 1);
    }
}

proof fn lemma_find_from_set(c: CtxV, i: int, j: int, st: ResourceState, name: Seq<char>, n: int)
    requires
        0 <= i < c.scopes.len(),
        0 <= j < c.scopes[i].len(),
        0 <= n <= c.scopes.len(),
    ensures
        ctx_find_from(ctx_set(c, i, j, st).scopes, name, n) == ctx_find_from(c.scopes, name, n),
    decreases n,
{
    if n > 0 {
        if n - 1 == i {
            lemma_scope_index_set(c.scopes[i], j, st, name, 0);
        }
        lemma_find_from_set(c, i, j, st, name, n - 1);
    }
}

/// Changing the state of a binding moves no name: every name is found where it was.
pub proof fn lemma_find_after_set(c: CtxV, i: int, j: int, st: ResourceState, name: Seq<char>)
    requires
        0 <= i < c.scopes.len(),
        0 <= j < c.scopes[i].len(),
    ensures
        ctx_find(ctx_set(c, i, j, st), name) == ctx_find(c, name),
{
    lemma_find_from_set(c, i, j, st, name, c.scopes.len() as int);
}

proof fn lemma_scope_index_push_new(sc: ScopeV, x: (Seq<char>, ResourceState), k: int)
    requires
        0 <= k <= sc.len(),
        scope_index_from(sc, x.0, k) is None,
    ensures
        scope_index_from(sc.push(x), x.0, k) == Some(sc.len() as int),
    decreases sc.len() - k,
{
    if k < sc.len() {
        lemma_scope_index_push_new(sc, x, k + 1);
    }
}

/// A name bound by `let` is found in the innermost scope, active with its type.
pub proof fn lemma_declare_then_find(c: CtxV, name: Seq<char>, ty: Type)
    requires
        c.scopes.len() > 0,
    ensures
        ctx_find(ctx_declare(c, name, ty), name) matches Some((i, j)) && i == c.scopes.len() - 1
            && ctx_declare(c, name, ty).scopes[i][j].1 == ResourceState::Active(ty),
{
    let last = c.scopes.len() - 1;
    let sc = c.scopes[last];
    let d = ctx_declare(c, name, ty);
    lemma_scope_index_bounds(sc, name, 0);
    match scope_index_from(sc, name, 0) {
        Some(j) => {
            assert(sc.update(j, (name, ResourceState::Active(ty))) == sc.update(j, (sc[j].0, ResourceState::Active(ty))));
            lemma_scope_index_set(sc, j, ResourceState::Active(ty), name, 0);
            assert(d.scopes[last] == sc.update(j, (name, ResourceState::Active(ty))));
        },
        None => {
            lemma_scope_index_push_new(sc, (name, ResourceState::Active(ty)), 0);
            assert(d.scopes[last] == sc.push((name, ResourceState::Active(ty))));
        },
    }
}

/// What `let` binds can be read: using the name right after gives its type.
pub proof fn lemma_declared_name_usable(c: CtxV, name: Seq<char>, ty: Type)
    requires
        c.scopes.len() > 0,
    ensures
        ctx_consume(ctx_declare(c, name, ty), name).0 == Ok::<Type, Seq<char>>(ty),
{
    lemma_declare_then_find(c, name, ty);
}

/// An affine resource is used once: the first use gives its type and moves
/// it, and any further use of the name is refused as a use after move.
pub proof fn lemma_affine_used_once(c: CtxV, name: Seq<char>, ty: Type)
    requires
        live_affine(c, name),
        ctx_find(c, name) matches Some((i, j)) && c.scopes[i][j].1 == ResourceState::Active(ty),
    ensures
        ctx_consume(c, name).0 == Ok::<Type, Seq<char>>(ty),
        ctx_consume(ctx_consume(c, name).1, name).0 == Err::<Type, Seq<char>>(msg_use_after_move(name)),
        ctx_consume(ctx_consume(c, name).1, name).1 == ctx_consume(c, name).1,
{
    lemma_find_bounds(c, name);
    let (i, j) = ctx_find(c, name)->Some_0;
    lemma_find_after_set(c, i, j, ResourceState::Moved, name);
}

/// A resource of a copyable type stays active: using it gives its type and
/// changes nothing, so it can be used again.
pub proof fn lemma_copy_used_freely(c: CtxV, name: Seq<char>, ty: Type)
    requires
        !type_is_affine(ty),
        ctx_find(c, name) matches Some((i, j)) && c.scopes[i][j].1 == ResourceState::Active(ty),
    ensures
        ctx_consume(c, name) == (Ok::<Type, Seq<char>>(ty), c),
{
}

/// Dropping is done once: an early drop of a live affine resource gives its
/// `SyntheticDrop`; after it, a second early drop gives nothing and any use
/// of the name is refused as a use after drop.
pub proof fn lemma_early_drop_once(c: CtxV, name: Seq<char>)
    requires
        live_affine(c, name),
    ensures
        ctx_early_drop(c, name).0 == Some(StmtV::SyntheticDrop(name)),
        !live_affine(ctx_early_drop(c, name).1, name),
        ctx_early_drop(ctx_early_drop(c, name).1, name).0 is None,
        ctx_consume(ctx_early_drop(c, name).1, name).0 == Err::<Type, Seq<char>>(msg_use_after_drop(name)),
{
    lemma_find_bounds(c, name);
    let (i, j) = ctx_find(c, name)->Some_0;
    lemma_find_after_set(c, i, j, ResourceState::Dropped, name);
}

/// An early drop only ends resources: a name that was not live and affine
/// before is not after.
proof fn lemma_early_drop_kills_only(c: CtxV, name: Seq<char>, other: Seq<char>)
    requires
        !live_affine(c, other),
    ensures
        !live_affine(ctx_early_drop(c, name).1, other),
{
    lemma_find_bounds(c, name);
    lemma_find_bounds(c, other);
    match ctx_find(c, name) {
        Some((i, j)) => {
            lemma_find_after_set(c, i, j, ResourceState::Dropped, other);
        },
        None => {},
    }
}

/// After the drops that follow a statement, no name whose horizon is that
/// statement is still bound to a live affine resource.
pub proof fn lemma_drops_at_ends_horizon(c: CtxV, h: HorizonV, idx: int, k: int)
    requires
        0 <= k <= h.len(),
    ensures
        forall|m: int| 0 <= m < k && h[m].1 == idx ==> !live_affine(#[trigger] drops_at(c, h, idx, k).1, h[m].0),
    decreases k,
{
    if k > 0 {
        lemma_drops_at_ends_horizon(c, h, idx, k - 1);
        let c1 = drops_at(c, h, idx, k - 1).1;
        if h[k - 1].1 == idx {
            assert forall|m: int| 0 <= m < k && h[m].1 == idx implies !live_affine(
                #[trigger] drops_at(c, h, idx, k).1,
                h[m].0,
            ) by {
                if m < k - 1 {
                    lemma_early_drop_kills_only(c1, h[k - 1].0, h[m].0);
                } else if live_affine(c1, h[m].0) {
                    lemma_early_drop_once(c1, h[m].0);
                } else {
                    lemma_early_drop_kills_only(c1, h[m].0, h[m].0);
                }
            }
        }
    }
}

/// Whether a binding's state is an active affine resource.
pub open spec fn state_live_affine(st: ResourceState) -> bool {
    st matches ResourceState::Active(ty) && type_is_affine(ty)
}

/// The drops of a closed scope are exactly those of its entries that are
/// still active and affine: each such entry has its `SyntheticDrop`, and each
/// drop belongs to such an entry.
pub proof fn lemma_scope_drops_exact(sc: ScopeV)
    ensures
        forall|k: int| 0 <= k < sc.len() && state_live_affine(#[trigger] sc[k].1) ==> scope_drops(sc).contains(
            StmtV::SyntheticDrop(sc[k].0),
        ),
        forall|d: StmtV| #[trigger] scope_drops(sc).contains(d) ==> exists|k: int|
            0 <= k < sc.len() && state_live_affine(sc[k].1) && d == StmtV::SyntheticDrop(#[trigger] sc[k].0),
    decreases sc.len(),
{
    if sc.len() > 0 {
        let pre = sc.drop_last();
        lemma_scope_drops_exact(pre);
        let rest = scope_drops(pre);
        assert forall|k: int| 0 <= k < sc.len() && state_live_affine(#[trigger] sc[k].1) implies scope_drops(
            sc,
        ).contains(StmtV::SyntheticDrop(sc[k].0)) by {
            if k < sc.len() - 1 {
                assert(pre[k] == sc[k]);
                assert(state_live_affine(pre[k].1));
                let w = choose|w: int| 0 <= w < rest.len() && rest[w] == StmtV::SyntheticDrop(pre[k].0);
                if state_live_affine(sc.last().1) {
                    assert(scope_drops(sc)[w] == rest[w]);
                } else {
                    assert(scope_drops(sc) == rest);
                }
            } else {
                assert(scope_drops(sc) == rest.push(StmtV::SyntheticDrop(sc.last().0)));
                assert(scope_drops(sc)[rest.len() as int] == StmtV::SyntheticDrop(sc[k].0));
            }
        }
        assert forall|d: StmtV| #[trigger] scope_drops(sc).contains(d) implies exists|k: int|
            0 <= k < sc.len() && state_live_affine(sc[k].1) && d == StmtV::SyntheticDrop(#[trigger] sc[k].0) by {
            let w = choose|w: int| 0 <= w < scope_drops(sc).len() && scope_drops(sc)[w] == d;
            if w < rest.len() {
                if state_live_affine(sc.last().1) {
                    assert(scope_drops(sc) == rest.push(StmtV::SyntheticDrop(sc.last().0)));
                }
                assert(rest[w] == d);
                assert(rest.contains(d));
                let k = choose|k: int| 0 <= k < pre.len() && state_live_affine(pre[k].1) && d == StmtV::SyntheticDrop(#[trigger] pre[k].0);
                assert(sc[k] == pre[k]);
            } else {
                assert(scope_drops(sc) == rest.push(StmtV::SyntheticDrop(sc.last().0)));
                assert(sc[sc.len() - 1] == sc.last());
            }
        }
    }
}

/// A raw pointer is bound only inside `unsafe`: once its initializer checks,
/// such a `let` is refused outside `unsafe` and accepted unchanged inside.
pub proof fn lemma_raw_binding_needs_unsafe(name: Seq<char>, pointee: Box<Type>, e: ExprV, c: CtxV)
    requires
        check_expr(e, c).0 is Ok,
    ensures
        !c.is_unsafe ==> check_stmt(StmtV::Let(name, Type::RawPtr(pointee), e), c).0 == Err::<Seq<StmtV>, Seq<char>>(
            msg_raw_let(name),
        ),
        c.is_unsafe ==> check_stmt(StmtV::Let(name, Type::RawPtr(pointee), e), c).0 == Ok::<Seq<StmtV>, Seq<char>>(
            seq![StmtV::Let(name, Type::RawPtr(pointee), e)],
        ),
{
    lemma_expr_frame(e, c);
}

/// A block that checks closes its scope with a drop for every resource of
/// that scope still active and affine at its end; the result is one block.
pub proof fn lemma_block_drops_what_remains(ss: Seq<StmtV>, c: CtxV)
    requires
        check_stmt(StmtV::Block(ss), c).0 is Ok,
    ensures
        ({
            let closed = check_items(ss, horizon(ss), ctx_push(c), 0, seq![]).1.scopes.last();
            let out = check_stmt(StmtV::Block(ss), c).0->Ok_0;
            &&& out.len() == 1
            &&& out[0] is Block
            &&& forall|k: int|
                0 <= k < closed.len() && state_live_affine(#[trigger] closed[k].1) ==> out[0]->Block_0.contains(
                    StmtV::SyntheticDrop(closed[k].0),
                )
        }),
{
    let (r, c1) = check_items(ss, horizon(ss), ctx_push(c), 0, seq![]);
    let closed = c1.scopes.last();
    let items = r->Ok_0;
    let body = items + scope_drops(closed);
    lemma_scope_drops_exact(closed);
    assert forall|k: int| 0 <= k < closed.len() && state_live_affine(#[trigger] closed[k].1) implies body.contains(
        StmtV::SyntheticDrop(closed[k].0),
    ) by {
        let d = StmtV::SyntheticDrop(closed[k].0);
        let w = choose|w: int| 0 <= w < scope_drops(closed).len() && scope_drops(closed)[w] == d;
        assert(body[items.len() + w] == d);
    }
}

/// The state that a scope gives a name: that of its entry for the name.
pub open spec fn scope_get(sc: ScopeV, name: Seq<char>) -> Option<ResourceState> {
    match scope_index_from(sc, name, 0) {
        Some(j) => Some(sc[j].1),
        None => None,
    }
}

/// The context after binding `ns[i]` with type `ts[i]`, for `i` below `k`, in order.
pub open spec fn declare_all(c: CtxV, ns: Seq<Seq<char>>, ts: Seq<Type>, k: int) -> CtxV
    decreases k,
{
    if k <= 0 || k > ns.len() || k > ts.len() {
        c
    } else {
        ctx_declare(declare_all(c, ns, ts, k - 1), ns[k - 1], ts[k - 1])
    }
}

/// The type of the last of the first `k` bindings that binds `name`.
pub open spec fn last_binding(ns: Seq<Seq<char>>, ts: Seq<Type>, name: Seq<char>, k: int) -> Option<Type>
    decreases k,
{
    if k <= 0 || k > ns.len() || k > ts.len() {
        None
    } else if ns[k - 1] == name {
        Some(ts[k - 1])
    } else {
        last_binding(ns, ts, name, k - 1)
    }
}

proof fn lemma_scope_index_push_other(sc: ScopeV, x: (Seq<char>, ResourceState), name: Seq<char>, k: int)
    requires
        0 <= k <= sc.len(),
        x.0 != name,
    ensures
        scope_index_from(sc.push(x), name, k) == scope_index_from(sc, name, k),
    decreases sc.len() - k,
{
    if k < sc.len() {
        lemma_scope_index_push_other(sc, x, name, k + 1);
    } else {
        assert(sc.push(x)[k] == x);
        assert(scope_index_from(sc.push(x), name, k + 1) is None);
    }
}

proof fn lemma_scope_distinct_push(sc: ScopeV, x: (Seq<char>, ResourceState))
    requires
        forall|i: int, j: int| 0 <= i < j < sc.len() ==> (#[trigger] sc[i]).0 != (#[trigger] sc[j]).0,
        scope_index_from(sc, x.0, 0) is None,
    ensures
        forall|i: int, j: int| 0 <= i < j < sc.push(x).len() ==> (#[trigger] sc.push(x)[i]).0 != (
        #[trigger] sc.push(x)[j]).0,
{
    assert forall|i: int, j: int| 0 <= i < j < sc.push(x).len() implies (#[trigger] sc.push(x)[i]).0 != (
    #[trigger] sc.push(x)[j]).0 by {
        if j == sc.len() {
            assert(sc.push(x)[i] == sc[i]);
            if sc[i].0 == x.0 {
                lemma_first_index_exists(sc, x.0, 0, i);
            }
        } else {
            assert(sc.push(x)[i] == sc[i] && sc.push(x)[j] == sc[j]);
        }
    }
}

proof fn lemma_first_index_exists(sc: ScopeV, name: Seq<char>, k: int, i: int)
    requires
        0 <= k <= i < sc.len(),
        sc[i].0 == name,
    ensures
        scope_index_from(sc, name, k) is Some,
    decreases i - k,
{
    if sc[k].0 != name {
        lemma_first_index_exists(sc, name, k + 1, i);
    }
}

/// One binding in the innermost scope: the outer scopes and the `unsafe`
/// mode stay, the name gets its new state, every other name keeps its state,
/// and the scope still binds each name at most once.
proof fn lemma_declare_step(c: CtxV, name: Seq<char>, ty: Type)
    requires
        c.scopes.len() > 0,
        forall|i: int, j: int|
            0 <= i < j < c.scopes.last().len() ==> (#[trigger] c.scopes.last()[i]).0 != (
            #[trigger] c.scopes.last()[j]).0,
    ensures
        ctx_declare(c, name, ty).scopes.len() == c.scopes.len(),
        ctx_declare(c, name, ty).scopes.drop_last() == c.scopes.drop_last(),
        ctx_declare(c, name, ty).is_unsafe == c.is_unsafe,
        forall|i: int, j: int|
            0 <= i < j < ctx_declare(c, name, ty).scopes.last().len() ==> (
            #[trigger] ctx_declare(c, name, ty).scopes.last()[i]).0 != (
            #[trigger] ctx_declare(c, name, ty).scopes.last()[j]).0,
        forall|n: Seq<char>|
            #[trigger] scope_get(ctx_declare(c, name, ty).scopes.last(), n) == if n == name {
                Some(ResourceState::Active(ty))
            } else {
                scope_get(c.scopes.last(), n)
            },
{
    let last = c.scopes.len() - 1;
    let sc = c.scopes[last];
    let d = ctx_declare(c, name, ty);
    assert(d.scopes.drop_last() =~= c.scopes.drop_last());
    lemma_scope_index_bounds(sc, name, 0);
    match scope_index_from(sc, name, 0) {
        Some(j) => {
            let sc2 = sc.update(j, (name, ResourceState::Active(ty)));
            assert(d.scopes.last() == sc2);
            assert forall|n: Seq<char>| #[trigger] scope_get(sc2, n) == if n == name {
                Some(ResourceState::Active(ty))
            } else {
                scope_get(sc, n)
            } by {
                lemma_scope_index_set(sc, j, ResourceState::Active(ty), n, 0);
                assert(sc2 == sc.update(j, (sc[j].0, ResourceState::Active(ty))));
                lemma_scope_index_bounds(sc, n, 0);
            }
            assert forall|a: int, b: int| 0 <= a < b < sc2.len() implies (#[trigger] sc2[a]).0 != (#[trigger] sc2[b]).0 by {
                assert(sc2[a].0 == sc[a].0 && sc2[b].0 == sc[b].0);
            }
        },
        None => {
            let x = (name, ResourceState::Active(ty));
            let sc2 = sc.push(x);
            assert(d.scopes.last() == sc2);
            lemma_scope_index_push_new(sc, x, 0);
            assert forall|n: Seq<char>| #[trigger] scope_get(sc2, n) == if n == name {
                Some(ResourceState::Active(ty))
            } else {
                scope_get(sc, n)
            } by {
                if n != name {
                    lemma_scope_index_push_other(sc, x, n, 0);
                    lemma_scope_index_bounds(sc, n, 0);
                }
            }
            lemma_scope_distinct_push(sc, x);
        },
    }
}

proof fn lemma_declare_all(c: CtxV, ns: Seq<Seq<char>>, ts: Seq<Type>, k: int)
    requires
        0 <= k <= ns.len(),
        ns.len() == ts.len(),
    ensures
        declare_all(ctx_push(c), ns, ts, k).scopes.len() == c.scopes.len() + 1,
        declare_all(ctx_push(c), ns, ts, k).scopes.drop_last() == c.scopes,
        declare_all(ctx_push(c), ns, ts, k).is_unsafe == c.is_unsafe,
        forall|i: int, j: int|
            0 <= i < j < declare_all(ctx_push(c), ns, ts, k).scopes.last().len() ==> (
            #[trigger] declare_all(ctx_push(c), ns, ts, k).scopes.last()[i]).0 != (
            #[trigger] declare_all(ctx_push(c), ns, ts, k).scopes.last()[j]).0,
        forall|n: Seq<char>|
            #[trigger] scope_get(declare_all(ctx_push(c), ns, ts, k).scopes.last(), n) == match last_binding(
                ns,
                ts,
                n,
                k,
            ) {
                Some(t) => Some(ResourceState::Active(t)),
                None => None::<ResourceState>,
            },
    decreases k,
{
    if k == 0 {
        assert(ctx_push(c).scopes.drop_last() =~= c.scopes);
        assert forall|n: Seq<char>| #[trigger] scope_get(ctx_push(c).scopes.last(), n) == None::<ResourceState> by {
            assert(ctx_push(c).scopes.last() =~= seq![]);
        }
    } else {
        lemma_declare_all(c, ns, ts, k - 1);
        lemma_declare_step(declare_all(ctx_push(c), ns, ts, k - 1), ns[k - 1], ts[k - 1]);
    }
}

/// Opening a scope, binding names in it and closing it: the closed scope
/// binds exactly the names bound, each once, each active with the type of its
/// last binding, and the context is as it was before.
pub proof fn lemma_scope_round_trip(c: CtxV, ns: Seq<Seq<char>>, ts: Seq<Type>)
    requires
        ns.len() == ts.len(),
    ensures
        ctx_pop(declare_all(ctx_push(c), ns, ts, ns.len() as int)) == c,
        forall|i: int, j: int|
            0 <= i < j < declare_all(ctx_push(c), ns, ts, ns.len() as int).scopes.last().len() ==> (
            #[trigger] declare_all(ctx_push(c), ns, ts, ns.len() as int).scopes.last()[i]).0 != (
            #[trigger] declare_all(ctx_push(c), ns, ts, ns.len() as int).scopes.last()[j]).0,
        forall|n: Seq<char>|
            #[trigger] scope_get(declare_all(ctx_push(c), ns, ts, ns.len() as int).scopes.last(), n) == match last_binding(
                ns,
                ts,
                n,
                ns.len() as int,
            ) {
                Some(t) => Some(ResourceState::Active(t)),
                None => None::<ResourceState>,
            },
{
    lemma_declare_all(c, ns, ts, ns.len() as int);
}

// ---------------------------------------------------------------------------
// No use after a drop
// ---------------------------------------------------------------------------

/// Whether the expression names `x`: read, moved or borrowed, directly or
/// under a dereference or a sum.
pub open spec fn expr_observes(e: ExprV, x: Seq<char>) -> bool
    decreases e,
{
    match e {
        ExprV::Variable(n) => n == x,
        ExprV::Move(n) => n == x,
        ExprV::Borrow(n) => n == x,
        ExprV::BorrowMut(n) => n == x,
        ExprV::Deref(inner) => expr_observes(*inner, x),
        ExprV::Add(l, r) => expr_observes(*l, x) || expr_observes(*r, x),
        _ => false,
    }
}

/// Whether the statement names `x` in an expression: the value of a `let`,
/// either side of an assignment (the target of a store included), the value
/// of a return, or any statement of a nested block. A drop names nothing.
pub open spec fn stmt_observes(s: StmtV, x: Seq<char>) -> bool
    decreases s, 1int,
{
    match s {
        StmtV::Let(_, _, e) => expr_observes(e, x),
        StmtV::Assign(l, r) => expr_observes(l, x) || expr_observes(r, x),
        StmtV::Return(e) => expr_observes(e, x),
        StmtV::Block(ss) => stmts_observe(ss, ss.len() as int, x),
        StmtV::UnsafeBlock(ss) => stmts_observe(ss, ss.len() as int, x),
        StmtV::SyntheticDrop(_) => false,
    }
}

/// Whether one of the first `n` statements names `x`.
pub open spec fn stmts_observe(ss: Seq<StmtV>, n: int, x: Seq<char>) -> bool
    decreases ss, n,
{
    if n <= 0 || n > ss.len() {
        false
    } else {
        stmts_observe(ss, n - 1, x) || stmt_observes(ss[n - 1], x)
    }
}

/// No statement after a drop in `body` names the dropped name.
pub open spec fn no_use_after_drop(body: Seq<StmtV>) -> bool {
    forall|i: int, j: int|
        0 <= i < j < body.len() && (#[trigger] body[i]) is SyntheticDrop ==> !stmt_observes(
            #[trigger] body[j],
            body[i]->SyntheticDrop_0,
        )
}

proof fn lemma_concat_contains<A>(a: Seq<A>, b: Seq<A>, x: A)
    ensures
        (a + b).contains(x) <==> (a.contains(x) || b.contains(x)),
{
    if a.contains(x) {
        let k = choose|k: int| 0 <= k < a.len() && a[k] == x;
        assert((a + b)[k] == x);
    }
    if b.contains(x) {
        let k = choose|k: int| 0 <= k < b.len() && b[k] == x;
        assert((a + b)[a.len() + k] == x);
    }
    if (a + b).contains(x) {
        let k = choose|k: int| 0 <= k < (a + b).len() && (a + b)[k] == x;
        if k < a.len() {
            assert(a[k] == x);
        } else {
            assert(b[k - a.len()] == x);
        }
    }
}

proof fn lemma_expr_uses_observes(e: ExprV, x: Seq<char>)
    ensures
        expr_uses(e).contains(x) <==> expr_observes(e, x),
    decreases e,
{
    match e {
        ExprV::Variable(n) => {
            assert(seq![n][0] == n);
        },
        ExprV::Move(n) => {
            assert(seq![n][0] == n);
        },
        ExprV::Borrow(n) => {
            assert(seq![n][0] == n);
        },
        ExprV::BorrowMut(n) => {
            assert(seq![n][0] == n);
        },
        ExprV::Deref(inner) => lemma_expr_uses_observes(*inner, x),
        ExprV::Add(l, r) => {
            lemma_expr_uses_observes(*l, x);
            lemma_expr_uses_observes(*r, x);
            lemma_concat_contains(expr_uses(*l), expr_uses(*r), x);
        },
        _ => {},
    }
}

proof fn lemma_stmt_uses_observes(s: StmtV, x: Seq<char>)
    ensures
        stmt_uses(s).contains(x) <==> stmt_observes(s, x),
    decreases s, 1int,
{
    match s {
        StmtV::Let(_, _, e) => lemma_expr_uses_observes(e, x),
        StmtV::Assign(l, r) => {
            lemma_expr_uses_observes(l, x);
            lemma_expr_uses_observes(r, x);
            lemma_concat_contains(expr_uses(l), expr_uses(r), x);
        },
        StmtV::Return(e) => lemma_expr_uses_observes(e, x),
        StmtV::Block(ss) => lemma_stmts_uses_observe(ss, ss.len() as int, x),
        StmtV::UnsafeBlock(ss) => lemma_stmts_uses_observe(ss, ss.len() as int, x),
        StmtV::SyntheticDrop(_) => {},
    }
}

proof fn lemma_stmts_uses_observe(ss: Seq<StmtV>, n: int, x: Seq<char>)
    ensures
        stmts_uses(ss, n).contains(x) <==> stmts_observe(ss, n, x),
    decreases ss, n,
{
    if 0 < n <= ss.len() {
        lemma_stmts_uses_observe(ss, n - 1, x);
        lemma_stmt_uses_observes(ss[n - 1], x);
        lemma_concat_contains(stmts_uses(ss, n - 1), stmt_uses(ss[n - 1]), x);
    }
}

proof fn lemma_stmts_observe_exists(ss: Seq<StmtV>, n: int, x: Seq<char>)
    requires
        0 <= n <= ss.len(),
    ensures
        stmts_observe(ss, n, x) <==> exists|j: int| 0 <= j < n && stmt_observes(#[trigger] ss[j], x),
    decreases n,
{
    if n > 0 {
        lemma_stmts_observe_exists(ss, n - 1, x);
        if exists|j: int| 0 <= j < n && stmt_observes(#[trigger] ss[j], x) {
            let j = choose|j: int| 0 <= j < n && stmt_observes(#[trigger] ss[j], x);
            if j < n - 1 {
                assert(stmt_observes(ss[j], x));
            }
        }
    }
}

// Horizons.

/// Each name occurs once in the horizon.
pub open spec fn horizon_unique(h: HorizonV) -> bool {
    forall|a: int, b: int| 0 <= a < b < h.len() ==> (#[trigger] h[a]).0 != (#[trigger] h[b]).0
}

proof fn lemma_hidx(h: HorizonV, name: Seq<char>, k: int)
    requires
        0 <= k,
    ensures
        horizon_index_from(h, name, k) matches Some(m) ==> k <= m < h.len() && h[m].0 == name,
        horizon_index_from(h, name, k) is None ==> forall|j: int| k <= j < h.len() ==> (#[trigger] h[j]).0 != name,
    decreases h.len() - k,
{
    if k < h.len() && h[k].0 != name {
        lemma_hidx(h, name, k + 1);
    }
}

proof fn lemma_horizon_set_facts(h: HorizonV, name: Seq<char>, idx: int)
    requires
        horizon_unique(h),
    ensures
        horizon_unique(horizon_set(h, name, idx)),
        horizon_set(h, name, idx).len() >= h.len(),
        forall|k: int|
            0 <= k < horizon_set(h, name, idx).len() ==> if (#[trigger] horizon_set(h, name, idx)[k]).0 == name {
                horizon_set(h, name, idx)[k].1 == idx
            } else {
                k < h.len() && horizon_set(h, name, idx)[k] == h[k]
            },
{
    lemma_hidx(h, name, 0);
    let r = horizon_set(h, name, idx);
    match horizon_index_from(h, name, 0) {
        Some(m) => {
            assert forall|a: int, b: int| 0 <= a < b < r.len() implies (#[trigger] r[a]).0 != (#[trigger] r[b]).0 by {
                assert(r[a].0 == h[a].0 && r[b].0 == h[b].0);
            }
            assert forall|k: int| 0 <= k < r.len() implies if (#[trigger] r[k]).0 == name {
                r[k].1 == idx
            } else {
                k < h.len() && r[k] == h[k]
            } by {
                if k != m {
                    assert(r[k] == h[k]);
                    if h[k].0 == name {
                        assert(h[m].0 == name);
                    }
                }
            }
        },
        None => {
            assert forall|a: int, b: int| 0 <= a < b < r.len() implies (#[trigger] r[a]).0 != (#[trigger] r[b]).0 by {
                assert(r[a] == h[a]);
                if b < h.len() {
                    assert(r[b] == h[b]);
                }
            }
            assert forall|k: int| 0 <= k < r.len() implies if (#[trigger] r[k]).0 == name {
                r[k].1 == idx
            } else {
                k < h.len() && r[k] == h[k]
            } by {
                if k < h.len() {
                    assert(r[k] == h[k]);
                }
            }
        },
    }
}

proof fn lemma_horizon_set_all_facts(h: HorizonV, names: Seq<Seq<char>>, idx: int, m: int)
    requires
        horizon_unique(h),
        0 <= m <= names.len(),
    ensures
        horizon_unique(horizon_set_all(h, names, idx, m)),
        forall|k: int|
            0 <= k < horizon_set_all(h, names, idx, m).len() ==> if names.take(m).contains(
                (#[trigger] horizon_set_all(h, names, idx, m)[k]).0,
            ) {
                horizon_set_all(h, names, idx, m)[k].1 == idx
            } else {
                k < h.len() && horizon_set_all(h, names, idx, m)[k] == h[k]
            },
    decreases m,
{
    if m == 0 {
        assert(names.take(0) =~= seq![]);
    } else {
        lemma_horizon_set_all_facts(h, names, idx, m - 1);
        let prev = horizon_set_all(h, names, idx, m - 1);
        lemma_horizon_set_facts(prev, names[m - 1], idx);
        let r = horizon_set_all(h, names, idx, m);
        assert(names.take(m) =~= names.take(m - 1).push(names[m - 1]));
        assert forall|k: int| 0 <= k < r.len() implies if names.take(m).contains((#[trigger] r[k]).0) {
            r[k].1 == idx
        } else {
            k < h.len() && r[k] == h[k]
        } by {
            if r[k].0 == names[m - 1] {
                assert(names.take(m)[m - 1] == names[m - 1]);
            } else {
                assert(k < prev.len() && r[k] == prev[k]);
                let y = r[k].0;
                let pre = names.take(m - 1);
                if names.take(m).contains(y) {
                    let w = choose|w: int| 0 <= w < names.take(m).len() && names.take(m)[w] == y;
                    assert(w != m - 1);
                    assert(pre[w] == y);
                }
                if pre.contains(y) {
                    let w = choose|w: int| 0 <= w < pre.len() && pre[w] == y;
                    assert(names.take(m)[w] == y);
                }
            }
        }
    }
}

/// The horizon of the first `n` statements: each name once, and each at an
/// index below `n` after which none of the first `n` statements uses it.
pub open spec fn horizon_sound(ss: Seq<StmtV>, n: int, h: HorizonV) -> bool {
    &&& horizon_unique(h)
    &&& forall|k: int| 0 <= k < h.len() ==> 0 <= (#[trigger] h[k]).1 < n
    &&& forall|k: int, j: int|
        0 <= k < h.len() && (#[trigger] h[k]).1 < j < n ==> !stmt_uses(#[trigger] ss[j]).contains(h[k].0)
}

proof fn lemma_horizon_upto_sound(ss: Seq<StmtV>, n: int)
    requires
        0 <= n <= ss.len(),
    ensures
        horizon_sound(ss, n, horizon_upto(ss, n)),
    decreases n,
{
    if n > 0 {
        lemma_horizon_upto_sound(ss, n - 1);
        let h = horizon_upto(ss, n - 1);
        let idx = n - 1;
        let h1 = match ss[idx] {
            StmtV::Let(name, _, _) => horizon_add(h, name, idx),
            _ => h,
        };
        // h1: h, or h with one new name at index idx.
        assert(horizon_unique(h1) && h1.len() >= h.len() && forall|k: int|
            0 <= k < h1.len() ==> (k < h.len() && #[trigger] h1[k] == h[k]) || h1[k].1 == idx) by {
            if let StmtV::Let(name, _, _) = ss[idx] {
                lemma_hidx(h, name, 0);
                if horizon_index_from(h, name, 0) is None {
                    assert forall|a: int, b: int| 0 <= a < b < h1.len() implies (#[trigger] h1[a]).0 != (
                    #[trigger] h1[b]).0 by {
                        assert(h1[a] == h[a]);
                        if b < h.len() {
                            assert(h1[b] == h[b]);
                        }
                    }
                    assert forall|k: int| 0 <= k < h1.len() implies (k < h.len() && #[trigger] h1[k] == h[k])
                        || h1[k].1 == idx by {
                        if k < h.len() {
                            assert(h1[k] == h[k]);
                        }
                    }
                }
            }
        }
        let u = stmt_uses(ss[idx]);
        lemma_horizon_set_all_facts(h1, u, idx, u.len() as int);
        let h2 = horizon_upto(ss, n);
        assert(u.take(u.len() as int) =~= u);
        assert(h2 == horizon_set_all(h1, u, idx, u.len() as int));
        assert forall|k: int| 0 <= k < h2.len() implies 0 <= (#[trigger] h2[k]).1 < n by {
            if !u.contains(h2[k].0) {
                assert(h2[k] == h1[k]);
                if k < h.len() && h1[k] == h[k] {
                    assert(h[k] == h[k]);
                }
            }
        }
        assert forall|k: int, j: int| 0 <= k < h2.len() && (#[trigger] h2[k]).1 < j < n implies !stmt_uses(
            #[trigger] ss[j],
        ).contains(h2[k].0) by {
            assert(!u.contains(h2[k].0));
            assert(h2[k] == h1[k]);
            assert(k < h.len() && h1[k] == h[k]);
            assert(h[k] == h[k]);
        }
    }
}

proof fn lemma_drops_at_names(c: CtxV, h: HorizonV, idx: int, k: int)
    requires
        0 <= k <= h.len(),
    ensures
        forall|i: int|
            0 <= i < drops_at(c, h, idx, k).0.len() ==> (#[trigger] drops_at(c, h, idx, k).0[i]) is SyntheticDrop
                && exists|m: int|
                0 <= m < k && (#[trigger] h[m]).1 == idx && drops_at(c, h, idx, k).0[i]->SyntheticDrop_0 == h[m].0,
    decreases k,
{
    if k > 0 {
        lemma_drops_at_names(c, h, idx, k - 1);
        let (d, c1) = drops_at(c, h, idx, k - 1);
        let dk = drops_at(c, h, idx, k).0;
        assert forall|i: int| 0 <= i < dk.len() implies (#[trigger] dk[i]) is SyntheticDrop && exists|m: int|
            0 <= m < k && (#[trigger] h[m]).1 == idx && dk[i]->SyntheticDrop_0 == h[m].0 by {
            if i < d.len() {
                assert(dk[i] == d[i]);
                let m = choose|m: int| 0 <= m < k - 1 && (#[trigger] h[m]).1 == idx && d[i]->SyntheticDrop_0 == h[m].0;
                assert(h[m] == h[m]);
            } else {
                assert(h[k - 1] == h[k - 1]);
            }
        }
    }
}

/// What checking a statement gives is one statement, a drop only if the
/// statement was one, that names nothing that the statement does not name.
proof fn lemma_checked_stmt_observes(s: StmtV, c: CtxV, x: Seq<char>)
    ensures
        check_stmt(s, c).0 matches Ok(out) ==> out.len() == 1 && (out[0] is SyntheticDrop ==> s is SyntheticDrop) && (
        stmt_observes(out[0], x) ==> stmt_observes(s, x)),
    decreases s, 0int,
{
    match s {
        StmtV::Block(ss) => {
            let (r, c1) = check_items(ss, horizon(ss), ctx_push(c), 0, seq![]);
            lemma_checked_items_observe(ss, horizon(ss), ctx_push(c), 0, seq![], x);
            if let Ok(items) = r {
                lemma_drops_observe_nothing(c1.scopes.last(), x);
                lemma_closed_drops_observe(items, scope_drops(c1.scopes.last()), ss, x);
            }
        },
        StmtV::UnsafeBlock(ss) => {
            let inner = CtxV { is_unsafe: true, ..ctx_push(c) };
            let (r, c1) = check_items(ss, horizon(ss), inner, 0, seq![]);
            lemma_checked_items_observe(ss, horizon(ss), inner, 0, seq![], x);
            if let Ok(items) = r {
                lemma_drops_observe_nothing(c1.scopes.last(), x);
                lemma_closed_drops_observe(items, scope_drops(c1.scopes.last()), ss, x);
            }
        },
        _ => {},
    }
}

proof fn lemma_drops_observe_nothing(sc: ScopeV, x: Seq<char>)
    ensures
        forall|i: int| 0 <= i < scope_drops(sc).len() ==> !stmt_observes(#[trigger] scope_drops(sc)[i], x),
{
    lemma_scope_drops_exact(sc);
    assert forall|i: int| 0 <= i < scope_drops(sc).len() implies !stmt_observes(#[trigger] scope_drops(sc)[i], x) by {
        assert(scope_drops(sc).contains(scope_drops(sc)[i]));
    }
}

proof fn lemma_closed_drops_observe(items: Seq<StmtV>, drops: Seq<StmtV>, ss: Seq<StmtV>, x: Seq<char>)
    requires
        forall|i: int| 0 <= i < drops.len() ==> !stmt_observes(#[trigger] drops[i], x),
        forall|k: int| 0 <= k < items.len() && stmt_observes(#[trigger] items[k], x) ==> exists|j: int|
            0 <= j < ss.len() && stmt_observes(#[trigger] ss[j], x),
    ensures
        stmts_observe(items + drops, (items + drops).len() as int, x) ==> stmts_observe(ss, ss.len() as int, x),
{
    let all = items + drops;
    lemma_stmts_observe_exists(all, all.len() as int, x);
    lemma_stmts_observe_exists(ss, ss.len() as int, x);
    if stmts_observe(all, all.len() as int, x) {
        let k = choose|k: int| 0 <= k < all.len() && stmt_observes(#[trigger] all[k], x);
        if k < items.len() {
            assert(all[k] == items[k]);
        } else {
            assert(all[k] == drops[k - items.len()]);
        }
    }
}

/// The statements that checking a block from `idx` adds after `acc` are
/// drops, or name only what some statement from `idx` on names.
proof fn lemma_checked_items_observe(ss: Seq<StmtV>, h: HorizonV, c: CtxV, idx: int, acc: Seq<StmtV>, x: Seq<char>)
    requires
        0 <= idx,
    ensures
        check_items(ss, h, c, idx, acc).0 matches Ok(out) ==> out.len() >= acc.len() && out.take(acc.len() as int)
            == acc && forall|k: int|
            acc.len() <= k < out.len() && stmt_observes(#[trigger] out[k], x) ==> exists|j: int|
                idx <= j < ss.len() && stmt_observes(#[trigger] ss[j], x),
        check_items(ss, h, c, idx, acc).0 matches Ok(out) ==> forall|k: int|
            0 <= k < out.len() && stmt_observes(#[trigger] out[k], x) ==> (k < acc.len() && stmt_observes(acc[k], x))
                || exists|j: int| idx <= j < ss.len() && stmt_observes(#[trigger] ss[j], x),
    decreases ss, ss.len() - idx,
{
    if idx < ss.len() {
        lemma_checked_stmt_observes(ss[idx], c, x);
        let (r, c1) = check_stmt(ss[idx], c);
        if let Ok(o) = r {
            let (d, c2) = drops_at(c1, h, idx, h.len() as int);
            lemma_drops_at_names(c1, h, idx, h.len() as int);
            let acc2 = acc + o + d;
            lemma_checked_items_observe(ss, h, c2, idx + 1, acc2, x);
            if let Ok(out) = check_items(ss, h, c, idx, acc).0 {
                assert(check_items(ss, h, c, idx, acc).0 == check_items(ss, h, c2, idx + 1, acc2).0);
                assert(out.take(acc2.len() as int) == acc2);
                assert(out.take(acc.len() as int) =~= acc2.take(acc.len() as int));
                assert(acc2.take(acc.len() as int) =~= acc);
                assert forall|k: int| 0 <= k < out.len() && stmt_observes(#[trigger] out[k], x) implies (k < acc.len()
                    && stmt_observes(acc[k], x)) || exists|j: int| idx <= j < ss.len() && stmt_observes(#[trigger] ss[j], x) by {
                    if k < acc2.len() {
                        assert(out[k] == out.take(acc2.len() as int)[k]);
                        assert(out[k] == acc2[k]);
                        if k < acc.len() {
                            assert(acc2[k] == acc[k]);
                        } else if k < acc.len() + 1 {
                            assert(acc2[k] == o[0]);
                            assert(stmt_observes(ss[idx], x));
                        } else {
                            assert(acc2[k] == d[k - acc.len() - 1]);
                            assert(d[k - acc.len() - 1] is SyntheticDrop);
                        }
                    } else {
                        let j = choose|j: int| idx + 1 <= j < ss.len() && stmt_observes(#[trigger] ss[j], x);
                    }
                }
            }
        }
    } else {
        if let Ok(out) = check_items(ss, h, c, idx, acc).0 {
            assert(out == acc);
            assert(out.take(acc.len() as int) =~= acc);
        }
    }
}

/// The statements of a block or an `unsafe` block (none for other statements).
pub open spec fn block_body(s: StmtV) -> Seq<StmtV> {
    match s {
        StmtV::Block(ss) => ss,
        StmtV::UnsafeBlock(ss) => ss,
        _ => seq![],
    }
}

/// None of the statements is a drop.
pub open spec fn holds_no_drop(ss: Seq<StmtV>) -> bool {
    forall|j: int| 0 <= j < ss.len() ==> !((#[trigger] ss[j]) is SyntheticDrop)
}

/// Every drop in `acc` is of a name that no statement of `ss` from `idx` on names.
pub open spec fn drops_unused_from(acc: Seq<StmtV>, ss: Seq<StmtV>, idx: int) -> bool {
    forall|i: int, j: int|
        0 <= i < acc.len() && idx <= j < ss.len() && (#[trigger] acc[i]) is SyntheticDrop ==> !stmt_observes(
            #[trigger] ss[j],
            acc[i]->SyntheticDrop_0,
        )
}

proof fn lemma_items_no_use_after_drop(ss: Seq<StmtV>, c: CtxV, idx: int, acc: Seq<StmtV>)
    requires
        0 <= idx <= ss.len(),
        horizon_sound(ss, ss.len() as int, horizon(ss)),
        no_use_after_drop(acc),
        drops_unused_from(acc, ss, idx),
        holds_no_drop(ss),
    ensures
        check_items(ss, horizon(ss), c, idx, acc).0 matches Ok(out) ==> no_use_after_drop(out),
    decreases ss.len() - idx,
{
    let h = horizon(ss);
    if idx < ss.len() {
        let (r, c1) = check_stmt(ss[idx], c);
        if let Ok(o) = r {
            assert forall|x: Seq<char>| stmt_observes(o[0], x) implies stmt_observes(ss[idx], x) by {
                lemma_checked_stmt_observes(ss[idx], c, x);
            }
            lemma_checked_stmt_observes(ss[idx], c, seq![]);
            assert(!(ss[idx] is SyntheticDrop));
            let (d, c2) = drops_at(c1, h, idx, h.len() as int);
            lemma_drops_at_names(c1, h, idx, h.len() as int);
            let acc2 = acc + o + d;
            let n0 = acc.len() as int;
            assert forall|i: int, j: int|
                0 <= i < j < acc2.len() && (#[trigger] acc2[i]) is SyntheticDrop implies !stmt_observes(
                #[trigger] acc2[j],
                acc2[i]->SyntheticDrop_0,
            ) by {
                if j > n0 {
                    assert(acc2[j] == d[j - n0 - 1]);
                    assert(d[j - n0 - 1] is SyntheticDrop);
                } else if j == n0 {
                    assert(acc2[i] == acc[i]);
                    assert(acc2[j] == o[0]);
                    assert(!stmt_observes(ss[idx], acc[i]->SyntheticDrop_0));
                } else {
                    assert(acc2[i] == acc[i] && acc2[j] == acc[j]);
                }
            }
            assert forall|i: int, j: int|
                0 <= i < acc2.len() && idx + 1 <= j < ss.len() && (#[trigger] acc2[i]) is SyntheticDrop implies !stmt_observes(
                #[trigger] ss[j],
                acc2[i]->SyntheticDrop_0,
            ) by {
                if i < n0 {
                    assert(acc2[i] == acc[i]);
                } else if i == n0 {
                    assert(acc2[i] == o[0]);
                } else {
                    assert(acc2[i] == d[i - n0 - 1]);
                    let m = choose|m: int|
                        0 <= m < h.len() && (#[trigger] h[m]).1 == idx && d[i - n0 - 1]->SyntheticDrop_0 == h[m].0;
                    assert(!stmt_uses(ss[j]).contains(h[m].0));
                    lemma_stmt_uses_observes(ss[j], h[m].0);
                }
            }
            lemma_items_no_use_after_drop(ss, c2, idx + 1, acc2);
        }
    }
}

/// In a checked block, no statement comes after the drop of a name that it
/// names: every statement of the block that names `x` (on either side of an
/// assignment, or inside a nested block) precedes the drop of `x`. This holds
/// of blocks written in source, which hold no drops of their own.
pub proof fn lemma_no_use_after_drop(s: StmtV, c: CtxV)
    requires
        s is Block || s is UnsafeBlock,
        check_stmt(s, c).0 is Ok,
        holds_no_drop(block_body(s)),
    ensures
        ({
            let out = check_stmt(s, c).0->Ok_0;
            &&& out.len() == 1
            &&& (s is Block ==> out[0] is Block && no_use_after_drop(out[0]->Block_0))
            &&& (s is UnsafeBlock ==> out[0] is UnsafeBlock && no_use_after_drop(out[0]->UnsafeBlock_0))
        }),
{
    let ss = block_body(s);
    let inner = if s is Block { ctx_push(c) } else { CtxV { is_unsafe: true, ..ctx_push(c) } };
    lemma_horizon_upto_sound(ss, ss.len() as int);
    lemma_items_no_use_after_drop(ss, inner, 0, seq![]);
    let (r, c1) = check_items(ss, horizon(ss), inner, 0, seq![]);
    let items = r->Ok_0;
    let drops = scope_drops(c1.scopes.last());
    let body = items + drops;
    assert forall|i: int, j: int| 0 <= i < j < body.len() && (#[trigger] body[i]) is SyntheticDrop implies !stmt_observes(
        #[trigger] body[j],
        body[i]->SyntheticDrop_0,
    ) by {
        if j >= items.len() {
            lemma_drops_observe_nothing(c1.scopes.last(), body[i]->SyntheticDrop_0);
            assert(body[j] == drops[j - items.len()]);
        } else {
            assert(body[i] == items[i] && body[j] == items[j]);
        }
    }
}

} // verus!
