//! The symbol table: a tree of lexical scopes, each binding names to the
//! expressions that declared them.
//!
//! Scope identifiers are handed out in order, so a scope's parent always has a
//! smaller identifier than the scope itself: the parent links form a tree
//! rooted at the global scope 0.
use std::collections::HashMap;
use vstd::prelude::*;
use crate::ast::{Expression, ExprModel, Identifier, expr_model};

verus! {

/// A scope identifier.
pub type Sid = u64;

#[derive(Debug)]
pub enum SymbolTableError {
    /// The scope does not exist.
    Scope(Sid),
    /// The name is already declared in that very scope.
    Redeclare(Identifier),
    /// The name is declared neither in the scope nor in any of its ancestors.
    Unknown(Identifier, Sid),
}

/// What a name is bound to.
#[derive(Debug)]
pub struct Variable {
    pub expression: Expression,
}

impl Variable {
    pub fn new(expression: Expression) -> (r: Variable)
        ensures
            r.expression == expression,
    {
        Variable { expression }
    }
}

#[derive(Debug)]
struct Binding {
    sid: Sid,
    name: String,
    variable: Variable,
}

pub struct SymbolTable {
    /// The parent of each scope, by scope identifier.
    scopes: HashMap<Sid, Option<Sid>>,
    /// The same parents, in order of scope identifier.
    parents: Ghost<Seq<Option<nat>>>,
    bindings: Vec<Binding>,
}

pub struct BindingModel {
    pub scope: nat,
    pub name: Seq<char>,
    pub value: ExprModel,
}

/// The model of a symbol table: the parent of each scope, and the bindings in
/// the order they were declared.
pub struct TableModel {
    pub parents: Seq<Option<nat>>,
    pub bindings: Seq<BindingModel>,
}

impl TableModel {
    pub open spec fn wf(self) -> bool {
        &&& self.parents.len() >= 1
        &&& self.parents[0] is None
        &&& forall|s: int| 1 <= s < self.parents.len() ==> (#[trigger] self.parents[s] is Some) && self.parents[s]->0 < s
        &&& forall|i: int| 0 <= i < self.bindings.len() ==> #[trigger] self.bindings[i].scope < self.parents.len()
        &&& forall|i: int, j: int|
            0 <= i < self.bindings.len() && 0 <= j < self.bindings.len() && i != j
                && #[trigger] self.bindings[i].scope == #[trigger] self.bindings[j].scope
                ==> self.bindings[i].name != self.bindings[j].name
    }

    pub open spec fn has_scope(self, s: nat) -> bool {
        s < self.parents.len()
    }

    /// Whether `name` is declared in scope `s` itself.
    pub open spec fn declares(self, s: nat, name: Seq<char>) -> bool {
        exists|i: int| 0 <= i < self.bindings.len() && #[trigger] self.bindings[i].scope == s && self.bindings[i].name == name
    }

    /// What `name` is bound to in scope `s` itself.
    pub open spec fn value_in(self, s: nat, name: Seq<char>) -> ExprModel {
        let i = choose|i: int| 0 <= i < self.bindings.len() && #[trigger] self.bindings[i].scope == s && self.bindings[i].name == name;
        self.bindings[i].value
    }

    /// The nearest scope, starting at `s` and going up through the parents, that declares `name`.
    pub open spec fn resolve(self, s: nat, name: Seq<char>) -> Option<nat>
        decreases s,
    {
        if !self.has_scope(s) {
            None
        } else if self.declares(s, name) {
            Some(s)
        } else {
            match self.parents[s as int] {
                Some(p) => if p < s { self.resolve(p, name) } else { None },
                None => None,
            }
        }
    }

    /// What `name` means in scope `s`.
    pub open spec fn lookup(self, s: nat, name: Seq<char>) -> Option<ExprModel> {
        match self.resolve(s, name) {
            Some(k) => Some(self.value_in(k, name)),
            None => None,
        }
    }

    /// The table with one more scope, whose parent is `p`.
    pub open spec fn with_subscope(self, p: nat) -> TableModel {
        TableModel { parents: self.parents.push(Some(p)), bindings: self.bindings }
    }

    /// The table with `name` bound to `value` in scope `s`.
    pub open spec fn declared(self, s: nat, name: Seq<char>, value: ExprModel) -> TableModel {
        TableModel { parents: self.parents, bindings: self.bindings.push(BindingModel { scope: s, name, value }) }
    }
}

/// Adding a binding for a name that scope `s` does not declare yet keeps the
/// table well formed; in the new table `s` binds the name to `value`, and every
/// other scope and name keeps its binding.
pub proof fn lemma_declared(t: TableModel, s: nat, name: Seq<char>, value: ExprModel)
    requires
        t.wf(),
        t.has_scope(s),
        !t.declares(s, name),
    ensures
        t.declared(s, name, value).wf(),
        t.declared(s, name, value).declares(s, name),
        t.declared(s, name, value).value_in(s, name) == value,
        forall|s2: nat, n2: Seq<char>| !(s2 == s && n2 == name) ==> (
            #[trigger] t.declared(s, name, value).declares(s2, n2) == t.declares(s2, n2)
            && (t.declares(s2, n2) ==> t.declared(s, name, value).value_in(s2, n2) == t.value_in(s2, n2))),
{
    let t1 = t.declared(s, name, value);
    let last = t.bindings.len() as int;
    assert(t1.bindings[last].scope == s);
    assert forall|i: int, j: int|
        0 <= i < t1.bindings.len() && 0 <= j < t1.bindings.len() && i != j
            && #[trigger] t1.bindings[i].scope == #[trigger] t1.bindings[j].scope
            implies t1.bindings[i].name != t1.bindings[j].name by {
        if i == last {
            assert(t.bindings[j].scope == s);
        } else if j == last {
            assert(t.bindings[i].scope == s);
        }
    }
    assert forall|i: int| 0 <= i < t1.bindings.len() implies #[trigger] t1.bindings[i].scope < t1.parents.len() by {
        if i < last {
            assert(t.bindings[i].scope < t.parents.len());
        }
    }
    let k = choose|i: int| 0 <= i < t1.bindings.len() && #[trigger] t1.bindings[i].scope == s && t1.bindings[i].name == name;
    assert(k == last);
    assert forall|s2: nat, n2: Seq<char>| !(s2 == s && n2 == name) implies (
        #[trigger] t1.declares(s2, n2) == t.declares(s2, n2)
        && (t.declares(s2, n2) ==> t1.value_in(s2, n2) == t.value_in(s2, n2))) by {
        if t.declares(s2, n2) {
            let i = choose|i: int| 0 <= i < t.bindings.len() && #[trigger] t.bindings[i].scope == s2 && t.bindings[i].name == n2;
            assert(t1.bindings[i].scope == s2);
            let j = choose|j: int| 0 <= j < t1.bindings.len() && #[trigger] t1.bindings[j].scope == s2 && t1.bindings[j].name == n2;
            assert(j != last);
            assert(t.bindings[j].scope == s2);
        }
        if t1.declares(s2, n2) {
            let j = choose|j: int| 0 <= j < t1.bindings.len() && #[trigger] t1.bindings[j].scope == s2 && t1.bindings[j].name == n2;
            assert(t.bindings[j].scope == s2);
        }
    }
}

/// Once a name is declared in a scope, declaring it there again is refused
/// (the scope already declares it), and the name keeps its first binding.
pub proof fn lemma_redeclare_refused(t: TableModel, s: nat, name: Seq<char>, first: ExprModel)
    requires
        t.wf(),
        t.has_scope(s),
        !t.declares(s, name),
    ensures
        t.declared(s, name, first).declares(s, name),
        t.declared(s, name, first).lookup(s, name) == Some(first),
{
    lemma_declared(t, s, name, first);
}

/// A name declared in a scope and again in a child of it: the child sees its
/// own binding, the parent keeps the first one.
pub proof fn lemma_shadowing(t: TableModel, parent: nat, child: nat, name: Seq<char>, outer: ExprModel, inner: ExprModel)
    requires
        t.wf(),
        t.has_scope(child),
        t.parents[child as int] == Some(parent),
        !t.declares(parent, name),
        !t.declares(child, name),
    ensures
        t.declared(parent, name, outer).declared(child, name, inner).wf(),
        t.declared(parent, name, outer).declared(child, name, inner).lookup(child, name) == Some(inner),
        t.declared(parent, name, outer).declared(child, name, inner).lookup(parent, name) == Some(outer),
{
    assert(child != 0);
    assert(parent < child);
    lemma_declared(t, parent, name, outer);
    let t1 = t.declared(parent, name, outer);
    assert(t1.declares(child, name) == t.declares(child, name));
    lemma_declared(t1, child, name, inner);
    let t2 = t1.declared(child, name, inner);
    assert(t2.declares(parent, name));
    assert(t2.value_in(parent, name) == outer);
}

/// A name that no scope declares is unknown everywhere.
pub proof fn lemma_undeclared_unknown(t: TableModel, s: nat, name: Seq<char>)
    requires
        t.wf(),
        forall|k: nat| !t.declares(k, name),
    ensures
        t.lookup(s, name) is None,
    decreases s,
{
    if t.has_scope(s) {
        match t.parents[s as int] {
            Some(p) => {
                if p < s {
                    lemma_undeclared_unknown(t, p, name);
                }
            },
            None => {},
        }
    }
}

/// With scopes global 0, then `a` inside it, then `b` inside `a`: a name
/// declared in `a` alone is found from `a` and from `b`, and not from the
/// global scope.
pub proof fn lemma_lookup_through_ancestors(t: TableModel, a: nat, b: nat, name: Seq<char>, value: ExprModel)
    requires
        t.wf(),
        t.has_scope(b),
        t.parents[a as int] == Some(0nat),
        t.parents[b as int] == Some(a),
        forall|k: nat| !t.declares(k, name),
    ensures
        t.declared(a, name, value).lookup(a, name) == Some(value),
        t.declared(a, name, value).lookup(b, name) == Some(value),
        t.declared(a, name, value).lookup(0, name) is None,
{
    assert(a < b);
    assert(a != 0);
    lemma_declared(t, a, name, value);
    let t1 = t.declared(a, name, value);
    assert(t1.declares(b, name) == t.declares(b, name));
    assert(t1.declares(0, name) == t.declares(0, name));
    assert(t1.resolve(a, name) == Some(a));
    assert(t1.resolve(b, name) == t1.resolve(a, name));
}

impl View for SymbolTable {
    type V = TableModel;

    closed spec fn view(&self) -> TableModel {
        TableModel {
            parents: self.parents@,
            bindings: self.bindings@.map_values(|b: Binding| BindingModel {
                scope: b.sid as nat,
                name: b.name@,
                value: expr_model(b.variable.expression),
            }),
        }
    }
}

/// The map of parents holds exactly the scopes `0..parents.len()`, with the
/// parents that the sequence gives.
spec fn map_matches(m: Map<Sid, Option<Sid>>, parents: Seq<Option<nat>>) -> bool {
    &&& m.dom().finite()
    &&& m.len() == parents.len()
    &&& forall|k: Sid| #[trigger] m.contains_key(k) == (k < parents.len())
    &&& forall|k: Sid| k < parents.len() ==> match #[trigger] m[k] {
        Some(q) => parents[k as int] == Some(q as nat),
        None => parents[k as int] is None,
    }
}

impl SymbolTable {
    /// A table holding the global scope 0 alone, with no names.
    pub fn new() -> (r: SymbolTable)
        ensures
            r.wf(),
            r@.parents == seq![None::<nat>],
            r@.bindings.len() == 0,
    {
        broadcast use vstd::std_specs::hash::group_hash_axioms;
        let mut scopes: HashMap<Sid, Option<Sid>> = HashMap::new();
        scopes.insert(0, None);
        let ghost first: Seq<Option<nat>> = seq![None::<nat>];
        let r = SymbolTable { scopes, parents: Ghost(first), bindings: Vec::new() };
        proof {
            assert(r.scopes@.dom() =~= set![0u64]);
            assert(r.scopes@.len() == 1) by {
                assert(set![0u64].len() == 1);
            }
            assert(r@.bindings =~= Seq::<BindingModel>::empty());
        }
        r
    }

    /// The table's model is well formed, and its map of parents agrees with it.
    pub open spec fn wf(&self) -> bool {
        self@.wf() && self.maps_agree()
    }

    pub closed spec fn maps_agree(&self) -> bool {
        map_matches(self.scopes@, self.parents@)
    }

    /// The number of scopes.
    pub fn len(&self) -> (r: usize)
        requires
            self.wf(),
        ensures
            r == self@.parents.len(),
    {
        broadcast use vstd::std_specs::hash::group_hash_axioms;
        self.scopes.len()
    }

    /// The parent of scope `sid`, if the scope exists and has one.
    pub fn parent(&self, sid: Sid) -> (r: Option<Sid>)
        requires
            self.wf(),
        ensures
            r is Some ==> self@.has_scope(sid as nat) && self@.parents[sid as int] == Some(r->0 as nat),
            r is None ==> !self@.has_scope(sid as nat) || self@.parents[sid as int] is None,
    {
        broadcast use vstd::std_specs::hash::group_hash_axioms;
        match self.scopes.get(&sid) {
            Some(p) => *p,
            None => None,
        }
    }

    /// Makes a new scope inside `parent_sid` and returns its identifier, the
    /// number of scopes there were before.
    pub fn subscope(&mut self, parent_sid: Sid) -> (r: Result<Sid, SymbolTableError>)
        requires
            old(self).wf(),
        ensures
            final(self).wf(),
            match r {
                Ok(sid) => old(self)@.has_scope(parent_sid as nat)
                    && sid == old(self)@.parents.len()
                    && final(self)@ == old(self)@.with_subscope(parent_sid as nat),
                Err(e) => !old(self)@.has_scope(parent_sid as nat)
                    && e == SymbolTableError::Scope(parent_sid)
                    && final(self)@ == old(self)@,
            },
    {
        broadcast use vstd::std_specs::hash::group_hash_axioms;
        if !self.scopes.contains_key(&parent_sid) {
            return Err(SymbolTableError::Scope(parent_sid));
        }
        let n = self.scopes.len();
        let sid = n as u64;
        self.scopes.insert(sid, Some(parent_sid));
        self.parents = Ghost(self.parents@.push(Some(parent_sid as nat)));
        proof {
            let m = old(self).scopes@;
            assert(!m.contains_key(sid));
            assert(self.scopes@.len() == m.len() + 1);
            assert forall|k: Sid| k < self.parents@.len() implies match #[trigger] self.scopes@[k] {
                Some(q) => self.parents@[k as int] == Some(q as nat),
                None => self.parents@[k as int] is None,
            } by {
                if k != sid {
                    assert(self.scopes@[k] == m[k]);
                }
            }
            assert(final(self)@.parents =~= old(self)@.with_subscope(parent_sid as nat).parents);
            assert(final(self)@.bindings == old(self)@.bindings);
            let t = final(self)@;
            assert forall|i: int| 0 <= i < t.bindings.len() implies #[trigger] t.bindings[i].scope < t.parents.len() by {
                assert(old(self)@.bindings[i].scope < old(self)@.parents.len());
            }
            assert forall|i: int| 1 <= i < t.parents.len() implies (#[trigger] t.parents[i] is Some) && t.parents[i]->0 < i by {
                if i < old(self)@.parents.len() {
                    assert(old(self)@.parents[i] is Some);
                }
            }
        }
        Ok(sid)
    }

    /// The position of the binding of `name` in scope `sid`, if there is one.
    fn find(&self, sid: Sid, name: &String) -> (r: Option<usize>)
        requires
            self.wf(),
        ensures
            match r {
                Some(i) => i < self.bindings@.len() && self.bindings@[i as int].sid == sid
                    && self.bindings@[i as int].name@ == name@,
                None => !self@.declares(sid as nat, name@),
            },
    {
        let mut i: usize = 0;
        while i < self.bindings.len()
            invariant
                i <= self.bindings@.len(),
                forall|j: int| 0 <= j < i ==> !(#[trigger] self.bindings@[j].sid == sid && self.bindings@[j].name@ == name@),
            decreases self.bindings@.len() - i,
        {
            let b = &self.bindings[i];
            if b.sid == sid && b.name == *name {
                return Some(i);
            }
            i = i + 1;
        }
        proof {
            assert forall|j: int| 0 <= j < self@.bindings.len()
                implies !(#[trigger] self@.bindings[j].scope == sid as nat && self@.bindings[j].name == name@) by {
                assert(self.bindings@[j].sid == sid ==> self@.bindings[j].scope == sid as nat);
            }
        }
        None
    }

    /// Binds `identifier` to a copy of `expression` in scope `sid`, unless the
    /// scope does not exist or already binds that name; then nothing changes.
    pub fn declare(&mut self, sid: Sid, identifier: &Identifier, expression: &Expression) -> (r: Result<&Variable, SymbolTableError>)
        requires
            old(self).wf(),
        ensures
            final(self).wf(),
            match r {
                Ok(v) => old(self)@.has_scope(sid as nat)
                    && !old(self)@.declares(sid as nat, identifier.symbol@)
                    && expr_model(v.expression) == expr_model(*expression)
                    && final(self)@ == old(self)@.declared(sid as nat, identifier.symbol@, expr_model(*expression)),
                Err(SymbolTableError::Scope(s)) => !old(self)@.has_scope(sid as nat) && s == sid
                    && final(self)@ == old(self)@,
                Err(SymbolTableError::Redeclare(i)) => old(self)@.has_scope(sid as nat)
                    && old(self)@.declares(sid as nat, identifier.symbol@)
                    && i.symbol@ == identifier.symbol@
                    && final(self)@ == old(self)@,
                Err(SymbolTableError::Unknown(_, _)) => false,
            },
    {
        broadcast use vstd::std_specs::hash::group_hash_axioms;
        if !self.scopes.contains_key(&sid) {
            return Err(SymbolTableError::Scope(sid));
        }
        match self.find(sid, &identifier.symbol) {
            Some(i) => {
                proof {
                    assert(self@.bindings[i as int].scope == sid as nat);
                }
                return Err(SymbolTableError::Redeclare(identifier.duplicate()));
            },
            None => {},
        }
        let binding = Binding { sid, name: identifier.symbol.clone(), variable: Variable::new(expression.duplicate()) };
        self.bindings.push(binding);
        proof {
            let m = old(self)@.declared(sid as nat, identifier.symbol@, expr_model(*expression));
            assert(final(self)@.bindings =~= m.bindings);
            assert(final(self)@.parents == m.parents);
            assert(final(self)@ == m);
            assert(old(self)@.has_scope(sid as nat));
            assert(!old(self)@.declares(sid as nat, identifier.symbol@));
            let n = final(self)@.bindings.len() - 1;
            assert forall|i: int, j: int|
                0 <= i < m.bindings.len() && 0 <= j < m.bindings.len() && i != j
                    && #[trigger] m.bindings[i].scope == #[trigger] m.bindings[j].scope
                    implies m.bindings[i].name != m.bindings[j].name by {
                if i == n {
                    assert(old(self)@.bindings[j].scope == sid as nat);
                } else if j == n {
                    assert(old(self)@.bindings[i].scope == sid as nat);
                }
            }
        }
        let last = self.bindings.len() - 1;
        Ok(&self.bindings[last].variable)
    }

    /// What `identifier` is bound to in scope `sid`: its binding in that scope,
    /// or else in the nearest ancestor that has one.
    pub fn get(&self, sid: Sid, identifier: &Identifier) -> (r: Result<&Variable, SymbolTableError>)
        requires
            self.wf(),
        ensures
            match r {
                Ok(v) => self@.lookup(sid as nat, identifier.symbol@) == Some(expr_model(v.expression)),
                Err(SymbolTableError::Scope(s)) => !self@.has_scope(sid as nat) && s == sid,
                Err(SymbolTableError::Unknown(i, s)) => self@.has_scope(sid as nat)
                    && self@.lookup(sid as nat, identifier.symbol@) is None
                    && i.symbol@ == identifier.symbol@ && s == sid,
                Err(SymbolTableError::Redeclare(_)) => false,
            },
    {
        broadcast use vstd::std_specs::hash::group_hash_axioms;
        if !self.scopes.contains_key(&sid) {
            return Err(SymbolTableError::Scope(sid));
        }
        let mut current = sid;
        loop
            invariant
                self.wf(),
                self@.has_scope(sid as nat),
                self@.has_scope(current as nat),
                self@.resolve(sid as nat, identifier.symbol@) == self@.resolve(current as nat, identifier.symbol@),
            decreases current,
        {
            match self.find(current, &identifier.symbol) {
                Some(i) => {
                    proof {
                        let m = self@;
                        assert(m.bindings[i as int].scope == current as nat);
                        assert(m.declares(current as nat, identifier.symbol@));
                        let k = choose|k: int| 0 <= k < m.bindings.len() && #[trigger] m.bindings[k].scope == current as nat
                            && m.bindings[k].name == identifier.symbol@;
                        assert(k == i);
                        assert(m.resolve(current as nat, identifier.symbol@) == Some(current as nat));
                        assert(m.bindings[i as int].value == expr_model(self.bindings@[i as int].variable.expression));
                        assert(m.value_in(current as nat, identifier.symbol@) == m.bindings[i as int].value);
                        assert(m.lookup(sid as nat, identifier.symbol@) == Some(m.bindings[i as int].value));
                    }
                    return Ok(&self.bindings[i].variable);
                },
                None => {},
            }
            let up = match self.scopes.get(&current) {
                Some(p) => *p,
                None => None,
            };
            match up {
                Some(p) => {
                    proof {
                        assert(self@.parents[current as int] == Some(p as nat));
                    }
                    current = p;
                },
                None => {
                    proof {
                        assert(self@.parents[current as int] is None);
                        assert(self@.resolve(current as nat, identifier.symbol@) is None);
                    }
                    return Err(SymbolTableError::Unknown(identifier.duplicate(), sid));
                },
            }
        }
    }
}

} // verus!
