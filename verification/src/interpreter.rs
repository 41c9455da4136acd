//! The evaluator.
//!
//! [`flatten`] reduces one expression tree node to a [`Value`]: integers and
//! variables are themselves, identifiers resolve through the scope chain,
//! `+` and `-` fold over their children left to right, and `def` inserts a
//! binding into the scope enclosing its group and returns a
//! `Variable`-wrapped copy of the defined identifier.
//!
//! The reduction is specified by the big-step function [`eval_node`], which
//! threads the scope bindings through every subexpression; `flatten` is
//! proved to return exactly its result and to leave the scope arena exactly
//! in its final state.

use vstd::prelude::*;

use crate::analyzer::{
    bindings_view, lemma_parents_ordered, parents_ordered, uniq_keys, wf_node, wf_nodes, wf_scope,
    wf_scopes, wf_tree, CtxNode, Node, NodeModel, ScopeModel, ScopeTree,
};
use crate::parser::{Keyword, Operator, Token, Value};

verus! {

/// An error of evaluation.
#[derive(Debug, PartialEq, Eq, Clone, Copy)]
pub enum EvalError {
    /// Identifier resolution exhausted the scope chain without a match.
    UnboundIdentifier,
    /// `def` without exactly two children, or whose first child does not
    /// reduce to an identifier.
    MalformedDef,
    /// `def` in the root scope, which has no enclosing scope to bind into.
    OrphanScope,
    /// An operand of `+` or `-` reduced to something other than an integer.
    NotANumber,
    /// `-` with no operands at all.
    MissingOperand,
    /// Arithmetic left the `i64` range; overflow is an error, never a wrap.
    Overflow,
}

/// First match for `name` in a bindings list.
pub open spec fn lookup_bindings(bs: Seq<(Seq<char>, Value)>, name: Seq<char>) -> Option<Value>
    decreases bs.len(),
{
    if bs.len() == 0 {
        None
    } else if bs[0].0 == name {
        Some(bs[0].1)
    } else {
        lookup_bindings(bs.drop_first(), name)
    }
}

/// First match for `name` in the bindings of `start` or of any scope above
/// it on the parent chain.
pub open spec fn lookup_chain(
    scopes: Seq<ScopeModel>,
    start: Option<int>,
    name: Seq<char>,
) -> Option<Value>
    decreases (match start {
        Some(j) => j + 1,
        None => 0,
    }),
        when (match start {
        Some(j) => 0 <= j < scopes.len(),
        None => true,
    }) && parents_ordered(scopes)
{
    match start {
        None => None,
        Some(j) => match lookup_bindings(scopes[j].bindings, name) {
            Some(v) => Some(v),
            None => lookup_chain(scopes, scopes[j].parent, name),
        },
    }
}

/// Inserts or replaces a binding; with unique keys, the replaced entry is
/// the one that carries `name`.
pub open spec fn insert_binding(
    bs: Seq<(Seq<char>, Value)>,
    name: Seq<char>,
    v: Value,
) -> Seq<(Seq<char>, Value)> {
    if exists|l: int| 0 <= l < bs.len() && (#[trigger] bs[l]).0 == name {
        bs.update(choose|l: int| 0 <= l < bs.len() && (#[trigger] bs[l]).0 == name, (name, v))
    } else {
        bs.push((name, v))
    }
}

/// Combining one operand into the accumulator: integer addition or
/// subtraction, failing on a non-integer operand or on `i64` overflow.
pub open spec fn combine(acc: Value, v: Value, op: Operator) -> Result<Value, EvalError> {
    match (acc, v) {
        (Value::Int(a), Value::Int(b)) => {
            let w = if op is Plus {
                a + b
            } else {
                a - b
            };
            if i64::MIN <= w <= i64::MAX {
                Ok(Value::Int(w as i64))
            } else {
                Err(EvalError::Overflow)
            }
        },
        _ => Err(EvalError::NotANumber),
    }
}

/// Every expression node's children sit strictly after it in the arena;
/// enough for the recursion over subtrees to terminate.
pub open spec fn children_ordered(nodes: Seq<NodeModel>) -> bool {
    forall|i: int, k: int|
        0 <= i < nodes.len() && 0 <= k < nodes[i].children.len() ==> i < #[trigger] nodes[i].children[k]
            < nodes.len()
}

/// Every scope's children sit strictly after it in the arena.
pub open spec fn scope_children_ordered(scopes: Seq<ScopeModel>) -> bool {
    forall|j: int, k: int|
        0 <= j < scopes.len() && 0 <= k < scopes[j].children.len() ==> j < #[trigger] scopes[j].children[k]
            < scopes.len()
}

/// Well-formed expression nodes have ordered children.
pub proof fn lemma_children_ordered(nodes: Seq<NodeModel>, n_scopes: int)
    requires
        wf_nodes(nodes, n_scopes),
    ensures
        children_ordered(nodes),
{
    assert forall|i: int, k: int|
        0 <= i < nodes.len() && 0 <= k < nodes[i].children.len() implies i < #[trigger] nodes[i].children[k]
        < nodes.len() by {
        assert(wf_node(nodes, i, n_scopes));
    }
}

/// Well-formed scopes have ordered children.
pub proof fn lemma_scope_children_ordered(scopes: Seq<ScopeModel>, n_nodes: int)
    requires
        forall|j: int| 0 <= j < scopes.len() ==> #[trigger] wf_scope(scopes, j, n_nodes),
    ensures
        scope_children_ordered(scopes),
{
    assert forall|j: int, k: int|
        0 <= j < scopes.len() && 0 <= k < scopes[j].children.len() implies j < #[trigger] scopes[j].children[k]
        < scopes.len() by {
        assert(wf_scope(scopes, j, n_nodes));
    }
}

/// Big-step evaluation of the expression rooted at node `i`: the produced
/// value or error, and the scope arena after all side effects of `def`.
pub open spec fn eval_node(nodes: Seq<NodeModel>, scopes: Seq<ScopeModel>, i: int) -> (Result<
    Value,
    EvalError,
>, Seq<ScopeModel>)
    decreases nodes.len() - i, 1int, 0int,
        when children_ordered(nodes) && 0 <= i < nodes.len()
{
    let n = nodes[i];
    match n.token {
        Token::Value(v) => match v {
            Value::Int(_) => (Ok(v), scopes),
            // An already-wrapped variable evaluates to itself, with no
            // resolution: evaluation is idempotent on it.
            Value::Variable(_) => (Ok(v), scopes),
            Value::Identifier(name) => match n.parent {
                Some(p) => if nodes[p].token is Keyword {
                    // The identifier is being declared by a `def`, not
                    // looked up: it is returned as itself.
                    (Ok(v), scopes)
                } else {
                    // Lookup starts one scope above the parent node's
                    // scope: `def` binds into the scope enclosing its
                    // group, so resolution must search from there outward.
                    match lookup_chain(scopes, scopes[nodes[p].scope].parent, name@) {
                        Some(w) => (Ok(w), scopes),
                        None => (Err(EvalError::UnboundIdentifier), scopes),
                    }
                },
                None => match lookup_chain(scopes, scopes[n.scope].parent, name@) {
                    Some(w) => (Ok(w), scopes),
                    None => (Err(EvalError::UnboundIdentifier), scopes),
                },
            },
        },
        Token::Operator(op) => match op {
            Operator::Plus => eval_fold(nodes, scopes, i, 0, Value::Int(0), Operator::Plus),
            Operator::Minus => if n.children.len() == 0 {
                (Err(EvalError::MissingOperand), scopes)
            } else {
                // The first operand seeds the fold unchecked: `(- x)`
                // passes `x`'s value through.
                let r0 = eval_node(nodes, scopes, n.children[0]);
                match r0.0 {
                    Ok(acc) => eval_fold(nodes, r0.1, i, 1, acc, Operator::Minus),
                    Err(e) => (Err(e), r0.1),
                }
            },
        },
        Token::Keyword(_) => if n.children.len() != 2 {
            (Err(EvalError::MalformedDef), scopes)
        } else {
            // The first child is evaluated through the declaration-exempt
            // path and must come out an identifier; the second child
            // evaluates normally; the binding lands in the parent of the
            // node's own scope, and the result wraps the identifier.
            let r0 = eval_node(nodes, scopes, n.children[0]);
            match r0.0 {
                Err(e) => (Err(e), r0.1),
                Ok(v0) => match v0 {
                    Value::Identifier(name) => {
                        let r1 = eval_node(nodes, r0.1, n.children[1]);
                        match r1.0 {
                            Err(e) => (Err(e), r1.1),
                            Ok(v1) => match r1.1[n.scope].parent {
                                Some(ps) => (
                                    Ok(Value::Variable(Box::new(v0))),
                                    r1.1.update(
                                        ps,
                                        ScopeModel {
                                            bindings: insert_binding(r1.1[ps].bindings, name@, v1),
                                            ..r1.1[ps]
                                        },
                                    ),
                                ),
                                None => (Err(EvalError::OrphanScope), r1.1),
                            },
                        }
                    },
                    _ => (Err(EvalError::MalformedDef), r0.1),
                },
            }
        },
        _ => (Err(EvalError::MalformedDef), scopes),
    }
}

/// Left fold of `op` over the children of node `i` from position `k` on,
/// threading the scope arena through each operand's evaluation.
pub open spec fn eval_fold(
    nodes: Seq<NodeModel>,
    scopes: Seq<ScopeModel>,
    i: int,
    k: int,
    acc: Value,
    op: Operator,
) -> (Result<Value, EvalError>, Seq<ScopeModel>)
    decreases nodes.len() - i, 0int, nodes[i].children.len() - k,
        when children_ordered(nodes) && 0 <= i < nodes.len() && 0 <= k <= nodes[i].children.len()
{
    let ch = nodes[i].children;
    if k >= ch.len() {
        (Ok(acc), scopes)
    } else {
        let r = eval_node(nodes, scopes, ch[k]);
        match r.0 {
            Err(e) => (Err(e), r.1),
            Ok(v) => match combine(acc, v, op) {
                Ok(acc2) => eval_fold(nodes, r.1, i, k + 1, acc2, op),
                Err(e) => (Err(e), r.1),
            },
        }
    }
}

/// Two scope arenas that agree on everything but the bindings: evaluation
/// mutates bindings only, never the shape of the scope tree.
pub open spec fn same_shape(s1: Seq<ScopeModel>, s2: Seq<ScopeModel>) -> bool {
    &&& s1.len() == s2.len()
    &&& forall|j: int|
        0 <= j < s1.len() ==> ((#[trigger] s2[j]).id == s1[j].id && s2[j].parent == s1[j].parent
            && s2[j].children == s1[j].children && s2[j].expression == s1[j].expression)
}

proof fn lemma_same_shape_trans(a: Seq<ScopeModel>, b: Seq<ScopeModel>, c: Seq<ScopeModel>)
    requires
        same_shape(a, b),
        same_shape(b, c),
    ensures
        same_shape(a, c),
{
    assert forall|j: int| 0 <= j < a.len() implies ((#[trigger] c[j]).id == a[j].id && c[j].parent
        == a[j].parent && c[j].children == a[j].children && c[j].expression == a[j].expression) by {
        assert(b[j].id == a[j].id && b[j].parent == a[j].parent && b[j].children == a[j].children
            && b[j].expression == a[j].expression);
        assert(c[j].id == b[j].id && c[j].parent == b[j].parent && c[j].children == b[j].children
            && c[j].expression == b[j].expression);
    }
}

/// Evaluation keeps the scope arena well-formed and changes nothing in it
/// but bindings.
pub proof fn lemma_eval_preserves(nodes: Seq<NodeModel>, scopes: Seq<ScopeModel>, i: int)
    requires
        wf_tree(nodes, scopes),
        0 <= i < nodes.len(),
    ensures
        wf_tree(nodes, eval_node(nodes, scopes, i).1),
        same_shape(scopes, eval_node(nodes, scopes, i).1),
    decreases nodes.len() - i, 2int, 0int,
{
    lemma_children_ordered(nodes, scopes.len() as int);
    assert(wf_node(nodes, i, scopes.len() as int));
    let n = nodes[i];
    match n.token {
        Token::Value(_) => {},
        Token::Operator(op) => match op {
            Operator::Plus => {
                lemma_fold_preserves(nodes, scopes, i, 0);
                let rr = eval_fold(nodes, scopes, i, 0, Value::Int(0), Operator::Plus);
                assert(wf_tree(nodes, rr.1) && same_shape(scopes, rr.1));
            },
            Operator::Minus => {
                if n.children.len() > 0 {
                    lemma_eval_preserves(nodes, scopes, n.children[0]);
                    let r0 = eval_node(nodes, scopes, n.children[0]);
                    match r0.0 {
                        Ok(acc0) => {
                            lemma_fold_preserves(nodes, r0.1, i, 1);
                            let rr = eval_fold(nodes, r0.1, i, 1, acc0, Operator::Minus);
                            lemma_same_shape_trans(scopes, r0.1, rr.1);
                        },
                        Err(_) => {},
                    }
                }
            },
        },
        Token::Keyword(_) => {
            if n.children.len() == 2 {
                lemma_eval_preserves(nodes, scopes, n.children[0]);
                let r0 = eval_node(nodes, scopes, n.children[0]);
                match r0.0 {
                    Ok(v0) => match v0 {
                        Value::Identifier(name) => {
                            lemma_eval_preserves(nodes, r0.1, n.children[1]);
                            let r1 = eval_node(nodes, r0.1, n.children[1]);
                            lemma_same_shape_trans(scopes, r0.1, r1.1);
                            match r1.0 {
                                Ok(v1) => {
                                    let sp = n.scope;
                                    assert(wf_scope(r1.1, sp, nodes.len() as int));
                                    match r1.1[sp].parent {
                                        Some(ps) => {
                                            let s2 = r1.1.update(
                                                ps,
                                                ScopeModel {
                                                    bindings: insert_binding(
                                                        r1.1[ps].bindings,
                                                        name@,
                                                        v1,
                                                    ),
                                                    ..r1.1[ps]
                                                },
                                            );
                                            assert(wf_scope(r1.1, ps, nodes.len() as int));
                                            lemma_insert_uniq(r1.1[ps].bindings, name@, v1);
                                            assert forall|j: int|
                                                0 <= j < s2.len() implies #[trigger] wf_scope(
                                                s2,
                                                j,
                                                nodes.len() as int,
                                            ) by {
                                                assert(wf_scope(r1.1, j, nodes.len() as int));
                                            }
                                            assert(wf_tree(nodes, s2));
                                            assert(same_shape(r1.1, s2));
                                            lemma_same_shape_trans(scopes, r1.1, s2);
                                        },
                                        None => {},
                                    }
                                },
                                Err(_) => {},
                            }
                        },
                        _ => {},
                    },
                    Err(_) => {},
                }
            }
        },
        _ => {},
    }
}

/// The operand fold keeps the scope arena well-formed and changes nothing
/// in it but bindings.
proof fn lemma_fold_preserves(nodes: Seq<NodeModel>, scopes: Seq<ScopeModel>, i: int, k: int)
    requires
        wf_tree(nodes, scopes),
        0 <= i < nodes.len(),
        0 <= k <= nodes[i].children.len(),
    ensures
        forall|acc: Value, op: Operator|
            {
                let r = #[trigger] eval_fold(nodes, scopes, i, k, acc, op);
                wf_tree(nodes, r.1) && same_shape(scopes, r.1)
            },
    decreases nodes.len() - i, 1int, nodes[i].children.len() - k,
{
    lemma_children_ordered(nodes, scopes.len() as int);
    assert(wf_node(nodes, i, scopes.len() as int));
    let ch = nodes[i].children;
    if k < ch.len() {
        lemma_eval_preserves(nodes, scopes, ch[k]);
        let r = eval_node(nodes, scopes, ch[k]);
        if r.0 is Ok {
            lemma_fold_preserves(nodes, r.1, i, k + 1);
        }
        assert forall|acc: Value, op: Operator|
            {
                let rr = #[trigger] eval_fold(nodes, scopes, i, k, acc, op);
                wf_tree(nodes, rr.1) && same_shape(scopes, rr.1)
            } by {
            match r.0 {
                Err(_) => {},
                Ok(v) => match combine(acc, v, op) {
                    Err(_) => {},
                    Ok(acc2) => {
                        let rr2 = eval_fold(nodes, r.1, i, k + 1, acc2, op);
                        lemma_same_shape_trans(scopes, r.1, rr2.1);
                    },
                },
            }
        }
    }
}

/// Skipping entries that do not carry `name` leaves the lookup unchanged.
proof fn lemma_lookup_skip(bs: Seq<(Seq<char>, Value)>, name: Seq<char>, idx: int)
    requires
        0 <= idx <= bs.len(),
        forall|l: int| 0 <= l < idx ==> (#[trigger] bs[l]).0 != name,
    ensures
        lookup_bindings(bs, name) == lookup_bindings(bs.skip(idx), name),
    decreases idx,
{
    if idx > 0 {
        lemma_lookup_skip(bs, name, idx - 1);
        let tail = bs.skip(idx - 1);
        assert(tail[0] == bs[idx - 1]);
        assert(tail.drop_first() =~= bs.skip(idx));
    } else {
        assert(bs.skip(0) =~= bs);
    }
}

/// Replacing or adding a binding keeps the keys unique.
proof fn lemma_insert_uniq(bs: Seq<(Seq<char>, Value)>, name: Seq<char>, v: Value)
    requires
        uniq_keys(bs),
    ensures
        uniq_keys(insert_binding(bs, name, v)),
{
    if exists|l: int| 0 <= l < bs.len() && (#[trigger] bs[l]).0 == name {
        let l0 = choose|l: int| 0 <= l < bs.len() && (#[trigger] bs[l]).0 == name;
        let out = bs.update(l0, (name, v));
        assert forall|a: int, b: int| 0 <= a < b < out.len() implies (#[trigger] out[a]).0 != (
        #[trigger] out[b]).0 by {
            assert(bs[a].0 != bs[b].0);
        }
    }
}

/// First match for `name` among the bindings of one scope, as a copy.
fn lookup_binding(bs: &Vec<(String, Value)>, name: &String) -> (r: Option<Value>)
    ensures
        r == lookup_bindings(bindings_view(bs@), name@),
{
    let ghost bv = bindings_view(bs@);
    let mut idx: usize = 0;
    while idx < bs.len()
        invariant
            idx <= bs.len(),
            bv == bindings_view(bs@),
            forall|l: int| 0 <= l < idx ==> (#[trigger] bv[l]).0 != name@,
        decreases bs.len() - idx,
    {
        if bs[idx].0 == *name {
            proof {
                lemma_lookup_skip(bv, name@, idx as int);
                assert(bv.skip(idx as int)[0] == bv[idx as int]);
            }
            return Some(bs[idx].1.deep_clone());
        }
        idx += 1;
    }
    proof {
        lemma_lookup_skip(bv, name@, bs@.len() as int);
        assert(bv.skip(bs@.len() as int) =~= Seq::<(Seq<char>, Value)>::empty());
    }
    None
}

/// Resolves `name` by walking the scope chain from `start` upward, checking
/// each scope's bindings in turn; `None` when the chain is exhausted.
pub fn resolve_variable(scopes: &Vec<CtxNode>, start: Option<usize>, name: &String) -> (r: Option<
    Value,
>)
    requires
        parents_ordered(scopes.deep_view()),
        start matches Some(j) ==> j < scopes.len(),
    ensures
        r == lookup_chain(scopes.deep_view(), crate::analyzer::opt_idx(start), name@),
    decreases (match start {
        Some(j) => j + 1,
        None => 0int,
    }),
{
    match start {
        None => None,
        Some(j) => {
            match lookup_binding(&scopes[j].bindings, name) {
                Some(v) => Some(v),
                None => {
                    let up = scopes[j].parent;
                    proof {
                        assert(scopes.deep_view()[j as int].parent == crate::analyzer::opt_idx(
                            up,
                        ));
                    }
                    resolve_variable(scopes, up, name)
                },
            }
        },
    }
}

/// The position of the entry carrying `name`, if any; entries before it
/// carry other names.
fn find_binding(bs: &Vec<(String, Value)>, name: &String) -> (r: Option<usize>)
    ensures
        match r {
            Some(idx) => idx < bs@.len() && bindings_view(bs@)[idx as int].0 == name@,
            None => forall|l: int|
                0 <= l < bs@.len() ==> (#[trigger] bindings_view(bs@)[l]).0 != name@,
        },
{
    let ghost bv = bindings_view(bs@);
    let mut idx: usize = 0;
    while idx < bs.len()
        invariant
            idx <= bs.len(),
            bv == bindings_view(bs@),
            forall|l: int| 0 <= l < idx ==> (#[trigger] bv[l]).0 != name@,
        decreases bs.len() - idx,
    {
        if bs[idx].0 == *name {
            return Some(idx);
        }
        idx += 1;
    }
    None
}

/// Inserts a binding into one scope's bindings list, replacing the entry
/// that already carries the name, if any.
fn store_binding(bs: &mut Vec<(String, Value)>, name: String, v: Value)
    requires
        uniq_keys(bindings_view(old(bs)@)),
    ensures
        bindings_view(final(bs)@) == insert_binding(bindings_view(old(bs)@), name@, v),
{
    let ghost bv = bindings_view(old(bs)@);
    match find_binding(bs, &name) {
        Some(idx) => {
            let ghost l0 = choose|l: int| 0 <= l < bv.len() && (#[trigger] bv[l]).0 == name@;
            proof {
                assert(bv[idx as int].0 == name@);
                if l0 != idx as int {
                    assert(bv[l0].0 == bv[idx as int].0);
                    assert(false);
                }
            }
            bs[idx] = (name, v);
            proof {
                assert(bindings_view(bs@) =~~= bv.update(idx as int, (name@, v)));
            }
        },
        None => {
            bs.push((name, v));
            proof {
                assert(bindings_view(bs@) =~~= bv.push((name@, v)));
            }
        },
    }
}

/// Reduces the expression rooted at `nodes[i]` to a value, reading and
/// mutating the scope bindings exactly as [`eval_node`] describes: integers
/// and variables are themselves, identifiers resolve through the scope
/// chain (except under a `def`, where they are declarations), `+` and `-`
/// fold over the children left to right, and `def` binds its identifier in
/// the scope enclosing its group and returns the identifier wrapped as a
/// variable.
pub fn flatten(nodes: &Vec<Node>, scopes: &mut Vec<CtxNode>, i: usize) -> (r: Result<
    Value,
    EvalError,
>)
    requires
        wf_tree(nodes.deep_view(), old(scopes).deep_view()),
        i < nodes.len(),
    ensures
        wf_tree(nodes.deep_view(), final(scopes).deep_view()),
        (r, final(scopes).deep_view()) == eval_node(
            nodes.deep_view(),
            old(scopes).deep_view(),
            i as int,
        ),
    decreases nodes.deep_view().len() - i, 1int, 0int,
{
    let ghost nm = nodes.deep_view();
    proof {
        lemma_children_ordered(nm, old(scopes).deep_view().len() as int);
        assert(wf_node(nm, i as int, old(scopes).deep_view().len() as int));
    }
    let n = &nodes[i];
    match &n.token {
        Token::Value(v) => {
            match v {
                Value::Int(_) => Ok(v.deep_clone()),
                Value::Variable(_) => Ok(v.deep_clone()),
                Value::Identifier(name) => {
                    match n.parent {
                        Some(p) => {
                            proof {
                                assert(wf_node(nm, p as int, old(scopes).deep_view().len() as int));
                            }
                            if matches!(&nodes[p].token, Token::Keyword(_)) {
                                Ok(v.deep_clone())
                            } else {
                                let sp = nodes[p].scope;
                                proof {
                                    lemma_parents_ordered(
                                        scopes.deep_view(),
                                        nm.len() as int,
                                    );
                                    assert(wf_scope(
                                        scopes.deep_view(),
                                        sp as int,
                                        nm.len() as int,
                                    ));
                                }
                                let start = scopes[sp].parent;
                                match resolve_variable(scopes, start, name) {
                                    Some(w) => Ok(w),
                                    None => Err(EvalError::UnboundIdentifier),
                                }
                            }
                        },
                        None => {
                            let sp = n.scope;
                            proof {
                                lemma_parents_ordered(scopes.deep_view(), nm.len() as int);
                                assert(wf_scope(scopes.deep_view(), sp as int, nm.len() as int));
                            }
                            let start = scopes[sp].parent;
                            match resolve_variable(scopes, start, name) {
                                Some(w) => Ok(w),
                                None => Err(EvalError::UnboundIdentifier),
                            }
                        },
                    }
                },
            }
        },
        Token::Operator(op) => {
            match op {
                Operator::Plus => flatten_fold(nodes, scopes, i, 0, Value::Int(0), Operator::Plus),
                Operator::Minus => {
                    if n.children.len() == 0 {
                        Err(EvalError::MissingOperand)
                    } else {
                        let c0 = n.children[0];
                        proof {
                            assert(i < nm[i as int].children[0] < nm.len());
                        }
                        match flatten(nodes, scopes, c0) {
                            Ok(acc) => flatten_fold(nodes, scopes, i, 1, acc, Operator::Minus),
                            Err(e) => Err(e),
                        }
                    }
                },
            }
        },
        Token::Keyword(_) => {
            if n.children.len() != 2 {
                Err(EvalError::MalformedDef)
            } else {
                let c0 = n.children[0];
                proof {
                    assert(i < nm[i as int].children[0] < nm.len());
                    assert(i < nm[i as int].children[1] < nm.len());
                }
                match flatten(nodes, scopes, c0) {
                    Err(e) => Err(e),
                    Ok(v0) => {
                        match v0 {
                            Value::Identifier(name) => {
                                let c1 = n.children[1];
                                match flatten(nodes, scopes, c1) {
                                    Err(e) => Err(e),
                                    Ok(v1) => {
                                        let sp = n.scope;
                                        proof {
                                            assert(wf_node(
                                                nm,
                                                i as int,
                                                scopes.deep_view().len() as int,
                                            ));
                                            assert(wf_scope(
                                                scopes.deep_view(),
                                                sp as int,
                                                nm.len() as int,
                                            ));
                                        }
                                        match scopes[sp].parent {
                                            None => Err(EvalError::OrphanScope),
                                            Some(ps) => {
                                                let ghost s_before = scopes.deep_view();
                                                let ghost v1g = v1;
                                                proof {
                                                    assert(wf_scope(
                                                        s_before,
                                                        ps as int,
                                                        nm.len() as int,
                                                    ));
                                                }
                                                store_binding(
                                                    &mut scopes[ps].bindings,
                                                    name.clone(),
                                                    v1,
                                                );
                                                proof {
                                                    let inserted = ScopeModel {
                                                        bindings: insert_binding(
                                                            s_before[ps as int].bindings,
                                                            name@,
                                                            v1g,
                                                        ),
                                                        ..s_before[ps as int]
                                                    };
                                                    assert(scopes.deep_view() =~~= s_before.update(
                                                        ps as int,
                                                        inserted,
                                                    ));
                                                    lemma_insert_uniq(
                                                        s_before[ps as int].bindings,
                                                        name@,
                                                        v1g,
                                                    );
                                                    assert forall|j: int|
                                                        0 <= j < scopes.deep_view().len() implies
                                                    #[trigger] wf_scope(
                                                        scopes.deep_view(),
                                                        j,
                                                        nm.len() as int,
                                                    ) by {
                                                        assert(wf_scope(
                                                            s_before,
                                                            j,
                                                            nm.len() as int,
                                                        ));
                                                    }
                                                    assert(wf_tree(nm, scopes.deep_view()));
                                                }
                                                Ok(
                                                    Value::Variable(
                                                        Box::new(Value::Identifier(name)),
                                                    ),
                                                )
                                            },
                                        }
                                    },
                                }
                            },
                            _ => Err(EvalError::MalformedDef),
                        }
                    },
                }
            }
        },
        Token::OpenParenthesis | Token::CloseParenthesis | Token::TokenizationError(_) => {
            proof {
                assert(false);
            }
            vstd::pervasive::unreached()
        },
    }
}

/// Folds `op` over the children of `nodes[i]` from position `k` on, exactly
/// as [`eval_fold`] describes.
fn flatten_fold(
    nodes: &Vec<Node>,
    scopes: &mut Vec<CtxNode>,
    i: usize,
    k: usize,
    acc: Value,
    op: Operator,
) -> (r: Result<Value, EvalError>)
    requires
        wf_tree(nodes.deep_view(), old(scopes).deep_view()),
        i < nodes.len(),
        k <= nodes.deep_view()[i as int].children.len(),
    ensures
        wf_tree(nodes.deep_view(), final(scopes).deep_view()),
        (r, final(scopes).deep_view()) == eval_fold(
            nodes.deep_view(),
            old(scopes).deep_view(),
            i as int,
            k as int,
            acc,
            op,
        ),
    decreases nodes.deep_view().len() - i, 0int, nodes.deep_view()[i as int].children.len() - k,
{
    let ghost nm = nodes.deep_view();
    proof {
        lemma_children_ordered(nm, old(scopes).deep_view().len() as int);
        assert(wf_node(nm, i as int, old(scopes).deep_view().len() as int));
    }
    let ch_len = nodes[i].children.len();
    if k >= ch_len {
        return Ok(acc);
    }
    let c = nodes[i].children[k];
    proof {
        assert(i < nm[i as int].children[k as int] < nm.len());
    }
    match flatten(nodes, scopes, c) {
        Err(e) => Err(e),
        Ok(v) => {
            match combine_values(acc, v, op) {
                Err(e) => Err(e),
                Ok(acc2) => flatten_fold(nodes, scopes, i, k + 1, acc2, op),
            }
        },
    }
}

/// Idempotence of variable wrapping: evaluating a node that holds an
/// already-wrapped variable returns exactly that value, with no resolution
/// and no side effect on any scope, so evaluating the result again changes
/// nothing.
pub proof fn lemma_variable_idempotent(
    nodes: Seq<NodeModel>,
    scopes: Seq<ScopeModel>,
    i: int,
    v: Box<Value>,
)
    requires
        children_ordered(nodes),
        0 <= i < nodes.len(),
        nodes[i].token == Token::Value(Value::Variable(v)),
    ensures
        eval_node(nodes, scopes, i) == (Ok::<Value, EvalError>(Value::Variable(v)), scopes),
{
}

/// `def`'s return value is always the defined identifier wrapped as a
/// variable: whenever a `def` node evaluates successfully, the result wraps
/// exactly the identifier that its first child reduced to, so it stays
/// distinguishable from a plain identifier and from the bound value.
pub proof fn lemma_def_returns_variable(nodes: Seq<NodeModel>, scopes: Seq<ScopeModel>, i: int)
    requires
        children_ordered(nodes),
        0 <= i < nodes.len(),
        nodes[i].token is Keyword,
    ensures
        eval_node(nodes, scopes, i).0 matches Ok(v) ==> {
            &&& v matches Value::Variable(b)
            &&& *b is Identifier
            &&& eval_node(nodes, scopes, nodes[i].children[0]).0 == Ok::<Value, EvalError>(*b)
        },
{
    let n = nodes[i];
    if n.children.len() == 2 {
        let r0 = eval_node(nodes, scopes, n.children[0]);
        match r0.0 {
            Ok(v0) => match v0 {
                Value::Identifier(_) => {
                    let r1 = eval_node(nodes, r0.1, n.children[1]);
                    match r1.0 {
                        Ok(_) => {
                            match r1.1[n.scope].parent {
                                Some(_) => {
                                    assert(eval_node(nodes, scopes, i).0 == Ok::<
                                        Value,
                                        EvalError,
                                    >(Value::Variable(Box::new(v0))));
                                },
                                None => {},
                            }
                        },
                        Err(_) => {},
                    }
                },
                _ => {},
            },
            Err(_) => {},
        }
    }
}

/// Evaluation of one scope of the tree and, depth-first, of its children:
/// the scope's attached root expression (if any) is evaluated first, then
/// each child scope in order, threading the bindings through. `shape` is
/// the scope arena as it stood before evaluation began; evaluation never
/// changes the fields that `shape` is consulted for.
pub open spec fn eval_scope(
    nodes: Seq<NodeModel>,
    shape: Seq<ScopeModel>,
    scopes: Seq<ScopeModel>,
    j: int,
) -> (Result<Seq<Value>, EvalError>, Seq<ScopeModel>)
    decreases shape.len() - j, 1int, 0int,
        when scope_children_ordered(shape) && 0 <= j < shape.len()
{
    match shape[j].expression {
        Some(e) => {
            let r0 = eval_node(nodes, scopes, e);
            match r0.0 {
                Err(err) => (Err(err), r0.1),
                Ok(v) => {
                    let r1 = eval_scope_children(nodes, shape, r0.1, j, 0);
                    match r1.0 {
                        Ok(vs) => (Ok(seq![v] + vs), r1.1),
                        Err(err) => (Err(err), r1.1),
                    }
                },
            }
        },
        None => eval_scope_children(nodes, shape, scopes, j, 0),
    }
}

/// Depth-first evaluation of the children of scope `j`, from child
/// position `k` on.
pub open spec fn eval_scope_children(
    nodes: Seq<NodeModel>,
    shape: Seq<ScopeModel>,
    scopes: Seq<ScopeModel>,
    j: int,
    k: int,
) -> (Result<Seq<Value>, EvalError>, Seq<ScopeModel>)
    decreases shape.len() - j, 0int, shape[j].children.len() - k,
        when scope_children_ordered(shape) && 0 <= j < shape.len() && 0 <= k <= shape[j].children.len()
{
    let ch = shape[j].children;
    if k >= ch.len() {
        (Ok(Seq::empty()), scopes)
    } else {
        let r0 = eval_scope(nodes, shape, scopes, ch[k]);
        match r0.0 {
            Err(err) => (Err(err), r0.1),
            Ok(vs0) => {
                let r1 = eval_scope_children(nodes, shape, r0.1, j, k + 1);
                match r1.0 {
                    Ok(vs1) => (Ok(vs0 + vs1), r1.1),
                    Err(err) => (Err(err), r1.1),
                }
            },
        }
    }
}

/// Whole-program evaluation: a depth-first walk of the scope tree from the
/// root scope, evaluating each scope's attached root expression before
/// descending into its children, accumulating the values in visit order.
/// Bindings made by `def` while evaluating an earlier group are visible to
/// later groups. The walk aborts at the first error.
pub open spec fn eval_tree(nodes: Seq<NodeModel>, scopes: Seq<ScopeModel>) -> (Result<
    Seq<Value>,
    EvalError,
>, Seq<ScopeModel>) {
    eval_scope(nodes, scopes, scopes, 0)
}

/// Evaluates the scope `j` of the tree: its root expression first, then its
/// children depth-first, appending every produced value to `out`; stops at
/// the first error.
fn flatten_scope(
    nodes: &Vec<Node>,
    scopes: &mut Vec<CtxNode>,
    Ghost(shape): Ghost<Seq<ScopeModel>>,
    j: usize,
    out: &mut Vec<Value>,
) -> (r: Option<EvalError>)
    requires
        wf_tree(nodes.deep_view(), old(scopes).deep_view()),
        same_shape(shape, old(scopes).deep_view()),
        scope_children_ordered(shape),
        j < old(scopes).len(),
    ensures
        wf_tree(nodes.deep_view(), final(scopes).deep_view()),
        same_shape(shape, final(scopes).deep_view()),
        ({
            let sp = eval_scope(nodes.deep_view(), shape, old(scopes).deep_view(), j as int);
            match r {
                None => sp.0 matches Ok(vs) && final(out)@ == old(out)@ + vs
                    && final(scopes).deep_view() == sp.1,
                Some(e) => sp.0 == Err::<Seq<Value>, EvalError>(e) && final(scopes).deep_view()
                    == sp.1,
            }
        }),
    decreases shape.len() - j, 1int, 0int,
{
    let ghost nm = nodes.deep_view();
    let ghost s0 = scopes.deep_view();
    let expr = scopes[j].expression;
    proof {
        assert(s0[j as int].expression == shape[j as int].expression);
        assert(wf_scope(s0, j as int, nm.len() as int));
    }
    match expr {
        Some(e) => {
            match flatten(nodes, scopes, e) {
                Err(err) => {
                    proof {
                        lemma_eval_preserves(nm, s0, e as int);
                        lemma_same_shape_trans(shape, s0, scopes.deep_view());
                    }
                    Some(err)
                },
                Ok(v) => {
                    proof {
                        lemma_eval_preserves(nm, s0, e as int);
                        lemma_same_shape_trans(shape, s0, scopes.deep_view());
                    }
                    let ghost out0 = out@;
                    let ghost s1 = scopes.deep_view();
                    out.push(v);
                    let ghost vg = v;
                    match flatten_scope_children(nodes, scopes, Ghost(shape), j, 0, out) {
                        Some(err) => Some(err),
                        None => {
                            proof {
                                let r1 = eval_scope_children(nm, shape, s1, j as int, 0);
                                assert(out@ =~= out0 + (seq![vg] + r1.0->Ok_0));
                            }
                            None
                        },
                    }
                },
            }
        },
        None => flatten_scope_children(nodes, scopes, Ghost(shape), j, 0, out),
    }
}

/// Evaluates the children of scope `j` from position `k` on, depth-first,
/// appending every produced value to `out`; stops at the first error.
fn flatten_scope_children(
    nodes: &Vec<Node>,
    scopes: &mut Vec<CtxNode>,
    Ghost(shape): Ghost<Seq<ScopeModel>>,
    j: usize,
    k: usize,
    out: &mut Vec<Value>,
) -> (r: Option<EvalError>)
    requires
        wf_tree(nodes.deep_view(), old(scopes).deep_view()),
        same_shape(shape, old(scopes).deep_view()),
        scope_children_ordered(shape),
        j < old(scopes).len(),
        k <= shape[j as int].children.len(),
    ensures
        wf_tree(nodes.deep_view(), final(scopes).deep_view()),
        same_shape(shape, final(scopes).deep_view()),
        ({
            let sp = eval_scope_children(
                nodes.deep_view(),
                shape,
                old(scopes).deep_view(),
                j as int,
                k as int,
            );
            match r {
                None => sp.0 matches Ok(vs) && final(out)@ == old(out)@ + vs
                    && final(scopes).deep_view() == sp.1,
                Some(e) => sp.0 == Err::<Seq<Value>, EvalError>(e) && final(scopes).deep_view()
                    == sp.1,
            }
        }),
    decreases shape.len() - j, 0int, shape[j as int].children.len() - k,
{
    let ghost nm = nodes.deep_view();
    let ghost s0 = scopes.deep_view();
    let ch_len = scopes[j].children.len();
    proof {
        assert(s0[j as int].children == shape[j as int].children);
    }
    if k >= ch_len {
        return None;
    }
    let c = scopes[j].children[k];
    proof {
        assert(c as int == shape[j as int].children[k as int]);
        assert(j < shape[j as int].children[k as int] < shape.len());
    }
    match flatten_scope(nodes, scopes, Ghost(shape), c, out) {
        Some(err) => Some(err),
        None => {
            let ghost s1 = scopes.deep_view();
            let r2 = flatten_scope_children(nodes, scopes, Ghost(shape), j, k + 1, out);
            proof {
                let sp0 = eval_scope(nm, shape, s0, c as int);
                let sp1 = eval_scope_children(nm, shape, s1, j as int, k + 1);
                if r2 is None {
                    assert(out@ =~= old(out)@ + (sp0.0->Ok_0 + sp1.0->Ok_0));
                }
            }
            r2
        },
    }
}

impl ScopeTree {
    /// Evaluates every scope's attached root expression in a depth-first
    /// walk from the root scope, exactly as [`eval_tree`] describes,
    /// returning the produced values in visit order; bindings made by `def`
    /// in earlier groups are visible to later ones. Aborts at the first
    /// error.
    pub fn evaluate(&mut self) -> (r: Result<Vec<Value>, EvalError>)
        requires
            wf_tree(old(self)@.nodes, old(self)@.scopes),
        ensures
            final(self)@.nodes == old(self)@.nodes,
            final(self)@.roots == old(self)@.roots,
            ({
                let sp = eval_tree(old(self)@.nodes, old(self)@.scopes);
                final(self)@.scopes == sp.1 && match r {
                    Ok(vs) => sp.0 matches Ok(vv) && vs@ == vv,
                    Err(e) => sp.0 == Err::<Seq<Value>, EvalError>(e),
                }
            }),
    {
        let ghost shape = self.scopes.deep_view();
        proof {
            lemma_scope_children_ordered(shape, self@.nodes.len() as int);
            assert(same_shape(shape, shape));
        }
        let mut out: Vec<Value> = Vec::new();
        let e = flatten_scope(&self.nodes, &mut self.scopes, Ghost(shape), 0, &mut out);
        match e {
            None => Ok(out),
            Some(err) => Err(err),
        }
    }
}

/// Integer addition or subtraction of one operand into the accumulator;
/// fails on a non-integer operand and on `i64` overflow.
fn combine_values(acc: Value, v: Value, op: Operator) -> (r: Result<Value, EvalError>)
    ensures
        r == combine(acc, v, op),
{
    match (acc, v) {
        (Value::Int(a), Value::Int(b)) => {
            let w: i128 = if let Operator::Plus = op {
                (a as i128) + (b as i128)
            } else {
                (a as i128) - (b as i128)
            };
            if w < i64::MIN as i128 || w > i64::MAX as i128 {
                Err(EvalError::Overflow)
            } else {
                Ok(Value::Int(w as i64))
            }
        },
        (a, b) => Err(EvalError::NotANumber),
    }
}

} // verus!
