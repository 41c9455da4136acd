//! The expression/scope tree builder.
//!
//! One left-to-right pass over a token sequence produces a pair of parallel
//! trees held in arenas:
//! - the expression tree: [`Node`]s whose forward `children` edges own the
//!   tree and whose `parent`/`scope` indices are plain back-references;
//! - the scope tree: [`CtxNode`]s, one per parenthesized group (plus the
//!   root scope, id 0), each holding the bindings made inside it and a link
//!   to the outermost expression node of its group.
//!
//! The pass is specified as a fold ([`build_from`]) of a per-token step
//! function ([`build_step`]) over a ghost [`BuildState`]; the executable
//! builder [`expressionize`] is proved to return exactly what that fold
//! describes.

use vstd::prelude::*;

use crate::parser::{Token, TokenData, Value};

verus! {

/// An expression tree node. `parent` and `scope` are back-indices into the
/// node and scope arenas; `children` are in left-to-right parse order, and a
/// child always has a larger arena index than its parent.
#[derive(Debug, PartialEq, Eq)]
pub struct Node {
    pub token: Token,
    pub parent: Option<usize>,
    pub children: Vec<usize>,
    pub scope: usize,
}

/// A lexical scope node. `id` always equals the node's index in the scope
/// arena; `bindings` maps identifier names to values (keys unique);
/// `expression` links to the outermost expression node of the scope's group,
/// set when the group closes.
#[derive(Debug, PartialEq, Eq)]
pub struct CtxNode {
    pub id: usize,
    pub bindings: Vec<(String, Value)>,
    pub parent: Option<usize>,
    pub children: Vec<usize>,
    pub expression: Option<usize>,
}

/// The two arenas built by one pass, plus the indices of the top-level
/// expression nodes (those that had no parent when their group closed), in
/// the order their groups closed.
#[derive(Debug, PartialEq, Eq)]
pub struct ScopeTree {
    pub nodes: Vec<Node>,
    pub scopes: Vec<CtxNode>,
    pub roots: Vec<usize>,
}

/// An error of the tree builder.
#[derive(Debug, PartialEq, Eq)]
pub enum BuildError {
    /// A closing parenthesis with no group open, or unclosed groups left at
    /// the end of the stream.
    UnbalancedParentheses,
    /// The stream held a tokenization-error marker; carries its raw text.
    Tokenization(String),
}

pub open spec fn opt_idx(o: Option<usize>) -> Option<int> {
    match o {
        Some(i) => Some(i as int),
        None => None,
    }
}

/// The mathematical model of an expression node.
#[verifier::ext_equal]
pub struct NodeModel {
    pub token: Token,
    pub parent: Option<int>,
    pub children: Seq<int>,
    pub scope: int,
}

/// The model of a bindings list: each key as its character sequence.
pub open spec fn bindings_view(bs: Seq<(String, Value)>) -> Seq<(Seq<char>, Value)> {
    bs.map_values(|p: (String, Value)| (p.0@, p.1))
}

/// The mathematical model of a scope node; binding keys are character
/// sequences.
#[verifier::ext_equal]
pub struct ScopeModel {
    pub id: int,
    pub bindings: Seq<(Seq<char>, Value)>,
    pub parent: Option<int>,
    pub children: Seq<int>,
    pub expression: Option<int>,
}

/// The mathematical model of a [`ScopeTree`].
#[verifier::ext_equal]
pub struct TreeModel {
    pub nodes: Seq<NodeModel>,
    pub scopes: Seq<ScopeModel>,
    pub roots: Seq<int>,
}

impl View for Node {
    type V = NodeModel;

    open spec fn view(&self) -> NodeModel {
        NodeModel {
            token: self.token,
            parent: opt_idx(self.parent),
            children: self.children@.map_values(|c: usize| c as int),
            scope: self.scope as int,
        }
    }
}

impl DeepView for Node {
    type V = NodeModel;

    open spec fn deep_view(&self) -> NodeModel {
        self@
    }
}

impl View for CtxNode {
    type V = ScopeModel;

    open spec fn view(&self) -> ScopeModel {
        ScopeModel {
            id: self.id as int,
            bindings: bindings_view(self.bindings@),
            parent: opt_idx(self.parent),
            children: self.children@.map_values(|c: usize| c as int),
            expression: opt_idx(self.expression),
        }
    }
}

impl DeepView for CtxNode {
    type V = ScopeModel;

    open spec fn deep_view(&self) -> ScopeModel {
        self@
    }
}

impl View for ScopeTree {
    type V = TreeModel;

    open spec fn view(&self) -> TreeModel {
        TreeModel {
            nodes: self.nodes.deep_view(),
            scopes: self.scopes.deep_view(),
            roots: self.roots@.map_values(|r: usize| r as int),
        }
    }
}

/// The state of the building pass after some prefix of the tokens.
#[verifier::ext_equal]
pub struct BuildState {
    pub nodes: Seq<NodeModel>,
    pub scopes: Seq<ScopeModel>,
    /// The expression node that newly created nodes attach to.
    pub current: Option<int>,
    /// The scope that newly created nodes belong to.
    pub cur_scope: int,
    /// The number of groups currently open.
    pub depth: int,
    /// Top-level expression nodes recorded so far.
    pub roots: Seq<int>,
}

/// The state before any token: empty arenas but for the root scope (id 0).
pub open spec fn init_state() -> BuildState {
    BuildState {
        nodes: Seq::empty(),
        scopes: seq![
            ScopeModel {
                id: 0,
                bindings: Seq::empty(),
                parent: None,
                children: Seq::empty(),
                expression: None,
            },
        ],
        current: None,
        cur_scope: 0,
        depth: 0,
        roots: Seq::empty(),
    }
}

/// Appends a node for `token` under the current expression node; operator
/// and keyword nodes become the new current node, value nodes stay leaves.
pub open spec fn push_node(st: BuildState, token: Token, becomes_current: bool) -> BuildState {
    let idx = st.nodes.len() as int;
    let node = NodeModel { token, parent: st.current, children: Seq::empty(), scope: st.cur_scope };
    let nodes1 = st.nodes.push(node);
    let nodes2 = match st.current {
        Some(p) => nodes1.update(
            p,
            NodeModel { children: nodes1[p].children.push(idx), ..nodes1[p] },
        ),
        None => nodes1,
    };
    BuildState {
        nodes: nodes2,
        current: if becomes_current {
            Some(idx)
        } else {
            st.current
        },
        ..st
    }
}

/// Opens a group: a fresh scope whose parent is the current scope.
pub open spec fn open_scope(st: BuildState) -> BuildState {
    let idx = st.scopes.len() as int;
    let sc = ScopeModel {
        id: idx,
        bindings: Seq::empty(),
        parent: Some(st.cur_scope),
        children: Seq::empty(),
        expression: None,
    };
    BuildState { scopes: st.scopes.push(sc), cur_scope: idx, depth: st.depth + 1, ..st }
}

/// First phase of closing a group: if an expression node is current, record
/// it as a top-level result when it has no parent, attach it as the current
/// scope's root expression, and pop one level of expression nesting.
pub open spec fn close_scope_expr(st: BuildState) -> BuildState {
    match st.current {
        Some(c) => BuildState {
            roots: if st.nodes[c].parent is None {
                st.roots.push(c)
            } else {
                st.roots
            },
            scopes: st.scopes.update(
                st.cur_scope,
                ScopeModel { expression: Some(c), ..st.scopes[st.cur_scope] },
            ),
            current: st.nodes[c].parent,
            ..st
        },
        None => st,
    }
}

/// Second phase of closing a group: hang the closed scope on its parent
/// scope, which becomes current again.
pub open spec fn close_scope_pop(st: BuildState) -> BuildState {
    match st.scopes[st.cur_scope].parent {
        Some(p) => BuildState {
            scopes: st.scopes.update(
                p,
                ScopeModel { children: st.scopes[p].children.push(st.cur_scope), ..st.scopes[p] },
            ),
            cur_scope: p,
            ..st
        },
        None => st,
    }
}

/// Closes the innermost open group: records the current expression node as a
/// top-level result if it has no parent, attaches it as the scope's root
/// expression, pops one level of expression nesting, and hangs the scope on
/// its parent scope, which becomes current again.
pub open spec fn close_scope(st: BuildState) -> BuildState {
    BuildState { depth: st.depth - 1, ..close_scope_pop(close_scope_expr(st)) }
}

/// One step of the building pass.
pub open spec fn build_step(st: BuildState, t: Token) -> Result<BuildState, BuildError> {
    match t {
        Token::Operator(_) => Ok(push_node(st, t, true)),
        Token::Keyword(_) => Ok(push_node(st, t, true)),
        Token::Value(_) => Ok(push_node(st, t, false)),
        Token::OpenParenthesis => Ok(open_scope(st)),
        Token::CloseParenthesis => if st.depth == 0 {
            Err(BuildError::UnbalancedParentheses)
        } else {
            Ok(close_scope(st))
        },
        Token::TokenizationError(s) => Err(BuildError::Tokenization(s)),
    }
}

/// The building pass from state `st` over the tokens from position `k` on.
pub open spec fn build_from(st: BuildState, tokens: Seq<Token>, k: int) -> Result<
    BuildState,
    BuildError,
>
    decreases tokens.len() - k,
{
    if k < 0 || k >= tokens.len() {
        Ok(st)
    } else {
        match build_step(st, tokens[k]) {
            Ok(st2) => build_from(st2, tokens, k + 1),
            Err(e) => Err(e),
        }
    }
}

/// What building a whole token sequence yields: the fold over all tokens,
/// which must end with no group left open.
pub open spec fn build_spec(tokens: Seq<Token>) -> Result<BuildState, BuildError> {
    match build_from(init_state(), tokens, 0) {
        Ok(st) => if st.depth == 0 {
            Ok(st)
        } else {
            Err(BuildError::UnbalancedParentheses)
        },
        Err(e) => Err(e),
    }
}

/// Well-formedness of one expression node at index `i`: the parent sits
/// earlier in the arena and is an operator or keyword node, children sit
/// later, the scope index is in range, the token is one that forms nodes,
/// and value nodes are leaves.
pub open spec fn wf_node(nodes: Seq<NodeModel>, i: int, n_scopes: int) -> bool {
    let n = nodes[i];
    &&& match n.parent {
        Some(p) => 0 <= p < i && (nodes[p].token is Operator || nodes[p].token is Keyword),
        None => true,
    }
    &&& forall|k: int| 0 <= k < n.children.len() ==> i < #[trigger] n.children[k] < nodes.len()
    &&& 0 <= n.scope < n_scopes
    &&& (n.token is Operator || n.token is Value || n.token is Keyword)
    &&& (n.token is Value ==> n.children.len() == 0)
}

pub open spec fn wf_nodes(nodes: Seq<NodeModel>, n_scopes: int) -> bool {
    forall|i: int| 0 <= i < nodes.len() ==> #[trigger] wf_node(nodes, i, n_scopes)
}

/// Binding keys are pairwise distinct.
pub open spec fn uniq_keys(bs: Seq<(Seq<char>, Value)>) -> bool {
    forall|a: int, b: int|
        0 <= a < b < bs.len() ==> (#[trigger] bs[a]).0 != (#[trigger] bs[b]).0
}

/// Well-formedness of one scope node at index `j`: its id is its index, its
/// parent sits earlier (and exists unless `j` is the root), children sit
/// later, the attached expression is in range, and binding keys are unique.
pub open spec fn wf_scope(scopes: Seq<ScopeModel>, j: int, n_nodes: int) -> bool {
    let sc = scopes[j];
    &&& sc.id == j
    &&& match sc.parent {
        Some(p) => 0 <= p < j,
        None => true,
    }
    &&& (j > 0 ==> sc.parent is Some)
    &&& forall|k: int| 0 <= k < sc.children.len() ==> j < #[trigger] sc.children[k] < scopes.len()
    &&& match sc.expression {
        Some(e) => 0 <= e < n_nodes,
        None => true,
    }
    &&& uniq_keys(sc.bindings)
}

pub open spec fn wf_scopes(scopes: Seq<ScopeModel>, n_nodes: int) -> bool {
    &&& scopes.len() >= 1
    &&& scopes[0].parent is None
    &&& forall|j: int| 0 <= j < scopes.len() ==> #[trigger] wf_scope(scopes, j, n_nodes)
}

/// Well-formedness of the parallel trees together.
pub open spec fn wf_tree(nodes: Seq<NodeModel>, scopes: Seq<ScopeModel>) -> bool {
    wf_nodes(nodes, scopes.len() as int) && wf_scopes(scopes, nodes.len() as int)
}

/// Every scope's parent index is smaller than its own; enough for walks up
/// the parent chain to terminate.
pub open spec fn parents_ordered(scopes: Seq<ScopeModel>) -> bool {
    forall|j: int| 0 <= j < scopes.len() ==> match (#[trigger] scopes[j]).parent {
        Some(p) => 0 <= p < j,
        None => true,
    }
}

/// The number of parent links from scope `j` up to a root.
pub open spec fn scope_depth(scopes: Seq<ScopeModel>, j: int) -> int
    decreases j,
        when 0 <= j < scopes.len() && parents_ordered(scopes)
{
    match scopes[j].parent {
        None => 0,
        Some(p) => 1 + scope_depth(scopes, p),
    }
}

/// The invariant of the building pass: the trees are well-formed, the
/// current node (if any) is an operator or keyword node in range, and the
/// open-group count equals the nesting depth of the current scope.
pub open spec fn state_inv(st: BuildState) -> bool {
    &&& wf_tree(st.nodes, st.scopes)
    &&& 0 <= st.cur_scope < st.scopes.len()
    &&& match st.current {
        Some(c) => 0 <= c < st.nodes.len() && (st.nodes[c].token is Operator || st.nodes[c].token
            is Keyword),
        None => true,
    }
    &&& forall|r: int| 0 <= r < st.roots.len() ==> 0 <= #[trigger] st.roots[r] < st.nodes.len()
    &&& st.depth == scope_depth(st.scopes, st.cur_scope)
    &&& st.depth >= 0
}

/// Well-formed scopes have ordered parent links.
pub proof fn lemma_parents_ordered(scopes: Seq<ScopeModel>, n_nodes: int)
    requires
        forall|j: int| 0 <= j < scopes.len() ==> #[trigger] wf_scope(scopes, j, n_nodes),
    ensures
        parents_ordered(scopes),
{
    assert forall|j: int| 0 <= j < scopes.len() implies match (#[trigger] scopes[j]).parent {
        Some(p) => 0 <= p < j,
        None => true,
    } by {
        assert(wf_scope(scopes, j, n_nodes));
    }
}

proof fn lemma_scope_depth_nonneg(scopes: Seq<ScopeModel>, j: int)
    requires
        parents_ordered(scopes),
        0 <= j < scopes.len(),
    ensures
        scope_depth(scopes, j) >= 0,
    decreases j,
{
    match scopes[j].parent {
        None => {},
        Some(p) => {
            lemma_scope_depth_nonneg(scopes, p);
        },
    }
}

/// Two scope arenas of equal length whose parent links agree give every
/// scope the same depth.
proof fn lemma_scope_depth_same(s1: Seq<ScopeModel>, s2: Seq<ScopeModel>, j: int)
    requires
        parents_ordered(s1),
        s1.len() == s2.len(),
        forall|l: int| 0 <= l < s1.len() ==> (#[trigger] s1[l]).parent == s2[l].parent,
        0 <= j < s1.len(),
    ensures
        scope_depth(s1, j) == scope_depth(s2, j),
    decreases j,
{
    assert forall|l: int| 0 <= l < s2.len() implies match (#[trigger] s2[l]).parent {
        Some(p) => 0 <= p < l,
        None => true,
    } by {
        assert(s1[l].parent == s2[l].parent);
    }
    match s1[j].parent {
        None => {},
        Some(p) => {
            lemma_scope_depth_same(s1, s2, p);
        },
    }
}

/// Appending scopes does not change the depth of the existing ones.
proof fn lemma_scope_depth_push(s: Seq<ScopeModel>, sc: ScopeModel, j: int)
    requires
        parents_ordered(s),
        parents_ordered(s.push(sc)),
        0 <= j < s.len(),
    ensures
        scope_depth(s.push(sc), j) == scope_depth(s, j),
    decreases j,
{
    match s[j].parent {
        None => {},
        Some(p) => {
            lemma_scope_depth_push(s, sc, p);
        },
    }
}

/// One building step keeps the pass invariant.
proof fn lemma_step_inv(st: BuildState, t: Token)
    requires
        state_inv(st),
    ensures
        build_step(st, t) matches Ok(st2) ==> state_inv(st2),
{
    match t {
        Token::Operator(_) | Token::Keyword(_) | Token::Value(_) => {
            let becomes = !(t is Value);
            let st2 = push_node(st, t, becomes);
            let idx = st.nodes.len() as int;
            assert forall|i: int| 0 <= i < st2.nodes.len() implies #[trigger] wf_node(
                st2.nodes,
                i,
                st2.scopes.len() as int,
            ) by {
                if i < idx {
                    assert(wf_node(st.nodes, i, st.scopes.len() as int));
                }
            }
            assert forall|j: int| 0 <= j < st2.scopes.len() implies #[trigger] wf_scope(
                st2.scopes,
                j,
                st2.nodes.len() as int,
            ) by {
                assert(wf_scope(st.scopes, j, st.nodes.len() as int));
            }
            assert(state_inv(st2));
        },
        Token::OpenParenthesis => {
            let st2 = open_scope(st);
            let idx = st.scopes.len() as int;
            assert forall|i: int| 0 <= i < st2.nodes.len() implies #[trigger] wf_node(
                st2.nodes,
                i,
                st2.scopes.len() as int,
            ) by {
                assert(wf_node(st.nodes, i, st.scopes.len() as int));
            }
            assert forall|j: int| 0 <= j < st2.scopes.len() implies #[trigger] wf_scope(
                st2.scopes,
                j,
                st2.nodes.len() as int,
            ) by {
                if j < idx {
                    assert(wf_scope(st.scopes, j, st.nodes.len() as int));
                    assert(st2.scopes[j] == st.scopes[j]);
                }
            }
            lemma_parents_ordered(st.scopes, st.nodes.len() as int);
            lemma_parents_ordered(st2.scopes, st2.nodes.len() as int);
            lemma_scope_depth_push(st.scopes, st2.scopes[idx], st.cur_scope);
            assert(scope_depth(st2.scopes, idx) == 1 + scope_depth(st2.scopes, st.cur_scope));
            assert(state_inv(st2));
        },
        Token::CloseParenthesis => {
            if st.depth != 0 {
                let st2 = close_scope(st);
                lemma_close_inv(st);
                assert(state_inv(st2));
            }
        },
        Token::TokenizationError(_) => {},
    }
}

/// Closing a group keeps the pass invariant.
proof fn lemma_close_inv(st: BuildState)
    requires
        state_inv(st),
        st.depth > 0,
    ensures
        state_inv(close_scope(st)),
{
    let st1 = close_scope_expr(st);
    lemma_parents_ordered(st.scopes, st.nodes.len() as int);
    // The current scope is below the root, so it has a parent.
    assert(scope_depth(st.scopes, st.cur_scope) > 0);
    assert(st.scopes[st.cur_scope].parent is Some);
    assert(forall|l: int|
        0 <= l < st.scopes.len() ==> (#[trigger] st1.scopes[l]).parent == st.scopes[l].parent);
    assert forall|j: int| 0 <= j < st1.scopes.len() implies #[trigger] wf_scope(
        st1.scopes,
        j,
        st1.nodes.len() as int,
    ) by {
        assert(wf_scope(st.scopes, j, st.nodes.len() as int));
    }
    assert(wf_nodes(st1.nodes, st1.scopes.len() as int));
    let p = st1.scopes[st1.cur_scope].parent->Some_0;
    let st2 = close_scope_pop(st1);
    assert(st2.cur_scope == p);
    assert(forall|l: int|
        0 <= l < st.scopes.len() ==> (#[trigger] st2.scopes[l]).parent == st.scopes[l].parent);
    assert forall|j: int| 0 <= j < st2.scopes.len() implies #[trigger] wf_scope(
        st2.scopes,
        j,
        st2.nodes.len() as int,
    ) by {
        assert(wf_scope(st1.scopes, j, st1.nodes.len() as int));
    }
    assert(wf_nodes(st2.nodes, st2.scopes.len() as int));
    lemma_scope_depth_same(st.scopes, st2.scopes, st.cur_scope);
    lemma_scope_depth_same(st.scopes, st2.scopes, p);
    assert(scope_depth(st2.scopes, p) == st.depth - 1);
    match st.current {
        Some(c) => {
            assert(wf_node(st.nodes, c, st.scopes.len() as int));
        },
        None => {},
    }
    assert(close_scope(st) == BuildState { depth: st.depth - 1, ..st2 });
}

/// The building pass keeps its invariant over any token suffix.
proof fn lemma_build_from_inv(st: BuildState, tokens: Seq<Token>, k: int)
    requires
        state_inv(st),
    ensures
        build_from(st, tokens, k) matches Ok(st2) ==> state_inv(st2),
    decreases tokens.len() - k,
{
    if 0 <= k < tokens.len() {
        match build_step(st, tokens[k]) {
            Ok(st2) => {
                lemma_step_inv(st, tokens[k]);
                lemma_build_from_inv(st2, tokens, k + 1);
            },
            Err(_) => {},
        }
    }
}

proof fn lemma_init_inv()
    ensures
        state_inv(init_state()),
{
    let st = init_state();
    assert(wf_nodes(st.nodes, 1));
    assert(wf_scope(st.scopes, 0, 0));
    assert(scope_depth(st.scopes, 0) == 0);
}

/// How many opening parentheses a token sequence holds.
pub open spec fn opens(tokens: Seq<Token>) -> int
    decreases tokens.len(),
{
    if tokens.len() == 0 {
        0
    } else {
        opens(tokens.drop_last()) + if tokens.last() is OpenParenthesis {
            1int
        } else {
            0int
        }
    }
}

/// How many closing parentheses a token sequence holds.
pub open spec fn closes(tokens: Seq<Token>) -> int
    decreases tokens.len(),
{
    if tokens.len() == 0 {
        0
    } else {
        closes(tokens.drop_last()) + if tokens.last() is CloseParenthesis {
            1int
        } else {
            0int
        }
    }
}

/// Parentheses balance: as many openings as closings, and no prefix with
/// more closings than openings.
pub open spec fn balanced(tokens: Seq<Token>) -> bool {
    &&& opens(tokens) == closes(tokens)
    &&& forall|i: int|
        0 <= i <= tokens.len() ==> closes(#[trigger] tokens.subrange(0, i)) <= opens(
            tokens.subrange(0, i),
        )
}

/// Splitting off the first token splits the parenthesis counts.
proof fn lemma_counts_split(tokens: Seq<Token>, k: int, i: int)
    requires
        0 <= k < i <= tokens.len(),
    ensures
        opens(tokens.subrange(k, i)) == (if tokens[k] is OpenParenthesis {
            1int
        } else {
            0int
        }) + opens(tokens.subrange(k + 1, i)),
        closes(tokens.subrange(k, i)) == (if tokens[k] is CloseParenthesis {
            1int
        } else {
            0int
        }) + closes(tokens.subrange(k + 1, i)),
    decreases i - k,
{
    if k + 1 == i {
        assert(tokens.subrange(k, i).drop_last() =~= Seq::<Token>::empty());
        assert(tokens.subrange(k + 1, i) =~= Seq::<Token>::empty());
        assert(tokens.subrange(k, i).last() == tokens[k]);
        assert(opens(Seq::<Token>::empty()) == 0);
        assert(closes(Seq::<Token>::empty()) == 0);
        assert(opens(tokens.subrange(k, i)) == opens(tokens.subrange(k, i).drop_last()) + (
        if tokens.subrange(k, i).last() is OpenParenthesis {
            1int
        } else {
            0int
        }));
        assert(closes(tokens.subrange(k, i)) == closes(tokens.subrange(k, i).drop_last()) + (
        if tokens.subrange(k, i).last() is CloseParenthesis {
            1int
        } else {
            0int
        }));
    } else {
        lemma_counts_split(tokens, k, i - 1);
        assert(tokens.subrange(k, i).drop_last() =~= tokens.subrange(k, i - 1));
        assert(tokens.subrange(k + 1, i).drop_last() =~= tokens.subrange(k + 1, i - 1));
        assert(tokens.subrange(k, i).last() == tokens[i - 1]);
        assert(tokens.subrange(k + 1, i).last() == tokens[i - 1]);
        assert(opens(tokens.subrange(k, i)) == opens(tokens.subrange(k, i - 1)) + (
        if tokens[i - 1] is OpenParenthesis {
            1int
        } else {
            0int
        }));
        assert(opens(tokens.subrange(k + 1, i)) == opens(tokens.subrange(k + 1, i - 1)) + (
        if tokens[i - 1] is OpenParenthesis {
            1int
        } else {
            0int
        }));
        assert(closes(tokens.subrange(k, i)) == closes(tokens.subrange(k, i - 1)) + (
        if tokens[i - 1] is CloseParenthesis {
            1int
        } else {
            0int
        }));
        assert(closes(tokens.subrange(k + 1, i)) == closes(tokens.subrange(k + 1, i - 1)) + (
        if tokens[i - 1] is CloseParenthesis {
            1int
        } else {
            0int
        }));
    }
}

/// Over a stream without tokenization-error markers, the building pass from
/// state `st` succeeds exactly when no suffix prefix closes more groups
/// than stand open, and it then leaves `depth` raised by the surplus of
/// openings.
proof fn lemma_balance_from(st: BuildState, tokens: Seq<Token>, k: int)
    requires
        state_inv(st),
        0 <= k <= tokens.len(),
        forall|i: int| k <= i < tokens.len() ==> !((#[trigger] tokens[i]) is TokenizationError),
    ensures
        build_from(st, tokens, k) is Ok <==> (forall|i: int|
            k <= i <= tokens.len() ==> closes(#[trigger] tokens.subrange(k, i)) <= st.depth
                + opens(tokens.subrange(k, i))),
        build_from(st, tokens, k) matches Ok(st2) ==> st2.depth == st.depth + opens(
            tokens.subrange(k, tokens.len() as int),
        ) - closes(tokens.subrange(k, tokens.len() as int)),
    decreases tokens.len() - k,
{
    assert(tokens.subrange(k, k) =~= Seq::<Token>::empty());
    if k == tokens.len() {
    } else {
        let t = tokens[k];
        assert forall|i: int| k < i <= tokens.len() implies {
            &&& opens(tokens.subrange(k, i)) == (if t is OpenParenthesis {
                1int
            } else {
                0int
            }) + opens(tokens.subrange(k + 1, i))
            &&& closes(tokens.subrange(k, i)) == (if t is CloseParenthesis {
                1int
            } else {
                0int
            }) + closes(tokens.subrange(k + 1, i))
        } by {
            lemma_counts_split(tokens, k, i);
        }
        match build_step(st, t) {
            Ok(st2) => {
                lemma_step_inv(st, t);
                lemma_balance_from(st2, tokens, k + 1);
                assert(st2.depth == st.depth + (if t is OpenParenthesis {
                    1int
                } else {
                    0int
                }) - (if t is CloseParenthesis {
                    1int
                } else {
                    0int
                }));
                if build_from(st2, tokens, k + 1) is Ok {
                    assert forall|i: int|
                        k <= i <= tokens.len() implies closes(#[trigger] tokens.subrange(k, i))
                        <= st.depth + opens(tokens.subrange(k, i)) by {
                        if i > k {
                            assert(closes(tokens.subrange(k + 1, i)) <= st2.depth + opens(
                                tokens.subrange(k + 1, i),
                            ));
                        }
                    }
                } else {
                    let i0 = choose|i: int|
                        k + 1 <= i <= tokens.len() && !(closes(#[trigger] tokens.subrange(k + 1, i))
                            <= st2.depth + opens(tokens.subrange(k + 1, i)));
                    assert(!(closes(tokens.subrange(k, i0)) <= st.depth + opens(
                        tokens.subrange(k, i0),
                    )));
                }
            },
            Err(_) => {
                // Only an over-closing parenthesis can fail here: the
                // prefix of length one closes more than stands open.
                assert(t is CloseParenthesis && st.depth == 0);
                assert(tokens.subrange(k, k + 1) =~= seq![t]);
                assert(closes(seq![t]) == 1 && opens(seq![t]) == 0) by {
                    assert(seq![t].drop_last() =~= Seq::<Token>::empty());
                }
            },
        }
    }
}

/// The balance law: over a token stream without tokenization-error
/// markers, building succeeds exactly when the number of opening and
/// closing parentheses agree and no prefix of the stream closes more
/// groups than it has opened.
pub proof fn lemma_build_balance(tokens: Seq<Token>)
    requires
        forall|i: int| 0 <= i < tokens.len() ==> !((#[trigger] tokens[i]) is TokenizationError),
    ensures
        build_spec(tokens) is Ok <==> balanced(tokens),
{
    lemma_init_inv();
    lemma_balance_from(init_state(), tokens, 0);
    assert(tokens.subrange(0, tokens.len() as int) =~= tokens);
    if build_spec(tokens) is Ok {
        assert forall|i: int| 0 <= i <= tokens.len() implies closes(
            #[trigger] tokens.subrange(0, i),
        ) <= opens(tokens.subrange(0, i)) by {
            assert(closes(tokens.subrange(0, i)) <= init_state().depth + opens(
                tokens.subrange(0, i),
            ));
        }
    } else {
        if balanced(tokens) {
            assert forall|i: int| 0 <= i <= tokens.len() implies closes(
                #[trigger] tokens.subrange(0, i),
            ) <= init_state().depth + opens(tokens.subrange(0, i)) by {
                assert(closes(tokens.subrange(0, i)) <= opens(tokens.subrange(0, i)));
            }
            assert(build_from(init_state(), tokens, 0) is Ok);
            assert(false);
        }
    }
}

/// The tokens of a token-data sequence, stripped of position metadata.
pub open spec fn tokens_of(tds: Seq<TokenData>) -> Seq<Token> {
    tds.map_values(|td: TokenData| td.token)
}

/// The model of the builder's working state, read off the executable values.
pub open spec fn abs_state(
    nodes: Seq<NodeModel>,
    scopes: Seq<ScopeModel>,
    current: Option<usize>,
    cur_scope: usize,
    depth: usize,
    roots: Seq<usize>,
) -> BuildState {
    BuildState {
        nodes,
        scopes,
        current: opt_idx(current),
        cur_scope: cur_scope as int,
        depth: depth as int,
        roots: roots.map_values(|r: usize| r as int),
    }
}

impl Node {
    /// The index of the enclosing expression node, if any.
    pub fn get_parent(&self) -> (r: Option<usize>)
        ensures
            r == self.parent,
    {
        self.parent
    }
}

/// Builds the expression tree and the scope tree from a token sequence, in
/// one left-to-right pass, exactly as [`build_spec`] describes: each
/// operator or `def` token opens a new expression context, each value token
/// is a leaf, each `(` opens a scope, each `)` closes the innermost group.
/// Fails on a tokenization-error marker and on unbalanced parentheses.
#[verifier::loop_isolation(false)]
pub fn expressionize(tokens: &Vec<TokenData>) -> (r: Result<ScopeTree, BuildError>)
    ensures
        match build_spec(tokens_of(tokens@)) {
            Ok(st) => r matches Ok(t) && t@.nodes == st.nodes && t@.scopes == st.scopes
                && t@.roots == st.roots && state_inv(st),
            Err(e) => r == Err::<ScopeTree, BuildError>(e),
        },
        r matches Ok(t) ==> wf_tree(t@.nodes, t@.scopes),
{
    let ghost toks = tokens_of(tokens@);
    let mut nodes: Vec<Node> = Vec::new();
    let mut scopes: Vec<CtxNode> = Vec::new();
    scopes.push(
        CtxNode {
            id: 0,
            bindings: Vec::new(),
            parent: None,
            children: Vec::new(),
            expression: None,
        },
    );
    let mut current: Option<usize> = None;
    let mut cur_scope: usize = 0;
    let mut depth: usize = 0;
    let mut roots: Vec<usize> = Vec::new();
    proof {
        lemma_init_inv();
        assert(abs_state(nodes.deep_view(), scopes.deep_view(), current, cur_scope, depth, roots@)
            =~~= init_state());
    }
    let mut k: usize = 0;
    while k < tokens.len()
        invariant
            k <= tokens.len(),
            state_inv(
                abs_state(
                    nodes.deep_view(),
                    scopes.deep_view(),
                    current,
                    cur_scope,
                    depth,
                    roots@,
                ),
            ),
            build_from(init_state(), toks, 0) == build_from(
                abs_state(
                    nodes.deep_view(),
                    scopes.deep_view(),
                    current,
                    cur_scope,
                    depth,
                    roots@,
                ),
                toks,
                k as int,
            ),
            depth <= k,
        decreases tokens.len() - k,
    {
        let ghost st0 = abs_state(
            nodes.deep_view(),
            scopes.deep_view(),
            current,
            cur_scope,
            depth,
            roots@,
        );
        let ghost tk = toks[k as int];
        let tok = tokens[k].token.deep_clone();
        proof {
            assert(tok == tk);
        }
        match tok {
            Token::Operator(op) => {
                let idx = nodes.len();
                nodes.push(
                    Node {
                        token: Token::Operator(op),
                        parent: current,
                        children: Vec::new(),
                        scope: cur_scope,
                    },
                );
                if let Some(p) = current {
                    nodes[p].children.push(idx);
                }
                current = Some(idx);
                proof {
                    let st1 = abs_state(
                        nodes.deep_view(),
                        scopes.deep_view(),
                        current,
                        cur_scope,
                        depth,
                        roots@,
                    );
                    assert(st1 =~~= push_node(st0, tk, true));
                    lemma_step_inv(st0, tk);
                }
            },
            Token::Keyword(kw) => {
                let idx = nodes.len();
                nodes.push(
                    Node {
                        token: Token::Keyword(kw),
                        parent: current,
                        children: Vec::new(),
                        scope: cur_scope,
                    },
                );
                if let Some(p) = current {
                    nodes[p].children.push(idx);
                }
                current = Some(idx);
                proof {
                    let st1 = abs_state(
                        nodes.deep_view(),
                        scopes.deep_view(),
                        current,
                        cur_scope,
                        depth,
                        roots@,
                    );
                    assert(st1 =~~= push_node(st0, tk, true));
                    lemma_step_inv(st0, tk);
                }
            },
            Token::Value(v) => {
                let idx = nodes.len();
                nodes.push(
                    Node {
                        token: Token::Value(v),
                        parent: current,
                        children: Vec::new(),
                        scope: cur_scope,
                    },
                );
                if let Some(p) = current {
                    nodes[p].children.push(idx);
                }
                proof {
                    let st1 = abs_state(
                        nodes.deep_view(),
                        scopes.deep_view(),
                        current,
                        cur_scope,
                        depth,
                        roots@,
                    );
                    assert(st1 =~~= push_node(st0, tk, false));
                    lemma_step_inv(st0, tk);
                }
            },
            Token::OpenParenthesis => {
                depth += 1;
                let idx = scopes.len();
                scopes.push(
                    CtxNode {
                        id: idx,
                        bindings: Vec::new(),
                        parent: Some(cur_scope),
                        children: Vec::new(),
                        expression: None,
                    },
                );
                cur_scope = idx;
                proof {
                    let st1 = abs_state(
                        nodes.deep_view(),
                        scopes.deep_view(),
                        current,
                        cur_scope,
                        depth,
                        roots@,
                    );
                    assert(st1 =~~= open_scope(st0));
                    lemma_step_inv(st0, tk);
                }
            },
            Token::CloseParenthesis => {
                if depth == 0 {
                    proof {
                        assert(build_from(st0, toks, k as int) == Err::<
                            BuildState,
                            BuildError,
                        >(BuildError::UnbalancedParentheses));
                    }
                    return Err(BuildError::UnbalancedParentheses);
                }
                depth -= 1;
                if let Some(c) = current {
                    if nodes[c].parent.is_none() {
                        roots.push(c);
                    }
                    scopes[cur_scope].expression = Some(c);
                    current = nodes[c].parent;
                }
                let ghost sp1 = close_scope_expr(st0);
                proof {
                    assert(scopes.deep_view() =~~= sp1.scopes);
                    assert(roots@.map_values(|r: usize| r as int) =~~= sp1.roots);
                    assert(opt_idx(current) == sp1.current);
                    assert(scopes.deep_view()[cur_scope as int].parent == st0.scopes[cur_scope
                        as int].parent);
                    assert(wf_scope(st0.scopes, cur_scope as int, st0.nodes.len() as int));
                }
                if let Some(p) = scopes[cur_scope].parent {
                    scopes[p].children.push(cur_scope);
                    cur_scope = p;
                }
                proof {
                    let st1 = abs_state(
                        nodes.deep_view(),
                        scopes.deep_view(),
                        current,
                        cur_scope,
                        depth,
                        roots@,
                    );
                    assert(st1.scopes =~~= close_scope_pop(sp1).scopes);
                    assert(st1 =~~= close_scope(st0));
                    lemma_step_inv(st0, tk);
                }
            },
            Token::TokenizationError(s) => {
                proof {
                    assert(build_step(st0, tk) == Err::<BuildState, BuildError>(
                        BuildError::Tokenization(s),
                    ));
                }
                return Err(BuildError::Tokenization(s));
            },
        }
        k += 1;
    }
    if depth != 0 {
        return Err(BuildError::UnbalancedParentheses);
    }
    let tree = ScopeTree { nodes, scopes, roots };
    Ok(tree)
}

} // verus!
