use vstd::prelude::*;
use vstd::pervasive::VecAdditionalExecFns;
use crate::action::{ac_has, ac_len, ac_wf, lemma_ac_empty_has_none, lemma_ac_nonempty_has, lemma_without_has, spec_without, Action, ActionCollection};
use crate::round::{spec_possible_actions, spec_terminal, spec_turn, wf as round_wf, Round};

verus! {

/// Fixed-point scale for UCT scores: 1.0 is represented as 65536.
pub const UCT_SCALE: u64 = 65536;

/// ln 2 in the fixed-point scale.
pub const LN2_FP: u64 = 45426;

/// The exploration constant, sqrt 2, in the fixed-point scale.
pub const UCT_C_FP: u64 = 92682;

/// The arena's pre-allocated node capacity: one search never outgrows it,
/// so a reset between decisions involves no re-allocation.
pub const TREE_CAPACITY: usize = 500000;

/// Floor of the base-2 logarithm (0 for inputs below 2).
pub open spec fn spec_log2(n: nat) -> nat
    decreases n,
{
    if n <= 1 {
        0
    } else {
        1 + spec_log2(n / 2)
    }
}

/// Floor of the square root.
pub open spec fn isqrt_spec(n: nat) -> nat
    decreases n,
{
    if n == 0 {
        0
    } else {
        let r = isqrt_spec((n - 1) as nat);
        if (r + 1) * (r + 1) <= n {
            r + 1
        } else {
            r
        }
    }
}

proof fn lemma_isqrt_bracket(n: nat)
    ensures
        isqrt_spec(n) * isqrt_spec(n) <= n,
        n < (isqrt_spec(n) + 1) * (isqrt_spec(n) + 1),
    decreases n,
{
    if n == 0 {
        assert(isqrt_spec(n) == 0);
        assert(isqrt_spec(n) * isqrt_spec(n) <= n) by (nonlinear_arith)
            requires
                isqrt_spec(n) == 0,
                n == 0,
        ;
        assert(n < (isqrt_spec(n) + 1) * (isqrt_spec(n) + 1)) by (nonlinear_arith)
            requires
                isqrt_spec(n) == 0,
                n == 0,
        ;
    } else {
        lemma_isqrt_bracket((n - 1) as nat);
        let m = (n - 1) as nat;
        let r = isqrt_spec(m);
        assert(r * r <= m);
        assert(m < (r + 1) * (r + 1));
        if (r + 1) * (r + 1) <= n {
            assert(isqrt_spec(n) == r + 1);
            assert((r + 1) * (r + 1) <= n);
            assert(n < ((r + 1) + 1) * ((r + 1) + 1)) by (nonlinear_arith)
                requires
                    m < (r + 1) * (r + 1),
                    n == m + 1,
            ;
            assert(isqrt_spec(n) * isqrt_spec(n) <= n) by (nonlinear_arith)
                requires
                    isqrt_spec(n) == r + 1,
                    (r + 1) * (r + 1) <= n,
            ;
            assert(n < (isqrt_spec(n) + 1) * (isqrt_spec(n) + 1)) by (nonlinear_arith)
                requires
                    isqrt_spec(n) == r + 1,
                    n < ((r + 1) + 1) * ((r + 1) + 1),
            ;
        } else {
            assert(isqrt_spec(n) == r);
            assert(r * r <= n);
            assert(n < (r + 1) * (r + 1)) by (nonlinear_arith)
                requires
                    m < (r + 1) * (r + 1),
                    n == m + 1,
                    !((r + 1) * (r + 1) <= n),
            ;
            assert(isqrt_spec(n) * isqrt_spec(n) <= n) by (nonlinear_arith)
                requires
                    isqrt_spec(n) == r,
                    r * r <= n,
            ;
            assert(n < (isqrt_spec(n) + 1) * (isqrt_spec(n) + 1)) by (nonlinear_arith)
                requires
                    isqrt_spec(n) == r,
                    n < (r + 1) * (r + 1),
            ;
        }
    }
}

proof fn lemma_isqrt_unique(n: nat, a: nat)
    requires
        a * a <= n,
        n < (a + 1) * (a + 1),
    ensures
        a == isqrt_spec(n),
{
    lemma_isqrt_bracket(n);
    let b = isqrt_spec(n);
    if a < b {
        assert(false) by (nonlinear_arith)
            requires
                a < b,
                b * b <= n,
                n < (a + 1) * (a + 1),
        ;
    }
    if b < a {
        assert(false) by (nonlinear_arith)
            requires
                b < a,
                a * a <= n,
                n < (b + 1) * (b + 1),
        ;
    }
}

proof fn lemma_isqrt_mono(a: nat, b: nat)
    requires
        a <= b,
    ensures
        isqrt_spec(a) <= isqrt_spec(b),
    decreases b,
{
    if a < b {
        lemma_isqrt_mono(a, (b - 1) as nat);
    }
}

/// ln of the parent visit count, approximated as floor(log2) * ln 2, in
/// the fixed-point scale.
pub open spec fn spec_ln_fp(n: nat) -> int {
    spec_log2(n) * (LN2_FP as int)
}

/// The UCT exploration term in the fixed-point scale:
/// C * sqrt(ln(parent) / visits), computed with integer square root.
pub open spec fn spec_expl(parent: nat, visits: nat) -> int
    recommends
        visits >= 1,
{
    let t = spec_ln_fp(parent) * (UCT_SCALE as int) / (visits as int);
    (UCT_C_FP as int) * isqrt_spec(t as nat) / (UCT_SCALE as int)
}

/// The UCT score of a child in the fixed-point scale: its average reward
/// (half points normalized to [0, 2] * scale / 2) plus the exploration
/// term.
pub open spec fn spec_uct(total: nat, visits: nat, parent: nat) -> int
    recommends
        visits >= 1,
{
    (total as int) * (UCT_SCALE as int) / (2 * visits as int) + spec_expl(parent, visits)
}

/// UCT monotonicity. Holding the parent's visit count fixed (with at
/// least two visits, so the logarithm is positive), a child visited more
/// often has the strictly smaller exploration ratio ln(parent)/visits —
/// stated exactly, as the cross-multiplied rational comparison — and,
/// since the square root is strictly monotone, the strictly smaller real
/// exploration term. The computed fixed-point term never increases.
pub proof fn lemma_uct_exploration_monotone(parent: nat, n1: nat, n2: nat)
    requires
        parent >= 2,
        1 <= n1 < n2,
    ensures
        spec_ln_fp(parent) * n2 > spec_ln_fp(parent) * n1,
        spec_expl(parent, n2) <= spec_expl(parent, n1),
{
    assert(spec_log2(parent) >= 1);
    assert(spec_ln_fp(parent) >= LN2_FP as int) by (nonlinear_arith)
        requires
            spec_log2(parent) >= 1,
    ;
    assert(spec_ln_fp(parent) * n2 > spec_ln_fp(parent) * n1) by (nonlinear_arith)
        requires
            spec_ln_fp(parent) >= 1,
            n1 < n2,
    ;
    let a = spec_ln_fp(parent) * (UCT_SCALE as int);
    assert(a >= 0) by (nonlinear_arith)
        requires
            spec_ln_fp(parent) >= 1,
            a == spec_ln_fp(parent) * (UCT_SCALE as int),
    ;
    vstd::arithmetic::div_mod::lemma_div_is_ordered_by_denominator(a, n1 as int, n2 as int);
    assert(a / n2 as int >= 0) by (nonlinear_arith)
        requires
            a >= 0,
            n2 >= 1,
    ;
    lemma_isqrt_mono((a / n2 as int) as nat, (a / n1 as int) as nat);
    vstd::arithmetic::div_mod::lemma_div_is_ordered(
        (UCT_C_FP as int) * isqrt_spec((a / n2 as int) as nat),
        (UCT_C_FP as int) * isqrt_spec((a / n1 as int) as nat),
        UCT_SCALE as int,
    );
    assert((UCT_C_FP as int) * isqrt_spec((a / n2 as int) as nat) <= (UCT_C_FP as int)
        * isqrt_spec((a / n1 as int) as nat)) by (nonlinear_arith)
        requires
            isqrt_spec((a / n2 as int) as nat) <= isqrt_spec((a / n1 as int) as nat),
    ;
}

/// Floor of the base-2 logarithm, with the bound a 32-bit input allows.
fn log2_floor(n: u32) -> (r: u32)
    ensures
        r == spec_log2(n as nat),
        r <= 31,
{
    broadcast use vstd::arithmetic::power2::lemma_pow2_unfold;
    broadcast use vstd::arithmetic::power2::lemma_pow2_pos;

    let mut m: u32 = n;
    let mut k: u32 = 0;
    let mut p2: u64 = 1;
    proof {
        vstd::arithmetic::power2::lemma2_to64();
    }
    while m >= 2
        invariant
            spec_log2(n as nat) == k + spec_log2(m as nat),
            p2 == vstd::arithmetic::power2::pow2(k as nat),
            m >= 1 || n == 0,
            (p2 as int) * (m as int) <= n as int,
            k <= 32,
        decreases m,
    {
        proof {
            vstd::arithmetic::power2::lemma_pow2_pos(k as nat);
            assert((2 * (p2 as int)) * ((m / 2) as int) <= (p2 as int) * (m as int))
                by (nonlinear_arith)
                requires
                    p2 >= 1,
                    m >= 2,
            ;
            assert((p2 as int) * (m as int) >= p2 as int) by (nonlinear_arith)
                requires
                    m >= 1,
                    p2 >= 1,
            ;
            if k >= 32 {
                vstd::arithmetic::power2::lemma2_to64();
                assert(p2 == vstd::arithmetic::power2::pow2(32));
                assert(false);
            }
        }
        m = m / 2;
        k = k + 1;
        p2 = p2 * 2;
        proof {
            vstd::arithmetic::power2::lemma_pow2_unfold(k as nat);
        }
    }
    proof {
        if k > 31 {
            assert(k == 32);
            vstd::arithmetic::power2::lemma2_to64();
            assert(p2 == 0x1_0000_0000);
            assert((p2 as int) <= (p2 as int) * (m as int)) by (nonlinear_arith)
                requires
                    m >= 1,
                    p2 >= 0,
            ;
            assert(false);
        }
    }
    k
}

/// Floor of the square root of a 64-bit value.
fn isqrt(n: u64) -> (r: u64)
    ensures
        r == isqrt_spec(n as nat),
{
    let mut lo: u64 = 0;
    let mut hi: u64 = 4294967296;
    proof {
        assert((4294967296int) * (4294967296int) > n as int) by (nonlinear_arith)
            requires
                n <= 0xffff_ffff_ffff_ffffu64,
        ;
    }
    while lo + 1 < hi
        invariant
            lo < hi <= 4294967296,
            (lo as int) * (lo as int) <= n as int,
            (hi as int) * (hi as int) > n as int,
        decreases hi - lo,
    {
        let mid = lo + (hi - lo) / 2;
        proof {
            assert((mid as int) * (mid as int) < 0xffff_ffff_ffff_ffff) by (nonlinear_arith)
                requires
                    mid < 4294967296,
            ;
        }
        if mid * mid <= n {
            lo = mid;
        } else {
            hi = mid;
        }
    }
    proof {
        lemma_isqrt_unique(n as nat, lo as nat);
    }
    lo
}

/// The fixed-point UCT score of a child with the given accumulated
/// reward (half points) and visit count, under a parent with the given
/// visit count.
pub fn uct_score(total: u64, visits: u32, parent: u32) -> (r: u64)
    requires
        visits >= 1,
        total <= 2 * (visits as u64),
    ensures
        r == spec_uct(total as nat, visits as nat, parent as nat),
{
    let avg = total * UCT_SCALE / (2 * (visits as u64));
    proof {
        assert(total * UCT_SCALE <= 2 * (visits as u64) * UCT_SCALE) by (nonlinear_arith)
            requires
                total <= 2 * (visits as u64),
        ;
    }
    let lf = (log2_floor(parent) as u64) * LN2_FP;
    let t = lf * UCT_SCALE / (visits as u64);
    proof {
        assert(t <= lf * UCT_SCALE) by {
            vstd::arithmetic::div_mod::lemma_div_is_ordered_by_denominator(
                (lf * UCT_SCALE) as int,
                1,
                visits as int,
            );
        }
    }
    let s = isqrt(t);
    proof {
        lemma_isqrt_bracket(t as nat);
        if s >= 4294967296 {
            assert((s as int) * (s as int) >= (4294967296int) * (4294967296int))
                by (nonlinear_arith)
                requires
                    s >= 4294967296,
            ;
        }
    }
    let ex = UCT_C_FP * s / UCT_SCALE;
    avg + ex
}

/// One step down the tree: the action that was taken and the seat that
/// took it.
#[derive(Clone, Copy, Debug)]
pub struct Edge {
    pub action: Action,
    pub player: usize,
}

/// One node of the search arena: its incoming edge and parent (absent at
/// the root), its children, whether its state was terminal, its visit
/// statistics, and the actions already expanded from it.
#[derive(Debug)]
pub struct Node {
    pub edge: Option<Edge>,
    pub parent_id: Option<usize>,
    pub children: Vec<usize>,
    pub is_terminal: bool,
    pub num_sims: u32,
    pub total_reward: u64,
    pub tried: ActionCollection,
}

/// The arena-indexed search tree: nodes own no references to each other;
/// all links are indices into one vector.
#[derive(Debug)]
pub struct Tree {
    pub nodes: Vec<Node>,
}

/// A sound node: links only point backwards (parent) or forwards
/// (children) inside the arena, so the links form a true tree; every
/// child's parent link points back at this node; edges come exactly with
/// parents; the accumulated reward never exceeds two half-points per
/// visit.
pub open spec fn node_ok(t: Tree, i: int) -> bool {
    let nd = t.nodes@[i];
    &&& (nd.parent_id is Some ==> nd.parent_id->0 < i)
    &&& (nd.parent_id is Some <==> nd.edge is Some)
    &&& (nd.edge is Some ==> nd.edge->0.player < 4)
    &&& forall|k: int|
        0 <= k < nd.children@.len() ==> i < #[trigger] nd.children@[k] && nd.children@[k]
            < t.nodes@.len() && t.nodes@[nd.children@[k] as int].edge is Some
            && t.nodes@[nd.children@[k] as int].parent_id == Some(i as usize)
    &&& forall|x: Action|
        #[trigger] ac_has(nd.tried, x) ==> exists|k: int|
            0 <= k < nd.children@.len() && t.nodes@[#[trigger] nd.children@[k] as int].edge->0.action
                == x
    &&& nd.total_reward <= 2 * nd.num_sims
    &&& ac_wf(nd.tried)
}

/// A sound arena: every node is sound.
pub open spec fn tree_wf(t: Tree) -> bool {
    forall|i: int| 0 <= i < t.nodes@.len() ==> #[trigger] node_ok(t, i)
}

/// The states visited along the arena path from the ancestor `anc` down
/// to `node`: `states` starts with the state at `anc` and ends with the
/// one at `node`, and each step applies the child node's own edge action,
/// legal in the state it was applied to. It holds only of a true
/// descendant chain, so it also makes `node` a descendant of `anc` (or
/// `anc` itself, with nothing applied).
pub open spec fn spec_path_applied(t: Tree, anc: int, node: int, states: Seq<Round>) -> bool
    decreases node,
{
    if node == anc {
        states.len() == 1
    } else if 0 <= anc && anc < node && node < t.nodes@.len() && t.nodes@[node].parent_id is Some
        && t.nodes@[node].edge is Some && anc <= t.nodes@[node].parent_id->0 < node
        && states.len() >= 2 {
        &&& spec_path_applied(t, anc, t.nodes@[node].parent_id->0 as int, states.drop_last())
        &&& ac_has(
            spec_possible_actions(states[states.len() - 2]),
            t.nodes@[node].edge->0.action,
        )
        &&& Round::spec_applied(
            states[states.len() - 2],
            t.nodes@[node].edge->0.action,
            states.last(),
        )
    } else {
        false
    }
}

impl Tree {
    /// An empty arena, with its full capacity laid out up front.
    pub fn new() -> (r: Tree)
        ensures
            tree_wf(r),
            r.nodes@.len() == 0,
    {
        Tree { nodes: Vec::with_capacity(TREE_CAPACITY) }
    }

    /// The number of nodes allocated so far.
    pub fn size(&self) -> (r: usize)
        ensures
            r == self.nodes@.len(),
    {
        self.nodes.len()
    }

    /// Discard all nodes, for reuse by an independent search; the fresh
    /// arena again has its full capacity up front.
    pub fn reset(&mut self)
        ensures
            tree_wf(*final(self)),
            final(self).nodes@.len() == 0,
    {
        self.nodes = Vec::with_capacity(TREE_CAPACITY);
    }

    /// Allocate a node for `state`, linked below `parent_id` through
    /// `edge` when given; node ids grow monotonically and nodes are
    /// never removed.
    pub fn add_node(
        &mut self,
        state: &Round,
        edge: Option<Edge>,
        parent_id: Option<usize>,
    ) -> (r: usize)
        requires
            tree_wf(*old(self)),
            parent_id is Some ==> parent_id->0 < old(self).nodes@.len(),
            edge is Some <==> parent_id is Some,
            edge is Some ==> edge->0.player < 4,
            old(self).nodes@.len() < 100_000_000,
        ensures
            tree_wf(*final(self)),
            r == old(self).nodes@.len(),
            final(self).nodes@.len() == old(self).nodes@.len() + 1,
            final(self).nodes@[r as int].is_terminal == spec_terminal(*state),
            final(self).nodes@[r as int].edge == edge,
            final(self).nodes@[r as int].parent_id == parent_id,
            final(self).nodes@[r as int].num_sims == 0,
            final(self).nodes@[r as int].total_reward == 0,
            final(self).nodes@[r as int].children@.len() == 0,
            final(self).nodes@[r as int].tried is Uninit,
            parent_id matches Some(p) ==> {
                &&& final(self).nodes@[p as int].children@ == old(
                    self,
                ).nodes@[p as int].children@.push(r)
                &&& final(self).nodes@[p as int].edge == old(self).nodes@[p as int].edge
                &&& final(self).nodes@[p as int].parent_id == old(self).nodes@[p as int].parent_id
                &&& final(self).nodes@[p as int].is_terminal == old(
                    self,
                ).nodes@[p as int].is_terminal
                &&& final(self).nodes@[p as int].num_sims == old(self).nodes@[p as int].num_sims
                &&& final(self).nodes@[p as int].total_reward == old(
                    self,
                ).nodes@[p as int].total_reward
                &&& final(self).nodes@[p as int].tried == old(self).nodes@[p as int].tried
            },
            forall|i: int|
                0 <= i < old(self).nodes@.len() && i != (match parent_id {
                    Some(p) => p as int,
                    None => -1,
                }) ==> final(self).nodes@[i] == old(self).nodes@[i],
    {
        let node_id = self.nodes.len();
        match parent_id {
            Some(p) => {
                let mut parent = Node {
                    edge: None,
                    parent_id: None,
                    children: Vec::new(),
                    is_terminal: false,
                    num_sims: 0,
                    total_reward: 0,
                    tried: ActionCollection::Uninit,
                };
                self.nodes.set_and_swap(p, &mut parent);
                parent.children.push(node_id);
                self.nodes.set_and_swap(p, &mut parent);
            },
            None => {},
        }
        let node = Node {
            edge,
            parent_id,
            children: Vec::new(),
            is_terminal: state.is_terminal(),
            num_sims: 0,
            total_reward: 0,
            tried: ActionCollection::Uninit,
        };
        self.nodes.push(node);
        proof {
            assert forall|i: int| 0 <= i < self.nodes@.len() implies #[trigger] node_ok(
                *self,
                i,
            ) by {
                assert(node_ok(*old(self), i) || i >= old(self).nodes@.len() || (parent_id
                    is Some && i == parent_id->0));
                if i < old(self).nodes@.len() {
                    assert(node_ok(*old(self), i));
                }
            }
        }
        node_id
    }

    /// Record one simulation outcome at a node: one more visit, `reward`
    /// half-points more accumulated reward. Counters this close to their
    /// limit are left unchanged.
    pub fn update_node(&mut self, node_id: usize, reward: u8)
        requires
            tree_wf(*old(self)),
            node_id < old(self).nodes@.len(),
            reward <= 2,
        ensures
            tree_wf(*final(self)),
            final(self).nodes@.len() == old(self).nodes@.len(),
            old(self).nodes@[node_id as int].num_sims < 0xffff_ffffu32 ==> {
                &&& final(self).nodes@[node_id as int].num_sims == old(
                    self,
                ).nodes@[node_id as int].num_sims + 1
                &&& final(self).nodes@[node_id as int].total_reward == old(
                    self,
                ).nodes@[node_id as int].total_reward + reward
            },
            final(self).nodes@[node_id as int].edge == old(self).nodes@[node_id as int].edge,
            final(self).nodes@[node_id as int].parent_id == old(
                self,
            ).nodes@[node_id as int].parent_id,
            final(self).nodes@[node_id as int].children == old(
                self,
            ).nodes@[node_id as int].children,
            forall|i: int|
                0 <= i < old(self).nodes@.len() && i != node_id ==> final(self).nodes@[i] == old(
                    self,
                ).nodes@[i],
    {
        proof {
            assert(node_ok(*old(self), node_id as int));
        }
        let mut node = Node {
            edge: None,
            parent_id: None,
            children: Vec::new(),
            is_terminal: false,
            num_sims: 0,
            total_reward: 0,
            tried: ActionCollection::Uninit,
        };
        self.nodes.set_and_swap(node_id, &mut node);
        if node.num_sims < 0xffff_ffff {
            node.num_sims = node.num_sims + 1;
            node.total_reward = node.total_reward + reward as u64;
        }
        self.nodes.set_and_swap(node_id, &mut node);
        proof {
            assert forall|i: int| 0 <= i < self.nodes@.len() implies #[trigger] node_ok(
                *self,
                i,
            ) by {
                assert(node_ok(*old(self), i));
            }
        }
    }

    /// Whether every currently legal action at this node has been tried.
    pub fn is_fully_expanded(&self, node_id: usize, legal_actions: &ActionCollection) -> (r: bool)
        requires
            tree_wf(*self),
            node_id < self.nodes@.len(),
            ac_wf(*legal_actions),
        ensures
            r == (ac_len(crate::action::spec_without(
                *legal_actions,
                self.nodes@[node_id as int].tried,
            )) == 0),
    {
        proof {
            assert(node_ok(*self, node_id as int));
        }
        let untried = legal_actions.without(&self.nodes[node_id].tried);
        untried.empty()
    }

    /// The parent of a node, absent at a root.
    pub fn get_parent_id(&self, node_id: usize) -> (r: Option<usize>)
        requires
            node_id < self.nodes@.len(),
        ensures
            r == self.nodes@[node_id as int].parent_id,
    {
        self.nodes[node_id].parent_id
    }

    /// The incoming edge of a node, absent at a root.
    pub fn get_edge(&self, node_id: usize) -> (r: Option<Edge>)
        requires
            node_id < self.nodes@.len(),
        ensures
            r == self.nodes@[node_id as int].edge,
    {
        self.nodes[node_id].edge
    }

    /// Whether the node's state was terminal when it was added.
    pub fn is_terminal(&self, node_id: usize) -> (r: bool)
        requires
            node_id < self.nodes@.len(),
        ensures
            r == self.nodes@[node_id as int].is_terminal,
    {
        self.nodes[node_id].is_terminal
    }
}

/// The selection score of the child at arena index `c` under a parent
/// with `parent_n` visits: its fixed-point UCT score, or the largest
/// representable score while the child is unvisited, so that every legal
/// child is sampled before exploitation begins.
pub open spec fn spec_child_score(t: Tree, c: int, parent_n: nat) -> int {
    if t.nodes@[c].num_sims == 0 {
        0xffff_ffff_ffff_ffffu64 as int
    } else {
        spec_uct(t.nodes@[c].total_reward as nat, t.nodes@[c].num_sims as nat, parent_n)
    }
}

impl Tree {
    /// Among the children whose edge action is legal in the live state,
    /// the one with the greatest selection score; `None` when no child's
    /// edge is legal.
    pub fn uct_select_child(&self, node_id: usize, legal_actions: &ActionCollection) -> (r: Option<
        usize,
    >)
        requires
            tree_wf(*self),
            node_id < self.nodes@.len(),
            ac_wf(*legal_actions),
        ensures
            match r {
                None => forall|k: int|
                    0 <= k < self.nodes@[node_id as int].children@.len() ==> !ac_has(
                        *legal_actions,
                        self.nodes@[#[trigger] self.nodes@[node_id as int].children@[k] as int].edge->0.action,
                    ),
                Some(c) => {
                    &&& node_id < c < self.nodes@.len()
                    &&& self.nodes@[node_id as int].children@.contains(c)
                    &&& self.nodes@[c as int].edge is Some
                    &&& ac_has(*legal_actions, self.nodes@[c as int].edge->0.action)
                    &&& forall|k: int|
                        0 <= k < self.nodes@[node_id as int].children@.len() && ac_has(
                            *legal_actions,
                            self.nodes@[#[trigger] self.nodes@[node_id as int].children@[k] as int].edge->0.action,
                        ) ==> spec_child_score(
                            *self,
                            self.nodes@[node_id as int].children@[k] as int,
                            self.nodes@[node_id as int].num_sims as nat,
                        ) <= spec_child_score(*self, c as int, self.nodes@[node_id as int].num_sims as nat)
                },
            },
    {
        let n = self.nodes[node_id].num_sims;
        let mut best: Option<usize> = None;
        let mut best_score: u64 = 0;
        let mut k: usize = 0;
        proof {
            assert(node_ok(*self, node_id as int));
        }
        while k < self.nodes[node_id].children.len()
            invariant
                tree_wf(*self),
                node_id < self.nodes@.len(),
                ac_wf(*legal_actions),
                n == self.nodes@[node_id as int].num_sims,
                k <= self.nodes@[node_id as int].children@.len(),
                match best {
                    None => forall|m: int|
                        0 <= m < k ==> !ac_has(
                            *legal_actions,
                            self.nodes@[#[trigger] self.nodes@[node_id as int].children@[m] as int].edge->0.action,
                        ),
                    Some(c) => {
                        &&& node_id < c < self.nodes@.len()
                        &&& self.nodes@[node_id as int].children@.contains(c)
                        &&& self.nodes@[c as int].edge is Some
                        &&& ac_has(*legal_actions, self.nodes@[c as int].edge->0.action)
                        &&& best_score == spec_child_score(*self, c as int, n as nat)
                        &&& forall|m: int|
                            0 <= m < k && ac_has(
                                *legal_actions,
                                self.nodes@[#[trigger] self.nodes@[node_id as int].children@[m] as int].edge->0.action,
                            ) ==> spec_child_score(
                                *self,
                                self.nodes@[node_id as int].children@[m] as int,
                                n as nat,
                            ) <= best_score
                    },
                },
            decreases self.nodes@[node_id as int].children@.len() - k,
        {
            proof {
                assert(node_ok(*self, node_id as int));
            }
            let c = self.nodes[node_id].children[k];
            proof {
                assert(node_ok(*self, c as int));
                assert(self.nodes@[node_id as int].children@.contains(c)) by {
                    assert(self.nodes@[node_id as int].children@[k as int] == c);
                }
            }
            let e = match self.nodes[c].edge {
                Some(e) => e,
                None => {
                    proof {
                        assert(false);
                    }
                    Edge { action: Action::PickTrump(None), player: 0 }
                },
            };
            if legal_actions.contains(&e.action) {
                let visits = self.nodes[c].num_sims;
                let sc = if visits == 0 {
                    0xffff_ffff_ffff_ffffu64
                } else {
                    uct_score(self.nodes[c].total_reward, visits, n)
                };
                proof {
                    assert(sc == spec_child_score(*self, c as int, n as nat));
                }
                match best {
                    None => {
                        best = Some(c);
                        best_score = sc;
                    },
                    Some(_) => {
                        if sc > best_score {
                            best = Some(c);
                            best_score = sc;
                        }
                    },
                }
            }
            k = k + 1;
        }
        best
    }
    /// Walk down from `node_id` while the node is non-terminal and fully
    /// expanded under the live legality, applying the chosen edges to
    /// `state`. The returned node is `node_id` or a descendant of it, and
    /// the returned ghost trace exhibits the walk: the visited states,
    /// from the entry state to the final one, each step applying the
    /// reached node's edge action where it was legal.
    pub fn select(&self, node_id: usize, state: &mut Round) -> (res: (usize, Ghost<Seq<Round>>))
        requires
            tree_wf(*self),
            node_id < self.nodes@.len(),
            round_wf(*old(state)),
        ensures
            round_wf(*final(state)),
            node_id <= res.0 < self.nodes@.len(),
            res.1@.len() >= 1,
            res.1@[0] == *old(state),
            res.1@.last() == *final(state),
            spec_path_applied(*self, node_id as int, res.0 as int, res.1@),
            // descent stops exactly where the spec's loop does: at a node
            // stamped terminal, in a state that turned terminal, or at a
            // node with untried legal actions left to expand
            self.nodes@[res.0 as int].is_terminal || spec_terminal(*final(state)) || ac_len(
                spec_without(
                    spec_possible_actions(*final(state)),
                    self.nodes@[res.0 as int].tried,
                ),
            ) != 0,
    {
        let mut cur = node_id;
        let ghost s0 = *state;
        let ghost mut trace: Seq<Round> = seq![s0];
        let mut legal_actions = state.possible_actions();
        while !self.is_terminal(cur) && self.is_fully_expanded(cur, &legal_actions)
            invariant
                tree_wf(*self),
                node_id <= cur < self.nodes@.len(),
                round_wf(*state),
                ac_wf(legal_actions),
                legal_actions == spec_possible_actions(*state),
                !spec_terminal(*state) ==> ac_len(legal_actions) >= 1,
                s0 == *old(state),
                trace.len() >= 1,
                trace[0] == s0,
                trace.last() == *state,
                spec_path_applied(*self, node_id as int, cur as int, trace),
            decreases self.nodes@.len() - cur,
        {
            proof {
                assert(node_ok(*self, cur as int));
            }
            match self.uct_select_child(cur, &legal_actions) {
                None => {
                    proof {
                        // a fully expanded node whose children all lost
                        // legality can only stand in a terminal state:
                        // every legal action was tried, every tried action
                        // is a child's edge, and no child edge is legal
                        if !spec_terminal(*state) {
                            lemma_ac_nonempty_has(legal_actions);
                            let x = choose|x: Action| #[trigger] ac_has(legal_actions, x);
                            let tried = self.nodes@[cur as int].tried;
                            lemma_without_has(legal_actions, tried, x);
                            lemma_ac_empty_has_none(spec_without(legal_actions, tried));
                            assert(ac_has(tried, x));
                            let k = choose|k: int|
                                0 <= k < self.nodes@[cur as int].children@.len()
                                    && self.nodes@[#[trigger] self.nodes@[cur as int].children@[k] as int].edge->0.action
                                    == x;
                            assert(false);
                        }
                    }
                    return (cur, Ghost(trace));
                },
                Some(c) => {
                    let e = match self.nodes[c].edge {
                        Some(e) => e,
                        None => {
                            proof {
                                assert(false);
                            }
                            Edge { action: Action::PickTrump(None), player: 0 }
                        },
                    };
                    proof {
                        let kk = choose|kk: int|
                            0 <= kk < self.nodes@[cur as int].children@.len()
                                && self.nodes@[cur as int].children@[kk] == c;
                        assert(self.nodes@[c as int].parent_id == Some(cur));
                    }
                    let ghost prev = cur;
                    let ghost mid = *state;
                    let ghost old_trace = trace;
                    state.apply_action(e.action);
                    cur = c;
                    proof {
                        trace = trace.push(*state);
                        assert(trace.drop_last() =~= old_trace);
                        assert(trace[trace.len() - 2] == mid);
                        assert(trace.last() == *state);
                        assert(trace[0] == s0);
                        assert(self.nodes@[cur as int].parent_id->0 == prev);
                        assert(self.nodes@[cur as int].edge->0.action == e.action);
                        assert(spec_path_applied(*self, node_id as int, prev as int, old_trace));
                        assert(ac_has(spec_possible_actions(mid), e.action));
                        assert(Round::spec_applied(mid, e.action, *state));
                        assert(spec_path_applied(*self, node_id as int, cur as int, trace));
                    }
                    if state.is_terminal() {
                        return (cur, Ghost(trace));
                    }
                    legal_actions = state.possible_actions();
                },
            }
        }
        (cur, Ghost(trace))
    }

    /// Expand one untried, currently legal action below `node_id`: pop
    /// one at random, record it as tried, apply it to `state` and
    /// allocate the child node for the reached state; when the state is
    /// terminal or nothing legal is left to try, everything is left
    /// unchanged and `node_id` itself comes back.
    pub fn expand(&mut self, node_id: usize, state: &mut Round) -> (r: usize)
        requires
            tree_wf(*old(self)),
            node_id < old(self).nodes@.len(),
            old(self).nodes@.len() < 100_000_000,
            round_wf(*old(state)),
        ensures
            tree_wf(*final(self)),
            round_wf(*final(state)),
            old(self).nodes@.len() <= final(self).nodes@.len() <= old(self).nodes@.len() + 1,
            r < final(self).nodes@.len(),
            ({
                let untried0 = spec_without(
                    spec_possible_actions(*old(state)),
                    old(self).nodes@[node_id as int].tried,
                );
                if spec_terminal(*old(state)) || ac_len(untried0) == 0 {
                    &&& r == node_id
                    &&& *final(self) == *old(self)
                    &&& *final(state) == *old(state)
                } else {
                    let a = final(self).nodes@[r as int].edge->0.action;
                    &&& r == old(self).nodes@.len()
                    &&& final(self).nodes@.len() == old(self).nodes@.len() + 1
                    &&& final(self).nodes@[r as int].parent_id == Some(node_id)
                    &&& final(self).nodes@[r as int].edge is Some
                    &&& ac_has(untried0, a)
                    &&& ac_has(spec_possible_actions(*old(state)), a)
                    &&& final(self).nodes@[r as int].edge->0.player == spec_turn(*old(state))
                    &&& ac_has(final(self).nodes@[node_id as int].tried, a)
                    &&& Round::spec_applied(*old(state), a, *final(state))
                    &&& final(self).nodes@[r as int].is_terminal == spec_terminal(*final(state))
                }
            }),
    {
        if state.is_terminal() {
            return node_id;
        }
        let legal_actions = state.possible_actions();
        proof {
            assert(node_ok(*self, node_id as int));
        }
        let mut untried = legal_actions.without(&self.nodes[node_id].tried);
        match untried.pop_random() {
            None => node_id,
            Some(a) => {
                proof {
                    assert(ac_has(spec_possible_actions(*state), a));
                    match a {
                        Action::PlayCard(c) => {
                            assert(c.index < 32);
                        },
                        Action::PickTrump(_) => {},
                    }
                }
                let actor = state.turn();
                proof {
                    assert(actor < 4);
                }
                state.apply_action(a);
                let e = Edge { action: a, player: actor };
                let child = self.add_node(state, Some(e), Some(node_id));
                let ghost linked = *self;
                let mut node = Node {
                    edge: None,
                    parent_id: None,
                    children: Vec::new(),
                    is_terminal: false,
                    num_sims: 0,
                    total_reward: 0,
                    tried: ActionCollection::Uninit,
                };
                self.nodes.set_and_swap(node_id, &mut node);
                let fits = match (&node.tried, &a) {
                    (ActionCollection::Uninit, _) => true,
                    (ActionCollection::Cards(_), Action::PlayCard(_)) => true,
                    (ActionCollection::Trumps { .. }, Action::PickTrump(_)) => true,
                    _ => false,
                };
                if !fits {
                    // the pool was keyed to another phase's action kind;
                    // re-key it to the kind now legal here
                    node.tried = ActionCollection::Uninit;
                }
                node.tried.insert(a);
                self.nodes.set_and_swap(node_id, &mut node);
                proof {
                    assert forall|i: int| 0 <= i < self.nodes@.len() implies #[trigger] node_ok(
                        *self,
                        i,
                    ) by {
                        assert(node_ok(linked, i));
                        if i == node_id {
                            let klast = self.nodes@[i].children@.len() - 1;
                            assert(self.nodes@[i].children@[klast] == child);
                            assert(self.nodes@[child as int].edge->0.action == a);
                            assert forall|x: Action|
                                #[trigger] ac_has(self.nodes@[i].tried, x) implies exists|k: int|
                                0 <= k < self.nodes@[i].children@.len()
                                    && self.nodes@[#[trigger] self.nodes@[i].children@[k] as int].edge->0.action
                                    == x by {
                                if x == a {
                                    assert(self.nodes@[self.nodes@[i].children@[klast] as int].edge->0.action
                                        == x);
                                } else {
                                    assert(ac_has(linked.nodes@[i].tried, x));
                                    let k = choose|k: int|
                                        0 <= k < linked.nodes@[i].children@.len()
                                            && linked.nodes@[linked.nodes@[i].children@[k] as int].edge->0.action
                                            == x;
                                    assert(self.nodes@[self.nodes@[i].children@[k] as int].edge->0.action
                                        == x);
                                }
                            }
                        }
                    }
                }
                child
            },
        }
    }

    /// The robust child recommendation: among the root's children whose
    /// edge action is legal in `state`, the action of the most-visited
    /// child. `None` comes back exactly when no child's edge is legal —
    /// a condition the game rules treat as an unrecoverable fault of the
    /// search; a verified library cannot panic, so the caller decides
    /// (the search player falls back to a random legal action).
    pub fn best_action(&self, node_id: usize, state: &Round) -> (r: Option<Action>)
        requires
            tree_wf(*self),
            node_id < self.nodes@.len(),
            round_wf(*state),
        ensures
            (exists|k: int|
                0 <= k < self.nodes@[node_id as int].children@.len() && ac_has(
                    spec_possible_actions(*state),
                    self.nodes@[#[trigger] self.nodes@[node_id as int].children@[k] as int].edge->0.action,
                )) ==> r is Some,
            match r {
                None => true,
                Some(a) => ac_has(spec_possible_actions(*state), a) && exists|c: int|
                    #![trigger self.nodes@[c]]
                    self.nodes@[node_id as int].children@.contains(c as usize) && self.nodes@[c].edge
                        is Some && self.nodes@[c].edge->0.action == a && forall|m: int|
                        0 <= m < self.nodes@[node_id as int].children@.len() && ac_has(
                            spec_possible_actions(*state),
                            self.nodes@[#[trigger] self.nodes@[node_id as int].children@[m] as int].edge->0.action,
                        ) ==> self.nodes@[self.nodes@[node_id as int].children@[m] as int].num_sims
                            <= self.nodes@[c].num_sims,
            },
    {
        let legal_actions = state.possible_actions();
        let mut best: Option<usize> = None;
        let mut best_sims: u32 = 0;
        let mut k: usize = 0;
        while k < self.nodes[node_id].children.len()
            invariant
                tree_wf(*self),
                node_id < self.nodes@.len(),
                round_wf(*state),
                ac_wf(legal_actions),
                legal_actions == spec_possible_actions(*state),
                k <= self.nodes@[node_id as int].children@.len(),
                match best {
                    None => forall|m: int|
                        0 <= m < k ==> !ac_has(
                            legal_actions,
                            self.nodes@[#[trigger] self.nodes@[node_id as int].children@[m] as int].edge->0.action,
                        ),
                    Some(c) => {
                        &&& node_id < c < self.nodes@.len()
                        &&& self.nodes@[node_id as int].children@.contains(c)
                        &&& self.nodes@[c as int].edge is Some
                        &&& ac_has(legal_actions, self.nodes@[c as int].edge->0.action)
                        &&& best_sims == self.nodes@[c as int].num_sims
                        &&& forall|m: int|
                            0 <= m < k && ac_has(
                                legal_actions,
                                self.nodes@[#[trigger] self.nodes@[node_id as int].children@[m] as int].edge->0.action,
                            ) ==> self.nodes@[self.nodes@[node_id as int].children@[m] as int].num_sims
                                <= best_sims
                    },
                },
            decreases self.nodes@[node_id as int].children@.len() - k,
        {
            proof {
                assert(node_ok(*self, node_id as int));
            }
            let c = self.nodes[node_id].children[k];
            proof {
                assert(node_ok(*self, c as int));
                assert(self.nodes@[node_id as int].children@.contains(c)) by {
                    assert(self.nodes@[node_id as int].children@[k as int] == c);
                }
            }
            let e = match self.nodes[c].edge {
                Some(e) => e,
                None => {
                    proof {
                        assert(false);
                    }
                    Edge { action: Action::PickTrump(None), player: 0 }
                },
            };
            if legal_actions.contains(&e.action) {
                let visits = self.nodes[c].num_sims;
                match best {
                    None => {
                        best = Some(c);
                        best_sims = visits;
                    },
                    Some(_) => {
                        if visits > best_sims {
                            best = Some(c);
                            best_sims = visits;
                        }
                    },
                }
            }
            k = k + 1;
        }
        match best {
            None => None,
            Some(c) => {
                match self.nodes[c].edge {
                    Some(e) => Some(e.action),
                    None => {
                        proof {
                            assert(false);
                        }
                        None
                    },
                }
            },
        }
    }
}


} // verus!
