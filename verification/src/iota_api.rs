//! Node API payloads and the conversion of a path-finding reply into a pathway.
use vstd::prelude::*;
use crate::pathway::{_B, _E, _T, _Y, PathwayDescriptor, PathwayModel, model_add, model_add_all, model_steps, model_tight, model_clean, step_tx_increment, lemma_add_appends_step, lemma_add_all_push};

verus! {

/// The `trytes` reply of a `getTrytes` call.
pub struct APITryteResponse {
    pub trytes: Vec<String>,
}

/// A transaction of a path-finding reply with the parents it was linked to.
pub struct BTtx {
    pub branch: Option<String>,
    pub trunk: Option<String>,
    pub id: String,
}

/// The step code of a transaction with the given parent links.
pub open spec fn mask_of(branch: Option<Seq<char>>, trunk: Option<Seq<char>>) -> u8 {
    match (branch, trunk) {
        (Some(_), Some(_)) => _Y,
        (None, None) => _E,
        (Some(_), None) => _B,
        (None, Some(_)) => _T,
    }
}

impl BTtx {
    /// Which parents this transaction links to, as a step code.
    pub fn mask(&self) -> (r: u8)
        ensures
            r == mask_of(
                match self.branch { Some(s) => Some(s@), None => None },
                match self.trunk { Some(s) => Some(s@), None => None },
            ),
    {
        match (self.branch.as_ref(), self.trunk.as_ref()) {
            (Some(_a), Some(_b)) => _Y,
            (None, None) => _E,
            (Some(_a), None) => _B,
            (None, Some(_b)) => _T,
        }
    }
}

/// A reply of the node's `findPaths` call: transaction ids and, by index,
/// which transaction references which as trunk and as branch.
#[allow(non_snake_case)]
pub struct PathfindingResult {
    pub txIDs: Box<Vec<String>>,
    pub branches: Box<Vec<Vec<usize>>>,
    pub trunks: Box<Vec<Vec<usize>>>,
}

/// The graph described by a path-finding reply.
pub struct PathGraph {
    pub ids: Seq<Seq<char>>,
    pub branches: Seq<Seq<usize>>,
    pub trunks: Seq<Seq<usize>>,
}

/// The target of the last link in `pairs` whose source is `s`.
pub open spec fn link_of(ids: Seq<Seq<char>>, pairs: Seq<Seq<usize>>, s: Seq<char>) -> Option<Seq<char>>
    decreases pairs.len(),
{
    if pairs.len() == 0 {
        None
    } else if ids[pairs.last()[0] as int] == s {
        Some(ids[pairs.last()[1] as int])
    } else {
        link_of(ids, pairs.drop_last(), s)
    }
}

pub open spec fn trunk_of(g: PathGraph, s: Seq<char>) -> Option<Seq<char>> {
    link_of(g.ids, g.trunks, s)
}

pub open spec fn branch_of(g: PathGraph, s: Seq<char>) -> Option<Seq<char>> {
    link_of(g.ids, g.branches, s)
}

/// The single parent a trunk-only or branch-only step follows.
pub open spec fn follow(g: PathGraph, m: u8, s: Seq<char>) -> Option<Seq<char>> {
    if m == _T { trunk_of(g, s) } else { branch_of(g, s) }
}

pub open spec fn node_mask(g: PathGraph, s: Seq<char>) -> u8 {
    mask_of(branch_of(g, s), trunk_of(g, s))
}

/// The state of the walk over a path-finding reply.
pub struct WalkState {
    pub cur: Seq<char>,
    pub stack: Seq<Seq<char>>,
    pub visited: Set<Seq<char>>,
    pub out: Seq<u8>,
}

/// The walk stops at an end node once no branch is left to come back to.
pub open spec fn walk_halted(g: PathGraph, st: WalkState) -> bool {
    node_mask(g, st.cur) == _E && st.stack.len() == 0
}

/// One step of the walk; `None` where a missing parent would be followed.
pub open spec fn walk_step(g: PathGraph, st: WalkState) -> Option<WalkState> {
    let c = st.cur;
    let t = trunk_of(g, c);
    let b = branch_of(g, c);
    let m = mask_of(b, t);
    if m == _Y {
        if st.visited.contains(c) {
            match trunk_of(g, b.unwrap()) {
                Some(y) => Some(WalkState { cur: y, out: st.out.push(_E), ..st }),
                None => None,
            }
        } else {
            Some(WalkState {
                cur: t.unwrap(),
                stack: st.stack.push(b.unwrap()),
                visited: st.visited.insert(c),
                out: st.out.push(_Y),
            })
        }
    } else if m == _E {
        Some(WalkState { cur: st.stack.last(), stack: st.stack.drop_last(), visited: st.visited, out: st.out.push(_E) })
    } else {
        if st.visited.contains(c) {
            let (c2, stack2) = if st.stack.len() > 0 { (st.stack.last(), st.stack.drop_last()) } else { (c, st.stack) };
            match follow(g, m, c2) {
                Some(y) => Some(WalkState { cur: y, stack: stack2, visited: st.visited, out: st.out.push(_E) }),
                None => None,
            }
        } else {
            Some(WalkState { cur: follow(g, m, c).unwrap(), stack: st.stack, visited: st.visited.insert(c), out: st.out.push(m) })
        }
    }
}

/// The steps written by the walk if it stops within `n` steps without following a missing parent.
pub open spec fn walk_within(g: PathGraph, st: WalkState, n: nat) -> Option<Seq<u8>>
    decreases n,
{
    if walk_halted(g, st) {
        Some(st.out)
    } else if n == 0 {
        None
    } else {
        match walk_step(g, st) {
            Some(st2) => walk_within(g, st2, (n - 1) as nat),
            None => None,
        }
    }
}

pub open spec fn walk_start(s: Seq<char>) -> WalkState {
    WalkState { cur: s, stack: Seq::empty(), visited: Set::empty(), out: Seq::empty() }
}

/// The walk from `start` stops without following a missing parent, and its
/// steps fit the counters of a pathway.
pub open spec fn walk_completes(g: PathGraph, start: Seq<char>) -> bool {
    exists|n: nat| #[trigger] walk_within(g, walk_start(start), n) is Some
        && 2 * (walk_within(g, walk_start(start), n).unwrap().len() + 1) <= usize::MAX
}

/// A number of steps within which the walk from `start` completes (meaningful where it does).
pub open spec fn walk_fuel(g: PathGraph, start: Seq<char>) -> nat {
    choose|n: nat| #[trigger] walk_within(g, walk_start(start), n) is Some
        && 2 * (walk_within(g, walk_start(start), n).unwrap().len() + 1) <= usize::MAX
}

/// The steps written by the walk from `start` (meaningful where it completes).
pub open spec fn walk_output(g: PathGraph, start: Seq<char>) -> Seq<u8> {
    walk_within(g, walk_start(start), walk_fuel(g, start)).unwrap()
}

/// The walk run for `k` steps from `st`, none of them from a halted state;
/// `None` where it halts early or would follow a missing parent.
pub open spec fn walk_run(g: PathGraph, st: WalkState, k: nat) -> Option<WalkState>
    decreases k,
{
    if k == 0 {
        Some(st)
    } else if walk_halted(g, st) {
        None
    } else {
        match walk_step(g, st) {
            Some(st2) => walk_run(g, st2, (k - 1) as nat),
            None => None,
        }
    }
}

/// The trunk-first preorder code of what lies below `s`, within `fuel`
/// levels: the node's step code, then the code below its trunk (or its
/// single parent), then, for a node with both parents, the code below its
/// branch; an end node is one end step.
pub open spec fn preorder(g: PathGraph, s: Seq<char>, fuel: nat) -> Option<Seq<u8>>
    decreases fuel,
{
    if fuel == 0 {
        None
    } else {
        let m = node_mask(g, s);
        if m == _E {
            Some(seq![_E])
        } else if m == _Y {
            match (preorder(g, trunk_of(g, s).unwrap(), (fuel - 1) as nat), preorder(g, branch_of(g, s).unwrap(), (fuel - 1) as nat)) {
                (Some(a), Some(b)) => Some(seq![_Y] + a + b),
                _ => None,
            }
        } else {
            match preorder(g, follow(g, m, s).unwrap(), (fuel - 1) as nat) {
                Some(a) => Some(seq![m] + a),
                None => None,
            }
        }
    }
}

/// The nodes below `s` (itself included) that have a parent, within `fuel` levels.
pub open spec fn inner_nodes(g: PathGraph, s: Seq<char>, fuel: nat) -> Set<Seq<char>>
    decreases fuel,
{
    if fuel == 0 {
        Set::empty()
    } else {
        let m = node_mask(g, s);
        if m == _E {
            Set::empty()
        } else if m == _Y {
            set![s] + inner_nodes(g, trunk_of(g, s).unwrap(), (fuel - 1) as nat) + inner_nodes(
                g,
                branch_of(g, s).unwrap(),
                (fuel - 1) as nat,
            )
        } else {
            set![s] + inner_nodes(g, follow(g, m, s).unwrap(), (fuel - 1) as nat)
        }
    }
}

/// What lies below `s` within `fuel` levels is a tree: no node with a
/// parent is reached twice.
pub open spec fn tree_below(g: PathGraph, s: Seq<char>, fuel: nat) -> bool
    decreases fuel,
{
    if fuel == 0 {
        true
    } else {
        let m = node_mask(g, s);
        let f = (fuel - 1) as nat;
        if m == _E {
            true
        } else if m == _Y {
            let t = trunk_of(g, s).unwrap();
            let b = branch_of(g, s).unwrap();
            &&& tree_below(g, t, f)
            &&& tree_below(g, b, f)
            &&& !inner_nodes(g, t, f).contains(s)
            &&& !inner_nodes(g, b, f).contains(s)
            &&& inner_nodes(g, t, f).disjoint(inner_nodes(g, b, f))
        } else {
            let c = follow(g, m, s).unwrap();
            tree_below(g, c, f) && !inner_nodes(g, c, f).contains(s)
        }
    }
}

proof fn lemma_run_compose(g: PathGraph, st: WalkState, a: nat, b: nat)
    requires
        walk_run(g, st, a) is Some,
    ensures
        walk_run(g, st, a + b) == walk_run(g, walk_run(g, st, a).unwrap(), b),
    decreases a,
{
    if a > 0 {
        lemma_run_compose(g, walk_step(g, st).unwrap(), (a - 1) as nat, b);
        assert((a + b - 1) as nat == (a - 1) as nat + b);
    }
}

proof fn lemma_run_then_within(g: PathGraph, st: WalkState, k: nat, n: nat)
    requires
        walk_run(g, st, k) is Some,
    ensures
        walk_within(g, st, k + n) == walk_within(g, walk_run(g, st, k).unwrap(), n),
    decreases k,
{
    if k > 0 {
        lemma_run_then_within(g, walk_step(g, st).unwrap(), (k - 1) as nat, n);
        assert((k + n - 1) as nat == (k - 1) as nat + n);
    }
}

proof fn lemma_within_more_fuel(g: PathGraph, st: WalkState, n: nat, m: nat)
    requires
        walk_within(g, st, n) is Some,
        n <= m,
    ensures
        walk_within(g, st, m) == walk_within(g, st, n),
    decreases n,
{
    if !walk_halted(g, st) && n > 0 {
        lemma_within_more_fuel(g, walk_step(g, st).unwrap(), (n - 1) as nat, (m - 1) as nat);
    }
}

/// Below a tree, with a branch left to come back to, the walk writes the
/// preorder code and comes back to that branch.
proof fn lemma_subtree_run(g: PathGraph, s: Seq<char>, fuel: nat, st: WalkState)
    requires
        st.cur == s,
        st.stack.len() > 0,
        preorder(g, s, fuel) is Some,
        tree_below(g, s, fuel),
        inner_nodes(g, s, fuel).disjoint(st.visited),
    ensures
        walk_run(g, st, preorder(g, s, fuel).unwrap().len()) == Some(
            WalkState {
                cur: st.stack.last(),
                stack: st.stack.drop_last(),
                visited: st.visited + inner_nodes(g, s, fuel),
                out: st.out + preorder(g, s, fuel).unwrap(),
            },
        ),
    decreases fuel,
{
    let m = node_mask(g, s);
    let f = (fuel - 1) as nat;
    let e = preorder(g, s, fuel).unwrap();
    if m == _E {
        let st1 = walk_step(g, st).unwrap();
        assert(walk_run(g, st1, 0) == Some(st1));
        assert(st.visited + inner_nodes(g, s, fuel) =~= st.visited);
        assert(st.out + e =~= st.out.push(_E));
    } else if m == _Y {
        let t = trunk_of(g, s).unwrap();
        let b = branch_of(g, s).unwrap();
        let a = preorder(g, t, f).unwrap();
        let c = preorder(g, b, f).unwrap();
        assert(s == st.cur && inner_nodes(g, s, fuel).contains(s));
        let st1 = WalkState { cur: t, stack: st.stack.push(b), visited: st.visited.insert(s), out: st.out.push(_Y) };
        assert(walk_step(g, st) == Some(st1));
        assert(inner_nodes(g, t, f).disjoint(st1.visited));
        lemma_subtree_run(g, t, f, st1);
        let st2 = WalkState { cur: b, stack: st.stack, visited: st1.visited + inner_nodes(g, t, f), out: st1.out + a };
        assert(st1.stack.drop_last() =~= st.stack);
        assert(walk_run(g, st1, a.len()) == Some(st2));
        assert(inner_nodes(g, b, f).disjoint(st2.visited));
        lemma_subtree_run(g, b, f, st2);
        lemma_run_compose(g, st1, a.len(), c.len());
        assert(e.len() == 1 + a.len() + c.len());
        assert((e.len() - 1) as nat == a.len() + c.len());
        assert(st2.visited + inner_nodes(g, b, f) =~= st.visited + inner_nodes(g, s, fuel));
        assert(st2.out + c =~= st.out + e);
    } else {
        let ch = follow(g, m, s).unwrap();
        let a = preorder(g, ch, f).unwrap();
        assert(inner_nodes(g, s, fuel).contains(s));
        let st1 = WalkState { cur: ch, stack: st.stack, visited: st.visited.insert(s), out: st.out.push(m) };
        assert(walk_step(g, st) == Some(st1));
        assert(inner_nodes(g, ch, f).disjoint(st1.visited));
        lemma_subtree_run(g, ch, f, st1);
        assert((e.len() - 1) as nat == a.len());
        assert(st.visited.insert(s) + inner_nodes(g, ch, f) =~= st.visited + inner_nodes(g, s, fuel));
        assert(st.out.push(m) + a =~= st.out + e);
    }
}

/// Below a tree, with no branch left to come back to, the walk stops having
/// written the preorder code but its last end step.
proof fn lemma_last_subtree(g: PathGraph, s: Seq<char>, fuel: nat, st: WalkState)
    requires
        st.cur == s,
        st.stack.len() == 0,
        preorder(g, s, fuel) is Some,
        tree_below(g, s, fuel),
        inner_nodes(g, s, fuel).disjoint(st.visited),
    ensures
        walk_within(g, st, preorder(g, s, fuel).unwrap().len()) == Some(st.out + preorder(g, s, fuel).unwrap().drop_last()),
    decreases fuel,
{
    let m = node_mask(g, s);
    let f = (fuel - 1) as nat;
    let e = preorder(g, s, fuel).unwrap();
    if m == _E {
        assert(walk_halted(g, st));
        assert(st.out + e.drop_last() =~= st.out);
    } else if m == _Y {
        let t = trunk_of(g, s).unwrap();
        let b = branch_of(g, s).unwrap();
        let a = preorder(g, t, f).unwrap();
        let c = preorder(g, b, f).unwrap();
        assert(inner_nodes(g, s, fuel).contains(s));
        let st1 = WalkState { cur: t, stack: st.stack.push(b), visited: st.visited.insert(s), out: st.out.push(_Y) };
        assert(walk_step(g, st) == Some(st1));
        assert(inner_nodes(g, t, f).disjoint(st1.visited));
        lemma_subtree_run(g, t, f, st1);
        let st2 = WalkState { cur: b, stack: st.stack, visited: st1.visited + inner_nodes(g, t, f), out: st1.out + a };
        assert(st1.stack.drop_last() =~= st.stack);
        assert(walk_run(g, st1, a.len()) == Some(st2));
        assert(inner_nodes(g, b, f).disjoint(st2.visited));
        lemma_last_subtree(g, b, f, st2);
        lemma_run_then_within(g, st1, a.len(), c.len());
        assert(e.len() == 1 + a.len() + c.len());
        assert((e.len() - 1) as nat == a.len() + c.len());
        assert(st2.out + c.drop_last() =~= st.out + e.drop_last());
    } else {
        let ch = follow(g, m, s).unwrap();
        let a = preorder(g, ch, f).unwrap();
        assert(inner_nodes(g, s, fuel).contains(s));
        let st1 = WalkState { cur: ch, stack: st.stack, visited: st.visited.insert(s), out: st.out.push(m) };
        assert(walk_step(g, st) == Some(st1));
        assert(inner_nodes(g, ch, f).disjoint(st1.visited));
        lemma_last_subtree(g, ch, f, st1);
        assert((e.len() - 1) as nat == a.len());
        assert(st.out.push(m) + a.drop_last() =~= st.out + e.drop_last());
    }
}

/// On a tree, the walk writes the trunk-first preorder code of the tree but
/// its last end step, which `to_pathway` adds.
pub proof fn lemma_walk_is_preorder(g: PathGraph, start: Seq<char>, fuel: nat)
    requires
        preorder(g, start, fuel) is Some,
        tree_below(g, start, fuel),
    ensures
        walk_within(g, walk_start(start), preorder(g, start, fuel).unwrap().len()) == Some(
            preorder(g, start, fuel).unwrap().drop_last(),
        ),
        walk_completes(g, start) ==> walk_output(g, start).push(_E) == preorder(g, start, fuel).unwrap(),
{
    let e = preorder(g, start, fuel).unwrap();
    let st = walk_start(start);
    assert(inner_nodes(g, start, fuel).disjoint(st.visited));
    lemma_last_subtree(g, start, fuel, st);
    assert(st.out + e.drop_last() =~= e.drop_last());
    if walk_completes(g, start) {
        let n = walk_fuel(g, start);
        if n <= e.len() {
            lemma_within_more_fuel(g, st, n, e.len());
        } else {
            lemma_within_more_fuel(g, st, e.len(), n);
        }
        lemma_preorder_ends(g, start, fuel);
        assert(e.drop_last().push(_E) =~= e);
    }
}

/// A preorder code ends with an end step.
proof fn lemma_preorder_ends(g: PathGraph, s: Seq<char>, fuel: nat)
    requires
        preorder(g, s, fuel) is Some,
    ensures
        preorder(g, s, fuel).unwrap().len() > 0,
        preorder(g, s, fuel).unwrap().last() == _E,
    decreases fuel,
{
    let m = node_mask(g, s);
    let f = (fuel - 1) as nat;
    if m == _Y {
        lemma_preorder_ends(g, trunk_of(g, s).unwrap(), f);
        lemma_preorder_ends(g, branch_of(g, s).unwrap(), f);
    } else if m != _E {
        lemma_preorder_ends(g, follow(g, m, s).unwrap(), f);
    }
}

/// `j` is the first position of its id.
pub open spec fn is_first(ids: Seq<Seq<char>>, j: int) -> bool {
    &&& 0 <= j < ids.len()
    &&& forall|k: int| 0 <= k < j ==> ids[k] != ids[j]
}

/// An index into the ids stands for the id it names.
pub open spec fn link_matches(ids: Seq<Seq<char>>, e: Option<usize>, s: Option<Seq<char>>) -> bool {
    match (e, s) {
        (None, None) => true,
        (Some(x), Some(t)) => is_first(ids, x as int) && ids[x as int] == t,
        _ => false,
    }
}

proof fn lemma_first_unique(ids: Seq<Seq<char>>, a: int, b: int)
    requires
        is_first(ids, a),
        is_first(ids, b),
        ids[a] == ids[b],
    ensures
        a == b,
{
    if a < b {
        assert(ids[a] != ids[b]);
    } else if b < a {
        assert(ids[b] != ids[a]);
    }
}

proof fn lemma_walk_out_grows(g: PathGraph, st: WalkState, n: nat)
    requires
        walk_within(g, st, n) is Some,
    ensures
        st.out.len() <= walk_within(g, st, n).unwrap().len(),
        st.out.len() == walk_within(g, st, n).unwrap().len() ==> walk_halted(g, st),
    decreases n,
{
    if !walk_halted(g, st) {
        let st2 = walk_step(g, st).unwrap();
        lemma_walk_out_grows(g, st2, (n - 1) as nat);
    }
}

/// For every index, the first index holding the same id.
fn first_positions(ids: &Vec<String>) -> (rep: Vec<usize>)
    ensures
        rep@.len() == ids@.len(),
        forall|i: int| 0 <= i < ids@.len() ==> {
            &&& #[trigger] rep@[i] <= i
            &&& ids@[rep@[i] as int]@ == ids@[i]@
            &&& is_first(ids@.map_values(|s: String| s@), rep@[i] as int)
        },
{
    let ghost view = ids@.map_values(|s: String| s@);
    let mut rep: Vec<usize> = Vec::new();
    let mut i: usize = 0;
    while i < ids.len()
        invariant
            i <= ids@.len(),
            view == ids@.map_values(|s: String| s@),
            rep@.len() == i,
            forall|k: int| 0 <= k < i ==> {
                &&& #[trigger] rep@[k] <= k
                &&& ids@[rep@[k] as int]@ == ids@[k]@
                &&& is_first(view, rep@[k] as int)
            },
        decreases ids@.len() - i,
    {
        let mut j: usize = 0;
        while j < i && ids[j] != ids[i]
            invariant
                j <= i < ids@.len(),
                forall|k: int| 0 <= k < j ==> ids@[k]@ != ids@[i as int]@,
            decreases i - j,
        {
            j = j + 1;
        }
        proof {
            assert forall|k: int| 0 <= k < j implies view[k] != view[j as int] by {
                assert(view[k] == ids@[k]@);
                assert(view[j as int] == ids@[j as int]@);
            }
        }
        rep.push(j);
        i = i + 1;
    }
    rep
}

/// For every first position, the (first position of the) target of its last link.
fn link_table(ids: &Vec<String>, rep: &Vec<usize>, pairs: &Vec<Vec<usize>>) -> (table: Vec<Option<usize>>)
    requires
        rep@.len() == ids@.len(),
        forall|i: int| 0 <= i < ids@.len() ==> {
            &&& #[trigger] rep@[i] <= i
            &&& ids@[rep@[i] as int]@ == ids@[i]@
            &&& is_first(ids@.map_values(|s: String| s@), rep@[i] as int)
        },
        forall|k: int| 0 <= k < pairs@.len() ==> {
            &&& #[trigger] pairs@[k]@.len() >= 2
            &&& pairs@[k]@[0] < ids@.len()
            &&& pairs@[k]@[1] < ids@.len()
        },
    ensures
        table@.len() == ids@.len(),
        forall|r: int| is_first(ids@.map_values(|s: String| s@), r) ==> link_matches(
            ids@.map_values(|s: String| s@),
            #[trigger] table@[r],
            link_of(ids@.map_values(|s: String| s@), pairs@.map_values(|v: Vec<usize>| v@), ids@[r]@),
        ),
{
    let ghost view = ids@.map_values(|s: String| s@);
    let ghost pv = pairs@.map_values(|v: Vec<usize>| v@);
    let mut table: Vec<Option<usize>> = Vec::new();
    let mut i: usize = 0;
    while i < ids.len()
        invariant
            i <= ids@.len(),
            table@.len() == i,
            forall|k: int| 0 <= k < i ==> #[trigger] table@[k] == None::<usize>,
        decreases ids@.len() - i,
    {
        table.push(None);
        i = i + 1;
    }
    let mut k: usize = 0;
    while k < pairs.len()
        invariant
            k <= pairs@.len(),
            view == ids@.map_values(|s: String| s@),
            pv == pairs@.map_values(|v: Vec<usize>| v@),
            table@.len() == ids@.len(),
            rep@.len() == ids@.len(),
            forall|i: int| 0 <= i < ids@.len() ==> {
                &&& #[trigger] rep@[i] <= i
                &&& ids@[rep@[i] as int]@ == ids@[i]@
                &&& is_first(view, rep@[i] as int)
            },
            forall|k: int| 0 <= k < pairs@.len() ==> {
                &&& #[trigger] pairs@[k]@.len() >= 2
                &&& pairs@[k]@[0] < ids@.len()
                &&& pairs@[k]@[1] < ids@.len()
            },
            forall|r: int| is_first(view, r) ==> link_matches(
                view,
                #[trigger] table@[r],
                link_of(view, pv.subrange(0, k as int), view[r]),
            ),
        decreases pairs@.len() - k,
    {
        proof {
            assert(pairs@[k as int]@.len() >= 2);
            assert(rep@[pairs@[k as int]@[0] as int] <= pairs@[k as int]@[0]);
            assert(rep@[pairs@[k as int]@[1] as int] <= pairs@[k as int]@[1]);
        }
        let a = rep[pairs[k][0]];
        let b = rep[pairs[k][1]];
        let ghost old_table = table@;
        table.set(a, Some(b));
        proof {
            let pre = pv.subrange(0, k as int);
            let post = pv.subrange(0, k + 1);
            assert(post.drop_last() =~= pre);
            assert(post.last() == pairs@[k as int]@);
            let p0 = pairs@[k as int]@[0] as int;
            let p1 = pairs@[k as int]@[1] as int;
            assert(view[p0] == ids@[p0]@);
            assert(view[p1] == ids@[p1]@);
            assert(view[a as int] == ids@[a as int]@);
            assert(view[b as int] == ids@[b as int]@);
            assert forall|r: int| is_first(view, r) implies link_matches(
                view,
                #[trigger] table@[r],
                link_of(view, post, view[r]),
            ) by {
                if view[r] == view[p0] {
                    lemma_first_unique(view, r, a as int);
                } else {
                    if r == a as int {
                        assert(view[a as int] == view[p0]);
                    }
                    assert(old_table[r] == table@[r]);
                }
            }
        }
        k = k + 1;
    }
    proof {
        assert(pv.subrange(0, pairs@.len() as int) =~= pv);
        assert forall|r: int| is_first(view, r) implies view[r] == ids@[r]@ by {}
    }
    table
}


impl PathfindingResult {
    pub open spec fn graph(&self) -> PathGraph {
        PathGraph {
            ids: self.txIDs@.map_values(|s: String| s@),
            branches: self.branches@.map_values(|v: Vec<usize>| v@),
            trunks: self.trunks@.map_values(|v: Vec<usize>| v@),
        }
    }

    /// Every link names two transactions of the reply.
    pub open spec fn links_in_range(&self) -> bool {
        &&& forall|k: int| 0 <= k < self.trunks@.len() ==> {
            &&& #[trigger] self.trunks@[k]@.len() >= 2
            &&& self.trunks@[k]@[0] < self.txIDs@.len()
            &&& self.trunks@[k]@[1] < self.txIDs@.len()
        }
        &&& forall|k: int| 0 <= k < self.branches@.len() ==> {
            &&& #[trigger] self.branches@[k]@.len() >= 2
            &&& self.branches@[k]@[0] < self.txIDs@.len()
            &&& self.branches@[k]@[1] < self.txIDs@.len()
        }
    }
}


/// The ghost walk state stands for the executable one.
pub open spec fn walk_state_matches(
    view: Seq<Seq<char>>,
    st: WalkState,
    c: usize,
    stack: Seq<usize>,
    visited: Seq<bool>,
) -> bool {
    &&& is_first(view, c as int)
    &&& view[c as int] == st.cur
    &&& stack.len() == st.stack.len()
    &&& forall|k: int| 0 <= k < stack.len() ==> is_first(view, #[trigger] stack[k] as int) && view[stack[k] as int] == st.stack[k]
    &&& visited.len() == view.len()
    &&& forall|r: int| is_first(view, r) ==> (#[trigger] visited[r] <==> st.visited.contains(view[r]))
}

impl PathfindingResult {
    /// Walks the reply from `start`, following trunks first and coming back to
    /// branches later, and records every step; the pathway ends with an end step.
    pub fn to_pathway(self, start: String) -> (r: PathwayDescriptor)
        requires
            self.links_in_range(),
            exists|i: int| 0 <= i < self.txIDs@.len() && #[trigger] self.txIDs@[i]@ == start@,
            walk_completes(self.graph(), start@),
        ensures
            r.model() == model_add_all(
                PathwayModel { size: 0, tx_count: 0, fields: Seq::empty() },
                walk_output(self.graph(), start@).push(_E),
            ),
            model_steps(r.model()) == walk_output(self.graph(), start@).push(_E),
            model_tight(r.model()),
            model_clean(r.model()),
    {
        let ghost g = self.graph();
        let ghost view = g.ids;
        let ids = &self.txIDs;
        let rep = first_positions(ids);
        let tr = link_table(ids, &rep, &self.trunks);
        let br = link_table(ids, &rep, &self.branches);
        // locate the start transaction
        let mut si: usize = 0;
        while si < ids.len() && ids[si] != start
            invariant
                si <= ids@.len(),
                forall|k: int| 0 <= k < si ==> ids@[k]@ != start@,
            decreases ids@.len() - si,
        {
            si = si + 1;
        }
        proof {
            if si >= ids@.len() {
                let i = choose|i: int| 0 <= i < self.txIDs@.len() && #[trigger] self.txIDs@[i]@ == start@;
                assert(ids@[i]@ != start@);
            }
            assert(rep@[si as int] <= si);
        }
        let mut c: usize = rep[si];
        let mut stack: Vec<usize> = Vec::new();
        let mut visited: Vec<bool> = Vec::new();
        let mut v: usize = 0;
        while v < ids.len()
            invariant
                v <= ids@.len(),
                visited@.len() == v,
                forall|k: int| 0 <= k < v ==> !#[trigger] visited@[k],
            decreases ids@.len() - v,
        {
            visited.push(false);
            v = v + 1;
        }
        let mut to_return = PathwayDescriptor::new();
        let ghost fuel = walk_fuel(g, start@);
        let ghost final_out = walk_output(g, start@);
        let ghost mut st = walk_start(start@);
        proof {
            assert(view[si as int] == ids@[si as int]@);
            assert(view[c as int] == ids@[c as int]@);
            assert(walk_within(g, st, fuel) == Some(final_out));
            lemma_walk_out_grows(g, st, fuel);
            assert(model_add_all(to_return.model(), Seq::<u8>::empty()) == to_return.model());
            assert(st.out =~= Seq::<u8>::empty());
        }
        loop
            invariant
                g == self.graph(),
                view == g.ids,
                view == ids@.map_values(|s: String| s@),
                view.len() == ids@.len(),
                tr@.len() == ids@.len(),
                br@.len() == ids@.len(),
                forall|r: int| is_first(view, r) ==> link_matches(view, #[trigger] tr@[r], trunk_of(g, view[r])),
                forall|r: int| is_first(view, r) ==> link_matches(view, #[trigger] br@[r], branch_of(g, view[r])),
                walk_state_matches(view, st, c, stack@, visited@),
                walk_within(g, st, fuel) == Some(final_out),
                2 * (final_out.len() + 1) <= usize::MAX,
                st.out.len() <= final_out.len(),
                to_return.model() == model_add_all(PathwayModel { size: 0, tx_count: 0, fields: Seq::empty() }, st.out),
                model_steps(to_return.model()) == st.out,
                model_tight(to_return.model()),
                model_clean(to_return.model()),
                to_return.size == st.out.len(),
                to_return.tx_count <= 2 * st.out.len(),
            ensures
                walk_halted(g, st),
                st.out == final_out,
                to_return.model() == model_add_all(PathwayModel { size: 0, tx_count: 0, fields: Seq::empty() }, st.out),
                model_steps(to_return.model()) == st.out,
                model_tight(to_return.model()),
                model_clean(to_return.model()),
                to_return.size == st.out.len(),
                to_return.tx_count <= 2 * st.out.len(),
                2 * (final_out.len() + 1) <= usize::MAX,
            decreases fuel,
        {
            let tc = tr[c];
            let bc = br[c];
            let m: u8 = match (bc, tc) {
                (Some(_), Some(_)) => _Y,
                (None, None) => _E,
                (Some(_), None) => _B,
                (None, Some(_)) => _T,
            };
            proof {
                assert(link_matches(view, tr@[c as int], trunk_of(g, view[c as int])));
                assert(link_matches(view, br@[c as int], branch_of(g, view[c as int])));
                assert(m == node_mask(g, st.cur));
            }
            if m == _E && stack.len() == 0 {
                proof {
                    assert(walk_halted(g, st));
                    assert(st.out == final_out);
                }
                break;
            }
            let ghost st2 = walk_step(g, st).unwrap();
            proof {
                assert(!walk_halted(g, st));
                assert(fuel > 0);
                assert(walk_step(g, st) is Some);
                assert(walk_within(g, st2, (fuel - 1) as nat) == Some(final_out));
                lemma_walk_out_grows(g, st2, (fuel - 1) as nat);
            }
            let w: u8;
            if m == _Y {
                let b = bc.unwrap();
                let t = tc.unwrap();
                if visited[c] {
                    proof {
                        assert(st.visited.contains(view[c as int]));
                        assert(link_matches(view, tr@[b as int], trunk_of(g, view[b as int])));
                    }
                    c = tr[b].unwrap();
                    w = _E;
                } else {
                    stack.push(b);
                    visited.set(c, true);
                    proof {
                        assert forall|r: int| is_first(view, r) implies (#[trigger] visited@[r] <==> st2.visited.contains(view[r])) by {
                            if r != c as int {
                                if view[r] == view[c as int] {
                                    lemma_first_unique(view, r, c as int);
                                }
                            }
                        }
                    }
                    c = t;
                    w = _Y;
                }
            } else if m == _E {
                proof {
                    assert(is_first(view, stack@[stack@.len() - 1] as int));
                }
                c = stack.pop().unwrap();
                w = _E;
            } else {
                let is_trunk = m == _T;
                if visited[c] {
                    proof {
                        assert(st.visited.contains(view[c as int]));
                    }
                    if stack.len() > 0 {
                        proof {
                            assert(is_first(view, stack@[stack@.len() - 1] as int));
                        }
                        c = stack.pop().unwrap();
                    }
                    proof {
                        assert(link_matches(view, tr@[c as int], trunk_of(g, view[c as int])));
                        assert(link_matches(view, br@[c as int], branch_of(g, view[c as int])));
                    }
                    c = if is_trunk { tr[c].unwrap() } else { br[c].unwrap() };
                    w = _E;
                } else {
                    visited.set(c, true);
                    proof {
                        assert forall|r: int| is_first(view, r) implies (#[trigger] visited@[r] <==> st2.visited.contains(view[r])) by {
                            if r != c as int {
                                if view[r] == view[c as int] {
                                    lemma_first_unique(view, r, c as int);
                                }
                            }
                        }
                    }
                    c = if is_trunk { tc.unwrap() } else { bc.unwrap() };
                    w = m;
                }
            }
            proof {
                assert(st2.out == st.out.push(w));
                lemma_add_appends_step(to_return.model(), w);
                lemma_add_all_push(PathwayModel { size: 0, tx_count: 0, fields: Seq::empty() }, st.out, w);
            }
            to_return.add_to_path(w);
            proof {
                st = st2;
                fuel = (fuel - 1) as nat;
            }
        }
        proof {
            lemma_add_appends_step(to_return.model(), _E);
            lemma_add_all_push(PathwayModel { size: 0, tx_count: 0, fields: Seq::empty() }, st.out, _E);
        }
        to_return.add_to_path(_E);
        to_return
    }
}

/// The JSON array of the given strings.
pub uninterp spec fn json_of_strings(items: Seq<Seq<char>>) -> Seq<char>;

/// Calls `serde_json::to_string` on a list of strings, which cannot fail;
/// the text is a function of the strings alone.
#[verifier::external_body]
fn json_string_list(items: &[String]) -> (r: String)
    ensures
        r@ == json_of_strings(items@.map_values(|s: String| s@)),
{
    match serde_json::to_string(items) {
        Ok(text) => text,
        Err(_) => String::new(),
    }
}

/// `prefix`, the JSON array of `items`, and a closing brace.
fn json_command(prefix: &str, items: &Vec<String>) -> (r: String)
    ensures
        r@ == prefix@ + json_of_strings(crate::indexstorage::texts(items@)) + seq!['}'],
{
    let mut body = prefix.to_owned();
    let list = json_string_list(items.as_slice());
    body.append(list.as_str());
    crate::pathway::push_char(&mut body, '}');
    body
}

/// The body of an `isPinned` request.
pub fn is_pinned_body(tx_hashes: &Vec<String>) -> (r: String)
    ensures
        r@ == "{\"command\": \"isPinned\", \"hashes\": "@ + json_of_strings(crate::indexstorage::texts(tx_hashes@)) + seq!['}'],
{
    json_command("{\"command\": \"isPinned\", \"hashes\": ", tx_hashes)
}

/// The body of a `pinTransactionsTrytes` request.
pub fn pin_transaction_trytes_body(trytes: &Vec<String>) -> (r: String)
    ensures
        r@ == "{\"command\": \"pinTransactionsTrytes\", \"trytes\": "@ + json_of_strings(crate::indexstorage::texts(trytes@)) + seq!['}'],
{
    json_command("{\"command\": \"pinTransactionsTrytes\", \"trytes\": ", trytes)
}

/// The body of a `getTrytes` request.
pub fn get_trytes_body(hashes: &Vec<String>) -> (r: String)
    ensures
        r@ == "{\"command\": \"getTrytes\",  \"hashes\": "@ + json_of_strings(crate::indexstorage::texts(hashes@)) + seq!['}'],
{
    json_command("{\"command\": \"getTrytes\",  \"hashes\": ", hashes)
}

/// The body of an `unpinTransactions` request.
pub fn unpin_transaction_hashes_body(hashes: &Vec<String>) -> (r: String)
    ensures
        r@ == "{\"command\": \"unpinTransactions\", \"hashes\": "@ + json_of_strings(crate::indexstorage::texts(hashes@)) + seq!['}'],
{
    json_command("{\"command\": \"unpinTransactions\", \"hashes\": ", hashes)
}

/// The body of a `findPaths` request from `start` to the endpoints.
pub fn find_paths_body(start: &String, endpoints: &Vec<String>) -> (r: String)
    ensures
        r@ == "{\"command\": \"findPaths\", \"start\": \""@ + start@ + "\" , \"endpoints\": "@ + json_of_strings(
            crate::indexstorage::texts(endpoints@),
        ) + seq!['}'],
{
    let mut body = "{\"command\": \"findPaths\", \"start\": \"".to_owned();
    body.append(start.as_str());
    let rest = json_command("\" , \"endpoints\": ", endpoints);
    body.append(rest.as_str());
    proof {
        assert(body@ =~= "{\"command\": \"findPaths\", \"start\": \""@ + start@ + "\" , \"endpoints\": "@
            + json_of_strings(crate::indexstorage::texts(endpoints@)) + seq!['}']);
    }
    body
}

/// Most hashes in one `pinTransactionHashes` request.
pub const PIN_HASHES_CHUNK: usize = 50;

/// Chunk `k` of `s` counted from the end, chunks of `size`.
pub open spec fn rchunk<T>(s: Seq<T>, size: int, k: int) -> Seq<T> {
    let end = s.len() - size * k;
    let start = if end - size > 0 {
        end - size
    } else {
        0
    };
    s.subrange(start, end)
}

/// The bodies of the `pinTransactionHashes` requests that pin `tx_hashes`:
/// one per chunk of 50, the last 50 first.
pub fn pin_transaction_hashes_bodies(tx_hashes: &Vec<String>) -> (r: Vec<String>)
    ensures
        r@.len() == (tx_hashes@.len() + 49) / 50,
        forall|k: int|
            0 <= k < r@.len() ==> (#[trigger] r@[k])@ == "{\"command\": \"pinTransactionHashes\", \"hashes\": "@
                + json_of_strings(crate::indexstorage::texts(rchunk(tx_hashes@, 50, k))) + seq!['}'],
{
    let mut bodies: Vec<String> = Vec::new();
    let mut end: usize = tx_hashes.len();
    let ghost len = tx_hashes@.len() as int;
    while end > 0
        invariant
            end <= len,
            len == tx_hashes@.len(),
            end == (if len - 50 * bodies@.len() > 0 {
                len - 50 * bodies@.len()
            } else {
                0
            }),
            bodies@.len() > 0 ==> len - 50 * (bodies@.len() - 1) > 0,
            forall|k: int|
                0 <= k < bodies@.len() ==> (#[trigger] bodies@[k])@ == "{\"command\": \"pinTransactionHashes\", \"hashes\": "@
                    + json_of_strings(crate::indexstorage::texts(rchunk(tx_hashes@, 50, k))) + seq!['}'],
        decreases end,
    {
        let start = if end > PIN_HASHES_CHUNK {
            end - PIN_HASHES_CHUNK
        } else {
            0
        };
        let mut chunk: Vec<String> = Vec::new();
        let mut j = start;
        while j < end
            invariant
                start <= j <= end,
                end <= tx_hashes@.len(),
                crate::indexstorage::texts(chunk@) == crate::indexstorage::texts(tx_hashes@).subrange(start as int, j as int),
            decreases end - j,
        {
            let ghost before = chunk@;
            let item = tx_hashes[j].clone();
            chunk.push(item);
            proof {
                assert(chunk@ == before.push(item));
                assert(crate::indexstorage::texts(chunk@) =~= crate::indexstorage::texts(before).push(item@));
                assert(crate::indexstorage::texts(chunk@) =~= crate::indexstorage::texts(tx_hashes@).subrange(start as int, j + 1));
            }
            j = j + 1;
        }
        let ghost k = bodies@.len() as int;
        proof {
            assert(crate::indexstorage::texts(rchunk(tx_hashes@, 50, k)) =~= crate::indexstorage::texts(tx_hashes@).subrange(start as int, end as int));
        }
        let body = json_command("{\"command\": \"pinTransactionHashes\", \"hashes\": ", &chunk);
        bodies.push(body);
        proof {
            assert(bodies@.len() == k + 1);
            assert(50 * (k + 1) == 50 * k + 50);
        }
        end = start;
    }
    proof {
        let n = bodies@.len() as int;
        assert(n == (len + 49) / 50) by (nonlinear_arith)
            requires
                len - 50 * n <= 0,
                n > 0 ==> len - 50 * (n - 1) > 0,
                n >= 0,
                len >= 0,
        ;
    }
    bodies
}

} // verus!
