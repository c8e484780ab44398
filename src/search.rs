use vstd::prelude::*;

use crate::board::{pow2n, Action, Board, BoardState, Config};

verus! {

/// How a search ended.
pub enum SearchOutcome {
    /// The actions, from the start, that solve the level.
    Solved(Vec<Action>),
    /// Every state reachable through generated pushes was expanded.
    Unsolvable,
    /// The node budget, or the range of the move counter, ran out first.
    BudgetExceeded,
}

/// One link of the shared path history: the actions of one transition and
/// the link before it.
struct PathNode {
    parent: Option<usize>,
    actions: Vec<Action>,
}

/// A frontier entry: a state, the history link that reached it, the moves so
/// far and the heuristic estimate of the pushes left.
struct Node {
    state: BoardState,
    path: usize,
    g: u64,
    h: u64,
}

/// `full[i]` is the whole action sequence of history link `i`.
spec fn arena_ok(arena: Seq<PathNode>, full: Seq<Seq<Action>>) -> bool {
    &&& full.len() == arena.len()
    &&& arena.len() >= 1
    &&& arena[0].parent is None
    &&& full[0] == Seq::<Action>::empty()
    &&& forall|i: int| 0 <= i < arena.len() ==> match #[trigger] arena[i].parent {
        None => full[i] == arena[i].actions@,
        Some(p) => 0 <= p < i && full[i] == full[p as int] + arena[i].actions@,
    }
}

spec fn node_ok(board: &Board, start: Config, arena_len: int, full: Seq<Seq<Action>>, n: Node) -> bool {
    &&& n.path < arena_len
    &&& board.state_wf(&n.state)
    &&& board.run(start, full[n.path as int]) == Some(n.state@)
}

/// The whole action sequence of history link `e`.
fn read_path(arena: &Vec<PathNode>, full: Ghost<Seq<Seq<Action>>>, e: usize) -> (r: Vec<Action>)
    requires
        arena_ok(arena@, full@),
        e < arena@.len(),
    ensures
        r@ == full@[e as int],
{
    let mut chain: Vec<usize> = Vec::new();
    let mut cur = e;
    chain.push(cur);
    loop
        invariant
            arena_ok(arena@, full@),
            cur < arena@.len(),
            chain@.len() >= 1,
            chain@.last() == cur,
            chain@[0] == e,
            forall|k: int| 0 <= k < chain@.len() ==> #[trigger] chain@[k] < arena@.len(),
            forall|k: int| 0 <= k < chain@.len() - 1 ==> arena@[#[trigger] chain@[k] as int].parent == Some(
                chain@[k + 1],
            ),
        ensures
            cur < arena@.len(),
            arena@[cur as int].parent is None,
            chain@.len() >= 1,
            chain@.last() == cur,
            chain@[0] == e,
            forall|k: int| 0 <= k < chain@.len() ==> #[trigger] chain@[k] < arena@.len(),
            forall|k: int| 0 <= k < chain@.len() - 1 ==> arena@[#[trigger] chain@[k] as int].parent == Some(
                chain@[k + 1],
            ),
        decreases cur,
    {
        match arena[cur].parent {
            None => {
                break;
            },
            Some(p) => {
                proof {
                    assert(arena@[cur as int].parent == Some(p));
                }
                cur = p;
                chain.push(cur);
            },
        }
    }
    assert(arena@[cur as int].parent is None);
    let mut r: Vec<Action> = Vec::new();
    let mut k: usize = chain.len();
    while k > 0
        invariant
            arena_ok(arena@, full@),
            0 <= k <= chain@.len(),
            chain@.len() >= 1,
            chain@[0] == e,
            forall|j: int| 0 <= j < chain@.len() ==> #[trigger] chain@[j] < arena@.len(),
            forall|j: int| 0 <= j < chain@.len() - 1 ==> arena@[#[trigger] chain@[j] as int].parent == Some(
                chain@[j + 1],
            ),
            arena@[chain@.last() as int].parent is None,
            k < chain@.len() ==> r@ == full[chain@[k as int] as int],
            k == chain@.len() ==> r@.len() == 0,
        decreases k,
    {
        k -= 1;
        let link = chain[k];
        let ghost before = r@;
        let acts = &arena[link].actions;
        let mut j: usize = 0;
        while j < acts.len()
            invariant
                0 <= j <= acts@.len(),
                r@ == before + acts@.subrange(0, j as int),
            decreases acts.len() - j,
        {
            r.push(acts[j]);
            j += 1;
            assert(r@ =~= before + acts@.subrange(0, j as int));
        }
        proof {
            assert(acts@.subrange(0, acts@.len() as int) =~= acts@);
            if k + 1 < chain@.len() {
                assert(arena@[chain@[k as int] as int].parent == Some(chain@[k + 1]));
            } else {
                assert(before.len() == 0);
                assert(before + acts@ =~= acts@);
            }
        }
    }
    r
}

/// The estimated total cost of a frontier entry.
spec fn f_value(n: Node) -> int {
    n.g + n.h
}

/// Index of the first frontier entry with the least `g + h`.
fn min_index(frontier: &Vec<Node>) -> (r: usize)
    requires
        frontier@.len() > 0,
    ensures
        r < frontier@.len(),
        forall|j: int| 0 <= j < frontier@.len() ==> f_value(frontier@[r as int]) <= f_value(#[trigger] frontier@[j]),
        forall|j: int| 0 <= j < r ==> f_value(frontier@[r as int]) < f_value(#[trigger] frontier@[j]),
{
    let mut best: usize = 0;
    let mut i: usize = 1;
    while i < frontier.len()
        invariant
            1 <= i <= frontier@.len(),
            best < i,
            forall|j: int| 0 <= j < i ==> f_value(frontier@[best as int]) <= f_value(#[trigger] frontier@[j]),
            forall|j: int| 0 <= j < best ==> f_value(frontier@[best as int]) < f_value(#[trigger] frontier@[j]),
        decreases frontier.len() - i,
    {
        let fi = frontier[i].g as u128 + frontier[i].h as u128;
        let fb = frontier[best].g as u128 + frontier[best].h as u128;
        if fi < fb {
            best = i;
        }
        i += 1;
    }
    best
}

fn contains_state(visited: &Vec<BoardState>, s: &BoardState) -> (r: bool)
    ensures
        r == exists|i: int| 0 <= i < visited@.len() && (#[trigger] visited@[i])@ == s@ && visited@[i].bits().len() == s.bits().len(),
{
    let mut i: usize = 0;
    while i < visited.len()
        invariant
            0 <= i <= visited@.len(),
            forall|j: int| 0 <= j < i ==> !((#[trigger] visited@[j])@ == s@ && visited@[j].bits().len() == s.bits().len()),
        decreases visited.len() - i,
    {
        if visited[i] == *s {
            return true;
        }
        i += 1;
    }
    false
}

spec fn in_vis(v: Seq<BoardState>, c: Config) -> bool {
    exists|i: int| 0 <= i < v.len() && (#[trigger] v[i])@ == c
}

spec fn in_front(f: Seq<Node>, c: Config) -> bool {
    exists|i: int| 0 <= i < f.len() && (#[trigger] f[i]).state@ == c
}

/// Every state generated from an expanded state is expanded or waits in the
/// frontier.
#[verifier::opaque]
spec fn closed(board: &Board, v: Seq<BoardState>, f: Seq<Node>) -> bool {
    forall|i: int, c2: Config|
        0 <= i < v.len() && #[trigger] board.successor(v[i]@, c2) ==> in_vis(v, c2) || in_front(f, c2)
}

proof fn lemma_front_remove(f: Seq<Node>, i: int, c: Config)
    requires
        0 <= i < f.len(),
        in_front(f, c),
    ensures
        in_front(f.remove(i), c) || f[i].state@ == c,
{
    let k = choose|k: int| 0 <= k < f.len() && (#[trigger] f[k]).state@ == c;
    if k < i {
        assert(f.remove(i)[k] == f[k]);
    } else if k > i {
        assert(f.remove(i)[k - 1] == f[k]);
    }
}

proof fn lemma_front_grow(f: Seq<Node>, f2: Seq<Node>, c: Config)
    requires
        f.len() <= f2.len(),
        forall|k: int| 0 <= k < f.len() ==> #[trigger] f2[k] == f[k],
        in_front(f, c),
    ensures
        in_front(f2, c),
{
    let k = choose|k: int| 0 <= k < f.len() && (#[trigger] f[k]).state@ == c;
    assert(f2[k] == f[k]);
}

proof fn lemma_vis_grow(v: Seq<BoardState>, s: BoardState, c: Config)
    requires
        in_vis(v, c),
    ensures
        in_vis(v.push(s), c),
{
    let k = choose|k: int| 0 <= k < v.len() && (#[trigger] v[k])@ == c;
    assert(v.push(s)[k] == v[k]);
}

/// Removing frontier entry `i`, whose state is expanded already or about to
/// be, keeps every known state known.
proof fn lemma_pop(board: &Board, v: Seq<BoardState>, f: Seq<Node>, i: int, s: BoardState, start: Config)
    requires
        closed(board, v, f),
        in_vis(v, start) || in_front(f, start),
        0 <= i < f.len(),
        f[i].state@ == s@,
        in_vis(v, s@),
    ensures
        closed(board, v, f.remove(i)),
        in_vis(v, start) || in_front(f.remove(i), start),
{
    reveal(closed);
    assert forall|j: int, c2: Config| 0 <= j < v.len() && #[trigger] board.successor(v[j]@, c2) implies in_vis(v, c2)
        || in_front(f.remove(i), c2) by {
        if !in_vis(v, c2) {
            lemma_front_remove(f, i, c2);
        }
    }
    if !in_vis(v, start) {
        lemma_front_remove(f, i, start);
    }
}

/// When the frontier is empty, every state reachable through generated
/// states from an expanded state is expanded.
proof fn lemma_chain_visited(board: &Board, v: Seq<BoardState>, f: Seq<Node>, cs: Seq<Config>)
    requires
        closed(board, v, f),
        f.len() == 0,
        cs.len() >= 1,
        in_vis(v, cs[0]),
        board.succ_chain(cs),
    ensures
        in_vis(v, cs.last()),
    decreases cs.len(),
{
    if cs.len() > 1 {
        let prefix = cs.drop_last();
        assert forall|i: int| 0 <= i < prefix.len() - 1 implies #[trigger] board.successor(prefix[i], prefix[i + 1]) by {
            assert(board.successor(cs[i], cs[i + 1]));
        }
        lemma_chain_visited(board, v, f, prefix);
        reveal(closed);
        let k = choose|k: int| 0 <= k < v.len() && (#[trigger] v[k])@ == prefix.last();
        let i = cs.len() - 2;
        assert(board.successor(cs[i], cs[i + 1]));
        assert(cs[i + 1] == cs.last());
        assert(board.successor(v[k]@, cs.last()));
    }
}

/// The action lists of `segs`, one after the other.
pub open spec fn flatten(segs: Seq<Seq<Action>>) -> Seq<Action>
    decreases segs.len(),
{
    if segs.len() == 0 {
        seq![]
    } else {
        flatten(segs.drop_last()) + segs.last()
    }
}

/// Each segment of `segs` leads from one configuration of `cs` to the next
/// as a generated child: a walk, then one allowed push.
pub open spec fn gen_chain(board: &Board, cs: Seq<Config>, segs: Seq<Seq<Action>>) -> bool {
    &&& cs.len() == segs.len() + 1
    &&& forall|k: int| 0 <= k < segs.len() ==> #[trigger] board.is_child(cs[k], cs[k + 1], segs[k])
}

/// A chain of generated children is a chain of successors.
pub proof fn lemma_gen_chain_succ(board: &Board, cs: Seq<Config>, segs: Seq<Seq<Action>>)
    requires
        gen_chain(board, cs, segs),
    ensures
        board.succ_chain(cs),
{
    assert forall|i: int| 0 <= i < cs.len() - 1 implies #[trigger] board.successor(cs[i], cs[i + 1]) by {
        let acts = segs[i];
        assert(board.is_child(cs[i], cs[i + 1], acts));
        assert(board.succ_by(cs[i], acts.drop_last(), acts.last(), cs[i + 1]));
    }
}

/// Some chain of generated states from `c` ends in a solved state.
pub open spec fn solvable(board: &Board, c: Config) -> bool {
    exists|cs: Seq<Config>| cs.len() >= 1 && cs[0] == c && #[trigger] board.succ_chain(cs) && board.solved(cs.last())
}

/// Every history link records the chain of generated states that its
/// actions pass through from `start`.
spec fn chains_ok(
    board: &Board,
    start: Config,
    full: Seq<Seq<Action>>,
    chains: Seq<(Seq<Config>, Seq<Seq<Action>>)>,
) -> bool {
    &&& chains.len() == full.len()
    &&& forall|i: int| 0 <= i < chains.len() ==> {
        &&& gen_chain(board, (#[trigger] chains[i]).0, chains[i].1)
        &&& chains[i].0[0] == start
        &&& flatten(chains[i].1) == full[i]
    }
}

/// Best-first search by least moves-so-far plus heuristic, expanding at
/// most `max_nodes` states; with `max_nodes` at least `node_bound` the
/// budget never runs out. A returned solution is the
/// concatenation of generated walk-then-push segments along a chain of
/// generated states from `start` to a solved state, and is legal under the
/// rules of the game; an already solved start is answered with no actions;
/// `Unsolvable` means that no state reachable from `start` through generated
/// states is solved.
pub fn search(board: &Board, start: &BoardState, max_nodes: u64) -> (r: SearchOutcome)
    requires
        board.wf(),
        board.state_wf(start),
    ensures
        r matches SearchOutcome::Solved(p) ==> board.solution(start@, p@),
        board.solved(start@) ==> (r matches SearchOutcome::Solved(p) && p@.len() == 0),
        max_nodes >= board.node_bound() ==> !(r matches SearchOutcome::BudgetExceeded),
        r matches SearchOutcome::Unsolvable ==> forall|cs: Seq<Config>|
            cs.len() >= 1 && cs[0] == start@ && #[trigger] board.succ_chain(cs) ==> !board.solved(cs.last()),
        r matches SearchOutcome::Solved(p) ==> exists|cs: Seq<Config>, segs: Seq<Seq<Action>>|
            #[trigger] gen_chain(board, cs, segs) && cs[0] == start@ && flatten(segs) == p@ && board.solved(cs.last()),
{
    let ghost c = start@;
    let mut arena: Vec<PathNode> = Vec::new();
    arena.push(PathNode { parent: None, actions: Vec::new() });
    let ghost mut full: Seq<Seq<Action>> = seq![Seq::<Action>::empty()];
    let ghost mut chains: Seq<(Seq<Config>, Seq<Seq<Action>>)> = seq![(seq![c], Seq::<Seq<Action>>::empty())];
    let mut frontier: Vec<Node> = Vec::new();
    let h0 = board.heuristic(start);
    frontier.push(Node { state: start.clone(), path: 0, g: 0, h: h0 });
    let mut visited: Vec<BoardState> = Vec::new();
    let mut expanded: u64 = 0;
    let ghost mut first: bool = true;
    let ghost mut codes: Set<int> = Set::empty();
    let ghost sz = board.size();
    let ghost pw = pow2n(sz as nat) as int;
    proof {
        assert(arena@[0].actions@ =~= Seq::<Action>::empty());
        board.lemma_state_wf_same(start, &frontier@[0].state);
        assert(full[0] == Seq::<Action>::empty());
        assert(board.run(c, Seq::<Action>::empty()) == Some(c));
        reveal(closed);
        assert(frontier@[0].state@ == c);
        board.lemma_size_pos();
        assert(0 <= sz * pw) by (nonlinear_arith)
            requires
                1 <= sz,
                0 <= pw,
        ;
        vstd::set_lib::lemma_int_range(0, sz * pw);
        assert(sz * pw <= board.node_bound()) by (nonlinear_arith)
            requires
                1 <= sz,
                0 <= pw,
                board.node_bound() == sz * sz * pw,
        ;
        assert(flatten(Seq::<Seq<Action>>::empty()) == Seq::<Action>::empty());
        assert(gen_chain(board, chains[0].0, chains[0].1));
    }
    loop
        invariant
            board.wf(),
            board.state_wf(start),
            c == start@,
            arena_ok(arena@, full),
            forall|i: int| 0 <= i < frontier@.len() ==> node_ok(board, c, arena@.len() as int, full, #[trigger] frontier@[i]),
            board.solved(c) ==> first,
            first ==> frontier@.len() == 1 && frontier@[0].path == 0 && frontier@[0].state@ == c
                && visited@.len() == 0,
            sz == board.size(),
            pw == pow2n(sz as nat) as int,
            1 <= sz,
            sz * pw <= board.node_bound(),
            vstd::set_lib::set_int_range(0, sz * pw).finite(),
            expanded as int == visited@.len(),
            codes.finite(),
            codes.len() == visited@.len(),
            codes.subset_of(vstd::set_lib::set_int_range(0, sz * pw)),
            forall|k: int| 0 <= k < visited@.len() ==> board.state_wf(&#[trigger] visited@[k]),
            forall|x: int| #[trigger] codes.contains(x) ==> exists|k: int|
                0 <= k < visited@.len() && board.state_code(&#[trigger] visited@[k]) == x,
            forall|i: int| 0 <= i < frontier@.len() ==> (#[trigger] frontier@[i]).g as int <= expanded * sz,
            forall|k: int| 0 <= k < visited@.len() ==> !board.solved(#[trigger] visited@[k]@),
            closed(board, visited@, frontier@),
            in_vis(visited@, c) || in_front(frontier@, c),
            chains_ok(board, c, full, chains),
            forall|i: int| 0 <= i < frontier@.len() ==> chains[(#[trigger] frontier@[i]).path as int].0.last()
                == frontier@[i].state@,
        decreases max_nodes - expanded, frontier@.len(),
    {
        if frontier.len() == 0 {
            proof {
                assert(!in_front(frontier@, c));
                assert forall|cs: Seq<Config>|
                    cs.len() >= 1 && cs[0] == start@ && #[trigger] board.succ_chain(cs) implies !board.solved(cs.last()) by {
                    lemma_chain_visited(board, visited@, frontier@, cs);
                    let k = choose|k: int| 0 <= k < visited@.len() && (#[trigger] visited@[k])@ == cs.last();
                }
            }
            return SearchOutcome::Unsolvable;
        }
        let i = min_index(&frontier);
        let ghost f0 = frontier@;
        let node = frontier.remove(i);
        assert(node_ok(board, c, arena@.len() as int, full, node));
        assert(chains[node.path as int].0.last() == node.state@);
        assert(node.g as int <= expanded * sz);
        let ghost was_first = first;
        proof {
            first = false;
        }
        if contains_state(&visited, &node.state) {
            proof {
                lemma_pop(board, visited@, f0, i as int, node.state, c);
                assert forall|k: int| 0 <= k < frontier@.len() implies chains[(#[trigger] frontier@[k]).path as int].0.last()
                    == frontier@[k].state@ by {
                    if k < i {
                        assert(frontier@[k] == f0[k]);
                    } else {
                        assert(frontier@[k] == f0[k + 1]);
                    }
                }
            }
            continue;
        }
        if board.is_goal_state(&node.state) {
            let p = read_path(&arena, Ghost(full), node.path);
            proof {
                if was_first {
                    assert(full[0] == Seq::<Action>::empty());
                }
                let ch = chains[node.path as int];
                assert(gen_chain(board, ch.0, ch.1) && ch.0[0] == c && flatten(ch.1) == p@);
            }
            return SearchOutcome::Solved(p);
        }
        assert(!board.solved(c));
        proof {
            let nc = board.state_code(&node.state);
            board.lemma_state_code(&node.state, &node.state);
            if codes.contains(nc) {
                let k = choose|k: int| 0 <= k < visited@.len() && board.state_code(&#[trigger] visited@[k]) == nc;
                board.lemma_state_code(&visited@[k], &node.state);
                assert(false);
            }
            assert(codes.insert(nc).subset_of(vstd::set_lib::set_int_range(0, sz * pw)));
            vstd::set_lib::lemma_len_subset(codes.insert(nc), vstd::set_lib::set_int_range(0, sz * pw));
            vstd::set_lib::lemma_int_range(0, sz * pw);
            assert(expanded + 1 <= sz * pw);
        }
        if expanded >= max_nodes {
            return SearchOutcome::BudgetExceeded;
        }
        let ghost ncode = board.state_code(&node.state);
        expanded += 1;
        let mut children = board.create_children(&node.state);
        let ghost ns = node.state@;
        let parent = node.path;
        let g = node.g;
        let ghost v0 = visited@;
        let ghost nstate = node.state;
        visited.push(node.state);
        proof {
            codes = codes.insert(ncode);
            assert forall|x: int| #[trigger] codes.contains(x) implies exists|k: int|
                0 <= k < visited@.len() && board.state_code(&#[trigger] visited@[k]) == x by {
                if x == ncode {
                    assert(visited@[v0.len() as int] == nstate);
                } else {
                    let k = choose|k: int| 0 <= k < v0.len() && board.state_code(&#[trigger] v0[k]) == x;
                    assert(visited@[k] == v0[k]);
                }
            }
            assert forall|k: int| 0 <= k < visited@.len() implies board.state_wf(&#[trigger] visited@[k]) by {
                if k < v0.len() {
                    assert(visited@[k] == v0[k]);
                }
            }
        }
        let ghost f1 = frontier@;
        proof {
            assert forall|k: int| 0 <= k < frontier@.len() implies chains[(#[trigger] frontier@[k]).path as int].0.last()
                == frontier@[k].state@ by {
                if k < i {
                    assert(frontier@[k] == f0[k]);
                } else {
                    assert(frontier@[k] == f0[k + 1]);
                }
            }
            reveal(closed);
            assert(visited@[visited@.len() - 1]@ == ns);
            assert(in_vis(visited@, ns));
            assert forall|j: int, c2: Config| 0 <= j < v0.len() && #[trigger] board.successor(visited@[j]@, c2) implies in_vis(
                visited@,
                c2,
            ) || in_front(frontier@, c2) by {
                assert(visited@[j] == v0[j]);
                if in_vis(v0, c2) {
                    lemma_vis_grow(v0, visited@.last(), c2);
                } else {
                    lemma_front_remove(f0, i as int, c2);
                }
            }
            if in_vis(v0, c) {
                lemma_vis_grow(v0, visited@.last(), c);
            } else {
                lemma_front_remove(f0, i as int, c);
            }
        }
        proof {
            assert(expanded * sz <= board.node_bound()) by (nonlinear_arith)
                requires
                    expanded <= sz * pw,
                    0 <= sz,
                    board.node_bound() == sz * sz * pw,
            ;
            assert((expanded - 1) * sz + sz == expanded * sz) by (nonlinear_arith);
        }
        while children.len() > 0
            invariant
                board.wf(),
                c == start@,
                !board.solved(c),
                board.solved(c) ==> first,
                first == false,
                sz == board.size(),
                pw == pow2n(sz as nat) as int,
                1 <= sz,
                sz * pw <= board.node_bound(),
                vstd::set_lib::set_int_range(0, sz * pw).finite(),
                expanded as int == visited@.len(),
                codes.finite(),
                codes.len() == visited@.len(),
                codes.subset_of(vstd::set_lib::set_int_range(0, sz * pw)),
                forall|k: int| 0 <= k < visited@.len() ==> board.state_wf(&#[trigger] visited@[k]),
                forall|x: int| #[trigger] codes.contains(x) ==> exists|k: int|
                    0 <= k < visited@.len() && board.state_code(&#[trigger] visited@[k]) == x,
                forall|i: int| 0 <= i < frontier@.len() ==> (#[trigger] frontier@[i]).g as int <= expanded * sz,
                g as int <= (expanded - 1) * sz,
                expanded * sz <= board.node_bound(),
                (expanded - 1) * sz + sz == expanded * sz,
                forall|j: int| 0 <= j < children@.len() ==> (#[trigger] children@[j]).1@.len() <= sz,
                visited@.len() == v0.len() + 1,
                visited@.last()@ == ns,
                forall|k: int| 0 <= k < visited@.len() ==> !board.solved(#[trigger] visited@[k]@),
                f1.len() <= frontier@.len(),
                forall|k: int| 0 <= k < f1.len() ==> #[trigger] frontier@[k] == f1[k],
                forall|j: int, c2: Config| 0 <= j < v0.len() && #[trigger] board.successor(visited@[j]@, c2) ==> in_vis(
                    visited@,
                    c2,
                ) || in_front(frontier@, c2),
                forall|c2: Config| #[trigger] board.successor(ns, c2) ==> in_front(frontier@, c2) || exists|j: int|
                    0 <= j < children@.len() && (#[trigger] children@[j]).0@ == c2,
                in_vis(visited@, c) || in_front(frontier@, c),
                arena_ok(arena@, full),
                parent < arena@.len(),
                board.run(c, full[parent as int]) is Some,
                forall|j: int| 0 <= j < children@.len() ==> board.state_wf(&#[trigger] children@[j].0)
                    && board.run(board.run(c, full[parent as int]).unwrap(), children@[j].1@) == Some(
                    children@[j].0@,
                ),
                forall|i: int| 0 <= i < frontier@.len() ==> node_ok(board, c, arena@.len() as int, full, #[trigger] frontier@[i]),
                chains_ok(board, c, full, chains),
                forall|i: int| 0 <= i < frontier@.len() ==> chains[(#[trigger] frontier@[i]).path as int].0.last()
                    == frontier@[i].state@,
                chains[parent as int].0.last() == ns,
                forall|j: int| 0 <= j < children@.len() ==> board.is_child(ns, (#[trigger] children@[j]).0@, children@[j].1@),
            decreases children.len(),
        {
            let ghost chs = children@;
            let ghost fr = frontier@;
            let (child, acts) = children.remove(0);
            let step_len = acts.len() as u64;
            assert(chs[0].1@.len() <= sz);
            if step_len > u64::MAX - g {
                proof {
                    assert(max_nodes < board.node_bound());
                }
                return SearchOutcome::BudgetExceeded;
            }
            let h = board.heuristic(&child);
            proof {
                board.lemma_run_concat(c, full[parent as int], acts@);
                let pc = chains[parent as int];
                let nc = (pc.0.push(child@), pc.1.push(acts@));
                assert(board.is_child(ns, chs[0].0@, chs[0].1@));
                assert(chs[0].0@ == child@ && chs[0].1@ == acts@);
                assert(nc.1.drop_last() =~= pc.1);
                assert(flatten(nc.1) == flatten(pc.1) + acts@);
                assert forall|k: int| 0 <= k < nc.1.len() implies #[trigger] board.is_child(nc.0[k], nc.0[k + 1], nc.1[k]) by {
                    if k < pc.1.len() {
                        assert(board.is_child(pc.0[k], pc.0[k + 1], pc.1[k]));
                    }
                }
                assert(gen_chain(board, nc.0, nc.1));
                full = full.push(full[parent as int] + acts@);
                chains = chains.push(nc);
            }
            let ghost arena_before = arena@;
            arena.push(PathNode { parent: Some(parent), actions: acts });
            proof {
                let last = arena@.len() - 1;
                assert(arena@[last].parent == Some(parent));
                assert forall|i: int| 0 <= i < arena@.len() implies match #[trigger] arena@[i].parent {
                    None => full[i] == arena@[i].actions@,
                    Some(p) => 0 <= p < i && full[i] == full[p as int] + arena@[i].actions@,
                } by {
                    if i < last {
                        assert(arena@[i] == arena_before[i]);
                    }
                }
            }
            let ghost cv = child@;
            frontier.push(Node { state: child, path: arena.len() - 1, g: g + step_len, h });
            proof {
                assert(frontier@.last().state@ == cv);
                assert(cv == chs[0].0@);
                assert forall|k: int| 0 <= k < frontier@.len() implies chains[(#[trigger] frontier@[k]).path as int].0.last()
                    == frontier@[k].state@ by {
                    if k < fr.len() {
                        assert(frontier@[k] == fr[k]);
                    }
                }
                assert forall|j: int| 0 <= j < children@.len() implies board.is_child(ns, (#[trigger] children@[j]).0@, children@[j].1@) by {
                    assert(children@[j] == chs[j + 1]);
                }
                assert forall|j: int| 0 <= j < children@.len() implies (#[trigger] children@[j]).1@.len() <= sz by {
                    assert(children@[j] == chs[j + 1]);
                }
                assert forall|k: int| 0 <= k < frontier@.len() implies (#[trigger] frontier@[k]).g as int <= expanded * sz by {
                    if k < fr.len() {
                        assert(frontier@[k] == fr[k]);
                    }
                }
                assert forall|c2: Config| in_front(fr, c2) implies in_front(frontier@, c2) by {
                    lemma_front_grow(fr, frontier@, c2);
                }
                assert forall|c2: Config| #[trigger] board.successor(ns, c2) implies in_front(frontier@, c2) || exists|j: int|
                    0 <= j < children@.len() && (#[trigger] children@[j]).0@ == c2 by {
                    if !in_front(fr, c2) {
                        let j = choose|j: int| 0 <= j < chs.len() && (#[trigger] chs[j]).0@ == c2;
                        if j == 0 {
                            assert(frontier@[frontier@.len() - 1].state@ == c2);
                        } else {
                            assert(children@[j - 1] == chs[j]);
                        }
                    }
                }
                assert(forall|k: int| 0 <= k < fr.len() ==> frontier@[k] == fr[k]);
            }
        }
        proof {
            reveal(closed);
            assert forall|j: int, c2: Config| 0 <= j < visited@.len() && #[trigger] board.successor(visited@[j]@, c2) implies in_vis(
                visited@,
                c2,
            ) || in_front(frontier@, c2) by {
                if j == v0.len() {
                    assert(visited@[j]@ == ns);
                }
            }
        }
    }
}

/// Searches with the largest node budget, and reports which of the three
/// outcomes came: a solution, no solution through generated states, or the
/// budget ran out. On a board whose `node_bound` fits in `u64` the budget
/// never runs out, so the result is a solution exactly when some chain of
/// generated states reaches a solved state.
pub fn find_path(board: &Board, start: &BoardState) -> (r: SearchOutcome)
    requires
        board.wf(),
        board.state_wf(start),
    ensures
        r matches SearchOutcome::Solved(p) ==> board.solution(start@, p@),
        board.solved(start@) ==> (r matches SearchOutcome::Solved(p) && p@.len() == 0),
        r matches SearchOutcome::Unsolvable ==> forall|cs: Seq<Config>|
            cs.len() >= 1 && cs[0] == start@ && #[trigger] board.succ_chain(cs) ==> !board.solved(cs.last()),
        r matches SearchOutcome::Solved(p) ==> exists|cs: Seq<Config>, segs: Seq<Seq<Action>>|
            #[trigger] gen_chain(board, cs, segs) && cs[0] == start@ && flatten(segs) == p@ && board.solved(cs.last()),
        board.node_bound() <= u64::MAX ==> !(r matches SearchOutcome::BudgetExceeded),
        board.node_bound() <= u64::MAX ==> ((r matches SearchOutcome::Solved(_)) <==> solvable(board, start@)),
        board.node_bound() <= u64::MAX ==> ((r matches SearchOutcome::Unsolvable) <==> !solvable(board, start@)),
{
    let r = search(board, start, u64::MAX);
    proof {
        if board.node_bound() <= u64::MAX {
            match &r {
                SearchOutcome::Solved(p) => {
                    let (cs, segs) = choose|cs: Seq<Config>, segs: Seq<Seq<Action>>|
                        #[trigger] gen_chain(board, cs, segs) && cs[0] == start@ && flatten(segs) == p@ && board.solved(cs.last());
                    lemma_gen_chain_succ(board, cs, segs);
                    assert(solvable(board, start@));
                },
                SearchOutcome::Unsolvable => {
                    if solvable(board, start@) {
                        let cs = choose|cs: Seq<Config>|
                            cs.len() >= 1 && cs[0] == start@ && #[trigger] board.succ_chain(cs) && board.solved(cs.last());
                        assert(!board.solved(cs.last()));
                    }
                },
                SearchOutcome::BudgetExceeded => {},
            }
        }
    }
    r
}

} // verus!
