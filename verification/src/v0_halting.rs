//! When the searches of the first engine come to an end: in every graph whose states
//! have ranks that fall along the edges that consume nothing, and so in the graph of
//! every pattern whose repetitions repeat something that consumes a token.
use vstd::prelude::*;
use crate::v0::{
    AstModel,
    AstNode,
    Evaluator,
    matches_at,
    models_of,
    repeats_in_order,
    Branch,
    Token,
    TransitionModel,
    available,
    chain_between,
    chain_state_count,
    graph_between,
    lemma_chain_next,
    lemma_graph_next,
    lemma_options_next,
    lemma_unrolled_next,
    options_between,
    options_state_count,
    required_copies,
    scan_halts,
    search_halts,
    search_run,
    search_start,
    state_count,
    targets,
    unrolled_between,
};

verus! {

/// Whether `rank` falls along every edge of the graph that consumes nothing.
pub open spec fn ranks_fall(graph: Seq<TransitionModel>, rank: spec_fn(u64) -> nat) -> bool {
    forall|i: int|
        0 <= i < graph.len() && (#[trigger] graph[i]).cond is Epsilon ==> rank(graph[i].to_state)
            < rank(graph[i].from_state)
}

/// Whether the branch `child` lies below the bound: in the order by tokens left, then by
/// rank.
pub open spec fn below_bound(
    len: int,
    rank: spec_fn(u64) -> nat,
    child: Branch,
    left_bound: int,
    rank_bound: nat,
) -> bool {
    &&& 0 <= child.pos <= len
    &&& (len - child.pos < left_bound || (len - child.pos <= left_bound && rank(child.state)
        < rank_bound))
}

/// How the search ends where it takes at most `fuel + extra` steps.
pub open spec fn run_with(
    graph: Seq<TransitionModel>,
    tokens: Seq<Token>,
    stack: Seq<Branch>,
    fuel: nat,
    extra: nat,
) -> Option<bool> {
    search_run(graph, tokens, stack, fuel + extra)
}

/// Whether exploring the branches above the stack `below` takes `fuel` steps and either
/// finds the end state, or leaves the search with the stack `below`.
pub open spec fn explores(
    graph: Seq<TransitionModel>,
    tokens: Seq<Token>,
    stack: Seq<Branch>,
    below: Seq<Branch>,
    fuel: nat,
    found: bool,
) -> bool {
    forall|extra: nat| #[trigger]
        run_with(graph, tokens, stack, fuel, extra) == if found {
            Some(true)
        } else {
            search_run(graph, tokens, below, extra)
        }
}

/// Every target of edges of a graph whose ranks fall, out of a branch inside the
/// stream, lies below that branch.
pub proof fn lemma_targets_below(
    graph: Seq<TransitionModel>,
    tokens: Seq<Token>,
    rank: spec_fn(u64) -> nat,
    branch: Branch,
    exits: Seq<TransitionModel>,
)
    requires
        ranks_fall(graph, rank),
        0 <= branch.pos <= tokens.len(),
        forall|j: int|
            0 <= j < exits.len() ==> (#[trigger] exits[j]).from_state == branch.state
                && graph.contains(exits[j]),
    ensures
        forall|k: int|
            0 <= k < targets(tokens, branch.pos, exits).len() ==> below_bound(
                tokens.len() as int,
                rank,
                #[trigger] targets(tokens, branch.pos, exits)[k],
                tokens.len() - branch.pos,
                rank(branch.state),
            ),
    decreases exits.len(),
{
    if exits.len() > 0 {
        let front = exits.drop_last();
        assert forall|j: int| 0 <= j < front.len() implies (#[trigger] front[j]).from_state
            == branch.state && graph.contains(front[j]) by {
            assert(front[j] == exits[j]);
        }
        lemma_targets_below(graph, tokens, rank, branch, front);
        let tr = exits[exits.len() - 1];
        assert(graph.contains(tr));
        let i = choose|i: int| 0 <= i < graph.len() && graph[i] == tr;
        assert(graph[i].cond is Epsilon ==> rank(graph[i].to_state) < rank(graph[i].from_state));
        let rest = targets(tokens, branch.pos, front);
        let all = targets(tokens, branch.pos, exits);
        assert forall|k: int| 0 <= k < all.len() implies below_bound(
            tokens.len() as int,
            rank,
            #[trigger] all[k],
            tokens.len() - branch.pos,
            rank(branch.state),
        ) by {
            if k < rest.len() {
                assert(all[k] == rest[k]);
            }
        }
    }
}

/// In a graph whose ranks fall, exploring a branch inside the stream comes to an end.
pub proof fn lemma_explore_branch(
    graph: Seq<TransitionModel>,
    tokens: Seq<Token>,
    rank: spec_fn(u64) -> nat,
    below: Seq<Branch>,
    branch: Branch,
) -> (result: (nat, bool))
    requires
        ranks_fall(graph, rank),
        0 <= branch.pos <= tokens.len(),
    ensures
        explores(graph, tokens, below.push(branch), below, result.0, result.1),
    decreases tokens.len() - branch.pos, rank(branch.state), 1nat, 0nat,
{
    let stack = below.push(branch);
    if branch.state == 1 {
        assert forall|extra: nat| #[trigger]
            run_with(graph, tokens, stack, 0, extra) == Some(true) by {}
        (0, true)
    } else {
        let exits = available(graph, branch.state);
        crate::v0::lemma_available(graph, branch.state);
        let children = targets(tokens, branch.pos, exits);
        lemma_targets_below(graph, tokens, rank, branch, exits);
        assert(stack.drop_last() =~= below);
        let inner = lemma_explore_branches(
            graph,
            tokens,
            rank,
            below,
            children,
            tokens.len() - branch.pos,
            rank(branch.state),
        );
        assert forall|extra: nat| #[trigger]
            run_with(graph, tokens, stack, inner.0 + 1, extra) == if inner.1 {
                Some(true)
            } else {
                search_run(graph, tokens, below, extra)
            } by {
            assert(search_run(graph, tokens, stack, (inner.0 + 1 + extra) as nat) == search_run(
                graph,
                tokens,
                below + children,
                (inner.0 + extra) as nat,
            ));
            assert(run_with(graph, tokens, below + children, inner.0, extra) == search_run(
                graph,
                tokens,
                below + children,
                inner.0 + extra,
            ));
        }
        (inner.0 + 1, inner.1)
    }
}

/// In a graph whose ranks fall, exploring branches that lie below a bound comes to an
/// end.
pub proof fn lemma_explore_branches(
    graph: Seq<TransitionModel>,
    tokens: Seq<Token>,
    rank: spec_fn(u64) -> nat,
    below: Seq<Branch>,
    children: Seq<Branch>,
    left_bound: int,
    rank_bound: nat,
) -> (result: (nat, bool))
    requires
        ranks_fall(graph, rank),
        0 <= left_bound,
        forall|k: int|
            0 <= k < children.len() ==> below_bound(
                tokens.len() as int,
                rank,
                #[trigger] children[k],
                left_bound,
                rank_bound,
            ),
    ensures
        explores(graph, tokens, below + children, below, result.0, result.1),
    decreases left_bound, rank_bound, 0nat, children.len(),
{
    let stack = below + children;
    if children.len() == 0 {
        assert(stack =~= below);
        assert forall|extra: nat| #[trigger]
            run_with(graph, tokens, stack, 0, extra) == search_run(graph, tokens, below, extra) by {}
        (0, false)
    } else {
        let top = children.last();
        let rest = children.drop_last();
        assert(below_bound(
            tokens.len() as int,
            rank,
            children[children.len() - 1],
            left_bound,
            rank_bound,
        ));
        let first = lemma_explore_branch(graph, tokens, rank, below + rest, top);
        assert((below + rest).push(top) =~= stack);
        if first.1 {
            assert forall|extra: nat| #[trigger]
                run_with(graph, tokens, stack, first.0, extra) == Some(true) by {
                assert(run_with(graph, tokens, (below + rest).push(top), first.0, extra) == Some(
                    true,
                ));
            }
            first
        } else {
            assert forall|k: int| 0 <= k < rest.len() implies below_bound(
                tokens.len() as int,
                rank,
                #[trigger] rest[k],
                left_bound,
                rank_bound,
            ) by {
                assert(rest[k] == children[k]);
            }
            let second = lemma_explore_branches(
                graph,
                tokens,
                rank,
                below,
                rest,
                left_bound,
                rank_bound,
            );
            assert forall|extra: nat| #[trigger]
                run_with(graph, tokens, stack, first.0 + second.0, extra) == if second.1 {
                    Some(true)
                } else {
                    search_run(graph, tokens, below, extra)
                } by {
                assert(run_with(graph, tokens, (below + rest).push(top), first.0, second.0 + extra)
                    == search_run(graph, tokens, below + rest, second.0 + extra));
                assert(first.0 + (second.0 + extra) == first.0 + second.0 + extra);
                assert(run_with(graph, tokens, below + rest, second.0, extra) == search_run(
                    graph,
                    tokens,
                    below + rest,
                    second.0 + extra,
                ));
            }
            (first.0 + second.0, second.1)
        }
    }
}

/// In a graph whose ranks fall, the search from every offset comes to an end.
pub proof fn lemma_search_halts(
    graph: Seq<TransitionModel>,
    tokens: Seq<Token>,
    rank: spec_fn(u64) -> nat,
    offset: int,
)
    requires
        ranks_fall(graph, rank),
        0 <= offset <= tokens.len(),
    ensures
        search_halts(graph, tokens, offset),
{
    let start = search_start(offset);
    let result = lemma_explore_branch(graph, tokens, rank, Seq::empty(), start[0]);
    assert(Seq::<Branch>::empty().push(start[0]) =~= start);
    assert(run_with(graph, tokens, start, result.0, 0) is Some);
    assert(search_run(graph, tokens, start, result.0) is Some);
}

/// In a graph whose ranks fall, every scan comes to an end.
pub proof fn lemma_scan_halts(
    graph: Seq<TransitionModel>,
    tokens: Seq<Token>,
    rank: spec_fn(u64) -> nat,
    offset: int,
)
    requires
        ranks_fall(graph, rank),
    ensures
        scan_halts(graph, tokens, offset),
    decreases tokens.len() - offset,
{
    if 0 <= offset < tokens.len() {
        lemma_search_halts(graph, tokens, rank, offset);
        lemma_scan_halts(graph, tokens, rank, offset + 1);
    }
}

/// Whether every edge leaves one of two states or a state of the range `low..high`, and
/// enters the second of the two or a state of the range.
pub open spec fn edges_within(
    edges: Seq<TransitionModel>,
    first: u64,
    second: u64,
    low: int,
    high: int,
) -> bool {
    forall|i: int|
        0 <= i < edges.len() ==> ((#[trigger] edges[i]).from_state == first
            || edges[i].from_state == second || low <= edges[i].from_state < high) && (
        edges[i].to_state == second || low <= edges[i].to_state < high)
}

/// Whether every edge leaves `start` or a state of the range, and enters `end` or a
/// state of the range.
pub open spec fn edges_between(
    edges: Seq<TransitionModel>,
    start: u64,
    end: u64,
    low: int,
    high: int,
) -> bool {
    forall|i: int|
        0 <= i < edges.len() ==> ((#[trigger] edges[i]).from_state == start || low
            <= edges[i].from_state < high) && (edges[i].to_state == end || low
            <= edges[i].to_state < high)
}

/// The edges of the graph of a node leave its start state or one of its fresh states,
/// and enter its end state or one of its fresh states.
pub proof fn lemma_graph_between(node: AstModel, start: u64, end: u64, next: int)
    requires
        0 <= next,
        next + state_count(node) <= u64::MAX,
    ensures
        edges_between(
            graph_between(node, start, end, next).transitions,
            start,
            end,
            next,
            next + state_count(node),
        ),
    decreases node, 0nat,
{
    lemma_graph_next(node, start, end, next);
    match node {
        AstModel::Root(inner) => {
            lemma_graph_between(*inner, start, end, next);
        },
        AstModel::Char(_) => {},
        AstModel::Sequence(items) => {
            if items.len() > 0 {
                lemma_chain_between(items, 0, start, end, next);
            }
        },
        AstModel::Alt(options) => {
            lemma_options_between(options, 0, start, end, next);
        },
        AstModel::Repeat { min, max, node } => {
            if max != Some(0usize) {
                let count = required_copies(min, max);
                let child = *node;
                assert(count * (state_count(child) + 1) >= 0) by (nonlinear_arith);
                let copies = unrolled_between(
                    child,
                    count,
                    next as u64,
                    (next + 1) as u64,
                    next + 2,
                );
                lemma_unrolled_next(child, count, next as u64, (next + 1) as u64, next + 2);
                lemma_unrolled_within(child, count, next as u64, (next + 1) as u64, next + 2);
                lemma_graph_between(child, copies.inner_start, copies.inner_end, copies.next);
            }
        },
    }
}

/// The same for a chain.
pub proof fn lemma_chain_between(items: Seq<AstModel>, i: int, from: u64, end: u64, next: int)
    requires
        0 <= next,
        0 <= i,
        next + chain_state_count(items, i) <= u64::MAX,
    ensures
        edges_between(
            chain_between(items, i, from, end, next).transitions,
            from,
            end,
            next,
            next + chain_state_count(items, i),
        ),
    decreases items, items.len() - i,
{
    if i < items.len() {
        let last = i + 1 == items.len();
        let to = if last {
            end
        } else {
            next as u64
        };
        let next1 = if last {
            next
        } else {
            next + 1
        };
        lemma_graph_between(items[i], from, to, next1);
        lemma_graph_next(items[i], from, to, next1);
        let first = graph_between(items[i], from, to, next1);
        lemma_chain_between(items, i + 1, to, end, first.next);
        lemma_chain_next(items, i + 1, to, end, first.next);
    }
}

/// The same for a list of options.
pub proof fn lemma_options_between(
    options: Seq<AstModel>,
    i: int,
    start: u64,
    end: u64,
    next: int,
)
    requires
        0 <= next,
        0 <= i,
        next + options_state_count(options, i) <= u64::MAX,
    ensures
        edges_between(
            options_between(options, i, start, end, next).transitions,
            start,
            end,
            next,
            next + options_state_count(options, i),
        ),
    decreases options, options.len() - i,
{
    if i < options.len() {
        lemma_graph_between(options[i], start, end, next);
        lemma_graph_next(options[i], start, end, next);
        let first = graph_between(options[i], start, end, next);
        lemma_options_between(options, i + 1, start, end, first.next);
        lemma_options_next(options, i + 1, start, end, first.next);
    }
}

/// The edges of unrolled copies leave one of the two states that the first copy stands
/// between or a fresh state, and enter the second of the two or a fresh state; the loop
/// body behind them stands between two such states.
pub proof fn lemma_unrolled_within(
    node: AstModel,
    count: nat,
    inner_start: u64,
    inner_end: u64,
    next: int,
)
    requires
        0 <= next,
        next + count * (state_count(node) + 1) <= u64::MAX,
    ensures
        edges_within(
            unrolled_between(node, count, inner_start, inner_end, next).transitions,
            inner_start,
            inner_end,
            next,
            next + count * (state_count(node) + 1),
        ),
        ({
            let copies = unrolled_between(node, count, inner_start, inner_end, next);
            if count == 0 {
                copies.inner_start == inner_start && copies.inner_end == inner_end
            } else {
                &&& (copies.inner_start == inner_end || next <= copies.inner_start < next + count
                    * (state_count(node) + 1))
                &&& next <= copies.inner_end < next + count * (state_count(node) + 1)
            }
        }),
    decreases node, count + 1,
{
    if count > 0 {
        assert(count * (state_count(node) + 1) == (count - 1) * (state_count(node) + 1) + (
        state_count(node) + 1)) by (nonlinear_arith);
        assert((count - 1) * (state_count(node) + 1) >= 0) by (nonlinear_arith)
            requires
                count >= 1,
        ;
        lemma_graph_between(node, inner_start, inner_end, next);
        lemma_graph_next(node, inner_start, inner_end, next);
        let first = graph_between(node, inner_start, inner_end, next);
        lemma_unrolled_within(
            node,
            (count - 1) as nat,
            inner_end,
            first.next as u64,
            first.next + 1,
        );
        lemma_unrolled_next(node, (count - 1) as nat, inner_end, first.next as u64, first.next + 1);
    } else {
        assert(count * (state_count(node) + 1) == 0) by (nonlinear_arith)
            requires
                count == 0,
        ;
    }
}

/// Whether the graph of `node` can be crossed without consuming a token.
pub open spec fn nullable(node: AstModel) -> bool
    decreases node,
{
    match node {
        AstModel::Root(inner) => nullable(*inner),
        AstModel::Char(_) => false,
        AstModel::Sequence(items) => forall|i: int|
            0 <= i < items.len() ==> nullable(#[trigger] items[i]),
        AstModel::Alt(options) => exists|i: int|
            0 <= i < options.len() && nullable(#[trigger] options[i]),
        AstModel::Repeat { min, max, node } => max == Some(0usize) || min is None || min == Some(
            0usize,
        ) || nullable(*node),
    }
}

/// Whether every repetition repeats something that consumes a token; a repetition of at
/// most zero times aside, whose child is dropped.
pub open spec fn productive(node: AstModel) -> bool
    decreases node,
{
    match node {
        AstModel::Root(inner) => productive(*inner),
        AstModel::Char(_) => true,
        AstModel::Sequence(items) => forall|i: int|
            0 <= i < items.len() ==> productive(#[trigger] items[i]),
        AstModel::Alt(options) => forall|i: int|
            0 <= i < options.len() ==> productive(#[trigger] options[i]),
        AstModel::Repeat { min, max, node } => max == Some(0usize) || (productive(*node)
            && !nullable(*node)),
    }
}

/// The larger of two numbers.
pub open spec fn larger(a: nat, b: nat) -> nat {
    if a >= b {
        a
    } else {
        b
    }
}

/// The least rank for the state in front of the graph of `node`, where `exit` is the
/// rank of the state behind it.
pub open spec fn entry_rank(node: AstModel, exit: nat) -> nat
    decreases node, 0nat,
{
    match node {
        AstModel::Root(inner) => entry_rank(*inner, exit),
        AstModel::Char(_) => 0,
        AstModel::Sequence(items) => if items.len() == 0 {
            exit + 1
        } else {
            chain_entry_rank(items, 0, exit)
        },
        AstModel::Alt(options) => options_entry_rank(options, 0, exit),
        AstModel::Repeat { min, max, node } => if max == Some(0usize) {
            exit + 1
        } else {
            let loop_end = larger(exit, entry_rank(*node, 0)) + 1;
            let entry = unrolled_entry_rank(
                *node,
                required_copies(min, max),
                entry_rank(*node, loop_end),
            ) + 1;
            if min is None || min == Some(0usize) {
                larger(entry, exit + 1)
            } else {
                entry
            }
        },
    }
}

/// The least rank for the state in front of the chain of `items[i..]`.
pub open spec fn chain_entry_rank(items: Seq<AstModel>, i: int, exit: nat) -> nat
    decreases items, items.len() - i,
{
    if 0 <= i < items.len() {
        entry_rank(
            items[i],
            if i + 1 == items.len() {
                exit
            } else {
                chain_entry_rank(items, i + 1, exit)
            },
        )
    } else {
        exit
    }
}

/// The least rank for the state in front of the graphs of `options[i..]`.
pub open spec fn options_entry_rank(options: Seq<AstModel>, i: int, exit: nat) -> nat
    decreases options, options.len() - i,
{
    if 0 <= i < options.len() {
        larger(entry_rank(options[i], exit), options_entry_rank(options, i + 1, exit))
    } else {
        0
    }
}

/// The least rank for the state in front of `count` copies of the graph of `node`.
pub open spec fn unrolled_entry_rank(node: AstModel, count: nat, exit: nat) -> nat
    decreases node, count + 1,
{
    if count == 0 {
        exit
    } else {
        entry_rank(node, unrolled_entry_rank(node, (count - 1) as nat, exit))
    }
}

/// The rank of the fresh state `state` of the graph of `node`, whose fresh states are
/// numbered from `next`, where `exit` is the rank of the state behind the graph.
pub open spec fn rank_at(node: AstModel, next: int, exit: nat, state: int) -> nat
    decreases node, 0nat,
{
    match node {
        AstModel::Root(inner) => rank_at(*inner, next, exit, state),
        AstModel::Char(_) => 0,
        AstModel::Sequence(items) => chain_rank_at(items, 0, next, exit, state),
        AstModel::Alt(options) => options_rank_at(options, 0, next, exit, state),
        AstModel::Repeat { min, max, node } => {
            let count = required_copies(min, max);
            let loop_end = larger(exit, entry_rank(*node, 0)) + 1;
            let loop_start = entry_rank(*node, loop_end);
            let body = next + 2 + count * (state_count(*node) + 1);
            if max == Some(0usize) {
                0
            } else if state == next {
                unrolled_entry_rank(*node, count, loop_start)
            } else if state == next + 1 {
                if count == 0 {
                    loop_end
                } else {
                    unrolled_entry_rank(*node, (count - 1) as nat, loop_start)
                }
            } else if state < body {
                unrolled_rank_at(*node, count, next + 2, loop_start, loop_end, state)
            } else {
                rank_at(*node, body, loop_end, state)
            }
        },
    }
}

/// The rank of a fresh state of the chain of `items[i..]`.
pub open spec fn chain_rank_at(items: Seq<AstModel>, i: int, next: int, exit: nat, state: int)
    -> nat
    decreases items, items.len() - i,
{
    if 0 <= i < items.len() {
        let last = i + 1 == items.len();
        let first = if last {
            next
        } else {
            next + 1
        };
        let behind = if last {
            exit
        } else {
            chain_entry_rank(items, i + 1, exit)
        };
        if !last && state == next {
            behind
        } else if state < first + state_count(items[i]) {
            rank_at(items[i], first, behind, state)
        } else {
            chain_rank_at(items, i + 1, first + state_count(items[i]), exit, state)
        }
    } else {
        0
    }
}

/// The rank of a fresh state of the graphs of `options[i..]`.
pub open spec fn options_rank_at(
    options: Seq<AstModel>,
    i: int,
    next: int,
    exit: nat,
    state: int,
) -> nat
    decreases options, options.len() - i,
{
    if 0 <= i < options.len() {
        if state < next + state_count(options[i]) {
            rank_at(options[i], next, exit, state)
        } else {
            options_rank_at(options, i + 1, next + state_count(options[i]), exit, state)
        }
    } else {
        0
    }
}

/// The rank of a fresh state of `count` unrolled copies of `node`, where `loop_start`
/// and `loop_end` are the ranks of the two states that the loop body stands between.
pub open spec fn unrolled_rank_at(
    node: AstModel,
    count: nat,
    next: int,
    loop_start: nat,
    loop_end: nat,
    state: int,
) -> nat
    decreases node, count + 1,
{
    if count == 0 {
        0
    } else if state < next + state_count(node) {
        rank_at(node, next, unrolled_entry_rank(node, (count - 1) as nat, loop_start), state)
    } else if state == next + state_count(node) {
        if count == 1 {
            loop_end
        } else {
            unrolled_entry_rank(node, (count - 2) as nat, loop_start)
        }
    } else {
        unrolled_rank_at(
            node,
            (count - 1) as nat,
            next + state_count(node) + 1,
            loop_start,
            loop_end,
            state,
        )
    }
}

/// The rank of each state of a graph between `start` and `end`: the two given ranks in
/// these two, and in the fresh states what `fresh` says.
pub open spec fn ranks_with(
    start: u64,
    end: u64,
    entry: nat,
    exit: nat,
    fresh: spec_fn(int) -> nat,
) -> spec_fn(u64) -> nat {
    |state: u64|
        if state == start {
            entry
        } else if state == end {
            exit
        } else {
            fresh(state as int)
        }
}

/// Whether `rank` falls along every edge that consumes nothing.
pub open spec fn edges_fall(edges: Seq<TransitionModel>, rank: spec_fn(u64) -> nat) -> bool {
    forall|i: int|
        0 <= i < edges.len() && (#[trigger] edges[i]).cond is Epsilon ==> rank(edges[i].to_state)
            < rank(edges[i].from_state)
}

/// Edges along which one ranking falls fall along every ranking that says the same of
/// their states.
pub proof fn lemma_edges_fall_same(
    edges: Seq<TransitionModel>,
    first: u64,
    second: u64,
    low: int,
    high: int,
    one: spec_fn(u64) -> nat,
    other: spec_fn(u64) -> nat,
)
    requires
        edges_fall(edges, one),
        edges_within(edges, first, second, low, high),
        one(first) == other(first),
        one(second) == other(second),
        forall|state: u64| low <= state < high ==> #[trigger] one(state) == other(state),
    ensures
        edges_fall(edges, other),
{
    assert forall|i: int|
        0 <= i < edges.len() && (#[trigger] edges[i]).cond is Epsilon implies other(
        edges[i].to_state,
    ) < other(edges[i].from_state) by {
        assert(one(edges[i].from_state) == other(edges[i].from_state));
        assert(one(edges[i].to_state) == other(edges[i].to_state));
    }
}

/// Where the graph of a node cannot be crossed without consuming a token, the least
/// rank for the state in front of it does not depend on the rank of the state behind it.
pub proof fn lemma_entry_rank_fixed(node: AstModel, one: nat, other: nat)
    requires
        !nullable(node),
    ensures
        entry_rank(node, one) == entry_rank(node, other),
    decreases node, 0nat,
{
    match node {
        AstModel::Root(inner) => {
            lemma_entry_rank_fixed(*inner, one, other);
        },
        AstModel::Char(_) => {},
        AstModel::Sequence(items) => {
            let k = choose|k: int| 0 <= k < items.len() && !nullable(#[trigger] items[k]);
            lemma_chain_entry_rank_fixed(items, 0, k, one, other);
        },
        AstModel::Alt(options) => {
            lemma_options_entry_rank_fixed(options, 0, one, other);
        },
        AstModel::Repeat { min, max, node: child } => {
            let end_one = larger(one, entry_rank(*child, 0)) + 1;
            let end_other = larger(other, entry_rank(*child, 0)) + 1;
            lemma_entry_rank_fixed(*child, end_one, end_other);
        },
    }
}

/// The same for a chain that holds, from `i` on, an item that cannot be crossed without
/// consuming a token.
pub proof fn lemma_chain_entry_rank_fixed(
    items: Seq<AstModel>,
    i: int,
    k: int,
    one: nat,
    other: nat,
)
    requires
        0 <= i <= k < items.len(),
        !nullable(items[k]),
    ensures
        chain_entry_rank(items, i, one) == chain_entry_rank(items, i, other),
    decreases items, items.len() - i,
{
    if i == k {
        let last = i + 1 == items.len();
        lemma_entry_rank_fixed(
            items[i],
            if last {
                one
            } else {
                chain_entry_rank(items, i + 1, one)
            },
            if last {
                other
            } else {
                chain_entry_rank(items, i + 1, other)
            },
        );
    } else {
        lemma_chain_entry_rank_fixed(items, i + 1, k, one, other);
    }
}

/// The same for options none of which can be crossed without consuming a token.
pub proof fn lemma_options_entry_rank_fixed(options: Seq<AstModel>, i: int, one: nat, other: nat)
    requires
        0 <= i,
        forall|j: int| 0 <= j < options.len() ==> !nullable(#[trigger] options[j]),
    ensures
        options_entry_rank(options, i, one) == options_entry_rank(options, i, other),
    decreases options, options.len() - i,
{
    if i < options.len() {
        lemma_entry_rank_fixed(options[i], one, other);
        lemma_options_entry_rank_fixed(options, i + 1, one, other);
    }
}

/// The rank of each state of the graph of `node` between `start` and `end`.
pub open spec fn ranks_around(
    node: AstModel,
    start: u64,
    end: u64,
    next: int,
    entry: nat,
    exit: nat,
) -> spec_fn(u64) -> nat {
    ranks_with(start, end, entry, exit, |state: int| rank_at(node, next, exit, state))
}

/// The rank of each state of the chain of `items[i..]`.
pub open spec fn chain_ranks_around(
    items: Seq<AstModel>,
    i: int,
    start: u64,
    end: u64,
    next: int,
    entry: nat,
    exit: nat,
) -> spec_fn(u64) -> nat {
    ranks_with(start, end, entry, exit, |state: int| chain_rank_at(items, i, next, exit, state))
}

/// The rank of each state of the graphs of `options[i..]`.
pub open spec fn options_ranks_around(
    options: Seq<AstModel>,
    i: int,
    start: u64,
    end: u64,
    next: int,
    entry: nat,
    exit: nat,
) -> spec_fn(u64) -> nat {
    ranks_with(
        start,
        end,
        entry,
        exit,
        |state: int| options_rank_at(options, i, next, exit, state),
    )
}

/// The rank of each state of `count` unrolled copies of `node`, the first of which
/// stands between `start` and `end`.
pub open spec fn unrolled_ranks_around(
    node: AstModel,
    count: nat,
    start: u64,
    end: u64,
    next: int,
    loop_start: nat,
    loop_end: nat,
) -> spec_fn(u64) -> nat {
    ranks_with(
        start,
        end,
        unrolled_entry_rank(node, count, loop_start),
        if count == 0 {
            loop_end
        } else {
            unrolled_entry_rank(node, (count - 1) as nat, loop_start)
        },
        |state: int| unrolled_rank_at(node, count, next, loop_start, loop_end, state),
    )
}

/// The ranks fall along the edges of the graph of a productive node, where the state in
/// front of it has at least the least rank for it.
pub proof fn lemma_graph_falls(
    node: AstModel,
    start: u64,
    end: u64,
    next: int,
    entry: nat,
    exit: nat,
)
    requires
        start < next,
        end < next,
        start != end,
        next + state_count(node) <= u64::MAX,
        productive(node),
        entry >= entry_rank(node, exit),
    ensures
        edges_fall(
            graph_between(node, start, end, next).transitions,
            ranks_around(node, start, end, next, entry, exit),
        ),
    decreases node, 0nat,
{
    let around = ranks_around(node, start, end, next, entry, exit);
    let edges = graph_between(node, start, end, next).transitions;
    match node {
        AstModel::Root(inner) => {
            lemma_graph_falls(*inner, start, end, next, entry, exit);
            lemma_graph_between(*inner, start, end, next);
            lemma_edges_fall_same(
                edges,
                start,
                end,
                next,
                next + state_count(node),
                ranks_around(*inner, start, end, next, entry, exit),
                around,
            );
        },
        AstModel::Char(_) => {},
        AstModel::Sequence(items) => {
            if items.len() > 0 {
                lemma_chain_falls(items, 0, start, end, next, entry, exit);
                lemma_chain_between(items, 0, start, end, next);
                lemma_edges_fall_same(
                    edges,
                    start,
                    end,
                    next,
                    next + state_count(node),
                    chain_ranks_around(items, 0, start, end, next, entry, exit),
                    around,
                );
            }
        },
        AstModel::Alt(options) => {
            lemma_options_falls(options, 0, start, end, next, entry, exit);
            lemma_options_between(options, 0, start, end, next);
            lemma_options_next(options, 0, start, end, next);
            lemma_edges_fall_same(
                edges,
                start,
                end,
                next,
                next + state_count(node),
                options_ranks_around(options, 0, start, end, next, entry, exit),
                around,
            );
        },
        AstModel::Repeat { min, max, node: child } => {
            if max != Some(0usize) {
                let count = required_copies(min, max);
                let inner_start = next as u64;
                let inner_end = (next + 1) as u64;
                let loop_end = larger(exit, entry_rank(*child, 0)) + 1;
                let loop_start = entry_rank(*child, loop_end);
                assert(count * (state_count(*child) + 1) >= 0) by (nonlinear_arith);
                let body_next = next + 2 + count * (state_count(*child) + 1);
                let copies = unrolled_between(*child, count, inner_start, inner_end, next + 2);
                lemma_unrolled_next(*child, count, inner_start, inner_end, next + 2);
                lemma_unrolled_within(*child, count, inner_start, inner_end, next + 2);
                lemma_unrolled_falls(
                    *child,
                    count,
                    inner_start,
                    inner_end,
                    next + 2,
                    loop_start,
                    loop_end,
                );
                lemma_edges_fall_same(
                    copies.transitions,
                    inner_start,
                    inner_end,
                    next + 2,
                    body_next,
                    unrolled_ranks_around(
                        *child,
                        count,
                        inner_start,
                        inner_end,
                        next + 2,
                        loop_start,
                        loop_end,
                    ),
                    around,
                );
                let body = graph_between(*child, copies.inner_start, copies.inner_end, copies.next);
                lemma_graph_falls(
                    *child,
                    copies.inner_start,
                    copies.inner_end,
                    copies.next,
                    loop_start,
                    loop_end,
                );
                lemma_graph_between(*child, copies.inner_start, copies.inner_end, copies.next);
                lemma_graph_next(*child, copies.inner_start, copies.inner_end, copies.next);
                assert(around(copies.inner_start) == loop_start);
                assert(around(copies.inner_end) == loop_end);
                lemma_edges_fall_same(
                    body.transitions,
                    copies.inner_start,
                    copies.inner_end,
                    body_next,
                    next + state_count(node),
                    ranks_around(
                        *child,
                        copies.inner_start,
                        copies.inner_end,
                        copies.next,
                        loop_start,
                        loop_end,
                    ),
                    around,
                );
                lemma_entry_rank_fixed(*child, loop_end, 0);
            }
        },
    }
}

/// The ranks fall along the edges of a chain of productive items.
pub proof fn lemma_chain_falls(
    items: Seq<AstModel>,
    i: int,
    from: u64,
    end: u64,
    next: int,
    entry: nat,
    exit: nat,
)
    requires
        0 <= i,
        from < next,
        end < next,
        from != end,
        next + chain_state_count(items, i) <= u64::MAX,
        forall|j: int| 0 <= j < items.len() ==> productive(#[trigger] items[j]),
        entry >= chain_entry_rank(items, i, exit),
    ensures
        edges_fall(
            chain_between(items, i, from, end, next).transitions,
            chain_ranks_around(items, i, from, end, next, entry, exit),
        ),
    decreases items, items.len() - i,
{
    if i < items.len() {
        let around = chain_ranks_around(items, i, from, end, next, entry, exit);
        let last = i + 1 == items.len();
        let to = if last {
            end
        } else {
            next as u64
        };
        let next1 = if last {
            next
        } else {
            next + 1
        };
        let behind = if last {
            exit
        } else {
            chain_entry_rank(items, i + 1, exit)
        };
        let first = graph_between(items[i], from, to, next1);
        lemma_graph_falls(items[i], from, to, next1, entry, behind);
        lemma_graph_between(items[i], from, to, next1);
        lemma_graph_next(items[i], from, to, next1);
        lemma_edges_fall_same(
            first.transitions,
            from,
            to,
            next1,
            first.next,
            ranks_around(items[i], from, to, next1, entry, behind),
            around,
        );
        if !last {
            let rest = chain_between(items, i + 1, to, end, first.next);
            lemma_chain_falls(items, i + 1, to, end, first.next, behind, exit);
            lemma_chain_between(items, i + 1, to, end, first.next);
            lemma_chain_next(items, i + 1, to, end, first.next);
            lemma_edges_fall_same(
                rest.transitions,
                to,
                end,
                first.next,
                rest.next,
                chain_ranks_around(items, i + 1, to, end, first.next, behind, exit),
                around,
            );
        }
    }
}

/// The ranks fall along the edges of a list of productive options.
pub proof fn lemma_options_falls(
    options: Seq<AstModel>,
    i: int,
    start: u64,
    end: u64,
    next: int,
    entry: nat,
    exit: nat,
)
    requires
        0 <= i,
        start < next,
        end < next,
        start != end,
        next + options_state_count(options, i) <= u64::MAX,
        forall|j: int| 0 <= j < options.len() ==> productive(#[trigger] options[j]),
        entry >= options_entry_rank(options, i, exit),
    ensures
        edges_fall(
            options_between(options, i, start, end, next).transitions,
            options_ranks_around(options, i, start, end, next, entry, exit),
        ),
    decreases options, options.len() - i,
{
    if i < options.len() {
        let around = options_ranks_around(options, i, start, end, next, entry, exit);
        let first = graph_between(options[i], start, end, next);
        lemma_graph_falls(options[i], start, end, next, entry, exit);
        lemma_graph_between(options[i], start, end, next);
        lemma_graph_next(options[i], start, end, next);
        lemma_edges_fall_same(
            first.transitions,
            start,
            end,
            next,
            first.next,
            ranks_around(options[i], start, end, next, entry, exit),
            around,
        );
        let rest = options_between(options, i + 1, start, end, first.next);
        lemma_options_falls(options, i + 1, start, end, first.next, entry, exit);
        lemma_options_between(options, i + 1, start, end, first.next);
        lemma_options_next(options, i + 1, start, end, first.next);
        lemma_edges_fall_same(
            rest.transitions,
            start,
            end,
            first.next,
            rest.next,
            options_ranks_around(options, i + 1, start, end, first.next, entry, exit),
            around,
        );
    }
}

/// The ranks fall along the edges of unrolled copies of a productive node, and the two
/// states that the loop body stands between have the ranks `loop_start` and `loop_end`.
pub proof fn lemma_unrolled_falls(
    node: AstModel,
    count: nat,
    inner_start: u64,
    inner_end: u64,
    next: int,
    loop_start: nat,
    loop_end: nat,
)
    requires
        inner_start < next,
        inner_end < next,
        inner_start != inner_end,
        next + count * (state_count(node) + 1) <= u64::MAX,
        productive(node),
    ensures
        edges_fall(
            unrolled_between(node, count, inner_start, inner_end, next).transitions,
            unrolled_ranks_around(
                node,
                count,
                inner_start,
                inner_end,
                next,
                loop_start,
                loop_end,
            ),
        ),
        ({
            let copies = unrolled_between(node, count, inner_start, inner_end, next);
            let around = unrolled_ranks_around(
                node,
                count,
                inner_start,
                inner_end,
                next,
                loop_start,
                loop_end,
            );
            around(copies.inner_start) == loop_start && around(copies.inner_end) == loop_end
                && copies.inner_start != copies.inner_end
        }),
    decreases node, count + 1,
{
    if count > 0 {
        assert(count * (state_count(node) + 1) == (count - 1) * (state_count(node) + 1) + (
        state_count(node) + 1)) by (nonlinear_arith);
        assert((count - 1) * (state_count(node) + 1) >= 0) by (nonlinear_arith)
            requires
                count >= 1,
        ;
        let around = unrolled_ranks_around(
            node,
            count,
            inner_start,
            inner_end,
            next,
            loop_start,
            loop_end,
        );
        let entry = unrolled_entry_rank(node, count, loop_start);
        let behind = unrolled_entry_rank(node, (count - 1) as nat, loop_start);
        let first = graph_between(node, inner_start, inner_end, next);
        lemma_graph_falls(node, inner_start, inner_end, next, entry, behind);
        lemma_graph_between(node, inner_start, inner_end, next);
        lemma_graph_next(node, inner_start, inner_end, next);
        lemma_edges_fall_same(
            first.transitions,
            inner_start,
            inner_end,
            next,
            first.next,
            ranks_around(node, inner_start, inner_end, next, entry, behind),
            around,
        );
        let fresh = first.next as u64;
        let rest = unrolled_between(node, (count - 1) as nat, inner_end, fresh, first.next + 1);
        let rest_around = unrolled_ranks_around(
            node,
            (count - 1) as nat,
            inner_end,
            fresh,
            first.next + 1,
            loop_start,
            loop_end,
        );
        lemma_unrolled_falls(
            node,
            (count - 1) as nat,
            inner_end,
            fresh,
            first.next + 1,
            loop_start,
            loop_end,
        );
        lemma_unrolled_within(node, (count - 1) as nat, inner_end, fresh, first.next + 1);
        lemma_unrolled_next(node, (count - 1) as nat, inner_end, fresh, first.next + 1);
        assert(rest_around(fresh) == around(fresh));
        assert(rest_around(inner_end) == around(inner_end));
        lemma_edges_fall_same(
            rest.transitions,
            inner_end,
            fresh,
            first.next + 1,
            rest.next,
            rest_around,
            around,
        );
    }
}

/// Every scan with the graph of a productive node between two states, whose fresh
/// states are numbered from `next`, comes to an end.
pub proof fn lemma_productive_graph_halts(
    node: AstModel,
    start: u64,
    end: u64,
    next: int,
    tokens: Seq<Token>,
)
    requires
        start < next,
        end < next,
        start != end,
        next + state_count(node) <= u64::MAX,
        productive(node),
    ensures
        scan_halts(graph_between(node, start, end, next).transitions, tokens, 0),
{
    let entry = entry_rank(node, 0);
    lemma_graph_falls(node, start, end, next, entry, 0);
    lemma_scan_halts(
        graph_between(node, start, end, next).transitions,
        tokens,
        ranks_around(node, start, end, next, entry, 0),
        0,
    );
}

/// Whether a pattern can be compiled and searched for: no repetition of it has a maximum
/// below its minimum, its graph has no more states than there are state ids, and every
/// repetition repeats something that consumes a token.
pub open spec fn searchable(node: AstModel) -> bool {
    &&& repeats_in_order(node)
    &&& 2 + state_count(node) <= u64::MAX
    &&& productive(node)
}

/// The graph of a pattern: from the state 0 to the state 1, the fresh states numbered
/// from 2.
pub open spec fn graph_of_pattern(node: AstModel) -> Seq<TransitionModel> {
    graph_between(node, 0, 1, 2).transitions
}

impl AstNode {
    /// Whether no repetition has a maximum below its minimum, a maximum of zero aside.
    pub fn repeats_are_in_order(&self) -> (r: bool)
        ensures
            r == repeats_in_order(self@),
        decreases self,
    {
        broadcast use vstd::std_specs::vec::axiom_vec_index_decreases;

        match self {
            Self::Root(inner) => {
                assert(self@ == AstModel::Root(Box::new(inner@)));
                inner.repeats_are_in_order()
            },
            Self::Char(_) => true,
            Self::Sequence(items) => {
                let ghost models = models_of(items@);
                assert(self@ == AstModel::Sequence(models));
                let mut i: usize = 0;
                while i < items.len()
                    invariant
                        i <= items.len(),
                        models == models_of(items@),
                        models.len() == items.len(),
                        self@ == AstModel::Sequence(models),
                        self@->Sequence_0 == models,
                        decreases_to!(self => items),
                        forall|j: int| 0 <= j < i ==> repeats_in_order(#[trigger] models[j]),
                    decreases items.len() - i,
                {
                    assert(models[i as int] == items[i as int]@);
                    if !items[i].repeats_are_in_order() {
                        return false;
                    }
                    i += 1;
                }
                true
            },
            Self::Alt(options) => {
                let ghost models = models_of(options@);
                assert(self@ == AstModel::Alt(models));
                let mut i: usize = 0;
                while i < options.len()
                    invariant
                        i <= options.len(),
                        models == models_of(options@),
                        models.len() == options.len(),
                        self@ == AstModel::Alt(models),
                        self@->Alt_0 == models,
                        decreases_to!(self => options),
                        forall|j: int| 0 <= j < i ==> repeats_in_order(#[trigger] models[j]),
                    decreases options.len() - i,
                {
                    assert(models[i as int] == options[i as int]@);
                    if !options[i].repeats_are_in_order() {
                        return false;
                    }
                    i += 1;
                }
                true
            },
            Self::Repeat { min, max, node } => {
                assert(self@ == (AstModel::Repeat {
                    min: *min,
                    max: *max,
                    node: Box::new(node@),
                }));
                if let Some(0) = max {
                    return true;
                }
                let in_order = match (min, max) {
                    (Some(lo), Some(hi)) => *lo <= *hi,
                    _ => true,
                };
                in_order && node.repeats_are_in_order()
            },
        }
    }

    /// Whether the graph of this node can be crossed without consuming a token.
    pub fn is_nullable(&self) -> (r: bool)
        ensures
            r == nullable(self@),
        decreases self,
    {
        broadcast use vstd::std_specs::vec::axiom_vec_index_decreases;

        match self {
            Self::Root(inner) => {
                assert(self@ == AstModel::Root(Box::new(inner@)));
                inner.is_nullable()
            },
            Self::Char(_) => false,
            Self::Sequence(items) => {
                let ghost models = models_of(items@);
                assert(self@ == AstModel::Sequence(models));
                let mut i: usize = 0;
                while i < items.len()
                    invariant
                        i <= items.len(),
                        models == models_of(items@),
                        models.len() == items.len(),
                        self@ == AstModel::Sequence(models),
                        self@->Sequence_0 == models,
                        decreases_to!(self => items),
                        forall|j: int| 0 <= j < i ==> nullable(#[trigger] models[j]),
                    decreases items.len() - i,
                {
                    assert(models[i as int] == items[i as int]@);
                    if !items[i].is_nullable() {
                        return false;
                    }
                    i += 1;
                }
                true
            },
            Self::Alt(options) => {
                let ghost models = models_of(options@);
                assert(self@ == AstModel::Alt(models));
                let mut i: usize = 0;
                while i < options.len()
                    invariant
                        i <= options.len(),
                        models == models_of(options@),
                        models.len() == options.len(),
                        self@ == AstModel::Alt(models),
                        self@->Alt_0 == models,
                        decreases_to!(self => options),
                        forall|j: int| 0 <= j < i ==> !nullable(#[trigger] models[j]),
                    decreases options.len() - i,
                {
                    assert(models[i as int] == options[i as int]@);
                    if options[i].is_nullable() {
                        assert(nullable(models[i as int]));
                        return true;
                    }
                    i += 1;
                }
                false
            },
            Self::Repeat { min, max, node } => {
                assert(self@ == (AstModel::Repeat {
                    min: *min,
                    max: *max,
                    node: Box::new(node@),
                }));
                if let Some(0) = max {
                    return true;
                }
                match min {
                    None => true,
                    Some(0) => true,
                    _ => node.is_nullable(),
                }
            },
        }
    }

    /// Whether every repetition repeats something that consumes a token.
    pub fn is_productive(&self) -> (r: bool)
        ensures
            r == productive(self@),
        decreases self,
    {
        broadcast use vstd::std_specs::vec::axiom_vec_index_decreases;

        match self {
            Self::Root(inner) => {
                assert(self@ == AstModel::Root(Box::new(inner@)));
                inner.is_productive()
            },
            Self::Char(_) => true,
            Self::Sequence(items) => {
                let ghost models = models_of(items@);
                assert(self@ == AstModel::Sequence(models));
                let mut i: usize = 0;
                while i < items.len()
                    invariant
                        i <= items.len(),
                        models == models_of(items@),
                        models.len() == items.len(),
                        self@ == AstModel::Sequence(models),
                        self@->Sequence_0 == models,
                        decreases_to!(self => items),
                        forall|j: int| 0 <= j < i ==> productive(#[trigger] models[j]),
                    decreases items.len() - i,
                {
                    assert(models[i as int] == items[i as int]@);
                    if !items[i].is_productive() {
                        return false;
                    }
                    i += 1;
                }
                true
            },
            Self::Alt(options) => {
                let ghost models = models_of(options@);
                assert(self@ == AstModel::Alt(models));
                let mut i: usize = 0;
                while i < options.len()
                    invariant
                        i <= options.len(),
                        models == models_of(options@),
                        models.len() == options.len(),
                        self@ == AstModel::Alt(models),
                        self@->Alt_0 == models,
                        decreases_to!(self => options),
                        forall|j: int| 0 <= j < i ==> productive(#[trigger] models[j]),
                    decreases options.len() - i,
                {
                    assert(models[i as int] == options[i as int]@);
                    if !options[i].is_productive() {
                        return false;
                    }
                    i += 1;
                }
                true
            },
            Self::Repeat { min, max, node } => {
                assert(self@ == (AstModel::Repeat {
                    min: *min,
                    max: *max,
                    node: Box::new(node@),
                }));
                if let Some(0) = max {
                    return true;
                }
                node.is_productive() && !node.is_nullable()
            },
        }
    }

    /// How many fresh states the graph of this node takes, or `None` where that is
    /// more than any 64-bit number.
    pub fn checked_state_count(&self) -> (r: Option<u64>)
        ensures
            match r {
                Some(n) => n == state_count(self@),
                None => state_count(self@) > u64::MAX,
            },
        decreases self,
    {
        broadcast use vstd::std_specs::vec::axiom_vec_index_decreases;

        match self {
            Self::Root(inner) => {
                assert(self@ == AstModel::Root(Box::new(inner@)));
                inner.checked_state_count()
            },
            Self::Char(_) => Some(0),
            Self::Sequence(items) => {
                let ghost models = models_of(items@);
                assert(self@ == AstModel::Sequence(models));
                let mut total: u64 = 0;
                let mut i: usize = 0;
                while i < items.len()
                    invariant
                        i <= items.len(),
                        models == models_of(items@),
                        models.len() == items.len(),
                        self@ == AstModel::Sequence(models),
                        decreases_to!(self => items),
                        state_count(self@) == total + chain_state_count(models, i as int),
                    decreases items.len() - i,
                {
                    assert(models[i as int] == items[i as int]@);
                    let between: u64 = if i + 1 == items.len() {
                        0
                    } else {
                        1
                    };
                    let part = match items[i].checked_state_count() {
                        Some(n) => n,
                        None => {
                            return None;
                        },
                    };
                    let with_part = match total.checked_add(part) {
                        Some(n) => n,
                        None => {
                            return None;
                        },
                    };
                    total = match with_part.checked_add(between) {
                        Some(n) => n,
                        None => {
                            return None;
                        },
                    };
                    i += 1;
                }
                Some(total)
            },
            Self::Alt(options) => {
                let ghost models = models_of(options@);
                assert(self@ == AstModel::Alt(models));
                let mut total: u64 = 0;
                let mut i: usize = 0;
                while i < options.len()
                    invariant
                        i <= options.len(),
                        models == models_of(options@),
                        models.len() == options.len(),
                        self@ == AstModel::Alt(models),
                        decreases_to!(self => options),
                        state_count(self@) == total + options_state_count(models, i as int),
                    decreases options.len() - i,
                {
                    assert(models[i as int] == options[i as int]@);
                    let part = match options[i].checked_state_count() {
                        Some(n) => n,
                        None => {
                            return None;
                        },
                    };
                    total = match total.checked_add(part) {
                        Some(n) => n,
                        None => {
                            return None;
                        },
                    };
                    i += 1;
                }
                Some(total)
            },
            Self::Repeat { min, max, node } => {
                assert(self@ == (AstModel::Repeat {
                    min: *min,
                    max: *max,
                    node: Box::new(node@),
                }));
                if let Some(0) = max {
                    return Some(0);
                }
                let min_v: usize = match min {
                    Some(v) => *v,
                    None => 0,
                };
                let in_order = match max {
                    Some(v) => *v >= min_v,
                    None => true,
                };
                let copies: usize = if in_order && min_v > 1 {
                    min_v - 1
                } else {
                    0
                };
                assert(copies == required_copies(*min, *max));
                let ghost inner = state_count(node@);
                assert(copies * (inner + 1) >= 0) by (nonlinear_arith);
                let part = match node.checked_state_count() {
                    Some(n) => n,
                    None => {
                        return None;
                    },
                };
                let per_copy = match part.checked_add(1) {
                    Some(n) => n,
                    None => {
                        return None;
                    },
                };
                let unrolled = match (copies as u64).checked_mul(per_copy) {
                    Some(n) => n,
                    None => {
                        return None;
                    },
                };
                let with_loop = match unrolled.checked_add(part) {
                    Some(n) => n,
                    None => {
                        return None;
                    },
                };
                with_loop.checked_add(2)
            },
        }
    }

    /// Whether this pattern can be compiled and searched for.
    pub fn is_searchable(&self) -> (r: bool)
        ensures
            r == searchable(self@),
    {
        if !self.repeats_are_in_order() {
            return false;
        }
        let fits = match self.checked_state_count() {
            Some(n) => n <= u64::MAX - 2,
            None => false,
        };
        fits && self.is_productive()
    }
}

/// Compiles a pattern and searches a stream for a run of tokens that it matches; `None`
/// where the pattern is not searchable.
pub fn try_match(ast: &AstNode, chars: &[Token]) -> (r: Option<bool>)
    ensures
        r is Some <==> searchable(ast@),
        r matches Some(found) ==> found == exists|offset: int|
            0 <= offset < chars@.len() && matches_at(graph_of_pattern(ast@), chars@, offset),
{
    if !ast.is_searchable() {
        return None;
    }
    let mut next: u64 = 2;
    let evaluator = Evaluator::new(ast.generate(&mut next, 0, 1));
    proof {
        lemma_productive_graph_halts(ast@, 0, 1, 2, chars@);
        assert(evaluator.graph() == graph_of_pattern(ast@));
    }
    let found = evaluator.is_match(chars);
    Some(found)
}

} // verus!
