//! Graphs whose states are renamed: the graph of a node between other states, and the
//! walks through a renamed graph.
use vstd::prelude::*;
use crate::ast::{
    AstModel,
    chain_between,
    chain_state_count,
    graph_between,
    lemma_chain_next,
    lemma_graph_next,
    lemma_options_next,
    lemma_unrolled_next,
    options_between,
    options_state_count,
    required_copies,
    state_count,
    unrolled_between,
};
use crate::shape::{
    edges_within_from_two,
    lemma_chain_within,
    lemma_graph_within,
    lemma_options_within,
    lemma_unrolled_within,
};
use crate::token::Token;
use crate::transition::TransitionModel;
use crate::walks::{Place, place_behind, walks_to};

verus! {

/// The edge `t` with its two states renamed.
pub open spec fn renamed(t: TransitionModel, name: spec_fn(u64) -> u64) -> TransitionModel {
    TransitionModel { from_state: name(t.from_state), to_state: name(t.to_state), ..t }
}

/// The graph with every state renamed.
pub open spec fn renamed_graph(graph: Seq<TransitionModel>, name: spec_fn(u64) -> u64) -> Seq<
    TransitionModel,
> {
    Seq::new(graph.len(), |i: int| renamed(graph[i], name))
}

/// The renaming that moves a piece of graph: its start state, its end state, and its
/// fresh states, which are numbered from `next`, become the start state, the end state
/// and the fresh states, numbered from `next2`, of the piece where it is moved to.
pub open spec fn moved(start: u64, end: u64, next: int, start2: u64, end2: u64, next2: int)
    -> spec_fn(u64) -> u64 {
    |state: u64|
        if state == start {
            start2
        } else if state == end {
            end2
        } else {
            (state - next + next2) as u64
        }
}

/// Renaming two lists of edges one behind the other.
pub proof fn lemma_renamed_add(
    a: Seq<TransitionModel>,
    b: Seq<TransitionModel>,
    name: spec_fn(u64) -> u64,
)
    ensures
        renamed_graph(a + b, name) == renamed_graph(a, name) + renamed_graph(b, name),
{
    assert(renamed_graph(a + b, name) =~= renamed_graph(a, name) + renamed_graph(b, name));
}

/// Two renamings that say the same of the states of some edges rename these edges alike.
pub proof fn lemma_renamed_same(
    edges: Seq<TransitionModel>,
    first: u64,
    second: u64,
    low: int,
    high: int,
    one: spec_fn(u64) -> u64,
    other: spec_fn(u64) -> u64,
)
    requires
        edges_within_from_two(edges, first, second, low, high),
        one(first) == other(first),
        one(second) == other(second),
        forall|state: u64| low <= state < high ==> #[trigger] one(state) == other(state),
    ensures
        renamed_graph(edges, one) == renamed_graph(edges, other),
{
    assert forall|i: int| 0 <= i < edges.len() implies renamed(edges[i], one) == renamed(
        edges[i],
        other,
    ) by {
        assert(one(edges[i].from_state) == other(edges[i].from_state));
        assert(one(edges[i].to_state) == other(edges[i].to_state));
    }
    assert(renamed_graph(edges, one) =~= renamed_graph(edges, other));
}

/// The graph of a node between other states, its fresh states numbered from another
/// number, is the same graph with its states renamed.
pub proof fn lemma_graph_moves(
    node: AstModel,
    start: u64,
    end: u64,
    next: int,
    start2: u64,
    end2: u64,
    next2: int,
)
    requires
        start < next,
        end < next,
        start != end,
        0 <= next2,
        next + state_count(node) <= u64::MAX,
        next2 + state_count(node) <= u64::MAX,
    ensures
        graph_between(node, start2, end2, next2).transitions == renamed_graph(
            graph_between(node, start, end, next).transitions,
            moved(start, end, next, start2, end2, next2),
        ),
    decreases node, 0nat,
{
    let name = moved(start, end, next, start2, end2, next2);
    let edges = graph_between(node, start, end, next).transitions;
    let edges2 = graph_between(node, start2, end2, next2).transitions;
    match node {
        AstModel::Root(inner) => {
            lemma_graph_moves(*inner, start, end, next, start2, end2, next2);
        },
        AstModel::Sequence(items) => {
            if items.len() > 0 {
                lemma_chain_moves(items, 0, start, end, next, start2, end2, next2);
            } else {
                assert(edges2 =~= renamed_graph(edges, name));
            }
        },
        AstModel::Alt { options, id } => {
            let inner_start = next as u64;
            let inner_end = (next + 1) as u64;
            let inner_start2 = next2 as u64;
            let inner_end2 = (next2 + 1) as u64;
            let inner = options_between(options, 0, inner_start, inner_end, next + 2);
            let inner2 = options_between(options, 0, inner_start2, inner_end2, next2 + 2);
            lemma_options_moves(
                options,
                0,
                inner_start,
                inner_end,
                next + 2,
                inner_start2,
                inner_end2,
                next2 + 2,
            );
            lemma_options_within(options, 0, inner_start, inner_end, next + 2);
            lemma_options_next(options, 0, inner_start, inner_end, next + 2);
            lemma_renamed_same(
                inner.transitions,
                inner_start,
                inner_end,
                next + 2,
                next + state_count(node),
                moved(inner_start, inner_end, next + 2, inner_start2, inner_end2, next2 + 2),
                name,
            );
            assert(edges2 =~= renamed_graph(edges, name));
        },
        AstModel::Repeat { min, max, node: child } => {
            if max != Some(0u64) {
                let count = required_copies(min, max);
                let inner_start = next as u64;
                let inner_end = (next + 1) as u64;
                let inner_start2 = next2 as u64;
                let inner_end2 = (next2 + 1) as u64;
                assert(count * (state_count(*child) + 1) >= 0) by (nonlinear_arith);
                let body_next = next + 2 + count * (state_count(*child) + 1);
                let body_next2 = next2 + 2 + count * (state_count(*child) + 1);
                let copies = unrolled_between(*child, count, inner_start, inner_end, next + 2);
                let copies2 = unrolled_between(*child, count, inner_start2, inner_end2, next2 + 2);
                lemma_unrolled_next(*child, count, inner_start, inner_end, next + 2);
                lemma_unrolled_next(*child, count, inner_start2, inner_end2, next2 + 2);
                lemma_unrolled_within(*child, count, inner_start, inner_end, next + 2);
                lemma_unrolled_moves(
                    *child,
                    count,
                    inner_start,
                    inner_end,
                    next + 2,
                    inner_start2,
                    inner_end2,
                    next2 + 2,
                );
                let copies_name = moved(
                    inner_start,
                    inner_end,
                    next + 2,
                    inner_start2,
                    inner_end2,
                    next2 + 2,
                );
                lemma_renamed_same(
                    copies.transitions,
                    inner_start,
                    inner_end,
                    next + 2,
                    body_next,
                    copies_name,
                    name,
                );
                let body = graph_between(*child, copies.inner_start, copies.inner_end, copies.next);
                let body2 = graph_between(
                    *child,
                    copies2.inner_start,
                    copies2.inner_end,
                    copies2.next,
                );
                lemma_graph_moves(
                    *child,
                    copies.inner_start,
                    copies.inner_end,
                    copies.next,
                    copies2.inner_start,
                    copies2.inner_end,
                    copies2.next,
                );
                lemma_graph_within(*child, copies.inner_start, copies.inner_end, copies.next);
                lemma_graph_next(*child, copies.inner_start, copies.inner_end, copies.next);
                assert(name(copies.inner_start) == copies2.inner_start);
                assert(name(copies.inner_end) == copies2.inner_end);
                lemma_renamed_same(
                    body.transitions,
                    copies.inner_start,
                    copies.inner_end,
                    body_next,
                    next + state_count(node),
                    moved(
                        copies.inner_start,
                        copies.inner_end,
                        copies.next,
                        copies2.inner_start,
                        copies2.inner_end,
                        copies2.next,
                    ),
                    name,
                );
                assert(edges2 =~= renamed_graph(edges, name));
            } else {
                assert(edges2 =~= renamed_graph(edges, name));
            }
        },
        _ => {
            assert(edges2 =~= renamed_graph(edges, name));
        },
    }
}

/// The same for a chain.
pub proof fn lemma_chain_moves(
    items: Seq<AstModel>,
    i: int,
    from: u64,
    end: u64,
    next: int,
    from2: u64,
    end2: u64,
    next2: int,
)
    requires
        0 <= i,
        from < next,
        end < next,
        from != end,
        0 <= next2,
        next + chain_state_count(items, i) <= u64::MAX,
        next2 + chain_state_count(items, i) <= u64::MAX,
    ensures
        chain_between(items, i, from2, end2, next2).transitions == renamed_graph(
            chain_between(items, i, from, end, next).transitions,
            moved(from, end, next, from2, end2, next2),
        ),
    decreases items, items.len() - i,
{
    let name = moved(from, end, next, from2, end2, next2);
    let edges = chain_between(items, i, from, end, next).transitions;
    let edges2 = chain_between(items, i, from2, end2, next2).transitions;
    if i < items.len() {
        let last = i + 1 == items.len();
        let to = if last {
            end
        } else {
            next as u64
        };
        let to2 = if last {
            end2
        } else {
            next2 as u64
        };
        let next1 = if last {
            next
        } else {
            next + 1
        };
        let next12 = if last {
            next2
        } else {
            next2 + 1
        };
        let first = graph_between(items[i], from, to, next1);
        let first2 = graph_between(items[i], from2, to2, next12);
        lemma_graph_moves(items[i], from, to, next1, from2, to2, next12);
        lemma_graph_within(items[i], from, to, next1);
        lemma_graph_next(items[i], from, to, next1);
        lemma_graph_next(items[i], from2, to2, next12);
        lemma_renamed_same(
            first.transitions,
            from,
            to,
            next1,
            first.next,
            moved(from, to, next1, from2, to2, next12),
            name,
        );
        let rest = chain_between(items, i + 1, to, end, first.next);
        let rest2 = chain_between(items, i + 1, to2, end2, first2.next);
        if !last {
            lemma_chain_moves(items, i + 1, to, end, first.next, to2, end2, first2.next);
            lemma_chain_within(items, i + 1, to, end, first.next);
            lemma_chain_next(items, i + 1, to, end, first.next);
            lemma_renamed_same(
                rest.transitions,
                to,
                end,
                first.next,
                rest.next,
                moved(to, end, first.next, to2, end2, first2.next),
                name,
            );
        }
        lemma_renamed_add(first.transitions, rest.transitions, name);
        assert(edges2 =~= renamed_graph(edges, name));
    } else {
        assert(edges2 =~= renamed_graph(edges, name));
    }
}

/// The same for a list of options.
pub proof fn lemma_options_moves(
    options: Seq<AstModel>,
    i: int,
    start: u64,
    end: u64,
    next: int,
    start2: u64,
    end2: u64,
    next2: int,
)
    requires
        0 <= i,
        start < next,
        end < next,
        start != end,
        0 <= next2,
        next + options_state_count(options, i) <= u64::MAX,
        next2 + options_state_count(options, i) <= u64::MAX,
    ensures
        options_between(options, i, start2, end2, next2).transitions == renamed_graph(
            options_between(options, i, start, end, next).transitions,
            moved(start, end, next, start2, end2, next2),
        ),
    decreases options, options.len() - i,
{
    let name = moved(start, end, next, start2, end2, next2);
    let edges = options_between(options, i, start, end, next).transitions;
    let edges2 = options_between(options, i, start2, end2, next2).transitions;
    if i < options.len() {
        let first = graph_between(options[i], start, end, next);
        let first2 = graph_between(options[i], start2, end2, next2);
        lemma_graph_moves(options[i], start, end, next, start2, end2, next2);
        lemma_graph_next(options[i], start, end, next);
        lemma_graph_next(options[i], start2, end2, next2);
        let rest = options_between(options, i + 1, start, end, first.next);
        lemma_options_moves(options, i + 1, start, end, first.next, start2, end2, first2.next);
        lemma_options_within(options, i + 1, start, end, first.next);
        lemma_options_next(options, i + 1, start, end, first.next);
        lemma_renamed_same(
            rest.transitions,
            start,
            end,
            first.next,
            rest.next,
            moved(start, end, first.next, start2, end2, first2.next),
            name,
        );
        lemma_renamed_add(first.transitions, rest.transitions, name);
        assert(edges2 =~= renamed_graph(edges, name));
    } else {
        assert(edges2 =~= renamed_graph(edges, name));
    }
}

/// The same for unrolled copies; the two states that the loop body stands between
/// behind them are renamed alike.
pub proof fn lemma_unrolled_moves(
    node: AstModel,
    count: nat,
    inner_start: u64,
    inner_end: u64,
    next: int,
    inner_start2: u64,
    inner_end2: u64,
    next2: int,
)
    requires
        inner_start < next,
        inner_end < next,
        inner_start != inner_end,
        0 <= next2,
        next + count * (state_count(node) + 1) <= u64::MAX,
        next2 + count * (state_count(node) + 1) <= u64::MAX,
    ensures
        ({
            let copies = unrolled_between(node, count, inner_start, inner_end, next);
            let copies2 = unrolled_between(node, count, inner_start2, inner_end2, next2);
            let name = moved(inner_start, inner_end, next, inner_start2, inner_end2, next2);
            &&& copies2.transitions == renamed_graph(copies.transitions, name)
            &&& copies2.inner_start == name(copies.inner_start)
            &&& copies2.inner_end == name(copies.inner_end)
            &&& copies.inner_start != copies.inner_end
            &&& copies.inner_start < copies.next
            &&& copies.inner_end < copies.next
        }),
    decreases node, count + 1,
{
    let name = moved(inner_start, inner_end, next, inner_start2, inner_end2, next2);
    let copies = unrolled_between(node, count, inner_start, inner_end, next);
    let copies2 = unrolled_between(node, count, inner_start2, inner_end2, next2);
    if count > 0 {
        assert(count * (state_count(node) + 1) == (count - 1) * (state_count(node) + 1) + (
        state_count(node) + 1)) by (nonlinear_arith);
        assert((count - 1) * (state_count(node) + 1) >= 0) by (nonlinear_arith)
            requires
                count >= 1,
        ;
        let first = graph_between(node, inner_start, inner_end, next);
        let first2 = graph_between(node, inner_start2, inner_end2, next2);
        lemma_graph_moves(node, inner_start, inner_end, next, inner_start2, inner_end2, next2);
        lemma_graph_next(node, inner_start, inner_end, next);
        lemma_graph_next(node, inner_start2, inner_end2, next2);
        let fresh = first.next as u64;
        let fresh2 = first2.next as u64;
        let rest = unrolled_between(node, (count - 1) as nat, inner_end, fresh, first.next + 1);
        lemma_unrolled_moves(
            node,
            (count - 1) as nat,
            inner_end,
            fresh,
            first.next + 1,
            inner_end2,
            fresh2,
            first2.next + 1,
        );
        lemma_unrolled_within(node, (count - 1) as nat, inner_end, fresh, first.next + 1);
        lemma_unrolled_next(node, (count - 1) as nat, inner_end, fresh, first.next + 1);
        let rest_name = moved(inner_end, fresh, first.next + 1, inner_end2, fresh2, first2.next + 1);
        assert(rest_name(fresh) == name(fresh));
        assert(rest_name(inner_end) == name(inner_end));
        lemma_renamed_same(
            rest.transitions,
            inner_end,
            fresh,
            first.next + 1,
            rest.next,
            rest_name,
            name,
        );
        lemma_renamed_add(first.transitions, rest.transitions, name);
        assert(copies2.transitions =~= renamed_graph(copies.transitions, name));
        assert(rest_name(rest.inner_start) == name(rest.inner_start));
        assert(rest_name(rest.inner_end) == name(rest.inner_end));
    } else {
        assert(copies2.transitions =~= renamed_graph(copies.transitions, name));
    }
}

/// Whether all states of the edges are among the known ones.
pub open spec fn states_known(edges: Seq<TransitionModel>, known: spec_fn(u64) -> bool) -> bool {
    forall|i: int|
        0 <= i < edges.len() ==> known((#[trigger] edges[i]).from_state) && known(
            edges[i].to_state,
        )
}

/// Whether the renaming gives no two known states the same name.
pub open spec fn names_apart(name: spec_fn(u64) -> u64, known: spec_fn(u64) -> bool) -> bool {
    forall|a: u64, b: u64| known(a) && known(b) && #[trigger] name(a) == #[trigger] name(b) ==> a == b
}

/// The place with its state renamed.
pub open spec fn renamed_place(place: Place, name: spec_fn(u64) -> u64) -> Place {
    Place { state: name(place.state), ..place }
}

/// A renaming that keeps the known states apart keeps the walks: a walk leads from a
/// place to a state in a graph exactly where one leads from the renamed place to the
/// renamed state in the renamed graph.
pub proof fn lemma_walks_renamed(
    graph: Seq<TransitionModel>,
    tokens: Seq<Token>,
    name: spec_fn(u64) -> u64,
    known: spec_fn(u64) -> bool,
    place: Place,
    target: u64,
    end: int,
    steps: nat,
)
    requires
        states_known(graph, known),
        names_apart(name, known),
        known(place.state),
        known(target),
    ensures
        walks_to(graph, tokens, place, target, end, steps) == walks_to(
            renamed_graph(graph, name),
            tokens,
            renamed_place(place, name),
            name(target),
            end,
            steps,
        ),
    decreases steps,
{
    let graph2 = renamed_graph(graph, name);
    let place2 = renamed_place(place, name);
    if steps > 0 {
        assert forall|i: int| 0 <= i < graph.len() implies (graph[i].from_state == place.state
            <==> (#[trigger] graph2[i]).from_state == place2.state) && place_behind(
            tokens,
            place2,
            graph2[i],
        ) == (match place_behind(tokens, place, graph[i]) {
            Some(behind) => Some(renamed_place(behind, name)),
            None => None,
        }) by {
            assert(known(graph[i].from_state));
        }
        assert forall|i: int| 0 <= i < graph.len() && place_behind(
            tokens,
            place,
            #[trigger] graph[i],
        ) is Some implies walks_to(
            graph,
            tokens,
            place_behind(tokens, place, graph[i])->0,
            target,
            end,
            (steps - 1) as nat,
        ) == walks_to(
            graph2,
            tokens,
            renamed_place(place_behind(tokens, place, graph[i])->0, name),
            name(target),
            end,
            (steps - 1) as nat,
        ) by {
            assert(known(graph[i].to_state));
            lemma_walks_renamed(
                graph,
                tokens,
                name,
                known,
                place_behind(tokens, place, graph[i])->0,
                target,
                end,
                (steps - 1) as nat,
            );
        }
        if walks_to(graph, tokens, place, target, end, steps) && !(place.state == target
            && place.pos == end) {
            let i = choose|i: int|
                0 <= i < graph.len() && (#[trigger] graph[i]).from_state == place.state
                    && place_behind(tokens, place, graph[i]) is Some && walks_to(
                    graph,
                    tokens,
                    place_behind(tokens, place, graph[i])->0,
                    target,
                    end,
                    (steps - 1) as nat,
                );
            assert(graph2[i].from_state == place2.state);
        }
        if walks_to(graph2, tokens, place2, name(target), end, steps) && !(place2.state == name(
            target,
        ) && place2.pos == end) {
            let i = choose|i: int|
                0 <= i < graph2.len() && (#[trigger] graph2[i]).from_state == place2.state
                    && place_behind(tokens, place2, graph2[i]) is Some && walks_to(
                    graph2,
                    tokens,
                    place_behind(tokens, place2, graph2[i])->0,
                    name(target),
                    end,
                    (steps - 1) as nat,
                );
            assert(graph[i].from_state == place.state);
            assert(place_behind(tokens, place, graph[i]) is Some);
        }
    }
}

} // verus!
