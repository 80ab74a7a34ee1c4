//! What is known of the texts of the groups in each state of the graph of a pattern:
//! which groups may hold an empty text, and so which backreferences may consume nothing.
use vstd::prelude::*;
use crate::ast::{
    AstModel,
    chain_between,
    chain_state_count,
    graph_between,
    graph_of_pattern,
    lemma_chain_next,
    lemma_graph_next,
    lemma_options_next,
    lemma_unrolled_next,
    options_between,
    options_state_count,
    required_copies,
    state_count,
    unrolled_between,
};
use crate::common::{END_STATE, START_STATE};
use crate::groups::{
    chain_groups_around,
    groups_around,
    groups_nest,
    lemma_unrolled_keeps_groups,
    options_groups_around,
    pattern_groups,
    unrolled_groups_around,
};
use crate::progress::{Texts, edge_keeps_texts, may_be_empty, texts_kept};
use crate::shape::{
    edges_within_from_two,
    lemma_chain_within,
    lemma_graph_within,
    lemma_options_within,
    lemma_unrolled_within,
};
use crate::transition::TransitionModel;

verus! {

/// Whether the graph of `node` may be crossed without consuming a character: anchors
/// consume none, and a backreference is taken to consume none.
pub open spec fn hollow(node: AstModel) -> bool
    decreases node,
{
    match node {
        AstModel::Root(inner) => hollow(*inner),
        AstModel::Sequence(items) => forall|i: int|
            0 <= i < items.len() ==> hollow(#[trigger] items[i]),
        AstModel::Alt { options, id } => exists|i: int|
            0 <= i < options.len() && hollow(#[trigger] options[i]),
        AstModel::Repeat { min, max, node } => max == Some(0u64) || min is None || min == Some(
            0u64,
        ) || hollow(*node),
        AstModel::Char(_) => false,
        AstModel::AnyChar => false,
        AstModel::CharGroup { is_negated, chars } => false,
        _ => true,
    }
}

/// The ids of the groups of `node` that may be crossed without consuming a character,
/// and so may be left with an empty text.
pub open spec fn hollow_groups(node: AstModel) -> Seq<u64>
    decreases node, 0nat,
{
    match node {
        AstModel::Root(inner) => hollow_groups(*inner),
        AstModel::Sequence(items) => hollow_groups_all(items, 0),
        AstModel::Alt { options, id } => if hollow(node) {
            seq![id] + hollow_groups_all(options, 0)
        } else {
            hollow_groups_all(options, 0)
        },
        AstModel::Repeat { min, max, node } => hollow_groups(*node),
        _ => Seq::empty(),
    }
}

/// The ids of the hollow groups of `nodes[i..]`.
pub open spec fn hollow_groups_all(nodes: Seq<AstModel>, i: int) -> Seq<u64>
    decreases nodes, nodes.len() - i,
{
    if 0 <= i < nodes.len() {
        hollow_groups(nodes[i]) + hollow_groups_all(nodes, i + 1)
    } else {
        Seq::empty()
    }
}

/// What is known behind an edge that consumes a character: every open group is filled.
pub open spec fn filled(texts: Texts) -> Texts {
    Texts { weak: texts.weak, unfilled: 0 }
}

/// What is known behind the edge on which a group is entered: one more group is
/// unfilled.
pub open spec fn entered(texts: Texts) -> Texts {
    Texts { weak: texts.weak, unfilled: texts.unfilled + 1 }
}

/// What is known behind the edge on which the group `id` is left: where it is unfilled,
/// it is weak from there on.
pub open spec fn left(texts: Texts, id: u64) -> Texts {
    if texts.unfilled > 0 {
        Texts { weak: texts.weak.push(id), unfilled: (texts.unfilled - 1) as nat }
    } else {
        texts
    }
}

/// What is known where two ways meet.
pub open spec fn joined(one: Texts, other: Texts) -> Texts {
    Texts {
        weak: one.weak + other.weak,
        unfilled: if one.unfilled >= other.unfilled {
            one.unfilled
        } else {
            other.unfilled
        },
    }
}

/// What is known in the states of the loop of a repetition of `node`: every hollow
/// group of `node` may have been left empty on an earlier lap.
pub open spec fn looped(node: AstModel, texts: Texts) -> Texts {
    Texts { weak: texts.weak + hollow_groups(node), unfilled: texts.unfilled }
}

/// Whether `one` claims no more than `other`: what may be empty by `other` may be empty
/// by `one`.
pub open spec fn covers(one: Texts, other: Texts) -> bool {
    &&& within(other.weak, one.weak)
    &&& one.unfilled >= other.unfilled
}

/// What is known behind the graph of `node`, which stands inside the groups `open`,
/// where `texts` is known in front of it.
pub open spec fn texts_behind(node: AstModel, open: Seq<u64>, texts: Texts) -> Texts
    decreases node, 0nat,
{
    match node {
        AstModel::Root(inner) => texts_behind(*inner, open, texts),
        AstModel::Sequence(items) => chain_texts_behind(items, 0, open, texts),
        AstModel::Alt { options, id } => left(
            options_texts_behind(options, 0, open.push(id), entered(texts)),
            id,
        ),
        AstModel::Repeat { min, max, node } => if max == Some(0u64) {
            texts
        } else {
            let out = texts_behind(*node, open, looped(*node, texts));
            if min is None || min == Some(0u64) {
                Texts { weak: out.weak, unfilled: texts.unfilled }
            } else {
                out
            }
        },
        AstModel::Char(_) => filled(texts),
        AstModel::AnyChar => filled(texts),
        AstModel::CharGroup { is_negated, chars } => filled(texts),
        AstModel::CaptureRef(id) => if may_be_empty(texts, open, id) {
            texts
        } else {
            filled(texts)
        },
        AstModel::Start => texts,
        AstModel::End => texts,
    }
}

/// What is known behind the chain of `items[i..]`.
pub open spec fn chain_texts_behind(items: Seq<AstModel>, i: int, open: Seq<u64>, texts: Texts)
    -> Texts
    decreases items, items.len() - i,
{
    if 0 <= i < items.len() {
        chain_texts_behind(items, i + 1, open, texts_behind(items[i], open, texts))
    } else {
        texts
    }
}

/// What is known behind the graphs of `options[i..]`, which all start in one state and
/// end in one state.
pub open spec fn options_texts_behind(
    options: Seq<AstModel>,
    i: int,
    open: Seq<u64>,
    texts: Texts,
) -> Texts
    decreases options, options.len() - i,
{
    if 0 <= i < options.len() {
        joined(
            texts_behind(options[i], open, texts),
            options_texts_behind(options, i + 1, open, texts),
        )
    } else {
        filled(texts)
    }
}

/// The groups that the backreferences of `node` ask for where their text may be empty.
pub open spec fn loose_refs(node: AstModel, open: Seq<u64>, texts: Texts) -> Seq<u64>
    decreases node, 0nat,
{
    match node {
        AstModel::Root(inner) => loose_refs(*inner, open, texts),
        AstModel::Sequence(items) => chain_loose_refs(items, 0, open, texts),
        AstModel::Alt { options, id } => options_loose_refs(
            options,
            0,
            open.push(id),
            entered(texts),
        ),
        AstModel::Repeat { min, max, node } => if max == Some(0u64) {
            Seq::empty()
        } else {
            loose_refs(*node, open, looped(*node, texts))
        },
        AstModel::CaptureRef(id) => if may_be_empty(texts, open, id) {
            seq![id]
        } else {
            Seq::empty()
        },
        _ => Seq::empty(),
    }
}

/// The same for the chain of `items[i..]`.
pub open spec fn chain_loose_refs(items: Seq<AstModel>, i: int, open: Seq<u64>, texts: Texts)
    -> Seq<u64>
    decreases items, items.len() - i,
{
    if 0 <= i < items.len() {
        loose_refs(items[i], open, texts) + chain_loose_refs(
            items,
            i + 1,
            open,
            texts_behind(items[i], open, texts),
        )
    } else {
        Seq::empty()
    }
}

/// The same for the graphs of `options[i..]`.
pub open spec fn options_loose_refs(options: Seq<AstModel>, i: int, open: Seq<u64>, texts: Texts)
    -> Seq<u64>
    decreases options, options.len() - i,
{
    if 0 <= i < options.len() {
        loose_refs(options[i], open, texts) + options_loose_refs(options, i + 1, open, texts)
    } else {
        Seq::empty()
    }
}

/// What is known in the fresh state `state` of the graph of `node`, whose fresh states
/// are numbered from `next`.
pub open spec fn texts_at(node: AstModel, next: int, open: Seq<u64>, texts: Texts, state: int)
    -> Texts
    decreases node, 0nat,
{
    match node {
        AstModel::Root(inner) => texts_at(*inner, next, open, texts, state),
        AstModel::Sequence(items) => chain_texts_at(items, 0, next, open, texts, state),
        AstModel::Alt { options, id } => if state == next {
            entered(texts)
        } else if state == next + 1 {
            options_texts_behind(options, 0, open.push(id), entered(texts))
        } else {
            options_texts_at(options, 0, next + 2, open.push(id), entered(texts), state)
        },
        AstModel::Repeat { min, max, node } => {
            let count = required_copies(min, max);
            let body = next + 2 + count * (state_count(*node) + 1);
            let base = looped(*node, texts);
            if max == Some(0u64) {
                texts
            } else if state == next {
                base
            } else if state == next + 1 {
                if count == 0 {
                    texts_behind(*node, open, base)
                } else {
                    base
                }
            } else if state < body {
                unrolled_texts_at(*node, count, next + 2, open, base, state)
            } else {
                texts_at(*node, body, open, base, state)
            }
        },
        _ => texts,
    }
}

/// What is known in a fresh state of the chain of `items[i..]`.
pub open spec fn chain_texts_at(
    items: Seq<AstModel>,
    i: int,
    next: int,
    open: Seq<u64>,
    texts: Texts,
    state: int,
) -> Texts
    decreases items, items.len() - i,
{
    if 0 <= i < items.len() {
        let last = i + 1 == items.len();
        let first = if last {
            next
        } else {
            next + 1
        };
        if !last && state == next {
            texts_behind(items[i], open, texts)
        } else if state < first + state_count(items[i]) {
            texts_at(items[i], first, open, texts, state)
        } else {
            chain_texts_at(
                items,
                i + 1,
                first + state_count(items[i]),
                open,
                texts_behind(items[i], open, texts),
                state,
            )
        }
    } else {
        texts
    }
}

/// What is known in a fresh state of the graphs of `options[i..]`.
pub open spec fn options_texts_at(
    options: Seq<AstModel>,
    i: int,
    next: int,
    open: Seq<u64>,
    texts: Texts,
    state: int,
) -> Texts
    decreases options, options.len() - i,
{
    if 0 <= i < options.len() {
        if state < next + state_count(options[i]) {
            texts_at(options[i], next, open, texts, state)
        } else {
            options_texts_at(options, i + 1, next + state_count(options[i]), open, texts, state)
        }
    } else {
        texts
    }
}

/// What is known in a fresh state of `count` unrolled copies of `node` in front of its
/// loop, where `base` is known in the states of the loop.
pub open spec fn unrolled_texts_at(
    node: AstModel,
    count: nat,
    next: int,
    open: Seq<u64>,
    base: Texts,
    state: int,
) -> Texts
    decreases node, count + 1,
{
    if count == 0 {
        base
    } else if state == next + state_count(node) {
        if count == 1 {
            texts_behind(node, open, base)
        } else {
            base
        }
    } else if state < next + state_count(node) {
        texts_at(node, next, open, base, state)
    } else {
        unrolled_texts_at(node, (count - 1) as nat, next + state_count(node) + 1, open, base, state)
    }
}

/// What is known in each state of the graph of `node` between `start` and `end`:
/// `texts` in front, `behind` behind, and in the fresh states what `texts_at` says.
pub open spec fn texts_around(
    node: AstModel,
    start: u64,
    end: u64,
    next: int,
    open: Seq<u64>,
    texts: Texts,
    behind: Texts,
) -> spec_fn(u64) -> Texts {
    |state: u64|
        if state == start {
            texts
        } else if state == end {
            behind
        } else {
            texts_at(node, next, open, texts, state as int)
        }
}

/// The same for the chain of `items[i..]`.
pub open spec fn chain_texts_around(
    items: Seq<AstModel>,
    i: int,
    start: u64,
    end: u64,
    next: int,
    open: Seq<u64>,
    texts: Texts,
    behind: Texts,
) -> spec_fn(u64) -> Texts {
    |state: u64|
        if state == start {
            texts
        } else if state == end {
            behind
        } else {
            chain_texts_at(items, i, next, open, texts, state as int)
        }
}

/// The same for the graphs of `options[i..]`.
pub open spec fn options_texts_around(
    options: Seq<AstModel>,
    i: int,
    start: u64,
    end: u64,
    next: int,
    open: Seq<u64>,
    texts: Texts,
    behind: Texts,
) -> spec_fn(u64) -> Texts {
    |state: u64|
        if state == start {
            texts
        } else if state == end {
            behind
        } else {
            options_texts_at(options, i, next, open, texts, state as int)
        }
}

/// The same for unrolled copies: `base` in front, and behind the first copy `base`
/// again; without a copy, the second state is the one that the loop is left from.
pub open spec fn unrolled_texts_around(
    node: AstModel,
    count: nat,
    start: u64,
    end: u64,
    next: int,
    open: Seq<u64>,
    base: Texts,
) -> spec_fn(u64) -> Texts {
    |state: u64|
        if state == start {
            base
        } else if state == end {
            if count == 0 {
                texts_behind(node, open, base)
            } else {
                base
            }
        } else {
            unrolled_texts_at(node, count, next, open, base, state as int)
        }
}

/// Whether the edge `t` agrees with what `texts` knows, and asks for the text of a group
/// that may be empty only where `loose` holds the group.
pub open spec fn edge_known(
    t: TransitionModel,
    groups: spec_fn(u64) -> Seq<u64>,
    texts: spec_fn(u64) -> Texts,
    loose: Seq<u64>,
) -> bool {
    &&& edge_keeps_texts(t, groups, texts)
    &&& t.cond is CaptureRef && may_be_empty(
        texts(t.from_state),
        groups(t.from_state),
        t.cond->CaptureRef_0,
    ) ==> loose.contains(t.cond->CaptureRef_0)
}

/// Whether every edge is known.
pub open spec fn edges_known(
    edges: Seq<TransitionModel>,
    groups: spec_fn(u64) -> Seq<u64>,
    texts: spec_fn(u64) -> Texts,
    loose: Seq<u64>,
) -> bool {
    forall|i: int| 0 <= i < edges.len() ==> edge_known(#[trigger] edges[i], groups, texts, loose)
}

/// Whether every id of `one` is in `other`.
pub open spec fn within(one: Seq<u64>, other: Seq<u64>) -> bool {
    forall|id: u64|
        #![trigger one.contains(id)]
        #![trigger other.contains(id)]
        one.contains(id) ==> other.contains(id)
}

/// A list made of two holds what one of the two holds.
pub proof fn lemma_contains_add(one: Seq<u64>, other: Seq<u64>)
    ensures
        forall|id: u64|
            #[trigger] (one + other).contains(id) <==> one.contains(id) || other.contains(id),
{
    assert forall|id: u64|
        #[trigger] (one + other).contains(id) <==> one.contains(id) || other.contains(id) by {
        if (one + other).contains(id) {
            let j = choose|j: int| 0 <= j < (one + other).len() && (one + other)[j] == id;
            if j < one.len() {
                assert(one[j] == id);
            } else {
                assert(other[j - one.len()] == id);
            }
        }
        if one.contains(id) {
            let j = choose|j: int| 0 <= j < one.len() && one[j] == id;
            assert((one + other)[j] == id);
        }
        if other.contains(id) {
            let j = choose|j: int| 0 <= j < other.len() && other[j] == id;
            assert((one + other)[j + one.len()] == id);
        }
    }
}

/// Edges that are known by one account are known by every account that says the same
/// of their states, and with every list that holds the loose groups.
pub proof fn lemma_edges_known_same(
    edges: Seq<TransitionModel>,
    start: u64,
    end: u64,
    low: int,
    high: int,
    groups: spec_fn(u64) -> Seq<u64>,
    texts: spec_fn(u64) -> Texts,
    loose: Seq<u64>,
    other_groups: spec_fn(u64) -> Seq<u64>,
    other_texts: spec_fn(u64) -> Texts,
    other_loose: Seq<u64>,
)
    requires
        edges_known(edges, groups, texts, loose),
        edges_within_from_two(edges, start, end, low, high),
        groups(start) == other_groups(start),
        groups(end) == other_groups(end),
        texts(start) == other_texts(start),
        texts(end) == other_texts(end),
        forall|state: u64|
            low <= state < high ==> #[trigger] groups(state) == other_groups(state),
        forall|state: u64| low <= state < high ==> #[trigger] texts(state) == other_texts(state),
        within(loose, other_loose),
    ensures
        edges_known(edges, other_groups, other_texts, other_loose),
{
    assert forall|i: int| 0 <= i < edges.len() implies edge_known(
        #[trigger] edges[i],
        other_groups,
        other_texts,
        other_loose,
    ) by {
        assert(edge_known(edges[i], groups, texts, loose));
        assert(groups(edges[i].from_state) == other_groups(edges[i].from_state));
        assert(texts(edges[i].from_state) == other_texts(edges[i].from_state));
        assert(texts(edges[i].to_state) == other_texts(edges[i].to_state));
    }
}

/// Behind the graph of a node that cannot be crossed without consuming a character,
/// every open group is filled.
pub proof fn lemma_filled_behind(node: AstModel, open: Seq<u64>, texts: Texts)
    requires
        !hollow(node),
    ensures
        texts_behind(node, open, texts).unfilled == 0,
    decreases node, 0nat,
{
    match node {
        AstModel::Root(inner) => {
            lemma_filled_behind(*inner, open, texts);
        },
        AstModel::Sequence(items) => {
            lemma_chain_filled_behind(items, 0, open, texts);
        },
        AstModel::Alt { options, id } => {
            lemma_options_filled_behind(options, 0, open.push(id), entered(texts));
        },
        AstModel::Repeat { min, max, node: child } => {
            lemma_filled_behind(*child, open, looped(*child, texts));
        },
        _ => {},
    }
}

/// The same for a chain one of whose items cannot be crossed without consuming a
/// character.
pub proof fn lemma_chain_filled_behind(items: Seq<AstModel>, i: int, open: Seq<u64>, texts: Texts)
    requires
        0 <= i,
        exists|j: int| i <= j < items.len() && !hollow(#[trigger] items[j]),
    ensures
        chain_texts_behind(items, i, open, texts).unfilled == 0,
    decreases items, items.len() - i,
{
    let j = choose|j: int| i <= j < items.len() && !hollow(#[trigger] items[j]);
    let mid = texts_behind(items[i], open, texts);
    if !hollow(items[i]) {
        lemma_filled_behind(items[i], open, texts);
        lemma_chain_texts_behind(items, i + 1, open, mid);
    } else {
        assert(!hollow(items[j]));
        lemma_chain_filled_behind(items, i + 1, open, mid);
    }
}

/// The same for a list of options none of which can be crossed without consuming a
/// character.
pub proof fn lemma_options_filled_behind(
    options: Seq<AstModel>,
    i: int,
    open: Seq<u64>,
    texts: Texts,
)
    requires
        0 <= i,
    ensures
        (forall|j: int| i <= j < options.len() ==> !hollow(#[trigger] options[j]))
            ==> options_texts_behind(options, i, open, texts).unfilled == 0,
    decreases options, options.len() - i,
{
    if i < options.len() {
        if forall|j: int| i <= j < options.len() ==> !hollow(#[trigger] options[j]) {
            assert(!hollow(options[i]));
            lemma_filled_behind(options[i], open, texts);
            lemma_options_filled_behind(options, i + 1, open, texts);
        }
    }
}

/// Behind the graph of a node every group that was weak is weak, every other weak
/// group is a hollow group of the node, and no more groups are unfilled than in front
/// of it.
pub proof fn lemma_texts_behind(node: AstModel, open: Seq<u64>, texts: Texts)
    ensures
        within(texts.weak, texts_behind(node, open, texts).weak),
        within(texts_behind(node, open, texts).weak, texts.weak + hollow_groups(node)),
        texts_behind(node, open, texts).unfilled <= texts.unfilled,
    decreases node, 0nat,
{
    let out = texts_behind(node, open, texts);
    lemma_contains_add(texts.weak, hollow_groups(node));
    match node {
        AstModel::Root(inner) => {
            lemma_texts_behind(*inner, open, texts);
        },
        AstModel::Sequence(items) => {
            lemma_chain_texts_behind(items, 0, open, texts);
        },
        AstModel::Alt { options, id } => {
            let inside = options_texts_behind(options, 0, open.push(id), entered(texts));
            lemma_options_texts_behind(options, 0, open.push(id), entered(texts));
            lemma_contains_add(texts.weak, hollow_groups_all(options, 0));
            lemma_contains_add(seq![id], hollow_groups_all(options, 0));
            assert(seq![id][0] == id);
            if inside.unfilled > 0 {
                lemma_options_filled_behind(options, 0, open.push(id), entered(texts));
                assert(hollow(node));
            }
            assert forall|x: u64| out.weak.contains(x) implies #[trigger] (texts.weak + hollow_groups(
                node,
            )).contains(x) by {
                if inside.unfilled > 0 {
                    let j = choose|j: int| 0 <= j < out.weak.len() && out.weak[j] == x;
                    if j < inside.weak.len() {
                        assert(inside.weak[j] == x);
                        assert(inside.weak.contains(x));
                    } else {
                        assert(x == id);
                        assert(seq![id].contains(x));
                    }
                } else {
                    assert(inside.weak.contains(x));
                }
                if inside.weak.contains(x) {
                    assert((entered(texts).weak + hollow_groups_all(options, 0)).contains(x));
                }
                assert(texts.weak.contains(x) || hollow_groups(node).contains(x));
            }
            assert forall|x: u64| texts.weak.contains(x) implies #[trigger] out.weak.contains(
                x,
            ) by {
                assert(inside.weak.contains(x));
                let j = choose|j: int| 0 <= j < inside.weak.len() && inside.weak[j] == x;
                if inside.unfilled > 0 {
                    assert(out.weak[j] == x);
                }
            }
        },
        AstModel::Repeat { min, max, node: child } => {
            if max != Some(0u64) {
                let base = looped(*child, texts);
                lemma_texts_behind(*child, open, base);
                lemma_contains_add(base.weak, hollow_groups(*child));
            }
        },
        _ => {},
    }
}

/// The same for a chain.
pub proof fn lemma_chain_texts_behind(items: Seq<AstModel>, i: int, open: Seq<u64>, texts: Texts)
    requires
        0 <= i,
    ensures
        within(texts.weak, chain_texts_behind(items, i, open, texts).weak),
        within(
            chain_texts_behind(items, i, open, texts).weak,
            texts.weak + hollow_groups_all(items, i),
        ),
        chain_texts_behind(items, i, open, texts).unfilled <= texts.unfilled,
    decreases items, items.len() - i,
{
    lemma_contains_add(texts.weak, hollow_groups_all(items, i));
    if i < items.len() {
        let mid = texts_behind(items[i], open, texts);
        lemma_texts_behind(items[i], open, texts);
        lemma_chain_texts_behind(items, i + 1, open, mid);
        lemma_contains_add(texts.weak, hollow_groups(items[i]));
        lemma_contains_add(mid.weak, hollow_groups_all(items, i + 1));
        lemma_contains_add(hollow_groups(items[i]), hollow_groups_all(items, i + 1));
    }
}

/// The same for a list of options.
pub proof fn lemma_options_texts_behind(
    options: Seq<AstModel>,
    i: int,
    open: Seq<u64>,
    texts: Texts,
)
    requires
        0 <= i,
    ensures
        within(texts.weak, options_texts_behind(options, i, open, texts).weak),
        within(
            options_texts_behind(options, i, open, texts).weak,
            texts.weak + hollow_groups_all(options, i),
        ),
        options_texts_behind(options, i, open, texts).unfilled <= texts.unfilled,
    decreases options, options.len() - i,
{
    lemma_contains_add(texts.weak, hollow_groups_all(options, i));
    if i < options.len() {
        let one = texts_behind(options[i], open, texts);
        let rest = options_texts_behind(options, i + 1, open, texts);
        lemma_texts_behind(options[i], open, texts);
        lemma_options_texts_behind(options, i + 1, open, texts);
        lemma_contains_add(one.weak, rest.weak);
        lemma_contains_add(texts.weak, hollow_groups(options[i]));
        lemma_contains_add(texts.weak, hollow_groups_all(options, i + 1));
        lemma_contains_add(hollow_groups(options[i]), hollow_groups_all(options, i + 1));
    }
}

/// Every edge of the graph of a node is known by what `texts_around` says of its
/// states, with the loose groups of the node.
pub proof fn lemma_graph_known(
    node: AstModel,
    start: u64,
    end: u64,
    next: int,
    open: Seq<u64>,
    texts: Texts,
    behind: Texts,
)
    requires
        start < next,
        end < next,
        start != end,
        next + state_count(node) <= u64::MAX,
        groups_nest(node, open),
        covers(behind, texts_behind(node, open, texts)),
    ensures
        edges_known(
            graph_between(node, start, end, next).transitions,
            groups_around(node, start, end, next, open),
            texts_around(node, start, end, next, open, texts, behind),
            loose_refs(node, open, texts),
        ),
    decreases node, 0nat,
{
    let groups = groups_around(node, start, end, next, open);
    let around = texts_around(node, start, end, next, open, texts, behind);
    let loose = loose_refs(node, open, texts);
    let edges = graph_between(node, start, end, next).transitions;
    match node {
        AstModel::Root(inner) => {
            lemma_graph_known(*inner, start, end, next, open, texts, behind);
            lemma_graph_within(*inner, start, end, next);
            lemma_edges_known_same(
                edges,
                start,
                end,
                next,
                next + state_count(node),
                groups_around(*inner, start, end, next, open),
                texts_around(*inner, start, end, next, open, texts, behind),
                loose_refs(*inner, open, texts),
                groups,
                around,
                loose,
            );
        },
        AstModel::Sequence(items) => {
            if items.len() > 0 {
                lemma_chain_known(items, 0, start, end, next, open, texts, behind);
                lemma_chain_within(items, 0, start, end, next);
                lemma_edges_known_same(
                    edges,
                    start,
                    end,
                    next,
                    next + state_count(node),
                    chain_groups_around(items, 0, start, end, next, open),
                    chain_texts_around(items, 0, start, end, next, open, texts, behind),
                    chain_loose_refs(items, 0, open, texts),
                    groups,
                    around,
                    loose,
                );
            } else {
                assert(edges[0] == TransitionModel::epsilon(start, end));
                assert(chain_texts_behind(items, 0, open, texts) == texts);
            }
        },
        AstModel::Alt { options, id } => {
            let inner_start = next as u64;
            let inner_end = (next + 1) as u64;
            let inside = open.push(id);
            let first = entered(texts);
            let last = options_texts_behind(options, 0, inside, first);
            let inner = options_between(options, 0, inner_start, inner_end, next + 2);
            lemma_options_known(options, 0, inner_start, inner_end, next + 2, inside, first, last);
            lemma_options_within(options, 0, inner_start, inner_end, next + 2);
            lemma_options_next(options, 0, inner_start, inner_end, next + 2);
            lemma_edges_known_same(
                inner.transitions,
                inner_start,
                inner_end,
                next + 2,
                next + state_count(node),
                options_groups_around(options, 0, inner_start, inner_end, next + 2, inside),
                options_texts_around(
                    options,
                    0,
                    inner_start,
                    inner_end,
                    next + 2,
                    inside,
                    first,
                    last,
                ),
                options_loose_refs(options, 0, inside, first),
                groups,
                around,
                loose,
            );
            assert(around(inner_start) == first);
            assert(around(inner_end) == last);
            let out = left(last, id);
            if last.unfilled > 0 {
                assert(out.weak[out.weak.len() - 1] == id);
                assert(out.weak.contains(id));
                assert forall|x: u64| last.weak.contains(x) implies out.weak.contains(x) by {
                    let j = choose|j: int| 0 <= j < last.weak.len() && last.weak[j] == x;
                    assert(out.weak[j] == x);
                }
            }
            assert forall|i: int| 0 <= i < edges.len() implies edge_known(
                #[trigger] edges[i],
                groups,
                around,
                loose,
            ) by {
                if i == 0 {
                } else if i <= inner.transitions.len() {
                    assert(edges[i] == inner.transitions[i - 1]);
                } else {
                }
            }
        },
        AstModel::Repeat { min, max, node: child } => {
            if max != Some(0u64) {
                let count = required_copies(min, max);
                let inner_start = next as u64;
                let inner_end = (next + 1) as u64;
                let base = looped(*child, texts);
                let out = texts_behind(*child, open, base);
                assert(count * (state_count(*child) + 1) >= 0) by (nonlinear_arith);
                let body_next = next + 2 + count * (state_count(*child) + 1);
                let copies = unrolled_between(*child, count, inner_start, inner_end, next + 2);
                lemma_texts_behind(*child, open, base);
                lemma_contains_add(texts.weak, hollow_groups(*child));
                lemma_contains_add(base.weak, hollow_groups(*child));
                lemma_unrolled_next(*child, count, inner_start, inner_end, next + 2);
                lemma_unrolled_within(*child, count, inner_start, inner_end, next + 2);
                lemma_unrolled_known(*child, count, inner_start, inner_end, next + 2, open, base);
                lemma_unrolled_keeps_groups(*child, count, inner_start, inner_end, next + 2, open);
                lemma_edges_known_same(
                    copies.transitions,
                    inner_start,
                    inner_end,
                    next + 2,
                    body_next,
                    unrolled_groups_around(*child, count, inner_start, inner_end, next + 2, open),
                    unrolled_texts_around(
                        *child,
                        count,
                        inner_start,
                        inner_end,
                        next + 2,
                        open,
                        base,
                    ),
                    loose_refs(*child, open, base),
                    groups,
                    around,
                    loose,
                );
                let body = graph_between(*child, copies.inner_start, copies.inner_end, copies.next);
                lemma_graph_known(
                    *child,
                    copies.inner_start,
                    copies.inner_end,
                    copies.next,
                    open,
                    base,
                    out,
                );
                lemma_graph_within(*child, copies.inner_start, copies.inner_end, copies.next);
                lemma_graph_next(*child, copies.inner_start, copies.inner_end, copies.next);
                assert(around(copies.inner_start) == base);
                assert(around(copies.inner_end) == out);
                assert(groups(copies.inner_start) == open);
                assert(groups(copies.inner_end) == open);
                lemma_edges_known_same(
                    body.transitions,
                    copies.inner_start,
                    copies.inner_end,
                    body_next,
                    next + state_count(node),
                    groups_around(*child, copies.inner_start, copies.inner_end, copies.next, open),
                    texts_around(
                        *child,
                        copies.inner_start,
                        copies.inner_end,
                        copies.next,
                        open,
                        base,
                        out,
                    ),
                    loose_refs(*child, open, base),
                    groups,
                    around,
                    loose,
                );
                let skip = if min is None || min == Some(0u64) {
                    seq![TransitionModel::epsilon(start, end)]
                } else {
                    Seq::<TransitionModel>::empty()
                };
                let head = seq![TransitionModel::epsilon(start, inner_start)] + skip;
                let back = crate::ast::back_edge(
                    copies.inner_end,
                    copies.inner_start,
                    crate::ast::optional_laps(min, max),
                );
                assert(around(inner_start) == base);
                assert(edges =~= head + copies.transitions + seq![back] + body.transitions + seq![
                    TransitionModel::epsilon(copies.inner_end, end),
                ]);
                assert forall|i: int| 0 <= i < edges.len() implies edge_known(
                    #[trigger] edges[i],
                    groups,
                    around,
                    loose,
                ) by {
                    let a = head.len() as int;
                    let b = a + copies.transitions.len();
                    let c = b + 1 + body.transitions.len();
                    if i < a {
                    } else if i < b {
                        assert(edges[i] == copies.transitions[i - a]);
                    } else if i == b {
                        assert(edges[i] == back);
                    } else if i < c {
                        assert(edges[i] == body.transitions[i - b - 1]);
                    } else {
                    }
                }
            } else {
                assert(edges[0] == TransitionModel::epsilon(start, end));
            }
        },
        _ => {
            let t = edges[0];
            assert(t == TransitionModel::on(start, end, t.cond));
            if t.cond is CaptureRef && may_be_empty(texts, open, t.cond->CaptureRef_0) {
                assert(loose[0] == t.cond->CaptureRef_0);
            }
        },
    }
}

/// Every edge of a chain is known.
pub proof fn lemma_chain_known(
    items: Seq<AstModel>,
    i: int,
    from: u64,
    end: u64,
    next: int,
    open: Seq<u64>,
    texts: Texts,
    behind: Texts,
)
    requires
        0 <= i,
        from < next,
        end < next,
        from != end,
        next + chain_state_count(items, i) <= u64::MAX,
        forall|j: int| 0 <= j < items.len() ==> groups_nest(#[trigger] items[j], open),
        covers(behind, chain_texts_behind(items, i, open, texts)),
    ensures
        edges_known(
            chain_between(items, i, from, end, next).transitions,
            chain_groups_around(items, i, from, end, next, open),
            chain_texts_around(items, i, from, end, next, open, texts, behind),
            chain_loose_refs(items, i, open, texts),
        ),
    decreases items, items.len() - i,
{
    if i < items.len() {
        let groups = chain_groups_around(items, i, from, end, next, open);
        let around = chain_texts_around(items, i, from, end, next, open, texts, behind);
        let loose = chain_loose_refs(items, i, open, texts);
        let last = i + 1 == items.len();
        let to = if last {
            end
        } else {
            next as u64
        };
        let next1 = if last {
            next
        } else {
            next + 1
        };
        let mid = texts_behind(items[i], open, texts);
        let mid_behind = if last {
            behind
        } else {
            mid
        };
        let first = graph_between(items[i], from, to, next1);
        assert(chain_texts_behind(items, i, open, texts) == chain_texts_behind(
            items,
            i + 1,
            open,
            mid,
        ));
        lemma_contains_add(
            loose_refs(items[i], open, texts),
            chain_loose_refs(items, i + 1, open, mid),
        );
        lemma_graph_known(items[i], from, to, next1, open, texts, mid_behind);
        lemma_graph_within(items[i], from, to, next1);
        lemma_graph_next(items[i], from, to, next1);
        lemma_edges_known_same(
            first.transitions,
            from,
            to,
            next1,
            first.next,
            groups_around(items[i], from, to, next1, open),
            texts_around(items[i], from, to, next1, open, texts, mid_behind),
            loose_refs(items[i], open, texts),
            groups,
            around,
            loose,
        );
        let rest = chain_between(items, i + 1, to, end, first.next);
        if !last {
            lemma_chain_known(items, i + 1, to, end, first.next, open, mid, behind);
            lemma_chain_within(items, i + 1, to, end, first.next);
            lemma_chain_next(items, i + 1, to, end, first.next);
            lemma_edges_known_same(
                rest.transitions,
                to,
                end,
                first.next,
                rest.next,
                chain_groups_around(items, i + 1, to, end, first.next, open),
                chain_texts_around(items, i + 1, to, end, first.next, open, mid, behind),
                chain_loose_refs(items, i + 1, open, mid),
                groups,
                around,
                loose,
            );
        }
        assert forall|k: int|
            0 <= k < chain_between(items, i, from, end, next).transitions.len() implies edge_known(
            #[trigger] chain_between(items, i, from, end, next).transitions[k],
            groups,
            around,
            loose,
        ) by {
            let all = chain_between(items, i, from, end, next).transitions;
            assert(all =~= first.transitions + rest.transitions);
            if k < first.transitions.len() {
                assert(all[k] == first.transitions[k]);
            } else {
                assert(all[k] == rest.transitions[k - first.transitions.len()]);
            }
        }
    }
}

/// Every edge of a list of options is known.
pub proof fn lemma_options_known(
    options: Seq<AstModel>,
    i: int,
    start: u64,
    end: u64,
    next: int,
    open: Seq<u64>,
    texts: Texts,
    behind: Texts,
)
    requires
        0 <= i,
        start < next,
        end < next,
        start != end,
        next + options_state_count(options, i) <= u64::MAX,
        forall|j: int| 0 <= j < options.len() ==> groups_nest(#[trigger] options[j], open),
        covers(behind, options_texts_behind(options, i, open, texts)),
    ensures
        edges_known(
            options_between(options, i, start, end, next).transitions,
            options_groups_around(options, i, start, end, next, open),
            options_texts_around(options, i, start, end, next, open, texts, behind),
            options_loose_refs(options, i, open, texts),
        ),
    decreases options, options.len() - i,
{
    if i < options.len() {
        let groups = options_groups_around(options, i, start, end, next, open);
        let around = options_texts_around(options, i, start, end, next, open, texts, behind);
        let loose = options_loose_refs(options, i, open, texts);
        let one = texts_behind(options[i], open, texts);
        let others = options_texts_behind(options, i + 1, open, texts);
        lemma_contains_add(one.weak, others.weak);
        lemma_contains_add(
            loose_refs(options[i], open, texts),
            options_loose_refs(options, i + 1, open, texts),
        );
        let first = graph_between(options[i], start, end, next);
        lemma_graph_known(options[i], start, end, next, open, texts, behind);
        lemma_graph_within(options[i], start, end, next);
        lemma_graph_next(options[i], start, end, next);
        lemma_edges_known_same(
            first.transitions,
            start,
            end,
            next,
            first.next,
            groups_around(options[i], start, end, next, open),
            texts_around(options[i], start, end, next, open, texts, behind),
            loose_refs(options[i], open, texts),
            groups,
            around,
            loose,
        );
        let rest = options_between(options, i + 1, start, end, first.next);
        lemma_options_known(options, i + 1, start, end, first.next, open, texts, behind);
        lemma_options_within(options, i + 1, start, end, first.next);
        lemma_options_next(options, i + 1, start, end, first.next);
        lemma_edges_known_same(
            rest.transitions,
            start,
            end,
            first.next,
            rest.next,
            options_groups_around(options, i + 1, start, end, first.next, open),
            options_texts_around(options, i + 1, start, end, first.next, open, texts, behind),
            options_loose_refs(options, i + 1, open, texts),
            groups,
            around,
            loose,
        );
        assert forall|k: int|
            0 <= k < options_between(options, i, start, end, next).transitions.len()
                implies edge_known(
            #[trigger] options_between(options, i, start, end, next).transitions[k],
            groups,
            around,
            loose,
        ) by {
            let all = options_between(options, i, start, end, next).transitions;
            assert(all =~= first.transitions + rest.transitions);
            if k < first.transitions.len() {
                assert(all[k] == first.transitions[k]);
            } else {
                assert(all[k] == rest.transitions[k - first.transitions.len()]);
            }
        }
    }
}

/// Every edge of unrolled copies is known, `base` is known in the state that the loop
/// body starts in, and in the state that it ends in what is known behind the body.
pub proof fn lemma_unrolled_known(
    node: AstModel,
    count: nat,
    inner_start: u64,
    inner_end: u64,
    next: int,
    open: Seq<u64>,
    base: Texts,
)
    requires
        inner_start < next,
        inner_end < next,
        inner_start != inner_end,
        next + count * (state_count(node) + 1) <= u64::MAX,
        groups_nest(node, open),
        within(hollow_groups(node), base.weak),
    ensures
        edges_known(
            unrolled_between(node, count, inner_start, inner_end, next).transitions,
            unrolled_groups_around(node, count, inner_start, inner_end, next, open),
            unrolled_texts_around(node, count, inner_start, inner_end, next, open, base),
            loose_refs(node, open, base),
        ),
        ({
            let copies = unrolled_between(node, count, inner_start, inner_end, next);
            let around = unrolled_texts_around(node, count, inner_start, inner_end, next, open, base);
            &&& copies.inner_start != copies.inner_end
            &&& around(copies.inner_start) == base
            &&& around(copies.inner_end) == texts_behind(node, open, base)
        }),
    decreases node, count + 1,
{
    if count > 0 {
        assert(count * (state_count(node) + 1) == (count - 1) * (state_count(node) + 1) + (
        state_count(node) + 1)) by (nonlinear_arith);
        assert((count - 1) * (state_count(node) + 1) >= 0) by (nonlinear_arith)
            requires
                count >= 1,
        ;
        let groups = unrolled_groups_around(node, count, inner_start, inner_end, next, open);
        let around = unrolled_texts_around(node, count, inner_start, inner_end, next, open, base);
        let loose = loose_refs(node, open, base);
        let first = graph_between(node, inner_start, inner_end, next);
        lemma_texts_behind(node, open, base);
        lemma_contains_add(base.weak, hollow_groups(node));
        lemma_graph_known(node, inner_start, inner_end, next, open, base, base);
        lemma_graph_within(node, inner_start, inner_end, next);
        lemma_graph_next(node, inner_start, inner_end, next);
        lemma_edges_known_same(
            first.transitions,
            inner_start,
            inner_end,
            next,
            first.next,
            groups_around(node, inner_start, inner_end, next, open),
            texts_around(node, inner_start, inner_end, next, open, base, base),
            loose,
            groups,
            around,
            loose,
        );
        let fresh = first.next as u64;
        let rest = unrolled_between(node, (count - 1) as nat, inner_end, fresh, first.next + 1);
        let rest_groups = unrolled_groups_around(
            node,
            (count - 1) as nat,
            inner_end,
            fresh,
            first.next + 1,
            open,
        );
        let rest_around = unrolled_texts_around(
            node,
            (count - 1) as nat,
            inner_end,
            fresh,
            first.next + 1,
            open,
            base,
        );
        lemma_unrolled_known(node, (count - 1) as nat, inner_end, fresh, first.next + 1, open, base);
        lemma_unrolled_within(node, (count - 1) as nat, inner_end, fresh, first.next + 1);
        lemma_unrolled_next(node, (count - 1) as nat, inner_end, fresh, first.next + 1);
        assert(rest_around(fresh) == around(fresh));
        assert(rest_around(inner_end) == around(inner_end));
        assert(rest_groups(fresh) == groups(fresh));
        lemma_edges_known_same(
            rest.transitions,
            inner_end,
            fresh,
            first.next + 1,
            rest.next,
            rest_groups,
            rest_around,
            loose,
            groups,
            around,
            loose,
        );
        let all = unrolled_between(node, count, inner_start, inner_end, next);
        assert(all.transitions =~= first.transitions + rest.transitions);
        assert forall|k: int| 0 <= k < all.transitions.len() implies edge_known(
            #[trigger] all.transitions[k],
            groups,
            around,
            loose,
        ) by {
            if k < first.transitions.len() {
                assert(all.transitions[k] == first.transitions[k]);
            } else {
                assert(all.transitions[k] == rest.transitions[k - first.transitions.len()]);
            }
        }
        assert(around(all.inner_start) == rest_around(rest.inner_start));
        assert(around(all.inner_end) == rest_around(rest.inner_end));
    }
}

/// What is known of the texts in each state of the graph of a pattern.
pub open spec fn pattern_texts(node: AstModel) -> spec_fn(u64) -> Texts {
    let none = Texts { weak: Seq::empty(), unfilled: 0 };
    texts_around(node, START_STATE, END_STATE, 2, Seq::empty(), none, texts_behind(
        node,
        Seq::empty(),
        none,
    ))
}

/// The groups that the backreferences of a pattern ask for where their text may be
/// empty.
pub open spec fn pattern_loose_refs(node: AstModel) -> Seq<u64> {
    loose_refs(node, Seq::empty(), Texts { weak: Seq::empty(), unfilled: 0 })
}

/// Every edge of the graph of a pattern agrees with what is known of the texts in its
/// states, and a backreference of the graph asks for a text that may be empty only
/// where the group is one of the loose ones.
pub proof fn lemma_pattern_known(node: AstModel)
    requires
        2 + state_count(node) <= u64::MAX,
        groups_nest(node, Seq::empty()),
    ensures
        texts_kept(graph_of_pattern(node), pattern_groups(node), pattern_texts(node)),
        edges_known(
            graph_of_pattern(node),
            pattern_groups(node),
            pattern_texts(node),
            pattern_loose_refs(node),
        ),
{
    let none = Texts { weak: Seq::empty(), unfilled: 0 };
    lemma_graph_known(
        node,
        START_STATE,
        END_STATE,
        2,
        Seq::empty(),
        none,
        texts_behind(node, Seq::empty(), none),
    );
}

} // verus!
