//! The repetition of at most zero times: it matches the empty run of tokens everywhere.
use vstd::prelude::*;
use crate::ast::{AstModel, graph_between, graph_of_pattern};
use crate::common::{END_STATE, START_STATE};
use crate::search::{
    SearchOutcome,
    available,
    lemma_search_outcome,
    scan_from,
    search_run,
    search_start,
    try_transitions,
};
use crate::token::Token;
use crate::transition::TransitionModel;

verus! {

/// The graph of one edge from the start state to the end state that consumes nothing.
pub open spec fn empty_graph() -> Seq<TransitionModel> {
    seq![TransitionModel::epsilon(START_STATE, END_STATE)]
}

/// The empty ranges at the offsets from `offset` up to `len`, `len` left out.
pub open spec fn empty_ranges(offset: int, len: int) -> Seq<(usize, usize)> {
    Seq::new((len - offset) as nat, |k: int| ((offset + k) as usize, (offset + k) as usize))
}

/// A repetition of at most zero times compiles to one edge that consumes nothing,
/// whatever it repeats.
pub proof fn lemma_zero_repeat_graph(
    min: Option<u64>,
    child: AstModel,
    start: u64,
    end: u64,
    next: int,
)
    ensures
        graph_between(
            AstModel::Repeat { min, max: Some(0u64), node: Box::new(child) },
            start,
            end,
            next,
        ).transitions == seq![TransitionModel::epsilon(start, end)],
        graph_between(
            AstModel::Repeat { min, max: Some(0u64), node: Box::new(child) },
            start,
            end,
            next,
        ).next == next,
{
}

/// In the graph of one edge that consumes nothing, the search from every offset finds
/// the end state at once, with nothing consumed.
pub proof fn lemma_empty_graph_search(tokens: Seq<Token>, offset: int)
    requires
        0 <= offset <= tokens.len(),
    ensures
        search_run(empty_graph(), tokens, search_start(offset), 1) == Some(
            SearchOutcome::Found(offset),
        ),
{
    let graph = empty_graph();
    reveal_with_fuel(available, 2);
    reveal_with_fuel(try_transitions, 2);
    reveal_with_fuel(search_run, 2);
    assert(graph.drop_last() =~= Seq::<TransitionModel>::empty());
    assert(available(graph, START_STATE) =~= graph);
    assert(graph[0].max_use is None);
}

/// A scan with the graph of one edge that consumes nothing reports the empty range at
/// every offset.
pub proof fn lemma_empty_graph_scan(tokens: Seq<Token>, offset: int)
    requires
        0 <= offset <= tokens.len(),
    ensures
        scan_from(empty_graph(), tokens, offset) == Some(
            empty_ranges(offset, tokens.len() as int),
        ),
    decreases tokens.len() - offset,
{
    let len = tokens.len() as int;
    if offset < len {
        lemma_empty_graph_search(tokens, offset);
        lemma_search_outcome(empty_graph(), tokens, offset, 1);
        if offset + 1 < len {
            lemma_empty_graph_scan(tokens, offset + 1);
            assert(seq![(offset as usize, offset as usize)] + empty_ranges(offset + 1, len)
                =~= empty_ranges(offset, len));
        } else {
            assert(seq![(offset as usize, offset as usize)] =~= empty_ranges(offset, len));
        }
    } else {
        assert(empty_ranges(offset, len) =~= Seq::<(usize, usize)>::empty());
    }
}

/// A pattern that is a repetition of at most zero times matches the empty run of tokens
/// at every offset of every stream and consumes nothing, whatever it repeats.
pub proof fn lemma_zero_repeat_matches_empty_everywhere(
    min: Option<u64>,
    child: AstModel,
    tokens: Seq<Token>,
)
    ensures
        graph_of_pattern(
            AstModel::Root(
                Box::new(
                    AstModel::Sequence(
                        seq![AstModel::Repeat { min, max: Some(0u64), node: Box::new(child) }],
                    ),
                ),
            ),
        ) == empty_graph(),
        scan_from(empty_graph(), tokens, 0) == Some(empty_ranges(0, tokens.len() as int)),
{
    let repeat = AstModel::Repeat { min, max: Some(0u64), node: Box::new(child) };
    let items = seq![repeat];
    lemma_zero_repeat_graph(min, child, START_STATE, END_STATE, 2);
    reveal_with_fuel(crate::ast::chain_between, 2);
    assert(items[0] == repeat);
    assert(crate::ast::chain_between(items, 0, START_STATE, END_STATE, 2).transitions
        =~= empty_graph());
    let sequence = AstModel::Sequence(items);
    assert(graph_between(sequence, START_STATE, END_STATE, 2).transitions == empty_graph());
    assert(graph_between(AstModel::Root(Box::new(sequence)), START_STATE, END_STATE, 2)
        == graph_between(sequence, START_STATE, END_STATE, 2));
    lemma_empty_graph_scan(tokens, 0);
}

} // verus!
