//! The meaning of a pattern between `^` and `$`: the pattern matches the whole subject.
use vstd::prelude::*;
use crate::anchors::{lemma_anchored_pattern, pattern_of};
use crate::ast::{AstModel, chain_state_count, graph_of_pattern, state_count};
use crate::prefix::{
    anchored_at_start,
    lemma_chain_behind_first,
    lemma_start_anchor_means_prefix,
    uncapped,
};
use crate::searchable::{lemma_searchable_pattern_scans, pattern_ranges, searchable};
use crate::suffix::{anchored_at_end, lemma_walks_up_to_end_anchor, matches_up_to_end};
use crate::token::tokens_of;
use crate::walks::spans;

verus! {

/// The pattern with `^` in front of its items and `$` behind them.
pub open spec fn anchored_at_both_ends(items: Seq<AstModel>) -> AstModel {
    anchored_at_start(items + seq![AstModel::End])
}

/// Between `^` and `$`, a searchable pattern, with or without maxima, matches all
/// tokens of a subject or nothing, and it matches only where the pattern itself matches
/// the whole subject: where a walk through the graph of the pattern leads from its
/// start state in front of the first character to its end state behind the last one.
pub proof fn lemma_anchors_match_only_whole_subject(items: Seq<AstModel>, subject: Seq<char>)
    requires
        searchable(anchored_at_both_ends(items)),
        subject.len() + 2 <= usize::MAX,
    ensures
        pattern_ranges(anchored_at_both_ends(items), tokens_of(subject)) == Seq::<
            (usize, usize),
        >::empty() || (pattern_ranges(anchored_at_both_ends(items), tokens_of(subject)) == seq![
            (0usize, (subject.len() + 2) as usize),
        ] && matches_up_to_end(items, subject, 1)),
{
    let tokens = tokens_of(subject);
    let inner = items + seq![AstModel::End];
    let all = seq![AstModel::Start] + inner;
    let node = anchored_at_both_ends(items);
    let ranges = pattern_ranges(node, tokens);
    crate::prefix::lemma_start_anchor_matches_only_prefixes(inner, subject);
    lemma_searchable_pattern_scans(node, tokens);
    assert(all[0] == AstModel::Start);
    assert(all[all.len() - 1] == AstModel::End);
    lemma_anchored_pattern(all, subject);
    if ranges.len() > 0 {
        assert(ranges[0] == (0usize, (subject.len() + 2) as usize));
        assert(state_count(node) == state_count(AstModel::Sequence(all)));
        assert(state_count(AstModel::Sequence(all)) == chain_state_count(all, 0));
        assert(all.len() == inner.len() + 1);
        assert(state_count(all[0]) == 0);
        assert(chain_state_count(all, 0) == 1 + chain_state_count(all, 1));
        lemma_chain_behind_first(AstModel::Start, inner, 0, 2, 1, 3);
        assert(state_count(anchored_at_end(items)) == state_count(AstModel::Sequence(inner)));
        assert(state_count(AstModel::Sequence(inner)) == chain_state_count(inner, 0));
        lemma_walks_up_to_end_anchor(items, subject, 1, subject.len() as int + 2);
    }
}

/// Between `^` and `$`, a pattern without maxima matches a subject exactly where the
/// pattern itself matches the whole subject: where a walk through the graph of the
/// pattern leads from its start state in front of the first character to its end state
/// behind the last character. It then matches all tokens of the subject, and nothing
/// else.
pub proof fn lemma_anchors_mean_whole_subject(items: Seq<AstModel>, subject: Seq<char>)
    requires
        searchable(anchored_at_both_ends(items)),
        uncapped(anchored_at_both_ends(items)),
        subject.len() + 2 <= usize::MAX,
    ensures
        pattern_ranges(anchored_at_both_ends(items), tokens_of(subject)) == if matches_up_to_end(
            items,
            subject,
            1,
        ) {
            seq![(0usize, (subject.len() + 2) as usize)]
        } else {
            Seq::<(usize, usize)>::empty()
        },
{
    let tokens = tokens_of(subject);
    let inner = items + seq![AstModel::End];
    let all = seq![AstModel::Start] + inner;
    let node = anchored_at_both_ends(items);
    lemma_start_anchor_means_prefix(inner, subject);
    // The graph of the pattern with `$` fits as well.
    assert(state_count(node) == state_count(AstModel::Sequence(all)));
    assert(state_count(AstModel::Sequence(all)) == chain_state_count(all, 0));
    assert(all[0] == AstModel::Start);
    assert(all.len() == inner.len() + 1);
    assert(state_count(all[0]) == 0);
    assert(chain_state_count(all, 0) == 1 + chain_state_count(all, 1));
    lemma_chain_behind_first(AstModel::Start, inner, 0, 2, 1, 3);
    assert(state_count(anchored_at_end(items)) == state_count(AstModel::Sequence(inner)));
    assert(state_count(AstModel::Sequence(inner)) == chain_state_count(inner, 0));
    assert forall|end: int|
        spans(graph_of_pattern(pattern_of(inner)), tokens, 1, end) == (end == subject.len() + 2
            && matches_up_to_end(items, subject, 1)) by {
        lemma_walks_up_to_end_anchor(items, subject, 1, end);
    }
    if matches_up_to_end(items, subject, 1) {
        assert(spans(
            graph_of_pattern(pattern_of(inner)),
            tokens,
            1,
            subject.len() as int + 2,
        ));
    }
    lemma_searchable_pattern_scans(node, tokens);
    assert(all[all.len() - 1] == AstModel::End);
    lemma_anchored_pattern(all, subject);
}

} // verus!
