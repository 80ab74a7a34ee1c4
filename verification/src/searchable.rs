//! The patterns that can be compiled and searched for, and the evaluation of a pattern
//! that first makes sure of it.
use vstd::prelude::*;
use crate::ast::{
    AstModel,
    AstNode,
    chain_state_count,
    graph_of_pattern,
    models_of,
    options_state_count,
    repeats_in_order,
    required_copies,
    state_count,
};
use crate::evaluator::{EvalMatchResult, Evaluator};
use crate::groups::{groups_nest, lemma_pattern_balanced, pattern_groups};
use crate::progress::{
    Texts,
    among_last,
    lemma_scan_completes,
    lemma_search_completes,
    ranks_fall,
    slack,
};
use crate::ranking::{lemma_pattern_falls, loosely, nullable, pattern_ranks, productive};
use crate::search::{scan_from, search_completes};
use crate::group_texts::{
    chain_loose_refs,
    chain_texts_behind,
    edge_known,
    entered,
    filled,
    hollow,
    hollow_groups,
    hollow_groups_all,
    left,
    lemma_pattern_known,
    lemma_texts_behind,
    loose_refs,
    looped,
    options_loose_refs,
    options_texts_behind,
    pattern_loose_refs,
    pattern_texts,
    texts_behind,
};
use crate::token::Token;
use crate::transition::Transition;

verus! {

/// Whether a pattern can be compiled and searched for: no repetition of it has a maximum
/// below its minimum, its graph has no more states than there are state ids, its groups
/// nest, and every repetition without a maximum repeats something that consumes a token.
/// A backreference counts as consuming a token unless the text of its group may be
/// empty where it stands.
pub open spec fn searchable(node: AstModel) -> bool {
    &&& repeats_in_order(node)
    &&& 2 + state_count(node) <= u64::MAX
    &&& groups_nest(node, Seq::empty())
    &&& productive(pattern_loose_refs(node), node)
}

/// In the graph of a searchable pattern the ranks fall along every edge that may be
/// taken without consuming a token.
pub proof fn lemma_searchable_pattern_falls(node: AstModel)
    requires
        searchable(node),
    ensures
        ranks_fall(
            graph_of_pattern(node),
            pattern_groups(node),
            pattern_texts(node),
            pattern_ranks(pattern_loose_refs(node), node),
        ),
{
    let graph = graph_of_pattern(node);
    let loose = pattern_loose_refs(node);
    let groups = pattern_groups(node);
    let texts = pattern_texts(node);
    let rank = pattern_ranks(loose, node);
    lemma_pattern_known(node);
    lemma_pattern_falls(loose, node);
    assert forall|i: int|
        0 <= i < graph.len() && (#[trigger] graph[i]).max_use is None && slack(
            graph[i],
            groups(graph[i].from_state),
            texts(graph[i].from_state),
        ) implies rank(graph[i].to_state) < rank(graph[i].from_state) by {
        assert(edge_known(graph[i], groups, texts, loose));
        assert(loosely(loose, graph[i].cond));
    }
}

/// Every scan with the graph of a searchable pattern comes to an end: each of its
/// searches ends, and every capture instruction on the way can be carried out.
pub proof fn lemma_searchable_pattern_scans(node: AstModel, tokens: Seq<Token>)
    requires
        searchable(node),
        tokens.len() <= usize::MAX,
    ensures
        scan_from(graph_of_pattern(node), tokens, 0) is Some,
{
    lemma_pattern_balanced(node);
    lemma_pattern_known(node);
    lemma_searchable_pattern_falls(node);
    lemma_scan_completes(
        graph_of_pattern(node),
        tokens,
        pattern_groups(node),
        pattern_texts(node),
        pattern_ranks(pattern_loose_refs(node), node),
        0,
    );
}

/// Every search with the graph of a searchable pattern comes to an end.
pub proof fn lemma_searchable_pattern_searches(node: AstModel, tokens: Seq<Token>, offset: int)
    requires
        searchable(node),
        tokens.len() <= usize::MAX,
        0 <= offset <= tokens.len(),
    ensures
        search_completes(graph_of_pattern(node), tokens, offset),
{
    lemma_pattern_balanced(node);
    lemma_pattern_known(node);
    lemma_searchable_pattern_falls(node);
    lemma_search_completes(
        graph_of_pattern(node),
        tokens,
        pattern_groups(node),
        pattern_texts(node),
        pattern_ranks(pattern_loose_refs(node), node),
        offset,
    );
}

/// A copy of a list of ids.
fn copy_ids(ids: &Vec<u64>) -> (r: Vec<u64>)
    ensures
        r@ == ids@,
{
    let mut out: Vec<u64> = Vec::new();
    let mut i: usize = 0;
    while i < ids.len()
        invariant
            i <= ids.len(),
            out@ == ids@.subrange(0, i as int),
        decreases ids.len() - i,
    {
        out.push(ids[i]);
        assert(out@ =~= ids@.subrange(0, i + 1));
        i += 1;
    }
    assert(ids@.subrange(0, i as int) =~= ids@);
    out
}

/// Appends the ids of one list to another.
fn append_ids(into: &mut Vec<u64>, ids: &Vec<u64>)
    ensures
        final(into)@ == old(into)@ + ids@,
{
    let ghost before = into@;
    let mut i: usize = 0;
    assert(before + ids@.subrange(0, 0) =~= before);
    while i < ids.len()
        invariant
            i <= ids.len(),
            into@ == before + ids@.subrange(0, i as int),
        decreases ids.len() - i,
    {
        into.push(ids[i]);
        assert(into@ =~= before + ids@.subrange(0, i + 1));
        i += 1;
    }
    assert(ids@.subrange(0, i as int) =~= ids@);
}

/// Whether `id` is one of the innermost `count` ids of the stack.
fn holds_among_last(open: &Vec<u64>, count: usize, id: u64) -> (r: bool)
    ensures
        r == among_last(open@, count as nat, id),
{
    let len = open.len();
    let mut j: usize = if count >= len {
        0
    } else {
        len - count
    };
    while j < len
        invariant
            len == open.len(),
            j <= len,
            len - count <= j,
            forall|k: int| 0 <= k < j && len - count <= k ==> open@[k] != id,
        decreases len - j,
    {
        if open[j] == id {
            return true;
        }
        j += 1;
    }
    false
}

/// Whether the list holds the id.
fn holds_id(ids: &Vec<u64>, id: u64) -> (r: bool)
    ensures
        r == ids@.contains(id),
{
    let mut i: usize = 0;
    while i < ids.len()
        invariant
            i <= ids.len(),
            forall|j: int| 0 <= j < i ==> ids@[j] != id,
        decreases ids.len() - i,
    {
        if ids[i] == id {
            return true;
        }
        i += 1;
    }
    false
}

impl AstNode {
    /// Whether no repetition has a maximum below its minimum, a maximum of zero aside.
    pub fn repeats_are_in_order(&self) -> (r: bool)
        ensures
            r == repeats_in_order(self@),
        decreases self,
    {
        broadcast use vstd::std_specs::vec::axiom_vec_index_decreases;

        match self {
            Self::Root(inner) => {
                assert(self@ == AstModel::Root(Box::new(inner@)));
                inner.repeats_are_in_order()
            },
            Self::Sequence(items) => {
                let ghost models = models_of(items@);
                assert(self@ == AstModel::Sequence(models));
                let mut i: usize = 0;
                while i < items.len()
                    invariant
                        i <= items.len(),
                        models == models_of(items@),
                        models.len() == items.len(),
                        self@ == AstModel::Sequence(models),
                        self@->Sequence_0 == models,
                        decreases_to!(self => items),
                        forall|j: int| 0 <= j < i ==> repeats_in_order(#[trigger] models[j]),
                    decreases items.len() - i,
                {
                    assert(models[i as int] == items[i as int]@);
                    if !items[i].repeats_are_in_order() {
                        return false;
                    }
                    i += 1;
                }
                true
            },
            Self::Alt { options, id } => {
                let ghost models = models_of(options@);
                assert(self@ == (AstModel::Alt { options: models, id: *id }));
                let mut i: usize = 0;
                while i < options.len()
                    invariant
                        i <= options.len(),
                        models == models_of(options@),
                        models.len() == options.len(),
                        self@ == (AstModel::Alt { options: models, id: *id }),
                        self@->Alt_options == models,
                        decreases_to!(self => options),
                        forall|j: int| 0 <= j < i ==> repeats_in_order(#[trigger] models[j]),
                    decreases options.len() - i,
                {
                    assert(models[i as int] == options[i as int]@);
                    if !options[i].repeats_are_in_order() {
                        return false;
                    }
                    i += 1;
                }
                true
            },
            Self::Repeat { min, max, node } => {
                assert(self@ == (AstModel::Repeat {
                    min: *min,
                    max: *max,
                    node: Box::new(node@),
                }));
                if let Some(0) = max {
                    return true;
                }
                let in_order = match (min, max) {
                    (Some(lo), Some(hi)) => *lo <= *hi,
                    _ => true,
                };
                in_order && node.repeats_are_in_order()
            },
            _ => true,
        }
    }

    /// Whether the graph of this node may be crossed without consuming a character:
    /// anchors consume none, and a backreference is taken to consume none.
    pub fn is_hollow(&self) -> (r: bool)
        ensures
            r == hollow(self@),
        decreases self,
    {
        broadcast use vstd::std_specs::vec::axiom_vec_index_decreases;

        match self {
            Self::Root(inner) => {
                assert(self@ == AstModel::Root(Box::new(inner@)));
                inner.is_hollow()
            },
            Self::Sequence(items) => {
                let ghost models = models_of(items@);
                assert(self@ == AstModel::Sequence(models));
                let mut i: usize = 0;
                while i < items.len()
                    invariant
                        i <= items.len(),
                        models == models_of(items@),
                        models.len() == items.len(),
                        self@ == AstModel::Sequence(models),
                        self@->Sequence_0 == models,
                        decreases_to!(self => items),
                        forall|j: int| 0 <= j < i ==> hollow(#[trigger] models[j]),
                    decreases items.len() - i,
                {
                    assert(models[i as int] == items[i as int]@);
                    if !items[i].is_hollow() {
                        return false;
                    }
                    i += 1;
                }
                true
            },
            Self::Alt { options, id } => {
                let ghost models = models_of(options@);
                assert(self@ == (AstModel::Alt { options: models, id: *id }));
                let mut i: usize = 0;
                while i < options.len()
                    invariant
                        i <= options.len(),
                        models == models_of(options@),
                        models.len() == options.len(),
                        self@ == (AstModel::Alt { options: models, id: *id }),
                        self@->Alt_options == models,
                        decreases_to!(self => options),
                        forall|j: int| 0 <= j < i ==> !hollow(#[trigger] models[j]),
                    decreases options.len() - i,
                {
                    assert(models[i as int] == options[i as int]@);
                    if options[i].is_hollow() {
                        assert(hollow(models[i as int]));
                        return true;
                    }
                    i += 1;
                }
                false
            },
            Self::Repeat { min, max, node } => {
                assert(self@ == (AstModel::Repeat {
                    min: *min,
                    max: *max,
                    node: Box::new(node@),
                }));
                if let Some(0) = max {
                    return true;
                }
                match min {
                    None => true,
                    Some(0) => true,
                    _ => node.is_hollow(),
                }
            },
            Self::Char(_) => false,
            Self::AnyChar => false,
            Self::CharGroup { is_negated, chars } => false,
            _ => true,
        }
    }

    /// Whether the graph of this node can be crossed without consuming a token, where
    /// the backreferences to the groups `loose` may consume nothing.
    pub fn is_nullable(&self, loose: &Vec<u64>) -> (r: bool)
        ensures
            r == nullable(loose@, self@),
        decreases self,
    {
        broadcast use vstd::std_specs::vec::axiom_vec_index_decreases;

        match self {
            Self::Root(inner) => {
                assert(self@ == AstModel::Root(Box::new(inner@)));
                inner.is_nullable(loose)
            },
            Self::Sequence(items) => {
                let ghost models = models_of(items@);
                assert(self@ == AstModel::Sequence(models));
                let mut i: usize = 0;
                while i < items.len()
                    invariant
                        i <= items.len(),
                        models == models_of(items@),
                        models.len() == items.len(),
                        self@ == AstModel::Sequence(models),
                        self@->Sequence_0 == models,
                        decreases_to!(self => items),
                        forall|j: int| 0 <= j < i ==> nullable(loose@, #[trigger] models[j]),
                    decreases items.len() - i,
                {
                    assert(models[i as int] == items[i as int]@);
                    if !items[i].is_nullable(loose) {
                        return false;
                    }
                    i += 1;
                }
                true
            },
            Self::Alt { options, id } => {
                let ghost models = models_of(options@);
                assert(self@ == (AstModel::Alt { options: models, id: *id }));
                let mut i: usize = 0;
                while i < options.len()
                    invariant
                        i <= options.len(),
                        models == models_of(options@),
                        models.len() == options.len(),
                        self@ == (AstModel::Alt { options: models, id: *id }),
                        self@->Alt_options == models,
                        decreases_to!(self => options),
                        forall|j: int| 0 <= j < i ==> !nullable(loose@, #[trigger] models[j]),
                    decreases options.len() - i,
                {
                    assert(models[i as int] == options[i as int]@);
                    if options[i].is_nullable(loose) {
                        assert(nullable(loose@, models[i as int]));
                        return true;
                    }
                    i += 1;
                }
                false
            },
            Self::Repeat { min, max, node } => {
                assert(self@ == (AstModel::Repeat {
                    min: *min,
                    max: *max,
                    node: Box::new(node@),
                }));
                if let Some(0) = max {
                    return true;
                }
                match min {
                    None => true,
                    Some(0) => true,
                    _ => node.is_nullable(loose),
                }
            },
            Self::CaptureRef(id) => holds_id(loose, *id),
            _ => false,
        }
    }

    /// Whether every repetition without a maximum repeats something that consumes a
    /// token, where the backreferences to the groups `loose` may consume nothing.
    pub fn is_productive(&self, loose: &Vec<u64>) -> (r: bool)
        ensures
            r == productive(loose@, self@),
        decreases self,
    {
        broadcast use vstd::std_specs::vec::axiom_vec_index_decreases;

        match self {
            Self::Root(inner) => {
                assert(self@ == AstModel::Root(Box::new(inner@)));
                inner.is_productive(loose)
            },
            Self::Sequence(items) => {
                let ghost models = models_of(items@);
                assert(self@ == AstModel::Sequence(models));
                let mut i: usize = 0;
                while i < items.len()
                    invariant
                        i <= items.len(),
                        models == models_of(items@),
                        models.len() == items.len(),
                        self@ == AstModel::Sequence(models),
                        self@->Sequence_0 == models,
                        decreases_to!(self => items),
                        forall|j: int| 0 <= j < i ==> productive(loose@, #[trigger] models[j]),
                    decreases items.len() - i,
                {
                    assert(models[i as int] == items[i as int]@);
                    if !items[i].is_productive(loose) {
                        return false;
                    }
                    i += 1;
                }
                true
            },
            Self::Alt { options, id } => {
                let ghost models = models_of(options@);
                assert(self@ == (AstModel::Alt { options: models, id: *id }));
                let mut i: usize = 0;
                while i < options.len()
                    invariant
                        i <= options.len(),
                        models == models_of(options@),
                        models.len() == options.len(),
                        self@ == (AstModel::Alt { options: models, id: *id }),
                        self@->Alt_options == models,
                        decreases_to!(self => options),
                        forall|j: int| 0 <= j < i ==> productive(loose@, #[trigger] models[j]),
                    decreases options.len() - i,
                {
                    assert(models[i as int] == options[i as int]@);
                    if !options[i].is_productive(loose) {
                        return false;
                    }
                    i += 1;
                }
                true
            },
            Self::Repeat { min, max, node } => {
                assert(self@ == (AstModel::Repeat {
                    min: *min,
                    max: *max,
                    node: Box::new(node@),
                }));
                match max {
                    Some(0) => true,
                    Some(_) => node.is_productive(loose),
                    None => node.is_productive(loose) && !node.is_nullable(loose),
                }
            },
            _ => true,
        }
    }

    /// Whether no group stands inside a group of the same id, nor inside one of the
    /// groups `open`. Leaves `open` as it was.
    pub fn groups_nest_in(&self, open: &mut Vec<u64>) -> (r: bool)
        ensures
            r == groups_nest(self@, old(open)@),
            final(open)@ == old(open)@,
        decreases self,
    {
        broadcast use vstd::std_specs::vec::axiom_vec_index_decreases;

        match self {
            Self::Root(inner) => {
                assert(self@ == AstModel::Root(Box::new(inner@)));
                inner.groups_nest_in(open)
            },
            Self::Sequence(items) => {
                let ghost models = models_of(items@);
                assert(self@ == AstModel::Sequence(models));
                let mut i: usize = 0;
                while i < items.len()
                    invariant
                        i <= items.len(),
                        models == models_of(items@),
                        models.len() == items.len(),
                        self@ == AstModel::Sequence(models),
                        self@->Sequence_0 == models,
                        decreases_to!(self => items),
                        open@ == old(open)@,
                        forall|j: int| 0 <= j < i ==> groups_nest(#[trigger] models[j], open@),
                    decreases items.len() - i,
                {
                    assert(models[i as int] == items[i as int]@);
                    if !items[i].groups_nest_in(open) {
                        return false;
                    }
                    i += 1;
                }
                true
            },
            Self::Alt { options, id } => {
                let ghost models = models_of(options@);
                assert(self@ == (AstModel::Alt { options: models, id: *id }));
                if holds_id(open, *id) {
                    return false;
                }
                open.push(*id);
                let mut ok = true;
                let mut i: usize = 0;
                while i < options.len() && ok
                    invariant
                        i <= options.len(),
                        models == models_of(options@),
                        models.len() == options.len(),
                        self@ == (AstModel::Alt { options: models, id: *id }),
                        self@->Alt_options == models,
                        decreases_to!(self => options),
                        open@ == old(open)@.push(*id),
                        ok ==> forall|j: int|
                            0 <= j < i ==> groups_nest(#[trigger] models[j], open@),
                        !ok ==> exists|j: int|
                            0 <= j < models.len() && !groups_nest(#[trigger] models[j], open@),
                    decreases options.len() - i,
                {
                    assert(models[i as int] == options[i as int]@);
                    if !options[i].groups_nest_in(open) {
                        ok = false;
                    }
                    i += 1;
                }
                open.pop();
                assert(open@ =~= old(open)@);
                ok
            },
            Self::Repeat { min, max, node } => {
                assert(self@ == (AstModel::Repeat {
                    min: *min,
                    max: *max,
                    node: Box::new(node@),
                }));
                if let Some(0) = max {
                    return true;
                }
                node.groups_nest_in(open)
            },
            _ => true,
        }
    }

    /// How many fresh states the graph of this node takes, or `None` where that is
    /// more than any 64-bit number.
    pub fn checked_state_count(&self) -> (r: Option<u64>)
        ensures
            match r {
                Some(n) => n == state_count(self@),
                None => state_count(self@) > u64::MAX,
            },
        decreases self,
    {
        broadcast use vstd::std_specs::vec::axiom_vec_index_decreases;

        match self {
            Self::Root(inner) => {
                assert(self@ == AstModel::Root(Box::new(inner@)));
                inner.checked_state_count()
            },
            Self::Sequence(items) => {
                let ghost models = models_of(items@);
                assert(self@ == AstModel::Sequence(models));
                let mut total: u64 = 0;
                let mut i: usize = 0;
                while i < items.len()
                    invariant
                        i <= items.len(),
                        models == models_of(items@),
                        models.len() == items.len(),
                        self@ == AstModel::Sequence(models),
                        decreases_to!(self => items),
                        state_count(self@) == total + chain_state_count(models, i as int),
                    decreases items.len() - i,
                {
                    assert(models[i as int] == items[i as int]@);
                    let between: u64 = if i + 1 == items.len() {
                        0
                    } else {
                        1
                    };
                    let part = match items[i].checked_state_count() {
                        Some(n) => n,
                        None => {
                            return None;
                        },
                    };
                    let with_part = match total.checked_add(part) {
                        Some(n) => n,
                        None => {
                            return None;
                        },
                    };
                    total = match with_part.checked_add(between) {
                        Some(n) => n,
                        None => {
                            return None;
                        },
                    };
                    i += 1;
                }
                Some(total)
            },
            Self::Alt { options, id } => {
                let ghost models = models_of(options@);
                assert(self@ == (AstModel::Alt { options: models, id: *id }));
                let mut total: u64 = 2;
                let mut i: usize = 0;
                while i < options.len()
                    invariant
                        i <= options.len(),
                        models == models_of(options@),
                        models.len() == options.len(),
                        self@ == (AstModel::Alt { options: models, id: *id }),
                        decreases_to!(self => options),
                        state_count(self@) == total + options_state_count(models, i as int),
                    decreases options.len() - i,
                {
                    assert(models[i as int] == options[i as int]@);
                    let part = match options[i].checked_state_count() {
                        Some(n) => n,
                        None => {
                            return None;
                        },
                    };
                    total = match total.checked_add(part) {
                        Some(n) => n,
                        None => {
                            return None;
                        },
                    };
                    i += 1;
                }
                Some(total)
            },
            Self::Repeat { min, max, node } => {
                assert(self@ == (AstModel::Repeat {
                    min: *min,
                    max: *max,
                    node: Box::new(node@),
                }));
                if let Some(0) = max {
                    return Some(0);
                }
                let min_v: u64 = match min {
                    Some(v) => *v,
                    None => 0,
                };
                let in_order = match max {
                    Some(v) => *v >= min_v,
                    None => true,
                };
                let copies: u64 = if in_order && min_v > 1 {
                    min_v - 1
                } else {
                    0
                };
                assert(copies == required_copies(*min, *max));
                let ghost inner = state_count(node@);
                assert(copies * (inner + 1) >= 0) by (nonlinear_arith);
                let part = match node.checked_state_count() {
                    Some(n) => n,
                    None => {
                        return None;
                    },
                };
                let per_copy = match part.checked_add(1) {
                    Some(n) => n,
                    None => {
                        return None;
                    },
                };
                let unrolled = match copies.checked_mul(per_copy) {
                    Some(n) => n,
                    None => {
                        return None;
                    },
                };
                let with_loop = match unrolled.checked_add(part) {
                    Some(n) => n,
                    None => {
                        return None;
                    },
                };
                with_loop.checked_add(2)
            },
            _ => Some(0),
        }
    }

    /// Adds to `into` the ids of the groups of this node that may be crossed without
    /// consuming a character.
    pub fn collect_hollow_groups(&self, into: &mut Vec<u64>)
        ensures
            final(into)@ == old(into)@ + hollow_groups(self@),
        decreases self,
    {
        broadcast use vstd::std_specs::vec::axiom_vec_index_decreases;

        let ghost before = into@;
        match self {
            Self::Root(inner) => {
                assert(self@ == AstModel::Root(Box::new(inner@)));
                inner.collect_hollow_groups(into);
            },
            Self::Sequence(items) => {
                let ghost models = models_of(items@);
                assert(self@ == AstModel::Sequence(models));
                let mut i: usize = 0;
                while i < items.len()
                    invariant
                        i <= items.len(),
                        models == models_of(items@),
                        models.len() == items.len(),
                        decreases_to!(self => items),
                        into@ + hollow_groups_all(models, i as int) == before + hollow_groups_all(models, 0),
                    decreases items.len() - i,
                {
                    assert(models[i as int] == items[i as int]@);
                    let ghost held = into@;
                    items[i].collect_hollow_groups(into);
                    assert((held + hollow_groups(models[i as int])) + hollow_groups_all(models, i + 1)
                        =~= held + (hollow_groups(models[i as int]) + hollow_groups_all(models, i + 1)));
                    i += 1;
                }
                assert(into@ + hollow_groups_all(models, i as int) =~= into@);
            },
            Self::Alt { options, id } => {
                let ghost models = models_of(options@);
                assert(self@ == (AstModel::Alt { options: models, id: *id }));
                if self.is_hollow() {
                    into.push(*id);
                    assert(into@ + hollow_groups_all(models, 0) =~= before + (seq![*id]
                        + hollow_groups_all(models, 0)));
                }
                let mut i: usize = 0;
                while i < options.len()
                    invariant
                        i <= options.len(),
                        models == models_of(options@),
                        models.len() == options.len(),
                        decreases_to!(self => options),
                        into@ + hollow_groups_all(models, i as int) == before + hollow_groups(
                            self@,
                        ),
                    decreases options.len() - i,
                {
                    assert(models[i as int] == options[i as int]@);
                    let ghost held = into@;
                    options[i].collect_hollow_groups(into);
                    assert((held + hollow_groups(models[i as int])) + hollow_groups_all(models, i + 1)
                        =~= held + (hollow_groups(models[i as int]) + hollow_groups_all(models, i + 1)));
                    i += 1;
                }
                assert(into@ + hollow_groups_all(models, i as int) =~= into@);
            },
            Self::Repeat { min, max, node } => {
                assert(self@ == (AstModel::Repeat {
                    min: *min,
                    max: *max,
                    node: Box::new(node@),
                }));
                node.collect_hollow_groups(into);
            },
            _ => {
                assert(before + hollow_groups(self@) =~= before);
            },
        }
    }

    /// Follows through this node what is known of the texts of the groups. The node
    /// stands inside the groups `open`; in front of it the groups `weak` may hold an
    /// empty text, and so may the innermost `unfilled` open groups. Behind it the groups
    /// left in `weak` may, and as many of the innermost open groups as are returned.
    /// The groups that a backreference of the node asks for where their text may be
    /// empty are added to `loose`. Leaves `open` as it was.
    pub fn note_texts(
        &self,
        open: &mut Vec<u64>,
        weak: &mut Vec<u64>,
        unfilled: usize,
        loose: &mut Vec<u64>,
    ) -> (r: usize)
        requires
            unfilled <= old(open)@.len(),
        ensures
            final(open)@ == old(open)@,
            final(weak)@ == texts_behind(
                self@,
                old(open)@,
                Texts { weak: old(weak)@, unfilled: unfilled as nat },
            ).weak,
            r == texts_behind(
                self@,
                old(open)@,
                Texts { weak: old(weak)@, unfilled: unfilled as nat },
            ).unfilled,
            final(loose)@ == old(loose)@ + loose_refs(
                self@,
                old(open)@,
                Texts { weak: old(weak)@, unfilled: unfilled as nat },
            ),
            r <= unfilled,
        decreases self,
    {
        broadcast use vstd::std_specs::vec::axiom_vec_index_decreases;

        let ghost stack = open@;
        let ghost texts = Texts { weak: weak@, unfilled: unfilled as nat };
        let ghost noted = loose@;
        proof {
            lemma_texts_behind(self@, stack, texts);
        }
        match self {
            Self::Root(inner) => {
                assert(self@ == AstModel::Root(Box::new(inner@)));
                inner.note_texts(open, weak, unfilled, loose)
            },
            Self::Sequence(items) => {
                let ghost models = models_of(items@);
                assert(self@ == AstModel::Sequence(models));
                let mut left_open: usize = unfilled;
                let mut i: usize = 0;
                while i < items.len()
                    invariant
                        i <= items.len(),
                        models == models_of(items@),
                        models.len() == items.len(),
                        decreases_to!(self => items),
                        open@ == stack,
                        left_open <= unfilled,
                        unfilled <= stack.len(),
                        chain_texts_behind(
                            models,
                            i as int,
                            stack,
                            Texts { weak: weak@, unfilled: left_open as nat },
                        ) == chain_texts_behind(models, 0, stack, texts),
                        loose@ + chain_loose_refs(
                            models,
                            i as int,
                            stack,
                            Texts { weak: weak@, unfilled: left_open as nat },
                        ) == noted + chain_loose_refs(models, 0, stack, texts),
                    decreases items.len() - i,
                {
                    assert(models[i as int] == items[i as int]@);
                    let ghost now = Texts { weak: weak@, unfilled: left_open as nat };
                    let ghost held = loose@;
                    left_open = items[i].note_texts(open, weak, left_open, loose);
                    assert((held + loose_refs(models[i as int], stack, now)) + chain_loose_refs(
                        models,
                        i + 1,
                        stack,
                        texts_behind(models[i as int], stack, now),
                    ) =~= held + (loose_refs(models[i as int], stack, now) + chain_loose_refs(
                        models,
                        i + 1,
                        stack,
                        texts_behind(models[i as int], stack, now),
                    )));
                    assert(Texts { weak: weak@, unfilled: left_open as nat } == texts_behind(
                        models[i as int],
                        stack,
                        now,
                    ));
                    i += 1;
                }
                assert(loose@ + chain_loose_refs(
                    models,
                    i as int,
                    stack,
                    Texts { weak: weak@, unfilled: left_open as nat },
                ) =~= loose@);
                left_open
            },
            Self::Alt { options, id } => {
                let ghost models = models_of(options@);
                assert(self@ == (AstModel::Alt { options: models, id: *id }));
                open.push(*id);
                let ghost inside = stack.push(*id);
                let ghost first = entered(texts);
                let depth = open.len();
                assert(depth == stack.len() + 1);
                let inside_unfilled: usize = unfilled + 1;
                let input = copy_ids(weak);
                let mut met: Vec<u64> = Vec::new();
                let mut most: usize = 0;
                assert(met@ + options_texts_behind(models, 0, inside, first).weak
                    =~= options_texts_behind(models, 0, inside, first).weak);
                let mut i: usize = 0;
                while i < options.len()
                    invariant
                        i <= options.len(),
                        models == models_of(options@),
                        models.len() == options.len(),
                        decreases_to!(self => options),
                        open@ == inside,
                        inside == stack.push(*id),
                        input@ == first.weak,
                        inside_unfilled == first.unfilled,
                        inside_unfilled <= inside.len(),
                        first == entered(texts),
                        most <= inside_unfilled,
                        met@ + options_texts_behind(models, i as int, inside, first).weak
                            == options_texts_behind(models, 0, inside, first).weak,
                        options_texts_behind(models, 0, inside, first).unfilled == if most
                            >= options_texts_behind(models, i as int, inside, first).unfilled {
                            most as nat
                        } else {
                            options_texts_behind(models, i as int, inside, first).unfilled
                        },
                        loose@ + options_loose_refs(models, i as int, inside, first) == noted
                            + options_loose_refs(models, 0, inside, first),
                    decreases options.len() - i,
                {
                    assert(models[i as int] == options[i as int]@);
                    let ghost held = loose@;
                    let ghost gathered = met@;
                    let mut one = copy_ids(&input);
                    let behind = options[i].note_texts(open, &mut one, inside_unfilled, loose);
                    append_ids(&mut met, &one);
                    if behind > most {
                        most = behind;
                    }
                    proof {
                        let rest = options_texts_behind(models, i + 1, inside, first);
                        assert((gathered + one@) + rest.weak =~= gathered + (one@ + rest.weak));
                        assert((held + loose_refs(models[i as int], inside, first))
                            + options_loose_refs(models, i + 1, inside, first) =~= held + (
                        loose_refs(models[i as int], inside, first) + options_loose_refs(
                            models,
                            i + 1,
                            inside,
                            first,
                        )));
                    }
                    i += 1;
                }
                append_ids(&mut met, &input);
                open.pop();
                assert(open@ =~= stack);
                assert(loose@ + options_loose_refs(models, i as int, inside, first) =~= loose@);
                let ghost last = options_texts_behind(models, 0, inside, first);
                assert(options_texts_behind(models, i as int, inside, first) == filled(first));
                assert(met@ == last.weak);
                assert(most == last.unfilled);
                if most > 0 {
                    met.push(*id);
                    *weak = met;
                    most - 1
                } else {
                    *weak = met;
                    most
                }
            },
            Self::Repeat { min, max, node } => {
                assert(self@ == (AstModel::Repeat {
                    min: *min,
                    max: *max,
                    node: Box::new(node@),
                }));
                if let Some(0) = max {
                    assert(noted + loose_refs(self@, stack, texts) =~= noted);
                    return unfilled;
                }
                node.collect_hollow_groups(weak);
                assert(Texts { weak: weak@, unfilled: unfilled as nat } == looped(node@, texts));
                let behind = node.note_texts(open, weak, unfilled, loose);
                match min {
                    None => unfilled,
                    Some(0) => unfilled,
                    _ => behind,
                }
            },
            Self::CaptureRef(id) => {
                if holds_id(weak, *id) || holds_among_last(open, unfilled, *id) {
                    loose.push(*id);
                    assert(loose@ =~= noted + seq![*id]);
                    unfilled
                } else {
                    assert(noted + loose_refs(self@, stack, texts) =~= noted);
                    0
                }
            },
            Self::Start => {
                assert(noted + loose_refs(self@, stack, texts) =~= noted);
                unfilled
            },
            Self::End => {
                assert(noted + loose_refs(self@, stack, texts) =~= noted);
                unfilled
            },
            _ => {
                assert(noted + loose_refs(self@, stack, texts) =~= noted);
                0
            },
        }
    }

    /// The groups that the backreferences of this pattern ask for where their text may
    /// be empty.
    pub fn loose_groups(&self) -> (r: Vec<u64>)
        ensures
            r@ == pattern_loose_refs(self@),
    {
        let mut open: Vec<u64> = Vec::new();
        let mut weak: Vec<u64> = Vec::new();
        let mut loose: Vec<u64> = Vec::new();
        assert(open@ =~= Seq::empty());
        assert(weak@ =~= Seq::empty());
        let ghost texts = Texts { weak: Seq::<u64>::empty(), unfilled: 0 };
        self.note_texts(&mut open, &mut weak, 0, &mut loose);
        assert(Seq::<u64>::empty() + loose_refs(self@, Seq::empty(), texts) =~= loose_refs(
            self@,
            Seq::empty(),
            texts,
        ));
        loose
    }

    /// Whether this pattern can be compiled and searched for.
    pub fn is_searchable(&self) -> (r: bool)
        ensures
            r == searchable(self@),
    {
        if !self.repeats_are_in_order() {
            return false;
        }
        let fits = match self.checked_state_count() {
            Some(n) => n <= u64::MAX - 2,
            None => false,
        };
        if !fits {
            return false;
        }
        let mut open: Vec<u64> = Vec::new();
        assert(open@ =~= Seq::empty());
        if !self.groups_nest_in(&mut open) {
            return false;
        }
        let loose = self.loose_groups();
        self.is_productive(&loose)
    }

    /// Compiles the pattern into its graph, unless a repetition of it has a maximum
    /// below its minimum or the graph has more states than there are state ids.
    pub fn try_generate(&self) -> (r: Option<Vec<Transition>>)
        ensures
            r is Some <==> repeats_in_order(self@) && 2 + state_count(self@) <= u64::MAX,
            r matches Some(transitions) ==> crate::transition::graph_of(transitions@)
                == graph_of_pattern(self@),
    {
        if !self.repeats_are_in_order() {
            return None;
        }
        match self.checked_state_count() {
            Some(n) => {
                if n <= u64::MAX - 2 {
                    Some(self.generate())
                } else {
                    None
                }
            },
            None => None,
        }
    }
}

/// The ranges that a scan of `tokens` with the graph of a searchable pattern reports.
pub open spec fn pattern_ranges(node: AstModel, tokens: Seq<Token>) -> Seq<(usize, usize)> {
    scan_from(graph_of_pattern(node), tokens, 0)->0
}

/// Compiles a pattern and scans a stream with it for the ranges that match; `None`
/// where the pattern is not searchable.
pub fn evaluate(ast: &AstNode, tokens: &[Token]) -> (r: Option<EvalMatchResult>)
    ensures
        r is Some <==> searchable(ast@),
        r matches Some(found) ==> found.ranges() == pattern_ranges(ast@, tokens@) && (
        found is NoMatch <==> found.ranges().len() == 0),
{
    if !ast.is_searchable() {
        return None;
    }
    let evaluator = Evaluator::new(ast.generate());
    let len = tokens.len();
    proof {
        assert(tokens@.len() == len);
        lemma_searchable_pattern_scans(ast@, tokens@);
    }
    Some(evaluator.is_match(tokens))
}

} // verus!
