//! What holds of every tree that the grammar accepts.
use vstd::prelude::*;
use crate::ast::AstModel;
use crate::grammar::{modified, modifier_at, options_at, parse_pattern, sequence_at, unit_at};
use crate::groups::groups_nest;

verus! {

/// Whether the ids of the groups of `node` rise: every group has an id of at least
/// `low`, and the groups inside it have larger ids than its own.
pub open spec fn groups_rise(node: AstModel, low: int) -> bool
    decreases node,
{
    match node {
        AstModel::Root(inner) => groups_rise(*inner, low),
        AstModel::Sequence(items) => forall|i: int|
            0 <= i < items.len() ==> groups_rise(#[trigger] items[i], low),
        AstModel::Alt { options, id } => low <= id && forall|i: int|
            0 <= i < options.len() ==> groups_rise(#[trigger] options[i], id + 1),
        AstModel::Repeat { min, max, node } => groups_rise(*node, low),
        _ => true,
    }
}

/// Ids that rise from `low` rise from every lower bound.
pub proof fn lemma_groups_rise_from_lower(node: AstModel, low: int, lower: int)
    requires
        groups_rise(node, low),
        lower <= low,
    ensures
        groups_rise(node, lower),
    decreases node,
{
    match node {
        AstModel::Root(inner) => {
            lemma_groups_rise_from_lower(*inner, low, lower);
        },
        AstModel::Sequence(items) => {
            assert forall|i: int| 0 <= i < items.len() implies groups_rise(
                #[trigger] items[i],
                lower,
            ) by {
                lemma_groups_rise_from_lower(items[i], low, lower);
            }
        },
        AstModel::Repeat { min, max, node } => {
            lemma_groups_rise_from_lower(*node, low, lower);
        },
        _ => {},
    }
}

/// Groups whose ids rise from above every open group nest.
pub proof fn lemma_rising_groups_nest(node: AstModel, low: int, open: Seq<u64>)
    requires
        groups_rise(node, low),
        forall|k: int| 0 <= k < open.len() ==> open[k] < low,
    ensures
        groups_nest(node, open),
    decreases node,
{
    match node {
        AstModel::Root(inner) => {
            lemma_rising_groups_nest(*inner, low, open);
        },
        AstModel::Sequence(items) => {
            assert forall|i: int| 0 <= i < items.len() implies groups_nest(
                #[trigger] items[i],
                open,
            ) by {
                lemma_rising_groups_nest(items[i], low, open);
            }
        },
        AstModel::Alt { options, id } => {
            assert forall|i: int| 0 <= i < options.len() implies groups_nest(
                #[trigger] options[i],
                open.push(id),
            ) by {
                lemma_rising_groups_nest(options[i], id + 1, open.push(id));
            }
        },
        AstModel::Repeat { min, max, node } => {
            lemma_rising_groups_nest(*node, low, open);
        },
        _ => {},
    }
}

/// Whether a parsed node is sound: its group ids rise from `low` and stay below the
/// next free id.
pub open spec fn sound_node(node: AstModel, low: u64, next_group: u64) -> bool {
    &&& low <= next_group
    &&& groups_rise(node, low as int)
}

/// Whether every node of a parsed list is sound.
pub open spec fn sound_nodes(nodes: Seq<AstModel>, low: u64, next_group: u64) -> bool {
    &&& low <= next_group
    &&& forall|i: int| 0 <= i < nodes.len() ==> groups_rise(#[trigger] nodes[i], low as int)
}

/// A sound node with its modifier is sound.
pub proof fn lemma_modified_sound(
    s: Seq<char>,
    pos: int,
    node: AstModel,
    low: u64,
    next_group: u64,
)
    requires
        sound_node(node, low, next_group),
        modified(s, pos, node, next_group) is Ok,
    ensures
        sound_node(
            modified(s, pos, node, next_group)->Ok_0.value,
            low,
            modified(s, pos, node, next_group)->Ok_0.next_group,
        ),
{
    let out = modifier_at(s, pos, node)->Ok_0.0;
    if 0 <= pos < s.len() && (s[pos] == '*' || s[pos] == '?' || s[pos] == '+' || s[pos] == '{') {
        assert(out == (AstModel::Repeat {
            min: out->Repeat_min,
            max: out->Repeat_max,
            node: Box::new(node),
        }));
    }
}

/// The unit that the grammar reads is sound.
pub proof fn lemma_unit_sound(s: Seq<char>, pos: int, next_group: u64)
    requires
        unit_at(s, pos, next_group) is Ok,
    ensures
        sound_node(
            unit_at(s, pos, next_group)->Ok_0.value,
            next_group,
            unit_at(s, pos, next_group)->Ok_0.next_group,
        ),
    decreases s.len() - pos, 0nat,
{
    if 0 <= pos < s.len() && s[pos] == '(' {
        let inner = options_at(s, pos + 1, (next_group + 1) as u64)->Ok_0;
        lemma_options_sound(s, pos + 1, (next_group + 1) as u64);
        let group = AstModel::Alt { options: inner.value, id: next_group };
        assert(sound_node(group, next_group, inner.next_group));
        lemma_modified_sound(s, inner.pos, group, next_group, inner.next_group);
    } else if 0 <= pos < s.len() {
        assert forall|end: int, atom: AstModel|
            sound_node(atom, next_group, next_group) && #[trigger] modified(
                s,
                end,
                atom,
                next_group,
            ) is Ok implies sound_node(
            modified(s, end, atom, next_group)->Ok_0.value,
            next_group,
            modified(s, end, atom, next_group)->Ok_0.next_group,
        ) by {
            lemma_modified_sound(s, end, atom, next_group, next_group);
        }
    }
}

/// The units that the grammar reads as a sequence are sound.
pub proof fn lemma_sequence_sound(s: Seq<char>, pos: int, next_group: u64, in_group: bool)
    requires
        sequence_at(s, pos, next_group, in_group) is Ok,
    ensures
        sound_nodes(
            sequence_at(s, pos, next_group, in_group)->Ok_0.value,
            next_group,
            sequence_at(s, pos, next_group, in_group)->Ok_0.next_group,
        ),
    decreases s.len() - pos, 1nat,
{
    if !crate::grammar::sequence_ends(s, pos, in_group) {
        let unit = unit_at(s, pos, next_group)->Ok_0;
        lemma_unit_sound(s, pos, next_group);
        let rest = sequence_at(s, unit.pos, unit.next_group, in_group)->Ok_0;
        lemma_sequence_sound(s, unit.pos, unit.next_group, in_group);
        let all = seq![unit.value] + rest.value;
        assert forall|i: int| 0 <= i < all.len() implies groups_rise(
            #[trigger] all[i],
            next_group as int,
        ) by {
            if i > 0 {
                assert(all[i] == rest.value[i - 1]);
                lemma_groups_rise_from_lower(
                    rest.value[i - 1],
                    unit.next_group as int,
                    next_group as int,
                );
            }
        }
    }
}

/// The options that the grammar reads for a group are sound.
pub proof fn lemma_options_sound(s: Seq<char>, pos: int, next_group: u64)
    requires
        options_at(s, pos, next_group) is Ok,
    ensures
        sound_nodes(
            options_at(s, pos, next_group)->Ok_0.value,
            next_group,
            options_at(s, pos, next_group)->Ok_0.next_group,
        ),
    decreases s.len() - pos, 2nat,
{
    let first = sequence_at(s, pos, next_group, true)->Ok_0;
    lemma_sequence_sound(s, pos, next_group, true);
    let head = AstModel::Sequence(first.value);
    assert(groups_rise(head, next_group as int));
    if s[first.pos] == ')' {
        let all = seq![head];
        assert(all[0] == head);
    } else {
        let rest = options_at(s, first.pos + 1, first.next_group)->Ok_0;
        lemma_options_sound(s, first.pos + 1, first.next_group);
        let all = seq![head] + rest.value;
        assert forall|i: int| 0 <= i < all.len() implies groups_rise(
            #[trigger] all[i],
            next_group as int,
        ) by {
            if i > 0 {
                assert(all[i] == rest.value[i - 1]);
                lemma_groups_rise_from_lower(
                    rest.value[i - 1],
                    first.next_group as int,
                    next_group as int,
                );
            }
        }
    }
}

/// The tree of an accepted pattern has groups that nest.
pub proof fn lemma_parsed_pattern_sound(s: Seq<char>)
    requires
        parse_pattern(s) is Ok,
    ensures
        groups_nest(parse_pattern(s)->Ok_0, Seq::empty()),
{
    lemma_sequence_sound(s, 0, 1, false);
    let top = sequence_at(s, 0, 1, false)->Ok_0;
    let tree = parse_pattern(s)->Ok_0;
    assert(groups_rise(AstModel::Sequence(top.value), 1));
    assert(groups_rise(tree, 1));
    lemma_rising_groups_nest(tree, 1, Seq::empty());
}

} // verus!
