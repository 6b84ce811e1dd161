//! Where outline commands put a node: the structural command that a drop,
//! a move up or down, an indent or an outdent asks of the project, read off
//! the tree before it is applied.

use crate::projection::{has_node, is_within_research, node, within, OutlineTree};
use vstd::prelude::*;

verus! {

broadcast use vstd::laws_cmp::group_laws_cmp;

/// A drop target calculated by the view before it reaches the project.
#[derive(Clone, Copy, Debug, Eq, PartialEq)]
pub enum DropPlacement {
    /// Insert immediately before the target.
    Before(u128),
    /// Insert immediately after the target.
    After(u128),
    /// Append as a child of the target.
    Inside(u128),
}

/// A structural change of one node's place.
#[derive(Clone, Copy, Debug, Eq, PartialEq)]
pub enum OutlineCommand {
    /// Move the node to `index` among its current siblings.
    Reorder { node: u128, index: usize },
    /// Move the node under `parent`, at `index` among its children.
    Reparent { node: u128, parent: u128, index: usize },
}

/// Why a placement could not be planned.
#[derive(Clone, Copy, Debug, Eq, PartialEq)]
pub enum PlacementError {
    /// The node is not in the project.
    MissingNode(u128),
    /// The node is a root, which cannot move.
    RootMutation(u128),
    /// The node is not among its parent's children.
    AbsentFromParent,
}

/// The first index at which `x` occurs in `s`.
pub open spec fn first_index(s: Seq<u128>, x: u128) -> Option<int>
    decreases s.len(),
{
    if s.len() == 0 {
        None
    } else if s[0] == x {
        Some(0)
    } else {
        match first_index(s.drop_first(), x) {
            Some(i) => Some(i + 1),
            None => None,
        }
    }
}

proof fn lemma_first_index(s: Seq<u128>, x: u128)
    ensures
        match first_index(s, x) {
            Some(i) => 0 <= i < s.len() && s[i] == x && forall|j: int| 0 <= j < i ==> s[j] != x,
            None => forall|j: int| 0 <= j < s.len() ==> s[j] != x,
        },
    decreases s.len(),
{
    if s.len() > 0 {
        lemma_first_index(s.drop_first(), x);
        assert forall|j: int| 1 <= j < s.len() implies s[j] == s.drop_first()[j - 1] by {}
    }
}

/// The parent of `id`.
pub open spec fn parent_of(tree: OutlineTree, id: u128) -> Result<u128, PlacementError> {
    if !has_node(tree, id) {
        Err(PlacementError::MissingNode(id))
    } else {
        match node(tree, id).parent {
            Some(parent) => Ok(parent),
            None => Err(PlacementError::RootMutation(id)),
        }
    }
}

/// How many children `parent` has.
pub open spec fn child_count_of(tree: OutlineTree, parent: u128) -> Result<usize, PlacementError> {
    if !has_node(tree, parent) {
        Err(PlacementError::MissingNode(parent))
    } else {
        Ok(node(tree, parent).children@.len() as usize)
    }
}

/// Where `id` stands among the children of `parent`.
pub open spec fn sibling_index_of(tree: OutlineTree, parent: u128, id: u128) -> Result<
    usize,
    PlacementError,
> {
    if !has_node(tree, parent) {
        Err(PlacementError::MissingNode(parent))
    } else {
        match first_index(node(tree, parent).children@, id) {
            Some(i) => Ok(i as usize),
            None => Err(PlacementError::AbsentFromParent),
        }
    }
}

/// The parent of `id`, which must not be a root.
pub fn parent_for(tree: &OutlineTree, id: u128) -> (r: Result<u128, PlacementError>)
    ensures
        r == parent_of(*tree, id),
{
    match tree.nodes.get(&id) {
        None => Err(PlacementError::MissingNode(id)),
        Some(n) => match n.parent {
            Some(parent) => Ok(parent),
            None => Err(PlacementError::RootMutation(id)),
        },
    }
}

/// How many children `parent` has.
pub fn child_count(tree: &OutlineTree, parent: u128) -> (r: Result<usize, PlacementError>)
    ensures
        r == child_count_of(*tree, parent),
        r matches Ok(count) ==> count == node(*tree, parent).children@.len(),
{
    match tree.nodes.get(&parent) {
        None => Err(PlacementError::MissingNode(parent)),
        Some(n) => Ok(n.children.len()),
    }
}

/// Where `id` stands among the children of `parent`.
pub fn sibling_index(tree: &OutlineTree, parent: u128, id: u128) -> (r: Result<usize, PlacementError>)
    ensures
        r == sibling_index_of(*tree, parent, id),
        r matches Ok(index) ==> index < node(*tree, parent).children@.len() && node(
            *tree,
            parent,
        ).children@[index as int] == id,
{
    let n = match tree.nodes.get(&parent) {
        None => return Err(PlacementError::MissingNode(parent)),
        Some(n) => n,
    };
    let mut i: usize = 0;
    while i < n.children.len()
        invariant
            i <= n.children@.len(),
            *n == node(*tree, parent),
            has_node(*tree, parent),
            forall|j: int| 0 <= j < i ==> n.children@[j] != id,
        decreases n.children.len() - i,
    {
        if n.children[i] == id {
            proof {
                lemma_first_index(n.children@, id);
                let found = first_index(n.children@, id);
                if let Some(k) = found {
                    assert(k == i);
                }
            }
            return Ok(i);
        }
        i = i + 1;
    }
    proof {
        lemma_first_index(n.children@, id);
    }
    Err(PlacementError::AbsentFromParent)
}

/// One more, saturating.
pub open spec fn after(index: usize) -> usize {
    if index == usize::MAX {
        index
    } else {
        (index + 1) as usize
    }
}

/// The command a drop asks for. The target parent and index come from the
/// placement: inside a node appends to its children; before or after a
/// node places next to it. A node that stays under the same parent is
/// reordered, its index lowered by one when it moves down past its own
/// place; otherwise it is reparented.
pub open spec fn planned_drop(tree: OutlineTree, id: u128, placement: DropPlacement) -> Result<
    OutlineCommand,
    PlacementError,
> {
    let target: Result<(u128, usize), PlacementError> = match placement {
        DropPlacement::Inside(parent) => match child_count_of(tree, parent) {
            Ok(count) => Ok((parent, count)),
            Err(e) => Err(e),
        },
        DropPlacement::Before(sibling) => match parent_of(tree, sibling) {
            Ok(parent) => match sibling_index_of(tree, parent, sibling) {
                Ok(index) => Ok((parent, index)),
                Err(e) => Err(e),
            },
            Err(e) => Err(e),
        },
        DropPlacement::After(sibling) => match parent_of(tree, sibling) {
            Ok(parent) => match sibling_index_of(tree, parent, sibling) {
                Ok(index) => Ok((parent, after(index))),
                Err(e) => Err(e),
            },
            Err(e) => Err(e),
        },
    };
    match target {
        Err(e) => Err(e),
        Ok((parent, index)) => match parent_of(tree, id) {
            Err(e) => Err(e),
            Ok(current) => if current == parent {
                match sibling_index_of(tree, parent, id) {
                    Err(e) => Err(e),
                    Ok(old) => Ok(
                        OutlineCommand::Reorder {
                            node: id,
                            index: if index > old {
                                (index - 1) as usize
                            } else {
                                index
                            },
                        },
                    ),
                }
            } else {
                Ok(OutlineCommand::Reparent { node: id, parent, index })
            },
        },
    }
}

/// The command that drops `id` at `placement`.
pub fn plan_drop(tree: &OutlineTree, id: u128, placement: DropPlacement) -> (r: Result<
    OutlineCommand,
    PlacementError,
>)
    ensures
        r == planned_drop(*tree, id, placement),
{
    let (parent, index) = match placement {
        DropPlacement::Inside(parent) => match child_count(tree, parent) {
            Ok(count) => (parent, count),
            Err(e) => return Err(e),
        },
        DropPlacement::Before(sibling) => {
            let parent = match parent_for(tree, sibling) {
                Ok(parent) => parent,
                Err(e) => return Err(e),
            };
            match sibling_index(tree, parent, sibling) {
                Ok(index) => (parent, index),
                Err(e) => return Err(e),
            }
        },
        DropPlacement::After(sibling) => {
            let parent = match parent_for(tree, sibling) {
                Ok(parent) => parent,
                Err(e) => return Err(e),
            };
            match sibling_index(tree, parent, sibling) {
                Ok(index) => (parent, index.saturating_add(1)),
                Err(e) => return Err(e),
            }
        },
    };
    let current = match parent_for(tree, id) {
        Ok(current) => current,
        Err(e) => return Err(e),
    };
    if current == parent {
        let old = match sibling_index(tree, parent, id) {
            Ok(old) => old,
            Err(e) => return Err(e),
        };
        let adjusted = if index > old {
            index - 1
        } else {
            index
        };
        Ok(OutlineCommand::Reorder { node: id, index: adjusted })
    } else {
        Ok(OutlineCommand::Reparent { node: id, parent, index })
    }
}

/// Moving `id` up: one place earlier among its siblings, nothing when it is
/// first.
pub open spec fn planned_move_up(tree: OutlineTree, id: u128) -> Result<
    Option<OutlineCommand>,
    PlacementError,
> {
    match parent_of(tree, id) {
        Err(e) => Err(e),
        Ok(parent) => match sibling_index_of(tree, parent, id) {
            Err(e) => Err(e),
            Ok(index) => Ok(
                if index > 0 {
                    Some(OutlineCommand::Reorder { node: id, index: (index - 1) as usize })
                } else {
                    None
                },
            ),
        },
    }
}

/// Moving `id` down: one place later among its siblings, nothing when it is
/// last.
pub open spec fn planned_move_down(tree: OutlineTree, id: u128) -> Result<
    Option<OutlineCommand>,
    PlacementError,
> {
    match parent_of(tree, id) {
        Err(e) => Err(e),
        Ok(parent) => match sibling_index_of(tree, parent, id) {
            Err(e) => Err(e),
            Ok(index) => match child_count_of(tree, parent) {
                Err(e) => Err(e),
                Ok(count) => Ok(
                    if index + 1 < count {
                        Some(OutlineCommand::Reorder { node: id, index: (index + 1) as usize })
                    } else {
                        None
                    },
                ),
            },
        },
    }
}

/// Indenting `id`: it becomes the last child of its previous sibling,
/// nothing when it is first.
pub open spec fn planned_indent(tree: OutlineTree, id: u128) -> Result<
    Option<OutlineCommand>,
    PlacementError,
> {
    match parent_of(tree, id) {
        Err(e) => Err(e),
        Ok(parent) => match sibling_index_of(tree, parent, id) {
            Err(e) => Err(e),
            Ok(index) => if index == 0 {
                Ok(None)
            } else {
                let previous = node(tree, parent).children@[index - 1];
                match child_count_of(tree, previous) {
                    Err(e) => Err(e),
                    Ok(count) => Ok(
                        Some(OutlineCommand::Reparent { node: id, parent: previous, index: count }),
                    ),
                }
            },
        },
    }
}

/// Outdenting `id`: it moves under its grandparent, right after its parent.
pub open spec fn planned_outdent(tree: OutlineTree, id: u128) -> Result<
    Option<OutlineCommand>,
    PlacementError,
> {
    match parent_of(tree, id) {
        Err(e) => Err(e),
        Ok(parent) => match parent_of(tree, parent) {
            Err(e) => Err(e),
            Ok(grandparent) => match sibling_index_of(tree, grandparent, parent) {
                Err(e) => Err(e),
                Ok(index) => Ok(
                    Some(
                        OutlineCommand::Reparent {
                            node: id,
                            parent: grandparent,
                            index: after(index),
                        },
                    ),
                ),
            },
        },
    }
}

/// The command that moves `id` up, if any.
pub fn plan_move_up(tree: &OutlineTree, id: u128) -> (r: Result<Option<OutlineCommand>, PlacementError>)
    ensures
        r == planned_move_up(*tree, id),
{
    let parent = match parent_for(tree, id) {
        Ok(parent) => parent,
        Err(e) => return Err(e),
    };
    let index = match sibling_index(tree, parent, id) {
        Ok(index) => index,
        Err(e) => return Err(e),
    };
    if index > 0 {
        Ok(Some(OutlineCommand::Reorder { node: id, index: index - 1 }))
    } else {
        Ok(None)
    }
}

/// The command that moves `id` down, if any.
pub fn plan_move_down(tree: &OutlineTree, id: u128) -> (r: Result<Option<OutlineCommand>, PlacementError>)
    ensures
        r == planned_move_down(*tree, id),
{
    let parent = match parent_for(tree, id) {
        Ok(parent) => parent,
        Err(e) => return Err(e),
    };
    let index = match sibling_index(tree, parent, id) {
        Ok(index) => index,
        Err(e) => return Err(e),
    };
    let count = match child_count(tree, parent) {
        Ok(count) => count,
        Err(e) => return Err(e),
    };
    if index + 1 < count {
        Ok(Some(OutlineCommand::Reorder { node: id, index: index + 1 }))
    } else {
        Ok(None)
    }
}

/// The command that indents `id`, if any.
pub fn plan_indent(tree: &OutlineTree, id: u128) -> (r: Result<Option<OutlineCommand>, PlacementError>)
    ensures
        r == planned_indent(*tree, id),
{
    let parent = match parent_for(tree, id) {
        Ok(parent) => parent,
        Err(e) => return Err(e),
    };
    let index = match sibling_index(tree, parent, id) {
        Ok(index) => index,
        Err(e) => return Err(e),
    };
    if index == 0 {
        return Ok(None);
    }
    let previous = match tree.nodes.get(&parent) {
        Some(n) => n.children[index - 1],
        None => return Err(PlacementError::MissingNode(parent)),
    };
    let count = match child_count(tree, previous) {
        Ok(count) => count,
        Err(e) => return Err(e),
    };
    Ok(Some(OutlineCommand::Reparent { node: id, parent: previous, index: count }))
}

/// The command that outdents `id`.
pub fn plan_outdent(tree: &OutlineTree, id: u128) -> (r: Result<Option<OutlineCommand>, PlacementError>)
    ensures
        r == planned_outdent(*tree, id),
{
    let parent = match parent_for(tree, id) {
        Ok(parent) => parent,
        Err(e) => return Err(e),
    };
    let grandparent = match parent_for(tree, parent) {
        Ok(grandparent) => grandparent,
        Err(e) => return Err(e),
    };
    let index = match sibling_index(tree, grandparent, parent) {
        Ok(index) => index,
        Err(e) => return Err(e),
    };
    Ok(Some(OutlineCommand::Reparent { node: id, parent: grandparent, index: index.saturating_add(1) }))
}

/// Where a new node goes and whether it is compiled: appended to its
/// parent's children, and compiled unless it is created in the research
/// folder.
pub open spec fn planned_creation(tree: OutlineTree, parent: u128, research: u128) -> Result<
    (usize, bool),
    PlacementError,
> {
    match child_count_of(tree, parent) {
        Err(e) => Err(e),
        Ok(count) => Ok((count, !within(tree, parent, research))),
    }
}

/// The index and compile flag of a node created under `parent`.
pub fn plan_creation(tree: &OutlineTree, parent: u128, research: u128) -> (r: Result<
    (usize, bool),
    PlacementError,
>)
    ensures
        r == planned_creation(*tree, parent, research),
{
    let index = match child_count(tree, parent) {
        Ok(count) => count,
        Err(e) => return Err(e),
    };
    Ok((index, !is_within_research(tree, parent, research)))
}

/// Where a duplicate of `id` goes: under the same parent, right after it.
pub open spec fn planned_duplicate(tree: OutlineTree, id: u128) -> Result<(u128, usize), PlacementError> {
    match parent_of(tree, id) {
        Err(e) => Err(e),
        Ok(parent) => match sibling_index_of(tree, parent, id) {
            Err(e) => Err(e),
            Ok(index) => Ok((parent, after(index))),
        },
    }
}

/// The parent and index of a duplicate of `id`.
pub fn plan_duplicate(tree: &OutlineTree, id: u128) -> (r: Result<(u128, usize), PlacementError>)
    ensures
        r == planned_duplicate(*tree, id),
{
    let parent = match parent_for(tree, id) {
        Ok(parent) => parent,
        Err(e) => return Err(e),
    };
    match sibling_index(tree, parent, id) {
        Ok(index) => Ok((parent, index.saturating_add(1))),
        Err(e) => Err(e),
    }
}

/// The index a node restored from the trash returns to: where it was,
/// unless its parent now has fewer children.
pub fn restore_index(tree: &OutlineTree, parent: u128, index: usize) -> (r: usize)
    ensures
        r == if has_node(*tree, parent) && node(*tree, parent).children@.len() < index {
            node(*tree, parent).children@.len() as usize
        } else {
            index
        },
{
    match tree.nodes.get(&parent) {
        Some(n) => if n.children.len() < index {
            n.children.len()
        } else {
            index
        },
        None => index,
    }
}

} // verus!

verus! {

/// The children of a parent after `node`, found at its first place, is
/// taken out and put back at `index`.
pub open spec fn moved_within(children: Seq<u128>, node: u128, index: int) -> Seq<u128> {
    match first_index(children, node) {
        Some(i) => children.remove(i).insert(index, node),
        None => children,
    }
}

/// The children of the parent a command puts its node under, after the
/// command: a reorder moves the node among its current siblings; a reparent
/// inserts it among the new parent's children.
pub open spec fn children_after(tree: OutlineTree, command: OutlineCommand) -> Seq<u128> {
    match command {
        OutlineCommand::Reorder { node: id, index } => {
            let parent = node(tree, id).parent->0;
            moved_within(node(tree, parent).children@, id, index as int)
        },
        OutlineCommand::Reparent { node: id, parent, index } => node(tree, parent).children@.insert(
            index as int,
            id,
        ),
    }
}

/// `children` without the first occurrence of `id`.
pub open spec fn without(children: Seq<u128>, id: u128) -> Seq<u128> {
    match first_index(children, id) {
        Some(i) => children.remove(i),
        None => children,
    }
}

/// Every child listed under `parent` names `parent` as its parent.
pub open spec fn children_link_back(tree: OutlineTree, parent: u128) -> bool {
    forall|i: int|
        0 <= i < node(tree, parent).children@.len() ==> node(
            tree,
            #[trigger] node(tree, parent).children@[i],
        ).parent == Some(parent)
}

/// The index a command puts its node at.
pub open spec fn command_index(command: OutlineCommand) -> int {
    match command {
        OutlineCommand::Reorder { index, .. } => index as int,
        OutlineCommand::Reparent { index, .. } => index as int,
    }
}

/// The parent a command puts its node under.
pub open spec fn destination(tree: OutlineTree, command: OutlineCommand) -> u128 {
    match command {
        OutlineCommand::Reorder { node: id, .. } => node(tree, id).parent->0,
        OutlineCommand::Reparent { parent, .. } => parent,
    }
}

/// A drop before or after a sibling target lands the node right next to it:
/// once the planned command is applied, the node stands immediately before
/// the target (for `Before`) or immediately after it (for `After`), among
/// the children of the target's parent.
pub proof fn lemma_drop_lands_next_to_target(
    tree: OutlineTree,
    id: u128,
    target: u128,
    before: bool,
    command: OutlineCommand,
)
    requires
        id != target,
        planned_drop(
            tree,
            id,
            if before {
                DropPlacement::Before(target)
            } else {
                DropPlacement::After(target)
            },
        ) == Ok::<OutlineCommand, PlacementError>(command),
        children_link_back(tree, node(tree, target).parent->0),
    ensures
        has_node(tree, target) && node(tree, target).parent == Some(destination(tree, command)),
        children_after(tree, command).remove(command_index(command)) == without(
            node(tree, destination(tree, command)).children@,
            id,
        ),
        ({
            let after = children_after(tree, command);
            let j = command_index(command);
            &&& 0 <= j < after.len()
            &&& after[j] == id
            &&& before ==> j + 1 < after.len() && after[j + 1] == target
            &&& !before ==> j > 0 && after[j - 1] == target
        }),
{
    let parent = node(tree, target).parent->0;
    let c = node(tree, parent).children@;
    lemma_first_index(c, target);
    let t = first_index(c, target)->0;
    lemma_usize_len(node(tree, parent).children);
    if node(tree, id).parent == Some(parent) {
        lemma_first_index(c, id);
        let old = first_index(c, id)->0;
        assert(old != t);
        let s = c.remove(old);
        if before {
            let j = if t > old {
                t - 1
            } else {
                t
            };
            let after = s.insert(j, id);
            assert(after == children_after(tree, command));
            assert(after.remove(j) =~= s);
            if t > old {
                assert(s[t - 1] == c[t]);
            } else {
                assert(s[t] == c[t]);
            }
            assert(after[j] == id && after[j + 1] == target);
        } else {
            let j = if t + 1 > old {
                t
            } else {
                t + 1
            };
            let after = s.insert(j, id);
            assert(after == children_after(tree, command));
            assert(after.remove(j) =~= s);
            if t + 1 > old {
                assert(s[t - 1] == c[t]);
                assert(after[j - 1] == target && after[j] == id);
            } else {
                assert(s[t] == c[t]);
                assert(after[t] == target && after[t + 1] == id);
            }
        }
    } else {
        lemma_first_index(c, id);
        if let Some(i) = first_index(c, id) {
            assert(node(tree, c[i]).parent == Some(parent));
        }
        if before {
            let after = c.insert(t, id);
            assert(after[t] == id && after[t + 1] == target);
            assert(after.remove(t) =~= c);
        } else {
            let after = c.insert(t + 1, id);
            assert(after[t] == target && after[t + 1] == id);
            assert(after.remove(t + 1) =~= c);
        }
    }
}

proof fn lemma_usize_len(v: Vec<u128>)
    ensures
        v@.len() <= usize::MAX,
{
    vstd::std_specs::vec::axiom_spec_len(&v);
    assert(v.len() <= usize::MAX);
}

/// The place of the first occurrence of `id` among `children`: the index
/// `i` with `children[i] == id` and no earlier `id`.
pub open spec fn first_place(children: Seq<u128>, id: u128, i: int) -> bool {
    0 <= i < children.len() && children[i] == id && forall|k: int| 0 <= k < i ==> children[k] != id
}

/// Moving down trades places with exactly the next sibling, and moving up
/// with exactly the previous one: applied, the move leaves every other
/// sibling where it was.
pub proof fn lemma_moves_trade_with_a_neighbour(tree: OutlineTree, id: u128, i: int)
    requires
        has_node(tree, id),
        node(tree, id).parent is Some,
        has_node(tree, node(tree, id).parent->0),
        first_place(node(tree, node(tree, id).parent->0).children@, id, i),
    ensures
        ({
            let c = node(tree, node(tree, id).parent->0).children@;
            &&& planned_move_down(tree, id) matches Ok(Some(command)) ==> {
                &&& command matches OutlineCommand::Reorder { node: n, index: j } && n == id && j == i + 1
                &&& children_after(tree, command) == c.update(i, c[i + 1]).update(i + 1, id)
            }
            &&& (planned_move_down(tree, id) == Ok::<Option<OutlineCommand>, PlacementError>(None)
                <==> i + 1 == c.len())
            &&& planned_move_up(tree, id) matches Ok(Some(command)) ==> {
                &&& command matches OutlineCommand::Reorder { node: n, index: j } && n == id && j == i - 1
                &&& children_after(tree, command) == c.update(i, c[i - 1]).update(i - 1, id)
            }
            &&& (planned_move_up(tree, id) == Ok::<Option<OutlineCommand>, PlacementError>(None)
                <==> i == 0)
        }),
{
    let parent = node(tree, id).parent->0;
    let c = node(tree, parent).children@;
    lemma_first_index(c, id);
    assert(first_index(c, id) == Some(i));
    lemma_usize_len(node(tree, parent).children);
    if i + 1 < c.len() {
        assert(c.remove(i).insert(i + 1, id) =~= c.update(i, c[i + 1]).update(i + 1, id));
    }
    if i > 0 {
        assert(c.remove(i).insert(i - 1, id) =~= c.update(i, c[i - 1]).update(i - 1, id));
    }
}

/// Indenting makes the node the last child of the sibling just before it:
/// the new parent is the previous sibling, the index is that sibling's
/// child count, so applied the node ends its children; the first sibling
/// cannot be indented.
pub proof fn lemma_indent_under_previous_sibling(tree: OutlineTree, id: u128, i: int)
    requires
        has_node(tree, id),
        node(tree, id).parent is Some,
        has_node(tree, node(tree, id).parent->0),
        first_place(node(tree, node(tree, id).parent->0).children@, id, i),
    ensures
        ({
            let c = node(tree, node(tree, id).parent->0).children@;
            &&& (planned_indent(tree, id) == Ok::<Option<OutlineCommand>, PlacementError>(None)
                <==> i == 0)
            &&& planned_indent(tree, id) matches Ok(Some(command)) ==> {
                &&& command matches OutlineCommand::Reparent { node: n, parent: p, index } && n == id
                    && i > 0 && p == c[i - 1] && index == node(tree, p).children@.len()
                &&& children_after(tree, command) == node(tree, c[i - 1]).children@.push(id)
            }
        }),
{
    let parent = node(tree, id).parent->0;
    let c = node(tree, parent).children@;
    lemma_first_index(c, id);
    assert(first_index(c, id) == Some(i));
    lemma_usize_len(node(tree, parent).children);
    if i > 0 {
        let p = c[i - 1];
        if has_node(tree, p) {
            lemma_usize_len(node(tree, p).children);
            let kids = node(tree, p).children@;
            assert(kids.insert(kids.len() as int, id) =~= kids.push(id));
        }
    }
}

} // verus!

verus! {

/// Dropping a node inside a target makes it the target's last child: once
/// the planned command is applied, the node ends the target's children.
pub proof fn lemma_drop_inside_appends(tree: OutlineTree, id: u128, target: u128, command: OutlineCommand)
    requires
        planned_drop(tree, id, DropPlacement::Inside(target)) == Ok::<OutlineCommand, PlacementError>(
            command,
        ),
        children_link_back(tree, target),
    ensures
        destination(tree, command) == target,
        children_after(tree, command).len() > 0,
        children_after(tree, command).last() == id,
        command_index(command) == children_after(tree, command).len() - 1,
        children_after(tree, command).drop_last() == without(node(tree, target).children@, id),
{
    let c = node(tree, target).children@;
    lemma_usize_len(node(tree, target).children);
    if node(tree, id).parent == Some(target) {
        lemma_first_index(c, id);
        let old = first_index(c, id)->0;
        let s = c.remove(old);
        assert(s.insert(c.len() - 1, id).last() == id);
        assert(s.insert(c.len() - 1, id).drop_last() =~= s);
    } else {
        lemma_first_index(c, id);
        if let Some(i) = first_index(c, id) {
            assert(node(tree, c[i]).parent == Some(target));
        }
        assert(c.insert(c.len() as int, id).last() == id);
        assert(c.insert(c.len() as int, id).drop_last() =~= c);
    }
}

/// Outdenting puts the node right after its former parent among the
/// grandparent's children.
pub proof fn lemma_outdent_follows_parent(tree: OutlineTree, id: u128, command: OutlineCommand)
    requires
        planned_outdent(tree, id) == Ok::<Option<OutlineCommand>, PlacementError>(Some(command)),
    ensures
        ({
            let parent = node(tree, id).parent->0;
            let after = children_after(tree, command);
            let j = command_index(command);
            &&& destination(tree, command) == node(tree, parent).parent->0
            &&& 0 < j < after.len()
            &&& after[j] == id
            &&& after[j - 1] == parent
        }),
{
    let parent = node(tree, id).parent->0;
    let grandparent = node(tree, parent).parent->0;
    let c = node(tree, grandparent).children@;
    lemma_first_index(c, parent);
    lemma_usize_len(node(tree, grandparent).children);
    let k = first_index(c, parent)->0;
    assert(c.insert(k + 1, id)[k] == parent);
}

/// A duplicate goes right after its original among the same siblings.
pub proof fn lemma_duplicate_follows_original(tree: OutlineTree, id: u128, parent: u128, index: usize)
    requires
        planned_duplicate(tree, id) == Ok::<(u128, usize), PlacementError>((parent, index)),
    ensures
        node(tree, id).parent == Some(parent),
        0 < index <= node(tree, parent).children@.len(),
        node(tree, parent).children@[index - 1] == id,
{
    let c = node(tree, parent).children@;
    lemma_first_index(c, id);
    lemma_usize_len(node(tree, parent).children);
}

} // verus!
