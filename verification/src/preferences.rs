//! Local, disposable workspace state: which nodes are selected and expanded,
//! what the two panes show, and the window layout. Removing it cannot affect
//! a project; whatever is loaded is reconciled with the project's live nodes.

use crate::chars::{chars_of, string_from_chars};
use crate::tree::{decimal, decimal_chars};
use crate::workspace::{
    default_split_ratio, PaneView, SplitOrientation, WORKSPACE_FORMAT_VERSION,
};
use std::collections::BTreeSet;
use vstd::prelude::*;

verus! {

broadcast use vstd::laws_cmp::group_laws_cmp;

/// Local restoration hints for a single editor or reference pane.
#[derive(Clone, Copy, Debug, Eq, PartialEq)]
pub struct PaneWorkspaceState {
    pub node: Option<u128>,
    pub view: PaneView,
    pub pinned: bool,
    pub cursor: u32,
    pub scroll: u32,
}

/// The pane a workspace starts with: no node, the editor view, unpinned.
pub open spec fn default_pane() -> PaneWorkspaceState {
    PaneWorkspaceState { node: None, view: PaneView::Editor, pinned: false, cursor: 0, scroll: 0 }
}

impl Default for PaneWorkspaceState {
    fn default() -> (r: Self)
        ensures
            r == default_pane(),
    {
        PaneWorkspaceState { node: None, view: PaneView::Editor, pinned: false, cursor: 0, scroll: 0 }
    }
}

/// Local, disposable UI state. Removing this file cannot affect a project.
#[derive(Clone, Debug, Eq, PartialEq)]
pub struct WorkspacePreferences {
    pub version: u32,
    pub selected_nodes: Vec<u128>,
    pub expanded_nodes: Vec<u128>,
    pub active_view: String,
    pub binder_visible: bool,
    pub inspector_visible: bool,
    pub panes: [PaneWorkspaceState; 2],
    pub focused_pane: u8,
    pub split_enabled: bool,
    pub split_orientation: SplitOrientation,
    pub split_ratio_milli: u16,
    pub window_x: Option<i32>,
    pub window_y: Option<i32>,
    pub window_width: Option<u32>,
    pub window_height: Option<u32>,
    pub window_maximized: bool,
}

/// The preferences of a workspace that has none stored yet.
pub open spec fn is_default_preferences(p: WorkspacePreferences) -> bool {
    &&& p.version == WORKSPACE_FORMAT_VERSION
    &&& p.selected_nodes@.len() == 0
    &&& p.expanded_nodes@.len() == 0
    &&& p.active_view@.len() == 0
    &&& p.binder_visible
    &&& p.inspector_visible
    &&& p.panes@ == seq![default_pane(), default_pane()]
    &&& p.focused_pane == 0
    &&& !p.split_enabled
    &&& p.split_orientation == SplitOrientation::Horizontal
    &&& p.split_ratio_milli == 500
    &&& p.window_x is None
    &&& p.window_y is None
    &&& p.window_width is None
    &&& p.window_height is None
    &&& !p.window_maximized
}

impl Default for WorkspacePreferences {
    fn default() -> (r: Self)
        ensures
            is_default_preferences(r),
    {
        let panes = [PaneWorkspaceState::default(), PaneWorkspaceState::default()];
        let r = WorkspacePreferences {
            version: WORKSPACE_FORMAT_VERSION,
            selected_nodes: Vec::new(),
            expanded_nodes: Vec::new(),
            active_view: String::new(),
            binder_visible: true,
            inspector_visible: true,
            panes,
            focused_pane: 0,
            split_enabled: false,
            split_orientation: SplitOrientation::Horizontal,
            split_ratio_milli: default_split_ratio(),
            window_x: None,
            window_y: None,
            window_width: None,
            window_height: None,
            window_maximized: false,
        };
        assert(r.panes@ =~= seq![default_pane(), default_pane()]);
        r
    }
}

/// A pane kept only while its node is live: otherwise it forgets the node,
/// its pin and its positions, and an attachment view without a node falls
/// back to the outline.
pub open spec fn reconciled_pane(pane: PaneWorkspaceState, live: Set<u128>) -> PaneWorkspaceState {
    let kept = if pane.node matches Some(id) && live.contains(id) {
        pane
    } else {
        PaneWorkspaceState { node: None, pinned: false, cursor: 0, scroll: 0, ..pane }
    };
    if kept.view == PaneView::Attachment && kept.node is None {
        PaneWorkspaceState { view: PaneView::Outline, ..kept }
    } else {
        kept
    }
}

/// The ratio held between 100 and 900 thousandths.
pub open spec fn clamped_ratio(ratio: u16) -> u16 {
    if ratio < 100 {
        100
    } else if ratio > 900 {
        900
    } else {
        ratio
    }
}

/// `after` is what reconciling `before` with the live nodes leaves: the
/// current format, only live selected and expanded nodes (in their order),
/// a focused pane of 0 or 1, a split ratio between 100 and 900 thousandths,
/// each pane reconciled, no pinned second pane unless the split is shown,
/// and everything else as it was.
pub open spec fn is_reconciled(
    before: WorkspacePreferences,
    after: WorkspacePreferences,
    live: Set<u128>,
) -> bool {
    let first = reconciled_pane(before.panes@[0], live);
    let second = reconciled_pane(before.panes@[1], live);
    &&& after.version == WORKSPACE_FORMAT_VERSION
    &&& after.selected_nodes@ == before.selected_nodes@.filter(|id: u128| live.contains(id))
    &&& after.expanded_nodes@ == before.expanded_nodes@.filter(|id: u128| live.contains(id))
    &&& after.active_view == before.active_view
    &&& after.binder_visible == before.binder_visible
    &&& after.inspector_visible == before.inspector_visible
    &&& after.panes@ == seq![
        first,
        if before.split_enabled {
            second
        } else {
            PaneWorkspaceState { pinned: false, ..second }
        },
    ]
    &&& after.focused_pane == if before.focused_pane < 1 {
        before.focused_pane
    } else {
        1
    }
    &&& after.split_enabled == before.split_enabled
    &&& after.split_orientation == before.split_orientation
    &&& after.split_ratio_milli == clamped_ratio(before.split_ratio_milli)
    &&& after.window_x == before.window_x
    &&& after.window_y == before.window_y
    &&& after.window_width == before.window_width
    &&& after.window_height == before.window_height
    &&& after.window_maximized == before.window_maximized
}

/// Preferences that refer only to live nodes and hold their settings in
/// range.
pub open spec fn refers_only_to_live(p: WorkspacePreferences, live: Set<u128>) -> bool {
    &&& p.version == WORKSPACE_FORMAT_VERSION
    &&& forall|i: int| 0 <= i < p.selected_nodes@.len() ==> live.contains(#[trigger] p.selected_nodes@[i])
    &&& forall|i: int| 0 <= i < p.expanded_nodes@.len() ==> live.contains(#[trigger] p.expanded_nodes@[i])
    &&& forall|i: int|
        0 <= i < 2 ==> {
            let pane = #[trigger] p.panes@[i];
            &&& pane.node matches Some(id) ==> live.contains(id)
            &&& pane.view == PaneView::Attachment ==> pane.node is Some
        }
    &&& p.focused_pane <= 1
    &&& 100 <= p.split_ratio_milli <= 900
    &&& !p.split_enabled ==> !p.panes@[1].pinned
}

/// Reconciled preferences refer only to live nodes, and reconciling them
/// again changes nothing: the second result is also the reconciliation of
/// the first input.
pub proof fn lemma_reconcile_settles(
    before: WorkspacePreferences,
    once: WorkspacePreferences,
    twice: WorkspacePreferences,
    live: Set<u128>,
)
    requires
        is_reconciled(before, once, live),
        is_reconciled(once, twice, live),
    ensures
        refers_only_to_live(once, live),
        is_reconciled(before, twice, live),
{
    let keep = |id: u128| live.contains(id);
    assert forall|i: int| 0 <= i < once.selected_nodes@.len() implies live.contains(
        #[trigger] once.selected_nodes@[i],
    ) by {
        before.selected_nodes@.lemma_filter_pred(keep, i);
    }
    assert forall|i: int| 0 <= i < once.expanded_nodes@.len() implies live.contains(
        #[trigger] once.expanded_nodes@[i],
    ) by {
        before.expanded_nodes@.lemma_filter_pred(keep, i);
    }
    lemma_filter_again(before.selected_nodes@, live);
    lemma_filter_again(before.expanded_nodes@, live);
    assert(twice.panes@ =~= once.panes@);
}

proof fn lemma_filter_again(s: Seq<u128>, live: Set<u128>)
    ensures
        s.filter(|id: u128| live.contains(id)).filter(|id: u128| live.contains(id)) == s.filter(
            |id: u128| live.contains(id),
        ),
    decreases s.len(),
{
    reveal(Seq::filter);
    if s.len() > 0 {
        lemma_filter_again(s.drop_last(), live);
        let once = s.filter(|id: u128| live.contains(id));
        if live.contains(s.last()) {
            assert(once.drop_last() =~= s.drop_last().filter(|id: u128| live.contains(id)));
        } else {
            assert(once =~= s.drop_last().filter(|id: u128| live.contains(id)));
        }
    }
}

fn live_only(ids: &Vec<u128>, live: &BTreeSet<u128>) -> (r: Vec<u128>)
    ensures
        r@ == ids@.filter(|id: u128| live@.contains(id)),
{
    let mut r: Vec<u128> = Vec::new();
    let mut i: usize = 0;
    while i < ids.len()
        invariant
            i <= ids@.len(),
            r@ == ids@.take(i as int).filter(|id: u128| live@.contains(id)),
        decreases ids.len() - i,
    {
        let id = ids[i];
        proof {
            assert(ids@.take(i + 1).drop_last() =~= ids@.take(i as int));
            reveal(Seq::filter);
        }
        if live.contains(&id) {
            r.push(id);
        }
        i = i + 1;
    }
    assert(ids@.take(i as int) =~= ids@);
    r
}

fn reconcile_pane(pane: PaneWorkspaceState, live: &BTreeSet<u128>) -> (r: PaneWorkspaceState)
    ensures
        r == reconciled_pane(pane, live@),
{
    let valid = match pane.node {
        Some(id) => live.contains(&id),
        None => false,
    };
    let mut pane = pane;
    if !valid {
        pane.node = None;
        pane.pinned = false;
        pane.cursor = 0;
        pane.scroll = 0;
    }
    if pane.node.is_none() {
        if let PaneView::Attachment = pane.view {
            pane.view = PaneView::Outline;
        }
    }
    pane
}

/// Reconciles loaded or replaced preferences with the project's live nodes
/// (`live`: the nodes that exist and are not in the trash).
pub fn reconcile_preferences(live: &BTreeSet<u128>, preferences: &mut WorkspacePreferences)
    ensures
        is_reconciled(*old(preferences), *final(preferences), live@),
{
    preferences.version = WORKSPACE_FORMAT_VERSION;
    preferences.selected_nodes = live_only(&preferences.selected_nodes, live);
    preferences.expanded_nodes = live_only(&preferences.expanded_nodes, live);
    if preferences.focused_pane > 1 {
        preferences.focused_pane = 1;
    }
    if preferences.split_ratio_milli < 100 {
        preferences.split_ratio_milli = 100;
    } else if preferences.split_ratio_milli > 900 {
        preferences.split_ratio_milli = 900;
    }
    let first = reconcile_pane(preferences.panes[0], live);
    let mut second = reconcile_pane(preferences.panes[1], live);
    if !preferences.split_enabled {
        second.pinned = false;
    }
    preferences.panes = [first, second];
    assert(preferences.panes@ =~= seq![first, second]);
}

/// What reading the stored workspace state gave.
#[derive(Clone, Debug, Eq, PartialEq)]
pub enum PreferencesLoad {
    /// No state is stored.
    Missing,
    /// The state could not be read; the text says why.
    Unreadable(String),
    /// The state is not well-formed; the text says why.
    Invalid(String),
    /// The state as it was stored.
    Parsed(WorkspacePreferences),
}

/// `prefix` followed by `detail`.
fn message(prefix: &str, detail: &Vec<char>) -> (s: String)
    ensures
        s@ == prefix@ + detail@,
{
    let mut text = chars_of(prefix);
    let mut detail = detail.clone();
    text.append(&mut detail);
    string_from_chars(&text)
}

/// The preferences a workspace starts with after reading its stored state,
/// and the diagnostic to show: stored preferences of the current format are
/// used as they are; anything else falls back to the defaults, with a
/// diagnostic unless nothing was stored.
pub fn loaded_preferences(load: PreferencesLoad) -> (r: (WorkspacePreferences, Option<String>))
    ensures
        match load {
            PreferencesLoad::Missing => is_default_preferences(r.0) && r.1 is None,
            PreferencesLoad::Unreadable(error) => {
                &&& is_default_preferences(r.0)
                &&& r.1 matches Some(text) && text@ == "workspace state could not be read: "@
                    + error@
            },
            PreferencesLoad::Invalid(error) => {
                &&& is_default_preferences(r.0)
                &&& r.1 matches Some(text) && text@ == "workspace state is invalid: "@ + error@
            },
            PreferencesLoad::Parsed(stored) => if stored.version == WORKSPACE_FORMAT_VERSION {
                r.0 == stored && r.1 is None
            } else {
                &&& is_default_preferences(r.0)
                &&& r.1 matches Some(text) && text@ == "workspace format "@ + decimal(
                    stored.version as nat,
                ) + " is unsupported"@
            },
        },
{
    match load {
        PreferencesLoad::Missing => (WorkspacePreferences::default(), None),
        PreferencesLoad::Unreadable(error) => {
            let detail = chars_of(error.as_str());
            (WorkspacePreferences::default(), Some(message("workspace state could not be read: ", &detail)))
        },
        PreferencesLoad::Invalid(error) => {
            let detail = chars_of(error.as_str());
            (WorkspacePreferences::default(), Some(message("workspace state is invalid: ", &detail)))
        },
        PreferencesLoad::Parsed(stored) => {
            if stored.version == WORKSPACE_FORMAT_VERSION {
                (stored, None)
            } else {
                let mut detail = decimal_chars(stored.version as u64);
                let mut tail = chars_of(" is unsupported");
                detail.append(&mut tail);
                (WorkspacePreferences::default(), Some(message("workspace format ", &detail)))
            }
        },
    }
}

fn contains_id(ids: &Vec<u128>, id: u128) -> (r: bool)
    ensures
        r == ids@.contains(id),
{
    let mut i: usize = 0;
    while i < ids.len()
        invariant
            i <= ids@.len(),
            forall|j: int| 0 <= j < i ==> ids@[j] != id,
        decreases ids.len() - i,
    {
        if ids[i] == id {
            return true;
        }
        i = i + 1;
    }
    false
}

/// Swapping the panes twice gives back the same panes, with the focus on
/// the same pane when it was on one of the two.
pub proof fn lemma_swap_twice(
    start: WorkspacePreferences,
    once: WorkspacePreferences,
    twice: WorkspacePreferences,
)
    requires
        once.panes@ == seq![start.panes@[1], start.panes@[0]],
        once == (WorkspacePreferences {
            panes: once.panes,
            focused_pane: (1 - focused_index(start)) as u8,
            ..start
        }),
        twice.panes@ == seq![once.panes@[1], once.panes@[0]],
        twice == (WorkspacePreferences {
            panes: twice.panes,
            focused_pane: (1 - focused_index(once)) as u8,
            ..once
        }),
    ensures
        twice.panes@ == start.panes@,
        twice.focused_pane == focused_index(start),
{
    assert(twice.panes@ =~= start.panes@);
}

/// The live nodes of `requested`, each once, in the order of their first
/// request.
pub open spec fn selection_of(requested: Seq<u128>, live: Set<u128>) -> Seq<u128>
    decreases requested.len(),
{
    if requested.len() == 0 {
        Seq::empty()
    } else {
        let earlier = selection_of(requested.drop_last(), live);
        let id = requested.last();
        if live.contains(id) && !earlier.contains(id) {
            earlier.push(id)
        } else {
            earlier
        }
    }
}

/// The selection made of `requested`: its live nodes (present and not in
/// the trash), each once, in the order first requested.
pub fn select_nodes(live: &BTreeSet<u128>, requested: &Vec<u128>) -> (selection: Vec<u128>)
    ensures
        selection@ == selection_of(requested@, live@),
{
    let mut selection: Vec<u128> = Vec::new();
    let mut i: usize = 0;
    while i < requested.len()
        invariant
            i <= requested@.len(),
            selection@ == selection_of(requested@.take(i as int), live@),
        decreases requested.len() - i,
    {
        let id = requested[i];
        proof {
            assert(requested@.take(i + 1).drop_last() =~= requested@.take(i as int));
        }
        if live.contains(&id) && !contains_id(&selection, id) {
            selection.push(id);
        }
        i = i + 1;
    }
    assert(requested@.take(i as int) =~= requested@);
    selection
}

/// A selection holds only live nodes, and each of them once.
pub proof fn lemma_selection_live_and_distinct(requested: Seq<u128>, live: Set<u128>)
    ensures
        forall|i: int|
            0 <= i < selection_of(requested, live).len() ==> live.contains(
                #[trigger] selection_of(requested, live)[i],
            ),
        selection_of(requested, live).no_duplicates(),
    decreases requested.len(),
{
    if requested.len() > 0 {
        lemma_selection_live_and_distinct(requested.drop_last(), live);
    }
}

/// Why a pane request was refused.
#[derive(Clone, Copy, Debug, PartialEq, Eq)]
pub enum PaneError {
    /// Panes are numbered zero and one.
    InvalidPane,
    /// The editor and attachment views need a document in the pane.
    NoDocument,
}

impl PaneError {
    /// What the refusal says.
    pub fn message(&self) -> (text: &'static str)
        ensures
            text@ == match self {
                PaneError::InvalidPane => "pane index must be zero or one"@,
                PaneError::NoDocument => "open a document before selecting this view"@,
            },
    {
        match self {
            PaneError::InvalidPane => "pane index must be zero or one",
            PaneError::NoDocument => "open a document before selecting this view",
        }
    }
}

/// The pane that has the focus: the second only when it is the focused one.
pub open spec fn focused_index(p: WorkspacePreferences) -> int {
    if p.focused_pane < 1 {
        0
    } else {
        1
    }
}

impl WorkspacePreferences {
    /// Pane `index`, when there is one.
    pub fn pane(&self, index: usize) -> (r: Option<&PaneWorkspaceState>)
        ensures
            index < 2 ==> r == Some(&self.panes@[index as int]),
            index >= 2 ==> r is None,
    {
        if index < 2 {
            Some(&self.panes[index])
        } else {
            None
        }
    }

    /// The other pane that already shows `node`, if any.
    pub fn pane_showing(&self, node: u128, except: usize) -> (r: Option<usize>)
        ensures
            r == self.pane_showing_spec(node, except),
    {
        if except != 0 && self.panes[0].node == Some(node) {
            Some(0)
        } else if except != 1 && self.panes[1].node == Some(node) {
            Some(1)
        } else {
            None
        }
    }

    /// Focuses the other pane when it already shows `node`; says whether
    /// it did.
    pub fn focus_pane_showing(&mut self, index: usize, node: Option<u128>) -> (focused: bool)
        ensures
            match node {
                Some(n) => match old(self).pane_showing_spec(n, index) {
                    Some(other) => focused && *final(self) == (WorkspacePreferences {
                        focused_pane: other as u8,
                        ..*old(self)
                    }),
                    None => !focused && *final(self) == *old(self),
                },
                None => !focused && *final(self) == *old(self),
            },
    {
        if let Some(n) = node {
            if let Some(other) = self.pane_showing(n, index) {
                self.focused_pane = other as u8;
                return true;
            }
        }
        false
    }

    /// The first other pane that shows `node`.
    pub open spec fn pane_showing_spec(self, node: u128, except: usize) -> Option<usize> {
        if except != 0 && self.panes@[0].node == Some(node) {
            Some(0)
        } else if except != 1 && self.panes@[1].node == Some(node) {
            Some(1)
        } else {
            None
        }
    }

    /// Shows `node` in pane `index` with `view`, from its start, and focuses
    /// that pane. The other pane is left as it is.
    pub fn show_in_pane(&mut self, index: usize, node: Option<u128>, view: PaneView) -> (r: Result<
        (),
        PaneError,
    >)
        ensures
            index < 2 ==> r is Ok && final(self).panes@ == old(self).panes@.update(
                index as int,
                PaneWorkspaceState {
                    node,
                    view,
                    cursor: 0,
                    scroll: 0,
                    ..old(self).panes@[index as int]
                },
            ) && *final(self) == (WorkspacePreferences {
                panes: final(self).panes,
                focused_pane: index as u8,
                ..*old(self)
            }),
            index < 2 ==> final(self).panes@[1 - index] == old(self).panes@[1 - index],
            index >= 2 ==> r == Err::<(), PaneError>(PaneError::InvalidPane) && *final(self) == *old(
                self,
            ),
    {
        if index >= 2 {
            return Err(PaneError::InvalidPane);
        }
        let mut pane = self.panes[index];
        pane.node = node;
        pane.view = view;
        pane.cursor = 0;
        pane.scroll = 0;
        self.panes.set(index, pane);
        self.focused_pane = index as u8;
        Ok(())
    }

    /// The pane binder navigation opens nodes in: the focused pane, unless
    /// it is pinned.
    pub fn navigation_pane(&self) -> (r: Option<usize>)
        ensures
            if self.panes@[focused_index(*self)].pinned {
                r is None
            } else {
                r == Some(focused_index(*self) as usize)
            },
    {
        let index: usize = if self.focused_pane < 1 {
            0
        } else {
            1
        };
        if self.panes[index].pinned {
            None
        } else {
            Some(index)
        }
    }

    /// Pins or unpins pane `index`; only a pane that shows a node stays
    /// pinned.
    pub fn set_pane_pin(&mut self, index: usize, pinned: bool) -> (r: Result<(), PaneError>)
        ensures
            index < 2 ==> r is Ok && final(self).panes@ == old(self).panes@.update(
                index as int,
                PaneWorkspaceState {
                    pinned: pinned && old(self).panes@[index as int].node is Some,
                    ..old(self).panes@[index as int]
                },
            ) && *final(self) == (WorkspacePreferences { panes: final(self).panes, ..*old(self) }),
            index >= 2 ==> r == Err::<(), PaneError>(PaneError::InvalidPane) && *final(self) == *old(
                self,
            ),
    {
        if index >= 2 {
            return Err(PaneError::InvalidPane);
        }
        let mut pane = self.panes[index];
        pane.pinned = pinned && pane.node.is_some();
        self.panes.set(index, pane);
        Ok(())
    }

    /// Switches pane `index` to `view` and focuses it; a pane without a node
    /// offers only the outline and card views.
    pub fn set_pane_view(&mut self, index: usize, view: PaneView) -> (r: Result<(), PaneError>)
        ensures
            index >= 2 ==> r == Err::<(), PaneError>(PaneError::InvalidPane) && *final(self) == *old(
                self,
            ),
            index < 2 && old(self).panes@[index as int].node is None && (view == PaneView::Editor
                || view == PaneView::Attachment) ==> r == Err::<(), PaneError>(PaneError::NoDocument)
                && *final(self) == *old(self),
            index < 2 && !(old(self).panes@[index as int].node is None && (view == PaneView::Editor
                || view == PaneView::Attachment)) ==> r is Ok && final(self).panes@ == old(
                self,
            ).panes@.update(index as int, PaneWorkspaceState { view, ..old(self).panes@[index as int] })
                && *final(self) == (WorkspacePreferences {
                panes: final(self).panes,
                focused_pane: index as u8,
                ..*old(self)
            }),
    {
        if index >= 2 {
            return Err(PaneError::InvalidPane);
        }
        let mut pane = self.panes[index];
        let needs_document = match view {
            PaneView::Editor | PaneView::Attachment => true,
            _ => false,
        };
        if pane.node.is_none() && needs_document {
            return Err(PaneError::NoDocument);
        }
        pane.view = view;
        self.panes.set(index, pane);
        self.focused_pane = index as u8;
        Ok(())
    }

    /// Moves the focus to the other pane when the split is shown, else to
    /// the first; returns the focused pane.
    pub fn focus_next_pane(&mut self) -> (focused: usize)
        ensures
            focused == final(self).focused_pane,
            *final(self) == (WorkspacePreferences {
                focused_pane: if old(self).split_enabled {
                    (1 - focused_index(*old(self))) as u8
                } else {
                    0
                },
                ..*old(self)
            }),
    {
        self.focused_pane = if self.split_enabled {
            if self.focused_pane < 1 {
                1
            } else {
                0
            }
        } else {
            0
        };
        self.focused_pane as usize
    }

    /// Focuses pane `index`.
    pub fn focus_pane(&mut self, index: usize) -> (r: Result<(), PaneError>)
        ensures
            index < 2 ==> r is Ok && *final(self) == (WorkspacePreferences {
                focused_pane: index as u8,
                ..*old(self)
            }),
            index >= 2 ==> r == Err::<(), PaneError>(PaneError::InvalidPane) && *final(self) == *old(
                self,
            ),
    {
        if index > 1 {
            return Err(PaneError::InvalidPane);
        }
        self.focused_pane = index as u8;
        Ok(())
    }

    /// Shows or hides the split, with its orientation and a ratio held
    /// between 100 and 900 thousandths.
    pub fn set_split(&mut self, enabled: bool, orientation: SplitOrientation, ratio_milli: u16)
        ensures
            *final(self) == (WorkspacePreferences {
                split_enabled: enabled,
                split_orientation: orientation,
                split_ratio_milli: clamped_ratio(ratio_milli),
                ..*old(self)
            }),
    {
        self.split_enabled = enabled;
        self.split_orientation = orientation;
        self.split_ratio_milli = if ratio_milli < 100 {
            100
        } else if ratio_milli > 900 {
            900
        } else {
            ratio_milli
        };
    }

    /// Empties pane `index` back to the outline; closing the second pane
    /// also hides the split and focuses the first.
    pub fn close_pane(&mut self, index: usize) -> (r: Result<(), PaneError>)
        ensures
            index >= 2 ==> r == Err::<(), PaneError>(PaneError::InvalidPane) && *final(self) == *old(
                self,
            ),
            index < 2 ==> r is Ok && final(self).panes@ == old(self).panes@.update(
                index as int,
                PaneWorkspaceState { view: PaneView::Outline, ..default_pane() },
            ) && *final(self) == (WorkspacePreferences {
                panes: final(self).panes,
                split_enabled: if index == 1 {
                    false
                } else {
                    old(self).split_enabled
                },
                focused_pane: if index == 1 {
                    0
                } else {
                    old(self).focused_pane
                },
                ..*old(self)
            }),
    {
        if index >= 2 {
            return Err(PaneError::InvalidPane);
        }
        let mut pane = PaneWorkspaceState::default();
        pane.view = PaneView::Outline;
        self.panes.set(index, pane);
        if index == 1 {
            self.split_enabled = false;
            self.focused_pane = 0;
        }
        Ok(())
    }

    /// Empties back to the outline every pane that shows one of `removed`
    /// (the nodes that went to the trash), and keeps the focus on a pane
    /// that exists.
    pub fn close_panes_showing(&mut self, removed: &Vec<u128>)
        ensures
            forall|i: int|
                0 <= i < 2 ==> #[trigger] final(self).panes@[i] == if old(self).panes@[i].node matches Some(
                    id,
                ) && removed@.contains(id) {
                    PaneWorkspaceState { view: PaneView::Outline, ..default_pane() }
                } else {
                    old(self).panes@[i]
                },
            *final(self) == (WorkspacePreferences {
                panes: final(self).panes,
                focused_pane: if old(self).focused_pane < 1 {
                    old(self).focused_pane
                } else {
                    1
                },
                ..*old(self)
            }),
    {
        let ghost start = *self;
        let mut i: usize = 0;
        while i < 2
            invariant
                i <= 2,
                forall|j: int|
                    0 <= j < i ==> #[trigger] self.panes@[j] == if start.panes@[j].node matches Some(
                        id,
                    ) && removed@.contains(id) {
                        PaneWorkspaceState { view: PaneView::Outline, ..default_pane() }
                    } else {
                        start.panes@[j]
                    },
                forall|j: int| i <= j < 2 ==> #[trigger] self.panes@[j] == start.panes@[j],
                *self == (WorkspacePreferences { panes: self.panes, ..start }),
            decreases 2 - i,
        {
            if let Some(id) = self.panes[i].node {
                if contains_id(removed, id) {
                    let mut pane = PaneWorkspaceState::default();
                    pane.view = PaneView::Outline;
                    self.panes.set(i, pane);
                }
            }
            i = i + 1;
        }
        if self.focused_pane > 1 {
            self.focused_pane = 1;
        }
    }

    /// Exchanges the two panes; the focus follows the pane it was on.
    pub fn swap_panes(&mut self)
        ensures
            final(self).panes@ == seq![old(self).panes@[1], old(self).panes@[0]],
            *final(self) == (WorkspacePreferences {
                panes: final(self).panes,
                focused_pane: (1 - focused_index(*old(self))) as u8,
                ..*old(self)
            }),
    {
        let first = self.panes[0];
        let second = self.panes[1];
        self.panes = [second, first];
        assert(self.panes@ =~= seq![second, first]);
        self.focused_pane = if self.focused_pane < 1 {
            1
        } else {
            0
        };
    }
}

} // verus!
