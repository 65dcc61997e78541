//! A window in repo mode: adding, probing, selecting and removing entries, and
//! the drags that reorder them.
//!
//! What only the application can do (spawn a probe, open a tab, write the
//! database) is returned for it to carry out.
use vstd::prelude::*;
use crate::entry;
use crate::entry::{
    canonicalize_repo_path, display_name_for_registry_path, parse_remote_key, RemoteTarget,
};
use crate::keys;
use crate::keys::{copy_keys, drop_key, holds, position};
use crate::listing;
use crate::listing::{FsReading, RepoList, RepoModeListEntry};
use crate::paths;
use crate::paths::{is_same_path, lists_path};
use crate::probe;
use crate::probe::{RemoteProbeFailure, RemoteProbeOutcome, RemoteProbeState};
use crate::projects;
use crate::projects::{
    canonicalize_registry_key, ProjectManagementModel, RegistryEffect, RegistryPath,
};
use crate::rows;
use crate::rows::{exchange_rows, merge_dragged_row, RepoModeRowDrag};
use crate::sessions;
use crate::stamps::Stamp;
use crate::tabs;
use crate::tabs::{holds_index, FeatureFlags, Tab, TabGroup, TabStrip};
use crate::text;
use crate::text::same_text;

verus! {

/// A window, as mathematical values.
pub struct WorkspaceView {
    pub flags: FeatureFlags,
    pub strip: tabs::TabStripView,
    pub list: listing::RepoListView,
    pub selected: Option<Seq<char>>,
}

/// A window in repo mode.
#[derive(Debug)]
pub struct Workspace {
    pub flags: FeatureFlags,
    pub strip: TabStrip,
    pub list: RepoList,
    /// The registry key of the selected entry; `None` shows all tabs.
    pub selected_repo_root: Option<String>,
}

impl View for Workspace {
    type V = WorkspaceView;

    open spec fn view(&self) -> WorkspaceView {
        WorkspaceView {
            flags: self.flags,
            strip: self.strip@,
            list: self.list@,
            selected: text::text_view(self.selected_repo_root),
        }
    }
}

/// A probe for the application to run, and what its result has to be handed back
/// with.
#[derive(Debug)]
pub struct ProbeRequest {
    pub target: RemoteTarget,
    pub key: String,
    pub generation: u64,
    /// The add form's token, for a probe that the form waits on.
    pub token: Option<u64>,
}

/// What became of a probe's result.
#[derive(Debug)]
pub enum ProbeLanding {
    /// The result was no longer wanted, and nothing was changed.
    Stale,
    /// The host confirmed the path and the registry holds the key it resolved
    /// to. The form closes when it was waiting on this probe.
    Committed { close_form: bool, effects: Vec<RegistryEffect> },
    /// An add failed: the form comes back with the reason.
    AddFailed { token: u64, failure: RemoteProbeFailure },
    /// An entry that is there already did not answer; it stays, marked so.
    ReprobeFailed,
}

/// Whether a group with the identity is bound to `key`.
pub open spec fn is_bound(groups: Seq<tabs::TabGroupView>, id: u64, key: Seq<char>) -> bool {
    exists|i: int|
        0 <= i < groups.len() && (#[trigger] groups[i]).id == id && groups[i].repo_root == Some(key)
}

/// A tab after the groups bound to `key` were dissolved.
pub open spec fn released(groups: Seq<tabs::TabGroupView>, key: Seq<char>, tab: Tab) -> Tab {
    match tab.group_id {
        Some(id) => if is_bound(groups, id, key) {
            Tab { group_id: None, ..tab }
        } else {
            tab
        },
        None => tab,
    }
}

/// The strip after the groups bound to `key` were dissolved: their tabs stay
/// open and become loose.
pub open spec fn ungrouped(strip: tabs::TabStripView, key: Seq<char>) -> tabs::TabStripView {
    tabs::TabStripView {
        tabs: strip.tabs.map_values(|tab: Tab| released(strip.groups, key, tab)),
        groups: strip.groups.filter(|g: tabs::TabGroupView| g.repo_root != Some(key)),
        ..strip
    }
}

/// A pin without `key`.
pub open spec fn unpinned(pin: Option<Seq<Seq<char>>>, key: Seq<char>) -> Option<Seq<Seq<char>>> {
    match pin {
        Some(keys) => Some(keys::without(keys, key)),
        None => None,
    }
}

impl WorkspaceView {
    /// The window after everything in it that points at `key` was cut loose.
    pub open spec fn detached(self, key: Seq<char>) -> WorkspaceView {
        WorkspaceView {
            flags: self.flags,
            strip: ungrouped(self.strip, key),
            list: listing::RepoListView { pin: unpinned(self.list.pin, key), ..self.list },
            selected: if self.selected == Some(key) {
                None
            } else {
                self.selected
            },
        }
    }

    /// The window after it forgot what it knew of a remote key.
    pub open spec fn forgot(self, key: Seq<char>) -> WorkspaceView {
        WorkspaceView {
            list: listing::RepoListView {
                probes: self.list.probes.forgotten(key),
                projected: self.list.projected.remove(key),
                pin: unpinned(self.list.pin, key),
                ..self.list
            },
            ..self
        }
    }

    /// The window after a row whose probe never succeeded was dropped. A
    /// registered key is no such row, and stays exactly as it is.
    pub open spec fn dropped_pending(
        self,
        registry: Seq<projects::ProjectView>,
        key: Seq<char>,
    ) -> WorkspaceView {
        if projects::registered(registry, key) {
            self
        } else {
            self.detached(key).forgot(key)
        }
    }

    /// The window waiting on `pending`. The probe of a key that it waited on
    /// before is no longer one that an add waits for.
    pub open spec fn waiting_on(self, pending: Option<Seq<char>>) -> WorkspaceView {
        WorkspaceView {
            list: listing::RepoListView {
                pending,
                probes: match self.list.pending {
                    Some(previous) => if pending == Some(previous) {
                        self.list.probes
                    } else {
                        self.list.probes.released(previous)
                    },
                    None => self.list.probes,
                },
                ..self.list
            },
            ..self
        }
    }

    /// The probes that an add waits for are those of the key the form waits on.
    pub open spec fn adds_through_form(self) -> bool {
        sessions::led_by(self.list.probes.sessions, self.list.pending)
    }

    /// The window with these probe sessions.
    pub open spec fn with_probes(self, probes: sessions::ProbeSessionsView) -> WorkspaceView {
        WorkspaceView { list: listing::RepoListView { probes, ..self.list }, ..self }
    }

    /// The window after the key a probe resolved was committed.
    pub open spec fn committed(self, probed: Seq<char>, resolved: Seq<char>) -> WorkspaceView {
        WorkspaceView {
            list: listing::RepoListView {
                projected: self.list.projected.remove(probed),
                probes: if probed == resolved {
                    self.list.probes
                } else {
                    self.list.probes.moved(probed, resolved)
                },
                pin: if probed == resolved {
                    self.list.pin
                } else {
                    renamed_pin(self.list.pin, probed, resolved)
                },
                ..self.list
            },
            ..self
        }
    }
}

/// The pin after the host expanded `probed` into `resolved`: the row keeps its
/// place, unless the pin holds the resolved key already.
pub open spec fn renamed_pin(
    pin: Option<Seq<Seq<char>>>,
    probed: Seq<char>,
    resolved: Seq<char>,
) -> Option<Seq<Seq<char>>> {
    match pin {
        Some(keys) => if keys.contains(probed) && !keys.contains(resolved) {
            Some(keys.update(keys::key_pos(keys, probed), resolved))
        } else {
            Some(keys::without(keys, probed))
        },
        None => None,
    }
}

/// Whether the key a probe was run under is retired once it resolved to another
/// one. A registered key is left alone, though it was probed under another
/// spelling of its path.
pub open spec fn retires(
    registry: Seq<projects::ProjectView>,
    probed: Seq<char>,
    resolved: Seq<char>,
) -> bool {
    probed != resolved && !(projects::registered(registry, resolved) && paths::same_path(
        probed,
        resolved,
    ))
}

/// The registry after the key a probe resolved was committed: the key it was
/// probed under is retired when it is another one, and the resolved key is
/// registered unless it was.
pub open spec fn committed_registry(
    registry: Seq<projects::ProjectView>,
    probed: Seq<char>,
    resolved: Seq<char>,
    now: Stamp,
) -> Seq<projects::ProjectView> {
    let kept = if retires(registry, probed, resolved) {
        projects::removed(registry, probed)
    } else {
        registry
    };
    if projects::registered(registry, resolved) {
        kept
    } else {
        projects::upserted(kept, resolved, now)
    }
}

/// What is to be done about it.
pub open spec fn commit_effects(
    registry: Seq<projects::ProjectView>,
    probed: Seq<char>,
    resolved: Seq<char>,
    now: Stamp,
) -> Seq<projects::RegistryEffectView> {
    let kept = if retires(registry, probed, resolved) {
        projects::removed(registry, probed)
    } else {
        registry
    };
    (if retires(registry, probed, resolved) {
        projects::remove_effects(registry, probed)
    } else {
        Seq::empty()
    }) + (if projects::registered(registry, resolved) {
        Seq::empty()
    } else {
        projects::upsert_effects(kept, resolved, now)
    })
}

/// The canonical path of a folder that was picked; `None` when none was, or when
/// it has no canonical form.
pub open spec fn canonical_pick(picked: Option<RegistryPath>) -> Option<Seq<char>> {
    match picked {
        Some(folder) => if entry::names_remote(folder.path@) {
            None
        } else {
            text::text_view(folder.resolved)
        },
        None => None,
    }
}

/// A registry path for a key that is canonical already.
fn settled_path(key: &str) -> (path: RegistryPath)
    ensures
        path.key() == key@,
{
    RegistryPath { path: key.to_owned(), resolved: None }
}

/// Registry key for a path: canonical for a local entry, verbatim for a remote
/// key, which names a directory on another machine and has no local form.
pub fn registry_key_path(path: RegistryPath) -> (key: String)
    ensures
        key@ == path.key(),
{
    canonicalize_registry_key(path)
}

proof fn lemma_filter_push<T>(items: Seq<T>, item: T, keep: spec_fn(T) -> bool)
    ensures
        items.push(item).filter(keep) == (if keep(item) {
            items.filter(keep).push(item)
        } else {
            items.filter(keep)
        }),
{
    reveal(Seq::filter);
    assert(items.push(item).drop_last() =~= items);
}

impl Workspace {
    /// The window's list is well formed.
    pub open spec fn wf(self) -> bool {
        self.list.wf()
    }

    /// Whether a group with the identity is bound to `key`.
    fn group_is_bound(&self, id: u64, key: &str) -> (bound: bool)
        ensures
            bound == is_bound(self@.strip.groups, id, key@),
    {
        let mut i: usize = 0;
        while i < self.strip.tab_groups.len()
            invariant
                i <= self.strip.tab_groups@.len(),
                forall|j: int|
                    0 <= j < i ==> !((#[trigger] self@.strip.groups[j]).id == id
                        && self@.strip.groups[j].repo_root == Some(key@)),
            decreases self.strip.tab_groups@.len() - i,
        {
            assert(self@.strip.groups[i as int] == self.strip.tab_groups@[i as int]@);
            let group = &self.strip.tab_groups[i];
            if group.id == id {
                if let Some(root) = &group.repo_root {
                    if same_text(root.as_str(), key) {
                        return true;
                    }
                }
            }
            i += 1;
        }
        false
    }

    /// Dissolve the groups bound to `key`.
    fn ungroup_key(&mut self, key: &str)
        ensures
            final(self)@ == (WorkspaceView {
                strip: ungrouped(old(self)@.strip, key@),
                ..old(self)@
            }),
            final(self).list == old(self).list,
    {
        let ghost strip = self@.strip;
        let mut i: usize = 0;
        while i < self.strip.tabs.len()
            invariant
                i <= self.strip.tabs@.len(),
                self.strip.tabs@.len() == strip.tabs.len(),
                self.list == old(self).list,
                self.flags == old(self).flags,
                self.selected_repo_root == old(self).selected_repo_root,
                self@.strip == (tabs::TabStripView { tabs: self.strip.tabs@, ..strip }),
                forall|j: int|
                    0 <= j < i ==> #[trigger] self.strip.tabs@[j] == released(
                        strip.groups,
                        key@,
                        strip.tabs[j],
                    ),
                forall|j: int|
                    i <= j < strip.tabs.len() ==> #[trigger] self.strip.tabs@[j] == strip.tabs[j],
            decreases self.strip.tabs@.len() - i,
        {
            let mut tab = self.strip.tabs[i];
            if let Some(id) = tab.group_id {
                if self.group_is_bound(id, key) {
                    tab.group_id = None;
                    self.strip.tabs.set(i, tab);
                }
            }
            i += 1;
        }
        let ghost keep = |g: tabs::TabGroupView| g.repo_root != Some(key@);
        let mut groups: Vec<TabGroup> = Vec::new();
        let mut remaining: Vec<TabGroup> = Vec::new();
        std::mem::swap(&mut remaining, &mut self.strip.tab_groups);
        let ghost mut done: int = 0;
        proof {
            reveal(Seq::filter);
            assert(strip.groups.take(0) =~= Seq::<tabs::TabGroupView>::empty());
            assert(tabs::groups_view(groups@) =~= strip.groups.take(0).filter(keep));
            assert(strip.groups.skip(0) =~= strip.groups);
        }
        while remaining.len() > 0
            invariant
                0 <= done <= strip.groups.len(),
                keep == (|g: tabs::TabGroupView| g.repo_root != Some(key@)),
                tabs::groups_view(remaining@) == strip.groups.skip(done),
                tabs::groups_view(groups@) == strip.groups.take(done).filter(keep),
            decreases remaining@.len(),
        {
            let ghost was = remaining@;
            let ghost before = tabs::groups_view(groups@);
            assert(tabs::groups_view(was).len() == was.len());
            assert(strip.groups.skip(done)[0] == was[0]@);
            let group = remaining.remove(0);
            assert forall|k: int| 0 <= k < remaining@.len() implies tabs::groups_view(
                remaining@,
            )[k] == strip.groups.skip(done + 1)[k] by {
                assert(remaining@[k] == was[k + 1]);
                assert(tabs::groups_view(was)[k + 1] == strip.groups.skip(done)[k + 1]);
            }
            assert(tabs::groups_view(remaining@) =~= strip.groups.skip(done + 1));
            let bound = match &group.repo_root {
                Some(root) => same_text(root.as_str(), key),
                None => false,
            };
            proof {
                assert(strip.groups.take(done + 1) =~= strip.groups.take(done).push(group@));
                lemma_filter_push(strip.groups.take(done), group@, keep);
            }
            if !bound {
                let ghost added = group@;
                groups.push(group);
                assert(tabs::groups_view(groups@) =~= before.push(added));
            }
            proof {
                done = done + 1;
            }
        }
        assert(tabs::groups_view(remaining@).len() == 0);
        assert(strip.groups.take(done) =~= strip.groups);
        self.strip.tab_groups = groups;
        assert(self@.strip.tabs =~= ungrouped(strip, key@).tabs);
    }

    /// Cut a registry key loose from everything in this window that points at
    /// it: its bound group, the selection, and the session pin, so that a later
    /// re-add appends at the end.
    pub fn detach_repo_mode_key(&mut self, key: &str)
        requires
            old(self).wf(),
        ensures
            final(self).wf(),
            final(self)@ == old(self)@.detached(key@),
    {
        self.ungroup_key(key);
        let selected = match &self.selected_repo_root {
            Some(root) => same_text(root.as_str(), key),
            None => false,
        };
        if selected {
            self.selected_repo_root = None;
        }
        self.unpin(key);
    }

    /// Drop a key from the session pin.
    fn unpin(&mut self, key: &str)
        requires
            old(self).wf(),
        ensures
            final(self).wf(),
            final(self)@ == (WorkspaceView {
                list: listing::RepoListView {
                    pin: unpinned(old(self)@.list.pin, key@),
                    ..old(self)@.list
                },
                ..old(self)@
            }),
    {
        if let Some(pin) = self.list.launch_order.take() {
            proof {
                keys::lemma_without(text::texts(pin@), key@);
            }
            self.list.launch_order = Some(drop_key(&pin, key));
        }
    }

    /// Drop a key from the marks of rows shown connecting.
    fn unmark(&mut self, key: &str)
        requires
            old(self).wf(),
        ensures
            final(self).wf(),
            final(self)@ == (WorkspaceView {
                list: listing::RepoListView {
                    projected: old(self)@.list.projected.remove(key@),
                    ..old(self)@.list
                },
                ..old(self)@
            }),
    {
        let ghost marked = text::texts(self.list.projected_unverified@);
        proof {
            keys::lemma_without(marked, key@);
        }
        let kept = drop_key(&self.list.projected_unverified, key);
        assert(text::texts(kept@).to_set() =~= marked.to_set().remove(key@));
        self.list.projected_unverified = kept;
    }

    /// Forget what this window knows of a remote key.
    pub fn forget_remote_key(&mut self, key: &str)
        requires
            old(self).wf(),
        ensures
            final(self).wf(),
            final(self)@ == old(self)@.forgot(key@),
    {
        self.list.probes.forget(key);
        self.unmark(key);
        self.unpin(key);
    }

    /// Drop a row whose probe never succeeded. Nothing was persisted for it, but
    /// it was shown and could be clicked, so it can have collected a selection
    /// and a bound group like any other row. A registered key is left alone: a
    /// failed re-add says that the host is unreachable right now, which is no
    /// ground to delete the entry.
    pub fn drop_pending_remote_entry(&mut self, key: &str, registry: &ProjectManagementModel)
        requires
            old(self).wf(),
        ensures
            final(self).wf(),
            final(self)@ == old(self)@.dropped_pending(registry@, key@),
    {
        if registry.contains_key(key) {
            return;
        }
        self.detach_repo_mode_key(key);
        self.forget_remote_key(key);
    }

    /// Stop waiting on the key the add form waits on, and return it.
    fn stop_waiting(&mut self) -> (previous: Option<String>)
        requires
            old(self).wf(),
        ensures
            final(self).wf(),
            final(self)@ == old(self)@.waiting_on(None),
            text::text_view(previous) == old(self)@.list.pending,
    {
        let previous = self.list.pending_remote_key.take();
        if let Some(key) = &previous {
            self.list.probes.release(key.as_str());
        }
        previous
    }

    /// Close the add form: the connection it waits on is no longer wanted.
    pub fn close_remote_connection_modal(&mut self, registry: &ProjectManagementModel)
        requires
            old(self).wf(),
        ensures
            final(self).wf(),
            final(self)@ == (match old(self)@.list.pending {
                Some(key) => old(self)@.waiting_on(None).dropped_pending(registry@, key),
                None => old(self)@,
            }),
    {
        if let Some(key) = self.stop_waiting() {
            self.drop_pending_remote_entry(key.as_str(), registry);
        }
    }
}

/// What the application reads before it asks for the list: the filesystem, the
/// clock of those readings in milliseconds, and the present instant.
#[derive(Debug)]
pub struct Frame {
    pub readings: Vec<FsReading>,
    pub clock: u64,
    pub now: Stamp,
}

impl Frame {
    /// The readings as mathematical values.
    pub open spec fn taken(self) -> Seq<listing::FsReadingView> {
        listing::readings_view(self.readings@)
    }
}

impl WorkspaceView {
    /// The window after its list was drawn.
    pub open spec fn drawn(
        self,
        registry: Seq<projects::ProjectView>,
        frame: Frame,
    ) -> WorkspaceView {
        if self.flags.repo_mode {
            WorkspaceView {
                list: listing::drawn_list(
                    self.list,
                    registry,
                    frame.taken(),
                    frame.clock,
                    frame.now,
                ),
                ..self
            }
        } else {
            self
        }
    }

    /// The rows of the list; none with repo mode off.
    pub open spec fn entries(
        self,
        registry: Seq<projects::ProjectView>,
        frame: Frame,
    ) -> Seq<listing::ListEntryView> {
        if self.flags.repo_mode {
            listing::drawn_entries(self.list, registry, frame.taken(), frame.clock, frame.now)
        } else {
            Seq::empty()
        }
    }

    /// The keys of the rows.
    pub open spec fn entry_paths(
        self,
        registry: Seq<projects::ProjectView>,
        frame: Frame,
    ) -> Seq<Seq<char>> {
        listing::entry_keys(self.entries(registry, frame))
    }

    /// The tabs shown under the selection; `None` shows all.
    pub open spec fn visible(
        self,
        registry: Seq<projects::ProjectView>,
        frame: Frame,
    ) -> Option<Seq<usize>> {
        match self.selected {
            Some(selected) => if self.flags.repo_mode && paths::lists(
                self.entry_paths(registry, frame),
                selected,
            ) {
                Some(self.strip.members(self.entry_paths(registry, frame), selected))
            } else {
                None
            },
            None => None,
        }
    }

    /// The window after the tabs shown were worked out: that draws the list
    /// when an entry is selected.
    pub open spec fn looked(
        self,
        registry: Seq<projects::ProjectView>,
        frame: Frame,
    ) -> WorkspaceView {
        if self.selected is Some {
            self.drawn(registry, frame)
        } else {
            self
        }
    }

    /// The window after an add form was submitted for `target`: a connection
    /// submitted before is dropped unless it is the same one, and the new one is
    /// probed anew.
    pub open spec fn submitted(
        self,
        registry: Seq<projects::ProjectView>,
        target: entry::RemoteTargetView,
    ) -> WorkspaceView {
        let key = entry::remote_key(target);
        let cleared = self.superseded(registry, key);
        cleared.with_probes(cleared.list.probes.restarted(key)).waiting_on(Some(key))
    }

    /// The window after the connection the form waited on was given up for
    /// `key`.
    pub open spec fn superseded(
        self,
        registry: Seq<projects::ProjectView>,
        key: Seq<char>,
    ) -> WorkspaceView {
        match self.list.pending {
            Some(previous) => if previous != key {
                self.waiting_on(None).dropped_pending(registry, previous)
            } else {
                self.waiting_on(None)
            },
            None => self,
        }
    }
}

impl Workspace {
    /// The rows of the Repositories list.
    pub fn repo_mode_entries(&mut self, registry: &ProjectManagementModel, frame: &Frame) -> (
    entries: Vec<RepoModeListEntry>)
        requires
            old(self).wf(),
            registry.wf(),
        ensures
            final(self).wf(),
            listing::entries_view(entries@) == old(self)@.entries(registry@, *frame),
            final(self)@ == old(self)@.drawn(registry@, *frame),
    {
        let enabled = self.flags.repo_mode;
        let entries = self.list.repo_mode_entries(
            enabled,
            registry,
            &frame.readings,
            frame.clock,
            frame.now,
        );
        assert(!enabled ==> listing::entries_view(entries@) =~= Seq::empty());
        entries
    }

    /// The keys of the rows.
    pub fn repo_mode_entry_paths(&mut self, registry: &ProjectManagementModel, frame: &Frame) -> (
    paths: Vec<String>)
        requires
            old(self).wf(),
            registry.wf(),
        ensures
            final(self).wf(),
            text::texts(paths@) == old(self)@.entry_paths(registry@, *frame),
            final(self)@ == old(self)@.drawn(registry@, *frame),
    {
        let entries = self.repo_mode_entries(registry, frame);
        let mut paths: Vec<String> = Vec::new();
        let mut i: usize = 0;
        while i < entries.len()
            invariant
                i <= entries@.len(),
                paths@.len() == i,
                forall|j: int| 0 <= j < i ==> paths@[j]@ == entries@[j].path@,
            decreases entries@.len() - i,
        {
            paths.push(entries[i].path.clone());
            i += 1;
        }
        assert(text::texts(paths@) =~= listing::entry_keys(listing::entries_view(entries@)));
        paths
    }

    /// Tabs visible under the current selection, by the display partition: all
    /// (`None`) with no selection, with repo mode off, and when the selected
    /// entry is no longer listed. A selected entry with no tabs yields an empty
    /// list, never unrelated tabs.
    pub fn repo_mode_visible_tab_indices(
        &mut self,
        registry: &ProjectManagementModel,
        frame: &Frame,
    ) -> (visible: Option<Vec<usize>>)
        requires
            old(self).wf(),
            registry.wf(),
        ensures
            final(self).wf(),
            final(self)@ == old(self)@.looked(registry@, *frame),
            match (visible, old(self)@.visible(registry@, *frame)) {
                (Some(indices), Some(expected)) => indices@ == expected,
                (None, None) => true,
                _ => false,
            },
    {
        if !self.flags.repo_mode {
            return None;
        }
        let selected = match &self.selected_repo_root {
            Some(root) => root.clone(),
            None => {
                return None;
            },
        };
        let paths = self.repo_mode_entry_paths(registry, frame);
        if !lists_path(&paths, selected.as_str()) {
            return None;
        }
        let partition = self.strip.repo_mode_tab_partition(&paths);
        Some(partition.members(selected.as_str()))
    }

    /// Bound tab-group id for the current selection, if any.
    pub fn selected_repo_mode_group_id(&self) -> (id: Option<u64>)
        ensures
            id == (match self@.selected {
                Some(selected) => self@.strip.bound_group(selected),
                None => None,
            }),
    {
        match &self.selected_repo_root {
            Some(selected) => self.strip.bound_group(selected.as_str()),
            None => None,
        }
    }

    /// Give up the selection and show all tabs.
    pub fn select_repo_mode_all(&mut self)
        requires
            old(self).wf(),
        ensures
            final(self).wf(),
            final(self)@ == (if old(self)@.flags.repo_mode {
                WorkspaceView { selected: None, ..old(self)@ }
            } else {
                old(self)@
            }),
    {
        if self.flags.repo_mode {
            self.selected_repo_root = None;
        }
    }

    /// Collapse the selection when the active tab lives outside of it, so that
    /// the filtered strip always contains the active tab. To be called on every
    /// activation.
    pub fn sync_repo_mode_selection_to_active_tab(
        &mut self,
        registry: &ProjectManagementModel,
        frame: &Frame,
    )
        requires
            old(self).wf(),
            registry.wf(),
        ensures
            final(self).wf(),
            final(self)@ == ({
                let looked = old(self)@.looked(registry@, *frame);
                match old(self)@.visible(registry@, *frame) {
                    Some(visible) => if visible.contains(old(self)@.strip.active) {
                        looked
                    } else {
                        WorkspaceView { selected: None, ..looked }
                    },
                    None => looked,
                }
            }),
    {
        if let Some(visible) = self.repo_mode_visible_tab_indices(registry, frame) {
            if !holds_index(&visible, self.strip.active_tab_index) {
                self.selected_repo_root = None;
            }
        }
    }

    /// Show the connection as a pending row at once, and ask for a probe of the
    /// host. The row lives in the probe session, not in the registry: only a
    /// host that answered is registered.
    pub fn add_remote_repo_mode_entry(
        &mut self,
        token: u64,
        target: RemoteTarget,
        registry: &ProjectManagementModel,
    ) -> (request: Option<ProbeRequest>)
        requires
            old(self).wf(),
        ensures
            final(self).wf(),
            match request {
                Some(wanted) => {
                    &&& old(self)@.flags.repo_mode
                    &&& wanted.target@ == target@
                    &&& wanted.key@ == entry::remote_key(target@)
                    &&& wanted.generation == sessions::next_generation(
                        old(self)@.list.probes.generation,
                    )
                    &&& wanted.token == Some(token)
                    &&& final(self)@ == old(self)@.submitted(registry@, target@)
                },
                None => !old(self)@.flags.repo_mode && final(self)@ == old(self)@,
            },
    {
        if !self.flags.repo_mode {
            return None;
        }
        let key = target.key();
        if let Some(previous) = self.stop_waiting() {
            if !same_text(previous.as_str(), key.as_str()) {
                self.drop_pending_remote_entry(previous.as_str(), registry);
            }
        }
        assert(self@ == old(self)@.superseded(registry@, key@));
        let generation = self.list.probes.restart_remote_probe(key.as_str());
        self.list.pending_remote_key = Some(key.clone());
        Some(ProbeRequest { target, key, generation, token: Some(token) })
    }

    /// Refresh a remote entry by use: entries are not polled. Nothing is asked
    /// for while a probe of the key is running.
    pub fn reprobe_remote_entry(&mut self, target: RemoteTarget) -> (request: Option<ProbeRequest>)
        requires
            old(self).wf(),
        ensures
            final(self).wf(),
            ({
                let key = entry::remote_key(target@);
                match request {
                    Some(wanted) => {
                        &&& !old(self)@.list.probes.in_flight(key)
                        &&& wanted.target@ == target@
                        &&& wanted.key@ == key
                        &&& wanted.generation == sessions::next_generation(
                            old(self)@.list.probes.generation,
                        )
                        &&& wanted.token is None
                        &&& final(self)@ == old(self)@.with_probes(
                            old(self)@.list.probes.begun(key),
                        )
                    },
                    None => old(self)@.list.probes.in_flight(key) && final(self)@ == old(self)@,
                }
            }),
    {
        let key = target.key();
        match self.list.probes.begin_remote_probe(key.as_str()) {
            Some(generation) => Some(ProbeRequest { target, key, generation, token: None }),
            None => None,
        }
    }

    /// Register the key a probe resolved, retiring the key it was probed under
    /// when the host expanded the path to something else. A key that is
    /// registered is left alone: confirming that an entry is reachable is not
    /// the user opening it.
    pub fn commit_remote_key(
        &mut self,
        probed: &str,
        resolved: &str,
        registry: &mut ProjectManagementModel,
        now: Stamp,
    ) -> (effects: Vec<RegistryEffect>)
        requires
            old(self).wf(),
            old(registry).wf(),
        ensures
            final(self).wf(),
            final(registry).wf(),
            final(self)@ == old(self)@.committed(probed@, resolved@),
            final(registry)@ == committed_registry(old(registry)@, probed@, resolved@, now),
            projects::effects_view(effects@) == commit_effects(
                old(registry)@,
                probed@,
                resolved@,
                now,
            ),
    {
        let registered = registry.contains_key(resolved);
        let same = same_text(probed, resolved);
        let mut effects: Vec<RegistryEffect> = Vec::new();
        if !same && !(registered && is_same_path(probed, resolved)) {
            effects = registry.remove_project(settled_path(probed));
        }
        assert(projects::effects_view(effects@) =~= (if retires(
            old(registry)@,
            probed@,
            resolved@,
        ) {
            projects::remove_effects(old(registry)@, probed@)
        } else {
            Seq::empty()
        }));
        if !registered {
            let ghost before = effects@;
            let mut more = registry.upsert_project_at(settled_path(resolved), now);
            let ghost added = more@;
            effects.append(&mut more);
            assert(projects::effects_view(effects@) =~= projects::effects_view(before)
                + projects::effects_view(added));
        }
        assert(projects::effects_view(effects@) =~= commit_effects(
            old(registry)@,
            probed@,
            resolved@,
            now,
        ));
        self.unmark(probed);
        if !same {
            self.list.probes.move_session(probed, resolved);
            if let Some(pin) = self.list.launch_order.take() {
                let ghost keys = text::texts(pin@);
                proof {
                    keys::lemma_without(keys, probed@);
                    keys::lemma_key_pos(keys, probed@);
                }
                let renamed = match position(&pin, probed) {
                    Some(at) if !holds(&pin, resolved) => {
                        let mut kept = copy_keys(&pin);
                        let ghost copied = kept@;
                        kept.set(at, resolved.to_owned());
                        proof {
                            let after = text::texts(kept@);
                            assert(after =~= text::texts(copied).update(at as int, resolved@));
                            assert(after =~= keys.update(at as int, resolved@));
                            assert forall|i: int, j: int|
                                0 <= i < after.len() && 0 <= j < after.len() && i
                                    != j implies after[i] != after[j] by {
                                assert(keys.contains(keys[i]) && keys.contains(keys[j]));
                            }
                        }
                        kept
                    },
                    _ => drop_key(&pin, probed),
                };
                self.list.launch_order = Some(renamed);
            }
        }
        effects
    }

    /// Land a probe result on the registry, the probe session, and (for an
    /// add-time probe) the form.
    ///
    /// A result whose generation no longer owns the key is dropped without
    /// touching anything: the entry was removed, re-added, or reprobed while the
    /// probe was running. The registry is written only for a path that the host
    /// confirmed.
    pub fn apply_remote_probe_result(
        &mut self,
        target: &RemoteTarget,
        probed_key: &str,
        generation: u64,
        token: Option<u64>,
        result: Result<RemoteProbeOutcome, RemoteProbeFailure>,
        registry: &mut ProjectManagementModel,
        now: Stamp,
    ) -> (landing: ProbeLanding)
        requires
            old(self).wf(),
            old(registry).wf(),
        ensures
            final(self).wf(),
            final(registry).wf(),
            match result_view(result) {
                _ if !old(self)@.list.probes.entitled(probed_key@, generation) => {
                    &&& landing is Stale
                    &&& final(self)@ == old(self)@
                    &&& final(registry)@ == old(registry)@
                },
                Ok(probe::ProbeOutcomeView::Found { remote_path, kind, branch }) => {
                    let resolved = entry::remote_key(
                        entry::RemoteTargetView { remote_path, ..target@ },
                    );
                    let landed = old(self)@.with_probes(
                        old(self)@.list.probes.landed(
                            probed_key@,
                            probe::ProbeStateView::Resolved { kind, branch },
                        ),
                    ).committed(probed_key@, resolved);
                    &&& landing is Committed
                    &&& landing->close_form == (token is Some)
                    &&& projects::effects_view(landing->effects@) == commit_effects(
                        old(registry)@,
                        probed_key@,
                        resolved,
                        now,
                    )
                    &&& final(registry)@ == committed_registry(
                        old(registry)@,
                        probed_key@,
                        resolved,
                        now,
                    )
                    &&& final(self)@ == (if token is Some {
                        landed.waiting_on(None)
                    } else {
                        landed
                    })
                },
                _ => {
                    let failure = failure_of(result_view(result));
                    let landed = old(self)@.with_probes(
                        old(self)@.list.probes.landed(
                            probed_key@,
                            probe::ProbeStateView::Failed { reason: failure },
                        ),
                    );
                    &&& final(registry)@ == old(registry)@
                    &&& match token {
                        Some(form) => {
                            &&& landing is AddFailed
                            &&& landing->token == form
                            &&& landing->failure == failure
                            &&& final(self)@ == landed.waiting_on(
                                if landed.list.pending == Some(probed_key@) {
                                    None
                                } else {
                                    landed.list.pending
                                },
                            ).dropped_pending(old(registry)@, probed_key@)
                        },
                        None => landing is ReprobeFailed && final(self)@ == landed,
                    }
                },
            },
    {
        let failure = match result {
            Ok(RemoteProbeOutcome::Found { remote_path, kind, branch }) => {
                let mut resolved = target.clone();
                resolved.remote_path = remote_path;
                let resolved_key = resolved.key();
                if !self.list.probes.finish_remote_probe(
                    probed_key,
                    generation,
                    RemoteProbeState::Resolved { kind, branch },
                ) {
                    return ProbeLanding::Stale;
                }
                let effects = self.commit_remote_key(
                    probed_key,
                    resolved_key.as_str(),
                    registry,
                    now,
                );
                if token.is_some() {
                    self.stop_waiting();
                }
                return ProbeLanding::Committed { close_form: token.is_some(), effects };
            },
            Ok(RemoteProbeOutcome::Missing) => RemoteProbeFailure::PathNotFound,
            Err(failure) => failure,
        };
        if !self.list.probes.finish_remote_probe(
            probed_key,
            generation,
            RemoteProbeState::Failed { reason: failure },
        ) {
            return ProbeLanding::Stale;
        }
        match token {
            Some(form) => {
                let waiting = match &self.list.pending_remote_key {
                    Some(key) => same_text(key.as_str(), probed_key),
                    None => false,
                };
                if waiting {
                    self.stop_waiting();
                }
                self.drop_pending_remote_entry(probed_key, registry);
                ProbeLanding::AddFailed { token: form, failure }
            },
            None => ProbeLanding::ReprobeFailed,
        }
    }

    /// Remove an entry, and everything in this window that points at it.
    pub fn remove_repo_mode_entry(
        &mut self,
        path: RegistryPath,
        registry: &mut ProjectManagementModel,
    ) -> (effects: Vec<RegistryEffect>)
        requires
            old(self).wf(),
            old(registry).wf(),
        ensures
            final(self).wf(),
            final(registry).wf(),
            final(self)@ == (if old(self)@.flags.repo_mode {
                old(self)@.without_entry(path.key())
            } else {
                old(self)@
            }),
            final(registry)@ == (if old(self)@.flags.repo_mode {
                projects::removed(old(registry)@, path.key())
            } else {
                old(registry)@
            }),
            projects::effects_view(effects@) == (if old(self)@.flags.repo_mode {
                projects::remove_effects(old(registry)@, path.key())
            } else {
                Seq::empty()
            }),
    {
        if !self.flags.repo_mode {
            let effects: Vec<RegistryEffect> = Vec::new();
            assert(projects::effects_view(effects@) =~= Seq::empty());
            return effects;
        }
        let key = registry_key_path(path);
        self.detach_repo_mode_key(key.as_str());
        self.list.forget_reading(key.as_str());
        self.forget_remote_key(key.as_str());
        registry.remove_project(settled_path(key.as_str()))
    }
}

/// A probe result, as mathematical values.
pub open spec fn result_view(result: Result<RemoteProbeOutcome, RemoteProbeFailure>) -> Result<
    probe::ProbeOutcomeView,
    RemoteProbeFailure,
> {
    match result {
        Ok(outcome) => Ok(outcome@),
        Err(failure) => Err(failure),
    }
}

/// Why a probe that found nothing failed: a missing path is a failure too.
pub open spec fn failure_of(
    result: Result<probe::ProbeOutcomeView, RemoteProbeFailure>,
) -> RemoteProbeFailure {
    match result {
        Ok(_) => RemoteProbeFailure::PathNotFound,
        Err(failure) => failure,
    }
}

impl WorkspaceView {
    /// The window without an entry.
    pub open spec fn without_entry(self, key: Seq<char>) -> WorkspaceView {
        let detached = self.detached(key);
        WorkspaceView {
            list: listing::RepoListView {
                fs_cache: listing::forgotten_reading(detached.list.fs_cache, key),
                ..detached.list
            },
            ..detached
        }.forgot(key)
    }
}

/// What a dropped row comes to.
#[derive(Debug)]
pub enum DropOutcome {
    /// Nothing is written: there was no such drag, or the row is on the same
    /// side of every other row as when the drag started.
    Nothing,
    /// The list that the row was dragged on is stale: another window has reset
    /// the order. This window's pin is given up instead of replayed.
    Discarded,
    /// The manual order to hand to the registry.
    Write { order: Vec<String> },
}

/// What a dropped row comes to, as a mathematical value.
pub enum DropView {
    Nothing,
    Discarded,
    Write { order: Seq<Seq<char>> },
}

impl View for DropOutcome {
    type V = DropView;

    open spec fn view(&self) -> DropView {
        match *self {
            DropOutcome::Nothing => DropView::Nothing,
            DropOutcome::Discarded => DropView::Discarded,
            DropOutcome::Write { order } => DropView::Write { order: text::texts(order@) },
        }
    }
}

impl WorkspaceView {
    /// What dropping the row of `path` comes to, and the window after it.
    pub open spec fn dropped(self, registry: Seq<projects::ProjectView>, path: Seq<char>) -> (
        DropView,
        WorkspaceView,
    ) {
        let stored = projects::stored_order(registry);
        if !self.flags.repo_mode {
            (DropView::Nothing, self)
        } else if !self.drag_counts(path) {
            (DropView::Nothing, self.let_go())
        } else if stored.len() == 0 && self.list.saw_stored_order {
            (DropView::Discarded, self.let_go().unordered())
        } else {
            let pin = self.list.pin->0;
            (
                DropView::Write { order: rows::merged_order(stored, pin, keys::key_pos(pin, path)) },
                self.let_go(),
            )
        }
    }

    /// The window after the row of `path` was picked up.
    pub open spec fn picked_up(self, path: Seq<char>) -> WorkspaceView {
        WorkspaceView {
            list: listing::RepoListView {
                row_drag: Some(rows::RowDragView { path, passed_rows: Set::empty() }),
                ..self.list
            },
            ..self
        }
    }

    /// Whether both rows are in the pin.
    pub open spec fn both_pinned(self, dragged: Seq<char>, neighbor: Seq<char>) -> bool {
        self.list.pin matches Some(pin) && pin.contains(dragged) && pin.contains(neighbor)
    }

    /// The window after two rows of the pin exchanged places, as far as both are
    /// there; the drag in flight notes which row it passed.
    pub open spec fn swapped(self, dragged: Seq<char>, neighbor: Seq<char>) -> WorkspaceView {
        if !self.both_pinned(dragged, neighbor) {
            self
        } else {
            let pin = self.list.pin->0;
            WorkspaceView {
                list: listing::RepoListView {
                    pin: Some(
                        keys::exchanged(
                            pin,
                            keys::key_pos(pin, dragged),
                            keys::key_pos(pin, neighbor),
                        ),
                    ),
                    row_drag: match self.list.row_drag {
                        Some(drag) => if paths::same_path(drag.path, dragged) {
                            Some(
                                rows::RowDragView {
                                    passed_rows: rows::toggled(drag.passed_rows, neighbor),
                                    ..drag
                                },
                            )
                        } else {
                            Some(drag)
                        },
                        None => None,
                    },
                    ..self.list
                },
                ..self
            }
        }
    }

    /// The window with no drag in flight.
    pub open spec fn let_go(self) -> WorkspaceView {
        WorkspaceView { list: listing::RepoListView { row_drag: None, ..self.list }, ..self }
    }

    /// The window with no pin, as before its first drawing.
    pub open spec fn unordered(self) -> WorkspaceView {
        WorkspaceView {
            list: listing::RepoListView { pin: None, saw_stored_order: false, ..self.list },
            ..self
        }
    }

    /// Whether the drag in flight is one of `path` that has moved it past some
    /// row, on a list that still has it.
    pub open spec fn drag_counts(self, path: Seq<char>) -> bool {
        &&& self.list.row_drag matches Some(drag) && paths::same_path(drag.path, path)
            && drag.passed_rows != Set::<Seq<char>>::empty()
        &&& self.list.pin matches Some(pin) && pin.contains(path)
    }
}

impl Workspace {
    /// A repository row's drag crossed the threshold, or a move arrived for a
    /// row that no drag was started for: the drag is tracked from here. The list
    /// is resolved for it, so that there is a pin for the rows to move in.
    pub fn start_repo_mode_entry_drag(
        &mut self,
        path: &str,
        registry: &ProjectManagementModel,
        frame: &Frame,
    )
        requires
            old(self).wf(),
            registry.wf(),
        ensures
            final(self).wf(),
            final(self)@ == (if old(self)@.flags.repo_mode {
                old(self)@.drawn(registry@, *frame).picked_up(path@)
            } else {
                old(self)@
            }),
    {
        if self.flags.repo_mode {
            let _rows = self.repo_mode_entries(registry, frame);
            self.list.row_drag = Some(RepoModeRowDrag::new(path.to_owned()));
        }
    }

    /// Whether a drag of `path` is in flight.
    pub fn is_dragging(&self, path: &str) -> (dragging: bool)
        ensures
            dragging == (self@.list.row_drag matches Some(drag) && paths::same_path(
                drag.path,
                path@,
            )),
    {
        match &self.list.row_drag {
            Some(drag) => is_same_path(drag.path.as_str(), path),
            None => false,
        }
    }

    /// One frame of a repository-row drag: swap the dragged row with the
    /// neighbour it has passed, if any, and return that neighbour. The swap
    /// lands in this window's pin, so the new order shows at once.
    ///
    /// `above_passed` and `below_passed` are the frame's geometry, as
    /// [`rows::repo_mode_row_swap_target`] takes it. A move with no matching
    /// start only starts the drag.
    pub fn drag_repo_mode_entry(
        &mut self,
        path: &str,
        above_passed: bool,
        below_passed: bool,
        registry: &ProjectManagementModel,
        frame: &Frame,
    ) -> (passed: Option<String>)
        requires
            old(self).wf(),
            registry.wf(),
        ensures
            final(self).wf(),
            ({
                let before = old(self)@;
                let drawn = before.drawn(registry@, *frame);
                let paths = before.entry_paths(registry@, *frame);
                let target = swap_target(paths, path@, above_passed, below_passed);
                if !before.flags.repo_mode {
                    passed is None && final(self)@ == before
                } else if !(before.list.row_drag matches Some(drag) && paths::same_path(
                    drag.path,
                    path@,
                )) {
                    passed is None && final(self)@ == drawn.picked_up(path@)
                } else {
                    match target {
                        Some(index) => {
                            &&& final(self)@ == drawn.swapped(path@, paths[index])
                            &&& text::text_view(passed) == (if drawn.both_pinned(
                                path@,
                                paths[index],
                            ) {
                                Some(paths[index])
                            } else {
                                None
                            })
                        },
                        None => passed is None && final(self)@ == drawn,
                    }
                }
            }),
    {
        if !self.flags.repo_mode {
            return None;
        }
        if !self.is_dragging(path) {
            self.start_repo_mode_entry_drag(path, registry, frame);
            return None;
        }
        let paths = self.repo_mode_entry_paths(registry, frame);
        match rows::repo_mode_row_swap_target(&paths, path, above_passed, below_passed) {
            Some(index) => {
                assert(text::texts(paths@)[index as int] == paths@[index as int]@);
                let neighbor = paths[index].clone();
                if self.swap_repo_mode_pinned_rows(path, neighbor.as_str()) {
                    Some(neighbor)
                } else {
                    None
                }
            },
            None => None,
        }
    }

    /// Swap two repository rows inside this window's pin. Returns whether the
    /// pin changed. A swap that lands is recorded on the drag in flight.
    pub fn swap_repo_mode_pinned_rows(&mut self, dragged: &str, neighbor: &str) -> (swapped: bool)
        requires
            old(self).wf(),
        ensures
            final(self).wf(),
            swapped == old(self)@.both_pinned(dragged@, neighbor@),
            final(self)@ == old(self)@.swapped(dragged@, neighbor@),
    {
        let mut pin = match self.list.launch_order.take() {
            Some(pin) => pin,
            None => {
                return false;
            },
        };
        let ghost keys = text::texts(pin@);
        proof {
            keys::lemma_key_pos(keys, dragged@);
            keys::lemma_key_pos(keys, neighbor@);
        }
        let swapped = exchange_rows(&mut pin, dragged, neighbor);
        proof {
            let after = text::texts(pin@);
            let from = keys::key_pos(keys, dragged@);
            let to = keys::key_pos(keys, neighbor@);
            assert(after.no_duplicates()) by {
                assert forall|i: int, j: int|
                    0 <= i < after.len() && 0 <= j < after.len() && i != j implies after[i]
                    != after[j] by {
                    let a = if swapped && i == from { to } else if swapped && i == to { from } else { i };
                    let b = if swapped && j == from { to } else if swapped && j == to { from } else { j };
                    assert(after[i] == keys[a] && after[j] == keys[b]);
                }
            }
        }
        self.list.launch_order = Some(pin);
        if swapped {
            if let Some(mut drag) = self.list.row_drag.take() {
                if is_same_path(drag.path.as_str(), dragged) {
                    drag.record_passed_row(neighbor);
                }
                self.list.row_drag = Some(drag);
            }
        }
        swapped
    }

    /// The dragged repository row was released: whatever the list is showing is
    /// what gets written.
    ///
    /// When the stored order is gone although this window has rendered with one,
    /// another window has reset it. Writing this window's pin back would undo
    /// that reset, so the pin is given up and the drag is discarded, once.
    pub fn drop_repo_mode_entry(&mut self, path: &str, registry: &ProjectManagementModel) -> (
    outcome: DropOutcome)
        requires
            old(self).wf(),
            registry.wf(),
        ensures
            final(self).wf(),
            (outcome@, final(self)@) == old(self)@.dropped(registry@, path@),
    {
        if !self.flags.repo_mode {
            return DropOutcome::Nothing;
        }
        let counts = match &self.list.row_drag {
            Some(drag) => is_same_path(drag.path.as_str(), path) && drag.moved_a_row(),
            None => false,
        };
        self.list.row_drag = None;
        if !counts {
            return DropOutcome::Nothing;
        }
        let stored = registry.stored_order();
        let order = match &self.list.launch_order {
            Some(pin) => match position(pin, path) {
                Some(at) => {
                    if stored.len() == 0 && self.list.saw_stored_order {
                        None
                    } else {
                        Some(merge_dragged_row(&stored, pin, at))
                    }
                },
                None => {
                    return DropOutcome::Nothing;
                },
            },
            None => {
                return DropOutcome::Nothing;
            },
        };
        match order {
            Some(order) => DropOutcome::Write { order },
            None => {
                self.list.launch_order = None;
                self.list.saw_stored_order = false;
                DropOutcome::Discarded
            },
        }
    }

    /// Give the list back to recency: the stored positions are cleared, and this
    /// window's pin goes too, or it would keep rendering the old order.
    pub fn reset_repo_mode_order(&mut self, registry: &mut ProjectManagementModel) -> (effects: Vec<
        RegistryEffect,
    >)
        requires
            old(self).wf(),
            old(registry).wf(),
        ensures
            final(self).wf(),
            final(registry).wf(),
            final(self)@ == (if old(self)@.flags.repo_mode {
                old(self)@.unordered()
            } else {
                old(self)@
            }),
            final(registry)@ == (if old(self)@.flags.repo_mode {
                projects::unpositioned(old(registry)@)
            } else {
                old(registry)@
            }),
            projects::effects_view(effects@) == (if old(self)@.flags.repo_mode {
                seq![projects::RegistryEffectView::ClearManualOrder] + projects::clear_reports(
                    old(registry)@,
                )
            } else {
                Seq::empty()
            }),
    {
        if !self.flags.repo_mode {
            let effects: Vec<RegistryEffect> = Vec::new();
            assert(projects::effects_view(effects@) =~= Seq::empty());
            return effects;
        }
        self.list.launch_order = None;
        self.list.saw_stored_order = false;
        registry.clear_manual_order()
    }
}

/// The row a dragged one swaps with this frame.
pub open spec fn swap_target(
    paths: Seq<Seq<char>>,
    dragged: Seq<char>,
    above_passed: bool,
    below_passed: bool,
) -> Option<int> {
    if above_passed && rows::row_neighbor(paths, dragged, false) is Some {
        rows::row_neighbor(paths, dragged, false)
    } else if below_passed {
        rows::row_neighbor(paths, dragged, true)
    } else {
        None
    }
}

/// What selecting an entry does about its tab, as mathematical values.
pub enum TabActionView {
    Stay,
    Activate { index: usize },
    OpenLocal { group_id: u64 },
    OpenRemote { group_id: u64, target: entry::RemoteTargetView },
}

/// What selecting an entry does about its tab.
#[derive(Debug)]
pub enum TabAction {
    /// The active tab belongs to the entry.
    Stay,
    /// Activate the tab.
    Activate { index: usize },
    /// Open a terminal at the entry's root and bind it to the group.
    OpenLocal { group_id: u64 },
    /// Open a terminal that connects to the host, and bind it to the group.
    OpenRemote { group_id: u64, target: RemoteTarget },
}

impl View for TabAction {
    type V = TabActionView;

    open spec fn view(&self) -> TabActionView {
        match *self {
            TabAction::Stay => TabActionView::Stay,
            TabAction::Activate { index } => TabActionView::Activate { index },
            TabAction::OpenLocal { group_id } => TabActionView::OpenLocal { group_id },
            TabAction::OpenRemote { group_id, target } => TabActionView::OpenRemote {
                group_id,
                target: target@,
            },
        }
    }
}

/// What selecting an entry comes to.
#[derive(Debug)]
pub struct Selection {
    /// Registry changes to carry out.
    pub effects: Vec<RegistryEffect>,
    /// A probe to run, for a remote entry that is not being probed.
    pub probe: Option<ProbeRequest>,
    pub tab: TabAction,
}

impl WorkspaceView {
    /// The tab that selecting the entry at `key` leads to.
    pub open spec fn tab_for(
        self,
        key: Seq<char>,
        registry: Seq<projects::ProjectView>,
        frame: Frame,
        new_group: u64,
    ) -> TabActionView {
        let chosen = self.chosen(key);
        let registered = projects::upserted(registry, key, frame.now);
        chosen.drawn(registered, frame).tab_action(
            chosen.entry_paths(registered, frame),
            key,
            new_group,
        )
    }

    /// The window after the entry at `key` was selected: a group is bound to it
    /// when a tab has to be opened.
    pub open spec fn after_selecting(
        self,
        key: Seq<char>,
        registry: Seq<projects::ProjectView>,
        frame: Frame,
        new_group: u64,
    ) -> WorkspaceView {
        let drawn = self.chosen(key).drawn(projects::upserted(registry, key, frame.now), frame);
        match self.tab_for(key, registry, frame, new_group) {
            TabActionView::OpenLocal { .. } => drawn.grouped(key, new_group),
            TabActionView::OpenRemote { .. } => drawn.grouped(key, new_group),
            _ => drawn,
        }
    }

    /// Whether `made` is what selecting the entry at `key` asks for: the entry is
    /// recorded as opened, a tab of it is gone to, and a remote one is probed
    /// unless a probe of it is running.
    pub open spec fn selects(
        self,
        key: Seq<char>,
        registry: Seq<projects::ProjectView>,
        frame: Frame,
        new_group: u64,
        made: Selection,
    ) -> bool {
        &&& projects::effects_view(made.effects@) == projects::upsert_effects(
            registry,
            key,
            frame.now,
        )
        &&& made.tab@ == self.tab_for(key, registry, frame, new_group)
        &&& match made.probe {
            Some(wanted) => {
                &&& entry::parsed_key(key) == Some(wanted.target@)
                &&& wanted.key@ == entry::remote_key(wanted.target@)
                &&& !self.list.probes.in_flight(wanted.key@)
                &&& wanted.generation == self.chosen(key).list.probes.generation
                &&& wanted.token is None
            },
            None => match entry::parsed_key(key) {
                Some(target) => self.list.probes.in_flight(entry::remote_key(target)),
                None => true,
            },
        }
    }

    /// The group that tabs of `key` are bound to: the one that is, or a new one.
    pub open spec fn group_for(self, key: Seq<char>, new_group: u64) -> u64 {
        match self.strip.bound_group(key) {
            Some(id) => id,
            None => new_group,
        }
    }

    /// The window with a group bound to `key`.
    pub open spec fn grouped(self, key: Seq<char>, new_group: u64) -> WorkspaceView {
        if self.strip.bound_group(key) is Some {
            self
        } else {
            WorkspaceView {
                strip: tabs::TabStripView {
                    groups: self.strip.groups.push(
                        tabs::TabGroupView {
                            id: new_group,
                            repo_root: Some(key),
                            name: Some(entry::registry_label(key)),
                        },
                    ),
                    ..self.strip
                },
                ..self
            }
        }
    }

    /// The tab that selecting `key` activates: the most recently used of those
    /// shown under it, or of those its group holds.
    pub open spec fn tab_of(self, paths: Seq<Seq<char>>, key: Seq<char>) -> Option<usize> {
        let members = self.strip.members(paths, key);
        if members.len() > 0 {
            self.strip.most_recent(self.strip.mru, members)
        } else {
            match self.strip.bound_group(key) {
                Some(id) => self.strip.most_recent(self.strip.mru, self.strip.group_tabs(id)),
                None => None,
            }
        }
    }

    /// What is done about the tab of a selected entry.
    pub open spec fn tab_action(
        self,
        paths: Seq<Seq<char>>,
        key: Seq<char>,
        new_group: u64,
    ) -> TabActionView {
        if self.strip.members(paths, key).contains(self.strip.active) {
            TabActionView::Stay
        } else {
            match self.tab_of(paths, key) {
                Some(index) => TabActionView::Activate { index },
                None => match entry::parsed_key(key) {
                    Some(target) => TabActionView::OpenRemote {
                        group_id: self.group_for(key, new_group),
                        target,
                    },
                    None => TabActionView::OpenLocal { group_id: self.group_for(key, new_group) },
                },
            }
        }
    }

    /// The window with `key` selected, and its host asked when it is a remote
    /// one that is not being asked.
    pub open spec fn chosen(self, key: Seq<char>) -> WorkspaceView {
        let selected = WorkspaceView { selected: Some(key), ..self };
        match entry::parsed_key(key) {
            Some(target) => {
                let probed = entry::remote_key(target);
                if self.list.probes.in_flight(probed) {
                    selected
                } else {
                    selected.with_probes(self.list.probes.begun(probed))
                }
            },
            None => selected,
        }
    }
}

impl Workspace {
    /// The group that tabs of `key` are bound to, made when there is none. One
    /// that exists is never duplicated.
    pub fn create_repo_mode_group(&mut self, key: &str, new_group: u64) -> (id: u64)
        requires
            old(self).wf(),
        ensures
            final(self).wf(),
            id == old(self)@.group_for(key@, new_group),
            final(self)@ == old(self)@.grouped(key@, new_group),
    {
        match self.strip.bound_group(key) {
            Some(id) => id,
            None => {
                let ghost before = self@.strip.groups;
                let group = TabGroup {
                    id: new_group,
                    repo_root: Some(key.to_owned()),
                    name: Some(display_name_for_registry_path(key)),
                };
                let ghost added = group@;
                self.strip.tab_groups.push(group);
                assert(self@.strip.groups =~= before.push(added));
                new_group
            },
        }
    }

    /// Bind the tab that was opened for an entry, which is the active one, and
    /// restore the selection that opening it served: an unbound tab belongs to
    /// no entry, so its activation gave the selection up.
    pub fn bind_opened_tab(&mut self, group_id: u64, selection: Option<String>)
        requires
            old(self).wf(),
        ensures
            final(self).wf(),
            final(self)@.selected == text::text_view(selection),
            final(self)@.list == old(self)@.list,
            final(self)@.flags == old(self)@.flags,
            final(self)@.strip == (tabs::TabStripView {
                tabs: if old(self)@.strip.active < old(self)@.strip.tabs.len() {
                    old(self)@.strip.tabs.update(
                        old(self)@.strip.active as int,
                        Tab {
                            group_id: Some(group_id),
                            ..old(self)@.strip.tabs[old(self)@.strip.active as int]
                        },
                    )
                } else {
                    old(self)@.strip.tabs
                },
                ..old(self)@.strip
            }),
    {
        let active = self.strip.active_tab_index;
        if active < self.strip.tabs.len() {
            let mut tab = self.strip.tabs[active];
            tab.group_id = Some(group_id);
            self.strip.tabs.set(active, tab);
        }
        self.selected_repo_root = selection;
    }

    /// Select an entry: it becomes the filter of the tab strip, is recorded as
    /// opened, a remote one is refreshed, and its most recently used tab is
    /// activated. Only an entry with no tab of its own gets a new one; a loose
    /// tab that merely sits in its directory is never absorbed.
    pub fn select_repo_mode_entry(
        &mut self,
        path: RegistryPath,
        registry: &mut ProjectManagementModel,
        frame: &Frame,
        new_group: u64,
    ) -> (selection: Option<Selection>)
        requires
            old(self).wf(),
            old(registry).wf(),
        ensures
            final(self).wf(),
            final(registry).wf(),
            match selection {
                Some(made) => {
                    &&& old(self)@.flags.repo_mode
                    &&& old(self)@.selects(path.key(), old(registry)@, *frame, new_group, made)
                    &&& final(self)@ == old(self)@.after_selecting(
                        path.key(),
                        old(registry)@,
                        *frame,
                        new_group,
                    )
                    &&& final(registry)@ == projects::upserted(
                        old(registry)@,
                        path.key(),
                        frame.now,
                    )
                },
                None => !old(self)@.flags.repo_mode && final(self)@ == old(self)@ && final(
                    registry)@ == old(registry)@,
            },
    {
        if !self.flags.repo_mode {
            return None;
        }
        let key = registry_key_path(path);
        self.selected_repo_root = Some(key.clone());
        let probe = match parse_remote_key(key.as_str()) {
            Some(target) => self.reprobe_remote_entry(target),
            None => None,
        };
        assert(self@ == old(self)@.chosen(key@));
        let effects = registry.upsert_project_at(settled_path(key.as_str()), frame.now);
        let paths = self.repo_mode_entry_paths(registry, frame);
        let ghost shown = text::texts(paths@);
        let ghost drawn = self@;
        let partition = self.strip.repo_mode_tab_partition(&paths);
        let members = partition.members(key.as_str());
        assert(members@ == drawn.strip.members(shown, key@));
        if holds_index(&members, self.strip.active_tab_index) {
            return Some(Selection { effects, probe, tab: TabAction::Stay });
        }
        let found = if members.len() > 0 {
            self.strip.mru_first_among(&members)
        } else {
            let bound = self.strip.repo_mode_bound_group_tab_indices(key.as_str());
            self.strip.mru_first_among(&bound)
        };
        proof {
            tabs::lemma_most_recent_of_none(drawn.strip, drawn.strip.mru);
        }
        assert(found == drawn.tab_of(shown, key@));
        let tab = match found {
            Some(index) => TabAction::Activate { index },
            None => {
                let group_id = self.create_repo_mode_group(key.as_str(), new_group);
                match parse_remote_key(key.as_str()) {
                    Some(target) => TabAction::OpenRemote { group_id, target },
                    None => TabAction::OpenLocal { group_id },
                }
            },
        };
        Some(Selection { effects, probe, tab })
    }

    /// Add the folder that was picked: it is registered under its canonical path
    /// and selected. Nothing happens when none was picked, and a path that has no
    /// canonical form is not added.
    pub fn add_local_repo_mode_entry(
        &mut self,
        picked: Option<RegistryPath>,
        registry: &mut ProjectManagementModel,
        frame: &Frame,
        new_group: u64,
    ) -> (added: Option<(Vec<RegistryEffect>, Selection)>)
        requires
            old(self).wf(),
            old(registry).wf(),
        ensures
            final(self).wf(),
            final(registry).wf(),
            match added {
                Some((effects, made)) => {
                    &&& old(self)@.flags.repo_mode
                    &&& canonical_pick(picked) is Some
                    &&& ({
                        let key = canonical_pick(picked)->0;
                        let registered = projects::upserted(old(registry)@, key, frame.now);
                        &&& projects::effects_view(effects@) == projects::upsert_effects(
                            old(registry)@,
                            key,
                            frame.now,
                        )
                        &&& old(self)@.selects(key, registered, *frame, new_group, made)
                        &&& final(self)@ == old(self)@.after_selecting(
                            key,
                            registered,
                            *frame,
                            new_group,
                        )
                        &&& final(registry)@ == projects::upserted(registered, key, frame.now)
                    })
                },
                None => {
                    &&& !old(self)@.flags.repo_mode || canonical_pick(picked) is None
                    &&& final(self)@ == old(self)@
                    &&& final(registry)@ == old(registry)@
                },
            },
    {
        if !self.flags.repo_mode {
            return None;
        }
        let canonical = match picked {
            Some(folder) => match canonicalize_repo_path(folder.path.as_str(), folder.resolved) {
                Ok(canonical) => canonical,
                Err(_) => {
                    return None;
                },
            },
            None => {
                return None;
            },
        };
        let effects = registry.upsert_project_at(settled_path(canonical.as_str()), frame.now);
        match self.select_repo_mode_entry(
            settled_path(canonical.as_str()),
            registry,
            frame,
            new_group,
        ) {
            Some(made) => Some((effects, made)),
            None => None,
        }
    }
}

/// Selecting an entry that has a tab opens no other: the tab it is bound to is
/// the one that is activated, or stays so.
pub proof fn selecting_never_duplicates_a_terminal(
    window: WorkspaceView,
    paths: Seq<Seq<char>>,
    key: Seq<char>,
    index: int,
    new_group: u64,
)
    requires
        paths.contains(key),
        0 <= index < window.strip.tabs.len() <= usize::MAX,
        window.strip.bound_root(index) == Some(key),
    ensures
        match window.tab_action(paths, key, new_group) {
            TabActionView::Stay => window.strip.members(paths, key).contains(window.strip.active),
            TabActionView::Activate { index } => window.strip.members(paths, key).contains(index),
            _ => false,
        },
{
    let members = window.strip.members(paths, key);
    tabs::every_tab_is_filed_once(window.strip, paths, index, key);
    tabs::lemma_owner(paths, key);
    assert(members.contains(index as usize));
    tabs::lemma_most_recent_of_some(window.strip, window.strip.mru, members);
}

/// After an activation was reconciled, the strip never lacks the active tab:
/// either all tabs show, or the active one is among those that do.
pub proof fn active_tab_always_shows(
    window: WorkspaceView,
    registry: Seq<projects::ProjectView>,
    frame: Frame,
)
    requires
        sessions::one_per_key(window.list.probes.sessions),
        projects::distinct(registry),
    ensures
        ({
            let looked = window.looked(registry, frame);
            let after = match window.visible(registry, frame) {
                Some(visible) => if visible.contains(window.strip.active) {
                    looked
                } else {
                    WorkspaceView { selected: None, ..looked }
                },
                None => looked,
            };
            match after.visible(registry, frame) {
                Some(visible) => visible.contains(after.strip.active),
                None => true,
            }
        }),
{
    let looked = window.looked(registry, frame);
    if let Some(selected) = window.selected {
        if window.flags.repo_mode {
            let before = window.entry_paths(registry, frame);
            let after = looked.entry_paths(registry, frame);
            listing::list_is_complete(
                window.list,
                registry,
                frame.taken(),
                frame.clock,
                frame.now,
            );
            listing::list_is_complete(
                looked.list,
                registry,
                frame.taken(),
                frame.clock,
                frame.now,
            );
            assert(listing::unverified_keys(window.list, registry) == listing::unverified_keys(
                looked.list,
                registry,
            ));
            assert forall|k: Seq<char>| #[trigger] before.contains(k) <==> after.contains(k) by {}
            paths::lemma_lists_alike(before, after, selected);
            tabs::members_ignore_entry_order(window.strip, before, after, selected);
        }
    }
}

/// A connection that the user walked away from is never registered: once the
/// form is closed no result for its key is wanted, whenever it comes.
pub proof fn cancelled_connection_is_not_registered(
    window: WorkspaceView,
    registry: Seq<projects::ProjectView>,
    key: Seq<char>,
    generation: u64,
)
    requires
        sessions::one_per_key(window.list.probes.sessions),
        !projects::registered(registry, key),
    ensures
        !window.waiting_on(None).dropped_pending(registry, key).list.probes.entitled(
            key,
            generation,
        ),
{
    let waiting = window.waiting_on(None);
    if let Some(previous) = window.list.pending {
        sessions::lemma_transitions(
            window.list.probes,
            previous,
            previous,
            probe::ProbeStateView::Pending,
        );
    }
    sessions::forgotten_key_refuses_results(waiting.list.probes, key, generation);
}

proof fn lemma_stop_waiting(window: WorkspaceView)
    requires
        sessions::one_per_key(window.list.probes.sessions),
        sessions::led_by(window.list.probes.sessions, window.list.pending),
    ensures
        ({
            let after = window.waiting_on(None).list;
            sessions::one_per_key(after.probes.sessions) && sessions::led_by(
                after.probes.sessions,
                None,
            )
        }),
{
    let probes = window.list.probes;
    let after = window.waiting_on(None).list.probes;
    if let Some(previous) = window.list.pending {
        sessions::lemma_transitions(probes, previous, previous, probe::ProbeStateView::Pending);
        sessions::lemma_led_by(probes.sessions, window.list.pending);
        sessions::lemma_led_by(after.sessions, None);
        assert forall|key: Seq<char>|
            (#[trigger] sessions::session_of(after.sessions, key) matches Some(session)
                && session.in_flight && session.adding) implies Some(key) == None::<Seq<char>> by {
            if key != previous {
                sessions::sessions_are_independent(
                    probes,
                    previous,
                    key,
                    probe::ProbeStateView::Pending,
                );
            }
        }
    }
}

proof fn lemma_forget_led(
    probes: sessions::ProbeSessionsView,
    pending: Option<Seq<char>>,
    key: Seq<char>,
)
    requires
        sessions::one_per_key(probes.sessions),
        sessions::led_by(probes.sessions, pending),
    ensures
        sessions::one_per_key(probes.forgotten(key).sessions),
        sessions::led_by(probes.forgotten(key).sessions, pending),
{
    let after = probes.forgotten(key);
    let state = probe::ProbeStateView::Pending;
    sessions::lemma_transitions(probes, key, key, state);
    sessions::lemma_led_by(probes.sessions, pending);
    sessions::lemma_led_by(after.sessions, pending);
    assert forall|other: Seq<char>|
        (#[trigger] sessions::session_of(after.sessions, other) matches Some(session)
            && session.in_flight && session.adding) implies Some(other) == pending by {
        if other != key {
            sessions::sessions_are_independent(probes, key, other, state);
        }
    }
}

/// Whatever a window does, the probes that an add waits for are those of the key
/// the form waits on: submitting the form, giving it up, refreshing a row, a
/// result that lands, and removing an entry all keep that so.
pub proof fn adds_are_the_forms(
    window: WorkspaceView,
    registry: Seq<projects::ProjectView>,
    target: entry::RemoteTargetView,
    probed: Seq<char>,
    resolved: Seq<char>,
    state: probe::ProbeStateView,
)
    requires
        sessions::one_per_key(window.list.probes.sessions),
        sessions::led_by(window.list.probes.sessions, window.list.pending),
    ensures
        window.submitted(registry, target).adds_through_form(),
        window.waiting_on(None).adds_through_form(),
        window.waiting_on(None).dropped_pending(registry, probed).adds_through_form(),
        window.with_probes(window.list.probes.begun(probed)).adds_through_form(),
        window.with_probes(window.list.probes.landed(probed, state)).adds_through_form(),
        window.with_probes(window.list.probes.landed(probed, state)).committed(
            probed,
            resolved,
        ).adds_through_form(),
        window.with_probes(window.list.probes.landed(probed, state)).committed(
            probed,
            resolved,
        ).waiting_on(None).adds_through_form(),
        window.with_probes(window.list.probes.landed(probed, state)).waiting_on(
            None,
        ).dropped_pending(registry, probed).adds_through_form(),
        window.without_entry(probed).adds_through_form(),
{
    let probes = window.list.probes;
    let pending = window.list.pending;
    let key = entry::remote_key(target);
    sessions::lemma_led_by(probes.sessions, pending);
    lemma_stop_waiting(window);
    lemma_forget_led(window.waiting_on(None).list.probes, None, probed);
    lemma_forget_led(probes, pending, probed);

    // A form that is submitted.
    let cleared = window.superseded(registry, key);
    if let Some(previous) = pending {
        lemma_forget_led(window.waiting_on(None).list.probes, None, previous);
    }
    let base = cleared.list.probes;
    sessions::lemma_transitions(base, key, key, state);
    sessions::lemma_led_by(base.sessions, None);
    sessions::lemma_led_by(base.restarted(key).sessions, Some(key));
    assert forall|other: Seq<char>|
        (#[trigger] sessions::session_of(base.restarted(key).sessions, other) matches Some(session)
            && session.in_flight && session.adding) implies Some(other) == Some(key) by {
        if other != key {
            sessions::sessions_are_independent(base, key, other, state);
        }
    }

    // A row that is refreshed, and a result that lands.
    sessions::lemma_transitions(probes, probed, probed, state);
    let begun = probes.begun(probed);
    let landed = probes.landed(probed, state);
    sessions::lemma_led_by(begun.sessions, pending);
    sessions::lemma_led_by(landed.sessions, pending);
    assert forall|other: Seq<char>|
        (#[trigger] sessions::session_of(begun.sessions, other) matches Some(session)
            && session.in_flight && session.adding) implies Some(other) == pending by {
        if other != probed {
            sessions::sessions_are_independent(probes, probed, other, state);
        }
    }
    assert forall|other: Seq<char>|
        (#[trigger] sessions::session_of(landed.sessions, other) matches Some(session)
            && session.in_flight && session.adding) implies Some(other) == pending by {
        if other != probed {
            sessions::sessions_are_independent(probes, probed, other, state);
        }
    }
    let there = window.with_probes(landed);
    lemma_stop_waiting(there);
    lemma_forget_led(there.waiting_on(None).list.probes, None, probed);
    sessions::lemma_transitions(landed, probed, resolved, state);
    let moved = landed.moved(probed, resolved);
    sessions::lemma_led_by(moved.sessions, pending);
    if probed != resolved {
        assert forall|other: Seq<char>|
            (#[trigger] sessions::session_of(moved.sessions, other) matches Some(session)
                && session.in_flight && session.adding) implies Some(other) == pending by {
            assert(sessions::session_of(landed.sessions, probed) matches Some(session)
                ==> !session.in_flight);
            if other != resolved {
                assert(sessions::session_of(landed.sessions, other) == sessions::session_of(
                    moved.sessions,
                    other,
                ) || other == probed);
            } else {
                assert(sessions::session_of(landed.sessions, resolved) == sessions::session_of(
                    moved.sessions,
                    resolved,
                ));
            }
        }
    }
    lemma_stop_waiting(there.committed(probed, resolved));
}

/// Giving up on a connection that is registered changes nothing about it: a
/// failed re-add leaves the entry, its group, its tabs and the selection alone.
pub proof fn failed_re_add_keeps_the_entry(
    window: WorkspaceView,
    registry: Seq<projects::ProjectView>,
    key: Seq<char>,
)
    requires
        projects::registered(registry, key),
    ensures
        window.dropped_pending(registry, key) == window,
{
}

proof fn lemma_unbound_groups(groups: Seq<tabs::TabGroupView>, key: Seq<char>)
    ensures
        ({
            let kept = groups.filter(|g: tabs::TabGroupView| g.repo_root != Some(key));
            forall|i: int|
                0 <= i < kept.len() ==> (#[trigger] kept[i]).repo_root != Some(key)
                    && groups.contains(kept[i])
        }),
    decreases groups.len(),
{
    reveal(Seq::filter);
    let keep = |g: tabs::TabGroupView| g.repo_root != Some(key);
    let kept = groups.filter(keep);
    if groups.len() > 0 {
        let init = groups.drop_last();
        lemma_unbound_groups(init, key);
        let inner = init.filter(keep);
        assert forall|i: int| 0 <= i < kept.len() implies (#[trigger] kept[i]).repo_root != Some(
            key,
        ) && groups.contains(kept[i]) by {
            if i < inner.len() {
                assert(kept[i] == inner[i]);
                assert(init.contains(inner[i]));
                let j = choose|j: int| 0 <= j < init.len() && init[j] == inner[i];
                assert(groups[j] == kept[i]);
            } else {
                assert(groups[groups.len() - 1] == kept[i]);
            }
        }
    }
}

/// Removing an entry clears every trace of it in the window: its probe, its
/// marks, its place in the pin, its group and the selection; and it closes no
/// tab.
pub proof fn removal_leaves_no_trace(window: WorkspaceView, key: Seq<char>)
    requires
        sessions::one_per_key(window.list.probes.sessions),
    ensures
        ({
            let after = window.without_entry(key);
            &&& sessions::session_of(after.list.probes.sessions, key) is None
            &&& !after.list.projected.contains(key)
            &&& after.list.pin matches Some(pin) ==> !pin.contains(key)
            &&& after.selected != Some(key)
            &&& after.strip.bound_group(key) is None
            &&& after.strip.tabs.len() == window.strip.tabs.len()
            &&& forall|i: int|
                0 <= i < after.strip.tabs.len() ==> (#[trigger] after.strip.tabs[i]).id
                    == window.strip.tabs[i].id
        }),
{
    let after = window.without_entry(key);
    sessions::forgotten_key_refuses_results(window.list.probes, key, 0);
    sessions::lemma_forgotten(window.list.probes, key);
    if let Some(pin) = window.list.pin {
        keys::lemma_without(pin, key);
        keys::lemma_without(keys::without(pin, key), key);
    }
    let groups = after.strip.groups;
    lemma_unbound_groups(window.strip.groups, key);
    tabs::lemma_bound_pos(groups, key, groups.len() as int);
}

/// A reset is not undone by another window that was drawing the order that was
/// reset: its next drop writes nothing, and it gives its own order up.
pub proof fn reset_elsewhere_is_not_undone(
    window: WorkspaceView,
    registry: Seq<projects::ProjectView>,
    path: Seq<char>,
)
    requires
        window.list.saw_stored_order,
    ensures
        ({
            let (outcome, after) = window.dropped(projects::unpositioned(registry), path);
            &&& outcome !is Write
            &&& outcome is Discarded ==> after.list.pin is None && !after.list.saw_stored_order
        }),
{
    projects::cleared_order_is_gone(registry);
}

/// The first order that is ever written is the list as it is shown: with nothing
/// stored, a drop that moved a row hands the whole pin over.
pub proof fn first_drop_writes_what_is_shown(
    window: WorkspaceView,
    registry: Seq<projects::ProjectView>,
    path: Seq<char>,
)
    requires
        window.flags.repo_mode,
        window.drag_counts(path),
        projects::stored_order(registry).len() == 0,
        !window.list.saw_stored_order,
    ensures
        window.dropped(registry, path).0 == (DropView::Write { order: window.list.pin->0 }),
{
}

/// When the host expands the key of a row into another one, the row keeps its
/// place in the session's order, and no other row moves.
pub proof fn expanded_key_keeps_its_place(
    pin: Seq<Seq<char>>,
    probed: Seq<char>,
    resolved: Seq<char>,
    at: int,
)
    requires
        pin.no_duplicates(),
        0 <= at < pin.len(),
        pin[at] == probed,
        !pin.contains(resolved),
    ensures
        ({
            let after = renamed_pin(Some(pin), probed, resolved)->0;
            &&& after.len() == pin.len()
            &&& after[at] == resolved
            &&& forall|i: int| 0 <= i < pin.len() && i != at ==> #[trigger] after[i] == pin[i]
        }),
{
    assert(pin.contains(probed));
    keys::lemma_key_pos_unique(pin, probed, at);
}

/// Dragging a row past a neighbour and back again is as if it had not moved: the
/// pin and the rows passed are what they were.
pub proof fn dragging_back_undoes_dragging(
    window: WorkspaceView,
    dragged: Seq<char>,
    neighbor: Seq<char>,
)
    requires
        window.list.pin matches Some(pin) ==> pin.no_duplicates(),
    ensures
        window.swapped(dragged, neighbor).swapped(dragged, neighbor) == window,
{
    if window.both_pinned(dragged, neighbor) {
        let pin = window.list.pin->0;
        let from = keys::key_pos(pin, dragged);
        let to = keys::key_pos(pin, neighbor);
        keys::lemma_key_pos(pin, dragged);
        keys::lemma_key_pos(pin, neighbor);
        let once = keys::exchanged(pin, from, to);
        assert forall|j: int| 0 <= j < to implies once[j] != dragged by {
            if j == from {
            } else {
                assert(once[j] == pin[j]);
                assert(pin[j] != pin[from]);
            }
        }
        keys::lemma_key_pos_unique(once, dragged, to);
        assert forall|j: int| 0 <= j < from implies once[j] != neighbor by {
            if j == to {
            } else {
                assert(once[j] == pin[j]);
                assert(pin[j] != pin[to]);
            }
        }
        keys::lemma_key_pos_unique(once, neighbor, from);
        assert(once[to] == dragged);
        assert(once[from] == neighbor);
        assert(once.contains(dragged) && once.contains(neighbor));
        assert(keys::exchanged(once, to, from) =~= pin);
        if let Some(drag) = window.list.row_drag {
            rows::passing_back_undoes_passing(drag.passed_rows, neighbor);
        }
        assert(window.swapped(dragged, neighbor).swapped(dragged, neighbor).list.pin
            == window.list.pin);
    }
}

/// A probe that found the path leaves the path it resolved registered, under
/// that key unless it was there under another spelling; the path it was probed
/// under is gone when it is another one; and every other entry stays.
pub proof fn commit_registers_the_resolved_key(
    registry: Seq<projects::ProjectView>,
    probed: Seq<char>,
    resolved: Seq<char>,
    now: Stamp,
    other: Seq<char>,
)
    requires
        projects::distinct(registry),
    ensures
        ({
            let after = committed_registry(registry, probed, resolved, now);
            &&& projects::known(after, resolved)
            &&& projects::registered(registry, resolved) || !projects::known(registry, resolved)
                ==> projects::registered(after, resolved)
            &&& !paths::same_path(probed, resolved) ==> !projects::registered(after, probed)
            &&& !paths::same_path(other, probed) && other != resolved ==> projects::registered(
                after,
                other,
            ) == projects::registered(registry, other)
        }),
{
    let kept = if retires(registry, probed, resolved) {
        projects::removed(registry, probed)
    } else {
        registry
    };
    projects::lemma_removed_unregisters(registry, probed);
    projects::lemma_upserted_registers(kept, resolved, now);
    projects::lemma_project_pos(registry, resolved);
    projects::lemma_project_pos(kept, resolved);
    if projects::known(kept, resolved) && kept != registry {
        let i = choose|i: int|
            0 <= i < kept.len() && paths::same_path(#[trigger] kept[i].path, resolved);
        assert(projects::registered(kept, kept[i].path));
        if !paths::same_path(probed, resolved) {
            assert(projects::registered(registry, kept[i].path));
            let j = choose|j: int|
                0 <= j < registry.len() && #[trigger] registry[j].path == kept[i].path;
            assert(paths::same_path(registry[j].path, resolved));
        }
    }
}

/// Selecting an entry stays on the active tab where that is one of the entry's,
/// and otherwise goes to the one of them that was used last.
pub proof fn selecting_goes_to_the_tab_used_last(
    window: WorkspaceView,
    paths: Seq<Seq<char>>,
    key: Seq<char>,
    new_group: u64,
    k: int,
)
    requires
        ({
            let members = window.strip.members(paths, key);
            &&& 0 <= k < window.strip.mru.len()
            &&& exists|i: int|
                0 <= i < members.len() && (#[trigger] members[i]) < window.strip.tabs.len()
                    && window.strip.tabs[members[i] as int].id == window.strip.mru[k]
            &&& forall|j: int, i: int|
                #![trigger window.strip.mru[j], members[i]]
                0 <= j < k && 0 <= i < members.len() && members[i] < window.strip.tabs.len()
                    ==> window.strip.tabs[members[i] as int].id != window.strip.mru[j]
        }),
    ensures
        ({
            let members = window.strip.members(paths, key);
            if members.contains(window.strip.active) {
                window.tab_action(paths, key, new_group) is Stay
            } else {
                window.tab_action(paths, key, new_group) matches TabActionView::Activate { index }
                    && members.contains(index) && window.strip.tabs[index as int].id
                    == window.strip.mru[k]
            }
        }),
{
    let members = window.strip.members(paths, key);
    tabs::tab_used_last_is_found(window.strip, window.strip.mru, members, k);
}

/// Selecting an entry opens a tab only where the entry has none: in the group
/// that is bound to it, or in a new one, and on the host for a remote entry.
pub proof fn selecting_opens_what_is_missing(
    window: WorkspaceView,
    paths: Seq<Seq<char>>,
    key: Seq<char>,
    new_group: u64,
)
    requires
        window.strip.members(paths, key).len() == 0,
        window.strip.bound_group(key) matches Some(id) ==> window.strip.group_tabs(id).len() == 0,
    ensures
        ({
            let group = match window.strip.bound_group(key) {
                Some(id) => id,
                None => new_group,
            };
            match entry::parsed_key(key) {
                Some(target) => window.tab_action(paths, key, new_group) == (
                TabActionView::OpenRemote { group_id: group, target }),
                None => window.tab_action(paths, key, new_group) == (TabActionView::OpenLocal {
                    group_id: group,
                }),
            }
        }),
{
    if let Some(id) = window.strip.bound_group(key) {
        tabs::unused_tabs_go_by_position(
            window.strip,
            window.strip.mru,
            window.strip.group_tabs(id),
        );
    }
}

/// Selecting an entry selects it, and a remote one that no probe is running for
/// is probed; nothing else of the window changes with the choice.
pub proof fn choosing_selects_and_probes(window: WorkspaceView, key: Seq<char>)
    requires
        sessions::one_per_key(window.list.probes.sessions),
    ensures
        ({
            let after = window.chosen(key);
            &&& after.selected == Some(key)
            &&& after.strip == window.strip
            &&& after.flags == window.flags
            &&& after.list.pin == window.list.pin
            &&& after.list.pending == window.list.pending
            &&& after.list.fs_cache == window.list.fs_cache
            &&& after.list.row_drag == window.list.row_drag
            &&& match entry::parsed_key(key) {
                Some(target) => after.list.probes.in_flight(entry::remote_key(target)) && (
                window.list.probes.in_flight(entry::remote_key(target)) ==> after.list.probes
                    == window.list.probes),
                None => after.list.probes == window.list.probes,
            }
        }),
{
    if let Some(target) = entry::parsed_key(key) {
        sessions::one_probe_at_a_time(window.list.probes, entry::remote_key(target));
    }
}

/// An entry gets one group: the one bound to it stays, and where there is none
/// a new one is added behind the others, bound to the entry and named after it.
pub proof fn entries_get_one_group(window: WorkspaceView, key: Seq<char>, new_group: u64)
    ensures
        ({
            let after = window.grouped(key, new_group);
            &&& window.strip.bound_group(key) is Some ==> after == window
            &&& window.strip.bound_group(key) is None ==> {
                &&& after.strip.groups.len() == window.strip.groups.len() + 1
                &&& after.strip.groups.drop_last() == window.strip.groups
                &&& after.strip.groups.last().id == new_group
                &&& after.strip.groups.last().repo_root == Some(key)
                &&& after.strip.groups.last().name == Some(entry::registry_label(key))
            }
            &&& after.strip.bound_group(key) is Some
            &&& after.strip.tabs == window.strip.tabs
            &&& after.strip.active == window.strip.active
            &&& after.strip.mru == window.strip.mru
            &&& after.list == window.list
            &&& after.selected == window.selected
        }),
{
    let groups = window.strip.groups;
    let after = window.grouped(key, new_group).strip.groups;
    if window.strip.bound_group(key) is None {
        assert(after.drop_last() =~= groups);
        assert(after.last().repo_root == Some(key));
        lemma_bound_somewhere(after, key, groups.len() as int);
    }
}

proof fn lemma_bound_somewhere(groups: Seq<tabs::TabGroupView>, key: Seq<char>, at: int)
    requires
        0 <= at < groups.len(),
        groups[at].repo_root == Some(key),
    ensures
        0 <= tabs::bound_pos(groups, key) <= at,
    decreases groups.len(),
{
    if at > 0 && groups[0].repo_root != Some(key) {
        assert(groups.skip(1)[at - 1] == groups[at]);
        lemma_bound_somewhere(groups.skip(1), key, at - 1);
    }
}

/// Letting an entry go frees the tabs of the groups bound to it and of no other
/// group, drops those groups, and leaves every other choice, row and probe.
pub proof fn removal_keeps_the_rest(window: WorkspaceView, key: Seq<char>, other: Seq<char>, i: int)
    requires
        sessions::one_per_key(window.list.probes.sessions),
        other != key,
    ensures
        ({
            let after = window.without_entry(key);
            let groups = window.strip.groups;
            &&& after.flags == window.flags
            &&& window.selected == Some(other) ==> after.selected == Some(other)
            &&& 0 <= i < window.strip.tabs.len() ==> after.strip.tabs[i].group_id == (if exists|
                g: int,
            |
                0 <= g < groups.len() && (#[trigger] groups[g]).repo_root == Some(key) && Some(
                    groups[g].id,
                ) == window.strip.tabs[i].group_id {
                None
            } else {
                window.strip.tabs[i].group_id
            })
            &&& forall|g: int|
                0 <= g < groups.len() && (#[trigger] groups[g]).repo_root != Some(key)
                    ==> after.strip.groups.contains(groups[g])
            &&& forall|g: int|
                0 <= g < after.strip.groups.len() ==> groups.contains(
                    #[trigger] after.strip.groups[g],
                ) && after.strip.groups[g].repo_root != Some(key)
            &&& after.strip.active == window.strip.active
            &&& after.strip.mru == window.strip.mru
            &&& window.list.pin matches Some(pin) ==> {
                &&& after.list.pin is Some
                &&& pin.contains(other) <==> after.list.pin->0.contains(other)
            }
            &&& window.list.pin is None ==> after.list.pin is None
            &&& window.list.projected.contains(other) <==> after.list.projected.contains(other)
            &&& sessions::session_of(after.list.probes.sessions, other) == sessions::session_of(
                window.list.probes.sessions,
                other,
            )
            &&& after.list.pending == window.list.pending
            &&& after.list.row_drag == window.list.row_drag
            &&& after.list.saw_stored_order == window.list.saw_stored_order
        }),
{
    let groups = window.strip.groups;
    let after = window.without_entry(key);
    if let Some(pin) = window.list.pin {
        keys::lemma_without(pin, key);
        keys::lemma_without(keys::without(pin, key), key);
    }
    sessions::sessions_are_independent(
        window.list.probes,
        key,
        other,
        probe::ProbeStateView::Pending,
    );
    lemma_unbound_groups(groups, key);
    assert forall|g: int| 0 <= g < groups.len() && (#[trigger] groups[g]).repo_root != Some(
        key,
    ) implies after.strip.groups.contains(groups[g]) by {
        lemma_group_kept(groups, key, g);
    }
}

proof fn lemma_group_kept(groups: Seq<tabs::TabGroupView>, key: Seq<char>, at: int)
    requires
        0 <= at < groups.len(),
        groups[at].repo_root != Some(key),
    ensures
        groups.filter(|g: tabs::TabGroupView| g.repo_root != Some(key)).contains(groups[at]),
    decreases groups.len(),
{
    let keep = |g: tabs::TabGroupView| g.repo_root != Some(key);
    let init = groups.drop_last();
    let before = init.filter(keep);
    let after = groups.filter(keep);
    lemma_filter_push(init, groups.last(), keep);
    assert(init.push(groups.last()) =~= groups);
    if at < init.len() {
        assert(init[at] == groups[at]);
        lemma_group_kept(init, key, at);
        let k = choose|k: int| 0 <= k < before.len() && before[k] == groups[at];
        assert(after[k] == groups[at]);
    } else {
        assert(after[before.len() as int] == groups[at]);
    }
}

/// Removing a row leaves the others in their order.
pub proof fn removal_keeps_the_order(
    pin: Seq<Seq<char>>,
    key: Seq<char>,
    a: Seq<char>,
    b: Seq<char>,
)
    requires
        pin.no_duplicates(),
        pin.contains(a),
        pin.contains(b),
        a != key,
        b != key,
        keys::key_pos(pin, a) < keys::key_pos(pin, b),
    ensures
        unpinned(Some(pin), key) matches Some(after) && keys::key_pos(after, a) < keys::key_pos(
            after,
            b,
        ) < after.len(),
    decreases pin.len(),
{
    reveal(Seq::filter);
    let after = keys::without(pin, key);
    let init = pin.drop_last();
    let last = pin.last();
    keys::lemma_key_pos(pin, a);
    keys::lemma_key_pos(pin, b);
    let x = keys::key_pos(pin, a);
    let y = keys::key_pos(pin, b);
    keys::lemma_without(init, key);
    assert(init.no_duplicates());
    assert(init[x] == a);
    assert(init.contains(a));
    let inner = keys::without(init, key);
    keys::lemma_key_pos(inner, a);
    if y < init.len() {
        assert(init[y] == b);
        assert(init.contains(b));
        keys::lemma_key_pos_unique(init, a, x);
        keys::lemma_key_pos_unique(init, b, y);
        removal_keeps_the_order(init, key, a, b);
        let p = keys::key_pos(inner, a);
        let q = keys::key_pos(inner, b);
        keys::lemma_key_pos(inner, b);
        assert(after.len() >= inner.len());
        assert forall|j: int| 0 <= j < inner.len() implies after[j] == inner[j] by {}
        keys::lemma_key_pos_unique(after, a, p);
        keys::lemma_key_pos_unique(after, b, q);
    } else {
        assert(last == b);
        assert(after == inner.push(b));
        let p = keys::key_pos(inner, a);
        keys::lemma_key_pos_unique(after, a, p);
        assert(!init.contains(b)) by {
            if init.contains(b) {
                let j = choose|j: int| 0 <= j < init.len() && init[j] == b;
                assert(pin[j] == pin[pin.len() - 1]);
            }
        }
        keys::lemma_key_pos(inner, b);
        keys::lemma_key_pos(after, b);
        assert(after[inner.len() as int] == b);
        keys::lemma_key_pos_unique(after, b, inner.len() as int);
    }
}

/// Submitting the form starts an add for its target: the form waits on the
/// target's key, and the key is probed from the start. What the form waited on
/// before is given up, unless it is registered or is that key itself.
pub proof fn submitting_starts_an_add(
    window: WorkspaceView,
    registry: Seq<projects::ProjectView>,
    target: entry::RemoteTargetView,
    previous: Seq<char>,
)
    requires
        sessions::one_per_key(window.list.probes.sessions),
        window.list.pending is None || window.list.pending == Some(previous),
    ensures
        ({
            let key = entry::remote_key(target);
            let after = window.submitted(registry, target);
            let session = sessions::session_of(after.list.probes.sessions, key);
            &&& after.list.pending == Some(key)
            &&& session is Some && session->0.in_flight && session->0.adding
                && session->0.state is Pending
            &&& window.list.pending == Some(previous) && previous != key
                && !projects::registered(registry, previous) ==> {
                &&& sessions::session_of(after.list.probes.sessions, previous) is None
                &&& after.list.pin matches Some(pin) ==> !pin.contains(previous)
                &&& after.selected != Some(previous)
            }
            &&& window.list.pending == Some(previous) && previous != key && projects::registered(
                registry,
                previous,
            ) ==> after.list.pin == window.list.pin && after.selected == window.selected
                && sessions::session_of(after.list.probes.sessions, previous) is Some
                == sessions::session_of(window.list.probes.sessions, previous) is Some
            &&& window.list.pending is None || previous == key ==> after.list.pin == window.list.pin
                && after.selected == window.selected && after.strip == window.strip
        }),
{
    let key = entry::remote_key(target);
    let state = probe::ProbeStateView::Pending;
    let cleared = window.superseded(registry, key);
    sessions::lemma_transitions(window.list.probes, previous, previous, state);
    sessions::each_step_changes_its_session(window.list.probes, previous, state);
    let released = window.list.probes.released(previous);
    sessions::lemma_transitions(released, previous, previous, state);
    sessions::each_step_changes_its_session(released, previous, state);
    assert(sessions::one_per_key(cleared.list.probes.sessions));
    sessions::each_step_changes_its_session(cleared.list.probes, key, state);
    if previous != key {
        sessions::sessions_are_independent(cleared.list.probes, key, previous, state);
    }
    let restarted = cleared.with_probes(cleared.list.probes.restarted(key));
    assert(restarted.list.pending is None || restarted.list.pending == Some(key));
    if let Some(pin) = window.list.pin {
        keys::lemma_without(pin, previous);
        keys::lemma_without(keys::without(pin, previous), previous);
    }
}

/// A result that lands is what its entry shows from now on, under the key that
/// the host resolved: the probe has ended, and the key that was probed is left
/// where the two differ.
pub proof fn landed_results_are_kept(
    window: WorkspaceView,
    probed: Seq<char>,
    resolved: Seq<char>,
    state: probe::ProbeStateView,
)
    requires
        sessions::one_per_key(window.list.probes.sessions),
        sessions::session_of(window.list.probes.sessions, probed) is Some,
    ensures
        ({
            let after = window.with_probes(window.list.probes.landed(probed, state)).committed(
                probed,
                resolved,
            );
            let session = sessions::session_of(after.list.probes.sessions, resolved);
            &&& session is Some && session->0.state == state && !session->0.in_flight
                && !session->0.adding
            &&& probed != resolved ==> sessions::session_of(after.list.probes.sessions, probed) is None
            &&& !after.list.projected.contains(probed)
            &&& probed == resolved ==> after.list.pin == window.list.pin
            &&& probed != resolved ==> (after.list.pin matches Some(pin) ==> (
            window.list.pin->0.no_duplicates() ==> !pin.contains(probed)))
            &&& after.selected == window.selected
            &&& after.strip == window.strip
            &&& after.list.pending == window.list.pending
        }),
{
    let landed = window.list.probes.landed(probed, state);
    sessions::each_step_changes_its_session(window.list.probes, probed, state);
    sessions::lemma_transitions(window.list.probes, probed, resolved, state);
    if probed != resolved {
        let other = (probed + resolved).push('x');
        assert(other.len() > probed.len() && other.len() > resolved.len());
        sessions::moving_carries_the_session(landed, probed, resolved, other);
        if let Some(pin) = window.list.pin {
            keys::lemma_without(pin, probed);
            keys::lemma_key_pos(pin, probed);
            if pin.contains(probed) && !pin.contains(resolved) && pin.no_duplicates() {
                let at = keys::key_pos(pin, probed);
                let after = pin.update(at, resolved);
                if after.contains(probed) {
                    let k = choose|k: int| 0 <= k < after.len() && after[k] == probed;
                    assert(k != at);
                    assert(pin[k] == probed);
                }
            }
        }
    }
}

/// A tree shows the tabs of the selected entry, and every tab where nothing that
/// is listed is selected or the mode is off.
pub proof fn visible_tabs_are_the_entrys(
    window: WorkspaceView,
    registry: Seq<projects::ProjectView>,
    frame: Frame,
    selected: Seq<char>,
)
    ensures
        window.selected is None || !window.flags.repo_mode ==> window.visible(
            registry,
            frame,
        ) is None,
        window.selected == Some(selected) && (forall|i: int|
            0 <= i < window.entry_paths(registry, frame).len() ==> !paths::same_path(
                #[trigger] window.entry_paths(registry, frame)[i],
                selected,
            )) ==> window.visible(registry, frame) is None,
        window.selected == Some(selected) && window.flags.repo_mode && window.entry_paths(
            registry,
            frame,
        ).contains(selected) ==> window.visible(registry, frame) == Some(
            window.strip.members(window.entry_paths(registry, frame), selected),
        ),
{
    let listed = window.entry_paths(registry, frame);
    paths::listing_goes_by_components(listed, selected);
    if paths::lists(listed, selected) {
        assert(paths::same_path(listed[paths::path_pos(listed, selected)], selected));
    }
    if listed.contains(selected) {
        let i = choose|i: int| 0 <= i < listed.len() && listed[i] == selected;
        assert(paths::parts(listed[i]) == paths::parts(selected));
    }
}

/// Passing a neighbor exchanges the two rows and moves no other.
pub proof fn dragging_exchanges_two_rows(
    window: WorkspaceView,
    dragged: Seq<char>,
    neighbor: Seq<char>,
    a: int,
    b: int,
    i: int,
)
    requires
        window.list.pin is Some,
        window.list.pin->0.no_duplicates(),
        0 <= a < window.list.pin->0.len(),
        0 <= b < window.list.pin->0.len(),
        window.list.pin->0[a] == dragged,
        window.list.pin->0[b] == neighbor,
        0 <= i < window.list.pin->0.len(),
    ensures
        ({
            let after = window.swapped(dragged, neighbor);
            &&& after.list.pin is Some
            &&& after.list.pin->0.len() == window.list.pin->0.len()
            &&& after.list.pin->0[a] == neighbor
            &&& after.list.pin->0[b] == dragged
            &&& i != a && i != b ==> after.list.pin->0[i] == window.list.pin->0[i]
            &&& after.selected == window.selected
            &&& after.strip == window.strip
            &&& after.list.probes == window.list.probes
            &&& after.list.saw_stored_order == window.list.saw_stored_order
            &&& window.list.row_drag matches Some(drag) ==> (paths::same_path(drag.path, dragged)
                ==> (after.list.row_drag matches Some(moved) && moved.path == drag.path && (
            moved.passed_rows.contains(neighbor) <==> !drag.passed_rows.contains(neighbor))))
        }),
{
    let pin = window.list.pin->0;
    keys::lemma_key_pos_unique(pin, dragged, a);
    keys::lemma_key_pos_unique(pin, neighbor, b);
}

/// Dropping a row ends its drag, and writes an order only where the drag passed
/// a row that it did not pass back.
pub proof fn drops_end_the_drag(
    window: WorkspaceView,
    registry: Seq<projects::ProjectView>,
    path: Seq<char>,
)
    ensures
        ({
            let (outcome, after) = window.dropped(registry, path);
            &&& window.flags.repo_mode ==> after.list.row_drag is None
            &&& !window.flags.repo_mode ==> outcome is Nothing && after == window
            &&& window.list.row_drag is None ==> outcome is Nothing
            &&& window.list.row_drag matches Some(drag) ==> (drag.passed_rows == Set::<
                Seq<char>,
            >::empty() ==> outcome is Nothing && after.list.pin == window.list.pin)
            &&& outcome is Write ==> after.list.pin == window.list.pin
            &&& after.selected == window.selected
            &&& after.strip == window.strip
            &&& after.list.probes == window.list.probes
        }),
{
}

/// A drop into a stored order writes that order with the dragged row, and only
/// it, taken out and put behind the row that it was dropped below.
pub proof fn drops_keep_the_stored_order(
    window: WorkspaceView,
    registry: Seq<projects::ProjectView>,
    path: Seq<char>,
)
    requires
        window.flags.repo_mode,
        window.drag_counts(path),
        projects::stored_order(registry).len() > 0,
    ensures
        ({
            let stored = projects::stored_order(registry);
            &&& window.dropped(registry, path).0 is Write
            &&& paths::without_path(window.dropped(registry, path).0->order, path)
                == paths::without_path(stored, path)
            &&& window.dropped(registry, path).0->order.contains(path)
        }),
{
    let pin = window.list.pin->0;
    keys::lemma_key_pos(pin, path);
    rows::drop_moves_only_the_dragged_row(
        projects::stored_order(registry),
        pin,
        keys::key_pos(pin, path),
    );
}

/// A folder that was picked is added under what the filesystem resolves it to;
/// one that cannot be resolved, a remote key, or no pick at all adds nothing.
pub proof fn picked_folders_are_resolved(picked: Option<RegistryPath>)
    ensures
        picked is None ==> canonical_pick(picked) is None,
        picked matches Some(folder) ==> {
            &&& entry::names_remote(folder.path@) ==> canonical_pick(picked) is None
            &&& !entry::names_remote(folder.path@) && folder.resolved is None ==> canonical_pick(
                picked,
            ) is None
            &&& !entry::names_remote(folder.path@) && folder.resolved is Some ==> canonical_pick(
                picked,
            ) == Some(folder.resolved->0@)
        },
{
}

/// A probe fails for the reason it gives, and one that finds no such path fails
/// for that.
pub proof fn missing_paths_fail_as_such(failure: RemoteProbeFailure)
    ensures
        failure_of(Ok::<probe::ProbeOutcomeView, RemoteProbeFailure>(
            probe::ProbeOutcomeView::Missing,
        )) == RemoteProbeFailure::PathNotFound,
        failure_of(Err::<probe::ProbeOutcomeView, RemoteProbeFailure>(failure)) == failure,
{
}

/// An add that fails leaves nothing behind: no probe, no row, no selection and
/// no form that waits on it. Where the entry was registered before, it keeps
/// its row, and shows the failure.
pub proof fn failed_adds_leave_nothing(
    window: WorkspaceView,
    registry: Seq<projects::ProjectView>,
    key: Seq<char>,
    reason: RemoteProbeFailure,
)
    requires
        sessions::one_per_key(window.list.probes.sessions),
        sessions::session_of(window.list.probes.sessions, key) is Some,
        window.list.pending == Some(key),
    ensures
        ({
            let landed = window.with_probes(
                window.list.probes.landed(key, probe::ProbeStateView::Failed { reason }),
            );
            let after = landed.waiting_on(None).dropped_pending(registry, key);
            &&& after.list.pending is None
            &&& !projects::registered(registry, key) ==> {
                &&& sessions::session_of(after.list.probes.sessions, key) is None
                &&& after.list.pin matches Some(pin) ==> !pin.contains(key)
                &&& after.selected != Some(key)
                &&& after.strip.bound_group(key) is None
                &&& !after.list.projected.contains(key)
            }
            &&& projects::registered(registry, key) ==> {
                &&& after.list.pin == window.list.pin
                &&& after.selected == window.selected
                &&& after.strip == window.strip
                &&& sessions::session_of(
                    after.list.probes.sessions,
                    key,
                ) matches Some(session) && !session.in_flight && !session.adding && session.state
                    == (probe::ProbeStateView::Failed { reason })
            }
        }),
{
    let state = probe::ProbeStateView::Failed { reason };
    let landed = window.list.probes.landed(key, state);
    sessions::each_step_changes_its_session(window.list.probes, key, state);
    sessions::lemma_transitions(window.list.probes, key, key, state);
    sessions::each_step_changes_its_session(landed, key, state);
    sessions::lemma_transitions(landed, key, key, state);
    let released = landed.released(key);
    sessions::each_step_changes_its_session(released, key, state);
    if let Some(pin) = window.list.pin {
        keys::lemma_without(pin, key);
        keys::lemma_without(keys::without(pin, key), key);
    }
    let groups = window.strip.groups.filter(|g: tabs::TabGroupView| g.repo_root != Some(key));
    lemma_unbound_groups(window.strip.groups, key);
    tabs::lemma_bound_pos(groups, key, groups.len() as int);
}

/// What a commit registers is saved, and what it retires is deleted; an entry
/// that was registered under the key it resolves to stays as it is.
pub proof fn commits_save_what_they_register(
    registry: Seq<projects::ProjectView>,
    probed: Seq<char>,
    resolved: Seq<char>,
    now: Stamp,
)
    ensures
        ({
            let after = committed_registry(registry, probed, resolved, now);
            let effects = commit_effects(registry, probed, resolved, now);
            &&& projects::registered(registry, resolved) && probed == resolved ==> after == registry
                && effects.len() == 0
            &&& !projects::registered(registry, resolved) ==> exists|e: int|
                0 <= e < effects.len() && (
                #[trigger] effects[e] matches projects::RegistryEffectView::Save { project }
                    && after.contains(project) && paths::same_path(project.path, resolved)
                    && project.last_opened_ts == Some(now))
            &&& probed != resolved && projects::known(registry, probed) && !(projects::registered(
                registry,
                resolved,
            ) && paths::same_path(probed, resolved)) ==> effects.len() > 0 && effects[0] == (
            projects::RegistryEffectView::Delete { path: probed })
        }),
{
    let kept = if retires(registry, probed, resolved) {
        projects::removed(registry, probed)
    } else {
        registry
    };
    let effects = commit_effects(registry, probed, resolved, now);
    projects::upserts_save_what_they_change(kept, resolved, now);
    if !projects::registered(registry, resolved) {
        let saved = projects::upsert_effects(kept, resolved, now);
        let front = effects.len() - saved.len();
        assert(effects[front] == saved[0]);
    }
}

/// Selecting an entry selects it and goes to its tab: the active one where that
/// is the entry's, and otherwise the one of the entry's that was used last. The
/// tabs, the active one and the order of use stay as they are.
pub proof fn selection_goes_to_the_entrys_tab(
    window: WorkspaceView,
    key: Seq<char>,
    registry: Seq<projects::ProjectView>,
    frame: Frame,
    new_group: u64,
    k: int,
)
    requires
        ({
            let listed = window.chosen(key).entry_paths(
                projects::upserted(registry, key, frame.now),
                frame,
            );
            let members = window.strip.members(listed, key);
            &&& 0 <= k < window.strip.mru.len()
            &&& exists|i: int|
                0 <= i < members.len() && (#[trigger] members[i]) < window.strip.tabs.len()
                    && window.strip.tabs[members[i] as int].id == window.strip.mru[k]
            &&& forall|j: int, i: int|
                #![trigger window.strip.mru[j], members[i]]
                0 <= j < k && 0 <= i < members.len() && members[i] < window.strip.tabs.len()
                    ==> window.strip.tabs[members[i] as int].id != window.strip.mru[j]
        }),
    ensures
        ({
            let listed = window.chosen(key).entry_paths(
                projects::upserted(registry, key, frame.now),
                frame,
            );
            let members = window.strip.members(listed, key);
            let after = window.after_selecting(key, registry, frame, new_group);
            &&& if members.contains(window.strip.active) {
                window.tab_for(key, registry, frame, new_group) is Stay
            } else {
                window.tab_for(key, registry, frame, new_group) matches TabActionView::Activate {
                    index,
                } && members.contains(index) && window.strip.tabs[index as int].id
                    == window.strip.mru[k]
            }
            &&& after.selected == Some(key)
            &&& after.strip == window.strip
        }),
{
    let registered = projects::upserted(registry, key, frame.now);
    let chosen = window.chosen(key);
    let drawn = chosen.drawn(registered, frame);
    assert(drawn.strip == window.strip);
    selecting_goes_to_the_tab_used_last(
        drawn,
        chosen.entry_paths(registered, frame),
        key,
        new_group,
        k,
    );
}

} // verus!
