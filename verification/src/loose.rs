//! Terminals outside every repository.
use vstd::prelude::*;
use crate::actions::loose_tab_directory;
use crate::tabs;
use crate::tabs::{Tab, TabStrip};
use crate::text;
use crate::workspace::{Workspace, WorkspaceView};

verus! {

/// Where the last member of a group stands, or `-1` when it has none.
pub open spec fn last_member(tabs: Seq<Tab>, id: u64) -> int
    decreases tabs.len(),
{
    if tabs.len() == 0 {
        -1
    } else if tabs.last().group_id == Some(id) {
        tabs.len() - 1
    } else {
        last_member(tabs.drop_last(), id)
    }
}

/// Where a tab that leaves its group goes: past the members that stay, and never
/// backwards.
pub open spec fn place_after_group(rest: Seq<Tab>, index: int, id: u64) -> int {
    if last_member(rest, id) + 1 > index {
        last_member(rest, id) + 1
    } else {
        index
    }
}

/// The strip after the tab at `index` left its group.
pub open spec fn left_group(strip: tabs::TabStripView, index: int) -> tabs::TabStripView {
    match strip.tabs[index].group_id {
        Some(id) => {
            let rest = strip.tabs.remove(index);
            let at = place_after_group(rest, index, id);
            tabs::TabStripView {
                tabs: rest.insert(at, Tab { group_id: None, ..strip.tabs[index] }),
                active: if strip.active == index {
                    at as usize
                } else if index < strip.active <= at {
                    (strip.active - 1) as usize
                } else {
                    strip.active
                },
                ..strip
            }
        },
        None => strip,
    }
}

/// What [`last_member`] finds: a member, and none behind it.
pub proof fn lemma_last_member(tabs: Seq<Tab>, id: u64)
    ensures
        -1 <= last_member(tabs, id) < tabs.len(),
        last_member(tabs, id) >= 0 ==> tabs[last_member(tabs, id)].group_id == Some(id),
        forall|j: int|
            last_member(tabs, id) < j < tabs.len() ==> (#[trigger] tabs[j]).group_id != Some(id),
    decreases tabs.len(),
{
    if tabs.len() > 0 && tabs.last().group_id != Some(id) {
        lemma_last_member(tabs.drop_last(), id);
        assert forall|j: int| last_member(tabs, id) < j < tabs.len() implies (
        #[trigger] tabs[j]).group_id != Some(id) by {
            if j < tabs.len() - 1 {
                assert(tabs.drop_last()[j] == tabs[j]);
            }
        }
    }
}

impl TabStrip {
    fn find_last_member(&self, id: u64) -> (at: Option<usize>)
        ensures
            match at {
                Some(found) => found == last_member(self.tabs@, id) && found < self.tabs.len(),
                None => last_member(self.tabs@, id) == -1,
            },
    {
        let mut end: usize = self.tabs.len();
        assert(self.tabs@.take(end as int) =~= self.tabs@);
        while end > 0
            invariant
                end <= self.tabs@.len(),
                last_member(self.tabs@, id) == last_member(self.tabs@.take(end as int), id),
            decreases end,
        {
            assert(self.tabs@.take(end as int).drop_last() =~= self.tabs@.take(end - 1));
            if let Some(member_of) = self.tabs[end - 1].group_id {
                if member_of == id {
                    return Some(end - 1);
                }
            }
            end -= 1;
        }
        None
    }

    /// Take a tab out of its group and move it past the group's members, so that
    /// the members stay next to each other.
    pub fn remove_tab_from_group(&mut self, index: usize)
        requires
            index < old(self)@.tabs.len(),
        ensures
            final(self)@ == left_group(old(self)@, index as int),
    {
        let tab = self.tabs[index];
        let id = match tab.group_id {
            Some(id) => id,
            None => {
                return ;
            },
        };
        let active = self.active_tab_index;
        let _taken = self.tabs.remove(index);
        proof {
            lemma_last_member(self.tabs@, id);
        }
        let at: usize = match self.find_last_member(id) {
            Some(last) => if last + 1 > index {
                last + 1
            } else {
                index
            },
            None => index,
        };
        self.tabs.insert(at, Tab { group_id: None, ..tab });
        if active == index {
            self.active_tab_index = at;
        } else if index < active && active <= at {
            self.active_tab_index = active - 1;
        }
    }
}

impl WorkspaceView {
    /// The window with nothing selected, as long as repo mode is on.
    pub open spec fn unselected(self) -> WorkspaceView {
        if self.flags.repo_mode {
            WorkspaceView { selected: None, ..self }
        } else {
            self
        }
    }
}

impl Workspace {
    /// Prepare a terminal that belongs to no repository, whatever is selected or
    /// focused: the selection goes, and the directory that the terminal starts
    /// in is named. Nothing happens with repo mode off.
    pub fn new_repo_mode_loose_tab(&mut self, home: Option<String>, temp: String) -> (directory:
        Option<String>)
        requires
            old(self).wf(),
        ensures
            final(self).wf(),
            final(self)@ == old(self)@.unselected(),
            text::text_view(directory) == (if old(self)@.flags.repo_mode {
                Some(match home {
                    Some(found) => found@,
                    None => temp@,
                })
            } else {
                None
            }),
    {
        if !self.flags.repo_mode {
            return None;
        }
        self.selected_repo_root = None;
        Some(loose_tab_directory(home, temp))
    }

    /// The terminal was opened and is the active tab. A new tab joins the group
    /// of the tab it was opened from, so it is taken out again.
    pub fn release_loose_tab(&mut self)
        requires
            old(self).wf(),
        ensures
            final(self).wf(),
            final(self)@ == (WorkspaceView {
                strip: if old(self)@.strip.active < old(self)@.strip.tabs.len() {
                    left_group(old(self)@.strip, old(self)@.strip.active as int)
                } else {
                    old(self)@.strip
                },
                ..old(self)@
            }),
    {
        let active = self.strip.active_tab_index;
        if active < self.strip.tabs.len() {
            self.strip.remove_tab_from_group(active);
        }
    }
}

/// The members of every group stand next to each other.
pub open spec fn contiguous(tabs: Seq<Tab>) -> bool {
    forall|i: int, j: int, k: int|
        0 <= i < j < k < tabs.len() && (#[trigger] tabs[i]).group_id is Some && tabs[i].group_id == (
        #[trigger] tabs[k]).group_id ==> (#[trigger] tabs[j]).group_id == tabs[i].group_id
}

/// A loose terminal never belongs to a repository: once released, the active tab
/// is filed under no entry, and it is still the tab that was active.
pub proof fn loose_tab_joins_no_repository(strip: tabs::TabStripView, paths: Seq<Seq<char>>)
    requires
        strip.active < strip.tabs.len() <= usize::MAX,
    ensures
        ({
            let released = left_group(strip, strip.active as int);
            &&& released.active < released.tabs.len()
            &&& released.tabs[released.active as int].id == strip.tabs[strip.active as int].id
            &&& released.tabs[released.active as int].group_id is None
            &&& released.owner(paths, released.active as int) is None
        }),
{
    if let Some(id) = strip.tabs[strip.active as int].group_id {
        lemma_last_member(strip.tabs.remove(strip.active as int), id);
    }
}

/// A tab that leaves its group tears no group apart.
pub proof fn leaving_keeps_groups_together(strip: tabs::TabStripView, index: int)
    requires
        0 <= index < strip.tabs.len(),
        contiguous(strip.tabs),
    ensures
        contiguous(left_group(strip, index).tabs),
{
    if let Some(own) = strip.tabs[index].group_id {
        let tabs = strip.tabs;
        let rest = tabs.remove(index);
        lemma_last_member(rest, own);
        let at = place_after_group(rest, index, own);
        let after = left_group(strip, index).tabs;
        assert forall|i: int, j: int, k: int|
            0 <= i < j < k < after.len() && (#[trigger] after[i]).group_id is Some
                && after[i].group_id == (#[trigger] after[k]).group_id implies (
        #[trigger] after[j]).group_id == after[i].group_id by {
            let from_i = if index <= i < at {
                i + 1
            } else {
                i
            };
            let from_j = if index <= j < at {
                j + 1
            } else {
                j
            };
            let from_k = if index <= k < at {
                k + 1
            } else {
                k
            };
            assert(i != at && k != at);
            assert(after[i] == tabs[from_i]);
            assert(after[k] == tabs[from_k]);
            if j != at {
                assert(after[j] == tabs[from_j]);
            } else {
                // The tab stands right behind the last of its group, so a group
                // on both sides of it would be that one, and have a member
                // behind its last.
                assert(rest[k - 1] == tabs[k]);
                if last_member(rest, own) + 1 > index {
                    assert(tabs[at] == rest[at - 1]);
                    assert(tabs[at].group_id == after[i].group_id);
                } else {
                    assert(tabs[index].group_id == after[i].group_id);
                }
            }
        }
    }
}

/// Leaving a group moves one tab and no other: the rest keep their order and
/// their groups, the tab keeps its id, and whichever tab was active stays so.
pub proof fn leaving_moves_one_tab(strip: tabs::TabStripView, index: int) -> (at: int)
    requires
        0 <= index < strip.tabs.len() <= usize::MAX,
    ensures
        ({
            let left = left_group(strip, index);
            &&& 0 <= at < left.tabs.len()
            &&& left.tabs.remove(at) == strip.tabs.remove(index)
            &&& left.tabs[at] == (Tab { group_id: None, ..strip.tabs[index] })
            &&& strip.tabs[index].group_id is None ==> left == strip
            &&& strip.active < strip.tabs.len() ==> left.active < left.tabs.len()
                && left.tabs[left.active as int].id == strip.tabs[strip.active as int].id
            &&& left.groups == strip.groups
            &&& left.mru == strip.mru
        }),
{
    let left = left_group(strip, index);
    match strip.tabs[index].group_id {
        Some(id) => {
            let rest = strip.tabs.remove(index);
            lemma_last_member(rest, id);
            let at = place_after_group(rest, index, id);
            assert(left.tabs.remove(at) =~= rest);
            at
        },
        None => index,
    }
}

/// A tab that leaves its group lands behind the group's last tab, and moves no
/// farther: no tab of the group is behind it, and where it moved at all, the tab
/// in front of it is one of the group.
pub proof fn leaving_lands_behind_the_group(strip: tabs::TabStripView, index: int, at: int)
    requires
        0 <= index < strip.tabs.len() <= usize::MAX,
        strip.tabs[index].group_id is Some,
        0 <= at < left_group(strip, index).tabs.len(),
        left_group(strip, index).tabs[at].id == strip.tabs[index].id,
        forall|i: int, j: int|
            0 <= i < j < strip.tabs.len() ==> (#[trigger] strip.tabs[i]).id != (
            #[trigger] strip.tabs[j]).id,
    ensures
        at >= index,
        forall|k: int|
            at < k < strip.tabs.len() ==> (#[trigger] left_group(strip, index).tabs[k]).group_id
                != strip.tabs[index].group_id,
        at > index ==> left_group(strip, index).tabs[at - 1].group_id
            == strip.tabs[index].group_id,
{
    let id = strip.tabs[index].group_id->0;
    let rest = strip.tabs.remove(index);
    let left = left_group(strip, index);
    lemma_last_member(rest, id);
    let place = place_after_group(rest, index, id);
    assert(at == place) by {
        if at != place {
            let other = if at < place {
                at
            } else {
                at - 1
            };
            assert(left.tabs[at] == rest[other]);
            let source = if other < index {
                other
            } else {
                other + 1
            };
            assert(rest[other] == strip.tabs[source]);
        }
    }
    assert forall|k: int| at < k < strip.tabs.len() implies (#[trigger] left.tabs[k]).group_id
        != Some(id) by {
        assert(left.tabs[k] == rest[k - 1]);
    }
    if at > index {
        assert(left.tabs[at - 1] == rest[at - 1]);
    }
}

/// Opening a loose tab deselects, and changes nothing else of the window.
pub proof fn loose_tabs_deselect(window: WorkspaceView)
    ensures
        window.flags.repo_mode ==> window.unselected().selected is None,
        !window.flags.repo_mode ==> window.unselected() == window,
        window.unselected().strip == window.strip,
        window.unselected().list == window.list,
        window.unselected().flags == window.flags,
{
}

} // verus!
