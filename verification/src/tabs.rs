//! The tab strip: which repository a tab belongs to, which tabs show under a
//! selection, and which tab a drag may exchange places with.
use vstd::prelude::*;
use crate::keys;
use crate::paths;
use crate::paths::is_same_path;
use crate::rows;
use crate::rows::repo_mode_bound_tab_owner;
use crate::text;
use crate::text::same_text;

verus! {

/// Which of the features that repo mode builds on are on.
#[derive(Clone, Copy, Debug, PartialEq, Eq, Structural)]
pub struct FeatureFlags {
    pub repo_mode: bool,
    pub grouped_tabs: bool,
}

/// A tab: its identity, and the group it is a member of.
#[derive(Clone, Copy, Debug, PartialEq, Eq, Structural)]
pub struct Tab {
    /// Identity of the tab's pane group.
    pub id: u64,
    pub group_id: Option<u64>,
    pub pinned: bool,
}

/// A tab group, as mathematical values.
pub struct TabGroupView {
    pub id: u64,
    pub repo_root: Option<Seq<char>>,
    pub name: Option<Seq<char>>,
}

/// A tab group; one that belongs to a repository is bound to its registry key.
#[derive(Debug)]
pub struct TabGroup {
    pub id: u64,
    pub repo_root: Option<String>,
    pub name: Option<String>,
}

impl View for TabGroup {
    type V = TabGroupView;

    open spec fn view(&self) -> TabGroupView {
        TabGroupView {
            id: self.id,
            repo_root: text::text_view(self.repo_root),
            name: text::text_view(self.name),
        }
    }
}

/// Groups as mathematical values.
pub open spec fn groups_view(groups: Seq<TabGroup>) -> Seq<TabGroupView> {
    groups.map_values(|g: TabGroup| g@)
}

/// The tab strip, as mathematical values.
pub struct TabStripView {
    pub tabs: Seq<Tab>,
    pub groups: Seq<TabGroupView>,
    pub active: usize,
    pub mru: Seq<u64>,
}

/// The tabs of a window, their groups, the active tab, and the tabs' identities
/// from the most to the least recently used.
#[derive(Debug)]
pub struct TabStrip {
    pub tabs: Vec<Tab>,
    pub tab_groups: Vec<TabGroup>,
    pub active_tab_index: usize,
    pub tab_mru_order: Vec<u64>,
}

impl View for TabStrip {
    type V = TabStripView;

    open spec fn view(&self) -> TabStripView {
        TabStripView {
            tabs: self.tabs@,
            groups: groups_view(self.tab_groups@),
            active: self.active_tab_index,
            mru: self.tab_mru_order@,
        }
    }
}

/// Where the group with `id` stands, or the length when there is none.
pub open spec fn group_pos(groups: Seq<TabGroupView>, id: u64) -> int
    decreases groups.len(),
{
    if groups.len() == 0 || groups[0].id == id {
        0
    } else {
        1 + group_pos(groups.skip(1), id)
    }
}

/// Where the first group bound to `root` stands, or the length when there is
/// none.
pub open spec fn bound_pos(groups: Seq<TabGroupView>, root: Seq<char>) -> int
    decreases groups.len(),
{
    if groups.len() == 0 || groups[0].repo_root == Some(root) {
        0
    } else {
        1 + bound_pos(groups.skip(1), root)
    }
}

/// The indices below `count` for which `keep` holds, in order.
pub open spec fn indices_where(count: int, keep: spec_fn(int) -> bool) -> Seq<usize>
    decreases count,
{
    if count <= 0 {
        Seq::empty()
    } else if keep(count - 1) {
        indices_where(count - 1, keep).push((count - 1) as usize)
    } else {
        indices_where(count - 1, keep)
    }
}

impl TabStripView {
    /// The repository root a group is bound to.
    pub open spec fn group_root(self, id: u64) -> Option<Seq<char>> {
        let at = group_pos(self.groups, id);
        if at < self.groups.len() {
            self.groups[at].repo_root
        } else {
            None
        }
    }

    /// The repository root the tab at `index` is bound to, by its group.
    pub open spec fn bound_root(self, index: int) -> Option<Seq<char>> {
        if 0 <= index < self.tabs.len() {
            match self.tabs[index].group_id {
                Some(id) => self.group_root(id),
                None => None,
            }
        } else {
            None
        }
    }

    /// The registered entry the tab at `index` belongs to; `None` for a loose
    /// tab.
    pub open spec fn owner(self, entries: Seq<Seq<char>>, index: int) -> Option<Seq<char>> {
        match self.bound_root(index) {
            Some(root) => rows::owner_of(entries, root),
            None => None,
        }
    }

    /// Whether the tab at `index` belongs to `entry`.
    pub open spec fn belongs(self, entries: Seq<Seq<char>>, index: int, entry: Seq<char>) -> bool {
        self.owner(entries, index) matches Some(owner) && paths::same_path(owner, entry)
    }

    /// The tabs that belong to `entry`, in tab order.
    pub open spec fn members(self, entries: Seq<Seq<char>>, entry: Seq<char>) -> Seq<usize> {
        indices_where(self.tabs.len() as int, |i: int| self.belongs(entries, i, entry))
    }

    /// The tabs that belong to no entry, in tab order.
    pub open spec fn loose(self, entries: Seq<Seq<char>>) -> Seq<usize> {
        indices_where(self.tabs.len() as int, |i: int| self.owner(entries, i) is None)
    }

    /// The section a group belongs to. There are no sections unless both
    /// features are on.
    pub open spec fn group_section(
        self,
        flags: FeatureFlags,
        id: u64,
        entries: Seq<Seq<char>>,
    ) -> Option<Seq<char>> {
        if !flags.repo_mode || !flags.grouped_tabs {
            None
        } else {
            match self.group_root(id) {
                Some(root) => rows::owner_of(entries, root),
                None => None,
            }
        }
    }

    /// The section the tab at `index` belongs to.
    pub open spec fn section(
        self,
        flags: FeatureFlags,
        index: int,
        entries: Seq<Seq<char>>,
    ) -> Option<Seq<char>> {
        if 0 <= index < self.tabs.len() {
            match self.tabs[index].group_id {
                Some(id) => self.group_section(flags, id, entries),
                None => None,
            }
        } else {
            None
        }
    }

    /// The next tab of the same section at or below `index`.
    pub open spec fn same_section_below(
        self,
        flags: FeatureFlags,
        entries: Seq<Seq<char>>,
        section: Option<Seq<char>>,
        index: int,
    ) -> Option<int>
        decreases self.tabs.len() - index,
    {
        if index < 0 || index >= self.tabs.len() {
            None
        } else if self.section(flags, index, entries) == section {
            Some(index)
        } else {
            self.same_section_below(flags, entries, section, index + 1)
        }
    }

    /// The next tab of the same section at or above `index`.
    pub open spec fn same_section_above(
        self,
        flags: FeatureFlags,
        entries: Seq<Seq<char>>,
        section: Option<Seq<char>>,
        index: int,
    ) -> Option<int>
        decreases index + 1,
    {
        if index < 0 || index >= self.tabs.len() {
            None
        } else if self.section(flags, index, entries) == section {
            Some(index)
        } else {
            self.same_section_above(flags, entries, section, index - 1)
        }
    }

    /// The tab the one at `index` exchanges places with when it is dragged one
    /// step: the next one of its own section.
    pub open spec fn neighbor(
        self,
        flags: FeatureFlags,
        index: int,
        forward: bool,
        entries: Seq<Seq<char>>,
    ) -> Option<int> {
        let section = self.section(flags, index, entries);
        if index < 0 || index >= self.tabs.len() {
            None
        } else if forward {
            self.same_section_below(flags, entries, section, index + 1)
        } else {
            self.same_section_above(flags, entries, section, index - 1)
        }
    }

    /// The first of `indices` whose tab is `id`, or the length when none is.
    pub open spec fn pos_of_id(self, indices: Seq<usize>, id: u64) -> int
        decreases indices.len(),
    {
        if indices.len() == 0 {
            0
        } else if indices[0] < self.tabs.len() && self.tabs[indices[0] as int].id == id {
            0
        } else {
            1 + self.pos_of_id(indices.skip(1), id)
        }
    }

    /// The first of `indices` that the identities in `ids`, in turn, name; the
    /// first one of all when they name none.
    pub open spec fn most_recent(self, ids: Seq<u64>, indices: Seq<usize>) -> Option<usize>
        decreases ids.len(),
    {
        if ids.len() == 0 {
            if indices.len() > 0 {
                Some(indices[0])
            } else {
                None
            }
        } else if self.pos_of_id(indices, ids[0]) < indices.len() {
            Some(indices[self.pos_of_id(indices, ids[0])])
        } else {
            self.most_recent(ids.skip(1), indices)
        }
    }

    /// The first tab that has the identity, or the length when none has.
    pub open spec fn tab_pos(self, id: u64) -> int {
        tab_pos_in(self.tabs, id)
    }

    /// The tabs that `ids` name, in turn.
    pub open spec fn named(self, ids: Seq<u64>) -> Seq<usize>
        decreases ids.len(),
    {
        if ids.len() == 0 {
            Seq::empty()
        } else if self.tab_pos(ids.last()) < self.tabs.len() {
            self.named(ids.drop_last()).push(self.tab_pos(ids.last()) as usize)
        } else {
            self.named(ids.drop_last())
        }
    }

    /// The tabs from the most to the least recently used, then the others.
    pub open spec fn by_recency(self) -> Seq<usize> {
        let ranked = self.named(self.mru);
        ranked + indices_where(
            self.tabs.len() as int,
            |i: int| !ranked.contains(i as usize),
        )
    }
}

/// The first tab that has the identity, or the length when none has.
pub open spec fn tab_pos_in(tabs: Seq<Tab>, id: u64) -> int
    decreases tabs.len(),
{
    if tabs.len() == 0 || tabs[0].id == id {
        0
    } else {
        1 + tab_pos_in(tabs.skip(1), id)
    }
}

/// What [`group_pos`] finds.
pub proof fn lemma_group_pos(groups: Seq<TabGroupView>, id: u64, at: int)
    requires
        0 <= at <= groups.len(),
        at < groups.len() ==> groups[at].id == id,
        forall|j: int| 0 <= j < at ==> (#[trigger] groups[j]).id != id,
    ensures
        group_pos(groups, id) == at,
    decreases groups.len(),
{
    if at > 0 {
        assert(groups[0].id != id);
        assert forall|j: int| 0 <= j < at - 1 implies (#[trigger] groups.skip(1)[j]).id != id by {
            assert(groups.skip(1)[j] == groups[j + 1]);
        }
        lemma_group_pos(groups.skip(1), id, at - 1);
    }
}

/// What [`bound_pos`] finds.
pub proof fn lemma_bound_pos(groups: Seq<TabGroupView>, root: Seq<char>, at: int)
    requires
        0 <= at <= groups.len(),
        at < groups.len() ==> groups[at].repo_root == Some(root),
        forall|j: int| 0 <= j < at ==> (#[trigger] groups[j]).repo_root != Some(root),
    ensures
        bound_pos(groups, root) == at,
    decreases groups.len(),
{
    if at > 0 {
        assert(groups[0].repo_root != Some(root));
        assert forall|j: int| 0 <= j < at - 1 implies (#[trigger] groups.skip(1)[j]).repo_root
            != Some(root) by {
            assert(groups.skip(1)[j] == groups[j + 1]);
        }
        lemma_bound_pos(groups.skip(1), root, at - 1);
    }
}

/// What [`tab_pos_in`] finds.
pub proof fn lemma_tab_pos(tabs: Seq<Tab>, id: u64, at: int)
    requires
        0 <= at <= tabs.len(),
        at < tabs.len() ==> tabs[at].id == id,
        forall|j: int| 0 <= j < at ==> (#[trigger] tabs[j]).id != id,
    ensures
        tab_pos_in(tabs, id) == at,
    decreases tabs.len(),
{
    if at > 0 {
        assert(tabs[0].id != id);
        assert forall|j: int| 0 <= j < at - 1 implies (#[trigger] tabs.skip(1)[j]).id != id by {
            assert(tabs.skip(1)[j] == tabs[j + 1]);
        }
        lemma_tab_pos(tabs.skip(1), id, at - 1);
    }
}

/// Which indices [`indices_where`] lists: each that is kept, once, in order.
pub proof fn lemma_indices_where(count: int, keep: spec_fn(int) -> bool)
    requires
        0 <= count <= usize::MAX + 1,
    ensures
        forall|i: int|
            0 <= i < count ==> (#[trigger] indices_where(count, keep).contains(i as usize)
                <==> keep(i)),
        forall|k: int|
            0 <= k < indices_where(count, keep).len() ==> #[trigger] indices_where(count, keep)[k]
                < count && keep(indices_where(count, keep)[k] as int),
        forall|k: int, l: int|
            0 <= k < l < indices_where(count, keep).len() ==> indices_where(count, keep)[k]
                < indices_where(count, keep)[l],
    decreases count,
{
    if count > 0 {
        lemma_indices_where(count - 1, keep);
        let before = indices_where(count - 1, keep);
        let after = indices_where(count, keep);
        assert forall|i: int| 0 <= i < count implies (#[trigger] after.contains(i as usize)
            <==> keep(i)) by {
            if i < count - 1 {
                assert(before.contains(i as usize) <==> keep(i));
                if before.contains(i as usize) {
                    let k = choose|k: int| 0 <= k < before.len() && before[k] == i as usize;
                    assert(after[k] == i as usize);
                }
                if after.contains(i as usize) {
                    let k = choose|k: int| 0 <= k < after.len() && after[k] == i as usize;
                    assert(k < before.len());
                    assert(before[k] == i as usize);
                }
            } else {
                if keep(i) {
                    assert(after[after.len() - 1] == i as usize);
                } else if after.contains(i as usize) {
                    let k = choose|k: int| 0 <= k < before.len() && before[k] == i as usize;
                    assert(before[k] < count - 1);
                }
            }
        }
    }
}

/// The tabs of one entry.
#[derive(Debug)]
pub struct EntryTabs {
    pub path: String,
    pub tabs: Vec<usize>,
}

/// Tabs filed under the entries they belong to, and the loose ones.
#[derive(Debug)]
pub struct TabPartition {
    pub by_entry: Vec<EntryTabs>,
    pub loose: Vec<usize>,
}

/// The tabs filed under `path`; none when nothing is filed there.
pub open spec fn filed(by_entry: Seq<EntryTabs>, path: Seq<char>) -> Seq<usize>
    decreases by_entry.len(),
{
    if by_entry.len() == 0 {
        Seq::empty()
    } else if paths::same_path(by_entry.last().path@, path) {
        by_entry.last().tabs@
    } else {
        filed(by_entry.drop_last(), path)
    }
}

/// No two lists are filed under one path.
pub open spec fn filed_once(by_entry: Seq<EntryTabs>) -> bool {
    forall|i: int, j: int|
        0 <= i < j < by_entry.len() ==> !paths::same_path(
            (#[trigger] by_entry[i]).path@,
            (#[trigger] by_entry[j]).path@,
        )
}

proof fn lemma_filed(by_entry: Seq<EntryTabs>, path: Seq<char>)
    requires
        filed_once(by_entry),
    ensures
        forall|i: int|
            0 <= i < by_entry.len() && paths::same_path((#[trigger] by_entry[i]).path@, path)
                ==> filed(by_entry, path) == by_entry[i].tabs@,
        (forall|i: int|
            0 <= i < by_entry.len() ==> !paths::same_path((#[trigger] by_entry[i]).path@, path))
            ==> filed(by_entry, path) == Seq::<usize>::empty(),
    decreases by_entry.len(),
{
    if by_entry.len() > 0 {
        let init = by_entry.drop_last();
        lemma_filed(init, path);
        assert forall|i: int| 0 <= i < by_entry.len() && paths::same_path(
            (#[trigger] by_entry[i]).path@,
            path,
        ) implies filed(by_entry, path) == by_entry[i].tabs@ by {
            if i < by_entry.len() - 1 {
                assert(!paths::same_path(by_entry[i].path@, by_entry[by_entry.len() - 1].path@));
                assert(init[i] == by_entry[i]);
            }
        }
        if forall|i: int|
            0 <= i < by_entry.len() ==> !paths::same_path((#[trigger] by_entry[i]).path@, path) {
            assert(!paths::same_path(by_entry[by_entry.len() - 1].path@, path));
            assert forall|i: int| 0 <= i < init.len() implies !paths::same_path(
                (#[trigger] init[i]).path@,
                path,
            ) by {
                assert(init[i] == by_entry[i]);
            }
        }
    }
}

impl TabPartition {
    /// The tabs filed under `path`; empty when there are none.
    pub fn members(&self, path: &str) -> (tabs: Vec<usize>)
        requires
            filed_once(self.by_entry@),
        ensures
            tabs@ == filed(self.by_entry@, path@),
    {
        proof {
            lemma_filed(self.by_entry@, path@);
        }
        let mut i: usize = 0;
        while i < self.by_entry.len()
            invariant
                i <= self.by_entry@.len(),
                filed_once(self.by_entry@),
                forall|j: int|
                    0 <= j < i ==> !paths::same_path((#[trigger] self.by_entry@[j]).path@, path@),
            decreases self.by_entry@.len() - i,
        {
            if is_same_path(self.by_entry[i].path.as_str(), path) {
                proof {
                    lemma_filed(self.by_entry@, path@);
                }
                return copy_indices(&self.by_entry[i].tabs);
            }
            i += 1;
        }
        Vec::new()
    }
}

/// A copy of the indices.
fn copy_indices(indices: &Vec<usize>) -> (copy: Vec<usize>)
    ensures
        copy@ == indices@,
{
    let mut copy: Vec<usize> = Vec::new();
    let mut i: usize = 0;
    while i < indices.len()
        invariant
            i <= indices@.len(),
            copy@ == indices@.take(i as int),
        decreases indices@.len() - i,
    {
        copy.push(indices[i]);
        i += 1;
        assert(copy@ =~= indices@.take(i as int));
    }
    assert(indices@.take(i as int) =~= indices@);
    copy
}

/// Whether `indices` holds `index`.
pub(crate) fn holds_index(indices: &Vec<usize>, index: usize) -> (found: bool)
    ensures
        found == indices@.contains(index),
{
    let mut i: usize = 0;
    while i < indices.len()
        invariant
            i <= indices@.len(),
            forall|j: int| 0 <= j < i ==> indices@[j] != index,
        decreases indices@.len() - i,
    {
        if indices[i] == index {
            return true;
        }
        i += 1;
    }
    false
}

impl TabStrip {
    /// The repository root a group is bound to.
    fn group_root(&self, id: u64) -> (root: Option<&String>)
        ensures
            match root {
                Some(found) => self@.group_root(id) == Some(found@),
                None => self@.group_root(id) is None,
            },
    {
        let mut i: usize = 0;
        while i < self.tab_groups.len()
            invariant
                i <= self.tab_groups@.len(),
                forall|j: int| 0 <= j < i ==> (#[trigger] self@.groups[j]).id != id,
            decreases self.tab_groups@.len() - i,
        {
            assert(self@.groups[i as int] == self.tab_groups@[i as int]@);
            if self.tab_groups[i].id == id {
                proof {
                    lemma_group_pos(self@.groups, id, i as int);
                }
                return match &self.tab_groups[i].repo_root {
                    Some(root) => Some(root),
                    None => None,
                };
            }
            i += 1;
        }
        proof {
            lemma_group_pos(self@.groups, id, i as int);
        }
        None
    }

    /// Partition of tabs across registry entries for display. Only tabs bound
    /// to a repository group participate, and each belongs to the entry its
    /// group is bound to. A bound root that has left the registry drops its tabs
    /// loose, and a tab without such a group always stays loose, so registering
    /// a repository never absorbs tabs that were there before.
    pub fn repo_mode_tab_partition(&self, entry_paths: &Vec<String>) -> (partition: TabPartition)
        ensures
            filed_once(partition.by_entry@),
            forall|entry: Seq<char>| #[trigger]
                filed(partition.by_entry@, entry) == self@.members(
                    text::texts(entry_paths@),
                    entry,
                ),
            forall|i: int|
                0 <= i < partition.by_entry@.len() ==> text::texts(entry_paths@).contains(
                    (#[trigger] partition.by_entry@[i]).path@,
                ) && partition.by_entry@[i].tabs@.len() > 0,
            partition.loose@ == self@.loose(text::texts(entry_paths@)),
    {
        let ghost entries = text::texts(entry_paths@);
        let ghost view = self@;
        let ghost is_loose = |i: int| view.owner(entries, i) is None;
        let mut by_entry: Vec<EntryTabs> = Vec::new();
        let mut loose: Vec<usize> = Vec::new();
        let mut index: usize = 0;
        assert(loose@ =~= indices_where(0, is_loose));
        while index < self.tabs.len()
            invariant
                index <= self.tabs@.len(),
                entries == text::texts(entry_paths@),
                view == self@,
                is_loose == (|i: int| view.owner(entries, i) is None),
                loose@ == indices_where(index as int, is_loose),
                filed_once(by_entry@),
                forall|i: int|
                    0 <= i < by_entry@.len() ==> entries.contains(
                        (#[trigger] by_entry@[i]).path@,
                    ) && by_entry@[i].tabs@.len() > 0,
                forall|entry: Seq<char>| #[trigger]
                    filed(by_entry@, entry) == indices_where(
                        index as int,
                        |i: int| view.belongs(entries, i, entry),
                    ),
            decreases self.tabs@.len() - index,
        {
            let owner: Option<String> = match self.tabs[index].group_id {
                Some(id) => match self.group_root(id) {
                    Some(root) => repo_mode_bound_tab_owner(root.as_str(), entry_paths),
                    None => None,
                },
                None => None,
            };
            assert(text::text_view(owner) == view.owner(entries, index as int));
            proof {
                if let Some(root) = view.bound_root(index as int) {
                    lemma_owner(entries, root);
                }
            }
            let ghost before = by_entry@;
            match owner {
                Some(path) => {
                    file_under(&mut by_entry, path.as_str(), index);
                    proof {
                        assert forall|entry: Seq<char>| #[trigger] filed(
                            by_entry@,
                            entry,
                        ) == indices_where(
                            index + 1,
                            |i: int| view.belongs(entries, i, entry),
                        ) by {
                            assert(filed(before, entry) == indices_where(
                                index as int,
                                |i: int| view.belongs(entries, i, entry),
                            ));
                        }
                    }
                },
                None => {
                    loose.push(index);
                    proof {
                        assert forall|entry: Seq<char>| #[trigger] filed(
                            by_entry@,
                            entry,
                        ) == indices_where(
                            index + 1,
                            |i: int| view.belongs(entries, i, entry),
                        ) by {
                            assert(filed(before, entry) == indices_where(
                                index as int,
                                |i: int| view.belongs(entries, i, entry),
                            ));
                        }
                    }
                },
            }
            index += 1;
        }
        TabPartition { by_entry, loose }
    }
}

/// File `index` under `path`, behind what is filed there.
fn file_under(by_entry: &mut Vec<EntryTabs>, path: &str, index: usize)
    requires
        filed_once(old(by_entry)@),
    ensures
        filed_once(final(by_entry)@),
        forall|entry: Seq<char>| #[trigger]
            filed(final(by_entry)@, entry) == (if paths::same_path(entry, path@) {
                filed(old(by_entry)@, entry).push(index)
            } else {
                filed(old(by_entry)@, entry)
            }),
        forall|i: int|
            0 <= i < final(by_entry)@.len() ==> {
                ||| (#[trigger] final(by_entry)@[i]).path@ == path@
                ||| exists|j: int|
                    0 <= j < old(by_entry)@.len() && (#[trigger] old(by_entry)@[j]).path@
                        == final(by_entry)@[i].path@
            },
        (forall|j: int| 0 <= j < old(by_entry)@.len() ==> (#[trigger] old(by_entry)@[j]).tabs@.len()
            > 0) ==> (forall|i: int|
            0 <= i < final(by_entry)@.len() ==> (#[trigger] final(by_entry)@[i]).tabs@.len() > 0),
{
    let ghost before = by_entry@;
    let mut at: usize = 0;
    while at < by_entry.len() && !is_same_path(by_entry[at].path.as_str(), path)
        invariant
            at <= by_entry@.len(),
            by_entry@ == before,
            forall|j: int|
                0 <= j < at ==> !paths::same_path((#[trigger] before[j]).path@, path@),
        decreases by_entry@.len() - at,
    {
        at += 1;
    }
    if at < by_entry.len() {
        let mut tabs = copy_indices(&by_entry[at].tabs);
        tabs.push(index);
        let filed_path = by_entry[at].path.clone();
        by_entry.set(at, EntryTabs { path: filed_path, tabs });
        let ghost after = by_entry@;
        proof {
            assert(paths::same_path(after[at as int].path@, path@));
            assert forall|i: int, j: int| 0 <= i < j < after.len() implies !paths::same_path(
                (#[trigger] after[i]).path@,
                (#[trigger] after[j]).path@,
            ) by {
                assert(!paths::same_path(before[i].path@, before[j].path@));
            }
            assert forall|entry: Seq<char>| #[trigger] filed(after, entry) == (if paths::same_path(
                entry,
                path@,
            ) {
                filed(before, entry).push(index)
            } else {
                filed(before, entry)
            }) by {
                lemma_filed(before, entry);
                lemma_filed(after, entry);
                lemma_filed_other(before, after, at as int, entry);
            }
            assert forall|i: int| 0 <= i < after.len() implies {
                ||| (#[trigger] after[i]).path@ == path@
                ||| exists|j: int|
                    0 <= j < before.len() && (#[trigger] before[j]).path@ == after[i].path@
            } by {
                assert(before[i].path@ == after[i].path@);
            }
            assert(before.len() == after.len());
            assert forall|i: int|
                0 <= i < after.len() && (forall|j: int|
                    0 <= j < before.len() ==> (#[trigger] before[j]).tabs@.len() > 0) implies (
            #[trigger] after[i]).tabs@.len() > 0 by {
                if i != at {
                    assert(after[i] == before[i]);
                }
            }
        }
    } else {
        let mut tabs: Vec<usize> = Vec::new();
        tabs.push(index);
        by_entry.push(EntryTabs { path: path.to_owned(), tabs });
        let ghost after = by_entry@;
        proof {
            assert(after.drop_last() =~= before);
            lemma_filed(before, path@);
            assert forall|entry: Seq<char>| #[trigger] filed(after, entry) == (if paths::same_path(
                entry,
                path@,
            ) {
                filed(before, entry).push(index)
            } else {
                filed(before, entry)
            }) by {
                if paths::same_path(entry, path@) {
                    lemma_filed(before, entry);
                    assert(filed(after, entry) =~= filed(before, entry).push(index));
                }
            }
            assert forall|i: int| 0 <= i < after.len() implies {
                ||| (#[trigger] after[i]).path@ == path@
                ||| exists|j: int|
                    0 <= j < before.len() && (#[trigger] before[j]).path@ == after[i].path@
            } by {
                if i < before.len() {
                    assert(before[i].path@ == after[i].path@);
                }
            }
        }
    }
}

/// The owner of a root is an entry at that path, if there is one.
pub proof fn lemma_owner(entries: Seq<Seq<char>>, root: Seq<char>)
    ensures
        match rows::owner_of(entries, root) {
            Some(owner) => entries.contains(owner) && paths::same_path(owner, root),
            None => true,
        },
        forall|entry: Seq<char>| #[trigger]
            entries.contains(entry) && paths::same_path(entry, root) ==> rows::owner_of(
                entries,
                root,
            ) is Some,
{
    let known = paths::all_parts(entries);
    let part = paths::parts(root);
    keys::lemma_key_pos(known, part);
    if paths::lists(entries, root) {
        let at = paths::path_pos(entries, root);
        assert(known[at] == paths::parts(entries[at]));
        assert(entries.contains(entries[at]));
    }
    assert forall|entry: Seq<char>| #[trigger]
        entries.contains(entry) && paths::same_path(entry, root) implies rows::owner_of(
        entries,
        root,
    ) is Some by {
        let i = choose|i: int| 0 <= i < entries.len() && entries[i] == entry;
        assert(known[i] == part);
    }
}

/// Changing what is filed at one place changes what is filed under its path
/// only.
proof fn lemma_filed_other(
    before: Seq<EntryTabs>,
    after: Seq<EntryTabs>,
    at: int,
    entry: Seq<char>,
)
    requires
        filed_once(before),
        filed_once(after),
        before.len() == after.len(),
        0 <= at < before.len(),
        before[at].path@ == after[at].path@,
        forall|i: int| 0 <= i < before.len() && i != at ==> before[i] == after[i],
    ensures
        !paths::same_path(entry, before[at].path@) ==> filed(before, entry) == filed(after, entry),
{
    lemma_filed(before, entry);
    lemma_filed(after, entry);
    if !paths::same_path(entry, before[at].path@) {
        if exists|i: int|
            0 <= i < before.len() && paths::same_path((#[trigger] before[i]).path@, entry) {
            let i = choose|i: int|
                0 <= i < before.len() && paths::same_path((#[trigger] before[i]).path@, entry);
            assert(paths::same_path(after[i].path@, entry));
        } else {
            assert forall|i: int| 0 <= i < after.len() implies !paths::same_path(
                (#[trigger] after[i]).path@,
                entry,
            ) by {
                assert(!paths::same_path(before[i].path@, entry));
            }
        }
    }
}

impl TabStrip {
    /// The section a tab group belongs to: the root of a still-registered
    /// repository entry, or `None` for the loose tabs.
    ///
    /// Session restore copies a group's root whatever the flags say, so a build
    /// with either feature off can hold a root it never shows: both flags count.
    pub fn repo_mode_group_section(
        &self,
        flags: FeatureFlags,
        group_id: u64,
        entry_paths: &Vec<String>,
    ) -> (section: Option<String>)
        ensures
            text::text_view(section) == self@.group_section(
                flags,
                group_id,
                text::texts(entry_paths@),
            ),
    {
        if !flags.repo_mode || !flags.grouped_tabs {
            return None;
        }
        match self.group_root(group_id) {
            Some(root) => repo_mode_bound_tab_owner(root.as_str(), entry_paths),
            None => None,
        }
    }

    /// The section of the tab at `tab_index`. Loose when it has no group, its
    /// group carries no repository root, that root is not a registered entry, or
    /// either feature is off.
    pub fn repo_mode_tab_section(
        &self,
        flags: FeatureFlags,
        tab_index: usize,
        entry_paths: &Vec<String>,
    ) -> (section: Option<String>)
        ensures
            text::text_view(section) == self@.section(
                flags,
                tab_index as int,
                text::texts(entry_paths@),
            ),
    {
        if tab_index >= self.tabs.len() {
            return None;
        }
        match self.tabs[tab_index].group_id {
            Some(id) => self.repo_mode_group_section(flags, id, entry_paths),
            None => None,
        }
    }

    /// The tab that the one at `index` exchanges places with when it is dragged
    /// one step. Tabs of other sections are skipped rather than stopped at, and
    /// with none of the own section left in that direction the tab stays put.
    /// Whether a pinned tab may move is for the caller to decide.
    pub fn section_neighbor(
        &self,
        flags: FeatureFlags,
        index: usize,
        forward: bool,
        entry_paths: &Vec<String>,
    ) -> (out: Option<usize>)
        ensures
            match out {
                Some(found) => self@.neighbor(
                    flags,
                    index as int,
                    forward,
                    text::texts(entry_paths@),
                ) == Some(found as int) && found < self.tabs@.len(),
                None => self@.neighbor(flags, index as int, forward, text::texts(entry_paths@)) is None,
            },
    {
        let ghost entries = text::texts(entry_paths@);
        if index >= self.tabs.len() {
            return None;
        }
        let section = self.repo_mode_tab_section(flags, index, entry_paths);
        let ghost wanted = text::text_view(section);
        if forward {
            let mut at: usize = index + 1;
            while at < self.tabs.len()
                invariant
                    index < at <= self.tabs@.len(),
                    forward,
                    entries == text::texts(entry_paths@),
                    wanted == text::text_view(section),
                    wanted == self@.section(flags, index as int, entries),
                    self@.same_section_below(flags, entries, wanted, index + 1)
                        == self@.same_section_below(flags, entries, wanted, at as int),
                decreases self.tabs@.len() - at,
            {
                let here = self.repo_mode_tab_section(flags, at, entry_paths);
                if same_section(&here, &section) {
                    return Some(at);
                }
                at += 1;
            }
            None
        } else {
            let mut at: usize = index;
            while at > 0
                invariant
                    at <= index < self.tabs@.len(),
                    !forward,
                    entries == text::texts(entry_paths@),
                    wanted == text::text_view(section),
                    wanted == self@.section(flags, index as int, entries),
                    self@.same_section_above(flags, entries, wanted, index - 1)
                        == self@.same_section_above(flags, entries, wanted, at - 1),
                decreases at,
            {
                let here = self.repo_mode_tab_section(flags, at - 1, entry_paths);
                if same_section(&here, &section) {
                    return Some(at - 1);
                }
                at -= 1;
            }
            None
        }
    }

    /// Whether a drag must leave the group membership of the tab at `index`
    /// alone: a tab bound to a repository is never unbound by a drag, and no tab
    /// acquires a repository by being dragged over its group.
    pub fn repo_bound_drag_blocks_reassignment(
        &self,
        flags: FeatureFlags,
        index: usize,
        target_group: Option<u64>,
        entry_paths: &Vec<String>,
    ) -> (blocked: bool)
        ensures
            blocked == (self@.section(flags, index as int, text::texts(entry_paths@)) is Some || (
            target_group matches Some(id) && self@.group_section(
                flags,
                id,
                text::texts(entry_paths@),
            ) is Some)),
    {
        if self.repo_mode_tab_section(flags, index, entry_paths).is_some() {
            return true;
        }
        match target_group {
            Some(id) => self.repo_mode_group_section(flags, id, entry_paths).is_some(),
            None => false,
        }
    }

    /// The group bound to `root`, if any.
    pub fn bound_group(&self, root: &str) -> (id: Option<u64>)
        ensures
            id == self@.bound_group(root@),
    {
        let mut i: usize = 0;
        while i < self.tab_groups.len()
            invariant
                i <= self.tab_groups@.len(),
                forall|j: int| 0 <= j < i ==> (#[trigger] self@.groups[j]).repo_root != Some(root@),
            decreases self.tab_groups@.len() - i,
        {
            assert(self@.groups[i as int] == self.tab_groups@[i as int]@);
            if let Some(bound) = &self.tab_groups[i].repo_root {
                if same_text(bound.as_str(), root) {
                    proof {
                        lemma_bound_pos(self@.groups, root@, i as int);
                    }
                    return Some(self.tab_groups[i].id);
                }
            }
            i += 1;
        }
        proof {
            lemma_bound_pos(self@.groups, root@, i as int);
        }
        None
    }

    /// The tabs that are members of the group.
    fn group_tabs(&self, id: u64) -> (indices: Vec<usize>)
        ensures
            indices@ == self@.group_tabs(id),
    {
        let ghost view = self@;
        let ghost keep = |i: int| view.tabs[i].group_id == Some(id);
        let mut indices: Vec<usize> = Vec::new();
        let mut i: usize = 0;
        assert(indices@ =~= indices_where(0, keep));
        while i < self.tabs.len()
            invariant
                i <= self.tabs@.len(),
                view == self@,
                keep == (|i: int| view.tabs[i].group_id == Some(id)),
                indices@ == indices_where(i as int, keep),
            decreases self.tabs@.len() - i,
        {
            if let Some(member_of) = self.tabs[i].group_id {
                if member_of == id {
                    indices.push(i);
                }
            }
            i += 1;
        }
        indices
    }

    /// Tab indices in the group bound to `root`, in tab order; empty when no
    /// group is bound to it. Reads group membership directly rather than going
    /// through the display partition.
    pub fn repo_mode_bound_group_tab_indices(&self, root: &str) -> (indices: Vec<usize>)
        ensures
            indices@ == (match self@.bound_group(root@) {
                Some(id) => self@.group_tabs(id),
                None => Seq::empty(),
            }),
    {
        match self.bound_group(root) {
            Some(id) => self.group_tabs(id),
            None => Vec::new(),
        }
    }

    /// The first of `indices` whose tab has the identity.
    fn find_id(&self, indices: &Vec<usize>, id: u64) -> (at: Option<usize>)
        ensures
            match at {
                Some(k) => k < indices@.len() && k == self@.pos_of_id(indices@, id),
                None => self@.pos_of_id(indices@, id) == indices@.len(),
            },
    {
        let mut k: usize = 0;
        assert(indices@.skip(0) =~= indices@);
        while k < indices.len()
            invariant
                k <= indices@.len(),
                self@.pos_of_id(indices@, id) == k + self@.pos_of_id(indices@.skip(k as int), id),
            decreases indices@.len() - k,
        {
            let index = indices[k];
            assert(indices@.skip(k as int)[0] == index);
            assert(indices@.skip(k as int).skip(1) =~= indices@.skip(k + 1));
            if index < self.tabs.len() && self.tabs[index].id == id {
                return Some(k);
            }
            k += 1;
        }
        assert(self@.pos_of_id(indices@.skip(k as int), id) == 0);
        None
    }

    /// Most-recently-used index among `indices`. Falls back to the first index
    /// given.
    pub fn mru_first_among(&self, indices: &Vec<usize>) -> (out: Option<usize>)
        ensures
            out == self@.most_recent(self@.mru, indices@),
    {
        let mut i: usize = 0;
        assert(self@.mru.skip(0) =~= self@.mru);
        while i < self.tab_mru_order.len()
            invariant
                i <= self.tab_mru_order@.len(),
                self@.most_recent(self@.mru, indices@) == self@.most_recent(
                    self@.mru.skip(i as int),
                    indices@,
                ),
            decreases self.tab_mru_order@.len() - i,
        {
            let id = self.tab_mru_order[i];
            assert(self@.mru.skip(i as int)[0] == id);
            assert(self@.mru.skip(i as int).skip(1) =~= self@.mru.skip(i + 1));
            if let Some(k) = self.find_id(indices, id) {
                return Some(indices[k]);
            }
            i += 1;
        }
        if indices.len() > 0 {
            Some(indices[0])
        } else {
            None
        }
    }

    /// Most-recently-used member of the group. Falls back to the first member by
    /// tab index.
    pub fn mru_first_tab_index_in_group(&self, group_id: u64) -> (out: Option<usize>)
        ensures
            out == self@.most_recent(self@.mru, self@.group_tabs(group_id)),
    {
        let indices = self.group_tabs(group_id);
        self.mru_first_among(&indices)
    }

    /// The first tab with the identity.
    fn find_tab(&self, id: u64) -> (at: Option<usize>)
        ensures
            match at {
                Some(i) => i < self.tabs@.len() && i == self@.tab_pos(id),
                None => self@.tab_pos(id) == self.tabs@.len(),
            },
    {
        let mut i: usize = 0;
        while i < self.tabs.len()
            invariant
                i <= self.tabs@.len(),
                forall|j: int| 0 <= j < i ==> (#[trigger] self.tabs@[j]).id != id,
            decreases self.tabs@.len() - i,
        {
            if self.tabs[i].id == id {
                proof {
                    lemma_tab_pos(self.tabs@, id, i as int);
                }
                return Some(i);
            }
            i += 1;
        }
        proof {
            lemma_tab_pos(self.tabs@, id, i as int);
        }
        None
    }

    /// Tab indices in most-recently-used order, then any tab the recency list
    /// does not mention, in tab order. The recency list can hold identities of
    /// closed tabs and lack new ones, so it ranks the tabs and never lists them.
    pub fn tab_indices_in_mru_order(&self) -> (indices: Vec<usize>)
        ensures
            indices@ == self@.by_recency(),
    {
        let mut indices: Vec<usize> = Vec::new();
        let mut i: usize = 0;
        assert(indices@ =~= self@.named(self@.mru.take(0)));
        while i < self.tab_mru_order.len()
            invariant
                i <= self.tab_mru_order@.len(),
                indices@ == self@.named(self@.mru.take(i as int)),
            decreases self.tab_mru_order@.len() - i,
        {
            let id = self.tab_mru_order[i];
            assert(self@.mru.take(i + 1).drop_last() =~= self@.mru.take(i as int));
            assert(self@.mru.take(i + 1).last() == id);
            if let Some(at) = self.find_tab(id) {
                indices.push(at);
            }
            i += 1;
        }
        assert(self@.mru.take(i as int) =~= self@.mru);
        let ghost ranked = indices@;
        let ghost unranked = |i: int| !ranked.contains(i as usize);
        let mut index: usize = 0;
        assert(indices@ =~= ranked + indices_where(0, unranked));
        while index < self.tabs.len()
            invariant
                index <= self.tabs@.len(),
                ranked == self@.named(self@.mru),
                unranked == (|i: int| !ranked.contains(i as usize)),
                indices@ == ranked + indices_where(index as int, unranked),
            decreases self.tabs@.len() - index,
        {
            let known = holds_index(&indices, index);
            proof {
                lemma_indices_where(index as int, unranked);
                let tail = indices_where(index as int, unranked);
                assert(indices@.contains(index) <==> ranked.contains(index)) by {
                    if ranked.contains(index) {
                        let k = choose|k: int| 0 <= k < ranked.len() && ranked[k] == index;
                        assert(indices@[k] == index);
                    }
                    if indices@.contains(index) {
                        let k = choose|k: int| 0 <= k < indices@.len() && indices@[k] == index;
                        if k >= ranked.len() {
                            assert(tail[k - ranked.len()] == index);
                        } else {
                            assert(ranked[k] == index);
                        }
                    }
                }
            }
            if !known {
                indices.push(index);
                assert(indices@ =~= ranked + indices_where(index + 1, unranked));
            }
            index += 1;
        }
        indices
    }
}

/// Whether two optional keys are the same.
fn same_section(a: &Option<String>, b: &Option<String>) -> (same: bool)
    ensures
        same == (text::text_view(*a) == text::text_view(*b)),
{
    match (a, b) {
        (Some(left), Some(right)) => same_text(left.as_str(), right.as_str()),
        (None, None) => true,
        _ => false,
    }
}

impl TabStripView {
    /// The first group bound to `root`.
    pub open spec fn bound_group(self, root: Seq<char>) -> Option<u64> {
        let at = bound_pos(self.groups, root);
        if at < self.groups.len() {
            Some(self.groups[at].id)
        } else {
            None
        }
    }

    /// The members of the group, in tab order.
    pub open spec fn group_tabs(self, id: u64) -> Seq<usize> {
        indices_where(self.tabs.len() as int, |i: int| self.tabs[i].group_id == Some(id))
    }
}

/// Every tab is filed exactly once: under the one entry it is bound to, or among
/// the loose ones.
pub proof fn every_tab_is_filed_once(
    strip: TabStripView,
    entries: Seq<Seq<char>>,
    index: int,
    entry: Seq<char>,
)
    requires
        0 <= index < strip.tabs.len() <= usize::MAX,
    ensures
        strip.loose(entries).contains(index as usize) <==> strip.owner(entries, index) is None,
        strip.members(entries, entry).contains(index as usize) <==> strip.belongs(
            entries,
            index,
            entry,
        ),
        strip.owner(entries, index) matches Some(owner) ==> entries.contains(owner)
            && (strip.bound_root(index) matches Some(root) && paths::same_path(owner, root)),
{
    if let Some(root) = strip.bound_root(index) {
        lemma_owner(entries, root);
    }
    let count = strip.tabs.len() as int;
    lemma_indices_where(count, |i: int| strip.owner(entries, i) is None);
    lemma_indices_where(count, |i: int| strip.belongs(entries, i, entry));
}

/// With both features on, the section a drag sees is the one that renders.
pub proof fn section_is_owner(
    strip: TabStripView,
    flags: FeatureFlags,
    entries: Seq<Seq<char>>,
    index: int,
)
    ensures
        flags.repo_mode && flags.grouped_tabs ==> strip.section(flags, index, entries)
            == strip.owner(entries, index),
        !(flags.repo_mode && flags.grouped_tabs) ==> strip.section(flags, index, entries) is None,
{
}

proof fn lemma_below(
    strip: TabStripView,
    flags: FeatureFlags,
    entries: Seq<Seq<char>>,
    section: Option<Seq<char>>,
    from: int,
)
    requires
        0 <= from,
    ensures
        match strip.same_section_below(flags, entries, section, from) {
            Some(found) => from <= found < strip.tabs.len() && strip.section(flags, found, entries)
                == section && forall|j: int|
                from <= j < found ==> #[trigger] strip.section(flags, j, entries) != section,
            None => forall|j: int|
                from <= j < strip.tabs.len() ==> #[trigger] strip.section(flags, j, entries)
                    != section,
        },
    decreases strip.tabs.len() - from,
{
    if from < strip.tabs.len() && strip.section(flags, from, entries) != section {
        lemma_below(strip, flags, entries, section, from + 1);
    }
}

proof fn lemma_above(
    strip: TabStripView,
    flags: FeatureFlags,
    entries: Seq<Seq<char>>,
    section: Option<Seq<char>>,
    from: int,
)
    requires
        from < strip.tabs.len(),
    ensures
        match strip.same_section_above(flags, entries, section, from) {
            Some(found) => 0 <= found <= from && strip.section(flags, found, entries) == section
                && forall|j: int|
                found < j <= from ==> #[trigger] strip.section(flags, j, entries) != section,
            None => forall|j: int|
                0 <= j <= from ==> #[trigger] strip.section(flags, j, entries) != section,
        },
    decreases from + 1,
{
    if from >= 0 && strip.section(flags, from, entries) != section {
        lemma_above(strip, flags, entries, section, from - 1);
    }
}

/// A dragged tab only ever exchanges places with the nearest tab of its own
/// section in the direction of the drag, and stays put exactly when there is
/// none: a drag never leaves its repository, nor enters one.
pub proof fn drags_stay_in_their_section(
    strip: TabStripView,
    flags: FeatureFlags,
    index: int,
    forward: bool,
    entries: Seq<Seq<char>>,
)
    requires
        0 <= index < strip.tabs.len(),
    ensures
        match strip.neighbor(flags, index, forward, entries) {
            Some(found) => {
                &&& 0 <= found < strip.tabs.len()
                &&& forward ==> index < found
                &&& !forward ==> found < index
                &&& strip.section(flags, found, entries) == strip.section(flags, index, entries)
                &&& forall|j: int|
                    index < j < found || found < j < index ==> #[trigger] strip.section(
                        flags,
                        j,
                        entries,
                    ) != strip.section(flags, index, entries)
            },
            None => forall|j: int|
                (forward && index < j < strip.tabs.len() || !forward && 0 <= j < index)
                    ==> #[trigger] strip.section(flags, j, entries) != strip.section(
                    flags,
                    index,
                    entries,
                ),
        },
{
    let section = strip.section(flags, index, entries);
    if forward {
        lemma_below(strip, flags, entries, section, index + 1);
    } else {
        lemma_above(strip, flags, entries, section, index - 1);
    }
}

/// With no repository sections in the window, the neighbour is the adjacent
/// tab, as it is without repo mode.
pub proof fn neighbor_is_adjacent_without_sections(
    strip: TabStripView,
    flags: FeatureFlags,
    index: int,
    forward: bool,
    entries: Seq<Seq<char>>,
)
    requires
        0 <= index < strip.tabs.len(),
        forall|j: int|
            0 <= j < strip.tabs.len() ==> #[trigger] strip.section(flags, j, entries) is None,
    ensures
        strip.neighbor(flags, index, forward, entries) == (if forward {
            if index + 1 < strip.tabs.len() {
                Some(index + 1)
            } else {
                None
            }
        } else if index > 0 {
            Some(index - 1)
        } else {
            None
        }),
{
    drags_stay_in_their_section(strip, flags, index, forward, entries);
    assert(strip.section(flags, index, entries) is None);
    if forward && index + 1 < strip.tabs.len() {
        assert(strip.section(flags, index + 1, entries) is None);
    }
    if !forward && index > 0 {
        assert(strip.section(flags, index - 1, entries) is None);
    }
}

/// The strip with the tabs at `i` and `j` exchanged.
pub open spec fn exchanged_tabs(strip: TabStripView, i: int, j: int) -> TabStripView {
    TabStripView {
        tabs: strip.tabs.update(i, strip.tabs[j]).update(j, strip.tabs[i]),
        ..strip
    }
}

/// Exchanging a tab with its section neighbour changes no slot's section: every
/// repository keeps exactly the slots it had.
pub proof fn section_swaps_keep_every_slot(
    strip: TabStripView,
    flags: FeatureFlags,
    index: int,
    forward: bool,
    entries: Seq<Seq<char>>,
    slot: int,
)
    requires
        0 <= index < strip.tabs.len(),
        strip.neighbor(flags, index, forward, entries) is Some,
    ensures
        exchanged_tabs(
            strip,
            index,
            strip.neighbor(flags, index, forward, entries)->0,
        ).section(flags, slot, entries) == strip.section(flags, slot, entries),
{
    drags_stay_in_their_section(strip, flags, index, forward, entries);
}

proof fn lemma_named(strip: TabStripView, ids: Seq<u64>)
    requires
        strip.tabs.len() <= usize::MAX,
    ensures
        forall|k: int|
            0 <= k < strip.named(ids).len() ==> (#[trigger] strip.named(ids)[k]) < strip.tabs.len()
                && ids.contains(strip.tabs[strip.named(ids)[k] as int].id),
        ids.no_duplicates() ==> strip.named(ids).no_duplicates(),
    decreases ids.len(),
{
    if ids.len() > 0 {
        let init = ids.drop_last();
        let last = ids.last();
        let before = strip.named(init);
        let after = strip.named(ids);
        lemma_named(strip, init);
        lemma_tab_pos_found(strip.tabs, last);
        assert forall|k: int| 0 <= k < after.len() implies (#[trigger] after[k]) < strip.tabs.len()
            && ids.contains(strip.tabs[after[k] as int].id) by {
            if k < before.len() {
                assert(after[k] == before[k]);
                let id = strip.tabs[before[k] as int].id;
                assert(init.contains(id));
                let j = choose|j: int| 0 <= j < init.len() && init[j] == id;
                assert(ids[j] == id);
            } else {
                assert(ids[ids.len() - 1] == last);
            }
        }
        if ids.no_duplicates() {
            assert(init.no_duplicates());
            assert forall|k: int, l: int| 0 <= k < after.len() && 0 <= l < after.len() && k != l implies after[k]
                != after[l] by {
                assert(!init.contains(last)) by {
                    if init.contains(last) {
                        let j = choose|j: int| 0 <= j < init.len() && init[j] == last;
                        assert(ids[j] == ids[ids.len() - 1]);
                    }
                }
                if k < before.len() {
                    assert(init.contains(strip.tabs[before[k] as int].id));
                }
                if l < before.len() {
                    assert(init.contains(strip.tabs[before[l] as int].id));
                }
            }
        }
    }
}

proof fn lemma_tab_pos_found(tabs: Seq<Tab>, id: u64)
    ensures
        0 <= tab_pos_in(tabs, id) <= tabs.len(),
        tab_pos_in(tabs, id) < tabs.len() ==> tabs[tab_pos_in(tabs, id)].id == id,
    decreases tabs.len(),
{
    if tabs.len() > 0 && tabs[0].id != id {
        lemma_tab_pos_found(tabs.skip(1), id);
    }
}

/// The tabs in order of use are all the tabs, each exactly once.
pub proof fn recency_lists_every_tab_once(strip: TabStripView)
    requires
        strip.mru.no_duplicates(),
        strip.tabs.len() <= usize::MAX,
    ensures
        strip.by_recency().no_duplicates(),
        forall|i: int|
            0 <= i < strip.tabs.len() ==> #[trigger] strip.by_recency().contains(i as usize),
        forall|k: int|
            0 <= k < strip.by_recency().len() ==> #[trigger] strip.by_recency()[k]
                < strip.tabs.len(),
{
    let ranked = strip.named(strip.mru);
    let unranked = |i: int| !ranked.contains(i as usize);
    let count = strip.tabs.len() as int;
    let tail = indices_where(count, unranked);
    let all = strip.by_recency();
    lemma_named(strip, strip.mru);
    lemma_indices_where(count, unranked);
    assert(all == ranked + tail);
    assert forall|k: int, l: int| 0 <= k < all.len() && 0 <= l < all.len() && k != l implies all[k]
        != all[l] by {
        if k < ranked.len() && l >= ranked.len() {
            assert(ranked.contains(all[k]));
            assert(all[l] == tail[l - ranked.len()]);
        } else if l < ranked.len() && k >= ranked.len() {
            assert(ranked.contains(all[l]));
            assert(all[k] == tail[k - ranked.len()]);
        } else if k >= ranked.len() {
            assert(all[k] == tail[k - ranked.len()]);
            assert(all[l] == tail[l - ranked.len()]);
        }
    }
    assert forall|i: int| 0 <= i < count implies #[trigger] all.contains(i as usize) by {
        if ranked.contains(i as usize) {
            let k = choose|k: int| 0 <= k < ranked.len() && ranked[k] == i as usize;
            assert(all[k] == i as usize);
        } else {
            assert(tail.contains(i as usize));
            let k = choose|k: int| 0 <= k < tail.len() && tail[k] == i as usize;
            assert(all[ranked.len() + k] == i as usize);
        }
    }
    assert forall|k: int| 0 <= k < all.len() implies #[trigger] all[k] < strip.tabs.len() by {
        if k >= ranked.len() {
            assert(all[k] == tail[k - ranked.len()]);
        }
    }
}

/// Of no tabs none is the most recent.
pub proof fn lemma_most_recent_of_none(strip: TabStripView, ids: Seq<u64>)
    ensures
        strip.most_recent(ids, Seq::empty()) is None,
    decreases ids.len(),
{
    if ids.len() > 0 {
        lemma_most_recent_of_none(strip, ids.skip(1));
    }
}

/// Of some tabs one is the most recent.
pub proof fn lemma_most_recent_of_some(strip: TabStripView, ids: Seq<u64>, indices: Seq<usize>)
    requires
        indices.len() > 0,
    ensures
        strip.most_recent(ids, indices) matches Some(index) && indices.contains(index),
    decreases ids.len(),
{
    if ids.len() == 0 {
        assert(indices.contains(indices[0]));
    } else {
        lemma_pos_of_id(strip, indices, ids[0]);
        let at = strip.pos_of_id(indices, ids[0]);
        if at < indices.len() {
            assert(indices.contains(indices[at]));
        } else {
            lemma_most_recent_of_some(strip, ids.skip(1), indices);
        }
    }
}

proof fn lemma_pos_of_id(strip: TabStripView, indices: Seq<usize>, id: u64)
    ensures
        0 <= strip.pos_of_id(indices, id) <= indices.len(),
    decreases indices.len(),
{
    if indices.len() > 0 {
        lemma_pos_of_id(strip, indices.skip(1), id);
    }
}

proof fn lemma_same_indices(count: int, a: spec_fn(int) -> bool, b: spec_fn(int) -> bool)
    requires
        forall|i: int| 0 <= i < count ==> #[trigger] a(i) == b(i),
    ensures
        indices_where(count, a) == indices_where(count, b),
    decreases count,
{
    if count > 0 {
        lemma_same_indices(count - 1, a, b);
        assert(a(count - 1) == b(count - 1));
    }
}

/// Which tabs belong to an entry depends on which entries there are, not on the
/// order they are listed in.
pub proof fn members_ignore_entry_order(
    strip: TabStripView,
    a: Seq<Seq<char>>,
    b: Seq<Seq<char>>,
    entry: Seq<char>,
)
    requires
        forall|k: Seq<char>| #[trigger] a.contains(k) <==> b.contains(k),
    ensures
        strip.members(a, entry) == strip.members(b, entry),
        strip.loose(a) == strip.loose(b),
{
    let count = strip.tabs.len() as int;
    assert forall|i: int| strip.belongs(a, i, entry) == strip.belongs(b, i, entry) && (
    strip.owner(a, i) is None <==> strip.owner(b, i) is None) by {
        if let Some(root) = strip.bound_root(i) {
            lemma_owner(a, root);
            lemma_owner(b, root);
            paths::lemma_lists_alike(a, b, root);
        }
    }
    assert forall|i: int| 0 <= i < count implies (strip.owner(a, i) is None) == (strip.owner(
        b,
        i,
    ) is None) by {
        assert(strip.belongs(a, i, entry) == strip.belongs(b, i, entry));
    }
    lemma_same_indices(
        count,
        |i: int| strip.belongs(a, i, entry),
        |i: int| strip.belongs(b, i, entry),
    );
    lemma_same_indices(
        count,
        |i: int| strip.owner(a, i) is None,
        |i: int| strip.owner(b, i) is None,
    );
}

/// Of the given tabs the one used last is found: the one whose id comes first
/// in the order of use among the ids that name a given tab.
pub proof fn tab_used_last_is_found(
    strip: TabStripView,
    ids: Seq<u64>,
    indices: Seq<usize>,
    k: int,
)
    requires
        0 <= k < ids.len(),
        exists|i: int|
            0 <= i < indices.len() && (#[trigger] indices[i]) < strip.tabs.len()
                && strip.tabs[indices[i] as int].id == ids[k],
        forall|j: int, i: int|
            #![trigger ids[j], indices[i]]
            0 <= j < k && 0 <= i < indices.len() && indices[i] < strip.tabs.len()
                ==> strip.tabs[indices[i] as int].id != ids[j],
    ensures
        strip.most_recent(ids, indices) matches Some(found) && indices.contains(found) && found
            < strip.tabs.len() && strip.tabs[found as int].id == ids[k],
    decreases ids.len(),
{
    lemma_given_tab(strip, indices, ids[0]);
    if k == 0 {
        let at = strip.pos_of_id(indices, ids[0]);
        assert(indices.contains(indices[at]));
    } else {
        let rest = ids.skip(1);
        assert forall|j: int, i: int|
            #![trigger rest[j], indices[i]]
            0 <= j < k - 1 && 0 <= i < indices.len() && indices[i]
                < strip.tabs.len() implies strip.tabs[indices[i] as int].id != rest[j] by {
            assert(rest[j] == ids[j + 1]);
        }
        tab_used_last_is_found(strip, rest, indices, k - 1);
    }
}

/// Where the order of use names none of the given tabs, the first of them is
/// taken, and where there is none, none.
pub proof fn unused_tabs_go_by_position(strip: TabStripView, ids: Seq<u64>, indices: Seq<usize>)
    requires
        forall|j: int, i: int|
            #![trigger ids[j], indices[i]]
            0 <= j < ids.len() && 0 <= i < indices.len() && indices[i] < strip.tabs.len()
                ==> strip.tabs[indices[i] as int].id != ids[j],
    ensures
        strip.most_recent(ids, indices) == (if indices.len() > 0 {
            Some(indices[0])
        } else {
            None
        }),
    decreases ids.len(),
{
    if ids.len() > 0 {
        let rest = ids.skip(1);
        lemma_given_tab(strip, indices, ids[0]);
        assert forall|j: int, i: int|
            #![trigger rest[j], indices[i]]
            0 <= j < rest.len() && 0 <= i < indices.len() && indices[i]
                < strip.tabs.len() implies strip.tabs[indices[i] as int].id != rest[j] by {
            assert(rest[j] == ids[j + 1]);
        }
        unused_tabs_go_by_position(strip, rest, indices);
    }
}

proof fn lemma_given_tab(strip: TabStripView, indices: Seq<usize>, id: u64)
    ensures
        0 <= strip.pos_of_id(indices, id) <= indices.len(),
        strip.pos_of_id(indices, id) < indices.len() ==> indices[strip.pos_of_id(indices, id)]
            < strip.tabs.len() && strip.tabs[indices[strip.pos_of_id(indices, id)] as int].id == id,
        forall|i: int|
            0 <= i < strip.pos_of_id(indices, id) && (#[trigger] indices[i]) < strip.tabs.len()
                ==> strip.tabs[indices[i] as int].id != id,
    decreases indices.len(),
{
    if indices.len() > 0 {
        let rest = indices.skip(1);
        lemma_given_tab(strip, rest, id);
        assert forall|i: int|
            0 <= i < strip.pos_of_id(indices, id) && (#[trigger] indices[i])
                < strip.tabs.len() implies strip.tabs[indices[i] as int].id != id by {
            if i > 0 {
                assert(rest[i - 1] == indices[i]);
            }
        }
    }
}

/// In the order of use the tabs that were used come first, the one used last in
/// front, and the tabs that were never used follow in the order of the strip.
pub proof fn recency_order_goes_by_use(strip: TabStripView, p: int, q: int)
    requires
        strip.tabs.len() <= usize::MAX,
        forall|i: int, j: int|
            0 <= i < j < strip.tabs.len() ==> (#[trigger] strip.tabs[i]).id != (
            #[trigger] strip.tabs[j]).id,
        strip.mru.no_duplicates(),
        0 <= p < q < strip.by_recency().len(),
    ensures
        ({
            let above = strip.tabs[strip.by_recency()[p] as int].id;
            let below = strip.tabs[strip.by_recency()[q] as int].id;
            &&& forall|a: int, b: int|
                #![trigger strip.mru[a], strip.mru[b]]
                0 <= a < strip.mru.len() && 0 <= b < strip.mru.len() && strip.mru[a] == above
                    && strip.mru[b] == below ==> a < b
            &&& !strip.mru.contains(above) ==> !strip.mru.contains(below) && strip.by_recency()[p]
                < strip.by_recency()[q]
        }),
{
    let ranked = strip.named(strip.mru);
    let keep = |i: int| !ranked.contains(i as usize);
    let rest = indices_where(strip.tabs.len() as int, keep);
    let all = strip.by_recency();
    lemma_named(strip, strip.mru);
    lemma_indices_where(strip.tabs.len() as int, keep);
    assert forall|x: int| 0 <= x < rest.len() implies !strip.mru.contains(
        strip.tabs[#[trigger] rest[x] as int].id,
    ) by {
        let at = rest[x] as int;
        if strip.mru.contains(strip.tabs[at].id) {
            let k = choose|k: int| 0 <= k < strip.mru.len() && strip.mru[k] == strip.tabs[at].id;
            lemma_named_holds(strip, strip.mru, k, at);
            assert(keep(at));
        }
    }
    if q < ranked.len() {
        lemma_named_order(strip, strip.mru, p, q);
    } else {
        assert(all[q] == rest[q - ranked.len()]);
        if p >= ranked.len() {
            assert(all[p] == rest[p - ranked.len()]);
        } else {
            assert(all[p] == ranked[p]);
        }
    }
}

proof fn lemma_named_holds(strip: TabStripView, ids: Seq<u64>, k: int, at: int)
    requires
        forall|i: int, j: int|
            0 <= i < j < strip.tabs.len() ==> (#[trigger] strip.tabs[i]).id != (
            #[trigger] strip.tabs[j]).id,
        0 <= k < ids.len(),
        0 <= at < strip.tabs.len(),
        strip.tabs[at].id == ids[k],
    ensures
        strip.named(ids).contains(at as usize),
    decreases ids.len(),
{
    let init = ids.drop_last();
    let before = strip.named(init);
    let after = strip.named(ids);
    lemma_tab_pos_found(strip.tabs, ids.last());
    if k < init.len() {
        assert(init[k] == ids[k]);
        lemma_named_holds(strip, init, k, at);
        let x = choose|x: int| 0 <= x < before.len() && before[x] == at as usize;
        assert(after[x] == at as usize);
    } else {
        lemma_tab_pos(strip.tabs, ids.last(), at);
        assert(after[before.len() as int] == at as usize);
    }
}

proof fn lemma_named_order(strip: TabStripView, ids: Seq<u64>, p: int, q: int)
    requires
        strip.tabs.len() <= usize::MAX,
        ids.no_duplicates(),
        0 <= p < q < strip.named(ids).len(),
    ensures
        ({
            let above = strip.tabs[strip.named(ids)[p] as int].id;
            let below = strip.tabs[strip.named(ids)[q] as int].id;
            &&& ids.contains(above)
            &&& forall|a: int, b: int|
                #![trigger ids[a], ids[b]]
                0 <= a < ids.len() && 0 <= b < ids.len() && ids[a] == above && ids[b] == below
                    ==> a < b
        }),
    decreases ids.len(),
{
    let init = ids.drop_last();
    let before = strip.named(init);
    let after = strip.named(ids);
    let above = strip.tabs[after[p] as int].id;
    let below = strip.tabs[after[q] as int].id;
    lemma_named(strip, ids);
    lemma_named(strip, init);
    lemma_tab_pos_found(strip.tabs, ids.last());
    if q < before.len() {
        assert(after[p] == before[p] && after[q] == before[q]);
        lemma_named_order(strip, init, p, q);
        assert(init.contains(below));
        assert forall|a: int, b: int|
            #![trigger ids[a], ids[b]]
            0 <= a < ids.len() && 0 <= b < ids.len() && ids[a] == above && ids[b]
                == below implies a < b by {
            let x = choose|x: int| 0 <= x < init.len() && init[x] == above;
            let y = choose|y: int| 0 <= y < init.len() && init[y] == below;
            assert(ids[x] == above && ids[y] == below);
            assert(a == x && b == y);
            assert(init[a] == above && init[b] == below);
        }
    } else {
        assert(after[p] == before[p]);
        assert(init.contains(above));
        let x = choose|x: int| 0 <= x < init.len() && init[x] == above;
        assert(ids[x] == above);
        assert(below == ids.last());
    }
}

/// A tab belongs to a repository exactly when its group is bound to a root that
/// the repository's path spells. The tabs of a repository, the loose tabs and
/// the tabs of a group are each listed in the order of the strip.
pub proof fn tabs_belong_by_their_group(
    strip: TabStripView,
    entries: Seq<Seq<char>>,
    entry: Seq<char>,
    index: int,
    at: int,
)
    requires
        0 <= index < strip.tabs.len() <= usize::MAX,
        strip.tabs[index].group_id is Some,
        0 <= at < strip.groups.len(),
        strip.groups[at].id == strip.tabs[index].group_id->0,
        forall|j: int|
            0 <= j < at ==> (#[trigger] strip.groups[j]).id != strip.tabs[index].group_id->0,
        entries.contains(entry),
    ensures
        strip.members(entries, entry).contains(index as usize) <==> (
        strip.groups[at].repo_root matches Some(root) && paths::same_path(root, entry)),
        strip.loose(entries).contains(index as usize) <==> (match strip.groups[at].repo_root {
            Some(root) => forall|e: int|
                0 <= e < entries.len() ==> !paths::same_path(root, #[trigger] entries[e]),
            None => true,
        }),
{
    lemma_group_pos(strip.groups, strip.tabs[index].group_id->0, at);
    every_tab_is_filed_once(strip, entries, index, entry);
    if let Some(root) = strip.groups[at].repo_root {
        lemma_owner(entries, root);
        if strip.owner(entries, index) is None {
            assert forall|e: int| 0 <= e < entries.len() implies !paths::same_path(
                root,
                #[trigger] entries[e],
            ) by {
                assert(entries.contains(entries[e]));
            }
        } else {
            let owner = strip.owner(entries, index)->0;
            let e = choose|e: int| 0 <= e < entries.len() && entries[e] == owner;
            assert(paths::same_path(root, entries[e]));
        }
    }
}

/// A tab without a group is loose and belongs to no repository.
pub proof fn ungrouped_tabs_are_loose(
    strip: TabStripView,
    entries: Seq<Seq<char>>,
    entry: Seq<char>,
    index: int,
)
    requires
        0 <= index < strip.tabs.len() <= usize::MAX,
        strip.tabs[index].group_id is None,
    ensures
        strip.loose(entries).contains(index as usize),
        !strip.members(entries, entry).contains(index as usize),
{
    every_tab_is_filed_once(strip, entries, index, entry);
}

/// The tabs of a repository, the loose tabs and the tabs of a group come in the
/// order of the strip.
pub proof fn filed_tabs_keep_the_strip_order(
    strip: TabStripView,
    entries: Seq<Seq<char>>,
    entry: Seq<char>,
    id: u64,
    i: int,
    j: int,
)
    requires
        strip.tabs.len() <= usize::MAX,
        0 <= i < j,
    ensures
        j < strip.members(entries, entry).len() ==> strip.members(entries, entry)[i]
            < strip.members(entries, entry)[j] < strip.tabs.len(),
        j < strip.loose(entries).len() ==> strip.loose(entries)[i] < strip.loose(entries)[j]
            < strip.tabs.len(),
        j < strip.group_tabs(id).len() ==> strip.group_tabs(id)[i] < strip.group_tabs(id)[j]
            < strip.tabs.len(),
{
    let count = strip.tabs.len() as int;
    lemma_indices_where(count, |x: int| strip.belongs(entries, x, entry));
    lemma_indices_where(count, |x: int| strip.owner(entries, x) is None);
    lemma_indices_where(count, |x: int| strip.tabs[x].group_id == Some(id));
}

/// The tabs of a group are those that name it.
pub proof fn group_tabs_name_their_group(strip: TabStripView, id: u64, index: int)
    requires
        0 <= index < strip.tabs.len() <= usize::MAX,
    ensures
        strip.group_tabs(id).contains(index as usize) <==> strip.tabs[index].group_id == Some(id),
{
    lemma_indices_where(
        strip.tabs.len() as int,
        |x: int| strip.tabs[x].group_id == Some(id),
    );
}

/// A root is bound by the first group that carries exactly that root, and by
/// none where no group carries it.
pub proof fn first_group_with_the_root_is_bound(strip: TabStripView, root: Seq<char>, at: int)
    requires
        0 <= at <= strip.groups.len(),
        at < strip.groups.len() ==> strip.groups[at].repo_root == Some(root),
        forall|j: int| 0 <= j < at ==> (#[trigger] strip.groups[j]).repo_root != Some(root),
    ensures
        strip.bound_group(root) == (if at < strip.groups.len() {
            Some(strip.groups[at].id)
        } else {
            None
        }),
{
    lemma_bound_pos(strip.groups, root, at);
}

} // verus!
