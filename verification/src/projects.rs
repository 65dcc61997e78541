//! The project registry: which repositories and folders are registered, when
//! they were last used, and the order the user dragged them into.
//!
//! Changes are returned as effects, so that whoever holds the registry persists
//! them and tells its observers.
use vstd::prelude::*;
use crate::entry;
use crate::entry::is_remote_key;
use crate::order;
use crate::order::text_less;
use crate::paths;
use crate::paths::is_same_path;
use crate::stamps::Stamp;
use crate::text;
use crate::text::same_text;

verus! {

/// `chrono::Utc::now`, as its second and the nanoseconds in it. Nothing is
/// claimed of the instant it returns.
#[verifier::external_body]
fn utc_now() -> (now: Stamp) {
    let now = chrono::Utc::now();
    Stamp { secs: now.timestamp(), nanos: now.timestamp_subsec_nanos() }
}

/// A registered project, as mathematical values.
pub struct ProjectView {
    pub path: Seq<char>,
    pub added_ts: Stamp,
    pub last_opened_ts: Option<Stamp>,
    pub manual_position: Option<i32>,
}

/// A registered project.
#[derive(Debug, PartialEq, Eq)]
pub struct Project {
    /// The registry key: a canonical local path or a remote key.
    pub path: String,
    pub added_ts: Stamp,
    pub last_opened_ts: Option<Stamp>,
    /// Where the user dragged the row to; `None` until they do.
    pub manual_position: Option<i32>,
}

impl View for Project {
    type V = ProjectView;

    open spec fn view(&self) -> ProjectView {
        ProjectView {
            path: self.path@,
            added_ts: self.added_ts,
            last_opened_ts: self.last_opened_ts,
            manual_position: self.manual_position,
        }
    }
}

impl Clone for Project {
    fn clone(&self) -> (copy: Self)
        ensures
            copy == *self,
    {
        Project {
            path: self.path.clone(),
            added_ts: self.added_ts,
            last_opened_ts: self.last_opened_ts,
            manual_position: self.manual_position,
        }
    }
}

impl ProjectView {
    /// When the project was last opened, or added if it never was.
    pub open spec fn last_used_at(self) -> Stamp {
        match self.last_opened_ts {
            Some(opened) => opened,
            None => self.added_ts,
        }
    }
}

impl Project {
    /// When the project was last opened, or added if it never was.
    pub fn last_used_at(&self) -> (used: Stamp)
        ensures
            used == self@.last_used_at(),
    {
        match self.last_opened_ts {
            Some(opened) => opened,
            None => self.added_ts,
        }
    }
}

/// A path to be used as a registry key: as it was given, with what the local
/// filesystem resolves it to where it can.
#[derive(Debug)]
pub struct RegistryPath {
    pub path: String,
    pub resolved: Option<String>,
}

impl RegistryPath {
    /// The registry key of the path.
    pub open spec fn key(self) -> Seq<char> {
        if entry::names_remote(self.path@) {
            self.path@
        } else {
            match self.resolved {
                Some(found) => found@,
                None => self.path@,
            }
        }
    }
}

/// Registry keys are canonical, so trailing-slash and symlink variants share
/// one row. A remote key names a directory on another machine, so it is stored
/// exactly as formatted. A path that cannot be resolved stays as given.
pub fn canonicalize_registry_key(path: RegistryPath) -> (key: String)
    ensures
        key@ == path.key(),
{
    if is_remote_key(path.path.as_str()) {
        return path.path;
    }
    match path.resolved {
        Some(found) => found,
        None => path.path,
    }
}

/// What observers of the registry are told, as mathematical values.
pub enum ProjectEventView {
    Added { path: Seq<char> },
    Removed { path: Seq<char> },
    Updated { path: Seq<char> },
}

/// What observers of the registry are told.
#[derive(Debug, PartialEq, Eq)]
pub enum ProjectEvent {
    Added { path: String },
    Removed { path: String },
    Updated { path: String },
}

impl View for ProjectEvent {
    type V = ProjectEventView;

    open spec fn view(&self) -> ProjectEventView {
        match *self {
            ProjectEvent::Added { path } => ProjectEventView::Added { path: path@ },
            ProjectEvent::Removed { path } => ProjectEventView::Removed { path: path@ },
            ProjectEvent::Updated { path } => ProjectEventView::Updated { path: path@ },
        }
    }
}

/// A change to carry out, as mathematical values.
pub enum RegistryEffectView {
    Save { project: ProjectView },
    Delete { path: Seq<char> },
    ClearManualOrder,
    Emit { event: ProjectEventView },
}

/// A change to carry out, in the order returned.
#[derive(Debug, PartialEq, Eq)]
pub enum RegistryEffect {
    /// Persist the project.
    Save { project: Project },
    /// Delete the persisted project.
    Delete { path: String },
    /// Clear every persisted manual position. A project saved without a
    /// position would leave the old one in the database.
    ClearManualOrder,
    /// Tell the observers.
    Emit { event: ProjectEvent },
}

impl View for RegistryEffect {
    type V = RegistryEffectView;

    open spec fn view(&self) -> RegistryEffectView {
        match *self {
            RegistryEffect::Save { project } => RegistryEffectView::Save { project: project@ },
            RegistryEffect::Delete { path } => RegistryEffectView::Delete { path: path@ },
            RegistryEffect::ClearManualOrder => RegistryEffectView::ClearManualOrder,
            RegistryEffect::Emit { event } => RegistryEffectView::Emit { event: event@ },
        }
    }
}

/// Effects as mathematical values.
pub open spec fn effects_view(effects: Seq<RegistryEffect>) -> Seq<RegistryEffectView> {
    effects.map_values(|e: RegistryEffect| e@)
}

/// Projects as mathematical values.
pub open spec fn projects_view(projects: Seq<Project>) -> Seq<ProjectView> {
    projects.map_values(|p: Project| p@)
}

/// The keys of the registered projects.
pub open spec fn paths(projects: Seq<ProjectView>) -> Seq<Seq<char>> {
    projects.map_values(|p: ProjectView| p.path)
}

/// Whether a project is registered under `key`, in exactly that spelling.
pub open spec fn registered(projects: Seq<ProjectView>, key: Seq<char>) -> bool {
    exists|i: int| 0 <= i < projects.len() && #[trigger] projects[i].path == key
}

/// Whether a project is registered at the path `key`, in some spelling.
pub open spec fn known(projects: Seq<ProjectView>, key: Seq<char>) -> bool {
    exists|i: int|
        0 <= i < projects.len() && paths::same_path(#[trigger] projects[i].path, key)
}

/// No two projects share a path, in whatever spelling.
pub open spec fn distinct(projects: Seq<ProjectView>) -> bool {
    forall|i: int, j: int|
        0 <= i < j < projects.len() ==> !paths::same_path(
            (#[trigger] projects[i]).path,
            (#[trigger] projects[j]).path,
        )
}

/// Where the project at the path `key` stands, or the length when there is none.
pub open spec fn project_pos(projects: Seq<ProjectView>, key: Seq<char>) -> int
    decreases projects.len(),
{
    if projects.len() == 0 || paths::same_path(projects[0].path, key) {
        0
    } else {
        1 + project_pos(projects.skip(1), key)
    }
}

/// What [`project_pos`] finds.
pub proof fn lemma_project_pos(projects: Seq<ProjectView>, key: Seq<char>)
    ensures
        0 <= project_pos(projects, key) <= projects.len(),
        project_pos(projects, key) < projects.len() ==> paths::same_path(
            projects[project_pos(projects, key)].path,
            key,
        ),
        forall|j: int|
            0 <= j < project_pos(projects, key) ==> !paths::same_path(
                (#[trigger] projects[j]).path,
                key,
            ),
        project_pos(projects, key) < projects.len() <==> known(projects, key),
        registered(projects, key) ==> known(projects, key),
    decreases projects.len(),
{
    if registered(projects, key) {
        let j = choose|j: int| 0 <= j < projects.len() && #[trigger] projects[j].path == key;
        assert(paths::same_path(projects[j].path, key));
    }
    if projects.len() > 0 && !paths::same_path(projects[0].path, key) {
        let rest = projects.skip(1);
        lemma_project_pos(rest, key);
        assert forall|j: int| 0 <= j < project_pos(projects, key) implies !paths::same_path(
            (#[trigger] projects[j]).path,
            key,
        ) by {
            if j > 0 {
                assert(rest[j - 1] == projects[j]);
            }
        }
        if known(projects, key) {
            let j = choose|j: int|
                0 <= j < projects.len() && paths::same_path(#[trigger] projects[j].path, key);
            assert(paths::same_path(rest[j - 1].path, key));
        }
        if known(rest, key) {
            let j = choose|j: int|
                0 <= j < rest.len() && paths::same_path(#[trigger] rest[j].path, key);
            assert(paths::same_path(projects[j + 1].path, key));
        }
    }
}

/// The registry after `key` was opened at `now`: a known project is marked as
/// opened, a new one is added without a position.
pub open spec fn upserted(projects: Seq<ProjectView>, key: Seq<char>, now: Stamp) -> Seq<
    ProjectView,
> {
    if known(projects, key) {
        let at = project_pos(projects, key);
        projects.update(at, opened(projects[at], now))
    } else {
        projects.push(new_project(key, now))
    }
}

/// A known project, opened at `now`.
pub open spec fn opened(project: ProjectView, now: Stamp) -> ProjectView {
    ProjectView { last_opened_ts: Some(now), ..project }
}

/// A project added at `now`.
pub open spec fn new_project(key: Seq<char>, now: Stamp) -> ProjectView {
    ProjectView { path: key, added_ts: now, last_opened_ts: Some(now), manual_position: None }
}

/// What is to be done about an upsert.
pub open spec fn upsert_effects(projects: Seq<ProjectView>, key: Seq<char>, now: Stamp) -> Seq<
    RegistryEffectView,
> {
    let project = if known(projects, key) {
        opened(projects[project_pos(projects, key)], now)
    } else {
        new_project(key, now)
    };
    seq![
        RegistryEffectView::Save { project },
        RegistryEffectView::Emit { event: ProjectEventView::Added { path: key } },
    ]
}

/// The registry without the project at `key`.
pub open spec fn removed(projects: Seq<ProjectView>, key: Seq<char>) -> Seq<ProjectView> {
    if known(projects, key) {
        projects.remove(project_pos(projects, key))
    } else {
        projects
    }
}

/// What is to be done about a removal: nothing for an unknown key.
pub open spec fn remove_effects(projects: Seq<ProjectView>, key: Seq<char>) -> Seq<
    RegistryEffectView,
> {
    if known(projects, key) {
        seq![
            RegistryEffectView::Delete { path: key },
            RegistryEffectView::Emit { event: ProjectEventView::Removed { path: key } },
        ]
    } else {
        Seq::empty()
    }
}

/// The registry after the paths in `ordered` were numbered from `next` on;
/// unknown keys take no number, and projects that are not named keep what they
/// had.
pub open spec fn positioned(projects: Seq<ProjectView>, ordered: Seq<Seq<char>>, next: int) -> Seq<
    ProjectView,
>
    decreases ordered.len(),
{
    if ordered.len() == 0 {
        projects
    } else if known(projects, ordered[0]) {
        positioned(placed(projects, ordered[0], next), ordered.skip(1), next + 1)
    } else {
        positioned(projects, ordered.skip(1), next)
    }
}

/// The registry with the project at `key` given the position `next`.
pub open spec fn placed(projects: Seq<ProjectView>, key: Seq<char>, next: int) -> Seq<ProjectView> {
    let at = project_pos(projects, key);
    projects.update(
        at,
        ProjectView { manual_position: Some(next as i32), ..projects[at] },
    )
}

/// What is to be done about a new order: each numbered project is saved and
/// reported, in turn.
pub open spec fn position_effects(
    projects: Seq<ProjectView>,
    ordered: Seq<Seq<char>>,
    next: int,
) -> Seq<RegistryEffectView>
    decreases ordered.len(),
{
    if ordered.len() == 0 {
        Seq::empty()
    } else if known(projects, ordered[0]) {
        let after = placed(projects, ordered[0], next);
        seq![
            RegistryEffectView::Save { project: after[project_pos(projects, ordered[0])] },
            RegistryEffectView::Emit { event: ProjectEventView::Updated { path: ordered[0] } },
        ] + position_effects(after, ordered.skip(1), next + 1)
    } else {
        position_effects(projects, ordered.skip(1), next)
    }
}

/// The registry with no manual position left.
pub open spec fn unpositioned(projects: Seq<ProjectView>) -> Seq<ProjectView> {
    projects.map_values(|p: ProjectView| ProjectView { manual_position: None, ..p })
}

/// One report for each project that had a position.
pub open spec fn clear_reports(projects: Seq<ProjectView>) -> Seq<RegistryEffectView>
    decreases projects.len(),
{
    if projects.len() == 0 {
        Seq::empty()
    } else if projects.last().manual_position is Some {
        clear_reports(projects.drop_last()).push(
            RegistryEffectView::Emit {
                event: ProjectEventView::Updated { path: projects.last().path },
            },
        )
    } else {
        clear_reports(projects.drop_last())
    }
}

/// The manual order: positioned projects first, by position; then the others,
/// most recently used first; the path decides between equals.
pub open spec fn manually_before(a: ProjectView, b: ProjectView) -> bool {
    match (a.manual_position, b.manual_position) {
        (Some(x), Some(y)) => x < y || (x == y && order::text_before(a.path, b.path)),
        (Some(_), None) => true,
        (None, Some(_)) => false,
        (None, None) => a.last_used_at().after(b.last_used_at()) || (a.last_used_at()
            == b.last_used_at() && order::text_before(a.path, b.path)),
    }
}

/// The order as a relation to sort by.
pub open spec fn manual_relation() -> spec_fn(ProjectView, ProjectView) -> bool {
    |a: ProjectView, b: ProjectView| manually_before(a, b)
}

/// The projects in manual order.
pub open spec fn in_manual_order(projects: Seq<ProjectView>) -> Seq<ProjectView> {
    order::stable_sort(projects, manual_relation())
}

/// The leading projects that carry a position.
pub open spec fn positioned_prefix(projects: Seq<ProjectView>) -> Seq<ProjectView>
    decreases projects.len(),
{
    if projects.len() == 0 || projects[0].manual_position is None {
        Seq::empty()
    } else {
        seq![projects[0]] + positioned_prefix(projects.skip(1))
    }
}

/// The keys of the stored manual order; empty when there is none.
pub open spec fn stored_order(projects: Seq<ProjectView>) -> Seq<Seq<char>> {
    paths(positioned_prefix(in_manual_order(projects)))
}

/// Whether any project carries a position.
pub open spec fn has_manual_order(projects: Seq<ProjectView>) -> bool {
    exists|i: int| 0 <= i < projects.len() && (#[trigger] projects[i]).manual_position is Some
}

/// Whether `a` comes before `b` in the manual order.
fn goes_before(a: &Project, b: &Project) -> (before: bool)
    ensures
        before == manually_before(a@, b@),
{
    match (a.manual_position, b.manual_position) {
        (Some(x), Some(y)) => x < y || (x == y && text_less(a.path.as_str(), b.path.as_str())),
        (Some(_), None) => true,
        (None, Some(_)) => false,
        (None, None) => {
            let left = a.last_used_at();
            let right = b.last_used_at();
            left.is_after(&right) || (left == right && text_less(a.path.as_str(), b.path.as_str()))
        },
    }
}

/// References to projects as mathematical values.
pub open spec fn refs_view(projects: Seq<&Project>) -> Seq<ProjectView> {
    projects.map_values(|p: &Project| p@)
}

/// Put `project` into a run that is in manual order.
fn insert_ordered<'a>(sorted: &mut Vec<&'a Project>, project: &'a Project)
    ensures
        refs_view(final(sorted)@) == order::insert_by(
            refs_view(old(sorted)@),
            project@,
            manual_relation(),
        ),
{
    let ghost before = refs_view(sorted@);
    let mut at: usize = sorted.len();
    assert(before.take(at as int) =~= before);
    assert(before.skip(at as int) =~= Seq::<ProjectView>::empty());
    assert(order::insert_by(before, project@, manual_relation()) =~= order::insert_by(
        before.take(at as int),
        project@,
        manual_relation(),
    ) + before.skip(at as int));
    while at > 0 && goes_before(project, sorted[at - 1])
        invariant
            at <= sorted@.len(),
            before == refs_view(sorted@),
            order::insert_by(before, project@, manual_relation()) == order::insert_by(
                before.take(at as int),
                project@,
                manual_relation(),
            ) + before.skip(at as int),
        decreases at,
    {
        let ghost here = before.take(at as int);
        assert(here.last() == sorted@[at - 1]@);
        assert(here.drop_last() =~= before.take(at - 1));
        assert(order::insert_by(here, project@, manual_relation()) + before.skip(at as int)
            =~= order::insert_by(before.take(at - 1), project@, manual_relation()) + before.skip(
            at - 1,
        ));
        at -= 1;
    }
    proof {
        let here = before.take(at as int);
        if at > 0 {
            assert(here.last() == sorted@[at - 1]@);
            assert(order::insert_by(here, project@, manual_relation()) =~= here.push(project@));
        } else {
            assert(order::insert_by(here, project@, manual_relation()) =~= here.push(project@));
        }
    }
    sorted.insert(at, project);
    assert(refs_view(sorted@) =~= before.take(at as int).push(project@) + before.skip(at as int));
}

/// The registry of projects. No two of them share a key.
#[derive(Debug)]
pub struct ProjectManagementModel {
    pub projects: Vec<Project>,
}

impl View for ProjectManagementModel {
    type V = Seq<ProjectView>;

    open spec fn view(&self) -> Seq<ProjectView> {
        projects_view(self.projects@)
    }
}

/// The registry that persisted projects load into: of two with one path, the
/// later counts.
pub open spec fn loaded(persisted: Seq<ProjectView>) -> Seq<ProjectView>
    decreases persisted.len(),
{
    if persisted.len() == 0 {
        Seq::empty()
    } else {
        let before = loaded(persisted.drop_last());
        let project = persisted.last();
        if known(before, project.path) {
            before.update(project_pos(before, project.path), project)
        } else {
            before.push(project)
        }
    }
}

impl ProjectManagementModel {
    /// No two projects share a path.
    pub open spec fn wf(self) -> bool {
        distinct(self@)
    }

    /// Where the project at the path `key` stands.
    fn find(&self, key: &str) -> (at: Option<usize>)
        ensures
            match at {
                Some(i) => i < self.projects.len() && i == project_pos(self@, key@) && known(
                    self@,
                    key@,
                ) && paths::same_path(self@[i as int].path, key@),
                None => !known(self@, key@),
            },
    {
        let mut i: usize = 0;
        while i < self.projects.len()
            invariant
                i <= self.projects@.len(),
                forall|j: int|
                    0 <= j < i ==> !paths::same_path((#[trigger] self@[j]).path, key@),
            decreases self.projects@.len() - i,
        {
            assert(self@[i as int] == self.projects@[i as int]@);
            if is_same_path(self.projects[i].path.as_str(), key) {
                proof {
                    lemma_project_pos(self@, key@);
                }
                return Some(i);
            }
            i += 1;
        }
        None
    }

    /// The registry with the persisted projects.
    pub fn new(persisted_projects: Vec<Project>) -> (model: Self)
        ensures
            model.wf(),
            model@ == loaded(projects_view(persisted_projects@)),
    {
        let mut model = ProjectManagementModel { projects: Vec::new() };
        let mut i: usize = 0;
        let ghost all = projects_view(persisted_projects@);
        assert(model@ =~= loaded(all.take(0)));
        while i < persisted_projects.len()
            invariant
                i <= persisted_projects@.len(),
                all == projects_view(persisted_projects@),
                model.wf(),
                model@ == loaded(all.take(i as int)),
            decreases persisted_projects@.len() - i,
        {
            let project = persisted_projects[i].clone();
            let ghost before = model@;
            proof {
                assert(all.take(i + 1).drop_last() =~= all.take(i as int));
                assert(all.take(i + 1).last() == project@);
                lemma_project_pos(before, project@.path);
            }
            match model.find(project.path.as_str()) {
                Some(at) => {
                    model.projects.set(at, project);
                    assert(model@ =~= before.update(at as int, project@));
                    assert(distinct(model@)) by {
                        assert forall|a: int, b: int| 0 <= a < b < model@.len() implies !paths::same_path(
                            (#[trigger] model@[a]).path,
                            (#[trigger] model@[b]).path,
                        ) by {
                            assert(!paths::same_path(before[a].path, before[b].path));
                        }
                    }
                },
                None => {
                    model.projects.push(project);
                    assert(model@ =~= before.push(project@));
                },
            }
            i += 1;
        }
        assert(all.take(i as int) =~= all);
        model
    }

    /// Register the path, or mark it as opened now if it is known.
    pub fn upsert_project(&mut self, path: RegistryPath) -> (effects: Vec<RegistryEffect>)
        requires
            old(self).wf(),
        ensures
            final(self).wf(),
            exists|now: Stamp|
                {
                    &&& final(self)@ == #[trigger] upserted(old(self)@, path.key(), now)
                    &&& effects_view(effects@) == upsert_effects(old(self)@, path.key(), now)
                },
    {
        let now = utc_now();
        self.upsert_project_at(path, now)
    }

    /// Register the path, or mark it as opened at `now` if it is known.
    pub fn upsert_project_at(&mut self, path: RegistryPath, now: Stamp) -> (effects: Vec<
        RegistryEffect,
    >)
        requires
            old(self).wf(),
        ensures
            final(self).wf(),
            final(self)@ == upserted(old(self)@, path.key(), now),
            effects_view(effects@) == upsert_effects(old(self)@, path.key(), now),
    {
        let key = canonicalize_registry_key(path);
        let ghost before = self@;
        proof {
            lemma_project_pos(before, key@);
        }
        let project = match self.find(key.as_str()) {
            Some(at) => {
                let mut project = self.projects[at].clone();
                project.last_opened_ts = Some(now);
                self.projects.set(at, project.clone());
                assert(self@ =~= upserted(before, key@, now));
                project
            },
            None => {
                let project = Project {
                    path: key.clone(),
                    added_ts: now,
                    last_opened_ts: Some(now),
                    manual_position: None,
                };
                self.projects.push(project.clone());
                assert(self@ =~= upserted(before, key@, now));
                project
            },
        };
        let mut effects: Vec<RegistryEffect> = Vec::new();
        effects.push(RegistryEffect::Save { project });
        effects.push(RegistryEffect::Emit { event: ProjectEvent::Added { path: key } });
        assert(effects_view(effects@) =~= upsert_effects(before, key@, now));
        proof {
            lemma_upserted_distinct(before, key@, now);
        }
        effects
    }

    /// Remove the project and persist the deletion; nothing for an unknown one.
    pub fn remove_project(&mut self, path: RegistryPath) -> (effects: Vec<RegistryEffect>)
        requires
            old(self).wf(),
        ensures
            final(self).wf(),
            final(self)@ == removed(old(self)@, path.key()),
            effects_view(effects@) == remove_effects(old(self)@, path.key()),
    {
        let key = canonicalize_registry_key(path);
        let ghost before = self@;
        let mut effects: Vec<RegistryEffect> = Vec::new();
        if let Some(at) = self.find(key.as_str()) {
            self.projects.remove(at);
            assert(self@ =~= removed(before, key@));
            effects.push(RegistryEffect::Delete { path: key.clone() });
            effects.push(RegistryEffect::Emit { event: ProjectEvent::Removed { path: key } });
        }
        assert(effects_view(effects@) =~= remove_effects(before, key@));
        proof {
            lemma_removed_distinct(before, key@);
        }
        effects
    }

    /// Every registered project, in no particular order.
    pub fn all_projects(&self) -> (projects: &Vec<Project>)
        ensures
            projects_view(projects@) == self@,
    {
        &self.projects
    }

    /// Whether a project is registered under `key`, in exactly that spelling.
    pub fn contains_key(&self, key: &str) -> (found: bool)
        ensures
            found == registered(self@, key@),
    {
        let mut i: usize = 0;
        while i < self.projects.len()
            invariant
                i <= self.projects@.len(),
                forall|j: int| 0 <= j < i ==> (#[trigger] self@[j]).path != key@,
            decreases self.projects@.len() - i,
        {
            assert(self@[i as int] == self.projects@[i as int]@);
            if same_text(self.projects[i].path.as_str(), key) {
                assert(self@[i as int].path == key@);
                return true;
            }
            i += 1;
        }
        false
    }

    /// Projects in manual order: everything carrying a manual position first,
    /// in that order, then everything without one, most recently used first.
    pub fn projects_in_manual_order(&self) -> (ordered: Vec<&Project>)
        ensures
            refs_view(ordered@) == in_manual_order(self@),
    {
        let mut ordered: Vec<&Project> = Vec::new();
        let mut i: usize = 0;
        assert(refs_view(ordered@) =~= in_manual_order(self@.take(0)));
        while i < self.projects.len()
            invariant
                i <= self.projects@.len(),
                refs_view(ordered@) == in_manual_order(self@.take(i as int)),
            decreases self.projects@.len() - i,
        {
            assert(self@.take(i + 1).drop_last() =~= self@.take(i as int));
            assert(self@.take(i + 1).last() == self.projects@[i as int]@);
            insert_ordered(&mut ordered, &self.projects[i]);
            i += 1;
        }
        assert(self@.take(i as int) =~= self@);
        ordered
    }

    /// The keys of the stored manual order; empty when there is none.
    pub fn stored_order(&self) -> (keys: Vec<String>)
        ensures
            text::texts(keys@) == stored_order(self@),
    {
        let ordered = self.projects_in_manual_order();
        let ghost all = refs_view(ordered@);
        let mut keys: Vec<String> = Vec::new();
        let mut i: usize = 0;
        assert(all.skip(0) =~= all);
        assert(text::texts(keys@) + paths(positioned_prefix(all.skip(0))) =~= paths(
            positioned_prefix(all),
        ));
        while i < ordered.len()
            invariant
                i <= ordered@.len(),
                all == refs_view(ordered@),
                all == in_manual_order(self@),
                text::texts(keys@) + paths(positioned_prefix(all.skip(i as int))) == paths(
                    positioned_prefix(all),
                ),
            decreases ordered@.len() - i,
        {
            let ghost rest = all.skip(i as int);
            assert(rest[0] == ordered@[i as int]@);
            if ordered[i].manual_position.is_none() {
                assert(positioned_prefix(rest) =~= Seq::<ProjectView>::empty());
                assert(text::texts(keys@) + paths(positioned_prefix(rest)) =~= text::texts(keys@));
                return keys;
            }
            let ghost before = text::texts(keys@);
            keys.push(ordered[i].path.clone());
            assert(rest.skip(1) =~= all.skip(i + 1));
            assert(text::texts(keys@) =~= before.push(rest[0].path));
            assert(paths(positioned_prefix(rest)) =~= seq![rest[0].path] + paths(
                positioned_prefix(rest.skip(1)),
            ));
            assert(text::texts(keys@) + paths(positioned_prefix(rest.skip(1))) =~= before + paths(
                positioned_prefix(rest),
            ));
            i += 1;
        }
        assert(text::texts(keys@) + paths(positioned_prefix(all.skip(i as int))) =~= text::texts(
            keys@,
        ));
        keys
    }

    /// Whether any project carries a manual position.
    pub fn has_manual_order(&self) -> (found: bool)
        ensures
            found == has_manual_order(self@),
    {
        let mut i: usize = 0;
        while i < self.projects.len()
            invariant
                i <= self.projects@.len(),
                forall|j: int| 0 <= j < i ==> (#[trigger] self@[j]).manual_position is None,
            decreases self.projects@.len() - i,
        {
            assert(self@[i as int] == self.projects@[i as int]@);
            if self.projects[i].manual_position.is_some() {
                return true;
            }
            i += 1;
        }
        false
    }

    /// Hand the list over to a manual order, numbering the given paths from
    /// zero. Paths that are not in the registry are skipped, so a stale order
    /// from another window cannot resurrect a removed repository. Registry
    /// entries the caller leaves out keep whatever position they already had.
    pub fn set_manual_order(&mut self, ordered_paths: Vec<RegistryPath>) -> (effects: Vec<
        RegistryEffect,
    >)
        requires
            old(self).wf(),
            ordered_paths@.len() <= i32::MAX,
        ensures
            final(self).wf(),
            final(self)@ == positioned(old(self)@, keys_of(ordered_paths@), 0),
            effects_view(effects@) == position_effects(old(self)@, keys_of(ordered_paths@), 0),
    {
        let ghost start = self@;
        let ghost keys = keys_of(ordered_paths@);
        let mut effects: Vec<RegistryEffect> = Vec::new();
        let mut next_position: i32 = 0;
        let mut remaining = ordered_paths;
        let ghost mut done: int = 0;
        assert(keys.skip(0) =~= keys);
        assert(effects_view(effects@) + position_effects(start, keys.skip(0), 0)
            =~= position_effects(start, keys, 0));
        while remaining.len() > 0
            invariant
                self.wf(),
                0 <= done <= keys.len(),
                keys.len() <= i32::MAX,
                keys_of(remaining@) == keys.skip(done),
                0 <= next_position <= done,
                positioned(self@, keys.skip(done), next_position as int) == positioned(
                    start,
                    keys,
                    0,
                ),
                effects_view(effects@) + position_effects(
                    self@,
                    keys.skip(done),
                    next_position as int,
                ) == position_effects(start, keys, 0),
            decreases remaining@.len(),
        {
            let ghost rest = keys.skip(done);
            let ghost before = self@;
            let ghost said = effects_view(effects@);
            assert(rest.len() == remaining@.len());
            assert(rest[0] == remaining@[0].key());
            let given = remaining.remove(0);
            let key = canonicalize_registry_key(given);
            assert(keys_of(remaining@) =~= rest.skip(1));
            assert(rest.skip(1) =~= keys.skip(done + 1));
            if let Some(at) = self.find(key.as_str()) {
                let mut project = self.projects[at].clone();
                project.manual_position = Some(next_position);
                self.projects.set(at, project.clone());
                let ghost after = placed(before, key@, next_position as int);
                assert(self@ =~= after);
                proof {
                    lemma_placed_distinct(before, key@, next_position as int);
                }
                effects.push(RegistryEffect::Save { project });
                effects.push(
                    RegistryEffect::Emit { event: ProjectEvent::Updated { path: key } },
                );
                let ghost step = seq![
                    RegistryEffectView::Save { project: after[project_pos(before, key@)] },
                    RegistryEffectView::Emit { event: ProjectEventView::Updated { path: key@ } },
                ];
                assert(effects_view(effects@) =~= said + step);
                assert((said + step) + position_effects(
                    after,
                    rest.skip(1),
                    next_position as int + 1,
                ) =~= said + position_effects(before, rest, next_position as int));
                next_position += 1;
            }
            proof {
                done = done + 1;
            }
        }
        assert(keys.skip(done) =~= Seq::<Seq<char>>::empty());
        assert(effects_view(effects@) + position_effects(
            self@,
            keys.skip(done),
            next_position as int,
        ) =~= effects_view(effects@));
        effects
    }

    /// Discard the manual order and give the list back to its default ordering.
    pub fn clear_manual_order(&mut self) -> (effects: Vec<RegistryEffect>)
        requires
            old(self).wf(),
        ensures
            final(self).wf(),
            final(self)@ == unpositioned(old(self)@),
            effects_view(effects@) == seq![RegistryEffectView::ClearManualOrder] + clear_reports(
                old(self)@,
            ),
    {
        let ghost start = self@;
        let mut effects: Vec<RegistryEffect> = Vec::new();
        effects.push(RegistryEffect::ClearManualOrder);
        let mut i: usize = 0;
        assert(effects_view(effects@) =~= seq![RegistryEffectView::ClearManualOrder]
            + clear_reports(start.take(0)));
        assert(self@ =~= unpositioned(start.take(0)) + start.skip(0));
        while i < self.projects.len()
            invariant
                i <= self.projects@.len(),
                self.projects@.len() == start.len(),
                self@ == unpositioned(start.take(i as int)) + start.skip(i as int),
                effects_view(effects@) == seq![RegistryEffectView::ClearManualOrder]
                    + clear_reports(start.take(i as int)),
            decreases self.projects@.len() - i,
        {
            let ghost said = effects_view(effects@);
            let ghost before = self@;
            let mut project = self.projects[i].clone();
            assert(before[i as int] == start[i as int]);
            assert(before[i as int] == project@);
            assert(start.take(i + 1).drop_last() =~= start.take(i as int));
            assert(start.take(i + 1).last() == project@);
            if project.manual_position.is_some() {
                let path = project.path.clone();
                effects.push(RegistryEffect::Emit { event: ProjectEvent::Updated { path } });
                assert(effects_view(effects@) =~= said.push(
                    RegistryEffectView::Emit {
                        event: ProjectEventView::Updated { path: project@.path },
                    },
                ));
            }
            assert(effects_view(effects@) =~= seq![RegistryEffectView::ClearManualOrder]
                + clear_reports(start.take(i + 1)));
            project.manual_position = None;
            self.projects.set(i, project);
            assert(self@ =~= before.update(i as int, project@));
            assert(self@ =~= unpositioned(start.take(i + 1)) + start.skip(i + 1));
            i += 1;
        }
        assert(start.take(i as int) =~= start);
        assert(self@ =~= unpositioned(start));
        effects
    }
}

/// The registry keys of given paths.
pub open spec fn keys_of(given: Seq<RegistryPath>) -> Seq<Seq<char>> {
    given.map_values(|p: RegistryPath| p.key())
}

proof fn lemma_upserted_distinct(projects: Seq<ProjectView>, key: Seq<char>, now: Stamp)
    requires
        distinct(projects),
    ensures
        distinct(upserted(projects, key, now)),
{
    lemma_project_pos(projects, key);
    let after = upserted(projects, key, now);
    assert forall|a: int, b: int| 0 <= a < b < after.len() implies !paths::same_path(
        (#[trigger] after[a]).path,
        (#[trigger] after[b]).path,
    ) by {
        if b < projects.len() {
            assert(!paths::same_path(projects[a].path, projects[b].path));
        }
    }
}

/// After an upsert the path is known and every other spelling is as it was.
pub proof fn lemma_upserted_registers(projects: Seq<ProjectView>, key: Seq<char>, now: Stamp)
    ensures
        known(upserted(projects, key, now), key),
        !known(projects, key) ==> registered(upserted(projects, key, now), key),
        forall|k: Seq<char>|
            k != key ==> (#[trigger] registered(upserted(projects, key, now), k) <==> registered(
                projects,
                k,
            )),
        registered(projects, key) ==> registered(upserted(projects, key, now), key),
{
    lemma_project_pos(projects, key);
    let after = upserted(projects, key, now);
    let at = project_pos(projects, key);
    if known(projects, key) {
        assert(paths::same_path(after[at].path, key));
    } else {
        assert(after[projects.len() as int].path == key);
        assert(paths::same_path(after[projects.len() as int].path, key));
    }
    assert forall|k: Seq<char>| registered(projects, k) implies #[trigger] registered(after, k) by {
        let i = choose|i: int| 0 <= i < projects.len() && #[trigger] projects[i].path == k;
        assert(after[i].path == k);
    }
    assert forall|k: Seq<char>| k != key && #[trigger] registered(after, k) implies registered(
        projects,
        k,
    ) by {
        let i = choose|i: int| 0 <= i < after.len() && #[trigger] after[i].path == k;
        assert(i < projects.len());
        assert(projects[i].path == k);
    }
}

proof fn lemma_removed_distinct(projects: Seq<ProjectView>, key: Seq<char>)
    requires
        distinct(projects),
    ensures
        distinct(removed(projects, key)),
{
    lemma_project_pos(projects, key);
    let after = removed(projects, key);
    let at = project_pos(projects, key);
    assert forall|a: int, b: int| 0 <= a < b < after.len() implies !paths::same_path(
        (#[trigger] after[a]).path,
        (#[trigger] after[b]).path,
    ) by {
        if known(projects, key) {
            let x = if a < at { a } else { a + 1 };
            let y = if b < at { b } else { b + 1 };
            assert(after[a] == projects[x] && after[b] == projects[y]);
        }
    }
}

/// After a removal the path is not known and every other path is as it was.
pub proof fn lemma_removed_unregisters(projects: Seq<ProjectView>, key: Seq<char>)
    requires
        distinct(projects),
    ensures
        !known(removed(projects, key), key),
        !registered(removed(projects, key), key),
        forall|k: Seq<char>|
            !paths::same_path(k, key) ==> (#[trigger] registered(removed(projects, key), k)
                <==> registered(projects, k)),
{
    let after = removed(projects, key);
    let at = project_pos(projects, key);
    lemma_project_pos(projects, key);
    lemma_project_pos(after, key);
    if known(projects, key) {
        assert forall|i: int| 0 <= i < after.len() implies #[trigger] after[i] == projects[if i
            < at {
            i
        } else {
            i + 1
        }] by {}
        if known(after, key) {
            let i = choose|i: int|
                0 <= i < after.len() && paths::same_path(#[trigger] after[i].path, key);
            let x = if i < at { i } else { i + 1 };
            if x < at {
                assert(!paths::same_path(projects[x].path, projects[at].path));
            } else {
                assert(!paths::same_path(projects[at].path, projects[x].path));
            }
        }
        assert forall|k: Seq<char>| !paths::same_path(k, key) implies (#[trigger] registered(
            after,
            k,
        ) <==> registered(projects, k)) by {
            if registered(projects, k) {
                let i = choose|i: int| 0 <= i < projects.len() && #[trigger] projects[i].path == k;
                let x = if i < at { i } else { i - 1 };
                assert(after[x].path == k);
            }
            if registered(after, k) {
                let i = choose|i: int| 0 <= i < after.len() && #[trigger] after[i].path == k;
                let x = if i < at { i } else { i + 1 };
                assert(projects[x].path == k);
            }
        }
    }
}

proof fn lemma_placed_distinct(projects: Seq<ProjectView>, key: Seq<char>, next: int)
    requires
        distinct(projects),
        known(projects, key),
    ensures
        distinct(placed(projects, key, next)),
{
    lemma_project_pos(projects, key);
    let after = placed(projects, key, next);
    assert forall|a: int, b: int| 0 <= a < b < after.len() implies !paths::same_path(
        (#[trigger] after[a]).path,
        (#[trigger] after[b]).path,
    ) by {
        assert(!paths::same_path(projects[a].path, projects[b].path));
    }
}

/// The manual order is one to sort by.
pub proof fn lemma_manual_relation()
    ensures
        order::weak_order(manual_relation()),
{
    let before = manual_relation();
    assert forall|a: ProjectView, b: ProjectView| #[trigger] before(a, b) implies !before(b, a) by {
        order::text_order_is_total(a.path, b.path);
    }
    assert forall|a: ProjectView, b: ProjectView, c: ProjectView|
        !(#[trigger] before(a, b)) && !(#[trigger] before(b, c)) implies !before(a, c) by {
        order::text_order_is_total(a.path, b.path);
        order::text_order_is_total(b.path, c.path);
        order::text_order_is_total(a.path, c.path);
        if a.path != b.path && b.path != c.path && order::text_before(b.path, a.path)
            && order::text_before(c.path, b.path) {
            order::text_order_chains(c.path, b.path, a.path);
            order::text_order_is_total(c.path, a.path);
        }
    }
}

/// The ordered read lists every registered project once, and no project stands
/// in front of one that comes before it.
pub proof fn manual_order_is_complete(projects: Seq<ProjectView>)
    ensures
        in_manual_order(projects).to_multiset() == projects.to_multiset(),
        order::is_ordered(in_manual_order(projects), manual_relation()),
{
    lemma_manual_relation();
    order::sort_permutes(projects, manual_relation());
    order::sort_orders(projects, manual_relation());
}

/// The ordered read is deterministic: it does not depend on the order in which
/// the registry happens to hold its projects.
pub proof fn manual_order_is_deterministic(a: Seq<ProjectView>, b: Seq<ProjectView>)
    requires
        distinct(a),
        a.to_multiset() == b.to_multiset(),
    ensures
        in_manual_order(a) == in_manual_order(b),
{
    let before = manual_relation();
    lemma_manual_relation();
    manual_order_is_complete(a);
    manual_order_is_complete(b);
    let sorted = in_manual_order(a);
    order::lemma_sort_items(a, before);
    assert(order::decides(sorted, before)) by {
        assert forall|x: ProjectView, y: ProjectView|
            #![trigger sorted.contains(x), sorted.contains(y)]
            sorted.contains(x) && sorted.contains(y) && x != y implies before(x, y) || before(
            y,
            x,
        ) by {
            let i = choose|i: int| 0 <= i < a.len() && a[i] == x;
            let j = choose|j: int| 0 <= j < a.len() && a[j] == y;
            if i < j {
                assert(a[i].path != a[j].path);
            } else {
                assert(a[j].path != a[i].path);
            }
            order::text_order_is_total(x.path, y.path);
        }
    }
    order::ordered_lists_agree(sorted, in_manual_order(b), before);
}

/// Projects with a manual position come before all those without: a repository
/// added under a manual order lands at the end, however recent it is.
pub proof fn positioned_projects_come_first(projects: Seq<ProjectView>)
    ensures
        forall|i: int, j: int|
            0 <= i < j < in_manual_order(projects).len() && (#[trigger] in_manual_order(
                projects,
            )[j]).manual_position is Some ==> (#[trigger] in_manual_order(
                projects,
            )[i]).manual_position is Some,
{
    manual_order_is_complete(projects);
    let sorted = in_manual_order(projects);
    assert forall|i: int, j: int|
        0 <= i < j < sorted.len() && (#[trigger] sorted[j]).manual_position is Some implies (
    #[trigger] sorted[i]).manual_position is Some by {
        assert(!manual_relation()(sorted[j], sorted[i]));
    }
}

/// After the manual order was cleared there is none.
pub proof fn cleared_order_is_gone(projects: Seq<ProjectView>)
    ensures
        !has_manual_order(unpositioned(projects)),
        stored_order(unpositioned(projects)) == Seq::<Seq<char>>::empty(),
{
    let cleared = unpositioned(projects);
    let sorted = in_manual_order(cleared);
    order::lemma_sort_items(cleared, manual_relation());
    if sorted.len() > 0 {
        assert(sorted.contains(sorted[0]));
        assert(cleared.contains(sorted[0]));
    }
    assert(stored_order(cleared) =~= Seq::<Seq<char>>::empty());
}

/// What numbering does: keys and their places stay, an unnamed project is left
/// alone, and a named one gets its place in the naming.
proof fn lemma_positioned(projects: Seq<ProjectView>, ordered: Seq<Seq<char>>, next: int)
    requires
        distinct(projects),
        ordered.no_duplicates(),
        forall|k: int| 0 <= k < ordered.len() ==> registered(projects, #[trigger] ordered[k]),
        0 <= next,
        next + ordered.len() <= i32::MAX,
    ensures
        positioned(projects, ordered, next).len() == projects.len(),
        forall|i: int|
            0 <= i < projects.len() ==> (#[trigger] positioned(projects, ordered, next)[i]).path
                == projects[i].path,
        forall|i: int|
            0 <= i < projects.len() && !ordered.contains(projects[i].path) ==> (
            #[trigger] positioned(projects, ordered, next)[i]) == projects[i],
        forall|i: int, k: int|
            0 <= i < projects.len() && 0 <= k < ordered.len() && projects[i].path == ordered[k]
                ==> (#[trigger] positioned(projects, ordered, next)[i]).manual_position == Some(
                (next + #[trigger] id(k)) as i32,
            ),
    decreases ordered.len(),
{
    if ordered.len() > 0 {
        let key = ordered[0];
        let rest = ordered.skip(1);
        let at = project_pos(projects, key);
        let after = placed(projects, key, next);
        lemma_project_pos(projects, key);
        lemma_placed_distinct(projects, key, next);
        assert(rest.no_duplicates());
        assert forall|k: int| 0 <= k < rest.len() implies registered(after, #[trigger] rest[k]) by {
            assert(rest[k] == ordered[k + 1]);
            let i = choose|i: int|
                0 <= i < projects.len() && #[trigger] projects[i].path == ordered[k + 1];
            assert(after[i].path == rest[k]);
        }
        lemma_positioned(after, rest, next + 1);
        let out = positioned(projects, ordered, next);
        assert(out == positioned(after, rest, next + 1));
        assert(!rest.contains(key)) by {
            if rest.contains(key) {
                let k = choose|k: int| 0 <= k < rest.len() && rest[k] == key;
                assert(ordered[k + 1] == ordered[0]);
            }
        }
        assert forall|i: int| 0 <= i < projects.len() && !ordered.contains(
            projects[i].path,
        ) implies (#[trigger] out[i]) == projects[i] by {
            assert(ordered.contains(ordered[0]));
            assert(!rest.contains(projects[i].path)) by {
                if rest.contains(projects[i].path) {
                    let k = choose|k: int| 0 <= k < rest.len() && rest[k] == projects[i].path;
                    assert(ordered[k + 1] == projects[i].path);
                }
            }
            assert(after[i] == projects[i]);
        }
        assert forall|i: int, k: int|
            0 <= i < projects.len() && 0 <= k < ordered.len() && projects[i].path
                == ordered[k] implies (#[trigger] out[i]).manual_position == Some(
            (next + #[trigger] id(k)) as i32,
        ) by {
            if k == 0 {
                if i < at {
                    assert(projects[i].path != projects[at].path);
                } else if at < i {
                    assert(projects[at].path != projects[i].path);
                }
                assert(i == at);
                assert(after[i].path == key);
                assert(out[i] == after[i]);
            } else {
                assert(rest[k - 1] == ordered[k]);
                assert(after[i].path == rest[k - 1]);
                assert(out[i].manual_position == Some((next + 1 + id(k - 1)) as i32));
            }
        }
    }
}

/// A number itself; a handle for quantifiers.
spec fn id(k: int) -> int {
    k
}

/// Growing numbers below a bound, as many as the bound, are the numbers up to
/// it.
proof fn lemma_growing(values: Seq<int>)
    requires
        forall|i: int, j: int| 0 <= i < j < values.len() ==> values[i] < values[j],
        forall|i: int| 0 <= i < values.len() ==> 0 <= #[trigger] values[i] < values.len(),
    ensures
        forall|i: int| 0 <= i < values.len() ==> #[trigger] values[i] == i,
{
    assert forall|i: int| 0 <= i < values.len() implies #[trigger] values[i] == i by {
        lemma_growing_low(values, i);
        lemma_growing_high(values, i);
    }
}

proof fn lemma_growing_low(values: Seq<int>, i: int)
    requires
        forall|i: int, j: int| 0 <= i < j < values.len() ==> values[i] < values[j],
        forall|i: int| 0 <= i < values.len() ==> 0 <= #[trigger] values[i],
        0 <= i < values.len(),
    ensures
        values[i] >= i,
    decreases i,
{
    if i > 0 {
        lemma_growing_low(values, i - 1);
        assert(values[i - 1] < values[i]);
    }
}

proof fn lemma_growing_high(values: Seq<int>, i: int)
    requires
        forall|i: int, j: int| 0 <= i < j < values.len() ==> values[i] < values[j],
        forall|i: int| 0 <= i < values.len() ==> #[trigger] values[i] < values.len(),
        0 <= i < values.len(),
    ensures
        values[i] <= i,
    decreases values.len() - i,
{
    if i + 1 < values.len() {
        lemma_growing_high(values, i + 1);
        assert(values[i] < values[i + 1]);
    }
}

proof fn lemma_prefix_of_positioned(projects: Seq<ProjectView>)
    requires
        forall|i: int| 0 <= i < projects.len() ==> (#[trigger] projects[i]).manual_position is Some,
    ensures
        positioned_prefix(projects) == projects,
    decreases projects.len(),
{
    if projects.len() > 0 {
        let rest = projects.skip(1);
        assert forall|i: int| 0 <= i < rest.len() implies (#[trigger] rest[i]).manual_position is Some by {
            assert(rest[i] == projects[i + 1]);
        }
        lemma_prefix_of_positioned(rest);
        assert(seq![projects[0]] + rest =~= projects);
    } else {
        assert(projects =~= Seq::<ProjectView>::empty());
    }
}

/// An order given for the whole registry is read back exactly as it was given.
pub proof fn manual_order_reads_back(projects: Seq<ProjectView>, ordered: Seq<Seq<char>>)
    requires
        distinct(projects),
        ordered.no_duplicates(),
        ordered.len() == projects.len(),
        ordered.len() <= i32::MAX,
        forall|k: int| 0 <= k < ordered.len() ==> registered(projects, #[trigger] ordered[k]),
    ensures
        paths(in_manual_order(positioned(projects, ordered, 0))) == ordered,
        stored_order(positioned(projects, ordered, 0)) == ordered,
{
    let after = positioned(projects, ordered, 0);
    let sorted = in_manual_order(after);
    let names = paths(projects);
    lemma_positioned(projects, ordered, 0);
    manual_order_is_complete(after);
    order::lemma_sort_items(after, manual_relation());
    assert(names.no_duplicates()) by {
        assert forall|i: int, j: int| 0 <= i < names.len() && 0 <= j < names.len() && i != j implies names[i]
            != names[j] by {
            if i < j {
                assert(projects[i].path != projects[j].path);
            } else {
                assert(projects[j].path != projects[i].path);
            }
        }
    }
    assert(ordered.to_set().subset_of(names.to_set())) by {
        assert forall|key: Seq<char>| ordered.to_set().contains(key) implies names.to_set().contains(
            key,
        ) by {
            let k = choose|k: int| 0 <= k < ordered.len() && ordered[k] == key;
            let i = choose|i: int| 0 <= i < projects.len() && #[trigger] projects[i].path == key;
            assert(names[i] == key);
        }
    }
    ordered.unique_seq_to_set();
    names.unique_seq_to_set();
    vstd::set_lib::lemma_subset_equality(ordered.to_set(), names.to_set());
    let spot = |i: int| -> int { choose|k: int| 0 <= k < ordered.len() && ordered[k] == sorted[i].path };
    assert forall|i: int| 0 <= i < sorted.len() implies {
        &&& 0 <= #[trigger] spot(i) < ordered.len()
        &&& ordered[spot(i)] == sorted[i].path
        &&& sorted[i].manual_position == Some(spot(i) as i32)
    } by {
        assert(sorted.contains(sorted[i]));
        let j = choose|j: int| 0 <= j < after.len() && after[j] == sorted[i];
        assert(after[j].path == projects[j].path);
        assert(names[j] == sorted[i].path);
        assert(names.to_set().contains(sorted[i].path));
        assert(ordered.to_set().contains(sorted[i].path));
        let k = spot(i);
        assert(ordered[k] == projects[j].path);
        assert(after[j].manual_position == Some((0 + id(k)) as i32));
    }
    assert(after.no_duplicates()) by {
        assert forall|i: int, j: int| 0 <= i < after.len() && 0 <= j < after.len() && i != j implies after[i]
            != after[j] by {
            assert(after[i].path == names[i] && after[j].path == names[j]);
        }
    }
    let values = Seq::new(sorted.len(), |i: int| spot(i));
    assert forall|i: int, j: int| 0 <= i < j < values.len() implies values[i] < values[j] by {
        assert(!manual_relation()(sorted[j], sorted[i]));
        assert(values[i] == spot(i) && values[j] == spot(j));
        assert(sorted[i].manual_position == Some(spot(i) as i32));
        assert(sorted[j].manual_position == Some(spot(j) as i32));
        if spot(i) == spot(j) {
            assert(sorted[i].path == sorted[j].path);
            assert(sorted.contains(sorted[i]) && sorted.contains(sorted[j]));
            let a = choose|a: int| 0 <= a < after.len() && after[a] == sorted[i];
            let b = choose|b: int| 0 <= b < after.len() && after[b] == sorted[j];
            assert(names[a] == names[b]);
            assert(a == b);
            assert(sorted[i] == sorted[j]);
        }
    }
    assert forall|i: int| 0 <= i < values.len() implies 0 <= #[trigger] values[i] < values.len() by {
        assert(values[i] == spot(i));
    }
    lemma_growing(values);
    assert forall|i: int| 0 <= i < sorted.len() implies (#[trigger] sorted[i]).path == ordered[i]
        && sorted[i].manual_position is Some by {
        assert(values[i] == i);
        assert(spot(i) == i);
    }
    assert(paths(sorted) =~= ordered);
    lemma_prefix_of_positioned(sorted);
}

/// Opening a project that is registered changes when it was last opened, and
/// nothing else about it or any other project: the paths, the instants they were
/// added at and the order the user dragged them into stay as they were.
pub proof fn opening_keeps_the_manual_order(
    projects: Seq<ProjectView>,
    key: Seq<char>,
    now: Stamp,
    at: int,
)
    requires
        distinct(projects),
        0 <= at < projects.len(),
        paths::same_path(projects[at].path, key),
    ensures
        ({
            let after = upserted(projects, key, now);
            &&& after.len() == projects.len()
            &&& forall|i: int|
                0 <= i < projects.len() ==> {
                    &&& (#[trigger] after[i]).path == projects[i].path
                    &&& after[i].added_ts == projects[i].added_ts
                    &&& after[i].manual_position == projects[i].manual_position
                    &&& after[i].last_opened_ts == (if i == at {
                        Some(now)
                    } else {
                        projects[i].last_opened_ts
                    })
                }
            &&& stored_order(after) == stored_order(projects)
            &&& has_manual_order(after) == has_manual_order(projects)
        }),
{
    let after = upserted(projects, key, now);
    lemma_project_pos(projects, key);
    let found = project_pos(projects, key);
    if found < at {
        assert(!paths::same_path(projects[found].path, projects[at].path));
    }
    assert(known(projects, key));
    assert(found == at);
    if has_manual_order(projects) {
        let i = choose|i: int|
            0 <= i < projects.len() && (#[trigger] projects[i]).manual_position is Some;
        assert(after[i].manual_position is Some);
    }
    if has_manual_order(after) {
        let i = choose|i: int|
            0 <= i < after.len() && (#[trigger] after[i]).manual_position is Some;
        assert(projects[i].manual_position is Some);
    }
    lemma_upserted_distinct(projects, key, now);
    lemma_same_stored_order(projects, after);
}

/// A project that is not registered is added behind the others, with both its
/// instants now and without a place in the manual order; the others stay as they
/// are.
pub proof fn adding_puts_a_new_project_last(
    projects: Seq<ProjectView>,
    key: Seq<char>,
    now: Stamp,
)
    requires
        forall|i: int|
            0 <= i < projects.len() ==> !paths::same_path((#[trigger] projects[i]).path, key),
    ensures
        ({
            let after = upserted(projects, key, now);
            &&& after.len() == projects.len() + 1
            &&& forall|i: int| 0 <= i < projects.len() ==> #[trigger] after[i] == projects[i]
            &&& after.last().path == key
            &&& after.last().added_ts == now
            &&& after.last().last_opened_ts == Some(now)
            &&& after.last().manual_position is None
        }),
{
    lemma_project_pos(projects, key);
}

/// An upsert saves the project as the registry then holds it, and announces its
/// key.
pub proof fn upserts_save_what_they_change(projects: Seq<ProjectView>, key: Seq<char>, now: Stamp)
    ensures
        ({
            let after = upserted(projects, key, now);
            let effects = upsert_effects(projects, key, now);
            &&& effects.len() == 2
            &&& effects[0] matches RegistryEffectView::Save { project } && after.contains(project)
                && paths::same_path(project.path, key) && project.last_opened_ts == Some(now)
            &&& effects[1] == (RegistryEffectView::Emit {
                event: ProjectEventView::Added { path: key },
            })
        }),
{
    let after = upserted(projects, key, now);
    lemma_project_pos(projects, key);
    if known(projects, key) {
        assert(after[project_pos(projects, key)] == opened(
            projects[project_pos(projects, key)],
            now,
        ));
    } else {
        assert(after[projects.len() as int] == new_project(key, now));
    }
}

/// Removing a project takes that one out and leaves every other as it is, in the
/// same order; the deletion is persisted and announced. A path that is not
/// registered changes nothing.
pub proof fn removing_takes_one_project_out(projects: Seq<ProjectView>, key: Seq<char>, at: int)
    requires
        distinct(projects),
        0 <= at <= projects.len(),
        at < projects.len() ==> paths::same_path(projects[at].path, key),
        at == projects.len() ==> forall|i: int|
            0 <= i < projects.len() ==> !paths::same_path((#[trigger] projects[i]).path, key),
    ensures
        at < projects.len() ==> {
            &&& removed(projects, key) == projects.take(at) + projects.skip(at + 1)
            &&& remove_effects(projects, key) == seq![
                RegistryEffectView::Delete { path: key },
                RegistryEffectView::Emit { event: ProjectEventView::Removed { path: key } },
            ]
        },
        at == projects.len() ==> removed(projects, key) == projects && remove_effects(
            projects,
            key,
        ).len() == 0,
{
    lemma_project_pos(projects, key);
    let found = project_pos(projects, key);
    if at < projects.len() {
        assert(known(projects, key));
        if found < at {
            assert(!paths::same_path(projects[found].path, projects[at].path));
        }
        assert(projects.remove(at) =~= projects.take(at) + projects.skip(at + 1));
    } else {
        assert(!known(projects, key));
    }
}

/// Clearing the manual order takes every position away and nothing else.
pub proof fn clearing_takes_only_the_positions(projects: Seq<ProjectView>)
    ensures
        ({
            let after = unpositioned(projects);
            &&& after.len() == projects.len()
            &&& forall|i: int|
                0 <= i < projects.len() ==> {
                    &&& (#[trigger] after[i]).path == projects[i].path
                    &&& after[i].added_ts == projects[i].added_ts
                    &&& after[i].last_opened_ts == projects[i].last_opened_ts
                    &&& after[i].manual_position is None
                }
        }),
{
}

/// The stored order lists exactly the projects that carry a position, each once,
/// by position; the path decides between equal positions.
pub proof fn stored_order_follows_the_positions(projects: Seq<ProjectView>)
    requires
        distinct(projects),
    ensures
        stored_order(projects).no_duplicates(),
        forall|k: Seq<char>| #[trigger]
            stored_order(projects).contains(k) <==> exists|i: int|
                0 <= i < projects.len() && (#[trigger] projects[i]).path == k
                    && projects[i].manual_position is Some,
        forall|a: int, b: int, i: int, j: int|
            0 <= a < b < stored_order(projects).len() && 0 <= i < projects.len() && 0 <= j
                < projects.len() && (#[trigger] projects[i]).path == (#[trigger] stored_order(
                projects,
            )[a]) && (#[trigger] projects[j]).path == (#[trigger] stored_order(projects)[b]) ==> {
                let first = projects[i].manual_position->0;
                let second = projects[j].manual_position->0;
                first < second || (first == second && order::text_before(
                    projects[i].path,
                    projects[j].path,
                ))
            },
{
    let sorted = in_manual_order(projects);
    let prefix = positioned_prefix(sorted);
    let stored = stored_order(projects);
    lemma_manual_relation();
    order::sort_orders(projects, manual_relation());
    order::lemma_sort_items(projects, manual_relation());
    positioned_projects_come_first(projects);
    lemma_positioned_prefix(sorted);
    lemma_texts_distinct(projects);
    assert(projects.no_duplicates()) by {
        assert forall|i: int, j: int|
            0 <= i < projects.len() && 0 <= j < projects.len() && i != j implies projects[i]
            != projects[j] by {
            assert(projects[i].path != projects[j].path);
        }
    }
    assert forall|a: int| 0 <= a < stored.len() implies (exists|i: int|
        0 <= i < projects.len() && (#[trigger] projects[i]).path == #[trigger] stored[a]
            && projects[i] == sorted[a]) by {
        assert(stored[a] == prefix[a].path);
        assert(prefix[a] == sorted[a]);
        assert(sorted.contains(sorted[a]));
        let i = choose|i: int| 0 <= i < projects.len() && projects[i] == sorted[a];
        assert(projects[i].path == stored[a]);
    }
    assert forall|a: int, b: int| 0 <= a < stored.len() && 0 <= b < stored.len() && a != b implies stored[a]
        != stored[b] by {
        let i = choose|i: int|
            0 <= i < projects.len() && (#[trigger] projects[i]).path == stored[a] && projects[i]
                == sorted[a];
        let j = choose|j: int|
            0 <= j < projects.len() && (#[trigger] projects[j]).path == stored[b] && projects[j]
                == sorted[b];
        assert(sorted[a] != sorted[b]);
        assert(i != j);
    }
    assert forall|k: Seq<char>| #[trigger] stored.contains(k) <==> exists|i: int|
        0 <= i < projects.len() && (#[trigger] projects[i]).path == k
            && projects[i].manual_position is Some by {
        if stored.contains(k) {
            let a = choose|a: int| 0 <= a < stored.len() && stored[a] == k;
            let i = choose|i: int|
                0 <= i < projects.len() && (#[trigger] projects[i]).path == stored[a]
                    && projects[i] == sorted[a];
            assert(prefix[a].manual_position is Some);
            assert(projects[i].path == k && projects[i].manual_position is Some);
        }
        if exists|i: int|
            0 <= i < projects.len() && (#[trigger] projects[i]).path == k
                && projects[i].manual_position is Some {
            let i = choose|i: int|
                0 <= i < projects.len() && (#[trigger] projects[i]).path == k
                    && projects[i].manual_position is Some;
            assert(projects.contains(projects[i]));
            assert(sorted.contains(projects[i]));
            let a = choose|a: int| 0 <= a < sorted.len() && sorted[a] == projects[i];
            assert(a < prefix.len());
            assert(prefix[a] == sorted[a]);
            assert(stored[a] == k);
        }
    }
    assert forall|a: int, b: int, i: int, j: int|
        0 <= a < b < stored.len() && 0 <= i < projects.len() && 0 <= j < projects.len() && (
        #[trigger] projects[i]).path == (#[trigger] stored[a]) && (#[trigger] projects[j]).path == (
        #[trigger] stored[b]) implies ({
        let first = projects[i].manual_position->0;
        let second = projects[j].manual_position->0;
        first < second || (first == second && order::text_before(
            projects[i].path,
            projects[j].path,
        ))
    }) by {
        let x = choose|x: int|
            0 <= x < projects.len() && (#[trigger] projects[x]).path == stored[a] && projects[x]
                == sorted[a];
        let y = choose|y: int|
            0 <= y < projects.len() && (#[trigger] projects[y]).path == stored[b] && projects[y]
                == sorted[b];
        assert(x == i && y == j);
        assert(prefix[a].manual_position is Some && prefix[b].manual_position is Some);
        assert(!manual_relation()(sorted[b], sorted[a]));
        assert(stored[a] != stored[b]);
        order::text_order_is_total(projects[i].path, projects[j].path);
    }
}

/// Projects that carry no position go by use: none stands behind one that was
/// used less recently, where a project that was never opened was used when it
/// was added.
pub proof fn unpositioned_projects_go_by_use(projects: Seq<ProjectView>, i: int, j: int)
    requires
        0 <= i < j < in_manual_order(projects).len(),
        in_manual_order(projects)[i].manual_position is None,
    ensures
        ({
            let first = in_manual_order(projects)[i];
            let second = in_manual_order(projects)[j];
            let used = match first.last_opened_ts {
                Some(opened) => opened,
                None => first.added_ts,
            };
            let other = match second.last_opened_ts {
                Some(opened) => opened,
                None => second.added_ts,
            };
            &&& second.manual_position is None
            &&& used.secs > other.secs || (used.secs == other.secs && used.nanos >= other.nanos)
            &&& used == other && first.path != second.path ==> order::text_before(
                first.path,
                second.path,
            )
        }),
{
    manual_order_is_complete(projects);
    positioned_projects_come_first(projects);
    let sorted = in_manual_order(projects);
    assert(!manual_relation()(sorted[j], sorted[i]));
    order::text_order_is_total(sorted[i].path, sorted[j].path);
}

/// No two projects have one text for a path.
pub proof fn lemma_texts_distinct(projects: Seq<ProjectView>)
    requires
        distinct(projects),
    ensures
        forall|i: int, j: int|
            0 <= i < projects.len() && 0 <= j < projects.len() && i != j ==> (
            #[trigger] projects[i]).path != (#[trigger] projects[j]).path,
{
    assert forall|i: int, j: int|
        0 <= i < projects.len() && 0 <= j < projects.len() && i != j implies (
    #[trigger] projects[i]).path != (#[trigger] projects[j]).path by {
        if i < j {
            assert(!paths::same_path(projects[i].path, projects[j].path));
        } else {
            assert(!paths::same_path(projects[j].path, projects[i].path));
        }
    }
}

proof fn lemma_positioned_prefix(sorted: Seq<ProjectView>)
    requires
        forall|i: int, j: int|
            0 <= i < j < sorted.len() && (#[trigger] sorted[j]).manual_position is Some ==> (
            #[trigger] sorted[i]).manual_position is Some,
    ensures
        positioned_prefix(sorted).len() <= sorted.len(),
        forall|i: int|
            0 <= i < positioned_prefix(sorted).len() ==> #[trigger] positioned_prefix(sorted)[i]
                == sorted[i] && sorted[i].manual_position is Some,
        forall|i: int|
            0 <= i < sorted.len() && (#[trigger] sorted[i]).manual_position is Some ==> i
                < positioned_prefix(sorted).len(),
    decreases sorted.len(),
{
    if sorted.len() > 0 && sorted[0].manual_position is Some {
        let rest = sorted.skip(1);
        assert forall|i: int, j: int|
            0 <= i < j < rest.len() && (#[trigger] rest[j]).manual_position is Some implies (
        #[trigger] rest[i]).manual_position is Some by {
            assert(sorted[j + 1].manual_position is Some);
            assert(sorted[i + 1].manual_position is Some);
        }
        lemma_positioned_prefix(rest);
        let prefix = positioned_prefix(sorted);
        assert forall|i: int| 0 <= i < prefix.len() implies #[trigger] prefix[i] == sorted[i]
            && sorted[i].manual_position is Some by {
            if i > 0 {
                assert(prefix[i] == positioned_prefix(rest)[i - 1]);
                assert(rest[i - 1] == sorted[i]);
            }
        }
        assert forall|i: int| 0 <= i < sorted.len() && (
        #[trigger] sorted[i]).manual_position is Some implies i < prefix.len() by {
            if i > 0 {
                assert(rest[i - 1] == sorted[i]);
            }
        }
    } else if sorted.len() > 0 {
        assert forall|i: int| 0 <= i < sorted.len() implies (
        #[trigger] sorted[i]).manual_position is None by {
            if i > 0 && sorted[i].manual_position is Some {
                assert(sorted[0].manual_position is Some);
            }
        }
    }
}

/// Registries that hold the same paths at the same positions store one order.
proof fn lemma_same_stored_order(a: Seq<ProjectView>, b: Seq<ProjectView>)
    requires
        distinct(a),
        distinct(b),
        a.len() == b.len(),
        forall|i: int|
            0 <= i < a.len() ==> (#[trigger] a[i]).path == b[i].path && a[i].manual_position
                == b[i].manual_position,
    ensures
        stored_order(a) == stored_order(b),
{
    let left = stored_order(a);
    let right = stored_order(b);
    stored_order_follows_the_positions(a);
    stored_order_follows_the_positions(b);
    lemma_texts_distinct(a);
    let spot = |k: Seq<char>| -> int { choose|i: int| 0 <= i < a.len() && (#[trigger] a[i]).path == k };
    let before = |x: Seq<char>, y: Seq<char>|
        {
            let first = a[spot(x)].manual_position->0;
            let second = a[spot(y)].manual_position->0;
            first < second || (first == second && order::text_before(x, y))
        };
    assert(order::weak_order(before)) by {
        assert forall|x: Seq<char>, y: Seq<char>| #[trigger] before(x, y) implies !before(y, x) by {
            order::text_order_is_total(x, y);
        }
        assert forall|x: Seq<char>, y: Seq<char>, z: Seq<char>|
            !(#[trigger] before(x, y)) && !(#[trigger] before(y, z)) implies !before(x, z) by {
            order::text_order_is_total(x, y);
            order::text_order_is_total(y, z);
            order::text_order_is_total(x, z);
            if order::text_before(z, y) && order::text_before(y, x) {
                order::text_order_chains(z, y, x);
            }
        }
    }
    assert forall|k: Seq<char>| #[trigger] left.contains(k) <==> right.contains(k) by {
        if left.contains(k) {
            let i = choose|i: int|
                0 <= i < a.len() && (#[trigger] a[i]).path == k && a[i].manual_position is Some;
            assert(b[i].path == k && b[i].manual_position is Some);
        }
        if right.contains(k) {
            let i = choose|i: int|
                0 <= i < b.len() && (#[trigger] b[i]).path == k && b[i].manual_position is Some;
            assert(a[i].path == k && a[i].manual_position is Some);
        }
    }
    order::lemma_same_items(left, right);
    assert forall|x: Seq<char>| #[trigger] left.contains(x) implies 0 <= spot(x) < a.len()
        && a[spot(x)].path == x by {
        let i = choose|i: int|
            0 <= i < a.len() && (#[trigger] a[i]).path == x && a[i].manual_position is Some;
        assert(a[i].path == x);
    }
    assert forall|i: int, j: int| 0 <= i < j < left.len() implies !before(left[j], left[i]) by {
        assert(left.contains(left[i]) && left.contains(left[j]));
        let x = spot(left[i]);
        let y = spot(left[j]);
        assert(a[x].path == left[i] && a[y].path == left[j]);
        order::text_order_is_total(left[i], left[j]);
    }
    assert forall|i: int, j: int| 0 <= i < j < right.len() implies !before(right[j], right[i]) by {
        assert(right.contains(right[i]) && right.contains(right[j]));
        assert(left.contains(right[i]) && left.contains(right[j]));
        let x = spot(right[i]);
        let y = spot(right[j]);
        assert(a[x].path == right[i] && a[y].path == right[j]);
        assert(b[x].path == right[i] && b[y].path == right[j]);
        order::text_order_is_total(right[i], right[j]);
    }
    assert forall|x: Seq<char>, y: Seq<char>|
        #![trigger left.contains(x), left.contains(y)]
        left.contains(x) && left.contains(y) && x != y implies before(x, y) || before(y, x) by {
        order::text_order_is_total(x, y);
    }
    order::ordered_lists_agree(left, right, before);
}

/// How many of `keys` name a project, each counted once for every time it is
/// listed.
pub open spec fn known_among(projects: Seq<ProjectView>, keys: Seq<Seq<char>>) -> int
    decreases keys.len(),
{
    if keys.len() == 0 {
        0
    } else {
        known_among(projects, keys.drop_last()) + (if known(projects, keys.last()) {
            1int
        } else {
            0int
        })
    }
}

proof fn lemma_known_among_front(projects: Seq<ProjectView>, keys: Seq<Seq<char>>)
    requires
        keys.len() > 0,
    ensures
        known_among(projects, keys) == (if known(projects, keys[0]) {
            1int
        } else {
            0int
        }) + known_among(projects, keys.skip(1)),
        0 <= known_among(projects, keys) <= keys.len(),
    decreases keys.len(),
{
    if keys.len() > 1 {
        lemma_known_among_front(projects, keys.drop_last());
        assert(keys.skip(1).drop_last() =~= keys.drop_last().skip(1));
        assert(keys.skip(1).last() == keys.last());
    } else {
        assert(keys.drop_last() =~= Seq::<Seq<char>>::empty());
        assert(keys.skip(1) =~= Seq::<Seq<char>>::empty());
    }
}

proof fn lemma_placed_known(projects: Seq<ProjectView>, key: Seq<char>, next: int, keys: Seq<Seq<char>>)
    requires
        known(projects, key),
    ensures
        forall|k: Seq<char>| #[trigger]
            known(placed(projects, key, next), k) == known(projects, k),
        known_among(placed(projects, key, next), keys) == known_among(projects, keys),
    decreases keys.len(),
{
    let after = placed(projects, key, next);
    lemma_project_pos(projects, key);
    assert forall|k: Seq<char>| #[trigger] known(after, k) == known(projects, k) by {
        if known(projects, k) {
            let i = choose|i: int|
                0 <= i < projects.len() && paths::same_path(#[trigger] projects[i].path, k);
            assert(paths::same_path(after[i].path, k));
        }
        if known(after, k) {
            let i = choose|i: int|
                0 <= i < after.len() && paths::same_path(#[trigger] after[i].path, k);
            assert(paths::same_path(projects[i].path, k));
        }
    }
    if keys.len() > 0 {
        lemma_placed_known(projects, key, next, keys.drop_last());
        assert(known(after, keys.last()) == known(projects, keys.last()));
    }
}

proof fn lemma_numbered(projects: Seq<ProjectView>, ordered: Seq<Seq<char>>, next: int)
    requires
        distinct(projects),
        paths::unrepeated(ordered),
        0 <= next,
        next + ordered.len() <= i32::MAX,
    ensures
        ({
            let after = positioned(projects, ordered, next);
            &&& after.len() == projects.len()
            &&& forall|i: int|
                0 <= i < projects.len() ==> {
                    &&& (#[trigger] after[i]).path == projects[i].path
                    &&& after[i].added_ts == projects[i].added_ts
                    &&& after[i].last_opened_ts == projects[i].last_opened_ts
                    &&& !paths::lists(ordered, projects[i].path) ==> after[i].manual_position
                        == projects[i].manual_position
                }
            &&& forall|i: int, k: int|
                0 <= i < projects.len() && 0 <= k < ordered.len() && paths::same_path(
                    projects[i].path,
                    #[trigger] ordered[k],
                ) ==> (#[trigger] after[i]).manual_position == Some(
                    (next + known_among(projects, ordered.take(k))) as i32,
                )
        }),
    decreases ordered.len(),
{
    if ordered.len() > 0 {
        let key = ordered[0];
        let part = paths::parts(key);
        let rest = ordered.skip(1);
        let all = paths::all_parts(ordered);
        let others = paths::all_parts(rest);
        let here = known(projects, key);
        let base = if here {
            placed(projects, key, next)
        } else {
            projects
        };
        let step = if here {
            next + 1
        } else {
            next
        };
        let at = project_pos(projects, key);
        lemma_project_pos(projects, key);
        assert(others =~= all.skip(1));
        assert(others.no_duplicates());
        assert(all[0] == part);
        assert forall|k: int| 0 <= k < others.len() implies others[k] != part by {
            assert(others[k] == all[k + 1]);
        }
        if here {
            lemma_placed_distinct(projects, key, next);
        }
        lemma_numbered(base, rest, step);
        let after = positioned(projects, ordered, next);
        assert(after == positioned(base, rest, step));
        assert forall|i: int| 0 <= i < projects.len() implies {
            &&& (#[trigger] after[i]).path == projects[i].path
            &&& after[i].added_ts == projects[i].added_ts
            &&& after[i].last_opened_ts == projects[i].last_opened_ts
            &&& !paths::lists(ordered, projects[i].path) ==> after[i].manual_position
                == projects[i].manual_position
        } by {
            assert(base[i].path == projects[i].path);
            if !paths::lists(ordered, projects[i].path) {
                let mine = paths::parts(projects[i].path);
                assert(!others.contains(mine)) by {
                    if others.contains(mine) {
                        let k = choose|k: int| 0 <= k < others.len() && others[k] == mine;
                        assert(all[k + 1] == mine);
                    }
                }
                assert(all[0] != mine);
            }
        }
        assert forall|i: int, k: int|
            0 <= i < projects.len() && 0 <= k < ordered.len() && paths::same_path(
                projects[i].path,
                #[trigger] ordered[k],
            ) implies (#[trigger] after[i]).manual_position == Some(
            (next + known_among(projects, ordered.take(k))) as i32,
        ) by {
            assert(all[k] == paths::parts(ordered[k]));
            if k == 0 {
                assert(here);
                if i < at {
                    assert(!paths::same_path(projects[i].path, key));
                } else if at < i {
                    assert(!paths::same_path(projects[at].path, projects[i].path));
                }
                assert(ordered.take(0) =~= Seq::<Seq<char>>::empty());
                assert(!paths::lists(rest, projects[i].path)) by {
                    if paths::lists(rest, projects[i].path) {
                        let j = choose|j: int|
                            0 <= j < others.len() && others[j] == paths::parts(projects[i].path);
                        assert(others[j] != part);
                    }
                }
                assert(base[i].manual_position == Some(next as i32));
            } else {
                assert(rest[k - 1] == ordered[k]);
                assert(paths::same_path(base[i].path, rest[k - 1]));
                let front = ordered.take(k);
                lemma_known_among_front(projects, front);
                assert(front.skip(1) =~= rest.take(k - 1));
                assert(front[0] == key);
                if here {
                    lemma_placed_known(projects, key, next, rest.take(k - 1));
                }
            }
        }
    }
}

/// A new order numbers the projects it names in turn, from zero: a name that is
/// not registered takes no number. Nothing but the positions changes, and a
/// project that is not named keeps what it had.
pub proof fn new_order_numbers_what_it_names(projects: Seq<ProjectView>, ordered: Seq<Seq<char>>)
    requires
        distinct(projects),
        paths::unrepeated(ordered),
        ordered.len() <= i32::MAX,
    ensures
        ({
            let after = positioned(projects, ordered, 0);
            &&& after.len() == projects.len()
            &&& forall|i: int|
                0 <= i < projects.len() ==> {
                    &&& (#[trigger] after[i]).path == projects[i].path
                    &&& after[i].added_ts == projects[i].added_ts
                    &&& after[i].last_opened_ts == projects[i].last_opened_ts
                    &&& !paths::lists(ordered, projects[i].path) ==> after[i].manual_position
                        == projects[i].manual_position
                }
            &&& forall|i: int, k: int|
                0 <= i < projects.len() && 0 <= k < ordered.len() && paths::same_path(
                    projects[i].path,
                    #[trigger] ordered[k],
                ) ==> (#[trigger] after[i]).manual_position == Some(
                    known_among(projects, ordered.take(k)) as i32,
                )
        }),
{
    lemma_numbered(projects, ordered, 0);
}

/// Persisted projects load under one entry per path: of those at one path the
/// last one counts, and nothing else is in the registry.
pub proof fn last_persisted_project_counts(persisted: Seq<ProjectView>)
    ensures
        distinct(loaded(persisted)),
        forall|p: ProjectView| #[trigger]
            loaded(persisted).contains(p) <==> exists|i: int|
                0 <= i < persisted.len() && (#[trigger] persisted[i]) == p && forall|j: int|
                    i < j < persisted.len() ==> !paths::same_path(
                        (#[trigger] persisted[j]).path,
                        p.path,
                    ),
    decreases persisted.len(),
{
    if persisted.len() > 0 {
        let init = persisted.drop_last();
        let last = persisted.last();
        let before = loaded(init);
        let after = loaded(persisted);
        last_persisted_project_counts(init);
        lemma_project_pos(before, last.path);
        let at = project_pos(before, last.path);
        assert(distinct(after)) by {
            assert forall|a: int, b: int| 0 <= a < b < after.len() implies !paths::same_path(
                (#[trigger] after[a]).path,
                (#[trigger] after[b]).path,
            ) by {
                if b < before.len() {
                    assert(!paths::same_path(before[a].path, before[b].path));
                } else {
                    assert(!paths::same_path(before[a].path, last.path));
                }
            }
        }
        assert forall|p: ProjectView| #[trigger] after.contains(p) <==> p == last || (
        before.contains(p) && !paths::same_path(p.path, last.path)) by {
            if known(before, last.path) {
                assert(after[at] == last);
            } else {
                assert(after[before.len() as int] == last);
            }
            if after.contains(p) && p != last {
                let i = choose|i: int| 0 <= i < after.len() && after[i] == p;
                assert(before[i] == p);
                if known(before, last.path) {
                    assert(i != at);
                    if i < at {
                        assert(!paths::same_path(before[i].path, before[at].path));
                    } else {
                        assert(!paths::same_path(before[at].path, before[i].path));
                    }
                } else {
                    assert(!paths::same_path(before[i].path, last.path));
                }
            }
            if before.contains(p) && !paths::same_path(p.path, last.path) {
                let i = choose|i: int| 0 <= i < before.len() && before[i] == p;
                assert(after[i] == p);
            }
        }
        assert forall|p: ProjectView| #[trigger] after.contains(p) <==> exists|i: int|
            0 <= i < persisted.len() && (#[trigger] persisted[i]) == p && forall|j: int|
                i < j < persisted.len() ==> !paths::same_path(
                    (#[trigger] persisted[j]).path,
                    p.path,
                ) by {
            let end = persisted.len() - 1;
            if p == last {
                assert(persisted[end] == p);
            } else if after.contains(p) {
                let i = choose|i: int|
                    0 <= i < init.len() && (#[trigger] init[i]) == p && forall|j: int|
                        i < j < init.len() ==> !paths::same_path(
                            (#[trigger] init[j]).path,
                            p.path,
                        );
                assert(persisted[i] == p);
                assert forall|j: int| i < j < persisted.len() implies !paths::same_path(
                    (#[trigger] persisted[j]).path,
                    p.path,
                ) by {
                    if j < end {
                        assert(init[j] == persisted[j]);
                    }
                }
            }
            if exists|i: int|
                0 <= i < persisted.len() && (#[trigger] persisted[i]) == p && forall|j: int|
                    i < j < persisted.len() ==> !paths::same_path(
                        (#[trigger] persisted[j]).path,
                        p.path,
                    ) {
                let i = choose|i: int|
                    0 <= i < persisted.len() && (#[trigger] persisted[i]) == p && forall|j: int|
                        i < j < persisted.len() ==> !paths::same_path(
                            (#[trigger] persisted[j]).path,
                            p.path,
                        );
                if i < end {
                    assert(init[i] == p);
                    assert forall|j: int| i < j < init.len() implies !paths::same_path(
                        (#[trigger] init[j]).path,
                        p.path,
                    ) by {
                        assert(persisted[j] == init[j]);
                    }
                    assert(!paths::same_path(persisted[end].path, p.path));
                    assert(before.contains(p));
                }
            }
        }
    } else {
        assert(loaded(persisted) =~= Seq::<ProjectView>::empty());
    }
}

/// Every project that a new order moves is saved as it then is, and reported
/// under the path that the order gave.
pub proof fn new_orders_are_saved(
    projects: Seq<ProjectView>,
    ordered: Seq<Seq<char>>,
    next: int,
    i: int,
    k: int,
)
    requires
        distinct(projects),
        paths::unrepeated(ordered),
        0 <= next,
        next + ordered.len() <= i32::MAX,
        0 <= i < projects.len(),
        0 <= k < ordered.len(),
        paths::same_path(projects[i].path, ordered[k]),
    ensures
        position_effects(projects, ordered, next).contains(
            (RegistryEffectView::Save { project: positioned(projects, ordered, next)[i] }),
        ),
        position_effects(projects, ordered, next).contains(
            (RegistryEffectView::Emit { event: ProjectEventView::Updated { path: ordered[k] } }),
        ),
    decreases ordered.len(),
{
    let key = ordered[0];
    let rest = ordered.skip(1);
    let all = paths::all_parts(ordered);
    let others = paths::all_parts(rest);
    let effects = position_effects(projects, ordered, next);
    let at = project_pos(projects, key);
    lemma_project_pos(projects, key);
    assert(others =~= all.skip(1));
    assert(others.no_duplicates());
    let here = known(projects, key);
    let base = if here {
        placed(projects, key, next)
    } else {
        projects
    };
    let step = if here {
        next + 1
    } else {
        next
    };
    if here {
        lemma_placed_distinct(projects, key, next);
    }
    lemma_numbered(base, rest, step);
    let after = positioned(projects, ordered, next);
    assert(after == positioned(base, rest, step));
    if k == 0 {
        assert(here);
        if i < at {
            assert(!paths::same_path(projects[i].path, key));
        } else if at < i {
            assert(!paths::same_path(projects[at].path, projects[i].path));
        }
        assert(!paths::lists(rest, projects[i].path)) by {
            if paths::lists(rest, projects[i].path) {
                let j = choose|j: int|
                    0 <= j < others.len() && others[j] == paths::parts(projects[i].path);
                assert(all[j + 1] == all[0]);
            }
        }
        assert(after[i] == base[i]);
        assert(effects[0] == (RegistryEffectView::Save { project: after[i] }));
        assert(effects[1] == (RegistryEffectView::Emit {
            event: ProjectEventView::Updated { path: key },
        }));
    } else {
        assert(rest[k - 1] == ordered[k]);
        assert(base[i].path == projects[i].path);
        new_orders_are_saved(base, rest, step, i, k - 1);
        let later = position_effects(base, rest, step);
        let front: int = if here {
            2
        } else {
            0
        };
        let saved = RegistryEffectView::Save { project: after[i] };
        let told = RegistryEffectView::Emit {
            event: ProjectEventView::Updated { path: ordered[k] },
        };
        let x = choose|x: int| 0 <= x < later.len() && later[x] == saved;
        let y = choose|y: int| 0 <= y < later.len() && later[y] == told;
        assert(effects[front + x] == saved);
        assert(effects[front + y] == told);
    }
}

/// Clearing the order reports each project that had a position, in their order,
/// and no other.
pub proof fn clearing_reports_what_had_a_position(
    projects: Seq<ProjectView>,
    project: ProjectView,
)
    ensures
        clear_reports(Seq::empty()) == Seq::<RegistryEffectView>::empty(),
        project.manual_position is None ==> clear_reports(projects.push(project)) == clear_reports(
            projects,
        ),
        project.manual_position is Some ==> clear_reports(projects.push(project)) == clear_reports(
            projects,
        ).push(
            (RegistryEffectView::Emit { event: ProjectEventView::Updated { path: project.path } }),
        ),
{
    assert(projects.push(project).drop_last() =~= projects);
}

/// The registry files a local path under what the filesystem resolves it to,
/// under the path itself where it cannot be resolved, and a remote one as it is.
pub proof fn registry_files_resolved_paths(path: RegistryPath)
    ensures
        path.path@.len() >= 6 && path.path@.subrange(0, 6) == seq!['s', 's', 'h', ':', '/', '/']
            ==> path.key() == path.path@,
        !(path.path@.len() >= 6 && path.path@.subrange(0, 6) == seq!['s', 's', 'h', ':', '/', '/'])
            ==> path.key() == (match path.resolved {
            Some(found) => found@,
            None => path.path@,
        }),
{
}

/// A project was last used when it was last opened, or else when it was added.
pub proof fn projects_are_used_when_opened(project: ProjectView)
    ensures
        project.last_opened_ts matches Some(opened) ==> project.last_used_at() == opened,
        project.last_opened_ts is None ==> project.last_used_at() == project.added_ts,
{
}

} // verus!
