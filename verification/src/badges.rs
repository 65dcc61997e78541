//! The git badges of repository rows: what changed, and the pull request.
use vstd::prelude::*;
use crate::paths;
use crate::paths::{is_same_path, lists_path};
use crate::sidebar_state;
use crate::sidebar_state::Keyed;
use crate::tabs::TabStrip;
use crate::text;
use crate::text::copy_text;

verus! {

broadcast use vstd::string::group_string_axioms;

/// How many files and lines differ from the last commit.
#[derive(Clone, Copy, Debug, PartialEq, Eq, Structural)]
pub struct GitLineChanges {
    pub files_changed: u32,
    pub lines_added: u32,
    pub lines_removed: u32,
}

/// The badges of a row, as mathematical values.
pub struct BadgesView {
    pub diff_stats: Option<GitLineChanges>,
    pub pull_request_url: Option<Seq<char>>,
}

/// The badges of a repository row, taken from the repository's terminals so that
/// the row always matches what they show.
#[derive(Debug, PartialEq, Eq)]
pub struct RepoModeEntryBadges {
    pub diff_stats: Option<GitLineChanges>,
    pub pull_request_url: Option<String>,
}

impl View for RepoModeEntryBadges {
    type V = BadgesView;

    open spec fn view(&self) -> BadgesView {
        BadgesView {
            diff_stats: self.diff_stats,
            pull_request_url: text::text_view(self.pull_request_url),
        }
    }
}

impl Clone for RepoModeEntryBadges {
    fn clone(&self) -> (copy: Self)
        ensures
            copy == *self,
    {
        RepoModeEntryBadges {
            diff_stats: self.diff_stats,
            pull_request_url: copy_text(&self.pull_request_url),
        }
    }
}

/// No badges.
pub open spec fn no_badges() -> BadgesView {
    BadgesView { diff_stats: None, pull_request_url: None }
}

impl Default for RepoModeEntryBadges {
    fn default() -> (badges: Self)
        ensures
            badges@ == no_badges(),
    {
        RepoModeEntryBadges { diff_stats: None, pull_request_url: None }
    }
}

/// What a terminal shows of git, as mathematical values.
pub struct TerminalGitView {
    pub repo_path: Option<Seq<char>>,
    pub diff_stats: Option<GitLineChanges>,
    pub pull_request_url: Option<Seq<char>>,
}

/// What a terminal shows of the repository it is in.
#[derive(Debug)]
pub struct TerminalGit {
    /// The root of the local repository the terminal is in.
    pub repo_path: Option<String>,
    pub diff_stats: Option<GitLineChanges>,
    pub pull_request_url: Option<String>,
}

impl View for TerminalGit {
    type V = TerminalGitView;

    open spec fn view(&self) -> TerminalGitView {
        TerminalGitView {
            repo_path: text::text_view(self.repo_path),
            diff_stats: self.diff_stats,
            pull_request_url: text::text_view(self.pull_request_url),
        }
    }
}

impl TerminalGitView {
    /// Whether the terminal is in the repository at `path`.
    pub open spec fn stands_in(self, path: Seq<char>) -> bool {
        self.repo_path matches Some(repo) && paths::same_path(repo, path)
    }
}

/// Terminals as mathematical values.
pub open spec fn terminals_view(terminals: Seq<TerminalGit>) -> Seq<TerminalGitView> {
    terminals.map_values(|t: TerminalGit| t@)
}

/// The terminals of the tabs at `order`, tab after tab.
pub open spec fn in_order(terminals: Seq<Vec<TerminalGit>>, order: Seq<usize>) -> Seq<
    TerminalGitView,
>
    decreases order.len(),
{
    if order.len() == 0 {
        Seq::empty()
    } else {
        let index = order.last() as int;
        in_order(terminals, order.drop_last()) + (if index < terminals.len() {
            terminals_view(terminals[index]@)
        } else {
            Seq::empty()
        })
    }
}

/// Whether a terminal is in the repository at `path`.
pub open spec fn has_terminal(seen: Seq<TerminalGitView>, path: Seq<char>) -> bool {
    exists|i: int| 0 <= i < seen.len() && (#[trigger] seen[i]).stands_in(path)
}

/// The changes that the first terminal in the repository to know any shows.
pub open spec fn first_changes(seen: Seq<TerminalGitView>, path: Seq<char>) -> Option<
    GitLineChanges,
>
    decreases seen.len(),
{
    if seen.len() == 0 {
        None
    } else if seen[0].stands_in(path) && seen[0].diff_stats is Some {
        seen[0].diff_stats
    } else {
        first_changes(seen.skip(1), path)
    }
}

/// The pull request that the first terminal in the repository to know one shows.
pub open spec fn first_pull_request(seen: Seq<TerminalGitView>, path: Seq<char>) -> Option<
    Seq<char>,
>
    decreases seen.len(),
{
    if seen.len() == 0 {
        None
    } else if seen[0].stands_in(path) && seen[0].pull_request_url is Some {
        seen[0].pull_request_url
    } else {
        first_pull_request(seen.skip(1), path)
    }
}

/// The badges of the repository at `path`; nothing when no terminal is in it.
pub open spec fn badges_of(seen: Seq<TerminalGitView>, path: Seq<char>) -> Option<BadgesView> {
    if has_terminal(seen, path) {
        Some(
            BadgesView {
                diff_stats: first_changes(seen, path),
                pull_request_url: first_pull_request(seen, path),
            },
        )
    } else {
        None
    }
}

/// What is kept, by the components of the path it is kept for.
pub open spec fn by_path(list: Seq<Keyed<RepoModeEntryBadges>>) -> Seq<
    (Seq<Seq<char>>, RepoModeEntryBadges),
> {
    list.map_values(|row: Keyed<RepoModeEntryBadges>| (paths::parts(row.key@), row.value))
}

/// Where the badges of `path` are kept.
fn find(list: &Vec<Keyed<RepoModeEntryBadges>>, path: &str) -> (at: usize)
    ensures
        at == sidebar_state::slot(by_path(list@), paths::parts(path@)),
        at <= list.len(),
{
    let mut i: usize = 0;
    while i < list.len()
        invariant
            i <= list.len(),
            forall|j: int|
                0 <= j < i ==> (#[trigger] by_path(list@)[j]).0 != paths::parts(path@),
        decreases list.len() - i,
    {
        assert(by_path(list@)[i as int].0 == paths::parts(list@[i as int].key@));
        if is_same_path(list[i].key.as_str(), path) {
            proof {
                sidebar_state::lemma_slot_is(by_path(list@), paths::parts(path@), i as int);
            }
            return i;
        }
        i += 1;
    }
    proof {
        sidebar_state::lemma_slot_is(by_path(list@), paths::parts(path@), i as int);
    }
    i
}

/// The badges that are kept for `path`.
pub(crate) fn badges_for<'a>(list: &'a Vec<Keyed<RepoModeEntryBadges>>, path: &str) -> (found:
    Option<&'a RepoModeEntryBadges>)
    ensures
        match found {
            Some(badges) => kept_badges(list@, path@) == Some(badges@),
            None => kept_badges(list@, path@) is None,
        },
{
    let at = find(list, path);
    if at < list.len() {
        assert(by_path(list@)[at as int].1 == list@[at as int].value);
        Some(&list[at].value)
    } else {
        None
    }
}

/// The badges kept for `path`.
pub open spec fn kept_badges(list: Seq<Keyed<RepoModeEntryBadges>>, path: Seq<char>) -> Option<
    BadgesView,
> {
    match sidebar_state::kept_for(by_path(list), paths::parts(path)) {
        Some(badges) => Some(badges@),
        None => None,
    }
}

proof fn lemma_first_push(seen: Seq<TerminalGitView>, terminal: TerminalGitView, path: Seq<char>)
    ensures
        first_changes(seen.push(terminal), path) == (if first_changes(seen, path) is Some {
            first_changes(seen, path)
        } else if terminal.stands_in(path) {
            terminal.diff_stats
        } else {
            None
        }),
        first_pull_request(seen.push(terminal), path) == (if first_pull_request(seen, path) is Some {
            first_pull_request(seen, path)
        } else if terminal.stands_in(path) {
            terminal.pull_request_url
        } else {
            None
        }),
    decreases seen.len(),
{
    let all = seen.push(terminal);
    if seen.len() == 0 {
        assert(first_changes(all.skip(1), path) is None);
        assert(first_pull_request(all.skip(1), path) is None);
    } else {
        assert(all.skip(1) =~= seen.skip(1).push(terminal));
        lemma_first_push(seen.skip(1), terminal, path);
    }
}

proof fn lemma_badges_push(seen: Seq<TerminalGitView>, terminal: TerminalGitView, path: Seq<char>)
    ensures
        !terminal.stands_in(path) ==> badges_of(seen.push(terminal), path) == badges_of(
            seen,
            path,
        ),
        terminal.stands_in(path) ==> badges_of(seen.push(terminal), path) == Some(
            BadgesView {
                diff_stats: if first_changes(seen, path) is Some {
                    first_changes(seen, path)
                } else {
                    terminal.diff_stats
                },
                pull_request_url: if first_pull_request(seen, path) is Some {
                    first_pull_request(seen, path)
                } else {
                    terminal.pull_request_url
                },
            },
        ),
        badges_of(seen, path) is None ==> first_changes(seen, path) is None && first_pull_request(
            seen,
            path,
        ) is None,
{
    lemma_first_push(seen, terminal, path);
    let all = seen.push(terminal);
    if has_terminal(seen, path) {
        let at = choose|i: int| 0 <= i < seen.len() && (#[trigger] seen[i]).stands_in(path);
        assert(all[at].stands_in(path));
    } else {
        lemma_no_terminal(seen, path);
    }
    if terminal.stands_in(path) {
        assert(all[seen.len() as int].stands_in(path));
    } else if has_terminal(all, path) {
        let at = choose|i: int| 0 <= i < all.len() && (#[trigger] all[i]).stands_in(path);
        assert(at < seen.len());
        assert(seen[at].stands_in(path));
    }
}

proof fn lemma_no_terminal(seen: Seq<TerminalGitView>, path: Seq<char>)
    requires
        !has_terminal(seen, path),
    ensures
        first_changes(seen, path) is None,
        first_pull_request(seen, path) is None,
    decreases seen.len(),
{
    if seen.len() > 0 {
        assert(!seen[0].stands_in(path));
        assert forall|i: int| 0 <= i < seen.skip(1).len() implies !(
        #[trigger] seen.skip(1)[i]).stands_in(path) by {
            assert(!seen[i + 1].stands_in(path));
        }
        lemma_no_terminal(seen.skip(1), path);
    }
}

/// The list holds the badges of every wanted repository that has a terminal
/// among those seen, and nothing else.
pub open spec fn badges_listed(
    list: Seq<Keyed<RepoModeEntryBadges>>,
    seen: Seq<TerminalGitView>,
    wanted: Seq<Seq<char>>,
) -> bool {
    forall|path: Seq<char>| #[trigger]
        kept_badges(list, path) == (if paths::lists(wanted, path) {
            badges_of(seen, path)
        } else {
            None
        })
}

/// One more terminal, seen after the others.
fn see_terminal(
    list: &mut Vec<Keyed<RepoModeEntryBadges>>,
    terminal: &TerminalGit,
    wanted: &Vec<String>,
    Ghost(seen): Ghost<Seq<TerminalGitView>>,
)
    requires
        badges_listed(old(list)@, seen, text::texts(wanted@)),
    ensures
        badges_listed(final(list)@, seen.push(terminal@), text::texts(wanted@)),
{
    let ghost before = by_path(list@);
    let ghost entries = text::texts(wanted@);
    let repo_path = match &terminal.repo_path {
        Some(found) => found,
        None => {
            proof {
                assert forall|path: Seq<char>| #[trigger]
                    kept_badges(list@, path) == (if paths::lists(entries, path) {
                        badges_of(seen.push(terminal@), path)
                    } else {
                        None
                    }) by {
                    lemma_badges_push(seen, terminal@, path);
                }
            }
            return ;
        },
    };
    if !lists_path(wanted, repo_path.as_str()) {
        proof {
            assert forall|path: Seq<char>| #[trigger]
                kept_badges(list@, path) == (if paths::lists(entries, path) {
                    badges_of(seen.push(terminal@), path)
                } else {
                    None
                }) by {
                lemma_badges_push(seen, terminal@, path);
            }
        }
        return ;
    }
    let at = find(list, repo_path.as_str());
    proof {
        lemma_badges_push(seen, terminal@, repo_path@);
        assert(kept_badges(old(list)@, repo_path@) == badges_of(seen, repo_path@));
    }
    if at < list.len() {
        let known = &list[at].value;
        let diff_stats = match known.diff_stats {
            Some(found) => Some(found),
            None => terminal.diff_stats,
        };
        let pull_request_url = match &known.pull_request_url {
            Some(found) => Some(found.clone()),
            None => copy_text(&terminal.pull_request_url),
        };
        let value = RepoModeEntryBadges { diff_stats, pull_request_url };
        let key = list[at].key.clone();
        proof {
            sidebar_state::lemma_slot(before, paths::parts(repo_path@));
            assert(before[at as int].0 == paths::parts(list@[at as int].key@));
        }
        list.set(at, Keyed { key, value });
        assert(by_path(list@) =~= sidebar_state::put(before, paths::parts(repo_path@), value));
    } else {
        let value = RepoModeEntryBadges {
            diff_stats: terminal.diff_stats,
            pull_request_url: copy_text(&terminal.pull_request_url),
        };
        list.push(Keyed { key: repo_path.clone(), value });
        assert(by_path(list@) =~= sidebar_state::put(before, paths::parts(repo_path@), value));
    }
    proof {
        assert forall|path: Seq<char>| #[trigger]
            kept_badges(list@, path) == (if paths::lists(entries, path) {
                badges_of(seen.push(terminal@), path)
            } else {
                None
            }) by {
            lemma_badges_push(seen, terminal@, path);
            let value = by_path(list@)[at as int].1;
            sidebar_state::lemma_put_kept(
                before,
                paths::parts(repo_path@),
                value,
                paths::parts(path),
            );
            assert(kept_badges(old(list)@, path) == (if paths::lists(entries, path) {
                badges_of(seen, path)
            } else {
                None
            }));
        }
    }
}

/// The badges of every entry of `entry_paths` that a terminal is in, where
/// `terminals` holds the terminals of each tab. Which group a tab belongs to is
/// no matter: a terminal speaks for the repository it is in. The tab used last
/// is asked first, so that a badge follows the terminal the user last touched.
pub fn repo_mode_badges_by_entry(
    strip: &TabStrip,
    terminals: &Vec<Vec<TerminalGit>>,
    entry_paths: &Vec<String>,
) -> (badges: Vec<Keyed<RepoModeEntryBadges>>)
    ensures
        badges_listed(
            badges@,
            in_order(terminals@, strip@.by_recency()),
            text::texts(entry_paths@),
        ),
{
    let mut badges: Vec<Keyed<RepoModeEntryBadges>> = Vec::new();
    let ghost entries = text::texts(entry_paths@);
    let order = strip.tab_indices_in_mru_order();
    let ghost mut seen: Seq<TerminalGitView> = Seq::empty();
    proof {
        assert forall|path: Seq<char>| #[trigger]
            kept_badges(badges@, path) == (if paths::lists(entries, path) {
                badges_of(seen, path)
            } else {
                None
            }) by {
            assert(!has_terminal(seen, path));
        }
        assert(order@.take(0) =~= Seq::empty());
    }
    let mut i: usize = 0;
    while i < order.len()
        invariant
            i <= order@.len(),
            entries == text::texts(entry_paths@),
            seen == in_order(terminals@, order@.take(i as int)),
            badges_listed(badges@, seen, entries),
        decreases order@.len() - i,
    {
        let index = order[i];
        assert(order@.take(i + 1).drop_last() =~= order@.take(i as int));
        assert(order@.take(i + 1).last() == index);
        if index < terminals.len() {
            let shown = &terminals[index];
            let ghost views = terminals_view(shown@);
            let ghost base = seen;
            let mut j: usize = 0;
            assert(base + views.take(0) =~= base);
            while j < shown.len()
                invariant
                    j <= shown@.len(),
                    entries == text::texts(entry_paths@),
                    views == terminals_view(shown@),
                    seen == base + views.take(j as int),
                    badges_listed(badges@, seen, entries),
                decreases shown@.len() - j,
            {
                see_terminal(&mut badges, &shown[j], entry_paths, Ghost(seen));
                proof {
                    assert(views[j as int] == shown@[j as int]@);
                    assert(base + views.take(j + 1) =~= seen.push(views[j as int]));
                    seen = base + views.take(j + 1);
                }
                j += 1;
            }
            assert(views.take(j as int) =~= views);
        } else {
            assert(seen + Seq::<TerminalGitView>::empty() =~= seen);
        }
        i += 1;
    }
    assert(order@.take(i as int) =~= order@);
    badges
}

/// A terminal never puts another repository's badges on a row: what a row shows
/// comes from terminals in that very repository.
pub proof fn badges_come_from_the_repository(seen: Seq<TerminalGitView>, path: Seq<char>)
    ensures
        badges_of(seen, path) matches Some(badges) ==> {
            &&& badges.diff_stats is Some ==> exists|i: int|
                0 <= i < seen.len() && (#[trigger] seen[i]).stands_in(path)
                    && seen[i].diff_stats == badges.diff_stats
            &&& badges.pull_request_url is Some ==> exists|i: int|
                0 <= i < seen.len() && (#[trigger] seen[i]).stands_in(path)
                    && seen[i].pull_request_url == badges.pull_request_url
        },
    decreases seen.len(),
{
    if seen.len() > 0 {
        let rest = seen.skip(1);
        badges_come_from_the_repository(rest, path);
        if !has_terminal(rest, path) {
            lemma_no_terminal(rest, path);
        }
        if has_terminal(seen, path) && has_terminal(rest, path) {
            if first_changes(rest, path) is Some {
                let at = choose|i: int|
                    0 <= i < rest.len() && (#[trigger] rest[i]).stands_in(path)
                        && rest[i].diff_stats == first_changes(rest, path);
                assert(seen[at + 1] == rest[at]);
            }
            if first_pull_request(rest, path) is Some {
                let at = choose|i: int|
                    0 <= i < rest.len() && (#[trigger] rest[i]).stands_in(path)
                        && rest[i].pull_request_url == first_pull_request(rest, path);
                assert(seen[at + 1] == rest[at]);
            }
        }
        assert(seen[0] == seen[0]);
    }
}

/// A row shows the changes that the terminal touched last knows: the first
/// terminal standing in the repository that knows them, the tabs taken in the
/// order of use and the terminals of a tab in their own order.
pub proof fn changes_come_from_the_terminal_touched_last(
    terminals: Seq<Vec<TerminalGit>>,
    order: Seq<usize>,
    path: Seq<char>,
    k: int,
    j: int,
)
    requires
        0 <= k < order.len(),
        order[k] < terminals.len(),
        0 <= j < terminals[order[k] as int]@.len(),
        terminals[order[k] as int]@[j].diff_stats is Some,
        terminals[order[k] as int]@[j].repo_path matches Some(repo) && paths::same_path(
            repo@,
            path,
        ),
        forall|a: int, b: int|
            #![trigger terminals[order[a] as int]@[b]]
            (0 <= a < k || a == k && b < j) && order[a] < terminals.len() && 0 <= b
                < terminals[order[a] as int]@.len() ==> {
                ||| terminals[order[a] as int]@[b].diff_stats is None
                ||| terminals[order[a] as int]@[b].repo_path is None
                ||| !paths::same_path(terminals[order[a] as int]@[b].repo_path->0@, path)
            },
    ensures
        badges_of(in_order(terminals, order), path) matches Some(badges) && badges.diff_stats
            == terminals[order[k] as int]@[j].diff_stats,
{
    let seen = in_order(terminals, order);
    let before = in_order(terminals, order.take(k));
    let x = before.len() + j;
    lemma_in_order_at(terminals, order, k, j);
    assert forall|y: int| 0 <= y < x implies !((#[trigger] seen[y]).stands_in(path)
        && seen[y].diff_stats is Some) by {
        if y < before.len() {
            let (a, b) = lemma_from_order(terminals, order.take(k), y);
            assert(order.take(k)[a] == order[a]);
            assert(seen[y] == terminals[order[a] as int]@[b]@);
        } else {
            lemma_in_order_at(terminals, order, k, y - before.len());
            assert(seen[y] == terminals[order[k] as int]@[y - before.len()]@);
        }
    }
    assert(seen[x].stands_in(path));
    lemma_first_changes_at(seen, path, x);
}

/// A row shows the pull request that the terminal touched last knows, found as
/// its changes are.
pub proof fn pull_request_comes_from_the_terminal_touched_last(
    terminals: Seq<Vec<TerminalGit>>,
    order: Seq<usize>,
    path: Seq<char>,
    k: int,
    j: int,
)
    requires
        0 <= k < order.len(),
        order[k] < terminals.len(),
        0 <= j < terminals[order[k] as int]@.len(),
        terminals[order[k] as int]@[j].pull_request_url is Some,
        terminals[order[k] as int]@[j].repo_path matches Some(repo) && paths::same_path(
            repo@,
            path,
        ),
        forall|a: int, b: int|
            #![trigger terminals[order[a] as int]@[b]]
            (0 <= a < k || a == k && b < j) && order[a] < terminals.len() && 0 <= b
                < terminals[order[a] as int]@.len() ==> {
                ||| terminals[order[a] as int]@[b].pull_request_url is None
                ||| terminals[order[a] as int]@[b].repo_path is None
                ||| !paths::same_path(terminals[order[a] as int]@[b].repo_path->0@, path)
            },
    ensures
        badges_of(in_order(terminals, order), path) matches Some(badges) && badges.pull_request_url
            == Some(terminals[order[k] as int]@[j].pull_request_url->0@),
{
    let seen = in_order(terminals, order);
    let before = in_order(terminals, order.take(k));
    let x = before.len() + j;
    lemma_in_order_at(terminals, order, k, j);
    assert forall|y: int| 0 <= y < x implies !((#[trigger] seen[y]).stands_in(path)
        && seen[y].pull_request_url is Some) by {
        if y < before.len() {
            let (a, b) = lemma_from_order(terminals, order.take(k), y);
            assert(order.take(k)[a] == order[a]);
            assert(seen[y] == terminals[order[a] as int]@[b]@);
        } else {
            lemma_in_order_at(terminals, order, k, y - before.len());
            assert(seen[y] == terminals[order[k] as int]@[y - before.len()]@);
        }
    }
    assert(seen[x].stands_in(path));
    lemma_first_pull_request_at(seen, path, x);
}

/// A row has badges exactly when a terminal of some tab stands in its
/// repository, and a badge stays empty when none of those knows what it shows.
pub proof fn rows_without_terminals_have_no_badges(
    terminals: Seq<Vec<TerminalGit>>,
    order: Seq<usize>,
    path: Seq<char>,
)
    ensures
        badges_of(in_order(terminals, order), path) is Some <==> exists|a: int, b: int|
            #![trigger terminals[order[a] as int]@[b]]
            0 <= a < order.len() && order[a] < terminals.len() && 0 <= b
                < terminals[order[a] as int]@.len() && (
            terminals[order[a] as int]@[b].repo_path matches Some(repo) && paths::same_path(
                repo@,
                path,
            )),
        (forall|a: int, b: int|
            #![trigger terminals[order[a] as int]@[b]]
            0 <= a < order.len() && order[a] < terminals.len() && 0 <= b
                < terminals[order[a] as int]@.len() ==> {
                ||| terminals[order[a] as int]@[b].diff_stats is None
                ||| terminals[order[a] as int]@[b].repo_path is None
                ||| !paths::same_path(terminals[order[a] as int]@[b].repo_path->0@, path)
            }) ==> (badges_of(in_order(terminals, order), path) matches Some(badges)
            ==> badges.diff_stats is None),
        (forall|a: int, b: int|
            #![trigger terminals[order[a] as int]@[b]]
            0 <= a < order.len() && order[a] < terminals.len() && 0 <= b
                < terminals[order[a] as int]@.len() ==> {
                ||| terminals[order[a] as int]@[b].pull_request_url is None
                ||| terminals[order[a] as int]@[b].repo_path is None
                ||| !paths::same_path(terminals[order[a] as int]@[b].repo_path->0@, path)
            }) ==> (badges_of(in_order(terminals, order), path) matches Some(badges)
            ==> badges.pull_request_url is None),
{
    let seen = in_order(terminals, order);
    badges_come_from_the_repository(seen, path);
    if has_terminal(seen, path) {
        let x = choose|x: int| 0 <= x < seen.len() && (#[trigger] seen[x]).stands_in(path);
        let (a, b) = lemma_from_order(terminals, order, x);
        assert(terminals[order[a] as int]@[b].repo_path is Some);
    }
    assert forall|a: int, b: int|
        #![trigger terminals[order[a] as int]@[b]]
        0 <= a < order.len() && order[a] < terminals.len() && 0 <= b
            < terminals[order[a] as int]@.len() && (
        terminals[order[a] as int]@[b].repo_path matches Some(repo) && paths::same_path(
            repo@,
            path,
        )) implies has_terminal(seen, path) by {
        lemma_in_order_at(terminals, order, a, b);
        assert(seen[in_order(terminals, order.take(a)).len() + b].stands_in(path));
    }
    if let Some(badges) = badges_of(seen, path) {
        if badges.diff_stats is Some {
            let x = choose|x: int|
                0 <= x < seen.len() && (#[trigger] seen[x]).stands_in(path) && seen[x].diff_stats
                    == badges.diff_stats;
            let (a, b) = lemma_from_order(terminals, order, x);
            assert(terminals[order[a] as int]@[b].diff_stats is Some);
        }
        if badges.pull_request_url is Some {
            let x = choose|x: int|
                0 <= x < seen.len() && (#[trigger] seen[x]).stands_in(path)
                    && seen[x].pull_request_url == badges.pull_request_url;
            let (a, b) = lemma_from_order(terminals, order, x);
            assert(terminals[order[a] as int]@[b].pull_request_url is Some);
        }
    }
}

/// Which terminal of which tab stands at a place of what is seen.
proof fn lemma_from_order(terminals: Seq<Vec<TerminalGit>>, order: Seq<usize>, x: int) -> (at: (
    int,
    int,
))
    requires
        0 <= x < in_order(terminals, order).len(),
    ensures
        0 <= at.0 < order.len(),
        order[at.0] < terminals.len(),
        0 <= at.1 < terminals[order[at.0] as int]@.len(),
        in_order(terminals, order)[x] == terminals[order[at.0] as int]@[at.1]@,
    decreases order.len(),
{
    let before = in_order(terminals, order.drop_last());
    if x < before.len() {
        let at = lemma_from_order(terminals, order.drop_last(), x);
        assert(order.drop_last()[at.0] == order[at.0]);
        at
    } else {
        (order.len() - 1, x - before.len())
    }
}

/// Where a terminal of a tab stands in what is seen.
proof fn lemma_in_order_at(terminals: Seq<Vec<TerminalGit>>, order: Seq<usize>, k: int, j: int)
    requires
        0 <= k < order.len(),
        order[k] < terminals.len(),
        0 <= j < terminals[order[k] as int]@.len(),
    ensures
        ({
            let seen = in_order(terminals, order);
            let before = in_order(terminals, order.take(k));
            &&& before.len() + j < seen.len()
            &&& seen[before.len() + j] == terminals[order[k] as int]@[j]@
            &&& forall|y: int| 0 <= y < before.len() ==> #[trigger] seen[y] == before[y]
        }),
    decreases order.len(),
{
    let init = order.drop_last();
    if k < init.len() {
        assert(init[k] == order[k]);
        lemma_in_order_at(terminals, init, k, j);
        assert(init.take(k) =~= order.take(k));
    } else {
        assert(init =~= order.take(k));
    }
}

proof fn lemma_first_changes_at(seen: Seq<TerminalGitView>, path: Seq<char>, x: int)
    requires
        0 <= x < seen.len(),
        seen[x].stands_in(path),
        seen[x].diff_stats is Some,
        forall|y: int|
            0 <= y < x ==> !((#[trigger] seen[y]).stands_in(path) && seen[y].diff_stats is Some),
    ensures
        first_changes(seen, path) == seen[x].diff_stats,
    decreases seen.len(),
{
    if x > 0 {
        let rest = seen.skip(1);
        assert(!(seen[0].stands_in(path) && seen[0].diff_stats is Some));
        assert forall|y: int| 0 <= y < x - 1 implies !((#[trigger] rest[y]).stands_in(path)
            && rest[y].diff_stats is Some) by {
            assert(rest[y] == seen[y + 1]);
        }
        lemma_first_changes_at(rest, path, x - 1);
    }
}

proof fn lemma_first_pull_request_at(seen: Seq<TerminalGitView>, path: Seq<char>, x: int)
    requires
        0 <= x < seen.len(),
        seen[x].stands_in(path),
        seen[x].pull_request_url is Some,
        forall|y: int|
            0 <= y < x ==> !((#[trigger] seen[y]).stands_in(path)
                && seen[y].pull_request_url is Some),
    ensures
        first_pull_request(seen, path) == seen[x].pull_request_url,
    decreases seen.len(),
{
    if x > 0 {
        let rest = seen.skip(1);
        assert(!(seen[0].stands_in(path) && seen[0].pull_request_url is Some));
        assert forall|y: int| 0 <= y < x - 1 implies !((#[trigger] rest[y]).stands_in(path)
            && rest[y].pull_request_url is Some) by {
            assert(rest[y] == seen[y + 1]);
        }
        lemma_first_pull_request_at(rest, path, x - 1);
    }
}

} // verus!
