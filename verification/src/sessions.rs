//! Probe sessions: which probe is entitled to speak for a remote key.
//!
//! A probe is a subprocess that can outlive everything it was started for. Every
//! result carries the generation it was started under and is dropped unless the
//! key still agrees, so a result can only land on the state it was asked about.
use vstd::prelude::*;
use crate::probe;
use crate::probe::RemoteProbeState;
use crate::text::same_text;

verus! {

/// A session, as mathematical values.
pub struct SessionView {
    pub key: Seq<char>,
    pub generation: u64,
    pub in_flight: bool,
    pub adding: bool,
    pub state: probe::ProbeStateView,
}

/// One remote key's probe history: what the last probe said, and which
/// generation is entitled to speak for the key.
#[derive(Debug)]
pub struct RemoteProbeSession {
    /// The registry key the session belongs to.
    pub key: String,
    /// Generation of the most recent probe started for the key. A result
    /// holding any other value is stale.
    pub generation: u64,
    /// Whether that probe is still running.
    pub in_flight: bool,
    /// Whether that probe is one that the add form waits on. Its key is shown
    /// before the registry has accepted it.
    pub adding: bool,
    pub state: RemoteProbeState,
}

impl View for RemoteProbeSession {
    type V = SessionView;

    open spec fn view(&self) -> SessionView {
        SessionView {
            key: self.key@,
            generation: self.generation,
            in_flight: self.in_flight,
            adding: self.adding,
            state: self.state@,
        }
    }
}

/// Sessions as mathematical values.
pub open spec fn sessions_view(sessions: Seq<RemoteProbeSession>) -> Seq<SessionView> {
    sessions.map_values(|s: RemoteProbeSession| s@)
}

/// Where the session of `key` stands, or the length when there is none.
pub open spec fn session_pos(sessions: Seq<SessionView>, key: Seq<char>) -> int
    decreases sessions.len(),
{
    if sessions.len() == 0 || sessions[0].key == key {
        0
    } else {
        1 + session_pos(sessions.skip(1), key)
    }
}

/// The session of `key`.
pub open spec fn session_of(sessions: Seq<SessionView>, key: Seq<char>) -> Option<SessionView> {
    let at = session_pos(sessions, key);
    if at < sessions.len() {
        Some(sessions[at])
    } else {
        None
    }
}

/// No two sessions share a key.
pub open spec fn one_per_key(sessions: Seq<SessionView>) -> bool {
    forall|i: int, j: int|
        0 <= i < j < sessions.len() ==> (#[trigger] sessions[i]).key != (
        #[trigger] sessions[j]).key
}

/// What [`session_pos`] finds.
pub proof fn lemma_session_pos(sessions: Seq<SessionView>, key: Seq<char>)
    ensures
        0 <= session_pos(sessions, key) <= sessions.len(),
        session_pos(sessions, key) < sessions.len() ==> sessions[session_pos(
            sessions,
            key,
        )].key == key,
        forall|j: int|
            0 <= j < session_pos(sessions, key) ==> (#[trigger] sessions[j]).key != key,
    decreases sessions.len(),
{
    if sessions.len() > 0 && sessions[0].key != key {
        let rest = sessions.skip(1);
        lemma_session_pos(rest, key);
        assert forall|j: int| 0 <= j < session_pos(sessions, key) implies (
        #[trigger] sessions[j]).key != key by {
            if j > 0 {
                assert(rest[j - 1] == sessions[j]);
            }
        }
    }
}

/// A position with the key, and without it in front, is the position.
pub proof fn lemma_session_pos_unique(sessions: Seq<SessionView>, key: Seq<char>, at: int)
    requires
        0 <= at <= sessions.len(),
        at < sessions.len() ==> sessions[at].key == key,
        forall|j: int| 0 <= j < at ==> (#[trigger] sessions[j]).key != key,
    ensures
        session_pos(sessions, key) == at,
{
    lemma_session_pos(sessions, key);
}

/// The sessions with `session` in place of the one its key had, if any.
pub open spec fn put(sessions: Seq<SessionView>, session: SessionView) -> Seq<SessionView> {
    let at = session_pos(sessions, session.key);
    if at < sessions.len() {
        sessions.update(at, session)
    } else {
        sessions.push(session)
    }
}

/// The sessions without the one of `key`.
pub open spec fn dropped(sessions: Seq<SessionView>, key: Seq<char>) -> Seq<SessionView> {
    let at = session_pos(sessions, key);
    if at < sessions.len() {
        sessions.remove(at)
    } else {
        sessions
    }
}

/// The generation after `generation`.
pub open spec fn next_generation(generation: u64) -> u64 {
    if generation == u64::MAX {
        0
    } else {
        (generation + 1) as u64
    }
}

/// The sessions of a window, as mathematical values.
pub struct ProbeSessionsView {
    pub sessions: Seq<SessionView>,
    pub generation: u64,
}

/// The probe sessions of a window. No two belong to one key.
#[derive(Debug)]
pub struct ProbeSessions {
    pub sessions: Vec<RemoteProbeSession>,
    /// The generation that was handed out last.
    pub generation: u64,
}

impl View for ProbeSessions {
    type V = ProbeSessionsView;

    open spec fn view(&self) -> ProbeSessionsView {
        ProbeSessionsView {
            sessions: sessions_view(self.sessions@),
            generation: self.generation,
        }
    }
}

impl ProbeSessionsView {
    /// Whether a probe for `key` is still running.
    pub open spec fn in_flight(self, key: Seq<char>) -> bool {
        session_of(self.sessions, key) matches Some(session) && session.in_flight
    }

    /// The sessions after a probe for `key` was started: a known key keeps
    /// showing what it showed, a new one shows as pending. No form waits on it.
    pub open spec fn begun(self, key: Seq<char>) -> ProbeSessionsView {
        let generation = next_generation(self.generation);
        let state = match session_of(self.sessions, key) {
            Some(session) => session.state,
            None => probe::ProbeStateView::Pending,
        };
        ProbeSessionsView {
            sessions: put(
                self.sessions,
                SessionView { key, generation, in_flight: true, adding: false, state },
            ),
            generation,
        }
    }

    /// The sessions after a probe for `key` was started anew, for an add: the key
    /// shows as pending, whatever it showed.
    pub open spec fn restarted(self, key: Seq<char>) -> ProbeSessionsView {
        let generation = next_generation(self.generation);
        ProbeSessionsView {
            sessions: put(
                self.sessions,
                SessionView {
                    key,
                    generation,
                    in_flight: true,
                    adding: true,
                    state: probe::ProbeStateView::Pending,
                },
            ),
            generation,
        }
    }

    /// The sessions after the add form stopped waiting on `key`.
    pub open spec fn released(self, key: Seq<char>) -> ProbeSessionsView {
        match session_of(self.sessions, key) {
            Some(session) => ProbeSessionsView {
                sessions: put(self.sessions, SessionView { adding: false, ..session }),
                ..self
            },
            None => self,
        }
    }

    /// Whether `generation` is entitled to speak for `key`.
    pub open spec fn entitled(self, key: Seq<char>, generation: u64) -> bool {
        session_of(self.sessions, key) matches Some(session) && session.generation == generation
    }

    /// The sessions after the probe of `key` landed with `state`.
    pub open spec fn landed(
        self,
        key: Seq<char>,
        state: probe::ProbeStateView,
    ) -> ProbeSessionsView {
        match session_of(self.sessions, key) {
            Some(session) => ProbeSessionsView {
                sessions: put(
                    self.sessions,
                    SessionView { in_flight: false, adding: false, state, ..session },
                ),
                ..self
            },
            None => self,
        }
    }

    /// The sessions without the one of `key`.
    pub open spec fn forgotten(self, key: Seq<char>) -> ProbeSessionsView {
        ProbeSessionsView { sessions: dropped(self.sessions, key), ..self }
    }

    /// The sessions with the one of `from` carried over to `to`, in place of the
    /// one `to` had.
    pub open spec fn moved(self, from: Seq<char>, to: Seq<char>) -> ProbeSessionsView {
        match session_of(self.sessions, from) {
            Some(session) => ProbeSessionsView {
                sessions: put(dropped(self.sessions, from), SessionView { key: to, ..session }),
                ..self
            },
            None => self,
        }
    }

    /// Every generation in use was handed out.
    pub open spec fn issued(self) -> bool {
        forall|i: int|
            0 <= i < self.sessions.len() ==> (#[trigger] self.sessions[i]).generation
                <= self.generation
    }
}

proof fn lemma_put_one_per_key(sessions: Seq<SessionView>, session: SessionView)
    requires
        one_per_key(sessions),
    ensures
        one_per_key(put(sessions, session)),
        session_of(put(sessions, session), session.key) == Some(session),
        forall|key: Seq<char>|
            key != session.key ==> #[trigger] session_of(put(sessions, session), key) == session_of(
                sessions,
                key,
            ),
{
    let after = put(sessions, session);
    let at = session_pos(sessions, session.key);
    lemma_session_pos(sessions, session.key);
    assert forall|i: int, j: int| 0 <= i < j < after.len() implies (#[trigger] after[i]).key != (
    #[trigger] after[j]).key by {
        if j < sessions.len() {
            assert(sessions[i].key != sessions[j].key);
        }
    }
    assert forall|j: int| 0 <= j < at implies (#[trigger] after[j]).key != session.key by {
        assert(sessions[j].key != session.key);
    }
    lemma_session_pos_unique(after, session.key, at);
    assert forall|key: Seq<char>| key != session.key implies #[trigger] session_of(after, key)
        == session_of(sessions, key) by {
        lemma_session_pos(sessions, key);
        let there = session_pos(sessions, key);
        if there < sessions.len() {
            assert forall|j: int| 0 <= j < there implies (#[trigger] after[j]).key != key by {
                assert(sessions[j].key != key);
            }
            lemma_session_pos_unique(after, key, there);
        } else {
            assert forall|j: int| 0 <= j < after.len() implies (#[trigger] after[j]).key != key by {
                if j < sessions.len() {
                    assert(sessions[j].key != key);
                }
            }
            lemma_session_pos_unique(after, key, after.len() as int);
        }
    }
}

proof fn lemma_dropped_one_per_key(sessions: Seq<SessionView>, key: Seq<char>)
    requires
        one_per_key(sessions),
    ensures
        one_per_key(dropped(sessions, key)),
        session_of(dropped(sessions, key), key) is None,
        forall|other: Seq<char>|
            other != key ==> #[trigger] session_of(dropped(sessions, key), other) == session_of(
                sessions,
                other,
            ),
{
    let after = dropped(sessions, key);
    let at = session_pos(sessions, key);
    lemma_session_pos(sessions, key);
    if at < sessions.len() {
        assert forall|i: int| 0 <= i < after.len() implies #[trigger] after[i] == sessions[if i
            < at {
            i
        } else {
            i + 1
        }] by {}
        assert forall|i: int, j: int| 0 <= i < j < after.len() implies (#[trigger] after[i]).key
            != (#[trigger] after[j]).key by {
            let a = if i < at { i } else { i + 1 };
            let b = if j < at { j } else { j + 1 };
            assert(sessions[a].key != sessions[b].key);
        }
        assert forall|j: int| 0 <= j < after.len() implies (#[trigger] after[j]).key != key by {
            if j >= at {
                assert(sessions[at].key != sessions[j + 1].key);
            }
        }
        lemma_session_pos_unique(after, key, after.len() as int);
        assert forall|other: Seq<char>| other != key implies #[trigger] session_of(after, other)
            == session_of(sessions, other) by {
            lemma_session_pos(sessions, other);
            let there = session_pos(sessions, other);
            let spot = if there < at {
                there
            } else {
                there - 1
            };
            assert(there != at);
            assert forall|j: int| 0 <= j < spot implies (#[trigger] after[j]).key != other by {
                let a = if j < at { j } else { j + 1 };
                assert(sessions[a].key != other);
            }
            lemma_session_pos_unique(after, other, spot);
        }
    } else {
        lemma_session_pos_unique(sessions, key, sessions.len() as int);
    }
}

impl ProbeSessions {
    /// No two sessions belong to one key.
    pub open spec fn wf(self) -> bool {
        one_per_key(self@.sessions)
    }

    /// A window that has probed nothing.
    pub fn new() -> (sessions: Self)
        ensures
            sessions.wf(),
            sessions@ == (ProbeSessionsView { sessions: Seq::empty(), generation: 0 }),
    {
        let sessions = ProbeSessions { sessions: Vec::new(), generation: 0 };
        assert(sessions@.sessions =~= Seq::<SessionView>::empty());
        sessions
    }

    /// Where the session of `key` stands.
    fn find(&self, key: &str) -> (at: Option<usize>)
        ensures
            match at {
                Some(i) => i < self.sessions.len() && i == session_pos(self@.sessions, key@)
                    && session_of(self@.sessions, key@) == Some(self.sessions@[i as int]@)
                    && self.sessions@[i as int]@.key == key@,
                None => session_pos(self@.sessions, key@) == self.sessions@.len() && session_of(
                    self@.sessions,
                    key@,
                ) is None,
            },
    {
        let mut i: usize = 0;
        while i < self.sessions.len()
            invariant
                i <= self.sessions@.len(),
                forall|j: int| 0 <= j < i ==> (#[trigger] self@.sessions[j]).key != key@,
            decreases self.sessions@.len() - i,
        {
            assert(self@.sessions[i as int] == self.sessions@[i as int]@);
            if same_text(self.sessions[i].key.as_str(), key) {
                proof {
                    lemma_session_pos_unique(self@.sessions, key@, i as int);
                }
                return Some(i);
            }
            i += 1;
        }
        proof {
            lemma_session_pos_unique(self@.sessions, key@, i as int);
        }
        None
    }

    /// Put `session` in place of the one its key had.
    fn put(&mut self, session: RemoteProbeSession)
        requires
            old(self).wf(),
        ensures
            final(self).wf(),
            final(self)@ == (ProbeSessionsView {
                sessions: put(old(self)@.sessions, session@),
                generation: old(self)@.generation,
            }),
    {
        let ghost before = self@.sessions;
        proof {
            lemma_put_one_per_key(before, session@);
        }
        match self.find(session.key.as_str()) {
            Some(at) => {
                self.sessions.set(at, session);
                assert(self@.sessions =~= put(before, session@));
            },
            None => {
                self.sessions.push(session);
                assert(self@.sessions =~= put(before, session@));
            },
        }
    }

    /// What the last probe of `key` said; pending when it was never probed.
    pub fn state(&self, key: &str) -> (state: RemoteProbeState)
        ensures
            state@ == (match session_of(self@.sessions, key@) {
                Some(session) => session.state,
                None => probe::ProbeStateView::Pending,
            }),
    {
        match self.find(key) {
            Some(at) => self.sessions[at].state.clone(),
            None => RemoteProbeState::Pending,
        }
    }

    /// Whether `key` has a session.
    pub fn contains_key(&self, key: &str) -> (found: bool)
        ensures
            found == (session_of(self@.sessions, key@) is Some),
    {
        self.find(key).is_some()
    }

    /// Whether a probe for `key` is still running.
    pub fn in_flight(&self, key: &str) -> (running: bool)
        ensures
            running == self@.in_flight(key@),
    {
        match self.find(key) {
            Some(at) => self.sessions[at].in_flight,
            None => false,
        }
    }

    /// The next generation.
    fn next_probe_generation(&mut self) -> (generation: u64)
        ensures
            generation == next_generation(old(self)@.generation),
            final(self)@ == (ProbeSessionsView { generation, ..old(self)@ }),
            final(self).wf() == old(self).wf(),
    {
        let generation = self.generation.wrapping_add(1);
        self.generation = generation;
        generation
    }

    /// Claim the next generation for `key`, unless a probe is already running
    /// for it. `None` means "already covered: do not start another".
    pub fn begin_remote_probe(&mut self, key: &str) -> (generation: Option<u64>)
        requires
            old(self).wf(),
        ensures
            final(self).wf(),
            match generation {
                Some(claimed) => !old(self)@.in_flight(key@) && claimed == next_generation(
                    old(self)@.generation,
                ) && final(self)@ == old(self)@.begun(key@),
                None => old(self)@.in_flight(key@) && final(self)@ == old(self)@,
            },
    {
        let state = match self.find(key) {
            Some(at) => {
                if self.sessions[at].in_flight {
                    return None;
                }
                self.sessions[at].state.clone()
            },
            // A row that was never probed shows as pending until the probe
            // answers.
            None => RemoteProbeState::Pending,
        };
        let generation = self.next_probe_generation();
        self.put(
            RemoteProbeSession {
                key: key.to_owned(),
                generation,
                in_flight: true,
                adding: false,
                state,
            },
        );
        Some(generation)
    }

    /// Claim the next generation for `key` unconditionally, orphaning any probe
    /// already running for it: resubmitting the form asks for a fresh answer.
    pub fn restart_remote_probe(&mut self, key: &str) -> (generation: u64)
        requires
            old(self).wf(),
        ensures
            final(self).wf(),
            generation == next_generation(old(self)@.generation),
            final(self)@ == old(self)@.restarted(key@),
    {
        let generation = self.next_probe_generation();
        self.put(
            RemoteProbeSession {
                key: key.to_owned(),
                generation,
                in_flight: true,
                adding: true,
                state: RemoteProbeState::Pending,
            },
        );
        generation
    }

    /// The add form no longer waits on `key`: its probe, if one is running, goes
    /// on like that of any other row.
    pub fn release(&mut self, key: &str)
        requires
            old(self).wf(),
        ensures
            final(self).wf(),
            final(self)@ == old(self)@.released(key@),
    {
        if let Some(at) = self.find(key) {
            let session = &self.sessions[at];
            let generation = session.generation;
            let in_flight = session.in_flight;
            let state = session.state.clone();
            self.put(
                RemoteProbeSession {
                    key: key.to_owned(),
                    generation,
                    in_flight,
                    adding: false,
                    state,
                },
            );
        }
    }

    /// Record a landed probe, or report that it is no longer wanted: `false`
    /// means that the key was removed, re-added, or reprobed since this probe
    /// was started, and nothing was changed.
    pub fn finish_remote_probe(&mut self, key: &str, generation: u64, state: RemoteProbeState) -> (
    wanted: bool)
        requires
            old(self).wf(),
        ensures
            final(self).wf(),
            wanted == old(self)@.entitled(key@, generation),
            final(self)@ == (if wanted {
                old(self)@.landed(key@, state@)
            } else {
                old(self)@
            }),
    {
        match self.find(key) {
            Some(at) => {
                if self.sessions[at].generation != generation {
                    return false;
                }
                self.put(
                    RemoteProbeSession {
                        key: key.to_owned(),
                        generation,
                        in_flight: false,
                        adding: false,
                        state,
                    },
                );
                true
            },
            None => false,
        }
    }

    /// Drop the session of `key`.
    pub fn forget(&mut self, key: &str)
        requires
            old(self).wf(),
        ensures
            final(self).wf(),
            final(self)@ == old(self)@.forgotten(key@),
    {
        let ghost before = self@.sessions;
        proof {
            lemma_dropped_one_per_key(before, key@);
        }
        if let Some(at) = self.find(key) {
            self.sessions.remove(at);
        }
        assert(self@.sessions =~= dropped(before, key@));
    }

    /// Carry the session of `from` over to `to`.
    pub fn move_session(&mut self, from: &str, to: &str)
        requires
            old(self).wf(),
        ensures
            final(self).wf(),
            final(self)@ == old(self)@.moved(from@, to@),
    {
        let ghost before = self@.sessions;
        proof {
            lemma_dropped_one_per_key(before, from@);
        }
        if let Some(at) = self.find(from) {
            let mut session = self.sessions.remove(at);
            assert(self@.sessions =~= dropped(before, from@));
            session.key = to.to_owned();
            self.put(session);
        }
    }
}

/// At most one probe runs for a key: while one is in flight no second one
/// starts, and once one has started it is in flight.
pub proof fn one_probe_at_a_time(sessions: ProbeSessionsView, key: Seq<char>)
    requires
        one_per_key(sessions.sessions),
    ensures
        sessions.begun(key).in_flight(key),
        sessions.restarted(key).in_flight(key),
        sessions.begun(key).entitled(key, sessions.begun(key).generation),
        sessions.restarted(key).entitled(key, sessions.restarted(key).generation),
{
    let generation = next_generation(sessions.generation);
    let state = match session_of(sessions.sessions, key) {
        Some(session) => session.state,
        None => probe::ProbeStateView::Pending,
    };
    lemma_put_one_per_key(
        sessions.sessions,
        SessionView { key, generation, in_flight: true, adding: false, state },
    );
    lemma_put_one_per_key(
        sessions.sessions,
        SessionView {
            key,
            generation,
            in_flight: true,
            adding: true,
            state: probe::ProbeStateView::Pending,
        },
    );
}

/// A newly claimed generation is one that no session holds, until the counter
/// has run through all of its values; and the claim keeps that so.
pub proof fn claimed_generation_is_fresh(sessions: ProbeSessionsView, key: Seq<char>)
    requires
        one_per_key(sessions.sessions),
        sessions.issued(),
        sessions.generation < u64::MAX,
    ensures
        forall|other: Seq<char>|
            !(#[trigger] sessions.entitled(other, next_generation(sessions.generation))),
        forall|i: int|
            0 <= i < sessions.sessions.len() ==> (#[trigger] sessions.sessions[i]).generation
                != next_generation(sessions.generation),
        sessions.begun(key).issued(),
        sessions.restarted(key).issued(),
{
    let fresh = next_generation(sessions.generation);
    assert forall|other: Seq<char>| !sessions.entitled(other, fresh) by {
        lemma_session_pos(sessions.sessions, other);
    }
    lemma_session_pos(sessions.sessions, key);
}

/// The result of a superseded probe is refused: after the key was probed again,
/// a result under any other generation changes nothing.
pub proof fn stale_result_is_refused(
    sessions: ProbeSessionsView,
    key: Seq<char>,
    stale: u64,
)
    requires
        one_per_key(sessions.sessions),
        stale != next_generation(sessions.generation),
    ensures
        !sessions.restarted(key).entitled(key, stale),
        !sessions.begun(key).entitled(key, stale),
{
    one_probe_at_a_time(sessions, key);
}

/// A result for a key that was dropped is refused, under every generation.
pub proof fn forgotten_key_refuses_results(
    sessions: ProbeSessionsView,
    key: Seq<char>,
    generation: u64,
)
    requires
        one_per_key(sessions.sessions),
    ensures
        !sessions.forgotten(key).entitled(key, generation),
{
    lemma_dropped_one_per_key(sessions.sessions, key);
}

/// The probes that an add waits for are those of `pending` alone.
pub open spec fn led_by(sessions: Seq<SessionView>, pending: Option<Seq<char>>) -> bool {
    forall|i: int|
        0 <= i < sessions.len() && (#[trigger] sessions[i]).in_flight && sessions[i].adding
            ==> Some(sessions[i].key) == pending
}

/// What [`led_by`] says of each key.
pub proof fn lemma_led_by(sessions: Seq<SessionView>, pending: Option<Seq<char>>)
    requires
        one_per_key(sessions),
    ensures
        led_by(sessions, pending) <==> forall|key: Seq<char>|
            (#[trigger] session_of(sessions, key) matches Some(session) && session.in_flight
                && session.adding) ==> Some(key) == pending,
{
    if led_by(sessions, pending) {
        assert forall|key: Seq<char>|
            (#[trigger] session_of(sessions, key) matches Some(session) && session.in_flight
                && session.adding) implies Some(key) == pending by {
            lemma_session_pos(sessions, key);
        }
    } else {
        let i = choose|i: int|
            0 <= i < sessions.len() && (#[trigger] sessions[i]).in_flight && sessions[i].adding
                && Some(sessions[i].key) != pending;
        let key = sessions[i].key;
        assert forall|j: int| 0 <= j < i implies (#[trigger] sessions[j]).key != key by {}
        lemma_session_pos_unique(sessions, key, i);
        assert(session_of(sessions, key) == Some(sessions[i]));
    }
}

/// Every transition leaves one session per key.
pub proof fn lemma_transitions(
    sessions: ProbeSessionsView,
    key: Seq<char>,
    to: Seq<char>,
    state: probe::ProbeStateView,
)
    requires
        one_per_key(sessions.sessions),
    ensures
        one_per_key(sessions.begun(key).sessions),
        one_per_key(sessions.restarted(key).sessions),
        one_per_key(sessions.released(key).sessions),
        one_per_key(sessions.landed(key, state).sessions),
        one_per_key(sessions.forgotten(key).sessions),
        one_per_key(sessions.moved(key, to).sessions),
        session_of(sessions.begun(key).sessions, key) matches Some(session) && !session.adding,
        session_of(sessions.landed(key, state).sessions, key) matches Some(session)
            ==> !session.in_flight,
        session_of(sessions.released(key).sessions, key) matches Some(session)
            ==> !session.adding,
        session_of(sessions.forgotten(key).sessions, key) is None,
        forall|other: Seq<char>|
            other != to ==> #[trigger] session_of(sessions.moved(key, to).sessions, other) == (
            if other == key {
                None
            } else {
                session_of(sessions.sessions, other)
            }),
        session_of(sessions.moved(key, to).sessions, to) matches Some(session) ==> {
            ||| session_of(sessions.sessions, key) == Some(SessionView { key, ..session })
            ||| session_of(sessions.sessions, to) == Some(session)
        },
{
    let generation = next_generation(sessions.generation);
    let shown = match session_of(sessions.sessions, key) {
        Some(session) => session.state,
        None => probe::ProbeStateView::Pending,
    };
    lemma_put_one_per_key(
        sessions.sessions,
        SessionView { key, generation, in_flight: true, adding: false, state: shown },
    );
    lemma_put_one_per_key(
        sessions.sessions,
        SessionView {
            key,
            generation,
            in_flight: true,
            adding: true,
            state: probe::ProbeStateView::Pending,
        },
    );
    lemma_session_pos(sessions.sessions, key);
    lemma_dropped_one_per_key(sessions.sessions, key);
    if let Some(session) = session_of(sessions.sessions, key) {
        lemma_put_one_per_key(
            sessions.sessions,
            SessionView { in_flight: false, adding: false, state, ..session },
        );
        lemma_put_one_per_key(sessions.sessions, SessionView { adding: false, ..session });
        lemma_put_one_per_key(
            dropped(sessions.sessions, key),
            SessionView { key: to, ..session },
        );
    }
}

/// A dropped key has no session.
pub proof fn lemma_forgotten(sessions: ProbeSessionsView, key: Seq<char>)
    requires
        one_per_key(sessions.sessions),
    ensures
        session_of(sessions.forgotten(key).sessions, key) is None,
{
    lemma_dropped_one_per_key(sessions.sessions, key);
}

/// What happens to one key's session leaves every other key's alone.
pub proof fn sessions_are_independent(
    sessions: ProbeSessionsView,
    key: Seq<char>,
    other: Seq<char>,
    state: probe::ProbeStateView,
)
    requires
        one_per_key(sessions.sessions),
        key != other,
    ensures
        session_of(sessions.begun(key).sessions, other) == session_of(sessions.sessions, other),
        session_of(sessions.restarted(key).sessions, other) == session_of(
            sessions.sessions,
            other,
        ),
        session_of(sessions.landed(key, state).sessions, other) == session_of(
            sessions.sessions,
            other,
        ),
        session_of(sessions.released(key).sessions, other) == session_of(
            sessions.sessions,
            other,
        ),
        session_of(sessions.forgotten(key).sessions, other) == session_of(
            sessions.sessions,
            other,
        ),
{
    let generation = next_generation(sessions.generation);
    let shown = match session_of(sessions.sessions, key) {
        Some(session) => session.state,
        None => probe::ProbeStateView::Pending,
    };
    lemma_put_one_per_key(
        sessions.sessions,
        SessionView { key, generation, in_flight: true, adding: false, state: shown },
    );
    lemma_put_one_per_key(
        sessions.sessions,
        SessionView {
            key,
            generation,
            in_flight: true,
            adding: true,
            state: probe::ProbeStateView::Pending,
        },
    );
    lemma_session_pos(sessions.sessions, key);
    if let Some(session) = session_of(sessions.sessions, key) {
        lemma_put_one_per_key(
            sessions.sessions,
            SessionView { in_flight: false, adding: false, state, ..session },
        );
        lemma_put_one_per_key(sessions.sessions, SessionView { adding: false, ..session });
    }
    lemma_dropped_one_per_key(sessions.sessions, key);
}

/// Where every key has one session, each session is found under its key and no
/// other key has one.
pub proof fn sessions_are_found_by_key(sessions: Seq<SessionView>, key: Seq<char>, at: int)
    requires
        one_per_key(sessions),
    ensures
        0 <= at < sessions.len() && sessions[at].key == key ==> session_of(sessions, key) == Some(
            sessions[at],
        ),
        (forall|i: int| 0 <= i < sessions.len() ==> (#[trigger] sessions[i]).key != key)
            ==> session_of(sessions, key) is None,
{
    lemma_session_pos(sessions, key);
    let found = session_pos(sessions, key);
    if 0 <= at < sessions.len() && sessions[at].key == key && found != at {
        assert(sessions[found].key != sessions[at].key);
    }
}

/// What each step does to its key's session. Probing again keeps what was known
/// until the result lands; an add starts over, as an add; a result ends the run
/// and becomes what is known; letting an add go leaves the run itself alone.
pub proof fn each_step_changes_its_session(
    sessions: ProbeSessionsView,
    key: Seq<char>,
    state: probe::ProbeStateView,
)
    requires
        one_per_key(sessions.sessions),
    ensures
        ({
            let before = session_of(sessions.sessions, key);
            let generation = if sessions.generation == u64::MAX {
                0
            } else {
                (sessions.generation + 1) as u64
            };
            &&& session_of(sessions.begun(key).sessions, key) == Some(
                SessionView {
                    key,
                    generation,
                    in_flight: true,
                    adding: false,
                    state: if before is Some {
                        before->0.state
                    } else {
                        probe::ProbeStateView::Pending
                    },
                },
            )
            &&& session_of(sessions.restarted(key).sessions, key) == Some(
                SessionView {
                    key,
                    generation,
                    in_flight: true,
                    adding: true,
                    state: probe::ProbeStateView::Pending,
                },
            )
            &&& sessions.begun(key).generation == generation
            &&& sessions.restarted(key).generation == generation
            &&& before matches Some(session) ==> {
                &&& session_of(sessions.landed(key, state).sessions, key) == Some(
                    SessionView {
                        key,
                        generation: session.generation,
                        in_flight: false,
                        adding: false,
                        state,
                    },
                )
                &&& session_of(sessions.released(key).sessions, key) == Some(
                    SessionView {
                        key,
                        generation: session.generation,
                        in_flight: session.in_flight,
                        adding: false,
                        state: session.state,
                    },
                )
            }
            &&& before is None ==> sessions.landed(key, state) == sessions && sessions.released(key)
                == sessions
            &&& session_of(sessions.forgotten(key).sessions, key) is None
            &&& sessions.landed(key, state).generation == sessions.generation
            &&& sessions.released(key).generation == sessions.generation
            &&& sessions.forgotten(key).generation == sessions.generation
        }),
{
    let generation = next_generation(sessions.generation);
    lemma_session_pos(sessions.sessions, key);
    let begun = SessionView {
        key,
        generation,
        in_flight: true,
        adding: false,
        state: match session_of(sessions.sessions, key) {
            Some(session) => session.state,
            None => probe::ProbeStateView::Pending,
        },
    };
    lemma_put_one_per_key(sessions.sessions, begun);
    lemma_put_one_per_key(
        sessions.sessions,
        SessionView {
            key,
            generation,
            in_flight: true,
            adding: true,
            state: probe::ProbeStateView::Pending,
        },
    );
    if let Some(session) = session_of(sessions.sessions, key) {
        lemma_put_one_per_key(
            sessions.sessions,
            SessionView { in_flight: false, adding: false, state, ..session },
        );
        lemma_put_one_per_key(sessions.sessions, SessionView { adding: false, ..session });
    }
    lemma_dropped_one_per_key(sessions.sessions, key);
}

/// A session that moves to another key is found there as it was, and no longer
/// under the key it left.
pub proof fn moving_carries_the_session(
    sessions: ProbeSessionsView,
    from: Seq<char>,
    to: Seq<char>,
    other: Seq<char>,
)
    requires
        one_per_key(sessions.sessions),
        from != to,
        session_of(sessions.sessions, from) is Some,
        other != from,
        other != to,
    ensures
        ({
            let before = session_of(sessions.sessions, from)->0;
            let after = sessions.moved(from, to).sessions;
            &&& session_of(after, from) is None
            &&& session_of(after, to) == Some(SessionView { key: to, ..before })
            &&& session_of(after, other) == session_of(sessions.sessions, other)
        }),
{
    let before = session_of(sessions.sessions, from)->0;
    lemma_dropped_one_per_key(sessions.sessions, from);
    lemma_put_one_per_key(dropped(sessions.sessions, from), SessionView { key: to, ..before });
}

/// A result counts exactly when it comes from the latest run for its key.
pub proof fn latest_run_is_entitled(sessions: ProbeSessionsView, key: Seq<char>, generation: u64)
    requires
        one_per_key(sessions.sessions),
    ensures
        sessions.entitled(key, generation) <==> exists|i: int|
            0 <= i < sessions.sessions.len() && (#[trigger] sessions.sessions[i]).key == key
                && sessions.sessions[i].generation == generation,
        sessions.in_flight(key) <==> exists|i: int|
            0 <= i < sessions.sessions.len() && (#[trigger] sessions.sessions[i]).key == key
                && sessions.sessions[i].in_flight,
{
    let all = sessions.sessions;
    lemma_session_pos(all, key);
    assert forall|i: int| 0 <= i < all.len() && (#[trigger] all[i]).key == key implies session_of(
        all,
        key,
    ) == Some(all[i]) by {
        sessions_are_found_by_key(all, key, i);
    }
}

} // verus!
