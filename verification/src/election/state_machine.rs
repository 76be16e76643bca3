//! Election state machine: Follower → Candidate → Leader.
//!
//! Implements the priority-based bully algorithm:
//! 1. Candidate broadcasts ElectionStart with its priority
//! 2. Higher-priority nodes respond with ElectionChallenge
//! 3. If no challenge received within election_window: candidate wins
//! 4. Winner broadcasts Victory to all peers
use crate::base::text::{before_text, precedes, precedes_is_total, precedes_is_transitive};
use crate::election::term::TermTracker;
use std::time::Duration;
use vstd::prelude::*;

verus! {

/// Election state.
#[derive(Debug, Clone, Copy, PartialEq, Eq, Structural)]
pub enum ElectionState {
    /// Normal operation — following an active coordinator.
    Follower,
    /// Running for coordinator — waiting for challenges or victory timeout.
    Candidate,
    /// Won the election — this node is the coordinator.
    Leader,
}

/// Configuration for the election agent.
#[derive(Debug)]
pub struct ElectionConfig {
    /// This node's ID.
    pub node_id: String,
    /// This node's election priority (lower = higher priority).
    pub priority: u32,
    /// Time to wait for challenges before declaring victory.
    pub election_window: Duration,
}

impl Clone for ElectionConfig {
    fn clone(&self) -> (res: Self)
        ensures
            res == *self,
    {
        ElectionConfig {
            node_id: self.node_id.clone(),
            priority: self.priority,
            election_window: self.election_window,
        }
    }
}

/// Result of processing an election message.
#[derive(Debug, Clone, PartialEq, Eq)]
pub enum ElectionAction {
    /// No action needed.
    Nothing,
    /// Send ElectionChallenge to the candidate (we have higher priority).
    Challenge { candidate_id: String },
    /// Broadcast Victory — we won the election.
    DeclareVictory,
    /// Stand down — a higher-priority candidate or leader exists.
    StandDown { leader_id: String },
    /// Accept the new leader.
    AcceptLeader { leader_id: String, coordinator_addr: String },
}

/// What an action says.
#[verifier::ext_equal]
pub enum ActionInfo {
    Nothing,
    Challenge { candidate_id: Seq<char> },
    DeclareVictory,
    StandDown { leader_id: Seq<char> },
    AcceptLeader { leader_id: Seq<char>, coordinator_addr: Seq<char> },
}

impl View for ElectionAction {
    type V = ActionInfo;

    open spec fn view(&self) -> ActionInfo {
        match self {
            ElectionAction::Nothing => ActionInfo::Nothing,
            ElectionAction::Challenge { candidate_id } => ActionInfo::Challenge {
                candidate_id: candidate_id@,
            },
            ElectionAction::DeclareVictory => ActionInfo::DeclareVictory,
            ElectionAction::StandDown { leader_id } => ActionInfo::StandDown {
                leader_id: leader_id@,
            },
            ElectionAction::AcceptLeader { leader_id, coordinator_addr } =>
                ActionInfo::AcceptLeader {
                leader_id: leader_id@,
                coordinator_addr: coordinator_addr@,
            },
        }
    }
}

/// One node goes before another in an election: its priority number is lower, or the
/// numbers are equal and its ID comes first.
pub open spec fn outranks(
    priority: u32,
    id: Seq<char>,
    other_priority: u32,
    other_id: Seq<char>,
) -> bool {
    priority < other_priority || (priority == other_priority && precedes(id, other_id))
}

/// What an agent knows.
#[verifier::ext_equal]
pub struct AgentInfo {
    pub node_id: Seq<char>,
    pub priority: u32,
    pub term: u64,
    pub state: ElectionState,
}

impl AgentInfo {
    /// After starting an election.
    pub open spec fn started(self) -> AgentInfo {
        AgentInfo { term: (self.term + 1) as u64, state: ElectionState::Candidate, ..self }
    }

    /// After an ElectionStart message, and the answer to it.
    ///
    /// A message of an old term changes nothing. A candidate that this node outranks is
    /// challenged; otherwise this node is no candidate any more.
    pub open spec fn heard_start(self, id: Seq<char>, priority: u32, term: u64) -> (
        AgentInfo,
        ActionInfo,
    ) {
        if term < self.term {
            (self, ActionInfo::Nothing)
        } else if outranks(self.priority, self.node_id, priority, id) {
            (AgentInfo { term, ..self }, ActionInfo::Challenge { candidate_id: id })
        } else {
            (
                AgentInfo {
                    term,
                    state: if self.state == ElectionState::Candidate {
                        ElectionState::Follower
                    } else {
                        self.state
                    },
                    ..self
                },
                ActionInfo::Nothing,
            )
        }
    }

    /// After an ElectionChallenge message: a candidate stands down.
    pub open spec fn heard_challenge(self, id: Seq<char>, term: u64) -> (AgentInfo, ActionInfo) {
        if term < self.term {
            (self, ActionInfo::Nothing)
        } else if self.state == ElectionState::Candidate {
            (
                AgentInfo { term, state: ElectionState::Follower, ..self },
                ActionInfo::StandDown { leader_id: id },
            )
        } else {
            (AgentInfo { term, ..self }, ActionInfo::Nothing)
        }
    }

    /// After a Victory message: the leader is followed.
    pub open spec fn heard_victory(self, id: Seq<char>, term: u64, addr: Seq<char>) -> (
        AgentInfo,
        ActionInfo,
    ) {
        if term < self.term {
            (self, ActionInfo::Nothing)
        } else {
            (
                AgentInfo { term, state: ElectionState::Follower, ..self },
                ActionInfo::AcceptLeader { leader_id: id, coordinator_addr: addr },
            )
        }
    }

    /// After the election window: a candidate has won.
    pub open spec fn timed_out(self) -> (AgentInfo, ActionInfo) {
        if self.state == ElectionState::Candidate {
            (AgentInfo { state: ElectionState::Leader, ..self }, ActionInfo::DeclareVictory)
        } else {
            (self, ActionInfo::Nothing)
        }
    }
}

/// Election agent — drives the state machine for a single node.
#[derive(Debug)]
pub struct ElectionAgent {
    pub config: ElectionConfig,
    pub term: TermTracker,
    state: ElectionState,
}

impl ElectionAgent {
    /// What the agent knows.
    pub closed spec fn info(&self) -> AgentInfo {
        AgentInfo {
            node_id: self.config.node_id@,
            priority: self.config.priority,
            term: self.term.value(),
            state: self.state,
        }
    }

    /// The settings that the agent was made with.
    pub closed spec fn settings(&self) -> ElectionConfig {
        self.config
    }

    pub fn new(config: ElectionConfig, initial_term: u64) -> (res: Self)
        ensures
            res.settings() == config,
            res.info() == (AgentInfo {
                node_id: config.node_id@,
                priority: config.priority,
                term: initial_term,
                state: ElectionState::Follower,
            }),
    {
        ElectionAgent {
            config,
            term: TermTracker::new(initial_term),
            state: ElectionState::Follower,
        }
    }

    pub fn state(&self) -> (res: ElectionState)
        ensures
            res == self.info().state,
    {
        self.state
    }

    /// The term that the agent is in.
    pub fn current_term(&self) -> (res: u64)
        ensures
            res == self.info().term,
    {
        self.term.current()
    }

    /// Start an election: increment term, transition to Candidate.
    /// Returns the new term for the ElectionStart message.
    pub fn start_election(&mut self) -> (res: u64)
        requires
            old(self).info().term < u64::MAX,
        ensures
            final(self).info() == old(self).info().started(),
            final(self).settings() == old(self).settings(),
            res == final(self).info().term,
    {
        let new_term: u64 = self.term.increment();
        self.state = ElectionState::Candidate;
        new_term
    }

    /// Process a received ElectionStart message.
    pub fn on_election_start(
        &mut self,
        candidate_id: &str,
        candidate_priority: u32,
        candidate_term: u64,
    ) -> (res: ElectionAction)
        ensures
            (final(self).info(), res@) == old(self).info().heard_start(
                candidate_id@,
                candidate_priority,
                candidate_term,
            ),
            final(self).settings() == old(self).settings(),
    {
        if !self.term.is_acceptable(candidate_term) {
            return ElectionAction::Nothing;
        }
        self.term.update_if_newer(candidate_term);
        if self.config.priority < candidate_priority || (self.config.priority == candidate_priority
            && before_text(self.config.node_id.as_str(), candidate_id)) {
            ElectionAction::Challenge { candidate_id: candidate_id.to_owned() }
        } else {
            if self.state == ElectionState::Candidate {
                self.state = ElectionState::Follower;
            }
            ElectionAction::Nothing
        }
    }

    /// Process a received ElectionChallenge message.
    pub fn on_election_challenge(
        &mut self,
        challenger_id: &str,
        challenger_priority: u32,
        challenger_term: u64,
    ) -> (res: ElectionAction)
        ensures
            (final(self).info(), res@) == old(self).info().heard_challenge(
                challenger_id@,
                challenger_term,
            ),
            final(self).settings() == old(self).settings(),
    {
        if !self.term.is_acceptable(challenger_term) {
            return ElectionAction::Nothing;
        }
        self.term.update_if_newer(challenger_term);
        if self.state == ElectionState::Candidate {
            self.state = ElectionState::Follower;
            ElectionAction::StandDown { leader_id: challenger_id.to_owned() }
        } else {
            ElectionAction::Nothing
        }
    }

    /// Process a received Victory message.
    pub fn on_victory(&mut self, leader_id: &str, leader_term: u64, coordinator_addr: &str) -> (res:
        ElectionAction)
        ensures
            (final(self).info(), res@) == old(self).info().heard_victory(
                leader_id@,
                leader_term,
                coordinator_addr@,
            ),
            final(self).settings() == old(self).settings(),
    {
        if !self.term.is_acceptable(leader_term) {
            return ElectionAction::Nothing;
        }
        self.term.update_if_newer(leader_term);
        self.state = ElectionState::Follower;
        ElectionAction::AcceptLeader {
            leader_id: leader_id.to_owned(),
            coordinator_addr: coordinator_addr.to_owned(),
        }
    }

    /// Called when the election window expires without receiving any challenges.
    /// If still a Candidate, declare victory.
    pub fn on_election_timeout(&mut self) -> (res: ElectionAction)
        ensures
            (final(self).info(), res@) == old(self).info().timed_out(),
            final(self).settings() == old(self).settings(),
    {
        if self.state == ElectionState::Candidate {
            self.state = ElectionState::Leader;
            ElectionAction::DeclareVictory
        } else {
            ElectionAction::Nothing
        }
    }
}

/// Ranks are a strict order: no node outranks itself, and of two nodes with different IDs
/// or priorities exactly one outranks the other.
pub proof fn exactly_one_outranks(p: u32, a: Seq<char>, q: u32, b: Seq<char>)
    ensures
        !outranks(p, a, p, a),
        outranks(p, a, q, b) ==> !outranks(q, b, p, a),
        p != q || a != b ==> outranks(p, a, q, b) || outranks(q, b, p, a),
{
    precedes_is_total(a, b);
}

/// A node that outranks one that outranks a third outranks the third.
pub proof fn outranking_is_transitive(
    p: u32,
    a: Seq<char>,
    q: u32,
    b: Seq<char>,
    r: u32,
    c: Seq<char>,
)
    requires
        outranks(p, a, q, b),
        outranks(q, b, r, c),
    ensures
        outranks(p, a, r, c),
{
    if p == q && q == r {
        precedes_is_transitive(a, b, c);
    }
}

/// Whatever happens, an agent's term never goes back, and its ID and priority stay.
pub proof fn terms_never_go_back(
    agent: AgentInfo,
    id: Seq<char>,
    priority: u32,
    term: u64,
    addr: Seq<char>,
)
    ensures
        agent.term < u64::MAX ==> agent.started().term > agent.term,
        agent.heard_start(id, priority, term).0.term >= agent.term,
        agent.heard_challenge(id, term).0.term >= agent.term,
        agent.heard_victory(id, term, addr).0.term >= agent.term,
        agent.timed_out().0.term == agent.term,
        agent.heard_start(id, priority, term).0.node_id == agent.node_id,
        agent.heard_challenge(id, term).0.node_id == agent.node_id,
        agent.heard_victory(id, term, addr).0.node_id == agent.node_id,
        agent.timed_out().0.node_id == agent.node_id,
        agent.started().node_id == agent.node_id,
        agent.heard_start(id, priority, term).0.priority == agent.priority,
        agent.heard_challenge(id, term).0.priority == agent.priority,
        agent.heard_victory(id, term, addr).0.priority == agent.priority,
        agent.timed_out().0.priority == agent.priority,
        agent.started().priority == agent.priority,
{
}

/// A message of an older term changes nothing and is not answered.
pub proof fn stale_messages_are_ignored(
    agent: AgentInfo,
    id: Seq<char>,
    priority: u32,
    term: u64,
    addr: Seq<char>,
)
    requires
        term < agent.term,
    ensures
        agent.heard_start(id, priority, term) == (agent, ActionInfo::Nothing),
        agent.heard_challenge(id, term) == (agent, ActionInfo::Nothing),
        agent.heard_victory(id, term, addr) == (agent, ActionInfo::Nothing),
{
}

/// A node becomes leader only from candidate, when the election window ends.
pub proof fn only_candidates_become_leader(
    agent: AgentInfo,
    id: Seq<char>,
    priority: u32,
    term: u64,
    addr: Seq<char>,
)
    requires
        agent.state != ElectionState::Leader,
    ensures
        agent.heard_start(id, priority, term).0.state != ElectionState::Leader,
        agent.heard_challenge(id, term).0.state != ElectionState::Leader,
        agent.heard_victory(id, term, addr).0.state != ElectionState::Leader,
        agent.timed_out().0.state == ElectionState::Leader <==> agent.state
            == ElectionState::Candidate,
{
}

/// The node of the highest rank wins: when it starts an election, no other node challenges
/// it, so that it leads when the window ends; and every other candidate that hears it
/// stands down.
pub proof fn highest_rank_wins(best: AgentInfo, other: AgentInfo)
    requires
        best.term < u64::MAX,
        outranks(best.priority, best.node_id, other.priority, other.node_id),
    ensures
        ({
            let run = best.started();
            let (heard, answer) = other.heard_start(run.node_id, run.priority, run.term);
            &&& answer == ActionInfo::Nothing
            &&& other.term <= run.term ==> heard.state != ElectionState::Candidate
            &&& run.timed_out().0.state == ElectionState::Leader
            &&& run.timed_out().1 == ActionInfo::DeclareVictory
        }),
{
    precedes_is_total(best.node_id, other.node_id);
}

/// A candidate that is outranked by a node whose term is not newer is challenged, and
/// stands down when the challenge arrives.
pub proof fn outranked_candidate_stands_down(candidate: AgentInfo, other: AgentInfo)
    requires
        candidate.term < u64::MAX,
        outranks(other.priority, other.node_id, candidate.priority, candidate.node_id),
        other.term <= candidate.term + 1,
    ensures
        ({
            let run = candidate.started();
            let (challenger, answer) = other.heard_start(run.node_id, run.priority, run.term);
            let (after, action) = run.heard_challenge(challenger.node_id, challenger.term);
            &&& answer == (ActionInfo::Challenge { candidate_id: candidate.node_id })
            &&& after.state == ElectionState::Follower
            &&& action == (ActionInfo::StandDown { leader_id: other.node_id })
        }),
{
}

} // verus!
