//! What holds of elections, whatever messages come in between.
use crate::base::text::{precedes, precedes_is_total};
use crate::election::state_machine::{outranks, ActionInfo, AgentInfo, ElectionState};
use vstd::prelude::*;

verus! {

/// An ElectionStart message.
#[verifier::ext_equal]
pub struct Start {
    pub id: Seq<char>,
    pub priority: u32,
    pub term: u64,
}

/// An agent after it heard these ElectionStart messages, one after the other.
pub open spec fn heard_starts(agent: AgentInfo, starts: Seq<Start>) -> AgentInfo
    decreases starts.len(),
{
    if starts.len() == 0 {
        agent
    } else {
        let s = starts.last();
        heard_starts(agent, starts.drop_last()).heard_start(s.id, s.priority, s.term).0
    }
}

/// The agent goes before the sender of every one of these messages.
pub open spec fn outranks_all(agent: AgentInfo, starts: Seq<Start>) -> bool {
    forall|i: int|
        0 <= i < starts.len() ==> outranks(
            agent.priority,
            agent.node_id,
            (#[trigger] starts[i]).priority,
            starts[i].id,
        )
}

/// A lower number goes before a higher one, whatever the IDs are; among equal numbers, the ID
/// that comes first in the alphabet does.
pub proof fn lower_numbers_outrank(p: u32, a: Seq<char>, q: u32, b: Seq<char>)
    ensures
        p < q ==> outranks(p, a, q, b) && !outranks(q, b, p, a),
        p == q ==> (outranks(p, a, q, b) <==> precedes(a, b)),
{
    precedes_is_total(a, b);
}

/// A node that outranks the sender of an ElectionStart keeps its state: a candidate stays
/// candidate, and a leader stays leader. It challenges the sender, unless the message is of
/// an older term.
pub proof fn outranking_nodes_keep_their_state(
    agent: AgentInfo,
    id: Seq<char>,
    priority: u32,
    term: u64,
)
    requires
        outranks(agent.priority, agent.node_id, priority, id),
    ensures
        agent.heard_start(id, priority, term).0.state == agent.state,
        agent.heard_start(id, priority, term).1 == if term >= agent.term {
            ActionInfo::Challenge { candidate_id: id }
        } else {
            ActionInfo::Nothing
        },
{
}

/// A node that does not outrank the sender of an ElectionStart says nothing, and is no
/// candidate any more; what else it was it stays.
pub proof fn outranked_nodes_stand_down(
    agent: AgentInfo,
    id: Seq<char>,
    priority: u32,
    term: u64,
)
    requires
        !outranks(agent.priority, agent.node_id, priority, id),
        term >= agent.term,
    ensures
        agent.heard_start(id, priority, term).1 == ActionInfo::Nothing,
        agent.state == ElectionState::Candidate ==> agent.heard_start(id, priority, term).0.state
            == ElectionState::Follower,
        agent.state != ElectionState::Candidate ==> agent.heard_start(id, priority, term).0.state
            == agent.state,
{
}

/// The larger of two terms.
pub open spec fn later_term(a: u64, b: u64) -> u64 {
    if a < b {
        b
    } else {
        a
    }
}

/// A message takes a node to the message's term, where that is newer, and never further.
pub proof fn messages_carry_their_term(
    agent: AgentInfo,
    id: Seq<char>,
    priority: u32,
    term: u64,
    addr: Seq<char>,
)
    ensures
        agent.heard_start(id, priority, term).0.term == later_term(agent.term, term),
        agent.heard_challenge(id, term).0.term == later_term(agent.term, term),
        agent.heard_victory(id, term, addr).0.term == later_term(agent.term, term),
{
}

/// A leader gives up its lead to nothing but a Victory that is not of an older term.
pub proof fn leaders_yield_only_to_victories(
    agent: AgentInfo,
    id: Seq<char>,
    priority: u32,
    term: u64,
    addr: Seq<char>,
)
    requires
        agent.state == ElectionState::Leader,
    ensures
        agent.heard_start(id, priority, term).0.state == ElectionState::Leader,
        agent.heard_challenge(id, term) == (
            AgentInfo { term: later_term(agent.term, term), ..agent },
            ActionInfo::Nothing,
        ),
        agent.timed_out() == (agent, ActionInfo::Nothing),
        agent.heard_victory(id, term, addr).0.state == ElectionState::Leader <==> term
            < agent.term,
{
}

/// A follower becomes candidate by starting an election, and by nothing else.
pub proof fn followers_become_candidates_by_starting(
    agent: AgentInfo,
    id: Seq<char>,
    priority: u32,
    term: u64,
    addr: Seq<char>,
)
    requires
        agent.state == ElectionState::Follower,
    ensures
        agent.started().state == ElectionState::Candidate,
        agent.heard_start(id, priority, term).0.state == ElectionState::Follower,
        agent.heard_challenge(id, term).0.state == ElectionState::Follower,
        agent.heard_challenge(id, term).1 == ActionInfo::Nothing,
        agent.heard_victory(id, term, addr).0.state == ElectionState::Follower,
        agent.timed_out() == (agent, ActionInfo::Nothing),
{
}

/// Whoever hears of a victory that is not of an older term follows the winner, and knows
/// where it is.
pub proof fn victories_are_accepted(agent: AgentInfo, id: Seq<char>, term: u64, addr: Seq<char>)
    requires
        term >= agent.term,
    ensures
        agent.heard_victory(id, term, addr).0.state == ElectionState::Follower,
        agent.heard_victory(id, term, addr).1 == (ActionInfo::AcceptLeader {
            leader_id: id,
            coordinator_addr: addr,
        }),
{
}

/// A candidate that is challenged follows the challenger, unless the challenge is of an older
/// term.
pub proof fn challenged_candidates_stand_down(agent: AgentInfo, id: Seq<char>, term: u64)
    requires
        agent.state == ElectionState::Candidate,
    ensures
        term >= agent.term ==> agent.heard_challenge(id, term).0.state == ElectionState::Follower,
        term >= agent.term ==> agent.heard_challenge(id, term).1 == (ActionInfo::StandDown {
            leader_id: id,
        }),
        term < agent.term ==> agent.heard_challenge(id, term) == (agent, ActionInfo::Nothing),
{
}

/// An election that goes unanswered is won in the term after the one in which it was called,
/// by the node that called it.
pub proof fn unanswered_elections_are_won(agent: AgentInfo)
    requires
        agent.term < u64::MAX,
    ensures
        ({
            let (end, action) = agent.started().timed_out();
            &&& end.state == ElectionState::Leader
            &&& action == ActionInfo::DeclareVictory
            &&& end.term == agent.term + 1
            &&& end.node_id == agent.node_id
            &&& end.priority == agent.priority
        }),
{
}

/// No message makes another node of an agent.
pub proof fn messages_keep_the_node(
    agent: AgentInfo,
    id: Seq<char>,
    priority: u32,
    term: u64,
    addr: Seq<char>,
)
    ensures
        agent.heard_start(id, priority, term).0.node_id == agent.node_id,
        agent.heard_start(id, priority, term).0.priority == agent.priority,
        agent.heard_challenge(id, term).0.node_id == agent.node_id,
        agent.heard_challenge(id, term).0.priority == agent.priority,
        agent.heard_victory(id, term, addr).0.node_id == agent.node_id,
        agent.heard_victory(id, term, addr).0.priority == agent.priority,
{
}

/// Whatever ElectionStart messages an agent hears, it stays the node that it is.
proof fn starts_keep_the_node(agent: AgentInfo, starts: Seq<Start>)
    ensures
        heard_starts(agent, starts).node_id == agent.node_id,
        heard_starts(agent, starts).priority == agent.priority,
    decreases starts.len(),
{
    if starts.len() > 0 {
        starts_keep_the_node(agent, starts.drop_last());
    }
}

/// A candidate that outranks the senders of all ElectionStart messages that it hears, of
/// whatever terms, stays candidate.
proof fn best_candidate_stays(agent: AgentInfo, starts: Seq<Start>)
    requires
        agent.state == ElectionState::Candidate,
        outranks_all(agent, starts),
    ensures
        heard_starts(agent, starts).state == ElectionState::Candidate,
    decreases starts.len(),
{
    if starts.len() > 0 {
        let rest = starts.drop_last();
        assert forall|i: int| 0 <= i < rest.len() implies outranks(
            agent.priority,
            agent.node_id,
            (#[trigger] rest[i]).priority,
            rest[i].id,
        ) by {
            assert(rest[i] == starts[i]);
        }
        best_candidate_stays(agent, rest);
        starts_keep_the_node(agent, rest);
        assert(starts[starts.len() - 1] == starts.last());
    }
}

/// The node of the highest rank wins, whatever it hears in between: after it started, and
/// heard any ElectionStart messages of nodes that it outranks, it leads and declares its
/// victory when the election window ends.
pub proof fn highest_rank_wins_among_starts(best: AgentInfo, starts: Seq<Start>)
    requires
        best.term < u64::MAX,
        outranks_all(best, starts),
    ensures
        ({
            let (end, action) = heard_starts(best.started(), starts).timed_out();
            &&& end.state == ElectionState::Leader
            &&& action == ActionInfo::DeclareVictory
            &&& end.node_id == best.node_id
        }),
{
    let run = best.started();
    assert(outranks_all(run, starts));
    best_candidate_stays(run, starts);
    starts_keep_the_node(run, starts);
}

/// Of candidates that run in the same term and hear of each other, those are left that
/// outrank all others: a candidate is still one after it heard some ElectionStart messages of
/// its own term exactly if it outranks all their senders.
pub proof fn candidates_are_left_that_outrank(agent: AgentInfo, starts: Seq<Start>)
    requires
        agent.state == ElectionState::Candidate,
        forall|i: int| 0 <= i < starts.len() ==> (#[trigger] starts[i]).term == agent.term,
    ensures
        heard_starts(agent, starts).term == agent.term,
        heard_starts(agent, starts).state != ElectionState::Leader,
        heard_starts(agent, starts).state == ElectionState::Candidate <==> outranks_all(
            agent,
            starts,
        ),
    decreases starts.len(),
{
    if starts.len() > 0 {
        let rest = starts.drop_last();
        assert forall|i: int| 0 <= i < rest.len() implies (#[trigger] rest[i]).term
            == agent.term by {
            assert(rest[i] == starts[i]);
        }
        candidates_are_left_that_outrank(agent, rest);
        starts_keep_the_node(agent, rest);
        let s = starts.last();
        assert(s == starts[starts.len() - 1]);
        if outranks_all(agent, starts) {
            assert forall|i: int| 0 <= i < rest.len() implies outranks(
                agent.priority,
                agent.node_id,
                (#[trigger] rest[i]).priority,
                rest[i].id,
            ) by {
                assert(rest[i] == starts[i]);
            }
        } else if outranks_all(agent, rest) {
            assert(!outranks(agent.priority, agent.node_id, s.priority, s.id)) by {
                let i = choose|i: int|
                    0 <= i < starts.len() && !outranks(
                        agent.priority,
                        agent.node_id,
                        (#[trigger] starts[i]).priority,
                        starts[i].id,
                    );
                if i < rest.len() {
                    assert(rest[i] == starts[i]);
                }
            }
        }
    }
}

} // verus!
