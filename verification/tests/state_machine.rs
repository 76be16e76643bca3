//! Elections.
use fracture::election::state_machine::{
    ElectionAction, ElectionAgent, ElectionConfig, ElectionState,
};
use std::time::Duration;

fn agent(id: &str, priority: u32) -> ElectionAgent {
    ElectionAgent::new(
        ElectionConfig {
            node_id: id.to_string(),
            priority,
            election_window: Duration::from_secs(5),
        },
        0,
    )
}

#[test]
fn test_start_election() {
    let mut a = agent("node-a", 1);
    assert_eq!(a.state(), ElectionState::Follower);
    let term = a.start_election();
    assert_eq!(term, 1);
    assert_eq!(a.state(), ElectionState::Candidate);
}

#[test]
fn test_higher_priority_challenges() {
    let mut a = agent("node-a", 0); // higher priority
    let action = a.on_election_start("node-b", 1, 1);
    assert_eq!(
        action,
        ElectionAction::Challenge {
            candidate_id: "node-b".into()
        }
    );
}

#[test]
fn test_lower_priority_does_not_challenge() {
    let mut a = agent("node-a", 2); // lower priority
    let action = a.on_election_start("node-b", 1, 1);
    assert_eq!(action, ElectionAction::Nothing);
}

#[test]
fn test_candidate_stands_down_on_challenge() {
    let mut a = agent("node-a", 1);
    a.start_election();
    assert_eq!(a.state(), ElectionState::Candidate);

    let action = a.on_election_challenge("node-b", 0, 1);
    assert_eq!(
        action,
        ElectionAction::StandDown {
            leader_id: "node-b".into()
        }
    );
    assert_eq!(a.state(), ElectionState::Follower);
}

#[test]
fn test_victory_accepted() {
    let mut a = agent("node-a", 1);
    let action = a.on_victory("node-b", 1, "192.168.1.10:9400");
    assert_eq!(
        action,
        ElectionAction::AcceptLeader {
            leader_id: "node-b".into(),
            coordinator_addr: "192.168.1.10:9400".into()
        }
    );
    assert_eq!(a.state(), ElectionState::Follower);
}

#[test]
fn test_stale_victory_rejected() {
    let mut a = agent("node-a", 1);
    a.term.advance_to(5);
    let action = a.on_victory("node-b", 3, "addr");
    assert_eq!(action, ElectionAction::Nothing);
}

#[test]
fn test_election_timeout_wins() {
    let mut a = agent("node-a", 0);
    a.start_election();
    let action = a.on_election_timeout();
    assert_eq!(action, ElectionAction::DeclareVictory);
    assert_eq!(a.state(), ElectionState::Leader);
}

#[test]
fn test_election_timeout_no_op_if_not_candidate() {
    let mut a = agent("node-a", 0);
    let action = a.on_election_timeout();
    assert_eq!(action, ElectionAction::Nothing);
    assert_eq!(a.state(), ElectionState::Follower);
}

#[test]
fn test_same_priority_tiebreak_by_node_id() {
    let mut a = agent("node-a", 1);
    // node-a < node-b lexicographically, so node-a has higher priority (challenges)
    let action = a.on_election_start("node-b", 1, 1);
    assert_eq!(
        action,
        ElectionAction::Challenge {
            candidate_id: "node-b".into()
        }
    );

    let mut b = agent("node-b", 1);
    // node-b > node-a, so node-b does NOT challenge node-a
    let action = b.on_election_start("node-a", 1, 1);
    assert_eq!(action, ElectionAction::Nothing);
}

#[test]
fn test_three_node_election_highest_priority_wins() {
    let mut a = agent("node-a", 0); // highest priority
    let mut b = agent("node-b", 1);
    let mut c = agent("node-c", 2); // lowest priority

    // C starts election
    let term = c.start_election();

    // A and B both see C's ElectionStart
    let a_action = a.on_election_start("node-c", 2, term);
    let b_action = b.on_election_start("node-c", 2, term);

    // A challenges (priority 0 < 2)
    assert_eq!(
        a_action,
        ElectionAction::Challenge {
            candidate_id: "node-c".into()
        }
    );
    // B challenges (priority 1 < 2)
    assert_eq!(
        b_action,
        ElectionAction::Challenge {
            candidate_id: "node-c".into()
        }
    );

    // C receives challenges — stands down
    let c_action = c.on_election_challenge("node-a", 0, term);
    assert_eq!(
        c_action,
        ElectionAction::StandDown {
            leader_id: "node-a".into()
        }
    );

    // A also starts election (it challenged, so it should run)
    let a_term = a.start_election();
    // B sees A's ElectionStart — A has higher priority, B does not challenge
    let b_action2 = b.on_election_start("node-a", 0, a_term);
    assert_eq!(b_action2, ElectionAction::Nothing);

    // A times out with no challenges — wins
    let win = a.on_election_timeout();
    assert_eq!(win, ElectionAction::DeclareVictory);
    assert_eq!(a.state(), ElectionState::Leader);
}

#[test]
fn the_term_follows_elections_and_messages() {
    let mut a = agent("node-a", 1);
    assert_eq!(a.current_term(), 0);
    a.start_election();
    assert_eq!(a.current_term(), 1);
    a.on_victory("node-b", 7, "addr");
    assert_eq!(a.current_term(), 7);
    a.on_victory("node-c", 3, "addr");
    assert_eq!(a.current_term(), 7);
}
