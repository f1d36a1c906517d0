use std::collections::HashSet;

use secret_santa::message::{compose_message, givers_for, receivers_for};
use secret_santa::oracle::Edge;
use secret_santa::pair::Pair;
use secret_santa::roster::{find_person, name_pairs, Input, Person, Solution};
use secret_santa::solver::{
    choose_assignment, extract_pos, find_assignments, keep_in_roster, select, Rules, SantaError,
};

fn person(name: &str) -> Person {
    Person {
        name: String::from(name),
        email: format!("{}@email.com", name.to_lowercase()),
    }
}

fn pair(g: &str, r: &str) -> Pair<String> {
    Pair::new(String::from(g), String::from(r))
}

fn roster(names: &[&str]) -> Input {
    Input {
        people: names.iter().map(|n| person(n)).collect(),
        whitelist: vec![],
        blacklist: vec![],
        blacklist_sets: vec![],
        history: vec![],
    }
}

fn abc() -> Input {
    roster(&["A", "B", "C"])
}

fn as_set(a: &[Edge]) -> HashSet<Edge> {
    a.iter().copied().collect()
}

fn forward_cycle() -> HashSet<Edge> {
    as_set(&[(0, 1), (1, 2), (2, 0)])
}

fn backward_cycle() -> HashSet<Edge> {
    as_set(&[(0, 2), (2, 1), (1, 0)])
}

/// Every participant gives once and receives once, nobody gives to
/// themselves, and no two people give to each other.
fn assert_valid(a: &[Edge], n: usize) {
    let set = as_set(a);
    for p in 0..n {
        assert_eq!(set.iter().filter(|e| e.0 == p).count(), 1);
        assert_eq!(set.iter().filter(|e| e.1 == p).count(), 1);
        assert!(!set.contains(&(p, p)));
    }
    for &(g, r) in &set {
        assert!(g < n && r < n);
        assert!(!set.contains(&(r, g)));
    }
}

#[test]
fn scenario_a_two_three_cycles() {
    let pool = abc().assignments(100).unwrap();
    assert_eq!(pool.len(), 2);
    let sets: Vec<HashSet<Edge>> = pool.iter().map(|a| as_set(a)).collect();
    assert!(sets.contains(&forward_cycle()));
    assert!(sets.contains(&backward_cycle()));
}

#[test]
fn scenario_b_whitelist_forces_one_cycle() {
    let mut input = abc();
    input.whitelist.push(pair("B", "C"));
    let pool = input.assignments(100).unwrap();
    assert_eq!(pool.len(), 1);
    assert_eq!(as_set(&pool[0]), forward_cycle());
}

#[test]
fn scenario_c_history_removes_a_cycle() {
    let mut input = abc();
    input.history.push(Solution {
        year: 2024,
        exclude_pairs: true,
        pairs: vec![pair("A", "C"), pair("B", "A"), pair("C", "B")],
    });
    let pool = input.assignments(100).unwrap();
    assert_eq!(pool.len(), 1);
    assert_eq!(as_set(&pool[0]), forward_cycle());
}

#[test]
fn scenario_c_sole_assignment_removed_is_unsatisfiable() {
    let mut input = abc();
    input.whitelist.push(pair("B", "C"));
    input.history.push(Solution {
        year: 2023,
        exclude_pairs: true,
        pairs: vec![pair("A", "B"), pair("B", "C"), pair("C", "A")],
    });
    assert_eq!(input.assignments(100), Err(SantaError::Unsatisfiable));
}

#[test]
fn unflagged_history_is_ignored() {
    let mut input = abc();
    input.history.push(Solution {
        year: 2024,
        exclude_pairs: false,
        pairs: vec![pair("A", "C"), pair("B", "A"), pair("C", "B")],
    });
    assert_eq!(input.assignments(100).unwrap().len(), 2);
}

#[test]
fn scenario_d_group_keeps_members_apart() {
    let mut input = roster(&["A", "B", "C", "D"]);
    input.blacklist_sets.push(vec![String::from("A"), String::from("B")]);
    let pool = input.assignments(100).unwrap();
    assert!(!pool.is_empty());
    for a in &pool {
        assert_valid(a, 4);
        assert!(!a.contains(&(0, 1)));
        assert!(!a.contains(&(1, 0)));
    }
}

#[test]
fn scenario_d_group_of_three_leaves_nothing() {
    let mut input = abc();
    input.blacklist_sets.push(vec![String::from("A"), String::from("B")]);
    assert_eq!(input.assignments(100), Err(SantaError::Unsatisfiable));
}

#[test]
fn blacklist_pair_never_appears() {
    let mut input = roster(&["A", "B", "C", "D", "E"]);
    input.blacklist.push(pair("A", "B"));
    input.blacklist.push(pair("C", "D"));
    let pool = input.assignments(100).unwrap();
    assert!(!pool.is_empty());
    for a in &pool {
        assert!(!a.contains(&(0, 1)));
        assert!(!a.contains(&(2, 3)));
    }
}

#[test]
fn produced_assignments_are_valid_and_disjoint() {
    let input = roster(&["A", "B", "C", "D", "E", "F", "G"]);
    let pool = input.assignments(100).unwrap();
    assert!(!pool.is_empty() && pool.len() <= 100);
    for a in &pool {
        assert_valid(a, 7);
    }
    for i in 0..pool.len() {
        for j in (i + 1)..pool.len() {
            assert!(as_set(&pool[i]).is_disjoint(&as_set(&pool[j])));
        }
    }
}

#[test]
fn whitelist_pair_in_every_assignment() {
    let mut input = roster(&["A", "B", "C", "D", "E"]);
    input.whitelist.push(pair("D", "A"));
    let pool = input.assignments(100).unwrap();
    assert!(!pool.is_empty());
    for a in &pool {
        assert!(a.contains(&(3, 0)));
        assert_valid(a, 5);
    }
}

#[test]
fn cap_bounds_the_pool() {
    let input = roster(&["A", "B", "C", "D", "E", "F"]);
    let pool = input.assignments(1).unwrap();
    assert_eq!(pool.len(), 1);
    assert_valid(&pool[0], 6);
}

#[test]
fn two_people_cannot_swap() {
    assert_eq!(roster(&["A", "B"]).assignments(100), Err(SantaError::Unsatisfiable));
    assert_eq!(roster(&["A"]).assignments(100), Err(SantaError::Unsatisfiable));
}

#[test]
fn unknown_names_are_configuration_errors() {
    let mut input = abc();
    input.whitelist.push(pair("A", "Zed"));
    assert_eq!(
        input.assignments(100),
        Err(SantaError::UnknownReceiver(String::from("Zed")))
    );

    let mut input = abc();
    input.blacklist.push(pair("Yan", "A"));
    assert_eq!(input.rules().err(), Some(SantaError::UnknownGiver(String::from("Yan"))));

    let mut input = abc();
    input.blacklist_sets.push(vec![String::from("A"), String::from("Xi")]);
    assert_eq!(input.rules().err(), Some(SantaError::UnknownMember(String::from("Xi"))));
}

#[test]
fn check_history_reports_missing_names() {
    let mut input = abc();
    input.history.push(Solution {
        year: 2022,
        exclude_pairs: false,
        pairs: vec![pair("A", "B"), pair("Wu", "C")],
    });
    assert_eq!(
        input.check_history(),
        Err(SantaError::UnknownGiver(String::from("Wu")))
    );
    let mut input = abc();
    input.history.push(Solution {
        year: 2022,
        exclude_pairs: false,
        pairs: vec![pair("A", "Vi")],
    });
    assert_eq!(
        input.check_history(),
        Err(SantaError::UnknownReceiver(String::from("Vi")))
    );
}

#[test]
fn revalidation_succeeds_again() {
    let mut input = abc();
    input.whitelist.push(pair("B", "C"));
    input.blacklist_sets.push(vec![String::from("A")]);
    input.history.push(Solution {
        year: 2024,
        exclude_pairs: true,
        pairs: vec![pair("A", "C")],
    });
    assert_eq!(input.check_history(), Ok(()));
    assert_eq!(input.check_history(), Ok(()));
    assert!(input.rules().is_ok());
    assert!(input.rules().is_ok());
}

#[test]
fn rules_hold_roster_positions() {
    let mut input = abc();
    input.whitelist.push(pair("C", "A"));
    input.blacklist.push(pair("B", "A"));
    input.blacklist_sets.push(vec![String::from("C"), String::from("B")]);
    input.history.push(Solution {
        year: 2020,
        exclude_pairs: true,
        pairs: vec![pair("A", "B")],
    });
    let rules = input.rules().unwrap();
    assert_eq!(rules.size, 3);
    assert_eq!(rules.whitelist, vec![(2, 0)]);
    assert_eq!(rules.blacklist, vec![(1, 0)]);
    assert_eq!(rules.groups, vec![vec![2, 1]]);
    assert_eq!(rules.history, vec![(true, vec![(0, 1)])]);
}

#[test]
fn find_person_gives_first_position() {
    let people = vec![person("A"), person("B"), person("A")];
    assert_eq!(find_person(&people, &String::from("A")), Some(0));
    assert_eq!(find_person(&people, &String::from("B")), Some(1));
    assert_eq!(find_person(&people, &String::from("C")), None);
}

#[test]
fn pair_new_keeps_order() {
    let p = Pair::new(1, 2);
    assert_eq!(p.giver, 1);
    assert_eq!(p.receiver, 2);
    assert_ne!(p, Pair::new(2, 1));
}

#[test]
fn extract_pos_keeps_every_true_literal() {
    let answer = vec![((0, 1), true), ((1, 0), false), ((7, 0), true), ((1, 2), true)];
    let a = extract_pos(&answer);
    assert_eq!(a.len(), 3);
    assert_eq!(as_set(&a), as_set(&[(0, 1), (7, 0), (1, 2)]));
    assert!(extract_pos(&vec![((0, 1), false)]).is_empty());
}

#[test]
fn keep_in_roster_drops_outside_edges() {
    let a = keep_in_roster(&vec![(0, 1), (7, 0), (1, 2), (2, 9)], 3);
    assert_eq!(a, vec![(0, 1), (1, 2)]);
}

#[test]
fn select_takes_the_indexed_assignment() {
    let pool = vec![vec![(0, 1)], vec![(1, 2)], vec![(2, 0)]];
    assert_eq!(select(pool.clone(), 0), vec![(0, 1)]);
    assert_eq!(select(pool, 2), vec![(2, 0)]);
}

#[test]
fn choose_assignment_draws_from_pool() {
    let pool = vec![vec![(0, 1)], vec![(1, 2)], vec![(2, 0)]];
    for _ in 0..20 {
        let a = choose_assignment(pool.clone()).unwrap();
        assert!(pool.contains(&a));
    }
    assert_eq!(choose_assignment(vec![]), None);
}

#[test]
fn choose_assignment_single_candidate() {
    let pool = vec![vec![(0, 1), (1, 0)]];
    assert_eq!(choose_assignment(pool), Some(vec![(0, 1), (1, 0)]));
}

#[test]
fn find_assignments_on_index_rules() {
    let rules = Rules {
        size: 3,
        whitelist: vec![(1, 2)],
        blacklist: vec![],
        groups: vec![],
        history: vec![],
    };
    let pool = find_assignments(&rules, 100).unwrap();
    assert_eq!(pool.len(), 1);
    assert_eq!(as_set(&pool[0]), forward_cycle());
}

#[test]
fn names_replace_positions() {
    let people = vec![person("A"), person("B"), person("C")];
    let named = name_pairs(&vec![(0, 2), (2, 1), (1, 0)], &people);
    assert_eq!(named, vec![pair("A", "C"), pair("C", "B"), pair("B", "A")]);
}

#[test]
fn group_of_everyone_is_unsatisfiable() {
    let mut input = roster(&["A", "B", "C", "D"]);
    input.blacklist_sets.push(vec![
        String::from("A"),
        String::from("B"),
        String::from("C"),
        String::from("D"),
    ]);
    assert_eq!(input.assignments(10), Err(SantaError::Unsatisfiable));
}

fn history_input() -> Input {
    let mut input = roster(&["John", "Sean", "Shane"]);
    input.history.push(Solution {
        year: 2024,
        exclude_pairs: true,
        pairs: vec![pair("John", "Shane"), pair("Sean", "John"), pair("Shane", "Sean")],
    });
    input.history.push(Solution {
        year: 2023,
        exclude_pairs: false,
        pairs: vec![pair("John", "Sean"), pair("Sean", "Shane"), pair("Shane", "John")],
    });
    input.history.push(Solution {
        year: 9,
        exclude_pairs: false,
        pairs: vec![pair("John", "Shane")],
    });
    input
}

#[test]
fn givers_and_receivers_from_history() {
    let input = history_input();
    assert_eq!(
        receivers_for(&String::from("John"), &input),
        vec!["Shane (2024)", "Sean (2023)", "Shane (9)"]
    );
    assert_eq!(
        givers_for(&String::from("John"), &input),
        vec!["Sean (2024)", "Shane (2023)"]
    );
    assert!(givers_for(&String::from("Nobody"), &input).is_empty());
}

#[test]
fn message_lists_past_years() {
    let input = history_input();
    let msg = compose_message(&pair("John", "Sean"), &input);
    assert_eq!(msg.subject, "Secret Santa John: Keep it secret! Keep it safe!");
    assert_eq!(msg.email, "John <john@email.com>");
    assert_eq!(
        msg.body,
        "John, you are the Secret Santa for Sean.\n\
         \n\
         You were Secret Santa for Shane (2024), Sean (2023), and Shane (9).\n\
         \n\
         You had these Secret Santas in Christmases past: Sean (2024), and Shane (2023).\n\
         \n\
         * * *\n\
         Brought to you by secret-santa[1].\n\
         \n\
         [1]: https://github.com/shanecelis/secret-santa\n\
         \n"
    );
}

#[test]
fn message_without_history() {
    let input = abc();
    let msg = compose_message(&pair("B", "C"), &input);
    assert_eq!(msg.subject, "Secret Santa B: Keep it secret! Keep it safe!");
    assert_eq!(msg.email, "B <b@email.com>");
    assert_eq!(
        msg.body,
        "B, you are the Secret Santa for C.\n\n* * *\nBrought to you by secret-santa[1].\n\n[1]: https://github.com/shanecelis/secret-santa\n\n"
    );
}

#[test]
fn message_single_past_entry() {
    let mut input = abc();
    input.history.push(Solution {
        year: 2010,
        exclude_pairs: true,
        pairs: vec![pair("A", "B")],
    });
    let msg = compose_message(&pair("A", "C"), &input);
    assert!(msg.body.contains("\nYou were Secret Santa for B (2010).\n"));
    assert!(!msg.body.contains("Christmases past"));
}

#[test]
fn history_sorted_latest_first() {
    let mut input = abc();
    for (year, first) in [(2020, "A"), (2024, "B"), (2022, "C"), (2024, "C")] {
        input.history.push(Solution {
            year,
            exclude_pairs: false,
            pairs: vec![pair(first, "A")],
        });
    }
    input.sort_history();
    let years: Vec<u16> = input.history.iter().map(|s| s.year).collect();
    assert_eq!(years, vec![2024, 2024, 2022, 2020]);
    assert_eq!(input.history[0].pairs[0].giver, "B");
    assert_eq!(input.history[1].pairs[0].giver, "C");
    assert_eq!(input.people.len(), 3);
}

#[test]
fn check_history_covers_every_rule() {
    let mut input = roster(&["A"]);
    input.whitelist.push(pair("A", "X"));
    assert_eq!(
        input.check_history(),
        Err(SantaError::UnknownReceiver(String::from("X")))
    );
}

#[test]
fn check_history_reports_first_unknown_in_order() {
    let mut input = roster(&[]);
    input.history.push(Solution {
        year: 2024,
        exclude_pairs: false,
        pairs: vec![pair("John", "Shane")],
    });
    assert_eq!(
        input.check_history(),
        Err(SantaError::UnknownGiver(String::from("John")))
    );
    let mut input = roster(&["John"]);
    input.history.push(Solution {
        year: 2023,
        exclude_pairs: true,
        pairs: vec![pair("John", "Zed")],
    });
    assert_eq!(
        input.check_history(),
        Err(SantaError::UnknownReceiver(String::from("Zed")))
    );
    // The whitelist is looked at before the groups and the history.
    let mut input = abc();
    input.history.push(Solution {
        year: 2023,
        exclude_pairs: true,
        pairs: vec![pair("Hal", "A")],
    });
    input.blacklist_sets.push(vec![String::from("Gus")]);
    input.whitelist.push(pair("A", "B"));
    input.whitelist.push(pair("Fay", "Eve"));
    assert_eq!(
        input.check_history(),
        Err(SantaError::UnknownGiver(String::from("Fay")))
    );
    input.whitelist.pop();
    assert_eq!(
        input.check_history(),
        Err(SantaError::UnknownMember(String::from("Gus")))
    );
    input.blacklist_sets.pop();
    assert_eq!(
        input.check_history(),
        Err(SantaError::UnknownGiver(String::from("Hal")))
    );
}

#[test]
fn assignments_have_one_edge_per_participant() {
    let input = roster(&["A", "B", "C", "D", "E"]);
    for a in input.assignments(100).unwrap() {
        assert_eq!(a.len(), 5);
    }
}
