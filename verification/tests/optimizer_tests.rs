use ranked_cache::optimizers::{Optimizer, UserProfile};

fn profile(id: u32, name: &str, age: u32, interests: Option<&[&str]>) -> UserProfile {
    UserProfile {
        id,
        name: name.to_string(),
        age,
        interests: interests.map(|ws| ws.iter().map(|s| s.to_string()).collect()),
    }
}

fn sample_db() -> Vec<UserProfile> {
    vec![
        profile(1, "Alice Johnson", 30, Some(&["reading", "hiking"])),
        profile(2, "Bob Smith", 25, Some(&["gaming", "cooking"])),
        profile(3, "Charlie Brown", 35, Some(&["traveling", "photography"])),
        profile(4, "David Wilson", 28, Some(&["hiking", "photography"])),
    ]
}

#[test]
fn query_filters_by_age_and_interest() {
    let optimizer = Optimizer::new();
    let db = sample_db();
    let interests = vec!["hiking".to_string()];
    let out = optimizer.query(db, &interests, 2, 20, 40);
    let ids: Vec<u32> = out.iter().map(|p| p.id).collect();
    assert_eq!(ids, vec![1, 4]);
}

#[test]
fn query_age_range_is_inclusive() {
    let optimizer = Optimizer::new();
    let db = vec![
        profile(1, "Edge Low", 20, Some(&["hiking"])),
        profile(2, "Edge High", 40, Some(&["hiking"])),
        profile(3, "Outside", 41, Some(&["hiking"])),
    ];
    let interests = vec!["hiking".to_string()];
    let out = optimizer.query(db, &interests, 10, 20, 40);
    let ids: Vec<u32> = out.iter().map(|p| p.id).collect();
    assert_eq!(ids, vec![1, 2]);
}

#[test]
fn query_truncates_to_limit() {
    let optimizer = Optimizer::new();
    let db = vec![
        profile(1, "A", 30, Some(&["hiking"])),
        profile(2, "B", 30, Some(&["hiking"])),
        profile(3, "C", 30, Some(&["hiking"])),
    ];
    let interests = vec!["hiking".to_string()];
    let out = optimizer.query(db, &interests, 2, 20, 40);
    let ids: Vec<u32> = out.iter().map(|p| p.id).collect();
    assert_eq!(ids, vec![1, 2]);
}

#[test]
fn query_without_interests_never_matches() {
    let optimizer = Optimizer::new();
    let db = vec![profile(1, "No Interests", 30, None)];
    let interests = vec!["hiking".to_string()];
    let out = optimizer.query(db, &interests, 10, 20, 40);
    assert!(out.is_empty());
}

#[test]
fn query_empty_interest_list_matches_nothing() {
    let optimizer = Optimizer::new();
    let db = sample_db();
    let interests: Vec<String> = Vec::new();
    let out = optimizer.query(db, &interests, 10, 0, 100);
    assert!(out.is_empty());
}

#[test]
fn query_zero_limit_is_empty() {
    let optimizer = Optimizer::new();
    let db = sample_db();
    let interests = vec!["hiking".to_string()];
    let out = optimizer.query(db, &interests, 0, 20, 40);
    assert!(out.is_empty());
}
