use dsa_rs::CharAscending;
use dsa_rs::I32Ascending;
use dsa_rs::I32Descending;
use dsa_rs::PriorityQueue;
use dsa_rs::User;
use dsa_rs::UserByActivity;
use dsa_rs::UserByActivityRev;

#[test]
fn test_with_user_struct_max_logic() {
    // Users with a greater sign-in count have a higher priority; ties fall
    // back to activity, then to the alphabetically earlier username.
    let user_values = vec![
        User::new("alice", "alice@example.com", 12, true),
        User::new("bob", "bob@example.com", 3, true),
        User::new("carol", "carol@example.com", 27, false),
        User::new("dave", "dave@example.com", 8, true),
        User::new("eve", "eve@example.com", 41, true),
        User::new("frank", "frank@example.com", 30, false),
        User::new("grace", "grace@example.com", 19, true),
        User::new("heidi", "heidi@example.com", 5, false),
        User::new("ivan", "ivan@example.com", 66, true),
        User::new("judy", "judy@example.com", 2, true),
        User::new("mallory", "mallory@example.com", 91, false),
        User::new("nick", "nick@example.com", 14, true),
        User::new("olivia", "olivia@example.com", 33, true),
        User::new("peggy", "peggy@example.com", 7, false),
        User::new("quentin", "quentin@example.com", 58, true),
        User::new("rachel", "rachel@example.com", 21, true),
        User::new("sybil", "sybil@example.com", 1, true),
        User::new("sybel", "sybel@example.com", 1, true),
        User::new("trent", "trent@example.com", 76, true),
        User::new("ursula", "ursula@example.com", 9, false),
        User::new("victor", "victor@example.com", 100, true),
    ];

    let max_priority_queue = PriorityQueue::new(UserByActivity, Some(user_values));

    // `front()` returns reference to element with highest priority.
    assert_eq!(
        max_priority_queue.front().expect("some"),
        &User::new("victor", "victor@example.com", 100, true)
    );

    // `back()` returns reference to element with lowest priority.
    assert_eq!(
        max_priority_queue.back().expect("some"),
        &User::new("sybil", "sybil@example.com", 1, true)
    );
}

#[test]
fn test_with_user_struct_min_logic() {
    // Users with a lower sign-in count have a higher priority; ties fall
    // back to inactivity, then to the alphabetically earlier username.
    let user_values = vec![
        User::new("alice", "alice@example.com", 12, true),
        User::new("bob", "bob@example.com", 3, true),
        User::new("carol", "carol@example.com", 27, false),
        User::new("dave", "dave@example.com", 8, true),
        User::new("eve", "eve@example.com", 41, true),
        User::new("frank", "frank@example.com", 30, false),
        User::new("grace", "grace@example.com", 19, true),
        User::new("heidi", "heidi@example.com", 5, false),
        User::new("ivan", "ivan@example.com", 66, true),
        User::new("judy", "judy@example.com", 2, true),
        User::new("mallory", "mallory@example.com", 91, false),
        User::new("nick", "nick@example.com", 14, true),
        User::new("olivia", "olivia@example.com", 33, true),
        User::new("peggy", "peggy@example.com", 7, false),
        User::new("quentin", "quentin@example.com", 58, true),
        User::new("rachel", "rachel@example.com", 21, true),
        User::new("sybil", "sybil@example.com", 1, false),
        User::new("sybel", "sybel@example.com", 1, false),
        User::new("trent", "trent@example.com", 76, true),
        User::new("ursula", "ursula@example.com", 9, false),
        User::new("victor", "victor@example.com", 100, true),
    ];

    let min_priority_queue = PriorityQueue::new(UserByActivityRev, Some(user_values));

    // `front()` returns reference to element with highest priority.
    assert_eq!(
        min_priority_queue.front().expect("some"),
        &User::new("sybel", "sybel@example.com", 1, false)
    );

    // `back()` returns reference to element with lowest priority.
    assert_eq!(
        min_priority_queue.back().expect("some"),
        &User::new("victor", "victor@example.com", 100, true)
    );
}

#[test]
fn test_priority_queue_with_min_logic() {
    let mut min_queue = PriorityQueue::new(I32Descending, None);

    let values = vec![50, 80, 30, 90, 60, 40, 20];

    // Test adding to queue
    values.iter().for_each(|&v| min_queue.push(v));
    assert_eq!(values.len(), min_queue.size());

    println!("{min_queue:?}");

    // Test to_vec
    let mut values_clone_to_vec = values.clone();
    values_clone_to_vec.sort();
    let min_queue_vals_to_vec: Vec<i32> = min_queue.to_sorted_vec();
    assert_eq!(values_clone_to_vec, min_queue_vals_to_vec);

    // Test front
    let front = min_queue.front().expect("some");
    assert_eq!(front, &20);

    // Test every
    let does_contain = min_queue.any(|e| e > 50);
    assert!(does_contain);

    let removed = min_queue.extract_if(|e| e > 20);
    assert_eq!(removed.len(), values.len() - 1);
    assert_eq!(min_queue.to_sorted_vec(), vec![20]);
    assert_eq!(min_queue.size(), 1);
}

#[test]
fn test_priority_queue_with_max_logic() {
    let mut max_queue = PriorityQueue::new(CharAscending, None);

    let values = vec!['m', 'x', 'f', 'b', 'z', 'k', 'c'];

    // Test adding to queue
    values.iter().for_each(|&v| max_queue.push(v));
    assert_eq!(values.len(), max_queue.size());

    println!("{max_queue:?}");

    // Test to_vec
    let mut values_clone_to_vec = values.clone();
    values_clone_to_vec.sort_by(|a, b| b.cmp(a));
    let min_queue_vals_to_vec: Vec<char> = max_queue.to_sorted_vec();
    assert_eq!(values_clone_to_vec, min_queue_vals_to_vec);

    // Test front
    let front = max_queue.front().expect("some");
    assert_eq!(front, &'z');

    // Test every
    let does_contain = max_queue.any(|e| e > 'a');
    assert!(does_contain);

    let removed = max_queue.extract_if(|e| e < 'z');
    assert_eq!(removed.len(), values.len() - 1);
    assert_eq!(max_queue.to_sorted_vec(), vec!['z']);
    assert_eq!(max_queue.size(), 1);
}

#[test]
fn test_to_sorted_vec_matches_extraction_order() {
    let mut queue = PriorityQueue::new(I32Ascending, None);
    for v in [50, 80, 30, 90, 60, 40, 20] {
        queue.push(v);
    }
    let sorted = queue.to_sorted_vec();
    assert_eq!(sorted, vec![90, 80, 60, 50, 40, 30, 20]);
    let mut drained = vec![];
    while let Some(v) = queue.dequeue() {
        drained.push(v);
    }
    assert_eq!(drained, sorted);
    assert!(queue.is_empty());
}

#[test]
fn test_extract_if_keeps_only_unmatched() {
    let mut queue = PriorityQueue::new(I32Ascending, None);
    for v in [50, 80, 30, 90, 60, 40, 20] {
        queue.push(v);
    }
    let mut removed = queue.extract_if(|e| e != 20);
    removed.sort();
    assert_eq!(removed, vec![30, 40, 50, 60, 80, 90]);
    assert_eq!(queue.size(), 1);
    assert_eq!(queue.to_sorted_vec(), vec![20]);
}

#[test]
fn test_sorted_both_directions() {
    let values = [4, -7, 0, 4, 12, 3];
    let mut asc_expected: Vec<i32> = values.to_vec();
    asc_expected.sort();

    let max_queue = PriorityQueue::new(I32Ascending, Some(values.to_vec()));
    let mut desc_expected = asc_expected.clone();
    desc_expected.reverse();
    assert_eq!(max_queue.to_sorted_vec(), desc_expected);

    let min_queue = PriorityQueue::new(I32Descending, Some(values.to_vec()));
    assert_eq!(min_queue.to_sorted_vec(), asc_expected);
}
