use bookd_ceo::clients::{sort_by_priority, Client, ClientGroup};

fn client(id: u128, name: &str, uses: usize, order: usize) -> Client {
    Client { id, name: name.to_string(), uses, order }
}

fn names(g: &mut ClientGroup, picks: usize) -> Vec<String> {
    (0..picks).map(|_| g.next().name.clone()).collect()
}

#[test]
fn load_orders_by_uses_keeping_ties_stable() {
    let snapshot = vec![
        client(1, "A", 5, 0),
        client(2, "B", 1, 1),
        client(3, "C", 1, 2),
        client(4, "D", 3, 3),
    ];
    let mut g = ClientGroup::load(snapshot);
    assert_eq!(g.len(), 4);
    let got: Vec<(String, usize)> = (0..4)
        .map(|_| {
            let c = g.next();
            (c.name.clone(), c.order)
        })
        .collect();
    assert_eq!(
        got,
        vec![
            ("B".to_string(), 0),
            ("C".to_string(), 1),
            ("D".to_string(), 2),
            ("A".to_string(), 3)
        ]
    );
}

#[test]
fn load_breaks_equal_uses_by_recorded_order() {
    let snapshot = vec![client(1, "x", 2, 7), client(2, "y", 2, 0), client(3, "z", 2, 3)];
    let mut g = ClientGroup::load(snapshot);
    assert_eq!(names(&mut g, 3), vec!["y", "z", "x"]);
}

#[test]
fn load_of_empty_snapshot_is_empty() {
    let g = ClientGroup::load(Vec::new());
    assert_eq!(g.len(), 0);
    assert!(!g.contains(1));
}

#[test]
fn sort_keeps_equal_keys_in_input_order() {
    let sorted = sort_by_priority(vec![
        client(1, "p", 1, 1),
        client(2, "q", 0, 9),
        client(3, "r", 1, 1),
        client(4, "s", 1, 0),
    ]);
    let got: Vec<u128> = sorted.iter().map(|c| c.id).collect();
    assert_eq!(got, vec![2, 4, 1, 3]);
}

#[test]
fn next_rotates_and_wraps() {
    let mut g = ClientGroup::load(vec![client(1, "a", 0, 0), client(2, "b", 0, 1), client(3, "c", 0, 2)]);
    assert_eq!(names(&mut g, 7), vec!["a", "b", "c", "a", "b", "c", "a"]);
}

#[test]
fn single_client_is_always_next() {
    let mut g = ClientGroup::load(vec![client(9, "solo", 4, 4)]);
    assert_eq!(names(&mut g, 3), vec!["solo", "solo", "solo"]);
}

#[test]
fn contains_and_get_copy() {
    let g = ClientGroup::load(vec![client(10, "a", 0, 0), client(20, "b", 1, 1)]);
    assert!(g.contains(20));
    assert!(!g.contains(30));
    let c = g.get_copy(20).unwrap();
    assert_eq!((c.id, c.name.as_str(), c.uses, c.order), (20, "b", 1, 1));
    assert!(g.get_copy(30).is_none());
}

#[test]
fn add_inserts_at_order_and_renumbers() {
    let mut g = ClientGroup::load(vec![client(1, "a", 0, 0), client(2, "b", 1, 1), client(3, "c", 2, 2)]);
    g.add(client(4, "new", 0, 1));
    assert_eq!(g.len(), 4);
    let got: Vec<(String, usize)> = (0..4)
        .map(|_| {
            let c = g.next();
            (c.name.clone(), c.order)
        })
        .collect();
    assert_eq!(
        got,
        vec![
            ("a".to_string(), 0),
            ("new".to_string(), 1),
            ("b".to_string(), 2),
            ("c".to_string(), 3)
        ]
    );
}

#[test]
fn add_past_the_end_appends() {
    let mut g = ClientGroup::load(vec![client(1, "a", 0, 0)]);
    g.add(client(2, "late", 0, 50));
    assert_eq!(g.get_copy(2).unwrap().order, 1);
    assert_eq!(names(&mut g, 2), vec!["a", "late"]);
}

#[test]
fn add_to_empty_registry() {
    let mut g = ClientGroup::load(Vec::new());
    g.add(client(5, "first", 3, 8));
    assert_eq!(g.len(), 1);
    assert_eq!(g.get_copy(5).unwrap().order, 0);
}
