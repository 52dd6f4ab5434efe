use dsa_rs::SinglyLinkedList;
use dsa_rs::SinglyLinkedListError;

#[test]
fn test_insert_front() {
    let head = 0;
    let mut list = SinglyLinkedList::new(head);
    let new_head = 1;
    list.insert_front(new_head);
    list.insert_front(2);
    assert_eq!(list.len(), 3);
    assert_eq!(list.head(), Some(&2));
}

#[test]
fn test_insert_back() {
    let mut list = SinglyLinkedList::new(0);
    list.insert_front(1);
    list.insert_front(2);
    list.insert_back(99);
    assert_eq!(list.len(), 4);
    assert_eq!(list.tail(), Some(&99));
}

#[test]
fn test_is_empty() {
    let mut list_a = SinglyLinkedList::new(0);
    _ = list_a.remove(0);
    assert!(list_a.is_empty());
    assert_eq!(list_a.len(), 0);

    let mut list_b = SinglyLinkedList::new(0);
    _ = list_b.pop_head();
    assert!(list_b.is_empty());
    assert_eq!(list_b.len(), 0);
}

#[test]
fn test_head_mut() {
    let mut list = SinglyLinkedList::new(0);
    list.insert_back(1);
    if let Some(head_mut) = list.head_mut() {
        *head_mut = 99;
    }
    assert_eq!(list.head(), Some(&99));
}

#[test]
fn test_tail_mut() {
    let mut list = SinglyLinkedList::new(0);
    list.insert_back(1);
    if let Some(tail_mut) = list.tail_mut() {
        *tail_mut = 99;
    }
    assert_eq!(list.tail(), Some(&99));
    println!("{list:?}");
}

#[test]
fn test_iter() {
    let mut list = SinglyLinkedList::new(0);
    for v in [1, 2, 3, 4, 5] {
        list.insert_back(v);
    }

    let mut list_vec = vec![];
    let list_expected_vec = vec![0, 1, 2, 3, 4, 5];
    for v in list.iter() {
        list_vec.push(v);
    }

    assert_eq!(list_vec, list_expected_vec);
}

#[test]
fn test_iter_mut() {
    let multiplier = 10;
    let values = [0, 1, 2, 3, 4, 5];
    let expected_vec = values.map(|v| v * multiplier);

    let mut expected_list = SinglyLinkedList::new(expected_vec[0]);
    for &v in &expected_vec[1..] {
        expected_list.insert_back(v);
    }

    let mut list = SinglyLinkedList::new(values[0]);
    for &v in &values[1..] {
        list.insert_back(v);
    }

    list.iter_mut(|v| v * multiplier);
    let list_vec = list.iter();

    assert_eq!(list_vec, expected_vec);
    assert_eq!(list, expected_list);
}

#[test]
fn test_remove_at() {
    let mut expected_list = SinglyLinkedList::new("a");
    for v in ["b", "c"] {
        expected_list.insert_back(v);
    }

    let mut list = SinglyLinkedList::new("a");
    for v in ["b", "c", "d"] {
        list.insert_back(v);
    }

    // Test out of bounds `remove`
    assert_eq!(list.remove(1000000), None);
    assert_eq!(list.len(), 4);
    // Test zero-based indexing
    assert_eq!(list.remove(4), None);
    // Test removing by valid index
    assert_eq!(list.remove(3), Some("d"));
    assert_eq!(list.len(), 3);
    // Ensure our list is what we expect
    assert_eq!(list, expected_list);
}

#[test]
fn test_pop_head() {
    let mut list = SinglyLinkedList::new(33);
    for v in [34, 67, 22, 90, 81] {
        list.insert_back(v);
    }
    assert_eq!(list.pop_head(), Some(33));
    // Test if head was updated.
    assert_eq!(list.head(), Some(&34));
    assert_eq!(list.tail(), Some(&81));
}

#[test]
fn test_pop_tail() {
    let mut list = SinglyLinkedList::new(33);
    for v in [34, 67, 22, 90, 81] {
        list.insert_back(v);
    }
    assert_eq!(list.pop_tail(), Some(81));
    // Test if tail was updated.
    assert_eq!(list.tail(), Some(&90));
    assert_eq!(list.head(), Some(&33));
}

#[test]
fn test_equality() {
    let mut list_a = SinglyLinkedList::new("a");
    list_a.insert_back("b");
    let list_b = SinglyLinkedList::new("a");
    assert_ne!(list_a, list_b);

    let data = ["z", "x", "q", "w"];
    let mut list_c = SinglyLinkedList::new(data[0]);
    let mut list_d = SinglyLinkedList::new(data[0]);
    for &v in &data[1..] {
        list_c.insert_back(v);
        list_d.insert_back(v);
    }
    assert_eq!(list_c, list_d);

    let mut list_e = SinglyLinkedList::new(0);
    list_e.insert_back(1);
    list_e.insert_back(2);
    let mut list_f = SinglyLinkedList::new(0);
    list_f.insert_back(1);
    list_f.insert_back(2);
    list_f.insert_back(3);
    assert_ne!(list_e, list_f);

    let mut list_g = SinglyLinkedList::new(0);
    list_g.insert_back(1);
    list_g.insert_back(2);
    list_g.insert_back(3);
    let mut list_h = SinglyLinkedList::new(0);
    list_h.insert_back(1);
    list_h.insert_back(2);
    list_h.insert_back(99);
    assert_ne!(list_g, list_h);
}

#[test]
fn test_try_from() {
    let vec_data = Vec::from(["a", "b", "c", "d", "e", "f"]);
    let vec_data_len = vec_data.len();
    let vec_list = SinglyLinkedList::try_from(vec_data.as_slice()).expect("no errors");
    assert_eq!(vec_list.head(), Some(&"a"));
    assert_eq!(vec_list.tail(), Some(&"f"));
    assert_eq!(vec_list.len(), vec_data_len);

    let arr_data = ["aa", "b", "c", "d", "e", "f", "g", "h", "i", "j", "k"];
    let arr_data_len = arr_data.len();
    let arr_list = SinglyLinkedList::try_from(&arr_data[..]).expect("no errors");
    assert_eq!(arr_list.head(), Some(&"aa"));
    assert_eq!(arr_list.tail(), Some(&"k"));
    assert_eq!(arr_list.len(), arr_data_len);

    let arr_ref_data = ["aaa", "b", "c", "d"];
    let arr_ref_data_len = arr_ref_data.len();
    let arr_ref_list = SinglyLinkedList::try_from(&arr_ref_data[..]).expect("no errors");
    assert_eq!(arr_ref_list.head(), Some(&"aaa"));
    assert_eq!(arr_ref_list.tail(), Some(&"d"));
    assert_eq!(arr_ref_list.len(), arr_ref_data_len);

    let slice_data = ["aaaa", "b", "c", "d", "e"];
    let slice_data_len = slice_data.len();
    let slice_list = SinglyLinkedList::try_from(&slice_data[..]).expect("no errors");
    assert_eq!(slice_list.head(), Some(&"aaaa"));
    assert_eq!(slice_list.tail(), Some(&"e"));
    assert_eq!(slice_list.len(), slice_data_len);
}

#[test]
fn test_try_from_empty_source() {
    let empty: [i32; 0] = [];
    let result = SinglyLinkedList::try_from(&empty[..]);
    assert!(matches!(result, Err(SinglyLinkedListError::EmptySource)));
}
