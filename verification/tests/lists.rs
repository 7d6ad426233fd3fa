use playground_rs::data_structure::linked_list::LinkedList;
use playground_rs::data_structure::tripod_list::TripodList;
use playground_rs::utils::ghost_cell::{GhostCell, GhostToken};
use playground_rs::utils::trc::Trc;

#[test]
fn push_front_then_pop_back_keeps_push_order() {
    GhostToken::scope(|mut token| {
        let mut list = LinkedList::new();
        for i in 0..5 {
            list.push_front(i, &mut token);
        }
        for i in 0..5 {
            assert_eq!(list.pop_back(&mut token), Some(i));
        }
        assert_eq!(list.pop_back(&mut token), None);
        assert_eq!(list.pop_front(&mut token), None);
        assert_eq!(token.live(), 0);
    })
}

#[test]
fn round_trip_of_three() {
    GhostToken::scope(|mut token| {
        let mut list = LinkedList::new();
        list.push_front(1, &mut token);
        list.push_front(2, &mut token);
        list.push_front(3, &mut token);
        assert_eq!(list.pop_back(&mut token), Some(1));
        assert_eq!(list.pop_back(&mut token), Some(2));
        assert_eq!(list.pop_back(&mut token), Some(3));
    })
}

#[test]
fn push_back_then_pop_front_keeps_push_order() {
    GhostToken::scope(|mut token| {
        let mut list = LinkedList::new();
        for i in 0..4 {
            list.push_back(i, &mut token);
        }
        for i in 0..4 {
            assert_eq!(list.pop_front(&mut token), Some(i));
        }
        assert_eq!(list.pop_front(&mut token), None);
    })
}

#[test]
fn same_end_is_last_in_first_out() {
    GhostToken::scope(|mut token| {
        let mut list = LinkedList::new();
        list.push_front('a', &mut token);
        list.push_front('b', &mut token);
        list.push_back('c', &mut token);
        list.push_back('d', &mut token);
        assert_eq!(list.pop_front(&mut token), Some('b'));
        assert_eq!(list.pop_back(&mut token), Some('d'));
        assert_eq!(list.pop_back(&mut token), Some('c'));
        assert_eq!(list.pop_front(&mut token), Some('a'));
        assert_eq!(list.pop_front(&mut token), None);
    })
}

#[test]
fn front_and_back_of_a_list() {
    GhostToken::scope(|mut token| {
        let mut list = LinkedList::default();
        assert_eq!(list.front(&token), None);
        assert_eq!(list.back(&token), None);
        assert!(list.front_mut(&mut token).is_none());
        list.push_back(1, &mut token);
        assert_eq!(list.front(&token), Some(&1));
        assert_eq!(list.back(&token), Some(&1));
        list.push_back(2, &mut token);
        list.push_back(3, &mut token);
        assert_eq!(list.front(&token), Some(&1));
        assert_eq!(list.back(&token), Some(&3));
        *list.front_mut(&mut token).unwrap() = 10;
        *list.back_mut(&mut token).unwrap() = 30;
        assert_eq!(list.pop_front(&mut token), Some(10));
        assert_eq!(list.pop_front(&mut token), Some(2));
        assert_eq!(list.pop_front(&mut token), Some(30));
    })
}

#[test]
fn dropping_a_list_gives_its_cells_back() {
    GhostToken::scope(|mut token| {
        let mut list = LinkedList::new();
        for i in 0..7 {
            list.push_back(i, &mut token);
        }
        assert_eq!(token.live(), 7);
        list.drop(&mut token);
        assert_eq!(token.live(), 0);
        let empty: LinkedList<i32> = LinkedList::new();
        empty.drop(&mut token);
        assert_eq!(token.live(), 0);
    })
}

#[test]
fn cells_are_used_again() {
    GhostToken::scope(|mut token| {
        let mut list = LinkedList::new();
        for round in 0..10 {
            list.push_back(round, &mut token);
            list.push_back(round + 100, &mut token);
            assert_eq!(token.live(), 2);
            assert_eq!(list.pop_front(&mut token), Some(round));
            assert_eq!(list.pop_front(&mut token), Some(round + 100));
            assert_eq!(token.live(), 0);
        }
    })
}

fn drain<T>(
    list: &mut TripodList<T>,
    token: &mut GhostToken<playground_rs::data_structure::tripod_list::Node<T>>,
    spares: Vec<playground_rs::data_structure::tripod_list::MapPtr<T>>,
) -> Vec<T> {
    let mut out = Vec::new();
    let mut spares = spares;
    while let Some(two) = list.pop_front(token) {
        let at = spares.iter().position(|s| s.has_same_pointee(&two)).unwrap();
        let one = spares.swap_remove(at);
        let full: Trc<_, 3, 3> = Trc::join(two, one);
        out.push(full.into_inner(token).val);
    }
    out
}

#[test]
fn tripod_pushes_and_pops_like_a_deque() {
    GhostToken::scope(|mut token| {
        let mut list = TripodList::new();
        let mut spares = Vec::new();
        spares.push(list.push_front(2, &mut token));
        spares.push(list.push_front(1, &mut token));
        spares.push(list.push_back(3, &mut token));
        assert_eq!(list.front(&token), Some(&1));
        assert_eq!(list.back(&token), Some(&3));
        assert_eq!(drain(&mut list, &mut token, spares), vec![1, 2, 3]);
        assert_eq!(token.live(), 0);
    })
}

#[test]
fn removing_the_only_node_empties_the_list() {
    GhostToken::scope(|mut token| {
        let mut list = TripodList::new();
        let one = list.push_front(7, &mut token);
        let full = list.remove(one, &mut token);
        assert!(list.pop_front(&mut token).is_none());
        assert!(list.pop_back(&mut token).is_none());
        assert!(list.front(&token).is_none());
        assert_eq!(full.into_inner(&mut token).val, 7);
        assert_eq!(token.live(), 0);
    })
}

#[test]
fn removing_the_head_is_a_pop_front() {
    GhostToken::scope(|mut token| {
        let mut by_remove = TripodList::new();
        let mut by_pop = TripodList::new();
        let mut spares_r = Vec::new();
        let mut spares_p = Vec::new();
        for v in ['a', 'b', 'c'] {
            spares_r.push(by_remove.push_back(v, &mut token));
            spares_p.push(by_pop.push_back(v, &mut token));
        }
        let head = spares_r.remove(0);
        let full = by_remove.remove(head, &mut token);
        assert_eq!(full.into_inner(&mut token).val, 'a');
        let two = by_pop.pop_front(&mut token).unwrap();
        let full: Trc<_, 3, 3> = Trc::join(two, spares_p.remove(0));
        assert_eq!(full.into_inner(&mut token).val, 'a');
        assert_eq!(by_remove.front(&token), by_pop.front(&token));
        assert_eq!(by_remove.back(&token), by_pop.back(&token));
        assert_eq!(
            drain(&mut by_remove, &mut token, spares_r),
            drain(&mut by_pop, &mut token, spares_p)
        );
    })
}

#[test]
fn removing_the_tail_is_a_pop_back() {
    GhostToken::scope(|mut token| {
        let mut list = TripodList::new();
        let mut spares = Vec::new();
        for v in [1, 2, 3] {
            spares.push(list.push_back(v, &mut token));
        }
        let tail = spares.pop().unwrap();
        let full = list.remove(tail, &mut token);
        assert_eq!(full.into_inner(&mut token).val, 3);
        assert_eq!(list.back(&token), Some(&2));
        assert_eq!(drain(&mut list, &mut token, spares), vec![1, 2]);
    })
}

#[test]
fn removing_an_inner_node_keeps_the_order_of_the_rest() {
    GhostToken::scope(|mut token| {
        let mut list = TripodList::new();
        let mut spares = Vec::new();
        for v in ['a', 'b', 'c', 'd'] {
            spares.push(list.push_back(v, &mut token));
        }
        let c = spares.remove(2);
        let full = list.remove(c, &mut token);
        assert_eq!(full.into_inner(&mut token).val, 'c');
        assert_eq!(drain(&mut list, &mut token, spares), vec!['a', 'b', 'd']);
        assert_eq!(token.live(), 0);
    })
}

#[test]
fn remove_and_link_again_leaves_no_cell_behind() {
    GhostToken::scope(|mut token| {
        let mut list = TripodList::new();
        let mut spares = Vec::new();
        for v in 0..5 {
            spares.push(list.push_back(v, &mut token));
        }
        assert_eq!(token.live(), 5);
        for at in [2, 0, 4, 4, 1] {
            let one = spares.remove(at);
            let full = list.remove(one, &mut token);
            assert_eq!(token.live(), 5);
            spares.push(list.link_front(full, &mut token));
            assert_eq!(token.live(), 5);
        }
        let one = spares.remove(0);
        let full = list.remove(one, &mut token);
        spares.push(list.link_back(full, &mut token));
        let left = drain(&mut list, &mut token, spares);
        assert_eq!(left.len(), 5);
        assert_eq!(token.live(), 0);
    })
}

#[test]
fn tripod_values_can_be_written_in_place() {
    GhostToken::scope(|mut token| {
        let mut list = TripodList::default();
        assert!(list.back_mut(&mut token).is_none());
        let a = list.push_back(1, &mut token);
        let b = list.push_back(2, &mut token);
        *list.front_mut(&mut token).unwrap() += 10;
        *list.back_mut(&mut token).unwrap() += 20;
        assert_eq!(drain(&mut list, &mut token, vec![a, b]), vec![11, 22]);
    })
}

#[test]
fn dropping_a_tripod_list_gives_its_cells_back() {
    GhostToken::scope(|mut token| {
        let mut list = TripodList::new();
        for v in 0..3 {
            let _ = list.push_front(v, &mut token);
        }
        assert_eq!(token.live(), 3);
        list.drop(&mut token);
        assert_eq!(token.live(), 0);
    })
}

#[test]
fn handles_split_and_join() {
    GhostToken::scope(|mut token| {
        let full: Trc<u32, 3, 3> = Trc::new(5, &mut token);
        let (one, two) = full.split::<1, 2>();
        assert!(one.has_same_pointee(&two));
        assert_eq!(*Trc::get(&one, &token), 5);
        let mut two = two;
        *Trc::get_mut_unchecked(&mut two, &mut token) = 6;
        assert_eq!(*two.borrow(&token), 6);
        *two.borrow_mut(&mut token) = 6;
        assert_eq!(*one.borrow(&token), 6);
        let other: Trc<u32, 3, 3> = Trc::new(9, &mut token);
        assert!(!other.has_same_pointee(&one));
        let mut full: Trc<u32, 3, 3> = Trc::join(one, two);
        *Trc::get_mut(&mut full, &mut token) += 1;
        assert_eq!(full.into_inner(&mut token), 7);
        assert_eq!(other.into_inner(&mut token), 9);
        assert_eq!(token.live(), 0);
    })
}

#[test]
fn a_cell_hands_out_its_value() {
    GhostToken::scope(|mut token: GhostToken<i32>| {
        let mut cell = GhostCell::new(3);
        assert_eq!(*cell.borrow(&token), 3);
        *cell.borrow_mut(&mut token) = 4;
        assert_eq!(*cell.borrow_unchecked(), 4);
        *cell.borrow_mut_unchecked() = 5;
        assert_eq!(cell.into_inner(), 5);
    })
}
