use five_words::filterable_linked_list::FilterableLinkedList;

fn collect(list: &FilterableLinkedList) -> Vec<u32> {
    let mut out = Vec::new();
    let mut iter = list.into_iter();
    while let Some(item) = iter.next() {
        out.push(item);
    }
    out
}

#[test]
fn test_iter() {
    let linked_list = FilterableLinkedList::new(vec!['a' as u32, 'b' as u32, 'e' as u32]);
    let mut expected = vec!['a' as u32, 'b' as u32, 'e' as u32];
    expected.reverse();
    let mut iter = linked_list.into_iter();
    while let Some(item) = iter.next() {
        assert_eq!(item, expected.pop().unwrap());
    }
    assert!(expected.is_empty());
}

#[test]
fn test_filter() {
    let mut linked_list = FilterableLinkedList::new(vec![1, 2, 3, 4, 5, 6]);
    linked_list.filter(|val, _index| val % 2 == 0);
    assert_eq!(linked_list.len(), 3);
    let mut iter = linked_list.into_iter();
    assert_eq!(2, iter.next().unwrap());
    assert_eq!(4, iter.next().unwrap());
    assert_eq!(6, iter.next().unwrap());
    assert_eq!(None, iter.next());
}

#[test]
fn test_filter_undo() {
    let mut linked_list = FilterableLinkedList::new((1..7).collect());
    linked_list.filter(|val, _index| val % 2 == 0);
    assert_eq!(linked_list.len(), 3);
    linked_list.undo_last_filter();
    assert_eq!(linked_list.len(), 6);
    let mut iter = linked_list.into_iter();
    assert_eq!(1, iter.next().unwrap());
    assert_eq!(2, iter.next().unwrap());
    assert_eq!(3, iter.next().unwrap());
    assert_eq!(4, iter.next().unwrap());
    assert_eq!(5, iter.next().unwrap());
    assert_eq!(6, iter.next().unwrap());
    assert_eq!(None, iter.next());
}

#[test]
fn test_filter_undo_multiple() {
    let mut linked_list = FilterableLinkedList::new((1..101).collect());
    linked_list.filter(|val, _index| val % 2 == 0);
    assert_eq!(linked_list.len(), 50);
    linked_list.filter(|val, _index| val % 3 == 0);
    assert_eq!(linked_list.len(), 16);
    linked_list.filter(|val, _index| val % 4 == 0);

    let mut iter = linked_list.into_iter();
    assert_eq!(12, iter.next().unwrap());
    assert_eq!(24, iter.next().unwrap());
    assert_eq!(36, iter.next().unwrap());
    assert_eq!(48, iter.next().unwrap());
    assert_eq!(60, iter.next().unwrap());
    assert_eq!(72, iter.next().unwrap());
    assert_eq!(84, iter.next().unwrap());
    assert_eq!(96, iter.next().unwrap());
    assert_eq!(None, iter.next());

    linked_list.undo_last_filter();
    assert_eq!(linked_list.len(), 16);

    linked_list.undo_last_filter();
    assert_eq!(linked_list.len(), 50);

    linked_list.undo_last_filter();
    let mut iter2 = linked_list.into_iter();
    for i in 1..101 {
        assert_eq!(i, iter2.next().unwrap());
    }
    assert_eq!(None, iter2.next());
}

#[test]
fn chained_filters_report_each_length() {
    let mut list = FilterableLinkedList::new((1..101).collect());
    assert_eq!(list.len(), 100);
    list.filter(|val, _index| val % 2 == 0);
    list.filter(|val, _index| val % 3 == 0);
    list.filter(|val, _index| val % 4 == 0);
    assert_eq!(list.len(), 8);
    assert_eq!(collect(&list), vec![12, 24, 36, 48, 60, 72, 84, 96]);
    list.undo_last_filter();
    assert_eq!(list.len(), 16);
    list.undo_last_filter();
    assert_eq!(list.len(), 50);
    list.undo_last_filter();
    assert_eq!(list.len(), 100);
    assert_eq!(collect(&list), (1..101).collect::<Vec<u32>>());
}

#[test]
fn empty_list_has_nothing_to_yield() {
    let mut list = FilterableLinkedList::new(vec![]);
    assert_eq!(list.len(), 0);
    assert_eq!(list.first_index(), None);
    assert_eq!(collect(&list), Vec::<u32>::new());
    list.filter(|_val, _index| true);
    assert_eq!(list.len(), 0);
    list.undo_last_filter();
    assert_eq!(list.len(), 0);
}

#[test]
fn undo_without_filter_changes_nothing() {
    let mut list = FilterableLinkedList::new(vec![7, 8, 9]);
    list.undo_last_filter();
    assert_eq!(list.len(), 3);
    assert_eq!(collect(&list), vec![7, 8, 9]);
    list.filter(|val, _index| val != 8);
    list.undo_last_filter();
    list.undo_last_filter();
    assert_eq!(collect(&list), vec![7, 8, 9]);
}

#[test]
fn filter_that_keeps_all_still_opens_a_frame() {
    let mut list = FilterableLinkedList::new(vec![1, 2, 3, 4]);
    list.filter(|val, _index| val > 2);
    assert_eq!(collect(&list), vec![3, 4]);
    list.filter(|_val, _index| true);
    assert_eq!(collect(&list), vec![3, 4]);
    list.undo_last_filter();
    assert_eq!(collect(&list), vec![3, 4]);
    list.undo_last_filter();
    assert_eq!(collect(&list), vec![1, 2, 3, 4]);
}

#[test]
fn filter_that_removes_all_and_undo() {
    let mut list = FilterableLinkedList::new(vec![5, 6, 7]);
    list.filter(|_val, _index| false);
    assert_eq!(list.len(), 0);
    assert_eq!(list.first_index(), None);
    assert_eq!(collect(&list), Vec::<u32>::new());
    list.undo_last_filter();
    assert_eq!(list.len(), 3);
    assert_eq!(collect(&list), vec![5, 6, 7]);
}

#[test]
fn adjacent_removals_come_back_in_place() {
    let mut list = FilterableLinkedList::new(vec![10, 11, 12, 13, 14, 15]);
    list.filter(|_val, index| index == 0 || index == 5);
    assert_eq!(collect(&list), vec![10, 15]);
    list.undo_last_filter();
    assert_eq!(collect(&list), vec![10, 11, 12, 13, 14, 15]);
    list.filter(|_val, index| index == 2 || index == 3);
    assert_eq!(collect(&list), vec![12, 13]);
    list.filter(|_val, index| index == 3);
    assert_eq!(collect(&list), vec![13]);
    list.undo_last_filter();
    assert_eq!(collect(&list), vec![12, 13]);
    list.undo_last_filter();
    assert_eq!(collect(&list), vec![10, 11, 12, 13, 14, 15]);
}

#[test]
fn nested_filters_undo_one_at_a_time() {
    let mut list = FilterableLinkedList::new((0..20).collect());
    list.filter(|val, _index| val % 2 == 1);
    let after_first = collect(&list);
    list.filter(|val, _index| val % 3 == 0);
    assert_eq!(collect(&list), vec![3, 9, 15]);
    list.undo_last_filter();
    assert_eq!(collect(&list), after_first);
    assert_eq!(list.len(), 10);
    list.undo_last_filter();
    assert_eq!(collect(&list), (0..20).collect::<Vec<u32>>());
}

#[test]
fn predicate_sees_mask_and_stable_index() {
    let mut list = FilterableLinkedList::new(vec![40, 30, 20, 10]);
    list.filter(|_val, index| index != 1);
    let mut seen: Vec<(u32, usize)> = Vec::new();
    let probe = std::cell::RefCell::new(&mut seen);
    list.filter(|val, index| {
        probe.borrow_mut().push((val, index));
        true
    });
    assert_eq!(seen, vec![(40, 0), (20, 2), (10, 3)]);
}

#[test]
fn get_at_unfiltered_index_ignores_filters() {
    let mut list = FilterableLinkedList::new(vec![3, 1, 4, 1, 5]);
    list.filter(|val, _index| val > 3);
    assert_eq!(collect(&list), vec![4, 5]);
    assert_eq!(list.get_at_unfiltered_index(0), 3);
    assert_eq!(list.get_at_unfiltered_index(1), 1);
    assert_eq!(list.get_at_unfiltered_index(4), 5);
}

#[test]
fn first_and_next_index_walk_the_present_elements() {
    let mut list = FilterableLinkedList::new(vec![9, 8, 7, 6, 5]);
    list.filter(|_val, index| index % 2 == 1);
    assert_eq!(list.first_index(), Some(1));
    assert_eq!(list.next_index(1), Some(3));
    assert_eq!(list.next_index(3), None);
}

#[test]
fn filter_bkp_keeps_higher_disjoint_elements() {
    let mut list = FilterableLinkedList::new(vec![0b0001, 0b0110, 0b0011, 0b1000, 0b0100]);
    list.filter_bkp(0, 0b0001);
    assert_eq!(collect(&list), vec![0b0110, 0b1000, 0b0100]);
    assert_eq!(list.len(), 3);
    list.filter_bkp(1, 0b0110);
    assert_eq!(collect(&list), vec![0b1000]);
    list.undo_last_filter();
    assert_eq!(collect(&list), vec![0b0110, 0b1000, 0b0100]);
    list.undo_last_filter();
    assert_eq!(list.len(), 5);
}

#[test]
fn filter_bkp_drops_the_pivot_itself() {
    let mut list = FilterableLinkedList::new(vec![0, 0, 0]);
    list.filter_bkp(1, 0);
    assert_eq!(list.first_index(), Some(2));
    assert_eq!(list.len(), 1);
}

#[test]
fn traversal_can_start_over() {
    let mut list = FilterableLinkedList::new(vec![4, 5, 6]);
    list.filter(|val, _index| val != 5);
    let mut first = list.into_iter();
    assert_eq!(first.next(), Some(4));
    let mut second = list.into_iter();
    assert_eq!(second.next(), Some(4));
    assert_eq!(second.next(), Some(6));
    assert_eq!(second.next(), None);
    assert_eq!(second.next(), None);
    assert_eq!(first.next(), Some(6));
    assert_eq!(first.next(), None);
}

#[test]
fn removed_element_keeps_its_neighbours() {
    let mut list = FilterableLinkedList::new(vec![1, 2, 3, 4]);
    list.filter(|_val, index| index != 1);
    assert_eq!(list.next_index(0), Some(2));
    assert_eq!(list.next_index(1), Some(2));
    list.filter(|_val, index| index != 2);
    assert_eq!(list.next_index(0), Some(3));
    assert_eq!(list.next_index(1), Some(2));
    assert_eq!(list.next_index(2), Some(3));
    list.undo_last_filter();
    list.undo_last_filter();
    assert_eq!(list.next_index(0), Some(1));
    assert_eq!(list.next_index(1), Some(2));
    assert_eq!(list.next_index(2), Some(3));
    assert_eq!(list.next_index(3), None);
}
