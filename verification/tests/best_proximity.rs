use milli::best_proximity::{best_proximity_for, positions_at};
use milli::enumerator::BestProximity;
use milli::position::{construct_position, extract_position};

#[test]
fn same_attribute() {
    let positions = vec![
        vec![0,    2, 3, 4   ],
        vec![   1,           ],
        vec![         3,    6],
    ];
    let mut iter = BestProximity::new(positions);

    assert_eq!(iter.next(), Some((1+2, vec![0, 1, 3]))); // 3
    assert_eq!(iter.next(), Some((2+2, vec![2, 1, 3]))); // 4
    assert_eq!(iter.next(), Some((3+2, vec![3, 1, 3]))); // 5
    assert_eq!(iter.next(), Some((1+5, vec![0, 1, 6]))); // 6
    assert_eq!(iter.next(), Some((4+2, vec![4, 1, 3]))); // 6
    assert_eq!(iter.next(), Some((2+5, vec![2, 1, 6]))); // 7
    assert_eq!(iter.next(), Some((3+5, vec![3, 1, 6]))); // 8
    assert_eq!(iter.next(), Some((4+5, vec![4, 1, 6]))); // 9
    assert_eq!(iter.next(), None);
}

#[test]
fn easy_best_proximity_for() {
    // classic
    assert_eq!(best_proximity_for(0, 0, &[0]),    Some((0, vec![0])));
    assert_eq!(best_proximity_for(0, 1, &[0]),    None);
    assert_eq!(best_proximity_for(1, 1, &[0]),    Some((2, vec![0])));
    assert_eq!(best_proximity_for(0, 1, &[0, 1]), Some((1, vec![1])));
    assert_eq!(best_proximity_for(1, 1, &[0, 2]), Some((1, vec![2])));
    assert_eq!(best_proximity_for(1, 2, &[0, 2]), Some((2, vec![0])));
    assert_eq!(best_proximity_for(1, 2, &[0, 3]), Some((2, vec![0, 3])));

    // limits
    assert_eq!(best_proximity_for(2, 7, &[0, 9]),   Some((7, vec![9])));
    assert_eq!(best_proximity_for(12, 7, &[6, 19]), Some((7, vec![6, 19])));

    // another attribute
    assert_eq!(best_proximity_for(1000, 7, &[994, 1007]), Some((7, vec![1007])));
    assert_eq!(best_proximity_for(1004, 7, &[994, 1011]), Some((7, vec![1011])));
    assert_eq!(best_proximity_for(1004, 8, &[900, 913, 1000, 1012, 2012]), Some((8, vec![900, 913, 1012, 2012])));
    assert_eq!(best_proximity_for(1009, 8, &[900, 913, 1002, 1012, 2012]), Some((8, vec![900, 913, 1002, 2012])));
}

#[test]
fn positions_split_and_pack() {
    assert_eq!(extract_position(0), (0, 0));
    assert_eq!(extract_position(999), (0, 999));
    assert_eq!(extract_position(1000), (1, 0));
    assert_eq!(extract_position(2012), (2, 12));
    assert_eq!(extract_position(u32::MAX), (4294967, 295));
    assert_eq!(construct_position(0, 0), 0);
    assert_eq!(construct_position(1, 4), 1004);
    assert_eq!(construct_position(4294967, 295), u32::MAX);
    let (attr, index) = extract_position(123_456);
    assert_eq!(construct_position(attr, index), 123_456);
}

#[test]
fn positions_at_each_distance() {
    let list = [990, 993, 994, 999, 1000, 1001, 1003, 1004, 1005, 1006, 1010, 1011, 1012, 1900, 2000];
    assert_eq!(positions_at(1004, 0, &list), vec![1004]);
    assert_eq!(positions_at(1004, 1, &list), vec![1005]);
    assert_eq!(positions_at(1004, 2, &list), vec![1003, 1006]);
    assert_eq!(positions_at(1004, 3, &list), Vec::<u32>::new());
    assert_eq!(positions_at(1004, 4, &list), vec![1001]);
    assert_eq!(positions_at(1004, 5, &list), vec![1000]);
    assert_eq!(positions_at(1004, 6, &list), vec![1010]);
    assert_eq!(positions_at(1004, 7, &list), vec![1011]);
    assert_eq!(positions_at(1004, 8, &list), vec![990, 993, 994, 999, 1012, 1900, 2000]);
}

#[test]
fn far_behind_in_the_first_attribute() {
    // out of order, seven places behind and more are at the largest distance
    assert_eq!(best_proximity_for(10, 8, &[2, 3, 4]), Some((8, vec![2, 3])));
    assert_eq!(best_proximity_for(10, 7, &[2, 3, 4]), Some((7, vec![4])));
    assert_eq!(best_proximity_for(6, 8, &[0]), None);
    assert_eq!(best_proximity_for(7, 8, &[0]), Some((8, vec![0])));
}

#[test]
fn near_the_largest_position() {
    let last = u32::MAX;
    assert_eq!(best_proximity_for(last, 0, &[last]), Some((0, vec![last])));
    assert_eq!(best_proximity_for(last, 1, &[last]), None);
    assert_eq!(best_proximity_for(last - 1, 1, &[last]), Some((1, vec![last])));
    assert_eq!(best_proximity_for(last, 2, &[last - 1]), Some((2, vec![last - 1])));
    assert_eq!(best_proximity_for(last, 9, &[last - 1]), None);
}

#[test]
fn proximities_never_go_down() {
    let positions = vec![vec![3, 10, 1002], vec![4, 5, 2000], vec![0, 6, 7, 1003]];
    let mut iter = BestProximity::new(positions);
    let mut last: Option<(u32, Vec<u32>)> = None;
    let mut count = 0;
    while let Some((cost, chosen)) = iter.next() {
        assert!(cost <= 16);
        if let Some((last_cost, last_chosen)) = &last {
            assert!(*last_cost < cost || (*last_cost == cost && *last_chosen < chosen));
        }
        last = Some((cost, chosen));
        count += 1;
    }
    assert_eq!(count, 3 * 3 * 4);
    assert_eq!(iter.next(), None);
}

#[test]
fn a_word_without_positions_leaves_nothing() {
    let mut iter = BestProximity::new(vec![vec![1, 2], vec![], vec![3]]);
    assert_eq!(iter.next(), None);
    assert_eq!(iter.next(), None);
}

#[test]
fn a_single_word_is_at_distance_zero() {
    let mut iter = BestProximity::new(vec![vec![5, 9]]);
    assert_eq!(iter.next(), Some((0, vec![5])));
    assert_eq!(iter.next(), Some((0, vec![9])));
    assert_eq!(iter.next(), None);
}

#[test]
fn words_of_different_attributes_are_far() {
    let mut iter = BestProximity::new(vec![vec![999], vec![1000]]);
    assert_eq!(iter.next(), Some((8, vec![999, 1000])));
    assert_eq!(iter.next(), None);
}

#[test]
fn positions_listed_twice_count_once() {
    assert_eq!(best_proximity_for(10, 8, &[2, 2, 3, 3, 3, 18, 18, 2000, 2000]), Some((8, vec![2, 3, 18, 2000])));
    assert_eq!(best_proximity_for(10, 0, &[10, 10]), Some((0, vec![10])));
    assert_eq!(best_proximity_for(10, 2, &[9, 9, 12, 12]), Some((2, vec![9, 12])));
    assert_eq!(positions_at(10, 8, &[0, 0, 0]), vec![0]);
    let mut iter = BestProximity::new(vec![vec![1, 1], vec![2, 2, 5]]);
    assert_eq!(iter.next(), Some((1, vec![1, 2])));
    assert_eq!(iter.next(), Some((4, vec![1, 5])));
    assert_eq!(iter.next(), None);
}

#[test]
fn no_words_make_one_empty_choice() {
    let mut iter = BestProximity::new(vec![]);
    assert_eq!(iter.next(), Some((0, vec![])));
    assert_eq!(iter.next(), None);
}
