use hyperpaths_rs::{Admission, AttractiveSet};

fn links(s: &AttractiveSet) -> Vec<usize> {
    let mut out = vec![99];
    s.collect_links(&mut out);
    out
}

#[test]
fn boarding_links_join_in_acceptance_order() {
    let mut s = AttractiveSet::new(3, 4);
    s.add_link(0, 5);
    s.add_link(1, 2);
    s.add_link(0, 7);
    assert_eq!(links(&s), vec![5, 2, 7]);
}

#[test]
fn no_wait_link_replaces_the_whole_basket() {
    let mut s = AttractiveSet::new(3, 4);
    s.add_link(0, 5);
    s.add_link(1, 2);
    s.add_link(0, 7);
    s.replace_basket(0, 9);
    assert_eq!(links(&s), vec![2, 9]);
    s.replace_basket(1, 4);
    assert_eq!(links(&s), vec![9, 4]);
}

#[test]
fn replacing_an_empty_basket_just_adds() {
    let mut s = AttractiveSet::new(2, 0);
    s.replace_basket(1, 3);
    assert_eq!(links(&s), vec![3]);
}

#[test]
fn reset_empties_the_set() {
    let mut s = AttractiveSet::new(2, 2);
    s.add_link(0, 1);
    s.add_link(1, 0);
    s.reset();
    assert_eq!(links(&s), Vec::<usize>::new());
    s.add_link(1, 6);
    assert_eq!(links(&s), vec![6]);
}

#[test]
fn offer_follows_step_one_three() {
    let mut s = AttractiveSet::new(3, 4);
    assert!(matches!(s.offer(0, 1, false, true, false), Admission::JoinedBasket));
    assert!(matches!(s.offer(0, 2, false, false, false), Admission::NotImproving));
    assert!(matches!(s.offer(1, 3, false, true, false), Admission::JoinedBasket));
    assert!(matches!(s.offer(0, 4, false, true, true), Admission::ReplacedBasket));
    assert!(matches!(s.offer(0, 5, true, true, false), Admission::NodeClosed));
    assert!(matches!(s.offer(0, 6, true, true, true), Admission::NodeClosed));
    assert_eq!(links(&s), vec![3, 4]);
}
