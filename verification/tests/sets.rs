use fsm::charset::CharSet;
use fsm::stateset::StateSet;

#[test]
fn char_set_keeps_its_members_in_order() {
    let mut set = CharSet::new();
    assert!(set.is_empty());
    assert!(set.insert('m'));
    assert!(set.insert('a'));
    assert!(set.insert('z'));
    assert!(!set.insert('a'));
    assert_eq!(set.len(), 3);
    assert_eq!(set.to_vec(), vec!['a', 'm', 'z']);
    assert_eq!(set.get(1), 'm');
    assert!(set.contains('z'));
    assert!(!set.contains('b'));
    assert_eq!(set.position('z'), Some(2));
    assert_eq!(set.position('b'), None);
}

#[test]
fn char_set_union_and_difference() {
    let mut a = CharSet::new();
    for c in "abc".chars() {
        a.insert(c);
    }
    let mut b = CharSet::new();
    for c in "bcd".chars() {
        b.insert(c);
    }
    assert_eq!(a.difference(&b).to_vec(), vec!['a']);
    a.extend(&b);
    assert_eq!(a.to_vec(), vec!['a', 'b', 'c', 'd']);
    assert_eq!(a.duplicate().to_vec(), a.to_vec());
}

#[test]
fn state_set_operations() {
    let mut a = StateSet::singleton(5);
    assert!(a.insert(2));
    assert!(!a.insert(5));
    assert_eq!(a.to_vec(), vec![2, 5]);
    let mut b = StateSet::new();
    b.insert(5);
    b.insert(2);
    assert!(a.equals(&b));
    b.insert(9);
    assert!(!a.equals(&b));
    assert!(a.intersects(&b));
    assert!(!a.intersects(&StateSet::singleton(7)));
    assert_eq!(a.difference(&StateSet::singleton(2)).to_vec(), vec![5]);
}
