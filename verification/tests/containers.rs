use data_structs::hash_map::HashMap;
use data_structs::hash_map::HashMapErr;
use data_structs::linked_list::LinkedList;
use data_structs::queue::Queue;

#[test]
fn test_linked_list_t() {
    let mut list = LinkedList::new();

    list.append(1);
    list.append(2);
    list.append(4);
    list.append(8);

    let mut it = list.iter();
    it.next();
    it.next();
    assert_eq!(it.next().unwrap(), 4);

    let mut sum: i32 = 0;
    let mut it = list.iter();
    while let Some(v) = it.next() {
        sum += v;
    }
    assert_eq!(sum, 15);
}

#[test]
fn test_linked_list_remove() {
    let mut list = LinkedList::new();

    list.append(1);
    list.append(2);
    list.append(3);
    list.append(4);
    list.append(5);

    let ele = list.remove(0).unwrap();

    assert_eq!(ele, 1);
    assert_eq!(list.len(), 4);

    let ele = list.remove(2).unwrap();

    assert_eq!(ele, 4);
    assert_eq!(list.len(), 3);
}

#[test]
fn linked_list_remove_last_and_out_of_range() {
    let mut list = LinkedList::new();
    list.append(1);
    list.append(2);
    assert_eq!(list.remove(5), None);
    assert_eq!(list.len(), 2);
    assert_eq!(list.remove(1), Some(2));
    assert_eq!(list.len(), 1);
    assert_eq!(list.remove(0), Some(1));
    assert_eq!(list.len(), 0);
    assert_eq!(list.remove(0), None);
}

#[test]
fn node_iter_is_exhausted_after_the_snapshot() {
    let mut list = LinkedList::new();
    list.append(9);
    let mut it = list.iter();
    assert_eq!(it.next(), Some(9));
    assert_eq!(it.next(), None);
    assert_eq!(it.next(), None);
}

#[test]
fn queue_test() {
    let mut d = Queue::new();

    d.add(1);
    d.add(2);
    d.add(3);

    assert_eq!(d.len(), 3);

    let ele = d.pop().unwrap();

    assert_eq!(ele, 1);
    assert_eq!(d.len(), 2);
}

#[test]
fn queue_pop_empty_is_none() {
    let mut d: Queue<i32> = Queue::new();
    assert_eq!(d.pop(), None);
    assert_eq!(d.len(), 0);
}

#[test]
fn queue_is_first_in_first_out() {
    let mut d = Queue::new();
    d.add(10);
    d.add(20);
    d.add(30);
    assert_eq!(d.pop(), Some(10));
    assert_eq!(d.pop(), Some(20));
    d.add(40);
    assert_eq!(d.pop(), Some(30));
    assert_eq!(d.pop(), Some(40));
    assert_eq!(d.pop(), None);
}

#[test]
fn hash_map_test() {
    let mut d: HashMap<usize> = HashMap::new();

    d.insert("hello".to_string(), 5).unwrap();
    d.insert("ggwp".to_string(), 4).unwrap();

    println!("{:?}", d);
    println!("{:?}", d.get(&"hello".to_string()));
}

#[test]
fn hash_map_files_by_key_length() {
    let mut d: HashMap<usize> = HashMap::new();
    d.insert("hello".to_string(), 5).unwrap();
    assert_eq!(d.hash(&"hello".to_string()), Ok(4));
    assert_eq!(d.get(&"hello".to_string()), Ok(Some(5)));
    assert_eq!(d.get(&"hi".to_string()), Ok(None));
    // A second key of the same length lands on the occupied bucket and is
    // refused; the bucket keeps what it held, whoever asks.
    assert_eq!(
        d.insert("world".to_string(), 9),
        Err(HashMapErr::Collision)
    );
    assert_eq!(d.get(&"world".to_string()), Ok(Some(5)));
}
