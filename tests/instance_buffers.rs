use std::cell::RefCell;
use seal_engine::instance_manager::{pad_instance_data, InstanceManager};
use seal_engine::scene::NodeHandle;

/// A stand-in for a device buffer: the records it was created with, and
/// the writes it received.
#[derive(Debug)]
struct FakeBuffer {
    id: usize,
    contents: Vec<u32>,
}

struct Device {
    created: RefCell<Vec<Vec<u32>>>,
    writes: RefCell<Vec<(usize, Vec<u32>)>>,
}

impl Device {
    fn new() -> Device {
        Device { created: RefCell::new(Vec::new()), writes: RefCell::new(Vec::new()) }
    }

    fn update(&self, m: &mut InstanceManager<FakeBuffer>, h: NodeHandle, data: &Vec<u32>) {
        m.update_instances(
            h,
            data,
            0,
            |contents: Vec<u32>| {
                let mut created = self.created.borrow_mut();
                created.push(contents.clone());
                FakeBuffer { id: created.len(), contents }
            },
            |b: &FakeBuffer, d: &Vec<u32>| self.writes.borrow_mut().push((b.id, d.clone())),
        );
    }
}

#[test]
fn capacity_is_sticky() {
    let dev = Device::new();
    let mut m: InstanceManager<FakeBuffer> = InstanceManager::new(4);
    let h = NodeHandle(1);
    dev.update(&mut m, h, &vec![1, 2, 3]);
    assert_eq!(m.get_instance_count(h), 3);
    dev.update(&mut m, h, &vec![4, 5]);
    assert_eq!(m.get_instance_count(h), 2);
    dev.update(&mut m, h, &vec![6, 7, 8]);
    assert_eq!(m.get_instance_count(h), 3);
    assert_eq!(dev.created.borrow().len(), 1);
    assert_eq!(*dev.writes.borrow(), vec![(1, vec![4, 5]), (1, vec![6, 7, 8])]);
    assert_eq!(m.get_buffer(h).unwrap().id, 1);
}

#[test]
fn new_buffers_are_padded_to_the_minimum() {
    let dev = Device::new();
    let mut m: InstanceManager<FakeBuffer> = InstanceManager::new(4);
    let h = NodeHandle(3);
    dev.update(&mut m, h, &vec![9]);
    assert_eq!(dev.created.borrow()[0], vec![9, 0, 0, 0]);
    assert_eq!(m.get_buffer(h).unwrap().contents, vec![9, 0, 0, 0]);
    assert!(dev.writes.borrow().is_empty());
}

#[test]
fn larger_lists_get_a_new_buffer() {
    let dev = Device::new();
    let mut m: InstanceManager<FakeBuffer> = InstanceManager::new(2);
    let h = NodeHandle(5);
    dev.update(&mut m, h, &vec![1]);
    dev.update(&mut m, h, &vec![1, 2, 3]);
    assert_eq!(dev.created.borrow().len(), 2);
    assert_eq!(dev.created.borrow()[1], vec![1, 2, 3]);
    assert_eq!(m.get_buffer(h).unwrap().id, 2);
    assert_eq!(m.get_instance_count(h), 3);
    // A list above the maximum always gets a new buffer, even when the
    // current one could hold it.
    dev.update(&mut m, h, &vec![4, 5, 6]);
    assert_eq!(dev.created.borrow().len(), 3);
    assert_eq!(dev.created.borrow()[2], vec![4, 5, 6]);
    assert_eq!(m.get_buffer(h).unwrap().id, 3);
    // A list within the maximum is written into the buffer there is.
    dev.update(&mut m, h, &vec![7]);
    assert_eq!(dev.created.borrow().len(), 3);
    assert_eq!(*dev.writes.borrow(), vec![(3, vec![7])]);
    assert_eq!(m.get_instance_count(h), 1);
}

#[test]
fn empty_list_still_gets_a_buffer() {
    let dev = Device::new();
    let mut m: InstanceManager<FakeBuffer> = InstanceManager::new(3);
    let h = NodeHandle(0);
    dev.update(&mut m, h, &vec![]);
    assert_eq!(m.get_instance_count(h), 0);
    assert_eq!(m.get_buffer(h).unwrap().contents, vec![0, 0, 0]);
}

#[test]
fn nodes_are_independent_and_removable() {
    let dev = Device::new();
    let mut m: InstanceManager<FakeBuffer> = InstanceManager::new(2);
    let a = NodeHandle(1);
    let b = NodeHandle(2);
    dev.update(&mut m, a, &vec![1, 2]);
    dev.update(&mut m, b, &vec![3]);
    assert_eq!(dev.created.borrow().len(), 2);
    assert_eq!(m.get_instance_count(a), 2);
    assert_eq!(m.get_instance_count(b), 1);
    m.remove_node(a);
    assert!(m.get_buffer(a).is_none());
    assert_eq!(m.get_instance_count(a), 0);
    assert_eq!(m.get_instance_count(b), 1);
    dev.update(&mut m, a, &vec![4]);
    assert_eq!(dev.created.borrow().len(), 3);
}

#[test]
fn unknown_node_has_no_buffer() {
    let m: InstanceManager<FakeBuffer> = InstanceManager::new(8);
    assert!(m.get_buffer(NodeHandle(7)).is_none());
    assert_eq!(m.get_instance_count(NodeHandle(7)), 0);
}

#[test]
fn padding_fills_up_to_capacity() {
    assert_eq!(pad_instance_data(&vec![1u8, 2], 5, 9), vec![1, 2, 9, 9, 9]);
    assert_eq!(pad_instance_data(&vec![1u8, 2, 3], 2, 9), vec![1, 2, 3]);
    assert_eq!(pad_instance_data(&Vec::<u8>::new(), 0, 9), Vec::<u8>::new());
}

#[test]
fn create_instance_buffer_replaces_the_buffer() {
    let mut m: InstanceManager<Vec<u32>> = InstanceManager::new(2);
    let h = NodeHandle(4);
    m.create_instance_buffer(h, &vec![5, 6, 7], 0, |v: Vec<u32>| v);
    assert_eq!(m.get_buffer(h), Some(&vec![5, 6, 7]));
    assert_eq!(m.get_instance_count(h), 0);
    m.create_instance_buffer(h, &vec![8], 1, |v: Vec<u32>| v);
    assert_eq!(m.get_buffer(h), Some(&vec![8, 1]));
    assert_eq!(m.get_instance_count(h), 0);
}

#[test]
fn create_instance_buffer_keeps_counts() {
    let dev = Device::new();
    let mut m: InstanceManager<FakeBuffer> = InstanceManager::new(2);
    let h = NodeHandle(1);
    dev.update(&mut m, h, &vec![1, 2, 3]);
    m.create_instance_buffer(h, &vec![4], 0, |v: Vec<u32>| FakeBuffer { id: 99, contents: v });
    assert_eq!(m.get_instance_count(h), 3);
    assert_eq!(m.get_buffer(h).unwrap().contents, vec![4, 0]);
    // The next update writes into the new buffer when the list fits.
    dev.update(&mut m, h, &vec![5, 6]);
    assert_eq!(*dev.writes.borrow(), vec![(99, vec![5, 6])]);
    assert_eq!(m.get_instance_count(h), 2);
}
