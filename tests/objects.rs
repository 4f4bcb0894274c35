use wayland_backend::map::{MapError, Object, ObjectMap, Role, SERVER_ID_LIMIT};
use wayland_backend::{same_interface, InterfaceDesc};

fn obj(interface: u32) -> Object {
    Object { interface, version: 1, queue: 0, alive: true }
}

#[test]
fn local_ids_start_at_one() {
    let mut map = ObjectMap::new(Role::Client);
    assert_eq!(map.allocate_local_id(obj(1)), Ok(1));
    assert_eq!(map.allocate_local_id(obj(2)), Ok(2));
    assert_eq!(map.allocate_local_id(obj(3)), Ok(3));
    assert_eq!(map.lookup(0), None);
    assert_eq!(map.lookup(2), Some(obj(2)));
}

#[test]
fn peer_id_registers_once() {
    let mut map = ObjectMap::new(Role::Client);
    assert_eq!(map.allocate_peer_id(0xff00_0001, obj(4)), Ok(()));
    assert_eq!(map.allocate_peer_id(0xff00_0001, obj(5)), Err(MapError::IdInUse));
    assert_eq!(map.lookup(0xff00_0001), Some(obj(4)));
    map.mark_dead(0xff00_0001);
    assert!(map.remove(0xff00_0001));
    assert_eq!(map.allocate_peer_id(0xff00_0001, obj(5)), Ok(()));
    assert_eq!(map.lookup(0xff00_0001), Some(obj(5)));
}

#[test]
fn peer_id_out_of_range() {
    let mut client = ObjectMap::new(Role::Client);
    assert_eq!(client.allocate_peer_id(7, obj(1)), Err(MapError::OutOfRange));
    let mut server = ObjectMap::new(Role::Server);
    assert_eq!(server.allocate_peer_id(0xff00_0001, obj(1)), Err(MapError::OutOfRange));
    assert_eq!(server.allocate_peer_id(0, obj(1)), Err(MapError::OutOfRange));
    assert_eq!(server.allocate_peer_id(1, obj(1)), Ok(()));
}

#[test]
fn server_allocates_from_its_range() {
    let mut map = ObjectMap::new(Role::Server);
    assert_eq!(map.allocate_local_id(obj(1)), Ok(SERVER_ID_LIMIT));
    assert_eq!(map.allocate_local_id(obj(1)), Ok(SERVER_ID_LIMIT + 1));
}

#[test]
fn dead_object_is_not_found_but_kept_until_removed() {
    let mut map = ObjectMap::new(Role::Client);
    let id = map.allocate_local_id(obj(1)).unwrap();
    map.mark_dead(id);
    assert_eq!(map.lookup(id), None);
    assert_eq!(map.find(id), Some(Object { alive: false, ..obj(1) }));
    // Still held: the next allocation does not reuse it.
    assert_eq!(map.allocate_local_id(obj(2)), Ok(2));
}

#[test]
fn removed_id_is_reallocated() {
    let mut map = ObjectMap::new(Role::Client);
    for _ in 0..3 {
        map.allocate_local_id(obj(1)).unwrap();
    }
    assert!(!map.remove(2));
    map.mark_dead(2);
    assert!(map.remove(2));
    assert_eq!(map.find(2), None);
    assert_eq!(map.allocate_local_id(obj(9)), Ok(2));
    assert_eq!(map.allocate_local_id(obj(9)), Ok(4));
}

#[test]
fn rebinding_to_another_queue() {
    let mut map = ObjectMap::new(Role::Client);
    let id = map.allocate_local_id(obj(1)).unwrap();
    assert!(map.set_queue(id, 5));
    assert_eq!(map.lookup(id).unwrap().queue, 5);
    assert!(!map.set_queue(99, 5));
}

#[test]
fn interfaces_compare_by_name() {
    let a = InterfaceDesc { name: b"wl_surface".to_vec(), version: 4 };
    let b = InterfaceDesc { name: b"wl_surface".to_vec(), version: 1 };
    let c = InterfaceDesc { name: b"wl_buffer".to_vec(), version: 4 };
    assert!(same_interface(&a, &b));
    assert!(!same_interface(&a, &c));
}
