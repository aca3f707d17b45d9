use hyst_scene::pulse::{Pulse, UpdateQueue};
use hyst_scene::scene::ElementManager;

#[test]
fn add_dependency_twice_notifies_once() {
    let mut p = Pulse::new(3u32);
    p.add_dependency(42);
    p.add_dependency(42);
    assert_eq!(p.dependencies(), &vec![42]);
    let mut q = UpdateQueue::new();
    p.set(4, &mut q);
    assert_eq!(q.len(), 1);
    assert_eq!(*p.read(), 4);
}

#[test]
fn drain_coalesces_repeated_requests() {
    let mut q = UpdateQueue::new();
    q.send(5);
    q.send(9);
    q.send(5);
    q.send(7);
    q.send(9);
    assert_eq!(q.drain(), vec![5, 9, 7]);
    assert!(q.is_empty());
    assert_eq!(q.drain(), Vec::<u64>::new());
}

#[test]
fn mutate_then_drain_updates_each_dependent_once() {
    let mut scene = ElementManager::new();
    let a = scene.insert_text(1, None).unwrap();
    let b = scene.insert_text(2, None).unwrap();
    let mut content = Pulse::new(String::from("Jorge"));
    content.add_dependency(a);
    content.add_dependency(b);
    let mut q = UpdateQueue::new();
    content.mutate(
        |s: &String| {
            let mut t = s.clone();
            t.push('e');
            t
        },
        &mut q,
    );
    content.mutate(
        |s: &String| {
            let mut t = s.clone();
            t.push('e');
            t
        },
        &mut q,
    );
    assert_eq!(content.read().as_str(), "Jorgeee");
    let updated = scene.check_for_updates(&mut q);
    assert_eq!(updated, vec![a, b]);
    assert!(q.is_empty());
    assert_eq!(scene.check_for_updates(&mut q), Vec::<u64>::new());
}

#[test]
fn updates_of_removed_elements_are_dropped() {
    let mut scene = ElementManager::new();
    let a = scene.insert_text(1, None).unwrap();
    let b = scene.insert_text(2, None).unwrap();
    let mut p = Pulse::new(0u8);
    p.add_dependency(a);
    p.add_dependency(b);
    let mut q = UpdateQueue::new();
    p.tell_receiver(&mut q);
    scene.remove(a).unwrap();
    assert_eq!(scene.check_for_updates(&mut q), vec![b]);
    assert!(q.is_empty());
}
