use hub::scratch::{swept, Scratches};

#[test]
fn two_scratches_are_never_the_same_folder() {
    let mut s = Scratches::new();
    let a = s.scratch("same", 4242, 1_790_000_000_000_000_000);
    let b = s.scratch("same", 4242, 1_790_000_000_000_000_000);
    assert_ne!(a, b, "a tag must not be an identity");
    assert_eq!(a, "hub-test-same-4242-18d75b8423f30000-0");
}

#[test]
fn only_old_folders_of_ours_are_swept() {
    assert!(swept("hub-test-x-1-2-3", 0, 3601));
    assert!(swept("hub-zip-1", 0, 3601));
    assert!(!swept("hub-test-x-1-2-3", 0, 3600));
    assert!(!swept("somebody-else", 0, 100_000));
    assert!(!swept("hub-test-x-1-2-3", 500, 100));
}
