use opti_radar::pool::RayPool;

#[test]
fn fresh_pool_lists_every_ray() {
    let pool = RayPool::new(4);
    assert_eq!(pool.total_rays(), 4);
    assert_eq!(pool.used_count(), 0);
    assert_eq!(pool.remaining(), vec![0, 1, 2, 3]);
}

#[test]
fn marked_rays_leave_the_back_map() {
    let mut pool = RayPool::new(6);
    pool.mark_used(&vec![1, 4]);
    assert!(pool.is_used(1));
    assert!(pool.is_used(4));
    assert!(!pool.is_used(0));
    assert_eq!(pool.used_count(), 2);
    assert_eq!(pool.remaining(), vec![0, 2, 3, 5]);
}

#[test]
fn marking_a_ray_twice_counts_it_once() {
    let mut pool = RayPool::new(3);
    pool.mark_used(&vec![2]);
    pool.mark_used(&vec![2, 0]);
    assert_eq!(pool.used_count(), 2);
    assert_eq!(pool.remaining(), vec![1]);
}

#[test]
fn free_and_consumed_rays_make_up_the_pool() {
    let mut pool = RayPool::new(9);
    for step in 0..3usize {
        pool.mark_used(&vec![step, 8 - step]);
        assert_eq!(pool.remaining().len() + pool.used_count(), pool.total_rays());
        for &ray in &pool.remaining() {
            assert!(!pool.is_used(ray));
        }
    }
    assert_eq!(pool.remaining(), vec![3, 4, 5]);
}

#[test]
fn an_empty_pool_has_no_free_ray() {
    let pool = RayPool::new(0);
    assert_eq!(pool.remaining(), Vec::<usize>::new());
    assert_eq!(pool.used_count(), 0);
}

#[test]
fn a_pool_can_be_used_up() {
    let mut pool = RayPool::new(3);
    pool.mark_used(&vec![0, 1, 2]);
    assert_eq!(pool.remaining(), Vec::<usize>::new());
    assert_eq!(pool.used_count(), 3);
}
