use srk::syntax::env::Env;

#[test]
fn test_empty() {
    let env = Env::<i32>::empty();
    assert!(env.is_empty());
    assert_eq!(env.len(), 0);
    assert_eq!(env.get(0), None);
}

#[test]
fn test_push_and_get() {
    let env = Env::empty().push(10).push(20).push(30);
    assert_eq!(env.get(0), Some(&30));
    assert_eq!(env.get(1), Some(&20));
    assert_eq!(env.get(2), Some(&10));
    assert_eq!(env.get(3), None);
    assert_eq!(env.len(), 3);
}

#[test]
fn test_many_elements() {
    let mut env = Env::empty();
    for i in 0..100 {
        env = env.push(i);
    }
    for i in 0..100 {
        assert_eq!(env.get(i), Some(&(99 - i)));
    }
    assert_eq!(env.len(), 100);
}

#[test]
fn test_iter() {
    let env = Env::empty().push(10).push(20).push(30);
    let mut it = env.iter();
    let mut vals = Vec::new();
    while let Some(v) = it.next() {
        vals.push(*v);
    }
    assert_eq!(vals, vec![30, 20, 10]);
}

#[test]
fn test_persistence() {
    let env1 = Env::empty().push(1).push(2);
    let env2 = env1.push(3);
    // env1 is unaffected
    assert_eq!(env1.get(0), Some(&2));
    assert_eq!(env1.len(), 2);
    // env2 has the new element
    assert_eq!(env2.get(0), Some(&3));
    assert_eq!(env2.len(), 3);
}

#[test]
fn env_get_past_end_after_many_pushes() {
    let mut env = Env::empty();
    for i in 0..37u64 {
        env = env.push(i);
    }
    assert_eq!(env.get(36), Some(&0));
    assert_eq!(env.get(37), None);
    assert_eq!(env.get(usize::MAX), None);
    assert!(!env.is_empty());
}

#[test]
fn env_clone_shares_contents() {
    let env = Env::empty().push(5).push(6);
    let copy = env.clone();
    assert_eq!(copy.get(0), Some(&6));
    assert_eq!(copy.get(1), Some(&5));
    assert_eq!(copy.len(), env.len());
}

#[test]
fn iter_collects_in_index_order() {
    let env = Env::empty().push(10).push(20).push(30);
    let vals = env.iter().to_vec();
    assert_eq!(vals, vec![&30, &20, &10]);
    for (i, v) in vals.iter().enumerate() {
        assert_eq!(env.get(i), Some(*v));
    }
}
