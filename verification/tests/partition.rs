use wiktionary::partitioner::Partitioner;

#[test]
fn self_loop_is_a_no_op() {
    let mut p = Partitioner::new();
    p.insert(7, 7);
    assert_eq!(p.rep_of(7), None);
    assert_eq!(p.cluster_lists().len(), 0);
    p.insert(1, 2);
    p.insert(1, 1);
    assert_eq!(p.rep_of(1), Some(1));
    assert_eq!(p.members_of(1).unwrap().as_slice(), &[1, 2]);
    assert_eq!(p.cluster_lists().len(), 1);
}

#[test]
fn creation_keeps_first_argument_as_representative() {
    let mut p = Partitioner::new();
    p.insert(5, 3);
    assert_eq!(p.rep_of(5), Some(5));
    assert_eq!(p.rep_of(3), Some(5));
    assert_eq!(p.members_of(5).unwrap().as_slice(), &[5, 3]);
}

#[test]
fn lone_id_joins_existing_cluster() {
    let mut p = Partitioner::new();
    p.insert(1, 2);
    p.insert(2, 3);
    assert_eq!(p.members_of(1).unwrap().as_slice(), &[1, 2, 3]);
    p.insert(4, 2);
    assert_eq!(p.members_of(1).unwrap().as_slice(), &[1, 2, 3, 4]);
    assert_eq!(p.rep_of(4), Some(1));
}

#[test]
fn equal_size_tie_keeps_second_arguments_representative() {
    let mut p = Partitioner::new();
    p.insert(1, 2);
    p.insert(3, 4);
    p.insert(1, 3);
    assert_eq!(p.rep_of(1), Some(3));
    assert_eq!(p.rep_of(2), Some(3));
    assert_eq!(p.rep_of(3), Some(3));
    assert_eq!(p.rep_of(4), Some(3));
    assert_eq!(p.members_of(3).unwrap().as_slice(), &[3, 4, 1, 2]);
    assert_eq!(p.members_of(1), None);
    assert_eq!(p.cluster_lists().len(), 1);
}

#[test]
fn smaller_cluster_is_absorbed_into_larger() {
    let mut p = Partitioner::new();
    p.insert(1, 2);
    p.insert(2, 3);
    p.insert(4, 5);
    p.insert(4, 1);
    assert_eq!(p.rep_of(4), Some(1));
    assert_eq!(p.rep_of(5), Some(1));
    assert_eq!(p.members_of(1).unwrap().as_slice(), &[1, 2, 3, 4, 5]);
    assert_eq!(p.members_of(4), None);
}

#[test]
fn already_connected_changes_nothing() {
    let mut p = Partitioner::new();
    p.insert(1, 2);
    p.insert(2, 3);
    p.insert(3, 1);
    assert_eq!(p.members_of(1).unwrap().as_slice(), &[1, 2, 3]);
    assert_eq!(p.cluster_lists().len(), 1);
}

#[test]
fn clusters_stay_disjoint() {
    let mut p = Partitioner::new();
    p.insert(1, 2);
    p.insert(3, 4);
    p.insert(5, 6);
    p.insert(1, 5);
    let lists = p.cluster_lists();
    let mut all: Vec<usize> = Vec::new();
    for (_, members) in lists.iter() {
        for id in members.iter() {
            assert!(!all.contains(id));
            all.push(*id);
        }
    }
    assert_eq!(all.len(), 6);
}

#[test]
fn connectivity_is_order_independent() {
    let mut p = Partitioner::new();
    p.insert(1, 2);
    p.insert(3, 4);
    p.insert(2, 3);
    let mut q = Partitioner::new();
    q.insert(2, 3);
    q.insert(3, 4);
    q.insert(1, 2);
    for a in 1..5usize {
        for b in 1..5usize {
            let pa = p.rep_of(a).unwrap();
            let pb = p.rep_of(b).unwrap();
            let qa = q.rep_of(a).unwrap();
            let qb = q.rep_of(b).unwrap();
            assert_eq!(pa == pb, qa == qb);
        }
    }
}
