use syncstate::diff::Diff;
use syncstate::remote::DummyRemote;
use syncstate::statemap::StateMap;

fn b(s: &str) -> Vec<u8> {
    s.as_bytes().to_vec()
}

#[test]
fn diff_new_and_getters() {
    let d = Diff::new(vec![(b("a"), b("1"))], true, 3, 7);
    assert_eq!(d.get_diff(), &vec![(b("a"), b("1"))]);
    assert!(d.is_full_update());
    assert_eq!(d.from_update_id(), 3);
    assert_eq!(d.upto_update_id(), 7);
    assert!(!d.is_empty());
}

#[test]
fn diff_empty() {
    let d = Diff::empty();
    assert!(d.is_empty());
    assert!(!d.is_full_update());
    assert_eq!(d.from_update_id(), 0);
    assert_eq!(d.upto_update_id(), 0);
}

#[test]
fn compress_keeps_last_write_per_key() {
    let d = Diff::new(
        vec![(b("a"), b("1")), (b("b"), b("2")), (b("a"), b("3")), (b("c"), b("4")), (b("b"), b("5"))],
        false,
        2,
        5,
    );
    let c = d.compress();
    let mut e = c.get_diff().clone();
    e.sort();
    assert_eq!(e, vec![(b("a"), b("3")), (b("b"), b("5")), (b("c"), b("4"))]);
    assert_eq!(c.from_update_id(), 2);
    assert_eq!(c.upto_update_id(), 5);
    assert!(!c.is_full_update());
}

#[test]
fn merge_takes_last_value_and_id_bounds() {
    let d1 = Diff::new(vec![(b("a"), b("1")), (b("b"), b("1"))], true, 4, 5);
    let d2 = Diff::new(vec![(b("a"), b("2"))], false, 2, 9);
    let d3 = Diff::new(vec![(b("c"), b("3")), (b("b"), b("3"))], false, 6, 7);
    let m = Diff::merge(vec![d1, d2, d3]);
    let mut e = m.get_diff().clone();
    e.sort();
    assert_eq!(e, vec![(b("a"), b("2")), (b("b"), b("3")), (b("c"), b("3"))]);
    assert_eq!(m.from_update_id(), 2);
    assert_eq!(m.upto_update_id(), 9);
    assert!(!m.is_full_update());
}

#[test]
fn merge_of_nothing() {
    let m = Diff::merge(Vec::new());
    assert!(m.is_empty());
    assert_eq!(m.from_update_id(), u64::MAX);
    assert_eq!(m.upto_update_id(), 0);
}

#[test]
fn full_diff_of_statemap() {
    let mut map = StateMap::new(DummyRemote);
    map.push(b("x"), b("1")).unwrap();
    map.push(b("y"), b("2")).unwrap();
    map.set(b("x"), b("3")).unwrap();
    let d = Diff::full_diff(&map);
    let mut e = d.get_diff().clone();
    e.sort();
    assert_eq!(e, vec![(b("x"), b("3")), (b("y"), b("2"))]);
    assert!(d.is_full_update());
    assert_eq!(d.from_update_id(), 0);
    assert_eq!(d.upto_update_id(), 1);
}

fn sorted(d: &Diff) -> Vec<(Vec<u8>, Vec<u8>)> {
    let mut e = d.get_diff().clone();
    e.sort();
    e
}

#[test]
fn merge_of_concatenation_is_merge_of_merges() {
    let a = vec![
        Diff::new(vec![(b("a"), b("1")), (b("b"), b("1"))], false, 4, 5),
        Diff::new(vec![(b("a"), b("2"))], false, 5, 6),
    ];
    let bs = vec![Diff::new(vec![(b("b"), b("3")), (b("c"), b("3"))], false, 1, 9)];
    let mut all = a.clone();
    all.extend(bs.clone());
    let whole = Diff::merge(all);
    let twice = Diff::merge(vec![Diff::merge(a), Diff::merge(bs)]);
    assert_eq!(sorted(&whole), sorted(&twice));
    assert_eq!(sorted(&whole), vec![(b("a"), b("2")), (b("b"), b("3")), (b("c"), b("3"))]);
    assert_eq!(whole.from_update_id(), twice.from_update_id());
    assert_eq!(whole.from_update_id(), 1);
    assert_eq!(whole.upto_update_id(), twice.upto_update_id());
    assert_eq!(whole.upto_update_id(), 9);
    assert_eq!(whole.is_full_update(), twice.is_full_update());
    // with an empty side
    let one = vec![Diff::new(vec![(b("a"), b("1"))], false, 3, 4)];
    let twice = Diff::merge(vec![Diff::merge(one.clone()), Diff::merge(Vec::new())]);
    let whole = Diff::merge(one);
    assert_eq!(sorted(&whole), sorted(&twice));
    assert_eq!((whole.from_update_id(), whole.upto_update_id()), (3, 4));
    assert_eq!((twice.from_update_id(), twice.upto_update_id()), (3, 4));
}
