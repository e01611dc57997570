use agnes::error::AgnesError;
use agnes::field::{FieldIdent, FieldType, F64};
use agnes::join::{join_rows, Join, JoinKind, Predicate};
use agnes::masked::{MaskedData, MaybeNa};
use agnes::store::DataStore;
use agnes::view::DataView;

fn name(s: &str) -> FieldIdent {
    FieldIdent::Name(s.to_string())
}

fn float(x: f64) -> F64 {
    F64::from_bits(x.to_bits())
}

fn present<T>(v: Vec<T>) -> Vec<MaybeNa<T>> {
    v.into_iter().map(MaybeNa::Exists).collect()
}

fn keyed_view(key: &str, keys: Vec<u64>, val: &str, vals: Vec<i64>) -> DataView {
    let mut ds = DataStore::empty();
    ds.add_values(name(key), present(keys)).unwrap();
    ds.add_values(name(val), present(vals)).unwrap();
    DataView::from_store(ds)
}

#[test]
fn sort_order_no_na() {
    let masked_data = MaskedData::from_vec(vec![2u64, 5, 3, 1, 8]);
    let sort_order = masked_data.sort_order();
    assert_eq!(sort_order, vec![3, 0, 2, 1, 4]);

    let masked_data = MaskedData::from_vec(vec![2.0, 5.4, 3.1, 1.1, 8.2].into_iter().map(float).collect());
    let sort_order = masked_data.sort_order();
    assert_eq!(sort_order, vec![3, 0, 2, 1, 4]);

    let masked_data =
        MaskedData::from_vec(vec![2.0, std::f64::NAN, 3.1, 1.1, 8.2].into_iter().map(float).collect());
    let sort_order = masked_data.sort_order();
    assert_eq!(sort_order, vec![1, 3, 0, 2, 4]);

    let masked_data = MaskedData::from_vec(
        vec![2.0, std::f64::NAN, 3.1, std::f64::INFINITY, 8.2].into_iter().map(float).collect(),
    );
    let sort_order = masked_data.sort_order();
    assert_eq!(sort_order, vec![1, 0, 2, 4, 3]);
}

#[test]
fn sort_order_na() {
    let masked_data = MaskedData::from_masked_vec(vec![
        MaybeNa::Exists(2u64),
        MaybeNa::Exists(5),
        MaybeNa::Na,
        MaybeNa::Exists(1),
        MaybeNa::Exists(8),
    ]);
    let sort_order = masked_data.sort_order();
    assert_eq!(sort_order, vec![2, 3, 0, 1, 4]);

    let masked_data = MaskedData::from_masked_vec(vec![
        MaybeNa::Exists(float(2.1)),
        MaybeNa::Exists(float(5.5)),
        MaybeNa::Na,
        MaybeNa::Exists(float(1.1)),
        MaybeNa::Exists(float(8.2930)),
    ]);
    let sort_order = masked_data.sort_order();
    assert_eq!(sort_order, vec![2, 3, 0, 1, 4]);

    let masked_data = MaskedData::from_masked_vec(vec![
        MaybeNa::Exists(float(2.1)),
        MaybeNa::Exists(float(std::f64::NAN)),
        MaybeNa::Na,
        MaybeNa::Exists(float(1.1)),
        MaybeNa::Exists(float(8.2930)),
    ]);
    let sort_order = masked_data.sort_order();
    assert_eq!(sort_order, vec![2, 1, 3, 0, 4]);

    let masked_data = MaskedData::from_masked_vec(vec![
        MaybeNa::Exists(float(2.1)),
        MaybeNa::Exists(float(std::f64::NAN)),
        MaybeNa::Na,
        MaybeNa::Exists(float(std::f64::INFINITY)),
        MaybeNa::Exists(float(8.2930)),
    ]);
    let sort_order = masked_data.sort_order();
    assert_eq!(sort_order, vec![2, 1, 0, 4, 3]);
}

#[test]
fn sort_order_text_and_bool() {
    let words = MaskedData::from_vec(vec!["pear", "apple", "Zoo", "apple"].into_iter().map(String::from).collect());
    assert_eq!(words.sort_order(), vec![2, 1, 3, 0]);
    let flags = MaskedData::from_masked_vec(vec![MaybeNa::Exists(true), MaybeNa::Na, MaybeNa::Exists(false)]);
    assert_eq!(flags.sort_order(), vec![1, 2, 0]);
    let signed = MaskedData::from_vec(vec![3i64, -7, 0, -7]);
    assert_eq!(signed.sort_order(), vec![1, 3, 2, 0]);
    let zeros = MaskedData::from_vec(vec![float(0.0), float(-0.0), float(-1.0)]);
    assert_eq!(zeros.sort_order(), vec![2, 0, 1]);
}

#[test]
fn equal_join_fans_out_ties() {
    let left = keyed_view("k", vec![1, 1, 2], "a", vec![10, 11, 12]);
    let right = keyed_view("key", vec![1, 2, 2], "b", vec![20, 21, 22]);
    let ds = left.join(&right, &Join::equal(JoinKind::Inner, name("k"), name("key"))).unwrap();
    assert_eq!(ds.nrows(), 4);
    assert_eq!(ds.nfields(), 4);
    let dv = DataView::from_store(ds);
    let keys = dv.field::<u64>(&name("k")).unwrap();
    assert_eq!(keys.iter().filter(|v| **v == MaybeNa::Exists(1)).count(), 2);
    assert_eq!(keys.iter().filter(|v| **v == MaybeNa::Exists(2)).count(), 2);
    let pairs: Vec<(i64, i64)> = dv
        .field::<i64>(&name("a"))
        .unwrap()
        .into_iter()
        .zip(dv.field::<i64>(&name("b")).unwrap())
        .map(|(a, b)| (a.unwrap(), b.unwrap()))
        .collect();
    assert_eq!(pairs, vec![(10, 20), (11, 20), (12, 21), (12, 22)]);
}

#[test]
fn join_rows_counts() {
    let l = present(vec![1u64, 1, 2]);
    let r = present(vec![1u64, 2, 2]);
    let mut pairs = join_rows(&l, &r, JoinKind::Inner, Predicate::Equal);
    pairs.sort();
    assert_eq!(pairs, vec![(0, Some(0)), (1, Some(0)), (2, Some(1)), (2, Some(2))]);
    let mut cross = join_rows(&l, &r, JoinKind::Cross, Predicate::Equal);
    cross.sort();
    assert_eq!(cross.len(), 9);
    assert_eq!(cross[0], (0, Some(0)));
    assert_eq!(cross[8], (2, Some(2)));
}

#[test]
fn order_predicate_joins() {
    let l = present(vec![1u64, 3]);
    let r = present(vec![2u64, 3, 0]);
    let sorted = |mut v: Vec<(usize, Option<usize>)>| {
        v.sort();
        v
    };
    assert_eq!(
        sorted(join_rows(&l, &r, JoinKind::Inner, Predicate::LessThan)),
        vec![(0, Some(0)), (0, Some(1))]
    );
    assert_eq!(
        sorted(join_rows(&l, &r, JoinKind::Inner, Predicate::LessThanEqual)),
        vec![(0, Some(0)), (0, Some(1)), (1, Some(1))]
    );
    assert_eq!(
        sorted(join_rows(&l, &r, JoinKind::Inner, Predicate::GreaterThan)),
        vec![(0, Some(2)), (1, Some(0)), (1, Some(2))]
    );
    assert_eq!(
        sorted(join_rows(&l, &r, JoinKind::Inner, Predicate::GreaterThanEqual)),
        vec![(0, Some(2)), (1, Some(0)), (1, Some(1)), (1, Some(2))]
    );
    assert_eq!(
        sorted(join_rows(&l, &r, JoinKind::Outer, Predicate::LessThan)),
        vec![(0, Some(0)), (0, Some(1)), (1, None)]
    );
}

#[test]
fn outer_join_keeps_every_left_row() {
    let left = keyed_view("k", vec![1, 5, 2], "a", vec![10, 11, 12]);
    let right = keyed_view("k2", vec![2, 2, 9], "b", vec![20, 21, 22]);
    let ds = left.join(&right, &Join::equal(JoinKind::Outer, name("k"), name("k2"))).unwrap();
    let dv = DataView::from_store(ds);
    let a = dv.field::<i64>(&name("a")).unwrap();
    let b = dv.field::<i64>(&name("b")).unwrap();
    assert_eq!(a.len(), 4);
    for row in [10, 11, 12] {
        assert!(a.contains(&MaybeNa::Exists(row)));
    }
    for (x, y) in a.iter().zip(b.iter()) {
        match x {
            MaybeNa::Exists(10) | MaybeNa::Exists(11) => assert_eq!(*y, MaybeNa::Na),
            _ => assert!(y.has_value()),
        }
    }
    let k2 = dv.field::<u64>(&name("k2")).unwrap();
    assert_eq!(k2.iter().filter(|v| v.is_na()).count(), 2);
}

#[test]
fn join_drops_repeated_key_and_reports_collisions() {
    let left = keyed_view("k", vec![1, 2], "a", vec![10, 11]);
    let right = keyed_view("k", vec![2, 3], "b", vec![20, 21]);
    let ds = left.join(&right, &Join::equal(JoinKind::Inner, name("k"), name("k"))).unwrap();
    assert_eq!(ds.fieldnames(), vec![name("k"), name("a"), name("b")]);
    assert_eq!(ds.nrows(), 1);

    let right = keyed_view("k2", vec![2, 3], "a", vec![20, 21]);
    match left.join(&right, &Join::equal(JoinKind::Inner, name("k"), name("k2"))) {
        Err(AgnesError::FieldCollision(f)) => assert_eq!(f, vec![name("a")]),
        other => panic!("unexpected: {:?}", other.map(|d| d.nrows())),
    }
}

#[test]
fn join_key_errors() {
    let left = keyed_view("k", vec![1, 2], "a", vec![10, 11]);
    let right = keyed_view("k2", vec![2, 3], "b", vec![20, 21]);
    match left.join(&right, &Join::equal(JoinKind::Inner, name("nope"), name("k2"))) {
        Err(AgnesError::FieldNotFound(f)) => assert_eq!(f, name("nope")),
        other => panic!("unexpected: {:?}", other.map(|d| d.nrows())),
    }
    match left.join(&right, &Join::equal(JoinKind::Inner, name("k"), name("nope"))) {
        Err(AgnesError::FieldNotFound(f)) => assert_eq!(f, name("nope")),
        other => panic!("unexpected: {:?}", other.map(|d| d.nrows())),
    }
    match left.join(&right, &Join::less_than(JoinKind::Inner, name("k"), name("b"))) {
        Err(AgnesError::IncompatibleTypes { expected, actual }) => {
            assert_eq!(expected, FieldType::Unsigned);
            assert_eq!(actual, FieldType::Signed);
        }
        other => panic!("unexpected: {:?}", other.map(|d| d.nrows())),
    }
}

#[test]
fn join_constructors_set_predicate() {
    assert_eq!(Join::equal(JoinKind::Inner, name("a"), name("b")).predicate, Predicate::Equal);
    assert_eq!(Join::less_than(JoinKind::Inner, name("a"), name("b")).predicate, Predicate::LessThan);
    assert_eq!(Join::less_than_equal(JoinKind::Inner, name("a"), name("b")).predicate, Predicate::LessThanEqual);
    assert_eq!(Join::greater_than(JoinKind::Inner, name("a"), name("b")).predicate, Predicate::GreaterThan);
    assert_eq!(
        Join::greater_than_equal(JoinKind::Outer, name("a"), name("b")).predicate,
        Predicate::GreaterThanEqual
    );
}
