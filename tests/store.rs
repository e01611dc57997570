use agnes::cons::{cons, Append, Cons, Nil, PushBack, PushFront};
use agnes::error::AgnesError;
use agnes::field::{FieldIdent, FieldType, RFieldIdent, F64};
use agnes::frame::DataFrame;
use agnes::masked::{FieldData, MaskedData, MaybeNa};
use agnes::stats::{Extrema, NaCount};
use agnes::store::DataStore;

fn name(s: &str) -> FieldIdent {
    FieldIdent::Name(s.to_string())
}

#[test]
fn masked_data_push_and_get() {
    let mut m: MaskedData<u64> = MaskedData::new();
    assert_eq!(m.len(), 0);
    m.push(MaybeNa::Exists(4));
    m.push(MaybeNa::Na);
    assert_eq!(m.len(), 2);
    assert_eq!(m.get(0), Some(MaybeNa::Exists(&4)));
    assert_eq!(m.get(1), Some(MaybeNa::Na));
    assert_eq!(m.get(2), None);
    match m.get_data(5) {
        Err(AgnesError::IndexError { index, len }) => {
            assert_eq!(index, 5);
            assert_eq!(len, 2);
        }
        other => panic!("unexpected: {:?}", other),
    }
    assert_eq!(m.as_vec(), vec![MaybeNa::Exists(&4), MaybeNa::Na]);
    let single = MaskedData::new_with_elem(MaybeNa::Exists(String::from("x")));
    assert_eq!(single.get(0), Some(MaybeNa::Exists(&String::from("x"))));
    let na: MaskedData<bool> = MaskedData::new_with_elem(MaybeNa::Na);
    assert_eq!(na.get(0), Some(MaybeNa::Na));
}

#[test]
fn maybe_na_helpers() {
    let v: MaybeNa<u64> = MaybeNa::Exists(3);
    assert!(v.has_value());
    assert!(!v.is_na());
    assert_eq!(v.as_ref(), MaybeNa::Exists(&3));
    assert_eq!(v.clone().map(|x| x * 2), MaybeNa::Exists(6));
    assert_eq!(v.as_ref().cloned(), MaybeNa::Exists(3));
    assert_eq!(v.unwrap(), 3);
    let n: MaybeNa<u64> = MaybeNa::Na;
    assert!(n.is_na());
    assert_eq!(n.map(|x| x + 1), MaybeNa::Na);
}

#[test]
fn store_add_field_checks() {
    let mut ds = DataStore::empty();
    assert_eq!(ds.nrows(), 0);
    ds.add_values(name("a"), vec![MaybeNa::Exists(1u64), MaybeNa::Na]).unwrap();
    assert_eq!(ds.nrows(), 2);
    match ds.add_values(name("b"), vec![MaybeNa::Exists(true)]) {
        Err(AgnesError::DimensionMismatch(_)) => {}
        other => panic!("unexpected: {:?}", other),
    }
    match ds.add_values(name("a"), vec![MaybeNa::Exists(1i64), MaybeNa::Na]) {
        Err(AgnesError::FieldCollision(f)) => assert_eq!(f, vec![name("a")]),
        other => panic!("unexpected: {:?}", other),
    }
    ds.add_field(FieldIdent::Index(1), FieldData::Float(MaskedData::from_vec(vec![F64::from_bits(0), F64::from_bits(1)])))
        .unwrap();
    assert_eq!(ds.nfields(), 2);
    assert!(ds.has_field(&FieldIdent::Index(1)));
    assert!(!ds.has_field(&FieldIdent::Index(0)));
    assert_eq!(ds.get_field_type(&name("a")), Some(FieldType::Unsigned));
    assert_eq!(ds.get_field_type(&FieldIdent::Index(1)), Some(FieldType::Float));
    assert_eq!(ds.get_field_type(&name("zzz")), None);
    assert_eq!(ds.fieldnames(), vec![name("a"), FieldIdent::Index(1)]);
    match ds.typed_field::<String>(&name("a")) {
        Err(AgnesError::IncompatibleTypes { expected, actual }) => {
            assert_eq!(expected, FieldType::Text);
            assert_eq!(actual, FieldType::Unsigned);
        }
        other => panic!("unexpected: {:?}", other.map(|c| c.len())),
    }
}

#[test]
fn frame_filter_and_sort_compose() {
    let mut ds = DataStore::empty();
    ds.add_values(name("x"), vec![5u64, 3, 9, 1, 7].into_iter().map(MaybeNa::Exists).collect()).unwrap();
    let mut frame = DataFrame::new(ds);
    assert_eq!(frame.nrows(), 5);
    let sel = frame.filter(&name("x"), |v: &u64| *v > 2).unwrap();
    assert_eq!(sel, vec![0, 1, 2, 4]);
    let order = frame.sort_by(&name("x")).unwrap();
    assert_eq!(order, vec![1, 0, 3, 2]);
    assert_eq!(
        frame.values::<u64>(&name("x")).unwrap(),
        vec![3u64, 5, 7, 9].into_iter().map(MaybeNa::Exists).collect::<Vec<_>>()
    );
    let copy = frame.duplicate();
    assert!(copy.has_same_store(&frame));
    assert!(copy.shares_data_with(&frame));
    frame.update_permutation(&vec![3, 0]);
    assert_eq!(
        frame.values::<u64>(&name("x")).unwrap(),
        vec![9u64, 3].into_iter().map(MaybeNa::Exists).collect::<Vec<_>>()
    );
    assert!(!copy.shares_data_with(&frame));
    assert_eq!(copy.nrows(), 4);
    assert!(frame.has_field(&name("x")));
    assert_eq!(frame.get_field_type(&name("x")), Some(FieldType::Unsigned));
}

#[test]
fn renamed_identifiers() {
    let r = RFieldIdent { ident: name("a"), rename: None };
    assert_eq!(r.to_renamed_field_ident(), name("a"));
    let r = RFieldIdent { ident: name("a"), rename: Some(name("b")) };
    assert_eq!(r.to_renamed_field_ident(), name("b"));
    assert!(name("a").same_as(&FieldIdent::name("a")));
    assert!(!name("a").same_as(&FieldIdent::Index(0)));
}

#[test]
fn float_bits_round_trip() {
    let x = F64::from_bits((-2.5f64).to_bits());
    assert_eq!(f64::from_bits(x.to_bits()), -2.5);
    assert!(F64::from_bits(f64::NAN.to_bits()).is_nan());
    assert!(!x.is_nan());
    assert_eq!(F64::from_bits(f64::NAN.to_bits()).rank(), 0);
    assert_eq!(F64::from_bits(0.0f64.to_bits()).rank(), F64::from_bits((-0.0f64).to_bits()).rank());
    assert!(x.rank() < F64::from_bits(1.0f64.to_bits()).rank());
}

#[test]
fn cons_lists() {
    let list = cons(1u8, cons("two", Nil));
    assert_eq!(list.head, 1);
    assert_eq!(list.tail.head, "two");
    let list = list.push_front(0i32);
    assert_eq!(list.head, 0);
    let list = Nil.push_back(5u64).push_back(6u64);
    assert_eq!(list, Cons { head: 5u64, tail: Cons { head: 6u64, tail: Nil } });
    let both = list.append(cons(true, Nil));
    assert_eq!(both.tail.tail.head, true);
    let front = Nil.push_front('x');
    assert_eq!(front.head, 'x');
}

fn fl(x: f64) -> F64 {
    F64::from_bits(x.to_bits())
}

#[test]
fn na_count() {
    let data = MaskedData::from_masked_vec(vec![
        MaybeNa::Exists(fl(0.0)),
        MaybeNa::Exists(fl(-5.0)),
        MaybeNa::Na,
        MaybeNa::Na,
        MaybeNa::Exists(fl(-3.0)),
    ]);
    assert_eq!(data.num_na(), 2);
    assert_eq!(data.num_exists(), 3);
}

#[test]
fn min() {
    let data = MaskedData::from_masked_vec(vec![
        MaybeNa::Exists(0u64),
        MaybeNa::Exists(9),
        MaybeNa::Na,
        MaybeNa::Na,
        MaybeNa::Exists(3),
    ]);
    assert_eq!(data.min(), Some(&0));

    let data = MaskedData::from_masked_vec(vec![
        MaybeNa::Exists(0i64),
        MaybeNa::Exists(-9),
        MaybeNa::Na,
        MaybeNa::Na,
        MaybeNa::Exists(-3),
    ]);
    assert_eq!(data.min(), Some(&-9));

    let data = MaskedData::from_masked_vec(vec![
        MaybeNa::Exists(true),
        MaybeNa::Exists(true),
        MaybeNa::Exists(false),
        MaybeNa::Na,
        MaybeNa::Exists(true),
    ]);
    assert_eq!(data.min(), Some(&false));

    let data = MaskedData::from_masked_vec(vec![
        MaybeNa::Exists(fl(0.0)),
        MaybeNa::Exists(fl(-9.0)),
        MaybeNa::Na,
        MaybeNa::Na,
        MaybeNa::Exists(fl(-3.0)),
    ]);
    assert_eq!(data.min().map(|x| f64::from_bits(x.to_bits())), Some(-9.0));

    let data: MaskedData<F64> =
        MaskedData::from_masked_vec(vec![MaybeNa::Na, MaybeNa::Na, MaybeNa::Na, MaybeNa::Na, MaybeNa::Na]);
    assert_eq!(data.min(), None);
}

#[test]
fn max() {
    let data = MaskedData::from_masked_vec(vec![
        MaybeNa::Exists(0u64),
        MaybeNa::Exists(9),
        MaybeNa::Na,
        MaybeNa::Na,
        MaybeNa::Exists(3),
    ]);
    assert_eq!(data.max(), Some(&9));

    let data = MaskedData::from_masked_vec(vec![
        MaybeNa::Exists(0i64),
        MaybeNa::Exists(-9),
        MaybeNa::Na,
        MaybeNa::Na,
        MaybeNa::Exists(-3),
    ]);
    assert_eq!(data.max(), Some(&0));

    let data = MaskedData::from_masked_vec(vec![
        MaybeNa::Exists(true),
        MaybeNa::Exists(true),
        MaybeNa::Exists(false),
        MaybeNa::Na,
        MaybeNa::Exists(true),
    ]);
    assert_eq!(data.max(), Some(&true));

    let data = MaskedData::from_masked_vec(vec![
        MaybeNa::Exists(fl(0.0)),
        MaybeNa::Exists(fl(-9.0)),
        MaybeNa::Na,
        MaybeNa::Na,
        MaybeNa::Exists(fl(-3.0)),
    ]);
    assert_eq!(data.max().map(|x| f64::from_bits(x.to_bits())), Some(0.0));

    let data: MaskedData<F64> =
        MaskedData::from_masked_vec(vec![MaybeNa::Na, MaybeNa::Na, MaybeNa::Na, MaybeNa::Na, MaybeNa::Na]);
    assert_eq!(data.max(), None);
}

