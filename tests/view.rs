use agnes::error::AgnesError;
use agnes::field::{FieldIdent, FieldType, F64};
use agnes::masked::MaybeNa;
use agnes::store::DataStore;
use agnes::view::DataView;

fn name(s: &str) -> FieldIdent {
    FieldIdent::Name(s.to_string())
}

fn names(list: &[&str]) -> Vec<FieldIdent> {
    list.iter().map(|s| name(s)).collect()
}

fn present<T>(v: Vec<T>) -> Vec<MaybeNa<T>> {
    v.into_iter().map(MaybeNa::Exists).collect()
}

fn float(x: f64) -> F64 {
    F64::from_bits(x.to_bits())
}

fn emp_store() -> DataStore {
    let mut ds = DataStore::empty();
    ds.add_values(name("EmpId"), present(vec![0u64, 2, 5, 6, 8, 9, 10])).unwrap();
    ds.add_values(name("DeptId"), present(vec![1u64, 2, 1, 1, 3, 4, 4])).unwrap();
    ds.add_values(
        name("EmpName"),
        present(
            vec!["Sally", "Jamie", "Bob", "Cara", "Louis", "Louise", "Ann"]
                .into_iter()
                .map(String::from)
                .collect(),
        ),
    )
    .unwrap();
    ds
}

fn emp_store_extra() -> DataStore {
    let mut ds = DataStore::empty();
    ds.add_values(name("SalaryOffset"), present(vec![-5i64, 4, 12, -33, 10, 0, -1])).unwrap();
    ds.add_values(name("DidTraining"), present(vec![false, false, true, true, true, false, true]))
        .unwrap();
    ds.add_values(
        name("VacationHrs"),
        present(vec![47.3, 54.1, 98.3, 12.2, -1.2, 5.4, 22.5].into_iter().map(float).collect()),
    )
    .unwrap();
    ds
}

fn dept_store() -> DataStore {
    let mut ds = DataStore::empty();
    ds.add_values(name("DeptId"), present(vec![1u64, 2, 3, 4])).unwrap();
    ds.add_values(
        name("DeptName"),
        present(
            vec!["Marketing", "Sales", "Manufacturing", "R&D"]
                .into_iter()
                .map(String::from)
                .collect(),
        ),
    )
    .unwrap();
    ds
}

fn emp_view() -> DataView {
    DataView::from_store(emp_store())
}

fn merged_emp_view() -> DataView {
    emp_view().merge(&DataView::from_store(emp_store_extra())).expect("merge failed")
}

fn texts(dv: &DataView, field: &str) -> Vec<String> {
    dv.field::<String>(&name(field))
        .unwrap()
        .into_iter()
        .map(|v| match v {
            MaybeNa::Exists(s) => s,
            MaybeNa::Na => "NA".to_string(),
        })
        .collect()
}

fn unsigned(dv: &DataView, field: &str) -> Vec<u64> {
    dv.field::<u64>(&name(field))
        .unwrap()
        .into_iter()
        .map(|v| match v {
            MaybeNa::Exists(x) => x,
            MaybeNa::Na => panic!("missing value"),
        })
        .collect()
}

fn assert_texts_eq(dv: &DataView, field: &str, expected: Vec<&str>) {
    assert_eq!(texts(dv, field), expected.iter().map(|s| s.to_string()).collect::<Vec<_>>());
}

fn assert_texts_sorted_eq(dv: &DataView, field: &str, expected: Vec<&str>) {
    let mut got = texts(dv, field);
    got.sort();
    let mut want: Vec<String> = expected.iter().map(|s| s.to_string()).collect();
    want.sort();
    assert_eq!(got, want);
}

fn assert_field_lists_match(got: Vec<FieldIdent>, expected: Vec<&str>) {
    assert_eq!(got, names(&expected));
}

#[test]
fn merge() {
    let dv1 = emp_view();
    let dv2 = DataView::from_store(emp_store_extra());
    let merged_dv = dv1.merge(&dv2).expect("merge failed");
    assert_eq!(merged_dv.nrows(), 7);
    assert_eq!(merged_dv.nfields(), 6);
    for (left, right) in merged_dv.fieldnames().iter().zip(names(&[
        "EmpId",
        "DeptId",
        "EmpName",
        "SalaryOffset",
        "DidTraining",
        "VacationHrs",
    ])) {
        assert_eq!(left, &right);
    }
}

#[test]
fn merge_dimension_mismatch() {
    let dv1 = emp_view();
    let dv2 = DataView::from_store(dept_store());
    match dv1.merge(&dv2) {
        Ok(_) => {
            panic!("Merge was expected to fail (dimension mismatch), but succeeded");
        }
        Err(AgnesError::DimensionMismatch(_)) => { /* expected */ }
        Err(e) => {
            panic!("Incorrect error: {:?}", e);
        }
    };
}

#[test]
fn merge_field_collision() {
    let dv1 = emp_view();
    let dv2 = emp_view();
    match dv1.merge(&dv2) {
        Ok(_) => {
            panic!("Merge expected to fail (field collision), but succeeded");
        }
        Err(AgnesError::FieldCollision(fields)) => {
            assert_eq!(fields, names(&["EmpId", "DeptId", "EmpName"]));
        }
        Err(e) => {
            panic!("Incorrect error: {:?}", e);
        }
    }
}

#[test]
fn rename() {
    let mut dv = emp_view();
    assert_field_lists_match(dv.fieldnames(), vec!["EmpId", "DeptId", "EmpName"]);
    dv.rename(name("DeptId"), name("Department Id")).expect("rename failed");
    assert_field_lists_match(dv.fieldnames(), vec!["EmpId", "Department Id", "EmpName"]);
    dv.rename(name("Department Id"), name("DeptId")).expect("rename failed");
    assert_field_lists_match(dv.fieldnames(), vec!["EmpId", "DeptId", "EmpName"]);
}

#[test]
fn rename_field_collision() {
    let mut dv = emp_view();
    assert_field_lists_match(dv.fieldnames(), vec!["EmpId", "DeptId", "EmpName"]);
    match dv.rename(name("DeptId"), name("EmpId")) {
        Ok(_) => {
            panic!("Rename expected to fail (field collision), but succeeded");
        }
        Err(AgnesError::FieldCollision(fields)) => {
            assert_eq!(fields, names(&["EmpId"]));
        }
        Err(e) => {
            panic!("Incorrect error: {:?}", e);
        }
    }
}

#[test]
fn rename_field_not_found() {
    let mut dv = emp_view();
    assert_field_lists_match(dv.fieldnames(), vec!["EmpId", "DeptId", "EmpName"]);
    match dv.rename(name("Department Id"), name("DepartmentId")) {
        Ok(_) => {
            panic!("Rename expected to fail (field not found), but succeeded");
        }
        Err(AgnesError::FieldNotFound(field)) => {
            assert_eq!(field, FieldIdent::Name("Department Id".to_string()));
        }
        Err(e) => {
            panic!("Incorrect error: {:?}", e);
        }
    }
}

#[test]
fn subview() {
    let dv = emp_view();
    assert_eq!(dv.frames()[0].store_ref_count(), 1);
    assert_field_lists_match(dv.fieldnames(), vec!["EmpId", "DeptId", "EmpName"]);

    let subdv1 = dv.v(&names(&["EmpId"]));
    assert_eq!(dv.frames()[0].store_ref_count(), 2);
    assert_eq!(subdv1.nrows(), 7);
    assert_eq!(subdv1.nfields(), 1);
    let subdv1 = dv.subview(&names(&["EmpId"])).expect("subview failed");
    assert_eq!(dv.frames()[0].store_ref_count(), 3);
    assert_eq!(subdv1.nrows(), 7);
    assert_eq!(subdv1.nfields(), 1);

    let subdv2 = dv.v(&names(&["EmpId", "DeptId"]));
    assert_eq!(dv.frames()[0].store_ref_count(), 4);
    assert_eq!(subdv2.nrows(), 7);
    assert_eq!(subdv2.nfields(), 2);
    let subdv2 = dv.subview(&names(&["EmpId", "DeptId"])).expect("subview failed");
    assert_eq!(dv.frames()[0].store_ref_count(), 5);
    assert_eq!(subdv2.nrows(), 7);
    assert_eq!(subdv2.nfields(), 2);

    let subdv3 = dv.v(&names(&["EmpId", "DeptId", "EmpName"]));
    assert_eq!(dv.frames()[0].store_ref_count(), 6);
    assert_eq!(subdv3.nrows(), 7);
    assert_eq!(subdv3.nfields(), 3);
    let subdv3 = dv.subview(&names(&["EmpId", "DeptId", "EmpName"])).expect("subview failed");
    assert_eq!(dv.frames()[0].store_ref_count(), 7);
    assert_eq!(subdv3.nrows(), 7);
    assert_eq!(subdv3.nfields(), 3);

    // Subview of a subview
    let subdv4 = subdv2.v(&names(&["DeptId"]));
    assert_eq!(dv.frames()[0].store_ref_count(), 8);
    assert_eq!(subdv4.nrows(), 7);
    assert_eq!(subdv4.nfields(), 1);
    let subdv4 = subdv2.subview(&names(&["DeptId"])).expect("subview failed");
    assert_eq!(dv.frames()[0].store_ref_count(), 9);
    assert_eq!(subdv4.nrows(), 7);
    assert_eq!(subdv4.nfields(), 1);
}

#[test]
fn subview_fail() {
    let dv = emp_view();
    assert_eq!(dv.frames()[0].store_ref_count(), 1);
    assert_field_lists_match(dv.fieldnames(), vec!["EmpId", "DeptId", "EmpName"]);

    // "Employee Name" does not exist
    let subdv1 = dv.v(&names(&["EmpId", "DeptId", "Employee Name"]));
    assert_eq!(dv.frames()[0].store_ref_count(), 2);
    assert_eq!(subdv1.nrows(), 7);
    assert_eq!(subdv1.nfields(), 2);
    match dv.subview(&names(&["EmpId", "DeptId", "Employee Name"])) {
        Ok(_) => {
            panic!("expected error (field not found), but succeeded");
        }
        Err(AgnesError::FieldNotFound(field)) => {
            assert_eq!(field, FieldIdent::Name("Employee Name".into()));
        }
        Err(e) => {
            panic!("Incorrect error: {:?}", e);
        }
    }

    let subdv2 = dv.v(&names(&["Nonexistant"]));
    assert_eq!(dv.frames()[0].store_ref_count(), 3);
    assert_eq!(subdv2.nrows(), 7); // still 7 rows, just no fields
    assert_eq!(subdv2.nfields(), 0);
    match dv.subview(&names(&["Nonexistant"])) {
        Ok(_) => {
            panic!("expected error (field not found), but succeeded");
        }
        Err(AgnesError::FieldNotFound(field)) => {
            assert_eq!(field, FieldIdent::Name("Nonexistant".into()));
        }
        Err(e) => {
            panic!("Incorrect error: {:?}", e);
        }
    }
}

#[test]
fn filter() {
    let orig_dv = emp_view();
    assert_eq!(orig_dv.nrows(), 7);

    // set filtering by department ID
    let mut dv1 = orig_dv.duplicate();
    dv1.filter(&name("DeptId"), |val: &u64| *val == 1).unwrap();
    assert_eq!(dv1.nrows(), 3);
    assert_texts_sorted_eq(&dv1, "EmpName", vec!["Sally", "Bob", "Cara"]);

    // filter a second time
    dv1.filter(&name("EmpId"), |val: &u64| *val >= 6).unwrap();
    assert_eq!(dv1.nrows(), 1);
    assert_texts_sorted_eq(&dv1, "EmpName", vec!["Cara"]);

    // that same filter on the original DV has different results
    let mut dv2 = orig_dv.duplicate();
    dv2.filter(&name("EmpId"), |val: &u64| *val >= 6).unwrap();
    assert_eq!(dv2.nrows(), 4);
    assert_texts_sorted_eq(&dv2, "EmpName", vec!["Cara", "Louis", "Louise", "Ann"]);

    // let's try filtering by a different department on dv2
    dv2.filter(&name("DeptId"), |val: &u64| *val == 4).unwrap();
    assert_eq!(dv2.nrows(), 2);
    assert_texts_sorted_eq(&dv2, "EmpName", vec!["Louise", "Ann"]);
}

#[test]
fn sort() {
    let orig_dv = merged_emp_view();
    assert_eq!(orig_dv.nrows(), 7);

    // sort by name
    let mut dv1 = orig_dv.duplicate();
    dv1.sort_by(&name("EmpName")).unwrap();
    assert_texts_eq(&dv1, "EmpName", vec!["Ann", "Bob", "Cara", "Jamie", "Louis", "Louise", "Sally"]);
    assert_eq!(unsigned(&dv1, "EmpId"), vec![10u64, 5, 6, 2, 8, 9, 0]);

    // re-sort by empid
    let mut dv2 = dv1.duplicate();
    dv2.sort_by(&name("EmpId")).unwrap();
    assert_texts_eq(&dv2, "EmpName", vec!["Sally", "Jamie", "Bob", "Cara", "Louis", "Louise", "Ann"]);
    assert_eq!(unsigned(&dv2, "EmpId"), vec![0u64, 2, 5, 6, 8, 9, 10]);

    // make sure dv1 is still sorted by EmpName
    assert_texts_eq(&dv1, "EmpName", vec!["Ann", "Bob", "Cara", "Jamie", "Louis", "Louise", "Sally"]);
    assert_eq!(unsigned(&dv1, "EmpId"), vec![10u64, 5, 6, 2, 8, 9, 0]);

    // starting with sorted by name, sort by vacation hours
    let mut dv3 = dv1.duplicate();
    dv3.sort_by(&name("VacationHrs")).unwrap();
    assert_texts_eq(&dv3, "EmpName", vec!["Louis", "Louise", "Cara", "Ann", "Sally", "Jamie", "Bob"]);
    assert_eq!(unsigned(&dv3, "EmpId"), vec![8u64, 9, 6, 10, 0, 2, 5]);
}

#[test]
fn filter_sort() {
    let orig_dv = merged_emp_view();
    assert_eq!(orig_dv.nrows(), 7);

    // start by filtering for employees with remaining vacation hours
    let mut dv1 = orig_dv.duplicate();
    dv1.filter(&name("VacationHrs"), |val: &F64| f64::from_bits(val.to_bits()) >= 0.0).unwrap();
    assert_eq!(dv1.nrows(), 6);
    // only Louis has negative hours, so rest of employees still remain
    assert_texts_eq(&dv1, "EmpName", vec!["Sally", "Jamie", "Bob", "Cara", "Louise", "Ann"]);

    // next, sort by employee name
    let mut dv2 = dv1.duplicate();
    dv2.sort_by(&name("EmpName")).unwrap();
    assert_texts_eq(&dv2, "EmpName", vec!["Ann", "Bob", "Cara", "Jamie", "Louise", "Sally"]);

    // filter by people in department 1
    let mut dv3 = dv2.duplicate();
    dv3.filter(&name("DeptId"), |val: &u64| *val == 1).unwrap();
    assert_eq!(dv3.nrows(), 3);
    // should just be the people in department 1, in employee name order
    assert_texts_eq(&dv3, "EmpName", vec!["Bob", "Cara", "Sally"]);

    // check that dv1 still has the original ordering
    assert_texts_eq(&dv1, "EmpName", vec!["Sally", "Jamie", "Bob", "Cara", "Louise", "Ann"]);

    // ok, now filter dv1 by department 1
    dv1.filter(&name("DeptId"), |val: &u64| *val == 1).unwrap();
    assert_eq!(dv1.nrows(), 3);
    // should be the people in department 1, but in original name order
    assert_texts_eq(&dv1, "EmpName", vec!["Sally", "Bob", "Cara"]);

    // make sure dv2 hasn't been affected by any of the other changes
    assert_texts_eq(&dv2, "EmpName", vec!["Ann", "Bob", "Cara", "Jamie", "Louise", "Sally"]);
}

#[test]
fn select() {
    let dv = merged_emp_view();
    let result = dv
        .field::<u64>(&name("EmpId"))
        .unwrap()
        .iter()
        .map(|datum| if datum.has_value() { 1i64 } else { 0 })
        .collect::<Vec<_>>();
    assert_eq!(result, vec![1, 1, 1, 1, 1, 1, 1]);
}

#[test]
fn tmap_incorrect_field_type() {
    let orig_dv = merged_emp_view();
    match orig_dv.tmap(&name("EmpName"), |data: &Vec<MaybeNa<u64>>| {
        data.iter().any(|emp_id| *emp_id == MaybeNa::Exists(1))
    }) {
        Err(AgnesError::IncompatibleTypes { .. }) => {}
        Err(_) => {
            panic!["wrong error when calling tmap() with incorrect type"];
        }
        Ok(_) => {
            panic!["expected error when calling tmap() with incorrect type, but received result"];
        }
    }
}

#[test]
fn incompatible_types_names_both_kinds() {
    let dv = merged_emp_view();
    match dv.field::<bool>(&name("SalaryOffset")) {
        Err(AgnesError::IncompatibleTypes { expected, actual }) => {
            assert_eq!(expected, FieldType::Boolean);
            assert_eq!(actual, FieldType::Signed);
        }
        other => panic!("unexpected result: {:?}", other.map(|v| v.len())),
    }
    assert_eq!(dv.get_field_type(&name("VacationHrs")), Some(FieldType::Float));
    assert_eq!(dv.get_field_type(&name("Nope")), None);
}

#[test]
fn filter_scenario_employees_of_dept_one() {
    let orig = emp_view();
    let mut dv = orig.duplicate();
    let sel = dv.filter(&name("DeptId"), |v: &u64| *v == 1).unwrap();
    assert_eq!(sel, vec![0, 2, 3]);
    assert_eq!(dv.nrows(), 3);
    assert_texts_eq(&dv, "EmpName", vec!["Sally", "Bob", "Cara"]);
    let sel = dv.filter(&name("EmpId"), |v: &u64| *v >= 6).unwrap();
    assert_eq!(sel, vec![2]);
    assert_texts_eq(&dv, "EmpName", vec!["Cara"]);
    let mut direct = orig.duplicate();
    direct.filter(&name("EmpId"), |v: &u64| *v >= 6).unwrap();
    assert_eq!(direct.nrows(), 4);
}

#[test]
fn filter_twice_equals_filter_on_both() {
    let orig = emp_view();
    let mut twice = orig.duplicate();
    twice.filter(&name("DeptId"), |v: &u64| *v == 4).unwrap();
    twice.filter(&name("EmpId"), |v: &u64| *v >= 9).unwrap();
    let both: Vec<u64> = unsigned(&orig, "EmpId")
        .into_iter()
        .zip(unsigned(&orig, "DeptId"))
        .filter(|(e, d)| *d == 4 && *e >= 9)
        .map(|(e, _)| e)
        .collect();
    assert_eq!(unsigned(&twice, "EmpId"), both);
    assert_eq!(both, vec![9, 10]);
}

#[test]
fn filter_skips_missing_values() {
    let mut ds = DataStore::empty();
    ds.add_values(name("x"), vec![MaybeNa::Exists(3u64), MaybeNa::Na, MaybeNa::Exists(7)]).unwrap();
    let mut dv = DataView::from_store(ds);
    let sel = dv.filter(&name("x"), |_: &u64| true).unwrap();
    assert_eq!(sel, vec![0, 2]);
    assert_eq!(dv.nrows(), 2);
}

#[test]
fn filter_missing_field_fails() {
    let mut dv = emp_view();
    match dv.filter(&name("Salary"), |_: &u64| true) {
        Err(AgnesError::FieldNotFound(f)) => assert_eq!(f, name("Salary")),
        other => panic!("unexpected: {:?}", other),
    }
    match dv.sort_by(&name("Salary")) {
        Err(AgnesError::FieldNotFound(f)) => assert_eq!(f, name("Salary")),
        other => panic!("unexpected: {:?}", other),
    }
    assert_eq!(dv.nrows(), 7);
}

#[test]
fn sort_is_stable_and_puts_missing_first() {
    let mut ds = DataStore::empty();
    ds.add_values(
        name("k"),
        vec![MaybeNa::Exists(2u64), MaybeNa::Na, MaybeNa::Exists(1), MaybeNa::Exists(2), MaybeNa::Na],
    )
    .unwrap();
    ds.add_values(name("id"), present(vec![0u64, 1, 2, 3, 4])).unwrap();
    let mut dv = DataView::from_store(ds);
    let order = dv.sort_by(&name("k")).unwrap();
    assert_eq!(order, vec![1, 4, 2, 0, 3]);
    assert_eq!(unsigned(&dv, "id"), vec![1, 4, 2, 0, 3]);
}

#[test]
fn merge_keeps_values_and_shares_frames() {
    let a = emp_view();
    let b = a.v(&names(&["EmpName"]));
    let mut b = b;
    b.rename(name("EmpName"), name("Name")).unwrap();
    let m = a.merge(&b).unwrap();
    assert_eq!(m.nfields(), 4);
    assert_eq!(m.frames().len(), 1);
    assert_eq!(texts(&m, "Name"), texts(&a, "EmpName"));
    assert_eq!(unsigned(&m, "DeptId"), unsigned(&a, "DeptId"));
}

#[test]
fn merge_keeps_sorted_sources_apart() {
    let a = emp_view().v(&names(&["EmpId"]));
    let mut b = emp_view().v(&names(&["EmpName"]));
    b.sort_by(&name("EmpName")).unwrap();
    let m = a.merge(&b).unwrap();
    assert_eq!(unsigned(&m, "EmpId"), vec![0, 2, 5, 6, 8, 9, 10]);
    assert_texts_eq(&m, "EmpName", vec!["Ann", "Bob", "Cara", "Jamie", "Louis", "Louise", "Sally"]);
}

#[test]
fn rename_keeps_values() {
    let mut dv = emp_view();
    let before = unsigned(&dv, "DeptId");
    dv.rename(name("DeptId"), FieldIdent::Index(7)).unwrap();
    assert!(!dv.has_field(&name("DeptId")));
    assert_eq!(dv.field::<u64>(&FieldIdent::Index(7)).unwrap(), present(before));
}

#[test]
fn tmap_closure() {
    let orig_dv = merged_emp_view();
    let has_jamie = orig_dv
        .tmap(&name("EmpName"), |data: &Vec<MaybeNa<String>>| {
            data.iter().any(|emp_name| *emp_name == MaybeNa::Exists("Jamie".to_string()))
        })
        .unwrap();
    assert_eq!(has_jamie, true);

    let has_james = orig_dv
        .tmap(&name("EmpName"), |data: &Vec<MaybeNa<String>>| {
            data.iter().any(|emp_name| *emp_name == MaybeNa::Exists("James".to_string()))
        })
        .unwrap();
    assert_eq!(has_james, false);
}
