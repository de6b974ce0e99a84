use ofposet::poset::FramedPoset;
use ofposet::tables::{SERIALIZATION_VERSION, TableError, from_tables};

#[test]
fn deserialization_rejects_invalid_face_index() {
    let r = from_tables(1, vec![vec![vec![]], vec![vec![0]]], vec![vec![vec![]], vec![vec![1]]], vec![vec![vec![]], vec![vec![]]]);
    assert!(r.is_err());
}

#[test]
fn tables_of_an_arrow_build_it() {
    let r = from_tables(
        SERIALIZATION_VERSION,
        vec![vec![vec![], vec![]], vec![vec![0]]],
        vec![vec![vec![], vec![]], vec![vec![0]]],
        vec![vec![vec![], vec![]], vec![vec![1]]],
    )
    .unwrap();
    let arrow = FramedPoset::from_faces(
        vec![vec![vec![], vec![]], vec![vec![0]]],
        vec![vec![vec![], vec![]], vec![vec![0]]],
        vec![vec![vec![], vec![]], vec![vec![1]]],
    );
    assert!(FramedPoset::equal(&r, &arrow));
    assert!(!r.is_normal());
}

#[test]
fn empty_tables_build_the_empty_poset() {
    let r = from_tables(1, vec![], vec![], vec![]).unwrap();
    assert!(FramedPoset::equal(&r, &FramedPoset::empty()));
}

#[test]
fn each_refusal_names_its_reason() {
    let basis = || vec![vec![vec![], vec![]], vec![vec![0]]];
    let faces = || vec![vec![vec![], vec![]], vec![vec![0]]];
    assert_eq!(from_tables(2, basis(), faces(), faces()).err(), Some(TableError::Version { version: 2 }));
    assert_eq!(from_tables(1, basis(), vec![vec![vec![], vec![]]], faces()).err(), Some(TableError::LevelCount));
    assert_eq!(
        from_tables(1, basis(), vec![vec![vec![], vec![]], vec![]], faces()).err(),
        Some(TableError::RowCount { level: 1 })
    );
    assert_eq!(
        from_tables(1, vec![vec![vec![], vec![]], vec![vec![1, 0]]], faces(), faces()).err(),
        Some(TableError::Unsorted { level: 1 })
    );
    assert_eq!(
        from_tables(1, basis(), vec![vec![vec![0], vec![]], vec![vec![0]]], faces()).err(),
        Some(TableError::FacesAtLevelZero)
    );
    assert_eq!(
        from_tables(1, basis(), faces(), vec![vec![vec![], vec![]], vec![vec![2]]]).err(),
        Some(TableError::FaceOutOfRange { level: 1 })
    );
}

#[test]
fn the_first_bad_level_decides_the_refusal() {
    let r = from_tables(
        1,
        vec![vec![vec![], vec![]], vec![vec![1, 0]]],
        vec![vec![vec![5], vec![]], vec![vec![0]]],
        vec![vec![vec![], vec![]], vec![vec![1]]],
    );
    assert_eq!(r.err(), Some(TableError::FacesAtLevelZero));
}
