use arky::data::{Data, Payload, PayloadKind, TypeMismatch};

#[test]
fn data_equality_follows_kind_and_value() {
    assert_eq!(Data::Empty, Data::Empty);
    assert_eq!(Data::new(Payload::Uint(5)), Data::new(Payload::Uint(5)));
    assert_ne!(Data::new(Payload::Uint(5)), Data::new(Payload::Int(5)));
    assert_ne!(Data::new(Payload::Uint(5)), Data::new(Payload::Uint(6)));
    assert_ne!(Data::new(Payload::Uint(5)), Data::Empty);
    assert_eq!(
        Data::new(Payload::Text(String::from("a"))),
        Data::new(Payload::Text(String::from("a")))
    );
    assert_ne!(
        Data::new(Payload::Text(String::from("a"))),
        Data::new(Payload::Bytes(vec![97]))
    );
}

#[test]
fn get_with_wrong_kind_names_both_kinds() {
    let d = Data::new(Payload::Uint(5));
    let err = d.get(PayloadKind::Text).unwrap_err();
    assert_eq!(err, TypeMismatch { expected: PayloadKind::Text, found: PayloadKind::Uint });

    let empty_err = Data::Empty.get(PayloadKind::Uint).unwrap_err();
    assert_eq!(
        empty_err,
        TypeMismatch { expected: PayloadKind::Uint, found: PayloadKind::Absent }
    );

    assert_eq!(d.get(PayloadKind::Uint).unwrap(), &Payload::Uint(5));
}

#[test]
fn data_kind_reports_contents() {
    assert_eq!(Data::Empty.kind(), PayloadKind::Absent);
    assert_eq!(Data::new(Payload::Flag(true)).kind(), PayloadKind::Flag);
    assert_eq!(Data::new(Payload::Bytes(vec![1, 2])).kind(), PayloadKind::Bytes);
    assert_eq!(Data::default(), Data::Empty);
}

#[test]
fn set_replaces_only_matching_kind() {
    let mut d = Data::new(Payload::Uint(5));
    d.set(Payload::Uint(9)).unwrap();
    assert_eq!(d.get(PayloadKind::Uint).unwrap(), &Payload::Uint(9));

    let err = d.set(Payload::Text(String::from("x"))).unwrap_err();
    assert_eq!(err, TypeMismatch { expected: PayloadKind::Text, found: PayloadKind::Uint });
    assert_eq!(d.get(PayloadKind::Uint).unwrap(), &Payload::Uint(9));

    let mut empty = Data::Empty;
    let empty_err = empty.set(Payload::Uint(1)).unwrap_err();
    assert_eq!(
        empty_err,
        TypeMismatch { expected: PayloadKind::Uint, found: PayloadKind::Absent }
    );
    assert_eq!(empty, Data::Empty);
}
