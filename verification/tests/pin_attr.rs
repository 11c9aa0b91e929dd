use pcb_rs::pin_attr::{
    get_pin_metadata, get_pin_type, pin_is_tristatable, AttrArg, AttrError, FieldDecl, PinDecl,
    PinKind,
};

fn path(segments: &[&str]) -> AttrArg {
    AttrArg::Path(segments.iter().map(|s| s.to_string()).collect())
}

fn strings(segments: &[&str]) -> Vec<String> {
    segments.iter().map(|s| s.to_string()).collect()
}

#[test]
fn directions() {
    assert_eq!(get_pin_type(&path(&["input"]), None), Ok(PinKind::Input));
    assert_eq!(get_pin_type(&path(&["output"]), None), Ok(PinKind::Output));
    assert_eq!(get_pin_type(&path(&["x", "output"]), None), Ok(PinKind::Output));
    assert_eq!(
        get_pin_type(&path(&["io"]), Some(&path(&["latch"]))),
        Ok(PinKind::IO("latch".to_string()))
    );
    assert_eq!(get_pin_type(&path(&["io"]), None), Err(AttrError::InvalidLatch));
    assert_eq!(get_pin_type(&path(&["io"]), Some(&path(&["a", "b"]))), Err(AttrError::InvalidLatch));
    assert_eq!(get_pin_type(&path(&["io"]), Some(&AttrArg::Other)), Err(AttrError::InvalidLatch));
    assert_eq!(get_pin_type(&path(&["inout"]), None), Err(AttrError::InvalidPinAttr));
    assert_eq!(get_pin_type(&path(&[]), None), Err(AttrError::InvalidPinAttr));
    assert_eq!(get_pin_type(&AttrArg::Other, None), Err(AttrError::InvalidPinAttr));
    assert_eq!(PinKind::IO("l".to_string()).name(), "IO");
    assert_eq!(PinKind::Input.name(), "Input");
    assert_eq!(PinKind::Output.name(), "Output");
}

#[test]
fn tristatable_types() {
    assert!(pin_is_tristatable(&strings(&["Option"])));
    assert!(pin_is_tristatable(&strings(&["option", "Option"])));
    assert!(pin_is_tristatable(&strings(&["std", "option", "Option"])));
    assert!(pin_is_tristatable(&strings(&["std", "option", "Option", "more"])));
    assert!(!pin_is_tristatable(&strings(&["core", "option", "Option"])));
    assert!(!pin_is_tristatable(&strings(&["Option", "x"])));
    assert!(!pin_is_tristatable(&strings(&["u8"])));
    assert!(!pin_is_tristatable(&strings(&[])));
}

#[test]
fn pins_of_fields() {
    let fields = vec![
        FieldDecl {
            name: "a".to_string(),
            args: vec![path(&["input"])],
            type_path: strings(&["u8"]),
            type_text: "u8".to_string(),
        },
        FieldDecl {
            name: "d".to_string(),
            args: vec![path(&["io"]), path(&["d_in"])],
            type_path: strings(&["Option"]),
            type_text: "Option < u8 >".to_string(),
        },
    ];
    assert_eq!(
        get_pin_metadata(&fields),
        Ok(vec![
            PinDecl {
                name: "a".to_string(),
                pin_type: PinKind::Input,
                data_type: "u8".to_string(),
                tristatable: false
            },
            PinDecl {
                name: "d".to_string(),
                pin_type: PinKind::IO("d_in".to_string()),
                data_type: "Option < u8 >".to_string(),
                tristatable: true
            },
        ])
    );
    assert_eq!(get_pin_metadata(&vec![]), Ok(vec![]));
    let bad = vec![
        FieldDecl {
            name: "a".to_string(),
            args: vec![path(&["io"])],
            type_path: strings(&["u8"]),
            type_text: "u8".to_string(),
        },
        FieldDecl {
            name: "b".to_string(),
            args: vec![],
            type_path: strings(&["u8"]),
            type_text: "u8".to_string(),
        },
    ];
    assert_eq!(get_pin_metadata(&bad), Err(AttrError::InvalidLatch));
    assert_eq!(get_pin_metadata(&bad[1..].iter().map(|f| FieldDecl {
        name: f.name.clone(),
        args: vec![],
        type_path: f.type_path.clone(),
        type_text: f.type_text.clone(),
    }).collect()), Err(AttrError::InvalidPinAttr));
}
