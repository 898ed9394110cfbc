use wordasm::assemble::{addresses_in_range, Code, CodeInfo, CodeObject, CompileError, IArg};

fn info() -> CodeInfo {
    CodeInfo { opcode_size: 8, address_size: 16 }
}

fn ins(idef: usize, args: Vec<u64>) -> CodeObject {
    CodeObject::Instruction { idef, args: args.into_iter().map(IArg::Raw).collect() }
}

fn label(s: &str) -> CodeObject {
    CodeObject::LabelTag(s.to_string())
}

fn labels(c: &Code) -> Vec<(String, u64)> {
    c.label_table.clone()
}

#[test]
fn assembler_example_a() {
    let objs = vec![
        CodeObject::AddressTag(0),
        label("start"),
        ins(0, vec![0b11, 0b00]),
        ins(1, vec![0xdead]),
        CodeObject::RawData(0xad),
    ];
    assert!(addresses_in_range(&objs));
    let c = match Code::new(info(), objs) {
        Ok(c) => c,
        Err(_) => panic!("example A must assemble"),
    };
    assert_eq!(c.addr_image, vec![0, 0, 0, 1, 2]);
    assert_eq!(labels(&c), vec![("start".to_string(), 0)]);
    assert_eq!(c.code.len(), 5);
    assert_eq!(c.info.opcode_size, 8);
    assert_eq!(c.info.address_size, 16);
}

#[test]
fn assembler_example_b() {
    let objs = vec![
        CodeObject::AddressTag(0),
        label("start"),
        ins(0, vec![0b11, 0b00]),
        ins(1, vec![0xdead]),
        label("another"),
        CodeObject::RawData(0xad),
    ];
    let c = match Code::new(info(), objs) {
        Ok(c) => c,
        Err(_) => panic!("example B must assemble"),
    };
    assert_eq!(c.addr_image, vec![0, 0, 0, 1, 2, 2]);
    assert_eq!(labels(&c), vec![("start".to_string(), 0), ("another".to_string(), 2)]);
}

#[test]
fn address_tag_takes_effect_after_itself() {
    let objs = vec![
        CodeObject::AddressTag(0x10),
        CodeObject::RawData(1),
        CodeObject::AddressTag(0x80),
        label("high"),
        CodeObject::RawData(2),
        label("end"),
    ];
    let c = match Code::new(info(), objs) {
        Ok(c) => c,
        Err(_) => panic!("must assemble"),
    };
    assert_eq!(c.addr_image, vec![0x10, 0x10, 0x11, 0x80, 0x80, 0x81]);
    assert_eq!(labels(&c), vec![("high".to_string(), 0x80), ("end".to_string(), 0x81)]);
}

#[test]
fn duplicate_label_is_rejected() {
    let objs = vec![
        CodeObject::AddressTag(0),
        label("loop"),
        CodeObject::RawData(1),
        CodeObject::AddressTag(0x40),
        label("other"),
        label("loop"),
    ];
    match Code::new(info(), objs) {
        Err(CompileError::DuplicateLabel(n)) => assert_eq!(n, "loop"),
        _ => panic!("expected a duplicate label"),
    }
}

#[test]
fn duplicate_label_at_same_address_is_rejected() {
    let objs = vec![CodeObject::AddressTag(5), label("x"), label("x")];
    match Code::new(info(), objs) {
        Err(CompileError::DuplicateLabel(n)) => assert_eq!(n, "x"),
        _ => panic!("expected a duplicate label"),
    }
}

#[test]
fn first_repeated_label_is_reported() {
    let objs = vec![
        CodeObject::AddressTag(0),
        label("a"),
        label("b"),
        label("b"),
        label("a"),
    ];
    match Code::new(info(), objs) {
        Err(CompileError::DuplicateLabel(n)) => assert_eq!(n, "b"),
        _ => panic!("expected a duplicate label"),
    }
}

#[test]
fn missing_leading_address_tag_is_rejected() {
    let cases = vec![
        vec![label("start"), CodeObject::AddressTag(0)],
        vec![CodeObject::RawData(1)],
        vec![ins(0, vec![1]), CodeObject::AddressTag(0)],
        vec![label("x"), label("x")],
        Vec::new(),
    ];
    for objs in cases {
        assert!(addresses_in_range(&objs));
        match Code::new(info(), objs) {
            Err(CompileError::StartWithAddressTag) => {}
            _ => panic!("expected a missing address tag"),
        }
    }
}

#[test]
fn label_access_arguments_are_carried() {
    let objs = vec![
        CodeObject::AddressTag(0),
        CodeObject::Instruction {
            idef: 3,
            args: vec![IArg::LabelAccess { name: "start".to_string(), is_relative: true, offset: -1 }],
        },
    ];
    let c = match Code::new(info(), objs) {
        Ok(c) => c,
        Err(_) => panic!("must assemble"),
    };
    assert_eq!(c.addr_image, vec![0, 0]);
    assert!(labels(&c).is_empty());
}

#[test]
fn address_overflow_is_detected() {
    let objs = vec![CodeObject::AddressTag(u64::MAX), CodeObject::RawData(0)];
    assert!(!addresses_in_range(&objs));
    let objs = vec![CodeObject::AddressTag(u64::MAX), label("top")];
    assert!(addresses_in_range(&objs));
    let objs = vec![CodeObject::AddressTag(u64::MAX - 1), CodeObject::RawData(0)];
    assert!(addresses_in_range(&objs));
}

#[test]
fn label_lookup_by_name() {
    let objs = vec![
        CodeObject::AddressTag(0x20),
        label("start"),
        CodeObject::RawData(1),
        CodeObject::RawData(2),
        label("another"),
    ];
    let c = match Code::new(info(), objs) {
        Ok(c) => c,
        Err(_) => panic!("must assemble"),
    };
    assert_eq!(c.label_address(&"start".to_string()), Some(0x20));
    assert_eq!(c.label_address(&"another".to_string()), Some(0x22));
    assert_eq!(c.label_address(&"missing".to_string()), None);
}
