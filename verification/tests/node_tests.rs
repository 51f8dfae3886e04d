use kaitai::pt::ParamType;
use kaitai::{
    decode_string, downcast, read_into, read_root, BytesReader, KError, KResult, KStream, KStruct,
    KStructUnit, Needed, SharedType,
};
use std::cell::RefCell;
use std::ops::{Deref, DerefMut};
use std::rc::Rc;

#[derive(Default, Debug)]
struct Intval {
    value: RefCell<u16>,
    parent_code: RefCell<String>,
}

impl KStruct for Intval {
    type Root = Switch;
    type Parent = Opcode;

    fn read<'a, S: KStream<'a>>(
        self_rc: &Rc<Self>,
        io: &mut S,
        _root: SharedType<Switch>,
        parent: SharedType<Opcode>,
    ) -> KResult<()> {
        *self_rc.value.borrow_mut() = io.read_u2le()?;
        *self_rc.parent_code.borrow_mut() = parent.get().code.borrow().clone();
        Ok(())
    }
}

#[derive(Default, Debug)]
struct Strval {
    value: RefCell<String>,
}

impl KStruct for Strval {
    type Root = Switch;
    type Parent = Opcode;

    fn read<'a, S: KStream<'a>>(
        self_rc: &Rc<Self>,
        io: &mut S,
        _root: SharedType<Switch>,
        _parent: SharedType<Opcode>,
    ) -> KResult<()> {
        let len = io.read_u1()? as usize;
        *self_rc.value.borrow_mut() = decode_string(io.read_bytes(len)?, "ASCII")?;
        Ok(())
    }
}

#[derive(Default, Debug)]
struct Noneval {
    filler: RefCell<u16>,
}

impl KStruct for Noneval {
    type Root = Switch;
    type Parent = Opcode;

    fn read<'a, S: KStream<'a>>(
        self_rc: &Rc<Self>,
        io: &mut S,
        _root: SharedType<Switch>,
        _parent: SharedType<Opcode>,
    ) -> KResult<()> {
        *self_rc.filler.borrow_mut() = io.read_u2le()?;
        Ok(())
    }
}

#[derive(Debug)]
enum Body {
    Intval(Rc<Intval>),
    Strval(Rc<Strval>),
    Noneval(Rc<Noneval>),
}

#[derive(Default, Debug)]
struct Opcode {
    code: RefCell<String>,
    body: RefCell<Option<Body>>,
    seen_before: RefCell<usize>,
}

impl KStruct for Opcode {
    type Root = Switch;
    type Parent = Switch;

    fn read<'a, S: KStream<'a>>(
        self_rc: &Rc<Self>,
        io: &mut S,
        root: SharedType<Switch>,
        parent: SharedType<Switch>,
    ) -> KResult<()> {
        *self_rc.seen_before.borrow_mut() = parent.get().opcodes.borrow().len();
        *self_rc.code.borrow_mut() = decode_string(io.read_bytes(1)?, "ASCII")?;
        let me = SharedType::new(self_rc.clone());
        let has_default = *root.get().default_body.borrow();
        let code = self_rc.code.borrow().clone();
        let body = match code.as_str() {
            "I" => Some(Body::Intval(read_into::<S, Intval>(io, root.clone(), me)?)),
            "S" => Some(Body::Strval(read_into::<S, Strval>(io, root.clone(), me)?)),
            _ if has_default => Some(Body::Noneval(read_into::<S, Noneval>(io, root.clone(), me)?)),
            _ => None,
        };
        *self_rc.body.borrow_mut() = body;
        Ok(())
    }
}

#[derive(Default, Debug)]
struct Switch {
    default_body: RefCell<bool>,
    opcodes: RefCell<Vec<Rc<Opcode>>>,
}

impl KStruct for Switch {
    type Root = Switch;
    type Parent = Switch;

    fn read<'a, S: KStream<'a>>(
        self_rc: &Rc<Self>,
        io: &mut S,
        root: SharedType<Switch>,
        parent: SharedType<Switch>,
    ) -> KResult<()> {
        assert!(Rc::ptr_eq(&root.get(), self_rc));
        assert!(Rc::ptr_eq(&parent.get(), self_rc));
        *self_rc.default_body.borrow_mut() = io.read_u1()? != 0;
        while !io.is_eof() {
            let op = read_into::<S, Opcode>(io, root.clone(), SharedType::new(self_rc.clone()))?;
            self_rc.opcodes.borrow_mut().push(op);
        }
        Ok(())
    }
}

#[test]
fn switch_manual_str_tests_basic_parse() {
    let bytes = b"\x00S\x06foobarI\x42\x00I\x37\x00S\x00".to_vec();
    let mut reader = BytesReader::new(&bytes);
    let res = read_root::<BytesReader, Switch>(&mut reader);
    println!("{:?}", res);
    assert!(res.is_ok());
    let test = res.unwrap();
    let opcodes = test.opcodes.borrow();

    assert_eq!(4, opcodes.len());

    assert_eq!("S", opcodes[0].code.borrow().as_str());
    if let Body::Strval(s) = opcodes[0].body.borrow().as_ref().unwrap() {
        assert_eq!("foobar", s.value.borrow().as_str());
    } else {
        panic!("expected enum SwitchManualStr_Opcode_Strval");
    }

    assert_eq!("I", opcodes[1].code.borrow().as_str());
    if let Body::Intval(s) = opcodes[1].body.borrow().as_ref().unwrap() {
        assert_eq!(66, *s.value.borrow());
        assert_eq!("I", s.parent_code.borrow().as_str());
    } else {
        panic!("expected enum SwitchManualStr_Opcode_Intval");
    }

    assert_eq!("I", opcodes[2].code.borrow().as_str());
    if let Body::Intval(s) = opcodes[2].body.borrow().as_ref().unwrap() {
        assert_eq!(55, *s.value.borrow());
    } else {
        panic!("expected enum SwitchManualStr_Opcode_Intval");
    }

    assert_eq!("S", opcodes[3].code.borrow().as_str());
    if let Body::Strval(s) = opcodes[3].body.borrow().as_ref().unwrap() {
        assert_eq!("", s.value.borrow().as_str());
    } else {
        panic!("expected enum SwitchManualStr_Opcode_Strval");
    }

    for (i, op) in opcodes.iter().enumerate() {
        assert_eq!(i, *op.seen_before.borrow());
    }
    assert!(reader.is_eof());
}

#[test]
fn switch_manual_str_else_tests_basic_parse() {
    let bytes = b"\x01S\x03fooX\x42\x00Y\xFE\xCAI\x07\x00".to_vec();
    let mut reader = BytesReader::new(&bytes);
    let res = read_root::<BytesReader, Switch>(&mut reader);
    println!("{:?}", res);
    assert!(res.is_ok());
    let test = res.unwrap();
    let opcodes = test.opcodes.borrow();

    assert_eq!(4, opcodes.len());

    assert_eq!("S", opcodes[0].code.borrow().as_str());
    if let Body::Strval(s) = opcodes[0].body.borrow().as_ref().unwrap() {
        assert_eq!("foo", s.value.borrow().as_str());
    } else {
        panic!("expected enum SwitchManualStrElse_Opcode_Strval");
    }

    assert_eq!("X", opcodes[1].code.borrow().as_str());
    if let Body::Noneval(s) = opcodes[1].body.borrow().as_ref().unwrap() {
        assert_eq!(66, *s.filler.borrow());
    } else {
        panic!("expected enum SwitchManualStrElse_Opcode_Noneval");
    }

    assert_eq!("Y", opcodes[2].code.borrow().as_str());
    if let Body::Noneval(s) = opcodes[2].body.borrow().as_ref().unwrap() {
        assert_eq!(51966, *s.filler.borrow());
    } else {
        panic!("expected enum SwitchManualStrElse_Opcode_Noneval");
    }

    assert_eq!("I", opcodes[3].code.borrow().as_str());
    if let Body::Intval(s) = opcodes[3].body.borrow().as_ref().unwrap() {
        assert_eq!(7, *s.value.borrow());
    } else {
        panic!("expected enum SwitchManualStrElse_Opcode_Strval");
    };
}

#[test]
fn failed_child_read_surfaces_unchanged() {
    let bytes = b"\x00S\x06foo".to_vec();
    let mut reader = BytesReader::new(&bytes);
    let res = read_root::<BytesReader, Switch>(&mut reader);
    assert_eq!(res.err(), Some(KError::Incomplete(Needed::Size(3))));
}

#[test]
fn unit_node_reads_nothing() {
    let bytes = [1u8, 2, 3];
    let mut reader = BytesReader::new(&bytes);
    let unit = read_root::<BytesReader, KStructUnit>(&mut reader).unwrap();
    assert_eq!(*unit, KStructUnit::default());
    assert_eq!(reader.pos(), 0);
    let again = read_into::<BytesReader, KStructUnit>(
        &mut reader,
        SharedType::new(unit.clone()),
        SharedType::new(unit),
    );
    assert!(again.is_ok());
    assert_eq!(reader.pos(), 0);
}

#[test]
fn downcast_prefers_the_handle_given() {
    let own = Rc::new(5u32);
    let given = Rc::new(9u32);
    let kept = downcast(Some(SharedType::new(given.clone())), own.clone());
    assert!(Rc::ptr_eq(&kept.get(), &given));
    let made = downcast(None, own.clone());
    assert!(Rc::ptr_eq(&made.get(), &own));
    let empty = downcast(Some(SharedType::<u32>::default()), own);
    assert!(!empty.is_set());
}

#[test]
fn shared_handle_binds_late() {
    let mut handle: SharedType<String> = SharedType::default();
    assert!(!handle.is_set());
    handle.set(Rc::new("first".to_string()));
    assert!(handle.is_set());
    assert_eq!(handle.get().as_str(), "first");
    let copy = handle.clone();
    assert!(Rc::ptr_eq(&copy.get(), &handle.get()));
    handle.set(Rc::new("second".to_string()));
    assert_eq!(handle.get().as_str(), "second");
    assert_eq!(copy.get().as_str(), "first");
}

#[test]
fn shared_handle_does_not_copy_the_value() {
    let rc = Rc::new(vec![1u8, 2, 3]);
    let handle = SharedType::new(rc.clone());
    assert!(Rc::ptr_eq(&handle.get(), &rc));
    assert_eq!(Rc::strong_count(&rc), 2);
}

#[test]
fn param_cell_reads_and_writes() {
    let mut cell = ParamType::new(3u8);
    assert_eq!(*cell.borrow().deref(), Some(3));
    {
        let mut m = cell.borrow_mut();
        assert_eq!(*m.deref(), Some(3));
        *m.deref_mut() = Some(4);
    }
    assert_eq!(*cell, Some(4));
    *cell = None;
    assert_eq!(*cell.borrow(), None);
    let empty: ParamType<u8> = ParamType::default();
    assert_eq!(*empty, None);
}
