use chiseltrace_rs::typed::{
    convert_kind2info, fits, select_field, split_bits, translate_variable, value_text,
    TranslationResult, TypedKind, TypedVariable, ValueKind, VariableInfo,
};

fn ground(name: &str, tpe: &str, width: usize) -> TypedVariable {
    TypedVariable {
        name: name.to_string(),
        tpe: tpe.to_string(),
        kind: TypedKind::Ground,
        width,
        fields: vec![],
    }
}

fn bundle(name: &str, tpe: &str, kind: TypedKind, fields: Vec<TypedVariable>) -> TypedVariable {
    let width = fields.iter().map(|f| f.width).sum();
    TypedVariable { name: name.to_string(), tpe: tpe.to_string(), kind, width, fields }
}

fn path(parts: &[&str]) -> Vec<String> {
    parts.iter().map(|p| p.to_string()).collect()
}

fn io() -> TypedVariable {
    bundle(
        "io",
        "AluIO",
        TypedKind::Struct,
        vec![
            ground("a", "UInt<4>", 4),
            bundle(
                "pair",
                "Vec<Bool>",
                TypedKind::Vector,
                vec![ground("0", "Bool", 1), ground("1", "Bool", 1)],
            ),
            ground("out", "SInt<3>", 3),
            ground("a", "UInt<2>", 2),
        ],
    )
}

#[test]
fn bits_are_split_at_the_width() {
    assert_eq!(split_bits("101100", 4), ("1011".to_string(), "00".to_string()));
    assert_eq!(split_bits("1011", 4), ("1011".to_string(), "".to_string()));
    assert_eq!(split_bits("1011", 0), ("".to_string(), "1011".to_string()));
    // A value that is too short gives a single zero and stays whole.
    assert_eq!(split_bits("101", 4), ("0".to_string(), "101".to_string()));
    assert_eq!(split_bits("", 1), ("0".to_string(), "".to_string()));
}

#[test]
fn a_value_without_fields_is_its_own_field() {
    let v = ground("x", "UInt<4>", 4);
    let c = select_field(&v, "1010", &path(&[""])).unwrap();
    assert!(c.route.is_empty());
    assert_eq!(c.raw, "1010");
    assert_eq!(c.tpe, None);
    assert_eq!(value_text(&c, "1010"), "1010");
    // Whatever the path says.
    let c = select_field(&v, "1010", &path(&["a", "b"])).unwrap();
    assert_eq!(c.raw, "1010");
    let c = select_field(&v, "1010", &path(&[])).unwrap();
    assert_eq!(c.raw, "1010");
}

#[test]
fn a_field_gets_its_bits_and_its_type() {
    let v = io();
    let c = select_field(&v, "1010011110", &path(&["a"])).unwrap();
    assert_eq!(c.route, vec![0]);
    assert_eq!(c.raw, "1010");
    assert_eq!(c.tpe, Some("UInt<4>".to_string()));
    assert_eq!(value_text(&c, "1010"), "UInt<4> 1010");
    let c = select_field(&v, "1010011110", &path(&["out"])).unwrap();
    assert_eq!(c.route, vec![2]);
    assert_eq!(c.raw, "111");
    let c = select_field(&v, "1010011110", &path(&["pair", "1"])).unwrap();
    assert_eq!(c.route, vec![1, 1]);
    assert_eq!(c.raw, "1");
    assert_eq!(c.tpe, Some("Bool".to_string()));
    let c = select_field(&v, "1010011110", &path(&["pair", "0"])).unwrap();
    assert_eq!(c.route, vec![1, 0]);
    assert_eq!(c.raw, "0");
}

#[test]
fn a_value_that_ends_early_gives_zeros() {
    let v = io();
    // Five bits: the first field takes four, the pair finds one bit and gets a zero.
    let c = select_field(&v, "10101", &path(&["pair", "1"])).unwrap();
    assert_eq!(c.raw, "0");
    let c = select_field(&v, "10101", &path(&["out"])).unwrap();
    assert_eq!(c.raw, "0");
    let c = select_field(&v, "101", &path(&["a"])).unwrap();
    assert_eq!(c.raw, "0");
}

#[test]
fn a_path_that_names_no_field_chooses_nothing() {
    let v = io();
    assert!(select_field(&v, "1010011110", &path(&["b"])).is_none());
    assert!(select_field(&v, "1010011110", &path(&[""])).is_none());
    assert!(select_field(&v, "1010011110", &path(&[])).is_none());
    assert!(select_field(&v, "1010011110", &path(&["pair"])).is_none());
    assert!(select_field(&v, "1010011110", &path(&["pair", "2"])).is_none());
    let mut odd = ground("x", "Clock", 1);
    odd.kind = TypedKind::Other;
    assert!(select_field(&odd, "1", &path(&[""])).is_none());
    let holder = bundle("h", "H", TypedKind::Struct, vec![odd]);
    assert!(select_field(&holder, "1", &path(&["x"])).is_none());
}

fn shape(r: &TranslationResult) -> String {
    let inner: Vec<String> =
        r.subfields.iter().map(|s| format!("{}={}", s.name, shape(&s.result))).collect();
    format!("{}{:?}[{}]", r.val, r.kind, inner.join(","))
}

#[test]
fn a_value_is_read_with_all_its_fields() {
    let v = io();
    assert!(fits(&v, "10100111110"));
    let r = translate_variable(&v, "10100111110");
    assert_eq!(r.val, "10100111110");
    assert_eq!(r.kind, ValueKind::Normal);
    let names: Vec<&str> = r.subfields.iter().map(|s| s.name.as_str()).collect();
    assert_eq!(names, vec!["UInt<4>: a", "Vec<Bool>: pair", "SInt<3>: out", "UInt<2>: a"]);
    assert_eq!(
        shape(&r),
        "10100111110Normal[\
         UInt<4>: a=1010Normal[0=1Normal[],1=0Normal[],2=1Normal[],3=0Normal[]],\
         Vec<Bool>: pair=01Normal[Bool: 0=0Normal[],Bool: 1=1Normal[]],\
         SInt<3>: out=111Normal[0=1Normal[],1=1Normal[],2=1Normal[]],\
         UInt<2>: a=10Normal[0=1Normal[],1=0Normal[]]]"
    );
}

#[test]
fn one_bit_has_no_fields_and_an_unknown_kind_is_undefined() {
    let bit = ground("b", "Bool", 1);
    assert_eq!(shape(&translate_variable(&bit, "1")), "1Normal[]");
    assert_eq!(shape(&translate_variable(&bit, "10")), "10Normal[]");
    let none = ground("n", "UInt<0>", 0);
    assert_eq!(shape(&translate_variable(&none, "")), "Normal[]");
    let mut odd = ground("x", "Clock", 1);
    odd.kind = TypedKind::Other;
    assert!(fits(&odd, ""));
    assert_eq!(shape(&translate_variable(&odd, "zz")), "zzUndef[]");
}

#[test]
fn too_few_bits_do_not_fit() {
    let v = io();
    assert!(!fits(&v, "1010011110"));
    assert!(!fits(&v, ""));
    assert!(fits(&v, "10100111101"));
    assert!(!fits(&ground("a", "UInt<4>", 4), "101"));
    assert!(fits(&ground("a", "UInt<4>", 4), "1011"));
    // A field that gets a single zero for want of bits is one bit wide or does not fit.
    let pair = bundle(
        "p",
        "P",
        TypedKind::Struct,
        vec![ground("a", "Bool", 1), ground("b", "Bool", 1)],
    );
    assert!(fits(&pair, "1"));
    assert_eq!(shape(&translate_variable(&pair, "1")), "1Normal[Bool: a=1Normal[],Bool: b=0Normal[]]");
}

fn kinds(info: &VariableInfo) -> String {
    match info {
        VariableInfo::Compound { subfields } => {
            let inner: Vec<String> =
                subfields.iter().map(|(n, i)| format!("{}={}", n, kinds(i))).collect();
            format!("[{}]", inner.join(","))
        }
        other => format!("{:?}", other),
    }
}

#[test]
fn the_kind_of_a_value_follows_its_fields() {
    assert_eq!(kinds(&convert_kind2info(&ground("b", "Bool", 1))), "Bool");
    assert_eq!(kinds(&convert_kind2info(&ground("a", "UInt<2>", 2))), "[0=Bool,1=Bool]");
    assert_eq!(kinds(&convert_kind2info(&ground("a", "UInt<0>", 0))), "[]");
    let mut odd = ground("x", "Clock", 1);
    odd.kind = TypedKind::Other;
    assert_eq!(kinds(&convert_kind2info(&odd)), "String");
    assert_eq!(
        kinds(&convert_kind2info(&io())),
        "[UInt<4>: a=[0=Bool,1=Bool,2=Bool,3=Bool],\
         Vec<Bool>: pair=[Bool: 0=Bool,Bool: 1=Bool],\
         SInt<3>: out=[0=Bool,1=Bool,2=Bool],\
         UInt<2>: a=[0=Bool,1=Bool]]"
    );
    assert_eq!(kinds(&VariableInfo::default()), "String");
}
