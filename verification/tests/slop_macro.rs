use compromise::slop_macro::delegating::{
    facade_path, generate, module_for, slop_path, source_module, with_lifetime, Argument,
    FoundCrate, Generated, Generator,
};
use compromise::slop_macro::frontend::{
    analyze_signature, parse_item, self_usage, GenericParamShape, ImplMemberShape, InputShape,
    ItemShape, ParsedItem, PatShape, ReceiverShape, SegmentShape, SelfUsage, SignatureShape,
    TypeShape,
};
use compromise::slop_macro::reader::{check_arguments, parse, read_item};
use compromise::slop_macro::panicking::{
    body, generate as generate_panicking, marker_type, panic_message, Marker, PanicItem, Use,
};

fn generator(file: &str, found: FoundCrate) -> Generator {
    Generator { module: source_module(file).unwrap(), facade: facade_path(&found) }
}

fn unit_struct(name: &str, generics: Vec<GenericParamShape>) -> ItemShape {
    ItemShape::Struct { name: name.to_string(), generics, unit: true }
}

fn segment(name: &str, arguments: Vec<TypeShape>) -> SegmentShape {
    SegmentShape { name: name.to_string(), arguments }
}

fn self_ty() -> TypeShape {
    TypeShape::Path { qself: None, segments: vec![segment("Self", vec![])] }
}

fn reference(t: TypeShape) -> TypeShape {
    TypeShape::Reference(Box::new(t))
}

fn path(args: Vec<TypeShape>) -> TypeShape {
    TypeShape::Path { qself: None, segments: vec![segment("Vec", args)] }
}

fn ident(name: &str, mutable: bool) -> PatShape {
    PatShape::Ident { name: name.to_string(), by_ref: false, mutable, subpattern: false }
}

fn receiver(reference: bool, mutable: bool) -> InputShape {
    InputShape::Receiver(ReceiverShape { reference, mutable, typed: false })
}

fn arg(name: &str, ty: TypeShape) -> InputShape {
    InputShape::Typed(ident(name, false), ty)
}

fn sig(name: &str, inputs: Vec<InputShape>, output: Option<TypeShape>) -> SignatureShape {
    SignatureShape {
        name: name.to_string(),
        constness: false,
        asyncness: false,
        unsafety: false,
        variadic: false,
        inputs,
        output,
    }
}

#[test]
fn self_is_found_anywhere_in_a_type() {
    assert_eq!(self_usage(&self_ty()), SelfUsage { contains: true, borrowed: false });
    assert_eq!(self_usage(&path(vec![])), SelfUsage { contains: false, borrowed: false });
    // Option<Result<Vec<Box<Self>>, &'static str>>
    let nested = path(vec![path(vec![path(vec![path(vec![self_ty()])]), reference(path(vec![]))])]);
    assert_eq!(self_usage(&nested), SelfUsage { contains: true, borrowed: false });
    // Vec<&Self>
    assert_eq!(
        self_usage(&path(vec![reference(self_ty())])),
        SelfUsage { contains: true, borrowed: true }
    );
}

#[test]
fn signatures_are_checked() {
    let ok = analyze_signature(
        &sig("combine", vec![receiver(true, false), arg("other", reference(self_ty()))], Some(self_ty())),
        true,
    )
    .unwrap();
    assert!(ok.return_contains_self);
    assert_eq!(ok.arguments_containing_self, vec![false, true]);

    let mut variadic = sig("f", vec![], None);
    variadic.variadic = true;
    assert_eq!(analyze_signature(&variadic, false).err(), Some("slop: variadic functions are not supported"));

    assert_eq!(
        analyze_signature(&sig("f", vec![receiver(true, false)], None), false).err(),
        Some("slop: typed receivers are not supported")
    );
    let typed = InputShape::Receiver(ReceiverShape { reference: false, mutable: false, typed: true });
    assert_eq!(
        analyze_signature(&sig("f", vec![typed], None), true).err(),
        Some("slop: typed receivers are not supported")
    );
    assert_eq!(
        analyze_signature(&sig("f", vec![InputShape::Typed(PatShape::Other, path(vec![]))], None), false).err(),
        Some("slop: parameters must use identifier patterns")
    );
    let by_ref = PatShape::Ident { name: "x".to_string(), by_ref: true, mutable: false, subpattern: false };
    assert_eq!(
        analyze_signature(&sig("f", vec![InputShape::Typed(by_ref, path(vec![]))], None), false).err(),
        Some("slop: parameters must use plain identifier patterns")
    );
    assert_eq!(
        analyze_signature(&sig("borrowed", vec![receiver(true, false)], Some(reference(self_ty()))), true).err(),
        Some("slop: return types containing borrowed `Self` are not supported")
    );
    let mut constant = sig("create", vec![arg("value", path(vec![]))], Some(self_ty()));
    constant.constness = true;
    assert_eq!(
        analyze_signature(&constant, true).err(),
        Some("slop: const functions cannot use `Self` conversion traits")
    );
    let mut plain_const = sig("constant", vec![arg("value", path(vec![]))], Some(path(vec![])));
    plain_const.constness = true;
    assert!(analyze_signature(&plain_const, false).is_ok());
}

#[test]
fn the_first_failing_check_is_reported() {
    let mut s = sig("f", vec![InputShape::Typed(PatShape::Other, path(vec![]))], Some(reference(self_ty())));
    assert_eq!(analyze_signature(&s, false).err(), Some("slop: parameters must use identifier patterns"));
    s.variadic = true;
    assert_eq!(analyze_signature(&s, false).err(), Some("slop: variadic functions are not supported"));
}

#[test]
fn module_names() {
    assert_eq!(module_for(Some("lib.rs".into()), Some("src".into()), Some("lib".into())), Ok(None));
    assert_eq!(module_for(Some("main.rs".into()), None, Some("main".into())), Ok(None));
    assert_eq!(module_for(Some("eval.rs".into()), Some("src".into()), Some("eval".into())), Ok(Some("eval".to_string())));
    assert_eq!(module_for(Some("mod.rs".into()), Some("nested".into()), Some("mod".into())), Ok(Some("nested".to_string())));
    assert_eq!(module_for(Some("type.rs".into()), None, Some("type".into())), Ok(Some("r#type".to_string())));
    assert_eq!(
        module_for(Some("self.rs".into()), None, Some("self".into())),
        Err("`self` cannot be used as a `zz_slop` module name".to_string())
    );
    assert_eq!(module_for(None, None, None), Err("`slop` could not derive a filename".to_string()));
    assert_eq!(
        module_for(Some("mod.rs".into()), None, Some("mod".into())),
        Err("`slop` could not derive a module name".to_string())
    );
    assert_eq!(source_module("example/src/parser.rs"), Ok(Some("parser".to_string())));
    assert_eq!(source_module("example/src/zz_slop/mod.rs"), Ok(Some("zz_slop".to_string())));
    assert_eq!(source_module("src/main.rs"), Ok(None));
    assert_eq!(source_module("tests/runtime.rs"), Ok(Some("runtime".to_string())));
}

#[test]
fn paths() {
    assert_eq!(slop_path(Some("eval")), "crate::zz_slop::eval");
    assert_eq!(slop_path(None), "crate::zz_slop");
    assert_eq!(facade_path(&FoundCrate::Itself), "::compromise");
    assert_eq!(facade_path(&FoundCrate::Name("my-facade-crate".to_string())), "::my_facade_crate");
}

#[test]
fn fresh_lifetimes() {
    let (params, name) = with_lifetime(&vec![], "__slop");
    assert_eq!(name, "__slop");
    assert_eq!(params.len(), 1);
    let generics = vec![
        GenericParamShape::Lifetime("__slop".to_string()),
        GenericParamShape::Type("T".to_string()),
        GenericParamShape::Lifetime("__slop_".to_string()),
        GenericParamShape::Const("N".to_string()),
    ];
    let (params, name) = with_lifetime(&generics, "__slop");
    assert_eq!(name, "__slop__");
    assert_eq!(params.len(), 5);
    assert!(matches!(&params[0], GenericParamShape::Lifetime(n) if n == "__slop__"));
    assert!(matches!(&params[2], GenericParamShape::Type(n) if n == "T"));
    // A type parameter of the same name does not count.
    let (_, name) = with_lifetime(&vec![GenericParamShape::Type("a".to_string())], "a");
    assert_eq!(name, "a");
}

#[test]
fn delegating_bodies() {
    let generator = generator("nested/src/zz_slop/mod.rs", FoundCrate::Itself);
    assert_eq!(generator.module.as_deref(), Some("zz_slop"));
    let s = sig(
        "combine",
        vec![receiver(false, false), receiver(true, false), receiver(true, true), arg("other", self_ty()), arg("n", path(vec![]))],
        Some(path(vec![self_ty()])),
    );
    let analysis = analyze_signature(&s, true).unwrap();
    let d = generator.body(&s, &analysis);
    assert_eq!(d.target, "crate::zz_slop::zz_slop");
    assert_eq!(d.facade, "::compromise");
    assert_eq!(d.name, "combine");
    assert!(d.converted_result);
    assert!(!d.unsafe_block && !d.awaited);
    assert!(matches!(d.arguments[0], Argument::SelfValue));
    assert!(matches!(d.arguments[1], Argument::SelfRef));
    assert!(matches!(d.arguments[2], Argument::SelfMut));
    assert!(matches!(&d.arguments[3], Argument::Converted(n) if n == "other"));
    assert!(matches!(&d.arguments[4], Argument::Plain(n) if n == "n"));
}

#[test]
fn panicking_bodies() {
    let s = sig(
        "mutate",
        vec![receiver(false, true), receiver(true, true), InputShape::Typed(ident("value", true), path(vec![])), arg("x", path(vec![]))],
        None,
    );
    let b = body(&s);
    assert_eq!(b.name, "mutate");
    assert!(matches!(b.uses[0], Use::SelfMut));
    assert!(matches!(b.uses[1], Use::SelfValue));
    assert!(matches!(&b.uses[2], Use::BindingMut(n) if n == "value"));
    assert!(matches!(&b.uses[3], Use::Binding(n) if n == "x"));
    assert_eq!(panic_message("panicking", "free"), "panicking.free");
    let markers = marker_type(&vec![
        GenericParamShape::Lifetime("a".to_string()),
        GenericParamShape::Type("T".to_string()),
        GenericParamShape::Const("N".to_string()),
    ]);
    assert_eq!(markers.len(), 2);
    assert!(matches!(&markers[0], Marker::Lifetime(n) if n == "a"));
    assert!(matches!(&markers[1], Marker::Type(n) if n == "T"));
}

#[test]
fn items_under_the_attribute() {
    let declared = ItemShape::Declaration(sig("add", vec![arg("x", path(vec![])), arg("y", path(vec![]))], Some(path(vec![]))));
    assert!(matches!(parse_item(&declared), Ok(ParsedItem::Function(a)) if a.arguments_containing_self == vec![false, false]));
    assert_eq!(
        parse_item(&ItemShape::FunctionWithBody).err(),
        Some("`slop` functions must be declared without a body, using `;`")
    );
    assert!(matches!(parse_item(&unit_struct("S", vec![])), Ok(ParsedItem::Struct)));
    let with_fields = ItemShape::Struct { name: "S".to_string(), generics: vec![], unit: false };
    assert_eq!(
        parse_item(&with_fields).err(),
        Some("slop: structs must be unit-style forward declarations, using `;`")
    );
    assert_eq!(
        parse_item(&ItemShape::Unparsed).err(),
        Some("`slop` can only annotate a bodyless function, a unit struct, or an impl")
    );
    // A receiver outside an impl block is refused.
    let free_with_self = ItemShape::Declaration(sig("f", vec![receiver(true, false)], None));
    assert_eq!(parse_item(&free_with_self).err(), Some("slop: typed receivers are not supported"));
}

#[test]
fn impl_blocks_under_the_attribute() {
    let methods = ItemShape::Impl(vec![
        ImplMemberShape::Other,
        ImplMemberShape::Declaration(sig("create", vec![arg("value", path(vec![]))], Some(self_ty()))),
        ImplMemberShape::Declaration(sig("value", vec![receiver(true, false)], Some(reference(path(vec![]))))),
    ]);
    match parse_item(&methods) {
        Ok(ParsedItem::Impl(members)) => {
            assert_eq!(members.len(), 3);
            assert!(members[0].is_none());
            assert!(members[1].as_ref().unwrap().return_contains_self);
            assert!(!members[2].as_ref().unwrap().return_contains_self);
        }
        _ => panic!("the impl block was refused"),
    }
    // A method with a body is found while parsing, before any check.
    let with_body = ItemShape::Impl(vec![
        ImplMemberShape::Declaration(sig("borrowed", vec![receiver(true, false)], Some(reference(self_ty())))),
        ImplMemberShape::MethodWithBody,
    ]);
    assert_eq!(
        parse_item(&with_body).err(),
        Some("slop: methods in a `slop` impl must be declared without a body, using `;`")
    );
    let borrowed = ItemShape::Impl(vec![ImplMemberShape::Declaration(sig(
        "borrowed",
        vec![receiver(true, false)],
        Some(reference(self_ty())),
    ))]);
    assert_eq!(
        parse_item(&borrowed).err(),
        Some("slop: return types containing borrowed `Self` are not supported")
    );
    let garbled = ItemShape::Impl(vec![ImplMemberShape::Unparsable]);
    assert_eq!(
        parse_item(&garbled).err(),
        Some("`slop` can only annotate a bodyless function, a unit struct, or an impl")
    );
}

#[test]
fn declared_structs() {
    let runtime = generator("tests/runtime.rs", FoundCrate::Name("compromise".to_string()));
    assert_eq!(runtime.facade, "::compromise");
    let plan = runtime.structure("Container", &vec![GenericParamShape::Type("T".to_string())]);
    assert_eq!(plan.backing, "crate::zz_slop::runtime::Container");
    assert_eq!(plan.lifetime, "__slop");
    assert_eq!(plan.ref_generics.len(), 2);
    let root = generator("src/lib.rs", FoundCrate::Itself);
    let plan = root.structure("Eval", &vec![GenericParamShape::Lifetime("__slop".to_string())]);
    assert_eq!(plan.backing, "crate::zz_slop::Eval");
    assert_eq!(plan.lifetime, "__slop_");
}

#[test]
fn generated_items() {
    let item = ItemShape::Impl(vec![
        ImplMemberShape::Other,
        ImplMemberShape::Declaration(sig("create", vec![arg("value", path(vec![]))], Some(self_ty()))),
    ]);
    let parsed = parse_item(&item).unwrap();
    match generate("nested/runtime.rs", &FoundCrate::Itself, &item, &parsed).unwrap() {
        Generated::Impl(bodies) => {
            assert_eq!(bodies.len(), 2);
            assert!(bodies[0].is_none());
            let d = bodies[1].as_ref().unwrap();
            assert_eq!(d.target, "crate::zz_slop::runtime");
            assert_eq!(d.name, "create");
            assert!(d.converted_result);
            assert!(matches!(&d.arguments[0], Argument::Plain(n) if n == "value"));
        }
        _ => panic!("an impl block generates an impl block"),
    }
    let item = unit_struct("Generic", vec![GenericParamShape::Lifetime("a".to_string()), GenericParamShape::Type("T".to_string()), GenericParamShape::Const("N".to_string())]);
    let parsed = parse_item(&item).unwrap();
    match generate("src/main.rs", &FoundCrate::Itself, &item, &parsed).unwrap() {
        Generated::Struct(plan) => {
            assert_eq!(plan.backing, "crate::zz_slop::Generic");
            assert_eq!(plan.lifetime, "__slop");
        }
        _ => panic!("a struct generates a struct"),
    }
    match generate_panicking(&item, &parsed) {
        PanicItem::Struct(markers) => assert_eq!(markers.len(), 2),
        _ => panic!("a struct generates a struct"),
    }
    let item = ItemShape::Declaration(sig("free", vec![arg("value", path(vec![]))], Some(path(vec![]))));
    let parsed = parse_item(&item).unwrap();
    match generate_panicking(&item, &parsed) {
        PanicItem::Function(b) => {
            assert_eq!(b.name, "free");
            assert!(matches!(&b.uses[0], Use::Binding(n) if n == "value"));
        }
        _ => panic!("a function generates a function"),
    }
    assert!(generate("self.rs", &FoundCrate::Itself, &item, &parsed).is_err());
}

#[test]
fn only_the_bare_self_path_is_self() {
    // crate::Self is no bare `Self`
    let qualified = TypeShape::Path {
        qself: None,
        segments: vec![segment("crate", vec![]), segment("Self", vec![])],
    };
    assert_eq!(self_usage(&qualified), SelfUsage { contains: false, borrowed: false });
    // <&Self as Trait>::Item
    let projection = TypeShape::Path {
        qself: Some(Box::new(reference(self_ty()))),
        segments: vec![segment("Trait", vec![]), segment("Item", vec![])],
    };
    assert_eq!(self_usage(&projection), SelfUsage { contains: true, borrowed: true });
    // Self<T> still counts, its arguments unread
    let generic_self = TypeShape::Path { qself: None, segments: vec![segment("Self", vec![reference(self_ty())])] };
    assert_eq!(self_usage(&generic_self), SelfUsage { contains: true, borrowed: false });
    // a trait bound named like `Self` names no type
    let bound = TypeShape::Other(vec![TypeShape::Bound(vec![segment("Self", vec![])])]);
    assert_eq!(self_usage(&bound), SelfUsage { contains: false, borrowed: false });
}

fn analysis_of_function(source: &str) -> (bool, Vec<bool>) {
    match parse(source) {
        Ok(ParsedItem::Function(a)) => (a.return_contains_self, a.arguments_containing_self),
        _ => panic!("not a function: {}", source),
    }
}

#[test]
fn items_are_read_from_source_text() {
    assert_eq!(analysis_of_function("pub fn add(x: i32, y: i32) -> i32;"), (false, vec![false, false]));
    assert_eq!(
        analysis_of_function("fn build(parts: Vec<Option<Self>>, mut n: usize) -> Result<Self, String>;"),
        (true, vec![true, false])
    );
    assert_eq!(
        analysis_of_function("fn project(x: <Self as Iterator>::Item, f: impl Fn(Self) -> u8);"),
        (false, vec![true, true])
    );
    assert_eq!(
        analysis_of_function("fn iter(v: u8) -> Box<dyn Iterator<Item = Self>>;"),
        (true, vec![false])
    );
    assert_eq!(analysis_of_function("fn each(v: [Self; 3], t: (u8, *const Self));"), (false, vec![true, true]));
    assert_eq!(
        parse("fn add(x: i32) -> i32 { x }").err(),
        Some("`slop` functions must be declared without a body, using `;`")
    );
    assert_eq!(parse("fn f(&self);").err(), Some("slop: typed receivers are not supported"));
    assert_eq!(parse("fn f() -> Vec<&Self>;").err(), Some("slop: return types containing borrowed `Self` are not supported"));
    assert_eq!(parse("fn f((a, b): (u8, u8));").err(), Some("slop: parameters must use identifier patterns"));
    assert_eq!(parse("fn f(ref a: u8);").err(), Some("slop: parameters must use plain identifier patterns"));
    assert_eq!(parse("const fn f(a: Self);").err(), Some("slop: const functions cannot use `Self` conversion traits"));
    assert!(matches!(parse("pub struct Eval;"), Ok(ParsedItem::Struct)));
    assert_eq!(
        parse("struct S { x: u8 }").err(),
        Some("slop: structs must be unit-style forward declarations, using `;`")
    );
    assert_eq!(
        parse("enum E { A }").err(),
        Some("`slop` can only annotate a bodyless function, a unit struct, or an impl")
    );
    match read_item("struct Wrapper<'a, T, const N: usize>;") {
        ItemShape::Struct { name, generics, unit } => {
            assert_eq!(name, "Wrapper");
            assert!(unit);
            assert_eq!(generics.len(), 3);
            assert!(matches!(&generics[0], GenericParamShape::Lifetime(n) if n == "a"));
            assert!(matches!(&generics[1], GenericParamShape::Type(n) if n == "T"));
            assert!(matches!(&generics[2], GenericParamShape::Const(n) if n == "N"));
        },
        _ => panic!("not a struct"),
    }
}

#[test]
fn impl_blocks_are_read_from_source_text() {
    let source = "impl Eval {
        const LIMIT: u8 = 1;
        pub fn new() -> Self;
        pub fn eval_str(&mut self, input: &str) -> Result<Option<i64>, &'static str>;
    }";
    match parse(source) {
        Ok(ParsedItem::Impl(items)) => {
            assert_eq!(items.len(), 3);
            assert!(items[0].is_none());
            let new = items[1].as_ref().unwrap();
            assert!(new.return_contains_self);
            assert!(new.arguments_containing_self.is_empty());
            let eval = items[2].as_ref().unwrap();
            assert!(!eval.return_contains_self);
            assert_eq!(eval.arguments_containing_self, vec![false, false]);
        },
        _ => panic!("not an impl"),
    }
    assert_eq!(
        parse("impl S { fn f(&self) -> u8 { 1 } }").err(),
        Some("slop: methods in a `slop` impl must be declared without a body, using `;`")
    );
    assert_eq!(parse("impl S { fn f(self: Box<Self>); }").err(), Some("slop: typed receivers are not supported"));
    assert!(matches!(parse("impl<T> From<T> for S { fn from(value: T) -> Self; }"), Ok(ParsedItem::Impl(_))));
}

#[test]
fn the_attribute_takes_no_arguments() {
    assert_eq!(check_arguments(""), Ok(()));
    assert_eq!(check_arguments("  \n"), Ok(()));
    assert_eq!(check_arguments("panicking"), Err("`slop` takes no arguments"));
}

#[test]
fn impl_items_are_read_one_at_a_time() {
    assert_eq!(
        parse("impl X { fn a() {} garbage }").err(),
        Some("slop: methods in a `slop` impl must be declared without a body, using `;`")
    );
    assert_eq!(
        parse("impl X { fn a(); garbage }").err(),
        Some("`slop` can only annotate a bodyless function, a unit struct, or an impl")
    );
    assert_eq!(
        parse("impl X { #![allow(dead_code)] fn a(); }").err(),
        Some("`slop` can only annotate a bodyless function, a unit struct, or an impl")
    );
    match parse("impl<'a> Trait<'a> for X where X: Copy { /// doc\n fn f(&'a self, v: Vec<Vec<u8>>) -> Option<Self>; type T = u8; fn g(); }") {
        Ok(ParsedItem::Impl(items)) => {
            assert_eq!(items.len(), 3);
            assert!(items[0].as_ref().unwrap().return_contains_self);
            assert!(items[1].is_none());
            assert!(!items[2].as_ref().unwrap().return_contains_self);
        },
        other => panic!("not an impl: {:?}", other.err()),
    }
    assert!(matches!(read_item("impl X { fn a(); } extra"), ItemShape::Unparsed));
}

#[test]
fn portable_paths_name_their_module() {
    assert_eq!(source_module("/home/u/crate/src/zz_slop/mod.rs"), Ok(Some("zz_slop".to_string())));
    assert_eq!(source_module("/lib.rs"), Ok(None));
    assert_eq!(source_module("eval.rs"), Ok(Some("eval".to_string())));
    assert_eq!(source_module("mod.rs"), Err("`slop` could not derive a module name".to_string()));
    assert_eq!(source_module("/mod.rs"), Err("`slop` could not derive a module name".to_string()));
    assert_eq!(
        source_module("src/file.tar.gz"),
        Err("`file.tar` cannot be used as a `zz_slop` module name".to_string())
    );
    assert_eq!(source_module("src/.hidden"), Err("`.hidden` cannot be used as a `zz_slop` module name".to_string()));
    assert_eq!(source_module("src/match.rs"), Ok(Some("r#match".to_string())));
}
