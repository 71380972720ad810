use compromise::eval::Eval;
use compromise::slop::{FromSlop, IntoSlop};
use compromise::zz_slop;

#[derive(Debug, PartialEq)]
struct Inner(u32);

#[derive(Debug, PartialEq)]
struct Outer(u32);

impl FromSlop<Inner> for Outer {
    fn from_slop(value: Inner) -> Self {
        Outer(value.0 + 1)
    }
}

#[test]
fn into_slop_is_from_slop() {
    let outer: Outer = Inner(1).into_slop();
    assert_eq!(outer, Outer(2));
}

#[test]
fn containers_convert_element_by_element() {
    assert_eq!(Option::<Outer>::from_slop(Some(Inner(4))), Some(Outer(5)));
    assert_eq!(Option::<Outer>::from_slop(None), None);
    assert_eq!(Result::<Outer, &str>::from_slop(Ok(Inner(7))), Ok(Outer(8)));
    assert_eq!(Result::<Outer, &str>::from_slop(Err("no")), Err("no"));
    assert_eq!(
        Vec::<Outer>::from_slop(vec![Inner(1), Inner(2), Inner(3)]),
        vec![Outer(2), Outer(3), Outer(4)]
    );
    assert_eq!(Vec::<Outer>::from_slop(Vec::new()), Vec::new());
    assert_eq!(Box::<Outer>::from_slop(Box::new(Inner(9))), Box::new(Outer(10)));
    assert_eq!(<[Outer; 3]>::from_slop([Inner(0), Inner(10), Inner(20)]), [Outer(1), Outer(11), Outer(21)]);
    let nested: Option<Result<Vec<Box<Outer>>, &str>> =
        Some(Ok(vec![Box::new(Inner(41))])).into_slop();
    assert_eq!(nested, Some(Ok(vec![Box::new(Outer(42))])));
}

#[test]
fn an_evaluator_converts_to_its_backing_state_and_back() {
    let mut eval = Eval::new();
    assert_eq!(eval.eval_str("x = 41"), Ok(None));
    let mut backing: zz_slop::eval::Eval = eval.into_slop();
    assert_eq!(zz_slop::eval::eval_str(&mut backing, "x + 1"), Ok(Some(42)));
    let mut back = Eval::from_slop(backing);
    assert_eq!(back.eval_str("x"), Ok(Some(41)));
    let borrowed: &zz_slop::eval::Eval = (&back).into_slop();
    let _ = borrowed;
    let inner: &mut zz_slop::eval::Eval = (&mut back).into_slop();
    assert_eq!(zz_slop::eval::eval_str(inner, "y = x + 1"), Ok(None));
    assert_eq!(back.eval_str("y"), Ok(Some(42)));
}
