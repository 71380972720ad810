//! What the `slop` attribute reads of a declaration, and the checks it makes
//! on a signature before generating a body for it.
use vstd::prelude::*;

verus! {

/// A type, as far as the attribute looks into it.
pub enum TypeShape {
    /// A path type: its qualified self type (`<Q as Trait>::Item`), where it
    /// has one, and its segments.
    Path { qself: Option<Box<TypeShape>>, segments: Vec<SegmentShape> },
    /// A reference `&T` or `&mut T`.
    Reference(Box<TypeShape>),
    /// A trait bound of an `impl Trait` or `dyn Trait` type: the segments of
    /// the trait's path, which names no type.
    Bound(Vec<SegmentShape>),
    /// Any other type, with the types written inside it.
    Other(Vec<TypeShape>),
}

/// One segment of a path: its name and the types among its generic arguments.
pub struct SegmentShape {
    pub name: String,
    pub arguments: Vec<TypeShape>,
}

/// Whether `t` mentions `Self`, and whether it does so behind a reference.
#[derive(Debug, PartialEq, Clone, Copy)]
pub struct SelfUsage {
    pub contains: bool,
    pub borrowed: bool,
}

pub open spec fn no_usage() -> SelfUsage {
    SelfUsage { contains: false, borrowed: false }
}

pub open spec fn either(a: SelfUsage, b: SelfUsage) -> SelfUsage {
    SelfUsage { contains: a.contains || b.contains, borrowed: a.borrowed || b.borrowed }
}

/// Whether a path is the bare `Self`: no qualified self, and one segment named
/// `Self` (its generic arguments are not looked at).
pub open spec fn is_bare_self(qself: Option<Box<TypeShape>>, segments: Seq<SegmentShape>) -> bool {
    qself is None && segments.len() == 1 && segments[0].name@ == "Self"@
}

/// The use of `Self` in `t`, where `under` says that `t` is behind a reference:
/// the bare path `Self` is a use; any other path is looked into, its
/// qualified self type and the generic arguments of its segments.
pub open spec fn usage_at(t: TypeShape, under: bool) -> SelfUsage
    decreases t, 0nat,
{
    match t {
        TypeShape::Path { qself, segments } => if is_bare_self(qself, segments@) {
            SelfUsage { contains: true, borrowed: under }
        } else {
            let q = match qself {
                Some(q) => usage_at(*q, under),
                None => no_usage(),
            };
            either(q, usage_in_segments(segments@, under))
        },
        TypeShape::Reference(inner) => usage_at(*inner, true),
        TypeShape::Bound(segments) => usage_in_segments(segments@, under),
        TypeShape::Other(children) => usage_in_all(children@, under),
    }
}

/// The use of `Self` in any of `ts`.
pub open spec fn usage_in_all(ts: Seq<TypeShape>, under: bool) -> SelfUsage
    decreases ts, ts.len(),
{
    if ts.len() == 0 {
        no_usage()
    } else {
        either(usage_at(ts.last(), under), usage_in_all(ts.drop_last(), under))
    }
}

/// The use of `Self` in the generic arguments of any of `segs`.
pub open spec fn usage_in_segments(segs: Seq<SegmentShape>, under: bool) -> SelfUsage
    decreases segs, segs.len(),
{
    if segs.len() == 0 {
        no_usage()
    } else {
        proof {
            assert(decreases_to!(segs => segs[segs.len() - 1]));
        }
        either(
            usage_in_all(segs[segs.len() - 1].arguments@, under),
            usage_in_segments(segs.drop_last(), under),
        )
    }
}

fn is_self_name(name: &String) -> (r: bool)
    ensures
        r == (name@ == "Self"@),
{
    proof {
        reveal_strlit("Self");
    }
    let s = name.as_str();
    if s.unicode_len() != 4 {
        return false;
    }
    let r = s.get_char(0) == 'S' && s.get_char(1) == 'e' && s.get_char(2) == 'l' && s.get_char(3)
        == 'f';
    proof {
        if r {
            assert(name@ =~= "Self"@);
        }
    }
    r
}

fn usage_under(t: &TypeShape, under: bool) -> (r: SelfUsage)
    ensures
        r == usage_at(*t, under),
    decreases t, 0nat,
{
    match t {
        TypeShape::Path { qself, segments } => {
            if qself.is_none() && segments.len() == 1 && is_self_name(&segments[0].name) {
                return SelfUsage { contains: true, borrowed: under };
            }
            let q = match qself {
                Some(q) => usage_under(q, under),
                None => SelfUsage { contains: false, borrowed: false },
            };
            proof {
                assert(decreases_to!(*t => *segments));
            }
            let rest = usage_in_segment_vec(segments, under);
            SelfUsage { contains: q.contains || rest.contains, borrowed: q.borrowed || rest.borrowed }
        },
        TypeShape::Reference(inner) => usage_under(inner, true),
        TypeShape::Bound(segments) => usage_in_segment_vec(segments, under),
        TypeShape::Other(children) => usage_in_vec(children, under),
    }
}

fn usage_in_vec(children: &Vec<TypeShape>, under: bool) -> (r: SelfUsage)
    ensures
        r == usage_in_all(children@, under),
    decreases children, 1nat,
{
    let mut usage = SelfUsage { contains: false, borrowed: false };
    let mut i: usize = 0;
    while i < children.len()
        invariant
            i <= children.len(),
            usage == usage_in_all(children@.take(i as int), under),
        decreases children.len() - i,
    {
        proof {
            assert(decreases_to!(*children => children@));
            assert(decreases_to!(children@ => children@[i as int]));
        }
        let child = usage_under(&children[i], under);
        proof {
            assert(children@.take(i + 1).drop_last() =~= children@.take(i as int));
        }
        usage = SelfUsage {
            contains: child.contains || usage.contains,
            borrowed: child.borrowed || usage.borrowed,
        };
        i = i + 1;
    }
    proof {
        assert(children@.take(i as int) =~= children@);
    }
    usage
}

fn usage_in_segment_vec(segments: &Vec<SegmentShape>, under: bool) -> (r: SelfUsage)
    ensures
        r == usage_in_segments(segments@, under),
    decreases segments, 1nat,
{
    let mut usage = SelfUsage { contains: false, borrowed: false };
    let mut i: usize = 0;
    while i < segments.len()
        invariant
            i <= segments.len(),
            usage == usage_in_segments(segments@.take(i as int), under),
        decreases segments.len() - i,
    {
        proof {
            assert(decreases_to!(*segments => segments@));
            assert(decreases_to!(segments@ => segments@[i as int]));
            assert(decreases_to!(segments@[i as int] => segments@[i as int].arguments));
        }
        let child = usage_in_vec(&segments[i].arguments, under);
        proof {
            let next = segments@.take(i + 1);
            assert(next.drop_last() =~= segments@.take(i as int));
            assert(next[next.len() - 1] == segments@[i as int]);
        }
        usage = SelfUsage {
            contains: child.contains || usage.contains,
            borrowed: child.borrowed || usage.borrowed,
        };
        i = i + 1;
    }
    proof {
        assert(segments@.take(i as int) =~= segments@);
    }
    usage
}

proof fn lemma_usage_in_all(ts: Seq<TypeShape>, j: int, under: bool)
    requires
        0 <= j < ts.len(),
        usage_at(ts[j], under).contains,
    ensures
        usage_in_all(ts, under).contains,
    decreases ts.len(),
{
    if j < ts.len() - 1 {
        assert(ts.drop_last()[j] == ts[j]);
        lemma_usage_in_all(ts.drop_last(), j, under);
    }
}

proof fn lemma_usage_in_segments(segs: Seq<SegmentShape>, i: int, j: int, under: bool)
    requires
        0 <= i < segs.len(),
        0 <= j < segs[i].arguments@.len(),
        usage_at(segs[i].arguments@[j], under).contains,
    ensures
        usage_in_segments(segs, under).contains,
    decreases segs.len(),
{
    if i < segs.len() - 1 {
        assert(segs.drop_last()[i] == segs[i]);
        lemma_usage_in_segments(segs.drop_last(), i, j, under);
    } else {
        lemma_usage_in_all(segs[i].arguments@, j, under);
    }
}

/// A path type mentions `Self` wherever a generic argument of any of its
/// segments does (`io::Result<Self>`, `std::vec::Vec<Self>`, `Self` itself),
/// and so does any type that holds such a type: a reference, which makes it
/// borrowed, or any other type written around it.
pub proof fn law_self_in_any_segment(t: TypeShape, i: int, j: int, under: bool)
    requires
        t is Path,
        0 <= i < t->Path_segments@.len(),
        0 <= j < t->Path_segments@[i].arguments@.len(),
        usage_at(t->Path_segments@[i].arguments@[j], under).contains,
    ensures
        usage_at(t, under).contains,
        usage_at(TypeShape::Reference(Box::new(t)), under).contains,
        usage_at(TypeShape::Reference(Box::new(t)), under).borrowed,
{
    if let TypeShape::Path { qself, segments } = t {
        lemma_usage_in_segments(segments@, i, j, under);
        lemma_usage_monotone_under(t, under);
        lemma_borrowed_under_reference(t);
    }
}

/// Behind a reference, every mention of `Self` is borrowed.
proof fn lemma_borrowed_under_reference(t: TypeShape)
    ensures
        usage_at(t, true).contains ==> usage_at(t, true).borrowed,
    decreases t, 0nat,
{
    match t {
        TypeShape::Path { qself, segments } => {
            if !is_bare_self(qself, segments@) {
                if let Some(q) = qself {
                    lemma_borrowed_under_reference(*q);
                }
                assert(decreases_to!(t => segments));
                lemma_segments_borrowed(segments@);
            }
        },
        TypeShape::Reference(inner) => {
            lemma_borrowed_under_reference(*inner);
        },
        TypeShape::Bound(segments) => {
            assert(decreases_to!(t => segments));
            lemma_segments_borrowed(segments@);
        },
        TypeShape::Other(children) => {
            assert(decreases_to!(t => children));
            lemma_all_borrowed(children@);
        },
    }
}

proof fn lemma_all_borrowed(ts: Seq<TypeShape>)
    ensures
        usage_in_all(ts, true).contains ==> usage_in_all(ts, true).borrowed,
    decreases ts, ts.len(),
{
    if ts.len() > 0 {
        lemma_borrowed_under_reference(ts.last());
        lemma_all_borrowed(ts.drop_last());
    }
}

proof fn lemma_segments_borrowed(segs: Seq<SegmentShape>)
    ensures
        usage_in_segments(segs, true).contains ==> usage_in_segments(segs, true).borrowed,
    decreases segs, segs.len(),
{
    if segs.len() > 0 {
        assert(decreases_to!(segs => segs[segs.len() - 1]));
        lemma_all_borrowed(segs[segs.len() - 1].arguments@);
        lemma_segments_borrowed(segs.drop_last());
    }
}

proof fn lemma_usage_monotone_under(t: TypeShape, under: bool)
    requires
        usage_at(t, under).contains,
    ensures
        usage_at(t, true).contains,
    decreases t, 0nat,
{
    lemma_contains_ignores_under(t, under, true);
}

/// Whether a type mentions `Self` does not depend on whether it is borrowed.
proof fn lemma_contains_ignores_under(t: TypeShape, u1: bool, u2: bool)
    ensures
        usage_at(t, u1).contains == usage_at(t, u2).contains,
    decreases t, 0nat,
{
    match t {
        TypeShape::Path { qself, segments } => {
            if !is_bare_self(qself, segments@) {
                if let Some(q) = qself {
                    lemma_contains_ignores_under(*q, u1, u2);
                }
                assert(decreases_to!(t => segments));
                lemma_segments_ignore_under(segments@, u1, u2);
            }
        },
        TypeShape::Reference(inner) => {},
        TypeShape::Bound(segments) => {
            assert(decreases_to!(t => segments));
            lemma_segments_ignore_under(segments@, u1, u2);
        },
        TypeShape::Other(children) => {
            assert(decreases_to!(t => children));
            lemma_all_ignore_under(children@, u1, u2);
        },
    }
}

proof fn lemma_all_ignore_under(ts: Seq<TypeShape>, u1: bool, u2: bool)
    ensures
        usage_in_all(ts, u1).contains == usage_in_all(ts, u2).contains,
    decreases ts, ts.len(),
{
    if ts.len() > 0 {
        lemma_contains_ignores_under(ts.last(), u1, u2);
        lemma_all_ignore_under(ts.drop_last(), u1, u2);
    }
}

proof fn lemma_segments_ignore_under(segs: Seq<SegmentShape>, u1: bool, u2: bool)
    ensures
        usage_in_segments(segs, u1).contains == usage_in_segments(segs, u2).contains,
    decreases segs, segs.len(),
{
    if segs.len() > 0 {
        assert(decreases_to!(segs => segs[segs.len() - 1]));
        lemma_all_ignore_under(segs[segs.len() - 1].arguments@, u1, u2);
        lemma_segments_ignore_under(segs.drop_last(), u1, u2);
    }
}

/// Where `ty` mentions `Self`, and whether behind a reference.
pub fn self_usage(ty: &TypeShape) -> (r: SelfUsage)
    ensures
        r == usage_at(*ty, false),
{
    usage_under(ty, false)
}

/// A parameter pattern.
pub enum PatShape {
    /// An identifier pattern: `x`, `mut x`, `ref x` or `x @ pattern`.
    Ident { name: String, by_ref: bool, mutable: bool, subpattern: bool },
    /// Any other pattern.
    Other,
}

/// A `self` parameter.
#[derive(Clone, Copy)]
pub struct ReceiverShape {
    /// `&self` or `&mut self`.
    pub reference: bool,
    /// `&mut self` or `mut self`.
    pub mutable: bool,
    /// Written with a type, `self: T`.
    pub typed: bool,
}

/// A parameter.
pub enum InputShape {
    Receiver(ReceiverShape),
    Typed(PatShape, TypeShape),
}

/// A function signature.
pub struct SignatureShape {
    pub name: String,
    pub constness: bool,
    pub asyncness: bool,
    pub unsafety: bool,
    pub variadic: bool,
    pub inputs: Vec<InputShape>,
    /// The return type, where one is written.
    pub output: Option<TypeShape>,
}

/// Which parts of a signature carry `Self`, so that calls convert them.
pub struct SignatureAnalysis {
    pub return_contains_self: bool,
    pub arguments_containing_self: Vec<bool>,
}

pub open spec fn variadic_error() -> Seq<char> {
    "slop: variadic functions are not supported"@
}

pub open spec fn typed_receiver_error() -> Seq<char> {
    "slop: typed receivers are not supported"@
}

pub open spec fn pattern_error() -> Seq<char> {
    "slop: parameters must use identifier patterns"@
}

pub open spec fn plain_pattern_error() -> Seq<char> {
    "slop: parameters must use plain identifier patterns"@
}

pub open spec fn borrowed_self_error() -> Seq<char> {
    "slop: return types containing borrowed `Self` are not supported"@
}

pub open spec fn const_self_error() -> Seq<char> {
    "slop: const functions cannot use `Self` conversion traits"@
}

/// What is wrong with one parameter, if anything: a receiver is allowed only
/// in a method and without a type; a typed parameter must bind a plain
/// identifier.
pub open spec fn input_error(input: InputShape, method: bool) -> Option<Seq<char>> {
    match input {
        InputShape::Receiver(r) => if !method || r.typed {
            Some(typed_receiver_error())
        } else {
            None
        },
        InputShape::Typed(pat, _) => match pat {
            PatShape::Ident { by_ref, subpattern, .. } => if by_ref || subpattern {
                Some(plain_pattern_error())
            } else {
                None
            },
            PatShape::Other => Some(pattern_error()),
        },
    }
}

/// The error of the first parameter that has one.
pub open spec fn first_input_error(inputs: Seq<InputShape>, method: bool) -> Option<Seq<char>>
    decreases inputs.len(),
{
    if inputs.len() == 0 {
        None
    } else {
        match input_error(inputs[0], method) {
            Some(e) => Some(e),
            None => first_input_error(inputs.drop_first(), method),
        }
    }
}

/// Whether a parameter's type mentions `Self`.
pub open spec fn input_contains_self(input: InputShape) -> bool {
    match input {
        InputShape::Typed(_, ty) => usage_at(ty, false).contains,
        InputShape::Receiver(_) => false,
    }
}

/// The analysis of a signature: the checks in order (variadic, each
/// parameter, a return type with borrowed `Self`, a `const` function that
/// would need a conversion), then whether the return type and each parameter
/// mention `Self`.
pub open spec fn analysis_of(sig: SignatureShape, method: bool) -> Result<(bool, Seq<bool>), Seq<char>> {
    let returns_self = match sig.output {
        Some(ty) => usage_at(ty, false).contains,
        None => false,
    };
    let arguments = sig.inputs@.map_values(|i: InputShape| input_contains_self(i));
    if sig.variadic {
        Err(variadic_error())
    } else if first_input_error(sig.inputs@, method) is Some {
        Err(first_input_error(sig.inputs@, method)->Some_0)
    } else if sig.output matches Some(ty) && usage_at(ty, false).borrowed {
        Err(borrowed_self_error())
    } else if sig.constness && (returns_self || arguments.contains(true)) {
        Err(const_self_error())
    } else {
        Ok((returns_self, arguments))
    }
}

fn input_check(input: &InputShape, method: bool) -> (r: Option<&'static str>)
    ensures
        match r {
            Some(e) => input_error(*input, method) == Some(e@),
            None => input_error(*input, method) is None,
        },
{
    match input {
        InputShape::Receiver(receiver) => {
            if !method || receiver.typed {
                Some("slop: typed receivers are not supported")
            } else {
                None
            }
        },
        InputShape::Typed(pattern, _) => match pattern {
            PatShape::Ident { by_ref, subpattern, .. } => {
                if *by_ref || *subpattern {
                    Some("slop: parameters must use plain identifier patterns")
                } else {
                    None
                }
            },
            PatShape::Other => Some("slop: parameters must use identifier patterns"),
        },
    }
}

/// Checks a signature that the attribute is to give a body, and finds the
/// parts of it that mention `Self`.
pub fn analyze_signature(sig: &SignatureShape, method: bool) -> (r: Result<
    SignatureAnalysis,
    &'static str,
>)
    ensures
        match r {
            Ok(a) => analysis_of(*sig, method) == Ok::<(bool, Seq<bool>), Seq<char>>(
                (a.return_contains_self, a.arguments_containing_self@),
            ),
            Err(e) => analysis_of(*sig, method) == Err::<(bool, Seq<bool>), Seq<char>>(e@),
        },
{
    if sig.variadic {
        return Err("slop: variadic functions are not supported");
    }
    let mut i: usize = 0;
    proof {
        assert(sig.inputs@.skip(0) =~= sig.inputs@);
    }
    while i < sig.inputs.len()
        invariant
            !sig.variadic,
            i <= sig.inputs.len(),
            first_input_error(sig.inputs@, method) == first_input_error(
                sig.inputs@.skip(i as int),
                method,
            ),
        decreases sig.inputs.len() - i,
    {
        proof {
            assert(sig.inputs@.skip(i as int).drop_first() =~= sig.inputs@.skip(i + 1));
            assert(sig.inputs@.skip(i as int)[0] == sig.inputs@[i as int]);
        }
        match input_check(&sig.inputs[i], method) {
            Some(e) => {
                return Err(e);
            },
            None => {},
        }
        i = i + 1;
    }
    proof {
        assert(sig.inputs@.skip(i as int) =~= Seq::<InputShape>::empty());
    }
    let return_contains_self = match &sig.output {
        None => false,
        Some(ty) => {
            let usage = self_usage(ty);
            if usage.borrowed {
                return Err("slop: return types containing borrowed `Self` are not supported");
            }
            usage.contains
        },
    };
    let ghost expected = sig.inputs@.map_values(|i: InputShape| input_contains_self(i));
    let mut arguments_containing_self: Vec<bool> = Vec::new();
    let mut any = false;
    let mut k: usize = 0;
    while k < sig.inputs.len()
        invariant
            k <= sig.inputs.len(),
            expected == sig.inputs@.map_values(|i: InputShape| input_contains_self(i)),
            arguments_containing_self@ == expected.take(k as int),
            any == expected.take(k as int).contains(true),
        decreases sig.inputs.len() - k,
    {
        let contains = match &sig.inputs[k] {
            InputShape::Typed(_, ty) => self_usage(ty).contains,
            InputShape::Receiver(_) => false,
        };
        proof {
            assert(expected.take(k + 1) =~= expected.take(k as int).push(contains));
            if contains {
                assert(expected.take(k + 1)[k as int] == true);
            }
            if expected.take(k + 1).contains(true) && !contains {
                let w = choose|w: int| 0 <= w < k + 1 && #[trigger] expected.take(k + 1)[w] == true;
                assert(expected.take(k as int)[w] == true);
            }
        }
        arguments_containing_self.push(contains);
        any = any || contains;
        k = k + 1;
    }
    proof {
        assert(expected.take(k as int) =~= expected);
    }
    if sig.constness && (return_contains_self || any) {
        return Err("slop: const functions cannot use `Self` conversion traits");
    }
    Ok(SignatureAnalysis { return_contains_self, arguments_containing_self })
}

/// A generic parameter.
pub enum GenericParamShape {
    /// A lifetime parameter, by its name without the apostrophe.
    Lifetime(String),
    /// A type parameter.
    Type(String),
    /// A const parameter.
    Const(String),
}

/// An item under the attribute, as far as it parsed.
pub enum ItemShape {
    /// A function declared without a body: `fn f(..) -> T;`.
    Declaration(SignatureShape),
    /// A function with a body.
    FunctionWithBody,
    /// A struct, with its name and generic parameters; `unit` where it has
    /// no fields (`struct S;`).
    Struct { name: String, generics: Vec<GenericParamShape>, unit: bool },
    /// An impl block, with its items in order.
    Impl(Vec<ImplMemberShape>),
    /// Anything else, or an impl block whose header does not parse.
    Unparsed,
}

/// An item inside an impl block.
pub enum ImplMemberShape {
    /// A method declared without a body.
    Declaration(SignatureShape),
    /// A method with a body.
    MethodWithBody,
    /// Text that does not parse as an impl item.
    Unparsable,
    /// Any other impl item (a constant, a type), kept as it is.
    Other,
}

/// What the attribute found in an item that it accepts.
pub enum ParsedItem {
    Function(SignatureAnalysis),
    Struct,
    /// The impl block's items in order: the analysis of each method, `None`
    /// for the items kept as they are.
    Impl(Vec<Option<SignatureAnalysis>>),
}

pub open spec fn body_error() -> Seq<char> {
    "`slop` functions must be declared without a body, using `;`"@
}

pub open spec fn struct_error() -> Seq<char> {
    "slop: structs must be unit-style forward declarations, using `;`"@
}

pub open spec fn method_body_error() -> Seq<char> {
    "slop: methods in a `slop` impl must be declared without a body, using `;`"@
}

pub open spec fn unsupported_error() -> Seq<char> {
    "`slop` can only annotate a bodyless function, a unit struct, or an impl"@
}

pub open spec fn analysis_view(a: SignatureAnalysis) -> (bool, Seq<bool>) {
    (a.return_contains_self, a.arguments_containing_self@)
}

/// How parsing the items of an impl block first goes wrong, if it does: a
/// method with a body is reported, text that is no item is a syntax error.
pub open spec fn impl_parse_error(members: Seq<ImplMemberShape>) -> Option<Seq<char>>
    decreases members.len(),
{
    if members.len() == 0 {
        None
    } else {
        match members[0] {
            ImplMemberShape::MethodWithBody => Some(method_body_error()),
            ImplMemberShape::Unparsable => Some(unsupported_error()),
            _ => impl_parse_error(members.drop_first()),
        }
    }
}

/// The error of the first method whose signature the checks refuse.
pub open spec fn method_error(members: Seq<ImplMemberShape>) -> Option<Seq<char>>
    decreases members.len(),
{
    if members.len() == 0 {
        None
    } else {
        match members[0] {
            ImplMemberShape::Declaration(sig) => match analysis_of(sig, true) {
                Err(e) => Some(e),
                Ok(_) => method_error(members.drop_first()),
            },
            _ => method_error(members.drop_first()),
        }
    }
}

/// What the attribute makes of one item of an impl block that parsed and
/// passed the checks.
pub open spec fn member_result(m: ImplMemberShape) -> Option<(bool, Seq<bool>)> {
    match m {
        ImplMemberShape::Declaration(sig) => Some(analysis_of(sig, true)->Ok_0),
        _ => None,
    }
}

pub open spec fn member_view(m: Option<SignatureAnalysis>) -> Option<(bool, Seq<bool>)> {
    match m {
        Some(a) => Some(analysis_view(a)),
        None => None,
    }
}

/// Whether `r` is what the attribute makes of `item`: a declaration is
/// checked as a free function; a function with a body and a struct with
/// fields are refused; an impl block is parsed item by item and then each
/// method is checked; anything else is refused as unsupported.
pub open spec fn parses_item(item: ItemShape, r: Result<ParsedItem, &'static str>) -> bool {
    match item {
        ItemShape::Declaration(sig) => match analysis_of(sig, false) {
            Ok(a) => r matches Ok(ParsedItem::Function(x)) && analysis_view(x) == a,
            Err(e) => r matches Err(m) && m@ == e,
        },
        ItemShape::FunctionWithBody => r matches Err(m) && m@ == body_error(),
        ItemShape::Struct { unit, .. } => if unit {
            r matches Ok(ParsedItem::Struct)
        } else {
            r matches Err(m) && m@ == struct_error()
        },
        ItemShape::Impl(members) => if impl_parse_error(members@) is Some {
            r matches Err(m) && m@ == impl_parse_error(members@)->Some_0
        } else if method_error(members@) is Some {
            r matches Err(m) && m@ == method_error(members@)->Some_0
        } else {
            r matches Ok(ParsedItem::Impl(v)) && v@.len() == members@.len() && forall|i: int|
                0 <= i < v@.len() ==> member_view(#[trigger] v@[i]) == member_result(members@[i])
        },
        ItemShape::Unparsed => r matches Err(m) && m@ == unsupported_error(),
    }
}

/// Accepts or refuses an item under the attribute, checking each signature
/// that will get a generated body.
pub fn parse_item(item: &ItemShape) -> (r: Result<ParsedItem, &'static str>)
    ensures
        parses_item(*item, r),
{
    match item {
        ItemShape::Declaration(sig) => match analyze_signature(sig, false) {
            Ok(a) => Ok(ParsedItem::Function(a)),
            Err(e) => Err(e),
        },
        ItemShape::FunctionWithBody => Err("`slop` functions must be declared without a body, using `;`"),
        ItemShape::Struct { unit, .. } => {
            if *unit {
                Ok(ParsedItem::Struct)
            } else {
                Err("slop: structs must be unit-style forward declarations, using `;`")
            }
        },
        ItemShape::Impl(members) => {
            let mut i: usize = 0;
            proof {
                assert(members@.skip(0) =~= members@);
            }
            while i < members.len()
                invariant
                    *item == ItemShape::Impl(*members),
                    i <= members.len(),
                    impl_parse_error(members@) == impl_parse_error(members@.skip(i as int)),
                decreases members.len() - i,
            {
                proof {
                    assert(members@.skip(i as int).drop_first() =~= members@.skip(i + 1));
                    assert(members@.skip(i as int)[0] == members@[i as int]);
                }
                match &members[i] {
                    ImplMemberShape::MethodWithBody => {
                        return Err(
                            "slop: methods in a `slop` impl must be declared without a body, using `;`",
                        );
                    },
                    ImplMemberShape::Unparsable => {
                        return Err(
                            "`slop` can only annotate a bodyless function, a unit struct, or an impl",
                        );
                    },
                    _ => {},
                }
                i = i + 1;
            }
            proof {
                assert(members@.skip(i as int) =~= Seq::<ImplMemberShape>::empty());
            }
            let mut results: Vec<Option<SignatureAnalysis>> = Vec::new();
            let mut k: usize = 0;
            proof {
                assert(members@.skip(0) =~= members@);
            }
            while k < members.len()
                invariant
                    *item == ItemShape::Impl(*members),
                    k <= members.len(),
                    impl_parse_error(members@) is None,
                    method_error(members@) == method_error(members@.skip(k as int)),
                    results@.len() == k,
                    forall|j: int|
                        0 <= j < k ==> member_view(#[trigger] results@[j]) == member_result(
                            members@[j],
                        ),
                decreases members.len() - k,
            {
                proof {
                    assert(members@.skip(k as int).drop_first() =~= members@.skip(k + 1));
                    assert(members@.skip(k as int)[0] == members@[k as int]);
                }
                let result = match &members[k] {
                    ImplMemberShape::Declaration(sig) => match analyze_signature(sig, true) {
                        Ok(a) => Some(a),
                        Err(e) => {
                            return Err(e);
                        },
                    },
                    _ => None,
                };
                results.push(result);
                k = k + 1;
            }
            proof {
                assert(members@.skip(k as int) =~= Seq::<ImplMemberShape>::empty());
            }
            Ok(ParsedItem::Impl(results))
        },
        ItemShape::Unparsed => Err("`slop` can only annotate a bodyless function, a unit struct, or an impl"),
    }
}

/// A signature that the checks accept for a free function they accept for a
/// method too, with the same analysis.
pub proof fn lemma_function_checks_hold_for_methods(sig: SignatureShape)
    requires
        analysis_of(sig, false) is Ok,
    ensures
        analysis_of(sig, true) == analysis_of(sig, false),
{
    lemma_first_input_error_method(sig.inputs@);
}

proof fn lemma_first_input_error_method(inputs: Seq<InputShape>)
    requires
        first_input_error(inputs, false) is None,
    ensures
        first_input_error(inputs, true) is None,
    decreases inputs.len(),
{
    if inputs.len() > 0 {
        lemma_first_input_error_method(inputs.drop_first());
    }
}

/// In an impl block that the attribute accepts, every method's signature
/// passed the checks.
pub proof fn lemma_accepted_methods(members: Seq<ImplMemberShape>, i: int)
    requires
        method_error(members) is None,
        0 <= i < members.len(),
    ensures
        members[i] matches ImplMemberShape::Declaration(sig) ==> analysis_of(sig, true) is Ok,
    decreases i,
{
    if i > 0 {
        lemma_accepted_methods(members.drop_first(), i - 1);
        assert(members.drop_first()[i - 1] == members[i]);
    }
}

} // verus!
