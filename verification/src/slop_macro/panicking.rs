//! The code the attribute generates while no implementation exists yet: each
//! declaration compiles, uses its parameters, and panics when called.
use vstd::prelude::*;

use crate::slop_macro::frontend::{
    analysis_of, lemma_accepted_methods, lemma_function_checks_hold_for_methods, member_result,
    member_view, parses_item, GenericParamShape, ImplMemberShape, InputShape, ItemShape,
    ParsedItem, PatShape, SignatureShape,
};

verus! {

/// A statement that uses one parameter, so that none is reported unused.
pub enum Use {
    /// `let _ = &mut self;`: a `mut self` receiver.
    SelfMut,
    /// `let _ = self;`: any other receiver.
    SelfValue,
    /// `let _ = &mut name;`: a `mut` binding.
    BindingMut(String),
    /// `let _ = name;`
    Binding(String),
}

/// The body generated for a declaration without an implementation.
pub struct PanicBody {
    pub uses: Vec<Use>,
    /// The function's name, which the panic message ends with.
    pub name: String,
}

/// Whether `u` is the use of `input`.
pub open spec fn uses_input(input: InputShape, u: Use) -> bool {
    match input {
        InputShape::Receiver(r) => if !r.reference && r.mutable {
            u is SelfMut
        } else {
            u is SelfValue
        },
        InputShape::Typed(PatShape::Ident { name, mutable, .. }, _) => if mutable {
            u matches Use::BindingMut(n) && n@ == name@
        } else {
            u matches Use::Binding(n) && n@ == name@
        },
        InputShape::Typed(PatShape::Other, _) => false,
    }
}

/// Whether `b` is the body generated for the signature `sig`: one use per
/// parameter, in order, then a panic that names the function.
pub open spec fn panics_for(sig: SignatureShape, b: PanicBody) -> bool {
    &&& b.name@ == sig.name@
    &&& b.uses@.len() == sig.inputs@.len()
    &&& forall|i: int| 0 <= i < sig.inputs@.len() ==> uses_input(#[trigger] sig.inputs@[i], b.uses@[i])
}

/// The body for the declaration with signature `sig`.
pub fn body(sig: &SignatureShape) -> (r: PanicBody)
    requires
        analysis_of(*sig, true) is Ok || analysis_of(*sig, false) is Ok,
    ensures
        panics_for(*sig, r),
{
    proof {
        if analysis_of(*sig, false) is Ok {
            lemma_function_checks_hold_for_methods(*sig);
        }
    }
    let mut uses: Vec<Use> = Vec::new();
    let mut i: usize = 0;
    while i < sig.inputs.len()
        invariant
            i <= sig.inputs.len(),
            analysis_of(*sig, true) is Ok,
            uses@.len() == i,
            forall|k: int| 0 <= k < i ==> uses_input(#[trigger] sig.inputs@[k], uses@[k]),
        decreases sig.inputs.len() - i,
    {
        proof {
            lemma_valid_input(sig.inputs@, i as int);
        }
        let u = match &sig.inputs[i] {
            InputShape::Receiver(receiver) => {
                if !receiver.reference && receiver.mutable {
                    Use::SelfMut
                } else {
                    Use::SelfValue
                }
            },
            InputShape::Typed(PatShape::Ident { name, mutable, .. }, _) => {
                if *mutable {
                    Use::BindingMut(name.clone())
                } else {
                    Use::Binding(name.clone())
                }
            },
            InputShape::Typed(PatShape::Other, _) => {
                proof {
                    assert(false);
                }
                Use::SelfValue
            },
        };
        uses.push(u);
        i = i + 1;
    }
    PanicBody { uses, name: sig.name.clone() }
}

proof fn lemma_valid_input(inputs: Seq<InputShape>, i: int)
    requires
        crate::slop_macro::frontend::first_input_error(inputs, true) is None,
        0 <= i < inputs.len(),
    ensures
        !(inputs[i] matches InputShape::Typed(PatShape::Other, _)),
    decreases i,
{
    if i > 0 {
        lemma_valid_input(inputs.drop_first(), i - 1);
        assert(inputs.drop_first()[i - 1] == inputs[i]);
    }
}

/// The message of the panic: the module path, a dot, and the function's name.
pub fn panic_message(module: &str, name: &str) -> (r: String)
    ensures
        r@ == module@ + "."@ + name@,
{
    module.to_owned().concat(".").concat(name)
}

/// What stands for one generic parameter in the marker type of a declared
/// struct.
pub enum Marker {
    /// A type parameter, as itself.
    Type(String),
    /// A lifetime parameter, as `&'a ()`.
    Lifetime(String),
}

/// Whether `m` stands for `p`.
pub open spec fn marks(p: GenericParamShape, m: Marker) -> bool {
    match p {
        GenericParamShape::Type(n) => m matches Marker::Type(x) && x@ == n@,
        GenericParamShape::Lifetime(n) => m matches Marker::Lifetime(x) && x@ == n@,
        GenericParamShape::Const(_) => false,
    }
}

/// The type and lifetime parameters among `params`, in order.
pub open spec fn marked(params: Seq<GenericParamShape>) -> Seq<GenericParamShape> {
    params.filter(|p: GenericParamShape| !(p is Const))
}

/// Whether `ms` stands for the type and lifetime parameters among `generics`,
/// one by one, in order.
pub open spec fn marks_all(generics: Seq<GenericParamShape>, ms: Seq<Marker>) -> bool {
    &&& ms.len() == marked(generics).len()
    &&& forall|i: int| 0 <= i < ms.len() ==> marks(#[trigger] marked(generics)[i], ms[i])
}

/// The elements of the marker tuple `(T, &'a (), ..)` that the declared
/// struct holds in a `PhantomData`: one per type or lifetime parameter, in
/// order; const parameters have none.
pub fn marker_type(generics: &Vec<GenericParamShape>) -> (r: Vec<Marker>)
    ensures
        marks_all(generics@, r@),
{
    let mut markers: Vec<Marker> = Vec::new();
    let mut i: usize = 0;
    while i < generics.len()
        invariant
            i <= generics.len(),
            markers@.len() == marked(generics@.take(i as int)).len(),
            forall|k: int|
                0 <= k < markers@.len() ==> marks(
                    #[trigger] marked(generics@.take(i as int))[k],
                    markers@[k],
                ),
        decreases generics.len() - i,
    {
        proof {
            reveal(Seq::filter);
            assert(generics@.take(i + 1).drop_last() =~= generics@.take(i as int));
        }
        match &generics[i] {
            GenericParamShape::Type(n) => {
                markers.push(Marker::Type(n.clone()));
            },
            GenericParamShape::Lifetime(n) => {
                markers.push(Marker::Lifetime(n.clone()));
            },
            GenericParamShape::Const(_) => {},
        }
        i = i + 1;
    }
    proof {
        assert(generics@.take(i as int) =~= generics@);
    }
    markers
}

/// The code generated for one item while no implementation exists.
pub enum PanicItem {
    /// A declared function and its panicking body.
    Function(PanicBody),
    /// A declared struct and the markers of its `PhantomData`.
    Struct(Vec<Marker>),
    /// An impl block: the body of each method, `None` for the items kept as
    /// they are.
    Impl(Vec<Option<PanicBody>>),
}

/// Whether `body` is what is generated for the impl item `m`.
pub open spec fn member_panics(m: ImplMemberShape, body: Option<PanicBody>) -> bool {
    match (m, body) {
        (ImplMemberShape::Declaration(sig), Some(b)) => panics_for(sig, b),
        (ImplMemberShape::Declaration(_), None) => false,
        (_, body) => body is None,
    }
}

/// Whether `out` is what is generated for `item`, accepted as `parsed`.
pub open spec fn generates_panicking(item: ItemShape, parsed: ParsedItem, out: PanicItem) -> bool {
    match (item, parsed, out) {
        (ItemShape::Declaration(sig), ParsedItem::Function(_), PanicItem::Function(b)) => panics_for(
            sig,
            b,
        ),
        (ItemShape::Struct { generics, .. }, ParsedItem::Struct, PanicItem::Struct(ms)) => marks_all(
            generics@,
            ms@,
        ),
        (ItemShape::Impl(members), ParsedItem::Impl(_), PanicItem::Impl(bodies)) => {
            &&& bodies@.len() == members@.len()
            &&& forall|i: int|
                0 <= i < members@.len() ==> member_panics(#[trigger] members@[i], bodies@[i])
        },
        _ => false,
    }
}

/// The code for `item`, which the attribute accepted as `parsed`.
pub fn generate(item: &ItemShape, parsed: &ParsedItem) -> (r: PanicItem)
    requires
        parses_item(*item, Ok::<ParsedItem, &'static str>(*parsed)),
    ensures
        generates_panicking(*item, *parsed, r),
{
    match (item, parsed) {
        (ItemShape::Declaration(sig), ParsedItem::Function(_)) => PanicItem::Function(body(sig)),
        (ItemShape::Struct { generics, .. }, ParsedItem::Struct) => PanicItem::Struct(
            marker_type(generics),
        ),
        (ItemShape::Impl(members), ParsedItem::Impl(analyses)) => {
            let mut bodies: Vec<Option<PanicBody>> = Vec::new();
            let mut i: usize = 0;
            while i < members.len()
                invariant
                    parses_item(*item, Ok::<ParsedItem, &'static str>(*parsed)),
                    *item == ItemShape::Impl(*members),
                    *parsed == ParsedItem::Impl(*analyses),
                    i <= members.len(),
                    bodies@.len() == i,
                    forall|k: int| 0 <= k < i ==> member_panics(#[trigger] members@[k], bodies@[k]),
                decreases members.len() - i,
            {
                proof {
                    lemma_accepted_methods(members@, i as int);
                    assert(member_view(analyses@[i as int]) == member_result(members@[i as int]));
                }
                let b = match &members[i] {
                    ImplMemberShape::Declaration(sig) => Some(body(sig)),
                    _ => None,
                };
                bodies.push(b);
                i = i + 1;
            }
            PanicItem::Impl(bodies)
        },
        _ => {
            proof {
                assert(false);
            }
            PanicItem::Impl(Vec::new())
        },
    }
}

} // verus!
