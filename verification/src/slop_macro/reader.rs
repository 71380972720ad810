//! Reading an annotated item from its source text: `syn` parses the text
//! (an impl body item by item, over the token trees that `proc_macro2` lexes),
//! and what it finds is converted, node for node, into the library's shapes.
use vstd::prelude::*;

use crate::slop_macro::frontend::{
    parse_item, parses_item, GenericParamShape, ImplMemberShape, InputShape, ItemShape,
    ParsedItem, PatShape, ReceiverShape, SegmentShape, SignatureShape, TypeShape,
};

verus! {

#[verifier::external_type_specification]
#[verifier::external_body]
pub struct ExSynType(syn::Type);

#[verifier::external_type_specification]
#[verifier::external_body]
pub struct ExSynReturnType(syn::ReturnType);

#[verifier::external_type_specification]
#[verifier::external_body]
pub struct ExSynPath(syn::Path);

#[verifier::external_type_specification]
#[verifier::external_body]
pub struct ExSynPathArguments(syn::PathArguments);

#[verifier::external_type_specification]
#[verifier::external_body]
pub struct ExSynGenericArgument(syn::GenericArgument);

#[verifier::external_type_specification]
#[verifier::external_body]
pub struct ExSynTypeParamBound(syn::TypeParamBound);

#[verifier::external_type_specification]
#[verifier::external_body]
pub struct ExSynSignature(syn::Signature);

#[verifier::external_type_specification]
#[verifier::external_body]
pub struct ExSynFnArg(syn::FnArg);

#[verifier::external_type_specification]
#[verifier::external_body]
pub struct ExSynPat(syn::Pat);

#[verifier::external_type_specification]
#[verifier::external_body]
pub struct ExSynGenericParam(syn::GenericParam);

#[verifier::external_type_specification]
#[verifier::external_body]
pub struct ExSynImplItem(syn::ImplItem);

#[verifier::external_type_specification]
#[verifier::external_body]
pub struct ExTokenTree(proc_macro2::TokenTree);

/// An item of an impl block as `syn` reads it.
pub enum MemberRead {
    /// A method with a body.
    MethodWithBody,
    /// Any other item, a method declared without a body among them.
    Other,
}

/// A token tree of the source text: its text, whether it is a punctuation
/// mark joined to the next token (as in `->` or `'a`), and, for a group in
/// braces, the text of what the braces hold.
pub struct TreeRead {
    pub text: String,
    pub joint: bool,
    pub braced: Option<String>,
}

/// A `syn::Type`, converted: a path keeps its qualified self type and its
/// segments, a reference its referent, an `impl`/`dyn` type its trait
/// bounds; any other type keeps the types written inside it.
#[verifier::external_body]
fn type_shape(ty: &syn::Type) -> TypeShape {
    match ty {
        syn::Type::Path(p) => TypeShape::Path {
            qself: p.qself.as_ref().map(|q| Box::new(type_shape(&q.ty))),
            segments: segment_shapes(&p.path),
        },
        syn::Type::Reference(r) => TypeShape::Reference(Box::new(type_shape(&r.elem))),
        syn::Type::ImplTrait(t) => TypeShape::Other(t.bounds.iter().map(bound_shape).collect()),
        syn::Type::TraitObject(t) => TypeShape::Other(t.bounds.iter().map(bound_shape).collect()),
        ty => TypeShape::Other(nested_types(ty)),
    }
}

/// The types written directly inside a `syn::Type` that is no path,
/// reference, `impl` or `dyn` type, converted.
#[verifier::external_body]
fn nested_types(ty: &syn::Type) -> Vec<TypeShape> {
    match ty {
        syn::Type::Array(t) => vec![type_shape(&t.elem)],
        syn::Type::Slice(t) => vec![type_shape(&t.elem)],
        syn::Type::Ptr(t) => vec![type_shape(&t.elem)],
        syn::Type::Paren(t) => vec![type_shape(&t.elem)],
        syn::Type::Group(t) => vec![type_shape(&t.elem)],
        syn::Type::Tuple(t) => t.elems.iter().map(type_shape).collect(),
        syn::Type::BareFn(f) => f.inputs.iter().map(|a| type_shape(&a.ty)).chain(return_shape(&f.output)).collect(),
        _ => Vec::new(),
    }
}

/// A `syn::ReturnType`, converted: the type where one is written.
#[verifier::external_body]
fn return_shape(output: &syn::ReturnType) -> Option<TypeShape> {
    match output {
        syn::ReturnType::Default => None,
        syn::ReturnType::Type(_, ty) => Some(type_shape(ty)),
    }
}

/// The segments of a `syn::Path`, converted, in order.
#[verifier::external_body]
fn segment_shapes(path: &syn::Path) -> Vec<SegmentShape> {
    path.segments.iter().map(|s| SegmentShape {
        name: s.ident.to_string(),
        arguments: argument_shapes(&s.arguments),
    }).collect()
}

/// The generic arguments of a path segment, converted, in order:
/// `<A, B>` or `(A, B) -> C`.
#[verifier::external_body]
fn argument_shapes(arguments: &syn::PathArguments) -> Vec<TypeShape> {
    match arguments {
        syn::PathArguments::None => Vec::new(),
        syn::PathArguments::AngleBracketed(a) => a.args.iter().map(argument_shape).collect(),
        syn::PathArguments::Parenthesized(p) => p.inputs.iter().map(type_shape).chain(return_shape(&p.output)).collect(),
    }
}

/// One generic argument, converted: a type, the type bound to an associated
/// type, the bounds of a constraint; lifetimes and constants hold no type.
#[verifier::external_body]
fn argument_shape(argument: &syn::GenericArgument) -> TypeShape {
    match argument {
        syn::GenericArgument::Type(ty) => type_shape(ty),
        syn::GenericArgument::AssocType(a) => type_shape(&a.ty),
        syn::GenericArgument::Constraint(c) => TypeShape::Other(c.bounds.iter().map(bound_shape).collect()),
        _ => TypeShape::Other(Vec::new()),
    }
}

/// A trait bound, converted: the segments of the trait's path; a lifetime
/// bound holds no type.
#[verifier::external_body]
fn bound_shape(bound: &syn::TypeParamBound) -> TypeShape {
    match bound {
        syn::TypeParamBound::Trait(t) => TypeShape::Bound(segment_shapes(&t.path)),
        _ => TypeShape::Other(Vec::new()),
    }
}

/// A `syn::Signature`, converted field by field.
#[verifier::external_body]
fn signature_shape(sig: &syn::Signature) -> SignatureShape {
    SignatureShape {
        name: sig.ident.to_string(),
        constness: sig.constness.is_some(),
        asyncness: sig.asyncness.is_some(),
        unsafety: sig.unsafety.is_some(),
        variadic: sig.variadic.is_some(),
        inputs: sig.inputs.iter().map(input_shape).collect(),
        output: return_shape(&sig.output),
    }
}

/// A `syn::FnArg`, converted.
#[verifier::external_body]
fn input_shape(input: &syn::FnArg) -> InputShape {
    match input {
        syn::FnArg::Receiver(r) => InputShape::Receiver(ReceiverShape {
            reference: r.reference.is_some(),
            mutable: r.mutability.is_some(),
            typed: r.colon_token.is_some(),
        }),
        syn::FnArg::Typed(t) => InputShape::Typed(pat_shape(&t.pat), type_shape(&t.ty)),
    }
}

/// A `syn::Pat`, converted: an identifier pattern with its parts.
#[verifier::external_body]
fn pat_shape(pat: &syn::Pat) -> PatShape {
    match pat {
        syn::Pat::Ident(p) => PatShape::Ident {
            name: p.ident.to_string(),
            by_ref: p.by_ref.is_some(),
            mutable: p.mutability.is_some(),
            subpattern: p.subpat.is_some(),
        },
        _ => PatShape::Other,
    }
}

/// A `syn::GenericParam`, converted.
#[verifier::external_body]
fn generic_shape(param: &syn::GenericParam) -> GenericParamShape {
    match param {
        syn::GenericParam::Lifetime(l) => GenericParamShape::Lifetime(l.lifetime.ident.to_string()),
        syn::GenericParam::Type(t) => GenericParamShape::Type(t.ident.to_string()),
        syn::GenericParam::Const(c) => GenericParamShape::Const(c.ident.to_string()),
    }
}

/// A `syn::ImplItem`, converted: whether it is a method with a body.
#[verifier::external_body]
fn member_read(item: &syn::ImplItem) -> MemberRead {
    match item {
        syn::ImplItem::Fn(_) => MemberRead::MethodWithBody,
        _ => MemberRead::Other,
    }
}

/// A `proc_macro2::TokenTree`, converted: its text, the spacing of a
/// punctuation mark, and the text inside a brace-delimited group.
#[verifier::external_body]
fn tree_read(tree: &proc_macro2::TokenTree) -> TreeRead {
    TreeRead {
        text: tree.to_string(),
        joint: match tree {
            proc_macro2::TokenTree::Punct(p) => p.spacing() == proc_macro2::Spacing::Joint,
            _ => false,
        },
        braced: match tree {
            proc_macro2::TokenTree::Group(g) => match g.delimiter() {
                proc_macro2::Delimiter::Brace => Some(g.stream().to_string()),
                _ => None,
            },
            _ => None,
        },
    }
}

/// The signature of `s` read as a function declared without a body
/// (attributes, visibility, signature, `;`), as `syn` reads it.
pub uninterp spec fn declaration_read(s: Seq<char>) -> Option<SignatureShape>;

/// Whether `s` reads as a function with a body, as `syn` reads it.
pub uninterp spec fn function_read(s: Seq<char>) -> bool;

/// The struct that `s` reads as, as `syn` reads it.
pub uninterp spec fn struct_read(s: Seq<char>) -> Option<ItemShape>;

/// Whether `s` reads as an impl block, as `syn` reads it.
pub uninterp spec fn impl_read(s: Seq<char>) -> bool;

/// The item of an impl block that `s` reads as, as `syn` reads it.
pub uninterp spec fn impl_item_read(s: Seq<char>) -> Option<MemberRead>;

/// The token trees of `s`, as `proc_macro2` lexes them.
pub uninterp spec fn trees_read(s: Seq<char>) -> Option<Vec<TreeRead>>;

/// Whether `s` holds no tokens, as `syn` reads it.
pub uninterp spec fn nothing_read(s: Seq<char>) -> bool;

/// `syn::parse_str::<syn::ForeignItemFn>`: the grammar of a function declared
/// without a body. The converted signature is named, not described.
#[verifier::external_body]
fn read_declaration(source: &str) -> (r: Option<SignatureShape>)
    ensures
        r == declaration_read(source@),
{
    syn::parse_str::<syn::ForeignItemFn>(source).ok().map(|f| signature_shape(&f.sig))
}

/// `syn::parse_str::<syn::ItemFn>(..).is_ok()`: whether the text is a
/// function with a body. The result is named, not described.
#[verifier::external_body]
fn read_function(source: &str) -> (r: bool)
    ensures
        r == function_read(source@),
{
    syn::parse_str::<syn::ItemFn>(source).is_ok()
}

/// `syn::parse_str::<syn::ItemStruct>`: the struct's name, generic
/// parameters, and whether it has no fields. The result is named, not
/// described.
#[verifier::external_body]
fn read_struct(source: &str) -> (r: Option<ItemShape>)
    ensures
        r == struct_read(source@),
{
    syn::parse_str::<syn::ItemStruct>(source).ok().map(|s| ItemShape::Struct {
        name: s.ident.to_string(),
        generics: s.generics.params.iter().map(generic_shape).collect(),
        unit: matches!(s.fields, syn::Fields::Unit),
    })
}

/// `syn::parse_str::<syn::ItemImpl>(..).is_ok()`: whether the text is an
/// impl block. The result is named, not described.
#[verifier::external_body]
fn read_impl(source: &str) -> (r: bool)
    ensures
        r == impl_read(source@),
{
    syn::parse_str::<syn::ItemImpl>(source).is_ok()
}

/// `syn::parse_str::<syn::ImplItem>`: the one item of an impl block that the
/// text is, converted. The result is named, not described.
#[verifier::external_body]
fn read_impl_item(source: &str) -> (r: Option<MemberRead>)
    ensures
        r == impl_item_read(source@),
{
    syn::parse_str::<syn::ImplItem>(source).ok().map(|item| member_read(&item))
}

/// `source.parse::<proc_macro2::TokenStream>()`: the token trees of the
/// text, in order, converted. The result is named, not described.
#[verifier::external_body]
fn read_trees(source: &str) -> (r: Option<Vec<TreeRead>>)
    ensures
        r == trees_read(source@),
{
    source.parse::<proc_macro2::TokenStream>().ok().map(|ts| ts.into_iter().map(|t| tree_read(&t)).collect())
}

/// `syn::parse_str::<syn::parse::Nothing>(..).is_ok()`: whether the text
/// holds no tokens. The result is named, not described.
#[verifier::external_body]
fn read_nothing(source: &str) -> (r: bool)
    ensures
        r == nothing_read(source@),
{
    syn::parse_str::<syn::parse::Nothing>(source).is_ok()
}

/// The text of one token tree as it is written back: followed by a space
/// unless it is a punctuation mark joined to the next token.
pub open spec fn tree_text(t: TreeRead) -> Seq<char> {
    if t.joint {
        t.text@
    } else {
        t.text@ + seq![' ']
    }
}

/// Token trees written back as text.
pub open spec fn render_trees(ts: Seq<TreeRead>) -> Seq<char>
    decreases ts.len(),
{
    if ts.len() == 0 {
        Seq::empty()
    } else {
        render_trees(ts.drop_last()) + tree_text(ts.last())
    }
}

/// The text of the token trees `ts[p..k]`.
pub open spec fn range_text(ts: Seq<TreeRead>, p: int, k: int) -> Seq<char> {
    render_trees(ts.subrange(p, k))
}

/// The shortest run of trees from `p` on, ending at `k` or later, that reads
/// as a function declared without a body, with its end and signature.
pub open spec fn first_declaration(ts: Seq<TreeRead>, p: int, k: int) -> Option<(int, SignatureShape)>
    decreases ts.len() + 1 - k,
{
    if !(0 <= p < k <= ts.len()) {
        None
    } else {
        match declaration_read(range_text(ts, p, k)) {
            Some(sig) => Some((k, sig)),
            None => first_declaration(ts, p, k + 1),
        }
    }
}

/// The shortest run of trees from `p` on, ending at `k` or later, that reads
/// as an item of an impl block, with its end and what it is.
pub open spec fn first_item(ts: Seq<TreeRead>, p: int, k: int) -> Option<(int, MemberRead)>
    decreases ts.len() + 1 - k,
{
    if !(0 <= p < k <= ts.len()) {
        None
    } else {
        match impl_item_read(range_text(ts, p, k)) {
            Some(m) => Some((k, m)),
            None => first_item(ts, p, k + 1),
        }
    }
}

/// The items of an impl body whose token trees are `ts`, read one at a time
/// from `p`: a declaration where the next trees read as one, else the next
/// item; reading stops after a method with a body or text that is no item.
pub open spec fn scan_members(ts: Seq<TreeRead>, p: int) -> Seq<ImplMemberShape>
    decreases ts.len() - p,
{
    if !(0 <= p < ts.len()) {
        Seq::empty()
    } else {
        match first_declaration(ts, p, p + 1) {
            Some((k, sig)) => if p < k <= ts.len() {
                seq![ImplMemberShape::Declaration(sig)] + scan_members(ts, k)
            } else {
                Seq::empty()
            },
            None => match first_item(ts, p, p + 1) {
                Some((k, MemberRead::MethodWithBody)) => seq![ImplMemberShape::MethodWithBody],
                Some((k, MemberRead::Other)) => if p < k <= ts.len() {
                    seq![ImplMemberShape::Other] + scan_members(ts, k)
                } else {
                    Seq::empty()
                },
                None => seq![ImplMemberShape::Unparsable],
            },
        }
    }
}

/// The items of the impl block written as `s`: its last token tree must be a
/// group in braces, the trees before it with empty braces must read as an
/// impl block, and the body is read item by item.
pub open spec fn impl_members_of(s: Seq<char>) -> Option<Seq<ImplMemberShape>> {
    match trees_read(s) {
        None => None,
        Some(ts) => if ts@.len() > 0 && ts@.last().braced is Some && impl_read(
            render_trees(ts@.drop_last()) + "{}"@,
        ) {
            match trees_read(ts@.last().braced->Some_0@) {
                Some(body) => Some(scan_members(body@, 0)),
                None => None,
            }
        } else {
            None
        },
    }
}

/// Whether `item` is what `s` reads as, the readings tried in order: a
/// function declared without a body, a function with a body, a struct, an
/// impl block; else nothing that the attribute takes.
pub open spec fn reads_item(s: Seq<char>, item: ItemShape) -> bool {
    if declaration_read(s) is Some {
        item == ItemShape::Declaration(declaration_read(s)->Some_0)
    } else if function_read(s) {
        item is FunctionWithBody
    } else if struct_read(s) is Some {
        item == struct_read(s)->Some_0
    } else if impl_members_of(s) is Some {
        item matches ItemShape::Impl(members) && members@ == impl_members_of(s)->Some_0
    } else {
        item is Unparsed
    }
}

fn render_range(ts: &Vec<TreeRead>, p: usize, k: usize) -> (r: String)
    requires
        p <= k <= ts.len(),
    ensures
        r@ == range_text(ts@, p as int, k as int),
{
    let mut r = String::new();
    let mut i = p;
    proof {
        assert(ts@.subrange(p as int, p as int) =~= Seq::<TreeRead>::empty());
        assert(r@ =~= Seq::<char>::empty());
    }
    while i < k
        invariant
            p <= i <= k <= ts.len(),
            r@ == range_text(ts@, p as int, i as int),
        decreases k - i,
    {
        proof {
            reveal_strlit(" ");
        }
        r.append(ts[i].text.as_str());
        if !ts[i].joint {
            r.append(" ");
        }
        proof {
            let next = ts@.subrange(p as int, i + 1);
            assert(next.drop_last() =~= ts@.subrange(p as int, i as int));
            assert(next.last() == ts@[i as int]);
        }
        i = i + 1;
    }
    r
}

fn find_declaration(ts: &Vec<TreeRead>, p: usize) -> (r: Option<(usize, SignatureShape)>)
    requires
        p < ts.len(),
    ensures
        match r {
            Some((k, sig)) => first_declaration(ts@, p as int, p + 1) == Some((k as int, sig)),
            None => first_declaration(ts@, p as int, p + 1) is None,
        },
{
    let mut k = p + 1;
    loop
        invariant
            p < k <= ts.len(),
            first_declaration(ts@, p as int, p + 1) == first_declaration(ts@, p as int, k as int),
        decreases ts.len() - k,
    {
        let text = render_range(ts, p, k);
        let read = read_declaration(text.as_str());
        proof {
            assert(text@ == range_text(ts@, p as int, k as int));
        }
        match read {
            Some(sig) => {
                proof {
                    assert(first_declaration(ts@, p as int, k as int) == Some((k as int, sig)));
                }
                return Some((k, sig));
            },
            None => {},
        }
        if k == ts.len() {
            proof {
                assert(first_declaration(ts@, p as int, k + 1) is None);
            }
            return None;
        }
        k = k + 1;
    }
}

fn find_item(ts: &Vec<TreeRead>, p: usize) -> (r: Option<(usize, MemberRead)>)
    requires
        p < ts.len(),
    ensures
        match r {
            Some((k, m)) => first_item(ts@, p as int, p + 1) == Some((k as int, m)),
            None => first_item(ts@, p as int, p + 1) is None,
        },
{
    let mut k = p + 1;
    loop
        invariant
            p < k <= ts.len(),
            first_item(ts@, p as int, p + 1) == first_item(ts@, p as int, k as int),
        decreases ts.len() - k,
    {
        let text = render_range(ts, p, k);
        let read = read_impl_item(text.as_str());
        proof {
            assert(text@ == range_text(ts@, p as int, k as int));
        }
        match read {
            Some(m) => {
                proof {
                    assert(first_item(ts@, p as int, k as int) == Some((k as int, m)));
                }
                return Some((k, m));
            },
            None => {},
        }
        if k == ts.len() {
            proof {
                assert(first_item(ts@, p as int, k + 1) is None);
            }
            return None;
        }
        k = k + 1;
    }
}

proof fn lemma_first_declaration_after(ts: Seq<TreeRead>, p: int, k: int)
    requires
        first_declaration(ts, p, k) is Some,
    ensures
        k <= first_declaration(ts, p, k)->Some_0.0 <= ts.len(),
        p < first_declaration(ts, p, k)->Some_0.0,
    decreases ts.len() + 1 - k,
{
    if 0 <= p < k <= ts.len() && declaration_read(range_text(ts, p, k)) is None {
        lemma_first_declaration_after(ts, p, k + 1);
    }
}

proof fn lemma_first_item_after(ts: Seq<TreeRead>, p: int, k: int)
    requires
        first_item(ts, p, k) is Some,
    ensures
        k <= first_item(ts, p, k)->Some_0.0 <= ts.len(),
        p < first_item(ts, p, k)->Some_0.0,
    decreases ts.len() + 1 - k,
{
    if 0 <= p < k <= ts.len() && impl_item_read(range_text(ts, p, k)) is None {
        lemma_first_item_after(ts, p, k + 1);
    }
}

/// Reads the items of an impl body one at a time, as [`scan_members`] says.
fn read_members(ts: &Vec<TreeRead>) -> (r: Vec<ImplMemberShape>)
    ensures
        r@ == scan_members(ts@, 0),
{
    let mut members: Vec<ImplMemberShape> = Vec::new();
    let mut p: usize = 0;
    proof {
        assert(scan_members(ts@, 0) =~= members@ + scan_members(ts@, 0));
    }
    while p < ts.len()
        invariant
            p <= ts.len(),
            scan_members(ts@, 0) == members@ + scan_members(ts@, p as int),
        decreases ts.len() - p,
    {
        let ghost before = members@;
        match find_declaration(ts, p) {
            Some((k, sig)) => {
                proof {
                    lemma_first_declaration_after(ts@, p as int, p + 1);
                }
                members.push(ImplMemberShape::Declaration(sig));
                proof {
                    assert(before + scan_members(ts@, p as int) =~= members@ + scan_members(
                        ts@,
                        k as int,
                    ));
                }
                p = k;
            },
            None => match find_item(ts, p) {
                Some((k, MemberRead::MethodWithBody)) => {
                    members.push(ImplMemberShape::MethodWithBody);
                    proof {
                        assert(members@ =~= before + scan_members(ts@, p as int));
                    }
                    return members;
                },
                Some((k, MemberRead::Other)) => {
                    proof {
                        lemma_first_item_after(ts@, p as int, p + 1);
                    }
                    members.push(ImplMemberShape::Other);
                    proof {
                        assert(before + scan_members(ts@, p as int) =~= members@ + scan_members(
                            ts@,
                            k as int,
                        ));
                    }
                    p = k;
                },
                None => {
                    members.push(ImplMemberShape::Unparsable);
                    proof {
                        assert(members@ =~= before + scan_members(ts@, p as int));
                    }
                    return members;
                },
            },
        }
    }
    proof {
        assert(members@ + Seq::<ImplMemberShape>::empty() =~= members@);
    }
    members
}

/// Reads an impl block item by item: `None` where the text is no impl block.
fn read_impl_block(source: &str) -> (r: Option<Vec<ImplMemberShape>>)
    ensures
        match r {
            Some(members) => impl_members_of(source@) == Some(members@),
            None => impl_members_of(source@) is None,
        },
{
    proof {
        reveal_strlit("{}");
    }
    let trees = match read_trees(source) {
        Some(trees) => trees,
        None => {
            return None;
        },
    };
    let n = trees.len();
    if n == 0 {
        return None;
    }
    let inner = match &trees[n - 1].braced {
        Some(inner) => inner,
        None => {
            return None;
        },
    };
    let header = render_range(&trees, 0, n - 1).concat("{}");
    proof {
        assert(trees@.subrange(0, n - 1) =~= trees@.drop_last());
    }
    if !read_impl(header.as_str()) {
        return None;
    }
    match read_trees(inner.as_str()) {
        Some(body) => Some(read_members(&body)),
        None => None,
    }
}

/// Reads the item under the attribute from its source text.
pub fn read_item(source: &str) -> (r: ItemShape)
    ensures
        reads_item(source@, r),
{
    if let Some(sig) = read_declaration(source) {
        return ItemShape::Declaration(sig);
    }
    if read_function(source) {
        return ItemShape::FunctionWithBody;
    }
    if let Some(item) = read_struct(source) {
        return item;
    }
    match read_impl_block(source) {
        Some(members) => ItemShape::Impl(members),
        None => ItemShape::Unparsed,
    }
}

/// Whether `r` is what the attribute makes of the item written as `s`.
pub open spec fn parses_source(s: Seq<char>, r: Result<ParsedItem, &'static str>) -> bool {
    exists|item: ItemShape| #[trigger] reads_item(s, item) && parses_item(item, r)
}

/// Reads the item under the attribute from its source text, then accepts or
/// refuses it as [`parse_item`] does.
pub fn parse(source: &str) -> (r: Result<ParsedItem, &'static str>)
    ensures
        parses_source(source@, r),
{
    let item = read_item(source);
    let r = parse_item(&item);
    proof {
        assert(reads_item(source@, item) && parses_item(item, r));
    }
    r
}

pub open spec fn arguments_error() -> Seq<char> {
    "`slop` takes no arguments"@
}

/// The attribute takes no arguments: its argument text must hold no tokens.
pub fn check_arguments(args: &str) -> (r: Result<(), &'static str>)
    ensures
        r is Ok <==> nothing_read(args@),
        r matches Err(e) ==> e@ == arguments_error(),
{
    if read_nothing(args) {
        Ok(())
    } else {
        Err("`slop` takes no arguments")
    }
}

} // verus!
