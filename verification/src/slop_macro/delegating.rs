//! The code the attribute generates when an implementation exists: each
//! declaration delegates to the function of the same name in the backing
//! module under `crate::zz_slop`, converting what mentions `Self`.
use std::path::Path;

use vstd::prelude::*;

use crate::slop_macro::frontend::{
    analysis_of, analysis_view, first_input_error, input_contains_self, input_error,
    member_result, member_view, parses_item, GenericParamShape, ImplMemberShape, InputShape,
    ItemShape, ParsedItem, PatShape, SignatureAnalysis, SignatureShape, lemma_accepted_methods,
    lemma_function_checks_hold_for_methods, usage_at,
};

verus! {

/// Whether `s` parses as an identifier, as `syn::parse_str::<syn::Ident>` decides it.
pub uninterp spec fn parses_as_ident(s: Seq<char>) -> bool;

/// `syn::parse_str::<syn::Ident>(s).is_ok()`: whether `s` is an identifier,
/// keywords excluded. The result is named, not described.
#[verifier::external_body]
fn ident_parses(s: &str) -> (r: bool)
    ensures
        r == parses_as_ident(s@),
{
    syn::parse_str::<syn::Ident>(s).is_ok()
}

/// The index of the last occurrence of `c` in `s`, or -1.
pub open spec fn last_index(s: Seq<char>, c: char) -> int
    decreases s.len(),
{
    if s.len() == 0 {
        -1
    } else if s.last() == c {
        s.len() - 1
    } else {
        last_index(s.drop_last(), c)
    }
}

pub proof fn lemma_last_index(s: Seq<char>, c: char)
    ensures
        -1 <= last_index(s, c) < s.len(),
        last_index(s, c) >= 0 ==> s[last_index(s, c)] == c,
        forall|k: int| last_index(s, c) < k < s.len() ==> s[k] != c,
    decreases s.len(),
{
    if s.len() > 0 && s.last() != c {
        lemma_last_index(s.drop_last(), c);
        assert forall|k: int| last_index(s, c) < k < s.len() implies s[k] != c by {
            if k < s.len() - 1 {
                assert(s[k] == s.drop_last()[k]);
            }
        }
    }
}

/// The last `/`-separated part of a path.
pub open spec fn last_part(s: Seq<char>) -> Seq<char> {
    s.subrange(last_index(s, '/') + 1, s.len() as int)
}

/// A part of a path that names a file or directory: not empty, `.` or `..`.
pub open spec fn is_normal_part(p: Seq<char>) -> bool {
    p.len() > 0 && p != seq!['.'] && p != seq!['.', '.']
}

/// Whether every `/`-separated part of `s` names a file or directory; a
/// single leading `/` (the root) is allowed.
pub open spec fn normal_parts(s: Seq<char>) -> bool
    decreases s.len(),
{
    let i = last_index(s, '/');
    &&& is_normal_part(last_part(s))
    &&& (i > 0 ==> {
        proof {
            lemma_last_index(s, '/');
        }
        normal_parts(s.subrange(0, i))
    })
}

/// A path that reads the same on every platform: no `\` and no `:`, and every
/// `/`-separated part names a file or directory, after an optional root.
pub open spec fn is_portable_path(s: Seq<char>) -> bool {
    &&& forall|k: int| 0 <= k < s.len() ==> #[trigger] s[k] != '\\' && s[k] != ':'
    &&& normal_parts(s)
}

/// The directory part of a portable path: the text before its last `/`, the
/// root `/` for a file in the root, empty for a path of one part.
pub open spec fn parent_text(s: Seq<char>) -> Seq<char> {
    let i = last_index(s, '/');
    if i < 0 {
        Seq::empty()
    } else if i == 0 {
        seq!['/']
    } else {
        s.subrange(0, i)
    }
}

/// The stem of a file name: the part before its last `.`, or the whole name
/// where it has no `.` besides a leading one.
pub open spec fn stem_of(name: Seq<char>) -> Seq<char> {
    let d = last_index(name, '.');
    if d <= 0 {
        name
    } else {
        name.subrange(0, d)
    }
}

/// `Path::file_name`, as text: on a portable path, its last part; the
/// empty path and the root have none.
#[verifier::external_body]
fn path_file_name(path: &str) -> (r: Option<String>)
    ensures
        is_portable_path(path@) ==> opt_view(r) == Some(last_part(path@)),
        path@ == Seq::<char>::empty() || path@ == seq!['/'] ==> r is None,
{
    match Path::new(path).file_name() {
        Some(name) => match name.to_str() {
            Some(name) => Some(name.to_owned()),
            None => None,
        },
        None => None,
    }
}

/// `Path::file_stem`, as text: on a portable path, the stem of its last part.
#[verifier::external_body]
fn path_file_stem(path: &str) -> (r: Option<String>)
    ensures
        is_portable_path(path@) ==> opt_view(r) == Some(stem_of(last_part(path@))),
{
    match Path::new(path).file_stem() {
        Some(stem) => match stem.to_str() {
            Some(stem) => Some(stem.to_owned()),
            None => None,
        },
        None => None,
    }
}

/// `Path::parent`, as text: on a portable path, its directory part.
#[verifier::external_body]
fn path_parent(path: &str) -> (r: Option<String>)
    ensures
        is_portable_path(path@) ==> opt_view(r) == Some(parent_text(path@)),
{
    match Path::new(path).parent() {
        Some(parent) => match parent.to_str() {
            Some(parent) => Some(parent.to_owned()),
            None => None,
        },
        None => None,
    }
}

/// The name of the directory of a portable path, where it has one.
pub open spec fn parent_name_of(s: Seq<char>) -> Option<Seq<char>> {
    let i = last_index(s, '/');
    if i <= 0 {
        None
    } else {
        Some(last_part(s.subrange(0, i)))
    }
}

/// The backing module of a portable path, as [`module_name`] finds it from
/// the path's parts.
pub open spec fn portable_module(s: Seq<char>) -> Result<Option<Seq<char>>, Seq<char>> {
    module_name(Some(last_part(s)), parent_name_of(s), Some(stem_of(last_part(s))))
}

pub open spec fn no_file_name_error() -> Seq<char> {
    "`slop` could not derive a filename"@
}

pub open spec fn no_module_name_error() -> Seq<char> {
    "`slop` could not derive a module name"@
}

pub open spec fn unusable_module_error(stem: Seq<char>) -> Seq<char> {
    "`"@ + stem + "` cannot be used as a `zz_slop` module name"@
}

/// The module under `crate::zz_slop` that backs a source file: none for the
/// crate root (`lib.rs`, `main.rs`), the directory's name for a `mod.rs`, the
/// file's stem otherwise; written as a raw identifier where it is a keyword.
pub open spec fn module_name(
    file_name: Option<Seq<char>>,
    parent_name: Option<Seq<char>>,
    stem: Option<Seq<char>>,
) -> Result<Option<Seq<char>>, Seq<char>> {
    match file_name {
        None => Err(no_file_name_error()),
        Some(name) => if name == "lib.rs"@ || name == "main.rs"@ {
            Ok(None)
        } else {
            let module = if name == "mod.rs"@ {
                parent_name
            } else {
                stem
            };
            match module {
                None => Err(no_module_name_error()),
                Some(m) => if parses_as_ident(m) {
                    Ok(Some(m))
                } else if parses_as_ident("r#"@ + m) {
                    Ok(Some("r#"@ + m))
                } else {
                    Err(unusable_module_error(m))
                },
            }
        },
    }
}

pub open spec fn opt_view(s: Option<String>) -> Option<Seq<char>> {
    match s {
        Some(s) => Some(s@),
        None => None,
    }
}

fn str_eq(a: &str, b: &str) -> (r: bool)
    ensures
        r == (a@ == b@),
{
    let n = a.unicode_len();
    if n != b.unicode_len() {
        return false;
    }
    let mut i: usize = 0;
    while i < n
        invariant
            n == a@.len(),
            n == b@.len(),
            i <= n,
            forall|k: int| 0 <= k < i ==> a@[k] == b@[k],
        decreases n - i,
    {
        if a.get_char(i) != b.get_char(i) {
            return false;
        }
        i = i + 1;
    }
    proof {
        assert(a@ =~= b@);
    }
    true
}

fn text(s: &str) -> (r: String)
    ensures
        r@ == s@,
{
    s.to_owned()
}

/// The backing module of a source file, given the parts of its path: the
/// file name, the name of its directory, and the file's stem.
pub fn module_for(
    file_name: Option<String>,
    parent_name: Option<String>,
    stem: Option<String>,
) -> (r: Result<Option<String>, String>)
    ensures
        match r {
            Ok(m) => module_name(opt_view(file_name), opt_view(parent_name), opt_view(stem))
                == Ok::<Option<Seq<char>>, Seq<char>>(opt_view(m)),
            Err(e) => module_name(opt_view(file_name), opt_view(parent_name), opt_view(stem))
                == Err::<Option<Seq<char>>, Seq<char>>(e@),
        },
{
    proof {
        reveal_strlit("lib.rs");
        reveal_strlit("main.rs");
        reveal_strlit("mod.rs");
    }
    let name = match file_name {
        None => {
            return Err(text("`slop` could not derive a filename"));
        },
        Some(name) => name,
    };
    if str_eq(name.as_str(), "lib.rs") || str_eq(name.as_str(), "main.rs") {
        return Ok(None);
    }
    let module = if str_eq(name.as_str(), "mod.rs") {
        parent_name
    } else {
        stem
    };
    let module = match module {
        None => {
            return Err(text("`slop` could not derive a module name"));
        },
        Some(m) => m,
    };
    if ident_parses(module.as_str()) {
        return Ok(Some(module));
    }
    let raw = text("r#").concat(module.as_str());
    if ident_parses(raw.as_str()) {
        return Ok(Some(raw));
    }
    let message = text("`").concat(module.as_str()).concat(
        "` cannot be used as a `zz_slop` module name",
    );
    Err(message)
}

/// The mathematical form of the result of [`module_for`].
pub open spec fn module_result_view(r: Result<Option<String>, String>) -> Result<
    Option<Seq<char>>,
    Seq<char>,
> {
    match r {
        Ok(m) => Ok(opt_view(m)),
        Err(e) => Err(e@),
    }
}

/// Whether `res` is what [`module_name`] gives for some file name, directory
/// name and stem.
pub open spec fn is_module_outcome(res: Result<Option<Seq<char>>, Seq<char>>) -> bool {
    exists|name: Option<Seq<char>>, parent: Option<Seq<char>>, stem: Option<Seq<char>>|
        #[trigger] module_name(name, parent, stem) == res
}

/// The backing module of the source file at `file`: [`module_for`] of its
/// file name, the file name of its directory, and its stem, as the standard
/// library's path functions find them.
pub fn source_module(file: &str) -> (r: Result<Option<String>, String>)
    ensures
        is_module_outcome(module_result_view(r)),
        is_portable_path(file@) ==> module_result_view(r) == portable_module(file@),
        r matches Ok(Some(m)) ==> parses_as_ident(m@),
{
    let file_name = path_file_name(file);
    let parent = path_parent(file);
    let parent_name = match &parent {
        Some(parent) => path_file_name(parent.as_str()),
        None => None,
    };
    let stem = path_file_stem(file);
    proof {
        if is_portable_path(file@) {
            lemma_portable_parent(file@);
        }
    }
    let ghost views = (opt_view(file_name), opt_view(parent_name), opt_view(stem));
    let r = module_for(file_name, parent_name, stem);
    proof {
        assert(module_name(views.0, views.1, views.2) == module_result_view(r));
    }
    r
}

/// The directory part of a portable path is portable, or empty, or the root;
/// its file name is the name of the path's directory.
proof fn lemma_portable_parent(s: Seq<char>)
    requires
        is_portable_path(s),
    ensures
        parent_name_of(s) is Some ==> is_portable_path(parent_text(s))
            && parent_name_of(s) == Some(last_part(parent_text(s))),
        parent_name_of(s) is None ==> parent_text(s) == Seq::<char>::empty()
            || parent_text(s) == seq!['/'],
{
    lemma_last_index(s, '/');
    let i = last_index(s, '/');
    if i > 0 {
        let p = s.subrange(0, i);
        assert forall|k: int| 0 <= k < p.len() implies #[trigger] p[k] != '\\' && p[k] != ':' by {
            assert(p[k] == s[k]);
        }
    }
}

/// The path of the backing module.
pub open spec fn slop_path_of(module: Option<Seq<char>>) -> Seq<char> {
    match module {
        Some(m) => "crate::zz_slop::"@ + m,
        None => "crate::zz_slop"@,
    }
}

/// The path of the backing module: `crate::zz_slop`, or the module under it.
pub fn slop_path(module: Option<&str>) -> (r: String)
    ensures
        r@ == slop_path_of(
            match module {
                Some(m) => Some(m@),
                None => None,
            },
        ),
{
    match module {
        Some(m) => text("crate::zz_slop::").concat(m),
        None => text("crate::zz_slop"),
    }
}

/// Where the facade crate was found, as `proc_macro_crate::crate_name` reports it.
pub enum FoundCrate {
    /// The crate being compiled is the facade itself.
    Itself,
    /// The facade is a dependency under this name.
    Name(String),
}

/// `s` with each `-` replaced by `_`.
pub open spec fn hyphens_to_underscores(s: Seq<char>) -> Seq<char> {
    s.map_values(|c: char| if c == '-' { '_' } else { c })
}

/// The path of the facade crate: `::compromise` when compiling the facade
/// itself, else the dependency's name as an identifier.
pub open spec fn facade_path_of(found: FoundCrate) -> Seq<char> {
    match found {
        FoundCrate::Itself => "::compromise"@,
        FoundCrate::Name(n) => "::"@ + hyphens_to_underscores(n@),
    }
}

/// The path through which generated code names the facade crate.
pub fn facade_path(found: &FoundCrate) -> (r: String)
    ensures
        r@ == facade_path_of(*found),
{
    match found {
        FoundCrate::Itself => text("::compromise"),
        FoundCrate::Name(name) => {
            let mut r = text("::");
            let ghost prefix = r@;
            let n = name.as_str().unicode_len();
            let ghost s = name@;
            let mut i: usize = 0;
            while i < n
                invariant
                    s == name@,
                    n == s.len(),
                    i <= n,
                    r@ == prefix + hyphens_to_underscores(s.take(i as int)),
                decreases n - i,
            {
                let c = name.as_str().get_char(i);
                let piece = if c == '-' {
                    "_"
                } else {
                    name.as_str().substring_char(i, i + 1)
                };
                proof {
                    reveal_strlit("_");
                    assert(piece@ =~= seq![if c == '-' { '_' } else { c }]);
                    assert(hyphens_to_underscores(s.take(i + 1)) =~= hyphens_to_underscores(
                        s.take(i as int),
                    ).push(if c == '-' { '_' } else { c }));
                }
                r.append(piece);
                i = i + 1;
            }
            proof {
                assert(s.take(n as int) =~= s);
            }
            r
        },
    }
}

/// How a parameter is passed on to the backing function.
pub enum Argument {
    /// `self.0`: the receiver by value.
    SelfValue,
    /// `&self.0`
    SelfRef,
    /// `&mut self.0`
    SelfMut,
    /// `IntoSlop::into_slop(name)`: a parameter whose type mentions `Self`.
    Converted(String),
    /// The parameter as it is.
    Plain(String),
}

/// The body generated for a declaration: a call of the function of the same
/// name in the backing module.
pub struct Delegation {
    /// The path of the facade crate, through which conversions are named.
    pub facade: String,
    /// The path of the backing module.
    pub target: String,
    /// The function's name.
    pub name: String,
    pub arguments: Vec<Argument>,
    /// The call stands in an `unsafe` block.
    pub unsafe_block: bool,
    /// The call is awaited.
    pub awaited: bool,
    /// The result goes through `FromSlop::from_slop`.
    pub converted_result: bool,
}

/// Whether `arg` passes on `input`, whose type mentions `Self` where `contains`.
pub open spec fn passes(input: InputShape, contains: bool, arg: Argument) -> bool {
    match input {
        InputShape::Receiver(r) => if !r.reference {
            arg is SelfValue
        } else if !r.mutable {
            arg is SelfRef
        } else {
            arg is SelfMut
        },
        InputShape::Typed(PatShape::Ident { name, .. }, _) => if contains {
            arg matches Argument::Converted(n) && n@ == name@
        } else {
            arg matches Argument::Plain(n) && n@ == name@
        },
        InputShape::Typed(PatShape::Other, _) => false,
    }
}

/// Whether `d` is the delegating body that `g` generates for the signature
/// `sig` with analysis `analysis`: a call of the function of the same name in
/// the backing module, each parameter passed on as [`passes`] says, in an
/// `unsafe` block for an `unsafe` function, awaited for an `async` one, its
/// result converted where the return type mentions `Self`.
pub open spec fn delegates(g: Generator, sig: SignatureShape, analysis: SignatureAnalysis, d: Delegation) -> bool {
    &&& d.facade@ == g.facade@
    &&& d.target@ == slop_path_of(opt_view(g.module))
    &&& d.name@ == sig.name@
    &&& d.arguments@.len() == sig.inputs@.len()
    &&& forall|i: int|
        0 <= i < sig.inputs@.len() ==> passes(
            #[trigger] sig.inputs@[i],
            analysis.arguments_containing_self@[i],
            d.arguments@[i],
        )
    &&& d.unsafe_block == sig.unsafety
    &&& d.awaited == sig.asyncness
    &&& d.converted_result == analysis.return_contains_self
}

/// The generator of delegating code for one declaration site.
pub struct Generator {
    /// The backing module of the source file, `None` for the crate root.
    pub module: Option<String>,
    /// The path of the facade crate.
    pub facade: String,
}

impl Generator {
    /// The call that becomes the body of the declaration with signature `sig`,
    /// whose analysis is `analysis`.
    pub fn body(&self, sig: &SignatureShape, analysis: &SignatureAnalysis) -> (r: Delegation)
        requires
            analysis_of(*sig, true) == Ok::<(bool, Seq<bool>), Seq<char>>(analysis_view(*analysis))
                || analysis_of(*sig, false) == Ok::<(bool, Seq<bool>), Seq<char>>(
                analysis_view(*analysis),
            ),
        ensures
            delegates(*self, *sig, *analysis, r),
    {
        proof {
            if analysis_of(*sig, false) is Ok {
                lemma_function_checks_hold_for_methods(*sig);
            }
        }
        let target = match &self.module {
            Some(m) => slop_path(Some(m.as_str())),
            None => slop_path(None),
        };
        let ghost contains = sig.inputs@.map_values(|i: InputShape| input_contains_self(i));
        let mut arguments: Vec<Argument> = Vec::new();
        let mut i: usize = 0;
        while i < sig.inputs.len()
            invariant
                i <= sig.inputs.len(),
                analysis.arguments_containing_self@ == contains,
                contains == sig.inputs@.map_values(|i: InputShape| input_contains_self(i)),
                first_input_error(sig.inputs@, true) is None,
                arguments@.len() == i,
                forall|k: int|
                    0 <= k < i ==> passes(
                        #[trigger] sig.inputs@[k],
                        contains[k],
                        arguments@[k],
                    ),
            decreases sig.inputs.len() - i,
        {
            proof {
                lemma_no_input_error(sig.inputs@, i as int);
            }
            let argument = match &sig.inputs[i] {
                InputShape::Receiver(receiver) => {
                    if !receiver.reference {
                        Argument::SelfValue
                    } else if !receiver.mutable {
                        Argument::SelfRef
                    } else {
                        Argument::SelfMut
                    }
                },
                InputShape::Typed(pattern, _) => match pattern {
                    PatShape::Ident { name, .. } => {
                        if analysis.arguments_containing_self[i] {
                            Argument::Converted(name.clone())
                        } else {
                            Argument::Plain(name.clone())
                        }
                    },
                    PatShape::Other => {
                        proof {
                            assert(false);
                        }
                        Argument::Plain(text(""))
                    },
                },
            };
            arguments.push(argument);
            i = i + 1;
        }
        Delegation {
            facade: self.facade.clone(),
            target,
            name: sig.name.clone(),
            arguments,
            unsafe_block: sig.unsafety,
            awaited: sig.asyncness,
            converted_result: analysis.return_contains_self,
        }
    }
}

/// The delegating call's result is converted exactly when the declared
/// return type mentions `Self`: a declaration that returns nothing, or a type
/// without `Self` (such as `i32`), gets the backing function's result as it
/// is; every parameter whose type has no `Self` is passed on plainly.
pub proof fn law_conversions_follow_self(
    g: Generator,
    sig: SignatureShape,
    analysis: SignatureAnalysis,
    d: Delegation,
    method: bool,
)
    requires
        analysis_of(sig, method) == Ok::<(bool, Seq<bool>), Seq<char>>(analysis_view(analysis)),
        delegates(g, sig, analysis, d),
    ensures
        d.converted_result <==> (sig.output is Some && usage_at(sig.output->Some_0, false).contains),
        forall|i: int|
            0 <= i < sig.inputs@.len() && (#[trigger] sig.inputs@[i] is Typed) && !usage_at(
                sig.inputs@[i]->Typed_1,
                false,
            ).contains ==> d.arguments@[i] is Plain,
{
    assert forall|i: int|
        0 <= i < sig.inputs@.len() && (#[trigger] sig.inputs@[i] is Typed) && !usage_at(
            sig.inputs@[i]->Typed_1,
            false,
        ).contains implies d.arguments@[i] is Plain by {
        assert(analysis.arguments_containing_self@[i] == input_contains_self(sig.inputs@[i]));
        assert(passes(sig.inputs@[i], analysis.arguments_containing_self@[i], d.arguments@[i]));
    }
}

/// A delegating body calls the function of the same name in the backing
/// module (`crate::zz_slop` at the crate root, `crate::zz_slop::<module>`
/// elsewhere) with one argument per parameter, in order: `self` by value as
/// `self.0`, `&self` as `&self.0`, `&mut self` as `&mut self.0`; the call is
/// awaited exactly for an `async` function and stands in an `unsafe` block
/// exactly for an `unsafe` one.
pub proof fn law_delegation_target(g: Generator, sig: SignatureShape, analysis: SignatureAnalysis, d: Delegation)
    requires
        delegates(g, sig, analysis, d),
    ensures
        g.module is None ==> d.target@ == "crate::zz_slop"@,
        g.module is Some ==> d.target@ == "crate::zz_slop::"@ + g.module->Some_0@,
        d.name@ == sig.name@,
        d.facade@ == g.facade@,
        d.arguments@.len() == sig.inputs@.len(),
        d.awaited == sig.asyncness,
        d.unsafe_block == sig.unsafety,
        forall|i: int|
            0 <= i < sig.inputs@.len() && (#[trigger] sig.inputs@[i] is Receiver) ==> (if !sig.inputs@[
                i]->Receiver_0.reference {
                d.arguments@[i] is SelfValue
            } else if sig.inputs@[i]->Receiver_0.mutable {
                d.arguments@[i] is SelfMut
            } else {
                d.arguments@[i] is SelfRef
            }),
{
    assert forall|i: int|
        0 <= i < sig.inputs@.len() && (#[trigger] sig.inputs@[i] is Receiver) implies (if !sig.inputs@[
            i]->Receiver_0.reference {
            d.arguments@[i] is SelfValue
        } else if sig.inputs@[i]->Receiver_0.mutable {
            d.arguments@[i] is SelfMut
        } else {
            d.arguments@[i] is SelfRef
        }) by {
        assert(passes(sig.inputs@[i], analysis.arguments_containing_self@[i], d.arguments@[i]));
    }
}

/// A signature whose parameters passed the checks has only receivers and
/// identifier patterns.
proof fn lemma_no_input_error(inputs: Seq<InputShape>, i: int)
    requires
        first_input_error(inputs, true) is None,
        0 <= i < inputs.len(),
    ensures
        input_error(inputs[i], true) is None,
    decreases i,
{
    if i > 0 {
        lemma_no_input_error(inputs.drop_first(), i - 1);
        assert(inputs.drop_first()[i - 1] == inputs[i]);
    }
}


/// The names of the lifetime parameters among `params`.
pub open spec fn lifetime_names(params: Seq<GenericParamShape>) -> Seq<Seq<char>>
    decreases params.len(),
{
    if params.len() == 0 {
        Seq::empty()
    } else {
        let rest = lifetime_names(params.drop_last());
        match params.last() {
            GenericParamShape::Lifetime(n) => rest.push(n@),
            _ => rest,
        }
    }
}

/// `base` followed by `k` underscores.
pub open spec fn with_underscores(base: Seq<char>, k: nat) -> Seq<char> {
    base + Seq::new(k, |i: int| '_')
}

/// The length of the longest of `names`.
pub open spec fn longest(names: Seq<Seq<char>>) -> nat
    decreases names.len(),
{
    if names.len() == 0 {
        0
    } else {
        let rest = longest(names.drop_last());
        if names.last().len() > rest {
            names.last().len()
        } else {
            rest
        }
    }
}

proof fn lemma_longest(names: Seq<Seq<char>>, x: Seq<char>)
    requires
        names.contains(x),
    ensures
        x.len() <= longest(names),
    decreases names.len(),
{
    if names.last() != x {
        let i = choose|i: int| 0 <= i < names.len() && names[i] == x;
        assert(names.drop_last()[i] == x);
        lemma_longest(names.drop_last(), x);
    }
}

fn clone_param(p: &GenericParamShape) -> (r: GenericParamShape)
    ensures
        r == *p,
{
    match p {
        GenericParamShape::Lifetime(n) => GenericParamShape::Lifetime(n.clone()),
        GenericParamShape::Type(n) => GenericParamShape::Type(n.clone()),
        GenericParamShape::Const(n) => GenericParamShape::Const(n.clone()),
    }
}

fn contains_name(names: &Vec<String>, name: &String) -> (r: bool)
    ensures
        r == names@.map_values(|n: String| n@).contains(name@),
{
    let ghost views = names@.map_values(|n: String| n@);
    let mut i: usize = 0;
    while i < names.len()
        invariant
            i <= names.len(),
            views == names@.map_values(|n: String| n@),
            forall|k: int| 0 <= k < i ==> views[k] != name@,
        decreases names.len() - i,
    {
        if names[i] == *name {
            assert(views[i as int] == name@);
            return true;
        }
        i = i + 1;
    }
    false
}

/// `generics` with a new lifetime parameter first, named `preferred` followed
/// by as few underscores as make it differ from every lifetime already there;
/// with that name.
pub fn with_lifetime(generics: &Vec<GenericParamShape>, preferred: &str) -> (r: (
    Vec<GenericParamShape>,
    String,
))
    ensures
        exists|k: nat|
            {
                &&& r.1@ == with_underscores(preferred@, k)
                &&& forall|j: nat|
                    j < k ==> lifetime_names(generics@).contains(
                        #[trigger] with_underscores(preferred@, j),
                    )
            },
        !lifetime_names(generics@).contains(r.1@),
        r.0@.len() == generics@.len() + 1,
        r.0@[0] matches GenericParamShape::Lifetime(n) && n@ == r.1@,
        r.0@.skip(1) == generics@,
{
    let mut names: Vec<String> = Vec::new();
    let mut i: usize = 0;
    while i < generics.len()
        invariant
            i <= generics.len(),
            names@.map_values(|n: String| n@) == lifetime_names(generics@.take(i as int)),
        decreases generics.len() - i,
    {
        proof {
            assert(generics@.take(i + 1).drop_last() =~= generics@.take(i as int));
        }
        match &generics[i] {
            GenericParamShape::Lifetime(n) => {
                let ghost before = names@;
                names.push(n.clone());
                proof {
                    assert(names@.map_values(|n: String| n@) =~= before.map_values(
                        |n: String| n@,
                    ).push(n@));
                }
            },
            _ => {},
        }
        i = i + 1;
    }
    proof {
        assert(generics@.take(i as int) =~= generics@);
    }
    let ghost existing = lifetime_names(generics@);
    let mut name = text(preferred);
    let ghost mut k: nat = 0;
    proof {
        assert(with_underscores(preferred@, 0) =~= preferred@);
    }
    while contains_name(&names, &name)
        invariant
            names@.map_values(|n: String| n@) == existing,
            name@ == with_underscores(preferred@, k),
            forall|j: nat| j < k ==> existing.contains(#[trigger] with_underscores(preferred@, j)),
        decreases longest(existing) + 1 - name@.len(),
    {
        proof {
            lemma_longest(existing, name@);
        }
        name.append("_");
        proof {
            reveal_strlit("_");
            assert(with_underscores(preferred@, k + 1) =~= with_underscores(preferred@, k).push('_'));
            k = k + 1;
        }
    }
    let mut params: Vec<GenericParamShape> = Vec::new();
    params.push(GenericParamShape::Lifetime(name.clone()));
    let mut j: usize = 0;
    while j < generics.len()
        invariant
            j <= generics.len(),
            params@.len() == j + 1,
            params@[0] matches GenericParamShape::Lifetime(n) && n@ == name@,
            params@.skip(1) == generics@.take(j as int),
        decreases generics.len() - j,
    {
        let ghost before = params@;
        params.push(clone_param(&generics[j]));
        proof {
            assert(params@.skip(1) =~= before.skip(1).push(generics@[j as int]));
            assert(generics@.take(j + 1) =~= generics@.take(j as int).push(generics@[j as int]));
        }
        j = j + 1;
    }
    proof {
        assert(generics@.take(j as int) =~= generics@);
    }
    (params, name)
}

/// What the declaration of a struct becomes: a tuple struct around the struct
/// of the same name in the backing module, with `FromSlop` both ways by
/// value, by shared reference and by mutable reference; the conversions of
/// references are generic over one more lifetime.
pub struct StructurePlan {
    /// The path of the wrapped struct.
    pub backing: String,
    /// The lifetime of the conversions of references.
    pub lifetime: String,
    /// The generics of the conversions of references: the struct's, with
    /// that lifetime first.
    pub ref_generics: Vec<GenericParamShape>,
}

/// Whether `p` is the plan that `g` makes for the declared struct `name`
/// with generics `generics`: it wraps the struct of that name in the backing
/// module, and its conversions of references take a lifetime named `__slop`
/// followed by as few underscores as make it new among the struct's.
pub open spec fn plans_structure(
    g: Generator,
    name: Seq<char>,
    generics: Seq<GenericParamShape>,
    p: StructurePlan,
) -> bool {
    &&& p.backing@ == slop_path_of(opt_view(g.module)) + "::"@ + name
    &&& exists|k: nat|
        {
            &&& p.lifetime@ == with_underscores("__slop"@, k)
            &&& forall|j: nat|
                j < k ==> lifetime_names(generics).contains(
                    #[trigger] with_underscores("__slop"@, j),
                )
        }
    &&& !lifetime_names(generics).contains(p.lifetime@)
    &&& p.ref_generics@.len() == generics.len() + 1
    &&& p.ref_generics@[0] matches GenericParamShape::Lifetime(n) && n@ == p.lifetime@
    &&& p.ref_generics@.skip(1) == generics
}

impl Generator {
    /// The plan for the declared struct `name` with generics `generics`.
    pub fn structure(&self, name: &str, generics: &Vec<GenericParamShape>) -> (r: StructurePlan)
        ensures
            plans_structure(*self, name@, generics@, r),
    {
        let module = match &self.module {
            Some(m) => slop_path(Some(m.as_str())),
            None => slop_path(None),
        };
        let backing = module.concat("::").concat(name);
        let (ref_generics, lifetime) = with_lifetime(generics, "__slop");
        StructurePlan { backing, lifetime, ref_generics }
    }
}

/// The code generated for one item.
pub enum Generated {
    /// A declared function and its delegating body.
    Function(Delegation),
    /// A declared struct.
    Struct(StructurePlan),
    /// An impl block: the body of each method, `None` for the items kept as
    /// they are.
    Impl(Vec<Option<Delegation>>),
}

/// Whether `out` is what `g` generates for `item`, which the attribute
/// accepted as `parsed`.
pub open spec fn generates(g: Generator, item: ItemShape, parsed: ParsedItem, out: Generated) -> bool {
    match (item, parsed, out) {
        (ItemShape::Declaration(sig), ParsedItem::Function(a), Generated::Function(d)) => delegates(
            g,
            sig,
            a,
            d,
        ),
        (ItemShape::Struct { name, generics, .. }, ParsedItem::Struct, Generated::Struct(p)) =>
            plans_structure(g, name@, generics@, p),
        (ItemShape::Impl(members), ParsedItem::Impl(_), Generated::Impl(bodies)) => {
            &&& bodies@.len() == members@.len()
            &&& forall|i: int|
                0 <= i < members@.len() ==> member_generates(
                    g,
                    #[trigger] members@[i],
                    parsed->Impl_0@[i],
                    bodies@[i],
                )
        },
        _ => false,
    }
}

/// Whether `body` is what `g` generates for the impl item `m`, analysed as `a`.
pub open spec fn member_generates(
    g: Generator,
    m: ImplMemberShape,
    a: Option<SignatureAnalysis>,
    body: Option<Delegation>,
) -> bool {
    match (m, a, body) {
        (ImplMemberShape::Declaration(sig), Some(a), Some(d)) => delegates(g, sig, a, d),
        (ImplMemberShape::Declaration(_), _, _) => false,
        (_, _, body) => body is None,
    }
}

impl Generator {
    /// The code for `item`, which the attribute accepted as `parsed`.
    pub fn generate(&self, item: &ItemShape, parsed: &ParsedItem) -> (r: Generated)
        requires
            parses_item(*item, Ok::<ParsedItem, &'static str>(*parsed)),
        ensures
            generates(*self, *item, *parsed, r),
    {
        match (item, parsed) {
            (ItemShape::Declaration(sig), ParsedItem::Function(analysis)) => Generated::Function(
                self.body(sig, analysis),
            ),
            (ItemShape::Struct { name, generics, .. }, ParsedItem::Struct) => Generated::Struct(
                self.structure(name.as_str(), generics),
            ),
            (ItemShape::Impl(members), ParsedItem::Impl(analyses)) => {
                let mut bodies: Vec<Option<Delegation>> = Vec::new();
                let mut i: usize = 0;
                while i < members.len()
                    invariant
                        parses_item(*item, Ok::<ParsedItem, &'static str>(*parsed)),
                        *item == ItemShape::Impl(*members),
                        *parsed == ParsedItem::Impl(*analyses),
                        i <= members.len(),
                        bodies@.len() == i,
                        forall|k: int|
                            0 <= k < i ==> member_generates(
                                *self,
                                #[trigger] members@[k],
                                analyses@[k],
                                bodies@[k],
                            ),
                    decreases members.len() - i,
                {
                    proof {
                        lemma_accepted_methods(members@, i as int);
                        assert(member_view(analyses@[i as int]) == member_result(members@[i as int]));
                    }
                    let body = match (&members[i], &analyses[i]) {
                        (ImplMemberShape::Declaration(sig), Some(analysis)) => Some(
                            self.body(sig, analysis),
                        ),
                        _ => None,
                    };
                    bodies.push(body);
                    i = i + 1;
                }
                Generated::Impl(bodies)
            },
            _ => {
                proof {
                    assert(false);
                }
                Generated::Impl(Vec::new())
            },
        }
    }
}

/// Whether `r` is what is generated for `item`, accepted as `parsed`, in a
/// file whose backing module was found as `res`: the error that finding it
/// reported, or the code of a generator for that module and for the facade
/// crate found as `found`.
pub open spec fn generated_for_module(
    res: Result<Option<Seq<char>>, Seq<char>>,
    found: FoundCrate,
    item: ItemShape,
    parsed: ParsedItem,
    r: Result<Generated, String>,
) -> bool {
    match res {
        Err(e) => r matches Err(x) && x@ == e,
        Ok(m) => r matches Ok(out) && exists|g: Generator|
            {
                &&& opt_view(g.module) == m
                &&& g.facade@ == facade_path_of(found)
                &&& #[trigger] generates(g, item, parsed, out)
            },
    }
}

/// The code that the attribute generates for `item`, accepted as `parsed`,
/// in the source file at `file`, with the facade crate found as `found`.
pub fn generate(file: &str, found: &FoundCrate, item: &ItemShape, parsed: &ParsedItem) -> (r:
    Result<Generated, String>)
    requires
        parses_item(*item, Ok::<ParsedItem, &'static str>(*parsed)),
    ensures
        exists|res: Result<Option<Seq<char>>, Seq<char>>|
            {
                &&& #[trigger] is_module_outcome(res)
                &&& generated_for_module(res, *found, *item, *parsed, r)
            },
        is_portable_path(file@) ==> generated_for_module(
            portable_module(file@),
            *found,
            *item,
            *parsed,
            r,
        ),
        r matches Ok(out) ==> exists|g: Generator|
            {
                &&& g.facade@ == facade_path_of(*found)
                &&& g.module matches Some(m) ==> parses_as_ident(m@)
                &&& generates(g, *item, *parsed, out)
            },
{
    let found_module = source_module(file);
    let ghost res = module_result_view(found_module);
    let module = match found_module {
        Ok(m) => m,
        Err(e) => {
            proof {
                assert(generated_for_module(res, *found, *item, *parsed, Err::<Generated, String>(e)));
            }
            return Err(e);
        },
    };
    let generator = Generator { module, facade: facade_path(found) };
    let out = generator.generate(item, parsed);
    proof {
        assert(opt_view(generator.module) == res->Ok_0);
        assert(generated_for_module(res, *found, *item, *parsed, Ok::<Generated, String>(out)));
    }
    Ok(out)
}

} // verus!
