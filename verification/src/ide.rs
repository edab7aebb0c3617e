//! Editor-facing decision kernels: which inlay hints to show, when the
//! turbofish assist applies, which names macro completion offers. The
//! syntax-tree and semantic queries stay with the caller; these functions
//! take their answers as plain values and make the decisions.

use vstd::prelude::*;

use crate::text::{chars_eq, ends_with, spec_ends_with, spec_starts_with, starts_with};

verus! {

/// How inlay hints are configured.
#[derive(Debug, Clone, PartialEq, Eq)]
pub struct InlayHintsConfig {
    pub type_hints: bool,
    pub parameter_hints: bool,
    pub chaining_hints: bool,
    pub max_length: Option<usize>,
}

impl Default for InlayHintsConfig {
    /// Everything on, with no length cap.
    fn default() -> (r: InlayHintsConfig)
        ensures
            r.type_hints && r.parameter_hints && r.chaining_hints && r.max_length is None,
    {
        InlayHintsConfig { type_hints: true, parameter_hints: true, chaining_hints: true, max_length: None }
    }
}

/// The kind of an inlay hint.
#[derive(Debug, Clone, Copy, PartialEq, Eq, Structural)]
pub enum InlayKind {
    TypeHint,
    ParameterHint,
    ChainingHint,
}

/// One inlay hint: where it sits, what kind it is, what it says.
#[derive(Debug)]
pub struct InlayHint {
    pub range: crate::text::TextRange,
    pub kind: InlayKind,
    pub label: String,
}

/// The name without its leading underscores.
pub open spec fn spec_trim_underscores(s: Seq<char>) -> Seq<char>
    decreases s.len(),
{
    if s.len() > 0 && s[0] == '_' {
        spec_trim_underscores(s.drop_first())
    } else {
        s
    }
}

/// Drops the leading underscores of a name.
fn trim_underscores(s: &Vec<char>) -> (r: Vec<char>)
    ensures
        r@ == spec_trim_underscores(s@),
{
    let mut i: usize = 0;
    proof {
        assert(s@.skip(0) =~= s@);
    }
    while i < s.len() && s[i] == '_'
        invariant
            i <= s@.len(),
            spec_trim_underscores(s@.skip(i as int)) == spec_trim_underscores(s@),
        decreases s@.len() - i,
    {
        proof {
            assert(s@.skip(i as int)[0] == s@[i as int]);
            assert(s@.skip(i as int).drop_first() =~= s@.skip(i as int + 1));
        }
        i = i + 1;
    }
    let r = crate::text::suffix_chars(s, i);
    proof {
        if i < s@.len() {
            assert(s@.skip(i as int)[0] == s@[i as int]);
        } else {
            assert(s@.skip(i as int).len() == 0);
        }
    }
    r
}

/// The lower-case form of one character: ASCII capitals shift down, every
/// other character stays.
pub open spec fn spec_lower_char(c: char) -> char {
    if 65 <= c as u32 <= 90 {
        ((c as u32 + 32) as u8) as char
    } else {
        c
    }
}

/// A camel-case name in lower snake case: an inner capital gets an
/// underscore before it, and every capital is lowered.
pub open spec fn spec_lower_snake(s: Seq<char>, i: int) -> Seq<char>
    decreases s.len() - i,
{
    if i < 0 || i >= s.len() {
        Seq::empty()
    } else {
        let c = s[i];
        let head: Seq<char> = if 65 <= c as u32 <= 90 && i > 0 {
            seq!['_', spec_lower_char(c)]
        } else {
            seq![spec_lower_char(c)]
        };
        head + spec_lower_snake(s, i + 1)
    }
}

/// Converts a camel-case name to lower snake case.
pub fn to_lower_snake_case(s: &str) -> (r: String)
    ensures
        r@ == spec_lower_snake(s@, 0),
{
    let chars = crate::text::str_chars(s);
    let mut out: Vec<char> = Vec::new();
    let mut i: usize = 0;
    while i < chars.len()
        invariant
            i <= chars@.len(),
            chars@ == s@,
            out@ + spec_lower_snake(s@, i as int) == spec_lower_snake(s@, 0),
        decreases chars@.len() - i,
    {
        let c = chars[i];
        let cu = c as u32;
        let ghost pre = out@;
        if 65 <= cu && cu <= 90 {
            if i > 0 {
                out.push('_');
            }
            out.push((((cu + 32) as u8)) as char);
        } else {
            out.push(c);
        }
        proof {
            if 65 <= c as u32 <= 90 && i > 0 {
                assert(out@ =~= pre + seq!['_', spec_lower_char(c)]);
                assert(pre + (seq!['_', spec_lower_char(c)] + spec_lower_snake(s@, i as int + 1))
                    =~= out@ + spec_lower_snake(s@, i as int + 1));
            } else {
                assert(out@ =~= pre + seq![spec_lower_char(c)]);
                assert(pre + (seq![spec_lower_char(c)] + spec_lower_snake(s@, i as int + 1))
                    =~= out@ + spec_lower_snake(s@, i as int + 1));
            }
        }
        i = i + 1;
    }
    proof {
        assert(spec_lower_snake(s@, s@.len() as int) =~= Seq::<char>::empty());
        assert(out@ + Seq::<char>::empty() =~= out@);
    }
    crate::outside::chars_to_string(&out)
}

/// Whether a one-word parameter name is too obvious to hint at: a single
/// character, or one of the words std uses everywhere.
pub open spec fn spec_is_obvious_param(s: Seq<char>) -> bool {
    s.len() == 1 || s == "predicate"@ || s == "value"@ || s == "pat"@ || s == "rhs"@ || s
        == "other"@
}

/// Whether a parameter name is too obvious to be worth a hint.
pub fn is_obvious_param(param_name: &str) -> (r: bool)
    ensures
        r == spec_is_obvious_param(param_name@),
{
    proof {
        reveal_strlit("predicate");
        reveal_strlit("value");
        reveal_strlit("pat");
        reveal_strlit("rhs");
        reveal_strlit("other");
    }
    let chars = crate::text::str_chars(param_name);
    let is_obvious_param_name = chars_eq(&chars, &crate::text::str_chars("predicate")) || chars_eq(
        &chars,
        &crate::text::str_chars("value"),
    ) || chars_eq(&chars, &crate::text::str_chars("pat")) || chars_eq(
        &chars,
        &crate::text::str_chars("rhs"),
    ) || chars_eq(&chars, &crate::text::str_chars("other"));
    chars.len() == 1 || is_obvious_param_name
}

/// Whether the argument's name is similar to the parameter's: the argument's
/// enum name in lower snake case equals it, or the argument's rendering
/// (leading underscores dropped) starts or ends with it.
pub open spec fn spec_argument_similar(
    repr: Option<Seq<char>>,
    enum_name: Option<Seq<char>>,
    param: Seq<char>,
) -> bool {
    ||| (enum_name matches Some(e) && spec_lower_snake(e, 0) == param)
    ||| (repr matches Some(s) && {
        let t = spec_trim_underscores(s);
        spec_starts_with(t, param) || spec_ends_with(t, param)
    })
}

/// The view of an optional string.
pub open spec fn opt_str_view(s: Option<&String>) -> Option<Seq<char>> {
    match s {
        Some(x) => Some(x@),
        None => None,
    }
}

/// Decides whether an argument looks so much like the parameter that a hint
/// would repeat it: `repr` is the argument expression's rendering, if it has
/// a usable one; `enum_name` the name of the argument's enum type, if it has
/// one.
pub fn is_argument_similar_to_param_name(
    repr: Option<&String>,
    enum_name: Option<&String>,
    param_name: &str,
) -> (r: bool)
    ensures
        r == spec_argument_similar(opt_str_view(repr), opt_str_view(enum_name), param_name@),
{
    let param = crate::text::str_chars(param_name);
    let enum_similar = match enum_name {
        Some(e) => {
            let lowered = to_lower_snake_case(e.as_str());
            chars_eq(&crate::text::str_chars(lowered.as_str()), &param)
        },
        None => false,
    };
    if enum_similar {
        return true;
    }
    match repr {
        None => false,
        Some(s) => {
            let trimmed = trim_underscores(&crate::text::str_chars(s.as_str()));
            starts_with(&trimmed, &param) || ends_with(&trimmed, &param)
        },
    }
}

/// Whether a parameter-name hint should be shown at an argument.
pub open spec fn spec_should_show_param_hint(
    fn_name: Option<Seq<char>>,
    has_self_param: bool,
    parameters_len: int,
    param_name_raw: Seq<char>,
    repr: Option<Seq<char>>,
    enum_name: Option<Seq<char>>,
) -> bool {
    let param = spec_trim_underscores(param_name_raw);
    let plen: int = if has_self_param {
        parameters_len - 1
    } else {
        parameters_len
    };
    if param.len() == 0 || (fn_name matches Some(f) && spec_trim_underscores(f) == param)
        || spec_argument_similar(repr, enum_name, param) || spec_starts_with(
        param,
        "ra_fixture"@,
    ) {
        false
    } else {
        !(plen == 1 && spec_is_obvious_param(param))
    }
}

/// Decides whether a parameter-name hint should be shown: not when the name
/// is empty, repeats the function's own name, repeats the argument, names a
/// test fixture, or is the obvious name of a one-parameter function.
pub fn should_show_param_name_hint(
    fn_name: Option<&String>,
    has_self_param: bool,
    parameters_len: usize,
    param_name: &str,
    argument_repr: Option<&String>,
    argument_enum_name: Option<&String>,
) -> (r: bool)
    requires
        has_self_param ==> parameters_len >= 1,
    ensures
        r == spec_should_show_param_hint(
            opt_str_view(fn_name),
            has_self_param,
            parameters_len as int,
            param_name@,
            opt_str_view(argument_repr),
            opt_str_view(argument_enum_name),
        ),
{
    proof {
        reveal_strlit("ra_fixture");
    }
    let param = trim_underscores(&crate::text::str_chars(param_name));
    let name_matches_fn = match fn_name {
        Some(f) => {
            let ft = trim_underscores(&crate::text::str_chars(f.as_str()));
            chars_eq(&ft, &param)
        },
        None => false,
    };
    let param_str = crate::outside::chars_to_string(&param);
    if param.len() == 0 || name_matches_fn || is_argument_similar_to_param_name(
        argument_repr,
        argument_enum_name,
        param_str.as_str(),
    ) || starts_with(&param, &crate::text::str_chars("ra_fixture")) {
        return false;
    }
    let plen = if has_self_param {
        parameters_len - 1
    } else {
        parameters_len
    };
    !(plen == 1 && is_obvious_param(param_str.as_str()))
}

/// Whether the pattern's text is exactly the name of one of the enum's
/// variants: such a binding restates the type and needs no type hint.
pub fn pat_is_enum_variant(variant_names: &Vec<String>, pat_text: &str) -> (r: bool)
    ensures
        r == exists|i: int| 0 <= i < variant_names@.len() && (#[trigger] variant_names@[i])@
            == pat_text@,
{
    let pat = crate::text::str_chars(pat_text);
    let mut i: usize = 0;
    while i < variant_names.len()
        invariant
            i <= variant_names@.len(),
            pat@ == pat_text@,
            forall|j: int| 0 <= j < i ==> (#[trigger] variant_names@[j])@ != pat_text@,
        decreases variant_names@.len() - i,
    {
        if chars_eq(&crate::text::str_chars(variant_names[i].as_str()), &pat) {
            return true;
        }
        i = i + 1;
    }
    false
}

/// One edit the turbofish assist makes: what to insert, and where.
#[derive(Debug)]
pub struct TurboFishEdit {
    pub offset: u32,
    pub snippet: String,
}

/// Adds `::<_>` to a call of a generic method or function. Applicable only
/// when the name is not already followed by `::`, resolves to a function,
/// and that function has generic parameters; the insertion sits right after
/// the name, as a tabstop snippet when the editor takes snippets.
pub fn add_turbo_fish(
    already_has_fish: bool,
    is_function: bool,
    n_generic_params: usize,
    ident_end: u32,
    snippet_cap: bool,
) -> (r: Option<TurboFishEdit>)
    ensures
        r is Some <==> (!already_has_fish && is_function && n_generic_params > 0),
        r is Some ==> (r->0).offset == ident_end,
        r is Some ==> (r->0).snippet@ == (if snippet_cap {
            "::<${0:_}>"@
        } else {
            "::<_>"@
        }),
{
    if already_has_fish {
        return None;
    }
    if !is_function {
        return None;
    }
    if n_generic_params == 0 {
        return None;
    }
    let snippet = if snippet_cap {
        "::<${0:_}>".to_owned()
    } else {
        "::<_>".to_owned()
    };
    Some(TurboFishEdit { offset: ident_end, snippet })
}

/// The names of the macros among the scope entries, in scope order.
pub open spec fn spec_macro_completions(names: Seq<(String, bool)>) -> Seq<Seq<char>>
    decreases names.len(),
{
    if names.len() == 0 {
        Seq::empty()
    } else {
        let prev = spec_macro_completions(names.drop_last());
        if names.last().1 {
            prev.push(names.last().0@)
        } else {
            prev
        }
    }
}

/// The values of a list of strings.
pub open spec fn strs_view(s: Seq<String>) -> Seq<Seq<char>>
    decreases s,
{
    if s.len() == 0 {
        Seq::empty()
    } else {
        strs_view(s.drop_last()).push(s.last()@)
    }
}

/// The macro names completion offers at item position: every macro in scope,
/// and only when the cursor sits where a new item may start.
pub fn complete_macro_in_item_position(
    is_new_item: bool,
    names_in_scope: &Vec<(String, bool)>,
) -> (r: Vec<String>)
    ensures
        !is_new_item ==> r@.len() == 0,
        is_new_item ==> strs_view(r@) == spec_macro_completions(names_in_scope@),
{
    let mut r: Vec<String> = Vec::new();
    if !is_new_item {
        return r;
    }
    let mut i: usize = 0;
    proof {
        assert(strs_view(r@) =~= spec_macro_completions(names_in_scope@.take(0)));
    }
    while i < names_in_scope.len()
        invariant
            i <= names_in_scope@.len(),
            strs_view(r@) == spec_macro_completions(names_in_scope@.take(i as int)),
        decreases names_in_scope@.len() - i,
    {
        proof {
            assert(names_in_scope@.take(i as int + 1).drop_last() =~= names_in_scope@.take(
                i as int,
            ));
            assert(names_in_scope@.take(i as int + 1).last() == names_in_scope@[i as int]);
        }
        if names_in_scope[i].1 {
            let n = names_in_scope[i].0.clone();
            let ghost pre = r@;
            r.push(n);
            proof {
                assert(r@.drop_last() == pre);
                assert(strs_view(r@) == strs_view(pre).push(r@.last()@));
                assert(r@.last()@ == names_in_scope@[i as int].0@);
            }
        }
        i = i + 1;
    }
    proof {
        assert(names_in_scope@.take(names_in_scope@.len() as int) =~= names_in_scope@);
    }
    r
}

/// A fully qualified generic function over an iterator whose items compare
/// for equality; it hands back an owned empty string.
pub fn foo<S: Iterator>() -> (r: String) where <S as Iterator>::Item: Eq
    ensures
        r@.len() == 0,
{
    proof {
        reveal_strlit("");
    }
    "".to_owned()
}

} // verus!
