use vstd::prelude::*;
use vstd::string::*;
use crate::environment::Environment;
use crate::error::RuntimeError;
use crate::interpreter::{world, Interpreter, InterpreterView};
use crate::mail::strings_view;
use crate::semantics::{applied, char_texts, joined, matching};
use crate::text::{chars_of, pattern_matches, pattern_valid, regex_is_match};
use crate::types::{get_strings, lemma_tuple_view, types_view, value_view, Type, TypeView};
use crate::user::UserPath;

verus! {

/// The post-processing functions that the pipe operator can name.
#[derive(Clone, Copy, Debug, PartialEq, Eq)]
pub enum ModifierFunc {
    /// Cuts a text into its characters.
    Chars,
    /// Joins the texts of a tuple into one text.
    Merge,
    /// Keeps the texts of a tuple that a regular expression matches.
    Filter,
}

/// The registry with the three modifiers under their names.
pub open spec fn with_default_mods(modifiers: Map<Seq<char>, ModifierFunc>) -> Map<
    Seq<char>,
    ModifierFunc,
> {
    modifiers.insert("chars"@, ModifierFunc::Chars).insert("merge"@, ModifierFunc::Merge).insert(
        "filter"@,
        ModifierFunc::Filter,
    )
}

/// Registers `chars`, `merge` and `filter`.
pub fn apply_default_mods(inter: &mut Interpreter)
    requires
        old(inter).wf(),
    ensures
        final(inter).wf(),
        final(inter).servers == old(inter).servers,
        final(inter)@ == (InterpreterView {
            modifiers: with_default_mods(old(inter)@.modifiers),
            ..old(inter)@
        }),
{
    inter.modifiers.insert("chars".to_string(), ModifierFunc::Chars);
    inter.modifiers.insert("merge".to_string(), ModifierFunc::Merge);
    inter.modifiers.insert("filter".to_string(), ModifierFunc::Filter);
}

/// Hands a value and the arguments to a modifier.
pub fn apply_modifier(
    func: ModifierFunc,
    value: &Type,
    args: &Vec<Type>,
    inter: &mut Interpreter,
    from: &UserPath,
    env: &mut Environment,
    depth: usize,
) -> (r: Result<Option<Type>, RuntimeError>)
    requires
        old(inter).wf(),
        old(env).wf(),
    ensures
        final(inter).wf(),
        final(inter).servers == old(inter).servers,
        final(env).wf(),
        match applied(
            func,
            value@,
            types_view(args@),
            world(*old(inter), *old(env)),
            from@,
            depth as nat,
        ) {
            Ok((w, v)) => r is Ok && value_view(r->Ok_0) == v && world(*final(inter), *final(env))
                == w,
            Err(e) => r == Err::<Option<Type>, _>(e),
        },
    decreases depth, value@, 4nat, 0nat,
{
    if depth == 0 {
        return Err(RuntimeError::TooDeep);
    }
    match func {
        ModifierFunc::Chars => default_mod_chars(value, inter, from, env, args, depth),
        ModifierFunc::Merge => default_mod_merge(value, inter, from, env, args, depth),
        ModifierFunc::Filter => default_mod_filter(value, inter, from, env, args, depth),
    }
}

/// Cuts a text into its characters; takes no argument.
pub fn default_mod_chars(
    value: &Type,
    inter: &mut Interpreter,
    from: &UserPath,
    env: &mut Environment,
    args: &Vec<Type>,
    depth: usize,
) -> (r: Result<Option<Type>, RuntimeError>)
    requires
        old(inter).wf(),
        old(env).wf(),
        depth > 0,
    ensures
        final(inter).wf(),
        final(inter).servers == old(inter).servers,
        final(env).wf(),
        match applied(
            ModifierFunc::Chars,
            value@,
            types_view(args@),
            world(*old(inter), *old(env)),
            from@,
            depth as nat,
        ) {
            Ok((w, v)) => r is Ok && value_view(r->Ok_0) == v && world(*final(inter), *final(env))
                == w,
            Err(e) => r == Err::<Option<Type>, _>(e),
        },
    decreases depth, value@, 3nat, 0nat,
{
    if args.len() != 0 {
        return Ok(None);
    }
    let text = match value.get_string(inter, from, env, depth) {
        Ok(Some(text)) => text,
        Ok(None) => {
            return Err(RuntimeError::ExpectedText);
        },
        Err(e) => {
            return Err(e);
        },
    };
    let chars = chars_of(text.as_str());
    let mut out: Vec<Type> = Vec::new();
    let mut i: usize = 0;
    while i < chars.len()
        invariant
            i <= chars.len(),
            out.len() == i,
            forall|j: int| 0 <= j < i ==> out[j]@ == TypeView::Text(seq![chars[j]]),
        decreases chars.len() - i,
    {
        let mut one = String::new();
        one.push(chars[i]);
        assert(one@ =~= seq![chars[i as int]]);
        out.push(Type::Text(one));
        i += 1;
    }
    let r = Type::Tuple(out);
    proof {
        lemma_tuple_view(&r);
        assert(types_view(out@) =~= char_texts(text@));
    }
    Ok(Some(r))
}

/// Joins the texts of a tuple, or the text itself, into one text; takes
/// no argument.
pub fn default_mod_merge(
    value: &Type,
    inter: &mut Interpreter,
    from: &UserPath,
    env: &mut Environment,
    args: &Vec<Type>,
    depth: usize,
) -> (r: Result<Option<Type>, RuntimeError>)
    requires
        old(inter).wf(),
        old(env).wf(),
        depth > 0,
    ensures
        final(inter).wf(),
        final(inter).servers == old(inter).servers,
        final(env).wf(),
        match applied(
            ModifierFunc::Merge,
            value@,
            types_view(args@),
            world(*old(inter), *old(env)),
            from@,
            depth as nat,
        ) {
            Ok((w, v)) => r is Ok && value_view(r->Ok_0) == v && world(*final(inter), *final(env))
                == w,
            Err(e) => r == Err::<Option<Type>, _>(e),
        },
    decreases depth, value@, 3nat, 0nat,
{
    if args.len() != 0 {
        return Ok(None);
    }
    let items = match value.unpack(inter, from, env, depth) {
        Ok(items) => items,
        Err(e) => {
            return Err(e);
        },
    };
    let texts = match get_strings(&items, true, inter, from, env, depth - 1) {
        Ok(texts) => texts,
        Err(e) => {
            return Err(e);
        },
    };
    let ghost views = strings_view(texts@);
    let mut out = String::new();
    let mut i: usize = 0;
    assert(views.take(0) =~= Seq::empty());
    while i < texts.len()
        invariant
            i <= texts.len(),
            views == strings_view(texts@),
            out@ == joined(views.take(i as int)),
        decreases texts.len() - i,
    {
        assert(views.take(i + 1).drop_last() =~= views.take(i as int));
        out.append(texts[i].as_str());
        i += 1;
    }
    assert(views.take(i as int) =~= views);
    Ok(Some(Type::Text(out)))
}

/// Keeps the texts of a tuple, or the text itself, that the regular
/// expression given as the one argument matches.
pub fn default_mod_filter(
    value: &Type,
    inter: &mut Interpreter,
    from: &UserPath,
    env: &mut Environment,
    args: &Vec<Type>,
    depth: usize,
) -> (r: Result<Option<Type>, RuntimeError>)
    requires
        old(inter).wf(),
        old(env).wf(),
        depth > 0,
    ensures
        final(inter).wf(),
        final(inter).servers == old(inter).servers,
        final(env).wf(),
        match applied(
            ModifierFunc::Filter,
            value@,
            types_view(args@),
            world(*old(inter), *old(env)),
            from@,
            depth as nat,
        ) {
            Ok((w, v)) => r is Ok && value_view(r->Ok_0) == v && world(*final(inter), *final(env))
                == w,
            Err(e) => r == Err::<Option<Type>, _>(e),
        },
    decreases depth, value@, 3nat, 0nat,
{
    if args.len() != 1 {
        return Ok(None);
    }
    let pattern = match args[0].get_string(inter, from, env, depth - 1) {
        Ok(Some(text)) => text,
        Ok(None) => {
            return Err(RuntimeError::ExpectedText);
        },
        Err(e) => {
            return Err(e);
        },
    };
    if regex_is_match(pattern.as_str(), "").is_none() {
        return Err(RuntimeError::BadPattern);
    }
    let items = match value.unpack(inter, from, env, depth) {
        Ok(items) => items,
        Err(e) => {
            return Err(e);
        },
    };
    let texts = match get_strings(&items, true, inter, from, env, depth - 1) {
        Ok(texts) => texts,
        Err(e) => {
            return Err(e);
        },
    };
    let ghost views = strings_view(texts@);
    let mut out: Vec<Type> = Vec::new();
    let mut i: usize = 0;
    assert(views.take(0) =~= Seq::empty());
    assert(types_view(out@) =~= Seq::empty());
    while i < texts.len()
        invariant
            i <= texts.len(),
            views == strings_view(texts@),
            pattern_valid(pattern@),
            types_view(out@) == matching(views.take(i as int), pattern@),
        decreases texts.len() - i,
    {
        assert(views.take(i + 1).drop_last() =~= views.take(i as int));
        let ghost before = types_view(out@);
        let keep = match regex_is_match(pattern.as_str(), texts[i].as_str()) {
            Some(keep) => keep,
            None => false,
        };
        if keep {
            out.push(Type::Text(texts[i].clone()));
            assert(types_view(out@) =~= before.push(TypeView::Text(views[i as int])));
        }
        i += 1;
    }
    assert(views.take(i as int) =~= views);
    let r = Type::Tuple(out);
    proof {
        lemma_tuple_view(&r);
    }
    Ok(Some(r))
}

} // verus!
