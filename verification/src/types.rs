use vstd::prelude::*;
use vstd::string::*;
use crate::environment::Environment;
use crate::error::RuntimeError;
use crate::instruction::{Instruction, InstructionView};
use crate::interpreter::{world, Interpreter};
use crate::mail::{strings_view, Draft};
use crate::modifier::apply_modifier;
use crate::semantics::{
    bool_of,
    draft_from,
    draft_of,
    followed,
    index_of,
    lemma_followed_nothing,
    lemma_followed_twice,
    len_of,
    modargs_of,
    modified,
    modname_of,
    normalized,
    num_of,
    resolved,
    resolved_items,
    slice_of,
    string_of,
    texts_of,
    tuple_of,
    unpacked,
    user_of,
};
use crate::text::parse_number;
use crate::user::UserPath;

verus! {

/// A value of the language. An `Expression` stands for a computation that
/// has not run yet.
#[derive(Debug, PartialEq)]
pub enum Type {
    Null,
    Text(String),
    UserPath(Box<Type>, Box<Type>),
    Tuple(Vec<Type>),
    Expression(Box<Instruction>),
}

/// The mathematical value of a `Type`: the same tree, over sequences.
pub enum TypeView {
    Null,
    Text(Seq<char>),
    UserPath(Box<TypeView>, Box<TypeView>),
    Tuple(Seq<TypeView>),
    Expression(Box<InstructionView>),
}

impl Type {
    pub open spec fn model(&self) -> TypeView
        decreases self,
    {
        match self {
            Type::Null => TypeView::Null,
            Type::Text(s) => TypeView::Text(s@),
            Type::UserPath(a, b) => TypeView::UserPath(Box::new(a.model()), Box::new(b.model())),
            Type::Tuple(v) => TypeView::Tuple(
                Seq::new(
                    v.len() as nat,
                    |i: int|
                        if 0 <= i < v.len() {
                            v[i].model()
                        } else {
                            TypeView::Null
                        },
                ),
            ),
            Type::Expression(e) => TypeView::Expression(Box::new(e.model())),
        }
    }
}

impl View for Type {
    type V = TypeView;

    open spec fn view(&self) -> TypeView {
        self.model()
    }
}

/// The values of a run of values, in order.
pub open spec fn types_view(values: Seq<Type>) -> Seq<TypeView> {
    Seq::new(values.len(), |i: int| values[i]@)
}

/// The value of a tuple is the values of its items.
pub proof fn lemma_tuple_view(value: &Type)
    requires
        value is Tuple,
    ensures
        value@ == TypeView::Tuple(types_view(value->Tuple_0@)),
{
    assert(value.model()->Tuple_0 =~= types_view(value->Tuple_0@));
}

/// A copy of every value of `values`, in order.
pub fn clone_types(values: &Vec<Type>) -> (r: Vec<Type>)
    ensures
        types_view(r@) == types_view(values@),
    decreases values,
{
    let mut out: Vec<Type> = Vec::new();
    let mut i: usize = 0;
    while i < values.len()
        invariant
            i <= values.len(),
            out.len() == i,
            forall|j: int| 0 <= j < i ==> out[j]@ == values[j]@,
        decreases values.len() - i,
    {
        proof {
            assert(decreases_to!(*values => values[i as int]));
        }
        let copy = values[i].clone();
        out.push(copy);
        i += 1;
    }
    assert(types_view(out@) =~= types_view(values@));
    out
}

impl Clone for Type {
    fn clone(&self) -> (r: Self)
        ensures
            r@ == self@,
        decreases self,
    {
        match self {
            Type::Null => Type::Null,
            Type::Text(s) => Type::Text(s.clone()),
            Type::UserPath(a, b) => Type::UserPath(Box::new((**a).clone()), Box::new((**b).clone())),
            Type::Tuple(v) => {
                let r = Type::Tuple(clone_types(v));
                proof {
                    lemma_tuple_view(self);
                    lemma_tuple_view(&r);
                }
                r
            },
            Type::Expression(e) => Type::Expression(Box::new((**e).clone())),
        }
    }
}

impl Type {
    pub fn is_null(&self) -> (r: bool)
        ensures
            r == (self@ is Null),
    {
        if let Type::Null = *self {
            true
        } else {
            false
        }
    }

    /// The name of the value's kind.
    pub fn get_typename(&self) -> (r: &'static str)
        ensures
            r@ == typename(self@),
    {
        match *self {
            Type::Null => "null",
            Type::Text(_) => "text",
            Type::Tuple(_) => "tuple",
            Type::UserPath(_, _) => "user",
            Type::Expression(_) => "expression",
        }
    }
}

/// The name of a value's kind.
pub open spec fn typename(value: TypeView) -> Seq<char> {
    match value {
        TypeView::Null => "null"@,
        TypeView::Text(_) => "text"@,
        TypeView::Tuple(_) => "tuple"@,
        TypeView::UserPath(_, _) => "user"@,
        TypeView::Expression(_) => "expression"@,
    }
}

/// A copy of the items from `a` up to `b`.
pub fn clone_range(values: &Vec<Type>, a: usize, b: usize) -> (r: Vec<Type>)
    requires
        a <= b <= values@.len(),
    ensures
        types_view(r@) == types_view(values@).subrange(a as int, b as int),
{
    let mut out: Vec<Type> = Vec::new();
    let mut i: usize = a;
    while i < b
        invariant
            a <= i <= b <= values.len(),
            out.len() == i - a,
            forall|j: int| 0 <= j < i - a ==> out[j]@ == values[a + j]@,
        decreases b - i,
    {
        out.push(values[i].clone());
        i += 1;
    }
    assert(types_view(out@) =~= types_view(values@).subrange(a as int, b as int));
    out
}

/// The value of an optional text.
pub open spec fn text_view(text: Option<String>) -> Option<Seq<char>> {
    match text {
        Some(s) => Some(s@),
        None => None,
    }
}

/// The value of an optional run of values.
pub open spec fn items_view(items: Option<Vec<Type>>) -> Option<Seq<TypeView>> {
    match items {
        Some(v) => Some(types_view(v@)),
        None => None,
    }
}

/// The value of an optional value.
pub open spec fn value_view(value: Option<Type>) -> Option<TypeView> {
    match value {
        Some(v) => Some(v@),
        None => None,
    }
}

/// The texts of the items, from left to right. An item that is no text
/// ends the run where `strict` holds, and counts as the empty text where
/// it does not.
pub fn get_strings(
    items: &Vec<Type>,
    strict: bool,
    inter: &mut Interpreter,
    from: &UserPath,
    env: &mut Environment,
    depth: usize,
) -> (r: Result<Vec<String>, RuntimeError>)
    requires
        old(inter).wf(),
        old(env).wf(),
    ensures
        final(inter).wf(),
        final(inter).servers == old(inter).servers,
        final(env).wf(),
        match texts_of(
            types_view(items@),
            0,
            strict,
            world(*old(inter), *old(env)),
            from@,
            depth as nat,
        ) {
            Ok((w, v)) => r is Ok && strings_view(r->Ok_0@) == v && world(*final(inter), *final(env))
                == w,
            Err(e) => r == Err::<Vec<String>, _>(e),
        },
    decreases depth, types_view(items@), 2nat, items@.len() + 1,
{
    let ghost views = types_view(items@);
    let ghost w0 = world(*inter, *env);
    let ghost d = depth as nat;
    let mut out: Vec<String> = Vec::new();
    let mut i: usize = 0;
    proof {
        lemma_followed_nothing(texts_of(views, 0, strict, w0, from@, d));
        assert(strings_view(out@) =~= Seq::empty());
    }
    while i < items.len()
        invariant
            i <= items.len(),
            inter.wf(),
            inter.servers == old(inter).servers,
            env.wf(),
            views == types_view(items@),
            d == depth,
            w0 == world(*old(inter), *old(env)),
            texts_of(views, 0, strict, w0, from@, d) == followed(
                strings_view(out@),
                texts_of(views, i as int, strict, world(*inter, *env), from@, d),
            ),
        decreases items.len() - i,
    {
        proof {
            assert(decreases_to!(views => views[i as int]));
        }
        let ghost before = strings_view(out@);
        let found = match items[i].get_string(inter, from, env, depth) {
            Ok(found) => found,
            Err(e) => {
                return Err(e);
            },
        };
        let text = match found {
            Some(s) => s,
            None => {
                if strict {
                    return Err(RuntimeError::ExpectedText);
                }
                String::new()
            },
        };
        proof {
            lemma_followed_twice(
                before,
                seq![text@],
                texts_of(views, i + 1, strict, world(*inter, *env), from@, d),
            );
            assert(strings_view(out@.push(text)) =~= before + seq![text@]);
        }
        out.push(text);
        i += 1;
    }
    proof {
        assert(strings_view(out@) + Seq::<Seq<char>>::empty() =~= strings_view(out@));
    }
    Ok(out)
}

impl Type {
    /// Evaluates every deferred expression of the value, again and again
    /// until none is left, in tuples too.
    pub fn resolve(
        &self,
        inter: &mut Interpreter,
        from: &UserPath,
        env: &mut Environment,
        depth: usize,
    ) -> (r: Result<Type, RuntimeError>)
        requires
            old(inter).wf(),
            old(env).wf(),
        ensures
            final(inter).wf(),
            final(inter).servers == old(inter).servers,
            final(env).wf(),
            match resolved(self@, world(*old(inter), *old(env)), from@, depth as nat) {
                Ok((w, v)) => r is Ok && r->Ok_0@ == v && world(*final(inter), *final(env)) == w,
                Err(e) => r == Err::<Type, _>(e),
            },
        decreases depth, self@, 0nat, 0nat,
    {
        match self {
            Type::Expression(exp) => {
                if depth == 0 {
                    return Err(RuntimeError::TooDeep);
                }
                let value = match exp.call(inter, from, env, depth - 1) {
                    Ok(value) => value,
                    Err(e) => {
                        return Err(e);
                    },
                };
                value.resolve(inter, from, env, depth - 1)
            },
            Type::Tuple(tuple) => {
                let ghost views = types_view(tuple@);
                let ghost w0 = world(*inter, *env);
                let ghost d = depth as nat;
                let mut out: Vec<Type> = Vec::new();
                let mut i: usize = 0;
                proof {
                    lemma_tuple_view(self);
                    lemma_followed_nothing(resolved_items(views, 0, w0, from@, d));
                    assert(types_view(out@) =~= Seq::empty());
                    assert(decreases_to!(self@ => self@->Tuple_0));
                }
                while i < tuple.len()
                    invariant
                        i <= tuple.len(),
                        inter.wf(),
                        inter.servers == old(inter).servers,
                        env.wf(),
                        views == types_view(tuple@),
                        self@ == TypeView::Tuple(views),
                        d == depth,
                        w0 == world(*old(inter), *old(env)),
                        resolved_items(views, 0, w0, from@, d) == followed(
                            types_view(out@),
                            resolved_items(views, i as int, world(*inter, *env), from@, d),
                        ),
                    decreases tuple.len() - i,
                {
                    proof {
                        assert(decreases_to!(self@ => self@->Tuple_0));
                        assert(decreases_to!(views => views[i as int]));
                    }
                    let ghost before = types_view(out@);
                    let value = match tuple[i].resolve(inter, from, env, depth) {
                        Ok(value) => value,
                        Err(e) => {
                            return Err(e);
                        },
                    };
                    proof {
                        lemma_followed_twice(
                            before,
                            seq![value@],
                            resolved_items(views, i + 1, world(*inter, *env), from@, d),
                        );
                        assert(types_view(out@.push(value)) =~= before + seq![value@]);
                    }
                    out.push(value);
                    i += 1;
                }
                let r = Type::Tuple(out);
                proof {
                    lemma_tuple_view(&r);
                    assert(types_view(out@) + Seq::<TypeView>::empty() =~= types_view(out@));
                }
                Ok(r)
            },
            other => Ok(other.clone()),
        }
    }

    /// The value as a text, if it is one.
    pub fn get_string(
        &self,
        inter: &mut Interpreter,
        from: &UserPath,
        env: &mut Environment,
        depth: usize,
    ) -> (r: Result<Option<String>, RuntimeError>)
        requires
            old(inter).wf(),
            old(env).wf(),
        ensures
            final(inter).wf(),
            final(inter).servers == old(inter).servers,
            final(env).wf(),
            match string_of(self@, world(*old(inter), *old(env)), from@, depth as nat) {
                Ok((w, v)) => r is Ok && text_view(r->Ok_0) == v && world(
                    *final(inter),
                    *final(env),
                ) == w,
                Err(e) => r == Err::<Option<String>, _>(e),
            },
        decreases depth, self@, 1nat, 0nat,
    {
        match self {
            Type::Text(val) => Ok(Some(val.clone())),
            Type::Expression(_) => {
                if depth == 0 {
                    return Err(RuntimeError::TooDeep);
                }
                let value = match self.resolve(inter, from, env, depth) {
                    Ok(value) => value,
                    Err(e) => {
                        return Err(e);
                    },
                };
                value.get_string(inter, from, env, depth - 1)
            },
            Type::UserPath(name, server) => {
                proof {
                    assert(decreases_to!(self@ => *self@->UserPath_0));
                    assert(decreases_to!(self@ => *self@->UserPath_1));
                }
                let a = match name.get_string(inter, from, env, depth) {
                    Ok(Some(a)) => a,
                    Ok(None) => {
                        return Err(RuntimeError::ExpectedText);
                    },
                    Err(e) => {
                        return Err(e);
                    },
                };
                let b = match server.get_string(inter, from, env, depth) {
                    Ok(Some(b)) => b,
                    Ok(None) => {
                        return Err(RuntimeError::ExpectedText);
                    },
                    Err(e) => {
                        return Err(e);
                    },
                };
                let mut out = a;
                out.push('@');
                out.append(b.as_str());
                assert(out@ =~= a@ + seq!['@'] + b@);
                Ok(Some(out))
            },
            _ => Ok(None),
        }
    }

    /// The items of the value, if it is a tuple.
    pub fn get_tuple(
        &self,
        inter: &mut Interpreter,
        from: &UserPath,
        env: &mut Environment,
        depth: usize,
    ) -> (r: Result<Option<Vec<Type>>, RuntimeError>)
        requires
            old(inter).wf(),
            old(env).wf(),
        ensures
            final(inter).wf(),
            final(inter).servers == old(inter).servers,
            final(env).wf(),
            match tuple_of(self@, world(*old(inter), *old(env)), from@, depth as nat) {
                Ok((w, v)) => r is Ok && items_view(r->Ok_0) == v && world(
                    *final(inter),
                    *final(env),
                ) == w,
                Err(e) => r == Err::<Option<Vec<Type>>, _>(e),
            },
        decreases depth, self@, 1nat, 0nat,
    {
        match self {
            Type::Tuple(v) => {
                proof {
                    lemma_tuple_view(self);
                }
                Ok(Some(clone_types(v)))
            },
            Type::Expression(_) => {
                if depth == 0 {
                    return Err(RuntimeError::TooDeep);
                }
                let value = match self.resolve(inter, from, env, depth) {
                    Ok(value) => value,
                    Err(e) => {
                        return Err(e);
                    },
                };
                value.get_tuple(inter, from, env, depth - 1)
            },
            _ => Ok(None),
        }
    }

    /// The items of a tuple, or the value itself as the one item.
    pub fn unpack(
        &self,
        inter: &mut Interpreter,
        from: &UserPath,
        env: &mut Environment,
        depth: usize,
    ) -> (r: Result<Vec<Type>, RuntimeError>)
        requires
            old(inter).wf(),
            old(env).wf(),
        ensures
            final(inter).wf(),
            final(inter).servers == old(inter).servers,
            final(env).wf(),
            match unpacked(self@, world(*old(inter), *old(env)), from@, depth as nat) {
                Ok((w, v)) => r is Ok && types_view(r->Ok_0@) == v && world(
                    *final(inter),
                    *final(env),
                ) == w,
                Err(e) => r == Err::<Vec<Type>, _>(e),
            },
        decreases depth, self@, 2nat, 0nat,
    {
        match self.get_tuple(inter, from, env, depth) {
            Ok(Some(v)) => Ok(v),
            Ok(None) => {
                let mut one: Vec<Type> = Vec::new();
                one.push(self.clone());
                assert(types_view(one@) =~= seq![self@]);
                Ok(one)
            },
            Err(e) => Err(e),
        }
    }

    /// The value as an address, if it is one whose two halves are texts.
    pub fn get_user(
        &self,
        inter: &mut Interpreter,
        from: &UserPath,
        env: &mut Environment,
        depth: usize,
    ) -> (r: Result<Option<UserPath>, RuntimeError>)
        requires
            old(inter).wf(),
            old(env).wf(),
        ensures
            final(inter).wf(),
            final(inter).servers == old(inter).servers,
            final(env).wf(),
            match user_of(self@, world(*old(inter), *old(env)), from@, depth as nat) {
                Ok((w, v)) => r is Ok && world(*final(inter), *final(env)) == w && (match r->Ok_0 {
                    Some(path) => v == Some(path@),
                    None => v is None,
                }),
                Err(e) => r == Err::<Option<UserPath>, _>(e),
            },
        decreases depth, self@, 1nat, 0nat,
    {
        match self {
            Type::UserPath(name, server) => {
                proof {
                    assert(decreases_to!(self@ => *self@->UserPath_0));
                    assert(decreases_to!(self@ => *self@->UserPath_1));
                }
                let a = match name.get_string(inter, from, env, depth) {
                    Ok(a) => a,
                    Err(e) => {
                        return Err(e);
                    },
                };
                let b = match server.get_string(inter, from, env, depth) {
                    Ok(b) => b,
                    Err(e) => {
                        return Err(e);
                    },
                };
                match (a, b) {
                    (Some(a), Some(b)) => Ok(Some(UserPath(a, b))),
                    _ => Ok(None),
                }
            },
            Type::Expression(_) => {
                if depth == 0 {
                    return Err(RuntimeError::TooDeep);
                }
                let value = match self.resolve(inter, from, env, depth) {
                    Ok(value) => value,
                    Err(e) => {
                        return Err(e);
                    },
                };
                value.get_user(inter, from, env, depth - 1)
            },
            _ => Ok(None),
        }
    }

    /// The value as a draft, if it is a text or a tuple.
    pub fn get_draft(
        &self,
        inter: &mut Interpreter,
        from: &UserPath,
        env: &mut Environment,
        depth: usize,
    ) -> (r: Result<Option<Draft>, RuntimeError>)
        requires
            old(inter).wf(),
            old(env).wf(),
        ensures
            final(inter).wf(),
            final(inter).servers == old(inter).servers,
            final(env).wf(),
            match draft_of(self@, world(*old(inter), *old(env)), from@, depth as nat) {
                Ok((w, v)) => r is Ok && world(*final(inter), *final(env)) == w && (match r->Ok_0 {
                    Some(draft) => v == Some(draft@),
                    None => v is None,
                }),
                Err(e) => r == Err::<Option<Draft>, _>(e),
            },
        decreases depth, self@, 1nat, 0nat,
    {
        match self {
            Type::Tuple(t) => {
                proof {
                    lemma_tuple_view(self);
                    assert(decreases_to!(self@ => self@->Tuple_0));
                }
                let mut texts = match get_strings(t, false, inter, from, env, depth) {
                    Ok(texts) => texts,
                    Err(e) => {
                        return Err(e);
                    },
                };
                let ghost all = strings_view(texts@);
                let attachments = if texts.len() > 2 {
                    texts.split_off(2)
                } else {
                    Vec::new()
                };
                let message = if texts.len() > 1 {
                    match texts.pop() {
                        Some(s) => s,
                        None => String::new(),
                    }
                } else {
                    String::new()
                };
                let subject = if texts.len() > 0 {
                    match texts.pop() {
                        Some(s) => s,
                        None => String::new(),
                    }
                } else {
                    String::new()
                };
                let draft = Draft { subject, message, attachments };
                proof {
                    assert(draft@.attachments =~= draft_from(all).attachments);
                    assert(draft@.subject == draft_from(all).subject);
                    assert(draft@.message == draft_from(all).message);
                }
                Ok(Some(draft))
            },
            Type::Text(val) => {
                let draft = Draft {
                    subject: val.clone(),
                    message: String::new(),
                    attachments: Vec::new(),
                };
                assert(draft@.attachments =~= Seq::empty());
                Ok(Some(draft))
            },
            Type::Expression(_) => {
                if depth == 0 {
                    return Err(RuntimeError::TooDeep);
                }
                let value = match self.resolve(inter, from, env, depth) {
                    Ok(value) => value,
                    Err(e) => {
                        return Err(e);
                    },
                };
                value.get_draft(inter, from, env, depth - 1)
            },
            _ => Ok(None),
        }
    }

    /// Whether the value counts as true.
    pub fn get_bool(
        &self,
        inter: &mut Interpreter,
        from: &UserPath,
        env: &mut Environment,
        depth: usize,
    ) -> (r: Result<bool, RuntimeError>)
        requires
            old(inter).wf(),
            old(env).wf(),
        ensures
            final(inter).wf(),
            final(inter).servers == old(inter).servers,
            final(env).wf(),
            match bool_of(self@, world(*old(inter), *old(env)), from@, depth as nat) {
                Ok((w, v)) => r == Ok::<_, RuntimeError>(v) && world(*final(inter), *final(env))
                    == w,
                Err(e) => r == Err::<bool, _>(e),
            },
        decreases depth, self@, 1nat, 0nat,
    {
        match self {
            Type::Null => Ok(false),
            Type::Text(s) => {
                let lower = s.as_str().to_lowercase();
                proof {
                    reveal_strlit("false");
                    reveal_strlit("0");
                    assert("false"@ =~= seq!['f', 'a', 'l', 's', 'e']);
                    assert("0"@ =~= seq!['0']);
                }
                let falsy = lower.as_str().eq("false") || lower.as_str().eq("0")
                    || lower.as_str().is_empty();
                Ok(!falsy)
            },
            Type::Tuple(t) => {
                proof {
                    lemma_tuple_view(self);
                }
                Ok(t.len() > 0)
            },
            Type::Expression(_) => {
                if depth == 0 {
                    return Err(RuntimeError::TooDeep);
                }
                let value = match self.resolve(inter, from, env, depth) {
                    Ok(value) => value,
                    Err(e) => {
                        return Err(e);
                    },
                };
                value.get_bool(inter, from, env, depth - 1)
            },
            Type::UserPath(_, _) => Ok(true),
        }
    }

    /// The value as a number, if it is a text that stands for one.
    pub fn get_num(
        &self,
        inter: &mut Interpreter,
        from: &UserPath,
        env: &mut Environment,
        depth: usize,
    ) -> (r: Result<Option<isize>, RuntimeError>)
        requires
            old(inter).wf(),
            old(env).wf(),
        ensures
            final(inter).wf(),
            final(inter).servers == old(inter).servers,
            final(env).wf(),
            match num_of(self@, world(*old(inter), *old(env)), from@, depth as nat) {
                Ok((w, v)) => r == Ok::<_, RuntimeError>(v) && world(*final(inter), *final(env))
                    == w,
                Err(e) => r == Err::<Option<isize>, _>(e),
            },
        decreases depth, self@, 1nat, 0nat,
    {
        match self {
            Type::Text(s) => Ok(parse_number(s.as_str())),
            Type::Expression(_) => {
                if depth == 0 {
                    return Err(RuntimeError::TooDeep);
                }
                let value = match self.resolve(inter, from, env, depth) {
                    Ok(value) => value,
                    Err(e) => {
                        return Err(e);
                    },
                };
                value.get_num(inter, from, env, depth - 1)
            },
            _ => Ok(None),
        }
    }

    /// The number of characters of a text or of items of a tuple.
    pub fn len(
        &self,
        inter: &mut Interpreter,
        from: &UserPath,
        env: &mut Environment,
        depth: usize,
    ) -> (r: Result<Option<usize>, RuntimeError>)
        requires
            old(inter).wf(),
            old(env).wf(),
        ensures
            final(inter).wf(),
            final(inter).servers == old(inter).servers,
            final(env).wf(),
            match len_of(self@, world(*old(inter), *old(env)), from@, depth as nat) {
                Ok((w, v)) => r is Ok && world(*final(inter), *final(env)) == w && (match r->Ok_0 {
                    Some(n) => v == Some(n as nat),
                    None => v is None,
                }),
                Err(e) => r == Err::<Option<usize>, _>(e),
            },
        decreases depth, self@, 1nat, 0nat,
    {
        match self {
            Type::Tuple(vec) => {
                proof {
                    lemma_tuple_view(self);
                }
                Ok(Some(vec.len()))
            },
            Type::Text(text) => Ok(Some(text.as_str().unicode_len())),
            Type::Expression(_) => {
                if depth == 0 {
                    return Err(RuntimeError::TooDeep);
                }
                let value = match self.resolve(inter, from, env, depth) {
                    Ok(value) => value,
                    Err(e) => {
                        return Err(e);
                    },
                };
                value.len(inter, from, env, depth - 1)
            },
            _ => Ok(None),
        }
    }

    /// The character or item at `pos`; a negative `pos` counts from the
    /// end.
    pub fn index(
        &self,
        pos: isize,
        inter: &mut Interpreter,
        from: &UserPath,
        env: &mut Environment,
        depth: usize,
    ) -> (r: Result<Option<Type>, RuntimeError>)
        requires
            old(inter).wf(),
            old(env).wf(),
        ensures
            final(inter).wf(),
            final(inter).servers == old(inter).servers,
            final(env).wf(),
            match index_of(self@, pos as int, world(*old(inter), *old(env)), from@, depth as nat) {
                Ok((w, v)) => r is Ok && value_view(r->Ok_0) == v && world(
                    *final(inter),
                    *final(env),
                ) == w,
                Err(e) => r == Err::<Option<Type>, _>(e),
            },
        decreases depth, self@, 3nat, 0nat,
    {
        self.index_wide(pos as i128, inter, from, env, depth)
    }

    /// As `index`, for a position of any size.
    pub fn index_wide(
        &self,
        pos: i128,
        inter: &mut Interpreter,
        from: &UserPath,
        env: &mut Environment,
        depth: usize,
    ) -> (r: Result<Option<Type>, RuntimeError>)
        requires
            old(inter).wf(),
            old(env).wf(),
        ensures
            final(inter).wf(),
            final(inter).servers == old(inter).servers,
            final(env).wf(),
            match index_of(self@, pos as int, world(*old(inter), *old(env)), from@, depth as nat) {
                Ok((w, v)) => r is Ok && value_view(r->Ok_0) == v && world(
                    *final(inter),
                    *final(env),
                ) == w,
                Err(e) => r == Err::<Option<Type>, _>(e),
            },
        decreases depth, self@, 2nat, 0nat,
    {
        let selflen = match self.len(inter, from, env, depth) {
            Ok(Some(n)) => n,
            Ok(None) => {
                return Err(RuntimeError::NoLength);
            },
            Err(e) => {
                return Err(e);
            },
        };
        if pos < -(usize::MAX as i128) {
            return Err(RuntimeError::OutOfRange);
        }
        let wide: i128 = if pos < 0 {
            selflen as i128 + pos
        } else {
            pos
        };
        if wide < 0 || wide >= selflen as i128 {
            return Err(RuntimeError::OutOfRange);
        }
        let p: usize = wide as usize;
        match self {
            Type::Tuple(vec) => {
                proof {
                    lemma_tuple_view(self);
                }
                Ok(Some(vec[p].clone()))
            },
            Type::Text(text) => {
                let mut one = String::new();
                one.push(text.as_str().get_char(p));
                assert(one@ =~= seq![text@[p as int]]);
                Ok(Some(Type::Text(one)))
            },
            Type::Expression(_) => {
                if depth == 0 {
                    return Err(RuntimeError::TooDeep);
                }
                let value = match self.resolve(inter, from, env, depth) {
                    Ok(value) => value,
                    Err(e) => {
                        return Err(e);
                    },
                };
                value.index_wide(p as i128, inter, from, env, depth - 1)
            },
            _ => Ok(None),
        }
    }

    /// The characters or items from `a` up to `b`; negative positions
    /// count from the end.
    pub fn slice(
        &self,
        a: isize,
        b: isize,
        inter: &mut Interpreter,
        from: &UserPath,
        env: &mut Environment,
        depth: usize,
    ) -> (r: Result<Option<Type>, RuntimeError>)
        requires
            old(inter).wf(),
            old(env).wf(),
        ensures
            final(inter).wf(),
            final(inter).servers == old(inter).servers,
            final(env).wf(),
            match slice_of(
                self@,
                a as int,
                b as int,
                world(*old(inter), *old(env)),
                from@,
                depth as nat,
            ) {
                Ok((w, v)) => r is Ok && value_view(r->Ok_0) == v && world(
                    *final(inter),
                    *final(env),
                ) == w,
                Err(e) => r == Err::<Option<Type>, _>(e),
            },
        decreases depth, self@, 3nat, 0nat,
    {
        self.slice_wide(a as i128, b as i128, inter, from, env, depth)
    }

    /// As `slice`, for positions of any size.
    pub fn slice_wide(
        &self,
        a: i128,
        b: i128,
        inter: &mut Interpreter,
        from: &UserPath,
        env: &mut Environment,
        depth: usize,
    ) -> (r: Result<Option<Type>, RuntimeError>)
        requires
            old(inter).wf(),
            old(env).wf(),
        ensures
            final(inter).wf(),
            final(inter).servers == old(inter).servers,
            final(env).wf(),
            match slice_of(
                self@,
                a as int,
                b as int,
                world(*old(inter), *old(env)),
                from@,
                depth as nat,
            ) {
                Ok((w, v)) => r is Ok && value_view(r->Ok_0) == v && world(
                    *final(inter),
                    *final(env),
                ) == w,
                Err(e) => r == Err::<Option<Type>, _>(e),
            },
        decreases depth, self@, 2nat, 0nat,
    {
        let selflen = match self.len(inter, from, env, depth) {
            Ok(Some(n)) => n,
            Ok(None) => {
                return Err(RuntimeError::NoLength);
            },
            Err(e) => {
                return Err(e);
            },
        };
        if a < -(usize::MAX as i128) || b < -(usize::MAX as i128) || b > usize::MAX as i128 {
            return Err(RuntimeError::OutOfRange);
        }
        let wide_a: i128 = if a < 0 {
            selflen as i128 + a
        } else {
            a
        };
        let wide_b: i128 = if b < 0 {
            selflen as i128 + b
        } else {
            b
        };
        if wide_a < 0 || wide_a > wide_b || wide_b > selflen as i128 {
            return Err(RuntimeError::OutOfRange);
        }
        let start: usize = wide_a as usize;
        let end: usize = wide_b as usize;
        match self {
            Type::Tuple(vec) => {
                proof {
                    lemma_tuple_view(self);
                }
                let r = Type::Tuple(clone_range(vec, start, end));
                proof {
                    lemma_tuple_view(&r);
                }
                Ok(Some(r))
            },
            Type::Text(text) => Ok(
                Some(Type::Text(text.as_str().substring_char(start, end).to_string())),
            ),
            Type::Expression(_) => {
                if depth == 0 {
                    return Err(RuntimeError::TooDeep);
                }
                let value = match self.resolve(inter, from, env, depth) {
                    Ok(value) => value,
                    Err(e) => {
                        return Err(e);
                    },
                };
                value.slice_wide(start as i128, end as i128, inter, from, env, depth - 1)
            },
            _ => Ok(None),
        }
    }

    /// The name of the modifier that the value invokes.
    pub fn get_modname(
        &self,
        inter: &mut Interpreter,
        from: &UserPath,
        env: &mut Environment,
        depth: usize,
    ) -> (r: Result<String, RuntimeError>)
        requires
            old(inter).wf(),
            old(env).wf(),
        ensures
            final(inter).wf(),
            final(inter).servers == old(inter).servers,
            final(env).wf(),
            match modname_of(self@, world(*old(inter), *old(env)), from@, depth as nat) {
                Ok((w, v)) => r is Ok && r->Ok_0@ == v && world(*final(inter), *final(env)) == w,
                Err(e) => r == Err::<String, _>(e),
            },
        decreases depth, self@, 1nat, 0nat,
    {
        match self {
            Type::Text(s) => Ok(s.clone()),
            Type::Tuple(t) => {
                proof {
                    lemma_tuple_view(self);
                    assert(decreases_to!(self@ => self@->Tuple_0));
                }
                if t.len() == 0 {
                    return Err(RuntimeError::BadModifier);
                }
                proof {
                    assert(decreases_to!(self@->Tuple_0 => self@->Tuple_0[0]));
                }
                match t[0].get_string(inter, from, env, depth) {
                    Ok(Some(s)) => Ok(s),
                    Ok(None) => Err(RuntimeError::ExpectedText),
                    Err(e) => Err(e),
                }
            },
            Type::Expression(_) => {
                if depth == 0 {
                    return Err(RuntimeError::TooDeep);
                }
                let value = match self.resolve(inter, from, env, depth) {
                    Ok(value) => value,
                    Err(e) => {
                        return Err(e);
                    },
                };
                value.get_modname(inter, from, env, depth - 1)
            },
            _ => Err(RuntimeError::BadModifier),
        }
    }

    /// The arguments that the value hands to its modifier.
    pub fn get_modargs(
        &self,
        inter: &mut Interpreter,
        from: &UserPath,
        env: &mut Environment,
        depth: usize,
    ) -> (r: Result<Vec<Type>, RuntimeError>)
        requires
            old(inter).wf(),
            old(env).wf(),
        ensures
            final(inter).wf(),
            final(inter).servers == old(inter).servers,
            final(env).wf(),
            match modargs_of(self@, world(*old(inter), *old(env)), from@, depth as nat) {
                Ok((w, v)) => r is Ok && types_view(r->Ok_0@) == v && world(
                    *final(inter),
                    *final(env),
                ) == w,
                Err(e) => r == Err::<Vec<Type>, _>(e),
            },
        decreases depth, self@, 1nat, 0nat,
    {
        match self {
            Type::Text(_) => {
                let none: Vec<Type> = Vec::new();
                assert(types_view(none@) =~= Seq::empty());
                Ok(none)
            },
            Type::Tuple(t) => {
                proof {
                    lemma_tuple_view(self);
                }
                if t.len() == 0 {
                    return Err(RuntimeError::BadModifier);
                }
                Ok(clone_range(t, 1, t.len()))
            },
            Type::Expression(_) => {
                if depth == 0 {
                    return Err(RuntimeError::TooDeep);
                }
                let value = match self.resolve(inter, from, env, depth) {
                    Ok(value) => value,
                    Err(e) => {
                        return Err(e);
                    },
                };
                value.get_modargs(inter, from, env, depth - 1)
            },
            _ => Err(RuntimeError::BadModifier),
        }
    }

    /// Hands `other` to the modifier that this value invokes. `None`
    /// says that no modifier has that name, or that the modifier refuses
    /// the number of arguments.
    pub fn modify(
        &self,
        other: &Type,
        inter: &mut Interpreter,
        from: &UserPath,
        env: &mut Environment,
        depth: usize,
    ) -> (r: Result<Option<Type>, RuntimeError>)
        requires
            old(inter).wf(),
            old(env).wf(),
        ensures
            final(inter).wf(),
            final(inter).servers == old(inter).servers,
            final(env).wf(),
            match modified(self@, other@, world(*old(inter), *old(env)), from@, depth as nat) {
                Ok((w, v)) => r is Ok && value_view(r->Ok_0) == v && world(
                    *final(inter),
                    *final(env),
                ) == w,
                Err(e) => r == Err::<Option<Type>, _>(e),
            },
        decreases depth, self@, 2nat, 0nat,
    {
        let mod_name = match self.get_modname(inter, from, env, depth) {
            Ok(name) => name,
            Err(e) => {
                return Err(e);
            },
        };
        let mod_args = match self.get_modargs(inter, from, env, depth) {
            Ok(args) => args,
            Err(e) => {
                return Err(e);
            },
        };
        let func = match inter.modifiers.get(mod_name.as_str()) {
            Some(func) => *func,
            None => {
                return Ok(None);
            },
        };
        if depth == 0 {
            return Err(RuntimeError::TooDeep);
        }
        apply_modifier(func, other, &mod_args, inter, from, env, depth - 1)
    }
}

} // verus!
