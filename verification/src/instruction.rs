use vstd::prelude::*;
use vstd::string::*;
use crate::environment::{lookup, Environment};
use crate::error::RuntimeError;
use crate::interpreter::{world, Interpreter};
use crate::mail::Mail;
use crate::semantics::{
    bound,
    called,
    cond_called,
    followed,
    lemma_followed_nothing,
    lemma_followed_twice,
    looked_up,
    paired,
    ran,
    with_variable,
};
use crate::types::{lemma_tuple_view, types_view, Type, TypeView};
use crate::user::{UserDef, UserDefView, UserPath};

verus! {

/// One link of a conditional chain: a condition (none for `else`), the
/// block that runs when it holds, and the rest of the chain.
#[derive(Debug, PartialEq)]
pub struct CondBlock {
    pub cond: Option<Type>,
    pub block: Vec<Instruction>,
    pub elseblock: Option<Box<CondBlock>>,
}

#[derive(Debug, PartialEq)]
pub enum Instruction {
    CreateServer(Type),
    CreateUser(Type, Type, UserDef),
    MailTo(Type, Type),
    Concatenate(Type, Type),
    GetEnv(Type),
    Slice(Type, Option<Type>, Option<Type>),
    Index(Type, Type),
    Assign(Type, Type),
    IfBlock(CondBlock),
    Modify(Type, Type),
}

/// The mathematical value of a `CondBlock`.
pub struct CondBlockView {
    pub cond: Option<TypeView>,
    pub block: Seq<InstructionView>,
    pub elseblock: Option<Box<CondBlockView>>,
}

/// The mathematical value of an `Instruction`.
pub enum InstructionView {
    CreateServer(TypeView),
    CreateUser(TypeView, TypeView, UserDefView),
    MailTo(TypeView, TypeView),
    Concatenate(TypeView, TypeView),
    GetEnv(TypeView),
    Slice(TypeView, Option<TypeView>, Option<TypeView>),
    Index(TypeView, TypeView),
    Assign(TypeView, TypeView),
    IfBlock(CondBlockView),
    Modify(TypeView, TypeView),
}

/// The value of an optional value.
pub open spec fn option_model(value: Option<Type>) -> Option<TypeView>
    decreases value,
{
    match value {
        Some(v) => Some(v.model()),
        None => None,
    }
}

/// The values of the instructions of a block, in order.
pub open spec fn block_model(block: Vec<Instruction>) -> Seq<InstructionView>
    decreases block,
{
    Seq::new(
        block.len() as nat,
        |i: int|
            if 0 <= i < block.len() {
                block[i].model()
            } else {
                InstructionView::GetEnv(TypeView::Null)
            },
    )
}

impl CondBlock {
    pub open spec fn model(&self) -> CondBlockView
        decreases self,
    {
        CondBlockView {
            cond: option_model(self.cond),
            block: block_model(self.block),
            elseblock: match self.elseblock {
                Some(b) => Some(Box::new(b.model())),
                None => None,
            },
        }
    }
}

impl Instruction {
    pub open spec fn model(&self) -> InstructionView
        decreases self,
    {
        match self {
            Instruction::CreateServer(a) => InstructionView::CreateServer(a.model()),
            Instruction::CreateUser(a, b, d) => InstructionView::CreateUser(
                a.model(),
                b.model(),
                d.model(),
            ),
            Instruction::MailTo(a, b) => InstructionView::MailTo(a.model(), b.model()),
            Instruction::Concatenate(a, b) => InstructionView::Concatenate(a.model(), b.model()),
            Instruction::GetEnv(a) => InstructionView::GetEnv(a.model()),
            Instruction::Slice(a, b, c) => InstructionView::Slice(
                a.model(),
                option_model(*b),
                option_model(*c),
            ),
            Instruction::Index(a, b) => InstructionView::Index(a.model(), b.model()),
            Instruction::Assign(a, b) => InstructionView::Assign(a.model(), b.model()),
            Instruction::IfBlock(c) => InstructionView::IfBlock(c.model()),
            Instruction::Modify(a, b) => InstructionView::Modify(a.model(), b.model()),
        }
    }
}

impl View for CondBlock {
    type V = CondBlockView;

    open spec fn view(&self) -> CondBlockView {
        self.model()
    }
}

impl View for Instruction {
    type V = InstructionView;

    open spec fn view(&self) -> InstructionView {
        self.model()
    }
}

/// The values of a run of instructions, in order.
pub open spec fn instructions_view(block: Seq<Instruction>) -> Seq<InstructionView> {
    Seq::new(block.len(), |i: int| block[i]@)
}

/// The value of a block is the values of its instructions.
pub proof fn lemma_block_model(block: Vec<Instruction>)
    ensures
        block_model(block) == instructions_view(block@),
{
    assert(block_model(block) =~= instructions_view(block@));
}

/// A copy of every instruction of `block`, in order.
pub fn clone_instructions(block: &Vec<Instruction>) -> (r: Vec<Instruction>)
    ensures
        instructions_view(r@) == instructions_view(block@),
    decreases block,
{
    let mut out: Vec<Instruction> = Vec::new();
    let mut i: usize = 0;
    while i < block.len()
        invariant
            i <= block.len(),
            out.len() == i,
            forall|j: int| 0 <= j < i ==> out[j]@ == block[j]@,
        decreases block.len() - i,
    {
        proof {
            assert(decreases_to!(*block => block[i as int]));
        }
        let copy = block[i].clone();
        out.push(copy);
        i += 1;
    }
    assert(instructions_view(out@) =~= instructions_view(block@));
    out
}

/// A copy of an optional value.
pub fn clone_option(value: &Option<Type>) -> (r: Option<Type>)
    ensures
        option_model(r) == option_model(*value),
    decreases value,
{
    match value {
        Some(v) => Some(v.clone()),
        None => None,
    }
}

impl Clone for CondBlock {
    fn clone(&self) -> (r: Self)
        ensures
            r@ == self@,
        decreases self,
    {
        let block = clone_instructions(&self.block);
        proof {
            lemma_block_model(block);
            lemma_block_model(self.block);
        }
        CondBlock {
            cond: clone_option(&self.cond),
            block,
            elseblock: match &self.elseblock {
                Some(b) => Some(Box::new((**b).clone())),
                None => None,
            },
        }
    }
}

impl Clone for Instruction {
    fn clone(&self) -> (r: Self)
        ensures
            r@ == self@,
        decreases self,
    {
        match self {
            Instruction::CreateServer(a) => Instruction::CreateServer(a.clone()),
            Instruction::CreateUser(a, b, d) => Instruction::CreateUser(
                a.clone(),
                b.clone(),
                d.clone(),
            ),
            Instruction::MailTo(a, b) => Instruction::MailTo(a.clone(), b.clone()),
            Instruction::Concatenate(a, b) => Instruction::Concatenate(a.clone(), b.clone()),
            Instruction::GetEnv(a) => Instruction::GetEnv(a.clone()),
            Instruction::Slice(a, b, c) => Instruction::Slice(
                a.clone(),
                clone_option(b),
                clone_option(c),
            ),
            Instruction::Index(a, b) => Instruction::Index(a.clone(), b.clone()),
            Instruction::Assign(a, b) => Instruction::Assign(a.clone(), b.clone()),
            Instruction::IfBlock(c) => Instruction::IfBlock(c.clone()),
            Instruction::Modify(a, b) => Instruction::Modify(a.clone(), b.clone()),
        }
    }
}

/// The chain with `extra` as its last link.
pub open spec fn appended(chain: CondBlockView, extra: CondBlockView) -> CondBlockView
    decreases chain,
{
    CondBlockView {
        elseblock: Some(
            Box::new(
                match chain.elseblock {
                    None => extra,
                    Some(rest) => appended(*rest, extra),
                },
            ),
        ),
        ..chain
    }
}

impl CondBlock {
    /// Hangs `condblock` behind the last link of the chain.
    pub fn append_block(&mut self, condblock: CondBlock)
        ensures
            final(self)@ == appended(old(self)@, condblock@),
        decreases old(self)@,
    {
        if self.elseblock.is_none() {
            self.elseblock = Some(Box::new(condblock));
        } else {
            let mut rest = self.elseblock.take().unwrap();
            rest.append_block(condblock);
            self.elseblock = Some(rest);
        }
    }

    /// Runs the block of the first link whose condition holds.
    pub fn call(
        &self,
        inter: &mut Interpreter,
        from: &UserPath,
        env: &mut Environment,
        depth: usize,
    ) -> (r: Result<(), RuntimeError>)
        requires
            old(inter).wf(),
            old(env).wf(),
        ensures
            final(inter).wf(),
            final(inter).servers == old(inter).servers,
            final(env).wf(),
            match cond_called(self@, world(*old(inter), *old(env)), from@, depth as nat) {
                Ok(w) => r is Ok && world(*final(inter), *final(env)) == w,
                Err(e) => r == Err::<(), _>(e),
            },
        decreases depth, self@, 1nat, 0nat,
    {
        proof {
            lemma_block_model(self.block);
            assert(decreases_to!(self@ => self@.block));
        }
        let do_thing = match &self.cond {
            None => true,
            Some(t) => {
                proof {
                    assert(self.cond == Some(*t));
                    assert(self@.cond == option_model(self.cond));
                    assert(option_model(self.cond) == Some(t.model()));
                    assert(self@.cond == Some(t@));
                    let chain = self@;
                    match chain.cond {
                        Some(test) => {
                            assert(decreases_to!(chain => test));
                        },
                        None => {},
                    }
                }
                match t.get_bool(inter, from, env, depth) {
                    Ok(b) => b,
                    Err(e) => {
                        return Err(e);
                    },
                }
            },
        };
        if do_thing {
            inter.run(&self.block, from, env, depth)
        } else {
            match &self.elseblock {
                Some(eb) => {
                    proof {
                        assert(self@.elseblock == Some(Box::new(eb@)));
                        let chain = self@;
                        match chain.elseblock {
                            Some(rest) => {
                                assert(decreases_to!(chain => *rest));
                            },
                            None => {},
                        }
                    }
                    eb.call(inter, from, env, depth)
                },
                None => Ok(()),
            }
        }
    }
}

/// The values of the variables that the items name, each read as soon as
/// its name is known.
pub fn get_variables(
    items: &Vec<Type>,
    inter: &mut Interpreter,
    from: &UserPath,
    env: &mut Environment,
    depth: usize,
) -> (r: Result<Vec<Type>, RuntimeError>)
    requires
        old(inter).wf(),
        old(env).wf(),
    ensures
        final(inter).wf(),
        final(inter).servers == old(inter).servers,
        final(env).wf(),
        match looked_up(types_view(items@), 0, world(*old(inter), *old(env)), from@, depth as nat) {
            Ok((w, v)) => r is Ok && types_view(r->Ok_0@) == v && world(*final(inter), *final(env))
                == w,
            Err(e) => r == Err::<Vec<Type>, _>(e),
        },
    decreases depth, types_view(items@), 2nat, items@.len() + 1,
{
    let ghost views = types_view(items@);
    let ghost w0 = world(*inter, *env);
    let ghost d = depth as nat;
    let mut out: Vec<Type> = Vec::new();
    let mut i: usize = 0;
    proof {
        lemma_followed_nothing(looked_up(views, 0, w0, from@, d));
        assert(types_view(out@) =~= Seq::empty());
    }
    while i < items.len()
        invariant
            i <= items.len(),
            inter.wf(),
            inter.servers == old(inter).servers,
            env.wf(),
            views == types_view(items@),
            d == depth,
            w0 == world(*old(inter), *old(env)),
            looked_up(views, 0, w0, from@, d) == followed(
                types_view(out@),
                looked_up(views, i as int, world(*inter, *env), from@, d),
            ),
        decreases items.len() - i,
    {
        proof {
            assert(decreases_to!(views => views[i as int]));
        }
        let ghost before = types_view(out@);
        let key = match items[i].get_string(inter, from, env, depth) {
            Ok(Some(key)) => key,
            Ok(None) => {
                return Err(RuntimeError::ExpectedText);
            },
            Err(e) => {
                return Err(e);
            },
        };
        let value = env.get(key.as_str());
        proof {
            lemma_followed_twice(
                before,
                seq![value@],
                looked_up(views, i + 1, world(*inter, *env), from@, d),
            );
            assert(types_view(out@.push(value)) =~= before + seq![value@]);
        }
        out.push(value);
        i += 1;
    }
    proof {
        assert(types_view(out@) + Seq::<TypeView>::empty() =~= types_view(out@));
    }
    Ok(out)
}

/// Binds each name to the resolved value at the same index.
pub fn bind_all(
    names: &Vec<Type>,
    values: &Vec<Type>,
    inter: &mut Interpreter,
    from: &UserPath,
    env: &mut Environment,
    depth: usize,
) -> (r: Result<(), RuntimeError>)
    requires
        old(inter).wf(),
        old(env).wf(),
        names@.len() == values@.len(),
    ensures
        final(inter).wf(),
        final(inter).servers == old(inter).servers,
        final(env).wf(),
        match bound(
            paired(types_view(names@), types_view(values@)),
            0,
            world(*old(inter), *old(env)),
            from@,
            depth as nat,
        ) {
            Ok(w) => r is Ok && world(*final(inter), *final(env)) == w,
            Err(e) => r == Err::<(), _>(e),
        },
    decreases depth, paired(types_view(names@), types_view(values@)), 2nat, names@.len() + 1,
{
    let ghost pairs = paired(types_view(names@), types_view(values@));
    let ghost w0 = world(*inter, *env);
    let ghost d = depth as nat;
    let mut i: usize = 0;
    while i < names.len()
        invariant
            i <= names.len(),
            names@.len() == values@.len(),
            inter.wf(),
            inter.servers == old(inter).servers,
            env.wf(),
            pairs == paired(types_view(names@), types_view(values@)),
            d == depth,
            w0 == world(*old(inter), *old(env)),
            bound(pairs, 0, w0, from@, d) == bound(pairs, i as int, world(*inter, *env), from@, d),
        decreases names.len() - i,
    {
        proof {
            assert(decreases_to!(pairs => pairs[i as int]));
            assert(decreases_to!(pairs[i as int] => pairs[i as int].0));
            assert(decreases_to!(pairs[i as int] => pairs[i as int].1));
        }
        let key = match names[i].get_string(inter, from, env, depth) {
            Ok(Some(key)) => key,
            Ok(None) => {
                return Err(RuntimeError::ExpectedText);
            },
            Err(e) => {
                return Err(e);
            },
        };
        let content = match values[i].resolve(inter, from, env, depth) {
            Ok(content) => content,
            Err(e) => {
                return Err(e);
            },
        };
        env.set(key.as_str(), content);
        i += 1;
    }
    Ok(())
}

/// Sends the draft to the address, from the acting user; gives the draft.
pub fn call_mail_to(
    draft: &Type,
    name: &Type,
    inter: &mut Interpreter,
    from: &UserPath,
    env: &mut Environment,
    depth: usize,
) -> (r: Result<Type, RuntimeError>)
    requires
        old(inter).wf(),
        old(env).wf(),
    ensures
        final(inter).wf(),
        final(inter).servers == old(inter).servers,
        final(env).wf(),
        match called(InstructionView::MailTo(draft@, name@), world(*old(inter), *old(env)), from@, depth as nat) {
            Ok((w, v)) => r is Ok && r->Ok_0@ == v && world(*final(inter), *final(env)) == w,
            Err(e) => r == Err::<Type, _>(e),
        },
    decreases depth, InstructionView::MailTo(draft@, name@), 0nat, 0nat,
{
    proof {
        assert(decreases_to!(InstructionView::MailTo(draft@, name@) => draft@));
        assert(decreases_to!(InstructionView::MailTo(draft@, name@) => name@));
    }
        let d = match draft.get_draft(inter, from, env, depth) {
            Ok(Some(d)) => d,
            Ok(None) => {
                return Err(RuntimeError::ExpectedDraft);
            },
            Err(e) => {
                return Err(e);
            },
        };
        let target = match name.get_user(inter, from, env, depth) {
            Ok(Some(target)) => target,
            Ok(None) => {
                return Err(RuntimeError::ExpectedAddress);
            },
            Err(e) => {
                return Err(e);
            },
        };
        inter.mail(
            Mail {
                subject: d.subject,
                message: d.message,
                attachments: d.attachments,
                to: target,
                from: from.clone(),
            },
        );
        Ok(draft.clone())
}

/// Joins two texts into one, and otherwise merges into a tuple.
pub fn call_concatenate(
    lval: &Type,
    rval: &Type,
    inter: &mut Interpreter,
    from: &UserPath,
    env: &mut Environment,
    depth: usize,
) -> (r: Result<Type, RuntimeError>)
    requires
        old(inter).wf(),
        old(env).wf(),
    ensures
        final(inter).wf(),
        final(inter).servers == old(inter).servers,
        final(env).wf(),
        match called(InstructionView::Concatenate(lval@, rval@), world(*old(inter), *old(env)), from@, depth as nat) {
            Ok((w, v)) => r is Ok && r->Ok_0@ == v && world(*final(inter), *final(env)) == w,
            Err(e) => r == Err::<Type, _>(e),
        },
    decreases depth, InstructionView::Concatenate(lval@, rval@), 0nat, 0nat,
{
    proof {
        assert(decreases_to!(InstructionView::Concatenate(lval@, rval@) => lval@));
        assert(decreases_to!(InstructionView::Concatenate(lval@, rval@) => rval@));
    }
        let lstr = match lval.get_string(inter, from, env, depth) {
            Ok(s) => s,
            Err(e) => {
                return Err(e);
            },
        };
        let rstr = match rval.get_string(inter, from, env, depth) {
            Ok(s) => s,
            Err(e) => {
                return Err(e);
            },
        };
        match (lstr, rstr) {
            (Some(lstringval), Some(rstringval)) => {
                let mut out = lstringval;
                out.append(rstringval.as_str());
                Ok(Type::Text(out))
            },
            (None, Some(_)) => {
                let mut tleft = match lval.get_tuple(inter, from, env, depth) {
                    Ok(Some(t)) => t,
                    Ok(None) => {
                        return Err(RuntimeError::ExpectedTuple);
                    },
                    Err(e) => {
                        return Err(e);
                    },
                };
                let ghost before = types_view(tleft@);
                tleft.push(rval.clone());
                let r = Type::Tuple(tleft);
                proof {
                    lemma_tuple_view(&r);
                    assert(types_view(tleft@) =~= before.push(rval@));
                }
                Ok(r)
            },
            (Some(_), None) => {
                let mut tright = match rval.get_tuple(inter, from, env, depth) {
                    Ok(Some(t)) => t,
                    Ok(None) => {
                        return Err(RuntimeError::ExpectedTuple);
                    },
                    Err(e) => {
                        return Err(e);
                    },
                };
                let ghost after = types_view(tright@);
                let mut tleft: Vec<Type> = Vec::new();
                tleft.push(lval.clone());
                tleft.append(&mut tright);
                let r = Type::Tuple(tleft);
                proof {
                    lemma_tuple_view(&r);
                    assert(types_view(tleft@) =~= seq![lval@] + after);
                }
                Ok(r)
            },
            (None, None) => {
                let mut tleft = match lval.get_tuple(inter, from, env, depth) {
                    Ok(Some(t)) => t,
                    Ok(None) => {
                        return Err(RuntimeError::ExpectedTuple);
                    },
                    Err(e) => {
                        return Err(e);
                    },
                };
                let mut tright = match rval.get_tuple(inter, from, env, depth) {
                    Ok(Some(t)) => t,
                    Ok(None) => {
                        return Err(RuntimeError::ExpectedTuple);
                    },
                    Err(e) => {
                        return Err(e);
                    },
                };
                let ghost before = types_view(tleft@);
                let ghost after = types_view(tright@);
                tleft.append(&mut tright);
                let r = Type::Tuple(tleft);
                proof {
                    lemma_tuple_view(&r);
                    assert(types_view(tleft@) =~= before + after);
                }
                Ok(r)
            },
        }
}

/// Reads the variable that a text names, or those that a tuple names.
pub fn call_get_env(
    val: &Type,
    inter: &mut Interpreter,
    from: &UserPath,
    env: &mut Environment,
    depth: usize,
) -> (r: Result<Type, RuntimeError>)
    requires
        old(inter).wf(),
        old(env).wf(),
    ensures
        final(inter).wf(),
        final(inter).servers == old(inter).servers,
        final(env).wf(),
        match called(InstructionView::GetEnv(val@), world(*old(inter), *old(env)), from@, depth as nat) {
            Ok((w, v)) => r is Ok && r->Ok_0@ == v && world(*final(inter), *final(env)) == w,
            Err(e) => r == Err::<Type, _>(e),
        },
    decreases depth, InstructionView::GetEnv(val@), 0nat, 0nat,
{
    proof {
        assert(decreases_to!(InstructionView::GetEnv(val@) => val@));
    }
        let rawkey = match val.get_string(inter, from, env, depth) {
            Ok(s) => s,
            Err(e) => {
                return Err(e);
            },
        };
        let rawtuple = match val.get_tuple(inter, from, env, depth) {
            Ok(t) => t,
            Err(e) => {
                return Err(e);
            },
        };
        if let Some(tuple) = rawtuple {
            if depth == 0 {
                return Err(RuntimeError::TooDeep);
            }
            match get_variables(&tuple, inter, from, env, depth - 1) {
                Ok(values) => {
                    let r = Type::Tuple(values);
                    proof {
                        lemma_tuple_view(&r);
                    }
                    Ok(r)
                },
                Err(e) => Err(e),
            }
        } else if let Some(key) = rawkey {
            Ok(env.get(key.as_str()))
        } else {
            Err(RuntimeError::ExpectedText)
        }
}

/// Cuts a part out of a text or tuple.
pub fn call_slice(
    val: &Type,
    a: &Option<Type>,
    b: &Option<Type>,
    inter: &mut Interpreter,
    from: &UserPath,
    env: &mut Environment,
    depth: usize,
) -> (r: Result<Type, RuntimeError>)
    requires
        old(inter).wf(),
        old(env).wf(),
    ensures
        final(inter).wf(),
        final(inter).servers == old(inter).servers,
        final(env).wf(),
        match called(InstructionView::Slice(val@, option_model(*a), option_model(*b)), world(*old(inter), *old(env)), from@, depth as nat) {
            Ok((w, v)) => r is Ok && r->Ok_0@ == v && world(*final(inter), *final(env)) == w,
            Err(e) => r == Err::<Type, _>(e),
        },
    decreases depth, InstructionView::Slice(val@, option_model(*a), option_model(*b)), 0nat, 0nat,
{
    proof {
        let this = InstructionView::Slice(val@, option_model(*a), option_model(*b));
        assert(decreases_to!(this => val@));
        if a is Some {
            assert(decreases_to!(this => this->Slice_1->Some_0));
        }
        if b is Some {
            assert(decreases_to!(this => this->Slice_2->Some_0));
        }
    }
        let start: i128 = match a {
            Some(v) => {
                match v.get_num(inter, from, env, depth) {
                    Ok(Some(n)) => n as i128,
                    Ok(None) => {
                        return Err(RuntimeError::ExpectedNumber);
                    },
                    Err(e) => {
                        return Err(e);
                    },
                }
            },
            None => 0,
        };
        let end: i128 = match b {
            Some(v) => {
                match v.get_num(inter, from, env, depth) {
                    Ok(Some(n)) => n as i128,
                    Ok(None) => {
                        return Err(RuntimeError::ExpectedNumber);
                    },
                    Err(e) => {
                        return Err(e);
                    },
                }
            },
            None => match val.len(inter, from, env, depth) {
                Ok(Some(n)) => n as i128,
                Ok(None) => {
                    return Err(RuntimeError::NoLength);
                },
                Err(e) => {
                    return Err(e);
                },
            },
        };
        match val.slice_wide(start, end, inter, from, env, depth) {
            Ok(Some(found)) => Ok(found),
            Ok(None) => Err(RuntimeError::NoLength),
            Err(e) => Err(e),
        }
}

/// Binds one name, or each name of a tuple, to the resolved value.
pub fn call_assign(
    to: &Type,
    val: &Type,
    inter: &mut Interpreter,
    from: &UserPath,
    env: &mut Environment,
    depth: usize,
) -> (r: Result<Type, RuntimeError>)
    requires
        old(inter).wf(),
        old(env).wf(),
    ensures
        final(inter).wf(),
        final(inter).servers == old(inter).servers,
        final(env).wf(),
        match called(InstructionView::Assign(to@, val@), world(*old(inter), *old(env)), from@, depth as nat) {
            Ok((w, v)) => r is Ok && r->Ok_0@ == v && world(*final(inter), *final(env)) == w,
            Err(e) => r == Err::<Type, _>(e),
        },
    decreases depth, InstructionView::Assign(to@, val@), 0nat, 0nat,
{
    proof {
        assert(decreases_to!(InstructionView::Assign(to@, val@) => to@));
        assert(decreases_to!(InstructionView::Assign(to@, val@) => val@));
    }
        let target = match to.get_string(inter, from, env, depth) {
            Ok(s) => s,
            Err(e) => {
                return Err(e);
            },
        };
        match target {
            Some(s) => {
                let content = match val.resolve(inter, from, env, depth) {
                    Ok(content) => content,
                    Err(e) => {
                        return Err(e);
                    },
                };
                env.set(s.as_str(), content);
            },
            None => {
                let names = match to.get_tuple(inter, from, env, depth) {
                    Ok(t) => t,
                    Err(e) => {
                        return Err(e);
                    },
                };
                let values = match val.get_tuple(inter, from, env, depth) {
                    Ok(t) => t,
                    Err(e) => {
                        return Err(e);
                    },
                };
                match (names, values) {
                    (Some(tuple), Some(res)) => {
                        if tuple.len() != res.len() {
                            return Err(RuntimeError::ArityMismatch);
                        }
                        if depth == 0 {
                            return Err(RuntimeError::TooDeep);
                        }
                        match bind_all(&tuple, &res, inter, from, env, depth - 1) {
                            Ok(()) => {},
                            Err(e) => {
                                return Err(e);
                            },
                        }
                    },
                    _ => {
                        return Err(RuntimeError::ExpectedTuple);
                    },
                }
            },
        }
        Ok(val.clone())
}

impl Instruction {
    /// Runs the instruction for the acting user `from`, and gives its
    /// value.
    pub fn call(
        &self,
        inter: &mut Interpreter,
        from: &UserPath,
        env: &mut Environment,
        depth: usize,
    ) -> (r: Result<Type, RuntimeError>)
        requires
            old(inter).wf(),
            old(env).wf(),
        ensures
            final(inter).wf(),
            final(inter).servers == old(inter).servers,
            final(env).wf(),
            match called(self@, world(*old(inter), *old(env)), from@, depth as nat) {
                Ok((w, v)) => r is Ok && r->Ok_0@ == v && world(*final(inter), *final(env)) == w,
                Err(e) => r == Err::<Type, _>(e),
            },
        decreases depth, self@, 1nat, 0nat,
    {
        match self {
            Instruction::CreateServer(name) => {
                let servername = match name.get_string(inter, from, env, depth) {
                    Ok(Some(s)) => s,
                    Ok(None) => {
                        return Err(RuntimeError::ExpectedText);
                    },
                    Err(e) => {
                        return Err(e);
                    },
                };
                inter.add_server(servername.as_str());
                Ok(Type::Null)
            },
            Instruction::CreateUser(name, server, userdef) => {
                let username = match name.get_string(inter, from, env, depth) {
                    Ok(Some(s)) => s,
                    Ok(None) => {
                        return Err(RuntimeError::ExpectedText);
                    },
                    Err(e) => {
                        return Err(e);
                    },
                };
                let servername = match server.get_string(inter, from, env, depth) {
                    Ok(Some(s)) => s,
                    Ok(None) => {
                        return Err(RuntimeError::ExpectedText);
                    },
                    Err(e) => {
                        return Err(e);
                    },
                };
                inter.add_user(username.as_str(), servername.as_str(), userdef);
                Ok(Type::Null)
            },
            Instruction::MailTo(draft, name) => call_mail_to(draft, name, inter, from, env, depth),
            Instruction::Concatenate(lval, rval) => call_concatenate(
                lval,
                rval,
                inter,
                from,
                env,
                depth,
            ),
            Instruction::GetEnv(val) => call_get_env(val, inter, from, env, depth),
            Instruction::Index(val, pos) => {
                let n = match pos.get_num(inter, from, env, depth) {
                    Ok(Some(n)) => n,
                    Ok(None) => {
                        return Err(RuntimeError::ExpectedNumber);
                    },
                    Err(e) => {
                        return Err(e);
                    },
                };
                match val.index(n, inter, from, env, depth) {
                    Ok(Some(found)) => Ok(found),
                    Ok(None) => Err(RuntimeError::NoLength),
                    Err(e) => Err(e),
                }
            },
            Instruction::Slice(val, a, b) => call_slice(val, a, b, inter, from, env, depth),
            Instruction::Assign(to, val) => call_assign(to, val, inter, from, env, depth),
            Instruction::IfBlock(b) => {
                match b.call(inter, from, env, depth) {
                    Ok(()) => Ok(Type::Null),
                    Err(e) => Err(e),
                }
            },
            Instruction::Modify(val, modifier) => {
                match modifier.modify(val, inter, from, env, depth) {
                    Ok(Some(found)) => Ok(found),
                    Ok(None) => Err(RuntimeError::BadModifier),
                    Err(e) => Err(e),
                }
            },
        }
    }
}

} // verus!
