use vstd::prelude::*;
use crate::environment::{Environment, EnvironmentView};
use crate::error::RuntimeError;
use crate::interpreter::{world, Interpreter, InterpreterView, World};
use crate::mail::{mails_view, strings_view, Mail, MailView};
use crate::semantics::ran;
use crate::text::{pattern_matches, pattern_valid, regex_is_match};
use crate::types::{lemma_tuple_view, types_view, Type, TypeView};
use crate::instruction::{
    block_model,
    clone_instructions,
    instructions_view,
    lemma_block_model,
    Instruction,
    InstructionView,
};

verus! {

/// The name of a user and the name of its server.
#[derive(Debug, PartialEq)]
pub struct UserPath(pub String, pub String);

impl View for UserPath {
    type V = (Seq<char>, Seq<char>);

    open spec fn view(&self) -> (Seq<char>, Seq<char>) {
        (self.0@, self.1@)
    }
}

impl Clone for UserPath {
    fn clone(&self) -> (r: Self)
        ensures
            r@ == self@,
    {
        UserPath(self.0.clone(), self.1.clone())
    }
}

/// How a user reacts to mail: through a native handler, named by its number,
/// or through a list of patterns, each with the block that runs when the
/// subject matches it.
#[derive(Debug, PartialEq)]
pub enum UserType {
    External(usize),
    Internal(Vec<(String, Vec<Instruction>)>),
}

/// The mathematical value of a `UserType`.
pub enum UserDefView {
    External(usize),
    Internal(Seq<(Seq<char>, Seq<InstructionView>)>),
}

/// The definition of a user, from which users are made.
#[derive(Debug, PartialEq)]
pub struct UserDef {
    pub func: UserType,
}

/// The value of one reaction.
pub open spec fn matcher_model(matcher: (String, Vec<Instruction>)) -> (
    Seq<char>,
    Seq<InstructionView>,
)
    decreases matcher,
{
    (matcher.0@, block_model(matcher.1))
}

impl UserType {
    pub open spec fn model(&self) -> UserDefView
        decreases self,
    {
        match self {
            UserType::External(handler) => UserDefView::External(*handler),
            UserType::Internal(v) => UserDefView::Internal(
                Seq::new(
                    v.len() as nat,
                    |i: int|
                        if 0 <= i < v.len() {
                            matcher_model(v[i])
                        } else {
                            (Seq::empty(), Seq::empty())
                        },
                ),
            ),
        }
    }
}

impl UserDef {
    pub open spec fn model(&self) -> UserDefView
        decreases self,
    {
        self.func.model()
    }
}

impl View for UserType {
    type V = UserDefView;

    open spec fn view(&self) -> UserDefView {
        self.model()
    }
}

impl View for UserDef {
    type V = UserDefView;

    open spec fn view(&self) -> UserDefView {
        self.model()
    }
}

/// The values of a list of reactions, in order.
pub open spec fn matchers_view(matchers: Seq<(String, Vec<Instruction>)>) -> Seq<
    (Seq<char>, Seq<InstructionView>),
> {
    Seq::new(matchers.len(), |i: int| (matchers[i].0@, instructions_view(matchers[i].1@)))
}

/// The value of a list of reactions is the values of its reactions.
pub proof fn lemma_internal_view(func: &UserType)
    requires
        func is Internal,
    ensures
        func@ == UserDefView::Internal(matchers_view(func->Internal_0@)),
{
    let v = func->Internal_0;
    assert forall|i: int| 0 <= i < v.len() implies matcher_model(v[i]) == #[trigger] matchers_view(
        v@,
    )[i] by {
        lemma_block_model(v[i].1);
    }
    assert(func.model()->Internal_0 =~= matchers_view(v@));
}

impl Clone for UserType {
    fn clone(&self) -> (r: Self)
        ensures
            r@ == self@,
        decreases self,
    {
        match self {
            UserType::External(handler) => UserType::External(*handler),
            UserType::Internal(v) => {
                let mut out: Vec<(String, Vec<Instruction>)> = Vec::new();
                let mut i: usize = 0;
                while i < v.len()
                    invariant
                        i <= v.len(),
                        out.len() == i,
                        self->Internal_0 == *v,
                        *self is Internal,
                        forall|j: int|
                            0 <= j < i ==> out[j].0@ == v[j].0@ && instructions_view(out[j].1@)
                                == instructions_view(v[j].1@),
                    decreases v.len() - i,
                {
                    proof {
                        assert(decreases_to!(*self => self->Internal_0));
                        assert(decreases_to!(*v => v[i as int]));
                        assert(decreases_to!(v[i as int] => v[i as int].1));
                    }
                    let block = clone_instructions(&v[i].1);
                    out.push((v[i].0.clone(), block));
                    i += 1;
                }
                let r = UserType::Internal(out);
                proof {
                    lemma_internal_view(self);
                    lemma_internal_view(&r);
                    assert(matchers_view(out@) =~= matchers_view(v@));
                }
                r
            },
        }
    }
}

impl Clone for UserDef {
    fn clone(&self) -> (r: Self)
        ensures
            r@ == self@,
        decreases self,
    {
        UserDef { func: self.func.clone() }
    }
}

impl UserPath {
    /// The name of the user.
    pub fn get_username(&self) -> (r: &str)
        ensures
            r@ == self@.0,
    {
        self.0.as_str()
    }

    /// The name of the server.
    pub fn get_servername(&self) -> (r: &str)
        ensures
            r@ == self@.1,
    {
        self.1.as_str()
    }

    /// The address that the top-level program acts under.
    pub fn new_anon() -> (r: UserPath)
        ensures
            r@ == anonymous(),
    {
        UserPath("Anonymous".to_string(), "anon".to_string())
    }
}

/// The address that the top-level program acts under.
pub open spec fn anonymous() -> (Seq<char>, Seq<char>) {
    ("Anonymous"@, "anon"@)
}

impl UserDef {
    /// A definition that hands every mail to the native handler `handler`.
    pub fn create_def_external(handler: usize) -> (r: UserDef)
        ensures
            r@ == UserDefView::External(handler),
    {
        UserDef { func: UserType::External(handler) }
    }

    /// A definition that reacts by the given patterns, tried in order.
    pub fn create_def_internal(instructions: Vec<(String, Vec<Instruction>)>) -> (r: UserDef)
        ensures
            r@ == UserDefView::Internal(matchers_view(instructions@)),
    {
        let r = UserDef { func: UserType::Internal(instructions) };
        proof {
            lemma_internal_view(&r.func);
        }
        r
    }
}

/// A mailbox: how it reacts to mail, and the variables that it keeps from
/// one delivery to the next.
#[derive(Debug, PartialEq)]
pub struct User {
    pub func: UserType,
    pub env: Environment,
}

/// The mathematical value of a `User`.
pub struct UserView {
    pub func: UserDefView,
    pub env: EnvironmentView,
}

impl View for User {
    type V = UserView;

    open spec fn view(&self) -> UserView {
        UserView { func: self.func@, env: self.env@ }
    }
}

/// A user that was just made from a definition: it has no variables yet.
pub open spec fn fresh_user(def: UserDefView, name: Seq<char>, server: Seq<char>) -> UserView {
    UserView { func: def, env: EnvironmentView { data: Map::empty(), path: (name, server) } }
}

impl UserDef {
    /// A user with this definition, at the given address.
    pub fn create_user(&self, name: &str, server: &str) -> (r: User)
        ensures
            r.wf(),
            r@ == fresh_user(self@, name@, server@),
    {
        User { func: self.func.clone(), env: Environment::new(name, server) }
    }
}

impl User {
    /// Whether the user is well formed; every one that the functions of
    /// this library make or change is.
    pub open spec fn wf(&self) -> bool {
        self.env.wf()
    }

    /// The definition that the user was made from.
    pub fn get_userdef(&self) -> (r: UserDef)
        ensures
            r@ == self@.func,
    {
        UserDef { func: self.func.clone() }
    }
}

/// What stands behind the native users: it is handed each mail that
/// reaches one of them, and answers with the mails to send. Nothing is
/// promised of the answer.
pub trait NativeHandler {
    /// Reacts to `mail`, which has reached the native user `user` whose
    /// definition names the handler `handler`.
    fn receive(&mut self, handler: usize, user: &User, mail: &Mail) -> Vec<Mail>;
}

/// An address as a value: its two halves are texts.
pub open spec fn address_value(path: (Seq<char>, Seq<char>)) -> TypeView {
    TypeView::UserPath(Box::new(TypeView::Text(path.0)), Box::new(TypeView::Text(path.1)))
}

/// Each text as a value.
pub open spec fn text_values(texts: Seq<Seq<char>>) -> Seq<TypeView> {
    Seq::new(texts.len(), |i: int| TypeView::Text(texts[i]))
}

/// The variables of a user after a mail has reached it: `subject`,
/// `content`, `sender`, `self` and `attachments` hold what the mail says.
pub open spec fn received(data: Map<Seq<char>, TypeView>, mail: MailView) -> Map<
    Seq<char>,
    TypeView,
> {
    data.insert("subject"@, TypeView::Text(mail.subject)).insert(
        "content"@,
        TypeView::Text(mail.message),
    ).insert("sender"@, address_value(mail.from)).insert("self"@, address_value(mail.to)).insert(
        "attachments"@,
        TypeView::Tuple(text_values(mail.attachments)),
    )
}

/// The index of the first reaction at or after `i` whose pattern is a
/// regular expression that matches the subject, or the number of reactions
/// when there is none.
pub open spec fn first_match(
    matchers: Seq<(Seq<char>, Seq<InstructionView>)>,
    subject: Seq<char>,
    i: int,
) -> int
    decreases matchers.len() - i,
{
    if i < 0 || i >= matchers.len() {
        matchers.len() as int
    } else if pattern_valid(matchers[i].0) && pattern_matches(matchers[i].0, subject) {
        i
    } else {
        first_match(matchers, subject, i + 1)
    }
}

/// The reaction that `first_match` picks is the first whose pattern
/// matches, in the order in which the reactions were declared: no earlier
/// one matches, however much more closely a later one may fit.
pub proof fn lemma_first_match(
    matchers: Seq<(Seq<char>, Seq<InstructionView>)>,
    subject: Seq<char>,
    i: int,
)
    requires
        0 <= i <= matchers.len(),
    ensures
        i <= first_match(matchers, subject, i) <= matchers.len(),
        first_match(matchers, subject, i) < matchers.len() ==> pattern_valid(
            matchers[first_match(matchers, subject, i)].0,
        ) && pattern_matches(matchers[first_match(matchers, subject, i)].0, subject),
        forall|j: int|
            i <= j < first_match(matchers, subject, i) ==> !(pattern_valid(
                (#[trigger] matchers[j]).0,
            ) && pattern_matches(matchers[j].0, subject)),
    decreases matchers.len() - i,
{
    if i < matchers.len() && !(pattern_valid(matchers[i].0) && pattern_matches(
        matchers[i].0,
        subject,
    )) {
        lemma_first_match(matchers, subject, i + 1);
    }
}

/// The world after a mail has reached a user, where `replies` is what the
/// native handler answers if the user is a native one. The mail is noted
/// in the user's variables; then a native user queues the replies, and any
/// other runs the block of its first reaction that matches the subject,
/// acting under the address that the mail went to.
pub open spec fn reacted(
    user: UserView,
    inter: InterpreterView,
    mail: MailView,
    replies: Seq<MailView>,
    d: nat,
) -> Result<World, RuntimeError> {
    let env = EnvironmentView { data: received(user.env.data, mail), ..user.env };
    match user.func {
        UserDefView::External(_) => Ok(
            World { inter: InterpreterView { pending: inter.pending + replies, ..inter }, env },
        ),
        UserDefView::Internal(matchers) => {
            let k = first_match(matchers, mail.subject, 0);
            if k >= matchers.len() {
                Ok(World { inter, env })
            } else {
                ran(matchers[k].1, 0, World { inter, env }, mail.to, d)
            }
        },
    }
}

/// An address as a value.
pub fn path_value(path: &UserPath) -> (r: Type)
    ensures
        r@ == address_value(path@),
{
    let name = Type::Text(path.0.clone());
    let server = Type::Text(path.1.clone());
    assert(name@ == TypeView::Text(path@.0));
    assert(server@ == TypeView::Text(path@.1));
    Type::UserPath(Box::new(name), Box::new(server))
}

/// Each text as a value, in a tuple.
pub fn texts_value(texts: &Vec<String>) -> (r: Type)
    ensures
        r@ == TypeView::Tuple(text_values(strings_view(texts@))),
{
    let mut out: Vec<Type> = Vec::new();
    let mut i: usize = 0;
    while i < texts.len()
        invariant
            i <= texts.len(),
            out.len() == i,
            forall|j: int| 0 <= j < i ==> out[j]@ == TypeView::Text(texts[j]@),
        decreases texts.len() - i,
    {
        out.push(Type::Text(texts[i].clone()));
        i += 1;
    }
    let r = Type::Tuple(out);
    proof {
        lemma_tuple_view(&r);
        assert(types_view(out@) =~= text_values(strings_view(texts@)));
    }
    r
}

/// The index of the first reaction whose pattern matches the subject.
pub fn find_reaction(matchers: &Vec<(String, Vec<Instruction>)>, subject: &str) -> (r: usize)
    ensures
        r == first_match(matchers_view(matchers@), subject@, 0),
        r <= matchers@.len(),
{
    let ghost views = matchers_view(matchers@);
    let mut i: usize = 0;
    while i < matchers.len()
        invariant
            i <= matchers.len(),
            views == matchers_view(matchers@),
            first_match(views, subject@, 0) == first_match(views, subject@, i as int),
        decreases matchers.len() - i,
    {
        let hit = match regex_is_match(matchers[i].0.as_str(), subject) {
            Some(hit) => hit,
            None => false,
        };
        if hit {
            return i;
        }
        i += 1;
    }
    i
}

impl User {
    /// Delivers a mail to the user.
    pub fn send<H: NativeHandler>(
        &mut self,
        inter: &mut Interpreter,
        mail: &Mail,
        natives: &mut H,
        depth: usize,
    ) -> (r: Result<(), RuntimeError>)
        requires
            old(self).wf(),
            old(inter).wf(),
        ensures
            final(self).wf(),
            final(inter).wf(),
            final(inter).servers == old(inter).servers,
            final(self)@.func == old(self)@.func,
            exists|replies: Seq<MailView>|
                match #[trigger] reacted(
                    old(self)@,
                    world(*old(inter), old(self).env).inter,
                    mail@,
                    replies,
                    depth as nat,
                ) {
                    Ok(w) => r is Ok && world(*final(inter), final(self).env) == w,
                    Err(e) => r == Err::<(), _>(e),
                },
    {
        let ghost before = self@;
        let ghost inter0 = world(*inter, self.env).inter;
        self.env.set("subject", Type::Text(mail.subject.clone()));
        self.env.set("content", Type::Text(mail.message.clone()));
        self.env.set("sender", path_value(&mail.from));
        self.env.set("self", path_value(&mail.to));
        self.env.set("attachments", texts_value(&mail.attachments));
        assert(self.env@.data == received(before.env.data, mail@));
        match &self.func {
            UserType::External(handler) => {
                let replies = natives.receive(*handler, &*self, mail);
                let ghost answered = mails_view(replies@);
                let mut i: usize = 0;
                assert(answered.take(0) =~= Seq::empty());
                assert(inter0.pending + answered.take(0) =~= inter0.pending);
                while i < replies.len()
                    invariant
                        i <= replies.len(),
                        inter.wf(),
                        inter.servers == old(inter).servers,
                        answered == mails_view(replies@),
                        world(*inter, self.env).inter == (InterpreterView {
                            pending: inter0.pending + answered.take(i as int),
                            ..inter0
                        }),
                    decreases replies.len() - i,
                {
                    inter.mail(replies[i].clone());
                    assert(inter0.pending + answered.take(i + 1) =~= (inter0.pending
                        + answered.take(i as int)).push(answered[i as int]));
                    i += 1;
                }
                assert(answered.take(i as int) =~= answered);
                assert(reacted(before, inter0, mail@, answered, depth as nat) == Ok::<
                    World,
                    RuntimeError,
                >(world(*inter, self.env)));
                Ok(())
            },
            UserType::Internal(v) => {
                proof {
                    lemma_internal_view(&self.func);
                }
                let k = find_reaction(v, mail.subject.as_str());
                if k < v.len() {
                    let r = inter.run(&v[k].1, &mail.to, &mut self.env, depth);
                    assert(match reacted(before, inter0, mail@, Seq::empty(), depth as nat) {
                        Ok(w) => r is Ok && world(*inter, self.env) == w,
                        Err(e) => r == Err::<(), _>(e),
                    });
                    r
                } else {
                    assert(reacted(before, inter0, mail@, Seq::empty(), depth as nat) == Ok::<
                        World,
                        RuntimeError,
                    >(world(*inter, self.env)));
                    Ok(())
                }
            },
        }
    }
}

} // verus!
