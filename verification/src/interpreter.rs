use vstd::prelude::*;
use crate::environment::{Environment, EnvironmentView};
use crate::error::RuntimeError;
use crate::instruction::{instructions_view, Instruction};
use crate::semantics::ran;
use crate::user::{anonymous, reacted, NativeHandler, UserPath};

pub mod stdlib;
use crate::mail::{mails_view, Mail, MailView};
use crate::modifier::ModifierFunc;
use crate::server::Server;
use crate::table::Table;
use crate::user::{fresh_user, User, UserDef, UserDefView, UserView};

verus! {

/// The runtime: the servers with their users, the three queues of effects
/// that wait for the next tick, and the registry of modifiers.
#[derive(Debug, PartialEq)]
pub struct Interpreter {
    pub servers: Table<Server>,
    pub pending: Vec<Mail>,
    pub users_to_add: Vec<(String, String, User)>,
    pub servers_to_add: Vec<String>,
    pub modifiers: Table<ModifierFunc>,
    /// How deep the evaluation of deferred expressions may nest.
    pub max_depth: usize,
}

/// The mathematical value of an `Interpreter`.
pub struct InterpreterView {
    pub servers: Map<Seq<char>, Map<Seq<char>, UserView>>,
    pub pending: Seq<MailView>,
    pub users_to_add: Seq<(Seq<char>, Seq<char>, UserView)>,
    pub servers_to_add: Seq<Seq<char>>,
    pub modifiers: Map<Seq<char>, ModifierFunc>,
    pub max_depth: usize,
}

/// What an instruction can read and change while it runs: the queues and
/// the modifiers of the runtime, and the variables of the acting user.
pub struct World {
    pub inter: InterpreterView,
    pub env: EnvironmentView,
}

/// The world that a runtime and an environment make. The servers are no
/// part of it: no instruction reads or changes them, since everything that
/// an instruction does to the runtime waits in a queue.
pub open spec fn world(inter: Interpreter, env: crate::environment::Environment) -> World {
    World { inter: InterpreterView { servers: Map::empty(), ..inter@ }, env: env@ }
}

/// The values of the users that wait to be installed, in order.
pub open spec fn waiting_users(users: Seq<(String, String, User)>) -> Seq<
    (Seq<char>, Seq<char>, UserView),
> {
    Seq::new(users.len(), |i: int| (users[i].0@, users[i].1@, users[i].2@))
}

impl View for Interpreter {
    type V = InterpreterView;

    open spec fn view(&self) -> InterpreterView {
        InterpreterView {
            servers: self.servers@.map_values(|s: Server| s@),
            pending: mails_view(self.pending@),
            users_to_add: waiting_users(self.users_to_add@),
            servers_to_add: crate::mail::strings_view(self.servers_to_add@),
            modifiers: self.modifiers@,
            max_depth: self.max_depth,
        }
    }
}

impl Interpreter {
    /// Whether the runtime and everything in it is well formed; every one
    /// that the functions of this library make or change is.
    pub open spec fn wf(&self) -> bool {
        &&& self.servers.wf()
        &&& self.modifiers.wf()
        &&& forall|name: Seq<char>| #[trigger]
            self.servers@.dom().contains(name) ==> self.servers@[name].wf()
        &&& forall|i: int|
            0 <= i < self.users_to_add@.len() ==> (#[trigger] self.users_to_add@[i]).2.wf()
    }

    /// Asks for a user to be installed at the next tick.
    pub fn add_user(&mut self, name: &str, server: &str, userdef: &UserDef)
        requires
            old(self).wf(),
        ensures
            final(self).wf(),
            final(self).servers == old(self).servers,
            final(self)@ == (InterpreterView {
                users_to_add: old(self)@.users_to_add.push(
                    (name@, server@, fresh_user(userdef@, name@, server@)),
                ),
                ..old(self)@
            }),
    {
        self.users_to_add.push((name.to_string(), server.to_string(), userdef.create_user(name, server)));
        assert(self@.users_to_add =~= old(self)@.users_to_add.push(
            (name@, server@, fresh_user(userdef@, name@, server@)),
        ));
    }

    /// Asks for a server to be installed at the next tick.
    pub fn add_server(&mut self, server: &str)
        requires
            old(self).wf(),
        ensures
            final(self).wf(),
            final(self).servers == old(self).servers,
            final(self)@ == (InterpreterView {
                servers_to_add: old(self)@.servers_to_add.push(server@),
                ..old(self)@
            }),
    {
        self.servers_to_add.push(server.to_string());
        assert(self@.servers_to_add =~= old(self)@.servers_to_add.push(server@));
    }

    /// Asks for a mail to be delivered at the next tick.
    pub fn mail(&mut self, mail: Mail)
        requires
            old(self).wf(),
        ensures
            final(self).wf(),
            final(self).servers == old(self).servers,
            final(self)@ == (InterpreterView {
                pending: old(self)@.pending.push(mail@),
                ..old(self)@
            }),
    {
        self.pending.push(mail);
        assert(self@.pending =~= old(self)@.pending.push(mail@));
    }
}

impl Interpreter {
    /// Runs the instructions in order for the acting user `from`, against
    /// that user's variables. Nothing that the instructions queue is
    /// installed or delivered here.
    pub fn run(
        &mut self,
        instructions: &Vec<Instruction>,
        from: &UserPath,
        env: &mut Environment,
        depth: usize,
    ) -> (r: Result<(), RuntimeError>)
        requires
            old(self).wf(),
            old(env).wf(),
        ensures
            final(self).wf(),
            final(self).servers == old(self).servers,
            final(env).wf(),
            match ran(
                instructions_view(instructions@),
                0,
                world(*old(self), *old(env)),
                from@,
                depth as nat,
            ) {
                Ok(w) => r is Ok && world(*final(self), *final(env)) == w,
                Err(e) => r == Err::<(), _>(e),
            },
        decreases depth, instructions_view(instructions@), 1nat, instructions@.len() + 1,
    {
        let ghost block = instructions_view(instructions@);
        let ghost w0 = world(*self, *env);
        let ghost d = depth as nat;
        let mut i: usize = 0;
        while i < instructions.len()
            invariant
                i <= instructions.len(),
                self.wf(),
                self.servers == old(self).servers,
                env.wf(),
                block == instructions_view(instructions@),
                d == depth,
                w0 == world(*old(self), *old(env)),
                ran(block, 0, w0, from@, d) == ran(block, i as int, world(*self, *env), from@, d),
            decreases instructions.len() - i,
        {
            proof {
                assert(decreases_to!(block => block[i as int]));
            }
            match instructions[i].call(self, from, env, depth) {
                Ok(_) => {},
                Err(e) => {
                    return Err(e);
                },
            }
            i += 1;
        }
        Ok(())
    }
}

/// The runtime as instructions see it: without its servers.
pub open spec fn hidden(st: InterpreterView) -> InterpreterView {
    InterpreterView { servers: Map::empty(), ..st }
}

/// The runtime after one mail has been delivered, where `replies` is what
/// the native handler answers if the mail reaches a native user. A mail to
/// a server or a user that does not exist changes nothing.
pub open spec fn delivered(
    st: InterpreterView,
    mail: MailView,
    replies: Seq<MailView>,
    d: nat,
) -> Result<InterpreterView, RuntimeError> {
    if !st.servers.dom().contains(mail.to.1) || !st.servers[mail.to.1].dom().contains(mail.to.0) {
        Ok(st)
    } else {
        let server = st.servers[mail.to.1];
        let user = server[mail.to.0];
        match reacted(user, hidden(st), mail, replies, d) {
            Err(e) => Err(e),
            Ok(w) => Ok(
                InterpreterView {
                    servers: st.servers.insert(
                        mail.to.1,
                        server.insert(mail.to.0, UserView { func: user.func, env: w.env }),
                    ),
                    ..w.inter
                },
            ),
        }
    }
}

/// A mail to a server that does not exist, or to a user that its server
/// does not have, is dropped: nothing changes and nothing fails.
pub proof fn lemma_mail_to_nobody(
    st: InterpreterView,
    mail: MailView,
    replies: Seq<MailView>,
    d: nat,
)
    requires
        !st.servers.dom().contains(mail.to.1) || !st.servers[mail.to.1].dom().contains(mail.to.0),
    ensures
        delivered(st, mail, replies, d) == Ok::<_, RuntimeError>(st),
{
}

/// The servers after each of `names` is installed, in order, as a server
/// without users; an existing server of that name is replaced.
pub open spec fn with_servers(
    servers: Map<Seq<char>, Map<Seq<char>, UserView>>,
    names: Seq<Seq<char>>,
) -> Map<Seq<char>, Map<Seq<char>, UserView>>
    decreases names.len(),
{
    if names.len() == 0 {
        servers
    } else {
        with_servers(servers, names.drop_last()).insert(names.last(), Map::empty())
    }
}

/// The servers after each of `users` is installed, in order, on its
/// server, in place of a user of that name. A server that does not exist
/// yet comes into being with its first user.
pub open spec fn with_users(
    servers: Map<Seq<char>, Map<Seq<char>, UserView>>,
    users: Seq<(Seq<char>, Seq<char>, UserView)>,
) -> Map<Seq<char>, Map<Seq<char>, UserView>>
    decreases users.len(),
{
    if users.len() == 0 {
        servers
    } else {
        let user = users.last();
        let before = with_users(servers, users.drop_last());
        let server = if before.dom().contains(user.1) {
            before[user.1]
        } else {
            Map::empty()
        };
        before.insert(user.1, server.insert(user.0, user.2))
    }
}

/// The runtime after the mails from index `i` on have been delivered, in
/// order, where `oracle` holds at each index what the native handler
/// answers to the mail at that index.
pub open spec fn delivered_all(
    st: InterpreterView,
    mails: Seq<MailView>,
    oracle: Seq<Seq<MailView>>,
    i: int,
    d: nat,
) -> Result<InterpreterView, RuntimeError>
    decreases mails.len() - i,
{
    if i < 0 || i >= mails.len() {
        Ok(st)
    } else {
        match delivered(st, mails[i], oracle[i], d) {
            Err(e) => Err(e),
            Ok(next) => delivered_all(next, mails, oracle, i + 1, d),
        }
    }
}

/// The runtime after all waiting servers and then all waiting users are
/// installed.
pub open spec fn installed(st: InterpreterView) -> InterpreterView {
    InterpreterView {
        servers: with_users(with_servers(st.servers, st.servers_to_add), st.users_to_add),
        servers_to_add: Seq::empty(),
        users_to_add: Seq::empty(),
        ..st
    }
}

/// Whether nothing waits in the three queues.
pub open spec fn quiet(st: InterpreterView) -> bool {
    st.servers_to_add.len() == 0 && st.users_to_add.len() == 0 && st.pending.len() == 0
}

/// One tick: all waiting servers are installed, then all waiting users,
/// then all waiting mails are delivered; what the deliveries queue waits
/// for the next tick. The result says whether anything was waiting.
pub open spec fn tick(st: InterpreterView, oracle: Seq<Seq<MailView>>) -> Result<
    (InterpreterView, bool),
    RuntimeError,
> {
    if quiet(st) {
        Ok((st, false))
    } else {
        match delivered_all(
            InterpreterView { pending: Seq::empty(), ..installed(st) },
            st.pending,
            oracle,
            0,
            st.max_depth as nat,
        ) {
            Err(e) => Err(e),
            Ok(next) => Ok((next, true)),
        }
    }
}

/// The runtime after at most `n` further ticks, the `k`-th of which is
/// answered by `oracles[k]`, and whether the queues ran empty.
pub open spec fn drained(
    st: InterpreterView,
    oracles: Seq<Seq<Seq<MailView>>>,
    k: int,
    n: nat,
) -> Result<(InterpreterView, bool), RuntimeError>
    decreases n,
{
    if n == 0 {
        Ok((st, false))
    } else {
        match tick(st, oracles[k]) {
            Err(e) => Err(e),
            Ok((next, false)) => Ok((next, true)),
            Ok((next, true)) => drained(next, oracles, k + 1, (n - 1) as nat),
        }
    }
}

/// A whole run: one tick for what was waiting before, then the program,
/// run by the anonymous user with no variables, then at most `max_ticks`
/// ticks until nothing waits any more.
pub open spec fn executed(
    st: InterpreterView,
    program: Seq<crate::instruction::InstructionView>,
    oracles: Seq<Seq<Seq<MailView>>>,
    max_ticks: nat,
) -> Result<(InterpreterView, bool), RuntimeError> {
    match tick(st, oracles[0]) {
        Err(e) => Err(e),
        Ok((first, _)) => match ran(
            program,
            0,
            World {
                inter: hidden(first),
                env: EnvironmentView { data: Map::empty(), path: anonymous() },
            },
            anonymous(),
            first.max_depth as nat,
        ) {
            Err(e) => Err(e),
            Ok(w) => drained(
                InterpreterView { servers: first.servers, ..w.inter },
                oracles,
                1,
                max_ticks,
            ),
        },
    }
}

impl Interpreter {
    /// Takes the server `name` out of the registry.
    pub fn take_server(&mut self, name: &str) -> (r: Option<Server>)
        requires
            old(self).wf(),
        ensures
            final(self).wf(),
            final(self)@ == (InterpreterView {
                servers: old(self)@.servers.remove(name@),
                ..old(self)@
            }),
            match r {
                Some(server) => old(self)@.servers.dom().contains(name@) && server@ == old(
                    self,
                )@.servers[name@] && server.wf(),
                None => !old(self)@.servers.dom().contains(name@),
            },
    {
        let r = self.servers.remove(name);
        assert(self@.servers =~= old(self)@.servers.remove(name@));
        r
    }

    /// Installs `server` under `name`, in place of a server of that name.
    pub fn put_server(&mut self, name: String, server: Server)
        requires
            old(self).wf(),
            server.wf(),
        ensures
            final(self).wf(),
            final(self)@ == (InterpreterView {
                servers: old(self)@.servers.insert(name@, server@),
                ..old(self)@
            }),
    {
        self.servers.insert(name, server);
        assert(self@.servers =~= old(self)@.servers.insert(name@, server@));
    }

    /// Delivers one mail: the user that it is addressed to reacts to it.
    /// A mail to a server or a user that does not exist is dropped.
    pub fn handle_sent_mail<H: NativeHandler>(&mut self, mail: &Mail, natives: &mut H) -> (r: Result<
        (),
        RuntimeError,
    >)
        requires
            old(self).wf(),
        ensures
            final(self).wf(),
            exists|replies: Seq<MailView>|
                match #[trigger] delivered(
                    old(self)@,
                    mail@,
                    replies,
                    old(self).max_depth as nat,
                ) {
                    Ok(st) => r is Ok && final(self)@ == st,
                    Err(e) => r == Err::<(), _>(e),
                },
    {
        let depth = self.max_depth;
        self.deliver(mail, natives, depth)
    }

    /// As `handle_sent_mail`, with the bound on nesting given.
    pub fn deliver<H: NativeHandler>(&mut self, mail: &Mail, natives: &mut H, depth: usize) -> (r:
        Result<(), RuntimeError>)
        requires
            old(self).wf(),
        ensures
            final(self).wf(),
            exists|replies: Seq<MailView>|
                match #[trigger] delivered(old(self)@, mail@, replies, depth as nat) {
                    Ok(st) => r is Ok && final(self)@ == st,
                    Err(e) => r == Err::<(), _>(e),
                },
    {
        let ghost st = self@;
        let mut serv = match self.take_server(mail.to.1.as_str()) {
            Some(serv) => serv,
            None => {
                assert(self@.servers =~= st.servers);
                assert(delivered(st, mail@, Seq::empty(), depth as nat) == Ok::<
                    InterpreterView,
                    RuntimeError,
                >(self@));
                return Ok(());
            },
        };
        let ghost server = serv@;
        let mut user = match serv.take_user(mail.to.0.as_str()) {
            Some(user) => user,
            None => {
                assert(serv@ =~= server);
                self.put_server(mail.to.1.clone(), serv);
                assert(self@.servers =~= st.servers);
                assert(delivered(st, mail@, Seq::empty(), depth as nat) == Ok::<
                    InterpreterView,
                    RuntimeError,
                >(self@));
                return Ok(());
            },
        };
        let ghost before = user@;
        let ghost seen = world(*self, user.env).inter;
        assert(seen == hidden(st));
        let r = user.send(self, mail, natives, depth);
        let ghost replies = choose|replies: Seq<MailView>|
            match #[trigger] reacted(before, seen, mail@, replies, depth as nat) {
                Ok(w) => r is Ok && world(*self, user.env) == w,
                Err(e) => r == Err::<(), _>(e),
            };
        let ghost after = self@;
        let ghost changed = user@;
        assert(after.servers == st.servers.remove(mail@.to.1)) by {
            assert(after.servers =~= st.servers.remove(mail@.to.1));
        }
        serv.add_user(mail.to.0.clone(), user);
        assert(serv@ =~= server.insert(mail@.to.0, changed));
        self.put_server(mail.to.1.clone(), serv);
        proof {
            assert(self@.servers =~= st.servers.insert(
                mail@.to.1,
                server.insert(mail@.to.0, changed),
            ));
            assert(match delivered(st, mail@, replies, depth as nat) {
                Ok(next) => r is Ok && self@ == next,
                Err(e) => r == Err::<(), _>(e),
            });
        }
        r
    }
}

/// The number of the native handler behind `io@std.com`.
pub const STD_IO: usize = 0;

/// The number of the native handler behind `loop@std.com`.
pub const STD_LOOP: usize = 1;

/// The number of the native handler behind `cmp@std.com`.
pub const STD_COMPARE: usize = 2;

/// The number of the native handler behind `math@std.com`.
pub const STD_MATH: usize = 3;

/// How deep deferred expressions may nest unless the bound is changed.
pub const DEFAULT_DEPTH: usize = 256;

/// The users of the server `std.com`: the four native ones.
pub open spec fn std_users() -> Seq<(Seq<char>, Seq<char>, UserView)> {
    seq![
        ("io"@, "std.com"@, fresh_user(UserDefView::External(STD_IO), "io"@, "std.com"@)),
        ("loop"@, "std.com"@, fresh_user(UserDefView::External(STD_LOOP), "loop"@, "std.com"@)),
        ("cmp"@, "std.com"@, fresh_user(UserDefView::External(STD_COMPARE), "cmp"@, "std.com"@)),
        ("math"@, "std.com"@, fresh_user(UserDefView::External(STD_MATH), "math"@, "std.com"@)),
    ]
}

/// The runtime with the server `std.com` and its users waiting to be
/// installed behind what waits already.
pub open spec fn std_queued(st: InterpreterView) -> InterpreterView {
    InterpreterView {
        servers_to_add: st.servers_to_add.push("std.com"@),
        users_to_add: st.users_to_add + std_users(),
        ..st
    }
}

/// A runtime without servers, modifiers, or anything waiting.
pub open spec fn empty_runtime() -> InterpreterView {
    InterpreterView {
        servers: Map::empty(),
        pending: Seq::empty(),
        users_to_add: Seq::empty(),
        servers_to_add: Seq::empty(),
        modifiers: Map::empty(),
        max_depth: DEFAULT_DEPTH,
    }
}

/// The users of `std.com` as the server holds them.
pub open spec fn std_server() -> Map<Seq<char>, UserView> {
    Map::<Seq<char>, UserView>::empty().insert("io"@, std_users()[0].2).insert(
        "loop"@,
        std_users()[1].2,
    ).insert("cmp"@, std_users()[2].2).insert("math"@, std_users()[3].2)
}

/// Before any program has run, `std.com` is the only server, and it
/// holds the four native users.
pub proof fn lemma_initial_servers()
    ensures
        initial().servers == Map::<Seq<char>, Map<Seq<char>, UserView>>::empty().insert(
            "std.com"@,
            std_server(),
        ),
{
    let names = seq!["std.com"@];
    let empty = Map::<Seq<char>, Map<Seq<char>, UserView>>::empty();
    assert(Seq::<Seq<char>>::empty().push("std.com"@) =~= names);
    assert(names.drop_last() =~= Seq::empty());
    let s0 = with_servers(empty, names);
    assert(with_servers(empty, Seq::empty()) == empty);
    assert(names.last() == "std.com"@);
    assert(s0 == empty.insert("std.com"@, Map::empty()));
    let users = std_users();
    assert(Seq::<(Seq<char>, Seq<char>, UserView)>::empty() + users =~= users);
    assert(users.take(0) =~= Seq::empty());
    assert(users.take(1).drop_last() =~= users.take(0));
    assert(users.take(2).drop_last() =~= users.take(1));
    assert(users.take(3).drop_last() =~= users.take(2));
    assert(users.take(4).drop_last() =~= users.take(3));
    assert(users.take(4) =~= users);
    let u1 = with_users(s0, users.take(1));
    let u2 = with_users(s0, users.take(2));
    let u3 = with_users(s0, users.take(3));
    let u4 = with_users(s0, users.take(4));
    assert(with_users(s0, users.take(0)) == s0);
    let m1 = Map::<Seq<char>, UserView>::empty().insert("io"@, users[0].2);
    assert(u1 =~= empty.insert("std.com"@, m1));
    let m2 = m1.insert("loop"@, users[1].2);
    assert(u2 =~= empty.insert("std.com"@, m2));
    let m3 = m2.insert("cmp"@, users[2].2);
    assert(u3 =~= empty.insert("std.com"@, m3));
    let m4 = m3.insert("math"@, users[3].2);
    assert(u4 =~= empty.insert("std.com"@, m4));
}

/// The runtime before any program has run: the server `std.com` with its
/// native users is installed, the three default modifiers are registered,
/// and nothing waits.
pub open spec fn initial() -> InterpreterView {
    InterpreterView {
        modifiers: crate::modifier::with_default_mods(Map::empty()),
        ..installed(std_queued(empty_runtime()))
    }
}

impl Interpreter {
    pub fn new() -> (r: Interpreter)
        ensures
            r.wf(),
            r@ == initial(),
    {
        let mut inter = Interpreter {
            servers: Table::new(),
            pending: Vec::new(),
            users_to_add: Vec::new(),
            servers_to_add: Vec::new(),
            modifiers: Table::new(),
            max_depth: DEFAULT_DEPTH,
        };
        assert(inter@.servers =~= Map::empty());
        assert(inter@.pending =~= Seq::empty());
        assert(inter@.users_to_add =~= Seq::empty());
        assert(inter@.servers_to_add =~= Seq::empty());
        stdlib::create_std_lib(&mut inter);
        crate::modifier::apply_default_mods(&mut inter);
        inter
    }

    /// Installs the waiting servers, and then the waiting users.
    pub fn install_pending(&mut self)
        requires
            old(self).wf(),
        ensures
            final(self).wf(),
            final(self)@ == installed(old(self)@),
    {
        let ghost st = self@;
        let mut names: Vec<String> = Vec::new();
        core::mem::swap(&mut names, &mut self.servers_to_add);
        let mut i: usize = 0;
        assert(st.servers_to_add.take(0) =~= Seq::empty());
        assert(self@.servers_to_add =~= Seq::empty());
        while i < names.len()
            invariant
                i <= names.len(),
                self.wf(),
                crate::mail::strings_view(names@) == st.servers_to_add,
                self@ == (InterpreterView {
                    servers: with_servers(st.servers, st.servers_to_add.take(i as int)),
                    servers_to_add: Seq::empty(),
                    ..st
                }),
            decreases names.len() - i,
        {
            assert(st.servers_to_add.take(i + 1).drop_last() =~= st.servers_to_add.take(i as int));
            self.put_server(names[i].clone(), Server::new());
            i += 1;
        }
        assert(st.servers_to_add.take(i as int) =~= st.servers_to_add);
        let ghost base = with_servers(st.servers, st.servers_to_add);
        let ghost all = st.users_to_add;
        let mut users: Vec<(String, String, User)> = Vec::new();
        core::mem::swap(&mut users, &mut self.users_to_add);
        let ghost mut k: int = 0;
        assert(all.take(0) =~= Seq::empty());
        assert(all.skip(0) =~= all);
        assert(self@.users_to_add =~= Seq::empty());
        while users.len() > 0
            invariant
                0 <= k <= all.len(),
                self.wf(),
                users@.len() == all.len() - k,
                waiting_users(users@) == all.skip(k),
                forall|j: int| 0 <= j < users@.len() ==> (#[trigger] users@[j]).2.wf(),
                with_users(base, all.take(k)) == self@.servers,
                base == with_servers(st.servers, st.servers_to_add),
                all == st.users_to_add,
                self@ == (InterpreterView {
                    servers: self@.servers,
                    servers_to_add: Seq::empty(),
                    users_to_add: Seq::empty(),
                    ..st
                }),
            decreases users.len(),
        {
            let ghost rest = users@;
            let def = users.remove(0);
            proof {
                assert(all.skip(k)[0] == all[k]);
                assert(waiting_users(rest)[0] == (def.0@, def.1@, def.2@));
                assert(all.take(k + 1).drop_last() =~= all.take(k));
                assert(waiting_users(users@) =~= all.skip(k + 1)) by {
                    assert forall|j: int| 0 <= j < users@.len() implies #[trigger] waiting_users(
                        users@,
                    )[j] == all.skip(k + 1)[j] by {
                        assert(users@[j] == rest[j + 1]);
                        assert(waiting_users(rest)[j + 1] == all.skip(k)[j + 1]);
                    }
                }
                assert forall|j: int| 0 <= j < users@.len() implies (#[trigger] users@[j]).2.wf() by {
                    assert(users@[j] == rest[j + 1]);
                }
                assert(rest[0].2.wf());
            }
            let mut serv = match self.take_server(def.1.as_str()) {
                Some(serv) => serv,
                None => Server::new(),
            };
            serv.add_user(def.0, def.2);
            self.put_server(def.1, serv);
            proof {
                assert(self@.servers =~= with_users(base, all.take(k + 1)));
                k = k + 1;
            }
        }
        assert(all.take(k) =~= all);
    }

    /// One tick: installs the waiting servers, then the waiting users, and
    /// then delivers the waiting mails. What the deliveries queue waits
    /// for the next tick. Answers whether anything was waiting.
    pub fn handle_pending<H: NativeHandler>(&mut self, natives: &mut H) -> (r: Result<
        bool,
        RuntimeError,
    >)
        requires
            old(self).wf(),
        ensures
            final(self).wf(),
            exists|oracle: Seq<Seq<MailView>>|
                match #[trigger] tick(old(self)@, oracle) {
                    Ok((st, more)) => r == Ok::<_, RuntimeError>(more) && final(self)@ == st,
                    Err(e) => r == Err::<bool, _>(e),
                },
    {
        let ghost st = self@;
        let depth = self.max_depth;
        if self.servers_to_add.len() == 0 && self.users_to_add.len() == 0 && self.pending.len()
            == 0 {
            assert(tick(st, Seq::empty()) == Ok::<_, RuntimeError>((st, false)));
            return Ok(false);
        }
        self.install_pending();
        let mut mails: Vec<Mail> = Vec::new();
        core::mem::swap(&mut mails, &mut self.pending);
        assert(self@.pending =~= Seq::empty());
        let ghost start = self@;
        let ghost sent = st.pending;
        let ghost d = depth as nat;
        let ghost mut used: Seq<Seq<MailView>> = Seq::empty();
        let mut i: usize = 0;
        while i < mails.len()
            invariant
                i <= mails.len(),
                self.wf(),
                used.len() == i,
                st == old(self)@,
                sent == mails_view(mails@),
                sent == st.pending,
                d == depth,
                d == st.max_depth,
                !quiet(st),
                start == (InterpreterView { pending: Seq::empty(), ..installed(st) }),
                forall|rest: Seq<Seq<MailView>>| #[trigger]
                    delivered_all(start, sent, used + rest, 0, d) == delivered_all(
                        self@,
                        sent,
                        used + rest,
                        i as int,
                        d,
                    ),
            decreases mails.len() - i,
        {
            let ghost cur = self@;
            let r = self.deliver(&mails[i], natives, depth);
            let ghost replies = choose|replies: Seq<MailView>|
                match #[trigger] delivered(cur, sent[i as int], replies, d) {
                    Ok(next) => r is Ok && self@ == next,
                    Err(e) => r == Err::<(), _>(e),
                };
            let ghost longer = used.push(replies);
            proof {
                assert forall|rest: Seq<Seq<MailView>>| #[trigger]
                    delivered_all(start, sent, longer + rest, 0, d) == (match delivered(
                        cur,
                        sent[i as int],
                        replies,
                        d,
                    ) {
                        Ok(next) => delivered_all(next, sent, longer + rest, i + 1, d),
                        Err(e) => Err(e),
                    }) by {
                    let tail = seq![replies] + rest;
                    assert(used + tail =~= longer + rest);
                    assert((used + tail)[i as int] == replies);
                    assert(delivered_all(start, sent, used + tail, 0, d) == delivered_all(
                        cur,
                        sent,
                        used + tail,
                        i as int,
                        d,
                    ));
                }
            }
            match r {
                Ok(()) => {},
                Err(e) => {
                    proof {
                        assert(longer + Seq::<Seq<MailView>>::empty() =~= longer);
                        assert(delivered_all(start, sent, longer + Seq::empty(), 0, d) is Err);
                        assert(tick(st, longer) == Err::<(InterpreterView, bool), _>(e));
                    }
                    return Err(e);
                },
            }
            proof {
                used = longer;
            }
            i += 1;
        }
        proof {
            assert(used + Seq::<Seq<MailView>>::empty() =~= used);
            assert(delivered_all(start, sent, used + Seq::empty(), 0, d) == Ok::<
                InterpreterView,
                RuntimeError,
            >(self@));
            assert(tick(st, used) == Ok::<_, RuntimeError>((self@, true)));
        }
        Ok(true)
    }

    /// Runs a program to its end: delivers what was waiting before, runs
    /// the program as the anonymous user, and then ticks until nothing
    /// waits any more, but at most `max_ticks` times. Answers whether the
    /// queues ran empty.
    pub fn execute<H: NativeHandler>(
        &mut self,
        instructions: &Vec<Instruction>,
        natives: &mut H,
        max_ticks: usize,
    ) -> (r: Result<bool, RuntimeError>)
        requires
            old(self).wf(),
        ensures
            final(self).wf(),
            exists|oracles: Seq<Seq<Seq<MailView>>>|
                match #[trigger] executed(
                    old(self)@,
                    instructions_view(instructions@),
                    oracles,
                    max_ticks as nat,
                ) {
                    Ok((st, done)) => r == Ok::<_, RuntimeError>(done) && final(self)@ == st,
                    Err(e) => r == Err::<bool, _>(e),
                },
    {
        let ghost st = self@;
        let ghost program = instructions_view(instructions@);
        let first = self.handle_pending(natives);
        let ghost o0 = choose|oracle: Seq<Seq<MailView>>|
            match #[trigger] tick(st, oracle) {
                Ok((next, more)) => first == Ok::<_, RuntimeError>(more) && self@ == next,
                Err(e) => first == Err::<bool, _>(e),
            };
        match first {
            Ok(_) => {},
            Err(e) => {
                proof {
                    assert(seq![o0][0] == o0);
                    assert(executed(st, program, seq![o0], max_ticks as nat) == Err::<
                        (InterpreterView, bool),
                        _,
                    >(e));
                }
                return Err(e);
            },
        }
        let ghost s0 = self@;
        let mut env = Environment::new_anon();
        let depth = self.max_depth;
        let anon = UserPath::new_anon();
        assert(world(*self, env).inter == hidden(s0));
        match self.run(instructions, &anon, &mut env, depth) {
            Ok(()) => {},
            Err(e) => {
                proof {
                    assert(seq![o0][0] == o0);
                    assert(executed(st, program, seq![o0], max_ticks as nat) == Err::<
                        (InterpreterView, bool),
                        _,
                    >(e));
                }
                return Err(e);
            },
        }
        let ghost s1 = self@;
        assert(s1 == (InterpreterView { servers: s0.servers, ..world(*self, env).inter })) by {
            assert(s1.servers =~= s0.servers);
        }
        let ghost mut used: Seq<Seq<Seq<MailView>>> = seq![o0];
        let mut ticks: usize = 0;
        while ticks < max_ticks
            invariant
                ticks <= max_ticks,
                self.wf(),
                used.len() == 1 + ticks,
                used[0] == o0,
                st == old(self)@,
                program == instructions_view(instructions@),
                forall|rest: Seq<Seq<Seq<MailView>>>| #[trigger]
                    drained(s1, used + rest, 1, max_ticks as nat) == drained(
                        self@,
                        used + rest,
                        1 + ticks,
                        (max_ticks - ticks) as nat,
                    ),
                forall|rest: Seq<Seq<Seq<MailView>>>| #[trigger]
                    executed(st, program, used + rest, max_ticks as nat) == drained(
                        s1,
                        used + rest,
                        1,
                        max_ticks as nat,
                    ),
            decreases max_ticks - ticks,
        {
            let ghost cur = self@;
            let r = self.handle_pending(natives);
            let ghost oracle = choose|oracle: Seq<Seq<MailView>>|
                match #[trigger] tick(cur, oracle) {
                    Ok((next, more)) => r == Ok::<_, RuntimeError>(more) && self@ == next,
                    Err(e) => r == Err::<bool, _>(e),
                };
            let ghost longer = used.push(oracle);
            proof {
                assert forall|rest: Seq<Seq<Seq<MailView>>>| #[trigger]
                    drained(s1, longer + rest, 1, max_ticks as nat) == (match tick(cur, oracle) {
                        Err(e) => Err(e),
                        Ok((next, false)) => Ok((next, true)),
                        Ok((next, true)) => drained(
                            next,
                            longer + rest,
                            2 + ticks,
                            (max_ticks - ticks - 1) as nat,
                        ),
                    }) by {
                    let tail = seq![oracle] + rest;
                    assert(used + tail =~= longer + rest);
                    assert((used + tail)[1 + ticks] == oracle);
                    assert(drained(s1, used + tail, 1, max_ticks as nat) == drained(
                        cur,
                        used + tail,
                        1 + ticks,
                        (max_ticks - ticks) as nat,
                    ));
                }
                assert forall|rest: Seq<Seq<Seq<MailView>>>| #[trigger]
                    executed(st, program, longer + rest, max_ticks as nat) == drained(
                        s1,
                        longer + rest,
                        1,
                        max_ticks as nat,
                    ) by {
                    let tail = seq![oracle] + rest;
                    assert(used + tail =~= longer + rest);
                }
                assert(longer + Seq::<Seq<Seq<MailView>>>::empty() =~= longer);
            }
            match r {
                Ok(true) => {},
                Ok(false) => {
                    proof {
                        assert(executed(st, program, longer + Seq::empty(), max_ticks as nat)
                            == Ok::<_, RuntimeError>((self@, true)));
                    }
                    return Ok(true);
                },
                Err(e) => {
                    proof {
                        assert(executed(st, program, longer + Seq::empty(), max_ticks as nat)
                            == Err::<(InterpreterView, bool), _>(e));
                    }
                    return Err(e);
                },
            }
            proof {
                used = longer;
            }
            ticks += 1;
        }
        proof {
            assert(used + Seq::<Seq<Seq<MailView>>>::empty() =~= used);
            assert(executed(st, program, used + Seq::empty(), max_ticks as nat) == Ok::<
                _,
                RuntimeError,
            >((self@, false)));
        }
        Ok(false)
    }
}

} // verus!
