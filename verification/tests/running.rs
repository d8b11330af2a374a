use emailang::environment::Environment;
use emailang::error::RuntimeError;
use emailang::instruction::{CondBlock, Instruction};
use emailang::interpreter::Interpreter;
use emailang::mail::{Draft, Mail};
use emailang::parser::parse;
use emailang::types::Type;
use emailang::user::{NativeHandler, User, UserPath};

struct Echo {
    seen: Vec<(usize, String)>,
}

impl NativeHandler for Echo {
    fn receive(&mut self, handler: usize, _user: &User, mail: &Mail) -> Vec<Mail> {
        self.seen.push((handler, mail.subject.clone()));
        vec![Mail::create(mail.to.clone(), mail.from.clone(), "re", &mail.message)]
    }
}

fn text(s: &str) -> Type {
    Type::Text(s.to_string())
}

fn tuple(items: &[&str]) -> Type {
    Type::Tuple(items.iter().map(|s| text(s)).collect())
}

fn address(name: &str, server: &str) -> Type {
    Type::UserPath(Box::new(text(name)), Box::new(text(server)))
}

fn eval_in(code: &str, inter: &mut Interpreter, env: &mut Environment) -> Result<Type, RuntimeError> {
    let program = parse(code).unwrap();
    assert_eq!(program.len(), 1);
    program[0].call(inter, &UserPath::new_anon(), env, 64)
}

fn eval(code: &str) -> Result<Type, RuntimeError> {
    eval_in(code, &mut Interpreter::new(), &mut Environment::new_anon())
}

fn value(code: &str) -> Type {
    let mut inter = Interpreter::new();
    let mut env = Environment::new_anon();
    let got = eval_in(code, &mut inter, &mut env).unwrap();
    got.resolve(&mut inter, &UserPath::new_anon(), &mut env, 64).unwrap()
}

fn variable<'a>(inter: &'a Interpreter, server: &str, user: &str, key: &str) -> Type {
    inter.servers.get(server).unwrap().get_user(user).unwrap().env.get(key)
}

#[test]
fn concatenation_joins_texts_and_merges_tuples() {
    assert_eq!(value("\"ab\" + \"cd\";"), text("abcd"));
    assert_eq!(value("\"x\" + (1, 2);"), tuple(&["x", "1", "2"]));
    assert_eq!(value("(1, 2) + \"x\";"), tuple(&["1", "2", "x"]));
    assert_eq!(value("(1, 2) + (3, 4);"), tuple(&["1", "2", "3", "4"]));
    assert_eq!(value("<a@b> + \"!\";"), text("a@b!"));
}

#[test]
fn destructuring_binds_each_name() {
    let mut inter = Interpreter::new();
    let mut env = Environment::new_anon();
    let got = eval_in("(a, b) = (\"x\", \"y\");", &mut inter, &mut env).unwrap();
    assert_eq!(got, tuple(&["x", "y"]));
    assert_eq!(env.get("a"), text("x"));
    assert_eq!(env.get("b"), text("y"));
    assert!(!env.has("c"));
}

#[test]
fn destructuring_with_different_lengths_is_fatal() {
    assert_eq!(eval("(a, b) = (\"x\",);"), Err(RuntimeError::ArityMismatch));
    assert_eq!(eval("(a, b) = (x, y, z);"), Err(RuntimeError::ArityMismatch));
    assert_eq!(eval("(a, b) = \"x\";"), Err(RuntimeError::ExpectedTuple));
}

#[test]
fn assignment_resolves_then_binds_and_null_unbinds() {
    let mut inter = Interpreter::new();
    let mut env = Environment::new_anon();
    eval_in("a = \"x\" + \"y\";", &mut inter, &mut env).unwrap();
    assert_eq!(env.get("a"), text("xy"));
    assert_eq!(eval_in("@a + \"z\";", &mut inter, &mut env), Ok(text("xyz")));
    assert_eq!(eval_in("@(a, b);", &mut inter, &mut env), Ok(Type::Tuple(vec![text("xy"), Type::Null])));
    env.set("a", Type::Null);
    assert!(!env.has("a"));
    assert_eq!(env.get("a"), Type::Null);
}

#[test]
fn slices_count_scalars() {
    assert_eq!(value("\"hello\"[1:3];"), text("el"));
    assert_eq!(value("\"h\u{e9}llo\"[1:3];"), text("\u{e9}l"));
    assert_eq!(value("\"hello\"[:2];"), text("he"));
    assert_eq!(value("\"hello\"[3:];"), text("lo"));
    assert_eq!(value("\"hello\"[2:2];"), text(""));
    assert_eq!(value("\"hello\"[0:5];"), text("hello"));
    assert_eq!(value("(a, b, c, d)[1:3];"), tuple(&["b", "c"]));
}

#[test]
fn negative_positions_count_from_the_end() {
    assert_eq!(value("\"hello\"[-3:-1];"), text("ll"));
    assert_eq!(value("\"hello\"[-1];"), text("o"));
    assert_eq!(value("(a, b, c)[-3];"), text("a"));
    assert_eq!(value("\"hello\"[1];"), text("e"));
}

#[test]
fn positions_outside_are_fatal() {
    assert_eq!(eval("\"hello\"[5];"), Err(RuntimeError::OutOfRange));
    assert_eq!(eval("\"hello\"[-6];"), Err(RuntimeError::OutOfRange));
    assert_eq!(eval("\"hello\"[2:6];"), Err(RuntimeError::OutOfRange));
    assert_eq!(eval("\"hello\"[3:2];"), Err(RuntimeError::OutOfRange));
    assert_eq!(eval("(a, b)[2];"), Err(RuntimeError::OutOfRange));
    assert_eq!(eval("\"hello\"[x];"), Err(RuntimeError::ExpectedNumber));
    assert_eq!(eval("<a@b>[0];"), Err(RuntimeError::NoLength));
}

#[test]
fn resolving_a_resolved_value_changes_nothing() {
    let mut inter = Interpreter::new();
    let mut env = Environment::new_anon();
    let anon = UserPath::new_anon();
    let once = eval_in("x = (\"a\" + \"b\", (c, \"d\" + \"e\"));", &mut inter, &mut env)
        .unwrap()
        .resolve(&mut inter, &anon, &mut env, 64)
        .unwrap();
    assert_eq!(once, Type::Tuple(vec![text("ab"), tuple(&["c", "de"])]));
    let twice = once.resolve(&mut inter, &anon, &mut env, 0).unwrap();
    assert_eq!(twice, once);
    assert_eq!(inter, Interpreter::new());
    assert_eq!(env.get("x"), once);
}

#[test]
fn resolving_twice_runs_the_side_effects_twice() {
    let mut inter = Interpreter::new();
    let mut env = Environment::new_anon();
    let anon = UserPath::new_anon();
    let program = parse("\"x\" + (\"hi\" > <bob@srv>);").unwrap();
    let deferred = Type::Expression(Box::new(program[0].clone()));
    deferred.resolve(&mut inter, &anon, &mut env, 64).unwrap();
    let after_one = inter.pending.len();
    deferred.resolve(&mut inter, &anon, &mut env, 64).unwrap();
    assert!(after_one >= 1);
    assert_eq!(inter.pending.len(), 2 * after_one);
}

#[test]
fn truthiness() {
    let mut inter = Interpreter::new();
    let mut env = Environment::new_anon();
    let anon = UserPath::new_anon();
    let mut truth = |v: Type| v.get_bool(&mut inter, &anon, &mut env, 8).unwrap();
    assert!(!truth(Type::Null));
    assert!(!truth(text("")));
    assert!(!truth(text("0")));
    assert!(!truth(text("FaLsE")));
    assert!(truth(text("no")));
    assert!(truth(text("00")));
    assert!(!truth(Type::Tuple(vec![])));
    assert!(truth(tuple(&[""])));
    assert!(truth(address("a", "b")));
}

#[test]
fn coercions_fail_on_the_wrong_kind() {
    let mut inter = Interpreter::new();
    let mut env = Environment::new_anon();
    let anon = UserPath::new_anon();
    assert_eq!(tuple(&["a"]).get_string(&mut inter, &anon, &mut env, 8), Ok(None));
    assert_eq!(text("a").get_tuple(&mut inter, &anon, &mut env, 8), Ok(None));
    assert_eq!(text("a").get_user(&mut inter, &anon, &mut env, 8), Ok(None));
    assert_eq!(Type::Null.get_draft(&mut inter, &anon, &mut env, 8), Ok(None));
    assert_eq!(Type::Null.len(&mut inter, &anon, &mut env, 8), Ok(None));
    assert_eq!(text("12").get_num(&mut inter, &anon, &mut env, 8), Ok(Some(12)));
    assert_eq!(text("+12").get_num(&mut inter, &anon, &mut env, 8), Ok(Some(12)));
    assert_eq!(text("-12").get_num(&mut inter, &anon, &mut env, 8), Ok(Some(-12)));
    assert_eq!(text("12a").get_num(&mut inter, &anon, &mut env, 8), Ok(None));
    assert_eq!(text("-").get_num(&mut inter, &anon, &mut env, 8), Ok(None));
    assert_eq!(text("").get_num(&mut inter, &anon, &mut env, 8), Ok(None));
    assert_eq!(text("99999999999999999999999").get_num(&mut inter, &anon, &mut env, 8), Ok(None));
    assert_eq!(text("h\u{e9}").len(&mut inter, &anon, &mut env, 8), Ok(Some(2)));
    assert_eq!(
        address("a", "b").get_user(&mut inter, &anon, &mut env, 8),
        Ok(Some(UserPath("a".to_string(), "b".to_string())))
    );
    assert_eq!(text("a").unpack(&mut inter, &anon, &mut env, 8), Ok(vec![text("a")]));
    assert_eq!(text("a").get_typename(), "text");
    assert_eq!(Type::Null.get_typename(), "null");
    assert!(Type::Null.is_null());
}

#[test]
fn a_tuple_is_a_draft() {
    let mut inter = Interpreter::new();
    let mut env = Environment::new_anon();
    let anon = UserPath::new_anon();
    assert_eq!(
        tuple(&["s", "m", "a1", "a2"]).get_draft(&mut inter, &anon, &mut env, 8),
        Ok(Some(Draft {
            subject: "s".to_string(),
            message: "m".to_string(),
            attachments: vec!["a1".to_string(), "a2".to_string()],
        }))
    );
    assert_eq!(
        text("s").get_draft(&mut inter, &anon, &mut env, 8),
        Ok(Some(Draft { subject: "s".to_string(), message: String::new(), attachments: vec![] }))
    );
    assert_eq!(
        tuple(&["s"]).get_draft(&mut inter, &anon, &mut env, 8),
        Ok(Some(Draft { subject: "s".to_string(), message: String::new(), attachments: vec![] }))
    );
}

#[test]
fn modifiers() {
    assert_eq!(value("\"abc\" | chars;"), tuple(&["a", "b", "c"]));
    assert_eq!(value("(a, b, c) | merge;"), text("abc"));
    assert_eq!(value("(ab, cd, abc) | (filter, \"^ab\");"), tuple(&["ab", "abc"]));
    assert_eq!(value("ab | (filter, \"c\");"), Type::Tuple(vec![]));
    assert_eq!(eval("\"abc\" | nothing;"), Err(RuntimeError::BadModifier));
    assert_eq!(eval("\"abc\" | (chars, x);"), Err(RuntimeError::BadModifier));
    assert_eq!(eval("(a, b) | chars;"), Err(RuntimeError::ExpectedText));
    assert_eq!(eval("(a, b) | (filter, \"*\");"), Err(RuntimeError::BadPattern));
    let mut inter = Interpreter::new();
    let mut env = Environment::new_anon();
    let anon = UserPath::new_anon();
    assert_eq!(text("nothing").modify(&text("abc"), &mut inter, &anon, &mut env, 8), Ok(None));
}

#[test]
fn nesting_deeper_than_the_bound_is_fatal() {
    let mut inter = Interpreter::new();
    let mut env = Environment::new_anon();
    let anon = UserPath::new_anon();
    let program = parse("\"a\" + (\"b\" + (\"c\" + \"d\"));").unwrap();
    assert_eq!(program[0].call(&mut inter, &anon, &mut env, 1), Err(RuntimeError::TooDeep));
    assert_eq!(program[0].call(&mut inter, &anon, &mut env, 8), Ok(text("abcd")));
}

#[test]
fn a_conditional_runs_its_first_true_block() {
    let mut inter = Interpreter::new();
    let mut env = Environment::new_anon();
    eval_in("if (\"\") {r = a;} elif (\"0\") {r = b;} elif (x) {r = c;} else {r = d;};", &mut inter, &mut env)
        .unwrap();
    assert_eq!(env.get("r"), text("c"));
    eval_in("if (\"\") {r = a;} else {r = d;};", &mut inter, &mut env).unwrap();
    assert_eq!(env.get("r"), text("d"));
    eval_in("if (\"\") {r = a;};", &mut inter, &mut env).unwrap();
    assert_eq!(env.get("r"), text("d"));
}

#[test]
fn append_block_hangs_behind_the_last_link() {
    let link = |name: &str| CondBlock { cond: Some(text(name)), block: vec![], elseblock: None };
    let mut chain = link("a");
    chain.append_block(link("b"));
    chain.append_block(link("c"));
    let mut expected = link("a");
    let mut second = link("b");
    second.elseblock = Some(Box::new(link("c")));
    expected.elseblock = Some(Box::new(second));
    assert_eq!(chain, expected);
}

#[test]
fn sending_queues_the_mail_and_gives_the_draft() {
    let mut inter = Interpreter::new();
    let mut env = Environment::new_anon();
    let got = eval_in("(\"s\", \"m\", \"a\") > <bob@srv>;", &mut inter, &mut env).unwrap();
    assert_eq!(got, tuple(&["s", "m", "a"]));
    assert_eq!(
        inter.pending,
        vec![Mail {
            subject: "s".to_string(),
            message: "m".to_string(),
            from: UserPath::new_anon(),
            to: UserPath("bob".to_string(), "srv".to_string()),
            attachments: vec!["a".to_string()],
        }]
    );
    assert_eq!(eval("<a@b> > <bob@srv>;"), Err(RuntimeError::ExpectedDraft));
    assert_eq!(eval("\"s\" > \"bob\";"), Err(RuntimeError::ExpectedAddress));
}

#[test]
fn the_scenario_takes_two_deliveries_and_is_quiet_at_the_third_tick() {
    let program = parse(
        "!<bob@srv>{\"hi\" {\"content\" > <alice@srv>;};}; !<alice@srv>{\"*\" {};}; \"hi\" > <bob@srv>;",
    )
    .unwrap();
    let mut inter = Interpreter::new();
    let mut natives = Echo { seen: vec![] };
    let mut env = Environment::new_anon();
    inter.run(&program, &UserPath::new_anon(), &mut env, 64).unwrap();
    assert_eq!(inter.users_to_add.len(), 2);
    assert_eq!(inter.pending.len(), 1);
    assert_eq!(inter.handle_pending(&mut natives), Ok(true));
    assert_eq!(variable(&inter, "srv", "bob", "subject"), text("hi"));
    assert_eq!(variable(&inter, "srv", "bob", "sender"), address("Anonymous", "anon"));
    assert_eq!(variable(&inter, "srv", "bob", "self"), address("bob", "srv"));
    assert_eq!(variable(&inter, "srv", "bob", "attachments"), Type::Tuple(vec![]));
    assert_eq!(inter.pending.len(), 1);
    assert_eq!(inter.pending[0].subject, "content");
    assert_eq!(inter.pending[0].to, UserPath("alice".to_string(), "srv".to_string()));
    assert_eq!(inter.pending[0].from, UserPath("bob".to_string(), "srv".to_string()));
    assert_eq!(inter.handle_pending(&mut natives), Ok(true));
    assert_eq!(variable(&inter, "srv", "alice", "subject"), text("content"));
    assert!(inter.pending.is_empty());
    assert_eq!(inter.handle_pending(&mut natives), Ok(false));
    assert!(natives.seen.is_empty());
}

#[test]
fn execute_runs_until_quiet() {
    let program = parse(
        "!<bob@srv>{\"hi\" {\"content\" > <alice@srv>;};}; !<alice@srv>{\"*\" {};}; \"hi\" > <bob@srv>;",
    )
    .unwrap();
    let mut inter = Interpreter::new();
    let mut natives = Echo { seen: vec![] };
    assert_eq!(inter.execute(&program, &mut natives, 10), Ok(true));
    assert!(inter.pending.is_empty());
    let mut again = Interpreter::new();
    assert_eq!(again.execute(&program, &mut natives, 1), Ok(false));
    assert_eq!(again.pending.len(), 1);
}

#[test]
fn mail_to_nobody_is_dropped() {
    let program = parse("!srv; \"hi\" > <ghost@srv>; \"hi\" > <bob@nowhere>;").unwrap();
    let mut inter = Interpreter::new();
    let mut natives = Echo { seen: vec![] };
    assert_eq!(inter.execute(&program, &mut natives, 10), Ok(true));
    assert!(inter.pending.is_empty());
    assert!(inter.servers.get("srv").unwrap().get_user("ghost").is_none());
    assert!(inter.servers.get("nowhere").is_none());
}

#[test]
fn the_first_matching_pattern_reacts() {
    let program = parse(
        "!<u@s>{\"^a\" {r = first;}; \"^abc$\" {r = second;}; \"b\" {r = third;};}; \"abc\" > <u@s>; \"xb\" > <u@s>;",
    )
    .unwrap();
    let mut inter = Interpreter::new();
    let mut natives = Echo { seen: vec![] };
    inter.run(&program[..2].to_vec(), &UserPath::new_anon(), &mut Environment::new_anon(), 64).unwrap();
    inter.handle_pending(&mut natives).unwrap();
    assert_eq!(variable(&inter, "s", "u", "r"), text("first"));
    inter.run(&program[2..].to_vec(), &UserPath::new_anon(), &mut Environment::new_anon(), 64).unwrap();
    inter.handle_pending(&mut natives).unwrap();
    assert_eq!(variable(&inter, "s", "u", "r"), text("third"));
    assert_eq!(variable(&inter, "s", "u", "subject"), text("xb"));
}

#[test]
fn a_user_keeps_its_variables_between_deliveries() {
    let program = parse(
        "!<u@s>{\"set\" {kept = @content;}; \"get\" {(\"re\", @kept) > @sender;};}; !<me@s>; (set, v) > <u@s>;",
    )
    .unwrap();
    let mut inter = Interpreter::new();
    let mut natives = Echo { seen: vec![] };
    assert_eq!(inter.execute(&program, &mut natives, 10), Ok(true));
    assert_eq!(variable(&inter, "s", "u", "kept"), text("v"));
    let ask = vec![Instruction::MailTo(text("get"), address("u", "s"))];
    let me = UserPath("me".to_string(), "s".to_string());
    inter.run(&ask, &me, &mut Environment::new_anon(), 64).unwrap();
    assert_eq!(inter.handle_pending(&mut natives), Ok(true));
    assert_eq!(inter.handle_pending(&mut natives), Ok(true));
    assert_eq!(variable(&inter, "s", "me", "subject"), text("re"));
    assert_eq!(variable(&inter, "s", "me", "content"), text("v"));
}

#[test]
fn native_users_answer_through_the_handler() {
    let program = parse("!<me@s>; (\"print\", \"hello\") > <io@std.com>;").unwrap();
    let mut inter = Interpreter::new();
    let mut natives = Echo { seen: vec![] };
    let me = UserPath("me".to_string(), "s".to_string());
    inter.run(&program, &me, &mut Environment::new_anon(), 64).unwrap();
    assert_eq!(inter.handle_pending(&mut natives), Ok(true));
    assert_eq!(natives.seen, vec![(emailang::interpreter::STD_IO, "print".to_string())]);
    assert_eq!(inter.pending.len(), 1);
    assert_eq!(inter.pending[0].to, me);
    assert_eq!(inter.pending[0].message, "hello");
    assert_eq!(inter.handle_pending(&mut natives), Ok(true));
    assert_eq!(variable(&inter, "s", "me", "content"), text("hello"));
}

#[test]
fn return_mail_goes_back_to_the_sender() {
    let mut inter = Interpreter::new();
    let a = UserPath("a".to_string(), "s".to_string());
    let b = UserPath("b".to_string(), "s".to_string());
    let mut mail = Mail::create(a.clone(), b.clone(), "s", "m");
    mail.attach("x");
    assert_eq!(mail.attachments, vec!["x".to_string()]);
    mail.return_mail(&mut inter, "re", "body", vec!["y".to_string()]);
    assert_eq!(
        inter.pending,
        vec![Mail {
            subject: "re".to_string(),
            message: "body".to_string(),
            from: b,
            to: a,
            attachments: vec!["y".to_string()],
        }]
    );
}
