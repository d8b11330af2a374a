use emailang::interpreter::stdlib::{create_std_lib, std_reply, stdcmp, stdio, stdloop, stdmath};
use emailang::interpreter::{Interpreter, DEFAULT_DEPTH, STD_COMPARE, STD_IO, STD_LOOP, STD_MATH};
use emailang::mail::Mail;
use emailang::modifier::ModifierFunc;
use emailang::user::{UserPath, UserType};

fn mail(subject: &str, message: &str, attachments: &[&str]) -> Mail {
    let mut m = Mail::create(
        UserPath("me".to_string(), "home".to_string()),
        UserPath("math".to_string(), "std.com".to_string()),
        subject,
        message,
    );
    for a in attachments {
        m.attach(a);
    }
    m
}

fn answer(message: &str, text: &str) -> Mail {
    Mail::create(
        UserPath("math".to_string(), "std.com".to_string()),
        UserPath("me".to_string(), "home".to_string()),
        message,
        text,
    )
}

#[test]
fn math_adds_and_multiplies() {
    assert_eq!(stdmath::func(&mail("add", "sum", &["1", "2", "-40"])), vec![answer("sum", "-37")]);
    assert_eq!(stdmath::func(&mail("add", "sum", &[])), vec![answer("sum", "0")]);
    assert_eq!(stdmath::func(&mail("mul", "p", &["6", "-7", "+10"])), vec![answer("p", "-420")]);
    assert_eq!(stdmath::func(&mail("mul", "p", &[])), vec![answer("p", "1")]);
    assert_eq!(stdmath::func(&mail("add", "sum", &["1", "x"])), vec![answer("sum", "")]);
    assert_eq!(
        stdmath::func(&mail("add", "sum", &["9223372036854775807", "0"])),
        vec![answer("sum", "9223372036854775807")]
    );
    assert_eq!(
        stdmath::func(&mail("add", "sum", &["-9223372036854775808"])),
        vec![answer("sum", "-9223372036854775808")]
    );
    assert_eq!(stdmath::func(&mail("add", "sum", &["9223372036854775807", "1"])), vec![answer("sum", "")]);
    assert_eq!(stdmath::func(&mail("add", "sum", &["9223372036854775808"])), vec![answer("sum", "")]);
}

#[test]
fn math_divides_towards_zero() {
    assert_eq!(stdmath::func(&mail("div", "q", &["100", "7", "2"])), vec![answer("q", "7")]);
    assert_eq!(stdmath::func(&mail("div", "q", &["-7", "2"])), vec![answer("q", "-3")]);
    assert_eq!(stdmath::func(&mail("div", "q", &["7", "-2"])), vec![answer("q", "-3")]);
    assert_eq!(stdmath::func(&mail("div", "q", &["-7", "-2"])), vec![answer("q", "3")]);
    assert_eq!(stdmath::func(&mail("div", "q", &["5"])), vec![answer("q", "5")]);
    assert_eq!(stdmath::func(&mail("div", "q", &["5", "0"])), vec![answer("q", "")]);
    assert_eq!(stdmath::func(&mail("div", "q", &[])), vec![answer("q", "")]);
    assert_eq!(stdmath::func(&mail("div", "q", &["-9223372036854775808", "-1"])), vec![answer("q", "")]);
    assert_eq!(stdmath::calculate(stdmath::Operation::Div, -9, 4), Some(-2));
    assert_eq!(stdmath::compute(stdmath::Operation::Mul, &vec!["3".to_string(), "4".to_string()]), Some(12));
    assert_eq!(stdmath::parse_i64("-12"), Some(-12));
    assert_eq!(stdmath::parse_i64("1 2"), None);
}

#[test]
fn math_spells_and_names_characters() {
    let mut spelled = answer("s", "a");
    spelled.attach("a");
    spelled.attach("b");
    spelled.attach("c");
    assert_eq!(stdmath::func(&mail("ord", "s", &["ab", "", "c"])), vec![spelled]);
    assert_eq!(stdmath::func(&mail("ord", "s", &[])), vec![answer("s", "0")]);
    assert_eq!(
        stdmath::func(&mail("char", "c", &["104", "+105", "-1", "x", "55296", "233"])),
        vec![answer("c", "hi\0\0\0\u{e9}")]
    );
    assert_eq!(stdmath::char_of("1114112"), '\0');
    assert_eq!(stdmath::char_of("1114111"), '\u{10FFFF}');
    assert_eq!(stdmath::func(&mail("sqrt", "c", &["4"])), vec![]);
}

#[test]
fn compare_looks_at_the_first_two_attachments() {
    assert_eq!(stdcmp::func(&mail("eq", "r", &["a", "a", "b"])), vec![answer("r", "true")]);
    assert_eq!(stdcmp::func(&mail("eq", "r", &["a", "b"])), vec![answer("r", "false")]);
    assert_eq!(stdcmp::func(&mail("eq", "r", &["a"])), vec![answer("r", "false")]);
    assert_eq!(stdcmp::func(&mail("eq", "r", &[])), vec![answer("r", "true")]);
    assert_eq!(stdcmp::func(&mail("neq", "r", &["a", "b"])), vec![answer("r", "true")]);
    assert_eq!(stdcmp::func(&mail("neq", "r", &["a", "a"])), vec![answer("r", "false")]);
    assert_eq!(stdcmp::func(&mail("lt", "r", &["a", "b"])), vec![]);
}

#[test]
fn iterate_answers_once_for_each_attachment() {
    assert_eq!(
        stdloop::func(&mail("iterate", "each", &["x", "y"])),
        vec![answer("each", "x"), answer("each", "y")]
    );
    assert_eq!(stdloop::func(&mail("iterate", "each", &[])), vec![]);
    assert_eq!(stdloop::func(&mail("repeat", "each", &["x"])), vec![]);
}

#[test]
fn io_says_what_to_write() {
    assert_eq!(stdio::output(&mail("print", "a", &["b", "c"])), Some("a b c".to_string()));
    assert_eq!(stdio::output(&mail("println", "a", &[])), Some("a\n".to_string()));
    assert_eq!(stdio::output(&mail("input", "a", &[])), None);
    assert!(stdio::wants_input(&mail("input", "a", &[])));
    assert!(!stdio::wants_input(&mail("print", "a", &[])));
    assert_eq!(stdio::answer_input(&mail("input", "line", &[]), " typed \r\n"), answer("line", " typed"));
}

#[test]
fn the_dispatcher_knows_the_pure_handlers() {
    let m = mail("add", "sum", &["1", "2"]);
    assert_eq!(std_reply(STD_MATH, &m), Some(vec![answer("sum", "3")]));
    assert_eq!(std_reply(STD_LOOP, &m), Some(vec![]));
    assert_eq!(std_reply(STD_COMPARE, &m), Some(vec![]));
    assert_eq!(std_reply(STD_IO, &m), None);
    assert_eq!(std_reply(17, &m), None);
}

#[test]
fn a_new_runtime_has_the_standard_library() {
    let inter = Interpreter::new();
    let std = inter.servers.get("std.com").unwrap();
    assert_eq!(std.users.len(), 4);
    assert_eq!(std.get_user("io").unwrap().func, UserType::External(STD_IO));
    assert_eq!(std.get_user("loop").unwrap().func, UserType::External(STD_LOOP));
    assert_eq!(std.get_user("cmp").unwrap().func, UserType::External(STD_COMPARE));
    assert_eq!(std.get_user("math").unwrap().get_userdef(), stdmath::create());
    assert_eq!(std.get_user("math").unwrap().env.path, UserPath("math".to_string(), "std.com".to_string()));
    assert_eq!(inter.servers.len(), 1);
    assert_eq!(inter.modifiers.get("chars"), Some(&ModifierFunc::Chars));
    assert_eq!(inter.modifiers.get("merge"), Some(&ModifierFunc::Merge));
    assert_eq!(inter.modifiers.get("filter"), Some(&ModifierFunc::Filter));
    assert!(!inter.modifiers.contains_key("sort"));
    assert_eq!(inter.max_depth, DEFAULT_DEPTH);
    assert!(inter.pending.is_empty() && inter.users_to_add.is_empty() && inter.servers_to_add.is_empty());
    let mut twice = Interpreter::new();
    twice.add_server("other");
    create_std_lib(&mut twice);
    assert_eq!(twice.servers.len(), 2);
    assert!(twice.servers_to_add.is_empty());
}

#[test]
fn redeclaring_a_server_empties_it() {
    let mut inter = Interpreter::new();
    inter.add_server("std.com");
    inter.install_pending();
    assert_eq!(inter.servers.get("std.com").unwrap().users.len(), 0);
}
