use vstd::prelude::*;
use vstd::string::*;
use crate::interpreter::STD_MATH;
use crate::mail::{answer, mails_view, strings_view, Mail, MailView};
use crate::semantics::joined;
use crate::text::{chars_of, integer_of, number_text, parse_integer, scalar_of, signed_digits_of};
use crate::user::{UserDef, UserDefView};

verus! {

/// What the calculation folds with.
#[derive(Clone, Copy, Debug, PartialEq, Eq)]
pub enum Operation {
    Add,
    Mul,
    Div,
}

/// The quotient rounded towards zero.
pub open spec fn quotient(a: int, b: int) -> int {
    let size = (if a < 0 {
        -a
    } else {
        a
    }) / (if b < 0 {
        -b
    } else {
        b
    });
    if (a < 0) == (b < 0) {
        size
    } else {
        -size
    }
}

/// One step of the calculation; none where it divides by zero or leaves
/// the 64-bit integers.
pub open spec fn step(op: Operation, acc: int, x: int) -> Option<int> {
    let r = match op {
        Operation::Add => acc + x,
        Operation::Mul => acc * x,
        Operation::Div => if x == 0 {
            0
        } else {
            quotient(acc, x)
        },
    };
    if (op == Operation::Div && x == 0) || r < i64::MIN || r > i64::MAX {
        None
    } else {
        Some(r)
    }
}

/// The calculation over the numbers from index `i` on, starting from
/// `acc`; none where a text is no 64-bit integer or a step fails.
pub open spec fn folded(op: Operation, texts: Seq<Seq<char>>, i: int, acc: int) -> Option<int>
    decreases texts.len() - i,
{
    if i < 0 || i >= texts.len() {
        Some(acc)
    } else {
        match integer_of(texts[i], true, i64::MIN as int, i64::MAX as int) {
            None => None,
            Some(x) => match step(op, acc, x) {
                None => None,
                Some(next) => folded(op, texts, i + 1, next),
            },
        }
    }
}

/// The result of `add`, `mul` or `div` over the attachments: the sum from
/// 0, the product from 1, or the first number divided by each of the
/// others in turn.
pub open spec fn result_of(op: Operation, texts: Seq<Seq<char>>) -> Option<int> {
    match op {
        Operation::Add => folded(op, texts, 0, 0),
        Operation::Mul => folded(op, texts, 0, 1),
        Operation::Div => if texts.len() == 0 {
            None
        } else {
            match integer_of(texts[0], true, i64::MIN as int, i64::MAX as int) {
                None => None,
                Some(base) => folded(op, texts, 1, base),
            }
        },
    }
}

/// The result as the message of the answer: its digits, or nothing where
/// there is no result.
pub open spec fn result_text(result: Option<int>) -> Seq<char> {
    match result {
        Some(value) => signed_digits_of(value),
        None => Seq::empty(),
    }
}

/// Each character of a text as a text of its own.
pub open spec fn letters(text: Seq<char>) -> Seq<Seq<char>> {
    Seq::new(text.len(), |i: int| seq![text[i]])
}

/// The character that a text names by its number; the null character
/// where the text is no number or the number is no character.
pub open spec fn named_char(text: Seq<char>) -> char {
    match integer_of(text, false, 0, u32::MAX as int) {
        Some(v) => match scalar_of(v as u32) {
            Some(c) => c,
            None => '\0',
        },
        None => '\0',
    }
}

/// The character that each text names.
pub open spec fn named_chars(texts: Seq<Seq<char>>) -> Seq<char> {
    Seq::new(texts.len(), |i: int| named_char(texts[i]))
}

/// What `math` answers, under the subject that the message of the mail
/// names: to `add`, `mul` and `div` the result of the calculation over the
/// attachments; to `ord` the characters of all attachments as attachments
/// of their own, with the first as the message (`0` where there is none);
/// to `char` the text of the characters that the attachments name by
/// number; to anything else, nothing.
pub open spec fn calculated(mail: MailView) -> Seq<MailView> {
    let texts = mail.attachments;
    if mail.subject == seq!['a', 'd', 'd'] {
        seq![answer(mail, mail.message, result_text(result_of(Operation::Add, texts)), Seq::empty())]
    } else if mail.subject == seq!['m', 'u', 'l'] {
        seq![answer(mail, mail.message, result_text(result_of(Operation::Mul, texts)), Seq::empty())]
    } else if mail.subject == seq!['d', 'i', 'v'] {
        seq![answer(mail, mail.message, result_text(result_of(Operation::Div, texts)), Seq::empty())]
    } else if mail.subject == seq!['o', 'r', 'd'] {
        let all = joined(texts);
        seq![
            answer(
                mail,
                mail.message,
                if all.len() > 0 {
                    seq![all[0]]
                } else {
                    seq!['0']
                },
                letters(all),
            ),
        ]
    } else if mail.subject == seq!['c', 'h', 'a', 'r'] {
        seq![answer(mail, mail.message, named_chars(texts), Seq::empty())]
    } else {
        Seq::empty()
    }
}

/// One step of the calculation.
pub fn calculate(op: Operation, acc: i64, x: i64) -> (r: Option<i64>)
    ensures
        match r {
            Some(value) => step(op, acc as int, x as int) == Some(value as int),
            None => step(op, acc as int, x as int) is None,
        },
{
    let a: i128 = acc as i128;
    let b: i128 = x as i128;
    let wide: i128 = match op {
        Operation::Add => a + b,
        Operation::Mul => {
            assert(-0x8000_0000_0000_0000 * 0x8000_0000_0000_0000 <= a * b <= 0x8000_0000_0000_0000
                * 0x8000_0000_0000_0000) by (nonlinear_arith)
                requires
                    -0x8000_0000_0000_0000 <= a < 0x8000_0000_0000_0000,
                    -0x8000_0000_0000_0000 <= b < 0x8000_0000_0000_0000,
            ;
            a * b
        },
        Operation::Div => {
            if x == 0 {
                return None;
            }
            let p: u128 = if a < 0 {
                (-a) as u128
            } else {
                a as u128
            };
            let q: u128 = if b < 0 {
                (-b) as u128
            } else {
                b as u128
            };
            let size: i128 = (p / q) as i128;
            if (a < 0) == (b < 0) {
                size
            } else {
                -size
            }
        },
    };
    if wide < i64::MIN as i128 || wide > i64::MAX as i128 {
        None
    } else {
        Some(wide as i64)
    }
}

/// Reads a 64-bit integer from a text.
pub fn parse_i64(text: &str) -> (r: Option<i64>)
    ensures
        match r {
            Some(value) => integer_of(text@, true, i64::MIN as int, i64::MAX as int) == Some(
                value as int,
            ),
            None => integer_of(text@, true, i64::MIN as int, i64::MAX as int) is None,
        },
{
    match parse_integer(text, true, i64::MIN as i128, i64::MAX as i128) {
        Some(value) => Some(value as i64),
        None => None,
    }
}

/// The result of `add`, `mul` or `div` over the texts.
pub fn compute(op: Operation, texts: &Vec<String>) -> (r: Option<i64>)
    ensures
        match r {
            Some(value) => result_of(op, strings_view(texts@)) == Some(value as int),
            None => result_of(op, strings_view(texts@)) is None,
        },
{
    let ghost views = strings_view(texts@);
    let mut i: usize = 0;
    let mut acc: i64 = match op {
        Operation::Add => 0,
        Operation::Mul => 1,
        Operation::Div => {
            if texts.len() == 0 {
                return None;
            }
            i = 1;
            match parse_i64(texts[0].as_str()) {
                Some(base) => base,
                None => {
                    return None;
                },
            }
        },
    };
    while i < texts.len()
        invariant
            i <= texts.len(),
            views == strings_view(texts@),
            result_of(op, views) == folded(op, views, i as int, acc as int),
        decreases texts.len() - i,
    {
        let x = match parse_i64(texts[i].as_str()) {
            Some(x) => x,
            None => {
                return None;
            },
        };
        acc = match calculate(op, acc, x) {
            Some(next) => next,
            None => {
                return None;
            },
        };
        i += 1;
    }
    Some(acc)
}

/// The character that a text names by its number.
pub fn char_of(text: &str) -> (r: char)
    ensures
        r == named_char(text@),
{
    match parse_integer(text, false, 0, u32::MAX as i128) {
        Some(v) => match char::from_u32(v as u32) {
            Some(c) => c,
            None => '\0',
        },
        None => '\0',
    }
}

/// Answers a mail to `math`.
pub fn func(mail: &Mail) -> (r: Vec<Mail>)
    ensures
        mails_view(r@) == calculated(mail@),
{
    let mut out: Vec<Mail> = Vec::new();
    proof {
        reveal_strlit("add");
        reveal_strlit("mul");
        reveal_strlit("div");
        reveal_strlit("ord");
        reveal_strlit("char");
        assert("add"@ =~= seq!['a', 'd', 'd']);
        assert("mul"@ =~= seq!['m', 'u', 'l']);
        assert("div"@ =~= seq!['d', 'i', 'v']);
        assert("ord"@ =~= seq!['o', 'r', 'd']);
        assert("char"@ =~= seq!['c', 'h', 'a', 'r']);
    }
    let subject = mail.subject.as_str();
    let op = if subject.eq("add") {
        Some(Operation::Add)
    } else if subject.eq("mul") {
        Some(Operation::Mul)
    } else if subject.eq("div") {
        Some(Operation::Div)
    } else {
        None
    };
    if let Some(op) = op {
        let text = match compute(op, &mail.attachments) {
            Some(value) => number_text(value),
            None => String::new(),
        };
        out.push(
            Mail::create(mail.to.clone(), mail.from.clone(), mail.message.as_str(), text.as_str()),
        );
        assert(mails_view(out@) =~= calculated(mail@));
    } else if subject.eq("ord") {
        let mut all = String::new();
        let mut i: usize = 0;
        let ghost texts = mail@.attachments;
        assert(texts.take(0) =~= Seq::empty());
        while i < mail.attachments.len()
            invariant
                i <= mail.attachments.len(),
                texts == strings_view(mail.attachments@),
                all@ == joined(texts.take(i as int)),
            decreases mail.attachments.len() - i,
        {
            assert(texts.take(i + 1).drop_last() =~= texts.take(i as int));
            all.append(mail.attachments[i].as_str());
            i += 1;
        }
        assert(texts.take(i as int) =~= texts);
        let chars = chars_of(all.as_str());
        let mut first = String::new();
        if chars.len() > 0 {
            first.push(chars[0]);
            assert(first@ =~= seq![all@[0]]);
        } else {
            first.push('0');
            assert(first@ =~= seq!['0']);
        }
        let mut retmail = Mail::create(
            mail.to.clone(),
            mail.from.clone(),
            mail.message.as_str(),
            first.as_str(),
        );
        let mut k: usize = 0;
        assert(retmail@.attachments =~= letters(all@).take(0));
        while k < chars.len()
            invariant
                k <= chars.len(),
                chars@ == all@,
                retmail@ == (MailView {
                    attachments: letters(all@).take(k as int),
                    ..answer(mail@, mail@.message, first@, Seq::empty())
                }),
            decreases chars.len() - k,
        {
            let mut one = String::new();
            one.push(chars[k]);
            assert(one@ =~= seq![all@[k as int]]);
            retmail.attach(one.as_str());
            assert(letters(all@).take(k + 1) =~= letters(all@).take(k as int).push(one@));
            k += 1;
        }
        assert(letters(all@).take(k as int) =~= letters(all@));
        out.push(retmail);
        assert(mails_view(out@) =~= calculated(mail@));
    } else if subject.eq("char") {
        let mut text = String::new();
        let mut i: usize = 0;
        let ghost texts = mail@.attachments;
        while i < mail.attachments.len()
            invariant
                i <= mail.attachments.len(),
                texts == strings_view(mail.attachments@),
                text@ == named_chars(texts).take(i as int),
            decreases mail.attachments.len() - i,
        {
            text.push(char_of(mail.attachments[i].as_str()));
            assert(named_chars(texts).take(i + 1) =~= named_chars(texts).take(i as int).push(
                named_char(texts[i as int]),
            ));
            i += 1;
        }
        assert(named_chars(texts).take(i as int) =~= named_chars(texts));
        out.push(
            Mail::create(mail.to.clone(), mail.from.clone(), mail.message.as_str(), text.as_str()),
        );
        assert(mails_view(out@) =~= calculated(mail@));
    } else {
        assert(mails_view(out@) =~= calculated(mail@));
    }
    out
}

/// The definition of the user `math`.
pub fn create() -> (r: UserDef)
    ensures
        r@ == UserDefView::External(STD_MATH),
{
    UserDef::create_def_external(STD_MATH)
}

} // verus!
