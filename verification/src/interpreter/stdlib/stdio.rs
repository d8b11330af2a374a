use vstd::prelude::*;
use vstd::string::*;
use crate::interpreter::STD_IO;
use crate::mail::{answer, strings_view, Mail, MailView};
use crate::parser::textparser::trim_end;
use crate::text::{chars_of, whitespace};
use crate::user::{UserDef, UserDefView};

verus! {

/// The message and, behind a blank each, the attachments from index `i`
/// on.
pub open spec fn line_of(attachments: Seq<Seq<char>>, i: int) -> Seq<char>
    decreases attachments.len() - i,
{
    if i < 0 || i >= attachments.len() {
        Seq::empty()
    } else {
        seq![' '] + attachments[i] + line_of(attachments, i + 1)
    }
}

/// What `io` writes for a mail: for `print` the message and the
/// attachments, for `println` the same and a line break, and for anything
/// else nothing.
pub open spec fn printed(mail: MailView) -> Option<Seq<char>> {
    if mail.subject == seq!['p', 'r', 'i', 'n', 't'] {
        Some(mail.message + line_of(mail.attachments, 0))
    } else if mail.subject == seq!['p', 'r', 'i', 'n', 't', 'l', 'n'] {
        Some(mail.message + line_of(mail.attachments, 0) + seq!['\n'])
    } else {
        None
    }
}

/// Whether the mail asks `io` for a line of input.
pub open spec fn asks_input(mail: MailView) -> bool {
    mail.subject == seq!['i', 'n', 'p', 'u', 't']
}

/// What `io` is to write for a mail, if anything.
pub fn output(mail: &Mail) -> (r: Option<String>)
    ensures
        match r {
            Some(text) => printed(mail@) == Some(text@),
            None => printed(mail@) is None,
        },
{
    proof {
        reveal_strlit("print");
        reveal_strlit("println");
        assert("print"@ =~= seq!['p', 'r', 'i', 'n', 't']);
        assert("println"@ =~= seq!['p', 'r', 'i', 'n', 't', 'l', 'n']);
    }
    let newline = mail.subject.as_str().eq("println");
    if !newline && !mail.subject.as_str().eq("print") {
        return None;
    }
    let ghost attachments = mail@.attachments;
    let mut out = mail.message.clone();
    let mut i: usize = 0;
    while i < mail.attachments.len()
        invariant
            i <= mail.attachments.len(),
            attachments == strings_view(mail.attachments@),
            out@ + line_of(attachments, i as int) == mail.message@ + line_of(attachments, 0),
        decreases mail.attachments.len() - i,
    {
        let ghost before = out@;
        out.push(' ');
        out.append(mail.attachments[i].as_str());
        assert(out@ + line_of(attachments, i + 1) =~= before + line_of(attachments, i as int));
        i += 1;
    }
    assert(out@ + line_of(attachments, i as int) =~= out@);
    if newline {
        out.push('\n');
    }
    Some(out)
}

/// Whether the mail asks `io` for a line of input.
pub fn wants_input(mail: &Mail) -> (r: bool)
    ensures
        r == asks_input(mail@),
{
    proof {
        reveal_strlit("input");
        assert("input"@ =~= seq!['i', 'n', 'p', 'u', 't']);
    }
    mail.subject.as_str().eq("input")
}

/// The answer of `io` to a mail that asked for input, once the line has
/// been read: its subject is the message of the mail, and its message the
/// line without the whitespace at its end.
pub fn answer_input(mail: &Mail, line: &str) -> (r: Mail)
    ensures
        r@ == answer(mail@, mail@.message, trim_end(line@), Seq::empty()),
{
    let chars = chars_of(line);
    let mut end: usize = chars.len();
    assert(chars@.subrange(0, end as int) =~= line@);
    while end > 0 && chars[end - 1].is_whitespace()
        invariant
            end <= chars.len(),
            chars@ == line@,
            trim_end(line@) == trim_end(chars@.subrange(0, end as int)),
        decreases end,
    {
        assert(chars@.subrange(0, end as int).drop_last() =~= chars@.subrange(0, end - 1));
        end -= 1;
    }
    let mut text = String::new();
    let mut i: usize = 0;
    while i < end
        invariant
            i <= end <= chars.len(),
            text@ == chars@.subrange(0, i as int),
        decreases end - i,
    {
        text.push(chars[i]);
        assert(chars@.subrange(0, i + 1) =~= chars@.subrange(0, i as int).push(chars@[i as int]));
        i += 1;
    }
    Mail::create(mail.to.clone(), mail.from.clone(), mail.message.as_str(), text.as_str())
}

/// The definition of the user `io`.
pub fn create() -> (r: UserDef)
    ensures
        r@ == UserDefView::External(STD_IO),
{
    UserDef::create_def_external(STD_IO)
}

} // verus!
