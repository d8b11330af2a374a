use vstd::prelude::*;
use vstd::string::*;
use crate::interpreter::STD_COMPARE;
use crate::mail::{answer, mails_view, strings_view, Mail, MailView};
use crate::user::{UserDef, UserDefView};

verus! {

/// Whether the first two attachments are the same: two texts that are
/// equal, or two that are both missing.
pub open spec fn first_two_equal(attachments: Seq<Seq<char>>) -> bool {
    if attachments.len() >= 2 {
        attachments[0] == attachments[1]
    } else {
        attachments.len() == 0
    }
}

/// The verdict in words.
pub open spec fn verdict(holds: bool) -> Seq<char> {
    if holds {
        seq!['t', 'r', 'u', 'e']
    } else {
        seq!['f', 'a', 'l', 's', 'e']
    }
}

/// What `cmp` answers: to `eq`, whether the first two attachments are the
/// same, and to `neq`, whether they are not, as `true` or `false` under
/// the subject that the message of the mail names; to anything else,
/// nothing.
pub open spec fn compared(mail: MailView) -> Seq<MailView> {
    if mail.subject == seq!['e', 'q'] {
        seq![
            answer(mail, mail.message, verdict(first_two_equal(mail.attachments)), Seq::empty()),
        ]
    } else if mail.subject == seq!['n', 'e', 'q'] {
        seq![
            answer(mail, mail.message, verdict(!first_two_equal(mail.attachments)), Seq::empty()),
        ]
    } else {
        Seq::empty()
    }
}

/// Answers a mail to `cmp`.
pub fn func(mail: &Mail) -> (r: Vec<Mail>)
    ensures
        mails_view(r@) == compared(mail@),
{
    let mut out: Vec<Mail> = Vec::new();
    proof {
        reveal_strlit("eq");
        reveal_strlit("neq");
        reveal_strlit("true");
        reveal_strlit("false");
        assert("eq"@ =~= seq!['e', 'q']);
        assert("neq"@ =~= seq!['n', 'e', 'q']);
        assert("true"@ =~= seq!['t', 'r', 'u', 'e']);
        assert("false"@ =~= seq!['f', 'a', 'l', 's', 'e']);
    }
    let same = if mail.attachments.len() >= 2 {
        mail.attachments[0].as_str().eq(mail.attachments[1].as_str())
    } else {
        mail.attachments.len() == 0
    };
    let holds = if mail.subject.as_str().eq("eq") {
        same
    } else if mail.subject.as_str().eq("neq") {
        !same
    } else {
        assert(mails_view(out@) =~= compared(mail@));
        return out;
    };
    out.push(
        Mail::create(
            mail.to.clone(),
            mail.from.clone(),
            mail.message.as_str(),
            if holds {
                "true"
            } else {
                "false"
            },
        ),
    );
    assert(mails_view(out@) =~= compared(mail@));
    out
}

/// The definition of the user `cmp`.
pub fn create() -> (r: UserDef)
    ensures
        r@ == UserDefView::External(STD_COMPARE),
{
    UserDef::create_def_external(STD_COMPARE)
}

} // verus!
