use vstd::prelude::*;
use vstd::string::*;
use crate::interpreter::STD_LOOP;
use crate::mail::{answer, mails_view, strings_view, Mail, MailView};
use crate::user::{UserDef, UserDefView};

verus! {

/// What `loop` answers: to `iterate`, one mail for each attachment, whose
/// subject is the message of the mail and whose message is the
/// attachment; to anything else, nothing.
pub open spec fn iterated(mail: MailView) -> Seq<MailView> {
    if mail.subject == seq!['i', 't', 'e', 'r', 'a', 't', 'e'] {
        Seq::new(
            mail.attachments.len(),
            |i: int| answer(mail, mail.message, mail.attachments[i], Seq::empty()),
        )
    } else {
        Seq::empty()
    }
}

/// Answers a mail to `loop`.
pub fn func(mail: &Mail) -> (r: Vec<Mail>)
    ensures
        mails_view(r@) == iterated(mail@),
{
    let mut out: Vec<Mail> = Vec::new();
    proof {
        reveal_strlit("iterate");
        assert("iterate"@ =~= seq!['i', 't', 'e', 'r', 'a', 't', 'e']);
    }
    if mail.subject.as_str().eq("iterate") {
        let mut i: usize = 0;
        while i < mail.attachments.len()
            invariant
                i <= mail.attachments.len(),
                out.len() == i,
                forall|j: int|
                    0 <= j < i ==> out[j]@ == answer(
                        mail@,
                        mail@.message,
                        mail@.attachments[j],
                        Seq::empty(),
                    ),
            decreases mail.attachments.len() - i,
        {
            out.push(
                Mail::create(
                    mail.to.clone(),
                    mail.from.clone(),
                    mail.message.as_str(),
                    mail.attachments[i].as_str(),
                ),
            );
            i += 1;
        }
        assert(mails_view(out@) =~= iterated(mail@));
    } else {
        assert(mails_view(out@) =~= iterated(mail@));
    }
    out
}

/// The definition of the user `loop`.
pub fn create() -> (r: UserDef)
    ensures
        r@ == UserDefView::External(STD_LOOP),
{
    UserDef::create_def_external(STD_LOOP)
}

} // verus!
