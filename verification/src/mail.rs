use vstd::prelude::*;
use crate::interpreter::{Interpreter, InterpreterView};
use crate::user::UserPath;

verus! {

/// A message on its way: what it says, who sent it, and to whom.
#[derive(Debug, PartialEq)]
pub struct Mail {
    pub subject: String,
    pub message: String,
    pub from: UserPath,
    pub to: UserPath,
    pub attachments: Vec<String>,
}

/// A message that is being composed and has no addresses yet.
#[derive(Debug, PartialEq)]
pub struct Draft {
    pub subject: String,
    pub message: String,
    pub attachments: Vec<String>,
}

/// The mathematical value of a `Mail`.
pub struct MailView {
    pub subject: Seq<char>,
    pub message: Seq<char>,
    pub from: (Seq<char>, Seq<char>),
    pub to: (Seq<char>, Seq<char>),
    pub attachments: Seq<Seq<char>>,
}

/// The mathematical value of a `Draft`.
pub struct DraftView {
    pub subject: Seq<char>,
    pub message: Seq<char>,
    pub attachments: Seq<Seq<char>>,
}

/// The values of a run of texts, in order.
pub open spec fn strings_view(texts: Seq<String>) -> Seq<Seq<char>> {
    Seq::new(texts.len(), |i: int| texts[i]@)
}

/// The values of a run of mails, in order.
pub open spec fn mails_view(mails: Seq<Mail>) -> Seq<MailView> {
    Seq::new(mails.len(), |i: int| mails[i]@)
}

impl View for Mail {
    type V = MailView;

    open spec fn view(&self) -> MailView {
        MailView {
            subject: self.subject@,
            message: self.message@,
            from: self.from@,
            to: self.to@,
            attachments: strings_view(self.attachments@),
        }
    }
}

impl View for Draft {
    type V = DraftView;

    open spec fn view(&self) -> DraftView {
        DraftView {
            subject: self.subject@,
            message: self.message@,
            attachments: strings_view(self.attachments@),
        }
    }
}

/// A copy of every text of `texts`, in order.
pub fn clone_strings(texts: &Vec<String>) -> (r: Vec<String>)
    ensures
        strings_view(r@) == strings_view(texts@),
{
    let mut out: Vec<String> = Vec::new();
    let mut i: usize = 0;
    while i < texts.len()
        invariant
            i <= texts.len(),
            out.len() == i,
            forall|j: int| 0 <= j < i ==> out[j]@ == texts[j]@,
        decreases texts.len() - i,
    {
        out.push(texts[i].clone());
        i += 1;
    }
    assert(strings_view(out@) =~= strings_view(texts@));
    out
}

impl Clone for Mail {
    fn clone(&self) -> (r: Self)
        ensures
            r@ == self@,
    {
        Mail {
            subject: self.subject.clone(),
            message: self.message.clone(),
            from: self.from.clone(),
            to: self.to.clone(),
            attachments: clone_strings(&self.attachments),
        }
    }
}

impl Clone for Draft {
    fn clone(&self) -> (r: Self)
        ensures
            r@ == self@,
    {
        Draft {
            subject: self.subject.clone(),
            message: self.message.clone(),
            attachments: clone_strings(&self.attachments),
        }
    }
}

impl Mail {
    /// Adds one attachment behind those that the mail has.
    pub fn attach(&mut self, val: &str)
        ensures
            final(self)@ == (MailView {
                attachments: old(self)@.attachments.push(val@),
                ..old(self)@
            }),
    {
        self.attachments.push(val.to_string());
        assert(strings_view(self.attachments@) =~= strings_view(old(self).attachments@).push(val@));
    }

    /// A mail without attachments.
    pub fn create(from: UserPath, to: UserPath, subject: &str, message: &str) -> (r: Mail)
        ensures
            r@ == (MailView {
                subject: subject@,
                message: message@,
                from: from@,
                to: to@,
                attachments: Seq::empty(),
            }),
    {
        let r = Mail {
            from,
            to,
            subject: subject.to_string(),
            message: message.to_string(),
            attachments: Vec::new(),
        };
        assert(strings_view(r.attachments@) =~= Seq::empty());
        r
    }
}

impl Mail {
    /// Queues an answer to this mail: it goes from the receiver back to
    /// the sender.
    pub fn return_mail(
        &self,
        inter: &mut Interpreter,
        subject: &str,
        message: &str,
        attachments: Vec<String>,
    )
        requires
            old(inter).wf(),
        ensures
            final(inter).wf(),
            final(inter)@ == (InterpreterView {
                pending: old(inter)@.pending.push(
                    answer(self@, subject@, message@, strings_view(attachments@)),
                ),
                ..old(inter)@
            }),
    {
        inter.mail(
            Mail {
                from: self.to.clone(),
                to: self.from.clone(),
                subject: subject.to_string(),
                message: message.to_string(),
                attachments,
            },
        );
    }
}

/// The answer to `mail`: it goes from the receiver back to the sender.
pub open spec fn answer(
    mail: MailView,
    subject: Seq<char>,
    message: Seq<char>,
    attachments: Seq<Seq<char>>,
) -> MailView {
    MailView { subject, message, from: mail.to, to: mail.from, attachments }
}

} // verus!
