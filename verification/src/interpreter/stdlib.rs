//! The native users of the server `std.com`.

use vstd::prelude::*;
use crate::interpreter::{installed, std_queued, Interpreter, STD_COMPARE, STD_LOOP, STD_MATH};
use crate::mail::{mails_view, Mail, MailView};

pub mod stdcmp;
pub mod stdio;
pub mod stdloop;
pub mod stdmath;

verus! {

/// What the native user behind `handler` answers to a mail, where that
/// depends on the mail alone: the users `loop`, `cmp` and `math` do, and
/// `io` does not.
pub open spec fn std_answers(handler: usize, mail: MailView) -> Option<Seq<MailView>> {
    if handler == STD_LOOP {
        Some(stdloop::iterated(mail))
    } else if handler == STD_COMPARE {
        Some(stdcmp::compared(mail))
    } else if handler == STD_MATH {
        Some(stdmath::calculated(mail))
    } else {
        None
    }
}

/// Answers a mail for the native users `loop`, `cmp` and `math`; none for
/// any other handler.
pub fn std_reply(handler: usize, mail: &Mail) -> (r: Option<Vec<Mail>>)
    ensures
        match r {
            Some(replies) => std_answers(handler, mail@) == Some(mails_view(replies@)),
            None => std_answers(handler, mail@) is None,
        },
{
    if handler == STD_LOOP {
        Some(stdloop::func(mail))
    } else if handler == STD_COMPARE {
        Some(stdcmp::func(mail))
    } else if handler == STD_MATH {
        Some(stdmath::func(mail))
    } else {
        None
    }
}

/// Installs the server `std.com` with its four native users, together
/// with whatever else was waiting to be installed.
pub fn create_std_lib(inter: &mut Interpreter)
    requires
        old(inter).wf(),
    ensures
        final(inter).wf(),
        final(inter)@ == installed(std_queued(old(inter)@)),
{
    inter.add_server("std.com");
    inter.add_user("io", "std.com", &stdio::create());
    inter.add_user("loop", "std.com", &stdloop::create());
    inter.add_user("cmp", "std.com", &stdcmp::create());
    inter.add_user("math", "std.com", &stdmath::create());
    assert(inter@.users_to_add =~= std_queued(old(inter)@).users_to_add);
    inter.install_pending();
}

} // verus!
