use vstd::prelude::*;
use crate::table::Table;
use crate::user::{User, UserView};

verus! {

/// A namespace of users.
#[derive(Debug, PartialEq)]
pub struct Server {
    pub users: Table<User>,
}

impl View for Server {
    type V = Map<Seq<char>, UserView>;

    open spec fn view(&self) -> Map<Seq<char>, UserView> {
        self.users@.map_values(|u: User| u@)
    }
}

impl Server {
    /// Whether the server and each of its users is well formed.
    pub open spec fn wf(&self) -> bool {
        &&& self.users.wf()
        &&& forall|name: Seq<char>| #[trigger]
            self.users@.dom().contains(name) ==> self.users@[name].wf()
    }

    /// A server without users.
    pub fn new() -> (r: Server)
        ensures
            r.wf(),
            r@ == Map::<Seq<char>, UserView>::empty(),
    {
        let r = Server { users: Table::new() };
        assert(r@ =~= Map::<Seq<char>, UserView>::empty());
        r
    }

    pub fn get_user(&self, name: &str) -> (r: Option<&User>)
        requires
            self.wf(),
        ensures
            match r {
                Some(user) => self@.dom().contains(name@) && user@ == self@[name@] && user.wf(),
                None => !self@.dom().contains(name@),
            },
    {
        self.users.get(name)
    }

    /// Takes the user `name` out of the server, to be put back with
    /// `add_user` once its reaction has run.
    pub fn take_user(&mut self, name: &str) -> (r: Option<User>)
        requires
            old(self).wf(),
        ensures
            final(self).wf(),
            final(self)@ == old(self)@.remove(name@),
            match r {
                Some(user) => old(self)@.dom().contains(name@) && user@ == old(self)@[name@]
                    && user.wf(),
                None => !old(self)@.dom().contains(name@),
            },
    {
        let r = self.users.remove(name);
        assert(self@ =~= old(self)@.remove(name@));
        r
    }

    /// Installs `user` under `name`, in place of a user of that name.
    pub fn add_user(&mut self, name: String, user: User)
        requires
            old(self).wf(),
            user.wf(),
        ensures
            final(self).wf(),
            final(self)@ == old(self)@.insert(name@, user@),
    {
        self.users.insert(name, user);
        assert(self@ =~= old(self)@.insert(name@, user@));
    }
}

} // verus!
