use vstd::prelude::*;
use crate::table::Table;
use crate::types::{Type, TypeView};
use crate::user::UserPath;

verus! {

/// The variables of one actor, and the address of that actor.
#[derive(Debug, PartialEq)]
pub struct Environment {
    pub data: Table<Type>,
    pub path: UserPath,
}

/// The mathematical value of an `Environment`.
pub struct EnvironmentView {
    pub data: Map<Seq<char>, TypeView>,
    pub path: (Seq<char>, Seq<char>),
}

/// The value bound to `key`, or null where there is none.
pub open spec fn lookup(data: Map<Seq<char>, TypeView>, key: Seq<char>) -> TypeView {
    if data.dom().contains(key) {
        data[key]
    } else {
        TypeView::Null
    }
}

/// The bindings after `key` is set to `value`: setting null unbinds.
pub open spec fn bind(data: Map<Seq<char>, TypeView>, key: Seq<char>, value: TypeView) -> Map<
    Seq<char>,
    TypeView,
> {
    if value is Null {
        data.remove(key)
    } else {
        data.insert(key, value)
    }
}

impl View for Environment {
    type V = EnvironmentView;

    open spec fn view(&self) -> EnvironmentView {
        EnvironmentView { data: self.data@.map_values(|v: Type| v@), path: self.path@ }
    }
}

impl Environment {
    /// Whether the environment is well formed; every one that the functions
    /// of this library make or change is.
    pub open spec fn wf(&self) -> bool {
        self.data.wf()
    }

    pub fn new(username: &str, server: &str) -> (r: Environment)
        ensures
            r.wf(),
            r@ == (EnvironmentView { data: Map::empty(), path: (username@, server@) }),
    {
        let r = Environment {
            data: Table::new(),
            path: UserPath(username.to_string(), server.to_string()),
        };
        assert(r@.data =~= Map::empty());
        r
    }

    pub fn has(&self, key: &str) -> (r: bool)
        ensures
            r == self@.data.dom().contains(key@),
    {
        self.data.contains_key(key)
    }

    pub fn new_anon() -> (r: Environment)
        ensures
            r.wf(),
            r@ == (EnvironmentView { data: Map::empty(), path: crate::user::anonymous() }),
    {
        Environment::new("Anonymous", "anon")
    }

    /// Binds `key` to `value`; a null `value` takes the binding away.
    pub fn set(&mut self, key: &str, value: Type)
        requires
            old(self).wf(),
        ensures
            final(self).wf(),
            final(self)@ == (EnvironmentView {
                data: bind(old(self)@.data, key@, value@),
                ..old(self)@
            }),
    {
        if let Type::Null = value {
            let _ = self.data.remove(key);
            assert(self@.data =~= old(self)@.data.remove(key@));
        } else {
            self.data.insert(key.to_string(), value);
            assert(self@.data =~= old(self)@.data.insert(key@, value@));
        }
    }

    /// A copy of the value bound to `key`, or null where there is none.
    pub fn get(&self, key: &str) -> (r: Type)
        requires
            self.wf(),
        ensures
            r@ == lookup(self@.data, key@),
    {
        match self.data.get(key) {
            Some(val) => val.clone(),
            None => Type::Null,
        }
    }
}

} // verus!
