use vstd::prelude::*;

use crate::cell::Color;

verus! {

/// A registered player: display name and assigned side.
#[derive(Debug, Clone)]
pub struct User {
    pub name: String,
    pub color: Color,
}

impl User {
    /// A new user starts with no side assigned.
    pub fn new(name: String) -> (u: User)
        ensures
            u.name@ == name@,
            u.color == Color::Neither,
    {
        User { name, color: Color::Neither }
    }
}

/// What the seat-request route sends back: the assigned color as text.
#[derive(Debug, Clone)]
pub struct ColorSender {
    pub value: String,
}

/// The registered players, with their count carried alongside for
/// clients.
#[derive(Debug, Clone)]
pub struct UserList {
    pub users: Vec<User>,
    pub n_users: u32,
}

impl UserList {
    /// Well-formedness: the carried count is the list's length.
    pub open spec fn wf(self) -> bool {
        self.n_users as int == self.users@.len()
    }

    /// An empty list.
    pub fn new() -> (l: UserList)
        ensures
            l.wf(),
            l.users@.len() == 0,
            l.n_users == 0,
    {
        UserList { users: Vec::new(), n_users: 0 }
    }

    /// Register a player at the end of the list.
    pub fn add_user(&mut self, user: User)
        requires
            old(self).wf(),
            old(self).users@.len() < u32::MAX,
        ensures
            final(self).wf(),
            final(self).users@ == old(self).users@.push(user),
    {
        self.users.push(user);
        self.n_users = self.n_users + 1;
    }

    /// Unregister the first player carrying `name`, keeping the order of
    /// the others; nothing happens when no player carries it.
    pub fn remove_user(&mut self, name: &String) -> (removed: bool)
        requires
            old(self).wf(),
        ensures
            final(self).wf(),
            removed == (exists|i: int|
                0 <= i < old(self).users@.len() && (#[trigger] old(self).users@[i]).name@
                    == name@),
            removed ==> (exists|i: int|
                {
                    &&& 0 <= i < old(self).users@.len()
                    &&& (#[trigger] old(self).users@[i]).name@ == name@
                    &&& forall|j: int|
                        0 <= j < i ==> (#[trigger] old(self).users@[j]).name@ != name@
                    &&& final(self).users@ == old(self).users@.remove(i)
                }),
            !removed ==> *final(self) == *old(self),
    {
        let mut i: usize = 0;
        while i < self.users.len()
            invariant
                self == old(self),
                self.wf(),
                i <= self.users@.len(),
                forall|j: int| 0 <= j < i ==> (#[trigger] self.users@[j]).name@ != name@,
            decreases self.users@.len() - i,
        {
            if self.users[i].name == *name {
                self.users.remove(i);
                self.n_users = self.n_users - 1;
                return true;
            }
            i += 1;
        }
        false
    }
}

/// A pair of canvas coordinates as the client sends them.
#[derive(Debug, Clone, Copy, PartialEq, Eq, Structural)]
pub struct Point {
    pub x: i32,
    pub y: i32,
}

impl Point {
    pub fn new(x: i32, y: i32) -> (p: Point)
        ensures
            p.x == x,
            p.y == y,
    {
        Point { x, y }
    }
}

} // verus!
