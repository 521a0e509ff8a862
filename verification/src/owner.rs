//! Who holds a parcel, and how competing claims rank.
use vstd::prelude::*;

verus! {

/// A parcel's owner. `Admin` outranks every `User`, and every `User`
/// outranks `Public`; two users always rank equally.
#[derive(Debug)]
pub enum Owner {
    Admin,
    User(String),
    Public,
}

/// The mathematical model of an owner: the user's name as a character
/// sequence, nothing more.
pub enum OwnerView {
    Admin,
    User(Seq<char>),
    Public,
}

impl View for Owner {
    type V = OwnerView;

    open spec fn view(&self) -> OwnerView {
        match self {
            Owner::Admin => OwnerView::Admin,
            Owner::User(name) => OwnerView::User(name@),
            Owner::Public => OwnerView::Public,
        }
    }
}

/// Rank of an owner in conflict resolution: higher wins.
pub open spec fn priority_spec(o: OwnerView) -> int {
    match o {
        OwnerView::Admin => 3,
        OwnerView::User(_) => 2,
        OwnerView::Public => 1,
    }
}

/// The serialized form of an owner: a reserved sentinel for `Admin`,
/// the raw name for a `User`, nothing for `Public`.
pub open spec fn owner_repr_spec(o: OwnerView) -> Option<Seq<char>> {
    match o {
        OwnerView::Admin => Some(admin_sentinel()),
        OwnerView::User(name) => Some(name),
        OwnerView::Public => None,
    }
}

/// The reserved string that serialized `Admin` owners carry.
pub open spec fn admin_sentinel() -> Seq<char> {
    "@_admin"@
}

/// The owner a serialized form denotes. The sentinel always reads back as
/// `Admin`, never as a user of that name.
pub open spec fn owner_from_repr_spec(r: Option<Seq<char>>) -> OwnerView {
    match r {
        None => OwnerView::Public,
        Some(name) => if name == admin_sentinel() {
            OwnerView::Admin
        } else {
            OwnerView::User(name)
        },
    }
}

impl Owner {
    /// The owner's rank: `Admin` 3, any `User` 2, `Public` 1.
    pub fn priority(&self) -> (r: i32)
        ensures
            r == priority_spec(self@),
    {
        match self {
            Owner::Admin => 3,
            Owner::User(_) => 2,
            Owner::Public => 1,
        }
    }

    pub fn user(name: &str) -> (r: Owner)
        ensures
            r@ == OwnerView::User(name@),
    {
        Owner::User(name.to_owned())
    }

    /// The owner a serialized form denotes; the reserved sentinel maps to
    /// `Admin`, never to a user named by the sentinel's text.
    pub fn from_repr(r: Option<String>) -> (o: Owner)
        ensures
            o@ == owner_from_repr_spec(match r {
                Some(s) => Some(s@),
                None => None,
            }),
    {
        match r {
            None => Owner::Public,
            Some(name) => {
                let sentinel: String = "@_admin".to_owned();
                if name == sentinel {
                    Owner::Admin
                } else {
                    Owner::User(name)
                }
            },
        }
    }

    /// The serialized form of this owner.
    pub fn to_repr(&self) -> (r: Option<String>)
        ensures
            match r {
                Some(s) => owner_repr_spec(self@) == Some(s@),
                None => owner_repr_spec(self@) is None,
            },
    {
        match self {
            Owner::Admin => Some("@_admin".to_owned()),
            Owner::User(name) => Some(name.clone()),
            Owner::Public => None,
        }
    }
}

/// Reading a serialized owner back yields the owner, as long as no user is
/// named by the reserved sentinel itself.
pub proof fn lemma_owner_repr_round_trip(o: OwnerView)
    requires
        o != OwnerView::User(admin_sentinel()),
    ensures
        owner_from_repr_spec(owner_repr_spec(o)) == o,
{
}

impl Clone for Owner {
    fn clone(&self) -> (r: Self)
        ensures
            r == *self,
    {
        match self {
            Owner::Admin => Owner::Admin,
            Owner::User(name) => Owner::User(name.clone()),
            Owner::Public => Owner::Public,
        }
    }
}

impl PartialEq for Owner {
    fn eq(&self, other: &Owner) -> (r: bool)
        ensures
            r == (self@ == other@),
    {
        match (self, other) {
            (Owner::Admin, Owner::Admin) => true,
            (Owner::User(a), Owner::User(b)) => *a == *b,
            (Owner::Public, Owner::Public) => true,
            _ => false,
        }
    }
}

impl Eq for Owner {

}

impl vstd::std_specs::cmp::PartialEqSpecImpl for Owner {
    open spec fn obeys_eq_spec() -> bool {
        true
    }

    open spec fn eq_spec(&self, other: &Owner) -> bool {
        self@ == other@
    }
}

} // verus!
