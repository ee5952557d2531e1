//! Where a library item came from.

use crate::text::same_text;
use vstd::prelude::*;

verus! {

/// The tier an item was loaded from.
#[derive(Debug, PartialEq, Eq)]
pub enum Origin {
    /// This project's own folder.
    Project,
    /// The shared folder of the user.
    User,
    /// A hub, by its local name.
    Hub(String),
    /// A third-party format compiled into the program, shadowable by any tier above.
    Bundled,
    /// A structural schema that exists in every project whatever the libraries hold.
    Builtin,
}

/// What an origin is.
pub enum Tier {
    Project,
    User,
    Hub(Seq<char>),
    Bundled,
    Builtin,
}

impl View for Origin {
    type V = Tier;

    open spec fn view(&self) -> Tier {
        match *self {
            Origin::Project => Tier::Project,
            Origin::User => Tier::User,
            Origin::Hub(name) => Tier::Hub(name@),
            Origin::Bundled => Tier::Bundled,
            Origin::Builtin => Tier::Builtin,
        }
    }
}

impl Clone for Origin {
    fn clone(&self) -> (r: Self)
        ensures
            r == *self,
    {
        match self {
            Origin::Project => Origin::Project,
            Origin::User => Origin::User,
            Origin::Hub(name) => Origin::Hub(name.clone()),
            Origin::Bundled => Origin::Bundled,
            Origin::Builtin => Origin::Builtin,
        }
    }
}

/// The tag of a tier.
pub open spec fn tier_label(tier: Tier) -> Seq<char> {
    match tier {
        Tier::Project => "[Project]"@,
        Tier::User => "[User]"@,
        Tier::Hub(name) => "[Hub "@ + name + "]"@,
        Tier::Bundled => "[Bundled]"@,
        Tier::Builtin => "[Built-in]"@,
    }
}

impl Origin {
    /// The tag a picker or a row shows.
    pub fn label(&self) -> (r: String)
        ensures
            r@ == tier_label(self@),
    {
        match self {
            Origin::Project => "[Project]".to_string(),
            Origin::User => "[User]".to_string(),
            Origin::Hub(name) => "[Hub ".to_string().concat(name.as_str()).concat("]"),
            Origin::Bundled => "[Bundled]".to_string(),
            Origin::Builtin => "[Built-in]".to_string(),
        }
    }

    /// Whether both name the same tier.
    pub fn same(&self, other: &Origin) -> (r: bool)
        ensures
            r == (self@ == other@),
    {
        match (self, other) {
            (Origin::Project, Origin::Project) => true,
            (Origin::User, Origin::User) => true,
            (Origin::Hub(a), Origin::Hub(b)) => same_text(a.as_str(), b.as_str()),
            (Origin::Bundled, Origin::Bundled) => true,
            (Origin::Builtin, Origin::Builtin) => true,
            _ => false,
        }
    }
}

/// The view of an optional origin.
pub open spec fn opt_tier(o: Option<Origin>) -> Option<Tier> {
    match o {
        Some(o) => Some(o@),
        None => None,
    }
}

/// The tag for an optional origin: hand-made items have none, and get no tag rather than a
/// misleading one.
pub fn origin_label(origin: Option<&Origin>) -> (r: String)
    ensures
        r@ == match origin {
            Some(o) => tier_label(o@),
            None => Seq::empty(),
        },
{
    match origin {
        Some(o) => o.label(),
        None => String::new(),
    }
}

/// An item plus the tier it came from.
#[derive(Debug, Clone, PartialEq, Eq)]
pub struct LibraryItem<T> {
    pub item: T,
    pub origin: Origin,
}

impl<T> LibraryItem<T> {
    pub fn new(item: T, origin: Origin) -> (r: Self)
        ensures
            r.item == item,
            r.origin == origin,
    {
        LibraryItem { item, origin }
    }
}

/// Tags tell the tiers apart, and hubs by their names.
pub proof fn labels_tell_tiers_apart(a: Tier, b: Tier)
    requires
        tier_label(a) == tier_label(b),
    ensures
        a == b,
{
    reveal_strlit("[Project]");
    reveal_strlit("[User]");
    reveal_strlit("[Hub ");
    reveal_strlit("]");
    reveal_strlit("[Bundled]");
    reveal_strlit("[Built-in]");
    assert forall|t: Tier| true implies ({
        let l = #[trigger] tier_label(t);
        &&& t is Project ==> l[1] == 'P'
        &&& t is User ==> l[1] == 'U'
        &&& t is Hub ==> l[1] == 'H'
        &&& t is Bundled ==> l[1] == 'B' && l[3] == 'n'
        &&& t is Builtin ==> l[1] == 'B' && l[3] == 'i'
    }) by {}
    if a is Hub && b is Hub {
        let x = a->Hub_0;
        let y = b->Hub_0;
        assert(x =~= tier_label(a).subrange(5, tier_label(a).len() - 1));
        assert(y =~= tier_label(b).subrange(5, tier_label(b).len() - 1));
    }
}

} // verus!
