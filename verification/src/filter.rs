//! The event filter: a structured value restricting which protocol events are
//! included in a result set.

use vstd::prelude::*;

verus! {

/// Whether membership state is loaded lazily, and if so whether redundant
/// members are still included.
#[derive(Debug, Clone, Copy, PartialEq, Eq, Structural)]
pub enum LazyLoadOptions {
    Disabled,
    Enabled { include_redundant_members: bool },
}

/// The mathematical shape of a filter value: every text field as a plain
/// character sequence.
#[verifier::ext_equal]
pub ghost struct FilterView {
    pub lazy_load_options: LazyLoadOptions,
    pub rooms: Option<Seq<Seq<char>>>,
    pub not_rooms: Seq<Seq<char>>,
    pub not_types: Seq<Seq<char>>,
}

/// An event filter. `rooms = None` means unrestricted; an absent restriction
/// is distinct from an empty one. `not_rooms` and `not_types` default to
/// empty.
#[derive(Debug, Clone)]
pub struct Filter {
    pub lazy_load_options: LazyLoadOptions,
    pub rooms: Option<Vec<String>>,
    pub not_rooms: Vec<String>,
    pub not_types: Vec<String>,
}

impl View for Filter {
    type V = FilterView;

    open spec fn view(&self) -> FilterView {
        FilterView {
            lazy_load_options: self.lazy_load_options,
            rooms: match self.rooms {
                Option::Some(v) => Option::Some(v.deep_view()),
                Option::None => Option::None,
            },
            not_rooms: self.not_rooms.deep_view(),
            not_types: self.not_types.deep_view(),
        }
    }
}

/// The all-default filter: lazy loading disabled, no room restriction, no
/// exclusions.
pub open spec fn default_filter() -> FilterView {
    FilterView {
        lazy_load_options: LazyLoadOptions::Disabled,
        rooms: Option::None,
        not_rooms: Seq::empty(),
        not_types: Seq::empty(),
    }
}

impl Default for Filter {
    /// The all-default filter value.
    fn default() -> (r: Filter)
        ensures
            r@ == default_filter(),
    {
        let r = Filter {
            lazy_load_options: LazyLoadOptions::Disabled,
            rooms: None,
            not_rooms: Vec::new(),
            not_types: Vec::new(),
        };
        proof {
            assert(r@ =~~= default_filter());
        }
        r
    }
}

/// Structural equality of two string vectors, over their character sequences.
fn eq_string_vec(a: &Vec<String>, b: &Vec<String>) -> (r: bool)
    ensures
        r == (a.deep_view() == b.deep_view()),
{
    if a.len() != b.len() {
        proof {
            assert(a.deep_view().len() != b.deep_view().len());
        }
        return false;
    }
    let n = a.len();
    let mut i: usize = 0;
    while i < n
        invariant
            i <= n,
            n == a.len() == b.len(),
            forall|k: int| 0 <= k < i ==> a.deep_view()[k] == b.deep_view()[k],
        decreases n - i,
    {
        if !(a[i] == b[i]) {
            proof {
                assert(a.deep_view()[i as int] != b.deep_view()[i as int]);
            }
            return false;
        }
        i = i + 1;
    }
    proof {
        assert(a.deep_view() =~~= b.deep_view());
    }
    true
}

impl Filter {
    /// Structural equality: every field compared by value, absent and empty
    /// restrictions kept distinct.
    pub fn equals(&self, other: &Filter) -> (r: bool)
        ensures
            r == (self@ == other@),
    {
        let lazy_eq = match (self.lazy_load_options, other.lazy_load_options) {
            (LazyLoadOptions::Disabled, LazyLoadOptions::Disabled) => true,
            (
                LazyLoadOptions::Enabled { include_redundant_members: a },
                LazyLoadOptions::Enabled { include_redundant_members: b },
            ) => a == b,
            _ => false,
        };
        if !lazy_eq {
            return false;
        }
        let rooms_eq = match (&self.rooms, &other.rooms) {
            (None, None) => true,
            (Some(a), Some(b)) => eq_string_vec(a, b),
            _ => false,
        };
        if !rooms_eq {
            proof {
                assert(self@.rooms != other@.rooms);
            }
            return false;
        }
        if !eq_string_vec(&self.not_rooms, &other.not_rooms) {
            return false;
        }
        if !eq_string_vec(&self.not_types, &other.not_types) {
            return false;
        }
        proof {
            assert(self@ =~~= other@);
        }
        true
    }
}

} // verus!
