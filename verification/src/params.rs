//! The parameters that a lookup captured from a request path.

use crate::text::same_text;
use vstd::prelude::*;
use vstd::string::*;

verus! {

/// A mapping from parameter name to captured text. Each name occurs once;
/// binding a name again replaces its text.
#[derive(Debug)]
pub struct Params {
    entries: Vec<(String, String)>,
}

/// Whether `entries` holds `name` at position `i`.
pub open spec fn holds_at(entries: Seq<(String, String)>, name: Seq<char>, i: int) -> bool {
    0 <= i < entries.len() && entries[i].0@ == name
}

/// The names among the first `n` of `entries`.
pub open spec fn names_upto(entries: Seq<(String, String)>, n: int) -> Set<Seq<char>> {
    Set::new(|name: Seq<char>| exists|i: int| i < n && holds_at(entries, name, i))
}

/// No name occurs twice in `entries`.
pub open spec fn distinct_names(entries: Seq<(String, String)>) -> bool {
    forall|i: int, j: int|
        0 <= i < j < entries.len() ==> (#[trigger] entries[i]).0@ != (#[trigger] entries[j]).0@
}

/// The first `n` of `entries` hold `n` names.
proof fn lemma_names_upto(entries: Seq<(String, String)>, n: int)
    requires
        distinct_names(entries),
        0 <= n <= entries.len(),
    ensures
        names_upto(entries, n).finite(),
        names_upto(entries, n).len() == n,
    decreases n,
{
    if n == 0 {
        assert(names_upto(entries, n) =~= Set::empty());
    } else {
        lemma_names_upto(entries, n - 1);
        let name = entries[n - 1].0@;
        assert(holds_at(entries, name, n - 1));
        assert(names_upto(entries, n) =~= names_upto(entries, n - 1).insert(name));
    }
}

impl View for Params {
    type V = Map<Seq<char>, Seq<char>>;

    closed spec fn view(&self) -> Map<Seq<char>, Seq<char>> {
        Map::new(
            |name: Seq<char>| exists|i: int| holds_at(self.entries@, name, i),
            |name: Seq<char>| self.entries@[choose|i: int| holds_at(self.entries@, name, i)].1@,
        )
    }
}

impl Params {
    #[verifier::type_invariant]
    spec fn distinct(&self) -> bool {
        distinct_names(self.entries@)
    }

    /// The mapping without any name.
    pub fn new() -> (params: Self)
        ensures
            params@ == Map::<Seq<char>, Seq<char>>::empty(),
    {
        let params = Params { entries: Vec::new() };
        params
    }

    /// The position of `name` among the entries.
    fn position(&self, name: &str) -> (found: Option<usize>)
        ensures
            match found {
                Some(i) => holds_at(self.entries@, name@, i as int),
                None => forall|i: int| !holds_at(self.entries@, name@, i),
            },
    {
        let mut i: usize = 0;
        while i < self.entries.len()
            invariant
                0 <= i <= self.entries@.len(),
                forall|j: int| 0 <= j < i ==> !holds_at(self.entries@, name@, j),
            decreases self.entries@.len() - i,
        {
            if same_text(self.entries[i].0.as_str(), name) {
                return Some(i);
            }
            i += 1;
        }
        None
    }

    /// Binds `name` to `value`, in place of what it was bound to.
    pub fn insert(&mut self, name: String, value: String)
        ensures
            final(self)@ == old(self)@.insert(name@, value@),
    {
        proof {
            use_type_invariant(&*self);
        }
        let ghost before = self.entries@;
        let ghost key = name@;
        let ghost text = value@;
        let found = self.position(name.as_str());
        let mut entries: Vec<(String, String)> = Vec::new();
        std::mem::swap(&mut entries, &mut self.entries);
        match found {
            Some(i) => {
                entries.set(i, (name, value));
                self.entries = entries;
                proof {
                    let after = self.entries@;
                    assert forall|other: Seq<char>, j: int|
                        holds_at(after, other, j) <==> holds_at(before, other, j) by {}
                }
            },
            None => {
                entries.push((name, value));
                proof {
                    assert forall|i: int, j: int| 0 <= i < j < entries@.len() implies (
                    #[trigger] entries@[i]).0@ != (#[trigger] entries@[j]).0@ by {
                        if j == before.len() {
                            assert(!holds_at(before, key, i));
                        }
                    }
                }
                self.entries = entries;
                proof {
                    let after = self.entries@;
                    let n = before.len() as int;
                    assert(holds_at(after, key, n));
                    assert forall|other: Seq<char>, j: int| holds_at(after, other, j) <==> (
                    holds_at(before, other, j) || (j == n && other == key)) by {}
                }
            },
        }
    }

    /// The text that `name` is bound to.
    pub fn get(&self, name: &str) -> (value: Option<&String>)
        ensures
            match value {
                Some(text) => self@.contains_key(name@) && text@ == self@[name@],
                None => !self@.contains_key(name@),
            },
    {
        proof {
            use_type_invariant(self);
        }
        match self.position(name) {
            Some(i) => {
                proof {
                    let j = choose|j: int| holds_at(self.entries@, name@, j);
                }
                Some(&self.entries[i].1)
            },
            None => None,
        }
    }

    /// Whether `name` is bound.
    pub fn contains_key(&self, name: &str) -> (bound: bool)
        ensures
            bound == self@.contains_key(name@),
    {
        self.position(name).is_some()
    }

    /// The number of names bound.
    pub fn len(&self) -> (n: usize)
        ensures
            self@.dom().finite(),
            n == self@.dom().len(),
    {
        proof {
            use_type_invariant(self);
            lemma_names_upto(self.entries@, self.entries@.len() as int);
            assert(self@.dom() =~= names_upto(self.entries@, self.entries@.len() as int));
        }
        self.entries.len()
    }

    /// The names bound with their texts, each name once, in no particular
    /// order.
    pub fn entries(&self) -> (entries: &Vec<(String, String)>)
        ensures
            distinct_names(entries@),
            forall|name: Seq<char>|
                self@.contains_key(name) <==> exists|i: int| holds_at(entries@, name, i),
            forall|i: int|
                0 <= i < entries@.len() ==> self@.contains_key((#[trigger] entries@[i]).0@)
                    && self@[entries@[i].0@] == entries@[i].1@,
    {
        proof {
            use_type_invariant(self);
            assert forall|i: int| 0 <= i < self.entries@.len() implies self@.contains_key(
                (#[trigger] self.entries@[i]).0@,
            ) && self@[self.entries@[i].0@] == self.entries@[i].1@ by {
                let name = self.entries@[i].0@;
                assert(holds_at(self.entries@, name, i));
                let j = choose|j: int| holds_at(self.entries@, name, j);
            }
        }
        &self.entries
    }

    /// Whether no name is bound.
    pub fn is_empty(&self) -> (empty: bool)
        ensures
            empty == (self@ == Map::<Seq<char>, Seq<char>>::empty()),
    {
        let n = self.len();
        proof {
            if n == 0 {
                assert(self@ =~= Map::<Seq<char>, Seq<char>>::empty());
            }
        }
        n == 0
    }
}

impl PartialEq for Params {
    /// Two mappings are equal when they bind the same names to the same text.
    fn eq(&self, other: &Params) -> (same: bool) {
        proof {
            use_type_invariant(self);
        }
        if self.len() != other.len() {
            return false;
        }
        let mut i: usize = 0;
        while i < self.entries.len()
            invariant
                0 <= i <= self.entries@.len(),
                distinct_names(self.entries@),
                forall|j: int|
                    0 <= j < i ==> other@.contains_key((#[trigger] self.entries@[j]).0@)
                        && other@[self.entries@[j].0@] == self.entries@[j].1@,
            decreases self.entries@.len() - i,
        {
            proof {
                let name = self.entries@[i as int].0@;
                assert(holds_at(self.entries@, name, i as int));
                let j = choose|j: int| holds_at(self.entries@, name, j);
            }
            match other.get(self.entries[i].0.as_str()) {
                Some(text) => {
                    if *text != self.entries[i].1 {
                        return false;
                    }
                },
                None => {
                    return false;
                },
            }
            i += 1;
        }
        proof {
            vstd::set_lib::lemma_subset_equality(self@.dom(), other@.dom());
            assert(self@ =~= other@);
        }
        true
    }
}

impl vstd::std_specs::cmp::PartialEqSpecImpl for Params {
    open spec fn obeys_eq_spec() -> bool {
        true
    }

    open spec fn eq_spec(&self, other: &Params) -> bool {
        self@ == other@
    }
}

} // verus!
