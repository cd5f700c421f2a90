//! Choosing and configuring the child of an overlay bin.

use vstd::prelude::*;

verus! {

/// The caps feature of frames in GL memory.
pub const GL_MEMORY_FEATURE: &'static str = "memory:GLMemory";

/// Values by name.
#[derive(Debug)]
pub struct NamedValues<V> {
    entries: Vec<(String, V)>,
}

impl<V> View for NamedValues<V> {
    type V = Map<Seq<char>, V>;

    closed spec fn view(&self) -> Map<Seq<char>, V> {
        Map::new(
            |name: Seq<char>| self.place(name) is Some,
            |name: Seq<char>| self.entries@[self.place(name)->0].1,
        )
    }
}

impl<V> NamedValues<V> {
    /// Where a name's value stands.
    closed spec fn place(self, name: Seq<char>) -> Option<int> {
        if exists|i: int| self.named(name, i) {
            Some(choose|i: int| self.named(name, i))
        } else {
            None
        }
    }

    closed spec fn named(self, name: Seq<char>, i: int) -> bool {
        0 <= i < self.entries@.len() && self.entries@[i].0@ == name
    }

    /// No name stands twice.
    #[verifier::type_invariant]
    spec fn sound(self) -> bool {
        forall|name: Seq<char>, i: int, j: int|
            self.named(name, i) && #[trigger] self.named(name, j) && #[trigger] self.named(name, i)
                ==> i == j
    }

    pub fn new() -> (r: Self)
        ensures
            r@ == Map::<Seq<char>, V>::empty(),
    {
        let r = NamedValues { entries: Vec::new() };
        assert(r@ =~= Map::<Seq<char>, V>::empty());
        r
    }

    /// The value of a name.
    pub fn get(&self, name: &str) -> (r: Option<&V>)
        ensures
            r == (if self@.dom().contains(name@) {
                Some(&self@[name@])
            } else {
                None
            }),
    {
        proof {
            use_type_invariant(self);
        }
        let wanted = name.to_owned();
        let mut i: usize = 0;
        while i < self.entries.len()
            invariant
                i <= self.entries@.len(),
                wanted@ == name@,
                self.sound(),
                forall|k: int| 0 <= k < i ==> !#[trigger] self.named(name@, k),
            decreases self.entries.len() - i,
        {
            if self.entries[i].0 == wanted {
                assert(self.named(name@, i as int));
                assert(self.place(name@) == Some(i as int));
                return Some(&self.entries[i].1);
            }
            i = i + 1;
        }
        assert(forall|k: int| !self.named(name@, k));
        None
    }

    /// Give a name a value, in place of the one that it may have.
    pub fn set(&mut self, name: &str, value: V)
        ensures
            final(self)@ == old(self)@.insert(name@, value),
    {
        proof {
            use_type_invariant(&*self);
        }
        let wanted = name.to_owned();
        let mut found: Option<usize> = None;
        let mut i: usize = 0;
        while i < self.entries.len()
            invariant
                i <= self.entries@.len(),
                wanted@ == name@,
                found is None ==> forall|k: int| 0 <= k < i ==> !#[trigger] self.named(name@, k),
                found matches Some(at) ==> self.named(name@, at as int),
            decreases self.entries.len() - i,
        {
            if self.entries[i].0 == wanted {
                assert(self.named(name@, i as int));
                found = Some(i);
            }
            i = i + 1;
        }
        let mut entries: Vec<(String, V)> = Vec::new();
        std::mem::swap(&mut self.entries, &mut entries);
        match found {
            Some(at) => {
                entries.set(at, (wanted, value));
                proof {
                    let after = NamedValues { entries };
                    lemma_replaced(*old(self), after, name@, at as int, value);
                }
            },
            None => {
                entries.push((wanted, value));
                proof {
                    let after = NamedValues { entries };
                    lemma_added(*old(self), after, name@, value);
                }
            },
        }
        self.entries = entries;
    }
}

proof fn lemma_replaced<V>(
    before: NamedValues<V>,
    after: NamedValues<V>,
    name: Seq<char>,
    at: int,
    value: V,
)
    requires
        before.sound(),
        before.named(name, at),
        after.entries@.len() == before.entries@.len(),
        after.entries@[at].0@ == name,
        after.entries@[at].1 == value,
        forall|k: int|
            0 <= k < before.entries@.len() && k != at ==> after.entries@[k] == before.entries@[k],
    ensures
        after.sound(),
        after@ == before@.insert(name, value),
{
    assert forall|n: Seq<char>, k: int| #[trigger] after.named(n, k) == before.named(n, k) by {}
    assert forall|n: Seq<char>| #[trigger] after.place(n) == before.place(n) by {
        if exists|k: int| before.named(n, k) {
            let k = choose|k: int| before.named(n, k);
            assert(after.named(n, k));
            let j = choose|j: int| after.named(n, j);
            assert(before.named(n, j));
        } else {
            assert forall|k: int| !after.named(n, k) by {
                assert(!before.named(n, k));
            }
        }
    }
    assert(after@ =~= before@.insert(name, value)) by {
        assert forall|n: Seq<char>| after@.dom().contains(n) == before@.insert(name, value).dom().contains(n) by {
            assert(after.place(n) == before.place(n));
        }
        assert forall|n: Seq<char>| after@.dom().contains(n) implies #[trigger] after@[n]
            == before@.insert(name, value)[n] by {
            assert(after.place(n) == before.place(n));
            let k = after.place(n)->0;
            assert(before.named(n, k));
            if n == name {
                assert(k == at);
            } else {
                assert(k != at);
            }
        }
    }
}

proof fn lemma_added<V>(before: NamedValues<V>, after: NamedValues<V>, name: Seq<char>, value: V)
    requires
        before.sound(),
        forall|k: int| !#[trigger] before.named(name, k),
        after.entries@.len() == before.entries@.len() + 1,
        after.entries@.last().0@ == name,
        after.entries@.last().1 == value,
        forall|k: int| 0 <= k < before.entries@.len() ==> after.entries@[k] == before.entries@[k],
    ensures
        after.sound(),
        after@ == before@.insert(name, value),
{
    let last = before.entries@.len() as int;
    assert forall|n: Seq<char>, k: int| #[trigger] after.named(n, k) == (before.named(n, k) || n
        == name && k == last) by {}
    assert forall|n: Seq<char>, i: int, j: int|
        after.named(n, i) && #[trigger] after.named(n, j) && #[trigger] after.named(n, i) implies i
        == j by {
        assert(!before.named(name, i));
        assert(!before.named(name, j));
    }
    assert forall|n: Seq<char>| #[trigger] after.place(n) == (if n == name {
        Some(last)
    } else {
        before.place(n)
    }) by {
        if n == name {
            assert(after.named(n, last));
        } else if exists|k: int| before.named(n, k) {
            let k = choose|k: int| before.named(n, k);
            assert(after.named(n, k));
            let j = choose|j: int| after.named(n, j);
            assert(before.named(n, j));
        } else {
            assert forall|k: int| !after.named(n, k) by {
                assert(!before.named(n, k));
            }
        }
    }
    assert(before.place(name) is None) by {
        assert(forall|k: int| !before.named(name, k));
    }
    assert(after@ =~= before@.insert(name, value)) by {
        assert forall|n: Seq<char>| after@.dom().contains(n) == before@.insert(name, value).dom().contains(n) by {
            assert(after.place(n) == (if n == name {
                Some(last)
            } else {
                before.place(n)
            }));
        }
        assert forall|n: Seq<char>| after@.dom().contains(n) implies #[trigger] after@[n]
            == before@.insert(name, value)[n] by {
            assert(after.place(n) == (if n == name {
                Some(last)
            } else {
                before.place(n)
            }));
            if n != name {
                let k = before.place(n)->0;
                assert(before.named(n, k));
            }
        }
    }
}

/// The names of a list.
pub open spec fn lists(names: Seq<String>, name: Seq<char>) -> bool {
    exists|i: int| 0 <= i < names.len() && #[trigger] names[i]@ == name
}

fn holds_name(names: &Vec<String>, name: &String) -> (r: bool)
    ensures
        r == lists(names@, name@),
{
    let mut i: usize = 0;
    while i < names.len()
        invariant
            i <= names.len(),
            forall|k: int| 0 <= k < i ==> #[trigger] names@[k]@ != name@,
        decreases names.len() - i,
    {
        if names[i] == *name {
            assert(names@[i as int]@ == name@);
            return true;
        }
        i = i + 1;
    }
    false
}

/// The factory of the bin's child: the GL twin for frames in GL memory, where the build has
/// GL at all.
pub fn child_factory<'a>(
    cpu_factory: &'a str,
    gl_factory: &'a str,
    has_gl: bool,
    features: &Vec<String>,
) -> (r: &'a str)
    ensures
        r == (if has_gl && lists(features@, GL_MEMORY_FEATURE@) {
            gl_factory
        } else {
            cpu_factory
        }),
{
    let gl = GL_MEMORY_FEATURE.to_owned();
    if has_gl && holds_name(features, &gl) {
        gl_factory
    } else {
        cpu_factory
    }
}

/// The properties of a bin: what was set on it, and the defaults of its child.
#[derive(Debug)]
pub struct BinProperties<V> {
    /// Property values explicitly set on the bin, forwarded to the child when it
    /// is built. Only user overrides are stored (the child keeps its own defaults).
    pub overrides: NamedValues<V>,
    /// Default values, used only for reads made before the child is selected.
    pub defaults: NamedValues<V>,
}

/// The value of a property: the active child's, if there is one, else what was set, else the
/// default.
pub open spec fn value_of<V>(
    overrides: Map<Seq<char>, V>,
    defaults: Map<Seq<char>, V>,
    child: Option<V>,
    name: Seq<char>,
) -> Option<V> {
    if child is Some {
        child
    } else if overrides.dom().contains(name) {
        Some(overrides[name])
    } else if defaults.dom().contains(name) {
        Some(defaults[name])
    } else {
        None
    }
}

impl<V> BinProperties<V> {
    /// No property was set yet.
    pub fn new(defaults: NamedValues<V>) -> (r: Self)
        ensures
            r.overrides@ == Map::<Seq<char>, V>::empty(),
            r.defaults == defaults,
    {
        BinProperties { overrides: NamedValues::new(), defaults }
    }

    /// Remember a property that was set, so that a child built later is configured
    /// consistently.
    pub fn set(&mut self, name: &str, value: V)
        ensures
            final(self).overrides@ == old(self).overrides@.insert(name@, value),
            final(self).defaults == old(self).defaults,
    {
        self.overrides.set(name, value);
    }

    /// Read a property: from the active child, if there is one, else what was set, else the
    /// default. `None` for a property that has none of them.
    pub fn read<'a>(&'a self, name: &str, child: &'a Option<V>) -> (r: Option<&'a V>)
        ensures
            match r {
                Some(value) => value_of(self.overrides@, self.defaults@, *child, name@) == Some(
                    *value,
                ),
                None => value_of(self.overrides@, self.defaults@, *child, name@) is None,
            },
    {
        match child {
            Some(value) => Some(value),
            None => match self.overrides.get(name) {
                Some(value) => Some(value),
                None => self.defaults.get(name),
            },
        }
    }
}

/// A property that was set is read back, until a child is there; setting one property
/// leaves the others.
pub proof fn law_set_properties_are_read_back<V>(
    overrides: Map<Seq<char>, V>,
    defaults: Map<Seq<char>, V>,
    name: Seq<char>,
    value: V,
    other: Seq<char>,
)
    ensures
        value_of(overrides.insert(name, value), defaults, None, name) == Some(value),
        other != name ==> value_of(overrides.insert(name, value), defaults, None, other)
            == value_of(overrides, defaults, None, other),
{
}

/// The child's value counts before what was set, and that before the default; a property
/// with none of them has no value.
pub proof fn law_values_come_from_the_child_first<V>(
    overrides: Map<Seq<char>, V>,
    defaults: Map<Seq<char>, V>,
    name: Seq<char>,
    value: V,
)
    ensures
        value_of(overrides, defaults, Some(value), name) == Some(value),
        overrides.dom().contains(name) ==> value_of(overrides, defaults, None, name) == Some(
            overrides[name],
        ),
        !overrides.dom().contains(name) && defaults.dom().contains(name) ==> value_of(
            overrides,
            defaults,
            None,
            name,
        ) == Some(defaults[name]),
        !overrides.dom().contains(name) && !defaults.dom().contains(name) ==> value_of(
            overrides,
            defaults,
            None,
            name,
        ) is None,
{
}

} // verus!
