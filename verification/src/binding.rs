//! The values bound to variable names during one render operation.

use vstd::prelude::*;

verus! {

/// Whether some entry of `names` reads `key`.
spec fn has_name(names: Seq<String>, key: Seq<char>) -> bool {
    exists|i: int| 0 <= i < names.len() && (#[trigger] names[i])@ == key
}

/// An index at which `names` reads `key`, where there is one.
spec fn slot_of(names: Seq<String>, key: Seq<char>) -> int {
    choose|i: int| 0 <= i < names.len() && (#[trigger] names[i])@ == key
}

/// No two entries of `names` read the same.
spec fn distinct_names(names: Seq<String>) -> bool {
    forall|i: int, j: int|
        0 <= i < j < names.len() ==> (#[trigger] names[i])@ != (#[trigger] names[j])@
}

/// A mapping from variable names to values. Each name is bound at most once;
/// binding a name again replaces its value.
pub struct ValueBinding {
    names: Vec<String>,
    values: Vec<String>,
}

impl View for ValueBinding {
    type V = Map<Seq<char>, Seq<char>>;

    closed spec fn view(&self) -> Map<Seq<char>, Seq<char>> {
        Map::new(
            |key: Seq<char>| has_name(self.names@, key),
            |key: Seq<char>| self.values@[slot_of(self.names@, key)]@,
        )
    }
}

impl ValueBinding {
    /// The invariant of the type: what [`ValueBinding::new`] establishes and
    /// every method keeps.
    pub closed spec fn wf(&self) -> bool {
        &&& self.names@.len() == self.values@.len()
        &&& distinct_names(self.names@)
    }

    /// The binding that binds nothing.
    pub fn new() -> (binding: ValueBinding)
        ensures
            binding.wf(),
            binding@ == Map::<Seq<char>, Seq<char>>::empty(),
    {
        let binding = ValueBinding { names: Vec::new(), values: Vec::new() };
        assert(binding@ =~= Map::<Seq<char>, Seq<char>>::empty());
        binding
    }

    /// The index of the entry for `name`, if it is bound.
    fn find(&self, name: &String) -> (found: Option<usize>)
        requires
            self.wf(),
        ensures
            match found {
                Some(i) => i < self.names@.len() && self.names@[i as int]@ == name@ && slot_of(
                    self.names@,
                    name@,
                ) == i,
                None => !has_name(self.names@, name@),
            },
    {
        let mut i: usize = 0;
        while i < self.names.len()
            invariant
                i <= self.names@.len(),
                self.wf(),
                forall|j: int| 0 <= j < i ==> (#[trigger] self.names@[j])@ != name@,
            decreases self.names.len() - i,
        {
            if self.names[i] == *name {
                proof {
                    let k = slot_of(self.names@, name@);
                    assert(self.names@[i as int]@ == name@);
                    assert(k == i);
                }
                return Some(i);
            }
            i += 1;
        }
        None
    }

    /// Whether `name` is bound.
    pub fn contains(&self, name: &str) -> (b: bool)
        requires
            self.wf(),
        ensures
            b == self@.contains_key(name@),
    {
        self.find(&name.to_owned()).is_some()
    }

    /// The value bound to `name`, if it is bound.
    pub fn get(&self, name: &str) -> (value: Option<&String>)
        requires
            self.wf(),
        ensures
            match value {
                Some(v) => self@.contains_key(name@) && v@ == self@[name@],
                None => !self@.contains_key(name@),
            },
    {
        match self.find(&name.to_owned()) {
            Some(i) => Some(&self.values[i]),
            None => None,
        }
    }

    /// Binds `name` to `value`, in place of any value it had.
    pub fn bind(&mut self, name: String, value: String)
        requires
            old(self).wf(),
        ensures
            final(self).wf(),
            final(self)@ == old(self)@.insert(name@, value@),
    {
        let ghost before = *self;
        match self.find(&name) {
            Some(i) => {
                self.values.set(i, value);
                proof {
                    assert forall|key: Seq<char>| #[trigger]
                        self@.contains_key(key) implies self@[key] == before@.insert(
                        name@,
                        value@,
                    )[key] by {
                        let k = slot_of(self.names@, key);
                        assert(self.names@[k]@ == key);
                    }
                    assert(self@ =~= before@.insert(name@, value@));
                }
            },
            None => {
                self.names.push(name);
                self.values.push(value);
                proof {
                    let n = before.names@.len() as int;
                    assert(self.names@[n]@ == name@);
                    assert forall|key: Seq<char>|
                        has_name(self.names@, key) <==> (has_name(before.names@, key) || key
                            == name@) by {
                        if has_name(self.names@, key) {
                            let k = slot_of(self.names@, key);
                            if k < n {
                                assert(before.names@[k]@ == key);
                            }
                        }
                        if has_name(before.names@, key) {
                            let k = slot_of(before.names@, key);
                            assert(self.names@[k]@ == key);
                        }
                    }
                    assert forall|key: Seq<char>| #[trigger]
                        self@.contains_key(key) implies self@[key] == before@.insert(
                        name@,
                        value@,
                    )[key] by {
                        let k = slot_of(self.names@, key);
                        assert(self.names@[k]@ == key);
                        if key != name@ {
                            let m = slot_of(before.names@, key);
                            assert(before.names@[m]@ == key);
                            assert(self.names@[m]@ == key);
                            assert(k == m);
                        } else {
                            assert(k == n);
                        }
                    }
                    assert(self@ =~= before@.insert(name@, value@));
                }
            },
        }
    }

    /// Whether every name of `names` is bound.
    pub fn covers(&self, names: &Vec<String>) -> (b: bool)
        requires
            self.wf(),
        ensures
            b == (forall|i: int| 0 <= i < names@.len() ==> self@.contains_key((#[trigger] names@[i])@)),
    {
        let mut i: usize = 0;
        while i < names.len()
            invariant
                i <= names@.len(),
                self.wf(),
                forall|j: int| 0 <= j < i ==> self@.contains_key((#[trigger] names@[j])@),
            decreases names.len() - i,
        {
            if !self.contains(names[i].as_str()) {
                return false;
            }
            i += 1;
        }
        true
    }
}

} // verus!
