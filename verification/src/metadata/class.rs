//! Classes.
use vstd::prelude::*;

use crate::metadata::signature::Type;

verus! {

/// A field of a class.
#[derive(Clone, Debug)]
pub struct ClassField {
    pub name: String,
    pub ty: Type,
}

/// A class.
#[derive(Clone, Debug)]
pub struct ClassInfo {
    pub name: String,
    pub namespace: String,
    pub fields: Vec<ClassField>,
}

impl ClassInfo {
    /// What tells this class from others: its namespace and its name.
    pub open spec fn key(self) -> (Seq<char>, Seq<char>) {
        (self.namespace@, self.name@)
    }

    /// Whether the field at `i` is the first of that name.
    pub open spec fn is_field(self, name: Seq<char>, i: int) -> bool {
        &&& 0 <= i < self.fields.len()
        &&& self.fields[i].name@ == name
        &&& forall|j: int| 0 <= j < i ==> (#[trigger] self.fields[j]).name@ != name
    }

    /// The index of the first field of that name.
    pub open spec fn field_index(self, name: Seq<char>) -> Option<int> {
        if exists|i: int| self.is_field(name, i) {
            Some(choose|i: int| self.is_field(name, i))
        } else {
            None
        }
    }

    /// The index of the first field of that name.
    pub fn find_field(&self, name: &String) -> (r: Option<usize>)
        ensures
            match r {
                Some(i) => self.is_field(name@, i as int) && self.field_index(name@) == Some(
                    i as int,
                ),
                None => self.field_index(name@) is None,
            },
    {
        let mut i: usize = 0;
        while i < self.fields.len()
            invariant
                i <= self.fields.len(),
                forall|j: int| 0 <= j < i ==> (#[trigger] self.fields[j]).name@ != name@,
            decreases self.fields.len() - i,
        {
            if self.fields[i].name == *name {
                proof {
                    assert(self.is_field(name@, i as int));
                    let c = choose|c: int| self.is_field(name@, c);
                    assert(c == i) by {
                        if c < i {
                            assert(self.fields[c].name@ != name@);
                        } else if i < c {
                            assert(self.fields[i as int].name@ != name@);
                        }
                    }
                }
                return Some(i);
            }
            i = i + 1;
        }
        None
    }
}

} // verus!
