//! Interned strings.
use crate::model::StrId;
use vstd::prelude::*;

verus! {

/// Whether two texts are the same.
pub fn same_text(a: &str, b: &str) -> (r: bool)
    ensures
        r == (a@ == b@),
{
    a.to_owned() == b.to_owned()
}

/// Interned strings, addressed by id.
pub struct StrTable {
    pub text: Vec<String>,
}

impl Default for StrTable {
    fn default() -> (r: StrTable)
        ensures
            r.text@.len() == 0,
    {
        StrTable { text: Vec::new() }
    }
}

impl StrTable {
    pub open spec fn has(&self, id: StrId) -> bool {
        id.0 < self.text@.len()
    }

    /// The text of an id.
    pub open spec fn text_of(&self, id: StrId) -> Seq<char> {
        self.text@[id.0 as int]@
    }

    /// Row `k` is the first one holding a text.
    pub open spec fn first(&self, name: Seq<char>, k: int) -> bool {
        &&& 0 <= k < self.text@.len()
        &&& self.text@[k]@ == name
        &&& forall|j: int| 0 <= j < k ==> (#[trigger] self.text@[j])@ != name
    }

    /// The id of a text, where it has been interned.
    pub open spec fn id_of(&self, name: Seq<char>) -> Option<StrId> {
        if exists|k: int| self.first(name, k) {
            Some(StrId((choose|k: int| self.first(name, k)) as u32))
        } else {
            None
        }
    }

    /// The text of an id.
    pub fn resolve(&self, id: StrId) -> (r: &str)
        requires
            self.has(id),
        ensures
            r@ == self.text_of(id),
    {
        self.text[id.0 as usize].as_str()
    }

    /// The id of a text, where it has been interned.
    pub fn get(&self, name: &str) -> (r: Option<StrId>)
        requires
            self.text@.len() <= 0xFFFF_FFFF,
        ensures
            r == self.id_of(name@),
    {
        let mut k: usize = 0;
        while k < self.text.len()
            invariant
                self.text@.len() <= 0xFFFF_FFFF,
                k <= self.text@.len(),
                forall|j: int| 0 <= j < k ==> (#[trigger] self.text@[j])@ != name@,
            decreases self.text@.len() - k,
        {
            if same_text(self.text[k].as_str(), name) {
                proof {
                    assert(self.first(name@, k as int));
                    let c = choose|c: int| self.first(name@, c);
                    assert(self.first(name@, c));
                    assert(c == k);
                }
                return Some(StrId(k as u32));
            }
            k = k + 1;
        }
        None
    }

    /// The id of a text, interning it where it is new.
    pub fn intern(&mut self, name: &str) -> (id: StrId)
        requires
            old(self).text@.len() < 0xFFFF_FFFF,
        ensures
            final(self).has(id),
            final(self).text_of(id) == name@,
            old(self).id_of(name@) is Some ==> *final(self) == *old(self) && id == old(self).id_of(
                name@,
            )->0,
            old(self).id_of(name@) is None ==> id.0 == old(self).text@.len()
                && final(self).text@.len() == old(self).text@.len() + 1 && forall|k: int|
                0 <= k < old(self).text@.len() ==> #[trigger] final(self).text@[k] == old(
                    self,
                ).text@[k],
    {
        match self.get(name) {
            Some(id) => {
                assert(exists|k: int| self.first(name@, k));
                id
            },
            None => {
                let id = StrId(self.text.len() as u32);
                self.text.push(name.to_owned());
                id
            },
        }
    }
}

} // verus!
