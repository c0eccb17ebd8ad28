//! The field catalogue: distinct field keys, each with its trait annotation.
use vstd::prelude::*;

verus! {

/// One catalogue entry: a normalized field key and the trait annotation
/// last seen for it.
pub struct Field {
    pub name: String,
    pub traits: Option<String>,
}

pub open spec fn opt_view(o: Option<String>) -> Option<Seq<char>> {
    match o {
        Some(s) => Some(s@),
        None => None,
    }
}

/// Field keys with their annotations; no key occurs twice.
pub struct Catalogue {
    entries: Vec<Field>,
}

impl View for Catalogue {
    type V = Map<Seq<char>, Option<Seq<char>>>;

    closed spec fn view(&self) -> Map<Seq<char>, Option<Seq<char>>> {
        Map::new(
            |k: Seq<char>| exists|i: int| 0 <= i < self.entries.len() && self.entries[i].name@ == k,
            |k: Seq<char>|
                {
                    let i = choose|i: int| 0 <= i < self.entries.len() && self.entries[i].name@ == k;
                    opt_view(self.entries[i].traits)
                },
        )
    }
}

impl Catalogue {
    /// No key occurs twice.
    pub closed spec fn wf(&self) -> bool {
        forall|i: int, j: int|
            0 <= i < self.entries.len() && 0 <= j < self.entries.len() && i != j
                ==> self.entries[i].name@ != self.entries[j].name@
    }

    pub fn new() -> (r: Catalogue)
        ensures
            r.wf(),
            r@ == Map::<Seq<char>, Option<Seq<char>>>::empty(),
    {
        let r = Catalogue { entries: Vec::new() };
        assert(r@ =~= Map::<Seq<char>, Option<Seq<char>>>::empty());
        r
    }

    /// The view maps the key of each entry to that entry's annotation.
    proof fn lemma_view_at(&self, i: int)
        requires
            self.wf(),
            0 <= i < self.entries.len(),
        ensures
            self@.contains_key(self.entries[i].name@),
            self@[self.entries[i].name@] == opt_view(self.entries[i].traits),
    {
        let k = self.entries[i].name@;
        assert(0 <= i < self.entries.len() && self.entries[i].name@ == k);
    }

    /// The index of the entry for `name`, if there is one.
    fn position(&self, name: &String) -> (r: Option<usize>)
        ensures
            match r {
                Some(i) => i < self.entries.len() && self.entries[i as int].name@ == name@,
                None => forall|j: int| 0 <= j < self.entries.len() ==> self.entries[j].name@ != name@,
            },
    {
        let mut i: usize = 0;
        while i < self.entries.len()
            invariant
                i <= self.entries.len(),
                forall|j: int| 0 <= j < i ==> self.entries[j].name@ != name@,
            decreases self.entries.len() - i,
        {
            if self.entries[i].name == *name {
                return Some(i);
            }
            i = i + 1;
        }
        None
    }

    /// Records `name` with annotation `traits`, replacing any annotation it had.
    pub fn insert(&mut self, name: String, traits: Option<String>)
        requires
            old(self).wf(),
        ensures
            final(self).wf(),
            final(self)@ == old(self)@.insert(name@, opt_view(traits)),
    {
        let ghost before = *self;
        let ghost key = name@;
        let ghost value = opt_view(traits);
        let ghost mut at: int = 0;
        match self.position(&name) {
            Some(i) => {
                self.entries.set(i, Field { name, traits });
                proof { at = i as int; }
            },
            None => {
                proof { at = self.entries.len() as int; }
                self.entries.push(Field { name, traits });
            },
        }
        assert(self.entries[at].name@ == key);
        assert(self.wf());
        assert forall|k: Seq<char>| #[trigger] self@.contains_key(k) implies before@.insert(key, value).contains_key(k)
            && self@[k] == before@.insert(key, value)[k] by {
            let i = choose|i: int| 0 <= i < self.entries.len() && self.entries[i].name@ == k;
            self.lemma_view_at(i);
            if k != key {
                before.lemma_view_at(i);
            }
        }
        assert forall|k: Seq<char>| #[trigger] before@.insert(key, value).contains_key(k) implies self@.contains_key(k) by {
            if k == key {
                self.lemma_view_at(at);
            } else {
                let i = choose|i: int| 0 <= i < before.entries.len() && before.entries[i].name@ == k;
                self.lemma_view_at(i);
            }
        }
        assert(self@ =~= before@.insert(key, value));
    }

    /// Whether `name` is a key of the catalogue.
    pub fn contains_key(&self, name: &String) -> (r: bool)
        requires
            self.wf(),
        ensures
            r == self@.contains_key(name@),
    {
        match self.position(name) {
            Some(i) => {
                proof { self.lemma_view_at(i as int); }
                true
            },
            None => false,
        }
    }

    /// The annotation recorded for `name`: `None` when `name` is not a key.
    pub fn get(&self, name: &String) -> (r: Option<Option<String>>)
        requires
            self.wf(),
        ensures
            match r {
                Some(t) => self@.contains_key(name@) && self@[name@] == opt_view(t),
                None => !self@.contains_key(name@),
            },
    {
        match self.position(name) {
            Some(i) => {
                proof { self.lemma_view_at(i as int); }
                Some(self.entries[i].traits.clone())
            },
            None => None,
        }
    }

    /// The keys, each once, in order of first appearance.
    pub fn names(&self) -> (r: Vec<String>)
        requires
            self.wf(),
        ensures
            forall|k: Seq<char>| self@.contains_key(k) <==> exists|i: int| 0 <= i < r.len() && (#[trigger] r[i])@ == k,
            forall|i: int, j: int| 0 <= i < r.len() && 0 <= j < r.len() && i != j ==> r[i]@ != r[j]@,
    {
        let mut r: Vec<String> = Vec::new();
        let mut i: usize = 0;
        while i < self.entries.len()
            invariant
                i <= self.entries.len(),
                r.len() == i,
                forall|j: int| 0 <= j < i ==> (#[trigger] r[j])@ == self.entries[j].name@,
            decreases self.entries.len() - i,
        {
            r.push(self.entries[i].name.clone());
            i = i + 1;
        }
        assert forall|k: Seq<char>| self@.contains_key(k) implies exists|i: int| 0 <= i < r.len() && (#[trigger] r[i])@ == k by {
            let i = choose|i: int| 0 <= i < self.entries.len() && self.entries[i].name@ == k;
            assert(r[i]@ == k);
        }
        assert forall|k: Seq<char>| (exists|i: int| 0 <= i < r.len() && (#[trigger] r[i])@ == k) implies self@.contains_key(k) by {
            let i = choose|i: int| 0 <= i < r.len() && (#[trigger] r[i])@ == k;
            self.lemma_view_at(i);
        }
        r
    }
}

} // verus!
