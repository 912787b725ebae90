//! The parsed data: a section maps keys to values, a document maps section
//! names to sections. Both keep their entries in a vector with unique keys.
use vstd::prelude::*;

verus! {

/// The map that a list of entries stands for: each entry inserted in turn,
/// so a later entry wins over an earlier one with the same key.
pub open spec fn map_of<V>(es: Seq<(Seq<char>, V)>) -> Map<Seq<char>, V>
    decreases es.len(),
{
    if es.len() == 0 {
        Map::empty()
    } else {
        map_of(es.drop_last()).insert(es.last().0, es.last().1)
    }
}

pub open spec fn keys_unique<V>(es: Seq<(Seq<char>, V)>) -> bool {
    forall|i: int, j: int| 0 <= i < j < es.len() ==> es[i].0 != es[j].0
}

pub proof fn lemma_map_of_dom<V>(es: Seq<(Seq<char>, V)>, k: Seq<char>)
    ensures
        map_of(es).contains_key(k) <==> exists|i: int| 0 <= i < es.len() && es[i].0 == k,
    decreases es.len(),
{
    if es.len() > 0 {
        lemma_map_of_dom(es.drop_last(), k);
        if map_of(es.drop_last()).contains_key(k) {
            let i = choose|i: int| 0 <= i < es.len() - 1 && es.drop_last()[i].0 == k;
            assert(es[i].0 == k);
        }
        if exists|i: int| 0 <= i < es.len() && es[i].0 == k {
            let i = choose|i: int| 0 <= i < es.len() && es[i].0 == k;
            if i < es.len() - 1 {
                assert(es.drop_last()[i].0 == k);
            }
        }
    }
}

pub proof fn lemma_map_of_value<V>(es: Seq<(Seq<char>, V)>, i: int)
    requires
        keys_unique(es),
        0 <= i < es.len(),
    ensures
        map_of(es).contains_key(es[i].0),
        map_of(es)[es[i].0] == es[i].1,
    decreases es.len(),
{
    if i < es.len() - 1 {
        lemma_map_of_value(es.drop_last(), i);
    }
}

pub proof fn lemma_map_of_finite_len<V>(es: Seq<(Seq<char>, V)>)
    requires
        keys_unique(es),
    ensures
        map_of(es).dom().finite(),
        map_of(es).dom().len() == es.len(),
    decreases es.len(),
{
    if es.len() > 0 {
        let rest = es.drop_last();
        lemma_map_of_finite_len(rest);
        lemma_map_of_dom(rest, es.last().0);
        assert(!map_of(rest).contains_key(es.last().0));
    }
}

/// Replacing the value of an entry whose key is present.
pub proof fn lemma_map_of_update<V>(es: Seq<(Seq<char>, V)>, i: int, v: V)
    requires
        keys_unique(es),
        0 <= i < es.len(),
    ensures
        keys_unique(es.update(i, (es[i].0, v))),
        map_of(es.update(i, (es[i].0, v))) == map_of(es).insert(es[i].0, v),
{
    let k = es[i].0;
    let es2 = es.update(i, (k, v));
    assert forall|q: Seq<char>| #[trigger] map_of(es2).contains_key(q) <==> map_of(es).insert(k, v).contains_key(q) by {
        lemma_map_of_dom(es, q);
        lemma_map_of_dom(es2, q);
        if exists|j: int| 0 <= j < es.len() && es[j].0 == q {
            let j = choose|j: int| 0 <= j < es.len() && es[j].0 == q;
            assert(es2[j].0 == q);
        }
        if exists|j: int| 0 <= j < es2.len() && es2[j].0 == q {
            let j = choose|j: int| 0 <= j < es2.len() && es2[j].0 == q;
            assert(es[j].0 == q);
        }
    }
    assert forall|q: Seq<char>| #[trigger] map_of(es2).contains_key(q) implies map_of(es2)[q] == map_of(es).insert(k, v)[q] by {
        lemma_map_of_dom(es2, q);
        let j = choose|j: int| 0 <= j < es2.len() && es2[j].0 == q;
        lemma_map_of_value(es2, j);
        if j != i {
            lemma_map_of_value(es, j);
        }
    }
    assert(map_of(es2) =~= map_of(es).insert(k, v));
}

/// Appending an entry whose key is new.
pub proof fn lemma_map_of_push<V>(es: Seq<(Seq<char>, V)>, k: Seq<char>, v: V)
    requires
        keys_unique(es),
        !map_of(es).contains_key(k),
    ensures
        keys_unique(es.push((k, v))),
        map_of(es.push((k, v))) == map_of(es).insert(k, v),
{
    assert(es.push((k, v)).drop_last() =~= es);
    assert forall|i: int| 0 <= i < es.len() implies es[i].0 != k by {
        lemma_map_of_dom(es, k);
    }
}

/// The attributes of one section: a map from key to value.
#[derive(Clone, Debug)]
pub struct Section {
    entries: Vec<(String, String)>,
}

pub open spec fn section_pairs(es: Seq<(String, String)>) -> Seq<(Seq<char>, Seq<char>)> {
    es.map_values(|p: (String, String)| (p.0@, p.1@))
}

impl View for Section {
    type V = Map<Seq<char>, Seq<char>>;

    closed spec fn view(&self) -> Map<Seq<char>, Seq<char>> {
        map_of(section_pairs(self.entries@))
    }
}

impl Section {
    pub closed spec fn wf(&self) -> bool {
        keys_unique(section_pairs(self.entries@))
    }

    pub fn new() -> (r: Section)
        ensures
            r.wf(),
            r@ == Map::<Seq<char>, Seq<char>>::empty(),
    {
        let r = Section { entries: Vec::new() };
        assert(section_pairs(r.entries@) =~= Seq::empty());
        r
    }

    /// Sets `key` to `value`, replacing any earlier value of `key`.
    pub fn insert(&mut self, key: String, value: String)
        requires
            old(self).wf(),
        ensures
            final(self).wf(),
            final(self)@ == old(self)@.insert(key@, value@),
    {
        let ghost es = section_pairs(self.entries@);
        let ghost before = self@;
        let mut i: usize = 0;
        while i < self.entries.len()
            invariant
                i <= self.entries.len(),
                es == section_pairs(self.entries@),
                before == old(self)@,
                before == map_of(es),
                keys_unique(es),
                forall|j: int| 0 <= j < i ==> es[j].0 != key@,
            decreases self.entries.len() - i,
        {
            if self.entries[i].0 == key {
                assert(es[i as int].0 == key@);
                proof {
                    lemma_map_of_update(es, i as int, value@);
                }
                self.entries[i] = (key, value);
                assert(section_pairs(self.entries@) =~= es.update(i as int, (es[i as int].0, value@)));
                assert(self@ == map_of(es).insert(key@, value@));
                return;
            }
            assert(es[i as int].0 == self.entries@[i as int].0@);
            i = i + 1;
        }
        proof {
            lemma_map_of_dom(es, key@);
            lemma_map_of_push(es, key@, value@);
        }
        self.entries.push((key, value));
        assert(section_pairs(self.entries@) =~= es.push((key@, value@)));
    }

    /// The value of `key`, if the section has one.
    pub fn get(&self, key: &str) -> (r: Option<&String>)
        requires
            self.wf(),
        ensures
            match r {
                Some(v) => self@.contains_key(key@) && self@[key@] == v@,
                None => !self@.contains_key(key@),
            },
    {
        let ghost es = section_pairs(self.entries@);
        let k = String::from_str(key);
        let mut i: usize = 0;
        while i < self.entries.len()
            invariant
                i <= self.entries.len(),
                es == section_pairs(self.entries@),
                keys_unique(es),
                k@ == key@,
                forall|j: int| 0 <= j < i ==> es[j].0 != key@,
            decreases self.entries.len() - i,
        {
            if self.entries[i].0 == k {
                assert(es[i as int].0 == key@);
                proof {
                    lemma_map_of_value(es, i as int);
                }
                return Some(&self.entries[i].1);
            }
            assert(es[i as int].0 == self.entries@[i as int].0@);
            i = i + 1;
        }
        proof {
            lemma_map_of_dom(es, key@);
        }
        None
    }

    /// The number of keys.
    pub fn len(&self) -> (r: usize)
        requires
            self.wf(),
        ensures
            r == self@.len(),
    {
        proof {
            lemma_map_of_finite_len(section_pairs(self.entries@));
        }
        self.entries.len()
    }

    /// The key/value pairs, each key once.
    pub fn entries(&self) -> (r: Vec<(String, String)>)
        requires
            self.wf(),
        ensures
            keys_unique(section_pairs(r@)),
            map_of(section_pairs(r@)) == self@,
    {
        let mut r: Vec<(String, String)> = Vec::new();
        let mut i: usize = 0;
        while i < self.entries.len()
            invariant
                i <= self.entries.len(),
                r.len() == i,
                forall|j: int| 0 <= j < i ==> (#[trigger] r@[j]).0@ == self.entries@[j].0@ && r@[j].1@
                    == self.entries@[j].1@,
            decreases self.entries.len() - i,
        {
            let k = self.entries[i].0.clone();
            let v = self.entries[i].1.clone();
            r.push((k, v));
            i = i + 1;
        }
        assert(section_pairs(r@) =~= section_pairs(self.entries@));
        r
    }
}

/// A parsed document: a map from section name to section.
#[derive(Clone, Debug)]
pub struct Document {
    sections: Vec<(String, Section)>,
}

pub open spec fn document_pairs(es: Seq<(String, Section)>) -> Seq<(Seq<char>, Map<Seq<char>, Seq<char>>)> {
    es.map_values(|p: (String, Section)| (p.0@, p.1@))
}

impl View for Document {
    type V = Map<Seq<char>, Map<Seq<char>, Seq<char>>>;

    closed spec fn view(&self) -> Map<Seq<char>, Map<Seq<char>, Seq<char>>> {
        map_of(document_pairs(self.sections@))
    }
}

impl Document {
    pub closed spec fn wf(&self) -> bool {
        &&& keys_unique(document_pairs(self.sections@))
        &&& forall|i: int| 0 <= i < self.sections@.len() ==> (#[trigger] self.sections@[i]).1.wf()
    }

    pub fn new() -> (r: Document)
        ensures
            r.wf(),
            r@ == Map::<Seq<char>, Map<Seq<char>, Seq<char>>>::empty(),
    {
        let r = Document { sections: Vec::new() };
        assert(document_pairs(r.sections@) =~= Seq::empty());
        r
    }

    /// Sets section `name` to `section`, replacing any earlier one of that name.
    pub fn insert(&mut self, name: String, section: Section)
        requires
            old(self).wf(),
            section.wf(),
        ensures
            final(self).wf(),
            final(self)@ == old(self)@.insert(name@, section@),
    {
        let ghost es = document_pairs(self.sections@);
        let ghost before = self@;
        let mut i: usize = 0;
        while i < self.sections.len()
            invariant
                i <= self.sections.len(),
                es == document_pairs(self.sections@),
                before == old(self)@,
                before == map_of(es),
                keys_unique(es),
                self.wf(),
                section.wf(),
                forall|j: int| 0 <= j < i ==> es[j].0 != name@,
            decreases self.sections.len() - i,
        {
            if self.sections[i].0 == name {
                assert(es[i as int].0 == name@);
                proof {
                    lemma_map_of_update(es, i as int, section@);
                }
                self.sections[i] = (name, section);
                assert(document_pairs(self.sections@) =~= es.update(i as int, (es[i as int].0, section@)));
                assert(forall|j: int| 0 <= j < self.sections@.len() ==> (#[trigger] self.sections@[j]).1.wf());
                return;
            }
            assert(es[i as int].0 == self.sections@[i as int].0@);
            i = i + 1;
        }
        proof {
            lemma_map_of_dom(es, name@);
            lemma_map_of_push(es, name@, section@);
        }
        self.sections.push((name, section));
        assert(document_pairs(self.sections@) =~= es.push((name@, section@)));
    }

    /// The section named `name`, if the document has one.
    pub fn get(&self, name: &str) -> (r: Option<&Section>)
        requires
            self.wf(),
        ensures
            match r {
                Some(s) => self@.contains_key(name@) && self@[name@] == s@ && s.wf(),
                None => !self@.contains_key(name@),
            },
    {
        let ghost es = document_pairs(self.sections@);
        let k = String::from_str(name);
        let mut i: usize = 0;
        while i < self.sections.len()
            invariant
                i <= self.sections.len(),
                es == document_pairs(self.sections@),
                keys_unique(es),
                self.wf(),
                k@ == name@,
                forall|j: int| 0 <= j < i ==> es[j].0 != name@,
            decreases self.sections.len() - i,
        {
            if self.sections[i].0 == k {
                assert(es[i as int].0 == name@);
                proof {
                    lemma_map_of_value(es, i as int);
                }
                return Some(&self.sections[i].1);
            }
            assert(es[i as int].0 == self.sections@[i as int].0@);
            i = i + 1;
        }
        proof {
            lemma_map_of_dom(es, name@);
        }
        None
    }

    /// The section names, each once.
    pub fn names(&self) -> (r: Vec<String>)
        requires
            self.wf(),
        ensures
            r.len() == self@.len(),
            forall|i: int, j: int| 0 <= i < j < r.len() ==> r@[i]@ != r@[j]@,
            forall|k: Seq<char>| self@.contains_key(k) <==> exists|i: int| 0 <= i < r.len() && r@[i]@ == k,
    {
        let ghost es = document_pairs(self.sections@);
        proof {
            lemma_map_of_finite_len(es);
        }
        let mut r: Vec<String> = Vec::new();
        let mut i: usize = 0;
        while i < self.sections.len()
            invariant
                i <= self.sections.len(),
                es == document_pairs(self.sections@),
                r.len() == i,
                forall|j: int| 0 <= j < i ==> #[trigger] r@[j]@ == es[j].0,
            decreases self.sections.len() - i,
        {
            r.push(self.sections[i].0.clone());
            i = i + 1;
        }
        assert forall|k: Seq<char>| self@.contains_key(k) <==> exists|i: int| 0 <= i < r.len() && r@[i]@ == k by {
            lemma_map_of_dom(es, k);
            if exists|i: int| 0 <= i < r.len() && r@[i]@ == k {
                let i = choose|i: int| 0 <= i < r.len() && r@[i]@ == k;
                assert(es[i].0 == k);
            }
            if exists|i: int| 0 <= i < es.len() && es[i].0 == k {
                let i = choose|i: int| 0 <= i < es.len() && es[i].0 == k;
                assert(r@[i]@ == k);
            }
        }
        r
    }

    /// The number of sections.
    pub fn len(&self) -> (r: usize)
        requires
            self.wf(),
        ensures
            r == self@.len(),
    {
        proof {
            lemma_map_of_finite_len(document_pairs(self.sections@));
        }
        self.sections.len()
    }
}

} // verus!
