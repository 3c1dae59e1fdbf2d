//! The CSS module exports that a scoped stylesheet declares, in a form the
//! library can reason about: each original name with its scoped name and the
//! names it composes, ordered by original name.

use vstd::prelude::*;
use crate::text::{text_less, text_lt, text_eq, lemma_text_less_irreflexive, lemma_text_less_total, lemma_text_less_transitive};

verus! {

/// A name that an export composes.
#[derive(Debug)]
pub enum Reference {
    /// Another export of the same module, by its scoped name.
    Local { name: String },
    /// A global class name, kept as written.
    Global { name: String },
    /// An export of another file.
    Dependency { name: String, specifier: String },
}

pub enum ReferenceView {
    Local(Seq<char>),
    Global(Seq<char>),
    Dependency(Seq<char>, Seq<char>),
}

impl View for Reference {
    type V = ReferenceView;

    open spec fn view(&self) -> ReferenceView {
        match self {
            Reference::Local { name } => ReferenceView::Local(name@),
            Reference::Global { name } => ReferenceView::Global(name@),
            Reference::Dependency { name, specifier } => ReferenceView::Dependency(
                name@,
                specifier@,
            ),
        }
    }
}

/// One export: its scoped name and what it composes, in declaration order.
#[derive(Debug)]
pub struct Export {
    pub name: String,
    pub composes: Vec<Reference>,
}

pub struct ExportView {
    pub name: Seq<char>,
    pub composes: Seq<ReferenceView>,
}

impl View for Export {
    type V = ExportView;

    open spec fn view(&self) -> ExportView {
        ExportView { name: self.name@, composes: self.composes@.map_values(|r: Reference| r@) }
    }
}

pub type EntryView = (Seq<char>, ExportView);

/// Keys in strictly increasing order, hence distinct.
pub open spec fn keys_sorted(s: Seq<EntryView>) -> bool {
    forall|i: int, j: int| 0 <= i < j < s.len() ==> text_less(#[trigger] s[i].0, #[trigger] s[j].0)
}

/// All exports of one CSS module, keyed by original name, in key order.
#[derive(Debug)]
pub struct Exports {
    entries: Vec<(String, Export)>,
}

impl View for Exports {
    type V = Seq<EntryView>;

    closed spec fn view(&self) -> Seq<EntryView> {
        self.entries@.map_values(|e: (String, Export)| (e.0@, e.1@))
    }
}

impl Exports {
    pub closed spec fn wf(&self) -> bool {
        keys_sorted(self@)
    }

    pub fn new() -> (r: Exports)
        ensures
            r.wf(),
            r@ == Seq::<EntryView>::empty(),
    {
        let r = Exports { entries: Vec::new() };
        assert(r@ =~= Seq::<EntryView>::empty());
        r
    }

    pub fn len(&self) -> (n: usize)
        ensures
            n == self@.len(),
    {
        self.entries.len()
    }

    /// Original name and export at a position in key order.
    pub fn entry(&self, i: usize) -> (r: (&String, &Export))
        requires
            i < self@.len(),
        ensures
            r.0@ == self@[i as int].0,
            r.1@ == self@[i as int].1,
    {
        (&self.entries[i].0, &self.entries[i].1)
    }

    /// Adds or replaces the export of an original name, as a map does.
    pub fn insert(&mut self, key: String, export: Export)
        requires
            old(self).wf(),
        ensures
            final(self).wf(),
            final(self)@.contains((key@, export@)),
            forall|e: EntryView|
                e.0 != key@ ==> (final(self)@.contains(e) <==> old(self)@.contains(e)),
            forall|e: EntryView| #[trigger] final(self)@.contains(e) && e.0 == key@ ==> e == (key@, export@),
    {
        let ghost old_view = self@;
        let mut i: usize = 0;
        while i < self.entries.len() && text_lt(self.entries[i].0.as_str(), key.as_str())
            invariant
                i <= self.entries.len(),
                self@ == old_view,
                keys_sorted(old_view),
                forall|j: int| 0 <= j < i ==> text_less(#[trigger] old_view[j].0, key@),
            decreases self.entries.len() - i,
        {
            i += 1;
        }
        proof {
            if i < old_view.len() {
                assert(!text_less(old_view[i as int].0, key@));
            }
        }
        let ghost kv = key@;
        let ghost ev = export@;
        if i < self.entries.len() && text_eq(self.entries[i].0.as_str(), key.as_str()) {
            self.entries.set(i, (key, export));
            proof {
                assert(self@ =~= old_view.update(i as int, (kv, ev)));
                assert(self@[i as int] == (kv, ev));
                assert forall|e: EntryView| e.0 != kv implies (self@.contains(e) <==> old_view.contains(e)) by {
                    if self@.contains(e) {
                        let j = choose|j: int| 0 <= j < self@.len() && self@[j] == e;
                        assert(old_view[j] == e);
                    }
                    if old_view.contains(e) {
                        let j = choose|j: int| 0 <= j < old_view.len() && old_view[j] == e;
                        assert(self@[j] == e);
                    }
                }
                assert forall|e: EntryView| #[trigger] self@.contains(e) && e.0 == kv implies e == (kv, ev) by {
                    let j = choose|j: int| 0 <= j < self@.len() && self@[j] == e;
                    if j != i {
                        if j < i {
                            assert(text_less(old_view[j].0, kv));
                        } else {
                            assert(text_less(old_view[i as int].0, old_view[j].0));
                        }
                        lemma_text_less_irreflexive(kv);
                    }
                }
            }
        } else {
            self.entries.insert(i, (key, export));
            proof {
                assert(self@ =~= old_view.insert(i as int, (kv, ev)));
                if i < old_view.len() {
                    lemma_text_less_total(old_view[i as int].0, kv);
                    assert(text_less(kv, old_view[i as int].0));
                }
                assert forall|a: int, b: int| 0 <= a < b < self@.len() implies text_less(
                    #[trigger] self@[a].0,
                    #[trigger] self@[b].0,
                ) by {
                    if b == i {
                        assert(self@[a] == old_view[a]);
                    } else if a == i {
                        assert(self@[b] == old_view[b - 1]);
                        if b - 1 > i {
                            lemma_text_less_transitive(kv, old_view[i as int].0, old_view[b - 1].0);
                        }
                    } else if a < i {
                        if b < i {
                            assert(self@[b] == old_view[b]);
                        } else {
                            assert(self@[b] == old_view[b - 1]);
                        }
                    } else {
                        assert(self@[a] == old_view[a - 1]);
                        assert(self@[b] == old_view[b - 1]);
                    }
                }
                assert(self@[i as int] == (kv, ev));
                assert forall|e: EntryView| e.0 != kv implies (self@.contains(e) <==> old_view.contains(e)) by {
                    if self@.contains(e) {
                        let j = choose|j: int| 0 <= j < self@.len() && self@[j] == e;
                        if j < i {
                            assert(old_view[j] == e);
                        } else {
                            assert(old_view[j - 1] == e);
                        }
                    }
                    if old_view.contains(e) {
                        let j = choose|j: int| 0 <= j < old_view.len() && old_view[j] == e;
                        if j < i {
                            assert(self@[j] == e);
                        } else {
                            assert(self@[j + 1] == e);
                        }
                    }
                }
                assert forall|e: EntryView| #[trigger] self@.contains(e) && e.0 == kv implies e == (kv, ev) by {
                    let j = choose|j: int| 0 <= j < self@.len() && self@[j] == e;
                    if j != i {
                        lemma_text_less_irreflexive(kv);
                        if j < i {
                            assert(self@[j] == old_view[j]);
                        } else {
                            assert(self@[j] == old_view[j - 1]);
                            if j - 1 > i {
                                lemma_text_less_transitive(kv, old_view[i as int].0, old_view[j - 1].0);
                            }
                        }
                    }
                }
            }
        }
    }
}

} // verus!
