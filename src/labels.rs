use vstd::prelude::*;
use crate::isa::{ARGUMENT_MASK, INSTRUCTION_MASK};

verus! {

/// What a label stands for while a program is assembled.
pub enum Binding {
    /// Not defined yet: the output positions that wait for its address.
    Unresolved(Seq<usize>),
    /// Defined at this address.
    Resolved(u16),
}

/// The state of one label.
pub enum LabelState {
    Unresolved(Vec<usize>),
    Resolved(u16),
}

impl View for LabelState {
    type V = Binding;

    open spec fn view(&self) -> Binding {
        match self {
            LabelState::Unresolved(l) => Binding::Unresolved(l@),
            LabelState::Resolved(a) => Binding::Resolved(*a),
        }
    }
}

/// A label's name and state.
pub struct LabelEntry {
    pub name: String,
    pub state: LabelState,
}

impl View for LabelEntry {
    type V = (Seq<char>, Binding);

    open spec fn view(&self) -> (Seq<char>, Binding) {
        (self.name@, self.state@)
    }
}

/// A non-fatal diagnostic of assembly.
pub enum Warning {
    /// A label defined a second time: at the new address, over the earlier one.
    Redefined { name: String, at: u16, previous: u16 },
    /// A label never defined, with every output position that refers to it.
    Undefined { name: String, sites: Vec<usize> },
}

pub enum WarningView {
    Redefined { name: Seq<char>, at: u16, previous: u16 },
    Undefined { name: Seq<char>, sites: Seq<usize> },
}

impl View for Warning {
    type V = WarningView;

    open spec fn view(&self) -> WarningView {
        match self {
            Warning::Redefined { name, at, previous } => WarningView::Redefined {
                name: name@,
                at: *at,
                previous: *previous,
            },
            Warning::Undefined { name, sites } => WarningView::Undefined {
                name: name@,
                sites: sites@,
            },
        }
    }
}

pub open spec fn warning_view(w: Option<Warning>) -> Option<WarningView> {
    match w {
        Some(x) => Some(x@),
        None => None,
    }
}

/// The labels seen so far, in the order of their first appearance.
pub struct LabelTable {
    pub entries: Vec<LabelEntry>,
}

pub type TableView = Seq<(Seq<char>, Binding)>;

impl View for LabelTable {
    type V = TableView;

    open spec fn view(&self) -> TableView {
        self.entries@.map_values(|e: LabelEntry| e@)
    }
}

pub open spec fn names_unique(t: TableView) -> bool {
    forall|i: int, j: int| 0 <= i < j < t.len() ==> (#[trigger] t[i]).0 != (#[trigger] t[j]).0
}

pub open spec fn has_name(t: TableView, name: Seq<char>) -> bool {
    exists|i: int| 0 <= i < t.len() && t[i].0 == name
}

pub open spec fn index_of(t: TableView, name: Seq<char>) -> int {
    choose|i: int| 0 <= i < t.len() && t[i].0 == name
}

/// Every position waiting for a label lies below `len`.
pub open spec fn sites_below(t: TableView, len: nat) -> bool {
    forall|i: int, k: int|
        0 <= i < t.len() && t[i].1 is Unresolved && 0 <= k < t[i].1->Unresolved_0.len()
            ==> #[trigger] t[i].1->Unresolved_0[k] < len
}

pub open spec fn table_wf(t: TableView, len: nat) -> bool {
    names_unique(t) && sites_below(t, len)
}

/// The value emitted for a use of `name` at output position `site`, and the
/// table after it: an unresolved (or new) label records the site and gives
/// `default`; a resolved one gives its address.
pub open spec fn reference_spec(t: TableView, name: Seq<char>, site: usize, default: u16) -> (
    TableView,
    u16,
) {
    if !has_name(t, name) {
        (t.push((name, Binding::Unresolved(seq![site]))), default)
    } else {
        let i = index_of(t, name);
        match t[i].1 {
            Binding::Unresolved(l) => (t.update(i, (name, Binding::Unresolved(l.push(site)))), default),
            Binding::Resolved(a) => (t, a),
        }
    }
}

/// A waiting word once its label is known to be at `far`: a zero (a data
/// word) becomes `far` whole; any other word keeps its opcode nibble and
/// takes the low twelve bits of `far`.
pub open spec fn patch_word(w: u16, far: u16) -> u16 {
    if w == 0 {
        far
    } else {
        ((w & INSTRUCTION_MASK) | (far & ARGUMENT_MASK)) as u16
    }
}

/// `words` with each of `sites`, in order, patched for address `far`.
pub open spec fn patch_sites(words: Seq<u16>, sites: Seq<usize>, far: u16) -> Seq<u16>
    decreases sites.len(),
{
    if sites.len() == 0 {
        words
    } else {
        let w = patch_sites(words, sites.drop_last(), far);
        let s = sites.last() as int;
        if s < w.len() {
            w.update(s, patch_word(w[s], far))
        } else {
            w
        }
    }
}

/// Table, words and diagnostic after defining `name` at `addr`.
pub open spec fn define_spec(t: TableView, words: Seq<u16>, name: Seq<char>, addr: u16) -> (
    TableView,
    Seq<u16>,
    Option<WarningView>,
) {
    if !has_name(t, name) {
        (t.push((name, Binding::Resolved(addr))), words, None)
    } else {
        let i = index_of(t, name);
        match t[i].1 {
            Binding::Unresolved(l) => (
                t.update(i, (name, Binding::Resolved(addr))),
                patch_sites(words, l, addr),
                None,
            ),
            Binding::Resolved(prev) => (
                t.update(i, (name, Binding::Resolved(addr))),
                words,
                Some(WarningView::Redefined { name, at: addr, previous: prev }),
            ),
        }
    }
}

/// One diagnostic for each label still unresolved, in table order.
pub open spec fn finalize_spec(t: TableView) -> Seq<WarningView>
    decreases t.len(),
{
    if t.len() == 0 {
        Seq::empty()
    } else {
        let rest = finalize_spec(t.drop_last());
        match t.last().1 {
            Binding::Unresolved(l) => rest.push(WarningView::Undefined { name: t.last().0, sites: l }),
            Binding::Resolved(_) => rest,
        }
    }
}

pub proof fn lemma_patch_sites_len(words: Seq<u16>, sites: Seq<usize>, far: u16)
    ensures
        patch_sites(words, sites, far).len() == words.len(),
    decreases sites.len(),
{
    if sites.len() > 0 {
        lemma_patch_sites_len(words, sites.drop_last(), far);
    }
}

fn patch(w: u16, far: u16) -> (r: u16)
    ensures
        r == patch_word(w, far),
{
    if w == 0 {
        far
    } else {
        (w & INSTRUCTION_MASK) | (far & ARGUMENT_MASK)
    }
}

impl LabelTable {
    /// An empty table.
    pub fn new() -> (r: LabelTable)
        ensures
            r@ == Seq::<(Seq<char>, Binding)>::empty(),
    {
        let r = LabelTable { entries: Vec::new() };
        assert(r@ =~= Seq::<(Seq<char>, Binding)>::empty());
        r
    }

    /// The position of the entry named `name`.
    pub fn find(&self, name: &String) -> (r: Option<usize>)
        requires
            names_unique(self@),
        ensures
            r is None <==> !has_name(self@, name@),
            r matches Some(i) ==> i < self@.len() && i == index_of(self@, name@),
    {
        let mut i: usize = 0;
        while i < self.entries.len()
            invariant
                i <= self.entries.len(),
                names_unique(self@),
                forall|j: int| 0 <= j < i ==> self@[j].0 != name@,
            decreases self.entries.len() - i,
        {
            if self.entries[i].name == *name {
                assert(self@[i as int].0 == name@);
                assert(has_name(self@, name@));
                let ghost k = index_of(self@, name@);
                assert(self@[k].0 == name@);
                proof {
                    if k < i {
                        assert(self@[k].0 != self@[i as int].0);
                    } else if k > i {
                        assert(self@[i as int].0 != self@[k].0);
                    }
                }
                return Some(i);
            }
            i = i + 1;
        }
        None
    }

    /// The value to emit for a use of `name` at output position `site`
    /// (see `reference_spec`).
    pub fn label_to_addr(&mut self, name: &String, site: usize, default: u16) -> (r: u16)
        requires
            table_wf(old(self)@, site as nat),
        ensures
            (final(self)@, r) == reference_spec(old(self)@, name@, site, default),
            table_wf(final(self)@, site as nat + 1),
    {
        let ghost t = self@;
        match self.find(name) {
            None => {
                let mut l: Vec<usize> = Vec::new();
                l.push(site);
                self.entries.push(LabelEntry { name: name.clone(), state: LabelState::Unresolved(l) });
                assert(self@ =~= t.push((name@, Binding::Unresolved(seq![site]))));
                default
            },
            Some(i) => {
                let e = self.entries.remove(i);
                assert(t[i as int] == e@);
                match e.state {
                    LabelState::Unresolved(mut l) => {
                        l.push(site);
                        self.entries.insert(i, LabelEntry { name: e.name, state: LabelState::Unresolved(l) });
                        assert(self@ =~= t.update(i as int, (name@, Binding::Unresolved(l@))));
                        default
                    },
                    LabelState::Resolved(a) => {
                        self.entries.insert(i, LabelEntry { name: e.name, state: LabelState::Resolved(a) });
                        assert(self@ =~= t);
                        a
                    },
                }
            },
        }
    }

    /// Binds `name` to `addr`, patching in `words` every position that
    /// waited for it; a second definition is reported and rebinds without
    /// patching.
    pub fn define(&mut self, name: &String, addr: u16, words: &mut Vec<u16>) -> (r: Option<Warning>)
        requires
            table_wf(old(self)@, old(words)@.len()),
        ensures
            (final(self)@, final(words)@, warning_view(r)) == define_spec(
                old(self)@,
                old(words)@,
                name@,
                addr,
            ),
            table_wf(final(self)@, final(words)@.len()),
            final(words)@.len() == old(words)@.len(),
    {
        let ghost t = self@;
        let ghost w0 = words@;
        match self.find(name) {
            None => {
                self.entries.push(LabelEntry { name: name.clone(), state: LabelState::Resolved(addr) });
                assert(self@ =~= t.push((name@, Binding::Resolved(addr))));
                None
            },
            Some(i) => {
                let e = self.entries.remove(i);
                assert(t[i as int] == e@);
                match e.state {
                    LabelState::Unresolved(l) => {
                        assert(t[i as int].1 == Binding::Unresolved(l@));
                        assert forall|j: int| 0 <= j < l@.len() implies l@[j] < w0.len() by {
                            assert(t[i as int].1->Unresolved_0[j] < w0.len());
                        }
                        let mut k: usize = 0;
                        while k < l.len()
                            invariant
                                k <= l.len(),
                                words@ == patch_sites(w0, l@.take(k as int), addr),
                                words@.len() == w0.len(),
                                forall|j: int| 0 <= j < l@.len() ==> l@[j] < w0.len(),
                            decreases l.len() - k,
                        {
                            proof {
                                assert(l@.take(k + 1).drop_last() =~= l@.take(k as int));
                                lemma_patch_sites_len(w0, l@.take(k as int), addr);
                            }
                            let s = l[k];
                            let w = words[s];
                            words.set(s, patch(w, addr));
                            k = k + 1;
                        }
                        assert(l@.take(l.len() as int) =~= l@);
                        self.entries.insert(i, LabelEntry { name: e.name, state: LabelState::Resolved(addr) });
                        assert(self@ =~= t.update(i as int, (name@, Binding::Resolved(addr))));
                        None
                    },
                    LabelState::Resolved(prev) => {
                        self.entries.insert(i, LabelEntry { name: e.name, state: LabelState::Resolved(addr) });
                        assert(self@ =~= t.update(i as int, (name@, Binding::Resolved(addr))));
                        Some(Warning::Redefined { name: name.clone(), at: addr, previous: prev })
                    },
                }
            },
        }
    }
}

} // verus!
