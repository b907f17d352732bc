use vstd::prelude::*;
use crate::assembler::{assemble_spec, here, run_spec, step_spec, AsmState, Item};
use crate::isa::{encode, ARGUMENT_MASK};
use crate::labels::{
    define_spec, finalize_spec, has_name, index_of, patch_sites, patch_word, reference_spec,
    table_wf, Binding, TableView, WarningView,
};

verus! {

/// Whether an item puts a word into the output.
pub open spec fn emits(item: Item) -> bool {
    item is InstructionWithArg || item is InstructionNoArg || item is Literal
}

/// The number of word-emitting items from position `i` up to the end marker.
pub open spec fn emitted_from(items: Seq<Item>, i: int) -> nat
    decreases items.len() - i,
{
    if i < 0 || i >= items.len() || items[i] is EndOfInput {
        0
    } else {
        (if emits(items[i]) {
            1nat
        } else {
            0nat
        }) + emitted_from(items, i + 1)
    }
}

proof fn lemma_patch_sites_other(words: Seq<u16>, sites: Seq<usize>, far: u16, s: int)
    requires
        !sites.contains(s as usize) || s < 0,
    ensures
        0 <= s < words.len() ==> patch_sites(words, sites, far)[s] == words[s],
    decreases sites.len(),
{
    if sites.len() > 0 {
        assert(!sites.drop_last().contains(s as usize) || s < 0) by {
            if s >= 0 && sites.drop_last().contains(s as usize) {
                let k = choose|k: int| 0 <= k < sites.drop_last().len() && sites.drop_last()[k] == s as usize;
                assert(sites[k] == s as usize);
            }
        }
        lemma_patch_sites_other(words, sites.drop_last(), far, s);
        crate::labels::lemma_patch_sites_len(words, sites.drop_last(), far);
        if s >= 0 {
            assert(sites[sites.len() - 1] != s as usize);
        }
    }
}

proof fn lemma_define_len(t: TableView, words: Seq<u16>, name: Seq<char>, addr: u16)
    ensures
        define_spec(t, words, name, addr).1.len() == words.len(),
{
    if has_name(t, name) {
        match t[index_of(t, name)].1 {
            Binding::Unresolved(l) => crate::labels::lemma_patch_sites_len(words, l, addr),
            Binding::Resolved(_) => {},
        }
    }
}

proof fn lemma_run_length(st: AsmState, items: Seq<Item>, i: int)
    ensures
        run_spec(st, items, i) matches Ok(f) ==> f.words.len() == st.words.len() + emitted_from(
            items,
            i,
        ),
    decreases items.len() - i,
{
    if !(i < 0 || i >= items.len() || items[i] is EndOfInput) {
        let item = items[i];
        match step_spec(st, item, i as usize) {
            Ok(next) => {
                lemma_run_length(next, items, i + 1);
                if let Item::LabelDef(n) = item {
                    lemma_define_len(st.table, st.words, n@, here(st));
                }
            },
            Err(_) => {},
        }
    }
}

/// A successful assembly emits exactly one word for each instruction and
/// literal before the end marker, whatever labels the program uses.
pub proof fn law_output_length(items: Seq<Item>)
    ensures
        assemble_spec(items) matches Ok((words, _)) ==> words.len() == emitted_from(items, 0),
{
    lemma_run_length(AsmState { table: Seq::empty(), words: Seq::empty(), warnings: Seq::empty() }, items, 0);
}

/// The sites waiting in entry `i` of a table.
pub open spec fn pending(t: TableView, i: int) -> Seq<usize> {
    t[i].1->Unresolved_0
}

/// No output position waits twice, in one label or in two.
pub open spec fn pending_distinct(t: TableView) -> bool {
    forall|i: int, x: int, j: int, y: int|
        0 <= i < t.len() && 0 <= j < t.len() && t[i].1 is Unresolved && t[j].1 is Unresolved && 0
            <= x < pending(t, i).len() && 0 <= y < pending(t, j).len() && (i != j || x != y)
            ==> #[trigger] pending(t, i)[x] != #[trigger] pending(t, j)[y]
}

proof fn lemma_patch_sites_listed(words: Seq<u16>, sites: Seq<usize>, far: u16, x: int)
    requires
        0 <= x < sites.len(),
        forall|a: int, b: int| 0 <= a < b < sites.len() ==> sites[a] != sites[b],
        forall|a: int| 0 <= a < sites.len() ==> sites[a] < words.len(),
    ensures
        patch_sites(words, sites, far)[sites[x] as int] == patch_word(words[sites[x] as int], far),
    decreases sites.len(),
{
    let prev = sites.drop_last();
    let s = sites.last();
    crate::labels::lemma_patch_sites_len(words, prev, far);
    if x == sites.len() - 1 {
        assert(!prev.contains(s)) by {
            if prev.contains(s) {
                let k = choose|k: int| 0 <= k < prev.len() && prev[k] == s;
                assert(sites[k] == sites[sites.len() - 1]);
            }
        }
        lemma_patch_sites_other(words, prev, far, s as int);
    } else {
        lemma_patch_sites_listed(words, prev, far, x);
        assert(sites[x] != s);
    }
}

proof fn lemma_patch_instruction(code: u16, far: u16)
    requires
        code < 16,
    ensures
        encode(code, 1) != 0,
        encode(code, 1) & ARGUMENT_MASK == 1,
        patch_word(encode(code, 1), far) == encode(code, far),
{
    assert(((code << 12u16) | (1u16 & 0x0FFFu16)) != 0) by (bit_vector)
        requires
            code < 16,
    ;
    assert(((code << 12u16) | (1u16 & 0x0FFFu16)) & 0x0FFFu16 == 1) by (bit_vector)
        requires
            code < 16,
    ;
    assert(((((code << 12u16) | (1u16 & 0x0FFFu16)) & 0xF000u16) | (far & 0x0FFFu16)) == ((code
        << 12u16) | (far & 0x0FFFu16))) by (bit_vector)
        requires
            code < 16,
    ;
}

/// Once a label is known to be at `first`, every site that waited for it
/// is patched for `first` and no other word changes; defining the label again
/// at `second` changes no word, reports both addresses, and binds the label to
/// `second` for later uses.
pub proof fn law_redefinition_keeps_first_patch(
    t: TableView,
    words: Seq<u16>,
    name: Seq<char>,
    first: u16,
    second: u16,
)
    requires
        table_wf(t, words.len()),
        pending_distinct(t),
        has_name(t, name),
        t[index_of(t, name)].1 is Unresolved,
    ensures
        ({
            let l = pending(t, index_of(t, name));
            let (t1, w1, d1) = define_spec(t, words, name, first);
            let (t2, w2, d2) = define_spec(t1, w1, name, second);
            &&& d1 is None
            &&& w1.len() == words.len()
            &&& forall|x: int|
                0 <= x < l.len() ==> w1[l[x] as int] == patch_word(words[l[x] as int], first)
            &&& forall|s: int| 0 <= s < words.len() && !l.contains(s as usize) ==> w1[s] == words[s]
            &&& w2 == w1
            &&& d2 == Some(WarningView::Redefined { name, at: second, previous: first })
            &&& t2[index_of(t2, name)].1 == Binding::Resolved(second)
        }),
{
    let i0 = index_of(t, name);
    let l = pending(t, i0);
    let (t1, w1, d1) = define_spec(t, words, name, first);
    assert(t1 == t.update(i0, (name, Binding::Resolved(first))));
    crate::labels::lemma_patch_sites_len(words, l, first);
    assert forall|x: int| 0 <= x < l.len() implies w1[l[x] as int] == patch_word(
        words[l[x] as int],
        first,
    ) by {
        assert forall|a: int, b: int| 0 <= a < b < l.len() implies l[a] != l[b] by {
            assert(pending(t, i0)[a] != pending(t, i0)[b]);
        }
        assert forall|a: int| 0 <= a < l.len() implies l[a] < words.len() by {
            assert(t[i0].1->Unresolved_0[a] < words.len());
        }
        lemma_patch_sites_listed(words, l, first, x);
    }
    assert forall|s: int| 0 <= s < words.len() && !l.contains(s as usize) implies w1[s]
        == words[s] by {
        lemma_patch_sites_other(words, l, first, s);
    }
    assert(has_name(t1, name)) by {
        assert(t1[i0].0 == name);
    }
    let k = index_of(t1, name);
    assert(k == i0) by {
        if k != i0 {
            assert(t[k].0 == name);
        }
    }
    let (t2, w2, d2) = define_spec(t1, w1, name, second);
    assert(t2[i0] == (name, Binding::Resolved(second)));
    assert(has_name(t2, name)) by {
        assert(t2[i0].0 == name);
    }
    let k2 = index_of(t2, name);
    assert(k2 == i0) by {
        if k2 != i0 {
            assert(t[k2].0 == name);
        }
    }
}

/// The word a use of a label emits once the label reads `v`: the value
/// itself in a data word, the instruction with argument `v` otherwise.
pub open spec fn use_word(literal: bool, code: u16, v: u16) -> u16 {
    if literal {
        v
    } else {
        encode(code, v)
    }
}

/// The value a use of a still unknown label emits.
pub open spec fn sentinel_for(literal: bool) -> u16 {
    if literal {
        0
    } else {
        1
    }
}

/// A use of a label that is not yet defined, once the label is defined at
/// `addr`, holds the same word as a use placed after that definition: the
/// data word `addr`, or the instruction with argument `addr`.
pub proof fn law_forward_matches_backward(
    t: TableView,
    words: Seq<u16>,
    name: Seq<char>,
    literal: bool,
    code: u16,
    addr: u16,
)
    requires
        table_wf(t, words.len()),
        words.len() < usize::MAX,
        code < 16,
        !has_name(t, name) || t[index_of(t, name)].1 is Unresolved,
    ensures
        ({
            let site = words.len();
            let (t1, v1) = reference_spec(t, name, site as usize, sentinel_for(literal));
            let (_, w2, _) = define_spec(t1, words.push(use_word(literal, code, v1)), name, addr);
            let (t3, w3, _) = define_spec(t, words, name, addr);
            let (_, v4) = reference_spec(t3, name, w3.len() as usize, sentinel_for(literal));
            &&& w2[site as int] == use_word(literal, code, addr)
            &&& w3.push(use_word(literal, code, v4))[site as int] == use_word(literal, code, addr)
        }),
{
    let site = words.len();
    let d = sentinel_for(literal);
    let (t1, v1) = reference_spec(t, name, site as usize, d);
    let w1 = words.push(use_word(literal, code, v1));
    let i0 = if has_name(t, name) {
        index_of(t, name)
    } else {
        t.len() as int
    };
    let l = if has_name(t, name) {
        pending(t, i0)
    } else {
        Seq::<usize>::empty()
    };
    assert(v1 == d);
    assert(t1 =~= if has_name(t, name) {
        t.update(i0, (name, Binding::Unresolved(l.push(site as usize))))
    } else {
        t.push((name, Binding::Unresolved(l.push(site as usize))))
    });
    assert(t1[i0].0 == name);
    assert(has_name(t1, name));
    let k = index_of(t1, name);
    assert(k == i0) by {
        if k != i0 {
            assert(t[k].0 == name);
        }
    }
    // Patching the forward use.
    let ls = l.push(site as usize);
    assert(ls.drop_last() =~= l);
    crate::labels::lemma_patch_sites_len(w1, l, addr);
    assert(!l.contains(site as usize)) by {
        if l.contains(site as usize) {
            let x = choose|x: int| 0 <= x < l.len() && l[x] == site as usize;
            assert(t[i0].1->Unresolved_0[x] < words.len());
        }
    }
    lemma_patch_sites_other(w1, l, addr, site as int);
    if !literal {
        lemma_patch_instruction(code, addr);
    }
    let p = patch_sites(w1, l, addr);
    assert(p[site as int] == w1[site as int]);
    assert(patch_sites(w1, ls, addr) == p.update(site as int, patch_word(p[site as int], addr)));
    assert(t1[i0].1 == Binding::Unresolved(ls));
    // The use after the definition.
    let (t3, w3, _) = define_spec(t, words, name, addr);
    lemma_define_len(t, words, name, addr);
    assert(t3 =~= if has_name(t, name) {
        t.update(i0, (name, Binding::Resolved(addr)))
    } else {
        t.push((name, Binding::Resolved(addr)))
    });
    assert(t3[i0].0 == name);
    assert(has_name(t3, name));
    let k3 = index_of(t3, name);
    assert(k3 == i0) by {
        if k3 != i0 {
            assert(t[k3].0 == name);
        }
    }
}

/// A placeholder: a data word 0, or an instruction whose argument field is 1.
pub open spec fn is_sentinel(w: u16) -> bool {
    w == 0 || w & ARGUMENT_MASK == 1
}

/// Every waiting site still holds a placeholder.
pub open spec fn pending_sentinels(t: TableView, words: Seq<u16>) -> bool {
    forall|i: int, x: int|
        0 <= i < t.len() && t[i].1 is Unresolved && 0 <= x < pending(t, i).len()
            ==> is_sentinel(words[#[trigger] pending(t, i)[x] as int])
}

/// Waiting positions are in range, distinct, and hold placeholders.
pub open spec fn placeholders_inv(t: TableView, words: Seq<u16>) -> bool {
    table_wf(t, words.len()) && pending_distinct(t) && pending_sentinels(t, words)
}

proof fn lemma_reference_inv(
    t: TableView,
    words: Seq<u16>,
    name: Seq<char>,
    literal: bool,
    code: u16,
)
    requires
        placeholders_inv(t, words),
        words.len() < usize::MAX,
        code < 16,
    ensures
        ({
            let (t1, v) = reference_spec(t, name, words.len() as usize, sentinel_for(literal));
            placeholders_inv(t1, words.push(use_word(literal, code, v)))
        }),
{
    let site = words.len() as usize;
    let (t1, v) = reference_spec(t, name, site, sentinel_for(literal));
    let w1 = words.push(use_word(literal, code, v));
    if !literal {
        lemma_patch_instruction(code, 0);
    }
    if !has_name(t, name) {
        assert(t1 == t.push((name, Binding::Unresolved(seq![site]))));
        assert(is_sentinel(w1[site as int]));
        assert(table_wf(t1, w1.len())) by {
            assert forall|i: int, j: int| 0 <= i < j < t1.len() implies (#[trigger] t1[i]).0 != (
            #[trigger] t1[j]).0 by {
                if j == t.len() {
                    assert(t[i].0 == t1[i].0);
                }
            }
            assert forall|i: int, k: int|
                0 <= i < t1.len() && t1[i].1 is Unresolved && 0 <= k
                    < t1[i].1->Unresolved_0.len() implies #[trigger] t1[i].1->Unresolved_0[k]
                < w1.len() by {
                if i < t.len() {
                    assert(t[i].1->Unresolved_0[k] < words.len());
                }
            }
        }
        assert forall|i: int, x: int, j: int, y: int|
            0 <= i < t1.len() && 0 <= j < t1.len() && t1[i].1 is Unresolved && t1[j].1 is Unresolved
                && 0 <= x < pending(t1, i).len() && 0 <= y < pending(t1, j).len() && (i != j || x
                != y) implies #[trigger] pending(t1, i)[x] != #[trigger] pending(t1, j)[y] by {
            if i < t.len() && j < t.len() {
                assert(pending(t, i)[x] != pending(t, j)[y]);
            } else if i < t.len() {
                assert(t[i].1->Unresolved_0[x] < words.len());
            } else if j < t.len() {
                assert(t[j].1->Unresolved_0[y] < words.len());
            }
        }
        assert forall|i: int, x: int|
            0 <= i < t1.len() && t1[i].1 is Unresolved && 0 <= x < pending(t1, i).len()
                implies is_sentinel(w1[#[trigger] pending(t1, i)[x] as int]) by {
            if i < t.len() {
                assert(is_sentinel(words[pending(t, i)[x] as int]));
                assert(t[i].1->Unresolved_0[x] < words.len());
            }
        }
    } else {
        let i0 = index_of(t, name);
        match t[i0].1 {
            Binding::Unresolved(l) => {
                let ls = l.push(site);
                assert(t1 == t.update(i0, (name, Binding::Unresolved(ls))));
                assert(is_sentinel(w1[site as int]));
                assert(table_wf(t1, w1.len())) by {
                    assert forall|i: int, j: int| 0 <= i < j < t1.len() implies (
                    #[trigger] t1[i]).0 != (#[trigger] t1[j]).0 by {
                        assert(t[i].0 == t1[i].0 && t[j].0 == t1[j].0);
                    }
                    assert forall|i: int, k: int|
                        0 <= i < t1.len() && t1[i].1 is Unresolved && 0 <= k
                            < t1[i].1->Unresolved_0.len() implies #[trigger] t1[i].1->Unresolved_0[k]
                        < w1.len() by {
                        if i != i0 || k < l.len() {
                            assert(t[i].1->Unresolved_0[k] < words.len());
                        }
                    }
                }
                assert forall|i: int, x: int, j: int, y: int|
                    0 <= i < t1.len() && 0 <= j < t1.len() && t1[i].1 is Unresolved && t1[j].1 is Unresolved
                        && 0 <= x < pending(t1, i).len() && 0 <= y < pending(t1, j).len() && (i != j
                        || x != y) implies #[trigger] pending(t1, i)[x] != #[trigger] pending(
                    t1,
                    j,
                )[y] by {
                    let old_i = i != i0 || x < l.len();
                    let old_j = j != i0 || y < l.len();
                    if old_i && old_j {
                        assert(pending(t, i)[x] == pending(t1, i)[x]);
                        assert(pending(t, j)[y] == pending(t1, j)[y]);
                        assert(pending(t, i)[x] != pending(t, j)[y]);
                    } else if old_i {
                        assert(t[i].1->Unresolved_0[x] < words.len());
                        assert(pending(t, i)[x] == pending(t1, i)[x]);
                    } else if old_j {
                        assert(t[j].1->Unresolved_0[y] < words.len());
                        assert(pending(t, j)[y] == pending(t1, j)[y]);
                    }
                }
                assert forall|i: int, x: int|
                    0 <= i < t1.len() && t1[i].1 is Unresolved && 0 <= x < pending(t1, i).len()
                        implies is_sentinel(w1[#[trigger] pending(t1, i)[x] as int]) by {
                    if i != i0 || x < l.len() {
                        assert(pending(t, i)[x] == pending(t1, i)[x]);
                        assert(is_sentinel(words[pending(t, i)[x] as int]));
                        assert(t[i].1->Unresolved_0[x] < words.len());
                    }
                }
            },
            Binding::Resolved(_) => {
                assert(t1 == t);
                assert forall|i: int, k: int|
                    0 <= i < t1.len() && t1[i].1 is Unresolved && 0 <= k
                        < t1[i].1->Unresolved_0.len() implies #[trigger] t1[i].1->Unresolved_0[k]
                    < w1.len() by {
                    assert(t[i].1->Unresolved_0[k] < words.len());
                }
                assert forall|i: int, x: int|
                    0 <= i < t1.len() && t1[i].1 is Unresolved && 0 <= x < pending(t1, i).len()
                        implies is_sentinel(w1[#[trigger] pending(t1, i)[x] as int]) by {
                    assert(is_sentinel(words[pending(t, i)[x] as int]));
                    assert(t[i].1->Unresolved_0[x] < words.len());
                }
            },
        }
    }
}

proof fn lemma_push_inv(t: TableView, words: Seq<u16>, w: u16)
    requires
        placeholders_inv(t, words),
    ensures
        placeholders_inv(t, words.push(w)),
{
    let w1 = words.push(w);
    assert forall|i: int, k: int|
        0 <= i < t.len() && t[i].1 is Unresolved && 0 <= k < t[i].1->Unresolved_0.len() implies #[trigger] t[i].1->Unresolved_0[k]
        < w1.len() by {
        assert(t[i].1->Unresolved_0[k] < words.len());
    }
    assert forall|i: int, x: int|
        0 <= i < t.len() && t[i].1 is Unresolved && 0 <= x < pending(t, i).len() implies is_sentinel(
        w1[#[trigger] pending(t, i)[x] as int],
    ) by {
        assert(is_sentinel(words[pending(t, i)[x] as int]));
        assert(t[i].1->Unresolved_0[x] < words.len());
    }
}

proof fn lemma_define_inv(t: TableView, words: Seq<u16>, name: Seq<char>, addr: u16)
    requires
        placeholders_inv(t, words),
    ensures
        ({
            let (t1, w1, d) = define_spec(t, words, name, addr);
            &&& placeholders_inv(t1, w1)
            &&& d matches Some(x) ==> x is Redefined
        }),
{
    let (t1, w1, d) = define_spec(t, words, name, addr);
    lemma_define_len(t, words, name, addr);
    if !has_name(t, name) {
        assert(t1 == t.push((name, Binding::Resolved(addr))));
        assert(w1 == words);
        assert forall|i: int, j: int| 0 <= i < j < t1.len() implies (#[trigger] t1[i]).0 != (
        #[trigger] t1[j]).0 by {
            if j == t.len() {
                assert(t[i].0 == t1[i].0);
            }
        }
        assert forall|i: int, k: int|
            0 <= i < t1.len() && t1[i].1 is Unresolved && 0 <= k < t1[i].1->Unresolved_0.len() implies #[trigger] t1[i].1->Unresolved_0[k]
            < w1.len() by {
            assert(t[i].1->Unresolved_0[k] < words.len());
        }
        assert forall|i: int, x: int, j: int, y: int|
            0 <= i < t1.len() && 0 <= j < t1.len() && t1[i].1 is Unresolved && t1[j].1 is Unresolved
                && 0 <= x < pending(t1, i).len() && 0 <= y < pending(t1, j).len() && (i != j || x
                != y) implies #[trigger] pending(t1, i)[x] != #[trigger] pending(t1, j)[y] by {
            assert(pending(t, i)[x] != pending(t, j)[y]);
        }
        assert forall|i: int, x: int|
            0 <= i < t1.len() && t1[i].1 is Unresolved && 0 <= x < pending(t1, i).len()
                implies is_sentinel(w1[#[trigger] pending(t1, i)[x] as int]) by {
            assert(is_sentinel(words[pending(t, i)[x] as int]));
        }
    } else {
        let i0 = index_of(t, name);
        assert(t1 == t.update(i0, (name, Binding::Resolved(addr))));
        assert forall|i: int, j: int| 0 <= i < j < t1.len() implies (#[trigger] t1[i]).0 != (
        #[trigger] t1[j]).0 by {
            assert(t[i].0 == t1[i].0 && t[j].0 == t1[j].0);
        }
        assert forall|i: int, x: int, j: int, y: int|
            0 <= i < t1.len() && 0 <= j < t1.len() && t1[i].1 is Unresolved && t1[j].1 is Unresolved
                && 0 <= x < pending(t1, i).len() && 0 <= y < pending(t1, j).len() && (i != j || x
                != y) implies #[trigger] pending(t1, i)[x] != #[trigger] pending(t1, j)[y] by {
            assert(pending(t, i)[x] != pending(t, j)[y]);
        }
        assert forall|i: int, k: int|
            0 <= i < t1.len() && t1[i].1 is Unresolved && 0 <= k < t1[i].1->Unresolved_0.len() implies #[trigger] t1[i].1->Unresolved_0[k]
            < w1.len() by {
            assert(t[i].1->Unresolved_0[k] < words.len());
        }
        match t[i0].1 {
            Binding::Unresolved(l) => {
                assert forall|i: int, x: int|
                    0 <= i < t1.len() && t1[i].1 is Unresolved && 0 <= x < pending(t1, i).len()
                        implies is_sentinel(w1[#[trigger] pending(t1, i)[x] as int]) by {
                    let s = pending(t, i)[x];
                    assert(is_sentinel(words[s as int]));
                    assert(t[i].1->Unresolved_0[x] < words.len());
                    assert(!l.contains(s)) by {
                        if l.contains(s) {
                            let y = choose|y: int| 0 <= y < l.len() && l[y] == s;
                            assert(pending(t, i0)[y] != pending(t, i)[x]);
                        }
                    }
                    lemma_patch_sites_other(words, l, addr, s as int);
                }
            },
            Binding::Resolved(_) => {
                assert forall|i: int, x: int|
                    0 <= i < t1.len() && t1[i].1 is Unresolved && 0 <= x < pending(t1, i).len()
                        implies is_sentinel(w1[#[trigger] pending(t1, i)[x] as int]) by {
                    assert(is_sentinel(words[pending(t, i)[x] as int]));
                }
            },
        }
    }
}

/// Every diagnostic so far reports a redefinition.
pub open spec fn only_redefinitions(w: Seq<WarningView>) -> bool {
    forall|k: int| 0 <= k < w.len() ==> (#[trigger] w[k]) is Redefined
}

proof fn lemma_step_inv(st: AsmState, item: Item, idx: usize)
    requires
        placeholders_inv(st.table, st.words),
        only_redefinitions(st.warnings),
        st.words.len() < usize::MAX,
        step_spec(st, item, idx) is Ok,
    ensures
        placeholders_inv(step_spec(st, item, idx)->Ok_0.table, step_spec(st, item, idx)->Ok_0.words),
        only_redefinitions(step_spec(st, item, idx)->Ok_0.warnings),
        step_spec(st, item, idx)->Ok_0.words.len() == st.words.len() + if emits(item) {
            1nat
        } else {
            0nat
        },
{
    let next = step_spec(st, item, idx)->Ok_0;
    match item {
        Item::InstructionWithArg(op, operand) => {
            let code = op.spec_opcode().spec_code();
            match operand {
                crate::assembler::Operand::Address(_) => lemma_push_inv(
                    st.table,
                    st.words,
                    next.words.last(),
                ),
                crate::assembler::Operand::Name(n) => lemma_reference_inv(
                    st.table,
                    st.words,
                    n@,
                    false,
                    code,
                ),
            }
        },
        Item::InstructionNoArg(_) => lemma_push_inv(st.table, st.words, next.words.last()),
        Item::Literal(lit) => match lit {
            crate::assembler::Literal::Label(n) => lemma_reference_inv(
                st.table,
                st.words,
                n@,
                true,
                0,
            ),
            _ => lemma_push_inv(st.table, st.words, next.words.last()),
        },
        Item::LabelDef(n) => {
            lemma_define_inv(st.table, st.words, n@, here(st));
            lemma_define_len(st.table, st.words, n@, here(st));
            let d = define_spec(st.table, st.words, n@, here(st)).2;
            assert(only_redefinitions(next.warnings)) by {
                if let Some(x) = d {
                    assert(next.warnings == st.warnings.push(x));
                    assert forall|k: int| 0 <= k < next.warnings.len() implies (
                    #[trigger] next.warnings[k]) is Redefined by {
                        if k < st.warnings.len() {
                            assert(st.warnings[k] is Redefined);
                        }
                    }
                }
            }
        },
        Item::EndOfInput => {},
    }
}

proof fn lemma_run_inv(st: AsmState, items: Seq<Item>, i: int)
    requires
        placeholders_inv(st.table, st.words),
        only_redefinitions(st.warnings),
        0 <= i,
        st.words.len() <= i,
        items.len() <= usize::MAX,
    ensures
        run_spec(st, items, i) matches Ok(f) ==> placeholders_inv(f.table, f.words)
            && only_redefinitions(f.warnings),
    decreases items.len() - i,
{
    if !(i >= items.len() || items[i] is EndOfInput) {
        if let Ok(next) = step_spec(st, items[i], i as usize) {
            lemma_step_inv(st, items[i], i as usize);
            lemma_run_inv(next, items, i + 1);
        }
    }
}

proof fn lemma_finalize_sites(t: TableView, k: int)
    requires
        0 <= k < finalize_spec(t).len(),
    ensures
        finalize_spec(t)[k] is Undefined,
        exists|i: int|
            0 <= i < t.len() && t[i].1 == Binding::Unresolved(
                finalize_spec(t)[k]->Undefined_sites,
            ),
    decreases t.len(),
{
    let rest = finalize_spec(t.drop_last());
    if k < rest.len() {
        lemma_finalize_sites(t.drop_last(), k);
        let i = choose|i: int|
            0 <= i < t.drop_last().len() && t.drop_last()[i].1 == Binding::Unresolved(
                rest[k]->Undefined_sites,
            );
        assert(t[i] == t.drop_last()[i]);
    } else {
        assert(t[t.len() - 1].1 == Binding::Unresolved(finalize_spec(t)[k]->Undefined_sites));
    }
}

/// A label that is never defined keeps its placeholders: each site listed by
/// an undefined-label warning holds either a data word 0 or an instruction
/// whose argument field is 1.
pub proof fn law_undefined_label_keeps_placeholders(items: Seq<Item>)
    requires
        items.len() <= usize::MAX,
    ensures
        assemble_spec(items) matches Ok((words, warnings)) ==> forall|k: int, x: int|
            0 <= k < warnings.len() && warnings[k] is Undefined && 0 <= x
                < warnings[k]->Undefined_sites.len() ==> (#[trigger] warnings[k]->Undefined_sites[x])
                < words.len() && is_sentinel(words[warnings[k]->Undefined_sites[x] as int]),
{
    let st0 = AsmState { table: Seq::empty(), words: Seq::empty(), warnings: Seq::empty() };
    lemma_run_inv(st0, items, 0);
    if let Ok(f) = run_spec(st0, items, 0) {
        let fin = finalize_spec(f.table);
        let warnings = f.warnings + fin;
        assert forall|k: int, x: int|
            0 <= k < warnings.len() && warnings[k] is Undefined && 0 <= x
                < warnings[k]->Undefined_sites.len() implies (#[trigger] warnings[k]->Undefined_sites[x])
            < f.words.len() && is_sentinel(f.words[warnings[k]->Undefined_sites[x] as int]) by {
            if k < f.warnings.len() {
                assert(f.warnings[k] is Redefined);
            } else {
                let kk = k - f.warnings.len();
                assert(warnings[k] == fin[kk]);
                lemma_finalize_sites(f.table, kk);
                let i = choose|i: int|
                    0 <= i < f.table.len() && f.table[i].1 == Binding::Unresolved(
                        fin[kk]->Undefined_sites,
                    );
                assert(pending(f.table, i)[x] == fin[kk]->Undefined_sites[x]);
                assert(f.table[i].1->Unresolved_0[x] < f.words.len());
            }
        }
    }
}

/// Whether output position `p` waits for some label.
pub open spec fn waits_anywhere(t: TableView, p: usize) -> bool {
    exists|i: int| 0 <= i < t.len() && t[i].1 is Unresolved && pending(t, i).contains(p)
}

/// Whether output position `p` waits for label `n`.
pub open spec fn waits_for(t: TableView, n: Seq<char>, p: usize) -> bool {
    exists|i: int|
        0 <= i < t.len() && t[i].0 == n && t[i].1 is Unresolved && pending(t, i).contains(p)
}

/// Whether label `n` is bound to an address.
pub open spec fn is_resolved(t: TableView, n: Seq<char>) -> bool {
    exists|i: int| 0 <= i < t.len() && t[i].0 == n && t[i].1 is Resolved
}

/// A position that waits for no label keeps its word through any step.
proof fn lemma_step_frozen(st: AsmState, item: Item, idx: usize, p: usize)
    requires
        placeholders_inv(st.table, st.words),
        st.words.len() < usize::MAX,
        p < st.words.len(),
        !waits_anywhere(st.table, p),
        step_spec(st, item, idx) is Ok,
        !(item is EndOfInput),
    ensures
        ({
            let next = step_spec(st, item, idx)->Ok_0;
            &&& p < next.words.len()
            &&& next.words[p as int] == st.words[p as int]
            &&& !waits_anywhere(next.table, p)
        }),
{
    let t = st.table;
    let next = step_spec(st, item, idx)->Ok_0;
    match item {
        Item::LabelDef(n) => {
            lemma_define_len(t, st.words, n@, here(st));
            if has_name(t, n@) {
                let i0 = index_of(t, n@);
                if let Binding::Unresolved(l) = t[i0].1 {
                    assert(!l.contains(p)) by {
                        if l.contains(p) {
                            assert(pending(t, i0) == l);
                            assert(0 <= i0 < t.len() && t[i0].1 is Unresolved && pending(
                                t,
                                i0,
                            ).contains(p));
                            assert(waits_anywhere(t, p));
                        }
                    }
                    lemma_patch_sites_other(st.words, l, here(st), p as int);
                }
                assert(next.table == t.update(i0, (n@, Binding::Resolved(here(st)))));
            } else {
                assert(next.table == t.push((n@, Binding::Resolved(here(st)))));
            }
            assert(!waits_anywhere(next.table, p)) by {
                if waits_anywhere(next.table, p) {
                    let i = choose|i: int|
                        0 <= i < next.table.len() && next.table[i].1 is Unresolved && pending(
                            next.table,
                            i,
                        ).contains(p);
                    assert(t[i] == next.table[i]);
                    assert(pending(t, i) == pending(next.table, i));
                    assert(t[i].1 is Unresolved && pending(t, i).contains(p));
                    assert(waits_anywhere(t, p));
                }
            }
        },
        _ => {
            lemma_step_shape(st, item, idx);
            assert(next.words[p as int] == st.words[p as int]);
            assert(!waits_anywhere(next.table, p)) by {
                if waits_anywhere(next.table, p) {
                    let i = choose|i: int|
                        0 <= i < next.table.len() && next.table[i].1 is Unresolved && pending(
                            next.table,
                            i,
                        ).contains(p);
                    let x = choose|x: int|
                        0 <= x < pending(next.table, i).len() && pending(next.table, i)[x] == p;
                    if i < t.len() && next.table[i] == t[i] {
                        assert(pending(t, i) == pending(next.table, i));
                        assert(t[i].1 is Unresolved && pending(t, i).contains(p));
                        assert(waits_anywhere(t, p));
                    } else if i < t.len() {
                        if x < pending(t, i).len() {
                            assert(pending(t, i)[x] == pending(next.table, i)[x]);
                            assert(pending(t, i).contains(p));
                            assert(waits_anywhere(t, p));
                        }
                    }
                }
            }
        },
    }
}

/// `t1` is `t` with, at most, the position `site` added to the waiting list
/// of one label, old or new.
pub open spec fn extends_by_site(t: TableView, t1: TableView, site: usize) -> bool {
    &&& t1.len() == t.len() || t1.len() == t.len() + 1
    &&& forall|i: int|
        0 <= i < t.len() ==> (#[trigger] t1[i] == t[i] || (t[i].1 is Unresolved && t1[i] == (
            t[i].0,
            Binding::Unresolved(pending(t, i).push(site)),
        )))
    &&& t1.len() == t.len() + 1 ==> t1[t.len() as int].1 == Binding::Unresolved(seq![site])
}

/// Every item but a label definition appends one word and at most one
/// waiting position.
proof fn lemma_step_shape(st: AsmState, item: Item, idx: usize)
    requires
        step_spec(st, item, idx) is Ok,
        !(item is LabelDef),
        !(item is EndOfInput),
    ensures
        ({
            let next = step_spec(st, item, idx)->Ok_0;
            &&& next.words.len() == st.words.len() + 1
            &&& next.words.drop_last() == st.words
            &&& extends_by_site(st.table, next.table, st.words.len() as usize)
        }),
{
    let next = step_spec(st, item, idx)->Ok_0;
    assert(next.words.drop_last() =~= st.words);
    let t = st.table;
    let site = st.words.len() as usize;
    let t1 = next.table;
    let name = match item {
        Item::InstructionWithArg(_, crate::assembler::Operand::Name(n)) => Some(n@),
        Item::Literal(crate::assembler::Literal::Label(n)) => Some(n@),
        _ => None,
    };
    if let Some(n) = name {
        if has_name(t, n) {
            let i0 = index_of(t, n);
            if t[i0].1 is Unresolved {
                assert(t1 == t.update(i0, (n, Binding::Unresolved(pending(t, i0).push(site)))));
                assert(t[i0].0 == n);
            } else {
                assert(t1 == t);
            }
        } else {
            assert(t1 == t.push((n, Binding::Unresolved(seq![site]))));
        }
    } else {
        assert(t1 == t);
    }
}

/// A position that waits for label `n` keeps its word, and keeps waiting,
/// through any step that does not define `n`.
proof fn lemma_step_waiting(st: AsmState, item: Item, idx: usize, n: Seq<char>, p: usize)
    requires
        placeholders_inv(st.table, st.words),
        p < st.words.len(),
        waits_for(st.table, n, p),
        step_spec(st, item, idx) is Ok,
        !(item is EndOfInput),
        !defines(item, n),
    ensures
        ({
            let next = step_spec(st, item, idx)->Ok_0;
            &&& p < next.words.len()
            &&& next.words[p as int] == st.words[p as int]
            &&& waits_for(next.table, n, p)
        }),
{
    let t = st.table;
    let next = step_spec(st, item, idx)->Ok_0;
    let i = choose|i: int|
        0 <= i < t.len() && t[i].0 == n && t[i].1 is Unresolved && pending(t, i).contains(p);
    let x = choose|x: int| 0 <= x < pending(t, i).len() && pending(t, i)[x] == p;
    match item {
        Item::LabelDef(m) => {
            lemma_define_len(t, st.words, m@, here(st));
            if has_name(t, m@) {
                let i0 = index_of(t, m@);
                assert(i0 != i);
                if let Binding::Unresolved(l) = t[i0].1 {
                    assert(!l.contains(p)) by {
                        if l.contains(p) {
                            let y = choose|y: int| 0 <= y < l.len() && l[y] == p;
                            assert(pending(t, i0)[y] != pending(t, i)[x]);
                        }
                    }
                    lemma_patch_sites_other(st.words, l, here(st), p as int);
                }
                assert(next.table == t.update(i0, (m@, Binding::Resolved(here(st)))));
            } else {
                assert(next.table == t.push((m@, Binding::Resolved(here(st)))));
            }
            assert(next.table[i] == t[i]);
            assert(pending(next.table, i)[x] == p);
        },
        _ => {
            lemma_step_shape(st, item, idx);
            assert(next.words[p as int] == st.words.push(next.words.last())[p as int]);
            if next.table[i] != t[i] {
                assert(pending(next.table, i) == pending(t, i).push(st.words.len() as usize));
            }
            assert(pending(next.table, i)[x] == p);
        },
    }
}

/// The output position of item `k`: the number of words emitted before it.
pub open spec fn emitted_before(items: Seq<Item>, k: int) -> nat
    decreases k,
{
    if k <= 0 {
        0
    } else {
        emitted_before(items, k - 1) + if emits(items[k - 1]) {
            1nat
        } else {
            0nat
        }
    }
}

/// Whether an item uses label `n`.
pub open spec fn refers_to(item: Item, n: Seq<char>) -> bool {
    match item {
        Item::InstructionWithArg(_, crate::assembler::Operand::Name(m)) => m@ == n,
        Item::Literal(crate::assembler::Literal::Label(m)) => m@ == n,
        _ => false,
    }
}

/// Whether an item defines label `n`.
pub open spec fn defines(item: Item, n: Seq<char>) -> bool {
    item matches Item::LabelDef(m) && m@ == n
}

/// The word a use of a label emits when the label reads `v`.
pub open spec fn use_of(item: Item, v: u16) -> u16 {
    match item {
        Item::InstructionWithArg(op, _) => encode(op.spec_opcode().spec_code(), v),
        _ => v,
    }
}

/// The address at which item `j` defines its label.
pub open spec fn address_at(items: Seq<Item>, j: int) -> u16 {
    (emitted_before(items, j) % 0x10000) as u16
}

/// The placeholder word a use emits while its label is unknown.
pub open spec fn placeholder_of(item: Item) -> u16 {
    use_of(item, sentinel_for(item is Literal))
}

proof fn lemma_emitted_before_grows(items: Seq<Item>, k: int, i: int)
    requires
        0 <= k < i <= items.len(),
        emits(items[k]),
    ensures
        emitted_before(items, k) < emitted_before(items, i),
    decreases i,
{
    if k < i - 1 {
        lemma_emitted_before_grows(items, k, i - 1);
    }
}

/// The state of an assembly at item `i` as far as label `n`, first defined
/// by item `j`, is concerned.
pub open spec fn forward_inv(st: AsmState, items: Seq<Item>, i: int, n: Seq<char>, j: int) -> bool {
    &&& placeholders_inv(st.table, st.words)
    &&& only_redefinitions(st.warnings)
    &&& st.words.len() == emitted_before(items, i)
    &&& i <= j ==> !is_resolved(st.table, n) && forall|k: int|
        0 <= k < i && #[trigger] refers_to(items[k], n) ==> waits_for(
            st.table,
            n,
            emitted_before(items, k) as usize,
        ) && st.words[emitted_before(items, k) as int] == placeholder_of(items[k])
    &&& i > j ==> forall|k: int|
        0 <= k < j && #[trigger] refers_to(items[k], n) ==> emitted_before(items, k)
            < st.words.len() && !waits_anywhere(st.table, emitted_before(items, k) as usize)
            && st.words[emitted_before(items, k) as int] == use_of(items[k], address_at(items, j))
}

/// Item `j` is the first definition of `n`, and no end marker comes first.
pub open spec fn first_definition(items: Seq<Item>, n: Seq<char>, j: int) -> bool {
    &&& 0 <= j < items.len()
    &&& defines(items[j], n)
    &&& forall|k: int| 0 <= k <= j ==> !(#[trigger] items[k] is EndOfInput)
    &&& forall|k: int| 0 <= k < j ==> !#[trigger] defines(items[k], n)
}

proof fn lemma_forward_step(st: AsmState, items: Seq<Item>, i: int, n: Seq<char>, j: int)
    requires
        forward_inv(st, items, i, n, j),
        first_definition(items, n, j),
        items.len() <= usize::MAX,
        0 <= i < items.len(),
        !(items[i] is EndOfInput),
        step_spec(st, items[i], i as usize) is Ok,
    ensures
        forward_inv(step_spec(st, items[i], i as usize)->Ok_0, items, i + 1, n, j),
{
    let item = items[i];
    let t = st.table;
    let next = step_spec(st, item, i as usize)->Ok_0;
    assert(st.words.len() <= i) by {
        lemma_emitted_before_le(items, i);
    }
    lemma_step_inv(st, item, i as usize);
    if i < j {
        assert(!defines(item, n));
        assert forall|k: int| 0 <= k < i + 1 && #[trigger] refers_to(items[k], n) implies waits_for(
            next.table,
            n,
            emitted_before(items, k) as usize,
        ) && next.words[emitted_before(items, k) as int] == placeholder_of(items[k]) by {
            if k < i {
                let pk = emitted_before(items, k);
                lemma_emitted_before_grows(items, k, i);
                lemma_step_waiting(st, item, i as usize, n, pk as usize);
            } else {
                lemma_forward_new_use(st, item, i as usize, n);
            }
        }
        lemma_step_keeps_unresolved(st, item, i as usize, n);
    } else if i == j {
        lemma_forward_definition(st, items, i, n, j);
    } else {
        assert forall|k: int| 0 <= k < j && #[trigger] refers_to(items[k], n) implies emitted_before(
            items,
            k,
        ) < next.words.len() && !waits_anywhere(next.table, emitted_before(items, k) as usize)
            && next.words[emitted_before(items, k) as int] == use_of(
            items[k],
            address_at(items, j),
        ) by {
            lemma_step_frozen(st, item, i as usize, emitted_before(items, k) as usize);
        }
    }
}

proof fn lemma_emitted_before_le(items: Seq<Item>, i: int)
    requires
        0 <= i,
    ensures
        emitted_before(items, i) <= i,
    decreases i,
{
    if i > 0 {
        lemma_emitted_before_le(items, i - 1);
    }
}

/// A use of a label that is not bound waits for it, with its placeholder.
proof fn lemma_forward_new_use(st: AsmState, item: Item, idx: usize, n: Seq<char>)
    requires
        placeholders_inv(st.table, st.words),
        st.words.len() < usize::MAX,
        !is_resolved(st.table, n),
        refers_to(item, n),
        step_spec(st, item, idx) is Ok,
    ensures
        ({
            let next = step_spec(st, item, idx)->Ok_0;
            &&& waits_for(next.table, n, st.words.len() as usize)
            &&& next.words[st.words.len() as int] == placeholder_of(item)
        }),
{
    let t = st.table;
    let next = step_spec(st, item, idx)->Ok_0;
    let site = st.words.len() as usize;
    let lit = item is Literal;
    if !lit {
        lemma_patch_instruction(item->InstructionWithArg_0.spec_opcode().spec_code(), 0);
    }
    if has_name(t, n) {
        let i0 = index_of(t, n);
        assert(t[i0].1 is Unresolved) by {
            if t[i0].1 is Resolved {
                assert(is_resolved(t, n));
            }
        }
        let ls = pending(t, i0).push(site);
        assert(next.table == t.update(i0, (n, Binding::Unresolved(ls))));
        assert(ls[ls.len() - 1] == site);
        assert(pending(next.table, i0).contains(site));
    } else {
        let t1 = t.push((n, Binding::Unresolved(seq![site])));
        assert(next.table == t1);
        assert(pending(t1, t.len() as int)[0] == site);
        assert(pending(t1, t.len() as int).contains(site));
    }
}

/// A step that does not define `n` does not bind it.
proof fn lemma_step_keeps_unresolved(st: AsmState, item: Item, idx: usize, n: Seq<char>)
    requires
        !is_resolved(st.table, n),
        !defines(item, n),
        !(item is EndOfInput),
        step_spec(st, item, idx) is Ok,
    ensures
        !is_resolved(step_spec(st, item, idx)->Ok_0.table, n),
{
    let t = st.table;
    let next = step_spec(st, item, idx)->Ok_0;
    let t1 = next.table;
    match item {
        Item::LabelDef(m) => {
            if has_name(t, m@) {
                let i0 = index_of(t, m@);
                assert(t1 == t.update(i0, (m@, Binding::Resolved(here(st)))));
            } else {
                assert(t1 == t.push((m@, Binding::Resolved(here(st)))));
            }
            if is_resolved(t1, n) {
                let q = choose|q: int| 0 <= q < t1.len() && t1[q].0 == n && t1[q].1 is Resolved;
                assert(t1[q] == t[q]);
                assert(is_resolved(t, n));
            }
        },
        _ => {
            lemma_step_shape(st, item, idx);
            if is_resolved(t1, n) {
                let q = choose|q: int| 0 <= q < t1.len() && t1[q].0 == n && t1[q].1 is Resolved;
                assert(t1[q] == t[q]);
                assert(is_resolved(t, n));
            }
        },
    }
}

/// The first definition of `n` patches every earlier use for its address and
/// leaves none of them waiting.
proof fn lemma_forward_definition(st: AsmState, items: Seq<Item>, i: int, n: Seq<char>, j: int)
    requires
        forward_inv(st, items, i, n, j),
        first_definition(items, n, j),
        items.len() <= usize::MAX,
        i == j,
        step_spec(st, items[i], i as usize) is Ok,
    ensures
        ({
            let next = step_spec(st, items[i], i as usize)->Ok_0;
            forall|k: int|
                0 <= k < j && #[trigger] refers_to(items[k], n) ==> emitted_before(items, k)
                    < next.words.len() && !waits_anywhere(
                    next.table,
                    emitted_before(items, k) as usize,
                ) && next.words[emitted_before(items, k) as int] == use_of(
                    items[k],
                    address_at(items, j),
                )
        }),
{
    let t = st.table;
    let item = items[i];
    let next = step_spec(st, item, i as usize)->Ok_0;
    let addr = here(st);
    assert(addr == address_at(items, j));
    lemma_define_len(t, st.words, n, addr);
    assert forall|k: int| 0 <= k < j && #[trigger] refers_to(items[k], n) implies emitted_before(
        items,
        k,
    ) < next.words.len() && !waits_anywhere(next.table, emitted_before(items, k) as usize)
        && next.words[emitted_before(items, k) as int] == use_of(items[k], addr) by {
        lemma_emitted_before_le(items, k);
        let p = emitted_before(items, k) as usize;
        assert(p as int == emitted_before(items, k));
        assert(waits_for(t, n, p));
        let q = choose|q: int|
            0 <= q < t.len() && t[q].0 == n && t[q].1 is Unresolved && pending(t, q).contains(p);
        assert(has_name(t, n));
        let i0 = index_of(t, n);
        assert(q == i0) by {
            if q != i0 {
                assert(t[q].0 == t[i0].0);
            }
        }
        let l = pending(t, i0);
        let x = choose|x: int| 0 <= x < l.len() && l[x] == p;
        assert(next.table == t.update(i0, (n, Binding::Resolved(addr))));
        assert(next.words == patch_sites(st.words, l, addr));
        assert(p < st.words.len()) by {
            assert(t[i0].1->Unresolved_0[x] < st.words.len());
        }
        assert forall|a: int, b: int| 0 <= a < b < l.len() implies l[a] != l[b] by {
            assert(pending(t, i0)[a] != pending(t, i0)[b]);
        }
        assert forall|a: int| 0 <= a < l.len() implies l[a] < st.words.len() by {
            assert(t[i0].1->Unresolved_0[a] < st.words.len());
        }
        lemma_patch_sites_listed(st.words, l, addr, x);
        assert(st.words[p as int] == placeholder_of(items[k]));
        assert(next.words[p as int] == patch_word(st.words[p as int], addr));
        if items[k] is InstructionWithArg {
            lemma_patch_instruction(items[k]->InstructionWithArg_0.spec_opcode().spec_code(), addr);
        } else {
            assert(items[k] is Literal);
            assert(placeholder_of(items[k]) == 0);
        }
        assert(!waits_anywhere(next.table, p)) by {
            if waits_anywhere(next.table, p) {
                let r = choose|r: int|
                    0 <= r < next.table.len() && next.table[r].1 is Unresolved && pending(
                        next.table,
                        r,
                    ).contains(p);
                let y = choose|y: int| 0 <= y < pending(next.table, r).len() && pending(next.table, r)[y] == p;
                assert(r != i0);
                assert(next.table[r] == t[r]);
                assert(pending(t, r)[y] != pending(t, i0)[x]);
            }
        }
    }
}

proof fn lemma_forward_run(st: AsmState, items: Seq<Item>, i: int, n: Seq<char>, j: int)
    requires
        forward_inv(st, items, i, n, j),
        first_definition(items, n, j),
        items.len() <= usize::MAX,
        0 <= i,
    ensures
        run_spec(st, items, i) matches Ok(f) ==> forall|k: int|
            0 <= k < j && #[trigger] refers_to(items[k], n) ==> f.words[emitted_before(items, k) as int]
                == use_of(items[k], address_at(items, j)),
    decreases items.len() - i,
{
    if i >= items.len() || items[i] is EndOfInput {
        assert(i > j);
    } else if let Ok(next) = step_spec(st, items[i], i as usize) {
        lemma_forward_step(st, items, i, n, j);
        lemma_forward_run(next, items, i + 1, n, j);
    }
}

/// Every use of a label placed before the label's first definition ends
/// holding that definition's address, the same word a use placed right after
/// it gets; definitions that follow do not change it.
pub proof fn law_forward_use_takes_first_definition(items: Seq<Item>, n: Seq<char>, j: int)
    requires
        items.len() <= usize::MAX,
        first_definition(items, n, j),
    ensures
        assemble_spec(items) matches Ok((words, _)) ==> forall|k: int|
            0 <= k < j && #[trigger] refers_to(items[k], n) ==> words[emitted_before(items, k) as int]
                == use_of(items[k], address_at(items, j)),
{
    let st0 = AsmState { table: Seq::empty(), words: Seq::empty(), warnings: Seq::empty() };
    assert(!is_resolved(st0.table, n));
    lemma_forward_run(st0, items, 0, n, j);
}

} // verus!
