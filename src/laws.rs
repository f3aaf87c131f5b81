//! Properties that relate several operations of the store.

use crate::order::lemma_name_lt_irreflexive;
use crate::target::{
    bindings, ended_lines, entries_in, first_colon, has_name, lemma_map_of_entry, lemma_select_members,
    line_of, map_of, parse_text, render, select, sorted_by_name, split_entry, strip_cr, tail_of,
    text_lines, TargetsFile,
};
use vstd::prelude::*;

verus! {

/// After `add` of a name that was not bound, looking the name up gives the
/// path that `add` bound (the expanded form of the path given).
pub proof fn law_add_then_get(before: TargetsFile, after: TargetsFile, name: Seq<char>, path: Seq<char>)
    requires
        before.wf(),
        !before.targets_map().contains_key(name),
        after.targets_map() == before.targets_map().insert(name, path),
    ensures
        after.targets_map().contains_key(name),
        after.targets_map()[name] == path,
{
}

/// After `remove` of a bound name, looking the name up gives nothing.
pub proof fn law_remove_then_get(before: TargetsFile, after: TargetsFile, name: Seq<char>)
    requires
        before.wf(),
        before.targets_map().contains_key(name),
        after.targets_map() == before.targets_map().remove(name),
    ensures
        !after.targets_map().contains_key(name),
{
}

proof fn lemma_no_newline_append(t: Seq<char>, l: Seq<char>)
    requires
        forall|i: int| 0 <= i < l.len() ==> l[i] != '\n',
    ensures
        tail_of(t + l) == tail_of(t) + l,
        ended_lines(t + l) == ended_lines(t),
    decreases l.len(),
{
    if l.len() == 0 {
        assert(t + l =~= t);
        assert(tail_of(t) + l =~= tail_of(t));
    } else {
        let l2 = l.drop_last();
        lemma_no_newline_append(t, l2);
        assert((t + l).drop_last() =~= t + l2);
        assert(tail_of(t) + l =~= (tail_of(t) + l2).push(l.last()));
    }
}

pub open spec fn plain_entry(e: (Seq<char>, Seq<char>)) -> bool {
    &&& forall|i: int| 0 <= i < e.0.len() ==> e.0[i] != ':' && e.0[i] != '\n'
    &&& forall|i: int| 0 <= i < e.1.len() ==> e.1[i] != '\n'
    &&& (e.1.len() > 0 ==> e.1.last() != '\r')
}

proof fn lemma_line_of(e: (Seq<char>, Seq<char>))
    requires
        plain_entry(e),
    ensures
        forall|i: int| 0 <= i < line_of(e).len() ==> line_of(e)[i] != '\n',
        strip_cr(line_of(e)) == line_of(e),
        line_of(e).len() > 0,
        split_entry(line_of(e)) == Some(e),
{
    let l = line_of(e);
    assert forall|i: int| 0 <= i < l.len() implies l[i] != '\n' by {
        if i >= e.0.len() + 1 {
            assert(l[i] == e.1[i - e.0.len() - 1]);
        }
    }
    lemma_first_colon_at(l, e.0.len() as int);
    assert(l.take(e.0.len() as int) =~= e.0);
    assert(l.skip(e.0.len() as int + 1) =~= e.1);
}

proof fn lemma_first_colon_at(l: Seq<char>, k: int)
    requires
        0 <= k < l.len(),
        forall|j: int| 0 <= j < k ==> l[j] != ':',
        l[k] == ':',
    ensures
        first_colon(l) == k,
    decreases k,
{
    if k > 0 {
        lemma_first_colon_at(l.drop_first(), k - 1);
    }
}

proof fn lemma_render_lines(s: Seq<(Seq<char>, Seq<char>)>)
    requires
        s.len() > 0,
        forall|i: int| 0 <= i < s.len() ==> plain_entry(#[trigger] s[i]),
    ensures
        tail_of(render(s)) == line_of(s.last()),
        ended_lines(render(s)) == s.drop_last().map_values(|e: (Seq<char>, Seq<char>)| line_of(e)),
    decreases s.len(),
{
    lemma_line_of(s.last());
    if s.len() == 1 {
        lemma_no_newline_append(Seq::empty(), line_of(s[0]));
        assert(Seq::<char>::empty() + line_of(s[0]) =~= line_of(s[0]));
        assert(s.drop_last().map_values(|e: (Seq<char>, Seq<char>)| line_of(e)) =~= Seq::empty());
    } else {
        let s2 = s.drop_last();
        lemma_render_lines(s2);
        lemma_line_of(s2.last());
        let r = render(s2) + seq!['\n'];
        assert(r.drop_last() =~= render(s2));
        lemma_no_newline_append(r, line_of(s.last()));
        assert(tail_of(r) =~= Seq::<char>::empty());
        assert(Seq::<char>::empty() + line_of(s.last()) =~= line_of(s.last()));
        assert(s.drop_last().map_values(|e: (Seq<char>, Seq<char>)| line_of(e)) =~= s2.drop_last().map_values(
            |e: (Seq<char>, Seq<char>)| line_of(e),
        ).push(line_of(s2.last())));
    }
}

proof fn lemma_entries_of_lines(s: Seq<(Seq<char>, Seq<char>)>)
    requires
        forall|i: int| 0 <= i < s.len() ==> plain_entry(#[trigger] s[i]),
    ensures
        entries_in(s.map_values(|e: (Seq<char>, Seq<char>)| line_of(e))) == s,
    decreases s.len(),
{
    if s.len() > 0 {
        let s2 = s.drop_last();
        lemma_entries_of_lines(s2);
        lemma_line_of(s.last());
        let ls = s.map_values(|e: (Seq<char>, Seq<char>)| line_of(e));
        assert(ls.drop_last() =~= s2.map_values(|e: (Seq<char>, Seq<char>)| line_of(e)));
        assert(s =~= s2.push(s.last()));
    } else {
        assert(s.map_values(|e: (Seq<char>, Seq<char>)| line_of(e)) =~= Seq::<Seq<char>>::empty());
    }
}

proof fn lemma_bindings_sorted(s: Seq<(Seq<char>, Seq<char>)>)
    requires
        sorted_by_name(s),
    ensures
        bindings(s) == map_of(s),
    decreases s.len(),
{
    if s.len() == 0 {
        assert(map_of(s) =~= Map::<Seq<char>, Seq<char>>::empty());
    } else {
        let s2 = s.drop_last();
        assert(sorted_by_name(s2));
        lemma_bindings_sorted(s2);
        let n = s.last().0;
        let m = bindings(s);
        assert forall|x: Seq<char>| #[trigger] map_of(s).contains_key(x) <==> m.contains_key(x) by {
            if has_name(s, x) && x != n {
                let k = choose|k: int| 0 <= k < s.len() && #[trigger] s[k].0 == x;
                assert(s2[k].0 == x);
            }
            if has_name(s2, x) {
                let k = choose|k: int| 0 <= k < s2.len() && #[trigger] s2[k].0 == x;
                assert(s[k].0 == x);
            }
            if x == n {
                assert(s[s.len() - 1].0 == x);
            }
        }
        assert forall|x: Seq<char>| #[trigger] map_of(s).contains_key(x) implies map_of(s)[x] == m[x] by {
            let k = choose|k: int| 0 <= k < s.len() && #[trigger] s[k].0 == x;
            lemma_map_of_entry(s, k);
            if k < s.len() - 1 {
                lemma_map_of_entry(s2, k);
                if x == n {
                    lemma_name_lt_irreflexive(x);
                }
            }
        }
        assert(map_of(s) =~= m);
    }
}

/// Reading back the text that `write` gives yields exactly the store's
/// entries, and binding them gives the store's mapping again, for any store
/// whose names hold no `:` and whose names and paths hold no line break.
pub proof fn law_write_then_read(store: TargetsFile)
    requires
        store.wf(),
        forall|i: int| 0 <= i < store.entries().len() ==> plain_entry(#[trigger] store.entries()[i]),
    ensures
        parse_text(render(store.entries())) == store.entries(),
        bindings(parse_text(render(store.entries()))) == store.targets_map(),
{
    let s = store.entries();
    if s.len() == 0 {
        assert(text_lines(render(s)) =~= Seq::<Seq<char>>::empty());
    } else {
        lemma_render_lines(s);
        lemma_line_of(s.last());
        assert(text_lines(render(s)) =~= s.map_values(|e: (Seq<char>, Seq<char>)| line_of(e)));
    }
    lemma_entries_of_lines(s);
    lemma_bindings_sorted(s);
}

proof fn lemma_select_none(s: Seq<(Seq<char>, Seq<char>)>, flags: Seq<bool>)
    requires
        s.len() == flags.len(),
        forall|i: int| 0 <= i < flags.len() ==> flags[i],
    ensures
        select(s, flags, false).len() == 0,
    decreases s.len(),
{
    if s.len() > 0 {
        lemma_select_none(s.drop_last(), flags.drop_last());
    }
}

/// With the filesystem unchanged (`on_disk` tells which paths exist), a second
/// `clean` removes nothing: every target that the first one kept exists.
pub proof fn law_clean_twice(
    store: TargetsFile,
    on_disk: spec_fn(Seq<char>) -> bool,
    first: Seq<bool>,
    second: Seq<bool>,
)
    requires
        store.wf(),
        first.len() == store.entries().len(),
        forall|i: int| 0 <= i < first.len() ==> first[i] == on_disk(#[trigger] store.entries()[i].1),
        second.len() == select(store.entries(), first, true).len(),
        forall|j: int| 0 <= j < second.len() ==> second[j] == on_disk(
            #[trigger] select(store.entries(), first, true)[j].1,
        ),
    ensures
        select(select(store.entries(), first, true), second, false).len() == 0,
{
    let s = store.entries();
    let kept = select(s, first, true);
    lemma_select_members(s, first, true);
    assert forall|j: int| 0 <= j < second.len() implies second[j] by {
        let i = choose|i: int| 0 <= i < s.len() && first[i] == true && #[trigger] kept[j] == s[i];
        assert(first[i] == on_disk(s[i].1));
    }
    lemma_select_none(kept, second);
}

} // verus!
