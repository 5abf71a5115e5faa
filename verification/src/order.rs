//! The order in which an archive keeps its entries: by ASCII-lowercased
//! name, then by resource type, kept stably. The order is specified as a
//! stable insertion sort and computed by a merge sort proved equal to it.

use vstd::prelude::*;
use crate::archive::{Entry, EntryView};
use crate::text::{ascii_lowercase, chars_of, lowercase_chars, same_chars};

verus! {

/// `a` comes strictly before `b` in lexicographic order of code points
/// (which is also the byte order of their UTF-8 encodings).
pub open spec fn chars_lt(a: Seq<char>, b: Seq<char>) -> bool
    decreases a.len(),
{
    if a.len() == 0 {
        b.len() > 0
    } else if b.len() == 0 {
        false
    } else if (a[0] as u32) < (b[0] as u32) {
        true
    } else if a[0] == b[0] {
        chars_lt(a.drop_first(), b.drop_first())
    } else {
        false
    }
}

/// The sort key of an entry: its name in ASCII lower case.
pub open spec fn sort_name(e: EntryView) -> Seq<char> {
    ascii_lowercase(e.name)
}

/// `x` sorts strictly before `y`: by lowered name, then by type id.
pub open spec fn sort_key_lt(x: EntryView, y: EntryView) -> bool {
    chars_lt(sort_name(x), sort_name(y)) || (sort_name(x) == sort_name(y) && x.type_id
        < y.type_id)
}

/// Where a stable insertion puts `x` into `s`: after every element that
/// does not sort strictly after it, counting from the end.
pub open spec fn insertion_point(s: Seq<EntryView>, x: EntryView) -> int
    decreases s.len(),
{
    if s.len() > 0 && sort_key_lt(x, s.last()) {
        insertion_point(s.drop_last(), x)
    } else {
        s.len() as int
    }
}

/// `s` sorted stably by `sort_key_lt`.
pub open spec fn sort_entries(s: Seq<EntryView>) -> Seq<EntryView>
    decreases s.len(),
{
    if s.len() == 0 {
        s
    } else {
        let t = sort_entries(s.drop_last());
        t.insert(insertion_point(t, s.last()), s.last())
    }
}

/// The views of a sequence of entries.
pub open spec fn entry_views(s: Seq<Entry>) -> Seq<EntryView> {
    s.map_values(|e: Entry| e@)
}

/// No entry of `s` sorts strictly before the one preceding it.
pub open spec fn is_sorted(s: Seq<EntryView>) -> bool {
    forall|i: int| 0 < i < s.len() ==> !sort_key_lt(#[trigger] s[i], s[i - 1])
}

proof fn lemma_insertion_point_bounds(s: Seq<EntryView>, x: EntryView)
    ensures
        0 <= insertion_point(s, x) <= s.len(),
    decreases s.len(),
{
    if s.len() > 0 && sort_key_lt(x, s.last()) {
        lemma_insertion_point_bounds(s.drop_last(), x);
    }
}

/// Whether `a` comes strictly before `b` in code-point order.
pub fn chars_less(a: &[char], b: &[char]) -> (r: bool)
    ensures
        r == chars_lt(a@, b@),
{
    let mut i: usize = 0;
    assert(a@.skip(0) =~= a@);
    assert(b@.skip(0) =~= b@);
    loop
        invariant
            i <= a@.len(),
            i <= b@.len(),
            chars_lt(a@, b@) == chars_lt(a@.skip(i as int), b@.skip(i as int)),
        decreases a@.len() - i,
    {
        if i == a.len() {
            return i < b.len();
        }
        if i == b.len() {
            return false;
        }
        let x = a[i];
        let y = b[i];
        if (x as u32) < (y as u32) {
            return true;
        }
        if x != y {
            return false;
        }
        assert(a@.skip(i as int).drop_first() =~= a@.skip(i + 1));
        assert(b@.skip(i as int).drop_first() =~= b@.skip(i + 1));
        i = i + 1;
    }
}

/// Whether an entry with lowered name `a` and type `ta` sorts strictly
/// before one with lowered name `b` and type `tb`.
fn key_before(a: &[char], ta: u16, b: &[char], tb: u16) -> (r: bool)
    ensures
        r == (chars_lt(a@, b@) || (a@ == b@ && ta < tb)),
{
    chars_less(a, b) || (same_chars(a, b) && ta < tb)
}

/// An entry together with its sort name, computed once.
struct Keyed {
    key: Vec<char>,
    entry: Entry,
}

/// Every key in `v` is the sort name of its entry.
spec fn keys_match(v: Seq<Keyed>) -> bool {
    forall|i: int| 0 <= i < v.len() ==> (#[trigger] v[i]).key@ == sort_name(v[i].entry@)
}

/// The entries of `v`, as views.
spec fn keyed_views(v: Seq<Keyed>) -> Seq<EntryView> {
    v.map_values(|k: Keyed| k.entry@)
}

/// Merges two runs stably (see `merge_entries`), from the back.
fn merge_keyed(a: Vec<Keyed>, b: Vec<Keyed>) -> (r: Vec<Keyed>)
    requires
        keys_match(a@),
        keys_match(b@),
    ensures
        keys_match(r@),
        keyed_views(r@) == merge_entries(keyed_views(a@), keyed_views(b@)),
{
    let ghost goal = merge_entries(keyed_views(a@), keyed_views(b@));
    let mut a = a;
    let mut b = b;
    let mut rev: Vec<Keyed> = Vec::new();
    let ghost mut suffix: Seq<EntryView> = Seq::empty();
    assert(goal == merge_entries(keyed_views(a@), keyed_views(b@)) + suffix);
    while a.len() > 0 || b.len() > 0
        invariant
            keys_match(a@),
            keys_match(b@),
            keys_match(rev@),
            goal == merge_entries(keyed_views(a@), keyed_views(b@)) + suffix,
            rev@.len() == suffix.len(),
            forall|i: int| 0 <= i < rev@.len() ==> (#[trigger] rev@[i]).entry@ == suffix[suffix.len() - 1 - i],
        decreases a@.len() + b@.len(),
    {
        let ghost va = keyed_views(a@);
        let ghost vb = keyed_views(b@);
        let take_a = if a.len() == 0 {
            false
        } else if b.len() == 0 {
            true
        } else {
            let x = &b[b.len() - 1];
            let y = &a[a.len() - 1];
            assert(x == b@[b@.len() - 1] && y == a@[a@.len() - 1]);
            key_before(x.key.as_slice(), x.entry.type_id, y.key.as_slice(), y.entry.type_id)
        };
        proof {
            if va.len() > 0 && vb.len() > 0 {
                assert(take_a == sort_key_lt(vb.last(), va.last()));
            }
        }
        let k = if take_a {
            a.pop().unwrap()
        } else {
            b.pop().unwrap()
        };
        proof {
            if take_a {
                assert(keyed_views(a@) =~= va.drop_last());
                assert(k.entry@ == va.last());
                assert(merge_entries(va, vb) == merge_entries(va.drop_last(), vb).push(va.last()));
            } else {
                assert(keyed_views(b@) =~= vb.drop_last());
                assert(k.entry@ == vb.last());
                assert(merge_entries(va, vb) == merge_entries(va, vb.drop_last()).push(vb.last()));
            }
            let old_suffix = suffix;
            suffix = seq![k.entry@] + suffix;
            assert(goal =~= merge_entries(keyed_views(a@), keyed_views(b@)) + suffix);
        }
        let ghost rev_before = rev@;
        rev.push(k);
        proof {
            assert forall|i: int| 0 <= i < rev@.len() implies (#[trigger] rev@[i]).entry@ == suffix[suffix.len() - 1 - i] by {
                if i < rev_before.len() {
                    assert(rev@[i] == rev_before[i]);
                }
            }
        }
    }
    proof {
        assert(keyed_views(a@) =~= Seq::<EntryView>::empty());
        assert(goal =~= keyed_views(b@) + suffix);
        assert(keyed_views(b@) =~= Seq::<EntryView>::empty());
        assert(goal =~= suffix);
    }
    let mut out: Vec<Keyed> = Vec::new();
    while rev.len() > 0
        invariant
            keys_match(rev@),
            keys_match(out@),
            rev@.len() <= suffix.len(),
            goal == suffix,
            forall|i: int| 0 <= i < rev@.len() ==> (#[trigger] rev@[i]).entry@ == suffix[suffix.len() - 1 - i],
            keyed_views(out@) == suffix.take(suffix.len() - rev@.len()),
        decreases rev@.len(),
    {
        let ghost before = rev@;
        let ghost out_before = keyed_views(out@);
        let k = rev.pop().unwrap();
        assert(k == before[before.len() - 1]);
        assert(rev@ =~= before.drop_last());
        out.push(k);
        assert(keyed_views(out@) =~= out_before.push(k.entry@));
        assert(suffix.take(suffix.len() - rev@.len()) =~= suffix.take(suffix.len() - before.len()).push(
            suffix[suffix.len() - before.len()],
        ));
        assert forall|i: int| 0 <= i < rev@.len() implies (#[trigger] rev@[i]).entry@ == suffix[suffix.len() - 1 - i] by {
            assert(rev@[i] == before[i]);
        }
    }
    assert(suffix.take(suffix.len() as int) =~= suffix);
    out
}

/// Sorts `v` stably by key: a merge sort.
fn sort_keyed(v: Vec<Keyed>) -> (r: Vec<Keyed>)
    requires
        keys_match(v@),
    ensures
        keys_match(r@),
        keyed_views(r@) == sort_entries(keyed_views(v@)),
    decreases v@.len(),
{
    if v.len() <= 1 {
        proof {
            let s = keyed_views(v@);
            if s.len() == 1 {
                let e = Seq::<EntryView>::empty();
                assert(s.drop_last() =~= e);
                assert(sort_entries(s.drop_last()) == e);
                assert(insertion_point(e, s.last()) == 0);
                assert(e.insert(0, s.last()) =~= s);
                assert(sort_entries(s) =~= s);
            }
        }
        return v;
    }
    let ghost whole = keyed_views(v@);
    let mut left = v;
    let mid = left.len() / 2;
    let right = left.split_off(mid);
    proof {
        assert(whole =~= keyed_views(left@) + keyed_views(right@));
        lemma_sort_append(keyed_views(left@), keyed_views(right@));
    }
    let sorted_left = sort_keyed(left);
    let sorted_right = sort_keyed(right);
    merge_keyed(sorted_left, sorted_right)
}

/// Sorts `entries` stably by lowered name and type id, as `sort_by_key`
/// does; a merge sort that computes each lowered name once.
pub fn sort_entry_vec(entries: Vec<Entry>) -> (r: Vec<Entry>)
    ensures
        entry_views(r@) == sort_entries(entry_views(entries@)),
{
    let ghost input = entry_views(entries@);
    let mut keyed: Vec<Keyed> = Vec::new();
    for e in it: entries.into_iter()
        invariant
            it.seq() == entries@,
            input == entry_views(entries@),
            keys_match(keyed@),
            keyed_views(keyed@) == input.take(it.index() as int),
    {
        let key = lowercase_chars(chars_of(e.name.as_str()).as_slice());
        let ghost before = keyed_views(keyed@);
        let ghost ev = e@;
        keyed.push(Keyed { key, entry: e });
        proof {
            assert(keyed_views(keyed@) =~= before.push(ev));
            assert(input.take(it.index() + 1) =~= input.take(it.index() as int).push(input[it.index() as int]));
        }
    }
    assert(input.take(input.len() as int) =~= input);
    let sorted = sort_keyed(keyed);
    let ghost target = keyed_views(sorted@);
    let mut out: Vec<Entry> = Vec::new();
    for k in it: sorted.into_iter()
        invariant
            it.seq() == sorted@,
            target == keyed_views(sorted@),
            entry_views(out@) == target.take(it.index() as int),
    {
        let ghost before = entry_views(out@);
        out.push(k.entry);
        proof {
            assert(entry_views(out@) =~= before.push(target[it.index() as int]));
            assert(target.take(it.index() + 1) =~= target.take(it.index() as int).push(target[it.index() as int]));
        }
    }
    assert(target.take(target.len() as int) =~= target);
    out
}

/// Sorting a sorted sequence leaves it as it is.
pub proof fn lemma_sort_sorted(s: Seq<EntryView>)
    requires
        is_sorted(s),
    ensures
        sort_entries(s) == s,
    decreases s.len(),
{
    if s.len() > 0 {
        let t = s.drop_last();
        assert(is_sorted(t)) by {
            assert forall|i: int| 0 < i < t.len() implies !sort_key_lt(#[trigger] t[i], t[i - 1]) by {
                assert(t[i] == s[i]);
                assert(t[i - 1] == s[i - 1]);
            }
        }
        lemma_sort_sorted(t);
        if t.len() > 0 {
            assert(t.last() == s[s.len() - 2]);
            assert(!sort_key_lt(s[s.len() - 1], s[s.len() - 2]));
        }
        assert(insertion_point(t, s.last()) == t.len());
        assert(t.insert(t.len() as int, s.last()) =~= s);
    }
}

/// Whether a sequence is sorted depends only on the names and types of its entries.
pub proof fn lemma_sorted_same_keys(s: Seq<EntryView>, t: Seq<EntryView>)
    requires
        s.len() == t.len(),
        forall|i: int| 0 <= i < s.len() ==> (#[trigger] s[i]).name == t[i].name && s[i].type_id == t[i].type_id,
        is_sorted(s),
    ensures
        is_sorted(t),
{
    assert forall|i: int| 0 < i < t.len() implies !sort_key_lt(#[trigger] t[i], t[i - 1]) by {
        assert(s[i].name == t[i].name && s[i].type_id == t[i].type_id);
        assert(s[i - 1].name == t[i - 1].name && s[i - 1].type_id == t[i - 1].type_id);
        assert(!sort_key_lt(s[i], s[i - 1]));
    }
}


/// Code-point order is asymmetric and irreflexive.
proof fn lemma_chars_lt_asymmetric(a: Seq<char>, b: Seq<char>)
    ensures
        chars_lt(a, b) ==> !chars_lt(b, a) && a != b,
    decreases a.len(),
{
    if a.len() > 0 && b.len() > 0 && a[0] == b[0] {
        lemma_chars_lt_asymmetric(a.drop_first(), b.drop_first());
    }
}

/// The entry order is asymmetric.
proof fn lemma_sort_key_asymmetric(x: EntryView, y: EntryView)
    ensures
        sort_key_lt(x, y) ==> !sort_key_lt(y, x),
{
    lemma_chars_lt_asymmetric(sort_name(x), sort_name(y));
    lemma_chars_lt_asymmetric(sort_name(y), sort_name(x));
}

/// Everything from the insertion point on sorts after `x`; what precedes it does not.
proof fn lemma_insertion_point_order(t: Seq<EntryView>, x: EntryView)
    ensures
        0 <= insertion_point(t, x) <= t.len(),
        forall|j: int| insertion_point(t, x) <= j < t.len() ==> sort_key_lt(x, #[trigger] t[j]),
        insertion_point(t, x) > 0 ==> !sort_key_lt(x, t[insertion_point(t, x) - 1]),
    decreases t.len(),
{
    if t.len() > 0 && sort_key_lt(x, t.last()) {
        let u = t.drop_last();
        lemma_insertion_point_order(u, x);
        assert forall|j: int| insertion_point(t, x) <= j < t.len() implies sort_key_lt(x, #[trigger] t[j]) by {
            if j < u.len() {
                assert(t[j] == u[j]);
            }
        }
        if insertion_point(t, x) > 0 {
            assert(t[insertion_point(t, x) - 1] == u[insertion_point(t, x) - 1]);
        }
    }
}

/// Sorting gives a sorted sequence holding the same entries.
pub proof fn lemma_sort_entries(s: Seq<EntryView>)
    ensures
        is_sorted(sort_entries(s)),
        sort_entries(s).to_multiset() == s.to_multiset(),
        sort_entries(s).len() == s.len(),
    decreases s.len(),
{
    broadcast use vstd::seq_lib::group_to_multiset_ensures;
    if s.len() > 0 {
        let t = sort_entries(s.drop_last());
        let x = s.last();
        lemma_sort_entries(s.drop_last());
        lemma_insertion_point_order(t, x);
        let p = insertion_point(t, x);
        let r = t.insert(p, x);
        assert(r == sort_entries(s));
        assert forall|i: int| 0 < i < r.len() implies !sort_key_lt(#[trigger] r[i], r[i - 1]) by {
            if i < p {
                assert(r[i] == t[i] && r[i - 1] == t[i - 1]);
            } else if i == p {
                assert(r[i] == x && r[i - 1] == t[p - 1]);
            } else if i == p + 1 {
                assert(r[i] == t[p] && r[i - 1] == x);
                lemma_sort_key_asymmetric(x, t[p]);
            } else {
                assert(r[i] == t[i - 1] && r[i - 1] == t[i - 2]);
            }
        }
        vstd::seq_lib::to_multiset_insert(t, p, x);
        assert(s =~= s.drop_last().push(x));
    }
}


/// Code-point order is transitive.
proof fn lemma_chars_lt_transitive(a: Seq<char>, b: Seq<char>, c: Seq<char>)
    requires
        chars_lt(a, b),
        chars_lt(b, c),
    ensures
        chars_lt(a, c),
    decreases a.len(),
{
    if a.len() > 0 && b.len() > 0 && c.len() > 0 && a[0] == b[0] && b[0] == c[0] {
        lemma_chars_lt_transitive(a.drop_first(), b.drop_first(), c.drop_first());
    }
}

/// Code-point order is total.
proof fn lemma_chars_lt_total(a: Seq<char>, b: Seq<char>)
    ensures
        a == b || chars_lt(a, b) || chars_lt(b, a),
    decreases a.len(),
{
    if a.len() > 0 && b.len() > 0 && a[0] == b[0] {
        lemma_chars_lt_total(a.drop_first(), b.drop_first());
        if a.drop_first() == b.drop_first() {
            assert(a =~= seq![a[0]] + a.drop_first());
            assert(b =~= seq![b[0]] + b.drop_first());
        }
    } else if a.len() == 0 && b.len() == 0 {
        assert(a =~= b);
    } else if a.len() > 0 && b.len() > 0 {
        let (c, d) = (a[0], b[0]);
        vstd::utf8::char_u32_cast(c, c as u32);
        vstd::utf8::char_u32_cast(d, d as u32);
        assert((c as u32) != (d as u32));
    }
}

/// The entry order is transitive, and an entry that does not sort before
/// another sorts after it or has the same key.
proof fn lemma_sort_key_order(x: EntryView, y: EntryView, z: EntryView)
    ensures
        sort_key_lt(x, y) && sort_key_lt(y, z) ==> sort_key_lt(x, z),
        sort_key_lt(x, y) && !sort_key_lt(z, y) ==> sort_key_lt(x, z),
{
    lemma_chars_lt_asymmetric(sort_name(x), sort_name(y));
    lemma_chars_lt_asymmetric(sort_name(y), sort_name(z));
    lemma_chars_lt_total(sort_name(y), sort_name(z));
    if chars_lt(sort_name(x), sort_name(y)) && chars_lt(sort_name(y), sort_name(z)) {
        lemma_chars_lt_transitive(sort_name(x), sort_name(y), sort_name(z));
    }
}

/// `x` put into `s` where a stable insertion puts it, found from the back.
pub open spec fn insert_sorted(s: Seq<EntryView>, x: EntryView) -> Seq<EntryView>
    decreases s.len(),
{
    if s.len() > 0 && sort_key_lt(x, s.last()) {
        insert_sorted(s.drop_last(), x).push(s.last())
    } else {
        s.push(x)
    }
}

proof fn lemma_insert_sorted(s: Seq<EntryView>, x: EntryView)
    ensures
        insert_sorted(s, x) == s.insert(insertion_point(s, x), x),
    decreases s.len(),
{
    lemma_insertion_point_bounds(s, x);
    if s.len() > 0 && sort_key_lt(x, s.last()) {
        lemma_insert_sorted(s.drop_last(), x);
        lemma_insertion_point_bounds(s.drop_last(), x);
        assert(insert_sorted(s, x) =~= s.insert(insertion_point(s, x), x));
    } else {
        assert(s.push(x) =~= s.insert(s.len() as int, x));
    }
}

/// The stable merge of `a` and `b`, built from the back: on equal keys the
/// entry of `b` comes after the entry of `a`.
pub open spec fn merge_entries(a: Seq<EntryView>, b: Seq<EntryView>) -> Seq<EntryView>
    decreases a.len() + b.len(),
{
    if a.len() == 0 {
        b
    } else if b.len() == 0 {
        a
    } else if sort_key_lt(b.last(), a.last()) {
        merge_entries(a.drop_last(), b).push(a.last())
    } else {
        merge_entries(a, b.drop_last()).push(b.last())
    }
}

/// Inserting after merging is merging after inserting into the second part.
proof fn lemma_insert_merged(a: Seq<EntryView>, b: Seq<EntryView>, x: EntryView)
    ensures
        insert_sorted(merge_entries(a, b), x) == merge_entries(a, insert_sorted(b, x)),
    decreases a.len() + b.len(),
{
    if a.len() == 0 {
    } else if b.len() == 0 {
        lemma_insert_merged(a.drop_last(), b, x);
        assert(insert_sorted(b, x) =~= seq![x]);
        assert(seq![x].drop_last() =~= b);
        let one = seq![x];
        if sort_key_lt(x, a.last()) {
            assert(merge_entries(a.drop_last(), b) == a.drop_last());
            assert(merge_entries(a, one) == merge_entries(a.drop_last(), one).push(a.last()));
        } else {
            assert(merge_entries(a, one.drop_last()) == a);
            assert(merge_entries(a, one) == merge_entries(a, one.drop_last()).push(x));
        }
    } else {
        let ai = a.last();
        let bi = b.last();
        let m = merge_entries(a, b);
        lemma_sort_key_order(x, bi, ai);
        lemma_sort_key_order(x, ai, bi);
        if sort_key_lt(bi, ai) {
            assert(m == merge_entries(a.drop_last(), b).push(ai));
        } else {
            assert(m == merge_entries(a, b.drop_last()).push(bi));
        }
        if sort_key_lt(x, bi) {
            let ib = insert_sorted(b, x);
            assert(ib == insert_sorted(b.drop_last(), x).push(bi));
            assert(ib.drop_last() =~= insert_sorted(b.drop_last(), x));
            assert(ib.last() == bi);
            if sort_key_lt(bi, ai) {
                lemma_insert_merged(a.drop_last(), b, x);
                assert(merge_entries(a, ib) == merge_entries(a.drop_last(), ib).push(ai));
                assert(m.drop_last() =~= merge_entries(a.drop_last(), b));
                assert(sort_key_lt(x, m.last()));
                assert(insert_sorted(m, x) == insert_sorted(merge_entries(a.drop_last(), b), x).push(ai));
            } else {
                lemma_insert_merged(a, b.drop_last(), x);
                assert(m.drop_last() =~= merge_entries(a, b.drop_last()));
                assert(sort_key_lt(x, m.last()));
                assert(merge_entries(a, ib) == merge_entries(a, ib.drop_last()).push(bi));
                assert(insert_sorted(m, x) == insert_sorted(merge_entries(a, b.drop_last()), x).push(bi));
            }
        } else {
            let ib = b.push(x);
            assert(insert_sorted(b, x) == ib);
            assert(ib.drop_last() =~= b);
            assert(ib.last() == x);
            if sort_key_lt(x, ai) {
                assert(sort_key_lt(bi, ai));
                lemma_insert_merged(a.drop_last(), b, x);
                assert(merge_entries(a, ib) == merge_entries(a.drop_last(), ib).push(ai));
                assert(m.drop_last() =~= merge_entries(a.drop_last(), b));
                assert(sort_key_lt(x, m.last()));
                assert(insert_sorted(m, x) == insert_sorted(merge_entries(a.drop_last(), b), x).push(ai));
            } else {
                assert(merge_entries(a, ib) == merge_entries(a, b).push(x));
                assert(insert_sorted(m, x) == m.push(x));
            }
        }
    }
}

/// Sorting two runs one after the other is merging their sorted forms.
pub proof fn lemma_sort_append(s: Seq<EntryView>, t: Seq<EntryView>)
    ensures
        sort_entries(s + t) == merge_entries(sort_entries(s), sort_entries(t)),
    decreases t.len(),
{
    if t.len() == 0 {
        assert(s + t =~= s);
        let a = sort_entries(s);
        assert(sort_entries(t) =~= Seq::<EntryView>::empty());
    } else {
        let t1 = t.drop_last();
        let x = t.last();
        lemma_sort_append(s, t1);
        assert((s + t).drop_last() =~= s + t1);
        assert((s + t).last() == x);
        lemma_insert_sorted(sort_entries(s + t1), x);
        lemma_insert_sorted(sort_entries(t1), x);
        lemma_insert_merged(sort_entries(s), sort_entries(t1), x);
    }
}

} // verus!
