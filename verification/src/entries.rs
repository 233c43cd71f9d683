//! The entries of a glossary as the service takes them: trimmed, without
//! the empty ones, in the order of their source terms, one line for each.

use vstd::prelude::*;
use crate::text::{append_chars, chars_of, copy_range, string_of};

verus! {

/// White space, as Unicode defines it.
pub open spec fn is_space(c: char) -> bool {
    let v = c as u32;
    (0x09 <= v && v <= 0x0D) || v == 0x20 || v == 0x85 || v == 0xA0 || v == 0x1680 || (0x2000 <= v
        && v <= 0x200A) || v == 0x2028 || v == 0x2029 || v == 0x202F || v == 0x205F || v == 0x3000
}

/// The number of white-space characters in front of `s`.
pub open spec fn leading_spaces(s: Seq<char>) -> int
    decreases s.len(),
{
    if s.len() > 0 && is_space(s[0]) {
        1 + leading_spaces(s.skip(1))
    } else {
        0
    }
}

/// The number of white-space characters at the end of `s`.
pub open spec fn trailing_spaces(s: Seq<char>) -> int
    decreases s.len(),
{
    if s.len() > 0 && is_space(s.last()) {
        1 + trailing_spaces(s.drop_last())
    } else {
        0
    }
}

/// `s` without the white space in front of it and at its end.
pub open spec fn trimmed(s: Seq<char>) -> Seq<char> {
    let front = s.skip(leading_spaces(s));
    front.take(front.len() - trailing_spaces(front))
}

/// A pair of terms with each term trimmed.
pub open spec fn trimmed_pair(e: (Seq<char>, Seq<char>)) -> (Seq<char>, Seq<char>) {
    (trimmed(e.0), trimmed(e.1))
}

/// The entries that are kept: those of which neither term is empty once
/// it is trimmed, each with its terms trimmed.
pub open spec fn kept_entries(entries: Seq<(Seq<char>, Seq<char>)>) -> Seq<(Seq<char>, Seq<char>)>
    decreases entries.len(),
{
    if entries.len() == 0 {
        Seq::empty()
    } else {
        let e = trimmed_pair(entries[0]);
        if e.0.len() == 0 || e.1.len() == 0 {
            kept_entries(entries.skip(1))
        } else {
            seq![e] + kept_entries(entries.skip(1))
        }
    }
}

/// `a` stands before `b` in the order of dictionaries, character by
/// character.
pub open spec fn precedes(a: Seq<char>, b: Seq<char>) -> bool
    decreases a.len(),
{
    if b.len() == 0 {
        false
    } else if a.len() == 0 {
        true
    } else if (a[0] as u32) < (b[0] as u32) {
        true
    } else if (a[0] as u32) > (b[0] as u32) {
        false
    } else {
        precedes(a.skip(1), b.skip(1))
    }
}

/// `sorted` with `e` put in behind the entries whose source term does not
/// stand after that of `e`.
pub open spec fn insert_entry(sorted: Seq<(Seq<char>, Seq<char>)>, e: (Seq<char>, Seq<char>)) -> Seq<
    (Seq<char>, Seq<char>),
>
    decreases sorted.len(),
{
    if sorted.len() == 0 {
        seq![e]
    } else if precedes(e.0, sorted[0].0) {
        seq![e] + sorted
    } else {
        seq![sorted[0]] + insert_entry(sorted.skip(1), e)
    }
}

/// The entries in the order of their source terms; entries with one
/// source term keep their order.
pub open spec fn sorted_entries(entries: Seq<(Seq<char>, Seq<char>)>) -> Seq<(Seq<char>, Seq<char>)>
    decreases entries.len(),
{
    if entries.len() == 0 {
        Seq::empty()
    } else {
        insert_entry(sorted_entries(entries.drop_last()), entries.last())
    }
}

/// One line of the table: the two terms with a tabulator between them.
pub open spec fn tsv_row(e: (Seq<char>, Seq<char>)) -> Seq<char> {
    e.0 + seq!['\t'] + e.1
}

/// The lines of the table with a line feed between each two.
pub open spec fn tsv_rows(entries: Seq<(Seq<char>, Seq<char>)>) -> Seq<char>
    decreases entries.len(),
{
    if entries.len() == 0 {
        Seq::empty()
    } else if entries.len() == 1 {
        tsv_row(entries[0])
    } else {
        tsv_rows(entries.drop_last()) + seq!['\n'] + tsv_row(entries.last())
    }
}

/// The table that the service is given for a list of entries.
pub open spec fn glossary_tsv(entries: Seq<(Seq<char>, Seq<char>)>) -> Seq<char> {
    tsv_rows(sorted_entries(kept_entries(entries)))
}

/// The views of a list of pairs of character vectors.
pub open spec fn char_pairs(v: Seq<(Vec<char>, Vec<char>)>) -> Seq<(Seq<char>, Seq<char>)> {
    Seq::new(v.len(), |i: int| (v[i].0@, v[i].1@))
}

/// The views of a list of pairs of strings.
pub open spec fn string_pairs(v: Seq<(String, String)>) -> Seq<(Seq<char>, Seq<char>)> {
    Seq::new(v.len(), |i: int| (v[i].0@, v[i].1@))
}

/// Computes `is_space`.
pub fn space(c: char) -> (r: bool)
    ensures
        r == is_space(c),
{
    let v: u32 = c as u32;
    (0x09 <= v && v <= 0x0D) || v == 0x20 || v == 0x85 || v == 0xA0 || v == 0x1680 || (0x2000 <= v
        && v <= 0x200A) || v == 0x2028 || v == 0x2029 || v == 0x202F || v == 0x205F || v == 0x3000
}

/// Computes `trimmed`.
pub fn trim(s: &Vec<char>) -> (r: Vec<char>)
    ensures
        r@ == trimmed(s@),
{
    let mut from: usize = 0;
    proof {
        assert(s@.skip(0) =~= s@);
    }
    while from < s.len() && space(s[from])
        invariant
            from <= s.len(),
            leading_spaces(s@) == from + leading_spaces(s@.skip(from as int)),
        decreases s.len() - from,
    {
        proof {
            assert(s@.skip(from as int).skip(1) =~= s@.skip(from + 1));
        }
        from += 1;
    }
    let ghost front = s@.skip(from as int);
    let mut to: usize = s.len();
    proof {
        assert(front.take(front.len() as int) =~= front);
    }
    while to > from && space(s[to - 1])
        invariant
            from <= to <= s.len(),
            front == s@.skip(from as int),
            trailing_spaces(front) == (s.len() - to) + trailing_spaces(front.take(to - from)),
        decreases to - from,
    {
        proof {
            let t = front.take(to - from);
            assert(t.last() == s@[to - 1]);
            assert(t.drop_last() =~= front.take(to - 1 - from));
        }
        to -= 1;
    }
    proof {
        let t = front.take(to - from);
        if to > from {
            assert(t.last() == s@[to - 1]);
        }
        assert(trailing_spaces(t) == 0);
        assert(t =~= s@.subrange(from as int, to as int));
    }
    copy_range(s, from, to)
}

/// Computes `precedes`.
pub fn stands_before(a: &Vec<char>, b: &Vec<char>) -> (r: bool)
    ensures
        r == precedes(a@, b@),
{
    let mut i: usize = 0;
    proof {
        assert(a@.skip(0) =~= a@);
        assert(b@.skip(0) =~= b@);
    }
    loop
        invariant
            i <= a.len(),
            i <= b.len(),
            precedes(a@, b@) == precedes(a@.skip(i as int), b@.skip(i as int)),
        decreases a.len() - i,
    {
        if i >= b.len() {
            return false;
        }
        if i >= a.len() {
            return true;
        }
        let x: u32 = a[i] as u32;
        let y: u32 = b[i] as u32;
        proof {
            assert(a@.skip(i as int)[0] == a@[i as int]);
            assert(b@.skip(i as int)[0] == b@[i as int]);
            assert(a@.skip(i as int).skip(1) =~= a@.skip(i + 1));
            assert(b@.skip(i as int).skip(1) =~= b@.skip(i + 1));
        }
        if x < y {
            return true;
        }
        if x > y {
            return false;
        }
        i += 1;
    }
}

/// Putting an entry in at index `at` is `insert_entry` where no entry
/// before `at` stands after it and the one at `at` does.
pub proof fn lemma_insert_entry(
    sorted: Seq<(Seq<char>, Seq<char>)>,
    e: (Seq<char>, Seq<char>),
    at: int,
)
    requires
        0 <= at <= sorted.len(),
        forall|i: int| 0 <= i < at ==> !precedes(e.0, (#[trigger] sorted[i]).0),
        at < sorted.len() ==> precedes(e.0, sorted[at].0),
    ensures
        insert_entry(sorted, e) == sorted.insert(at, e),
    decreases sorted.len(),
{
    if sorted.len() == 0 {
        assert(sorted.insert(at, e) =~= seq![e]);
    } else if at == 0 {
        assert(sorted.insert(0, e) =~= seq![e] + sorted);
    } else {
        assert(!precedes(e.0, sorted[0].0));
        let tail = sorted.skip(1);
        assert forall|i: int| 0 <= i < at - 1 implies !precedes(e.0, (#[trigger] tail[i]).0) by {
            assert(tail[i] == sorted[i + 1]);
        }
        lemma_insert_entry(tail, e, at - 1);
        assert(sorted.insert(at, e) =~= seq![sorted[0]] + tail.insert(at - 1, e));
    }
}

/// Computes `sorted_entries(kept_entries(..))`.
pub fn prepare_entries(entries: &Vec<(String, String)>) -> (r: Vec<(Vec<char>, Vec<char>)>)
    ensures
        char_pairs(r@) == sorted_entries(kept_entries(string_pairs(entries@))),
{
    let ghost all = string_pairs(entries@);
    let mut kept: Vec<(Vec<char>, Vec<char>)> = Vec::new();
    let mut k: usize = 0;
    proof {
        assert(all.skip(0) =~= all);
        assert(char_pairs(kept@) + kept_entries(all) =~= kept_entries(all));
    }
    while k < entries.len()
        invariant
            k <= entries.len(),
            all == string_pairs(entries@),
            char_pairs(kept@) + kept_entries(all.skip(k as int)) == kept_entries(all),
        decreases entries.len() - k,
    {
        let from = trim(&chars_of(entries[k].0.as_str()));
        let to = trim(&chars_of(entries[k].1.as_str()));
        let ghost rest = all.skip(k as int);
        let ghost before = char_pairs(kept@);
        proof {
            assert(rest[0] == all[k as int]);
            assert(rest.skip(1) =~= all.skip(k + 1));
        }
        if from.len() > 0 && to.len() > 0 {
            kept.push((from, to));
            proof {
                let e = trimmed_pair(rest[0]);
                assert(char_pairs(kept@) =~= before.push(e));
                assert(char_pairs(kept@) + kept_entries(all.skip(k + 1)) =~= before + (seq![e]
                    + kept_entries(rest.skip(1))));
            }
        }
        k += 1;
    }
    proof {
        assert(all.skip(all.len() as int) =~= Seq::<(Seq<char>, Seq<char>)>::empty());
        assert(char_pairs(kept@) + Seq::<(Seq<char>, Seq<char>)>::empty() =~= char_pairs(kept@));
    }
    let mut sorted: Vec<(Vec<char>, Vec<char>)> = Vec::new();
    let ghost chosen = char_pairs(kept@);
    proof {
        assert(chosen.take(0) =~= Seq::<(Seq<char>, Seq<char>)>::empty());
        assert(char_pairs(sorted@) =~= Seq::<(Seq<char>, Seq<char>)>::empty());
    }
    while kept.len() > 0
        invariant
            kept.len() <= chosen.len(),
            char_pairs(kept@) == chosen.skip(chosen.len() - kept.len()),
            char_pairs(sorted@) == sorted_entries(chosen.take(chosen.len() - kept.len())),
        decreases kept.len(),
    {
        let ghost done = chosen.len() - kept.len();
        let ghost kept_before = char_pairs(kept@);
        let e = kept.remove(0);
        proof {
            assert(kept_before[0] == (e.0@, e.1@));
            assert(char_pairs(kept@) =~= kept_before.skip(1));
            assert(char_pairs(kept@) =~= chosen.skip(done + 1));
            assert(chosen[done] == (e.0@, e.1@));
        }
        let mut at: usize = 0;
        while at < sorted.len() && !stands_before(&e.0, &sorted[at].0)
            invariant
                at <= sorted.len(),
                forall|i: int| 0 <= i < at ==> !precedes(e.0@, (#[trigger] char_pairs(sorted@)[i]).0),
            decreases sorted.len() - at,
        {
            assert(char_pairs(sorted@)[at as int].0 == sorted@[at as int].0@);
            at += 1;
        }
        proof {
            if at < sorted.len() {
                assert(char_pairs(sorted@)[at as int].0 == sorted@[at as int].0@);
            }
            lemma_insert_entry(char_pairs(sorted@), (e.0@, e.1@), at as int);
            let next = chosen.take(done + 1);
            assert(next.drop_last() =~= chosen.take(done));
            assert(next.last() == (e.0@, e.1@));
            assert(char_pairs(sorted@.insert(at as int, e)) =~= char_pairs(sorted@).insert(
                at as int,
                (e.0@, e.1@),
            ));
        }
        sorted.insert(at, e);
    }
    proof {
        assert(chosen.take(chosen.len() as int) =~= chosen);
    }
    sorted
}

/// The table that the service is given for a list of entries.
pub fn entries_tsv(entries: &Vec<(String, String)>) -> (r: String)
    ensures
        r@ == glossary_tsv(string_pairs(entries@)),
{
    let rows = prepare_entries(entries);
    let ghost all = char_pairs(rows@);
    let mut out: Vec<char> = Vec::new();
    let mut k: usize = 0;
    proof {
        assert(all.take(0) =~= Seq::<(Seq<char>, Seq<char>)>::empty());
    }
    while k < rows.len()
        invariant
            k <= rows.len(),
            all == char_pairs(rows@),
            out@ == tsv_rows(all.take(k as int)),
        decreases rows.len() - k,
    {
        proof {
            let next = all.take(k + 1);
            assert(next.drop_last() =~= all.take(k as int));
            assert(next.last() == (rows@[k as int].0@, rows@[k as int].1@));
            if k == 0 {
                assert(next[0] == next.last());
            }
        }
        let ghost before = out@;
        if k > 0 {
            out.push('\n');
        }
        append_chars(&mut out, &rows[k].0);
        out.push('\t');
        append_chars(&mut out, &rows[k].1);
        proof {
            let row = tsv_row((rows@[k as int].0@, rows@[k as int].1@));
            if k > 0 {
                assert(out@ =~= before + seq!['\n'] + row);
            } else {
                assert(out@ =~= row);
            }
        }
        k += 1;
    }
    proof {
        assert(all.take(all.len() as int) =~= all);
    }
    string_of(&out)
}

/// The index of the first entry whose source term stands behind that of
/// `e`, or the number of entries.
pub open spec fn first_behind(sorted: Seq<(Seq<char>, Seq<char>)>, e: (Seq<char>, Seq<char>)) -> int
    decreases sorted.len(),
{
    if sorted.len() > 0 && !precedes(e.0, sorted[0].0) {
        1 + first_behind(sorted.skip(1), e)
    } else {
        0
    }
}

/// No source term stands before one that comes earlier.
pub open spec fn in_order(entries: Seq<(Seq<char>, Seq<char>)>) -> bool {
    forall|i: int, j: int|
        0 <= i < j < entries.len() ==> !precedes((#[trigger] entries[j]).0, (#[trigger] entries[i]).0)
}

/// What stands before something that stands before a third stands before
/// the third.
pub proof fn lemma_precedes_transitive(a: Seq<char>, b: Seq<char>, c: Seq<char>)
    requires
        precedes(a, b),
        precedes(b, c),
    ensures
        precedes(a, c),
    decreases a.len(),
{
    if a.len() > 0 && b.len() > 0 && c.len() > 0 {
        if (a[0] as u32) == (b[0] as u32) && (b[0] as u32) == (c[0] as u32) {
            lemma_precedes_transitive(a.skip(1), b.skip(1), c.skip(1));
        }
    }
}

/// Of two texts that are not the same in the order, one stands before the
/// other; and nothing stands before itself.
pub proof fn lemma_precedes_asymmetric(a: Seq<char>, b: Seq<char>)
    ensures
        !(precedes(a, b) && precedes(b, a)),
    decreases a.len(),
{
    if a.len() > 0 && b.len() > 0 && (a[0] as u32) == (b[0] as u32) {
        lemma_precedes_asymmetric(a.skip(1), b.skip(1));
    }
}

/// An entry is put in before the first entry whose source term stands
/// behind its own.
pub proof fn lemma_insert_at_first_behind(
    sorted: Seq<(Seq<char>, Seq<char>)>,
    e: (Seq<char>, Seq<char>),
)
    ensures
        0 <= first_behind(sorted, e) <= sorted.len(),
        forall|i: int| 0 <= i < first_behind(sorted, e) ==> !precedes(e.0, (#[trigger] sorted[i]).0),
        first_behind(sorted, e) < sorted.len() ==> precedes(e.0, sorted[first_behind(sorted, e)].0),
        insert_entry(sorted, e) == sorted.insert(first_behind(sorted, e), e),
    decreases sorted.len(),
{
    if sorted.len() > 0 && !precedes(e.0, sorted[0].0) {
        let tail = sorted.skip(1);
        lemma_insert_at_first_behind(tail, e);
        let at = first_behind(tail, e);
        assert forall|i: int| 0 <= i < at + 1 implies !precedes(e.0, (#[trigger] sorted[i]).0) by {
            if i > 0 {
                assert(sorted[i] == tail[i - 1]);
            }
        }
        if at + 1 < sorted.len() {
            assert(sorted[at + 1] == tail[at]);
        }
    }
    lemma_insert_entry(sorted, e, first_behind(sorted, e));
}

/// The entries that are sent are the entries that were kept, each once
/// for each time it was kept, in the order of their source terms.
pub proof fn lemma_sorted_entries(entries: Seq<(Seq<char>, Seq<char>)>)
    ensures
        in_order(sorted_entries(entries)),
        sorted_entries(entries).to_multiset() == entries.to_multiset(),
        sorted_entries(entries).len() == entries.len(),
    decreases entries.len(),
{
    broadcast use vstd::seq_lib::to_multiset_build, vstd::seq_lib::to_multiset_insert;

    if entries.len() > 0 {
        let before = entries.drop_last();
        let last = entries.last();
        lemma_sorted_entries(before);
        let sorted = sorted_entries(before);
        lemma_insert_at_first_behind(sorted, last);
        let at = first_behind(sorted, last);
        let all = sorted.insert(at, last);
        assert(sorted_entries(entries) == all);
        assert(before.push(last) =~= entries);
        assert(all.to_multiset() == sorted.to_multiset().insert(last));
        assert(entries.to_multiset() == before.to_multiset().insert(last));
        assert forall|i: int, j: int| 0 <= i < j < all.len() implies !precedes(
            (#[trigger] all[j]).0,
            (#[trigger] all[i]).0,
        ) by {
            if j < at {
                assert(all[i] == sorted[i] && all[j] == sorted[j]);
            } else if j == at {
                assert(all[i] == sorted[i]);
            } else if i < at {
                assert(all[i] == sorted[i] && all[j] == sorted[j - 1]);
                if i < j - 1 {
                    assert(!precedes(sorted[j - 1].0, sorted[i].0));
                }
            } else if i == at {
                assert(all[j] == sorted[j - 1]);
                // what follows the place does not stand before the entry
                if at < j - 1 {
                    assert(!precedes(sorted[j - 1].0, sorted[at].0));
                }
                if precedes(sorted[j - 1].0, last.0) {
                    lemma_precedes_transitive(sorted[j - 1].0, last.0, sorted[at].0);
                    if at == j - 1 {
                        lemma_precedes_asymmetric(sorted[at].0, sorted[at].0);
                    }
                }
            } else {
                assert(all[i] == sorted[i - 1] && all[j] == sorted[j - 1]);
            }
        }
    } else {
        assert(sorted_entries(entries) =~= entries);
    }
}

} // verus!
