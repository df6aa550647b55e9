//! The entries of a scan, and the order in which they are printed.
use crate::gather;
use crate::text;
use vstd::prelude::*;

verus! {

/// One line of a scan, as the order sees it.
pub struct EntryView {
    /// The number in the line's key, where the key could be read.
    pub number: Option<u64>,
    /// The line's key: its first word.
    pub word: Seq<char>,
    pub line: Seq<char>,
}

/// One line of a scan, with the key that it starts with.
#[derive(Debug)]
pub struct Entry {
    pub number: Option<u64>,
    pub word: String,
    pub line: String,
}

impl View for Entry {
    type V = EntryView;

    open spec fn view(&self) -> EntryView {
        EntryView { number: self.number, word: self.word@, line: self.line@ }
    }
}

/// The views of a vector of entries.
pub open spec fn entry_views(v: Seq<Entry>) -> Seq<EntryView> {
    v.map_values(|e: Entry| e@)
}

/// Whether `read_key` reads keys as `read` says: `None` where the text is no key.
pub open spec fn reads_as<R: Fn(&str) -> Option<u64>>(
    read_key: R,
    read: spec_fn(Seq<char>) -> Option<u64>,
) -> bool {
    forall|k: &str, n: Option<u64>| #[trigger] read_key.ensures((k,), n) ==> n == read(k@)
}

/// The first word of a line, or nothing where it has none.
pub open spec fn first_word(line: Seq<char>) -> Seq<char> {
    if text::words(line).len() > 0 {
        text::words(line)[0]
    } else {
        Seq::empty()
    }
}

/// The entry that a line makes when keys are read by `read`.
pub open spec fn entry_of(line: Seq<char>, read: spec_fn(Seq<char>) -> Option<u64>) -> EntryView {
    EntryView { number: read(first_word(line)), word: first_word(line), line }
}

/// The entries that lines make when keys are read by `read`.
pub open spec fn entries_of(
    lines: Seq<Seq<char>>,
    read: spec_fn(Seq<char>) -> Option<u64>,
) -> Seq<EntryView> {
    lines.map_values(|l: Seq<char>| entry_of(l, read))
}

/// The lines of entries.
pub open spec fn lines_of(entries: Seq<EntryView>) -> Seq<Seq<char>> {
    entries.map_values(|e: EntryView| e.line)
}

/// Whether `a` is printed before `b`: by the numbers of their keys where both are known, by the
/// keys' texts where one is not.
pub open spec fn entry_less(a: EntryView, b: EntryView) -> bool {
    match (a.number, b.number) {
        (Some(x), Some(y)) => x < y,
        _ => text::text_less(a.word, b.word),
    }
}

/// `s` with `x` put in front of those last entries that come after it.
pub open spec fn insert_entry(s: Seq<EntryView>, x: EntryView) -> Seq<EntryView>
    decreases s.len(),
{
    if s.len() > 0 && entry_less(x, s.last()) {
        insert_entry(s.drop_last(), x).push(s.last())
    } else {
        s.push(x)
    }
}

/// The entries of `s` in the order in which they are printed. Entries of which neither comes
/// before the other stay in the order that they have in `s`.
pub open spec fn sorted(s: Seq<EntryView>) -> Seq<EntryView>
    decreases s.len(),
{
    if s.len() == 0 {
        s
    } else {
        insert_entry(sorted(s.drop_last()), s.last())
    }
}

/// `lines` in the order in which they are printed when keys are read by `read`.
pub open spec fn printed_lines(
    lines: Seq<Seq<char>>,
    read: spec_fn(Seq<char>) -> Option<u64>,
) -> Seq<Seq<char>> {
    lines_of(sorted(entries_of(lines, read)))
}

/// Whether `word` is read as a key to put `lines` into order: a line that stands alone has no
/// order.
pub open spec fn is_read(lines: Seq<Seq<char>>, word: Seq<char>) -> bool {
    lines.len() > 1 && exists|i: int|
        0 <= i < lines.len() && first_word(#[trigger] lines[i]) == word
}

/// Whether the order of the entries `s` is consistent: of three entries, if none comes before
/// the one ahead of it, the last does not come before the first.
pub open spec fn consistent(s: Seq<EntryView>) -> bool {
    forall|i: int, j: int, k: int|
        0 <= i < s.len() && 0 <= j < s.len() && 0 <= k < s.len() && !entry_less(
            #[trigger] s[i],
            #[trigger] s[j],
        ) && !entry_less(s[j], #[trigger] s[k]) ==> !entry_less(s[i], s[k])
}

/// Whether no entry comes before one that stands ahead of it.
pub open spec fn in_order(s: Seq<EntryView>) -> bool {
    forall|i: int, j: int| 0 <= i < j < s.len() ==> !entry_less(#[trigger] s[j], #[trigger] s[i])
}

/// Whether `a` is printed before `b`.
fn is_before(a: &Entry, b: &Entry) -> (r: bool)
    ensures
        r == entry_less(a@, b@),
{
    match (a.number, b.number) {
        (Some(x), Some(y)) => x < y,
        _ => text::comes_before(a.word.as_str(), b.word.as_str()),
    }
}

/// Where `insert_entry` puts an entry.
proof fn insert_entry_at(s: Seq<EntryView>, x: EntryView, p: int)
    requires
        0 <= p <= s.len(),
        forall|j: int| p <= j < s.len() ==> entry_less(x, #[trigger] s[j]),
        p > 0 ==> !entry_less(x, s[p - 1]),
    ensures
        insert_entry(s, x) == s.insert(p, x),
    decreases s.len(),
{
    if p < s.len() {
        insert_entry_at(s.drop_last(), x, p);
        assert(s.drop_last().insert(p, x).push(s.last()) == s.insert(p, x));
    } else {
        assert(s.insert(p, x) == s.push(x));
    }
}

/// Puts entries into the order in which they are printed.
pub fn sort_entries(entries: Vec<Entry>) -> (out: Vec<Entry>)
    ensures
        entry_views(out@) == sorted(entry_views(entries@)),
{
    let ghost all = entry_views(entries@);
    let mut out: Vec<Entry> = Vec::new();
    for e in it: entries
        invariant
            all == entry_views(it.seq()),
            entry_views(out@) == sorted(all.take(it.index() as int)),
    {
        let ghost i = it.index() as int;
        let ghost before = entry_views(out@);
        let mut p: usize = out.len();
        while p > 0 && is_before(&e, &out[p - 1])
            invariant
                before == entry_views(out@),
                p <= out@.len(),
                forall|j: int| p <= j < before.len() ==> entry_less(e@, #[trigger] before[j]),
            decreases p,
        {
            p = p - 1;
        }
        proof {
            insert_entry_at(before, e@, p as int);
            assert(all.take(i + 1).drop_last() == all.take(i));
            assert(all.take(i + 1).last() == e@);
        }
        out.insert(p, e);
        assert(entry_views(out@) == before.insert(p as int, e@));
    }
    assert(all.take(all.len() as int) == all);
    out
}

/// Puts lines into the order in which they are printed.
pub fn order_lines<R: Fn(&str) -> Option<u64>>(lines: Vec<String>, read_key: &R) -> (out: Vec<
    String,
>)
    requires
        forall|k: &str| is_read(text::texts(lines@), k@) ==> #[trigger] read_key.requires((k,)),
    ensures
        forall|read: spec_fn(Seq<char>) -> Option<u64>| #[trigger]
            reads_as(*read_key, read) ==> text::texts(out@) == printed_lines(
                text::texts(lines@),
                read,
            ),
        text::texts(out@).to_multiset() == text::texts(lines@).to_multiset(),
        out@.len() == lines@.len(),
{
    let ghost all = text::texts(lines@);
    if lines.len() < 2 {
        assert forall|read: spec_fn(Seq<char>) -> Option<u64>| #[trigger]
            reads_as(*read_key, read) implies all == printed_lines(all, read) by {
            sorted_keeps_what_is_in_order(entries_of(all, read));
            assert(lines_of(entries_of(all, read)) == all);
        }
        return lines;
    }
    let mut found: Vec<Entry> = Vec::new();
    for line in it: lines
        invariant
            all == text::texts(it.seq()),
            all.len() > 1,
            forall|k: &str| is_read(all, k@) ==> #[trigger] read_key.requires((k,)),
            found@.len() == it.index(),
            lines_of(entry_views(found@)) == all.take(it.index() as int),
            forall|read: spec_fn(Seq<char>) -> Option<u64>| #[trigger]
                reads_as(*read_key, read) ==> entry_views(found@) == entries_of(
                    all.take(it.index() as int),
                    read,
                ),
    {
        let ghost i = it.index() as int;
        assert(all[i] == line@);
        let parts = text::split_words(line.as_str());
        assert(text::words(line@) == text::texts(parts@));
        let word = if parts.len() > 0 {
            parts[0].clone()
        } else {
            String::new()
        };
        assert(word@ == first_word(line@));
        let number = read_key(word.as_str());
        let ghost before = entry_views(found@);
        let e = Entry { number, word, line };
        found.push(e);
        assert(entry_views(found@) == before.push(e@));
        assert(lines_of(before.push(e@)) == lines_of(before).push(all[i]));
        assert(all.take(i + 1) == all.take(i).push(all[i]));
        assert forall|read: spec_fn(Seq<char>) -> Option<u64>| #[trigger]
            reads_as(*read_key, read) implies entry_views(found@) == entries_of(
            all.take(i + 1),
            read,
        ) by {
            assert(e@ == entry_of(all[i], read));
            assert(entries_of(all.take(i + 1), read) == entries_of(all.take(i), read).push(e@));
        }
    }
    assert(all.take(all.len() as int) == all);
    let ghost unsorted = entry_views(found@);
    let ordered = sort_entries(found);
    proof {
        sorted_keeps_entries(unsorted);
        sorted_keeps_lines(unsorted);
    }
    let ghost views = sorted(unsorted);
    let mut out: Vec<String> = Vec::new();
    assert(text::texts(out@) == lines_of(views.take(0)));
    for e in it: ordered
        invariant
            views == entry_views(it.seq()),
            out@.len() == it.index(),
            text::texts(out@) == lines_of(views.take(it.index() as int)),
    {
        let ghost i = it.index() as int;
        let ghost before = text::texts(out@);
        let line = e.line;
        assert(views[i].line == line@);
        assert(lines_of(views.take(i + 1)) == lines_of(views.take(i)).push(line@));
        out.push(line);
        assert(text::texts(out@) == before.push(line@));
    }
    assert(views.take(views.len() as int) == views);
    out
}

/// Putting in one entry adds that entry and takes none away.
proof fn insert_keeps_entries(s: Seq<EntryView>, x: EntryView)
    ensures
        insert_entry(s, x).to_multiset() == s.to_multiset().insert(x),
    decreases s.len(),
{
    broadcast use vstd::seq_lib::group_to_multiset_ensures;

    if s.len() > 0 && entry_less(x, s.last()) {
        insert_keeps_entries(s.drop_last(), x);
        assert(s.drop_last().push(s.last()) == s);
        assert(s.to_multiset() =~= s.drop_last().to_multiset().insert(s.last()));
        assert(insert_entry(s, x).to_multiset() =~= s.to_multiset().insert(x));
    }
}

/// Sorting neither loses an entry nor adds one.
pub proof fn sorted_keeps_entries(s: Seq<EntryView>)
    ensures
        sorted(s).to_multiset() == s.to_multiset(),
        sorted(s).len() == s.len(),
    decreases s.len(),
{
    broadcast use vstd::seq_lib::group_to_multiset_ensures;

    if s.len() > 0 {
        sorted_keeps_entries(s.drop_last());
        insert_keeps_entries(sorted(s.drop_last()), s.last());
        assert(s.drop_last().push(s.last()) == s);
        assert(sorted(s).to_multiset() =~= s.to_multiset());
    }
    assert(sorted(s).len() == sorted(s).to_multiset().len());
    assert(s.len() == s.to_multiset().len());
}

/// An entry that stands in the sorted entries stands in the entries.
proof fn sorted_contains(s: Seq<EntryView>, e: EntryView)
    requires
        sorted(s).contains(e),
    ensures
        s.contains(e),
{
    broadcast use vstd::seq_lib::group_to_multiset_ensures;

    sorted_keeps_entries(s);
    assert(sorted(s).to_multiset().count(e) > 0);
}

/// No two texts come before each other.
proof fn text_less_one_way(a: Seq<char>, b: Seq<char>)
    ensures
        !(text::text_less(a, b) && text::text_less(b, a)),
    decreases a.len(),
{
    if a.len() > 0 && b.len() > 0 {
        text_less_one_way(a.drop_first(), b.drop_first());
    }
}

/// A text that does not come before a second, where that does not come before a third, does not
/// come before the third.
proof fn text_less_passes_on(a: Seq<char>, b: Seq<char>, c: Seq<char>)
    requires
        !text::text_less(a, b),
        !text::text_less(b, c),
    ensures
        !text::text_less(a, c),
    decreases a.len(),
{
    if a.len() > 0 && b.len() > 0 && c.len() > 0 {
        if a[0] == c[0] {
            assert(a[0] == b[0]);
            text_less_passes_on(a.drop_first(), b.drop_first(), c.drop_first());
        }
    }
}

/// No two entries come before each other.
pub proof fn entry_less_one_way(a: EntryView, b: EntryView)
    ensures
        !(entry_less(a, b) && entry_less(b, a)),
{
    text_less_one_way(a.word, b.word);
}

/// Entries whose keys could all be read have a consistent order.
pub proof fn numbered_entries_are_consistent(s: Seq<EntryView>)
    requires
        forall|i: int| 0 <= i < s.len() ==> (#[trigger] s[i]).number is Some,
    ensures
        consistent(s),
{
}

/// Entries of whose keys none could be read have a consistent order.
pub proof fn unnumbered_entries_are_consistent(s: Seq<EntryView>)
    requires
        forall|i: int| 0 <= i < s.len() ==> (#[trigger] s[i]).number is None,
    ensures
        consistent(s),
{
    assert forall|i: int, j: int, k: int|
        0 <= i < s.len() && 0 <= j < s.len() && 0 <= k < s.len() && !entry_less(
            #[trigger] s[i],
            #[trigger] s[j],
        ) && !entry_less(s[j], #[trigger] s[k]) implies !entry_less(s[i], s[k]) by {
        text_less_passes_on(s[i].word, s[j].word, s[k].word);
    }
}

/// Putting an entry into entries that are in order leaves them in order, where `all` holds all
/// of them and its order is consistent.
proof fn insert_keeps_order(all: Seq<EntryView>, s: Seq<EntryView>, x: EntryView)
    requires
        consistent(all),
        all.contains(x),
        forall|i: int| 0 <= i < s.len() ==> all.contains(#[trigger] s[i]),
        in_order(s),
    ensures
        in_order(insert_entry(s, x)),
        forall|i: int|
            0 <= i < insert_entry(s, x).len() ==> {
                let e = #[trigger] insert_entry(s, x)[i];
                e == x || s.contains(e)
            },
    decreases s.len(),
{
    let out = insert_entry(s, x);
    if s.len() > 0 && entry_less(x, s.last()) {
        let front = s.drop_last();
        insert_keeps_order(all, front, x);
        let inner = insert_entry(front, x);
        entry_less_one_way(x, s.last());
        assert forall|i: int| 0 <= i < inner.len() implies !entry_less(
            s.last(),
            #[trigger] inner[i],
        ) by {
            if inner[i] != x {
                let k = choose|k: int| 0 <= k < front.len() && front[k] == inner[i];
                assert(s[k] == inner[i]);
                assert(!entry_less(s[s.len() - 1], s[k]));
            }
        }
        assert forall|i: int| 0 <= i < out.len() implies {
            let e = #[trigger] out[i];
            e == x || s.contains(e)
        } by {
            if i < inner.len() {
                assert(out[i] == inner[i]);
                if inner[i] != x {
                    let k = choose|k: int| 0 <= k < front.len() && front[k] == inner[i];
                    assert(s[k] == inner[i]);
                }
            } else {
                assert(s[s.len() - 1] == out[i]);
            }
        }
    } else {
        assert forall|i: int| 0 <= i < s.len() implies !entry_less(x, #[trigger] s[i]) by {
            let last = s[s.len() - 1];
            let a = choose|k: int| 0 <= k < all.len() && all[k] == x;
            let b = choose|k: int| 0 <= k < all.len() && all[k] == last;
            let c = choose|k: int| 0 <= k < all.len() && all[k] == s[i];
            assert(all.contains(last));
            assert(all.contains(s[i]));
            assert(!entry_less(all[a], all[b]));
            if i < s.len() - 1 {
                assert(!entry_less(all[b], all[c]));
            }
        }
    }
}

/// Where the order of the entries is consistent, no sorted entry comes before one that stands
/// ahead of it.
pub proof fn sorted_is_in_order(s: Seq<EntryView>)
    requires
        consistent(s),
    ensures
        in_order(sorted(s)),
    decreases s.len(),
{
    if s.len() > 0 {
        let front = s.drop_last();
        assert(consistent(front)) by {
            assert forall|i: int, j: int, k: int|
                0 <= i < front.len() && 0 <= j < front.len() && 0 <= k < front.len()
                    && !entry_less(#[trigger] front[i], #[trigger] front[j]) && !entry_less(
                    front[j],
                    #[trigger] front[k],
                ) implies !entry_less(front[i], front[k]) by {
                assert(!entry_less(s[i], s[j]) && !entry_less(s[j], s[k]));
            }
        }
        sorted_is_in_order(front);
        assert forall|i: int| 0 <= i < sorted(front).len() implies s.contains(
            #[trigger] sorted(front)[i],
        ) by {
            sorted_contains(front, sorted(front)[i]);
            let k = choose|k: int| 0 <= k < front.len() && front[k] == sorted(front)[i];
            assert(s[k] == sorted(front)[i]);
        }
        assert(s[s.len() - 1] == s.last());
        insert_keeps_order(s, sorted(front), s.last());
    }
}

/// Whether no entry that `p` picks comes before another that it picks.
pub open spec fn picks_equals(p: spec_fn(EntryView) -> bool) -> bool {
    forall|a: EntryView, b: EntryView| p(a) && p(b) ==> !#[trigger] entry_less(a, b)
}

/// Putting in one entry leaves the others in the order that they had, and puts it behind those
/// that are its equals.
proof fn insert_keeps_equals(s: Seq<EntryView>, x: EntryView, p: spec_fn(EntryView) -> bool)
    requires
        picks_equals(p),
    ensures
        insert_entry(s, x).filter(p) == (if p(x) {
            s.filter(p).push(x)
        } else {
            s.filter(p)
        }),
    decreases s.len(),
{
    reveal(Seq::filter);
    if s.len() > 0 && entry_less(x, s.last()) {
        insert_keeps_equals(s.drop_last(), x, p);
        let out = insert_entry(s, x);
        assert(out.drop_last() == insert_entry(s.drop_last(), x));
    } else {
        assert(s.push(x).drop_last() == s);
    }
}

/// Sorting is stable: entries of which none comes before another stay in the order that they
/// had.
pub proof fn sorted_keeps_equals(s: Seq<EntryView>, p: spec_fn(EntryView) -> bool)
    requires
        picks_equals(p),
    ensures
        sorted(s).filter(p) == s.filter(p),
    decreases s.len(),
{
    reveal(Seq::filter);
    if s.len() > 0 {
        sorted_keeps_equals(s.drop_last(), p);
        insert_keeps_equals(sorted(s.drop_last()), s.last(), p);
    }
}

/// Entries that are in order already stay as they are.
pub proof fn sorted_keeps_what_is_in_order(s: Seq<EntryView>)
    requires
        in_order(s),
    ensures
        sorted(s) == s,
    decreases s.len(),
{
    if s.len() > 0 {
        let front = s.drop_last();
        assert(in_order(front));
        sorted_keeps_what_is_in_order(front);
        if front.len() > 0 {
            assert(!entry_less(s[s.len() - 1], s[s.len() - 2]));
        }
        assert(front.push(s.last()) == s);
    }
}

/// Whether of any two different entries one comes before the other.
pub open spec fn all_comparable(s: Seq<EntryView>) -> bool {
    forall|i: int, j: int|
        0 <= i < s.len() && 0 <= j < s.len() && s[i] != s[j] ==> entry_less(
            #[trigger] s[i],
            #[trigger] s[j],
        ) || entry_less(s[j], s[i])
}

/// There is one way to put comparable entries in order.
proof fn order_is_unique(a: Seq<EntryView>, b: Seq<EntryView>)
    requires
        a.to_multiset() == b.to_multiset(),
        in_order(a),
        in_order(b),
        all_comparable(a),
    ensures
        a == b,
    decreases a.len(),
{
    broadcast use vstd::seq_lib::group_to_multiset_ensures;

    assert(a.len() == a.to_multiset().len());
    assert(b.len() == b.to_multiset().len());
    if a.len() > 0 {
        let n = a.len() - 1;
        let x = a[n];
        let y = b[n];
        assert(a.contains(x));
        assert(b.contains(y));
        assert(a.to_multiset().count(x) > 0);
        assert(b.to_multiset().count(y) > 0);
        assert(b.contains(x));
        assert(a.contains(y));
        if x != y {
            let k = choose|k: int| 0 <= k < b.len() && b[k] == x;
            let m = choose|m: int| 0 <= m < a.len() && a[m] == y;
            assert(!entry_less(b[n], b[k]));
            assert(!entry_less(a[n], a[m]));
            assert(entry_less(a[n], a[m]) || entry_less(a[m], a[n]));
        }
        assert(a.remove(n) == a.drop_last());
        assert(b.remove(n) == b.drop_last());
        assert(a.drop_last().to_multiset() == b.drop_last().to_multiset());
        assert(in_order(a.drop_last()));
        assert(in_order(b.drop_last()));
        assert(all_comparable(a.drop_last())) by {
            let s = a.drop_last();
            assert forall|i: int, j: int|
                0 <= i < s.len() && 0 <= j < s.len() && s[i] != s[j] implies entry_less(
                #[trigger] s[i],
                #[trigger] s[j],
            ) || entry_less(s[j], s[i]) by {
                assert(a[i] != a[j]);
                assert(entry_less(a[i], a[j]) || entry_less(a[j], a[i]));
            }
        }
        order_is_unique(a.drop_last(), b.drop_last());
        assert(a.drop_last().push(x) == a);
        assert(b.drop_last().push(y) == b);
    }
}

/// The order in which comparable entries come does not matter to the order in which they are
/// printed.
pub proof fn sorted_ignores_order(s: Seq<EntryView>, t: Seq<EntryView>)
    requires
        s.to_multiset() == t.to_multiset(),
        consistent(s),
        consistent(t),
        all_comparable(s),
    ensures
        sorted(s) == sorted(t),
{
    sorted_is_in_order(s);
    sorted_is_in_order(t);
    sorted_keeps_entries(s);
    sorted_keeps_entries(t);
    let a = sorted(s);
    assert forall|i: int, j: int|
        0 <= i < a.len() && 0 <= j < a.len() && a[i] != a[j] implies entry_less(
        #[trigger] a[i],
        #[trigger] a[j],
    ) || entry_less(a[j], a[i]) by {
        assert(a.contains(a[i]));
        assert(a.contains(a[j]));
        sorted_contains(s, a[i]);
        sorted_contains(s, a[j]);
        let k = choose|k: int| 0 <= k < s.len() && s[k] == a[i];
        let m = choose|m: int| 0 <= m < s.len() && s[m] == a[j];
        assert(s[k] != s[m]);
        assert(entry_less(s[k], s[m]) || entry_less(s[m], s[k]));
    }
    order_is_unique(sorted(s), sorted(t));
}

/// A sorted entry is the one that its line makes.
proof fn sorted_entry_is_its_line(
    lines: Seq<Seq<char>>,
    read: spec_fn(Seq<char>) -> Option<u64>,
    i: int,
)
    requires
        0 <= i < printed_lines(lines, read).len(),
    ensures
        sorted(entries_of(lines, read))[i] == entry_of(printed_lines(lines, read)[i], read),
        lines.contains(printed_lines(lines, read)[i]),
{
    let s = entries_of(lines, read);
    let e = sorted(s)[i];
    assert(sorted(s).contains(e));
    sorted_contains(s, e);
    let k = choose|k: int| 0 <= k < s.len() && s[k] == e;
    assert(s[k] == entry_of(lines[k], read));
    assert(lines[k] == e.line);
}

/// Lines whose keys can all be read are printed by ascending numbers of their keys.
pub proof fn printed_lines_ascend(
    lines: Seq<Seq<char>>,
    read: spec_fn(Seq<char>) -> Option<u64>,
)
    requires
        forall|i: int| 0 <= i < lines.len() ==> read(first_word(#[trigger] lines[i])) is Some,
    ensures
        ({
            let out = printed_lines(lines, read);
            forall|i: int, j: int|
                0 <= i < j < out.len() ==> read(first_word(#[trigger] out[i])).unwrap() <= read(
                    first_word(#[trigger] out[j]),
                ).unwrap()
        }),
{
    let s = entries_of(lines, read);
    assert forall|i: int| 0 <= i < s.len() implies (#[trigger] s[i]).number is Some by {
        assert(read(first_word(lines[i])) is Some);
    }
    numbered_entries_are_consistent(s);
    sorted_is_in_order(s);
    let out = printed_lines(lines, read);
    assert forall|i: int, j: int| 0 <= i < j < out.len() implies read(
        first_word(#[trigger] out[i]),
    ).unwrap() <= read(first_word(#[trigger] out[j])).unwrap() by {
        sorted_entry_is_its_line(lines, read, i);
        sorted_entry_is_its_line(lines, read, j);
        assert(!entry_less(sorted(s)[j], sorted(s)[i]));
    }
}

/// All lines are printed, each as often as it came, and no others.
pub proof fn printed_lines_are_the_lines(
    lines: Seq<Seq<char>>,
    read: spec_fn(Seq<char>) -> Option<u64>,
)
    ensures
        printed_lines(lines, read).to_multiset() == lines.to_multiset(),
    decreases lines.len(),
{
    broadcast use vstd::seq_lib::group_to_multiset_ensures;

    if lines.len() == 0 {
        assert(printed_lines(lines, read) == lines);
    } else {
        let front = lines.drop_last();
        printed_lines_are_the_lines(front, read);
        let s = entries_of(lines, read);
        assert(s.drop_last() == entries_of(front, read));
        insert_keeps_lines(sorted(s.drop_last()), s.last());
        assert(front.push(lines.last()) == lines);
        assert(printed_lines(lines, read).to_multiset() =~= lines.to_multiset());
    }
}

proof fn insert_keeps_lines(s: Seq<EntryView>, x: EntryView)
    ensures
        lines_of(insert_entry(s, x)).to_multiset() == lines_of(s).to_multiset().insert(x.line),
    decreases s.len(),
{
    broadcast use vstd::seq_lib::group_to_multiset_ensures;

    if s.len() > 0 && entry_less(x, s.last()) {
        let front = s.drop_last();
        insert_keeps_lines(front, x);
        assert(lines_of(front).push(s.last().line) == lines_of(s));
        assert(lines_of(insert_entry(s, x)) == lines_of(insert_entry(front, x)).push(
            s.last().line,
        ));
        assert(lines_of(insert_entry(s, x)).to_multiset() =~= lines_of(s).to_multiset().insert(
            x.line,
        ));
    } else {
        assert(lines_of(s.push(x)) == lines_of(s).push(x.line));
    }
}

proof fn sorted_keeps_lines(s: Seq<EntryView>)
    ensures
        lines_of(sorted(s)).to_multiset() == lines_of(s).to_multiset(),
    decreases s.len(),
{
    broadcast use vstd::seq_lib::group_to_multiset_ensures;

    if s.len() > 0 {
        sorted_keeps_lines(s.drop_last());
        insert_keeps_lines(sorted(s.drop_last()), s.last());
        assert(lines_of(s) == lines_of(s.drop_last()).push(s.last().line));
        assert(lines_of(sorted(s)).to_multiset() =~= lines_of(s).to_multiset());
    }
}

/// Whether the keys of all `lines` can be read, and lines that differ have keys of different
/// numbers.
pub open spec fn keys_tell_apart(
    lines: Seq<Seq<char>>,
    read: spec_fn(Seq<char>) -> Option<u64>,
) -> bool {
    &&& forall|i: int| 0 <= i < lines.len() ==> read(first_word(#[trigger] lines[i])) is Some
    &&& forall|i: int, j: int|
        0 <= i < lines.len() && 0 <= j < lines.len() && #[trigger] lines[i] != #[trigger] lines[j]
            ==> read(first_word(lines[i])) != read(first_word(lines[j]))
}

/// Where keys tell the lines apart, the order in which they come does not matter to the order in
/// which they are printed.
pub proof fn printed_lines_ignore_order(
    a: Seq<Seq<char>>,
    b: Seq<Seq<char>>,
    read: spec_fn(Seq<char>) -> Option<u64>,
)
    requires
        a.to_multiset() == b.to_multiset(),
        keys_tell_apart(a, read),
    ensures
        printed_lines(a, read) == printed_lines(b, read),
{
    let s = entries_of(a, read);
    let t = entries_of(b, read);
    gather::mapping_ignores_order(a, b, |l: Seq<char>| entry_of(l, read));
    assert forall|i: int| 0 <= i < s.len() implies (#[trigger] s[i]).number is Some by {
        assert(read(first_word(a[i])) is Some);
    }
    assert forall|i: int| 0 <= i < t.len() implies (#[trigger] t[i]).number is Some by {
        assert(b.contains(b[i]));
        gather::same_elements(a, b, b[i]);
        let k = choose|k: int| 0 <= k < a.len() && a[k] == b[i];
        assert(read(first_word(a[k])) is Some);
    }
    numbered_entries_are_consistent(s);
    numbered_entries_are_consistent(t);
    assert forall|i: int, j: int|
        0 <= i < s.len() && 0 <= j < s.len() && s[i] != s[j] implies entry_less(
        #[trigger] s[i],
        #[trigger] s[j],
    ) || entry_less(s[j], s[i]) by {
        assert(a[i] != a[j]);
    }
    sorted_ignores_order(s, t);
}

/// Whether a line's key has the number `n`.
pub open spec fn has_number(
    read: spec_fn(Seq<char>) -> Option<u64>,
    n: u64,
) -> spec_fn(Seq<char>) -> bool {
    |l: Seq<char>| read(first_word(l)) == Some(n)
}

proof fn lines_of_filtered(
    s: Seq<EntryView>,
    read: spec_fn(Seq<char>) -> Option<u64>,
    n: u64,
    p: spec_fn(EntryView) -> bool,
)
    requires
        forall|i: int| 0 <= i < s.len() ==> #[trigger] s[i] == entry_of(s[i].line, read),
        forall|e: EntryView| #[trigger] p(e) <==> e.number == Some(n),
    ensures
        lines_of(s.filter(p)) == lines_of(s).filter(has_number(read, n)),
    decreases s.len(),
{
    reveal(Seq::filter);
    if s.len() > 0 {
        let front = s.drop_last();
        lines_of_filtered(front, read, n, p);
        assert(lines_of(s).drop_last() == lines_of(front));
        assert(s[s.len() - 1] == entry_of(s[s.len() - 1].line, read));
        assert(lines_of(s).last() == s.last().line);
        assert(p(s.last()) == has_number(read, n)(s.last().line));
        if p(s.last()) {
            assert(lines_of(front.filter(p).push(s.last())) == lines_of(front.filter(p)).push(
                s.last().line,
            ));
        }
    } else {
        assert(lines_of(s.filter(p)) == lines_of(s).filter(has_number(read, n)));
    }
}

/// Lines whose keys have the same number are printed in the order in which they came.
pub proof fn printed_lines_keep_ties(
    lines: Seq<Seq<char>>,
    read: spec_fn(Seq<char>) -> Option<u64>,
    n: u64,
)
    ensures
        printed_lines(lines, read).filter(has_number(read, n)) == lines.filter(
            has_number(read, n),
        ),
{
    let p = |e: EntryView| e.number == Some(n);
    let s = entries_of(lines, read);
    sorted_keeps_equals(s, p);
    let out = sorted(s);
    assert forall|i: int| 0 <= i < out.len() implies #[trigger] out[i] == entry_of(
        out[i].line,
        read,
    ) by {
        sorted_entry_is_its_line(lines, read, i);
        assert(printed_lines(lines, read)[i] == out[i].line);
    }
    lines_of_filtered(out, read, n, p);
    lines_of_filtered(s, read, n, p);
    assert(lines_of(s) == lines);
}

/// The first word of a line is the text in front of its first white space, past the white space
/// that the line starts with.
pub proof fn first_word_comes_first(pre: Seq<char>, w: Seq<char>, rest: Seq<char>)
    requires
        forall|i: int| 0 <= i < pre.len() ==> text::is_whitespace(#[trigger] pre[i]),
        w.len() > 0,
        forall|i: int| 0 <= i < w.len() ==> !text::is_whitespace(#[trigger] w[i]),
        rest.len() > 0 ==> text::is_whitespace(rest[0]),
    ensures
        first_word(pre + w + rest) == w,
{
    assert(pre + w + rest == pre + (w + rest));
    text::leading_whitespace_adds_no_words(pre, w + rest);
    text::whitespace_separates(w, rest);
    text::unbroken_text_is_one_word(w);
    assert((seq![w] + text::words(rest))[0] == w);
}

/// Whether no entry comes before the one right ahead of it.
spec fn neighbours_in_order(s: Seq<EntryView>) -> bool {
    forall|i: int, j: int|
        0 <= i && j == i + 1 && j < s.len() ==> !entry_less(#[trigger] s[j], #[trigger] s[i])
}

proof fn insert_keeps_neighbours(s: Seq<EntryView>, x: EntryView)
    requires
        neighbours_in_order(s),
    ensures
        neighbours_in_order(insert_entry(s, x)),
        insert_entry(s, x).len() == s.len() + 1,
        insert_entry(s, x).last() == x || (s.len() > 0 && insert_entry(s, x).last() == s.last()),
    decreases s.len(),
{
    if s.len() > 0 && entry_less(x, s.last()) {
        let front = s.drop_last();
        assert(neighbours_in_order(front)) by {
            assert forall|i: int, j: int| 0 <= i && j == i + 1 && j < front.len() implies !entry_less(
                #[trigger] front[j],
                #[trigger] front[i],
            ) by {
                assert(!entry_less(s[j], s[i]));
            }
        }
        insert_keeps_neighbours(front, x);
        let inner = insert_entry(front, x);
        let out = insert_entry(s, x);
        entry_less_one_way(x, s.last());
        assert forall|i: int, j: int| 0 <= i && j == i + 1 && j < out.len() implies !entry_less(
            #[trigger] out[j],
            #[trigger] out[i],
        ) by {
            if j < inner.len() {
                assert(!entry_less(inner[j], inner[i]));
            } else if inner.last() != x {
                assert(!entry_less(s[s.len() - 1], s[s.len() - 2]));
            }
        }
    } else {
        let out = insert_entry(s, x);
        assert forall|i: int, j: int| 0 <= i && j == i + 1 && j < out.len() implies !entry_less(
            #[trigger] out[j],
            #[trigger] out[i],
        ) by {
            if j < s.len() {
                assert(!entry_less(s[j], s[i]));
            }
        }
    }
}

proof fn sorted_neighbours(s: Seq<EntryView>)
    ensures
        neighbours_in_order(sorted(s)),
    decreases s.len(),
{
    if s.len() > 0 {
        sorted_neighbours(s.drop_last());
        insert_keeps_neighbours(sorted(s.drop_last()), s.last());
    }
}

/// Of two lines that are printed one right behind the other, the second does not come before the
/// first: not by the numbers of their keys where both can be read, and not by the keys' texts where
/// one cannot.
pub proof fn printed_neighbours_are_in_order(
    lines: Seq<Seq<char>>,
    read: spec_fn(Seq<char>) -> Option<u64>,
)
    ensures
        ({
            let out = printed_lines(lines, read);
            forall|i: int, j: int|
                0 <= i && j == i + 1 && j < out.len() ==> match (
                    read(first_word(#[trigger] out[i])),
                    read(first_word(#[trigger] out[j])),
                ) {
                    (Some(x), Some(y)) => x <= y,
                    _ => !text::text_less(first_word(out[j]), first_word(out[i])),
                }
        }),
{
    let s = entries_of(lines, read);
    sorted_neighbours(s);
    let out = printed_lines(lines, read);
    assert forall|i: int, j: int| 0 <= i && j == i + 1 && j < out.len() implies match (
        read(first_word(#[trigger] out[i])),
        read(first_word(#[trigger] out[j])),
    ) {
        (Some(x), Some(y)) => x <= y,
        _ => !text::text_less(first_word(out[j]), first_word(out[i])),
    } by {
        sorted_entry_is_its_line(lines, read, i);
        sorted_entry_is_its_line(lines, read, j);
        assert(!entry_less(sorted(s)[j], sorted(s)[i]));
    }
}

proof fn lines_of_picked(
    s: Seq<EntryView>,
    read: spec_fn(Seq<char>) -> Option<u64>,
    p: spec_fn(EntryView) -> bool,
    q: spec_fn(Seq<char>) -> bool,
)
    requires
        forall|i: int| 0 <= i < s.len() ==> #[trigger] s[i] == entry_of(s[i].line, read),
        forall|l: Seq<char>| p(#[trigger] entry_of(l, read)) == q(l),
    ensures
        lines_of(s.filter(p)) == lines_of(s).filter(q),
    decreases s.len(),
{
    reveal(Seq::filter);
    if s.len() > 0 {
        let front = s.drop_last();
        lines_of_picked(front, read, p, q);
        assert(lines_of(s).drop_last() == lines_of(front));
        assert(s[s.len() - 1] == entry_of(s[s.len() - 1].line, read));
        assert(lines_of(s).last() == s.last().line);
        if p(s.last()) {
            assert(lines_of(front.filter(p).push(s.last())) == lines_of(front.filter(p)).push(
                s.last().line,
            ));
        }
    } else {
        assert(lines_of(s.filter(p)) == lines_of(s).filter(q));
    }
}

/// Lines that start with the same word are printed in the order in which they came, each of them,
/// whether the word can be read as a key or not.
pub proof fn printed_lines_keep_the_order_of_a_word(
    lines: Seq<Seq<char>>,
    read: spec_fn(Seq<char>) -> Option<u64>,
    w: Seq<char>,
)
    ensures
        printed_lines(lines, read).filter(|l: Seq<char>| first_word(l) == w) == lines.filter(
            |l: Seq<char>| first_word(l) == w,
        ),
{
    let p = |e: EntryView| e.word == w && e.number == read(w);
    let q = |l: Seq<char>| first_word(l) == w;
    let s = entries_of(lines, read);
    assert(picks_equals(p)) by {
        text_less_one_way(w, w);
    }
    sorted_keeps_equals(s, p);
    let out = sorted(s);
    assert forall|i: int| 0 <= i < out.len() implies #[trigger] out[i] == entry_of(
        out[i].line,
        read,
    ) by {
        sorted_entry_is_its_line(lines, read, i);
        assert(printed_lines(lines, read)[i] == out[i].line);
    }
    lines_of_picked(out, read, p, q);
    lines_of_picked(s, read, p, q);
    assert(lines_of(s) == lines);
}

} // verus!
