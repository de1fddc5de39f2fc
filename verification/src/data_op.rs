use vstd::prelude::*;
use crate::command::{Config, SortType};
use crate::files::FileSystemEntry;
use crate::text::{contains_seq, contains_sub, lex_le, lemma_lex_le_total, lemma_lex_le_trans, str_lex_le};
use vstd::string::StringExecFns;
use vstd::string::StrSliceExecFns;
use crate::json::Serializer;

verus! {

/// An entry passes the hidden-name stage iff hidden entries are shown
/// or its name does not start with a dot.
pub open spec fn keep_shown(e: FileSystemEntry, all: bool) -> bool {
    all || !e.is_hidden_spec()
}

/// An entry passes the ignore stage iff there is no ignore list or the
/// whole comma-joined ignore string does not contain its name as a
/// substring.  The entire ignore string is one haystack, as configured.
pub open spec fn keep_unignored(e: FileSystemEntry, ignore: Seq<char>) -> bool {
    !contains_seq(ignore, e.name_spec())
}

pub open spec fn shown_filter_spec(s: Seq<FileSystemEntry>, all: bool) -> Seq<FileSystemEntry> {
    s.filter(|e: FileSystemEntry| keep_shown(e, all))
}

pub open spec fn ignore_filter_spec(s: Seq<FileSystemEntry>, ignore: Option<String>) -> Seq<
    FileSystemEntry,
> {
    match ignore {
        Option::None => s,
        Option::Some(ig) => s.filter(|e: FileSystemEntry| keep_unignored(e, ig@)),
    }
}

/// The whole filter: hidden names first, then the ignore list.
pub open spec fn filter_spec(s: Seq<FileSystemEntry>, config: Config) -> Seq<FileSystemEntry> {
    ignore_filter_spec(shown_filter_spec(s, config.all), config.ignore)
}

/// Filtering a sequence whose elements all pass leaves it unchanged.
proof fn lemma_filter_all_true<A>(s: Seq<A>, pred: spec_fn(A) -> bool)
    requires
        forall|i: int| 0 <= i < s.len() ==> pred(#[trigger] s[i]),
    ensures
        s.filter(pred) == s,
    decreases s.len(),
{
    reveal(Seq::filter);
    if s.len() > 0 {
        lemma_filter_all_true(s.drop_last(), pred);
        assert(s.drop_last().filter(pred).push(s.last()) =~= s);
    }
}

/// Filtering a sequence with no passing element leaves nothing.
proof fn lemma_filter_all_false<A>(s: Seq<A>, pred: spec_fn(A) -> bool)
    requires
        forall|i: int| 0 <= i < s.len() ==> !pred(#[trigger] s[i]),
    ensures
        s.filter(pred) == Seq::<A>::empty(),
    decreases s.len(),
{
    reveal(Seq::filter);
    if s.len() > 0 {
        lemma_filter_all_false(s.drop_last(), pred);
    }
}

/// Appending one element to the input extends the filter output by that
/// element exactly when it passes.
proof fn lemma_filter_snoc<A>(s: Seq<A>, x: A, pred: spec_fn(A) -> bool)
    ensures
        (s.push(x)).filter(pred) == if pred(x) {
            s.filter(pred).push(x)
        } else {
            s.filter(pred)
        },
{
    reveal(Seq::filter);
    assert((s.push(x)).drop_last() =~= s);
    assert((s.push(x)).last() == x);
}

/// Every element of a filtered sequence comes from the original.
proof fn lemma_filter_elements<A>(s: Seq<A>, pred: spec_fn(A) -> bool)
    ensures
        forall|i: int|
            0 <= i < s.filter(pred).len() ==> s.contains(#[trigger] s.filter(pred)[i]),
    decreases s.len(),
{
    reveal(Seq::filter);
    if s.len() > 0 {
        lemma_filter_elements(s.drop_last(), pred);
        let out = s.filter(pred);
        let sub = s.drop_last().filter(pred);
        assert forall|i: int| 0 <= i < out.len() implies s.contains(#[trigger] out[i]) by {
            if pred(s.last()) && i == out.len() - 1 {
                assert(out[i] == s[s.len() - 1]);
            } else {
                assert(out[i] == sub[i]);
                assert(s.drop_last().contains(sub[i]));
                let j = choose|j: int| 0 <= j < s.drop_last().len() && s.drop_last()[j] == sub[i];
                assert(s[j] == out[i]);
            }
        }
    }
}

/// Law: the filter is idempotent — filtering an already filtered
/// sequence changes nothing.
pub proof fn lemma_filter_idempotent(s: Seq<FileSystemEntry>, config: Config)
    ensures
        filter_spec(filter_spec(s, config), config) == filter_spec(s, config),
{
    let p1 = |e: FileSystemEntry| keep_shown(e, config.all);
    let t = filter_spec(s, config);
    match config.ignore {
        Option::None => {
            assert forall|i: int| 0 <= i < t.len() implies p1(#[trigger] t[i]) by {
                s.lemma_filter_pred(p1, i);
            }
            lemma_filter_all_true(t, p1);
        },
        Option::Some(ig) => {
            let p2 = |e: FileSystemEntry| keep_unignored(e, ig@);
            let u = s.filter(p1);
            assert forall|i: int| 0 <= i < t.len() implies p1(#[trigger] t[i]) && p2(t[i]) by {
                u.lemma_filter_pred(p2, i);
                lemma_filter_elements(u, p2);
                assert(u.contains(t[i]));
                let k = choose|k: int| 0 <= k < u.len() && u[k] == t[i];
                s.lemma_filter_pred(p1, k);
            }
            lemma_filter_all_true(t, p1);
            lemma_filter_all_true(t, p2);
        },
    }
}

/// Law: with hidden entries not shown and no ignore list, the filter
/// removes exactly the entries whose name starts with a dot.
pub proof fn lemma_filter_hidden_exact(s: Seq<FileSystemEntry>, config: Config)
    requires
        !config.all,
        config.ignore is None,
    ensures
        filter_spec(s, config) == s.filter(|e: FileSystemEntry| !e.is_hidden_spec()),
{
    let p1 = |e: FileSystemEntry| keep_shown(e, config.all);
    let p = |e: FileSystemEntry| !e.is_hidden_spec();
    assert(p1 =~= p);
}

/// The keys entries can be ordered by: size, modification time, the
/// raw name, or the styled display name (ANSI escapes included).
#[derive(Debug, Clone, Copy, PartialEq, Eq, Structural)]
pub enum SortKey {
    Size,
    Time,
    Name,
    StyledName,
}

/// The sort key a configured sort type selects.
pub open spec fn sort_key_of(st: SortType) -> SortKey {
    match st {
        SortType::Size => SortKey::Size,
        SortType::Time => SortKey::Time,
        SortType::Name => SortKey::Name,
    }
}

/// The order a sort key induces on entries.
pub open spec fn key_le(a: FileSystemEntry, b: FileSystemEntry, sort: SortKey) -> bool {
    match sort {
        SortKey::Size => a.metadata_spec().size <= b.metadata_spec().size,
        SortKey::Time => a.metadata_spec().modified_at.le_spec(b.metadata_spec().modified_at),
        SortKey::Name => lex_le(a.name_spec(), b.name_spec()),
        SortKey::StyledName => lex_le(a.styled_name_spec(), b.styled_name_spec()),
    }
}

pub open spec fn key_eq(a: FileSystemEntry, b: FileSystemEntry, sort: SortKey) -> bool {
    key_le(a, b, sort) && key_le(b, a, sort)
}

pub proof fn lemma_key_le_total(a: FileSystemEntry, b: FileSystemEntry, sort: SortKey)
    ensures
        key_le(a, b, sort) || key_le(b, a, sort),
{
    if sort is Name {
        lemma_lex_le_total(a.name_spec(), b.name_spec());
    }
    if sort is StyledName {
        lemma_lex_le_total(a.styled_name_spec(), b.styled_name_spec());
    }
}

pub proof fn lemma_key_le_trans(
    a: FileSystemEntry,
    b: FileSystemEntry,
    c: FileSystemEntry,
    sort: SortKey,
)
    requires
        key_le(a, b, sort),
        key_le(b, c, sort),
    ensures
        key_le(a, c, sort),
{
    if sort is Name {
        lemma_lex_le_trans(a.name_spec(), b.name_spec(), c.name_spec());
    }
    if sort is StyledName {
        lemma_lex_le_trans(a.styled_name_spec(), b.styled_name_spec(), c.styled_name_spec());
    }
}

fn key_le_exec(a: &FileSystemEntry, b: &FileSystemEntry, sort: &SortKey) -> (r: bool)
    ensures
        r == key_le(*a, *b, *sort),
{
    match sort {
        SortKey::Size => a.metadata().size <= b.metadata().size,
        SortKey::Time => a.metadata().modified_at.le(&b.metadata().modified_at),
        SortKey::Name => str_lex_le(a.name(), b.name()),
        SortKey::StyledName => {
            let sa = a.get_styled_name();
            let sb = b.get_styled_name();
            str_lex_le(sa.as_str(), sb.as_str())
        },
    }
}

/// Where a stable insertion puts `x` into the sorted `s`: directly
/// after the last element whose key is less than or equal to `x`'s.
pub open spec fn insert_pos(s: Seq<FileSystemEntry>, x: FileSystemEntry, sort: SortKey) -> int
    decreases s.len(),
{
    if s.len() == 0 {
        0
    } else if !key_le(s[0], x, sort) {
        0
    } else {
        1 + insert_pos(s.drop_first(), x, sort)
    }
}

pub proof fn lemma_insert_pos_char(s: Seq<FileSystemEntry>, x: FileSystemEntry, sort: SortKey)
    ensures
        0 <= insert_pos(s, x, sort) <= s.len(),
        forall|q: int| 0 <= q < insert_pos(s, x, sort) ==> key_le(#[trigger] s[q], x, sort),
        insert_pos(s, x, sort) < s.len() ==> !key_le(s[insert_pos(s, x, sort)], x, sort),
    decreases s.len(),
{
    if s.len() > 0 && key_le(s[0], x, sort) {
        lemma_insert_pos_char(s.drop_first(), x, sort);
        let p = insert_pos(s, x, sort);
        assert forall|q: int| 0 <= q < p implies key_le(#[trigger] s[q], x, sort) by {
            if q > 0 {
                assert(s.drop_first()[q - 1] == s[q]);
            }
        }
        if p < s.len() {
            assert(s.drop_first()[p - 1] == s[p]);
        }
    }
}

proof fn lemma_insert_pos_from_scan(
    s: Seq<FileSystemEntry>,
    x: FileSystemEntry,
    j: int,
    sort: SortKey,
)
    requires
        0 <= j <= s.len(),
        forall|q: int| 0 <= q < j ==> key_le(#[trigger] s[q], x, sort),
        j == s.len() || !key_le(s[j], x, sort),
    ensures
        insert_pos(s, x, sort) == j,
    decreases j,
{
    if j > 0 {
        lemma_insert_pos_from_scan(s.drop_first(), x, j - 1, sort);
    }
}

/// `s` with `x` stably inserted.
pub open spec fn insert_sorted(
    s: Seq<FileSystemEntry>,
    x: FileSystemEntry,
    sort: SortKey,
) -> Seq<FileSystemEntry> {
    s.insert(insert_pos(s, x, sort), x)
}

/// The stable sort of `s` by `sort`: each element inserted, in input
/// order, after every element already placed with a key not above its
/// own.
pub open spec fn sort_spec(s: Seq<FileSystemEntry>, sort: SortKey) -> Seq<FileSystemEntry>
    decreases s.len(),
{
    if s.len() == 0 {
        s
    } else {
        insert_sorted(sort_spec(s.drop_last(), sort), s.last(), sort)
    }
}

pub open spec fn sorted_by_key(s: Seq<FileSystemEntry>, sort: SortKey) -> bool {
    forall|i: int, j: int| 0 <= i < j < s.len() ==> key_le(#[trigger] s[i], #[trigger] s[j], sort)
}

proof fn lemma_insert_sorted_preserves(
    s: Seq<FileSystemEntry>,
    x: FileSystemEntry,
    sort: SortKey,
)
    requires
        sorted_by_key(s, sort),
    ensures
        sorted_by_key(insert_sorted(s, x, sort), sort),
{
    let p = insert_pos(s, x, sort);
    lemma_insert_pos_char(s, x, sort);
    let t = insert_sorted(s, x, sort);
    assert forall|i: int, j: int| 0 <= i < j < t.len() implies key_le(
        #[trigger] t[i],
        #[trigger] t[j],
        sort,
    ) by {
        if i == p {
            // t[i] == x, j > p
            lemma_key_le_total(s[p], x, sort);
            if j - 1 > p {
                lemma_key_le_trans(x, s[p], s[j - 1], sort);
            }
        } else if j == p {
            // t[j] == x, i < p
            assert(key_le(s[i], x, sort));
        } else if i < p && j > p {
            assert(key_le(s[i], s[j - 1], sort));
        }
    }
}

/// Law: the sorted output is ordered by the chosen key.
pub proof fn lemma_sort_spec_sorted(s: Seq<FileSystemEntry>, sort: SortKey)
    ensures
        sorted_by_key(sort_spec(s, sort), sort),
    decreases s.len(),
{
    if s.len() > 0 {
        lemma_sort_spec_sorted(s.drop_last(), sort);
        lemma_insert_sorted_preserves(sort_spec(s.drop_last(), sort), s.last(), sort);
    }
}

proof fn lemma_insert_sorted_filter_class(
    s: Seq<FileSystemEntry>,
    x: FileSystemEntry,
    pivot: FileSystemEntry,
    sort: SortKey,
)
    requires
        sorted_by_key(s, sort),
    ensures
        insert_sorted(s, x, sort).filter(
            |e: FileSystemEntry| key_eq(e, pivot, sort),
        ) == if key_eq(x, pivot, sort) {
            s.filter(|e: FileSystemEntry| key_eq(e, pivot, sort)).push(x)
        } else {
            s.filter(|e: FileSystemEntry| key_eq(e, pivot, sort))
        },
{
    let cls = |e: FileSystemEntry| key_eq(e, pivot, sort);
    let p = insert_pos(s, x, sort);
    lemma_insert_pos_char(s, x, sort);
    let pre = s.subrange(0, p);
    let suf = s.subrange(p, s.len() as int);
    let t = insert_sorted(s, x, sort);
    assert(t =~= pre + seq![x] + suf);
    assert(s =~= pre + suf);
    Seq::filter_distributes_over_add(pre + seq![x], suf, cls);
    Seq::filter_distributes_over_add(pre, seq![x], cls);
    Seq::filter_distributes_over_add(pre, suf, cls);
    assert(seq![x].filter(cls) == if cls(x) { seq![x] } else { Seq::<FileSystemEntry>::empty() })
        by {
        reveal(Seq::filter);
        assert(Seq::<FileSystemEntry>::empty().filter(cls) =~= Seq::<FileSystemEntry>::empty());
        assert(seq![x].drop_last() =~= Seq::<FileSystemEntry>::empty());
        assert(seq![x].last() == x);
        if cls(x) {
            assert(seq![x].filter(cls) =~= Seq::<FileSystemEntry>::empty().push(x));
            assert(seq![x].filter(cls) =~= seq![x]);
        }
    }
    if key_eq(x, pivot, sort) {
        // nothing after the insertion point shares the key class
        assert forall|i: int| 0 <= i < suf.len() implies !cls(#[trigger] suf[i]) by {
            assert(suf[i] == s[p + i]);
            if p + i > p {
                assert(key_le(s[p], s[p + i], sort));
            }
            if cls(s[p + i]) {
                lemma_key_le_trans(s[p + i], pivot, x, sort);
                if p + i > p {
                    lemma_key_le_trans(s[p], s[p + i], x, sort);
                }
                assert(key_le(s[p], x, sort));
                assert(false);
            }
        }
        lemma_filter_all_false(suf, cls);
        assert(t.filter(cls) =~= s.filter(cls).push(x));
    } else {
        assert(t.filter(cls) =~= s.filter(cls));
    }
}

/// Law: the sort is stable — for every key class, the entries of that
/// class come out in exactly the order they went in.
pub proof fn lemma_sort_spec_stable(
    s: Seq<FileSystemEntry>,
    pivot: FileSystemEntry,
    sort: SortKey,
)
    ensures
        sort_spec(s, sort).filter((|e: FileSystemEntry| key_eq(e, pivot, sort))) == s.filter(
            (|e: FileSystemEntry| key_eq(e, pivot, sort)),
        ),
    decreases s.len(),
{
    let cls = |e: FileSystemEntry| key_eq(e, pivot, sort);
    if s.len() > 0 {
        let rest = s.drop_last();
        lemma_sort_spec_stable(rest, pivot, sort);
        lemma_sort_spec_sorted(rest, sort);
        lemma_insert_sorted_filter_class(sort_spec(rest, sort), s.last(), pivot, sort);
        lemma_filter_snoc(rest, s.last(), cls);
        assert(rest.push(s.last()) =~= s);
    }
}

/// Law: reversing a sequence ordered by a key orders it the other way.
pub proof fn lemma_reverse_flips_order(s: Seq<FileSystemEntry>, sort: SortKey)
    requires
        sorted_by_key(s, sort),
    ensures
        forall|i: int, j: int|
            0 <= i < j < s.len() ==> key_le(
                #[trigger] s.reverse()[j],
                #[trigger] s.reverse()[i],
                sort,
            ),
{
}

/// Law: sorting by size yields non-decreasing sizes, and reversing the
/// result yields non-increasing sizes.
pub proof fn lemma_size_sort_monotone(s: Seq<FileSystemEntry>)
    ensures
        forall|i: int, j: int|
            0 <= i < j < s.len() ==> #[trigger] sort_spec(s, SortKey::Size)[i].metadata_spec().size
                <= #[trigger] sort_spec(s, SortKey::Size)[j].metadata_spec().size,
        forall|i: int, j: int|
            0 <= i < j < s.len() ==> #[trigger] sort_spec(
                s,
                SortKey::Size,
            ).reverse()[i].metadata_spec().size >= #[trigger] sort_spec(
                s,
                SortKey::Size,
            ).reverse()[j].metadata_spec().size,
{
    lemma_sort_spec_sorted(s, SortKey::Size);
    let t = sort_spec(s, SortKey::Size);
    lemma_reverse_flips_order(t, SortKey::Size);
    assert(t.len() == s.len()) by {
        lemma_sort_spec_len(s, SortKey::Size);
    }
}

pub proof fn lemma_sort_spec_len(s: Seq<FileSystemEntry>, sort: SortKey)
    ensures
        sort_spec(s, sort).len() == s.len(),
    decreases s.len(),
{
    if s.len() > 0 {
        lemma_sort_spec_len(s.drop_last(), sort);
        lemma_insert_pos_char(sort_spec(s.drop_last(), sort), s.last(), sort);
    }
}

pub(crate) fn filter_shown(v: Vec<FileSystemEntry>, all: bool) -> (r: Vec<FileSystemEntry>)
    ensures
        r@ == shown_filter_spec(v@, all),
{
    let ghost orig = v@;
    let mut inp = v;
    let mut out: Vec<FileSystemEntry> = Vec::new();
    proof {
        assert(inp@ =~= orig.subrange(orig.len() - inp@.len(), orig.len() as int));
        assert(orig.subrange(0, 0) =~= Seq::<FileSystemEntry>::empty());
        assert(out@ =~= shown_filter_spec(orig.subrange(0, orig.len() - inp@.len()), all));
    }
    while inp.len() > 0
        invariant
            inp@.len() <= orig.len(),
            inp@ == orig.subrange(orig.len() - inp@.len(), orig.len() as int),
            out@ == shown_filter_spec(orig.subrange(0, orig.len() - inp@.len()), all),
        decreases inp@.len(),
    {
        let ghost i = orig.len() - inp@.len();
        let e = inp.remove(0);
        proof {
            assert(e == orig[i]);
            assert(inp@ =~= orig.subrange(i + 1, orig.len() as int));
            assert(orig.subrange(0, i + 1) =~= orig.subrange(0, i as int).push(orig[i as int]));
            lemma_filter_snoc(
                orig.subrange(0, i as int),
                orig[i as int],
                |x: FileSystemEntry| keep_shown(x, all),
            );
        }
        if all || !e.is_hidden() {
            out.push(e);
        }
    }
    proof {
        assert(orig.subrange(0, orig.len() as int) =~= orig);
    }
    out
}

fn filter_unignored(v: Vec<FileSystemEntry>, ignore: &String) -> (r: Vec<FileSystemEntry>)
    ensures
        r@ == v@.filter(|e: FileSystemEntry| keep_unignored(e, ignore@)),
{
    let ghost orig = v@;
    let mut inp = v;
    let mut out: Vec<FileSystemEntry> = Vec::new();
    proof {
        assert(inp@ =~= orig.subrange(orig.len() - inp@.len(), orig.len() as int));
        assert(orig.subrange(0, 0) =~= Seq::<FileSystemEntry>::empty());
    }
    while inp.len() > 0
        invariant
            inp@.len() <= orig.len(),
            inp@ == orig.subrange(orig.len() - inp@.len(), orig.len() as int),
            out@ == orig.subrange(0, orig.len() - inp@.len()).filter(
                |e: FileSystemEntry| keep_unignored(e, ignore@),
            ),
        decreases inp@.len(),
    {
        let ghost i = orig.len() - inp@.len();
        let e = inp.remove(0);
        proof {
            assert(e == orig[i]);
            assert(inp@ =~= orig.subrange(i + 1, orig.len() as int));
            assert(orig.subrange(0, i + 1) =~= orig.subrange(0, i as int).push(orig[i as int]));
            lemma_filter_snoc(
                orig.subrange(0, i as int),
                orig[i as int],
                |x: FileSystemEntry| keep_unignored(x, ignore@),
            );
        }
        if !contains_sub(ignore.as_str(), e.name()) {
            out.push(e);
        }
    }
    proof {
        assert(orig.subrange(0, orig.len() as int) =~= orig);
    }
    out
}

pub(crate) fn reverse_entries(v: Vec<FileSystemEntry>) -> (r: Vec<FileSystemEntry>)
    ensures
        r@ == v@.reverse(),
{
    let ghost orig = v@;
    let mut inp = v;
    let mut out: Vec<FileSystemEntry> = Vec::new();
    while inp.len() > 0
        invariant
            inp@ == orig.subrange(0, inp@.len() as int),
            out@.len() == orig.len() - inp@.len(),
            forall|k: int| 0 <= k < out@.len() ==> #[trigger] out@[k] == orig[orig.len() - 1 - k],
        decreases inp@.len(),
    {
        let e = inp.pop().unwrap();
        out.push(e);
        proof {
            assert(inp@ =~= orig.subrange(0, inp@.len() as int));
        }
    }
    proof {
        assert(out@ =~= orig.reverse());
    }
    out
}

pub(crate) fn sort_entries(v: Vec<FileSystemEntry>, sort: &SortKey) -> (r: Vec<FileSystemEntry>)
    ensures
        r@ == sort_spec(v@, *sort),
{
    let ghost orig = v@;
    let mut inp = v;
    let mut out: Vec<FileSystemEntry> = Vec::new();
    proof {
        assert(inp@ =~= orig.subrange(orig.len() - inp@.len(), orig.len() as int));
        assert(orig.subrange(0, 0) =~= Seq::<FileSystemEntry>::empty());
    }
    while inp.len() > 0
        invariant
            inp@.len() <= orig.len(),
            inp@ == orig.subrange(orig.len() - inp@.len(), orig.len() as int),
            out@ == sort_spec(orig.subrange(0, orig.len() - inp@.len()), *sort),
            sorted_by_key(out@, *sort),
        decreases inp@.len(),
    {
        let ghost i = orig.len() - inp@.len();
        let ghost prev = out@;
        let e = inp.remove(0);
        proof {
            assert(e == orig[i]);
            assert(inp@ =~= orig.subrange(i + 1, orig.len() as int));
        }
        let mut j: usize = 0;
        while j < out.len() && key_le_exec(&out[j], &e, sort)
            invariant
                j <= out@.len(),
                out@ == prev,
                forall|q: int| 0 <= q < j ==> key_le(#[trigger] out@[q], e, *sort),
            decreases out@.len() - j,
        {
            j = j + 1;
        }
        proof {
            lemma_insert_pos_from_scan(out@, e, j as int, *sort);
            lemma_insert_sorted_preserves(out@, e, *sort);
        }
        out.insert(j, e);
        proof {
            assert(orig.subrange(0, i + 1) =~= orig.subrange(0, i as int).push(orig[i as int]));
            assert(orig.subrange(0, i + 1).drop_last() =~= orig.subrange(0, i as int));
            assert(out@ == insert_sorted(prev, e, *sort));
            assert(out@ == sort_spec(orig.subrange(0, i + 1), *sort));
        }
    }
    proof {
        assert(orig.subrange(0, orig.len() as int) =~= orig);
    }
    out
}

/// The sorted order the configuration asks for: at most one sort key,
/// then an optional reversal, which applies with no sort key as well.
pub open spec fn sorted_spec(s: Seq<FileSystemEntry>, config: Config) -> Seq<FileSystemEntry> {
    let t = match config.sort_type {
        Option::Some(st) => sort_spec(s, sort_key_of(st)),
        Option::None => s,
    };
    if config.reverse {
        t.reverse()
    } else {
        t
    }
}

/// The flat filter/sort stage over the root's immediate children.
#[derive(Debug)]
pub struct DataProcessor {
    entries: Vec<FileSystemEntry>,
    config: Config,
}

impl Clone for DataProcessor {
    /// A deep copy of the processor, alike in every view.
    fn clone(&self) -> (res: Self)
        ensures
            crate::files::entries_like(
                self.entries_spec(),
                res.entries_spec(),
                self.entries_spec().len() as int,
            ),
            crate::command::config_like(self.config_spec(), res.config_spec()),
    {
        let mut entries: Vec<FileSystemEntry> = Vec::new();
        let mut i: usize = 0;
        while i < self.entries.len()
            invariant
                i <= self.entries@.len(),
                entries@.len() == i,
                forall|j: int|
                    0 <= j < i ==> crate::files::entry_like(
                        #[trigger] self.entries@[j],
                        #[trigger] entries@[j],
                    ),
            decreases self.entries@.len() - i,
        {
            entries.push(self.entries[i].clone());
            i = i + 1;
        }
        proof {
            crate::files::lemma_entries_like_pointwise(
                self.entries@,
                entries@,
                self.entries@.len() as int,
            );
        }
        DataProcessor { entries, config: self.config.duplicate() }
    }
}

impl PartialEq for DataProcessor {
    /// Processors compare by the styled names of their entries, zipped:
    /// extra entries of the longer side are not compared.
    fn eq(&self, other: &Self) -> (r: bool) {
        let n = if self.entries.len() <= other.entries.len() {
            self.entries.len()
        } else {
            other.entries.len()
        };
        let mut i: usize = 0;
        while i < n
            invariant
                n <= self.entries@.len(),
                n <= other.entries@.len(),
                i <= n,
                forall|k: int|
                    0 <= k < i ==> #[trigger] self.entries@[k].styled_name_spec()
                        == other.entries@[k].styled_name_spec(),
            decreases n - i,
        {
            let a = self.entries[i].get_styled_name();
            let b = other.entries[i].get_styled_name();
            if !a.eq(&b) {
                proof {
                    assert(self.entries_spec()[i as int].styled_name_spec()
                        != other.entries_spec()[i as int].styled_name_spec());
                }
                return false;
            }
            i = i + 1;
        }
        true
    }
}

impl vstd::std_specs::cmp::PartialEqSpecImpl for DataProcessor {
    open spec fn obeys_eq_spec() -> bool {
        true
    }

    open spec fn eq_spec(&self, other: &DataProcessor) -> bool {
        forall|k: int|
            0 <= k < self.entries_spec().len() && k < other.entries_spec().len()
                ==> #[trigger] self.entries_spec()[k].styled_name_spec()
                == other.entries_spec()[k].styled_name_spec()
    }
}

impl DataProcessor {
    pub closed spec fn entries_spec(&self) -> Seq<FileSystemEntry> {
        self.entries@
    }

    pub closed spec fn config_spec(&self) -> Config {
        self.config
    }

    pub fn new(entries: Vec<FileSystemEntry>, config: Config) -> (r: Self)
        ensures
            r.entries_spec() == entries@,
            r.config_spec() == config,
    {
        Self { entries, config }
    }

    pub fn data_len(&self) -> (r: usize)
        ensures
            r == self.entries_spec().len(),
    {
        self.entries.len()
    }

    pub fn get_entries(&self) -> (r: &[FileSystemEntry])
        ensures
            r@ == self.entries_spec(),
    {
        self.entries.as_slice()
    }

    /// Drops hidden entries (unless all are shown), then entries whose
    /// name the ignore string contains.
    pub fn filter(self) -> (r: Self)
        ensures
            r.entries_spec() == filter_spec(self.entries_spec(), self.config_spec()),
            r.config_spec() == self.config_spec(),
    {
        let DataProcessor { entries, config } = self;
        let entries = filter_shown(entries, config.all);
        let entries = match &config.ignore {
            Option::None => entries,
            Option::Some(ig) => filter_unignored(entries, ig),
        };
        DataProcessor { entries, config }
    }

    /// Sorts by the configured key, stably, then reverses when asked.
    pub fn sort(self) -> (r: Self)
        ensures
            r.entries_spec() == sorted_spec(self.entries_spec(), self.config_spec()),
            r.config_spec() == self.config_spec(),
    {
        let DataProcessor { mut entries, config } = self;
        match &config.sort_type {
            Option::Some(st) => {
                let key = match st {
                    SortType::Size => SortKey::Size,
                    SortType::Time => SortKey::Time,
                    SortType::Name => SortKey::Name,
                };
                entries = sort_entries(entries, &key);
            },
            Option::None => {},
        }
        if config.reverse {
            entries = reverse_entries(entries);
        }
        DataProcessor { entries, config }
    }

    pub fn prepare(self) -> (r: PreparedData)
        ensures
            r.names_spec() == prepared_spec(self.entries_spec(), self.config_spec()),
    {
        let DataProcessor { entries, config } = self;
        PreparedData::new(entries, config)
    }
}

/// The display lines prepared from the filtered, sorted entries: the
/// styled short names or the long-format lines, optionally numbered.
pub open spec fn prepared_spec(s: Seq<FileSystemEntry>, config: Config) -> Seq<Seq<char>> {
    let base = if config.long {
        long_lines_spec(s, config)
    } else {
        short_names_spec(s)
    };
    if config.numeric {
        numbered_spec(base)
    } else {
        base
    }
}

pub open spec fn short_names_spec(s: Seq<FileSystemEntry>) -> Seq<Seq<char>> {
    Seq::new(s.len(), |i: int| s[i].styled_name_spec())
}

/// The widest formatted timestamp across the entries.
pub open spec fn max_time_width(s: Seq<FileSystemEntry>) -> int
    decreases s.len(),
{
    if s.len() == 0 {
        0
    } else {
        let rest = max_time_width(s.drop_first());
        let own = s[0].metadata_spec().modified_at.format_spec().len() as int;
        if own >= rest {
            own
        } else {
            rest
        }
    }
}

pub open spec fn size_field_spec(e: FileSystemEntry, humanable: bool) -> Seq<char> {
    if humanable {
        e.metadata_spec().human_size@
    } else {
        crate::text::dec_of(e.metadata_spec().size as nat)
    }
}

/// The widest rendered size across the entries.
pub open spec fn max_size_width(s: Seq<FileSystemEntry>, humanable: bool) -> int
    decreases s.len(),
{
    if s.len() == 0 {
        0
    } else {
        let rest = max_size_width(s.drop_first(), humanable);
        let own = size_field_spec(s[0], humanable).len() as int;
        if own >= rest {
            own
        } else {
            rest
        }
    }
}

pub open spec fn long_lines_spec(s: Seq<FileSystemEntry>, config: Config) -> Seq<Seq<char>> {
    Seq::new(
        s.len(),
        |i: int| s[i].long_line_spec(
            config.humanable,
            config.inode,
            max_size_width(s, config.humanable),
            max_time_width(s),
        ),
    )
}

/// Each line prefixed with its one-based index and a dot.
pub open spec fn numbered_spec(base: Seq<Seq<char>>) -> Seq<Seq<char>> {
    Seq::new(base.len(), |i: int| crate::text::dec_of((i + 1) as nat) + seq!['.', ' '] + base[i])
}

pub struct PreparedData {
    names: Vec<String>,
}

impl PreparedData {
    pub closed spec fn names_spec(&self) -> Seq<Seq<char>> {
        self.names.deep_view()
    }

    pub fn new(entries: Vec<FileSystemEntry>, config: Config) -> (r: Self)
        ensures
            r.names_spec() == prepared_spec(entries@, config),
    {
        let names = if config.long {
            Self::prepare_long(entries.as_slice(), &config)
        } else {
            Self::prepare_short(entries.as_slice(), &config)
        };
        let names = if config.numeric {
            Self::add_numbers(names)
        } else {
            names
        };
        Self { names }
    }

    pub fn get_names(&self) -> (r: &[String])
        ensures
            r.deep_view() == self.names_spec(),
    {
        self.names.as_slice()
    }

    pub(crate) fn prepare_short(entries: &[FileSystemEntry], _config: &Config) -> (r: Vec<String>)
        ensures
            r.deep_view() == short_names_spec(entries@),
    {
        let mut out: Vec<String> = Vec::new();
        let mut i: usize = 0;
        while i < entries.len()
            invariant
                i <= entries@.len(),
                out@.len() == i,
                forall|k: int|
                    0 <= k < i ==> #[trigger] out@[k]@ == entries@[k].styled_name_spec(),
            decreases entries@.len() - i,
        {
            let e = &entries[i];
            out.push(e.to_string_short());
            i = i + 1;
        }
        proof {
            assert(out.deep_view() =~= short_names_spec(entries@));
        }
        out
    }

    pub(crate) fn prepare_long(entries: &[FileSystemEntry], config: &Config) -> (r: Vec<String>)
        ensures
            r.deep_view() == long_lines_spec(entries@, *config),
    {
        let max_time = max_time_exec(entries);
        let max_size = max_size_exec(entries, config.humanable);
        let mut out: Vec<String> = Vec::new();
        let mut i: usize = 0;
        while i < entries.len()
            invariant
                i <= entries@.len(),
                out@.len() == i,
                max_time == max_time_width(entries@),
                max_size == max_size_width(entries@, config.humanable),
                forall|k: int|
                    0 <= k < i ==> #[trigger] out@[k]@ == entries@[k].long_line_spec(
                        config.humanable,
                        config.inode,
                        max_size_width(entries@, config.humanable),
                        max_time_width(entries@),
                    ),
            decreases entries@.len() - i,
        {
            let e = &entries[i];
            out.push(e.to_string_long(config.humanable, config.inode, max_size, max_time));
            i = i + 1;
        }
        proof {
            assert(out.deep_view() =~= long_lines_spec(entries@, *config));
        }
        out
    }

    pub(crate) fn add_numbers(names: Vec<String>) -> (r: Vec<String>)
        ensures
            r.deep_view() == numbered_spec(names.deep_view()),
    {
        let mut out: Vec<String> = Vec::new();
        let mut i: usize = 0;
        while i < names.len()
            invariant
                i <= names@.len(),
                out@.len() == i,
                forall|k: int|
                    0 <= k < i ==> #[trigger] out@[k]@ == crate::text::dec_of((k + 1) as nat)
                        + seq!['.', ' '] + names@[k]@,
            decreases names@.len() - i,
        {
            let mut line = crate::text::u64_to_dec((i + 1) as u64);
            line.push('.');
            line.push(' ');
            line.append(names[i].as_str());
            proof {
                assert(line@ =~= crate::text::dec_of((i + 1) as nat) + seq!['.', ' ']
                    + names@[i as int]@);
            }
            out.push(line);
            i = i + 1;
        }
        proof {
            assert(out.deep_view() =~= numbered_spec(names.deep_view()));
        }
        out
    }
}

fn max_time_exec(entries: &[FileSystemEntry]) -> (r: usize)
    ensures
        r == max_time_width(entries@),
{
    let mut best: usize = 0;
    let mut i: usize = entries.len();
    while i > 0
        invariant
            i <= entries@.len(),
            best == max_time_width(entries@.subrange(i as int, entries@.len() as int)),
        decreases i,
    {
        i = i - 1;
        let e = &entries[i];
        let s = e.metadata().modified_at.format();
        let len = s.as_str().unicode_len();
        proof {
            assert(entries@.subrange(i as int, entries@.len() as int).drop_first()
                =~= entries@.subrange(i + 1, entries@.len() as int));
        }
        if len > best {
            best = len;
        }
    }
    proof {
        assert(entries@.subrange(0, entries@.len() as int) =~= entries@);
    }
    best
}

fn max_size_exec(entries: &[FileSystemEntry], humanable: bool) -> (r: usize)
    ensures
        r == max_size_width(entries@, humanable),
{
    let mut best: usize = 0;
    let mut i: usize = entries.len();
    while i > 0
        invariant
            i <= entries@.len(),
            best == max_size_width(entries@.subrange(i as int, entries@.len() as int), humanable),
        decreases i,
    {
        i = i - 1;
        let e = &entries[i];
        let len = if humanable {
            e.metadata().human_size.as_str().unicode_len()
        } else {
            let s = crate::text::u64_to_dec(e.metadata().size);
            s.as_str().unicode_len()
        };
        proof {
            assert(entries@.subrange(i as int, entries@.len() as int).drop_first()
                =~= entries@.subrange(i + 1, entries@.len() as int));
        }
        if len > best {
            best = len;
        }
    }
    proof {
        assert(entries@.subrange(0, entries@.len() as int) =~= entries@);
    }
    best
}


/// `parts` joined by `sep`, with no leading or trailing separator.
pub open spec fn join_with(parts: Seq<Seq<char>>, sep: Seq<char>) -> Seq<char>
    decreases parts.len(),
{
    if parts.len() == 0 {
        Seq::<char>::empty()
    } else if parts.len() == 1 {
        parts[0]
    } else {
        join_with(parts.drop_last(), sep) + sep + parts.last()
    }
}

pub(crate) fn join_names(names: &Vec<String>, sep: &str) -> (r: String)
    ensures
        r@ == join_with(names.deep_view(), sep@),
{
    let mut out = String::new();
    let mut i: usize = 0;
    proof {
        assert(names.deep_view().subrange(0, 0) =~= Seq::<Seq<char>>::empty());
    }
    while i < names.len()
        invariant
            i <= names@.len(),
            names.deep_view().len() == names@.len(),
            out@ == join_with(names.deep_view().subrange(0, i as int), sep@),
        decreases names@.len() - i,
    {
        if i > 0 {
            out.append(sep);
        }
        out.append(names[i].as_str());
        proof {
            let dv = names.deep_view();
            assert(dv[i as int] == names@[i as int]@);
            assert(dv.subrange(0, i + 1).drop_last() =~= dv.subrange(0, i as int));
            assert(dv.subrange(0, i + 1).last() == dv[i as int]);
        }
        i = i + 1;
    }
    proof {
        assert(names.deep_view().subrange(0, names.deep_view().len() as int)
            =~= names.deep_view());
    }
    out
}

/// The longest display width among the lines.
pub open spec fn seq_max_len(parts: Seq<Seq<char>>) -> int
    decreases parts.len(),
{
    if parts.len() == 0 {
        0
    } else {
        let rest = seq_max_len(parts.drop_first());
        if parts[0].len() >= rest {
            parts[0].len() as int
        } else {
            rest
        }
    }
}

pub(crate) fn max_len_exec(names: &Vec<String>) -> (r: usize)
    ensures
        r == seq_max_len(names.deep_view()),
{
    let ghost dv = names.deep_view();
    let mut best: usize = 0;
    let mut i: usize = names.len();
    while i > 0
        invariant
            i <= names@.len(),
            dv == names.deep_view(),
            dv.len() == names@.len(),
            best == seq_max_len(dv.subrange(i as int, dv.len() as int)),
        decreases i,
    {
        i = i - 1;
        let len = names[i].as_str().unicode_len();
        proof {
            assert(dv.subrange(i as int, dv.len() as int).drop_first() =~= dv.subrange(
                i + 1,
                dv.len() as int,
            ));
            assert(dv.subrange(i as int, dv.len() as int)[0] == names@[i as int]@);
        }
        if len > best {
            best = len;
        }
    }
    proof {
        assert(dv.subrange(0, dv.len() as int) =~= dv);
    }
    best
}

/// The padded width of one grid column: the longest name plus two,
/// held to the machine word.
pub open spec fn col_width_spec(parts: Seq<Seq<char>>) -> int {
    if seq_max_len(parts) + 2 > usize::MAX {
        usize::MAX as int
    } else {
        seq_max_len(parts) + 2
    }
}

pub open spec fn sum_lens(parts: Seq<Seq<char>>) -> int
    decreases parts.len(),
{
    if parts.len() == 0 {
        0
    } else {
        parts[0].len() + sum_lens(parts.drop_first())
    }
}


/// The padded width one name gets.  With the escape adjustment on, a
/// name that does not begin with an ANSI escape gives nine columns
/// back — the width a styled name spends on invisible escape bytes —
/// never going below zero.
pub open spec fn cell_width_spec(name: Seq<char>, width: int, adjust: bool) -> int {
    if adjust && !(name.len() > 0 && name[0] == '\x1b') {
        if width >= 9 {
            width - 9
        } else {
            0
        }
    } else {
        width
    }
}

/// One cell of the grid: the name at `idx` padded to its cell width,
/// or nothing when the cell is past the last name.
pub open spec fn cell_spec(parts: Seq<Seq<char>>, idx: int, width: int, adjust: bool) -> Seq<
    char,
> {
    if 0 <= idx < parts.len() {
        crate::text::pad_right_spec(parts[idx], cell_width_spec(parts[idx], width, adjust))
    } else {
        Seq::<char>::empty()
    }
}

/// The first `col` cells of one row, column-major: the cell of column
/// `c` holds the name at index `c * rows + row`.
pub open spec fn row_cells_spec(
    parts: Seq<Seq<char>>,
    row: int,
    rows: int,
    width: int,
    col: int,
    adjust: bool,
) -> Seq<char>
    decreases col,
{
    if col <= 0 {
        Seq::<char>::empty()
    } else {
        row_cells_spec(parts, row, rows, width, col - 1, adjust) + cell_spec(
            parts,
            (col - 1) * rows + row,
            width,
            adjust,
        )
    }
}

/// The first `upto` grid lines, each trimmed of trailing blanks and
/// ended with a newline.
pub open spec fn grid_rows_spec(
    parts: Seq<Seq<char>>,
    cols: int,
    rows: int,
    width: int,
    upto: int,
    adjust: bool,
) -> Seq<char>
    decreases upto,
{
    if upto <= 0 {
        Seq::<char>::empty()
    } else {
        grid_rows_spec(parts, cols, rows, width, upto - 1, adjust) + crate::text::trim_end_spec(
            row_cells_spec(parts, upto - 1, rows, width, cols, adjust),
        ) + seq!['\n']
    }
}

/// The whole multi-column grid, trailing blanks trimmed.
pub open spec fn grid_spec(parts: Seq<Seq<char>>, cols: int, adjust: bool) -> Seq<char> {
    let width = col_width_spec(parts);
    let rows = (parts.len() + cols - 1) / cols;
    crate::text::trim_end_spec(grid_rows_spec(parts, cols, rows, width, rows, adjust))
}

/// The fixed-column rendering: nothing for no names, one space-joined
/// line when the names do not outnumber the columns, else the grid.
pub open spec fn format_cols_spec(parts: Seq<Seq<char>>, cols: int) -> Seq<char> {
    if parts.len() == 0 {
        Seq::<char>::empty()
    } else if parts.len() <= cols {
        join_with(parts, " "@)
    } else {
        grid_spec(parts, cols, true)
    }
}

/// The terminal-width rendering: one space-joined line when everything
/// fits in the terminal width (80 when none is known), else a grid with
/// as many columns as fit, at least one.
pub open spec fn format_term_spec(parts: Seq<Seq<char>>, term: Option<(u16, u16)>) -> Seq<char> {
    if parts.len() == 0 {
        Seq::<char>::empty()
    } else {
        let tc = match term {
            Option::Some(t) => t.0 as int,
            Option::None => 80,
        };
        if sum_lens(parts) + parts.len() - 1 <= tc {
            join_with(parts, " "@)
        } else {
            let width = col_width_spec(parts);
            let mc = if tc / width >= 1 {
                tc / width
            } else {
                1
            };
            grid_spec(parts, mc, false)
        }
    }
}

/// Whether the rendered name begins with the ANSI escape character.
fn starts_with_escape(s: &str) -> (r: bool)
    ensures
        r == (s@.len() > 0 && s@[0] == '\x1b'),
{
    s.unicode_len() > 0 && s.get_char(0) == '\x1b'
}

pub(crate) fn grid_exec(names: &Vec<String>, cols: usize, adjust: bool) -> (r: String)
    requires
        cols >= 1,
        names@.len() >= 1,
    ensures
        r@ == grid_spec(names.deep_view(), cols as int, adjust),
{
    let ghost dv = names.deep_view();
    let max_width = max_len_exec(names);
    let col_width = if max_width <= usize::MAX - 2 {
        max_width + 2
    } else {
        usize::MAX
    };
    let total_items = names.len();
    let rows_wide = (total_items as u128 + cols as u128 - 1) / (cols as u128);
    proof {
        let num = total_items as int + cols as int - 1;
        vstd::arithmetic::div_mod::lemma_fundamental_div_mod(num, cols as int);
        assert(1 <= rows_wide <= total_items) by (nonlinear_arith)
            requires
                num == cols * rows_wide + (num % (cols as int)),
                0 <= num % (cols as int) < cols,
                cols >= 1,
                total_items >= 1,
                rows_wide >= 0,
                num == total_items + cols - 1,
        ;
    }
    let rows = rows_wide as usize;
    proof {
        assert(rows == (dv.len() + cols - 1) / (cols as int));
    }
    let mut output = String::new();
    let mut row: usize = 0;
    while row < rows
        invariant
            rows >= 1,
            cols >= 1,
            row <= rows,
            dv == names.deep_view(),
            dv.len() == names@.len(),
            total_items == names@.len(),
            col_width == col_width_spec(dv),
            rows == (dv.len() + cols - 1) / (cols as int),
            output@ == grid_rows_spec(
                dv,
                cols as int,
                rows as int,
                col_width as int,
                row as int,
                adjust,
            ),
        decreases rows - row,
    {
        let mut line = String::new();
        let mut col: usize = 0;
        while col < cols
            invariant
                cols >= 1,
                row < rows,
                col <= cols,
                dv == names.deep_view(),
                dv.len() == names@.len(),
                total_items == names@.len(),
                line@ == row_cells_spec(
                    dv,
                    row as int,
                    rows as int,
                    col_width as int,
                    col as int,
                    adjust,
                ),
            decreases cols - col,
        {
            proof {
                assert((col as int) * (rows as int) + (row as int) <= u128::MAX) by (nonlinear_arith)
                    requires
                        0 <= col < 18446744073709551616,
                        0 <= rows < 18446744073709551616,
                        0 <= row < 18446744073709551616,
                ;
            }
            let idx_wide = (col as u128) * (rows as u128) + (row as u128);
            if idx_wide < total_items as u128 {
                let idx = idx_wide as usize;
                let name = names[idx].as_str();
                let w = if adjust && !starts_with_escape(name) {
                    if col_width >= 9 {
                        col_width - 9
                    } else {
                        0
                    }
                } else {
                    col_width
                };
                let padded = crate::text::pad_right(name, w);
                line.append(padded.as_str());
                proof {
                    assert(dv[idx as int] == names@[idx as int]@);
                    assert(w as int == cell_width_spec(dv[idx as int], col_width as int, adjust));
                }
            }
            proof {
                let idx = (col as int) * (rows as int) + (row as int);
                assert(row_cells_spec(
                    dv,
                    row as int,
                    rows as int,
                    col_width as int,
                    col + 1,
                    adjust,
                ) == row_cells_spec(
                    dv,
                    row as int,
                    rows as int,
                    col_width as int,
                    col as int,
                    adjust,
                ) + cell_spec(dv, idx, col_width as int, adjust));
                if !(0 <= idx < dv.len()) {
                    assert(line@ + Seq::<char>::empty() =~= line@);
                }
            }
            col = col + 1;
        }
        let trimmed = crate::text::trim_end_str(line.as_str());
        output.append(trimmed.as_str());
        output.push('\n');
        row = row + 1;
    }
    let out = crate::text::trim_end_str(output.as_str());
    out
}


/// Two spaces of indent per depth level.
fn double_spaces(n: usize) -> (r: String)
    ensures
        r@ == crate::text::spaces(2 * (n as int)),
{
    let mut out = String::new();
    let mut i: usize = 0;
    while i < n
        invariant
            i <= n,
            out@ == crate::text::spaces(2 * (i as int)),
        decreases n - i,
    {
        out.push(' ');
        out.push(' ');
        proof {
            assert(crate::text::spaces(2 * (i as int) + 1) == crate::text::spaces(
                2 * (i as int),
            ).push(' '));
            assert(crate::text::spaces(2 * (i as int) + 2) == crate::text::spaces(
                2 * (i as int) + 1,
            ).push(' '));
        }
        i = i + 1;
    }
    out
}

/// One rendering operation, selected once from the configuration.
pub trait OutputFormatter {
    /// What the formatter demands of its own state before rendering.
    spec fn format_req(&self) -> bool;

    /// The exact text the formatter produces.
    spec fn format_view(&self) -> Seq<char>;

    fn format(&self) -> (r: String)
        requires
            self.format_req(),
        ensures
            r@ == self.format_view(),
    ;
}

/// The plain text output: short styled names in columns, or long lines.
pub struct TextFormatter {
    names: Vec<String>,
    long: bool,
    cols: Option<usize>,
    term: Option<(u16, u16)>,
}

/// The short rendering: by the configured column count when one is
/// set, else by the terminal width.
pub open spec fn text_short_spec(
    names: Seq<Seq<char>>,
    cols: Option<usize>,
    term: Option<(u16, u16)>,
) -> Seq<char> {
    match cols {
        Option::Some(c) => format_cols_spec(names, c as int),
        Option::None => format_term_spec(names, term),
    }
}

impl TextFormatter {
    pub closed spec fn names_spec(&self) -> Seq<Seq<char>> {
        self.names.deep_view()
    }

    pub closed spec fn long_spec(&self) -> bool {
        self.long
    }

    pub closed spec fn cols_spec(&self) -> Option<usize> {
        self.cols
    }

    pub closed spec fn term_spec(&self) -> Option<(u16, u16)> {
        self.term
    }

    pub fn new(names: Vec<String>, long: bool, cols: Option<usize>, term: Option<(u16, u16)>) -> (r:
        Self)
        ensures
            r.names_spec() == names.deep_view(),
            r.long_spec() == long,
            r.cols_spec() == cols,
            r.term_spec() == term,
    {
        Self { names, long, cols, term }
    }

    /// Lays the names out in exactly `cols` columns, column-major, each
    /// cell padded to the widest name plus two, lines trimmed; a single
    /// joined line when the names do not outnumber the columns.
    pub fn format_with_cols(&self, cols: usize) -> (r: String)
        requires
            cols >= 1,
        ensures
            r@ == format_cols_spec(self.names_spec(), cols as int),
    {
        if self.names.is_empty() {
            return String::new();
        }
        if self.names.len() <= cols {
            return join_names(&self.names, " ");
        }
        grid_exec(&self.names, cols, true)
    }

    /// Lays the names out to the terminal width (80 when unknown): one
    /// joined line when everything fits, else as many columns as fit.
    pub fn format_with_terminal_width(&self) -> (r: String)
        ensures
            r@ == format_term_spec(self.names_spec(), self.term_spec()),
    {
        let ghost dv = self.names.deep_view();
        if self.names.is_empty() {
            return String::new();
        }
        let term_cols: usize = match self.term {
            Some(t) => t.0 as usize,
            None => 80,
        };
        let n = self.names.len();
        let mut sum: u128 = 0;
        let mut i: usize = 0;
        proof {
            assert(dv.subrange(0, 0) =~= Seq::<Seq<char>>::empty());
        }
        while i < n
            invariant
                i <= n,
                n == self.names@.len(),
                dv == self.names.deep_view(),
                dv.len() == n,
                sum == sum_lens(dv.subrange(0, i as int)),
                sum <= (i as int) * 18446744073709551616,
            decreases n - i,
        {
            let len = self.names[i].as_str().unicode_len();
            proof {
                lemma_sum_snoc(dv, i as int);
                assert(dv[i as int] == self.names@[i as int]@);
            }
            sum = sum + len as u128;
            i = i + 1;
        }
        proof {
            assert(dv.subrange(0, dv.len() as int) =~= dv);
        }
        let fits = sum + (n as u128) - 1 <= term_cols as u128;
        if fits {
            return join_names(&self.names, " ");
        }
        let max_width = max_len_exec(&self.names);
        let col_width = if max_width <= usize::MAX - 2 {
            max_width + 2
        } else {
            usize::MAX
        };
        let max_cols_raw = term_cols / col_width;
        let max_cols = if max_cols_raw >= 1 {
            max_cols_raw
        } else {
            1
        };
        grid_exec(&self.names, max_cols, false)
    }

    pub fn format_short(&self) -> (r: String)
        requires
            self.cols_spec() matches Some(c) ==> c >= 1,
        ensures
            r@ == text_short_spec(self.names_spec(), self.cols_spec(), self.term_spec()),
    {
        if let Some(cols) = self.cols {
            self.format_with_cols(cols)
        } else {
            self.format_with_terminal_width()
        }
    }

    pub fn format_long(&self) -> (r: String)
        ensures
            r@ == join_with(self.names_spec(), "\n"@),
    {
        join_names(&self.names, "\n")
    }
}

/// The sum over a one-longer prefix adds the next length.
proof fn lemma_sum_snoc(parts: Seq<Seq<char>>, i: int)
    requires
        0 <= i < parts.len(),
    ensures
        sum_lens(parts.subrange(0, i + 1)) == sum_lens(parts.subrange(0, i)) + parts[i].len(),
    decreases i,
{
    if i == 0 {
        assert(parts.subrange(0, 1).drop_first() =~= Seq::<Seq<char>>::empty());
        assert(parts.subrange(0, 1)[0] == parts[0]);
        assert(parts.subrange(0, 0) =~= Seq::<Seq<char>>::empty());
    } else {
        lemma_sum_snoc(parts.drop_first(), i - 1);
        assert(parts.drop_first().subrange(0, i) =~= parts.subrange(0, i + 1).drop_first());
        assert(parts.drop_first().subrange(0, i - 1) =~= parts.subrange(0, i).drop_first());
        assert(parts.subrange(0, i + 1)[0] == parts[0]);
        assert(parts.subrange(0, i)[0] == parts[0]);
    }
}

impl OutputFormatter for TextFormatter {
    open spec fn format_req(&self) -> bool {
        match self.cols_spec() {
            Option::Some(c) => c >= 1,
            Option::None => true,
        }
    }

    open spec fn format_view(&self) -> Seq<char> {
        if self.long_spec() {
            join_with(self.names_spec(), "\n"@)
        } else {
            text_short_spec(self.names_spec(), self.cols_spec(), self.term_spec())
        }
    }

    fn format(&self) -> (r: String) {
        if self.long {
            self.format_long()
        } else {
            self.format_short()
        }
    }
}

/// The structured-record output for one entry tree.
pub struct JsonFormatter {
    entry: FileSystemEntry,
    mini: bool,
}

impl JsonFormatter {
    pub closed spec fn entry_spec(&self) -> FileSystemEntry {
        self.entry
    }

    pub closed spec fn mini_spec(&self) -> bool {
        self.mini
    }

    pub fn new(entry: FileSystemEntry, mini: bool) -> (r: Self)
        ensures
            r.entry_spec() == entry,
            r.mini_spec() == mini,
    {
        Self { entry, mini }
    }
}

impl OutputFormatter for JsonFormatter {
    open spec fn format_req(&self) -> bool {
        true
    }

    open spec fn format_view(&self) -> Seq<char> {
        if self.mini_spec() {
            crate::json::short_json_spec(self.entry_spec())
        } else {
            Seq::empty()
        }
    }

    fn format(&self) -> (r: String) {
        if self.mini {
            self.entry.short_json()
        } else {
            self.entry.long_json()
        }
    }
}

pub open spec fn rec_ignored_spec(ignore: Option<String>, e: FileSystemEntry) -> bool {
    match ignore {
        Option::Some(ig) => contains_seq(ig@, e.name_spec()),
        Option::None => false,
    }
}

pub open spec fn rec_expand_spec(max_depth: Option<usize>, depth: int) -> bool {
    match max_depth {
        Option::Some(m) => depth < m,
        Option::None => true,
    }
}

pub open spec fn rec_next_depth(depth: int) -> int {
    if depth < usize::MAX {
        depth + 1
    } else {
        depth
    }
}

/// The tree rendering of one entry: nothing when the ignore string
/// contains its name; otherwise its indented styled name on one line,
/// and, for a directory within the depth bound, each child rendered
/// beneath it one level deeper.
pub open spec fn rec_entry_spec(
    ignore: Option<String>,
    max_depth: Option<usize>,
    e: FileSystemEntry,
    depth: int,
) -> Seq<char>
    decreases e, 1int, 0int,
{
    if rec_ignored_spec(ignore, e) {
        Seq::<char>::empty()
    } else {
        crate::text::spaces(2 * depth) + e.styled_name_spec() + seq!['\n'] + (if e is Directory
            && rec_expand_spec(max_depth, depth) {
            rec_children_spec(ignore, max_depth, e, e.entries_spec().len() as int, depth)
        } else {
            Seq::<char>::empty()
        })
    }
}

/// The renderings of the first `k` children, one level deeper.
pub open spec fn rec_children_spec(
    ignore: Option<String>,
    max_depth: Option<usize>,
    e: FileSystemEntry,
    k: int,
    depth: int,
) -> Seq<char>
    decreases e, 0int, k,
{
    if k <= 0 || k > e.entries_spec().len() {
        Seq::<char>::empty()
    } else {
        rec_children_spec(ignore, max_depth, e, k - 1, depth) + rec_entry_spec(
            ignore,
            max_depth,
            e.entries_spec()[k - 1],
            rec_next_depth(depth),
        )
    }
}

/// The depth-first tree renderer over an already-built entry tree.
pub struct RecursiveFormatter {
    entry: FileSystemEntry,
    depth: usize,
    max_depth: Option<usize>,
    ignore: Option<String>,
}

impl RecursiveFormatter {
    pub closed spec fn entry_spec(&self) -> FileSystemEntry {
        self.entry
    }

    pub closed spec fn depth_spec(&self) -> usize {
        self.depth
    }

    pub closed spec fn max_depth_spec(&self) -> Option<usize> {
        self.max_depth
    }

    pub closed spec fn ignore_spec(&self) -> Option<String> {
        self.ignore
    }

    /// Starts at depth zero; the depth bound comes from the recursion
    /// policy (`None` marks the unbounded tree walk over the built
    /// tree, whose depth the traversal already capped).
    pub fn new(entry: FileSystemEntry, config: &Config) -> (r: Self)
        requires
            config.recursive is Some,
        ensures
            r.entry_spec() == entry,
            r.depth_spec() == 0,
            config.recursive matches Some(crate::command::RecursionOptions::Depth(d))
                ==> r.max_depth_spec() == Some(d),
            config.recursive matches Some(crate::command::RecursionOptions::Unlimited)
                ==> r.max_depth_spec() is None,
            config.recursive matches Some(crate::command::RecursionOptions::No)
                ==> r.max_depth_spec() == Some(0usize),
            match (r.ignore_spec(), config.ignore) {
                (Option::Some(a), Option::Some(b)) => a@ == b@,
                (Option::None, Option::None) => true,
                _ => false,
            },
    {
        let max_depth = match config.recursive.as_ref() {
            Some(crate::command::RecursionOptions::Depth(depth)) => Some(*depth),
            Some(crate::command::RecursionOptions::Unlimited) => None,
            Some(crate::command::RecursionOptions::No) => Some(0usize),
            None => Some(0usize),
        };
        let ignore = match config.ignore.as_ref() {
            Some(ig) => Some(ig.clone()),
            None => None,
        };
        Self { entry, depth: 0, max_depth, ignore }
    }

    pub fn format_recursive(&self, entry: &FileSystemEntry, current_depth: usize) -> (r: String)
        ensures
            r@ == rec_entry_spec(
                self.ignore_spec(),
                self.max_depth_spec(),
                *entry,
                current_depth as int,
            ),
        decreases *entry,
    {
        let skip = match self.ignore.as_ref() {
            Some(ig) => contains_sub(ig.as_str(), entry.name()),
            None => false,
        };
        if skip {
            return String::new();
        }
        let mut output = double_spaces(current_depth);
        let styled = entry.get_styled_name();
        output.append(styled.as_str());
        output.push('\n');
        let should_expand = match self.max_depth.as_ref() {
            Some(m) => current_depth < *m,
            None => true,
        };
        let ghost header = output@;
        if entry.is_dir() && should_expand {
            match entry {
                FileSystemEntry::Directory { entries, .. } => {
                    let next_depth = if current_depth < usize::MAX {
                        current_depth + 1
                    } else {
                        current_depth
                    };
                    let mut i: usize = 0;
                    while i < entries.len()
                        invariant
                            i <= entries@.len(),
                            *entry matches FileSystemEntry::Directory { entries: es, .. } && es
                                == entries,
                            next_depth as int == rec_next_depth(current_depth as int),
                            output@ == header + rec_children_spec(
                                self.ignore_spec(),
                                self.max_depth_spec(),
                                *entry,
                                i as int,
                                current_depth as int,
                            ),
                        decreases entries@.len() - i,
                    {
                        let child = self.format_recursive(&entries[i], next_depth);
                        output.append(child.as_str());
                        i = i + 1;
                    }
                },
                _ => {},
            }
        } else {
            proof {
                assert(output@ =~= header + Seq::<char>::empty());
            }
        }
        output
    }
}

impl OutputFormatter for RecursiveFormatter {
    open spec fn format_req(&self) -> bool {
        true
    }

    open spec fn format_view(&self) -> Seq<char> {
        rec_entry_spec(
            self.ignore_spec(),
            self.max_depth_spec(),
            self.entry_spec(),
            self.depth_spec() as int,
        )
    }

    fn format(&self) -> (r: String) {
        self.format_recursive(&self.entry, self.depth)
    }
}

/// The rendering operation chosen from the configuration.
pub enum Formatter {
    Text(TextFormatter),
    Json(JsonFormatter),
    Recursive(RecursiveFormatter),
}

/// Selects the output mode once and renders: compact records first,
/// then verbose records, then the recursive tree, else the plain
/// filter/sort/prepare pipeline.
pub struct Printer {
    formatter: Formatter,
}

impl Printer {
    pub closed spec fn formatter_spec(&self) -> Formatter {
        self.formatter
    }

    pub open spec fn print_req(&self) -> bool {
        match self.formatter_spec() {
            Formatter::Text(t) => t.format_req(),
            Formatter::Json(j) => j.format_req(),
            Formatter::Recursive(f) => f.format_req(),
        }
    }

    pub open spec fn print_view(&self) -> Seq<char> {
        match self.formatter_spec() {
            Formatter::Text(t) => t.format_view(),
            Formatter::Json(j) => j.format_view(),
            Formatter::Recursive(f) => f.format_view(),
        }
    }

    pub fn new(start_dir: FileSystemEntry, config: Config, term: Option<(u16, u16)>) -> (r: Self)
        ensures
            config.json_mini ==> (r.formatter_spec() matches Formatter::Json(j) && j.entry_spec()
                == start_dir && j.mini_spec()),
            !config.json_mini && config.json_big ==> (r.formatter_spec() matches Formatter::Json(j)
                && j.entry_spec() == start_dir && !j.mini_spec()),
            !config.json_mini && !config.json_big && config.recursive is Some ==> (
            r.formatter_spec() matches Formatter::Recursive(f) && f.entry_spec() == start_dir
                && f.depth_spec() == 0),
            !config.json_mini && !config.json_big && config.recursive is None ==> (
            r.formatter_spec() matches Formatter::Text(t) && t.names_spec() == prepared_spec(
                sorted_spec(filter_spec(start_dir.entries_spec(), config), config),
                config,
            ) && t.long_spec() == config.long && t.cols_spec() == config.cols && t.term_spec()
                == term),
    {
        let is_recursive = match &config.recursive {
            Some(_) => true,
            None => false,
        };
        let formatter = if config.json_mini {
            Formatter::Json(JsonFormatter::new(start_dir, true))
        } else if config.json_big {
            Formatter::Json(JsonFormatter::new(start_dir, false))
        } else if is_recursive {
            Formatter::Recursive(RecursiveFormatter::new(start_dir, &config))
        } else {
            let long = config.long;
            let cols = config.cols;
            let entries = match start_dir {
                FileSystemEntry::Directory { entries, .. } => entries,
                _ => Vec::new(),
            };
            let processor = DataProcessor::new(entries, config);
            let prepared_data = processor.filter().sort().prepare();
            Formatter::Text(TextFormatter::new(prepared_data.names, long, cols, term))
        };
        Self { formatter }
    }

    /// Renders the selected output to its final text.
    pub fn print(&self) -> (r: String)
        requires
            self.print_req(),
        ensures
            r@ == self.print_view(),
    {
        match &self.formatter {
            Formatter::Text(t) => t.format(),
            Formatter::Json(j) => j.format(),
            Formatter::Recursive(f) => f.format(),
        }
    }
}

} // verus!
