//! The row projection engine: renders backing records through the column
//! schema, scores them against a search, and reconciles the visible row
//! order across refreshes so row identity is stable.

use vstd::prelude::*;

use crate::fuzzy::{fuzzy_indices, fuzzy_match_of};
use crate::text::dec_int;
use crate::types::{item_key_le, item_le, spec_parse_size, Item, ItemSize};
use crate::unicode::{grapheme_count, grapheme_segments_of};

verus! {

/// How a column takes horizontal space: size to content, or grow to fill.
#[derive(Copy, Clone, Debug, PartialEq, Eq, Structural)]
pub enum ItemColumnWidth {
    Expand,
    Shrink,
}

/// What kind of editing a column supports: a single-token choice, or free
/// text with a character cursor.
#[derive(Copy, Clone, Debug, PartialEq, Eq, Structural)]
pub enum ItemColumnKind {
    Choice,
    FullText,
}

/// Which of the record's facets a column shows; a closed set, so display
/// and editing dispatch exhaustively.
#[derive(Copy, Clone, Debug, PartialEq, Eq, Structural)]
pub enum ItemColumnContent {
    Location,
    Size,
    Name,
}

/// One column of the grid: its header, width policy, kind, content, and
/// whether search looks at it.
#[derive(Clone, Debug)]
pub struct ItemColumn {
    pub header: String,
    pub width: ItemColumnWidth,
    pub kind: ItemColumnKind,
    pub content: ItemColumnContent,
    pub searchable: bool,
}

/// The text a column shows for a record.
pub open spec fn spec_display(content: ItemColumnContent, item: crate::types::ItemView) -> Seq<
    char,
> {
    match content {
        ItemColumnContent::Location => {
            if item.location.num_bins > 1 {
                item.location.name + seq!['/'] + dec_int(item.bin_no as int)
            } else {
                item.location.name
            }
        },
        ItemColumnContent::Size => match spec_parse_size(item.size) {
            Some(ItemSize::S) => seq!['S', 'm'],
            Some(ItemSize::M) => seq!['M', 'd'],
            Some(ItemSize::L) => seq!['L', 'g'],
            Some(ItemSize::X) => seq!['X', 'L'],
            None => Seq::empty(),
        },
        ItemColumnContent::Name => item.name,
    }
}

/// Render one column of an item.
pub fn display_column(content: ItemColumnContent, item: &Item) -> (r: String)
    ensures
        r@ == spec_display(content, item@),
{
    match content {
        ItemColumnContent::Location => {
            let f = item.format();
            f.format_location()
        },
        ItemColumnContent::Size => {
            proof {
                reveal_strlit("Sm");
                reveal_strlit("Md");
                reveal_strlit("Lg");
                reveal_strlit("XL");
                reveal_strlit("");
            }
            let r = match ItemSize::parse_size(item.size.as_str()) {
                Ok(ItemSize::S) => String::from_str("Sm"),
                Ok(ItemSize::M) => String::from_str("Md"),
                Ok(ItemSize::L) => String::from_str("Lg"),
                Ok(ItemSize::X) => String::from_str("XL"),
                Err(_) => String::from_str(""),
            };
            assert(r@ =~= spec_display(content, item@));
            r
        },
        ItemColumnContent::Name => item.name.clone(),
    }
}

/// The fixed column schema: location and size as narrow choice columns,
/// the name as a searchable free-text column that fills the rest.
pub fn item_columns() -> (r: Vec<ItemColumn>)
    ensures
        r@.len() == 3,
        r@[0].header@ == "Location"@ && r@[0].width == ItemColumnWidth::Shrink && r@[0].kind
            == ItemColumnKind::Choice && r@[0].content == ItemColumnContent::Location
            && r@[0].searchable,
        r@[1].header@ == "Size"@ && r@[1].width == ItemColumnWidth::Shrink && r@[1].kind
            == ItemColumnKind::Choice && r@[1].content == ItemColumnContent::Size
            && !r@[1].searchable,
        r@[2].header@ == "Name"@ && r@[2].width == ItemColumnWidth::Expand && r@[2].kind
            == ItemColumnKind::FullText && r@[2].content == ItemColumnContent::Name
            && r@[2].searchable,
{
    let mut r: Vec<ItemColumn> = Vec::new();
    r.push(
        ItemColumn {
            header: String::from_str("Location"),
            width: ItemColumnWidth::Shrink,
            kind: ItemColumnKind::Choice,
            content: ItemColumnContent::Location,
            searchable: true,
        },
    );
    r.push(
        ItemColumn {
            header: String::from_str("Size"),
            width: ItemColumnWidth::Shrink,
            kind: ItemColumnKind::Choice,
            content: ItemColumnContent::Size,
            searchable: false,
        },
    );
    r.push(
        ItemColumn {
            header: String::from_str("Name"),
            width: ItemColumnWidth::Expand,
            kind: ItemColumnKind::FullText,
            content: ItemColumnContent::Name,
            searchable: true,
        },
    );
    r
}

/// One visible row: the record, its rendered column texts, their grapheme
/// widths, the matched character positions per column, and the row's total
/// fuzzy score.
#[derive(Debug)]
pub struct RenderEntry {
    pub id: i64,
    pub item: Item,
    pub contents: Vec<String>,
    pub column_widths: Vec<usize>,
    pub highlights: Vec<Vec<usize>>,
    pub score: i64,
}

/// A render entry is consistent with the column schema: one text per
/// column, showing that column of its record, measured in graphemes.
pub open spec fn entry_wf(e: RenderEntry, columns: Seq<ItemColumn>) -> bool {
    &&& e.item@.object_id == Some(e.id)
    &&& e.contents@.len() == columns.len()
    &&& e.column_widths@.len() == columns.len()
    &&& e.highlights@.len() == columns.len()
    &&& forall|j: int|
        0 <= j < columns.len() ==> (#[trigger] e.contents@[j])@ == spec_display(
            columns[j].content,
            e.item@,
        )
    &&& forall|j: int|
        0 <= j < columns.len() ==> (#[trigger] e.column_widths@[j]) == grapheme_segments_of(
            e.contents@[j]@,
        ).len()
}

/// An entry before any search has touched it: no score, no highlights.
pub open spec fn entry_unscored(e: RenderEntry) -> bool {
    &&& e.score == 0
    &&& forall|j: int| 0 <= j < e.highlights@.len() ==> (#[trigger] e.highlights@[j])@.len() == 0
}

/// The identity of each entry, in row order.
pub open spec fn ids_of(entries: Seq<RenderEntry>) -> Seq<i64> {
    entries.map_values(|e: RenderEntry| e.id)
}

/// The ids of a record list.
pub open spec fn item_ids_of(items: Seq<Item>) -> Seq<i64> {
    items.map_values(|i: Item| i.object_id->Some_0)
}

/// What identifies and fills a row, apart from search decoration: the
/// record's content, its rendered texts, and their widths.
pub struct EntryCore {
    pub id: i64,
    pub item: crate::types::ItemView,
    pub contents: Seq<Seq<char>>,
    pub widths: Seq<usize>,
}

/// The decoration-free content of an entry.
pub open spec fn core_of(e: RenderEntry) -> EntryCore {
    EntryCore {
        id: e.id,
        item: e.item@,
        contents: e.contents@.map_values(|s: String| s@),
        widths: e.column_widths@,
    }
}

/// The cores of a row list, in order.
pub open spec fn cores_of(entries: Seq<RenderEntry>) -> Seq<EntryCore> {
    entries.map_values(|e: RenderEntry| core_of(e))
}

/// Render one record through every column.
pub fn render_entry(columns: &Vec<ItemColumn>, item: &Item) -> (r: RenderEntry)
    requires
        item.object_id is Some,
    ensures
        entry_wf(r, columns@),
        entry_unscored(r),
        r.id == item.object_id->Some_0,
        r.item@ == item@,
{
    let mut contents: Vec<String> = Vec::new();
    let mut column_widths: Vec<usize> = Vec::new();
    let mut highlights: Vec<Vec<usize>> = Vec::new();
    let mut j: usize = 0;
    while j < columns.len()
        invariant
            0 <= j <= columns@.len(),
            contents@.len() == j,
            column_widths@.len() == j,
            highlights@.len() == j,
            forall|k: int|
                0 <= k < j ==> (#[trigger] contents@[k])@ == spec_display(
                    columns@[k].content,
                    item@,
                ),
            forall|k: int|
                0 <= k < j ==> (#[trigger] column_widths@[k]) == grapheme_segments_of(
                    contents@[k]@,
                ).len(),
            forall|k: int| 0 <= k < j ==> (#[trigger] highlights@[k])@.len() == 0,
        decreases columns@.len() - j,
    {
        let text = display_column(columns[j].content, item);
        let width = grapheme_count(text.as_str());
        contents.push(text);
        column_widths.push(width);
        highlights.push(Vec::new());
        j = j + 1;
    }
    let id = match item.object_id {
        Some(id) => id,
        None => 0,
    };
    RenderEntry {
        id,
        item: clone_item(item),
        contents,
        column_widths,
        highlights,
        score: 0,
    }
}

/// Copy a location, field for field.
pub fn clone_location(l: &crate::types::Location) -> (r: crate::types::Location)
    ensures
        r@ == l@,
{
    crate::types::Location { object_id: l.object_id, name: l.name.clone(), num_bins: l.num_bins }
}

/// Copy a record, field for field.
pub fn clone_item(i: &Item) -> (r: Item)
    ensures
        r@ == i@,
{
    Item {
        object_id: i.object_id,
        name: i.name.clone(),
        location: clone_location(&i.location),
        bin_no: i.bin_no,
        size: i.size.clone(),
    }
}


/// Render every record, in the order fetched.
pub fn render_all(columns: &Vec<ItemColumn>, items: &Vec<Item>) -> (r: Vec<RenderEntry>)
    requires
        forall|j: int| 0 <= j < items@.len() ==> (#[trigger] items@[j]).object_id is Some,
    ensures
        r@.len() == items@.len(),
        forall|j: int| 0 <= j < r@.len() ==> entry_wf(#[trigger] r@[j], columns@),
        forall|j: int| 0 <= j < r@.len() ==> entry_unscored(#[trigger] r@[j]),
        forall|j: int|
            0 <= j < r@.len() ==> (#[trigger] r@[j]).id == items@[j].object_id->Some_0
                && r@[j].item@ == items@[j]@,
{
    let mut r: Vec<RenderEntry> = Vec::new();
    let mut j: usize = 0;
    while j < items.len()
        invariant
            0 <= j <= items@.len(),
            r@.len() == j,
            forall|k: int| 0 <= k < items@.len() ==> (#[trigger] items@[k]).object_id is Some,
            forall|k: int| 0 <= k < j ==> entry_wf(#[trigger] r@[k], columns@),
            forall|k: int| 0 <= k < j ==> entry_unscored(#[trigger] r@[k]),
            forall|k: int|
                0 <= k < j ==> (#[trigger] r@[k]).id == items@[k].object_id->Some_0
                    && r@[k].item@ == items@[k]@,
        decreases items@.len() - j,
    {
        let e = render_entry(columns, &items[j]);
        r.push(e);
        j = j + 1;
    }
    r
}

/// The two row orders the projection uses: the canonical record order, and
/// descending search score.
#[derive(Copy, Clone, Debug, PartialEq, Eq, Structural)]
pub enum SortMode {
    Canonical,
    ScoreDesc,
}

/// The order an entry sort uses: canonical record order, or descending
/// score.
pub open spec fn mode_le(m: SortMode, a: RenderEntry, b: RenderEntry) -> bool {
    match m {
        SortMode::Canonical => item_key_le(&a.item, &b.item),
        SortMode::ScoreDesc => a.score >= b.score,
    }
}

/// Compare two entries in the given order.
pub fn entry_le(m: SortMode, a: &RenderEntry, b: &RenderEntry) -> (r: bool)
    ensures
        r == mode_le(m, *a, *b),
{
    match m {
        SortMode::Canonical => item_le(&a.item, &b.item),
        SortMode::ScoreDesc => a.score >= b.score,
    }
}

pub proof fn lemma_mode_le_total(m: SortMode, a: RenderEntry, b: RenderEntry)
    ensures
        mode_le(m, a, b) || mode_le(m, b, a),
{
    if m is Canonical {
        crate::types::lemma_item_le_total(&a.item, &b.item);
    }
}

pub proof fn lemma_mode_le_trans(m: SortMode, a: RenderEntry, b: RenderEntry, c: RenderEntry)
    requires
        mode_le(m, a, b),
        mode_le(m, b, c),
    ensures
        mode_le(m, a, c),
{
    if m is Canonical {
        crate::types::lemma_item_le_trans(&a.item, &b.item, &c.item);
    }
}

/// Stable insertion of `e` into `s`: after every element that is `<= e`,
/// before the first that is not.
pub open spec fn spec_insert_sorted(m: SortMode, e: RenderEntry, s: Seq<RenderEntry>) -> Seq<
    RenderEntry,
>
    decreases s.len(),
{
    if s.len() == 0 {
        seq![e]
    } else if mode_le(m, s[0], e) {
        seq![s[0]] + spec_insert_sorted(m, e, s.skip(1))
    } else {
        seq![e] + s
    }
}

/// The stable sort of `s` in order `m`: each element in turn inserted into
/// the sorted result so far.
pub open spec fn spec_sort(m: SortMode, s: Seq<RenderEntry>) -> Seq<RenderEntry>
    decreases s.len(),
{
    if s.len() == 0 {
        Seq::empty()
    } else {
        spec_insert_sorted(m, s.last(), spec_sort(m, s.drop_last()))
    }
}

/// Whether a row list is sorted in order `m`.
pub open spec fn sorted_by(m: SortMode, s: Seq<RenderEntry>) -> bool {
    forall|j: int, k: int| 0 <= j < k < s.len() ==> mode_le(m, #[trigger] s[j], #[trigger] s[k])
}

/// Stable insertion places the element at the first position whose entry
/// is not `<= e`.
proof fn lemma_insert_sorted_at(m: SortMode, e: RenderEntry, s: Seq<RenderEntry>, p: int)
    requires
        0 <= p <= s.len(),
        forall|j: int| 0 <= j < p ==> mode_le(m, #[trigger] s[j], e),
        p < s.len() ==> !mode_le(m, s[p], e),
    ensures
        spec_insert_sorted(m, e, s) == s.take(p) + seq![e] + s.skip(p),
    decreases s.len(),
{
    if s.len() == 0 {
        assert(spec_insert_sorted(m, e, s) =~= s.take(p) + seq![e] + s.skip(p));
    } else if p == 0 {
        assert(s.take(0) =~= Seq::empty());
        assert(s.skip(0) =~= s);
        assert(spec_insert_sorted(m, e, s) =~= s.take(0) + seq![e] + s.skip(0));
    } else {
        assert(mode_le(m, s[0], e));
        lemma_insert_sorted_at(m, e, s.skip(1), p - 1);
        assert(s.skip(1).take(p - 1) =~= s.take(p).skip(1));
        assert(s.skip(1).skip(p - 1) =~= s.skip(p));
        assert(seq![s[0]] + (s.skip(1).take(p - 1) + seq![e] + s.skip(1).skip(p - 1)) =~= s.take(p)
            + seq![e] + s.skip(p));
    }
}

/// What stable insertion preserves: length, sortedness, identities, and
/// membership.
proof fn lemma_insert_sorted_props(m: SortMode, e: RenderEntry, s: Seq<RenderEntry>)
    requires
        sorted_by(m, s),
    ensures
        spec_insert_sorted(m, e, s).len() == s.len() + 1,
        sorted_by(m, spec_insert_sorted(m, e, s)),
        spec_insert_sorted(m, e, s).to_multiset() == s.push(e).to_multiset(),
    decreases s.len(),
{
    let out = spec_insert_sorted(m, e, s);
    if s.len() == 0 {
        assert(out =~= seq![e]);
        assert(s.push(e) =~= seq![e]);
    } else if mode_le(m, s[0], e) {
        lemma_insert_sorted_props(m, e, s.skip(1));
        let sub = spec_insert_sorted(m, e, s.skip(1));
        assert(out =~= seq![s[0]] + sub);
        assert forall|j: int, k: int| 0 <= j < k < out.len() implies mode_le(
            m,
            out[j],
            out[k],
        ) by {
            if j == 0 {
                let x = out[k];
                assert(sub.to_multiset().contains(x)) by {
                    assert(sub[k - 1] == x);
                    sub.to_multiset_ensures();
                }
                assert(s.skip(1).push(e).to_multiset().contains(x));
                s.skip(1).push(e).to_multiset_ensures();
                let w = choose|w: int| 0 <= w < s.skip(1).push(e).len() && s.skip(1).push(e)[w]
                    == x;
                if w < s.skip(1).len() {
                    assert(s[w + 1] == x);
                    assert(mode_le(m, s[0], x));
                } else {
                    assert(x == e);
                    assert(mode_le(m, s[0], e));
                }
            } else {
                assert(mode_le(m, sub[j - 1], sub[k - 1]));
            }
        }
        assert(out.to_multiset() =~= s.push(e).to_multiset()) by {
            assert(out == seq![s[0]] + sub);
            vstd::seq_lib::lemma_multiset_commutative(seq![s[0]], sub);
            assert(sub.to_multiset() == s.skip(1).push(e).to_multiset());
            vstd::seq_lib::lemma_multiset_commutative(seq![s[0]], s.skip(1).push(e));
            assert(seq![s[0]] + s.skip(1).push(e) =~= s.push(e));
        }
    } else {
        assert(out =~= seq![e] + s);
        lemma_mode_le_total(m, s[0], e);
        assert(mode_le(m, e, s[0]));
        assert forall|j: int, k: int| 0 <= j < k < out.len() implies mode_le(
            m,
            out[j],
            out[k],
        ) by {
            if j == 0 {
                if k == 1 {
                } else {
                    lemma_mode_le_trans(m, e, s[0], s[k - 1]);
                }
            }
        }
        vstd::seq_lib::lemma_multiset_commutative(seq![e], s);
        vstd::seq_lib::lemma_multiset_commutative(s, seq![e]);
        assert(s + seq![e] =~= s.push(e));
        broadcast use vstd::multiset::group_multiset_axioms;

        assert(seq![e].to_multiset().add(s.to_multiset()) =~= s.to_multiset().add(
            seq![e].to_multiset(),
        ));
        assert(out.to_multiset() =~= s.push(e).to_multiset());
    }
}

/// What the stable sort preserves: length, sortedness, and membership.
pub proof fn lemma_sort_props(m: SortMode, s: Seq<RenderEntry>)
    ensures
        spec_sort(m, s).len() == s.len(),
        sorted_by(m, spec_sort(m, s)),
        spec_sort(m, s).to_multiset() == s.to_multiset(),
    decreases s.len(),
{
    if s.len() == 0 {
        assert(s =~= Seq::empty());
    } else {
        let dl = s.drop_last();
        let sorted_dl = spec_sort(m, dl);
        lemma_sort_props(m, dl);
        lemma_insert_sorted_props(m, s.last(), sorted_dl);
        sorted_dl.to_multiset_ensures();
        dl.to_multiset_ensures();
        assert(spec_sort(m, s) == spec_insert_sorted(m, s.last(), sorted_dl));
        assert(spec_sort(m, s).to_multiset() == sorted_dl.push(s.last()).to_multiset());
        assert(sorted_dl.push(s.last()).to_multiset() =~= sorted_dl.to_multiset().insert(
            s.last(),
        ));
        assert(sorted_dl.to_multiset().insert(s.last()) =~= dl.to_multiset().insert(s.last()));
        assert(dl.push(s.last()).to_multiset() =~= dl.to_multiset().insert(s.last()));
        assert(dl.push(s.last()) =~= s);
        assert(spec_sort(m, s).to_multiset() =~= s.to_multiset());
    }
}

/// Sort the rows in place, stably, in order `m`.
pub fn sort_entries(m: SortMode, v: &mut Vec<RenderEntry>)
    ensures
        final(v)@ == spec_sort(m, old(v)@),
{
    let ghost orig = old(v)@;
    let mut out: Vec<RenderEntry> = Vec::new();
    let ghost mut i: int = 0;
    proof {
        assert(orig.take(0) =~= Seq::empty());
        assert(orig.skip(0) =~= orig);
    }
    while v.len() > 0
        invariant
            0 <= i <= orig.len(),
            v@ == orig.skip(i),
            out@ == spec_sort(m, orig.take(i)),
        decreases v@.len(),
    {
        let e = v.remove(0);
        proof {
            assert(e == orig[i]);
            assert(orig.skip(i).skip(1) =~= orig.skip(i + 1));
        }
        // Find the first position whose entry is strictly after `e`.
        let mut p: usize = 0;
        while p < out.len() && entry_le(m, &out[p], &e)
            invariant
                0 <= p <= out@.len(),
                forall|j: int| 0 <= j < p ==> mode_le(m, #[trigger] out@[j], e),
            decreases out@.len() - p,
        {
            p = p + 1;
        }
        proof {
            lemma_insert_sorted_at(m, e, out@, p as int);
        }
        out.insert(p, e);
        proof {
            assert(orig.take(i + 1).drop_last() =~= orig.take(i));
            assert(orig.take(i + 1).last() == orig[i]);
            assert(out@ =~= spec_sort(m, orig.take(i + 1)));
            i = i + 1;
        }
    }
    proof {
        assert(orig.take(orig.len() as int) =~= orig);
        assert(i == orig.len());
    }
    *v = out;
}


/// Addition on scores that sticks at the ends of `i64`'s range.
pub open spec fn sat_add(a: int, b: int) -> int {
    if a + b > i64::MAX {
        i64::MAX as int
    } else if a + b < i64::MIN {
        i64::MIN as int
    } else {
        a + b
    }
}

/// Add two scores, saturating.
pub fn sat_add_i64(a: i64, b: i64) -> (r: i64)
    ensures
        r == sat_add(a as int, b as int),
{
    if b >= 0 {
        if a > i64::MAX - b {
            i64::MAX
        } else {
            a + b
        }
    } else {
        if a < i64::MIN - b {
            i64::MIN
        } else {
            a + b
        }
    }
}

/// The score one column contributes against a search: the fuzzy score of
/// its text, or nothing when the column is not searched or does not match.
pub open spec fn col_score_of(col: ItemColumn, content: Seq<char>, search: Seq<char>) -> int {
    if !col.searchable {
        0
    } else {
        match fuzzy_match_of(content, search) {
            None => 0,
            Some(q) => q.0 as int,
        }
    }
}

/// The character positions one column highlights against a search.
pub open spec fn col_indices_of(col: ItemColumn, content: Seq<char>, search: Seq<char>) -> Seq<
    usize,
> {
    if !col.searchable {
        Seq::empty()
    } else {
        match fuzzy_match_of(content, search) {
            None => Seq::empty(),
            Some(q) => q.1,
        }
    }
}

/// The saturating sum of the first `j` columns' scores.
pub open spec fn total_prefix(
    columns: Seq<ItemColumn>,
    contents: Seq<Seq<char>>,
    search: Seq<char>,
    j: int,
) -> int
    decreases j,
{
    if j <= 0 {
        0
    } else {
        sat_add(
            total_prefix(columns, contents, search, j - 1),
            col_score_of(columns[j - 1], contents[j - 1], search),
        )
    }
}

/// An entry's total fuzzy score against a search.
pub open spec fn spec_total_score(
    columns: Seq<ItemColumn>,
    contents: Seq<Seq<char>>,
    search: Seq<char>,
) -> int {
    total_prefix(columns, contents, search, columns.len() as int)
}

/// Whether a search keeps an entry visible: its total score is positive.
pub open spec fn spec_matched(columns: Seq<ItemColumn>, e: RenderEntry, search: Seq<char>) -> bool {
    spec_total_score(columns, core_of(e).contents, search) > 0
}

/// The predicate "this entry matches the search".
pub open spec fn matched_pred_of(columns: Seq<ItemColumn>, search: Seq<char>) -> spec_fn(
    RenderEntry,
) -> bool {
    |e: RenderEntry| spec_matched(columns, e, search)
}

/// The predicate "this entry does not match the search".
pub open spec fn unmatched_pred_of(columns: Seq<ItemColumn>, search: Seq<char>) -> spec_fn(
    RenderEntry,
) -> bool {
    |e: RenderEntry| !spec_matched(columns, e, search)
}

/// The predicate "this id is among `ids`".
pub open spec fn in_ids(ids: Seq<i64>) -> spec_fn(i64) -> bool {
    |id: i64| ids.contains(id)
}

/// The predicate "this entry's id is not among `ids`".
pub open spec fn entry_not_in_ids(ids: Seq<i64>) -> spec_fn(RenderEntry) -> bool {
    |e: RenderEntry| !ids.contains(e.id)
}

proof fn lemma_cores_push(t: Seq<RenderEntry>, x: RenderEntry)
    ensures
        cores_of(t.push(x)) == cores_of(t).push(core_of(x)),
{
    assert(cores_of(t.push(x)) =~= cores_of(t).push(core_of(x)));
}

pub proof fn lemma_filter_push<A>(t: Seq<A>, x: A, p: spec_fn(A) -> bool)
    ensures
        (t.push(x)).filter(p) == if p(x) {
            t.filter(p).push(x)
        } else {
            t.filter(p)
        },
{
    reveal(Seq::filter);
    assert(t.push(x).drop_last() =~= t);
    assert(t.push(x).last() == x);
}

/// Score every entry against a non-empty search: matches keep their score
/// and highlights, in their incoming order; the rest go to the side, kept
/// for reconciliation, untouched.
pub fn score_and_filter(columns: &Vec<ItemColumn>, entries: Vec<RenderEntry>, search: &str) -> (r: (
    Vec<RenderEntry>,
    Vec<RenderEntry>,
))
    requires
        forall|j: int| 0 <= j < entries@.len() ==> entry_wf(#[trigger] entries@[j], columns@),
        forall|j: int| 0 <= j < entries@.len() ==> entry_unscored(#[trigger] entries@[j]),
    ensures
        cores_of(r.0@) == cores_of(entries@.filter(matched_pred_of(columns@, search@))),
        r.1@ == entries@.filter(unmatched_pred_of(columns@, search@)),
        forall|j: int|
            0 <= j < r.0@.len() ==> (#[trigger] r.0@[j]).score == spec_total_score(
                columns@,
                core_of(r.0@[j]).contents,
                search@,
            ) && r.0@[j].score > 0,
        forall|j: int, c: int|
            0 <= j < r.0@.len() && 0 <= c < columns@.len() ==> (#[trigger] (
            #[trigger] r.0@[j]).highlights@[c])@ == col_indices_of(
                columns@[c],
                core_of(r.0@[j]).contents[c],
                search@,
            ),
        forall|j: int| 0 <= j < r.0@.len() ==> entry_wf(#[trigger] r.0@[j], columns@),
{
    let ghost orig = entries@;
    let ghost keep_pred = matched_pred_of(columns@, search@);
    let ghost drop_pred = unmatched_pred_of(columns@, search@);
    let mut remaining = entries;
    let mut kept: Vec<RenderEntry> = Vec::new();
    let mut unused: Vec<RenderEntry> = Vec::new();
    let ghost mut i: int = 0;
    proof {
        assert(orig.take(0) =~= Seq::empty());
        assert(orig.skip(0) =~= orig);
        reveal(Seq::filter);
    }
    while remaining.len() > 0
        invariant
            0 <= i <= orig.len(),
            remaining@ == orig.skip(i),
            forall|j: int| 0 <= j < orig.len() ==> entry_wf(#[trigger] orig[j], columns@),
            forall|j: int| 0 <= j < orig.len() ==> entry_unscored(#[trigger] orig[j]),
            cores_of(kept@) == cores_of(orig.take(i).filter(keep_pred)),
            unused@ == orig.take(i).filter(drop_pred),
            keep_pred == matched_pred_of(columns@, search@),
            drop_pred == unmatched_pred_of(columns@, search@),
            forall|j: int|
                0 <= j < kept@.len() ==> (#[trigger] kept@[j]).score == spec_total_score(
                    columns@,
                    core_of(kept@[j]).contents,
                    search@,
                ) && kept@[j].score > 0,
            forall|j: int, c: int|
                0 <= j < kept@.len() && 0 <= c < columns@.len() ==> (#[trigger] (
                #[trigger] kept@[j]).highlights@[c])@ == col_indices_of(
                    columns@[c],
                    core_of(kept@[j]).contents[c],
                    search@,
                ),
            forall|j: int| 0 <= j < kept@.len() ==> entry_wf(#[trigger] kept@[j], columns@),
        decreases remaining@.len(),
    {
        let mut e = remaining.remove(0);
        proof {
            assert(e == orig[i]);
            assert(orig.skip(i).skip(1) =~= orig.skip(i + 1));
        }
        let mut total: i64 = 0;
        let mut hl: Vec<Vec<usize>> = Vec::new();
        let mut c: usize = 0;
        while c < columns.len()
            invariant
                0 <= c <= columns@.len(),
                entry_wf(e, columns@),
                total == total_prefix(columns@, core_of(e).contents, search@, c as int),
                hl@.len() == c,
                forall|k: int|
                    0 <= k < c ==> (#[trigger] hl@[k])@ == col_indices_of(
                        columns@[k],
                        core_of(e).contents[k],
                        search@,
                    ),
            decreases columns@.len() - c,
        {
            if columns[c].searchable {
                match fuzzy_indices(e.contents[c].as_str(), search) {
                    Some((sc, idx)) => {
                        total = sat_add_i64(total, sc);
                        hl.push(idx);
                    },
                    None => {
                        hl.push(Vec::new());
                    },
                }
            } else {
                hl.push(Vec::new());
            }
            c = c + 1;
        }
        proof {
            lemma_filter_push(orig.take(i), orig[i], keep_pred);
            lemma_filter_push(orig.take(i), orig[i], drop_pred);
            assert(orig.take(i + 1) =~= orig.take(i).push(orig[i]));
        }
        if total > 0 {
            let ghost e_before = e;
            e.score = total;
            e.highlights = hl;
            proof {
                assert(core_of(e) == core_of(orig[i]));
                assert(spec_matched(columns@, orig[i], search@));
                assert(keep_pred(orig[i]));
                assert(orig.take(i + 1).filter(keep_pred) == orig.take(i).filter(
                    keep_pred,
                ).push(orig[i]));
            }
            kept.push(e);
            proof {
                lemma_cores_push(orig.take(i).filter(keep_pred), orig[i]);
                assert(cores_of(kept@) =~= cores_of(orig.take(i).filter(keep_pred)).push(
                    core_of(e),
                ));
                assert(cores_of(kept@) =~= cores_of(orig.take(i + 1).filter(keep_pred)));
                i = i + 1;
            }
        } else {
            proof {
                assert(!spec_matched(columns@, orig[i], search@));
            }
            unused.push(e);
            proof {
                assert(unused@ =~= orig.take(i + 1).filter(drop_pred));
                i = i + 1;
            }
        }
    }
    proof {
        assert(orig.take(orig.len() as int) =~= orig);
    }
    (kept, unused)
}


/// The first index in `s` of the entry with identity `id`, or -1.
pub open spec fn find_id(s: Seq<RenderEntry>, id: i64) -> int
    decreases s.len(),
{
    if s.len() == 0 {
        -1
    } else if s[0].id == id {
        0
    } else {
        let r = find_id(s.skip(1), id);
        if r < 0 {
            -1
        } else {
            r + 1
        }
    }
}

proof fn lemma_find_id(s: Seq<RenderEntry>, id: i64)
    ensures
        find_id(s, id) == -1 <==> (forall|j: int| 0 <= j < s.len() ==> (#[trigger] s[j]).id != id),
        find_id(s, id) >= 0 ==> 0 <= find_id(s, id) < s.len() && s[find_id(s, id)].id == id && (
        forall|j: int| 0 <= j < find_id(s, id) ==> (#[trigger] s[j]).id != id),
    decreases s.len(),
{
    if s.len() == 0 {
    } else if s[0].id == id {
    } else {
        lemma_find_id(s.skip(1), id);
        assert(forall|j: int| 1 <= j < s.len() ==> s[j] == s.skip(1)[j - 1]);
    }
}

/// Finding an id is the same as the id list containing it.
proof fn lemma_find_id_contains(s: Seq<RenderEntry>, id: i64)
    ensures
        (find_id(s, id) >= 0) <==> ids_of(s).contains(id),
{
    lemma_find_id(s, id);
    if find_id(s, id) >= 0 {
        assert(ids_of(s)[find_id(s, id)] == id);
    }
    if ids_of(s).contains(id) {
        let j = choose|j: int| 0 <= j < ids_of(s).len() && ids_of(s)[j] == id;
        assert(s[j].id == id);
    }
}

/// The reconciliation walk over the previous row order: each previous id
/// is pulled from the fresh matches, or (same search) from the set-aside
/// rows, or dropped. Yields the walked rows and both leftover pools.
pub open spec fn spec_walk(
    old_ids: Seq<i64>,
    kept: Seq<RenderEntry>,
    unused: Seq<RenderEntry>,
    same: bool,
) -> (Seq<RenderEntry>, Seq<RenderEntry>, Seq<RenderEntry>)
    decreases old_ids.len(),
{
    if old_ids.len() == 0 {
        (Seq::empty(), kept, unused)
    } else {
        let id = old_ids[0];
        let fk = find_id(kept, id);
        if fk >= 0 {
            let rec = spec_walk(old_ids.skip(1), kept.remove(fk), unused, same);
            (seq![kept[fk]] + rec.0, rec.1, rec.2)
        } else {
            let fu = find_id(unused, id);
            if same && fu >= 0 {
                let rec = spec_walk(old_ids.skip(1), kept, unused.remove(fu), same);
                (seq![unused[fu]] + rec.0, rec.1, rec.2)
            } else {
                spec_walk(old_ids.skip(1), kept, unused, same)
            }
        }
    }
}

/// Whether a previous row survives reconciliation: it is a fresh match,
/// or the search is unchanged and it is still backed by a record.
pub open spec fn spec_survives(
    kept: Seq<RenderEntry>,
    unused: Seq<RenderEntry>,
    same: bool,
) -> spec_fn(i64) -> bool {
    |id: i64| ids_of(kept).contains(id) || (same && ids_of(unused).contains(id))
}

proof fn lemma_filter_agree<A>(s: Seq<A>, p: spec_fn(A) -> bool, q: spec_fn(A) -> bool)
    requires
        forall|j: int| 0 <= j < s.len() ==> p(#[trigger] s[j]) == q(s[j]),
    ensures
        s.filter(p) == s.filter(q),
    decreases s.len(),
{
    reveal(Seq::filter);
    if s.len() > 0 {
        lemma_filter_agree(s.drop_last(), p, q);
    }
}

proof fn lemma_filter_contains_orig<A>(s: Seq<A>, p: spec_fn(A) -> bool, x: A)
    requires
        s.filter(p).contains(x),
    ensures
        s.contains(x),
    decreases s.len(),
{
    reveal(Seq::filter);
    if s.len() > 0 {
        if s.last() == x {
        } else {
            if p(s.last()) {
                assert(s.filter(p).drop_last() == s.drop_last().filter(p));
                let j = choose|j: int|
                    0 <= j < s.filter(p).len() && s.filter(p)[j] == x;
                assert(j < s.filter(p).len() - 1);
                assert(s.drop_last().filter(p)[j] == x);
            }
            lemma_filter_contains_orig(s.drop_last(), p, x);
            let j = choose|j: int| 0 <= j < s.drop_last().len() && s.drop_last()[j] == x;
            assert(s[j] == x);
        }
    }
}

pub proof fn lemma_filter_no_dup<A>(s: Seq<A>, p: spec_fn(A) -> bool)
    requires
        s.no_duplicates(),
    ensures
        s.filter(p).no_duplicates(),
    decreases s.len(),
{
    reveal(Seq::filter);
    if s.len() > 0 {
        lemma_filter_no_dup(s.drop_last(), p);
        if p(s.last()) {
            let out = s.filter(p);
            assert(out == s.drop_last().filter(p).push(s.last()));
            assert forall|j: int, k: int| 0 <= j < k < out.len() implies out[j] != out[k] by {
                if k == out.len() - 1 {
                    if out[j] == s.last() {
                        assert(s.drop_last().filter(p)[j] == out[j]);
                        assert(s.drop_last().filter(p).contains(out[j]));
                        lemma_filter_contains_orig(s.drop_last(), p, out[j]);
                        let w = choose|w: int|
                            0 <= w < s.drop_last().len() && s.drop_last()[w] == out[j];
                        assert(s[w] == s.last());
                        assert(false);
                    }
                } else {
                    assert(s.drop_last().filter(p)[j] == out[j]);
                    assert(s.drop_last().filter(p)[k] == out[k]);
                }
            }
        }
    }
}

/// Removing the entry that carries `id` changes no other id's membership.
proof fn lemma_remove_id_membership(s: Seq<RenderEntry>, f: int, x: i64)
    requires
        0 <= f < s.len(),
        s[f].id != x,
    ensures
        ids_of(s.remove(f)).contains(x) == ids_of(s).contains(x),
{
    assert(ids_of(s.remove(f)) =~= ids_of(s).remove(f));
    if ids_of(s).contains(x) {
        let j = choose|j: int| 0 <= j < ids_of(s).len() && ids_of(s)[j] == x;
        if j < f {
            assert(ids_of(s).remove(f)[j] == x);
        } else {
            assert(j > f);
            assert(ids_of(s).remove(f)[j - 1] == x);
        }
    }
    if ids_of(s).remove(f).contains(x) {
        let j = choose|j: int|
            0 <= j < ids_of(s).remove(f).len() && ids_of(s).remove(f)[j] == x;
        if j < f {
            assert(ids_of(s)[j] == x);
        } else {
            assert(ids_of(s)[j + 1] == x);
        }
    }
}

/// The walked rows carry exactly the surviving previous ids, in their
/// previous order.
proof fn lemma_walk_ids(
    old_ids: Seq<i64>,
    kept: Seq<RenderEntry>,
    unused: Seq<RenderEntry>,
    same: bool,
)
    requires
        old_ids.no_duplicates(),
    ensures
        ids_of(spec_walk(old_ids, kept, unused, same).0) == old_ids.filter(
            spec_survives(kept, unused, same),
        ),
    decreases old_ids.len(),
{
    reveal(Seq::filter);
    let w = spec_walk(old_ids, kept, unused, same);
    let p = spec_survives(kept, unused, same);
    if old_ids.len() == 0 {
        assert(ids_of(w.0) =~= old_ids.filter(p));
    } else {
        let id = old_ids[0];
        let tail = old_ids.skip(1);
        assert(old_ids =~= seq![id] + tail);
        Seq::filter_distributes_over_add(seq![id], tail, p);
        lemma_filter_singleton(id, p);
        assert(forall|j: int| 0 <= j < tail.len() ==> tail[j] != id) by {
            assert forall|j: int| 0 <= j < tail.len() implies tail[j] != id by {
                assert(tail[j] == old_ids[j + 1]);
            }
        }
        let fk = find_id(kept, id);
        let fu = find_id(unused, id);
        lemma_find_id(kept, id);
        lemma_find_id(unused, id);
        lemma_find_id_contains(kept, id);
        lemma_find_id_contains(unused, id);
        if fk >= 0 {
            let kept2 = kept.remove(fk);
            let rec = spec_walk(tail, kept2, unused, same);
            lemma_walk_ids(tail, kept2, unused, same);
            let p2 = spec_survives(kept2, unused, same);
            assert forall|j: int| 0 <= j < tail.len() implies p2(#[trigger] tail[j]) == p(
                tail[j],
            ) by {
                lemma_remove_id_membership(kept, fk, tail[j]);
            }
            lemma_filter_agree(tail, p2, p);
            assert(p(id));
            assert(ids_of(w.0) =~= seq![id] + ids_of(rec.0));
            assert(ids_of(w.0) =~= old_ids.filter(p));
        } else if same && fu >= 0 {
            let unused2 = unused.remove(fu);
            let rec = spec_walk(tail, kept, unused2, same);
            lemma_walk_ids(tail, kept, unused2, same);
            let p2 = spec_survives(kept, unused2, same);
            assert forall|j: int| 0 <= j < tail.len() implies p2(#[trigger] tail[j]) == p(
                tail[j],
            ) by {
                lemma_remove_id_membership(unused, fu, tail[j]);
            }
            lemma_filter_agree(tail, p2, p);
            assert(p(id));
            assert(ids_of(w.0) =~= seq![id] + ids_of(spec_walk(tail, kept, unused2, same).0));
            assert(ids_of(w.0) =~= old_ids.filter(p));
        } else {
            lemma_walk_ids(tail, kept, unused, same);
            assert(!p(id));
            assert(ids_of(w.0) =~= old_ids.filter(p));
        }
    }
}

/// The leftover matches after the walk: exactly the fresh matches whose id
/// was not on screen before, in their fresh order.
proof fn lemma_walk_leftover(
    old_ids: Seq<i64>,
    kept: Seq<RenderEntry>,
    unused: Seq<RenderEntry>,
    same: bool,
)
    requires
        old_ids.no_duplicates(),
        ids_of(kept).no_duplicates(),
    ensures
        spec_walk(old_ids, kept, unused, same).1 == kept.filter(entry_not_in_ids(old_ids)),
    decreases old_ids.len(),
{
    reveal(Seq::filter);
    let w = spec_walk(old_ids, kept, unused, same);
    let p = entry_not_in_ids(old_ids);
    if old_ids.len() == 0 {
        assert forall|j: int| 0 <= j < kept.len() implies p(#[trigger] kept[j]) by {}
        lemma_filter_all(kept, p);
    } else {
        let id = old_ids[0];
        let tail = old_ids.skip(1);
        assert(forall|j: int| 0 <= j < tail.len() ==> tail[j] == old_ids[j + 1]);
        let fk = find_id(kept, id);
        lemma_find_id(kept, id);
        let p2 = entry_not_in_ids(tail);
        if fk >= 0 {
            let kept2 = kept.remove(fk);
            lemma_no_dup_remove(kept, fk);
            lemma_walk_leftover(tail, kept2, unused, same);
            assert forall|j: int| 0 <= j < kept2.len() implies p2(#[trigger] kept2[j]) == p(
                kept2[j],
            ) by {
                assert(kept2[j] == if j < fk {
                    kept[j]
                } else {
                    kept[j + 1]
                });
                assert(kept2[j].id != id) by {
                    if j < fk {
                    } else {
                        if kept[j + 1].id == id {
                            assert(ids_of(kept)[fk] == id && ids_of(kept)[j + 1] == id);
                        }
                    }
                }
                assert(old_ids.contains(kept2[j].id) == tail.contains(kept2[j].id)) by {
                    if old_ids.contains(kept2[j].id) {
                        let v = choose|v: int|
                            0 <= v < old_ids.len() && old_ids[v] == kept2[j].id;
                        assert(v != 0);
                        assert(tail[v - 1] == kept2[j].id);
                    }
                    if tail.contains(kept2[j].id) {
                        let v = choose|v: int| 0 <= v < tail.len() && tail[v] == kept2[j].id;
                        assert(old_ids[v + 1] == kept2[j].id);
                    }
                }
            }
            lemma_filter_agree(kept2, p2, p);
            // The removed entry fails `p`, so filtering around it agrees.
            assert(kept =~= kept.take(fk) + seq![kept[fk]] + kept.skip(fk + 1));
            Seq::filter_distributes_over_add(kept.take(fk) + seq![kept[fk]], kept.skip(fk + 1), p);
            Seq::filter_distributes_over_add(kept.take(fk), seq![kept[fk]], p);
            assert(old_ids.contains(kept[fk].id)) by {
                assert(old_ids[0] == kept[fk].id);
            }
            lemma_filter_singleton(kept[fk], p);
            assert(kept2 =~= kept.take(fk) + kept.skip(fk + 1));
            Seq::filter_distributes_over_add(kept.take(fk), kept.skip(fk + 1), p);
            assert(kept.filter(p) == kept2.filter(p)) by {
                assert(kept.filter(p) =~= (kept.take(fk).filter(p) + seq![kept[fk]].filter(p))
                    + kept.skip(fk + 1).filter(p));
                assert(kept.filter(p) =~= kept.take(fk).filter(p) + kept.skip(fk + 1).filter(p));
            }
            assert(w.1 == kept.filter(p));
        } else {
            assert forall|j: int| 0 <= j < kept.len() implies p2(#[trigger] kept[j]) == p(
                kept[j],
            ) by {
                assert(kept[j].id != id);
                if old_ids.contains(kept[j].id) {
                    let v = choose|v: int| 0 <= v < old_ids.len() && old_ids[v] == kept[j].id;
                    assert(v != 0);
                    assert(tail[v - 1] == kept[j].id);
                }
                if tail.contains(kept[j].id) {
                    let v = choose|v: int| 0 <= v < tail.len() && tail[v] == kept[j].id;
                    assert(old_ids[v + 1] == kept[j].id);
                }
            }
            lemma_filter_agree(kept, p2, p);
            let fu = find_id(unused, id);
            if same && fu >= 0 {
                lemma_walk_leftover(tail, kept, unused.remove(fu), same);
            } else {
                lemma_walk_leftover(tail, kept, unused, same);
            }
        }
    }
}

proof fn lemma_filter_singleton<A>(x: A, p: spec_fn(A) -> bool)
    ensures
        seq![x].filter(p) == if p(x) {
            seq![x]
        } else {
            Seq::<A>::empty()
        },
{
    reveal(Seq::filter);
    let s = seq![x];
    assert(s.len() == 1);
    assert(s.drop_last() =~= Seq::<A>::empty());
    assert(Seq::<A>::empty().filter(p) =~= Seq::<A>::empty());
    assert(s.last() == x);
    if p(x) {
        assert(s.filter(p) == Seq::<A>::empty().filter(p).push(x));
        assert(Seq::<A>::empty().push(x) =~= seq![x]);
    }
}

proof fn lemma_filter_all<A>(s: Seq<A>, p: spec_fn(A) -> bool)
    requires
        forall|j: int| 0 <= j < s.len() ==> p(#[trigger] s[j]),
    ensures
        s.filter(p) == s,
    decreases s.len(),
{
    reveal(Seq::filter);
    if s.len() > 0 {
        lemma_filter_all(s.drop_last(), p);
        assert(s.filter(p) =~= s);
    }
}

proof fn lemma_no_dup_remove(s: Seq<RenderEntry>, f: int)
    requires
        0 <= f < s.len(),
        ids_of(s).no_duplicates(),
    ensures
        ids_of(s.remove(f)).no_duplicates(),
{
    assert(ids_of(s.remove(f)) =~= ids_of(s).remove(f));
    let a = ids_of(s);
    assert forall|j: int, k: int|
        0 <= j < k < a.remove(f).len() implies a.remove(f)[j] != a.remove(f)[k] by {
        let j2 = if j < f {
            j
        } else {
            j + 1
        };
        let k2 = if k < f {
            k
        } else {
            k + 1
        };
        assert(a.remove(f)[j] == a[j2] && a.remove(f)[k] == a[k2]);
    }
}


proof fn lemma_ids_filter_no_dup(s: Seq<RenderEntry>, p: spec_fn(RenderEntry) -> bool)
    requires
        ids_of(s).no_duplicates(),
    ensures
        ids_of(s.filter(p)).no_duplicates(),
    decreases s.len(),
{
    reveal(Seq::filter);
    if s.len() > 0 {
        assert(forall|j: int| 0 <= j < s.len() - 1 ==> ids_of(s.drop_last())[j] == ids_of(s)[j]);
        assert forall|a: int, b: int|
            0 <= a < b < ids_of(s.drop_last()).len() implies ids_of(s.drop_last())[a] != ids_of(
            s.drop_last(),
        )[b] by {
            assert(ids_of(s)[a] != ids_of(s)[b]);
        }
        assert(ids_of(s.drop_last()).no_duplicates());
        lemma_ids_filter_no_dup(s.drop_last(), p);
        if p(s.last()) {
            let out = s.filter(p);
            let sub = s.drop_last().filter(p);
            assert(out == sub.push(s.last()));
            assert forall|j: int, k: int|
                0 <= j < k < ids_of(out).len() implies ids_of(out)[j] != ids_of(out)[k] by {
                if k == out.len() - 1 {
                    assert(sub.contains(sub[j]));
                    lemma_filter_contains_orig(s.drop_last(), p, sub[j]);
                    let w = choose|w: int|
                        0 <= w < s.drop_last().len() && s.drop_last()[w] == sub[j];
                    if sub[j].id == s.last().id {
                        assert(ids_of(s)[w] == ids_of(s)[s.len() - 1]);
                        assert(false);
                    }
                    assert(ids_of(out)[j] == sub[j].id);
                } else {
                    assert(ids_of(sub)[j] != ids_of(sub)[k]);
                }
            }
        }
    }
}

/// Find the row carrying `id`, scanning from the top.
fn find_index_by_id(v: &Vec<RenderEntry>, id: i64) -> (r: Option<usize>)
    ensures
        match r {
            Some(p) => find_id(v@, id) == p && p < v@.len() && v@[p as int].id == id,
            None => find_id(v@, id) == -1,
        },
{
    proof {
        lemma_find_id(v@, id);
    }
    let mut k: usize = 0;
    while k < v.len()
        invariant
            0 <= k <= v@.len(),
            forall|j: int| 0 <= j < k ==> (#[trigger] v@[j]).id != id,
        decreases v@.len() - k,
    {
        if v[k].id == id {
            proof {
                lemma_find_id(v@, id);
                let f = find_id(v@, id);
                assert(f >= 0);
                assert(f >= k);
                assert(f <= k);
            }
            return Some(k);
        }
        k = k + 1;
    }
    proof {
        lemma_find_id(v@, id);
    }
    None
}

/// The first position whose row sorts strictly after `e` in canonical
/// order, by binary search; meaningful when the rows are sorted.
fn lower_bound_canonical(v: &Vec<RenderEntry>, e: &RenderEntry) -> (p: usize)
    ensures
        p <= v@.len(),
        sorted_by(SortMode::Canonical, v@) ==> (forall|j: int|
            0 <= j < p ==> mode_le(SortMode::Canonical, #[trigger] v@[j], *e)) && (p < v@.len()
            ==> !mode_le(SortMode::Canonical, v@[p as int], *e)),
{
    let mut lo: usize = 0;
    let mut hi: usize = v.len();
    while lo < hi
        invariant
            0 <= lo <= hi <= v@.len(),
            sorted_by(SortMode::Canonical, v@) ==> (forall|j: int|
                0 <= j < lo ==> mode_le(SortMode::Canonical, #[trigger] v@[j], *e)),
            sorted_by(SortMode::Canonical, v@) ==> (forall|j: int|
                hi <= j < v@.len() ==> !mode_le(SortMode::Canonical, #[trigger] v@[j], *e)),
        decreases hi - lo,
    {
        let mid = lo + (hi - lo) / 2;
        if entry_le(SortMode::Canonical, &v[mid], e) {
            proof {
                if sorted_by(SortMode::Canonical, v@) {
                    assert forall|j: int|
                        0 <= j < mid + 1 implies mode_le(
                        SortMode::Canonical,
                        #[trigger] v@[j],
                        *e,
                    ) by {
                        if j < mid {
                            assert(mode_le(SortMode::Canonical, v@[j], v@[mid as int]));
                            lemma_mode_le_trans(SortMode::Canonical, v@[j], v@[mid as int], *e);
                        }
                    }
                }
            }
            lo = mid + 1;
        } else {
            proof {
                if sorted_by(SortMode::Canonical, v@) {
                    assert forall|j: int|
                        mid <= j < v@.len() implies !mode_le(
                        SortMode::Canonical,
                        #[trigger] v@[j],
                        *e,
                    ) by {
                        if j > mid {
                            if mode_le(SortMode::Canonical, v@[j], *e) {
                                assert(mode_le(SortMode::Canonical, v@[mid as int], v@[j]));
                                lemma_mode_le_trans(
                                    SortMode::Canonical,
                                    v@[mid as int],
                                    v@[j],
                                    *e,
                                );
                            }
                        }
                    }
                }
            }
            hi = mid;
        }
    }
    lo
}

/// Reconcile the previous visible order with the fresh rows: previous rows
/// keep their order (refreshed, or set aside but still shown when the
/// search is unchanged), vanished records drop out, and genuinely new
/// matches are spliced in at their canonical position.
pub fn reconcile(
    columns: &Vec<ItemColumn>,
    old_entries: &Vec<RenderEntry>,
    kept: Vec<RenderEntry>,
    unused: Vec<RenderEntry>,
    same: bool,
) -> (r: Vec<RenderEntry>)
    requires
        ids_of(old_entries@).no_duplicates(),
        ids_of(kept@).no_duplicates(),
        ids_of(unused@).no_duplicates(),
        forall|j: int| 0 <= j < kept@.len() ==> entry_wf(#[trigger] kept@[j], columns@),
        forall|j: int| 0 <= j < unused@.len() ==> entry_wf(#[trigger] unused@[j], columns@),
    ensures
        ({
            let old_ids = ids_of(old_entries@);
            let survives = spec_survives(kept@, unused@, same);
            let fresh_ids = ids_of(kept@.filter(entry_not_in_ids(old_ids)));
            &&& forall|j: int| 0 <= j < r@.len() ==> entry_wf(#[trigger] r@[j], columns@)
            &&& forall|j: int|
                0 <= j < r@.len() ==> kept@.contains(#[trigger] r@[j]) || unused@.contains(r@[j])
            &&& (sorted_by(
                SortMode::Canonical,
                spec_walk(old_ids, kept@, unused@, same).0,
            ) ==> sorted_by(SortMode::Canonical, r@))
            &&& ids_of(r@).filter(in_ids(old_ids)) == old_ids.filter(survives)
            &&& ids_of(r@).to_multiset() == old_ids.filter(survives).to_multiset().add(
                fresh_ids.to_multiset(),
            )
            &&& ids_of(r@).no_duplicates()
        }),
{
    let ghost old_ids = ids_of(old_entries@);
    let ghost kept0 = kept@;
    let ghost unused0 = unused@;
    let ghost w = spec_walk(old_ids, kept0, unused0, same);
    let ghost kept_orig = kept@;
    let ghost unused_orig = unused@;
    let mut kept = kept;
    let mut unused = unused;
    let mut result: Vec<RenderEntry> = Vec::new();
    let mut k: usize = 0;
    proof {
        assert(old_ids.skip(0) =~= old_ids);
        assert(Seq::<RenderEntry>::empty() + w.0 =~= w.0);
    }
    while k < old_entries.len()
        invariant
            0 <= k <= old_entries@.len(),
            old_ids == ids_of(old_entries@),
            ({
                let sub = spec_walk(old_ids.skip(k as int), kept@, unused@, same);
                w.0 == result@ + sub.0 && w.1 == sub.1 && w.2 == sub.2
            }),
            forall|j: int| 0 <= j < result@.len() ==> entry_wf(#[trigger] result@[j], columns@),
            forall|j: int| 0 <= j < kept@.len() ==> entry_wf(#[trigger] kept@[j], columns@),
            forall|j: int| 0 <= j < unused@.len() ==> entry_wf(#[trigger] unused@[j], columns@),
            forall|j: int| 0 <= j < kept@.len() ==> kept_orig.contains(#[trigger] kept@[j]),
            forall|j: int| 0 <= j < unused@.len() ==> unused_orig.contains(#[trigger] unused@[j]),
            forall|j: int|
                0 <= j < result@.len() ==> kept_orig.contains(#[trigger] result@[j])
                    || unused_orig.contains(result@[j]),
        decreases old_entries@.len() - k,
    {
        let id = old_entries[k].id;
        proof {
            assert(old_ids.skip(k as int)[0] == old_ids[k as int]);
            assert(old_ids[k as int] == id);
            assert(old_ids.skip(k as int).skip(1) =~= old_ids.skip(k + 1));
        }
        match find_index_by_id(&kept, id) {
            Some(pos) => {
                let ghost kept_before = kept@;
                let e = kept.remove(pos);
                proof {
                    assert(kept_orig.contains(e)) by {
                        assert(kept_before[pos as int] == e);
                        assert(kept_orig.contains(kept_before[pos as int]));
                    }
                    assert forall|j: int|
                        0 <= j < kept@.len() implies kept_orig.contains(#[trigger] kept@[j]) by {
                        let j2 = if j < pos {
                            j
                        } else {
                            j + 1
                        };
                        assert(kept@[j] == kept_before[j2]);
                        assert(kept_orig.contains(kept_before[j2]));
                    }
                    assert(result@.push(e) + spec_walk(
                        old_ids.skip(k + 1),
                        kept@,
                        unused@,
                        same,
                    ).0 =~= result@ + (seq![e] + spec_walk(
                        old_ids.skip(k + 1),
                        kept@,
                        unused@,
                        same,
                    ).0));
                }
                result.push(e);
            },
            None => {
                if same {
                    match find_index_by_id(&unused, id) {
                        Some(pos) => {
                            let ghost unused_before = unused@;
                            let e = unused.remove(pos);
                            proof {
                                assert(unused_orig.contains(e)) by {
                                    assert(unused_before[pos as int] == e);
                                    assert(unused_orig.contains(unused_before[pos as int]));
                                }
                                assert forall|j: int|
                                    0 <= j < unused@.len() implies unused_orig.contains(
                                    #[trigger] unused@[j],
                                ) by {
                                    let j2 = if j < pos {
                                        j
                                    } else {
                                        j + 1
                                    };
                                    assert(unused@[j] == unused_before[j2]);
                                    assert(unused_orig.contains(unused_before[j2]));
                                }
                                assert(result@.push(e) + spec_walk(
                                    old_ids.skip(k + 1),
                                    kept@,
                                    unused@,
                                    same,
                                ).0 =~= result@ + (seq![e] + spec_walk(
                                    old_ids.skip(k + 1),
                                    kept@,
                                    unused@,
                                    same,
                                ).0));
                            }
                            result.push(e);
                        },
                        None => {},
                    }
                } else {
                    proof {
                        lemma_find_id(unused@, id);
                    }
                }
            },
        }
        k = k + 1;
    }
    proof {
        assert(old_ids.skip(old_ids.len() as int) =~= Seq::<i64>::empty());
        assert(result@ + Seq::<RenderEntry>::empty() =~= result@);
        assert(result@ == w.0);
        assert(kept@ == w.1);
    }
    // Splice the genuinely new rows in at their canonical positions.
    let ghost fresh_pred = entry_not_in_ids(old_ids);
    let ghost in_old = in_ids(old_ids);
    let ghost survives = spec_survives(kept0, unused0, same);
    proof {
        lemma_walk_ids(old_ids, kept0, unused0, same);
        lemma_walk_leftover(old_ids, kept0, unused0, same);
        lemma_filter_no_dup(old_ids, survives);
        lemma_ids_filter_no_dup(kept0, fresh_pred);
        // The walked ids all lie in the previous order, so the splice
        // filter keeps them all.
        assert forall|j: int|
            0 <= j < ids_of(w.0).len() implies in_old(#[trigger] ids_of(w.0)[j]) by {
            Seq::lemma_filter_pred(old_ids, survives, j);
            lemma_filter_contains_orig(old_ids, survives, ids_of(w.0)[j]);
        }
        lemma_filter_all(ids_of(w.0), in_old);
        assert forall|j: int, i2: int|
            0 <= j < ids_of(w.0).len() && 0 <= i2 < ids_of(w.1).len() implies ids_of(
            w.0,
        )[j] != ids_of(w.1)[i2] by {
            Seq::lemma_filter_pred(kept0, fresh_pred, i2);
            assert(w.1[i2].id == ids_of(w.1)[i2]);
            assert(!old_ids.contains(ids_of(w.1)[i2]));
            assert(in_old(ids_of(w.0)[j]));
        }
        assert forall|j: int, i2: int|
            0 <= j < result@.len() && 0 <= i2 < kept@.len() implies (#[trigger] result@[j]).id != (
        #[trigger] kept@[i2]).id by {
            assert(ids_of(w.0)[j] == w.0[j].id);
            assert(ids_of(w.1)[i2] == w.1[i2].id);
        }
        assert(ids_of(result@).to_multiset().add(ids_of(kept@).to_multiset()) =~= ids_of(
            w.0,
        ).to_multiset().add(ids_of(w.1).to_multiset()));
    }
    let ghost mut t: int = 0;
    proof {
        assert(w.1.skip(0) =~= w.1);
    }
    while kept.len() > 0
        invariant
            0 <= t <= w.1.len(),
            kept@ == w.1.skip(t),
            old_ids == ids_of(old_entries@),
            w == spec_walk(old_ids, kept0, unused0, same),
            fresh_pred == entry_not_in_ids(old_ids),
            in_old == in_ids(old_ids),
            w.1 == kept0.filter(fresh_pred),
            ids_of(w.1).no_duplicates(),
            forall|j: int| 0 <= j < result@.len() ==> entry_wf(#[trigger] result@[j], columns@),
            forall|j: int| 0 <= j < w.1.len() ==> entry_wf(#[trigger] w.1[j], columns@),
            ids_of(result@).filter(in_old) == ids_of(w.0),
            ids_of(result@).to_multiset().add(ids_of(kept@).to_multiset()) == ids_of(
                w.0,
            ).to_multiset().add(ids_of(w.1).to_multiset()),
            ids_of(result@).no_duplicates(),
            sorted_by(SortMode::Canonical, w.0) ==> sorted_by(SortMode::Canonical, result@),
            forall|j: int| 0 <= j < kept@.len() ==> kept_orig.contains(#[trigger] kept@[j]),
            forall|j: int|
                0 <= j < result@.len() ==> kept_orig.contains(#[trigger] result@[j])
                    || unused_orig.contains(result@[j]),
            forall|j: int, i2: int|
                0 <= j < result@.len() && 0 <= i2 < kept@.len() ==> (#[trigger] result@[j]).id != (
                #[trigger] kept@[i2]).id,
        decreases kept@.len(),
    {
        let ghost kept_before = kept@;
        let e = kept.remove(0);
        proof {
            assert(e == w.1[t]);
            assert(w.1.skip(t).skip(1) =~= w.1.skip(t + 1));
            Seq::lemma_filter_pred(kept0, fresh_pred, t);
            assert(!old_ids.contains(e.id));
            assert(kept_orig.contains(e)) by {
                assert(kept_before[0] == e);
                assert(kept_orig.contains(kept_before[0]));
            }
            assert forall|j: int|
                0 <= j < kept@.len() implies kept_orig.contains(#[trigger] kept@[j]) by {
                assert(kept@[j] == kept_before[j + 1]);
                assert(kept_orig.contains(kept_before[j + 1]));
            }
        }
        let p = lower_bound_canonical(&result, &e);
        let ghost before = result@;
        result.insert(p, e);
        proof {
            assert(result@ =~= before.take(p as int) + seq![e] + before.skip(p as int));
            assert forall|j: int|
                0 <= j < result@.len() implies kept_orig.contains(#[trigger] result@[j])
                    || unused_orig.contains(result@[j]) by {
                let pi = p as int;
                if j < pi {
                    assert(result@[j] == before[j]);
                } else if j == pi {
                    assert(result@[j] == e);
                } else {
                    assert(result@[j] == before[j - 1]);
                }
            }
            // Splicing at the lower bound keeps a sorted list sorted.
            if sorted_by(SortMode::Canonical, w.0) {
                assert(sorted_by(SortMode::Canonical, before));
                assert forall|x: int, y: int|
                    0 <= x < y < result@.len() implies mode_le(
                    SortMode::Canonical,
                    #[trigger] result@[x],
                    #[trigger] result@[y],
                ) by {
                    let pi = p as int;
                    let ex = if x < pi {
                        before[x]
                    } else if x == pi {
                        e
                    } else {
                        before[x - 1]
                    };
                    let ey = if y < pi {
                        before[y]
                    } else if y == pi {
                        e
                    } else {
                        before[y - 1]
                    };
                    assert(result@[x] == ex && result@[y] == ey);
                    if x == pi {
                        // `e` precedes everything not below the bound.
                        lemma_mode_le_total(SortMode::Canonical, before[y - 1], e);
                        if y - 1 > pi {
                            assert(mode_le(SortMode::Canonical, before[pi], before[y - 1]));
                            if mode_le(SortMode::Canonical, before[y - 1], e) {
                                lemma_mode_le_trans(
                                    SortMode::Canonical,
                                    before[pi],
                                    before[y - 1],
                                    e,
                                );
                            }
                        }
                    } else if y == pi {
                        assert(mode_le(SortMode::Canonical, before[x], e));
                    }
                }
            }
            assert(ids_of(result@) =~= ids_of(before).take(p as int) + seq![e.id] + ids_of(
                before,
            ).skip(p as int));
            assert(ids_of(before) =~= ids_of(before).take(p as int) + ids_of(before).skip(
                p as int,
            ));
            Seq::filter_distributes_over_add(
                ids_of(before).take(p as int) + seq![e.id],
                ids_of(before).skip(p as int),
                in_old,
            );
            Seq::filter_distributes_over_add(ids_of(before).take(p as int), seq![e.id], in_old);
            Seq::filter_distributes_over_add(
                ids_of(before).take(p as int),
                ids_of(before).skip(p as int),
                in_old,
            );
            lemma_filter_singleton(e.id, in_old);
            assert(ids_of(result@).filter(in_old) =~= ids_of(before).filter(in_old));
            // Multisets: one id moves from the pool to the result.
            broadcast use vstd::multiset::group_multiset_axioms;

            vstd::seq_lib::lemma_multiset_commutative(
                ids_of(before).take(p as int) + seq![e.id],
                ids_of(before).skip(p as int),
            );
            vstd::seq_lib::lemma_multiset_commutative(ids_of(before).take(p as int), seq![e.id]);
            vstd::seq_lib::lemma_multiset_commutative(
                ids_of(before).take(p as int),
                ids_of(before).skip(p as int),
            );
            vstd::seq_lib::lemma_multiset_commutative(seq![e.id], ids_of(w.1.skip(t + 1)));
            assert(ids_of(w.1.skip(t)) =~= seq![e.id] + ids_of(w.1.skip(t + 1)));
            assert(ids_of(result@).to_multiset() =~= ids_of(before).to_multiset().add(
                seq![e.id].to_multiset(),
            ));
            assert(ids_of(w.1.skip(t)).to_multiset() =~= seq![e.id].to_multiset().add(
                ids_of(w.1.skip(t + 1)).to_multiset(),
            ));
            assert(ids_of(result@).to_multiset().add(
                ids_of(w.1.skip(t + 1)).to_multiset(),
            ) =~= ids_of(before).to_multiset().add(ids_of(w.1.skip(t)).to_multiset()));
            // Distinctness: the spliced id is new to the result.
            assert forall|j: int, k2: int|
                0 <= j < k2 < ids_of(result@).len() implies ids_of(result@)[j] != ids_of(
                result@,
            )[k2] by {
                let a = ids_of(before);
                let pi = p as int;
                let lhs = if j < pi {
                    a[j]
                } else if j == pi {
                    e.id
                } else {
                    a[j - 1]
                };
                assert(ids_of(result@)[j] == lhs);
                let rhs = if k2 < pi {
                    a[k2]
                } else if k2 == pi {
                    e.id
                } else {
                    a[k2 - 1]
                };
                assert(ids_of(result@)[k2] == rhs);
                if j == pi {
                    assert(before[k2 - 1].id == a[k2 - 1]);
                } else if k2 == pi {
                    assert(before[j].id == a[j]);
                }
            }
            // Remaining pool ids stay disjoint from the grown result.
            assert forall|j: int, i2: int|
                0 <= j < result@.len() && 0 <= i2 < kept@.len() implies (
            #[trigger] result@[j]).id != (#[trigger] kept@[i2]).id by {
                assert(kept@[i2] == w.1.skip(t)[i2 + 1]);
                assert(w.1.skip(t)[i2 + 1] == w.1[t + i2 + 1]);
                if j == p as int {
                    assert(ids_of(w.1)[t] != ids_of(w.1)[t + i2 + 1]);
                } else {
                    let j2 = if j < p as int {
                        j
                    } else {
                        j - 1
                    };
                    assert(result@[j] == before[j2]);
                }
            }
            t = t + 1;
        }
    }
    proof {
        assert(w.1.skip(w.1.len() as int) =~= Seq::<RenderEntry>::empty());
        assert(ids_of(Seq::<RenderEntry>::empty()) =~= Seq::<i64>::empty());
        Seq::<i64>::empty().to_multiset_ensures();
        broadcast use vstd::multiset::group_multiset_axioms;

        assert(ids_of(result@).to_multiset() =~= ids_of(w.0).to_multiset().add(
            ids_of(w.1).to_multiset(),
        ));
    }
    result
}


proof fn lemma_filter_none<A>(s: Seq<A>, p: spec_fn(A) -> bool)
    requires
        forall|j: int| 0 <= j < s.len() ==> !p(#[trigger] s[j]),
    ensures
        s.filter(p) == Seq::<A>::empty(),
    decreases s.len(),
{
    reveal(Seq::filter);
    if s.len() > 0 {
        lemma_filter_none(s.drop_last(), p);
    }
}

proof fn lemma_insert_sorted_ids(m: SortMode, e: RenderEntry, s: Seq<RenderEntry>)
    ensures
        ids_of(spec_insert_sorted(m, e, s)).to_multiset() == ids_of(s).to_multiset().add(
            seq![e.id].to_multiset(),
        ),
    decreases s.len(),
{
    broadcast use vstd::multiset::group_multiset_axioms;

    let out = spec_insert_sorted(m, e, s);
    if s.len() == 0 {
        assert(ids_of(out) =~= seq![e.id]);
        assert(ids_of(s) =~= Seq::<i64>::empty());
        Seq::<i64>::empty().to_multiset_ensures();
        assert(ids_of(out).to_multiset() =~= ids_of(s).to_multiset().add(
            seq![e.id].to_multiset(),
        ));
    } else if mode_le(m, s[0], e) {
        lemma_insert_sorted_ids(m, e, s.skip(1));
        let sub = spec_insert_sorted(m, e, s.skip(1));
        assert(ids_of(out) =~= seq![s[0].id] + ids_of(sub));
        assert(ids_of(s) =~= seq![s[0].id] + ids_of(s.skip(1)));
        vstd::seq_lib::lemma_multiset_commutative(seq![s[0].id], ids_of(sub));
        vstd::seq_lib::lemma_multiset_commutative(seq![s[0].id], ids_of(s.skip(1)));
        assert(ids_of(out).to_multiset() =~= ids_of(s).to_multiset().add(
            seq![e.id].to_multiset(),
        ));
    } else {
        assert(ids_of(out) =~= seq![e.id] + ids_of(s));
        vstd::seq_lib::lemma_multiset_commutative(seq![e.id], ids_of(s));
        assert(ids_of(out).to_multiset() =~= ids_of(s).to_multiset().add(
            seq![e.id].to_multiset(),
        ));
    }
}

/// Sorting permutes the row identities.
pub proof fn lemma_sort_ids(m: SortMode, s: Seq<RenderEntry>)
    ensures
        ids_of(spec_sort(m, s)).to_multiset() == ids_of(s).to_multiset(),
    decreases s.len(),
{
    broadcast use vstd::multiset::group_multiset_axioms;

    if s.len() == 0 {
        assert(ids_of(spec_sort(m, s)) =~= ids_of(s));
    } else {
        let dl = s.drop_last();
        lemma_sort_ids(m, dl);
        lemma_insert_sorted_ids(m, s.last(), spec_sort(m, dl));
        assert(ids_of(s) =~= ids_of(dl) + seq![s.last().id]);
        vstd::seq_lib::lemma_multiset_commutative(ids_of(dl), seq![s.last().id]);
        assert(ids_of(spec_sort(m, s)).to_multiset() =~= ids_of(s).to_multiset());
    }
}

/// Whether two optional search strings hold the same text.
pub open spec fn search_eq(a: Option<String>, b: Option<String>) -> bool {
    match (a, b) {
        (Some(x), Some(y)) => x@ == y@,
        (None, None) => true,
        _ => false,
    }
}

proof fn lemma_contains_from_multiset(a: Seq<i64>, b: Seq<i64>, x: i64)
    requires
        a.to_multiset() == b.to_multiset(),
        a.contains(x),
    ensures
        b.contains(x),
{
    a.to_multiset_ensures();
    b.to_multiset_ensures();
    assert(a.to_multiset().contains(x));
}

proof fn lemma_entry_contains_from_multiset(a: Seq<RenderEntry>, b: Seq<RenderEntry>, x: RenderEntry)
    requires
        a.to_multiset() == b.to_multiset(),
        a.contains(x),
    ensures
        b.contains(x),
{
    a.to_multiset_ensures();
    b.to_multiset_ensures();
    assert(a.to_multiset().contains(x));
}


/// Every element of a permutation satisfies what every element of the
/// original does.
proof fn lemma_all_from_multiset(
    a: Seq<RenderEntry>,
    b: Seq<RenderEntry>,
    p: spec_fn(RenderEntry) -> bool,
)
    requires
        a.to_multiset() == b.to_multiset(),
        forall|j: int| 0 <= j < a.len() ==> p(#[trigger] a[j]),
    ensures
        forall|j: int| 0 <= j < b.len() ==> p(#[trigger] b[j]),
{
    a.to_multiset_ensures();
    b.to_multiset_ensures();
    assert forall|j: int| 0 <= j < b.len() implies p(#[trigger] b[j]) by {
        assert(b.contains(b[j]));
        assert(b.to_multiset().contains(b[j]));
        assert(a.contains(b[j]));
        let w = choose|w: int| 0 <= w < a.len() && a[w] == b[j];
        assert(p(a[w]));
    }
}

/// The projection's persistent state: the column schema, the rows in
/// visible order, and the revision and search they reflect.
pub struct ItemColumnRenderedSet {
    pub columns: Vec<ItemColumn>,
    pub checkpoint: u64,
    pub entries: Vec<RenderEntry>,
    pub search: Option<String>,
}

/// The projection's invariant: every row fits the schema, and no record is
/// shown twice.
pub open spec fn set_wf(s: &ItemColumnRenderedSet) -> bool {
    &&& forall|j: int| 0 <= j < s.entries@.len() ==> entry_wf(#[trigger] s.entries@[j], s.columns@)
    &&& ids_of(s.entries@).no_duplicates()
}

/// Freshly searched rows: every row scores positive against the search,
/// and rows come in non-increasing score order.
pub open spec fn scored_descending(
    columns: Seq<ItemColumn>,
    entries: Seq<RenderEntry>,
    q: Seq<char>,
) -> bool {
    &&& sorted_by(SortMode::ScoreDesc, entries)
    &&& forall|j: int|
        0 <= j < entries.len() ==> (#[trigger] entries[j]).score > 0 && entries[j].score
            == spec_total_score(columns, core_of(entries[j]).contents, q)
}

/// Whether a record, rendered under a schema, matches a search.
pub open spec fn spec_item_matched(
    columns: Seq<ItemColumn>,
    item: crate::types::ItemView,
    search: Seq<char>,
) -> bool {
    spec_total_score(
        columns,
        Seq::new(columns.len(), |j: int| spec_display(columns[j].content, item)),
        search,
    ) > 0
}

/// The predicate "some backing record carries this id and matches the
/// search".
pub open spec fn backed_match_pred(
    columns: Seq<ItemColumn>,
    items: Seq<Item>,
    search: Seq<char>,
) -> spec_fn(i64) -> bool {
    |id: i64|
        exists|j: int|
            0 <= j < items.len() && (#[trigger] items[j]).object_id == Some(id)
                && spec_item_matched(columns, items[j]@, search)
}

/// Whether no search is in force: none, or an empty one.
pub open spec fn blank_search(search: Option<String>) -> bool {
    match search {
        Some(q) => q@.len() == 0,
        None => true,
    }
}

/// The ids a regeneration may show: with a search in force, the backed
/// records that match it; otherwise every backed record.
pub open spec fn eligible_pred(
    columns: Seq<ItemColumn>,
    items: Seq<Item>,
    search: Option<String>,
) -> spec_fn(i64) -> bool {
    if blank_search(search) {
        in_ids(item_ids_of(items))
    } else {
        backed_match_pred(columns, items, search->Some_0@)
    }
}

/// The previous rows a regeneration keeps: with the search unchanged,
/// every still-backed row (the set-aside fallback holds non-matching rows
/// on screen); with a changed search, exactly the rows now eligible.
pub open spec fn survivor_pred(
    columns: Seq<ItemColumn>,
    items: Seq<Item>,
    prev_search: Option<String>,
    search: Option<String>,
) -> spec_fn(i64) -> bool {
    if search_eq(search, prev_search) {
        in_ids(item_ids_of(items))
    } else {
        eligible_pred(columns, items, search)
    }
}

/// The genuinely new rows a regeneration splices in: eligible records that
/// had no visible row before.
pub open spec fn fresh_id_pred(
    columns: Seq<ItemColumn>,
    items: Seq<Item>,
    old_ids: Seq<i64>,
    search: Option<String>,
) -> spec_fn(i64) -> bool {
    |id: i64| eligible_pred(columns, items, search)(id) && !old_ids.contains(id)
}

/// What one regeneration pass guarantees, relating the previous projection
/// `prev`, the new projection `cur`, and the records, revision and search
/// it was given.
pub open spec fn spec_regenerated(
    prev: ItemColumnRenderedSet,
    cur: ItemColumnRenderedSet,
    items: Seq<Item>,
    checkpoint: u64,
    search: Option<String>,
) -> bool {
    let item_ids = item_ids_of(items);
    let old_ids = ids_of(prev.entries@);
    let new_ids = ids_of(cur.entries@);
    let eligible = eligible_pred(cur.columns@, items, search);
    let survives = survivor_pred(cur.columns@, items, prev.search, search);
    let fresh = fresh_id_pred(cur.columns@, items, old_ids, search);
    &&& cur.checkpoint == checkpoint
    &&& search_eq(cur.search, search)
    &&& forall|j: int| 0 <= j < new_ids.len() ==> item_ids.contains(#[trigger] new_ids[j])
    &&& forall|j: int|
        0 <= j < cur.entries@.len() ==> exists|i: int|
            0 <= i < items.len() && (#[trigger] cur.entries@[j]).id == (
            #[trigger] items[i]).object_id->Some_0 && cur.entries@[j].item@ == items[i]@
    &&& (blank_search(search) ==> forall|j: int|
        0 <= j < cur.entries@.len() ==> entry_unscored(#[trigger] cur.entries@[j]))
    &&& (!blank_search(search) ==> forall|j: int|
        0 <= j < cur.entries@.len() ==> entry_unscored(#[trigger] cur.entries@[j]) || ((
        #[trigger] cur.entries@[j]).score > 0 && cur.entries@[j].score == spec_total_score(
            cur.columns@,
            core_of(cur.entries@[j]).contents,
            search->Some_0@,
        )))
    &&& (prev.entries@.len() > 0 ==> new_ids.filter(in_ids(old_ids)) == old_ids.filter(survives))
    &&& (prev.entries@.len() > 0 ==> new_ids.to_multiset() == old_ids.filter(
        survives,
    ).to_multiset().add(item_ids.filter(fresh).to_multiset()))
    &&& (prev.entries@.len() > 0 && search_eq(search, prev.search) && (forall|id: i64|
        #[trigger] item_ids.contains(id) <==> old_ids.contains(id)) ==> new_ids == old_ids)
    &&& (prev.entries@.len() > 0 && sorted_by(SortMode::Canonical, prev.entries@)
        && views_preserved(prev.entries@, items) ==> sorted_by(SortMode::Canonical, cur.entries@))
    &&& (prev.entries@.len() == 0 ==> new_ids.to_multiset() == item_ids.filter(
        eligible,
    ).to_multiset())
    &&& (prev.entries@.len() == 0 && blank_search(search) ==> sorted_by(
        SortMode::Canonical,
        cur.entries@,
    ) && ties_fetch_ordered(cur.entries@, fetch_rank(items)) && (forall|j: int|
        0 <= j < cur.entries@.len() ==> entry_unscored(#[trigger] cur.entries@[j])))
    &&& (prev.entries@.len() == 0 && !blank_search(search) ==> scored_descending(
        cur.columns@,
        cur.entries@,
        search->Some_0@,
    ) && score_ties_canonical(cur.entries@))
}

impl ItemColumnRenderedSet {
    /// An empty projection over a schema.
    pub fn new(columns: Vec<ItemColumn>) -> (r: ItemColumnRenderedSet)
        ensures
            set_wf(&r),
            r.columns == columns,
            r.entries@.len() == 0,
            r.checkpoint == 0,
            r.search is None,
    {
        ItemColumnRenderedSet { columns, checkpoint: 0, entries: Vec::new(), search: None }
    }

    /// Rebuild the visible rows for a fresh record set, revision and search,
    /// unless the revision and search are those already reflected.
    ///
    /// On a first population the rows are the matches in canonical order
    /// (score order under a search); afterwards the previous order is
    /// reconciled: surviving rows keep their order, rows whose record
    /// vanished drop out, and new matches are spliced in canonically.
    #[verifier::rlimit(100)]
    pub fn regenerate_if_needed(
        &mut self,
        last_fetched_items: &Vec<Item>,
        last_updated_checkpoint: u64,
        search: Option<String>,
    )
        requires
            set_wf(old(self)),
            forall|j: int|
                0 <= j < last_fetched_items@.len() ==> (#[trigger] last_fetched_items@[j]).object_id
                    is Some,
            item_ids_of(last_fetched_items@).no_duplicates(),
        ensures
            set_wf(final(self)),
            final(self).columns == old(self).columns,
            search_eq(search, old(self).search) && last_updated_checkpoint == old(self).checkpoint
                ==> *final(self) == *old(self),
            !(search_eq(search, old(self).search) && last_updated_checkpoint == old(
                self,
            ).checkpoint) ==> final(self).search == search && spec_regenerated(
                *old(self),
                *final(self),
                last_fetched_items@,
                last_updated_checkpoint,
                search,
            ),
    {
        let same_search = crate::text::opt_str_eq(&search, &self.search);
        proof {
            assert(same_search == search_eq(search, old(self).search));
        }
        if same_search && last_updated_checkpoint == self.checkpoint {
            return ;
        }
        let ghost item_ids = item_ids_of(last_fetched_items@);
        let ghost old_ids = ids_of(old(self).entries@);
        let ghost cols = self.columns@;
        let ghost wf_pred = |e: RenderEntry| entry_wf(e, cols) && entry_unscored(e);

        let rendered = render_all(&self.columns, last_fetched_items);
        let ghost rendered0 = rendered@;
        proof {
            assert(ids_of(rendered0) =~= item_ids);
        }
        let mut sorted = rendered;
        sort_entries(SortMode::Canonical, &mut sorted);
        let ghost sorted0 = sorted@;
        proof {
            lemma_sort_props(SortMode::Canonical, rendered0);
            lemma_sort_ids(SortMode::Canonical, rendered0);
            lemma_all_from_multiset(rendered0, sorted0, wf_pred);
            item_ids.lemma_multiset_has_no_duplicates();
            ids_of(sorted0).lemma_multiset_has_no_duplicates_conv();
            assert(ids_of(sorted0).no_duplicates());
        }
        let nonempty_search = match &search {
            Some(q) => q.unicode_len() > 0,
            None => false,
        };
        let ghost q_chars = match &search {
            Some(q) => q@,
            None => Seq::<char>::empty(),
        };
        let ghost matched_pred = matched_pred_of(cols, q_chars);
        let ghost not_matched_pred = unmatched_pred_of(cols, q_chars);
        let ghost mut kept0_snapshot: Seq<RenderEntry> = Seq::empty();
        let mut kept: Vec<RenderEntry>;
        let unused: Vec<RenderEntry>;
        if nonempty_search {
            let pair = match &search {
                Some(q) => score_and_filter(&self.columns, sorted, q.as_str()),
                None => (Vec::new(), Vec::new()),
            };
            kept = pair.0;
            unused = pair.1;
            let ghost kept0 = kept@;
            proof {
                kept0_snapshot = kept@;
            }
            proof {
                // The fresh matches carry the ids of the matching rows.
                assert(cores_of(kept0) == cores_of(sorted0.filter(matched_pred)));
                assert(kept0.len() == sorted0.filter(matched_pred).len()) by {
                    assert(cores_of(kept0).len() == kept0.len());
                    assert(cores_of(sorted0.filter(matched_pred)).len() == sorted0.filter(
                        matched_pred,
                    ).len());
                }
                assert forall|j: int| 0 <= j < kept0.len() implies ids_of(kept0)[j] == ids_of(
                    sorted0.filter(matched_pred),
                )[j] by {
                    assert(cores_of(kept0)[j] == cores_of(sorted0.filter(matched_pred))[j]);
                    assert(cores_of(kept0)[j] == core_of(kept0[j]));
                    assert(cores_of(sorted0.filter(matched_pred))[j] == core_of(
                        sorted0.filter(matched_pred)[j],
                    ));
                    assert(ids_of(kept0)[j] == kept0[j].id);
                    assert(ids_of(sorted0.filter(matched_pred))[j] == sorted0.filter(
                        matched_pred,
                    )[j].id);
                }
                assert(ids_of(kept0) =~= ids_of(sorted0.filter(matched_pred)));
                lemma_ids_filter_no_dup(sorted0, matched_pred);
                lemma_ids_filter_no_dup(sorted0, not_matched_pred);
            }
            sort_entries(SortMode::ScoreDesc, &mut kept);
            proof {
                lemma_sort_props(SortMode::ScoreDesc, kept0);
                lemma_sort_ids(SortMode::ScoreDesc, kept0);
                ids_of(kept0).lemma_multiset_has_no_duplicates();
                ids_of(kept@).lemma_multiset_has_no_duplicates_conv();
                let score_pred = |e: RenderEntry| e.score > 0 && e.score == spec_total_score(
                    cols,
                    core_of(e).contents,
                    q_chars,
                ) && entry_wf(e, cols);
                lemma_all_from_multiset(kept0, kept@, score_pred);
                // The score sort is stable over canonically ordered matches,
                // so equal scores keep the canonical order.
                lemma_filter_keeps_sorted(SortMode::Canonical, sorted0, matched_pred);
                let matches0 = sorted0.filter(matched_pred);
                assert forall|x: int, y: int|
                    0 <= x < y < kept0.len() implies mode_le(
                    SortMode::Canonical,
                    #[trigger] kept0[x],
                    #[trigger] kept0[y],
                ) by {
                    assert(cores_of(kept0)[x] == cores_of(matches0)[x]);
                    assert(cores_of(kept0)[y] == cores_of(matches0)[y]);
                    assert(kept0[x].item@ == matches0[x].item@);
                    assert(kept0[y].item@ == matches0[y].item@);
                    assert(mode_le(SortMode::Canonical, matches0[x], matches0[y]));
                }
                lemma_sort_scoredesc_ties(kept0);
                assert(score_ties_canonical(kept@));
            }
        } else {
            kept = sorted;
            unused = Vec::new();
            proof {
                assert(ids_of(unused@) =~= Seq::<i64>::empty());
            }
        }
        let ghost kept_final = kept@;
        let ghost unused_final = unused@;
        proof {
            assert forall|j: int|
                0 <= j < unused_final.len() implies entry_wf(#[trigger] unused_final[j], cols)
                    && entry_unscored(unused_final[j]) by {
                if nonempty_search {
                    assert(unused_final.contains(unused_final[j]));
                    lemma_filter_contains_orig(sorted0, not_matched_pred, unused_final[j]);
                    let w = choose|w: int|
                        0 <= w < sorted0.len() && sorted0[w] == unused_final[j];
                    assert(wf_pred(sorted0[w]));
                }
            }
            // Every id either matches or is set aside; together they are the
            // backing ids.
            assert forall|id: i64|
                #[trigger] ids_of(kept_final).contains(id) || ids_of(unused_final).contains(id)
                    implies item_ids.contains(id) by {
                if ids_of(kept_final).contains(id) {
                    if nonempty_search {
                        ids_of(kept_final).to_multiset_ensures();
                        let kept_ids0 = ids_of(sorted0.filter(matched_pred));
                        lemma_contains_from_multiset(ids_of(kept_final), kept_ids0, id);
                        let j = choose|j: int| 0 <= j < kept_ids0.len() && kept_ids0[j] == id;
                        let e = sorted0.filter(matched_pred)[j];
                        assert(sorted0.filter(matched_pred).contains(e));
                        lemma_filter_contains_orig(sorted0, matched_pred, e);
                        let w = choose|w: int| 0 <= w < sorted0.len() && sorted0[w] == e;
                        assert(ids_of(sorted0)[w] == id);
                        lemma_contains_from_multiset(ids_of(sorted0), item_ids, id);
                    } else {
                        lemma_contains_from_multiset(ids_of(kept_final), item_ids, id);
                    }
                } else if ids_of(unused_final).contains(id) {
                    let j = choose|j: int|
                        0 <= j < ids_of(unused_final).len() && ids_of(unused_final)[j] == id;
                    let e = unused_final[j];
                    assert(unused_final.contains(e));
                    lemma_filter_contains_orig(sorted0, not_matched_pred, e);
                    let w = choose|w: int| 0 <= w < sorted0.len() && sorted0[w] == e;
                    assert(ids_of(sorted0)[w] == id);
                    lemma_contains_from_multiset(ids_of(sorted0), item_ids, id);
                }
            }
            assert forall|id: i64| #[trigger] item_ids.contains(id) implies ids_of(
                kept_final,
            ).contains(id) || ids_of(unused_final).contains(id) by {
                lemma_contains_from_multiset(item_ids, ids_of(sorted0), id);
                let j = choose|j: int| 0 <= j < ids_of(sorted0).len() && ids_of(sorted0)[j] == id;
                let e = sorted0[j];
                if nonempty_search {
                    if matched_pred(e) {
                        sorted0.lemma_filter_contains(matched_pred, j);
                        let w = choose|w: int|
                            0 <= w < sorted0.filter(matched_pred).len() && sorted0.filter(
                                matched_pred,
                            )[w] == e;
                        assert(ids_of(sorted0.filter(matched_pred))[w] == id);
                        lemma_contains_from_multiset(
                            ids_of(sorted0.filter(matched_pred)),
                            ids_of(kept_final),
                            id,
                        );
                    } else {
                        sorted0.lemma_filter_contains(not_matched_pred, j);
                        let w = choose|w: int|
                            0 <= w < sorted0.filter(not_matched_pred).len() && sorted0.filter(
                                not_matched_pred,
                            )[w] == e;
                        assert(ids_of(unused_final)[w] == id);
                    }
                } else {
                    assert(ids_of(kept_final).contains(id));
                }
            }
        }
        let ghost eligible = eligible_pred(cols, last_fetched_items@, search);
        proof {
            assert(blank_search(search) == !nonempty_search);
            if nonempty_search {
                assert(q_chars == search->Some_0@);
                assert(eligible == backed_match_pred(cols, last_fetched_items@, q_chars));
            } else {
                assert(eligible == in_ids(item_ids));
                assert(ids_of(kept_final).to_multiset() == item_ids.to_multiset());
            }
            // A row is among the fresh matches exactly when its record is
            // eligible for the search in force.
            assert forall|id: i64|
                #[trigger] ids_of(kept_final).contains(id) <==> eligible(id) by {
                if nonempty_search {
                    let backed = backed_match_pred(cols, last_fetched_items@, q_chars);
                    if ids_of(kept_final).contains(id) {
                        let kept_ids0 = ids_of(sorted0.filter(matched_pred));
                        lemma_contains_from_multiset(ids_of(kept_final), kept_ids0, id);
                        let u = choose|u: int| 0 <= u < kept_ids0.len() && kept_ids0[u] == id;
                        let e = sorted0.filter(matched_pred)[u];
                        Seq::lemma_filter_pred(sorted0, matched_pred, u);
                        assert(sorted0.filter(matched_pred).contains(e));
                        lemma_filter_contains_orig(sorted0, matched_pred, e);
                        lemma_entry_contains_from_multiset(sorted0, rendered0, e);
                        let v = choose|v: int| 0 <= v < rendered0.len() && rendered0[v] == e;
                        assert(last_fetched_items@[v].object_id == Some(id));
                        assert(wf_pred(rendered0[v]));
                        assert(core_of(e).contents =~= Seq::new(
                            cols.len(),
                            |m: int| spec_display(cols[m].content, e.item@),
                        ));
                        assert(spec_item_matched(cols, last_fetched_items@[v]@, q_chars));
                        assert(backed(id));
                    }
                    if backed(id) {
                        let v = choose|v: int|
                            0 <= v < last_fetched_items@.len() && (
                            #[trigger] last_fetched_items@[v]).object_id == Some(id)
                                && spec_item_matched(cols, last_fetched_items@[v]@, q_chars);
                        let e = rendered0[v];
                        assert(e.id == id && e.item@ == last_fetched_items@[v]@);
                        assert(wf_pred(e));
                        assert(core_of(e).contents =~= Seq::new(
                            cols.len(),
                            |m: int| spec_display(cols[m].content, e.item@),
                        ));
                        assert(spec_matched(cols, e, q_chars));
                        lemma_entry_contains_from_multiset(rendered0, sorted0, e);
                        let w = choose|w: int| 0 <= w < sorted0.len() && sorted0[w] == e;
                        sorted0.lemma_filter_contains(matched_pred, w);
                        let u = choose|u: int|
                            0 <= u < sorted0.filter(matched_pred).len() && sorted0.filter(
                                matched_pred,
                            )[u] == e;
                        assert(ids_of(sorted0.filter(matched_pred))[u] == id);
                        lemma_contains_from_multiset(
                            ids_of(sorted0.filter(matched_pred)),
                            ids_of(kept_final),
                            id,
                        );
                    }
                } else {
                    if ids_of(kept_final).contains(id) {
                        lemma_contains_from_multiset(ids_of(kept_final), item_ids, id);
                    }
                    if item_ids.contains(id) {
                        lemma_contains_from_multiset(item_ids, ids_of(kept_final), id);
                    }
                }
            }
            // Eligible records are backed.
            assert forall|id: i64| #[trigger] eligible(id) implies item_ids.contains(id) by {
                if nonempty_search {
                    let v = choose|v: int|
                        0 <= v < last_fetched_items@.len() && (
                        #[trigger] last_fetched_items@[v]).object_id == Some(id)
                            && spec_item_matched(cols, last_fetched_items@[v]@, q_chars);
                    assert(item_ids[v] == id);
                }
            }
            // Every pooled row carries the content of the backing record
            // with its id.
            assert forall|e: RenderEntry|
                #[trigger] kept_final.contains(e) || unused_final.contains(e) implies exists|
                v: int,
            |
                0 <= v < last_fetched_items@.len() && (
                #[trigger] last_fetched_items@[v]).object_id == Some(e.id) && e.item@
                    == last_fetched_items@[v]@ by {
                if kept_final.contains(e) {
                    if nonempty_search {
                        lemma_entry_contains_from_multiset(kept_final, kept0_snapshot, e);
                        let u = choose|u: int|
                            0 <= u < kept0_snapshot.len() && kept0_snapshot[u] == e;
                        let f = sorted0.filter(matched_pred)[u];
                        assert(cores_of(kept0_snapshot)[u] == cores_of(
                            sorted0.filter(matched_pred),
                        )[u]);
                        assert(e.item@ == f.item@ && e.id == f.id);
                        assert(sorted0.filter(matched_pred).contains(f));
                        lemma_filter_contains_orig(sorted0, matched_pred, f);
                        lemma_entry_contains_from_multiset(sorted0, rendered0, f);
                        let v2 = choose|v2: int| 0 <= v2 < rendered0.len() && rendered0[v2] == f;
                        assert(last_fetched_items@[v2].object_id == Some(e.id));
                        assert(e.item@ == last_fetched_items@[v2]@);
                    } else {
                        lemma_entry_contains_from_multiset(kept_final, rendered0, e);
                        let v2 = choose|v2: int| 0 <= v2 < rendered0.len() && rendered0[v2] == e;
                        assert(last_fetched_items@[v2].object_id == Some(e.id));
                        assert(e.item@ == last_fetched_items@[v2]@);
                    }
                } else if unused_final.contains(e) {
                    lemma_filter_contains_orig(sorted0, not_matched_pred, e);
                    lemma_entry_contains_from_multiset(sorted0, rendered0, e);
                    let v2 = choose|v2: int| 0 <= v2 < rendered0.len() && rendered0[v2] == e;
                    assert(last_fetched_items@[v2].object_id == Some(e.id));
                    assert(e.item@ == last_fetched_items@[v2]@);
                }
            }
            // Every pooled row is either undecorated or carries its exact
            // positive score.
            assert forall|e: RenderEntry|
                #[trigger] kept_final.contains(e) || unused_final.contains(e) implies
                entry_unscored(e) || (e.score > 0 && e.score == spec_total_score(
                cols,
                core_of(e).contents,
                q_chars,
            )) by {
                if kept_final.contains(e) && nonempty_search {
                    let u = choose|u: int| 0 <= u < kept_final.len() && kept_final[u] == e;
                }
                if kept_final.contains(e) && !nonempty_search {
                    lemma_entry_contains_from_multiset(kept_final, rendered0, e);
                    let v2 = choose|v2: int| 0 <= v2 < rendered0.len() && rendered0[v2] == e;
                    assert(wf_pred(rendered0[v2]));
                }
            }
        }
        let new_entries = if self.entries.len() == 0 {
            proof {
                assert(forall|e: RenderEntry|
                    #[trigger] kept_final.contains(e) || unused_final.contains(e)
                        ==> exists|v: int|
                        0 <= v < last_fetched_items@.len() && (
                        #[trigger] last_fetched_items@[v]).object_id == Some(e.id) && e.item@
                            == last_fetched_items@[v]@);
                assert(forall|e: RenderEntry|
                    #[trigger] kept_final.contains(e) || unused_final.contains(e)
                        ==> entry_unscored(e) || (e.score > 0 && e.score == spec_total_score(
                        cols,
                        core_of(e).contents,
                        q_chars,
                    )));
                assert forall|j: int|
                    0 <= j < ids_of(kept_final).len() implies item_ids.contains(
                    #[trigger] ids_of(kept_final)[j],
                ) by {
                    assert(ids_of(kept_final).contains(ids_of(kept_final)[j]));
                }
                // A first population shows exactly the eligible records.
                lemma_filter_no_dup(item_ids, eligible);
                assert forall|id: i64|
                    #[trigger] ids_of(kept_final).contains(id) <==> item_ids.filter(
                    eligible,
                ).contains(id) by {
                    if ids_of(kept_final).contains(id) {
                        assert(eligible(id));
                        assert(item_ids.contains(id));
                        let v = choose|v: int| 0 <= v < item_ids.len() && item_ids[v] == id;
                        item_ids.lemma_filter_contains(eligible, v);
                    }
                    if item_ids.filter(eligible).contains(id) {
                        let u = choose|u: int|
                            0 <= u < item_ids.filter(eligible).len() && item_ids.filter(
                                eligible,
                            )[u] == id;
                        Seq::lemma_filter_pred(item_ids, eligible, u);
                        assert(eligible(id));
                    }
                }
                lemma_same_members_multiset(ids_of(kept_final), item_ids.filter(eligible));
                assert forall|j: int|
                    0 <= j < kept_final.len() implies exists|i: int|
                    0 <= i < last_fetched_items@.len() && (#[trigger] kept_final[j]).id == (
                    #[trigger] last_fetched_items@[i]).object_id->Some_0 && kept_final[j].item@
                        == last_fetched_items@[i]@ by {
                    assert(kept_final.contains(kept_final[j]));
                    let v = choose|v: int|
                        0 <= v < last_fetched_items@.len() && (
                        #[trigger] last_fetched_items@[v]).object_id == Some(kept_final[j].id)
                            && kept_final[j].item@ == last_fetched_items@[v]@;
                    assert(last_fetched_items@[v].object_id->Some_0 == kept_final[j].id);
                }
                assert forall|j: int|
                    0 <= j < kept_final.len() implies entry_unscored(#[trigger] kept_final[j]) || (
                    kept_final[j].score > 0 && kept_final[j].score == spec_total_score(
                        cols,
                        core_of(kept_final[j]).contents,
                        q_chars,
                    )) by {
                    assert(kept_final.contains(kept_final[j]));
                }
                if !nonempty_search {
                    // Without a search, the first population keeps fetch
                    // order among canonical ties: the sort is stable.
                    let rank = fetch_rank(last_fetched_items@);
                    assert forall|j: int|
                        0 <= j < rendered0.len() implies rank(#[trigger] rendered0[j]) == j by {
                        lemma_find_id_in_distinct(item_ids, j);
                        assert(ids_of(rendered0)[j] == rendered0[j].id);
                        assert(item_ids[j] == rendered0[j].id);
                    }
                    lemma_sort_canonical_stable(rendered0, rank);
                }
            }
            kept
        } else {
            let r = reconcile(&self.columns, &self.entries, kept, unused, same_search);
            proof {
                let survives = spec_survives(kept_final, unused_final, same_search);
                let in_old = in_ids(old_ids);
                let in_item = in_ids(item_ids);
                let fresh_entry_pred = entry_not_in_ids(old_ids);
                let fresh_ids = ids_of(kept_final.filter(fresh_entry_pred));
                broadcast use vstd::multiset::group_multiset_axioms;

                // Fresh spliced ids come from the matching pool.
                assert forall|j: int|
                    0 <= j < fresh_ids.len() implies item_ids.contains(#[trigger] fresh_ids[j]) by {
                    let e = kept_final.filter(fresh_entry_pred)[j];
                    assert(kept_final.filter(fresh_entry_pred).contains(e));
                    lemma_filter_contains_orig(kept_final, fresh_entry_pred, e);
                    let w = choose|w: int| 0 <= w < kept_final.len() && kept_final[w] == e;
                    assert(ids_of(kept_final)[w] == fresh_ids[j]);
                    assert(ids_of(kept_final).contains(fresh_ids[j]));
                }
                // Surviving ids are backing ids.
                assert forall|j: int|
                    0 <= j < old_ids.filter(survives).len() implies item_ids.contains(
                    #[trigger] old_ids.filter(survives)[j],
                ) by {
                    Seq::lemma_filter_pred(old_ids, survives, j);
                }
                // Membership of every new id among the backing ids.
                ids_of(r@).to_multiset_ensures();
                old_ids.filter(survives).to_multiset_ensures();
                fresh_ids.to_multiset_ensures();
                assert forall|j: int|
                    0 <= j < ids_of(r@).len() implies item_ids.contains(
                    #[trigger] ids_of(r@)[j],
                ) by {
                    let id = ids_of(r@)[j];
                    assert(ids_of(r@).contains(id));
                    assert(ids_of(r@).to_multiset().contains(id));
                    assert(old_ids.filter(survives).to_multiset().contains(id)
                        || fresh_ids.to_multiset().contains(id));
                    if old_ids.filter(survives).to_multiset().contains(id) {
                        assert(old_ids.filter(survives).contains(id));
                        let w = choose|w: int|
                            0 <= w < old_ids.filter(survives).len() && old_ids.filter(
                                survives,
                            )[w] == id;
                    } else {
                        assert(fresh_ids.contains(id));
                        let w = choose|w: int| 0 <= w < fresh_ids.len() && fresh_ids[w] == id;
                    }
                }
                // Surviving means still backed (unchanged search, through
                // the set-aside fallback) or eligible (changed search).
                assert(forall|id: i64|
                    #[trigger] ids_of(kept_final).contains(id) || ids_of(unused_final).contains(
                        id,
                    ) ==> item_ids.contains(id));
                assert(forall|id: i64|
                    #[trigger] item_ids.contains(id) ==> ids_of(kept_final).contains(id) || ids_of(
                        unused_final,
                    ).contains(id));
                assert(forall|e: RenderEntry|
                    #[trigger] kept_final.contains(e) || unused_final.contains(e)
                        ==> exists|v: int|
                        0 <= v < last_fetched_items@.len() && (
                        #[trigger] last_fetched_items@[v]).object_id == Some(e.id) && e.item@
                            == last_fetched_items@[v]@);
                assert(forall|e: RenderEntry|
                    #[trigger] kept_final.contains(e) || unused_final.contains(e)
                        ==> entry_unscored(e) || (e.score > 0 && e.score == spec_total_score(
                        cols,
                        core_of(e).contents,
                        q_chars,
                    )));
                let survivor = survivor_pred(cols, last_fetched_items@, old(self).search, search);
                assert forall|jj: int|
                    0 <= jj < old_ids.len() implies survives(#[trigger] old_ids[jj]) == survivor(
                    old_ids[jj],
                ) by {
                    let id = old_ids[jj];
                    if same_search {
                        assert(survivor == in_ids(item_ids));
                        if survives(id) {
                            assert(ids_of(kept_final).contains(id) || ids_of(
                                unused_final,
                            ).contains(id));
                            assert(item_ids.contains(id));
                        }
                        if item_ids.contains(id) {
                            assert(ids_of(kept_final).contains(id) || ids_of(
                                unused_final,
                            ).contains(id));
                        }
                    } else {
                        assert(survivor == eligible);
                        assert(survives(id) == ids_of(kept_final).contains(id));
                    }
                }
                lemma_filter_agree(old_ids, survives, survivor);
                // The spliced rows are exactly the eligible records that had
                // no row before.
                let freshp = fresh_id_pred(cols, last_fetched_items@, old_ids, search);
                lemma_ids_filter_no_dup(kept_final, fresh_entry_pred);
                lemma_filter_no_dup(item_ids, freshp);
                assert forall|id: i64|
                    #[trigger] fresh_ids.contains(id) <==> item_ids.filter(freshp).contains(
                    id,
                ) by {
                    if fresh_ids.contains(id) {
                        let j = choose|j: int| 0 <= j < fresh_ids.len() && fresh_ids[j] == id;
                        let e = kept_final.filter(fresh_entry_pred)[j];
                        Seq::lemma_filter_pred(kept_final, fresh_entry_pred, j);
                        assert(kept_final.filter(fresh_entry_pred).contains(e));
                        lemma_filter_contains_orig(kept_final, fresh_entry_pred, e);
                        let w = choose|w: int| 0 <= w < kept_final.len() && kept_final[w] == e;
                        assert(ids_of(kept_final)[w] == id);
                        assert(ids_of(kept_final).contains(id));
                        assert(eligible(id));
                        assert(freshp(id));
                        assert(item_ids.contains(id));
                        let v = choose|v: int| 0 <= v < item_ids.len() && item_ids[v] == id;
                        item_ids.lemma_filter_contains(freshp, v);
                    }
                    if item_ids.filter(freshp).contains(id) {
                        let u = choose|u: int|
                            0 <= u < item_ids.filter(freshp).len() && item_ids.filter(
                                freshp,
                            )[u] == id;
                        Seq::lemma_filter_pred(item_ids, freshp, u);
                        assert(eligible(id) && !old_ids.contains(id));
                        assert(ids_of(kept_final).contains(id));
                        let w = choose|w: int|
                            0 <= w < ids_of(kept_final).len() && ids_of(kept_final)[w] == id;
                        assert(kept_final[w].id == id);
                        assert(fresh_entry_pred(kept_final[w]));
                        kept_final.lemma_filter_contains(fresh_entry_pred, w);
                        let u2 = choose|u2: int|
                            0 <= u2 < kept_final.filter(fresh_entry_pred).len()
                                && kept_final.filter(fresh_entry_pred)[u2] == kept_final[w];
                        assert(fresh_ids[u2] == id);
                    }
                }
                lemma_same_members_multiset(fresh_ids, item_ids.filter(freshp));
                // A previously sorted order whose records kept their content
                // walks out sorted, and the splice keeps it sorted.
                if sorted_by(SortMode::Canonical, old(self).entries@) && views_preserved(
                    old(self).entries@,
                    last_fetched_items@,
                ) {
                    assert forall|e: RenderEntry, j: int|
                        (kept_final.contains(e) || unused_final.contains(e)) && 0 <= j < old(
                            self,
                        ).entries@.len() && (#[trigger] old(self).entries@[j]).id == (
                    #[trigger] e.id) implies e.item@ == old(self).entries@[j].item@ by {
                        assert(kept_final.contains(e) || unused_final.contains(e));
                        let v = choose|v: int|
                            0 <= v < last_fetched_items@.len() && (
                            #[trigger] last_fetched_items@[v]).object_id == Some(e.id) && e.item@
                                == last_fetched_items@[v]@;
                    }
                    lemma_walk_sorted(old(self).entries@, kept_final, unused_final, same_search);
                }
                // The returned rows carry backing content and exact
                // decoration, row by row.
                assert forall|j: int|
                    0 <= j < r@.len() implies exists|i: int|
                    0 <= i < last_fetched_items@.len() && (#[trigger] r@[j]).id == (
                    #[trigger] last_fetched_items@[i]).object_id->Some_0 && r@[j].item@
                        == last_fetched_items@[i]@ by {
                    assert(kept_final.contains(r@[j]) || unused_final.contains(r@[j]));
                    let v = choose|v: int|
                        0 <= v < last_fetched_items@.len() && (
                        #[trigger] last_fetched_items@[v]).object_id == Some(r@[j].id)
                            && r@[j].item@ == last_fetched_items@[v]@;
                    assert(last_fetched_items@[v].object_id->Some_0 == r@[j].id);
                }
                assert forall|j: int|
                    0 <= j < r@.len() implies entry_unscored(#[trigger] r@[j]) || (r@[j].score > 0
                        && r@[j].score == spec_total_score(
                        cols,
                        core_of(r@[j]).contents,
                        q_chars,
                    )) by {
                    assert(kept_final.contains(r@[j]) || unused_final.contains(r@[j]));
                }
                if same_search {
                    if forall|id: i64| #[trigger] item_ids.contains(id) <==> old_ids.contains(id) {
                        // Unchanged membership: everything survives and
                        // nothing is new, so the order stands.
                        assert forall|j: int|
                            0 <= j < old_ids.len() implies survives(#[trigger] old_ids[j]) by {}
                        lemma_filter_all(old_ids, survives);
                        assert forall|j: int|
                            0 <= j < kept_final.len() implies !fresh_entry_pred(
                            #[trigger] kept_final[j],
                        ) by {
                            assert(ids_of(kept_final)[j] == kept_final[j].id);
                            assert(ids_of(kept_final).contains(kept_final[j].id));
                        }
                        lemma_filter_none(kept_final, fresh_entry_pred);
                        assert(fresh_ids =~= Seq::<i64>::empty());
                        Seq::<i64>::empty().to_multiset_ensures();
                        assert(ids_of(r@).to_multiset() =~= old_ids.to_multiset());
                        old_ids.to_multiset_ensures();
                        assert forall|j: int|
                            0 <= j < ids_of(r@).len() implies in_old(#[trigger] ids_of(r@)[j]) by {
                            assert(ids_of(r@).contains(ids_of(r@)[j]));
                            assert(ids_of(r@).to_multiset().contains(ids_of(r@)[j]));
                            assert(old_ids.contains(ids_of(r@)[j]));
                        }
                        lemma_filter_all(ids_of(r@), in_old);
                        assert(ids_of(r@) == old_ids.filter(survives));
                        assert(ids_of(r@) == old_ids);
                    }
                }
            }
            r
        };
        self.entries = new_entries;
        self.checkpoint = last_updated_checkpoint;
        self.search = search;
    }
}


/// Whether a column accepts character insertion.
pub open spec fn spec_has_insert(content: ItemColumnContent) -> bool {
    match content {
        ItemColumnContent::Location => false,
        ItemColumnContent::Size => true,
        ItemColumnContent::Name => true,
    }
}

/// Whether a column accepts character deletion.
pub open spec fn spec_has_delete(content: ItemColumnContent) -> bool {
    match content {
        ItemColumnContent::Location => false,
        ItemColumnContent::Size => false,
        ItemColumnContent::Name => true,
    }
}

/// The size code a typed character selects, if any.
pub open spec fn spec_size_for_char(c: char) -> Option<Seq<char>> {
    if c == 's' || c == 'S' {
        Some(seq!['S'])
    } else if c == 'm' || c == 'M' {
        Some(seq!['M'])
    } else if c == 'l' || c == 'L' {
        Some(seq!['L'])
    } else if c == 'x' || c == 'X' {
        Some(seq!['X'])
    } else {
        None
    }
}

/// A record after a character is typed into a column: the size column
/// accepts one of its four letters (anything else leaves the record
/// alone), the name column inserts before the addressed grapheme.
pub open spec fn spec_insert_edit(
    content: ItemColumnContent,
    item: crate::types::ItemView,
    i: int,
    c: char,
) -> crate::types::ItemView {
    match content {
        ItemColumnContent::Location => item,
        ItemColumnContent::Size => match spec_size_for_char(c) {
            Some(z) => crate::types::ItemView { size: z, ..item },
            None => item,
        },
        ItemColumnContent::Name => crate::types::ItemView {
            name: crate::unicode::spec_insert_at_grapheme(item.name, i, c),
            ..item
        },
    }
}

/// The cursor after a character is typed: the size column snaps to the
/// start; the name column sits just past the inserted character.
pub open spec fn spec_insert_cursor(
    content: ItemColumnContent,
    item: crate::types::ItemView,
    i: int,
    c: char,
) -> int {
    match content {
        ItemColumnContent::Location => i,
        ItemColumnContent::Size => 0,
        ItemColumnContent::Name => {
            let n = crate::unicode::grapheme_segments_of(item.name).len() as int;
            if i < n {
                i + 1
            } else {
                n + 1
            }
        },
    }
}

/// A record after a character delete: the name column drops the addressed
/// grapheme; no other column deletes.
pub open spec fn spec_delete_edit(
    content: ItemColumnContent,
    item: crate::types::ItemView,
    i: int,
) -> crate::types::ItemView {
    match content {
        ItemColumnContent::Name => crate::types::ItemView {
            name: crate::unicode::spec_delete_at_grapheme(item.name, i),
            ..item
        },
        _ => item,
    }
}

/// Apply a typed character to a record through a column's editor.
pub fn apply_insert_edit(content: ItemColumnContent, item: &Item, i: usize, c: char) -> (r: (
    Item,
    usize,
))
    requires
        i < usize::MAX,
    ensures
        r.0@ == spec_insert_edit(content, item@, i as int, c),
        r.1 == spec_insert_cursor(content, item@, i as int, c),
        r.0.object_id == item.object_id,
{
    match content {
        ItemColumnContent::Location => (clone_item(item), i),
        ItemColumnContent::Size => {
            proof {
                reveal_strlit("S");
                reveal_strlit("M");
                reveal_strlit("L");
                reveal_strlit("X");
            }
            let new_size: Option<String> = match c {
                's' | 'S' => Some(String::from_str("S")),
                'm' | 'M' => Some(String::from_str("M")),
                'l' | 'L' => Some(String::from_str("L")),
                'x' | 'X' => Some(String::from_str("X")),
                _ => None,
            };
            match new_size {
                Some(z) => {
                    proof {
                        assert(z@ =~= spec_size_for_char(c)->Some_0);
                    }
                    let r = Item {
                        object_id: item.object_id,
                        name: item.name.clone(),
                        location: clone_location(&item.location),
                        bin_no: item.bin_no,
                        size: z,
                    };
                    (r, 0)
                },
                None => (clone_item(item), 0),
            }
        },
        ItemColumnContent::Name => {
            let (new_name, cursor) = crate::unicode::insert_char_at_grapheme(
                item.name.as_str(),
                i,
                c,
            );
            let r = Item {
                object_id: item.object_id,
                name: new_name,
                location: clone_location(&item.location),
                bin_no: item.bin_no,
                size: item.size.clone(),
            };
            (r, cursor)
        },
    }
}

/// Apply a character delete to a record through a column's editor.
pub fn apply_delete_edit(content: ItemColumnContent, item: &Item, i: usize) -> (r: Item)
    ensures
        r@ == spec_delete_edit(content, item@, i as int),
        r.object_id == item.object_id,
{
    match content {
        ItemColumnContent::Name => {
            let new_name = crate::unicode::delete_char_at_grapheme(item.name.as_str(), i);
            Item {
                object_id: item.object_id,
                name: new_name,
                location: clone_location(&item.location),
                bin_no: item.bin_no,
                size: item.size.clone(),
            }
        },
        _ => clone_item(item),
    }
}

impl ItemColumnRenderedSet {
    /// The width a size-to-content column needs: its header, or its widest
    /// cell.
    pub fn max_column_width(&self, column: usize) -> (r: usize)
        requires
            column < self.columns@.len(),
            set_wf(self),
        ensures
            r >= self.columns@[column as int].header@.len(),
            forall|j: int|
                0 <= j < self.entries@.len() ==> r >= (#[trigger] self.entries@[j]).column_widths@[column as int],
            r == self.columns@[column as int].header@.len() || exists|j: int|
                0 <= j < self.entries@.len() && r == (#[trigger] self.entries@[j]).column_widths@[column as int],
    {
        let mut r = self.columns[column].header.as_str().unicode_len();
        let mut j: usize = 0;
        while j < self.entries.len()
            invariant
                0 <= j <= self.entries@.len(),
                column < self.columns@.len(),
                set_wf(self),
                r >= self.columns@[column as int].header@.len(),
                forall|k: int|
                    0 <= k < j ==> r >= (#[trigger] self.entries@[k]).column_widths@[column as int],
                r == self.columns@[column as int].header@.len() || exists|k: int|
                    0 <= k < self.entries@.len() && r == (#[trigger] self.entries@[k]).column_widths@[column as int],
            decreases self.entries@.len() - j,
        {
            let w = self.entries[j].column_widths[column];
            if w > r {
                r = w;
            }
            j = j + 1;
        }
        r
    }

    /// Splice a freshly created record in directly below the given row,
    /// regardless of sort position; the next full regeneration re-sorts it.
    pub fn add_item(&mut self, after_index: usize, item: &Item)
        requires
            set_wf(old(self)),
            after_index < old(self).entries@.len(),
            item.object_id is Some,
            !ids_of(old(self).entries@).contains(item.object_id->Some_0),
        ensures
            set_wf(final(self)),
            final(self).columns == old(self).columns,
            final(self).checkpoint == old(self).checkpoint,
            final(self).search == old(self).search,
            final(self).entries@.len() == old(self).entries@.len() + 1,
            forall|j: int|
                0 <= j <= after_index ==> final(self).entries@[j] == old(self).entries@[j],
            forall|j: int|
                after_index + 2 <= j < final(self).entries@.len() ==> final(self).entries@[j]
                    == old(self).entries@[j - 1],
            entry_wf(final(self).entries@[after_index + 1], final(self).columns@),
            final(self).entries@[after_index + 1].id == item.object_id->Some_0,
            final(self).entries@[after_index + 1].item@ == item@,
    {
        let e = render_entry(&self.columns, item);
        let ghost before = self.entries@;
        let n = self.entries.len();
        assert(after_index < n);
        self.entries.insert(after_index + 1, e);
        proof {
            let a = after_index as int;
            assert(self.entries@ =~= before.take(a + 1) + seq![e] + before.skip(a + 1));
            assert forall|j: int, k: int|
                0 <= j < k < ids_of(self.entries@).len() implies ids_of(self.entries@)[j]
                    != ids_of(self.entries@)[k] by {
                let n = ids_of(self.entries@).len();
                let jj = if j <= a {
                    j
                } else {
                    j - 1
                };
                let kk = if k <= a {
                    k
                } else {
                    k - 1
                };
                if j == a + 1 {
                    assert(ids_of(self.entries@)[k] == before[k - 1].id);
                    assert(ids_of(before)[k - 1] == before[k - 1].id);
                    assert(ids_of(before).contains(before[k - 1].id));
                } else if k == a + 1 {
                    assert(ids_of(self.entries@)[j] == before[j].id);
                    assert(ids_of(before)[j] == before[j].id);
                    assert(ids_of(before).contains(before[j].id));
                } else {
                    assert(ids_of(self.entries@)[j] == before[jj].id);
                    assert(ids_of(self.entries@)[k] == before[kk].id);
                    assert(ids_of(before)[jj] == before[jj].id);
                    assert(ids_of(before)[kk] == before[kk].id);
                }
            }
        }
    }

    /// Type a character into a cell: apply the column's editor to the
    /// record, re-render that one row, and return its record id and the
    /// new cursor position.
    pub fn edit_insert_char(&mut self, row: usize, cell: usize, i: usize, c: char) -> (r: (
        i64,
        usize,
    ))
        requires
            set_wf(old(self)),
            row < old(self).entries@.len(),
            cell < old(self).columns@.len(),
            i < usize::MAX,
        ensures
            set_wf(final(self)),
            final(self).columns == old(self).columns,
            final(self).checkpoint == old(self).checkpoint,
            final(self).search == old(self).search,
            final(self).entries@.len() == old(self).entries@.len(),
            forall|j: int|
                0 <= j < final(self).entries@.len() && j != row ==> final(self).entries@[j] == old(
                    self,
                ).entries@[j],
            final(self).entries@[row as int].id == old(self).entries@[row as int].id,
            final(self).entries@[row as int].item@ == spec_insert_edit(
                old(self).columns@[cell as int].content,
                old(self).entries@[row as int].item@,
                i as int,
                c,
            ),
            r.0 == old(self).entries@[row as int].id,
            r.1 == spec_insert_cursor(
                old(self).columns@[cell as int].content,
                old(self).entries@[row as int].item@,
                i as int,
                c,
            ),
    {
        let content = self.columns[cell].content;
        let (new_item, cursor) = apply_insert_edit(content, &self.entries[row].item, i, c);
        let id = self.entries[row].id;
        let e = render_entry(&self.columns, &new_item);
        let ghost before = self.entries@;
        let removed = self.entries.remove(row);
        self.entries.insert(row, e);
        proof {
            assert(self.entries@ =~= before.update(row as int, e));
            assert(ids_of(self.entries@) =~= ids_of(before));
        }
        (id, cursor)
    }

    /// Delete the character at a cell's cursor: apply the column's editor
    /// to the record and re-render that one row, returning the record id.
    pub fn edit_delete_char(&mut self, row: usize, cell: usize, i: usize) -> (r: i64)
        requires
            set_wf(old(self)),
            row < old(self).entries@.len(),
            cell < old(self).columns@.len(),
        ensures
            set_wf(final(self)),
            final(self).columns == old(self).columns,
            final(self).checkpoint == old(self).checkpoint,
            final(self).search == old(self).search,
            final(self).entries@.len() == old(self).entries@.len(),
            forall|j: int|
                0 <= j < final(self).entries@.len() && j != row ==> final(self).entries@[j] == old(
                    self,
                ).entries@[j],
            final(self).entries@[row as int].id == old(self).entries@[row as int].id,
            final(self).entries@[row as int].item@ == spec_delete_edit(
                old(self).columns@[cell as int].content,
                old(self).entries@[row as int].item@,
                i as int,
            ),
            r == old(self).entries@[row as int].id,
    {
        let content = self.columns[cell].content;
        let new_item = apply_delete_edit(content, &self.entries[row].item, i);
        let id = self.entries[row].id;
        let e = render_entry(&self.columns, &new_item);
        let ghost before = self.entries@;
        let removed = self.entries.remove(row);
        self.entries.insert(row, e);
        proof {
            assert(self.entries@ =~= before.update(row as int, e));
            assert(ids_of(self.entries@) =~= ids_of(before));
        }
        id
    }
}


/// Two duplicate-free id lists with the same members carry the same
/// multiset.
proof fn lemma_same_members_multiset(a: Seq<i64>, b: Seq<i64>)
    requires
        a.no_duplicates(),
        b.no_duplicates(),
        forall|id: i64| a.contains(id) <==> b.contains(id),
    ensures
        a.to_multiset() == b.to_multiset(),
{
    a.lemma_multiset_has_no_duplicates();
    b.lemma_multiset_has_no_duplicates();
    a.to_multiset_ensures();
    b.to_multiset_ensures();
    assert forall|id: i64| a.to_multiset().count(id) == b.to_multiset().count(id) by {
        if a.contains(id) {
            assert(a.to_multiset().contains(id));
            assert(b.to_multiset().contains(id));
            assert(a.to_multiset().count(id) >= 1 && a.to_multiset().count(id) <= 1);
            assert(b.to_multiset().count(id) >= 1 && b.to_multiset().count(id) <= 1);
        } else {
            assert(!b.contains(id));
            assert(a.to_multiset().count(id) == 0) by {
                if a.to_multiset().count(id) > 0 {
                    assert(a.to_multiset().contains(id));
                }
            }
            assert(b.to_multiset().count(id) == 0) by {
                if b.to_multiset().count(id) > 0 {
                    assert(b.to_multiset().contains(id));
                }
            }
        }
    }
    assert(a.to_multiset() =~= b.to_multiset());
}

/// Filtering keeps a sorted row list sorted.
proof fn lemma_filter_keeps_sorted(m: SortMode, s: Seq<RenderEntry>, p: spec_fn(RenderEntry) -> bool)
    requires
        sorted_by(m, s),
    ensures
        sorted_by(m, s.filter(p)),
    decreases s.len(),
{
    reveal(Seq::filter);
    if s.len() > 0 {
        assert(forall|j: int, k: int|
            0 <= j < k < s.len() - 1 ==> mode_le(m, #[trigger] s.drop_last()[j], #[trigger] s.drop_last()[k]));
        lemma_filter_keeps_sorted(m, s.drop_last(), p);
        if p(s.last()) {
            let out = s.filter(p);
            let sub = s.drop_last().filter(p);
            assert(out == sub.push(s.last()));
            assert forall|j: int, k: int|
                0 <= j < k < out.len() implies mode_le(m, #[trigger] out[j], #[trigger] out[k]) by {
                if k == out.len() - 1 {
                    assert(out[j] == sub[j]);
                    assert(sub.contains(sub[j]));
                    lemma_filter_contains_orig(s.drop_last(), p, sub[j]);
                    let w = choose|w: int|
                        0 <= w < s.drop_last().len() && s.drop_last()[w] == sub[j];
                    assert(mode_le(m, s[w], s[s.len() - 1]));
                } else {
                    assert(out[j] == sub[j] && out[k] == sub[k]);
                }
            }
        }
    }
}

/// Rows at equal scores stand in canonical record order.
pub open spec fn score_ties_canonical(entries: Seq<RenderEntry>) -> bool {
    forall|j: int, k: int|
        0 <= j < k < entries.len() && (#[trigger] entries[j]).score == (
        #[trigger] entries[k]).score ==> item_key_le(&entries[j].item, &entries[k].item)
}

/// Stable insertion by descending score keeps equal-score rows in
/// canonical order, provided the inserted row follows its score-peers.
proof fn lemma_scoredesc_insert_ties(e: RenderEntry, t: Seq<RenderEntry>)
    requires
        sorted_by(SortMode::ScoreDesc, t),
        score_ties_canonical(t),
        forall|j: int|
            0 <= j < t.len() && (#[trigger] t[j]).score == e.score ==> item_key_le(
                &t[j].item,
                &e.item,
            ),
    ensures
        score_ties_canonical(spec_insert_sorted(SortMode::ScoreDesc, e, t)),
    decreases t.len(),
{
    let out = spec_insert_sorted(SortMode::ScoreDesc, e, t);
    if t.len() == 0 {
        assert(out =~= seq![e]);
    } else if mode_le(SortMode::ScoreDesc, t[0], e) {
        assert(forall|j: int, k: int|
            0 <= j < k < t.skip(1).len() ==> mode_le(
                SortMode::ScoreDesc,
                #[trigger] t.skip(1)[j],
                #[trigger] t.skip(1)[k],
            ));
        assert(forall|j: int, k: int|
            0 <= j < k < t.skip(1).len() && (#[trigger] t.skip(1)[j]).score == (
            #[trigger] t.skip(1)[k]).score ==> item_key_le(&t.skip(1)[j].item, &t.skip(1)[k].item));
        assert(forall|j: int|
            0 <= j < t.skip(1).len() && (#[trigger] t.skip(1)[j]).score == e.score
                ==> item_key_le(&t.skip(1)[j].item, &e.item));
        lemma_scoredesc_insert_ties(e, t.skip(1));
        let sub = spec_insert_sorted(SortMode::ScoreDesc, e, t.skip(1));
        assert(out =~= seq![t[0]] + sub);
        lemma_insert_sorted_props(SortMode::ScoreDesc, e, t.skip(1));
        assert forall|j: int, k: int|
            0 <= j < k < out.len() && (#[trigger] out[j]).score == (#[trigger] out[k]).score
                implies item_key_le(&out[j].item, &out[k].item) by {
            if j == 0 {
                let x = out[k];
                assert(sub[k - 1] == x);
                assert(sub.to_multiset().contains(x)) by {
                    sub.to_multiset_ensures();
                    assert(sub.contains(x));
                }
                assert(t.skip(1).push(e).to_multiset().contains(x));
                t.skip(1).push(e).to_multiset_ensures();
                let w = choose|w: int|
                    0 <= w < t.skip(1).push(e).len() && t.skip(1).push(e)[w] == x;
                if w < t.skip(1).len() {
                    assert(t[w + 1] == x);
                    assert(score_ties_canonical(t));
                    assert(item_key_le(&t[0].item, &t[w + 1].item));
                } else {
                    assert(x == e);
                }
            } else {
                assert(out[j] == sub[j - 1] && out[k] == sub[k - 1]);
            }
        }
    } else {
        assert(out =~= seq![e] + t);
        assert(t[0].score < e.score);
        assert forall|j: int, k: int|
            0 <= j < k < out.len() && (#[trigger] out[j]).score == (#[trigger] out[k]).score
                implies item_key_le(&out[j].item, &out[k].item) by {
            if j == 0 {
                // Every row of `t` scores at most the head, strictly below `e`.
                assert(out[k] == t[k - 1]);
                if k - 1 > 0 {
                    assert(mode_le(SortMode::ScoreDesc, t[0], t[k - 1]));
                }
                assert(false);
            } else {
                assert(out[j] == t[j - 1] && out[k] == t[k - 1]);
            }
        }
    }
}

/// The stable descending-score sort of canonically ordered rows keeps
/// equal-score rows in canonical order.
proof fn lemma_sort_scoredesc_ties(s: Seq<RenderEntry>)
    requires
        sorted_by(SortMode::Canonical, s),
    ensures
        score_ties_canonical(spec_sort(SortMode::ScoreDesc, s)),
    decreases s.len(),
{
    if s.len() == 0 {
    } else {
        let dl = s.drop_last();
        assert(forall|j: int, k: int|
            0 <= j < k < dl.len() ==> mode_le(SortMode::Canonical, #[trigger] dl[j], #[trigger] dl[k]));
        lemma_sort_scoredesc_ties(dl);
        lemma_sort_props(SortMode::ScoreDesc, dl);
        let t = spec_sort(SortMode::ScoreDesc, dl);
        assert forall|j: int|
            0 <= j < t.len() && (#[trigger] t[j]).score == s.last().score implies item_key_le(
            &t[j].item,
            &s.last().item,
        ) by {
            t.to_multiset_ensures();
            dl.to_multiset_ensures();
            assert(t.contains(t[j]));
            assert(t.to_multiset().contains(t[j]));
            assert(dl.contains(t[j]));
            let w = choose|w: int| 0 <= w < dl.len() && dl[w] == t[j];
            assert(mode_le(SortMode::Canonical, s[w], s[s.len() - 1]));
        }
        lemma_scoredesc_insert_ties(s.last(), t);
    }
}


/// Whether the fetched records carry the same content their visible rows
/// already show, record by record.
pub open spec fn views_preserved(prev: Seq<RenderEntry>, items: Seq<Item>) -> bool {
    forall|j: int, i: int|
        0 <= j < prev.len() && 0 <= i < items.len() && (#[trigger] items[i]).object_id == Some(
            (#[trigger] prev[j]).id,
        ) ==> items[i]@ == prev[j].item@
}

/// Every row the walk keeps comes from one of the two pools.
proof fn lemma_walk_pool_membership(
    old_ids: Seq<i64>,
    kept: Seq<RenderEntry>,
    unused: Seq<RenderEntry>,
    same: bool,
)
    ensures
        forall|x: int|
            0 <= x < spec_walk(old_ids, kept, unused, same).0.len() ==> kept.contains(
                #[trigger] spec_walk(old_ids, kept, unused, same).0[x],
            ) || unused.contains(spec_walk(old_ids, kept, unused, same).0[x]),
    decreases old_ids.len(),
{
    if old_ids.len() == 0 {
    } else {
        let id = old_ids[0];
        let fk = find_id(kept, id);
        let fu = find_id(unused, id);
        lemma_find_id(kept, id);
        lemma_find_id(unused, id);
        let w = spec_walk(old_ids, kept, unused, same);
        if fk >= 0 {
            let kept2 = kept.remove(fk);
            lemma_walk_pool_membership(old_ids.skip(1), kept2, unused, same);
            let rec = spec_walk(old_ids.skip(1), kept2, unused, same);
            assert forall|x: int|
                0 <= x < w.0.len() implies kept.contains(#[trigger] w.0[x]) || unused.contains(
                w.0[x],
            ) by {
                if x == 0 {
                    assert(w.0[0] == kept[fk]);
                    assert(kept.contains(kept[fk]));
                } else {
                    assert(w.0[x] == rec.0[x - 1]);
                    if kept2.contains(rec.0[x - 1]) {
                        let u = choose|u: int|
                            0 <= u < kept2.len() && kept2[u] == rec.0[x - 1];
                        let u2 = if u < fk {
                            u
                        } else {
                            u + 1
                        };
                        assert(kept[u2] == rec.0[x - 1]);
                    }
                }
            }
        } else if same && fu >= 0 {
            let unused2 = unused.remove(fu);
            lemma_walk_pool_membership(old_ids.skip(1), kept, unused2, same);
            let rec = spec_walk(old_ids.skip(1), kept, unused2, same);
            assert forall|x: int|
                0 <= x < w.0.len() implies kept.contains(#[trigger] w.0[x]) || unused.contains(
                w.0[x],
            ) by {
                if x == 0 {
                    assert(w.0[0] == unused[fu]);
                    assert(unused.contains(unused[fu]));
                } else {
                    assert(w.0[x] == rec.0[x - 1]);
                    if unused2.contains(rec.0[x - 1]) {
                        let u = choose|u: int|
                            0 <= u < unused2.len() && unused2[u] == rec.0[x - 1];
                        let u2 = if u < fu {
                            u
                        } else {
                            u + 1
                        };
                        assert(unused[u2] == rec.0[x - 1]);
                    }
                }
            }
        } else {
            lemma_walk_pool_membership(old_ids.skip(1), kept, unused, same);
            let rec = spec_walk(old_ids.skip(1), kept, unused, same);
            assert forall|x: int|
                0 <= x < w.0.len() implies kept.contains(#[trigger] w.0[x]) || unused.contains(
                w.0[x],
            ) by {
                assert(w.0[x] == rec.0[x]);
            }
        }
    }
}

/// The walk keeps rows in their previous order, so when every pooled row
/// still carries the content its previous row showed, a previously sorted
/// order walks out sorted.
proof fn lemma_walk_sorted(
    prev: Seq<RenderEntry>,
    kept: Seq<RenderEntry>,
    unused: Seq<RenderEntry>,
    same: bool,
)
    requires
        ids_of(prev).no_duplicates(),
        sorted_by(SortMode::Canonical, prev),
        forall|e: RenderEntry, j: int|
            (kept.contains(e) || unused.contains(e)) && 0 <= j < prev.len() && (
            #[trigger] prev[j]).id == (#[trigger] e.id) ==> e.item@ == prev[j].item@,
    ensures
        sorted_by(SortMode::Canonical, spec_walk(ids_of(prev), kept, unused, same).0),
    decreases prev.len(),
{
    let old_ids = ids_of(prev);
    if prev.len() == 0 {
    } else {
        let id = old_ids[0];
        let fk = find_id(kept, id);
        let fu = find_id(unused, id);
        lemma_find_id(kept, id);
        lemma_find_id(unused, id);
        let w = spec_walk(old_ids, kept, unused, same);
        let tail = prev.skip(1);
        assert(ids_of(tail) =~= old_ids.skip(1));
        assert(forall|j: int, k: int|
            0 <= j < k < ids_of(tail).len() ==> ids_of(tail)[j] != ids_of(tail)[k]) by {
            assert(forall|j: int|
                0 <= j < ids_of(tail).len() ==> ids_of(tail)[j] == old_ids[j + 1]);
        }
        assert(forall|j: int, k: int|
            0 <= j < k < tail.len() ==> mode_le(SortMode::Canonical, #[trigger] tail[j], #[trigger] tail[k]));
        if fk >= 0 || (same && fu >= 0) {
            let e0 = if fk >= 0 {
                kept[fk]
            } else {
                unused[fu]
            };
            let kept2 = if fk >= 0 {
                kept.remove(fk)
            } else {
                kept
            };
            let unused2 = if fk >= 0 {
                unused
            } else {
                unused.remove(fu)
            };
            // Reduced pools stay pools; the view premise carries down.
            assert forall|e: RenderEntry, j: int|
                (kept2.contains(e) || unused2.contains(e)) && 0 <= j < tail.len() && (
                #[trigger] tail[j]).id == (#[trigger] e.id) implies e.item@ == tail[j].item@ by {
                if kept2.contains(e) {
                    let u = choose|u: int| 0 <= u < kept2.len() && kept2[u] == e;
                    if fk >= 0 {
                        let u2 = if u < fk {
                            u
                        } else {
                            u + 1
                        };
                        assert(kept[u2] == e);
                    }
                    assert(kept.contains(e));
                } else {
                    let u = choose|u: int| 0 <= u < unused2.len() && unused2[u] == e;
                    if !(fk >= 0) {
                        let u2 = if u < fu {
                            u
                        } else {
                            u + 1
                        };
                        assert(unused[u2] == e);
                    }
                    assert(unused.contains(e));
                }
                assert(tail[j] == prev[j + 1]);
            }
            lemma_walk_sorted(tail, kept2, unused2, same);
            lemma_walk_pool_membership(ids_of(tail), kept2, unused2, same);
            lemma_walk_ids(ids_of(tail), kept2, unused2, same);
            let rec = spec_walk(ids_of(tail), kept2, unused2, same);
            assert(w.0 =~= seq![e0] + rec.0);
            assert(e0.id == id);
            assert(kept.contains(e0) || unused.contains(e0)) by {
                if fk >= 0 {
                    assert(kept[fk] == e0);
                } else {
                    assert(unused[fu] == e0);
                }
            }
            assert(e0.item@ == prev[0].item@) by {
                assert(prev[0].id == e0.id);
            }
            assert forall|x: int, y: int|
                0 <= x < y < w.0.len() implies mode_le(
                SortMode::Canonical,
                #[trigger] w.0[x],
                #[trigger] w.0[y],
            ) by {
                if x == 0 {
                    let ey = rec.0[y - 1];
                    assert(w.0[y] == ey);
                    // The later row's id sits past the head in the old order.
                    assert(ids_of(rec.0) == ids_of(tail).filter(
                        spec_survives(kept2, unused2, same),
                    ));
                    assert(ids_of(rec.0)[y - 1] == ey.id);
                    assert(ids_of(tail).filter(spec_survives(kept2, unused2, same)).contains(
                        ey.id,
                    ));
                    lemma_filter_contains_orig(
                        ids_of(tail),
                        spec_survives(kept2, unused2, same),
                        ey.id,
                    );
                    let p = choose|p: int|
                        0 <= p < ids_of(tail).len() && ids_of(tail)[p] == ey.id;
                    assert(tail[p].id == ey.id);
                    assert(kept2.contains(ey) || unused2.contains(ey));
                    assert(ey.item@ == tail[p].item@);
                    assert(mode_le(SortMode::Canonical, prev[0], prev[p + 1]));
                    assert(tail[p] == prev[p + 1]);
                } else {
                    assert(w.0[x] == rec.0[x - 1] && w.0[y] == rec.0[y - 1]);
                }
            }
        } else {
            lemma_walk_sorted(tail, kept, unused, same);
            assert(spec_walk(old_ids, kept, unused, same).0 == spec_walk(
                ids_of(tail),
                kept,
                unused,
                same,
            ).0);
        }
    }
}


/// The first position of `id` in an id list, or -1.
pub open spec fn find_id_in(ids: Seq<i64>, id: i64) -> int
    decreases ids.len(),
{
    if ids.len() == 0 {
        -1
    } else if ids[0] == id {
        0
    } else {
        let r = find_id_in(ids.skip(1), id);
        if r < 0 {
            -1
        } else {
            r + 1
        }
    }
}

proof fn lemma_find_id_in_distinct(ids: Seq<i64>, j: int)
    requires
        ids.no_duplicates(),
        0 <= j < ids.len(),
    ensures
        find_id_in(ids, ids[j]) == j,
    decreases ids.len(),
{
    if j == 0 {
    } else {
        assert(ids[0] != ids[j]);
        assert(forall|a: int, b: int|
            0 <= a < b < ids.skip(1).len() ==> ids.skip(1)[a] != ids.skip(1)[b]) by {
            assert(forall|a: int| 0 <= a < ids.skip(1).len() ==> ids.skip(1)[a] == ids[a + 1]);
        }
        lemma_find_id_in_distinct(ids.skip(1), j - 1);
        assert(ids.skip(1)[j - 1] == ids[j]);
    }
}

/// Two rows whose records tie on the canonical key.
pub open spec fn canonical_tie(a: RenderEntry, b: RenderEntry) -> bool {
    item_key_le(&a.item, &b.item) && item_key_le(&b.item, &a.item)
}

/// A row's rank in the fetched record order.
pub open spec fn fetch_rank(items: Seq<Item>) -> spec_fn(RenderEntry) -> int {
    |e: RenderEntry| find_id_in(item_ids_of(items), e.id)
}

/// Canonical ties in a row list keep their fetch ranks in order.
pub open spec fn ties_fetch_ordered(entries: Seq<RenderEntry>, rank: spec_fn(RenderEntry) -> int) -> bool {
    forall|j: int, k: int|
        0 <= j < k < entries.len() && canonical_tie(#[trigger] entries[j], #[trigger] entries[k])
            ==> rank(entries[j]) < rank(entries[k])
}

/// Stable insertion keeps canonical ties in rank order, provided the
/// inserted row outranks its key-peers.
proof fn lemma_canonical_insert_stable(
    e: RenderEntry,
    t: Seq<RenderEntry>,
    rank: spec_fn(RenderEntry) -> int,
)
    requires
        sorted_by(SortMode::Canonical, t),
        ties_fetch_ordered(t, rank),
        forall|j: int| 0 <= j < t.len() ==> rank(#[trigger] t[j]) < rank(e),
    ensures
        ties_fetch_ordered(spec_insert_sorted(SortMode::Canonical, e, t), rank),
    decreases t.len(),
{
    let out = spec_insert_sorted(SortMode::Canonical, e, t);
    if t.len() == 0 {
        assert(out =~= seq![e]);
    } else if mode_le(SortMode::Canonical, t[0], e) {
        assert(forall|j: int, k: int|
            0 <= j < k < t.skip(1).len() ==> mode_le(
                SortMode::Canonical,
                #[trigger] t.skip(1)[j],
                #[trigger] t.skip(1)[k],
            ));
        assert(forall|j: int, k: int|
            0 <= j < k < t.skip(1).len() && canonical_tie(
                #[trigger] t.skip(1)[j],
                #[trigger] t.skip(1)[k],
            ) ==> rank(t.skip(1)[j]) < rank(t.skip(1)[k]));
        assert(forall|j: int| 0 <= j < t.skip(1).len() ==> rank(#[trigger] t.skip(1)[j]) < rank(e));
        lemma_canonical_insert_stable(e, t.skip(1), rank);
        let sub = spec_insert_sorted(SortMode::Canonical, e, t.skip(1));
        assert(out =~= seq![t[0]] + sub);
        lemma_insert_sorted_props(SortMode::Canonical, e, t.skip(1));
        assert forall|j: int, k: int|
            0 <= j < k < out.len() && canonical_tie(#[trigger] out[j], #[trigger] out[k])
                implies rank(out[j]) < rank(out[k]) by {
            if j == 0 {
                let x = out[k];
                assert(sub[k - 1] == x);
                assert(sub.to_multiset().contains(x)) by {
                    sub.to_multiset_ensures();
                    assert(sub.contains(x));
                }
                assert(t.skip(1).push(e).to_multiset().contains(x));
                t.skip(1).push(e).to_multiset_ensures();
                let w = choose|w: int|
                    0 <= w < t.skip(1).push(e).len() && t.skip(1).push(e)[w] == x;
                if w < t.skip(1).len() {
                    assert(t[w + 1] == x);
                    assert(canonical_tie(t[0], t[w + 1]));
                } else {
                    assert(x == e);
                }
            } else {
                assert(out[j] == sub[j - 1] && out[k] == sub[k - 1]);
            }
        }
    } else {
        assert(out =~= seq![e] + t);
        crate::types::lemma_item_le_total(&t[0].item, &e.item);
        assert forall|j: int, k: int|
            0 <= j < k < out.len() && canonical_tie(#[trigger] out[j], #[trigger] out[k])
                implies rank(out[j]) < rank(out[k]) by {
            if j == 0 {
                // No row after `e` ties with it: the head is already
                // strictly after `e`, and the rest only later still.
                assert(out[k] == t[k - 1]);
                if k - 1 > 0 {
                    assert(mode_le(SortMode::Canonical, t[0], t[k - 1]));
                    crate::types::lemma_item_le_trans(&t[0].item, &t[k - 1].item, &e.item);
                }
                assert(false);
            } else {
                assert(out[j] == t[j - 1] && out[k] == t[k - 1]);
            }
        }
    }
}

/// The canonical sort is stable: rows ranked by their position in the
/// input keep ties in input order.
proof fn lemma_sort_canonical_stable(s: Seq<RenderEntry>, rank: spec_fn(RenderEntry) -> int)
    requires
        forall|j: int| 0 <= j < s.len() ==> rank(#[trigger] s[j]) == j,
    ensures
        ties_fetch_ordered(spec_sort(SortMode::Canonical, s), rank),
    decreases s.len(),
{
    if s.len() == 0 {
    } else {
        let dl = s.drop_last();
        assert(forall|j: int| 0 <= j < dl.len() ==> rank(#[trigger] dl[j]) == j);
        lemma_sort_canonical_stable(dl, rank);
        lemma_sort_props(SortMode::Canonical, dl);
        let t = spec_sort(SortMode::Canonical, dl);
        assert forall|j: int| 0 <= j < t.len() implies rank(#[trigger] t[j]) < rank(s.last()) by {
            t.to_multiset_ensures();
            dl.to_multiset_ensures();
            assert(t.contains(t[j]));
            assert(t.to_multiset().contains(t[j]));
            assert(dl.contains(t[j]));
            let w = choose|w: int| 0 <= w < dl.len() && dl[w] == t[j];
            assert(rank(dl[w]) == w);
        }
        lemma_canonical_insert_stable(s.last(), t, rank);
    }
}

} // verus!
