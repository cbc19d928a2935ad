use vstd::prelude::*;

use crate::scan::result_view;
use crate::scan::ScanResult;
use crate::text::decimal;
use crate::text::decimal_text;
use crate::text::pad_right;
use crate::text::push_padded;
use crate::tree::fit_u64;
use crate::tree::Overflow;

verus! {

/// The text that `humansize::format_size` gives for a number of bytes with
/// the `BINARY` options (powers of 1024, units `B`, `KiB`, `MiB`, ...).
pub uninterp spec fn binary_size_text(bytes: u64) -> Seq<char>;

/// Calls `humansize::format_size(bytes, humansize::BINARY)`. Trusted: the
/// result is the named text for `bytes`; below 1024 bytes the value is not
/// scaled and has no fractional part, so the crate's source writes the
/// number with no decimals, a space and `B`.
#[verifier::external_body]
pub(crate) fn format_binary(bytes: u64) -> (s: String)
    ensures
        s@ == binary_size_text(bytes),
        bytes < 1024 ==> s@ == decimal(bytes as nat) + " B"@,
{
    humansize::format_size(bytes, humansize::BINARY)
}

/// How a size is highlighted in the scan table.
#[derive(PartialEq, Eq, Structural, Clone, Copy, Debug)]
pub enum SizeTier {
    /// More than 500,000,000 bytes.
    Large,
    /// More than 100,000,000 bytes, up to 500,000,000.
    Medium,
    /// Up to 100,000,000 bytes.
    Small,
}

/// The highlight of a size.
pub open spec fn tier_of(size: u64) -> SizeTier {
    if size > 500_000_000 {
        SizeTier::Large
    } else if size > 100_000_000 {
        SizeTier::Medium
    } else {
        SizeTier::Small
    }
}

/// The highlight of a size in the scan table.
pub fn size_tier(size: u64) -> (t: SizeTier)
    ensures
        t == tier_of(size),
{
    if size > 500_000_000 {
        SizeTier::Large
    } else if size > 100_000_000 {
        SizeTier::Medium
    } else {
        SizeTier::Small
    }
}

/// One row of the scan table.
pub struct TableRow {
    pub name: String,
    pub size_text: String,
    pub tier: SizeTier,
    pub description: String,
}

/// The row shown for a scan result whose size reads `size_text`.
pub fn table_row(result: &ScanResult, size_text: String) -> (row: TableRow)
    ensures
        row.name@ == result.name@,
        row.size_text@ == size_text@,
        row.tier == tier_of(result.size),
        row.description@ == result.description@,
{
    TableRow {
        name: result.name.clone(),
        size_text,
        tier: size_tier(result.size),
        description: result.description.clone(),
    }
}

/// The sum of the sizes of the results.
pub open spec fn sizes_sum(v: Seq<ScanResult>) -> nat
    decreases v.len(),
{
    if v.len() == 0 {
        0
    } else {
        sizes_sum(v.drop_last()) + v.last().size as nat
    }
}

proof fn lemma_sizes_sum_prefix(v: Seq<ScanResult>, k: int)
    requires
        0 <= k <= v.len(),
    ensures
        sizes_sum(v.take(k)) <= sizes_sum(v),
    decreases v.len() - k,
{
    if k < v.len() {
        lemma_sizes_sum_prefix(v, k + 1);
        assert(v.take(k + 1).drop_last() =~= v.take(k));
    } else {
        assert(v.take(k) =~= v);
    }
}

/// The total size of the results; `None` when it overflows a `u64`.
pub fn total_size(results: &Vec<ScanResult>) -> (r: Option<u64>)
    ensures
        r == fit_u64(sizes_sum(results@)),
{
    let mut total: u64 = 0;
    let mut i: usize = 0;
    while i < results.len()
        invariant
            i <= results.len(),
            total == sizes_sum(results@.take(i as int)),
        decreases results.len() - i,
    {
        proof {
            assert(results@.take(i + 1).drop_last() =~= results@.take(i as int));
            lemma_sizes_sum_prefix(results@, i + 1);
        }
        match total.checked_add(results[i].size) {
            Some(t) => total = t,
            None => return None,
        }
        i = i + 1;
    }
    proof {
        assert(results@.take(i as int) =~= results@);
    }
    Some(total)
}

/// The scan table: a row per result and the total size.
pub struct ScanTable {
    pub rows: Vec<TableRow>,
    pub total: u64,
    pub total_text: String,
}

/// Builds the scan table: one row per result, in order, with its size text
/// and highlight, and the total of all sizes. `Err` when the total overflows
/// a `u64`.
pub fn scan_table(results: &Vec<ScanResult>) -> (r: Result<ScanTable, Overflow>)
    ensures
        r is Err <==> sizes_sum(results@) > u64::MAX,
        r matches Ok(t) ==> {
            &&& t.total == sizes_sum(results@)
            &&& t.total_text@ == binary_size_text(t.total)
            &&& t.rows.len() == results.len()
            &&& forall|i: int|
                0 <= i < results.len() ==> {
                    &&& (#[trigger] t.rows@[i]).name@ == results@[i].name@
                    &&& t.rows@[i].size_text@ == binary_size_text(results@[i].size)
                    &&& t.rows@[i].tier == tier_of(results@[i].size)
                    &&& t.rows@[i].description@ == results@[i].description@
                }
        },
{
    let total = match total_size(results) {
        Some(t) => t,
        None => return Err(Overflow),
    };
    let mut rows: Vec<TableRow> = Vec::new();
    let mut i: usize = 0;
    while i < results.len()
        invariant
            i <= results.len(),
            rows.len() == i,
            forall|k: int|
                0 <= k < i ==> {
                    &&& (#[trigger] rows@[k]).name@ == results@[k].name@
                    &&& rows@[k].size_text@ == binary_size_text(results@[k].size)
                    &&& rows@[k].tier == tier_of(results@[k].size)
                    &&& rows@[k].description@ == results@[k].description@
                },
        decreases results.len() - i,
    {
        let text = format_binary(results[i].size);
        rows.push(table_row(&results[i], text));
        i = i + 1;
    }
    Ok(ScanTable { rows, total, total_text: format_binary(total) })
}

/// Width, in characters, to which a category name is padded in a label.
pub const LABEL_WIDTH: usize = 35;

/// The selection label for a category name and a size text:
/// the name padded to 35 characters, then the size in parentheses.
pub open spec fn label_view(name: Seq<char>, size_text: Seq<char>) -> Seq<char> {
    pad_right(name, LABEL_WIDTH as nat) + " ("@ + size_text + ")"@
}

/// The selection label for a category name whose size reads `size_text`.
pub fn label_with(name: &str, size_text: &str) -> (s: String)
    ensures
        s@ == label_view(name@, size_text@),
{
    let mut s = String::new();
    push_padded(&mut s, name, LABEL_WIDTH);
    s.append(" (");
    s.append(size_text);
    s.append(")");
    proof {
        assert(s@ =~= label_view(name@, size_text@));
    }
    s
}

/// The selection labels of the results, in order.
pub fn selection_labels(results: &Vec<ScanResult>) -> (labels: Vec<String>)
    ensures
        labels.len() == results.len(),
        forall|i: int|
            0 <= i < results.len() ==> (#[trigger] labels@[i])@ == label_view(
                results@[i].name@,
                binary_size_text(results@[i].size),
            ),
{
    let mut labels: Vec<String> = Vec::new();
    let mut i: usize = 0;
    while i < results.len()
        invariant
            i <= results.len(),
            labels.len() == i,
            forall|k: int|
                0 <= k < i ==> (#[trigger] labels@[k])@ == label_view(
                    results@[k].name@,
                    binary_size_text(results@[k].size),
                ),
        decreases results.len() - i,
    {
        let text = format_binary(results[i].size);
        labels.push(label_with(results[i].name.as_str(), text.as_str()));
        i = i + 1;
    }
    labels
}

/// Copies of the results at the chosen indices, in the order chosen;
/// `None` when an index is out of range.
pub fn pick_results(results: &Vec<ScanResult>, chosen: &Vec<usize>) -> (r: Option<Vec<ScanResult>>)
    ensures
        r is Some <==> forall|i: int| 0 <= i < chosen.len() ==> #[trigger] chosen@[i] < results.len(),
        r matches Some(v) ==> {
            &&& v.len() == chosen.len()
            &&& forall|i: int|
                0 <= i < chosen.len() ==> result_view(#[trigger] v@[i]) == result_view(
                    results@[chosen@[i] as int],
                )
        },
{
    let mut v: Vec<ScanResult> = Vec::new();
    let mut i: usize = 0;
    while i < chosen.len()
        invariant
            i <= chosen.len(),
            v.len() == i,
            forall|k: int| 0 <= k < i ==> #[trigger] chosen@[k] < results.len(),
            forall|k: int|
                0 <= k < i ==> result_view(#[trigger] v@[k]) == result_view(
                    results@[chosen@[k] as int],
                ),
        decreases chosen.len() - i,
    {
        let j = chosen[i];
        if j >= results.len() {
            return None;
        }
        let r = &results[j];
        v.push(
            ScanResult {
                name: r.name.clone(),
                description: r.description.clone(),
                size: r.size,
                paths: crate::text::copy_strings(&r.paths),
            },
        );
        i = i + 1;
    }
    Some(v)
}

/// The summary of a selection: how many categories were chosen and the
/// size they hold, as shown before asking to confirm.
pub struct SelectionSummary {
    pub count_text: String,
    pub size_text: String,
}

/// Summarizes the chosen results: their number in decimal and the text of
/// their total size. `None` when the total overflows a `u64`.
pub fn selection_summary(selected: &Vec<ScanResult>) -> (r: Option<SelectionSummary>)
    ensures
        r is Some <==> sizes_sum(selected@) <= u64::MAX,
        r matches Some(s) ==> {
            &&& s.count_text@ == decimal(selected.len() as nat)
            &&& s.size_text@ == binary_size_text(sizes_sum(selected@) as u64)
        },
{
    match total_size(selected) {
        Some(total) => Some(
            SelectionSummary {
                count_text: decimal_text(selected.len() as u64),
                size_text: format_binary(total),
            },
        ),
        None => None,
    }
}


/// How urgent a highlight is: 2 for large, 1 for medium, 0 for small.
pub open spec fn tier_rank(t: SizeTier) -> int {
    match t {
        SizeTier::Large => 2,
        SizeTier::Medium => 1,
        SizeTier::Small => 0,
    }
}

/// A larger size is never highlighted as less urgent than a smaller one.
pub proof fn law_tier_monotone(a: u64, b: u64)
    requires
        a <= b,
    ensures
        tier_rank(tier_of(a)) <= tier_rank(tier_of(b)),
{
}

/// A selection label starts with the category name, and the size text in
/// parentheses starts at column 35 or right after a longer name.
pub proof fn law_label_layout(name: Seq<char>, size_text: Seq<char>)
    ensures
        label_view(name, size_text).take(name.len() as int) == name,
        ({
            let w: int = if name.len() >= LABEL_WIDTH { name.len() as int } else { LABEL_WIDTH as int };
            &&& label_view(name, size_text).len() == w + size_text.len() + 3
            &&& label_view(name, size_text).subrange(w, w + 2) == " ("@
            &&& label_view(name, size_text).subrange(w + 2, w + 2 + size_text.len()) == size_text
        }),
{
    reveal_strlit(" (");
    reveal_strlit(")");
    let w: int = if name.len() >= LABEL_WIDTH { name.len() as int } else { LABEL_WIDTH as int };
    let l = label_view(name, size_text);
    assert(pad_right(name, LABEL_WIDTH as nat).len() == w);
    assert(l.take(name.len() as int) =~= name);
    assert(l.subrange(w, w + 2) =~= " ("@);
    assert(l.subrange(w + 2, w + 2 + size_text.len()) =~= size_text);
}


/// Sizes above 500000000 bytes are large, those above 100000000 up to
/// 500000000 medium, the rest small.
pub proof fn law_tier_thresholds(size: u64)
    ensures
        (tier_of(size) == SizeTier::Large) == (size > 500000000),
        (tier_of(size) == SizeTier::Medium) == (100000000 < size && size <= 500000000),
        (tier_of(size) == SizeTier::Small) == (size <= 100000000),
{
}

/// A label is the name padded to 35 characters (or the longer name), then
/// `" ("`, the size text and `")"`.
pub proof fn law_label_width(name: Seq<char>, size_text: Seq<char>)
    ensures
        label_view(name, size_text).len() == (if name.len() >= 35 {
            name.len()
        } else {
            35
        }) + size_text.len() + 3,
        forall|i: int|
            name.len() <= i < 35 ==> #[trigger] label_view(name, size_text)[i] == ' ',
{
    reveal_strlit(" (");
    reveal_strlit(")");
    let l = label_view(name, size_text);
    assert forall|i: int| name.len() <= i < 35 implies #[trigger] l[i] == ' ' by {
        assert(pad_right(name, LABEL_WIDTH as nat)[i] == ' ');
    }
}

} // verus!
