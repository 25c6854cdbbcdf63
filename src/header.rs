use vstd::prelude::*;

verus! {

/// Number of fields that a CSV parser finds in the first record of `line`
/// under `delimiter`, honouring double-quote quoting; 0 when the line holds
/// no record or does not parse.
pub uninterp spec fn csv_field_count(delimiter: u8, line: Seq<u8>) -> usize;

/// The field count of each line, in order.
pub open spec fn scores(lines: Seq<Seq<u8>>, delimiter: u8) -> Seq<usize> {
    lines.map_values(|l: Seq<u8>| csv_field_count(delimiter, l))
}

/// The largest of `counts`, and 0 when there are none.
pub open spec fn max_count(counts: Seq<usize>) -> usize
    decreases counts.len(),
{
    if counts.len() == 0 {
        0
    } else if counts.last() > max_count(counts.drop_last()) {
        counts.last()
    } else {
        max_count(counts.drop_last())
    }
}

/// Index of the header among lines scored `counts`: the first entry that
/// beats every entry before it and is beaten by none after it, that is the
/// earliest entry holding the largest count; 0 when no count is positive.
pub open spec fn header_index(counts: Seq<usize>) -> int
    decreases counts.len(),
{
    if counts.len() == 0 {
        0
    } else if counts.last() > max_count(counts.drop_last()) {
        counts.len() - 1
    } else {
        header_index(counts.drop_last())
    }
}

proof fn lemma_max_count_facts(counts: Seq<usize>)
    ensures
        forall|j: int| 0 <= j < counts.len() ==> counts[j] <= max_count(counts),
        counts.len() > 0 ==> 0 <= header_index(counts) < counts.len(),
        counts.len() > 0 && max_count(counts) > 0 ==> counts[header_index(counts)] == max_count(
            counts,
        ),
        counts.len() > 0 && max_count(counts) == 0 ==> header_index(counts) == 0,
        forall|j: int| 0 <= j < header_index(counts) ==> counts[j] < max_count(counts),
    decreases counts.len(),
{
    if counts.len() > 0 {
        let p = counts.drop_last();
        lemma_max_count_facts(p);
        assert forall|j: int| 0 <= j < p.len() implies counts[j] == p[j] by {}
        if p.len() == 0 {
            assert(max_count(p) == 0);
            assert(header_index(p) == 0);
        }
    }
}

/// The header is the earliest line with the largest field count: no line
/// scores higher, and every line before it scores strictly lower.
/// When all lines score zero, the first line is the header.
pub proof fn lemma_earliest_maximum_wins(counts: Seq<usize>)
    requires
        counts.len() > 0,
    ensures
        0 <= header_index(counts) < counts.len(),
        forall|j: int| 0 <= j < counts.len() ==> #[trigger] counts[j] <= counts[header_index(counts)],
        forall|j: int|
            0 <= j < header_index(counts) ==> #[trigger] counts[j] < counts[header_index(
                counts,
            )],
        (forall|j: int| 0 <= j < counts.len() ==> #[trigger] counts[j] == 0) ==> header_index(counts) == 0,
{
    lemma_max_count_facts(counts);
    if max_count(counts) == 0 {
        assert(counts[0] <= 0);
    }
}

/// Selection is a function of the window's lines and the delimiter alone:
/// the same captured window always gives the same header index.
pub proof fn lemma_selection_is_deterministic(
    first: Seq<Seq<u8>>,
    second: Seq<Seq<u8>>,
    delimiter: u8,
)
    requires
        first == second,
    ensures
        header_index(scores(first, delimiter)) == header_index(scores(second, delimiter)),
{
}

/// Relies on `csv::ReaderBuilder` (with `delimiter` and `has_headers(false)`)
/// and `csv::Reader::byte_records`: the first record parsed from `line`,
/// and its number of fields. The count depends on the delimiter and the
/// bytes alone; no record counts 0 (an empty line holds none), and a record
/// that fails to parse counts as an empty one.
#[verifier::external_body]
fn count_seperators(field_seperator: u8, line: &[u8]) -> (r: usize)
    ensures
        r == csv_field_count(field_seperator, line@),
        line@.len() == 0 ==> r == 0,
{
    let mut rdr = csv::ReaderBuilder::new()
        .delimiter(field_seperator)
        .has_headers(false)
        .from_reader(line);
    match rdr.byte_records().next() {
        Some(rec) => rec.unwrap_or_default().len(),
        None => 0,
    }
}

/// Picks the header among lines whose field counts are `counts`: the
/// earliest line with the largest count, or 0 when none is positive.
pub fn pick_header(counts: &Vec<usize>) -> (r: usize)
    ensures
        r == header_index(counts@),
        counts@.len() == 0 ==> r == 0,
        counts@.len() > 0 ==> r < counts@.len(),
        forall|j: int| 0 <= j < counts@.len() ==> #[trigger] counts@[j] <= counts@[r as int],
        forall|j: int| 0 <= j < r ==> #[trigger] counts@[j] < counts@[r as int],
{
    let mut best_count: usize = 0;
    let mut best_line: usize = 0;
    let mut i: usize = 0;
    while i < counts.len()
        invariant
            i <= counts@.len(),
            best_count == max_count(counts@.take(i as int)),
            best_line == header_index(counts@.take(i as int)),
        decreases counts@.len() - i,
    {
        let c = counts[i];
        assert(counts@.take(i + 1).drop_last() =~= counts@.take(i as int));
        if c > best_count {
            best_count = c;
            best_line = i;
        }
        i = i + 1;
    }
    assert(counts@.take(i as int) =~= counts@);
    proof {
        if counts@.len() > 0 {
            lemma_earliest_maximum_wins(counts@);
        }
    }
    best_line
}

/// The field count of each line under `field_seperator`, in order.
pub fn score_lines(lines: &Vec<Vec<u8>>, field_seperator: u8) -> (r: Vec<usize>)
    ensures
        r@ == scores(lines.deep_view(), field_seperator),
{
    let mut counts: Vec<usize> = Vec::new();
    let mut i: usize = 0;
    while i < lines.len()
        invariant
            i <= lines@.len(),
            counts@ == scores(lines.deep_view(), field_seperator).take(i as int),
        decreases lines@.len() - i,
    {
        assert(lines.deep_view()[i as int] == lines@[i as int]@);
        let c = count_seperators(field_seperator, lines[i].as_slice());
        counts.push(c);
        i = i + 1;
        assert(counts@ =~= scores(lines.deep_view(), field_seperator).take(i as int));
    }
    assert(counts@ =~= scores(lines.deep_view(), field_seperator));
    counts
}

/// Scores each line of the window by its field count under
/// `field_seperator` and picks the header among them.
pub fn select_header(lines: &Vec<Vec<u8>>, field_seperator: u8) -> (r: usize)
    ensures
        r == header_index(scores(lines.deep_view(), field_seperator)),
{
    let counts = score_lines(lines, field_seperator);
    pick_header(&counts)
}

} // verus!
