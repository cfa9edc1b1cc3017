use vstd::prelude::*;

use crate::text::{append_chars, chars_eq, chars_of, string_of, trim_chars, trimmed};

verus! {

// ---------------------------------------------------------------------------
// The CSV reader of the `csv` crate
// ---------------------------------------------------------------------------

#[verifier::external_type_specification]
#[verifier::external_body]
pub struct ExCsvError(csv::Error);

/// The fields of the header row that `csv::Reader::headers` reads from `data` with the
/// reader's default settings (comma-separated, first row is the header), or `None` where it
/// reports an error.
pub uninterp spec fn csv_header_row(data: Seq<u8>) -> Option<Seq<Seq<char>>>;

/// The fields of each record after the header row that `csv::Reader::records` yields from
/// `data` with the reader's default settings, or `None` where it yields an error.
pub uninterp spec fn csv_records(data: Seq<u8>) -> Option<Seq<Seq<Seq<char>>>>;

/// Calls `csv::Reader::headers` on a reader made by `csv::Reader::from_reader(data)`; claims
/// that the outcome is a function of `data` alone, written `csv_header_row`.
#[verifier::external_body]
fn read_header_row(data: &[u8]) -> (r: Result<Vec<String>, csv::Error>)
    ensures
        r is Ok <==> csv_header_row(data@) is Some,
        r matches Ok(h) ==> h.deep_view() == csv_header_row(data@)->0,
{
    let mut reader = csv::Reader::from_reader(data);
    reader.headers().map(|h| h.iter().map(|f| f.to_string()).collect())
}

/// Collects `csv::Reader::records` of a reader made by `csv::Reader::from_reader(data)` up to
/// the first error; claims that the outcome is a function of `data` alone, written
/// `csv_records`.
#[verifier::external_body]
fn read_records(data: &[u8]) -> (r: Result<Vec<Vec<String>>, csv::Error>)
    ensures
        r is Ok <==> csv_records(data@) is Some,
        r matches Ok(rows) ==> rows.deep_view() == csv_records(data@)->0,
{
    let mut reader = csv::Reader::from_reader(data);
    reader.records().map(|rec| rec.map(|fields| fields.iter().map(|f| f.to_string()).collect())).collect()
}

// ---------------------------------------------------------------------------
// Columns
// ---------------------------------------------------------------------------

/// The header of the column that names a mod's file (`FileName`); it is the name shown while
/// the mod downloads and reported when it fails.
pub const NAME_COLUMN: &'static str = "FileName";

/// The header of the column that holds a mod's direct CDN download link (`Url`).
pub const URL_COLUMN: &'static str = "Url";

/// The header of the column that holds the environment a mod is for (`Side`: `Client`,
/// `Server` or `Both`).
pub const SIDE_COLUMN: &'static str = "Side";

/// Why a modlist could not be read.
#[derive(Debug)]
pub enum ModlistError {
    /// The header row could not be read.
    HeaderRow(csv::Error),
    /// The header row lacks the column with this header.
    MissingColumn(String),
    /// A record after the header row could not be read.
    Record(csv::Error),
}

/// The message that describes an error (the cause, for a CSV error, comes after it).
pub open spec fn error_text(e: ModlistError) -> Seq<char> {
    match e {
        ModlistError::HeaderRow(_) => "CSV is missing a header row."@,
        ModlistError::MissingColumn(name) => "CSV is missing the expected column: '"@ + name@
            + "'"@,
        ModlistError::Record(_) => "Failed to read a CSV row."@,
    }
}

impl ModlistError {
    /// The message that describes this error.
    pub fn message(&self) -> (r: String)
        ensures
            r@ == error_text(*self),
    {
        match self {
            ModlistError::HeaderRow(_) => string_of(&chars_of("CSV is missing a header row.")),
            ModlistError::MissingColumn(name) => {
                let mut r = string_of(&chars_of("CSV is missing the expected column: '"));
                append_chars(&mut r, &chars_of(name.as_str()));
                append_chars(&mut r, &chars_of("'"));
                r
            },
            ModlistError::Record(_) => string_of(&chars_of("Failed to read a CSV row.")),
        }
    }
}

/// `i` is the first position in `headers` that holds `name`.
pub open spec fn is_first_header(headers: Seq<Seq<char>>, name: Seq<char>, i: int) -> bool {
    &&& 0 <= i < headers.len()
    &&& headers[i] == name
    &&& forall|j: int| 0 <= j < i ==> headers[j] != name
}

/// The first position in `headers` that holds `name`.
pub open spec fn header_position(headers: Seq<Seq<char>>, name: Seq<char>) -> Option<int> {
    if exists|i: int| is_first_header(headers, name, i) {
        Some(choose|i: int| is_first_header(headers, name, i))
    } else {
        None
    }
}

/// Returns the index of a named column in a CSV header row, or the error that names the
/// missing column.
pub fn header_index(headers: &Vec<String>, name: &str) -> (r: Result<usize, ModlistError>)
    ensures
        match header_position(headers.deep_view(), name@) {
            Some(i) => r matches Ok(k) && k == i,
            None => r matches Err(ModlistError::MissingColumn(col)) && col@ == name@,
        },
{
    let ghost h = headers.deep_view();
    let wanted = chars_of(name);
    let mut i: usize = 0;
    while i < headers.len()
        invariant
            i <= headers@.len(),
            h == headers.deep_view(),
            h.len() == headers@.len(),
            wanted@ == name@,
            forall|j: int| 0 <= j < i ==> h[j] != name@,
        decreases headers@.len() - i,
    {
        let field = chars_of(headers[i].as_str());
        assert(h[i as int] == headers@[i as int]@);
        if chars_eq(&field, &wanted) {
            proof {
                assert(is_first_header(h, name@, i as int));
                let k = choose|k: int| is_first_header(h, name@, k);
                assert(k == i);
            }
            return Ok(i);
        }
        i = i + 1;
    }
    Err(ModlistError::MissingColumn(string_of(&wanted)))
}

/// The positions of the name, URL and side columns.
pub struct Columns {
    pub name: usize,
    pub url: usize,
    pub side: usize,
}

/// Where the name, URL and side columns stand in `headers`, or the header of the first of them
/// (in that order) that is missing.
pub open spec fn spec_columns(headers: Seq<Seq<char>>) -> Result<(int, int, int), Seq<char>> {
    match (
        header_position(headers, NAME_COLUMN@),
        header_position(headers, URL_COLUMN@),
        header_position(headers, SIDE_COLUMN@),
    ) {
        (None, _, _) => Err(NAME_COLUMN@),
        (Some(_), None, _) => Err(URL_COLUMN@),
        (Some(_), Some(_), None) => Err(SIDE_COLUMN@),
        (Some(n), Some(u), Some(s)) => Ok((n, u, s)),
    }
}

/// Resolves the name, URL and side columns by their headers, so that the column order in the
/// CSV does not matter.
pub fn modlist_columns(headers: &Vec<String>) -> (r: Result<Columns, ModlistError>)
    ensures
        match spec_columns(headers.deep_view()) {
            Ok((n, u, s)) => r matches Ok(c) && c.name == n && c.url == u && c.side == s,
            Err(missing) => r matches Err(ModlistError::MissingColumn(col)) && col@ == missing,
        },
{
    let name = match header_index(headers, NAME_COLUMN) {
        Ok(i) => i,
        Err(e) => {
            return Err(e);
        },
    };
    let url = match header_index(headers, URL_COLUMN) {
        Ok(i) => i,
        Err(e) => {
            return Err(e);
        },
    };
    let side = match header_index(headers, SIDE_COLUMN) {
        Ok(i) => i,
        Err(e) => {
            return Err(e);
        },
    };
    Ok(Columns { name, url, side })
}

// ---------------------------------------------------------------------------
// Selecting the mods of one side
// ---------------------------------------------------------------------------

/// A mod to download: its `FileName` (the name shown while it downloads and reported if it
/// fails) and its `Url`.
pub struct ModEntry {
    pub display_name: String,
    pub url: String,
}

/// `Both`
pub open spec fn side_both() -> Seq<char> {
    seq!['B', 'o', 't', 'h']
}

/// `Client`
pub open spec fn side_client() -> Seq<char> {
    seq!['C', 'l', 'i', 'e', 'n', 't']
}

/// `Server`
pub open spec fn side_server() -> Seq<char> {
    seq!['S', 'e', 'r', 'v', 'e', 'r']
}

/// `Unknown`, the name of a mod whose record lacks the name field.
pub open spec fn unknown_name() -> Seq<char> {
    seq!['U', 'n', 'k', 'n', 'o', 'w', 'n']
}

/// Whether a mod tagged `side` is downloaded: `Both` always, `Client` in client mode, `Server`
/// in server mode, anything else never.
pub open spec fn side_included(side: Seq<char>, is_server: bool) -> bool {
    ||| side == side_both()
    ||| side == side_client() && !is_server
    ||| side == side_server() && is_server
}

/// Field `i` of `record`, or `default` where the record has no such field.
pub open spec fn field_or(record: Seq<Seq<char>>, i: int, default: Seq<char>) -> Seq<char> {
    if 0 <= i < record.len() {
        record[i]
    } else {
        default
    }
}

/// The mods (trimmed name, trimmed URL) that `records` hold for one side, in record order.
pub open spec fn selected_mods(
    records: Seq<Seq<Seq<char>>>,
    name: int,
    url: int,
    side: int,
    is_server: bool,
) -> Seq<(Seq<char>, Seq<char>)>
    decreases records.len(),
{
    if records.len() == 0 {
        seq![]
    } else {
        let before = selected_mods(records.drop_last(), name, url, side, is_server);
        let record = records.last();
        if side_included(trimmed(field_or(record, side, seq![])), is_server) {
            before.push(
                (
                    trimmed(field_or(record, name, unknown_name())),
                    trimmed(field_or(record, url, seq![])),
                ),
            )
        } else {
            before
        }
    }
}

/// The name and URL of each entry.
pub open spec fn entry_views(mods: Seq<ModEntry>) -> Seq<(Seq<char>, Seq<char>)> {
    mods.map_values(|m: ModEntry| (m.display_name@, m.url@))
}

fn field_chars(record: &Vec<String>, i: usize, default: &Vec<char>) -> (r: Vec<char>)
    ensures
        r@ == field_or(record.deep_view(), i as int, default@),
{
    if i < record.len() {
        chars_of(record[i].as_str())
    } else {
        default.clone()
    }
}

/// Whether a mod tagged `side` is downloaded in the given mode.
pub fn side_wanted(side: &Vec<char>, is_server: bool) -> (b: bool)
    ensures
        b == side_included(side@, is_server),
{
    let both = vec!['B', 'o', 't', 'h'];
    let client = vec!['C', 'l', 'i', 'e', 'n', 't'];
    let server = vec!['S', 'e', 'r', 'v', 'e', 'r'];
    assert(both@ =~= side_both());
    assert(client@ =~= side_client());
    assert(server@ =~= side_server());
    if chars_eq(side, &both) {
        true
    } else if chars_eq(side, &client) {
        !is_server
    } else if chars_eq(side, &server) {
        is_server
    } else {
        false
    }
}

/// The mods of the records that are for the given side, with name and URL trimmed; a record
/// without a name field is named `Unknown`.
pub fn select_mods(records: &Vec<Vec<String>>, columns: &Columns, is_server: bool) -> (r: Vec<
    ModEntry,
>)
    ensures
        entry_views(r@) == selected_mods(
            records.deep_view(),
            columns.name as int,
            columns.url as int,
            columns.side as int,
            is_server,
        ),
{
    let ghost recs = records.deep_view();
    let unknown = vec!['U', 'n', 'k', 'n', 'o', 'w', 'n'];
    let empty: Vec<char> = Vec::new();
    assert(unknown@ =~= unknown_name());
    assert(empty@ =~= Seq::<char>::empty());
    let mut mods: Vec<ModEntry> = Vec::new();
    let mut k: usize = 0;
    while k < records.len()
        invariant
            k <= records@.len(),
            recs == records.deep_view(),
            recs.len() == records@.len(),
            unknown@ == unknown_name(),
            empty@ == Seq::<char>::empty(),
            entry_views(mods@) == selected_mods(
                recs.subrange(0, k as int),
                columns.name as int,
                columns.url as int,
                columns.side as int,
                is_server,
            ),
        decreases records@.len() - k,
    {
        let ghost pre = recs.subrange(0, k as int);
        let ghost next = recs.subrange(0, k + 1);
        assert(next.drop_last() =~= pre);
        assert(next.last() == recs[k as int]);
        assert(recs[k as int] == records@[k as int].deep_view());
        let record = &records[k];
        let side = trim_chars(&field_chars(record, columns.side, &empty));
        if side_wanted(&side, is_server) {
            let name = trim_chars(&field_chars(record, columns.name, &unknown));
            let url = trim_chars(&field_chars(record, columns.url, &empty));
            let entry = ModEntry { display_name: string_of(&name), url: string_of(&url) };
            let ghost before = mods@;
            mods.push(entry);
            assert(entry_views(mods@) =~= entry_views(before).push(
                (entry.display_name@, entry.url@),
            ));
        }
        k = k + 1;
    }
    assert(recs.subrange(0, records@.len() as int) =~= recs);
    mods
}

/// Record `record` is one whose side is downloaded in the given mode.
pub open spec fn record_wanted(record: Seq<Seq<char>>, side: int, is_server: bool) -> bool {
    side_included(trimmed(field_or(record, side, seq![])), is_server)
}

/// The mod that a record describes.
pub open spec fn entry_of(record: Seq<Seq<char>>, name: int, url: int) -> (Seq<char>, Seq<char>) {
    (trimmed(field_or(record, name, unknown_name())), trimmed(field_or(record, url, seq![])))
}

/// `entry` is the mod of some record whose side is downloaded in the given mode.
pub open spec fn from_wanted_record(
    records: Seq<Seq<Seq<char>>>,
    name: int,
    url: int,
    side: int,
    is_server: bool,
    entry: (Seq<char>, Seq<char>),
) -> bool {
    exists|k: int|
        0 <= k < records.len() && record_wanted(#[trigger] records[k], side, is_server) && entry
            == entry_of(records[k], name, url)
}

proof fn lemma_source_of(
    records: Seq<Seq<Seq<char>>>,
    name: int,
    url: int,
    side: int,
    is_server: bool,
    i: int,
) -> (k: int)
    requires
        0 <= i < selected_mods(records, name, url, side, is_server).len(),
    ensures
        0 <= k < records.len(),
        record_wanted(records[k], side, is_server),
        selected_mods(records, name, url, side, is_server)[i] == entry_of(records[k], name, url),
    decreases records.len(),
{
    let before = selected_mods(records.drop_last(), name, url, side, is_server);
    if i < before.len() {
        let k = lemma_source_of(records.drop_last(), name, url, side, is_server, i);
        assert(records.drop_last()[k] == records[k]);
        k
    } else {
        (records.len() - 1) as int
    }
}

proof fn lemma_selected_grows(
    records: Seq<Seq<Seq<char>>>,
    name: int,
    url: int,
    side: int,
    is_server: bool,
    n: int,
)
    requires
        0 <= n <= records.len(),
    ensures
        selected_mods(records.subrange(0, n), name, url, side, is_server).len() <= selected_mods(
            records,
            name,
            url,
            side,
            is_server,
        ).len(),
        forall|i: int|
            0 <= i < selected_mods(records.subrange(0, n), name, url, side, is_server).len()
                ==> selected_mods(records, name, url, side, is_server)[i] == selected_mods(
                records.subrange(0, n),
                name,
                url,
                side,
                is_server,
            )[i],
    decreases records.len() - n,
{
    if n < records.len() {
        lemma_selected_grows(records.drop_last(), name, url, side, is_server, n);
        assert(records.drop_last().subrange(0, n) =~= records.subrange(0, n));
    } else {
        assert(records.subrange(0, n) =~= records);
    }
}

/// Every selected mod comes from a record whose side is downloaded in that mode (so server mode
/// never selects a `Client` mod, and client mode never a `Server` mod), and every record whose
/// side is downloaded gives a selected mod.
pub proof fn lemma_selected_mods_respect_side(
    records: Seq<Seq<Seq<char>>>,
    name: int,
    url: int,
    side: int,
    is_server: bool,
)
    ensures
        forall|i: int|
            0 <= i < selected_mods(records, name, url, side, is_server).len()
                ==> from_wanted_record(
                records,
                name,
                url,
                side,
                is_server,
                #[trigger] selected_mods(records, name, url, side, is_server)[i],
            ),
        forall|k: int|
            0 <= k < records.len() && record_wanted(records[k], side, is_server)
                ==> selected_mods(records, name, url, side, is_server).contains(
                entry_of(records[k], name, url),
            ),
        forall|k: int|
            0 <= k < records.len() && record_wanted(records[k], side, is_server) ==> {
                let tag = trimmed(field_or(records[k], side, seq![]));
                &&& is_server ==> tag != side_client()
                &&& !is_server ==> tag != side_server()
            },
{
    let sel = selected_mods(records, name, url, side, is_server);
    assert forall|i: int| 0 <= i < sel.len() implies from_wanted_record(
        records,
        name,
        url,
        side,
        is_server,
        #[trigger] sel[i],
    ) by {
        let k = lemma_source_of(records, name, url, side, is_server, i);
        assert(0 <= k < records.len() && record_wanted(records[k], side, is_server) && sel[i]
            == entry_of(records[k], name, url));
    }
    assert forall|k: int|
        0 <= k < records.len() && record_wanted(records[k], side, is_server) implies sel.contains(
        entry_of(records[k], name, url),
    ) by {
        let pre = records.subrange(0, k + 1);
        assert(pre.drop_last() =~= records.subrange(0, k));
        assert(pre.last() == records[k]);
        let sp = selected_mods(pre, name, url, side, is_server);
        lemma_selected_grows(records, name, url, side, is_server, k + 1);
        assert(sp.last() == entry_of(records[k], name, url));
        assert(sel[sp.len() - 1] == sp[sp.len() - 1]);
    }
    assert(side_client() != side_both() && side_client() != side_server()) by {
        assert(side_client().len() != side_both().len());
        assert(side_client()[0] != side_server()[0]);
    }
    assert(side_server() != side_both()) by {
        assert(side_server().len() != side_both().len());
    }
}

/// The trimmed side tag of a record.
pub open spec fn side_tag(record: Seq<Seq<char>>, side: int) -> Seq<char> {
    trimmed(field_or(record, side, seq![]))
}

/// How many records carry side tag `tag`.
pub open spec fn count_tagged(records: Seq<Seq<Seq<char>>>, side: int, tag: Seq<char>) -> nat
    decreases records.len(),
{
    if records.len() == 0 {
        0
    } else {
        count_tagged(records.drop_last(), side, tag) + if side_tag(records.last(), side) == tag {
            1nat
        } else {
            0nat
        }
    }
}

/// The mods of the records tagged `Both`, in record order.
pub open spec fn both_mods(records: Seq<Seq<Seq<char>>>, name: int, url: int, side: int) -> Seq<
    (Seq<char>, Seq<char>),
>
    decreases records.len(),
{
    if records.len() == 0 {
        seq![]
    } else {
        let before = both_mods(records.drop_last(), name, url, side);
        if side_tag(records.last(), side) == side_both() {
            before.push(entry_of(records.last(), name, url))
        } else {
            before
        }
    }
}

/// `small` is `big` with some entries left out, the others kept in order.
pub open spec fn is_subsequence(
    small: Seq<(Seq<char>, Seq<char>)>,
    big: Seq<(Seq<char>, Seq<char>)>,
) -> bool {
    exists|idx: Seq<int>|
        {
            &&& idx.len() == small.len()
            &&& forall|i: int| 0 <= i < idx.len() ==> 0 <= #[trigger] idx[i] < big.len() && big[idx[i]] == small[i]
            &&& forall|i: int, j: int| 0 <= i < j < idx.len() ==> idx[i] < idx[j]
        }
}

proof fn lemma_tags_distinct()
    ensures
        side_both() != side_client(),
        side_both() != side_server(),
        side_client() != side_server(),
{
    assert(side_both().len() != side_client().len());
    assert(side_both().len() != side_server().len());
    assert(side_client()[0] != side_server()[0]);
}

proof fn lemma_mode_count(records: Seq<Seq<Seq<char>>>, name: int, url: int, side: int, is_server: bool)
    ensures
        selected_mods(records, name, url, side, is_server).len() == count_tagged(records, side, side_both())
            + count_tagged(records, side, if is_server { side_server() } else { side_client() }),
    decreases records.len(),
{
    lemma_tags_distinct();
    if records.len() > 0 {
        lemma_mode_count(records.drop_last(), name, url, side, is_server);
    }
}

proof fn lemma_both_indices(records: Seq<Seq<Seq<char>>>, name: int, url: int, side: int, is_server: bool) -> (idx: Seq<int>)
    ensures
        idx.len() == both_mods(records, name, url, side).len(),
        forall|i: int| 0 <= i < idx.len() ==> 0 <= #[trigger] idx[i] < selected_mods(records, name, url, side, is_server).len()
            && selected_mods(records, name, url, side, is_server)[idx[i]] == both_mods(records, name, url, side)[i],
        forall|i: int, j: int| 0 <= i < j < idx.len() ==> idx[i] < idx[j],
    decreases records.len(),
{
    if records.len() == 0 {
        Seq::empty()
    } else {
        let prev = lemma_both_indices(records.drop_last(), name, url, side, is_server);
        let sel_prev = selected_mods(records.drop_last(), name, url, side, is_server);
        let sel = selected_mods(records, name, url, side, is_server);
        assert(forall|i: int| 0 <= i < sel_prev.len() ==> sel[i] == sel_prev[i]);
        if side_tag(records.last(), side) == side_both() {
            let idx = prev.push(sel_prev.len() as int);
            assert forall|i: int| 0 <= i < idx.len() implies 0 <= #[trigger] idx[i] < sel.len()
                && sel[idx[i]] == both_mods(records, name, url, side)[i] by {
                if i < prev.len() {
                    assert(idx[i] == prev[i]);
                }
            }
            assert forall|i: int, j: int| 0 <= i < j < idx.len() implies idx[i] < idx[j] by {
                assert(idx[i] == prev[i]);
                if j < prev.len() {
                    assert(idx[j] == prev[j]);
                }
            }
            idx
        } else {
            prev
        }
    }
}

/// How the client-mode and server-mode lists of one modlist relate: the mods of the `Both`
/// records appear in both lists, in record order; the client list holds one mod per `Both` and
/// per `Client` record, the server list one per `Both` and per `Server` record, so together they
/// hold as many as there are `Client` and `Server` records plus twice the `Both` records.
pub proof fn lemma_client_and_server_lists(records: Seq<Seq<Seq<char>>>, name: int, url: int, side: int)
    ensures
        is_subsequence(both_mods(records, name, url, side), selected_mods(records, name, url, side, false)),
        is_subsequence(both_mods(records, name, url, side), selected_mods(records, name, url, side, true)),
        selected_mods(records, name, url, side, false).len() == count_tagged(records, side, side_both())
            + count_tagged(records, side, side_client()),
        selected_mods(records, name, url, side, true).len() == count_tagged(records, side, side_both())
            + count_tagged(records, side, side_server()),
        selected_mods(records, name, url, side, false).len() + selected_mods(records, name, url, side, true).len()
            == count_tagged(records, side, side_client()) + count_tagged(records, side, side_server())
            + 2 * count_tagged(records, side, side_both()),
{
    lemma_mode_count(records, name, url, side, false);
    lemma_mode_count(records, name, url, side, true);
    let c = lemma_both_indices(records, name, url, side, false);
    let s = lemma_both_indices(records, name, url, side, true);
    assert(is_subsequence(both_mods(records, name, url, side), selected_mods(records, name, url, side, false)));
    assert(is_subsequence(both_mods(records, name, url, side), selected_mods(records, name, url, side, true)));
}

/// The mods a modlist with header row `headers` and records `records` gives in one mode, or the
/// header of the first missing column.
pub open spec fn modlist_of(
    headers: Seq<Seq<char>>,
    records: Seq<Seq<Seq<char>>>,
    is_server: bool,
) -> Result<Seq<(Seq<char>, Seq<char>)>, Seq<char>> {
    match spec_columns(headers) {
        Err(missing) => Err(missing),
        Ok((n, u, s)) => Ok(selected_mods(records, n, u, s, is_server)),
    }
}

/// `p` reorders `n` columns (new column `j` is old column `p[j]`) and `q` undoes it.
pub open spec fn is_column_order(p: Seq<int>, q: Seq<int>, n: int) -> bool {
    &&& p.len() == n
    &&& q.len() == n
    &&& forall|i: int| 0 <= i < n ==> 0 <= #[trigger] p[i] < n && q[p[i]] == i
    &&& forall|i: int| 0 <= i < n ==> 0 <= #[trigger] q[i] < n && p[q[i]] == i
}

/// `row` with its columns reordered by `p`.
pub open spec fn reorder(row: Seq<Seq<char>>, p: Seq<int>) -> Seq<Seq<char>> {
    Seq::new(p.len(), |j: int| row[p[j]])
}

/// Every record of `records` has one field per header, and no header repeats.
pub open spec fn well_shaped(headers: Seq<Seq<char>>, records: Seq<Seq<Seq<char>>>) -> bool {
    &&& forall|i: int, j: int| 0 <= i < j < headers.len() ==> headers[i] != headers[j]
    &&& forall|k: int| 0 <= k < records.len() ==> (#[trigger] records[k]).len() == headers.len()
}

proof fn lemma_header_position_reordered(
    headers: Seq<Seq<char>>,
    p: Seq<int>,
    q: Seq<int>,
    name: Seq<char>,
)
    requires
        is_column_order(p, q, headers.len() as int),
        forall|i: int, j: int| 0 <= i < j < headers.len() ==> headers[i] != headers[j],
    ensures
        match header_position(headers, name) {
            Some(i) => header_position(reorder(headers, p), name) == Some(q[i]),
            None => header_position(reorder(headers, p), name) is None,
        },
{
    let h2 = reorder(headers, p);
    match header_position(headers, name) {
        Some(i) => {
            assert(is_first_header(headers, name, i));
            let j = q[i];
            assert(h2[j] == headers[p[j]]);
            assert forall|j2: int| 0 <= j2 < j implies h2[j2] != name by {
                assert(h2[j2] == headers[p[j2]]);
                if headers[p[j2]] == name {
                    assert(q[p[j2]] == j2);
                }
            }
            assert(is_first_header(h2, name, j));
            let k = choose|k: int| is_first_header(h2, name, k);
            assert(k == j);
        },
        None => {
            if exists|j: int| is_first_header(h2, name, j) {
                let j = choose|j: int| is_first_header(h2, name, j);
                assert(h2[j] == headers[p[j]]);
                let i = p[j];
                assert forall|i2: int| 0 <= i2 < i implies headers[i2] != name by {
                    if headers[i2] == name {
                        assert(headers[i2] == headers[i]);
                    }
                }
                assert(is_first_header(headers, name, i));
            }
        },
    }
}

proof fn lemma_selected_reordered(
    records: Seq<Seq<Seq<char>>>,
    p: Seq<int>,
    q: Seq<int>,
    w: int,
    name: int,
    url: int,
    side: int,
    is_server: bool,
)
    requires
        is_column_order(p, q, w),
        0 <= name < w,
        0 <= url < w,
        0 <= side < w,
        forall|k: int| 0 <= k < records.len() ==> (#[trigger] records[k]).len() == w,
    ensures
        selected_mods(
            records.map_values(|r: Seq<Seq<char>>| reorder(r, p)),
            q[name],
            q[url],
            q[side],
            is_server,
        ) == selected_mods(records, name, url, side, is_server),
    decreases records.len(),
{
    let r2 = records.map_values(|r: Seq<Seq<char>>| reorder(r, p));
    if records.len() > 0 {
        let rest = records.drop_last();
        assert(r2.drop_last() =~= rest.map_values(|r: Seq<Seq<char>>| reorder(r, p)));
        lemma_selected_reordered(rest, p, q, w, name, url, side, is_server);
        let last = records.last();
        assert(records[records.len() - 1] == last);
        assert(r2.last() == reorder(last, p));
        assert(field_or(reorder(last, p), q[name], unknown_name()) == field_or(last, name, unknown_name()));
        assert(field_or(reorder(last, p), q[url], seq![]) == field_or(last, url, seq![]));
        assert(field_or(reorder(last, p), q[side], seq![]) == field_or(last, side, seq![]));
    }
}

/// The column order of a modlist does not matter: reordering the columns of the header row and
/// of every record alike gives the same mods (for a modlist whose headers do not repeat and
/// whose records have one field per header).
pub proof fn lemma_column_order_irrelevant(
    headers: Seq<Seq<char>>,
    records: Seq<Seq<Seq<char>>>,
    p: Seq<int>,
    q: Seq<int>,
    is_server: bool,
)
    requires
        is_column_order(p, q, headers.len() as int),
        well_shaped(headers, records),
    ensures
        modlist_of(
            reorder(headers, p),
            records.map_values(|r: Seq<Seq<char>>| reorder(r, p)),
            is_server,
        ) == modlist_of(headers, records, is_server),
{
    lemma_header_position_reordered(headers, p, q, NAME_COLUMN@);
    lemma_header_position_reordered(headers, p, q, URL_COLUMN@);
    lemma_header_position_reordered(headers, p, q, SIDE_COLUMN@);
    match spec_columns(headers) {
        Ok((n, u, s)) => {
            assert(is_first_header(headers, NAME_COLUMN@, n));
            assert(is_first_header(headers, URL_COLUMN@, u));
            assert(is_first_header(headers, SIDE_COLUMN@, s));
            lemma_selected_reordered(records, p, q, headers.len() as int, n, u, s, is_server);
        },
        Err(_) => {},
    }
}

/// Reads a modlist CSV and keeps the mods for the given side: the header row must hold the
/// name, URL and side columns (in any order), and every record must read.
pub fn parse_modlist(data: &[u8], is_server: bool) -> (r: Result<Vec<ModEntry>, ModlistError>)
    ensures
        match csv_header_row(data@) {
            None => r matches Err(ModlistError::HeaderRow(_)),
            Some(headers) => match spec_columns(headers) {
                Err(missing) => r matches Err(ModlistError::MissingColumn(col)) && col@ == missing,
                Ok((n, u, s)) => match csv_records(data@) {
                    None => r matches Err(ModlistError::Record(_)),
                    Some(records) => r matches Ok(mods) && entry_views(mods@) == selected_mods(
                        records,
                        n,
                        u,
                        s,
                        is_server,
                    ),
                },
            },
        },
{
    let headers = match read_header_row(data) {
        Ok(h) => h,
        Err(e) => {
            return Err(ModlistError::HeaderRow(e));
        },
    };
    let columns = modlist_columns(&headers)?;
    let records = match read_records(data) {
        Ok(rows) => rows,
        Err(e) => {
            return Err(ModlistError::Record(e));
        },
    };
    Ok(select_mods(&records, &columns, is_server))
}

} // verus!
