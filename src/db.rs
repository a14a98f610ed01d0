//! The catalog record, the filter parameters of a lookup, and the statement
//! that a lookup runs.
use crate::text::push_char;
use vstd::prelude::*;
use vstd::string::*;

verus! {

/// The partition of the catalog that a lookup reads.
#[derive(Clone, Copy, Debug, PartialEq, Eq, Structural)]
pub enum Collection {
    Fiction,
    NonFiction,
}

impl Default for Collection {
    fn default() -> (r: Self)
        ensures
            r == Collection::Fiction,
    {
        Collection::Fiction
    }
}

/// One catalog entry. All fields but `duplicates` and `download_status` are
/// fixed once the record is read from the catalog.
#[derive(Debug)]
pub struct Book {
    pub collection: Collection,
    pub title: String,
    pub authors: String,
    pub series: String,
    pub year: String,
    pub language: String,
    pub publisher: String,
    pub sizeinbytes: i64,
    pub format: String,
    pub ipfs_cid: String,
    /// How many records of the same work have been seen while this one was kept.
    pub duplicates: usize,
    /// `""`, `"?"`, `"Queued"`, `"Downloading"`, `"Done"` or `"Error: ..."`.
    pub download_status: String,
    pub download_path: String,
}

impl Book {
    /// This record with its duplicate count set to `n`.
    pub open spec fn with_duplicates(self, n: int) -> Book {
        Book { duplicates: n as usize, ..self }
    }

    /// A copy of the record, field for field.
    pub fn cloned(&self) -> (r: Book)
        ensures
            r == *self,
    {
        Book {
            collection: self.collection,
            title: self.title.clone(),
            authors: self.authors.clone(),
            series: self.series.clone(),
            year: self.year.clone(),
            language: self.language.clone(),
            publisher: self.publisher.clone(),
            sizeinbytes: self.sizeinbytes,
            format: self.format.clone(),
            ipfs_cid: self.ipfs_cid.clone(),
            duplicates: self.duplicates,
            download_status: self.download_status.clone(),
            download_path: self.download_path.clone(),
        }
    }
}

impl Default for Book {
    fn default() -> (r: Self)
        ensures
            r.collection == Collection::Fiction,
            r.title@.len() == 0,
            r.authors@.len() == 0,
            r.series@.len() == 0,
            r.year@.len() == 0,
            r.language@.len() == 0,
            r.publisher@.len() == 0,
            r.sizeinbytes == 0,
            r.format@.len() == 0,
            r.ipfs_cid@.len() == 0,
            r.duplicates == 0,
            r.download_status@.len() == 0,
            r.download_path@.len() == 0,
    {
        Book {
            collection: Collection::Fiction,
            title: String::new(),
            authors: String::new(),
            series: String::new(),
            year: String::new(),
            language: String::new(),
            publisher: String::new(),
            sizeinbytes: 0,
            format: String::new(),
            ipfs_cid: String::new(),
            duplicates: 0,
            download_status: String::new(),
            download_path: String::new(),
        }
    }
}

/// The filter of one lookup: the collection, five substring filters, and
/// whether the caller merges duplicates.
#[derive(Debug, Clone)]
pub struct Params {
    pub collection: Collection,
    pub title: String,
    pub authors: String,
    pub series: String,
    pub language: String,
    pub format: String,
    pub deduplicate: bool,
}

impl Default for Params {
    fn default() -> (r: Self)
        ensures
            r.collection == Collection::Fiction,
            r.title@.len() == 0,
            r.authors@.len() == 0,
            r.series@.len() == 0,
            r.language@.len() == 0,
            r.format@.len() == 0,
            !r.deduplicate,
    {
        Params {
            collection: Collection::Fiction,
            title: String::new(),
            authors: String::new(),
            series: String::new(),
            language: String::new(),
            format: String::new(),
            deduplicate: false,
        }
    }
}

/// One lookup request: the statement, its filter, and the generation that
/// tags every batch it produces.
#[derive(Debug)]
pub struct Query {
    pub stmt: String,
    pub params: Params,
    pub generation: u64,
}

/// The table that holds a collection.
pub open spec fn table_of(c: Collection) -> Seq<char> {
    match c {
        Collection::NonFiction => "non_fiction"@,
        Collection::Fiction => "fiction"@,
    }
}

pub const SELECT_COMPRESSED: &'static str = "SELECT f.title, f.author as authors, f.series, f.year, f.language, f.publisher, f.filesize as sizeinbytes, f.extension as format, f.ipfs_cid as ipfs_cid FROM ";

pub const SELECT_HASHED: &'static str = "SELECT f.title, f.author as authors, f.series, f.year, f.language, f.publisher, f.filesize as sizeinbytes, f.extension as format, fh.ipfs_cid as ipfs_cid FROM ";

pub const JOIN_HASHES: &'static str = "_hashes as fh on LOWER(f.md5) = fh.md5";

pub const FILTER_AND_ORDER: &'static str = " WHERE f.title LIKE '%'||:title||'%' AND f.author LIKE '%'||:authors||'%' AND f.series LIKE '%'||:series||'%' AND f.language LIKE '%'||:language||'%' AND f.extension LIKE '%'||:format||'%' ORDER BY f.author, f.title, f.filesize";

/// The statement of a lookup in collection `c`. The compressed catalog keeps
/// content identifiers in the collection's table; the other joins them from
/// the `<table>_hashes` table.
pub open spec fn statement_of(c: Collection, compressed: bool) -> Seq<char> {
    if compressed {
        SELECT_COMPRESSED@ + table_of(c) + " f"@ + FILTER_AND_ORDER@
    } else {
        SELECT_HASHED@ + table_of(c) + " f join "@ + table_of(c) + JOIN_HASHES@
            + FILTER_AND_ORDER@
    }
}

/// The table that holds a collection.
pub fn table_name(c: Collection) -> (r: &'static str)
    ensures
        r@ == table_of(c),
{
    match c {
        Collection::NonFiction => "non_fiction",
        Collection::Fiction => "fiction",
    }
}

/// The statement of a lookup for `params`, for the compressed or the hashed
/// catalog; the five filters are bound as named parameters.
pub fn query_statement(params: &Params, compressed: bool) -> (r: String)
    ensures
        r@ == statement_of(params.collection, compressed),
{
    let table = table_name(params.collection);
    let mut s: String;
    if compressed {
        s = String::from_str(SELECT_COMPRESSED);
        s.append(table);
        s.append(" f");
    } else {
        s = String::from_str(SELECT_HASHED);
        s.append(table);
        s.append(" f join ");
        s.append(table);
        s.append(JOIN_HASHES);
    }
    s.append(FILTER_AND_ORDER);
    s
}

/// Where a record's file goes under `root`: `authors/title.format` with
/// `by_author`, else `authors - title.format`.
pub open spec fn path_of(root: Seq<char>, by_author: bool, authors: Seq<char>, title: Seq<char>, format: Seq<char>) -> Seq<char> {
    let name = if by_author {
        authors + "/"@ + title + "."@ + format
    } else {
        authors + " - "@ + title + "."@ + format
    };
    if root.len() == 0 {
        name
    } else if root.last() == '/' {
        root + name
    } else {
        root + "/"@ + name
    }
}

/// Where a record's file goes under the download root `root`, in a folder per
/// author (`by_author`) or directly, named after the authors and the title.
pub fn download_path(root: &str, by_author: bool, authors: &str, title: &str, format: &str) -> (r: String)
    ensures
        r@ == path_of(root@, by_author, authors@, title@, format@),
{
    let mut p = String::from_str(root);
    let n = root.unicode_len();
    if n > 0 && root.get_char(n - 1) != '/' {
        push_char(&mut p, '/');
    }
    p.append(authors);
    if by_author {
        p.append("/");
    } else {
        p.append(" - ");
    }
    p.append(title);
    p.append(".");
    p.append(format);
    proof {
        reveal_strlit("/");
        assert(p@ =~= path_of(root@, by_author, authors@, title@, format@));
    }
    p
}

/// The record of one catalog row, before any merge: a duplicate count of 1,
/// a download status of `"?"` (not yet looked up on disk), and its path
/// under the download root.
pub fn row_to_book(
    collection: Collection,
    title: String,
    authors: String,
    series: String,
    year: String,
    language: String,
    publisher: String,
    sizeinbytes: i64,
    format: String,
    ipfs_cid: String,
    root: &str,
    by_author: bool,
) -> (r: Book)
    ensures
        r == (Book {
            collection,
            title,
            authors,
            series,
            year,
            language,
            publisher,
            sizeinbytes,
            format,
            ipfs_cid,
            duplicates: 1,
            download_status: r.download_status,
            download_path: r.download_path,
        }),
        r.download_status@ == "?"@,
        r.download_path@ == path_of(root@, by_author, authors@, title@, format@),
{
    let download_path = download_path(
        root,
        by_author,
        authors.as_str(),
        title.as_str(),
        format.as_str(),
    );
    Book {
        collection,
        title,
        authors,
        series,
        year,
        language,
        publisher,
        sizeinbytes,
        format,
        ipfs_cid,
        duplicates: 1,
        download_status: String::from_str("?"),
        download_path,
    }
}

/// Tells the batches of the current lookup from those of lookups that were
/// replaced: each lookup gets a new generation, and only batches tagged with
/// the current one are taken.
pub struct ResultGate {
    current: u64,
}

impl View for ResultGate {
    type V = nat;

    closed spec fn view(&self) -> nat {
        self.current as nat
    }
}

impl ResultGate {
    /// Whether a batch tagged `generation` is taken.
    pub open spec fn admits(&self, generation: nat) -> bool {
        generation == self@
    }

    /// Whether `generation` was handed out, to this lookup or an earlier one.
    pub open spec fn issued(&self, generation: nat) -> bool {
        generation <= self@
    }

    pub fn new() -> (r: ResultGate)
        ensures
            r@ == 0,
    {
        ResultGate { current: 0 }
    }

    /// The generation of the lookup in progress.
    pub fn current(&self) -> (r: u64)
        ensures
            r == self@,
    {
        self.current
    }

    /// Starts a new lookup and returns its generation; every earlier
    /// generation is stale from now on.
    pub fn next_query(&mut self) -> (r: u64)
        requires
            old(self)@ < u64::MAX,
        ensures
            final(self)@ == old(self)@ + 1,
            r == final(self)@,
            final(self).admits(r as nat),
            forall|g: nat| old(self).issued(g) ==> !final(self).admits(g),
    {
        self.current = self.current + 1;
        self.current
    }

    /// Whether a batch tagged `generation` belongs to the current lookup.
    pub fn accepts(&self, generation: u64) -> (r: bool)
        ensures
            r == self.admits(generation as nat),
    {
        generation == self.current
    }
}

/// Where `g1` is `g0` advanced by `next_query`, `g1` takes no batch of a
/// lookup issued under `g0`, and takes the new lookup's batches: stale
/// results never mix into the new lookup's results, drained or not. Any gate
/// further along refuses them too.
pub proof fn lemma_no_stale_batches(g0: ResultGate, g1: ResultGate, stale: nat)
    requires
        g1@ == g0@ + 1,
        g0.issued(stale),
    ensures
        !g1.admits(stale),
        g1.admits(g1@),
        g1.issued(stale),
        forall|g: ResultGate| g@ >= g1@ ==> !g.admits(stale),
{
}

} // verus!
