//! The decisions of the download engine: the status transitions of a record,
//! the mirror URL of a fetch, the staggered race between mirrors, and the
//! size check after the write.
use crate::db::Book;
use crate::text::push_char;
use vstd::prelude::*;
use vstd::string::*;

verus! {

/// Seconds that each mirror waits beyond the one before it.
pub const HOST_STAGGER_SECS: u64 = 10;

/// Seconds that one mirror fetch may take.
pub const FETCH_TIMEOUT_SECS: u64 = 30;

/// Progress of the download engine over its lifetime.
#[derive(Debug, Clone)]
pub struct Status {
    pub completed: u64,
    pub errors: u64,
    pub description: String,
}

impl Default for Status {
    fn default() -> (r: Self)
        ensures
            r.completed == 0,
            r.errors == 0,
            r.description@.len() == 0,
    {
        Status { completed: 0, errors: 0, description: String::new() }
    }
}

/// The decimal digit of a number below ten.
pub open spec fn digit_char(d: nat) -> char {
    ((d + '0' as u32) as u32) as char
}

/// The decimal form of `n`, without leading zeros.
pub open spec fn decimal(n: nat) -> Seq<char>
    decreases n,
{
    if n < 10 {
        seq![digit_char(n)]
    } else {
        decimal(n / 10).push(digit_char(n % 10))
    }
}

/// `n` in decimal, as `u64`'s `to_string` writes it.
pub fn decimal_string(n: u64) -> (r: String)
    ensures
        r@ == decimal(n as nat),
    decreases n,
{
    let d = char_of_digit((n % 10) as u32);
    if n < 10 {
        let mut r = String::new();
        push_char(&mut r, d);
        assert(r@ =~= seq![digit_char(n as nat)]);
        r
    } else {
        let mut r = decimal_string(n / 10);
        push_char(&mut r, d);
        r
    }
}

fn char_of_digit(d: u32) -> (r: char)
    requires
        d < 10,
    ensures
        r == digit_char(d as nat),
{
    if d == 0 {
        '0'
    } else if d == 1 {
        '1'
    } else if d == 2 {
        '2'
    } else if d == 3 {
        '3'
    } else if d == 4 {
        '4'
    } else if d == 5 {
        '5'
    } else if d == 6 {
        '6'
    } else if d == 7 {
        '7'
    } else if d == 8 {
        '8'
    } else {
        '9'
    }
}

/// `book` with only its download status changed, to `s`.
pub open spec fn status_now(before: Book, after: Book, s: Seq<char>) -> bool {
    &&& after.download_status@ == s
    &&& after == (Book { download_status: after.download_status, ..before })
}

/// Starts the handling of one request. The record becomes `"Downloading"`.
/// If its file is already on disk (`exists`), it becomes `"Done"` at once and
/// the result is false: nothing is fetched. Otherwise the result is true: the
/// mirrors are to be raced. The counts do not change.
pub fn begin_download(status: &mut Status, book: &mut Book, exists: bool) -> (fetch: bool)
    ensures
        fetch == !exists,
        final(status).completed == old(status).completed,
        final(status).errors == old(status).errors,
        exists ==> status_now(*old(book), *final(book), "Done"@),
        exists ==> final(status).description@ == old(book).title@ + " already exists"@,
        !exists ==> status_now(*old(book), *final(book), "Downloading"@),
        !exists ==> final(status).description@ == "Downloading "@ + old(book).title@,
{
    status.description = String::from_str("Downloading ").concat(book.title.as_str());
    book.download_status = String::from_str("Downloading");
    if exists {
        let mut d = book.title.clone();
        d.append(" already exists");
        status.description = d;
        book.download_status = String::from_str("Done");
        return false;
    }
    true
}

/// The part of a file name that names the series: `"(series) "`, or nothing.
pub open spec fn series_part(series: Seq<char>) -> Seq<char> {
    if series.len() == 0 {
        Seq::empty()
    } else {
        "("@ + series + ") "@
    }
}

/// The URL of a record's file on mirror `host`.
pub open spec fn url_of(host: Seq<char>, b: Book) -> Seq<char> {
    "https://"@ + host + "/ipfs/"@ + b.ipfs_cid@ + "?filename="@ + series_part(b.series@)
        + b.authors@ + " - "@ + b.title@ + "."@ + b.format@
}

/// The URL of a record's file on mirror `host`: the content identifier, and a
/// file name made of the series, the authors, the title and the format.
pub fn download_url(host: &str, book: &Book) -> (r: String)
    ensures
        r@ == url_of(host@, *book),
{
    let mut u = String::from_str("https://");
    u.append(host);
    u.append("/ipfs/");
    u.append(book.ipfs_cid.as_str());
    u.append("?filename=");
    if book.series.as_str().unicode_len() > 0 {
        u.append("(");
        u.append(book.series.as_str());
        u.append(") ");
    }
    u.append(book.authors.as_str());
    u.append(" - ");
    u.append(book.title.as_str());
    u.append(".");
    u.append(book.format.as_str());
    proof {
        let pre = "https://"@ + host@ + "/ipfs/"@ + book.ipfs_cid@ + "?filename="@;
        if book.series@.len() > 0 {
            assert(pre + "("@ + book.series@ + ") "@ =~= pre + series_part(book.series@));
        } else {
            assert(pre =~= pre + series_part(book.series@));
        }
    }
    u
}

/// How long the fetch from the mirror at `index` waits before it starts.
pub fn start_delay_secs(index: usize) -> (r: u64)
    requires
        index <= u64::MAX / 10,
    ensures
        r == HOST_STAGGER_SECS * index,
{
    HOST_STAGGER_SECS * (index as u64)
}

/// What the engine does on one event of a race.
#[derive(Debug, Clone, Copy, PartialEq, Eq, Structural)]
pub enum RaceAction {
    /// Other fetches are still running: wait for the next one.
    Wait,
    /// This mirror's bytes are the download; abort every other fetch.
    Win(usize),
    /// Every fetch failed.
    AllFailed,
    /// The race was already decided: drop what this fetch returned.
    Ignore,
}

/// The race as a value: which fetches still run, and the winner if any.
pub struct RaceModel {
    pub running: Seq<bool>,
    pub winner: Option<usize>,
}

/// A race that has just started its `n` fetches.
pub open spec fn race_start(n: nat) -> RaceModel {
    RaceModel { running: Seq::new(n, |i: int| true), winner: None }
}

/// Whether no fetch is running.
pub open spec fn none_running(running: Seq<bool>) -> bool {
    forall|j: int| 0 <= j < running.len() ==> !running[j]
}

/// The step of a race when the fetch from `host` completes, successfully or not.
pub open spec fn race_next(m: RaceModel, host: nat, ok: bool) -> (RaceModel, RaceAction) {
    if m.winner is Some {
        (m, RaceAction::Ignore)
    } else if ok {
        (
            RaceModel {
                running: Seq::new(m.running.len(), |i: int| false),
                winner: Some(host as usize),
            },
            RaceAction::Win(host as usize),
        )
    } else {
        let running = m.running.update(host as int, false);
        (
            RaceModel { running, winner: None },
            if none_running(running) {
                RaceAction::AllFailed
            } else {
                RaceAction::Wait
            },
        )
    }
}

/// The bookkeeping of one race between mirrors.
pub struct Race {
    running: Vec<bool>,
    winner: Option<usize>,
}

impl View for Race {
    type V = RaceModel;

    closed spec fn view(&self) -> RaceModel {
        RaceModel { running: self.running@, winner: self.winner }
    }
}

impl Race {
    /// A race of `n` fetches, all running.
    pub fn new(n: usize) -> (r: Race)
        ensures
            r@ == race_start(n as nat),
    {
        let mut running: Vec<bool> = Vec::new();
        let mut i: usize = 0;
        while i < n
            invariant
                i <= n,
                running@ == Seq::new(i as nat, |k: int| true),
            decreases n - i,
        {
            running.push(true);
            i += 1;
            assert(running@ =~= Seq::new(i as nat, |k: int| true));
        }
        Race { running, winner: None }
    }

    /// Number of fetches in the race.
    pub fn len(&self) -> (r: usize)
        ensures
            r == self@.running.len(),
    {
        self.running.len()
    }

    /// Records that the fetch from `host` completed, successfully (`ok`) or
    /// not, and says what to do: the first success wins and stops the rest,
    /// a failure waits for the others, and the last failure ends the race.
    pub fn finished(&mut self, host: usize, ok: bool) -> (r: RaceAction)
        requires
            host < old(self)@.running.len(),
        ensures
            (final(self)@, r) == race_next(old(self)@, host as nat, ok),
    {
        if self.winner.is_some() {
            return RaceAction::Ignore;
        }
        if ok {
            let n = self.running.len();
            let mut i: usize = 0;
            while i < n
                invariant
                    n == self.running.len(),
                    i <= n,
                    forall|k: int| 0 <= k < i ==> !self.running@[k],
                decreases n - i,
            {
                self.running.set(i, false);
                i += 1;
            }
            self.winner = Some(host);
            assert(self.running@ =~= Seq::new(n as nat, |k: int| false));
            return RaceAction::Win(host);
        }
        self.running.set(host, false);
        let mut i: usize = 0;
        while i < self.running.len()
            invariant
                i <= self.running.len(),
                forall|k: int| 0 <= k < i ==> !self.running@[k],
                self.winner is None,
                old(self)@.winner is None,
                !ok,
                host < old(self)@.running.len(),
                self.running@ == old(self)@.running.update(host as int, false),
            decreases self.running.len() - i,
        {
            if self.running[i] {
                assert(self.running@[i as int]);
                return RaceAction::Wait;
            }
            i += 1;
        }
        RaceAction::AllFailed
    }
}

/// When the fastest mirror of a fresh race succeeds first, its bytes are the
/// download, every other fetch is still running and so is stopped before it
/// completes, and nothing that another fetch returns later is used.
pub proof fn lemma_fastest_host_wins(n: nat, host: nat, other: nat, ok: bool)
    requires
        host < n,
        other < n,
        other != host,
    ensures
        race_next(race_start(n), host, true).1 == RaceAction::Win(host as usize),
        race_start(n).running[other as int],
        none_running(race_next(race_start(n), host, true).0.running),
        race_next(race_next(race_start(n), host, true).0, other, ok).1 == RaceAction::Ignore,
{
}

/// The message of a write whose size on disk differs from the bytes fetched.
pub open spec fn mismatch_message(expected: nat, on_disk: nat) -> Seq<char> {
    "File size mismatch: expected "@ + decimal(expected) + " bytes, got "@ + decimal(on_disk)
        + " bytes"@
}

/// Reports that `len` bytes of the record are about to be written.
pub fn announce_write(status: &mut Status, book: &Book, len: usize)
    ensures
        final(status).completed == old(status).completed,
        final(status).errors == old(status).errors,
        final(status).description@ == "Writing "@ + book.title@ + " to disk, "@ + decimal(
            (len / 1024) as nat,
        ) + " KiB"@,
{
    let mut d = String::from_str("Writing ");
    d.append(book.title.as_str());
    d.append(" to disk, ");
    let kb = decimal_string((len / 1024) as u64);
    d.append(kb.as_str());
    d.append(" KiB");
    status.description = d;
}

/// Records a failure of the request for `book` with the given message: the
/// record becomes `"Error: <message>"` and the error count rises by one.
pub fn record_error(status: &mut Status, book: &mut Book, message: &str)
    requires
        old(status).errors < u64::MAX,
    ensures
        status_now(*old(book), *final(book), "Error: "@ + message@),
        final(status).description@ == "Error: "@ + message@,
        final(status).completed == old(status).completed,
        final(status).errors == old(status).errors + 1,
{
    let e = String::from_str("Error: ").concat(message);
    book.download_status = e.clone();
    status.description = e;
    status.errors = status.errors + 1;
}

/// Records that no mirror delivered the record's file.
pub fn record_race_failure(status: &mut Status, book: &mut Book, message: &str)
    requires
        old(status).errors < u64::MAX,
    ensures
        status_now(*old(book), *final(book), "Error: "@ + message@),
        final(status).description@ == "Error downloading "@ + old(book).title@ + ": "@
            + message@,
        final(status).completed == old(status).completed,
        final(status).errors == old(status).errors + 1,
{
    let mut d = String::from_str("Error downloading ");
    d.append(book.title.as_str());
    d.append(": ");
    d.append(message);
    status.description = d;
    book.download_status = String::from_str("Error: ").concat(message);
    status.errors = status.errors + 1;
}

/// Ends a download after its `expected` bytes were written and the file was
/// found to hold `on_disk` bytes. Equal sizes: the record becomes `"Done"` and
/// the completed count rises. Different sizes: the write was partial; the
/// record becomes an error naming both sizes and the error count rises.
pub fn finish_write(status: &mut Status, book: &mut Book, expected: usize, on_disk: u64) -> (r:
    Result<(), String>)
    requires
        old(status).completed < u64::MAX,
        old(status).errors < u64::MAX,
    ensures
        r is Ok <==> on_disk == expected,
        on_disk == expected ==> {
            &&& status_now(*old(book), *final(book), "Done"@)
            &&& final(status).completed == old(status).completed + 1
            &&& final(status).errors == old(status).errors
            &&& final(status).description@ == "Downloaded "@ + old(book).title@
        },
        on_disk != expected ==> {
            let m = mismatch_message(expected as nat, on_disk as nat);
            &&& r is Err && r->Err_0@ == m
            &&& status_now(*old(book), *final(book), "Error: "@ + m)
            &&& final(status).completed == old(status).completed
            &&& final(status).errors == old(status).errors + 1
            &&& final(status).description@ == "Error: "@ + m
        },
{
    if on_disk as u128 != expected as u128 {
        let mut m = String::from_str("File size mismatch: expected ");
        let e = decimal_string(expected as u64);
        m.append(e.as_str());
        m.append(" bytes, got ");
        let d = decimal_string(on_disk);
        m.append(d.as_str());
        m.append(" bytes");
        record_error(status, book, m.as_str());
        return Err(m);
    }
    status.completed = status.completed + 1;
    status.description = String::from_str("Downloaded ").concat(book.title.as_str());
    book.download_status = String::from_str("Done");
    Ok(())
}

/// A write cut short is reported as an error that names the size mismatch,
/// and the record does not end as `"Done"`.
pub proof fn lemma_truncated_write_is_error(expected: nat, on_disk: nat)
    requires
        on_disk < expected,
    ensures
        ("Error: "@ + mismatch_message(expected, on_disk)).subrange(0, 27) == "Error: File size mismatch:"@
            + " "@,
        "Error: "@ + mismatch_message(expected, on_disk) != "Done"@,
{
    reveal_strlit("Error: ");
    reveal_strlit("File size mismatch: expected ");
    reveal_strlit("Error: File size mismatch:");
    reveal_strlit(" ");
    reveal_strlit("Done");
    let s = "Error: "@ + mismatch_message(expected, on_disk);
    assert(s[0] == 'E');
    assert(s.subrange(0, 27) =~= "Error: File size mismatch:"@ + " "@);
}

/// Settles the status of a record not yet looked up on disk: `"Done"` where
/// its file is there (`on_disk`), else `""`, ready to be requested.
pub fn check_downloaded(book: &mut Book, on_disk: bool) -> (r: String)
    ensures
        r@ == if on_disk {
            "Done"@
        } else {
            Seq::<char>::empty()
        },
        status_now(*old(book), *final(book), r@),
{
    let status = if on_disk {
        String::from_str("Done")
    } else {
        String::new()
    };
    book.download_status = status.clone();
    status
}

/// ASCII white space, as `char::is_ascii_whitespace` defines it.
pub open spec fn is_ascii_blank(c: char) -> bool {
    c == ' ' || c == '\t' || c == '\n' || c == '\x0C' || c == '\r'
}

/// The run of characters of `s` before its first ASCII white space.
pub open spec fn leading_word(s: Seq<char>) -> Seq<char>
    decreases s.len(),
{
    if s.len() == 0 || is_ascii_blank(s[0]) {
        Seq::empty()
    } else {
        seq![s[0]] + leading_word(s.subrange(1, s.len() as int))
    }
}

/// The words of `s` between runs of ASCII white space, in order, as
/// `split_ascii_whitespace` yields them.
pub open spec fn ascii_words(s: Seq<char>) -> Seq<Seq<char>>
    decreases s.len(),
    via ascii_words_decreases
{
    if s.len() == 0 {
        Seq::empty()
    } else if is_ascii_blank(s[0]) {
        ascii_words(s.subrange(1, s.len() as int))
    } else {
        let w = leading_word(s);
        seq![w] + ascii_words(s.subrange(w.len() as int, s.len() as int))
    }
}

#[via_fn]
proof fn ascii_words_decreases(s: Seq<char>) {
    lemma_leading_word_len(s);
}

proof fn lemma_leading_word_len(s: Seq<char>)
    ensures
        leading_word(s).len() <= s.len(),
        s.len() > 0 && !is_ascii_blank(s[0]) ==> leading_word(s).len() > 0,
    decreases s.len(),
{
    if s.len() > 0 && !is_ascii_blank(s[0]) {
        lemma_leading_word_len(s.subrange(1, s.len() as int));
    }
}

/// The mirror hosts of a configured list, separated by white space.
pub fn mirror_hosts(list: &str) -> (r: Vec<String>)
    ensures
        r@.map_values(|h: String| h@) == ascii_words(list@),
{
    let v = crate::text::chars_of(list);
    let n = v.len();
    let mut out: Vec<String> = Vec::new();
    let mut i: usize = 0;
    assert(v@.subrange(0, n as int) =~= v@);
    assert(out@.map_values(|h: String| h@) + ascii_words(v@) =~= ascii_words(v@));
    while i < n
        invariant
            n == v.len(),
            i <= n,
            v@ == list@,
            ascii_words(list@) == out@.map_values(|h: String| h@) + ascii_words(
                v@.subrange(i as int, n as int),
            ),
        decreases n - i,
    {
        let ghost rest = v@.subrange(i as int, n as int);
        if is_blank_ascii(v[i]) {
            assert(rest.subrange(1, rest.len() as int) =~= v@.subrange(i + 1, n as int));
            i += 1;
        } else {
            let mut word: Vec<char> = Vec::new();
            let mut j: usize = i;
            assert(rest =~= v@.subrange(j as int, n as int));
            while j < n && !is_blank_ascii(v[j])
                invariant
                    i <= j <= n,
                    n == v.len(),
                    rest == v@.subrange(i as int, n as int),
                    word@ == v@.subrange(i as int, j as int),
                    leading_word(rest) == word@ + leading_word(v@.subrange(j as int, n as int)),
                decreases n - j,
            {
                let ghost tail = v@.subrange(j as int, n as int);
                assert(tail.subrange(1, tail.len() as int) =~= v@.subrange(j + 1, n as int));
                let ghost before = word@;
                word.push(v[j]);
                assert(word@ + leading_word(v@.subrange(j + 1, n as int)) =~= before + (seq![
                    tail[0],
                ] + leading_word(tail.subrange(1, tail.len() as int))));
                j += 1;
                assert(word@ =~= v@.subrange(i as int, j as int));
            }
            assert(leading_word(v@.subrange(j as int, n as int)) =~= Seq::<char>::empty());
            assert(word@ + Seq::<char>::empty() =~= word@);
            assert(rest.subrange(word@.len() as int, rest.len() as int) =~= v@.subrange(
                j as int,
                n as int,
            ));
            let host = crate::text::string_of(&word);
            let ghost before = out@;
            out.push(host);
            assert(out@.map_values(|h: String| h@) =~= before.map_values(|h: String| h@).push(
                word@,
            ));
            assert(out@.map_values(|h: String| h@) + ascii_words(v@.subrange(j as int, n as int))
                =~= before.map_values(|h: String| h@) + (seq![word@] + ascii_words(
                v@.subrange(j as int, n as int),
            )));
            i = j;
        }
    }
    assert(out@.map_values(|h: String| h@) + ascii_words(v@.subrange(n as int, n as int))
        =~= out@.map_values(|h: String| h@));
    out
}

fn is_blank_ascii(c: char) -> (r: bool)
    ensures
        r == is_ascii_blank(c),
{
    c == ' ' || c == '\t' || c == '\n' || c == '\x0C' || c == '\r'
}

} // verus!
