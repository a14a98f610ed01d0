//! Incremental deduplication: each incoming record either opens a new entry
//! for its work, replaces the kept record of that work, or only raises the
//! kept record's duplicate count.
use crate::db::Book;
use crate::text::{
    all_space, before_char, before_punct, char_count, chars_of, count_char, cut_at_char,
    cut_at_punct, has_prefix, is_blank, lower_of, lowercase, parse_year, str_equal, string_of,
    drop_prefix, strip_all, strip_pattern, strip_prefix, trim, trim_chars, year_value,
};
use vstd::prelude::*;

verus! {

/// The dedup key of a work: its normalized title and its first author token.
pub type KeyModel = (Seq<char>, Seq<char>);

/// The normalized title: lower-cased; a leading "the " and then a leading "a "
/// removed; apostrophes, hyphens and spaces removed; cut at the first ASCII
/// punctuation mark; trimmed.
#[verifier::opaque]
pub open spec fn title_key(title: Seq<char>) -> Seq<char> {
    trim(
        before_punct(
            strip_pattern(
                strip_pattern(
                    strip_pattern(drop_prefix(drop_prefix(lower_of(title), "the "@), "a "@), "'"@),
                    "-"@,
                ),
                " "@,
            ),
        ),
    )
}

/// The first space-delimited token of an authors string.
pub open spec fn author_key(authors: Seq<char>) -> Seq<char> {
    before_char(authors, ' ')
}

pub open spec fn dedup_key(b: Book) -> KeyModel {
    (title_key(b.title@), author_key(b.authors@))
}

pub open spec fn is_epub(b: Book) -> bool {
    b.format@ == "epub"@
}

pub open spec fn is_acrobat(b: Book) -> bool {
    "Acrobat"@.len() <= b.publisher@.len() && b.publisher@.subrange(0, "Acrobat"@.len() as int)
        == "Acrobat"@
}

/// The incoming record is more than ten times the size of the kept one.
pub open spec fn oversized(old: Book, new: Book) -> bool {
    new.sizeinbytes > old.sizeinbytes * 10
}

/// The tie-break between the kept record `old` and an incoming record `new`
/// of the same work: true when `new` replaces `old`.
#[verifier::opaque]
pub open spec fn prefers_new(old: Book, new: Book) -> bool {
    if is_epub(old) != is_epub(new) {
        is_epub(new)
    } else if oversized(old, new) {
        false
    } else if is_acrobat(old) != is_acrobat(new) {
        is_acrobat(old)
    } else if is_blank(old.publisher@) != is_blank(new.publisher@) {
        is_blank(old.publisher@)
    } else if year_value(old.year@) == year_value(new.year@) {
        count_char(old.authors@, ',') < count_char(new.authors@, ',')
    } else {
        year_value(old.year@) < year_value(new.year@)
    }
}

/// How many times `k` occurs in `h`.
pub open spec fn occurrences(h: Seq<KeyModel>, k: KeyModel) -> nat
    decreases h.len(),
{
    if h.len() == 0 {
        0
    } else {
        occurrences(h.drop_last(), k) + if h.last() == k {
            1nat
        } else {
            0nat
        }
    }
}

/// The live list after merging `b` into `books`: appended with a count of 1
/// if its work is new, else the work's slot holds the tie-break's winner with
/// the count raised by one.
pub open spec fn merged(books: Seq<Book>, b: Book) -> Seq<Book> {
    if exists|i: int| 0 <= i < books.len() && dedup_key(#[trigger] books[i]) == dedup_key(b) {
        let i = choose|i: int| 0 <= i < books.len() && dedup_key(#[trigger] books[i]) == dedup_key(b);
        books.update(
            i,
            if prefers_new(books[i], b) {
                b.with_duplicates(books[i].duplicates + 1)
            } else {
                books[i].with_duplicates(books[i].duplicates + 1)
            },
        )
    } else {
        books.push(b.with_duplicates(1))
    }
}

/// The live list after merging each record of `incoming`, in order.
pub open spec fn merge_all(books: Seq<Book>, incoming: Seq<Book>) -> Seq<Book>
    decreases incoming.len(),
{
    if incoming.len() == 0 {
        books
    } else {
        merged(merge_all(books, incoming.drop_last()), incoming.last())
    }
}

/// The dedup key of a record, as strings.
struct Key {
    title: String,
    authors: String,
}

/// The index entry of one work: where its kept record stands in the live
/// list, and how many records of it have been seen.
struct BookIndex {
    key: Key,
    current_index: usize,
    count: usize,
}

/// The dedup index that goes with one live list of records.
pub struct UIFilter {
    seen: Vec<BookIndex>,
    history: Ghost<Seq<KeyModel>>,
}

impl UIFilter {
    /// The keys of all records merged so far, in order of arrival.
    pub closed spec fn history(&self) -> Seq<KeyModel> {
        self.history@
    }

    /// The index describes `books`: entry `i` belongs to the record at `i`,
    /// keys are distinct, each kept record's duplicate count is the number of
    /// records seen with its key, and every key seen has a kept record.
    pub closed spec fn consistent(&self, books: Seq<Book>) -> bool {
        &&& self.seen.len() == books.len()
        &&& forall|i: int|
            0 <= i < books.len() ==> {
                let e = #[trigger] self.seen@[i];
                &&& e.current_index == i
                &&& (e.key.title@, e.key.authors@) == dedup_key(books[i])
                &&& e.count == books[i].duplicates
                &&& books[i].duplicates == occurrences(self.history@, dedup_key(books[i]))
                &&& books[i].duplicates > 0
            }
        &&& forall|i: int, j: int|
            0 <= i < j < books.len() ==> dedup_key(#[trigger] books[i]) != dedup_key(
                #[trigger] books[j],
            )
        &&& forall|k: KeyModel|
            occurrences(self.history@, k) > 0 ==> exists|i: int|
                0 <= i < books.len() && dedup_key(#[trigger] books[i]) == k
    }

    /// An empty index, for an empty live list.
    pub fn new() -> (r: UIFilter)
        ensures
            r.history() == Seq::<KeyModel>::empty(),
            r.consistent(Seq::empty()),
    {
        UIFilter { seen: Vec::new(), history: Ghost(Seq::empty()) }
    }
}

impl Default for UIFilter {
    fn default() -> (r: Self)
        ensures
            r.history() == Seq::<KeyModel>::empty(),
            r.consistent(Seq::empty()),
    {
        UIFilter::new()
    }
}

proof fn lemma_occurrences_push(h: Seq<KeyModel>, x: KeyModel, k: KeyModel)
    ensures
        occurrences(h.push(x), k) == occurrences(h, k) + if x == k {
            1nat
        } else {
            0nat
        },
{
    assert(h.push(x).drop_last() =~= h);
}

proof fn lemma_occurrences_bounded(h: Seq<KeyModel>, k: KeyModel)
    ensures
        occurrences(h, k) <= h.len(),
    decreases h.len(),
{
    if h.len() > 0 {
        lemma_occurrences_bounded(h.drop_last(), k);
    }
}

/// The normalized title of `title`: lower-cased; a leading "the " and then a
/// leading "a " removed; apostrophes, hyphens and spaces removed; cut at the
/// first ASCII punctuation mark; trimmed.
pub fn clean_title(title: &str) -> (r: String)
    ensures
        r@ == title_key(title@),
{
    proof {
        reveal_strlit("the ");
        reveal_strlit("a ");
        reveal_strlit("'");
        reveal_strlit("-");
        reveal_strlit(" ");
    }
    let lower = lowercase(title);
    let s = chars_of(lower.as_str());
    let s = strip_prefix(&s, &chars_of("the "));
    let s = strip_prefix(&s, &chars_of("a "));
    let s = strip_all(&s, &chars_of("'"));
    let s = strip_all(&s, &chars_of("-"));
    let s = strip_all(&s, &chars_of(" "));
    let s = cut_at_punct(&s);
    let s = trim_chars(&s);
    proof {
        reveal(title_key);
    }
    string_of(&s)
}

/// The first space-delimited token of an authors string.
pub fn first_author(authors: &str) -> (r: String)
    ensures
        r@ == author_key(authors@),
{
    let v = chars_of(authors);
    string_of(&cut_at_char(&v, ' '))
}

/// Whether the incoming record `new` should replace the kept record `old` of
/// the same work.
pub fn compare(old: &Book, new: &Book) -> (r: bool)
    ensures
        r == prefers_new(*old, *new),
{
    proof {
        reveal(prefers_new);
    }
    let old_epub = str_equal(old.format.as_str(), "epub");
    let new_epub = str_equal(new.format.as_str(), "epub");
    if old_epub != new_epub {
        return new_epub;
    }
    if (new.sizeinbytes as i128) > (old.sizeinbytes as i128) * 10 {
        return false;
    }
    let old_acrobat = has_prefix(old.publisher.as_str(), "Acrobat");
    let new_acrobat = has_prefix(new.publisher.as_str(), "Acrobat");
    if old_acrobat != new_acrobat {
        return old_acrobat;
    }
    let old_blank = all_space(old.publisher.as_str());
    let new_blank = all_space(new.publisher.as_str());
    if old_blank != new_blank {
        return old_blank;
    }
    let old_year = parse_year(old.year.as_str());
    let new_year = parse_year(new.year.as_str());
    if old_year == new_year {
        char_count(old.authors.as_str(), ',') < char_count(new.authors.as_str(), ',')
    } else {
        old_year < new_year
    }
}

/// The position of the entry with the given key, if there is one.
fn find_entry(seen: &Vec<BookIndex>, title: &String, authors: &String) -> (r: Option<usize>)
    ensures
        match r {
            Some(i) => i < seen.len() && seen@[i as int].key.title@ == title@
                && seen@[i as int].key.authors@ == authors@,
            None => forall|i: int|
                0 <= i < seen.len() ==> (#[trigger] seen@[i]).key.title@ != title@
                    || seen@[i].key.authors@ != authors@,
        },
{
    let mut i: usize = 0;
    while i < seen.len()
        invariant
            i <= seen.len(),
            forall|k: int|
                0 <= k < i ==> (#[trigger] seen@[k]).key.title@ != title@ || seen@[k].key.authors@
                    != authors@,
        decreases seen.len() - i,
    {
        if seen[i].key.title == *title && seen[i].key.authors == *authors {
            return Some(i);
        }
        i += 1;
    }
    None
}

/// Merges one incoming record into the live list `books`. A record of a new
/// work is appended with a duplicate count of 1. Otherwise the count of the
/// work rises by one; the incoming record replaces the kept one in place when
/// it wins the tie-break, else the kept one stays and takes the new count.
pub fn filter_update_booklist(f: &mut UIFilter, books: &mut Vec<Book>, newbook: &Book)
    requires
        old(f).consistent(old(books)@),
        old(f).history().len() < usize::MAX,
    ensures
        final(f).consistent(final(books)@),
        final(f).history() == old(f).history().push(dedup_key(*newbook)),
        final(books)@ == merged(old(books)@, *newbook),
        (forall|i: int|
            0 <= i < old(books).len() ==> dedup_key(#[trigger] old(books)@[i]) != dedup_key(
                *newbook,
            )) ==> final(books)@ == old(books)@.push(newbook.with_duplicates(1)),
        forall|i: int|
            0 <= i < old(books).len() && dedup_key(#[trigger] old(books)@[i]) == dedup_key(
                *newbook,
            ) ==> final(books)@ == old(books)@.update(
                i,
                if prefers_new(old(books)@[i], *newbook) {
                    newbook.with_duplicates(old(books)@[i].duplicates + 1)
                } else {
                    old(books)@[i].with_duplicates(old(books)@[i].duplicates + 1)
                },
            ),
{
    let title = clean_title(newbook.title.as_str());
    let authors = first_author(newbook.authors.as_str());
    let ghost key = dedup_key(*newbook);
    let ghost h0 = f.history@;
    let ghost b0 = books@;
    let ghost s0 = f.seen@;
    assert((title@, authors@) == key);
    proof {
        lemma_occurrences_push(h0, key, key);
        assert forall|k: KeyModel| k != key implies occurrences(h0.push(key), k) == occurrences(
            h0,
            k,
        ) by {
            lemma_occurrences_push(h0, key, k);
        }
    }
    match find_entry(&f.seen, &title, &authors) {
        None => {
            assert forall|i: int| 0 <= i < b0.len() implies dedup_key(#[trigger] b0[i]) != key by {
                assert(f.seen@[i].current_index == i);
            }
            assert(occurrences(h0, key) == 0);
            let mut b = newbook.cloned();
            b.duplicates = 1;
            let n = books.len();
            books.push(b);
            f.seen.push(BookIndex { key: Key { title, authors }, current_index: n, count: 1 });
            f.history = Ghost(h0.push(key));
            assert(books@ == b0.push(newbook.with_duplicates(1)));
            assert(!exists|j: int| 0 <= j < b0.len() && dedup_key(#[trigger] b0[j]) == key);
            assert forall|i: int| 0 <= i < books@.len() implies {
                let e = #[trigger] f.seen@[i];
                &&& e.current_index == i
                &&& (e.key.title@, e.key.authors@) == dedup_key(books@[i])
                &&& e.count == books@[i].duplicates
                &&& books@[i].duplicates == occurrences(f.history@, dedup_key(books@[i]))
                &&& books@[i].duplicates > 0
            } by {
                if i < n {
                    assert(s0[i].current_index == i);
                    lemma_occurrences_push(h0, key, dedup_key(b0[i]));
                }
            }
            assert forall|i: int, j: int| 0 <= i < j < books@.len() implies dedup_key(
                #[trigger] books@[i],
            ) != dedup_key(#[trigger] books@[j]) by {
                if j < n {
                    assert(dedup_key(b0[i]) != dedup_key(b0[j]));
                } else {
                    assert(dedup_key(b0[i]) != key);
                }
            }
            assert forall|k: KeyModel| occurrences(f.history@, k) > 0 implies exists|i: int|
                0 <= i < books@.len() && dedup_key(#[trigger] books@[i]) == k by {
                if k == key {
                    assert(dedup_key(books@[n as int]) == k);
                } else {
                    lemma_occurrences_push(h0, key, k);
                    let i = choose|i: int| 0 <= i < b0.len() && dedup_key(#[trigger] b0[i]) == k;
                    assert(dedup_key(books@[i]) == k);
                }
            }
        },
        Some(i) => {
            proof {
                lemma_occurrences_bounded(h0, key);
            }
            let count = f.seen[i].count + 1;
            let wins = compare(&books[i], newbook);
            let mut b = if wins {
                newbook.cloned()
            } else {
                books[i].cloned()
            };
            b.duplicates = count;
            books.set(i, b);
            f.seen.set(i, BookIndex { key: Key { title, authors }, current_index: i, count });
            f.history = Ghost(h0.push(key));
            assert(s0[i as int].current_index == i);
            assert forall|j: int| 0 <= j < books@.len() implies {
                let e = #[trigger] f.seen@[j];
                &&& e.current_index == j
                &&& (e.key.title@, e.key.authors@) == dedup_key(books@[j])
                &&& e.count == books@[j].duplicates
                &&& books@[j].duplicates == occurrences(f.history@, dedup_key(books@[j]))
                &&& books@[j].duplicates > 0
            } by {
                if j != i {
                    assert(s0[j].current_index == j);
                    assert(dedup_key(b0[j]) != dedup_key(b0[i as int]));
                    lemma_occurrences_push(h0, key, dedup_key(b0[j]));
                }
            }
            assert forall|a: int, c: int| 0 <= a < c < books@.len() implies dedup_key(
                #[trigger] books@[a],
            ) != dedup_key(#[trigger] books@[c]) by {
                assert(dedup_key(b0[a]) != dedup_key(b0[c]));
            }
            assert forall|j: int| 0 <= j < b0.len() && dedup_key(#[trigger] b0[j]) == key implies j
                == i by {
                if j != i {
                    assert(dedup_key(b0[j]) != dedup_key(b0[i as int]));
                }
            }
            assert(dedup_key(b0[i as int]) == key);
            assert(books@ == merged(b0, *newbook));
            assert forall|k: KeyModel| occurrences(f.history@, k) > 0 implies exists|j: int|
                0 <= j < books@.len() && dedup_key(#[trigger] books@[j]) == k by {
                if k == key {
                    assert(dedup_key(books@[i as int]) == k);
                } else {
                    lemma_occurrences_push(h0, key, k);
                    let j = choose|j: int| 0 <= j < b0.len() && dedup_key(#[trigger] b0[j]) == k;
                    assert(dedup_key(books@[j]) == k);
                }
            }
        },
    }
}

/// Merges a batch of incoming records into the results, taking them from the
/// end of the batch. With `deduplicate` each goes through the merger, else it
/// is appended. Where the results hold an error (no list yet), the batch
/// starts a new list: as it is without `deduplicate`, merged into an empty
/// list with a fresh index with it.
pub fn read_results(
    results: &mut Result<Vec<Book>, String>,
    newbooks: Vec<Book>,
    uifilter: &mut UIFilter,
    deduplicate: bool,
)
    requires
        deduplicate && (*old(results)) is Ok ==> old(uifilter).consistent((*old(results))->Ok_0@),
        old(uifilter).history().len() + newbooks.len() < usize::MAX,
    ensures
        (*final(results)) is Ok,
        (*old(results)) is Ok && deduplicate ==> (*final(results))->Ok_0@ == merge_all(
            (*old(results))->Ok_0@,
            newbooks@.reverse(),
        ) && final(uifilter).consistent((*final(results))->Ok_0@),
        (*old(results)) is Ok && !deduplicate ==> (*final(results))->Ok_0@ == (*old(results))->Ok_0@
            + newbooks@.reverse(),
        (*old(results)) is Err && deduplicate ==> (*final(results))->Ok_0@ == merge_all(
            Seq::empty(),
            newbooks@.reverse(),
        ) && final(uifilter).consistent((*final(results))->Ok_0@),
        (*old(results)) is Err && !deduplicate ==> (*final(results))->Ok_0@ == newbooks@,
{
    if results.is_err() {
        if !deduplicate {
            *results = Ok(newbooks);
            return;
        }
        *results = Ok(Vec::new());
        *uifilter = UIFilter::new();
    }
    let ghost start = (*results)->Ok_0@;
    let ghost h0 = uifilter.history().len();
    let ghost all = newbooks@;
    let n = newbooks.len();
    let mut incoming = newbooks;
    match results {
        Ok(list) => {
            assert(all.subrange(n as int, n as int).reverse() =~= Seq::<Book>::empty());
            assert(start + Seq::<Book>::empty() =~= start);
            while incoming.len() > 0
                invariant
                    n == all.len(),
                    incoming.len() <= n,
                    incoming@ == all.subrange(0, incoming.len() as int),
                    deduplicate ==> list@ == merge_all(
                        start,
                        all.subrange(incoming.len() as int, n as int).reverse(),
                    ),
                    deduplicate ==> uifilter.consistent(list@),
                    deduplicate ==> uifilter.history().len() + incoming.len() == h0 + n,
                    h0 + n < usize::MAX,
                    !deduplicate ==> list@ == start + all.subrange(
                        incoming.len() as int,
                        n as int,
                    ).reverse(),
                decreases incoming.len(),
            {
                let m = incoming.len() - 1;
                let ghost done = all.subrange(m + 1, n as int).reverse();
                let ghost with = all.subrange(m as int, n as int).reverse();
                assert(with.len() == done.len() + 1);
                assert forall|k: int| 0 <= k < with.len() implies with[k] == done.push(
                    all[m as int],
                )[k] by {
                    if k < done.len() {
                        assert(done[k] == all[n - 1 - k]);
                    }
                }
                assert(with =~= done.push(all[m as int]));
                assert(done.push(all[m as int]).drop_last() =~= done);
                match incoming.pop() {
                    Some(newbook) => {
                        assert(incoming@ =~= all.subrange(0, m as int));
                        assert(newbook == all[m as int]);
                        if deduplicate {
                            filter_update_booklist(uifilter, list, &newbook);
                        } else {
                            list.push(newbook);
                            assert(start + done.push(all[m as int]) =~= (start + done).push(
                                all[m as int],
                            ));
                        }
                    },
                    None => {},
                }
            }
            assert(all.subrange(0, n as int) =~= all);
        },
        Err(_) => {},
    }
}

/// After any run of merges from an empty index and list, the live list holds
/// exactly one record per work seen, none for a work not seen, and the
/// duplicate count of each kept record is the number of records seen with its
/// key.
pub proof fn lemma_one_record_per_key(f: &UIFilter, books: Seq<Book>)
    requires
        f.consistent(books),
    ensures
        forall|i: int, j: int|
            0 <= i < j < books.len() ==> dedup_key(#[trigger] books[i]) != dedup_key(
                #[trigger] books[j],
            ),
        forall|i: int|
            0 <= i < books.len() ==> (#[trigger] books[i]).duplicates == occurrences(
                f.history(),
                dedup_key(books[i]),
            ) && occurrences(f.history(), dedup_key(books[i])) > 0,
        forall|k: KeyModel|
            occurrences(f.history(), k) > 0 ==> exists|i: int|
                0 <= i < books.len() && dedup_key(#[trigger] books[i]) == k,
{
    assert forall|i: int| 0 <= i < books.len() implies (#[trigger] books[i]).duplicates
        == occurrences(f.history(), dedup_key(books[i])) && occurrences(
        f.history(),
        dedup_key(books[i]),
    ) > 0 by {
        assert(f.seen@[i].current_index == i);
    }
}

/// The dedup keys of a sequence of records.
pub open spec fn keys_of(s: Seq<Book>) -> Seq<KeyModel> {
    s.map_values(|b: Book| dedup_key(b))
}

/// For every sequence of incoming records merged into an empty list, the list
/// holds exactly one record per key seen, none for a key not seen, and each
/// kept record's duplicate count is the number of incoming records with its
/// key.
pub proof fn lemma_merge_all_one_per_key(incoming: Seq<Book>)
    requires
        incoming.len() < usize::MAX,
    ensures
        ({
            let l = merge_all(Seq::empty(), incoming);
            &&& forall|i: int, j: int|
                0 <= i < j < l.len() ==> dedup_key(#[trigger] l[i]) != dedup_key(#[trigger] l[j])
            &&& forall|i: int|
                0 <= i < l.len() ==> (#[trigger] l[i]).duplicates == occurrences(
                    keys_of(incoming),
                    dedup_key(l[i]),
                ) && occurrences(keys_of(incoming), dedup_key(l[i])) > 0
            &&& forall|k: KeyModel|
                occurrences(keys_of(incoming), k) > 0 ==> exists|i: int|
                    0 <= i < l.len() && dedup_key(#[trigger] l[i]) == k
        }),
    decreases incoming.len(),
{
    if incoming.len() > 0 {
        let prev = incoming.drop_last();
        let x = incoming.last();
        let kx = dedup_key(x);
        lemma_merge_all_one_per_key(prev);
        lemma_occurrences_bounded(keys_of(prev), kx);
        let l0 = merge_all(Seq::empty(), prev);
        let l = merge_all(Seq::empty(), incoming);
        assert(l == merged(l0, x));
        assert(keys_of(incoming) =~= keys_of(prev).push(kx));
        assert forall|k: KeyModel| #[trigger]
            occurrences(keys_of(incoming), k) == occurrences(keys_of(prev), k) + if kx == k {
                1nat
            } else {
                0nat
            } by {
            lemma_occurrences_push(keys_of(prev), kx, k);
        }
        if exists|i: int| 0 <= i < l0.len() && dedup_key(#[trigger] l0[i]) == kx {
            let i = choose|i: int| 0 <= i < l0.len() && dedup_key(#[trigger] l0[i]) == kx;
            assert(dedup_key(l[i]) == kx);
            assert(l[i].duplicates == l0[i].duplicates + 1);
            assert forall|j: int| 0 <= j < l.len() implies (#[trigger] l[j]).duplicates
                == occurrences(keys_of(incoming), dedup_key(l[j])) && occurrences(
                keys_of(incoming),
                dedup_key(l[j]),
            ) > 0 by {
                if j != i {
                    if j < i {
                        assert(dedup_key(l0[j]) != dedup_key(l0[i]));
                    } else {
                        assert(dedup_key(l0[i]) != dedup_key(l0[j]));
                    }
                    assert(l[j] == l0[j]);
                }
            }
            assert forall|j: int| 0 <= j < l.len() && j != i implies #[trigger] l[j] == l0[j]
                && dedup_key(l0[j]) != kx by {
                if j < i {
                    assert(dedup_key(l0[j]) != dedup_key(l0[i]));
                } else {
                    assert(dedup_key(l0[i]) != dedup_key(l0[j]));
                }
            }
            assert forall|a: int, c: int| 0 <= a < c < l.len() implies dedup_key(
                #[trigger] l[a],
            ) != dedup_key(#[trigger] l[c]) by {
                assert(dedup_key(l0[a]) != dedup_key(l0[c]));
            }
            assert forall|k: KeyModel| occurrences(keys_of(incoming), k) > 0 implies exists|j: int|
                0 <= j < l.len() && dedup_key(#[trigger] l[j]) == k by {
                if k != kx {
                    let j = choose|j: int| 0 <= j < l0.len() && dedup_key(#[trigger] l0[j]) == k;
                    assert(dedup_key(l[j]) == k);
                }
            }
        } else {
            assert(occurrences(keys_of(prev), kx) == 0);
            assert(l == l0.push(x.with_duplicates(1)));
            assert forall|j: int| 0 <= j < l.len() implies (#[trigger] l[j]).duplicates
                == occurrences(keys_of(incoming), dedup_key(l[j])) && occurrences(
                keys_of(incoming),
                dedup_key(l[j]),
            ) > 0 by {
                if j < l0.len() {
                    assert(l[j] == l0[j]);
                    assert(dedup_key(l0[j]) != kx);
                }
            }
            assert forall|a: int, c: int| 0 <= a < c < l.len() implies dedup_key(
                #[trigger] l[a],
            ) != dedup_key(#[trigger] l[c]) by {
                if c < l0.len() {
                    assert(dedup_key(l0[a]) != dedup_key(l0[c]));
                } else {
                    assert(dedup_key(l0[a]) != kx);
                }
            }
            assert forall|k: KeyModel| occurrences(keys_of(incoming), k) > 0 implies exists|j: int|
                0 <= j < l.len() && dedup_key(#[trigger] l[j]) == k by {
                if k != kx {
                    let j = choose|j: int| 0 <= j < l0.len() && dedup_key(#[trigger] l0[j]) == k;
                    assert(dedup_key(l[j]) == k);
                } else {
                    assert(dedup_key(l[l0.len() as int]) == k);
                }
            }
        }
    }
}

/// Whichever arrives first, an epub record wins the tie-break against a
/// record of another format.
pub proof fn lemma_epub_wins(a: Book, b: Book)
    requires
        is_epub(a),
        !is_epub(b),
    ensures
        prefers_new(b, a),
        !prefers_new(a, b),
{
    reveal(prefers_new);
}

/// The size rule rejects an incoming record only when it is strictly more
/// than ten times the kept one: exactly ten times passes on to the later
/// rules, ten times plus one byte loses.
pub proof fn lemma_oversize_is_strict(old: Book, new: Book)
    requires
        is_epub(old) == is_epub(new),
    ensures
        new.sizeinbytes == old.sizeinbytes * 10 ==> !oversized(old, new),
        new.sizeinbytes == old.sizeinbytes * 10 + 1 ==> oversized(old, new) && !prefers_new(
            old,
            new,
        ),
{
    reveal(prefers_new);
}

} // verus!
