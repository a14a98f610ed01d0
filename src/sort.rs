//! Orders of the live list by one column, and the sort that applies them.
use crate::db::Book;
use crate::text::{
    chars_of, i32_value, last_word, last_word_of, lower_of, lowercase, parse_i32, parses_as_i32,
    str_equal,
};
use std::cmp::Ordering;
use vstd::multiset::Multiset;
use vstd::prelude::*;

verus! {

broadcast use vstd::seq_lib::to_multiset_insert, vstd::seq_lib::group_to_multiset_ensures,
    vstd::multiset::group_multiset_axioms;

/// The reverse of an ordering.
pub open spec fn flip(o: Ordering) -> Ordering {
    match o {
        Ordering::Less => Ordering::Greater,
        Ordering::Equal => Ordering::Equal,
        Ordering::Greater => Ordering::Less,
    }
}

/// The order of two integers.
pub open spec fn int_order(a: int, b: int) -> Ordering {
    if a < b {
        Ordering::Less
    } else if a == b {
        Ordering::Equal
    } else {
        Ordering::Greater
    }
}

/// The lexicographic order of two strings by code point, which is the byte
/// order of their UTF-8 forms that `str`'s `cmp` uses.
pub open spec fn lex_order(a: Seq<char>, b: Seq<char>) -> Ordering
    decreases a.len(),
{
    if a.len() == 0 {
        if b.len() == 0 {
            Ordering::Equal
        } else {
            Ordering::Less
        }
    } else if b.len() == 0 {
        Ordering::Greater
    } else if a[0] != b[0] {
        int_order(a[0] as u32 as int, b[0] as u32 as int)
    } else {
        lex_order(a.subrange(1, a.len() as int), b.subrange(1, b.len() as int))
    }
}

proof fn lemma_lex_flip(a: Seq<char>, b: Seq<char>)
    ensures
        lex_order(b, a) == flip(lex_order(a, b)),
    decreases a.len(),
{
    if a.len() > 0 && b.len() > 0 && a[0] == b[0] {
        lemma_lex_flip(a.subrange(1, a.len() as int), b.subrange(1, b.len() as int));
    }
}

/// The order of two series names: by the number that ends them where both
/// end in one, else by their last words as text; a name without a word
/// comes first.
pub open spec fn series_order(a: Seq<char>, b: Seq<char>) -> Ordering {
    match (last_word(a), last_word(b)) {
        (Some(x), Some(y)) => if parses_as_i32(x) && parses_as_i32(y) {
            int_order(i32_value(x), i32_value(y))
        } else {
            lex_order(x, y)
        },
        (None, None) => Ordering::Equal,
        (None, Some(_)) => Ordering::Less,
        (Some(_), None) => Ordering::Greater,
    }
}

/// The order of two records by the column named `col`; an unknown column
/// leaves all records equal. Duplicates sort the highest count first.
#[verifier::opaque]
pub open spec fn column_order(col: Seq<char>, a: Book, b: Book) -> Ordering {
    if col == "Title"@ {
        lex_order(lower_of(a.title@), lower_of(b.title@))
    } else if col == "Authors"@ {
        lex_order(lower_of(a.authors@), lower_of(b.authors@))
    } else if col == "Series"@ {
        series_order(a.series@, b.series@)
    } else if col == "Year"@ {
        lex_order(a.year@, b.year@)
    } else if col == "Language"@ {
        lex_order(a.language@, b.language@)
    } else if col == "Publisher"@ {
        lex_order(a.publisher@, b.publisher@)
    } else if col == "Duplicates"@ {
        int_order(b.duplicates as int, a.duplicates as int)
    } else if col == "FileSize"@ {
        int_order(a.sizeinbytes as int, b.sizeinbytes as int)
    } else if col == "Format"@ {
        lex_order(lower_of(a.format@), lower_of(b.format@))
    } else {
        Ordering::Equal
    }
}

/// Swapping two records reverses their order, in every column.
pub proof fn lemma_column_order_flips(col: Seq<char>, a: Book, b: Book)
    ensures
        column_order(col, b, a) == flip(column_order(col, a, b)),
{
    reveal(column_order);
    lemma_lex_flip(lower_of(a.title@), lower_of(b.title@));
    lemma_lex_flip(lower_of(a.authors@), lower_of(b.authors@));
    lemma_lex_flip(a.year@, b.year@);
    lemma_lex_flip(a.language@, b.language@);
    lemma_lex_flip(a.publisher@, b.publisher@);
    lemma_lex_flip(lower_of(a.format@), lower_of(b.format@));
    match (last_word(a.series@), last_word(b.series@)) {
        (Some(x), Some(y)) => lemma_lex_flip(x, y),
        _ => {},
    }
}

/// Each record is in order with the next one.
pub open spec fn sorted_by(col: Seq<char>, s: Seq<Book>) -> bool {
    forall|k: int|
        0 <= k < s.len() - 1 ==> #[trigger] column_order(col, s[k], s[k + 1])
            != Ordering::Greater
}

/// `after` holds the records of `before` rearranged by `p` (`after[k]` is
/// `before[p[k]]`, no record twice), and records that compare equal in the
/// column keep their order from `before`.
pub open spec fn stable_arrangement(
    col: Seq<char>,
    before: Seq<Book>,
    after: Seq<Book>,
    p: Seq<int>,
) -> bool {
    &&& p.len() == after.len()
    &&& after.len() == before.len()
    &&& forall|k: int|
        0 <= k < after.len() ==> 0 <= #[trigger] p[k] < before.len() && after[k] == before[p[k]]
    &&& forall|a: int, b: int| 0 <= a < b < after.len() ==> #[trigger] p[a] != #[trigger] p[b]
    &&& forall|a: int, b: int|
        0 <= a < b < after.len() && #[trigger] column_order(col, after[a], after[b])
            == Ordering::Equal ==> p[a] < p[b]
}

fn int_cmp(a: i128, b: i128) -> (r: Ordering)
    ensures
        r == int_order(a as int, b as int),
{
    if a < b {
        Ordering::Less
    } else if a == b {
        Ordering::Equal
    } else {
        Ordering::Greater
    }
}

/// The lexicographic order of two character vectors.
pub fn lex_cmp(a: &Vec<char>, b: &Vec<char>) -> (r: Ordering)
    ensures
        r == lex_order(a@, b@),
{
    let mut i: usize = 0;
    assert(a@.subrange(0, a.len() as int) =~= a@);
    assert(b@.subrange(0, b.len() as int) =~= b@);
    while i < a.len() && i < b.len() && a[i] == b[i]
        invariant
            i <= a.len(),
            i <= b.len(),
            lex_order(a@, b@) == lex_order(
                a@.subrange(i as int, a.len() as int),
                b@.subrange(i as int, b.len() as int),
            ),
        decreases a.len() - i,
    {
        assert(a@.subrange(i as int, a.len() as int).subrange(1, a.len() - i) =~= a@.subrange(
            i + 1,
            a.len() as int,
        ));
        assert(b@.subrange(i as int, b.len() as int).subrange(1, b.len() - i) =~= b@.subrange(
            i + 1,
            b.len() as int,
        ));
        i += 1;
    }
    if i == a.len() {
        if i == b.len() {
            Ordering::Equal
        } else {
            Ordering::Less
        }
    } else if i == b.len() {
        Ordering::Greater
    } else {
        int_cmp(a[i] as u32 as i128, b[i] as u32 as i128)
    }
}

/// The order of two strings, as `str`'s `cmp` gives it.
pub fn str_cmp(a: &str, b: &str) -> (r: Ordering)
    ensures
        r == lex_order(a@, b@),
{
    lex_cmp(&chars_of(a), &chars_of(b))
}

fn lower_cmp(a: &str, b: &str) -> (r: Ordering)
    ensures
        r == lex_order(lower_of(a@), lower_of(b@)),
{
    let la = lowercase(a);
    let lb = lowercase(b);
    str_cmp(la.as_str(), lb.as_str())
}

/// The order of two series names by the number, or failing that the word,
/// that ends them.
pub fn compare_series(a: &str, b: &str) -> (r: Ordering)
    ensures
        r == series_order(a@, b@),
{
    match (last_word_of(a), last_word_of(b)) {
        (Some(x), Some(y)) => match (parse_i32(&x), parse_i32(&y)) {
            (Some(m), Some(n)) => int_cmp(m as i128, n as i128),
            _ => lex_cmp(&x, &y),
        },
        (None, None) => Ordering::Equal,
        (None, Some(_)) => Ordering::Less,
        (Some(_), None) => Ordering::Greater,
    }
}

/// The order of two duplicate counts.
pub fn compare_duplicates(a: usize, b: usize) -> (r: Ordering)
    ensures
        r == int_order(a as int, b as int),
{
    int_cmp(a as i128, b as i128)
}

/// The order of two records by the column named `col`.
pub fn compare_books(col: &str, a: &Book, b: &Book) -> (r: Ordering)
    ensures
        r == column_order(col@, *a, *b),
{
    proof {
        reveal(column_order);
    }
    if str_equal(col, "Title") {
        lower_cmp(a.title.as_str(), b.title.as_str())
    } else if str_equal(col, "Authors") {
        lower_cmp(a.authors.as_str(), b.authors.as_str())
    } else if str_equal(col, "Series") {
        compare_series(a.series.as_str(), b.series.as_str())
    } else if str_equal(col, "Year") {
        str_cmp(a.year.as_str(), b.year.as_str())
    } else if str_equal(col, "Language") {
        str_cmp(a.language.as_str(), b.language.as_str())
    } else if str_equal(col, "Publisher") {
        str_cmp(a.publisher.as_str(), b.publisher.as_str())
    } else if str_equal(col, "Duplicates") {
        compare_duplicates(b.duplicates, a.duplicates)
    } else if str_equal(col, "FileSize") {
        int_cmp(a.sizeinbytes as i128, b.sizeinbytes as i128)
    } else if str_equal(col, "Format") {
        lower_cmp(a.format.as_str(), b.format.as_str())
    } else {
        Ordering::Equal
    }
}

/// Inserting the next record of `all` at `j`, before only records that
/// order after it, keeps the list a stable arrangement of the longer prefix.
proof fn lemma_insert_keeps_arrangement(
    col: Seq<char>,
    all: Seq<Book>,
    b0: Seq<Book>,
    p0: Seq<int>,
    j: int,
    x: Book,
)
    requires
        b0.len() < all.len(),
        0 <= j <= b0.len(),
        x == all[b0.len() as int],
        stable_arrangement(col, all.subrange(0, b0.len() as int), b0, p0),
        forall|k: int| j <= k < b0.len() ==> #[trigger] column_order(col, b0[k], x)
            == Ordering::Greater,
    ensures
        stable_arrangement(
            col,
            all.subrange(0, b0.len() + 1 as int),
            b0.insert(j, x),
            p0.insert(j, b0.len() as int),
        ),
{
    let t = b0.len() as int;
    let p = p0.insert(j, t);
    let books = b0.insert(j, x);
    let before = all.subrange(0, t + 1);
    assert forall|k: int| 0 <= k < books.len() implies 0 <= #[trigger] p[k] < before.len()
        && books[k] == before[p[k]] by {
        if k < j {
            assert(p[k] == p0[k]);
        } else if k > j {
            assert(p[k] == p0[k - 1]);
        }
    }
    assert forall|a: int, b: int| 0 <= a < b < books.len() implies #[trigger] p[a]
        != #[trigger] p[b] by {
        if a < j && b < j {
            assert(p0[a] != p0[b]);
        } else if a > j && b > j {
            assert(p0[a - 1] != p0[b - 1]);
        } else if a < j && b > j {
            assert(p0[a] != p0[b - 1]);
        } else if a < j && b == j {
            assert(0 <= p0[a] < t);
        } else if a == j {
            assert(0 <= p0[b - 1] < t);
        }
    }
    assert forall|a: int, b: int|
        0 <= a < b < books.len() && #[trigger] column_order(col, books[a], books[b])
            == Ordering::Equal implies p[a] < p[b] by {
        if a < j && b < j {
            assert(column_order(col, b0[a], b0[b]) == Ordering::Equal);
        } else if a > j && b > j {
            assert(column_order(col, b0[a - 1], b0[b - 1]) == Ordering::Equal);
        } else if a < j && b > j {
            assert(column_order(col, b0[a], b0[b - 1]) == Ordering::Equal);
        } else if a < j && b == j {
            assert(0 <= p0[a] < t);
        } else if a == j {
            assert(column_order(col, b0[b - 1], x) == Ordering::Greater);
            lemma_column_order_flips(col, b0[b - 1], x);
        }
    }
}

proof fn lemma_increasing_from_below(p: Seq<int>, k: int)
    requires
        0 <= k < p.len(),
        forall|i: int| 0 <= i < p.len() ==> 0 <= #[trigger] p[i],
        forall|a: int, b: int| 0 <= a < b < p.len() ==> #[trigger] p[a] < #[trigger] p[b],
    ensures
        p[k] >= k,
    decreases k,
{
    if k > 0 {
        lemma_increasing_from_below(p, k - 1);
        assert(p[k - 1] < p[k]);
    }
}

proof fn lemma_increasing_from_above(p: Seq<int>, k: int)
    requires
        0 <= k < p.len(),
        forall|i: int| 0 <= i < p.len() ==> #[trigger] p[i] < p.len(),
        forall|a: int, b: int| 0 <= a < b < p.len() ==> #[trigger] p[a] < #[trigger] p[b],
    ensures
        p[k] <= k,
    decreases p.len() - k,
{
    if k < p.len() - 1 {
        lemma_increasing_from_above(p, k + 1);
        assert(p[k] < p[k + 1]);
    }
}

/// Where the column finds every two records equal, a stable arrangement is
/// the list as it was: sorting by an unknown column changes nothing.
pub proof fn lemma_all_equal_keeps_order(
    col: Seq<char>,
    before: Seq<Book>,
    after: Seq<Book>,
    p: Seq<int>,
)
    requires
        stable_arrangement(col, before, after, p),
        forall|a: int, b: int|
            0 <= a < b < after.len() ==> #[trigger] column_order(col, after[a], after[b])
                == Ordering::Equal,
    ensures
        after == before,
{
    assert forall|a: int, b: int| 0 <= a < b < p.len() implies #[trigger] p[a] < #[trigger] p[b] by {
        assert(column_order(col, after[a], after[b]) == Ordering::Equal);
    }
    assert forall|k: int| 0 <= k < after.len() implies after[k] == before[k] by {
        lemma_increasing_from_below(p, k);
        lemma_increasing_from_above(p, k);
    }
    assert(after =~= before);
}

/// Sorts the live list by the column named `col`. The list keeps the same
/// records, and each is in order with the next; records that compare equal
/// keep their relative order (so an unknown column leaves the list as it is).
pub fn sort_books(col: &str, books: &mut Vec<Book>)
    ensures
        final(books)@.to_multiset() == old(books)@.to_multiset(),
        sorted_by(col@, final(books)@),
        exists|p: Seq<int>| stable_arrangement(col@, old(books)@, final(books)@, p),
{
    let mut rest: Vec<Book> = Vec::new();
    std::mem::swap(books, &mut rest);
    let ghost all = rest@;
    assert(books@.to_multiset().len() == 0);
    assert(books@.to_multiset().add(rest@.to_multiset()) =~= all.to_multiset());
    let ghost mut p: Seq<int> = Seq::empty();
    assert(all.subrange(0, 0) =~= Seq::<Book>::empty());
    assert(all.subrange(0, all.len() as int) =~= all);
    while rest.len() > 0
        invariant
            books@.to_multiset().add(rest@.to_multiset()) == all.to_multiset(),
            sorted_by(col@, books@),
            books.len() + rest.len() == all.len(),
            rest@ == all.subrange(books.len() as int, all.len() as int),
            stable_arrangement(col@, all.subrange(0, books.len() as int), books@, p),
        decreases rest.len(),
    {
        let ghost r0 = rest@;
        let ghost b0 = books@;
        let ghost p0 = p;
        let ghost t = books.len() as int;
        let x = rest.remove(0);
        assert(x == all[t]);
        assert(rest@ =~= all.subrange(t + 1, all.len() as int));
        assert(r0.to_multiset().contains(x)) by {
            assert(r0.contains(r0[0]));
        }
        let mut j: usize = books.len();
        while j > 0 && matches!(compare_books(col, &books[j - 1], &x), Ordering::Greater)
            invariant
                j <= books.len(),
                books@ == b0,
                forall|k: int|
                    j <= k < books.len() ==> #[trigger] column_order(col@, books@[k], x)
                        == Ordering::Greater,
            decreases j,
        {
            j -= 1;
        }
        books.insert(j, x);
        proof {
            p = p0.insert(j as int, t);
            lemma_insert_keeps_arrangement(col@, all, b0, p0, j as int, x);
        }
        assert forall|k: int| 0 <= k < books@.len() - 1 implies #[trigger] column_order(
            col@,
            books@[k],
            books@[k + 1],
        ) != Ordering::Greater by {
            if k + 1 < j {
                assert(column_order(col@, b0[k], b0[k + 1]) != Ordering::Greater);
            } else if k + 1 == j {
            } else if k == j {
                lemma_column_order_flips(col@, x, b0[j as int]);
                assert(column_order(col@, b0[j as int], x) == Ordering::Greater);
            } else {
                let k2 = k - 1;
                assert(column_order(col@, b0[k2], b0[k2 + 1]) != Ordering::Greater);
            }
        }
        assert(books@.to_multiset().add(rest@.to_multiset()) =~= all.to_multiset());
    }
    assert(rest@.to_multiset().len() == 0);
    assert(rest@.to_multiset() =~= Multiset::empty());
    assert(books@.to_multiset() =~= all.to_multiset());
    assert(stable_arrangement(col@, all, books@, p));
}

} // verus!
