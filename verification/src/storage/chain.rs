//! Records that are chained from page to page.

use vstd::prelude::*;

use super::codec::{decode_page, record_in, PageRecord};
use super::pager::{agree_outside, has_page, page_at, page_count, PageId, Pager};

verus! {

/// A record that holds some items and says in which page the chain goes on.
pub trait Chained: PageRecord {
    type Item;

    /// The page after the record's, if there is one.
    spec fn next_of(v: Self::V) -> Option<PageId>;

    /// The items that the record holds.
    spec fn items_of(v: Self::V) -> Seq<Self::Item>;

    /// The page after this record's, if there is one.
    fn next_page(&self) -> (r: Option<PageId>)
        ensures
            r == Self::next_of(self@),
    ;
}

/// The record on page `id`.
pub open spec fn link_at<T: Chained>(file: Seq<u8>, id: PageId) -> Option<T::V> {
    if has_page(file, id as int) {
        record_in::<T>(page_at(file, id as int))
    } else {
        None
    }
}

/// From `head` the chain comes to its end within `n` pages, all of them from
/// page `low` to before `high`.
pub open spec fn ends_within<T: Chained>(file: Seq<u8>, head: Option<PageId>, low: int, high: int, n: nat) -> bool
    decreases n,
{
    match head {
        None => true,
        Some(id) => {
            &&& n > 0
            &&& low <= id < high
            &&& link_at::<T>(file, id) is Some
            &&& ends_within::<T>(file, T::next_of(link_at::<T>(file, id)->0), low, high, (n - 1) as nat)
        },
    }
}

/// The items of the first `n` pages of a chain.
pub open spec fn items_within<T: Chained>(file: Seq<u8>, head: Option<PageId>, n: nat) -> Seq<T::Item>
    decreases n,
{
    match head {
        None => Seq::empty(),
        Some(id) => if n == 0 {
            Seq::empty()
        } else {
            let link = link_at::<T>(file, id)->0;
            T::items_of(link) + items_within::<T>(file, T::next_of(link), (n - 1) as nat)
        },
    }
}

/// From `head` a chain of pages between `low` and `high` comes to an end.
pub open spec fn is_chain<T: Chained>(file: Seq<u8>, head: Option<PageId>, low: int, high: int) -> bool {
    exists|n: nat| ends_within::<T>(file, head, low, high, n)
}

/// The items of a chain.
pub open spec fn chained<T: Chained>(file: Seq<u8>, head: Option<PageId>) -> Seq<T::Item> {
    items_within::<T>(
        file,
        head,
        choose|n: nat| ends_within::<T>(file, head, 0, page_count(file), n),
    )
}

/// How far one looks past a chain's end makes no difference.
proof fn lemma_any_reach<T: Chained>(file: Seq<u8>, head: Option<PageId>, low: int, high: int, n: nat, m: nat)
    requires
        ends_within::<T>(file, head, low, high, n),
        n <= m,
    ensures
        ends_within::<T>(file, head, low, high, m),
        items_within::<T>(file, head, n) == items_within::<T>(file, head, m),
    decreases n,
{
    if let Some(id) = head {
        let next = T::next_of(link_at::<T>(file, id)->0);
        lemma_any_reach::<T>(file, next, low, high, (n - 1) as nat, (m - 1) as nat);
    }
}

/// A chain between narrow limits is one between wide ones.
proof fn lemma_wider<T: Chained>(file: Seq<u8>, head: Option<PageId>, low: int, high: int, low2: int, high2: int, n: nat)
    requires
        ends_within::<T>(file, head, low, high, n),
        low2 <= low,
        high <= high2,
    ensures
        ends_within::<T>(file, head, low2, high2, n),
    decreases n,
{
    if let Some(id) = head {
        let next = T::next_of(link_at::<T>(file, id)->0);
        lemma_wider::<T>(file, next, low, high, low2, high2, (n - 1) as nat);
    }
}

proof fn lemma_in_file<T: Chained>(file: Seq<u8>, head: Option<PageId>, low: int, high: int, n: nat)
    requires
        ends_within::<T>(file, head, low, high, n),
    ensures
        ends_within::<T>(file, head, 0, page_count(file), n),
    decreases n,
{
    if let Some(id) = head {
        let next = T::next_of(link_at::<T>(file, id)->0);
        lemma_in_file::<T>(file, next, low, high, (n - 1) as nat);
    }
}

/// The items of a chain are those up to its end, wherever that is.
pub proof fn lemma_chain<T: Chained>(file: Seq<u8>, head: Option<PageId>, low: int, high: int, n: nat)
    requires
        ends_within::<T>(file, head, low, high, n),
    ensures
        chained::<T>(file, head) == items_within::<T>(file, head, n),
{
    lemma_in_file::<T>(file, head, low, high, n);
    let len = page_count(file);
    let m = choose|m: nat| ends_within::<T>(file, head, 0, len, m);
    if n <= m {
        lemma_any_reach::<T>(file, head, 0, len, n, m);
    } else {
        lemma_any_reach::<T>(file, head, 0, len, m, n);
    }
}

/// A chain is one between any wider limits.
pub proof fn lemma_chain_widened<T: Chained>(
    file: Seq<u8>,
    head: Option<PageId>,
    low: int,
    high: int,
    low2: int,
    high2: int,
)
    requires
        is_chain::<T>(file, head, low, high),
        low2 <= low,
        high <= high2,
    ensures
        is_chain::<T>(file, head, low2, high2),
{
    let n = choose|n: nat| ends_within::<T>(file, head, low, high, n);
    lemma_wider::<T>(file, head, low, high, low2, high2, n);
}

/// The pages of a chain are in the file.
pub proof fn lemma_chain_is_in_file<T: Chained>(file: Seq<u8>, head: Option<PageId>, low: int, high: int)
    requires
        is_chain::<T>(file, head, low, high),
    ensures
        is_chain::<T>(file, head, 0, page_count(file)),
{
    let n = choose|n: nat| ends_within::<T>(file, head, low, high, n);
    lemma_in_file::<T>(file, head, low, high, n);
}

/// Without its first page a chain is still one.
pub proof fn lemma_chain_shortened<T: Chained>(file: Seq<u8>, id: PageId, low: int, high: int)
    requires
        is_chain::<T>(file, Some(id), low, high),
    ensures
        low <= id < high,
        link_at::<T>(file, id) is Some,
        is_chain::<T>(file, T::next_of(link_at::<T>(file, id)->0), low, high),
        chained::<T>(file, Some(id)) == T::items_of(link_at::<T>(file, id)->0) + chained::<T>(
            file,
            T::next_of(link_at::<T>(file, id)->0),
        ),
{
    let n = choose|n: nat| ends_within::<T>(file, Some(id), low, high, n);
    let next = T::next_of(link_at::<T>(file, id)->0);
    assert(ends_within::<T>(file, next, low, high, (n - 1) as nat));
    lemma_chain_grown::<T>(file, id, low, high);
}

/// A page in front of a chain makes a longer chain.
pub proof fn lemma_chain_grown<T: Chained>(file: Seq<u8>, id: PageId, low: int, high: int)
    requires
        low <= id < high,
        link_at::<T>(file, id) is Some,
        is_chain::<T>(file, T::next_of(link_at::<T>(file, id)->0), low, high),
    ensures
        is_chain::<T>(file, Some(id), low, high),
        chained::<T>(file, Some(id)) == T::items_of(link_at::<T>(file, id)->0) + chained::<T>(
            file,
            T::next_of(link_at::<T>(file, id)->0),
        ),
{
    let next = T::next_of(link_at::<T>(file, id)->0);
    let n = choose|n: nat| ends_within::<T>(file, next, low, high, n);
    lemma_chain::<T>(file, next, low, high, n);
    assert(ends_within::<T>(file, Some(id), low, high, n + 1));
    lemma_chain::<T>(file, Some(id), low, high, n + 1);
}

/// An end is a chain that holds nothing.
pub proof fn lemma_empty_chain<T: Chained>(file: Seq<u8>, low: int, high: int)
    ensures
        is_chain::<T>(file, None, low, high),
        chained::<T>(file, None) == Seq::<T::Item>::empty(),
{
    assert(ends_within::<T>(file, None, low, high, 0));
    lemma_chain::<T>(file, None, low, high, 0);
}

proof fn lemma_links_kept<T: Chained>(
    a: Seq<u8>,
    b: Seq<u8>,
    head: Option<PageId>,
    low: int,
    high: int,
    start: int,
    end: int,
    n: nat,
)
    requires
        ends_within::<T>(a, head, low, high, n),
        agree_outside(a, b, start, end),
        end <= low || high <= start,
    ensures
        ends_within::<T>(b, head, low, high, n),
        items_within::<T>(b, head, n) == items_within::<T>(a, head, n),
    decreases n,
{
    if let Some(id) = head {
        assert(page_at(b, id as int) == page_at(a, id as int));
        lemma_links_kept::<T>(
            a,
            b,
            T::next_of(link_at::<T>(a, id)->0),
            low,
            high,
            start,
            end,
            (n - 1) as nat,
        );
    }
}

/// A chain is not affected by pages outside its limits.
pub proof fn chains_are_kept<T: Chained>(
    a: Seq<u8>,
    b: Seq<u8>,
    head: Option<PageId>,
    low: int,
    high: int,
    start: int,
    end: int,
)
    requires
        is_chain::<T>(a, head, low, high),
        agree_outside(a, b, start, end),
        end <= low || high <= start,
    ensures
        is_chain::<T>(b, head, low, high),
        chained::<T>(b, head) == chained::<T>(a, head),
{
    let n = choose|n: nat| ends_within::<T>(a, head, low, high, n);
    lemma_links_kept::<T>(a, b, head, low, high, start, end, n);
    lemma_chain::<T>(a, head, low, high, n);
    lemma_chain::<T>(b, head, low, high, n);
}

// ---------------------------------------------------------------------------
// Does a chain come to an end?
// ---------------------------------------------------------------------------

/// How many of the first `n` pages a chain has.
spec fn pages_within<T: Chained>(file: Seq<u8>, head: Option<PageId>, n: nat) -> nat
    decreases n,
{
    match head {
        None => 0,
        Some(id) => if n == 0 {
            0
        } else {
            1 + pages_within::<T>(file, T::next_of(link_at::<T>(file, id)->0), (n - 1) as nat)
        },
    }
}

proof fn lemma_any_count<T: Chained>(file: Seq<u8>, head: Option<PageId>, low: int, high: int, n: nat, m: nat)
    requires
        ends_within::<T>(file, head, low, high, n),
        n <= m,
    ensures
        pages_within::<T>(file, head, n) == pages_within::<T>(file, head, m),
    decreases n,
{
    if let Some(id) = head {
        let next = T::next_of(link_at::<T>(file, id)->0);
        lemma_any_count::<T>(file, next, low, high, (n - 1) as nat, (m - 1) as nat);
    }
}

/// `seen` are the pages from `head` on, one after the other, and `cur` is next.
spec fn walked<T: Chained>(
    file: Seq<u8>,
    head: Option<PageId>,
    seen: Seq<PageId>,
    cur: Option<PageId>,
    low: int,
    high: int,
) -> bool {
    &&& head == if seen.len() == 0 {
        cur
    } else {
        Some(seen[0])
    }
    &&& forall|i: int|
        #![trigger seen[i]]
        0 <= i < seen.len() ==> {
            &&& low <= seen[i] < high
            &&& link_at::<T>(file, seen[i]) is Some
            &&& T::next_of(link_at::<T>(file, seen[i])->0) == if i + 1 < seen.len() {
                Some(seen[i + 1])
            } else {
                cur
            }
        }
}

/// In a chain that ends, what was walked is a part of it, and as much less
/// remains.
proof fn lemma_walked_part<T: Chained>(
    file: Seq<u8>,
    head: Option<PageId>,
    seen: Seq<PageId>,
    cur: Option<PageId>,
    low: int,
    high: int,
    n: nat,
    i: int,
)
    requires
        walked::<T>(file, head, seen, cur, low, high),
        ends_within::<T>(file, head, low, high, n),
        0 <= i <= seen.len(),
    ensures
        i <= n,
        ends_within::<T>(
            file,
            if i < seen.len() {
                Some(seen[i])
            } else {
                cur
            },
            low,
            high,
            (n - i) as nat,
        ),
        pages_within::<T>(file, head, n) == i + pages_within::<T>(
            file,
            if i < seen.len() {
                Some(seen[i])
            } else {
                cur
            },
            (n - i) as nat,
        ),
    decreases i,
{
    if i > 0 {
        lemma_walked_part::<T>(file, head, seen, cur, low, high, n, i - 1);
        let id = seen[i - 1];
        assert(n - (i - 1) > 0);
    }
}

/// A walk that came to an end was along a chain that ends.
proof fn lemma_walked_whole<T: Chained>(
    file: Seq<u8>,
    head: Option<PageId>,
    seen: Seq<PageId>,
    low: int,
    high: int,
    i: int,
)
    requires
        walked::<T>(file, head, seen, None, low, high),
        0 <= i <= seen.len(),
    ensures
        ends_within::<T>(
            file,
            if i < seen.len() {
                Some(seen[i])
            } else {
                None
            },
            low,
            high,
            (seen.len() - i) as nat,
        ),
    decreases seen.len() - i,
{
    if i < seen.len() {
        lemma_walked_whole::<T>(file, head, seen, low, high, i + 1);
        let id = seen[i];
        assert((seen.len() - i - 1) as nat == ((seen.len() - i) as nat - 1) as nat);
    }
}

/// A chain that ends does not have more pages than the file, since it does not
/// come to a page twice.
proof fn lemma_walked_few<T: Chained>(
    file: Seq<u8>,
    head: Option<PageId>,
    seen: Seq<PageId>,
    cur: Option<PageId>,
    low: int,
    high: int,
)
    requires
        walked::<T>(file, head, seen, cur, low, high),
        is_chain::<T>(file, head, low, high),
        cur is Some,
    ensures
        seen.len() < page_count(file),
{
    let n = choose|n: nat| ends_within::<T>(file, head, low, high, n);
    let all = seen.push(cur->0);
    let ids = all.map_values(|id: PageId| id as int);
    let end = page_count(file);
    assert forall|i: int, j: int| 0 <= i < j < all.len() implies all[i] != all[j] by {
        lemma_walked_part::<T>(file, head, seen, cur, low, high, n, i);
        lemma_walked_part::<T>(file, head, seen, cur, low, high, n, j);
        if all[i] == all[j] {
            lemma_any_count::<T>(file, Some(all[j]), low, high, (n - j) as nat, (n - i) as nat);
        }
    }
    lemma_walked_part::<T>(file, head, seen, cur, low, high, n, seen.len() as int);
    assert forall|i: int| 0 <= i < ids.len() implies 0 <= #[trigger] ids[i] < end by {
        if i < seen.len() {
            assert(link_at::<T>(file, seen[i]) is Some);
        }
    }
    assert(ids.no_duplicates());
    ids.unique_seq_to_set();
    vstd::set_lib::lemma_int_range(0, end);
    assert(ids.to_set().subset_of(vstd::set_lib::set_int_range(0, end)));
    vstd::set_lib::lemma_len_subset(ids.to_set(), vstd::set_lib::set_int_range(0, end));
}

/// Whether a chain of pages from `low` to before `high` begins at `head` and
/// comes to an end.
pub fn comes_to_an_end<T: Chained>(pager: &Pager, head: Option<PageId>, low: PageId, high: PageId) -> (r: bool)
    ensures
        r == is_chain::<T>(pager.file(), head, low as int, high as int),
{
    let ghost file = pager.file();
    let ghost mut seen: Seq<PageId> = Seq::empty();
    let mut cur = head;
    let mut left: u64 = pager.pages();
    while cur.is_some()
        invariant
            file == pager.file(),
            walked::<T>(file, head, seen, cur, low as int, high as int),
            seen.len() + left == page_count(file),
        decreases left,
    {
        let id: PageId = cur.unwrap();
        proof {
            if is_chain::<T>(file, head, low as int, high as int) {
                let n = choose|n: nat| ends_within::<T>(file, head, low as int, high as int, n);
                lemma_walked_part::<T>(file, head, seen, cur, low as int, high as int, n, seen.len() as int);
                lemma_walked_few::<T>(file, head, seen, cur, low as int, high as int);
            }
        }
        if left == 0 || id < low || id >= high {
            return false;
        }
        let page: T = match pager.read_page(id) {
            Ok(bytes) => match decode_page(&bytes) {
                Some(page) => page,
                None => {
                    return false;
                },
            },
            Err(_) => {
                return false;
            },
        };
        let ghost before = seen;
        proof {
            seen = before.push(id);
        }
        cur = page.next_page();
        left -= 1;
    }
    proof {
        lemma_walked_whole::<T>(file, head, seen, low as int, high as int, 0);
    }
    true
}

} // verus!
