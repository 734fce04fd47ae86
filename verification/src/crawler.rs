//! The work queue: every outstanding fetch unit (a leaderboard page or
//! an account name) sits in exactly one of the todo, in-flight and
//! invalid partitions. An epoch token tags every handed-out action, so
//! results of a reset queue can be told apart and discarded.

use vstd::prelude::*;

use crate::vecmap::VecMap;
use crate::{QueID, PER_PAGE};

verus! {

/// Outcome kinds of a failed crawl action.
#[derive(Debug, Clone, PartialEq, Eq)]
pub enum CrawlerError {
    /// The target is gone for good; informational only.
    NotFound,
    /// The remote asked us to slow down; the unit is retried.
    RateLimit,
    /// Transport or parse failure; counts toward re-authentication.
    Generic(String),
}

/// One unit of work handed to a crawler, tagged with the queue epoch it
/// was issued under.
#[derive(Debug, Clone)]
pub enum CrawlAction {
    Wait,
    InitTodo,
    Page(usize, QueID),
    Character(String, QueID),
}

/// Order in which todo pages are served.
#[derive(Debug, Clone, Copy, PartialEq, Eq, Structural)]
pub enum CrawlingOrder {
    Random,
    TopDown,
    BottomUp,
}

impl Default for CrawlingOrder {
    fn default() -> (r: Self)
        ensures
            r == CrawlingOrder::Random,
    {
        CrawlingOrder::Random
    }
}

pub open spec fn sorted_asc(s: Seq<usize>) -> bool {
    forall|i: int, j: int| 0 <= i < j < s.len() ==> s[i] <= s[j]
}

pub open spec fn sorted_desc(s: Seq<usize>) -> bool {
    forall|i: int, j: int| 0 <= i < j < s.len() ==> s[i] >= s[j]
}

/// Selection sort; ascending or descending by `descending`.
fn sort_pages(v: &mut Vec<usize>, descending: bool)
    ensures
        final(v)@.to_multiset() == old(v)@.to_multiset(),
        !descending ==> sorted_asc(final(v)@),
        descending ==> sorted_desc(final(v)@),
{
    broadcast use vstd::seq_lib::group_to_multiset_ensures;

    let mut out: Vec<usize> = Vec::new();
    while v.len() > 0
        invariant
            out@.to_multiset().add(v@.to_multiset()) == old(v)@.to_multiset(),
            !descending ==> sorted_asc(out@),
            descending ==> sorted_desc(out@),
            forall|i: int, j: int|
                0 <= i < out@.len() && 0 <= j < v@.len() ==> (if descending {
                    out@[i] >= v@[j]
                } else {
                    out@[i] <= v@[j]
                }),
        decreases v.len(),
    {
        // find the next extreme element
        let mut best: usize = 0;
        let mut i: usize = 1;
        while i < v.len()
            invariant
                best < v@.len(),
                i <= v@.len(),
                v@.len() > 0,
                forall|j: int|
                    0 <= j < i ==> (if descending {
                        v@[best as int] >= v@[j]
                    } else {
                        v@[best as int] <= v@[j]
                    }),
            decreases v.len() - i,
        {
            let better = if descending {
                v[i] > v[best]
            } else {
                v[i] < v[best]
            };
            if better {
                best = i;
            }
            i = i + 1;
        }
        let ghost v_before = v@;
        let ghost out_before = out@;
        let x = v.remove(best);
        out.push(x);
        proof {
            broadcast use vstd::multiset::group_multiset_axioms;
            broadcast use vstd::multiset::group_multiset_properties;
            broadcast use vstd::seq_lib::group_to_multiset_ensures;

            assert(v@ == v_before.remove(best as int));
            assert(v_before[best as int] == x);
            assert(out@.to_multiset().add(v@.to_multiset()) == old(v)@.to_multiset()) by {
                assert(v@.to_multiset() == v_before.to_multiset().remove(x));
                assert(v_before.contains(x));
                assert(v_before.to_multiset().count(x) > 0);
                assert(v_before.to_multiset() =~= v@.to_multiset().insert(x));
                assert(out@.to_multiset() == out_before.to_multiset().insert(x));
                assert(out@.to_multiset().add(v@.to_multiset()) =~= out_before.to_multiset().add(
                    v_before.to_multiset(),
                ));
            }
            assert forall|j: int| 0 <= j < v@.len() implies (if descending {
                x >= v@[j]
            } else {
                x <= v@[j]
            }) by {
                let j_orig: int = if j < best {
                    j
                } else {
                    j + 1
                };
                assert(v@[j] == v_before[j_orig]);
            }
        }
    }
    *v = out;
}

/// Relies on `fastrand::shuffle`: a Fisher-Yates pass over the slice that
/// only swaps elements in place, so the result holds the same pages with
/// the same counts.
#[verifier::external_body]
fn shuffle_pages(v: &mut Vec<usize>)
    ensures
        final(v)@.to_multiset() == old(v)@.to_multiset(),
{
    fastrand::shuffle(v.as_mut_slice());
}

impl CrawlingOrder {
    /// Reorders the todo pages: `Random` shuffles, `TopDown` sorts
    /// descending, `BottomUp` sorts ascending; the pages themselves are
    /// kept as they are.
    pub fn apply_order(&self, todo_pages: &mut Vec<usize>)
        ensures
            final(todo_pages)@.to_multiset() == old(todo_pages)@.to_multiset(),
            *self == CrawlingOrder::TopDown ==> sorted_desc(final(todo_pages)@),
            *self == CrawlingOrder::BottomUp ==> sorted_asc(final(todo_pages)@),
    {
        match self {
            CrawlingOrder::Random => shuffle_pages(todo_pages),
            CrawlingOrder::TopDown => sort_pages(todo_pages, true),
            CrawlingOrder::BottomUp => sort_pages(todo_pages, false),
        }
    }

    /// The order's label as shown to a reader.
    pub fn label(&self) -> (r: String)
        ensures
            *self == CrawlingOrder::Random ==> r@ == "Random"@,
            *self == CrawlingOrder::TopDown ==> r@ == "Top Down"@,
            *self == CrawlingOrder::BottomUp ==> r@ == "Bottom Up"@,
    {
        match self {
            CrawlingOrder::Random => "Random".to_owned(),
            CrawlingOrder::TopDown => "Top Down".to_owned(),
            CrawlingOrder::BottomUp => "Bottom Up".to_owned(),
        }
    }
}

/// A name made of ascii digits alone; such names cannot be fetched, the
/// remote would read them as id lookups.
pub open spec fn all_digits(n: Seq<char>) -> bool {
    forall|i: int| 0 <= i < n.len() ==> '0' <= #[trigger] n[i] <= '9'
}

/// Checks whether a name consists of ascii digits alone.
pub fn is_digit_only(s: &str) -> (r: bool)
    ensures
        r == all_digits(s@),
{
    broadcast use vstd::string::is_ascii_spec_bytes;

    if !s.is_ascii() {
        proof {
            let k = choose|k: int| 0 <= k < s@.len() && !('\0' <= #[trigger] s@[k] <= '\u{7f}');
            assert(!('0' <= s@[k] <= '9'));
        }
        return false;
    }
    let bytes = s.as_bytes();
    let ghost chars = s@;
    let mut i: usize = 0;
    while i < bytes.len()
        invariant
            i <= bytes.len(),
            chars == s@,
            bytes@.len() == chars.len(),
            forall|j: int| 0 <= j < chars.len() ==> bytes@[j] == chars[j] as u8,
            vstd::utf8::is_ascii_chars(chars),
            forall|j: int| 0 <= j < i ==> '0' <= #[trigger] chars[j] <= '9',
        decreases bytes.len() - i,
    {
        let b = bytes[i];
        if b < 48 || b > 57 {
            proof {
                assert(chars[i as int] as u8 == b);
                assert('\0' <= chars[i as int] <= '\u{7f}');
                assert(!('0' <= chars[i as int] <= '9'));
            }
            return false;
        }
        proof {
            assert(chars[i as int] as u8 == b);
            assert('\0' <= chars[i as int] <= '\u{7f}');
            assert('0' <= chars[i as int] <= '9');
        }
        i = i + 1;
    }
    true
}

/// The views of a list of names.
pub open spec fn names(s: Seq<String>) -> Seq<Seq<char>> {
    s.map_values(|x: String| x@)
}

/// Membership of a name (by content) in a list.
pub open spec fn contains_name(s: Seq<String>, n: Seq<char>) -> bool {
    exists|i: int| 0 <= i < s.len() && s[i]@ == n
}

/// No name occurs twice (by content).
pub open spec fn names_unique(s: Seq<String>) -> bool {
    forall|i: int, j: int| 0 <= i < j < s.len() ==> s[i]@ != s[j]@
}

/// No name occurs (by content) in both lists.
pub open spec fn names_disjoint(a: Seq<String>, b: Seq<String>) -> bool {
    forall|i: int, j: int| 0 <= i < a.len() && 0 <= j < b.len() ==> a[i]@ != b[j]@
}

pub open spec fn pages_disjoint(a: Seq<usize>, b: Seq<usize>) -> bool {
    forall|i: int, j: int| 0 <= i < a.len() && 0 <= j < b.len() ==> a[i] != b[j]
}

/// Membership of a name in a level bucket.
pub open spec fn in_bucket(m: Map<u64, Vec<String>>, lvl: u64, n: Seq<char>) -> bool {
    m.contains_key(lvl) && contains_name(m[lvl]@, n)
}

/// How many leaderboard pages hold the given number of players.
pub open spec fn spec_total_pages(total_players: u32) -> int {
    (total_players + PER_PAGE - 1) / (PER_PAGE as int)
}

/// Membership of a name (by content) in a list of names.
pub fn contains_account(v: &Vec<String>, x: &String) -> (r: bool)
    ensures
        r == contains_name(v@, x@),
{
    let mut i: usize = 0;
    while i < v.len()
        invariant
            i <= v.len(),
            forall|j: int| 0 <= j < i ==> v@[j]@ != x@,
        decreases v.len() - i,
    {
        if v[i].eq(x) {
            return true;
        }
        i = i + 1;
    }
    false
}

pub fn contains_page(v: &Vec<usize>, p: usize) -> (r: bool)
    ensures
        r == v@.contains(p),
{
    let mut i: usize = 0;
    while i < v.len()
        invariant
            i <= v.len(),
            forall|j: int| 0 <= j < i ==> v@[j] != p,
        decreases v.len() - i,
    {
        if v[i] == p {
            return true;
        }
        i = i + 1;
    }
    false
}

/// Removes every copy of a page from a list.
fn remove_page(v: &mut Vec<usize>, p: usize)
    ensures
        final(v)@ == old(v)@.filter(|q: usize| q != p),
{
    broadcast use vstd::seq_lib::group_filter_ensures;

    let mut out: Vec<usize> = Vec::new();
    let mut i: usize = 0;
    while i < v.len()
        invariant
            i <= v.len(),
            out@ == v@.take(i as int).filter(|q: usize| q != p),
        decreases v.len() - i,
    {
        proof {
            assert(v@.take(i + 1) =~= v@.take(i as int).push(v@[i as int]));
            v@.take(i as int).lemma_filter_push(v@[i as int], |q: usize| q != p);
        }
        if v[i] != p {
            out.push(v[i]);
        }
        i = i + 1;
    }
    proof {
        assert(v@.take(v@.len() as int) == v@);
    }
    *v = out;
}

/// Removes every name with the given content from a list.
fn remove_account(v: &mut Vec<String>, x: &String)
    ensures
        final(v)@ == old(v)@.filter(|s: String| s@ != x@),
{
    broadcast use vstd::seq_lib::group_filter_ensures;

    let mut out: Vec<String> = Vec::new();
    let mut i: usize = 0;
    while i < v.len()
        invariant
            i <= v.len(),
            out@ == v@.take(i as int).filter(|s: String| s@ != x@),
        decreases v.len() - i,
    {
        proof {
            assert(v@.take(i + 1) =~= v@.take(i as int).push(v@[i as int]));
            v@.take(i as int).lemma_filter_push(v@[i as int], |s: String| s@ != x@);
        }
        if !v[i].eq(x) {
            let kept = v[i].clone();
            proof {
                assert(kept == v@[i as int]);
            }
            out.push(kept);
        }
        i = i + 1;
    }
    proof {
        assert(v@.take(v@.len() as int) == v@);
    }
    *v = out;
}

/// Dropping one page from a list by filtering keeps exactly the other
/// pages and preserves freedom from duplicates.
proof fn lemma_filter_page_members(s: Seq<usize>, p: usize, pred: spec_fn(usize) -> bool)
    requires
        forall|e: usize| #[trigger] pred(e) == (e != p),
    ensures
        forall|q: usize| #[trigger] s.filter(pred).contains(q) <==> (s.contains(q) && q != p),
        s.no_duplicates() ==> s.filter(pred).no_duplicates(),
    decreases s.len(),
{
    reveal(Seq::filter);
    let out = s.filter(pred);
    if s.len() == 0 {
    } else {
        let rest = s.drop_last();
        let last = s.last();
        lemma_filter_page_members(rest, p, pred);
        assert forall|q: usize| #[trigger] out.contains(q) <==> (s.contains(q) && q != p) by {
            if out.contains(q) {
                s.lemma_filter_contains_rev(pred, q);
                let k = choose|k: int| 0 <= k < out.len() && out[k] == q;
                s.lemma_filter_pred(pred, k);
            }
            if s.contains(q) && q != p {
                let k = choose|k: int| 0 <= k < s.len() && s[k] == q;
                s.lemma_filter_contains(pred, k);
            }
        }
        if s.no_duplicates() {
            assert(rest.no_duplicates());
            if pred(last) {
                assert(!rest.contains(last)) by {
                    if rest.contains(last) {
                        let k = choose|k: int| 0 <= k < rest.len() && rest[k] == last;
                        assert(s[k] == s[s.len() - 1]);
                    }
                }
                let rf = rest.filter(pred);
                assert forall|a: int, b: int| 0 <= a < b < out.len() implies out[a] != out[b] by {
                    if b == out.len() - 1 {
                        assert(out[a] == rf[a]);
                        assert(rf.contains(rf[a]));
                    }
                }
            }
        }
    }
}

/// Dropping one name (by content) from a list by filtering keeps exactly
/// the other names and preserves content uniqueness.
proof fn lemma_filter_name_members(s: Seq<String>, n: Seq<char>, pred: spec_fn(String) -> bool)
    requires
        forall|e: String| #[trigger] pred(e) == (e@ != n),
    ensures
        forall|y: Seq<char>|
            #[trigger] contains_name(s.filter(pred), y) <==> (contains_name(s, y) && y != n),
        names_unique(s) ==> names_unique(s.filter(pred)),
    decreases s.len(),
{
    reveal(Seq::filter);
    let out = s.filter(pred);
    if s.len() == 0 {
    } else {
        let rest = s.drop_last();
        let last = s.last();
        assert(names_unique(s) ==> names_unique(rest));
        lemma_filter_name_members(rest, n, pred);
        assert forall|y: Seq<char>| #[trigger]
            contains_name(out, y) <==> (contains_name(s, y) && y != n) by {
            if contains_name(out, y) {
                let k = choose|k: int| 0 <= k < out.len() && out[k]@ == y;
                assert(out.contains(out[k]));
                s.lemma_filter_contains_rev(pred, out[k]);
                let m = choose|m: int| 0 <= m < s.len() && s[m] == out[k];
                assert(s[m]@ == y);
                s.lemma_filter_pred(pred, k);
            }
            if contains_name(s, y) && y != n {
                let k = choose|k: int| 0 <= k < s.len() && s[k]@ == y;
                assert(pred(s[k]));
                s.lemma_filter_contains(pred, k);
                let m = choose|m: int| 0 <= m < out.len() && out[m] == s[k];
                assert(out[m]@ == y);
            }
        }
        if names_unique(s) {
            if pred(last) {
                let rf = rest.filter(pred);
                assert forall|a: int, b: int| 0 <= a < b < out.len() implies out[a]@ != out[b]@ by {
                    if b == out.len() - 1 {
                        assert(out[a] == rf[a]);
                        assert(rf.contains(rf[a]));
                        rest.lemma_filter_contains_rev(pred, rf[a]);
                        let k = choose|k: int| 0 <= k < rest.len() && rest[k] == rf[a];
                        assert(s[k] == rf[a]);
                        assert(s[k]@ != s[s.len() - 1]@);
                    } else {
                        assert(out[a] == rf[a] && out[b] == rf[b]);
                    }
                }
            }
        }
    }
}

/// A permutation of a duplicate-free list is duplicate-free and holds the
/// same elements.
pub(crate) proof fn lemma_perm_keeps_members<A>(a: Seq<A>, b: Seq<A>)
    requires
        a.to_multiset() == b.to_multiset(),
        a.no_duplicates(),
    ensures
        b.no_duplicates(),
        forall|p: A| a.contains(p) == #[trigger] b.contains(p),
{
    broadcast use vstd::seq_lib::group_to_multiset_ensures;
    broadcast use vstd::multiset::group_multiset_axioms;

    a.lemma_multiset_has_no_duplicates();
    b.lemma_multiset_has_no_duplicates_conv();
    assert forall|p: A| a.contains(p) == #[trigger] b.contains(p) by {
        vstd::seq_lib::to_multiset_contains(a, p);
        vstd::seq_lib::to_multiset_contains(b, p);
    }
}

/// Disjointness follows from membership exclusion.
pub(crate) proof fn lemma_make_pages_disjoint(a: Seq<usize>, b: Seq<usize>)
    requires
        forall|q: usize| #[trigger] a.contains(q) ==> !b.contains(q),
    ensures
        pages_disjoint(a, b),
{
    assert forall|i: int, j: int| 0 <= i < a.len() && 0 <= j < b.len() implies a[i] != b[j] by {
        assert(a.contains(a[i]));
        if a[i] == b[j] {
            assert(b.contains(b[j]));
        }
    }
}

pub(crate) proof fn lemma_make_names_disjoint(a: Seq<String>, b: Seq<String>)
    requires
        forall|y: Seq<char>| #[trigger] contains_name(a, y) ==> !contains_name(b, y),
    ensures
        names_disjoint(a, b),
{
    assert forall|i: int, j: int| 0 <= i < a.len() && 0 <= j < b.len() implies a[i]@ != b[j]@ by {
        assert(contains_name(a, a[i]@));
        if a[i]@ == b[j]@ {
            assert(contains_name(b, b[j]@));
        }
    }
}

/// Membership view of disjointness.
pub(crate) proof fn lemma_pages_disjoint_member(a: Seq<usize>, b: Seq<usize>)
    requires
        pages_disjoint(a, b),
    ensures
        forall|q: usize| #[trigger] a.contains(q) ==> !b.contains(q),
{
    assert forall|q: usize| #[trigger] a.contains(q) implies !b.contains(q) by {
        if a.contains(q) && b.contains(q) {
            let i = choose|i: int| 0 <= i < a.len() && a[i] == q;
            let j = choose|j: int| 0 <= j < b.len() && b[j] == q;
            assert(a[i] == b[j]);
        }
    }
}

pub(crate) proof fn lemma_names_disjoint_member(a: Seq<String>, b: Seq<String>)
    requires
        names_disjoint(a, b),
    ensures
        forall|y: Seq<char>| #[trigger] contains_name(a, y) ==> !contains_name(b, y),
{
    assert forall|y: Seq<char>| #[trigger] contains_name(a, y) implies !contains_name(b, y) by {
        if contains_name(a, y) && contains_name(b, y) {
            let i = choose|i: int| 0 <= i < a.len() && a[i]@ == y;
            let j = choose|j: int| 0 <= j < b.len() && b[j]@ == y;
            assert(a[i]@ == b[j]@);
        }
    }
}

/// Pushing an absent page keeps a list duplicate-free.
pub(crate) proof fn lemma_push_page_nodup(s: Seq<usize>, x: usize)
    requires
        s.no_duplicates(),
        !s.contains(x),
    ensures
        s.push(x).no_duplicates(),
{
    assert forall|a: int, b: int| 0 <= a < b < s.push(x).len() implies s.push(x)[a] != s.push(
        x,
    )[b] by {
        if b == s.len() as int {
            assert(s.contains(s[a]));
        }
    }
}

/// Membership after pushing one name.
pub(crate) proof fn lemma_name_push_members(s: Seq<String>, e: String)
    ensures
        forall|y: Seq<char>| #[trigger]
            contains_name(s.push(e), y) <==> (contains_name(s, y) || y == e@),
{
    assert forall|y: Seq<char>| #[trigger]
        contains_name(s.push(e), y) <==> (contains_name(s, y) || y == e@) by {
        if contains_name(s.push(e), y) {
            let i = choose|i: int| 0 <= i < s.push(e).len() && s.push(e)[i]@ == y;
            if i < s.len() {
                assert(s[i]@ == y);
            }
        }
        if contains_name(s, y) {
            let i = choose|i: int| 0 <= i < s.len() && s[i]@ == y;
            assert(s.push(e)[i]@ == y);
        }
        if y == e@ {
            assert(s.push(e)[s.len() as int]@ == y);
        }
    }
}

/// Pushing an absent name keeps a list unique.
proof fn lemma_push_name_unique(s: Seq<String>, e: String)
    requires
        names_unique(s),
        !contains_name(s, e@),
    ensures
        names_unique(s.push(e)),
{
    assert forall|a: int, b: int| 0 <= a < b < s.push(e).len() implies s.push(e)[a]@ != s.push(
        e,
    )[b]@ by {
        if b == s.len() as int {
            assert(contains_name(s, s[a]@));
        }
    }
}

/// Appends a name to a plain list unless the list already holds it.
fn push_name_if_absent(v: &mut Vec<String>, name: String)
    ensures
        forall|y: Seq<char>| #[trigger]
            contains_name(final(v)@, y) <==> (contains_name(old(v)@, y) || y == name@),
{
    if !contains_account(v, &name) {
        let ghost before = v@;
        v.push(name);
        proof {
            lemma_name_push_members(before, v@.last());
        }
    }
}

/// Parks a name in the level bucket of `lvl`.
fn bucket_add(m: &mut VecMap<Vec<String>>, lvl: u64, name: String)
    requires
        old(m).wf(),
    ensures
        final(m).wf(),
        forall|l: u64, y: Seq<char>|
            #![trigger in_bucket(final(m).as_map(), l, y)]
            in_bucket(final(m).as_map(), l, y) <==> (in_bucket(old(m).as_map(), l, y) || (l == lvl
                && y == name@)),
{
    match m.remove(lvl) {
        Some(mut names_vec) => {
            let ghost list_before = names_vec@;
            push_name_if_absent(&mut names_vec, name);
            m.insert(lvl, names_vec);
        },
        None => {
            let mut names_vec: Vec<String> = Vec::new();
            names_vec.push(name);
            proof {
                lemma_name_push_members(Seq::<String>::empty(), names_vec@.last());
            }
            m.insert(lvl, names_vec);
        },
    }
}

/// A discovered account whose level lies inside the configured range and
/// which no partition holds yet belongs in todo.
pub open spec fn discovered_goes_todo(q: WorkerQue, d: Seq<(String, u32)>, y: Seq<char>) -> bool {
    exists|i: int|
        0 <= i < d.len() && (#[trigger] d[i]).0@ == y && q.min_level <= d[i].1 && d[i].1
            <= q.max_level
}

/// A discovered account whose level lies outside the range is parked in
/// the bucket of its level.
pub open spec fn discovered_goes_bucket(
    q: WorkerQue,
    d: Seq<(String, u32)>,
    lvl: u64,
    y: Seq<char>,
) -> bool {
    exists|i: int|
        0 <= i < d.len() && (#[trigger] d[i]).0@ == y && d[i].1 as u64 == lvl && !(q.min_level
            <= d[i].1 && d[i].1 <= q.max_level)
}

/// The whole queue state, field for field.
impl WorkerQue {
    pub open spec fn same_state(&self, other: &Self) -> bool {
        &&& self.que_id == other.que_id
        &&& self.todo_pages@ == other.todo_pages@
        &&& self.todo_accounts@ == other.todo_accounts@
        &&& self.invalid_pages@ == other.invalid_pages@
        &&& self.invalid_accounts@ == other.invalid_accounts@
        &&& self.in_flight_pages@ == other.in_flight_pages@
        &&& self.in_flight_accounts@ == other.in_flight_accounts@
        &&& self.order == other.order
        &&& self.lvl_skipped_accounts == other.lvl_skipped_accounts
        &&& self.min_level == other.min_level
        &&& self.max_level == other.max_level
        &&& self.self_init == other.self_init
    }
}

/// The single source of truth for what remains to be fetched on one
/// server. All mutation goes through whole-transition operations that
/// keep the three partitions pairwise disjoint.
pub struct WorkerQue {
    pub que_id: QueID,
    pub todo_pages: Vec<usize>,
    pub todo_accounts: Vec<String>,
    pub invalid_pages: Vec<usize>,
    pub invalid_accounts: Vec<String>,
    pub in_flight_pages: Vec<usize>,
    pub in_flight_accounts: Vec<String>,
    pub order: CrawlingOrder,
    /// Accounts whose level fell outside the configured range, parked by
    /// level so that widening the range can reinstate them cheaply.
    pub lvl_skipped_accounts: VecMap<Vec<String>>,
    pub min_level: u32,
    pub max_level: u32,
    /// Whether this epoch still owes one `InitTodo` action.
    pub self_init: bool,
}

impl WorkerQue {
    /// The three partitions are pairwise disjoint and free of internal
    /// duplicates, for pages and accounts independently.
    pub open spec fn wf(&self) -> bool {
        &&& self.todo_pages@.no_duplicates()
        &&& self.invalid_pages@.no_duplicates()
        &&& self.in_flight_pages@.no_duplicates()
        &&& pages_disjoint(self.todo_pages@, self.in_flight_pages@)
        &&& pages_disjoint(self.todo_pages@, self.invalid_pages@)
        &&& pages_disjoint(self.in_flight_pages@, self.invalid_pages@)
        &&& names_unique(self.todo_accounts@)
        &&& names_unique(self.invalid_accounts@)
        &&& names_unique(self.in_flight_accounts@)
        &&& names_disjoint(self.todo_accounts@, self.in_flight_accounts@)
        &&& names_disjoint(self.todo_accounts@, self.invalid_accounts@)
        &&& names_disjoint(self.in_flight_accounts@, self.invalid_accounts@)
        &&& self.lvl_skipped_accounts.wf()
    }

    /// Everything but the account partitions is as it was.
    pub open spec fn same_but_accounts(&self, other: &Self) -> bool {
        &&& self.que_id == other.que_id
        &&& self.todo_pages@ == other.todo_pages@
        &&& self.invalid_pages@ == other.invalid_pages@
        &&& self.in_flight_pages@ == other.in_flight_pages@
        &&& self.order == other.order
        &&& self.lvl_skipped_accounts == other.lvl_skipped_accounts
        &&& self.min_level == other.min_level
        &&& self.max_level == other.max_level
        &&& self.self_init == other.self_init
    }

    /// Everything but the page partitions is as it was.
    pub open spec fn same_but_pages(&self, other: &Self) -> bool {
        &&& self.que_id == other.que_id
        &&& self.todo_accounts@ == other.todo_accounts@
        &&& self.invalid_accounts@ == other.invalid_accounts@
        &&& self.in_flight_accounts@ == other.in_flight_accounts@
        &&& self.order == other.order
        &&& self.lvl_skipped_accounts == other.lvl_skipped_accounts
        &&& self.min_level == other.min_level
        &&& self.max_level == other.max_level
        &&& self.self_init == other.self_init
    }

    /// A fresh queue for a cold start: nothing known yet, one `InitTodo`
    /// owed, the whole level range admitted.
    pub fn new_fresh(que_id: QueID) -> (r: Self)
        ensures
            r.wf(),
            r.que_id == que_id,
            r.todo_pages@.len() == 0,
            r.todo_accounts@.len() == 0,
            r.invalid_pages@.len() == 0,
            r.invalid_accounts@.len() == 0,
            r.in_flight_pages@.len() == 0,
            r.in_flight_accounts@.len() == 0,
            r.order == CrawlingOrder::Random,
            r.min_level == 0,
            r.max_level == 9999,
            r.self_init,
    {
        WorkerQue {
            que_id,
            todo_pages: Vec::new(),
            todo_accounts: Vec::new(),
            invalid_pages: Vec::new(),
            invalid_accounts: Vec::new(),
            in_flight_pages: Vec::new(),
            in_flight_accounts: Vec::new(),
            order: CrawlingOrder::Random,
            lvl_skipped_accounts: VecMap::new(),
            min_level: 0,
            max_level: 9999,
            self_init: true,
        }
    }

    /// Hands out the next unit of work and moves it into the in-flight
    /// partition: an account if one remains (digit-only names are
    /// classified invalid and skipped), else a page, else one `InitTodo`
    /// per epoch, else `Wait`.
    pub fn next_action(&mut self) -> (r: CrawlAction)
        requires
            old(self).wf(),
        ensures
            final(self).wf(),
            match r {
                CrawlAction::Character(name, qid) => {
                    &&& qid == old(self).que_id
                    &&& exists|k: int|
                        {
                            &&& 0 <= k < old(self).todo_accounts@.len()
                            &&& !all_digits(old(self).todo_accounts@[k]@)
                            &&& forall|m: int|
                                k < m < old(self).todo_accounts@.len() ==> all_digits(
                                    old(self).todo_accounts@[m]@,
                                )
                            &&& name@ == old(self).todo_accounts@[k]@
                            &&& final(self).todo_accounts@ == old(self).todo_accounts@.take(k)
                            &&& names(final(self).invalid_accounts@) == names(
                                old(self).invalid_accounts@,
                            ) + names(old(self).todo_accounts@.skip(k + 1)).reverse()
                            &&& names(final(self).in_flight_accounts@) == names(
                                old(self).in_flight_accounts@,
                            ).push(name@)
                        }
                    &&& final(self).same_but_accounts(old(self))
                },
                CrawlAction::Page(idx, qid) => {
                    &&& qid == old(self).que_id
                    &&& forall|m: int|
                        0 <= m < old(self).todo_accounts@.len() ==> all_digits(
                            old(self).todo_accounts@[m]@,
                        )
                    &&& old(self).todo_pages@.len() > 0
                    &&& idx == old(self).todo_pages@.last()
                    &&& final(self).todo_pages@ == old(self).todo_pages@.drop_last()
                    &&& final(self).in_flight_pages@ == old(self).in_flight_pages@.push(idx)
                    &&& final(self).todo_accounts@.len() == 0
                    &&& names(final(self).invalid_accounts@) == names(
                        old(self).invalid_accounts@,
                    ) + names(old(self).todo_accounts@).reverse()
                    &&& final(self).in_flight_accounts@ == old(self).in_flight_accounts@
                    &&& final(self).invalid_pages@ == old(self).invalid_pages@
                    &&& final(self).que_id == old(self).que_id
                    &&& final(self).self_init == old(self).self_init
                    &&& final(self).order == old(self).order
                    &&& final(self).min_level == old(self).min_level
                    &&& final(self).max_level == old(self).max_level
                    &&& final(self).lvl_skipped_accounts == old(self).lvl_skipped_accounts
                },
                CrawlAction::InitTodo => {
                    &&& forall|m: int|
                        0 <= m < old(self).todo_accounts@.len() ==> all_digits(
                            old(self).todo_accounts@[m]@,
                        )
                    &&& old(self).todo_pages@.len() == 0
                    &&& old(self).self_init
                    &&& !final(self).self_init
                    &&& final(self).todo_accounts@.len() == 0
                    &&& names(final(self).invalid_accounts@) == names(
                        old(self).invalid_accounts@,
                    ) + names(old(self).todo_accounts@).reverse()
                    &&& final(self).todo_pages@ == old(self).todo_pages@
                    &&& final(self).in_flight_pages@ == old(self).in_flight_pages@
                    &&& final(self).in_flight_accounts@ == old(self).in_flight_accounts@
                    &&& final(self).invalid_pages@ == old(self).invalid_pages@
                    &&& final(self).que_id == old(self).que_id
                    &&& final(self).order == old(self).order
                    &&& final(self).min_level == old(self).min_level
                    &&& final(self).max_level == old(self).max_level
                    &&& final(self).lvl_skipped_accounts == old(self).lvl_skipped_accounts
                },
                CrawlAction::Wait => {
                    &&& forall|m: int|
                        0 <= m < old(self).todo_accounts@.len() ==> all_digits(
                            old(self).todo_accounts@[m]@,
                        )
                    &&& old(self).todo_pages@.len() == 0
                    &&& !old(self).self_init
                    &&& final(self).todo_accounts@.len() == 0
                    &&& names(final(self).invalid_accounts@) == names(
                        old(self).invalid_accounts@,
                    ) + names(old(self).todo_accounts@).reverse()
                    &&& final(self).todo_pages@ == old(self).todo_pages@
                    &&& final(self).in_flight_pages@ == old(self).in_flight_pages@
                    &&& final(self).in_flight_accounts@ == old(self).in_flight_accounts@
                    &&& final(self).invalid_pages@ == old(self).invalid_pages@
                    &&& final(self).que_id == old(self).que_id
                    &&& final(self).self_init == old(self).self_init
                    &&& final(self).order == old(self).order
                    &&& final(self).min_level == old(self).min_level
                    &&& final(self).max_level == old(self).max_level
                    &&& final(self).lvl_skipped_accounts == old(self).lvl_skipped_accounts
                },
            },
    {
        loop
            invariant
                self.wf(),
                self.todo_accounts@.len() <= old(self).todo_accounts@.len(),
                self.todo_accounts@ == old(self).todo_accounts@.take(
                    self.todo_accounts@.len() as int,
                ),
                forall|m: int|
                    self.todo_accounts@.len() <= m < old(self).todo_accounts@.len() ==> all_digits(
                        old(self).todo_accounts@[m]@,
                    ),
                names(self.invalid_accounts@) == names(old(self).invalid_accounts@) + names(
                    old(self).todo_accounts@.skip(self.todo_accounts@.len() as int),
                ).reverse(),
                self.same_but_accounts(old(self)),
                self.in_flight_accounts@ == old(self).in_flight_accounts@,
            decreases self.todo_accounts.len(),
        {
            let ghost cur = self.todo_accounts@;
            let ghost done = old(self).todo_accounts@.skip(cur.len() as int);
            match self.todo_accounts.pop() {
                Some(entry) => {
                    proof {
                        assert(cur.drop_last() =~= old(self).todo_accounts@.take(
                            cur.len() - 1,
                        ));
                        assert(entry == old(self).todo_accounts@[cur.len() - 1]);
                    }
                    if is_digit_only(entry.as_str()) {
                        let ghost inv_before = self.invalid_accounts@;
                        self.invalid_accounts.push(entry);
                        proof {
                            assert(names(self.invalid_accounts@) =~= names(inv_before).push(
                                entry@,
                            ));
                            assert(old(self).todo_accounts@.skip(cur.len() - 1) =~= seq![
                                old(self).todo_accounts@[cur.len() - 1],
                            ] + done);
                            assert(names(old(self).todo_accounts@.skip(cur.len() - 1)).reverse()
                                =~= names(done).reverse().push(entry@));
                            assert(names(self.invalid_accounts@) =~= names(
                                old(self).invalid_accounts@,
                            ) + names(old(self).todo_accounts@.skip(cur.len() - 1)).reverse());
                            // disjointness: the moved name was in todo, so
                            // nowhere else
                            assert forall|i: int, j: int|
                                0 <= i < self.todo_accounts@.len() && 0 <= j
                                    < self.invalid_accounts@.len() implies self.todo_accounts@[i]@
                                != self.invalid_accounts@[j]@ by {
                                if j == self.invalid_accounts@.len() - 1 {
                                    assert(self.todo_accounts@[i]@ == cur[i]@);
                                }
                            }
                            assert(names_unique(self.invalid_accounts@)) by {
                                assert forall|i: int, j: int|
                                    0 <= i < j < self.invalid_accounts@.len() implies self
                                    .invalid_accounts@[i]@ != self.invalid_accounts@[j]@ by {
                                    if j == self.invalid_accounts@.len() - 1 {
                                        assert(self.invalid_accounts@[i]@ == inv_before[i]@);
                                        assert(cur[cur.len() - 1]@ == entry@);
                                    }
                                }
                            }
                        }
                    } else {
                        let name = entry.clone();
                        let ghost fl_before = self.in_flight_accounts@;
                        self.in_flight_accounts.push(entry);
                        proof {
                            assert(name@ == cur.last()@);
                            assert(names(self.in_flight_accounts@) =~= names(fl_before).push(
                                name@,
                            ));
                            assert forall|i: int, j: int|
                                0 <= i < self.todo_accounts@.len() && 0 <= j
                                    < self.in_flight_accounts@.len() implies self.todo_accounts@[
                                i
                            ]@ != self.in_flight_accounts@[j]@ by {
                                if j == self.in_flight_accounts@.len() - 1 {
                                    assert(self.todo_accounts@[i]@ == cur[i]@);
                                }
                            }
                            assert(names_unique(self.in_flight_accounts@)) by {
                                assert forall|i: int, j: int|
                                    0 <= i < j < self.in_flight_accounts@.len() implies self
                                    .in_flight_accounts@[i]@ != self.in_flight_accounts@[j]@ by {
                                    if j == self.in_flight_accounts@.len() - 1 {
                                        assert(self.in_flight_accounts@[i]@ == fl_before[i]@);
                                        assert(cur[cur.len() - 1]@ == name@);
                                    }
                                }
                            }
                            assert forall|i: int, j: int|
                                0 <= i < self.in_flight_accounts@.len() && 0 <= j
                                    < self.invalid_accounts@.len() implies self.in_flight_accounts@[
                                i
                            ]@ != self.invalid_accounts@[j]@ by {
                                if i == self.in_flight_accounts@.len() - 1 {
                                    assert(cur[cur.len() - 1]@ == name@);
                                }
                            }
                        }
                        return CrawlAction::Character(name, self.que_id);
                    }
                },
                None => {
                    proof {
                        assert(old(self).todo_accounts@.skip(0) == old(self).todo_accounts@);
                    }
                    match self.todo_pages.pop() {
                        Some(idx) => {
                            self.in_flight_pages.push(idx);
                            proof {
                                let tp = old(self).todo_pages@;
                                assert forall|i: int, j: int|
                                    0 <= i < self.todo_pages@.len() && 0 <= j
                                        < self.in_flight_pages@.len() implies self.todo_pages@[i]
                                    != self.in_flight_pages@[j] by {
                                    if j == self.in_flight_pages@.len() - 1 {
                                        assert(self.todo_pages@[i] == tp[i]);
                                        assert(tp[tp.len() - 1] == idx);
                                    }
                                }
                                assert(self.in_flight_pages@.no_duplicates()) by {
                                    assert forall|i: int, j: int|
                                        0 <= i < j < self.in_flight_pages@.len() implies self
                                        .in_flight_pages@[i] != self.in_flight_pages@[j] by {
                                        if j == self.in_flight_pages@.len() - 1 {
                                            assert(tp[tp.len() - 1] == idx);
                                        }
                                    }
                                }
                                assert forall|i: int, j: int|
                                    0 <= i < self.in_flight_pages@.len() && 0 <= j
                                        < self.invalid_pages@.len() implies self.in_flight_pages@[
                                    i
                                ] != self.invalid_pages@[j] by {
                                    if i == self.in_flight_pages@.len() - 1 {
                                        assert(tp[tp.len() - 1] == idx);
                                    }
                                }
                            }
                            return CrawlAction::Page(idx, self.que_id);
                        },
                        None => {
                            if self.self_init {
                                self.self_init = false;
                                return CrawlAction::InitTodo;
                            } else {
                                return CrawlAction::Wait;
                            }
                        },
                    }
                },
            }
        }
    }

    /// Appends a name to todo unless it is already held anywhere; used
    /// for newly discovered accounts and for re-fetching stale targets.
    pub fn push_todo_if_absent(&mut self, name: String)
        requires
            old(self).wf(),
        ensures
            final(self).wf(),
            final(self).todo_accounts@ == (if contains_name(old(self).todo_accounts@, name@)
                || contains_name(old(self).invalid_accounts@, name@) || contains_name(
                old(self).in_flight_accounts@,
                name@,
            ) {
                old(self).todo_accounts@
            } else {
                old(self).todo_accounts@.push(name)
            }),
            final(self).same_but_accounts(old(self)),
            final(self).invalid_accounts@ == old(self).invalid_accounts@,
            final(self).in_flight_accounts@ == old(self).in_flight_accounts@,
    {
        if !contains_account(&self.todo_accounts, &name) && !contains_account(
            &self.invalid_accounts,
            &name,
        ) && !contains_account(&self.in_flight_accounts, &name) {
            let ghost before = self.todo_accounts@;
            self.todo_accounts.push(name);
            proof {
                lemma_push_name_unique(before, self.todo_accounts@.last());
                lemma_name_push_members(before, self.todo_accounts@.last());
                lemma_names_disjoint_member(before, old(self).in_flight_accounts@);
                lemma_names_disjoint_member(before, old(self).invalid_accounts@);
                lemma_make_names_disjoint(self.todo_accounts@, self.in_flight_accounts@);
                lemma_make_names_disjoint(self.todo_accounts@, self.invalid_accounts@);
            }
        }
    }

    /// Withdraws a finished page from the in-flight partition; a result
    /// issued under another epoch changes nothing.
    pub fn complete_page(&mut self, idx: usize, epoch: QueID)
        requires
            old(self).wf(),
        ensures
            final(self).wf(),
            epoch != old(self).que_id ==> final(self).same_state(old(self)),
            epoch == old(self).que_id ==> {
                &&& final(self).in_flight_pages@ == old(self).in_flight_pages@.filter(
                    |q: usize| q != idx,
                )
                &&& final(self).same_but_pages(old(self))
                &&& final(self).todo_pages@ == old(self).todo_pages@
                &&& final(self).invalid_pages@ == old(self).invalid_pages@
            },
    {
        if epoch != self.que_id {
            return ;
        }
        let ghost fl_before = self.in_flight_pages@;
        remove_page(&mut self.in_flight_pages, idx);
        proof {
            lemma_filter_page_members(fl_before, idx, |q: usize| q != idx);
            lemma_pages_disjoint_member(old(self).todo_pages@, fl_before);
            lemma_pages_disjoint_member(fl_before, old(self).invalid_pages@);
            lemma_make_pages_disjoint(self.todo_pages@, self.in_flight_pages@);
            lemma_make_pages_disjoint(self.in_flight_pages@, self.invalid_pages@);
        }
    }

    /// Withdraws a finished account from the in-flight partition; a
    /// result issued under another epoch changes nothing.
    pub fn complete_account(&mut self, name: &String, epoch: QueID)
        requires
            old(self).wf(),
        ensures
            final(self).wf(),
            epoch != old(self).que_id ==> final(self).same_state(old(self)),
            epoch == old(self).que_id ==> {
                &&& final(self).in_flight_accounts@ == old(self).in_flight_accounts@.filter(
                    |s: String| s@ != name@,
                )
                &&& final(self).same_but_accounts(old(self))
                &&& final(self).todo_accounts@ == old(self).todo_accounts@
                &&& final(self).invalid_accounts@ == old(self).invalid_accounts@
            },
    {
        if epoch != self.que_id {
            return ;
        }
        let ghost fl_before = self.in_flight_accounts@;
        remove_account(&mut self.in_flight_accounts, name);
        proof {
            lemma_filter_name_members(fl_before, name@, |s: String| s@ != name@);
            lemma_names_disjoint_member(old(self).todo_accounts@, fl_before);
            lemma_names_disjoint_member(fl_before, old(self).invalid_accounts@);
            lemma_make_names_disjoint(self.todo_accounts@, self.in_flight_accounts@);
            lemma_make_names_disjoint(self.in_flight_accounts@, self.invalid_accounts@);
        }
    }

    /// Classifies an account as permanently invalid for this epoch: it
    /// leaves todo and in-flight and appears in invalid exactly once.
    pub fn mark_account_invalid(&mut self, name: &String, epoch: QueID)
        requires
            old(self).wf(),
        ensures
            final(self).wf(),
            epoch != old(self).que_id ==> final(self).same_state(old(self)),
            epoch == old(self).que_id ==> {
                &&& contains_name(final(self).invalid_accounts@, name@)
                &&& !contains_name(final(self).todo_accounts@, name@)
                &&& !contains_name(final(self).in_flight_accounts@, name@)
                &&& forall|y: Seq<char>|
                    y != name@ ==> (#[trigger] contains_name(final(self).todo_accounts@, y)
                        == contains_name(old(self).todo_accounts@, y) && contains_name(
                        final(self).in_flight_accounts@,
                        y,
                    ) == contains_name(old(self).in_flight_accounts@, y) && contains_name(
                        final(self).invalid_accounts@,
                        y,
                    ) == contains_name(old(self).invalid_accounts@, y))
                &&& final(self).same_but_accounts(old(self))
            },
    {
        if epoch != self.que_id {
            return ;
        }
        let ghost todo_before = self.todo_accounts@;
        let ghost fl_before = self.in_flight_accounts@;
        let ghost inv_before = self.invalid_accounts@;
        remove_account(&mut self.todo_accounts, name);
        remove_account(&mut self.in_flight_accounts, name);
        let ghost inv_mid = self.invalid_accounts@;
        proof {
            lemma_filter_name_members(todo_before, name@, |s: String| s@ != name@);
            lemma_filter_name_members(fl_before, name@, |s: String| s@ != name@);
        }
        if !contains_account(&self.invalid_accounts, name) {
            self.invalid_accounts.push(name.clone());
            proof {
                lemma_push_name_unique(inv_before, self.invalid_accounts@.last());
                lemma_name_push_members(inv_before, self.invalid_accounts@.last());
            }
        }
        proof {
            lemma_names_disjoint_member(todo_before, fl_before);
            lemma_names_disjoint_member(todo_before, inv_before);
            lemma_names_disjoint_member(fl_before, inv_before);
            lemma_make_names_disjoint(self.todo_accounts@, self.in_flight_accounts@);
            lemma_make_names_disjoint(self.todo_accounts@, self.invalid_accounts@);
            lemma_make_names_disjoint(self.in_flight_accounts@, self.invalid_accounts@);
        }
    }

    /// Returns a page that was marked invalid to the todo partition;
    /// used when failures are replayed after a re-authentication.
    pub fn requeue_invalid_page(&mut self, p: usize)
        requires
            old(self).wf(),
        ensures
            final(self).wf(),
            !final(self).invalid_pages@.contains(p),
            !old(self).in_flight_pages@.contains(p) ==> final(self).todo_pages@.contains(p),
            forall|q: usize|
                q != p ==> #[trigger] final(self).invalid_pages@.contains(q) == old(
                    self,
                ).invalid_pages@.contains(q),
            forall|q: usize|
                q != p ==> #[trigger] final(self).todo_pages@.contains(q) == old(
                    self,
                ).todo_pages@.contains(q),
            final(self).in_flight_pages@ == old(self).in_flight_pages@,
            final(self).same_but_pages(old(self)),
            forall|q: usize| #[trigger]
                old(self).todo_pages@.contains(q) ==> final(self).todo_pages@.contains(q),
    {
        let ghost inv_before = self.invalid_pages@;
        remove_page(&mut self.invalid_pages, p);
        proof {
            lemma_filter_page_members(inv_before, p, |q: usize| q != p);
            lemma_pages_disjoint_member(old(self).todo_pages@, inv_before);
            lemma_pages_disjoint_member(old(self).in_flight_pages@, inv_before);
            lemma_make_pages_disjoint(self.todo_pages@, self.invalid_pages@);
            lemma_make_pages_disjoint(self.in_flight_pages@, self.invalid_pages@);
        }
        if !contains_page(&self.todo_pages, p) && !contains_page(&self.in_flight_pages, p) {
            let ghost todo_before = self.todo_pages@;
            self.todo_pages.push(p);
            proof {
                lemma_push_page_nodup(todo_before, p);
                assert forall|q: usize| #[trigger]
                    self.todo_pages@.contains(q) <==> todo_before.contains(q) || q == p by {
                    vstd::seq_lib::lemma_seq_contains_after_push(todo_before, p, q);
                }
                lemma_pages_disjoint_member(todo_before, self.in_flight_pages@);
                lemma_make_pages_disjoint(self.todo_pages@, self.in_flight_pages@);
                lemma_make_pages_disjoint(self.todo_pages@, self.invalid_pages@);
            }
        }
    }

    /// Returns an account that was marked invalid to the todo partition;
    /// used when failures are replayed after a re-authentication.
    pub fn requeue_invalid_account(&mut self, name: &String)
        requires
            old(self).wf(),
        ensures
            final(self).wf(),
            !contains_name(final(self).invalid_accounts@, name@),
            !contains_name(old(self).in_flight_accounts@, name@) ==> contains_name(
                final(self).todo_accounts@,
                name@,
            ),
            forall|y: Seq<char>|
                y != name@ ==> #[trigger] contains_name(final(self).invalid_accounts@, y)
                    == contains_name(old(self).invalid_accounts@, y),
            forall|y: Seq<char>|
                y != name@ ==> #[trigger] contains_name(final(self).todo_accounts@, y)
                    == contains_name(old(self).todo_accounts@, y),
            final(self).in_flight_accounts@ == old(self).in_flight_accounts@,
            final(self).same_but_accounts(old(self)),
            forall|y: Seq<char>| #[trigger]
                contains_name(old(self).todo_accounts@, y) ==> contains_name(
                    final(self).todo_accounts@,
                    y,
                ),
    {
        let ghost inv_before = self.invalid_accounts@;
        remove_account(&mut self.invalid_accounts, name);
        proof {
            lemma_filter_name_members(inv_before, name@, |s: String| s@ != name@);
            lemma_names_disjoint_member(old(self).todo_accounts@, inv_before);
            lemma_names_disjoint_member(old(self).in_flight_accounts@, inv_before);
            lemma_make_names_disjoint(self.todo_accounts@, self.invalid_accounts@);
            lemma_make_names_disjoint(self.in_flight_accounts@, self.invalid_accounts@);
        }
        if !contains_account(&self.todo_accounts, name) && !contains_account(
            &self.in_flight_accounts,
            name,
        ) {
            let ghost todo_before = self.todo_accounts@;
            self.todo_accounts.push(name.clone());
            proof {
                lemma_push_name_unique(todo_before, self.todo_accounts@.last());
                lemma_name_push_members(todo_before, self.todo_accounts@.last());
                lemma_names_disjoint_member(todo_before, self.in_flight_accounts@);
                lemma_make_names_disjoint(self.todo_accounts@, self.in_flight_accounts@);
                lemma_make_names_disjoint(self.todo_accounts@, self.invalid_accounts@);
            }
        }
    }

    /// Fills the todo partition with every leaderboard page, derived
    /// from the total player count, and applies the configured order.
    /// Pages already in flight or invalid are not re-added.
    pub fn init_todo(&mut self, total_players: u32)
        requires
            old(self).wf(),
        ensures
            final(self).wf(),
            forall|p: usize|
                #[trigger] final(self).todo_pages@.contains(p) <==> (p < spec_total_pages(
                    total_players,
                ) && !old(self).in_flight_pages@.contains(p) && !old(self).invalid_pages@.contains(
                    p,
                )),
            final(self).order == CrawlingOrder::TopDown ==> sorted_desc(final(self).todo_pages@),
            final(self).order == CrawlingOrder::BottomUp ==> sorted_asc(final(self).todo_pages@),
            final(self).same_but_pages(old(self)),
            final(self).invalid_pages@ == old(self).invalid_pages@,
            final(self).in_flight_pages@ == old(self).in_flight_pages@,
    {
        let total_pages_wide: u64 = (total_players as u64 + (PER_PAGE as u64 - 1)) / (
        PER_PAGE as u64);
        let total_pages: usize = total_pages_wide as usize;
        proof {
            assert(total_pages == spec_total_pages(total_players));
        }
        let mut fresh: Vec<usize> = Vec::new();
        let mut p: usize = 0;
        while p < total_pages
            invariant
                p <= total_pages,
                total_pages == spec_total_pages(total_players),
                self.wf(),
                *self == *old(self),
                forall|q: usize|
                    #[trigger] fresh@.contains(q) <==> (q < p && !old(
                        self,
                    ).in_flight_pages@.contains(q) && !old(self).invalid_pages@.contains(q)),
                fresh@.no_duplicates(),
                forall|j: int| 0 <= j < fresh@.len() ==> #[trigger] fresh@[j] < p,
            decreases total_pages - p,
        {
            if !contains_page(&self.in_flight_pages, p) && !contains_page(&self.invalid_pages, p) {
                let ghost before = fresh@;
                fresh.push(p);
                proof {
                    assert forall|q: usize| #[trigger]
                        fresh@.contains(q) <==> (q < p + 1 && !old(
                        self,
                    ).in_flight_pages@.contains(q) && !old(self).invalid_pages@.contains(q)) by {
                        vstd::seq_lib::lemma_seq_contains_after_push(before, p, q);
                    }
                    lemma_push_page_nodup(before, p);
                }
            } else {
                proof {
                    assert forall|q: usize| #[trigger]
                        fresh@.contains(q) <==> (q < p + 1 && !old(
                        self,
                    ).in_flight_pages@.contains(q) && !old(self).invalid_pages@.contains(q)) by {}
                }
            }
            p = p + 1;
        }
        self.todo_pages = fresh;
        let order = self.order;
        let ghost built = self.todo_pages@;
        order.apply_order(&mut self.todo_pages);
        proof {
            lemma_perm_keeps_members(built, self.todo_pages@);
            lemma_make_pages_disjoint(self.todo_pages@, self.in_flight_pages@);
            lemma_make_pages_disjoint(self.todo_pages@, self.invalid_pages@);
        }
    }

    /// An estimate of the units still to fetch: each outstanding page
    /// counts as one full page of accounts; the true count of a page is
    /// unknown until it is fetched.
    pub fn count_remaining(&self) -> (r: usize)
        ensures
            r as int == {
                let estimate = self.todo_pages@.len() * PER_PAGE + self.todo_accounts@.len()
                    + self.in_flight_pages@.len() * PER_PAGE + self.in_flight_accounts@.len();
                if estimate <= usize::MAX {
                    estimate
                } else {
                    usize::MAX as int
                }
            },
    {
        let todo_page_units = match self.todo_pages.len().checked_mul(PER_PAGE) {
            Some(v) => v,
            None => usize::MAX,
        };
        let fl_page_units = match self.in_flight_pages.len().checked_mul(PER_PAGE) {
            Some(v) => v,
            None => usize::MAX,
        };
        todo_page_units.saturating_add(self.todo_accounts.len()).saturating_add(
            fl_page_units,
        ).saturating_add(self.in_flight_accounts.len())
    }

    /// Sets the crawling order and applies it to the todo pages at once.
    pub fn set_order(&mut self, new_order: CrawlingOrder)
        requires
            old(self).wf(),
        ensures
            final(self).wf(),
            final(self).order == new_order,
            final(self).todo_pages@.to_multiset() == old(self).todo_pages@.to_multiset(),
            new_order == CrawlingOrder::TopDown ==> sorted_desc(final(self).todo_pages@),
            new_order == CrawlingOrder::BottomUp ==> sorted_asc(final(self).todo_pages@),
            final(self).todo_accounts@ == old(self).todo_accounts@,
            final(self).invalid_pages@ == old(self).invalid_pages@,
            final(self).invalid_accounts@ == old(self).invalid_accounts@,
            final(self).in_flight_pages@ == old(self).in_flight_pages@,
            final(self).in_flight_accounts@ == old(self).in_flight_accounts@,
            final(self).que_id == old(self).que_id,
            final(self).min_level == old(self).min_level,
            final(self).max_level == old(self).max_level,
            final(self).self_init == old(self).self_init,
            final(self).lvl_skipped_accounts == old(self).lvl_skipped_accounts,
    {
        self.order = new_order;
        let order = self.order;
        let ghost before = self.todo_pages@;
        order.apply_order(&mut self.todo_pages);
        proof {
            lemma_perm_keeps_members(before, self.todo_pages@);
            lemma_pages_disjoint_member(before, old(self).in_flight_pages@);
            lemma_pages_disjoint_member(before, old(self).invalid_pages@);
            lemma_make_pages_disjoint(self.todo_pages@, self.in_flight_pages@);
            lemma_make_pages_disjoint(self.todo_pages@, self.invalid_pages@);
        }
    }

    /// Narrows or widens the admitted level range. Parked accounts whose
    /// level now falls inside the range are reinstated into todo; the
    /// others stay parked. The bounds themselves are clamped as the
    /// remote accepts them.
    pub fn set_level_range(&mut self, min: u32, max: u32)
        requires
            old(self).wf(),
        ensures
            final(self).wf(),
            final(self).min_level == (if min >= 1 {
                min
            } else {
                1u32
            }),
            final(self).max_level == {
                let lifted: u32 = if max >= min {
                    max
                } else {
                    min
                };
                if lifted <= 9999 {
                    lifted
                } else {
                    9999u32
                }
            },
            final(self).todo_pages@ == old(self).todo_pages@,
            final(self).invalid_pages@ == old(self).invalid_pages@,
            final(self).in_flight_pages@ == old(self).in_flight_pages@,
            final(self).invalid_accounts@ == old(self).invalid_accounts@,
            final(self).in_flight_accounts@ == old(self).in_flight_accounts@,
            final(self).que_id == old(self).que_id,
            final(self).order == old(self).order,
            final(self).self_init == old(self).self_init,
            // the bucket only shrinks, and keeps nothing that is now in range
            forall|l: u64, y: Seq<char>|
                #![trigger in_bucket(final(self).lvl_skipped_accounts.as_map(), l, y)]
                in_bucket(final(self).lvl_skipped_accounts.as_map(), l, y) ==> in_bucket(
                    old(self).lvl_skipped_accounts.as_map(),
                    l,
                    y,
                ) && !(final(self).min_level as u64 <= l && l <= final(self).max_level as u64),
            // everything reinstated came out of the bucket
            forall|y: Seq<char>| #[trigger]
                contains_name(final(self).todo_accounts@, y) ==> contains_name(
                    old(self).todo_accounts@,
                    y,
                ) || exists|l: u64|
                    in_bucket(#[trigger] old(self).lvl_skipped_accounts.as_map(), l, y),
            // every parked account now in range is booked somewhere
            forall|l: u64, y: Seq<char>|
                #![trigger in_bucket(old(self).lvl_skipped_accounts.as_map(), l, y)]
                in_bucket(old(self).lvl_skipped_accounts.as_map(), l, y)
                    && final(self).min_level as u64 <= l && l <= final(self).max_level as u64 ==> contains_name(
                    final(self).todo_accounts@,
                    y,
                ) || contains_name(old(self).invalid_accounts@, y) || contains_name(
                    old(self).in_flight_accounts@,
                    y,
                ),
            // todo only grows
            forall|y: Seq<char>| #[trigger]
                contains_name(old(self).todo_accounts@, y) ==> contains_name(
                    final(self).todo_accounts@,
                    y,
                ),
    {
        self.min_level = if min >= 1 {
            min
        } else {
            1
        };
        let lifted: u32 = if max >= min {
            max
        } else {
            min
        };
        self.max_level = if lifted <= 9999 {
            lifted
        } else {
            9999
        };
        let ghost new_min = self.min_level;
        let ghost new_max = self.max_level;
        let ghost bucket0 = self.lvl_skipped_accounts;
        let ghost todo0 = self.todo_accounts@;

        loop
            invariant
                self.wf(),
                bucket0 == old(self).lvl_skipped_accounts,
                todo0 == old(self).todo_accounts@,
                self.min_level == new_min,
                self.max_level == new_max,
                new_min == (if min >= 1 {
                    min
                } else {
                    1u32
                }),
                new_max == {
                    let lifted: u32 = if max >= min {
                        max
                    } else {
                        min
                    };
                    if lifted <= 9999 {
                        lifted
                    } else {
                        9999u32
                    }
                },
                self.invalid_accounts@ == old(self).invalid_accounts@,
                self.in_flight_accounts@ == old(self).in_flight_accounts@,
                self.todo_pages@ == old(self).todo_pages@,
                self.invalid_pages@ == old(self).invalid_pages@,
                self.in_flight_pages@ == old(self).in_flight_pages@,
                self.que_id == old(self).que_id,
                self.order == old(self).order,
                self.self_init == old(self).self_init,
                forall|l: u64, y: Seq<char>|
                    #![trigger in_bucket(self.lvl_skipped_accounts.as_map(), l, y)]
                    in_bucket(self.lvl_skipped_accounts.as_map(), l, y) ==> in_bucket(
                        bucket0.as_map(),
                        l,
                        y,
                    ),
                forall|l: u64, y: Seq<char>|
                    #![trigger in_bucket(bucket0.as_map(), l, y)]
                    in_bucket(bucket0.as_map(), l, y) && new_min as u64 <= l && l
                        <= new_max as u64 ==> in_bucket(self.lvl_skipped_accounts.as_map(), l, y)
                        || contains_name(self.todo_accounts@, y) || contains_name(
                        old(self).invalid_accounts@,
                        y,
                    ) || contains_name(old(self).in_flight_accounts@, y),
                forall|y: Seq<char>| #[trigger]
                    contains_name(self.todo_accounts@, y) ==> contains_name(todo0, y) || exists|
                        l: u64,
                    | in_bucket(#[trigger] bucket0.as_map(), l, y),
                forall|y: Seq<char>| #[trigger]
                    contains_name(todo0, y) ==> contains_name(self.todo_accounts@, y),
            decreases self.lvl_skipped_accounts.entries().len(),
        {
            // look for a bucket level inside the new range
            let mut found: Option<u64> = None;
            let mut i: usize = 0;
            while i < self.lvl_skipped_accounts.len()
                invariant
                    i <= self.lvl_skipped_accounts.entries().len(),
                    self.lvl_skipped_accounts.wf(),
                    match found {
                        Some(l) => self.lvl_skipped_accounts.as_map().contains_key(l)
                            && self.min_level as u64 <= l && l <= self.max_level as u64,
                        None => forall|j: int|
                            0 <= j < i ==> !(self.min_level as u64 <= (
                            #[trigger] self.lvl_skipped_accounts.entries()[j]).0
                                && self.lvl_skipped_accounts.entries()[j].0
                                <= self.max_level as u64),
                    },
                decreases self.lvl_skipped_accounts.entries().len() - i,
            {
                let key = self.lvl_skipped_accounts.entry_at(i).0;
                if found.is_none() && self.min_level as u64 <= key && key
                    <= self.max_level as u64 {
                    found = Some(key);
                }
                i = i + 1;
            }
            match found {
                None => {
                    proof {
                        self.lvl_skipped_accounts.lemma_model();
                        assert forall|y: Seq<char>|
                            contains_name(self.todo_accounts@, y) && !contains_name(
                                old(self).todo_accounts@,
                                y,
                            ) implies exists|l: u64|
                            in_bucket(
                                #[trigger] old(self).lvl_skipped_accounts.as_map(),
                                l,
                                y,
                            ) by {
                            let l = choose|l: u64| in_bucket(#[trigger] bucket0.as_map(), l, y);
                            assert(in_bucket(old(self).lvl_skipped_accounts.as_map(), l, y));
                        }
                        assert forall|l: u64, y: Seq<char>|
                            in_bucket(self.lvl_skipped_accounts.as_map(), l, y) implies !(
                        new_min as u64 <= l && l <= new_max as u64) by {
                            if self.lvl_skipped_accounts.as_map().contains_key(l) {
                                let j = choose|j: int|
                                    0 <= j < crate::vecmap::pair_keys(
                                        self.lvl_skipped_accounts.entries(),
                                    ).len() && crate::vecmap::pair_keys(
                                        self.lvl_skipped_accounts.entries(),
                                    )[j] == l;
                                assert(self.lvl_skipped_accounts.entries()[j].0 == l);
                            }
                        }
                    }
                    return ;
                },
                Some(lvl) => {
                    let ghost bucket_len = self.lvl_skipped_accounts.entries().len();
                    let ghost bucket_pre = self.lvl_skipped_accounts;
                    match self.lvl_skipped_accounts.remove(lvl) {
                        Some(parked) => {
                            let ghost parked_seq = parked@;
                            let ghost bucket_mid = self.lvl_skipped_accounts;
                            let ghost todo_mid = self.todo_accounts@;
                            let mut m: usize = 0;
                            while m < parked.len()
                                invariant
                                    m <= parked@.len(),
                                    parked@ == parked_seq,
                                    self.wf(),
                                    self.min_level == new_min,
                                    self.max_level == new_max,
                                    self.invalid_accounts@ == old(self).invalid_accounts@,
                                    self.in_flight_accounts@ == old(self).in_flight_accounts@,
                                    self.todo_pages@ == old(self).todo_pages@,
                                    self.invalid_pages@ == old(self).invalid_pages@,
                                    self.in_flight_pages@ == old(self).in_flight_pages@,
                                    self.que_id == old(self).que_id,
                                    self.order == old(self).order,
                                    self.self_init == old(self).self_init,
                                    self.lvl_skipped_accounts == bucket_mid,
                                    self.lvl_skipped_accounts.as_map() == bucket_pre.as_map(
                                    ).remove(lvl),
                                    bucket_pre.as_map().contains_key(lvl),
                                    parked_seq == bucket_pre.as_map()[lvl]@,
                                    forall|l: u64, y: Seq<char>|
                                        #![trigger in_bucket(bucket_pre.as_map(), l, y)]
                                        in_bucket(bucket_pre.as_map(), l, y) ==> in_bucket(
                                            bucket0.as_map(),
                                            l,
                                            y,
                                        ),
                                    forall|y: Seq<char>| #[trigger]
                                        contains_name(self.todo_accounts@, y) ==> contains_name(
                                            todo_mid,
                                            y,
                                        ) || contains_name(parked_seq, y),
                                    forall|j: int|
                                        0 <= j < m ==> contains_name(
                                            self.todo_accounts@,
                                            (#[trigger] parked_seq[j])@,
                                        ) || contains_name(
                                            old(self).invalid_accounts@,
                                            parked_seq[j]@,
                                        ) || contains_name(
                                            old(self).in_flight_accounts@,
                                            parked_seq[j]@,
                                        ),
                                    forall|y: Seq<char>| #[trigger]
                                        contains_name(todo_mid, y) ==> contains_name(
                                            self.todo_accounts@,
                                            y,
                                        ),
                                decreases parked@.len() - m,
                            {
                                let nm = parked[m].clone();
                                let ghost nm_view = nm@;
                                let ghost todo_prev = self.todo_accounts@;
                                self.push_todo_if_absent(nm);
                                proof {
                                    if self.todo_accounts@.len() > todo_prev.len() {
                                        lemma_name_push_members(
                                            todo_prev,
                                            self.todo_accounts@.last(),
                                        );
                                        assert(self.todo_accounts@.last()@ == nm_view);
                                    }
                                    assert(parked_seq[m as int]@ == nm_view);
                                    assert(contains_name(parked_seq, nm_view));
                                }
                                m = m + 1;
                            }
                            proof {
                                assert(self.lvl_skipped_accounts.entries().len() < bucket_len);
                                assert forall|l: u64, y: Seq<char>|
                                    in_bucket(
                                        self.lvl_skipped_accounts.as_map(),
                                        l,
                                        y,
                                    ) implies in_bucket(bucket0.as_map(), l, y) by {
                                    if in_bucket(self.lvl_skipped_accounts.as_map(), l, y) {
                                        assert(in_bucket(bucket_pre.as_map(), l, y));
                                    }
                                }
                                assert forall|y: Seq<char>| #[trigger]
                                    contains_name(self.todo_accounts@, y) implies contains_name(
                                    todo0,
                                    y,
                                ) || exists|l: u64|
                                    in_bucket(#[trigger] bucket0.as_map(), l, y) by {
                                    if !contains_name(todo_mid, y) {
                                        assert(contains_name(parked_seq, y));
                                        assert(in_bucket(bucket_pre.as_map(), lvl, y));
                                        assert(in_bucket(bucket0.as_map(), lvl, y));
                                    }
                                }
                                assert forall|l: u64, y: Seq<char>|
                                    in_bucket(bucket0.as_map(), l, y) && new_min as u64 <= l && l
                                        <= new_max as u64 implies in_bucket(
                                    self.lvl_skipped_accounts.as_map(),
                                    l,
                                    y,
                                ) || contains_name(self.todo_accounts@, y) || contains_name(
                                    old(self).invalid_accounts@,
                                    y,
                                ) || contains_name(old(self).in_flight_accounts@, y) by {
                                    if l == lvl {
                                        if in_bucket(bucket0.as_map(), lvl, y) && !contains_name(
                                            old(self).invalid_accounts@,
                                            y,
                                        ) && !contains_name(old(self).in_flight_accounts@, y) {
                                            // the whole bucket was walked
                                            if contains_name(parked_seq, y) {
                                                let j = choose|j: int|
                                                    0 <= j < parked_seq.len() && parked_seq[j]@
                                                        == y;
                                                assert(contains_name(self.todo_accounts@, y));
                                            }
                                        }
                                    }
                                }
                            }
                        },
                        None => {
                            proof {
                                assert(false);
                            }
                        },
                    }
                },
            }
        }
    }


    /// Absorbs the account names discovered on a fetched page: names in
    /// level range join todo unless some partition already holds them;
    /// the others are parked in the level bucket. Results of another
    /// epoch change nothing.
    pub fn absorb_discovered(&mut self, discovered: &Vec<(String, u32)>, epoch: QueID)
        requires
            old(self).wf(),
        ensures
            final(self).wf(),
            epoch != old(self).que_id ==> final(self).same_state(old(self)),
            epoch == old(self).que_id ==> {
                &&& final(self).invalid_accounts@ == old(self).invalid_accounts@
                &&& final(self).in_flight_accounts@ == old(self).in_flight_accounts@
                &&& final(self).todo_pages@ == old(self).todo_pages@
                &&& final(self).invalid_pages@ == old(self).invalid_pages@
                &&& final(self).in_flight_pages@ == old(self).in_flight_pages@
                &&& final(self).que_id == old(self).que_id
                &&& final(self).order == old(self).order
                &&& final(self).min_level == old(self).min_level
                &&& final(self).max_level == old(self).max_level
                &&& final(self).self_init == old(self).self_init
                // nothing appears in todo that was not there or discovered in range
                &&& forall|y: Seq<char>| #[trigger]
                    contains_name(final(self).todo_accounts@, y) ==> contains_name(
                        old(self).todo_accounts@,
                        y,
                    ) || discovered_goes_todo(*old(self), discovered@, y)
                // every in-range discovery is booked somewhere
                &&& forall|i: int|
                    0 <= i < discovered@.len() && old(self).min_level <= (
                    #[trigger] discovered@[i]).1 && discovered@[i].1 <= old(self).max_level
                        ==> contains_name(final(self).todo_accounts@, discovered@[i].0@)
                        || contains_name(old(self).invalid_accounts@, discovered@[i].0@)
                        || contains_name(old(self).in_flight_accounts@, discovered@[i].0@)
                // every out-of-range discovery is parked under its level
                &&& forall|i: int|
                    0 <= i < discovered@.len() && !(old(self).min_level <= (
                    #[trigger] discovered@[i]).1 && discovered@[i].1 <= old(self).max_level)
                        ==> in_bucket(
                        final(self).lvl_skipped_accounts.as_map(),
                        discovered@[i].1 as u64,
                        discovered@[i].0@,
                    )
                // the bucket grows only by out-of-range discoveries
                &&& forall|l: u64, y: Seq<char>|
                    #![trigger in_bucket(final(self).lvl_skipped_accounts.as_map(), l, y)]
                    in_bucket(final(self).lvl_skipped_accounts.as_map(), l, y) ==> in_bucket(
                        old(self).lvl_skipped_accounts.as_map(),
                        l,
                        y,
                    ) || discovered_goes_bucket(*old(self), discovered@, l, y)
                // todo only grows
                &&& forall|y: Seq<char>| #[trigger]
                    contains_name(old(self).todo_accounts@, y) ==> contains_name(
                        final(self).todo_accounts@,
                        y,
                    )
            },
    {
        if epoch != self.que_id {
            return ;
        }
        let ghost d = discovered@;
        let mut i: usize = 0;
        while i < discovered.len()
            invariant
                i <= discovered@.len(),
                d == discovered@,
                self.wf(),
                self.invalid_accounts@ == old(self).invalid_accounts@,
                self.in_flight_accounts@ == old(self).in_flight_accounts@,
                self.todo_pages@ == old(self).todo_pages@,
                self.invalid_pages@ == old(self).invalid_pages@,
                self.in_flight_pages@ == old(self).in_flight_pages@,
                self.que_id == old(self).que_id,
                self.order == old(self).order,
                self.min_level == old(self).min_level,
                self.max_level == old(self).max_level,
                self.self_init == old(self).self_init,
                self.lvl_skipped_accounts.wf(),
                forall|y: Seq<char>| #[trigger]
                    contains_name(self.todo_accounts@, y) ==> contains_name(
                        old(self).todo_accounts@,
                        y,
                    ) || discovered_goes_todo(*old(self), d.take(i as int), y),
                forall|j: int|
                    0 <= j < i && old(self).min_level <= (#[trigger] d[j]).1 && d[j].1 <= old(
                        self,
                    ).max_level ==> contains_name(self.todo_accounts@, d[j].0@) || contains_name(
                        old(self).invalid_accounts@,
                        d[j].0@,
                    ) || contains_name(old(self).in_flight_accounts@, d[j].0@),
                forall|j: int|
                    0 <= j < i && !(old(self).min_level <= (#[trigger] d[j]).1 && d[j].1 <= old(
                        self,
                    ).max_level) ==> in_bucket(
                        self.lvl_skipped_accounts.as_map(),
                        d[j].1 as u64,
                        d[j].0@,
                    ),
                forall|l: u64, y: Seq<char>|
                    #![trigger in_bucket(self.lvl_skipped_accounts.as_map(), l, y)]
                    in_bucket(self.lvl_skipped_accounts.as_map(), l, y) ==> in_bucket(
                        old(self).lvl_skipped_accounts.as_map(),
                        l,
                        y,
                    ) || discovered_goes_bucket(*old(self), d.take(i as int), l, y),
                forall|y: Seq<char>| #[trigger]
                    contains_name(old(self).todo_accounts@, y) ==> contains_name(
                        self.todo_accounts@,
                        y,
                    ),
            decreases discovered@.len() - i,
        {
            let name = discovered[i].0.clone();
            let level = discovered[i].1;
            proof {
                assert(name@ == d[i as int].0@);
                assert forall|y: Seq<char>|
                    discovered_goes_todo(*old(self), d.take(i as int), y) implies
                    discovered_goes_todo(*old(self), d.take(i + 1), y) by {
                    let j = choose|j: int|
                        0 <= j < d.take(i as int).len() && (#[trigger] d.take(i as int)[j]).0@ == y
                            && old(self).min_level <= d.take(i as int)[j].1 && d.take(i as int)[j].1
                            <= old(self).max_level;
                    assert((d.take(i + 1)[j]).0@ == y);
                }
                assert forall|l: u64, y: Seq<char>|
                    discovered_goes_bucket(*old(self), d.take(i as int), l, y) implies
                    discovered_goes_bucket(*old(self), d.take(i + 1), l, y) by {
                    let j = choose|j: int|
                        0 <= j < d.take(i as int).len() && (#[trigger] d.take(i as int)[j]).0@ == y
                            && d.take(i as int)[j].1 as u64 == l && !(old(self).min_level <= d.take(
                            i as int,
                        )[j].1 && d.take(i as int)[j].1 <= old(self).max_level);
                    assert((d.take(i + 1)[j]).0@ == y);
                }
            }
            if level >= self.min_level && level <= self.max_level {
                let ghost name_view = name@;
                let ghost todo_prev = self.todo_accounts@;
                self.push_todo_if_absent(name);
                proof {
                    assert((d.take(i + 1)[i as int]).0@ == d[i as int].0@);
                    assert(discovered_goes_todo(*old(self), d.take(i + 1), d[i as int].0@));
                    if self.todo_accounts@.len() > todo_prev.len() {
                        lemma_name_push_members(todo_prev, self.todo_accounts@.last());
                        assert(self.todo_accounts@.last()@ == name_view);
                        assert(contains_name(self.todo_accounts@, name_view));
                    }
                    assert forall|y: Seq<char>| #[trigger]
                        contains_name(self.todo_accounts@, y) implies contains_name(
                        old(self).todo_accounts@,
                        y,
                    ) || discovered_goes_todo(*old(self), d.take(i + 1), y) by {
                        if !contains_name(todo_prev, y) {
                            assert(y == name_view);
                        }
                    }
                    assert forall|y: Seq<char>| #[trigger]
                        contains_name(todo_prev, y) implies contains_name(
                        self.todo_accounts@,
                        y,
                    ) by {}
                }
            } else {
                bucket_add(&mut self.lvl_skipped_accounts, level as u64, name);
                proof {
                    assert((d.take(i + 1)[i as int]).0@ == d[i as int].0@);
                    assert(discovered_goes_bucket(
                        *old(self),
                        d.take(i + 1),
                        level as u64,
                        d[i as int].0@,
                    ));
                }
            }
            i = i + 1;
        }
        proof {
            assert(d.take(d.len() as int) == d);
        }
    }

    /// How a failed action moves the queue: a rate-limited unit returns
    /// to todo (to be retried), any other failure moves it to invalid,
    /// and an action from another epoch changes nothing.
    pub open spec fn fail_transition(
        pre: WorkerQue,
        post: WorkerQue,
        action: &CrawlAction,
        error: &CrawlerError,
    ) -> bool {
        match action {
            CrawlAction::Wait | CrawlAction::InitTodo => post.same_state(&pre),
            CrawlAction::Page(p, qid) => {
                &&& *qid != pre.que_id ==> post.same_state(&pre)
                &&& *qid == pre.que_id ==> {
                    &&& post.in_flight_pages@ == pre.in_flight_pages@.filter(|q: usize| q != *p)
                    &&& post.same_but_pages(&pre)
                    &&& (error is RateLimit) ==> {
                        &&& post.invalid_pages@ == pre.invalid_pages@
                        &&& pre.in_flight_pages@.contains(*p) ==> post.todo_pages@.contains(*p)
                            && post.todo_pages@.no_duplicates()
                            && !post.invalid_pages@.contains(*p)
                    }
                    &&& !(error is RateLimit) ==> {
                        &&& post.todo_pages@ == pre.todo_pages@
                        &&& pre.in_flight_pages@.contains(*p) ==> post.invalid_pages@.contains(*p)
                            && !post.todo_pages@.contains(*p)
                    }
                }
            },
            CrawlAction::Character(n, qid) => {
                &&& *qid != pre.que_id ==> post.same_state(&pre)
                &&& *qid == pre.que_id ==> {
                    &&& post.in_flight_accounts@ == pre.in_flight_accounts@.filter(
                        |s: String| s@ != n@,
                    )
                    &&& post.same_but_accounts(&pre)
                    &&& (error is RateLimit) ==> {
                        &&& post.invalid_accounts@ == pre.invalid_accounts@
                        &&& contains_name(pre.in_flight_accounts@, n@) ==> contains_name(
                            post.todo_accounts@,
                            n@,
                        ) && names_unique(post.todo_accounts@) && !contains_name(
                            post.invalid_accounts@,
                            n@,
                        )
                    }
                    &&& !(error is RateLimit) ==> {
                        &&& post.todo_accounts@ == pre.todo_accounts@
                        &&& contains_name(pre.in_flight_accounts@, n@) ==> contains_name(
                            post.invalid_accounts@,
                            n@,
                        ) && !contains_name(post.todo_accounts@, n@)
                    }
                }
            },
        }
    }

    /// Books a failed action back in: a rate-limited unit returns to todo
    /// (to be retried), any other failure moves it to invalid. An action
    /// from another epoch changes nothing.
    pub fn fail(&mut self, action: &CrawlAction, error: &CrawlerError)
        requires
            old(self).wf(),
        ensures
            final(self).wf(),
            WorkerQue::fail_transition(*old(self), *final(self), action, error),
    {
        match action {
            CrawlAction::Wait | CrawlAction::InitTodo => {},
            CrawlAction::Page(p, qid) => {
                if *qid != self.que_id {
                    return ;
                }
                let ghost fl_before = self.in_flight_pages@;
                remove_page(&mut self.in_flight_pages, *p);
                proof {
                    lemma_filter_page_members(fl_before, *p, |q: usize| q != *p);
                    lemma_pages_disjoint_member(old(self).todo_pages@, fl_before);
                    lemma_pages_disjoint_member(fl_before, old(self).invalid_pages@);
                    lemma_pages_disjoint_member(old(self).todo_pages@, old(self).invalid_pages@);
                    lemma_make_pages_disjoint(self.todo_pages@, self.in_flight_pages@);
                    lemma_make_pages_disjoint(self.in_flight_pages@, self.invalid_pages@);
                }
                let rate_limited = match error {
                    CrawlerError::RateLimit => true,
                    _ => false,
                };
                if rate_limited {
                    if !contains_page(&self.todo_pages, *p) && !contains_page(
                        &self.invalid_pages,
                        *p,
                    ) {
                        let ghost todo_before = self.todo_pages@;
                        self.todo_pages.push(*p);
                        proof {
                            lemma_push_page_nodup(todo_before, *p);
                            vstd::seq_lib::lemma_seq_contains_after_push(todo_before, *p, *p);
                            assert forall|q: usize| #[trigger]
                                self.todo_pages@.contains(q) implies todo_before.contains(q) || q
                                == *p by {
                                vstd::seq_lib::lemma_seq_contains_after_push(todo_before, *p, q);
                            }
                            lemma_pages_disjoint_member(todo_before, self.in_flight_pages@);
                            lemma_make_pages_disjoint(self.todo_pages@, self.in_flight_pages@);
                            lemma_pages_disjoint_member(todo_before, self.invalid_pages@);
                            lemma_make_pages_disjoint(self.todo_pages@, self.invalid_pages@);
                        }
                    }
                } else {
                    if !contains_page(&self.invalid_pages, *p) && !contains_page(
                        &self.todo_pages,
                        *p,
                    ) {
                        let ghost inv_before = self.invalid_pages@;
                        self.invalid_pages.push(*p);
                        proof {
                            lemma_push_page_nodup(inv_before, *p);
                            vstd::seq_lib::lemma_seq_contains_after_push(inv_before, *p, *p);
                            assert forall|q: usize| #[trigger]
                                self.invalid_pages@.contains(q) implies inv_before.contains(q) || q
                                == *p by {
                                vstd::seq_lib::lemma_seq_contains_after_push(inv_before, *p, q);
                            }
                            lemma_pages_disjoint_member(self.todo_pages@, inv_before);
                            lemma_make_pages_disjoint(self.todo_pages@, self.invalid_pages@);
                            lemma_pages_disjoint_member(self.in_flight_pages@, inv_before);
                            lemma_make_pages_disjoint(self.in_flight_pages@, self.invalid_pages@);
                        }
                    }
                }
            },
            CrawlAction::Character(n, qid) => {
                if *qid != self.que_id {
                    return ;
                }
                let ghost fl_before = self.in_flight_accounts@;
                remove_account(&mut self.in_flight_accounts, n);
                proof {
                    lemma_filter_name_members(fl_before, n@, |s: String| s@ != n@);
                    lemma_names_disjoint_member(old(self).todo_accounts@, fl_before);
                    lemma_names_disjoint_member(fl_before, old(self).invalid_accounts@);
                    lemma_names_disjoint_member(
                        old(self).todo_accounts@,
                        old(self).invalid_accounts@,
                    );
                    lemma_make_names_disjoint(self.todo_accounts@, self.in_flight_accounts@);
                    lemma_make_names_disjoint(self.in_flight_accounts@, self.invalid_accounts@);
                }
                let rate_limited = match error {
                    CrawlerError::RateLimit => true,
                    _ => false,
                };
                if rate_limited {
                    if !contains_account(&self.todo_accounts, n) && !contains_account(
                        &self.invalid_accounts,
                        n,
                    ) {
                        let ghost todo_before = self.todo_accounts@;
                        self.todo_accounts.push(n.clone());
                        proof {
                            lemma_push_name_unique(todo_before, self.todo_accounts@.last());
                            lemma_name_push_members(todo_before, self.todo_accounts@.last());
                            lemma_names_disjoint_member(todo_before, self.in_flight_accounts@);
                            lemma_make_names_disjoint(
                                self.todo_accounts@,
                                self.in_flight_accounts@,
                            );
                            lemma_names_disjoint_member(todo_before, self.invalid_accounts@);
                            lemma_make_names_disjoint(self.todo_accounts@, self.invalid_accounts@);
                        }
                    }
                } else {
                    if !contains_account(&self.invalid_accounts, n) && !contains_account(
                        &self.todo_accounts,
                        n,
                    ) {
                        let ghost inv_before = self.invalid_accounts@;
                        self.invalid_accounts.push(n.clone());
                        proof {
                            lemma_push_name_unique(inv_before, self.invalid_accounts@.last());
                            lemma_name_push_members(inv_before, self.invalid_accounts@.last());
                            lemma_names_disjoint_member(self.todo_accounts@, inv_before);
                            lemma_make_names_disjoint(self.todo_accounts@, self.invalid_accounts@);
                            lemma_names_disjoint_member(self.in_flight_accounts@, inv_before);
                            lemma_make_names_disjoint(
                                self.in_flight_accounts@,
                                self.invalid_accounts@,
                            );
                        }
                    }
                }
            },
        }
    }
}

} // verus!
