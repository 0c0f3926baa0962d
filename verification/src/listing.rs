use vstd::prelude::*;
use vstd::multiset::Multiset;
use vstd::seq_lib::lemma_multiset_commutative;
use vstd::string::*;
use crate::page::{Page, WeekPage};
use crate::time::Timestamp;

verus! {

/// Strict lexicographic order on character sequences, the order of shard
/// filenames: zero-padded date labels sort the same way their weeks do.
pub open spec fn lex_lt(a: Seq<char>, b: Seq<char>) -> bool
    decreases a.len(),
{
    if b.len() == 0 {
        false
    } else if a.len() == 0 {
        true
    } else if a[0] == b[0] {
        lex_lt(a.drop_first(), b.drop_first())
    } else {
        (a[0] as int) < (b[0] as int)
    }
}

/// A shared prefix does not decide the order: it is decided past it.
proof fn lemma_lex_lt_skip(a: Seq<char>, b: Seq<char>, i: int)
    requires
        0 <= i <= a.len(),
        i <= b.len(),
        forall|k: int| 0 <= k < i ==> a[k] == b[k],
    ensures
        lex_lt(a, b) == lex_lt(a.skip(i), b.skip(i)),
    decreases i,
{
    if i > 0 {
        assert(a.len() > 0 && b.len() > 0 && a[0] == b[0]);
        assert(lex_lt(a, b) == lex_lt(a.drop_first(), b.drop_first()));
        assert(a.drop_first().skip(i - 1) =~= a.skip(i));
        assert(b.drop_first().skip(i - 1) =~= b.skip(i));
        lemma_lex_lt_skip(a.drop_first(), b.drop_first(), i - 1);
    } else {
        assert(a.skip(0) =~= a);
        assert(b.skip(0) =~= b);
    }
}

/// Whether `a` reads strictly before `b` in lexicographic order.
pub fn str_lex_lt(a: &str, b: &str) -> (r: bool)
    ensures
        r == lex_lt(a@, b@),
{
    let na = a.unicode_len();
    let nb = b.unicode_len();
    let mut i: usize = 0;
    while i < na && i < nb
        invariant
            i <= na,
            i <= nb,
            na == a@.len(),
            nb == b@.len(),
            forall|k: int| 0 <= k < i ==> a@[k] == b@[k],
        decreases na - i,
    {
        let ca = a.get_char(i);
        let cb = b.get_char(i);
        if ca != cb {
            proof {
                lemma_lex_lt_skip(a@, b@, i as int);
                assert(a@.skip(i as int)[0] == a@[i as int]);
                assert(b@.skip(i as int)[0] == b@[i as int]);
            }
            return (ca as u32) < (cb as u32);
        }
        i += 1;
    }
    proof {
        lemma_lex_lt_skip(a@, b@, i as int);
        if i >= nb {
            assert(b@.skip(i as int).len() == 0);
        } else {
            assert(a@.skip(i as int).len() == 0 && b@.skip(i as int).len() > 0);
        }
    }
    i < nb
}

/// `a` is strictly later than `b`.
pub open spec fn ts_gt(a: Timestamp, b: Timestamp) -> bool {
    !a.spec_le(b)
}

/// A page sequence with `x` placed before the first strictly older page:
/// descending by creation time, pages created at one instant kept in order.
pub open spec fn insert_page_desc_spec(s: Seq<Page>, x: Page) -> Seq<Page>
    decreases s.len(),
{
    if s.len() == 0 {
        seq![x]
    } else if ts_gt(x.created_at, s[0].created_at) {
        seq![x] + s
    } else {
        seq![s[0]] + insert_page_desc_spec(s.drop_first(), x)
    }
}

/// The pages of one shard ordered by creation time, newest first.
pub open spec fn sort_pages_desc_spec(s: Seq<Page>) -> Seq<Page>
    decreases s.len(),
{
    if s.len() == 0 {
        Seq::empty()
    } else {
        insert_page_desc_spec(sort_pages_desc_spec(s.drop_last()), s.last())
    }
}

proof fn lemma_insert_page_at(s: Seq<Page>, x: Page, pos: int)
    requires
        0 <= pos <= s.len(),
        forall|k: int| 0 <= k < pos ==> !ts_gt(x.created_at, (#[trigger] s[k]).created_at),
        pos < s.len() ==> ts_gt(x.created_at, s[pos].created_at),
    ensures
        insert_page_desc_spec(s, x) == s.subrange(0, pos) + seq![x] + s.subrange(
            pos,
            s.len() as int,
        ),
    decreases pos,
{
    if pos == 0 {
        if s.len() == 0 {
            assert(insert_page_desc_spec(s, x) =~= s.subrange(0, 0) + seq![x] + s.subrange(0, 0));
        } else {
            assert(insert_page_desc_spec(s, x) =~= s.subrange(0, 0) + seq![x] + s.subrange(
                0,
                s.len() as int,
            ));
        }
    } else {
        lemma_insert_page_at(s.drop_first(), x, pos - 1);
        assert(s.drop_first().subrange(0, pos - 1) =~= s.subrange(1, pos));
        assert(s.drop_first().subrange(pos - 1, s.drop_first().len() as int) =~= s.subrange(
            pos,
            s.len() as int,
        ));
        assert(seq![s[0]] + insert_page_desc_spec(s.drop_first(), x) =~= s.subrange(0, pos) + seq![
            x,
        ] + s.subrange(pos, s.len() as int));
    }
}

fn insert_page_desc(out: &mut Vec<Page>, x: Page)
    ensures
        final(out)@ == insert_page_desc_spec(old(out)@, x),
{
    let mut p: usize = 0;
    loop
        invariant_except_break
            p <= out@.len(),
            out@ == old(out)@,
            forall|k: int|
                0 <= k < p ==> !ts_gt(x.created_at, (#[trigger] out@[k]).created_at),
        ensures
            out@ == old(out)@,
            p <= out@.len(),
            forall|k: int|
                0 <= k < p ==> !ts_gt(x.created_at, (#[trigger] out@[k]).created_at),
            p < out@.len() ==> ts_gt(x.created_at, out@[p as int].created_at),
        decreases out@.len() - p,
    {
        if p >= out.len() {
            break;
        }
        let later = out[p].created_at.lt(&x.created_at);
        if later {
            break;
        }
        p += 1;
    }
    proof {
        lemma_insert_page_at(out@, x, p as int);
    }
    out.insert(p, x);
    proof {
        assert(out@ =~= old(out)@.subrange(0, p as int) + seq![x] + old(out)@.subrange(
            p as int,
            old(out)@.len() as int,
        ));
    }
}

/// Orders a shard's pages by creation time, newest first; pages created at
/// one instant keep their stored order.
pub fn sort_pages_desc(pages: Vec<Page>) -> (r: Vec<Page>)
    ensures
        r@ == sort_pages_desc_spec(pages@),
{
    let ghost orig = pages@;
    let mut src = pages;
    let total = src.len();
    let mut out: Vec<Page> = Vec::new();
    proof {
        assert(orig.take(0).len() == 0);
        assert(out@ =~= sort_pages_desc_spec(orig.take(0)));
    }
    while src.len() > 0
        invariant
            src@.len() <= orig.len(),
            orig.len() == total,
            src@ =~= orig.skip((orig.len() - src@.len()) as int),
            out@ == sort_pages_desc_spec(orig.take((orig.len() - src@.len()) as int)),
        decreases src@.len(),
    {
        let ghost k = (orig.len() - src@.len()) as int;
        let x = src.remove(0);
        assert(x == orig[k]);
        insert_page_desc(&mut out, x);
        proof {
            assert(orig.take(k + 1).drop_last() =~= orig.take(k));
            assert(orig.take(k + 1).last() == orig[k]);
            assert(src@ =~= orig.skip(k + 1));
        }
    }
    proof {
        assert(orig.take(orig.len() as int) =~= orig);
    }
    out
}

/// A shard list with `(name, shard)` placed before the first entry whose
/// name reads strictly earlier: descending by filename.
pub open spec fn insert_shard_desc_spec(s: Seq<(String, WeekPage)>, x: (String, WeekPage)) -> Seq<
    (String, WeekPage),
>
    decreases s.len(),
{
    if s.len() == 0 {
        seq![x]
    } else if lex_lt(s[0].0@, x.0@) {
        seq![x] + s
    } else {
        seq![s[0]] + insert_shard_desc_spec(s.drop_first(), x)
    }
}

/// Shards ordered by filename, latest week first (filenames are zero-padded
/// date labels, so filename order is week order).
pub open spec fn sort_shards_desc_spec(s: Seq<(String, WeekPage)>) -> Seq<(String, WeekPage)>
    decreases s.len(),
{
    if s.len() == 0 {
        Seq::empty()
    } else {
        insert_shard_desc_spec(sort_shards_desc_spec(s.drop_last()), s.last())
    }
}

proof fn lemma_insert_shard_at(s: Seq<(String, WeekPage)>, x: (String, WeekPage), pos: int)
    requires
        0 <= pos <= s.len(),
        forall|k: int| 0 <= k < pos ==> !lex_lt((#[trigger] s[k]).0@, x.0@),
        pos < s.len() ==> lex_lt(s[pos].0@, x.0@),
    ensures
        insert_shard_desc_spec(s, x) == s.subrange(0, pos) + seq![x] + s.subrange(
            pos,
            s.len() as int,
        ),
    decreases pos,
{
    if pos == 0 {
        if s.len() == 0 {
            assert(insert_shard_desc_spec(s, x) =~= s.subrange(0, 0) + seq![x] + s.subrange(0, 0));
        } else {
            assert(insert_shard_desc_spec(s, x) =~= s.subrange(0, 0) + seq![x] + s.subrange(
                0,
                s.len() as int,
            ));
        }
    } else {
        lemma_insert_shard_at(s.drop_first(), x, pos - 1);
        assert(s.drop_first().subrange(0, pos - 1) =~= s.subrange(1, pos));
        assert(s.drop_first().subrange(pos - 1, s.drop_first().len() as int) =~= s.subrange(
            pos,
            s.len() as int,
        ));
        assert(seq![s[0]] + insert_shard_desc_spec(s.drop_first(), x) =~= s.subrange(0, pos) + seq![
            x,
        ] + s.subrange(pos, s.len() as int));
    }
}

fn insert_shard_desc(out: &mut Vec<(String, WeekPage)>, x: (String, WeekPage))
    ensures
        final(out)@ == insert_shard_desc_spec(old(out)@, x),
{
    let mut p: usize = 0;
    loop
        invariant_except_break
            p <= out@.len(),
            out@ == old(out)@,
            forall|k: int| 0 <= k < p ==> !lex_lt((#[trigger] out@[k]).0@, x.0@),
        ensures
            out@ == old(out)@,
            p <= out@.len(),
            forall|k: int| 0 <= k < p ==> !lex_lt((#[trigger] out@[k]).0@, x.0@),
            p < out@.len() ==> lex_lt(out@[p as int].0@, x.0@),
        decreases out@.len() - p,
    {
        if p >= out.len() {
            break;
        }
        let entry = &out[p];
        let earlier = str_lex_lt(entry.0.as_str(), x.0.as_str());
        if earlier {
            break;
        }
        p += 1;
    }
    proof {
        lemma_insert_shard_at(out@, x, p as int);
    }
    out.insert(p, x);
    proof {
        assert(out@ =~= old(out)@.subrange(0, p as int) + seq![x] + old(out)@.subrange(
            p as int,
            old(out)@.len() as int,
        ));
    }
}

/// Orders shard files by filename, latest week first.
pub fn sort_shards_desc(shards: Vec<(String, WeekPage)>) -> (r: Vec<(String, WeekPage)>)
    ensures
        r@ == sort_shards_desc_spec(shards@),
{
    let ghost orig = shards@;
    let mut src = shards;
    let total = src.len();
    let mut out: Vec<(String, WeekPage)> = Vec::new();
    proof {
        assert(out@ =~= sort_shards_desc_spec(orig.take(0)));
    }
    while src.len() > 0
        invariant
            src@.len() <= orig.len(),
            orig.len() == total,
            src@ =~= orig.skip((orig.len() - src@.len()) as int),
            out@ == sort_shards_desc_spec(orig.take((orig.len() - src@.len()) as int)),
        decreases src@.len(),
    {
        let ghost k = (orig.len() - src@.len()) as int;
        let x = src.remove(0);
        assert(x == orig[k]);
        insert_shard_desc(&mut out, x);
        proof {
            assert(orig.take(k + 1).drop_last() =~= orig.take(k));
            assert(orig.take(k + 1).last() == orig[k]);
            assert(src@ =~= orig.skip(k + 1));
        }
    }
    proof {
        assert(orig.take(orig.len() as int) =~= orig);
    }
    out
}

/// Whether `needle` occurs contiguously inside `hay`.
pub open spec fn contains_sub(hay: Seq<char>, needle: Seq<char>) -> bool {
    exists|i: int|
        0 <= i <= hay.len() - needle.len() && #[trigger] hay.subrange(i, i + needle.len())
            == needle
}

/// Substring search over characters, the match test of the search command.
pub fn str_contains_sub(hay: &str, needle: &str) -> (r: bool)
    ensures
        r == contains_sub(hay@, needle@),
{
    let nh = hay.unicode_len();
    let nn = needle.unicode_len();
    if nn > nh {
        proof {
            if contains_sub(hay@, needle@) {
                let i = choose|i: int|
                    0 <= i <= hay@.len() - needle@.len() && #[trigger] hay@.subrange(
                        i,
                        i + needle@.len(),
                    ) == needle@;
            }
        }
        return false;
    }
    let mut i: usize = 0;
    while i <= nh - nn
        invariant
            nn <= nh,
            nh == hay@.len(),
            nn == needle@.len(),
            i <= nh - nn + 1,
            forall|ii: int|
                0 <= ii < i ==> #[trigger] hay@.subrange(ii, ii + needle@.len()) != needle@,
        decreases nh - nn + 1 - i,
    {
        let mut j: usize = 0;
        let mut matched = true;
        while j < nn
            invariant_except_break
                matched,
                j <= nn,
                i + nn <= nh,
                nh == hay@.len(),
                nn == needle@.len(),
                forall|jj: int| 0 <= jj < j ==> hay@[i + jj] == needle@[jj],
            ensures
                matched ==> forall|jj: int| 0 <= jj < nn ==> hay@[i + jj] == needle@[jj],
                !matched ==> exists|jj: int| 0 <= jj < nn && hay@[i + jj] != needle@[jj],
            decreases nn - j,
        {
            let ch = hay.get_char(i + j);
            let cn = needle.get_char(j);
            if ch != cn {
                matched = false;
                break;
            }
            j += 1;
            if j >= nn {
                break;
            }
        }
        if matched {
            proof {
                assert(hay@.subrange(i as int, i as int + needle@.len()) =~= needle@);
            }
            return true;
        }
        proof {
            if hay@.subrange(i as int, i as int + needle@.len()) == needle@ {
                let jj = choose|jj: int| 0 <= jj < nn && hay@[i + jj] != needle@[jj];
                assert(hay@.subrange(i as int, i as int + needle@.len())[jj] == hay@[i + jj]);
            }
        }
        i += 1;
    }
    proof {
        assert forall|ii: int|
            0 <= ii <= hay@.len() - needle@.len() implies #[trigger] hay@.subrange(
            ii,
            ii + needle@.len(),
        ) != needle@ by {}
    }
    false
}

/// What a listing shows: everything, only pages not marked hidden, or the
/// pages a search query matches in the title, the text, or either.
pub enum PageFilter {
    All,
    Visible,
    Query { query: String, title_only: bool, text_only: bool },
}

/// Whether a page passes a filter. A query never matches a hidden page.
pub open spec fn spec_page_passes(filter: PageFilter, page: Page) -> bool {
    match filter {
        PageFilter::All => true,
        PageFilter::Visible => !page.hidden,
        PageFilter::Query { query, title_only, text_only } => {
            if page.hidden {
                false
            } else if title_only {
                contains_sub(page.title@, query@)
            } else if text_only {
                contains_sub(page.text@, query@)
            } else {
                contains_sub(page.title@, query@) || contains_sub(page.text@, query@)
            }
        },
    }
}

/// Decides whether a listing or search shows the page.
pub fn page_passes(filter: &PageFilter, page: &Page) -> (r: bool)
    ensures
        r == spec_page_passes(*filter, *page),
{
    match filter {
        PageFilter::All => true,
        PageFilter::Visible => !page.hidden,
        PageFilter::Query { query, title_only, text_only } => {
            if page.hidden {
                false
            } else if *title_only {
                str_contains_sub(page.title.as_str(), query.as_str())
            } else if *text_only {
                str_contains_sub(page.text.as_str(), query.as_str())
            } else {
                str_contains_sub(page.title.as_str(), query.as_str()) || str_contains_sub(
                    page.text.as_str(),
                    query.as_str(),
                )
            }
        },
    }
}

/// The first pages of a sequence that pass the filter, at most `limit` many,
/// in order.
pub open spec fn select_limited(pages: Seq<Page>, filter: PageFilter, limit: nat) -> Seq<Page>
    decreases pages.len(),
{
    if pages.len() == 0 || limit == 0 {
        Seq::empty()
    } else if spec_page_passes(filter, pages[0]) {
        seq![pages[0]] + select_limited(pages.drop_first(), filter, (limit - 1) as nat)
    } else {
        select_limited(pages.drop_first(), filter, limit)
    }
}

proof fn lemma_select_limited_len(pages: Seq<Page>, filter: PageFilter, limit: nat)
    ensures
        select_limited(pages, filter, limit).len() <= limit,
        select_limited(pages, filter, limit).len() <= pages.len(),
    decreases pages.len(),
{
    if pages.len() != 0 && limit != 0 {
        if spec_page_passes(filter, pages[0]) {
            lemma_select_limited_len(pages.drop_first(), filter, (limit - 1) as nat);
        } else {
            lemma_select_limited_len(pages.drop_first(), filter, limit);
        }
    }
}

proof fn lemma_select_app(s: Seq<Page>, t: Seq<Page>, filter: PageFilter, limit: nat)
    ensures
        select_limited(s + t, filter, limit) == select_limited(s, filter, limit) + select_limited(
            t,
            filter,
            (limit - select_limited(s, filter, limit).len()) as nat,
        ),
    decreases s.len(),
{
    lemma_select_limited_len(s, filter, limit);
    if s.len() == 0 {
        assert(s + t =~= t);
        assert(select_limited(s, filter, limit) =~= Seq::<Page>::empty());
        assert(select_limited(s, filter, limit) + select_limited(t, filter, limit) =~=
            select_limited(t, filter, limit));
    } else if limit == 0 {
        assert(select_limited(s + t, filter, 0) =~= Seq::<Page>::empty());
        assert(select_limited(s, filter, 0) + select_limited(t, filter, 0) =~= Seq::<
            Page,
        >::empty());
    } else {
        assert((s + t).len() > 0);
        assert((s + t)[0] == s[0]);
        assert((s + t).drop_first() =~= s.drop_first() + t);
        if spec_page_passes(filter, s[0]) {
            lemma_select_app(s.drop_first(), t, filter, (limit - 1) as nat);
            assert(seq![s[0]] + (select_limited(s.drop_first(), filter, (limit - 1) as nat)
                + select_limited(
                t,
                filter,
                (limit - 1 - select_limited(s.drop_first(), filter, (limit - 1) as nat).len()) as nat,
            )) =~= (seq![s[0]] + select_limited(s.drop_first(), filter, (limit - 1) as nat))
                + select_limited(
                t,
                filter,
                (limit - 1 - select_limited(s.drop_first(), filter, (limit - 1) as nat).len()) as nat,
            ));
        } else {
            lemma_select_app(s.drop_first(), t, filter, limit);
        }
    }
}

/// The sorted pages of each shard, shards in the given order, as one
/// sequence.
pub open spec fn flatten_sorted(shards: Seq<(String, WeekPage)>) -> Seq<Page>
    decreases shards.len(),
{
    if shards.len() == 0 {
        Seq::empty()
    } else {
        sort_pages_desc_spec(shards[0].1.pages@) + flatten_sorted(shards.drop_first())
    }
}

proof fn lemma_flatten_take_succ(shards: Seq<(String, WeekPage)>, k: int)
    requires
        0 <= k < shards.len(),
    ensures
        flatten_sorted(shards.take(k + 1)) == flatten_sorted(shards.take(k)) + sort_pages_desc_spec(
            shards[k].1.pages@,
        ),
    decreases k,
{
    if k == 0 {
        assert(shards.take(1)[0] == shards[0]);
        assert(shards.take(1).drop_first() =~= Seq::<(String, WeekPage)>::empty());
        assert(flatten_sorted(Seq::<(String, WeekPage)>::empty()) =~= Seq::<Page>::empty());
        assert(flatten_sorted(shards.take(1)) =~= sort_pages_desc_spec(shards[0].1.pages@));
        assert(flatten_sorted(shards.take(0)) =~= Seq::<Page>::empty());
        assert(flatten_sorted(shards.take(0)) + sort_pages_desc_spec(shards[0].1.pages@) =~=
            sort_pages_desc_spec(shards[0].1.pages@));
    } else {
        let dt = shards.drop_first();
        lemma_flatten_take_succ(dt, k - 1);
        assert(shards.take(k + 1).drop_first() =~= dt.take(k));
        assert(shards.take(k).drop_first() =~= dt.take(k - 1));
        assert(shards.take(k + 1)[0] == shards[0]);
        assert(shards.take(k)[0] == shards[0]);
        assert(dt[k - 1] == shards[k]);
        let head = sort_pages_desc_spec(shards[0].1.pages@);
        assert(flatten_sorted(shards.take(k + 1)) =~= head + flatten_sorted(dt.take(k)));
        assert(flatten_sorted(shards.take(k)) =~= head + flatten_sorted(dt.take(k - 1)));
        assert(head + (flatten_sorted(dt.take(k - 1)) + sort_pages_desc_spec(shards[k].1.pages@))
            =~= (head + flatten_sorted(dt.take(k - 1))) + sort_pages_desc_spec(shards[k].1.pages@));
    }
}

/// What listing returns for a set of shard files: shards ordered by filename
/// descending, each shard's pages ordered by creation time descending, pages
/// passing the filter, cut off at `limit`.
pub open spec fn spec_list(
    shards: Seq<(String, WeekPage)>,
    limit: nat,
    filter: PageFilter,
) -> Seq<Page> {
    select_limited(flatten_sorted(sort_shards_desc_spec(shards)), filter, limit)
}

/// Lists the newest pages that pass the filter, at most `limit` of them:
/// shard files are visited in descending filename order, each shard's pages
/// in descending creation order, and collection stops at the limit.
pub fn list_with_filter(shards: Vec<(String, WeekPage)>, limit: u32, filter: &PageFilter) -> (r:
    Vec<Page>)
    ensures
        r@ == spec_list(shards@, limit as nat, *filter),
        r@.len() <= limit,
{
    let ghost origin = shards@;
    let sorted = sort_shards_desc(shards);
    let ghost sv = sorted@;
    let mut src = sorted;
    let total = src.len();
    let mut out: Vec<Page> = Vec::new();
    proof {
        lemma_select_limited_len(flatten_sorted(sv.take(0)), *filter, limit as nat);
        assert(flatten_sorted(sv.take(0)) =~= Seq::<Page>::empty());
        assert(out@ =~= select_limited(flatten_sorted(sv.take(0)), *filter, limit as nat));
    }
    while src.len() > 0
        invariant
            src@.len() <= sv.len(),
            sv.len() == total,
            src@ =~= sv.skip((sv.len() - src@.len()) as int),
            out@ == select_limited(
                flatten_sorted(sv.take((sv.len() - src@.len()) as int)),
                *filter,
                limit as nat,
            ),
            out@.len() <= limit,
        decreases src@.len(),
    {
        let ghost k = (sv.len() - src@.len()) as int;
        let ghost flat = flatten_sorted(sv.take(k));
        let entry = src.remove(0);
        assert(entry == sv[k]);
        let pages_sorted = sort_pages_desc(entry.1.pages);
        let ghost pv = pages_sorted@;
        let mut pg = pages_sorted;
        let inner_total = pg.len();
        proof {
            assert(pv.take(0) =~= Seq::<Page>::empty());
            assert(flat + pv.take(0) =~= flat);
        }
        while pg.len() > 0
            invariant
                pg@.len() <= pv.len(),
                pv.len() == inner_total,
                pg@ =~= pv.skip((pv.len() - pg@.len()) as int),
                out@ == select_limited(flat + pv.take((pv.len() - pg@.len()) as int), *filter,
                    limit as nat),
                out@.len() <= limit,
            decreases pg@.len(),
        {
            let ghost m = (pv.len() - pg@.len()) as int;
            let ghost sofar = flat + pv.take(m);
            let page = pg.remove(0);
            assert(page == pv[m]);
            let pass = page_passes(filter, &page);
            proof {
                lemma_select_app(sofar, seq![page], *filter, limit as nat);
                lemma_select_limited_len(sofar, *filter, limit as nat);
                assert(flat + pv.take(m + 1) =~= sofar + seq![page]);
                assert(seq![page].drop_first() =~= Seq::<Page>::empty());
                assert(seq![page][0] == page);
                assert(select_limited(Seq::<Page>::empty(), *filter, 0) =~= Seq::<Page>::empty());
                let rest = (limit - select_limited(sofar, *filter, limit as nat).len()) as nat;
                if rest == 0 {
                    assert(select_limited(seq![page], *filter, rest) =~= Seq::<Page>::empty());
                } else if spec_page_passes(*filter, page) {
                    assert(select_limited(Seq::<Page>::empty(), *filter, (rest - 1) as nat) =~=
                        Seq::<Page>::empty());
                    assert(select_limited(seq![page], *filter, rest) =~= seq![page]);
                } else {
                    assert(select_limited(Seq::<Page>::empty(), *filter, rest) =~= Seq::<
                        Page,
                    >::empty());
                    assert(select_limited(seq![page], *filter, rest) =~= Seq::<Page>::empty());
                }
                assert(pg@ =~= pv.skip(m + 1));
            }
            if pass && out.len() < limit as usize {
                out.push(page);
                proof {
                    assert(out@ =~= select_limited(flat + pv.take(m + 1), *filter, limit as nat));
                }
            } else {
                proof {
                    assert(out@ =~= select_limited(flat + pv.take(m + 1), *filter, limit as nat));
                }
            }
        }
        proof {
            assert(pv.take(pv.len() as int) =~= pv);
            lemma_flatten_take_succ(sv, k);
            assert(pv == sort_pages_desc_spec(sv[k].1.pages@));
            assert(src@ =~= sv.skip(k + 1));
            lemma_select_limited_len(flatten_sorted(sv.take(k + 1)), *filter, limit as nat);
        }
    }
    proof {
        assert(sv.take(sv.len() as int) =~= sv);
    }
    out
}

/// Lists the newest pages without any filter.
pub fn list(shards: Vec<(String, WeekPage)>, limit: u32) -> (r: Vec<Page>)
    ensures
        r@ == spec_list(shards@, limit as nat, PageFilter::All),
        r@.len() <= limit,
{
    list_with_filter(shards, limit, &PageFilter::All)
}

/// Write round-trip: a page written into an empty store and listed back with
/// any positive limit comes back alone and unchanged, whatever the shard
/// file's name.
pub proof fn lemma_write_round_trip(wp: WeekPage, p: Page, name: String, limit: nat)
    requires
        wp.pages@ == crate::storage::spec_write_pages(Seq::empty(), p),
        limit >= 1,
    ensures
        spec_list(seq![(name, wp)], limit, PageFilter::All) == seq![p],
{
    assert(crate::storage::first_created_pos(Seq::empty(), p.created_at) == -1);
    assert(wp.pages@ =~= seq![p]);
    let entry = (name, wp);
    let ss = seq![entry];
    assert(ss.drop_last() =~= Seq::<(String, WeekPage)>::empty());
    assert(sort_shards_desc_spec(ss.drop_last()) =~= Seq::<(String, WeekPage)>::empty());
    assert(ss.last() == entry);
    assert(insert_shard_desc_spec(Seq::empty(), entry) =~= seq![entry]);
    assert(sort_shards_desc_spec(ss) =~= seq![entry]);
    assert(seq![entry][0] == entry);
    assert(seq![entry].drop_first() =~= Seq::<(String, WeekPage)>::empty());
    assert(flatten_sorted(Seq::<(String, WeekPage)>::empty()) =~= Seq::<Page>::empty());
    assert(wp.pages@.drop_last() =~= Seq::<Page>::empty());
    assert(sort_pages_desc_spec(Seq::<Page>::empty()) =~= Seq::<Page>::empty());
    assert(wp.pages@.last() == p);
    assert(insert_page_desc_spec(Seq::empty(), p) =~= seq![p]);
    assert(sort_pages_desc_spec(wp.pages@) =~= seq![p]);
    assert(flatten_sorted(seq![entry]) =~= seq![p]);
    assert(seq![p][0] == p);
    assert(seq![p].drop_first() =~= Seq::<Page>::empty());
    assert(select_limited(Seq::<Page>::empty(), PageFilter::All, (limit - 1) as nat) =~= Seq::<
        Page,
    >::empty());
    assert(select_limited(seq![p], PageFilter::All, limit) =~= seq![p]);
    assert(spec_list(ss, limit, PageFilter::All) =~= seq![p]);
}

/// Descending order by creation time: every earlier page is at least as new
/// as every later one.
pub open spec fn pages_sorted_desc(s: Seq<Page>) -> bool {
    forall|i: int, j: int|
        0 <= i < j < s.len() ==> !ts_gt((#[trigger] s[j]).created_at, (#[trigger] s[i]).created_at)
}

proof fn lemma_insert_page_desc_props(s: Seq<Page>, x: Page)
    requires
        pages_sorted_desc(s),
    ensures
        pages_sorted_desc(insert_page_desc_spec(s, x)),
        insert_page_desc_spec(s, x).to_multiset() =~= s.to_multiset().insert(x),
    decreases s.len(),
{
    broadcast use vstd::multiset::group_multiset_axioms;
    broadcast use vstd::seq_lib::group_to_multiset_ensures;

    let r = insert_page_desc_spec(s, x);
    assert(Seq::<Page>::empty().to_multiset() =~= Multiset::<Page>::empty()) by {
        assert forall|a: Page| Seq::<Page>::empty().to_multiset().count(a) == 0 by {
            assert(!Seq::<Page>::empty().contains(a));
        }
    }
    assert(seq![x].to_multiset() =~= Multiset::<Page>::empty().insert(x)) by {
        assert(seq![x] =~= Seq::<Page>::empty().push(x));
    }
    if s.len() == 0 {
        assert(r =~= seq![x]);
    } else if ts_gt(x.created_at, s[0].created_at) {
        assert(r =~= seq![x] + s);
        lemma_multiset_commutative(seq![x], s);
        assert(r.to_multiset() =~= s.to_multiset().insert(x));
        assert forall|i: int, j: int| 0 <= i < j < r.len() implies !ts_gt(
            (#[trigger] r[j]).created_at,
            (#[trigger] r[i]).created_at,
        ) by {
            if i > 0 {
                assert(r[i] == s[i - 1] && r[j] == s[j - 1]);
            } else {
                assert(r[j] == s[j - 1]);
                if j - 1 > 0 {
                    assert(!ts_gt(s[j - 1].created_at, s[0].created_at));
                }
            }
        }
    } else {
        let t = insert_page_desc_spec(s.drop_first(), x);
        assert(pages_sorted_desc(s.drop_first())) by {
            assert forall|i: int, j: int| 0 <= i < j < s.drop_first().len() implies !ts_gt(
                (#[trigger] s.drop_first()[j]).created_at,
                (#[trigger] s.drop_first()[i]).created_at,
            ) by {
                assert(s.drop_first()[i] == s[i + 1] && s.drop_first()[j] == s[j + 1]);
            }
        }
        lemma_insert_page_desc_props(s.drop_first(), x);
        assert(r =~= seq![s[0]] + t);
        lemma_multiset_commutative(seq![s[0]], t);
        assert(seq![s[0]].to_multiset() =~= Multiset::<Page>::empty().insert(s[0])) by {
            assert(seq![s[0]] =~= Seq::<Page>::empty().push(s[0]));
        }
        assert(s =~= seq![s[0]] + s.drop_first());
        lemma_multiset_commutative(seq![s[0]], s.drop_first());
        assert(r.to_multiset() =~= s.to_multiset().insert(x));
        assert forall|i: int, j: int| 0 <= i < j < r.len() implies !ts_gt(
            (#[trigger] r[j]).created_at,
            (#[trigger] r[i]).created_at,
        ) by {
            if i > 0 {
                assert(r[i] == t[i - 1] && r[j] == t[j - 1]);
            } else {
                let e = r[j];
                assert(t[j - 1] == e);
                assert(t.contains(e));
                assert(t.to_multiset().count(e) > 0);
                if e == x {
                    assert(!ts_gt(e.created_at, s[0].created_at));
                } else {
                    assert(s.drop_first().to_multiset().count(e) > 0);
                    assert(s.drop_first().contains(e));
                    let k = choose|k: int|
                        0 <= k < s.drop_first().len() && s.drop_first()[k] == e;
                    assert(s[k + 1] == e);
                    assert(!ts_gt(e.created_at, s[0].created_at));
                }
            }
        }
    }
}

/// The page order of a listed shard: `sort_pages_desc_spec` really sorts,
/// newest first, and only rearranges the stored pages.
pub proof fn lemma_sort_pages_desc_props(s: Seq<Page>)
    ensures
        pages_sorted_desc(sort_pages_desc_spec(s)),
        sort_pages_desc_spec(s).to_multiset() =~= s.to_multiset(),
    decreases s.len(),
{
    broadcast use vstd::multiset::group_multiset_axioms;
    broadcast use vstd::seq_lib::group_to_multiset_ensures;

    if s.len() == 0 {
        assert(sort_pages_desc_spec(s) =~= Seq::<Page>::empty());
    } else {
        lemma_sort_pages_desc_props(s.drop_last());
        lemma_insert_page_desc_props(sort_pages_desc_spec(s.drop_last()), s.last());
        assert(s =~= s.drop_last().push(s.last()));
        assert(s.to_multiset() =~= s.drop_last().to_multiset().insert(s.last()));
    }
}

/// Nothing reads strictly before itself.
proof fn lemma_lex_lt_irrefl(a: Seq<char>)
    ensures
        !lex_lt(a, a),
    decreases a.len(),
{
    if a.len() > 0 {
        lemma_lex_lt_irrefl(a.drop_first());
    }
}

/// Strict lexicographic order is transitive.
proof fn lemma_lex_lt_trans(a: Seq<char>, b: Seq<char>, c: Seq<char>)
    requires
        lex_lt(a, b),
        lex_lt(b, c),
    ensures
        lex_lt(a, c),
    decreases a.len(),
{
    if a.len() == 0 {
    } else {
        if a[0] == b[0] && b[0] == c[0] {
            lemma_lex_lt_trans(a.drop_first(), b.drop_first(), c.drop_first());
        }
    }
}

/// Descending order by filename: every earlier shard's name reads at least
/// as late as every later one's.
pub open spec fn shards_sorted_desc(s: Seq<(String, WeekPage)>) -> bool {
    forall|i: int, j: int|
        0 <= i < j < s.len() ==> !lex_lt((#[trigger] s[i]).0@, (#[trigger] s[j]).0@)
}

proof fn lemma_insert_shard_desc_props(s: Seq<(String, WeekPage)>, x: (String, WeekPage))
    requires
        shards_sorted_desc(s),
    ensures
        shards_sorted_desc(insert_shard_desc_spec(s, x)),
        insert_shard_desc_spec(s, x).to_multiset() =~= s.to_multiset().insert(x),
    decreases s.len(),
{
    broadcast use vstd::multiset::group_multiset_axioms;
    broadcast use vstd::seq_lib::group_to_multiset_ensures;

    let r = insert_shard_desc_spec(s, x);
    assert(Seq::<(String, WeekPage)>::empty().to_multiset() =~= Multiset::<
        (String, WeekPage),
    >::empty()) by {
        assert forall|a: (String, WeekPage)|
            Seq::<(String, WeekPage)>::empty().to_multiset().count(a) == 0 by {
            assert(!Seq::<(String, WeekPage)>::empty().contains(a));
        }
    }
    assert(seq![x].to_multiset() =~= Multiset::<(String, WeekPage)>::empty().insert(x)) by {
        assert(seq![x] =~= Seq::<(String, WeekPage)>::empty().push(x));
    }
    if s.len() == 0 {
        assert(r =~= seq![x]);
    } else if lex_lt(s[0].0@, x.0@) {
        assert(r =~= seq![x] + s);
        lemma_multiset_commutative(seq![x], s);
        assert(r.to_multiset() =~= s.to_multiset().insert(x));
        assert forall|i: int, j: int| 0 <= i < j < r.len() implies !lex_lt(
            (#[trigger] r[i]).0@,
            (#[trigger] r[j]).0@,
        ) by {
            if i > 0 {
                assert(r[i] == s[i - 1] && r[j] == s[j - 1]);
            } else {
                assert(r[j] == s[j - 1]);
                if lex_lt(x.0@, s[j - 1].0@) {
                    lemma_lex_lt_trans(s[0].0@, x.0@, s[j - 1].0@);
                    if j - 1 == 0 {
                        lemma_lex_lt_irrefl(s[0].0@);
                    } else {
                        assert(!lex_lt(s[0].0@, s[j - 1].0@));
                    }
                }
            }
        }
    } else {
        let t = insert_shard_desc_spec(s.drop_first(), x);
        assert(shards_sorted_desc(s.drop_first())) by {
            assert forall|i: int, j: int| 0 <= i < j < s.drop_first().len() implies !lex_lt(
                (#[trigger] s.drop_first()[i]).0@,
                (#[trigger] s.drop_first()[j]).0@,
            ) by {
                assert(s.drop_first()[i] == s[i + 1] && s.drop_first()[j] == s[j + 1]);
            }
        }
        lemma_insert_shard_desc_props(s.drop_first(), x);
        assert(r =~= seq![s[0]] + t);
        lemma_multiset_commutative(seq![s[0]], t);
        assert(seq![s[0]].to_multiset() =~= Multiset::<(String, WeekPage)>::empty().insert(
            s[0],
        )) by {
            assert(seq![s[0]] =~= Seq::<(String, WeekPage)>::empty().push(s[0]));
        }
        assert(s =~= seq![s[0]] + s.drop_first());
        lemma_multiset_commutative(seq![s[0]], s.drop_first());
        assert(r.to_multiset() =~= s.to_multiset().insert(x));
        assert forall|i: int, j: int| 0 <= i < j < r.len() implies !lex_lt(
            (#[trigger] r[i]).0@,
            (#[trigger] r[j]).0@,
        ) by {
            if i > 0 {
                assert(r[i] == t[i - 1] && r[j] == t[j - 1]);
            } else {
                let e = r[j];
                assert(t[j - 1] == e);
                assert(t.contains(e));
                assert(t.to_multiset().count(e) > 0);
                if e == x {
                    assert(!lex_lt(s[0].0@, x.0@));
                } else {
                    assert(s.drop_first().to_multiset().count(e) > 0);
                    assert(s.drop_first().contains(e));
                    let k = choose|k: int|
                        0 <= k < s.drop_first().len() && s.drop_first()[k] == e;
                    assert(s[k + 1] == e);
                    assert(!lex_lt(s[0].0@, e.0@));
                }
            }
        }
    }
}

/// The shard order of a listing: `sort_shards_desc_spec` really orders the
/// files by filename, latest first, and only rearranges them.
pub proof fn lemma_sort_shards_desc_props(s: Seq<(String, WeekPage)>)
    ensures
        shards_sorted_desc(sort_shards_desc_spec(s)),
        sort_shards_desc_spec(s).to_multiset() =~= s.to_multiset(),
    decreases s.len(),
{
    broadcast use vstd::multiset::group_multiset_axioms;
    broadcast use vstd::seq_lib::group_to_multiset_ensures;

    if s.len() == 0 {
        assert(sort_shards_desc_spec(s) =~= Seq::<(String, WeekPage)>::empty());
    } else {
        lemma_sort_shards_desc_props(s.drop_last());
        lemma_insert_shard_desc_props(sort_shards_desc_spec(s.drop_last()), s.last());
        assert(s =~= s.drop_last().push(s.last()));
        assert(s.to_multiset() =~= s.drop_last().to_multiset().insert(s.last()));
    }
}


/// Whatever a listing returns passed its filter: the selection keeps no
/// page the filter rejects.
pub proof fn lemma_list_pages_pass_filter(
    shards: Seq<(String, WeekPage)>,
    limit: nat,
    filter: PageFilter,
)
    ensures
        forall|i: int|
            0 <= i < spec_list(shards, limit, filter).len() ==> spec_page_passes(
                filter,
                #[trigger] spec_list(shards, limit, filter)[i],
            ),
{
    lemma_select_limited_pred(flatten_sorted(sort_shards_desc_spec(shards)), filter, limit);
}

proof fn lemma_select_limited_pred(pages: Seq<Page>, filter: PageFilter, limit: nat)
    ensures
        forall|i: int|
            0 <= i < select_limited(pages, filter, limit).len() ==> spec_page_passes(
                filter,
                #[trigger] select_limited(pages, filter, limit)[i],
            ),
    decreases pages.len(),
{
    let r = select_limited(pages, filter, limit);
    if pages.len() != 0 && limit != 0 {
        if spec_page_passes(filter, pages[0]) {
            lemma_select_limited_pred(pages.drop_first(), filter, (limit - 1) as nat);
            let t = select_limited(pages.drop_first(), filter, (limit - 1) as nat);
            assert(r == seq![pages[0]] + t);
            assert forall|i: int| 0 <= i < r.len() implies spec_page_passes(
                filter,
                #[trigger] r[i],
            ) by {
                if i > 0 {
                    assert(r[i] == t[i - 1]);
                    assert(spec_page_passes(filter, t[i - 1]));
                } else {
                    assert(r[0] == pages[0]);
                }
            }
        } else {
            lemma_select_limited_pred(pages.drop_first(), filter, limit);
            let t = select_limited(pages.drop_first(), filter, limit);
            assert(r == t);
            assert forall|i: int| 0 <= i < r.len() implies spec_page_passes(
                filter,
                #[trigger] r[i],
            ) by {
                assert(spec_page_passes(filter, t[i]));
            }
        }
    } else {
        assert(r =~= Seq::<Page>::empty());
    }
}

} // verus!
