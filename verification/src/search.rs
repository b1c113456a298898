//! Pure search and filter helpers over a flat entry list.

use vstd::prelude::*;

use crate::entry::{Entry, EntryView};
use crate::tree::entries_view;
use crate::trusted::{contains_seq, lower_of, lowercase, str_contains};

verus! {

/// Whether an entry matches a lowercased query: a case-insensitive
/// substring match over title, username, URL and notes.
pub open spec fn entry_matches(e: EntryView, q: Seq<char>) -> bool {
    ||| contains_seq(lower_of(e.title), q)
    ||| contains_seq(lower_of(e.username), q)
    ||| contains_seq(lower_of(e.url), q)
    ||| contains_seq(lower_of(e.notes), q)
}

/// An empty query matches every entry: the empty character run occurs
/// in every haystack, so a search for it returns the whole list.
pub proof fn lemma_empty_query_matches_every_entry(e: EntryView, q: Seq<char>)
    requires
        q.len() == 0,
    ensures
        entry_matches(e, q),
{
    assert(q =~= Seq::<char>::empty());
    let hay = lower_of(e.title);
    assert(hay.subrange(0, 0 + q.len() as int) =~= q);
    assert(contains_seq(hay, q));
}

/// The query predicate, over a lowercased query.
pub open spec fn search_pred(q: Seq<char>) -> spec_fn(EntryView) -> bool {
    |e: EntryView| entry_matches(e, q)
}

/// The tag predicate.
pub open spec fn tag_pred(t: Seq<char>) -> spec_fn(EntryView) -> bool {
    |e: EntryView| e.tags.contains(t)
}

/// The favorite predicate.
pub open spec fn favorite_pred() -> spec_fn(EntryView) -> bool {
    |e: EntryView| e.is_favorite
}

/// The entries matching `query`, in order: a case-insensitive substring
/// match over title, username, URL and notes.
pub fn search_entries(entries: &[Entry], query: &str) -> (r: Vec<Entry>)
    ensures
        entries_view(r@) == entries_view(entries@).filter(search_pred(lower_of(query@))),
{
    let ghost es = entries_view(entries@);
    let ghost pred = search_pred(lower_of(query@));
    let query_lower = lowercase(query);
    let mut r: Vec<Entry> = Vec::new();
    let mut i: usize = 0;
    proof {
        reveal(Seq::filter);
        assert(es.take(0) =~= Seq::<EntryView>::empty());
        assert(entries_view(r@) =~= es.take(0).filter(pred));
    }
    while i < entries.len()
        invariant
            es == entries_view(entries@),
            pred == search_pred(lower_of(query@)),
            query_lower@ == lower_of(query@),
            i <= entries@.len(),
            entries_view(r@) == es.take(i as int).filter(pred),
        decreases entries@.len() - i,
    {
        let e = &entries[i];
        let title_l = lowercase(e.title.as_str());
        let user_l = lowercase(e.username.as_str());
        let url_l = lowercase(e.url.as_str());
        let notes_l = lowercase(e.notes.as_str());
        let hit = str_contains(title_l.as_str(), query_lower.as_str()) || str_contains(
            user_l.as_str(),
            query_lower.as_str(),
        ) || str_contains(url_l.as_str(), query_lower.as_str()) || str_contains(
            notes_l.as_str(),
            query_lower.as_str(),
        );
        proof {
            assert(hit == entry_matches(entries@[i as int]@, lower_of(query@)));
            reveal(Seq::filter);
            assert(es.take(i + 1).drop_last() =~= es.take(i as int));
            assert(es.take(i + 1).last() == es[i as int]);
        }
        if hit {
            r.push(entries[i].clone());
        }
        i = i + 1;
        proof {
            assert(entries_view(r@) =~= es.take(i as int).filter(pred));
        }
    }
    proof {
        assert(es.take(entries@.len() as int) =~= es);
    }
    r
}

/// The entries carrying `tag`, in order.
pub fn filter_by_tag(entries: &[Entry], tag: &str) -> (r: Vec<Entry>)
    ensures
        entries_view(r@) == entries_view(entries@).filter(tag_pred(tag@)),
{
    let ghost es = entries_view(entries@);
    let ghost pred = tag_pred(tag@);
    let tag_string = tag.to_owned();
    let mut r: Vec<Entry> = Vec::new();
    let mut i: usize = 0;
    proof {
        reveal(Seq::filter);
        assert(es.take(0) =~= Seq::<EntryView>::empty());
        assert(entries_view(r@) =~= es.take(0).filter(pred));
    }
    while i < entries.len()
        invariant
            es == entries_view(entries@),
            pred == tag_pred(tag@),
            tag_string@ == tag@,
            i <= entries@.len(),
            entries_view(r@) == es.take(i as int).filter(pred),
        decreases entries@.len() - i,
    {
        let hit = crate::util::string_vec_has(&entries[i].tags, &tag_string);
        proof {
            assert(hit == es[i as int].tags.contains(tag@));
            reveal(Seq::filter);
            assert(es.take(i + 1).drop_last() =~= es.take(i as int));
            assert(es.take(i + 1).last() == es[i as int]);
        }
        if hit {
            r.push(entries[i].clone());
        }
        i = i + 1;
        proof {
            assert(entries_view(r@) =~= es.take(i as int).filter(pred));
        }
    }
    proof {
        assert(es.take(entries@.len() as int) =~= es);
    }
    r
}

/// The entries marked as favorites, in order.
pub fn get_favorites(entries: &[Entry]) -> (r: Vec<Entry>)
    ensures
        entries_view(r@) == entries_view(entries@).filter(favorite_pred()),
{
    let ghost es = entries_view(entries@);
    let ghost pred = favorite_pred();
    let mut r: Vec<Entry> = Vec::new();
    let mut i: usize = 0;
    proof {
        reveal(Seq::filter);
        assert(es.take(0) =~= Seq::<EntryView>::empty());
        assert(entries_view(r@) =~= es.take(0).filter(pred));
    }
    while i < entries.len()
        invariant
            es == entries_view(entries@),
            pred == favorite_pred(),
            i <= entries@.len(),
            entries_view(r@) == es.take(i as int).filter(pred),
        decreases entries@.len() - i,
    {
        let hit = entries[i].is_favorite;
        proof {
            reveal(Seq::filter);
            assert(es.take(i + 1).drop_last() =~= es.take(i as int));
            assert(es.take(i + 1).last() == es[i as int]);
        }
        if hit {
            r.push(entries[i].clone());
        }
        i = i + 1;
        proof {
            assert(entries_view(r@) =~= es.take(i as int).filter(pred));
        }
    }
    proof {
        assert(es.take(entries@.len() as int) =~= es);
    }
    r
}

} // verus!
