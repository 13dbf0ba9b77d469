//! What a fetch of a channel's history brings back from a remote service
//! that behaves: the laws of the paginated fetch.
//!
//! The remote service is modelled by the history that it holds, newest
//! message first, each message with an identifier larger than those of all
//! older ones. It answers a request with the newest messages among those
//! older than the request's anchor, as many as the request allows.

use crate::transport::{
    cursor, oldest_first, page_size, progress, request_for, ChatEventView, MessageView,
    PageRequest, Progress, PAGE_LIMIT,
};
use vstd::prelude::*;

verus! {

/// A history as the remote service holds it: newest message first, and the
/// identifiers strictly descending.
pub open spec fn newest_first(history: Seq<MessageView>) -> bool {
    forall|i: int, j: int|
        0 <= i < j < history.len() ==> (#[trigger] history[i]).id > (#[trigger] history[j]).id
}

/// The messages of `history` that are older than the anchor; all of them
/// where there is no anchor.
pub open spec fn older_than(history: Seq<MessageView>, before: Option<u64>) -> Seq<MessageView> {
    match before {
        None => history,
        Some(id) => history.filter(|m: MessageView| m.id < id),
    }
}

/// The page that the remote service answers a request with: the newest
/// messages older than the anchor, as many as the request allows, or all of
/// those where they are fewer.
pub open spec fn page(history: Seq<MessageView>, request: PageRequest) -> Seq<MessageView> {
    let older = older_than(history, request.before);
    if older.len() <= request.limit {
        older
    } else {
        older.take(request.limit as int)
    }
}

/// The messages that a fetch of `limit` messages of a channel ends with,
/// newest first, when it has `collected` some and every further request is
/// answered from the channel's `history`.
pub open spec fn collect(
    history: Seq<MessageView>,
    channel_id: u64,
    limit: nat,
    collected: Seq<MessageView>,
) -> Seq<MessageView>
    decreases limit - collected.len(),
{
    if collected.len() >= limit {
        collected
    } else {
        let batch = page(history, request_for(channel_id, collected, limit));
        match progress(collected, limit, batch) {
            Progress::Finished(all) => all,
            Progress::Pending(all) => collect(history, channel_id, limit, all),
        }
    }
}

/// The events that a fetch of `limit` messages of a channel hands out, from
/// its first request on, when every request is answered from the channel's
/// `history`.
pub open spec fn fetched(history: Seq<MessageView>, channel_id: u64, limit: nat) -> Seq<
    ChatEventView,
> {
    oldest_first(collect(history, channel_id, limit, Seq::empty()))
}

/// The number of requests that a fetch of `limit` messages of a channel
/// still makes when it has `collected` some and every request is answered
/// from the channel's `history`.
pub open spec fn requests(
    history: Seq<MessageView>,
    channel_id: u64,
    limit: nat,
    collected: Seq<MessageView>,
) -> nat
    decreases limit - collected.len(),
{
    if collected.len() >= limit {
        0
    } else {
        let batch = page(history, request_for(channel_id, collected, limit));
        match progress(collected, limit, batch) {
            Progress::Finished(_) => 1,
            Progress::Pending(all) => 1 + requests(history, channel_id, limit, all),
        }
    }
}

/// Where the identifiers at the first `k` places are at least `id` and all
/// later ones are below it, the messages below `id` are those after the first `k`.
proof fn lemma_filter_cuts(history: Seq<MessageView>, id: u64, k: int)
    requires
        0 <= k <= history.len(),
        forall|i: int| 0 <= i < k ==> (#[trigger] history[i]).id >= id,
        forall|i: int| k <= i < history.len() ==> (#[trigger] history[i]).id < id,
    ensures
        history.filter(|m: MessageView| m.id < id) == history.skip(k),
    decreases history.len(),
{
    reveal(Seq::filter);
    let pred = |m: MessageView| m.id < id;
    if history.len() == 0 {
        assert(history.filter(pred) =~= history.skip(k));
    } else {
        let shorter = history.drop_last();
        if k == history.len() {
            assert(history[k - 1].id >= id);
            lemma_filter_cuts(shorter, id, k - 1);
            assert(shorter.skip(k - 1) =~= history.skip(k));
        } else {
            assert(history[history.len() - 1].id < id);
            lemma_filter_cuts(shorter, id, k);
            assert(shorter.skip(k).push(history.last()) =~= history.skip(k));
        }
    }
}

/// After the first `k` messages of a history, the page that the next
/// request brings is what follows them, as far as the request allows.
proof fn lemma_page_follows(history: Seq<MessageView>, channel_id: u64, k: int, limit: u16)
    requires
        newest_first(history),
        0 <= k <= history.len(),
    ensures
        page(history, PageRequest { channel_id, before: cursor(history.take(k)), limit })
            == history.subrange(
            k,
            if history.len() - k <= limit {
                history.len() as int
            } else {
                k + limit
            },
        ),
{
    let older = older_than(history, cursor(history.take(k)));
    if k == 0 {
        assert(older == history);
    } else {
        assert(history.take(k).last() == history[k - 1]);
        lemma_filter_cuts(history, history[k - 1].id, k);
    }
    assert(older =~= history.skip(k));
    if older.len() <= limit {
        assert(older =~= history.subrange(k, history.len() as int));
    } else {
        assert(older.take(limit as int) =~= history.subrange(k, k + limit));
    }
}

/// A fetch that holds the newest `k` messages of a history ends with the
/// newest `limit`, or with the whole history where that is shorter.
proof fn lemma_collect(history: Seq<MessageView>, channel_id: u64, limit: nat, k: int)
    requires
        newest_first(history),
        0 <= k <= history.len(),
        k <= limit,
    ensures
        collect(history, channel_id, limit, history.take(k)) == (if history.len() <= limit {
            history
        } else {
            history.take(limit as int)
        }),
    decreases limit - k,
{
    let collected = history.take(k);
    if k >= limit {
        assert(history.len() == limit ==> history.take(limit as int) =~= history);
    } else {
        let request = request_for(channel_id, collected, limit);
        let batch = page(history, request);
        lemma_page_follows(history, channel_id, k, request.limit);
        let m = batch.len() as int;
        assert(collected + batch =~= history.take(k + m));
        if m == 0 {
            assert(history.take(k) =~= history);
        } else if k + m >= limit {
        } else {
            lemma_collect(history, channel_id, limit, k + m);
        }
    }
}

/// A fetch that holds the newest `k` messages of a history that has at
/// least `limit` makes one request for every page, full or not, that
/// separates it from the limit.
proof fn lemma_requests(history: Seq<MessageView>, channel_id: u64, limit: nat, k: int)
    requires
        newest_first(history),
        0 <= k <= limit <= history.len(),
    ensures
        requests(history, channel_id, limit, history.take(k)) == (limit - k + PAGE_LIMIT - 1) / (
        PAGE_LIMIT as int),
    decreases limit - k,
{
    let collected = history.take(k);
    if k < limit {
        let request = request_for(channel_id, collected, limit);
        let size = request.limit as int;
        let batch = page(history, request);
        lemma_page_follows(history, channel_id, k, request.limit);
        assert(batch.len() == size);
        assert(collected + batch =~= history.take(k + size));
        if k + size < limit {
            lemma_requests(history, channel_id, limit, k + size);
        }
    }
}

/// One step of a fetch against the remote service: the page that answers
/// the pending request ends the fetch where [`collect`] says, or moves it on
/// without changing where it ends.
pub proof fn law_step_keeps_the_end(
    history: Seq<MessageView>,
    channel_id: u64,
    limit: nat,
    collected: Seq<MessageView>,
)
    requires
        collected.len() < limit,
    ensures
        match progress(
            collected,
            limit,
            page(history, request_for(channel_id, collected, limit)),
        ) {
            Progress::Finished(all) => collect(history, channel_id, limit, collected) == all,
            Progress::Pending(all) => collect(history, channel_id, limit, collected) == collect(
                history,
                channel_id,
                limit,
                all,
            ),
        },
{
}

/// A fetch that wants more messages than the remote service holds brings
/// back all that it holds, oldest first: it ends on the first empty page,
/// and no message is lost or brought twice on the way.
pub proof fn law_short_history_comes_whole(
    history: Seq<MessageView>,
    channel_id: u64,
    limit: nat,
)
    requires
        newest_first(history),
        history.len() < limit,
    ensures
        fetched(history, channel_id, limit) == oldest_first(history),
{
    assert(history.take(0) =~= Seq::<MessageView>::empty());
    lemma_collect(history, channel_id, limit, 0);
}

/// A fetch of `limit` messages from a remote service that holds at least
/// that many brings back exactly the newest `limit`, oldest first, whatever
/// the number of pages: nothing is lost or brought twice where one page ends
/// and the next begins. It takes one request for every hundred messages, and
/// one more for what remains.
pub proof fn law_long_history_comes_to_the_limit(
    history: Seq<MessageView>,
    channel_id: u64,
    limit: nat,
)
    requires
        newest_first(history),
        history.len() >= limit,
    ensures
        fetched(history, channel_id, limit) == oldest_first(history.take(limit as int)),
        fetched(history, channel_id, limit).len() == limit,
        requests(history, channel_id, limit, Seq::empty()) == (limit + PAGE_LIMIT - 1) / (
        PAGE_LIMIT as int),
        limit > PAGE_LIMIT ==> requests(history, channel_id, limit, Seq::empty()) >= 2,
{
    assert(history.take(0) =~= Seq::<MessageView>::empty());
    lemma_collect(history, channel_id, limit, 0);
    lemma_requests(history, channel_id, limit, 0);
    assert(history.len() == limit ==> history.take(limit as int) =~= history);
}

} // verus!
