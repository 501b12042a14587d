//! Following the pages of the collection.
//!
//! The requests themselves are made elsewhere.  Here is what is decided
//! between them: which address to ask next, what has been collected so far,
//! when the collection is complete, and that the first failure ends it.

use vstd::prelude::*;
use crate::error::PipelineError;
use crate::models::{APIResponse, Page, RawCharacter, Record};

verus! {

/// What came back from one request.
#[derive(Debug, PartialEq, Eq)]
pub enum FetchEvent {
    /// A page arrived.
    Page(APIResponse),
    /// The request did not complete.
    TransportFailure,
    /// The reply did not have the shape of a page.
    MalformedReply,
}

/// How far the collection has been fetched.
#[derive(Debug, PartialEq, Eq)]
pub enum Fetch {
    /// The page at `url` is to be requested; `records` have come so far.
    Requesting { url: String, records: Vec<RawCharacter> },
    /// The last page has come; `records` is the whole collection.
    Complete { records: Vec<RawCharacter> },
    /// A request failed.  What had come before it is given up.
    Failed { error: PipelineError },
}

/// What a [`FetchEvent`] holds.
pub enum Reply {
    Page(Page),
    TransportFailure,
    MalformedReply,
}

/// What a [`Fetch`] holds.
pub enum Progress {
    Requesting { url: Seq<char>, records: Seq<Record> },
    Complete { records: Seq<Record> },
    Failed { error: PipelineError },
}

impl View for FetchEvent {
    type V = Reply;

    open spec fn view(&self) -> Reply {
        match self {
            FetchEvent::Page(page) => Reply::Page(page@),
            FetchEvent::TransportFailure => Reply::TransportFailure,
            FetchEvent::MalformedReply => Reply::MalformedReply,
        }
    }
}

impl View for Fetch {
    type V = Progress;

    open spec fn view(&self) -> Progress {
        match self {
            Fetch::Requesting { url, records } => Progress::Requesting {
                url: url@,
                records: records.deep_view(),
            },
            Fetch::Complete { records } => Progress::Complete { records: records.deep_view() },
            Fetch::Failed { error } => Progress::Failed { error: *error },
        }
    }
}

/// Where a fetch starts: the first page is to be requested, nothing has come.
pub open spec fn initial(url: Seq<char>) -> Progress {
    Progress::Requesting { url, records: Seq::empty() }
}

/// The progress after a reply.
///
/// While a page is awaited, a page adds its records behind those that came
/// before, and its link to the next page says whether and where to go on; a
/// failure ends the fetch.  Once the fetch is complete or has failed, nothing
/// changes it.
pub open spec fn after_reply(progress: Progress, reply: Reply) -> Progress {
    match progress {
        Progress::Requesting { url, records } => match reply {
            Reply::Page(page) => match page.next {
                Some(next) => Progress::Requesting { url: next, records: records + page.results },
                None => Progress::Complete { records: records + page.results },
            },
            Reply::TransportFailure => Progress::Failed { error: PipelineError::Transport },
            Reply::MalformedReply => Progress::Failed { error: PipelineError::Shape },
        },
        _ => progress,
    }
}

/// The progress after a sequence of replies, taken in order.
pub open spec fn after_replies(progress: Progress, replies: Seq<Reply>) -> Progress
    decreases replies.len(),
{
    if replies.len() == 0 {
        progress
    } else {
        after_replies(after_reply(progress, replies[0]), replies.drop_first())
    }
}

/// The records of the pages, page after page.
pub open spec fn records_of(pages: Seq<Page>) -> Seq<Record> {
    pages.map_values(|page: Page| page.results).flatten()
}

/// The pages as replies.
pub open spec fn as_replies(pages: Seq<Page>) -> Seq<Reply> {
    pages.map_values(|page: Page| Reply::Page(page))
}

/// Every page but the last links to a next page, and the last does not.
pub open spec fn is_chain(pages: Seq<Page>) -> bool {
    &&& pages.len() > 0
    &&& forall|i: int| 0 <= i < pages.len() - 1 ==> (#[trigger] pages[i]).next is Some
    &&& pages.last().next is None
}

impl Fetch {
    /// A fetch that is to begin at `url`.
    pub fn start(url: String) -> (fetch: Fetch)
        ensures
            fetch@ == initial(url@),
    {
        let fetch = Fetch::Requesting { url, records: Vec::new() };
        assert(fetch@->Requesting_records =~= Seq::<Record>::empty());
        fetch
    }

    /// The address to request next, while there is one.
    pub fn pending(&self) -> (url: Option<&str>)
        ensures
            match url {
                Some(url) => self@ is Requesting && url@ == self@->Requesting_url,
                None => !(self@ is Requesting),
            },
    {
        match self {
            Fetch::Requesting { url, .. } => Some(url.as_str()),
            _ => None,
        }
    }

    /// Takes the reply to the pending request.
    pub fn advance(self, event: FetchEvent) -> (fetch: Fetch)
        ensures
            fetch@ == after_reply(self@, event@),
    {
        match self {
            Fetch::Requesting { records, .. } => match event {
                FetchEvent::Page(page) => {
                    let APIResponse { next, results, .. } = page;
                    let mut records: Vec<RawCharacter> = records;
                    let mut results: Vec<RawCharacter> = results;
                    let ghost before = records.deep_view();
                    let ghost added = results.deep_view();
                    records.append(&mut results);
                    assert(records.deep_view() =~= before + added);
                    match next {
                        Some(next) => Fetch::Requesting { url: next, records },
                        None => Fetch::Complete { records },
                    }
                },
                FetchEvent::TransportFailure => Fetch::Failed { error: PipelineError::Transport },
                FetchEvent::MalformedReply => Fetch::Failed { error: PipelineError::Shape },
            },
            Fetch::Complete { records } => Fetch::Complete { records },
            Fetch::Failed { error } => Fetch::Failed { error },
        }
    }

    /// How the fetch ended: the whole collection, or the failure.  `None`
    /// while a page is still to be requested.
    pub fn outcome(self) -> (outcome: Option<Result<Vec<RawCharacter>, PipelineError>>)
        ensures
            match outcome {
                Some(Ok(records)) => self@ == (Progress::Complete {
                    records: records.deep_view(),
                }),
                Some(Err(error)) => self@ == (Progress::Failed { error }),
                None => self@ is Requesting,
            },
    {
        match self {
            Fetch::Requesting { .. } => None,
            Fetch::Complete { records } => Some(Ok(records)),
            Fetch::Failed { error } => Some(Err(error)),
        }
    }
}

/// Following a chain of pages from any point collects the records of all
/// its pages behind what had been collected, page after page.
proof fn lemma_chain_from(url: Seq<char>, collected: Seq<Record>, pages: Seq<Page>)
    requires
        is_chain(pages),
    ensures
        after_replies(Progress::Requesting { url, records: collected }, as_replies(pages)) == (
        Progress::Complete { records: collected + records_of(pages) }),
    decreases pages.len(),
{
    let replies = as_replies(pages);
    let rest = pages.drop_first();
    let first = pages[0];
    let progress = Progress::Requesting { url, records: collected };
    assert(replies[0] == Reply::Page(first));
    assert(replies.drop_first() =~= as_replies(rest));
    assert(pages.map_values(|page: Page| page.results).drop_first() =~= rest.map_values(
        |page: Page| page.results,
    ));
    assert(records_of(pages) == first.results + records_of(rest));
    if pages.len() == 1 {
        assert(first == pages.last());
        assert(records_of(rest) =~= Seq::<Record>::empty());
        assert(collected + first.results =~= collected + records_of(pages));
        assert(after_replies(after_reply(progress, replies[0]), as_replies(rest)) == after_reply(
            progress,
            replies[0],
        ));
    } else {
        assert(first.next is Some);
        assert(is_chain(rest)) by {
            assert(rest.last() == pages.last());
            assert forall|i: int| 0 <= i < rest.len() - 1 implies (#[trigger] rest[i]).next
                is Some by {
                assert(rest[i] == pages[i + 1]);
            }
        }
        lemma_chain_from(first.next->0, collected + first.results, rest);
        assert((collected + first.results) + records_of(rest) =~= collected + records_of(pages));
    }
}

/// Pagination is complete: a fetch that is answered with a chain of pages
/// ends complete, with the records of every page, in page order and in the
/// order within each page.
pub proof fn lemma_chain_is_collected(url: Seq<char>, pages: Seq<Page>)
    requires
        is_chain(pages),
    ensures
        after_replies(initial(url), as_replies(pages)) == (Progress::Complete {
            records: records_of(pages),
        }),
{
    lemma_chain_from(url, Seq::empty(), pages);
    assert(Seq::<Record>::empty() + records_of(pages) =~= records_of(pages));
}

} // verus!
