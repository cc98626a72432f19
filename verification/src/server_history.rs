//! Pages of history for the web clients, out of what the server keeps.
use vstd::prelude::*;

use crate::collections::StrMap;
use crate::state::{AppState, Buffer, BufferType, ConnectionStatus, Message};
use crate::text::{cut_first, opt_text, same, split_once};

verus! {

broadcast use vstd::string::group_string_axioms;

/// Times below this are in seconds.
pub const SECONDS_BELOW: i64 = 10_000_000_000;

/// How long a page may wait for the server, in milliseconds.
pub const PAGE_MS: u64 = 35_000;

/// A page that a web client asked for.
#[derive(Debug)]
pub struct PendingHistoryPage {
    pub buffer_id: String,
    /// The conversation that the server was asked about.
    pub request_target: String,
    pub network_scope: Option<String>,
    pub server_history_available: bool,
    pub session_id: String,
    pub limit: usize,
    /// Only rows from up to this time, in milliseconds since the Unix epoch.
    pub before: Option<i64>,
    /// How exactly the client knows the time, in milliseconds.
    pub cursor_precision_ms: i64,
    /// Only rows above this one, where it is still there.
    pub before_message_id: Option<u64>,
    /// When it was asked for, in monotonic milliseconds.
    pub started: u64,
}

/// A time as exactly as a client knows it.
pub open spec fn slot(at_ms: i64, precision: i64) -> int {
    at_ms as int / precision as int
}

/// A time as exactly as a client knows it.
pub fn slot_of(at_ms: i64, precision: i64) -> (r: i64)
    requires
        precision > 0,
    ensures
        r == slot(at_ms, precision),
{
    let p: u64 = precision as u64;
    if at_ms >= 0 {
        let q: u64 = at_ms as u64 / p;
        proof {
            vstd::arithmetic::div_mod::lemma_div_is_ordered_by_denominator(at_ms as int, 1, p as int);
        }
        q as i64
    } else {
        let y: u64 = (-(at_ms + 1)) as u64;
        let q: u64 = y / p;
        proof {
            let rem = y as int % p as int;
            vstd::arithmetic::div_mod::lemma_fundamental_div_mod(y as int, p as int);
            vstd::arithmetic::div_mod::lemma_div_is_ordered_by_denominator(y as int, 1, p as int);
            assert(at_ms as int == p as int * (-(q as int) - 1) + (p as int - rem - 1)) by (nonlinear_arith)
                requires
                    y as int == p as int * (q as int) + rem,
                    y as int == -(at_ms as int + 1),
            ;
            vstd::arithmetic::div_mod::lemma_fundamental_div_mod_converse(
                at_ms as int,
                p as int,
                -(q as int) - 1,
                p as int - rem - 1,
            );
        }
        -(q as i64) - 1
    }
}

/// The row above which a page ends, looking from `i` on.
pub open spec fn boundary_from(messages: Seq<Message>, id: u64, i: int) -> Option<int>
    decreases messages.len() - i,
{
    if i >= messages.len() || i < 0 {
        None
    } else if messages[i].id == id {
        Some(i)
    } else {
        boundary_from(messages, id, i + 1)
    }
}

/// The row above which a page ends, where it is still there.
pub open spec fn boundary(messages: Seq<Message>, page: PendingHistoryPage) -> Option<int> {
    match page.before_message_id {
        Some(id) => boundary_from(messages, id, 0),
        None => None,
    }
}

/// A row can stand on a page. `synthetic` marks the rows that the client put in itself.
pub open spec fn eligible(
    messages: Seq<Message>,
    synthetic: Seq<bool>,
    page: PendingHistoryPage,
    i: int,
) -> bool {
    &&& !synthetic[i]
    &&& match boundary(messages, page) {
        Some(b) => i < b,
        None => match page.before {
            Some(before) => slot(messages[i].at_ms, page.cursor_precision_ms) <= slot(
                before,
                page.cursor_precision_ms,
            ),
            None => true,
        },
    }
}

/// The rows among the first `n` that can stand on a page.
pub open spec fn candidates(
    messages: Seq<Message>,
    synthetic: Seq<bool>,
    page: PendingHistoryPage,
    n: int,
) -> Seq<int>
    decreases n,
{
    if n <= 0 {
        Seq::empty()
    } else {
        let init = candidates(messages, synthetic, page, n - 1);
        if eligible(messages, synthetic, page, n - 1) {
            init.push(n - 1)
        } else {
            init
        }
    }
}

/// How many rows from `i` on are older than the time of a page, up to the first that is not.
pub open spec fn older_from(
    messages: Seq<Message>,
    rows: Seq<int>,
    page: PendingHistoryPage,
    before: i64,
    i: int,
) -> int
    decreases rows.len() - i,
{
    if i >= rows.len() || i < 0 {
        rows.len() as int
    } else if slot(messages[rows[i]].at_ms, page.cursor_precision_ms) < slot(
        before,
        page.cursor_precision_ms,
    ) {
        older_from(messages, rows, page, before, i + 1)
    } else {
        i
    }
}

/// The start of a page, moved up so that rows of one moment stay together.
pub open spec fn unsplit(messages: Seq<Message>, rows: Seq<int>, precision: i64, start: int) -> int
    decreases start,
{
    if start <= 0 {
        0
    } else if slot(messages[rows[start - 1]].at_ms, precision) == slot(
        messages[rows[start]].at_ms,
        precision,
    ) {
        unsplit(messages, rows, precision, start - 1)
    } else {
        start
    }
}

/// `a` less `b`, and nothing below zero.
pub open spec fn less(a: int, b: int) -> int {
    if a < b {
        0
    } else {
        a - b
    }
}

/// How many of the rows that could stand on a page lie before it: the page holds the last ones, and by
/// time the last ones that are older, together with all of the moment that it ends at.
pub open spec fn page_skip(messages: Seq<Message>, rows: Seq<int>, page: PendingHistoryPage) -> int {
    match page.before {
        Some(before) if boundary(messages, page) is None => unsplit(
            messages,
            rows,
            page.cursor_precision_ms,
            less(older_from(messages, rows, page, before, 0), page.limit as int),
        ),
        _ => less(rows.len() as int, page.limit as int),
    }
}

/// The rows of a page.
pub open spec fn page_rows(messages: Seq<Message>, synthetic: Seq<bool>, page: PendingHistoryPage) -> Seq<
    int,
> {
    let rows = candidates(messages, synthetic, page, messages.len() as int);
    rows.skip(page_skip(messages, rows, page))
}

/// Rows lie before a page.
pub open spec fn page_more(messages: Seq<Message>, synthetic: Seq<bool>, page: PendingHistoryPage) -> bool {
    let rows = candidates(messages, synthetic, page, messages.len() as int);
    page_skip(messages, rows, page) > 0
}

/// Positions as numbers.
pub open spec fn positions(v: Seq<usize>) -> Seq<int> {
    v.map_values(|i: usize| i as int)
}

/// Candidates are positions.
proof fn lemma_candidates(messages: Seq<Message>, synthetic: Seq<bool>, page: PendingHistoryPage, n: int)
    requires
        0 <= n <= messages.len(),
    ensures
        forall|i: int|
            0 <= i < candidates(messages, synthetic, page, n).len() ==> 0 <= #[trigger] candidates(
                messages,
                synthetic,
                page,
                n,
            )[i] < n,
        candidates(messages, synthetic, page, n).len() <= n,
    decreases n,
{
    if n > 0 {
        lemma_candidates(messages, synthetic, page, n - 1);
    }
}

/// The rows of a page, as positions in the buffer, and whether any lie before it.
fn memory_page(messages: &Vec<Message>, synthetic: &Vec<bool>, page: &PendingHistoryPage) -> (r: (
    Vec<usize>,
    bool,
))
    requires
        synthetic@.len() == messages@.len(),
        page.cursor_precision_ms > 0,
        page.limit > 0,
    ensures
        positions(r.0@) == page_rows(messages@, synthetic@, *page),
        r.1 == page_more(messages@, synthetic@, *page),
{
    let ghost all = messages@;
    let p: i64 = page.cursor_precision_ms;
    let mut bound: Option<usize> = None;
    match page.before_message_id {
        None => {},
        Some(id) => {
            let mut k: usize = 0;
            while k < messages.len() && bound.is_none()
                invariant
                    all == messages@,
                    k <= messages@.len(),
                    match bound {
                        Some(b) => boundary_from(all, id, 0) == Some(b as int),
                        None => boundary_from(all, id, 0) == boundary_from(all, id, k as int),
                    },
                decreases messages@.len() - k + (if bound is None { 1int } else { 0int }),
            {
                if messages[k].id == id {
                    bound = Some(k);
                } else {
                    k = k + 1;
                }
            }
        },
    }
    assert(match bound {
        Some(b) => boundary(all, *page) == Some(b as int),
        None => boundary(all, *page) is None,
    });
    let mut rows: Vec<usize> = Vec::new();
    let mut i: usize = 0;
    assert(positions(rows@) =~= Seq::<int>::empty());
    while i < messages.len()
        invariant
            all == messages@,
            synthetic@.len() == messages@.len(),
            p == page.cursor_precision_ms,
            p > 0,
            i <= messages@.len(),
            match bound {
                Some(b) => boundary(all, *page) == Some(b as int),
                None => boundary(all, *page) is None,
            },
            positions(rows@) == candidates(all, synthetic@, *page, i as int),
        decreases messages@.len() - i,
    {
        let inside = match bound {
            Some(b) => i < b,
            None => match page.before {
                Some(before) => slot_of(messages[i].at_ms, p) <= slot_of(before, p),
                None => true,
            },
        };
        if !synthetic[i] && inside {
            let ghost was = positions(rows@);
            rows.push(i);
            assert(positions(rows@) =~= was.push(i as int));
        }
        i = i + 1;
    }
    let ghost cand = positions(rows@);
    proof {
        lemma_candidates(all, synthetic@, *page, all.len() as int);
        assert forall|j: int| 0 <= j < rows@.len() implies (#[trigger] rows@[j]) < all.len() by {
            assert(cand[j] == rows@[j]);
        }
        assert(cand.len() == rows@.len());
    }
    let n: usize = rows.len();
    let by_time = match page.before {
        Some(before) => if bound.is_none() {
            Some(before)
        } else {
            None
        },
        None => None,
    };
    let skip: usize = match by_time {
        None => if n < page.limit {
            0
        } else {
            n - page.limit
        },
        Some(before) => {
            let mut older: usize = 0;
            let edge: i64 = slot_of(before, p);
            let mut on = true;
            while on && older < n
                invariant
                    all == messages@,
                    n == rows@.len(),
                    cand == positions(rows@),
                    forall|j: int| 0 <= j < rows@.len() ==> (#[trigger] rows@[j]) < all.len(),
                    p == page.cursor_precision_ms,
                    p > 0,
                    edge == slot(before, p),
                    older <= n,
                    older_from(all, cand, *page, before, 0) == (if on {
                        older_from(all, cand, *page, before, older as int)
                    } else {
                        older as int
                    }),
                decreases n - older + (if on { 1int } else { 0int }),
            {
                assert(cand[older as int] == rows@[older as int]);
                if slot_of(messages[rows[older]].at_ms, p) < edge {
                    older = older + 1;
                } else {
                    on = false;
                }
            }
            let mut start: usize = if older < page.limit {
                0
            } else {
                older - page.limit
            };
            let ghost first = start as int;
            while start > 0 && slot_of(messages[rows[start - 1]].at_ms, p) == slot_of(
                messages[rows[start]].at_ms,
                p,
            )
                invariant
                    all == messages@,
                    n == rows@.len(),
                    cand == positions(rows@),
                    forall|j: int| 0 <= j < rows@.len() ==> (#[trigger] rows@[j]) < all.len(),
                    p == page.cursor_precision_ms,
                    p > 0,
                    start > 0 ==> start < n,
                    start <= first,
                    unsplit(all, cand, p, first) == unsplit(all, cand, p, start as int),
                decreases start,
            {
                assert(cand[start - 1] == rows@[start - 1]);
                assert(cand[start as int] == rows@[start as int]);
                start = start - 1;
            }
            proof {
                if start > 0 {
                    assert(cand[start - 1] == rows@[start - 1]);
                    assert(cand[start as int] == rows@[start as int]);
                }
            }
            start
        },
    };
    assert(skip == page_skip(all, cand, *page));
    let mut r: Vec<usize> = Vec::new();
    let mut k: usize = skip;
    assert(positions(r@) =~= cand.subrange(skip as int, skip as int));
    while k < n
        invariant
            n == rows@.len(),
            cand == positions(rows@),
            skip <= k <= n,
            positions(r@) == cand.subrange(skip as int, k as int),
        decreases n - k,
    {
        let ghost was = positions(r@);
        r.push(rows[k]);
        assert(positions(r@) =~= was.push(cand[k as int]));
        assert(positions(r@) =~= cand.subrange(skip as int, k + 1));
        k = k + 1;
    }
    assert(positions(r@) =~= cand.skip(skip as int));
    (r, skip > 0)
}

/// The pages that wait, and what the web clients read.
pub struct HistoryPages {
    pub pages: Vec<PendingHistoryPage>,
    /// The buffer whose older rows a session reads.
    pub viewers: StrMap<String>,
}

impl HistoryPages {
    /// No page waits.
    pub fn new() -> (r: HistoryPages)
        ensures
            r.pages@.len() == 0,
            r.viewers@ == Map::<Seq<char>, String>::empty(),
    {
        HistoryPages { pages: Vec::new(), viewers: StrMap::new() }
    }

    /// Lets the pages of a buffer go on under its new id.
    pub fn rekey_pending_history(&mut self, old_id: &str, new_id: &str)
        ensures
            final(self).viewers == old(self).viewers,
            final(self).pages@.len() == old(self).pages@.len(),
            forall|i: int|
                0 <= i < old(self).pages@.len() ==> ({
                    let p = #[trigger] final(self).pages@[i];
                    let q = old(self).pages@[i];
                    &&& p == (PendingHistoryPage { buffer_id: p.buffer_id, ..q })
                    &&& p.buffer_id@ == renamed(q.buffer_id@, old_id@, new_id@)
                }),
    {
        let ghost before = self.pages@;
        let mut i: usize = 0;
        while i < self.pages.len()
            invariant
                self.viewers == old(self).viewers,
                before == old(self).pages@,
                i <= self.pages@.len(),
                self.pages@.len() == before.len(),
                forall|j: int| i <= j < before.len() ==> self.pages@[j] == before[j],
                forall|j: int|
                    0 <= j < i ==> ({
                        let p = #[trigger] self.pages@[j];
                        let q = before[j];
                        &&& p == (PendingHistoryPage { buffer_id: p.buffer_id, ..q })
                        &&& p.buffer_id@ == renamed(q.buffer_id@, old_id@, new_id@)
                    }),
            decreases self.pages@.len() - i,
        {
            if same(self.pages[i].buffer_id.as_str(), old_id) {
                self.pages[i].buffer_id = new_id.to_string();
            }
            i = i + 1;
        }
    }

    /// Lets the sessions that read a buffer go on under its new id.
    pub fn rekey_readers(&mut self, old_id: &str, new_id: &str)
        ensures
            final(self).pages == old(self).pages,
            final(self).viewers.keys() == old(self).viewers.keys(),
            final(self).viewers@.dom() == old(self).viewers@.dom(),
            forall|k: Seq<char>| #[trigger]
                old(self).viewers@.contains_key(k) ==> final(self).viewers@[k]@ == renamed(
                    old(self).viewers@[k]@,
                    old_id@,
                    new_id@,
                ),
    {
        let ghost before = self.viewers@;
        let ghost keys = self.viewers.keys();
        let n: usize = self.viewers.len();
        let mut i: usize = 0;
        while i < n
            invariant
                self.pages == old(self).pages,
                before == old(self).viewers@,
                keys == self.viewers.keys(),
                keys == old(self).viewers.keys(),
                keys.no_duplicates(),
                n == keys.len(),
                i <= n,
                self.viewers@.dom() == before.dom(),
                forall|k: Seq<char>| #[trigger] before.contains_key(k) <==> keys.contains(k),
                forall|j: int|
                    0 <= j < i ==> self.viewers@[#[trigger] keys[j]]@ == renamed(
                        before[keys[j]]@,
                        old_id@,
                        new_id@,
                    ),
                forall|j: int| i <= j < n ==> self.viewers@[#[trigger] keys[j]] == before[keys[j]],
            decreases n - i,
        {
            let session = self.viewers.key_at(i).clone();
            let ghost was = self.viewers@;
            match self.viewers.get_mut(session.as_str()) {
                None => {},
                Some(buffer) => {
                    if same(buffer.as_str(), old_id) {
                        *buffer = new_id.to_string();
                    }
                },
            }
            proof {
                assert(session@ == keys[i as int]);
                assert(self.viewers@.dom() =~= was.dom());
                assert forall|j: int| 0 <= j < n && j != i implies self.viewers@[#[trigger] keys[j]]
                    == was[keys[j]] by {
                    assert(keys[j] != keys[i as int]);
                }
            }
            i = i + 1;
        }
        proof {
            assert forall|k: Seq<char>| #[trigger] before.contains_key(k) implies self.viewers@[k]@ == renamed(
                before[k]@,
                old_id@,
                new_id@,
            ) by {
                assert(keys.contains(k));
                let j = keys.index_of(k);
                assert(keys[j] == k);
            }
        }
    }
}

/// A buffer's id after a rename.
pub open spec fn renamed(id: Seq<char>, old_id: Seq<char>, new_id: Seq<char>) -> Seq<char> {
    if id == old_id {
        new_id
    } else {
        id
    }
}

/// A session reads a buffer.
pub open spec fn reads(viewers: Map<Seq<char>, String>, session: Seq<char>, buffer: Seq<char>) -> bool {
    viewers.contains_key(session) && viewers[session]@ == buffer
}

/// Whether any session reads a buffer.
fn any_reader(viewers: &StrMap<String>, buffer: &str) -> (r: bool)
    ensures
        r == exists|s: Seq<char>| #[trigger] reads(viewers@, s, buffer@),
{
    let n: usize = viewers.len();
    let mut i: usize = 0;
    while i < n
        invariant
            n == viewers.keys().len(),
            i <= n,
            viewers.ordered(),
            forall|j: int| 0 <= j < i ==> !reads(viewers@, #[trigger] viewers.keys()[j], buffer@),
        decreases n - i,
    {
        if same(viewers.value_at(i).as_str(), buffer) {
            assert(reads(viewers@, viewers.keys()[i as int], buffer@));
            return true;
        }
        i = i + 1;
    }
    proof {
        assert forall|s: Seq<char>| !#[trigger] reads(viewers@, s, buffer@) by {
            if viewers@.contains_key(s) {
                let j = viewers.keys().index_of(s);
                assert(viewers.keys()[j] == s);
            }
        }
    }
    false
}

/// What a session leaves behind: the buffer that it read, where nobody reads it any more and it is not
/// scrolled back in the terminal.
pub open spec fn left_by(
    viewers: Map<Seq<char>, String>,
    active: Option<Seq<char>>,
    scrolled: bool,
    session: Seq<char>,
) -> Option<Seq<char>> {
    if !viewers.contains_key(session) {
        None
    } else {
        let buffer = viewers[session]@;
        let rest = viewers.remove(session);
        if (exists|s: Seq<char>| #[trigger] reads(rest, s, buffer)) || (active == Some(buffer) && scrolled) {
            None
        } else {
            Some(buffer)
        }
    }
}

/// Ends the reading of a session; returns the buffer whose older rows are not needed any more.
/// `scrolled` tells whether the terminal shows older rows of the active buffer.
pub fn release_web_history(
    pages: &mut HistoryPages,
    state: &AppState,
    scrolled: bool,
    session: &str,
) -> (r: Option<String>)
    ensures
        final(pages).pages == old(pages).pages,
        final(pages).viewers@ == old(pages).viewers@.remove(session@),
        opt_text(r) == left_by(
            old(pages).viewers@,
            opt_text(state.active_buffer_id),
            scrolled,
            session@,
        ),
{
    let buffer = match pages.viewers.remove(session) {
        None => {
            return None;
        },
        Some(buffer) => buffer,
    };
    if any_reader(&pages.viewers, buffer.as_str()) {
        return None;
    }
    let active = match &state.active_buffer_id {
        Some(id) => same(id.as_str(), buffer.as_str()),
        None => false,
    };
    if active && scrolled {
        return None;
    }
    Some(buffer)
}

/// How exactly a client knows the time that it asks from.
pub open spec fn precision_of(before: Option<i64>, before_message_id: Option<u64>) -> i64 {
    if before_message_id is None && before is Some && before->0 < SECONDS_BELOW {
        1000
    } else {
        1
    }
}

/// A time in milliseconds, which stops at the ends of its range.
pub open spec fn scaled(before: i64, precision: i64) -> i64 {
    if before * precision > i64::MAX {
        i64::MAX
    } else if before * precision < i64::MIN {
        i64::MIN
    } else {
        (before * precision) as i64
    }
}

/// A time in milliseconds, which stops at the ends of its range.
fn scale(before: i64, precision: i64) -> (r: i64)
    requires
        precision == 1 || precision == 1000,
    ensures
        r == scaled(before, precision),
{
    if precision == 1 {
        return before;
    }
    if before > 9_223_372_036_854_775 {
        i64::MAX
    } else if before < -9_223_372_036_854_775 {
        i64::MIN
    } else {
        before * 1000
    }
}

/// The number of rows that a client gets.
pub open spec fn clamped_rows(limit: u32) -> usize {
    if limit < 1 {
        1
    } else if limit > 500 {
        500
    } else {
        limit as usize
    }
}

/// A page as a client asks for it.
pub open spec fn page_asked(
    p: PendingHistoryPage,
    state: AppState,
    buffer_id: Seq<char>,
    limit: u32,
    before: Option<i64>,
    before_message_id: Option<u64>,
    session: Seq<char>,
    now: u64,
) -> bool {
    let conn = match cut_first(buffer_id, '/') {
        Some(parts) if state.connections@.contains_key(parts.0) => Some(state.connections@[parts.0]),
        _ => None,
    };
    &&& p.buffer_id@ == buffer_id
    &&& p.request_target@ == (if state.buffers@.contains_key(buffer_id) {
        state.buffers@[buffer_id].name@
    } else {
        Seq::empty()
    })
    &&& opt_text(p.network_scope) == (match conn {
        Some(c) => Some(c.key()),
        None => None,
    })
    &&& p.server_history_available == (conn matches Some(c) && c.enabled_caps@.contains(
        "draft/chathistory"@,
    ))
    &&& p.session_id@ == session
    &&& p.limit == clamped_rows(limit)
    &&& p.cursor_precision_ms == precision_of(before, before_message_id)
    &&& p.before == (match before {
        Some(b) => Some(scaled(b, precision_of(before, before_message_id))),
        None => None,
    })
    &&& p.before_message_id == before_message_id
    &&& p.started == now
}

/// A page as a client asks for it.
pub fn ask_page(
    state: &AppState,
    buffer_id: &str,
    limit: u32,
    before: Option<i64>,
    before_message_id: Option<u64>,
    session: &str,
    now: u64,
) -> (r: PendingHistoryPage)
    ensures
        page_asked(r, *state, buffer_id@, limit, before, before_message_id, session@, now),
{
    let cursor_precision_ms: i64 = match before {
        Some(b) => if before_message_id.is_none() && b < SECONDS_BELOW {
            1000
        } else {
            1
        },
        None => 1,
    };
    let conn = match split_once(buffer_id, '/') {
        Some((id, _)) => state.connections.get(id.as_str()),
        None => None,
    };
    let (server_history_available, network_scope) = match conn {
        Some(c) => (c.enabled_caps.contains("draft/chathistory"), Some(c.network_key().clone())),
        None => (false, None),
    };
    PendingHistoryPage {
        buffer_id: buffer_id.to_string(),
        request_target: match state.buffers.get(buffer_id) {
            Some(b) => b.name.clone(),
            None => String::new(),
        },
        network_scope,
        server_history_available,
        session_id: session.to_string(),
        limit: if limit < 1 {
            1
        } else if limit > 500 {
            500
        } else {
            limit as usize
        },
        before: match before {
            Some(b) => Some(scale(b, cursor_precision_ms)),
            None => None,
        },
        cursor_precision_ms,
        before_message_id,
        started: now,
    }
}

/// A session reads the older rows of a buffer, which keeps them as long.
pub open spec fn pinned(
    v0: Map<Seq<char>, String>,
    v1: Map<Seq<char>, String>,
    s0: AppState,
    s1: AppState,
    page: PendingHistoryPage,
) -> bool {
    let id = page.buffer_id@;
    if page.before is Some && s0.buffers@.contains_key(id) {
        &&& v1 == v0.insert(page.session_id@, v1[page.session_id@])
        &&& v1[page.session_id@]@ == id
        &&& s1 == (AppState { buffers: s1.buffers, ..s0 })
        &&& s1.buffers.keys() == s0.buffers.keys()
        &&& s1.buffers@ == s0.buffers@.insert(id, Buffer { pin_backlog: true, ..s0.buffers@[id] })
    } else {
        v1 == v0 && s1 == s0
    }
}

/// Whether a session leaves another buffer to read this page.
pub fn leaves_other_buffer(pages: &HistoryPages, state: &AppState, page: &PendingHistoryPage) -> (r: bool)
    ensures
        r == (page.before is Some && state.buffers@.contains_key(page.buffer_id@)
            && pages.viewers@.contains_key(page.session_id@) && pages.viewers@[page.session_id@]@
            != page.buffer_id@),
{
    if page.before.is_none() || !state.buffers.contains(page.buffer_id.as_str()) {
        return false;
    }
    match pages.viewers.get(page.session_id.as_str()) {
        Some(id) => !same(id.as_str(), page.buffer_id.as_str()),
        None => false,
    }
}

/// Notes that a session reads the older rows of a buffer.
pub fn pin_page(pages: &mut HistoryPages, state: &mut AppState, page: &PendingHistoryPage)
    ensures
        final(pages).pages == old(pages).pages,
        pinned(old(pages).viewers@, final(pages).viewers@, *old(state), *final(state), *page),
{
    if page.before.is_none() || !state.buffers.contains(page.buffer_id.as_str()) {
        return;
    }
    pages.viewers.insert(page.session_id.clone(), page.buffer_id.clone());
    match state.buffers.get_mut(page.buffer_id.as_str()) {
        None => {},
        Some(b) => {
            b.pin_backlog = true;
        },
    }
}

/// A row that is not older than the time of a page.
pub open spec fn not_older(messages: Seq<Message>, page: PendingHistoryPage, i: int, before: i64) -> bool {
    slot(messages[i].at_ms, page.cursor_precision_ms) >= slot(before, page.cursor_precision_ms)
}

/// The rows in memory do not answer a page.
pub open spec fn needs_older(messages: Seq<Message>, synthetic: Seq<bool>, page: PendingHistoryPage) -> bool {
    let rows = page_rows(messages, synthetic, page);
    ||| rows.len() == 0
    ||| boundary(messages, page) is None && page.before is Some && forall|k: int|
        0 <= k < rows.len() ==> not_older(messages, page, #[trigger] rows[k], page.before->0)
}

/// Whether the server may be asked for a page.
pub open spec fn may_request(b: Buffer, synthetic: Seq<bool>, page: PendingHistoryPage, cap: usize) -> bool {
    &&& needs_older(b.messages@, synthetic, page)
    &&& b.buffer_type == BufferType::Channel || b.buffer_type == BufferType::Query
    &&& b.messages@.len() < cap
}

/// What is done about a page.
#[derive(Clone, Copy, Debug, PartialEq, Eq, Structural)]
pub enum PageStep {
    /// It is answered out of memory.
    Reply,
    /// It waits for a request that is under way.
    Wait,
    /// The server is asked for older rows.
    AskOlder,
    /// The server is asked for the latest rows.
    AskLatest,
}

/// What is done about a page. `cap` is the most rows that a buffer keeps.
pub open spec fn page_step(
    state: AppState,
    synthetic: Seq<bool>,
    page: PendingHistoryPage,
    cap: usize,
) -> PageStep {
    if !state.buffers@.contains_key(page.buffer_id@) {
        PageStep::Reply
    } else {
        let b = state.buffers@[page.buffer_id@];
        if !may_request(b, synthetic, page, cap) {
            PageStep::Reply
        } else if state.connections@.contains_key(b.connection_id@)
            && state.connections@[b.connection_id@].chathistory.pending(b.name@) {
            PageStep::Wait
        } else if page.before is Some {
            PageStep::AskOlder
        } else {
            PageStep::AskLatest
        }
    }
}

/// Decides what is done about a page.
pub fn decide_page(
    state: &AppState,
    synthetic: &Vec<bool>,
    page: &PendingHistoryPage,
    cap: usize,
) -> (r: PageStep)
    requires
        page.cursor_precision_ms > 0,
        page.limit > 0,
        state.buffers@.contains_key(page.buffer_id@) ==> synthetic@.len()
            == state.buffers@[page.buffer_id@].messages@.len(),
    ensures
        r == page_step(*state, synthetic@, *page, cap),
{
    let b = match state.buffers.get(page.buffer_id.as_str()) {
        None => {
            return PageStep::Reply;
        },
        Some(b) => b,
    };
    let kind = b.buffer_type == BufferType::Channel || b.buffer_type == BufferType::Query;
    if !kind || b.messages.len() >= cap || !older_needed(&b.messages, synthetic, page) {
        return PageStep::Reply;
    }
    let pending = match state.connections.get(b.connection_id.as_str()) {
        Some(c) => c.chathistory.any_in_flight(b.name.as_str()),
        None => false,
    };
    if pending {
        PageStep::Wait
    } else if page.before.is_some() {
        PageStep::AskOlder
    } else {
        PageStep::AskLatest
    }
}

/// Whether the rows in memory do not answer a page.
fn older_needed(messages: &Vec<Message>, synthetic: &Vec<bool>, page: &PendingHistoryPage) -> (r: bool)
    requires
        synthetic@.len() == messages@.len(),
        page.cursor_precision_ms > 0,
        page.limit > 0,
    ensures
        r == needs_older(messages@, synthetic@, *page),
{
    let (rows, _more) = memory_page(messages, synthetic, page);
    let ghost want = page_rows(messages@, synthetic@, *page);
    proof {
        lemma_page_rows(messages@, synthetic@, *page);
        assert(want.len() == rows@.len());
    }
    if rows.len() == 0 {
        return true;
    }
    let retained = match page.before_message_id {
        None => false,
        Some(id) => row_there(messages, id),
    };
    assert(retained == boundary(messages@, *page) is Some);
    let before: i64 = match page.before {
        None => {
            return false;
        },
        Some(before) => before,
    };
    if retained {
        return false;
    }
    let edge: i64 = slot_of(before, page.cursor_precision_ms);
    let mut i: usize = 0;
    while i < rows.len()
        invariant
            i <= rows@.len(),
            want == positions(rows@),
            want == page_rows(messages@, synthetic@, *page),
            want.len() == rows@.len(),
            want.len() > 0,
            boundary(messages@, *page) is None,
            page.before == Some(before),
            page.cursor_precision_ms > 0,
            edge == slot(before, page.cursor_precision_ms),
            forall|k: int| 0 <= k < want.len() ==> 0 <= #[trigger] want[k] < messages@.len(),
            forall|k: int|
                0 <= k < i ==> not_older(messages@, *page, #[trigger] want[k], before),
        decreases rows@.len() - i,
    {
        assert(want[i as int] == rows@[i as int]);
        if slot_of(messages[rows[i]].at_ms, page.cursor_precision_ms) < edge {
            assert(!not_older(messages@, *page, want[i as int], before));
            return false;
        }
        i = i + 1;
    }
    true
}

/// The rows of a page are positions.
proof fn lemma_page_rows(messages: Seq<Message>, synthetic: Seq<bool>, page: PendingHistoryPage)
    ensures
        forall|k: int|
            0 <= k < page_rows(messages, synthetic, page).len() ==> 0 <= #[trigger] page_rows(
                messages,
                synthetic,
                page,
            )[k] < messages.len(),
{
    let rows = candidates(messages, synthetic, page, messages.len() as int);
    lemma_candidates(messages, synthetic, page, messages.len() as int);
    let skip = page_skip(messages, rows, page);
    lemma_skip(messages, rows, page);
    assert forall|k: int| 0 <= k < rows.skip(skip).len() implies 0 <= #[trigger] rows.skip(skip)[k]
        < messages.len() by {
        assert(rows.skip(skip)[k] == rows[skip + k]);
    }
}

/// A page starts inside the rows that could stand on it.
proof fn lemma_skip(messages: Seq<Message>, rows: Seq<int>, page: PendingHistoryPage)
    ensures
        0 <= page_skip(messages, rows, page) <= rows.len(),
{
    match page.before {
        Some(before) => {
            lemma_older(messages, rows, page, before, 0);
            let start = less(older_from(messages, rows, page, before, 0), page.limit as int);
            lemma_unsplit(messages, rows, page.cursor_precision_ms, start);
        },
        None => {},
    }
}

/// The older rows are rows.
proof fn lemma_older(messages: Seq<Message>, rows: Seq<int>, page: PendingHistoryPage, before: i64, i: int)
    requires
        0 <= i <= rows.len(),
    ensures
        0 <= older_from(messages, rows, page, before, i) <= rows.len(),
    decreases rows.len() - i,
{
    if i < rows.len() {
        lemma_older(messages, rows, page, before, i + 1);
    }
}

/// Moving the start of a page up keeps it inside.
proof fn lemma_unsplit(messages: Seq<Message>, rows: Seq<int>, precision: i64, start: int)
    ensures
        0 <= unsplit(messages, rows, precision, start),
        start >= 0 ==> unsplit(messages, rows, precision, start) <= start,
    decreases start,
{
    if start > 0 {
        lemma_unsplit(messages, rows, precision, start - 1);
    }
}

/// Whether a row is still there.
fn row_there(messages: &Vec<Message>, id: u64) -> (r: bool)
    ensures
        r == (boundary_from(messages@, id, 0) is Some),
{
    let mut i: usize = 0;
    while i < messages.len()
        invariant
            i <= messages@.len(),
            boundary_from(messages@, id, 0) == boundary_from(messages@, id, i as int),
        decreases messages@.len() - i,
    {
        if messages[i].id == id {
            return true;
        }
        i = i + 1;
    }
    false
}

/// The pages that wait without those of a session for a buffer.
pub open spec fn without_page(pages: Seq<PendingHistoryPage>, session: Seq<char>, buffer: Seq<char>) -> Seq<
    PendingHistoryPage,
>
    decreases pages.len(),
{
    if pages.len() == 0 {
        Seq::empty()
    } else {
        let init = without_page(pages.drop_last(), session, buffer);
        let last = pages.last();
        if last.session_id@ == session && last.buffer_id@ == buffer {
            init
        } else {
            init.push(last)
        }
    }
}

/// Lets a page wait for the server, in the place of an earlier one of the same session and buffer.
pub fn wait_for_page(pages: &mut HistoryPages, page: PendingHistoryPage)
    ensures
        final(pages).viewers == old(pages).viewers,
        final(pages).pages@ == without_page(
            old(pages).pages@,
            page.session_id@,
            page.buffer_id@,
        ).push(page),
{
    let ghost all = pages.pages@;
    let mut rest: Vec<PendingHistoryPage> = Vec::new();
    std::mem::swap(&mut rest, &mut pages.pages);
    let mut kept: Vec<PendingHistoryPage> = Vec::new();
    let ghost mut i: int = 0;
    assert(all.take(0) =~= Seq::<PendingHistoryPage>::empty());
    assert(rest@ =~= all.skip(0));
    while rest.len() > 0
        invariant
            0 <= i <= all.len(),
            rest@ == all.skip(i),
            kept@ == without_page(all.take(i), page.session_id@, page.buffer_id@),
        decreases rest@.len(),
    {
        let p = rest.remove(0);
        proof {
            assert(p == all[i]);
            assert(rest@ =~= all.skip(i + 1));
            assert(all.take(i + 1).drop_last() =~= all.take(i));
            assert(all.take(i + 1).last() == p);
            i = i + 1;
        }
        if !(same(p.session_id.as_str(), page.session_id.as_str()) && same(
            p.buffer_id.as_str(),
            page.buffer_id.as_str(),
        )) {
            kept.push(p);
        }
    }
    assert(all.take(i) =~= all);
    kept.push(page);
    pages.pages = kept;
}

/// A page goes on waiting.
pub open spec fn still_waits(state: AppState, page: PendingHistoryPage, now: u64) -> bool {
    &&& state.buffers@.contains_key(page.buffer_id@)
    &&& state.connections@.contains_key(state.buffers@[page.buffer_id@].connection_id@)
    &&& state.connections@[state.buffers@[page.buffer_id@].connection_id@].chathistory.pending(
        page.request_target@,
    )
    &&& now - page.started < PAGE_MS
}

/// Whether a page goes on waiting.
fn waits_on(state: &AppState, page: &PendingHistoryPage, now: u64) -> (r: bool)
    ensures
        r == still_waits(*state, *page, now),
{
    let late = now > page.started && now - page.started >= PAGE_MS;
    if late {
        return false;
    }
    match state.buffers.get(page.buffer_id.as_str()) {
        None => false,
        Some(b) => match state.connections.get(b.connection_id.as_str()) {
            None => false,
            Some(c) => c.chathistory.any_in_flight(page.request_target.as_str()),
        },
    }
}

/// The pages that go on waiting, or those that do not.
pub open spec fn sorted_out(pages: Seq<PendingHistoryPage>, state: AppState, now: u64, wait: bool) -> Seq<
    PendingHistoryPage,
>
    decreases pages.len(),
{
    if pages.len() == 0 {
        Seq::empty()
    } else {
        let init = sorted_out(pages.drop_last(), state, now, wait);
        if still_waits(state, pages.last(), now) == wait {
            init.push(pages.last())
        } else {
            init
        }
    }
}

/// Takes out the pages that wait no longer: the server answered, or took too long.
pub fn flush_server_history_pages(pages: &mut HistoryPages, state: &AppState, now: u64) -> (r: Vec<
    PendingHistoryPage,
>)
    ensures
        final(pages).viewers == old(pages).viewers,
        final(pages).pages@ == sorted_out(old(pages).pages@, *state, now, true),
        r@ == sorted_out(old(pages).pages@, *state, now, false),
{
    let ghost all = pages.pages@;
    let mut rest: Vec<PendingHistoryPage> = Vec::new();
    std::mem::swap(&mut rest, &mut pages.pages);
    let mut kept: Vec<PendingHistoryPage> = Vec::new();
    let mut r: Vec<PendingHistoryPage> = Vec::new();
    let ghost mut i: int = 0;
    assert(all.take(0) =~= Seq::<PendingHistoryPage>::empty());
    assert(rest@ =~= all.skip(0));
    while rest.len() > 0
        invariant
            0 <= i <= all.len(),
            rest@ == all.skip(i),
            kept@ == sorted_out(all.take(i), *state, now, true),
            r@ == sorted_out(all.take(i), *state, now, false),
        decreases rest@.len(),
    {
        let p = rest.remove(0);
        proof {
            assert(p == all[i]);
            assert(rest@ =~= all.skip(i + 1));
            assert(all.take(i + 1).drop_last() =~= all.take(i));
            assert(all.take(i + 1).last() == p);
            i = i + 1;
        }
        if waits_on(state, &p, now) {
            kept.push(p);
        } else {
            r.push(p);
        }
    }
    assert(all.take(i) =~= all);
    pages.pages = kept;
    r
}

/// What a web client gets.
#[derive(Debug)]
pub struct PageReply {
    /// The rows, as positions in the buffer.
    pub rows: Vec<usize>,
    pub has_more: bool,
}

/// The buffer that a page is about is still that of the network that it was asked for.
pub open spec fn still_there(state: AppState, page: PendingHistoryPage) -> bool {
    &&& state.buffers@.contains_key(page.buffer_id@)
    &&& state.connections@.contains_key(state.buffers@[page.buffer_id@].connection_id@)
    &&& Some(state.connections@[state.buffers@[page.buffer_id@].connection_id@].key()) == opt_text(
        page.network_scope,
    )
}

/// The server may have more rows.
pub open spec fn server_more(state: AppState, page: PendingHistoryPage, cap: usize) -> bool {
    let b = state.buffers@[page.buffer_id@];
    let c = state.connections@[b.connection_id@];
    &&& b.buffer_type == BufferType::Channel || b.buffer_type == BufferType::Query
    &&& b.messages@.len() < cap
    &&& c.enabled_caps@.contains("draft/chathistory"@) || (page.server_history_available && c.status
        != ConnectionStatus::Connected)
    &&& !c.chathistory.exhausted@.contains(crate::text::lower_seq(b.name@))
}

/// What a page is answered with: rows of memory, or nothing where the network changed meanwhile.
pub open spec fn page_answered(
    state: AppState,
    synthetic: Seq<bool>,
    page: PendingHistoryPage,
    cap: usize,
    r: PageReply,
) -> bool {
    if still_there(state, page) {
        let messages = state.buffers@[page.buffer_id@].messages@;
        &&& positions(r.rows@) == page_rows(messages, synthetic, page)
        &&& r.has_more == (page_more(messages, synthetic, page) || server_more(state, page, cap))
    } else {
        r.rows@.len() == 0 && !r.has_more
    }
}

/// Answers a page: a network that changed meanwhile is answered with nothing.
pub fn reply_server_history_page(
    state: &AppState,
    synthetic: &Vec<bool>,
    page: &PendingHistoryPage,
    cap: usize,
) -> (r: PageReply)
    requires
        page.cursor_precision_ms > 0,
        page.limit > 0,
        state.buffers@.contains_key(page.buffer_id@) ==> synthetic@.len()
            == state.buffers@[page.buffer_id@].messages@.len(),
    ensures
        page_answered(*state, synthetic@, *page, cap, r),
{
    let none = PageReply { rows: Vec::new(), has_more: false };
    let b = match state.buffers.get(page.buffer_id.as_str()) {
        None => {
            return none;
        },
        Some(b) => b,
    };
    let c = match state.connections.get(b.connection_id.as_str()) {
        None => {
            return none;
        },
        Some(c) => c,
    };
    let same_network = match &page.network_scope {
        Some(scope) => same(c.network_key().as_str(), scope.as_str()),
        None => false,
    };
    if !same_network {
        return none;
    }
    let (rows, more) = memory_page(&b.messages, synthetic, page);
    let kind = b.buffer_type == BufferType::Channel || b.buffer_type == BufferType::Query;
    let server = kind && b.messages.len() < cap && (c.enabled_caps.contains("draft/chathistory") || (
    page.server_history_available && c.status != ConnectionStatus::Connected))
        && !c.chathistory.is_before_exhausted(b.name.as_str());
    PageReply { rows, has_more: more || server }
}

/// A page that a web client asked for.
#[derive(Debug)]
pub struct FetchedPage {
    pub page: PendingHistoryPage,
    /// What is done about it.
    pub step: PageStep,
    /// The buffer that the client left, whose older rows are not needed any more.
    pub released: Option<String>,
}

/// A session leaves another buffer to read a page.
pub open spec fn leaves_other(
    viewers: Map<Seq<char>, String>,
    state: AppState,
    page: PendingHistoryPage,
) -> bool {
    &&& page.before is Some
    &&& state.buffers@.contains_key(page.buffer_id@)
    &&& viewers.contains_key(page.session_id@)
    &&& viewers[page.session_id@]@ != page.buffer_id@
}

/// A page was asked for: the buffer that its reader leaves is released, the one that is read keeps its
/// older rows, and it is decided whether memory answers or the server is asked.
pub open spec fn page_fetched(
    v0: Map<Seq<char>, String>,
    v1: Map<Seq<char>, String>,
    s0: AppState,
    s1: AppState,
    scrolled: bool,
    synthetic: Seq<bool>,
    cap: usize,
    r: FetchedPage,
) -> bool {
    let session = r.page.session_id@;
    let leaves = leaves_other(v0, s0, r.page);
    &&& opt_text(r.released) == (if leaves {
        left_by(v0, opt_text(s0.active_buffer_id), scrolled, session)
    } else {
        None
    })
    &&& pinned(
        if leaves {
            v0.remove(session)
        } else {
            v0
        },
        v1,
        s0,
        s1,
        r.page,
    )
    &&& r.step == page_step(s1, synthetic, r.page, cap)
}

/// A web client asks for a page of history. `scrolled` tells whether the terminal shows older rows of the
/// active buffer, `synthetic` which rows of the buffer the client made itself, and `cap` is the most rows
/// that a buffer keeps. The server is asked where the result says so, and [`finish_page`] follows.
pub fn fetch_server_history_page(
    pages: &mut HistoryPages,
    state: &mut AppState,
    buffer_id: &str,
    limit: u32,
    before: Option<i64>,
    before_message_id: Option<u64>,
    session: &str,
    scrolled: bool,
    synthetic: &Vec<bool>,
    cap: usize,
    now: u64,
) -> (r: FetchedPage)
    requires
        old(state).buffers@.contains_key(buffer_id@) ==> synthetic@.len()
            == old(state).buffers@[buffer_id@].messages@.len(),
    ensures
        final(pages).pages == old(pages).pages,
        page_asked(r.page, *old(state), buffer_id@, limit, before, before_message_id, session@, now),
        page_fetched(
            old(pages).viewers@,
            final(pages).viewers@,
            *old(state),
            *final(state),
            scrolled,
            synthetic@,
            cap,
            r,
        ),
{
    let page = ask_page(state, buffer_id, limit, before, before_message_id, session, now);
    let released = if leaves_other_buffer(pages, state, &page) {
        release_web_history(pages, state, scrolled, session)
    } else {
        None
    };
    pin_page(pages, state, &page);
    let step = decide_page(state, synthetic, &page, cap);
    FetchedPage { page, step, released }
}

/// A page waits for the server: a request is under way, or was sent.
pub open spec fn page_waits(step: PageStep, sent: bool) -> bool {
    match step {
        PageStep::Reply => false,
        PageStep::Wait => true,
        PageStep::AskOlder | PageStep::AskLatest => sent,
    }
}

/// Finishes what [`fetch_server_history_page`] began. `sent` tells whether the server could be asked. A
/// page that waits for the server takes the place of an earlier one of the same session and buffer; any
/// other is answered at once.
pub fn finish_page(
    pages: &mut HistoryPages,
    state: &AppState,
    page: PendingHistoryPage,
    step: PageStep,
    sent: bool,
    synthetic: &Vec<bool>,
    cap: usize,
) -> (r: Option<PageReply>)
    requires
        page.cursor_precision_ms > 0,
        page.limit > 0,
        state.buffers@.contains_key(page.buffer_id@) ==> synthetic@.len()
            == state.buffers@[page.buffer_id@].messages@.len(),
    ensures
        final(pages).viewers == old(pages).viewers,
        r is None <==> page_waits(step, sent),
        match r {
            None => final(pages).pages@ == without_page(
                old(pages).pages@,
                page.session_id@,
                page.buffer_id@,
            ).push(page),
            Some(reply) => final(pages).pages@ == old(pages).pages@ && page_answered(
                *state,
                synthetic@,
                page,
                cap,
                reply,
            ),
        },
{
    let waits = match step {
        PageStep::Reply => false,
        PageStep::Wait => true,
        PageStep::AskOlder => sent,
        PageStep::AskLatest => sent,
    };
    if waits {
        wait_for_page(pages, page);
        return None;
    }
    Some(reply_server_history_page(state, synthetic, &page, cap))
}

/// A page that is asked for by row never repeats that row or one below it, even where the rows below it
/// are of the same moment.
pub proof fn cursor_is_not_repeated(
    messages: Seq<Message>,
    synthetic: Seq<bool>,
    page: PendingHistoryPage,
    k: int,
)
    requires
        boundary(messages, page) is Some,
        0 <= k < page_rows(messages, synthetic, page).len(),
    ensures
        page_rows(messages, synthetic, page)[k] < boundary(messages, page)->0,
{
    let rows = candidates(messages, synthetic, page, messages.len() as int);
    let skip = page_skip(messages, rows, page);
    lemma_skip(messages, rows, page);
    lemma_eligible(messages, synthetic, page, messages.len() as int);
    assert(rows.skip(skip)[k] == rows[skip + k]);
}

/// Candidates can stand on the page.
proof fn lemma_eligible(messages: Seq<Message>, synthetic: Seq<bool>, page: PendingHistoryPage, n: int)
    requires
        0 <= n,
    ensures
        forall|i: int|
            0 <= i < candidates(messages, synthetic, page, n).len() ==> eligible(
                messages,
                synthetic,
                page,
                #[trigger] candidates(messages, synthetic, page, n)[i],
            ),
    decreases n,
{
    if n > 0 {
        lemma_eligible(messages, synthetic, page, n - 1);
        let init = candidates(messages, synthetic, page, n - 1);
        let all = candidates(messages, synthetic, page, n);
        assert forall|i: int| 0 <= i < all.len() implies eligible(
            messages,
            synthetic,
            page,
            #[trigger] all[i],
        ) by {
            if i < init.len() {
                assert(all[i] == init[i]);
            }
        }
    }
}

/// The positions of `n` rows that satisfy a condition are the candidates of a page that goes by it.
proof fn lemma_candidates_filter(
    messages: Seq<Message>,
    synthetic: Seq<bool>,
    page: PendingHistoryPage,
    n: int,
    wanted: spec_fn(int) -> bool,
)
    requires
        0 <= n,
        forall|i: int| 0 <= i < n ==> (#[trigger] wanted(i) <==> eligible(messages, synthetic, page, i)),
    ensures
        candidates(messages, synthetic, page, n) == Seq::new(n as nat, |i: int| i).filter(wanted),
    decreases n,
{
    reveal(Seq::filter);
    let all = Seq::new(n as nat, |i: int| i);
    if n > 0 {
        lemma_candidates_filter(messages, synthetic, page, n - 1, wanted);
        assert(all.drop_last() =~= Seq::new((n - 1) as nat, |i: int| i));
        assert(all.last() == n - 1);
        assert(wanted(n - 1) <==> eligible(messages, synthetic, page, n - 1));
    } else {
        assert(all =~= Seq::<int>::empty());
    }
}

/// The latest page ends with the newest row: of the rows that the client did not put in itself it holds the
/// last ones, as many as it may hold, and all of them where they are no more than that. More lie before it
/// where some were left out, or where the server may have some.
pub proof fn latest_page_is_the_end(
    state: AppState,
    synthetic: Seq<bool>,
    page: PendingHistoryPage,
    cap: usize,
    reply: PageReply,
)
    requires
        page.before is None,
        page.before_message_id is None,
        still_there(state, page),
        page_answered(state, synthetic, page, cap, reply),
    ensures
        ({
            let n = state.buffers@[page.buffer_id@].messages@.len();
            let own = Seq::new(n, |i: int| i).filter(|i: int| !synthetic[i]);
            let left_out = if own.len() > page.limit {
                own.len() - page.limit
            } else {
                0
            };
            &&& positions(reply.rows@) == own.skip(left_out)
            &&& left_out > 0 ==> reply.has_more
            &&& reply.has_more ==> left_out > 0 || server_more(state, page, cap)
            &&& server_more(state, page, cap) ==> reply.has_more
        }),
{
    let messages = state.buffers@[page.buffer_id@].messages@;
    lemma_candidates_filter(messages, synthetic, page, messages.len() as int, |i: int| !synthetic[i]);
}

/// A page by row holds the last rows above that one, as many as it may hold. Asking for the page above the
/// first row of another one thus goes on where that one began.
pub proof fn page_by_row_ends_above_it(
    state: AppState,
    synthetic: Seq<bool>,
    page: PendingHistoryPage,
    cap: usize,
    reply: PageReply,
    b: int,
)
    requires
        still_there(state, page),
        0 <= b < state.buffers@[page.buffer_id@].messages@.len(),
        page.before_message_id == Some(state.buffers@[page.buffer_id@].messages@[b].id),
        forall|j: int|
            0 <= j < b ==> (#[trigger] state.buffers@[page.buffer_id@].messages@[j]).id
                != state.buffers@[page.buffer_id@].messages@[b].id,
        page_answered(state, synthetic, page, cap, reply),
    ensures
        ({
            let n = state.buffers@[page.buffer_id@].messages@.len();
            let own = Seq::new(n, |i: int| i).filter(|i: int| i < b && !synthetic[i]);
            let left_out = if own.len() > page.limit {
                own.len() - page.limit
            } else {
                0
            };
            &&& positions(reply.rows@) == own.skip(left_out)
            &&& left_out > 0 ==> reply.has_more
            &&& reply.has_more ==> left_out > 0 || server_more(state, page, cap)
        }),
{
    let messages = state.buffers@[page.buffer_id@].messages@;
    lemma_boundary(messages, messages[b].id, 0, b);
    lemma_candidates_filter(
        messages,
        synthetic,
        page,
        messages.len() as int,
        |i: int| i < b && !synthetic[i],
    );
}

/// The first row with an id is found.
proof fn lemma_boundary(messages: Seq<Message>, id: u64, i: int, b: int)
    requires
        0 <= i <= b < messages.len(),
        messages[b].id == id,
        forall|j: int| 0 <= j < b ==> (#[trigger] messages[j]).id != id,
    ensures
        boundary_from(messages, id, i) == Some(b),
    decreases b - i,
{
    if i < b {
        assert(messages[i].id != id);
        lemma_boundary(messages, id, i + 1, b);
    }
}

/// Candidates ascend, and every row that can stand on the page is among them.
proof fn lemma_all_candidates(messages: Seq<Message>, synthetic: Seq<bool>, page: PendingHistoryPage, n: int)
    requires
        0 <= n <= messages.len(),
    ensures
        forall|i: int, j: int|
            0 <= i < j < candidates(messages, synthetic, page, n).len() ==> #[trigger] candidates(
                messages,
                synthetic,
                page,
                n,
            )[i] < #[trigger] candidates(messages, synthetic, page, n)[j],
        forall|k: int|
            0 <= k < n && #[trigger] eligible(messages, synthetic, page, k) ==> candidates(
                messages,
                synthetic,
                page,
                n,
            ).contains(k),
    decreases n,
{
    let all = candidates(messages, synthetic, page, n);
    if n > 0 {
        let init = candidates(messages, synthetic, page, n - 1);
        lemma_all_candidates(messages, synthetic, page, n - 1);
        lemma_candidates(messages, synthetic, page, n - 1);
        assert forall|i: int, j: int| 0 <= i < j < all.len() implies #[trigger] all[i] < #[trigger] all[j] by {
            assert(all[i] == init[i]);
            if j < init.len() {
                assert(all[j] == init[j]);
            }
        }
        assert forall|k: int| 0 <= k < n && #[trigger] eligible(messages, synthetic, page, k) implies all.contains(
            k,
        ) by {
            if k < n - 1 {
                assert(init.contains(k));
                let w = init.index_of(k);
                assert(all[w] == k);
            } else {
                assert(all[all.len() - 1] == k);
            }
        }
    }
}

/// The rows before the first that is not older are older, and that one is not.
proof fn lemma_older_split(
    messages: Seq<Message>,
    rows: Seq<int>,
    page: PendingHistoryPage,
    before: i64,
    i: int,
)
    requires
        0 <= i <= rows.len(),
    ensures
        i <= older_from(messages, rows, page, before, i) <= rows.len(),
        forall|k: int|
            i <= k < older_from(messages, rows, page, before, i) ==> slot(
                messages[#[trigger] rows[k]].at_ms,
                page.cursor_precision_ms,
            ) < slot(before, page.cursor_precision_ms),
        older_from(messages, rows, page, before, i) < rows.len() ==> slot(
            messages[rows[older_from(messages, rows, page, before, i)]].at_ms,
            page.cursor_precision_ms,
        ) >= slot(before, page.cursor_precision_ms),
    decreases rows.len() - i,
{
    if i < rows.len() {
        if slot(messages[rows[i]].at_ms, page.cursor_precision_ms) < slot(before, page.cursor_precision_ms) {
            lemma_older_split(messages, rows, page, before, i + 1);
        }
    }
}

/// The start of a page moves up over rows of one moment only, and over all of them.
proof fn lemma_unsplit_moment(messages: Seq<Message>, rows: Seq<int>, precision: i64, start: int)
    requires
        0 <= start <= rows.len(),
    ensures
        0 <= unsplit(messages, rows, precision, start) <= start,
        forall|k: int|
            unsplit(messages, rows, precision, start) <= k < start ==> slot(
                messages[#[trigger] rows[k]].at_ms,
                precision,
            ) == slot(messages[rows[start]].at_ms, precision),
        unsplit(messages, rows, precision, start) > 0 ==> slot(
            messages[rows[unsplit(messages, rows, precision, start) - 1]].at_ms,
            precision,
        ) != slot(messages[rows[unsplit(messages, rows, precision, start)]].at_ms, precision),
    decreases start,
{
    if start > 0 {
        if slot(messages[rows[start - 1]].at_ms, precision) == slot(messages[rows[start]].at_ms, precision) {
            lemma_unsplit_moment(messages, rows, precision, start - 1);
        }
    }
}

/// A page by time has no gap up to that time: its rows ascend, none is one that the client put in itself,
/// none is of a later moment, and every such row below its first one stands on it. Where it is not all that
/// there is, it holds as many older rows as it may hold.
pub proof fn page_by_time_has_no_gap(
    state: AppState,
    synthetic: Seq<bool>,
    page: PendingHistoryPage,
    cap: usize,
    reply: PageReply,
    at: i64,
)
    requires
        page.cursor_precision_ms > 0,
        page.before == Some(at),
        page.before_message_id is None,
        still_there(state, page),
        page_answered(state, synthetic, page, cap, reply),
    ensures
        ({
            let messages = state.buffers@[page.buffer_id@].messages@;
            let rows = positions(reply.rows@);
            let p = page.cursor_precision_ms as int;
            &&& forall|k: int|
                0 <= k < rows.len() ==> {
                    &&& 0 <= #[trigger] rows[k] < messages.len()
                    &&& !synthetic[rows[k]]
                    &&& messages[rows[k]].at_ms as int / p <= at as int / p
                }
            &&& forall|j: int, k: int|
                0 <= j < k < rows.len() ==> #[trigger] rows[j] < #[trigger] rows[k]
            &&& forall|i: int|
                0 <= i < messages.len() && !#[trigger] synthetic[i] && messages[i].at_ms as int / p <= at as int
                    / p && (!reply.has_more || (rows.len() > 0 && rows[0] <= i)) ==> rows.contains(i)
            &&& reply.has_more && !server_more(state, page, cap) ==> {
                &&& rows.len() >= page.limit
                &&& forall|k: int|
                    0 <= k < page.limit ==> messages[#[trigger] rows[k]].at_ms as int / p < at as int / p
            }
        }),
{
    let messages = state.buffers@[page.buffer_id@].messages@;
    let n = messages.len() as int;
    let p = page.cursor_precision_ms as int;
    let all = candidates(messages, synthetic, page, n);
    let skip = page_skip(messages, all, page);
    let rows = positions(reply.rows@);
    lemma_eligible(messages, synthetic, page, n);
    lemma_candidates(messages, synthetic, page, n);
    lemma_all_candidates(messages, synthetic, page, n);
    lemma_skip(messages, all, page);
    lemma_older_split(messages, all, page, at, 0);
    let older = older_from(messages, all, page, at, 0);
    lemma_unsplit_moment(messages, all, page.cursor_precision_ms, less(older, page.limit as int));
    assert(rows == all.skip(skip));
    assert forall|i: int|
        0 <= i < messages.len() && !#[trigger] synthetic[i] && messages[i].at_ms as int / p <= at as int / p && (!reply.has_more
            || (rows.len() > 0 && rows[0] <= i)) implies rows.contains(i) by {
        assert(eligible(messages, synthetic, page, i));
        let w = all.index_of(i);
        if w < skip {
            assert(reply.has_more);
            assert(rows[0] == all[skip]);
            assert(all[w] < all[skip]);
        }
        assert(rows[w - skip] == i);
    }
    if reply.has_more && !server_more(state, page, cap) {
        assert forall|k: int| 0 <= k < page.limit implies messages[#[trigger] rows[k]].at_ms as int / p < at as int / p by {
            assert(rows[k] == all[skip + k]);
        }
    }
}

/// Where rows stand in the order of their times, a page by time does not part rows of one moment: every row
/// above it is of an earlier moment than its first one. It holds no more moments than it needs: without the
/// moment of its first row it would hold fewer older rows than it may.
pub proof fn page_by_time_keeps_moments_together(
    state: AppState,
    synthetic: Seq<bool>,
    page: PendingHistoryPage,
    cap: usize,
    reply: PageReply,
    at: i64,
    i: int,
    k: int,
    m: int,
)
    requires
        page.cursor_precision_ms > 0,
        page.limit > 0,
        page.before == Some(at),
        page.before_message_id is None,
        still_there(state, page),
        page_answered(state, synthetic, page, cap, reply),
        forall|x: int, y: int|
            0 <= x <= y < state.buffers@[page.buffer_id@].messages@.len() && !synthetic[x] && !synthetic[y] ==> (
            #[trigger] state.buffers@[page.buffer_id@].messages@[x]).at_ms <= (
            #[trigger] state.buffers@[page.buffer_id@].messages@[y]).at_ms,
        reply.rows@.len() > 0,
    ensures
        ({
            let messages = state.buffers@[page.buffer_id@].messages@;
            let rows = positions(reply.rows@);
            let p = page.cursor_precision_ms as int;
            let first = messages[rows[0]].at_ms as int / p;
            &&& 0 <= i < rows[0] && !synthetic[i] ==> messages[i].at_ms as int / p < first
            &&& 0 <= k <= m < rows.len() && first < messages[rows[k]].at_ms as int / p
                && messages[rows[m]].at_ms as int / p < at as int / p ==> m - k + 1 < page.limit
        }),
{
    let messages = state.buffers@[page.buffer_id@].messages@;
    let n = messages.len() as int;
    let p = page.cursor_precision_ms as int;
    let all = candidates(messages, synthetic, page, n);
    let skip = page_skip(messages, all, page);
    let rows = positions(reply.rows@);
    lemma_eligible(messages, synthetic, page, n);
    lemma_candidates(messages, synthetic, page, n);
    lemma_all_candidates(messages, synthetic, page, n);
    lemma_skip(messages, all, page);
    lemma_older_split(messages, all, page, at, 0);
    let older = older_from(messages, all, page, at, 0);
    let start = less(older, page.limit as int);
    lemma_unsplit_moment(messages, all, page.cursor_precision_ms, start);
    assert(rows == all.skip(skip));
    assert(rows.len() == reply.rows@.len());
    assert(rows[0] == all[skip]);
    if 0 <= i < rows[0] && !synthetic[i] {
        assert(messages[i].at_ms <= messages[rows[0]].at_ms);
        lemma_slots_ascend(messages[i].at_ms as int, messages[rows[0]].at_ms as int, p);
        assert(eligible(messages, synthetic, page, rows[0]));
        assert(eligible(messages, synthetic, page, i));
        let w = all.index_of(i);
        assert(w < skip);
        let above = all[skip - 1];
        assert(all[w] <= above);
        assert(messages[i].at_ms <= messages[above].at_ms);
        assert(messages[above].at_ms <= messages[rows[0]].at_ms);
        lemma_slots_ascend(messages[i].at_ms as int, messages[above].at_ms as int, p);
        lemma_slots_ascend(messages[above].at_ms as int, messages[rows[0]].at_ms as int, p);
    }
    if 0 <= k <= m < rows.len() && messages[rows[0]].at_ms as int / p < messages[rows[k]].at_ms as int / p
        && messages[rows[m]].at_ms as int / p < at as int / p {
        assert(rows[k] == all[skip + k] && rows[m] == all[skip + m]);
        assert(skip + m < older) by {
            if skip + m >= older {
                assert(messages[all[older]].at_ms <= messages[all[skip + m]].at_ms);
                lemma_slots_ascend(
                    messages[all[older]].at_ms as int,
                    messages[all[skip + m]].at_ms as int,
                    p,
                );
            }
        }
        assert(start < older);
        assert(skip + k > start) by {
            if skip + k <= start {
                assert(messages[all[skip + k]].at_ms <= messages[all[start]].at_ms);
                lemma_slots_ascend(messages[all[skip + k]].at_ms as int, messages[all[start]].at_ms as int, p);
                if skip < start {
                    assert(slot(messages[all[skip]].at_ms, page.cursor_precision_ms) == slot(
                        messages[all[start]].at_ms,
                        page.cursor_precision_ms,
                    ));
                }
            }
        }
    }
}

/// Later times are in no earlier slots.
proof fn lemma_slots_ascend(a: int, b: int, p: int)
    requires
        a <= b,
        p > 0,
    ensures
        a / p <= b / p,
{
    vstd::arithmetic::div_mod::lemma_div_is_ordered(a, b, p);
}

proof fn lemma_sorted_out(pages: Seq<PendingHistoryPage>, state: AppState, now: u64, wait: bool)
    ensures
        sorted_out(pages, state, now, true).len() + sorted_out(pages, state, now, false).len() == pages.len(),
        forall|k: int|
            0 <= k < pages.len() ==> (sorted_out(pages, state, now, wait).contains(#[trigger] pages[k])
                <==> still_waits(state, pages[k], now) == wait),
        forall|j: int|
            0 <= j < sorted_out(pages, state, now, wait).len() ==> still_waits(
                state,
                #[trigger] sorted_out(pages, state, now, wait)[j],
                now,
            ) == wait && pages.contains(sorted_out(pages, state, now, wait)[j]),
    decreases pages.len(),
{
    if pages.len() > 0 {
        let rest = pages.drop_last();
        let init = sorted_out(rest, state, now, wait);
        let all = sorted_out(pages, state, now, wait);
        lemma_sorted_out(rest, state, now, wait);
        assert forall|j: int| 0 <= j < all.len() implies still_waits(state, #[trigger] all[j], now) == wait
            && pages.contains(all[j]) by {
            if j < init.len() {
                assert(all[j] == init[j]);
                assert(rest.contains(init[j]));
                assert(pages[rest.index_of(init[j])] == init[j]);
            } else {
                assert(pages[pages.len() - 1] == all[j]);
            }
        }
        assert forall|k: int| 0 <= k < pages.len() implies (all.contains(#[trigger] pages[k]) <==> still_waits(
            state,
            pages[k],
            now,
        ) == wait) by {
            if still_waits(state, pages[k], now) == wait {
                if k < rest.len() {
                    assert(rest[k] == pages[k]);
                    assert(init.contains(rest[k]));
                    assert(all[init.index_of(rest[k])] == pages[k]);
                } else {
                    assert(all[all.len() - 1] == pages[k]);
                }
            } else if all.contains(pages[k]) {
                let w = all.index_of(pages[k]);
                assert(still_waits(state, all[w], now) == wait);
            }
        }
    }
}

/// No page waits for ever, and none is answered too early. A look at the waiting pages keeps those whose
/// request is still under way, for thirty-five seconds at most, and hands out all others; none is lost and
/// none is made up.
pub proof fn waiting_pages_are_answered_in_time(
    pages: Seq<PendingHistoryPage>,
    state: AppState,
    now: u64,
    kept: Seq<PendingHistoryPage>,
    out: Seq<PendingHistoryPage>,
    k: int,
)
    requires
        kept == sorted_out(pages, state, now, true),
        out == sorted_out(pages, state, now, false),
        0 <= k < pages.len(),
    ensures
        kept.len() + out.len() == pages.len(),
        kept.contains(pages[k]) || out.contains(pages[k]),
        now >= pages[k].started + 35_000 ==> out.contains(pages[k]) && !kept.contains(pages[k]),
        !state.buffers@.contains_key(pages[k].buffer_id@) ==> out.contains(pages[k]),
        ({
            let b = state.buffers@[pages[k].buffer_id@];
            let under_way = state.buffers@.contains_key(pages[k].buffer_id@) && state.connections@.contains_key(
                b.connection_id@,
            ) && state.connections@[b.connection_id@].chathistory.pending(pages[k].request_target@);
            &&& !under_way ==> out.contains(pages[k])
            &&& under_way && now < pages[k].started + 35_000 ==> kept.contains(pages[k]) && !out.contains(pages[k])
        }),
        forall|j: int| 0 <= j < kept.len() ==> pages.contains(#[trigger] kept[j]),
        forall|j: int| 0 <= j < out.len() ==> pages.contains(#[trigger] out[j]),
{
    lemma_sorted_out(pages, state, now, true);
    lemma_sorted_out(pages, state, now, false);
}

/// Memory answers the latest page as soon as it holds a row of the conversation; an empty channel or query
/// with room for rows asks the server for the latest ones, or waits for what was asked already.
pub proof fn latest_pages_come_from_memory(
    state: AppState,
    synthetic: Seq<bool>,
    page: PendingHistoryPage,
    cap: usize,
    i: int,
)
    requires
        page.before is None,
        page.before_message_id is None,
        page.limit > 0,
        state.buffers@.contains_key(page.buffer_id@),
    ensures
        ({
            let b = state.buffers@[page.buffer_id@];
            let step = page_step(state, synthetic, page, cap);
            &&& 0 <= i < b.messages@.len() && !synthetic[i] ==> step == PageStep::Reply
            &&& (forall|k: int| 0 <= k < b.messages@.len() ==> #[trigger] synthetic[k]) && (b.buffer_type
                == BufferType::Channel || b.buffer_type == BufferType::Query) && b.messages@.len() < cap ==> {
                if state.connections@.contains_key(b.connection_id@)
                    && state.connections@[b.connection_id@].chathistory.pending(b.name@) {
                    step == PageStep::Wait
                } else {
                    step == PageStep::AskLatest
                }
            }
            &&& b.buffer_type != BufferType::Channel && b.buffer_type != BufferType::Query ==> step
                == PageStep::Reply
        }),
{
    let b = state.buffers@[page.buffer_id@];
    let messages = b.messages@;
    let rows = candidates(messages, synthetic, page, messages.len() as int);
    lemma_candidates(messages, synthetic, page, messages.len() as int);
    lemma_eligible(messages, synthetic, page, messages.len() as int);
    lemma_all_candidates(messages, synthetic, page, messages.len() as int);
    if 0 <= i < messages.len() && !synthetic[i] {
        assert(eligible(messages, synthetic, page, i));
        assert(rows.contains(i));
        assert(page_rows(messages, synthetic, page).len() > 0);
    }
    if forall|k: int| 0 <= k < messages.len() ==> #[trigger] synthetic[k] {
        if rows.len() > 0 {
            assert(eligible(messages, synthetic, page, rows[0]));
            assert(synthetic[rows[0]]);
        }
        assert(page_rows(messages, synthetic, page).len() == 0);
    }
}

/// Older rows are kept as long as somebody reads them: a session that leaves gives its buffer free only where
/// no other session reads it and the terminal is not scrolled back in it.
pub proof fn the_last_reader_gives_free(
    viewers: Map<Seq<char>, String>,
    active: Option<Seq<char>>,
    scrolled: bool,
    session: Seq<char>,
    other: Seq<char>,
)
    requires
        viewers.contains_key(session),
    ensures
        other != session && viewers.contains_key(other) && viewers[other]@ == viewers[session]@ ==> left_by(
            viewers,
            active,
            scrolled,
            session,
        ) is None,
        active == Some(viewers[session]@) && scrolled ==> left_by(viewers, active, scrolled, session) is None,
        (forall|s: Seq<char>| #[trigger] viewers.contains_key(s) && s != session ==> viewers[s]@ != viewers[session]@)
            && !(active == Some(viewers[session]@) && scrolled) ==> left_by(viewers, active, scrolled, session)
            == Some(viewers[session]@),
{
    let rest = viewers.remove(session);
    if other != session && viewers.contains_key(other) && viewers[other]@ == viewers[session]@ {
        assert(reads(rest, other, viewers[session]@));
    }
    if exists|s: Seq<char>| #[trigger] reads(rest, s, viewers[session]@) {
        let s = choose|s: Seq<char>| #[trigger] reads(rest, s, viewers[session]@);
        assert(viewers.contains_key(s) && s != session);
    }
}

/// A client may tell a time in seconds or in milliseconds: seconds are taken as the whole second, and a page
/// holds between one row and five hundred.
pub proof fn times_are_taken_as_they_are_meant(
    p: PendingHistoryPage,
    state: AppState,
    buffer_id: Seq<char>,
    limit: u32,
    at: i64,
    session: Seq<char>,
    now: u64,
    row: i64,
)
    requires
        page_asked(p, state, buffer_id, limit, Some(at), None, session, now),
        0 <= at < 9_000_000_000_000_000,
    ensures
        1 <= p.limit <= 500,
        1 <= limit <= 500 ==> p.limit == limit,
        p.before is Some && p.cursor_precision_ms > 0,
        at < 10_000_000_000 ==> (slot(row, p.cursor_precision_ms) <= slot(p.before->0, p.cursor_precision_ms)
            <==> row < (at + 1) * 1000),
        at >= 10_000_000_000 ==> (slot(row, p.cursor_precision_ms) <= slot(p.before->0, p.cursor_precision_ms)
            <==> row <= at),
{
    if at < 10_000_000_000 {
        assert(p.before == Some((at * 1000) as i64));
        assert(at as int * 1000 / 1000 == at as int);
        assert(row as int / 1000 <= at as int <==> (row as int) < (at as int + 1) * 1000);
    } else {
        assert(p.cursor_precision_ms == 1);
        assert(at as int * p.cursor_precision_ms as int == at as int) by (nonlinear_arith)
            requires
                p.cursor_precision_ms == 1,
        ;
        assert(p.before == Some(at));
        assert(row as int / 1 == row as int && at as int / 1 == at as int);
    }
}

/// A page that is answered waits no longer, and every other goes on waiting, in its order.
pub proof fn other_pages_go_on_waiting(pages: Seq<PendingHistoryPage>, session: Seq<char>, buffer: Seq<char>)
    ensures
        without_page(pages, session, buffer) == pages.filter(
            |p: PendingHistoryPage| !(p.session_id@ == session && p.buffer_id@ == buffer),
        ),
    decreases pages.len(),
{
    reveal(Seq::filter);
    if pages.len() > 0 {
        other_pages_go_on_waiting(pages.drop_last(), session, buffer);
    } else {
        assert(without_page(pages, session, buffer) =~= pages.filter(
            |p: PendingHistoryPage| !(p.session_id@ == session && p.buffer_id@ == buffer),
        ));
    }
}

} // verus!
