//! The decisions behind the HTTP API: history windows, log tails, static
//! files, and the retention cut-off.
use vstd::prelude::*;
use vstd::string::*;

use crate::docker::{strip_slashes, trim_slashes};
use crate::idmap::IdMap;
use crate::ids::{hex_id, is_hex_id};
use crate::types::{opt_view, range_fits, range_span, try_range_to_millis, LogQuery};

verus! {

/// History charts aim at about this many points.
pub const TARGET_POINTS: i64 = 800;

/// At most this many log lines are sent when a log view opens.
pub const MAX_LOG_TAIL: usize = 5000;

/// Integer division rounding toward zero (the division of `i64`).
pub open spec fn div_trunc(a: int, b: int) -> int {
    if a >= 0 {
        a / b
    } else {
        -((-a) / b)
    }
}

/// The bucket width of a history window of `span` milliseconds: about
/// `TARGET_POINTS` points, but no finer than the persist interval, and at least 1.
pub open spec fn bucket_of(span: int, persist_ms: int) -> int {
    let b = div_trunc(span, TARGET_POINTS as int);
    let b = if b >= persist_ms {
        b
    } else {
        persist_ms
    };
    if b >= 1 {
        b
    } else {
        1
    }
}

/// Whether the window of `range` at time `now_ms` can be computed in `i64`.
pub open spec fn window_fits(range: Option<Seq<char>>, now_ms: i64) -> bool {
    range_fits(range) && i64::MIN <= now_ms - range_span(range) <= i64::MAX
}

/// The start and bucket width of a history query over `range` made at
/// `now_ms`, or `None` where the arithmetic overflows.
pub fn try_window(range: &Option<String>, persist_ms: i64, now_ms: i64) -> (r: Option<(i64, i64)>)
    ensures
        match r {
            Some((since, bucket)) => window_fits(opt_view(*range), now_ms) && since == now_ms
                - range_span(opt_view(*range)) && bucket == bucket_of(
                range_span(opt_view(*range)),
                persist_ms as int,
            ),
            None => !window_fits(opt_view(*range), now_ms),
        },
{
    let span = match try_range_to_millis(range) {
        Some(s) => s,
        None => {
            return None;
        },
    };
    let since = match now_ms.checked_sub(span) {
        Some(v) => v,
        None => {
            return None;
        },
    };
    let s = span as i128;
    let q: i128 = if s >= 0 {
        s / 800
    } else {
        0 - ((0 - s) / 800)
    };
    let q = q as i64;
    let b = if q >= persist_ms {
        q
    } else {
        persist_ms
    };
    let b = if b >= 1 {
        b
    } else {
        1
    };
    Some((since, b))
}

/// The start and bucket width of a history query over `range` made at `now_ms`.
pub fn window(range: &Option<String>, persist_ms: i64, now_ms: i64) -> (r: (i64, i64))
    requires
        window_fits(opt_view(*range), now_ms),
    ensures
        r.0 == now_ms - range_span(opt_view(*range)),
        r.1 == bucket_of(range_span(opt_view(*range)), persist_ms as int),
{
    match try_window(range, persist_ms, now_ms) {
        Some(w) => w,
        None => (0, 1),
    }
}

/// How many log lines a log view starts with: the requested number, else
/// the default, but at most `MAX_LOG_TAIL`.
pub fn log_tail_count(query: &LogQuery, default: usize) -> (r: usize)
    ensures
        r == (if (match query.tail {
            Some(t) => t,
            None => default,
        }) <= MAX_LOG_TAIL {
            match query.tail {
                Some(t) => t,
                None => default,
            }
        } else {
            MAX_LOG_TAIL
        }),
{
    let t = match query.tail {
        Some(t) => t,
        None => default,
    };
    if t <= MAX_LOG_TAIL {
        t
    } else {
        MAX_LOG_TAIL
    }
}

/// How many lines the log view of `id` starts with (as `log_tail_count`
/// gives it), or `None` when `id` is not a container id and the request is
/// refused before anything is read.
pub fn log_view_tail(id: &str, query: &LogQuery, default: usize) -> (r: Option<usize>)
    ensures
        r == if hex_id(id@) {
            Some(
                if (match query.tail {
                    Some(t) => t,
                    None => default,
                }) <= MAX_LOG_TAIL {
                    match query.tail {
                        Some(t) => t,
                        None => default,
                    }
                } else {
                    MAX_LOG_TAIL
                },
            )
        } else {
            None
        },
{
    if is_hex_id(id) {
        Some(log_tail_count(query, default))
    } else {
        None
    }
}

/// Whether a log channel must be started for `id`: it is a container id and
/// has none yet.
pub fn needs_channel<C>(channels: &IdMap<C>, id: &str) -> (r: bool)
    requires
        channels.wf(),
    ensures
        r == (hex_id(id@) && !channels@.dom().contains(id@)),
{
    is_hex_id(id) && !channels.contains_key(id)
}

/// The file a request path names: without leading slashes, `index.html` for none.
pub open spec fn asset_path_of(uri: Seq<char>) -> Seq<char> {
    let p = trim_slashes(uri);
    if p.len() == 0 {
        "index.html"@
    } else {
        p
    }
}

/// The embedded file a request path names.
pub fn asset_path(uri_path: &str) -> (r: String)
    ensures
        r@ == asset_path_of(uri_path@),
{
    let p = strip_slashes(uri_path);
    if p.unicode_len() == 0 {
        String::from_str("index.html")
    } else {
        p
    }
}

/// The media type that `mime_guess` gives a path (by its extension).
pub uninterp spec fn mime_for(path: Seq<char>) -> Seq<char>;

/// Calls `mime_guess::from_path(path).first_or_octet_stream()`. Trusted: the
/// result is `mime_for(path)`, a function of the path alone (a fixed table
/// keyed by its extension, `application/octet-stream` where nothing matches).
#[verifier::external_body]
fn guess_mime(path: &str) -> (r: String)
    ensures
        r@ == mime_for(path@),
{
    let m = mime_guess::from_path(path).first_or_octet_stream();
    String::from(m.as_ref())
}

/// The answer to a request for a static file.
pub enum StaticReply {
    /// Send the embedded file `path` with this content type.
    Asset { path: String, content_type: String },
    /// Nothing to send.
    NotFound,
}

/// The answer for file `path` given whether it, and the index page, are embedded:
/// the file with its guessed type, else the index page as HTML, else nothing.
pub fn static_reply(path: &str, found: bool, index_found: bool) -> (r: StaticReply)
    ensures
        match r {
            StaticReply::Asset { path: p, content_type } => if found {
                p@ == path@ && content_type@ == mime_for(path@)
            } else {
                index_found && p@ == "index.html"@ && content_type@ == "text/html"@
            },
            StaticReply::NotFound => !found && !index_found,
        },
{
    if found {
        StaticReply::Asset { path: String::from_str(path), content_type: guess_mime(path) }
    } else if index_found {
        StaticReply::Asset {
            path: String::from_str("index.html"),
            content_type: String::from_str("text/html"),
        }
    } else {
        StaticReply::NotFound
    }
}

/// Retention in milliseconds as a signed count (as `Duration::as_millis() as i64`).
pub open spec fn retention_ms(retention_secs: u64) -> i64 {
    (retention_secs * 1000) as i64
}

/// Whether the cut-off can be computed in `i64`.
pub open spec fn cutoff_fits(now_ms: i64, retention_secs: u64) -> bool {
    i64::MIN <= now_ms - retention_ms(retention_secs) <= i64::MAX
}

/// The time before which samples are pruned, or `None` where it overflows.
pub fn try_prune_cutoff(now_ms: i64, retention_secs: u64) -> (r: Option<i64>)
    ensures
        match r {
            Some(v) => cutoff_fits(now_ms, retention_secs) && v == now_ms - retention_ms(
                retention_secs,
            ),
            None => !cutoff_fits(now_ms, retention_secs),
        },
{
    let ms = ((retention_secs as u128) * 1000) as i64;
    now_ms.checked_sub(ms)
}

/// The time before which samples are pruned: `retention_secs` before `now_ms`.
pub fn prune_cutoff(now_ms: i64, retention_secs: u64) -> (r: i64)
    requires
        cutoff_fits(now_ms, retention_secs),
    ensures
        r == now_ms - retention_ms(retention_secs),
{
    match try_prune_cutoff(now_ms, retention_secs) {
        Some(v) => v,
        None => 0,
    }
}

} // verus!
