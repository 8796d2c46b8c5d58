//! Bookkeeping of the local IPC server.
//!
//! The daemon serves the UI over two local sockets: a broadcast socket on
//! which it only pushes events, and an RPC socket with one reply per request
//! line. The socket I/O itself lives in the surrounding process; this module
//! fixes the socket names, the shape of a queued message, the canonical
//! broadcast event line, and the rule by which dead subscribers leave the
//! sink list.

use vstd::prelude::*;
use crate::json::{push_all, push_jstring, spec_jstring, NEWLINE};
use crate::message::{lit_close, lit_onion_key};
use crate::text::text_bytes;

verus! {

/// Paths of the two local sockets.
pub struct SocketPaths;

impl SocketPaths {
    /// Socket for RPC: one reply per request.
    pub const RPC: &'static str = "/tmp/arti-chat.rpc.sock";

    /// Socket for broadcasting: fire and forget.
    pub const BROADCAST: &'static str = "/tmp/arti-chat.broadcast.sock";
}

/// A line queued for one UI connection's writer.
pub enum MessageToUI {
    /// Pushed on the broadcast socket.
    Broadcast(Vec<u8>),
    /// Reply to an RPC request.
    Rpc(Vec<u8>),
}

/// The broadcast line `{"onion_id":...}` plus newline: activity on this
/// conversation — reload.
pub open spec fn spec_reload_event(onion: Seq<char>) -> Seq<u8> {
    lit_onion_key() + spec_jstring(text_bytes(onion)) + lit_close() + seq![NEWLINE]
}

/// Build the reload-hint broadcast line for one conversation.
pub fn build_reload_event(onion_id: &str) -> (r: Vec<u8>)
    ensures
        r@ == spec_reload_event(onion_id@),
{
    let mut out: Vec<u8> = Vec::new();
    let lit: Vec<u8> = vec![123u8, 34, 111, 110, 105, 111, 110, 95, 105, 100, 34, 58];
    proof {
        assert(lit@ =~= lit_onion_key());
    }
    push_all(&mut out, lit.as_slice());
    push_jstring(&mut out, onion_id.as_bytes());
    out.push(125);
    out.push(NEWLINE);
    proof {
        assert(out@ =~= spec_reload_event(onion_id@));
    }
    out
}

/// The subscribers that stay after one broadcast: those whose send
/// succeeded, in order.
pub open spec fn kept_ids(subs: Seq<u64>, ok: Seq<bool>) -> Seq<u64>
    decreases subs.len(),
{
    if subs.len() == 0 || subs.len() != ok.len() {
        Seq::empty()
    } else if ok.last() {
        kept_ids(subs.drop_last(), ok.drop_last()).push(subs.last())
    } else {
        kept_ids(subs.drop_last(), ok.drop_last())
    }
}

/// Retain, after a broadcast attempt, exactly the subscribers whose send
/// succeeded.
pub fn retain_live(subscribers: &Vec<u64>, delivered: &Vec<bool>) -> (kept: Vec<u64>)
    requires
        subscribers@.len() == delivered@.len(),
    ensures
        kept@ == kept_ids(subscribers@, delivered@),
{
    let mut kept: Vec<u64> = Vec::new();
    let mut i: usize = 0;
    while i < subscribers.len()
        invariant
            i <= subscribers@.len(),
            subscribers@.len() == delivered@.len(),
            kept@ == kept_ids(
                subscribers@.subrange(0, i as int),
                delivered@.subrange(0, i as int),
            ),
        decreases subscribers@.len() - i,
    {
        proof {
            assert(subscribers@.subrange(0, i as int + 1).drop_last() =~= subscribers@.subrange(
                0,
                i as int,
            ));
            assert(delivered@.subrange(0, i as int + 1).drop_last() =~= delivered@.subrange(
                0,
                i as int,
            ));
            assert(subscribers@.subrange(0, i as int + 1).last() == subscribers@[i as int]);
            assert(delivered@.subrange(0, i as int + 1).last() == delivered@[i as int]);
        }
        if delivered[i] {
            kept.push(subscribers[i]);
        }
        i = i + 1;
    }
    proof {
        assert(subscribers@.subrange(0, subscribers@.len() as int) =~= subscribers@);
        assert(delivered@.subrange(0, delivered@.len() as int) =~= delivered@);
    }
    kept
}

/// Law: after a broadcast attempt, a subscriber stays in the sink list
/// exactly when its send succeeded — in particular, a disconnected
/// subscriber's sink is removed by the next broadcast.
pub proof fn lemma_sink_retention(subs: Seq<u64>, ok: Seq<bool>, i: int)
    requires
        subs.len() == ok.len(),
        forall|a: int, b: int| 0 <= a < b < subs.len() ==> subs[a] != subs[b],
        0 <= i < subs.len(),
    ensures
        kept_ids(subs, ok).contains(subs[i]) <==> ok[i],
    decreases subs.len(),
{
    let kd = kept_ids(subs.drop_last(), ok.drop_last());
    assert(forall|a: int, b: int|
        0 <= a < b < subs.drop_last().len() ==> subs.drop_last()[a] != subs.drop_last()[b]);
    lemma_kept_ids_from(subs.drop_last(), ok.drop_last());
    if i == subs.len() - 1 {
        if ok[i] {
            assert(kept_ids(subs, ok)[kd.len() as int] == subs.last());
        } else {
            if kept_ids(subs, ok).contains(subs[i]) {
                let k = choose|k: int| 0 <= k < kd.len() && kd[k] == subs[i];
                let m = choose|m: int|
                    0 <= m < subs.drop_last().len() && subs.drop_last()[m] == kd[k];
                assert(subs[m] == subs[i]);
            }
        }
    } else {
        lemma_sink_retention(subs.drop_last(), ok.drop_last(), i);
        assert(subs.drop_last()[i] == subs[i] && ok.drop_last()[i] == ok[i]);
        if ok[i] {
            assert(kd.contains(subs[i]));
            let k = choose|k: int| 0 <= k < kd.len() && kd[k] == subs[i];
            if ok.last() {
                assert(kept_ids(subs, ok)[k] == subs[i]);
            }
        } else {
            if kept_ids(subs, ok).contains(subs[i]) {
                let k = choose|k: int| 0 <= k < kept_ids(subs, ok).len() && kept_ids(subs, ok)[k] == subs[i];
                if ok.last() && k == kept_ids(subs, ok).len() - 1 {
                    assert(subs[i] == subs.last());
                } else {
                    assert(kd[k] == subs[i]);
                }
            }
        }
    }
}

/// Every id the retention keeps comes from the subscriber list.
proof fn lemma_kept_ids_from(subs: Seq<u64>, ok: Seq<bool>)
    ensures
        forall|k: int|
            0 <= k < kept_ids(subs, ok).len() ==> subs.contains(#[trigger] kept_ids(subs, ok)[k]),
    decreases subs.len(),
{
    if subs.len() > 0 && subs.len() == ok.len() {
        lemma_kept_ids_from(subs.drop_last(), ok.drop_last());
        assert forall|k: int|
            0 <= k < kept_ids(subs, ok).len() implies subs.contains(
            #[trigger] kept_ids(subs, ok)[k],
        ) by {
            let kd = kept_ids(subs.drop_last(), ok.drop_last());
            if k < kd.len() {
                assert(kept_ids(subs, ok)[k] == kd[k]);
                assert(subs.drop_last().contains(kd[k]));
                let m = choose|m: int|
                    0 <= m < subs.drop_last().len() && subs.drop_last()[m] == kd[k];
                assert(subs[m] == kd[k]);
            } else {
                assert(kept_ids(subs, ok)[k] == subs.last());
                assert(subs[subs.len() - 1] == subs.last());
            }
        }
    }
}

} // verus!
