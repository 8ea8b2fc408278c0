//! The per-connection protocol: one decision step per received line.
//!
//! A connection worker owns the I/O.  It feeds each line it reads into
//! [`register_line`] (while the client has no nickname yet) or
//! [`relay_line`] (once registered), holding the registry lock around the
//! call, and then performs exactly the sends the returned value describes.
//! On end-of-stream or I/O failure it calls [`Registry::remove`] if the
//! client was registered, or gives up with `NoNicknameProvided` if it was
//! not.

use vstd::prelude::*;
use vstd::string::StrSliceExecFns;
use crate::errors::ChatError;
use crate::messages::join_text;
use crate::messages::rejection_text;
use crate::messages::relay_text;
use crate::messages::join_message;
use crate::messages::rejection_message;
use crate::messages::relay_message;
use crate::registry::ClientRecord;
use crate::registry::Registry;
use crate::registry::all_ids;
use crate::registry::has_id;
use crate::registry::has_nickname;
use crate::registry::lemma_all_ids_membership;
use crate::registry::lemma_peer_ids_all;
use crate::registry::peer_ids;
use crate::registry::registry_wf;
use crate::text::trim_line;
use crate::text::trim_spec;
use crate::text::lemma_trim_idempotent;

verus! {

/// What one registration attempt decided.
pub enum RegistrationStep {
    /// The line was empty once trimmed: an invalid nickname.  Nothing is
    /// sent and nothing changes; the worker reads another line.
    EmptyNickname,
    /// The nickname is taken.  `reply` goes back on the registering
    /// connection only — it is not broadcast — and the worker reads
    /// another line.
    Rejected { reply: String },
    /// The client is registered under `nickname`.  The worker sends
    /// `announcement` to every connection in `peer_targets` and then once,
    /// directly, to the new client itself, which is not among the targets.
    Admitted { nickname: String, announcement: String, peer_targets: Vec<u64> },
}

/// One broadcast, ready to perform: `message` goes to each connection in
/// `targets`, in order.  Sends are attempted independently: a dead
/// recipient must not keep the rest from being served.
pub struct BroadcastPlan {
    /// The full text to write, trailing newline included.
    pub message: String,
    /// The connection ids to write it to, in registry order.
    pub targets: Vec<u64>,
}

/// Decides one step of the registration handshake for the line a
/// connection sent, and performs it on the registry.
///
/// `id` is the connection id the caller reserved for this client; it must
/// be fresh, since no two live connections share a handle.  The line is
/// trimmed; an empty result is invalid, a taken nickname earns a unicast
/// rejection, and otherwise the client is admitted: the join announcement
/// goes to every previously registered client and once to the joiner, and
/// the new record enters the registry.
pub fn register_line(registry: &mut Registry, id: u64, line: &str) -> (step: RegistrationStep)
    requires
        registry_wf(old(registry)@),
        !has_id(old(registry)@, id),
    ensures
        registry_wf(final(registry)@),
        (trim_spec(line@).len() == 0 ==> step == RegistrationStep::EmptyNickname
            && final(registry)@ == old(registry)@),
        (trim_spec(line@).len() > 0 && has_nickname(old(registry)@, trim_spec(line@))
            ==> final(registry)@ == old(registry)@),
        (trim_spec(line@).len() > 0 && has_nickname(old(registry)@, trim_spec(line@)) ==> (
        step matches RegistrationStep::Rejected { reply } && reply@ == rejection_text(
            trim_spec(line@),
        ))),
        (trim_spec(line@).len() > 0 && !has_nickname(old(registry)@, trim_spec(line@))
            ==> final(registry)@ == old(registry)@.push((id, trim_spec(line@)))),
        (trim_spec(line@).len() > 0 && !has_nickname(old(registry)@, trim_spec(line@)) ==> (
        step matches RegistrationStep::Admitted { nickname, announcement, peer_targets }
            && nickname@ == trim_spec(line@) && announcement@ == join_text(trim_spec(line@))
            && peer_targets@ == all_ids(old(registry)@) && !peer_targets@.contains(id))),
{
    let candidate = trim_line(line);
    if candidate.unicode_len() == 0 {
        return RegistrationStep::EmptyNickname;
    }
    if registry.contains_nickname(candidate) {
        return RegistrationStep::Rejected { reply: rejection_message(candidate) };
    }
    let announcement = join_message(candidate);
    let peer_targets = registry.broadcast_targets(candidate);
    proof {
        lemma_peer_ids_all(registry@, candidate@);
        lemma_all_ids_membership(registry@);
    }
    let nickname = candidate.to_owned();
    let record = ClientRecord { id, nickname: candidate.to_owned() };
    proof {
        lemma_trim_idempotent(line@);
    }
    let admitted = registry.insert(record);
    proof {
        assert(admitted == Ok::<(), ChatError>(()));
    }
    RegistrationStep::Admitted { nickname, announcement, peer_targets }
}

/// Turns a chat line from a registered client into the broadcast that
/// relays it: `"[<nickname>]: <line>"` (the line keeps its newline), to
/// every registered client except the sender.
pub fn relay_line(registry: &Registry, nickname: &str, line: &str) -> (plan: BroadcastPlan)
    ensures
        plan.message@ == relay_text(nickname@, line@),
        plan.targets@ == peer_ids(registry@, nickname@),
{
    BroadcastPlan {
        message: relay_message(nickname, line),
        targets: registry.broadcast_targets(nickname),
    }
}

/// Law: a newly joined client receives its own join announcement exactly
/// once.
///
/// On admission the announcement goes to `targets` — which, by the
/// contract of `register_line`, do not include the joiner — and then once,
/// directly, to the joiner itself; over the whole delivery sequence the
/// joiner's connection appears exactly once, at the end.
pub proof fn lemma_join_announced_once(targets: Seq<u64>, id: u64)
    requires
        !targets.contains(id),
    ensures
        forall|k: int|
            0 <= k < targets.len() + 1 ==> ((#[trigger] (targets + seq![id])[k]) == id <==> k
                == targets.len()),
{
    assert forall|k: int| 0 <= k < targets.len() + 1 implies ((#[trigger] (targets + seq![
        id,
    ])[k]) == id <==> k == targets.len()) by {
        if k < targets.len() {
            assert((targets + seq![id])[k] == targets[k]);
        } else {
            assert((targets + seq![id])[k] == id);
        }
    }
}

} // verus!
