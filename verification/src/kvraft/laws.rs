//! What the key/value service promises across operations.
use vstd::prelude::*;
use super::command::{CommandView, OpKind};
use super::state::{apply_spec, current_value, is_duplicate, KvStateView};

verus! {

/// The state after applying commands in order.
pub open spec fn apply_all(s: KvStateView, cs: Seq<CommandView>) -> KvStateView
    decreases cs.len(),
{
    if cs.len() == 0 {
        s
    } else {
        apply_spec(apply_all(s, cs.drop_last()), cs.last()).0
    }
}

/// Applying a command a second time right after the first changes nothing.
pub proof fn law_apply_exactly_once(s: KvStateView, c: CommandView)
    ensures
        apply_spec(apply_spec(s, c).0, c).0 == apply_spec(s, c).0,
{
}

/// A client's last operation number never goes down: every client the state
/// knows stays known, with a number at least as high.
pub proof fn law_sessions_never_decrease(s: KvStateView, c: CommandView)
    ensures
        forall|k: Seq<char>|
            s.sessions.contains_key(k) ==> #[trigger] apply_spec(s, c).0.sessions.contains_key(k)
                && apply_spec(s, c).0.sessions[k] >= s.sessions[k],
{
}

proof fn lemma_all_sessions_never_decrease(s: KvStateView, cs: Seq<CommandView>, k: Seq<char>)
    requires
        s.sessions.contains_key(k),
    ensures
        apply_all(s, cs).sessions.contains_key(k),
        apply_all(s, cs).sessions[k] >= s.sessions[k],
    decreases cs.len(),
{
    if cs.len() > 0 {
        lemma_all_sessions_never_decrease(s, cs.drop_last(), k);
        law_sessions_never_decrease(apply_all(s, cs.drop_last()), cs.last());
    }
}

/// Once a put or an append has been applied, a retry of it is ignored,
/// whatever other commands were applied in between: each operation takes
/// effect once.
pub proof fn law_retry_ignored(s: KvStateView, c: CommandView, between: Seq<CommandView>)
    requires
        c.kind != OpKind::Get,
    ensures
        ({
            let t = apply_all(apply_spec(s, c).0, between);
            apply_spec(t, c) == (t, Seq::<char>::empty())
        }),
{
    let s1 = apply_spec(s, c).0;
    assert(s1.sessions.contains_key(c.client) && c.seq <= s1.sessions[c.client]);
    lemma_all_sessions_never_decrease(s1, between, c.client);
    assert(is_duplicate(apply_all(s1, between), c));
}

/// A read after a put of the same key, by the put's own client or any
/// other, gives back the value put.
pub proof fn law_get_after_put(s: KvStateView, put: CommandView, get: CommandView)
    requires
        put.kind == OpKind::Put,
        !is_duplicate(s, put),
        get.kind == OpKind::Get,
        get.key == put.key,
    ensures
        apply_spec(apply_spec(s, put).0, get).1 == put.value,
{
}

/// A read after an append gives back the value before the append with the
/// appended text at its end.
pub proof fn law_get_after_append(s: KvStateView, app: CommandView, get: CommandView)
    requires
        app.kind == OpKind::Append,
        !is_duplicate(s, app),
        get.kind == OpKind::Get,
        get.key == app.key,
    ensures
        apply_spec(apply_spec(s, app).0, get).1 == current_value(s, app.key) + app.value,
{
}

/// A read changes nothing.
pub proof fn law_get_changes_nothing(s: KvStateView, get: CommandView)
    requires
        get.kind == OpKind::Get,
    ensures
        apply_spec(s, get).0 == s,
        apply_spec(s, get).1 == current_value(s, get.key),
{
}

} // verus!
