//! The set of connected clients. Lookups run by endpoint or by server id;
//! both mappings are injective, which every mutation preserves. All calls
//! happen on the router, so the sweep and the send paths always see one
//! consistent snapshot.

use vstd::prelude::*;
use crate::client::{is_message_frame, ping_message, Client, ClientView, DISCONNECT_AFTER_MS,
    PING_AFTER_MS};
use crate::codec::encodable;

verus! {

/// The views of a vector of clients.
pub open spec fn views_of(s: Seq<Client>) -> Seq<ClientView> {
    Seq::new(s.len(), |i: int| s[i]@)
}

/// Both indices are injective: no two clients share an endpoint, and no
/// two identified clients share a server id.
pub open spec fn pairwise_ok(s: Seq<ClientView>) -> bool {
    forall|i: int, j: int|
        0 <= i < s.len() && 0 <= j < s.len() && i != j ==> (#[trigger] s[i].endpoint
            != #[trigger] s[j].endpoint && (s[i].server_id.len() == 0 || s[i].server_id
            != s[j].server_id))
}

/// Owns every admitted client.
pub struct ClientManager {
    pub clients: Vec<Client>,
}

impl View for ClientManager {
    type V = Seq<ClientView>;

    open spec fn view(&self) -> Seq<ClientView> {
        views_of(self.clients@)
    }
}

// ---------- what the liveness sweep does, as functions of the state ----------

/// The client survives the sweep at `now`.
pub open spec fn keeps(c: ClientView, now: u64) -> bool {
    c.connected && now <= c.last_checked_at + DISCONNECT_AFTER_MS
}

/// A ping is due: the last one was answered and the quiet spell is long
/// enough.
pub open spec fn wants_ping(c: ClientView, now: u64) -> bool {
    c.pong_received && now > c.last_checked_at + PING_AFTER_MS
}

/// The ping to this client can actually be encoded.
pub open spec fn ping_ok(c: ClientView) -> bool {
    encodable(ping_message(c.server_id), c.server_key)
}

/// The client after a ping went out: waiting for the pong.
pub open spec fn pinged_client(c: ClientView) -> ClientView {
    ClientView { pong_received: false, ..c }
}

/// The clients that survive a sweep at `now`, pings marked outstanding.
pub open spec fn sweep(s: Seq<ClientView>, now: u64) -> Seq<ClientView>
    decreases s.len(),
{
    if s.len() == 0 {
        Seq::empty()
    } else {
        let rest = sweep(s.skip(1), now);
        if !keeps(s[0], now) {
            rest
        } else if wants_ping(s[0], now) {
            seq![pinged_client(s[0])] + rest
        } else {
            seq![s[0]] + rest
        }
    }
}

/// The transport resources of the clients the sweep drops.
pub open spec fn swept_ids(s: Seq<ClientView>, now: u64) -> Seq<u64>
    decreases s.len(),
{
    if s.len() == 0 {
        Seq::empty()
    } else {
        let rest = swept_ids(s.skip(1), now);
        if !keeps(s[0], now) {
            seq![s[0].resource_id] + rest
        } else {
            rest
        }
    }
}

/// The clients (as they stood before the sweep) that get a ping.
pub open spec fn pinged(s: Seq<ClientView>, now: u64) -> Seq<ClientView>
    decreases s.len(),
{
    if s.len() == 0 {
        Seq::empty()
    } else {
        let rest = pinged(s.skip(1), now);
        if keeps(s[0], now) && wants_ping(s[0], now) && ping_ok(s[0]) {
            seq![s[0]] + rest
        } else {
            rest
        }
    }
}

proof fn lemma_sweep_append(a: Seq<ClientView>, b: Seq<ClientView>, now: u64)
    ensures
        sweep(a + b, now) == sweep(a, now) + sweep(b, now),
        swept_ids(a + b, now) == swept_ids(a, now) + swept_ids(b, now),
        pinged(a + b, now) == pinged(a, now) + pinged(b, now),
    decreases a.len(),
{
    if a.len() == 0 {
        assert(a + b =~= b);
        assert(sweep(a, now) + sweep(b, now) =~= sweep(b, now));
        assert(swept_ids(a, now) + swept_ids(b, now) =~= swept_ids(b, now));
        assert(pinged(a, now) + pinged(b, now) =~= pinged(b, now));
    } else {
        assert((a + b)[0] == a[0]);
        assert((a + b).skip(1) =~= a.skip(1) + b);
        lemma_sweep_append(a.skip(1), b, now);
        assert(sweep(a + b, now) =~= sweep(a, now) + sweep(b, now));
        assert(swept_ids(a + b, now) =~= swept_ids(a, now) + swept_ids(b, now));
        assert(pinged(a + b, now) =~= pinged(a, now) + pinged(b, now));
    }
}

proof fn lemma_sweep_singleton(c: ClientView, now: u64)
    ensures
        sweep(seq![c], now) == (if !keeps(c, now) {
            Seq::<ClientView>::empty()
        } else if wants_ping(c, now) {
            seq![pinged_client(c)]
        } else {
            seq![c]
        }),
        swept_ids(seq![c], now) == (if !keeps(c, now) {
            seq![c.resource_id]
        } else {
            Seq::<u64>::empty()
        }),
        pinged(seq![c], now) == (if keeps(c, now) && wants_ping(c, now) && ping_ok(c) {
            seq![c]
        } else {
            Seq::<ClientView>::empty()
        }),
{
    let s = seq![c];
    assert(s.skip(1) =~= Seq::<ClientView>::empty());
    reveal_with_fuel(sweep, 2);
    reveal_with_fuel(swept_ids, 2);
    reveal_with_fuel(pinged, 2);
    assert(seq![pinged_client(c)] + Seq::<ClientView>::empty() =~= seq![pinged_client(c)]);
    assert(seq![c] + Seq::<ClientView>::empty() =~= seq![c]);
    assert(seq![c.resource_id] + Seq::<u64>::empty() =~= seq![c.resource_id]);
}

/// Every survivor of the sweep carries the endpoint and server id of some
/// client that went in.
proof fn lemma_sweep_sources(s: Seq<ClientView>, now: u64)
    ensures
        forall|k: int|
            0 <= k < sweep(s, now).len() ==> exists|i: int|
                0 <= i < s.len() && (#[trigger] sweep(s, now)[k]).endpoint == s[i].endpoint
                    && sweep(s, now)[k].server_id == s[i].server_id && k <= i,
    decreases s.len(),
{
    if s.len() > 0 {
        lemma_sweep_sources(s.skip(1), now);
        let sw = sweep(s, now);
        let rest = sweep(s.skip(1), now);
        assert forall|k: int| 0 <= k < sw.len() implies exists|i: int|
            0 <= i < s.len() && (#[trigger] sw[k]).endpoint == s[i].endpoint && sw[k].server_id
                == s[i].server_id && k <= i by {
            if !keeps(s[0], now) {
                let i0 = choose|i0: int|
                    0 <= i0 < s.skip(1).len() && (#[trigger] rest[k]).endpoint == s.skip(
                        1,
                    )[i0].endpoint && rest[k].server_id == s.skip(1)[i0].server_id && k <= i0;
                assert(sw[k] == rest[k]);
                assert(s.skip(1)[i0] == s[i0 + 1]);
            } else if k == 0 {
                assert(sw[0].endpoint == s[0].endpoint && sw[0].server_id == s[0].server_id);
            } else {
                let i0 = choose|i0: int|
                    0 <= i0 < s.skip(1).len() && (#[trigger] rest[k - 1]).endpoint == s.skip(
                        1,
                    )[i0].endpoint && rest[k - 1].server_id == s.skip(1)[i0].server_id && k - 1
                        <= i0;
                assert(sw[k] == rest[k - 1]);
                assert(s.skip(1)[i0] == s[i0 + 1]);
            }
        }
    }
}

/// The sweep keeps both indices injective.
#[verifier::spinoff_prover]
#[verifier::rlimit(60)]
proof fn lemma_sweep_pairwise(s: Seq<ClientView>, now: u64)
    requires
        pairwise_ok(s),
    ensures
        pairwise_ok(sweep(s, now)),
    decreases s.len(),
{
    if s.len() > 0 {
        assert(pairwise_ok(s.skip(1))) by {
            assert forall|i: int, j: int|
                0 <= i < s.skip(1).len() && 0 <= j < s.skip(1).len() && i != j implies (
            #[trigger] s.skip(1)[i].endpoint != #[trigger] s.skip(1)[j].endpoint && (s.skip(
                1,
            )[i].server_id.len() == 0 || s.skip(1)[i].server_id != s.skip(1)[j].server_id)) by {
                assert(s.skip(1)[i] == s[i + 1]);
                assert(s.skip(1)[j] == s[j + 1]);
                assert(s[i + 1].endpoint != s[j + 1].endpoint);
            }
        }
        lemma_sweep_pairwise(s.skip(1), now);
        lemma_sweep_sources(s.skip(1), now);
        let sw = sweep(s, now);
        let rest = sweep(s.skip(1), now);
        if keeps(s[0], now) {
            let head = if wants_ping(s[0], now) {
                pinged_client(s[0])
            } else {
                s[0]
            };
            assert(sw == seq![head] + rest);
            assert forall|i: int, j: int|
                0 <= i < sw.len() && 0 <= j < sw.len() && i != j implies (#[trigger] sw[i].endpoint
                != #[trigger] sw[j].endpoint && (sw[i].server_id.len() == 0 || sw[i].server_id
                != sw[j].server_id)) by {
                if i == 0 || j == 0 {
                    let k = if i == 0 {
                        j
                    } else {
                        i
                    };
                    assert(sw[k] == rest[k - 1]);
                    let i0 = choose|i0: int|
                        0 <= i0 < s.skip(1).len() && (#[trigger] rest[k - 1]).endpoint == s.skip(
                            1,
                        )[i0].endpoint && rest[k - 1].server_id == s.skip(1)[i0].server_id && k - 1
                            <= i0;
                    assert(s.skip(1)[i0] == s[i0 + 1]);
                    assert(s[0].endpoint != s[i0 + 1].endpoint);
                    assert(s[0].server_id.len() == 0 || s[0].server_id != s[i0 + 1].server_id);
                    assert(s[i0 + 1].server_id.len() == 0 || s[i0 + 1].server_id != s[0].server_id);
                } else {
                    assert(sw[i] == rest[i - 1]);
                    assert(sw[j] == rest[j - 1]);
                }
            }
        }
    }
}

// ---------- the sweep's outputs ----------

/// One ping for the transport to deliver.
pub struct PingOut {
    pub endpoint: u64,
    pub frame: Vec<u8>,
}

/// Mathematical model of a [`PingOut`].
pub struct PingOutView {
    pub endpoint: u64,
    pub frame: Seq<u8>,
}

impl View for PingOut {
    type V = PingOutView;

    open spec fn view(&self) -> PingOutView {
        PingOutView { endpoint: self.endpoint, frame: self.frame@ }
    }
}

/// The views of a vector of pings.
pub open spec fn ping_views(s: Seq<PingOut>) -> Seq<PingOutView> {
    Seq::new(s.len(), |i: int| s[i]@)
}

/// Each entry of `ps` is an encrypted ping to the matching client of `cs`.
pub open spec fn pings_match(ps: Seq<PingOutView>, cs: Seq<ClientView>) -> bool {
    &&& ps.len() == cs.len()
    &&& forall|k: int|
        0 <= k < ps.len() ==> (#[trigger] ps[k]).endpoint == cs[k].endpoint && is_message_frame(
            ps[k].frame,
            ping_message(cs[k].server_id),
            cs[k].server_key,
        )
}

proof fn lemma_pings_match_push(ps: Seq<PingOutView>, cs: Seq<ClientView>, p: PingOutView, c: ClientView)
    requires
        pings_match(ps, cs),
        p.endpoint == c.endpoint,
        is_message_frame(p.frame, ping_message(c.server_id), c.server_key),
    ensures
        pings_match(ps.push(p), cs.push(c)),
{
    assert forall|k: int| 0 <= k < ps.push(p).len() implies (#[trigger] ps.push(p)[k]).endpoint
        == cs.push(c)[k].endpoint && is_message_frame(
        ps.push(p)[k].frame,
        ping_message(cs.push(c)[k].server_id),
        cs.push(c)[k].server_key,
    ) by {
        if k < ps.len() {
            assert(ps.push(p)[k] == ps[k]);
            assert(cs.push(c)[k] == cs[k]);
            assert(ps[k].endpoint == cs[k].endpoint);
        } else {
            assert(ps.push(p)[k] == p);
            assert(cs.push(c)[k] == c);
        }
    }
}

/// What a liveness sweep asks of the transport.
pub struct AliveOutcome {
    /// Resources of the clients that were dropped; close them.
    pub to_close: Vec<u64>,
    /// Encrypted ping frames for the clients whose ping was due.
    pub pings: Vec<PingOut>,
}

impl ClientManager {
    /// An empty manager.
    pub fn new() -> (r: ClientManager)
        ensures
            r@ == Seq::<ClientView>::empty(),
            pairwise_ok(r@),
    {
        let r = ClientManager { clients: Vec::new() };
        proof {
            assert(r@ =~= Seq::<ClientView>::empty());
        }
        r
    }

    /// The position of the client on `endpoint`, if any.
    pub fn index_of_endpoint(&self, endpoint: u64) -> (r: Option<usize>)
        ensures
            match r {
                Some(i) => i < self@.len() && self@[i as int].endpoint == endpoint,
                None => forall|i: int| 0 <= i < self@.len() ==> self@[i].endpoint != endpoint,
            },
    {
        let n = self.clients.len();
        for i in 0..n
            invariant
                n == self.clients.len(),
                forall|k: int| 0 <= k < i ==> self@[k].endpoint != endpoint,
        {
            if self.clients[i].endpoint == endpoint {
                return Some(i);
            }
        }
        None
    }

    /// The position of the client identified as `server_id`, if any.
    pub fn index_of_server_id(&self, server_id: &[u8]) -> (r: Option<usize>)
        ensures
            match r {
                Some(i) => i < self@.len() && self@[i as int].server_id == server_id@,
                None => forall|i: int| 0 <= i < self@.len() ==> self@[i].server_id != server_id@,
            },
    {
        let n = self.clients.len();
        for i in 0..n
            invariant
                n == self.clients.len(),
                forall|k: int| 0 <= k < i ==> self@[k].server_id != server_id@,
        {
            if bytes_eq(self.clients[i].server_id.as_slice(), server_id) {
                return Some(i);
            }
        }
        None
    }

    /// The client on `endpoint`.
    pub fn get(&self, endpoint: u64) -> (r: Option<&Client>)
        ensures
            match r {
                Some(c) => exists|i: int|
                    0 <= i < self@.len() && self@[i] == c@ && c@.endpoint == endpoint,
                None => forall|i: int| 0 <= i < self@.len() ==> self@[i].endpoint != endpoint,
            },
    {
        match self.index_of_endpoint(endpoint) {
            Some(i) => Some(&self.clients[i]),
            None => None,
        }
    }

    /// The client identified as `server_id`.
    pub fn get_by_id(&self, server_id: &[u8]) -> (r: Option<&Client>)
        ensures
            match r {
                Some(c) => exists|i: int|
                    0 <= i < self@.len() && self@[i] == c@ && c@.server_id == server_id@,
                None => forall|i: int| 0 <= i < self@.len() ==> self@[i].server_id != server_id@,
            },
    {
        match self.index_of_server_id(server_id) {
            Some(i) => Some(&self.clients[i]),
            None => None,
        }
    }

    /// Admits a lobby client on a fresh endpoint.
    pub fn add(&mut self, endpoint: u64, resource_id: u64, now: u64)
        requires
            pairwise_ok(old(self)@),
            forall|i: int| 0 <= i < old(self)@.len() ==> old(self)@[i].endpoint != endpoint,
        ensures
            final(self)@ == old(self)@.push(ClientView {
                endpoint,
                resource_id,
                server_id: Seq::<u8>::empty(),
                server_key: Seq::<u8>::empty(),
                last_checked_at: now,
                pong_received: true,
                connected: true,
            }),
            pairwise_ok(final(self)@),
    {
        let c = Client::new(endpoint, resource_id, now);
        let ghost cv = c@;
        self.clients.push(c);
        proof {
            assert(final(self)@ =~= old(self)@.push(cv));
            let s = final(self)@;
            assert forall|i: int, j: int|
                0 <= i < s.len() && 0 <= j < s.len() && i != j implies (#[trigger] s[i].endpoint
                != #[trigger] s[j].endpoint && (s[i].server_id.len() == 0 || s[i].server_id
                != s[j].server_id)) by {
                if i < s.len() - 1 && j < s.len() - 1 {
                    assert(old(self)@[i].endpoint != old(self)@[j].endpoint);
                }
            }
        }
    }

    /// Evicts the client on `endpoint` and hands it back.
    pub fn remove(&mut self, endpoint: u64) -> (r: Option<Client>)
        requires
            pairwise_ok(old(self)@),
        ensures
            pairwise_ok(final(self)@),
            match r {
                Some(c) => c@.endpoint == endpoint && exists|i: int|
                    0 <= i < old(self)@.len() && old(self)@[i] == c@ && final(self)@ == old(
                        self,
                    )@.remove(i),
                None => final(self)@ == old(self)@ && forall|i: int|
                    0 <= i < old(self)@.len() ==> old(self)@[i].endpoint != endpoint,
            },
    {
        match self.index_of_endpoint(endpoint) {
            None => None,
            Some(i) => {
                let c = self.clients.remove(i);
                proof {
                    assert(final(self)@ =~= old(self)@.remove(i as int));
                    lemma_remove_pairwise(old(self)@, i as int);
                }
                Some(c)
            }
        }
    }

    /// The client at `i`.
    pub fn at(&self, i: usize) -> (r: &Client)
        requires
            i < self@.len(),
        ensures
            r@ == self@[i as int],
    {
        &self.clients[i]
    }

    /// Takes the client at `i` out; pair with [`Self::insert_at`].
    pub fn take_at(&mut self, i: usize) -> (r: Client)
        requires
            i < old(self)@.len(),
        ensures
            r@ == old(self)@[i as int],
            final(self)@ == old(self)@.remove(i as int),
    {
        let c = self.clients.remove(i);
        proof {
            assert(final(self)@ =~= old(self)@.remove(i as int));
        }
        c
    }

    /// Puts a client back at `i`, shifting the tail right.
    pub fn insert_at(&mut self, i: usize, c: Client)
        requires
            i <= old(self)@.len(),
        ensures
            final(self)@ == old(self)@.insert(i as int, c@),
    {
        self.clients.insert(i, c);
        proof {
            assert(final(self)@ =~= old(self)@.insert(i as int, c@));
        }
    }

    /// Closes the book: every client leaves, and their transport resources
    /// are handed back for closing.
    pub fn disconnect_all(&mut self) -> (r: Vec<u64>)
        ensures
            final(self)@ == Seq::<ClientView>::empty(),
            r@.len() == old(self)@.len(),
            forall|i: int| 0 <= i < r@.len() ==> r@[i] == old(self)@[i].resource_id,
    {
        let mut r: Vec<u64> = Vec::new();
        let n = self.clients.len();
        for i in 0..n
            invariant
                n == self.clients.len(),
                self@ == old(self)@,
                r@.len() == i,
                forall|k: int| 0 <= k < i ==> r@[k] == self@[k].resource_id,
        {
            r.push(self.clients[i].resource_id);
        }
        self.clients.clear();
        proof {
            assert(final(self)@ =~= Seq::<ClientView>::empty());
        }
        r
    }

    /// The liveness sweep: drops clients that disconnected or timed out
    /// (handing back their resources) and pings the quiet ones, whose pong
    /// latch is cleared.
    pub fn alive_check(&mut self, now: u64) -> (r: AliveOutcome)
        requires
            pairwise_ok(old(self)@),
        ensures
            final(self)@ == sweep(old(self)@, now),
            pairwise_ok(final(self)@),
            r.to_close@ == swept_ids(old(self)@, now),
            pings_match(ping_views(r.pings@), pinged(old(self)@, now)),
    {
        let ghost orig = old(self)@;
        let mut out: Vec<Client> = Vec::new();
        let mut to_close: Vec<u64> = Vec::new();
        let mut pings: Vec<PingOut> = Vec::new();
        let ghost mut done: Seq<ClientView> = Seq::empty();
        proof {
            assert(done + views_of(self.clients@) =~= orig);
            assert(views_of(out@) =~= sweep(done, now));
            assert(to_close@ =~= swept_ids(done, now));
            assert(pinged(done, now) =~= Seq::<ClientView>::empty());
            assert(ping_views(pings@) =~= Seq::<PingOutView>::empty());
        }
        while self.clients.len() > 0
            invariant
                orig == done + views_of(self.clients@),
                views_of(out@) == sweep(done, now),
                to_close@ == swept_ids(done, now),
                pings_match(ping_views(pings@), pinged(done, now)),
            decreases self.clients@.len(),
        {
            let ghost pre_clients = self.clients@;
            let mut c = self.clients.remove(0);
            let ghost cv = c@;
            let ghost pre_done = done;
            proof {
                done = done + seq![cv];
                assert(views_of(pre_clients) =~= seq![cv] + views_of(self.clients@));
                assert(orig =~= done + views_of(self.clients@));
                lemma_sweep_append(pre_done, seq![cv], now);
                lemma_sweep_singleton(cv, now);
            }
            let expired = !c.connected || (now > c.last_checked_at && now - c.last_checked_at
                > DISCONNECT_AFTER_MS);
            if expired {
                proof {
                    assert(!keeps(cv, now));
                    assert(views_of(out@) =~= sweep(done, now));
                    assert(to_close@.push(cv.resource_id) =~= swept_ids(done, now));
                    assert(pinged(done, now) =~= pinged(pre_done, now));
                }
                to_close.push(c.resource_id);
            } else {
                proof {
                    assert(keeps(cv, now));
                }
                let due = c.pong_received && now > c.last_checked_at && now - c.last_checked_at
                    > PING_AFTER_MS;
                if due {
                    proof {
                        assert(wants_ping(cv, now));
                    }
                    match c.ping() {
                        Ok(frame) => {
                            proof {
                                assert(ping_ok(cv));
                                assert(pinged(done, now) =~= pinged(pre_done, now).push(cv));
                            }
                            let ghost pre_pings = pings@;
                            let p = PingOut { endpoint: c.endpoint, frame };
                            let ghost pv = p@;
                            pings.push(p);
                            proof {
                                lemma_pings_match_push(
                                    ping_views(pre_pings),
                                    pinged(pre_done, now),
                                    pv,
                                    cv,
                                );
                                assert(ping_views(pings@) =~= ping_views(pre_pings).push(pv));
                            }
                        }
                        Err(_) => {
                            proof {
                                assert(!ping_ok(cv));
                                assert(pinged(done, now) =~= pinged(pre_done, now));
                            }
                        }
                    }
                    proof {
                        assert(c@ == pinged_client(cv));
                        assert(sweep(done, now) =~= sweep(pre_done, now).push(pinged_client(cv)));
                    }
                } else {
                    proof {
                        assert(!wants_ping(cv, now));
                        assert(c@ == cv);
                        assert(sweep(done, now) =~= sweep(pre_done, now).push(cv));
                        assert(pinged(done, now) =~= pinged(pre_done, now));
                    }
                }
                let ghost out_pre = out@;
                out.push(c);
                proof {
                    assert(views_of(out@) =~= views_of(out_pre).push(out@[out@.len() - 1]@));
                    assert(views_of(out@) =~= sweep(done, now));
                }
            }
        }
        proof {
            assert(views_of(self.clients@) =~= Seq::<ClientView>::empty());
            assert(done =~= orig);
        }
        self.clients = out;
        proof {
            lemma_sweep_pairwise(orig, now);
        }
        AliveOutcome { to_close, pings }
    }
}

pub(crate) proof fn lemma_remove_pairwise(s: Seq<ClientView>, at: int)
    requires
        pairwise_ok(s),
        0 <= at < s.len(),
    ensures
        pairwise_ok(s.remove(at)),
{
    let t = s.remove(at);
    assert forall|i: int, j: int|
        0 <= i < t.len() && 0 <= j < t.len() && i != j implies (#[trigger] t[i].endpoint
        != #[trigger] t[j].endpoint && (t[i].server_id.len() == 0 || t[i].server_id
        != t[j].server_id)) by {
        let si = if i < at {
            i
        } else {
            i + 1
        };
        let sj = if j < at {
            j
        } else {
            j + 1
        };
        assert(t[i] == s[si]);
        assert(t[j] == s[sj]);
        assert(s[si].endpoint != s[sj].endpoint);
    }
}

/// At most one connected client per server id: whenever both indices are
/// injective, two positions holding the same non-empty identity are the
/// same position — so after any sequence of accepts and identifications,
/// a lookup by server id can name at most one client.
pub proof fn lemma_at_most_one_per_server_id(s: Seq<ClientView>, i: int, j: int)
    requires
        pairwise_ok(s),
        0 <= i < s.len(),
        0 <= j < s.len(),
        s[i].server_id.len() > 0,
        s[i].server_id == s[j].server_id,
    ensures
        i == j,
{
    if i != j {
        assert(s[i].endpoint != s[j].endpoint);
    }
}

/// Byte-for-byte equality of two slices.
pub fn bytes_eq(a: &[u8], b: &[u8]) -> (r: bool)
    ensures
        r == (a@ == b@),
{
    if a.len() != b.len() {
        proof {
            assert(a@ != b@);
        }
        return false;
    }
    let n = a.len();
    for i in 0..n
        invariant
            n == a@.len() && n == b@.len(),
            forall|k: int| 0 <= k < i ==> a@[k] == b@[k],
    {
        if *vstd::slice::slice_index_get(a, i) != *vstd::slice::slice_index_get(b, i) {
            proof {
                assert(a@[i as int] != b@[i as int]);
            }
            return false;
        }
    }
    proof {
        assert(a@ =~= b@);
    }
    true
}

} // verus!
