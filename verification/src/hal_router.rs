//! HAL routing over sidecar adapter plugins: the live adapters, the open
//! device sessions (at most one per adapter) and the per-adapter error log.
use vstd::prelude::*;
use crate::text::{msg_join, str_eq};
use crate::spi_bus::{reply_of, transfer, SpiTransfer};

verus! {

/// A device reported by a sidecar `probe`.
pub struct SidecarDevice {
    pub id: String,
    pub kind: String,
    pub detail: String,
}

/// The protocol client of one sidecar adapter process.
pub trait AdapterClient {
    /// Open a session on `device_id`; returns the session id.
    fn open(&mut self, device_id: &str) -> Result<String, String>;

    /// Close a session.
    fn close(&mut self, session_id: &str) -> Result<(), String>;

    /// Full-duplex SPI transaction on an open session.
    fn spi_transact(&mut self, session_id: &str, write: &[u8], read_len: usize) -> Result<Vec<u8>, String>;
}

/// `a` lists the same devices as `b`.
pub open spec fn devices_match(a: Seq<SidecarDevice>, b: Seq<SidecarDevice>) -> bool {
    a.len() == b.len() && forall|k: int| 0 <= k < a.len() ==> #[trigger] a[k].id@ == b[k].id@ && a[k].kind@ == b[k].kind@ && a[k].detail@ == b[k].detail@
}

/// A copy of a device list.
pub fn copy_devices(devs: &Vec<SidecarDevice>) -> (r: Vec<SidecarDevice>)
    ensures
        devices_match(r@, devs@),
{
    let mut copy: Vec<SidecarDevice> = Vec::new();
    let mut k: usize = 0;
    while k < devs.len()
        invariant
            k <= devs@.len(),
            copy@.len() == k,
            forall|m: int| 0 <= m < k ==> #[trigger] copy@[m].id@ == devs@[m].id@
                && copy@[m].kind@ == devs@[m].kind@ && copy@[m].detail@ == devs@[m].detail@,
        decreases devs@.len() - k,
    {
        copy.push(SidecarDevice { id: devs[k].id.clone(), kind: devs[k].kind.clone(), detail: devs[k].detail.clone() });
        k = k + 1;
    }
    copy
}

/// A spawned and probed sidecar adapter plugin.
pub struct LoadedAdapter<C: AdapterClient> {
    pub name: String,
    pub path: String,
    pub client: C,
    pub devices: Vec<SidecarDevice>,
}

/// An open session between a HAL client and an adapter device.
pub struct AdapterSession {
    pub adapter: String,
    pub device_id: String,
    pub session_id: String,
}

/// The adapter/device pair an operation is routed to.
pub struct SidecarSelection {
    pub adapter: String,
    pub device_id: String,
}

/// The router's data: adapters, sessions, error log.
struct RouterState<C: AdapterClient> {
    adapters: Vec<LoadedAdapter<C>>,
    sessions: Vec<AdapterSession>,
    errors: Vec<(String, String)>,
}

/// Runtime HAL router.
pub struct HalRouter<C: AdapterClient> {
    st: RouterState<C>,
    /// The SPI requests routed by [`HalRouter::request`]: (adapter, device, transfer).
    sent: Ghost<Seq<(Seq<char>, Seq<char>, SpiTransfer)>>,
    /// What each of those requests gave back.
    heard: Ghost<Seq<Option<Seq<u8>>>>,
}

/// The (adapter, device, session) triples of the open sessions.
pub open spec fn sessions_view(s: Seq<AdapterSession>) -> Seq<(Seq<char>, Seq<char>, Seq<char>)> {
    Seq::new(s.len(), |i: int| (s[i].adapter@, s[i].device_id@, s[i].session_id@))
}

/// The (adapter, message) pairs of an error log.
pub open spec fn errors_view(e: Seq<(String, String)>) -> Seq<(Seq<char>, Seq<char>)> {
    Seq::new(e.len(), |i: int| (e[i].0@, e[i].1@))
}

/// `after` is `before`, or `before` with one failed adapter-side close of
/// `adapter` logged.
pub open spec fn close_logged(before: Seq<(Seq<char>, Seq<char>)>, after: Seq<(Seq<char>, Seq<char>)>, adapter: Seq<char>) -> bool {
    ||| after == before
    ||| exists|e: Seq<char>| after == before.push((adapter, "close failed: "@ + e))
}

/// No adapter has two sessions.
pub open spec fn one_session_per_adapter(s: Seq<(Seq<char>, Seq<char>, Seq<char>)>) -> bool {
    forall|i: int, j: int| 0 <= i < j < s.len() ==> s[i].0 != s[j].0
}

/// Position of the session of `adapter`, if any.
pub open spec fn session_of(s: Seq<(Seq<char>, Seq<char>, Seq<char>)>, adapter: Seq<char>) -> Option<int> {
    if exists|i: int| 0 <= i < s.len() && s[i].0 == adapter {
        Some(choose|i: int| 0 <= i < s.len() && s[i].0 == adapter)
    } else {
        None
    }
}

/// `s` without the session of `adapter`.
pub open spec fn without_adapter(s: Seq<(Seq<char>, Seq<char>, Seq<char>)>, adapter: Seq<char>) -> Seq<(Seq<char>, Seq<char>, Seq<char>)> {
    match session_of(s, adapter) {
        Some(i) => s.remove(i),
        None => s,
    }
}

/// Whether `s` has a session for exactly `adapter`/`device`.
pub open spec fn has_pair(s: Seq<(Seq<char>, Seq<char>, Seq<char>)>, adapter: Seq<char>, device: Seq<char>) -> bool {
    exists|i: int| 0 <= i < s.len() && s[i].0 == adapter && s[i].1 == device
}

impl<C: AdapterClient> RouterState<C> {
    /// A router over freshly started adapters, with no session open.
    fn from_adapters(adapters: Vec<LoadedAdapter<C>>, errors: Vec<(String, String)>) -> (r: Self)
        ensures
            r.wf(),
            r.session_list().len() == 0,
            r.adapter_names() == Seq::new(adapters@.len(), |i: int| adapters@[i].name@),
    {
        assert(sessions_view(Seq::<AdapterSession>::empty()) =~= Seq::empty());
        RouterState { adapters, sessions: Vec::new(), errors }
    }

    spec fn wf(&self) -> bool {
        one_session_per_adapter(sessions_view(self.sessions@))
    }

    spec fn session_list(&self) -> Seq<(Seq<char>, Seq<char>, Seq<char>)> {
        sessions_view(self.sessions@)
    }

    spec fn error_list(&self) -> Seq<(Seq<char>, Seq<char>)> {
        errors_view(self.errors@)
    }

    spec fn adapter_names(&self) -> Seq<Seq<char>> {
        Seq::new(self.adapters@.len(), |i: int| self.adapters@[i].name@)
    }

    spec fn devices_of(&self, i: int) -> Seq<SidecarDevice> {
        self.adapters@[i].devices@
    }


    /// Index of the adapter named `name`.
    fn adapter_index(&self, name: &str) -> (r: Option<usize>)
        ensures
            match r {
                Some(i) => i < self.adapters@.len() && self.adapters@[i as int].name@ == name@,
                None => forall|j: int| 0 <= j < self.adapters@.len() ==> self.adapters@[j].name@ != name@,
            },
    {
        let mut i: usize = 0;
        while i < self.adapters.len()
            invariant
                i <= self.adapters@.len(),
                forall|j: int| 0 <= j < i ==> self.adapters@[j].name@ != name@,
            decreases self.adapters@.len() - i,
        {
            if str_eq(self.adapters[i].name.as_str(), name) {
                return Some(i);
            }
            i = i + 1;
        }
        None
    }

    /// Index of the session of `adapter` (and `device`, when given).
    fn session_index(&self, adapter: &str, device: Option<&str>) -> (r: Option<usize>)
        ensures
            match r {
                Some(i) => i < self.sessions@.len() && self.sessions@[i as int].adapter@ == adapter@
                    && (device matches Some(d) ==> self.sessions@[i as int].device_id@ == d@),
                None => forall|j: int| 0 <= j < self.sessions@.len() ==> !(self.sessions@[j].adapter@ == adapter@
                    && (device matches Some(d) ==> self.sessions@[j].device_id@ == d@)),
            },
    {
        let mut i: usize = 0;
        while i < self.sessions.len()
            invariant
                i <= self.sessions@.len(),
                forall|j: int| 0 <= j < i ==> !(self.sessions@[j].adapter@ == adapter@
                    && (device matches Some(d) ==> self.sessions@[j].device_id@ == d@)),
            decreases self.sessions@.len() - i,
        {
            let same_adapter = str_eq(self.sessions[i].adapter.as_str(), adapter);
            let same_device = match device {
                Some(d) => str_eq(self.sessions[i].device_id.as_str(), d),
                None => true,
            };
            if same_adapter && same_device {
                return Some(i);
            }
            i = i + 1;
        }
        None
    }

    /// Whether a session for `adapter`/`device_id` is open.
    fn has_session(&self, adapter: &str, device_id: &str) -> (r: bool)
        ensures
            r == has_pair(self.session_list(), adapter@, device_id@),
    {
        let r = self.session_index(adapter, Some(device_id));
        match r {
            Some(i) => {
                assert(sessions_view(self.sessions@)[i as int].0 == adapter@);
                true
            },
            None => {
                assert(!has_pair(self.session_list(), adapter@, device_id@)) by {
                    if has_pair(self.session_list(), adapter@, device_id@) {
                        let j = choose|j: int| 0 <= j < sessions_view(self.sessions@).len() && sessions_view(self.sessions@)[j].0 == adapter@ && sessions_view(self.sessions@)[j].1 == device_id@;
                        assert(self.sessions@[j].adapter@ == adapter@);
                    }
                }
                false
            },
        }
    }

    /// Remove session `i`, keeping the other sessions in order.
    fn drop_session(&mut self, i: usize) -> (s: AdapterSession)
        requires
            i < old(self).sessions@.len(),
            one_session_per_adapter(sessions_view(old(self).sessions@)),
        ensures
            final(self).session_list() == old(self).session_list().remove(i as int),
            s == old(self).sessions@[i as int],
            final(self).wf(),
            final(self).adapters@ == old(self).adapters@,
            final(self).errors@ == old(self).errors@,
    {
        let ghost before = sessions_view(self.sessions@);
        let s = self.sessions.remove(i);
        assert(sessions_view(self.sessions@) =~= before.remove(i as int));
        s
    }

    /// The adapters and the devices each reported.
    fn adapter_devices(&self) -> (r: Vec<(String, Vec<SidecarDevice>)>)
        ensures
            r@.len() == self.adapter_names().len(),
            forall|i: int| 0 <= i < r@.len() ==> #[trigger] r@[i].0@ == self.adapter_names()[i]
                && devices_match(r@[i].1@, self.devices_of(i)),
    {
        let mut out: Vec<(String, Vec<SidecarDevice>)> = Vec::new();
        let mut i: usize = 0;
        while i < self.adapters.len()
            invariant
                i <= self.adapters@.len(),
                out@.len() == i,
                forall|j: int| 0 <= j < i ==> #[trigger] out@[j].0@ == self.adapters@[j].name@
                    && devices_match(out@[j].1@, self.adapters@[j].devices@),
            decreases self.adapters@.len() - i,
        {
            let copy = copy_devices(&self.adapters[i].devices);
            let name = self.adapters[i].name.clone();
            out.push((name, copy));
            i = i + 1;
        }
        out
    }

    /// Open a session on an adapter device. Any previous session of the same
    /// adapter is closed first, so an adapter never holds two sessions.
    fn open(&mut self, adapter_name: &str, device_id: &str) -> (r: Result<String, String>)
        requires
            old(self).wf(),
        ensures
            final(self).wf(),
            r matches Ok(sid) ==> final(self).session_list() == without_adapter(old(self).session_list(), adapter_name@).push((adapter_name@, device_id@, sid@)),
            r is Err ==> final(self).session_list() == without_adapter(old(self).session_list(), adapter_name@),
            !old(self).adapter_names().contains(adapter_name@) ==> r is Err,
    {
        let ghost s0 = sessions_view(self.sessions@);
        match self.session_index(adapter_name, None) {
            Some(i) => {
                proof {
                    assert(s0[i as int].0 == adapter_name@);
                    let c = choose|k: int| 0 <= k < s0.len() && s0[k].0 == adapter_name@;
                    if c != i {
                        assert(s0[c].0 == s0[i as int].0);
                    }
                    assert(session_of(s0, adapter_name@) == Some(i as int));
                }
                let s = self.drop_session(i);
                let found = self.adapter_index(adapter_name);
                if let Some(a) = found {
                    let closed = self.adapters[a].client.close(s.session_id.as_str());
                    if let Err(e) = closed {
                        self.errors.push((String::from_str(adapter_name), msg_join("close failed: ", e.as_str())));
                    }
                }
            },
            None => {
                assert(session_of(s0, adapter_name@) is None) by {
                    if exists|k: int| 0 <= k < s0.len() && s0[k].0 == adapter_name@ {
                        let k = choose|k: int| 0 <= k < s0.len() && s0[k].0 == adapter_name@;
                        assert(self.sessions@[k].adapter@ == adapter_name@);
                    }
                }
            },
        }
        let ghost s1 = sessions_view(self.sessions@);
        assert(s1 == without_adapter(s0, adapter_name@));
        assert(self.adapter_names() =~= old(self).adapter_names());
        let a = match self.adapter_index(adapter_name) {
            Some(a) => {
                assert(self.adapter_names()[a as int] == adapter_name@);
                a
            },
            None => {
                return Err(crate::text::msg_join3("unknown adapter '", adapter_name, "'"));
            },
        };
        let session_id = self.adapters[a].client.open(device_id)?;
        let sid = session_id.clone();
        self.sessions.push(AdapterSession { adapter: String::from_str(adapter_name), device_id: String::from_str(device_id), session_id: sid });
        proof {
            assert(sessions_view(self.sessions@) =~= s1.push((adapter_name@, device_id@, session_id@)));
            assert forall|k: int| 0 <= k < s1.len() implies s1[k].0 != adapter_name@ by {
                if s1[k].0 == adapter_name@ {
                    assert(self.sessions@[k].adapter@ == adapter_name@);
                    assert(false) by {
                        lemma_without_adapter(s0, adapter_name@, k);
                    }
                }
            }
        }
        Ok(session_id)
    }

    /// Close the session of `adapter_name`/`device_id`. The adapter-side
    /// close is best effort: its failure is logged and the local session is
    /// removed anyway. Only a missing session is an error.
    fn close(&mut self, adapter_name: &str, device_id: &str) -> (r: Result<(), String>)
        requires
            old(self).wf(),
        ensures
            final(self).wf(),
            r is Ok <==> has_pair(old(self).session_list(), adapter_name@, device_id@),
            r is Ok ==> !has_pair(final(self).session_list(), adapter_name@, device_id@),
            r is Ok ==> final(self).session_list() == without_adapter(old(self).session_list(), adapter_name@),
            r is Err ==> final(self).session_list() == old(self).session_list(),
            r matches Err(e) ==> e@ == "BUSY: 会话不存在，请先 open"@,
            r is Err ==> final(self).error_list() == old(self).error_list(),
            close_logged(old(self).error_list(), final(self).error_list(), adapter_name@),
    {
        let ghost s0 = sessions_view(self.sessions@);
        let ghost e0 = errors_view(self.errors@);
        let i = match self.session_index(adapter_name, Some(device_id)) {
            Some(i) => i,
            None => {
                assert(!has_pair(s0, adapter_name@, device_id@)) by {
                    if has_pair(s0, adapter_name@, device_id@) {
                        let j = choose|j: int| 0 <= j < s0.len() && s0[j].0 == adapter_name@ && s0[j].1 == device_id@;
                        assert(self.sessions@[j].adapter@ == adapter_name@);
                    }
                }
                return Err("BUSY: 会话不存在，请先 open".to_string());
            },
        };
        proof {
            assert(s0[i as int].0 == adapter_name@ && s0[i as int].1 == device_id@);
            let c = choose|k: int| 0 <= k < s0.len() && s0[k].0 == adapter_name@;
            if c != i {
                assert(s0[c].0 == s0[i as int].0);
            }
            assert(session_of(s0, adapter_name@) == Some(i as int));
        }
        let s = self.drop_session(i);
        if let Some(a) = self.adapter_index(adapter_name) {
            let closed = self.adapters[a].client.close(s.session_id.as_str());
            if let Err(e) = closed {
                let m = msg_join("close failed: ", e.as_str());
                self.errors.push((String::from_str(adapter_name), m));
                proof {
                    assert(errors_view(self.errors@) =~= e0.push((adapter_name@, "close failed: "@ + e@)));
                }
            }
        }
        proof {
            let s1 = sessions_view(self.sessions@);
            if has_pair(s1, adapter_name@, device_id@) {
                let j = choose|j: int| 0 <= j < s1.len() && s1[j].0 == adapter_name@ && s1[j].1 == device_id@;
                lemma_without_adapter(s0, adapter_name@, j);
            }
        }
        Ok(())
    }

    /// Route an SPI transaction to the open session of `adapter_name`/`device_id`.
    fn spi_transact(&mut self, adapter_name: &str, device_id: &str, write: &[u8], read_len: usize) -> (r: Result<Vec<u8>, String>)
        requires
            old(self).wf(),
        ensures
            final(self).wf(),
            final(self).session_list() == old(self).session_list(),
            !has_pair(old(self).session_list(), adapter_name@, device_id@) ==> r is Err,
    {
        let i = match self.session_index(adapter_name, Some(device_id)) {
            Some(i) => i,
            None => {
                proof {
                    let s0 = sessions_view(self.sessions@);
                    if has_pair(s0, adapter_name@, device_id@) {
                        let j = choose|j: int| 0 <= j < s0.len() && s0[j].0 == adapter_name@ && s0[j].1 == device_id@;
                        assert(self.sessions@[j].adapter@ == adapter_name@);
                    }
                }
                return Err("BUSY: 会话不存在，请先 open".to_string());
            },
        };
        assert(sessions_view(self.sessions@)[i as int].0 == adapter_name@ && sessions_view(self.sessions@)[i as int].1 == device_id@);
        let session_id = self.sessions[i].session_id.clone();
        let a = match self.adapter_index(adapter_name) {
            Some(a) => a,
            None => {
                return Err(crate::text::msg_join3("unknown adapter '", adapter_name, "'"));
            },
        };
        self.adapters[a].client.spi_transact(session_id.as_str(), write, read_len)
    }

    /// Close every open session best effort, then drop all adapters.
    fn shutdown(&mut self)
        ensures
            final(self).wf(),
            final(self).session_list().len() == 0,
            final(self).adapter_names().len() == 0,
    {
        let mut sessions: Vec<AdapterSession> = Vec::new();
        std::mem::swap(&mut sessions, &mut self.sessions);
        let mut k: usize = 0;
        while k < sessions.len()
            invariant
                self.sessions@.len() == 0,
                one_session_per_adapter(sessions_view(self.sessions@)),
            decreases sessions@.len() - k,
        {
            if let Some(a) = self.adapter_index(sessions[k].adapter.as_str()) {
                let closed = self.adapters[a].client.close(sessions[k].session_id.as_str());
                if let Err(e) = closed {
                    self.errors.push((sessions[k].adapter.clone(), msg_join("shutdown close failed: ", e.as_str())));
                }
            }
            k = k + 1;
        }
        self.adapters.clear();
        self.sessions.clear();
    }
}

impl<C: AdapterClient> HalRouter<C> {
    #[verifier::type_invariant]
    spec fn inv(&self) -> bool {
        self.st.wf()
    }

    /// The open sessions as (adapter, device, session id).
    pub closed spec fn session_list(&self) -> Seq<(Seq<char>, Seq<char>, Seq<char>)> {
        self.st.session_list()
    }

    /// The error log as (adapter, message) pairs.
    pub closed spec fn error_list(&self) -> Seq<(Seq<char>, Seq<char>)> {
        self.st.error_list()
    }

    /// The SPI requests routed so far, as (adapter, device, transfer).
    pub closed spec fn requests(&self) -> Seq<(Seq<char>, Seq<char>, SpiTransfer)> {
        self.sent@
    }

    /// What each routed request gave back (`None` when it failed).
    pub closed spec fn answers(&self) -> Seq<Option<Seq<u8>>> {
        self.heard@
    }

    /// The names of the live adapters.
    pub closed spec fn adapter_names(&self) -> Seq<Seq<char>> {
        self.st.adapter_names()
    }

    /// The devices adapter `i` reported.
    pub closed spec fn devices_of(&self, i: int) -> Seq<SidecarDevice> {
        self.st.devices_of(i)
    }

    /// A router over freshly started adapters, with no session open.
    pub fn from_adapters(adapters: Vec<LoadedAdapter<C>>, errors: Vec<(String, String)>) -> (r: Self)
        ensures
            r.session_list().len() == 0,
            r.adapter_names() == Seq::new(adapters@.len(), |i: int| adapters@[i].name@),
            r.requests().len() == 0,
            r.answers().len() == 0,
    {
        HalRouter { st: RouterState::from_adapters(adapters, errors), sent: Ghost(Seq::empty()), heard: Ghost(Seq::empty()) }
    }

    /// The error log: (adapter, message) pairs.
    pub fn errors(&self) -> &Vec<(String, String)> {
        &self.st.errors
    }

    /// Take the state out, leaving an empty (well-formed) one.
    fn take_state(&mut self) -> (st: RouterState<C>)
        ensures
            st == old(self).st,
            st.wf(),
            final(self).sent == old(self).sent,
            final(self).heard == old(self).heard,
    {
        proof {
            use_type_invariant(&*self);
        }
        let mut st = RouterState { adapters: Vec::new(), sessions: Vec::new(), errors: Vec::new() };
        assert(sessions_view(st.sessions@) =~= Seq::empty());
        std::mem::swap(&mut st, &mut self.st);
        st
    }

    /// The adapters and the devices each reported.
    pub fn adapter_devices(&self) -> (r: Vec<(String, Vec<SidecarDevice>)>)
        ensures
            r@.len() == self.adapter_names().len(),
            forall|i: int| 0 <= i < r@.len() ==> #[trigger] r@[i].0@ == self.adapter_names()[i]
                && devices_match(r@[i].1@, self.devices_of(i)),
    {
        let r = self.st.adapter_devices();
        assert forall|i: int| 0 <= i < r@.len() implies #[trigger] r@[i].0@ == self.adapter_names()[i]
            && devices_match(r@[i].1@, self.devices_of(i)) by {
            assert(r@[i].0@ == self.st.adapter_names()[i]);
        }
        r
    }

    /// Whether a session for `adapter`/`device_id` is open.
    pub fn has_session(&self, adapter: &str, device_id: &str) -> (r: bool)
        ensures
            r == has_pair(self.session_list(), adapter@, device_id@),
    {
        self.st.has_session(adapter, device_id)
    }

    /// Open a session on an adapter device. Any previous session of the same
    /// adapter is closed first, so an adapter never holds two sessions.
    pub fn open(&mut self, adapter_name: &str, device_id: &str) -> (r: Result<String, String>)
        ensures
            one_session_per_adapter(final(self).session_list()),
            r matches Ok(sid) ==> final(self).session_list() == without_adapter(old(self).session_list(), adapter_name@).push((adapter_name@, device_id@, sid@)),
            r is Err ==> final(self).session_list() == without_adapter(old(self).session_list(), adapter_name@),
            !old(self).adapter_names().contains(adapter_name@) ==> r is Err,
            final(self).requests() == old(self).requests(),
            final(self).answers() == old(self).answers(),
    {
        let mut st = self.take_state();
        let r = st.open(adapter_name, device_id);
        self.st = st;
        r
    }

    /// Close the session of `adapter_name`/`device_id`. The adapter-side
    /// close is best effort: its failure is logged and the local session is
    /// removed anyway. Only a missing session is an error.
    pub fn close(&mut self, adapter_name: &str, device_id: &str) -> (r: Result<(), String>)
        ensures
            one_session_per_adapter(final(self).session_list()),
            r is Ok <==> has_pair(old(self).session_list(), adapter_name@, device_id@),
            r is Ok ==> !has_pair(final(self).session_list(), adapter_name@, device_id@),
            r is Ok ==> final(self).session_list() == without_adapter(old(self).session_list(), adapter_name@),
            r is Err ==> final(self).session_list() == old(self).session_list(),
            r matches Err(e) ==> e@ == "BUSY: 会话不存在，请先 open"@,
            r is Err ==> final(self).error_list() == old(self).error_list(),
            close_logged(old(self).error_list(), final(self).error_list(), adapter_name@),
            final(self).requests() == old(self).requests(),
            final(self).answers() == old(self).answers(),
    {
        let mut st = self.take_state();
        let r = st.close(adapter_name, device_id);
        self.st = st;
        r
    }

    /// Route an SPI transaction to the open session of `adapter_name`/`device_id`.
    pub fn spi_transact(&mut self, adapter_name: &str, device_id: &str, write: &[u8], read_len: usize) -> (r: Result<Vec<u8>, String>)
        ensures
            final(self).session_list() == old(self).session_list(),
            !has_pair(old(self).session_list(), adapter_name@, device_id@) ==> r is Err,
            final(self).requests() == old(self).requests(),
            final(self).answers() == old(self).answers(),
    {
        let mut st = self.take_state();
        let r = st.spi_transact(adapter_name, device_id, write, read_len);
        self.st = st;
        r
    }

    /// One SPI transaction on `adapter_name`/`device_id` in a session of its
    /// own: open the device, run the transfer, close the session again
    /// (best effort). The request and its reply are recorded whatever
    /// happened; afterwards the pair has no session.
    pub fn request(&mut self, adapter_name: &str, device_id: &str, write: &[u8], read_len: usize) -> (r: Result<Vec<u8>, String>)
        ensures
            final(self).requests() == old(self).requests().push((adapter_name@, device_id@, transfer(write@, read_len as nat))),
            final(self).answers() == old(self).answers().push(reply_of(r)),
            !has_pair(final(self).session_list(), adapter_name@, device_id@),
    {
        proof {
            use_type_invariant(&*self);
        }
        let ghost s0 = self.session_list();
        let r = match self.open(adapter_name, device_id) {
            Ok(sid) => {
                proof {
                    let s1 = self.session_list();
                    assert(s1[s1.len() - 1] == (adapter_name@, device_id@, sid@));
                    assert(has_pair(s1, adapter_name@, device_id@));
                }
                let res = self.spi_transact(adapter_name, device_id, write, read_len);
                let _ = self.close(adapter_name, device_id);
                res
            },
            Err(e) => {
                proof {
                    let s1 = self.session_list();
                    if has_pair(s1, adapter_name@, device_id@) {
                        let j = choose|j: int| 0 <= j < s1.len() && s1[j].0 == adapter_name@ && s1[j].1 == device_id@;
                        lemma_without_adapter(s0, adapter_name@, j);
                    }
                }
                Err(e)
            },
        };
        proof {
            self.sent@ = self.sent@.push((adapter_name@, device_id@, transfer(write@, read_len as nat)));
            self.heard@ = self.heard@.push(reply_of(r));
        }
        r
    }

    /// Check that `adapter_name`/`device_id` opens, and close the session
    /// again; afterwards the pair has no session.
    pub fn touch(&mut self, adapter_name: &str, device_id: &str) -> (r: Result<(), String>)
        ensures
            final(self).requests() == old(self).requests(),
            final(self).answers() == old(self).answers(),
            !has_pair(final(self).session_list(), adapter_name@, device_id@),
    {
        proof {
            use_type_invariant(&*self);
        }
        let ghost s0 = self.session_list();
        match self.open(adapter_name, device_id) {
            Ok(sid) => {
                proof {
                    let s1 = self.session_list();
                    assert(s1[s1.len() - 1] == (adapter_name@, device_id@, sid@));
                    assert(has_pair(s1, adapter_name@, device_id@));
                }
                let _ = self.close(adapter_name, device_id);
                Ok(())
            },
            Err(e) => {
                proof {
                    let s1 = self.session_list();
                    if has_pair(s1, adapter_name@, device_id@) {
                        let j = choose|j: int| 0 <= j < s1.len() && s1[j].0 == adapter_name@ && s1[j].1 == device_id@;
                        lemma_without_adapter(s0, adapter_name@, j);
                    }
                }
                Err(e)
            },
        }
    }

    /// Close every open session best effort, then drop all adapters.
    pub fn shutdown(&mut self)
        ensures
            final(self).session_list().len() == 0,
            final(self).adapter_names().len() == 0,
            final(self).requests() == old(self).requests(),
            final(self).answers() == old(self).answers(),
    {
        let mut st = self.take_state();
        st.shutdown();
        self.st = st;
    }
}

/// Removing an adapter's session leaves no session of that adapter, and
/// keeps the sessions of the others.
pub proof fn lemma_without_adapter(s: Seq<(Seq<char>, Seq<char>, Seq<char>)>, adapter: Seq<char>, k: int)
    requires
        one_session_per_adapter(s),
        0 <= k < without_adapter(s, adapter).len(),
    ensures
        without_adapter(s, adapter)[k].0 != adapter,
{
    match session_of(s, adapter) {
        Some(i) => {
            let t = s.remove(i);
            if k < i {
                assert(t[k] == s[k]);
            } else {
                assert(t[k] == s[k + 1]);
            }
        },
        None => {},
    }
}

/// After a successful `open`, the adapter has exactly one session, on the
/// opened device, and the other adapters' sessions are untouched.
pub proof fn lemma_open_single_session(s: Seq<(Seq<char>, Seq<char>, Seq<char>)>, adapter: Seq<char>, device: Seq<char>, sid: Seq<char>)
    requires
        one_session_per_adapter(s),
    ensures
        ({
            let t = without_adapter(s, adapter).push((adapter, device, sid));
            &&& one_session_per_adapter(t)
            &&& has_pair(t, adapter, device)
            &&& forall|i: int| 0 <= i < t.len() && t[i].0 == adapter ==> t[i].1 == device
            &&& forall|other: Seq<char>, d: Seq<char>| other != adapter ==> (has_pair(t, other, d) <==> has_pair(s, other, d))
        }),
{
    let w = without_adapter(s, adapter);
    let t = w.push((adapter, device, sid));
    assert forall|k: int| 0 <= k < w.len() implies w[k].0 != adapter by {
        lemma_without_adapter(s, adapter, k);
    }
    assert forall|i: int, j: int| 0 <= i < j < t.len() implies t[i].0 != t[j].0 by {
        if j == t.len() - 1 {
            assert(t[i] == w[i]);
        } else {
            match session_of(s, adapter) {
                Some(x) => {
                    let ii = if i < x { i } else { i + 1 };
                    let jj = if j < x { j } else { j + 1 };
                    assert(w[i] == s[ii]);
                    assert(w[j] == s[jj]);
                },
                None => {},
            }
        }
    }
    assert(t[t.len() - 1] == (adapter, device, sid));
    assert forall|other: Seq<char>, d: Seq<char>| other != adapter implies (has_pair(t, other, d) <==> has_pair(s, other, d)) by {
        match session_of(s, adapter) {
            Some(x) => {
                if has_pair(t, other, d) {
                    let i = choose|i: int| 0 <= i < t.len() && t[i].0 == other && t[i].1 == d;
                    let ii = if i < x { i } else { i + 1 };
                    assert(s[ii] == t[i]);
                }
                if has_pair(s, other, d) {
                    let i = choose|i: int| 0 <= i < s.len() && s[i].0 == other && s[i].1 == d;
                    assert(i != x);
                    let ii = if i < x { i } else { i - 1 };
                    assert(t[ii] == s[i]);
                }
            },
            None => {
                if has_pair(s, other, d) {
                    let i = choose|i: int| 0 <= i < s.len() && s[i].0 == other && s[i].1 == d;
                    assert(t[i] == s[i]);
                }
            },
        }
    }
}

} // verus!
