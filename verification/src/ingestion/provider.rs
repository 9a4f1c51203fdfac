use crate::util::LastSeen;
use vstd::prelude::*;

verus! {

/// Whether a provider is delivering items.
#[derive(Debug, Clone, Copy, PartialEq, Eq, Structural)]
pub enum ProviderStatus {
    Running,
    Stopped,
}

/// What is known of one provider: its name, whether it is running, and the
/// last item it delivered.
#[derive(Debug, Clone, PartialEq, Eq)]
pub struct ProviderState<T> {
    pub name: String,
    pub status: ProviderStatus,
    pub last_seen: Option<LastSeen<T>>,
}

/// What a provider's stream yields when polled.
pub enum StreamEvent<T> {
    /// The stream produced an item.
    Item(T),
    /// The stream produced an error.
    Failure,
    /// The stream is exhausted.
    End,
}

/// What the provider's driver does after a stream event.
pub enum ProviderAction<T> {
    /// Send this item on, then record it with `ProviderState::record_sent`.
    Forward(T),
    /// Skip the stream's error and keep reading: errors are transient.
    Continue,
    /// Stop reading the stream: it is exhausted.
    Finish,
}

impl<T> ProviderState<T> {
    /// A provider that has not delivered anything yet: stopped, nothing seen.
    pub fn new(name: String) -> (r: ProviderState<T>)
        ensures
            r.name == name,
            r.status == ProviderStatus::Stopped,
            r.last_seen is None,
    {
        ProviderState { name, status: ProviderStatus::Stopped, last_seen: None }
    }

    /// Reacts to one event of the provider's stream: an item marks the
    /// provider running and is forwarded; an error marks it stopped, and the
    /// stream is read on (a later item marks it running again); only the end
    /// of the stream ends the run, and it changes nothing.
    pub fn observe(&mut self, event: StreamEvent<T>) -> (r: ProviderAction<T>)
        ensures
            final(self).name == old(self).name,
            final(self).last_seen == old(self).last_seen,
            match event {
                StreamEvent::Item(v) => {
                    &&& final(self).status == ProviderStatus::Running
                    &&& r == ProviderAction::Forward(v)
                },
                StreamEvent::Failure => {
                    &&& final(self).status == ProviderStatus::Stopped
                    &&& r is Continue
                },
                StreamEvent::End => {
                    &&& final(self).status == old(self).status
                    &&& r is Finish
                },
            },
    {
        match event {
            StreamEvent::Item(v) => {
                self.status = ProviderStatus::Running;
                ProviderAction::Forward(v)
            },
            StreamEvent::Failure => {
                self.status = ProviderStatus::Stopped;
                ProviderAction::Continue
            },
            StreamEvent::End => ProviderAction::Finish,
        }
    }

    /// Records that `value` was sent on at `timestamp` (milliseconds since
    /// the Unix epoch): it becomes the last item seen.
    pub fn record_sent(&mut self, value: T, timestamp: u128)
        ensures
            final(self).name == old(self).name,
            final(self).status == old(self).status,
            final(self).last_seen == Some(LastSeen { value, timestamp }),
    {
        self.last_seen = Some(LastSeen::new(value, timestamp));
    }
}

impl<T> Default for ProviderState<T> {
    /// A nameless provider that is stopped and has seen nothing.
    fn default() -> (r: ProviderState<T>)
        ensures
            r.name@ == Seq::<char>::empty(),
            r.status == ProviderStatus::Stopped,
            r.last_seen is None,
    {
        ProviderState { name: String::new(), status: ProviderStatus::Stopped, last_seen: None }
    }
}

/// The health of the provider system as a whole.
#[derive(Debug, Clone)]
pub enum ProviderSystemMonitorState {
    /// Every provider is stopped (or there are none).
    AllProvidersStopped,
    /// Some providers are behind the most advanced one, or stopped.
    ProblemProviders { lagging: Vec<String>, stopped: Vec<String> },
    /// Every provider runs and none is behind.
    ProvidersOk,
}

/// The greatest value last seen by any of the providers, if any has seen one.
pub open spec fn max_last_seen(states: Seq<ProviderState<u64>>) -> Option<u64>
    decreases states.len(),
{
    if states.len() == 0 {
        None
    } else {
        let before = max_last_seen(states.drop_last());
        match states.last().last_seen {
            Some(seen) => match before {
                Some(m) => Some(if m < seen.value { seen.value } else { m }),
                None => Some(seen.value),
            },
            None => before,
        }
    }
}

/// The names, in order, of the providers whose last seen value is below `max`.
pub open spec fn names_below(states: Seq<ProviderState<u64>>, max: u64) -> Seq<Seq<char>>
    decreases states.len(),
{
    if states.len() == 0 {
        Seq::empty()
    } else {
        let before = names_below(states.drop_last(), max);
        match states.last().last_seen {
            Some(seen) => if seen.value < max {
                before.push(states.last().name@)
            } else {
                before
            },
            None => before,
        }
    }
}

/// The names, in order, of the providers that lag behind the most advanced one.
pub open spec fn lagging_names(states: Seq<ProviderState<u64>>) -> Seq<Seq<char>> {
    match max_last_seen(states) {
        Some(m) => names_below(states, m),
        None => Seq::empty(),
    }
}

/// The names, in order, of the stopped providers.
pub open spec fn stopped_names(states: Seq<ProviderState<u64>>) -> Seq<Seq<char>>
    decreases states.len(),
{
    if states.len() == 0 {
        Seq::empty()
    } else {
        let before = stopped_names(states.drop_last());
        if states.last().status == ProviderStatus::Stopped {
            before.push(states.last().name@)
        } else {
            before
        }
    }
}

/// The text of each name.
pub open spec fn name_texts(names: Seq<String>) -> Seq<Seq<char>> {
    names.map_values(|n: String| n@)
}

/// Whether `report` is the monitor's verdict on `states`: all stopped when
/// every provider is stopped; otherwise the lagging and the stopped ones when
/// there are any; otherwise all well.
pub open spec fn report_matches(report: ProviderSystemMonitorState, states: Seq<ProviderState<u64>>) -> bool {
    let all_stopped = stopped_names(states).len() == states.len();
    match report {
        ProviderSystemMonitorState::AllProvidersStopped => all_stopped,
        ProviderSystemMonitorState::ProblemProviders { lagging, stopped } => {
            &&& !all_stopped
            &&& lagging_names(states).len() > 0 || stopped_names(states).len() > 0
            &&& name_texts(lagging@) == lagging_names(states)
            &&& name_texts(stopped@) == stopped_names(states)
        },
        ProviderSystemMonitorState::ProvidersOk => {
            &&& !all_stopped
            &&& lagging_names(states).len() == 0
            &&& stopped_names(states).len() == 0
        },
    }
}

/// Watches the providers and keeps the latest verdict on them.
pub struct ProviderSystemMonitor {
    pub state: ProviderSystemMonitorState,
}

impl ProviderSystemMonitor {
    /// A monitor that has not looked yet: it reports all providers stopped.
    pub fn new() -> (r: ProviderSystemMonitor)
        ensures
            r.state is AllProvidersStopped,
    {
        ProviderSystemMonitor { state: ProviderSystemMonitorState::AllProvidersStopped }
    }

    /// The verdict on a snapshot of the providers' states.
    pub fn assess(states: &Vec<ProviderState<u64>>) -> (r: ProviderSystemMonitorState)
        ensures
            report_matches(r, states@),
    {
        let n = states.len();
        let mut max: Option<u64> = None;
        let mut i: usize = 0;
        while i < n
            invariant
                i <= n,
                n == states@.len(),
                max == max_last_seen(states@.take(i as int)),
            decreases n - i,
        {
            assert(states@.take(i + 1).drop_last() == states@.take(i as int));
            match &states[i].last_seen {
                Some(seen) => {
                    max = match max {
                        Some(m) => Some(if m < seen.value { seen.value } else { m }),
                        None => Some(seen.value),
                    };
                },
                None => {},
            }
            i = i + 1;
        }
        assert(states@.take(n as int) == states@);

        let mut lagging: Vec<String> = Vec::new();
        if let Some(m) = max {
            let mut i: usize = 0;
            while i < n
                invariant
                    i <= n,
                    n == states@.len(),
                    name_texts(lagging@) == names_below(states@.take(i as int), m),
                decreases n - i,
            {
                assert(states@.take(i + 1).drop_last() == states@.take(i as int));
                match &states[i].last_seen {
                    Some(seen) => {
                        if seen.value < m {
                            lagging.push(states[i].name.clone());
                        }
                    },
                    None => {},
                }
                i = i + 1;
            }
        }
        assert(name_texts(lagging@) == lagging_names(states@));

        let mut stopped: Vec<String> = Vec::new();
        let mut i: usize = 0;
        while i < n
            invariant
                i <= n,
                n == states@.len(),
                name_texts(stopped@) == stopped_names(states@.take(i as int)),
            decreases n - i,
        {
            assert(states@.take(i + 1).drop_last() == states@.take(i as int));
            if states[i].status == ProviderStatus::Stopped {
                stopped.push(states[i].name.clone());
            }
            i = i + 1;
        }

        if stopped.len() == n {
            ProviderSystemMonitorState::AllProvidersStopped
        } else if lagging.len() > 0 || stopped.len() > 0 {
            ProviderSystemMonitorState::ProblemProviders { lagging, stopped }
        } else {
            ProviderSystemMonitorState::ProvidersOk
        }
    }

    /// Looks at a snapshot of the providers' states, keeps the verdict, and
    /// returns the same verdict to be sent on.
    pub fn update(&mut self, states: &Vec<ProviderState<u64>>) -> (r: ProviderSystemMonitorState)
        ensures
            report_matches(r, states@),
            report_matches(final(self).state, states@),
            same_verdict(final(self).state, r),
    {
        let r = ProviderSystemMonitor::assess(states);
        self.state = copy_verdict(&r);
        r
    }
}

/// Two verdicts of the same kind naming the same providers.
pub open spec fn same_verdict(a: ProviderSystemMonitorState, b: ProviderSystemMonitorState) -> bool {
    match (a, b) {
        (ProviderSystemMonitorState::AllProvidersStopped, ProviderSystemMonitorState::AllProvidersStopped) => true,
        (ProviderSystemMonitorState::ProvidersOk, ProviderSystemMonitorState::ProvidersOk) => true,
        (
            ProviderSystemMonitorState::ProblemProviders { lagging: l1, stopped: s1 },
            ProviderSystemMonitorState::ProblemProviders { lagging: l2, stopped: s2 },
        ) => name_texts(l1@) == name_texts(l2@) && name_texts(s1@) == name_texts(s2@),
        _ => false,
    }
}

fn copy_names(names: &Vec<String>) -> (r: Vec<String>)
    ensures
        name_texts(r@) == name_texts(names@),
{
    let mut r: Vec<String> = Vec::new();
    let mut i: usize = 0;
    while i < names.len()
        invariant
            i <= names@.len(),
            name_texts(r@) == name_texts(names@.take(i as int)),
        decreases names@.len() - i,
    {
        let ghost before = r@;
        assert(names@.take(i + 1) == names@.take(i as int).push(names@[i as int]));
        let name = names[i].clone();
        r.push(name);
        assert(r@ == before.push(name));
        assert(name_texts(r@) =~= name_texts(before).push(name@));
        assert(name_texts(names@.take(i + 1)) =~= name_texts(names@.take(i as int)).push(names@[i as int]@));
        i = i + 1;
    }
    assert(names@.take(names@.len() as int) == names@);
    r
}

fn copy_verdict(v: &ProviderSystemMonitorState) -> (r: ProviderSystemMonitorState)
    ensures
        same_verdict(r, *v),
{
    match v {
        ProviderSystemMonitorState::AllProvidersStopped => ProviderSystemMonitorState::AllProvidersStopped,
        ProviderSystemMonitorState::ProblemProviders { lagging, stopped } => {
            ProviderSystemMonitorState::ProblemProviders { lagging: copy_names(lagging), stopped: copy_names(stopped) }
        },
        ProviderSystemMonitorState::ProvidersOk => ProviderSystemMonitorState::ProvidersOk,
    }
}

/// Whether provider `p` is stopped.
pub open spec fn is_stopped() -> spec_fn(ProviderState<u64>) -> bool {
    |p: ProviderState<u64>| p.status == ProviderStatus::Stopped
}

/// Whether provider `p` has last seen a value below that of some provider in
/// `states`.
pub open spec fn lags_behind(states: Seq<ProviderState<u64>>) -> spec_fn(ProviderState<u64>) -> bool {
    |p: ProviderState<u64>|
        p.last_seen is Some && exists|j: int|
            0 <= j < states.len() && (#[trigger] states[j]).last_seen is Some
                && p.last_seen->0.value < states[j].last_seen->0.value
}

/// A provider's name as text.
pub open spec fn name_text() -> spec_fn(ProviderState<u64>) -> Seq<char> {
    |p: ProviderState<u64>| p.name@
}

proof fn lemma_stopped_names(states: Seq<ProviderState<u64>>)
    ensures
        stopped_names(states) == states.filter(is_stopped()).map_values(name_text()),
    decreases states.len(),
{
    reveal(Seq::filter);
    if states.len() > 0 {
        lemma_stopped_names(states.drop_last());
        let f = states.drop_last().filter(is_stopped());
        if is_stopped()(states.last()) {
            assert(f.push(states.last()).map_values(name_text()) =~= f.map_values(name_text()).push(states.last().name@));
        }
    }
}

proof fn lemma_names_below(states: Seq<ProviderState<u64>>, m: u64)
    ensures
        names_below(states, m) == states.filter(
            |p: ProviderState<u64>| p.last_seen matches Some(s) && s.value < m,
        ).map_values(name_text()),
    decreases states.len(),
{
    reveal(Seq::filter);
    let below = |p: ProviderState<u64>| p.last_seen matches Some(s) && s.value < m;
    if states.len() > 0 {
        lemma_names_below(states.drop_last(), m);
        let f = states.drop_last().filter(below);
        if below(states.last()) {
            assert(f.push(states.last()).map_values(name_text()) =~= f.map_values(name_text()).push(states.last().name@));
        }
    }
}

proof fn lemma_max_last_seen(states: Seq<ProviderState<u64>>)
    ensures
        max_last_seen(states) is None <==> forall|i: int| 0 <= i < states.len() ==> (#[trigger] states[i]).last_seen is None,
        max_last_seen(states) matches Some(m) ==> {
            &&& exists|j: int| 0 <= j < states.len() && (#[trigger] states[j]).last_seen is Some && states[j].last_seen->0.value == m
            &&& forall|i: int| 0 <= i < states.len() ==> ((#[trigger] states[i]).last_seen matches Some(s) ==> s.value <= m)
        },
    decreases states.len(),
{
    if states.len() > 0 {
        let front = states.drop_last();
        lemma_max_last_seen(front);
        let n = states.len() - 1;
        assert(states.last() == states[n]);
        assert forall|i: int| 0 <= i < front.len() implies front[i] == states[i] by {}
        if let Some(m) = max_last_seen(front) {
            let j = choose|j: int| 0 <= j < front.len() && (#[trigger] front[j]).last_seen is Some && front[j].last_seen->0.value == m;
            assert(states[j] == front[j]);
        }
        if max_last_seen(states) is None {
            assert forall|i: int| 0 <= i < states.len() implies (#[trigger] states[i]).last_seen is None by {
                if i < n {
                    assert(front[i] == states[i]);
                }
            }
        }
        if let Some(m) = max_last_seen(states) {
            assert forall|i: int| 0 <= i < states.len() implies ((#[trigger] states[i]).last_seen matches Some(s) ==> s.value <= m) by {
                if i < n {
                    assert(front[i] == states[i]);
                }
            }
        }
    }
}

proof fn lemma_filter_agree<A>(s: Seq<A>, p: spec_fn(A) -> bool, q: spec_fn(A) -> bool)
    requires
        forall|i: int| 0 <= i < s.len() ==> p(#[trigger] s[i]) == q(s[i]),
    ensures
        s.filter(p) == s.filter(q),
    decreases s.len(),
{
    reveal(Seq::filter);
    if s.len() > 0 {
        let front = s.drop_last();
        assert forall|i: int| 0 <= i < front.len() implies p(#[trigger] front[i]) == q(front[i]) by {
            assert(front[i] == s[i]);
        }
        lemma_filter_agree(front, p, q);
        assert(p(s[s.len() - 1]) == q(s[s.len() - 1]));
    }
}

proof fn lemma_filter_empty<A>(s: Seq<A>, p: spec_fn(A) -> bool)
    ensures
        s.filter(p).len() == 0 <==> forall|i: int| 0 <= i < s.len() ==> !p(#[trigger] s[i]),
        s.filter(p).len() == s.len() <==> forall|i: int| 0 <= i < s.len() ==> p(#[trigger] s[i]),
    decreases s.len(),
{
    reveal(Seq::filter);
    if s.len() > 0 {
        let front = s.drop_last();
        lemma_filter_empty(front, p);
        s.drop_last().lemma_filter_len(p);
        assert forall|i: int| 0 <= i < front.len() implies front[i] == s[i] by {}
        let n = s.len() - 1;
        assert(s.last() == s[n]);
        if forall|i: int| 0 <= i < s.len() ==> !p(#[trigger] s[i]) {
            assert forall|i: int| 0 <= i < front.len() implies !p(#[trigger] front[i]) by {
                assert(!p(s[i]));
            }
        }
        if forall|i: int| 0 <= i < s.len() ==> p(#[trigger] s[i]) {
            assert forall|i: int| 0 <= i < front.len() implies p(#[trigger] front[i]) by {
                assert(p(s[i]));
            }
        }
        if s.filter(p).len() == 0 {
            assert forall|i: int| 0 <= i < s.len() implies !p(#[trigger] s[i]) by {
                if i < n {
                    assert(front[i] == s[i]);
                }
            }
        }
        if s.filter(p).len() == s.len() {
            assert(front.filter(p).len() == front.len());
            assert forall|i: int| 0 <= i < s.len() implies p(#[trigger] s[i]) by {
                if i < n {
                    assert(front[i] == s[i]);
                }
            }
        }
    }
}

/// The monitor's verdict in terms of the providers themselves: all stopped
/// exactly when every provider is stopped; all well exactly when there are
/// providers, all running, none behind another; otherwise the lagging list
/// names, in order, every provider whose last seen value is below another
/// provider's (whatever either's status), and the stopped list names, in
/// order, every stopped provider. In particular it is never all well while
/// a provider is stopped.
pub proof fn law_verdict_follows_states(states: Seq<ProviderState<u64>>, report: ProviderSystemMonitorState)
    requires
        report_matches(report, states),
    ensures
        report is AllProvidersStopped <==> forall|i: int| 0 <= i < states.len() ==> (#[trigger] states[i]).status == ProviderStatus::Stopped,
        report is ProvidersOk <==> {
            &&& states.len() > 0
            &&& forall|i: int| 0 <= i < states.len() ==> (#[trigger] states[i]).status == ProviderStatus::Running
            &&& forall|i: int| 0 <= i < states.len() ==> !lags_behind(states)(#[trigger] states[i])
        },
        report matches ProviderSystemMonitorState::ProblemProviders { lagging, stopped } ==> {
            &&& name_texts(lagging@) == states.filter(lags_behind(states)).map_values(name_text())
            &&& name_texts(stopped@) == states.filter(is_stopped()).map_values(name_text())
        },
        (exists|i: int| 0 <= i < states.len() && (#[trigger] states[i]).status == ProviderStatus::Stopped)
            && (exists|j: int| 0 <= j < states.len() && (#[trigger] states[j]).status == ProviderStatus::Running)
            ==> report is ProblemProviders,
{
    lemma_stopped_names(states);
    lemma_filter_empty(states, is_stopped());
    lemma_filter_empty(states, lags_behind(states));
    lemma_max_last_seen(states);
    // the lagging names are the providers behind another one
    match max_last_seen(states) {
        Some(m) => {
            let below = |p: ProviderState<u64>| p.last_seen matches Some(s) && s.value < m;
            lemma_names_below(states, m);
            assert forall|i: int| 0 <= i < states.len() implies below(#[trigger] states[i]) == lags_behind(states)(states[i]) by {
                if lags_behind(states)(states[i]) {
                    let s = states[i].last_seen.unwrap();
                    let j = choose|j: int| 0 <= j < states.len() && (#[trigger] states[j]).last_seen is Some && s.value < states[j].last_seen->0.value;
                    assert(states[j].last_seen->0.value <= m);
                }
                if below(states[i]) {
                    let j = choose|j: int| 0 <= j < states.len() && (#[trigger] states[j]).last_seen is Some && states[j].last_seen->0.value == m;
                    assert(lags_behind(states)(states[i]));
                }
            }
            lemma_filter_agree(states, below, lags_behind(states));
        },
        None => {
            assert forall|i: int| 0 <= i < states.len() implies !lags_behind(states)(#[trigger] states[i]) by {
                assert(states[i].last_seen is None);
            }
        },
    }
    assert(lagging_names(states) == states.filter(lags_behind(states)).map_values(name_text()));
    assert(forall|i: int| 0 <= i < states.len() ==> (#[trigger] states[i]).status == ProviderStatus::Stopped
        || states[i].status == ProviderStatus::Running);
    if report is ProvidersOk {
        assert forall|i: int| 0 <= i < states.len() implies (#[trigger] states[i]).status == ProviderStatus::Running by {
            assert(!is_stopped()(states[i]));
        }
    }
    if (exists|i: int| 0 <= i < states.len() && (#[trigger] states[i]).status == ProviderStatus::Stopped)
        && (exists|j: int| 0 <= j < states.len() && (#[trigger] states[j]).status == ProviderStatus::Running) {
        let i = choose|i: int| 0 <= i < states.len() && (#[trigger] states[i]).status == ProviderStatus::Stopped;
        let j = choose|j: int| 0 <= j < states.len() && (#[trigger] states[j]).status == ProviderStatus::Running;
        assert(is_stopped()(states[i]));
        assert(!is_stopped()(states[j]));
    }
}

/// Two verdicts that `same_verdict` relates are of the same kind and name the
/// same providers, lagging to lagging and stopped to stopped, in order.
pub proof fn law_same_verdict_is_same_report(a: ProviderSystemMonitorState, b: ProviderSystemMonitorState)
    requires
        same_verdict(a, b),
    ensures
        a is AllProvidersStopped <==> b is AllProvidersStopped,
        a is ProvidersOk <==> b is ProvidersOk,
        a is ProblemProviders <==> b is ProblemProviders,
        a matches ProviderSystemMonitorState::ProblemProviders { lagging: l1, stopped: s1 } ==> (
            b matches ProviderSystemMonitorState::ProblemProviders { lagging: l2, stopped: s2 }
            && l1@.map_values(|n: String| n@) == l2@.map_values(|n: String| n@)
            && s1@.map_values(|n: String| n@) == s2@.map_values(|n: String| n@)
        ),
{
}

/// When every provider runs and all have last seen the same value, the
/// monitor's verdict is that all is well.
pub proof fn law_providers_in_step_are_ok(states: Seq<ProviderState<u64>>, v: u64, report: ProviderSystemMonitorState)
    requires
        states.len() > 0,
        forall|i: int| 0 <= i < states.len() ==> {
            &&& (#[trigger] states[i]).status == ProviderStatus::Running
            &&& states[i].last_seen matches Some(seen) && seen.value == v
        },
        report_matches(report, states),
    ensures
        report is ProvidersOk,
{
    law_verdict_follows_states(states, report);
    assert forall|i: int| 0 <= i < states.len() implies !lags_behind(states)(#[trigger] states[i]) by {
        assert forall|j: int| 0 <= j < states.len() implies !((#[trigger] states[j]).last_seen is Some && states[i].last_seen->0.value < states[j].last_seen->0.value) by {}
    }
}

} // verus!
