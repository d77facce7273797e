use vstd::prelude::*;

verus! {

/// A signal number.
#[derive(Debug, Clone, Copy, PartialEq, Eq, Structural, Hash)]
pub struct SignalKind(pub i32);

impl SignalKind {
    /// The signal of number `signum`.
    pub fn from_raw(signum: i32) -> (k: Self)
        ensures
            k.0 == signum,
    {
        SignalKind(signum)
    }

    /// The signal's number.
    pub fn as_raw(self) -> (r: i32)
        ensures
            r == self.0,
    {
        self.0
    }

    /// The alarm signal.
    pub fn alarm() -> (k: Self)
        ensures
            1 <= k.0 < 64,
    {
        SignalKind(sigalrm_number())
    }

    /// The child status change signal.
    pub fn child() -> (k: Self)
        ensures
            1 <= k.0 < 64,
    {
        SignalKind(sigchld_number())
    }

    /// The hang-up signal.
    pub fn hangup() -> (k: Self)
        ensures
            1 <= k.0 < 64,
    {
        SignalKind(sighup_number())
    }

    /// The interrupt signal.
    pub fn interrupt() -> (k: Self)
        ensures
            1 <= k.0 < 64,
    {
        SignalKind(sigint_number())
    }

    /// The I/O readiness signal.
    pub fn io() -> (k: Self)
        ensures
            1 <= k.0 < 64,
    {
        SignalKind(sigio_number())
    }

    /// The broken pipe signal.
    pub fn pipe() -> (k: Self)
        ensures
            1 <= k.0 < 64,
    {
        SignalKind(sigpipe_number())
    }

    /// The quit signal.
    pub fn quit() -> (k: Self)
        ensures
            1 <= k.0 < 64,
    {
        SignalKind(sigquit_number())
    }

    /// The termination signal.
    pub fn terminate() -> (k: Self)
        ensures
            1 <= k.0 < 64,
    {
        SignalKind(sigterm_number())
    }

    /// The first user-defined signal.
    pub fn user_defined1() -> (k: Self)
        ensures
            1 <= k.0 < 64,
    {
        SignalKind(sigusr1_number())
    }

    /// The second user-defined signal.
    pub fn user_defined2() -> (k: Self)
        ensures
            1 <= k.0 < 64,
    {
        SignalKind(sigusr2_number())
    }

    /// The window size change signal.
    pub fn window_change() -> (k: Self)
        ensures
            1 <= k.0 < 64,
    {
        SignalKind(sigwinch_number())
    }

    /// The continue signal.
    pub fn cont() -> (k: Self)
        ensures
            1 <= k.0 < 64,
    {
        SignalKind(sigcont_number())
    }

    /// The terminal stop signal.
    pub fn terminal_stop() -> (k: Self)
        ensures
            1 <= k.0 < 64,
    {
        SignalKind(sigtstp_number())
    }

    /// The background terminal read signal.
    pub fn tty_input() -> (k: Self)
        ensures
            1 <= k.0 < 64,
    {
        SignalKind(sigttin_number())
    }

    /// The background terminal write signal.
    pub fn tty_output() -> (k: Self)
        ensures
            1 <= k.0 < 64,
    {
        SignalKind(sigttou_number())
    }

    /// The urgent socket data signal.
    pub fn urgent() -> (k: Self)
        ensures
            1 <= k.0 < 64,
    {
        SignalKind(sigurg_number())
    }
}

/// `libc::SIGALRM`: the number of the alarm signal on this platform, which the
/// crate defines in 1..64 on every target.
#[verifier::external_body]
fn sigalrm_number() -> (r: i32)
    ensures
        1 <= r < 64,
{
    libc::SIGALRM
}

/// `libc::SIGCHLD`: the number of the child status change signal on this platform, which the
/// crate defines in 1..64 on every target.
#[verifier::external_body]
fn sigchld_number() -> (r: i32)
    ensures
        1 <= r < 64,
{
    libc::SIGCHLD
}

/// `libc::SIGHUP`: the number of the hang-up signal on this platform, which the
/// crate defines in 1..64 on every target.
#[verifier::external_body]
fn sighup_number() -> (r: i32)
    ensures
        1 <= r < 64,
{
    libc::SIGHUP
}

/// `libc::SIGINT`: the number of the interrupt signal on this platform, which the
/// crate defines in 1..64 on every target.
#[verifier::external_body]
fn sigint_number() -> (r: i32)
    ensures
        1 <= r < 64,
{
    libc::SIGINT
}

/// `libc::SIGIO`: the number of the I/O readiness signal on this platform, which the
/// crate defines in 1..64 on every target.
#[verifier::external_body]
fn sigio_number() -> (r: i32)
    ensures
        1 <= r < 64,
{
    libc::SIGIO
}

/// `libc::SIGPIPE`: the number of the broken pipe signal on this platform, which the
/// crate defines in 1..64 on every target.
#[verifier::external_body]
fn sigpipe_number() -> (r: i32)
    ensures
        1 <= r < 64,
{
    libc::SIGPIPE
}

/// `libc::SIGQUIT`: the number of the quit signal on this platform, which the
/// crate defines in 1..64 on every target.
#[verifier::external_body]
fn sigquit_number() -> (r: i32)
    ensures
        1 <= r < 64,
{
    libc::SIGQUIT
}

/// `libc::SIGTERM`: the number of the termination signal on this platform, which the
/// crate defines in 1..64 on every target.
#[verifier::external_body]
fn sigterm_number() -> (r: i32)
    ensures
        1 <= r < 64,
{
    libc::SIGTERM
}

/// `libc::SIGUSR1`: the number of the first user-defined signal on this platform, which the
/// crate defines in 1..64 on every target.
#[verifier::external_body]
fn sigusr1_number() -> (r: i32)
    ensures
        1 <= r < 64,
{
    libc::SIGUSR1
}

/// `libc::SIGUSR2`: the number of the second user-defined signal on this platform, which the
/// crate defines in 1..64 on every target.
#[verifier::external_body]
fn sigusr2_number() -> (r: i32)
    ensures
        1 <= r < 64,
{
    libc::SIGUSR2
}

/// `libc::SIGWINCH`: the number of the window size change signal on this platform, which the
/// crate defines in 1..64 on every target.
#[verifier::external_body]
fn sigwinch_number() -> (r: i32)
    ensures
        1 <= r < 64,
{
    libc::SIGWINCH
}

/// `libc::SIGCONT`: the number of the continue signal on this platform, which the
/// crate defines in 1..64 on every target.
#[verifier::external_body]
fn sigcont_number() -> (r: i32)
    ensures
        1 <= r < 64,
{
    libc::SIGCONT
}

/// `libc::SIGTSTP`: the number of the terminal stop signal on this platform, which the
/// crate defines in 1..64 on every target.
#[verifier::external_body]
fn sigtstp_number() -> (r: i32)
    ensures
        1 <= r < 64,
{
    libc::SIGTSTP
}

/// `libc::SIGTTIN`: the number of the background terminal read signal on this platform, which the
/// crate defines in 1..64 on every target.
#[verifier::external_body]
fn sigttin_number() -> (r: i32)
    ensures
        1 <= r < 64,
{
    libc::SIGTTIN
}

/// `libc::SIGTTOU`: the number of the background terminal write signal on this platform, which the
/// crate defines in 1..64 on every target.
#[verifier::external_body]
fn sigttou_number() -> (r: i32)
    ensures
        1 <= r < 64,
{
    libc::SIGTTOU
}

/// `libc::SIGURG`: the number of the urgent socket data signal on this platform, which the
/// crate defines in 1..64 on every target.
#[verifier::external_body]
fn sigurg_number() -> (r: i32)
    ensures
        1 <= r < 64,
{
    libc::SIGURG
}


/// Number of signal numbers the registry tracks (0 to 63).
pub const MAX_SIGNALS: usize = 64;

/// The delivery count of one signal number.
#[derive(Debug, Clone, Copy)]
pub struct SignalState {
    pub pending: u64,
}

impl SignalState {
    /// No delivery yet.
    pub fn new() -> (s: Self)
        ensures
            s.pending == 0,
    {
        SignalState { pending: 0 }
    }

    /// Counts one delivery (wrapping).
    pub fn notify(&mut self)
        ensures
            final(self).pending == vstd::wrapping::u64_specs::wrapping_add(old(self).pending, 1),
    {
        self.pending = self.pending.wrapping_add(1);
    }

    /// Takes a delivery the listener has not seen: when the count is past
    /// `last_seen`, the listener catches up to it and `true` is returned.
    pub fn try_recv(&self, last_seen: &mut u64) -> (r: bool)
        ensures
            r == (self.pending > *old(last_seen)),
            *final(last_seen) == if r {
                self.pending
            } else {
                *old(last_seen)
            },
    {
        let current = self.pending;
        if current > *last_seen {
            *last_seen = current;
            true
        } else {
            false
        }
    }
}

/// Delivery counts of every signal number, and a count of all deliveries.
pub struct GlobalRegistry {
    signals: Vec<SignalState>,
    generation: u64,
}

/// The registry's counters.
pub struct RegistryState {
    pub pending: Seq<u64>,
    pub generation: u64,
}

impl View for GlobalRegistry {
    type V = RegistryState;

    closed spec fn view(&self) -> RegistryState {
        RegistryState { pending: self.signals@.map_values(|s: SignalState| s.pending), generation: self.generation }
    }
}

/// The slot of a signal number: itself when it is in 0..64.
pub open spec fn signal_slot(signum: i32) -> Option<usize> {
    if 0 <= signum < MAX_SIGNALS {
        Some(signum as usize)
    } else {
        None
    }
}

impl GlobalRegistry {
    /// The registry's consistency: a counter per signal number.
    pub open spec fn wf(&self) -> bool {
        self@.pending.len() == MAX_SIGNALS
    }

    /// No delivery yet.
    pub fn new() -> (r: Self)
        ensures
            r.wf(),
            r@.pending == Seq::new(MAX_SIGNALS as nat, |i: int| 0u64),
            r@.generation == 0,
    {
        let mut signals: Vec<SignalState> = Vec::new();
        while signals.len() < MAX_SIGNALS
            invariant
                signals@.len() <= MAX_SIGNALS,
                forall|k: int| 0 <= k < signals@.len() ==> #[trigger] signals@[k].pending == 0,
            decreases MAX_SIGNALS - signals@.len(),
        {
            signals.push(SignalState::new());
        }
        let r = GlobalRegistry { signals, generation: 0 };
        proof {
            assert(r@.pending =~= Seq::new(MAX_SIGNALS as nat, |i: int| 0u64));
        }
        r
    }

    /// The state of signal `signum`, when it is tracked.
    pub fn get(&self, signum: i32) -> (r: Option<&SignalState>)
        requires
            self.wf(),
        ensures
            signal_slot(signum) is None ==> r is None,
            signal_slot(signum) matches Some(i) ==> r is Some && r->0.pending == self@.pending[i as int],
    {
        if signum >= 0 && (signum as usize) < MAX_SIGNALS {
            Some(&self.signals[signum as usize])
        } else {
            None
        }
    }

    /// The number of deliveries of signal `signum` (none when it is not tracked).
    pub fn pending(&self, signum: i32) -> (r: Option<u64>)
        requires
            self.wf(),
        ensures
            r == (match signal_slot(signum) {
                Some(i) => Some(self@.pending[i as int]),
                None => None::<u64>,
            }),
    {
        match self.get(signum) {
            Some(state) => Some(state.pending),
            None => None,
        }
    }

    /// All deliveries counted so far (wrapping).
    pub fn generation(&self) -> (r: u64)
        ensures
            r == self@.generation,
    {
        self.generation
    }

    /// Counts a delivery of signal `signum`, when it is tracked, and one more
    /// delivery in all.
    pub fn notify(&mut self, signum: i32)
        requires
            old(self).wf(),
        ensures
            final(self).wf(),
            final(self)@ == (match signal_slot(signum) {
                Some(i) => RegistryState {
                    pending: old(self)@.pending.update(
                        i as int,
                        vstd::wrapping::u64_specs::wrapping_add(old(self)@.pending[i as int], 1),
                    ),
                    generation: vstd::wrapping::u64_specs::wrapping_add(old(self)@.generation, 1),
                },
                None => old(self)@,
            }),
    {
        if signum >= 0 && (signum as usize) < MAX_SIGNALS {
            let i = signum as usize;
            let mut state = self.signals[i];
            state.notify();
            self.signals.set(i, state);
            self.generation = self.generation.wrapping_add(1);
            proof {
                assert(self@.pending =~= old(self)@.pending.update(
                    i as int,
                    vstd::wrapping::u64_specs::wrapping_add(old(self)@.pending[i as int], 1),
                ));
            }
        }
    }
}

/// A listener of one signal: the delivery count it has caught up to.
#[derive(Debug, Clone, Copy)]
pub struct SignalHandle {
    pub signum: i32,
    pub last_seen: u64,
}

impl SignalHandle {
    /// A listener of signal `signum` that has seen nothing.
    pub fn new(signum: i32) -> (h: Self)
        ensures
            h.signum == signum,
            h.last_seen == 0,
    {
        SignalHandle { signum, last_seen: 0 }
    }

    /// The signal listened to.
    pub fn signum(&self) -> (r: i32)
        ensures
            r == self.signum,
    {
        self.signum
    }

    /// Takes a delivery not seen yet: `true` when the signal's count in `registry` is
    /// past the count this listener caught up to, which it then catches up to;
    /// `false` for an untracked signal.
    pub fn try_recv(&mut self, registry: &GlobalRegistry) -> (r: bool)
        requires
            registry.wf(),
        ensures
            final(self).signum == old(self).signum,
            match signal_slot(old(self).signum) {
                Some(i) => {
                    &&& r == (registry@.pending[i as int] > old(self).last_seen)
                    &&& final(self).last_seen == if r {
                        registry@.pending[i as int]
                    } else {
                        old(self).last_seen
                    }
                },
                None => !r && final(self).last_seen == old(self).last_seen,
            },
    {
        match registry.get(self.signum) {
            Some(state) => state.try_recv(&mut self.last_seen),
            None => false,
        }
    }
}

/// No delivery is lost: a listener that has caught up with its signal receives
/// the next delivery, and then receives nothing more until another one (as long as
/// the count does not wrap).
pub proof fn lemma_delivery_received_once(reg: RegistryState, signum: i32, last_seen: u64)
    requires
        reg.pending.len() == MAX_SIGNALS,
        signal_slot(signum) is Some,
        reg.pending[signal_slot(signum)->0 as int] == last_seen,
        last_seen < u64::MAX,
    ensures
        ({
            let i = signal_slot(signum)->0 as int;
            let after = reg.pending.update(i, vstd::wrapping::u64_specs::wrapping_add(reg.pending[i], 1));
            &&& after[i] > last_seen
            &&& !(after[i] > after[i])
        }),
{
}

/// Why a signal number cannot be registered.
#[derive(Debug, Clone, Copy, PartialEq, Eq, Structural)]
pub enum RegisterError {
    /// The number is outside 1..64.
    InvalidNumber,
    /// The signal cannot be caught.
    Uncatchable,
}

/// The bit of signal number `signum` in a set of registered signals.
pub open spec fn signal_bit(signum: i32) -> u64 {
    1u64 << (signum as u64)
}

/// What registering `signum` asks for, given the set `mask` of signals whose
/// handler is installed and the two numbers that cannot be caught: an error for a
/// number outside 1..64 or one that cannot be caught, else whether its handler is
/// still to be installed.
pub open spec fn registration_needed(mask: u64, signum: i32, sigkill: i32, sigstop: i32) -> Result<bool, RegisterError> {
    if signum < 1 || signum >= 64 {
        Err(RegisterError::InvalidNumber)
    } else if signum == sigkill || signum == sigstop {
        Err(RegisterError::Uncatchable)
    } else {
        Ok(mask & signal_bit(signum) == 0)
    }
}

/// The signal numbers whose operating-system handler is installed, one bit each.
pub struct RegisteredSignals {
    pub mask: u64,
}

impl RegisteredSignals {
    /// No signal registered.
    pub fn new() -> (r: Self)
        ensures
            r.mask == 0,
    {
        RegisteredSignals { mask: 0 }
    }

    /// Decides the registration of `signum` (see `registration_needed`); the
    /// numbers `sigkill` and `sigstop` cannot be caught.
    pub fn check(&self, signum: i32, sigkill: i32, sigstop: i32) -> (r: Result<bool, RegisterError>)
        ensures
            r == registration_needed(self.mask, signum, sigkill, sigstop),
    {
        if signum < 1 || signum >= 64 {
            Err(RegisterError::InvalidNumber)
        } else if signum == sigkill || signum == sigstop {
            Err(RegisterError::Uncatchable)
        } else {
            Ok(self.mask & (1u64 << (signum as u64)) == 0)
        }
    }

    /// Records that the handler of `signum` is installed.
    pub fn mark(&mut self, signum: i32)
        requires
            1 <= signum < 64,
        ensures
            final(self).mask == old(self).mask | signal_bit(signum),
    {
        self.mask = self.mask | (1u64 << (signum as u64));
    }
}

/// Registering is done once: a signal marked as installed needs no second
/// installation, and marking it leaves every other signal as it was.
pub proof fn lemma_registered_once(mask: u64, signum: i32, other: i32, sigkill: i32, sigstop: i32)
    requires
        1 <= signum < 64,
        signum != sigkill,
        signum != sigstop,
        other != signum,
    ensures
        registration_needed(mask | signal_bit(signum), signum, sigkill, sigstop) == Ok::<bool, RegisterError>(false),
        registration_needed(mask | signal_bit(signum), other, sigkill, sigstop) == registration_needed(
            mask,
            other,
            sigkill,
            sigstop,
        ),
{
    let s = signum as u64;
    let o: u64 = if 1 <= other < 64 {
        other as u64
    } else {
        0
    };
    lemma_mark_bits(mask, s, o);
}

/// Setting bit `s` of `mask` sets it and leaves every other bit.
proof fn lemma_mark_bits(mask: u64, s: u64, o: u64)
    by (bit_vector)
    requires
        s < 64,
        o < 64,
    ensures
        (mask | (1u64 << s)) & (1u64 << s) != 0,
        s != o ==> (((mask | (1u64 << s)) & (1u64 << o) == 0) == (mask & (1u64 << o) == 0)),
{
}

} // verus!
