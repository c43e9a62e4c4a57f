//! Rate limits of a notification channel.
//!
//! A channel has up to two token buckets, one for a minute and one for an hour, and
//! delivers a notification only when both let it through. A notification that is
//! over the limit is not dropped: its delivery waits for the next token.

use std::sync::Arc;
use vstd::prelude::*;

verus! {

/// A token bucket: `governor::DefaultDirectRateLimiter`, carried through unread.
#[verifier::external_body]
pub struct TokenBucket {
    pub limiter: governor::DefaultDirectRateLimiter,
}

/// The limits of a channel.
#[derive(Debug, Clone, Copy, PartialEq, Eq)]
pub struct RateLimitConfig {
    /// The greatest number of notifications in a minute. `None` means no such limit.
    pub max_per_minute: Option<u32>,
    /// The greatest number of notifications in an hour. `None` means no such limit.
    pub max_per_hour: Option<u32>,
}

impl Default for RateLimitConfig {
    /// No limits.
    fn default() -> (r: Self)
        ensures
            r == (RateLimitConfig { max_per_minute: None, max_per_hour: None }),
    {
        RateLimitConfig { max_per_minute: None, max_per_hour: None }
    }
}

impl RateLimitConfig {
    /// These limits.
    pub fn new(max_per_minute: Option<u32>, max_per_hour: Option<u32>) -> (r: Self)
        ensures
            r == (RateLimitConfig { max_per_minute, max_per_hour }),
    {
        RateLimitConfig { max_per_minute, max_per_hour }
    }

    /// Whether there is a limit at all.
    pub open spec fn enabled(self) -> bool {
        self.max_per_minute is Some || self.max_per_hour is Some
    }

    /// Whether there is a limit at all.
    pub fn is_enabled(&self) -> (r: bool)
        ensures
            r == self.enabled(),
    {
        self.max_per_minute.is_some() || self.max_per_hour.is_some()
    }
}

/// The quota that `bucket` was made with: how many tokens it holds, and in how many
/// seconds an empty one fills up again.
pub uninterp spec fn bucket_quota(bucket: TokenBucket) -> (u32, nat);

/// `RateLimiter::direct` with `Quota::per_minute`: a full bucket of `tokens` that
/// fills up within a minute.
#[verifier::external_body]
fn bucket_per_minute(tokens: u32) -> (r: TokenBucket)
    requires
        tokens > 0,
    ensures
        bucket_quota(r) == (tokens, 60nat),
{
    let tokens = std::num::NonZeroU32::new(tokens).unwrap();
    TokenBucket { limiter: governor::RateLimiter::direct(governor::Quota::per_minute(tokens)) }
}

/// `RateLimiter::direct` with `Quota::per_hour`: a full bucket of `tokens` that fills
/// up within an hour.
#[verifier::external_body]
fn bucket_per_hour(tokens: u32) -> (r: TokenBucket)
    requires
        tokens > 0,
    ensures
        bucket_quota(r) == (tokens, 3600nat),
{
    let tokens = std::num::NonZeroU32::new(tokens).unwrap();
    TokenBucket { limiter: governor::RateLimiter::direct(governor::Quota::per_hour(tokens)) }
}

/// Whether `bucket` was asked for a token and answered by giving one, or, where
/// `taken` is false, by having none. A bucket may well have answered both.
pub uninterp spec fn token_asked(bucket: TokenBucket, taken: bool) -> bool;

/// `RateLimiter::check`: takes a token if there is one, and tells whether there was.
/// Which it is depends on the time and on the calls before; the contract says only
/// that this bucket was asked and answered so.
#[verifier::external_body]
fn take_token(bucket: &TokenBucket) -> (r: bool)
    ensures
        token_asked(*bucket, r),
{
    bucket.limiter.check().is_ok()
}

/// The token buckets of a channel.
pub struct ChannelRateLimiter {
    pub per_minute: Option<TokenBucket>,
    pub per_hour: Option<TokenBucket>,
}

/// Whether `bucket` is the one for `limit` notifications in `seconds`. There is
/// none without a limit, and none for a limit of zero.
pub open spec fn enforces(
    bucket: Option<TokenBucket>,
    limit: Option<u32>,
    seconds: nat,
) -> bool {
    match bucket {
        Some(bucket) => limit matches Some(n) && n > 0 && bucket_quota(bucket) == (n, seconds),
        None => limit matches Some(n) ==> n == 0,
    }
}

/// Whether `outcome` is what asking `bucket` for a token gave: an answer of that
/// bucket, or nothing where there is no bucket.
pub open spec fn answered(bucket: Option<TokenBucket>, outcome: Option<bool>) -> bool {
    match bucket {
        Some(bucket) => outcome matches Some(taken) && token_asked(bucket, taken),
        None => outcome is None,
    }
}

/// Whether a bucket lets a notification through, by what taking a token gave: a
/// bucket that is not there always does.
pub open spec fn lets_through(outcome: Option<bool>) -> bool {
    outcome matches Some(taken) ==> taken
}

/// Whether a notification may be sent at once, by what taking a token from each
/// bucket gave: both must let it through.
pub open spec fn admitted_by(minute: Option<bool>, hour: Option<bool>) -> bool {
    lets_through(minute) && lets_through(hour)
}

/// Whether a notification may be sent at once, by what taking a token from each
/// bucket gave.
pub fn admits(minute: Option<bool>, hour: Option<bool>) -> (r: bool)
    ensures
        r == admitted_by(minute, hour),
{
    let minute_ok = match minute {
        Some(taken) => taken,
        None => true,
    };
    let hour_ok = match hour {
        Some(taken) => taken,
        None => true,
    };
    minute_ok && hour_ok
}

/// One of the two buckets.
#[derive(Debug, Clone, Copy, PartialEq, Eq)]
pub enum Window {
    Minute,
    Hour,
}

/// How far the acquisition of permission for one notification has come.
#[derive(Debug, Clone, Copy, PartialEq, Eq)]
pub enum Acquisition {
    /// A token of this bucket is to be taken next. The flag tells whether the
    /// notification had to wait before.
    Take(Window, bool),
    /// This bucket had no token: the delivery has to wait until it gives one.
    Wait(Window),
    /// The notification may be sent. The flag tells whether it had to wait.
    Done(bool),
}

/// What happens during an acquisition.
#[derive(Debug, Clone, Copy, PartialEq, Eq)]
pub enum AcquireEvent {
    /// A token was taken.
    Taken,
    /// There was no token.
    Refused,
    /// A token was given at the end of a wait.
    Given,
}

/// What taking a token means for an acquisition, by what it gave: a bucket that is
/// not there counts as having one.
pub fn take_event(taken: Option<bool>) -> (r: AcquireEvent)
    ensures
        r == if lets_through(taken) {
            AcquireEvent::Taken
        } else {
            AcquireEvent::Refused
        },
{
    match taken {
        Some(false) => AcquireEvent::Refused,
        _ => AcquireEvent::Taken,
    }
}

/// The state once the bucket `window` is dealt with, where `hour` tells whether there
/// is a bucket for the hour.
pub open spec fn past(window: Window, waited: bool, hour: bool) -> Acquisition {
    if window is Minute && hour {
        Acquisition::Take(Window::Hour, waited)
    } else {
        Acquisition::Done(waited)
    }
}

/// The first state, where the flags tell which buckets there are: the minute comes
/// before the hour.
pub open spec fn acquisition_start(minute: bool, hour: bool) -> Acquisition {
    if minute {
        Acquisition::Take(Window::Minute, false)
    } else {
        past(Window::Minute, false, hour)
    }
}

/// The state after `event`. An event that `state` does not wait for changes nothing.
pub open spec fn acquisition_next(
    state: Acquisition,
    hour: bool,
    event: AcquireEvent,
) -> Acquisition {
    match (state, event) {
        (Acquisition::Take(window, waited), AcquireEvent::Taken) => past(window, waited, hour),
        (Acquisition::Take(window, _), AcquireEvent::Refused) => Acquisition::Wait(window),
        (Acquisition::Wait(window), AcquireEvent::Given) => past(window, true, hour),
        _ => state,
    }
}

/// The state after `events`, from `state`.
pub open spec fn acquisition_after(
    state: Acquisition,
    hour: bool,
    events: Seq<AcquireEvent>,
) -> Acquisition
    decreases events.len(),
{
    if events.len() == 0 {
        state
    } else {
        acquisition_next(
            acquisition_after(state, hour, events.drop_last()),
            hour,
            events.last(),
        )
    }
}

/// Whether the events are what taking tokens gives.
pub open spec fn only_takes(events: Seq<AcquireEvent>) -> bool {
    forall|i: int| 0 <= i < events.len() ==> (#[trigger] events[i]) != AcquireEvent::Given
}

/// What the buckets of a channel were asked and answered, in order.
#[derive(Debug)]
pub struct Asks {
    answers: Vec<(Window, bool)>,
}

impl View for Asks {
    type V = Seq<(Window, bool)>;

    closed spec fn view(&self) -> Seq<(Window, bool)> {
        self.answers@
    }
}

impl Asks {
    /// Nothing was asked yet.
    pub fn new() -> (r: Self)
        ensures
            r@ == Seq::<(Window, bool)>::empty(),
    {
        Asks { answers: Vec::new() }
    }

    /// The buckets that were asked, with their answers, in order.
    pub fn answers(&self) -> (r: &Vec<(Window, bool)>)
        ensures
            r@ == self@,
    {
        &self.answers
    }
}

/// The record of asking the bucket `window` once, where it answered `outcome`. Nothing
/// is asked where there is no bucket.
pub open spec fn asked_once(window: Window, outcome: Option<bool>) -> Seq<(Window, bool)> {
    match outcome {
        Some(taken) => seq![(window, taken)],
        None => Seq::empty(),
    }
}

/// The record of a check: each bucket that is there was asked once, the minute's first.
pub open spec fn check_asks(minute: Option<bool>, hour: Option<bool>) -> Seq<(Window, bool)> {
    asked_once(Window::Minute, minute) + asked_once(Window::Hour, hour)
}

/// The record of taking a token from the bucket `window`, if it is there, with the
/// outcome `event`.
pub open spec fn asks_of_take(
    bucket: Option<TokenBucket>,
    window: Window,
    event: AcquireEvent,
) -> Seq<(Window, bool)> {
    match bucket {
        Some(_) => seq![(window, event == AcquireEvent::Taken)],
        None => Seq::empty(),
    }
}

/// The record of an acquisition of `limiter` to which `events` happen from `state` on.
pub open spec fn asks_in(
    limiter: ChannelRateLimiter,
    state: Acquisition,
    events: Seq<AcquireEvent>,
) -> Seq<(Window, bool)>
    decreases events.len(),
{
    if events.len() == 0 {
        Seq::empty()
    } else {
        let before = asks_in(limiter, state, events.drop_last());
        match acquisition_after(state, limiter.per_hour is Some, events.drop_last()) {
            Acquisition::Take(window, _) => before + asks_of_take(
                limiter.bucket(window),
                window,
                events.last(),
            ),
            _ => before,
        }
    }
}

/// Whether `event` is what asking `bucket` for a token gave. A bucket that is not
/// there counts as having one.
pub open spec fn took(bucket: Option<TokenBucket>, event: AcquireEvent) -> bool {
    match bucket {
        Some(bucket) => token_asked(bucket, event == AcquireEvent::Taken),
        None => event == AcquireEvent::Taken,
    }
}

/// Whether `events` are what happens to an acquisition of `limiter` from `state` on:
/// where a token is to be taken, the bucket in turn is asked for it; where the
/// delivery has to wait, a token is given; and once the acquisition is done, nothing
/// more happens.
pub open spec fn asked_in_turn(
    limiter: ChannelRateLimiter,
    state: Acquisition,
    events: Seq<AcquireEvent>,
) -> bool
    decreases events.len(),
{
    events.len() > 0 ==> {
        &&& asked_in_turn(limiter, state, events.drop_last())
        &&& match acquisition_after(state, limiter.per_hour is Some, events.drop_last()) {
            Acquisition::Take(window, _) => events.last() != AcquireEvent::Given && took(
                limiter.bucket(window),
                events.last(),
            ),
            Acquisition::Wait(_) => events.last() == AcquireEvent::Given,
            Acquisition::Done(_) => false,
        }
    }
}

impl ChannelRateLimiter {
    /// The buckets for the limits of `config`, full, or `None` without any limit. A
    /// limit of zero gives no bucket. Every call makes buckets of its own; the contract
    /// says with which quota they are made, and leaves unsaid what tokens they hold,
    /// which changes behind a shared reference.
    pub fn from_config(config: &RateLimitConfig) -> (r: Option<Arc<Self>>)
        ensures
            match r {
                Some(limiter) => {
                    &&& config.enabled()
                    &&& enforces(limiter.per_minute, config.max_per_minute, 60)
                    &&& enforces(limiter.per_hour, config.max_per_hour, 3600)
                },
                None => !config.enabled(),
            },
    {
        if !config.is_enabled() {
            return None;
        }
        let per_minute = match config.max_per_minute {
            Some(n) => if n > 0 {
                Some(bucket_per_minute(n))
            } else {
                None
            },
            None => None,
        };
        let per_hour = match config.max_per_hour {
            Some(n) => if n > 0 {
                Some(bucket_per_hour(n))
            } else {
                None
            },
            None => None,
        };
        Some(Arc::new(ChannelRateLimiter { per_minute, per_hour }))
    }

    /// Asks the bucket `window` for a token, if it is there, and writes its answer down.
    /// Whether it has one depends on the time and on the calls before. Every token is
    /// asked for here.
    fn ask(&self, window: Window, asks: &mut Asks) -> (r: Option<bool>)
        ensures
            answered(self.bucket(window), r),
            final(asks)@ == old(asks)@ + asked_once(window, r),
    {
        let bucket = match window {
            Window::Minute => &self.per_minute,
            Window::Hour => &self.per_hour,
        };
        let ghost before = asks@;
        match bucket {
            Some(bucket) => {
                let taken = take_token(bucket);
                asks.answers.push((window, taken));
                assert(asks@ == before + asked_once(window, Some(taken)));
                Some(taken)
            },
            None => {
                assert(asks@ == before + asked_once(window, None));
                None
            },
        }
    }

    /// Takes a token from each bucket that is there, from the hour's also where the
    /// minute's had none, and tells whether the notification may be sent at once.
    /// Each bucket is asked once, as `asks` shows, behind what it held before.
    pub fn check_asking(&self, asks: &mut Asks) -> (r: bool)
        ensures
            exists|minute: Option<bool>, hour: Option<bool>|
                #![trigger admitted_by(minute, hour)]
                answered(self.per_minute, minute) && answered(self.per_hour, hour) && r
                    == admitted_by(minute, hour) && final(asks)@ == old(asks)@ + check_asks(
                    minute,
                    hour,
                ),
            self.per_minute is None && self.per_hour is None ==> r,
    {
        let ghost before = asks@;
        let minute = self.ask(Window::Minute, asks);
        let hour = self.ask(Window::Hour, asks);
        assert(asks@ == before + check_asks(minute, hour));
        admits(minute, hour)
    }

    /// Takes a token from each bucket that is there, from the hour's also where the
    /// minute's had none, and tells whether the notification may be sent at once.
    /// Whether a bucket has a token depends on the time and on the calls before. The
    /// contract says that each bucket answered and what follows; that each is asked once
    /// is said by [`ChannelRateLimiter::check_asking`].
    pub fn check(&self) -> (r: bool)
        ensures
            exists|minute: Option<bool>, hour: Option<bool>|
                #![trigger admitted_by(minute, hour)]
                answered(self.per_minute, minute) && answered(self.per_hour, hour) && r
                    == admitted_by(minute, hour),
            self.per_minute is None && self.per_hour is None ==> r,
    {
        let mut asks = Asks::new();
        self.check_asking(&mut asks)
    }

    /// The first state of an acquisition.
    pub fn start_acquire(&self) -> (r: Acquisition)
        ensures
            r == acquisition_start(self.per_minute is Some, self.per_hour is Some),
    {
        if self.per_minute.is_some() {
            Acquisition::Take(Window::Minute, false)
        } else if self.per_hour.is_some() {
            Acquisition::Take(Window::Hour, false)
        } else {
            Acquisition::Done(false)
        }
    }

    /// The state of an acquisition after `event`.
    pub fn advance(&self, state: Acquisition, event: AcquireEvent) -> (r: Acquisition)
        ensures
            r == acquisition_next(state, self.per_hour is Some, event),
    {
        let (window, waited) = match (state, event) {
            (Acquisition::Take(window, waited), AcquireEvent::Taken) => (window, waited),
            (Acquisition::Take(window, _), AcquireEvent::Refused) => {
                return Acquisition::Wait(window);
            },
            (Acquisition::Wait(window), AcquireEvent::Given) => (window, true),
            _ => {
                return state;
            },
        };
        match window {
            Window::Minute => if self.per_hour.is_some() {
                Acquisition::Take(Window::Hour, waited)
            } else {
                Acquisition::Done(waited)
            },
            Window::Hour => Acquisition::Done(waited),
        }
    }

    /// The bucket `window`, if it is there.
    pub open spec fn bucket(self, window: Window) -> Option<TokenBucket> {
        match window {
            Window::Minute => self.per_minute,
            Window::Hour => self.per_hour,
        }
    }

    /// Takes a token from the bucket `window`; one that is not there counts as having
    /// one. Whether it has one depends on the time and on the calls before.
    fn take(&self, window: Window, asks: &mut Asks) -> (r: AcquireEvent)
        ensures
            r != AcquireEvent::Given,
            took(self.bucket(window), r),
            final(asks)@ == old(asks)@ + asks_of_take(self.bucket(window), window, r),
    {
        let taken = self.ask(window, asks);
        take_event(taken)
    }

    /// Carries an acquisition on, from `state`, until it is done or has to wait: asks
    /// the buckets that are due, one after the other, each of them once, as `asks` shows,
    /// behind what it held before.
    pub fn acquire_asking(&self, state: Acquisition, asks: &mut Asks) -> (r: Acquisition)
        ensures
            !(r is Take),
            !(state is Take) ==> r == state,
            exists|events: Seq<AcquireEvent>|
                only_takes(events) && asked_in_turn(*self, state, events) && r
                    == #[trigger] acquisition_after(state, self.per_hour is Some, events)
                    && final(asks)@ == old(asks)@ + asks_in(*self, state, events),
    {
        let mut current = state;
        let ghost hour = self.per_hour is Some;
        let ghost start = asks@;
        let ghost mut events: Seq<AcquireEvent> = Seq::empty();
        assert(asks@ == start + asks_in(*self, state, events));
        loop
            invariant
                only_takes(events),
                asked_in_turn(*self, state, events),
                hour == (self.per_hour is Some),
                current == acquisition_after(state, hour, events),
                asks@ == start + asks_in(*self, state, events),
                !(state is Take) ==> current == state,
            ensures
                !(current is Take),
            decreases
                match current {
                    Acquisition::Take(Window::Minute, _) => 2nat,
                    Acquisition::Take(Window::Hour, _) => 1nat,
                    _ => 0nat,
                },
        {
            match current {
                Acquisition::Take(window, _) => {
                    let event = self.take(window, asks);
                    proof {
                        let before = events;
                        events = events.push(event);
                        assert(events.drop_last() == before);
                        assert(asks@ == start + asks_in(*self, state, events));
                    }
                    current = self.advance(current, event);
                },
                _ => {
                    break ;
                },
            }
        }
        current
    }

    /// Carries an acquisition on, from `state`, until it is done or has to wait: asks
    /// the buckets that are due, one after the other. After a wait it goes on from the
    /// state that [`ChannelRateLimiter::advance`] gives. Whether it has to wait depends
    /// on the time and on the calls before. The contract says which buckets answered
    /// and what follows; that each is asked once is said by
    /// [`ChannelRateLimiter::acquire_asking`].
    pub fn acquire(&self, state: Acquisition) -> (r: Acquisition)
        ensures
            !(r is Take),
            !(state is Take) ==> r == state,
            exists|events: Seq<AcquireEvent>|
                only_takes(events) && asked_in_turn(*self, state, events) && r
                    == #[trigger] acquisition_after(state, self.per_hour is Some, events),
    {
        let mut asks = Asks::new();
        self.acquire_asking(state, &mut asks)
    }
}

/// Whether each of `events` is one that the acquisition waits for when it comes.
pub open spec fn in_turn(state: Acquisition, hour: bool, events: Seq<AcquireEvent>) -> bool
    decreases events.len(),
{
    events.len() > 0 ==> {
        let before = acquisition_after(state, hour, events.drop_last());
        &&& in_turn(state, hour, events.drop_last())
        &&& before is Take ==> events.last() != AcquireEvent::Given
        &&& before is Wait ==> events.last() == AcquireEvent::Given
        &&& !(before is Done)
    }
}

/// How many tokens `events` brought.
pub open spec fn tokens(events: Seq<AcquireEvent>) -> nat
    decreases events.len(),
{
    if events.len() == 0 {
        0
    } else {
        tokens(events.drop_last()) + if events.last() == AcquireEvent::Refused {
            0nat
        } else {
            1nat
        }
    }
}

/// How many buckets an acquisition in `state` has still to get a token from.
pub open spec fn tokens_due(state: Acquisition, hour: bool) -> nat {
    match state {
        Acquisition::Take(window, _) => if window is Minute && hour {
            2
        } else {
            1
        },
        Acquisition::Wait(window) => if window is Minute && hour {
            2
        } else {
            1
        },
        Acquisition::Done(_) => 0,
    }
}

/// An acquisition gets exactly one token from each bucket before it is done, reports
/// that it had to wait if and only if some bucket had no token, and waits only when
/// the last bucket asked had none.
pub proof fn law_acquisition(minute: bool, hour: bool, events: Seq<AcquireEvent>)
    requires
        in_turn(acquisition_start(minute, hour), hour, events),
    ensures
        tokens(events) + tokens_due(
            acquisition_after(acquisition_start(minute, hour), hour, events),
            hour,
        ) == tokens_due(acquisition_start(minute, hour), hour),
        tokens_due(acquisition_start(minute, hour), hour) == (if minute {
            1nat
        } else {
            0nat
        }) + (if hour {
            1nat
        } else {
            0nat
        }),
        match acquisition_after(acquisition_start(minute, hour), hour, events) {
            Acquisition::Take(_, waited) => waited == events.contains(AcquireEvent::Refused),
            Acquisition::Wait(_) => events.len() > 0 && events.last() == AcquireEvent::Refused,
            Acquisition::Done(waited) => waited == events.contains(AcquireEvent::Refused),
        },
    decreases events.len(),
{
    let start = acquisition_start(minute, hour);
    if events.len() > 0 {
        let head = events.drop_last();
        let last = events.last();
        law_acquisition(minute, hour, head);
        assert(events.contains(AcquireEvent::Refused) == (head.contains(AcquireEvent::Refused)
            || last == AcquireEvent::Refused)) by {
            if last == AcquireEvent::Refused {
                assert(events[events.len() - 1] == AcquireEvent::Refused);
            }
            if head.contains(AcquireEvent::Refused) {
                let k = choose|k: int| 0 <= k < head.len() && head[k] == AcquireEvent::Refused;
                assert(events[k] == AcquireEvent::Refused);
            }
            if events.contains(AcquireEvent::Refused) && last != AcquireEvent::Refused {
                let k = choose|k: int| 0 <= k < events.len() && events[k] == AcquireEvent::Refused;
                assert(head[k] == AcquireEvent::Refused);
            }
        }
        if acquisition_after(start, hour, head) is Wait {
            assert(head[head.len() - 1] == AcquireEvent::Refused);
        }
    }
}

/// An acquisition is over after at most four events.
pub proof fn law_acquisition_ends(minute: bool, hour: bool, events: Seq<AcquireEvent>)
    requires
        in_turn(acquisition_start(minute, hour), hour, events),
    ensures
        events.len() <= 4,
        events.len() == 4 ==> acquisition_after(
            acquisition_start(minute, hour),
            hour,
            events,
        ) is Done,
{
    reveal_with_fuel(in_turn, 6);
    reveal_with_fuel(acquisition_after, 6);
}

/// What happens to an acquisition is in turn.
proof fn lemma_asked_is_in_turn(
    limiter: ChannelRateLimiter,
    state: Acquisition,
    events: Seq<AcquireEvent>,
)
    requires
        asked_in_turn(limiter, state, events),
    ensures
        in_turn(state, limiter.per_hour is Some, events),
    decreases events.len(),
{
    if events.len() > 0 {
        lemma_asked_is_in_turn(limiter, state, events.drop_last());
    }
}

/// An acquisition may be carried on in several goes: what happens to it in one go
/// and then in the next is what happens to it altogether.
pub proof fn law_acquisition_goes_on(
    limiter: ChannelRateLimiter,
    state: Acquisition,
    events: Seq<AcquireEvent>,
    more: Seq<AcquireEvent>,
)
    requires
        asked_in_turn(limiter, state, events),
        asked_in_turn(
            limiter,
            acquisition_after(state, limiter.per_hour is Some, events),
            more,
        ),
    ensures
        asked_in_turn(limiter, state, events + more),
        acquisition_after(state, limiter.per_hour is Some, events + more) == acquisition_after(
            acquisition_after(state, limiter.per_hour is Some, events),
            limiter.per_hour is Some,
            more,
        ),
    decreases more.len(),
{
    if more.len() == 0 {
        assert(events + more == events);
    } else {
        law_acquisition_goes_on(limiter, state, events, more.drop_last());
        assert((events + more).drop_last() == events + more.drop_last());
        assert((events + more).last() == more.last());
    }
}

/// What has to have happened to a bucket that an acquisition is past: it was asked
/// for a token.
pub open spec fn was_asked(bucket: Option<TokenBucket>) -> bool {
    bucket matches Some(bucket) ==> token_asked(bucket, true) || token_asked(bucket, false)
}

/// Whether a bucket is there and had no token when it was asked.
pub open spec fn had_none(bucket: Option<TokenBucket>) -> bool {
    bucket matches Some(bucket) && token_asked(bucket, false)
}

/// Whether the acquisition is past the bucket `window` in `state`.
spec fn is_past(state: Acquisition, window: Window) -> bool {
    match state {
        Acquisition::Take(at, _) => window is Minute && at is Hour,
        Acquisition::Wait(at) => window is Minute || at is Hour,
        Acquisition::Done(_) => true,
    }
}

/// Whether the delivery has had to wait in `state`.
spec fn has_waited(state: Acquisition) -> bool {
    match state {
        Acquisition::Take(_, waited) => waited,
        Acquisition::Wait(_) => true,
        Acquisition::Done(waited) => waited,
    }
}

/// Up to any point of an acquisition, the buckets behind it were asked, and the
/// delivery has had to wait only where one of them had no token.
proof fn lemma_buckets_behind(limiter: ChannelRateLimiter, events: Seq<AcquireEvent>)
    requires
        asked_in_turn(
            limiter,
            acquisition_start(limiter.per_minute is Some, limiter.per_hour is Some),
            events,
        ),
    ensures
        ({
            let hour = limiter.per_hour is Some;
            let state = acquisition_after(
                acquisition_start(limiter.per_minute is Some, hour),
                hour,
                events,
            );
            &&& is_past(state, Window::Minute) ==> was_asked(limiter.per_minute)
            &&& is_past(state, Window::Hour) ==> was_asked(limiter.per_hour)
            &&& has_waited(state) ==> had_none(limiter.per_minute) || had_none(limiter.per_hour)
            &&& state matches Acquisition::Take(window, _) ==> limiter.bucket(window) is Some
            &&& state matches Acquisition::Wait(window) ==> limiter.bucket(window) is Some
        }),
    decreases events.len(),
{
    if events.len() > 0 {
        lemma_buckets_behind(limiter, events.drop_last());
    }
}

/// An acquisition that is done has asked every bucket and got one token from each of
/// them, and it reports that it had to wait if and only if a bucket refused it one,
/// which is then a bucket that had none when it was asked.
pub proof fn law_done_has_asked_every_bucket(
    limiter: ChannelRateLimiter,
    events: Seq<AcquireEvent>,
    waited: bool,
)
    requires
        asked_in_turn(
            limiter,
            acquisition_start(limiter.per_minute is Some, limiter.per_hour is Some),
            events,
        ),
        acquisition_after(
            acquisition_start(limiter.per_minute is Some, limiter.per_hour is Some),
            limiter.per_hour is Some,
            events,
        ) == Acquisition::Done(waited),
    ensures
        was_asked(limiter.per_minute),
        was_asked(limiter.per_hour),
        tokens(events) == (if limiter.per_minute is Some {
            1nat
        } else {
            0nat
        }) + (if limiter.per_hour is Some {
            1nat
        } else {
            0nat
        }),
        waited == events.contains(AcquireEvent::Refused),
        waited ==> had_none(limiter.per_minute) || had_none(limiter.per_hour),
{
    let minute = limiter.per_minute is Some;
    let hour = limiter.per_hour is Some;
    lemma_asked_is_in_turn(limiter, acquisition_start(minute, hour), events);
    law_acquisition(minute, hour, events);
    lemma_buckets_behind(limiter, events);
}

/// What a bucket, full before, answers to the `k`-th of several requests at one
/// instant, where it answers as a token bucket does: it gives as many tokens as it
/// holds, and no more.
pub open spec fn burst_answer(bucket: Option<TokenBucket>, k: nat) -> Option<bool> {
    match bucket {
        Some(bucket) => Some(k <= bucket_quota(bucket).0),
        None => None,
    }
}

/// Whether `k` notifications are within `limit`. Without a limit, and with a limit
/// of zero, every number is.
pub open spec fn within_limit(limit: Option<u32>, k: nat) -> bool {
    limit matches Some(n) ==> n == 0 || k <= n
}

/// Of several notifications at one instant, the `k`-th may be sent at once exactly if
/// `k` is within each limit, provided that each bucket gives its tokens to as many
/// requests as it holds tokens.
pub proof fn law_burst_is_admitted_up_to_the_limits(
    config: RateLimitConfig,
    limiter: ChannelRateLimiter,
    k: nat,
)
    requires
        enforces(limiter.per_minute, config.max_per_minute, 60),
        enforces(limiter.per_hour, config.max_per_hour, 3600),
    ensures
        admitted_by(burst_answer(limiter.per_minute, k), burst_answer(limiter.per_hour, k)) <==> (
        within_limit(config.max_per_minute, k) && within_limit(config.max_per_hour, k)),
{
}

/// What a bucket that has `left` tokens answers, where it gives a token as long as it
/// has one.
pub open spec fn answer_with(
    left: spec_fn(TokenBucket) -> nat,
    bucket: Option<TokenBucket>,
) -> Option<bool> {
    match bucket {
        Some(bucket) => Some(left(bucket) > 0),
        None => None,
    }
}

/// Whether a check of `limiter` admits a notification, where the buckets have `left`
/// tokens.
pub open spec fn check_with(
    left: spec_fn(TokenBucket) -> nat,
    limiter: ChannelRateLimiter,
) -> bool {
    admitted_by(answer_with(left, limiter.per_minute), answer_with(left, limiter.per_hour))
}

/// The tokens that are left after a check of `limiter` at one instant: each of its
/// buckets has one less, unless it had none.
pub open spec fn left_after_check(
    left: spec_fn(TokenBucket) -> nat,
    limiter: ChannelRateLimiter,
) -> spec_fn(TokenBucket) -> nat {
    |bucket: TokenBucket|
        if left(bucket) > 0 && (limiter.per_minute == Some(bucket) || limiter.per_hour == Some(
            bucket,
        )) {
            (left(bucket) - 1) as nat
        } else {
            left(bucket)
        }
}

/// The tokens that are left after `n` checks of `limiter` at one instant.
pub open spec fn left_after_checks(
    left: spec_fn(TokenBucket) -> nat,
    limiter: ChannelRateLimiter,
    n: nat,
) -> spec_fn(TokenBucket) -> nat
    decreases n,
{
    if n == 0 {
        left
    } else {
        left_after_check(left_after_checks(left, limiter, (n - 1) as nat), limiter)
    }
}

/// The tokens of buckets that are full.
pub open spec fn full() -> spec_fn(TokenBucket) -> nat {
    |bucket: TokenBucket| bucket_quota(bucket).0 as nat
}

/// Checks take from the buckets of their own limiter alone, one token each.
proof fn lemma_left_after_checks(
    left: spec_fn(TokenBucket) -> nat,
    limiter: ChannelRateLimiter,
    n: nat,
    bucket: TokenBucket,
)
    ensures
        left_after_checks(left, limiter, n)(bucket) == if limiter.per_minute == Some(bucket)
            || limiter.per_hour == Some(bucket) {
            if n < left(bucket) {
                (left(bucket) - n) as nat
            } else {
                0
            }
        } else {
            left(bucket)
        },
    decreases n,
{
    if n > 0 {
        lemma_left_after_checks(left, limiter, (n - 1) as nat, bucket);
    }
}

/// Of several checks of a limiter with full buckets at one instant, the `k`-th admits
/// its notification exactly if `k` is within each limit, where a bucket gives a token
/// as long as it has one, and gets none back at that instant.
pub proof fn law_full_buckets_admit_up_to_the_limits(
    config: RateLimitConfig,
    limiter: ChannelRateLimiter,
    k: nat,
)
    requires
        enforces(limiter.per_minute, config.max_per_minute, 60),
        enforces(limiter.per_hour, config.max_per_hour, 3600),
        k > 0,
    ensures
        check_with(left_after_checks(full(), limiter, (k - 1) as nat), limiter) <==> (
        within_limit(config.max_per_minute, k) && within_limit(config.max_per_hour, k)),
{
    if let Some(bucket) = limiter.per_minute {
        lemma_left_after_checks(full(), limiter, (k - 1) as nat, bucket);
    }
    if let Some(bucket) = limiter.per_hour {
        lemma_left_after_checks(full(), limiter, (k - 1) as nat, bucket);
    }
}

/// Two limiters, of the same limits or of others, that have no bucket in common share
/// no tokens: any number of checks of one leaves the answer of the other as it was.
/// Only two buckets for the minute, or two for the hour, could be the same.
pub proof fn law_checks_leave_other_limiters_alone(
    config: RateLimitConfig,
    limiter: ChannelRateLimiter,
    other_config: RateLimitConfig,
    other: ChannelRateLimiter,
    left: spec_fn(TokenBucket) -> nat,
    n: nat,
)
    requires
        enforces(limiter.per_minute, config.max_per_minute, 60),
        enforces(limiter.per_hour, config.max_per_hour, 3600),
        enforces(other.per_minute, other_config.max_per_minute, 60),
        enforces(other.per_hour, other_config.max_per_hour, 3600),
        limiter.per_minute is Some ==> limiter.per_minute != other.per_minute,
        limiter.per_hour is Some ==> limiter.per_hour != other.per_hour,
    ensures
        check_with(left_after_checks(left, limiter, n), other) == check_with(left, other),
{
    if let Some(bucket) = other.per_minute {
        lemma_left_after_checks(left, limiter, n, bucket);
    }
    if let Some(bucket) = other.per_hour {
        lemma_left_after_checks(left, limiter, n, bucket);
    }
}

/// The windows of which buckets were asked, in order.
pub open spec fn windows(asks: Seq<(Window, bool)>) -> Seq<Window> {
    asks.map_values(|a: (Window, bool)| a.0)
}

/// The windows of which there are buckets, the minute before the hour.
pub open spec fn windows_there(minute: bool, hour: bool) -> Seq<Window> {
    (if minute {
        seq![Window::Minute]
    } else {
        Seq::empty()
    }) + (if hour {
        seq![Window::Hour]
    } else {
        Seq::empty()
    })
}

/// The windows of which an acquisition in `state` has asked the buckets.
spec fn windows_behind(state: Acquisition, minute: bool, hour: bool) -> Seq<Window> {
    match state {
        Acquisition::Take(Window::Minute, _) => Seq::empty(),
        Acquisition::Take(Window::Hour, _) => windows_there(minute, false),
        Acquisition::Wait(Window::Minute) => seq![Window::Minute],
        Acquisition::Wait(Window::Hour) => windows_there(minute, true),
        Acquisition::Done(_) => windows_there(minute, hour),
    }
}

/// An acquisition has asked the buckets behind it once each.
proof fn lemma_asked_once_each(limiter: ChannelRateLimiter, events: Seq<AcquireEvent>)
    requires
        asked_in_turn(
            limiter,
            acquisition_start(limiter.per_minute is Some, limiter.per_hour is Some),
            events,
        ),
    ensures
        ({
            let minute = limiter.per_minute is Some;
            let hour = limiter.per_hour is Some;
            let start = acquisition_start(minute, hour);
            windows(asks_in(limiter, start, events)) == windows_behind(
                acquisition_after(start, hour, events),
                minute,
                hour,
            )
        }),
    decreases events.len(),
{
    let minute = limiter.per_minute is Some;
    let hour = limiter.per_hour is Some;
    let start = acquisition_start(minute, hour);
    let asks = asks_in(limiter, start, events);
    if events.len() == 0 {
        assert(windows(asks) =~= Seq::<Window>::empty());
        assert(windows_there(false, false) =~= Seq::<Window>::empty());
    } else {
        let head = events.drop_last();
        lemma_asked_once_each(limiter, head);
        lemma_buckets_behind(limiter, head);
        let before = asks_in(limiter, start, head);
        let state = acquisition_after(start, hour, head);
        if let Acquisition::Take(window, _) = state {
            let entry = (window, events.last() == AcquireEvent::Taken);
            assert(asks == before + seq![entry]);
            assert(windows(asks) =~= windows(before) + seq![window]);
        }
        assert(windows(asks) =~= windows_behind(
            acquisition_after(start, hour, events),
            minute,
            hour,
        ));
    }
}

/// An acquisition asks no bucket twice, the minute's before the hour's, and by the time
/// it is done it has asked each bucket exactly once.
pub proof fn law_acquisition_asks_each_bucket_once(
    limiter: ChannelRateLimiter,
    events: Seq<AcquireEvent>,
)
    requires
        asked_in_turn(
            limiter,
            acquisition_start(limiter.per_minute is Some, limiter.per_hour is Some),
            events,
        ),
    ensures
        ({
            let minute = limiter.per_minute is Some;
            let hour = limiter.per_hour is Some;
            let start = acquisition_start(minute, hour);
            let asked = windows(asks_in(limiter, start, events));
            &&& asked.no_duplicates()
            &&& asked.len() <= windows_there(minute, hour).len()
            &&& asked == windows_there(minute, hour).take(asked.len() as int)
            &&& acquisition_after(start, hour, events) is Done ==> asked == windows_there(
                minute,
                hour,
            )
        }),
{
    let minute = limiter.per_minute is Some;
    let hour = limiter.per_hour is Some;
    lemma_asked_once_each(limiter, events);
    lemma_buckets_behind(limiter, events);
    let asked = windows(asks_in(limiter, acquisition_start(minute, hour), events));
    assert(asked =~= windows_there(minute, hour).take(asked.len() as int));
}

/// How many tokens the two buckets of a limiter have left.
pub struct TokensLeft {
    pub minute: nat,
    pub hour: nat,
}

/// The tokens of the bucket `window`.
pub open spec fn left_in(left: TokensLeft, window: Window) -> nat {
    match window {
        Window::Minute => left.minute,
        Window::Hour => left.hour,
    }
}

/// The tokens that are left after the bucket `window` was asked at that instant: one
/// less, unless it had none.
pub open spec fn left_after_ask(left: TokensLeft, window: Window) -> TokensLeft {
    match window {
        Window::Minute => TokensLeft {
            minute: if left.minute > 0 {
                (left.minute - 1) as nat
            } else {
                0
            },
            hour: left.hour,
        },
        Window::Hour => TokensLeft {
            minute: left.minute,
            hour: if left.hour > 0 {
                (left.hour - 1) as nat
            } else {
                0
            },
        },
    }
}

/// The tokens that are left after all of `asks` at one instant.
pub open spec fn left_after_asks(left: TokensLeft, asks: Seq<(Window, bool)>) -> TokensLeft
    decreases asks.len(),
{
    if asks.len() == 0 {
        left
    } else {
        left_after_ask(left_after_asks(left, asks.drop_last()), asks.last().0)
    }
}

/// Whether `asks` were answered as by buckets that had `left` tokens and give one as long
/// as they have one.
pub open spec fn as_from(left: TokensLeft, asks: Seq<(Window, bool)>) -> bool
    decreases asks.len(),
{
    asks.len() > 0 ==> {
        &&& as_from(left, asks.drop_last())
        &&& asks.last().1 == (left_in(
            left_after_asks(left, asks.drop_last()),
            asks.last().0,
        ) > 0)
    }
}

/// Whether `events` are one go of an acquisition of `limiter` from its start, up to where
/// it is done or has to wait, as [`ChannelRateLimiter::acquire_asking`] makes it.
pub open spec fn one_go(limiter: ChannelRateLimiter, events: Seq<AcquireEvent>) -> bool {
    let start = acquisition_start(limiter.per_minute is Some, limiter.per_hour is Some);
    &&& only_takes(events)
    &&& asked_in_turn(limiter, start, events)
    &&& !(acquisition_after(start, limiter.per_hour is Some, events) is Take)
}

/// What one go of an acquisition of `limiter` to which `events` happen leads to.
pub open spec fn outcome_of(
    limiter: ChannelRateLimiter,
    events: Seq<AcquireEvent>,
) -> Acquisition {
    acquisition_after(
        acquisition_start(limiter.per_minute is Some, limiter.per_hour is Some),
        limiter.per_hour is Some,
        events,
    )
}

/// The record of one go of an acquisition of `limiter` to which `events` happen.
pub open spec fn record_of(
    limiter: ChannelRateLimiter,
    events: Seq<AcquireEvent>,
) -> Seq<(Window, bool)> {
    asks_in(
        limiter,
        acquisition_start(limiter.per_minute is Some, limiter.per_hour is Some),
        events,
    )
}

/// The tokens that are left when each bucket of `limiter` has given one.
pub open spec fn one_less(limiter: ChannelRateLimiter, left: TokensLeft) -> TokensLeft {
    TokensLeft {
        minute: if limiter.per_minute is Some {
            (left.minute - 1) as nat
        } else {
            left.minute
        },
        hour: if limiter.per_hour is Some {
            (left.hour - 1) as nat
        } else {
            left.hour
        },
    }
}

/// An acquisition takes exactly one token from each bucket: where each bucket has one, it
/// is done at once, without having waited, and each bucket has one less. Where a bucket
/// has none, it has to wait for the first such bucket.
pub proof fn law_acquisition_takes_one_token(
    limiter: ChannelRateLimiter,
    left: TokensLeft,
    events: Seq<AcquireEvent>,
)
    requires
        one_go(limiter, events),
        as_from(left, record_of(limiter, events)),
    ensures
        (limiter.per_minute is Some ==> left.minute > 0) && (limiter.per_hour is Some ==> left.hour
            > 0) ==> outcome_of(limiter, events) == Acquisition::Done(false) && left_after_asks(
            left,
            record_of(limiter, events),
        ) == one_less(limiter, left),
        limiter.per_minute is Some && left.minute == 0 ==> outcome_of(limiter, events)
            == Acquisition::Wait(Window::Minute) && left_after_asks(
            left,
            record_of(limiter, events),
        ) == left,
        limiter.per_hour is Some && left.hour == 0 && (limiter.per_minute is Some ==> left.minute
            > 0) ==> outcome_of(limiter, events) == Acquisition::Wait(Window::Hour),
{
    let minute = limiter.per_minute is Some;
    let hour = limiter.per_hour is Some;
    let start = acquisition_start(minute, hour);
    lemma_go_is_short(limiter, events);
    reveal_with_fuel(acquisition_after, 4);
    reveal_with_fuel(asks_in, 4);
    reveal_with_fuel(asked_in_turn, 4);
    reveal_with_fuel(as_from, 4);
    reveal_with_fuel(left_after_asks, 4);
    let none = Seq::<(Window, bool)>::empty();
    if events.len() == 1 {
        assert(events.drop_last() =~= Seq::<AcquireEvent>::empty());
        if let Acquisition::Take(window, _) = start {
            let entry = (window, events.last() == AcquireEvent::Taken);
            assert(record_of(limiter, events) =~= seq![entry]);
            assert(seq![entry].drop_last() =~= none);
        }
    } else if events.len() == 2 {
        let head = events.drop_last();
        assert(head.drop_last() =~= Seq::<AcquireEvent>::empty());
        let first = (Window::Minute, head.last() == AcquireEvent::Taken);
        let second = (Window::Hour, events.last() == AcquireEvent::Taken);
        assert(minute && hour);
        assert(asks_in(limiter, start, head) =~= seq![first]);
        assert(record_of(limiter, events) =~= seq![first, second]);
        assert(seq![first, second].drop_last() =~= seq![first]);
        assert(seq![first].drop_last() =~= none);
    }
}

/// One go of an acquisition has an event for each bucket at most.
proof fn lemma_go_is_short(limiter: ChannelRateLimiter, events: Seq<AcquireEvent>)
    requires
        one_go(limiter, events),
    ensures
        events.len() <= 2,
        events.len() == 2 ==> limiter.per_minute is Some && limiter.per_hour is Some
            && events[0] == AcquireEvent::Taken,
        events.len() == 0 ==> limiter.per_minute is None && limiter.per_hour is None,
{
    let minute = limiter.per_minute is Some;
    let hour = limiter.per_hour is Some;
    let start = acquisition_start(minute, hour);
    reveal_with_fuel(acquisition_after, 4);
    reveal_with_fuel(asked_in_turn, 5);
    if events.len() > 0 {
        let head = events.drop_last();
        assert(events[events.len() - 1] != AcquireEvent::Given);
        if head.len() > 0 {
            assert(events[events.len() - 2] != AcquireEvent::Given);
            assert(head.last() == events[events.len() - 2]);
            let rest = head.drop_last();
            if rest.len() > 0 {
                assert(events[events.len() - 3] != AcquireEvent::Given);
                assert(rest.last() == events[events.len() - 3]);
                lemma_take_state(limiter, rest.drop_last());
            }
            lemma_take_state(limiter, rest);
        }
    }
}

/// While tokens are to be taken, as many events have happened as there are buckets
/// behind.
proof fn lemma_take_state(limiter: ChannelRateLimiter, events: Seq<AcquireEvent>)
    requires
        asked_in_turn(
            limiter,
            acquisition_start(limiter.per_minute is Some, limiter.per_hour is Some),
            events,
        ),
    ensures
        outcome_of(limiter, events) == Acquisition::Take(Window::Minute, false)
            || outcome_of(limiter, events) == Acquisition::Take(Window::Minute, true)
            ==> events.len() == 0,
{
}

/// The tokens that are left after the first `k` of the acquisitions `goes`, one after the
/// other at one instant.
pub open spec fn left_after_goes(
    limiter: ChannelRateLimiter,
    left: TokensLeft,
    goes: Seq<Seq<AcquireEvent>>,
    k: nat,
) -> TokensLeft
    decreases k,
{
    if k == 0 {
        left
    } else {
        left_after_asks(
            left_after_goes(limiter, left, goes, (k - 1) as nat),
            record_of(limiter, goes[k - 1]),
        )
    }
}

/// From buckets of `left` tokens, as many notifications pass at one instant, without any
/// wait, as each bucket has tokens; and the next one has to wait.
pub proof fn law_tokens_pass_as_many_acquisitions(
    limiter: ChannelRateLimiter,
    left: TokensLeft,
    goes: Seq<Seq<AcquireEvent>>,
    k: nat,
)
    requires
        k < goes.len(),
        forall|i: int| 0 <= i < goes.len() ==> one_go(limiter, #[trigger] goes[i]),
        forall|i: int|
            0 <= i < goes.len() ==> as_from(
                left_after_goes(limiter, left, goes, i as nat),
                record_of(limiter, #[trigger] goes[i]),
            ),
        limiter.per_minute is Some ==> k <= left.minute,
        limiter.per_hour is Some ==> k <= left.hour,
    ensures
        (limiter.per_minute is Some ==> k < left.minute) && (limiter.per_hour is Some ==> k
            < left.hour) ==> outcome_of(limiter, goes[k as int]) == Acquisition::Done(false),
        limiter.per_minute is Some && k == left.minute ==> outcome_of(limiter, goes[k as int])
            == Acquisition::Wait(Window::Minute),
        limiter.per_hour is Some && k == left.hour && (limiter.per_minute is Some ==> k
            < left.minute) ==> outcome_of(limiter, goes[k as int]) == Acquisition::Wait(
            Window::Hour,
        ),
{
    lemma_left_after_goes(limiter, left, goes, k);
    law_acquisition_takes_one_token(
        limiter,
        left_after_goes(limiter, left, goes, k),
        goes[k as int],
    );
}

/// Each acquisition leaves one token less, as long as there are tokens.
proof fn lemma_left_after_goes(
    limiter: ChannelRateLimiter,
    left: TokensLeft,
    goes: Seq<Seq<AcquireEvent>>,
    k: nat,
)
    requires
        k <= goes.len(),
        forall|i: int| 0 <= i < goes.len() ==> one_go(limiter, #[trigger] goes[i]),
        forall|i: int|
            0 <= i < goes.len() ==> as_from(
                left_after_goes(limiter, left, goes, i as nat),
                record_of(limiter, #[trigger] goes[i]),
            ),
        limiter.per_minute is Some ==> k <= left.minute,
        limiter.per_hour is Some ==> k <= left.hour,
    ensures
        ({
            let after = left_after_goes(limiter, left, goes, k);
            &&& limiter.per_minute is Some ==> after.minute == left.minute - k
            &&& limiter.per_hour is Some ==> after.hour == left.hour - k
        }),
    decreases k,
{
    if k > 0 {
        let before = (k - 1) as nat;
        lemma_left_after_goes(limiter, left, goes, before);
        law_acquisition_takes_one_token(
            limiter,
            left_after_goes(limiter, left, goes, before),
            goes[k - 1],
        );
    }
}

/// A check takes a token from each bucket that has one, also where the other has none,
/// and admits the notification exactly if each bucket had one.
pub proof fn law_check_takes_one_token(
    limiter: ChannelRateLimiter,
    left: TokensLeft,
    minute: Option<bool>,
    hour: Option<bool>,
)
    requires
        answered(limiter.per_minute, minute),
        answered(limiter.per_hour, hour),
        as_from(left, check_asks(minute, hour)),
    ensures
        admitted_by(minute, hour) <==> (limiter.per_minute is Some ==> left.minute > 0) && (
        limiter.per_hour is Some ==> left.hour > 0),
        ({
            let after = left_after_asks(left, check_asks(minute, hour));
            &&& after.minute == if limiter.per_minute is Some && left.minute > 0 {
                (left.minute - 1) as nat
            } else {
                left.minute
            }
            &&& after.hour == if limiter.per_hour is Some && left.hour > 0 {
                (left.hour - 1) as nat
            } else {
                left.hour
            }
        }),
        check_asks(minute, hour).len() <= 2,
        windows(check_asks(minute, hour)) == windows_there(
            limiter.per_minute is Some,
            limiter.per_hour is Some,
        ),
{
    reveal_with_fuel(as_from, 4);
    reveal_with_fuel(left_after_asks, 4);
    let asks = check_asks(minute, hour);
    let none = Seq::<(Window, bool)>::empty();
    assert(windows(asks) =~= windows_there(
        limiter.per_minute is Some,
        limiter.per_hour is Some,
    ));
    match (minute, hour) {
        (Some(m), Some(h)) => {
            let first = (Window::Minute, m);
            let second = (Window::Hour, h);
            assert(asks =~= seq![first, second]);
            assert(seq![first, second].drop_last() =~= seq![first]);
            assert(seq![first].drop_last() =~= none);
        },
        (Some(m), None) => {
            assert(asks =~= seq![(Window::Minute, m)]);
            assert(asks.drop_last() =~= none);
        },
        (None, Some(h)) => {
            assert(asks =~= seq![(Window::Hour, h)]);
            assert(asks.drop_last() =~= none);
        },
        (None, None) => {
            assert(asks =~= none);
        },
    }
}

/// A channel without buckets admits every notification at once.
pub proof fn law_no_bucket_no_wait()
    ensures
        acquisition_start(false, false) == Acquisition::Done(false),
{
}

/// There is a limiter to be made exactly if one of the two limits is given.
pub proof fn law_enabled_by_either_limit(n: u32, other: Option<u32>)
    ensures
        (RateLimitConfig { max_per_minute: Some(n), max_per_hour: other }).enabled(),
        (RateLimitConfig { max_per_minute: other, max_per_hour: Some(n) }).enabled(),
        !(RateLimitConfig { max_per_minute: None, max_per_hour: None }).enabled(),
{
}

} // verus!
