//! Rule scheduling for equality saturation.
//!
//! A [`RewriteScheduler`] decides, each iteration, which rules may fire and
//! observes how many matches each produced. This is how equality saturation
//! stays tractable: a scheduler can throttle rules that match explosively so
//! that cheaper, more targeted rules get a turn.

use super::lang::Language;
use super::readers::capped;
use super::ClassData;
use std::collections::HashMap;
use vstd::arithmetic::power2::{lemma2_to64, lemma_pow2_pos, lemma_pow2_unfold, pow2};
use vstd::prelude::*;

verus! {

/// Decides, each iteration, which rules may fire and observes how many matches
/// each produced.
pub trait RewriteScheduler<L: Language, N: ClassData>: Sized {
    /// Rule `rule_idx` is going to be enabled on `iter`, whatever the
    /// scheduler learns of other rules before.
    open spec fn sure(&self, iter: usize, rule_idx: usize) -> bool {
        false
    }

    /// When asked about rule `rule_idx`, called `name`, on `iter`, the scheduler
    /// may answer `enabled` and become `after`.
    open spec fn answers(
        &self,
        iter: usize,
        rule_idx: usize,
        name: Seq<char>,
        enabled: bool,
        after: &Self,
    ) -> bool {
        true
    }

    /// When told that rule `rule_idx`, called `name`, produced `n_matches`
    /// matches on `iter`, the scheduler may become `after`.
    open spec fn told(
        &self,
        iter: usize,
        rule_idx: usize,
        name: Seq<char>,
        n_matches: usize,
        after: &Self,
    ) -> bool {
        true
    }

    /// Return `false` to skip (ban) rule `rule_idx` on this `iter`.
    fn is_enabled(&mut self, iter: usize, rule_idx: usize, name: &str) -> (enabled: bool)
        ensures
            old(self).answers(iter, rule_idx, name@, enabled, final(self)),
            old(self).sure(iter, rule_idx) ==> enabled,
            forall|other: usize|
                other != rule_idx && old(self).sure(iter, other) ==> #[trigger] final(self).sure(
                    iter,
                    other,
                ),
    ;

    /// Observe how many matches rule `rule_idx` produced this `iter`. The
    /// scheduler may use this to ban the rule on future iterations.
    fn on_matches(&mut self, iter: usize, rule_idx: usize, name: &str, n_matches: usize)
        ensures
            old(self).told(iter, rule_idx, name@, n_matches, final(self)),
            forall|other: usize|
                other != rule_idx && old(self).sure(iter, other) ==> #[trigger] final(self).sure(
                    iter,
                    other,
                ),
    ;
}

/// The trivial scheduler: every rule is always enabled.
#[derive(Default)]
pub struct SimpleScheduler;

impl<L: Language, N: ClassData> RewriteScheduler<L, N> for SimpleScheduler {
    open spec fn sure(&self, iter: usize, rule_idx: usize) -> bool {
        true
    }

    open spec fn answers(
        &self,
        iter: usize,
        rule_idx: usize,
        name: Seq<char>,
        enabled: bool,
        after: &Self,
    ) -> bool {
        enabled && *after == *self
    }

    open spec fn told(
        &self,
        iter: usize,
        rule_idx: usize,
        name: Seq<char>,
        n_matches: usize,
        after: &Self,
    ) -> bool {
        *after == *self
    }

    fn is_enabled(&mut self, iter: usize, rule_idx: usize, name: &str) -> bool {
        true
    }

    fn on_matches(&mut self, iter: usize, rule_idx: usize, name: &str, n_matches: usize) {
    }
}

/// Per-rule bookkeeping for [`BackoffScheduler`].
#[derive(Clone, Copy)]
pub struct RuleStats {
    /// The rule is banned for every iteration strictly before this one.
    pub banned_until: usize,
    /// How many times this rule has been banned so far.
    pub times_banned: usize,
    /// If a rule produces more than this many matches in one iteration it gets
    /// banned. The threshold doubles each time.
    pub match_limit: usize,
    /// Base ban duration in iterations; the actual ban doubles with every time
    /// the rule was banned.
    pub ban_length: usize,
}

/// How long a rule is banned that was banned `times` times: `base` doubled as
/// often, at most the largest `usize`.
pub open spec fn ban_of(base: usize, times: usize) -> usize {
    capped(base as nat * pow2(times as nat))
}

/// The bookkeeping after a rule produced `n_matches` matches in iteration
/// `iter`. All counters stop at the largest `usize`.
pub open spec fn observed(stats: RuleStats, iter: usize, n_matches: usize) -> RuleStats {
    if n_matches > stats.match_limit {
        let times = capped(stats.times_banned as nat + 1);
        RuleStats {
            banned_until: capped(iter as nat + 1 + ban_of(stats.ban_length, times) as nat),
            times_banned: times,
            match_limit: capped(stats.match_limit as nat * 2),
            ban_length: stats.ban_length,
        }
    } else {
        stats
    }
}

/// Back-off scheduler. A rule that matches more than its current `match_limit`
/// in a single iteration is banned for an exponentially growing number of
/// iterations, and its threshold is doubled. This tames rules like
/// commutativity that would otherwise match combinatorially and starve the
/// rest of the rule set.
pub struct BackoffScheduler {
    stats: HashMap<usize, RuleStats>,
    default_match_limit: usize,
    default_ban_length: usize,
}

impl BackoffScheduler {
    /// The rules seen so far, with their bookkeeping.
    pub closed spec fn book(&self) -> Map<usize, RuleStats> {
        self.stats@
    }

    /// The match threshold and the ban length for rules not seen yet.
    pub closed spec fn limits(&self) -> (usize, usize) {
        (self.default_match_limit, self.default_ban_length)
    }

    /// The bookkeeping of rule `idx`.
    pub open spec fn stats_of(&self, idx: usize) -> RuleStats {
        if self.book().contains_key(idx) {
            self.book()[idx]
        } else {
            RuleStats {
                banned_until: 0,
                times_banned: 0,
                match_limit: self.limits().0,
                ban_length: self.limits().1,
            }
        }
    }
}

impl Default for BackoffScheduler {
    fn default() -> (scheduler: Self)
        ensures
            scheduler.book() == Map::<usize, RuleStats>::empty(),
            scheduler.limits() == (1000usize, 2usize),
    {
        BackoffScheduler {
            stats: HashMap::new(),
            default_match_limit: 1_000,
            default_ban_length: 2,
        }
    }
}

/// `base` doubled `times` times, at most the largest `usize`.
fn ban_iterations(base: usize, times: usize) -> (ban: usize)
    ensures
        ban == ban_of(base, times),
{
    let mut ban: usize = base;
    let mut i: usize = 0;
    proof {
        lemma2_to64();
    }
    while i < times && 0 < ban && ban < usize::MAX
        invariant
            i <= times,
            ban == ban_of(base, i),
        decreases times - i,
    {
        proof {
            lemma_pow2_unfold((i + 1) as nat);
            assert(base as nat * pow2((i + 1) as nat) == 2 * (base as nat * pow2(i as nat)))
                by (nonlinear_arith)
                requires
                    pow2((i + 1) as nat) == 2 * pow2(i as nat),
            ;
        }
        ban = ban.saturating_add(ban);
        i = i + 1;
    }
    proof {
        if ban == 0 {
            lemma_pow2_pos(i as nat);
            assert(base == 0) by (nonlinear_arith)
                requires
                    base as nat * pow2(i as nat) == 0,
                    pow2(i as nat) > 0,
            ;
            assert(0 * pow2(times as nat) == 0) by (nonlinear_arith);
        } else if ban == usize::MAX {
            lemma_ban_stays(base, i, times);
        }
    }
    ban
}

/// A ban of the largest length stays that long.
proof fn lemma_ban_stays(base: usize, i: usize, times: usize)
    requires
        i <= times,
        ban_of(base, i) == usize::MAX,
    ensures
        ban_of(base, times) == usize::MAX,
    decreases times - i,
{
    if i < times {
        lemma_pow2_unfold((i + 1) as nat);
        assert(base as nat * pow2((i + 1) as nat) == 2 * (base as nat * pow2(i as nat)))
            by (nonlinear_arith)
            requires
                pow2((i + 1) as nat) == 2 * pow2(i as nat),
        ;
        lemma_ban_stays(base, (i + 1) as usize, times);
    }
}

impl BackoffScheduler {
    /// Set the default match threshold applied to every rule.
    pub fn with_match_limit(self, limit: usize) -> (scheduler: Self)
        ensures
            scheduler.book() == self.book(),
            scheduler.limits() == (limit, self.limits().1),
    {
        BackoffScheduler {
            stats: self.stats,
            default_match_limit: limit,
            default_ban_length: self.default_ban_length,
        }
    }

    /// Set the base ban length (in iterations) applied to every rule.
    pub fn with_ban_length(self, length: usize) -> (scheduler: Self)
        ensures
            scheduler.book() == self.book(),
            scheduler.limits() == (self.limits().0, length),
    {
        BackoffScheduler {
            stats: self.stats,
            default_match_limit: self.default_match_limit,
            default_ban_length: length,
        }
    }

    /// The bookkeeping of rule `idx`, which is made on first use.
    fn stats_for(&mut self, idx: usize) -> (stats: RuleStats)
        ensures
            stats == old(self).stats_of(idx),
            final(self).book() == old(self).book().insert(idx, stats),
            final(self).limits() == old(self).limits(),
    {
        if let Some(stats) = self.stats.get(&idx) {
            let stats = *stats;
            assert(self.book().insert(idx, stats) =~= self.book());
            return stats;
        }
        let stats = RuleStats {
            banned_until: 0,
            times_banned: 0,
            match_limit: self.default_match_limit,
            ban_length: self.default_ban_length,
        };
        self.stats.insert(idx, stats);
        stats
    }

    /// Whether rule `rule_idx` may fire in iteration `iter`.
    pub fn allows(&mut self, iter: usize, rule_idx: usize) -> (enabled: bool)
        ensures
            enabled == (iter >= old(self).stats_of(rule_idx).banned_until),
            final(self).book() == old(self).book().insert(rule_idx, old(self).stats_of(rule_idx)),
            final(self).limits() == old(self).limits(),
    {
        iter >= self.stats_for(rule_idx).banned_until
    }

    /// Take note of how many matches rule `rule_idx` produced in iteration
    /// `iter`.
    pub fn observe(&mut self, iter: usize, rule_idx: usize, n_matches: usize)
        ensures
            final(self).book() == old(self).book().insert(
                rule_idx,
                observed(old(self).stats_of(rule_idx), iter, n_matches),
            ),
            final(self).limits() == old(self).limits(),
    {
        let stats = self.stats_for(rule_idx);
        if n_matches > stats.match_limit {
            let times_banned = stats.times_banned.saturating_add(1);
            let ban = ban_iterations(stats.ban_length, times_banned);
            let next = RuleStats {
                banned_until: iter.saturating_add(1).saturating_add(ban),
                times_banned,
                // Raise the bar so that the rule may match more next time.
                match_limit: stats.match_limit.saturating_add(stats.match_limit),
                ban_length: stats.ban_length,
            };
            self.stats.insert(rule_idx, next);
        }
        assert(self.book() =~= old(self).book().insert(
            rule_idx,
            observed(old(self).stats_of(rule_idx), iter, n_matches),
        ));
    }
}

impl<L: Language, N: ClassData> RewriteScheduler<L, N> for BackoffScheduler {
    open spec fn sure(&self, iter: usize, rule_idx: usize) -> bool {
        iter >= self.stats_of(rule_idx).banned_until
    }

    open spec fn answers(
        &self,
        iter: usize,
        rule_idx: usize,
        name: Seq<char>,
        enabled: bool,
        after: &Self,
    ) -> bool {
        &&& enabled == (iter >= self.stats_of(rule_idx).banned_until)
        &&& after.book() == self.book().insert(rule_idx, self.stats_of(rule_idx))
        &&& after.limits() == self.limits()
    }

    open spec fn told(
        &self,
        iter: usize,
        rule_idx: usize,
        name: Seq<char>,
        n_matches: usize,
        after: &Self,
    ) -> bool {
        &&& after.book() == self.book().insert(
            rule_idx,
            observed(self.stats_of(rule_idx), iter, n_matches),
        )
        &&& after.limits() == self.limits()
    }

    fn is_enabled(&mut self, iter: usize, rule_idx: usize, name: &str) -> bool
        returns
            iter >= old(self).stats_of(rule_idx).banned_until,
    {
        self.allows(iter, rule_idx)
    }

    fn on_matches(&mut self, iter: usize, rule_idx: usize, name: &str, n_matches: usize)
        ensures
            final(self).book() == old(self).book().insert(
                rule_idx,
                observed(old(self).stats_of(rule_idx), iter, n_matches),
            ),
            final(self).limits() == old(self).limits(),
    {
        self.observe(iter, rule_idx, n_matches)
    }
}

/// A rule that matches too much is banned for longer than the time before, as
/// long as the counters can still grow.
pub proof fn law_bans_grow(stats: RuleStats, iter: usize, n_matches: usize)
    requires
        n_matches > stats.match_limit,
        stats.ban_length > 0,
        stats.times_banned < usize::MAX,
        ban_of(stats.ban_length, stats.times_banned) < usize::MAX,
    ensures
        observed(stats, iter, n_matches).times_banned == stats.times_banned + 1,
        ban_of(stats.ban_length, observed(stats, iter, n_matches).times_banned) > ban_of(
            stats.ban_length,
            stats.times_banned,
        ),
        observed(stats, iter, n_matches).match_limit >= stats.match_limit,
{
    let (base, times) = (stats.ban_length, stats.times_banned);
    lemma_pow2_unfold((times + 1) as nat);
    lemma_pow2_pos(times as nat);
    assert(base as nat * pow2((times + 1) as nat) == 2 * (base as nat * pow2(times as nat)))
        by (nonlinear_arith)
        requires
            pow2((times + 1) as nat) == 2 * pow2(times as nat),
    ;
    assert(base as nat * pow2(times as nat) > 0) by (nonlinear_arith)
        requires
            base > 0,
            pow2(times as nat) > 0,
    ;
}

/// A banned rule stays disabled for as many iterations as it is banned.
pub proof fn law_ban_lasts(stats: RuleStats, iter: usize, n_matches: usize, later: usize)
    requires
        n_matches > stats.match_limit,
        iter < later < usize::MAX,
        later - iter <= ban_of(stats.ban_length, observed(stats, iter, n_matches).times_banned),
    ensures
        later < observed(stats, iter, n_matches).banned_until,
{
}

/// What a rule's matches lead to. Up to its threshold nothing happens. Beyond
/// it the rule is banned once more: the threshold doubles, and the rule is
/// disabled from the next iteration on for its base length doubled as often as
/// it was banned by then. No number goes beyond the largest `usize`.
pub proof fn law_ban_is_exponential(stats: RuleStats, iter: usize, n_matches: usize)
    ensures
        n_matches <= stats.match_limit ==> observed(stats, iter, n_matches) == stats,
        n_matches > stats.match_limit ==> {
            let after = observed(stats, iter, n_matches);
            let ban = stats.ban_length * pow2((stats.times_banned + 1) as nat);
            &&& after.ban_length == stats.ban_length
            &&& stats.times_banned < usize::MAX ==> after.times_banned == stats.times_banned + 1
            &&& stats.times_banned == usize::MAX ==> after.times_banned == usize::MAX
            &&& 2 * stats.match_limit <= usize::MAX ==> after.match_limit == 2 * stats.match_limit
            &&& 2 * stats.match_limit > usize::MAX ==> after.match_limit == usize::MAX
            &&& stats.times_banned < usize::MAX && iter + 1 + ban <= usize::MAX
                ==> after.banned_until == iter + 1 + ban
            &&& stats.times_banned < usize::MAX && iter + 1 + ban > usize::MAX
                ==> after.banned_until == usize::MAX
        },
{
    if n_matches > stats.match_limit && stats.times_banned < usize::MAX {
        let times = (stats.times_banned + 1) as nat;
        assert(stats.ban_length * pow2(times) == stats.ban_length as nat * pow2(times));
        assert(stats.ban_length * pow2(times) >= 0) by (nonlinear_arith)
            requires
                stats.ban_length >= 0,
                pow2(times) >= 0,
        ;
    }
}

/// A rule that was not seen yet was never banned, and has the threshold and the
/// ban length that are set for all rules.
pub proof fn law_unseen_rule(scheduler: &BackoffScheduler, idx: usize)
    requires
        !scheduler.book().contains_key(idx),
    ensures
        scheduler.stats_of(idx).banned_until == 0,
        scheduler.stats_of(idx).times_banned == 0,
        scheduler.stats_of(idx).match_limit == scheduler.limits().0,
        scheduler.stats_of(idx).ban_length == scheduler.limits().1,
{
}

/// What one rule's matches lead to leaves all other rules alone, and the rule is
/// asked about by what was noted last.
pub proof fn law_rules_are_apart<L: Language, N: ClassData>(
    before: &BackoffScheduler,
    after: &BackoffScheduler,
    iter: usize,
    idx: usize,
    name: Seq<char>,
    n_matches: usize,
    other: usize,
)
    requires
        RewriteScheduler::<L, N>::told(before, iter, idx, name, n_matches, after),
    ensures
        other != idx ==> after.stats_of(other) == before.stats_of(other),
        after.stats_of(idx) == observed(before.stats_of(idx), iter, n_matches),
{
}

/// A rule may fire exactly in the iterations from the end of its ban on, and
/// asking changes nothing for any rule.
pub proof fn law_asking_changes_nothing<L: Language, N: ClassData>(
    before: &BackoffScheduler,
    after: &BackoffScheduler,
    iter: usize,
    idx: usize,
    name: Seq<char>,
    enabled: bool,
    other: usize,
)
    requires
        RewriteScheduler::<L, N>::answers(before, iter, idx, name, enabled, after),
    ensures
        enabled <==> iter >= before.stats_of(idx).banned_until,
        after.stats_of(other) == before.stats_of(other),
{
}

/// The simple scheduler enables every rule in every iteration, whatever it is
/// told.
pub proof fn law_simple_enables_all<L: Language, N: ClassData>(
    before: &SimpleScheduler,
    after: &SimpleScheduler,
    iter: usize,
    idx: usize,
    name: Seq<char>,
    enabled: bool,
)
    requires
        RewriteScheduler::<L, N>::answers(before, iter, idx, name, enabled, after),
    ensures
        enabled,
        RewriteScheduler::<L, N>::sure(before, iter, idx),
{
}

} // verus!
