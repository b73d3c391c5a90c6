use vstd::prelude::*;

verus! {

/// How many matches a rule may find in one search before it is banned, when
/// it has never been banned.
pub const INITIAL_MATCH_LIMIT: usize = 1000;

/// For how many iterations a rule is banned the first time.
pub const INITIAL_BAN_LENGTH: usize = 5;

/// What the backoff scheduler remembers of one rewrite rule.
pub struct RuleStats {
    /// The rule is not searched before this iteration.
    pub banned_until: usize,
    /// How often the rule has been banned so far.
    pub times_banned: usize,
    pub match_limit: usize,
    pub ban_length: usize,
}

/// The rule is banned in `iteration`.
pub open spec fn banned_at(s: RuleStats, iteration: int) -> bool {
    iteration < s.banned_until
}

/// How many matches a search of the rule may find before it is banned: the
/// match limit, doubled for every earlier ban (bits shifted out are lost).
pub open spec fn threshold_of(s: RuleStats) -> usize {
    s.match_limit << s.times_banned
}

/// How long the next ban lasts: the ban length, doubled for every earlier
/// ban (bits shifted out are lost).
pub open spec fn next_ban_length(s: RuleStats) -> usize {
    s.ban_length << s.times_banned
}

/// The stats after banning the rule in `iteration`.
pub open spec fn after_ban(s: RuleStats, iteration: int) -> RuleStats {
    RuleStats {
        banned_until: (iteration + next_ban_length(s)) as usize,
        times_banned: (s.times_banned + 1) as usize,
        match_limit: s.match_limit,
        ban_length: s.ban_length,
    }
}

/// The rule can be banned in `iteration` without a shift or an addition
/// going out of range.
pub open spec fn can_ban(s: RuleStats, iteration: int) -> bool {
    &&& s.times_banned < usize::BITS
    &&& iteration + next_ban_length(s) <= usize::MAX
}

impl RuleStats {
    /// The stats of a rule that has never been searched.
    pub fn new() -> (s: RuleStats)
        ensures
            s.banned_until == 0,
            s.times_banned == 0,
            s.match_limit == INITIAL_MATCH_LIMIT,
            s.ban_length == INITIAL_BAN_LENGTH,
    {
        RuleStats {
            banned_until: 0,
            times_banned: 0,
            match_limit: INITIAL_MATCH_LIMIT,
            ban_length: INITIAL_BAN_LENGTH,
        }
    }

    /// Whether the rule is banned in `iteration`.
    pub fn is_banned(&self, iteration: usize) -> (b: bool)
        ensures
            b == banned_at(*self, iteration as int),
    {
        iteration < self.banned_until
    }

    /// How many matches a search of the rule may find before it is banned.
    pub fn threshold(&self) -> (t: usize)
        requires
            self.times_banned < usize::BITS,
        ensures
            t == threshold_of(*self),
    {
        self.match_limit << self.times_banned
    }

    /// Bans the rule, from `iteration` on, for the next ban length; later
    /// bans last twice as long and allow twice as many matches.
    pub fn ban(&mut self, iteration: usize)
        requires
            can_ban(*old(self), iteration as int),
        ensures
            *final(self) == after_ban(*old(self), iteration as int),
    {
        let ban_length = self.ban_length << self.times_banned;
        self.times_banned = self.times_banned + 1;
        self.banned_until = iteration + ban_length;
    }
}

/// The state of one backoff search of a rule over the e-classes: the
/// threshold for this search, the number of substitutions found so far and
/// the number of e-classes where something was found.
pub struct MatchBudget {
    pub threshold: usize,
    pub total: usize,
    pub n_matches: usize,
}

/// What a backoff search does next, after the e-class it has just searched.
pub enum SearchStep {
    /// Go on with the next e-class.
    Continue,
    /// The rule found too many matches: it is banned, and this search finds
    /// nothing.
    Banned,
}

impl MatchBudget {
    /// Starts a search of a rule in `iteration`: `None` when the rule is
    /// banned, and otherwise a budget of the rule's threshold with nothing
    /// found yet.
    pub fn start(stats: &RuleStats, iteration: usize) -> (b: Option<MatchBudget>)
        requires
            !banned_at(*stats, iteration as int) ==> stats.times_banned < usize::BITS,
        ensures
            b is None <==> banned_at(*stats, iteration as int),
            b matches Some(m) ==> m.threshold == threshold_of(*stats) && m.total == 0 && m.n_matches
                == 0,
    {
        if stats.is_banned(iteration) {
            None
        } else {
            Some(MatchBudget { threshold: stats.threshold(), total: 0, n_matches: 0 })
        }
    }

    /// The limit for the search of the next e-class: what is left of the
    /// threshold after the e-classes that had matches, plus one (saturating).
    pub fn local_limit(&self) -> (l: usize)
        requires
            self.n_matches <= self.threshold,
        ensures
            l == if self.threshold - self.n_matches == usize::MAX {
                usize::MAX as int
            } else {
                self.threshold - self.n_matches + 1
            },
    {
        (self.threshold - self.n_matches).saturating_add(1)
    }

    /// Records that the search of an e-class found `n_substs`
    /// substitutions (`found` tells whether it returned a match at all).
    /// When the total goes over the threshold, the rule is banned in
    /// `iteration`.
    pub fn record(&mut self, stats: &mut RuleStats, iteration: usize, found: bool, n_substs: usize) -> (step:
        SearchStep)
        requires
            old(self).total + n_substs <= usize::MAX,
            old(self).total + n_substs > old(self).threshold ==> can_ban(*old(stats), iteration as int),
            old(self).n_matches < usize::MAX,
        ensures
            final(self).total == old(self).total + n_substs,
            final(self).threshold == old(self).threshold,
            step is Banned <==> final(self).total > old(self).threshold,
            step is Banned ==> *final(stats) == after_ban(*old(stats), iteration as int)
                && final(self).n_matches == old(self).n_matches,
            step is Continue ==> *final(stats) == *old(stats) && final(self).n_matches
                == old(self).n_matches + if found {
                1int
            } else {
                0int
            },
    {
        self.total = self.total + n_substs;
        if self.total > self.threshold {
            stats.ban(iteration);
            SearchStep::Banned
        } else {
            if found {
                self.n_matches = self.n_matches + 1;
            }
            SearchStep::Continue
        }
    }
}

/// A banned rule stays banned from the iteration of the ban on, for as many
/// iterations as the ban length doubled once for each earlier ban.
pub proof fn law_ban_lasts(s: RuleStats, iteration: int, later: int)
    requires
        can_ban(s, iteration),
        iteration <= later < iteration + next_ban_length(s),
    ensures
        banned_at(after_ban(s, iteration), later),
{
}

/// Each ban doubles the threshold of the next search and the length of the
/// next ban (as long as nothing is shifted out).
pub proof fn law_ban_doubles(s: RuleStats, iteration: int)
    requires
        can_ban(s, iteration),
        s.times_banned + 1 < usize::BITS,
        threshold_of(s) * 2 <= usize::MAX,
        next_ban_length(s) * 2 <= usize::MAX,
    ensures
        threshold_of(after_ban(s, iteration)) == threshold_of(s) * 2,
        next_ban_length(after_ban(s, iteration)) == next_ban_length(s) * 2,
{
    let t = s.times_banned;
    let m = s.match_limit;
    let b = s.ban_length;
    let t1 = (t + 1) as usize;
    let x = m << t;
    let y = b << t;
    assert(x * 2 == (x * 2) as usize);
    assert(y * 2 == (y * 2) as usize);
    assert((m << t1) == x * 2) by (bit_vector)
        requires
            t1 == t + 1,
            t1 < usize::BITS,
            x == m << t,
            x * 2 == (x * 2) as usize,
    ;
    assert((b << t1) == y * 2) by (bit_vector)
        requires
            t1 == t + 1,
            t1 < usize::BITS,
            y == b << t,
            y * 2 == (y * 2) as usize,
    ;
}

/// While a search goes on, the e-classes that had matches are no more than
/// the substitutions found, and those no more than the threshold, as long
/// as every match holds a substitution; so the limit for the next e-class
/// is always defined.
pub proof fn law_search_stays_within_threshold(
    threshold: int,
    total: int,
    n_matches: int,
    found: bool,
    n_substs: int,
)
    requires
        0 <= n_matches <= total <= threshold,
        found ==> n_substs >= 1,
        n_substs >= 0,
        total + n_substs <= threshold,
    ensures
        n_matches + (if found {
            1int
        } else {
            0int
        }) <= total + n_substs <= threshold,
{
}

/// A rule banned in `iteration` stays banned exactly in the iterations before
/// `iteration` plus the ban length doubled once for each earlier ban; the ban
/// counts one more ban and keeps the limits.
pub proof fn law_ban_ends_exactly(s: RuleStats, iteration: int, later: int)
    requires
        can_ban(s, iteration),
        0 <= iteration,
    ensures
        banned_at(after_ban(s, iteration), later) <==> later < iteration + (s.ban_length << s.times_banned),
        after_ban(s, iteration).times_banned == s.times_banned + 1,
        after_ban(s, iteration).match_limit == s.match_limit,
        after_ban(s, iteration).ban_length == s.ban_length,
{
}

} // verus!
