//! Selection of the wallets that are followed.

pub mod accuracy;
pub mod bayes;
pub mod scoring;

use self::scoring::{
    composite, compute_score, conservative_win_rate, count_wins, lowered, posterior,
    posterior_variance, posterior_win_rate, profits, score_of, share, spread, win_rate,
    TraderProfile,
};
use crate::clock::Timestamp;
use crate::config::Config;
use crate::double::Double;
use crate::quantity::Quantity;
use vstd::prelude::*;

verus! {

/// What the resolved trades of a candidate say.
#[derive(Clone, Copy, Debug)]
pub struct Assessment {
    /// How many trades were profitable.
    pub wins: usize,
    /// How many trades were resolved.
    pub resolved_trade_count: i32,
    /// Share of profitable trades.
    pub win_rate: Double,
    /// Win rate with the prior taken into account.
    pub posterior_win_rate: Double,
    /// Variance of the win rate around that.
    pub variance: Double,
    /// Ranking score.
    pub score: Double,
}

/// Whether an assessment is that of the given results and exponentials.
pub open spec fn is_assessment(
    a: Assessment,
    results: Seq<Quantity>,
    pnl_decay: Double,
    volume_decay: Double,
    config: Config,
) -> bool {
    let n = results.len();
    &&& a.wins == profits(results)
    &&& a.resolved_trade_count == n
    &&& a.win_rate == share(profits(results), n)
    &&& a.posterior_win_rate == posterior(
        profits(results),
        n,
        config.bayes_prior_alpha,
        config.bayes_prior_beta,
    )
    &&& a.variance == spread(
        a.posterior_win_rate,
        n,
        config.bayes_prior_alpha,
        config.bayes_prior_beta,
    )
    &&& a.score == composite(pnl_decay, a.win_rate, volume_decay)
}

/// Assesses a candidate by the results of its resolved trades, given the
/// exponentials of its profit and volume; gives nothing if it has too few.
pub fn assess(
    results: &Vec<Quantity>,
    pnl_decay: Double,
    volume_decay: Double,
    config: &Config,
) -> (r: Option<Assessment>)
    requires
        results@.len() <= i32::MAX,
    ensures
        r is None <==> results@.len() < config.min_resolved_trades,
        r is Some <==> score_of(
            pnl_decay,
            share(profits(results@), results@.len()),
            volume_decay,
            results@.len() as int,
            config.min_resolved_trades as int,
        ) is Some,
        r matches Some(a) ==> is_assessment(a, results@, pnl_decay, volume_decay, *config),
{
    let wins: usize = count_wins(results);
    let trades: usize = results.len();
    let rate = win_rate(wins, trades);
    let resolved_trade_count: i32 = trades as i32;
    let mean = posterior_win_rate(wins, trades, config.bayes_prior_alpha, config.bayes_prior_beta);
    let variance = posterior_variance(mean, trades, config.bayes_prior_alpha, config.bayes_prior_beta);
    match compute_score(
        pnl_decay,
        rate,
        volume_decay,
        resolved_trade_count,
        config.min_resolved_trades,
    ) {
        Some(score) => Some(
            Assessment {
                wins,
                resolved_trade_count,
                win_rate: rate,
                posterior_win_rate: mean,
                variance,
                score,
            },
        ),
        None => None,
    }
}

/// Whether a profile has the figures of an assessment, with the win rate lowered by the
/// standard deviation.
pub open spec fn is_profile(
    profile: TraderProfile,
    assessment: Assessment,
    deviation: Double,
    config: Config,
) -> bool {
    &&& profile.win_rate == assessment.win_rate
    &&& profile.posterior_win_rate == assessment.posterior_win_rate
    &&& profile.conservative_win_rate == lowered(
        assessment.posterior_win_rate,
        config.bayes_confidence_z,
        deviation,
    )
    &&& profile.wins == assessment.wins
    &&& profile.resolved_trade_count == assessment.resolved_trade_count
    &&& profile.score == assessment.score
}

/// The profile of a candidate, given the standard deviation of its win rate and
/// the tokens that it holds.
pub fn profile(
    address: String,
    period_pnl: Quantity,
    volume: Quantity,
    assessment: Assessment,
    deviation: Double,
    active_asset_ids: Vec<String>,
    updated_at: Timestamp,
    config: &Config,
) -> (r: TraderProfile)
    ensures
        is_profile(r, assessment, deviation, *config),
        r.address == address,
        r.period_pnl == period_pnl,
        r.volume == volume,
        r.active_asset_ids == active_asset_ids,
        r.updated_at == updated_at,
{
    TraderProfile {
        address,
        period_pnl,
        win_rate: assessment.win_rate,
        posterior_win_rate: assessment.posterior_win_rate,
        conservative_win_rate: conservative_win_rate(
            assessment.posterior_win_rate,
            config.bayes_confidence_z,
            deviation,
        ),
        wins: assessment.wins,
        resolved_trade_count: assessment.resolved_trade_count,
        volume,
        score: assessment.score,
        active_asset_ids,
        updated_at,
    }
}

} // verus!
