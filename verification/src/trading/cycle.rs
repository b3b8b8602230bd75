//! One look at the wallets that are followed: which are worth looking at, which
//! of their trades are new, and what becomes of each.
//!
//! The look goes on step by step. Where a step needs something from outside (an
//! address to be parsed, a page of trades, a step of a live order), it asks for
//! it and is told what came of it; where it does not, it is simply continued.

use crate::clock::Timestamp;
use crate::config::Config;
use crate::investigation::scoring::TraderProfile;
use crate::state::model::{after_skip, after_trade, date_of, Books, Trade};
use crate::state::{counters_have_room, BotState};
use crate::table::texts;
use crate::text::optional_text;
use crate::trading::decision::{reason_text, verdict, CopyPlan, SkipReason, Verdict};
use crate::trading::live::{self, live_step, LiveOrder, Stage};
use crate::trading::runtime::{
    closed_batch, continues, is_new, key_text, pruned, received, seen_of, trade_key, with_seen,
    Memory, Receipt, TradeFeed, TradingRuntime, WhaleTrade, MAX_TRADE_PAGES, TRADE_PAGE_LIMIT,
};
use crate::trading::{
    admit_whale, after_copy, begin_cycle, copied, cycle_block, gate, judge_trade, judgement, listed,
    record_copy, record_skip_reason, situation, Outcome, WhaleGate,
};
use vstd::prelude::*;

verus! {

/// How far a look has come.
#[derive(Clone, Copy, Debug, PartialEq, Eq, Structural)]
pub enum Phase {
    /// It has not begun.
    Start,
    /// The next wallet is up.
    Whale,
    /// The address of the wallet is being parsed.
    Address,
    /// A page of its trades is being fetched.
    Fetching,
    /// Its new trades are being judged.
    Judging,
    /// An order is being placed.
    Placing,
    /// It is over.
    Over,
}

/// What came of the last step.
#[derive(Debug)]
pub enum CycleEvent {
    /// Nothing was asked for.
    Go,
    /// Whether the address of the wallet is one.
    AddressParsed(bool),
    /// A page of its trades, newest first.
    Page(Vec<WhaleTrade>),
    /// The page could not be fetched.
    PageFailed,
    /// What came of a step of the order.
    Order(live::Event),
}

/// What is to be done next.
#[derive(Clone, Copy, Debug)]
pub enum CycleAction {
    /// Continue.
    Continue,
    /// Parse the address of the wallet.
    ParseAddress,
    /// Fetch the page of its trades at an offset.
    FetchPage(i32),
    /// Find out whether there are credentials and whether the token of the
    /// trade is known.
    PrepareOrder,
    /// Do a step of the order.
    Order(live::Action),
    /// The look is over.
    Finished,
    /// Nothing: the event does not belong to the step.
    Nothing,
}

/// A look at the wallets that are followed, as mathematics.
#[verifier::ext_equal]
pub struct Look {
    pub phase: Phase,
    pub whales: Seq<TraderProfile>,
    pub index: int,
    pub triggered: Option<Seq<char>>,
    pub begun_at: Timestamp,
    pub unseen: Seq<WhaleTrade>,
    pub offset: int,
    pub pages: int,
    pub processed: Seq<Seq<char>>,
    pub current: Option<WhaleTrade>,
    pub order: Option<LiveOrder>,
}

/// A look, the books and the memory, and what is to be done next.
pub type Step = (Look, Books, Memory, CycleAction);

/// The look when it is over.
pub open spec fn ended(look: Look) -> Look {
    Look { phase: Phase::Over, ..look }
}

/// The look with the next wallet up.
pub open spec fn at_next_whale(look: Look) -> Look {
    Look {
        phase: Phase::Whale,
        index: look.index + 1,
        unseen: Seq::empty(),
        offset: 0,
        pages: 0,
        processed: Seq::empty(),
        current: None,
        order: None,
        ..look
    }
}

/// The books with a skipped signal counted.
pub open spec fn skipped(books: Books, reason: SkipReason, at: Timestamp) -> Books {
    after_skip(books, reason_text(reason), at)
}

/// The beginning: no trade is made while a risk limit is reached; else what is
/// out of date is forgotten.
pub open spec fn start_step(look: Look, books: Books, memory: Memory, config: Config, at: Timestamp) -> Step {
    match cycle_block(books, config) {
        Some(reason) => (ended(look), skipped(books, reason, at), memory, CycleAction::Finished),
        None => (
            Look { phase: Phase::Whale, index: 0, begun_at: at, ..look },
            books,
            pruned(memory, look.whales, at),
            CycleAction::Continue,
        ),
    }
}

/// The next wallet: it is left out if it does not hold the token whose order
/// book changed, or if its profile is too old.
pub open spec fn whale_step(look: Look, books: Books, memory: Memory, at: Timestamp) -> Step {
    if look.index >= look.whales.len() {
        (ended(look), books, memory, CycleAction::Finished)
    } else {
        match gate(look.whales[look.index], look.triggered, look.begun_at) {
            WhaleGate::Ignore => (at_next_whale(look), books, memory, CycleAction::Continue),
            WhaleGate::Skip(reason) => (
                at_next_whale(look),
                skipped(books, reason, at),
                memory,
                CycleAction::Continue,
            ),
            WhaleGate::Proceed => (
                Look { phase: Phase::Address, ..look },
                books,
                memory,
                CycleAction::ParseAddress,
            ),
        }
    }
}

/// Its address: a wallet without one is left out.
pub open spec fn address_step(look: Look, books: Books, memory: Memory, valid: bool, at: Timestamp) -> Step {
    let wallet = look.whales[look.index].address@;
    if valid {
        (
            Look { phase: Phase::Fetching, unseen: Seq::empty(), offset: 0, pages: 0, ..look },
            books,
            with_seen(memory, wallet, seen_of(memory, wallet)),
            CycleAction::FetchPage(0),
        )
    } else {
        (
            at_next_whale(look),
            skipped(books, SkipReason::InvalidWhaleAddress, at),
            memory,
            CycleAction::Continue,
        )
    }
}

/// A page of its trades: new ones are collected until one is known, a page is
/// not full, or enough pages were looked at.
pub open spec fn page_step(
    look: Look,
    books: Books,
    memory: Memory,
    page: Seq<WhaleTrade>,
    at: Timestamp,
) -> Step {
    let wallet = look.whales[look.index].address@;
    let seen = seen_of(memory, wallet);
    let unseen = look.unseen + page.filter(is_new(seen));
    let pages = look.pages + 1;
    if continues(page, seen, pages) {
        (
            Look { unseen, pages, offset: look.offset + TRADE_PAGE_LIMIT, ..look },
            books,
            memory,
            CycleAction::FetchPage((look.offset + TRADE_PAGE_LIMIT) as i32),
        )
    } else {
        let (receipt, after) = received(memory, wallet, unseen);
        match receipt {
            Receipt::Nothing => (at_next_whale(look), books, after, CycleAction::Continue),
            Receipt::Primed => (
                at_next_whale(look),
                skipped(books, SkipReason::PrimedHistoricalBackfill, at),
                after,
                CycleAction::Continue,
            ),
            Receipt::Process => (
                Look { phase: Phase::Judging, unseen, pages, processed: Seq::empty(), ..look },
                books,
                after,
                CycleAction::Continue,
            ),
        }
    }
}

/// The oldest of its new trades that is left, unless one with its key was judged
/// before; when none is left, the wallet is done with.
pub open spec fn judge_step(look: Look, books: Books, memory: Memory, config: Config, at: Timestamp) -> Step {
    let whale = look.whales[look.index];
    if look.unseen.len() == 0 {
        (
            at_next_whale(look),
            books,
            closed_batch(memory, whale.address@, look.processed),
            CycleAction::Continue,
        )
    } else if look.processed.contains(key_text(look.unseen.last())) {
        (Look { unseen: look.unseen.drop_last(), ..look }, books, memory, CycleAction::Continue)
    } else {
        let trade = look.unseen.last();
        let rest = Look {
            unseen: look.unseen.drop_last(),
            processed: look.processed.push(key_text(trade)),
            ..look
        };
        let (outcome, books, memory) = judgement(books, memory, whale, trade, config, at);
        match outcome {
            Outcome::Stopped => (
                ended(rest),
                books,
                closed_batch(memory, whale.address@, rest.processed),
                CycleAction::Finished,
            ),
            Outcome::Order(plan) => (
                Look {
                    phase: Phase::Placing,
                    current: Some(trade),
                    order: Some(LiveOrder { plan, stage: Stage::Prepare }),
                    ..rest
                },
                books,
                memory,
                CycleAction::PrepareOrder,
            ),
            _ => (rest, books, memory, CycleAction::Continue),
        }
    }
}

/// A step of an order: when it was posted the trade is recorded, when it is
/// given up that is counted; either way the next trade is judged.
pub open spec fn order_step(
    look: Look,
    books: Books,
    memory: Memory,
    config: Config,
    event: live::Event,
    at: Timestamp,
) -> Step {
    let order = look.order->0;
    let trade = look.current->0;
    let wallet = look.whales[look.index].address@;
    let (stage, action) = live_step(order.plan, config, order.stage, event);
    let back = Look { phase: Phase::Judging, current: None, order: None, ..look };
    match action {
        live::Action::GiveUp(reason) => (back, skipped(books, reason, at), memory, CycleAction::Continue),
        live::Action::RecordTrade => (
            back,
            after_trade(books, copied(wallet, trade, order.plan, false, at), date_of(at)),
            after_copy(memory, trade, order.plan, at),
            CycleAction::Continue,
        ),
        _ => (
            Look { order: Some(LiveOrder { stage, ..order }), ..look },
            books,
            memory,
            CycleAction::Order(action),
        ),
    }
}

/// What follows from an event.
pub open spec fn cycle_step(
    look: Look,
    books: Books,
    memory: Memory,
    config: Config,
    event: CycleEvent,
    at: Timestamp,
) -> Step {
    match (look.phase, event) {
        (Phase::Start, CycleEvent::Go) => start_step(look, books, memory, config, at),
        (Phase::Whale, CycleEvent::Go) => whale_step(look, books, memory, at),
        (Phase::Address, CycleEvent::AddressParsed(valid)) => address_step(look, books, memory, valid, at),
        (Phase::Fetching, CycleEvent::Page(page)) => page_step(look, books, memory, page@, at),
        (Phase::Fetching, CycleEvent::PageFailed) => (
            at_next_whale(look),
            skipped(books, SkipReason::DataApiError, at),
            memory,
            CycleAction::Continue,
        ),
        (Phase::Judging, CycleEvent::Go) => judge_step(look, books, memory, config, at),
        (Phase::Placing, CycleEvent::Order(event)) => order_step(look, books, memory, config, event, at),
        _ => (look, books, memory, CycleAction::Nothing),
    }
}

/// A look at the wallets that are followed.
#[derive(Debug)]
pub struct Cycle {
    pub phase: Phase,
    pub whales: Vec<TraderProfile>,
    pub index: usize,
    pub triggered: Option<String>,
    pub begun_at: Timestamp,
    pub feed: TradeFeed,
    pub processed: Vec<String>,
    pub current: Option<WhaleTrade>,
    pub order: Option<LiveOrder>,
}

impl View for Cycle {
    type V = Look;

    open spec fn view(&self) -> Look {
        Look {
            phase: self.phase,
            whales: self.whales@,
            index: self.index as int,
            triggered: optional_text(self.triggered),
            begun_at: self.begun_at,
            unseen: self.feed.unseen@,
            offset: self.feed.offset as int,
            pages: self.feed.pages as int,
            processed: texts(self.processed@),
            current: self.current,
            order: self.order,
        }
    }
}

/// Whether a look holds what its phase needs.
pub open spec fn consistent(look: Look) -> bool {
    &&& 0 <= look.index
    &&& look.phase == Phase::Whale ==> look.index <= look.whales.len()
    &&& look.phase == Phase::Address || look.phase == Phase::Fetching || look.phase == Phase::Judging
        || look.phase == Phase::Placing ==> look.index < look.whales.len()
    &&& look.phase == Phase::Fetching ==> 0 <= look.pages < MAX_TRADE_PAGES && look.offset == look.pages
        * TRADE_PAGE_LIMIT
    &&& look.phase == Phase::Placing ==> look.current is Some && look.order is Some
}

impl Cycle {
    /// A look that has not begun, at the given wallets; only at those that hold
    /// the token whose order book changed, if any did.
    pub fn new(whales: Vec<TraderProfile>, triggered_asset_id: Option<String>, at: Timestamp) -> (r: Cycle)
        ensures
            consistent(r@),
            r@ == (Look {
                phase: Phase::Start,
                whales: whales@,
                index: 0,
                triggered: optional_text(triggered_asset_id),
                begun_at: at,
                unseen: Seq::empty(),
                offset: 0,
                pages: 0,
                processed: Seq::empty(),
                current: None,
                order: None,
            }),
    {
        let r = Cycle {
            phase: Phase::Start,
            whales,
            index: 0,
            triggered: triggered_asset_id,
            begun_at: at,
            feed: TradeFeed::new(),
            processed: Vec::new(),
            current: None,
            order: None,
        };
        proof {
            assert(texts(r.processed@) =~= Seq::empty());
        }
        r
    }

    /// Goes on to the next wallet.
    fn advance(&mut self)
        requires
            old(self).index < old(self).whales.len(),
        ensures
            final(self)@ == at_next_whale(old(self)@),
    {
        self.phase = Phase::Whale;
        self.index = self.index + 1;
        self.feed = TradeFeed::new();
        self.processed = Vec::new();
        self.current = None;
        self.order = None;
        proof {
            assert(texts(self.processed@) =~= Seq::empty());
        }
    }

    fn on_start(
        &mut self,
        state: &mut BotState,
        runtime: &mut TradingRuntime,
        config: &Config,
        at: Timestamp,
    ) -> (r: CycleAction)
        requires
            counters_have_room(old(state)@),
        ensures
            (final(self)@, final(state)@, final(runtime)@, r) == start_step(
                old(self)@,
                old(state)@,
                old(runtime)@,
                *config,
                at,
            ),
    {
        if !begin_cycle(state, config, at) {
            self.phase = Phase::Over;
            return CycleAction::Finished;
        }
        runtime.prune(&self.whales, at);
        self.phase = Phase::Whale;
        self.index = 0;
        self.begun_at = at;
        CycleAction::Continue
    }

    fn on_whale(&mut self, state: &mut BotState, at: Timestamp) -> (r: CycleAction)
        requires
            counters_have_room(old(state)@),
            old(self)@.phase == Phase::Whale,
            consistent(old(self)@),
        ensures
            forall|memory: Memory|
                (final(self)@, final(state)@, memory, r) == #[trigger] whale_step(
                    old(self)@,
                    old(state)@,
                    memory,
                    at,
                ),
    {
        if self.index >= self.whales.len() {
            self.phase = Phase::Over;
            return CycleAction::Finished;
        }
        let token = match &self.triggered {
            Some(t) => Some(t.as_str()),
            None => None,
        };
        match admit_whale(state, &self.whales[self.index], token, self.begun_at, at) {
            WhaleGate::Proceed => {
                self.phase = Phase::Address;
                CycleAction::ParseAddress
            },
            _ => {
                self.advance();
                CycleAction::Continue
            },
        }
    }

    fn on_address(
        &mut self,
        state: &mut BotState,
        runtime: &mut TradingRuntime,
        valid: bool,
        at: Timestamp,
    ) -> (r: CycleAction)
        requires
            counters_have_room(old(state)@),
            old(self)@.phase == Phase::Address,
            consistent(old(self)@),
        ensures
            (final(self)@, final(state)@, final(runtime)@, r) == address_step(
                old(self)@,
                old(state)@,
                old(runtime)@,
                valid,
                at,
            ),
    {
        if valid {
            runtime.open_wallet(self.whales[self.index].address.as_str());
            self.feed = TradeFeed::new();
            self.phase = Phase::Fetching;
            CycleAction::FetchPage(0)
        } else {
            record_skip_reason(state, SkipReason::InvalidWhaleAddress, at);
            self.advance();
            CycleAction::Continue
        }
    }

    fn on_page(
        &mut self,
        state: &mut BotState,
        runtime: &mut TradingRuntime,
        page: Vec<WhaleTrade>,
        at: Timestamp,
    ) -> (r: CycleAction)
        requires
            counters_have_room(old(state)@),
            old(self)@.phase == Phase::Fetching,
            consistent(old(self)@),
        ensures
            (final(self)@, final(state)@, final(runtime)@, r) == page_step(
                old(self)@,
                old(state)@,
                old(runtime)@,
                page@,
                at,
            ),
    {
        let seen = runtime.seen_trades_of(self.whales[self.index].address.as_str());
        if self.feed.take_page(page, &seen) {
            return CycleAction::FetchPage(self.feed.offset);
        }
        match runtime.receive(self.whales[self.index].address.as_str(), &self.feed.unseen) {
            Receipt::Nothing => {
                self.advance();
            },
            Receipt::Primed => {
                record_skip_reason(state, SkipReason::PrimedHistoricalBackfill, at);
                self.advance();
            },
            Receipt::Process => {
                self.phase = Phase::Judging;
                self.processed = Vec::new();
                proof {
                    assert(texts(self.processed@) =~= Seq::empty());
                }
            },
        }
        CycleAction::Continue
    }

    fn on_judge(
        &mut self,
        state: &mut BotState,
        runtime: &mut TradingRuntime,
        config: &Config,
        at: Timestamp,
    ) -> (r: CycleAction)
        requires
            counters_have_room(old(state)@),
            old(self)@.phase == Phase::Judging,
            consistent(old(self)@),
        ensures
            (final(self)@, final(state)@, final(runtime)@, r) == judge_step(
                old(self)@,
                old(state)@,
                old(runtime)@,
                *config,
                at,
            ),
    {
        let trade = match self.feed.unseen.pop() {
            None => {
                runtime.close_wallet(self.whales[self.index].address.as_str(), &self.processed);
                self.advance();
                return CycleAction::Continue;
            },
            Some(t) => t,
        };
        let key = trade_key(&trade);
        if listed(&self.processed, key.as_str()) {
            return CycleAction::Continue;
        }
        let ghost before = self.processed@;
        let ghost added = key;
        self.processed.push(key);
        proof {
            assert(texts(before.push(added)) =~= texts(before).push(added@));
        }
        match judge_trade(state, runtime, &self.whales[self.index], &trade, config, at) {
            Outcome::Stopped => {
                runtime.close_wallet(self.whales[self.index].address.as_str(), &self.processed);
                self.phase = Phase::Over;
                CycleAction::Finished
            },
            Outcome::Order(plan) => {
                self.phase = Phase::Placing;
                self.current = Some(trade);
                self.order = Some(LiveOrder::new(plan));
                CycleAction::PrepareOrder
            },
            _ => CycleAction::Continue,
        }
    }

    fn on_order(
        &mut self,
        state: &mut BotState,
        runtime: &mut TradingRuntime,
        config: &Config,
        event: live::Event,
        at: Timestamp,
    ) -> (r: CycleAction)
        requires
            counters_have_room(old(state)@),
            old(self)@.phase == Phase::Placing,
            consistent(old(self)@),
            event matches live::Event::Converted(Some(q)) ==> q.mantissa > i128::MIN,
        ensures
            (final(self)@, final(state)@, final(runtime)@, r) == order_step(
                old(self)@,
                old(state)@,
                old(runtime)@,
                *config,
                event,
                at,
            ),
    {
        if let Some(open_order) = self.order {
            let mut order = open_order;
            let action = order.step(config, event);
            match action {
                live::Action::GiveUp(reason) => {
                    record_skip_reason(state, reason, at);
                    self.phase = Phase::Judging;
                    self.current = None;
                    self.order = None;
                    CycleAction::Continue
                },
                live::Action::RecordTrade => {
                    if let Some(trade) = &self.current {
                        record_copy(
                            state,
                            runtime,
                            self.whales[self.index].address.as_str(),
                            trade,
                            &order.plan,
                            false,
                            at,
                        );
                    }
                    self.phase = Phase::Judging;
                    self.current = None;
                    self.order = None;
                    CycleAction::Continue
                },
                _ => {
                    self.order = Some(order);
                    CycleAction::Order(action)
                },
            }
        } else {
            CycleAction::Nothing
        }
    }

    /// Takes an event and decides what is to be done next.
    pub fn step(
        &mut self,
        state: &mut BotState,
        runtime: &mut TradingRuntime,
        config: &Config,
        event: CycleEvent,
        at: Timestamp,
    ) -> (r: CycleAction)
        requires
            consistent(old(self)@),
            counters_have_room(old(state)@),
            event matches CycleEvent::Order(live::Event::Converted(Some(q))) ==> q.mantissa > i128::MIN,
        ensures
            consistent(final(self)@),
            (final(self)@, final(state)@, final(runtime)@, r) == cycle_step(
                old(self)@,
                old(state)@,
                old(runtime)@,
                *config,
                event,
                at,
            ),
    {
        match (self.phase, event) {
            (Phase::Start, CycleEvent::Go) => self.on_start(state, runtime, config, at),
            (Phase::Whale, CycleEvent::Go) => {
                let ghost memory = runtime@;
                let ghost look = self@;
                let ghost books = state@;
                let action = self.on_whale(state, at);
                proof {
                    assert((self@, state@, memory, action) == whale_step(look, books, memory, at));
                }
                action
            },
            (Phase::Address, CycleEvent::AddressParsed(valid)) => self.on_address(
                state,
                runtime,
                valid,
                at,
            ),
            (Phase::Fetching, CycleEvent::Page(page)) => self.on_page(state, runtime, page, at),
            (Phase::Fetching, CycleEvent::PageFailed) => {
                record_skip_reason(state, SkipReason::DataApiError, at);
                self.advance();
                CycleAction::Continue
            },
            (Phase::Judging, CycleEvent::Go) => self.on_judge(state, runtime, config, at),
            (Phase::Placing, CycleEvent::Order(event)) => self.on_order(
                state,
                runtime,
                config,
                event,
                at,
            ),
            _ => CycleAction::Nothing,
        }
    }
}

/// While a risk limit is reached nothing is looked at and no trade is made.
pub proof fn reached_limit_stops_everything(
    look: Look,
    books: Books,
    memory: Memory,
    config: Config,
    at: Timestamp,
)
    requires
        look.phase == Phase::Start,
        cycle_block(books, config) is Some,
    ensures
        ({
            let (after, entered, kept, action) = cycle_step(look, books, memory, config, CycleEvent::Go, at);
            &&& after.phase == Phase::Over
            &&& action is Finished
            &&& kept == memory
            &&& entered.balance == books.balance
            &&& entered.positions == books.positions
            &&& entered.trade_count == books.trade_count
        }),
{
}

/// A look that is over stays so, and changes nothing.
pub proof fn over_changes_nothing(
    look: Look,
    books: Books,
    memory: Memory,
    config: Config,
    event: CycleEvent,
    at: Timestamp,
)
    requires
        look.phase == Phase::Over,
    ensures
        cycle_step(look, books, memory, config, event, at) == (look, books, memory, CycleAction::Nothing),
{
}

/// In live trading, cash and positions change, and a trade is counted, only
/// when an order was posted and the reply says that it was accepted.
#[verifier::spinoff_prover]
#[verifier::rlimit(50)]
pub proof fn live_books_move_only_on_posting(
    look: Look,
    books: Books,
    memory: Memory,
    config: Config,
    event: CycleEvent,
    at: Timestamp,
)
    requires
        !config.dry_run,
        consistent(look),
        !(look.phase == Phase::Placing && look.order->0.stage == Stage::Post && event
            == CycleEvent::Order(live::Event::Posted { accepted: true })),
    ensures
        ({
            let (_, after, kept, _) = cycle_step(look, books, memory, config, event, at);
            &&& after.balance == books.balance
            &&& after.positions == books.positions
            &&& after.equity == books.equity
            &&& after.trade_count == books.trade_count
            &&& look.phase != Phase::Start ==> kept.exposure == memory.exposure
        }),
{
}

/// While trades are only simulated, no step prepares an order or does a step of
/// one.
#[verifier::spinoff_prover]
#[verifier::rlimit(50)]
pub proof fn simulation_places_no_order(
    look: Look,
    books: Books,
    memory: Memory,
    config: Config,
    event: CycleEvent,
    at: Timestamp,
)
    requires
        config.dry_run,
        look.phase != Phase::Placing,
    ensures
        ({
            let (after, _, _, action) = cycle_step(look, books, memory, config, event, at);
            &&& after.phase != Phase::Placing
            &&& action !is PrepareOrder
            &&& action !is Order
        }),
{
}

/// No step makes more than one trade.
#[verifier::spinoff_prover]
#[verifier::rlimit(50)]
pub proof fn one_trade_at_a_time(
    look: Look,
    books: Books,
    memory: Memory,
    config: Config,
    event: CycleEvent,
    at: Timestamp,
)
    ensures
        books.trade_count <= cycle_step(look, books, memory, config, event, at).1.trade_count
            <= books.trade_count + 1,
{
}

/// Whether an order that is being placed is the one that the books and the memory
/// call for.
pub open spec fn is_justified(look: Look, books: Books, memory: Memory, config: Config) -> bool {
    look.phase == Phase::Placing ==> {
        &&& look.current is Some
        &&& look.order is Some
        &&& verdict(
            situation(books, memory, look.whales[look.index], look.current->0),
            config,
        ) == Verdict::Copy(look.order->0.plan)
    }
}

/// Every step keeps the order that is being placed the one that is called for.
#[verifier::spinoff_prover]
#[verifier::rlimit(50)]
pub proof fn placed_order_stays_justified(
    look: Look,
    books: Books,
    memory: Memory,
    config: Config,
    event: CycleEvent,
    at: Timestamp,
)
    requires
        is_justified(look, books, memory, config),
    ensures
        ({
            let (after, entered, kept, _) = cycle_step(look, books, memory, config, event, at);
            is_justified(after, entered, kept, config)
        }),
{
}

/// Whether a trade is a copy that the books and the memory call for.
pub open spec fn is_called_for(
    trade: Trade,
    books: Books,
    memory: Memory,
    whale: TraderProfile,
    source: WhaleTrade,
    plan: CopyPlan,
    config: Config,
) -> bool {
    &&& verdict(situation(books, memory, whale, source), config) == Verdict::Copy(plan)
    &&& trade.whale_address == whale.address@
    &&& trade.market == source.condition_id@
    &&& trade.price == plan.market_price
    &&& trade.effective_price == plan.effective_price
    &&& trade.size_usdc == plan.size_usdc
    &&& trade.shares == plan.shares
}

/// A trade is recorded only if the books and the memory just before it call for
/// it: so what holds of a trade that is to be made holds of every recorded one.
#[verifier::spinoff_prover]
#[verifier::rlimit(50)]
pub proof fn recorded_trade_was_called_for(
    look: Look,
    books: Books,
    memory: Memory,
    config: Config,
    event: CycleEvent,
    at: Timestamp,
) -> (r: (TraderProfile, WhaleTrade, CopyPlan))
    requires
        is_justified(look, books, memory, config),
        cycle_step(look, books, memory, config, event, at).1.trade_count > books.trade_count,
    ensures
        is_called_for(
            cycle_step(look, books, memory, config, event, at).1.recent_trades[0],
            books,
            memory,
            r.0,
            r.1,
            r.2,
            config,
        ),
        r.0 == look.whales[look.index],
{
    let whale = look.whales[look.index];
    match (look.phase, event) {
        (Phase::Judging, CycleEvent::Go) => {
            let trade = look.unseen.last();
            let plan = verdict(situation(books, memory, whale, trade), config)->Copy_0;
            (whale, trade, plan)
        },
        _ => (whale, look.current->0, look.order->0.plan),
    }
}

} // verus!
