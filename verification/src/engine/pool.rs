//! A pool of engines shared by the sessions of a server: how many engines
//! may exist, which are idle, and how a session takes and gives back one.
//! Locking, model loading and engine set-up stay with the server.

use vstd::prelude::*;

use super::interface::{Engine, EngineError};

verus! {

/// How large a pool may grow and how its engines are set up.
#[derive(Debug, Clone)]
pub struct PoolConfig {
    pub max_engines: usize,
    pub threads_per_engine: usize,
    pub hash_mb_per_engine: usize,
    /// An explicit model path fails closed when missing or invalid.
    pub nnue_file: Option<String>,
}

impl Default for PoolConfig {
    fn default() -> (c: Self)
        ensures
            c.max_engines == 8,
            c.threads_per_engine == 1,
            c.hash_mb_per_engine == 16,
            c.nnue_file is None,
    {
        PoolConfig { max_engines: 8, threads_per_engine: 1, hash_mb_per_engine: 16, nnue_file: None }
    }
}

/// Why no engine could be had.
#[derive(Debug)]
pub enum PoolError {
    /// Every engine the pool may have is in use.
    Exhausted,
    /// Setting up the engine failed.
    Engine(EngineError),
    /// Making the engine failed; the text says why.
    Initialization(String),
}

/// The counts of a pool: idle engines and all engines, including those in
/// use and those reserved but not yet made.
pub struct PoolCounts {
    pub available: nat,
    pub total: nat,
}

/// What taking an engine does to the counts, with `max` engines allowed: an
/// idle engine is handed out, else room for a new one is reserved; `None`
/// when every engine is in use.
pub open spec fn counts_after_reserve(c: PoolCounts, max: nat) -> Option<PoolCounts> {
    if c.available > 0 {
        Some(PoolCounts { available: (c.available - 1) as nat, total: c.total })
    } else if c.total < max {
        Some(PoolCounts { available: c.available, total: c.total + 1 })
    } else {
        None
    }
}

/// What giving back does to the counts: the engine becomes idle, or, when
/// none was made, its room is freed.
pub open spec fn counts_after_release(c: PoolCounts, had_engine: bool) -> PoolCounts {
    if had_engine {
        PoolCounts { available: c.available + 1, total: c.total }
    } else {
        PoolCounts { available: c.available, total: (c.total - 1) as nat }
    }
}

/// Engines in use or reserved.
pub open spec fn active(c: PoolCounts) -> int {
    c.total - c.available
}

/// Taking an engine and giving back what was taken leaves the counts as
/// they were: a lease returns the capacity it held.
pub proof fn lemma_release_restores(c: PoolCounts, max: nat)
    requires
        c.available <= c.total <= max,
        counts_after_reserve(c, max) is Some,
    ensures
        counts_after_release(counts_after_reserve(c, max).unwrap(), c.available > 0) == c,
{
}

/// Every successful taking leaves one more engine in use, and never more
/// than `max` in all.
pub proof fn lemma_reserve_bounded(c: PoolCounts, max: nat)
    requires
        c.available <= c.total <= max,
    ensures
        counts_after_reserve(c, max) matches Some(d) ==> d.available <= d.total <= max && active(d)
            == active(c) + 1,
        counts_after_reserve(c, max) is None <==> c.available == 0 && c.total == max,
{
}

/// A pool: its idle engines, how many engines exist or are reserved, and its
/// settings.
pub struct EnginePool {
    available: Vec<Engine>,
    total: usize,
    config: PoolConfig,
}

impl EnginePool {
    /// The pool's counts.
    pub closed spec fn counts(&self) -> PoolCounts {
        PoolCounts { available: self.available@.len(), total: self.total as nat }
    }

    /// The most engines the pool may have.
    pub closed spec fn max(&self) -> nat {
        self.config.max_engines as nat
    }

    /// The idle engines, the last one handed out first.
    pub closed spec fn idle(&self) -> Seq<Engine> {
        self.available@
    }

    /// There are no more idle engines than engines, nor more engines than
    /// allowed.
    pub closed spec fn wf(&self) -> bool {
        self.available@.len() <= self.total <= self.config.max_engines
    }

    /// An empty pool with `config`.
    pub fn new(config: PoolConfig) -> (p: EnginePool)
        ensures
            p.wf(),
            p.counts() == (PoolCounts { available: 0, total: 0 }),
            p.max() == config.max_engines,
    {
        EnginePool { available: Vec::new(), total: 0, config }
    }

    /// The pool's settings.
    pub fn config(&self) -> (c: &PoolConfig)
        ensures
            c.max_engines == self.max(),
    {
        &self.config
    }

    /// Takes an idle engine (`Ok(Some(..))`), or reserves room for a new one
    /// that the caller makes (`Ok(None)`); `Exhausted` when every engine is
    /// in use, and then nothing changes.
    pub fn reserve(&mut self) -> (r: Result<Option<Engine>, PoolError>)
        requires
            old(self).wf(),
        ensures
            final(self).wf(),
            final(self).max() == old(self).max(),
            match counts_after_reserve(old(self).counts(), old(self).max()) {
                Some(c) => final(self).counts() == c && match r {
                    Ok(Some(e)) => old(self).counts().available > 0 && e == old(self).idle().last()
                        && final(self).idle() == old(self).idle().drop_last(),
                    Ok(None) => old(self).counts().available == 0 && final(self).idle() == old(
                        self,
                    ).idle(),
                    Err(_) => false,
                },
                None => r matches Err(PoolError::Exhausted) && final(self).counts() == old(
                    self,
                ).counts() && final(self).idle() == old(self).idle(),
            },
    {
        if let Some(engine) = self.available.pop() {
            Ok(Some(engine))
        } else if self.total < self.config.max_engines {
            self.total = self.total + 1;
            Ok(None)
        } else {
            Err(PoolError::Exhausted)
        }
    }

    /// Gives back what a reservation took: the engine, which becomes idle,
    /// or, when none was made, the room reserved for it.
    pub fn release(&mut self, engine: Option<Engine>)
        requires
            old(self).wf(),
            active(old(self).counts()) > 0,
        ensures
            final(self).wf(),
            final(self).max() == old(self).max(),
            final(self).counts() == counts_after_release(old(self).counts(), engine is Some),
            engine matches Some(e) ==> final(self).idle() == old(self).idle().push(e),
            engine is None ==> final(self).idle() == old(self).idle(),
    {
        match engine {
            Some(e) => self.available.push(e),
            None => self.total = self.total - 1,
        }
    }

    /// Engines in use or reserved.
    pub fn active_count(&self) -> (n: usize)
        requires
            self.wf(),
        ensures
            n == active(self.counts()),
    {
        self.total - self.available.len()
    }

    /// Idle engines.
    pub fn available_count(&self) -> (n: usize)
        ensures
            n == self.counts().available,
    {
        self.available.len()
    }
}

} // verus!
