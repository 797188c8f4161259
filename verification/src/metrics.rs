use vstd::prelude::*;

verus! {

/// Counters of engine activity. Every counter wraps around at `u64::MAX`,
/// as an atomic `fetch_add` does.
pub struct EngineMetrics {
    store_count: u64,
    search_count: u64,
    error_count: u64,
    search_latency_sum_ms: u64,
}

/// `a + b` modulo 2^64.
pub open spec fn wrap_add(a: u64, b: u64) -> u64 {
    ((a as int + b as int) % 0x1_0000_0000_0000_0000) as u64
}

impl EngineMetrics {
    pub closed spec fn stores(&self) -> u64 {
        self.store_count
    }

    pub closed spec fn searches(&self) -> u64 {
        self.search_count
    }

    pub closed spec fn errors(&self) -> u64 {
        self.error_count
    }

    pub closed spec fn latency_sum(&self) -> u64 {
        self.search_latency_sum_ms
    }

    pub fn new() -> (m: EngineMetrics)
        ensures
            m.stores() == 0,
            m.searches() == 0,
            m.errors() == 0,
            m.latency_sum() == 0,
    {
        EngineMetrics { store_count: 0, search_count: 0, error_count: 0, search_latency_sum_ms: 0 }
    }

    pub fn record_store(&mut self)
        ensures
            final(self).stores() == wrap_add(old(self).stores(), 1),
            final(self).searches() == old(self).searches(),
            final(self).errors() == old(self).errors(),
            final(self).latency_sum() == old(self).latency_sum(),
    {
        self.store_count = self.store_count.wrapping_add(1);
    }

    pub fn record_search(&mut self, latency_ms: u64)
        ensures
            final(self).searches() == wrap_add(old(self).searches(), 1),
            final(self).latency_sum() == wrap_add(old(self).latency_sum(), latency_ms),
            final(self).stores() == old(self).stores(),
            final(self).errors() == old(self).errors(),
    {
        self.search_count = self.search_count.wrapping_add(1);
        self.search_latency_sum_ms = self.search_latency_sum_ms.wrapping_add(latency_ms);
    }

    pub fn record_error(&mut self)
        ensures
            final(self).errors() == wrap_add(old(self).errors(), 1),
            final(self).stores() == old(self).stores(),
            final(self).searches() == old(self).searches(),
            final(self).latency_sum() == old(self).latency_sum(),
    {
        self.error_count = self.error_count.wrapping_add(1);
    }

    pub fn store_count(&self) -> (n: u64)
        ensures
            n == self.stores(),
    {
        self.store_count
    }

    pub fn search_count(&self) -> (n: u64)
        ensures
            n == self.searches(),
    {
        self.search_count
    }

    pub fn error_count(&self) -> (n: u64)
        ensures
            n == self.errors(),
    {
        self.error_count
    }

    /// Stores plus searches.
    pub fn total_requests(&self) -> (n: u64)
        requires
            self.stores() + self.searches() <= u64::MAX,
        ensures
            n == self.stores() + self.searches(),
    {
        self.store_count + self.search_count
    }

    /// Mean search latency, rounded down; 0 when nothing was searched.
    pub fn avg_search_latency_ms(&self) -> (avg: u64)
        ensures
            self.searches() == 0 ==> avg == 0,
            self.searches() > 0 ==> avg == self.latency_sum() / self.searches(),
    {
        if self.search_count == 0 {
            return 0;
        }
        self.search_latency_sum_ms / self.search_count
    }

    pub fn reset(&mut self)
        ensures
            final(self).stores() == 0,
            final(self).searches() == 0,
            final(self).errors() == 0,
            final(self).latency_sum() == 0,
    {
        self.store_count = 0;
        self.search_count = 0;
        self.error_count = 0;
        self.search_latency_sum_ms = 0;
    }
}

impl Default for EngineMetrics {
    fn default() -> (m: EngineMetrics)
        ensures
            m.stores() == 0,
            m.searches() == 0,
            m.errors() == 0,
            m.latency_sum() == 0,
    {
        EngineMetrics::new()
    }
}

} // verus!
